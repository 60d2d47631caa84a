//! Reaction counts: which emoji a post was given, and how often.

use vstd::prelude::*;

use crate::text;

verus! {

/// Emoji with their counts, by emoji in dictionary order.
pub struct Reactions {
    entries: Vec<(String, i32)>,
}

/// Every emoji stands before the next one in dictionary order, so none stands twice.
pub open spec fn ascending(e: Seq<(Seq<char>, i32)>) -> bool {
    forall|i: int, j: int|
        #![trigger e[i], e[j]]
        0 <= i < j < e.len() ==> text::text_less(e[i].0, e[j].0)
}

/// The count under each emoji.
pub open spec fn counts(e: Seq<(Seq<char>, i32)>) -> Map<Seq<char>, i32>
    decreases e.len(),
{
    if e.len() == 0 {
        Map::empty()
    } else {
        counts(e.drop_last()).insert(e.last().0, e.last().1)
    }
}

proof fn lemma_counts_dom(e: Seq<(Seq<char>, i32)>, k: Seq<char>)
    ensures
        counts(e).dom().contains(k) <==> exists|i: int| 0 <= i < e.len() && (#[trigger] e[i]).0 == k,
    decreases e.len(),
{
    if e.len() > 0 {
        lemma_counts_dom(e.drop_last(), k);
        if counts(e).dom().contains(k) && k != e.last().0 {
            let i = choose|i: int| 0 <= i < e.drop_last().len() && (#[trigger] e.drop_last()[i]).0 == k;
            assert(e[i].0 == k);
        }
        if exists|i: int| 0 <= i < e.len() && (#[trigger] e[i]).0 == k {
            let i = choose|i: int| 0 <= i < e.len() && (#[trigger] e[i]).0 == k;
            if i < e.len() - 1 {
                assert(e.drop_last()[i].0 == k);
            }
        }
        if k == e.last().0 {
            assert(e[e.len() - 1].0 == k);
        }
    }
}

proof fn lemma_counts_at(e: Seq<(Seq<char>, i32)>, i: int)
    requires
        ascending(e),
        0 <= i < e.len(),
    ensures
        counts(e).dom().contains(e[i].0),
        counts(e)[e[i].0] == e[i].1,
    decreases e.len(),
{
    let last = e.len() - 1;
    if i < last {
        assert(ascending(e.drop_last())) by {
            assert forall|a: int, b: int|
                #![trigger e.drop_last()[a], e.drop_last()[b]]
                0 <= a < b < e.drop_last().len() implies text::text_less(
                e.drop_last()[a].0,
                e.drop_last()[b].0,
            ) by {
                assert(text::text_less(e[a].0, e[b].0));
            }
        }
        lemma_counts_at(e.drop_last(), i);
        assert(text::text_less(e[i].0, e[last].0));
        text::lemma_text_less_total(e[i].0, e[last].0);
    }
}

/// The order is canonical: the counts alone determine the list.
pub proof fn lemma_canonical(a: Seq<(Seq<char>, i32)>, b: Seq<(Seq<char>, i32)>)
    requires
        ascending(a),
        ascending(b),
        counts(a) == counts(b),
    ensures
        a == b,
    decreases a.len(),
{
    if a.len() == 0 {
        if b.len() > 0 {
            lemma_counts_at(b, 0);
        }
        assert(a =~= b);
    } else if b.len() == 0 {
        lemma_counts_at(a, 0);
    } else {
        let la = a.len() - 1;
        let lb = b.len() - 1;
        lemma_counts_at(a, la);
        lemma_counts_at(b, lb);
        lemma_counts_dom(a, b[lb].0);
        lemma_counts_dom(b, a[la].0);
        let i = choose|i: int| 0 <= i < a.len() && (#[trigger] a[i]).0 == b[lb].0;
        let j = choose|j: int| 0 <= j < b.len() && (#[trigger] b[j]).0 == a[la].0;
        if i < la {
            assert(text::text_less(a[i].0, a[la].0));
            if j < lb {
                assert(text::text_less(b[j].0, b[lb].0));
            }
            text::lemma_text_less_total(a[i].0, a[la].0);
        }
        assert(a[la] == b[lb]);
        let x = a.drop_last();
        let y = b.drop_last();
        assert forall|p: int, q: int|
            #![trigger x[p], x[q]]
            0 <= p < q < x.len() implies text::text_less(x[p].0, x[q].0) by {
            assert(text::text_less(a[p].0, a[q].0));
        }
        assert forall|p: int, q: int|
            #![trigger y[p], y[q]]
            0 <= p < q < y.len() implies text::text_less(y[p].0, y[q].0) by {
            assert(text::text_less(b[p].0, b[q].0));
        }
        let k = a[la].0;
        lemma_counts_dom(x, k);
        lemma_counts_dom(y, k);
        assert(!counts(x).dom().contains(k)) by {
            if counts(x).dom().contains(k) {
                let p = choose|p: int| 0 <= p < x.len() && (#[trigger] x[p]).0 == k;
                assert(text::text_less(a[p].0, a[la].0));
                text::lemma_text_less_total(a[p].0, a[la].0);
            }
        }
        assert(!counts(y).dom().contains(k)) by {
            if counts(y).dom().contains(k) {
                let p = choose|p: int| 0 <= p < y.len() && (#[trigger] y[p]).0 == k;
                assert(text::text_less(b[p].0, b[lb].0));
                text::lemma_text_less_total(b[p].0, b[lb].0);
            }
        }
        assert(counts(x) =~= counts(a).remove(k));
        assert(counts(y) =~= counts(b).remove(k));
        lemma_canonical(x, y);
        assert(a =~= x.push(a[la]));
        assert(b =~= y.push(b[lb]));
    }
}

/// `e` with `v` put in at `at`.
proof fn lemma_counts_insert(e: Seq<(Seq<char>, i32)>, at: int, v: (Seq<char>, i32))
    requires
        ascending(e),
        0 <= at <= e.len(),
        forall|i: int| 0 <= i < e.len() ==> (#[trigger] e[i]).0 != v.0,
        ascending(e.insert(at, v)),
    ensures
        counts(e.insert(at, v)) == counts(e).insert(v.0, v.1),
{
    let f = e.insert(at, v);
    let m = counts(e).insert(v.0, v.1);
    assert forall|k: Seq<char>| counts(f).dom().contains(k) <==> m.dom().contains(k) by {
        lemma_counts_dom(f, k);
        lemma_counts_dom(e, k);
        if counts(f).dom().contains(k) && k != v.0 {
            let i = choose|i: int| 0 <= i < f.len() && (#[trigger] f[i]).0 == k;
            if i < at {
                assert(e[i].0 == k);
            } else {
                assert(e[i - 1].0 == k);
            }
        }
        if counts(e).dom().contains(k) {
            let i = choose|i: int| 0 <= i < e.len() && (#[trigger] e[i]).0 == k;
            if i < at {
                assert(f[i].0 == k);
            } else {
                assert(f[i + 1].0 == k);
            }
        }
        assert(f[at].0 == v.0);
    }
    assert forall|k: Seq<char>| m.dom().contains(k) implies counts(f)[k] == m[k] by {
        if k == v.0 {
            lemma_counts_at(f, at);
        } else {
            lemma_counts_dom(e, k);
            let i = choose|i: int| 0 <= i < e.len() && (#[trigger] e[i]).0 == k;
            lemma_counts_at(e, i);
            if i < at {
                assert(f[i] == e[i]);
                lemma_counts_at(f, i);
            } else {
                assert(f[i + 1] == e[i]);
                lemma_counts_at(f, i + 1);
            }
        }
    }
    assert(counts(f) =~= m);
}

proof fn lemma_counts_update(e: Seq<(Seq<char>, i32)>, at: int, n: i32)
    requires
        ascending(e),
        0 <= at < e.len(),
    ensures
        ascending(e.update(at, (e[at].0, n))),
        counts(e.update(at, (e[at].0, n))) == counts(e).insert(e[at].0, n),
{
    let f = e.update(at, (e[at].0, n));
    assert forall|p: int, q: int|
        #![trigger f[p], f[q]]
        0 <= p < q < f.len() implies text::text_less(f[p].0, f[q].0) by {
        assert(text::text_less(e[p].0, e[q].0));
    }
    let m = counts(e).insert(e[at].0, n);
    assert forall|k: Seq<char>| counts(f).dom().contains(k) <==> m.dom().contains(k) by {
        lemma_counts_dom(f, k);
        lemma_counts_dom(e, k);
        if counts(f).dom().contains(k) {
            let i = choose|i: int| 0 <= i < f.len() && (#[trigger] f[i]).0 == k;
            assert(e[i].0 == k);
        }
        if counts(e).dom().contains(k) {
            let i = choose|i: int| 0 <= i < e.len() && (#[trigger] e[i]).0 == k;
            assert(f[i].0 == k);
        }
        assert(f[at].0 == e[at].0);
    }
    assert forall|k: Seq<char>| m.dom().contains(k) implies counts(f)[k] == m[k] by {
        lemma_counts_dom(e, k);
        if k == e[at].0 {
            lemma_counts_at(f, at);
        } else {
            let i = choose|i: int| 0 <= i < e.len() && (#[trigger] e[i]).0 == k;
            lemma_counts_at(e, i);
            assert(f[i] == e[i]);
            lemma_counts_at(f, i);
        }
    }
    assert(counts(f) =~= m);
}

impl DeepView for Reactions {
    type V = Seq<(Seq<char>, i32)>;

    closed spec fn deep_view(&self) -> Seq<(Seq<char>, i32)> {
        self.entries.deep_view()
    }
}

impl Clone for Reactions {
    fn clone(&self) -> (r: Self)
        ensures
            r.deep_view() == self.deep_view(),
    {
        proof {
            use_type_invariant(self);
        }
        let mut out: Vec<(String, i32)> = Vec::new();
        let mut i: usize = 0;
        while i < self.entries.len()
            invariant
                i <= self.entries@.len(),
                out@.len() == i,
                forall|j: int| 0 <= j < i ==> out@[j] == #[trigger] self.entries@[j],
            decreases self.entries@.len() - i,
        {
            out.push((self.entries[i].0.clone(), self.entries[i].1));
            i = i + 1;
        }
        assert(out@ =~= self.entries@);
        assert(out.deep_view() =~= self.entries.deep_view());
        Reactions { entries: out }
    }
}

impl Default for Reactions {
    fn default() -> (r: Self)
        ensures
            r.deep_view() == Seq::<(Seq<char>, i32)>::empty(),
    {
        Reactions::new()
    }
}

impl Reactions {
    #[verifier::type_invariant]
    spec fn well_formed(self) -> bool {
        ascending(self.entries.deep_view())
    }

    /// No reactions.
    pub fn new() -> (r: Self)
        ensures
            r.deep_view() == Seq::<(Seq<char>, i32)>::empty(),
    {
        let r: Reactions = Reactions { entries: Vec::new() };
        assert(r.entries.deep_view() =~= Seq::<(Seq<char>, i32)>::empty());
        r
    }

    /// The reactions that a list in dictionary order gives.
    pub fn from_pairs(pairs: Vec<(String, i32)>) -> (r: Self)
        requires
            ascending(pairs.deep_view()),
        ensures
            r.deep_view() == pairs.deep_view(),
    {
        Reactions { entries: pairs }
    }

    /// The emoji with their counts, in dictionary order.
    pub fn pairs(&self) -> (r: &Vec<(String, i32)>)
        ensures
            r.deep_view() == self.deep_view(),
            ascending(self.deep_view()),
    {
        proof {
            use_type_invariant(self);
        }
        &self.entries
    }

    /// How many emoji there are.
    pub fn len(&self) -> (r: usize)
        ensures
            r == self.deep_view().len(),
            ascending(self.deep_view()),
    {
        proof {
            use_type_invariant(self);
        }
        self.entries.len()
    }

    pub fn emoji(&self, i: usize) -> (r: &str)
        requires
            i < self.deep_view().len(),
        ensures
            r@ == self.deep_view()[i as int].0,
    {
        self.entries[i].0.as_str()
    }

    pub fn count(&self, i: usize) -> (r: i32)
        requires
            i < self.deep_view().len(),
        ensures
            r == self.deep_view()[i as int].1,
    {
        self.entries[i].1
    }

    /// Where `emoji` stands, or where it belongs if it is not there.
    fn place(&self, emoji: &str) -> (r: (usize, bool))
        ensures
            r.0 <= self.entries@.len(),
            r.1 ==> r.0 < self.entries@.len() && self.entries@[r.0 as int].0@ == emoji@,
            !r.1 ==> {
                &&& forall|j: int|
                    0 <= j < r.0 ==> text::text_less((#[trigger] self.entries@[j]).0@, emoji@)
                &&& forall|j: int|
                    r.0 <= j < self.entries@.len() ==> text::text_less(
                        emoji@,
                        (#[trigger] self.entries@[j]).0@,
                    )
            },
    {
        proof {
            use_type_invariant(self);
        }
        let mut i: usize = 0;
        while i < self.entries.len() && text::text_before(self.entries[i].0.as_str(), emoji)
            invariant
                i <= self.entries@.len(),
                forall|j: int|
                    0 <= j < i ==> text::text_less((#[trigger] self.entries@[j]).0@, emoji@),
            decreases self.entries@.len() - i,
        {
            i = i + 1;
        }
        if i < self.entries.len() && text::same_text(self.entries[i].0.as_str(), emoji) {
            (i, true)
        } else {
            proof {
                let v = self.entries.deep_view();
                assert forall|j: int| i <= j < self.entries@.len() implies text::text_less(
                    emoji@,
                    (#[trigger] self.entries@[j]).0@,
                ) by {
                    text::lemma_text_less_total(emoji@, self.entries@[i as int].0@);
                    if j > i {
                        assert(text::text_less(v[i as int].0, v[j].0));
                        text::lemma_text_less_transitive(
                            emoji@,
                            self.entries@[i as int].0@,
                            self.entries@[j].0@,
                        );
                    }
                }
            }
            (i, false)
        }
    }

    /// The count under `emoji`.
    pub fn get(&self, emoji: &str) -> (r: Option<i32>)
        ensures
            r == (if counts(self.deep_view()).dom().contains(emoji@) {
                Some(counts(self.deep_view())[emoji@])
            } else {
                None
            }),
    {
        proof {
            use_type_invariant(self);
        }
        let (i, found) = self.place(emoji);
        let ghost v = self.entries.deep_view();
        if found {
            proof {
                lemma_counts_at(v, i as int);
            }
            Some(self.entries[i].1)
        } else {
            proof {
                lemma_counts_dom(v, emoji@);
                if counts(v).dom().contains(emoji@) {
                    let j = choose|j: int| 0 <= j < v.len() && (#[trigger] v[j]).0 == emoji@;
                    assert(self.entries@[j].0@ == emoji@);
                    text::lemma_text_less_total(emoji@, self.entries@[j].0@);
                }
            }
            None
        }
    }

    /// Put `count` under `emoji`, in place of what was there.
    pub fn set(&mut self, emoji: &str, count: i32)
        ensures
            ascending(final(self).deep_view()),
            counts(final(self).deep_view()) == counts(old(self).deep_view()).insert(emoji@, count),
    {
        proof {
            use_type_invariant(&*self);
        }
        let (i, found) = self.place(emoji);
        let ghost before = self.entries.deep_view();
        let mut entries: Vec<(String, i32)> = Vec::new();
        std::mem::swap(&mut entries, &mut self.entries);
        let key: String = emoji.to_owned();
        if found {
            entries.set(i, (key, count));
            proof {
                lemma_counts_update(before, i as int, count);
                assert(entries.deep_view() =~= before.update(i as int, (before[i as int].0, count)));
            }
        } else {
            entries.insert(i, (key, count));
            proof {
                let after = before.insert(i as int, (emoji@, count));
                assert(entries.deep_view() =~= after);
                assert forall|j: int| 0 <= j < before.len() implies (#[trigger] before[j]).0 != emoji@ by {
                    assert(old(self).entries@[j].0@ == before[j].0);
                    text::lemma_text_less_total(before[j].0, emoji@);
                }
                assert forall|p: int, q: int|
                    #![trigger after[p], after[q]]
                    0 <= p < q < after.len() implies text::text_less(after[p].0, after[q].0) by {
                    if p < i && q == i {
                        assert(old(self).entries@[p].0@ == before[p].0);
                    } else if p == i {
                        assert(old(self).entries@[q - 1].0@ == before[q - 1].0);
                    } else if q < i {
                        assert(text::text_less(before[p].0, before[q].0));
                    } else if p < i {
                        assert(text::text_less(before[p].0, before[q - 1].0));
                    } else {
                        assert(text::text_less(before[p - 1].0, before[q - 1].0));
                    }
                }
                lemma_counts_insert(before, i as int, (emoji@, count));
            }
        }
        self.entries = entries;
    }

    /// Whether two posts were given the same reactions.
    pub fn same(&self, other: &Reactions) -> (r: bool)
        ensures
            r == (self.deep_view() == other.deep_view()),
    {
        let ghost a = self.deep_view();
        let ghost b = other.deep_view();
        if self.entries.len() != other.entries.len() {
            return false;
        }
        let mut i: usize = 0;
        while i < self.entries.len()
            invariant
                a == self.entries.deep_view(),
                b == other.entries.deep_view(),
                a.len() == b.len(),
                i <= a.len(),
                forall|j: int| 0 <= j < i ==> #[trigger] a[j] == b[j],
            decreases a.len() - i,
        {
            if self.entries[i].1 != other.entries[i].1 || !text::same_text(
                self.entries[i].0.as_str(),
                other.entries[i].0.as_str(),
            ) {
                assert(a[i as int] != b[i as int]);
                return false;
            }
            assert(a[i as int] == b[i as int]);
            i = i + 1;
        }
        assert(a =~= b);
        true
    }
}

} // verus!
