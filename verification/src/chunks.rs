//! Splitting of long texts into messages and descriptions that Discord accepts.

use vstd::prelude::*;

use crate::text;

verus! {

/// `s` in pieces of `limit` characters, the last one possibly shorter.
pub open spec fn pieces(s: Seq<char>, limit: nat) -> Seq<Seq<char>>
    decreases s.len(),
{
    if s.len() <= limit || limit == 0 {
        seq![s]
    } else {
        seq![s.take(limit as int)] + pieces(s.skip(limit as int), limit)
    }
}

/// Cut `s` into pieces of `limit` characters.
pub fn split_desc(s: &str, limit: usize) -> (r: Vec<String>)
    requires
        limit > 0,
    ensures
        r.deep_view() == pieces(s@, limit as nat),
{
    let v: Vec<char> = text::chars_of(s);
    let mut out: Vec<String> = Vec::new();
    let mut at: usize = 0;
    assert(v@.skip(0) =~= v@);
    assert(out.deep_view() + pieces(s@, limit as nat) =~= pieces(s@, limit as nat));
    while v.len() - at > limit
        invariant
            v@ == s@,
            limit > 0,
            at <= v@.len(),
            out.deep_view() + pieces(v@.skip(at as int), limit as nat) == pieces(s@, limit as nat),
        decreases v@.len() - at,
    {
        let ghost rest = v@.skip(at as int);
        let ghost done = out.deep_view();
        out.push(text::text_between(&v, at, at + limit));
        assert(rest.take(limit as int) =~= v@.subrange(at as int, at + limit));
        assert(rest.skip(limit as int) =~= v@.skip(at + limit));
        assert(out.deep_view() =~= done.push(rest.take(limit as int)));
        assert(out.deep_view() + pieces(v@.skip(at + limit), limit as nat) =~= done + pieces(
            rest,
            limit as nat,
        ));
        at = at + limit;
    }
    let ghost done = out.deep_view();
    out.push(text::text_between(&v, at, v.len()));
    assert(v@.skip(at as int) =~= v@.subrange(at as int, v@.len() as int));
    assert(out.deep_view() =~= done + pieces(v@.skip(at as int), limit as nat));
    out
}

/// Nothing is lost between pieces, and no piece is longer than the limit.
pub proof fn lemma_pieces(s: Seq<char>, limit: nat)
    requires
        limit > 0,
    ensures
        text::concat(pieces(s, limit)) == s,
        pieces(s, limit).len() >= 1,
        forall|i: int|
            0 <= i < pieces(s, limit).len() ==> (#[trigger] pieces(s, limit)[i]).len() <= limit,
        s.len() > 0 ==> forall|i: int|
            0 <= i < pieces(s, limit).len() ==> (#[trigger] pieces(s, limit)[i]).len() > 0,
    decreases s.len(),
{
    let p = pieces(s, limit);
    if s.len() <= limit {
        text::lemma_concat_one(s);
    } else {
        let rest = s.skip(limit as int);
        lemma_pieces(rest, limit);
        text::lemma_concat_front(s.take(limit as int), pieces(rest, limit));
        assert(text::concat(p) =~= s);
        assert forall|i: int| 0 <= i < p.len() implies (#[trigger] p[i]).len() <= limit && p[i].len()
            > 0 by {
            if i > 0 {
                assert(p[i] == pieces(rest, limit)[i - 1]);
            }
        }
    }
}

/// What stands between paragraphs.
pub open spec fn paragraph_break() -> Seq<char> {
    seq!['\n', '\n']
}

/// The paragraphs of `s` from a position on.
pub open spec fn paragraphs(s: Seq<char>, from: int) -> Seq<Seq<char>>
    decreases s.len() - from,
{
    match text::find_text(s, paragraph_break(), from) {
        Some(i) if from <= i && i + 2 <= s.len() => seq![s.subrange(from, i)] + paragraphs(s, i + 2),
        _ => seq![s.skip(from)],
    }
}

/// Chunks that are full, and the one that is being filled.
pub struct Packing {
    pub chunks: Seq<Seq<char>>,
    pub cur: Seq<char>,
}

/// The chunk that is being filled is closed, unless it is empty.
pub open spec fn closed_off(p: Packing) -> Packing {
    if p.cur.len() > 0 {
        Packing { chunks: p.chunks.push(p.cur), cur: Seq::empty() }
    } else {
        p
    }
}

/// One more paragraph: behind the others in the current chunk if it fits there with
/// the break before it, else in a new one; cut up where it is itself too long.
pub open spec fn packed(p: Packing, para: Seq<char>, limit: nat) -> Packing {
    let q = if p.cur.len() > 0 && p.cur.len() + para.len() + 2 > limit {
        closed_off(p)
    } else {
        p
    };
    if para.len() > limit {
        let ps = pieces(para, limit);
        Packing { chunks: closed_off(q).chunks + ps.drop_last(), cur: ps.last() }
    } else if q.cur.len() > 0 {
        Packing { chunks: q.chunks, cur: q.cur + paragraph_break() + para }
    } else {
        Packing { chunks: q.chunks, cur: para }
    }
}

/// All paragraphs in their order.
pub open spec fn packed_all(paras: Seq<Seq<char>>, limit: nat) -> Packing
    decreases paras.len(),
{
    if paras.len() == 0 {
        Packing { chunks: Seq::empty(), cur: Seq::empty() }
    } else {
        packed(packed_all(paras.drop_last(), limit), paras.last(), limit)
    }
}

/// A text in chunks of at most `limit` characters, cut between paragraphs where
/// that is possible.
pub open spec fn chunks_of(s: Seq<char>, limit: nat) -> Seq<Seq<char>> {
    if s.len() <= limit {
        seq![s]
    } else {
        closed_off(packed_all(paragraphs(s, 0), limit)).chunks
    }
}

fn paragraphs_of(v: &Vec<char>) -> (r: Vec<String>)
    ensures
        r.deep_view() == paragraphs(v@, 0),
{
    let mut needle: Vec<char> = Vec::new();
    needle.push('\n');
    needle.push('\n');
    assert(needle@ =~= paragraph_break());
    let mut out: Vec<String> = Vec::new();
    let mut from: usize = 0;
    let mut next: Option<usize> = text::find_in(v, &needle, 0);
    assert(out.deep_view() + paragraphs(v@, 0) =~= paragraphs(v@, 0));
    while next.is_some()
        invariant
            needle@ == paragraph_break(),
            from <= v@.len(),
            match next {
                Some(i) => text::find_text(v@, paragraph_break(), from as int) == Some(i as int),
                None => text::find_text(v@, paragraph_break(), from as int) is None,
            },
            out.deep_view() + paragraphs(v@, from as int) == paragraphs(v@, 0),
        decreases v@.len() - from,
    {
        let i: usize = next.unwrap();
        proof {
            text::lemma_find_text(v@, paragraph_break(), from as int);
        }
        assert(i + 2 <= v.len());
        let ghost done = out.deep_view();
        out.push(text::text_between(v, from, i));
        assert(out.deep_view() =~= done.push(v@.subrange(from as int, i as int)));
        assert(out.deep_view() + paragraphs(v@, i + 2) =~= done + paragraphs(v@, from as int));
        from = i + 2;
        next = text::find_in(v, &needle, from);
    }
    let ghost done = out.deep_view();
    out.push(text::text_between(v, from, v.len()));
    assert(v@.skip(from as int) =~= v@.subrange(from as int, v@.len() as int));
    assert(out.deep_view() =~= done + paragraphs(v@, from as int));
    out
}

/// Cut a text into chunks of at most `limit` characters.
pub fn split_chunks(s: &str, limit: usize) -> (r: Vec<String>)
    requires
        limit > 0,
    ensures
        r.deep_view() == chunks_of(s@, limit as nat),
{
    let v: Vec<char> = text::chars_of(s);
    if v.len() <= limit {
        let mut one: Vec<String> = Vec::new();
        one.push(s.to_owned());
        assert(one.deep_view() =~= seq![s@]);
        return one;
    }
    let paras: Vec<String> = paragraphs_of(&v);
    let ghost ps = paras.deep_view();
    let mut chunks: Vec<String> = Vec::new();
    let mut cur: Vec<char> = Vec::new();
    let mut i: usize = 0;
    assert(ps.take(0) =~= Seq::<Seq<char>>::empty());
    assert(chunks.deep_view() =~= Seq::<Seq<char>>::empty());
    assert(cur@ =~= Seq::<char>::empty());
    while i < paras.len()
        invariant
            limit > 0,
            ps == paras.deep_view(),
            i <= ps.len(),
            cur@.len() <= limit,
            packed_all(ps.take(i as int), limit as nat) == (Packing {
                chunks: chunks.deep_view(),
                cur: cur@,
            }),
        decreases ps.len() - i,
    {
        let para: Vec<char> = text::chars_of(paras[i].as_str());
        let ghost p = Packing { chunks: chunks.deep_view(), cur: cur@ };
        let ghost next = ps.take(i + 1);
        assert(next.drop_last() =~= ps.take(i as int));
        assert(next.last() == para@);
        if cur.len() > 0 && (limit - cur.len() < 2 || para.len() > limit - cur.len() - 2) {
            chunks.push(text::text_of(&cur));
            cur = Vec::new();
            assert(cur@ =~= Seq::<char>::empty());
            assert(chunks.deep_view() =~= p.chunks.push(p.cur));
        }
        let ghost q = Packing { chunks: chunks.deep_view(), cur: cur@ };
        if para.len() > limit {
            let mut ps2: Vec<String> = split_desc(paras[i].as_str(), limit);
            let ghost all = ps2.deep_view();
            proof {
                lemma_pieces(para@, limit as nat);
            }
            let last: String = ps2.pop().unwrap();
            assert(q.cur.len() == 0);
            assert(ps2.deep_view() =~= all.drop_last());
            assert(last@ == all.last());
            chunks.append(&mut ps2);
            cur = text::chars_of(last.as_str());
            assert(chunks.deep_view() =~= q.chunks + all.drop_last());
        } else if cur.len() > 0 {
            let mut para: Vec<char> = para;
            cur.push('\n');
            cur.push('\n');
            cur.append(&mut para);
            assert(cur@ =~= q.cur + paragraph_break() + next.last());
        } else {
            cur = para;
        }
        i = i + 1;
    }
    assert(ps.take(ps.len() as int) =~= ps);
    let ghost p = Packing { chunks: chunks.deep_view(), cur: cur@ };
    if cur.len() > 0 {
        chunks.push(text::text_of(&cur));
        assert(chunks.deep_view() =~= p.chunks.push(p.cur));
    }
    chunks
}

/// The characters of `s` that are no line feeds.
pub open spec fn solid(s: Seq<char>) -> Seq<char>
    decreases s.len(),
{
    if s.len() == 0 {
        Seq::empty()
    } else if s.last() == '\n' {
        solid(s.drop_last())
    } else {
        solid(s.drop_last()).push(s.last())
    }
}

proof fn lemma_solid_add(a: Seq<char>, b: Seq<char>)
    ensures
        solid(a + b) == solid(a) + solid(b),
    decreases b.len(),
{
    if b.len() == 0 {
        assert(a + b =~= a);
        assert(solid(a) + solid(b) =~= solid(a));
    } else {
        lemma_solid_add(a, b.drop_last());
        assert((a + b).drop_last() =~= a + b.drop_last());
        assert((a + b).last() == b.last());
        if b.last() != '\n' {
            assert(solid(a + b) =~= solid(a) + solid(b));
        }
    }
}

proof fn lemma_solid_break()
    ensures
        solid(paragraph_break()) == Seq::<char>::empty(),
{
    let b = paragraph_break();
    assert(b.drop_last() =~= seq!['\n']);
    assert(b.drop_last().drop_last() =~= Seq::<char>::empty());
    reveal_with_fuel(solid, 3);
}

/// All of a packing, one chunk behind the other.
spec fn contents(p: Packing) -> Seq<char> {
    text::concat(p.chunks) + p.cur
}

proof fn lemma_closed_off(p: Packing)
    ensures
        contents(closed_off(p)) == contents(p),
{
    if p.cur.len() > 0 {
        assert(p.chunks.push(p.cur).drop_last() =~= p.chunks);
        assert(contents(closed_off(p)) =~= contents(p));
    }
}

/// Within the limit, and no closed chunk is empty.
spec fn bounded(p: Packing, limit: nat) -> bool {
    &&& forall|i: int| 0 <= i < p.chunks.len() ==> 0 < (#[trigger] p.chunks[i]).len() <= limit
    &&& p.cur.len() <= limit
}

proof fn lemma_packed(p: Packing, para: Seq<char>, limit: nat)
    requires
        limit > 0,
        bounded(p, limit),
    ensures
        bounded(packed(p, para, limit), limit),
        solid(contents(packed(p, para, limit))) == solid(contents(p)) + solid(para),
{
    let over = p.cur.len() > 0 && p.cur.len() + para.len() + 2 > limit;
    let q = if over {
        closed_off(p)
    } else {
        p
    };
    lemma_closed_off(p);
    assert(contents(q) == contents(p));
    assert(bounded(q, limit));
    let r = packed(p, para, limit);
    lemma_solid_add(contents(q), para);
    if para.len() > limit {
        let ps = pieces(para, limit);
        lemma_pieces(para, limit);
        lemma_closed_off(q);
        text::lemma_concat_add(closed_off(q).chunks, ps.drop_last());
        assert(contents(r) =~= contents(q) + text::concat(ps));
    } else if q.cur.len() > 0 {
        assert(contents(r) =~= contents(q) + paragraph_break() + para);
        lemma_solid_add(contents(q), paragraph_break());
        lemma_solid_add(contents(q) + paragraph_break(), para);
        lemma_solid_break();
        assert(solid(contents(q)) + Seq::<char>::empty() =~= solid(contents(q)));
    } else {
        assert(contents(r) =~= contents(q) + para);
    }
}

proof fn lemma_packed_all(paras: Seq<Seq<char>>, limit: nat)
    requires
        limit > 0,
    ensures
        bounded(packed_all(paras, limit), limit),
        solid(contents(packed_all(paras, limit))) == solid(text::concat(paras)),
    decreases paras.len(),
{
    if paras.len() == 0 {
        assert(contents(packed_all(paras, limit)) =~= Seq::<char>::empty());
    } else {
        lemma_packed_all(paras.drop_last(), limit);
        lemma_packed(packed_all(paras.drop_last(), limit), paras.last(), limit);
        lemma_solid_add(text::concat(paras.drop_last()), paras.last());
    }
}

proof fn lemma_paragraphs(s: Seq<char>, from: int)
    requires
        0 <= from <= s.len(),
    ensures
        solid(text::concat(paragraphs(s, from))) == solid(s.skip(from)),
    decreases s.len() - from,
{
    text::lemma_find_text(s, paragraph_break(), from);
    match text::find_text(s, paragraph_break(), from) {
        Some(i) => {
            lemma_paragraphs(s, i + 2);
            let rest = paragraphs(s, i + 2);
            text::lemma_concat_front(s.subrange(from, i), rest);
            lemma_solid_add(s.subrange(from, i), text::concat(rest));
            let tail = s.subrange(i, i + 2) + s.skip(i + 2);
            assert(s.skip(from) =~= s.subrange(from, i) + tail);
            lemma_solid_add(s.subrange(from, i), tail);
            lemma_solid_add(s.subrange(i, i + 2), s.skip(i + 2));
            lemma_solid_break();
            assert(Seq::<char>::empty() + solid(s.skip(i + 2)) =~= solid(s.skip(i + 2)));
        },
        None => {
            text::lemma_concat_one(s.skip(from));
        },
    }
}

/// Chunks keep to the limit, none of several is empty, and all that splitting can
/// lose is line feeds between paragraphs: the other characters are all there, in
/// their order.
pub proof fn lemma_chunks(s: Seq<char>, limit: nat)
    requires
        limit > 0,
    ensures
        forall|i: int|
            0 <= i < chunks_of(s, limit).len() ==> (#[trigger] chunks_of(s, limit)[i]).len() <= limit,
        s.len() > limit ==> forall|i: int|
            0 <= i < chunks_of(s, limit).len() ==> (#[trigger] chunks_of(s, limit)[i]).len() > 0,
        solid(text::concat(chunks_of(s, limit))) == solid(s),
{
    if s.len() <= limit {
        text::lemma_concat_one(s);
    } else {
        let p = packed_all(paragraphs(s, 0), limit);
        lemma_packed_all(paragraphs(s, 0), limit);
        lemma_paragraphs(s, 0);
        assert(s.skip(0) =~= s);
        lemma_closed_off(p);
        assert(contents(closed_off(p)) =~= text::concat(closed_off(p).chunks));
    }
}

/// Pieces are filled one after the other: the first `n` of them hold the beginning of the
/// text, as much of it as goes into `n` full pieces.
pub proof fn lemma_first_pieces(s: Seq<char>, limit: nat, n: nat)
    requires
        limit > 0,
    ensures
        n <= pieces(s, limit).len() ==> text::concat(pieces(s, limit).take(n as int)) == s.take(
            if n * limit <= s.len() {
                (n * limit) as int
            } else {
                s.len() as int
            },
        ),
        n * limit < s.len() ==> n < pieces(s, limit).len(),
        n * limit >= s.len() && n > 0 ==> pieces(s, limit).len() <= n,
    decreases s.len(),
{
    let p = pieces(s, limit);
    if n == 0 {
        assert(p.take(0) =~= Seq::<Seq<char>>::empty());
        assert(s.take(0) =~= Seq::<char>::empty());
    } else if s.len() <= limit {
        assert(n * limit >= limit) by (nonlinear_arith)
            requires
                n >= 1,
        ;
        if n <= p.len() {
            assert(p.take(1) =~= seq![s]);
            text::lemma_concat_one(s);
            assert(s.take(s.len() as int) =~= s);
        }
    } else {
        let rest = s.skip(limit as int);
        let m = (n - 1) as nat;
        lemma_first_pieces(rest, limit, m);
        assert(n * limit == m * limit + limit) by (nonlinear_arith)
            requires
                n == m + 1,
        ;
        if m == 0 {
            assert(m * limit == 0);
        }
        if n <= p.len() {
            assert(p.take(n as int) =~= seq![s.take(limit as int)] + pieces(rest, limit).take(
                m as int,
            ));
            text::lemma_concat_front(s.take(limit as int), pieces(rest, limit).take(m as int));
            let k = if m * limit <= rest.len() {
                (m * limit) as int
            } else {
                rest.len() as int
            };
            assert(s.take(limit as int) + rest.take(k) =~= s.take(limit + k));
        }
        if m == 0 {
            lemma_pieces(rest, limit);
        }
    }
}

proof fn lemma_joined_push(parts: Seq<Seq<char>>, x: Seq<char>, sep: Seq<char>)
    ensures
        parts.len() > 0 ==> text::joined(parts.push(x), sep) == text::joined(parts, sep) + sep + x,
        parts.len() == 0 ==> text::joined(parts.push(x), sep) == x,
{
    assert(parts.push(x).drop_last() =~= parts);
}

proof fn lemma_joined_first(first: Seq<char>, rest: Seq<Seq<char>>, sep: Seq<char>)
    requires
        rest.len() > 0,
    ensures
        text::joined(seq![first] + rest, sep) == first + sep + text::joined(rest, sep),
    decreases rest.len(),
{
    let all = seq![first] + rest;
    if rest.len() == 1 {
        assert(all.drop_last() =~= seq![first]);
        assert(text::joined(seq![first], sep) == first);
        assert(text::joined(rest, sep) == rest[0]);
        assert(text::joined(all, sep) =~= first + sep + text::joined(rest, sep));
    } else {
        assert(all.drop_last() =~= seq![first] + rest.drop_last());
        lemma_joined_first(first, rest.drop_last(), sep);
        assert(text::joined(all, sep) =~= first + sep + text::joined(rest, sep));
    }
}

/// The paragraphs of a text, with the breaks between them, are the text.
pub proof fn lemma_paragraphs_join(s: Seq<char>, from: int)
    requires
        0 <= from <= s.len(),
    ensures
        text::joined(paragraphs(s, from), seq!['\n', '\n']) == s.skip(from),
        paragraphs(s, from).len() > 0,
    decreases s.len() - from,
{
    let br = paragraph_break();
    text::lemma_find_text(s, br, from);
    match text::find_text(s, br, from) {
        Some(i) if from <= i && i + 2 <= s.len() => {
            lemma_paragraphs_join(s, i + 2);
            lemma_joined_first(s.subrange(from, i), paragraphs(s, i + 2), br);
            assert(s.subrange(i, i + 2) =~= br);
            assert(s.subrange(from, i) + br + s.skip(i + 2) =~= s.skip(from));
        },
        _ => {},
    }
}

proof fn lemma_packing_joins(paras: Seq<Seq<char>>, limit: nat)
    requires
        forall|i: int| 0 <= i < paras.len() ==> 0 < (#[trigger] paras[i]).len() <= limit,
    ensures
        ({
            let p = packed_all(paras, limit);
            &&& paras.len() > 0 ==> p.cur.len() > 0
            &&& paras.len() == 0 ==> p.cur.len() == 0 && p.chunks.len() == 0
            &&& paras.len() > 0 ==> text::joined(p.chunks.push(p.cur), paragraph_break())
                == text::joined(paras, paragraph_break())
        }),
    decreases paras.len(),
{
    if paras.len() > 0 {
        let br = paragraph_break();
        let init = paras.drop_last();
        let x = paras.last();
        assert(0 < paras[paras.len() - 1].len() <= limit);
        assert forall|i: int| 0 <= i < init.len() implies 0 < (#[trigger] init[i]).len() <= limit by {
            assert(0 < paras[i].len() <= limit);
        }
        lemma_packing_joins(init, limit);
        let p = packed_all(init, limit);
        let r = packed_all(paras, limit);
        assert(init.push(x) =~= paras);
        lemma_joined_push(init, x, br);
        if init.len() == 0 {
            lemma_joined_push(r.chunks, r.cur, br);
        } else if p.cur.len() + x.len() + 2 > limit {
            assert(r.chunks == p.chunks.push(p.cur));
            assert(r.cur == x);
            lemma_joined_push(r.chunks, x, br);
        } else {
            assert(r.chunks == p.chunks);
            assert(r.cur == p.cur + br + x);
            lemma_joined_push(p.chunks, p.cur, br);
            lemma_joined_push(p.chunks, r.cur, br);
            assert(text::joined(p.chunks.push(r.cur), br) =~= text::joined(
                p.chunks.push(p.cur),
                br,
            ) + br + x);
        }
    }
}

/// A text is cut between paragraphs alone, where each of them is short enough and none is
/// empty: with the breaks between the chunks it is the text again.
pub proof fn lemma_cut_between_paragraphs(s: Seq<char>, limit: nat)
    requires
        forall|i: int|
            0 <= i < paragraphs(s, 0).len() ==> 0 < (#[trigger] paragraphs(s, 0)[i]).len() <= limit,
    ensures
        text::joined(chunks_of(s, limit), seq!['\n', '\n']) == s,
{
    let paras = paragraphs(s, 0);
    lemma_paragraphs_join(s, 0);
    assert(s.skip(0) =~= s);
    if s.len() <= limit {
        assert(text::joined(seq![s], seq!['\n', '\n']) == s);
    } else {
        lemma_packing_joins(paras, limit);
    }
}

/// A text that fits is one chunk as it is. Two paragraphs that do not fit together are two
/// chunks.
pub proof fn lemma_few_chunks(a: Seq<char>, b: Seq<char>, limit: nat)
    requires
        0 < a.len() <= limit,
        0 < b.len() <= limit,
        !a.contains('\n'),
        !b.contains('\n'),
    ensures
        chunks_of(a, limit) == seq![a],
        a.len() + 2 + b.len() <= limit ==> chunks_of(a + seq!['\n', '\n'] + b, limit) == seq![
            a + seq!['\n', '\n'] + b,
        ],
        a.len() + 2 + b.len() > limit ==> chunks_of(a + seq!['\n', '\n'] + b, limit) == seq![a, b],
{
    let br = paragraph_break();
    let s = a + seq!['\n', '\n'] + b;
    let n = a.len() as int;
    if a.len() + 2 + b.len() > limit {
        assert(s.subrange(n, n + 2) =~= br);
        assert(text::matches_at(s, br, n));
        text::lemma_find_text(s, br, 0);
        let i = text::find_text(s, br, 0)->0;
        assert(i <= n) by {
            if i > n {
                assert(!text::matches_at(s, br, n));
            }
        }
        if i < n {
            assert(s.subrange(i, i + 2)[0] == '\n');
            assert(a[i] == '\n');
        }
        text::lemma_find_text(s, br, n + 2);
        if let Some(j) = text::find_text(s, br, n + 2) {
            assert(s.subrange(j, j + 2)[0] == '\n');
            assert(b[j - n - 2] == '\n');
        }
        assert(s.skip(n + 2) =~= b);
        assert(s.subrange(0, n) =~= a);
        assert(paragraphs(s, n + 2) =~= seq![b]);
        assert(paragraphs(s, 0) =~= seq![a, b]);
        reveal_with_fuel(packed_all, 3);
        let paras = seq![a, b];
        assert(paras.drop_last() =~= seq![a]);
        assert(seq![a].drop_last() =~= Seq::<Seq<char>>::empty());
        let none = Packing { chunks: Seq::<Seq<char>>::empty(), cur: Seq::<char>::empty() };
        assert(packed_all(Seq::<Seq<char>>::empty(), limit) == none);
        assert(packed_all(seq![a], limit) == packed(none, a, limit));
        assert(packed(none, a, limit) == (Packing { chunks: Seq::<Seq<char>>::empty(), cur: a }));
        assert(packed_all(paras, limit).cur == b);
        assert(chunks_of(s, limit) =~= seq![a, b]);
    }
}

/// Paragraphs are gathered as long as they fit: one that fits behind what is gathered, with
/// the break between them, joins it, and one that does not begins the next chunk. One that is
/// too long for a chunk is cut, and its last piece stays open for what follows.
pub proof fn lemma_paragraph_joins(paras: Seq<Seq<char>>, para: Seq<char>, limit: nat)
    ensures
        ({
            let p = packed_all(paras, limit);
            let r = packed_all(paras.push(para), limit);
            &&& p.cur.len() > 0 && p.cur.len() + 2 + para.len() <= limit ==> r.chunks == p.chunks
                && r.cur == p.cur + seq!['\n', '\n'] + para
            &&& p.cur.len() > 0 && p.cur.len() + 2 + para.len() > limit && para.len() <= limit
                ==> r.chunks == p.chunks.push(p.cur) && r.cur == para
            &&& p.cur.len() == 0 && para.len() <= limit ==> r.chunks == p.chunks && r.cur == para
            &&& para.len() > limit && p.cur.len() > 0 ==> r.chunks.push(r.cur) == p.chunks.push(
                p.cur,
            ) + pieces(para, limit)
            &&& para.len() > limit && p.cur.len() == 0 ==> r.chunks.push(r.cur) == p.chunks
                + pieces(para, limit)
        }),
{
    let all = paras.push(para);
    assert(all.drop_last() =~= paras);
    let p = packed_all(paras, limit);
    let r = packed_all(all, limit);
    assert(r == packed(p, para, limit));
    assert(pieces(para, limit).len() > 0);
    let ps = pieces(para, limit);
    assert(ps.drop_last().push(ps.last()) =~= ps);
    if para.len() > limit && p.cur.len() > 0 {
        assert(r.chunks.push(r.cur) =~= p.chunks.push(p.cur) + ps);
    }
    if para.len() > limit && p.cur.len() == 0 {
        assert(r.chunks.push(r.cur) =~= p.chunks + ps);
    }
}

} // verus!
