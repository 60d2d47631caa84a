//! Rendering of posts: plain messages, embeds and the stats line.

use vstd::prelude::*;
use vstd::string::*;

use crate::chunks;
use crate::config::Filter;
use crate::json;
use crate::raw;
use crate::reactions::Reactions;
use crate::text;

verus! {

/// How many characters a plain message may have.
pub const DISCORD_LIMIT: usize = 2000;

/// How many characters the description of an embed may have.
pub const EMBED_DESC_LIMIT: usize = 4096;

/// How many embeds a message may have.
pub const MAX_EMBEDS: usize = 10;

/// The stripe colour of routes that set none.
pub const DEFAULT_EMBED_COLOR: u32 = 0x29B6F6;

/// The stripe colour of posts that were edited, whatever their route: orange.
pub const EDITED_EMBED_COLOR: u32 = 0xFFA500;

/// The stripe colour of posts that were deleted, whatever their route: red.
pub const DELETED_EMBED_COLOR: u32 = 0xFF0000;

/// What a footer can say, one of these for each post.
pub const FOOTERS: [&'static str; 45] = [
    "let's get this bag",
    "bag secured, next",
    "the bag does not sleep",
    "gm, bag",
    "one bag at a time",
    "in pursuit of the bag",
    "the bag is the way",
    "eyes on the bag",
    "no days off, only bags",
    "bag loading…",
    "stay bag-pilled",
    "the bag remembers",
    "another day, another bag",
    "the bag is patient",
    "wagmi, bag included",
    "the bag waits for no one",
    "secure the bag, then sleep",
    "bag in, bag out",
    "chasing the bag since block zero",
    "no bag, no glory",
    "the bag compounds",
    "eyes on the bag, always",
    "all gas, no bag left behind",
    "the bag is a lifestyle",
    "bag acquired",
    "survived the trenches",
    "we go again — the trenches don't quit",
    "born in the trenches",
    "the trenches remember",
    "another day in the trenches",
    "no retreat, no surrender, no paper hands",
    "hold the line",
    "war. war never changes.",
    "war changes everything",
    "the bag never changes",
    "tip: the trend is your friend until it ends",
    "tip: never risk the bag you can't replace",
    "tip: green candles lie, red candles teach",
    "tip: the exit is a skill, not an afterthought",
    "tip: zoom out",
    "respawn: back in the trenches",
    "mission failed successfully",
    "objective: extract the bag",
    "tactical bag secured",
    "stay frosty",
];

/// A point in time in the notation of RFC 3339, as `chrono` writes it to the second in
/// UTC; nothing for times that `chrono` cannot hold.
pub uninterp spec fn rfc3339(secs: i64, nanos: u32) -> Option<Seq<char>>;

/// `chrono::DateTime::from_timestamp` and `to_rfc3339_opts` in seconds with a `Z`: by
/// the two numbers alone.
#[verifier::external_body]
fn format_timestamp(secs: i64, nanos: u32) -> (r: Option<String>)
    ensures
        r.deep_view() == rfc3339(secs, nanos),
{
    chrono::DateTime::<chrono::Utc>::from_timestamp(secs, nanos).map(
        |t| t.to_rfc3339_opts(chrono::SecondsFormat::Secs, true),
    )
}

/// The time at which a post was published, for the `timestamp` of an embed: seconds
/// and nanoseconds since the epoch. Nothing where that is no time.
pub fn embed_timestamp(secs: i64, nanos: u32) -> (r: Option<String>)
    ensures
        r.deep_view() == rfc3339(secs, nanos),
{
    format_timestamp(secs, nanos)
}

/// Whether a file of this name can be shown inside an embed.
pub open spec fn image_name(name: Seq<char>) -> bool {
    let lower = text::ascii_lower(name);
    ||| text::ends_with(lower, ".jpg"@)
    ||| text::ends_with(lower, ".jpeg"@)
    ||| text::ends_with(lower, ".png"@)
    ||| text::ends_with(lower, ".gif"@)
    ||| text::ends_with(lower, ".webp"@)
}

/// Whether Discord can show a file of this name inside an embed.
pub fn is_image_filename(name: &str) -> (r: bool)
    ensures
        r == image_name(name@),
{
    let lower: String = text::to_ascii_lower(name);
    let l: &str = lower.as_str();
    text::has_suffix(l, ".jpg") || text::has_suffix(l, ".jpeg") || text::has_suffix(l, ".png")
        || text::has_suffix(l, ".gif") || text::has_suffix(l, ".webp")
}

/// `rand::Rng::gen_range` over `0..n` with the generator of the thread: some number
/// below `n`.
#[verifier::external_body]
fn random_below(n: usize) -> (r: usize)
    requires
        n > 0,
    ensures
        r < n,
{
    rand::Rng::gen_range(&mut rand::thread_rng(), 0..n)
}

/// Some footer out of the list.
pub fn footer_variant() -> (r: &'static str)
    ensures
        exists|i: int| 0 <= i < FOOTERS@.len() && r@ == (#[trigger] FOOTERS@[i])@,
{
    let i: usize = random_below(FOOTERS.len());
    let r: &'static str = FOOTERS[i];
    assert(r@ == FOOTERS@[i as int]@);
    r
}

/// What an embed needs beside the body of the post.
pub struct EmbedMeta {
    /// The title of the channel, shown as the author.
    pub title: String,
    pub avatar_url: Option<String>,
    /// A link to the source message.
    pub deep_link: Option<String>,
    pub reactions: Reactions,
    pub comment_count: i32,
    /// Whether the source message was deleted.
    pub deleted: bool,
    pub color: u32,
    /// When the source message was published.
    pub timestamp: Option<String>,
}

#[verifier::ext_equal]
pub struct EmbedMetaView {
    pub title: Seq<char>,
    pub avatar_url: Option<Seq<char>>,
    pub deep_link: Option<Seq<char>>,
    pub reactions: Seq<(Seq<char>, i32)>,
    pub comment_count: i32,
    pub deleted: bool,
    pub color: u32,
    pub timestamp: Option<Seq<char>>,
}

impl DeepView for EmbedMeta {
    type V = EmbedMetaView;

    open spec fn deep_view(&self) -> EmbedMetaView {
        EmbedMetaView {
            title: self.title@,
            avatar_url: self.avatar_url.deep_view(),
            deep_link: self.deep_link.deep_view(),
            reactions: self.reactions.deep_view(),
            comment_count: self.comment_count,
            deleted: self.deleted,
            color: self.color,
            timestamp: self.timestamp.deep_view(),
        }
    }
}

impl Default for EmbedMeta {
    fn default() -> (r: Self)
        ensures
            r.deep_view() == (EmbedMetaView {
                title: Seq::empty(),
                avatar_url: None,
                deep_link: None,
                reactions: Seq::empty(),
                comment_count: 0,
                deleted: false,
                color: DEFAULT_EMBED_COLOR,
                timestamp: None,
            }),
    {
        EmbedMeta {
            title: String::new(),
            avatar_url: None,
            deep_link: None,
            reactions: Reactions::new(),
            comment_count: 0,
            deleted: false,
            color: DEFAULT_EMBED_COLOR,
            timestamp: None,
        }
    }
}

/// The text of a post.
#[derive(Debug)]
pub struct RelayText {
    pub sender: Option<String>,
    pub body: String,
    pub reply_quote: Option<String>,
    pub edited: bool,
}

pub struct RelayTextView {
    pub sender: Option<Seq<char>>,
    pub body: Seq<char>,
    pub reply_quote: Option<Seq<char>>,
    pub edited: bool,
}

impl DeepView for RelayText {
    type V = RelayTextView;

    open spec fn deep_view(&self) -> RelayTextView {
        RelayTextView {
            sender: self.sender.deep_view(),
            body: self.body@,
            reply_quote: self.reply_quote.deep_view(),
            edited: self.edited,
        }
    }
}

/// `a` stands before `b` in the stats line: the higher count first, and among equal
/// counts by emoji.
pub open spec fn ranks_before(a: (Seq<char>, i32), b: (Seq<char>, i32)) -> bool {
    a.1 > b.1 || (a.1 == b.1 && text::text_less(a.0, b.0))
}

/// `x` put into a ranking, before the first item that it ranks before.
pub open spec fn rank_insert(r: Seq<(Seq<char>, i32)>, x: (Seq<char>, i32)) -> Seq<(Seq<char>, i32)>
    decreases r.len(),
{
    if r.len() == 0 {
        seq![x]
    } else if ranks_before(x, r[0]) {
        seq![x] + r
    } else {
        seq![r[0]] + rank_insert(r.skip(1), x)
    }
}

/// The reactions that were given at all, in the order of the stats line.
pub open spec fn ranking(e: Seq<(Seq<char>, i32)>) -> Seq<(Seq<char>, i32)>
    decreases e.len(),
{
    if e.len() == 0 {
        Seq::empty()
    } else if e.last().1 > 0 {
        rank_insert(ranking(e.drop_last()), e.last())
    } else {
        ranking(e.drop_last())
    }
}

/// One item of the stats line.
pub open spec fn stat(item: (Seq<char>, i32)) -> Seq<char> {
    item.0 + " "@ + text::decimal(item.1 as int)
}

/// The items of the stats line.
pub open spec fn stats_parts(e: Seq<(Seq<char>, i32)>, comment_count: i32) -> Seq<Seq<char>> {
    let items = ranking(e).map_values(|i: (Seq<char>, i32)| stat(i));
    if comment_count > 0 {
        items.push("💬 "@ + text::decimal(comment_count as int))
    } else {
        items
    }
}

/// The stats line: reactions by count, then the comments.
pub open spec fn stats_of(e: Seq<(Seq<char>, i32)>, comment_count: i32) -> Seq<char> {
    text::joined(stats_parts(e, comment_count), " · "@)
}

fn rank_into(ranked: &mut Vec<(String, i32)>, emoji: &str, count: i32)
    ensures
        final(ranked).deep_view() == rank_insert(old(ranked).deep_view(), (emoji@, count)),
{
    let ghost r = ranked.deep_view();
    let ghost x = (emoji@, count);
    let mut i: usize = 0;
    assert(r.skip(0) =~= r);
    assert(r.take(0) + rank_insert(r, x) =~= rank_insert(r, x));
    while i < ranked.len() && !(count > ranked[i].1 || (count == ranked[i].1 && text::text_before(
        emoji,
        ranked[i].0.as_str(),
    )))
        invariant
            r == ranked.deep_view(),
            x == (emoji@, count),
            i <= r.len(),
            r.take(i as int) + rank_insert(r.skip(i as int), x) == rank_insert(r, x),
        decreases r.len() - i,
    {
        assert(r.skip(i as int)[0] == r[i as int]);
        assert(r.skip(i as int).skip(1) =~= r.skip(i + 1));
        assert(r.take(i + 1) + rank_insert(r.skip(i + 1), x) =~= r.take(i as int) + rank_insert(
            r.skip(i as int),
            x,
        ));
        i = i + 1;
    }
    ranked.insert(i, (emoji.to_owned(), count));
    assert(i < r.len() ==> r.skip(i as int)[0] == r[i as int]);
    assert(ranked.deep_view() =~= r.take(i as int) + rank_insert(r.skip(i as int), x));
}

/// Format the stats line, such as `❤️ 47 · 🔥 12 · 💬 8`: reactions by count, then by
/// emoji, then the comments; empty when there is nothing to show.
pub fn stats_line(reactions: &Reactions, comment_count: i32) -> (r: String)
    ensures
        r@ == stats_of(reactions.deep_view(), comment_count),
{
    let ghost e = reactions.deep_view();
    let mut ranked: Vec<(String, i32)> = Vec::new();
    let n: usize = reactions.len();
    let mut i: usize = 0;
    assert(e.take(0) =~= Seq::<(Seq<char>, i32)>::empty());
    assert(ranked.deep_view() =~= ranking(e.take(0)));
    while i < n
        invariant
            e == reactions.deep_view(),
            n == e.len(),
            i <= n,
            ranked.deep_view() == ranking(e.take(i as int)),
        decreases n - i,
    {
        assert(e.take(i + 1).drop_last() =~= e.take(i as int));
        assert(e.take(i + 1).last() == e[i as int]);
        if reactions.count(i) > 0 {
            rank_into(&mut ranked, reactions.emoji(i), reactions.count(i));
        }
        i = i + 1;
    }
    assert(e.take(e.len() as int) =~= e);
    let ghost items = ranking(e).map_values(|i: (Seq<char>, i32)| stat(i));
    let mut parts: Vec<String> = Vec::new();
    let mut k: usize = 0;
    while k < ranked.len()
        invariant
            ranked.deep_view() == ranking(e),
            items == ranking(e).map_values(|i: (Seq<char>, i32)| stat(i)),
            k <= ranked@.len(),
            parts@.len() == k,
            forall|j: int| 0 <= j < k ==> (#[trigger] parts@[j])@ == items[j],
        decreases ranked@.len() - k,
    {
        let mut part: String = ranked[k].0.clone();
        part.append(" ");
        text::push_int(&mut part, ranked[k].1 as i64);
        assert(ranking(e)[k as int] == (ranked@[k as int].0@, ranked@[k as int].1));
        assert(part@ =~= items[k as int]);
        parts.push(part);
        k = k + 1;
    }
    assert(parts.deep_view() =~= items);
    if comment_count > 0 {
        let mut part: String = "💬 ".to_owned();
        text::push_int(&mut part, comment_count as i64);
        parts.push(part);
        assert(parts.deep_view() =~= items.push(part@));
    }
    text::join(&parts, " · ")
}

proof fn lemma_rank_insert(r: Seq<(Seq<char>, i32)>, x: (Seq<char>, i32))
    requires
        forall|i: int, j: int|
            #![trigger r[i], r[j]]
            0 <= i < j < r.len() ==> ranks_before(r[i], r[j]),
        forall|i: int| 0 <= i < r.len() ==> (#[trigger] r[i]).0 != x.0,
    ensures
        rank_insert(r, x).to_multiset() =~= r.to_multiset().insert(x),
        forall|i: int, j: int|
            #![trigger rank_insert(r, x)[i], rank_insert(r, x)[j]]
            0 <= i < j < rank_insert(r, x).len() ==> ranks_before(
                rank_insert(r, x)[i],
                rank_insert(r, x)[j],
            ),
        forall|i: int|
            0 <= i < rank_insert(r, x).len() ==> #[trigger] rank_insert(r, x)[i] == x || r.contains(
                rank_insert(r, x)[i],
            ),
    decreases r.len(),
{
    broadcast use vstd::seq_lib::group_to_multiset_ensures;

    let q = rank_insert(r, x);
    if r.len() == 0 {
        assert(q =~= Seq::empty().push(x));
        assert(r =~= Seq::empty());
        assert(q.to_multiset() =~= r.to_multiset().insert(x));
    } else if ranks_before(x, r[0]) {
        assert(q =~= r.insert(0, x));
        vstd::seq_lib::to_multiset_insert(r, 0, x);
        assert forall|i: int, j: int|
            #![trigger q[i], q[j]]
            0 <= i < j < q.len() implies ranks_before(q[i], q[j]) by {
            if i > 0 {
                assert(ranks_before(r[i - 1], r[j - 1]));
            } else if j > 1 {
                assert(ranks_before(r[0], r[j - 1]));
                lemma_ranks_transitive(x, r[0], r[j - 1]);
            }
        }
        assert forall|i: int| 0 <= i < q.len() implies #[trigger] q[i] == x || r.contains(q[i]) by {
            if i > 0 {
                assert(r[i - 1] == q[i]);
            }
        }
    } else {
        let rest = r.skip(1);
        assert forall|i: int, j: int|
            #![trigger rest[i], rest[j]]
            0 <= i < j < rest.len() implies ranks_before(rest[i], rest[j]) by {
            assert(ranks_before(r[i + 1], r[j + 1]));
        }
        assert forall|i: int| 0 <= i < rest.len() implies (#[trigger] rest[i]).0 != x.0 by {
            assert(r[i + 1].0 != x.0);
        }
        lemma_rank_insert(rest, x);
        let tail = rank_insert(rest, x);
        assert(q =~= tail.insert(0, r[0]));
        vstd::seq_lib::to_multiset_insert(tail, 0, r[0]);
        assert(r =~= rest.insert(0, r[0]));
        vstd::seq_lib::to_multiset_insert(rest, 0, r[0]);
        assert(q.to_multiset() =~= r.to_multiset().insert(x));
        text::lemma_text_less_total(x.0, r[0].0);
        assert(ranks_before(r[0], x));
        assert forall|i: int, j: int|
            #![trigger q[i], q[j]]
            0 <= i < j < q.len() implies ranks_before(q[i], q[j]) by {
            if i > 0 {
                assert(ranks_before(tail[i - 1], tail[j - 1]));
            } else {
                assert(q[j] == tail[j - 1]);
                if tail[j - 1] != x {
                    assert(rest.contains(tail[j - 1]));
                    let k = choose|k: int| 0 <= k < rest.len() && rest[k] == tail[j - 1];
                    assert(ranks_before(r[0], r[k + 1]));
                }
            }
        }
        assert forall|i: int| 0 <= i < q.len() implies #[trigger] q[i] == x || r.contains(q[i]) by {
            if i == 0 {
                assert(r[0] == q[0]);
            } else {
                assert(q[i] == tail[i - 1]);
                if tail[i - 1] != x {
                    let k = choose|k: int| 0 <= k < rest.len() && rest[k] == tail[i - 1];
                    assert(r[k + 1] == q[i]);
                }
            }
        }
    }
}

proof fn lemma_ranks_transitive(a: (Seq<char>, i32), b: (Seq<char>, i32), c: (Seq<char>, i32))
    requires
        ranks_before(a, b),
        ranks_before(b, c),
    ensures
        ranks_before(a, c),
{
    if a.1 == b.1 && b.1 == c.1 {
        text::lemma_text_less_transitive(a.0, b.0, c.0);
    }
}

/// The ranking orders the reactions and leaves none out: it holds exactly those with a
/// positive count, each before all that it ranks before.
pub proof fn lemma_ranking(e: Seq<(Seq<char>, i32)>)
    requires
        crate::reactions::ascending(e),
    ensures
        ranking(e).to_multiset() =~= e.filter(|x: (Seq<char>, i32)| x.1 > 0).to_multiset(),
        forall|i: int, j: int|
            #![trigger ranking(e)[i], ranking(e)[j]]
            0 <= i < j < ranking(e).len() ==> ranks_before(ranking(e)[i], ranking(e)[j]),
        forall|i: int| 0 <= i < ranking(e).len() ==> e.contains(#[trigger] ranking(e)[i]),
    decreases e.len(),
{
    broadcast use vstd::seq_lib::group_to_multiset_ensures;

    let f = |x: (Seq<char>, i32)| x.1 > 0;
    reveal(Seq::filter);
    if e.len() > 0 {
        let init = e.drop_last();
        assert forall|i: int, j: int|
            #![trigger init[i], init[j]]
            0 <= i < j < init.len() implies text::text_less(init[i].0, init[j].0) by {
            assert(text::text_less(e[i].0, e[j].0));
        }
        lemma_ranking(init);
        let r = ranking(init);
        let x = e.last();
        assert forall|i: int| 0 <= i < r.len() implies (#[trigger] r[i]).0 != x.0 && e.contains(r[i]) by {
            assert(init.contains(r[i]));
            let k = choose|k: int| 0 <= k < init.len() && init[k] == r[i];
            assert(e[k] == r[i]);
            assert(text::text_less(e[k].0, e[e.len() - 1].0));
            text::lemma_text_less_total(e[k].0, x.0);
        }
        if x.1 > 0 {
            lemma_rank_insert(r, x);
            assert(e.filter(f) =~= init.filter(f).push(x));
            assert(e[e.len() - 1] == x);
            assert forall|i: int| 0 <= i < ranking(e).len() implies e.contains(
                #[trigger] ranking(e)[i],
            ) by {
                let y = rank_insert(r, x)[i];
                if y != x {
                    assert(r.contains(y));
                    let k = choose|k: int| 0 <= k < r.len() && r[k] == y;
                    assert(e.contains(r[k]));
                }
            }
        } else {
            assert(e.filter(f) =~= init.filter(f));
        }
    }
}

/// `s` without a carriage return at its end.
pub open spec fn without_cr(s: Seq<char>) -> Seq<char> {
    if s.len() > 0 && s.last() == '\r' {
        s.drop_last()
    } else {
        s
    }
}

/// The lines of `s` from a position on. A line feed, with a carriage return before it
/// or without, ends a line.
pub open spec fn lines(s: Seq<char>, from: int) -> Seq<Seq<char>>
    decreases s.len() - from,
{
    if from >= s.len() {
        Seq::empty()
    } else {
        match text::find_text(s, seq!['\n'], from) {
            Some(i) if from <= i < s.len() => seq![without_cr(s.subrange(from, i))] + lines(
                s,
                i + 1,
            ),
            _ => seq![s.skip(from)],
        }
    }
}

fn lines_of(s: &str) -> (r: Vec<String>)
    ensures
        r.deep_view() == lines(s@, 0),
{
    let v: Vec<char> = text::chars_of(s);
    let mut needle: Vec<char> = Vec::new();
    needle.push('\n');
    assert(needle@ =~= seq!['\n']);
    let mut out: Vec<String> = Vec::new();
    let mut from: usize = 0;
    assert(out.deep_view() + lines(v@, 0) =~= lines(s@, 0));
    while from < v.len()
        invariant
            v@ == s@,
            needle@ == seq!['\n'],
            from <= v@.len(),
            out.deep_view() + lines(v@, from as int) == lines(s@, 0),
        decreases v@.len() - from,
    {
        let ghost done = out.deep_view();
        proof {
            text::lemma_find_text(v@, seq!['\n'], from as int);
        }
        match text::find_in(&v, &needle, from) {
            Some(i) => {
                let ghost line = v@.subrange(from as int, i as int);
                let to: usize = if i > from && v[i - 1] == '\r' {
                    i - 1
                } else {
                    i
                };
                out.push(text::text_between(&v, from, to));
                assert(v@.subrange(from as int, to as int) =~= without_cr(line));
                assert(out.deep_view() =~= done.push(without_cr(line)));
                assert(out.deep_view() + lines(v@, i + 1) =~= done + lines(v@, from as int));
                from = i + 1;
            },
            None => {
                out.push(text::text_between(&v, from, v.len()));
                assert(v@.skip(from as int) =~= v@.subrange(from as int, v@.len() as int));
                assert(out.deep_view() =~= done + lines(v@, from as int));
                assert(out.deep_view() + lines(v@, v@.len() as int) =~= out.deep_view());
                from = v.len();
            },
        }
    }
    assert(out.deep_view() =~= lines(s@, 0));
    out
}

/// A line struck through, unless it is blank.
pub open spec fn struck_line(l: Seq<char>) -> Seq<char> {
    if text::is_blank(l) {
        l
    } else {
        "~~"@ + l + "~~"@
    }
}

/// A text with every line struck through.
pub open spec fn struck(s: Seq<char>) -> Seq<char> {
    text::joined(lines(s, 0).map_values(|l: Seq<char>| struck_line(l)), "\n"@)
}

/// Strike through every line that is not blank.
pub fn strike(s: &str) -> (r: String)
    ensures
        r@ == struck(s@),
{
    let ls: Vec<String> = lines_of(s);
    let ghost want = lines(s@, 0).map_values(|l: Seq<char>| struck_line(l));
    let mut out: Vec<String> = Vec::new();
    let mut i: usize = 0;
    while i < ls.len()
        invariant
            ls.deep_view() == lines(s@, 0),
            want == lines(s@, 0).map_values(|l: Seq<char>| struck_line(l)),
            i <= ls@.len(),
            out@.len() == i,
            forall|j: int| 0 <= j < i ==> (#[trigger] out@[j])@ == want[j],
        decreases ls@.len() - i,
    {
        assert(lines(s@, 0)[i as int] == ls@[i as int]@);
        if text::blank(ls[i].as_str()) {
            out.push(ls[i].clone());
        } else {
            let mut l: String = "~~".to_owned();
            l.append(ls[i].as_str());
            l.append("~~");
            assert(l@ =~= want[i as int]);
            out.push(l);
        }
        i = i + 1;
    }
    assert(out.deep_view() =~= want);
    text::join(&out, "\n")
}

/// The author line of an embed.
pub struct EmbedAuthor {
    pub name: String,
    pub url: Option<String>,
    pub icon_url: Option<String>,
}

pub struct EmbedAuthorView {
    pub name: Seq<char>,
    pub url: Option<Seq<char>>,
    pub icon_url: Option<Seq<char>>,
}

impl DeepView for EmbedAuthor {
    type V = EmbedAuthorView;

    open spec fn deep_view(&self) -> EmbedAuthorView {
        EmbedAuthorView {
            name: self.name@,
            url: self.url.deep_view(),
            icon_url: self.icon_url.deep_view(),
        }
    }
}

/// One embed of a message.
pub struct Embed {
    pub description: Option<String>,
    pub color: Option<u32>,
    pub author: Option<EmbedAuthor>,
    /// The value of the one field, which has no name.
    pub field: Option<String>,
    pub footer: Option<String>,
    pub timestamp: Option<String>,
    /// The address of the image that is shown.
    pub image: Option<String>,
    /// Embeds with the same address are shown as one gallery.
    pub url: Option<String>,
}

#[verifier::ext_equal]
pub struct EmbedView {
    pub description: Option<Seq<char>>,
    pub color: Option<u32>,
    pub author: Option<EmbedAuthorView>,
    pub field: Option<Seq<char>>,
    pub footer: Option<Seq<char>>,
    pub timestamp: Option<Seq<char>>,
    pub image: Option<Seq<char>>,
    pub url: Option<Seq<char>>,
}

impl DeepView for Embed {
    type V = EmbedView;

    open spec fn deep_view(&self) -> EmbedView {
        EmbedView {
            description: self.description.deep_view(),
            color: self.color,
            author: self.author.deep_view(),
            field: self.field.deep_view(),
            footer: self.footer.deep_view(),
            timestamp: self.timestamp.deep_view(),
            image: self.image.deep_view(),
            url: self.url.deep_view(),
        }
    }
}

/// What the embeds of a post say in all. A post that would say nothing says a
/// zero-width space, since Discord refuses an empty description.
pub open spec fn description_of(post: RelayTextView, deleted: bool) -> Seq<char> {
    let body = if post.edited {
        "(edited) "@ + post.body
    } else {
        post.body
    };
    let said = if deleted {
        let s = struck(body);
        if s.len() == 0 {
            "🗑 deleted on Telegram"@
        } else {
            s + "\n🗑 deleted on Telegram"@
        }
    } else {
        body
    };
    if said.len() == 0 {
        seq!['\u{200b}']
    } else {
        said
    }
}

/// The description in pieces, as many as a message can have.
pub open spec fn description_pieces(post: RelayTextView, deleted: bool) -> Seq<Seq<char>> {
    let all = chunks::pieces(description_of(post, deleted), EMBED_DESC_LIMIT as nat);
    if all.len() > MAX_EMBEDS {
        all.take(MAX_EMBEDS as int)
    } else {
        all
    }
}

/// The field below a post: the stats line and the link to the source, as far as there
/// is something to show.
pub open spec fn field_of(meta: EmbedMetaView) -> Option<Seq<char>> {
    let stats = stats_of(meta.reactions, meta.comment_count);
    match meta.deep_link {
        Some(link) => {
            let view = "[↗ View on Telegram]("@ + link + ")"@;
            if stats.len() > 0 {
                Some(stats + "\n"@ + view)
            } else {
                Some(view)
            }
        },
        None => if stats.len() > 0 {
            Some(stats)
        } else {
            None
        },
    }
}

/// The stripe colour of a post, which shows its state: deleted, edited, or that of its
/// route.
pub open spec fn stripe_of(post: RelayTextView, meta: EmbedMetaView) -> u32 {
    if meta.deleted {
        DELETED_EMBED_COLOR
    } else if post.edited {
        EDITED_EMBED_COLOR
    } else {
        meta.color
    }
}

/// The stripe colour of a post.
fn stripe(post: &RelayText, meta: &EmbedMeta) -> (r: u32)
    ensures
        r == stripe_of(post.deep_view(), meta.deep_view()),
{
    if meta.deleted {
        DELETED_EMBED_COLOR
    } else if post.edited {
        EDITED_EMBED_COLOR
    } else {
        meta.color
    }
}

/// The `i`-th embed of a post: the author stands on the first one; field, footer and
/// timestamp on the last; the stripe colour on all of them.
pub open spec fn embed_at(
    post: RelayTextView,
    meta: EmbedMetaView,
    footer: Seq<char>,
    i: int,
) -> EmbedView {
    let pieces = description_pieces(post, meta.deleted);
    let last = i == pieces.len() - 1;
    EmbedView {
        description: Some(pieces[i]),
        color: Some(stripe_of(post, meta)),
        author: if i == 0 {
            Some(
                EmbedAuthorView {
                    name: meta.title,
                    url: meta.deep_link,
                    icon_url: meta.avatar_url,
                },
            )
        } else {
            None
        },
        field: if last {
            field_of(meta)
        } else {
            None
        },
        footer: if last {
            Some("by zayd — "@ + footer)
        } else {
            None
        },
        timestamp: if last {
            meta.timestamp
        } else {
            None
        },
        image: None,
        url: None,
    }
}

/// The embeds of a post.
pub open spec fn embeds_of(post: RelayTextView, meta: EmbedMetaView, footer: Seq<char>) -> Seq<
    EmbedView,
> {
    Seq::new(
        description_pieces(post, meta.deleted).len(),
        |i: int| embed_at(post, meta, footer, i),
    )
}

fn describe(post: &RelayText, deleted: bool) -> (r: String)
    ensures
        r@ == description_of(post.deep_view(), deleted),
{
    let mut body: String = String::new();
    if post.edited {
        body.append("(edited) ");
    }
    body.append(post.body.as_str());
    let ghost want = if post.edited {
        "(edited) "@ + post.body@
    } else {
        post.body@
    };
    assert(body@ =~= want);
    let mut said: String = if deleted {
        let mut s: String = strike(body.as_str());
        if s.as_str().is_empty() {
            "🗑 deleted on Telegram".to_owned()
        } else {
            s.append("\n🗑 deleted on Telegram");
            s
        }
    } else {
        body
    };
    if said.as_str().is_empty() {
        said.push('\u{200b}');
        assert(said@ =~= seq!['\u{200b}']);
    }
    said
}

fn field_text(meta: &EmbedMeta) -> (r: Option<String>)
    ensures
        r.deep_view() == field_of(meta.deep_view()),
{
    let mut value: String = stats_line(&meta.reactions, meta.comment_count);
    let ghost stats = value@;
    match &meta.deep_link {
        Some(link) => {
            if !value.as_str().is_empty() {
                value.append("\n");
            }
            value.append("[↗ View on Telegram](");
            value.append(link.as_str());
            value.append(")");
            let ghost view = "[↗ View on Telegram]("@ + link@ + ")"@;
            assert(value@ =~= (if stats.len() > 0 {
                stats + "\n"@ + view
            } else {
                view
            }));
            Some(value)
        },
        None => if value.as_str().is_empty() {
            None
        } else {
            Some(value)
        },
    }
}

/// Build the embeds of a post with a given footer.
///
/// The body is split over several embeds where it is too long for one, at most
/// [`MAX_EMBEDS`].
pub fn embed_with_footer(post: &RelayText, meta: &EmbedMeta, footer: &str) -> (r: Vec<Embed>)
    ensures
        r.deep_view() == embeds_of(post.deep_view(), meta.deep_view(), footer@),
{
    let ghost p = post.deep_view();
    let ghost m = meta.deep_view();
    let description: String = describe(post, meta.deleted);
    let mut pieces: Vec<String> = chunks::split_desc(description.as_str(), EMBED_DESC_LIMIT);
    proof {
        chunks::lemma_pieces(description@, EMBED_DESC_LIMIT as nat);
    }
    let ghost all = pieces.deep_view();
    if pieces.len() > MAX_EMBEDS {
        pieces.truncate(MAX_EMBEDS);
        assert(pieces.deep_view() =~= all.take(MAX_EMBEDS as int));
    }
    let ghost want = description_pieces(p, m.deleted);
    assert(pieces.deep_view() == want);
    let last: usize = pieces.len() - 1;
    let mut out: Vec<Embed> = Vec::new();
    let mut i: usize = 0;
    while i < pieces.len()
        invariant
            p == post.deep_view(),
            m == meta.deep_view(),
            want == description_pieces(p, m.deleted),
            pieces.deep_view() == want,
            last == want.len() - 1,
            i <= want.len(),
            out@.len() == i,
            forall|j: int|
                0 <= j < i ==> (#[trigger] out@[j]).deep_view() == embed_at(p, m, footer@, j),
        decreases want.len() - i,
    {
        assert(pieces@[i as int]@ == want[i as int]);
        let author: Option<EmbedAuthor> = if i == 0 {
            Some(
                EmbedAuthor {
                    name: meta.title.clone(),
                    url: meta.deep_link.clone(),
                    icon_url: meta.avatar_url.clone(),
                },
            )
        } else {
            None
        };
        let mut field: Option<String> = None;
        let mut foot: Option<String> = None;
        let mut timestamp: Option<String> = None;
        if i == last {
            field = field_text(meta);
            let mut f: String = "by zayd — ".to_owned();
            f.append(footer);
            foot = Some(f);
            timestamp = meta.timestamp.clone();
        }
        let e: Embed = Embed {
            description: Some(pieces[i].clone()),
            color: Some(stripe(post, meta)),
            author,
            field,
            footer: foot,
            timestamp,
            image: None,
            url: None,
        };
        assert(e.deep_view() =~= embed_at(p, m, footer@, i as int));
        out.push(e);
        i = i + 1;
    }
    assert(out.deep_view() =~= embeds_of(p, m, footer@));
    out
}

/// Build the embeds of a post, with a footer out of the list.
pub fn embed(post: &RelayText, meta: &EmbedMeta) -> (r: Vec<Embed>)
    ensures
        exists|i: int|
            0 <= i < FOOTERS@.len() && r.deep_view() == embeds_of(
                post.deep_view(),
                meta.deep_view(),
                (#[trigger] FOOTERS@[i])@,
            ),
{
    let footer: &'static str = footer_variant();
    embed_with_footer(post, meta, footer)
}

/// A message never has more embeds than Discord takes, each embed carries the stripe
/// colour that shows the state of the post, none is empty or too long, and only the last one carries the footer.
pub proof fn lemma_embeds(post: RelayTextView, meta: EmbedMetaView, footer: Seq<char>)
    ensures
        1 <= embeds_of(post, meta, footer).len() <= MAX_EMBEDS,
        forall|i: int|
            0 <= i < embeds_of(post, meta, footer).len() ==> {
                let e = #[trigger] embeds_of(post, meta, footer)[i];
                &&& e.color == Some(stripe_of(post, meta))
                &&& e.description matches Some(d) && 0 < d.len() <= EMBED_DESC_LIMIT
                &&& e.author is Some <==> i == 0
                &&& e.footer is Some <==> i == embeds_of(post, meta, footer).len() - 1
                &&& e.timestamp is Some ==> i == embeds_of(post, meta, footer).len() - 1
            },
{
    let d = description_of(post, meta.deleted);
    chunks::lemma_pieces(d, EMBED_DESC_LIMIT as nat);
    let all = chunks::pieces(d, EMBED_DESC_LIMIT as nat);
    let pieces = description_pieces(post, meta.deleted);
    reveal_strlit("🗑 deleted on Telegram");
    reveal_strlit("\n🗑 deleted on Telegram");
    assert(d.len() > 0);
    assert forall|i: int| 0 <= i < pieces.len() implies 0 < (#[trigger] pieces[i]).len()
        <= EMBED_DESC_LIMIT by {
        assert(pieces[i] == all[i]);
    }
}

/// Where a text fits into the embeds of a message, they say all of it.
pub proof fn lemma_embeds_say_all(post: RelayTextView, deleted: bool)
    requires
        chunks::pieces(description_of(post, deleted), EMBED_DESC_LIMIT as nat).len() <= MAX_EMBEDS,
    ensures
        text::concat(description_pieces(post, deleted)) == description_of(post, deleted),
{
    chunks::lemma_pieces(description_of(post, deleted), EMBED_DESC_LIMIT as nat);
}

/// The embed that shows one more image of a gallery.
pub open spec fn image_embed(gallery: Seq<char>, image: Seq<char>) -> EmbedView {
    EmbedView {
        description: None,
        color: None,
        author: None,
        field: None,
        footer: None,
        timestamp: None,
        image: Some(image),
        url: Some(gallery),
    }
}

/// Embeds with images put into them. The last embed shows the first image; further
/// images get embeds of their own, as many as a message can have, and all of them share
/// an address.
pub open spec fn with_images(
    embeds: Seq<EmbedView>,
    images: Seq<Seq<char>>,
    gallery: Option<Seq<char>>,
) -> Seq<EmbedView> {
    if images.len() == 0 {
        embeds
    } else {
        let g = match gallery {
            Some(u) => u,
            None => "https://t.me"@,
        };
        let primary = if embeds.len() == 0 {
            embeds
        } else {
            embeds.drop_last().push(
                EmbedView {
                    image: Some(images[0]),
                    url: if images.len() > 1 {
                        Some(g)
                    } else {
                        embeds.last().url
                    },
                    ..embeds.last()
                },
            )
        };
        primary + Seq::new(more_images(embeds.len(), images.len()), |k: int| image_embed(g, images[k + 1]))
    }
}

/// How many images beyond the first find room.
pub open spec fn more_images(embeds: nat, images: nat) -> nat {
    let room = if embeds < MAX_EMBEDS {
        (MAX_EMBEDS - embeds) as nat
    } else {
        0
    };
    if images <= 1 {
        0
    } else if images - 1 < room {
        (images - 1) as nat
    } else {
        room
    }
}

/// Show images inside the embeds, by their addresses. One image goes below the text of
/// the last embed. Several share an address, by which Discord merges their embeds into
/// one gallery.
pub fn attach_image_urls(embeds: &mut Vec<Embed>, images: &Vec<String>, gallery: Option<&str>)
    ensures
        final(embeds).deep_view() == with_images(
            old(embeds).deep_view(),
            images.deep_view(),
            match gallery {
                Some(g) => Some(g@),
                None => None,
            },
        ),
{
    if images.len() == 0 {
        return;
    }
    let ghost before = embeds.deep_view();
    let ghost urls = images.deep_view();
    let url: &str = match gallery {
        Some(g) => g,
        None => "https://t.me",
    };
    let ghost n = before.len();
    if embeds.len() > 0 {
        let mut primary: Embed = embeds.pop().unwrap();
        assert(primary.deep_view() == before.last());
        primary.image = Some(images[0].clone());
        if images.len() > 1 {
            primary.url = Some(url.to_owned());
        }
        assert(embeds.deep_view() =~= before.drop_last());
        embeds.push(primary);
        assert(embeds.deep_view() =~= before.drop_last().push(primary.deep_view()));
    }
    let ghost head = embeds.deep_view();
    let ghost want = with_images(
        before,
        urls,
        match gallery {
            Some(g) => Some(g@),
            None => None,
        },
    );
    let mut k: usize = 1;
    assert(embeds.deep_view() =~= want.take(n as int));
    while k < images.len() && embeds.len() < MAX_EMBEDS
        invariant
            urls == images.deep_view(),
            1 <= k <= urls.len(),
            embeds.deep_view().len() == n + k - 1,
            k > 1 ==> n + k - 1 <= MAX_EMBEDS,
            embeds.deep_view() == head + Seq::new(
                (k - 1) as nat,
                |i: int| image_embed(url@, urls[i + 1]),
            ),
        decreases urls.len() - k,
    {
        let ghost now = embeds.deep_view();
        let e: Embed = Embed {
            description: None,
            color: None,
            author: None,
            field: None,
            footer: None,
            timestamp: None,
            image: Some(images[k].clone()),
            url: Some(url.to_owned()),
        };
        assert(e.deep_view() =~= image_embed(url@, urls[k as int]));
        embeds.push(e);
        assert(embeds.deep_view() =~= now.push(e.deep_view()));
        k = k + 1;
        assert(embeds.deep_view() =~= head + Seq::new(
            (k - 1) as nat,
            |i: int| image_embed(url@, urls[i + 1]),
        ));
    }
    assert(k - 1 == more_images(n, urls.len()));
    assert(embeds.deep_view() =~= want);
}

/// A reference to a file that is attached to the same message.
pub open spec fn attachment_ref(name: Seq<char>) -> Seq<char> {
    "attachment://"@ + name
}

/// References to files that are attached to the same message.
pub fn attachment_refs(names: &Vec<String>) -> (r: Vec<String>)
    ensures
        r.deep_view() == names.deep_view().map_values(|n: Seq<char>| attachment_ref(n)),
{
    let mut out: Vec<String> = Vec::new();
    let mut i: usize = 0;
    while i < names.len()
        invariant
            i <= names@.len(),
            out@.len() == i,
            forall|j: int| 0 <= j < i ==> (#[trigger] out@[j])@ == attachment_ref(names@[j]@),
        decreases names@.len() - i,
    {
        let mut s: String = "attachment://".to_owned();
        s.append(names[i].as_str());
        out.push(s);
        i = i + 1;
    }
    assert(out.deep_view() =~= names.deep_view().map_values(|n: Seq<char>| attachment_ref(n)));
    out
}

/// Show attached image files inside the embeds. The names must be those under which the
/// files are attached.
pub fn attach_image_attachments(
    embeds: &mut Vec<Embed>,
    image_filenames: &Vec<String>,
    gallery_url: Option<&str>,
)
    ensures
        final(embeds).deep_view() == with_images(
            old(embeds).deep_view(),
            image_filenames.deep_view().map_values(|n: Seq<char>| attachment_ref(n)),
            match gallery_url {
                Some(g) => Some(g@),
                None => None,
            },
        ),
{
    let refs: Vec<String> = attachment_refs(image_filenames);
    attach_image_urls(embeds, &refs, gallery_url);
}

/// Images never push a message over the number of embeds that Discord takes.
pub proof fn lemma_images_fit(
    embeds: Seq<EmbedView>,
    images: Seq<Seq<char>>,
    gallery: Option<Seq<char>>,
)
    requires
        embeds.len() <= MAX_EMBEDS,
    ensures
        embeds.len() <= with_images(embeds, images, gallery).len() <= MAX_EMBEDS,
{
}

/// `m` with a member more, where there is one.
pub open spec fn with_member(
    m: Map<Seq<char>, json::Json>,
    key: Seq<char>,
    member: Option<json::Json>,
) -> Map<Seq<char>, json::Json> {
    match member {
        Some(j) => m.insert(key, j),
        None => m,
    }
}

/// The text as a JSON document, where there is one.
pub open spec fn text_member(s: Option<Seq<char>>) -> Option<json::Json> {
    match s {
        Some(t) => Some(json::Json::Text(t)),
        None => None,
    }
}

/// The JSON object of an author.
pub open spec fn author_json(a: EmbedAuthorView) -> json::Json {
    let m = Map::empty().insert("name"@, json::Json::Text(a.name));
    let m = with_member(m, "url"@, text_member(a.url));
    json::Json::Object(with_member(m, "icon_url"@, text_member(a.icon_url)))
}

/// The JSON list of the one field: its name is a zero-width space.
pub open spec fn field_json(value: Seq<char>) -> json::Json {
    json::Json::List(
        seq![
            json::Json::Object(
                Map::empty().insert("name"@, json::Json::Text("\u{200b}"@)).insert(
                    "value"@,
                    json::Json::Text(value),
                ).insert("inline"@, json::Json::Bool(false)),
            ),
        ],
    )
}

/// An object with one text in it.
pub open spec fn one_text(key: Seq<char>, value: Seq<char>) -> json::Json {
    json::Json::Object(Map::empty().insert(key, json::Json::Text(value)))
}

/// The JSON object of an embed: only what the embed has is a member.
pub open spec fn embed_json(e: EmbedView) -> json::Json {
    let m = Map::empty();
    let m = with_member(m, "description"@, text_member(e.description));
    let m = with_member(
        m,
        "color"@,
        match e.color {
            Some(c) => Some(json::Json::Nat(c as nat)),
            None => None,
        },
    );
    let m = with_member(
        m,
        "author"@,
        match e.author {
            Some(a) => Some(author_json(a)),
            None => None,
        },
    );
    let m = with_member(
        m,
        "fields"@,
        match e.field {
            Some(v) => Some(field_json(v)),
            None => None,
        },
    );
    let m = with_member(
        m,
        "footer"@,
        match e.footer {
            Some(t) => Some(one_text("text"@, t)),
            None => None,
        },
    );
    let m = with_member(m, "timestamp"@, text_member(e.timestamp));
    let m = with_member(
        m,
        "image"@,
        match e.image {
            Some(u) => Some(one_text("url"@, u)),
            None => None,
        },
    );
    json::Json::Object(with_member(m, "url"@, text_member(e.url)))
}

/// The JSON list of some embeds.
pub open spec fn embeds_json_of(embeds: Seq<EmbedView>) -> json::Json {
    json::Json::List(embeds.map_values(|e: EmbedView| embed_json(e)))
}

fn put_text(v: &mut serde_json::Value, key: &str, value: &Option<String>)
    requires
        json::json_of(*old(v)) is Object,
    ensures
        json::json_of(*final(v)) == json::Json::Object(
            with_member(json::json_of(*old(v))->Object_0, key@, text_member(value.deep_view())),
        ),
{
    match value {
        Some(s) => {
            json::put(v, key, json::text(s.as_str()));
        },
        None => {},
    }
}

fn text_object(key: &str, value: &str) -> (r: serde_json::Value)
    ensures
        json::json_of(r) == one_text(key@, value@),
{
    let mut v: serde_json::Value = json::object();
    json::put(&mut v, key, json::text(value));
    v
}

fn author_value(a: &EmbedAuthor) -> (r: serde_json::Value)
    ensures
        json::json_of(r) == author_json(a.deep_view()),
{
    let mut v: serde_json::Value = json::object();
    json::put(&mut v, "name", json::text(a.name.as_str()));
    put_text(&mut v, "url", &a.url);
    put_text(&mut v, "icon_url", &a.icon_url);
    v
}

fn field_value(value: &str) -> (r: serde_json::Value)
    ensures
        json::json_of(r) == field_json(value@),
{
    let mut v: serde_json::Value = json::object();
    json::put(&mut v, "name", json::text("\u{200b}"));
    json::put(&mut v, "value", json::text(value));
    json::put(&mut v, "inline", json::boolean(false));
    let mut l: Vec<serde_json::Value> = Vec::new();
    l.push(v);
    assert(json::jsons(l@) =~= seq![json::json_of(v)]);
    json::list(l)
}

fn embed_value(e: &Embed) -> (r: serde_json::Value)
    ensures
        json::json_of(r) == embed_json(e.deep_view()),
{
    let mut v: serde_json::Value = json::object();
    put_text(&mut v, "description", &e.description);
    match e.color {
        Some(c) => {
            json::put(&mut v, "color", json::number(c as u64));
        },
        None => {},
    }
    match &e.author {
        Some(a) => {
            json::put(&mut v, "author", author_value(a));
        },
        None => {},
    }
    match &e.field {
        Some(f) => {
            json::put(&mut v, "fields", field_value(f.as_str()));
        },
        None => {},
    }
    match &e.footer {
        Some(t) => {
            json::put(&mut v, "footer", text_object("text", t.as_str()));
        },
        None => {},
    }
    put_text(&mut v, "timestamp", &e.timestamp);
    match &e.image {
        Some(u) => {
            json::put(&mut v, "image", text_object("url", u.as_str()));
        },
        None => {},
    }
    put_text(&mut v, "url", &e.url);
    v
}

/// The `embeds` array of a message.
pub fn embeds_json(embeds: &Vec<Embed>) -> (r: serde_json::Value)
    ensures
        json::json_of(r) == embeds_json_of(embeds.deep_view()),
{
    let mut l: Vec<serde_json::Value> = Vec::new();
    let mut i: usize = 0;
    while i < embeds.len()
        invariant
            i <= embeds@.len(),
            l@.len() == i,
            forall|j: int|
                0 <= j < i ==> json::json_of(#[trigger] l@[j]) == embed_json(embeds@[j].deep_view()),
        decreases embeds@.len() - i,
    {
        l.push(embed_value(&embeds[i]));
        i = i + 1;
    }
    assert(json::jsons(l@) =~= embeds.deep_view().map_values(|e: EmbedView| embed_json(e)));
    json::list(l)
}

/// What `str::to_lowercase` makes of a text.
pub uninterp spec fn lowercase(s: Seq<char>) -> Seq<char>;

/// `str::to_lowercase`: the text in lower case, by the text alone.
#[verifier::external_body]
fn to_lower(s: &str) -> (r: String)
    ensures
        r@ == lowercase(s@),
{
    s.to_lowercase()
}

/// Some text of a list stands in `s`.
pub open spec fn contains_any(s: Seq<char>, list: Seq<Seq<char>>) -> bool {
    exists|i: int| 0 <= i < list.len() && text::contains_text(s, #[trigger] list[i])
}

/// A filter lets a post through: no excluded hashtag stands in it, and one of the
/// keywords does, if there are any.
pub open spec fn filter_passes(body: Seq<char>, f: raw::FilterView) -> bool {
    &&& !contains_any(body, f.exclude_hashtags)
    &&& f.any_keywords.len() == 0 || contains_any(body, f.any_keywords)
}

/// A filter with its words in lower case.
pub open spec fn lowered(f: raw::FilterView) -> raw::FilterView {
    raw::FilterView {
        any_keywords: f.any_keywords.map_values(|s: Seq<char>| lowercase(s)),
        exclude_hashtags: f.exclude_hashtags.map_values(|s: Seq<char>| lowercase(s)),
    }
}

fn any_stands_in(s: &str, list: &Vec<String>) -> (r: bool)
    ensures
        r == contains_any(s@, list.deep_view()),
{
    let ghost l = list.deep_view();
    let mut i: usize = 0;
    while i < list.len()
        invariant
            l == list.deep_view(),
            i <= l.len(),
            forall|j: int| 0 <= j < i ==> !text::contains_text(s@, #[trigger] l[j]),
        decreases l.len() - i,
    {
        assert(l[i as int] == list@[i as int]@);
        if text::contains(s, list[i].as_str()) {
            return true;
        }
        i = i + 1;
    }
    false
}

/// Whether a filter lets a post through, where body and filter are in one case.
pub fn passes_lowered_filter(body: &str, f: &Filter) -> (r: bool)
    ensures
        r == filter_passes(body@, f.deep_view()),
{
    if any_stands_in(body, &f.exclude_hashtags) {
        return false;
    }
    f.any_keywords.len() == 0 || any_stands_in(body, &f.any_keywords)
}

fn lower_all(v: &Vec<String>) -> (r: Vec<String>)
    ensures
        r.deep_view() == v.deep_view().map_values(|s: Seq<char>| lowercase(s)),
{
    let mut out: Vec<String> = Vec::new();
    let mut i: usize = 0;
    while i < v.len()
        invariant
            i <= v@.len(),
            out@.len() == i,
            forall|j: int| 0 <= j < i ==> (#[trigger] out@[j])@ == lowercase(v@[j]@),
        decreases v@.len() - i,
    {
        out.push(to_lower(v[i].as_str()));
        i = i + 1;
    }
    assert(out.deep_view() =~= v.deep_view().map_values(|s: Seq<char>| lowercase(s)));
    out
}

/// Whether a filter lets a post through, whatever the case of their letters.
pub fn passes_filter(body: &str, f: &Filter) -> (r: bool)
    ensures
        r == filter_passes(lowercase(body@), lowered(f.deep_view())),
{
    let lower: String = to_lower(body);
    let g: Filter = Filter {
        any_keywords: lower_all(&f.any_keywords),
        exclude_hashtags: lower_all(&f.exclude_hashtags),
    };
    passes_lowered_filter(lower.as_str(), &g)
}

/// A filter that says nothing lets everything through, and where both a keyword and
/// an excluded hashtag stand in a post, the exclusion wins.
pub proof fn lemma_filter(body: Seq<char>, f: raw::FilterView)
    ensures
        f.any_keywords.len() == 0 && f.exclude_hashtags.len() == 0 ==> filter_passes(body, f),
        contains_any(body, f.exclude_hashtags) ==> !filter_passes(body, f),
{
}

/// A quote in one line.
pub open spec fn one_line(s: Seq<char>) -> Seq<char> {
    s.map_values(|c: char| if c == '\n' { ' ' } else { c })
}

/// At most the first `n` characters.
pub open spec fn clipped(s: Seq<char>, n: nat) -> Seq<char> {
    if s.len() <= n {
        s
    } else {
        s.take(n as int)
    }
}

/// A post as plain text: the quote that it answers, its sender, whether it was edited,
/// and the body.
pub open spec fn plain_text(t: RelayTextView) -> Seq<char> {
    let quote = match t.reply_quote {
        Some(q) => "> "@ + one_line(clipped(q, 200)) + "\n"@,
        None => Seq::empty(),
    };
    let sender = match t.sender {
        Some(s) => "**"@ + s + "**: "@,
        None => Seq::empty(),
    };
    let edited = if t.edited {
        "(edited) "@
    } else {
        Seq::empty()
    };
    quote + sender + edited + t.body
}

fn quote_text(q: &str) -> (r: String)
    ensures
        r@ == one_line(clipped(q@, 200)),
{
    let v: Vec<char> = text::chars_of(q);
    let n: usize = if v.len() <= 200 {
        v.len()
    } else {
        200
    };
    let mut out: String = String::new();
    let mut i: usize = 0;
    let ghost want = one_line(clipped(q@, 200));
    while i < n
        invariant
            v@ == q@,
            n <= v@.len(),
            n == want.len(),
            want == one_line(clipped(q@, 200)),
            i <= n,
            out@ == want.take(i as int),
        decreases n - i,
    {
        if v[i] == '\n' {
            out.push(' ');
        } else {
            out.push(v[i]);
        }
        i = i + 1;
        assert(out@ =~= want.take(i as int));
    }
    assert(want.take(n as int) =~= want);
    out
}

/// Render a post as plain messages that Discord accepts.
pub fn render(t: &RelayText) -> (r: Vec<String>)
    ensures
        r.deep_view() == chunks::chunks_of(plain_text(t.deep_view()), DISCORD_LIMIT as nat),
{
    let mut full: String = String::new();
    match &t.reply_quote {
        Some(q) => {
            full.append("> ");
            full.append(quote_text(q.as_str()).as_str());
            full.append("\n");
        },
        None => {},
    }
    match &t.sender {
        Some(s) => {
            full.append("**");
            full.append(s.as_str());
            full.append("**: ");
        },
        None => {},
    }
    if t.edited {
        full.append("(edited) ");
    }
    full.append(t.body.as_str());
    assert(full@ =~= plain_text(t.deep_view()));
    chunks::split_chunks(full.as_str(), DISCORD_LIMIT)
}

/// The stats line shows every reaction that was given, each with its count: the highest
/// count first, equal counts by emoji. Behind them stand the comments, where there are any.
pub proof fn lemma_stats_line(e: Seq<(Seq<char>, i32)>, comment_count: i32)
    requires
        crate::reactions::ascending(e),
    ensures
        exists|order: Seq<(Seq<char>, i32)>|
            {
                &&& #[trigger] order.to_multiset() == e.filter(
                    |x: (Seq<char>, i32)| x.1 > 0,
                ).to_multiset()
                &&& forall|i: int, j: int|
                    #![trigger order[i], order[j]]
                    0 <= i < j < order.len() ==> order[i].1 > order[j].1 || (order[i].1
                        == order[j].1 && text::text_less(order[i].0, order[j].0))
                &&& stats_of(e, comment_count) == text::joined(
                    order.map_values(
                        |x: (Seq<char>, i32)| x.0 + " "@ + text::decimal(x.1 as int),
                    ) + (if comment_count > 0 {
                        seq!["💬 "@ + text::decimal(comment_count as int)]
                    } else {
                        Seq::empty()
                    }),
                    " · "@,
                )
            },
{
    lemma_ranking(e);
    let order = ranking(e);
    assert(order.to_multiset() == e.filter(|x: (Seq<char>, i32)| x.1 > 0).to_multiset());
    assert forall|i: int, j: int|
        #![trigger order[i], order[j]]
        0 <= i < j < order.len() implies order[i].1 > order[j].1 || (order[i].1 == order[j].1
        && text::text_less(order[i].0, order[j].0)) by {
        assert(ranks_before(order[i], order[j]));
    }
    assert(stats_parts(e, comment_count) =~= order.map_values(
        |x: (Seq<char>, i32)| x.0 + " "@ + text::decimal(x.1 as int),
    ) + (if comment_count > 0 {
        seq!["💬 "@ + text::decimal(comment_count as int)]
    } else {
        Seq::empty()
    }));
}

proof fn lemma_nothing_ranked(e: Seq<(Seq<char>, i32)>)
    requires
        forall|i: int| 0 <= i < e.len() ==> (#[trigger] e[i]).1 <= 0,
    ensures
        ranking(e).len() == 0,
    decreases e.len(),
{
    if e.len() > 0 {
        assert(e[e.len() - 1].1 <= 0);
        assert forall|i: int| 0 <= i < e.drop_last().len() implies (#[trigger] e.drop_last()[i]).1
            <= 0 by {
            assert(e[i].1 <= 0);
        }
        lemma_nothing_ranked(e.drop_last());
    }
}

/// The number of comments ends the stats line, whatever the reactions. Without reactions it
/// is all there is, and with neither there is no stats line.
pub proof fn lemma_comments_end_the_stats_line(e: Seq<(Seq<char>, i32)>, comment_count: i32)
    ensures
        comment_count > 0 ==> text::ends_with(
            stats_of(e, comment_count),
            "💬 "@ + text::decimal(comment_count as int),
        ),
        (forall|i: int| 0 <= i < e.len() ==> (#[trigger] e[i]).1 <= 0) ==> stats_of(
            e,
            comment_count,
        ) == (if comment_count > 0 {
            "💬 "@ + text::decimal(comment_count as int)
        } else {
            Seq::empty()
        }),
{
    let parts = stats_parts(e, comment_count);
    if comment_count > 0 {
        text::lemma_joined_ends(parts, " · "@);
        assert(parts.last() == "💬 "@ + text::decimal(comment_count as int));
    }
    if forall|i: int| 0 <= i < e.len() ==> (#[trigger] e[i]).1 <= 0 {
        lemma_nothing_ranked(e);
        if comment_count > 0 {
            assert(parts.len() == 1);
            assert(parts[0] == "💬 "@ + text::decimal(comment_count as int));
        } else {
            assert(parts.len() == 0);
        }
    }
}

proof fn lemma_rank_insert_has(r: Seq<(Seq<char>, i32)>, x: (Seq<char>, i32))
    ensures
        rank_insert(r, x).contains(x),
        forall|y: (Seq<char>, i32)| r.contains(y) ==> #[trigger] rank_insert(r, x).contains(y),
    decreases r.len(),
{
    let q = rank_insert(r, x);
    if r.len() == 0 {
        assert(q[0] == x);
    } else if ranks_before(x, r[0]) {
        assert(q[0] == x);
        assert forall|y: (Seq<char>, i32)| r.contains(y) implies #[trigger] q.contains(y) by {
            let i = choose|i: int| 0 <= i < r.len() && r[i] == y;
            assert(q[i + 1] == y);
        }
    } else {
        let rest = r.skip(1);
        lemma_rank_insert_has(rest, x);
        let p = rank_insert(rest, x);
        let k = choose|k: int| 0 <= k < p.len() && p[k] == x;
        assert(q[k + 1] == x);
        assert forall|y: (Seq<char>, i32)| r.contains(y) implies #[trigger] q.contains(y) by {
            let i = choose|i: int| 0 <= i < r.len() && r[i] == y;
            if i == 0 {
                assert(q[0] == y);
            } else {
                assert(rest[i - 1] == y);
                assert(rest.contains(y));
                assert(p.contains(y));
                let j = choose|j: int| 0 <= j < p.len() && p[j] == y;
                assert(q[j + 1] == y);
            }
        }
    }
}

proof fn lemma_ranking_has(e: Seq<(Seq<char>, i32)>, i: int)
    requires
        0 <= i < e.len(),
        e[i].1 > 0,
    ensures
        ranking(e).contains(e[i]),
    decreases e.len(),
{
    let init = e.drop_last();
    if e.last().1 > 0 {
        lemma_rank_insert_has(ranking(init), e.last());
    }
    if i < e.len() - 1 {
        assert(init[i] == e[i]);
        lemma_ranking_has(init, i);
    }
}

/// Every reaction that was given shows in the stats line with its count, whatever the other
/// reactions and the comments. A single one, without comments, is all there is.
pub proof fn lemma_reaction_shows(e: Seq<(Seq<char>, i32)>, comment_count: i32, i: int)
    requires
        0 <= i < e.len(),
        e[i].1 > 0,
    ensures
        text::contains_text(
            stats_of(e, comment_count),
            e[i].0 + " "@ + text::decimal(e[i].1 as int),
        ),
        e.len() == 1 && comment_count <= 0 ==> stats_of(e, comment_count) == e[i].0 + " "@
            + text::decimal(e[i].1 as int),
{
    lemma_ranking_has(e, i);
    let r = ranking(e);
    let k = choose|k: int| 0 <= k < r.len() && r[k] == e[i];
    let parts = stats_parts(e, comment_count);
    assert(parts[k] == e[i].0 + " "@ + text::decimal(e[i].1 as int));
    text::lemma_joined_has_part(parts, " · "@, k);
    if e.len() == 1 && comment_count <= 0 {
        reveal_with_fuel(ranking, 2);
        assert(e.drop_last().len() == 0);
        assert(parts.len() == 1);
    }
}

/// The descriptions of some embeds, one behind the other.
pub open spec fn all_said(embeds: Seq<EmbedView>) -> Seq<char>
    decreases embeds.len(),
{
    if embeds.len() == 0 {
        Seq::empty()
    } else {
        all_said(embeds.drop_last()) + (match embeds.last().description {
            Some(d) => d,
            None => Seq::empty(),
        })
    }
}

proof fn lemma_all_said(embeds: Seq<EmbedView>, texts: Seq<Seq<char>>)
    requires
        embeds.len() == texts.len(),
        forall|i: int| 0 <= i < embeds.len() ==> (#[trigger] embeds[i]).description == Some(texts[i]),
    ensures
        all_said(embeds) == text::concat(texts),
    decreases embeds.len(),
{
    if embeds.len() > 0 {
        assert forall|i: int| 0 <= i < embeds.drop_last().len() implies (
        #[trigger] embeds.drop_last()[i]).description == Some(texts.drop_last()[i]) by {
            assert(embeds[i].description == Some(texts[i]));
        }
        lemma_all_said(embeds.drop_last(), texts.drop_last());
        assert(embeds[embeds.len() - 1].description == Some(texts[texts.len() - 1]));
    }
}

proof fn lemma_said(post: RelayTextView, meta: EmbedMetaView, footer: Seq<char>)
    ensures
        all_said(embeds_of(post, meta, footer)) == clipped(
            description_of(post, meta.deleted),
            40960,
        ),
        description_of(post, meta.deleted).len() <= 4096 ==> embeds_of(post, meta, footer).len()
            == 1,
{
    let d = description_of(post, meta.deleted);
    let all = chunks::pieces(d, 4096);
    let pieces = description_pieces(post, meta.deleted);
    let embeds = embeds_of(post, meta, footer);
    assert forall|i: int| 0 <= i < embeds.len() implies (#[trigger] embeds[i]).description == Some(
        pieces[i],
    ) by {}
    lemma_all_said(embeds, pieces);
    chunks::lemma_pieces(d, 4096);
    chunks::lemma_first_pieces(d, 4096, 10);
    if all.len() <= 10 {
        if d.len() > 40960 {
            assert(false);
        }
    } else {
        if d.len() <= 40960 {
            assert(all.len() <= 10);
        }
        assert(pieces =~= all.take(10));
    }
}

/// The embeds of a post say its body: all of it, as far as it fits into ten embeds of 4096
/// characters, behind a mark where it was edited. A post that says nothing says a
/// zero-width space.
pub proof fn lemma_embeds_say_body(post: RelayTextView, meta: EmbedMetaView, footer: Seq<char>)
    requires
        !meta.deleted,
    ensures
        post.edited ==> all_said(embeds_of(post, meta, footer)) == clipped(
            "(edited) "@ + post.body,
            40960,
        ),
        !post.edited && post.body.len() > 0 ==> all_said(embeds_of(post, meta, footer)) == clipped(
            post.body,
            40960,
        ),
        !post.edited && post.body.len() == 0 ==> all_said(embeds_of(post, meta, footer))
            == seq!['\u{200b}'],
{
    reveal_strlit("(edited) ");
    lemma_said(post, meta, footer);
}

/// A body that is not too long for one embed stands in it as it is.
pub proof fn lemma_short_body(post: RelayTextView, meta: EmbedMetaView, footer: Seq<char>)
    requires
        !meta.deleted,
        !post.edited,
        0 < post.body.len() <= 4096,
    ensures
        embeds_of(post, meta, footer).len() == 1,
        embeds_of(post, meta, footer)[0].description == Some(post.body),
{
    lemma_said(post, meta, footer);
    let all = chunks::pieces(description_of(post, false), 4096);
    assert(all =~= seq![post.body]);
}

/// A deleted post says so at its end, and above that what it said before, struck through.
pub proof fn lemma_deleted_says_so(post: RelayTextView, meta: EmbedMetaView, footer: Seq<char>)
    requires
        meta.deleted,
    ensures
        !post.edited && post.body.len() == 0 ==> all_said(embeds_of(post, meta, footer))
            == "🗑 deleted on Telegram"@,
        !post.edited && struck(post.body).len() > 0 ==> all_said(embeds_of(post, meta, footer))
            == clipped(struck(post.body) + "\n🗑 deleted on Telegram"@, 40960),
        post.edited ==> all_said(embeds_of(post, meta, footer)) == clipped(
            struck("(edited) "@ + post.body) + "\n🗑 deleted on Telegram"@,
            40960,
        ),
{
    reveal_strlit("🗑 deleted on Telegram");
    reveal_strlit("\n🗑 deleted on Telegram");
    lemma_said(post, meta, footer);
    if post.edited {
        reveal_strlit("(edited) ");
        lemma_struck_not_empty("(edited) "@ + post.body, 0);
    } else if post.body.len() == 0 {
        assert(lines(post.body, 0).len() == 0);
        assert(struck(post.body) =~= Seq::<char>::empty());
    }
}

proof fn lemma_struck_not_empty(s: Seq<char>, i: int)
    requires
        s.len() > 0,
        s[0] == '(',
        i == 0,
    ensures
        struck(s).len() > 0,
{
    let l = lines(s, 0);
    let nl = seq!['\n'];
    text::lemma_find_text(s, nl, 0);
    match text::find_text(s, nl, 0) {
        Some(k) => {
            assert(s.subrange(k, k + 1)[0] == '\n');
            assert(k > 0);
            assert(s.subrange(0, k)[0] == '(');
            assert(without_cr(s.subrange(0, k))[0] == '(');
            assert(l[0][0] == '(');
        },
        None => {
            assert(s.skip(0) =~= s);
            assert(l[0][0] == '(');
        },
    }
    let parts = l.map_values(|x: Seq<char>| struck_line(x));
    assert(!text::is_white_space('('));
    assert(!text::is_white_space(l[0][0]));
    assert(!text::is_blank(l[0]));
    assert(parts[0] == "~~"@ + l[0] + "~~"@);
    text::lemma_joined_has_part(parts, "\n"@, 0);
    let at = choose|at: int| text::matches_at(text::joined(parts, "\n"@), parts[0], at);
    assert(text::joined(parts, "\n"@).len() >= parts[0].len());
}

/// What stands around the text: the channel with the link to the source above the first
/// embed; on the last one the signature with the footer, the time, and a field with the
/// stats line and the link to the source. No other embed has any of these.
pub proof fn lemma_embeds_carry(post: RelayTextView, meta: EmbedMetaView, footer: Seq<char>)
    ensures
        ({
            let r = embeds_of(post, meta, footer);
            let last = r.len() - 1;
            let stats = stats_of(meta.reactions, meta.comment_count);
            &&& r.len() > 0
            &&& r[0].author == Some(
                EmbedAuthorView {
                    name: meta.title,
                    url: meta.deep_link,
                    icon_url: meta.avatar_url,
                },
            )
            &&& r[last].footer == Some("by zayd — "@ + footer)
            &&& r[last].timestamp == meta.timestamp
            &&& meta.deep_link is None && stats.len() == 0 ==> r[last].field is None
            &&& meta.deep_link is None && stats.len() > 0 ==> r[last].field == Some(stats)
            &&& meta.deep_link is Some && stats.len() == 0 ==> r[last].field == Some(
                "[↗ View on Telegram]("@ + meta.deep_link->0 + ")"@,
            )
            &&& meta.deep_link is Some && stats.len() > 0 ==> r[last].field == Some(
                stats + "\n"@ + ("[↗ View on Telegram]("@ + meta.deep_link->0 + ")"@),
            )
            &&& forall|i: int|
                0 <= i < r.len() ==> {
                    &&& (#[trigger] r[i]).image is None
                    &&& r[i].url is None
                    &&& i > 0 ==> r[i].author is None
                    &&& i < last ==> r[i].field is None && r[i].footer is None
                        && r[i].timestamp is None
                }
        }),
{
    lemma_embeds(post, meta, footer);
}

/// Every embed of a post has the stripe colour that shows its state: red where the source
/// was deleted, else orange where it was edited, else the colour of its route.
pub proof fn lemma_stripe_shows_state(
    post: RelayTextView,
    meta: EmbedMetaView,
    footer: Seq<char>,
    i: int,
)
    requires
        0 <= i < embeds_of(post, meta, footer).len(),
    ensures
        meta.deleted ==> embeds_of(post, meta, footer)[i].color == Some(0xFF0000u32),
        !meta.deleted && post.edited ==> embeds_of(post, meta, footer)[i].color == Some(
            0xFFA500u32,
        ),
        !meta.deleted && !post.edited ==> embeds_of(post, meta, footer)[i].color == Some(
            meta.color,
        ),
{
}

/// With a single reaction, no comments and no link, the field below a post is that reaction
/// with its count.
pub proof fn lemma_field_of_one_reaction(
    post: RelayTextView,
    meta: EmbedMetaView,
    footer: Seq<char>,
)
    requires
        meta.reactions.len() == 1,
        meta.reactions[0].1 > 0,
        meta.comment_count <= 0,
        meta.deep_link is None,
    ensures
        embeds_of(post, meta, footer).last().field == Some(
            meta.reactions[0].0 + " "@ + text::decimal(meta.reactions[0].1 as int),
        ),
{
    lemma_embeds_carry(post, meta, footer);
    lemma_reaction_shows(meta.reactions, meta.comment_count, 0);
    reveal_strlit(" ");
}

proof fn lemma_no_line_feed(s: Seq<char>, from: int)
    requires
        0 <= from <= s.len(),
        !s.skip(from).contains('\n'),
    ensures
        text::find_text(s, seq!['\n'], from) is None,
{
    let nl = seq!['\n'];
    text::lemma_find_text(s, nl, from);
    if let Some(k) = text::find_text(s, nl, from) {
        assert(s.subrange(k, k + 1)[0] == '\n');
        assert(s.skip(from)[k - from] == '\n');
    }
}

/// Striking through goes line by line: a line that is not blank gets two tildes on either
/// side, a blank one stays as it is, and the lines stay in their order.
pub proof fn lemma_struck_by_lines(line: Seq<char>, rest: Seq<char>)
    requires
        !line.contains('\n'),
        line.len() > 0 ==> line.last() != '\r',
    ensures
        line.len() > 0 ==> struck(line) == (if text::is_blank(line) {
            line
        } else {
            "~~"@ + line + "~~"@
        }),
        rest.len() > 0 ==> struck(line + seq!['\n'] + rest) == (if text::is_blank(line) {
            line
        } else {
            "~~"@ + line + "~~"@
        }) + "\n"@ + struck(rest),
{
    let nl = seq!['\n'];
    if line.len() > 0 {
        assert(line.skip(0) =~= line);
        lemma_no_line_feed(line, 0);
        assert(lines(line, 0) =~= seq![line]);
        let parts = lines(line, 0).map_values(|l: Seq<char>| struck_line(l));
        assert(parts.len() == 1 && parts[0] == struck_line(line));
    }
    if rest.len() > 0 {
        let s = line + nl + rest;
        let n = line.len() as int;
        text::lemma_find_text(s, nl, 0);
        assert(s.subrange(n, n + 1) =~= nl);
        assert(text::matches_at(s, nl, n));
        let k = text::find_text(s, nl, 0)->0;
        if k < n {
            assert(s.subrange(k, k + 1)[0] == line[k]);
        }
        assert(s.subrange(0, n) =~= line);
        lemma_lines_skip(s, n + 1);
        assert(s.skip(n + 1) =~= rest);
        let all = lines(s, 0);
        assert(all =~= seq![line] + lines(rest, 0));
        let parts = all.map_values(|l: Seq<char>| struck_line(l));
        let more = lines(rest, 0).map_values(|l: Seq<char>| struck_line(l));
        assert(parts =~= seq![struck_line(line)] + more);
        assert(lines(rest, 0).len() > 0);
        lemma_joined_front(struck_line(line), more, "\n"@);
    }
}

proof fn lemma_joined_front(first: Seq<char>, rest: Seq<Seq<char>>, sep: Seq<char>)
    requires
        rest.len() > 0,
    ensures
        text::joined(seq![first] + rest, sep) == first + sep + text::joined(rest, sep),
    decreases rest.len(),
{
    let all = seq![first] + rest;
    if rest.len() == 1 {
        assert(all.drop_last() =~= seq![first]);
        assert(text::joined(seq![first], sep) == first);
        assert(text::joined(rest, sep) == rest[0]);
        assert(text::joined(all, sep) =~= first + sep + text::joined(rest, sep));
    } else {
        assert(all.drop_last() =~= seq![first] + rest.drop_last());
        lemma_joined_front(first, rest.drop_last(), sep);
        assert(text::joined(all, sep) =~= first + sep + text::joined(rest, sep));
    }
}

proof fn lemma_lines_skip(s: Seq<char>, from: int)
    requires
        0 <= from <= s.len(),
    ensures
        lines(s, from) == lines(s.skip(from), 0),
{
    assert(s.skip(from).skip(0) =~= s.skip(from));
    lemma_lines_shift(s, from, 0);
}

proof fn lemma_lines_shift(s: Seq<char>, by: int, from: int)
    requires
        0 <= by,
        0 <= from,
        by + from <= s.len(),
    ensures
        lines(s, by + from) == lines(s.skip(by), from),
    decreases s.len() - from,
{
    let t = s.skip(by);
    let nl = seq!['\n'];
    if by + from < s.len() {
        lemma_find_shift(s, by, from);
        match text::find_text(t, nl, from) {
            Some(i) => {
                text::lemma_find_text(t, nl, from);
                assert(s.subrange(by + from, by + i) =~= t.subrange(from, i));
                lemma_lines_shift(s, by, i + 1);
            },
            None => {
                assert(s.skip(by + from) =~= t.skip(from));
            },
        }
    }
}

proof fn lemma_find_shift(s: Seq<char>, by: int, from: int)
    requires
        0 <= by,
        0 <= from,
        by + from <= s.len(),
    ensures
        text::find_text(s, seq!['\n'], by + from) == (match text::find_text(
            s.skip(by),
            seq!['\n'],
            from,
        ) {
            Some(i) => Some(by + i),
            None => None,
        }),
    decreases s.len() - from,
{
    let nl = seq!['\n'];
    let t = s.skip(by);
    if by + from + 1 <= s.len() {
        assert(s.subrange(by + from, by + from + 1) =~= t.subrange(from, from + 1));
        if !text::matches_at(t, nl, from) {
            lemma_find_shift(s, by, from + 1);
        }
    }
}

/// Images are shown in their order from the last embed on, as far as a message has room, and
/// several share the address of the gallery, by which Discord merges them. Nothing else of
/// the embeds changes, and the embeds that are added show an image and nothing else.
pub proof fn lemma_images_shown(
    embeds: Seq<EmbedView>,
    images: Seq<Seq<char>>,
    gallery: Option<Seq<char>>,
)
    requires
        0 < embeds.len() <= 10,
    ensures
        ({
            let r = with_images(embeds, images, gallery);
            let last = embeds.len() - 1;
            let address = match gallery {
                Some(g) => g,
                None => "https://t.me"@,
            };
            &&& images.len() == 0 ==> r == embeds
            &&& images.len() > 0 ==> r.len() == if last + images.len() <= 10 {
                last + images.len()
            } else {
                10
            }
            &&& forall|k: int|
                0 <= k < images.len() && last + k < 10 ==> (#[trigger] r[last + k]).image == Some(
                    images[k],
                )
            &&& images.len() > 1 ==> forall|i: int|
                last <= i < r.len() ==> (#[trigger] r[i]).url == Some(address)
            &&& images.len() == 1 ==> r[last].url == embeds[last].url
            &&& forall|i: int|
                0 <= i < embeds.len() ==> {
                    &&& (#[trigger] r[i]).description == embeds[i].description
                    &&& r[i].color == embeds[i].color
                    &&& r[i].author == embeds[i].author
                    &&& r[i].field == embeds[i].field
                    &&& r[i].footer == embeds[i].footer
                    &&& r[i].timestamp == embeds[i].timestamp
                    &&& i < last ==> r[i].image == embeds[i].image && r[i].url == embeds[i].url
                }
            &&& forall|i: int|
                embeds.len() <= i < r.len() ==> {
                    &&& (#[trigger] r[i]).description is None
                    &&& r[i].color is None
                    &&& r[i].author is None
                    &&& r[i].field is None
                    &&& r[i].footer is None
                    &&& r[i].timestamp is None
                }
        }),
{
    let r = with_images(embeds, images, gallery);
    let last = embeds.len() - 1;
    assert forall|k: int| 0 <= k < images.len() && last + k < 10 implies (
    #[trigger] r[last + k]).image == Some(images[k]) by {
        if k > 0 {
            assert(r[last + k] == r[embeds.len() + (k - 1)]);
        }
    }
    assert forall|i: int| images.len() > 1 && last <= i < r.len() implies (#[trigger] r[i]).url
        == Some(
        match gallery {
            Some(g) => g,
            None => "https://t.me"@,
        },
    ) by {}
}

/// Images take nothing from what the embeds say and add nothing to it.
pub proof fn lemma_images_say_nothing(
    embeds: Seq<EmbedView>,
    images: Seq<Seq<char>>,
    gallery: Option<Seq<char>>,
)
    requires
        0 < embeds.len() <= 10,
    ensures
        all_said(with_images(embeds, images, gallery)) == all_said(embeds),
{
    let r = with_images(embeds, images, gallery);
    lemma_images_shown(embeds, images, gallery);
    let n = embeds.len();
    assert(r.len() >= n);
    lemma_said_alike(r.take(n as int), embeds);
    lemma_said_until(r, n as int);
}

proof fn lemma_said_alike(a: Seq<EmbedView>, b: Seq<EmbedView>)
    requires
        a.len() == b.len(),
        forall|i: int| 0 <= i < a.len() ==> (#[trigger] a[i]).description == b[i].description,
    ensures
        all_said(a) == all_said(b),
    decreases a.len(),
{
    if a.len() > 0 {
        assert forall|i: int| 0 <= i < a.drop_last().len() implies (
        #[trigger] a.drop_last()[i]).description == b.drop_last()[i].description by {
            assert(a[i].description == b[i].description);
        }
        lemma_said_alike(a.drop_last(), b.drop_last());
        assert(a[a.len() - 1].description == b[b.len() - 1].description);
    }
}

proof fn lemma_said_until(r: Seq<EmbedView>, n: int)
    requires
        0 <= n <= r.len(),
        forall|i: int| n <= i < r.len() ==> (#[trigger] r[i]).description is None,
    ensures
        all_said(r) == all_said(r.take(n)),
    decreases r.len() - n,
{
    if n == r.len() {
        assert(r.take(n) =~= r);
    } else {
        let init = r.drop_last();
        assert forall|i: int| n <= i < init.len() implies (#[trigger] init[i]).description is None by {
            assert(r[i].description is None);
        }
        lemma_said_until(init, n);
        assert(init.take(n) =~= r.take(n));
        assert(r[r.len() - 1].description is None);
        assert(all_said(r) =~= all_said(init));
    }
}

/// A filter lets a post through exactly if none of the excluded hashtags stands in it and,
/// where there are keywords, one of them does; the case of letters does not count.
pub proof fn lemma_filter_lets_through(body: Seq<char>, f: raw::FilterView)
    ensures
        filter_passes(lowercase(body), lowered(f)) <==> {
            &&& forall|i: int|
                0 <= i < f.exclude_hashtags.len() ==> !text::contains_text(
                    lowercase(body),
                    lowercase(#[trigger] f.exclude_hashtags[i]),
                )
            &&& f.any_keywords.len() == 0 || exists|i: int|
                0 <= i < f.any_keywords.len() && text::contains_text(
                    lowercase(body),
                    lowercase(#[trigger] f.any_keywords[i]),
                )
        },
{
    let l = lowered(f);
    let b = lowercase(body);
    assert(l.any_keywords.len() == f.any_keywords.len());
    assert(l.exclude_hashtags.len() == f.exclude_hashtags.len());
    assert(contains_any(b, l.exclude_hashtags) <==> exists|i: int|
        0 <= i < f.exclude_hashtags.len() && text::contains_text(
            b,
            lowercase(#[trigger] f.exclude_hashtags[i]),
        )) by {
        if contains_any(b, l.exclude_hashtags) {
            let i = choose|i: int|
                0 <= i < l.exclude_hashtags.len() && text::contains_text(
                    b,
                    #[trigger] l.exclude_hashtags[i],
                );
            assert(text::contains_text(b, lowercase(f.exclude_hashtags[i])));
        }
        if exists|i: int|
            0 <= i < f.exclude_hashtags.len() && text::contains_text(
                b,
                lowercase(#[trigger] f.exclude_hashtags[i]),
            ) {
            let i = choose|i: int|
                0 <= i < f.exclude_hashtags.len() && text::contains_text(
                    b,
                    lowercase(#[trigger] f.exclude_hashtags[i]),
                );
            assert(text::contains_text(b, l.exclude_hashtags[i]));
        }
    }
    assert(contains_any(b, l.any_keywords) <==> exists|i: int|
        0 <= i < f.any_keywords.len() && text::contains_text(
            b,
            lowercase(#[trigger] f.any_keywords[i]),
        )) by {
        if contains_any(b, l.any_keywords) {
            let i = choose|i: int|
                0 <= i < l.any_keywords.len() && text::contains_text(
                    b,
                    #[trigger] l.any_keywords[i],
                );
            assert(text::contains_text(b, lowercase(f.any_keywords[i])));
        }
        if exists|i: int|
            0 <= i < f.any_keywords.len() && text::contains_text(
                b,
                lowercase(#[trigger] f.any_keywords[i]),
            ) {
            let i = choose|i: int|
                0 <= i < f.any_keywords.len() && text::contains_text(
                    b,
                    lowercase(#[trigger] f.any_keywords[i]),
                );
            assert(text::contains_text(b, l.any_keywords[i]));
        }
    }
}

/// A post as plain text ends with its body. Before it stand, as far as there are any, the
/// first two hundred characters of the quote on a line of their own, the sender, and the
/// mark of an edit.
pub proof fn lemma_plain_text(t: RelayTextView)
    ensures
        text::ends_with(plain_text(t), t.body),
        t.sender is None && t.reply_quote is None && !t.edited ==> plain_text(t) == t.body,
        t.edited ==> text::ends_with(plain_text(t), "(edited) "@ + t.body),
        t.sender is Some && t.reply_quote is None && !t.edited ==> plain_text(t) == "**"@
            + t.sender->0 + "**: "@ + t.body,
        t.sender is Some && t.reply_quote is None && t.edited ==> plain_text(t) == "**"@
            + t.sender->0 + "**: "@ + "(edited) "@ + t.body,
        t.reply_quote is Some ==> {
            let shown = if t.reply_quote->0.len() <= 200 {
                t.reply_quote->0.len() as int
            } else {
                200
            };
            &&& plain_text(t).len() >= shown + 3
            &&& plain_text(t).take(2) == "> "@
            &&& plain_text(t)[shown + 2] == '\n'
            &&& forall|i: int|
                0 <= i < shown ==> #[trigger] plain_text(t)[i + 2] == (if t.reply_quote->0[i]
                    == '\n' {
                    ' '
                } else {
                    t.reply_quote->0[i]
                })
            &&& plain_text(t).skip(shown + 3) == plain_text(
                RelayTextView { reply_quote: None, ..t },
            )
        },
{
    let p = plain_text(t);
    assert(p.subrange(p.len() - t.body.len(), p.len() as int) =~= t.body);
    if t.edited {
        let tail = "(edited) "@ + t.body;
        assert(p.subrange(p.len() - tail.len(), p.len() as int) =~= tail);
    }
    let bare = RelayTextView { reply_quote: None, ..t };
    if let Some(q) = t.reply_quote {
        reveal_strlit("> ");
        reveal_strlit("\n");
        let shown = if q.len() <= 200 {
            q.len() as int
        } else {
            200
        };
        assert(clipped(q, 200).len() == shown);
        assert(p.take(2) =~= "> "@);
        assert(p.skip(shown + 3) =~= plain_text(bare));
    } else {
        if t.sender is None && !t.edited {
            assert(p =~= t.body);
        }
        if t.sender is Some && !t.edited {
            assert(p =~= "**"@ + t.sender->0 + "**: "@ + t.body);
        }
        if t.sender is Some && t.edited {
            assert(p =~= "**"@ + t.sender->0 + "**: "@ + "(edited) "@ + t.body);
        }
    }
}

/// The JSON object of an embed has a member for each thing that the embed has, with just
/// that value, and no member for anything else.
pub proof fn lemma_embed_json(e: EmbedView)
    ensures
        embed_json(e) matches json::Json::Object(m) && {
            &&& m.dom().contains("description"@) <==> e.description is Some
            &&& e.description is Some ==> m["description"@] == json::Json::Text(e.description->0)
            &&& m.dom().contains("color"@) <==> e.color is Some
            &&& e.color is Some ==> m["color"@] == json::Json::Nat(e.color->0 as nat)
            &&& m.dom().contains("author"@) <==> e.author is Some
            &&& e.author is Some ==> m["author"@] == author_json(e.author->0)
            &&& m.dom().contains("fields"@) <==> e.field is Some
            &&& e.field is Some ==> m["fields"@] == field_json(e.field->0)
            &&& m.dom().contains("footer"@) <==> e.footer is Some
            &&& e.footer is Some ==> m["footer"@] == one_text("text"@, e.footer->0)
            &&& m.dom().contains("timestamp"@) <==> e.timestamp is Some
            &&& e.timestamp is Some ==> m["timestamp"@] == json::Json::Text(e.timestamp->0)
            &&& m.dom().contains("image"@) <==> e.image is Some
            &&& e.image is Some ==> m["image"@] == one_text("url"@, e.image->0)
            &&& m.dom().contains("url"@) <==> e.url is Some
            &&& e.url is Some ==> m["url"@] == json::Json::Text(e.url->0)
        },
{
    reveal_strlit("description");
    reveal_strlit("color");
    reveal_strlit("author");
    reveal_strlit("fields");
    reveal_strlit("footer");
    reveal_strlit("timestamp");
    reveal_strlit("image");
    reveal_strlit("url");
    assert("description"@.len() == 11);
    assert("color"@.len() == 5);
    assert("author"@.len() == 6);
    assert("fields"@.len() == 6);
    assert("footer"@.len() == 6);
    assert("timestamp"@.len() == 9);
    assert("image"@.len() == 5);
    assert("url"@.len() == 3);
    assert("color"@[0] == 'c' && "image"@[0] == 'i');
    assert("author"@[0] == 'a' && "fields"@[0] == 'f' && "footer"@[0] == 'f');
    assert("fields"@[1] == 'i' && "footer"@[1] == 'o');
}

/// The members of the smaller objects inside of an embed: the name of an author with its
/// addresses, the value of the field, and the one text of a footer or an image.
pub proof fn lemma_embed_parts_json(a: EmbedAuthorView, value: Seq<char>, key: Seq<char>)
    ensures
        author_json(a) matches json::Json::Object(m) && {
            &&& m.dom().contains("name"@) && m["name"@] == json::Json::Text(a.name)
            &&& m.dom().contains("url"@) <==> a.url is Some
            &&& a.url is Some ==> m["url"@] == json::Json::Text(a.url->0)
            &&& m.dom().contains("icon_url"@) <==> a.icon_url is Some
            &&& a.icon_url is Some ==> m["icon_url"@] == json::Json::Text(a.icon_url->0)
        },
        field_json(value) matches json::Json::List(l) && l.len() == 1 && (
        l[0] matches json::Json::Object(m) && {
            &&& m.dom().contains("value"@) && m["value"@] == json::Json::Text(value)
            &&& m.dom().contains("name"@) && m["name"@] == json::Json::Text("\u{200b}"@)
            &&& m.dom().contains("inline"@) && m["inline"@] == json::Json::Bool(false)
        }),
        one_text(key, value) matches json::Json::Object(m) && m.dom() == set![key] && m[key]
            == json::Json::Text(value),
{
    reveal_strlit("name");
    reveal_strlit("url");
    reveal_strlit("icon_url");
    reveal_strlit("value");
    reveal_strlit("inline");
    assert("name"@.len() == 4);
    assert("url"@.len() == 3);
    assert("icon_url"@.len() == 8);
    assert("value"@.len() == 5);
    assert("inline"@.len() == 6);
    let m = one_text(key, value)->Object_0;
    assert(m.dom() =~= set![key]);
}

proof fn lemma_ascii_lower_tail(stem: Seq<char>, ext: Seq<char>)
    ensures
        text::ends_with(text::ascii_lower(stem + ext), text::ascii_lower(ext)),
{
    let s = text::ascii_lower(stem + ext);
    let e = text::ascii_lower(ext);
    assert(s.subrange(s.len() - e.len(), s.len() as int) =~= e);
}

/// A file is shown as an image exactly by its ending, in letters of either case: those of JPEG,
/// PNG, GIF and WebP files are. Without a dot a name has no ending.
pub proof fn lemma_image_name(stem: Seq<char>, ext: Seq<char>)
    ensures
        text::ascii_lower(ext) == ".jpg"@ || text::ascii_lower(ext) == ".jpeg"@
            || text::ascii_lower(ext) == ".png"@ || text::ascii_lower(ext) == ".gif"@
            || text::ascii_lower(ext) == ".webp"@ ==> image_name(stem + ext),
        !stem.contains('.') ==> !image_name(stem),
{
    lemma_ascii_lower_tail(stem, ext);
    reveal_strlit(".jpg");
    reveal_strlit(".jpeg");
    reveal_strlit(".png");
    reveal_strlit(".gif");
    reveal_strlit(".webp");
    if !stem.contains('.') && image_name(stem) {
        let lower = text::ascii_lower(stem);
        let e = if text::ends_with(lower, ".jpg"@) {
            ".jpg"@
        } else if text::ends_with(lower, ".jpeg"@) {
            ".jpeg"@
        } else if text::ends_with(lower, ".png"@) {
            ".png"@
        } else if text::ends_with(lower, ".gif"@) {
            ".gif"@
        } else {
            ".webp"@
        };
        let at = lower.len() - e.len();
        assert(lower.subrange(at, at + e.len()) == e);
        assert(e[0] == '.');
        assert(lower.subrange(at, at + e.len())[0] == lower[at]);
        assert(lower[at] == text::ascii_lower_char(stem[at]));
        assert(stem[at] == '.');
    }
}

/// A carriage return before a line feed belongs to the end of the line.
pub proof fn lemma_struck_with_returns(line: Seq<char>, rest: Seq<char>)
    requires
        !line.contains('\n'),
        rest.len() > 0,
    ensures
        struck(line + seq!['\r', '\n'] + rest) == (if text::is_blank(line) {
            line
        } else {
            "~~"@ + line + "~~"@
        }) + "\n"@ + struck(rest),
{
    let nl = seq!['\n'];
    let s = line + seq!['\r', '\n'] + rest;
    let n = line.len() as int + 1;
    text::lemma_find_text(s, nl, 0);
    assert(s.subrange(n, n + 1) =~= nl);
    assert(text::matches_at(s, nl, n));
    let k = text::find_text(s, nl, 0)->0;
    assert(k <= n) by {
        if k > n {
            assert(!text::matches_at(s, nl, n));
        }
    }
    if k < n {
        assert(s.subrange(k, k + 1)[0] == s[k]);
        if k < line.len() {
            assert(line[k] == '\n');
        }
    }
    assert(without_cr(s.subrange(0, n)) =~= line);
    lemma_lines_skip(s, n + 1);
    assert(s.skip(n + 1) =~= rest);
    let all = lines(s, 0);
    assert(all =~= seq![line] + lines(rest, 0));
    let parts = all.map_values(|l: Seq<char>| struck_line(l));
    let more = lines(rest, 0).map_values(|l: Seq<char>| struck_line(l));
    assert(parts =~= seq![struck_line(line)] + more);
    assert(lines(rest, 0).len() > 0);
    lemma_joined_front(struck_line(line), more, "\n"@);
}

} // verus!
