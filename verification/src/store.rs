//! The record of what was relayed, by which posts are kept from being relayed twice and
//! are found again when their source changes.
//!
//! One post can become several Discord messages, so a row is known by the chat, the
//! Telegram message and the Discord message.

use vstd::prelude::*;
use vstd::relations::*;

use crate::names::NameMap;
use crate::reactions;
use crate::reactions::Reactions;
use crate::text;

verus! {

/// A message that was just posted.
pub struct NewRecord {
    pub chat_id: i64,
    pub tg_msg_id: i32,
    pub route: String,
    pub webhook_name: String,
    pub discord_msg_id: String,
    pub content_hash: String,
    pub reactions: Reactions,
    pub comment_count: i32,
    /// How long relaying took, in milliseconds; none for posts that were not relayed live.
    pub latency_ms: Option<i64>,
    /// Where Discord serves the attached media.
    pub image_urls: Vec<String>,
}

pub struct NewRecordView {
    pub chat_id: i64,
    pub tg_msg_id: i32,
    pub route: Seq<char>,
    pub webhook_name: Seq<char>,
    pub discord_msg_id: Seq<char>,
    pub content_hash: Seq<char>,
    pub reactions: Seq<(Seq<char>, i32)>,
    pub comment_count: i32,
    pub latency_ms: Option<i64>,
    pub image_urls: Seq<Seq<char>>,
}

impl DeepView for NewRecord {
    type V = NewRecordView;

    open spec fn deep_view(&self) -> NewRecordView {
        NewRecordView {
            chat_id: self.chat_id,
            tg_msg_id: self.tg_msg_id,
            route: self.route@,
            webhook_name: self.webhook_name@,
            discord_msg_id: self.discord_msg_id@,
            content_hash: self.content_hash@,
            reactions: self.reactions.deep_view(),
            comment_count: self.comment_count,
            latency_ms: self.latency_ms,
            image_urls: self.image_urls.deep_view(),
        }
    }
}

/// A row of the record.
pub struct Row {
    pub chat_id: i64,
    pub tg_msg_id: i32,
    pub route: String,
    pub webhook_name: String,
    pub discord_msg_id: String,
    /// When the row was made, in seconds.
    pub posted_at: i64,
    /// When the source was last looked at, in seconds.
    pub last_checked: i64,
    pub content_hash: String,
    pub reactions: Reactions,
    pub comment_count: i32,
    /// Whether the source was deleted.
    pub deleted: bool,
    /// Whether the source was ever edited.
    pub edited: bool,
    pub latency_ms: Option<i64>,
    pub image_urls: Vec<String>,
}

#[verifier::ext_equal]
pub struct RowView {
    pub chat_id: i64,
    pub tg_msg_id: i32,
    pub route: Seq<char>,
    pub webhook_name: Seq<char>,
    pub discord_msg_id: Seq<char>,
    pub posted_at: i64,
    pub last_checked: i64,
    pub content_hash: Seq<char>,
    pub reactions: Seq<(Seq<char>, i32)>,
    pub comment_count: i32,
    pub deleted: bool,
    pub edited: bool,
    pub latency_ms: Option<i64>,
    pub image_urls: Seq<Seq<char>>,
}

impl DeepView for Row {
    type V = RowView;

    open spec fn deep_view(&self) -> RowView {
        RowView {
            chat_id: self.chat_id,
            tg_msg_id: self.tg_msg_id,
            route: self.route@,
            webhook_name: self.webhook_name@,
            discord_msg_id: self.discord_msg_id@,
            posted_at: self.posted_at,
            last_checked: self.last_checked,
            content_hash: self.content_hash@,
            reactions: self.reactions.deep_view(),
            comment_count: self.comment_count,
            deleted: self.deleted,
            edited: self.edited,
            latency_ms: self.latency_ms,
            image_urls: self.image_urls.deep_view(),
        }
    }
}

/// A posted message whose source is still looked at.
pub struct TrackedMsg {
    pub chat_id: i64,
    pub tg_msg_id: i32,
    pub route: String,
    pub webhook_name: String,
    pub discord_msg_id: String,
    pub content_hash: String,
    pub reactions: Reactions,
    pub comment_count: i32,
    pub posted_at: i64,
    pub last_checked: i64,
    pub edited: bool,
    pub image_urls: Vec<String>,
}

#[verifier::ext_equal]
pub struct TrackedMsgView {
    pub chat_id: i64,
    pub tg_msg_id: i32,
    pub route: Seq<char>,
    pub webhook_name: Seq<char>,
    pub discord_msg_id: Seq<char>,
    pub content_hash: Seq<char>,
    pub reactions: Seq<(Seq<char>, i32)>,
    pub comment_count: i32,
    pub posted_at: i64,
    pub last_checked: i64,
    pub edited: bool,
    pub image_urls: Seq<Seq<char>>,
}

impl DeepView for TrackedMsg {
    type V = TrackedMsgView;

    open spec fn deep_view(&self) -> TrackedMsgView {
        TrackedMsgView {
            chat_id: self.chat_id,
            tg_msg_id: self.tg_msg_id,
            route: self.route@,
            webhook_name: self.webhook_name@,
            discord_msg_id: self.discord_msg_id@,
            content_hash: self.content_hash@,
            reactions: self.reactions.deep_view(),
            comment_count: self.comment_count,
            posted_at: self.posted_at,
            last_checked: self.last_checked,
            edited: self.edited,
            image_urls: self.image_urls.deep_view(),
        }
    }
}

/// What a row says of its message.
pub open spec fn message_of(r: RowView) -> TrackedMsgView {
    TrackedMsgView {
        chat_id: r.chat_id,
        tg_msg_id: r.tg_msg_id,
        route: r.route,
        webhook_name: r.webhook_name,
        discord_msg_id: r.discord_msg_id,
        content_hash: r.content_hash,
        reactions: r.reactions,
        comment_count: r.comment_count,
        posted_at: r.posted_at,
        last_checked: r.last_checked,
        edited: r.edited,
        image_urls: r.image_urls,
    }
}

/// Latencies in figures.
#[derive(Debug, Clone, Copy, PartialEq, Eq, Structural)]
pub struct LatencyStats {
    pub count: usize,
    pub p50: i64,
    pub p95: i64,
    pub min: i64,
    pub max: i64,
}

/// The whole record in figures.
#[derive(Debug, Clone, Copy, PartialEq, Eq, Structural)]
pub struct StoreStats {
    /// How many posts are tracked, however many messages each became.
    pub tracked_posts: usize,
    /// How many rows are marked as deleted.
    pub deleted: usize,
    pub latency: Option<LatencyStats>,
}

/// Numbers in ascending order.
pub open spec fn in_order(v: Seq<i64>) -> Seq<i64> {
    v.sort_by(|a: i64, b: i64| a <= b)
}

/// The nearest-rank percentile of numbers in ascending order: the smallest number such
/// that at least `p` in a hundred are not above it.
pub open spec fn percentile_of(sorted: Seq<i64>, p: int) -> i64 {
    if sorted.len() == 0 {
        0
    } else {
        let rank = (p * sorted.len() + 99) / 100;
        if rank < 1 {
            sorted[0]
        } else if rank > sorted.len() {
            sorted.last()
        } else {
            sorted[rank - 1]
        }
    }
}

/// The nearest-rank percentile of numbers in ascending order.
pub fn percentile(sorted: &Vec<i64>, p: usize) -> (r: i64)
    requires
        p <= 100,
    ensures
        r == percentile_of(sorted@, p as int),
{
    if sorted.len() == 0 {
        return 0;
    }
    let n: u128 = sorted.len() as u128;
    assert(p * n <= 100 * n) by (nonlinear_arith)
        requires
            p <= 100,
            n >= 0,
    ;
    assert(p * n >= 0) by (nonlinear_arith)
        requires
            p >= 0,
            n >= 0,
    ;
    let rank: u128 = (p as u128 * n + 99) / 100;
    assert(rank <= n);
    if rank < 1 {
        sorted[0]
    } else {
        sorted[(rank - 1) as usize]
    }
}

/// The figures of some latencies.
pub open spec fn latency_of(values: Seq<i64>) -> Option<LatencyStats> {
    let v = in_order(values);
    if values.len() == 0 {
        None
    } else {
        Some(
            LatencyStats {
                count: values.len() as usize,
                p50: percentile_of(v, 50),
                p95: percentile_of(v, 95),
                min: v[0],
                max: v.last(),
            },
        )
    }
}

proof fn lemma_leq_is_total()
    ensures
        total_ordering(|a: i64, b: i64| a <= b),
{
}

/// Put numbers into ascending order.
fn sort_numbers(values: &Vec<i64>) -> (r: Vec<i64>)
    ensures
        r@ == in_order(values@),
        r@.len() == values@.len(),
{
    let ghost leq = |a: i64, b: i64| a <= b;
    let mut out: Vec<i64> = Vec::new();
    let mut i: usize = 0;
    assert(values@.take(0) =~= Seq::<i64>::empty());
    assert(out@ =~= Seq::<i64>::empty());
    while i < values.len()
        invariant
            leq == |a: i64, b: i64| a <= b,
            i <= values@.len(),
            out@.len() == i,
            sorted_by(out@, leq),
            out@.to_multiset() == values@.take(i as int).to_multiset(),
        decreases values@.len() - i,
    {
        let x: i64 = values[i];
        let ghost before = out@;
        let mut at: usize = out.len();
        while at > 0 && out[at - 1] > x
            invariant
                at <= out@.len(),
                out@ == before,
                forall|j: int| at <= j < before.len() ==> #[trigger] before[j] > x,
            decreases at,
        {
            at = at - 1;
        }
        out.insert(at, x);
        proof {
            broadcast use vstd::seq_lib::group_to_multiset_ensures;

            vstd::seq_lib::to_multiset_insert(before, at as int, x);
            assert(values@.take(i + 1) =~= values@.take(i as int).push(x));
            assert forall|p: int, q: int| 0 <= p < q < out@.len() implies #[trigger] leq(
                out@[p],
                out@[q],
            ) by {
                if q < at {
                    assert(leq(before[p], before[q]));
                } else if p < at && q == at {
                    if p < at - 1 {
                        assert(leq(before[p], before[at - 1]));
                    }
                } else if p < at {
                    assert(leq(before[p], before[q - 1]));
                } else if p > at {
                    assert(leq(before[p - 1], before[q - 1]));
                } else {
                    assert(before[q - 1] > x);
                }
            }
        }
        i = i + 1;
    }
    proof {
        broadcast use vstd::seq_lib::group_to_multiset_ensures;

        lemma_leq_is_total();
        assert(values@.take(values@.len() as int) =~= values@);
        values@.lemma_sort_by_ensures(leq);
        vstd::seq_lib::lemma_sorted_unique(out@, in_order(values@), leq);
    }
    out
}

/// Compute the figures of some latencies; none where there are no latencies.
pub fn latency_stats(values: &Vec<i64>) -> (r: Option<LatencyStats>)
    ensures
        r == latency_of(values@),
{
    if values.len() == 0 {
        return None;
    }
    let v: Vec<i64> = sort_numbers(values);
    let last: usize = v.len() - 1;
    Some(
        LatencyStats {
            count: values.len(),
            p50: percentile(&v, 50),
            p95: percentile(&v, 95),
            min: v[0],
            max: v[last],
        },
    )
}

/// The figures do not depend on the order of the latencies.
pub proof fn lemma_latency_order_independent(a: Seq<i64>, b: Seq<i64>)
    requires
        a.to_multiset() == b.to_multiset(),
    ensures
        latency_of(a) == latency_of(b),
{
    broadcast use vstd::seq_lib::group_to_multiset_ensures;

    let leq = |x: i64, y: i64| x <= y;
    lemma_leq_is_total();
    a.lemma_sort_by_ensures(leq);
    b.lemma_sort_by_ensures(leq);
    vstd::seq_lib::lemma_sorted_unique(in_order(a), in_order(b), leq);
    assert(a.len() == a.to_multiset().len());
    assert(b.len() == b.to_multiset().len());
}

/// The figures are latencies that were observed, and they lie in order.
pub proof fn lemma_latency_figures(values: Seq<i64>)
    requires
        values.len() > 0,
    ensures
        latency_of(values) matches Some(s) ==> {
            &&& s.min <= s.p50 <= s.p95 <= s.max
            &&& values.contains(s.min)
            &&& values.contains(s.p50)
            &&& values.contains(s.p95)
            &&& values.contains(s.max)
        },
        forall|i: int|
            0 <= i < values.len() ==> latency_of(values)->0.min <= #[trigger] values[i]
                <= latency_of(values)->0.max,
{
    broadcast use vstd::seq_lib::group_to_multiset_ensures;

    let leq = |x: i64, y: i64| x <= y;
    lemma_leq_is_total();
    values.lemma_sort_by_ensures(leq);
    let v = in_order(values);
    let n = v.len();
    assert(n == v.to_multiset().len());
    assert(values.len() == values.to_multiset().len());
    let r50 = (50 * n + 99) / 100;
    let r95 = (95 * n + 99) / 100;
    assert(1 <= r50 <= r95 <= n);
    assert forall|i: int, j: int| 0 <= i <= j < n implies v[i] <= v[j] by {
        if i < j {
            assert(leq(v[i], v[j]));
        }
    }
    assert(v[0] <= v[r50 - 1]);
    assert(v[r50 - 1] <= v[r95 - 1]);
    assert(v[r95 - 1] <= v[n - 1]);
    assert(v.contains(v[0]) && v.contains(v[r50 - 1]) && v.contains(v[r95 - 1]) && v.contains(
        v[n - 1],
    ));
    assert forall|i: int| 0 <= i < values.len() implies v[0] <= #[trigger] values[i] <= v[n - 1] by {
        assert(values.contains(values[i]));
        assert(values.to_multiset().count(values[i]) > 0);
        assert(v.contains(values[i]));
        let k = choose|k: int| 0 <= k < v.len() && v[k] == values[i];
        assert(v[0] <= v[k] && v[k] <= v[n - 1]);
    }
}

/// What `serde_json` writes for reaction counts.
pub uninterp spec fn counts_text(pairs: Seq<(Seq<char>, i32)>) -> Seq<char>;

/// What `serde_json` reads as reaction counts out of a text; nothing where the text is
/// not an object of such counts.
pub uninterp spec fn counts_of_text(s: Seq<char>) -> Option<Seq<(Seq<char>, i32)>>;

/// `serde_json::to_string` of a map from strings to numbers: by the map alone. Reading
/// the text gives the map back.
#[verifier::external_body]
fn write_counts(pairs: &Vec<(String, i32)>) -> (r: String)
    requires
        reactions::ascending(pairs.deep_view()),
    ensures
        r@ == counts_text(pairs.deep_view()),
        counts_of_text(r@) == Some(pairs.deep_view()),
{
    let map: std::collections::BTreeMap<String, i32> = pairs.iter().cloned().collect();
    serde_json::to_string(&map).unwrap_or_else(|_| "{}".to_string())
}

/// `serde_json::from_str` into a map from strings to numbers: by the text alone. The
/// map hands its entries out in dictionary order.
#[verifier::external_body]
fn read_counts(s: &str) -> (r: Option<Vec<(String, i32)>>)
    ensures
        r.deep_view() == counts_of_text(s@),
        r matches Some(v) ==> reactions::ascending(v.deep_view()),
{
    let map: Option<std::collections::BTreeMap<String, i32>> = serde_json::from_str(s).ok();
    map.map(|m| m.into_iter().collect())
}

/// Reaction counts as the record keeps them. Reading them gives them back.
pub fn reactions_to_json(r: &Reactions) -> (s: String)
    ensures
        s@ == counts_text(r.deep_view()),
        counts_of_text(s@) == Some(r.deep_view()),
{
    write_counts(r.pairs())
}

/// Reaction counts that a list stands for, none where there is no list.
pub fn reactions_of_pairs(pairs: Option<Vec<(String, i32)>>) -> (r: Reactions)
    requires
        pairs matches Some(v) ==> reactions::ascending(v.deep_view()),
    ensures
        r.deep_view() == (match pairs.deep_view() {
            Some(v) => v,
            None => Seq::empty(),
        }),
{
    match pairs {
        Some(v) => Reactions::from_pairs(v),
        None => Reactions::new(),
    }
}

/// Reaction counts as the record kept them; none where it kept something else.
pub fn reactions_from_json(s: &str) -> (r: Reactions)
    ensures
        r.deep_view() == (match counts_of_text(s@) {
            Some(v) => v,
            None => Seq::empty(),
        }),
{
    reactions_of_pairs(read_counts(s))
}

/// What `serde_json` writes for a list of addresses.
pub uninterp spec fn urls_text(urls: Seq<Seq<char>>) -> Seq<char>;

/// What `serde_json` reads as a list of addresses out of a text; nothing where the text is
/// not an array of strings.
pub uninterp spec fn urls_of_text(s: Seq<char>) -> Option<Seq<Seq<char>>>;

/// `serde_json::to_string` of a list of strings: by the list alone. Reading the text gives
/// the list back.
#[verifier::external_body]
fn write_urls(urls: &Vec<String>) -> (r: String)
    ensures
        r@ == urls_text(urls.deep_view()),
        urls_of_text(r@) == Some(urls.deep_view()),
{
    serde_json::to_string(urls).unwrap_or_default()
}

/// `serde_json::from_str` into a list of strings: by the text alone.
#[verifier::external_body]
fn read_urls(s: &str) -> (r: Option<Vec<String>>)
    ensures
        r.deep_view() == urls_of_text(s@),
{
    serde_json::from_str(s).ok()
}

/// The addresses of images as the record keeps them. Reading them gives them back.
pub fn image_urls_to_json(urls: &Vec<String>) -> (s: String)
    ensures
        s@ == urls_text(urls.deep_view()),
        urls_of_text(s@) == Some(urls.deep_view()),
{
    write_urls(urls)
}

/// The addresses that a list stands for, none where there is no list.
pub fn image_urls_of_list(list: Option<Vec<String>>) -> (r: Vec<String>)
    ensures
        r.deep_view() == (match list.deep_view() {
            Some(v) => v,
            None => Seq::empty(),
        }),
{
    match list {
        Some(v) => v,
        None => {
            let none: Vec<String> = Vec::new();
            assert(none.deep_view() =~= Seq::<Seq<char>>::empty());
            none
        },
    }
}

/// The addresses of images as the record kept them; none where it kept something else.
pub fn image_urls_from_json(s: &str) -> (r: Vec<String>)
    ensures
        r.deep_view() == (match urls_of_text(s@) {
            Some(v) => v,
            None => Seq::empty(),
        }),
{
    image_urls_of_list(read_urls(s))
}

/// Before this second, posts are no longer looked at.
pub open spec fn cutoff(now: i64, horizon_hours: u64) -> int {
    now - horizon_hours * 3600
}

/// The cutoff can be computed.
pub open spec fn cutoff_fits(now: i64, horizon_hours: u64) -> bool {
    horizon_hours * 3600 <= i64::MAX && cutoff(now, horizon_hours) >= i64::MIN
}

/// Whether posts can be looked at this far back.
pub fn horizon_fits(now: i64, horizon_hours: u64) -> (r: bool)
    ensures
        r == cutoff_fits(now, horizon_hours),
{
    horizon_hours <= 2_562_047_788_015_215 && now >= i64::MIN + (horizon_hours as i64) * 3600
}

fn compute_cutoff(now: i64, horizon_hours: u64) -> (r: i64)
    requires
        cutoff_fits(now, horizon_hours),
    ensures
        r == cutoff(now, horizon_hours),
{
    now - (horizon_hours as i64) * 3600
}

/// The row that `r` is, of one post in one Discord message.
pub open spec fn has_key(r: RowView, chat_id: i64, tg_msg_id: i32, discord_msg_id: Seq<char>) -> bool {
    r.chat_id == chat_id && r.tg_msg_id == tg_msg_id && r.discord_msg_id == discord_msg_id
}

pub open spec fn same_key(a: RowView, b: RowView) -> bool {
    has_key(a, b.chat_id, b.tg_msg_id, b.discord_msg_id)
}

/// No two rows are of the same post in the same Discord message.
pub open spec fn distinct_rows(rows: Seq<RowView>) -> bool {
    forall|i: int, j: int|
        #![trigger rows[i], rows[j]]
        0 <= i < j < rows.len() ==> !same_key(rows[i], rows[j])
}

/// The row of a message that was just posted.
pub open spec fn new_row(rec: NewRecordView, now: i64) -> RowView {
    RowView {
        chat_id: rec.chat_id,
        tg_msg_id: rec.tg_msg_id,
        route: rec.route,
        webhook_name: rec.webhook_name,
        discord_msg_id: rec.discord_msg_id,
        posted_at: now,
        last_checked: now,
        content_hash: rec.content_hash,
        reactions: rec.reactions,
        comment_count: rec.comment_count,
        deleted: false,
        edited: false,
        latency_ms: rec.latency_ms,
        image_urls: rec.image_urls,
    }
}

/// A row after its message was recorded again: what can have changed since is brought
/// up to date.
pub open spec fn rerecorded(r: RowView, rec: NewRecordView, now: i64) -> RowView {
    RowView {
        content_hash: rec.content_hash,
        reactions: rec.reactions,
        comment_count: rec.comment_count,
        last_checked: now,
        ..r
    }
}

/// The rows that are of a message.
pub open spec fn is_recorded(rows: Seq<RowView>, rec: NewRecordView) -> bool {
    exists|i: int|
        0 <= i < rows.len() && has_key(
            #[trigger] rows[i],
            rec.chat_id,
            rec.tg_msg_id,
            rec.discord_msg_id,
        )
}

/// The rows after a message was recorded.
pub open spec fn recorded(rows: Seq<RowView>, rec: NewRecordView, now: i64) -> Seq<RowView> {
    if is_recorded(rows, rec) {
        rows.map_values(
            |r: RowView|
                if has_key(r, rec.chat_id, rec.tg_msg_id, rec.discord_msg_id) {
                    rerecorded(r, rec, now)
                } else {
                    r
                },
        )
    } else {
        rows.push(new_row(rec, now))
    }
}

/// A post went to a webhook.
pub open spec fn relayed(rows: Seq<RowView>, chat_id: i64, tg_msg_id: i32, webhook: Seq<char>) -> bool {
    exists|i: int|
        0 <= i < rows.len() && (#[trigger] rows[i]).chat_id == chat_id && rows[i].tg_msg_id
            == tg_msg_id && rows[i].webhook_name == webhook
}

/// The source of a row is still looked at.
pub open spec fn is_due(r: RowView, cut: int) -> bool {
    !r.deleted && r.posted_at >= cut
}

/// `a` comes before `b` or with it, by chat and message.
pub open spec fn not_after(a: RowView, b: RowView) -> bool {
    a.chat_id < b.chat_id || (a.chat_id == b.chat_id && a.tg_msg_id <= b.tg_msg_id)
}

/// `x` put behind all rows that do not come after it.
pub open spec fn place_row(sorted: Seq<RowView>, x: RowView) -> Seq<RowView>
    decreases sorted.len(),
{
    if sorted.len() > 0 && !not_after(sorted.last(), x) {
        place_row(sorted.drop_last(), x).push(sorted.last())
    } else {
        sorted.push(x)
    }
}

/// The rows whose sources are still looked at, by chat and message.
pub open spec fn due_rows(rows: Seq<RowView>, cut: int) -> Seq<RowView>
    decreases rows.len(),
{
    if rows.len() == 0 {
        Seq::empty()
    } else if is_due(rows.last(), cut) {
        place_row(due_rows(rows.drop_last(), cut), rows.last())
    } else {
        due_rows(rows.drop_last(), cut)
    }
}

/// The messages whose sources are still looked at, by chat and message.
pub open spec fn due_of(rows: Seq<RowView>, cut: int) -> Seq<TrackedMsgView> {
    due_rows(rows, cut).map_values(|r: RowView| message_of(r))
}

/// The rows after the figures of one message were brought up to date.
pub open spec fn updated(
    rows: Seq<RowView>,
    chat_id: i64,
    tg_msg_id: i32,
    discord_msg_id: Seq<char>,
    content_hash: Seq<char>,
    reactions: Seq<(Seq<char>, i32)>,
    comment_count: i32,
    now: i64,
) -> Seq<RowView> {
    rows.map_values(
        |r: RowView|
            if has_key(r, chat_id, tg_msg_id, discord_msg_id) {
                RowView { content_hash, reactions, comment_count, last_checked: now, ..r }
            } else {
                r
            },
    )
}

/// The rows after one message was looked at and had not changed.
pub open spec fn touched(
    rows: Seq<RowView>,
    chat_id: i64,
    tg_msg_id: i32,
    discord_msg_id: Seq<char>,
    now: i64,
) -> Seq<RowView> {
    rows.map_values(
        |r: RowView|
            if has_key(r, chat_id, tg_msg_id, discord_msg_id) {
                RowView { last_checked: now, ..r }
            } else {
                r
            },
    )
}

/// The rows after a post turned out to be edited.
pub open spec fn with_edited(rows: Seq<RowView>, chat_id: i64, tg_msg_id: i32) -> Seq<RowView> {
    rows.map_values(
        |r: RowView|
            if r.chat_id == chat_id && r.tg_msg_id == tg_msg_id {
                RowView { edited: true, ..r }
            } else {
                r
            },
    )
}

/// The rows after a post turned out to be deleted.
pub open spec fn with_deleted(rows: Seq<RowView>, chat_id: i64, tg_msg_id: i32, now: i64) -> Seq<
    RowView,
> {
    rows.map_values(
        |r: RowView|
            if r.chat_id == chat_id && r.tg_msg_id == tg_msg_id {
                RowView { deleted: true, last_checked: now, ..r }
            } else {
                r
            },
    )
}

/// The rows that are not too old.
pub open spec fn pruned(rows: Seq<RowView>, cut: int) -> Seq<RowView>
    decreases rows.len(),
{
    if rows.len() == 0 {
        Seq::empty()
    } else if rows.last().posted_at >= cut {
        pruned(rows.drop_last(), cut).push(rows.last())
    } else {
        pruned(rows.drop_last(), cut)
    }
}

/// The posts that the rows are of.
pub open spec fn posts_of(rows: Seq<RowView>) -> Seq<(i64, i32)> {
    rows.map_values(|r: RowView| (r.chat_id, r.tg_msg_id))
}

/// How many rows are marked as deleted.
pub open spec fn deleted_count(rows: Seq<RowView>) -> nat
    decreases rows.len(),
{
    if rows.len() == 0 {
        0
    } else {
        deleted_count(rows.drop_last()) + (if rows.last().deleted {
            1nat
        } else {
            0nat
        })
    }
}

/// The latencies that were measured.
pub open spec fn latencies(rows: Seq<RowView>) -> Seq<i64>
    decreases rows.len(),
{
    if rows.len() == 0 {
        Seq::empty()
    } else {
        match rows.last().latency_ms {
            Some(ms) => latencies(rows.drop_last()).push(ms),
            None => latencies(rows.drop_last()),
        }
    }
}

/// The record of relayed messages, and of the identities that webhooks were given.
pub struct Store {
    rows: Vec<Row>,
    identities: NameMap<String>,
}

fn copy_texts(v: &Vec<String>) -> (r: Vec<String>)
    ensures
        r.deep_view() == v.deep_view(),
{
    let r: Vec<String> = v.clone();
    assert(r.deep_view() =~= v.deep_view());
    r
}

fn tracked_of(r: &Row) -> (t: TrackedMsg)
    ensures
        t.deep_view() == message_of(r.deep_view()),
{
    TrackedMsg {
        chat_id: r.chat_id,
        tg_msg_id: r.tg_msg_id,
        route: r.route.clone(),
        webhook_name: r.webhook_name.clone(),
        discord_msg_id: r.discord_msg_id.clone(),
        content_hash: r.content_hash.clone(),
        reactions: r.reactions.clone(),
        comment_count: r.comment_count,
        posted_at: r.posted_at,
        last_checked: r.last_checked,
        edited: r.edited,
        image_urls: copy_texts(&r.image_urls),
    }
}

fn row_has_key(r: &Row, chat_id: i64, tg_msg_id: i32, discord_msg_id: &str) -> (b: bool)
    ensures
        b == has_key(r.deep_view(), chat_id, tg_msg_id, discord_msg_id@),
{
    r.chat_id == chat_id && r.tg_msg_id == tg_msg_id && text::same_text(
        r.discord_msg_id.as_str(),
        discord_msg_id,
    )
}

proof fn lemma_place_row_at(sorted: Seq<RowView>, x: RowView, at: int)
    requires
        0 <= at <= sorted.len(),
        at == 0 || not_after(sorted[at - 1], x),
        forall|j: int| at <= j < sorted.len() ==> !not_after(#[trigger] sorted[j], x),
    ensures
        place_row(sorted, x) == sorted.insert(at, x),
    decreases sorted.len(),
{
    if at < sorted.len() {
        let init = sorted.drop_last();
        assert(!not_after(sorted[sorted.len() - 1], x));
        lemma_place_row_at(init, x, at);
        assert(place_row(sorted, x) =~= sorted.insert(at, x));
    } else {
        assert(place_row(sorted, x) =~= sorted.insert(at, x));
    }
}

impl Store {
    /// The rows, in the order in which they were made.
    pub closed spec fn rows(self) -> Seq<RowView> {
        self.rows.deep_view()
    }

    /// The identity that each webhook was last given.
    pub closed spec fn identities(self) -> Map<Seq<char>, Seq<char>> {
        self.identities@.map_values(|s: String| s@)
    }

    /// An empty record.
    pub fn new() -> (r: Self)
        ensures
            r.rows() == Seq::<RowView>::empty(),
            r.identities() == Map::<Seq<char>, Seq<char>>::empty(),
    {
        let r: Store = Store { rows: Vec::new(), identities: NameMap::new() };
        assert(r.rows() =~= Seq::<RowView>::empty());
        assert(r.identities() =~= Map::<Seq<char>, Seq<char>>::empty());
        r
    }

    /// A record with rows that were kept elsewhere.
    pub fn with_rows(rows: Vec<Row>) -> (r: Self)
        ensures
            r.rows() == rows.deep_view(),
            r.identities() == Map::<Seq<char>, Seq<char>>::empty(),
    {
        let r: Store = Store { rows, identities: NameMap::new() };
        assert(r.identities() =~= Map::<Seq<char>, Seq<char>>::empty());
        r
    }

    /// The rows, to be kept elsewhere.
    pub fn all_rows(&self) -> (r: &Vec<Row>)
        ensures
            r.deep_view() == self.rows(),
    {
        &self.rows
    }

    /// Record a message that was just posted. Recording it again brings the row up to
    /// date.
    pub fn record(&mut self, rec: NewRecord, now: i64)
        ensures
            final(self).rows() == recorded(old(self).rows(), rec.deep_view(), now),
            final(self).identities() == old(self).identities(),
    {
        let ghost before = self.rows.deep_view();
        let ghost rv = rec.deep_view();
        let ghost step = |r: RowView|
            if has_key(r, rv.chat_id, rv.tg_msg_id, rv.discord_msg_id) {
                rerecorded(r, rv, now)
            } else {
                r
            };
        let ghost want = before.map_values(step);
        let mut known: bool = false;
        let mut i: usize = 0;
        while i < self.rows.len()
            invariant
                rv == rec.deep_view(),
                want == before.map_values(step),
                step == |r: RowView|
                    if has_key(r, rv.chat_id, rv.tg_msg_id, rv.discord_msg_id) {
                        rerecorded(r, rv, now)
                    } else {
                        r
                    },
                self.rows@.len() == before.len(),
                i <= before.len(),
                forall|j: int| 0 <= j < i ==> (#[trigger] self.rows@[j]).deep_view() == want[j],
                forall|j: int|
                    i <= j < before.len() ==> (#[trigger] self.rows@[j]).deep_view() == before[j],
                known <==> exists|j: int|
                    0 <= j < i && has_key(
                        #[trigger] before[j],
                        rv.chat_id,
                        rv.tg_msg_id,
                        rv.discord_msg_id,
                    ),
                self.identities == old(self).identities,
            decreases before.len() - i,
        {
            let ghost rows = self.rows@;
            if row_has_key(&self.rows[i], rec.chat_id, rec.tg_msg_id, rec.discord_msg_id.as_str()) {
                known = true;
                assert(has_key(
                    before[i as int],
                    rv.chat_id,
                    rv.tg_msg_id,
                    rv.discord_msg_id,
                ));
                let mut r: Row = self.rows.remove(i);
                r.content_hash = rec.content_hash.clone();
                r.reactions = rec.reactions.clone();
                r.comment_count = rec.comment_count;
                r.last_checked = now;
                assert(r.deep_view() =~= want[i as int]);
                self.rows.insert(i, r);
                assert(self.rows@ =~= rows.update(i as int, r));
            }
            i = i + 1;
        }
        assert(self.rows.deep_view() =~= want);
        if !known {
            assert(!is_recorded(before, rv));
            assert(want =~= before) by {
                assert forall|j: int| 0 <= j < before.len() implies #[trigger] want[j] == before[j] by {
                    assert(!has_key(before[j], rv.chat_id, rv.tg_msg_id, rv.discord_msg_id));
                }
            }
            let row: Row = Row {
                chat_id: rec.chat_id,
                tg_msg_id: rec.tg_msg_id,
                route: rec.route,
                webhook_name: rec.webhook_name,
                discord_msg_id: rec.discord_msg_id,
                posted_at: now,
                last_checked: now,
                content_hash: rec.content_hash,
                reactions: rec.reactions,
                comment_count: rec.comment_count,
                deleted: false,
                edited: false,
                latency_ms: rec.latency_ms,
                image_urls: rec.image_urls,
            };
            assert(row.deep_view() =~= new_row(rv, now));
            self.rows.push(row);
            assert(self.rows.deep_view() =~= before.push(new_row(rv, now)));
        } else {
            assert(is_recorded(before, rv));
        }
    }

    /// Whether a post already went to a webhook.
    pub fn already_relayed(&self, chat_id: i64, tg_msg_id: i32, webhook_name: &str) -> (r: bool)
        ensures
            r == relayed(self.rows(), chat_id, tg_msg_id, webhook_name@),
    {
        let ghost rows = self.rows.deep_view();
        let mut i: usize = 0;
        while i < self.rows.len()
            invariant
                rows == self.rows.deep_view(),
                i <= rows.len(),
                forall|j: int|
                    0 <= j < i ==> !((#[trigger] rows[j]).chat_id == chat_id && rows[j].tg_msg_id
                        == tg_msg_id && rows[j].webhook_name == webhook_name@),
            decreases rows.len() - i,
        {
            assert(rows[i as int] == self.rows@[i as int].deep_view());
            if self.rows[i].chat_id == chat_id && self.rows[i].tg_msg_id == tg_msg_id
                && text::same_text(self.rows[i].webhook_name.as_str(), webhook_name) {
                return true;
            }
            i = i + 1;
        }
        false
    }

    /// The messages whose sources are still looked at: those posted within the last
    /// `horizon_hours` that are not marked as deleted, by chat and message.
    pub fn due(&self, horizon_hours: u64, now: i64) -> (r: Vec<TrackedMsg>)
        requires
            cutoff_fits(now, horizon_hours),
        ensures
            r.deep_view() == due_of(self.rows(), cutoff(now, horizon_hours)),
    {
        let cut: i64 = compute_cutoff(now, horizon_hours);
        let ghost rows = self.rows.deep_view();
        let mut out: Vec<TrackedMsg> = Vec::new();
        let ghost mut placed: Seq<RowView> = Seq::empty();
        let mut i: usize = 0;
        assert(rows.take(0) =~= Seq::<RowView>::empty());
        while i < self.rows.len()
            invariant
                rows == self.rows.deep_view(),
                i <= rows.len(),
                placed == due_rows(rows.take(i as int), cut as int),
                out@.len() == placed.len(),
                forall|j: int|
                    0 <= j < placed.len() ==> (#[trigger] out@[j]).deep_view() == message_of(placed[j]),
            decreases rows.len() - i,
        {
            let ghost x = rows[i as int];
            assert(x == self.rows@[i as int].deep_view());
            assert(rows.take(i + 1).drop_last() =~= rows.take(i as int));
            assert(rows.take(i + 1).last() == x);
            if !self.rows[i].deleted && self.rows[i].posted_at >= cut {
                let chat: i64 = self.rows[i].chat_id;
                let tg: i32 = self.rows[i].tg_msg_id;
                let mut at: usize = out.len();
                while at > 0 && !(out[at - 1].chat_id < chat || (out[at - 1].chat_id == chat && out[at
                    - 1].tg_msg_id <= tg))
                    invariant
                        at <= out@.len(),
                        out@.len() == placed.len(),
                        chat == x.chat_id,
                        tg == x.tg_msg_id,
                        forall|j: int|
                            0 <= j < placed.len() ==> (#[trigger] out@[j]).deep_view() == message_of(
                                placed[j],
                            ),
                        forall|j: int|
                            at <= j < placed.len() ==> !not_after(#[trigger] placed[j], x),
                    decreases at,
                {
                    assert(out@[at - 1].deep_view() == message_of(placed[at - 1]));
                    at = at - 1;
                }
                let ghost had = out@;
                proof {
                    if at > 0 {
                        assert(out@[at - 1].deep_view() == message_of(placed[at - 1]));
                    }
                    lemma_place_row_at(placed, x, at as int);
                }
                let t: TrackedMsg = tracked_of(&self.rows[i]);
                out.insert(at, t);
                proof {
                    let next = placed.insert(at as int, x);
                    assert forall|j: int| 0 <= j < next.len() implies (#[trigger] out@[j]).deep_view()
                        == message_of(next[j]) by {
                        if j < at {
                            assert(out@[j] == had[j]);
                        } else if j > at {
                            assert(out@[j] == had[j - 1]);
                        }
                    }
                    placed = next;
                }
            }
            i = i + 1;
        }
        assert(rows.take(rows.len() as int) =~= rows);
        assert(out.deep_view() =~= due_of(rows, cut as int));
        out
    }

    /// Bring the figures of one message up to date.
    pub fn update_stats(
        &mut self,
        chat_id: i64,
        tg_msg_id: i32,
        discord_msg_id: &str,
        content_hash: &str,
        reactions: &Reactions,
        comment_count: i32,
        now: i64,
    )
        ensures
            final(self).rows() == updated(
                old(self).rows(),
                chat_id,
                tg_msg_id,
                discord_msg_id@,
                content_hash@,
                reactions.deep_view(),
                comment_count,
                now,
            ),
            final(self).identities() == old(self).identities(),
    {
        let ghost before = self.rows.deep_view();
        let ghost want = updated(
            before,
            chat_id,
            tg_msg_id,
            discord_msg_id@,
            content_hash@,
            reactions.deep_view(),
            comment_count,
            now,
        );
        let mut i: usize = 0;
        while i < self.rows.len()
            invariant
                want == updated(
                    before,
                    chat_id,
                    tg_msg_id,
                    discord_msg_id@,
                    content_hash@,
                    reactions.deep_view(),
                    comment_count,
                    now,
                ),
                self.rows@.len() == before.len(),
                i <= before.len(),
                forall|j: int| 0 <= j < i ==> (#[trigger] self.rows@[j]).deep_view() == want[j],
                forall|j: int|
                    i <= j < before.len() ==> (#[trigger] self.rows@[j]).deep_view() == before[j],
                self.identities == old(self).identities,
            decreases before.len() - i,
        {
            let ghost rows = self.rows@;
            if row_has_key(&self.rows[i], chat_id, tg_msg_id, discord_msg_id) {
                let mut r: Row = self.rows.remove(i);
                r.content_hash = content_hash.to_owned();
                r.reactions = reactions.clone();
                r.comment_count = comment_count;
                r.last_checked = now;
                assert(r.deep_view() =~= want[i as int]);
                self.rows.insert(i, r);
                assert(self.rows@ =~= rows.update(i as int, r));
            }
            i = i + 1;
        }
        assert(self.rows.deep_view() =~= want);
    }

    /// Note that one message was looked at and had not changed.
    pub fn touch_checked(&mut self, chat_id: i64, tg_msg_id: i32, discord_msg_id: &str, now: i64)
        ensures
            final(self).rows() == touched(
                old(self).rows(),
                chat_id,
                tg_msg_id,
                discord_msg_id@,
                now,
            ),
            final(self).identities() == old(self).identities(),
    {
        let ghost before = self.rows.deep_view();
        let ghost want = touched(before, chat_id, tg_msg_id, discord_msg_id@, now);
        let mut i: usize = 0;
        while i < self.rows.len()
            invariant
                want == touched(before, chat_id, tg_msg_id, discord_msg_id@, now),
                self.rows@.len() == before.len(),
                i <= before.len(),
                forall|j: int| 0 <= j < i ==> (#[trigger] self.rows@[j]).deep_view() == want[j],
                forall|j: int|
                    i <= j < before.len() ==> (#[trigger] self.rows@[j]).deep_view() == before[j],
                self.identities == old(self).identities,
            decreases before.len() - i,
        {
            let ghost rows = self.rows@;
            if row_has_key(&self.rows[i], chat_id, tg_msg_id, discord_msg_id) {
                let mut r: Row = self.rows.remove(i);
                r.last_checked = now;
                assert(r.deep_view() =~= want[i as int]);
                self.rows.insert(i, r);
                assert(self.rows@ =~= rows.update(i as int, r));
            }
            i = i + 1;
        }
        assert(self.rows.deep_view() =~= want);
    }

    /// Mark a post as edited, in all the messages that it became.
    pub fn mark_edited(&mut self, chat_id: i64, tg_msg_id: i32)
        ensures
            final(self).rows() == with_edited(old(self).rows(), chat_id, tg_msg_id),
            final(self).identities() == old(self).identities(),
    {
        let ghost before = self.rows.deep_view();
        let ghost want = with_edited(before, chat_id, tg_msg_id);
        let mut i: usize = 0;
        while i < self.rows.len()
            invariant
                want == with_edited(before, chat_id, tg_msg_id),
                self.rows@.len() == before.len(),
                i <= before.len(),
                forall|j: int| 0 <= j < i ==> (#[trigger] self.rows@[j]).deep_view() == want[j],
                forall|j: int|
                    i <= j < before.len() ==> (#[trigger] self.rows@[j]).deep_view() == before[j],
                self.identities == old(self).identities,
            decreases before.len() - i,
        {
            let ghost rows = self.rows@;
            if self.rows[i].chat_id == chat_id && self.rows[i].tg_msg_id == tg_msg_id {
                let mut r: Row = self.rows.remove(i);
                r.edited = true;
                assert(r.deep_view() =~= want[i as int]);
                self.rows.insert(i, r);
                assert(self.rows@ =~= rows.update(i as int, r));
            }
            i = i + 1;
        }
        assert(self.rows.deep_view() =~= want);
    }

    /// Mark a post as deleted, in all the messages that it became.
    pub fn mark_deleted(&mut self, chat_id: i64, tg_msg_id: i32, now: i64)
        ensures
            final(self).rows() == with_deleted(old(self).rows(), chat_id, tg_msg_id, now),
            final(self).identities() == old(self).identities(),
    {
        let ghost before = self.rows.deep_view();
        let ghost want = with_deleted(before, chat_id, tg_msg_id, now);
        let mut i: usize = 0;
        while i < self.rows.len()
            invariant
                want == with_deleted(before, chat_id, tg_msg_id, now),
                self.rows@.len() == before.len(),
                i <= before.len(),
                forall|j: int| 0 <= j < i ==> (#[trigger] self.rows@[j]).deep_view() == want[j],
                forall|j: int|
                    i <= j < before.len() ==> (#[trigger] self.rows@[j]).deep_view() == before[j],
                self.identities == old(self).identities,
            decreases before.len() - i,
        {
            let ghost rows = self.rows@;
            if self.rows[i].chat_id == chat_id && self.rows[i].tg_msg_id == tg_msg_id {
                let mut r: Row = self.rows.remove(i);
                r.deleted = true;
                r.last_checked = now;
                assert(r.deep_view() =~= want[i as int]);
                self.rows.insert(i, r);
                assert(self.rows@ =~= rows.update(i as int, r));
            }
            i = i + 1;
        }
        assert(self.rows.deep_view() =~= want);
    }

    /// Drop the rows that are older than `horizon_hours`. How many were dropped.
    pub fn prune(&mut self, horizon_hours: u64, now: i64) -> (r: usize)
        requires
            cutoff_fits(now, horizon_hours),
        ensures
            final(self).rows() == pruned(old(self).rows(), cutoff(now, horizon_hours)),
            r == old(self).rows().len() - final(self).rows().len(),
            final(self).identities() == old(self).identities(),
    {
        let cut: i64 = compute_cutoff(now, horizon_hours);
        let ghost before = self.rows.deep_view();
        let total: usize = self.rows.len();
        let mut dropped: usize = 0;
        let mut i: usize = 0;
        let ghost mut n: int = 0;
        assert(before.take(0) =~= Seq::<RowView>::empty());
        assert(pruned(before.take(0), cut as int) + before.skip(0) =~= before);
        while i < self.rows.len()
            invariant
                before == old(self).rows(),
                total == before.len(),
                0 <= n <= before.len(),
                dropped + i == n,
                self.rows.deep_view() == pruned(before.take(n), cut as int) + before.skip(n),
                pruned(before.take(n), cut as int).len() == i,
                self.identities == old(self).identities,
            decreases before.len() - n,
        {
            let ghost now_rows = self.rows.deep_view();
            assert(now_rows.len() == self.rows@.len());
            assert(now_rows[i as int] == self.rows@[i as int].deep_view());
            assert(now_rows[i as int] == before[n]);
            assert(before.take(n + 1).drop_last() =~= before.take(n));
            assert(before.take(n + 1).last() == before[n]);
            if self.rows[i].posted_at < cut {
                self.rows.remove(i);
                assert(self.rows.deep_view() =~= now_rows.remove(i as int));
                assert(self.rows.deep_view() =~= pruned(before.take(n + 1), cut as int)
                    + before.skip(n + 1));
                dropped = dropped + 1;
            } else {
                assert(self.rows.deep_view() =~= pruned(before.take(n + 1), cut as int)
                    + before.skip(n + 1));
                i = i + 1;
            }
            proof {
                n = n + 1;
            }
        }
        assert(self.rows.deep_view().len() == self.rows@.len());
        assert(before.take(n) =~= before);
        assert(self.rows.deep_view() =~= pruned(before, cut as int));
        dropped
    }

    /// The identity that a webhook was last given.
    pub fn webhook_identity_hash(&self, webhook_name: &str) -> (r: Option<String>)
        ensures
            r.deep_view() == (if self.identities().dom().contains(webhook_name@) {
                Some(self.identities()[webhook_name@])
            } else {
                None
            }),
    {
        match self.identities.get(webhook_name) {
            Some(h) => Some(h.clone()),
            None => None,
        }
    }

    /// Note the identity that a webhook was given.
    pub fn set_webhook_identity_hash(&mut self, webhook_name: &str, identity_hash: &str)
        ensures
            final(self).identities() == old(self).identities().insert(
                webhook_name@,
                identity_hash@,
            ),
            final(self).rows() == old(self).rows(),
    {
        let ghost before = self.identities@;
        self.identities.insert(webhook_name.to_owned(), identity_hash.to_owned());
        assert(self.identities() =~= before.map_values(|s: String| s@).insert(
            webhook_name@,
            identity_hash@,
        ));
    }

    /// The record in figures.
    pub fn stats(&self) -> (r: StoreStats)
        ensures
            r.tracked_posts == posts_of(self.rows()).to_set().len(),
            r.deleted == deleted_count(self.rows()),
            r.latency == latency_of(latencies(self.rows())),
    {
        let ghost rows = self.rows.deep_view();
        let ghost posts = posts_of(rows);
        let mut seen: Vec<(i64, i32)> = Vec::new();
        let mut deleted: usize = 0;
        let mut values: Vec<i64> = Vec::new();
        let mut i: usize = 0;
        assert(rows.take(0) =~= Seq::<RowView>::empty());
        assert(values@ =~= Seq::<i64>::empty());
        while i < self.rows.len()
            invariant
                rows == self.rows.deep_view(),
                posts == posts_of(rows),
                i <= rows.len(),
                seen@.no_duplicates(),
                forall|p: (i64, i32)|
                    #[trigger] seen@.contains(p) <==> posts.take(i as int).contains(p),
                deleted == deleted_count(rows.take(i as int)),
                deleted <= i,
                values@ == latencies(rows.take(i as int)),
            decreases rows.len() - i,
        {
            let ghost x = rows[i as int];
            assert(x == self.rows@[i as int].deep_view());
            assert(rows.take(i + 1).drop_last() =~= rows.take(i as int));
            assert(rows.take(i + 1).last() == x);
            let post: (i64, i32) = (self.rows[i].chat_id, self.rows[i].tg_msg_id);
            let ghost had = seen@;
            let mut k: usize = 0;
            let mut known: bool = false;
            while k < seen.len()
                invariant
                    k <= seen@.len(),
                    known <==> exists|j: int| 0 <= j < k && #[trigger] seen@[j] == post,
                decreases seen@.len() - k,
            {
                if seen[k].0 == post.0 && seen[k].1 == post.1 {
                    known = true;
                    assert(seen@[k as int] == post);
                }
                k = k + 1;
            }
            if !known {
                seen.push(post);
            }
            proof {
                let next = posts.take(i + 1);
                assert(next =~= posts.take(i as int).push(post));
                assert(known <==> had.contains(post));
                assert forall|p: (i64, i32)| #[trigger] seen@.contains(p) <==> next.contains(p) by {
                    assert(had.contains(p) <==> posts.take(i as int).contains(p));
                    if next.contains(p) {
                        let j = choose|j: int| 0 <= j < next.len() && next[j] == p;
                        if j < i {
                            assert(posts.take(i as int)[j] == p);
                        }
                    }
                    if posts.take(i as int).contains(p) {
                        let j = choose|j: int|
                            0 <= j < posts.take(i as int).len() && posts.take(i as int)[j] == p;
                        assert(next[j] == p);
                    }
                    assert(next[i as int] == post);
                    if had.contains(p) {
                        let j = choose|j: int| 0 <= j < had.len() && had[j] == p;
                        assert(seen@[j] == p);
                    }
                    if !known {
                        assert(seen@[had.len() as int] == post);
                    }
                    if seen@.contains(p) && p != post {
                        let j = choose|j: int| 0 <= j < seen@.len() && seen@[j] == p;
                        assert(had[j] == p);
                    }
                }
                if !known {
                    assert forall|a: int, b: int|
                        0 <= a < seen@.len() && 0 <= b < seen@.len() && a != b implies seen@[a]
                        != seen@[b] by {
                        if a == had.len() {
                            assert(had.contains(had[b]));
                        } else if b == had.len() {
                            assert(had.contains(had[a]));
                        }
                    }
                }
            }
            if self.rows[i].deleted {
                deleted = deleted + 1;
            }
            match self.rows[i].latency_ms {
                Some(ms) => {
                    values.push(ms);
                },
                None => {},
            }
            i = i + 1;
        }
        proof {
            assert(rows.take(rows.len() as int) =~= rows);
            assert(posts.take(posts.len() as int) =~= posts);
            assert(seen@.to_set() =~= posts.to_set());
            seen@.unique_seq_to_set();
        }
        StoreStats { tracked_posts: seen.len(), deleted, latency: latency_stats(&values) }
    }

    /// How many rows there are.
    pub fn count(&self) -> (r: usize)
        ensures
            r == self.rows().len(),
    {
        self.rows.len()
    }
}

/// Recording a message once more makes no new row.
pub proof fn lemma_record_idempotent(
    rows: Seq<RowView>,
    a: NewRecordView,
    b: NewRecordView,
    t: i64,
    u: i64,
)
    requires
        a.chat_id == b.chat_id,
        a.tg_msg_id == b.tg_msg_id,
        a.discord_msg_id == b.discord_msg_id,
    ensures
        recorded(recorded(rows, a, t), b, u).len() == recorded(rows, a, t).len(),
        recorded(recorded(rows, a, t), a, t) == recorded(rows, a, t),
{
    let once = recorded(rows, a, t);
    if is_recorded(rows, a) {
        let i = choose|i: int|
            0 <= i < rows.len() && has_key(
                #[trigger] rows[i],
                a.chat_id,
                a.tg_msg_id,
                a.discord_msg_id,
            );
        assert(has_key(once[i], a.chat_id, a.tg_msg_id, a.discord_msg_id));
    } else {
        assert(has_key(once[rows.len() as int], a.chat_id, a.tg_msg_id, a.discord_msg_id));
        assert forall|j: int| 0 <= j < rows.len() implies !has_key(
            #[trigger] once[j],
            a.chat_id,
            a.tg_msg_id,
            a.discord_msg_id,
        ) by {
            assert(once[j] == rows[j]);
        }
    }
    assert(is_recorded(once, a));
    assert(is_recorded(once, b));
    assert(recorded(once, a, t) =~= once);
}

/// No operation makes two rows for one message.
pub proof fn lemma_rows_stay_distinct(
    rows: Seq<RowView>,
    rec: NewRecordView,
    chat_id: i64,
    tg_msg_id: i32,
    discord_msg_id: Seq<char>,
    hash: Seq<char>,
    reactions: Seq<(Seq<char>, i32)>,
    comments: i32,
    now: i64,
    cut: int,
)
    requires
        distinct_rows(rows),
    ensures
        distinct_rows(recorded(rows, rec, now)),
        distinct_rows(
            updated(rows, chat_id, tg_msg_id, discord_msg_id, hash, reactions, comments, now),
        ),
        distinct_rows(touched(rows, chat_id, tg_msg_id, discord_msg_id, now)),
        distinct_rows(with_edited(rows, chat_id, tg_msg_id)),
        distinct_rows(with_deleted(rows, chat_id, tg_msg_id, now)),
        distinct_rows(pruned(rows, cut)),
{
    lemma_keys_kept(rows, recorded(rows, rec, now).take(rows.len() as int));
    let q = recorded(rows, rec, now);
    assert forall|i: int, j: int|
        #![trigger q[i], q[j]]
        0 <= i < j < q.len() implies !same_key(q[i], q[j]) by {
        assert(q[i] == q.take(rows.len() as int)[i]);
        if j < rows.len() {
            assert(q[j] == q.take(rows.len() as int)[j]);
        } else {
            assert(!has_key(rows[i], rec.chat_id, rec.tg_msg_id, rec.discord_msg_id));
        }
    }
    lemma_keys_kept(
        rows,
        updated(rows, chat_id, tg_msg_id, discord_msg_id, hash, reactions, comments, now),
    );
    lemma_keys_kept(rows, touched(rows, chat_id, tg_msg_id, discord_msg_id, now));
    lemma_keys_kept(rows, with_edited(rows, chat_id, tg_msg_id));
    lemma_keys_kept(rows, with_deleted(rows, chat_id, tg_msg_id, now));
    lemma_pruned_distinct(rows, cut);
}

proof fn lemma_keys_kept(rows: Seq<RowView>, after: Seq<RowView>)
    requires
        distinct_rows(rows),
        rows.len() == after.len(),
        forall|i: int| 0 <= i < rows.len() ==> same_key(#[trigger] after[i], rows[i]),
    ensures
        distinct_rows(after),
{
    assert forall|i: int, j: int|
        #![trigger after[i], after[j]]
        0 <= i < j < after.len() implies !same_key(after[i], after[j]) by {
        assert(!same_key(rows[i], rows[j]));
    }
}

proof fn lemma_pruned_from(rows: Seq<RowView>, cut: int, r: RowView)
    ensures
        pruned(rows, cut).contains(r) <==> rows.contains(r) && r.posted_at >= cut,
        pruned(rows, cut).len() <= rows.len(),
    decreases rows.len(),
{
    if rows.len() > 0 {
        let init = rows.drop_last();
        lemma_pruned_from(init, cut, r);
        let p = pruned(init, cut);
        assert(rows[rows.len() - 1] == rows.last());
        if rows.contains(r) {
            let i = choose|i: int| 0 <= i < rows.len() && rows[i] == r;
            if i < init.len() {
                assert(init[i] == r);
            }
        }
        if init.contains(r) {
            let i = choose|i: int| 0 <= i < init.len() && init[i] == r;
            assert(rows[i] == r);
        }
        if rows.last().posted_at >= cut {
            let q = p.push(rows.last());
            assert(q[p.len() as int] == rows.last());
            if p.contains(r) {
                let i = choose|i: int| 0 <= i < p.len() && p[i] == r;
                assert(q[i] == r);
            }
            if q.contains(r) {
                let i = choose|i: int| 0 <= i < q.len() && q[i] == r;
                if i < p.len() {
                    assert(p[i] == r);
                }
            }
        }
    }
}

proof fn lemma_pruned_distinct(rows: Seq<RowView>, cut: int)
    requires
        distinct_rows(rows),
    ensures
        distinct_rows(pruned(rows, cut)),
    decreases rows.len(),
{
    if rows.len() > 0 {
        let init = rows.drop_last();
        assert(distinct_rows(init)) by {
            assert forall|i: int, j: int|
                #![trigger init[i], init[j]]
                0 <= i < j < init.len() implies !same_key(init[i], init[j]) by {
                assert(!same_key(rows[i], rows[j]));
            }
        }
        lemma_pruned_distinct(init, cut);
        let p = pruned(init, cut);
        if rows.last().posted_at >= cut {
            let q = p.push(rows.last());
            assert forall|i: int, j: int|
                #![trigger q[i], q[j]]
                0 <= i < j < q.len() implies !same_key(q[i], q[j]) by {
                if j < p.len() {
                    assert(!same_key(p[i], p[j]));
                } else {
                    assert(p.contains(p[i]));
                    lemma_pruned_from(init, cut, p[i]);
                    let k = choose|k: int| 0 <= k < init.len() && init[k] == p[i];
                    assert(!same_key(rows[k], rows[rows.len() - 1]));
                }
            }
        }
    }
}

/// A post that was recorded counts as relayed to its webhook, and to no other webhook
/// than before.
pub proof fn lemma_recorded_is_relayed(
    rows: Seq<RowView>,
    rec: NewRecordView,
    now: i64,
    chat_id: i64,
    tg_msg_id: i32,
    webhook: Seq<char>,
)
    requires
        !is_recorded(rows, rec),
    ensures
        relayed(recorded(rows, rec, now), chat_id, tg_msg_id, webhook) <==> relayed(
            rows,
            chat_id,
            tg_msg_id,
            webhook,
        ) || (chat_id == rec.chat_id && tg_msg_id == rec.tg_msg_id && webhook == rec.webhook_name),
{
    let q = recorded(rows, rec, now);
    let n = rows.len() as int;
    assert(q[n] == new_row(rec, now));
    if relayed(rows, chat_id, tg_msg_id, webhook) {
        let i = choose|i: int|
            0 <= i < rows.len() && (#[trigger] rows[i]).chat_id == chat_id && rows[i].tg_msg_id
                == tg_msg_id && rows[i].webhook_name == webhook;
        assert(q[i] == rows[i]);
    }
    if relayed(q, chat_id, tg_msg_id, webhook) {
        let i = choose|i: int|
            0 <= i < q.len() && (#[trigger] q[i]).chat_id == chat_id && q[i].tg_msg_id == tg_msg_id
                && q[i].webhook_name == webhook;
        if i < n {
            assert(rows[i].chat_id == chat_id);
        }
    }
}

/// Once relayed, a post stays so: nothing but age makes a row go.
pub proof fn lemma_relayed_stays(
    rows: Seq<RowView>,
    after: Seq<RowView>,
    chat_id: i64,
    tg_msg_id: i32,
    webhook: Seq<char>,
)
    requires
        relayed(rows, chat_id, tg_msg_id, webhook),
        (exists|rec: NewRecordView, now: i64| after == #[trigger] recorded(rows, rec, now)) || (
        exists|c: i64, t: i32, d: Seq<char>, h: Seq<char>, r: Seq<(Seq<char>, i32)>, n: i32, now: i64|
            after == #[trigger] updated(rows, c, t, d, h, r, n, now)) || (exists|
            c: i64,
            t: i32,
            d: Seq<char>,
            now: i64,
        | after == #[trigger] touched(rows, c, t, d, now)) || (exists|c: i64, t: i32|
            after == #[trigger] with_edited(rows, c, t)) || (exists|c: i64, t: i32, now: i64|
            after == #[trigger] with_deleted(rows, c, t, now)),
    ensures
        relayed(after, chat_id, tg_msg_id, webhook),
{
    let i = choose|i: int|
        0 <= i < rows.len() && (#[trigger] rows[i]).chat_id == chat_id && rows[i].tg_msg_id
            == tg_msg_id && rows[i].webhook_name == webhook;
    assert(after[i].chat_id == chat_id);
}

proof fn lemma_place_row(sorted: Seq<RowView>, x: RowView, r: RowView)
    ensures
        place_row(sorted, x).contains(r) <==> sorted.contains(r) || r == x,
        place_row(sorted, x).len() == sorted.len() + 1,
    decreases sorted.len(),
{
    let q = place_row(sorted, x);
    if sorted.len() > 0 && !not_after(sorted.last(), x) {
        let init = sorted.drop_last();
        lemma_place_row(init, x, r);
        let p = place_row(init, x);
        assert(q[p.len() as int] == sorted.last());
        assert(sorted[sorted.len() - 1] == sorted.last());
        if sorted.contains(r) {
            let i = choose|i: int| 0 <= i < sorted.len() && sorted[i] == r;
            if i < init.len() {
                assert(init[i] == r);
            }
        }
        if p.contains(r) {
            let i = choose|i: int| 0 <= i < p.len() && p[i] == r;
            assert(q[i] == r);
        }
        if init.contains(r) {
            let i = choose|i: int| 0 <= i < init.len() && init[i] == r;
            assert(sorted[i] == r);
        }
        if q.contains(r) {
            let i = choose|i: int| 0 <= i < q.len() && q[i] == r;
            if i < p.len() {
                assert(p[i] == r);
            }
        }
    } else {
        assert(q[sorted.len() as int] == x);
        if sorted.contains(r) {
            let i = choose|i: int| 0 <= i < sorted.len() && sorted[i] == r;
            assert(q[i] == r);
        }
        if q.contains(r) {
            let i = choose|i: int| 0 <= i < q.len() && q[i] == r;
            if i < sorted.len() {
                assert(sorted[i] == r);
            }
        }
    }
}

/// A row is due exactly if it is not marked as deleted and not too old.
pub proof fn lemma_due(rows: Seq<RowView>, cut: int, r: RowView)
    ensures
        due_rows(rows, cut).contains(r) <==> rows.contains(r) && !r.deleted && r.posted_at >= cut,
    decreases rows.len(),
{
    if rows.len() > 0 {
        let init = rows.drop_last();
        lemma_due(init, cut, r);
        assert(rows[rows.len() - 1] == rows.last());
        if rows.contains(r) {
            let i = choose|i: int| 0 <= i < rows.len() && rows[i] == r;
            if i < init.len() {
                assert(init[i] == r);
            }
        }
        if init.contains(r) {
            let i = choose|i: int| 0 <= i < init.len() && init[i] == r;
            assert(rows[i] == r);
        }
        if is_due(rows.last(), cut) {
            lemma_place_row(due_rows(init, cut), rows.last(), r);
        }
    }
}

/// After a post was marked as deleted none of its rows is due.
pub proof fn lemma_deleted_is_not_due(
    rows: Seq<RowView>,
    chat_id: i64,
    tg_msg_id: i32,
    now: i64,
    cut: int,
    r: RowView,
)
    requires
        due_rows(with_deleted(rows, chat_id, tg_msg_id, now), cut).contains(r),
    ensures
        !(r.chat_id == chat_id && r.tg_msg_id == tg_msg_id),
        rows.contains(r),
{
    let after = with_deleted(rows, chat_id, tg_msg_id, now);
    lemma_due(after, cut, r);
    let i = choose|i: int| 0 <= i < after.len() && after[i] == r;
    assert(rows[i] == r);
}

/// Pruning leaves no row that is too old, and takes away no other one.
pub proof fn lemma_pruned(rows: Seq<RowView>, cut: int, r: RowView)
    ensures
        pruned(rows, cut).contains(r) <==> rows.contains(r) && r.posted_at >= cut,
    decreases rows.len(),
{
    if rows.len() > 0 {
        let init = rows.drop_last();
        let x = rows.last();
        lemma_pruned(init, cut, r);
        let p = pruned(init, cut);
        let q = pruned(rows, cut);
        assert(rows[rows.len() - 1] == x);
        if rows.contains(r) && r != x {
            let i = choose|i: int| 0 <= i < rows.len() && rows[i] == r;
            assert(init[i] == r);
        }
        if init.contains(r) {
            let i = choose|i: int| 0 <= i < init.len() && init[i] == r;
            assert(rows[i] == r);
        }
        if x.posted_at >= cut {
            assert(q[p.len() as int] == x);
            if p.contains(r) {
                let i = choose|i: int| 0 <= i < p.len() && p[i] == r;
                assert(q[i] == r);
            }
            if q.contains(r) && r != x {
                let i = choose|i: int| 0 <= i < q.len() && q[i] == r;
                assert(p[i] == r);
            }
        }
    }
}

/// Pruning takes away nothing that is due within the same horizon.
pub proof fn lemma_prune_keeps_due(rows: Seq<RowView>, cut: int)
    ensures
        due_rows(pruned(rows, cut), cut) == due_rows(rows, cut),
    decreases rows.len(),
{
    if rows.len() > 0 {
        let init = rows.drop_last();
        lemma_prune_keeps_due(init, cut);
        if rows.last().posted_at >= cut {
            assert(pruned(rows, cut).drop_last() =~= pruned(init, cut));
        }
    }
}

/// What is due comes by chat and message.
pub proof fn lemma_due_in_order(rows: Seq<RowView>, cut: int)
    ensures
        forall|i: int, j: int|
            #![trigger due_rows(rows, cut)[i], due_rows(rows, cut)[j]]
            0 <= i < j < due_rows(rows, cut).len() ==> not_after(
                due_rows(rows, cut)[i],
                due_rows(rows, cut)[j],
            ),
    decreases rows.len(),
{
    if rows.len() > 0 {
        lemma_due_in_order(rows.drop_last(), cut);
        if is_due(rows.last(), cut) {
            lemma_place_row_in_order(due_rows(rows.drop_last(), cut), rows.last());
        }
    }
}

proof fn lemma_place_row_in_order(sorted: Seq<RowView>, x: RowView)
    requires
        forall|i: int, j: int|
            #![trigger sorted[i], sorted[j]]
            0 <= i < j < sorted.len() ==> not_after(sorted[i], sorted[j]),
    ensures
        forall|i: int, j: int|
            #![trigger place_row(sorted, x)[i], place_row(sorted, x)[j]]
            0 <= i < j < place_row(sorted, x).len() ==> not_after(
                place_row(sorted, x)[i],
                place_row(sorted, x)[j],
            ),
    decreases sorted.len(),
{
    let q = place_row(sorted, x);
    if sorted.len() > 0 && !not_after(sorted.last(), x) {
        let init = sorted.drop_last();
        assert forall|i: int, j: int|
            #![trigger init[i], init[j]]
            0 <= i < j < init.len() implies not_after(init[i], init[j]) by {
            assert(not_after(sorted[i], sorted[j]));
        }
        lemma_place_row_in_order(init, x);
        let p = place_row(init, x);
        assert forall|i: int, j: int|
            #![trigger q[i], q[j]]
            0 <= i < j < q.len() implies not_after(q[i], q[j]) by {
            if j < p.len() {
                assert(not_after(p[i], p[j]));
            } else {
                assert(p.contains(p[i]));
                lemma_place_row(init, x, p[i]);
                if p[i] != x {
                    let k = choose|k: int| 0 <= k < init.len() && init[k] == p[i];
                    assert(not_after(sorted[k], sorted[sorted.len() - 1]));
                }
            }
        }
    } else {
        assert forall|i: int, j: int|
            #![trigger q[i], q[j]]
            0 <= i < j < q.len() implies not_after(q[i], q[j]) by {
            if j < sorted.len() {
                assert(not_after(sorted[i], sorted[j]));
            } else if i < sorted.len() - 1 {
                assert(not_after(sorted[i], sorted[sorted.len() - 1]));
            }
        }
    }
}

/// Once edited, a post stays so: bringing its figures up to date, looking at it or
/// recording it again takes the mark off no row.
pub proof fn lemma_edited_stays(
    rows: Seq<RowView>,
    rec: NewRecordView,
    chat_id: i64,
    tg_msg_id: i32,
    discord_msg_id: Seq<char>,
    hash: Seq<char>,
    reactions: Seq<(Seq<char>, i32)>,
    comments: i32,
    now: i64,
    i: int,
)
    requires
        0 <= i < rows.len(),
        rows[i].edited,
    ensures
        recorded(rows, rec, now)[i].edited,
        updated(
            rows,
            chat_id,
            tg_msg_id,
            discord_msg_id,
            hash,
            reactions,
            comments,
            now,
        )[i].edited,
        touched(rows, chat_id, tg_msg_id, discord_msg_id, now)[i].edited,
        with_edited(rows, chat_id, tg_msg_id)[i].edited,
        with_deleted(rows, chat_id, tg_msg_id, now)[i].edited,
{
}

/// A message that is recorded for the first time gets a row of its own behind the others. The
/// row says of it what was recorded, and that it was posted and looked at just now.
pub proof fn lemma_new_row(rows: Seq<RowView>, rec: NewRecordView, now: i64)
    requires
        forall|i: int|
            0 <= i < rows.len() ==> !((#[trigger] rows[i]).chat_id == rec.chat_id
                && rows[i].tg_msg_id == rec.tg_msg_id && rows[i].discord_msg_id
                == rec.discord_msg_id),
    ensures
        recorded(rows, rec, now).len() == rows.len() + 1,
        forall|i: int| 0 <= i < rows.len() ==> #[trigger] recorded(rows, rec, now)[i] == rows[i],
        ({
            let r = recorded(rows, rec, now).last();
            &&& r.chat_id == rec.chat_id
            &&& r.tg_msg_id == rec.tg_msg_id
            &&& r.discord_msg_id == rec.discord_msg_id
            &&& r.route == rec.route
            &&& r.webhook_name == rec.webhook_name
            &&& r.content_hash == rec.content_hash
            &&& r.reactions == rec.reactions
            &&& r.comment_count == rec.comment_count
            &&& r.latency_ms == rec.latency_ms
            &&& r.image_urls == rec.image_urls
            &&& r.posted_at == now
            &&& r.last_checked == now
            &&& !r.deleted
            &&& !r.edited
        }),
{
}

/// A message that is recorded again keeps its row, and when and where it was posted; what it
/// says and its figures are brought up to date. No other row changes.
pub proof fn lemma_recorded_again(rows: Seq<RowView>, rec: NewRecordView, now: i64, k: int, i: int)
    requires
        0 <= k < rows.len(),
        rows[k].chat_id == rec.chat_id,
        rows[k].tg_msg_id == rec.tg_msg_id,
        rows[k].discord_msg_id == rec.discord_msg_id,
        0 <= i < rows.len(),
    ensures
        ({
            let after = recorded(rows, rec, now);
            let same = rows[i].chat_id == rec.chat_id && rows[i].tg_msg_id == rec.tg_msg_id
                && rows[i].discord_msg_id == rec.discord_msg_id;
            &&& after.len() == rows.len()
            &&& same ==> after[i] == (RowView {
                content_hash: rec.content_hash,
                reactions: rec.reactions,
                comment_count: rec.comment_count,
                last_checked: now,
                ..rows[i]
            })
            &&& !same ==> after[i] == rows[i]
        }),
{
    assert(has_key(rows[k], rec.chat_id, rec.tg_msg_id, rec.discord_msg_id));
}

/// Having looked at a message changes when it was looked at, in its row alone.
pub proof fn lemma_touched(
    rows: Seq<RowView>,
    chat_id: i64,
    tg_msg_id: i32,
    discord_msg_id: Seq<char>,
    now: i64,
    i: int,
)
    requires
        0 <= i < rows.len(),
    ensures
        ({
            let after = touched(rows, chat_id, tg_msg_id, discord_msg_id, now);
            let same = rows[i].chat_id == chat_id && rows[i].tg_msg_id == tg_msg_id
                && rows[i].discord_msg_id == discord_msg_id;
            &&& after.len() == rows.len()
            &&& same ==> after[i] == (RowView { last_checked: now, ..rows[i] })
            &&& !same ==> after[i] == rows[i]
        }),
{
}

/// What is due are the rows that are not marked as deleted and were posted at the cutoff or
/// later, each as often as it is there, and each message is what its row says.
pub proof fn lemma_due_is_complete(rows: Seq<RowView>, cut: int)
    ensures
        due_rows(rows, cut).to_multiset() == rows.filter(
            |r: RowView| !r.deleted && r.posted_at >= cut,
        ).to_multiset(),
        due_of(rows, cut).len() == due_rows(rows, cut).len(),
        forall|i: int|
            0 <= i < due_of(rows, cut).len() ==> {
                let m = #[trigger] due_of(rows, cut)[i];
                let r = due_rows(rows, cut)[i];
                &&& m.chat_id == r.chat_id
                &&& m.tg_msg_id == r.tg_msg_id
                &&& m.route == r.route
                &&& m.webhook_name == r.webhook_name
                &&& m.discord_msg_id == r.discord_msg_id
                &&& m.content_hash == r.content_hash
                &&& m.reactions == r.reactions
                &&& m.comment_count == r.comment_count
                &&& m.posted_at == r.posted_at
                &&& m.last_checked == r.last_checked
                &&& m.edited == r.edited
                &&& m.image_urls == r.image_urls
            },
    decreases rows.len(),
{
    broadcast use vstd::seq_lib::group_to_multiset_ensures;

    reveal(Seq::filter);
    let f = |r: RowView| !r.deleted && r.posted_at >= cut;
    if rows.len() > 0 {
        let init = rows.drop_last();
        lemma_due_is_complete(init, cut);
        if f(rows.last()) {
            lemma_place_row_adds(due_rows(init, cut), rows.last());
            assert(rows.filter(f) == init.filter(f).push(rows.last()));
        } else {
            assert(rows.filter(f) == init.filter(f));
        }
    }
    assert(due_rows(rows, cut).to_multiset() =~= rows.filter(f).to_multiset());
}

proof fn lemma_place_row_adds(sorted: Seq<RowView>, x: RowView)
    ensures
        place_row(sorted, x).to_multiset() =~= sorted.to_multiset().insert(x),
    decreases sorted.len(),
{
    broadcast use vstd::seq_lib::group_to_multiset_ensures;

    if sorted.len() > 0 && !not_after(sorted.last(), x) {
        let init = sorted.drop_last();
        lemma_place_row_adds(init, x);
        assert(sorted =~= init.push(sorted.last()));
    }
}

/// What is due comes by chat, and within a chat by message.
pub proof fn lemma_due_by_chat(rows: Seq<RowView>, cut: int, i: int, j: int)
    requires
        0 <= i < j < due_of(rows, cut).len(),
    ensures
        due_of(rows, cut)[i].chat_id <= due_of(rows, cut)[j].chat_id,
        due_of(rows, cut)[i].chat_id == due_of(rows, cut)[j].chat_id ==> due_of(
            rows,
            cut,
        )[i].tg_msg_id <= due_of(rows, cut)[j].tg_msg_id,
{
    lemma_due_in_order(rows, cut);
    assert(not_after(due_rows(rows, cut)[i], due_rows(rows, cut)[j]));
}

/// Pruning keeps the rows that were posted at the cutoff or later, in their order. The cutoff
/// lies as many hours back as the horizon says.
pub proof fn lemma_pruned_in_order(rows: Seq<RowView>, now: i64, horizon_hours: u64)
    ensures
        pruned(rows, cutoff(now, horizon_hours)) == rows.filter(
            |r: RowView| now - r.posted_at <= horizon_hours * 60 * 60,
        ),
    decreases rows.len(),
{
    reveal(Seq::filter);
    let f = |r: RowView| now - r.posted_at <= horizon_hours * 60 * 60;
    if rows.len() > 0 {
        lemma_pruned_in_order(rows.drop_last(), now, horizon_hours);
    }
    assert(pruned(rows, cutoff(now, horizon_hours)) =~= rows.filter(f));
}

/// A percentile is the number at the nearest rank: with it and those before it at least `p` in
/// a hundred are there, and without it fewer.
pub proof fn lemma_percentile(sorted: Seq<i64>, p: int)
    requires
        sorted.len() > 0,
        0 < p <= 100,
    ensures
        exists|k: int|
            {
                &&& 0 <= k < sorted.len()
                &&& percentile_of(sorted, p) == #[trigger] sorted[k]
                &&& 100 * (k + 1) >= p * sorted.len()
                &&& 100 * k < p * sorted.len()
            },
{
    let n = sorted.len() as int;
    let rank = (p * n + 99) / 100;
    assert(0 < p * n <= 100 * n) by (nonlinear_arith)
        requires
            0 < p <= 100,
            n > 0,
    ;
    assert(1 <= rank <= n);
    assert(percentile_of(sorted, p) == sorted[rank - 1]);
}

/// The figures of some latencies: how many there are, the shortest and the longest, and the
/// percentiles at the ranks of fifty and of ninety-five in a hundred, of the latencies in
/// ascending order.
pub proof fn lemma_latency_ranks(values: Seq<i64>, sorted: Seq<i64>)
    requires
        0 < values.len() <= usize::MAX,
        sorted.to_multiset() == values.to_multiset(),
        forall|i: int, j: int| 0 <= i <= j < sorted.len() ==> sorted[i] <= sorted[j],
    ensures
        latency_of(values) matches Some(s) && {
            &&& s.count == values.len()
            &&& s.min == sorted[0]
            &&& s.max == sorted[sorted.len() - 1]
            &&& exists|k: int|
                0 <= k < sorted.len() && s.p50 == #[trigger] sorted[k] && 100 * (k + 1) >= 50
                    * sorted.len() && 100 * k < 50 * sorted.len()
            &&& exists|k: int|
                0 <= k < sorted.len() && s.p95 == #[trigger] sorted[k] && 100 * (k + 1) >= 95
                    * sorted.len() && 100 * k < 95 * sorted.len()
        },
{
    broadcast use vstd::seq_lib::group_to_multiset_ensures;

    let leq = |a: i64, b: i64| a <= b;
    lemma_leq_is_total();
    values.lemma_sort_by_ensures(leq);
    let v = in_order(values);
    assert(sorted_by(sorted, leq));
    vstd::seq_lib::lemma_sorted_unique(v, sorted, leq);
    assert(v == sorted);
    assert(sorted.len() == sorted.to_multiset().len());
    assert(values.len() == values.to_multiset().len());
    lemma_percentile(sorted, 50);
    lemma_percentile(sorted, 95);
}

/// The figures of the record are those of its rows.
pub proof fn lemma_record_figures(rows: Seq<RowView>)
    ensures
        deleted_count(rows) == rows.filter(|r: RowView| r.deleted).len(),
        latencies(rows) == rows.filter(|r: RowView| r.latency_ms is Some).map_values(
            |r: RowView| r.latency_ms->0,
        ),
        forall|i: int|
            0 <= i < rows.len() ==> #[trigger] posts_of(rows)[i] == (
                rows[i].chat_id,
                rows[i].tg_msg_id,
            ),
        posts_of(rows).len() == rows.len(),
    decreases rows.len(),
{
    reveal(Seq::filter);
    let f = |r: RowView| r.latency_ms is Some;
    let g = |r: RowView| r.latency_ms->0;
    if rows.len() > 0 {
        lemma_record_figures(rows.drop_last());
    }
    assert(latencies(rows) =~= rows.filter(f).map_values(g));
}

/// Bringing the figures of a message up to date changes what it says, its reactions, its
/// comments and when it was looked at, in its row alone.
pub proof fn lemma_updated(
    rows: Seq<RowView>,
    chat_id: i64,
    tg_msg_id: i32,
    discord_msg_id: Seq<char>,
    content_hash: Seq<char>,
    reactions: Seq<(Seq<char>, i32)>,
    comment_count: i32,
    now: i64,
    i: int,
)
    requires
        0 <= i < rows.len(),
    ensures
        ({
            let after = updated(
                rows,
                chat_id,
                tg_msg_id,
                discord_msg_id,
                content_hash,
                reactions,
                comment_count,
                now,
            );
            let same = rows[i].chat_id == chat_id && rows[i].tg_msg_id == tg_msg_id
                && rows[i].discord_msg_id == discord_msg_id;
            &&& after.len() == rows.len()
            &&& same ==> after[i] == (RowView {
                content_hash,
                reactions,
                comment_count,
                last_checked: now,
                ..rows[i]
            })
            &&& !same ==> after[i] == rows[i]
        }),
{
}

/// An edit marks the rows of the post and no other ones.
pub proof fn lemma_marked_edited(rows: Seq<RowView>, chat_id: i64, tg_msg_id: i32, i: int)
    requires
        0 <= i < rows.len(),
    ensures
        with_edited(rows, chat_id, tg_msg_id).len() == rows.len(),
        rows[i].chat_id == chat_id && rows[i].tg_msg_id == tg_msg_id ==> with_edited(
            rows,
            chat_id,
            tg_msg_id,
        )[i] == (RowView { edited: true, ..rows[i] }),
        !(rows[i].chat_id == chat_id && rows[i].tg_msg_id == tg_msg_id) ==> with_edited(
            rows,
            chat_id,
            tg_msg_id,
        )[i] == rows[i],
{
}

} // verus!
