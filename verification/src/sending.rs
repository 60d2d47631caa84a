//! Sending of posts to their targets: which ones are passed over, what is recorded, and how
//! the deliveries are counted.

use vstd::prelude::*;

use crate::album;
use crate::album::MediaPost;
use crate::config::MediaMode;
use crate::deliver;
use crate::deliver::PostResult;
use crate::live;
use crate::live::TextDelivery;
use crate::media;
use crate::media::MediaTarget;
use crate::store;
use crate::store::{NewRecord, Store};

verus! {

/// What is done about one target of a post.
#[derive(Debug, Clone, Copy, PartialEq, Eq, Structural)]
pub enum TargetStep {
    /// Nothing: the target has the post already.
    Skip,
    /// It is posted there, with its files attached or without.
    Post { attach: bool },
}

/// What became of one target of a post.
#[derive(Debug, Clone, Copy, PartialEq, Eq, Structural)]
pub enum Fate {
    Skipped,
    Posted,
    Dropped,
}

/// What is done about one target of a media post.
pub open spec fn media_step_of(
    rows: Seq<store::RowView>,
    post: album::MediaPostView,
    target: media::MediaTargetView,
) -> TargetStep {
    if store::relayed(rows, post.chat_id, post.anchor_msg_id, target.webhook) {
        TargetStep::Skip
    } else {
        TargetStep::Post { attach: album::attaches(post, target) }
    }
}

/// Decide about one target of a media post: it is passed over exactly if it has the post
/// already.
pub fn media_step(post: &MediaPost, target: &MediaTarget, store: &Store) -> (r: TargetStep)
    ensures
        r == media_step_of(store.rows(), post.deep_view(), target.deep_view()),
        r is Skip <==> store::relayed(
            store.rows(),
            post.chat_id,
            post.anchor_msg_id,
            target.webhook.0@,
        ),
{
    if store.already_relayed(post.chat_id, post.anchor_msg_id, target.webhook.0.as_str()) {
        TargetStep::Skip
    } else {
        TargetStep::Post { attach: album::attaches_files(post, target) }
    }
}

/// What is done about a text for one target.
pub open spec fn text_step_of(rows: Seq<store::RowView>, d: live::TextDeliveryView) -> TargetStep {
    if store::relayed(rows, d.record.chat_id, d.record.tg_msg_id, d.record.webhook_name) {
        TargetStep::Skip
    } else {
        TargetStep::Post { attach: false }
    }
}

/// Decide about a text for one target: it is passed over exactly if the target has it
/// already.
pub fn text_step(d: &TextDelivery, store: &Store) -> (r: TargetStep)
    ensures
        r == text_step_of(store.rows(), d.deep_view()),
        r is Skip <==> store::relayed(
            store.rows(),
            d.record.chat_id,
            d.record.tg_msg_id,
            d.record.webhook_name@,
        ),
{
    if store.already_relayed(
        d.record.chat_id,
        d.record.tg_msg_id,
        d.record.webhook_name.as_str(),
    ) {
        TargetStep::Skip
    } else {
        TargetStep::Post { attach: false }
    }
}

/// What became of a target that was posted to.
pub open spec fn fate_for(result: deliver::PostResultView) -> Fate {
    match result {
        deliver::PostResultView::Delivered { .. } => Fate::Posted,
        deliver::PostResultView::Dropped { .. } => Fate::Dropped,
    }
}

/// What became of a target that was posted to.
pub fn fate_after(result: &PostResult) -> (r: Fate)
    ensures
        r == fate_for(result.deep_view()),
{
    match result {
        PostResult::Delivered { .. } => Fate::Posted,
        PostResult::Dropped { .. } => Fate::Dropped,
    }
}

/// What is recorded of a media post that went to a target; nothing if it was dropped.
pub open spec fn media_record_after(
    post: album::MediaPostView,
    target: media::MediaTargetView,
    result: deliver::PostResultView,
    as_it_came: bool,
) -> Option<store::NewRecordView> {
    match result {
        deliver::PostResultView::Delivered { discord_msg_id, image_urls } => Some(
            album::media_record_of(
                post,
                target,
                discord_msg_id,
                image_urls,
                live::latency_for(
                    discord_msg_id,
                    if as_it_came {
                        post.timestamp
                    } else {
                        None
                    },
                ),
            ),
        ),
        deliver::PostResultView::Dropped { .. } => None,
    }
}

/// What is recorded of a text that went to its target; nothing if it was dropped.
pub open spec fn text_record_after(
    d: live::TextDeliveryView,
    result: deliver::PostResultView,
) -> Option<store::NewRecordView> {
    match result {
        deliver::PostResultView::Delivered { discord_msg_id, .. } => Some(
            live::delivered_of(
                d.record,
                discord_msg_id,
                live::latency_for(discord_msg_id, d.date),
            ),
        ),
        deliver::PostResultView::Dropped { .. } => None,
    }
}

/// What is to be recorded of a media post that went to a target.
pub fn media_record_for(
    post: &MediaPost,
    target: &MediaTarget,
    result: PostResult,
    as_it_came: bool,
) -> (r: Option<NewRecord>)
    ensures
        r.deep_view() == media_record_after(
            post.deep_view(),
            target.deep_view(),
            result.deep_view(),
            as_it_came,
        ),
{
    match result {
        PostResult::Delivered { discord_msg_id, image_urls } => Some(
            live::delivered_media(post, target, discord_msg_id, image_urls, as_it_came),
        ),
        PostResult::Dropped { .. } => None,
    }
}

/// What is to be recorded of a text that went to its target.
pub fn text_record_for(d: TextDelivery, result: PostResult) -> (r: Option<NewRecord>)
    ensures
        r.deep_view() == text_record_after(d.deep_view(), result.deep_view()),
{
    match result {
        PostResult::Delivered { discord_msg_id, .. } => {
            let date: Option<&str> = match &d.date {
                Some(s) => Some(s.as_str()),
                None => None,
            };
            Some(live::delivered(d.record, discord_msg_id, date))
        },
        PostResult::Dropped { .. } => None,
    }
}

/// How many of some fates are this one.
pub open spec fn count_of(fates: Seq<Fate>, f: Fate) -> nat
    decreases fates.len(),
{
    if fates.len() == 0 {
        0
    } else {
        count_of(fates.drop_last(), f) + (if fates.last() == f {
            1nat
        } else {
            0nat
        })
    }
}

/// What became of the targets of a post, in numbers.
#[derive(Debug, Clone, Copy, PartialEq, Eq, Structural)]
pub struct Counts {
    pub posted: usize,
    pub dropped: usize,
    pub skipped: usize,
}

/// Count what became of targets. Every target is counted once.
pub fn count_fates(fates: &Vec<Fate>) -> (r: Counts)
    ensures
        r.posted == count_of(fates@, Fate::Posted),
        r.dropped == count_of(fates@, Fate::Dropped),
        r.skipped == count_of(fates@, Fate::Skipped),
        r.posted + r.dropped + r.skipped == fates@.len(),
{
    let mut c: Counts = Counts { posted: 0, dropped: 0, skipped: 0 };
    let n: usize = fates.len();
    let mut i: usize = 0;
    assert(fates@.take(0) =~= Seq::<Fate>::empty());
    while i < fates.len()
        invariant
            i <= fates@.len(),
            fates@.len() == n,
            c.posted == count_of(fates@.take(i as int), Fate::Posted),
            c.dropped == count_of(fates@.take(i as int), Fate::Dropped),
            c.skipped == count_of(fates@.take(i as int), Fate::Skipped),
            c.posted + c.dropped + c.skipped == i,
        decreases fates@.len() - i,
    {
        assert(fates@.take(i + 1).drop_last() =~= fates@.take(i as int));
        assert(fates@.take(i + 1).last() == fates@[i as int]);
        match fates[i] {
            Fate::Posted => {
                c.posted = c.posted + 1;
            },
            Fate::Dropped => {
                c.dropped = c.dropped + 1;
            },
            Fate::Skipped => {
                c.skipped = c.skipped + 1;
            },
        }
        i = i + 1;
    }
    assert(fates@.take(fates@.len() as int) =~= fates@);
    c
}

/// One target of a post: whether it has the post is asked by the first three; `record` is
/// what is recorded at `now` if it is posted to, and nothing where that fails.
pub struct AttemptView {
    pub chat_id: i64,
    pub msg_id: i32,
    pub webhook: Seq<char>,
    pub record: Option<store::NewRecordView>,
    pub now: i64,
}

/// What is recorded is a post to this target.
pub open spec fn attempt_ok(a: AttemptView) -> bool {
    a.record matches Some(r) ==> r.chat_id == a.chat_id && r.tg_msg_id == a.msg_id
        && r.webhook_name == a.webhook
}

pub open spec fn all_ok(attempts: Seq<AttemptView>) -> bool {
    forall|i: int| 0 <= i < attempts.len() ==> attempt_ok(#[trigger] attempts[i])
}

/// A target has the post already.
pub open spec fn is_there(rows: Seq<store::RowView>, a: AttemptView) -> bool {
    store::relayed(rows, a.chat_id, a.msg_id, a.webhook)
}

/// What becomes of a target.
pub open spec fn fate_of(rows: Seq<store::RowView>, a: AttemptView) -> Fate {
    if is_there(rows, a) {
        Fate::Skipped
    } else if a.record is Some {
        Fate::Posted
    } else {
        Fate::Dropped
    }
}

/// The rows after a target was dealt with.
pub open spec fn rows_after(rows: Seq<store::RowView>, a: AttemptView) -> Seq<store::RowView> {
    match a.record {
        Some(r) if !is_there(rows, a) => store::recorded(rows, r, a.now),
        _ => rows,
    }
}

/// The rows after several targets were dealt with, one after the other.
pub open spec fn run_rows(rows: Seq<store::RowView>, attempts: Seq<AttemptView>) -> Seq<
    store::RowView,
>
    decreases attempts.len(),
{
    if attempts.len() == 0 {
        rows
    } else {
        rows_after(run_rows(rows, attempts.drop_last()), attempts.last())
    }
}

/// What becomes of several targets that are dealt with one after the other.
pub open spec fn run_fates(rows: Seq<store::RowView>, attempts: Seq<AttemptView>) -> Seq<Fate>
    decreases attempts.len(),
{
    if attempts.len() == 0 {
        Seq::empty()
    } else {
        run_fates(rows, attempts.drop_last()).push(
            fate_of(run_rows(rows, attempts.drop_last()), attempts.last()),
        )
    }
}

/// Every message that is recorded has an id that the post does not have a message under yet.
pub open spec fn ids_new(rows: Seq<store::RowView>, attempts: Seq<AttemptView>) -> bool
    decreases attempts.len(),
{
    attempts.len() == 0 || {
        let before = run_rows(rows, attempts.drop_last());
        &&& ids_new(rows, attempts.drop_last())
        &&& attempts.last().record matches Some(r) ==> !is_there(before, attempts.last())
            ==> !store::is_recorded(before, r)
    }
}

/// No two targets of the same post are the same webhook.
pub open spec fn distinct_attempts(attempts: Seq<AttemptView>) -> bool {
    forall|i: int, j: int|
        #![trigger attempts[i], attempts[j]]
        0 <= i < j < attempts.len() ==> attempts[i].chat_id != attempts[j].chat_id
            || attempts[i].msg_id != attempts[j].msg_id || attempts[i].webhook
            != attempts[j].webhook
}

/// The same targets of the same posts.
pub open spec fn same_targets(a: Seq<AttemptView>, b: Seq<AttemptView>) -> bool {
    &&& a.len() == b.len()
    &&& forall|i: int|
        0 <= i < a.len() ==> (#[trigger] a[i]).chat_id == b[i].chat_id && a[i].msg_id == b[i].msg_id
            && a[i].webhook == b[i].webhook
}

/// A post stays where it is; and it comes to no other webhook than the one it is recorded
/// for.
proof fn lemma_recorded_elsewhere(
    rows: Seq<store::RowView>,
    rec: store::NewRecordView,
    now: i64,
    a: AttemptView,
)
    ensures
        is_there(rows, a) ==> is_there(store::recorded(rows, rec, now), a),
        is_there(store::recorded(rows, rec, now), a) && !is_there(rows, a) ==> rec.chat_id
            == a.chat_id && rec.tg_msg_id == a.msg_id && rec.webhook_name == a.webhook,
{
    let q = store::recorded(rows, rec, now);
    if store::is_recorded(rows, rec) {
        if is_there(rows, a) {
            let i = choose|i: int|
                0 <= i < rows.len() && (#[trigger] rows[i]).chat_id == a.chat_id
                    && rows[i].tg_msg_id == a.msg_id && rows[i].webhook_name == a.webhook;
            assert(q[i].webhook_name == a.webhook);
        }
        if is_there(q, a) {
            let i = choose|i: int|
                0 <= i < q.len() && (#[trigger] q[i]).chat_id == a.chat_id && q[i].tg_msg_id
                    == a.msg_id && q[i].webhook_name == a.webhook;
            assert(rows[i].webhook_name == a.webhook);
        }
    } else {
        store::lemma_recorded_is_relayed(rows, rec, now, a.chat_id, a.msg_id, a.webhook);
    }
}

proof fn lemma_fates_at(rows: Seq<store::RowView>, attempts: Seq<AttemptView>, i: int)
    requires
        0 <= i < attempts.len(),
    ensures
        run_fates(rows, attempts).len() == attempts.len(),
        run_fates(rows, attempts)[i] == fate_of(run_rows(rows, attempts.take(i)), attempts[i]),
    decreases attempts.len(),
{
    let init = attempts.drop_last();
    lemma_every_target_is_counted(rows, init);
    if i < init.len() {
        lemma_fates_at(rows, init, i);
        assert(init.take(i) =~= attempts.take(i));
    } else {
        assert(attempts.take(i) =~= init);
    }
}

/// Every target has a fate.
pub proof fn lemma_every_target_is_counted(rows: Seq<store::RowView>, attempts: Seq<AttemptView>)
    ensures
        run_fates(rows, attempts).len() == attempts.len(),
    decreases attempts.len(),
{
    if attempts.len() > 0 {
        lemma_every_target_is_counted(rows, attempts.drop_last());
    }
}

proof fn lemma_there_before(
    rows: Seq<store::RowView>,
    attempts: Seq<AttemptView>,
    a: AttemptView,
)
    requires
        all_ok(attempts),
        forall|j: int|
            0 <= j < attempts.len() ==> (#[trigger] attempts[j]).chat_id != a.chat_id
                || attempts[j].msg_id != a.msg_id || attempts[j].webhook != a.webhook,
    ensures
        is_there(run_rows(rows, attempts), a) <==> is_there(rows, a),
    decreases attempts.len(),
{
    if attempts.len() > 0 {
        let init = attempts.drop_last();
        let x = attempts.last();
        assert(all_ok(init)) by {
            assert forall|i: int| 0 <= i < init.len() implies attempt_ok(#[trigger] init[i]) by {
                assert(init[i] == attempts[i]);
            }
        }
        assert(attempts[attempts.len() - 1] == x);
        assert forall|j: int| 0 <= j < init.len() implies (#[trigger] init[j]).chat_id != a.chat_id
            || init[j].msg_id != a.msg_id || init[j].webhook != a.webhook by {
            assert(init[j] == attempts[j]);
        }
        lemma_there_before(rows, init, a);
        if let Some(r) = x.record {
            lemma_recorded_elsewhere(run_rows(rows, init), r, x.now, a);
        }
    }
}

/// Of different targets exactly those are passed over that had the post before.
pub proof fn lemma_skipped_had_it(
    rows: Seq<store::RowView>,
    attempts: Seq<AttemptView>,
    i: int,
)
    requires
        all_ok(attempts),
        distinct_attempts(attempts),
        0 <= i < attempts.len(),
    ensures
        run_fates(rows, attempts).len() == attempts.len(),
        run_fates(rows, attempts)[i] == Fate::Skipped <==> is_there(rows, attempts[i]),
{
    lemma_fates_at(rows, attempts, i);
    let before = attempts.take(i);
    assert(all_ok(before)) by {
        assert forall|k: int| 0 <= k < before.len() implies attempt_ok(#[trigger] before[k]) by {
            assert(before[k] == attempts[k]);
        }
    }
    assert forall|j: int| 0 <= j < before.len() implies (#[trigger] before[j]).chat_id
        != attempts[i].chat_id || before[j].msg_id != attempts[i].msg_id || before[j].webhook
        != attempts[i].webhook by {
        assert(before[j] == attempts[j]);
    }
    lemma_there_before(rows, before, attempts[i]);
}

/// Once nothing was dropped, every target has the post.
proof fn lemma_all_there(rows: Seq<store::RowView>, attempts: Seq<AttemptView>, i: int)
    requires
        all_ok(attempts),
        ids_new(rows, attempts),
        count_of(run_fates(rows, attempts), Fate::Dropped) == 0,
        0 <= i < attempts.len(),
    ensures
        is_there(run_rows(rows, attempts), attempts[i]),
    decreases attempts.len(),
{
    let init = attempts.drop_last();
    let x = attempts.last();
    let before = run_rows(rows, init);
    let fates = run_fates(rows, attempts);
    assert(fates.drop_last() =~= run_fates(rows, init));
    assert(attempts[attempts.len() - 1] == x);
    assert(attempt_ok(x));
    if i < init.len() {
        assert(all_ok(init)) by {
            assert forall|k: int| 0 <= k < init.len() implies attempt_ok(#[trigger] init[k]) by {
                assert(init[k] == attempts[k]);
            }
        }
        lemma_all_there(rows, init, i);
        assert(init[i] == attempts[i]);
        if let Some(r) = x.record {
            lemma_recorded_elsewhere(before, r, x.now, attempts[i]);
        }
    } else if !is_there(before, x) {
        assert(fates.last() == fate_of(before, x));
        let r = x.record->0;
        store::lemma_recorded_is_relayed(before, r, x.now, x.chat_id, x.msg_id, x.webhook);
    }
}

proof fn lemma_all_skipped(rows: Seq<store::RowView>, attempts: Seq<AttemptView>)
    requires
        forall|i: int| 0 <= i < attempts.len() ==> is_there(rows, #[trigger] attempts[i]),
    ensures
        run_rows(rows, attempts) == rows,
        run_fates(rows, attempts).len() == attempts.len(),
        forall|i: int|
            0 <= i < attempts.len() ==> #[trigger] run_fates(rows, attempts)[i] == Fate::Skipped,
        count_of(run_fates(rows, attempts), Fate::Skipped) == attempts.len(),
        count_of(run_fates(rows, attempts), Fate::Posted) == 0,
        count_of(run_fates(rows, attempts), Fate::Dropped) == 0,
    decreases attempts.len(),
{
    if attempts.len() > 0 {
        let init = attempts.drop_last();
        assert forall|i: int| 0 <= i < init.len() implies is_there(rows, #[trigger] init[i]) by {
            assert(init[i] == attempts[i]);
        }
        lemma_all_skipped(rows, init);
        assert(attempts[attempts.len() - 1] == attempts.last());
        assert(run_fates(rows, attempts).drop_last() =~= run_fates(rows, init));
    }
}

/// What was delivered to all its targets, or was there before, is sent nowhere when it comes
/// to the same targets again: each one is passed over, and nothing is recorded.
pub proof fn lemma_nothing_is_sent_twice(
    rows: Seq<store::RowView>,
    first: Seq<AttemptView>,
    again: Seq<AttemptView>,
)
    requires
        all_ok(first),
        ids_new(rows, first),
        count_of(run_fates(rows, first), Fate::Dropped) == 0,
        same_targets(again, first),
    ensures
        run_rows(run_rows(rows, first), again) == run_rows(rows, first),
        count_of(run_fates(run_rows(rows, first), again), Fate::Skipped) == again.len(),
        count_of(run_fates(run_rows(rows, first), again), Fate::Posted) == 0,
        count_of(run_fates(run_rows(rows, first), again), Fate::Dropped) == 0,
{
    let after = run_rows(rows, first);
    assert forall|i: int| 0 <= i < again.len() implies is_there(after, #[trigger] again[i]) by {
        lemma_all_there(rows, first, i);
    }
    lemma_all_skipped(after, again);
}

/// The targets of a media post, with the answers to what is sent to them and the times at
/// which these come.
pub open spec fn media_attempts(
    post: album::MediaPostView,
    targets: Seq<media::MediaTargetView>,
    results: Seq<deliver::PostResultView>,
    times: Seq<i64>,
    as_it_came: bool,
) -> Seq<AttemptView> {
    Seq::new(
        targets.len(),
        |i: int|
            AttemptView {
                chat_id: post.chat_id,
                msg_id: post.anchor_msg_id,
                webhook: targets[i].webhook,
                record: media_record_after(post, targets[i], results[i], as_it_came),
                now: times[i],
            },
    )
}

/// The targets of some texts.
pub open spec fn text_attempts(
    texts: Seq<live::TextDeliveryView>,
    results: Seq<deliver::PostResultView>,
    times: Seq<i64>,
) -> Seq<AttemptView> {
    Seq::new(
        texts.len(),
        |i: int|
            AttemptView {
                chat_id: texts[i].record.chat_id,
                msg_id: texts[i].record.tg_msg_id,
                webhook: texts[i].record.webhook_name,
                record: text_record_after(texts[i], results[i]),
                now: times[i],
            },
    )
}

/// Each target of a media post is posted to once. The first time exactly those are passed
/// over that had the post before; and once nothing was dropped, a second time nothing is sent
/// and nothing recorded, whatever the answers would have been.
pub proof fn lemma_media_is_delivered_once(
    rows: Seq<store::RowView>,
    post: album::MediaPostView,
    targets: Seq<media::MediaTargetView>,
    results: Seq<deliver::PostResultView>,
    times: Seq<i64>,
    more_results: Seq<deliver::PostResultView>,
    more_times: Seq<i64>,
    as_it_came: bool,
    i: int,
)
    requires
        album::distinct_targets(targets),
    ensures
        ({
            let first = media_attempts(post, targets, results, times, as_it_came);
            let again = media_attempts(post, targets, more_results, more_times, as_it_came);
            let fates = run_fates(rows, first);
            let after = run_rows(rows, first);
            &&& fates.len() == targets.len()
            &&& 0 <= i < targets.len() ==> (fates[i] == Fate::Skipped <==> media_step_of(
                rows,
                post,
                targets[i],
            ) is Skip)
            &&& ids_new(rows, first) && count_of(fates, Fate::Dropped) == 0 ==> {
                &&& run_rows(after, again) == after
                &&& count_of(run_fates(after, again), Fate::Skipped) == targets.len()
                &&& count_of(run_fates(after, again), Fate::Posted) == 0
                &&& count_of(run_fates(after, again), Fate::Dropped) == 0
            }
        }),
{
    let first = media_attempts(post, targets, results, times, as_it_came);
    let again = media_attempts(post, targets, more_results, more_times, as_it_came);
    lemma_every_target_is_counted(rows, first);
    assert(distinct_attempts(first)) by {
        assert forall|a: int, b: int|
            #![trigger first[a], first[b]]
            0 <= a < b < first.len() implies first[a].webhook != first[b].webhook by {
            assert(targets[a].webhook != targets[b].webhook);
        }
    }
    if 0 <= i < targets.len() {
        lemma_skipped_had_it(rows, first, i);
    }
    if ids_new(rows, first) && count_of(run_fates(rows, first), Fate::Dropped) == 0 {
        lemma_nothing_is_sent_twice(rows, first, again);
    }
}

/// Texts that were all delivered, or were there before, are sent nowhere when they come
/// again, as by a second backfill of the same messages.
pub proof fn lemma_texts_are_delivered_once(
    rows: Seq<store::RowView>,
    texts: Seq<live::TextDeliveryView>,
    results: Seq<deliver::PostResultView>,
    times: Seq<i64>,
    more_results: Seq<deliver::PostResultView>,
    more_times: Seq<i64>,
)
    requires
        ids_new(rows, text_attempts(texts, results, times)),
        count_of(run_fates(rows, text_attempts(texts, results, times)), Fate::Dropped) == 0,
    ensures
        ({
            let again = text_attempts(texts, more_results, more_times);
            let after = run_rows(rows, text_attempts(texts, results, times));
            &&& run_rows(after, again) == after
            &&& count_of(run_fates(after, again), Fate::Skipped) == texts.len()
            &&& count_of(run_fates(after, again), Fate::Posted) == 0
            &&& count_of(run_fates(after, again), Fate::Dropped) == 0
        }),
{
    lemma_nothing_is_sent_twice(
        rows,
        text_attempts(texts, results, times),
        text_attempts(texts, more_results, more_times),
    );
}

/// A target that does not have a media post yet is posted to, with the files exactly if it
/// takes files and there are some. One that has it is passed over.
pub proof fn lemma_media_step(
    rows: Seq<store::RowView>,
    post: album::MediaPostView,
    target: media::MediaTargetView,
)
    ensures
        ({
            let there = exists|i: int|
                0 <= i < rows.len() && (#[trigger] rows[i]).chat_id == post.chat_id
                    && rows[i].tg_msg_id == post.anchor_msg_id && rows[i].webhook_name
                    == target.webhook;
            &&& there ==> media_step_of(rows, post, target) is Skip
            &&& !there ==> media_step_of(rows, post, target) == (TargetStep::Post {
                attach: target.mode == MediaMode::Reupload && post.files.len() > 0,
            })
        }),
{
}

/// A text is posted to its target, without files, exactly if the target does not have it yet.
pub proof fn lemma_text_step(rows: Seq<store::RowView>, d: live::TextDeliveryView)
    ensures
        ({
            let there = exists|i: int|
                0 <= i < rows.len() && (#[trigger] rows[i]).chat_id == d.record.chat_id
                    && rows[i].tg_msg_id == d.record.tg_msg_id && rows[i].webhook_name
                    == d.record.webhook_name;
            &&& there ==> text_step_of(rows, d) is Skip
            &&& !there ==> text_step_of(rows, d) == (TargetStep::Post { attach: false })
        }),
{
}

/// Exactly what was delivered counts as posted and is recorded, under the id of the message
/// that it became; a media post with the addresses of its media, and with a latency only if it
/// was relayed as it came. What was dropped leaves no record.
pub proof fn lemma_delivered_is_recorded(
    post: album::MediaPostView,
    target: media::MediaTargetView,
    d: live::TextDeliveryView,
    result: deliver::PostResultView,
    as_it_came: bool,
)
    ensures
        match result {
            deliver::PostResultView::Delivered { discord_msg_id, image_urls } => {
                &&& fate_for(result) is Posted
                &&& media_record_after(post, target, result, as_it_came) matches Some(r) && {
                    &&& r.chat_id == post.chat_id
                    &&& r.tg_msg_id == post.anchor_msg_id
                    &&& r.webhook_name == target.webhook
                    &&& r.route == target.route
                    &&& r.discord_msg_id == discord_msg_id
                    &&& r.image_urls == image_urls
                    &&& !as_it_came ==> r.latency_ms is None
                    &&& as_it_came ==> r.latency_ms == live::latency_for(
                        discord_msg_id,
                        post.timestamp,
                    )
                }
                &&& text_record_after(d, result) matches Some(r) && {
                    &&& r.chat_id == d.record.chat_id
                    &&& r.tg_msg_id == d.record.tg_msg_id
                    &&& r.webhook_name == d.record.webhook_name
                    &&& r.route == d.record.route
                    &&& r.content_hash == d.record.content_hash
                    &&& r.reactions == d.record.reactions
                    &&& r.comment_count == d.record.comment_count
                    &&& r.image_urls == d.record.image_urls
                    &&& r.discord_msg_id == discord_msg_id
                    &&& r.latency_ms == live::latency_for(discord_msg_id, d.date)
                }
            },
            deliver::PostResultView::Dropped { .. } => {
                &&& fate_for(result) is Dropped
                &&& media_record_after(post, target, result, as_it_came) is None
                &&& text_record_after(d, result) is None
            },
        },
{
}

/// A count says how many targets have a fate.
pub proof fn lemma_counts(fates: Seq<Fate>, f: Fate)
    ensures
        count_of(fates, f) == fates.filter(|x: Fate| x == f).len(),
    decreases fates.len(),
{
    reveal(Seq::filter);
    if fates.len() > 0 {
        lemma_counts(fates.drop_last(), f);
    }
}

/// A target is passed over exactly where the message already stands in its place; else it
/// counts as posted if there is something to record, and as dropped if there is not.
pub proof fn lemma_fates(rows: Seq<store::RowView>, a: AttemptView)
    ensures
        fate_of(rows, a) == Fate::Skipped <==> exists|i: int|
            0 <= i < rows.len() && (#[trigger] rows[i]).chat_id == a.chat_id && rows[i].tg_msg_id
                == a.msg_id && rows[i].webhook_name == a.webhook,
        fate_of(rows, a) == Fate::Posted ==> a.record is Some,
        fate_of(rows, a) == Fate::Dropped ==> a.record is None,
{
}

} // verus!
