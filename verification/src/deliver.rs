//! Delivery to Discord: what is sent, when it is sent again, and what is made of the
//! answers. The requests themselves are made by the caller.

use vstd::prelude::*;
use vstd::string::*;

use crate::json;
use crate::render;
use crate::text;

verus! {

/// How long, in nanoseconds, rate limits may hold up one request in all.
pub const RATE_LIMIT_BUDGET: u64 = 60_000_000_000;

/// The rate limit that is one too many.
pub const MAX_429_ATTEMPTS: usize = 20;

/// How long to wait, in nanoseconds, where a rate limit does not say.
pub const DEFAULT_RETRY_AFTER: u64 = 1_000_000_000;

/// How long to wait, in nanoseconds, after each failure of the server or the network.
pub const BACKOFFS: [u64; 3] = [250_000_000, 1_000_000_000, 4_000_000_000];

/// What became of a delivery.
#[derive(Debug)]
pub enum Outcome {
    Delivered,
    Dropped { reason: String },
}

pub enum OutcomeView {
    Delivered,
    Dropped { reason: Seq<char> },
}

impl DeepView for Outcome {
    type V = OutcomeView;

    open spec fn deep_view(&self) -> OutcomeView {
        match self {
            Outcome::Delivered => OutcomeView::Delivered,
            Outcome::Dropped { reason } => OutcomeView::Dropped { reason: reason@ },
        }
    }
}

/// What became of a post, with what is needed to change it later: its id, and the
/// addresses under which Discord serves the attached media.
#[derive(Debug)]
pub enum PostResult {
    Delivered { discord_msg_id: String, image_urls: Vec<String> },
    Dropped { reason: String },
}

pub enum PostResultView {
    Delivered { discord_msg_id: Seq<char>, image_urls: Seq<Seq<char>> },
    Dropped { reason: Seq<char> },
}

impl DeepView for PostResult {
    type V = PostResultView;

    open spec fn deep_view(&self) -> PostResultView {
        match self {
            PostResult::Delivered { discord_msg_id, image_urls } => PostResultView::Delivered {
                discord_msg_id: discord_msg_id@,
                image_urls: image_urls.deep_view(),
            },
            PostResult::Dropped { reason } => PostResultView::Dropped { reason: reason@ },
        }
    }
}

/// The answer to one request.
pub enum Reply {
    /// A response: its code, the code in words, the body, and how long a rate limit asks
    /// to wait, in nanoseconds.
    Response { code: u16, status: String, body: String, retry_after: Option<u64> },
    /// No response: what went wrong, without the address.
    Network(String),
}

pub enum ReplyView {
    Response { code: u16, status: Seq<char>, body: Seq<char>, retry_after: Option<u64> },
    Network(Seq<char>),
}

impl DeepView for Reply {
    type V = ReplyView;

    open spec fn deep_view(&self) -> ReplyView {
        match self {
            Reply::Response { code, status, body, retry_after } => ReplyView::Response {
                code: *code,
                status: status@,
                body: body@,
                retry_after: *retry_after,
            },
            Reply::Network(e) => ReplyView::Network(e@),
        }
    }
}

/// Whether a message has files attached.
#[derive(Clone, Copy, PartialEq, Eq, Structural)]
pub enum Lane {
    Plain,
    Media,
}

/// What one message has been through so far.
#[derive(Clone, Copy)]
pub struct Attempts {
    /// Failures of the server or the network that were waited out.
    pub failures: usize,
    /// Rate limits that were met.
    pub rate_limits: usize,
    /// Nanoseconds that rate limits have taken.
    pub waited: u64,
}

impl Attempts {
    /// Nothing so far.
    pub fn new() -> (r: Self)
        ensures
            r == first_attempt(),
    {
        Attempts { failures: 0, rate_limits: 0, waited: 0 }
    }

    /// The bounds that every message keeps.
    pub open spec fn within_bounds(self) -> bool {
        &&& self.failures <= 3
        &&& self.rate_limits < MAX_429_ATTEMPTS
        &&& self.waited <= RATE_LIMIT_BUDGET
    }
}

pub open spec fn first_attempt() -> Attempts {
    Attempts { failures: 0, rate_limits: 0, waited: 0 }
}

/// What to do after an answer.
pub enum Step {
    /// Delivered; this is the body of the response.
    Done(String),
    /// Dropped, for this reason.
    GiveUp(String),
    /// Send it again after so many nanoseconds.
    Retry(u64),
}

pub enum StepView {
    Done(Seq<char>),
    GiveUp(Seq<char>),
    Retry(u64),
}

impl DeepView for Step {
    type V = StepView;

    open spec fn deep_view(&self) -> StepView {
        match self {
            Step::Done(s) => StepView::Done(s@),
            Step::GiveUp(s) => StepView::GiveUp(s@),
            Step::Retry(n) => StepView::Retry(*n),
        }
    }
}

pub open spec fn is_success(code: u16) -> bool {
    200 <= code < 300
}

pub open spec fn is_server_error(code: u16) -> bool {
    500 <= code < 600
}

/// How long a rate limit asks to wait.
pub open spec fn asked_wait(retry_after: Option<u64>) -> u64 {
    match retry_after {
        Some(n) => n,
        None => DEFAULT_RETRY_AFTER,
    }
}

/// The word that marks the reasons of media messages.
pub open spec fn lane_mark(lane: Lane) -> Seq<char> {
    match lane {
        Lane::Plain => Seq::empty(),
        Lane::Media => "media "@,
    }
}

/// What a failure of the server or the network leads to: a longer wait each time, and
/// giving up in the end.
pub open spec fn after_failure(a: Attempts, reason: Seq<char>) -> (Attempts, StepView) {
    if a.failures >= 3 {
        (a, StepView::GiveUp(reason))
    } else {
        (
            Attempts { failures: (a.failures + 1) as usize, ..a },
            StepView::Retry(BACKOFFS@[a.failures as int]),
        )
    }
}

/// What an answer leads to. Rate limits are waited out as asked, within a number of
/// times and a time in all; they use up none of the retries for failures. Every other
/// refusal is final.
pub open spec fn after_reply(a: Attempts, lane: Lane, reply: ReplyView) -> (Attempts, StepView) {
    match reply {
        ReplyView::Response { code, status, body, retry_after } => if is_success(code) {
            (a, StepView::Done(body))
        } else if code == 429 {
            let b = Attempts { rate_limits: (a.rate_limits + 1) as usize, ..a };
            let wait = asked_wait(retry_after);
            if b.rate_limits >= MAX_429_ATTEMPTS {
                (b, StepView::GiveUp(lane_mark(lane) + "rate limited beyond 20 attempts"@))
            } else if a.waited + wait > RATE_LIMIT_BUDGET {
                (b, StepView::GiveUp(lane_mark(lane) + "rate limited beyond 60.0s budget"@))
            } else {
                (Attempts { waited: (a.waited + wait) as u64, ..b }, StepView::Retry(wait))
            }
        } else if is_server_error(code) {
            after_failure(a, lane_mark(lane) + "5xx after retries: "@ + status)
        } else {
            (
                a,
                StepView::GiveUp(
                    match lane {
                        Lane::Plain => status + ": "@ + body,
                        Lane::Media => "media upload failed: "@ + status + ": "@ + body,
                    },
                ),
            )
        },
        ReplyView::Network(e) => after_failure(
            a,
            match lane {
                Lane::Plain => "network: "@ + e,
                Lane::Media => "media upload network: "@ + e,
            },
        ),
    }
}

/// The state of a message after some answers that all led to another try; nothing where
/// one of them did not.
pub open spec fn after_replies(lane: Lane, replies: Seq<ReplyView>) -> Option<Attempts>
    decreases replies.len(),
{
    if replies.len() == 0 {
        Some(first_attempt())
    } else {
        match after_replies(lane, replies.drop_last()) {
            None => None,
            Some(a) => match after_reply(a, lane, replies.last()) {
                (b, StepView::Retry(_)) => Some(b),
                _ => None,
            },
        }
    }
}

/// Trying again comes to an end: a message is sent at most 23 times, at most three of
/// the answers in between are failures, and rate limits take no more than the budget.
pub proof fn lemma_retries_end(lane: Lane, replies: Seq<ReplyView>)
    ensures
        match after_replies(lane, replies) {
            Some(a) => {
                &&& a.within_bounds()
                &&& a.failures + a.rate_limits == replies.len()
                &&& replies.len() <= 22
            },
            None => true,
        },
    decreases replies.len(),
{
    if replies.len() > 0 {
        lemma_retries_end(lane, replies.drop_last());
    }
}

/// Answers that are all rate limits of no duration are taken twenty times and no more.
pub proof fn lemma_rate_limit_count(lane: Lane, replies: Seq<ReplyView>)
    requires
        forall|i: int|
            0 <= i < replies.len() ==> ((#[trigger] replies[i]) matches ReplyView::Response {
                code,
                retry_after,
                ..
            } && code == 429 && retry_after == Some(0u64)),
    ensures
        after_replies(lane, replies) is Some <==> replies.len() < MAX_429_ATTEMPTS,
        after_replies(lane, replies) matches Some(a) ==> a == (Attempts {
            failures: 0,
            rate_limits: replies.len() as usize,
            waited: 0,
        }),
    decreases replies.len(),
{
    if replies.len() > 0 {
        let init = replies.drop_last();
        assert forall|i: int| 0 <= i < init.len() implies ((#[trigger] init[i]) matches ReplyView::Response {
            code,
            retry_after,
            ..
        } && code == 429 && retry_after == Some(0u64)) by {
            assert(init[i] == replies[i]);
        }
        lemma_rate_limit_count(lane, init);
        let last = replies[replies.len() - 1];
        assert(last == replies.last());
    }
}

fn mark(lane: Lane, rest: &str) -> (r: String)
    ensures
        r@ == lane_mark(lane) + rest@,
{
    let mut out: String = match lane {
        Lane::Plain => String::new(),
        Lane::Media => "media ".to_owned(),
    };
    out.append(rest);
    out
}

fn try_again(a: &mut Attempts, reason: String) -> (r: Step)
    requires
        old(a).failures < usize::MAX,
    ensures
        (*final(a), r.deep_view()) == after_failure(*old(a), reason@),
{
    if a.failures >= 3 {
        Step::GiveUp(reason)
    } else {
        let wait: u64 = BACKOFFS[a.failures];
        a.failures = a.failures + 1;
        Step::Retry(wait)
    }
}

/// Decide what an answer to a message leads to.
pub fn next_step(a: &mut Attempts, lane: Lane, reply: &Reply) -> (r: Step)
    requires
        old(a).within_bounds(),
    ensures
        (*final(a), r.deep_view()) == after_reply(*old(a), lane, reply.deep_view()),
        r is Retry ==> final(a).within_bounds(),
{
    match reply {
        Reply::Response { code, status, body, retry_after } => {
            if 200 <= *code && *code < 300 {
                Step::Done(body.clone())
            } else if *code == 429 {
                let wait: u64 = match retry_after {
                    Some(n) => *n,
                    None => DEFAULT_RETRY_AFTER,
                };
                a.rate_limits = a.rate_limits + 1;
                if a.rate_limits >= MAX_429_ATTEMPTS {
                    Step::GiveUp(mark(lane, "rate limited beyond 20 attempts"))
                } else if wait > RATE_LIMIT_BUDGET - a.waited {
                    Step::GiveUp(mark(lane, "rate limited beyond 60.0s budget"))
                } else {
                    a.waited = a.waited + wait;
                    Step::Retry(wait)
                }
            } else if 500 <= *code && *code < 600 {
                let mut reason: String = mark(lane, "5xx after retries: ");
                reason.append(status.as_str());
                try_again(a, reason)
            } else {
                let mut reason: String = match lane {
                    Lane::Plain => String::new(),
                    Lane::Media => "media upload failed: ".to_owned(),
                };
                reason.append(status.as_str());
                reason.append(": ");
                reason.append(body.as_str());
                assert(lane == Lane::Plain ==> reason@ =~= status@ + ": "@ + body@);
                Step::GiveUp(reason)
            }
        },
        Reply::Network(e) => {
            let mut reason: String = match lane {
                Lane::Plain => "network: ".to_owned(),
                Lane::Media => "media upload network: ".to_owned(),
            };
            reason.append(e.as_str());
            try_again(a, reason)
        },
    }
}

/// What a change is made to.
#[derive(Clone, Copy, PartialEq, Eq, Structural)]
pub enum PatchOf {
    /// A message.
    Message,
    /// The webhook itself.
    Webhook,
}

/// What to do after an answer to a change.
pub enum PatchStep {
    Finished(Outcome),
    /// Send it once more after so many nanoseconds.
    RetryOnce(u64),
}

pub enum PatchStepView {
    Finished(OutcomeView),
    RetryOnce(u64),
}

impl DeepView for PatchStep {
    type V = PatchStepView;

    open spec fn deep_view(&self) -> PatchStepView {
        match self {
            PatchStep::Finished(o) => PatchStepView::Finished(o.deep_view()),
            PatchStep::RetryOnce(n) => PatchStepView::RetryOnce(*n),
        }
    }
}

/// The words with which the reasons of a change begin.
pub open spec fn patch_mark(of: PatchOf) -> Seq<char> {
    match of {
        PatchOf::Message => "patch "@,
        PatchOf::Webhook => "webhook patch "@,
    }
}

/// What an answer to a change leads to: one rate limit is waited out, everything else
/// is final.
pub open spec fn after_patch(of: PatchOf, retried: bool, reply: ReplyView) -> PatchStepView {
    match reply {
        ReplyView::Response { code, status, body, retry_after } => if is_success(code) {
            PatchStepView::Finished(OutcomeView::Delivered)
        } else if retried {
            PatchStepView::Finished(
                OutcomeView::Dropped {
                    reason: patch_mark(of) + "failed after 429 retry: "@ + status,
                },
            )
        } else if code == 429 {
            PatchStepView::RetryOnce(asked_wait(retry_after))
        } else {
            PatchStepView::Finished(
                OutcomeView::Dropped {
                    reason: patch_mark(of) + "failed: "@ + status + ": "@ + body,
                },
            )
        },
        ReplyView::Network(e) => PatchStepView::Finished(
            OutcomeView::Dropped { reason: patch_mark(of) + "network: "@ + e },
        ),
    }
}

/// A change is sent at most twice.
pub proof fn lemma_patch_ends(of: PatchOf, reply: ReplyView)
    ensures
        after_patch(of, true, reply) is Finished,
{
}

/// Decide what an answer to a change leads to.
pub fn next_patch_step(of: PatchOf, retried: bool, reply: &Reply) -> (r: PatchStep)
    ensures
        r.deep_view() == after_patch(of, retried, reply.deep_view()),
{
    let mut reason: String = match of {
        PatchOf::Message => "patch ".to_owned(),
        PatchOf::Webhook => "webhook patch ".to_owned(),
    };
    match reply {
        Reply::Response { code, status, body, retry_after } => {
            if 200 <= *code && *code < 300 {
                PatchStep::Finished(Outcome::Delivered)
            } else if retried {
                reason.append("failed after 429 retry: ");
                reason.append(status.as_str());
                PatchStep::Finished(Outcome::Dropped { reason })
            } else if *code == 429 {
                PatchStep::RetryOnce(
                    match retry_after {
                        Some(n) => *n,
                        None => DEFAULT_RETRY_AFTER,
                    },
                )
            } else {
                reason.append("failed: ");
                reason.append(status.as_str());
                reason.append(": ");
                reason.append(body.as_str());
                PatchStep::Finished(Outcome::Dropped { reason })
            }
        },
        Reply::Network(e) => {
            reason.append("network: ");
            reason.append(e.as_str());
            PatchStep::Finished(Outcome::Dropped { reason })
        },
    }
}

/// What the answer to a single upload comes to.
pub open spec fn upload_outcome_of(reply: ReplyView) -> OutcomeView {
    match reply {
        ReplyView::Response { code, status, body, .. } => if is_success(code) {
            OutcomeView::Delivered
        } else {
            OutcomeView::Dropped { reason: "upload failed: "@ + status + ": "@ + body }
        },
        ReplyView::Network(e) => OutcomeView::Dropped { reason: "upload network: "@ + e },
    }
}

/// The outcome of a single upload, which is not tried again.
pub fn upload_outcome(reply: &Reply) -> (r: Outcome)
    ensures
        r.deep_view() == upload_outcome_of(reply.deep_view()),
{
    match reply {
        Reply::Response { code, status, body, .. } => {
            if 200 <= *code && *code < 300 {
                Outcome::Delivered
            } else {
                let mut reason: String = "upload failed: ".to_owned();
                reason.append(status.as_str());
                reason.append(": ");
                reason.append(body.as_str());
                Outcome::Dropped { reason }
            }
        },
        Reply::Network(e) => {
            let mut reason: String = "upload network: ".to_owned();
            reason.append(e.as_str());
            Outcome::Dropped { reason }
        },
    }
}

/// The `id` of a message.
pub open spec fn message_id(j: json::Json) -> Option<Seq<char>> {
    json::as_text(json::member(j, "id"@))
}

/// The `id` of a message, where it is a text.
pub fn message_id_of(v: &serde_json::Value) -> (r: Option<String>)
    ensures
        r.deep_view() == message_id(json::json_of(*v)),
{
    match json::get(v, "id") {
        Some(m) => match json::str_of(m) {
            Some(s) => Some(s.to_owned()),
            None => None,
        },
        None => None,
    }
}

/// The `id` of the message that a response describes.
pub fn parse_message_id(response: &str) -> (r: Option<String>)
    ensures
        r.deep_view() == (match json::parsed(response@) {
            Some(j) => message_id(j),
            None => None,
        }),
{
    match json::parse(response) {
        Some(v) => message_id_of(&v),
        None => None,
    }
}

/// The address of the image of an embed.
pub open spec fn embed_image_url(e: json::Json) -> Option<Seq<char>> {
    match json::member(e, "image"@) {
        Some(i) => json::as_text(json::member(i, "url"@)),
        None => None,
    }
}

/// The address of an attachment.
pub open spec fn attachment_url(a: json::Json) -> Option<Seq<char>> {
    json::as_text(json::member(a, "url"@))
}

/// The addresses of the images of some embeds, in their order.
pub open spec fn embed_image_urls(l: Seq<json::Json>) -> Seq<Seq<char>>
    decreases l.len(),
{
    if l.len() == 0 {
        Seq::empty()
    } else {
        match embed_image_url(l.last()) {
            Some(u) => embed_image_urls(l.drop_last()).push(u),
            None => embed_image_urls(l.drop_last()),
        }
    }
}

/// The addresses of some attachments, in their order.
pub open spec fn attachment_urls(l: Seq<json::Json>) -> Seq<Seq<char>>
    decreases l.len(),
{
    if l.len() == 0 {
        Seq::empty()
    } else {
        match attachment_url(l.last()) {
            Some(u) => attachment_urls(l.drop_last()).push(u),
            None => attachment_urls(l.drop_last()),
        }
    }
}

/// A list without repetitions: what came first stays.
pub open spec fn distinct(l: Seq<Seq<char>>) -> Seq<Seq<char>>
    decreases l.len(),
{
    if l.len() == 0 {
        Seq::empty()
    } else if distinct(l.drop_last()).contains(l.last()) {
        distinct(l.drop_last())
    } else {
        distinct(l.drop_last()).push(l.last())
    }
}

/// Removing repetitions leaves each element once and loses none.
pub proof fn lemma_distinct(l: Seq<Seq<char>>)
    ensures
        distinct(l).no_duplicates(),
        forall|u: Seq<char>| #[trigger] distinct(l).contains(u) <==> l.contains(u),
    decreases l.len(),
{
    if l.len() > 0 {
        let init = l.drop_last();
        let d = distinct(init);
        lemma_distinct(init);
        assert forall|u: Seq<char>| #[trigger] distinct(l).contains(u) <==> l.contains(u) by {
            if l.contains(u) {
                let i = choose|i: int| 0 <= i < l.len() && l[i] == u;
                if i < l.len() - 1 {
                    assert(init[i] == u);
                    assert(init.contains(u));
                    assert(d.contains(u));
                }
                if distinct(l) != d {
                    let q = d.push(l.last());
                    if d.contains(u) {
                        let k = choose|k: int| 0 <= k < d.len() && d[k] == u;
                        assert(q[k] == u);
                    } else {
                        assert(q[d.len() as int] == u);
                    }
                }
            }
            if distinct(l).contains(u) {
                if !d.contains(u) {
                    assert(u == l.last()) by {
                        let k = choose|k: int| 0 <= k < distinct(l).len() && distinct(l)[k] == u;
                        if k < d.len() {
                            assert(d[k] == u);
                        }
                    }
                    assert(l[l.len() - 1] == u);
                } else {
                    assert(init.contains(u));
                    let k = choose|k: int| 0 <= k < init.len() && init[k] == u;
                    assert(l[k] == u);
                }
            }
        }
        if !d.contains(l.last()) {
            let q = d.push(l.last());
            assert forall|i: int, j: int| 0 <= i < q.len() && 0 <= j < q.len() && i != j implies q[i]
                != q[j] by {
                if i < d.len() && j == d.len() {
                    assert(d.contains(q[i]));
                } else if j < d.len() && i == d.len() {
                    assert(d.contains(q[j]));
                }
            }
        }
    }
}

/// The addresses of everything that is attached to a message. Discord shows images
/// inside embeds and serves them there; all other files stay attachments.
pub open spec fn media_urls(j: json::Json) -> Seq<Seq<char>> {
    let images = match json::as_list(json::member(j, "embeds"@)) {
        Some(l) => embed_image_urls(l),
        None => Seq::empty(),
    };
    let files = match json::as_list(json::member(j, "attachments"@)) {
        Some(l) => attachment_urls(l),
        None => Seq::empty(),
    };
    distinct(images + files)
}

fn collect_embed_images(l: &Vec<serde_json::Value>, out: &mut Vec<String>)
    ensures
        final(out).deep_view() == old(out).deep_view() + embed_image_urls(json::jsons(l@)),
{
    let ghost before = out.deep_view();
    let ghost js = json::jsons(l@);
    let mut i: usize = 0;
    assert(js.take(0) =~= Seq::<json::Json>::empty());
    assert(out.deep_view() =~= before + embed_image_urls(js.take(0)));
    while i < l.len()
        invariant
            js == json::jsons(l@),
            i <= js.len(),
            out.deep_view() == before + embed_image_urls(js.take(i as int)),
        decreases js.len() - i,
    {
        let ghost now = out.deep_view();
        assert(js.take(i + 1).drop_last() =~= js.take(i as int));
        assert(js.take(i + 1).last() == json::json_of(l@[i as int]));
        match json::get(&l[i], "image") {
            Some(image) => match json::get(image, "url") {
                Some(u) => match json::str_of(u) {
                    Some(s) => {
                        out.push(s.to_owned());
                        assert(out.deep_view() =~= now.push(s@));
                        assert(out.deep_view() =~= before + embed_image_urls(js.take(i + 1)));
                    },
                    None => {},
                },
                None => {},
            },
            None => {},
        }
        i = i + 1;
    }
    assert(js.take(js.len() as int) =~= js);
}

fn collect_attachments(l: &Vec<serde_json::Value>, out: &mut Vec<String>)
    ensures
        final(out).deep_view() == old(out).deep_view() + attachment_urls(json::jsons(l@)),
{
    let ghost before = out.deep_view();
    let ghost js = json::jsons(l@);
    let mut i: usize = 0;
    assert(js.take(0) =~= Seq::<json::Json>::empty());
    assert(out.deep_view() =~= before + attachment_urls(js.take(0)));
    while i < l.len()
        invariant
            js == json::jsons(l@),
            i <= js.len(),
            out.deep_view() == before + attachment_urls(js.take(i as int)),
        decreases js.len() - i,
    {
        let ghost now = out.deep_view();
        assert(js.take(i + 1).drop_last() =~= js.take(i as int));
        assert(js.take(i + 1).last() == json::json_of(l@[i as int]));
        match json::get(&l[i], "url") {
            Some(u) => match json::str_of(u) {
                Some(s) => {
                    out.push(s.to_owned());
                    assert(out.deep_view() =~= now.push(s@));
                    assert(out.deep_view() =~= before + attachment_urls(js.take(i + 1)));
                },
                None => {},
            },
            None => {},
        }
        i = i + 1;
    }
    assert(js.take(js.len() as int) =~= js);
}

/// Whether a text stands in a list.
pub fn listed(list: &Vec<String>, s: &str) -> (r: bool)
    ensures
        r == list.deep_view().contains(s@),
{
    let ghost l = list.deep_view();
    let mut i: usize = 0;
    while i < list.len()
        invariant
            l == list.deep_view(),
            i <= l.len(),
            forall|j: int| 0 <= j < i ==> #[trigger] l[j] != s@,
        decreases l.len() - i,
    {
        if text::same_text(list[i].as_str(), s) {
            assert(l[i as int] == s@);
            return true;
        }
        i = i + 1;
    }
    false
}

fn without_repetitions(v: &Vec<String>) -> (r: Vec<String>)
    ensures
        r.deep_view() == distinct(v.deep_view()),
{
    let ghost l = v.deep_view();
    let mut out: Vec<String> = Vec::new();
    let mut i: usize = 0;
    assert(l.take(0) =~= Seq::<Seq<char>>::empty());
    assert(out.deep_view() =~= distinct(l.take(0)));
    while i < v.len()
        invariant
            l == v.deep_view(),
            i <= l.len(),
            out.deep_view() == distinct(l.take(i as int)),
        decreases l.len() - i,
    {
        let ghost now = out.deep_view();
        assert(l.take(i + 1).drop_last() =~= l.take(i as int));
        assert(l.take(i + 1).last() == v@[i as int]@);
        if !listed(&out, v[i].as_str()) {
            out.push(v[i].clone());
            assert(out.deep_view() =~= now.push(v@[i as int]@));
        }
        i = i + 1;
    }
    assert(l.take(l.len() as int) =~= l);
    out
}

/// The addresses of everything that is attached to a message.
pub fn media_urls_of(v: &serde_json::Value) -> (r: Vec<String>)
    ensures
        r.deep_view() == media_urls(json::json_of(*v)),
{
    let ghost j = json::json_of(*v);
    let mut all: Vec<String> = Vec::new();
    assert(all.deep_view() =~= Seq::<Seq<char>>::empty());
    match json::get(v, "embeds") {
        Some(e) => match json::list_of(e) {
            Some(l) => {
                collect_embed_images(l, &mut all);
            },
            None => {},
        },
        None => {},
    }
    let ghost images = match json::as_list(json::member(j, "embeds"@)) {
        Some(l) => embed_image_urls(l),
        None => Seq::empty(),
    };
    assert(all.deep_view() =~= images);
    match json::get(v, "attachments") {
        Some(a) => match json::list_of(a) {
            Some(l) => {
                collect_attachments(l, &mut all);
            },
            None => {},
        },
        None => {},
    }
    let ghost files = match json::as_list(json::member(j, "attachments"@)) {
        Some(l) => attachment_urls(l),
        None => Seq::empty(),
    };
    assert(all.deep_view() =~= images + files);
    without_repetitions(&all)
}

/// The addresses of everything that is attached to the message that a response
/// describes, so that a later change can keep it.
pub fn parse_delivered_media_urls(response: &str) -> (r: Vec<String>)
    ensures
        r.deep_view() == (match json::parsed(response@) {
            Some(j) => media_urls(j),
            None => Seq::empty(),
        }),
{
    match json::parse(response) {
        Some(v) => media_urls_of(&v),
        None => {
            let none: Vec<String> = Vec::new();
            assert(none.deep_view() =~= Seq::<Seq<char>>::empty());
            none
        },
    }
}

/// What a response of a delivered message comes to: it counts as delivered only if it
/// names the message.
pub open spec fn post_result_of(
    lane: Lane,
    response: Seq<char>,
    parsed: Option<json::Json>,
) -> PostResultView {
    match parsed {
        Some(j) if message_id(j) is Some => PostResultView::Delivered {
            discord_msg_id: message_id(j)->0,
            image_urls: match lane {
                Lane::Plain => Seq::empty(),
                Lane::Media => media_urls(j),
            },
        },
        _ => PostResultView::Dropped {
            reason: match lane {
                Lane::Plain => "no message id in response: "@ + response,
                Lane::Media => "no message id in media response: "@ + response,
            },
        },
    }
}

/// The result of a delivered message, from the response and what it says as JSON.
pub fn read_response(lane: Lane, response: &str, parsed: Option<&serde_json::Value>) -> (r: PostResult)
    ensures
        r.deep_view() == post_result_of(
            lane,
            response@,
            match parsed {
                Some(v) => Some(json::json_of(*v)),
                None => None,
            },
        ),
{
    let id: Option<String> = match parsed {
        Some(v) => message_id_of(v),
        None => None,
    };
    match (id, parsed) {
        (Some(discord_msg_id), Some(v)) => {
            let image_urls: Vec<String> = match lane {
                Lane::Plain => {
                    let none: Vec<String> = Vec::new();
                    assert(none.deep_view() =~= Seq::<Seq<char>>::empty());
                    none
                },
                Lane::Media => media_urls_of(v),
            };
            PostResult::Delivered { discord_msg_id, image_urls }
        },
        _ => {
            let mut reason: String = match lane {
                Lane::Plain => "no message id in response: ".to_owned(),
                Lane::Media => "no message id in media response: ".to_owned(),
            };
            reason.append(response);
            PostResult::Dropped { reason }
        },
    }
}

/// The result of a delivered message, from the body of the response.
pub fn post_result(lane: Lane, response: &str) -> (r: PostResult)
    ensures
        r.deep_view() == post_result_of(lane, response@, json::parsed(response@)),
{
    match json::parse(response) {
        Some(v) => read_response(lane, response, Some(&v)),
        None => read_response(lane, response, None),
    }
}

/// The address to which a message is posted such that Discord answers with it.
pub fn post_target(url: &str) -> (r: String)
    ensures
        r@ == url@ + "?wait=true"@,
{
    let mut out: String = url.to_owned();
    out.append("?wait=true");
    out
}

/// The address of a message that was posted.
pub fn message_target(url: &str, discord_msg_id: &str) -> (r: String)
    ensures
        r@ == url@ + "/messages/"@ + discord_msg_id@,
{
    let mut out: String = url.to_owned();
    out.append("/messages/");
    out.append(discord_msg_id);
    out
}

/// The members that keep a message from notifying anyone: Discord looks for no mentions
/// in it.
pub open spec fn no_mentions() -> json::Json {
    json::Json::Object(Map::empty().insert("parse"@, json::Json::List(Seq::empty())))
}

fn no_mentions_value() -> (r: serde_json::Value)
    ensures
        json::json_of(r) == no_mentions(),
{
    let mut v: serde_json::Value = json::object();
    let none: Vec<serde_json::Value> = Vec::new();
    assert(json::jsons(none@) =~= Seq::<json::Json>::empty());
    json::put(&mut v, "parse", json::list(none));
    v
}

/// The members of a plain message.
pub open spec fn text_payload_of(username: Seq<char>, content: Seq<char>) -> Map<Seq<char>, json::Json> {
    Map::empty().insert("content"@, json::Json::Text(content)).insert(
        "username"@,
        json::Json::Text(username),
    ).insert("allowed_mentions"@, no_mentions())
}

/// The body of a plain message.
pub fn text_payload(username: &str, content: &str) -> (r: serde_json::Value)
    ensures
        json::json_of(r) == json::Json::Object(text_payload_of(username@, content@)),
{
    let mut v: serde_json::Value = json::object();
    json::put(&mut v, "content", json::text(content));
    json::put(&mut v, "username", json::text(username));
    json::put(&mut v, "allowed_mentions", no_mentions_value());
    v
}

/// The members of a message with embeds; plain content beside them is optional.
pub open spec fn embed_payload_of(
    username: Seq<char>,
    embeds: Seq<render::EmbedView>,
    content: Option<Seq<char>>,
) -> Map<Seq<char>, json::Json> {
    render::with_member(
        Map::empty().insert("embeds"@, render::embeds_json_of(embeds)).insert(
            "username"@,
            json::Json::Text(username),
        ).insert("allowed_mentions"@, no_mentions()),
        "content"@,
        render::text_member(content),
    )
}

/// The body of a message with embeds.
pub fn embed_payload(username: &str, embeds: &Vec<render::Embed>, content: Option<&str>) -> (r:
    serde_json::Value)
    ensures
        json::json_of(r) == json::Json::Object(
            embed_payload_of(
                username@,
                embeds.deep_view(),
                match content {
                    Some(c) => Some(c@),
                    None => None,
                },
            ),
        ),
{
    let mut v: serde_json::Value = json::object();
    json::put(&mut v, "embeds", render::embeds_json(embeds));
    json::put(&mut v, "username", json::text(username));
    json::put(&mut v, "allowed_mentions", no_mentions_value());
    match content {
        Some(c) => {
            json::put(&mut v, "content", json::text(c));
        },
        None => {},
    }
    v
}

/// The entry that declares the `i`-th uploaded file.
pub open spec fn upload_entry(i: int, filename: Seq<char>) -> json::Json {
    json::Json::Object(
        Map::empty().insert("id"@, json::Json::Nat(i as nat)).insert(
            "filename"@,
            json::Json::Text(filename),
        ),
    )
}

/// The entries that declare the uploaded files. Each carries the index under which the
/// file is sent, without which Discord ignores the file.
pub open spec fn upload_entries(filenames: Seq<Seq<char>>) -> json::Json {
    json::Json::List(Seq::new(filenames.len(), |i: int| upload_entry(i, filenames[i])))
}

/// The members of a message with embeds and files.
pub open spec fn media_payload_of(
    username: Seq<char>,
    embeds: Seq<render::EmbedView>,
    filenames: Seq<Seq<char>>,
    content: Option<Seq<char>>,
) -> Map<Seq<char>, json::Json> {
    render::with_member(
        Map::empty().insert("username"@, json::Json::Text(username)).insert(
            "embeds"@,
            render::embeds_json_of(embeds),
        ).insert("allowed_mentions"@, no_mentions()).insert(
            "attachments"@,
            upload_entries(filenames),
        ),
        "content"@,
        render::text_member(content),
    )
}

/// The names of some files.
pub open spec fn file_names(files: Seq<(Seq<char>, Seq<u8>)>) -> Seq<Seq<char>> {
    files.map_values(|f: (Seq<char>, Seq<u8>)| f.0)
}

/// The JSON part of a message with embeds and files.
pub fn media_payload(
    username: &str,
    embeds: &Vec<render::Embed>,
    files: &Vec<(String, Vec<u8>)>,
    content: Option<&str>,
) -> (r: serde_json::Value)
    ensures
        json::json_of(r) == json::Json::Object(
            media_payload_of(
                username@,
                embeds.deep_view(),
                file_names(files.deep_view()),
                match content {
                    Some(c) => Some(c@),
                    None => None,
                },
            ),
        ),
{
    let ghost names = file_names(files.deep_view());
    let mut entries: Vec<serde_json::Value> = Vec::new();
    let mut i: usize = 0;
    while i < files.len()
        invariant
            names == file_names(files.deep_view()),
            i <= files@.len(),
            entries@.len() == i,
            forall|j: int|
                0 <= j < i ==> json::json_of(#[trigger] entries@[j]) == upload_entry(j, names[j]),
        decreases files@.len() - i,
    {
        let mut e: serde_json::Value = json::object();
        json::put(&mut e, "id", json::number(i as u64));
        json::put(&mut e, "filename", json::text(files[i].0.as_str()));
        assert(names[i as int] == files@[i as int].0@);
        entries.push(e);
        i = i + 1;
    }
    assert(json::jsons(entries@) =~= Seq::new(names.len(), |i: int| upload_entry(i, names[i])));
    let mut v: serde_json::Value = json::object();
    json::put(&mut v, "username", json::text(username));
    json::put(&mut v, "embeds", render::embeds_json(embeds));
    json::put(&mut v, "allowed_mentions", no_mentions_value());
    json::put(&mut v, "attachments", json::list(entries));
    match content {
        Some(c) => {
            json::put(&mut v, "content", json::text(c));
        },
        None => {},
    }
    v
}

/// The part of a message with files that holds the JSON.
pub const PAYLOAD_PART: &'static str = "payload_json";

/// The part of a message that holds the file with this number. The JSON part names the file
/// under the same number.
pub fn part_name(i: usize) -> (r: String)
    ensures
        r@ == "files["@ + text::decimal(i as int) + "]"@,
{
    let mut out: String = "files[".to_owned();
    text::push_nat(&mut out, i as u64);
    out.append("]");
    out
}

/// The members of the JSON part of a single upload.
pub open spec fn file_payload_of(username: Seq<char>) -> Map<Seq<char>, json::Json> {
    Map::empty().insert("username"@, json::Json::Text(username)).insert(
        "allowed_mentions"@,
        no_mentions(),
    )
}

/// The JSON part of a single upload.
pub fn file_payload(username: &str) -> (r: serde_json::Value)
    ensures
        json::json_of(r) == json::Json::Object(file_payload_of(username@)),
{
    let mut v: serde_json::Value = json::object();
    json::put(&mut v, "username", json::text(username));
    json::put(&mut v, "allowed_mentions", no_mentions_value());
    v
}

/// The entry that keeps an attachment: its id and its name.
pub open spec fn keep_entry(a: (Seq<char>, Seq<char>)) -> json::Json {
    json::Json::Object(
        Map::empty().insert("id"@, json::Json::Text(a.0)).insert(
            "filename"@,
            json::Json::Text(a.1),
        ),
    )
}

/// The members of a change of a message. Discord deletes every attachment that the
/// change does not list.
pub open spec fn patch_payload_of(
    embeds: Seq<render::EmbedView>,
    keep: Seq<(Seq<char>, Seq<char>)>,
) -> Map<Seq<char>, json::Json> {
    Map::empty().insert("embeds"@, render::embeds_json_of(embeds)).insert(
        "allowed_mentions"@,
        no_mentions(),
    ).insert(
        "attachments"@,
        json::Json::List(keep.map_values(|a: (Seq<char>, Seq<char>)| keep_entry(a))),
    )
}

/// The body of a change of a message, which keeps the listed attachments.
pub fn patch_payload(embeds: &Vec<render::Embed>, keep: &Vec<(String, String)>) -> (r:
    serde_json::Value)
    ensures
        json::json_of(r) == json::Json::Object(
            patch_payload_of(embeds.deep_view(), keep.deep_view()),
        ),
{
    let ghost ks = keep.deep_view();
    let mut entries: Vec<serde_json::Value> = Vec::new();
    let mut i: usize = 0;
    while i < keep.len()
        invariant
            ks == keep.deep_view(),
            i <= keep@.len(),
            entries@.len() == i,
            forall|j: int|
                0 <= j < i ==> json::json_of(#[trigger] entries@[j]) == keep_entry(ks[j]),
        decreases keep@.len() - i,
    {
        let mut e: serde_json::Value = json::object();
        json::put(&mut e, "id", json::text(keep[i].0.as_str()));
        json::put(&mut e, "filename", json::text(keep[i].1.as_str()));
        assert(ks[i as int] == (keep@[i as int].0@, keep@[i as int].1@));
        entries.push(e);
        i = i + 1;
    }
    assert(json::jsons(entries@) =~= ks.map_values(|a: (Seq<char>, Seq<char>)| keep_entry(a)));
    let mut v: serde_json::Value = json::object();
    json::put(&mut v, "embeds", render::embeds_json(embeds));
    json::put(&mut v, "allowed_mentions", no_mentions_value());
    json::put(&mut v, "attachments", json::list(entries));
    v
}

/// The members of a change of the webhook itself: what is not set is left out.
pub open spec fn webhook_payload_of(name: Option<Seq<char>>, avatar: Option<Seq<char>>) -> Map<
    Seq<char>,
    json::Json,
> {
    render::with_member(
        render::with_member(Map::empty(), "name"@, render::text_member(name)),
        "avatar"@,
        render::text_member(avatar),
    )
}

/// The body of a change of the webhook itself; an error where there is nothing to set.
pub fn webhook_payload(name: Option<&str>, avatar: Option<&str>) -> (r: Result<
    serde_json::Value,
    String,
>)
    ensures
        match r {
            Ok(v) => {
                &&& name is Some || avatar is Some
                &&& json::json_of(v) == json::Json::Object(
                    webhook_payload_of(
                        match name {
                            Some(n) => Some(n@),
                            None => None,
                        },
                        match avatar {
                            Some(a) => Some(a@),
                            None => None,
                        },
                    ),
                )
            },
            Err(reason) => {
                &&& name is None && avatar is None
                &&& reason@ == "patch_webhook called with nothing to set"@
            },
        },
{
    if name.is_none() && avatar.is_none() {
        return Err("patch_webhook called with nothing to set".to_owned());
    }
    let mut v: serde_json::Value = json::object();
    match name {
        Some(n) => {
            json::put(&mut v, "name", json::text(n));
        },
        None => {},
    }
    match avatar {
        Some(a) => {
            json::put(&mut v, "avatar", json::text(a));
        },
        None => {},
    }
    Ok(v)
}

/// Nothing that is posted or changed notifies anyone, whatever stands in it.
pub proof fn lemma_mentions_suppressed(
    username: Seq<char>,
    text: Seq<char>,
    embeds: Seq<render::EmbedView>,
    filenames: Seq<Seq<char>>,
    content: Option<Seq<char>>,
    keep: Seq<(Seq<char>, Seq<char>)>,
)
    ensures
        text_payload_of(username, text)["allowed_mentions"@] == no_mentions(),
        embed_payload_of(username, embeds, content)["allowed_mentions"@] == no_mentions(),
        media_payload_of(username, embeds, filenames, content)["allowed_mentions"@] == no_mentions(),
        file_payload_of(username)["allowed_mentions"@] == no_mentions(),
        patch_payload_of(embeds, keep)["allowed_mentions"@] == no_mentions(),
{
    reveal_strlit("allowed_mentions");
    reveal_strlit("content");
    reveal_strlit("attachments");
    assert("allowed_mentions"@.len() != "content"@.len());
    assert("allowed_mentions"@.len() != "attachments"@.len());
}

/// A message is delivered with the first answer of success, and what the server said is
/// handed on. It is given up with the first refusal that is neither a rate limit nor a
/// failure of the server, and the reason ends with what the server said.
pub proof fn lemma_final_answers(
    a: Attempts,
    lane: Lane,
    code: u16,
    status: Seq<char>,
    body: Seq<char>,
    retry_after: Option<u64>,
)
    ensures
        ({
            let r = after_reply(a, lane, ReplyView::Response { code, status, body, retry_after });
            &&& 200 <= code <= 299 ==> r == (a, StepView::Done(body))
            &&& (code < 200 || 300 <= code <= 499 || code >= 600) && code != 429 ==> r.0 == a && (
            r.1 matches StepView::GiveUp(reason) && text::ends_with(
                reason,
                status + ": "@ + body,
            ))
        }),
{
    let tail = status + ": "@ + body;
    let media = "media upload failed: "@ + status + ": "@ + body;
    assert(tail.subrange(0, tail.len() as int) =~= tail);
    assert(media.subrange(media.len() - tail.len(), media.len() as int) =~= tail);
}

/// A rate limit is waited out for as long as it asks, or for a second where it does not say,
/// and uses up none of the retries for failures. The twentieth one is one too many, and so is
/// one that would make the waits longer than a minute in all.
pub proof fn lemma_rate_limits(
    a: Attempts,
    lane: Lane,
    status: Seq<char>,
    body: Seq<char>,
    retry_after: Option<u64>,
    wait: int,
)
    requires
        a.within_bounds(),
        retry_after is Some ==> wait == retry_after->0,
        retry_after is None ==> wait == 1_000_000_000,
    ensures
        ({
            let r = after_reply(
                a,
                lane,
                ReplyView::Response { code: 429, status, body, retry_after },
            );
            &&& r.0.failures == a.failures
            &&& r.0.rate_limits == a.rate_limits + 1
            &&& a.rate_limits + 1 >= 20 || a.waited + wait > 60_000_000_000 ==> r.1 is GiveUp
                && r.0.waited == a.waited
            &&& a.rate_limits + 1 < 20 && a.waited + wait <= 60_000_000_000 ==> r.1
                == StepView::Retry(wait as u64) && r.0.waited == a.waited + wait
        }),
{
}

/// After a failure of the server or the network a message is sent again: after a quarter of a
/// second, then after a second, then after four. The fourth failure is one too many. The
/// limits for rate limits are not touched.
pub proof fn lemma_failures(a: Attempts, lane: Lane, reply: ReplyView)
    requires
        a.within_bounds(),
        reply is Network || (500 <= reply->code <= 599),
    ensures
        ({
            let r = after_reply(a, lane, reply);
            &&& r.0.rate_limits == a.rate_limits
            &&& r.0.waited == a.waited
            &&& a.failures == 0 ==> r.1 == StepView::Retry(250_000_000) && r.0.failures == 1
            &&& a.failures == 1 ==> r.1 == StepView::Retry(1_000_000_000) && r.0.failures == 2
            &&& a.failures == 2 ==> r.1 == StepView::Retry(4_000_000_000) && r.0.failures == 3
            &&& a.failures == 3 ==> r.1 is GiveUp && r.0.failures == 3
        }),
{
}

/// A change is made with the first answer of success. One rate limit is waited out for as long
/// as it asks, or for a second; any other answer, and any second one, is final, and the change
/// is dropped.
pub proof fn lemma_change_answers(of: PatchOf, retried: bool, reply: ReplyView)
    ensures
        reply is Response && 200 <= reply->code <= 299 ==> after_patch(of, retried, reply)
            == PatchStepView::Finished(OutcomeView::Delivered),
        reply is Response && reply->code == 429 && !retried ==> after_patch(of, retried, reply)
            == PatchStepView::RetryOnce(
            match reply->retry_after {
                Some(n) => n,
                None => 1_000_000_000,
            },
        ),
        reply is Network || !(200 <= reply->code <= 299) && (retried || reply->code != 429) ==> (
        after_patch(of, retried, reply) matches PatchStepView::Finished(o) && o is Dropped),
{
}

/// A single upload is delivered exactly with an answer of success.
pub proof fn lemma_upload_answers(reply: ReplyView)
    ensures
        upload_outcome_of(reply) is Delivered <==> reply is Response && 200 <= reply->code <= 299,
{
}

/// A response counts as a delivery exactly if it is an object that names the message, and the
/// name that it gives is the one that is kept. Of the attached media, only that of a message
/// with files is kept.
pub proof fn lemma_delivered_names_message(
    lane: Lane,
    response: Seq<char>,
    m: Map<Seq<char>, json::Json>,
)
    ensures
        m.dom().contains("id"@) && m["id"@] is Text ==> (post_result_of(
            lane,
            response,
            Some(json::Json::Object(m)),
        ) matches PostResultView::Delivered { discord_msg_id, image_urls } && {
            &&& discord_msg_id == m["id"@]->Text_0
            &&& lane is Plain ==> image_urls.len() == 0
            &&& lane is Media ==> image_urls == media_urls(json::Json::Object(m))
        }),
        !m.dom().contains("id"@) || !(m["id"@] is Text) ==> post_result_of(
            lane,
            response,
            Some(json::Json::Object(m)),
        ) is Dropped,
        post_result_of(lane, response, None) is Dropped,
{
}

proof fn lemma_embed_image_urls(l: Seq<json::Json>, u: Seq<char>)
    ensures
        embed_image_urls(l).contains(u) <==> exists|i: int|
            0 <= i < l.len() && embed_image_url(#[trigger] l[i]) == Some(u),
    decreases l.len(),
{
    if l.len() > 0 {
        let init = l.drop_last();
        lemma_embed_image_urls(init, u);
        let before = embed_image_urls(init);
        let all = embed_image_urls(l);
        assert(l[l.len() - 1] == l.last());
        if exists|i: int| 0 <= i < l.len() && embed_image_url(#[trigger] l[i]) == Some(u) {
            let i = choose|i: int| 0 <= i < l.len() && embed_image_url(#[trigger] l[i]) == Some(u);
            if i < init.len() {
                assert(embed_image_url(init[i]) == Some(u));
            }
        }
        if exists|i: int| 0 <= i < init.len() && embed_image_url(#[trigger] init[i]) == Some(u) {
            let i = choose|i: int|
                0 <= i < init.len() && embed_image_url(#[trigger] init[i]) == Some(u);
            assert(embed_image_url(l[i]) == Some(u));
        }
        if let Some(x) = embed_image_url(l.last()) {
            assert(all[before.len() as int] == x);
            if before.contains(u) {
                let i = choose|i: int| 0 <= i < before.len() && before[i] == u;
                assert(all[i] == u);
            }
            if all.contains(u) {
                let i = choose|i: int| 0 <= i < all.len() && all[i] == u;
                if i < before.len() {
                    assert(before[i] == u);
                }
            }
        }
    }
}

proof fn lemma_attachment_urls(l: Seq<json::Json>, u: Seq<char>)
    ensures
        attachment_urls(l).contains(u) <==> exists|i: int|
            0 <= i < l.len() && attachment_url(#[trigger] l[i]) == Some(u),
    decreases l.len(),
{
    if l.len() > 0 {
        let init = l.drop_last();
        lemma_attachment_urls(init, u);
        let before = attachment_urls(init);
        let all = attachment_urls(l);
        assert(l[l.len() - 1] == l.last());
        if exists|i: int| 0 <= i < l.len() && attachment_url(#[trigger] l[i]) == Some(u) {
            let i = choose|i: int| 0 <= i < l.len() && attachment_url(#[trigger] l[i]) == Some(u);
            if i < init.len() {
                assert(attachment_url(init[i]) == Some(u));
            }
        }
        if exists|i: int| 0 <= i < init.len() && attachment_url(#[trigger] init[i]) == Some(u) {
            let i = choose|i: int|
                0 <= i < init.len() && attachment_url(#[trigger] init[i]) == Some(u);
            assert(attachment_url(l[i]) == Some(u));
        }
        if let Some(x) = attachment_url(l.last()) {
            assert(all[before.len() as int] == x);
            if before.contains(u) {
                let i = choose|i: int| 0 <= i < before.len() && before[i] == u;
                assert(all[i] == u);
            }
            if all.contains(u) {
                let i = choose|i: int| 0 <= i < all.len() && all[i] == u;
                if i < before.len() {
                    assert(before[i] == u);
                }
            }
        }
    }
}

/// A document is the object with this member.
pub open spec fn has_text(j: json::Json, key: Seq<char>, value: Seq<char>) -> bool {
    j matches json::Json::Object(m) && m.dom().contains(key) && m[key] == json::Json::Text(value)
}

/// An embed shows the image at an address.
pub open spec fn shows_image(e: json::Json, url: Seq<char>) -> bool {
    e matches json::Json::Object(m) && m.dom().contains("image"@) && has_text(
        m["image"@],
        "url"@,
        url,
    )
}

/// Everything that is attached to a message is found, and nothing else: an address is among
/// those of its media exactly if an embed shows the image there or an attachment lies there,
/// and it is there once.
pub proof fn lemma_media_found(
    m: Map<Seq<char>, json::Json>,
    embeds: Seq<json::Json>,
    files: Seq<json::Json>,
    url: Seq<char>,
)
    requires
        m.dom().contains("embeds"@) && m["embeds"@] == json::Json::List(embeds),
        m.dom().contains("attachments"@) && m["attachments"@] == json::Json::List(files),
    ensures
        media_urls(json::Json::Object(m)).no_duplicates(),
        media_urls(json::Json::Object(m)).contains(url) <==> (exists|i: int|
            0 <= i < embeds.len() && shows_image(#[trigger] embeds[i], url)) || exists|i: int|
            0 <= i < files.len() && has_text(#[trigger] files[i], "url"@, url),
{
    let images = embed_image_urls(embeds);
    let others = attachment_urls(files);
    let all = images + others;
    lemma_distinct(all);
    lemma_embed_image_urls(embeds, url);
    lemma_attachment_urls(files, url);
    assert(all.contains(url) <==> images.contains(url) || others.contains(url)) by {
        if images.contains(url) {
            let i = choose|i: int| 0 <= i < images.len() && images[i] == url;
            assert(all[i] == url);
        }
        if others.contains(url) {
            let i = choose|i: int| 0 <= i < others.len() && others[i] == url;
            assert(all[images.len() + i] == url);
        }
        if all.contains(url) {
            let i = choose|i: int| 0 <= i < all.len() && all[i] == url;
            if i < images.len() {
                assert(images[i] == url);
            } else {
                assert(others[i - images.len()] == url);
            }
        }
    }
    assert forall|i: int| 0 <= i < embeds.len() implies (shows_image(#[trigger] embeds[i], url)
        <==> embed_image_url(embeds[i]) == Some(url)) by {}
    assert forall|i: int| 0 <= i < files.len() implies (has_text(
        #[trigger] files[i],
        "url"@,
        url,
    ) <==> attachment_url(files[i]) == Some(url)) by {}
}

proof fn lemma_payload_keys()
    ensures
        "content"@ != "username"@,
        "content"@ != "allowed_mentions"@,
        "content"@ != "embeds"@,
        "content"@ != "attachments"@,
        "username"@ != "allowed_mentions"@,
        "username"@ != "embeds"@,
        "username"@ != "attachments"@,
        "allowed_mentions"@ != "embeds"@,
        "allowed_mentions"@ != "attachments"@,
        "embeds"@ != "attachments"@,
        "id"@ != "filename"@,
        "name"@ != "avatar"@,
{
    reveal_strlit("content");
    reveal_strlit("username");
    reveal_strlit("allowed_mentions");
    reveal_strlit("embeds");
    reveal_strlit("attachments");
    reveal_strlit("id");
    reveal_strlit("filename");
    reveal_strlit("name");
    reveal_strlit("avatar");
    assert("content"@.len() == 7);
    assert("username"@.len() == 8);
    assert("allowed_mentions"@.len() == 16);
    assert("embeds"@.len() == 6);
    assert("attachments"@.len() == 11);
    assert("id"@.len() == 2);
    assert("filename"@.len() == 8);
    assert("name"@.len() == 4);
    assert("avatar"@.len() == 6);
}

/// A payload says what it is given and suppresses all mentions: under its user name, with its
/// embeds in their order, and with plain content exactly if there is some.
pub proof fn lemma_payloads(
    username: Seq<char>,
    embeds: Seq<render::EmbedView>,
    filenames: Seq<Seq<char>>,
    content: Option<Seq<char>>,
    said: Seq<char>,
)
    ensures
        says(embed_payload_of(username, embeds, content), username, embeds, content),
        says(media_payload_of(username, embeds, filenames, content), username, embeds, content),
        text_payload_of(username, said).dom().contains("content"@) && text_payload_of(
            username,
            said,
        )["content"@] == json::Json::Text(said),
        text_payload_of(username, said)["username"@] == json::Json::Text(username),
        file_payload_of(username)["username"@] == json::Json::Text(username),
        media_payload_of(username, embeds, filenames, content).dom().contains("attachments"@),
        media_payload_of(username, embeds, filenames, content)["attachments"@] matches json::Json::List(
            l,
        ) && l.len() == filenames.len() && forall|i: int|
            0 <= i < l.len() ==> ((#[trigger] l[i]) matches json::Json::Object(e) && e["id"@]
                == json::Json::Nat(i as nat) && e["filename"@] == json::Json::Text(filenames[i])),
{
    lemma_payload_keys();
}

/// The members of a payload are those of a message with embeds.
pub open spec fn says(
    m: Map<Seq<char>, json::Json>,
    username: Seq<char>,
    embeds: Seq<render::EmbedView>,
    content: Option<Seq<char>>,
) -> bool {
    &&& m.dom().contains("username"@) && m["username"@] == json::Json::Text(username)
    &&& m.dom().contains("embeds"@)
    &&& m["embeds"@] matches json::Json::List(l) && l.len() == embeds.len() && forall|i: int|
        0 <= i < l.len() ==> #[trigger] l[i] == render::embed_json(embeds[i])
    &&& m.dom().contains("content"@) <==> content is Some
    &&& content is Some ==> m["content"@] == json::Json::Text(content->0)
    &&& m.dom().contains("allowed_mentions"@)
    &&& m["allowed_mentions"@] matches json::Json::Object(a) && a.dom().contains("parse"@)
        && a["parse"@] == json::Json::List(Seq::empty())
}

/// A change says its embeds in their order, lists the attachments that stay, each with its id
/// and its name, and suppresses all mentions.
pub proof fn lemma_change_payload(
    embeds: Seq<render::EmbedView>,
    keep: Seq<(Seq<char>, Seq<char>)>,
)
    ensures
        ({
            let m = patch_payload_of(embeds, keep);
            &&& m.dom().contains("embeds"@)
            &&& m["embeds"@] matches json::Json::List(l) && l.len() == embeds.len() && forall|i: int|
                0 <= i < l.len() ==> #[trigger] l[i] == render::embed_json(embeds[i])
            &&& m.dom().contains("attachments"@)
            &&& m["attachments"@] matches json::Json::List(l) && l.len() == keep.len()
                && forall|i: int|
                0 <= i < l.len() ==> has_text(#[trigger] l[i], "id"@, keep[i].0) && has_text(
                    l[i],
                    "filename"@,
                    keep[i].1,
                )
            &&& m.dom().contains("allowed_mentions"@)
            &&& m["allowed_mentions"@] matches json::Json::Object(a) && a.dom().contains("parse"@)
                && a["parse"@] == json::Json::List(Seq::empty())
        }),
{
    lemma_payload_keys();
}

/// A change of a webhook sets its name and its avatar, each exactly if it is given.
pub proof fn lemma_webhook_payload(name: Option<Seq<char>>, avatar: Option<Seq<char>>)
    ensures
        webhook_payload_of(name, avatar).dom().contains("name"@) <==> name is Some,
        name is Some ==> webhook_payload_of(name, avatar)["name"@] == json::Json::Text(name->0),
        webhook_payload_of(name, avatar).dom().contains("avatar"@) <==> avatar is Some,
        avatar is Some ==> webhook_payload_of(name, avatar)["avatar"@] == json::Json::Text(
            avatar->0,
        ),
{
    lemma_payload_keys();
}

proof fn lemma_tail(head: Seq<char>, tail: Seq<char>)
    ensures
        text::ends_with(head + tail, tail),
{
    let s = head + tail;
    assert(s.subrange(s.len() - tail.len(), s.len() as int) =~= tail);
}

/// The reason for which a message is given up ends with what went wrong last: the status of the
/// server, or the failure of the network. So does that of a change and of an upload.
pub proof fn lemma_reasons(
    a: Attempts,
    lane: Lane,
    of: PatchOf,
    retried: bool,
    code: u16,
    status: Seq<char>,
    body: Seq<char>,
    retry_after: Option<u64>,
    e: Seq<char>,
)
    ensures
        after_reply(a, lane, ReplyView::Network(e)).1 matches StepView::GiveUp(r)
            ==> text::ends_with(r, e),
        500 <= code <= 599 ==> (after_reply(
            a,
            lane,
            ReplyView::Response { code, status, body, retry_after },
        ).1 matches StepView::GiveUp(r) ==> text::ends_with(r, status)),
        after_patch(of, retried, ReplyView::Network(e)) matches PatchStepView::Finished(
            OutcomeView::Dropped { reason },
        ) ==> text::ends_with(reason, e),
        after_patch(
            of,
            retried,
            ReplyView::Response { code, status, body, retry_after },
        ) matches PatchStepView::Finished(OutcomeView::Dropped { reason }) ==> (retried
            && text::ends_with(reason, status)) || text::ends_with(reason, status + ": "@ + body),
        upload_outcome_of(ReplyView::Network(e)) matches OutcomeView::Dropped { reason }
            ==> text::ends_with(reason, e),
        upload_outcome_of(
            ReplyView::Response { code, status, body, retry_after },
        ) matches OutcomeView::Dropped { reason } ==> text::ends_with(
            reason,
            status + ": "@ + body,
        ),
{
    let tail = status + ": "@ + body;
    lemma_tail("network: "@, e);
    lemma_tail("media upload network: "@, e);
    lemma_tail("upload network: "@, e);
    lemma_tail(patch_mark(of) + "network: "@, e);
    lemma_tail(lane_mark(lane) + "5xx after retries: "@, status);
    lemma_tail(patch_mark(of) + "failed after 429 retry: "@, status);
    lemma_tail("upload failed: "@, tail);
    assert("upload failed: "@ + tail =~= "upload failed: "@ + status + ": "@ + body);
    lemma_tail(patch_mark(of) + "failed: "@, tail);
    assert(patch_mark(of) + "failed: "@ + tail =~= patch_mark(of) + "failed: "@ + status + ": "@
        + body);
}

proof fn lemma_front(head: Seq<char>, tail: Seq<char>)
    ensures
        text::matches_at(head + tail, head, 0),
{
    assert((head + tail).subrange(0, head.len() as int) =~= head);
}

/// The reason for which something is given up names what it was: a message with files, a
/// change of a message or a change of a webhook. That of a plain message is the bare reason.
pub proof fn lemma_reasons_name_what_failed(
    a: Attempts,
    retried: bool,
    code: u16,
    status: Seq<char>,
    body: Seq<char>,
    retry_after: Option<u64>,
    e: Seq<char>,
)
    ensures
        after_reply(
            a,
            Lane::Media,
            ReplyView::Response { code, status, body, retry_after },
        ).1 matches StepView::GiveUp(r) ==> text::matches_at(r, "media "@, 0),
        after_reply(a, Lane::Media, ReplyView::Network(e)).1 matches StepView::GiveUp(r)
            ==> text::matches_at(r, "media "@, 0),
        after_reply(
            a,
            Lane::Plain,
            ReplyView::Response { code, status, body, retry_after },
        ).1 matches StepView::GiveUp(r) ==> r == "rate limited beyond 20 attempts"@ || r
            == "rate limited beyond 60.0s budget"@ || r == "5xx after retries: "@ + status || r
            == status + ": "@ + body,
        after_reply(a, Lane::Plain, ReplyView::Network(e)).1 matches StepView::GiveUp(r) ==> r
            == "network: "@ + e,
        after_patch(
            PatchOf::Message,
            retried,
            ReplyView::Response { code, status, body, retry_after },
        ) matches PatchStepView::Finished(OutcomeView::Dropped { reason }) ==> text::matches_at(
            reason,
            "patch "@,
            0,
        ),
        after_patch(PatchOf::Message, retried, ReplyView::Network(e)) == PatchStepView::Finished(
            OutcomeView::Dropped { reason: "patch network: "@ + e },
        ),
        after_patch(
            PatchOf::Webhook,
            retried,
            ReplyView::Response { code, status, body, retry_after },
        ) matches PatchStepView::Finished(OutcomeView::Dropped { reason }) ==> text::matches_at(
            reason,
            "webhook patch "@,
            0,
        ),
        after_patch(PatchOf::Webhook, retried, ReplyView::Network(e)) == PatchStepView::Finished(
            OutcomeView::Dropped { reason: "webhook patch network: "@ + e },
        ),
{
    reveal_strlit("media ");
    reveal_strlit("media upload failed: ");
    reveal_strlit("media upload network: ");
    reveal_strlit("patch ");
    reveal_strlit("webhook patch ");
    reveal_strlit("network: ");
    reveal_strlit("patch network: ");
    reveal_strlit("webhook patch network: ");
    let m = "media "@;
    lemma_front(m, "rate limited beyond 20 attempts"@);
    lemma_front(m, "rate limited beyond 60.0s budget"@);
    lemma_front(m, "5xx after retries: "@ + status);
    assert(m + ("5xx after retries: "@ + status) =~= m + "5xx after retries: "@ + status);
    let failed = "media upload failed: "@ + status + ": "@ + body;
    assert(failed.subrange(0, m.len() as int) =~= m);
    let network = "media upload network: "@ + e;
    assert(network.subrange(0, m.len() as int) =~= m);
    let empty = Seq::<char>::empty();
    assert(empty + "rate limited beyond 20 attempts"@ =~= "rate limited beyond 20 attempts"@);
    assert(empty + "rate limited beyond 60.0s budget"@ =~= "rate limited beyond 60.0s budget"@);
    assert(empty + "5xx after retries: "@ + status =~= "5xx after retries: "@ + status);
    lemma_patch_front("patch "@, status, body);
    lemma_patch_front("webhook patch "@, status, body);
    assert("patch "@ + "network: "@ =~= "patch network: "@);
    assert("webhook patch "@ + "network: "@ =~= "webhook patch network: "@);
}

proof fn lemma_patch_front(mark: Seq<char>, status: Seq<char>, body: Seq<char>)
    ensures
        text::matches_at(mark + "failed after 429 retry: "@ + status, mark, 0),
        text::matches_at(mark + "failed: "@ + status + ": "@ + body, mark, 0),
{
    lemma_front(mark, "failed after 429 retry: "@ + status);
    assert(mark + ("failed after 429 retry: "@ + status) =~= mark + "failed after 429 retry: "@
        + status);
    lemma_front(mark, "failed: "@ + status + ": "@ + body);
    assert(mark + ("failed: "@ + status + ": "@ + body) =~= mark + "failed: "@ + status + ": "@
        + body);
}

/// Where the response names no message, the reason hands on the response.
pub proof fn lemma_unnamed_message(lane: Lane, response: Seq<char>, parsed: Option<json::Json>)
    ensures
        post_result_of(lane, response, parsed) matches PostResultView::Dropped { reason } ==> {
            &&& text::ends_with(reason, response)
            &&& text::matches_at(reason, "no message id in "@, 0)
        },
{
    reveal_strlit("no message id in ");
    reveal_strlit("no message id in response: ");
    reveal_strlit("no message id in media response: ");
    let mark = "no message id in "@;
    let plain = "no message id in response: "@;
    let media = "no message id in media response: "@;
    lemma_tail(plain, response);
    lemma_tail(media, response);
    assert((plain + response).subrange(0, mark.len() as int) =~= mark);
    assert((media + response).subrange(0, mark.len() as int) =~= mark);
}

} // verus!
