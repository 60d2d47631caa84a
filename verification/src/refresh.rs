//! Keeping posted messages in step with their sources: when a source is looked at again,
//! what changed, and what is done about it.

use vstd::prelude::*;
use vstd::string::*;

use crate::config;
use crate::config::{RefreshCfg, WebhookUrl};
use crate::hash;
use crate::names::NameMap;
use crate::reactions;
use crate::reactions::Reactions;
use crate::render;
use crate::render::{Embed, EmbedMeta, RelayText};
use crate::store;
use crate::store::{Store, TrackedMsg};
use crate::telegram;
use crate::text;

verus! {

/// How many messages can be asked for at once.
pub const BATCH_MAX: usize = 100;

/// A source as it is now.
pub struct FetchedPost {
    pub title: String,
    pub body: String,
    pub deep_link: Option<String>,
    pub reactions: Reactions,
    /// How many comments there are, where the fetch says so.
    pub comment_count: Option<i32>,
    pub date: Option<String>,
}

pub struct FetchedPostView {
    pub title: Seq<char>,
    pub body: Seq<char>,
    pub deep_link: Option<Seq<char>>,
    pub reactions: Seq<(Seq<char>, i32)>,
    pub comment_count: Option<i32>,
    pub date: Option<Seq<char>>,
}

impl DeepView for FetchedPost {
    type V = FetchedPostView;

    open spec fn deep_view(&self) -> FetchedPostView {
        FetchedPostView {
            title: self.title@,
            body: self.body@,
            deep_link: self.deep_link.deep_view(),
            reactions: self.reactions.deep_view(),
            comment_count: self.comment_count,
            date: self.date.deep_view(),
        }
    }
}

impl Default for FetchedPost {
    fn default() -> (r: Self)
        ensures
            r.deep_view() == (FetchedPostView {
                title: Seq::empty(),
                body: Seq::empty(),
                deep_link: None,
                reactions: Seq::empty(),
                comment_count: None,
                date: None,
            }),
    {
        FetchedPost {
            title: String::new(),
            body: String::new(),
            deep_link: None,
            reactions: Reactions::new(),
            comment_count: None,
            date: None,
        }
    }
}

/// What a reaction shows.
pub enum ReactionKind {
    Emoji(String),
    /// A paid star.
    Paid,
    /// A picture that is no character.
    Custom,
    Empty,
}

pub enum ReactionKindView {
    Emoji(Seq<char>),
    Paid,
    Custom,
    Empty,
}

impl DeepView for ReactionKind {
    type V = ReactionKindView;

    open spec fn deep_view(&self) -> ReactionKindView {
        match self {
            ReactionKind::Emoji(e) => ReactionKindView::Emoji(e@),
            ReactionKind::Paid => ReactionKindView::Paid,
            ReactionKind::Custom => ReactionKindView::Custom,
            ReactionKind::Empty => ReactionKindView::Empty,
        }
    }
}

/// The emoji under which a reaction is counted.
pub open spec fn reaction_key(k: ReactionKindView) -> Option<Seq<char>> {
    match k {
        ReactionKindView::Emoji(e) => Some(e),
        ReactionKindView::Paid => Some("⭐"@),
        ReactionKindView::Custom => Some("🎨"@),
        ReactionKindView::Empty => None,
    }
}

/// The counts under each emoji. Counts under one emoji add up, as 32-bit numbers do.
pub open spec fn tallied(results: Seq<(ReactionKindView, i32)>) -> Map<Seq<char>, i32>
    decreases results.len(),
{
    if results.len() == 0 {
        Map::empty()
    } else {
        let before = tallied(results.drop_last());
        match reaction_key(results.last().0) {
            None => before,
            Some(k) => before.insert(
                k,
                (if before.dom().contains(k) {
                    before[k]
                } else {
                    0i32
                }).wrapping_add(results.last().1),
            ),
        }
    }
}

/// Add up the reactions of a message by emoji.
pub fn extract_reactions(results: &Vec<(ReactionKind, i32)>) -> (r: Reactions)
    ensures
        reactions::ascending(r.deep_view()),
        reactions::counts(r.deep_view()) == tallied(results.deep_view()),
{
    let ghost all = results.deep_view();
    let mut out: Reactions = Reactions::new();
    let mut i: usize = 0;
    assert(all.take(0) =~= Seq::<(ReactionKindView, i32)>::empty());
    assert(reactions::counts(out.deep_view()) =~= tallied(all.take(0)));
    while i < results.len()
        invariant
            all == results.deep_view(),
            i <= all.len(),
            reactions::ascending(out.deep_view()),
            reactions::counts(out.deep_view()) == tallied(all.take(i as int)),
        decreases all.len() - i,
    {
        assert(all.take(i + 1).drop_last() =~= all.take(i as int));
        assert(all.take(i + 1).last() == (
            results@[i as int].0.deep_view(),
            results@[i as int].1,
        ));
        let key: Option<&str> = match &results[i].0 {
            ReactionKind::Emoji(e) => Some(e.as_str()),
            ReactionKind::Paid => Some("⭐"),
            ReactionKind::Custom => Some("🎨"),
            ReactionKind::Empty => None,
        };
        match key {
            Some(k) => {
                let had: i32 = match out.get(k) {
                    Some(n) => n,
                    None => 0,
                };
                out.set(k, had.wrapping_add(results[i].1));
            },
            None => {},
        }
        i = i + 1;
    }
    assert(all.take(all.len() as int) =~= all);
    out
}

/// A source as it was fetched.
pub struct Source {
    pub msg_id: i32,
    /// The title of the chat.
    pub title: Option<String>,
    /// The public name of the chat.
    pub username: Option<String>,
    pub text: String,
    pub reactions: Vec<(ReactionKind, i32)>,
    pub reply_count: Option<i32>,
    pub date: Option<String>,
}

/// What a fetched source says.
pub fn to_fetched(m: &Source) -> (r: FetchedPost)
    ensures
        r.title@ == (match m.title {
            Some(t) => t@,
            None => Seq::empty(),
        }),
        r.body@ == m.text@,
        r.deep_link.deep_view() == telegram::deep_link_of(m.username.deep_view(), m.msg_id),
        reactions::ascending(r.reactions.deep_view()),
        reactions::counts(r.reactions.deep_view()) == tallied(m.reactions.deep_view()),
        r.comment_count == m.reply_count,
        r.date.deep_view() == m.date.deep_view(),
{
    let title: String = match &m.title {
        Some(t) => t.clone(),
        None => String::new(),
    };
    FetchedPost {
        title,
        body: m.text.clone(),
        deep_link: telegram::deep_link(&m.username, m.msg_id),
        reactions: extract_reactions(&m.reactions),
        comment_count: m.reply_count,
        date: m.date.clone(),
    }
}

/// What is done about one message this time.
#[derive(Debug, Clone, Copy, PartialEq, Eq, Structural)]
pub struct RefreshDecision {
    /// The source is looked at.
    pub fetch: bool,
    /// Changed reactions and comments count. Edits and deletions always do.
    pub allow_stats: bool,
}

/// The minutes can be turned into seconds.
pub open spec fn minutes_fit(cfg: RefreshCfg) -> bool {
    cfg.interval_mins * 60 <= u64::MAX && cfg.reaction_horizon_mins * 60 <= u64::MAX
}

/// Minutes as signed seconds.
pub open spec fn mins_to_secs(m: u64) -> i64 {
    ((m * 60) as u64) as i64
}

/// The age `c` was reached since a message was last looked at.
pub open spec fn crossed(c: i64, last_checked_age: i64, age: i64) -> bool {
    last_checked_age < c <= age
}

/// What is done about a message of this age, from when it was last looked at. Reactions
/// are looked for when one of three ages was reached since then, edits and deletions
/// after every interval.
pub open spec fn decision_for(
    age: i64,
    since_checked: i64,
    last_checked_age: i64,
    cfg: RefreshCfg,
) -> RefreshDecision {
    let interval = mins_to_secs(cfg.interval_mins);
    let horizon = mins_to_secs(cfg.reaction_horizon_mins);
    let early = cfg.reaction_early_check_secs as i64;
    let reactions_due = age <= horizon && (crossed(early, last_checked_age, age) || crossed(
        interval,
        last_checked_age,
        age,
    ) || crossed(horizon, last_checked_age, age));
    RefreshDecision {
        fetch: reactions_due || since_checked >= interval,
        allow_stats: age <= horizon,
    }
}

/// Decide whether a message is looked at, from its age, the time since it was last
/// looked at, and its age at that time, all in seconds.
pub fn decide_refresh(
    age_secs: i64,
    since_checked_secs: i64,
    last_checked_age_secs: i64,
    cfg: &RefreshCfg,
) -> (r: RefreshDecision)
    requires
        minutes_fit(*cfg),
    ensures
        r == decision_for(age_secs, since_checked_secs, last_checked_age_secs, *cfg),
{
    let interval: i64 = (cfg.interval_mins * 60) as i64;
    let horizon: i64 = (cfg.reaction_horizon_mins * 60) as i64;
    let early: i64 = cfg.reaction_early_check_secs as i64;
    let crossed_early: bool = last_checked_age_secs < early && early <= age_secs;
    let crossed_interval: bool = last_checked_age_secs < interval && interval <= age_secs;
    let crossed_horizon: bool = last_checked_age_secs < horizon && horizon <= age_secs;
    let reactions_due: bool = age_secs <= horizon && (crossed_early || crossed_interval
        || crossed_horizon);
    RefreshDecision {
        fetch: reactions_due || since_checked_secs >= interval,
        allow_stats: age_secs <= horizon,
    }
}

/// An age at which reactions are looked for counts only once: having looked at that age
/// or later, no later look is owed to it.
pub proof fn lemma_checkpoint_fires_once(c: i64, seen_at: i64, age: i64)
    requires
        c <= seen_at,
    ensures
        !crossed(c, seen_at, age),
{
}

/// Past the age at which reactions are given up, a look is owed to the interval alone,
/// and what it finds of reactions does not count.
pub proof fn lemma_stats_freeze(age: i64, since_checked: i64, last_checked_age: i64, cfg: RefreshCfg)
    requires
        age > mins_to_secs(cfg.reaction_horizon_mins),
    ensures
        !decision_for(age, since_checked, last_checked_age, cfg).allow_stats,
        decision_for(age, since_checked, last_checked_age, cfg).fetch <==> since_checked
            >= mins_to_secs(cfg.interval_mins),
{
}

/// A change of a source.
#[derive(Debug, Clone, Copy, PartialEq, Eq, Structural)]
pub enum RefreshAction {
    Unchanged,
    Deleted,
    Edited,
    StatsChanged,
}

/// The hash of a body.
pub open spec fn content_hash_of(body: Seq<char>) -> Seq<char> {
    hash::fnv_text(vstd::utf8::encode_utf8(body))
}

/// The hash by which a change of a body is noticed.
pub fn content_hash(body: &str) -> (r: String)
    ensures
        r@ == content_hash_of(body@),
{
    hash::hash_text(body.as_bytes())
}

/// The number of comments that counts: what the fetch says, else what was known.
pub fn effective_comment_count(fetched: Option<i32>, stored: i32) -> (r: i32)
    ensures
        r == comments_now(fetched, stored),
{
    match fetched {
        Some(n) => n,
        None => stored,
    }
}

pub open spec fn comments_now(fetched: Option<i32>, stored: i32) -> i32 {
    match fetched {
        Some(n) => n,
        None => stored,
    }
}

/// What changed since a message was last brought up to date. An edit outweighs changed
/// figures; a number of comments that is not known is no change.
pub open spec fn change_of(row: store::TrackedMsgView, fetched: Option<FetchedPostView>) -> RefreshAction {
    match fetched {
        None => RefreshAction::Deleted,
        Some(f) => if content_hash_of(f.body) != row.content_hash {
            RefreshAction::Edited
        } else if f.reactions != row.reactions || comments_now(f.comment_count, row.comment_count)
            != row.comment_count {
            RefreshAction::StatsChanged
        } else {
            RefreshAction::Unchanged
        },
    }
}

/// What changed since a message was last brought up to date.
pub fn diff(row: &TrackedMsg, fetched: Option<&FetchedPost>) -> (r: RefreshAction)
    ensures
        r == change_of(
            row.deep_view(),
            match fetched {
                Some(f) => Some(f.deep_view()),
                None => None,
            },
        ),
{
    match fetched {
        None => RefreshAction::Deleted,
        Some(f) => {
            let h: String = content_hash(f.body.as_str());
            if !text::same_text(h.as_str(), row.content_hash.as_str()) {
                RefreshAction::Edited
            } else {
                let comments_changed: bool = match f.comment_count {
                    Some(n) => n != row.comment_count,
                    None => false,
                };
                if !f.reactions.same(&row.reactions) || comments_changed {
                    RefreshAction::StatsChanged
                } else {
                    RefreshAction::Unchanged
                }
            }
        },
    }
}

/// The stripe colour of each route.
pub type RouteColors = NameMap<u32>;

/// The stripe colour of a route that may no longer be known.
pub open spec fn color_of_route(colors: Map<Seq<char>, u32>, route: Seq<char>) -> u32 {
    if colors.dom().contains(route) {
        colors[route]
    } else {
        render::DEFAULT_EMBED_COLOR
    }
}

/// The stripe colour of a route, or the default.
pub fn color_for(colors: &RouteColors, route: &str) -> (r: u32)
    ensures
        r == color_of_route(colors@, route@),
{
    match colors.get(route) {
        Some(c) => *c,
        None => render::DEFAULT_EMBED_COLOR,
    }
}

/// How often, in seconds, to see whether something is due: at the early age for
/// reactions, within a second and a minute.
pub fn base_tick_secs(cfg: &RefreshCfg) -> (r: u64)
    ensures
        r == (if cfg.reaction_early_check_secs < 1 {
            1
        } else if cfg.reaction_early_check_secs > 60 {
            60
        } else {
            cfg.reaction_early_check_secs
        }),
{
    if cfg.reaction_early_check_secs < 1 {
        1
    } else if cfg.reaction_early_check_secs > 60 {
        60
    } else {
        cfg.reaction_early_check_secs
    }
}

/// The ages of a message can be computed.
pub open spec fn ages_fit(row: store::TrackedMsgView, now: i64) -> bool {
    &&& i64::MIN <= now - row.posted_at <= i64::MAX
    &&& i64::MIN <= now - row.last_checked <= i64::MAX
    &&& i64::MIN <= row.last_checked - row.posted_at <= i64::MAX
}

/// What is done about a message now.
pub open spec fn decision_of(row: store::TrackedMsgView, now: i64, cfg: RefreshCfg) -> RefreshDecision {
    decision_for(
        (now - row.posted_at) as i64,
        (now - row.last_checked) as i64,
        (row.last_checked - row.posted_at) as i64,
        cfg,
    )
}

/// The times of all messages, and the settings, are such that ages can be computed.
pub open spec fn timing_ok(due: Seq<store::TrackedMsgView>, now: i64, cfg: RefreshCfg) -> bool {
    &&& minutes_fit(cfg)
    &&& forall|i: int| 0 <= i < due.len() ==> ages_fit(#[trigger] due[i], now)
}

/// Whether the times of all messages, and the settings, are such that ages can be
/// computed.
pub fn timing_fits(due: &Vec<TrackedMsg>, now: i64, cfg: &RefreshCfg) -> (r: bool)
    ensures
        r == timing_ok(due.deep_view(), now, *cfg),
{
    if cfg.interval_mins > u64::MAX / 60 || cfg.reaction_horizon_mins > u64::MAX / 60 {
        return false;
    }
    let ghost rows = due.deep_view();
    let mut i: usize = 0;
    while i < due.len()
        invariant
            minutes_fit(*cfg),
            rows == due.deep_view(),
            i <= rows.len(),
            forall|j: int| 0 <= j < i ==> ages_fit(#[trigger] rows[j], now),
        decreases rows.len() - i,
    {
        assert(rows[i as int] == due@[i as int].deep_view());
        let t: &TrackedMsg = &due[i];
        if now.checked_sub(t.posted_at).is_none() || now.checked_sub(t.last_checked).is_none()
            || t.last_checked.checked_sub(t.posted_at).is_none() {
            return false;
        }
        i = i + 1;
    }
    true
}

/// The messages of a chat, in their order.
pub open spec fn rows_of(due: Seq<store::TrackedMsgView>, chat: i64) -> Seq<store::TrackedMsgView>
    decreases due.len(),
{
    if due.len() == 0 {
        Seq::empty()
    } else if due.last().chat_id == chat {
        rows_of(due.drop_last(), chat).push(due.last())
    } else {
        rows_of(due.drop_last(), chat)
    }
}

/// The chats of some messages, in the order in which they first come.
pub open spec fn chats_of(due: Seq<store::TrackedMsgView>) -> Seq<i64>
    decreases due.len(),
{
    if due.len() == 0 {
        Seq::empty()
    } else if chats_of(due.drop_last()).contains(due.last().chat_id) {
        chats_of(due.drop_last())
    } else {
        chats_of(due.drop_last()).push(due.last().chat_id)
    }
}

/// `x` in its place in an ascending list, once.
pub open spec fn insert_id(ids: Seq<i32>, x: i32) -> Seq<i32>
    decreases ids.len(),
{
    if ids.len() == 0 || ids.last() < x {
        ids.push(x)
    } else if ids.last() == x {
        ids
    } else {
        insert_id(ids.drop_last(), x).push(ids.last())
    }
}

/// The messages to ask for: those whose source is looked at now, ascending, each once.
pub open spec fn wanted_ids(rows: Seq<store::TrackedMsgView>, now: i64, cfg: RefreshCfg) -> Seq<i32>
    decreases rows.len(),
{
    if rows.len() == 0 {
        Seq::empty()
    } else if decision_of(rows.last(), now, cfg).fetch {
        insert_id(wanted_ids(rows.drop_last(), now, cfg), rows.last().tg_msg_id)
    } else {
        wanted_ids(rows.drop_last(), now, cfg)
    }
}

/// `ids` in batches of `max`, the last one possibly smaller.
pub open spec fn batches_of(ids: Seq<i32>, max: nat) -> Seq<Seq<i32>>
    decreases ids.len(),
{
    if ids.len() == 0 || max == 0 {
        Seq::empty()
    } else if ids.len() <= max {
        seq![ids]
    } else {
        seq![ids.take(max as int)] + batches_of(ids.skip(max as int), max)
    }
}

/// What is done about the messages of one chat: which messages to ask for, in batches.
pub struct ChatPlan {
    pub chat_id: i64,
    pub rows: Vec<TrackedMsg>,
    pub decisions: Vec<RefreshDecision>,
    pub batches: Vec<Vec<i32>>,
}

pub struct ChatPlanView {
    pub chat_id: i64,
    pub rows: Seq<store::TrackedMsgView>,
    pub decisions: Seq<RefreshDecision>,
    pub batches: Seq<Seq<i32>>,
}

impl DeepView for ChatPlan {
    type V = ChatPlanView;

    open spec fn deep_view(&self) -> ChatPlanView {
        ChatPlanView {
            chat_id: self.chat_id,
            rows: self.rows.deep_view(),
            decisions: self.decisions@,
            batches: self.batches.deep_view(),
        }
    }
}

/// What is done about the messages of one chat.
pub open spec fn chat_plan(due: Seq<store::TrackedMsgView>, chat: i64, now: i64, cfg: RefreshCfg) -> ChatPlanView {
    let rows = rows_of(due, chat);
    ChatPlanView {
        chat_id: chat,
        rows,
        decisions: rows.map_values(|r: store::TrackedMsgView| decision_of(r, now, cfg)),
        batches: batches_of(wanted_ids(rows, now, cfg), BATCH_MAX as nat),
    }
}

/// What is done about the messages of some chats: those without a message to ask for are
/// left out.
pub open spec fn plans_for(
    due: Seq<store::TrackedMsgView>,
    chats: Seq<i64>,
    now: i64,
    cfg: RefreshCfg,
) -> Seq<ChatPlanView>
    decreases chats.len(),
{
    if chats.len() == 0 {
        Seq::empty()
    } else {
        let before = plans_for(due, chats.drop_last(), now, cfg);
        if wanted_ids(rows_of(due, chats.last()), now, cfg).len() > 0 {
            before.push(chat_plan(due, chats.last(), now, cfg))
        } else {
            before
        }
    }
}

/// What one look at all messages comes to.
pub struct TickPlan {
    pub chats: Vec<ChatPlan>,
    /// Old rows are dropped afterwards, whether anything was due or not.
    pub prune: bool,
}

fn distinct_chats(due: &Vec<TrackedMsg>) -> (r: Vec<i64>)
    ensures
        r@ == chats_of(due.deep_view()),
{
    let ghost rows = due.deep_view();
    let mut out: Vec<i64> = Vec::new();
    let mut i: usize = 0;
    assert(rows.take(0) =~= Seq::<store::TrackedMsgView>::empty());
    assert(out@ =~= Seq::<i64>::empty());
    while i < due.len()
        invariant
            rows == due.deep_view(),
            i <= rows.len(),
            out@ == chats_of(rows.take(i as int)),
        decreases rows.len() - i,
    {
        assert(rows.take(i + 1).drop_last() =~= rows.take(i as int));
        assert(rows.take(i + 1).last() == due@[i as int].deep_view());
        let chat: i64 = due[i].chat_id;
        let mut k: usize = 0;
        let mut known: bool = false;
        while k < out.len()
            invariant
                k <= out@.len(),
                known <==> exists|j: int| 0 <= j < k && #[trigger] out@[j] == chat,
            decreases out@.len() - k,
        {
            if out[k] == chat {
                known = true;
            }
            k = k + 1;
        }
        assert(known <==> out@.contains(chat));
        if !known {
            out.push(chat);
        }
        i = i + 1;
    }
    assert(rows.take(rows.len() as int) =~= rows);
    out
}

fn copy_row(t: &TrackedMsg) -> (r: TrackedMsg)
    ensures
        r.deep_view() == t.deep_view(),
{
    let image_urls: Vec<String> = t.image_urls.clone();
    assert(image_urls.deep_view() =~= t.image_urls.deep_view());
    TrackedMsg {
        chat_id: t.chat_id,
        tg_msg_id: t.tg_msg_id,
        route: t.route.clone(),
        webhook_name: t.webhook_name.clone(),
        discord_msg_id: t.discord_msg_id.clone(),
        content_hash: t.content_hash.clone(),
        reactions: t.reactions.clone(),
        comment_count: t.comment_count,
        posted_at: t.posted_at,
        last_checked: t.last_checked,
        edited: t.edited,
        image_urls,
    }
}

proof fn lemma_insert_id_at(ids: Seq<i32>, x: i32, at: int)
    requires
        0 <= at <= ids.len(),
        at == 0 || ids[at - 1] <= x,
        forall|j: int| at <= j < ids.len() ==> #[trigger] ids[j] > x,
    ensures
        insert_id(ids, x) == (if at > 0 && ids[at - 1] == x {
            ids
        } else {
            ids.insert(at, x)
        }),
    decreases ids.len(),
{
    if at < ids.len() {
        let init = ids.drop_last();
        assert(ids[ids.len() - 1] > x);
        lemma_insert_id_at(init, x, at);
        assert(insert_id(ids, x) =~= (if at > 0 && ids[at - 1] == x {
            ids
        } else {
            ids.insert(at, x)
        }));
    } else if at > 0 && ids[at - 1] == x {
    } else {
        assert(insert_id(ids, x) =~= ids.insert(at, x));
    }
}

fn put_id(ids: &mut Vec<i32>, x: i32)
    ensures
        final(ids)@ == insert_id(old(ids)@, x),
{
    let mut at: usize = ids.len();
    while at > 0 && ids[at - 1] > x
        invariant
            at <= ids@.len(),
            ids@ == old(ids)@,
            forall|j: int| at <= j < ids@.len() ==> #[trigger] ids@[j] > x,
        decreases at,
    {
        at = at - 1;
    }
    proof {
        lemma_insert_id_at(ids@, x, at as int);
    }
    if at > 0 && ids[at - 1] == x {
        return;
    }
    ids.insert(at, x);
}

/// Cut a list of messages into batches.
pub fn batch_ids(ids: &Vec<i32>, max: usize) -> (r: Vec<Vec<i32>>)
    requires
        max > 0,
    ensures
        r.deep_view() == batches_of(ids@, max as nat),
{
    let mut out: Vec<Vec<i32>> = Vec::new();
    let mut at: usize = 0;
    assert(ids@.skip(0) =~= ids@);
    assert(out.deep_view() + batches_of(ids@, max as nat) =~= batches_of(ids@, max as nat));
    while at < ids.len()
        invariant
            max > 0,
            at <= ids@.len(),
            out.deep_view() + batches_of(ids@.skip(at as int), max as nat) == batches_of(
                ids@,
                max as nat,
            ),
        decreases ids@.len() - at,
    {
        let ghost rest = ids@.skip(at as int);
        let ghost done = out.deep_view();
        let to: usize = if ids.len() - at <= max {
            ids.len()
        } else {
            at + max
        };
        let mut batch: Vec<i32> = Vec::new();
        let mut k: usize = at;
        while k < to
            invariant
                at <= k <= to <= ids@.len(),
                batch@ == ids@.subrange(at as int, k as int),
            decreases to - k,
        {
            batch.push(ids[k]);
            k = k + 1;
            assert(batch@ =~= ids@.subrange(at as int, k as int));
        }
        out.push(batch);
        proof {
            assert(batch.deep_view() =~= batch@);
            assert(out.deep_view() =~= done.push(batch@));
            if rest.len() <= max {
                assert(batch@ =~= rest);
                assert(batches_of(ids@.skip(to as int), max as nat) =~= Seq::<Seq<i32>>::empty());
            } else {
                assert(batch@ =~= rest.take(max as int));
                assert(rest.skip(max as int) =~= ids@.skip(to as int));
            }
            assert(out.deep_view() + batches_of(ids@.skip(to as int), max as nat) =~= done
                + batches_of(rest, max as nat));
        }
        at = to;
    }
    assert(batches_of(ids@.skip(at as int), max as nat) =~= Seq::<Seq<i32>>::empty());
    assert(out.deep_view() =~= batches_of(ids@, max as nat));
    out
}

/// Batches hold what the list holds, in its order, and none is larger than it may be.
pub proof fn lemma_batches(ids: Seq<i32>, max: nat)
    requires
        max > 0,
    ensures
        flat(batches_of(ids, max)) == ids,
        forall|i: int|
            0 <= i < batches_of(ids, max).len() ==> 0 < (#[trigger] batches_of(ids, max)[i]).len()
                <= max,
    decreases ids.len(),
{
    let b = batches_of(ids, max);
    if ids.len() == 0 {
        assert(flat(b) =~= ids);
    } else if ids.len() <= max {
        assert(b.skip(1) =~= Seq::<Seq<i32>>::empty());
        assert(flat(b.skip(1)) =~= Seq::<i32>::empty());
        assert(flat(b) =~= ids);
    } else {
        let rest = ids.skip(max as int);
        lemma_batches(rest, max);
        assert(b.skip(1) =~= batches_of(rest, max));
        assert(flat(b) =~= ids);
        assert forall|i: int| 0 <= i < b.len() implies 0 < (#[trigger] b[i]).len() <= max by {
            if i > 0 {
                assert(b[i] == batches_of(rest, max)[i - 1]);
            }
        }
    }
}

/// Lists one behind the other.
pub open spec fn flat(lists: Seq<Seq<i32>>) -> Seq<i32>
    decreases lists.len(),
{
    if lists.len() == 0 {
        Seq::empty()
    } else {
        lists[0] + flat(lists.skip(1))
    }
}

fn plan_chat(due: &Vec<TrackedMsg>, chat: i64, now: i64, cfg: &RefreshCfg) -> (r: Option<ChatPlan>)
    requires
        timing_ok(due.deep_view(), now, *cfg),
    ensures
        match r {
            Some(p) => {
                &&& wanted_ids(rows_of(due.deep_view(), chat), now, *cfg).len() > 0
                &&& p.deep_view() == chat_plan(due.deep_view(), chat, now, *cfg)
            },
            None => wanted_ids(rows_of(due.deep_view(), chat), now, *cfg).len() == 0,
        },
{
    let ghost all = due.deep_view();
    let mut rows: Vec<TrackedMsg> = Vec::new();
    let mut decisions: Vec<RefreshDecision> = Vec::new();
    let mut ids: Vec<i32> = Vec::new();
    let mut i: usize = 0;
    assert(all.take(0) =~= Seq::<store::TrackedMsgView>::empty());
    assert(rows.deep_view() =~= Seq::<store::TrackedMsgView>::empty());
    assert(ids@ =~= Seq::<i32>::empty());
    while i < due.len()
        invariant
            timing_ok(all, now, *cfg),
            all == due.deep_view(),
            i <= all.len(),
            rows.deep_view() == rows_of(all.take(i as int), chat),
            decisions@.len() == rows@.len(),
            forall|j: int|
                0 <= j < rows@.len() ==> #[trigger] decisions@[j] == decision_of(
                    rows_of(all.take(i as int), chat)[j],
                    now,
                    *cfg,
                ),
            ids@ == wanted_ids(rows_of(all.take(i as int), chat), now, *cfg),
        decreases all.len() - i,
    {
        let ghost x = all[i as int];
        assert(x == due@[i as int].deep_view());
        assert(all.take(i + 1).drop_last() =~= all.take(i as int));
        assert(all.take(i + 1).last() == x);
        if due[i].chat_id == chat {
            let ghost had = rows.deep_view();
            let t: &TrackedMsg = &due[i];
            assert(ages_fit(x, now));
            let d: RefreshDecision = decide_refresh(
                now - t.posted_at,
                now - t.last_checked,
                t.last_checked - t.posted_at,
                cfg,
            );
            assert(d == decision_of(x, now, *cfg));
            let id: i32 = t.tg_msg_id;
            let copy: TrackedMsg = copy_row(t);
            rows.push(copy);
            decisions.push(d);
            let ghost next = rows_of(all.take(i + 1), chat);
            assert(rows.deep_view() =~= had.push(x));
            assert(next =~= had.push(x));
            assert(next.drop_last() =~= had);
            if d.fetch {
                put_id(&mut ids, id);
            }
            assert(had.len() == rows@.len() - 1);
            assert forall|j: int| 0 <= j < rows@.len() implies #[trigger] decisions@[j]
                == decision_of(next[j], now, *cfg) by {
                if j < had.len() {
                    assert(next[j] == had[j]);
                }
            }
        }
        i = i + 1;
    }
    assert(all.take(all.len() as int) =~= all);
    if ids.len() == 0 {
        return None;
    }
    let batches: Vec<Vec<i32>> = batch_ids(&ids, BATCH_MAX);
    let p: ChatPlan = ChatPlan { chat_id: chat, rows, decisions, batches };
    assert(rows.deep_view().len() == rows@.len());
    assert(p.decisions@ =~= rows_of(all, chat).map_values(
        |r: store::TrackedMsgView| decision_of(r, now, *cfg),
    ));
    Some(p)
}

/// Decide what one look at the messages that are due comes to: per chat, which messages
/// to ask for. Old rows go at the end of every look.
pub fn plan_tick(due: &Vec<TrackedMsg>, now: i64, cfg: &RefreshCfg) -> (r: TickPlan)
    requires
        timing_ok(due.deep_view(), now, *cfg),
    ensures
        r.chats.deep_view() == plans_for(due.deep_view(), chats_of(due.deep_view()), now, *cfg),
        r.prune,
{
    let ghost all = due.deep_view();
    let chats: Vec<i64> = distinct_chats(due);
    let mut plans: Vec<ChatPlan> = Vec::new();
    let mut i: usize = 0;
    assert(chats@.take(0) =~= Seq::<i64>::empty());
    assert(plans.deep_view() =~= Seq::<ChatPlanView>::empty());
    while i < chats.len()
        invariant
            all == due.deep_view(),
            timing_ok(all, now, *cfg),
            chats@ == chats_of(all),
            i <= chats@.len(),
            plans.deep_view() == plans_for(all, chats@.take(i as int), now, *cfg),
        decreases chats@.len() - i,
    {
        let ghost done = plans.deep_view();
        assert(chats@.take(i + 1).drop_last() =~= chats@.take(i as int));
        assert(chats@.take(i + 1).last() == chats@[i as int]);
        match plan_chat(due, chats[i], now, cfg) {
            Some(p) => {
                plans.push(p);
                assert(plans.deep_view() =~= done.push(p.deep_view()));
            },
            None => {},
        }
        i = i + 1;
    }
    assert(chats@.take(chats@.len() as int) =~= chats@);
    TickPlan { chats: plans, prune: true }
}

/// The messages to ask for come ascending, each once, and they are exactly those whose
/// source is looked at now.
pub proof fn lemma_wanted_ids(rows: Seq<store::TrackedMsgView>, now: i64, cfg: RefreshCfg)
    ensures
        forall|i: int, j: int|
            #![trigger wanted_ids(rows, now, cfg)[i], wanted_ids(rows, now, cfg)[j]]
            0 <= i < j < wanted_ids(rows, now, cfg).len() ==> wanted_ids(rows, now, cfg)[i]
                < wanted_ids(rows, now, cfg)[j],
        forall|id: i32|
            #[trigger] wanted_ids(rows, now, cfg).contains(id) <==> exists|i: int|
                0 <= i < rows.len() && (#[trigger] rows[i]).tg_msg_id == id && decision_of(
                    rows[i],
                    now,
                    cfg,
                ).fetch,
    decreases rows.len(),
{
    if rows.len() > 0 {
        let init = rows.drop_last();
        let x = rows.last();
        lemma_wanted_ids(init, now, cfg);
        let had = wanted_ids(init, now, cfg);
        if decision_of(x, now, cfg).fetch {
            lemma_insert_id(had, x.tg_msg_id);
        }
        assert forall|id: i32|
            #[trigger] wanted_ids(rows, now, cfg).contains(id) <==> exists|i: int|
                0 <= i < rows.len() && (#[trigger] rows[i]).tg_msg_id == id && decision_of(
                    rows[i],
                    now,
                    cfg,
                ).fetch by {
            assert(had.contains(id) <==> exists|i: int|
                0 <= i < init.len() && (#[trigger] init[i]).tg_msg_id == id && decision_of(
                    init[i],
                    now,
                    cfg,
                ).fetch);
            if exists|i: int|
                0 <= i < init.len() && (#[trigger] init[i]).tg_msg_id == id && decision_of(
                    init[i],
                    now,
                    cfg,
                ).fetch {
                let i = choose|i: int|
                    0 <= i < init.len() && (#[trigger] init[i]).tg_msg_id == id && decision_of(
                        init[i],
                        now,
                        cfg,
                    ).fetch;
                assert(rows[i] == init[i]);
            }
            if exists|i: int|
                0 <= i < rows.len() && (#[trigger] rows[i]).tg_msg_id == id && decision_of(
                    rows[i],
                    now,
                    cfg,
                ).fetch {
                let i = choose|i: int|
                    0 <= i < rows.len() && (#[trigger] rows[i]).tg_msg_id == id && decision_of(
                        rows[i],
                        now,
                        cfg,
                    ).fetch;
                if i < init.len() {
                    assert(init[i] == rows[i]);
                }
            }
            assert(rows[rows.len() - 1] == x);
        }
    }
}

proof fn lemma_insert_id(ids: Seq<i32>, x: i32)
    requires
        forall|i: int, j: int|
            #![trigger ids[i], ids[j]]
            0 <= i < j < ids.len() ==> ids[i] < ids[j],
    ensures
        forall|i: int, j: int|
            #![trigger insert_id(ids, x)[i], insert_id(ids, x)[j]]
            0 <= i < j < insert_id(ids, x).len() ==> insert_id(ids, x)[i] < insert_id(ids, x)[j],
        forall|y: i32| #[trigger] insert_id(ids, x).contains(y) <==> ids.contains(y) || y == x,
    decreases ids.len(),
{
    let q = insert_id(ids, x);
    if ids.len() == 0 || ids.last() < x {
        assert forall|i: int, j: int|
            #![trigger q[i], q[j]]
            0 <= i < j < q.len() implies q[i] < q[j] by {
            if j == ids.len() && i < ids.len() - 1 {
                assert(ids[i] < ids[ids.len() - 1]);
            }
        }
        assert forall|y: i32| #[trigger] q.contains(y) <==> ids.contains(y) || y == x by {
            assert(q[ids.len() as int] == x);
            if ids.contains(y) {
                let i = choose|i: int| 0 <= i < ids.len() && ids[i] == y;
                assert(q[i] == y);
            }
            if q.contains(y) {
                let i = choose|i: int| 0 <= i < q.len() && q[i] == y;
                if i < ids.len() {
                    assert(ids[i] == y);
                }
            }
        }
    } else if ids.last() == x {
        assert(ids[ids.len() - 1] == x);
    } else {
        let init = ids.drop_last();
        assert forall|i: int, j: int|
            #![trigger init[i], init[j]]
            0 <= i < j < init.len() implies init[i] < init[j] by {
            assert(ids[i] < ids[j]);
        }
        lemma_insert_id(init, x);
        let p = insert_id(init, x);
        assert forall|i: int, j: int|
            #![trigger q[i], q[j]]
            0 <= i < j < q.len() implies q[i] < q[j] by {
            if j < p.len() {
                assert(p[i] < p[j]);
            } else {
                assert(p.contains(p[i]));
                if p[i] != x {
                    let k = choose|k: int| 0 <= k < init.len() && init[k] == p[i];
                    assert(ids[k] < ids[ids.len() - 1]);
                }
            }
        }
        assert forall|y: i32| #[trigger] q.contains(y) <==> ids.contains(y) || y == x by {
            assert(p.contains(y) <==> init.contains(y) || y == x);
            assert(q[p.len() as int] == ids.last());
            assert(ids[ids.len() - 1] == ids.last());
            if ids.contains(y) {
                let i = choose|i: int| 0 <= i < ids.len() && ids[i] == y;
                if i < init.len() {
                    assert(init[i] == y);
                }
            }
            if init.contains(y) {
                let i = choose|i: int| 0 <= i < init.len() && init[i] == y;
                assert(ids[i] == y);
            }
            if p.contains(y) {
                let i = choose|i: int| 0 <= i < p.len() && p[i] == y;
                assert(q[i] == y);
            }
            if q.contains(y) {
                let i = choose|i: int| 0 <= i < q.len() && q[i] == y;
                if i < p.len() {
                    assert(p[i] == y);
                }
            }
        }
    }
}

/// What the fetched batches say of each message.
pub open spec fn zipped(ids: Seq<i32>, posts: Seq<Option<FetchedPostView>>) -> Seq<
    (i32, Option<FetchedPostView>),
> {
    Seq::new(
        if ids.len() <= posts.len() {
            ids.len()
        } else {
            posts.len()
        },
        |i: int| (ids[i], posts[i]),
    )
}

/// Note what a batch brought: the posts are in the order in which they were asked for.
pub fn note_batch(
    fetched: &mut Vec<(i32, Option<FetchedPost>)>,
    ids: &Vec<i32>,
    posts: Vec<Option<FetchedPost>>,
)
    ensures
        final(fetched).deep_view() == old(fetched).deep_view() + zipped(ids@, posts.deep_view()),
{
    let ghost before = fetched.deep_view();
    let ghost all = posts.deep_view();
    let ghost want = zipped(ids@, all);
    let mut rest: Vec<Option<FetchedPost>> = posts;
    let mut i: usize = 0;
    assert(all.skip(0) =~= all);
    assert(fetched.deep_view() =~= before + want.take(0));
    while i < ids.len() && rest.len() > 0
        invariant
            want == zipped(ids@, all),
            i <= ids@.len(),
            i <= all.len(),
            rest.deep_view() == all.skip(i as int),
            fetched.deep_view() == before + want.take(i as int),
        decreases ids@.len() - i,
    {
        let ghost now = rest.deep_view();
        let ghost have = fetched.deep_view();
        assert(now.len() == rest@.len());
        assert(now[0] == rest@[0].deep_view());
        assert(now[0] == all[i as int]);
        let post: Option<FetchedPost> = rest.remove(0);
        assert(rest.deep_view() =~= now.skip(1));
        assert(now.skip(1) =~= all.skip(i + 1));
        fetched.push((ids[i], post));
        assert(fetched.deep_view() =~= have.push((ids@[i as int], post.deep_view())));
        assert(want.take(i + 1) =~= want.take(i as int).push(want[i as int]));
        i = i + 1;
        assert(fetched.deep_view() =~= before + want.take(i as int));
    }
    assert(rest.deep_view().len() == rest@.len());
    assert(want.take(want.len() as int) =~= want);
}

/// What is known of a message: nothing, or that it is gone, or what it says now.
pub open spec fn slot_of(fetched: Seq<(i32, Option<FetchedPostView>)>, id: i32) -> Option<
    Option<FetchedPostView>,
>
    decreases fetched.len(),
{
    if fetched.len() == 0 {
        None
    } else if fetched.last().0 == id {
        Some(fetched.last().1)
    } else {
        slot_of(fetched.drop_last(), id)
    }
}

/// What is done about one message after the fetch.
#[derive(Debug, Clone, Copy, PartialEq, Eq, Structural)]
pub enum RowStep {
    /// Nothing: it was not due, or nothing is known of it.
    Leave,
    /// It did not change; that it was looked at is noted.
    Touch,
    /// It changed.
    Apply(RefreshAction),
}

/// What is done about one message after the fetch. Changed figures do not count where
/// the decision says so.
pub open spec fn step_of(
    row: store::TrackedMsgView,
    d: RefreshDecision,
    fetched: Seq<(i32, Option<FetchedPostView>)>,
) -> RowStep {
    if !d.fetch {
        RowStep::Leave
    } else {
        match slot_of(fetched, row.tg_msg_id) {
            None => RowStep::Leave,
            Some(slot) => {
                let change = change_of(row, slot);
                if change is Unchanged || (change is StatsChanged && !d.allow_stats) {
                    RowStep::Touch
                } else {
                    RowStep::Apply(change)
                }
            },
        }
    }
}

/// What is known of a message, by reference.
pub fn find_slot<'a>(fetched: &'a Vec<(i32, Option<FetchedPost>)>, id: i32) -> (r: Option<
    &'a Option<FetchedPost>,
>)
    ensures
        match r {
            Some(s) => slot_of(fetched.deep_view(), id) == Some(s.deep_view()),
            None => slot_of(fetched.deep_view(), id) is None,
        },
{
    let ghost all = fetched.deep_view();
    let mut i: usize = fetched.len();
    assert(all.take(all.len() as int) =~= all);
    while i > 0
        invariant
            all == fetched.deep_view(),
            i <= all.len(),
            slot_of(all, id) == slot_of(all.take(i as int), id),
        decreases i,
    {
        assert(all.take(i as int).last() == all[i - 1]);
        assert(all[i - 1] == (fetched@[i - 1].0, fetched@[i - 1].1.deep_view()));
        assert(all.take(i as int).drop_last() =~= all.take(i - 1));
        if fetched[i - 1].0 == id {
            return Some(&fetched[i - 1].1);
        }
        i = i - 1;
    }
    None
}

/// Decide what is done about one message after the fetch.
pub fn row_step(row: &TrackedMsg, d: RefreshDecision, fetched: &Vec<(i32, Option<FetchedPost>)>) -> (r:
    RowStep)
    ensures
        r == step_of(row.deep_view(), d, fetched.deep_view()),
{
    if !d.fetch {
        return RowStep::Leave;
    }
    match find_slot(fetched, row.tg_msg_id) {
        None => RowStep::Leave,
        Some(slot) => {
            let change: RefreshAction = match slot {
                Some(f) => diff(row, Some(f)),
                None => diff(row, None),
            };
            match change {
                RefreshAction::Unchanged => RowStep::Touch,
                RefreshAction::StatsChanged => if d.allow_stats {
                    RowStep::Apply(change)
                } else {
                    RowStep::Touch
                },
                _ => RowStep::Apply(change),
            }
        },
    }
}

/// A message of which nothing was fetched is left alone: it does not count as deleted.
pub proof fn lemma_failed_fetch_deletes_nothing(
    row: store::TrackedMsgView,
    d: RefreshDecision,
    fetched: Seq<(i32, Option<FetchedPostView>)>,
)
    requires
        forall|i: int| 0 <= i < fetched.len() ==> (#[trigger] fetched[i]).0 != row.tg_msg_id,
    ensures
        step_of(row, d, fetched) is Leave,
{
    lemma_no_slot(fetched, row.tg_msg_id);
}

proof fn lemma_no_slot(fetched: Seq<(i32, Option<FetchedPostView>)>, id: i32)
    requires
        forall|i: int| 0 <= i < fetched.len() ==> (#[trigger] fetched[i]).0 != id,
    ensures
        slot_of(fetched, id) is None,
    decreases fetched.len(),
{
    if fetched.len() > 0 {
        assert(fetched[fetched.len() - 1].0 != id);
        assert forall|i: int| 0 <= i < fetched.drop_last().len() implies (
        #[trigger] fetched.drop_last()[i]).0 != id by {
            assert(fetched[i].0 != id);
        }
        lemma_no_slot(fetched.drop_last(), id);
    }
}

/// `s` up to its first question mark.
pub open spec fn before_query(s: Seq<char>) -> Seq<char>
    decreases s.len(),
{
    if s.len() == 0 {
        s
    } else if s[0] == '?' {
        Seq::empty()
    } else {
        seq![s[0]] + before_query(s.skip(1))
    }
}

/// The position behind the last slash of `s`.
pub open spec fn after_slash(s: Seq<char>) -> int
    decreases s.len(),
{
    if s.len() == 0 {
        0
    } else if s.last() == '/' {
        s.len() as int
    } else {
        after_slash(s.drop_last())
    }
}

/// All characters are digits, and there are some.
pub open spec fn all_digits(s: Seq<char>) -> bool {
    s.len() > 0 && forall|i: int| 0 <= i < s.len() ==> text::is_digit(#[trigger] s[i])
}

/// The id and the name of an attachment, out of the address under which Discord serves it:
/// they are its last two parts.
pub open spec fn attachment_parts(url: Seq<char>) -> Option<(Seq<char>, Seq<char>)> {
    let path = before_query(url);
    let name_at = after_slash(path);
    let name = path.skip(name_at);
    if name_at == 0 || name.len() == 0 {
        None
    } else {
        let head = path.take(name_at - 1);
        let id = head.skip(after_slash(head));
        if all_digits(id) {
            Some((id, name))
        } else {
            None
        }
    }
}

fn find_after_slash(v: &Vec<char>, to: usize) -> (r: usize)
    requires
        to <= v@.len(),
    ensures
        r == after_slash(v@.take(to as int)),
        r <= to,
{
    let mut i: usize = to;
    while i > 0 && v[i - 1] != '/'
        invariant
            i <= to <= v@.len(),
            after_slash(v@.take(to as int)) == after_slash(v@.take(i as int)),
        decreases i,
    {
        assert(v@.take(i as int).last() == v@[i - 1]);
        assert(v@.take(i as int).drop_last() =~= v@.take(i - 1));
        i = i - 1;
    }
    assert(i > 0 ==> v@.take(i as int).last() == v@[i - 1]);
    i
}

fn find_query(v: &Vec<char>) -> (r: usize)
    ensures
        r <= v@.len(),
        before_query(v@) == v@.take(r as int),
{
    let mut i: usize = 0;
    assert(v@.skip(0) =~= v@);
    assert(v@.take(0) + before_query(v@.skip(0)) =~= before_query(v@));
    while i < v.len() && v[i] != '?'
        invariant
            i <= v@.len(),
            v@.take(i as int) + before_query(v@.skip(i as int)) == before_query(v@),
        decreases v@.len() - i,
    {
        let ghost rest = v@.skip(i as int);
        assert(rest[0] == v@[i as int]);
        assert(rest.skip(1) =~= v@.skip(i + 1));
        assert(v@.take(i + 1) + before_query(v@.skip(i + 1)) =~= v@.take(i as int)
            + before_query(rest));
        i = i + 1;
    }
    assert(i < v@.len() ==> v@.skip(i as int)[0] == v@[i as int]);
    assert(v@.take(i as int) + before_query(v@.skip(i as int)) =~= v@.take(i as int));
    i
}

/// The id and the name of an attachment, out of the address under which Discord serves it.
pub fn parse_attachment_url(url: &str) -> (r: Option<(String, String)>)
    ensures
        r.deep_view() == attachment_parts(url@),
{
    let v: Vec<char> = text::chars_of(url);
    let end: usize = find_query(&v);
    let ghost path = v@.take(end as int);
    let name_at: usize = find_after_slash(&v, end);
    assert(path.skip(name_at as int) =~= v@.subrange(name_at as int, end as int));
    if name_at == 0 || name_at == end {
        return None;
    }
    assert(path.take(name_at - 1) =~= v@.take(name_at - 1));
    let id_at: usize = find_after_slash(&v, name_at - 1);
    let ghost id = path.take(name_at - 1).skip(id_at as int);
    assert(id =~= v@.subrange(id_at as int, name_at - 1));
    if id_at == name_at - 1 {
        return None;
    }
    let ghost name = v@.subrange(name_at as int, end as int);
    assert(attachment_parts(url@) == (if all_digits(id) {
        Some((id, name))
    } else {
        None
    }));
    let mut i: usize = id_at;
    while i < name_at - 1
        invariant
            attachment_parts(url@) == (if all_digits(id) {
                Some((id, name))
            } else {
                None
            }),
            id_at <= i <= name_at - 1,
            name_at <= v@.len(),
            id == v@.subrange(id_at as int, name_at - 1),
            forall|j: int| 0 <= j < i - id_at ==> text::is_digit(#[trigger] id[j]),
        decreases name_at - i,
    {
        let c: char = v[i];
        if !('0' <= c && c <= '9') {
            assert(!text::is_digit(id[i - id_at]));
            assert(!all_digits(id));
            return None;
        }
        i = i + 1;
    }
    assert(all_digits(id));
    Some((text::text_between(&v, id_at, name_at - 1), text::text_between(&v, name_at, end)))
}

/// The attachments that stored addresses name.
pub open spec fn kept_attachments(urls: Seq<Seq<char>>) -> Seq<(Seq<char>, Seq<char>)>
    decreases urls.len(),
{
    if urls.len() == 0 {
        Seq::empty()
    } else {
        match attachment_parts(urls.last()) {
            Some(a) => kept_attachments(urls.drop_last()).push(a),
            None => kept_attachments(urls.drop_last()),
        }
    }
}

/// The images to show again: attached images by their names, and addresses that name no
/// attachment as they are.
pub open spec fn shown_images(urls: Seq<Seq<char>>) -> Seq<Seq<char>>
    decreases urls.len(),
{
    if urls.len() == 0 {
        Seq::empty()
    } else {
        let before = shown_images(urls.drop_last());
        match attachment_parts(urls.last()) {
            Some(a) => if render::image_name(a.1) {
                before.push(render::attachment_ref(a.1))
            } else {
                before
            },
            None => before.push(urls.last()),
        }
    }
}

/// Show the stored media of a message again. Gives the attachments that the change must
/// list so that Discord keeps them.
pub fn reattach_stored_media(embeds: &mut Vec<Embed>, urls: &Vec<String>, gallery: Option<&str>) -> (r:
    Vec<(String, String)>)
    ensures
        r.deep_view() == kept_attachments(urls.deep_view()),
        final(embeds).deep_view() == render::with_images(
            old(embeds).deep_view(),
            shown_images(urls.deep_view()),
            match gallery {
                Some(g) => Some(g@),
                None => None,
            },
        ),
{
    let ghost all = urls.deep_view();
    let mut keep: Vec<(String, String)> = Vec::new();
    let mut images: Vec<String> = Vec::new();
    let mut i: usize = 0;
    assert(all.take(0) =~= Seq::<Seq<char>>::empty());
    assert(keep.deep_view() =~= Seq::<(Seq<char>, Seq<char>)>::empty());
    assert(images.deep_view() =~= Seq::<Seq<char>>::empty());
    while i < urls.len()
        invariant
            all == urls.deep_view(),
            i <= all.len(),
            keep.deep_view() == kept_attachments(all.take(i as int)),
            images.deep_view() == shown_images(all.take(i as int)),
        decreases all.len() - i,
    {
        let ghost ks = keep.deep_view();
        let ghost is = images.deep_view();
        assert(all.take(i + 1).drop_last() =~= all.take(i as int));
        assert(all.take(i + 1).last() == urls@[i as int]@);
        match parse_attachment_url(urls[i].as_str()) {
            Some(a) => {
                if render::is_image_filename(a.1.as_str()) {
                    let mut image: String = "attachment://".to_owned();
                    image.append(a.1.as_str());
                    images.push(image);
                    assert(images.deep_view() =~= is.push(render::attachment_ref(a.1@)));
                }
                keep.push(a);
                assert(keep.deep_view() =~= ks.push((a.0@, a.1@)));
            },
            None => {
                images.push(urls[i].clone());
                assert(images.deep_view() =~= is.push(urls@[i as int]@));
            },
        }
        i = i + 1;
    }
    assert(all.take(all.len() as int) =~= all);
    render::attach_image_urls(embeds, &images, gallery);
    keep
}

/// The change of a message.
pub struct Patch {
    pub url: WebhookUrl,
    pub embeds: Vec<Embed>,
    /// The attachments that stay.
    pub keep: Vec<(String, String)>,
}

pub struct PatchView {
    pub url: Seq<char>,
    pub embeds: Seq<render::EmbedView>,
    pub keep: Seq<(Seq<char>, Seq<char>)>,
}

impl DeepView for Patch {
    type V = PatchView;

    open spec fn deep_view(&self) -> PatchView {
        PatchView {
            url: self.url.0@,
            embeds: self.embeds.deep_view(),
            keep: self.keep.deep_view(),
        }
    }
}

/// The text of a message whose source is gone: nothing is known of it any more.
pub open spec fn deleted_text() -> render::RelayTextView {
    render::RelayTextView { sender: None, body: Seq::empty(), reply_quote: None, edited: false }
}

/// What stands beside it: the figures that were known last.
pub open spec fn deleted_meta(row: store::TrackedMsgView, color: u32) -> render::EmbedMetaView {
    render::EmbedMetaView {
        title: "deleted post"@,
        avatar_url: None,
        deep_link: None,
        reactions: row.reactions,
        comment_count: row.comment_count,
        deleted: true,
        color,
        timestamp: None,
    }
}

/// The text of a message whose source changed. Once edited, it stays so.
pub open spec fn changed_text(row: store::TrackedMsgView, f: FetchedPostView, action: RefreshAction) -> render::RelayTextView {
    render::RelayTextView {
        sender: None,
        body: f.body,
        reply_quote: None,
        edited: row.edited || action is Edited,
    }
}

/// What stands beside it.
pub open spec fn changed_meta(row: store::TrackedMsgView, f: FetchedPostView, color: u32) -> render::EmbedMetaView {
    render::EmbedMetaView {
        title: f.title,
        avatar_url: None,
        deep_link: f.deep_link,
        reactions: f.reactions,
        comment_count: comments_now(f.comment_count, row.comment_count),
        deleted: false,
        color,
        timestamp: f.date,
    }
}

/// The change of the message, for a change of the source; nothing where nothing changed
/// or the webhook is no longer known.
pub open spec fn patch_of(
    action: RefreshAction,
    row: store::TrackedMsgView,
    fetched: Option<FetchedPostView>,
    urls: Map<Seq<char>, Seq<char>>,
    colors: Map<Seq<char>, u32>,
    footer: Seq<char>,
) -> Option<PatchView> {
    let color = color_of_route(colors, row.route);
    if action is Unchanged || !urls.dom().contains(row.webhook_name) {
        None
    } else {
        match (action, fetched) {
            (RefreshAction::Deleted, _) => Some(
                PatchView {
                    url: urls[row.webhook_name],
                    embeds: render::with_images(
                        render::embeds_of(deleted_text(), deleted_meta(row, color), footer),
                        shown_images(row.image_urls),
                        None,
                    ),
                    keep: kept_attachments(row.image_urls),
                },
            ),
            (_, Some(f)) => Some(
                PatchView {
                    url: urls[row.webhook_name],
                    embeds: render::with_images(
                        render::embeds_of(
                            changed_text(row, f, action),
                            changed_meta(row, f, color),
                            footer,
                        ),
                        shown_images(row.image_urls),
                        f.deep_link,
                    ),
                    keep: kept_attachments(row.image_urls),
                },
            ),
            (_, None) => None,
        }
    }
}

/// The change of the message for a change of the source, with a given footer. A change
/// replaces the whole embed, so everything that is to stay is said again.
pub fn patch_with_footer(
    action: RefreshAction,
    row: &TrackedMsg,
    fetched: Option<&FetchedPost>,
    webhooks: &NameMap<WebhookUrl>,
    colors: &RouteColors,
    footer: &str,
) -> (r: Option<Patch>)
    ensures
        r.deep_view() == patch_of(
            action,
            row.deep_view(),
            match fetched {
                Some(f) => Some(f.deep_view()),
                None => None,
            },
            config::urls(webhooks@),
            colors@,
            footer@,
        ),
{
    let url: WebhookUrl = match webhooks.get(row.webhook_name.as_str()) {
        Some(u) => u.clone(),
        None => {
            return None;
        },
    };
    let color: u32 = color_for(colors, row.route.as_str());
    match action {
        RefreshAction::Unchanged => None,
        RefreshAction::Deleted => {
            let post: RelayText = RelayText {
                sender: None,
                body: String::new(),
                reply_quote: None,
                edited: false,
            };
            let meta: EmbedMeta = EmbedMeta {
                title: "deleted post".to_owned(),
                avatar_url: None,
                deep_link: None,
                reactions: row.reactions.clone(),
                comment_count: row.comment_count,
                deleted: true,
                color,
                timestamp: None,
            };
            assert(post.deep_view() == deleted_text());
            assert(meta.deep_view() == deleted_meta(row.deep_view(), color));
            let mut embeds: Vec<Embed> = render::embed_with_footer(&post, &meta, footer);
            let keep: Vec<(String, String)> = reattach_stored_media(
                &mut embeds,
                &row.image_urls,
                None,
            );
            Some(Patch { url, embeds, keep })
        },
        RefreshAction::Edited | RefreshAction::StatsChanged => match fetched {
            None => None,
            Some(f) => {
                let is_edited: bool = row.edited || matches!(action, RefreshAction::Edited);
                let post: RelayText = RelayText {
                    sender: None,
                    body: f.body.clone(),
                    reply_quote: None,
                    edited: is_edited,
                };
                let meta: EmbedMeta = EmbedMeta {
                    title: f.title.clone(),
                    avatar_url: None,
                    deep_link: f.deep_link.clone(),
                    reactions: f.reactions.clone(),
                    comment_count: effective_comment_count(f.comment_count, row.comment_count),
                    deleted: false,
                    color,
                    timestamp: f.date.clone(),
                };
                assert(post.deep_view() == changed_text(row.deep_view(), f.deep_view(), action));
                assert(meta.deep_view() == changed_meta(row.deep_view(), f.deep_view(), color));
                let mut embeds: Vec<Embed> = render::embed_with_footer(&post, &meta, footer);
                let gallery: Option<&str> = match &f.deep_link {
                    Some(l) => Some(l.as_str()),
                    None => None,
                };
                let keep: Vec<(String, String)> = reattach_stored_media(
                    &mut embeds,
                    &row.image_urls,
                    gallery,
                );
                Some(Patch { url, embeds, keep })
            },
        },
    }
}

/// The change of the message for a change of the source, with a footer out of the list.
pub fn patch_for(
    action: RefreshAction,
    row: &TrackedMsg,
    fetched: Option<&FetchedPost>,
    webhooks: &NameMap<WebhookUrl>,
    colors: &RouteColors,
) -> (r: Option<Patch>)
    ensures
        exists|i: int|
            0 <= i < render::FOOTERS@.len() && r.deep_view() == patch_of(
                action,
                row.deep_view(),
                match fetched {
                    Some(f) => Some(f.deep_view()),
                    None => None,
                },
                config::urls(webhooks@),
                colors@,
                (#[trigger] render::FOOTERS@[i])@,
            ),
{
    let footer: &'static str = render::footer_variant();
    patch_with_footer(action, row, fetched, webhooks, colors, footer)
}

/// The rows after a change of a source was dealt with.
pub open spec fn rows_after(
    rows: Seq<store::RowView>,
    action: RefreshAction,
    row: store::TrackedMsgView,
    fetched: Option<FetchedPostView>,
    now: i64,
) -> Seq<store::RowView> {
    match (action, fetched) {
        (RefreshAction::Deleted, _) => store::with_deleted(rows, row.chat_id, row.tg_msg_id, now),
        (RefreshAction::Edited, Some(f)) | (RefreshAction::StatsChanged, Some(f)) => {
            let marked = if action is Edited && !row.edited {
                store::with_edited(rows, row.chat_id, row.tg_msg_id)
            } else {
                rows
            };
            store::updated(
                marked,
                row.chat_id,
                row.tg_msg_id,
                row.discord_msg_id,
                content_hash_of(f.body),
                f.reactions,
                comments_now(f.comment_count, row.comment_count),
                now,
            )
        },
        _ => rows,
    }
}

/// Note a change of a source that was dealt with. Where the webhook of the message is no
/// longer known, nothing was done and nothing is noted.
pub fn apply_to_store(
    store: &mut Store,
    action: RefreshAction,
    row: &TrackedMsg,
    fetched: Option<&FetchedPost>,
    webhooks: &NameMap<WebhookUrl>,
    now: i64,
)
    ensures
        final(store).rows() == (if webhooks@.dom().contains(row.webhook_name@) {
            rows_after(
                old(store).rows(),
                action,
                row.deep_view(),
                match fetched {
                    Some(f) => Some(f.deep_view()),
                    None => None,
                },
                now,
            )
        } else {
            old(store).rows()
        }),
        final(store).identities() == old(store).identities(),
{
    if webhooks.get(row.webhook_name.as_str()).is_none() {
        return;
    }
    match action {
        RefreshAction::Unchanged => {},
        RefreshAction::Deleted => {
            store.mark_deleted(row.chat_id, row.tg_msg_id, now);
        },
        RefreshAction::Edited | RefreshAction::StatsChanged => match fetched {
            None => {},
            Some(f) => {
                if matches!(action, RefreshAction::Edited) && !row.edited {
                    store.mark_edited(row.chat_id, row.tg_msg_id);
                }
                let h: String = content_hash(f.body.as_str());
                store.update_stats(
                    row.chat_id,
                    row.tg_msg_id,
                    row.discord_msg_id.as_str(),
                    h.as_str(),
                    &f.reactions,
                    effective_comment_count(f.comment_count, row.comment_count),
                    now,
                );
            },
        },
    }
}

/// A change is dealt with once: with the row as it is noted afterwards, the same source
/// shows no further change.
pub proof fn lemma_refresh_settles(
    rows: Seq<store::RowView>,
    action: RefreshAction,
    row: store::TrackedMsgView,
    f: FetchedPostView,
    now: i64,
    i: int,
)
    requires
        action is Edited || action is StatsChanged,
        0 <= i < rows.len(),
        store::has_key(rows[i], row.chat_id, row.tg_msg_id, row.discord_msg_id),
    ensures
        change_of(store::message_of(rows_after(rows, action, row, Some(f), now)[i]), Some(f))
            is Unchanged,
{
}

/// A deleted source is dealt with once: no message of it is due any more.
pub proof fn lemma_deleted_settles(
    rows: Seq<store::RowView>,
    row: store::TrackedMsgView,
    fetched: Option<FetchedPostView>,
    now: i64,
    cut: int,
    r: store::RowView,
)
    requires
        store::due_rows(rows_after(rows, RefreshAction::Deleted, row, fetched, now), cut).contains(
            r,
        ),
    ensures
        !(r.chat_id == row.chat_id && r.tg_msg_id == row.tg_msg_id),
{
    store::lemma_deleted_is_not_due(rows, row.chat_id, row.tg_msg_id, now, cut, r);
}

/// A message shows the state of its source: it turns red with a deletion, orange with an
/// edit, and stays orange with every later change that is not a deletion. Otherwise it
/// keeps the colour of its route.
pub proof fn lemma_state_shows(
    action: RefreshAction,
    row: store::TrackedMsgView,
    fetched: Option<FetchedPostView>,
    urls: Map<Seq<char>, Seq<char>>,
    colors: Map<Seq<char>, u32>,
    footer: Seq<char>,
)
    requires
        patch_of(action, row, fetched, urls, colors, footer) is Some,
    ensures
        patch_of(action, row, fetched, urls, colors, footer)->0.embeds[0].color == Some(
            if action is Deleted {
                render::DELETED_EMBED_COLOR
            } else if row.edited || action is Edited {
                render::EDITED_EMBED_COLOR
            } else {
                color_of_route(colors, row.route)
            },
        ),
{
    let color = color_of_route(colors, row.route);
    match (action, fetched) {
        (RefreshAction::Deleted, _) => {
            let base = render::embeds_of(deleted_text(), deleted_meta(row, color), footer);
            render::lemma_embeds(deleted_text(), deleted_meta(row, color), footer);
            assert(base[0].color == Some(render::DELETED_EMBED_COLOR));
            assert(render::with_images(base, shown_images(row.image_urls), None)[0].color
                == base[0].color);
        },
        (_, Some(f)) => {
            let said = changed_text(row, f, action);
            let meta = changed_meta(row, f, color);
            let base = render::embeds_of(said, meta, footer);
            render::lemma_embeds(said, meta, footer);
            assert(base[0].color == Some(render::stripe_of(said, meta)));
            assert(render::with_images(base, shown_images(row.image_urls), f.deep_link)[0].color
                == base[0].color);
        },
        (_, None) => {},
    }
}

/// A fetch that does not know the number of comments does not take it away.
pub proof fn lemma_unknown_comments_kept(row: store::TrackedMsgView, f: FetchedPostView, color: u32)
    requires
        f.comment_count is None,
    ensures
        changed_meta(row, f, color).comment_count == row.comment_count,
        content_hash_of(f.body) == row.content_hash && f.reactions == row.reactions ==> change_of(
            row,
            Some(f),
        ) is Unchanged,
{
}

/// What a patch shows once, on the embed that carries the signature: the figures with the
/// link to the source, and the time of the source.
pub open spec fn signed_with(
    embeds: Seq<render::EmbedView>,
    footer: Seq<char>,
    stats: Seq<char>,
    link: Option<Seq<char>>,
    date: Option<Seq<char>>,
    k: int,
) -> bool {
    &&& 0 <= k < embeds.len()
    &&& embeds[k].footer == Some("by zayd — "@ + footer)
    &&& embeds[k].timestamp == date
    &&& link is None && stats.len() == 0 ==> embeds[k].field is None
    &&& link is None && stats.len() > 0 ==> embeds[k].field == Some(stats)
    &&& link is Some && stats.len() == 0 ==> embeds[k].field == Some(
        "[↗ View on Telegram]("@ + link->0 + ")"@,
    )
    &&& link is Some && stats.len() > 0 ==> embeds[k].field == Some(
        stats + "\n"@ + ("[↗ View on Telegram]("@ + link->0 + ")"@),
    )
    &&& forall|j: int|
        0 <= j < embeds.len() && j != k ==> (#[trigger] embeds[j]).footer is None
            && embeds[j].field is None && embeds[j].timestamp is None
}

/// The images that are shown from the `k`-th embed on.
pub open spec fn shows_images_from(
    embeds: Seq<render::EmbedView>,
    images: Seq<Seq<char>>,
    k: int,
) -> bool {
    &&& forall|j: int|
        0 <= j < images.len() && k + j < 10 ==> k + j < embeds.len() && (
        #[trigger] embeds[k + j]).image == Some(images[j])
    &&& images.len() == 0 ==> embeds.len() == k + 1
}

/// What stands on the embeds of a post, also with images in them; `k` is the last embed of the
/// text.
pub proof fn lemma_signed(
    said: render::RelayTextView,
    meta: render::EmbedMetaView,
    images: Seq<Seq<char>>,
    gallery: Option<Seq<char>>,
    footer: Seq<char>,
) -> (k: int)
    ensures
        ({
            let r = render::with_images(render::embeds_of(said, meta, footer), images, gallery);
            &&& k == render::embeds_of(said, meta, footer).len() - 1
            &&& signed_with(
                r,
                footer,
                render::stats_of(meta.reactions, meta.comment_count),
                meta.deep_link,
                meta.timestamp,
                k,
            )
            &&& shows_images_from(r, images, k)
            &&& r[0].author == Some(
                render::EmbedAuthorView {
                    name: meta.title,
                    url: meta.deep_link,
                    icon_url: meta.avatar_url,
                },
            )
            &&& r[k].field == render::embeds_of(said, meta, footer).last().field
            &&& render::all_said(r) == render::all_said(render::embeds_of(said, meta, footer))
            &&& forall|i: int|
                0 <= i <= k ==> (#[trigger] r[i]).color == render::embeds_of(
                    said,
                    meta,
                    footer,
                )[i].color
        }),
{
    let base = render::embeds_of(said, meta, footer);
    let r = render::with_images(base, images, gallery);
    render::lemma_embeds(said, meta, footer);
    render::lemma_embeds_carry(said, meta, footer);
    render::lemma_images_shown(base, images, gallery);
    render::lemma_images_say_nothing(base, images, gallery);
    let k = base.len() - 1;
    assert forall|j: int| 0 <= j < r.len() && j != k implies (#[trigger] r[j]).footer is None
        && r[j].field is None && r[j].timestamp is None by {
        if j < k {
            assert(base[j].footer is None);
        }
    }
    k
}

/// A changed source is shown as it is now: the message at its webhook says the body of the
/// source, behind a mark once it was edited, names its channel, and shows the reactions of
/// the source, its comments as far as they are known, its link and its time. What the record
/// held of these before does not show.
pub proof fn lemma_patch_shows_source(
    action: RefreshAction,
    row: store::TrackedMsgView,
    f: FetchedPostView,
    urls: Map<Seq<char>, Seq<char>>,
    colors: Map<Seq<char>, u32>,
    footer: Seq<char>,
    comments: i32,
)
    requires
        f.comment_count is Some ==> comments == f.comment_count->0,
        f.comment_count is None ==> comments == row.comment_count,
        action is Edited || action is StatsChanged,
        urls.dom().contains(row.webhook_name),
    ensures
        patch_of(action, row, Some(f), urls, colors, footer) matches Some(p) && {
            let edited = row.edited || action is Edited;
            let stats = render::stats_of(f.reactions, comments);
            &&& p.url == urls[row.webhook_name]
            &&& edited ==> render::all_said(p.embeds) == render::clipped(
                "(edited) "@ + f.body,
                40960,
            )
            &&& !edited && f.body.len() > 0 ==> render::all_said(p.embeds) == render::clipped(
                f.body,
                40960,
            )
            &&& p.embeds.len() > 0
            &&& p.embeds[0].author == Some(
                render::EmbedAuthorView { name: f.title, url: f.deep_link, icon_url: None },
            )
            &&& exists|k: int|
                #[trigger] signed_with(p.embeds, footer, stats, f.deep_link, f.date, k)
                    && shows_images_from(p.embeds, shown_images(row.image_urls), k)
        },
{
    let color = color_of_route(colors, row.route);
    let said = changed_text(row, f, action);
    let meta = changed_meta(row, f, color);
    let k = lemma_signed(said, meta, shown_images(row.image_urls), f.deep_link, footer);
    render::lemma_embeds_say_body(said, meta, footer);
    let p = patch_of(action, row, Some(f), urls, colors, footer)->0;
    let stats = render::stats_of(f.reactions, comments);
    assert(signed_with(p.embeds, footer, stats, f.deep_link, f.date, k));
}

/// Where a source has one reaction and neither comments nor a link, that reaction with its
/// present count is all that stands below the message, whatever reactions the record holds.
pub proof fn lemma_patch_shows_reaction(
    action: RefreshAction,
    row: store::TrackedMsgView,
    f: FetchedPostView,
    urls: Map<Seq<char>, Seq<char>>,
    colors: Map<Seq<char>, u32>,
    footer: Seq<char>,
)
    requires
        action is Edited || action is StatsChanged,
        urls.dom().contains(row.webhook_name),
        f.reactions.len() == 1,
        f.reactions[0].1 > 0,
        f.comment_count is Some ==> f.comment_count->0 <= 0,
        f.comment_count is None ==> row.comment_count <= 0,
        f.deep_link is None,
    ensures
        patch_of(action, row, Some(f), urls, colors, footer) matches Some(p) && exists|k: int|
            0 <= k < p.embeds.len() && (#[trigger] p.embeds[k]).footer is Some
                && p.embeds[k].field == Some(
                f.reactions[0].0 + " "@ + text::decimal(f.reactions[0].1 as int),
            ),
{
    let color = color_of_route(colors, row.route);
    let said = changed_text(row, f, action);
    let meta = changed_meta(row, f, color);
    let k = lemma_signed(said, meta, shown_images(row.image_urls), f.deep_link, footer);
    render::lemma_field_of_one_reaction(said, meta, footer);
    let p = patch_of(action, row, Some(f), urls, colors, footer)->0;
    assert(p.embeds[k].footer is Some);
}

/// A deleted source is shown as deleted, at the webhook of the message: in red, with the
/// figures that were known last and the media that it has.
pub proof fn lemma_patch_shows_deletion(
    row: store::TrackedMsgView,
    fetched: Option<FetchedPostView>,
    urls: Map<Seq<char>, Seq<char>>,
    colors: Map<Seq<char>, u32>,
    footer: Seq<char>,
)
    requires
        urls.dom().contains(row.webhook_name),
    ensures
        patch_of(RefreshAction::Deleted, row, fetched, urls, colors, footer) matches Some(p) && {
            let stats = render::stats_of(row.reactions, row.comment_count);
            &&& p.url == urls[row.webhook_name]
            &&& render::all_said(p.embeds) == "🗑 deleted on Telegram"@
            &&& p.embeds.len() > 0
            &&& p.embeds[0].author == Some(
                render::EmbedAuthorView { name: "deleted post"@, url: None, icon_url: None },
            )
            &&& p.embeds[0].color == Some(0xFF0000u32)
            &&& exists|k: int|
                #[trigger] signed_with(p.embeds, footer, stats, None, None, k)
                    && shows_images_from(p.embeds, shown_images(row.image_urls), k)
        },
{
    let color = color_of_route(colors, row.route);
    let said = deleted_text();
    let meta = deleted_meta(row, color);
    let k = lemma_signed(said, meta, shown_images(row.image_urls), None, footer);
    render::lemma_deleted_says_so(said, meta, footer);
    render::lemma_stripe_shows_state(said, meta, footer, 0);
    let p = patch_of(RefreshAction::Deleted, row, fetched, urls, colors, footer)->0;
    let stats = render::stats_of(row.reactions, row.comment_count);
    assert(signed_with(p.embeds, footer, stats, None, None, k));
}

/// The colour of a changed message: orange once its source was edited, else that of its
/// route, else light blue where the route is not known.
pub proof fn lemma_patch_color(
    action: RefreshAction,
    row: store::TrackedMsgView,
    f: FetchedPostView,
    urls: Map<Seq<char>, Seq<char>>,
    colors: Map<Seq<char>, u32>,
    footer: Seq<char>,
)
    requires
        action is Edited || action is StatsChanged,
        urls.dom().contains(row.webhook_name),
    ensures
        patch_of(action, row, Some(f), urls, colors, footer) matches Some(p) && {
            &&& row.edited || action is Edited ==> p.embeds[0].color == Some(0xFFA500u32)
            &&& !row.edited && action is StatsChanged && colors.dom().contains(row.route)
                ==> p.embeds[0].color == Some(colors[row.route])
            &&& !row.edited && action is StatsChanged && !colors.dom().contains(row.route)
                ==> p.embeds[0].color == Some(0x29B6F6u32)
        },
{
    let color = color_of_route(colors, row.route);
    let said = changed_text(row, f, action);
    let meta = changed_meta(row, f, color);
    let k = lemma_signed(said, meta, shown_images(row.image_urls), f.deep_link, footer);
    render::lemma_stripe_shows_state(said, meta, footer, 0);
}

/// A message whose source did not change, or whose webhook is not known, is left alone.
pub proof fn lemma_no_patch(
    action: RefreshAction,
    row: store::TrackedMsgView,
    fetched: Option<FetchedPostView>,
    urls: Map<Seq<char>, Seq<char>>,
    colors: Map<Seq<char>, u32>,
    footer: Seq<char>,
)
    ensures
        action is Unchanged || !urls.dom().contains(row.webhook_name) ==> patch_of(
            action,
            row,
            fetched,
            urls,
            colors,
            footer,
        ) is None,
{
}

/// The attachments of a message stay with it: the change names all that the stored addresses
/// name, in their order, and shows the images among them.
pub proof fn lemma_attachments_stay(
    action: RefreshAction,
    row: store::TrackedMsgView,
    fetched: Option<FetchedPostView>,
    urls: Map<Seq<char>, Seq<char>>,
    colors: Map<Seq<char>, u32>,
    footer: Seq<char>,
)
    ensures
        patch_of(action, row, fetched, urls, colors, footer) matches Some(p) ==> p.keep
            == row.image_urls.filter(
            |u: Seq<char>| attachment_parts(u) is Some,
        ).map_values(|u: Seq<char>| attachment_parts(u)->0),
        shown_images(row.image_urls) == row.image_urls.filter(
            |u: Seq<char>|
                match attachment_parts(u) {
                    Some(a) => render::image_name(a.1),
                    None => true,
                },
        ).map_values(
            |u: Seq<char>|
                match attachment_parts(u) {
                    Some(a) => "attachment://"@ + a.1,
                    None => u,
                },
        ),
{
    lemma_kept_filtered(row.image_urls);
    lemma_shown_filtered(row.image_urls);
}

proof fn lemma_kept_filtered(urls: Seq<Seq<char>>)
    ensures
        kept_attachments(urls) == urls.filter(
            |u: Seq<char>| attachment_parts(u) is Some,
        ).map_values(|u: Seq<char>| attachment_parts(u)->0),
    decreases urls.len(),
{
    reveal(Seq::filter);
    let f = |u: Seq<char>| attachment_parts(u) is Some;
    let g = |u: Seq<char>| attachment_parts(u)->0;
    if urls.len() > 0 {
        lemma_kept_filtered(urls.drop_last());
    }
    assert(kept_attachments(urls) =~= urls.filter(f).map_values(g));
}

proof fn lemma_shown_filtered(urls: Seq<Seq<char>>)
    ensures
        shown_images(urls) == urls.filter(
            |u: Seq<char>|
                match attachment_parts(u) {
                    Some(a) => render::image_name(a.1),
                    None => true,
                },
        ).map_values(
            |u: Seq<char>|
                match attachment_parts(u) {
                    Some(a) => "attachment://"@ + a.1,
                    None => u,
                },
        ),
    decreases urls.len(),
{
    reveal(Seq::filter);
    let f = |u: Seq<char>|
        match attachment_parts(u) {
            Some(a) => render::image_name(a.1),
            None => true,
        };
    let g = |u: Seq<char>|
        match attachment_parts(u) {
            Some(a) => "attachment://"@ + a.1,
            None => u,
        };
    if urls.len() > 0 {
        lemma_shown_filtered(urls.drop_last());
    }
    assert(shown_images(urls) =~= urls.filter(f).map_values(g));
}

proof fn lemma_before_query(head: Seq<char>, tail: Seq<char>)
    requires
        !head.contains('?'),
        tail.len() == 0 || tail[0] == '?',
    ensures
        before_query(head + tail) == head,
    decreases head.len(),
{
    let s = head + tail;
    if head.len() == 0 {
        assert(s =~= tail);
        assert(before_query(s) =~= head);
    } else {
        let rest = head.skip(1);
        assert(s.skip(1) =~= rest + tail);
        assert(head[0] != '?') by {
            assert(head.contains(head[0]));
        }
        assert(!rest.contains('?')) by {
            if rest.contains('?') {
                let i = choose|i: int| 0 <= i < rest.len() && rest[i] == '?';
                assert(head[i + 1] == '?');
            }
        }
        lemma_before_query(rest, tail);
        assert(before_query(s) =~= head);
    }
}

proof fn lemma_after_slash(head: Seq<char>, tail: Seq<char>)
    requires
        !tail.contains('/'),
    ensures
        after_slash(head + seq!['/'] + tail) == head.len() + 1,
    decreases tail.len(),
{
    let s = head + seq!['/'] + tail;
    if tail.len() > 0 {
        assert(s.last() == tail.last());
        assert(tail.last() != '/') by {
            assert(tail[tail.len() - 1] == tail.last());
            assert(tail.contains(tail.last()));
        }
        assert(s.drop_last() =~= head + seq!['/'] + tail.drop_last());
        assert(!tail.drop_last().contains('/')) by {
            if tail.drop_last().contains('/') {
                let i = choose|i: int|
                    0 <= i < tail.drop_last().len() && tail.drop_last()[i] == '/';
                assert(tail[i] == '/');
            }
        }
        lemma_after_slash(head, tail.drop_last());
    } else {
        assert(s.last() == '/');
    }
}

proof fn lemma_parts_without(a: Seq<char>, b: Seq<char>, c: char)
    requires
        !a.contains(c),
        !b.contains(c),
        c != '/',
    ensures
        !(a + seq!['/'] + b).contains(c),
{
    let s = a + seq!['/'] + b;
    if s.contains(c) {
        let i = choose|i: int| 0 <= i < s.len() && s[i] == c;
        if i < a.len() {
            assert(a[i] == c);
        } else if i > a.len() {
            assert(b[i - a.len() - 1] == c);
        }
    }
}

proof fn lemma_digits_are_plain(id: Seq<char>)
    requires
        id.len() > 0,
        forall|i: int| 0 <= i < id.len() ==> '0' <= #[trigger] id[i] <= '9',
    ensures
        !id.contains('?'),
        !id.contains('/'),
        all_digits(id),
{
    if id.contains('?') {
        let i = choose|i: int| 0 <= i < id.len() && id[i] == '?';
        assert('0' <= id[i] <= '9');
    }
    if id.contains('/') {
        let i = choose|i: int| 0 <= i < id.len() && id[i] == '/';
        assert('0' <= id[i] <= '9');
    }
    assert forall|i: int| 0 <= i < id.len() implies text::is_digit(#[trigger] id[i]) by {
        assert('0' <= id[i] <= '9');
    }
}

proof fn lemma_cut_at_slash(head: Seq<char>, tail: Seq<char>)
    requires
        !tail.contains('/'),
    ensures
        after_slash(head + seq!['/'] + tail) == head.len() + 1,
        (head + seq!['/'] + tail).skip(head.len() as int + 1) == tail,
        (head + seq!['/'] + tail).take(head.len() as int) == head,
{
    let s = head + seq!['/'] + tail;
    lemma_after_slash(head, tail);
    assert(s.skip(head.len() as int + 1) =~= tail);
    assert(s.take(head.len() as int) =~= head);
}

proof fn lemma_parts_are(
    url: Seq<char>,
    path: Seq<char>,
    head: Seq<char>,
    id: Seq<char>,
    name: Seq<char>,
)
    requires
        before_query(url) == path,
        after_slash(path) == head.len() + 1,
        path.skip(head.len() as int + 1) == name,
        path.take(head.len() as int) == head,
        head.skip(after_slash(head)) == id,
        all_digits(id),
        name.len() > 0,
    ensures
        attachment_parts(url) == Some((id, name)),
{
}

/// The last two parts of the path of an address are the id and the name of an attachment,
/// whatever stands before them and whatever query follows.
pub proof fn lemma_attachment_address(
    host: Seq<char>,
    id: Seq<char>,
    name: Seq<char>,
    query: Seq<char>,
)
    requires
        !host.contains('?'),
        id.len() > 0,
        forall|i: int| 0 <= i < id.len() ==> '0' <= #[trigger] id[i] <= '9',
        name.len() > 0,
        !name.contains('?'),
        !name.contains('/'),
        query.len() == 0 || query[0] == '?',
    ensures
        attachment_parts(host + seq!['/'] + id + seq!['/'] + name + query) == Some((id, name)),
{
    let head = host + seq!['/'] + id;
    let path = head + seq!['/'] + name;
    assert(before_query(path + query) == path) by {
        lemma_digits_are_plain(id);
        lemma_parts_without(host, id, '?');
        lemma_parts_without(head, name, '?');
        lemma_before_query(path, query);
    }
    assert(!id.contains('/') && all_digits(id)) by {
        lemma_digits_are_plain(id);
    }
    lemma_cut_at_slash(head, name);
    lemma_cut_at_slash(host, id);
    lemma_parts_are(path + query, path, head, id, name);
}

/// A message is asked for by some plan.
pub open spec fn asks_for(plans: Seq<ChatPlanView>, chat: i64, id: i32) -> bool {
    exists|p: int, b: int|
        {
            &&& 0 <= p < plans.len()
            &&& plans[p].chat_id == chat
            &&& 0 <= b < plans[p].batches.len()
            &&& (#[trigger] plans[p].batches[b]).contains(id)
        }
}

/// It is time to look at a message again: a whole interval after the last look, or, while
/// its reactions still count, when since the last look it reached one of the three ages at
/// which they are looked for. All times are in seconds.
pub open spec fn is_time(row: store::TrackedMsgView, now: int, cfg: RefreshCfg) -> bool {
    let age = now - row.posted_at;
    let seen_at = row.last_checked - row.posted_at;
    let interval = cfg.interval_mins * 60;
    let horizon = cfg.reaction_horizon_mins * 60;
    let early = cfg.reaction_early_check_secs as int;
    ||| now - row.last_checked >= interval
    ||| age <= horizon && (seen_at < early <= age || seen_at < interval <= age || seen_at < horizon
        <= age)
}

/// The settings in seconds are signed 64-bit numbers.
pub open spec fn seconds_fit(cfg: RefreshCfg) -> bool {
    &&& cfg.interval_mins * 60 <= i64::MAX
    &&& cfg.reaction_horizon_mins * 60 <= i64::MAX
    &&& cfg.reaction_early_check_secs <= i64::MAX
}

/// A message is looked at exactly when it is time, and its reactions count exactly until it
/// is as old as the settings say.
pub proof fn lemma_decision(row: store::TrackedMsgView, now: i64, cfg: RefreshCfg)
    requires
        ages_fit(row, now),
        seconds_fit(cfg),
    ensures
        decision_of(row, now, cfg).fetch <==> is_time(row, now as int, cfg),
        decision_of(row, now, cfg).allow_stats <==> now - row.posted_at
            <= cfg.reaction_horizon_mins * 60,
{
    assert(mins_to_secs(cfg.interval_mins) == cfg.interval_mins * 60);
    assert(mins_to_secs(cfg.reaction_horizon_mins) == cfg.reaction_horizon_mins * 60);
}

proof fn lemma_rows_of(due: Seq<store::TrackedMsgView>, chat: i64, r: store::TrackedMsgView)
    ensures
        rows_of(due, chat).contains(r) <==> due.contains(r) && r.chat_id == chat,
    decreases due.len(),
{
    if due.len() > 0 {
        let init = due.drop_last();
        lemma_rows_of(init, chat, r);
        let rows = rows_of(due, chat);
        let had = rows_of(init, chat);
        if due.contains(r) {
            let i = choose|i: int| 0 <= i < due.len() && due[i] == r;
            if i < init.len() {
                assert(init[i] == r);
            }
        }
        if init.contains(r) {
            let i = choose|i: int| 0 <= i < init.len() && init[i] == r;
            assert(due[i] == r);
        }
        assert(due[due.len() - 1] == due.last());
        if due.last().chat_id == chat {
            assert(rows[had.len() as int] == due.last());
            if had.contains(r) {
                let i = choose|i: int| 0 <= i < had.len() && had[i] == r;
                assert(rows[i] == r);
            }
            if rows.contains(r) {
                let i = choose|i: int| 0 <= i < rows.len() && rows[i] == r;
                if i < had.len() {
                    assert(had[i] == r);
                }
            }
        }
    }
}

proof fn lemma_chats_of(due: Seq<store::TrackedMsgView>, chat: i64)
    ensures
        chats_of(due).contains(chat) <==> exists|i: int|
            0 <= i < due.len() && (#[trigger] due[i]).chat_id == chat,
    decreases due.len(),
{
    if due.len() > 0 {
        let init = due.drop_last();
        lemma_chats_of(init, chat);
        let had = chats_of(init);
        let all = chats_of(due);
        assert(due[due.len() - 1] == due.last());
        if exists|i: int| 0 <= i < due.len() && (#[trigger] due[i]).chat_id == chat {
            let i = choose|i: int| 0 <= i < due.len() && (#[trigger] due[i]).chat_id == chat;
            if i < init.len() {
                assert(init[i].chat_id == chat);
            }
        }
        if exists|i: int| 0 <= i < init.len() && (#[trigger] init[i]).chat_id == chat {
            let i = choose|i: int| 0 <= i < init.len() && (#[trigger] init[i]).chat_id == chat;
            assert(due[i].chat_id == chat);
        }
        if !had.contains(due.last().chat_id) {
            assert(all[had.len() as int] == due.last().chat_id);
            if had.contains(chat) {
                let i = choose|i: int| 0 <= i < had.len() && had[i] == chat;
                assert(all[i] == chat);
            }
            if all.contains(chat) {
                let i = choose|i: int| 0 <= i < all.len() && all[i] == chat;
                if i < had.len() {
                    assert(had[i] == chat);
                }
            }
        }
    }
}

proof fn lemma_flat_contains(lists: Seq<Seq<i32>>, x: i32)
    ensures
        flat(lists).contains(x) <==> exists|b: int|
            0 <= b < lists.len() && (#[trigger] lists[b]).contains(x),
    decreases lists.len(),
{
    if lists.len() > 0 {
        let rest = lists.skip(1);
        lemma_flat_contains(rest, x);
        let all = flat(lists);
        let n = lists[0].len() as int;
        if all.contains(x) {
            let i = choose|i: int| 0 <= i < all.len() && all[i] == x;
            if i < n {
                assert(lists[0][i] == x);
                assert(lists[0].contains(x));
            } else {
                assert(flat(rest)[i - n] == x);
                let b = choose|b: int| 0 <= b < rest.len() && (#[trigger] rest[b]).contains(x);
                assert(lists[b + 1].contains(x));
            }
        }
        if exists|b: int| 0 <= b < lists.len() && (#[trigger] lists[b]).contains(x) {
            let b = choose|b: int| 0 <= b < lists.len() && (#[trigger] lists[b]).contains(x);
            if b == 0 {
                let i = choose|i: int| 0 <= i < lists[0].len() && lists[0][i] == x;
                assert(all[i] == x);
            } else {
                assert(rest[b - 1].contains(x));
                let i = choose|i: int| 0 <= i < flat(rest).len() && flat(rest)[i] == x;
                assert(all[n + i] == x);
            }
        }
    }
}

proof fn lemma_plan_at(
    due: Seq<store::TrackedMsgView>,
    chats: Seq<i64>,
    now: i64,
    cfg: RefreshCfg,
    p: int,
)
    requires
        0 <= p < plans_for(due, chats, now, cfg).len(),
    ensures
        exists|c: int|
            0 <= c < chats.len() && plans_for(due, chats, now, cfg)[p] == chat_plan(
                due,
                #[trigger] chats[c],
                now,
                cfg,
            ) && wanted_ids(rows_of(due, chats[c]), now, cfg).len() > 0,
    decreases chats.len(),
{
    let init = chats.drop_last();
    let before = plans_for(due, init, now, cfg);
    if p < before.len() {
        lemma_plan_at(due, init, now, cfg, p);
        let c = choose|c: int|
            0 <= c < init.len() && before[p] == chat_plan(due, #[trigger] init[c], now, cfg)
                && wanted_ids(rows_of(due, init[c]), now, cfg).len() > 0;
        assert(chats[c] == init[c]);
    } else {
        assert(chats[chats.len() - 1] == chats.last());
    }
}

proof fn lemma_plan_for_chat(
    due: Seq<store::TrackedMsgView>,
    chats: Seq<i64>,
    now: i64,
    cfg: RefreshCfg,
    chat: i64,
) -> (p: int)
    requires
        chats.contains(chat),
        wanted_ids(rows_of(due, chat), now, cfg).len() > 0,
    ensures
        0 <= p < plans_for(due, chats, now, cfg).len(),
        plans_for(due, chats, now, cfg)[p] == chat_plan(due, chat, now, cfg),
    decreases chats.len(),
{
    let init = chats.drop_last();
    let before = plans_for(due, init, now, cfg);
    if chats.last() == chat {
        before.len() as int
    } else {
        let i = choose|i: int| 0 <= i < chats.len() && chats[i] == chat;
        assert(init[i] == chat);
        lemma_plan_for_chat(due, init, now, cfg, chat)
    }
}

/// A message is asked for exactly if, for one of the posts that it became, it is time: a
/// whole interval after the last look, or at one of the ages at which reactions are looked
/// for.
pub proof fn lemma_plan_asks(
    due: Seq<store::TrackedMsgView>,
    now: i64,
    cfg: RefreshCfg,
    chat: i64,
    id: i32,
)
    requires
        timing_ok(due, now, cfg),
        seconds_fit(cfg),
    ensures
        asks_for(plans_for(due, chats_of(due), now, cfg), chat, id) <==> exists|i: int|
            0 <= i < due.len() && (#[trigger] due[i]).chat_id == chat && due[i].tg_msg_id == id
                && is_time(due[i], now as int, cfg),
{
    let chats = chats_of(due);
    let plans = plans_for(due, chats, now, cfg);
    let rows = rows_of(due, chat);
    let ids = wanted_ids(rows, now, cfg);
    lemma_wanted_ids(rows, now, cfg);
    lemma_batches(ids, BATCH_MAX as nat);
    lemma_flat_contains(batches_of(ids, BATCH_MAX as nat), id);
    if asks_for(plans, chat, id) {
        let (p, b) = choose|p: int, b: int|
            {
                &&& 0 <= p < plans.len()
                &&& plans[p].chat_id == chat
                &&& 0 <= b < plans[p].batches.len()
                &&& (#[trigger] plans[p].batches[b]).contains(id)
            };
        lemma_plan_at(due, chats, now, cfg, p);
        assert(plans[p] == chat_plan(due, chat, now, cfg));
        assert(batches_of(ids, BATCH_MAX as nat)[b].contains(id));
        assert(ids.contains(id));
        let j = choose|j: int|
            0 <= j < rows.len() && (#[trigger] rows[j]).tg_msg_id == id && decision_of(
                rows[j],
                now,
                cfg,
            ).fetch;
        lemma_rows_of(due, chat, rows[j]);
        let i = choose|i: int| 0 <= i < due.len() && due[i] == rows[j];
        assert(ages_fit(due[i], now));
        lemma_decision(due[i], now, cfg);
    }
    if exists|i: int|
        0 <= i < due.len() && (#[trigger] due[i]).chat_id == chat && due[i].tg_msg_id == id
            && is_time(due[i], now as int, cfg) {
        let i = choose|i: int|
            0 <= i < due.len() && (#[trigger] due[i]).chat_id == chat && due[i].tg_msg_id == id
                && is_time(due[i], now as int, cfg);
        assert(ages_fit(due[i], now));
        lemma_decision(due[i], now, cfg);
        lemma_rows_of(due, chat, due[i]);
        let j = choose|j: int| 0 <= j < rows.len() && rows[j] == due[i];
        assert(rows[j].tg_msg_id == id);
        assert(ids.contains(id));
        assert(ids.len() > 0);
        lemma_chats_of(due, chat);
        let p = lemma_plan_for_chat(due, chats, now, cfg, chat);
        let b = choose|b: int|
            0 <= b < batches_of(ids, BATCH_MAX as nat).len() && (#[trigger] batches_of(
                ids,
                BATCH_MAX as nat,
            )[b]).contains(id);
        assert(plans[p].batches[b].contains(id));
    }
}

/// Past the age at which reactions are given up, a message is asked for exactly a whole
/// interval after the last look. In particular nothing is asked for where all messages are
/// that old and were looked at within the last interval.
pub proof fn lemma_nothing_due_asks_nothing(
    due: Seq<store::TrackedMsgView>,
    now: i64,
    cfg: RefreshCfg,
)
    requires
        timing_ok(due, now, cfg),
        seconds_fit(cfg),
        forall|i: int|
            0 <= i < due.len() ==> now - (#[trigger] due[i]).posted_at > cfg.reaction_horizon_mins
                * 60 && now - due[i].last_checked < cfg.interval_mins * 60,
    ensures
        plans_for(due, chats_of(due), now, cfg).len() == 0,
{
    let chats = chats_of(due);
    let plans = plans_for(due, chats, now, cfg);
    if plans.len() > 0 {
        lemma_plan_at(due, chats, now, cfg, 0);
        let c = choose|c: int|
            0 <= c < chats.len() && plans[0] == chat_plan(due, #[trigger] chats[c], now, cfg)
                && wanted_ids(rows_of(due, chats[c]), now, cfg).len() > 0;
        let rows = rows_of(due, chats[c]);
        let ids = wanted_ids(rows, now, cfg);
        lemma_wanted_ids(rows, now, cfg);
        assert(ids.contains(ids[0]));
        let j = choose|j: int|
            0 <= j < rows.len() && (#[trigger] rows[j]).tg_msg_id == ids[0] && decision_of(
                rows[j],
                now,
                cfg,
            ).fetch;
        lemma_rows_of(due, chats[c], rows[j]);
        let i = choose|i: int| 0 <= i < due.len() && due[i] == rows[j];
        assert(ages_fit(due[i], now));
        lemma_decision(due[i], now, cfg);
    }
}

/// The plan of a chat holds all the messages of that chat in their order, what is done about
/// each of them, and the messages to ask for, each once, in batches of at most a hundred. A
/// plan asks for something.
pub proof fn lemma_chat_plans(due: Seq<store::TrackedMsgView>, now: i64, cfg: RefreshCfg, p: int)
    requires
        timing_ok(due, now, cfg),
        seconds_fit(cfg),
        0 <= p < plans_for(due, chats_of(due), now, cfg).len(),
    ensures
        ({
            let plan = plans_for(due, chats_of(due), now, cfg)[p];
            &&& plan.rows == due.filter(|r: store::TrackedMsgView| r.chat_id == plan.chat_id)
            &&& plan.decisions.len() == plan.rows.len()
            &&& forall|j: int|
                0 <= j < plan.rows.len() ==> {
                    &&& (#[trigger] plan.decisions[j]).fetch <==> is_time(
                        plan.rows[j],
                        now as int,
                        cfg,
                    )
                    &&& plan.decisions[j].allow_stats <==> now - plan.rows[j].posted_at
                        <= cfg.reaction_horizon_mins * 60
                }
            &&& plan.batches.len() > 0
            &&& forall|b: int|
                0 <= b < plan.batches.len() ==> 0 < (#[trigger] plan.batches[b]).len() <= 100
            &&& forall|i: int, j: int|
                #![trigger flat(plan.batches)[i], flat(plan.batches)[j]]
                0 <= i < j < flat(plan.batches).len() ==> flat(plan.batches)[i] < flat(
                    plan.batches,
                )[j]
        }),
{
    let chats = chats_of(due);
    let plan = plans_for(due, chats, now, cfg)[p];
    lemma_plan_at(due, chats, now, cfg, p);
    let rows = rows_of(due, plan.chat_id);
    let ids = wanted_ids(rows, now, cfg);
    lemma_rows_filtered(due, plan.chat_id);
    lemma_wanted_ids(rows, now, cfg);
    lemma_batches(ids, BATCH_MAX as nat);
    assert forall|j: int| 0 <= j < plan.rows.len() implies {
        &&& (#[trigger] plan.decisions[j]).fetch <==> is_time(plan.rows[j], now as int, cfg)
        &&& plan.decisions[j].allow_stats <==> now - plan.rows[j].posted_at
            <= cfg.reaction_horizon_mins * 60
    } by {
        lemma_rows_of(due, plan.chat_id, rows[j]);
        assert(rows.contains(rows[j]));
        let i = choose|i: int| 0 <= i < due.len() && due[i] == rows[j];
        assert(ages_fit(due[i], now));
        lemma_decision(rows[j], now, cfg);
    }
    if plan.batches.len() == 0 {
        assert(flat(plan.batches).len() == 0);
    }
}

proof fn lemma_rows_filtered(due: Seq<store::TrackedMsgView>, chat: i64)
    ensures
        rows_of(due, chat) == due.filter(|r: store::TrackedMsgView| r.chat_id == chat),
    decreases due.len(),
{
    reveal(Seq::filter);
    if due.len() > 0 {
        lemma_rows_filtered(due.drop_last(), chat);
    }
    assert(rows_of(due, chat) =~= due.filter(|r: store::TrackedMsgView| r.chat_id == chat));
}

/// What a fetch brought decides what is done about a message that is looked at: a source that
/// is gone is a deletion, another body an edit, other reactions or comments changed figures,
/// which count only while they may. The last word on a message counts. A message that is not
/// looked at is left alone.
pub proof fn lemma_row_step(
    row: store::TrackedMsgView,
    d: RefreshDecision,
    fetched: Seq<(i32, Option<FetchedPostView>)>,
    k: int,
)
    requires
        0 <= k < fetched.len(),
        fetched[k].0 == row.tg_msg_id,
        forall|j: int| k < j < fetched.len() ==> (#[trigger] fetched[j]).0 != row.tg_msg_id,
    ensures
        !d.fetch ==> step_of(row, d, fetched) is Leave,
        d.fetch ==> match fetched[k].1 {
            None => step_of(row, d, fetched) == RowStep::Apply(RefreshAction::Deleted),
            Some(f) => {
                let figures_differ = f.reactions != row.reactions || (f.comment_count is Some
                    && f.comment_count->0 != row.comment_count);
                if hash::fnv_text(vstd::utf8::encode_utf8(f.body)) != row.content_hash {
                    step_of(row, d, fetched) == RowStep::Apply(RefreshAction::Edited)
                } else if figures_differ && d.allow_stats {
                    step_of(row, d, fetched) == RowStep::Apply(RefreshAction::StatsChanged)
                } else {
                    step_of(row, d, fetched) is Touch
                }
            },
        },
{
    lemma_slot_at(fetched, row.tg_msg_id, k);
}

proof fn lemma_slot_at(fetched: Seq<(i32, Option<FetchedPostView>)>, id: i32, k: int)
    requires
        0 <= k < fetched.len(),
        fetched[k].0 == id,
        forall|j: int| k < j < fetched.len() ==> (#[trigger] fetched[j]).0 != id,
    ensures
        slot_of(fetched, id) == Some(fetched[k].1),
    decreases fetched.len(),
{
    if k < fetched.len() - 1 {
        let init = fetched.drop_last();
        assert(fetched[fetched.len() - 1].0 != id);
        assert forall|j: int| k < j < init.len() implies (#[trigger] init[j]).0 != id by {
            assert(fetched[j].0 != id);
        }
        lemma_slot_at(init, id, k);
    }
}

/// The posts of a batch are taken for the messages in the order in which they were asked for.
pub proof fn lemma_batch_noted(ids: Seq<i32>, posts: Seq<Option<FetchedPostView>>, i: int)
    requires
        0 <= i < ids.len(),
        ids.len() == posts.len(),
    ensures
        zipped(ids, posts).len() == ids.len(),
        zipped(ids, posts)[i] == (ids[i], posts[i]),
{
}

/// A change that was dealt with is noted as it was fetched, in the row of the message: the
/// body, the reactions, the comments as far as they are known, and when it was looked at. An
/// edit is noted in all messages of the post. All else stays as it was.
pub proof fn lemma_refresh_noted(
    rows: Seq<store::RowView>,
    action: RefreshAction,
    row: store::TrackedMsgView,
    f: FetchedPostView,
    now: i64,
    i: int,
)
    requires
        action is Edited || action is StatsChanged,
        0 <= i < rows.len(),
    ensures
        ({
            let after = rows_after(rows, action, row, Some(f), now);
            let r = after[i];
            let same_post = rows[i].chat_id == row.chat_id && rows[i].tg_msg_id == row.tg_msg_id;
            let same_message = same_post && rows[i].discord_msg_id == row.discord_msg_id;
            &&& after.len() == rows.len()
            &&& same_message ==> {
                &&& r.content_hash == hash::fnv_text(vstd::utf8::encode_utf8(f.body))
                &&& r.reactions == f.reactions
                &&& f.comment_count is Some ==> r.comment_count == f.comment_count->0
                &&& f.comment_count is None ==> r.comment_count == row.comment_count
                &&& r.last_checked == now
            }
            &&& !same_message ==> {
                &&& r.content_hash == rows[i].content_hash
                &&& r.reactions == rows[i].reactions
                &&& r.comment_count == rows[i].comment_count
                &&& r.last_checked == rows[i].last_checked
            }
            &&& r.edited == (rows[i].edited || (same_post && action is Edited && !row.edited))
            &&& r.deleted == rows[i].deleted
            &&& r.posted_at == rows[i].posted_at
            &&& r.chat_id == rows[i].chat_id
            &&& r.tg_msg_id == rows[i].tg_msg_id
            &&& r.discord_msg_id == rows[i].discord_msg_id
            &&& r.route == rows[i].route
            &&& r.webhook_name == rows[i].webhook_name
            &&& r.latency_ms == rows[i].latency_ms
            &&& r.image_urls == rows[i].image_urls
        }),
{
}

/// A deletion that was dealt with is noted in all messages of the post, and nowhere else.
pub proof fn lemma_deletion_noted(
    rows: Seq<store::RowView>,
    row: store::TrackedMsgView,
    fetched: Option<FetchedPostView>,
    now: i64,
    i: int,
)
    requires
        0 <= i < rows.len(),
    ensures
        ({
            let after = rows_after(rows, RefreshAction::Deleted, row, fetched, now);
            let same_post = rows[i].chat_id == row.chat_id && rows[i].tg_msg_id == row.tg_msg_id;
            &&& after.len() == rows.len()
            &&& same_post ==> after[i] == (store::RowView {
                deleted: true,
                last_checked: now,
                ..rows[i]
            })
            &&& !same_post ==> after[i] == rows[i]
        }),
{
}

/// How often an emoji was given in all.
pub open spec fn given(results: Seq<(ReactionKindView, i32)>, emoji: Seq<char>) -> int
    decreases results.len(),
{
    if results.len() == 0 {
        0
    } else {
        given(results.drop_last(), emoji) + (match results.last().0 {
            ReactionKindView::Emoji(e) if e == emoji => results.last().1 as int,
            ReactionKindView::Paid if emoji == "⭐"@ => results.last().1 as int,
            ReactionKindView::Custom if emoji == "🎨"@ => results.last().1 as int,
            _ => 0,
        })
    }
}

/// How often anything was given in all.
pub open spec fn given_in_all(results: Seq<(ReactionKindView, i32)>) -> int
    decreases results.len(),
{
    if results.len() == 0 {
        0
    } else {
        given_in_all(results.drop_last()) + results.last().1
    }
}

/// Under each emoji stands how often it was given; paid reactions count as stars and custom
/// ones as a palette.
pub proof fn lemma_tallied(results: Seq<(ReactionKindView, i32)>, emoji: Seq<char>)
    requires
        forall|i: int| 0 <= i < results.len() ==> (#[trigger] results[i]).1 >= 0,
        given_in_all(results) <= i32::MAX,
    ensures
        0 <= given(results, emoji) <= given_in_all(results),
        tallied(results).dom().contains(emoji) ==> tallied(results)[emoji] == given(
            results,
            emoji,
        ),
        !tallied(results).dom().contains(emoji) ==> given(results, emoji) == 0,
    decreases results.len(),
{
    if results.len() > 0 {
        let init = results.drop_last();
        assert(results[results.len() - 1].1 >= 0);
        assert forall|i: int| 0 <= i < init.len() implies (#[trigger] init[i]).1 >= 0 by {
            assert(results[i].1 >= 0);
        }
        lemma_tallied(init, emoji);
    }
}

/// Messages are asked for in as few requests as can be: each names up to a hundred of them, and
/// every request but the last names so many.
pub proof fn lemma_requests_are_full(ids: Seq<i32>)
    ensures
        ({
            let b = batches_of(ids, BATCH_MAX as nat);
            &&& forall|i: int| 0 <= i < b.len() ==> 0 < (#[trigger] b[i]).len() <= 100
            &&& forall|i: int| 0 <= i < b.len() - 1 ==> (#[trigger] b[i]).len() == 100
        }),
    decreases ids.len(),
{
    let b = batches_of(ids, BATCH_MAX as nat);
    if ids.len() > 100 {
        let rest = ids.skip(100);
        lemma_requests_are_full(rest);
        let more = batches_of(rest, BATCH_MAX as nat);
        assert(more.len() > 0);
        assert(b =~= seq![ids.take(100)] + more);
        assert forall|i: int| 0 <= i < b.len() implies 0 < (#[trigger] b[i]).len() <= 100 by {
            if i > 0 {
                assert(b[i] == more[i - 1]);
            }
        }
        assert forall|i: int| 0 <= i < b.len() - 1 implies (#[trigger] b[i]).len() == 100 by {
            if i > 0 {
                assert(b[i] == more[i - 1]);
            }
        }
    }
}

} // verus!
