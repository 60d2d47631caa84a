//! Relaying the latest messages of one route on demand.

use vstd::prelude::*;
use vstd::string::*;

use crate::album;
use crate::config;
use crate::config::{MediaMode, RouteCfg, WebhookName, WebhookUrl};
use crate::live;
use crate::live::TextDelivery;
use crate::media;
use crate::media::MediaTarget;
use crate::names::NameMap;
use crate::refresh;
use crate::refresh::FetchedPost;
use crate::render;
use crate::render::{EmbedMeta, RelayText};
use crate::sending;
use crate::sending::{Counts, Fate};
use crate::store;
use crate::store::NewRecord;
use crate::telegram;
use crate::telegram::{Message, Routing};
use crate::text;

verus! {

/// The messages in the opposite order: history comes with the newest one first, and is
/// relayed with the oldest one first.
pub fn oldest_first<T>(v: Vec<T>) -> (r: Vec<T>)
    ensures
        r@ == v@.reverse(),
{
    let ghost all = v@;
    let mut rest: Vec<T> = v;
    let mut out: Vec<T> = Vec::new();
    while rest.len() > 0
        invariant
            rest@ == all.take(rest@.len() as int),
            rest@.len() + out@.len() == all.len(),
            forall|i: int| 0 <= i < out@.len() ==> #[trigger] out@[i] == all[all.len() - 1 - i],
        decreases rest@.len(),
    {
        match rest.pop() {
            Some(x) => out.push(x),
            None => {
                assert(false);
            },
        }
    }
    assert(out@ =~= all.reverse());
    out
}

/// The first route with this name.
pub open spec fn route_at(routes: Seq<config::RouteCfgView>, name: Seq<char>) -> Option<int>
    decreases routes.len(),
{
    if routes.len() == 0 {
        None
    } else {
        match route_at(routes.drop_last(), name) {
            Some(i) => Some(i),
            None => if routes.last().name == name {
                Some(routes.len() - 1)
            } else {
                None
            },
        }
    }
}

/// What is said where there is no route with this name.
pub open spec fn no_such_route(
    routes: Seq<config::RouteCfgView>,
    name: Seq<char>,
    config_path: Seq<char>,
) -> Seq<char> {
    "route '"@ + name + "' not found in "@ + config_path + "; available route(s): "@ + (
    if routes.len() == 0 {
        "(none configured)"@
    } else {
        text::joined(routes.map_values(|r: config::RouteCfgView| r.name), ", "@)
    })
}

/// Find a route by its name.
pub fn find_route(routes: &Vec<RouteCfg>, name: &str, config_path: &str) -> (r: Result<
    usize,
    String,
>)
    ensures
        match r {
            Ok(i) => route_at(routes.deep_view(), name@) == Some(i as int),
            Err(e) => {
                &&& route_at(routes.deep_view(), name@) is None
                &&& e@ == no_such_route(routes.deep_view(), name@, config_path@)
            },
        },
        r matches Ok(i) ==> i < routes@.len() && routes@[i as int].name@ == name@,
{
    let ghost all = routes.deep_view();
    let mut names: Vec<String> = Vec::new();
    let mut i: usize = 0;
    assert(all.take(0) =~= Seq::<config::RouteCfgView>::empty());
    while i < routes.len()
        invariant
            all == routes.deep_view(),
            i <= all.len(),
            route_at(all.take(i as int), name@) is None,
            names@.len() == i,
            forall|j: int| 0 <= j < i ==> (#[trigger] names@[j])@ == all[j].name,
        decreases all.len() - i,
    {
        assert(all.take(i + 1).drop_last() =~= all.take(i as int));
        assert(all.take(i + 1).last() == routes@[i as int].deep_view());
        if text::same_text(routes[i].name.as_str(), name) {
            proof {
                lemma_route_at(all, name@, i + 1);
            }
            return Ok(i);
        }
        names.push(routes[i].name.clone());
        i = i + 1;
    }
    assert(all.take(all.len() as int) =~= all);
    assert(names.deep_view() =~= all.map_values(|r: config::RouteCfgView| r.name));
    let mut e: String = "route '".to_owned();
    e.append(name);
    e.append("' not found in ");
    e.append(config_path);
    e.append("; available route(s): ");
    if names.len() == 0 {
        e.append("(none configured)");
    } else {
        e.append(text::join(&names, ", ").as_str());
    }
    assert(e@ =~= no_such_route(all, name@, config_path@));
    Err(e)
}

proof fn lemma_route_at(routes: Seq<config::RouteCfgView>, name: Seq<char>, n: int)
    requires
        0 <= n <= routes.len(),
        route_at(routes.take(n), name) is Some,
    ensures
        route_at(routes, name) == route_at(routes.take(n), name),
    decreases routes.len(),
{
    if n < routes.len() {
        assert(routes.drop_last().take(n) =~= routes.take(n));
        lemma_route_at(routes.drop_last(), name, n);
    } else {
        assert(routes.take(n) =~= routes);
    }
}

/// The targets of a route.
pub open spec fn targets_of(
    route: config::RouteCfgView,
    urls: Map<Seq<char>, Seq<char>>,
    mode: MediaMode,
) -> Seq<media::MediaTargetView> {
    live::targets_with(
        route.name,
        route.color,
        mode,
        live::resolved_targets(route.to, urls),
    )
}

/// The targets of a route; there must be some.
pub fn backfill_targets(route: &RouteCfg, webhooks: &NameMap<WebhookUrl>, mode: MediaMode) -> (r:
    Result<Vec<MediaTarget>, String>)
    ensures
        match r {
            Ok(ts) => {
                &&& ts.deep_view() == targets_of(
                    route.deep_view(),
                    config::urls(webhooks@),
                    mode,
                )
                &&& ts@.len() > 0
            },
            Err(e) => {
                &&& targets_of(route.deep_view(), config::urls(webhooks@), mode).len() == 0
                &&& e@ == "route '"@ + route.name@
                    + "' has no resolvable webhook targets; check config.yaml"@
            },
        },
{
    let hooks: Vec<(WebhookName, WebhookUrl)> = live::resolve_targets_named(&route.to, webhooks);
    let ts: Vec<MediaTarget> = live::make_targets(
        route.name.as_str(),
        route.color,
        mode,
        &hooks,
    );
    assert(ts.deep_view().len() == ts@.len());
    if ts.len() == 0 {
        let mut e: String = "route '".to_owned();
        e.append(route.name.as_str());
        e.append("' has no resolvable webhook targets; check config.yaml");
        return Err(e);
    }
    Ok(ts)
}

/// A message of the history, with what a fetch says of it.
pub struct Past {
    pub message: Message,
    pub fetched: FetchedPost,
}

pub struct PastView {
    pub message: telegram::MessageView,
    pub fetched: refresh::FetchedPostView,
}

impl DeepView for Past {
    type V = PastView;

    open spec fn deep_view(&self) -> PastView {
        PastView { message: self.message.deep_view(), fetched: self.fetched.deep_view() }
    }
}

/// A message belongs to the album of a group.
pub open spec fn joins(group: Seq<PastView>, m: PastView) -> bool {
    &&& group.len() > 0
    &&& m.message.grouped_id is Some
    &&& group[0].message.grouped_id == m.message.grouped_id
}

/// Messages in groups: those of one album that follow each other, and every other one
/// alone.
pub open spec fn grouped(messages: Seq<PastView>) -> Seq<Seq<PastView>>
    decreases messages.len(),
{
    if messages.len() == 0 {
        Seq::empty()
    } else {
        let before = grouped(messages.drop_last());
        let m = messages.last();
        if before.len() > 0 && joins(before.last(), m) {
            before.drop_last().push(before.last().push(m))
        } else {
            before.push(seq![m])
        }
    }
}

fn belongs(group: &Vec<Past>, m: &Past) -> (r: bool)
    ensures
        r == joins(group.deep_view(), m.deep_view()),
{
    assert(group.deep_view().len() == group@.len());
    if group.len() == 0 {
        return false;
    }
    assert(group.deep_view()[0] == group@[0].deep_view());
    match (group[0].message.grouped_id, m.message.grouped_id) {
        (Some(a), Some(b)) => a == b,
        _ => false,
    }
}

/// Put messages into groups: those of one album that follow each other, and every other
/// one alone.
pub fn group_albums(messages: Vec<Past>) -> (r: Vec<Vec<Past>>)
    ensures
        r.deep_view() == grouped(messages.deep_view()),
{
    let ghost all = messages.deep_view();
    let mut rest: Vec<Past> = messages;
    let mut groups: Vec<Vec<Past>> = Vec::new();
    let ghost mut n: int = 0;
    assert(all.take(0) =~= Seq::<PastView>::empty());
    assert(all.skip(0) =~= all);
    assert(groups.deep_view() =~= Seq::<Seq<PastView>>::empty());
    while rest.len() > 0
        invariant
            0 <= n <= all.len(),
            rest.deep_view() == all.skip(n),
            groups.deep_view() == grouped(all.take(n)),
        decreases rest@.len(),
    {
        assert(rest.deep_view().len() == rest@.len());
        let ghost before = groups.deep_view();
        let ghost held = rest.deep_view();
        assert(held[0] == rest@[0].deep_view());
        let m: Past = rest.remove(0);
        assert(rest.deep_view() =~= held.skip(1));
        assert(m.deep_view() == all[n]);
        assert(rest.deep_view() =~= all.skip(n + 1));
        assert(all.take(n + 1).drop_last() =~= all.take(n));
        assert(all.take(n + 1).last() == m.deep_view());
        assert(groups.deep_view().len() == groups@.len());
        match groups.pop() {
            Some(mut last) => {
                let ghost front = groups.deep_view();
                let ghost members = last.deep_view();
                assert(before =~= front.push(members));
                assert(before.drop_last() =~= front);
                if belongs(&last, &m) {
                    last.push(m);
                    assert(last.deep_view() =~= members.push(m.deep_view()));
                    groups.push(last);
                    assert(groups.deep_view() =~= front.push(members.push(m.deep_view())));
                } else {
                    groups.push(last);
                    let mut alone: Vec<Past> = Vec::new();
                    alone.push(m);
                    assert(alone.deep_view() =~= seq![m.deep_view()]);
                    groups.push(alone);
                    assert(groups.deep_view() =~= before.push(seq![m.deep_view()]));
                }
            },
            None => {
                let mut alone: Vec<Past> = Vec::new();
                alone.push(m);
                assert(alone.deep_view() =~= seq![m.deep_view()]);
                groups.push(alone);
                assert(groups.deep_view() =~= before.push(seq![m.deep_view()]));
            },
        }
        proof {
            n = n + 1;
        }
    }
    assert(rest.deep_view().len() == rest@.len());
    assert(all.take(n) =~= all);
    groups
}

/// All the messages of some groups.
pub open spec fn members(groups: Seq<Seq<PastView>>) -> Seq<PastView>
    decreases groups.len(),
{
    if groups.len() == 0 {
        Seq::empty()
    } else {
        members(groups.drop_last()) + groups.last()
    }
}

/// A group holds something, and it holds one album if it holds more than one message.
pub open spec fn is_group(group: Seq<PastView>) -> bool {
    &&& group.len() > 0
    &&& forall|j: int|
        1 <= j < group.len() ==> (#[trigger] group[j]).message.grouped_id is Some
            && group[j].message.grouped_id == group[0].message.grouped_id
}

/// Grouping loses no message, adds none and keeps their order; a group of several messages
/// is one album, and an album that is not interrupted is one group.
pub proof fn lemma_grouped(messages: Seq<PastView>)
    ensures
        members(grouped(messages)) == messages,
        forall|i: int| 0 <= i < grouped(messages).len() ==> is_group(#[trigger] grouped(messages)[i]),
        forall|i: int|
            0 < i < grouped(messages).len() ==> !joins(
                grouped(messages)[i - 1],
                (#[trigger] grouped(messages)[i])[0],
            ),
    decreases messages.len(),
{
    if messages.len() > 0 {
        let init = messages.drop_last();
        let m = messages.last();
        lemma_grouped(init);
        let before = grouped(init);
        let q = grouped(messages);
        assert(init.push(m) =~= messages);
        if before.len() > 0 && joins(before.last(), m) {
            let n = before.len() - 1;
            let old_last = before.last();
            let new_last = old_last.push(m);
            assert(q.drop_last() =~= before.drop_last());
            assert(q.last() == new_last);
            assert(members(q) =~= members(before).push(m));
            assert(is_group(before[n]));
            assert forall|i: int| 0 <= i < q.len() implies is_group(#[trigger] q[i]) by {
                if i == n {
                    assert forall|j: int| 1 <= j < new_last.len() implies (
                    #[trigger] new_last[j]).message.grouped_id is Some
                        && new_last[j].message.grouped_id == new_last[0].message.grouped_id by {
                        if j < old_last.len() {
                            assert(old_last[j] == new_last[j]);
                        }
                    }
                } else {
                    assert(q[i] == before[i]);
                }
            }
            assert forall|i: int| 0 < i < q.len() implies !joins(q[i - 1], (#[trigger] q[i])[0]) by {
                assert(q[i - 1] == before[i - 1]);
                assert(!joins(before[i - 1], before[i][0]));
                assert(q[i][0] == before[i][0]);
            }
        } else {
            assert(q.drop_last() =~= before);
            assert(members(q) =~= members(before).push(m));
            assert forall|i: int| 0 <= i < q.len() implies is_group(#[trigger] q[i]) by {
                if i < before.len() {
                    assert(q[i] == before[i]);
                }
            }
            assert forall|i: int| 0 < i < q.len() implies !joins(q[i - 1], (#[trigger] q[i])[0]) by {
                assert(q[i - 1] == before[i - 1]);
                if i < before.len() {
                    assert(q[i] == before[i]);
                } else {
                    assert(before.last() == before[i - 1]);
                }
            }
        }
    }
}

/// How a message is relayed.
pub open spec fn routing(m: PastView) -> telegram::RoutingView {
    telegram::routing_of(m.message.text, m.message.media, m.message.raw_media)
}

fn past_routing(m: &Past) -> (r: Routing)
    ensures
        r.deep_view() == routing(m.deep_view()),
{
    telegram::route_message(m.message.text.as_str(), &m.message.media, m.message.raw_media)
}

/// No message of a group has content.
pub open spec fn nothing_in(group: Seq<PastView>) -> bool {
    forall|i: int| 0 <= i < group.len() ==> routing(#[trigger] group[i]) is Skip
}

/// The first message of a group with a text; the first of all where none has one.
pub open spec fn caption_at(group: Seq<PastView>) -> int {
    let at = first_text(group);
    if at < group.len() {
        at
    } else {
        0
    }
}

/// The first message with a text, or the number of messages.
pub open spec fn first_text(group: Seq<PastView>) -> int
    decreases group.len(),
{
    if group.len() == 0 {
        0
    } else if !text::is_blank(group[0].message.text) {
        0
    } else {
        1 + first_text(group.skip(1))
    }
}

proof fn lemma_first_text(group: Seq<PastView>, n: int)
    requires
        0 <= n <= group.len(),
        forall|j: int| 0 <= j < n ==> text::is_blank((#[trigger] group[j]).message.text),
        n == group.len() || !text::is_blank(group[n].message.text),
    ensures
        first_text(group) == n,
    decreases n,
{
    if n > 0 {
        let rest = group.skip(1);
        assert(text::is_blank(group[0].message.text));
        assert forall|j: int| 0 <= j < n - 1 implies text::is_blank(
            (#[trigger] rest[j]).message.text,
        ) by {
            assert(rest[j] == group[j + 1]);
        }
        assert(n < group.len() ==> rest[n - 1] == group[n]);
        lemma_first_text(rest, n - 1);
    }
}

/// The message of a group that stands for it: the first one with a text, else the first.
pub fn caption_member(group: &Vec<Past>) -> (r: usize)
    requires
        group@.len() > 0,
    ensures
        r == caption_at(group.deep_view()),
        r < group@.len(),
{
    let ghost all = group.deep_view();
    let mut at: usize = 0;
    while at < group.len() && text::blank(group[at].message.text.as_str())
        invariant
            all == group.deep_view(),
            at <= all.len(),
            forall|j: int| 0 <= j < at ==> text::is_blank((#[trigger] all[j]).message.text),
        decreases all.len() - at,
    {
        assert(all[at as int] == group@[at as int].deep_view());
        at = at + 1;
    }
    proof {
        assert(at < all.len() ==> all[at as int] == group@[at as int].deep_view());
        lemma_first_text(all, at as int);
    }
    if at < group.len() {
        at
    } else {
        0
    }
}

/// Some message of a group brings a file.
pub open spec fn has_files(group: Seq<PastView>) -> bool {
    exists|i: int| 0 <= i < group.len() && routing(#[trigger] group[i]) is File
}

/// What is done with a group. Nothing is ever downloaded for it.
#[derive(Debug, Clone, Copy, PartialEq, Eq, Structural)]
pub enum GroupStep {
    /// Nothing: it has no content.
    Empty,
    /// Nothing: the filter of the route keeps it out.
    Filtered,
    /// Post its text.
    Post,
}

/// What is done with a group, where it is known whether the filter lets it through.
pub open spec fn step_of(group: Seq<PastView>, passes: bool) -> GroupStep {
    if nothing_in(group) {
        GroupStep::Empty
    } else if !passes {
        GroupStep::Filtered
    } else {
        GroupStep::Post
    }
}

/// Decide what is done with a group, where it is known whether the filter lets it through.
pub fn group_step(group: &Vec<Past>, passes: bool) -> (r: GroupStep)
    ensures
        r == step_of(group.deep_view(), passes),
{
    let ghost all = group.deep_view();
    let mut i: usize = 0;
    while i < group.len()
        invariant
            all == group.deep_view(),
            i <= all.len(),
            forall|j: int| 0 <= j < i ==> routing(#[trigger] all[j]) is Skip,
        decreases all.len() - i,
    {
        assert(all[i as int] == group@[i as int].deep_view());
        match past_routing(&group[i]) {
            Routing::Skip => {},
            _ => {
                assert(!(routing(all[i as int]) is Skip));
                return if passes {
                    GroupStep::Post
                } else {
                    GroupStep::Filtered
                };
            },
        }
        i = i + 1;
    }
    GroupStep::Empty
}

/// The filter of a route lets a text through.
pub open spec fn lets_through(filter: Option<crate::raw::FilterView>, body: Seq<char>) -> bool {
    match filter {
        Some(f) => render::filter_passes(render::lowercase(body), render::lowered(f)),
        None => true,
    }
}

/// What is done with a group of a route with this filter: its caption decides about that.
pub open spec fn group_step_of(group: Seq<PastView>, filter: Option<crate::raw::FilterView>) -> GroupStep {
    step_of(group, lets_through(filter, group[caption_at(group)].fetched.body))
}

/// Decide what is done with a group of a route: its caption decides about the filter.
pub fn plan_group(group: &Vec<Past>, route: &RouteCfg) -> (r: GroupStep)
    requires
        group@.len() > 0,
    ensures
        r == group_step_of(group.deep_view(), route.deep_view().filter),
{
    let at: usize = caption_member(group);
    assert(group.deep_view()[at as int] == group@[at as int].deep_view());
    let passes: bool = match &route.filter {
        Some(f) => render::passes_filter(group[at].fetched.body.as_str(), f),
        None => true,
    };
    group_step(group, passes)
}

/// The title of a post: that of the chat, else the name of the route.
pub open spec fn title_of(cap: PastView, route: Seq<char>) -> Seq<char> {
    if cap.fetched.title.len() == 0 {
        route
    } else {
        cap.fetched.title
    }
}

pub open spec fn comments_of(cap: PastView) -> i32 {
    match cap.fetched.comment_count {
        Some(n) => n,
        None => 0,
    }
}

/// The text of a group: where it has files, a line says that they were left out.
pub open spec fn body_of(group: Seq<PastView>) -> Seq<char> {
    let cap = group[caption_at(group)];
    if has_files(group) {
        telegram::combined(cap.fetched.body, "media omitted (backfill)"@)
    } else {
        match routing(cap) {
            telegram::RoutingView::Text(b) => b,
            _ => cap.fetched.body,
        }
    }
}

/// What a target gets of a group. What is recorded is the
/// hash of the source text, so that a later look does not take the notice for an edit.
pub open spec fn text_of(
    group: Seq<PastView>,
    chat: i64,
    target: media::MediaTargetView,
) -> live::TextDeliveryView {
    let cap = group[caption_at(group)];
    live::TextDeliveryView {
        target,
        username: album::name_shown(cap.message.sender, target.route),
        text: render::RelayTextView {
            sender: cap.message.sender,
            body: body_of(group),
            reply_quote: None,
            edited: false,
        },
        meta: render::EmbedMetaView {
            title: title_of(cap, target.route),
            avatar_url: None,
            deep_link: cap.fetched.deep_link,
            reactions: cap.fetched.reactions,
            comment_count: comments_of(cap),
            deleted: false,
            color: target.color,
            timestamp: cap.fetched.date,
        },
        content: None,
        record: store::NewRecordView {
            chat_id: chat,
            tg_msg_id: cap.message.msg_id,
            route: target.route,
            webhook_name: target.webhook,
            discord_msg_id: Seq::empty(),
            content_hash: refresh::content_hash_of(cap.fetched.body),
            reactions: cap.fetched.reactions,
            comment_count: comments_of(cap),
            latency_ms: None,
            image_urls: Seq::empty(),
        },
        date: None,
    }
}

fn past_title(cap: &Past, route: &str) -> (r: String)
    ensures
        r@ == title_of(cap.deep_view(), route@),
{
    if cap.fetched.title.as_str().is_empty() {
        route.to_owned()
    } else {
        cap.fetched.title.clone()
    }
}

fn past_comments(cap: &Past) -> (r: i32)
    ensures
        r == comments_of(cap.deep_view()),
{
    match cap.fetched.comment_count {
        Some(n) => n,
        None => 0,
    }
}

fn group_body(group: &Vec<Past>) -> (r: String)
    requires
        group@.len() > 0,
    ensures
        r@ == body_of(group.deep_view()),
{
    let ghost all = group.deep_view();
    let at: usize = caption_member(group);
    let cap: &Past = &group[at];
    assert(all[at as int] == cap.deep_view());
    let mut i: usize = 0;
    while i < group.len()
        invariant
            all == group.deep_view(),
            i <= all.len(),
            forall|j: int| 0 <= j < i ==> !(routing(#[trigger] all[j]) is File),
            cap.deep_view() == all[caption_at(all)],
        decreases all.len() - i,
    {
        assert(all[i as int] == group@[i as int].deep_view());
        match past_routing(&group[i]) {
            Routing::File => {
                assert(routing(all[i as int]) is File);
                assert(has_files(all));
                return telegram::combine_body(
                    cap.fetched.body.as_str(),
                    "media omitted (backfill)",
                );
            },
            _ => {},
        }
        i = i + 1;
    }
    assert(!has_files(all));
    match past_routing(cap) {
        Routing::Text(b) => b,
        _ => cap.fetched.body.clone(),
    }
}

/// What one target gets of a group.
pub fn group_text(group: &Vec<Past>, chat: i64, target: &MediaTarget) -> (r: TextDelivery)
    requires
        group@.len() > 0,
    ensures
        r.deep_view() == text_of(group.deep_view(), chat, target.deep_view()),
{
    let at: usize = caption_member(group);
    let cap: &Past = &group[at];
    assert(group.deep_view()[at as int] == cap.deep_view());
    let sender: Option<&str> = match &cap.message.sender {
        Some(s) => Some(s.as_str()),
        None => None,
    };
    let record: NewRecord = NewRecord {
        chat_id: chat,
        tg_msg_id: cap.message.msg_id,
        route: target.route.clone(),
        webhook_name: target.webhook.0.clone(),
        discord_msg_id: String::new(),
        content_hash: refresh::content_hash(cap.fetched.body.as_str()),
        reactions: cap.fetched.reactions.clone(),
        comment_count: past_comments(cap),
        latency_ms: None,
        image_urls: Vec::new(),
    };
    assert(record.image_urls.deep_view() =~= Seq::<Seq<char>>::empty());
    assert(record.discord_msg_id@ =~= Seq::<char>::empty());
    TextDelivery {
        target: target.clone(),
        username: album::display_name(sender, target.route.as_str()),
        text: RelayText {
            sender: cap.message.sender.clone(),
            body: group_body(group),
            reply_quote: None,
            edited: false,
        },
        meta: EmbedMeta {
            title: past_title(cap, target.route.as_str()),
            avatar_url: None,
            deep_link: cap.fetched.deep_link.clone(),
            reactions: cap.fetched.reactions.clone(),
            comment_count: past_comments(cap),
            deleted: false,
            color: target.color,
            timestamp: cap.fetched.date.clone(),
        },
        content: None,
        record,
        date: None,
    }
}

/// What the targets get of a group.
pub open spec fn group_texts(
    group: Seq<PastView>,
    chat: i64,
    targets: Seq<media::MediaTargetView>,
) -> Seq<live::TextDeliveryView> {
    targets.map_values(|t: media::MediaTargetView| text_of(group, chat, t))
}

/// What the targets get of a group.
pub fn group_post(group: &Vec<Past>, chat: i64, targets: &Vec<MediaTarget>) -> (r: Vec<TextDelivery>)
    requires
        group@.len() > 0,
    ensures
        r.deep_view() == group_texts(group.deep_view(), chat, targets.deep_view()),
{
    let ghost all = group.deep_view();
    let mut out: Vec<TextDelivery> = Vec::new();
    let mut i: usize = 0;
    while i < targets.len()
        invariant
            all == group.deep_view(),
            group@.len() > 0,
            i <= targets@.len(),
            out@.len() == i,
            forall|j: int|
                0 <= j < i ==> (#[trigger] out@[j]).deep_view() == text_of(
                    all,
                    chat,
                    targets@[j].deep_view(),
                ),
        decreases targets@.len() - i,
    {
        out.push(group_text(group, chat, &targets[i]));
        i = i + 1;
    }
    assert(out.deep_view() =~= group_texts(all, chat, targets.deep_view()));
    out
}

/// What a backfill comes to: the texts that are posted in this order, unless a target has
/// them already, and how many messages were left out.
pub struct BackfillPlan {
    pub texts: Vec<TextDelivery>,
    pub fetched: usize,
    pub skipped_empty: usize,
    pub skipped_filter: usize,
}

#[verifier::ext_equal]
pub struct BackfillPlanView {
    pub texts: Seq<live::TextDeliveryView>,
    pub skipped_empty: nat,
    pub skipped_filter: nat,
}

/// What a backfill of some groups comes to, in their order.
pub open spec fn plan_of(
    groups: Seq<Seq<PastView>>,
    filter: Option<crate::raw::FilterView>,
    chat: i64,
    targets: Seq<media::MediaTargetView>,
) -> BackfillPlanView
    decreases groups.len(),
{
    if groups.len() == 0 {
        BackfillPlanView { texts: Seq::empty(), skipped_empty: 0, skipped_filter: 0 }
    } else {
        let before = plan_of(groups.drop_last(), filter, chat, targets);
        let group = groups.last();
        match group_step_of(group, filter) {
            GroupStep::Empty => BackfillPlanView {
                skipped_empty: before.skipped_empty + group.len(),
                ..before
            },
            GroupStep::Filtered => BackfillPlanView {
                skipped_filter: before.skipped_filter + group.len(),
                ..before
            },
            GroupStep::Post => BackfillPlanView {
                texts: before.texts + group_texts(group, chat, targets),
                ..before
            },
        }
    }
}

proof fn lemma_members_prefix(groups: Seq<Seq<PastView>>, n: int)
    requires
        0 <= n <= groups.len(),
    ensures
        members(groups.take(n)).len() <= members(groups).len(),
    decreases groups.len() - n,
{
    if n < groups.len() {
        assert(groups.take(n + 1).drop_last() =~= groups.take(n));
        lemma_members_prefix(groups, n + 1);
    } else {
        assert(groups.take(n) =~= groups);
    }
}

/// Plan the backfill of a route with messages of its history, the newest one first: they are
/// relayed with the oldest one first, albums as one post, without those that have no content
/// and those that the filter keeps out.
pub fn plan_backfill(
    messages: Vec<Past>,
    route: &RouteCfg,
    chat: i64,
    targets: &Vec<MediaTarget>,
) -> (r: BackfillPlan)
    ensures
        r.fetched == messages@.len(),
        ({
            let plan = plan_of(
                grouped(messages.deep_view().reverse()),
                route.deep_view().filter,
                chat,
                targets.deep_view(),
            );
            &&& r.texts.deep_view() == plan.texts
            &&& r.skipped_empty == plan.skipped_empty
            &&& r.skipped_filter == plan.skipped_filter
        }),
{
    let ghost all = messages.deep_view();
    let ghost filter = route.deep_view().filter;
    let ghost ts = targets.deep_view();
    let n: usize = messages.len();
    let ordered: Vec<Past> = oldest_first(messages);
    assert(ordered.deep_view() =~= all.reverse());
    let groups: Vec<Vec<Past>> = group_albums(ordered);
    let ghost gs = groups.deep_view();
    proof {
        lemma_grouped(all.reverse());
        assert(members(gs).len() == n);
    }
    let mut texts: Vec<TextDelivery> = Vec::new();
    let mut empty: usize = 0;
    let mut filtered: usize = 0;
    let mut i: usize = 0;
    assert(gs.take(0) =~= Seq::<Seq<PastView>>::empty());
    assert(texts.deep_view() =~= Seq::<live::TextDeliveryView>::empty());
    while i < groups.len()
        invariant
            gs == groups.deep_view(),
            i <= gs.len(),
            ts == targets.deep_view(),
            filter == route.deep_view().filter,
            members(gs).len() == n,
            forall|k: int| 0 <= k < gs.len() ==> is_group(#[trigger] gs[k]),
            plan_of(gs.take(i as int), filter, chat, ts) == (BackfillPlanView {
                texts: texts.deep_view(),
                skipped_empty: empty as nat,
                skipped_filter: filtered as nat,
            }),
            empty + filtered <= members(gs.take(i as int)).len(),
        decreases gs.len() - i,
    {
        let group: &Vec<Past> = &groups[i];
        let ghost before = texts.deep_view();
        assert(gs[i as int] == group.deep_view());
        assert(is_group(gs[i as int]));
        assert(group.deep_view().len() == group@.len());
        assert(gs.take(i + 1).drop_last() =~= gs.take(i as int));
        assert(gs.take(i + 1).last() == group.deep_view());
        proof {
            lemma_members_prefix(gs, i + 1);
        }
        match plan_group(group, route) {
            GroupStep::Empty => {
                empty = empty + group.len();
            },
            GroupStep::Filtered => {
                filtered = filtered + group.len();
            },
            GroupStep::Post => {
                let mut more: Vec<TextDelivery> = group_post(group, chat, targets);
                let ghost added = more.deep_view();
                let ghost a = texts@;
                let ghost b = more@;
                texts.append(&mut more);
                assert(texts@ == a + b);
                assert(texts.deep_view() =~= before + added);
            },
        }
        i = i + 1;
    }
    assert(gs.take(gs.len() as int) =~= gs);
    BackfillPlan { texts, fetched: n, skipped_empty: empty, skipped_filter: filtered }
}

/// What became of the messages of a backfill.
#[derive(Debug, Clone, Copy, PartialEq, Eq, Structural)]
pub struct Tally {
    pub fetched: usize,
    pub posted: usize,
    pub skipped_empty: usize,
    pub skipped_filter: usize,
    pub skipped_dupe: usize,
    pub dropped: usize,
}

/// Sum a backfill up: what was left out of it, and what became of each of its texts.
pub fn tally(plan: &BackfillPlan, fates: &Vec<Fate>) -> (r: Tally)
    ensures
        r.fetched == plan.fetched,
        r.skipped_empty == plan.skipped_empty,
        r.skipped_filter == plan.skipped_filter,
        r.posted == sending::count_of(fates@, Fate::Posted),
        r.dropped == sending::count_of(fates@, Fate::Dropped),
        r.skipped_dupe == sending::count_of(fates@, Fate::Skipped),
        r.posted + r.dropped + r.skipped_dupe == fates@.len(),
{
    let c: Counts = sending::count_fates(fates);
    Tally {
        fetched: plan.fetched,
        posted: c.posted,
        skipped_empty: plan.skipped_empty,
        skipped_filter: plan.skipped_filter,
        skipped_dupe: c.skipped,
        dropped: c.dropped,
    }
}

/// What is printed at the end.
pub open spec fn summary_of(route: Seq<char>, t: Tally) -> Seq<char> {
    "backfill '"@ + route + "': "@ + text::decimal(t.fetched as int) + " fetched, "@
        + text::decimal(t.posted as int) + " posted, "@ + text::decimal(t.skipped_empty as int)
        + " skipped (no content), "@ + text::decimal(t.skipped_filter as int)
        + " skipped (filter), "@ + text::decimal(t.skipped_dupe as int)
        + " skipped (already relayed), "@ + text::decimal(t.dropped as int) + " dropped"@
}

/// What is printed at the end.
pub fn summary(route: &str, t: &Tally) -> (r: String)
    ensures
        r@ == summary_of(route@, *t),
{
    let mut out: String = "backfill '".to_owned();
    out.append(route);
    out.append("': ");
    text::push_nat(&mut out, t.fetched as u64);
    out.append(" fetched, ");
    text::push_nat(&mut out, t.posted as u64);
    out.append(" posted, ");
    text::push_nat(&mut out, t.skipped_empty as u64);
    out.append(" skipped (no content), ");
    text::push_nat(&mut out, t.skipped_filter as u64);
    out.append(" skipped (filter), ");
    text::push_nat(&mut out, t.skipped_dupe as u64);
    out.append(" skipped (already relayed), ");
    text::push_nat(&mut out, t.dropped as u64);
    out.append(" dropped");
    assert(out@ =~= summary_of(route@, *t));
    out
}

/// The numbers of messages grow.
pub open spec fn ascending_ids(messages: Seq<PastView>) -> bool {
    forall|i: int, j: int|
        #![trigger messages[i], messages[j]]
        0 <= i < j < messages.len() ==> messages[i].message.msg_id < messages[j].message.msg_id
}

proof fn lemma_first_text_from_start(group: Seq<PastView>)
    ensures
        first_text(group) >= 0,
    decreases group.len(),
{
    if group.len() > 0 {
        lemma_first_text_from_start(group.skip(1));
    }
}

/// The text is for a message out of some messages.
spec fn is_of(messages: Seq<PastView>, t: live::TextDeliveryView) -> bool {
    exists|k: int|
        0 <= k < messages.len() && (#[trigger] messages[k]).message.msg_id == t.record.tg_msg_id
}

proof fn lemma_texts_in_order(
    groups: Seq<Seq<PastView>>,
    filter: Option<crate::raw::FilterView>,
    chat: i64,
    targets: Seq<media::MediaTargetView>,
)
    requires
        forall|i: int| 0 <= i < groups.len() ==> (#[trigger] groups[i]).len() > 0,
        ascending_ids(members(groups)),
    ensures
        ({
            let texts = plan_of(groups, filter, chat, targets).texts;
            &&& forall|i: int| 0 <= i < texts.len() ==> is_of(members(groups), #[trigger] texts[i])
            &&& forall|i: int, j: int|
                #![trigger texts[i], texts[j]]
                0 <= i < j < texts.len() ==> texts[i].record.tg_msg_id
                    <= texts[j].record.tg_msg_id
        }),
    decreases groups.len(),
{
    if groups.len() > 0 {
        let init = groups.drop_last();
        let group = groups.last();
        let front = members(init);
        let all = members(groups);
        assert(groups[groups.len() - 1] == group);
        assert forall|i: int| 0 <= i < init.len() implies (#[trigger] init[i]).len() > 0 by {
            assert(init[i] == groups[i]);
        }
        assert(ascending_ids(front)) by {
            assert forall|i: int, j: int|
                #![trigger front[i], front[j]]
                0 <= i < j < front.len() implies front[i].message.msg_id
                < front[j].message.msg_id by {
                assert(all[i] == front[i] && all[j] == front[j]);
            }
        }
        lemma_texts_in_order(init, filter, chat, targets);
        lemma_first_text_from_start(group);
        let at = caption_at(group);
        let before = plan_of(init, filter, chat, targets).texts;
        let texts = plan_of(groups, filter, chat, targets).texts;
        let n = before.len() as int;
        assert(all[front.len() + at] == group[at]);
        assert forall|i: int| 0 <= i < texts.len() implies is_of(all, #[trigger] texts[i]) by {
            if i < n {
                assert(texts[i] == before[i]);
                let k = choose|k: int|
                    0 <= k < front.len() && (#[trigger] front[k]).message.msg_id
                        == before[i].record.tg_msg_id;
                assert(all[k] == front[k]);
            } else {
                assert(texts[i] == group_texts(group, chat, targets)[i - n]);
                assert(all[front.len() + at].message.msg_id == texts[i].record.tg_msg_id);
            }
        }
        assert forall|i: int, j: int|
            #![trigger texts[i], texts[j]]
            0 <= i < j < texts.len() implies texts[i].record.tg_msg_id
            <= texts[j].record.tg_msg_id by {
            if j < n {
                assert(texts[i] == before[i] && texts[j] == before[j]);
            } else {
                assert(texts[j] == group_texts(group, chat, targets)[j - n]);
                if i < n {
                    assert(texts[i] == before[i]);
                    let k = choose|k: int|
                        0 <= k < front.len() && (#[trigger] front[k]).message.msg_id
                            == before[i].record.tg_msg_id;
                    assert(all[k] == front[k]);
                } else {
                    assert(texts[i] == group_texts(group, chat, targets)[i - n]);
                }
            }
        }
    }
}

/// A backfill posts in the order of the messages, where history comes with the newest one
/// first, and posts nothing else.
pub proof fn lemma_backfill_in_order(
    messages: Seq<PastView>,
    filter: Option<crate::raw::FilterView>,
    chat: i64,
    targets: Seq<media::MediaTargetView>,
    i: int,
    j: int,
)
    requires
        ascending_ids(messages.reverse()),
        0 <= i < j < plan_of(grouped(messages.reverse()), filter, chat, targets).texts.len(),
    ensures
        ({
            let texts = plan_of(grouped(messages.reverse()), filter, chat, targets).texts;
            &&& texts[i].record.tg_msg_id <= texts[j].record.tg_msg_id
            &&& exists|k: int|
                0 <= k < messages.len() && (#[trigger] messages.reverse()[k]).message.msg_id
                    == texts[i].record.tg_msg_id
        }),
{
    let ordered = messages.reverse();
    lemma_grouped(ordered);
    assert forall|k: int| 0 <= k < grouped(ordered).len() implies (#[trigger] grouped(
        ordered,
    )[k]).len() > 0 by {
        assert(is_group(grouped(ordered)[k]));
    }
    lemma_texts_in_order(grouped(ordered), filter, chat, targets);
    let texts = plan_of(grouped(ordered), filter, chat, targets).texts;
    assert(is_of(ordered, texts[i]));
}

/// Whatever the settings, a backfill attaches nothing: a group with files is posted as its
/// text, with a line that says that they were left out.
pub proof fn lemma_backfill_leaves_media_out(
    group: Seq<PastView>,
    chat: i64,
    target: media::MediaTargetView,
    rows: Seq<store::RowView>,
)
    requires
        has_files(group),
    ensures
        text_of(group, chat, target).text.body == telegram::combined(
            group[caption_at(group)].fetched.body,
            "media omitted (backfill)"@,
        ),
        text_of(group, chat, target).meta.deep_link == group[caption_at(
            group,
        )].fetched.deep_link,
        sending::text_step_of(rows, text_of(group, chat, target)) != (sending::TargetStep::Post {
            attach: true,
        }),
{
}

/// A text that a backfill delivered under a new message id is passed over when the same
/// message is backfilled again, or comes while the relay runs.
pub proof fn lemma_backfilled_is_passed_over(
    rows: Seq<store::RowView>,
    group: Seq<PastView>,
    chat: i64,
    target: media::MediaTargetView,
    discord_msg_id: Seq<char>,
    now: i64,
)
    requires
        group.len() > 0,
        !store::is_recorded(
            rows,
            live::delivered_of(text_of(group, chat, target).record, discord_msg_id, None),
        ),
    ensures
        store::relayed(
            store::recorded(
                rows,
                live::delivered_of(text_of(group, chat, target).record, discord_msg_id, None),
                now,
            ),
            chat,
            group[caption_at(group)].message.msg_id,
            target.webhook,
        ),
{
    store::lemma_recorded_is_relayed(
        rows,
        live::delivered_of(text_of(group, chat, target).record, discord_msg_id, None),
        now,
        chat,
        group[caption_at(group)].message.msg_id,
        target.webhook,
    );
}

/// What a backfill records of a group is what a later look at its source finds: nothing
/// changed, though a notice stands below the text.
pub proof fn lemma_backfilled_is_unchanged(
    group: Seq<PastView>,
    chat: i64,
    target: media::MediaTargetView,
    discord_msg_id: Seq<char>,
    now: i64,
    f: refresh::FetchedPostView,
)
    requires
        f == group[caption_at(group)].fetched,
    ensures
        refresh::change_of(
            store::message_of(
                store::new_row(
                    live::delivered_of(text_of(group, chat, target).record, discord_msg_id, None),
                    now,
                ),
            ),
            Some(f),
        ) is Unchanged,
{
}

/// A message brings a file.
pub open spec fn brings_file(m: telegram::MessageView) -> bool {
    m.media is Some && (m.media->0 is Photo || m.media->0 is Document || m.media->0 is Sticker)
}

/// The first message of a group with a text stands for it, and the first of all where none has
/// one.
pub open spec fn stands_for(group: Seq<PastView>, j: int) -> bool {
    &&& 0 <= j < group.len()
    &&& (!text::is_blank(group[j].message.text) && forall|i: int|
        0 <= i < j ==> text::is_blank((#[trigger] group[i]).message.text)) || (j == 0
        && forall|i: int| 0 <= i < group.len() ==> text::is_blank((#[trigger] group[i]).message.text))
}

proof fn lemma_stands_for(group: Seq<PastView>, j: int)
    requires
        stands_for(group, j),
    ensures
        caption_at(group) == j,
{
    if !text::is_blank(group[j].message.text) {
        lemma_first_text(group, j);
    } else {
        lemma_first_text(group, group.len() as int);
    }
}

proof fn lemma_has_files(group: Seq<PastView>)
    ensures
        has_files(group) <==> exists|i: int|
            0 <= i < group.len() && brings_file((#[trigger] group[i]).message),
{
    if has_files(group) {
        let i = choose|i: int| 0 <= i < group.len() && routing(#[trigger] group[i]) is File;
        assert(brings_file(group[i].message));
    }
    if exists|i: int| 0 <= i < group.len() && brings_file((#[trigger] group[i]).message) {
        let i = choose|i: int| 0 <= i < group.len() && brings_file((#[trigger] group[i]).message);
        assert(routing(group[i]) is File);
    }
}

/// What a target gets of a group of plain messages or of an album: the text of the message
/// that stands for it, as it is now, with its figures, its link and its time. Where there are
/// files, a line says that they were left out. What is recorded is that message, as its source
/// is now.
pub proof fn lemma_backfilled_text(
    group: Seq<PastView>,
    chat: i64,
    target: media::MediaTargetView,
    j: int,
)
    requires
        stands_for(group, j),
    ensures
        ({
            let d = text_of(group, chat, target);
            let m = group[j].message;
            let f = group[j].fetched;
            let files = exists|i: int|
                0 <= i < group.len() && brings_file((#[trigger] group[i]).message);
            &&& d.target == target
            &&& files && text::is_blank(f.body) ==> d.text.body == "media omitted (backfill)"@
            &&& files && !text::is_blank(f.body) ==> d.text.body == f.body + "\n"@
                + "media omitted (backfill)"@
            &&& !files && m.media is None && !m.raw_media && !text::is_blank(m.text) ==> d.text.body
                == m.text
            &&& !files ==> (telegram::routing_of(
                m.text,
                m.media,
                m.raw_media,
            ) matches telegram::RoutingView::Text(b) ==> d.text.body == b)
            &&& d.text.sender == m.sender
            &&& d.text.reply_quote is None
            &&& !d.text.edited
            &&& f.title.len() > 0 ==> d.meta.title == f.title
            &&& f.title.len() == 0 ==> d.meta.title == target.route
            &&& d.meta.deep_link == f.deep_link
            &&& d.meta.reactions == f.reactions
            &&& f.comment_count is Some ==> d.meta.comment_count == f.comment_count->0
            &&& f.comment_count is None ==> d.meta.comment_count == 0
            &&& !d.meta.deleted
            &&& d.meta.color == target.color
            &&& d.meta.timestamp == f.date
            &&& d.content is None
            &&& d.date is None
            &&& d.record.chat_id == chat
            &&& d.record.tg_msg_id == m.msg_id
            &&& d.record.route == target.route
            &&& d.record.webhook_name == target.webhook
            &&& d.record.content_hash == refresh::content_hash_of(f.body)
            &&& d.record.reactions == f.reactions
            &&& d.record.comment_count == d.meta.comment_count
            &&& d.record.latency_ms is None
            &&& d.record.image_urls.len() == 0
        }),
{
    lemma_stands_for(group, j);
    lemma_has_files(group);
}

/// A backfilled text is posted under the name of the sender, or that of the route where there
/// is none.
pub proof fn lemma_backfilled_name(
    group: Seq<PastView>,
    chat: i64,
    target: media::MediaTargetView,
    j: int,
)
    requires
        stands_for(group, j),
    ensures
        match group[j].message.sender {
            Some(s) => if s.len() > 0 {
                text_of(group, chat, target).username == s
            } else {
                text_of(group, chat, target).username == target.route
            },
            None => text_of(group, chat, target).username == target.route,
        },
{
    lemma_stands_for(group, j);
}

/// A group has content, and the filter lets through what the message says that stands for it.
pub open spec fn is_wanted(
    group: Seq<PastView>,
    filter: Option<crate::raw::FilterView>,
    j: int,
) -> bool {
    &&& exists|i: int|
        0 <= i < group.len() && ((#[trigger] group[i]).message.media is Some
            || group[i].message.raw_media || !text::is_blank(group[i].message.text))
    &&& match filter {
        None => true,
        Some(f) => {
            let body = render::lowercase(group[j].fetched.body);
            &&& forall|i: int|
                0 <= i < f.exclude_hashtags.len() ==> !text::contains_text(
                    body,
                    render::lowercase(#[trigger] f.exclude_hashtags[i]),
                )
            &&& f.any_keywords.len() == 0 || exists|i: int|
                0 <= i < f.any_keywords.len() && text::contains_text(
                    body,
                    render::lowercase(#[trigger] f.any_keywords[i]),
                )
        },
    }
}

/// A group is posted exactly if it has content and the filter of the route lets it through.
pub proof fn lemma_wanted_is_posted(
    group: Seq<PastView>,
    filter: Option<crate::raw::FilterView>,
    j: int,
)
    requires
        stands_for(group, j),
    ensures
        group_step_of(group, filter) is Post <==> is_wanted(group, filter, j),
        group_step_of(group, filter) is Empty <==> forall|i: int|
            0 <= i < group.len() ==> (#[trigger] group[i]).message.media is None
                && !group[i].message.raw_media && text::is_blank(group[i].message.text),
{
    lemma_stands_for(group, j);
    if let Some(f) = filter {
        render::lemma_filter_lets_through(group[j].fetched.body, f);
    }
    if nothing_in(group) {
        assert forall|i: int| 0 <= i < group.len() implies (
        #[trigger] group[i]).message.media is None && !group[i].message.raw_media && text::is_blank(
            group[i].message.text,
        ) by {
            assert(routing(group[i]) is Skip);
        }
    } else {
        let i = choose|i: int| 0 <= i < group.len() && !(routing(#[trigger] group[i]) is Skip);
        assert(group[i].message.media is Some || group[i].message.raw_media || !text::is_blank(
            group[i].message.text,
        ));
    }
}

/// Every target gets what is posted of every group, and nothing else is posted: for each group
/// that is posted there is one text for each target, and no group is posted otherwise.
pub proof fn lemma_backfill_reaches_all(
    groups: Seq<Seq<PastView>>,
    filter: Option<crate::raw::FilterView>,
    chat: i64,
    targets: Seq<media::MediaTargetView>,
    g: int,
    t: int,
)
    requires
        0 <= g < groups.len(),
        0 <= t < targets.len(),
        group_step_of(groups[g], filter) is Post,
    ensures
        plan_of(groups, filter, chat, targets).texts.contains(text_of(groups[g], chat, targets[t])),
    decreases groups.len(),
{
    let init = groups.drop_last();
    let before = plan_of(init, filter, chat, targets).texts;
    let all = plan_of(groups, filter, chat, targets).texts;
    if g == groups.len() - 1 {
        assert(group_texts(groups[g], chat, targets)[t] == text_of(groups[g], chat, targets[t]));
        assert(all[before.len() + t] == text_of(groups[g], chat, targets[t]));
    } else {
        assert(init[g] == groups[g]);
        lemma_backfill_reaches_all(init, filter, chat, targets, g, t);
        let k = choose|k: int|
            0 <= k < before.len() && before[k] == text_of(groups[g], chat, targets[t]);
        assert(all[k] == before[k]);
    }
}

/// The groups that are posted.
pub open spec fn posted_groups(
    groups: Seq<Seq<PastView>>,
    filter: Option<crate::raw::FilterView>,
) -> Seq<Seq<PastView>> {
    groups.filter(|g: Seq<PastView>| group_step_of(g, filter) is Post)
}

/// A backfill accounts for every message: it is without content, kept out by the filter, or in
/// a group that is posted, which makes one text for each target.
pub proof fn lemma_backfill_accounts_for_all(
    groups: Seq<Seq<PastView>>,
    filter: Option<crate::raw::FilterView>,
    chat: i64,
    targets: Seq<media::MediaTargetView>,
)
    ensures
        ({
            let plan = plan_of(groups, filter, chat, targets);
            let posted = posted_groups(groups, filter);
            &&& plan.skipped_empty + plan.skipped_filter + members(posted).len() == members(
                groups,
            ).len()
            &&& plan.texts.len() == posted.len() * targets.len()
        }),
    decreases groups.len(),
{
    reveal(Seq::filter);
    let p = |g: Seq<PastView>| group_step_of(g, filter) is Post;
    if groups.len() > 0 {
        let init = groups.drop_last();
        lemma_backfill_accounts_for_all(init, filter, chat, targets);
        let had = posted_groups(init, filter);
        let now = posted_groups(groups, filter);
        if p(groups.last()) {
            assert(now == had.push(groups.last()));
            assert(now.drop_last() =~= had);
            assert(now.len() * targets.len() == had.len() * targets.len() + targets.len())
                by (nonlinear_arith)
                requires
                    now.len() == had.len() + 1,
            ;
        } else {
            assert(now == had);
        }
    } else {
        assert(posted_groups(groups, filter).len() == 0);
        assert(0 * targets.len() == 0);
    }
}

/// The route that is found is the first one with the name, and none is found exactly if there
/// is none.
pub proof fn lemma_route_found(routes: Seq<config::RouteCfgView>, name: Seq<char>)
    ensures
        match route_at(routes, name) {
            Some(i) => {
                &&& 0 <= i < routes.len()
                &&& routes[i].name == name
                &&& forall|j: int| 0 <= j < i ==> (#[trigger] routes[j]).name != name
            },
            None => forall|j: int| 0 <= j < routes.len() ==> (#[trigger] routes[j]).name != name,
        },
    decreases routes.len(),
{
    if routes.len() > 0 {
        let init = routes.drop_last();
        lemma_route_found(init, name);
        assert(routes[routes.len() - 1] == routes.last());
        match route_at(init, name) {
            Some(i) => {
                assert(routes[i] == init[i]);
                assert forall|j: int| 0 <= j < i implies (#[trigger] routes[j]).name != name by {
                    assert(init[j].name != name);
                }
            },
            None => {
                assert forall|j: int| 0 <= j < init.len() implies (#[trigger] routes[j]).name
                    != name by {
                    assert(init[j].name != name);
                }
            },
        }
    }
}

/// The targets of a backfill are the webhooks of the route that have an address, in their
/// order, under the name and in the colour of the route.
pub proof fn lemma_backfill_targets(
    route: config::RouteCfgView,
    urls: Map<Seq<char>, Seq<char>>,
    mode: MediaMode,
)
    ensures
        ({
            let known = route.to.filter(|w: Seq<char>| urls.dom().contains(w));
            let ts = targets_of(route, urls, mode);
            &&& ts.len() == known.len()
            &&& forall|i: int|
                0 <= i < ts.len() ==> {
                    &&& (#[trigger] ts[i]).webhook == known[i]
                    &&& ts[i].url == urls[known[i]]
                    &&& ts[i].route == route.name
                    &&& ts[i].color == route.color
                    &&& ts[i].mode == mode
                }
        }),
{
    live::lemma_resolved_in_order(route.to, urls);
}

proof fn lemma_in_sum(a: Seq<char>, b: Seq<char>, part: Seq<char>)
    ensures
        text::contains_text(a, part) ==> text::contains_text(a + b, part),
        text::contains_text(b, part) ==> text::contains_text(a + b, part),
        text::contains_text(part, part),
{
    let s = a + b;
    let n = part.len() as int;
    if text::contains_text(a, part) {
        let i = choose|i: int| text::matches_at(a, part, i);
        assert(s.subrange(i, i + n) =~= a.subrange(i, i + n));
        assert(text::matches_at(s, part, i));
    }
    if text::contains_text(b, part) {
        let i = choose|i: int| text::matches_at(b, part, i);
        let k = a.len() + i;
        assert(s.subrange(k, k + n) =~= b.subrange(i, i + n));
        assert(text::matches_at(s, part, k));
    }
    assert(part.subrange(0, n) =~= part);
    assert(text::matches_at(part, part, 0));
}

proof fn lemma_in_next(a: Seq<char>, n: Seq<char>, unit: Seq<char>, part: Seq<char>)
    ensures
        text::contains_text(a, part) ==> text::contains_text(a + n + unit, part),
        part == n + unit ==> text::contains_text(a + n + unit, part),
{
    lemma_in_sum(a, n, part);
    lemma_in_sum(a + n, unit, part);
    lemma_in_sum(a, n + unit, part);
    assert(a + (n + unit) =~= a + n + unit);
}

/// The summary of a backfill says how many messages were fetched and what became of them.
pub proof fn lemma_summary(route: Seq<char>, t: Tally)
    ensures
        text::contains_text(summary_of(route, t), "backfill '"@ + route + "': "@),
        text::contains_text(
            summary_of(route, t),
            text::decimal(t.fetched as int) + " fetched, "@,
        ),
        text::contains_text(summary_of(route, t), text::decimal(t.posted as int) + " posted, "@),
        text::contains_text(
            summary_of(route, t),
            text::decimal(t.skipped_empty as int) + " skipped (no content), "@,
        ),
        text::contains_text(
            summary_of(route, t),
            text::decimal(t.skipped_filter as int) + " skipped (filter), "@,
        ),
        text::contains_text(
            summary_of(route, t),
            text::decimal(t.skipped_dupe as int) + " skipped (already relayed), "@,
        ),
        text::contains_text(summary_of(route, t), text::decimal(t.dropped as int) + " dropped"@),
{
    let p0 = "backfill '"@ + route + "': "@;
    let n1 = text::decimal(t.fetched as int);
    let n2 = text::decimal(t.posted as int);
    let n3 = text::decimal(t.skipped_empty as int);
    let n4 = text::decimal(t.skipped_filter as int);
    let n5 = text::decimal(t.skipped_dupe as int);
    let n6 = text::decimal(t.dropped as int);
    let u1 = " fetched, "@;
    let u2 = " posted, "@;
    let u3 = " skipped (no content), "@;
    let u4 = " skipped (filter), "@;
    let u5 = " skipped (already relayed), "@;
    let u6 = " dropped"@;
    let s1 = p0 + n1 + u1;
    let s2 = s1 + n2 + u2;
    let s3 = s2 + n3 + u3;
    let s4 = s3 + n4 + u4;
    let s5 = s4 + n5 + u5;
    lemma_in_sum(p0, n1, p0);
    lemma_chain(p0, s1, s2, s3, s4, s5, n1, n2, n3, n4, n5, n6, u1, u2, u3, u4, u5, u6, p0);
    lemma_in_next(p0, n1, u1, n1 + u1);
    lemma_chain(p0, s1, s2, s3, s4, s5, n1, n2, n3, n4, n5, n6, u1, u2, u3, u4, u5, u6, n1 + u1);
    lemma_in_next(s1, n2, u2, n2 + u2);
    lemma_chain(p0, s1, s2, s3, s4, s5, n1, n2, n3, n4, n5, n6, u1, u2, u3, u4, u5, u6, n2 + u2);
    lemma_in_next(s2, n3, u3, n3 + u3);
    lemma_chain(p0, s1, s2, s3, s4, s5, n1, n2, n3, n4, n5, n6, u1, u2, u3, u4, u5, u6, n3 + u3);
    lemma_in_next(s3, n4, u4, n4 + u4);
    lemma_chain(p0, s1, s2, s3, s4, s5, n1, n2, n3, n4, n5, n6, u1, u2, u3, u4, u5, u6, n4 + u4);
    lemma_in_next(s4, n5, u5, n5 + u5);
    lemma_chain(p0, s1, s2, s3, s4, s5, n1, n2, n3, n4, n5, n6, u1, u2, u3, u4, u5, u6, n5 + u5);
    lemma_in_next(s5, n6, u6, n6 + u6);
}

proof fn lemma_chain(
    p0: Seq<char>,
    s1: Seq<char>,
    s2: Seq<char>,
    s3: Seq<char>,
    s4: Seq<char>,
    s5: Seq<char>,
    n1: Seq<char>,
    n2: Seq<char>,
    n3: Seq<char>,
    n4: Seq<char>,
    n5: Seq<char>,
    n6: Seq<char>,
    u1: Seq<char>,
    u2: Seq<char>,
    u3: Seq<char>,
    u4: Seq<char>,
    u5: Seq<char>,
    u6: Seq<char>,
    part: Seq<char>,
)
    requires
        s1 == p0 + n1 + u1,
        s2 == s1 + n2 + u2,
        s3 == s2 + n3 + u3,
        s4 == s3 + n4 + u4,
        s5 == s4 + n5 + u5,
        text::contains_text(p0, part) || text::contains_text(s1, part) || text::contains_text(
            s2,
            part,
        ) || text::contains_text(s3, part) || text::contains_text(s4, part) || text::contains_text(
            s5,
            part,
        ),
    ensures
        text::contains_text(s5 + n6 + u6, part),
{
    lemma_in_next(p0, n1, u1, part);
    lemma_in_next(s1, n2, u2, part);
    lemma_in_next(s2, n3, u3, part);
    lemma_in_next(s3, n4, u4, part);
    lemma_in_next(s4, n5, u5, part);
    lemma_in_next(s5, n6, u6, part);
}

/// Where no route has the name that is asked for, the message names it, the configuration and
/// every route that there is.
pub proof fn lemma_unknown_route_is_told(
    routes: Seq<config::RouteCfgView>,
    name: Seq<char>,
    config_path: Seq<char>,
    i: int,
)
    ensures
        text::contains_text(no_such_route(routes, name, config_path), "route '"@ + name + "'"@),
        text::contains_text(no_such_route(routes, name, config_path), "in "@ + config_path + ";"@),
        0 <= i < routes.len() ==> text::contains_text(
            no_such_route(routes, name, config_path),
            routes[i].name,
        ),
        routes.len() == 0 ==> text::ends_with(
            no_such_route(routes, name, config_path),
            "(none configured)"@,
        ),
{
    reveal_strlit("' not found in ");
    reveal_strlit("; available route(s): ");
    reveal_strlit("'");
    reveal_strlit("in ");
    reveal_strlit(";");
    let names = routes.map_values(|r: config::RouteCfgView| r.name);
    let list = if routes.len() == 0 {
        "(none configured)"@
    } else {
        text::joined(names, ", "@)
    };
    let front = "route '"@ + name + "' not found in "@ + config_path + "; available route(s): "@;
    let all = front + list;
    let asked = "route '"@ + name + "'"@;
    assert(all.subrange(0, asked.len() as int) =~= asked);
    assert(text::matches_at(all, asked, 0));
    let place = "in "@ + config_path + ";"@;
    let at = ("route '"@ + name).len() as int + 12;
    assert(all.subrange(at, at + place.len()) =~= place);
    assert(text::matches_at(all, place, at));
    if 0 <= i < routes.len() {
        text::lemma_joined_has_part(names, ", "@, i);
        assert(names[i] == routes[i].name);
        lemma_in_sum(front, list, routes[i].name);
    }
    if routes.len() == 0 {
        assert(all.subrange(all.len() - list.len(), all.len() as int) =~= list);
    }
}

} // verus!
