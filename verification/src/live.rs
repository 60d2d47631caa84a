//! What becomes of each message while the relay runs: to which webhooks it goes, and what
//! is posted there.

use vstd::prelude::*;

use crate::album;
use crate::config;
use crate::config::{ChatId, MediaCfg, MediaMode, WebhookName, WebhookUrl};
use crate::contracts;
use crate::dedup;
use crate::dedup::Dedup;
use crate::latency;
use crate::media;
use crate::media::{MediaItem, MediaTarget};
use crate::names::NameMap;
use crate::reactions::Reactions;
use crate::refresh;
use crate::render;
use crate::render::{EmbedMeta, RelayText};
use crate::router;
use crate::router::{ResolvedRoute, Router};
use crate::store;
use crate::store::NewRecord;
use crate::telegram;
use crate::telegram::Incoming;
use crate::text;

verus! {

/// The webhooks of a list that have an address, with it.
pub open spec fn resolved_targets(to: Seq<Seq<char>>, urls: Map<Seq<char>, Seq<char>>) -> Seq<
    (Seq<char>, Seq<char>),
>
    decreases to.len(),
{
    if to.len() == 0 {
        Seq::empty()
    } else if urls.dom().contains(to.last()) {
        resolved_targets(to.drop_last(), urls).push((to.last(), urls[to.last()]))
    } else {
        resolved_targets(to.drop_last(), urls)
    }
}

/// The webhooks of a route with their addresses; one without an address is passed over.
pub fn resolve_targets_named(to: &Vec<WebhookName>, webhooks: &NameMap<WebhookUrl>) -> (r: Vec<
    (WebhookName, WebhookUrl),
>)
    ensures
        r.deep_view() == resolved_targets(to.deep_view(), config::urls(webhooks@)),
{
    let ghost all = to.deep_view();
    let ghost urls = config::urls(webhooks@);
    let mut out: Vec<(WebhookName, WebhookUrl)> = Vec::new();
    let mut i: usize = 0;
    assert(all.take(0) =~= Seq::<Seq<char>>::empty());
    assert(out.deep_view() =~= Seq::<(Seq<char>, Seq<char>)>::empty());
    while i < to.len()
        invariant
            all == to.deep_view(),
            urls == config::urls(webhooks@),
            i <= all.len(),
            out.deep_view() == resolved_targets(all.take(i as int), urls),
        decreases all.len() - i,
    {
        let ghost before = out.deep_view();
        assert(all.take(i + 1).drop_last() =~= all.take(i as int));
        assert(all.take(i + 1).last() == to@[i as int].0@);
        match webhooks.get(to[i].0.as_str()) {
            Some(url) => {
                out.push((to[i].clone(), url.clone()));
                assert(out.deep_view() =~= before.push((to@[i as int].0@, url.0@)));
            },
            None => {},
        }
        i = i + 1;
    }
    assert(all.take(all.len() as int) =~= all);
    out
}

/// Targets of one route, out of its webhooks with their addresses.
pub open spec fn targets_with(
    route: Seq<char>,
    color: u32,
    mode: MediaMode,
    hooks: Seq<(Seq<char>, Seq<char>)>,
) -> Seq<media::MediaTargetView> {
    hooks.map_values(
        |h: (Seq<char>, Seq<char>)|
            media::MediaTargetView { route, webhook: h.0, url: h.1, color, mode },
    )
}

/// Make targets of the webhooks of one route.
pub fn make_targets(
    route: &str,
    color: u32,
    mode: MediaMode,
    hooks: &Vec<(WebhookName, WebhookUrl)>,
) -> (r: Vec<MediaTarget>)
    ensures
        r.deep_view() == targets_with(route@, color, mode, hooks.deep_view()),
{
    let mut out: Vec<MediaTarget> = Vec::new();
    let mut i: usize = 0;
    while i < hooks.len()
        invariant
            i <= hooks@.len(),
            out@.len() == i,
            forall|j: int|
                0 <= j < i ==> (#[trigger] out@[j]).deep_view() == (media::MediaTargetView {
                    route: route@,
                    webhook: hooks@[j].0.0@,
                    url: hooks@[j].1.0@,
                    color,
                    mode,
                }),
        decreases hooks@.len() - i,
    {
        let h: &(WebhookName, WebhookUrl) = &hooks[i];
        out.push(
            MediaTarget {
                route: route.to_owned(),
                webhook: h.0.clone(),
                url: h.1.clone(),
                color,
                mode,
            },
        );
        i = i + 1;
    }
    assert(out.deep_view() =~= targets_with(route@, color, mode, hooks.deep_view()));
    out
}

/// The media mode of a route.
pub open spec fn mode_for(route: router::ResolvedRouteView, global: MediaMode) -> MediaMode {
    match route.media_mode {
        Some(m) => m,
        None => global,
    }
}

/// The targets of a route.
pub open spec fn route_targets(
    route: router::ResolvedRouteView,
    urls: Map<Seq<char>, Seq<char>>,
    global: MediaMode,
) -> Seq<media::MediaTargetView> {
    targets_with(
        route.name,
        route.color,
        mode_for(route, global),
        resolved_targets(route.to, urls),
    )
}

/// The targets of all the routes that let a post through, in their order, each webhook
/// once: under the first route that leads to it.
pub open spec fn fan_out_of(
    routes: Seq<router::ResolvedRouteView>,
    passed: Seq<bool>,
    urls: Map<Seq<char>, Seq<char>>,
    global: MediaMode,
) -> Seq<media::MediaTargetView>
    decreases routes.len(),
{
    if routes.len() == 0 {
        Seq::empty()
    } else {
        let before = fan_out_of(routes.drop_last(), passed.drop_last(), urls, global);
        if passed.last() {
            album::with_targets(before, route_targets(routes.last(), urls, global))
        } else {
            before
        }
    }
}

/// A post with this text passes the filter of a route, if it has one.
pub open spec fn lets_through(route: router::ResolvedRouteView, body: Seq<char>) -> bool {
    match route.filter {
        Some(f) => render::filter_passes(render::lowercase(body), render::lowered(f)),
        None => true,
    }
}

/// Which routes let a post through.
pub open spec fn passing_of(routes: Seq<router::ResolvedRouteView>, body: Seq<char>) -> Seq<bool> {
    routes.map_values(|r: router::ResolvedRouteView| lets_through(r, body))
}

/// Which routes let a post with this text through.
pub fn passing(routes: &[ResolvedRoute], body: &str) -> (r: Vec<bool>)
    ensures
        r@ == passing_of(routes.deep_view(), body@),
{
    let mut out: Vec<bool> = Vec::new();
    let mut i: usize = 0;
    while i < routes.len()
        invariant
            i <= routes@.len(),
            out@.len() == i,
            forall|j: int|
                0 <= j < i ==> #[trigger] out@[j] == lets_through(
                    routes@[j].deep_view(),
                    body@,
                ),
        decreases routes@.len() - i,
    {
        let ok: bool = match &routes[i].filter {
            Some(f) => render::passes_filter(body, f),
            None => true,
        };
        out.push(ok);
        i = i + 1;
    }
    assert(out@ =~= passing_of(routes.deep_view(), body@));
    out
}

/// The targets of a post, where it is known which routes let it through.
pub fn fan_out(
    routes: &[ResolvedRoute],
    passed: &Vec<bool>,
    webhooks: &NameMap<WebhookUrl>,
    global: MediaMode,
) -> (r: Vec<MediaTarget>)
    requires
        routes@.len() == passed@.len(),
    ensures
        r.deep_view() == fan_out_of(
            routes.deep_view(),
            passed@,
            config::urls(webhooks@),
            global,
        ),
{
    let ghost all = routes.deep_view();
    let ghost urls = config::urls(webhooks@);
    let mut out: Vec<MediaTarget> = Vec::new();
    let mut i: usize = 0;
    assert(all.take(0) =~= Seq::<router::ResolvedRouteView>::empty());
    assert(out.deep_view() =~= Seq::<media::MediaTargetView>::empty());
    while i < routes.len()
        invariant
            all == routes.deep_view(),
            all.len() == passed@.len(),
            urls == config::urls(webhooks@),
            i <= all.len(),
            out.deep_view() == fan_out_of(
                all.take(i as int),
                passed@.take(i as int),
                urls,
                global,
            ),
        decreases all.len() - i,
    {
        assert(all.take(i + 1).drop_last() =~= all.take(i as int));
        assert(passed@.take(i + 1).drop_last() =~= passed@.take(i as int));
        assert(all.take(i + 1).last() == routes@[i as int].deep_view());
        assert(passed@.take(i + 1).last() == passed@[i as int]);
        if passed[i] {
            let route: &ResolvedRoute = &routes[i];
            let mode: MediaMode = config::effective_media_mode(route.media_mode, global);
            let hooks: Vec<(WebhookName, WebhookUrl)> = resolve_targets_named(
                &route.to,
                webhooks,
            );
            let more: Vec<MediaTarget> = make_targets(
                route.name.as_str(),
                route.color,
                mode,
                &hooks,
            );
            album::add_targets(&mut out, &more);
        }
        i = i + 1;
    }
    assert(all.take(all.len() as int) =~= all);
    assert(passed@.take(all.len() as int) =~= passed@);
    out
}

/// A webhook with an address is among those of a route.
pub open spec fn leads_to(
    route: router::ResolvedRouteView,
    urls: Map<Seq<char>, Seq<char>>,
    webhook: Seq<char>,
) -> bool {
    route.to.contains(webhook) && urls.dom().contains(webhook)
}

proof fn lemma_resolved_targets(
    to: Seq<Seq<char>>,
    urls: Map<Seq<char>, Seq<char>>,
    webhook: Seq<char>,
)
    ensures
        (exists|i: int|
            0 <= i < resolved_targets(to, urls).len() && (#[trigger] resolved_targets(
                to,
                urls,
            )[i]).0 == webhook) <==> to.contains(webhook) && urls.dom().contains(webhook),
        forall|i: int|
            0 <= i < resolved_targets(to, urls).len() ==> (#[trigger] resolved_targets(
                to,
                urls,
            )[i]).1 == urls[resolved_targets(to, urls)[i].0],
    decreases to.len(),
{
    if to.len() > 0 {
        let init = to.drop_last();
        let x = to.last();
        lemma_resolved_targets(init, urls, webhook);
        let p = resolved_targets(init, urls);
        let q = resolved_targets(to, urls);
        assert(to[to.len() - 1] == x);
        if to.contains(webhook) && x != webhook {
            let i = choose|i: int| 0 <= i < to.len() && to[i] == webhook;
            assert(init[i] == webhook);
        }
        if init.contains(webhook) {
            let i = choose|i: int| 0 <= i < init.len() && init[i] == webhook;
            assert(to[i] == webhook);
        }
        if urls.dom().contains(x) {
            assert(q[p.len() as int] == (x, urls[x]));
            if exists|i: int| 0 <= i < p.len() && (#[trigger] p[i]).0 == webhook {
                let i = choose|i: int| 0 <= i < p.len() && (#[trigger] p[i]).0 == webhook;
                assert(q[i].0 == webhook);
            }
            if exists|i: int| 0 <= i < q.len() && (#[trigger] q[i]).0 == webhook {
                let i = choose|i: int| 0 <= i < q.len() && (#[trigger] q[i]).0 == webhook;
                if i < p.len() {
                    assert(p[i].0 == webhook);
                }
            }
        }
    }
}

proof fn lemma_route_targets(
    route: router::ResolvedRouteView,
    urls: Map<Seq<char>, Seq<char>>,
    global: MediaMode,
    webhook: Seq<char>,
)
    ensures
        album::targets_webhook(route_targets(route, urls, global), webhook) <==> leads_to(
            route,
            urls,
            webhook,
        ),
{
    lemma_resolved_targets(route.to, urls, webhook);
    let hooks = resolved_targets(route.to, urls);
    let ts = route_targets(route, urls, global);
    if album::targets_webhook(ts, webhook) {
        let i = choose|i: int| 0 <= i < ts.len() && (#[trigger] ts[i]).webhook == webhook;
        assert(hooks[i].0 == webhook);
    }
    if leads_to(route, urls, webhook) {
        let i = choose|i: int| 0 <= i < hooks.len() && (#[trigger] hooks[i]).0 == webhook;
        assert(ts[i].webhook == webhook);
    }
}

/// A post goes to every webhook that a route which lets it through leads to, to no other
/// one, and to none of them twice.
pub proof fn lemma_fan_out(
    routes: Seq<router::ResolvedRouteView>,
    passed: Seq<bool>,
    urls: Map<Seq<char>, Seq<char>>,
    global: MediaMode,
    webhook: Seq<char>,
)
    requires
        routes.len() == passed.len(),
    ensures
        album::distinct_targets(fan_out_of(routes, passed, urls, global)),
        album::targets_webhook(fan_out_of(routes, passed, urls, global), webhook) <==> exists|i: int|
            0 <= i < routes.len() && passed[i] && leads_to(#[trigger] routes[i], urls, webhook),
    decreases routes.len(),
{
    if routes.len() > 0 {
        let rs = routes.drop_last();
        let ps = passed.drop_last();
        lemma_fan_out(rs, ps, urls, global, webhook);
        let before = fan_out_of(rs, ps, urls, global);
        let more = route_targets(routes.last(), urls, global);
        album::lemma_with_targets(before, more, webhook);
        lemma_route_targets(routes.last(), urls, global, webhook);
        let n = routes.len() - 1;
        assert(routes[n] == routes.last() && passed[n] == passed.last());
        if exists|i: int|
            0 <= i < routes.len() && passed[i] && leads_to(#[trigger] routes[i], urls, webhook) {
            let i = choose|i: int|
                0 <= i < routes.len() && passed[i] && leads_to(
                    #[trigger] routes[i],
                    urls,
                    webhook,
                );
            if i < n {
                assert(rs[i] == routes[i] && ps[i] == passed[i]);
            }
        }
        if exists|i: int| 0 <= i < rs.len() && ps[i] && leads_to(#[trigger] rs[i], urls, webhook) {
            let i = choose|i: int|
                0 <= i < rs.len() && ps[i] && leads_to(#[trigger] rs[i], urls, webhook);
            assert(rs[i] == routes[i] && ps[i] == passed[i]);
        }
    }
}

/// A target of a route: one of its webhooks, at the configured address of that webhook, in
/// the colour and the media mode of the route.
pub open spec fn target_of_route(
    t: media::MediaTargetView,
    route: router::ResolvedRouteView,
    urls: Map<Seq<char>, Seq<char>>,
    global: MediaMode,
) -> bool {
    &&& leads_to(route, urls, t.webhook)
    &&& t.url == urls[t.webhook]
    &&& t.route == route.name
    &&& t.color == route.color
    &&& t.mode == mode_for(route, global)
}

/// Nothing is ever posted to an address that is not configured: every target of a post is
/// one of a route that lets it through.
pub proof fn lemma_targets_are_configured(
    routes: Seq<router::ResolvedRouteView>,
    passed: Seq<bool>,
    urls: Map<Seq<char>, Seq<char>>,
    global: MediaMode,
    k: int,
)
    requires
        routes.len() == passed.len(),
        0 <= k < fan_out_of(routes, passed, urls, global).len(),
    ensures
        exists|i: int|
            0 <= i < routes.len() && passed[i] && target_of_route(
                fan_out_of(routes, passed, urls, global)[k],
                #[trigger] routes[i],
                urls,
                global,
            ),
    decreases routes.len(),
{
    let rs = routes.drop_last();
    let ps = passed.drop_last();
    let n = routes.len() - 1;
    let before = fan_out_of(rs, ps, urls, global);
    let t = fan_out_of(routes, passed, urls, global)[k];
    assert(routes[n] == routes.last() && passed[n] == passed.last());
    if passed.last() {
        let more = route_targets(routes.last(), urls, global);
        album::lemma_with_targets_from(before, more, k);
        if k >= before.len() {
            let j = choose|j: int| 0 <= j < more.len() && more[j] == t;
            lemma_resolved_targets(routes.last().to, urls, t.webhook);
            assert(resolved_targets(routes.last().to, urls)[j].0 == t.webhook);
            assert(target_of_route(t, routes[n], urls, global));
        }
    }
    if !passed.last() || k < before.len() {
        lemma_targets_are_configured(rs, ps, urls, global, k);
        let i = choose|i: int|
            0 <= i < rs.len() && ps[i] && target_of_route(
                before[k],
                #[trigger] rs[i],
                urls,
                global,
            );
        assert(rs[i] == routes[i] && ps[i] == passed[i]);
    }
}

/// A text that is to be posted to one webhook.
pub struct TextDelivery {
    pub target: MediaTarget,
    /// The name that it is posted under.
    pub username: String,
    pub text: RelayText,
    pub meta: EmbedMeta,
    /// What stands outside of the embeds.
    pub content: Option<String>,
    /// What is recorded once it is delivered, but for the id of the message.
    pub record: NewRecord,
    /// When the source was published, where it is relayed as it comes.
    pub date: Option<String>,
}

pub struct TextDeliveryView {
    pub target: media::MediaTargetView,
    pub username: Seq<char>,
    pub text: render::RelayTextView,
    pub meta: render::EmbedMetaView,
    pub content: Option<Seq<char>>,
    pub record: store::NewRecordView,
    pub date: Option<Seq<char>>,
}

impl DeepView for TextDelivery {
    type V = TextDeliveryView;

    open spec fn deep_view(&self) -> TextDeliveryView {
        TextDeliveryView {
            target: self.target.deep_view(),
            username: self.username@,
            text: self.text.deep_view(),
            meta: self.meta.deep_view(),
            content: self.content.deep_view(),
            record: self.record.deep_view(),
            date: self.date.deep_view(),
        }
    }
}

/// A text message as it arrived.
pub struct TextPost {
    pub chat: ChatId,
    pub msg_id: i32,
    pub sender: Option<String>,
    pub body: String,
    pub reply_quote: Option<String>,
    pub edited: bool,
    pub title: Option<String>,
    pub deep_link: Option<String>,
    pub date: String,
}

pub struct TextPostView {
    pub chat: i64,
    pub msg_id: i32,
    pub sender: Option<Seq<char>>,
    pub body: Seq<char>,
    pub reply_quote: Option<Seq<char>>,
    pub edited: bool,
    pub title: Option<Seq<char>>,
    pub deep_link: Option<Seq<char>>,
    pub date: Seq<char>,
}

impl DeepView for TextPost {
    type V = TextPostView;

    open spec fn deep_view(&self) -> TextPostView {
        TextPostView {
            chat: self.chat.0,
            msg_id: self.msg_id,
            sender: self.sender.deep_view(),
            body: self.body@,
            reply_quote: self.reply_quote.deep_view(),
            edited: self.edited,
            title: self.title.deep_view(),
            deep_link: self.deep_link.deep_view(),
            date: self.date@,
        }
    }
}

/// What a target gets of a text. A post that just came has neither reactions nor comments.
pub open spec fn text_delivery_of(
    post: TextPostView,
    target: media::MediaTargetView,
    content: Option<Seq<char>>,
) -> TextDeliveryView {
    TextDeliveryView {
        target,
        username: album::name_shown(post.sender, target.route),
        text: render::RelayTextView {
            sender: post.sender,
            body: post.body,
            reply_quote: post.reply_quote,
            edited: post.edited,
        },
        meta: render::EmbedMetaView {
            title: match post.title {
                Some(t) => t,
                None => target.route,
            },
            avatar_url: None,
            deep_link: post.deep_link,
            reactions: Seq::empty(),
            comment_count: 0,
            deleted: false,
            color: target.color,
            timestamp: Some(post.date),
        },
        content,
        record: store::NewRecordView {
            chat_id: post.chat,
            tg_msg_id: post.msg_id,
            route: target.route,
            webhook_name: target.webhook,
            discord_msg_id: Seq::empty(),
            content_hash: refresh::content_hash_of(post.body),
            reactions: Seq::empty(),
            comment_count: 0,
            latency_ms: None,
            image_urls: Seq::empty(),
        },
        date: Some(post.date),
    }
}

/// What stands outside of the embeds: the contract addresses, where that is wanted.
pub open spec fn content_for(wanted: bool, body: Seq<char>) -> Option<Seq<char>> {
    if wanted {
        contracts::contract_content_of(body)
    } else {
        None
    }
}

/// What stands outside of the embeds of a post: the contract addresses in it, where that
/// is wanted.
pub fn plain_content(wanted: bool, body: &str) -> (r: Option<String>)
    ensures
        r.deep_view() == content_for(wanted, body@),
{
    if wanted {
        contracts::contract_content(body)
    } else {
        None
    }
}

/// What one target gets of a text.
pub fn text_delivery(post: &TextPost, target: &MediaTarget, content: &Option<String>) -> (r:
    TextDelivery)
    ensures
        r.deep_view() == text_delivery_of(
            post.deep_view(),
            target.deep_view(),
            content.deep_view(),
        ),
{
    let sender: Option<&str> = match &post.sender {
        Some(s) => Some(s.as_str()),
        None => None,
    };
    let title: String = match &post.title {
        Some(t) => t.clone(),
        None => target.route.clone(),
    };
    let record: NewRecord = NewRecord {
        chat_id: post.chat.0,
        tg_msg_id: post.msg_id,
        route: target.route.clone(),
        webhook_name: target.webhook.0.clone(),
        discord_msg_id: String::new(),
        content_hash: refresh::content_hash(post.body.as_str()),
        reactions: Reactions::new(),
        comment_count: 0,
        latency_ms: None,
        image_urls: Vec::new(),
    };
    assert(record.image_urls.deep_view() =~= Seq::<Seq<char>>::empty());
    assert(record.discord_msg_id@ =~= Seq::<char>::empty());
    TextDelivery {
        target: target.clone(),
        username: album::display_name(sender, target.route.as_str()),
        text: RelayText {
            sender: post.sender.clone(),
            body: post.body.clone(),
            reply_quote: post.reply_quote.clone(),
            edited: post.edited,
        },
        meta: EmbedMeta {
            title,
            avatar_url: None,
            deep_link: post.deep_link.clone(),
            reactions: Reactions::new(),
            comment_count: 0,
            deleted: false,
            color: target.color,
            timestamp: Some(post.date.clone()),
        },
        content: content.clone(),
        record,
        date: Some(post.date.clone()),
    }
}

/// What each target gets of a text.
pub open spec fn text_deliveries_of(
    post: TextPostView,
    targets: Seq<media::MediaTargetView>,
    content: Option<Seq<char>>,
) -> Seq<TextDeliveryView> {
    targets.map_values(|t: media::MediaTargetView| text_delivery_of(post, t, content))
}

/// What each target gets of a text.
pub fn text_deliveries(post: &TextPost, targets: &Vec<MediaTarget>, content: &Option<String>) -> (r:
    Vec<TextDelivery>)
    ensures
        r.deep_view() == text_deliveries_of(
            post.deep_view(),
            targets.deep_view(),
            content.deep_view(),
        ),
{
    let mut out: Vec<TextDelivery> = Vec::new();
    let mut i: usize = 0;
    while i < targets.len()
        invariant
            i <= targets@.len(),
            out@.len() == i,
            forall|j: int|
                0 <= j < i ==> (#[trigger] out@[j]).deep_view() == text_delivery_of(
                    post.deep_view(),
                    targets@[j].deep_view(),
                    content.deep_view(),
                ),
        decreases targets@.len() - i,
    {
        out.push(text_delivery(post, &targets[i], content));
        i = i + 1;
    }
    assert(out.deep_view() =~= text_deliveries_of(
        post.deep_view(),
        targets.deep_view(),
        content.deep_view(),
    ));
    out
}

/// What is recorded of a text that was delivered.
pub open spec fn delivered_of(
    record: store::NewRecordView,
    discord_msg_id: Seq<char>,
    latency_ms: Option<i64>,
) -> store::NewRecordView {
    store::NewRecordView { discord_msg_id, latency_ms, ..record }
}

/// The latency of a delivery; none where the source was not relayed as it came.
pub open spec fn latency_for(discord_msg_id: Seq<char>, date: Option<Seq<char>>) -> Option<i64> {
    match date {
        Some(d) => match latency::latency_between(
            latency::made_at(discord_msg_id),
            latency::millis_of(d),
        ) {
            Some(ms) => Some(ms as i64),
            None => None,
        },
        None => None,
    }
}

/// Complete what is recorded of a text once it is delivered: the id of its message, and how
/// long it took from the publication of the source.
pub fn delivered(record: NewRecord, discord_msg_id: String, date: Option<&str>) -> (r: NewRecord)
    ensures
        r.deep_view() == delivered_of(
            record.deep_view(),
            discord_msg_id@,
            latency_for(
                discord_msg_id@,
                match date {
                    Some(d) => Some(d@),
                    None => None,
                },
            ),
        ),
{
    let latency_ms: Option<i64> = match date {
        Some(d) => latency::relay_latency_ms(discord_msg_id.as_str(), d),
        None => None,
    };
    let mut out: NewRecord = record;
    out.discord_msg_id = discord_msg_id;
    out.latency_ms = latency_ms;
    out
}

/// What is recorded of a media post that was delivered to a target: as `album::media_record`
/// says, with a latency only where it was relayed as it came.
pub fn delivered_media(
    post: &album::MediaPost,
    target: &MediaTarget,
    discord_msg_id: String,
    image_urls: Vec<String>,
    as_it_came: bool,
) -> (r: NewRecord)
    ensures
        r.deep_view() == album::media_record_of(
            post.deep_view(),
            target.deep_view(),
            discord_msg_id@,
            image_urls.deep_view(),
            latency_for(
                discord_msg_id@,
                if as_it_came {
                    post.deep_view().timestamp
                } else {
                    None
                },
            ),
        ),
{
    let latency_ms: Option<i64> = match (as_it_came, &post.timestamp) {
        (true, Some(date)) => latency::relay_latency_ms(discord_msg_id.as_str(), date.as_str()),
        _ => None,
    };
    album::media_record(post, target, discord_msg_id, image_urls, latency_ms)
}

/// What a message is relayed by: the routes, the addresses of the webhooks, and what to do
/// with media.
pub struct Live {
    pub router: Router,
    pub webhooks: NameMap<WebhookUrl>,
    pub media: MediaCfg,
}

impl Live {
    pub fn build(routes: Vec<ResolvedRoute>, webhooks: NameMap<WebhookUrl>, media: MediaCfg) -> (r:
        Self)
        ensures
            forall|chat: i64|
                #[trigger] r.router.from_chat(chat) == router::routes_from(
                    routes.deep_view(),
                    chat,
                ),
            r.webhooks == webhooks,
            r.media == media,
    {
        Live { router: Router::new(routes), webhooks, media }
    }

    /// The targets of a post from `chat` with this text.
    pub open spec fn targets(self, chat: i64, body: Seq<char>) -> Seq<media::MediaTargetView> {
        fan_out_of(
            self.router.from_chat(chat),
            passing_of(self.router.from_chat(chat), body),
            config::urls(self.webhooks@),
            self.media.mode,
        )
    }

    /// The targets of a post from `chat` with this text.
    pub fn targets_for(&self, chat: ChatId, body: &str) -> (r: Vec<MediaTarget>)
        ensures
            r.deep_view() == self.targets(chat.0, body@),
    {
        let routes: &[ResolvedRoute] = self.router.match_chat(chat);
        assert(routes.deep_view().len() == routes@.len());
        let passed: Vec<bool> = passing(routes, body);
        fan_out(routes, &passed, &self.webhooks, self.media.mode)
    }
}

/// What is to be done with a message.
pub enum Dispatch {
    /// It goes nowhere.
    Ignore,
    /// Post a text to every target.
    Texts(Vec<TextDelivery>),
    /// Gather media; `download` says whether its file, of at most `max_bytes`, is fetched
    /// first, to be attached under `filename`.
    Media { item: MediaItem, filename: String, download: bool, max_bytes: u64 },
}

pub enum DispatchView {
    Ignore,
    Texts(Seq<TextDeliveryView>),
    Media { item: media::MediaItemView, filename: Seq<char>, download: bool, max_bytes: u64 },
}

impl DeepView for Dispatch {
    type V = DispatchView;

    open spec fn deep_view(&self) -> DispatchView {
        match self {
            Dispatch::Ignore => DispatchView::Ignore,
            Dispatch::Texts(l) => DispatchView::Texts(l.deep_view()),
            Dispatch::Media { item, filename, download, max_bytes } => DispatchView::Media {
                item: item.deep_view(),
                filename: filename@,
                download: *download,
                max_bytes: *max_bytes,
            },
        }
    }
}

/// Some target takes the file itself.
pub open spec fn wants_file(targets: Seq<media::MediaTargetView>) -> bool {
    exists|i: int| 0 <= i < targets.len() && (#[trigger] targets[i]).mode == MediaMode::Reupload
}

/// What is to be done with a message that has not been seen before, where its targets are
/// known. A file is fetched only where a target takes it and it is not too large; media
/// without a file is gathered all the same, so that its album stays together.
pub open spec fn dispatch_of(
    incoming: telegram::IncomingView,
    targets: Seq<media::MediaTargetView>,
    cfg: MediaCfg,
    contract_passthrough: bool,
) -> DispatchView {
    match incoming {
        telegram::IncomingView::Text {
            chat,
            msg_id,
            sender,
            body,
            reply_quote,
            edited,
            title,
            deep_link,
            date,
        } => {
            let post = TextPostView {
                chat,
                msg_id,
                sender,
                body,
                reply_quote,
                edited,
                title,
                deep_link,
                date,
            };
            DispatchView::Texts(
                text_deliveries_of(post, targets, content_for(contract_passthrough, body)),
            )
        },
        telegram::IncomingView::Media {
            chat,
            msg_id,
            grouped_id,
            filename,
            caption,
            sender,
            approx_size,
            deep_link,
            title,
            date,
        } => if targets.len() == 0 {
            DispatchView::Ignore
        } else {
            DispatchView::Media {
                item: media::MediaItemView {
                    grouped_id,
                    msg_id,
                    chat,
                    file: None,
                    oversized: approx_size > cfg.max_bytes,
                    caption,
                    deep_link,
                    title: match title {
                        Some(t) => t,
                        None => targets[0].route,
                    },
                    sender,
                    date,
                    targets,
                },
                filename,
                download: wants_file(targets) && approx_size <= cfg.max_bytes,
                max_bytes: cfg.max_bytes,
            }
        },
    }
}

/// The chat and the number of a message.
pub open spec fn message_key(incoming: telegram::IncomingView) -> (i64, i32) {
    match incoming {
        telegram::IncomingView::Text { chat, msg_id, .. } => (chat, msg_id),
        telegram::IncomingView::Media { chat, msg_id, .. } => (chat, msg_id),
    }
}

/// The text by which a message is filtered.
pub open spec fn filtered_text(incoming: telegram::IncomingView) -> Seq<char> {
    match incoming {
        telegram::IncomingView::Text { body, .. } => body,
        telegram::IncomingView::Media { caption, .. } => caption,
    }
}

fn any_reupload(targets: &Vec<MediaTarget>) -> (r: bool)
    ensures
        r == wants_file(targets.deep_view()),
{
    let ghost all = targets.deep_view();
    let mut i: usize = 0;
    while i < targets.len()
        invariant
            all == targets.deep_view(),
            i <= all.len(),
            forall|j: int| 0 <= j < i ==> (#[trigger] all[j]).mode != MediaMode::Reupload,
        decreases all.len() - i,
    {
        assert(all[i as int] == targets@[i as int].deep_view());
        if targets[i].mode == MediaMode::Reupload {
            return true;
        }
        i = i + 1;
    }
    false
}

/// What is to be done with a message, where its targets are known.
pub fn dispatch_to(
    incoming: Incoming,
    targets: Vec<MediaTarget>,
    cfg: MediaCfg,
    contract_passthrough: bool,
) -> (r: Dispatch)
    ensures
        r.deep_view() == dispatch_of(
            incoming.deep_view(),
            targets.deep_view(),
            cfg,
            contract_passthrough,
        ),
{
    match incoming {
        Incoming::Text {
            chat,
            msg_id,
            sender,
            body,
            reply_quote,
            edited,
            title,
            deep_link,
            date,
        } => {
            let content: Option<String> = plain_content(contract_passthrough, body.as_str());
            let post: TextPost = TextPost {
                chat,
                msg_id,
                sender,
                body,
                reply_quote,
                edited,
                title,
                deep_link,
                date,
            };
            Dispatch::Texts(text_deliveries(&post, &targets, &content))
        },
        Incoming::Media {
            chat,
            msg_id,
            grouped_id,
            filename,
            caption,
            sender,
            approx_size,
            deep_link,
            title,
            date,
        } => {
            assert(targets.deep_view().len() == targets@.len());
            if targets.len() == 0 {
                return Dispatch::Ignore;
            }
            assert(targets.deep_view()[0] == targets@[0].deep_view());
            let title: String = match title {
                Some(t) => t,
                None => targets[0].route.clone(),
            };
            let oversized: bool = approx_size > cfg.max_bytes;
            let download: bool = any_reupload(&targets) && !oversized;
            Dispatch::Media {
                item: MediaItem {
                    grouped_id,
                    msg_id,
                    chat,
                    file: None,
                    oversized,
                    caption,
                    deep_link,
                    title,
                    sender,
                    date,
                    targets,
                },
                filename,
                download,
                max_bytes: cfg.max_bytes,
            }
        },
    }
}

/// Decide what is to be done with a message: nothing with one that was seen before.
pub fn dispatch(incoming: Incoming, seen: &mut Dedup, live: &Live, contract_passthrough: bool) -> (r:
    Dispatch)
    ensures
        final(seen).recent() == dedup::after_use(
            old(seen).recent(),
            old(seen).room(),
            message_key(incoming.deep_view()),
        ),
        final(seen).room() == old(seen).room(),
        old(seen).well_formed() ==> final(seen).well_formed(),
        r.deep_view() == (if old(seen).recent().contains(message_key(incoming.deep_view())) {
            DispatchView::Ignore
        } else {
            dispatch_of(
                incoming.deep_view(),
                live.targets(
                    message_key(incoming.deep_view()).0,
                    filtered_text(incoming.deep_view()),
                ),
                live.media,
                contract_passthrough,
            )
        }),
{
    let ghost key = message_key(incoming.deep_view());
    let (chat, msg_id): (ChatId, i32) = match &incoming {
        Incoming::Text { chat, msg_id, .. } => (*chat, *msg_id),
        Incoming::Media { chat, msg_id, .. } => (*chat, *msg_id),
    };
    assert(key == (chat.0, msg_id));
    if !seen.check_and_insert(chat, msg_id) {
        return Dispatch::Ignore;
    }
    let targets: Vec<MediaTarget> = match &incoming {
        Incoming::Text { body, .. } => live.targets_for(chat, body.as_str()),
        Incoming::Media { caption, .. } => live.targets_for(chat, caption.as_str()),
    };
    dispatch_to(incoming, targets, live.media, contract_passthrough)
}

/// An item with its file, once that is fetched.
pub fn downloaded(item: MediaItem, filename: String, bytes: Vec<u8>) -> (r: MediaItem)
    ensures
        r.deep_view() == (media::MediaItemView {
            file: Some((filename@, bytes.deep_view())),
            ..item.deep_view()
        }),
{
    let mut out: MediaItem = item;
    out.file = Some((filename, bytes));
    out
}

/// Nothing is posted and nothing is downloaded.
pub open spec fn goes_nowhere(d: DispatchView) -> bool {
    match d {
        DispatchView::Ignore => true,
        DispatchView::Texts(l) => l.len() == 0,
        DispatchView::Media { .. } => false,
    }
}

/// A message of a chat that no route starts from goes nowhere, before anything of it is
/// downloaded.
pub proof fn lemma_only_routed_chats(
    live: Live,
    incoming: telegram::IncomingView,
    contract_passthrough: bool,
)
    requires
        live.router.from_chat(message_key(incoming).0).len() == 0,
    ensures
        goes_nowhere(
            dispatch_of(
                incoming,
                live.targets(message_key(incoming).0, filtered_text(incoming)),
                live.media,
                contract_passthrough,
            ),
        ),
{
}

/// Where every route from a chat leaves a notice in place of media, nothing of that chat is
/// ever downloaded.
pub proof fn lemma_placeholder_downloads_nothing(
    live: Live,
    incoming: telegram::IncomingView,
    contract_passthrough: bool,
)
    requires
        forall|i: int|
            0 <= i < live.router.from_chat(message_key(incoming).0).len() ==> mode_for(
                #[trigger] live.router.from_chat(message_key(incoming).0)[i],
                live.media.mode,
            ) == MediaMode::Placeholder,
    ensures
        dispatch_of(
            incoming,
            live.targets(message_key(incoming).0, filtered_text(incoming)),
            live.media,
            contract_passthrough,
        ) matches DispatchView::Media { download, .. } ==> !download,
{
    let routes = live.router.from_chat(message_key(incoming).0);
    let passed = passing_of(routes, filtered_text(incoming));
    let urls = config::urls(live.webhooks@);
    let targets = fan_out_of(routes, passed, urls, live.media.mode);
    assert forall|k: int| 0 <= k < targets.len() implies (#[trigger] targets[k]).mode
        != MediaMode::Reupload by {
        lemma_targets_are_configured(routes, passed, urls, live.media.mode, k);
        let i = choose|i: int|
            0 <= i < routes.len() && passed[i] && target_of_route(
                targets[k],
                #[trigger] routes[i],
                urls,
                live.media.mode,
            );
        assert(mode_for(routes[i], live.media.mode) == MediaMode::Placeholder);
    }
}

/// What was delivered under a new message id is passed over from then on, also after a
/// restart and by a backfill: with it recorded, the store answers so for its webhook.
pub proof fn lemma_delivered_is_passed_over(
    rows: Seq<store::RowView>,
    post: TextPostView,
    target: media::MediaTargetView,
    content: Option<Seq<char>>,
    discord_msg_id: Seq<char>,
    latency_ms: Option<i64>,
    now: i64,
)
    requires
        !store::is_recorded(
            rows,
            delivered_of(
                text_delivery_of(post, target, content).record,
                discord_msg_id,
                latency_ms,
            ),
        ),
    ensures
        store::relayed(
            store::recorded(
                rows,
                delivered_of(
                    text_delivery_of(post, target, content).record,
                    discord_msg_id,
                    latency_ms,
                ),
                now,
            ),
            post.chat,
            post.msg_id,
            target.webhook,
        ),
{
    let rec = delivered_of(
        text_delivery_of(post, target, content).record,
        discord_msg_id,
        latency_ms,
    );
    store::lemma_recorded_is_relayed(rows, rec, now, post.chat, post.msg_id, target.webhook);
}

/// A delivered text shows no change when its source is fetched again as it was.
pub proof fn lemma_fresh_text_is_unchanged(
    post: TextPostView,
    target: media::MediaTargetView,
    content: Option<Seq<char>>,
    discord_msg_id: Seq<char>,
    latency_ms: Option<i64>,
    now: i64,
    f: refresh::FetchedPostView,
)
    requires
        f.body == post.body,
        f.reactions.len() == 0,
        f.comment_count is None || f.comment_count == Some(0i32),
    ensures
        refresh::change_of(
            store::message_of(
                store::new_row(
                    delivered_of(
                        text_delivery_of(post, target, content).record,
                        discord_msg_id,
                        latency_ms,
                    ),
                    now,
                ),
            ),
            Some(f),
        ) is Unchanged,
{
    assert(f.reactions =~= Seq::<(Seq<char>, i32)>::empty());
}

/// A new text goes out as it came in: one delivery for each target in its order, whose text
/// has the body, the sender and the quote of the message, under the title of its channel and
/// in the colour of the route, with its link and its time. Outside of the embeds stand the
/// contract addresses of the body where that is wanted, and nothing otherwise.
pub proof fn lemma_text_goes_out(
    incoming: telegram::IncomingView,
    targets: Seq<media::MediaTargetView>,
    cfg: MediaCfg,
    contract_passthrough: bool,
)
    requires
        incoming is Text,
    ensures
        dispatch_of(incoming, targets, cfg, contract_passthrough) matches DispatchView::Texts(l)
            && {
            &&& l.len() == targets.len()
            &&& forall|i: int|
                0 <= i < l.len() ==> {
                    let d = #[trigger] l[i];
                    &&& d.target == targets[i]
                    &&& d.text.body == incoming->body
                    &&& d.text.sender == incoming->Text_sender
                    &&& d.text.reply_quote == incoming->reply_quote
                    &&& d.text.edited == incoming->edited
                    &&& d.meta.title == (match incoming->Text_title {
                        Some(t) => t,
                        None => targets[i].route,
                    })
                    &&& d.meta.deep_link == incoming->Text_deep_link
                    &&& d.meta.color == targets[i].color
                    &&& d.meta.timestamp == Some(incoming->Text_date)
                    &&& d.meta.reactions.len() == 0
                    &&& d.meta.comment_count == 0
                    &&& !d.meta.deleted
                    &&& d.meta.avatar_url is None
                    &&& contract_passthrough ==> d.content == contracts::contract_content_of(
                        incoming->body,
                    )
                    &&& !contract_passthrough ==> d.content is None
                    &&& d.date == Some(incoming->Text_date)
                }
        },
{
}

/// The name that a text is posted under is that of its sender, or that of the route where
/// there is none.
pub proof fn lemma_text_is_signed(
    incoming: telegram::IncomingView,
    targets: Seq<media::MediaTargetView>,
    cfg: MediaCfg,
    contract_passthrough: bool,
    i: int,
)
    requires
        incoming is Text,
        0 <= i < targets.len(),
    ensures
        dispatch_of(incoming, targets, cfg, contract_passthrough) matches DispatchView::Texts(l)
            && (match incoming->Text_sender {
            Some(s) => if s.len() > 0 {
                l[i].username == s
            } else {
                l[i].username == targets[i].route
            },
            None => l[i].username == targets[i].route,
        }),
{
}

/// The embeds of a new text say its body, to every target, whatever the footer: a body that
/// fits into one embed is its description.
pub proof fn lemma_text_is_said(
    incoming: telegram::IncomingView,
    targets: Seq<media::MediaTargetView>,
    cfg: MediaCfg,
    contract_passthrough: bool,
    footer: Seq<char>,
    i: int,
)
    requires
        incoming is Text,
        0 <= i < targets.len(),
        incoming->body.len() > 0,
    ensures
        dispatch_of(incoming, targets, cfg, contract_passthrough) matches DispatchView::Texts(l) && {
            let embeds = render::embeds_of(l[i].text, l[i].meta, footer);
            &&& !incoming->edited ==> render::all_said(embeds) == render::clipped(
                incoming->body,
                40960,
            )
            &&& incoming->edited ==> render::all_said(embeds) == render::clipped(
                "(edited) "@ + incoming->body,
                40960,
            )
            &&& !incoming->edited && incoming->body.len() <= 4096 ==> embeds.len() == 1
                && embeds[0].description == Some(incoming->body)
        },
{
    let l = dispatch_of(incoming, targets, cfg, contract_passthrough)->Texts_0;
    lemma_text_goes_out(incoming, targets, cfg, contract_passthrough);
    let d = l[i];
    render::lemma_embeds_say_body(d.text, d.meta, footer);
    if !incoming->edited && incoming->body.len() <= 4096 {
        render::lemma_short_body(d.text, d.meta, footer);
    }
}

/// What is recorded of a text, once it is delivered: its message, where it went and by which
/// route, the message that it became, and its body as what it says.
pub proof fn lemma_text_record(
    incoming: telegram::IncomingView,
    targets: Seq<media::MediaTargetView>,
    cfg: MediaCfg,
    contract_passthrough: bool,
    i: int,
    discord_msg_id: Seq<char>,
    latency_ms: Option<i64>,
)
    requires
        incoming is Text,
        0 <= i < targets.len(),
    ensures
        dispatch_of(incoming, targets, cfg, contract_passthrough) matches DispatchView::Texts(l) && {
            let r = delivered_of(l[i].record, discord_msg_id, latency_ms);
            &&& r.chat_id == incoming->Text_chat
            &&& r.tg_msg_id == incoming->Text_msg_id
            &&& r.route == targets[i].route
            &&& r.webhook_name == targets[i].webhook
            &&& r.discord_msg_id == discord_msg_id
            &&& r.latency_ms == latency_ms
            &&& r.content_hash == refresh::content_hash_of(incoming->body)
            &&& r.reactions.len() == 0
            &&& r.comment_count == 0
            &&& r.image_urls.len() == 0
        },
{
}

/// New media is gathered with its caption, its channel and all its targets. Its file is
/// fetched exactly if a target takes files and it is not too large; one that is too large is
/// marked so.
pub proof fn lemma_media_is_gathered(
    incoming: telegram::IncomingView,
    targets: Seq<media::MediaTargetView>,
    cfg: MediaCfg,
    contract_passthrough: bool,
)
    requires
        incoming is Media,
    ensures
        targets.len() == 0 ==> dispatch_of(incoming, targets, cfg, contract_passthrough) is Ignore,
        targets.len() > 0 ==> (dispatch_of(
            incoming,
            targets,
            cfg,
            contract_passthrough,
        ) matches DispatchView::Media { item, filename, download, max_bytes } && {
            &&& item.grouped_id == incoming->grouped_id
            &&& item.msg_id == incoming->Media_msg_id
            &&& item.chat == incoming->Media_chat
            &&& item.caption == incoming->caption
            &&& item.deep_link == incoming->Media_deep_link
            &&& item.sender == incoming->Media_sender
            &&& item.date == incoming->Media_date
            &&& item.targets == targets
            &&& item.file is None
            &&& item.title == (match incoming->Media_title {
                Some(t) => t,
                None => targets[0].route,
            })
            &&& item.oversized <==> incoming->approx_size > cfg.max_bytes
            &&& filename == incoming->filename
            &&& max_bytes == cfg.max_bytes
            &&& download <==> incoming->approx_size <= cfg.max_bytes && exists|i: int|
                0 <= i < targets.len() && (#[trigger] targets[i]).mode == MediaMode::Reupload
        }),
{
}

/// A target of a post is under the first route that lets the post through and leads to its
/// webhook: it has the name and the colour of that route, and its media mode where the route
/// sets one, else the global one.
pub proof fn lemma_first_route_wins(
    routes: Seq<router::ResolvedRouteView>,
    passed: Seq<bool>,
    urls: Map<Seq<char>, Seq<char>>,
    global: MediaMode,
    k: int,
)
    requires
        routes.len() == passed.len(),
        0 <= k < fan_out_of(routes, passed, urls, global).len(),
    ensures
        exists|i: int|
            {
                let t = fan_out_of(routes, passed, urls, global)[k];
                &&& 0 <= i < routes.len()
                &&& passed[i]
                &&& (#[trigger] routes[i]).to.contains(t.webhook)
                &&& t.route == routes[i].name
                &&& t.color == routes[i].color
                &&& routes[i].media_mode is Some ==> t.mode == routes[i].media_mode->0
                &&& routes[i].media_mode is None ==> t.mode == global
                &&& urls.dom().contains(t.webhook) && t.url == urls[t.webhook]
                &&& forall|j: int|
                    0 <= j < i && passed[j] ==> !(#[trigger] routes[j]).to.contains(t.webhook)
            },
    decreases routes.len(),
{
    let ri = routes.drop_last();
    let pi = passed.drop_last();
    let before = fan_out_of(ri, pi, urls, global);
    let t = fan_out_of(routes, passed, urls, global)[k];
    let n = routes.len() - 1;
    if k < before.len() {
        if passed.last() {
            album::lemma_with_targets_from(before, route_targets(routes.last(), urls, global), k);
        }
        lemma_first_route_wins(ri, pi, urls, global, k);
        let i = choose|i: int|
            {
                &&& 0 <= i < ri.len()
                &&& pi[i]
                &&& (#[trigger] ri[i]).to.contains(t.webhook)
                &&& t.route == ri[i].name
                &&& t.color == ri[i].color
                &&& ri[i].media_mode is Some ==> t.mode == ri[i].media_mode->0
                &&& ri[i].media_mode is None ==> t.mode == global
                &&& urls.dom().contains(t.webhook) && t.url == urls[t.webhook]
                &&& forall|j: int|
                    0 <= j < i && pi[j] ==> !(#[trigger] ri[j]).to.contains(t.webhook)
            };
        assert(routes[i] == ri[i]);
        assert forall|j: int| 0 <= j < i && passed[j] implies !(#[trigger] routes[j]).to.contains(
            t.webhook,
        ) by {
            assert(!ri[j].to.contains(t.webhook));
        }
    } else {
        let more = route_targets(routes.last(), urls, global);
        album::lemma_with_targets_from(before, more, k);
        let m = choose|m: int| 0 <= m < more.len() && more[m] == t;
        let hooks = resolved_targets(routes.last().to, urls);
        lemma_resolved_targets(routes.last().to, urls, t.webhook);
        assert(hooks[m].0 == t.webhook);
        assert(routes[n] == routes.last());
        lemma_target_is_new(before, more, k);
        lemma_fan_out(ri, pi, urls, global, t.webhook);
        assert forall|j: int| 0 <= j < n && passed[j] implies !(#[trigger] routes[j]).to.contains(
            t.webhook,
        ) by {
            if routes[j].to.contains(t.webhook) {
                assert(leads_to(ri[j], urls, t.webhook));
            }
        }
    }
}

proof fn lemma_target_is_new(
    before: Seq<media::MediaTargetView>,
    more: Seq<media::MediaTargetView>,
    k: int,
)
    requires
        before.len() <= k < album::with_targets(before, more).len(),
    ensures
        !album::targets_webhook(before, album::with_targets(before, more)[k].webhook),
    decreases more.len(),
{
    if more.len() > 0 {
        let mid = album::with_targets(before, more.drop_last());
        if k < mid.len() {
            lemma_target_is_new(before, more.drop_last(), k);
        } else {
            album::lemma_with_targets(before, more.drop_last(), more.last().webhook);
        }
    }
}

/// A route lets a post through exactly if it has no filter, or none of the excluded hashtags
/// of its filter stands in the post and, where there are keywords, one of them does; the case
/// of letters does not count.
pub proof fn lemma_passing(routes: Seq<router::ResolvedRouteView>, body: Seq<char>, i: int)
    requires
        0 <= i < routes.len(),
    ensures
        passing_of(routes, body).len() == routes.len(),
        passing_of(routes, body)[i] <==> match routes[i].filter {
            None => true,
            Some(f) => {
                &&& forall|j: int|
                    0 <= j < f.exclude_hashtags.len() ==> !text::contains_text(
                        render::lowercase(body),
                        render::lowercase(#[trigger] f.exclude_hashtags[j]),
                    )
                &&& f.any_keywords.len() == 0 || exists|j: int|
                    0 <= j < f.any_keywords.len() && text::contains_text(
                        render::lowercase(body),
                        render::lowercase(#[trigger] f.any_keywords[j]),
                    )
            },
        },
{
    if let Some(f) = routes[i].filter {
        render::lemma_filter_lets_through(body, f);
    }
}

/// A text is filtered by its body and media by its caption, and a message is known by its
/// chat and its number.
pub proof fn lemma_message_key(incoming: telegram::IncomingView)
    ensures
        incoming is Text ==> filtered_text(incoming) == incoming->body && message_key(incoming)
            == (incoming->Text_chat, incoming->Text_msg_id),
        incoming is Media ==> filtered_text(incoming) == incoming->caption && message_key(incoming)
            == (incoming->Media_chat, incoming->Media_msg_id),
{
}

/// A message goes out once: where it was just dispatched, it is remembered, so that it is
/// ignored when it comes again.
pub proof fn lemma_message_goes_out_once(
    recent: Seq<(i64, i32)>,
    room: nat,
    incoming: telegram::IncomingView,
)
    requires
        room > 0,
        recent.len() <= room,
        recent.no_duplicates(),
    ensures
        dedup::after_use(recent, room, message_key(incoming)).contains(message_key(incoming)),
{
    dedup::lemma_room_kept(recent, room, message_key(incoming));
    let after = dedup::after_use(recent, room, message_key(incoming));
    assert(after.len() > 0);
    assert(after[after.len() - 1] == message_key(incoming));
}

/// The latency of a delivery is the time from the publication of the source to the making of
/// the message, which its id tells; there is none for a post that was not relayed as it came.
pub proof fn lemma_latency_for(n: u64, date: Seq<char>, published: i64)
    requires
        latency::millis_of(date) == Some(published),
        -9_000_000_000_000_000 < published < 9_000_000_000_000_000,
    ensures
        latency_for(text::decimal(n as int), Some(date)) == Some(
            ((n as int) / 4194304 + 1420070400000 - published) as i64,
        ),
        latency_for(text::decimal(n as int), None) is None,
{
    latency::lemma_made_at(n);
}

/// The targets of a list of webhooks are those that have an address, in their order, each with
/// its address.
pub proof fn lemma_resolved_in_order(to: Seq<Seq<char>>, urls: Map<Seq<char>, Seq<char>>)
    ensures
        resolved_targets(to, urls) == to.filter(
            |w: Seq<char>| urls.dom().contains(w),
        ).map_values(|w: Seq<char>| (w, urls[w])),
    decreases to.len(),
{
    reveal(Seq::filter);
    let f = |w: Seq<char>| urls.dom().contains(w);
    let g = |w: Seq<char>| (w, urls[w]);
    if to.len() > 0 {
        lemma_resolved_in_order(to.drop_last(), urls);
    }
    assert(resolved_targets(to, urls) =~= to.filter(f).map_values(g));
}

/// The targets of a route carry its name, its colour and its media mode, each with a webhook
/// and its address.
pub proof fn lemma_targets_with(
    route: Seq<char>,
    color: u32,
    mode: MediaMode,
    hooks: Seq<(Seq<char>, Seq<char>)>,
    i: int,
)
    requires
        0 <= i < hooks.len(),
    ensures
        targets_with(route, color, mode, hooks).len() == hooks.len(),
        ({
            let t = targets_with(route, color, mode, hooks)[i];
            &&& t.route == route
            &&& t.color == color
            &&& t.mode == mode
            &&& t.webhook == hooks[i].0
            &&& t.url == hooks[i].1
        }),
{
}

/// The filter of a route lets a post through: it has none, or none of the excluded hashtags
/// stands in the post and, where there are keywords, one of them does. The case of letters does
/// not count.
pub open spec fn takes(route: router::ResolvedRouteView, body: Seq<char>) -> bool {
    match route.filter {
        None => true,
        Some(f) => {
            &&& forall|j: int|
                0 <= j < f.exclude_hashtags.len() ==> !text::contains_text(
                    render::lowercase(body),
                    render::lowercase(#[trigger] f.exclude_hashtags[j]),
                )
            &&& f.any_keywords.len() == 0 || exists|j: int|
                0 <= j < f.any_keywords.len() && text::contains_text(
                    render::lowercase(body),
                    render::lowercase(#[trigger] f.any_keywords[j]),
                )
        },
    }
}

/// A post goes to exactly those webhooks with an address to which a route from its chat leads
/// that takes it; to each once, at its address.
pub proof fn lemma_live_targets(live: Live, chat: i64, body: Seq<char>, webhook: Seq<char>)
    ensures
        ({
            let ts = live.targets(chat, body);
            let routes = live.router.from_chat(chat);
            &&& (exists|k: int| 0 <= k < ts.len() && (#[trigger] ts[k]).webhook == webhook) <==> (
            live.webhooks@.dom().contains(webhook) && exists|i: int|
                0 <= i < routes.len() && takes(routes[i], body) && (
                #[trigger] routes[i]).to.contains(webhook))
            &&& forall|k: int|
                0 <= k < ts.len() ==> (#[trigger] ts[k]).url == live.webhooks@[ts[k].webhook].0@
            &&& forall|j: int, k: int|
                #![trigger ts[j], ts[k]]
                0 <= j < k < ts.len() ==> ts[j].webhook != ts[k].webhook
        }),
{
    let routes = live.router.from_chat(chat);
    let passed = passing_of(routes, body);
    let urls = config::urls(live.webhooks@);
    let ts = live.targets(chat, body);
    lemma_fan_out(routes, passed, urls, live.media.mode, webhook);
    assert forall|i: int| 0 <= i < routes.len() implies (passed[i] <==> takes(
        #[trigger] routes[i],
        body,
    )) by {
        lemma_passing(routes, body, i);
    }
    assert(album::targets_webhook(ts, webhook) <==> exists|k: int|
        0 <= k < ts.len() && (#[trigger] ts[k]).webhook == webhook);
    if album::targets_webhook(ts, webhook) {
        let i = choose|i: int|
            0 <= i < routes.len() && passed[i] && leads_to(#[trigger] routes[i], urls, webhook);
        assert(takes(routes[i], body));
        assert(routes[i].to.contains(webhook));
    }
    if live.webhooks@.dom().contains(webhook) && exists|i: int|
        0 <= i < routes.len() && takes(routes[i], body) && (#[trigger] routes[i]).to.contains(
            webhook,
        ) {
        let i = choose|i: int|
            0 <= i < routes.len() && takes(routes[i], body) && (#[trigger] routes[i]).to.contains(
                webhook,
            );
        assert(passed[i] && leads_to(routes[i], urls, webhook));
    }
    assert forall|k: int| 0 <= k < ts.len() implies (#[trigger] ts[k]).url
        == live.webhooks@[ts[k].webhook].0@ by {
        lemma_first_route_wins(routes, passed, urls, live.media.mode, k);
    }
}

/// Media takes the mode of the first route that takes it, and the global one where that route
/// sets none.
pub proof fn lemma_live_mode(live: Live, chat: i64, body: Seq<char>, k: int)
    requires
        0 <= k < live.targets(chat, body).len(),
    ensures
        ({
            let t = live.targets(chat, body)[k];
            let routes = live.router.from_chat(chat);
            exists|i: int|
                {
                    &&& 0 <= i < routes.len()
                    &&& takes(routes[i], body)
                    &&& (#[trigger] routes[i]).to.contains(t.webhook)
                    &&& t.route == routes[i].name
                    &&& t.color == routes[i].color
                    &&& routes[i].media_mode is Some ==> t.mode == routes[i].media_mode->0
                    &&& routes[i].media_mode is None ==> t.mode == live.media.mode
                    &&& forall|j: int|
                        0 <= j < i && takes(routes[j], body) ==> !(
                        #[trigger] routes[j]).to.contains(t.webhook)
                }
        }),
{
    let routes = live.router.from_chat(chat);
    let passed = passing_of(routes, body);
    let urls = config::urls(live.webhooks@);
    let t = live.targets(chat, body)[k];
    assert forall|i: int| 0 <= i < routes.len() implies (passed[i] <==> takes(
        #[trigger] routes[i],
        body,
    )) by {
        lemma_passing(routes, body, i);
    }
    lemma_first_route_wins(routes, passed, urls, live.media.mode, k);
    let i = choose|i: int|
        {
            &&& 0 <= i < routes.len()
            &&& passed[i]
            &&& (#[trigger] routes[i]).to.contains(t.webhook)
            &&& t.route == routes[i].name
            &&& t.color == routes[i].color
            &&& routes[i].media_mode is Some ==> t.mode == routes[i].media_mode->0
            &&& routes[i].media_mode is None ==> t.mode == live.media.mode
            &&& urls.dom().contains(t.webhook) && t.url == urls[t.webhook]
            &&& forall|j: int|
                0 <= j < i && passed[j] ==> !(#[trigger] routes[j]).to.contains(t.webhook)
        };
    assert forall|j: int| 0 <= j < i && takes(routes[j], body) implies !(
    #[trigger] routes[j]).to.contains(t.webhook) by {
        assert(passed[j]);
    }
    assert(takes(routes[i], body));
}

} // verus!
