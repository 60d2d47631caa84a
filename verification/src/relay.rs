//! The running relay: everything that happens to it, and what it does about it.

use vstd::prelude::*;

use crate::config::{MediaCfg, WebhookUrl};
use crate::dedup;
use crate::dedup::Dedup;
use crate::live;
use crate::live::{Dispatch, Live};
use crate::media;
use crate::media::{AlbumBuffer, MediaItem};
use crate::names::NameMap;
use crate::ops;
use crate::ops::{Liveness, Probe, Verdict};
use crate::router;
use crate::router::ResolvedRoute;
use crate::telegram;
use crate::telegram::Event;

verus! {

/// How many messages are remembered, so that none is relayed twice.
pub const DEDUP_CAP: usize = 8192;

/// How long an album must be quiet before it is released, in nanoseconds.
pub const ALBUM_WINDOW: u64 = 1_000_000_000;

/// The state of a running relay. Points in time are nanoseconds on a clock that never
/// runs backwards.
pub struct Relay {
    pub live: Live,
    pub seen: Dedup,
    pub album: AlbumBuffer,
    pub liveness: Liveness,
    /// When something was last heard of Telegram.
    pub last_update: u64,
    pub contract_passthrough: bool,
}

/// What is to be done about a message, with these ones seen before.
pub open spec fn reaction_to(
    live: Live,
    seen: Seq<(i64, i32)>,
    incoming: telegram::IncomingView,
    contract_passthrough: bool,
) -> live::DispatchView {
    if seen.contains(live::message_key(incoming)) {
        live::DispatchView::Ignore
    } else {
        live::dispatch_of(
            incoming,
            live.targets(live::message_key(incoming).0, live::filtered_text(incoming)),
            live.media,
            contract_passthrough,
        )
    }
}

impl Relay {
    pub fn new(live: Live, contract_passthrough: bool, now: u64) -> (r: Self)
        ensures
            r.live == live,
            r.seen.well_formed(),
            r.seen.recent() == Seq::<(i64, i32)>::empty(),
            r.seen.room() == DEDUP_CAP,
            r.album.pending() == Seq::<media::GroupView>::empty(),
            r.album.quiet_window() == ALBUM_WINDOW,
            r.liveness.failures == 0,
            r.last_update == now,
            r.contract_passthrough == contract_passthrough,
    {
        Relay {
            live,
            seen: Dedup::new(DEDUP_CAP),
            album: AlbumBuffer::new(ALBUM_WINDOW),
            liveness: Liveness::new(),
            last_update: now,
            contract_passthrough,
        }
    }

    /// Something came from Telegram. Whatever it is, it shows that the connection is alive.
    pub fn on_update(&mut self, event: &Event, now: u64) -> (r: Dispatch)
        ensures
            final(self).liveness.failures == 0,
            final(self).last_update == now,
            final(self).live == old(self).live,
            final(self).album == old(self).album,
            final(self).contract_passthrough == old(self).contract_passthrough,
            final(self).seen.room() == old(self).seen.room(),
            old(self).seen.well_formed() ==> final(self).seen.well_formed(),
            match telegram::classified(event.deep_view()) {
                Some(incoming) => {
                    &&& final(self).seen.recent() == dedup::after_use(
                        old(self).seen.recent(),
                        old(self).seen.room(),
                        live::message_key(incoming),
                    )
                    &&& r.deep_view() == reaction_to(
                        old(self).live,
                        old(self).seen.recent(),
                        incoming,
                        old(self).contract_passthrough,
                    )
                },
                None => {
                    &&& final(self).seen.recent() == old(self).seen.recent()
                    &&& r is Ignore
                },
            },
    {
        self.last_update = now;
        self.liveness.heard();
        match telegram::classify(event) {
            Some(incoming) => live::dispatch(
                incoming,
                &mut self.seen,
                &self.live,
                self.contract_passthrough,
            ),
            None => Dispatch::Ignore,
        }
    }

    /// Media is ready. What is to be posted at once is handed out.
    pub fn on_media(&mut self, item: MediaItem, now: u64) -> (r: Option<Vec<MediaItem>>)
        ensures
            final(self).live == old(self).live,
            final(self).seen == old(self).seen,
            final(self).liveness == old(self).liveness,
            final(self).last_update == old(self).last_update,
            final(self).contract_passthrough == old(self).contract_passthrough,
            final(self).album.quiet_window() == old(self).album.quiet_window(),
            match item.grouped_id {
                Some(id) => {
                    &&& r is None
                    &&& final(self).album.pending() == media::with_item(
                        old(self).album.pending(),
                        id,
                        item.deep_view(),
                        now,
                    )
                },
                None => {
                    &&& r.deep_view() == Some(seq![item.deep_view()])
                    &&& final(self).album.pending() == old(self).album.pending()
                },
            },
    {
        self.album.push(item, now)
    }

    /// Time has passed. One album that is quiet is handed out, if there is one.
    pub fn on_media_tick(&mut self, now: u64) -> (r: Option<Vec<MediaItem>>)
        ensures
            final(self).live == old(self).live,
            final(self).seen == old(self).seen,
            final(self).liveness == old(self).liveness,
            final(self).last_update == old(self).last_update,
            final(self).contract_passthrough == old(self).contract_passthrough,
            final(self).album.quiet_window() == old(self).album.quiet_window(),
            ({
                let before = old(self).album.pending();
                let at = media::first_quiet(before, old(self).album.quiet_window(), now);
                if at < before.len() {
                    &&& 0 <= at
                    &&& r.deep_view() == Some(before[at].items)
                    &&& final(self).album.pending() == before.remove(at)
                } else {
                    &&& r is None
                    &&& final(self).album.pending() == before
                }
            }),
    {
        self.album.tick(now)
    }

    /// Whether the connection is to be probed: only after a silence, since a busy relay is
    /// alive.
    pub fn on_liveness_tick(&self, now: u64) -> (r: bool)
        ensures
            r == (now - self.last_update >= ops::LIVENESS_PROBE),
    {
        now >= self.last_update && Liveness::should_probe(now - self.last_update)
    }

    /// What a probe of the connection gave.
    pub fn on_probe(&mut self, p: &Probe) -> (r: Verdict)
        requires
            old(self).liveness.failures < u32::MAX,
        ensures
            (final(self).liveness.failures, r) == ops::after_probe(
                old(self).liveness.failures,
                p.deep_view(),
            ),
            r is GoOn ==> final(self).liveness.failures < ops::MAX_PROBE_FAILURES,
            final(self).live == old(self).live,
            final(self).seen == old(self).seen,
            final(self).album == old(self).album,
            final(self).last_update == old(self).last_update,
            final(self).contract_passthrough == old(self).contract_passthrough,
    {
        self.liveness.probed(p)
    }

    /// The configuration was read again. What was seen and gathered stays.
    pub fn on_reload(
        &mut self,
        routes: Vec<ResolvedRoute>,
        webhooks: NameMap<WebhookUrl>,
        media: MediaCfg,
    )
        ensures
            forall|chat: i64| #[trigger]
                final(self).live.router.from_chat(chat) == router::routes_from(
                    routes.deep_view(),
                    chat,
                ),
            final(self).live.webhooks == webhooks,
            final(self).live.media == media,
            final(self).seen == old(self).seen,
            final(self).album == old(self).album,
            final(self).liveness == old(self).liveness,
            final(self).last_update == old(self).last_update,
            final(self).contract_passthrough == old(self).contract_passthrough,
    {
        self.live = Live::build(routes, webhooks, media);
    }

    /// The relay ends. Every album that is still held back is handed out.
    pub fn on_end(&mut self) -> (r: Vec<Vec<MediaItem>>)
        ensures
            r.deep_view() == old(self).album.pending().map_values(|g: media::GroupView| g.items),
            final(self).album.pending() == Seq::<media::GroupView>::empty(),
            final(self).album.quiet_window() == old(self).album.quiet_window(),
            final(self).live == old(self).live,
            final(self).seen == old(self).seen,
            final(self).liveness == old(self).liveness,
            final(self).last_update == old(self).last_update,
            final(self).contract_passthrough == old(self).contract_passthrough,
    {
        self.album.flush_all()
    }
}

/// A message is relayed once: when it comes again, with fewer other messages in between
/// than are remembered, nothing is done about it.
pub proof fn lemma_relayed_once(
    live: Live,
    seen: Seq<(i64, i32)>,
    room: nat,
    first: telegram::IncomingView,
    between: Seq<(i64, i32)>,
    again: telegram::IncomingView,
    contract_passthrough: bool,
)
    requires
        room > 0,
        seen.len() <= room,
        seen.no_duplicates(),
        between.len() < room,
        live::message_key(again) == live::message_key(first),
    ensures
        reaction_to(
            live,
            dedup::after_uses(
                dedup::after_use(seen, room, live::message_key(first)),
                room,
                between,
            ),
            again,
            contract_passthrough,
        ) is Ignore,
{
    dedup::lemma_remembered(seen, room, live::message_key(first), between);
}

/// A text that was not seen before goes to every target of its chat, with the body that it has;
/// a message that was seen goes nowhere.
pub proof fn lemma_new_text_is_relayed(
    live: Live,
    seen: Seq<(i64, i32)>,
    incoming: telegram::IncomingView,
    contract_passthrough: bool,
)
    requires
        incoming is Text,
    ensures
        seen.contains((incoming->Text_chat, incoming->Text_msg_id)) ==> reaction_to(
            live,
            seen,
            incoming,
            contract_passthrough,
        ) is Ignore,
        !seen.contains((incoming->Text_chat, incoming->Text_msg_id)) ==> (reaction_to(
            live,
            seen,
            incoming,
            contract_passthrough,
        ) matches live::DispatchView::Texts(l) && {
            let targets = live.targets(incoming->Text_chat, incoming->body);
            &&& l.len() == targets.len()
            &&& forall|i: int|
                0 <= i < l.len() ==> (#[trigger] l[i]).target == targets[i] && l[i].text.body
                    == incoming->body
        }),
{
    live::lemma_text_goes_out(
        incoming,
        live.targets(incoming->Text_chat, incoming->body),
        live.media,
        contract_passthrough,
    );
}

/// Media that was not seen before is gathered for every target of its chat, as its caption is
/// filtered; media that was seen, or that has no target, goes nowhere.
pub proof fn lemma_new_media_is_relayed(
    live: Live,
    seen: Seq<(i64, i32)>,
    incoming: telegram::IncomingView,
    contract_passthrough: bool,
)
    requires
        incoming is Media,
    ensures
        seen.contains((incoming->Media_chat, incoming->Media_msg_id)) ==> reaction_to(
            live,
            seen,
            incoming,
            contract_passthrough,
        ) is Ignore,
        !seen.contains((incoming->Media_chat, incoming->Media_msg_id)) && live.targets(
            incoming->Media_chat,
            incoming->caption,
        ).len() > 0 ==> (reaction_to(
            live,
            seen,
            incoming,
            contract_passthrough,
        ) matches live::DispatchView::Media { item, .. } && item.targets == live.targets(
            incoming->Media_chat,
            incoming->caption,
        ) && item.caption == incoming->caption && item.msg_id == incoming->Media_msg_id),
{
}

/// A running relay does not relay a message again that comes within the next eight thousand
/// others.
pub proof fn lemma_relay_remembers(
    live: Live,
    seen: Seq<(i64, i32)>,
    first: telegram::IncomingView,
    between: Seq<(i64, i32)>,
    again: telegram::IncomingView,
    contract_passthrough: bool,
)
    requires
        seen.len() <= 8192,
        seen.no_duplicates(),
        between.len() < 8192,
        live::message_key(again) == live::message_key(first),
    ensures
        reaction_to(
            live,
            dedup::after_uses(
                dedup::after_use(seen, DEDUP_CAP as nat, live::message_key(first)),
                DEDUP_CAP as nat,
                between,
            ),
            again,
            contract_passthrough,
        ) is Ignore,
{
    lemma_relayed_once(live, seen, DEDUP_CAP as nat, first, between, again, contract_passthrough);
}

} // verus!
