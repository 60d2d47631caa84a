//! Mirroring of channels onto webhooks: each webhook takes the name and the photo of the
//! channel that feeds it.

use vstd::prelude::*;
use vstd::string::*;

use crate::config;
use crate::config::WebhookUrl;
use crate::deliver;
use crate::hash;
use crate::names::NameMap;
use crate::router;
use crate::router::ResolvedRoute;
use crate::store::Store;
use crate::telegram;
use crate::telegram::ChannelIdentity;
use crate::text;

verus! {

/// The bytes `<no-photo>`.
pub open spec fn no_photo() -> Seq<u8> {
    seq![60u8, 110, 111, 45, 112, 104, 111, 116, 111, 62]
}

/// The bytes by which a channel is told from others: title, a zero byte, photo.
pub open spec fn identity_bytes(title: Seq<char>, photo: Option<Seq<u8>>) -> Seq<u8> {
    vstd::utf8::encode_utf8(title) + seq![0u8] + (match photo {
        Some(p) => p,
        None => no_photo(),
    })
}

/// The hash by which a new title or photo is noticed. A missing photo is marked behind the
/// digits, so that no photo is taken for it, not even one of the bytes that stand for it.
pub open spec fn identity_hash_of(title: Seq<char>, photo: Option<Seq<u8>>) -> Seq<char> {
    hash::fnv_text(identity_bytes(title, photo)) + (match photo {
        Some(_) => Seq::empty(),
        None => "-"@,
    })
}

/// The hash by which a new title or photo is noticed.
pub fn avatar_identity_hash(title: &str, photo: Option<&[u8]>) -> (r: String)
    ensures
        r@ == identity_hash_of(
            title@,
            match photo {
                Some(p) => Some(p@),
                None => None,
            },
        ),
{
    let mut bytes: Vec<u8> = Vec::new();
    bytes.extend_from_slice(title.as_bytes());
    bytes.push(0);
    match photo {
        Some(p) => {
            bytes.extend_from_slice(p);
            assert(bytes@ =~= identity_bytes(title@, Some(p@)));
            let out: String = hash::hash_text(bytes.as_slice());
            assert(out@ =~= identity_hash_of(title@, Some(p@)));
            out
        },
        None => {
            let none: [u8; 10] = [60, 110, 111, 45, 112, 104, 111, 116, 111, 62];
            assert(none@ =~= no_photo());
            bytes.extend_from_slice(none.as_slice());
            assert(bytes@ =~= identity_bytes(title@, None));
            let mut out: String = hash::hash_text(bytes.as_slice());
            out.append("-");
            out
        },
    }
}

/// Title and photo are kept apart: two channels that both have a photo, or that both have
/// none, have the same bytes only if their titles and their photos are the same. Where both
/// have a photo, this is said of titles without a zero byte, which ends the title.
pub proof fn lemma_title_and_photo_kept_apart(
    t1: Seq<char>,
    p1: Option<Seq<u8>>,
    t2: Seq<char>,
    p2: Option<Seq<u8>>,
)
    requires
        p1 is Some <==> p2 is Some,
        p1 is Some ==> !vstd::utf8::encode_utf8(t1).contains(0u8),
        p1 is Some ==> !vstd::utf8::encode_utf8(t2).contains(0u8),
        identity_bytes(t1, p1) == identity_bytes(t2, p2),
    ensures
        t1 == t2,
        p1 == p2,
{
    let a = vstd::utf8::encode_utf8(t1);
    let b = vstd::utf8::encode_utf8(t2);
    let x = identity_bytes(t1, p1);
    let y = identity_bytes(t2, p2);
    assert(x[a.len() as int] == 0);
    assert(y[b.len() as int] == 0);
    if p1 is Some {
        if a.len() < b.len() {
            assert(y[a.len() as int] == b[a.len() as int]);
            assert(b.contains(0u8));
        } else if b.len() < a.len() {
            assert(x[b.len() as int] == a[b.len() as int]);
            assert(a.contains(0u8));
        }
    } else {
        assert(x.len() == a.len() + 11);
        assert(y.len() == b.len() + 11);
    }
    assert(a =~= b) by {
        assert forall|i: int| 0 <= i < a.len() implies a[i] == b[i] by {
            assert(x[i] == a[i]);
            assert(y[i] == b[i]);
        }
    }
    if let (Some(p), Some(q)) = (p1, p2) {
        assert(x.skip(a.len() as int + 1) =~= p);
        assert(y.skip(b.len() as int + 1) =~= q);
    }
    vstd::utf8::encode_utf8_decode_utf8(t1);
    vstd::utf8::encode_utf8_decode_utf8(t2);
}

/// A channel without a photo never has the hash of one with a photo, whatever the photo.
pub proof fn lemma_no_photo_is_noticed(t1: Seq<char>, t2: Seq<char>, photo: Seq<u8>)
    ensures
        identity_hash_of(t1, None) != identity_hash_of(t2, Some(photo)),
{
    reveal_strlit("-");
    text::lemma_hex_digits_len(hash::fnv(identity_bytes(t1, None)) as nat, 16);
    text::lemma_hex_digits_len(hash::fnv(identity_bytes(t2, Some(photo))) as nat, 16);
    assert(identity_hash_of(t1, None).len() == 17);
    assert(identity_hash_of(t2, Some(photo)).len() == 16);
}

/// What `base64` writes for some bytes, in the standard alphabet with padding.
pub uninterp spec fn base64_text(bytes: Seq<u8>) -> Seq<char>;

/// `base64::engine::general_purpose::STANDARD.encode`: by the bytes alone.
#[verifier::external_body]
fn encode_base64(bytes: &[u8]) -> (r: String)
    ensures
        r@ == base64_text(bytes@),
{
    base64::Engine::encode(&base64::engine::general_purpose::STANDARD, bytes)
}

/// A photo as Discord takes it: an address that holds the bytes.
pub fn photo_data_uri(bytes: &[u8]) -> (r: String)
    ensures
        r@ == "data:image/jpeg;base64,"@ + base64_text(bytes@),
{
    let mut out: String = "data:image/jpeg;base64,".to_owned();
    out.append(encode_base64(bytes).as_str());
    out
}

/// The channel of a chat, where it is known.
pub open spec fn identity_for(
    identities: Seq<(i64, telegram::ChannelIdentityView)>,
    chat: i64,
) -> Option<telegram::ChannelIdentityView>
    decreases identities.len(),
{
    if identities.len() == 0 {
        None
    } else if identities[0].0 == chat {
        Some(identities[0].1)
    } else {
        identity_for(identities.skip(1), chat)
    }
}

/// A webhook that is to be given a new name and photo.
pub struct IdentityPatch {
    pub webhook: String,
    pub url: WebhookUrl,
    pub title: String,
    /// The photo as Discord takes it.
    pub avatar: Option<String>,
    /// What is noted once it was given.
    pub hash: String,
}

pub struct IdentityPatchView {
    pub webhook: Seq<char>,
    pub url: Seq<char>,
    pub title: Seq<char>,
    pub avatar: Option<Seq<char>>,
    pub hash: Seq<char>,
}

impl DeepView for IdentityPatch {
    type V = IdentityPatchView;

    open spec fn deep_view(&self) -> IdentityPatchView {
        IdentityPatchView {
            webhook: self.webhook@,
            url: self.url.0@,
            title: self.title@,
            avatar: self.avatar.deep_view(),
            hash: self.hash@,
        }
    }
}

/// Which webhooks are taken, and what is to be given to them.
#[verifier::ext_equal]
pub struct SyncView {
    pub claimed: Seq<Seq<char>>,
    pub patches: Seq<IdentityPatchView>,
}

/// What a webhook is to be given from a channel.
pub open spec fn identity_patch(
    hook: Seq<char>,
    url: Seq<char>,
    channel: telegram::ChannelIdentityView,
) -> IdentityPatchView {
    IdentityPatchView {
        webhook: hook,
        url,
        title: channel.title,
        avatar: match channel.photo {
            Some(p) => Some("data:image/jpeg;base64,"@ + base64_text(p)),
            None => None,
        },
        hash: identity_hash_of(channel.title, channel.photo),
    }
}

/// One webhook of one route: it is taken by the first route that can take it, and is
/// given the identity of the channel unless it already has it.
pub open spec fn sync_hook(
    st: SyncView,
    hook: Seq<char>,
    channel: telegram::ChannelIdentityView,
    urls: Map<Seq<char>, Seq<char>>,
    known: Map<Seq<char>, Seq<char>>,
) -> SyncView {
    if st.claimed.contains(hook) || !urls.dom().contains(hook) {
        st
    } else {
        let p = identity_patch(hook, urls[hook], channel);
        SyncView {
            claimed: st.claimed.push(hook),
            patches: if known.dom().contains(hook) && known[hook] == p.hash {
                st.patches
            } else {
                st.patches.push(p)
            },
        }
    }
}

/// All webhooks of one route.
pub open spec fn sync_hooks(
    st: SyncView,
    hooks: Seq<Seq<char>>,
    channel: telegram::ChannelIdentityView,
    urls: Map<Seq<char>, Seq<char>>,
    known: Map<Seq<char>, Seq<char>>,
) -> SyncView
    decreases hooks.len(),
{
    if hooks.len() == 0 {
        st
    } else {
        sync_hook(
            sync_hooks(st, hooks.drop_last(), channel, urls, known),
            hooks.last(),
            channel,
            urls,
            known,
        )
    }
}

/// All routes in their order. A route whose channel is not known leaves its webhooks
/// alone.
pub open spec fn sync_routes(
    routes: Seq<router::ResolvedRouteView>,
    identities: Seq<(i64, telegram::ChannelIdentityView)>,
    urls: Map<Seq<char>, Seq<char>>,
    known: Map<Seq<char>, Seq<char>>,
) -> SyncView
    decreases routes.len(),
{
    if routes.len() == 0 {
        SyncView { claimed: Seq::empty(), patches: Seq::empty() }
    } else {
        let before = sync_routes(routes.drop_last(), identities, urls, known);
        match identity_for(identities, routes.last().chat) {
            Some(channel) => sync_hooks(before, routes.last().to, channel, urls, known),
            None => before,
        }
    }
}

fn find_identity<'a>(identities: &'a Vec<(i64, ChannelIdentity)>, chat: i64) -> (r: Option<
    &'a ChannelIdentity,
>)
    ensures
        match r {
            Some(c) => identity_for(identities.deep_view(), chat) == Some(c.deep_view()),
            None => identity_for(identities.deep_view(), chat) is None,
        },
{
    let ghost all = identities.deep_view();
    let mut i: usize = 0;
    assert(all.skip(0) =~= all);
    while i < identities.len()
        invariant
            all == identities.deep_view(),
            i <= all.len(),
            identity_for(all, chat) == identity_for(all.skip(i as int), chat),
        decreases all.len() - i,
    {
        assert(all.skip(i as int)[0] == all[i as int]);
        assert(all[i as int] == (identities@[i as int].0, identities@[i as int].1.deep_view()));
        assert(all.skip(i as int).skip(1) =~= all.skip(i + 1));
        if identities[i].0 == chat {
            return Some(&identities[i].1);
        }
        i = i + 1;
    }
    None
}

fn make_patch(hook: &str, url: &WebhookUrl, channel: &ChannelIdentity) -> (r: IdentityPatch)
    ensures
        r.deep_view() == identity_patch(hook@, url.0@, channel.deep_view()),
{
    let (avatar, hash): (Option<String>, String) = match &channel.photo {
        Some(p) => {
            assert(p.deep_view() =~= p@);
            (
                Some(photo_data_uri(p.as_slice())),
                avatar_identity_hash(channel.title.as_str(), Some(p.as_slice())),
            )
        },
        None => (None, avatar_identity_hash(channel.title.as_str(), None)),
    };
    IdentityPatch {
        webhook: hook.to_owned(),
        url: url.clone(),
        title: channel.title.clone(),
        avatar,
        hash,
    }
}

/// Decide which webhooks are to be given a new name and photo, in the order of the routes.
pub fn plan_identity_sync(
    routes: &Vec<ResolvedRoute>,
    identities: &Vec<(i64, ChannelIdentity)>,
    webhooks: &NameMap<WebhookUrl>,
    store: &Store,
) -> (r: Vec<IdentityPatch>)
    ensures
        r.deep_view() == sync_routes(
            routes.deep_view(),
            identities.deep_view(),
            config::urls(webhooks@),
            store.identities(),
        ).patches,
{
    let ghost rs = routes.deep_view();
    let ghost ids = identities.deep_view();
    let ghost urls = config::urls(webhooks@);
    let ghost known = store.identities();
    let mut claimed: Vec<String> = Vec::new();
    let mut patches: Vec<IdentityPatch> = Vec::new();
    let mut i: usize = 0;
    assert(rs.take(0) =~= Seq::<router::ResolvedRouteView>::empty());
    assert(claimed.deep_view() =~= Seq::<Seq<char>>::empty());
    assert(patches.deep_view() =~= Seq::<IdentityPatchView>::empty());
    while i < routes.len()
        invariant
            rs == routes.deep_view(),
            ids == identities.deep_view(),
            urls == config::urls(webhooks@),
            known == store.identities(),
            i <= rs.len(),
            sync_routes(rs.take(i as int), ids, urls, known) == (SyncView {
                claimed: claimed.deep_view(),
                patches: patches.deep_view(),
            }),
        decreases rs.len() - i,
    {
        let route: &ResolvedRoute = &routes[i];
        assert(rs.take(i + 1).drop_last() =~= rs.take(i as int));
        assert(rs.take(i + 1).last() == route.deep_view());
        let ghost before = SyncView {
            claimed: claimed.deep_view(),
            patches: patches.deep_view(),
        };
        match find_identity(identities, route.chat.0) {
            Some(channel) => {
                let ghost hooks = route.to.deep_view();
                let ghost ch = channel.deep_view();
                let mut k: usize = 0;
                assert(hooks.take(0) =~= Seq::<Seq<char>>::empty());
                while k < route.to.len()
                    invariant
                        hooks == route.to.deep_view(),
                        ch == channel.deep_view(),
                        urls == config::urls(webhooks@),
                        known == store.identities(),
                        k <= hooks.len(),
                        sync_hooks(before, hooks.take(k as int), ch, urls, known) == (SyncView {
                            claimed: claimed.deep_view(),
                            patches: patches.deep_view(),
                        }),
                    decreases hooks.len() - k,
                {
                    let hook: &str = route.to[k].0.as_str();
                    let ghost cs = claimed.deep_view();
                    let ghost ps = patches.deep_view();
                    assert(hooks.take(k + 1).drop_last() =~= hooks.take(k as int));
                    assert(hooks.take(k + 1).last() == hook@);
                    if !deliver::listed(&claimed, hook) {
                        match webhooks.get(hook) {
                            Some(url) => {
                                claimed.push(hook.to_owned());
                                assert(claimed.deep_view() =~= cs.push(hook@));
                                let p: IdentityPatch = make_patch(hook, url, channel);
                                let same: bool = match store.webhook_identity_hash(hook) {
                                    Some(h) => text::same_text(h.as_str(), p.hash.as_str()),
                                    None => false,
                                };
                                if !same {
                                    patches.push(p);
                                    assert(patches.deep_view() =~= ps.push(p.deep_view()));
                                }
                            },
                            None => {},
                        }
                    }
                    k = k + 1;
                }
                assert(hooks.take(hooks.len() as int) =~= hooks);
            },
            None => {},
        }
        i = i + 1;
    }
    assert(rs.take(rs.len() as int) =~= rs);
    patches
}

/// What holds of every stage: no webhook is taken twice, and what is to be given goes to
/// taken webhooks, each at most once, and is new to them.
spec fn sync_ok(st: SyncView, known: Map<Seq<char>, Seq<char>>) -> bool {
    &&& st.claimed.no_duplicates()
    &&& forall|i: int|
        0 <= i < st.patches.len() ==> {
            let p = #[trigger] st.patches[i];
            &&& st.claimed.contains(p.webhook)
            &&& !(known.dom().contains(p.webhook) && known[p.webhook] == p.hash)
        }
    &&& forall|i: int, j: int|
        #![trigger st.patches[i], st.patches[j]]
        0 <= i < j < st.patches.len() ==> st.patches[i].webhook != st.patches[j].webhook
}

proof fn lemma_sync_hook(
    st: SyncView,
    hook: Seq<char>,
    channel: telegram::ChannelIdentityView,
    urls: Map<Seq<char>, Seq<char>>,
    known: Map<Seq<char>, Seq<char>>,
)
    requires
        sync_ok(st, known),
    ensures
        sync_ok(sync_hook(st, hook, channel, urls, known), known),
{
    let q = sync_hook(st, hook, channel, urls, known);
    if q != st {
        assert(q.claimed == st.claimed.push(hook));
        assert forall|i: int, j: int|
            0 <= i < q.claimed.len() && 0 <= j < q.claimed.len() && i != j implies q.claimed[i]
            != q.claimed[j] by {
            if i == st.claimed.len() {
                assert(st.claimed.contains(st.claimed[j]));
            } else if j == st.claimed.len() {
                assert(st.claimed.contains(st.claimed[i]));
            }
        }
        assert(q.claimed[st.claimed.len() as int] == hook);
        assert forall|i: int| 0 <= i < q.patches.len() implies {
            let p = #[trigger] q.patches[i];
            &&& q.claimed.contains(p.webhook)
            &&& !(known.dom().contains(p.webhook) && known[p.webhook] == p.hash)
        } by {
            if i < st.patches.len() {
                assert(q.patches[i] == st.patches[i]);
                let w = st.patches[i].webhook;
                let k = choose|k: int| 0 <= k < st.claimed.len() && st.claimed[k] == w;
                assert(q.claimed[k] == w);
            }
        }
        assert forall|i: int, j: int|
            #![trigger q.patches[i], q.patches[j]]
            0 <= i < j < q.patches.len() implies q.patches[i].webhook != q.patches[j].webhook by {
            if j == st.patches.len() {
                assert(st.claimed.contains(st.patches[i].webhook));
            }
        }
    }
}

proof fn lemma_sync_hooks(
    st: SyncView,
    hooks: Seq<Seq<char>>,
    channel: telegram::ChannelIdentityView,
    urls: Map<Seq<char>, Seq<char>>,
    known: Map<Seq<char>, Seq<char>>,
)
    requires
        sync_ok(st, known),
    ensures
        sync_ok(sync_hooks(st, hooks, channel, urls, known), known),
    decreases hooks.len(),
{
    if hooks.len() > 0 {
        lemma_sync_hooks(st, hooks.drop_last(), channel, urls, known);
        lemma_sync_hook(
            sync_hooks(st, hooks.drop_last(), channel, urls, known),
            hooks.last(),
            channel,
            urls,
            known,
        );
    }
}

/// A webhook is given at most one identity, however many routes share it, and never one
/// that it already has.
pub proof fn lemma_one_identity_each(
    routes: Seq<router::ResolvedRouteView>,
    identities: Seq<(i64, telegram::ChannelIdentityView)>,
    urls: Map<Seq<char>, Seq<char>>,
    known: Map<Seq<char>, Seq<char>>,
)
    ensures
        ({
            let patches = sync_routes(routes, identities, urls, known).patches;
            &&& forall|i: int, j: int|
                #![trigger patches[i], patches[j]]
                0 <= i < j < patches.len() ==> patches[i].webhook != patches[j].webhook
            &&& forall|i: int|
                0 <= i < patches.len() ==> !(known.dom().contains((#[trigger] patches[i]).webhook)
                    && known[patches[i].webhook] == patches[i].hash)
        }),
{
    lemma_sync_routes(routes, identities, urls, known);
}

proof fn lemma_sync_routes(
    routes: Seq<router::ResolvedRouteView>,
    identities: Seq<(i64, telegram::ChannelIdentityView)>,
    urls: Map<Seq<char>, Seq<char>>,
    known: Map<Seq<char>, Seq<char>>,
)
    ensures
        sync_ok(sync_routes(routes, identities, urls, known), known),
    decreases routes.len(),
{
    if routes.len() > 0 {
        lemma_sync_routes(routes.drop_last(), identities, urls, known);
        if let Some(channel) = identity_for(identities, routes.last().chat) {
            lemma_sync_hooks(
                sync_routes(routes.drop_last(), identities, urls, known),
                routes.last().to,
                channel,
                urls,
                known,
            );
        }
    }
}

/// What a route makes of a webhook: its channel is the first one that is known for its chat.
pub open spec fn channel_of(
    identities: Seq<(i64, telegram::ChannelIdentityView)>,
    chat: i64,
    k: int,
) -> bool {
    &&& 0 <= k < identities.len()
    &&& identities[k].0 == chat
    &&& forall|j: int| 0 <= j < k ==> (#[trigger] identities[j]).0 != chat
}

/// The channel of a chat is not known.
pub open spec fn no_channel(
    identities: Seq<(i64, telegram::ChannelIdentityView)>,
    chat: i64,
) -> bool {
    forall|j: int| 0 <= j < identities.len() ==> (#[trigger] identities[j]).0 != chat
}

proof fn lemma_identity_for(
    identities: Seq<(i64, telegram::ChannelIdentityView)>,
    chat: i64,
    k: int,
)
    ensures
        channel_of(identities, chat, k) ==> identity_for(identities, chat) == Some(
            identities[k].1,
        ),
        no_channel(identities, chat) ==> identity_for(identities, chat) is None,
    decreases identities.len(),
{
    if identities.len() > 0 {
        let rest = identities.skip(1);
        lemma_identity_for(rest, chat, k - 1);
        if channel_of(identities, chat, k) && k > 0 {
            assert(identities[0].0 != chat);
            assert(rest[k - 1] == identities[k]);
            assert forall|j: int| 0 <= j < k - 1 implies (#[trigger] rest[j]).0 != chat by {
                assert(identities[j + 1].0 != chat);
            }
        }
        if no_channel(identities, chat) {
            assert(identities[0].0 != chat);
            assert forall|j: int| 0 <= j < rest.len() implies (#[trigger] rest[j]).0 != chat by {
                assert(identities[j + 1].0 != chat);
            }
        }
    }
}

/// A webhook is to be given the name and the photo of a channel.
pub open spec fn gives(
    p: IdentityPatchView,
    hook: Seq<char>,
    channel: telegram::ChannelIdentityView,
    urls: Map<Seq<char>, Seq<char>>,
) -> bool {
    &&& p.webhook == hook
    &&& p.url == urls[hook]
    &&& p.title == channel.title
    &&& channel.photo is None ==> p.avatar is None
    &&& channel.photo is Some ==> p.avatar == Some(
        "data:image/jpeg;base64,"@ + base64_text(channel.photo->0),
    )
    &&& p.hash == identity_hash_of(channel.title, channel.photo)
}

/// Something is to be given to a webhook.
pub open spec fn is_given(patches: Seq<IdentityPatchView>, hook: Seq<char>) -> bool {
    exists|i: int| 0 <= i < patches.len() && (#[trigger] patches[i]).webhook == hook
}

/// A webhook is given something, of a channel.
pub open spec fn is_given_of(
    patches: Seq<IdentityPatchView>,
    hook: Seq<char>,
    channel: telegram::ChannelIdentityView,
    urls: Map<Seq<char>, Seq<char>>,
) -> bool {
    exists|i: int| 0 <= i < patches.len() && gives(#[trigger] patches[i], hook, channel, urls)
}

proof fn lemma_hooks_keep(
    st: SyncView,
    hooks: Seq<Seq<char>>,
    channel: telegram::ChannelIdentityView,
    urls: Map<Seq<char>, Seq<char>>,
    known: Map<Seq<char>, Seq<char>>,
    hook: Seq<char>,
)
    ensures
        ({
            let r = sync_hooks(st, hooks, channel, urls, known);
            &&& r.claimed.contains(hook) <==> st.claimed.contains(hook) || (hooks.contains(hook)
                && urls.dom().contains(hook))
            &&& st.claimed.contains(hook) || !hooks.contains(hook) || !urls.dom().contains(hook)
                ==> (is_given(r.patches, hook) <==> is_given(st.patches, hook))
            &&& forall|c: telegram::ChannelIdentityView|
                is_given_of(st.patches, hook, c, urls) ==> #[trigger] is_given_of(
                    r.patches,
                    hook,
                    c,
                    urls,
                )
            &&& !st.claimed.contains(hook) && !is_given(st.patches, hook) && hooks.contains(hook)
                && urls.dom().contains(hook) ==> {
                let current = known.dom().contains(hook) && known[hook] == identity_hash_of(
                    channel.title,
                    channel.photo,
                );
                &&& current ==> !is_given(r.patches, hook)
                &&& !current ==> is_given_of(r.patches, hook, channel, urls)
            }
        }),
    decreases hooks.len(),
{
    if hooks.len() > 0 {
        let init = hooks.drop_last();
        let last = hooks.last();
        lemma_hooks_keep(st, init, channel, urls, known, hook);
        let mid = sync_hooks(st, init, channel, urls, known);
        let r = sync_hooks(st, hooks, channel, urls, known);
        assert(hooks[hooks.len() - 1] == last);
        assert(hooks.contains(hook) <==> init.contains(hook) || hook == last) by {
            if hooks.contains(hook) {
                let i = choose|i: int| 0 <= i < hooks.len() && hooks[i] == hook;
                if i < init.len() {
                    assert(init[i] == hook);
                }
            }
            if init.contains(hook) {
                let i = choose|i: int| 0 <= i < init.len() && init[i] == hook;
                assert(hooks[i] == hook);
            }
        }
        lemma_hook_keeps(mid, last, channel, urls, known, hook);
    }
}

proof fn lemma_hook_keeps(
    st: SyncView,
    last: Seq<char>,
    channel: telegram::ChannelIdentityView,
    urls: Map<Seq<char>, Seq<char>>,
    known: Map<Seq<char>, Seq<char>>,
    hook: Seq<char>,
)
    ensures
        ({
            let r = sync_hook(st, last, channel, urls, known);
            &&& r.claimed.contains(hook) <==> st.claimed.contains(hook) || (hook == last
                && urls.dom().contains(hook))
            &&& st.claimed.contains(hook) || hook != last || !urls.dom().contains(hook) ==> (
            is_given(r.patches, hook) <==> is_given(st.patches, hook))
            &&& forall|c: telegram::ChannelIdentityView|
                is_given_of(st.patches, hook, c, urls) ==> #[trigger] is_given_of(
                    r.patches,
                    hook,
                    c,
                    urls,
                )
            &&& !st.claimed.contains(hook) && !is_given(st.patches, hook) && hook == last
                && urls.dom().contains(hook) ==> {
                let current = known.dom().contains(hook) && known[hook] == identity_hash_of(
                    channel.title,
                    channel.photo,
                );
                &&& current ==> !is_given(r.patches, hook)
                &&& !current ==> is_given_of(r.patches, hook, channel, urls)
            }
        }),
{
    let r = sync_hook(st, last, channel, urls, known);
    if !(st.claimed.contains(last) || !urls.dom().contains(last)) {
        assert(r.claimed[st.claimed.len() as int] == last);
        if st.claimed.contains(hook) {
            let i = choose|i: int| 0 <= i < st.claimed.len() && st.claimed[i] == hook;
            assert(r.claimed[i] == hook);
        }
        if r.claimed.contains(hook) {
            let i = choose|i: int| 0 <= i < r.claimed.len() && r.claimed[i] == hook;
            if i < st.claimed.len() {
                assert(st.claimed[i] == hook);
            }
        }
        if r.patches.len() > st.patches.len() {
            let n = st.patches.len() as int;
            assert(gives(r.patches[n], last, channel, urls));
            if is_given(st.patches, hook) {
                let i = choose|i: int|
                    0 <= i < st.patches.len() && (#[trigger] st.patches[i]).webhook == hook;
                assert(r.patches[i].webhook == hook);
            }
            if is_given(r.patches, hook) {
                let i = choose|i: int|
                    0 <= i < r.patches.len() && (#[trigger] r.patches[i]).webhook == hook;
                if i < n {
                    assert(st.patches[i].webhook == hook);
                }
            }
            assert forall|c: telegram::ChannelIdentityView| is_given_of(
                st.patches,
                hook,
                c,
                urls,
            ) implies #[trigger] is_given_of(r.patches, hook, c, urls) by {
                let i = choose|i: int|
                    0 <= i < st.patches.len() && gives(#[trigger] st.patches[i], hook, c, urls);
                assert(gives(r.patches[i], hook, c, urls));
            }
        }
    }
}

/// A webhook takes after the first route to it whose channel is known: it is given the title
/// and the photo of that channel, at its own address, unless it has them already; then it is
/// given nothing. A webhook without such a route is given nothing.
pub proof fn lemma_first_channel_wins(
    routes: Seq<router::ResolvedRouteView>,
    identities: Seq<(i64, telegram::ChannelIdentityView)>,
    urls: Map<Seq<char>, Seq<char>>,
    known: Map<Seq<char>, Seq<char>>,
    hook: Seq<char>,
    i: int,
    k: int,
)
    requires
        urls.dom().contains(hook),
        0 <= i <= routes.len(),
        i < routes.len() ==> routes[i].to.contains(hook) && channel_of(
            identities,
            routes[i].chat,
            k,
        ),
        forall|j: int|
            0 <= j < i ==> !(#[trigger] routes[j]).to.contains(hook) || no_channel(
                identities,
                routes[j].chat,
            ),
    ensures
        ({
            let patches = sync_routes(routes, identities, urls, known).patches;
            &&& i == routes.len() ==> !is_given(patches, hook)
            &&& i < routes.len() ==> {
                let c = identities[k].1;
                let current = known.dom().contains(hook) && known[hook] == identity_hash_of(
                    c.title,
                    c.photo,
                );
                &&& current ==> !is_given(patches, hook)
                &&& !current ==> is_given_of(patches, hook, c, urls)
            }
        }),
        i == routes.len() ==> !sync_routes(routes, identities, urls, known).claimed.contains(hook),
        i < routes.len() ==> sync_routes(routes, identities, urls, known).claimed.contains(hook),
    decreases routes.len(),
{
    if routes.len() > 0 {
        let n = routes.len() - 1;
        let init = routes.drop_last();
        let before = sync_routes(init, identities, urls, known);
        let at = if i <= n {
            i
        } else {
            n
        };
        assert(routes[n] == routes.last());
        assert forall|j: int| 0 <= j < at implies !(#[trigger] init[j]).to.contains(hook)
            || no_channel(identities, init[j].chat) by {
            assert(init[j] == routes[j]);
        }
        if at < init.len() {
            assert(init[at] == routes[at]);
        }
        lemma_first_channel_wins(init, identities, urls, known, hook, at, k);
        match identity_for(identities, routes.last().chat) {
            Some(channel) => {
                lemma_hooks_keep(before, routes.last().to, channel, urls, known, hook);
                if i == n {
                    lemma_identity_for(identities, routes[i].chat, k);
                } else if i > n {
                    if routes[n].to.contains(hook) {
                        lemma_identity_for(identities, routes[n].chat, 0);
                    }
                }
            },
            None => {
                if i == n {
                    lemma_identity_for(identities, routes[i].chat, k);
                }
            },
        }
    }
}

/// A webhook without an address is given nothing.
pub proof fn lemma_no_address_no_identity(
    routes: Seq<router::ResolvedRouteView>,
    identities: Seq<(i64, telegram::ChannelIdentityView)>,
    urls: Map<Seq<char>, Seq<char>>,
    known: Map<Seq<char>, Seq<char>>,
    hook: Seq<char>,
)
    requires
        !urls.dom().contains(hook),
    ensures
        !is_given(sync_routes(routes, identities, urls, known).patches, hook),
    decreases routes.len(),
{
    if routes.len() > 0 {
        let init = routes.drop_last();
        lemma_no_address_no_identity(init, identities, urls, known, hook);
        if let Some(channel) = identity_for(identities, routes.last().chat) {
            lemma_hooks_keep(
                sync_routes(init, identities, urls, known),
                routes.last().to,
                channel,
                urls,
                known,
                hook,
            );
        }
    }
}

} // verus!
