//! From a chat to the routes that take posts from it.

use vstd::prelude::*;

use crate::config::{ChatId, Filter, MediaMode, WebhookName};
use crate::raw;

verus! {

/// A route whose source chat is known.
#[derive(Debug)]
pub struct ResolvedRoute {
    pub name: String,
    pub chat: ChatId,
    pub to: Vec<WebhookName>,
    pub filter: Option<Filter>,
    pub color: u32,
    /// What to do with media, where it differs from the global setting.
    pub media_mode: Option<MediaMode>,
}

pub struct ResolvedRouteView {
    pub name: Seq<char>,
    pub chat: i64,
    pub to: Seq<Seq<char>>,
    pub filter: Option<raw::FilterView>,
    pub color: u32,
    pub media_mode: Option<MediaMode>,
}

impl DeepView for ResolvedRoute {
    type V = ResolvedRouteView;

    open spec fn deep_view(&self) -> ResolvedRouteView {
        ResolvedRouteView {
            name: self.name@,
            chat: self.chat.0,
            to: self.to.deep_view(),
            filter: self.filter.deep_view(),
            color: self.color,
            media_mode: self.media_mode,
        }
    }
}

/// The routes from `chat`, in their order.
pub open spec fn routes_from(routes: Seq<ResolvedRouteView>, chat: i64) -> Seq<ResolvedRouteView>
    decreases routes.len(),
{
    if routes.len() == 0 {
        Seq::empty()
    } else if routes.last().chat == chat {
        routes_from(routes.drop_last(), chat).push(routes.last())
    } else {
        routes_from(routes.drop_last(), chat)
    }
}

/// The routes, by their source chat.
pub struct Router {
    groups: Vec<(i64, Vec<ResolvedRoute>)>,
    none: Vec<ResolvedRoute>,
}

spec fn distinct_chats(groups: Seq<(i64, Vec<ResolvedRoute>)>) -> bool {
    forall|i: int, j: int|
        #![trigger groups[i], groups[j]]
        0 <= i < j < groups.len() ==> groups[i].0 != groups[j].0
}

/// The routes that the groups hold for `chat`.
spec fn grouped(groups: Seq<(i64, Vec<ResolvedRoute>)>, chat: i64) -> Seq<ResolvedRouteView> {
    if exists|i: int| 0 <= i < groups.len() && (#[trigger] groups[i]).0 == chat {
        groups[choose|i: int| 0 <= i < groups.len() && (#[trigger] groups[i]).0 == chat].1.deep_view()
    } else {
        Seq::empty()
    }
}

proof fn lemma_grouped(groups: Seq<(i64, Vec<ResolvedRoute>)>, i: int)
    requires
        distinct_chats(groups),
        0 <= i < groups.len(),
    ensures
        grouped(groups, groups[i].0) == groups[i].1.deep_view(),
{
    let chat = groups[i].0;
    let j = choose|j: int| 0 <= j < groups.len() && (#[trigger] groups[j]).0 == chat;
    assert(groups[i].0 == chat);
    assert(i == j) by {
        if i < j {
            assert(groups[i].0 != groups[j].0);
        } else if j < i {
            assert(groups[j].0 != groups[i].0);
        }
    }
}

impl Router {
    #[verifier::type_invariant]
    spec fn well_formed(self) -> bool {
        &&& distinct_chats(self.groups@)
        &&& self.none@.len() == 0
    }

    /// The routes from `chat`.
    pub closed spec fn from_chat(self, chat: i64) -> Seq<ResolvedRouteView> {
        grouped(self.groups@, chat)
    }

    pub fn new(routes: Vec<ResolvedRoute>) -> (r: Self)
        ensures
            forall|chat: i64|
                #[trigger] r.from_chat(chat) == routes_from(routes.deep_view(), chat),
    {
        let ghost all = routes.deep_view();
        let mut rest: Vec<ResolvedRoute> = routes;
        let mut groups: Vec<(i64, Vec<ResolvedRoute>)> = Vec::new();
        let ghost mut n: int = 0;
        assert(all.take(0) =~= Seq::<ResolvedRouteView>::empty());
        assert(all.skip(0) =~= all);
        while rest.len() > 0
            invariant
                0 <= n <= all.len(),
                rest.deep_view() == all.skip(n),
                distinct_chats(groups@),
                forall|chat: i64|
                    #[trigger] grouped(groups@, chat) == routes_from(all.take(n), chat),
            decreases rest@.len(),
        {
            let ghost before = groups@;
            assert(rest.deep_view().len() == rest@.len());
            let ghost step = all.take(n + 1);
            assert(step.drop_last() =~= all.take(n));
            assert(all.skip(n)[0] == all[n]);
            assert(rest.deep_view()[0] == rest@[0].deep_view());
            let ghost old_rest = rest.deep_view();
            let route: ResolvedRoute = rest.remove(0);
            assert(route.deep_view() == all[n]);
            assert(step.last() == all[n]);
            assert(rest.deep_view() =~= old_rest.skip(1));
            assert(old_rest.skip(1) =~= all.skip(n + 1));
            let chat: i64 = route.chat.0;
            let mut i: usize = 0;
            while i < groups.len() && groups[i].0 != chat
                invariant
                    i <= groups@.len(),
                    forall|j: int| 0 <= j < i ==> (#[trigger] groups@[j]).0 != chat,
                decreases groups@.len() - i,
            {
                i = i + 1;
            }
            if i < groups.len() {
                let ghost at = i as int;
                proof {
                    lemma_grouped(before, at);
                }
                let (id, mut members) = groups.remove(i);
                let ghost had = members.deep_view();
                members.push(route);
                assert(members.deep_view() =~= had.push(all[n]));
                groups.insert(i, (id, members));
                assert(groups@ =~= before.update(at, (id, members)));
                proof {
                    assert(distinct_chats(groups@)) by {
                        assert forall|a: int, b: int|
                            #![trigger groups@[a], groups@[b]]
                            0 <= a < b < groups@.len() implies groups@[a].0 != groups@[b].0 by {
                            assert(before[a].0 != before[b].0);
                        }
                    }
                    assert forall|c: i64| #[trigger] grouped(groups@, c) == routes_from(step, c) by {
                        assert(grouped(before, c) == routes_from(all.take(n), c));
                        lemma_grouped(groups@, at);
                        if c != chat {
                            lemma_grouped_same(before, groups@, at, c);
                        }
                    }
                }
            } else {
                let mut members: Vec<ResolvedRoute> = Vec::new();
                members.push(route);
                assert(members.deep_view() =~= seq![all[n]]);
                groups.push((chat, members));
                proof {
                    assert(groups@ =~= before.push((chat, members)));
                    assert(distinct_chats(groups@));
                    assert forall|c: i64| #[trigger] grouped(groups@, c) == routes_from(step, c) by {
                        assert(grouped(before, c) == routes_from(all.take(n), c));
                        if c == chat {
                            lemma_grouped(groups@, before.len() as int);
                            assert(grouped(before, c) =~= Seq::<ResolvedRouteView>::empty());
                            assert(routes_from(step, c) =~= seq![all[n]]);
                        } else {
                            lemma_grouped_same(before, groups@, before.len() as int, c);
                        }
                    }
                }
            }
            proof {
                n = n + 1;
            }
        }
        assert(all.take(n) =~= all) by {
            assert(rest.deep_view().len() == 0);
        }
        Router { groups, none: Vec::new() }
    }

    /// The routes that take posts from `chat`, in the order in which they were given.
    pub fn match_chat(&self, chat: ChatId) -> (r: &[ResolvedRoute])
        ensures
            r.deep_view() == self.from_chat(chat.0),
    {
        proof {
            use_type_invariant(self);
        }
        let mut i: usize = 0;
        while i < self.groups.len()
            invariant
                distinct_chats(self.groups@),
                i <= self.groups@.len(),
                forall|j: int| 0 <= j < i ==> (#[trigger] self.groups@[j]).0 != chat.0,
            decreases self.groups@.len() - i,
        {
            if self.groups[i].0 == chat.0 {
                proof {
                    lemma_grouped(self.groups@, i as int);
                }
                let found: &[ResolvedRoute] = self.groups[i].1.as_slice();
                assert(found.deep_view() =~= self.groups@[i as int].1.deep_view());
                return found;
            }
            i = i + 1;
        }
        let none: &[ResolvedRoute] = self.none.as_slice();
        assert(none.deep_view() =~= Seq::<ResolvedRouteView>::empty());
        none
    }
}

proof fn lemma_grouped_same(
    before: Seq<(i64, Vec<ResolvedRoute>)>,
    after: Seq<(i64, Vec<ResolvedRoute>)>,
    at: int,
    chat: i64,
)
    requires
        distinct_chats(before),
        distinct_chats(after),
        before.len() <= after.len(),
        0 <= at < after.len(),
        after.len() <= before.len() || at == before.len(),
        after.len() <= before.len() + 1,
        after[at].0 != chat,
        at < before.len() ==> before[at].0 == after[at].0,
        forall|j: int| 0 <= j < before.len() && j != at ==> #[trigger] after[j] == before[j],
    ensures
        grouped(after, chat) == grouped(before, chat),
{
    if exists|i: int| 0 <= i < before.len() && (#[trigger] before[i]).0 == chat {
        let i = choose|i: int| 0 <= i < before.len() && (#[trigger] before[i]).0 == chat;
        lemma_grouped(before, i);
        assert(after[i] == before[i]);
        lemma_grouped(after, i);
    } else if exists|i: int| 0 <= i < after.len() && (#[trigger] after[i]).0 == chat {
        let i = choose|i: int| 0 <= i < after.len() && (#[trigger] after[i]).0 == chat;
        assert(i != at);
        assert(before[i].0 == chat);
    }
}

/// Only routes from a chat are found for it, and all of them.
pub proof fn lemma_routes_from(routes: Seq<ResolvedRouteView>, chat: i64, r: ResolvedRouteView)
    ensures
        routes_from(routes, chat).contains(r) <==> routes.contains(r) && r.chat == chat,
    decreases routes.len(),
{
    if routes.len() > 0 {
        let init = routes.drop_last();
        lemma_routes_from(init, chat, r);
        let found = routes_from(init, chat);
        if routes.contains(r) {
            let i = choose|i: int| 0 <= i < routes.len() && routes[i] == r;
            if i < init.len() {
                assert(init[i] == r);
            }
        }
        if init.contains(r) {
            let i = choose|i: int| 0 <= i < init.len() && init[i] == r;
            assert(routes[i] == r);
        }
        if routes.last().chat == chat {
            let q = found.push(routes.last());
            assert(q[found.len() as int] == routes.last());
            if found.contains(r) {
                let i = choose|i: int| 0 <= i < found.len() && found[i] == r;
                assert(q[i] == r);
            }
            if q.contains(r) {
                let i = choose|i: int| 0 <= i < q.len() && q[i] == r;
                if i < found.len() {
                    assert(found[i] == r);
                } else {
                    assert(routes[routes.len() - 1] == r);
                }
            }
        }
        assert(routes[routes.len() - 1] == routes.last());
    }
}

/// The routes from a chat are just those that start there, in the order in which they were
/// given.
pub proof fn lemma_routes_in_order(routes: Seq<ResolvedRouteView>, chat: i64)
    ensures
        routes_from(routes, chat) == routes.filter(|r: ResolvedRouteView| r.chat == chat),
    decreases routes.len(),
{
    reveal(Seq::filter);
    if routes.len() > 0 {
        lemma_routes_in_order(routes.drop_last(), chat);
    }
    assert(routes_from(routes, chat) =~= routes.filter(|r: ResolvedRouteView| r.chat == chat));
}

} // verus!
