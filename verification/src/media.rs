//! Media: holding back the files of an album until all of them are there.
//!
//! Telegram delivers each file of an album as a message of its own, one right after the
//! other, all with the same group id. They are gathered and released together once no
//! further one has come for a while. Media outside of albums is released at once.

use vstd::multiset::Multiset;
use vstd::prelude::*;
use vstd::string::*;

use crate::config::{ChatId, MediaMode, WebhookName, WebhookUrl};
use crate::text;

verus! {

/// Where a media post goes: which route chose it, and to which webhook.
pub struct MediaTarget {
    pub route: String,
    pub webhook: WebhookName,
    pub url: WebhookUrl,
    /// The stripe colour of the route.
    pub color: u32,
    /// What the route does with media.
    pub mode: MediaMode,
}

pub struct MediaTargetView {
    pub route: Seq<char>,
    pub webhook: Seq<char>,
    pub url: Seq<char>,
    pub color: u32,
    pub mode: MediaMode,
}

impl DeepView for MediaTarget {
    type V = MediaTargetView;

    open spec fn deep_view(&self) -> MediaTargetView {
        MediaTargetView {
            route: self.route@,
            webhook: self.webhook.0@,
            url: self.url.0@,
            color: self.color,
            mode: self.mode,
        }
    }
}

impl Clone for MediaTarget {
    fn clone(&self) -> (r: Self)
        ensures
            r == *self,
    {
        MediaTarget {
            route: self.route.clone(),
            webhook: self.webhook.clone(),
            url: self.url.clone(),
            color: self.color,
            mode: self.mode,
        }
    }
}

/// One piece of media with everything that is needed to post it.
pub struct MediaItem {
    /// The album that it belongs to.
    pub grouped_id: Option<i64>,
    pub msg_id: i32,
    pub chat: ChatId,
    /// The downloaded file, by name; none where nothing was downloaded.
    pub file: Option<(String, Vec<u8>)>,
    /// Whether the file was too large to download.
    pub oversized: bool,
    /// The caption, which only one message of an album has.
    pub caption: String,
    pub deep_link: Option<String>,
    /// The title of the channel.
    pub title: String,
    pub sender: Option<String>,
    /// When the message was published.
    pub date: String,
    pub targets: Vec<MediaTarget>,
}

pub struct MediaItemView {
    pub grouped_id: Option<i64>,
    pub msg_id: i32,
    pub chat: i64,
    pub file: Option<(Seq<char>, Seq<u8>)>,
    pub oversized: bool,
    pub caption: Seq<char>,
    pub deep_link: Option<Seq<char>>,
    pub title: Seq<char>,
    pub sender: Option<Seq<char>>,
    pub date: Seq<char>,
    pub targets: Seq<MediaTargetView>,
}

impl DeepView for MediaItem {
    type V = MediaItemView;

    open spec fn deep_view(&self) -> MediaItemView {
        MediaItemView {
            grouped_id: self.grouped_id,
            msg_id: self.msg_id,
            chat: self.chat.0,
            file: self.file.deep_view(),
            oversized: self.oversized,
            caption: self.caption@,
            deep_link: self.deep_link.deep_view(),
            title: self.title@,
            sender: self.sender.deep_view(),
            date: self.date@,
            targets: self.targets.deep_view(),
        }
    }
}

/// An album that is being gathered: its id, its items, and when the last one came.
pub struct Group {
    id: i64,
    items: Vec<MediaItem>,
    last: u64,
}

pub struct GroupView {
    pub id: i64,
    pub items: Seq<MediaItemView>,
    pub last: u64,
}

impl DeepView for Group {
    type V = GroupView;

    closed spec fn deep_view(&self) -> GroupView {
        GroupView { id: self.id, items: self.items.deep_view(), last: self.last }
    }
}

/// Gathers the items of albums. Points in time are nanoseconds on a clock that never
/// runs backwards.
pub struct AlbumBuffer {
    window: u64,
    groups: Vec<Group>,
}

/// No album is gathered twice.
pub open spec fn distinct_groups(groups: Seq<GroupView>) -> bool {
    forall|i: int, j: int|
        #![trigger groups[i], groups[j]]
        0 <= i < j < groups.len() ==> groups[i].id != groups[j].id
}

/// Where the album `id` stands, or the number of albums.
pub open spec fn group_at(groups: Seq<GroupView>, id: i64) -> int
    decreases groups.len(),
{
    if groups.len() == 0 {
        0
    } else if groups[0].id == id {
        0
    } else {
        1 + group_at(groups.skip(1), id)
    }
}

/// `groups` after an item of the album `id` came.
pub open spec fn with_item(groups: Seq<GroupView>, id: i64, item: MediaItemView, now: u64) -> Seq<
    GroupView,
> {
    let at = group_at(groups, id);
    if at < groups.len() {
        groups.update(at, GroupView { id, items: groups[at].items.push(item), last: now })
    } else {
        groups.push(GroupView { id, items: seq![item], last: now })
    }
}

/// No item of an album has come for the whole window.
pub open spec fn is_quiet(group: GroupView, window: u64, now: u64) -> bool {
    now >= group.last && now - group.last >= window || window == 0
}

/// The first album that is quiet, or the number of albums.
pub open spec fn first_quiet(groups: Seq<GroupView>, window: u64, now: u64) -> int
    decreases groups.len(),
{
    if groups.len() == 0 {
        0
    } else if is_quiet(groups[0], window, now) {
        0
    } else {
        1 + first_quiet(groups.skip(1), window, now)
    }
}

proof fn lemma_first_quiet(groups: Seq<GroupView>, window: u64, now: u64, n: int)
    requires
        0 <= n <= groups.len(),
        forall|j: int| 0 <= j < n ==> !is_quiet(#[trigger] groups[j], window, now),
        n == groups.len() || is_quiet(groups[n], window, now),
    ensures
        first_quiet(groups, window, now) == n,
    decreases n,
{
    if n > 0 {
        let rest = groups.skip(1);
        assert(!is_quiet(groups[0], window, now));
        assert forall|j: int| 0 <= j < n - 1 implies !is_quiet(#[trigger] rest[j], window, now) by {
            assert(rest[j] == groups[j + 1]);
        }
        assert(n < groups.len() ==> rest[n - 1] == groups[n]);
        lemma_first_quiet(rest, window, now, n - 1);
    }
}

proof fn lemma_group_at(groups: Seq<GroupView>, id: i64, n: int)
    requires
        0 <= n <= groups.len(),
        forall|j: int| 0 <= j < n ==> (#[trigger] groups[j]).id != id,
        n == groups.len() || groups[n].id == id,
    ensures
        group_at(groups, id) == n,
    decreases n,
{
    if n > 0 {
        let rest = groups.skip(1);
        assert(groups[0].id != id);
        assert forall|j: int| 0 <= j < n - 1 implies (#[trigger] rest[j]).id != id by {
            assert(rest[j] == groups[j + 1]);
        }
        assert(n < groups.len() ==> rest[n - 1] == groups[n]);
        lemma_group_at(rest, id, n - 1);
    }
}

impl AlbumBuffer {
    /// The albums that are being gathered, in the order in which their first items came.
    pub closed spec fn pending(self) -> Seq<GroupView> {
        self.groups.deep_view()
    }

    /// How long an album must be quiet before it is released.
    pub closed spec fn quiet_window(self) -> u64 {
        self.window
    }

    pub fn new(window: u64) -> (r: Self)
        ensures
            r.pending() == Seq::<GroupView>::empty(),
            r.quiet_window() == window,
    {
        let r: AlbumBuffer = AlbumBuffer { window, groups: Vec::new() };
        assert(r.pending() =~= Seq::<GroupView>::empty());
        r
    }

    /// Take an item that came at `now`. An item outside of albums is released at once;
    /// one of an album is held back.
    pub fn push(&mut self, item: MediaItem, now: u64) -> (r: Option<Vec<MediaItem>>)
        ensures
            final(self).quiet_window() == old(self).quiet_window(),
            final(self).pending() == after_step(
                old(self).pending(),
                old(self).quiet_window(),
                (BufferStep::Push { item: item.deep_view(), now }),
            ),
            batches(r.deep_view()) == let_out(
                old(self).pending(),
                old(self).quiet_window(),
                (BufferStep::Push { item: item.deep_view(), now }),
            ),
            match item.deep_view().grouped_id {
                None => {
                    &&& r.deep_view() == Some(seq![item.deep_view()])
                    &&& final(self).pending() == old(self).pending()
                },
                Some(id) => {
                    &&& r is None
                    &&& final(self).pending() == with_item(
                        old(self).pending(),
                        id,
                        item.deep_view(),
                        now,
                    )
                },
            },
    {
        let ghost before = self.groups.deep_view();
        let ghost it = item.deep_view();
        match item.grouped_id {
            None => {
                let mut batch: Vec<MediaItem> = Vec::new();
                batch.push(item);
                assert(batch.deep_view() =~= seq![it]);
                Some(batch)
            },
            Some(id) => {
                let mut i: usize = 0;
                while i < self.groups.len() && self.groups[i].id != id
                    invariant
                        before == self.groups.deep_view(),
                        i <= before.len(),
                        forall|j: int| 0 <= j < i ==> (#[trigger] before[j]).id != id,
                        self.window == old(self).window,
                    decreases before.len() - i,
                {
                    assert(before[i as int] == self.groups@[i as int].deep_view());
                    i = i + 1;
                }
                proof {
                    assert(i < before.len() ==> before[i as int]
                        == self.groups@[i as int].deep_view());
                    lemma_group_at(before, id, i as int);
                }
                if i < self.groups.len() {
                    let mut g: Group = self.groups.remove(i);
                    let ghost had = g.items.deep_view();
                    g.items.push(item);
                    g.last = now;
                    assert(g.items.deep_view() =~= had.push(it));
                    self.groups.insert(i, g);
                    assert(self.groups.deep_view() =~= with_item(before, id, it, now));
                } else {
                    let mut items: Vec<MediaItem> = Vec::new();
                    items.push(item);
                    assert(items.deep_view() =~= seq![it]);
                    self.groups.push(Group { id, items, last: now });
                    assert(self.groups.deep_view() =~= with_item(before, id, it, now));
                }
                None
            },
        }
    }

    /// Release one album that is quiet at `now`, if there is one. Called until it
    /// gives nothing, this releases all of them.
    pub fn tick(&mut self, now: u64) -> (r: Option<Vec<MediaItem>>)
        ensures
            final(self).quiet_window() == old(self).quiet_window(),
            final(self).pending() == after_step(
                old(self).pending(),
                old(self).quiet_window(),
                (BufferStep::Tick { now }),
            ),
            batches(r.deep_view()) == let_out(
                old(self).pending(),
                old(self).quiet_window(),
                (BufferStep::Tick { now }),
            ),
            ({
                let before = old(self).pending();
                let at = first_quiet(before, old(self).quiet_window(), now);
                if at < before.len() {
                    &&& 0 <= at
                    &&& r.deep_view() == Some(before[at].items)
                    &&& final(self).pending() == before.remove(at)
                } else {
                    &&& r is None
                    &&& final(self).pending() == before
                }
            }),
    {
        let ghost before = self.groups.deep_view();
        let ghost window = self.window;
        let mut i: usize = 0;
        while i < self.groups.len()
            invariant
                before == self.groups.deep_view(),
                before == old(self).pending(),
                window == self.window,
                window == old(self).window,
                i <= before.len(),
                forall|j: int| 0 <= j < i ==> !is_quiet(#[trigger] before[j], window, now),
            decreases before.len() - i,
        {
            assert(before[i as int] == self.groups@[i as int].deep_view());
            let last: u64 = self.groups[i].last;
            let silence: u64 = if now >= last {
                now - last
            } else {
                0
            };
            if silence >= self.window {
                proof {
                    lemma_first_quiet(before, window, now, i as int);
                }
                let g: Group = self.groups.remove(i);
                assert(self.groups.deep_view() =~= before.remove(i as int));
                return Some(g.items);
            }
            i = i + 1;
        }
        proof {
            lemma_first_quiet(before, window, now, before.len() as int);
        }
        None
    }

    /// How many albums are being gathered.
    pub fn pending_groups(&self) -> (r: usize)
        ensures
            r == self.pending().len(),
    {
        self.groups.len()
    }

    /// Release every album, quiet or not.
    pub fn flush_all(&mut self) -> (r: Vec<Vec<MediaItem>>)
        ensures
            r.deep_view() == old(self).pending().map_values(|g: GroupView| g.items),
            final(self).pending() == Seq::<GroupView>::empty(),
            final(self).quiet_window() == old(self).quiet_window(),
            final(self).pending() == after_step(
                old(self).pending(),
                old(self).quiet_window(),
                BufferStep::Flush,
            ),
            r.deep_view() == let_out(
                old(self).pending(),
                old(self).quiet_window(),
                BufferStep::Flush,
            ),
    {
        let ghost before = self.groups.deep_view();
        let ghost want = before.map_values(|g: GroupView| g.items);
        let mut out: Vec<Vec<MediaItem>> = Vec::new();
        assert(before.skip(0) =~= before);
        while self.groups.len() > 0
            invariant
                want == before.map_values(|g: GroupView| g.items),
                out@.len() <= before.len(),
                self.groups.deep_view() == before.skip(out@.len() as int),
                out.deep_view() == want.take(out@.len() as int),
                self.window == old(self).window,
            decreases self.groups@.len(),
        {
            let ghost n = out@.len() as int;
            let ghost now = self.groups.deep_view();
            assert(now.len() == self.groups@.len());
            assert(now[0] == self.groups@[0].deep_view());
            assert(now[0] == before[n]);
            let g: Group = self.groups.remove(0);
            assert(self.groups.deep_view() =~= now.skip(1));
            assert(now.skip(1) =~= before.skip(n + 1));
            let ghost done = out.deep_view();
            out.push(g.items);
            assert(out.deep_view() =~= done.push(want[n]));
            assert(want.take(n + 1) =~= want.take(n).push(want[n]));
        }
        assert(self.groups.deep_view().len() == self.groups@.len());
        assert(want.take(want.len() as int) =~= want);
        assert(self.groups.deep_view() =~= Seq::<GroupView>::empty());
        out
    }
}

/// Items are gathered into one album each, and coming items keep it so.
pub proof fn lemma_groups_stay_distinct(groups: Seq<GroupView>, id: i64, item: MediaItemView, now: u64)
    requires
        distinct_groups(groups),
    ensures
        distinct_groups(with_item(groups, id, item, now)),
{
    lemma_group_found(groups, id);
    let after = with_item(groups, id, item, now);
    assert forall|i: int, j: int|
        #![trigger after[i], after[j]]
        0 <= i < j < after.len() implies after[i].id != after[j].id by {
        if j < groups.len() {
            assert(groups[i].id != groups[j].id);
        }
    }
}

proof fn lemma_group_found(groups: Seq<GroupView>, id: i64)
    ensures
        0 <= group_at(groups, id) <= groups.len(),
        group_at(groups, id) < groups.len() ==> groups[group_at(groups, id)].id == id,
        group_at(groups, id) == groups.len() ==> forall|j: int|
            0 <= j < groups.len() ==> (#[trigger] groups[j]).id != id,
    decreases groups.len(),
{
    if groups.len() > 0 && groups[0].id != id {
        let rest = groups.skip(1);
        lemma_group_found(rest, id);
        assert forall|j: int| group_at(groups, id) == groups.len() && 0 <= j < groups.len() implies (
        #[trigger] groups[j]).id != id by {
            if j > 0 {
                assert(rest[j - 1] == groups[j]);
            }
        }
    }
}

/// A further item keeps its album from being released for a whole window.
pub proof fn lemma_late_item_resets_window(
    groups: Seq<GroupView>,
    id: i64,
    item: MediaItemView,
    came: u64,
    window: u64,
    now: u64,
)
    requires
        distinct_groups(groups),
        window > 0,
        now < came + window,
        first_quiet(with_item(groups, id, item, came), window, now) < with_item(
            groups,
            id,
            item,
            came,
        ).len(),
    ensures
        with_item(groups, id, item, came)[first_quiet(
            with_item(groups, id, item, came),
            window,
            now,
        )].id != id,
{
    let after = with_item(groups, id, item, came);
    lemma_group_found(groups, id);
    lemma_groups_stay_distinct(groups, id, item, came);
    let at = group_at(groups, id);
    lemma_first_quiet_is_quiet(after, window, now);
    let q = first_quiet(after, window, now);
    assert(!is_quiet(after[at], window, now));
    if q < at {
        assert(after[q].id != after[at].id);
    } else if at < q {
        assert(after[at].id != after[q].id);
    }
}

proof fn lemma_first_quiet_is_quiet(groups: Seq<GroupView>, window: u64, now: u64)
    ensures
        0 <= first_quiet(groups, window, now) <= groups.len(),
        first_quiet(groups, window, now) < groups.len() ==> is_quiet(
            groups[first_quiet(groups, window, now)],
            window,
            now,
        ),
    decreases groups.len(),
{
    if groups.len() > 0 && !is_quiet(groups[0], window, now) {
        lemma_first_quiet_is_quiet(groups.skip(1), window, now);
    }
}

/// `x` put behind all items whose message is not later.
pub open spec fn insert_by_id(sorted: Seq<MediaItemView>, x: MediaItemView) -> Seq<MediaItemView>
    decreases sorted.len(),
{
    if sorted.len() > 0 && sorted.last().msg_id > x.msg_id {
        insert_by_id(sorted.drop_last(), x).push(sorted.last())
    } else {
        sorted.push(x)
    }
}

/// Items by their message ids; those of one message keep their order.
pub open spec fn sorted_by_id(items: Seq<MediaItemView>) -> Seq<MediaItemView>
    decreases items.len(),
{
    if items.len() == 0 {
        Seq::empty()
    } else {
        insert_by_id(sorted_by_id(items.drop_last()), items.last())
    }
}

proof fn lemma_insert_by_id_at(sorted: Seq<MediaItemView>, x: MediaItemView, at: int)
    requires
        0 <= at <= sorted.len(),
        at == 0 || sorted[at - 1].msg_id <= x.msg_id,
        forall|j: int| at <= j < sorted.len() ==> (#[trigger] sorted[j]).msg_id > x.msg_id,
    ensures
        insert_by_id(sorted, x) == sorted.insert(at, x),
    decreases sorted.len(),
{
    if at < sorted.len() {
        let init = sorted.drop_last();
        assert(sorted[sorted.len() - 1].msg_id > x.msg_id);
        lemma_insert_by_id_at(init, x, at);
        assert(insert_by_id(sorted, x) =~= sorted.insert(at, x));
    } else {
        assert(insert_by_id(sorted, x) =~= sorted.insert(at, x));
    }
}

/// Put the items of an album into the order of their messages. Downloads may end in
/// any order.
pub fn sort_album_batch(batch: &mut Vec<MediaItem>)
    ensures
        final(batch).deep_view() == sorted_by_id(old(batch).deep_view()),
{
    let ghost all = batch.deep_view();
    let mut sorted: Vec<MediaItem> = Vec::new();
    assert(all.skip(0) =~= all);
    assert(all.take(0) =~= Seq::<MediaItemView>::empty());
    assert(sorted.deep_view() =~= Seq::<MediaItemView>::empty());
    while batch.len() > 0
        invariant
            sorted@.len() <= all.len(),
            batch.deep_view() == all.skip(sorted@.len() as int),
            sorted.deep_view() == sorted_by_id(all.take(sorted@.len() as int)),
        decreases batch@.len(),
    {
        let ghost n = sorted@.len() as int;
        let ghost now = batch.deep_view();
        assert(now.len() == batch@.len());
        assert(now[0] == batch@[0].deep_view());
        assert(now[0] == all[n]);
        let item: MediaItem = batch.remove(0);
        assert(batch.deep_view() =~= now.skip(1));
        assert(now.skip(1) =~= all.skip(n + 1));
        let ghost have = sorted.deep_view();
        let mut at: usize = sorted.len();
        while at > 0 && sorted[at - 1].msg_id > item.msg_id
            invariant
                at <= sorted@.len(),
                have == sorted.deep_view(),
                forall|j: int|
                    at <= j < have.len() ==> (#[trigger] have[j]).msg_id > item.msg_id,
            decreases at,
        {
            at = at - 1;
            assert(have[at as int] == sorted@[at as int].deep_view());
        }
        proof {
            assert(at > 0 ==> have[at - 1] == sorted@[at - 1].deep_view());
            lemma_insert_by_id_at(have, item.deep_view(), at as int);
            assert(all.take(n + 1).drop_last() =~= all.take(n));
            assert(all.take(n + 1).last() == all[n]);
        }
        let ghost x = item.deep_view();
        sorted.insert(at, item);
        assert(sorted.deep_view() =~= have.insert(at as int, x));
    }
    assert(batch.deep_view().len() == batch@.len());
    assert(all.take(all.len() as int) =~= all);
    std::mem::swap(batch, &mut sorted);
}

proof fn lemma_insert_by_id(sorted: Seq<MediaItemView>, x: MediaItemView)
    requires
        forall|i: int, j: int|
            #![trigger sorted[i], sorted[j]]
            0 <= i < j < sorted.len() ==> sorted[i].msg_id <= sorted[j].msg_id,
    ensures
        insert_by_id(sorted, x).to_multiset() =~= sorted.to_multiset().insert(x),
        insert_by_id(sorted, x).len() == sorted.len() + 1,
        forall|i: int, j: int|
            #![trigger insert_by_id(sorted, x)[i], insert_by_id(sorted, x)[j]]
            0 <= i < j < insert_by_id(sorted, x).len() ==> insert_by_id(sorted, x)[i].msg_id
                <= insert_by_id(sorted, x)[j].msg_id,
        forall|i: int|
            0 <= i < insert_by_id(sorted, x).len() ==> (#[trigger] insert_by_id(sorted, x)[i]).msg_id
                <= x.msg_id || (sorted.len() > 0 && insert_by_id(sorted, x)[i].msg_id
                <= sorted.last().msg_id),
    decreases sorted.len(),
{
    broadcast use vstd::seq_lib::group_to_multiset_ensures;

    let q = insert_by_id(sorted, x);
    if sorted.len() > 0 && sorted.last().msg_id > x.msg_id {
        let init = sorted.drop_last();
        assert forall|i: int, j: int|
            #![trigger init[i], init[j]]
            0 <= i < j < init.len() implies init[i].msg_id <= init[j].msg_id by {
            assert(sorted[i].msg_id <= sorted[j].msg_id);
        }
        lemma_insert_by_id(init, x);
        let p = insert_by_id(init, x);
        assert(sorted =~= init.push(sorted.last()));
        assert(q.to_multiset() =~= sorted.to_multiset().insert(x));
        if init.len() > 0 {
            assert(sorted[init.len() - 1].msg_id <= sorted[sorted.len() - 1].msg_id);
        }
        assert forall|i: int, j: int|
            #![trigger q[i], q[j]]
            0 <= i < j < q.len() implies q[i].msg_id <= q[j].msg_id by {
            if j < p.len() {
                assert(p[i].msg_id <= p[j].msg_id);
            } else {
                assert(p[i].msg_id <= x.msg_id || p[i].msg_id <= init.last().msg_id);
            }
        }
        assert forall|i: int| 0 <= i < q.len() implies (#[trigger] q[i]).msg_id <= x.msg_id
            || q[i].msg_id <= sorted.last().msg_id by {
            if i < p.len() {
                assert(p[i].msg_id <= x.msg_id || p[i].msg_id <= init.last().msg_id);
            }
        }
    } else {
        assert forall|i: int, j: int|
            #![trigger q[i], q[j]]
            0 <= i < j < q.len() implies q[i].msg_id <= q[j].msg_id by {
            if j < sorted.len() {
                assert(sorted[i].msg_id <= sorted[j].msg_id);
            } else if i < sorted.len() - 1 {
                assert(sorted[i].msg_id <= sorted[sorted.len() - 1].msg_id);
            }
        }
        assert forall|i: int| 0 <= i < q.len() implies (#[trigger] q[i]).msg_id <= x.msg_id by {
            if i < sorted.len() - 1 {
                assert(sorted[i].msg_id <= sorted[sorted.len() - 1].msg_id);
            }
        }
    }
}

/// Sorting loses nothing and puts every item behind those of earlier messages.
pub proof fn lemma_sorted_by_id(items: Seq<MediaItemView>)
    ensures
        sorted_by_id(items).to_multiset() =~= items.to_multiset(),
        sorted_by_id(items).len() == items.len(),
        forall|i: int, j: int|
            #![trigger sorted_by_id(items)[i], sorted_by_id(items)[j]]
            0 <= i < j < items.len() ==> sorted_by_id(items)[i].msg_id
                <= sorted_by_id(items)[j].msg_id,
    decreases items.len(),
{
    broadcast use vstd::seq_lib::group_to_multiset_ensures;

    if items.len() > 0 {
        let init = items.drop_last();
        lemma_sorted_by_id(init);
        lemma_insert_by_id(sorted_by_id(init), items.last());
        assert(items =~= init.push(items.last()));
    } else {
        assert(items =~= Seq::empty());
    }
}

/// All the items that are held back.
pub open spec fn held(groups: Seq<GroupView>) -> Multiset<MediaItemView>
    decreases groups.len(),
{
    if groups.len() == 0 {
        Multiset::empty()
    } else {
        held(groups.drop_last()).add(groups.last().items.to_multiset())
    }
}

proof fn lemma_held_update(groups: Seq<GroupView>, at: int, g: GroupView, item: MediaItemView)
    requires
        0 <= at < groups.len(),
        g.items == groups[at].items.push(item),
    ensures
        held(groups.update(at, g)) =~= held(groups).insert(item),
    decreases groups.len(),
{
    broadcast use vstd::seq_lib::group_to_multiset_ensures;

    let q = groups.update(at, g);
    let n = groups.len() - 1;
    if at == n {
        assert(q.drop_last() =~= groups.drop_last());
        assert(g.items.to_multiset() =~= groups[at].items.to_multiset().insert(item));
    } else {
        assert(q.drop_last() =~= groups.drop_last().update(at, g));
        lemma_held_update(groups.drop_last(), at, g, item);
    }
}

proof fn lemma_held_remove(groups: Seq<GroupView>, at: int)
    requires
        0 <= at < groups.len(),
    ensures
        held(groups.remove(at)).add(groups[at].items.to_multiset()) =~= held(groups),
    decreases groups.len(),
{
    let q = groups.remove(at);
    let n = groups.len() - 1;
    if at == n {
        assert(q =~= groups.drop_last());
    } else {
        assert(q.drop_last() =~= groups.drop_last().remove(at));
        assert(q.last() == groups.last());
        lemma_held_remove(groups.drop_last(), at);
    }
}

/// No item gets lost and none is released twice: one that comes is held back beside the
/// others, and of an album that is released all its items go out and no other ones.
pub proof fn lemma_items_kept(
    groups: Seq<GroupView>,
    id: i64,
    item: MediaItemView,
    now: u64,
    at: int,
)
    ensures
        held(with_item(groups, id, item, now)) == held(groups).insert(item),
        0 <= at < groups.len() ==> held(groups.remove(at)).add(groups[at].items.to_multiset())
            == held(groups),
{
    broadcast use vstd::seq_lib::group_to_multiset_ensures;

    lemma_group_at_bound(groups, id);
    let i = group_at(groups, id);
    if i < groups.len() {
        lemma_held_update(
            groups,
            i,
            GroupView { id, items: groups[i].items.push(item), last: now },
            item,
        );
    } else {
        let g = GroupView { id, items: seq![item], last: now };
        assert(groups.push(g).drop_last() =~= groups);
        assert(seq![item] =~= Seq::<MediaItemView>::empty().push(item));
        assert(seq![item].to_multiset() =~= Multiset::<MediaItemView>::empty().insert(item));
        assert(held(groups.push(g)) =~= held(groups).insert(item));
    }
    if 0 <= at < groups.len() {
        lemma_held_remove(groups, at);
    }
}

proof fn lemma_group_at_bound(groups: Seq<GroupView>, id: i64)
    ensures
        0 <= group_at(groups, id) <= groups.len(),
    decreases groups.len(),
{
    if groups.len() > 0 && groups[0].id != id {
        lemma_group_at_bound(groups.skip(1), id);
    }
}

/// One call on a buffer.
pub enum BufferStep {
    Push { item: MediaItemView, now: u64 },
    Tick { now: u64 },
    Flush,
}

/// The albums that are gathered after a call.
pub open spec fn after_step(groups: Seq<GroupView>, window: u64, step: BufferStep) -> Seq<
    GroupView,
> {
    match step {
        BufferStep::Push { item, now } => match item.grouped_id {
            None => groups,
            Some(id) => with_item(groups, id, item, now),
        },
        BufferStep::Tick { now } => {
            let at = first_quiet(groups, window, now);
            if at < groups.len() {
                groups.remove(at)
            } else {
                groups
            }
        },
        BufferStep::Flush => Seq::empty(),
    }
}

/// The batches that a call releases.
pub open spec fn let_out(groups: Seq<GroupView>, window: u64, step: BufferStep) -> Seq<
    Seq<MediaItemView>,
> {
    match step {
        BufferStep::Push { item, now } => match item.grouped_id {
            None => seq![seq![item]],
            Some(_) => Seq::empty(),
        },
        BufferStep::Tick { now } => {
            let at = first_quiet(groups, window, now);
            if at < groups.len() {
                seq![groups[at].items]
            } else {
                Seq::empty()
            }
        },
        BufferStep::Flush => groups.map_values(|g: GroupView| g.items),
    }
}

/// The batch that a call may release, as a sequence of none or one.
pub open spec fn batches(batch: Option<Seq<MediaItemView>>) -> Seq<Seq<MediaItemView>> {
    match batch {
        Some(b) => seq![b],
        None => Seq::empty(),
    }
}

/// What a new buffer gathers after some calls.
pub open spec fn pending_after(window: u64, steps: Seq<BufferStep>) -> Seq<GroupView>
    decreases steps.len(),
{
    if steps.len() == 0 {
        Seq::empty()
    } else {
        after_step(pending_after(window, steps.drop_last()), window, steps.last())
    }
}

/// The batches that a new buffer has released after some calls, in their order.
pub open spec fn out_after(window: u64, steps: Seq<BufferStep>) -> Seq<Seq<MediaItemView>>
    decreases steps.len(),
{
    if steps.len() == 0 {
        Seq::empty()
    } else {
        let before = steps.drop_last();
        out_after(window, before) + let_out(pending_after(window, before), window, steps.last())
    }
}

/// The items that a call hands to a buffer: one, or none.
pub open spec fn handed_in(step: BufferStep) -> Seq<MediaItemView> {
    match step {
        BufferStep::Push { item, .. } => seq![item],
        _ => Seq::empty(),
    }
}

/// The items that some calls hand to a buffer, in their order.
pub open spec fn pushed(steps: Seq<BufferStep>) -> Seq<MediaItemView>
    decreases steps.len(),
{
    if steps.len() == 0 {
        Seq::empty()
    } else {
        pushed(steps.drop_last()) + handed_in(steps.last())
    }
}

/// When the last item of an album came.
pub open spec fn last_push(steps: Seq<BufferStep>, id: i64) -> Option<u64>
    decreases steps.len(),
{
    if steps.len() == 0 {
        None
    } else {
        match steps.last() {
            BufferStep::Push { item, now } if item.grouped_id == Some(id) => Some(now),
            _ => last_push(steps.drop_last(), id),
        }
    }
}

/// The items of some batches, one batch behind the other.
pub open spec fn all_items(batches: Seq<Seq<MediaItemView>>) -> Seq<MediaItemView>
    decreases batches.len(),
{
    if batches.len() == 0 {
        Seq::empty()
    } else {
        all_items(batches.drop_last()) + batches.last()
    }
}

/// Whether an item belongs to an album, or to none.
pub open spec fn belongs_to(group: Option<i64>) -> spec_fn(MediaItemView) -> bool {
    |item: MediaItemView| item.grouped_id == group
}

/// The items of an album among those that are held back.
pub open spec fn held_of(groups: Seq<GroupView>, group: Option<i64>) -> Seq<MediaItemView> {
    match group {
        None => Seq::empty(),
        Some(id) => {
            let at = group_at(groups, id);
            if at < groups.len() {
                groups[at].items
            } else {
                Seq::empty()
            }
        },
    }
}

/// What holds of the albums that are gathered after some calls: none is gathered twice, each
/// has items, all its items belong to it, and its time is that of the last one.
spec fn gathered(groups: Seq<GroupView>, steps: Seq<BufferStep>) -> bool {
    &&& distinct_groups(groups)
    &&& forall|i: int| 0 <= i < groups.len() ==> #[trigger] is_gathered(groups[i], steps)
}

/// An album is gathered as it should be.
spec fn is_gathered(group: GroupView, steps: Seq<BufferStep>) -> bool {
    &&& group.items.len() > 0
    &&& all_of(group.items, group.id)
    &&& last_push(steps, group.id) == Some(group.last)
}

/// All the items belong to the album.
pub open spec fn all_of(items: Seq<MediaItemView>, id: i64) -> bool {
    forall|i: int| 0 <= i < items.len() ==> (#[trigger] items[i]).grouped_id == Some(id)
}

proof fn lemma_gathered(window: u64, steps: Seq<BufferStep>)
    ensures
        gathered(pending_after(window, steps), steps),
    decreases steps.len(),
{
    if steps.len() > 0 {
        let before = steps.drop_last();
        let groups = pending_after(window, before);
        let after = pending_after(window, steps);
        lemma_gathered(window, before);
        match steps.last() {
            BufferStep::Push { item, now } => {
                if let Some(id) = item.grouped_id {
                    lemma_group_found(groups, id);
                    lemma_groups_stay_distinct(groups, id, item, now);
                    let at = group_at(groups, id);
                    assert forall|i: int| 0 <= i < after.len() implies #[trigger] is_gathered(
                        after[i],
                        steps,
                    ) by {
                        if at < groups.len() {
                            assert(is_gathered(groups[at], before));
                            assert(i != at ==> groups[i].id != groups[at].id);
                        }
                        if i < groups.len() {
                            assert(is_gathered(groups[i], before));
                        }
                    }
                } else {
                    assert forall|i: int| 0 <= i < after.len() implies #[trigger] is_gathered(
                        after[i],
                        steps,
                    ) by {
                        assert(is_gathered(groups[i], before));
                    }
                }
            },
            BufferStep::Tick { now } => {
                lemma_first_quiet_is_quiet(groups, window, now);
                let at = first_quiet(groups, window, now);
                assert forall|i: int| 0 <= i < after.len() implies #[trigger] is_gathered(
                    after[i],
                    steps,
                ) by {
                    if at < groups.len() && i >= at {
                        assert(is_gathered(groups[i + 1], before));
                    } else {
                        assert(is_gathered(groups[i], before));
                    }
                }
            },
            BufferStep::Flush => {},
        }
    }
}

proof fn lemma_all_belong(items: Seq<MediaItemView>, id: i64, group: Option<i64>)
    requires
        all_of(items, id),
    ensures
        group == Some(id) ==> items.filter(belongs_to(group)) == items,
        group != Some(id) ==> items.filter(belongs_to(group)) == Seq::<MediaItemView>::empty(),
    decreases items.len(),
{
    reveal(Seq::filter);
    if items.len() > 0 {
        let init = items.drop_last();
        assert forall|i: int| 0 <= i < init.len() implies (#[trigger] init[i]).grouped_id == Some(
            id,
        ) by {
            assert(init[i] == items[i]);
        }
        lemma_all_belong(init, id, group);
        assert(items[items.len() - 1].grouped_id == Some(id));
        assert(init.push(items.last()) =~= items);
    }
}

proof fn lemma_belongs_alone(item: MediaItemView, group: Option<i64>)
    ensures
        seq![item].filter(belongs_to(group)) == (if item.grouped_id == group {
            seq![item]
        } else {
            Seq::empty()
        }),
{
    reveal(Seq::filter);
    let none = Seq::<MediaItemView>::empty();
    assert(seq![item].drop_last() =~= none);
    assert(none.filter(belongs_to(group)) =~= none);
    assert(none.push(item) =~= seq![item]);
}

proof fn lemma_all_items_add(a: Seq<Seq<MediaItemView>>, b: Seq<Seq<MediaItemView>>)
    ensures
        all_items(a + b) == all_items(a) + all_items(b),
    decreases b.len(),
{
    if b.len() == 0 {
        assert(a + b =~= a);
        assert(all_items(a) + all_items(b) =~= all_items(a));
    } else {
        assert((a + b).drop_last() =~= a + b.drop_last());
        lemma_all_items_add(a, b.drop_last());
        assert(all_items(a + b) =~= all_items(a) + all_items(b));
    }
}

proof fn lemma_all_items_one(batch: Seq<MediaItemView>)
    ensures
        all_items(seq![batch]) == batch,
{
    reveal_with_fuel(all_items, 2);
    assert(seq![batch].drop_last() =~= Seq::<Seq<MediaItemView>>::empty());
    assert(all_items(seq![batch]) =~= batch);
}

proof fn lemma_stands_at(groups: Seq<GroupView>, at: int)
    requires
        distinct_groups(groups),
        0 <= at < groups.len(),
    ensures
        group_at(groups, groups[at].id) == at,
{
    assert forall|j: int| 0 <= j < at implies (#[trigger] groups[j]).id != groups[at].id by {}
    lemma_group_at(groups, groups[at].id, at);
}

/// Flushing releases what is held back of every album.
proof fn lemma_flushed(groups: Seq<GroupView>, steps: Seq<BufferStep>, group: Option<i64>)
    requires
        gathered(groups, steps),
    ensures
        all_items(groups.map_values(|g: GroupView| g.items)).filter(belongs_to(group)) == held_of(
            groups,
            group,
        ),
        all_items(groups.map_values(|g: GroupView| g.items)).to_multiset() =~= held(groups),
    decreases groups.len(),
{
    broadcast use vstd::seq_lib::group_to_multiset_ensures;

    reveal(Seq::filter);
    let out = groups.map_values(|g: GroupView| g.items);
    if groups.len() > 0 {
        let init = groups.drop_last();
        let last = groups.last();
        assert forall|i: int, j: int|
            #![trigger init[i], init[j]]
            0 <= i < j < init.len() implies init[i].id != init[j].id by {
            assert(groups[i].id != groups[j].id);
        }
        assert forall|i: int| 0 <= i < init.len() implies #[trigger] is_gathered(
            init[i],
            steps,
        ) by {
            assert(is_gathered(groups[i], steps));
        }
        lemma_flushed(init, steps, group);
        let init_out = init.map_values(|g: GroupView| g.items);
        assert(out.drop_last() =~= init_out);
        vstd::seq_lib::lemma_multiset_commutative(all_items(init_out), last.items);
        Seq::filter_distributes_over_add(all_items(init_out), last.items, belongs_to(group));
        assert(is_gathered(groups[groups.len() - 1], steps));
        lemma_all_belong(last.items, last.id, group);
        if let Some(id) = group {
            lemma_group_found(init, id);
            let at = group_at(init, id);
            if at < init.len() {
                lemma_stands_at(groups, at);
                assert(groups[at].id != groups[groups.len() - 1].id);
            } else if last.id == id {
                lemma_stands_at(groups, groups.len() - 1);
            } else {
                assert forall|j: int| 0 <= j < groups.len() implies (#[trigger] groups[j]).id
                    != id by {
                    if j < init.len() {
                        assert(init[j].id != id);
                    }
                }
                lemma_group_at(groups, id, groups.len() as int);
            }
        }
        assert(out.last() == last.items);
        assert(all_items(out).filter(belongs_to(group)) =~= held_of(groups, group));
    }
}

/// One more call keeps the order of the items of every album.
proof fn lemma_step_in_order(
    groups: Seq<GroupView>,
    window: u64,
    before: Seq<BufferStep>,
    step: BufferStep,
    group: Option<i64>,
)
    requires
        gathered(groups, before),
    ensures
        all_items(let_out(groups, window, step)).filter(belongs_to(group)) + held_of(
            after_step(groups, window, step),
            group,
        ) == held_of(groups, group) + handed_in(step).filter(belongs_to(group)),
{
    reveal(Seq::filter);
    let out = let_out(groups, window, step);
    let after = after_step(groups, window, step);
    let none = Seq::<MediaItemView>::empty();
    assert(none.filter(belongs_to(group)) =~= none);
    match step {
        BufferStep::Push { item, now } => {
            lemma_belongs_alone(item, group);
            match item.grouped_id {
                None => {
                    lemma_all_items_one(seq![item]);
                },
                Some(id) => {
                    assert(all_items(out) =~= none);
                    lemma_group_found(groups, id);
                    lemma_groups_stay_distinct(groups, id, item, now);
                    let at = group_at(groups, id);
                    lemma_stands_at(after, at);
                    if let Some(other) = group {
                        if other != id {
                            lemma_group_found(groups, other);
                            let o = group_at(groups, other);
                            if o < groups.len() {
                                assert(after[o] == groups[o]);
                                lemma_stands_at(after, o);
                            } else {
                                assert forall|j: int| 0 <= j < after.len() implies (
                                #[trigger] after[j]).id != other by {
                                    if j < groups.len() {
                                        assert(groups[j].id != other);
                                    }
                                }
                                lemma_group_at(after, other, after.len() as int);
                            }
                        }
                    }
                },
            }
        },
        BufferStep::Tick { now } => {
            lemma_first_quiet_is_quiet(groups, window, now);
            let at = first_quiet(groups, window, now);
            if at < groups.len() {
                assert(is_gathered(groups[at], before));
                lemma_all_items_one(groups[at].items);
                lemma_all_belong(groups[at].items, groups[at].id, group);
                lemma_stands_at(groups, at);
                assert forall|i: int, j: int|
                    #![trigger after[i], after[j]]
                    0 <= i < j < after.len() implies after[i].id != after[j].id by {
                    let a = if i < at { i } else { i + 1 };
                    let b = if j < at { j } else { j + 1 };
                    assert(groups[a].id != groups[b].id);
                }
                if let Some(id) = group {
                    lemma_group_found(groups, id);
                    let o = group_at(groups, id);
                    if o < groups.len() && o != at {
                        let n = if o < at { o } else { o - 1 };
                        assert(after[n] == groups[o]);
                        lemma_stands_at(after, n);
                    } else {
                        assert forall|j: int| 0 <= j < after.len() implies (
                        #[trigger] after[j]).id != id by {
                            let m = if j < at { j } else { j + 1 };
                            assert(after[j] == groups[m]);
                            assert(o == at ==> groups[m].id != groups[at].id);
                        }
                        lemma_group_at(after, id, after.len() as int);
                    }
                }
            }
        },
        BufferStep::Flush => {
            lemma_flushed(groups, before, group);
        },
    }
    assert(all_items(out).filter(belongs_to(group)) + held_of(after, group) =~= held_of(
        groups,
        group,
    ) + handed_in(step).filter(belongs_to(group)));
}

/// The items of an album leave a buffer in the order in which they came: those that are out
/// and behind them those that are held back are all that were pushed. The same holds of the
/// items outside of albums, of which none is held back.
pub proof fn lemma_items_leave_in_order(window: u64, steps: Seq<BufferStep>, group: Option<i64>)
    ensures
        all_items(out_after(window, steps)).filter(belongs_to(group)) + held_of(
            pending_after(window, steps),
            group,
        ) == pushed(steps).filter(belongs_to(group)),
    decreases steps.len(),
{
    if steps.len() == 0 {
        reveal(Seq::filter);
        let none = Seq::<MediaItemView>::empty();
        assert(none + none =~= none);
    } else {
        let before = steps.drop_last();
        let step = steps.last();
        let groups = pending_after(window, before);
        let out = out_after(window, before);
        let more = let_out(groups, window, step);
        let p = belongs_to(group);
        lemma_items_leave_in_order(window, before, group);
        lemma_gathered(window, before);
        lemma_step_in_order(groups, window, before, step, group);
        lemma_all_items_add(out, more);
        Seq::filter_distributes_over_add(all_items(out), all_items(more), p);
        Seq::filter_distributes_over_add(pushed(before), handed_in(step), p);
        let was_out = all_items(out).filter(p);
        let goes_out = all_items(more).filter(p);
        let was_held = held_of(groups, group);
        let is_held = held_of(pending_after(window, steps), group);
        let comes = handed_in(step).filter(p);
        assert(was_out + goes_out + is_held =~= was_out + (goes_out + is_held));
        assert(was_out + (was_held + comes) =~= was_out + was_held + comes);
    }
}

/// Every item that is pushed is either out or held back, once.
pub proof fn lemma_items_are_out_or_held(window: u64, steps: Seq<BufferStep>)
    ensures
        all_items(out_after(window, steps)).to_multiset().add(held(pending_after(window, steps)))
            == pushed(steps).to_multiset(),
    decreases steps.len(),
{
    broadcast use vstd::seq_lib::group_to_multiset_ensures;

    if steps.len() > 0 {
        let before = steps.drop_last();
        let groups = pending_after(window, before);
        let out = out_after(window, before);
        let more = let_out(groups, window, steps.last());
        lemma_items_are_out_or_held(window, before);
        lemma_gathered(window, before);
        lemma_all_items_add(out, more);
        vstd::seq_lib::lemma_multiset_commutative(all_items(out), all_items(more));
        match steps.last() {
            BufferStep::Push { item, now } => {
                assert(pushed(steps) =~= pushed(before).push(item));
                match item.grouped_id {
                    None => {
                        lemma_all_items_one(seq![item]);
                        assert(seq![item] =~= Seq::<MediaItemView>::empty().push(item));
                        assert(seq![item].to_multiset() =~= Multiset::<
                            MediaItemView,
                        >::empty().insert(item));
                    },
                    Some(id) => {
                        lemma_items_kept(groups, id, item, now, 0);
                    },
                }
            },
            BufferStep::Tick { now } => {
                lemma_first_quiet_is_quiet(groups, window, now);
                let at = first_quiet(groups, window, now);
                assert(pushed(steps) =~= pushed(before));
                if at < groups.len() {
                    lemma_all_items_one(groups[at].items);
                    lemma_held_remove(groups, at);
                }
            },
            BufferStep::Flush => {
                assert(pushed(steps) =~= pushed(before));
                lemma_flushed(groups, before, None);
            },
        }
    }
    assert(all_items(out_after(window, steps)).to_multiset().add(
        held(pending_after(window, steps)),
    ) =~= pushed(steps).to_multiset());
}

/// A whole window lies between two points in time. An empty window always does.
pub open spec fn is_after_window(last: u64, window: u64, now: u64) -> bool {
    window == 0 || last + window <= now
}

/// A batch holds all the items of one album that were pushed and are not out yet, in the
/// order in which they were pushed.
pub open spec fn is_whole_album(
    batch: Seq<MediaItemView>,
    id: i64,
    window: u64,
    before: Seq<BufferStep>,
) -> bool {
    &&& batch.len() > 0
    &&& all_of(batch, id)
    &&& batch == pushed(before).filter(belongs_to(Some(id))).skip(
        all_items(out_after(window, before)).filter(belongs_to(Some(id))).len() as int,
    )
}

proof fn lemma_gathered_album(window: u64, steps: Seq<BufferStep>, at: int)
    requires
        0 <= at < pending_after(window, steps).len(),
    ensures
        is_gathered(pending_after(window, steps)[at], steps),
        is_whole_album(
            pending_after(window, steps)[at].items,
            pending_after(window, steps)[at].id,
            window,
            steps,
        ),
{
    let groups = pending_after(window, steps);
    let g = groups[at];
    lemma_gathered(window, steps);
    assert(is_gathered(g, steps));
    lemma_stands_at(groups, at);
    lemma_items_leave_in_order(window, steps, Some(g.id));
    let out = all_items(out_after(window, steps)).filter(belongs_to(Some(g.id)));
    assert((out + g.items).skip(out.len() as int) =~= g.items);
}

/// What the batch `b` that the call `k` of a run releases is. A push releases an item outside
/// of albums, alone. A tick releases one album, and only if its last item came a whole window
/// ago. A flush releases one album in each batch.
pub open spec fn is_due(window: u64, steps: Seq<BufferStep>, k: int, b: int) -> bool {
    let before = steps.take(k);
    let batch = let_out(pending_after(window, before), window, steps[k])[b];
    match steps[k] {
        BufferStep::Push { item, .. } => item.grouped_id is None && batch == seq![item],
        BufferStep::Tick { now } => exists|id: i64, last: u64|
            {
                &&& #[trigger] last_push(before, id) == Some(last)
                &&& #[trigger] is_after_window(last, window, now)
                &&& is_whole_album(batch, id, window, before)
            },
        BufferStep::Flush => exists|id: i64| is_whole_album(batch, id, window, before),
    }
}

/// Every batch that a run releases is due when it is released.
pub proof fn lemma_released_when_due(window: u64, steps: Seq<BufferStep>, k: int, b: int)
    requires
        0 <= k < steps.len(),
        0 <= b < let_out(pending_after(window, steps.take(k)), window, steps[k]).len(),
    ensures
        is_due(window, steps, k, b),
{
    let before = steps.take(k);
    let groups = pending_after(window, before);
    let batch = let_out(groups, window, steps[k])[b];
    match steps[k] {
        BufferStep::Push { item, .. } => {},
        BufferStep::Tick { now } => {
            lemma_first_quiet_is_quiet(groups, window, now);
            let at = first_quiet(groups, window, now);
            lemma_gathered_album(window, before, at);
            assert(is_after_window(groups[at].last, window, now));
            assert(last_push(before, groups[at].id) == Some(groups[at].last));
            assert(is_whole_album(batch, groups[at].id, window, before));
        },
        BufferStep::Flush => {
            lemma_gathered_album(window, before, b);
            assert(is_whole_album(batch, groups[b].id, window, before));
        },
    }
}

/// From a new buffer, through any calls, to a last flush: nothing is held back any more, each
/// item that was pushed has come out exactly once, the items of each album have come out in
/// the order in which they were pushed, and every batch was due when it came out.
pub proof fn lemma_whole_run(window: u64, steps: Seq<BufferStep>)
    requires
        steps.len() > 0,
        steps.last() is Flush,
    ensures
        pending_after(window, steps) == Seq::<GroupView>::empty(),
        all_items(out_after(window, steps)).to_multiset() == pushed(steps).to_multiset(),
        forall|group: Option<i64>|
            all_items(out_after(window, steps)).filter(#[trigger] belongs_to(group)) == pushed(
                steps,
            ).filter(belongs_to(group)),
        forall|k: int, b: int|
            0 <= k < steps.len() && 0 <= b < let_out(
                pending_after(window, steps.take(k)),
                window,
                steps[k],
            ).len() ==> #[trigger] is_due(window, steps, k, b),
{
    lemma_items_are_out_or_held(window, steps);
    assert(all_items(out_after(window, steps)).to_multiset() =~= pushed(steps).to_multiset());
    assert forall|group: Option<i64>|
        all_items(out_after(window, steps)).filter(#[trigger] belongs_to(group)) == pushed(
            steps,
        ).filter(belongs_to(group)) by {
        lemma_items_leave_in_order(window, steps, group);
        assert(held_of(pending_after(window, steps), group) =~= Seq::<MediaItemView>::empty());
        assert(all_items(out_after(window, steps)).filter(belongs_to(group)) =~= pushed(
            steps,
        ).filter(belongs_to(group)));
    }
    assert forall|k: int, b: int|
        0 <= k < steps.len() && 0 <= b < let_out(
            pending_after(window, steps.take(k)),
            window,
            steps[k],
        ).len() implies #[trigger] is_due(window, steps, k, b) by {
        lemma_released_when_due(window, steps, k, b);
    }
}

/// Put a further chunk of a file behind what has been fetched of it, and refuse a file that
/// gets larger than `max_bytes`. The size that was announced does not count here, as it may
/// be missing.
pub fn take_chunk(bytes: &mut Vec<u8>, chunk: &[u8], max_bytes: u64) -> (r: Result<(), String>)
    requires
        old(bytes)@.len() + chunk@.len() <= usize::MAX,
    ensures
        final(bytes)@ == old(bytes)@ + chunk@,
        match r {
            Ok(_) => final(bytes)@.len() <= max_bytes,
            Err(e) => {
                &&& final(bytes)@.len() > max_bytes
                &&& e@ == "media exceeded max_bytes ("@ + text::decimal(
                    final(bytes)@.len() as int,
                ) + " > "@ + text::decimal(max_bytes as int) + ") mid-download"@
            },
        },
{
    bytes.extend_from_slice(chunk);
    assert(bytes@ =~= old(bytes)@ + chunk@);
    let n: u64 = bytes.len() as u64;
    if n > max_bytes {
        let mut e: String = "media exceeded max_bytes (".to_owned();
        text::push_nat(&mut e, n);
        e.append(" > ");
        text::push_nat(&mut e, max_bytes);
        e.append(") mid-download");
        Err(e)
    } else {
        Ok(())
    }
}

/// A quiet album is not held back: where the last item of one came a whole window ago, a tick
/// releases an album.
pub proof fn lemma_quiet_is_released(groups: Seq<GroupView>, window: u64, now: u64, k: int)
    requires
        0 <= k < groups.len(),
        groups[k].last + window <= now,
    ensures
        let_out(groups, window, BufferStep::Tick { now }).len() == 1,
        after_step(groups, window, BufferStep::Tick { now }).len() == groups.len() - 1,
    decreases groups.len(),
{
    lemma_some_is_quiet(groups, window, now, k);
    lemma_first_quiet_is_quiet(groups, window, now);
}

proof fn lemma_some_is_quiet(groups: Seq<GroupView>, window: u64, now: u64, k: int)
    requires
        0 <= k < groups.len(),
        groups[k].last + window <= now,
    ensures
        first_quiet(groups, window, now) < groups.len(),
    decreases groups.len(),
{
    if !is_quiet(groups[0], window, now) {
        let rest = groups.skip(1);
        assert(rest[k - 1] == groups[k]);
        lemma_some_is_quiet(rest, window, now, k - 1);
    }
}

/// An item of an album is held back behind those of its album that came before it, and the
/// album has come last at that time. No other album changes.
pub proof fn lemma_item_joins_its_album(
    groups: Seq<GroupView>,
    id: i64,
    item: MediaItemView,
    now: u64,
    k: int,
)
    requires
        distinct_groups(groups),
        0 <= k < groups.len(),
    ensures
        groups[k].id == id ==> with_item(groups, id, item, now).len() == groups.len() && with_item(
            groups,
            id,
            item,
            now,
        )[k] == (GroupView { id, items: groups[k].items.push(item), last: now }),
        groups[k].id != id ==> with_item(groups, id, item, now)[k] == groups[k],
{
    lemma_group_found(groups, id);
    let at = group_at(groups, id);
    if groups[k].id == id {
        if at < groups.len() && at != k {
            if at < k {
                assert(groups[at].id != groups[k].id);
            } else {
                assert(groups[k].id != groups[at].id);
            }
        }
    }
}

proof fn lemma_insert_is_stable(sorted: Seq<MediaItemView>, x: MediaItemView, m: i32)
    requires
        forall|i: int, j: int|
            #![trigger sorted[i], sorted[j]]
            0 <= i < j < sorted.len() ==> sorted[i].msg_id <= sorted[j].msg_id,
    ensures
        insert_by_id(sorted, x).filter(|y: MediaItemView| y.msg_id == m) == (if x.msg_id == m {
            sorted.filter(|y: MediaItemView| y.msg_id == m).push(x)
        } else {
            sorted.filter(|y: MediaItemView| y.msg_id == m)
        }),
    decreases sorted.len(),
{
    reveal(Seq::filter);
    let f = |y: MediaItemView| y.msg_id == m;
    let q = insert_by_id(sorted, x);
    if sorted.len() > 0 && sorted.last().msg_id > x.msg_id {
        let init = sorted.drop_last();
        assert forall|i: int, j: int|
            #![trigger init[i], init[j]]
            0 <= i < j < init.len() implies init[i].msg_id <= init[j].msg_id by {
            assert(sorted[i].msg_id <= sorted[j].msg_id);
        }
        lemma_insert_is_stable(init, x, m);
        let p = insert_by_id(init, x);
        assert(q.drop_last() =~= p);
        assert(q.last() == sorted.last());
    } else {
        assert(q.drop_last() =~= sorted);
        assert(q.last() == x);
    }
}

/// Sorting an album keeps the order of items of one message.
pub proof fn lemma_sorting_is_stable(items: Seq<MediaItemView>, m: i32)
    ensures
        sorted_by_id(items).filter(|y: MediaItemView| y.msg_id == m) == items.filter(
            |y: MediaItemView| y.msg_id == m,
        ),
    decreases items.len(),
{
    reveal(Seq::filter);
    if items.len() > 0 {
        let init = items.drop_last();
        lemma_sorting_is_stable(init, m);
        lemma_sorted_by_id(init);
        lemma_insert_is_stable(sorted_by_id(init), items.last(), m);
    }
}

} // verus!
