//! Remembering of messages that were seen, as far back as there is room.

use std::num::NonZeroUsize;
use vstd::prelude::*;

use crate::config::ChatId;

verus! {

/// A cache of the `lru` crate, which forgets what was used the longest time ago.
#[verifier::external_type_specification]
#[verifier::external_body]
#[verifier::reject_recursive_types(K)]
#[verifier::reject_recursive_types(V)]
#[verifier::reject_recursive_types(S)]
pub struct ExLruCache<K, V, S>(lru::LruCache<K, V, S>);

/// The hasher that such a cache uses unless it is told otherwise.
#[verifier::external_type_specification]
#[verifier::external_body]
pub struct ExDefaultHasher(lru::DefaultHasher);

/// The keys of a cache, the one that was used the longest time ago first.
pub uninterp spec fn cache_keys(c: lru::LruCache<(i64, i32), ()>) -> Seq<(i64, i32)>;

/// How many keys a cache was made for.
pub uninterp spec fn cache_room(c: lru::LruCache<(i64, i32), ()>) -> nat;

/// `LruCache::new`: an empty cache for `cap` keys. It sets the room aside at once, which
/// panics for numbers so large that no memory could hold them.
#[verifier::external_body]
fn new_cache(cap: usize) -> (r: lru::LruCache<(i64, i32), ()>)
    requires
        0 < cap <= usize::MAX / 128,
    ensures
        cache_keys(r) == Seq::<(i64, i32)>::empty(),
        cache_room(r) == cap,
{
    lru::LruCache::new(NonZeroUsize::new(cap).unwrap())
}

/// `keys` after `key` was used: it becomes the last one, and where it is new and there is
/// no room, the first one goes.
pub open spec fn after_use(keys: Seq<(i64, i32)>, room: nat, key: (i64, i32)) -> Seq<(i64, i32)> {
    if keys.contains(key) {
        keys.remove(keys.index_of(key)).push(key)
    } else if keys.len() == room && room > 0 {
        keys.skip(1).push(key)
    } else {
        keys.push(key)
    }
}

/// `LruCache::put`: uses a key, and gives back the value that was under it, which is
/// there exactly if the key was.
#[verifier::external_body]
fn put(c: &mut lru::LruCache<(i64, i32), ()>, key: (i64, i32)) -> (r: Option<()>)
    ensures
        r is Some <==> cache_keys(*old(c)).contains(key),
        cache_keys(*final(c)) == after_use(cache_keys(*old(c)), cache_room(*old(c)), key),
        cache_room(*final(c)) == cache_room(*old(c)),
{
    c.put(key, ())
}

/// The messages that were seen last.
pub struct Dedup {
    seen: lru::LruCache<(i64, i32), ()>,
}

impl Dedup {
    /// The messages that are remembered, the one that was seen the longest time ago first.
    pub closed spec fn recent(self) -> Seq<(i64, i32)> {
        cache_keys(self.seen)
    }

    /// How many messages are remembered.
    pub closed spec fn room(self) -> nat {
        cache_room(self.seen)
    }

    /// There is room, no more is remembered than fits, and nothing twice.
    pub open spec fn well_formed(self) -> bool {
        &&& self.room() > 0
        &&& self.recent().len() <= self.room()
        &&& self.recent().no_duplicates()
    }

    /// Room for `cap` messages, and for one at least.
    pub fn new(cap: usize) -> (r: Self)
        requires
            cap <= usize::MAX / 128,
        ensures
            r.well_formed(),
            r.recent() == Seq::<(i64, i32)>::empty(),
            r.room() == (if cap == 0 {
                1
            } else {
                cap as nat
            }),
    {
        let room: usize = if cap == 0 {
            1
        } else {
            cap
        };
        Dedup { seen: new_cache(room) }
    }

    /// Remember a message. Whether it was not remembered before.
    pub fn check_and_insert(&mut self, chat: ChatId, msg_id: i32) -> (r: bool)
        ensures
            r == !old(self).recent().contains((chat.0, msg_id)),
            final(self).recent() == after_use(
                old(self).recent(),
                old(self).room(),
                (chat.0, msg_id),
            ),
            final(self).room() == old(self).room(),
            old(self).well_formed() ==> final(self).well_formed(),
    {
        proof {
            if self.well_formed() {
                lemma_room_kept(self.recent(), self.room(), (chat.0, msg_id));
            }
        }
        put(&mut self.seen, (chat.0, msg_id)).is_none()
    }
}

/// What is remembered after several messages.
pub open spec fn after_uses(keys: Seq<(i64, i32)>, room: nat, used: Seq<(i64, i32)>) -> Seq<
    (i64, i32),
>
    decreases used.len(),
{
    if used.len() == 0 {
        keys
    } else {
        after_use(after_uses(keys, room, used.drop_last()), room, used.last())
    }
}

/// Never more is remembered than there is room for, and nothing twice.
pub proof fn lemma_room_kept(keys: Seq<(i64, i32)>, room: nat, key: (i64, i32))
    requires
        room > 0,
        keys.len() <= room,
        keys.no_duplicates(),
    ensures
        after_use(keys, room, key).len() <= room,
        after_use(keys, room, key).no_duplicates(),
        after_use(keys, room, key).last() == key,
{
    let q = after_use(keys, room, key);
    if keys.contains(key) {
        let at = keys.index_of(key);
        let rest = keys.remove(at);
        assert(keys[at] == key);
        assert forall|i: int, j: int| 0 <= i < q.len() && 0 <= j < q.len() && i != j implies q[i]
            != q[j] by {
            let a = if i < at { i } else { i + 1 };
            let b = if j < at { j } else { j + 1 };
            assert(i < rest.len() ==> rest[i] == keys[a]);
            assert(j < rest.len() ==> rest[j] == keys[b]);
        }
    } else {
        assert forall|i: int, j: int| 0 <= i < q.len() && 0 <= j < q.len() && i != j implies q[i]
            != q[j] by {
            let shift: int = if keys.len() == room { 1 } else { 0 };
            assert(i < q.len() - 1 ==> q[i] == keys[i + shift]);
            assert(j < q.len() - 1 ==> q[j] == keys[j + shift]);
            assert(i < q.len() - 1 ==> keys.contains(keys[i + shift]));
            assert(j < q.len() - 1 ==> keys.contains(keys[j + shift]));
        }
    }
}

/// `key` is remembered, with at most `n` messages that were seen later.
spec fn remembered_within(keys: Seq<(i64, i32)>, key: (i64, i32), n: int) -> bool {
    exists|i: int| 0 <= i < keys.len() && #[trigger] keys[i] == key && keys.len() - 1 - i <= n
}

proof fn lemma_still_remembered(keys: Seq<(i64, i32)>, room: nat, key: (i64, i32), other: (i64, i32), n: int)
    requires
        room > 0,
        keys.len() <= room,
        keys.no_duplicates(),
        remembered_within(keys, key, n),
        0 <= n < room - 1,
    ensures
        remembered_within(after_use(keys, room, other), key, n + 1),
{
    let q = after_use(keys, room, other);
    let i = choose|i: int| 0 <= i < keys.len() && #[trigger] keys[i] == key && keys.len() - 1 - i <= n;
    if other == key {
        lemma_room_kept(keys, room, other);
        assert(q[q.len() - 1] == key);
    } else if keys.contains(other) {
        let at = keys.index_of(other);
        assert(keys[at] == other);
        let p = if i < at { i } else { i - 1 };
        assert(q[p] == key);
    } else if keys.len() == room {
        assert(q[i - 1] == key);
    } else {
        assert(q[i] == key);
    }
}

/// A message that was seen is remembered for as long as fewer other messages than there
/// is room for have come after it.
pub proof fn lemma_remembered(
    keys: Seq<(i64, i32)>,
    room: nat,
    key: (i64, i32),
    later: Seq<(i64, i32)>,
)
    requires
        room > 0,
        keys.len() <= room,
        keys.no_duplicates(),
        later.len() < room,
    ensures
        after_uses(after_use(keys, room, key), room, later).contains(key),
        after_uses(after_use(keys, room, key), room, later).len() <= room,
        after_uses(after_use(keys, room, key), room, later).no_duplicates(),
{
    lemma_remembered_within(keys, room, key, later);
    let q = after_uses(after_use(keys, room, key), room, later);
    let i = choose|i: int|
        0 <= i < q.len() && #[trigger] q[i] == key && q.len() - 1 - i <= later.len();
    assert(q[i] == key);
}

proof fn lemma_remembered_within(
    keys: Seq<(i64, i32)>,
    room: nat,
    key: (i64, i32),
    later: Seq<(i64, i32)>,
)
    requires
        room > 0,
        keys.len() <= room,
        keys.no_duplicates(),
        later.len() < room,
    ensures
        remembered_within(
            after_uses(after_use(keys, room, key), room, later),
            key,
            later.len() as int,
        ),
        after_uses(after_use(keys, room, key), room, later).len() <= room,
        after_uses(after_use(keys, room, key), room, later).no_duplicates(),
    decreases later.len(),
{
    let first = after_use(keys, room, key);
    lemma_room_kept(keys, room, key);
    if later.len() == 0 {
        assert(first[first.len() - 1] == key);
    } else {
        let init = later.drop_last();
        lemma_remembered_within(keys, room, key, init);
        let mid = after_uses(first, room, init);
        lemma_room_kept(mid, room, later.last());
        lemma_still_remembered(mid, room, key, later.last(), init.len() as int);
    }
}

/// Seeing a message makes no other message count as seen, and takes away at most the one that
/// was seen the longest time ago, and that one only where there is no room.
pub proof fn lemma_others_stay(
    keys: Seq<(i64, i32)>,
    room: nat,
    key: (i64, i32),
    other: (i64, i32),
)
    requires
        room > 0,
        keys.len() <= room,
        keys.no_duplicates(),
        other != key,
    ensures
        after_use(keys, room, key).contains(other) ==> keys.contains(other),
        keys.contains(other) && (keys.contains(key) || keys.len() < room || keys[0] != other)
            ==> after_use(keys, room, key).contains(other),
{
    let after = after_use(keys, room, key);
    if keys.contains(key) {
        let at = keys.index_of(key);
        assert(0 <= at < keys.len() && keys[at] == key);
        let rest = keys.remove(at);
        if after.contains(other) {
            let i = choose|i: int| 0 <= i < after.len() && after[i] == other;
            assert(i < rest.len());
            let k = if i < at {
                i
            } else {
                i + 1
            };
            assert(keys[k] == other);
        }
        if keys.contains(other) {
            let i = choose|i: int| 0 <= i < keys.len() && keys[i] == other;
            let k = if i < at {
                i
            } else {
                i - 1
            };
            assert(after[k] == other);
        }
    } else if keys.len() == room {
        if after.contains(other) {
            let i = choose|i: int| 0 <= i < after.len() && after[i] == other;
            assert(keys[i + 1] == other);
        }
        if keys.contains(other) && keys[0] != other {
            let i = choose|i: int| 0 <= i < keys.len() && keys[i] == other;
            assert(after[i - 1] == other);
        }
    } else {
        if after.contains(other) {
            let i = choose|i: int| 0 <= i < after.len() && after[i] == other;
            assert(keys[i] == other);
        }
        if keys.contains(other) {
            let i = choose|i: int| 0 <= i < keys.len() && keys[i] == other;
            assert(after[i] == other);
        }
    }
}

} // verus!
