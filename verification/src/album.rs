//! Media posts: one message for all the files of an album, to every target once.

use vstd::prelude::*;
use vstd::string::*;

use crate::config::MediaMode;
use crate::deliver;
use crate::media;
use crate::media::{MediaItem, MediaTarget};
use crate::reactions::Reactions;
use crate::refresh;
use crate::render;
use crate::render::{Embed, EmbedMeta, RelayText};
use crate::store;
use crate::store::NewRecord;
use crate::telegram;
use crate::text;

verus! {

/// What stands in the place of files that a target does not get.
pub open spec fn notice_for(mode: MediaMode, any_oversized: bool) -> Seq<char> {
    if mode == MediaMode::Reupload && any_oversized {
        "[media too large to relay]"@
    } else {
        "[media]"@
    }
}

/// The notice for a target that gets no file.
pub fn media_notice_text(mode: MediaMode, any_oversized: bool) -> (r: &'static str)
    ensures
        r@ == notice_for(mode, any_oversized),
{
    match mode {
        MediaMode::Placeholder => "[media]",
        MediaMode::Reupload => if any_oversized {
            "[media too large to relay]"
        } else {
            "[media]"
        },
    }
}

/// A caption with a notice below it; a blank caption leaves the notice alone.
pub fn media_notice_body(caption: &str, notice: &str) -> (r: String)
    ensures
        r@ == telegram::combined(caption@, notice@),
{
    telegram::combine_body(caption, notice)
}

/// The name that a message is posted under.
pub open spec fn name_shown(sender: Option<Seq<char>>, route: Seq<char>) -> Seq<char> {
    match sender {
        Some(s) if s.len() > 0 => s,
        _ => route,
    }
}

/// The name that a message is posted under: the sender of the source, else the route.
pub fn display_name(sender: Option<&str>, route_name: &str) -> (r: String)
    ensures
        r@ == name_shown(
            match sender {
                Some(s) => Some(s@),
                None => None,
            },
            route_name@,
        ),
{
    match sender {
        Some(s) => if s.is_empty() {
            route_name.to_owned()
        } else {
            s.to_owned()
        },
        None => route_name.to_owned(),
    }
}

/// The position of the last dot.
pub open spec fn last_dot(s: Seq<char>) -> Option<int>
    decreases s.len(),
{
    if s.len() == 0 {
        None
    } else if s.last() == '.' {
        Some(s.len() - 1)
    } else {
        last_dot(s.drop_last())
    }
}

/// A file name made different by the number of a message, before the extension.
pub open spec fn disambiguated(name: Seq<char>, msg_id: i32) -> Seq<char> {
    match last_dot(name) {
        Some(i) => name.take(i) + "_"@ + text::decimal(msg_id as int) + "."@ + name.skip(i + 1),
        None => name + "_"@ + text::decimal(msg_id as int),
    }
}

/// Make a file name different by the number of a message; the extension stays.
pub fn disambiguate_filename(name: &str, msg_id: i32) -> (r: String)
    ensures
        r@ == disambiguated(name@, msg_id),
{
    let v: Vec<char> = text::chars_of(name);
    let mut i: usize = v.len();
    assert(v@.take(v@.len() as int) =~= v@);
    while i > 0 && v[i - 1] != '.'
        invariant
            v@ == name@,
            i <= v@.len(),
            last_dot(name@) == last_dot(v@.take(i as int)),
        decreases i,
    {
        assert(v@.take(i as int).last() == v@[i - 1]);
        assert(v@.take(i as int).drop_last() =~= v@.take(i - 1));
        i = i - 1;
    }
    if i == 0 {
        let mut out: String = name.to_owned();
        out.append("_");
        text::push_int(&mut out, msg_id as i64);
        out
    } else {
        assert(v@.take(i as int).last() == v@[i - 1]);
        let mut out: String = text::text_between(&v, 0, i - 1);
        out.append("_");
        text::push_int(&mut out, msg_id as i64);
        out.append(".");
        out.append(text::text_between(&v, i, v.len()).as_str());
        assert(v@.subrange(0, i - 1) =~= name@.take(i - 1));
        assert(v@.subrange(i as int, v@.len() as int) =~= name@.skip(i as int));
        out
    }
}

/// How much longer than a name the longest of those is that are taken.
pub open spec fn room_above(taken: Seq<Seq<char>>, name: Seq<char>) -> nat {
    if name.len() <= text::longest(taken) {
        (text::longest(taken) + 1 - name.len()) as nat
    } else {
        0
    }
}

/// A name that is not taken: the name itself, or else the name made different by the number
/// of its message, as often as it takes.
pub open spec fn free_name(taken: Seq<Seq<char>>, name: Seq<char>, msg_id: i32) -> Seq<char>
    decreases room_above(taken, name),
{
    if taken.contains(name) {
        proof {
            text::lemma_longest(taken, name);
            lemma_disambiguated_longer(name, msg_id);
        }
        free_name(taken, disambiguated(name, msg_id), msg_id)
    } else {
        name
    }
}

/// A name that was made different is longer.
pub proof fn lemma_disambiguated_longer(name: Seq<char>, msg_id: i32)
    ensures
        disambiguated(name, msg_id).len() > name.len(),
{
    reveal_strlit("_");
    reveal_strlit(".");
    lemma_last_dot(name);
}

/// Find a name for a file that is not taken.
pub fn free_filename(taken: &Vec<String>, name: &str, msg_id: i32) -> (r: String)
    ensures
        r@ == free_name(taken.deep_view(), name@, msg_id),
        !taken.deep_view().contains(r@),
{
    let mut cur: String = name.to_owned();
    while deliver::listed(taken, cur.as_str())
        invariant
            free_name(taken.deep_view(), cur@, msg_id) == free_name(
                taken.deep_view(),
                name@,
                msg_id,
            ),
        decreases room_above(taken.deep_view(), cur@),
    {
        proof {
            text::lemma_longest(taken.deep_view(), cur@);
            lemma_disambiguated_longer(cur@, msg_id);
        }
        cur = disambiguate_filename(cur.as_str(), msg_id);
    }
    cur
}

/// Files with their names, and the messages that they are of.
#[verifier::ext_equal]
pub struct FilesView {
    pub files: Seq<(Seq<char>, Seq<u8>)>,
    pub ids: Seq<i32>,
    pub names: Seq<Seq<char>>,
}

/// The file of one more item: each message brings one file, and a name that is taken is
/// made different.
pub open spec fn with_file(st: FilesView, item: media::MediaItemView) -> FilesView {
    match item.file {
        None => st,
        Some(f) => if st.ids.contains(item.msg_id) {
            st
        } else {
            let name = free_name(st.names, f.0, item.msg_id);
            FilesView {
                files: st.files.push((name, f.1)),
                ids: st.ids.push(item.msg_id),
                names: st.names.push(name),
            }
        },
    }
}

/// The files of some items.
pub open spec fn files_of(items: Seq<media::MediaItemView>) -> FilesView
    decreases items.len(),
{
    if items.len() == 0 {
        FilesView { files: Seq::empty(), ids: Seq::empty(), names: Seq::empty() }
    } else {
        with_file(files_of(items.drop_last()), items.last())
    }
}

/// A webhook is among some targets.
pub open spec fn targets_webhook(targets: Seq<media::MediaTargetView>, webhook: Seq<char>) -> bool {
    exists|i: int| 0 <= i < targets.len() && (#[trigger] targets[i]).webhook == webhook
}

/// Targets with further ones behind them, as far as their webhooks are new.
pub open spec fn with_targets(
    targets: Seq<media::MediaTargetView>,
    more: Seq<media::MediaTargetView>,
) -> Seq<media::MediaTargetView>
    decreases more.len(),
{
    if more.len() == 0 {
        targets
    } else {
        let before = with_targets(targets, more.drop_last());
        if targets_webhook(before, more.last().webhook) {
            before
        } else {
            before.push(more.last())
        }
    }
}

/// The targets of some items, each webhook once.
pub open spec fn targets_of(items: Seq<media::MediaItemView>) -> Seq<media::MediaTargetView>
    decreases items.len(),
{
    if items.len() == 0 {
        Seq::empty()
    } else {
        with_targets(targets_of(items.drop_last()), items.last().targets)
    }
}

/// The first item with a caption, or the number of items.
pub open spec fn captioned(items: Seq<media::MediaItemView>) -> int
    decreases items.len(),
{
    if items.len() == 0 {
        0
    } else if !text::is_blank(items[0].caption) {
        0
    } else {
        1 + captioned(items.skip(1))
    }
}

/// A media post: everything of it but where it goes.
pub struct MediaPost {
    pub chat_id: i64,
    /// The message that stands for the whole post: the one with the caption.
    pub anchor_msg_id: i32,
    pub title: String,
    pub caption: String,
    pub deep_link: Option<String>,
    pub sender: Option<String>,
    pub reactions: Reactions,
    pub comment_count: i32,
    /// When the source was published.
    pub timestamp: Option<String>,
    pub files: Vec<(String, Vec<u8>)>,
    /// Whether some file was too large.
    pub any_oversized: bool,
}

#[verifier::ext_equal]
pub struct MediaPostView {
    pub chat_id: i64,
    pub anchor_msg_id: i32,
    pub title: Seq<char>,
    pub caption: Seq<char>,
    pub deep_link: Option<Seq<char>>,
    pub sender: Option<Seq<char>>,
    pub reactions: Seq<(Seq<char>, i32)>,
    pub comment_count: i32,
    pub timestamp: Option<Seq<char>>,
    pub files: Seq<(Seq<char>, Seq<u8>)>,
    pub any_oversized: bool,
}

impl DeepView for MediaPost {
    type V = MediaPostView;

    open spec fn deep_view(&self) -> MediaPostView {
        MediaPostView {
            chat_id: self.chat_id,
            anchor_msg_id: self.anchor_msg_id,
            title: self.title@,
            caption: self.caption@,
            deep_link: self.deep_link.deep_view(),
            sender: self.sender.deep_view(),
            reactions: self.reactions.deep_view(),
            comment_count: self.comment_count,
            timestamp: self.timestamp.deep_view(),
            files: self.files.deep_view(),
            any_oversized: self.any_oversized,
        }
    }
}

/// An album as one post, with all its targets.
pub struct CoalescedAlbum {
    pub post: MediaPost,
    pub targets: Vec<MediaTarget>,
}

pub struct CoalescedAlbumView {
    pub post: MediaPostView,
    pub targets: Seq<media::MediaTargetView>,
}

impl DeepView for CoalescedAlbum {
    type V = CoalescedAlbumView;

    open spec fn deep_view(&self) -> CoalescedAlbumView {
        CoalescedAlbumView { post: self.post.deep_view(), targets: self.targets.deep_view() }
    }
}

/// Items in the order of their messages as one post. The item with the caption stands for
/// the post; where none has one, the first does.
pub open spec fn album_of(items: Seq<media::MediaItemView>) -> CoalescedAlbumView {
    let at = captioned(items);
    let anchor = if at < items.len() {
        items[at]
    } else {
        items[0]
    };
    CoalescedAlbumView {
        post: MediaPostView {
            chat_id: items[0].chat,
            anchor_msg_id: anchor.msg_id,
            title: items[0].title,
            caption: if at < items.len() {
                anchor.caption
            } else {
                Seq::empty()
            },
            deep_link: anchor.deep_link,
            sender: items[0].sender,
            reactions: Seq::empty(),
            comment_count: 0,
            timestamp: Some(anchor.date),
            files: files_of(items).files,
            any_oversized: exists|i: int| 0 <= i < items.len() && (#[trigger] items[i]).oversized,
        },
        targets: targets_of(items),
    }
}

proof fn lemma_captioned(items: Seq<media::MediaItemView>, n: int)
    requires
        0 <= n <= items.len(),
        forall|j: int| 0 <= j < n ==> text::is_blank((#[trigger] items[j]).caption),
        n == items.len() || !text::is_blank(items[n].caption),
    ensures
        captioned(items) == n,
    decreases n,
{
    if n > 0 {
        let rest = items.skip(1);
        assert(text::is_blank(items[0].caption));
        assert forall|j: int| 0 <= j < n - 1 implies text::is_blank((#[trigger] rest[j]).caption) by {
            assert(rest[j] == items[j + 1]);
        }
        assert(n < items.len() ==> rest[n - 1] == items[n]);
        lemma_captioned(rest, n - 1);
    }
}

fn copy_bytes(b: &Vec<u8>) -> (r: Vec<u8>)
    ensures
        r.deep_view() == b.deep_view(),
{
    let r: Vec<u8> = b.clone();
    assert(r.deep_view() =~= b.deep_view());
    r
}

fn has_id(ids: &Vec<i32>, x: i32) -> (r: bool)
    ensures
        r == ids@.contains(x),
{
    let mut i: usize = 0;
    while i < ids.len()
        invariant
            i <= ids@.len(),
            forall|j: int| 0 <= j < i ==> #[trigger] ids@[j] != x,
        decreases ids@.len() - i,
    {
        if ids[i] == x {
            return true;
        }
        i = i + 1;
    }
    false
}

fn collect_files(items: &Vec<MediaItem>) -> (r: Vec<(String, Vec<u8>)>)
    ensures
        r.deep_view() == files_of(items.deep_view()).files,
{
    let ghost all = items.deep_view();
    let mut files: Vec<(String, Vec<u8>)> = Vec::new();
    let mut ids: Vec<i32> = Vec::new();
    let mut names: Vec<String> = Vec::new();
    let mut i: usize = 0;
    assert(all.take(0) =~= Seq::<media::MediaItemView>::empty());
    assert(files.deep_view() =~= Seq::<(Seq<char>, Seq<u8>)>::empty());
    assert(names.deep_view() =~= Seq::<Seq<char>>::empty());
    while i < items.len()
        invariant
            all == items.deep_view(),
            i <= all.len(),
            files_of(all.take(i as int)) == (FilesView {
                files: files.deep_view(),
                ids: ids@,
                names: names.deep_view(),
            }),
        decreases all.len() - i,
    {
        let ghost fs = files.deep_view();
        let ghost ns = names.deep_view();
        let item: &MediaItem = &items[i];
        assert(all.take(i + 1).drop_last() =~= all.take(i as int));
        assert(all.take(i + 1).last() == item.deep_view());
        match &item.file {
            None => {},
            Some(f) => {
                if !has_id(&ids, item.msg_id) {
                    let name: String = free_filename(&names, f.0.as_str(), item.msg_id);
                    ids.push(item.msg_id);
                    names.push(name.clone());
                    assert(names.deep_view() =~= ns.push(name@));
                    let bytes: Vec<u8> = copy_bytes(&f.1);
                    files.push((name, bytes));
                    assert(files.deep_view() =~= fs.push((name@, f.1.deep_view())));
                }
            },
        }
        i = i + 1;
    }
    assert(all.take(all.len() as int) =~= all);
    files
}

fn webhook_targeted(targets: &Vec<MediaTarget>, webhook: &str) -> (r: bool)
    ensures
        r == targets_webhook(targets.deep_view(), webhook@),
{
    let ghost all = targets.deep_view();
    let mut i: usize = 0;
    while i < targets.len()
        invariant
            all == targets.deep_view(),
            i <= all.len(),
            forall|j: int| 0 <= j < i ==> (#[trigger] all[j]).webhook != webhook@,
        decreases all.len() - i,
    {
        assert(all[i as int] == targets@[i as int].deep_view());
        if text::same_text(targets[i].webhook.0.as_str(), webhook) {
            return true;
        }
        i = i + 1;
    }
    false
}

/// Add targets as far as their webhooks are new.
pub fn add_targets(targets: &mut Vec<MediaTarget>, more: &Vec<MediaTarget>)
    ensures
        final(targets).deep_view() == with_targets(old(targets).deep_view(), more.deep_view()),
{
    let ghost before = targets.deep_view();
    let ghost all = more.deep_view();
    let mut i: usize = 0;
    assert(all.take(0) =~= Seq::<media::MediaTargetView>::empty());
    while i < more.len()
        invariant
            all == more.deep_view(),
            i <= all.len(),
            targets.deep_view() == with_targets(before, all.take(i as int)),
        decreases all.len() - i,
    {
        let ghost now = targets.deep_view();
        assert(all.take(i + 1).drop_last() =~= all.take(i as int));
        assert(all.take(i + 1).last() == more@[i as int].deep_view());
        if !webhook_targeted(targets, more[i].webhook.0.as_str()) {
            targets.push(more[i].clone());
            assert(targets.deep_view() =~= now.push(more@[i as int].deep_view()));
        }
        i = i + 1;
    }
    assert(all.take(all.len() as int) =~= all);
}

/// Make one post of the items of an album; nothing of no items.
pub fn coalesce_album(batch: Vec<MediaItem>) -> (r: Option<CoalescedAlbum>)
    ensures
        match r {
            Some(a) => {
                &&& batch@.len() > 0
                &&& a.deep_view() == album_of(media::sorted_by_id(batch.deep_view()))
            },
            None => batch@.len() == 0,
        },
{
    let mut items: Vec<MediaItem> = batch;
    proof {
        media::lemma_sorted_by_id(items.deep_view());
    }
    media::sort_album_batch(&mut items);
    if items.len() == 0 {
        assert(items.deep_view().len() == 0);
        return None;
    }
    let ghost all = items.deep_view();
    assert(all.len() == items@.len());
    let files: Vec<(String, Vec<u8>)> = collect_files(&items);
    let mut any_oversized: bool = false;
    let mut targets: Vec<MediaTarget> = Vec::new();
    let mut i: usize = 0;
    assert(all.take(0) =~= Seq::<media::MediaItemView>::empty());
    assert(targets.deep_view() =~= Seq::<media::MediaTargetView>::empty());
    while i < items.len()
        invariant
            all == items.deep_view(),
            i <= all.len(),
            any_oversized <==> exists|j: int| 0 <= j < i && (#[trigger] all[j]).oversized,
            targets.deep_view() == targets_of(all.take(i as int)),
        decreases all.len() - i,
    {
        assert(all[i as int] == items@[i as int].deep_view());
        assert(all.take(i + 1).drop_last() =~= all.take(i as int));
        assert(all.take(i + 1).last() == all[i as int]);
        if items[i].oversized {
            any_oversized = true;
            assert(all[i as int].oversized);
        }
        add_targets(&mut targets, &items[i].targets);
        i = i + 1;
    }
    assert(all.take(all.len() as int) =~= all);
    let mut at: usize = 0;
    while at < items.len() && text::blank(items[at].caption.as_str())
        invariant
            all == items.deep_view(),
            at <= all.len(),
            forall|j: int| 0 <= j < at ==> text::is_blank((#[trigger] all[j]).caption),
        decreases all.len() - at,
    {
        assert(all[at as int] == items@[at as int].deep_view());
        at = at + 1;
    }
    proof {
        assert(at < all.len() ==> all[at as int] == items@[at as int].deep_view());
        lemma_captioned(all, at as int);
        assert(all[0] == items@[0].deep_view());
    }
    let found: bool = at < items.len();
    let anchor: &MediaItem = if found {
        &items[at]
    } else {
        &items[0]
    };
    let caption: String = if found {
        anchor.caption.clone()
    } else {
        String::new()
    };
    let post: MediaPost = MediaPost {
        chat_id: items[0].chat.0,
        anchor_msg_id: anchor.msg_id,
        title: items[0].title.clone(),
        caption,
        deep_link: anchor.deep_link.clone(),
        sender: items[0].sender.clone(),
        reactions: Reactions::new(),
        comment_count: 0,
        timestamp: Some(anchor.date.clone()),
        files,
        any_oversized,
    };
    assert(post.deep_view() =~= album_of(all).post);
    Some(CoalescedAlbum { post, targets })
}

/// Every webhook is among the targets once.
pub open spec fn distinct_targets(targets: Seq<media::MediaTargetView>) -> bool {
    forall|i: int, j: int|
        #![trigger targets[i], targets[j]]
        0 <= i < j < targets.len() ==> targets[i].webhook != targets[j].webhook
}

/// Targets that are added come behind those that were there, and are among the added ones.
pub proof fn lemma_with_targets_from(
    targets: Seq<media::MediaTargetView>,
    more: Seq<media::MediaTargetView>,
    k: int,
)
    requires
        0 <= k < with_targets(targets, more).len(),
    ensures
        k < targets.len() ==> with_targets(targets, more)[k] == targets[k],
        k >= targets.len() ==> more.contains(with_targets(targets, more)[k]),
    decreases more.len(),
{
    if more.len() > 0 {
        let init = more.drop_last();
        let before = with_targets(targets, init);
        assert(more[more.len() - 1] == more.last());
        if k < before.len() {
            lemma_with_targets_from(targets, init, k);
            if k >= targets.len() {
                let j = choose|j: int| 0 <= j < init.len() && init[j] == before[k];
                assert(more[j] == before[k]);
            }
        } else {
            lemma_with_targets_len(targets, init);
        }
    }
}

proof fn lemma_with_targets_len(
    targets: Seq<media::MediaTargetView>,
    more: Seq<media::MediaTargetView>,
)
    ensures
        with_targets(targets, more).len() >= targets.len(),
    decreases more.len(),
{
    if more.len() > 0 {
        lemma_with_targets_len(targets, more.drop_last());
    }
}

/// Adding targets keeps every webhook once, keeps those that are there, and leaves out no
/// webhook of the added ones.
pub proof fn lemma_with_targets(
    targets: Seq<media::MediaTargetView>,
    more: Seq<media::MediaTargetView>,
    webhook: Seq<char>,
)
    ensures
        distinct_targets(targets) ==> distinct_targets(with_targets(targets, more)),
        targets_webhook(with_targets(targets, more), webhook) <==> targets_webhook(
            targets,
            webhook,
        ) || targets_webhook(more, webhook),
    decreases more.len(),
{
    if more.len() > 0 {
        let init = more.drop_last();
        lemma_with_targets(targets, init, webhook);
        let before = with_targets(targets, init);
        let q = with_targets(targets, more);
        let x = more.last();
        assert(more[more.len() - 1] == x);
        if targets_webhook(more, webhook) {
            let i = choose|i: int| 0 <= i < more.len() && (#[trigger] more[i]).webhook == webhook;
            if i < init.len() {
                assert(init[i].webhook == webhook);
            }
        }
        if targets_webhook(init, webhook) {
            let i = choose|i: int| 0 <= i < init.len() && (#[trigger] init[i]).webhook == webhook;
            assert(more[i].webhook == webhook);
        }
        if !targets_webhook(before, x.webhook) {
            assert(q[before.len() as int] == x);
            if targets_webhook(before, webhook) {
                let i = choose|i: int|
                    0 <= i < before.len() && (#[trigger] before[i]).webhook == webhook;
                assert(q[i].webhook == webhook);
            }
            if targets_webhook(q, webhook) {
                let i = choose|i: int| 0 <= i < q.len() && (#[trigger] q[i]).webhook == webhook;
                if i < before.len() {
                    assert(before[i].webhook == webhook);
                }
            }
            if distinct_targets(targets) {
                assert forall|i: int, j: int|
                    #![trigger q[i], q[j]]
                    0 <= i < j < q.len() implies q[i].webhook != q[j].webhook by {
                    if j < before.len() {
                        assert(before[i].webhook != before[j].webhook);
                    } else {
                        assert(before[i].webhook == q[i].webhook);
                    }
                }
            }
        }
    }
}

/// An album goes to every webhook that one of its items is meant for, and to each once.
pub proof fn lemma_album_targets(items: Seq<media::MediaItemView>, webhook: Seq<char>)
    ensures
        distinct_targets(targets_of(items)),
        targets_webhook(targets_of(items), webhook) <==> exists|i: int|
            0 <= i < items.len() && targets_webhook((#[trigger] items[i]).targets, webhook),
    decreases items.len(),
{
    if items.len() > 0 {
        let init = items.drop_last();
        lemma_album_targets(init, webhook);
        lemma_with_targets(targets_of(init), items.last().targets, webhook);
        assert(items[items.len() - 1] == items.last());
        if exists|i: int| 0 <= i < items.len() && targets_webhook((#[trigger] items[i]).targets, webhook) {
            let i = choose|i: int|
                0 <= i < items.len() && targets_webhook((#[trigger] items[i]).targets, webhook);
            if i < init.len() {
                assert(init[i] == items[i]);
            }
        }
        if exists|i: int| 0 <= i < init.len() && targets_webhook((#[trigger] init[i]).targets, webhook) {
            let i = choose|i: int|
                0 <= i < init.len() && targets_webhook((#[trigger] init[i]).targets, webhook);
            assert(items[i] == init[i]);
        }
    }
}

/// The files of a target are attached.
pub open spec fn attaches(post: MediaPostView, target: media::MediaTargetView) -> bool {
    target.mode == MediaMode::Reupload && post.files.len() > 0
}

/// Whether the files are attached for a target: it wants them, and there are some.
pub fn attaches_files(post: &MediaPost, target: &MediaTarget) -> (r: bool)
    ensures
        r == attaches(post.deep_view(), target.deep_view()),
{
    matches!(target.mode, MediaMode::Reupload) && post.files.len() > 0
}

/// The text that a target gets: the caption, with a notice of everything that is left out.
pub open spec fn media_text(post: MediaPostView, target: media::MediaTargetView) -> render::RelayTextView {
    render::RelayTextView {
        sender: None,
        body: if attaches(post, target) {
            if post.any_oversized {
                telegram::combined(post.caption, "⚠️ some files were too large to relay"@)
            } else {
                post.caption
            }
        } else {
            telegram::combined(post.caption, notice_for(target.mode, post.any_oversized))
        },
        reply_quote: None,
        edited: false,
    }
}

/// What stands beside it; the colour is that of the route.
pub open spec fn media_meta(post: MediaPostView, target: media::MediaTargetView) -> render::EmbedMetaView {
    render::EmbedMetaView {
        title: post.title,
        avatar_url: None,
        deep_link: post.deep_link,
        reactions: post.reactions,
        comment_count: post.comment_count,
        deleted: false,
        color: target.color,
        timestamp: post.timestamp,
    }
}

/// References to the images among some files, in their order.
pub open spec fn image_refs(files: Seq<(Seq<char>, Seq<u8>)>) -> Seq<Seq<char>>
    decreases files.len(),
{
    if files.len() == 0 {
        Seq::empty()
    } else if render::image_name(files.last().0) {
        image_refs(files.drop_last()).push(render::attachment_ref(files.last().0))
    } else {
        image_refs(files.drop_last())
    }
}

/// The embeds that a target gets. Attached images are shown inside of them.
pub open spec fn media_embeds_of(
    post: MediaPostView,
    target: media::MediaTargetView,
    footer: Seq<char>,
) -> Seq<render::EmbedView> {
    let embeds = render::embeds_of(media_text(post, target), media_meta(post, target), footer);
    if attaches(post, target) {
        render::with_images(embeds, image_refs(post.files), post.deep_link)
    } else {
        embeds
    }
}

fn image_names(files: &Vec<(String, Vec<u8>)>) -> (r: Vec<String>)
    ensures
        r.deep_view() == image_refs(files.deep_view()),
{
    let ghost all = files.deep_view();
    let mut out: Vec<String> = Vec::new();
    let mut i: usize = 0;
    assert(all.take(0) =~= Seq::<(Seq<char>, Seq<u8>)>::empty());
    assert(out.deep_view() =~= Seq::<Seq<char>>::empty());
    while i < files.len()
        invariant
            all == files.deep_view(),
            i <= all.len(),
            out.deep_view() == image_refs(all.take(i as int)),
        decreases all.len() - i,
    {
        let ghost now = out.deep_view();
        assert(all.take(i + 1).drop_last() =~= all.take(i as int));
        assert(all.take(i + 1).last().0 == files@[i as int].0@);
        if render::is_image_filename(files[i].0.as_str()) {
            let mut image: String = "attachment://".to_owned();
            image.append(files[i].0.as_str());
            out.push(image);
            assert(out.deep_view() =~= now.push(render::attachment_ref(files@[i as int].0@)));
        }
        i = i + 1;
    }
    assert(all.take(all.len() as int) =~= all);
    out
}

/// Build the embeds that a target gets, with a given footer.
pub fn media_embeds_with_footer(post: &MediaPost, target: &MediaTarget, footer: &str) -> (r: Vec<
    Embed,
>)
    ensures
        r.deep_view() == media_embeds_of(post.deep_view(), target.deep_view(), footer@),
{
    let with_files: bool = attaches_files(post, target);
    let body: String = if with_files {
        if post.any_oversized {
            media_notice_body(post.caption.as_str(), "⚠️ some files were too large to relay")
        } else {
            post.caption.clone()
        }
    } else {
        media_notice_body(
            post.caption.as_str(),
            media_notice_text(target.mode, post.any_oversized),
        )
    };
    let said: RelayText = RelayText { sender: None, body, reply_quote: None, edited: false };
    let meta: EmbedMeta = EmbedMeta {
        title: post.title.clone(),
        avatar_url: None,
        deep_link: post.deep_link.clone(),
        reactions: post.reactions.clone(),
        comment_count: post.comment_count,
        deleted: false,
        color: target.color,
        timestamp: post.timestamp.clone(),
    };
    assert(said.deep_view() == media_text(post.deep_view(), target.deep_view()));
    assert(meta.deep_view() == media_meta(post.deep_view(), target.deep_view()));
    let mut embeds: Vec<Embed> = render::embed_with_footer(&said, &meta, footer);
    if with_files {
        let images: Vec<String> = image_names(&post.files);
        let gallery: Option<&str> = match &post.deep_link {
            Some(l) => Some(l.as_str()),
            None => None,
        };
        render::attach_image_urls(&mut embeds, &images, gallery);
    }
    embeds
}

/// Build the embeds that a target gets, with a footer out of the list.
pub fn media_embeds(post: &MediaPost, target: &MediaTarget) -> (r: Vec<Embed>)
    ensures
        exists|i: int|
            0 <= i < render::FOOTERS@.len() && r.deep_view() == media_embeds_of(
                post.deep_view(),
                target.deep_view(),
                (#[trigger] render::FOOTERS@[i])@,
            ),
{
    let footer: &'static str = render::footer_variant();
    media_embeds_with_footer(post, target, footer)
}

/// What is recorded of a media post that was delivered to a target. The hash is that of
/// the caption alone, since that is what a later look at the source sees.
pub open spec fn media_record_of(
    post: MediaPostView,
    target: media::MediaTargetView,
    discord_msg_id: Seq<char>,
    image_urls: Seq<Seq<char>>,
    latency_ms: Option<i64>,
) -> store::NewRecordView {
    store::NewRecordView {
        chat_id: post.chat_id,
        tg_msg_id: post.anchor_msg_id,
        route: target.route,
        webhook_name: target.webhook,
        discord_msg_id,
        content_hash: refresh::content_hash_of(post.caption),
        reactions: post.reactions,
        comment_count: post.comment_count,
        latency_ms,
        image_urls,
    }
}

/// What is recorded of a media post that was delivered to a target.
pub fn media_record(
    post: &MediaPost,
    target: &MediaTarget,
    discord_msg_id: String,
    image_urls: Vec<String>,
    latency_ms: Option<i64>,
) -> (r: NewRecord)
    ensures
        r.deep_view() == media_record_of(
            post.deep_view(),
            target.deep_view(),
            discord_msg_id@,
            image_urls.deep_view(),
            latency_ms,
        ),
{
    NewRecord {
        chat_id: post.chat_id,
        tg_msg_id: post.anchor_msg_id,
        route: target.route.clone(),
        webhook_name: target.webhook.0.clone(),
        discord_msg_id,
        content_hash: refresh::content_hash(post.caption.as_str()),
        reactions: post.reactions.clone(),
        comment_count: post.comment_count,
        latency_ms,
        image_urls,
    }
}

/// A media post that was delivered under a new message id is passed over from then on by the
/// webhook that got it, whichever way it comes again.
pub proof fn lemma_delivered_post_is_passed_over(
    rows: Seq<store::RowView>,
    post: MediaPostView,
    target: media::MediaTargetView,
    discord_msg_id: Seq<char>,
    image_urls: Seq<Seq<char>>,
    latency_ms: Option<i64>,
    now: i64,
)
    requires
        !store::is_recorded(
            rows,
            media_record_of(post, target, discord_msg_id, image_urls, latency_ms),
        ),
    ensures
        store::relayed(
            store::recorded(
                rows,
                media_record_of(post, target, discord_msg_id, image_urls, latency_ms),
                now,
            ),
            post.chat_id,
            post.anchor_msg_id,
            target.webhook,
        ),
{
    store::lemma_recorded_is_relayed(
        rows,
        media_record_of(post, target, discord_msg_id, image_urls, latency_ms),
        now,
        post.chat_id,
        post.anchor_msg_id,
        target.webhook,
    );
}

/// A delivered post shows no change when its source is fetched again as it was.
pub proof fn lemma_fresh_post_is_unchanged(
    post: MediaPostView,
    target: media::MediaTargetView,
    discord_msg_id: Seq<char>,
    image_urls: Seq<Seq<char>>,
    latency_ms: Option<i64>,
    now: i64,
    f: refresh::FetchedPostView,
)
    requires
        f.body == post.caption,
        f.reactions == post.reactions,
        f.comment_count is None || f.comment_count == Some(post.comment_count),
    ensures
        refresh::change_of(
            store::message_of(
                store::new_row(
                    media_record_of(post, target, discord_msg_id, image_urls, latency_ms),
                    now,
                ),
            ),
            Some(f),
        ) is Unchanged,
{
}

proof fn lemma_decimal_digits(n: nat)
    ensures
        text::nat_decimal(n).len() > 0,
        forall|i: int|
            0 <= i < text::nat_decimal(n).len() ==> text::is_digit(
                #[trigger] text::nat_decimal(n)[i],
            ),
        n >= 10 ==> text::nat_decimal(n).len() > 1,
    decreases n,
{
    if n >= 10 {
        lemma_decimal_digits(n / 10);
    }
}

proof fn lemma_nat_decimal_injective(a: nat, b: nat)
    requires
        text::nat_decimal(a) == text::nat_decimal(b),
    ensures
        a == b,
    decreases a,
{
    lemma_decimal_digits(a);
    lemma_decimal_digits(b);
    let x = text::nat_decimal(a);
    let y = text::nat_decimal(b);
    assert(x.last() == text::digit_char((a % 10) as int));
    assert(y.last() == text::digit_char((b % 10) as int));
    assert(a % 10 == b % 10);
    if a >= 10 {
        assert(b >= 10);
        assert(x.drop_last() =~= text::nat_decimal(a / 10));
        assert(y.drop_last() =~= text::nat_decimal(b / 10));
        lemma_nat_decimal_injective(a / 10, b / 10);
    }
}

proof fn lemma_decimal_injective(a: int, b: int)
    requires
        text::decimal(a) == text::decimal(b),
    ensures
        a == b,
{
    let x = text::decimal(a);
    let y = text::decimal(b);
    if a < 0 {
        lemma_decimal_digits((-a) as nat);
        assert(x[0] == '-');
        if b < 0 {
            lemma_decimal_digits((-b) as nat);
            assert(x.skip(1) =~= text::nat_decimal((-a) as nat));
            assert(y.skip(1) =~= text::nat_decimal((-b) as nat));
            lemma_nat_decimal_injective((-a) as nat, (-b) as nat);
        } else {
            lemma_decimal_digits(b as nat);
            assert(text::is_digit(y[0]));
        }
    } else {
        lemma_decimal_digits(a as nat);
        assert(text::is_digit(x[0]));
        if b < 0 {
            assert(y[0] == '-');
        } else {
            lemma_nat_decimal_injective(a as nat, b as nat);
        }
    }
}

/// A text has one last occurrence of a character: what follows it is fixed.
proof fn lemma_after_last(a: Seq<char>, b: Seq<char>, x: Seq<char>, y: Seq<char>, c: char)
    requires
        a + seq![c] + b == x + seq![c] + y,
        !b.contains(c),
        !y.contains(c),
    ensures
        a == x,
        b == y,
{
    let s = a + seq![c] + b;
    let t = x + seq![c] + y;
    assert(s[a.len() as int] == c);
    assert(t[x.len() as int] == c);
    if a.len() < x.len() {
        let k = x.len() - a.len() - 1;
        assert(s.len() == t.len());
        assert(a.len() + seq![c].len() + k == x.len());
        assert(0 <= k < b.len());
        assert(s[(a + seq![c]).len() + k] == b[k]);
        assert(t[x.len() as int] == b[k]);
        assert(b.contains(c));
    } else if x.len() < a.len() {
        let k = a.len() - x.len() - 1;
        assert(s.len() == t.len());
        assert(0 <= k < y.len());
        assert(t[(x + seq![c]).len() + k] == y[k]);
        assert(s[a.len() as int] == y[k]);
        assert(y.contains(c));
    }
    assert(a.len() == x.len());
    assert(s.take(a.len() as int) =~= a);
    assert(t.take(x.len() as int) =~= x);
    assert(s.skip(a.len() as int + 1) =~= b);
    assert(t.skip(x.len() as int + 1) =~= y);
}

proof fn lemma_last_dot(s: Seq<char>)
    ensures
        match last_dot(s) {
            Some(i) => 0 <= i < s.len() && s[i] == '.' && !s.skip(i + 1).contains('.'),
            None => !s.contains('.'),
        },
    decreases s.len(),
{
    if s.len() > 0 && s.last() != '.' {
        let init = s.drop_last();
        lemma_last_dot(init);
        match last_dot(init) {
            Some(i) => {
                let rest = s.skip(i + 1);
                if rest.contains('.') {
                    let k = choose|k: int| 0 <= k < rest.len() && rest[k] == '.';
                    assert(s[i + 1 + k] == '.');
                    assert(init.skip(i + 1)[k] == '.');
                }
            },
            None => {
                if s.contains('.') {
                    let k = choose|k: int| 0 <= k < s.len() && s[k] == '.';
                    assert(init[k] == '.');
                }
            },
        }
    }
}

proof fn lemma_decimal_plain(n: int)
    ensures
        !text::decimal(n).contains('_'),
        !text::decimal(n).contains('.'),
{
    let s = text::decimal(n);
    lemma_decimal_digits(if n < 0 { (-n) as nat } else { n as nat });
    assert forall|k: int| 0 <= k < s.len() implies s[k] != '_' && s[k] != '.' by {
        if n < 0 {
            if k > 0 {
                assert(s[k] == text::nat_decimal((-n) as nat)[k - 1]);
                assert(text::is_digit(text::nat_decimal((-n) as nat)[k - 1]));
            }
        } else {
            assert(text::is_digit(text::nat_decimal(n as nat)[k]));
        }
    }
}

/// Names made different by different messages differ.
pub proof fn lemma_disambiguated_differ(a: Seq<char>, i: i32, b: Seq<char>, j: i32)
    requires
        i != j,
    ensures
        disambiguated(a, i) != disambiguated(b, j),
{
    reveal_strlit("_");
    reveal_strlit(".");
    assert("_"@ =~= seq!['_']);
    assert("."@ =~= seq!['.']);
    lemma_last_dot(a);
    lemma_last_dot(b);
    lemma_decimal_plain(i as int);
    lemma_decimal_plain(j as int);
    let di = text::decimal(i as int);
    let dj = text::decimal(j as int);
    let x = disambiguated(a, i);
    let y = disambiguated(b, j);
    if x == y {
        match (last_dot(a), last_dot(b)) {
            (Some(p), Some(q)) => {
                let ha = a.take(p) + seq!['_'] + di;
                let hb = b.take(q) + seq!['_'] + dj;
                lemma_after_last(ha, a.skip(p + 1), hb, b.skip(q + 1), '.');
                lemma_after_last(a.take(p), di, b.take(q), dj, '_');
            },
            (None, None) => {
                lemma_after_last(a, di, b, dj, '_');
            },
            (Some(p), None) => {
                let k = p + 1 + di.len();
                assert(x[k] == '.');
                lemma_no_dot_in_joined(b, dj);
                assert(y.contains('.'));
            },
            (None, Some(q)) => {
                let k = q + 1 + dj.len();
                assert(y[k] == '.');
                lemma_no_dot_in_joined(a, di);
                assert(x.contains('.'));
            },
        }
        lemma_decimal_injective(i as int, j as int);
    }
}

proof fn lemma_no_dot_in_joined(a: Seq<char>, d: Seq<char>)
    requires
        !a.contains('.'),
        !d.contains('.'),
    ensures
        !(a + seq!['_'] + d).contains('.'),
{
    let s = a + seq!['_'] + d;
    if s.contains('.') {
        let k = choose|k: int| 0 <= k < s.len() && s[k] == '.';
        if k < a.len() {
            assert(a[k] == '.');
        } else if k > a.len() {
            assert(d[k - a.len() - 1] == '.');
        }
    }
}

/// The names of some files are all different.
pub open spec fn distinct_files(files: Seq<(Seq<char>, Seq<u8>)>) -> bool {
    forall|i: int, j: int|
        #![trigger files[i], files[j]]
        0 <= i < j < files.len() ==> files[i].0 != files[j].0
}

/// What follows the last dot of a name.
pub open spec fn extension(name: Seq<char>) -> Option<Seq<char>> {
    match last_dot(name) {
        Some(i) => Some(name.skip(i + 1)),
        None => None,
    }
}

proof fn lemma_last_dot_is(s: Seq<char>, i: int)
    requires
        0 <= i < s.len(),
        s[i] == '.',
        !s.skip(i + 1).contains('.'),
    ensures
        last_dot(s) == Some(i),
    decreases s.len(),
{
    let n = s.len() - 1;
    if i < n {
        if s.last() == '.' {
            assert(s.skip(i + 1)[n - i - 1] == '.');
        }
        let init = s.drop_last();
        let tail = init.skip(i + 1);
        if tail.contains('.') {
            let k = choose|k: int| 0 <= k < tail.len() && tail[k] == '.';
            assert(s.skip(i + 1)[k] == '.');
        }
        lemma_last_dot_is(init, i);
    }
}

/// A name that was made different has the same extension.
pub proof fn lemma_extension_stays(name: Seq<char>, msg_id: i32)
    ensures
        extension(disambiguated(name, msg_id)) == extension(name),
{
    reveal_strlit("_");
    reveal_strlit(".");
    assert("_"@ =~= seq!['_']);
    assert("."@ =~= seq!['.']);
    lemma_last_dot(name);
    lemma_decimal_plain(msg_id as int);
    let d = text::decimal(msg_id as int);
    let q = disambiguated(name, msg_id);
    match last_dot(name) {
        Some(i) => {
            let at = i + 1 + d.len();
            assert(q[at] == '.');
            assert(q.skip(at + 1) =~= name.skip(i + 1));
            lemma_last_dot_is(q, at);
        },
        None => {
            lemma_no_dot_in_joined(name, d);
            lemma_last_dot(q);
            if let Some(i) = last_dot(q) {
                assert(q.contains('.'));
            }
        },
    }
}

proof fn lemma_free_name(taken: Seq<Seq<char>>, name: Seq<char>, msg_id: i32)
    ensures
        !taken.contains(free_name(taken, name, msg_id)),
        extension(free_name(taken, name, msg_id)) == extension(name),
    decreases room_above(taken, name),
{
    if taken.contains(name) {
        text::lemma_longest(taken, name);
        lemma_disambiguated_longer(name, msg_id);
        lemma_free_name(taken, disambiguated(name, msg_id), msg_id);
        lemma_extension_stays(name, msg_id);
    }
}

/// The names that are taken are those of the files, and all different.
spec fn files_ok(st: FilesView) -> bool {
    &&& st.files.len() == st.names.len()
    &&& forall|k: int| 0 <= k < st.files.len() ==> (#[trigger] st.files[k]).0 == st.names[k]
    &&& distinct_files(st.files)
}

/// A file is that of an item, under a name with the same extension.
pub open spec fn file_from(file: (Seq<char>, Seq<u8>), item: media::MediaItemView) -> bool {
    match item.file {
        Some(f) => file.1 == f.1 && extension(file.0) == extension(f.0),
        None => false,
    }
}

/// The files of an album have different names, so that references to attached files say
/// which one is meant; and each keeps the extension that it came with.
pub proof fn lemma_file_names_differ(items: Seq<media::MediaItemView>)
    ensures
        distinct_files(files_of(items).files),
        forall|k: int|
            0 <= k < files_of(items).files.len() ==> exists|i: int|
                0 <= i < items.len() && file_from(
                    #[trigger] files_of(items).files[k],
                    #[trigger] items[i],
                ),
{
    lemma_files_ok(items);
    assert forall|k: int| 0 <= k < files_of(items).files.len() implies exists|i: int|
        0 <= i < items.len() && file_from(
            #[trigger] files_of(items).files[k],
            #[trigger] items[i],
        ) by {
        lemma_file_origin(items, k);
    }
}

proof fn lemma_files_ok(items: Seq<media::MediaItemView>)
    ensures
        files_ok(files_of(items)),
    decreases items.len(),
{
    if items.len() > 0 {
        let init = items.drop_last();
        let x = items.last();
        lemma_files_ok(init);
        let before = files_of(init);
        let st = files_of(items);
        let n = before.files.len() as int;
        if let Some(f) = x.file {
            if !before.ids.contains(x.msg_id) {
                lemma_free_name(before.names, f.0, x.msg_id);
                assert forall|i: int, j: int|
                    #![trigger st.files[i], st.files[j]]
                    0 <= i < j < st.files.len() implies st.files[i].0 != st.files[j].0 by {
                    if j < n {
                        assert(before.files[i].0 != before.files[j].0);
                    } else {
                        assert(before.files[i].0 == before.names[i]);
                        assert(before.names.contains(before.names[i]));
                    }
                }
            }
        }
    }
}

proof fn lemma_file_origin(items: Seq<media::MediaItemView>, k: int)
    requires
        0 <= k < files_of(items).files.len(),
    ensures
        exists|i: int|
            0 <= i < items.len() && file_from(files_of(items).files[k], #[trigger] items[i]),
    decreases items.len(),
{
    let init = items.drop_last();
    let before = files_of(init);
    let last = items.len() - 1;
    if k < before.files.len() {
        lemma_file_origin(init, k);
        let i = choose|i: int|
            0 <= i < init.len() && file_from(before.files[k], #[trigger] init[i]);
        assert(items[i] == init[i]);
        assert(files_of(items).files[k] == before.files[k]);
    } else {
        let f = items.last().file->0;
        lemma_free_name(before.names, f.0, items.last().msg_id);
        assert(items[last] == items.last());
        assert(file_from(files_of(items).files[k], items[last]));
    }
}

/// The caption of a media post shows at every target. Where all its files are attached, it
/// is what the message says; where something is left out, a notice stands below it, and a
/// blank caption leaves the notice alone.
pub proof fn lemma_caption_shows(
    post: MediaPostView,
    target: media::MediaTargetView,
    footer: Seq<char>,
)
    ensures
        ({
            let said = render::all_said(media_embeds_of(post, target, footer));
            let attached = target.mode == MediaMode::Reupload && post.files.len() > 0;
            let whole = attached && !post.any_oversized;
            let notice = if attached {
                "⚠️ some files were too large to relay"@
            } else if target.mode == MediaMode::Reupload && post.any_oversized {
                "[media too large to relay]"@
            } else {
                "[media]"@
            };
            &&& whole && post.caption.len() > 0 ==> said == render::clipped(post.caption, 40960)
            &&& whole && post.caption.len() == 0 ==> said == seq!['\u{200b}']
            &&& !whole && text::is_blank(post.caption) ==> said == notice
            &&& !whole && !text::is_blank(post.caption) ==> said == render::clipped(
                post.caption + "\n"@ + notice,
                40960,
            )
        }),
{
    reveal_strlit("⚠️ some files were too large to relay");
    reveal_strlit("[media too large to relay]");
    reveal_strlit("[media]");
    reveal_strlit("\n");
    let said = media_text(post, target);
    let meta = media_meta(post, target);
    render::lemma_embeds(said, meta, footer);
    render::lemma_embeds_say_body(said, meta, footer);
    if attaches(post, target) {
        render::lemma_images_say_nothing(
            render::embeds_of(said, meta, footer),
            image_refs(post.files),
            post.deep_link,
        );
    }
}

/// A caption that fits into one embed is its description, where all files are attached; and
/// wherever a caption is not blank and fits, what the message says starts with it.
pub proof fn lemma_caption_stands_first(
    post: MediaPostView,
    target: media::MediaTargetView,
    footer: Seq<char>,
)
    ensures
        target.mode == MediaMode::Reupload && post.files.len() > 0 && !post.any_oversized && 0
            < post.caption.len() <= 4096 ==> media_embeds_of(post, target, footer)[0].description
            == Some(post.caption),
        !text::is_blank(post.caption) && post.caption.len() <= 40960 ==> {
            let said = render::all_said(media_embeds_of(post, target, footer));
            said.len() >= post.caption.len() && said.take(post.caption.len() as int)
                == post.caption
        },
{
    lemma_caption_shows(post, target, footer);
    let said = media_text(post, target);
    let meta = media_meta(post, target);
    if target.mode == MediaMode::Reupload && post.files.len() > 0 && !post.any_oversized && 0
        < post.caption.len() <= 4096 {
        render::lemma_short_body(said, meta, footer);
        render::lemma_images_shown(
            render::embeds_of(said, meta, footer),
            image_refs(post.files),
            post.deep_link,
        );
    }
    if !text::is_blank(post.caption) && post.caption.len() <= 40960 {
        let all = render::all_said(media_embeds_of(post, target, footer));
        assert(post.caption.len() > 0);
        assert(all.take(post.caption.len() as int) =~= post.caption);
    }
}

/// What stands around the caption: the title of the channel with the link to the source, in
/// the colour of the route; the figures, the link and the time of the source; and, where the
/// files are attached, the images among them in their order.
pub proof fn lemma_media_embeds(
    post: MediaPostView,
    target: media::MediaTargetView,
    footer: Seq<char>,
)
    ensures
        ({
            let r = media_embeds_of(post, target, footer);
            let stats = render::stats_of(post.reactions, post.comment_count);
            let attached = target.mode == MediaMode::Reupload && post.files.len() > 0;
            let images = post.files.filter(
                |f: (Seq<char>, Seq<u8>)| render::image_name(f.0),
            ).map_values(|f: (Seq<char>, Seq<u8>)| "attachment://"@ + f.0);
            &&& r.len() > 0
            &&& r[0].author == Some(
                render::EmbedAuthorView { name: post.title, url: post.deep_link, icon_url: None },
            )
            &&& r[0].color == Some(target.color)
            &&& exists|k: int|
                #[trigger] refresh::signed_with(
                    r,
                    footer,
                    stats,
                    post.deep_link,
                    post.timestamp,
                    k,
                ) && (attached ==> refresh::shows_images_from(r, images, k)) && (!attached
                    ==> forall|i: int| 0 <= i < r.len() ==> (#[trigger] r[i]).image is None)
        }),
{
    let said = media_text(post, target);
    let meta = media_meta(post, target);
    let base = render::embeds_of(said, meta, footer);
    let r = media_embeds_of(post, target, footer);
    let attached = attaches(post, target);
    let images = if attached {
        image_refs(post.files)
    } else {
        Seq::empty()
    };
    lemma_image_refs(post.files);
    render::lemma_embeds_carry(said, meta, footer);
    render::lemma_stripe_shows_state(said, meta, footer, 0);
    let k = refresh::lemma_signed(said, meta, images, post.deep_link, footer);
    assert(r == render::with_images(base, images, post.deep_link));
    let stats = render::stats_of(post.reactions, post.comment_count);
    assert(refresh::signed_with(r, footer, stats, post.deep_link, post.timestamp, k));
}

proof fn lemma_image_refs(files: Seq<(Seq<char>, Seq<u8>)>)
    ensures
        image_refs(files) == files.filter(
            |f: (Seq<char>, Seq<u8>)| render::image_name(f.0),
        ).map_values(|f: (Seq<char>, Seq<u8>)| "attachment://"@ + f.0),
    decreases files.len(),
{
    reveal(Seq::filter);
    let f = |f: (Seq<char>, Seq<u8>)| render::image_name(f.0);
    let g = |f: (Seq<char>, Seq<u8>)| "attachment://"@ + f.0;
    if files.len() > 0 {
        lemma_image_refs(files.drop_last());
    }
    assert(image_refs(files) =~= files.filter(f).map_values(g));
}

/// An album is posted under the first caption that is not blank, and the message that has it
/// stands for the album: it gives the number, the link and the time. Where there is none,
/// the first message stands for the album, and nothing is said. The channel and the sender
/// are those of the first message.
pub proof fn lemma_album_of(items: Seq<media::MediaItemView>, j: int)
    requires
        0 <= j < items.len(),
        (forall|i: int| 0 <= i < j ==> text::is_blank((#[trigger] items[i]).caption))
            && !text::is_blank(items[j].caption) || j == 0 && forall|i: int|
            0 <= i < items.len() ==> text::is_blank((#[trigger] items[i]).caption),
    ensures
        ({
            let post = album_of(items).post;
            &&& !text::is_blank(items[j].caption) ==> post.caption == items[j].caption
            &&& text::is_blank(items[j].caption) ==> post.caption.len() == 0
            &&& post.anchor_msg_id == items[j].msg_id
            &&& post.deep_link == items[j].deep_link
            &&& post.timestamp == Some(items[j].date)
            &&& post.chat_id == items[0].chat
            &&& post.title == items[0].title
            &&& post.sender == items[0].sender
            &&& post.reactions.len() == 0
            &&& post.comment_count == 0
            &&& post.any_oversized <==> exists|i: int|
                0 <= i < items.len() && (#[trigger] items[i]).oversized
        }),
{
    if !text::is_blank(items[j].caption) {
        lemma_captioned(items, j);
    } else {
        lemma_captioned(items, items.len() as int);
    }
}

/// The items bring one file for each message.
pub open spec fn one_file_each(items: Seq<media::MediaItemView>) -> bool {
    forall|i: int, j: int|
        #![trigger items[i], items[j]]
        0 <= i < j < items.len() ==> items[i].msg_id != items[j].msg_id
}

/// No file of an album gets lost: the files of all its messages are there, in the order of
/// the messages, each with its content.
pub proof fn lemma_album_files(items: Seq<media::MediaItemView>)
    requires
        one_file_each(items),
    ensures
        files_of(items).files.map_values(|f: (Seq<char>, Seq<u8>)| f.1) == items.filter(
            |i: media::MediaItemView| i.file is Some,
        ).map_values(|i: media::MediaItemView| (i.file->0).1),
        forall|x: i32|
            files_of(items).ids.contains(x) ==> exists|i: int|
                0 <= i < items.len() && (#[trigger] items[i]).msg_id == x,
    decreases items.len(),
{
    reveal(Seq::filter);
    let f = |i: media::MediaItemView| i.file is Some;
    let g = |i: media::MediaItemView| (i.file->0).1;
    let h = |f: (Seq<char>, Seq<u8>)| f.1;
    if items.len() > 0 {
        let init = items.drop_last();
        assert forall|i: int, j: int|
            #![trigger init[i], init[j]]
            0 <= i < j < init.len() implies init[i].msg_id != init[j].msg_id by {
            assert(items[i].msg_id != items[j].msg_id);
        }
        lemma_album_files(init);
        let st = files_of(init);
        let last = items.last();
        assert(items[items.len() - 1] == last);
        if st.ids.contains(last.msg_id) {
            let i = choose|i: int|
                0 <= i < init.len() && (#[trigger] init[i]).msg_id == last.msg_id;
            assert(items[i].msg_id != items[items.len() - 1].msg_id);
        }
        let had = st.files.map_values(h);
        assert(had == init.filter(f).map_values(g));
        match last.file {
            Some(file) => {
                let name = free_name(st.names, file.0, last.msg_id);
                assert(files_of(items).files == st.files.push((name, file.1)));
                assert(files_of(items).files.map_values(h) =~= had.push(file.1));
                assert(items.filter(f) == init.filter(f).push(last));
                assert(items.filter(f).map_values(g) =~= init.filter(f).map_values(g).push(file.1));
            },
            None => {},
        }
        assert forall|x: i32| files_of(items).ids.contains(x) implies exists|i: int|
            0 <= i < items.len() && (#[trigger] items[i]).msg_id == x by {
            if x != last.msg_id {
                let k = choose|k: int|
                    0 <= k < files_of(items).ids.len() && files_of(items).ids[k] == x;
                assert(st.ids[k] == x);
                assert(st.ids.contains(x));
                let i = choose|i: int| 0 <= i < init.len() && (#[trigger] init[i]).msg_id == x;
                assert(items[i].msg_id == x);
            }
        }
    }
    assert(files_of(items).files.map_values(h) =~= items.filter(f).map_values(g));
}

/// A file keeps its name where no earlier file of the album has it.
pub proof fn lemma_name_kept(taken: Seq<Seq<char>>, name: Seq<char>, msg_id: i32)
    requires
        !taken.contains(name),
    ensures
        free_name(taken, name, msg_id) == name,
{
}

/// A name that is taken is made different by the number of its message, which stands behind
/// an underscore before the extension, or at the end where there is no extension.
pub proof fn lemma_disambiguated(stem: Seq<char>, ext: Seq<char>, msg_id: i32)
    requires
        !ext.contains('.'),
    ensures
        disambiguated(stem + seq!['.'] + ext, msg_id) == stem + "_"@ + text::decimal(
            msg_id as int,
        ) + "."@ + ext,
        disambiguated(ext, msg_id) == ext + "_"@ + text::decimal(msg_id as int),
{
    let name = stem + seq!['.'] + ext;
    let n = stem.len() as int;
    assert(name.skip(n + 1) =~= ext);
    lemma_last_dot_is(name, n);
    assert(name.take(n) =~= stem);
    lemma_last_dot(ext);
    if let Some(i) = last_dot(ext) {
        assert(ext.contains('.'));
    }
}

/// Every target of an album is that of an item, as the item has it.
pub proof fn lemma_album_target_from(items: Seq<media::MediaItemView>, k: int)
    requires
        0 <= k < targets_of(items).len(),
    ensures
        exists|i: int|
            0 <= i < items.len() && (#[trigger] items[i]).targets.contains(targets_of(items)[k]),
    decreases items.len(),
{
    if items.len() > 0 {
        let init = items.drop_last();
        let before = targets_of(init);
        assert(items[items.len() - 1] == items.last());
        lemma_with_targets_from(before, items.last().targets, k);
        if k < before.len() {
            lemma_album_target_from(init, k);
            let i = choose|i: int|
                0 <= i < init.len() && (#[trigger] init[i]).targets.contains(before[k]);
            assert(items[i].targets.contains(targets_of(items)[k]));
        }
    }
}

/// What is recorded of a delivered media post: the message that stands for it, where it went
/// and by which route, the message that it became, and the caption alone as what it says.
pub proof fn lemma_media_record(
    post: MediaPostView,
    target: media::MediaTargetView,
    discord_msg_id: Seq<char>,
    image_urls: Seq<Seq<char>>,
    latency_ms: Option<i64>,
)
    ensures
        ({
            let r = media_record_of(post, target, discord_msg_id, image_urls, latency_ms);
            &&& r.chat_id == post.chat_id
            &&& r.tg_msg_id == post.anchor_msg_id
            &&& r.webhook_name == target.webhook
            &&& r.route == target.route
            &&& r.discord_msg_id == discord_msg_id
            &&& r.content_hash == refresh::content_hash_of(post.caption)
            &&& r.reactions == post.reactions
            &&& r.comment_count == post.comment_count
            &&& r.latency_ms == latency_ms
            &&& r.image_urls == image_urls
        }),
{
}

/// A message is posted under the name of the sender, and under that of the route where there
/// is no sender or the name is empty.
pub proof fn lemma_name_shown(sender: Option<Seq<char>>, route: Seq<char>)
    ensures
        sender is Some && sender->0.len() > 0 ==> name_shown(sender, route) == sender->0,
        sender is None || sender->0.len() == 0 ==> name_shown(sender, route) == route,
{
}

/// A name that is taken is made different once, where that is enough.
pub proof fn lemma_name_changed_once(taken: Seq<Seq<char>>, name: Seq<char>, msg_id: i32)
    requires
        taken.contains(name),
        !taken.contains(disambiguated(name, msg_id)),
    ensures
        free_name(taken, name, msg_id) == disambiguated(name, msg_id),
{
    text::lemma_longest(taken, name);
    lemma_disambiguated_longer(name, msg_id);
    reveal_with_fuel(free_name, 2);
}

/// The files of the items, as they came.
pub open spec fn own_files(items: Seq<media::MediaItemView>) -> Seq<(Seq<char>, Seq<u8>)> {
    items.filter(|i: media::MediaItemView| i.file is Some).map_values(
        |i: media::MediaItemView| i.file->0,
    )
}

/// Files that have different names keep them.
pub proof fn lemma_files_keep_names(items: Seq<media::MediaItemView>)
    requires
        one_file_each(items),
        distinct_files(own_files(items)),
    ensures
        files_of(items).files == own_files(items),
        files_of(items).names == own_files(items).map_values(|f: (Seq<char>, Seq<u8>)| f.0),
    decreases items.len(),
{
    reveal(Seq::filter);
    let g = |f: (Seq<char>, Seq<u8>)| f.0;
    let own = own_files(items);
    if items.len() > 0 {
        let init = items.drop_last();
        let last = items.last();
        let st = files_of(init);
        let had = own_files(init);
        assert forall|i: int, j: int|
            #![trigger init[i], init[j]]
            0 <= i < j < init.len() implies init[i].msg_id != init[j].msg_id by {
            assert(items[i].msg_id != items[j].msg_id);
        }
        match last.file {
            Some(file) => {
                assert(own =~= had.push(file));
                assert forall|i: int, j: int|
                    #![trigger had[i], had[j]]
                    0 <= i < j < had.len() implies had[i].0 != had[j].0 by {
                    assert(own[i].0 != own[j].0);
                }
                lemma_files_keep_names(init);
                lemma_album_files(init);
                assert(items[items.len() - 1] == last);
                if st.ids.contains(last.msg_id) {
                    let i = choose|i: int|
                        0 <= i < init.len() && (#[trigger] init[i]).msg_id == last.msg_id;
                    assert(items[i].msg_id != items[items.len() - 1].msg_id);
                }
                if st.names.contains(file.0) {
                    let k = choose|k: int| 0 <= k < st.names.len() && st.names[k] == file.0;
                    assert(own[k].0 != own[had.len() as int].0);
                }
                assert(own.map_values(g) =~= had.map_values(g).push(file.0));
            },
            None => {
                assert(own =~= had);
                lemma_files_keep_names(init);
            },
        }
    } else {
        assert(own.len() == 0);
        assert(files_of(items).files =~= own);
        assert(files_of(items).names =~= own.map_values(g));
    }
}

/// However often a message comes, it brings one file.
pub proof fn lemma_one_file_for_a_message(items: Seq<media::MediaItemView>)
    ensures
        files_of(items).ids.no_duplicates(),
        files_of(items).ids.len() == files_of(items).files.len(),
        forall|i: int|
            0 <= i < items.len() && (#[trigger] items[i]).file is Some ==> files_of(
                items,
            ).ids.contains(items[i].msg_id),
    decreases items.len(),
{
    if items.len() > 0 {
        let init = items.drop_last();
        let last = items.last();
        lemma_one_file_for_a_message(init);
        let before = files_of(init).ids;
        let ids = files_of(items).ids;
        assert forall|i: int| 0 <= i < items.len() && (#[trigger] items[i]).file is Some implies
            ids.contains(items[i].msg_id) by {
            if i < init.len() {
                assert(init[i] == items[i]);
                assert(before.contains(init[i].msg_id));
                let k = choose|k: int| 0 <= k < before.len() && before[k] == items[i].msg_id;
                assert(ids[k] == items[i].msg_id);
            } else {
                if !before.contains(last.msg_id) {
                    assert(ids[before.len() as int] == last.msg_id);
                }
            }
        }
    }
}

} // verus!
