use telegram_relay::album::{
    attaches_files, coalesce_album, disambiguate_filename, display_name, free_filename,
    media_embeds, media_embeds_with_footer, media_notice_body, media_notice_text, media_record, CoalescedAlbum,
};
use telegram_relay::config::{ChatId, MediaMode, WebhookName, WebhookUrl};
use telegram_relay::deliver::PostResult;
use telegram_relay::live::delivered_media;
use telegram_relay::media::{sort_album_batch, take_chunk, AlbumBuffer, MediaItem, MediaTarget};
use telegram_relay::refresh::content_hash;
use telegram_relay::render;
use telegram_relay::sending::{
    count_fates, fate_after, media_record_for, media_step, Counts, Fate, TargetStep,
};
use telegram_relay::store::Store;

const MS: u64 = 1_000_000;

fn fake_item(grouped_id: Option<i64>, msg_id: i32) -> MediaItem {
    MediaItem {
        grouped_id,
        msg_id,
        chat: ChatId(1),
        file: Some((format!("f{msg_id}.bin"), vec![0u8, 1, 2, 3])),
        oversized: false,
        caption: String::new(),
        deep_link: None,
        title: "tester".into(),
        sender: None,
        date: "2026-07-20T12:00:00Z".into(),
        targets: vec![MediaTarget {
            route: "r1".into(),
            webhook: WebhookName("hook".into()),
            url: WebhookUrl("https://example.invalid/webhook".into()),
            color: render::DEFAULT_EMBED_COLOR,
            mode: MediaMode::Reupload,
        }],
    }
}

#[test]
fn ungrouped_flushes_immediately() {
    let mut b = AlbumBuffer::new(1000 * MS);
    let out = b.push(fake_item(None, 1), 0);
    assert_eq!(out.map(|v| v.len()), Some(1));
}

#[test]
fn grouped_coalesces_within_window() {
    let mut b = AlbumBuffer::new(1000 * MS);
    assert!(b.push(fake_item(Some(7), 1), 0).is_none());
    assert!(b.push(fake_item(Some(7), 2), 0).is_none());
    let out = b.tick(1100 * MS);
    assert_eq!(out.map(|v| v.len()), Some(2));
}

#[test]
fn grouped_not_flushed_before_window() {
    let mut b = AlbumBuffer::new(1000 * MS);
    assert!(b.push(fake_item(Some(9), 1), 0).is_none());
    assert!(b.tick(500 * MS).is_none(), "should still be buffering");
    assert_eq!(b.pending_groups(), 1);
}

#[test]
fn late_sibling_resets_window() {
    let mut b = AlbumBuffer::new(1000 * MS);
    assert!(b.push(fake_item(Some(3), 1), 0).is_none());
    assert!(b.push(fake_item(Some(3), 2), 800 * MS).is_none());
    assert!(
        b.tick(1600 * MS).is_none(),
        "window should have reset on the late sibling"
    );
    let out = b.tick(2000 * MS);
    assert_eq!(out.map(|v| v.len()), Some(2));
}

#[test]
fn flush_all_returns_all_buffered_groups() {
    let mut b = AlbumBuffer::new(1000 * MS);
    assert!(b.push(fake_item(Some(1), 1), 0).is_none());
    assert!(b.push(fake_item(Some(1), 2), 0).is_none());
    assert!(b.push(fake_item(Some(2), 3), 0).is_none());
    assert_eq!(b.pending_groups(), 2);
    let mut batches = b.flush_all();
    batches.sort_by_key(|batch| batch.len());
    assert_eq!(batches.len(), 2);
    assert_eq!(batches[0].len(), 1);
    assert_eq!(batches[1].len(), 2);
    assert_eq!(b.pending_groups(), 0);
}

#[test]
fn multiple_groups_each_flush() {
    let mut b = AlbumBuffer::new(1000 * MS);
    b.push(fake_item(Some(1), 1), 0);
    b.push(fake_item(Some(2), 2), 0);
    let mut batches = Vec::new();
    while let Some(batch) = b.tick(1100 * MS) {
        batches.push(batch);
    }
    assert_eq!(batches.len(), 2);
    assert_eq!(b.pending_groups(), 0);
}

#[test]
fn what_goes_in_comes_out() {
    let mut b = AlbumBuffer::new(1000 * MS);
    let mut out: Vec<i32> = Vec::new();
    for i in 0..10 {
        let group = if i % 3 == 0 { None } else { Some((i % 3) as i64) };
        if let Some(batch) = b.push(fake_item(group, i), i as u64 * 400 * MS) {
            out.extend(batch.iter().map(|m| m.msg_id));
        }
        while let Some(batch) = b.tick(i as u64 * 400 * MS) {
            out.extend(batch.iter().map(|m| m.msg_id));
        }
    }
    for batch in b.flush_all() {
        out.extend(batch.iter().map(|m| m.msg_id));
    }
    out.sort();
    assert_eq!(out, (0..10).collect::<Vec<i32>>());
}

fn ids(batch: &[MediaItem]) -> Vec<i32> {
    batch.iter().map(|m| m.msg_id).collect()
}

#[test]
fn a_whole_run_releases_each_album_once_and_in_order() {
    let mut b = AlbumBuffer::new(1000 * MS);
    assert!(b.push(fake_item(Some(7), 2), 0).is_none());
    assert!(b.push(fake_item(Some(8), 3), 100 * MS).is_none());
    let alone = b.push(fake_item(None, 1), 200 * MS).unwrap();
    assert_eq!(ids(&alone), vec![1]);
    assert!(b.push(fake_item(Some(7), 4), 300 * MS).is_none());

    assert!(b.tick(1099 * MS).is_none());
    assert_eq!(ids(&b.tick(1100 * MS).unwrap()), vec![3]);
    assert!(b.tick(1299 * MS).is_none());
    assert_eq!(ids(&b.tick(1300 * MS).unwrap()), vec![2, 4]);
    assert!(b.tick(1300 * MS).is_none());

    assert!(b.push(fake_item(Some(7), 6), 1400 * MS).is_none());
    assert!(b.push(fake_item(Some(9), 8), 1500 * MS).is_none());
    assert!(b.push(fake_item(Some(7), 5), 1600 * MS).is_none());
    let rest: Vec<Vec<i32>> = b.flush_all().iter().map(|batch| ids(batch)).collect();
    assert_eq!(rest, vec![vec![6, 5], vec![8]]);
    assert_eq!(b.pending_groups(), 0);
    assert!(b.flush_all().is_empty());
}

#[test]
fn album_batch_sorts_by_msg_id() {
    let mut batch = vec![
        fake_item(Some(100), 3),
        fake_item(Some(100), 1),
        fake_item(Some(100), 2),
    ];
    sort_album_batch(&mut batch);
    assert_eq!(batch.len(), 3);
    assert_eq!(batch[0].msg_id, 1);
    assert_eq!(batch[1].msg_id, 2);
    assert_eq!(batch[2].msg_id, 3);
}

#[test]
fn disambiguate_filename_breaks_collisions_keeping_extension() {
    assert_eq!(disambiguate_filename("report.pdf", 42), "report_42.pdf");
    assert_eq!(disambiguate_filename("a.b.png", 7), "a.b_7.png");
    assert_eq!(disambiguate_filename("noext", 5), "noext_5");
    assert!(render::is_image_filename(&disambiguate_filename(
        "x.jpg", 9
    )));
}

fn doc_item(msg_id: i32, filename: &str) -> MediaItem {
    MediaItem {
        grouped_id: Some(99),
        msg_id,
        chat: ChatId(-100),
        file: Some((filename.to_string(), vec![1, 2, 3])),
        oversized: false,
        caption: String::new(),
        deep_link: None,
        title: "t".into(),
        sender: None,
        date: "2026-07-20T12:00:00Z".into(),
        targets: vec![MediaTarget {
            route: "r1".into(),
            webhook: WebhookName("h".into()),
            url: WebhookUrl("https://x/h".into()),
            color: render::DEFAULT_EMBED_COLOR,
            mode: MediaMode::Reupload,
        }],
    }
}

#[test]
fn same_named_documents_get_unique_filenames() {
    let batch = vec![doc_item(1, "report.pdf"), doc_item(2, "report.pdf")];
    let album = coalesce_album(batch).unwrap();
    let names: Vec<&str> = album.post.files.iter().map(|f| f.0.as_str()).collect();
    assert_eq!(names.len(), 2);
    assert_ne!(names[0], names[1], "filenames must be disambiguated");
    assert_eq!(names, vec!["report.pdf", "report_2.pdf"]);
}

fn media_item(msg_id: i32, caption: &str, hooks: &[&str]) -> MediaItem {
    MediaItem {
        grouped_id: Some(42),
        msg_id,
        chat: ChatId(-100),
        file: Some((
            format!("photo_{msg_id}.jpg"),
            format!("bytes-{msg_id}").into_bytes(),
        )),
        oversized: false,
        caption: caption.to_string(),
        deep_link: Some(format!("https://t.me/c/{msg_id}")),
        title: "Rob's Channel".into(),
        sender: None,
        date: format!("2026-07-20T12:00:{msg_id:02}Z"),
        targets: hooks
            .iter()
            .map(|h| MediaTarget {
                route: "r1".into(),
                webhook: WebhookName(h.to_string()),
                url: WebhookUrl(format!("https://discord.example/{h}")),
                color: render::DEFAULT_EMBED_COLOR,
                mode: MediaMode::Reupload,
            })
            .collect(),
    }
}

fn hook_names(album: &CoalescedAlbum) -> Vec<&str> {
    album.targets.iter().map(|t| t.webhook.0.as_str()).collect()
}

fn file_names(album: &CoalescedAlbum) -> Vec<String> {
    album.post.files.iter().map(|f| f.0.clone()).collect()
}

#[test]
fn dedups_files_by_msgid_and_unions_targets() {
    let batch = vec![
        media_item(101, "album caption", &["alpha", "beta"]),
        media_item(102, "", &["alpha", "beta"]),
    ];
    let album = coalesce_album(batch).expect("non-empty batch");
    assert_eq!(file_names(&album), vec!["photo_101.jpg", "photo_102.jpg"]);
    assert_eq!(hook_names(&album), vec!["alpha", "beta"]);
    assert_eq!(album.post.caption, "album caption");
    assert_eq!(album.post.anchor_msg_id, 101);
}

#[test]
fn orders_files_by_msgid_and_anchors_on_caption() {
    let batch = vec![
        media_item(203, "", &["alpha"]),
        media_item(201, "", &["alpha"]),
        media_item(202, "the caption", &["alpha"]),
    ];
    let album = coalesce_album(batch).expect("non-empty batch");
    assert_eq!(
        file_names(&album),
        vec!["photo_201.jpg", "photo_202.jpg", "photo_203.jpg"]
    );
    assert_eq!(album.post.anchor_msg_id, 202);
    assert_eq!(album.post.caption, "the caption");
}

#[test]
fn dedups_repeated_msgid_and_unions_split_targets() {
    let batch = vec![
        media_item(301, "cap", &["alpha"]),
        media_item(301, "cap", &["beta"]),
    ];
    let album = coalesce_album(batch).expect("non-empty batch");
    assert_eq!(album.post.files.len(), 1);
    assert_eq!(hook_names(&album), vec!["alpha", "beta"]);
}

#[test]
fn file_names_are_made_different_until_they_are_free() {
    let named = |id: i32, name: &str| {
        let mut item = media_item(id, "", &["alpha"]);
        item.file = Some((name.to_string(), vec![id as u8]));
        item
    };
    let album = coalesce_album(vec![
        named(1, "report_3.pdf"),
        named(2, "report.pdf"),
        named(3, "report.pdf"),
    ])
    .expect("non-empty batch");
    assert_eq!(
        file_names(&album),
        vec!["report_3.pdf", "report.pdf", "report_3_3.pdf"]
    );
    assert_eq!(album.post.files[2].1, vec![3]);
    let taken = vec!["a".to_string(), "a_7".to_string()];
    assert_eq!(free_filename(&taken, "a", 7), "a_7_7");
    assert_eq!(free_filename(&taken, "b", 7), "b");
}

#[test]
fn empty_batch_is_none() {
    assert!(coalesce_album(vec![]).is_none());
}

#[test]
fn coalesce_anchors_date_on_the_caption_bearing_member() {
    let batch = vec![
        media_item(103, "", &["alpha"]),
        media_item(102, "the caption", &["alpha"]),
        media_item(101, "", &["alpha"]),
    ];
    let album = coalesce_album(batch).expect("non-empty batch");
    assert_eq!(album.post.anchor_msg_id, 102);
    assert_eq!(
        album.post.timestamp.as_deref(),
        Some("2026-07-20T12:00:102Z")
    );
}

#[test]
fn coalesce_targets_preserve_route_color() {
    let mut a = media_item(101, "cap", &["alpha"]);
    a.targets[0].color = 0xFF8800;
    let album = coalesce_album(vec![a]).expect("non-empty batch");
    assert_eq!(album.targets[0].color, 0xFF8800);
}

#[test]
fn album_without_caption_is_anchored_on_the_first() {
    let album = coalesce_album(vec![
        media_item(8, " ", &["alpha"]),
        media_item(7, "", &["alpha"]),
    ])
    .unwrap();
    assert_eq!(album.post.anchor_msg_id, 7);
    assert_eq!(album.post.caption, "");
    assert_eq!(
        album.post.deep_link.as_deref(),
        Some("https://t.me/c/7")
    );
}

#[test]
fn notices_for_what_is_left_out() {
    assert_eq!(media_notice_text(MediaMode::Placeholder, true), "[media]");
    assert_eq!(
        media_notice_text(MediaMode::Reupload, true),
        "[media too large to relay]"
    );
    assert_eq!(media_notice_text(MediaMode::Reupload, false), "[media]");
    assert_eq!(media_notice_body("", "[media]"), "[media]");
    assert_eq!(media_notice_body("cap", "[media]"), "cap\n[media]");
}

#[test]
fn names_that_are_shown() {
    assert_eq!(display_name(Some("Rob"), "r1"), "Rob");
    assert_eq!(display_name(Some(""), "r1"), "r1");
    assert_eq!(display_name(None, "r1"), "r1");
}

#[test]
fn each_target_gets_what_its_mode_says() {
    let mut first = media_item(1, "cap", &["alpha", "beta"]);
    first.targets[1].mode = MediaMode::Placeholder;
    let mut large = media_item(2, "", &["alpha"]);
    large.file = None;
    large.oversized = true;
    let album = coalesce_album(vec![first, large]).unwrap();
    let (alpha, beta) = (&album.targets[0], &album.targets[1]);
    assert!(attaches_files(&album.post, alpha));
    assert!(!attaches_files(&album.post, beta));
    let e = media_embeds_with_footer(&album.post, alpha, "f");
    assert_eq!(
        e[0].description.as_deref(),
        Some("cap\n⚠️ some files were too large to relay")
    );
    assert_eq!(e[0].image.as_deref(), Some("attachment://photo_1.jpg"));
    let e = media_embeds_with_footer(&album.post, beta, "f");
    assert_eq!(e[0].description.as_deref(), Some("cap\n[media]"));
    assert_eq!(e[0].image, None);
    let any = media_embeds(&album.post, beta);
    assert_eq!(any[0].description.as_deref(), Some("cap\n[media]"));
}

#[test]
fn recorded_hash_is_that_of_the_caption() {
    let album = coalesce_album(vec![media_item(1, "cap", &["alpha"])]).unwrap();
    let r = media_record(
        &album.post,
        &album.targets[0],
        "d1".into(),
        vec!["u".into()],
        Some(12),
    );
    assert_eq!(r.content_hash, content_hash("cap"));
    assert_eq!(r.tg_msg_id, 1);
    assert_eq!(r.webhook_name, "alpha");
    assert_eq!(r.discord_msg_id, "d1");
    assert_eq!(r.latency_ms, Some(12));
    assert_eq!(r.image_urls, vec!["u".to_string()]);
}

#[test]
fn downloads_stop_at_the_limit() {
    let mut bytes = Vec::new();
    assert!(take_chunk(&mut bytes, &[1, 2, 3], 5).is_ok());
    assert!(take_chunk(&mut bytes, &[4, 5], 5).is_ok());
    assert_eq!(
        take_chunk(&mut bytes, &[6], 5),
        Err("media exceeded max_bytes (6 > 5) mid-download".to_string())
    );
    assert_eq!(bytes, vec![1, 2, 3, 4, 5, 6]);
}

#[test]
fn media_latency_counts_only_what_came_live() {
    let mut item = media_item(1, "cap", &["alpha"]);
    item.date = "2021-01-01T00:00:00Z".into();
    let album = coalesce_album(vec![item]).expect("non-empty batch");
    let id = ((1_609_459_200_240u64 - 1_420_070_400_000) << 22).to_string();
    let target = &album.targets[0];
    let live = delivered_media(&album.post, target, id.clone(), vec![], true);
    assert_eq!(live.latency_ms, Some(240));
    let late = delivered_media(&album.post, target, id, vec![], false);
    assert_eq!(late.latency_ms, None);
}

#[test]
fn a_second_delivery_sends_nothing() {
    let mut batch = vec![media_item(101, "cap", &["alpha", "beta", "gamma"])];
    batch[0].targets[1].mode = MediaMode::Placeholder;
    let album = coalesce_album(batch).expect("non-empty batch");
    let mut store = Store::new();
    let deliver = |store: &mut Store| -> Counts {
        let mut fates = Vec::new();
        for (i, t) in album.targets.iter().enumerate() {
            match media_step(&album.post, t, store) {
                TargetStep::Skip => fates.push(Fate::Skipped),
                TargetStep::Post { attach } => {
                    assert_eq!(attach, t.mode == MediaMode::Reupload);
                    let result = PostResult::Delivered {
                        discord_msg_id: format!("90{i}"),
                        image_urls: vec!["u".into()],
                    };
                    fates.push(fate_after(&result));
                    if let Some(r) = media_record_for(&album.post, t, result, true) {
                        store.record(r, 5);
                    }
                }
            }
        }
        count_fates(&fates)
    };
    let counts = |posted, dropped, skipped| Counts {
        posted,
        dropped,
        skipped,
    };
    assert_eq!(deliver(&mut store), counts(3, 0, 0));
    let rows = store.count();
    assert_eq!(deliver(&mut store), counts(0, 0, 3));
    assert_eq!(store.count(), rows);
    assert!(store.already_relayed(-100, 101, "beta"));
    assert_eq!(store.all_rows()[0].content_hash, content_hash("cap"));
    assert_eq!(store.all_rows()[0].image_urls, vec!["u"]);
}

#[test]
fn dropped_targets_are_tried_again() {
    let album = coalesce_album(vec![media_item(7, "cap", &["alpha"])]).expect("non-empty batch");
    let target = &album.targets[0];
    let dropped = PostResult::Dropped {
        reason: "no".into(),
    };
    assert_eq!(fate_after(&dropped), Fate::Dropped);
    assert!(media_record_for(&album.post, target, dropped, true).is_none());
    assert_eq!(
        media_step(&album.post, target, &Store::new()),
        TargetStep::Post { attach: true }
    );
    let c = count_fates(&vec![Fate::Dropped, Fate::Skipped, Fate::Dropped]);
    assert_eq!((c.posted, c.dropped, c.skipped), (0, 2, 1));
}
