use telegram_relay::config::{RefreshCfg, WebhookUrl};
use telegram_relay::names::NameMap;
use telegram_relay::reactions::Reactions;
use telegram_relay::refresh::{
    apply_to_store, base_tick_secs, batch_ids, color_for, content_hash, decide_refresh, diff,
    effective_comment_count, extract_reactions, find_slot, note_batch, parse_attachment_url,
    patch_for, patch_with_footer, plan_tick, row_step, timing_fits, to_fetched, FetchedPost,
    ReactionKind, RefreshAction, RouteColors, RowStep, Source,
};
use telegram_relay::render::DEFAULT_EMBED_COLOR;
use telegram_relay::store::{NewRecord, Store, TrackedMsg};

fn map(pairs: &[(&str, i32)]) -> Reactions {
    let mut r = Reactions::new();
    for (k, v) in pairs {
        r.set(k, *v);
    }
    r
}

fn stored(body: &str, reactions: &[(&str, i32)], comments: i32) -> TrackedMsg {
    TrackedMsg {
        chat_id: 1,
        tg_msg_id: 5,
        route: "r1".into(),
        webhook_name: "hook".into(),
        discord_msg_id: "d1".into(),
        content_hash: content_hash(body),
        reactions: map(reactions),
        comment_count: comments,
        posted_at: 0,
        last_checked: 0,
        edited: false,
        image_urls: Vec::new(),
    }
}

fn fetched(body: &str, reactions: &[(&str, i32)], comments: i32) -> FetchedPost {
    FetchedPost {
        title: "Chan".into(),
        body: body.into(),
        deep_link: Some("https://t.me/c/5".into()),
        reactions: map(reactions),
        comment_count: Some(comments),
        date: Some("2026-07-20T12:00:00Z".into()),
    }
}

fn fetched_unknown_comments(body: &str, reactions: &[(&str, i32)]) -> FetchedPost {
    FetchedPost {
        comment_count: None,
        ..fetched(body, reactions, 0)
    }
}

#[test]
fn diff_none_when_unchanged() {
    let t = stored("hello", &[("❤️", 3)], 2);
    let f = fetched("hello", &[("❤️", 3)], 2);
    assert_eq!(diff(&t, Some(&f)), RefreshAction::Unchanged);
}

#[test]
fn diff_deleted_when_missing() {
    let t = stored("hello", &[], 0);
    assert_eq!(diff(&t, None), RefreshAction::Deleted);
}

#[test]
fn diff_edited_when_body_changes() {
    let t = stored("hello", &[("❤️", 3)], 2);
    let f = fetched("hello world", &[("❤️", 3)], 2);
    assert_eq!(diff(&t, Some(&f)), RefreshAction::Edited);
}

#[test]
fn diff_stats_when_reactions_or_comments_change() {
    let t = stored("hello", &[("❤️", 3)], 2);
    assert_eq!(
        diff(&t, Some(&fetched("hello", &[("❤️", 9)], 2))),
        RefreshAction::StatsChanged
    );
    assert_eq!(
        diff(&t, Some(&fetched("hello", &[("❤️", 3)], 7))),
        RefreshAction::StatsChanged
    );
}

#[test]
fn edit_takes_precedence_over_stats() {
    let t = stored("hello", &[("❤️", 3)], 2);
    let f = fetched("changed", &[("🔥", 1)], 9);
    assert_eq!(diff(&t, Some(&f)), RefreshAction::Edited);
}

#[test]
fn content_hash_is_stable_and_distinct() {
    assert_eq!(content_hash("abc"), content_hash("abc"));
    assert_ne!(content_hash("abc"), content_hash("abd"));
}

#[test]
fn content_hash_is_fnv1a() {
    assert_eq!(content_hash(""), "cbf29ce484222325");
    assert_eq!(content_hash("a"), "af63dc4c8601ec8c");
}

fn cadence_cfg() -> RefreshCfg {
    RefreshCfg::default()
}

#[test]
fn early_reaction_checkpoint_fires_at_one_minute() {
    let cfg = cadence_cfg();
    let d = decide_refresh(60, 60, 0, &cfg);
    assert!(d.fetch, "the +1min reaction check must fire");
    assert!(d.allow_stats);
}

#[test]
fn no_fetch_between_checkpoints() {
    let cfg = cadence_cfg();
    let d = decide_refresh(120, 60, 60, &cfg);
    assert!(!d.fetch, "should not poll Telegram between checkpoints");
}

#[test]
fn interval_checkpoint_fires_at_thirty_minutes() {
    let cfg = cadence_cfg();
    let d = decide_refresh(1800, 1800 - 60, 60, &cfg);
    assert!(d.fetch);
    assert!(d.allow_stats);
}

#[test]
fn reaction_horizon_checkpoint_fires_at_sixty_minutes() {
    let cfg = cadence_cfg();
    let d = decide_refresh(3600, 1800, 1800, &cfg);
    assert!(d.fetch);
    assert!(d.allow_stats, "age == horizon is still inside the horizon");
}

#[test]
fn past_reaction_horizon_still_checks_edits_but_freezes_stats() {
    let cfg = cadence_cfg();
    let d = decide_refresh(5400, 1800, 3600, &cfg);
    assert!(d.fetch, "edits/deletes still checked every 30 min");
    assert!(!d.allow_stats, "reactions frozen past the 1h horizon");
}

#[test]
fn edit_cadence_recurs_every_interval_far_past_reaction_horizon() {
    let cfg = cadence_cfg();
    let age = 10 * 3600;
    let d = decide_refresh(age, 1800, age - 1800, &cfg);
    assert!(d.fetch);
    assert!(!d.allow_stats);
    let d2 = decide_refresh(age, 1799, age - 1799, &cfg);
    assert!(!d2.fetch);
}

#[test]
fn allow_stats_boundary_is_inclusive() {
    let cfg = cadence_cfg();
    assert!(decide_refresh(3600, 3600, 0, &cfg).allow_stats);
    assert!(!decide_refresh(3601, 3601, 0, &cfg).allow_stats);
}

#[test]
fn each_reaction_checkpoint_fires_at_most_once() {
    let cfg = cadence_cfg();
    let d = decide_refresh(65, 4, 61, &cfg);
    assert!(!d.fetch, "a consumed checkpoint must not re-fire");
}

#[test]
fn unknown_comment_count_is_not_a_stats_change() {
    let t = stored("hello", &[("❤️", 3)], 47);
    let f = fetched_unknown_comments("hello", &[("❤️", 3)]);
    assert_eq!(diff(&t, Some(&f)), RefreshAction::Unchanged);
}

#[test]
fn unknown_comment_count_still_lets_reactions_update() {
    let t = stored("hello", &[("❤️", 3)], 47);
    let f = fetched_unknown_comments("hello", &[("❤️", 9)]);
    assert_eq!(diff(&t, Some(&f)), RefreshAction::StatsChanged);
}

#[test]
fn known_comment_count_updates() {
    let t = stored("hello", &[("❤️", 3)], 47);
    let f = fetched("hello", &[("❤️", 3)], 50);
    assert_eq!(diff(&t, Some(&f)), RefreshAction::StatsChanged);
}

#[test]
fn effective_comment_count_prefers_known_keeps_stored_on_unknown() {
    assert_eq!(effective_comment_count(Some(50), 47), 50);
    assert_eq!(effective_comment_count(None, 47), 47);
    assert_eq!(effective_comment_count(Some(0), 47), 0);
}

#[test]
fn fake_fetcher_aligns_results_by_index() {
    let mut known: Vec<(i32, Option<FetchedPost>)> = Vec::new();
    note_batch(
        &mut known,
        &vec![5, 6, 7],
        vec![Some(fetched("hi", &[("❤️", 1)], 0)), None, None],
    );
    assert_eq!(known.len(), 3);
    assert!(matches!(find_slot(&known, 5), Some(Some(_))));
    assert!(matches!(find_slot(&known, 6), Some(None)));
    assert!(matches!(find_slot(&known, 7), Some(None)));
    assert!(find_slot(&known, 8).is_none());
}

#[test]
fn reactions_are_counted_by_emoji() {
    let r = extract_reactions(&vec![
        (ReactionKind::Emoji("🔥".into()), 3),
        (ReactionKind::Emoji("❤️".into()), 1),
        (ReactionKind::Emoji("🔥".into()), 2),
        (ReactionKind::Paid, 4),
        (ReactionKind::Custom, 9),
        (ReactionKind::Empty, 9),
    ]);
    assert_eq!(r.get("🔥"), Some(5));
    assert_eq!(r.get("❤️"), Some(1));
    assert_eq!(r.get("⭐"), Some(4));
    assert_eq!(r.get("🎨"), Some(9));
    assert_eq!(r.len(), 4);
}

#[test]
fn fetched_source_carries_link_and_counts() {
    let f = to_fetched(&Source {
        msg_id: 9,
        title: None,
        username: Some("chan".into()),
        text: "body".into(),
        reactions: vec![(ReactionKind::Emoji("👍".into()), 4)],
        reply_count: None,
        date: Some("2026-07-20T12:00:00Z".into()),
    });
    assert_eq!(f.title, "");
    assert_eq!(f.body, "body");
    assert_eq!(f.deep_link.as_deref(), Some("https://t.me/chan/9"));
    assert_eq!(f.reactions.get("👍"), Some(4));
    assert_eq!(f.comment_count, None);
}

#[test]
fn tick_length_stays_between_a_second_and_a_minute() {
    let mut cfg = cadence_cfg();
    cfg.reaction_early_check_secs = 0;
    assert_eq!(base_tick_secs(&cfg), 1);
    cfg.reaction_early_check_secs = 45;
    assert_eq!(base_tick_secs(&cfg), 45);
    cfg.reaction_early_check_secs = 600;
    assert_eq!(base_tick_secs(&cfg), 60);
}

#[test]
fn batches_hold_every_id_once() {
    let ids: Vec<i32> = (1..=250).collect();
    let b = batch_ids(&ids, 100);
    assert_eq!(
        b.iter().map(|x| x.len()).collect::<Vec<_>>(),
        vec![100, 100, 50]
    );
    assert_eq!(b.concat(), ids);
}

fn hooks() -> NameMap<WebhookUrl> {
    let mut m = NameMap::new();
    m.insert("hook".to_string(), WebhookUrl("https://x/1/t".into()));
    m
}

fn rec(chat: i64, tg: i32, discord: &str, body: &str) -> NewRecord {
    NewRecord {
        chat_id: chat,
        tg_msg_id: tg,
        route: "r1".into(),
        webhook_name: "hook".into(),
        discord_msg_id: discord.into(),
        content_hash: content_hash(body),
        reactions: map(&[("❤️", 1)]),
        comment_count: 2,
        latency_ms: None,
        image_urls: vec![],
    }
}

#[test]
fn a_tick_asks_once_for_each_message_and_settles() {
    let mut store = Store::new();
    let t0 = 1_000_000;
    store.record(rec(7, 10, "d-a", "old"), t0);
    store.record(rec(7, 10, "d-b", "old"), t0);
    store.record(rec(8, 3, "d-c", "gone"), t0);
    let cfg = cadence_cfg();
    let now = t0 + 60;
    let due = store.due(48, now);
    assert!(timing_fits(&due, now, &cfg));
    let plan = plan_tick(&due, now, &cfg);
    assert!(plan.prune);
    let idle = plan_tick(&vec![], now, &cfg);
    assert!(idle.prune);
    assert!(idle.chats.is_empty());
    assert_eq!(plan.chats.len(), 2);
    assert_eq!(plan.chats[0].batches, vec![vec![10]]);
    assert_eq!(plan.chats[1].batches, vec![vec![3]]);
    for chat in &plan.chats {
        let mut known = Vec::new();
        for ids in &chat.batches {
            let posts = ids
                .iter()
                .map(|id| {
                    if *id == 10 {
                        Some(fetched("new", &[("❤️", 5)], 6))
                    } else {
                        None
                    }
                })
                .collect();
            note_batch(&mut known, ids, posts);
        }
        for (row, d) in chat.rows.iter().zip(&chat.decisions) {
            let slot = find_slot(&known, row.tg_msg_id).unwrap();
            match row_step(row, *d, &known) {
                RowStep::Apply(action) => {
                    let p = patch_for(action, row, slot.as_ref(), &hooks(), &RouteColors::new());
                    assert!(p.is_some());
                    apply_to_store(&mut store, action, row, slot.as_ref(), &hooks(), now);
                }
                other => panic!("expected a change, got {other:?}"),
            }
        }
    }
    let after = store.due(48, now);
    assert_eq!(after.len(), 2, "the deleted post is no longer due");
    assert!(after.iter().all(|r| r.edited));
    for row in &after {
        assert_eq!(
            diff(row, Some(&fetched("new", &[("❤️", 5)], 6))),
            RefreshAction::Unchanged
        );
    }
}

#[test]
fn failed_batch_deletes_nothing() {
    let row = stored("hello", &[], 0);
    let d = decide_refresh(60, 60, 0, &cadence_cfg());
    assert!(matches!(row_step(&row, d, &Vec::new()), RowStep::Leave));
}

#[test]
fn patch_keeps_attachments_and_color() {
    let mut row = stored("hello", &[], 0);
    row.image_urls = vec![
        "https://cdn.discordapp.com/attachments/1/22/photo.jpg?ex=1".into(),
        "https://cdn.discordapp.com/attachments/1/33/clip.mp4".into(),
    ];
    let mut colors = RouteColors::new();
    colors.insert("r1".to_string(), 0x112233);
    let f = fetched("hello", &[("❤️", 3)], 0);
    let p = patch_with_footer(
        RefreshAction::StatsChanged,
        &row,
        Some(&f),
        &hooks(),
        &colors,
        "foot",
    )
    .expect("a patch");
    assert_eq!(
        p.keep,
        vec![
            ("22".to_string(), "photo.jpg".to_string()),
            ("33".to_string(), "clip.mp4".to_string()),
        ]
    );
    assert_eq!(p.embeds[0].color, Some(0x112233));
    assert_eq!(
        p.embeds[0].image.as_deref(),
        Some("attachment://photo.jpg")
    );
    assert_eq!(p.embeds[0].description.as_deref(), Some("hello"));
}

#[test]
fn attachment_addresses() {
    assert_eq!(
        parse_attachment_url("https://cdn.discordapp.com/attachments/1/42/clip.mp4?x=1"),
        Some(("42".to_string(), "clip.mp4".to_string()))
    );
    assert_eq!(parse_attachment_url("https://example.com/a"), None);
}

#[test]
fn unknown_route_has_the_default_color() {
    assert_eq!(color_for(&RouteColors::new(), "r"), DEFAULT_EMBED_COLOR);
}
