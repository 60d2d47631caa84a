use telegram_relay::reactions::Reactions;
use telegram_relay::report::stats_text;
use telegram_relay::store::{
    horizon_fits, image_urls_from_json, image_urls_of_list, image_urls_to_json, latency_stats,
    percentile, reactions_from_json, reactions_of_pairs, reactions_to_json, LatencyStats,
    NewRecord, Row, Store, StoreStats,
};

const NOW: i64 = 1_784_500_000;

fn map(pairs: &[(&str, i32)]) -> Reactions {
    let mut r = Reactions::new();
    for (k, v) in pairs {
        r.set(k, *v);
    }
    r
}

fn rec(chat: i64, tg: i32, discord: &str) -> NewRecord {
    NewRecord {
        chat_id: chat,
        tg_msg_id: tg,
        route: "r1".into(),
        webhook_name: "hook".into(),
        discord_msg_id: discord.into(),
        content_hash: "h0".into(),
        reactions: map(&[("❤️", 1)]),
        comment_count: 0,
        latency_ms: None,
        image_urls: Vec::new(),
    }
}

#[test]
fn record_due_update_prune_roundtrip() {
    let mut store = Store::new();
    store.record(rec(100, 5, "d-a"), NOW);
    store.record(rec(100, 5, "d-b"), NOW);
    store.record(rec(200, 9, "d-c"), NOW);
    assert_eq!(store.count(), 3);

    let due = store.due(48, NOW);
    assert_eq!(due.len(), 3);
    assert_eq!(due[0].chat_id, 100);
    assert_eq!(due[2].chat_id, 200);
    assert_eq!(due[0].reactions.get("❤️"), Some(1));

    store.update_stats(100, 5, "d-a", "h1", &map(&[("🔥", 7)]), 3, NOW);
    let due = store.due(48, NOW);
    let updated = due
        .iter()
        .find(|t| t.discord_msg_id == "d-a")
        .expect("row present");
    assert_eq!(updated.content_hash, "h1");
    assert_eq!(updated.comment_count, 3);
    assert_eq!(updated.reactions.get("🔥"), Some(7));

    assert_eq!(store.prune(48, NOW), 0);
    assert_eq!(store.count(), 3);

    let later = NOW + 49 * 3600;
    assert_eq!(store.prune(48, later), 3);
    assert_eq!(store.count(), 0);
}

#[test]
fn mark_deleted_excludes_from_due() {
    let mut store = Store::new();
    store.record(rec(1, 1, "d-a"), NOW);
    store.record(rec(1, 1, "d-b"), NOW);
    assert_eq!(store.due(48, NOW).len(), 2);
    store.mark_deleted(1, 1, NOW);
    assert_eq!(store.count(), 2);
    assert_eq!(store.due(48, NOW).len(), 0);
}

#[test]
fn mark_edited_persists_and_survives_stats_update() {
    let mut store = Store::new();
    store.record(rec(1, 1, "d-a"), NOW);
    assert!(!store.due(48, NOW)[0].edited, "starts un-edited");
    store.mark_edited(1, 1);
    assert!(store.due(48, NOW)[0].edited, "edited flag persisted");
    store.update_stats(1, 1, "d-a", "newhash", &Reactions::new(), 0, NOW);
    assert!(
        store.due(48, NOW)[0].edited,
        "edited must survive a stats-only refresh"
    );
}

#[test]
fn record_is_idempotent_on_primary_key() {
    let mut store = Store::new();
    store.record(rec(1, 1, "d-a"), NOW);
    let mut again = rec(1, 1, "d-a");
    again.content_hash = "h9".into();
    again.comment_count = 42;
    store.record(again, NOW);
    assert_eq!(store.count(), 1);
    let due = store.due(48, NOW);
    assert_eq!(due[0].content_hash, "h9");
    assert_eq!(due[0].comment_count, 42);
}

#[test]
fn already_relayed_true_only_for_exact_triple() {
    let mut store = Store::new();
    store.record(rec(1, 5, "d-a"), NOW);
    assert!(store.already_relayed(1, 5, "hook"));
    assert!(!store.already_relayed(1, 5, "other-hook"));
    assert!(!store.already_relayed(1, 6, "hook"));
    assert!(!store.already_relayed(2, 5, "hook"));
}

#[test]
fn webhook_identity_hash_roundtrip_and_upsert() {
    let mut store = Store::new();
    assert_eq!(store.webhook_identity_hash("hook"), None);
    store.set_webhook_identity_hash("hook", "h1");
    assert_eq!(store.webhook_identity_hash("hook"), Some("h1".to_string()));
    store.set_webhook_identity_hash("hook", "h2");
    assert_eq!(store.webhook_identity_hash("hook"), Some("h2".to_string()));
    assert_eq!(store.webhook_identity_hash("other"), None);
}

#[test]
fn due_carries_route_name() {
    let mut store = Store::new();
    store.record(rec(1, 1, "d-a"), NOW);
    assert_eq!(store.due(48, NOW)[0].route, "r1");
}

#[test]
fn due_carries_posted_at_and_last_checked() {
    let mut store = Store::new();
    store.record(rec(1, 1, "d-a"), NOW);
    let due = store.due(48, NOW);
    assert!(due[0].posted_at > 0);
    assert_eq!(due[0].posted_at, due[0].last_checked);
}

#[test]
fn touch_checked_advances_last_checked_only() {
    let mut store = Store::new();
    store.record(rec(1, 1, "d-a"), NOW);
    let before = store.due(48, NOW).into_iter().next().unwrap();
    store.touch_checked(1, 1, "d-a", NOW + 120);
    let after = store.due(48, NOW + 120).into_iter().next().unwrap();
    assert!(
        after.last_checked > before.last_checked,
        "last_checked should advance"
    );
    assert_eq!(after.posted_at, before.posted_at);
    assert_eq!(after.content_hash, before.content_hash);
    assert!(after.reactions.same(&before.reactions));
}

#[test]
fn prune_empties_a_record_past_the_horizon() {
    let mut store = Store::new();
    for i in 0..20 {
        store.record(rec(1, i, &format!("d-{i}")), NOW);
    }
    assert_eq!(store.prune(48, NOW + 49 * 3600), 20);
    assert_eq!(store.count(), 0);
}

#[test]
fn reactions_json_roundtrip() {
    let m = map(&[("❤️", 47), ("🔥", 12)]);
    let s = reactions_to_json(&m);
    assert!(reactions_from_json(&s).same(&m));
    assert!(reactions_from_json("garbage").same(&Reactions::new()));
}

#[test]
fn reactions_as_they_are_kept() {
    let m = map(&[("b", 2), ("a", 1)]);
    assert_eq!(reactions_to_json(&m), r#"{"a":1,"b":2}"#);
    assert_eq!(reactions_from_json(r#"{"z":3,"y":-4}"#).get("y"), Some(-4));
    assert_eq!(reactions_from_json(r#"{"z":"3"}"#).len(), 0);
    assert_eq!(
        reactions_of_pairs(Some(vec![("x".to_string(), 5)])).get("x"),
        Some(5)
    );
    assert_eq!(reactions_of_pairs(None).len(), 0);
}

#[test]
fn image_urls_as_they_are_kept() {
    let urls = vec!["https://x/a.png".to_string(), "q\"\n".to_string()];
    let text = image_urls_to_json(&urls);
    assert_eq!(text, r#"["https://x/a.png","q\"\n"]"#);
    assert_eq!(image_urls_from_json(&text), urls);
    assert_eq!(image_urls_to_json(&vec![]), "[]");
    assert!(image_urls_from_json("[1]").is_empty());
    assert!(image_urls_from_json("garbage").is_empty());
    assert_eq!(image_urls_of_list(Some(urls.clone())), urls);
    assert!(image_urls_of_list(None).is_empty());
}

#[test]
fn latency_stats_empty_is_none() {
    assert_eq!(latency_stats(&vec![]), None);
}

#[test]
fn latency_stats_single_sample() {
    let s = latency_stats(&vec![240]).unwrap();
    assert_eq!(s.count, 1);
    assert_eq!((s.p50, s.p95, s.min, s.max), (240, 240, 240, 240));
}

#[test]
fn latency_stats_percentiles_nearest_rank() {
    let vals: Vec<i64> = (1..=100).collect();
    let s = latency_stats(&vals).unwrap();
    assert_eq!(s.count, 100);
    assert_eq!(s.p50, 50);
    assert_eq!(s.p95, 95);
    assert_eq!(s.min, 1);
    assert_eq!(s.max, 100);
}

#[test]
fn latency_stats_is_order_independent() {
    let a = latency_stats(&vec![300, 100, 200, 500, 400]).unwrap();
    let b = latency_stats(&vec![500, 400, 300, 200, 100]).unwrap();
    assert_eq!(a, b);
    assert_eq!(a.min, 100);
    assert_eq!(a.max, 500);
}

#[test]
fn percentile_takes_the_nearest_rank() {
    assert_eq!(percentile(&vec![10, 20, 30, 40], 50), 20);
    assert_eq!(percentile(&vec![10, 20, 30, 40], 95), 40);
}

#[test]
fn stats_counts_posts_deleted_and_latency() {
    let mut store = Store::new();
    let mut a = rec(100, 5, "d-a");
    a.latency_ms = Some(150);
    store.record(a, NOW);
    let mut b = rec(100, 5, "d-b");
    b.latency_ms = Some(450);
    store.record(b, NOW);
    store.record(rec(200, 9, "d-c"), NOW);
    store.mark_deleted(200, 9, NOW);

    let s = store.stats();
    assert_eq!(s.tracked_posts, 2, "distinct (chat,tg) posts");
    assert_eq!(s.deleted, 1);
    let lat = s.latency.expect("two live-relay latencies recorded");
    assert_eq!(lat.count, 2);
    assert_eq!(lat.min, 150);
    assert_eq!(lat.max, 450);
}

#[test]
fn stats_latency_none_when_no_live_relays() {
    let mut store = Store::new();
    store.record(rec(1, 1, "d-a"), NOW);
    let s = store.stats();
    assert_eq!(s.tracked_posts, 1);
    assert!(s.latency.is_none());
}

#[test]
fn due_is_in_order_of_chat_and_message() {
    let mut store = Store::new();
    store.record(rec(2, 1, "a"), NOW);
    store.record(rec(1, 9, "b"), NOW);
    store.record(rec(1, 2, "c"), NOW);
    let order: Vec<(i64, i32)> = store
        .due(48, NOW)
        .iter()
        .map(|t| (t.chat_id, t.tg_msg_id))
        .collect();
    assert_eq!(order, vec![(1, 2), (1, 9), (2, 1)]);
}

#[test]
fn pruning_spares_what_is_due() {
    let mut store = Store::new();
    store.record(rec(1, 1, "old"), NOW - 50 * 3600);
    store.record(rec(1, 2, "new"), NOW);
    let before: Vec<String> = store
        .due(48, NOW)
        .iter()
        .map(|t| t.discord_msg_id.clone())
        .collect();
    assert_eq!(store.prune(48, NOW), 1);
    let after: Vec<String> = store
        .due(48, NOW)
        .iter()
        .map(|t| t.discord_msg_id.clone())
        .collect();
    assert_eq!(before, after);
}

#[test]
fn rows_kept_elsewhere_come_back() {
    let mut store = Store::new();
    store.record(rec(1, 1, "d-a"), NOW);
    let rows: Vec<Row> = store
        .all_rows()
        .iter()
        .map(|r| Row {
            chat_id: r.chat_id,
            tg_msg_id: r.tg_msg_id,
            route: r.route.clone(),
            webhook_name: r.webhook_name.clone(),
            discord_msg_id: r.discord_msg_id.clone(),
            posted_at: r.posted_at,
            last_checked: r.last_checked,
            content_hash: r.content_hash.clone(),
            reactions: r.reactions.clone(),
            comment_count: r.comment_count,
            deleted: r.deleted,
            edited: r.edited,
            latency_ms: r.latency_ms,
            image_urls: r.image_urls.clone(),
        })
        .collect();
    let again = Store::with_rows(rows);
    assert!(again.already_relayed(1, 1, "hook"));
    assert_eq!(again.count(), 1);
}

#[test]
fn figures_in_words() {
    let quiet = StoreStats {
        tracked_posts: 2,
        deleted: 0,
        latency: None,
    };
    assert_eq!(
        stats_text(&quiet),
        "tracked posts     2\ndeleted           0\nlatency           (no live relays recorded yet)\n"
    );
    let busy = StoreStats {
        tracked_posts: 2,
        deleted: 1,
        latency: Some(LatencyStats {
            count: 2,
            p50: 150,
            p95: 450,
            min: -5,
            max: 450,
        }),
    };
    assert_eq!(
        stats_text(&busy),
        "tracked posts     2\ndeleted           1\nlatency samples   2\nlatency p50       150 ms\n\
         latency p95       450 ms\nlatency min       -5 ms\nlatency max       450 ms\n"
    );
}

#[test]
fn horizons_that_cannot_be_looked_back_on() {
    assert!(horizon_fits(NOW, 48));
    assert!(horizon_fits(0, 2_562_047_788_015_215));
    assert!(!horizon_fits(0, 2_562_047_788_015_216));
    assert!(!horizon_fits(i64::MIN, 1));
}
