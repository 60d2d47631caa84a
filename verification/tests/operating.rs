use telegram_relay::config::{ChatId, ChatRef, RouteCfg, WebhookName, WebhookUrl};
use telegram_relay::contracts::contract_content;
use telegram_relay::deliver::Reply;
use telegram_relay::diagram::{add_text, render_routes_ascii, source_label};
use telegram_relay::hash::hash_text;
use telegram_relay::identity::{avatar_identity_hash, photo_data_uri, plan_identity_sync};
use telegram_relay::latency::{parse_number, relay_latency_ms, snowflake_ms, DISCORD_EPOCH_MS};
use telegram_relay::names::NameMap;
use telegram_relay::ops::{is_auth_error, DropNotices, Liveness, Probe, Verdict};
use telegram_relay::render::DEFAULT_EMBED_COLOR;
use telegram_relay::report::{check_row, check_targets, check_webhook, webhook_label};
use telegram_relay::router::ResolvedRoute;
use telegram_relay::scrub::scrub_webhook_tokens;
use telegram_relay::store::Store;
use telegram_relay::telegram::ChannelIdentity;

#[test]
fn identity_hash_is_stable_and_deterministic() {
    let a = avatar_identity_hash("Rob's Channel", Some(b"jpegbytes"));
    let b = avatar_identity_hash("Rob's Channel", Some(b"jpegbytes"));
    assert_eq!(a, b, "same title+photo must hash identically across calls");
}

#[test]
fn identity_hash_changes_on_title_rename() {
    let before = avatar_identity_hash("Old Name", Some(b"photo"));
    let after = avatar_identity_hash("New Name", Some(b"photo"));
    assert_ne!(before, after, "a rename must trigger a re-PATCH");
}

#[test]
fn identity_hash_changes_on_new_photo() {
    let before = avatar_identity_hash("Same", Some(b"photo-v1"));
    let after = avatar_identity_hash("Same", Some(b"photo-v2"));
    assert_ne!(before, after, "a new photo must trigger a re-PATCH");
}

#[test]
fn identity_hash_distinguishes_no_photo_from_photo() {
    let none = avatar_identity_hash("Chan", None);
    let some = avatar_identity_hash("Chan", Some(b"anything"));
    assert_ne!(none, some);
    assert_eq!(none, avatar_identity_hash("Chan", None));
}

#[test]
fn no_photo_is_like_no_photo_at_all() {
    for title in ["", "Chan", "a\u{0}b"] {
        let none = avatar_identity_hash(title, None);
        for photo in [&b"<no-photo>"[..], &b""[..], &[0][..], &[1][..]] {
            assert_ne!(none, avatar_identity_hash(title, Some(photo)));
        }
    }
    assert_eq!(
        avatar_identity_hash("Chan", Some(b"anything")),
        "291eaee6698f8af9"
    );
    assert_eq!(avatar_identity_hash("Chan", None), "329e0f00c1cf13c7-");
    assert_eq!(
        avatar_identity_hash("", None),
        format!("{}-", hash_text(b"\0<no-photo>"))
    );
    assert_eq!(
        avatar_identity_hash("a", Some(b"bc")),
        hash_text(&[0x61, 0, 0x62, 0x63])
    );
}

#[test]
fn identity_hash_separator_prevents_title_photo_ambiguity() {
    let x = avatar_identity_hash("ab", Some(b"c"));
    let y = avatar_identity_hash("a", Some(b"bc"));
    assert_ne!(x, y);
}

#[test]
fn photo_data_uri_is_base64_jpeg() {
    assert_eq!(photo_data_uri(b"Hi"), "data:image/jpeg;base64,SGk=");
    assert!(photo_data_uri(&[0xFF, 0xD8, 0xFF]).starts_with("data:image/jpeg;base64,"));
}

#[test]
fn hash_is_fnv1a_in_sixteen_digits() {
    assert_eq!(hash_text(b""), "cbf29ce484222325");
    assert_eq!(hash_text(b"a"), "af63dc4c8601ec8c");
}

fn resolved(name: &str, chat: i64, to: &[&str]) -> ResolvedRoute {
    ResolvedRoute {
        name: name.into(),
        chat: ChatId(chat),
        to: to.iter().map(|t| WebhookName(t.to_string())).collect(),
        filter: None,
        color: DEFAULT_EMBED_COLOR,
        media_mode: None,
    }
}

fn hooks(names: &[&str]) -> NameMap<WebhookUrl> {
    let mut m = NameMap::new();
    for n in names {
        m.insert(n.to_string(), WebhookUrl(format!("https://x/{n}")));
    }
    m
}

fn identity(title: &str) -> ChannelIdentity {
    ChannelIdentity {
        title: title.into(),
        photo: Some(b"Hi".to_vec()),
    }
}

#[test]
fn a_shared_webhook_takes_one_identity() {
    let routes = vec![
        resolved("numeric", 9, &["a"]),
        resolved("one", 1, &["a", "b"]),
        resolved("two", 2, &["a", "c", "ghost"]),
    ];
    let ids = vec![(1, identity("One")), (2, identity("Two"))];
    let mut store = Store::new();
    store.set_webhook_identity_hash("b", &avatar_identity_hash("One", Some(b"Hi")));
    let plan = plan_identity_sync(&routes, &ids, &hooks(&["a", "b", "c"]), &store);
    let given: Vec<(&str, &str)> = plan
        .iter()
        .map(|p| (p.webhook.as_str(), p.title.as_str()))
        .collect();
    assert_eq!(given, vec![("a", "One"), ("c", "Two")]);
    assert_eq!(
        plan[0].avatar.as_deref(),
        Some("data:image/jpeg;base64,SGk=")
    );
    assert_eq!(plan[0].hash, avatar_identity_hash("One", Some(b"Hi")));
}

#[test]
fn snowflake_decodes_to_discord_epoch_ms() {
    assert_eq!(snowflake_ms("0"), Some(DISCORD_EPOCH_MS));
    assert_eq!(
        snowflake_ms(&(1u64 << 22).to_string()),
        Some(DISCORD_EPOCH_MS + 1)
    );
    let id = "1234567890123456789";
    assert!(snowflake_ms(id).unwrap() > DISCORD_EPOCH_MS);
}

#[test]
fn snowflake_rejects_non_integer() {
    assert_eq!(snowflake_ms("not-a-number"), None);
    assert_eq!(snowflake_ms(""), None);
}

#[test]
fn numbers_are_read_as_the_standard_library_reads_them() {
    for s in [
        "0", "007", "+5", "-0", "-5", "+", "", "18446744073709551615", "18446744073709551616", "1 ",
    ] {
        assert_eq!(parse_number(s), s.parse::<u64>().ok(), "{s}");
    }
}

#[test]
fn latency_is_discord_minus_telegram() {
    let telegram_ms: i64 = 1_609_459_200_000;
    let discord_ms = telegram_ms + 240;
    let id = (((discord_ms - DISCORD_EPOCH_MS) as u64) << 22).to_string();
    assert_eq!(
        relay_latency_ms(&id, "2021-01-01T00:00:00Z"),
        Some(240),
        "latency must be Discord snowflake ms minus Telegram publish ms"
    );
}

#[test]
fn latency_none_on_bad_inputs() {
    assert_eq!(relay_latency_ms("nope", "2021-01-01T00:00:00Z"), None);
    assert_eq!(relay_latency_ms("123", "not-a-date"), None);
}

#[test]
fn redacts_webhook_token_but_keeps_context() {
    let s = "delivery dropped: error on \
             https://discord.com/api/webhooks/12345/SECRETtok-EN_abc123 boom";
    let out = scrub_webhook_tokens(s);
    assert!(!out.contains("SECRETtok-EN_abc123"), "token leaked: {out}");
    assert!(out.contains("/webhooks/12345/«redacted»"), "got: {out}");
    assert!(out.contains("12345"));
    assert!(out.contains("boom"));
}

#[test]
fn redacts_token_at_end_of_string() {
    let out = scrub_webhook_tokens("https://discord.com/api/webhooks/99/TOKENxyz");
    assert!(!out.contains("TOKENxyz"), "token leaked: {out}");
    assert!(out.ends_with("/webhooks/99/«redacted»"));
}

#[test]
fn leaves_plain_text_untouched() {
    assert_eq!(
        scrub_webhook_tokens("all good, no urls here"),
        "all good, no urls here"
    );
}

#[test]
fn redacts_every_token() {
    assert_eq!(
        scrub_webhook_tokens("/webhooks/1/a /webhooks/2/b\n/webhooks/3"),
        "/webhooks/1/«redacted» /webhooks/2/«redacted»\n/webhooks/3"
    );
}

#[test]
fn redacts_tokens_behind_overlapping_marks() {
    assert_eq!(
        scrub_webhook_tokens("/webhooks/webhooks/5/tok x"),
        "/webhooks/webhooks/5/«redacted» x"
    );
    assert_eq!(
        scrub_webhook_tokens("/webhooks/webhooks/webhooks/123456789012/t"),
        "/webhooks/webhooks/webhooks/123456789012/«redacted»"
    );
    assert_eq!(
        scrub_webhook_tokens("/webhooks/12 /webhooks/x"),
        "/webhooks/12 /webhooks/x"
    );
}

fn route(label: Option<&str>, from: ChatRef, to: &[&str]) -> RouteCfg {
    RouteCfg {
        name: "r".into(),
        label: label.map(str::to_string),
        from,
        to: to.iter().map(|w| WebhookName(w.to_string())).collect(),
        filter: None,
        color: DEFAULT_EMBED_COLOR,
        media_mode: None,
    }
}

fn labels(pairs: &[(&str, &str)]) -> NameMap<String> {
    let mut m = NameMap::new();
    for (k, v) in pairs {
        m.insert(k.to_string(), v.to_string());
    }
    m
}

#[test]
fn diagram_shows_both_directions_with_friendly_labels() {
    let routes = vec![
        route(
            Some("Alpha"),
            ChatRef::Username("alpha_news".into()),
            &["crypto", "hub"],
        ),
        route(
            Some("Beta"),
            ChatRef::Username("beta_wire".into()),
            &["news", "hub"],
        ),
    ];
    let lbls = labels(&[
        ("crypto", "server · #crypto"),
        ("hub", "HUB"),
        ("news", "server · #news"),
    ]);
    let out = render_routes_ascii(&routes, &lbls);
    assert!(out.contains("2 source(s) → 3 destination(s)"), "{out}");
    assert!(out.contains("by source"));
    assert!(out.contains("by destination"));
    assert!(out.contains("Alpha (@alpha_news)"), "{out}");
    assert!(out.contains("server · #crypto"));
    assert!(out.contains("HUB"));
    assert!(out.contains("──▶") && out.contains("◀──"));
    assert!(out.contains("(all sources)"), "{out}");
}

#[test]
fn diagram_falls_back_to_handle_when_unlabeled() {
    let routes = vec![
        route(None, ChatRef::Username("chan_a".into()), &["main"]),
        route(None, ChatRef::Id(ChatId(-100)), &["main"]),
    ];
    let out = render_routes_ascii(&routes, &labels(&[("main", "main")]));
    assert!(out.contains("@chan_a"));
    assert!(out.contains("-100"));
    assert!(out.contains("(all sources)"));
}

#[test]
fn diagram_in_full() {
    let routes = vec![
        route(Some("Al"), ChatRef::Username("a".into()), &["x", "y"]),
        route(None, ChatRef::Id(ChatId(7)), &["y"]),
    ];
    assert_eq!(
        render_routes_ascii(&routes, &labels(&[("x", "same"), ("y", "same")])),
        "telegram-relay — routing (2 source(s) → 2 destination(s))\n\n\
         by source — where each telegram channel goes:\n\
         \u{20}\u{20}Al (@a)  ──▶  same · same\n\
         \u{20}\u{20}7        ──▶  same\n\
         \nby destination — what each discord channel receives:\n\
         \u{20}\u{20}same  ◀──  Al\n\
         \u{20}\u{20}same  ◀──  7 · Al   (all sources)\n"
    );
    assert_eq!(source_label(&ChatRef::Id(ChatId(-5))), "-5");
}

#[test]
fn all_sources_are_counted_by_channel() {
    let a = || ChatRef::Username("a".into());
    let two_labels = vec![
        route(Some("One"), a(), &["x"]),
        route(Some("Two"), a(), &["x"]),
        route(None, ChatRef::Username("b".into()), &["y"]),
    ];
    let out = render_routes_ascii(&two_labels, &labels(&[]));
    assert!(out.contains("x  ◀──  One · Two\n"), "{out}");
    assert!(!out.contains("(all sources)"), "{out}");

    let one_label = vec![
        route(Some("News"), a(), &["x"]),
        route(Some("News"), ChatRef::Username("b".into()), &["x"]),
    ];
    let out = render_routes_ascii(&one_label, &labels(&[]));
    assert!(out.contains("x  ◀──  News   (all sources)\n"), "{out}");

    let single = vec![route(None, a(), &["x"])];
    assert!(!render_routes_ascii(&single, &labels(&[])).contains("(all sources)"));
}

#[test]
fn texts_in_order_once_each() {
    let mut l = Vec::new();
    for s in ["b", "a", "c", "a", "ab"] {
        add_text(&mut l, s);
    }
    assert_eq!(l, vec!["a", "ab", "b", "c"]);
}

#[test]
fn webhook_in_words() {
    assert_eq!(
        webhook_label(r#"{"name":"feed","channel_id":"55"}"#),
        "\"feed\" (channel 55)"
    );
    assert_eq!(webhook_label("{}"), "\"?\" (channel ?)");
    assert_eq!(webhook_label("<html>"), "reachable");
}

#[test]
fn check_goes_by_name_with_the_notices_last() {
    let ops = Some(WebhookUrl("https://x/ops".into()));
    let names: Vec<String> = check_targets(&hooks(&["news", "crypto", "hub"]), &ops)
        .into_iter()
        .map(|t| t.0)
        .collect();
    assert_eq!(names, vec!["crypto", "hub", "news", "ops_webhook"]);
    assert!(check_targets(&hooks(&[]), &None).is_empty());
}

#[test]
fn check_rows() {
    let row = |status: &str, detail: &str| format!("{:<24}  {:<8}  {detail}", "hub", status);
    let reply = |code: u16, body: &str| Reply::Response {
        code,
        status: String::new(),
        body: body.to_string(),
        retry_after: None,
    };
    assert_eq!(
        check_webhook("hub", &reply(200, "x")),
        (true, row("ok", "reachable"))
    );
    assert_eq!(
        check_webhook("hub", &reply(404, "x")),
        (false, row("FAIL", "HTTP 404"))
    );
    assert_eq!(
        check_webhook("hub", &Reply::Network("timed out".into())),
        (false, row("FAIL", "timed out"))
    );
    assert_eq!(
        check_row("webhook", "status", "detail"),
        format!("{:<24}  {:<8}  detail", "webhook", "status")
    );
    let long = "n".repeat(30);
    assert_eq!(check_row(&long, "ok", "d"), format!("{long}  ok        d"));
}

#[test]
fn drop_notices_are_a_minute_apart() {
    let s = 1_000_000_000u64;
    let mut n = DropNotices::new();
    assert!(n.allow(10 * s));
    assert!(!n.allow(11 * s));
    assert!(!n.allow(69 * s));
    assert!(n.allow(70 * s));
    assert!(!n.allow(5 * s));
}

#[test]
fn errors_that_end_the_session() {
    assert!(is_auth_error(401, "ANY"));
    for name in [
        "AUTH_KEY_UNREGISTERED",
        "SESSION_REVOKED",
        "USER_DEACTIVATED_BAN",
        "AUTH_KEY_DUPLICATED",
    ] {
        assert!(is_auth_error(406, name), "{name}");
    }
    assert!(!is_auth_error(420, "FLOOD_WAIT"));
}

#[test]
fn outages_end_the_relay() {
    let mut l = Liveness::new();
    assert!(!Liveness::should_probe(119_999_999_999));
    assert!(Liveness::should_probe(120_000_000_000));
    assert_eq!(l.probed(&Probe::Failed), Verdict::GoOn);
    assert_eq!(
        l.probed(&Probe::Refused(420, "FLOOD_WAIT".into())),
        Verdict::GoOn
    );
    assert_eq!(l.probed(&Probe::Alive), Verdict::GoOn);
    assert_eq!(l.probed(&Probe::Failed), Verdict::GoOn);
    assert_eq!(l.probed(&Probe::Failed), Verdict::GoOn);
    assert_eq!(l.probed(&Probe::Failed), Verdict::Lost(3));
    let mut l = Liveness::new();
    assert_eq!(
        l.probed(&Probe::Refused(401, "SESSION_REVOKED".into())),
        Verdict::Deauthorized
    );
}

#[test]
fn addresses_are_repeated_in_plain() {
    let eth = "0x52908400098527886E0F7030069857D2E4169EE7";
    let sol = "So11111111111111111111111111111111111111112";
    assert_eq!(
        contract_content(&format!("buy {eth}, or ({sol}) or {eth}!")),
        Some(format!("{eth}\n{sol}"))
    );
    assert_eq!(contract_content("nothing here"), None);
    assert_eq!(contract_content(&format!("{eth}0")), None);
    assert_eq!(contract_content(&"l".repeat(40)), None);
}
