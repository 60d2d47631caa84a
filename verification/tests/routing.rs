use telegram_relay::backfill::{
    backfill_targets, find_route, group_albums, group_post, oldest_first, plan_backfill,
    plan_group, summary, tally, GroupStep, Past, Tally,
};
use telegram_relay::config::{
    ChatId, ChatRef, Filter, MediaCfg, MediaMode, RouteCfg, WebhookName, WebhookUrl,
};
use telegram_relay::dedup::Dedup;
use telegram_relay::deliver::PostResult;
use telegram_relay::live::{
    delivered, dispatch, downloaded, fan_out, passing, resolve_targets_named,
    Dispatch, Live,
};
use telegram_relay::media::MediaTarget;
use telegram_relay::names::NameMap;
use telegram_relay::ops::{Probe, Verdict};
use telegram_relay::reactions::Reactions;
use telegram_relay::refresh::{content_hash, FetchedPost};
use telegram_relay::relay::Relay;
use telegram_relay::render::DEFAULT_EMBED_COLOR;
use telegram_relay::router::{ResolvedRoute, Router};
use telegram_relay::sending::{fate_after, text_record_for, text_step, TargetStep};
use telegram_relay::store::Store;
use telegram_relay::telegram::{Event, Incoming, Message, ParsedMedia};

#[test]
fn matches_only_configured_chat() {
    let r = Router::new(vec![ResolvedRoute {
        name: "r".into(),
        chat: ChatId(5),
        to: vec![WebhookName("h".into())],
        filter: None,
        color: DEFAULT_EMBED_COLOR,
        media_mode: None,
    }]);
    assert_eq!(r.match_chat(ChatId(5)).len(), 1);
    assert!(r.match_chat(ChatId(6)).is_empty());
}

#[test]
fn one_chat_two_routes_fan_out() {
    let mk = |n: &str| ResolvedRoute {
        name: n.into(),
        chat: ChatId(5),
        to: vec![WebhookName(n.into())],
        filter: None,
        color: DEFAULT_EMBED_COLOR,
        media_mode: None,
    };
    let r = Router::new(vec![mk("a"), mk("b")]);
    assert_eq!(r.match_chat(ChatId(5)).len(), 2);
}

#[test]
fn fresh_then_duplicate() {
    let mut d = Dedup::new(8);
    assert!(d.check_and_insert(ChatId(1), 100));
    assert!(!d.check_and_insert(ChatId(1), 100));
    assert!(d.check_and_insert(ChatId(2), 100));
}

#[test]
fn evicts_at_capacity() {
    let mut d = Dedup::new(2);
    d.check_and_insert(ChatId(1), 1);
    d.check_and_insert(ChatId(1), 2);
    d.check_and_insert(ChatId(1), 3);
    assert!(d.check_and_insert(ChatId(1), 1));
}

#[test]
fn seeing_a_message_again_keeps_it_remembered() {
    let mut d = Dedup::new(2);
    d.check_and_insert(ChatId(1), 1);
    d.check_and_insert(ChatId(1), 2);
    assert!(!d.check_and_insert(ChatId(1), 1));
    d.check_and_insert(ChatId(1), 3);
    assert!(!d.check_and_insert(ChatId(1), 1));
    let mut one = Dedup::new(0);
    assert!(one.check_and_insert(ChatId(1), 1));
    assert!(!one.check_and_insert(ChatId(1), 1));
}

fn hooks(names: &[&str]) -> NameMap<WebhookUrl> {
    let mut m = NameMap::new();
    for n in names {
        m.insert(n.to_string(), WebhookUrl(format!("https://x/{n}")));
    }
    m
}

fn route(name: &str, to: &[&str], keywords: &[&str], mode: Option<MediaMode>) -> ResolvedRoute {
    ResolvedRoute {
        name: name.into(),
        chat: ChatId(5),
        to: to.iter().map(|t| WebhookName(t.to_string())).collect(),
        filter: if keywords.is_empty() {
            None
        } else {
            Some(Filter {
                any_keywords: keywords.iter().map(|k| k.to_string()).collect(),
                exclude_hashtags: vec![],
            })
        },
        color: 0x010203,
        media_mode: mode,
    }
}

#[test]
fn unknown_webhooks_are_passed_over() {
    let r = route("r", &["a", "ghost", "b"], &[], None);
    let names: Vec<String> = resolve_targets_named(&r.to, &hooks(&["a", "b"]))
        .into_iter()
        .map(|t| t.0 .0)
        .collect();
    assert_eq!(names, vec!["a", "b"]);
}

#[test]
fn each_webhook_gets_a_post_once() {
    let routes = vec![
        route("r1", &["a", "b"], &[], None),
        route("r2", &["c"], &["moon"], None),
        route("r3", &["b", "d", "d"], &[], Some(MediaMode::Placeholder)),
    ];
    let passed = passing(&routes, "to the MOON");
    assert_eq!(passed, vec![true, true, true]);
    assert_eq!(passing(&routes, "hello"), vec![true, false, true]);
    let out = fan_out(
        &routes,
        &vec![true, false, true],
        &hooks(&["a", "b", "c", "d"]),
        MediaMode::Reupload,
    );
    let got: Vec<(&str, &str, MediaMode)> = out
        .iter()
        .map(|t| (t.webhook.0.as_str(), t.route.as_str(), t.mode))
        .collect();
    assert_eq!(
        got,
        vec![
            ("a", "r1", MediaMode::Reupload),
            ("b", "r1", MediaMode::Reupload),
            ("d", "r3", MediaMode::Placeholder),
        ]
    );
}

fn live() -> Live {
    Live::build(
        vec![
            route("r1", &["a", "b"], &[], None),
            route("r2", &["b"], &["gm"], None),
        ],
        hooks(&["a", "b"]),
        MediaCfg {
            mode: MediaMode::Reupload,
            max_bytes: 100,
        },
    )
}

fn text(msg_id: i32, body: &str) -> Incoming {
    Incoming::Text {
        chat: ChatId(5),
        msg_id,
        sender: None,
        body: body.into(),
        reply_quote: None,
        edited: false,
        title: None,
        deep_link: Some("https://t.me/c/1".into()),
        date: "2021-01-01T00:00:00Z".into(),
    }
}

#[test]
fn texts_go_to_every_target() {
    let mut seen = Dedup::new(8);
    let eth = "0x52908400098527886E0F7030069857D2E4169EE7";
    match dispatch(text(1, &format!("gm {eth}")), &mut seen, &live(), true) {
        Dispatch::Texts(ds) => {
            assert_eq!(ds.len(), 2);
            assert_eq!(ds[0].target.webhook.0, "a");
            assert_eq!(ds[0].username, "r1");
            assert_eq!(ds[0].meta.title, "r1");
            assert_eq!(ds[0].meta.color, 0x010203);
            assert_eq!(ds[0].content.as_deref(), Some(eth));
            assert_eq!(ds[0].record.content_hash, content_hash(&format!("gm {eth}")));
            assert_eq!(ds[1].record.webhook_name, "b");
        }
        _ => panic!("expected texts"),
    }
    assert!(matches!(
        dispatch(text(1, "gm"), &mut seen, &live(), true),
        Dispatch::Ignore
    ));
    match dispatch(text(2, &format!("gm {eth}")), &mut seen, &live(), false) {
        Dispatch::Texts(ds) => assert_eq!(ds[0].content, None),
        _ => panic!("expected texts"),
    }
}

fn media(msg_id: i32, chat: i64, size: u64) -> Incoming {
    Incoming::Media {
        chat: ChatId(chat),
        msg_id,
        grouped_id: Some(3),
        filename: "photo_1.jpg".into(),
        caption: "cap".into(),
        sender: None,
        approx_size: size,
        deep_link: None,
        title: None,
        date: "2021-01-01T00:00:00Z".into(),
    }
}

#[test]
fn media_is_fetched_unless_it_is_too_large() {
    let mut seen = Dedup::new(8);
    match dispatch(media(1, 5, 100), &mut seen, &live(), false) {
        Dispatch::Media {
            item,
            filename,
            download,
            max_bytes,
        } => {
            assert!(download);
            assert!(!item.oversized);
            assert_eq!(max_bytes, 100);
            assert_eq!(item.title, "r1");
            let item = downloaded(item, filename, vec![7]);
            assert_eq!(item.file, Some(("photo_1.jpg".to_string(), vec![7])));
        }
        _ => panic!("expected media"),
    }
    match dispatch(media(2, 5, 101), &mut seen, &live(), false) {
        Dispatch::Media { item, download, .. } => {
            assert!(!download);
            assert!(item.oversized);
            assert!(item.file.is_none());
        }
        _ => panic!("expected media"),
    }
    assert!(matches!(
        dispatch(media(3, 6, 1), &mut seen, &live(), false),
        Dispatch::Ignore
    ));
}

#[test]
fn placeholder_routes_download_nothing() {
    let live = Live::build(
        vec![
            route("r1", &["a"], &[], Some(MediaMode::Placeholder)),
            route("r2", &["b"], &[], None),
        ],
        hooks(&["a", "b"]),
        MediaCfg {
            mode: MediaMode::Placeholder,
            max_bytes: 100,
        },
    );
    match dispatch(media(1, 5, 1), &mut Dedup::new(8), &live, false) {
        Dispatch::Media { item, download, .. } => {
            assert!(!download);
            assert!(!item.oversized);
            let urls: Vec<&str> = item.targets.iter().map(|t| t.url.0.as_str()).collect();
            assert_eq!(urls, vec!["https://x/a", "https://x/b"]);
        }
        _ => panic!("expected media"),
    }
}

#[test]
fn chats_without_a_route_go_nowhere() {
    let mut incoming = text(1, "gm");
    if let Incoming::Text { chat, .. } = &mut incoming {
        *chat = ChatId(6);
    }
    match dispatch(incoming, &mut Dedup::new(8), &live(), true) {
        Dispatch::Texts(ds) => assert!(ds.is_empty()),
        Dispatch::Ignore => {}
        _ => panic!("expected nothing"),
    }
}

#[test]
fn delivered_texts_carry_their_latency() {
    let mut seen = Dedup::new(8);
    let id = ((1_609_459_200_240u64 - 1_420_070_400_000) << 22).to_string();
    match dispatch(text(1, "gm"), &mut seen, &live(), false) {
        Dispatch::Texts(mut ds) => {
            let d = ds.remove(0);
            let r = delivered(d.record, id.clone(), d.date.as_deref());
            assert_eq!(r.latency_ms, Some(240));
            assert_eq!(r.discord_msg_id, id);
        }
        _ => panic!("expected texts"),
    }
}

fn message(msg_id: i32, grouped_id: Option<i64>, text: &str, media: Option<ParsedMedia>) -> Message {
    Message {
        chat: ChatId(5),
        msg_id,
        grouped_id,
        text: text.into(),
        raw_media: media.is_some(),
        media,
        sender: None,
        title: None,
        username: None,
        size: Some(10),
        date: "2021-01-01T00:00:00Z".into(),
    }
}

#[test]
fn a_running_relay() {
    let s = 1_000_000_000u64;
    let mut r = Relay::new(live(), false, 0);
    assert!(!r.on_liveness_tick(119 * s));
    assert!(r.on_liveness_tick(120 * s));
    assert_eq!(r.on_probe(&Probe::Failed), Verdict::GoOn);
    assert!(matches!(
        r.on_update(&Event::NewMessage(message(1, None, "gm", None)), 121 * s),
        Dispatch::Texts(_)
    ));
    assert!(!r.on_liveness_tick(130 * s));
    assert!(matches!(
        r.on_update(&Event::MessageEdited(message(1, None, "gm!", None)), 122 * s),
        Dispatch::Ignore
    ));
    assert!(matches!(r.on_update(&Event::Other, 123 * s), Dispatch::Ignore));
    let event = Event::NewMessage(message(2, Some(3), "cap", Some(ParsedMedia::Photo)));
    let item = match r.on_update(&event, 124 * s) {
        Dispatch::Media { item, .. } => item,
        _ => panic!("expected media"),
    };
    assert!(r.on_media(item, 125 * s).is_none());
    assert!(r.on_media_tick(125 * s + s / 2).is_none());
    assert_eq!(r.on_media_tick(126 * s).map(|b| b.len()), Some(1));
    r.on_reload(vec![], hooks(&[]), r.live.media);
    assert!(matches!(
        r.on_update(&Event::NewMessage(message(9, None, "gm", None)), 127 * s),
        Dispatch::Texts(ref ds) if ds.is_empty()
    ));
    assert!(r.on_end().is_empty());
}

#[test]
fn oldest_first_reverses_newest_to_oldest_order() {
    assert_eq!(oldest_first(vec![103, 102, 101]), vec![101, 102, 103]);
}

#[test]
fn oldest_first_handles_empty_and_singleton() {
    assert_eq!(oldest_first::<i32>(vec![]), Vec::<i32>::new());
    assert_eq!(oldest_first(vec![42]), vec![42]);
}

#[test]
fn oldest_first_is_involutive() {
    let original = vec![5, 4, 3, 2, 1];
    let once = oldest_first(original.clone());
    assert_eq!(once, vec![1, 2, 3, 4, 5]);
    assert_eq!(oldest_first(once), original);
}

fn cfg_route(name: &str, keywords: &[&str]) -> RouteCfg {
    let r = route(name, &["a", "ghost"], keywords, None);
    RouteCfg {
        name: r.name,
        label: None,
        from: ChatRef::Id(r.chat),
        to: r.to,
        filter: r.filter,
        color: r.color,
        media_mode: None,
    }
}

#[test]
fn routes_are_found_by_name() {
    let routes = vec![cfg_route("one", &[]), cfg_route("two", &[])];
    assert_eq!(find_route(&routes, "two", "config.yaml"), Ok(1));
    assert_eq!(
        find_route(&routes, "x", "config.yaml"),
        Err("route 'x' not found in config.yaml; available route(s): one, two".to_string())
    );
    assert_eq!(
        find_route(&vec![], "x", "c"),
        Err("route 'x' not found in c; available route(s): (none configured)".to_string())
    );
}

#[test]
fn a_backfill_needs_targets() {
    let r = cfg_route("one", &[]);
    let ts = match backfill_targets(&r, &hooks(&["a"]), MediaMode::Reupload) {
        Ok(ts) => ts,
        Err(e) => panic!("{e}"),
    };
    assert_eq!(ts.len(), 1);
    match backfill_targets(&r, &hooks(&["b"]), MediaMode::Reupload) {
        Ok(_) => panic!("expected no target"),
        Err(e) => assert_eq!(
            e,
            "route 'one' has no resolvable webhook targets; check config.yaml"
        ),
    }
}

fn past(msg_id: i32, grouped_id: Option<i64>, body: &str, media: Option<ParsedMedia>) -> Past {
    let mut reactions = Reactions::new();
    reactions.set("👍", 4);
    Past {
        message: message(msg_id, grouped_id, body, media),
        fetched: FetchedPost {
            title: String::new(),
            body: body.into(),
            deep_link: None,
            reactions,
            comment_count: None,
            date: Some("2021-01-01T00:00:00Z".into()),
        },
    }
}

#[test]
fn albums_in_history_stay_together() {
    let groups = group_albums(vec![
        past(1, None, "a", None),
        past(2, Some(9), "", None),
        past(3, Some(9), "b", None),
        past(4, Some(8), "", None),
        past(5, None, "", None),
        past(6, None, "", None),
    ]);
    let ids: Vec<Vec<i32>> = groups
        .iter()
        .map(|g| g.iter().map(|p| p.message.msg_id).collect())
        .collect();
    assert_eq!(ids, vec![vec![1], vec![2, 3], vec![4], vec![5], vec![6]]);
}

#[test]
fn groups_are_planned() {
    let r = cfg_route("one", &["gm"]);
    let empty = vec![past(1, None, " ", None)];
    assert_eq!(plan_group(&empty, &r), GroupStep::Empty);
    let other = vec![past(1, None, "hello", None)];
    assert_eq!(plan_group(&other, &r), GroupStep::Filtered);
    let plain = vec![past(1, None, "GM", None)];
    assert_eq!(plan_group(&plain, &r), GroupStep::Post);
    let album = vec![
        past(1, Some(9), "", Some(ParsedMedia::Photo)),
        past(2, Some(9), "gm", Some(ParsedMedia::Photo)),
    ];
    assert_eq!(plan_group(&album, &r), GroupStep::Post);
}

fn one_target(mode: MediaMode) -> Vec<MediaTarget> {
    match backfill_targets(&cfg_route("one", &[]), &hooks(&["a"]), mode) {
        Ok(ts) => ts,
        Err(e) => panic!("{e}"),
    }
}

#[test]
fn groups_are_posted_without_their_files() {
    let mut album = vec![
        past(1, Some(9), "", Some(ParsedMedia::Photo)),
        past(2, Some(9), "gm", Some(ParsedMedia::Photo)),
    ];
    album[1].fetched.deep_link = Some("https://t.me/c/2".into());
    for mode in [MediaMode::Reupload, MediaMode::Placeholder] {
        let ds = group_post(&album, 5, &one_target(mode));
        assert_eq!(ds.len(), 1);
        assert_eq!(ds[0].text.body, "gm\nmedia omitted (backfill)");
        assert_eq!(ds[0].meta.deep_link.as_deref(), Some("https://t.me/c/2"));
        assert_eq!(ds[0].meta.title, "one");
        assert_eq!(ds[0].meta.reactions.get("👍"), Some(4));
        assert_eq!(ds[0].record.content_hash, content_hash("gm"));
        assert_eq!(ds[0].record.tg_msg_id, 2);
        assert_eq!(ds[0].record.latency_ms, None);
        assert_eq!(ds[0].date, None);
    }
    let bare = vec![past(3, None, "", Some(ParsedMedia::Photo))];
    let ds = group_post(&bare, 5, &one_target(MediaMode::Reupload));
    assert_eq!(ds[0].text.body, "media omitted (backfill)");
    let plain = vec![past(4, None, "gm", None)];
    let ds = group_post(&plain, 5, &one_target(MediaMode::Reupload));
    assert_eq!(ds[0].text.body, "gm");
}

#[test]
fn a_backfill_from_start_to_end() {
    let r = cfg_route("one", &["gm"]);
    let newest_first = || {
        vec![
            past(6, None, "gm again", None),
            past(5, None, " ", None),
            past(4, Some(9), "", Some(ParsedMedia::Photo)),
            past(3, Some(9), "gm", Some(ParsedMedia::Photo)),
            past(2, None, "hello", None),
            past(1, None, "gm", None),
        ]
    };
    let targets = one_target(MediaMode::Reupload);
    let mut store = Store::new();
    let mut first = plan_backfill(newest_first(), &r, 5, &targets);
    assert_eq!(
        (first.fetched, first.skipped_empty, first.skipped_filter),
        (6, 1, 1)
    );
    let ids: Vec<i32> = first.texts.iter().map(|d| d.record.tg_msg_id).collect();
    assert_eq!(ids, vec![1, 3, 6]);
    let mut fates = Vec::new();
    for d in std::mem::take(&mut first.texts) {
        assert_eq!(text_step(&d, &store), TargetStep::Post { attach: false });
        let id = d.record.tg_msg_id;
        let result = if id == 6 {
            PostResult::Dropped {
                reason: "no".into(),
            }
        } else {
            PostResult::Delivered {
                discord_msg_id: id.to_string(),
                image_urls: vec![],
            }
        };
        fates.push(fate_after(&result));
        if let Some(record) = text_record_for(d, result) {
            assert_eq!(record.latency_ms, None);
            store.record(record, 7);
        }
    }
    let t = tally(&first, &fates);
    assert_eq!((t.posted, t.dropped, t.skipped_dupe), (2, 1, 0));
    let again = plan_backfill(newest_first(), &r, 5, &targets);
    let steps: Vec<TargetStep> = again.texts.iter().map(|d| text_step(d, &store)).collect();
    assert_eq!(
        steps,
        vec![
            TargetStep::Skip,
            TargetStep::Skip,
            TargetStep::Post { attach: false }
        ]
    );
}

#[test]
fn backfill_in_words() {
    let t = Tally {
        fetched: 5,
        posted: 1,
        skipped_empty: 1,
        skipped_filter: 2,
        skipped_dupe: 0,
        dropped: 1,
    };
    assert_eq!(
        summary("r", &t),
        "backfill 'r': 5 fetched, 1 posted, 1 skipped (no content), 2 skipped (filter), \
         0 skipped (already relayed), 1 dropped"
    );
}
