use telegram_relay::cli::{clamp_backfill_count, BACKFILL_DEFAULT_COUNT, BACKFILL_MAX_COUNT};
use telegram_relay::config::{
    effective_media_mode, parse_hex_color, ChatId, ChatRef, Config, ConfigError, MediaMode,
    RefreshCfg, StoreCfg, WebhookName, WebhookUrl,
};
use telegram_relay::raw;
use telegram_relay::render::DEFAULT_EMBED_COLOR;

#[test]
fn clamp_backfill_count_passes_through_in_range() {
    assert_eq!(clamp_backfill_count(1), 1);
    assert_eq!(clamp_backfill_count(3), 3);
    assert_eq!(clamp_backfill_count(BACKFILL_MAX_COUNT), BACKFILL_MAX_COUNT);
}

#[test]
fn clamp_backfill_count_caps_at_max() {
    assert_eq!(clamp_backfill_count(26), BACKFILL_MAX_COUNT);
    assert_eq!(clamp_backfill_count(1_000_000), BACKFILL_MAX_COUNT);
}

#[test]
fn clamp_backfill_count_floors_at_one() {
    assert_eq!(clamp_backfill_count(0), 1);
}

#[test]
fn clamp_backfill_count_matches_cli_defaults() {
    assert_eq!(clamp_backfill_count(BACKFILL_DEFAULT_COUNT), 3);
    assert_eq!(
        clamp_backfill_count(BACKFILL_MAX_COUNT + 100),
        BACKFILL_MAX_COUNT
    );
}

const HOOK: &str = "https://discord.com/api/webhooks/1/x";

fn env_ref(env: &str, value: Option<&str>) -> raw::EnvRef {
    raw::EnvRef {
        env: env.to_string(),
        value: value.map(|v| v.to_string()),
    }
}

fn hook(name: &str, env: &str, value: Option<&str>) -> raw::Webhook {
    raw::Webhook {
        name: name.to_string(),
        label: None,
        url: env_ref(env, value),
    }
}

fn raw_route(name: &str, from: raw::From, to: &[&str]) -> raw::Route {
    raw::Route {
        name: name.to_string(),
        label: None,
        from,
        to: to.iter().map(|s| s.to_string()).collect(),
        filter: None,
        color: None,
        mode: None,
    }
}

fn root(routes: Vec<raw::Route>, webhooks: Vec<raw::Webhook>) -> raw::Root {
    raw::Root {
        routes,
        webhooks,
        ops_webhook: None,
        media: raw::Media {
            mode: "reupload".to_string(),
            max_bytes: 1000,
        },
        refresh: None,
        store: None,
        contract_passthrough: None,
    }
}

fn refused(r: &raw::Root) -> String {
    match Config::load(r) {
        Ok(_) => panic!("expected the configuration to be refused"),
        Err(e) => e.message(),
    }
}

fn loaded(r: &raw::Root) -> Config {
    match Config::load(r) {
        Ok(c) => c,
        Err(e) => panic!("refused: {}", e.message()),
    }
}

fn named(s: &str) -> raw::From {
    raw::From::Text(s.to_string())
}

#[test]
fn loads_valid_config() {
    let c = loaded(&root(
        vec![raw_route("r1", named("@chan"), &["h1"])],
        vec![hook("h1", "TEST_HOOK", Some(HOOK))],
    ));
    assert_eq!(c.routes.len(), 1);
    assert!(matches!(c.routes[0].from, ChatRef::Username(ref u) if u == "chan"));
}

#[test]
fn refresh_and_store_default_when_absent() {
    let c = loaded(&root(vec![], vec![hook("h1", "TEST_HOOK_DEF", Some(HOOK))]));
    assert_eq!(c.refresh.interval_mins, 30);
    assert_eq!(c.refresh.horizon_hours, 48);
    assert_eq!(c.refresh.reaction_horizon_mins, 60);
    assert_eq!(c.refresh.reaction_early_check_secs, 60);
    assert_eq!(c.store.path, "relay.db");
}

#[test]
fn refresh_reaction_knobs_override_parses() {
    let mut r = root(vec![], vec![hook("h1", "TEST_HOOK_RXN", Some(HOOK))]);
    r.refresh = Some(raw::Refresh {
        interval_mins: None,
        horizon_hours: None,
        reaction_horizon_mins: Some(90),
        reaction_early_check_secs: Some(30),
    });
    let c = loaded(&r);
    assert_eq!(c.refresh.interval_mins, 30);
    assert_eq!(c.refresh.horizon_hours, 48);
    assert_eq!(c.refresh.reaction_horizon_mins, 90);
    assert_eq!(c.refresh.reaction_early_check_secs, 30);
}

#[test]
fn refresh_and_store_override_parses() {
    let mut r = root(vec![], vec![hook("h1", "TEST_HOOK_OVR", Some(HOOK))]);
    r.refresh = Some(raw::Refresh {
        interval_mins: Some(15),
        horizon_hours: Some(72),
        reaction_horizon_mins: None,
        reaction_early_check_secs: None,
    });
    r.store = Some(raw::Store {
        path: Some("/tmp/custom.db".to_string()),
    });
    let c = loaded(&r);
    assert_eq!(c.refresh.interval_mins, 15);
    assert_eq!(c.refresh.horizon_hours, 72);
    assert_eq!(c.store.path, "/tmp/custom.db");
}

#[test]
fn numeric_from_parses_to_id() {
    let c = loaded(&root(
        vec![raw_route("r1", raw::From::Int(-1001234), &["h1"])],
        vec![hook("h1", "TEST_HOOK_2", Some(HOOK))],
    ));
    assert!(matches!(c.routes[0].from, ChatRef::Id(ChatId(-1001234))));
}

#[test]
fn missing_env_names_the_field() {
    let e = refused(&root(vec![], vec![hook("h1", "NOPE_HOOK", None)]));
    assert!(
        e.contains("NOPE_HOOK"),
        "error should name the env var: {e}"
    );
    assert_eq!(e, "webhook 'h1': env var NOPE_HOOK is not set");
}

#[test]
fn route_to_unknown_webhook_rejected() {
    let e = refused(&root(
        vec![raw_route("r1", named("@c"), &["ghost"])],
        vec![],
    ));
    assert!(e.contains("ghost"));
    assert_eq!(e, "route 'r1' references unknown webhook 'ghost'");
}

#[test]
fn webhook_url_debug_is_redacted() {
    let u = WebhookUrl("https://discord.com/api/webhooks/1/SECRET".into());
    assert!(!u.redacted().contains("SECRET"));
}

#[test]
fn bool_from_rejected() {
    let e = refused(&root(
        vec![raw_route("r1", raw::From::Bool(true), &["h1"])],
        vec![hook("h1", "TEST_HOOK_BOOL", Some(HOOK))],
    ));
    assert!(
        e.contains("'from'") && e.contains("from"),
        "error should mention 'from' field: {e}"
    );
}

#[test]
fn parse_hex_color_accepts_valid_forms() {
    assert_eq!(parse_hex_color("#29B6F6"), Some(0x29B6F6));
    assert_eq!(parse_hex_color("29B6F6"), Some(0x29B6F6));
    assert_eq!(parse_hex_color("#000000"), Some(0));
    assert_eq!(parse_hex_color("#ffffff"), Some(0xFFFFFF));
    assert_eq!(parse_hex_color("#FfEeDd"), Some(0xFFEEDD));
}

#[test]
fn parse_hex_color_rejects_malformed() {
    assert_eq!(parse_hex_color(""), None);
    assert_eq!(parse_hex_color("#"), None);
    assert_eq!(parse_hex_color("#29B6F"), None);
    assert_eq!(parse_hex_color("#29B6F6F"), None);
    assert_eq!(parse_hex_color("#FFF"), None);
    assert_eq!(parse_hex_color("#GGGGGG"), None);
    assert_eq!(parse_hex_color("#29B6F6\n"), None);
    assert_eq!(parse_hex_color("blue"), None);
    assert_eq!(parse_hex_color("#29B6F6ff"), None);
}

#[test]
fn color_defaults_to_neon_blue_when_unset() {
    let c = loaded(&root(
        vec![raw_route("r1", named("@c"), &["h1"])],
        vec![hook("h1", "TEST_HOOK_COLOR_DEF", Some(HOOK))],
    ));
    assert_eq!(c.routes[0].color, DEFAULT_EMBED_COLOR);
}

#[test]
fn color_override_parses_to_u32() {
    let mut r = raw_route("r1", named("@c"), &["h1"]);
    r.color = Some("#FF8800".to_string());
    let c = loaded(&root(
        vec![r],
        vec![hook("h1", "TEST_HOOK_COLOR_OVR", Some(HOOK))],
    ));
    assert_eq!(c.routes[0].color, 0xFF8800);
}

#[test]
fn malformed_color_rejected_naming_the_route() {
    let mut r = raw_route("neon-route", named("@c"), &["h1"]);
    r.color = Some("not-a-color".to_string());
    let e = refused(&root(
        vec![r],
        vec![hook("h1", "TEST_HOOK_COLOR_BAD", Some(HOOK))],
    ));
    assert!(e.contains("neon-route"), "error should name the route: {e}");
    assert!(
        e.contains("not-a-color"),
        "error should echo the bad value: {e}"
    );
}

#[test]
fn float_from_rejected() {
    let e = refused(&root(
        vec![raw_route(
            "r1",
            raw::From::OtherNumber("1.5".to_string()),
            &["h1"],
        )],
        vec![hook("h1", "TEST_HOOK_FLOAT", Some(HOOK))],
    ));
    assert!(
        e.contains("'from'") && e.contains("from"),
        "error should mention 'from' field: {e}"
    );
}

#[test]
fn every_other_source_is_refused() {
    for from in [
        raw::From::Null,
        raw::From::Sequence,
        raw::From::Mapping,
        raw::From::Other("!tag".to_string()),
    ] {
        let e = refused(&root(
            vec![raw_route("r1", from, &["h1"])],
            vec![hook("h1", "E", Some(HOOK))],
        ));
        assert!(e.starts_with("route 'r1': 'from' must be a string or integer, got "));
    }
}

#[test]
fn route_without_webhooks_is_refused() {
    let e = refused(&root(
        vec![raw_route("lonely", named("@c"), &[])],
        vec![hook("h1", "E", Some(HOOK))],
    ));
    assert_eq!(e, "route 'lonely': 'to' must list at least one webhook");
}

#[test]
fn file_errors_in_words() {
    let io = ConfigError::Io {
        path: "config.yaml".to_string(),
        source: "not found".to_string(),
    };
    assert_eq!(io.message(), "cannot read config.yaml: not found");
    let yaml = ConfigError::Yaml("line 3".to_string());
    assert_eq!(yaml.message(), "invalid YAML: line 3");
}

#[test]
fn labels_fall_back_to_names() {
    let mut labelled = hook("h2", "E2", Some(HOOK));
    labelled.label = Some("server · #news".to_string());
    let c = loaded(&root(vec![], vec![hook("h1", "E1", Some(HOOK)), labelled]));
    assert_eq!(c.webhook_labels.get("h1").map(|s| s.as_str()), Some("h1"));
    assert_eq!(
        c.webhook_labels.get("h2").map(|s| s.as_str()),
        Some("server · #news")
    );
    assert!(c.webhook_labels.get("h3").is_none());
    assert!(!c.contract_passthrough);
}

#[test]
fn media_mode_of_a_route_wins() {
    let mut r = raw_route("r1", named("@c"), &["h1"]);
    r.mode = Some("placeholder".to_string());
    let c = loaded(&root(
        vec![r, raw_route("r2", named("@c"), &["h1"])],
        vec![hook("h1", "E", Some(HOOK))],
    ));
    assert_eq!(c.media.mode, MediaMode::Reupload);
    assert_eq!(
        effective_media_mode(c.routes[0].media_mode, c.media.mode),
        MediaMode::Placeholder
    );
    assert_eq!(
        effective_media_mode(c.routes[1].media_mode, c.media.mode),
        MediaMode::Reupload
    );
}

#[test]
fn unknown_media_modes_are_refused_by_field() {
    let hooks = || vec![hook("h1", "E", Some(HOOK))];
    let mut r = root(vec![], hooks());
    r.media.mode = "re-upload".to_string();
    assert_eq!(
        refused(&r),
        "media.mode: invalid mode 're-upload'; expected 'reupload' or 'placeholder'"
    );
    r.media.mode = "placeholder".to_string();
    assert_eq!(loaded(&r).media.mode, MediaMode::Placeholder);

    let mut route = raw_route("r1", named("@c"), &["h1"]);
    route.mode = Some("Placeholder".to_string());
    let r = root(vec![route], hooks());
    assert_eq!(
        refused(&r),
        "routes[r1].mode: invalid mode 'Placeholder'; expected 'reupload' or 'placeholder'"
    );
    assert!(matches!(
        Config::load(&r),
        Err(ConfigError::InvalidMode { .. })
    ));
}

#[test]
fn every_route_has_a_target_with_an_address() {
    let c = loaded(&root(
        vec![
            raw_route("r1", named("@a"), &["h1", "h2"]),
            raw_route("r2", raw::From::Int(5), &["h2"]),
        ],
        vec![hook("h1", "E1", Some(HOOK)), hook("h2", "E2", Some("u2"))],
    ));
    for r in &c.routes {
        assert!(!r.to.is_empty());
        for WebhookName(n) in &r.to {
            assert!(c.webhooks.get(n).is_some());
        }
    }
    assert_eq!(c.webhooks.get("h2").map(|u| u.0.as_str()), Some("u2"));
}

#[test]
fn ops_webhook_needs_its_variable_too() {
    let mut r = root(vec![], vec![]);
    r.ops_webhook = Some(env_ref("OPS", None));
    assert!(refused(&r).contains("OPS"));
    r.ops_webhook = Some(env_ref("OPS", Some("u")));
    assert_eq!(loaded(&r).ops_webhook.map(|u| u.0), Some("u".to_string()));
}

#[test]
fn defaults_as_documented() {
    let r = RefreshCfg::default();
    assert_eq!((r.interval_mins, r.horizon_hours), (30, 48));
    assert_eq!(
        (r.reaction_horizon_mins, r.reaction_early_check_secs),
        (60, 60)
    );
    assert_eq!(StoreCfg::default().path, "relay.db");
}
