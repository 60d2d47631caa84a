use telegram_relay::config::{ChatId, ChatRef, RouteCfg, WebhookName};
use telegram_relay::render::DEFAULT_EMBED_COLOR;
use telegram_relay::telegram::{
    classify, classify_media, combine_body, deep_link, has_relayable_content, media_filename,
    resolve_routes, route_message, source_title, Event, Incoming, Lookup, MediaClass, MediaNotice,
    Message, ParsedMedia, Routing,
};

#[test]
fn text_only_message_relays() {
    assert!(has_relayable_content("gm", false));
}

#[test]
fn media_with_caption_relays() {
    assert!(has_relayable_content("nice video", true));
}

#[test]
fn captionless_media_still_relays() {
    assert!(has_relayable_content("", true));
}

#[test]
fn service_or_empty_message_is_skipped() {
    assert!(!has_relayable_content("", false));
}

#[test]
fn whitespace_only_no_media_is_skipped() {
    assert!(!has_relayable_content("   \n  ", false));
}

fn number(n: f64) -> String {
    format!("{n}")
}

#[test]
fn media_notice_render_covers_each_variant() {
    assert_eq!(
        MediaNotice::Poll {
            question: "Best chain?".into(),
            options: vec!["ETH".into(), "SOL".into()],
        }
        .render(),
        "[poll] Best chain?\n• ETH\n• SOL"
    );
    assert_eq!(
        MediaNotice::Location {
            lat: number(48.8),
            lng: number(2.3)
        }
        .render(),
        "[location] 48.8, 2.3"
    );
    assert_eq!(
        MediaNotice::LiveLocation {
            coords: Some((number(1.0), number(2.0)))
        }
        .render(),
        "[live location] 1, 2"
    );
    assert_eq!(
        MediaNotice::LiveLocation { coords: None }.render(),
        "[live location]"
    );
    assert_eq!(
        MediaNotice::Venue {
            title: "Blue Bottle".into(),
            address: "1 Main St".into(),
        }
        .render(),
        "[venue] Blue Bottle — 1 Main St"
    );
    assert_eq!(
        MediaNotice::Contact {
            name: "Rob".into(),
            phone: "+1555".into(),
        }
        .render(),
        "[contact] Rob — +1555"
    );
    assert_eq!(
        MediaNotice::Dice {
            emoji: "🎯".into(),
            value: 5,
        }
        .render(),
        "[dice] 🎯 5"
    );
    assert_eq!(MediaNotice::Unsupported.render(), "[unsupported media]");
}

#[test]
fn combine_body_joins_and_handles_empty_caption() {
    assert_eq!(combine_body("", "[poll] Q"), "[poll] Q");
    assert_eq!(combine_body("   \n ", "[poll] Q"), "[poll] Q");
    assert_eq!(
        combine_body("look at this", "[poll] Q"),
        "look at this\n[poll] Q"
    );
}

fn notice_of(m: &ParsedMedia) -> MediaNotice {
    match classify_media(m) {
        MediaClass::AsText(Some(n)) => n,
        other => panic!("expected a non-file text notice, got {other:?}"),
    }
}

#[test]
fn webpage_routes_to_text_not_file() {
    assert!(matches!(
        classify_media(&ParsedMedia::WebPage),
        MediaClass::AsText(None)
    ));
}

#[test]
fn photo_and_document_are_files() {
    let dice = ParsedMedia::Dice {
        emoji: "🎲".into(),
        value: 1,
    };
    assert!(!matches!(classify_media(&dice), MediaClass::File));
    for file in [
        ParsedMedia::Photo,
        ParsedMedia::Document { name: None },
        ParsedMedia::Sticker,
    ] {
        assert!(matches!(classify_media(&file), MediaClass::File));
    }
}

#[test]
fn dice_maps_to_dice_notice() {
    let d = ParsedMedia::Dice {
        emoji: "🎲".into(),
        value: 6,
    };
    assert!(
        matches!(notice_of(&d), MediaNotice::Dice { ref emoji, value: 6 } if emoji == "🎲")
    );
}

#[test]
fn contact_maps_to_contact_notice() {
    let c = ParsedMedia::Contact {
        first_name: "Rob".into(),
        last_name: "T".into(),
        phone: "+15551234".into(),
    };
    assert!(matches!(
        notice_of(&c),
        MediaNotice::Contact { ref name, ref phone } if name == "Rob T" && phone == "+15551234"
    ));
}

#[test]
fn venue_maps_to_venue_notice() {
    let v = ParsedMedia::Venue {
        title: "Blue Bottle".into(),
        address: "1 Main St".into(),
    };
    assert!(matches!(
        notice_of(&v),
        MediaNotice::Venue { ref title, ref address }
            if title == "Blue Bottle" && address == "1 Main St"
    ));
}

#[test]
fn geo_maps_to_location() {
    let g = ParsedMedia::Geo {
        lat: number(48.8),
        lng: number(2.3),
    };
    assert!(matches!(
        notice_of(&g),
        MediaNotice::Location { ref lat, ref lng } if lat == "48.8" && lng == "2.3"
    ));
}

#[test]
fn geolive_maps_to_live_location() {
    let g = ParsedMedia::GeoLive {
        coords: Some((number(10.0), number(5.0))),
    };
    match notice_of(&g) {
        MediaNotice::LiveLocation { coords } => {
            assert_eq!(coords, Some(("10".to_string(), "5".to_string())))
        }
        other => panic!("expected a live location, got {other:?}"),
    }
}

#[test]
fn unknown_media_is_announced() {
    assert_eq!(notice_of(&ParsedMedia::Other).render(), "[unsupported media]");
    assert!(matches!(
        route_message("look", &None, true),
        Routing::Text(ref b) if b == "look\n[unsupported media]"
    ));
    assert!(matches!(route_message(" ", &None, false), Routing::Skip));
}

#[test]
fn file_names() {
    assert_eq!(media_filename(&ParsedMedia::Photo, 7), "photo_7.jpg");
    assert_eq!(media_filename(&ParsedMedia::Sticker, 7), "sticker_7.webp");
    let named = ParsedMedia::Document {
        name: Some("report.pdf".into()),
    };
    assert_eq!(media_filename(&named, 7), "report.pdf");
    let unnamed = ParsedMedia::Document {
        name: Some(String::new()),
    };
    assert_eq!(media_filename(&unnamed, 7), "file_7.bin");
    assert_eq!(media_filename(&ParsedMedia::WebPage, 7), "media_7.bin");
}

fn message(text: &str, media: Option<ParsedMedia>) -> Message {
    Message {
        chat: ChatId(-100),
        msg_id: 42,
        grouped_id: None,
        text: text.into(),
        raw_media: media.is_some(),
        media,
        sender: Some("Rob".into()),
        title: Some("Chan".into()),
        username: Some("chan".into()),
        size: None,
        date: "2026-07-20T12:00:00Z".into(),
    }
}

#[test]
fn events_are_classified() {
    match classify(&Event::NewMessage(message("gm", None))) {
        Some(Incoming::Text {
            body,
            edited,
            deep_link,
            msg_id,
            ..
        }) => {
            assert_eq!(body, "gm");
            assert!(!edited);
            assert_eq!(msg_id, 42);
            assert_eq!(deep_link.as_deref(), Some("https://t.me/chan/42"));
        }
        _ => panic!("expected a text"),
    }
    assert!(matches!(
        classify(&Event::MessageEdited(message("gm", None))),
        Some(Incoming::Text { edited: true, .. })
    ));
    match classify(&Event::NewMessage(message("", Some(ParsedMedia::Photo)))) {
        Some(Incoming::Media {
            filename,
            approx_size,
            ..
        }) => {
            assert_eq!(filename, "photo_42.jpg");
            assert_eq!(approx_size, 0);
        }
        _ => panic!("expected media"),
    }
    assert!(classify(&Event::NewMessage(message(" ", None))).is_none());
    assert!(classify(&Event::Other).is_none());
}

#[test]
fn links_need_a_public_name() {
    assert_eq!(deep_link(&None, 5), None);
    assert_eq!(
        deep_link(&Some("c".to_string()), 5).as_deref(),
        Some("https://t.me/c/5")
    );
}

fn route(name: &str, from: ChatRef) -> RouteCfg {
    RouteCfg {
        name: name.into(),
        label: None,
        from,
        to: vec![WebhookName("h".into())],
        filter: None,
        color: DEFAULT_EMBED_COLOR,
        media_mode: None,
    }
}

#[test]
fn unresolved_routes_are_reported_and_the_rest_goes_on() {
    let routes = vec![
        route("a", ChatRef::Username("chan".into())),
        route("b", ChatRef::Username("ghost".into())),
        route("c", ChatRef::Id(ChatId(-9))),
        route("d", ChatRef::Username("down".into())),
    ];
    let found = vec![
        Lookup::Found {
            id: 77,
            title: Some("Chan".into()),
        },
        Lookup::NotFound,
        Lookup::NotFound,
        Lookup::Failed("flood".into()),
    ];
    let res = resolve_routes(&routes, &found).unwrap();
    let chats: Vec<i64> = res.routes.iter().map(|r| r.chat.0).collect();
    assert_eq!(chats, vec![77, -9]);
    assert_eq!(
        res.failures,
        vec![
            "route 'b': username '@ghost' not found".to_string(),
            "route 'd': flood".to_string(),
        ]
    );
    assert_eq!(source_title(&routes[0].from, &found[0]), "Chan");
    assert_eq!(source_title(&routes[2].from, &found[2]), "id:-9");
}

#[test]
fn no_route_at_all_is_an_error() {
    let routes = vec![route("b", ChatRef::Username("ghost".into()))];
    let e = match resolve_routes(&routes, &vec![Lookup::NotFound]) {
        Ok(_) => panic!("expected a failure"),
        Err(e) => e,
    };
    assert!(e.starts_with("no route could be resolved: "));
    assert!(e.contains("ghost"));
    assert!(resolve_routes(&vec![], &vec![]).is_ok());
}
