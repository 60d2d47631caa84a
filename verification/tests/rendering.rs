use std::collections::BTreeSet;

use telegram_relay::chunks::{split_chunks, split_desc};
use telegram_relay::config::Filter;
use telegram_relay::reactions::Reactions;
use telegram_relay::render::{
    attach_image_attachments, attach_image_urls, embed, embed_timestamp, embed_with_footer,
    embeds_json, footer_variant, is_image_filename, passes_filter, passes_lowered_filter, render,
    stats_line, strike, Embed, EmbedMeta, RelayText, DEFAULT_EMBED_COLOR, DELETED_EMBED_COLOR,
    DISCORD_LIMIT, EDITED_EMBED_COLOR,
    EMBED_DESC_LIMIT, FOOTERS, MAX_EMBEDS,
};
use telegram_relay::text;

#[test]
fn image_filename_detection() {
    for ok in ["a.jpg", "b.JPEG", "c.png", "d.gif", "e.WEBP"] {
        assert!(is_image_filename(ok), "{ok} should be an image");
    }
    for no in ["clip.mp4", "doc.pdf", "v.mov", "noext", "song.mp3"] {
        assert!(!is_image_filename(no), "{no} should NOT be an image");
    }
}

fn plain(description: &str) -> Vec<Embed> {
    vec![Embed {
        description: Some(description.to_string()),
        color: None,
        author: None,
        field: None,
        footer: None,
        timestamp: None,
        image: None,
        url: None,
    }]
}

fn texts(l: &[&str]) -> Vec<String> {
    l.iter().map(|s| s.to_string()).collect()
}

#[test]
fn single_image_referenced_inside_embed() {
    let mut embeds = plain("gm");
    attach_image_attachments(
        &mut embeds,
        &texts(&["photo_1.jpg"]),
        Some("https://t.me/x/1"),
    );
    let json = embeds_json(&embeds);
    let e = &json.as_array().unwrap()[0];
    assert_eq!(e["image"]["url"], "attachment://photo_1.jpg");
    assert!(e.get("url").is_none());
    assert_eq!(json.as_array().unwrap().len(), 1);
}

#[test]
fn album_images_form_a_shared_url_gallery() {
    let mut embeds = plain("album");
    attach_image_attachments(
        &mut embeds,
        &texts(&["a.jpg", "b.png", "c.webp"]),
        Some("https://t.me/x/1"),
    );
    let json = embeds_json(&embeds);
    let arr = json.as_array().unwrap();
    assert_eq!(arr.len(), 3, "one primary + two image-only embeds");
    for e in arr {
        assert_eq!(e["url"], "https://t.me/x/1");
    }
    assert_eq!(arr[0]["image"]["url"], "attachment://a.jpg");
    assert_eq!(arr[1]["image"]["url"], "attachment://b.png");
    assert_eq!(arr[2]["image"]["url"], "attachment://c.webp");
}

#[test]
fn no_images_leaves_embeds_untouched() {
    let mut embeds = plain("just text");
    attach_image_attachments(&mut embeds, &texts(&[]), None);
    assert!(embeds_json(&embeds).as_array().unwrap()[0]
        .get("image")
        .is_none());
}

#[test]
fn images_never_exceed_the_embeds_of_a_message() {
    let mut embeds = plain("many");
    let names: Vec<String> = (0..30).map(|i| format!("https://x/{i}.jpg")).collect();
    attach_image_urls(&mut embeds, &names, Some("https://t.me/x/1"));
    assert_eq!(embeds.len(), MAX_EMBEDS);
}

fn rt(body: &str) -> RelayText {
    RelayText {
        sender: Some("Rob".into()),
        body: body.into(),
        reply_quote: None,
        edited: false,
    }
}

#[test]
fn short_message_single_chunk_with_sender() {
    let out = render(&rt("gm"));
    assert_eq!(out, vec!["**Rob**: gm".to_string()]);
}

#[test]
fn long_message_splits_under_2000() {
    let body = "para\n\n".repeat(400);
    let out = render(&rt(&body));
    assert!(out.len() >= 2);
    assert!(out.iter().all(|c| c.chars().count() <= 2000));
}

#[test]
fn edited_prefix_and_reply_quote() {
    let t = RelayText {
        sender: None,
        body: "hi".into(),
        reply_quote: Some("orig".into()),
        edited: true,
    };
    let out = render(&t);
    assert!(out[0].starts_with("> orig\n"));
    assert!(out[0].contains("(edited) hi"));
}

#[test]
fn filter_keyword_and_hashtag() {
    let f = Filter {
        any_keywords: vec!["entry".into()],
        exclude_hashtags: vec!["#ad".into()],
    };
    assert!(passes_filter("ENTRY now", &f));
    assert!(!passes_filter("random", &f));
    assert!(!passes_filter("entry #ad", &f));
}

#[test]
fn empty_filter_passes_everything() {
    assert!(passes_filter("anything", &Filter::default()));
}

#[test]
fn filter_ignores_case_on_both_sides() {
    let f = Filter {
        any_keywords: vec!["ÉNTRY".into()],
        exclude_hashtags: vec!["#AD".into()],
    };
    assert!(passes_filter("an éntry", &f));
    assert!(!passes_filter("an éntry #Ad", &f));
    assert!(!passes_lowered_filter("an éntry", &f));
    assert!(passes_lowered_filter("an ÉNTRY", &f));
}

fn reactions(pairs: &[(&str, i32)]) -> Reactions {
    let mut r = Reactions::new();
    for (k, v) in pairs {
        r.set(k, *v);
    }
    r
}

fn meta() -> EmbedMeta {
    EmbedMeta {
        title: "Rob's Channel".into(),
        avatar_url: None,
        deep_link: Some("https://t.me/robthinks/42".into()),
        reactions: reactions(&[("❤️", 47), ("🔥", 12)]),
        comment_count: 8,
        deleted: false,
        color: DEFAULT_EMBED_COLOR,
        timestamp: Some("2026-07-20T12:00:00Z".into()),
    }
}

#[test]
fn stats_line_orders_by_count_then_appends_comments() {
    let line = stats_line(&reactions(&[("❤️", 47), ("🔥", 12)]), 8);
    assert_eq!(line, "❤️ 47 · 🔥 12 · 💬 8");
}

#[test]
fn stats_line_empty_when_nothing() {
    assert_eq!(stats_line(&Reactions::new(), 0), "");
}

#[test]
fn stats_line_ties_go_by_emoji() {
    assert_eq!(
        stats_line(&reactions(&[("b", 2), ("a", 2), ("c", 9)]), 0),
        "c 9 · a 2 · b 2"
    );
}

#[test]
fn footer_variant_is_from_list() {
    for _ in 0..50 {
        assert!(FOOTERS.contains(&footer_variant()));
    }
}

#[test]
fn footer_rotation_is_wide_and_unique() {
    assert_eq!(FOOTERS.len(), 45, "footer rotation changed size");
    let unique: BTreeSet<&&str> = FOOTERS.iter().collect();
    assert_eq!(unique.len(), FOOTERS.len(), "duplicate footer variant");
    assert!(
        FOOTERS.iter().all(|f| !f.trim().is_empty()),
        "empty footer variant"
    );
}

#[test]
fn footer_rotation_actually_varies() {
    let seen: BTreeSet<&str> = (0..500).map(|_| footer_variant()).collect();
    assert!(
        seen.len() > 10,
        "footer_variant looks stuck: only {} distinct in 500 draws",
        seen.len()
    );
}

#[test]
fn embed_has_author_footer_stats_and_deep_link() {
    let out = embeds_json(&embed(&rt("gm frens"), &meta()));
    let arr = out.as_array().expect("array");
    assert_eq!(arr.len(), 1);
    let e = &arr[0];
    assert_eq!(e["author"]["name"], "Rob's Channel");
    assert_eq!(e["author"]["url"], "https://t.me/robthinks/42");
    assert_eq!(e["description"], "gm frens");
    let footer = e["footer"]["text"].as_str().unwrap();
    assert!(footer.starts_with("by zayd — "));
    assert!(FOOTERS.contains(&&footer["by zayd — ".len()..]));
    let field_val = e["fields"][0]["value"].as_str().unwrap();
    assert!(field_val.contains("❤️ 47 · 🔥 12 · 💬 8"));
    assert!(field_val.contains("[↗ View on Telegram](https://t.me/robthinks/42)"));
}

#[test]
fn embed_carries_color_and_source_timestamp() {
    let out = embeds_json(&embed(&rt("gm frens"), &meta()));
    let e = &out[0];
    assert_eq!(e["color"], serde_json::Value::from(DEFAULT_EMBED_COLOR));
    assert_eq!(e["color"].as_u64(), Some(2733814));
    assert_eq!(e["timestamp"], "2026-07-20T12:00:00Z");
}

#[test]
fn embed_honors_custom_color() {
    let mut m = meta();
    m.color = 0xFF0000;
    let out = embeds_json(&embed(&rt("red"), &m));
    assert_eq!(out[0]["color"].as_u64(), Some(0xFF0000));
}

#[test]
fn embed_omits_timestamp_when_unknown() {
    let mut m = meta();
    m.timestamp = None;
    let out = embeds_json(&embed(&rt("no clock"), &m));
    assert!(out[0].get("timestamp").is_none());
    assert_eq!(out[0]["color"].as_u64(), Some(DEFAULT_EMBED_COLOR as u64));
}

#[test]
fn split_embeds_all_share_color_but_timestamp_rides_the_last() {
    let big = "x".repeat(EMBED_DESC_LIMIT * 2 + 10);
    let out = embeds_json(&embed(&rt(&big), &meta()));
    let arr = out.as_array().unwrap();
    assert_eq!(arr.len(), 3);
    assert!(
        arr.iter()
            .all(|e| e["color"].as_u64() == Some(DEFAULT_EMBED_COLOR as u64)),
        "every chunk must carry the stripe, not just the first"
    );
    assert!(arr[0].get("timestamp").is_none());
    assert!(arr[1].get("timestamp").is_none());
    assert_eq!(arr[2]["timestamp"], "2026-07-20T12:00:00Z");
}

#[test]
fn default_embed_meta_is_neon_blue_not_black() {
    assert_eq!(EmbedMeta::default().color, DEFAULT_EMBED_COLOR);
    assert_ne!(EmbedMeta::default().color, 0);
}

#[test]
fn embed_timestamp_formats_rfc3339_utc_seconds() {
    // 2026-07-20 18:04:05 UTC
    assert_eq!(
        embed_timestamp(1_784_570_645, 0).as_deref(),
        Some("2026-07-20T18:04:05Z")
    );
}

#[test]
fn embed_timestamp_truncates_subsecond_precision() {
    let s = embed_timestamp(1_753_000_000, 123_000_000).expect("a time");
    assert!(s.ends_with('Z'), "expected a Z-suffixed UTC stamp: {s}");
    assert!(!s.contains('.'), "sub-second precision leaked: {s}");
}

#[test]
fn embed_timestamp_of_no_time() {
    assert_eq!(embed_timestamp(i64::MAX, 0), None);
}

#[test]
fn embed_edited_prefix_in_description() {
    let t = RelayText {
        sender: None,
        body: "updated text".into(),
        reply_quote: None,
        edited: true,
    };
    let out = embeds_json(&embed(&t, &meta()));
    assert_eq!(out[0]["description"], "(edited) updated text");
}

#[test]
fn embed_deleted_strikes_and_marks() {
    let mut m = meta();
    m.deleted = true;
    let out = embeds_json(&embed(&rt("bye"), &m));
    let desc = out[0]["description"].as_str().unwrap();
    assert!(desc.contains("~~bye~~"));
    assert!(desc.contains("🗑 deleted on Telegram"));
}

#[test]
fn embed_splits_body_over_4096_into_multiple_embeds() {
    let big = "x".repeat(EMBED_DESC_LIMIT * 2 + 10);
    let out = embeds_json(&embed(&rt(&big), &meta()));
    let arr = out.as_array().unwrap();
    assert_eq!(arr.len(), 3);
    assert!(arr[0].get("author").is_some());
    assert!(arr[0].get("footer").is_none());
    assert!(arr[2].get("author").is_none());
    assert!(arr[2].get("footer").is_some());
    assert!(arr
        .iter()
        .all(|e| e["description"].as_str().unwrap().chars().count() <= EMBED_DESC_LIMIT));
}

#[test]
fn embed_caps_at_max_embeds() {
    let huge = "y".repeat(EMBED_DESC_LIMIT * (MAX_EMBEDS + 5));
    let out = embeds_json(&embed(&rt(&huge), &meta()));
    assert_eq!(out.as_array().unwrap().len(), MAX_EMBEDS);
}

#[test]
fn embeds_say_the_whole_text() {
    let big: String = (0..9000).map(|i| char::from(b'a' + (i % 26) as u8)).collect();
    let said: String = embed_with_footer(&rt(&big), &meta(), "f")
        .iter()
        .map(|e| e.description.clone().unwrap())
        .collect();
    assert_eq!(said, big);
}

#[test]
fn oversized_paragraph_hard_splits_cleanly() {
    let oversized_para = "x".repeat(3000);
    let chunks = split_chunks(&oversized_para, DISCORD_LIMIT);
    assert!(chunks.iter().all(|c| !c.is_empty()), "found empty chunk");
    assert!(!chunks.is_empty(), "should have at least one chunk");
    assert!(
        chunks.iter().all(|c| c.chars().count() <= DISCORD_LIMIT),
        "chunk exceeds limit"
    );
    let reconstructed = chunks.join("");
    assert_eq!(
        reconstructed, oversized_para,
        "concatenation should reconstruct the input"
    );
}

#[test]
fn pieces_are_as_long_as_they_can_be() {
    assert_eq!(split_desc("abcdefg", 3), texts(&["abc", "def", "g"]));
    assert_eq!(split_chunks("aa\n\nbb\n\ncc", 6), texts(&["aa\n\nbb", "cc"]));
}

#[test]
fn strike_goes_line_by_line() {
    assert_eq!(strike("a\n\nb"), "~~a~~\n\n~~b~~");
}

#[test]
fn white_space_is_what_the_standard_library_says() {
    for n in 0..=0x10FFFFu32 {
        if let Some(c) = char::from_u32(n) {
            assert_eq!(text::char_is_white_space(c), c.is_whitespace(), "{n:x}");
        }
    }
}

#[test]
fn text_helpers() {
    assert_eq!(text::trim("  a b \n"), " a b ".trim());
    assert!(text::blank(" \t\n"));
    assert!(text::contains("abcabd", "abd"));
    assert!(!text::contains("abc", "abd"));
    assert!(text::contains("abc", ""));
    assert_eq!(text::int_text(i64::MIN), i64::MIN.to_string());
    assert_eq!(text::int_text(-7), "-7");
    assert_eq!(text::int_text(0), "0");
    assert_eq!(text::join(&texts(&["a", "b", "c"]), ", "), "a, b, c");
    assert!(text::text_before("a", "b") && !text::text_before("b", "a"));
    assert!(text::text_before("a", "aa") && !text::text_before("a", "a"));
}

#[test]
fn the_stripe_shows_the_state() {
    let mut m = meta();
    m.color = 0x123456;
    let mut t = rt("x");
    assert_eq!(embed_with_footer(&t, &m, "f")[0].color, Some(0x123456));
    t.edited = true;
    assert_eq!(
        embed_with_footer(&t, &m, "f")[0].color,
        Some(EDITED_EMBED_COLOR)
    );
    m.deleted = true;
    assert_eq!(
        embed_with_footer(&t, &m, "f")[0].color,
        Some(DELETED_EMBED_COLOR)
    );
}
