use telegram_relay::deliver::{
    embed_payload, file_payload, media_payload, message_id_of, message_target, next_patch_step,
    next_step, parse_delivered_media_urls, parse_message_id, part_name, patch_payload,
    post_result, post_target, read_response, text_payload, upload_outcome, webhook_payload,
    Attempts, Lane, Outcome, PatchOf, PatchStep, PostResult, Reply, Step, PAYLOAD_PART,
};
use telegram_relay::render::Embed;
use telegram_relay::scrub::scrub_webhook_tokens;

#[test]
fn extracts_cdn_image_url_from_embed() {
    let resp = r#"{"id":"999","attachments":[],"embeds":[
        {"type":"rich","description":"x",
         "image":{"url":"https://cdn.discordapp.com/attachments/1/2/photo.jpg"}}]}"#;
    assert_eq!(parse_message_id(resp).as_deref(), Some("999"));
    assert_eq!(
        parse_delivered_media_urls(resp),
        vec!["https://cdn.discordapp.com/attachments/1/2/photo.jpg"]
    );
}

#[test]
fn captures_non_image_attachment_url() {
    let resp = r#"{"id":"7","attachments":[
        {"id":"42","filename":"clip.mp4",
         "url":"https://cdn.discordapp.com/attachments/1/42/clip.mp4"}],"embeds":[]}"#;
    assert_eq!(
        parse_delivered_media_urls(resp),
        vec!["https://cdn.discordapp.com/attachments/1/42/clip.mp4"]
    );
}

#[test]
fn captures_mixed_album_image_and_video_without_dupes() {
    let resp = r#"{"id":"8","attachments":[
        {"id":"2","filename":"v.mp4","url":"https://cdn.discordapp.com/attachments/1/2/v.mp4"}],
        "embeds":[{"image":{"url":"https://cdn.discordapp.com/attachments/1/1/p.jpg"}}]}"#;
    assert_eq!(
        parse_delivered_media_urls(resp),
        vec![
            "https://cdn.discordapp.com/attachments/1/1/p.jpg",
            "https://cdn.discordapp.com/attachments/1/2/v.mp4",
        ]
    );
}

#[test]
fn no_media_yields_empty() {
    let resp = r#"{"id":"1","embeds":[{"type":"rich","description":"text only"}]}"#;
    assert!(parse_delivered_media_urls(resp).is_empty());
}

#[test]
fn responses_without_an_id_are_no_delivery() {
    assert_eq!(parse_message_id("no json"), None);
    assert_eq!(parse_message_id(r#"{"id": 5}"#), None);
    assert!(matches!(
        post_result(Lane::Plain, "{}"),
        PostResult::Dropped { .. }
    ));
    assert!(matches!(
        read_response(Lane::Plain, "x", None),
        PostResult::Dropped { .. }
    ));
}

fn response(code: u16, body: &str, retry_after: Option<u64>) -> Reply {
    Reply::Response {
        code,
        status: format!("{code} Status"),
        body: body.to_string(),
        retry_after,
    }
}

#[test]
fn retries_on_429() {
    let mut a = Attempts::new();
    assert!(matches!(
        next_step(&mut a, Lane::Plain, &response(429, "{}", Some(0))),
        Step::Retry(0)
    ));
    assert!(matches!(
        next_step(&mut a, Lane::Plain, &response(200, "{}", None)),
        Step::Done(ref b) if b == "{}"
    ));
}

#[test]
fn gives_up_after_429_budget() {
    let mut a = Attempts::new();
    let mut sent = 0;
    let reason = loop {
        sent += 1;
        match next_step(&mut a, Lane::Plain, &response(429, "{}", Some(0))) {
            Step::Retry(_) => {}
            Step::GiveUp(reason) => break reason,
            Step::Done(_) => panic!("expected the message to be dropped"),
        }
    };
    assert_eq!(sent, 20);
    assert_eq!(reason, "rate limited beyond 20 attempts");
}

#[test]
fn long_rate_limits_use_up_the_time() {
    let mut a = Attempts::new();
    let s = 1_000_000_000;
    assert!(matches!(
        next_step(&mut a, Lane::Media, &response(429, "", Some(40 * s))),
        Step::Retry(w) if w == 40 * s
    ));
    assert!(matches!(
        next_step(&mut a, Lane::Media, &response(429, "", Some(21 * s))),
        Step::GiveUp(ref r) if r == "media rate limited beyond 60.0s budget"
    ));
}

#[test]
fn failures_back_off_and_end() {
    let mut a = Attempts::new();
    let mut waits = Vec::new();
    let reason = loop {
        match next_step(&mut a, Lane::Plain, &response(503, "", None)) {
            Step::Retry(w) => waits.push(w),
            Step::GiveUp(reason) => break reason,
            Step::Done(_) => panic!("expected the message to be dropped"),
        }
    };
    assert_eq!(waits, vec![250_000_000, 1_000_000_000, 4_000_000_000]);
    assert_eq!(reason, "5xx after retries: 503 Status");
}

#[test]
fn other_refusals_are_final() {
    let mut a = Attempts::new();
    assert!(matches!(
        next_step(&mut a, Lane::Plain, &response(404, "gone", None)),
        Step::GiveUp(ref r) if r == "404 Status: gone"
    ));
    assert!(matches!(
        next_step(&mut a, Lane::Media, &response(413, "big", None)),
        Step::GiveUp(ref r) if r == "media upload failed: 413 Status: big"
    ));
}

#[test]
fn network_failures_end_in_their_reason() {
    let mut a = Attempts::new();
    let e = Reply::Network("connection refused".to_string());
    let reason = loop {
        match next_step(&mut a, Lane::Plain, &e) {
            Step::Retry(_) => {}
            Step::GiveUp(reason) => break reason,
            Step::Done(_) => panic!("expected a network failure"),
        }
    };
    assert_eq!(reason, "network: connection refused");
}

#[test]
fn notices_never_show_a_webhook_token() {
    let address = "http://127.0.0.1:1/api/webhooks/123456789/SUPERSECRETTOKEN";
    let mut a = Attempts::new();
    let e = Reply::Network(format!("error sending request for url {address}"));
    let reason = loop {
        match next_step(&mut a, Lane::Plain, &e) {
            Step::Retry(_) => {}
            Step::GiveUp(reason) => break reason,
            Step::Done(_) => panic!("expected a network failure"),
        }
    };
    let notice = scrub_webhook_tokens(&format!("delivery dropped: {reason}"));
    assert!(!notice.contains("SUPERSECRETTOKEN"), "{notice}");
    assert!(notice.contains("/webhooks/123456789/«redacted»"), "{notice}");
}

fn described(description: &str) -> Vec<Embed> {
    vec![Embed {
        description: Some(description.to_string()),
        color: None,
        author: None,
        field: None,
        footer: None,
        timestamp: None,
        image: None,
        url: None,
    }]
}

#[test]
fn post_embed_captures_message_id() {
    match post_result(Lane::Plain, r#"{"id": "998877665544332211"}"#) {
        PostResult::Delivered { discord_msg_id, .. } => {
            assert_eq!(discord_msg_id, "998877665544332211")
        }
        PostResult::Dropped { reason } => panic!("expected delivered, got drop: {reason}"),
    }
    let body = embed_payload("Rob", &described("hi"), None).to_string();
    assert!(body.contains("\"embeds\""));
    assert!(body.contains("\"username\":\"Rob\""));
    assert!(!body.contains("\"content\""));
}

#[test]
fn post_text_suppresses_mentions() {
    let v = text_payload("Rob", "@everyone gm");
    assert_eq!(v["allowed_mentions"]["parse"], serde_json::Value::from(Vec::<u8>::new()));
    assert_eq!(v["content"], "@everyone gm");
    assert_eq!(v["username"], "Rob");
    let with_content = embed_payload("Rob", &described("hi"), Some("0xabc"));
    assert_eq!(with_content["content"], "0xabc");
    assert_eq!(
        with_content["allowed_mentions"]["parse"],
        serde_json::Value::from(Vec::<u8>::new())
    );
}

#[test]
fn media_posts_name_their_files_and_suppress_mentions() {
    match post_result(Lane::Media, r#"{"id": "424242"}"#) {
        PostResult::Delivered { discord_msg_id, .. } => assert_eq!(discord_msg_id, "424242"),
        PostResult::Dropped { reason } => panic!("expected delivered, got drop: {reason}"),
    }
    let files = vec![
        ("photo_1.jpg".to_string(), b"AAAAA".to_vec()),
        ("photo_2.jpg".to_string(), b"BBBBB".to_vec()),
    ];
    let body = media_payload("Rob", &described("album caption"), &files, None).to_string();
    assert!(body.contains("allowed_mentions"));
    assert!(body.contains("album caption"));
    assert!(body.contains("photo_1.jpg") && body.contains("photo_2.jpg"));
    assert_eq!(PAYLOAD_PART, "payload_json");
    assert_eq!(part_name(0), "files[0]");
    assert_eq!(part_name(10), "files[10]");
}

#[test]
fn file_upload_names_its_sender() {
    let v = file_payload("Rob");
    assert_eq!(v["username"], "Rob");
    assert!(matches!(
        upload_outcome(&response(200, "", None)),
        Outcome::Delivered
    ));
    match upload_outcome(&Reply::Network("down".into())) {
        Outcome::Dropped { reason } => assert_eq!(reason, "upload network: down"),
        Outcome::Delivered => panic!("expected a drop"),
    }
}

#[test]
fn patch_webhook_sets_name_and_avatar() {
    let v = webhook_payload(Some("Rob's Channel"), Some("data:image/jpeg;base64,SGk=")).unwrap();
    assert_eq!(v["name"], "Rob's Channel");
    assert_eq!(v["avatar"], "data:image/jpeg;base64,SGk=");
}

#[test]
fn patch_webhook_name_only_omits_avatar() {
    let v = webhook_payload(Some("Nameless Chan"), None).unwrap();
    assert_eq!(v["name"], "Nameless Chan");
    assert!(
        v.get("avatar").is_none(),
        "avatar should be omitted, not null"
    );
    assert!(webhook_payload(None, None).is_err());
}

#[test]
fn patch_embed_hits_messages_endpoint() {
    assert_eq!(
        message_target("http://x/hook", "12345"),
        "http://x/hook/messages/12345"
    );
    assert_eq!(post_target("http://x/hook"), "http://x/hook?wait=true");
    let v = patch_payload(&described("edited"), &vec![]);
    assert!(v.to_string().contains("edited"));
    let keep = vec![("22".to_string(), "photo.jpg".to_string())];
    let v = patch_payload(&described("edited"), &keep);
    assert_eq!(v["attachments"][0]["id"], "22");
}

#[test]
fn changes_are_retried_once() {
    let limited = response(429, "", Some(5));
    assert!(matches!(
        next_patch_step(PatchOf::Message, false, &limited),
        PatchStep::RetryOnce(5)
    ));
    assert!(matches!(
        next_patch_step(PatchOf::Message, true, &limited),
        PatchStep::Finished(Outcome::Dropped { .. })
    ));
    assert!(matches!(
        next_patch_step(PatchOf::Webhook, false, &response(200, "", None)),
        PatchStep::Finished(Outcome::Delivered)
    ));
}

#[test]
fn message_id_of_a_document() {
    let v: serde_json::Value = serde_json::from_str(r#"{"id":"5"}"#).unwrap();
    assert_eq!(message_id_of(&v).as_deref(), Some("5"));
    assert_eq!(message_id_of(&serde_json::Value::from(5)), None);
}
