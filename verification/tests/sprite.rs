use dungeon_feature::sprite::error::SpriteGenError;
use dungeon_feature::sprite::manifest::{
    find_missing_sprites, find_sprite, sprite_file_paths, sprite_manifest, SpriteCategory, SpriteSpec,
};
use dungeon_feature::sprite::openrouter::{
    data_url_payload, decode_base64, decode_data_url, extract_image_from_response, interpret_chat_response,
    ApiError, ChatResponse, Choice, ContentPart, MessageContent, ResponseMessage,
};
use dungeon_feature::sprite::prompt::{build_prompt, category_prompt, BASE_PROMPT};
use dungeon_feature::sprite::retry::{
    jitter_from_nanos, rand_jitter, retry_backoff, retry_delay_ms, should_retry, BASE_DELAY_MS, MAX_RETRIES,
};
use std::path::Path;

fn answer(content: Option<MessageContent>) -> ChatResponse {
    ChatResponse {
        choices: Some(vec![Choice { message: Some(ResponseMessage { content }) }]),
        error: None,
    }
}

#[test]
fn finds_sprites_by_name() {
    let bat = find_sprite("bat").expect("bat is in the manifest");
    assert_eq!(bat.name, "bat");
    assert_eq!(bat.category, SpriteCategory::Enemy);
    let potion = find_sprite("potion").expect("potion is in the manifest");
    assert_eq!(potion.category, SpriteCategory::Item);
    assert!(find_sprite("dragon").is_none());
    assert!(find_sprite("").is_none());
    assert!(find_sprite("ba").is_none());
}

#[test]
fn asset_paths_by_category() {
    let bat = find_sprite("bat").unwrap();
    assert_eq!(bat.asset_path(), "sprites/enemies/bat.png");
    let shield = find_sprite("shield").unwrap();
    assert_eq!(shield.asset_path(), "sprites/items/shield.png");
    let full = bat.full_path(Path::new("/proj"));
    assert_eq!(full, Path::new("/proj/assets/sprites/enemies/bat.png"));
}

#[test]
fn every_sprite_is_missing_under_an_empty_root() {
    let missing = find_missing_sprites(Path::new("/nonexistent/root/for/sprites"));
    assert_eq!(missing.len(), 13);
    assert_eq!(missing[0].name, "bat");
    assert_eq!(missing[12].name, "potion");
}

#[test]
fn prompts_join_style_and_category() {
    let spec = SpriteSpec { name: "x", category: SpriteCategory::Enemy, description: "a red slime" };
    assert_eq!(
        category_prompt(&spec),
        "Enemy monster sprite: a red slime. Threatening but cute (chibi). Front-facing idle pose."
    );
    let prompt = build_prompt(&spec);
    assert_eq!(prompt, format!("{}\n{}", BASE_PROMPT, category_prompt(&spec)));
    let item = SpriteSpec { name: "y", category: SpriteCategory::Item, description: "a key" };
    assert_eq!(
        category_prompt(&item),
        "Equipment/item icon: a key. Clean silhouette, recognizable at small size. Subtle shading."
    );
}

#[test]
fn retry_only_transient_errors() {
    assert!(should_retry(&SpriteGenError::Api { status: 429, message: String::new() }));
    assert!(should_retry(&SpriteGenError::Api { status: 500, message: String::new() }));
    assert!(should_retry(&SpriteGenError::Api { status: 503, message: String::new() }));
    assert!(!should_retry(&SpriteGenError::Api { status: 404, message: String::new() }));
    assert!(should_retry(&SpriteGenError::Http("timeout".to_string())));
    assert!(!should_retry(&SpriteGenError::NoImageInResponse));
    assert!(!should_retry(&SpriteGenError::InvalidDataUrl));
}

#[test]
fn backoff_doubles_and_stops_at_the_last_attempt() {
    let err = SpriteGenError::Http("reset".to_string());
    assert_eq!(MAX_RETRIES, 3);
    assert_eq!(retry_backoff(0, &err), Some(BASE_DELAY_MS));
    assert_eq!(retry_backoff(1, &err), Some(2 * BASE_DELAY_MS));
    assert_eq!(retry_backoff(2, &err), None);
    let fatal = SpriteGenError::Api { status: 401, message: "no".to_string() };
    assert_eq!(retry_backoff(0, &fatal), None);
}

#[test]
fn jitter_stays_in_range() {
    assert_eq!(jitter_from_nanos(1234, 1000), 234);
    assert_eq!(jitter_from_nanos(999, 0), 0);
    assert_eq!(rand_jitter(0), 0);
    assert_eq!(rand_jitter(1), 0);
    for _ in 0..20 {
        assert!(rand_jitter(250) < 250);
        let d = retry_delay_ms(1000);
        assert!((1000..1250).contains(&d));
    }
}

#[test]
fn base64_decoding() {
    assert_eq!(decode_base64(b"aGVsbG8=").unwrap(), b"hello".to_vec());
    assert!(matches!(decode_base64(b"@@@"), Err(SpriteGenError::Base64(_))));
}

#[test]
fn data_url_payload_is_after_the_first_comma() {
    assert_eq!(data_url_payload(b"data:image/png;base64,AAAA"), Some(&b"AAAA"[..]));
    assert_eq!(data_url_payload(b"a,b,c"), Some(&b"b,c"[..]));
    assert_eq!(data_url_payload(b"no comma"), None);
    assert_eq!(decode_data_url("data:image/png;base64,aGVsbG8=").unwrap(), b"hello".to_vec());
    assert!(matches!(decode_data_url("data:image/png;base64"), Err(SpriteGenError::InvalidDataUrl)));
    assert!(matches!(decode_data_url("data:x,!!"), Err(SpriteGenError::Base64(_))));
}

#[test]
fn image_from_parts_takes_the_first_part_with_an_image() {
    let resp = answer(Some(MessageContent::Parts(vec![
        ContentPart { image_url: None, b64_json: None },
        ContentPart { image_url: Some("data:image/png;base64,aGk=".to_string()), b64_json: Some("aGVsbG8=".to_string()) },
        ContentPart { image_url: None, b64_json: Some("aGVsbG8=".to_string()) },
    ])));
    assert_eq!(extract_image_from_response(resp).unwrap(), b"hi".to_vec());

    let resp = answer(Some(MessageContent::Parts(vec![ContentPart {
        image_url: None,
        b64_json: Some("aGVsbG8=".to_string()),
    }])));
    assert_eq!(extract_image_from_response(resp).unwrap(), b"hello".to_vec());

    let resp = answer(Some(MessageContent::Parts(vec![])));
    assert!(matches!(extract_image_from_response(resp), Err(SpriteGenError::NoImageInResponse)));
}

#[test]
fn image_from_text_content() {
    let resp = answer(Some(MessageContent::Text("data:image/png;base64,aGk=".to_string())));
    assert_eq!(extract_image_from_response(resp).unwrap(), b"hi".to_vec());
    let resp = answer(Some(MessageContent::Text("aGVsbG8=".to_string())));
    assert_eq!(extract_image_from_response(resp).unwrap(), b"hello".to_vec());
    let resp = answer(Some(MessageContent::Text("not base64!".to_string())));
    assert!(matches!(extract_image_from_response(resp), Err(SpriteGenError::Base64(_))));
}

#[test]
fn answers_without_an_image() {
    assert!(matches!(extract_image_from_response(answer(None)), Err(SpriteGenError::NoImageInResponse)));
    assert!(matches!(
        extract_image_from_response(answer(Some(MessageContent::Other))),
        Err(SpriteGenError::NoImageInResponse)
    ));
    let no_choices = ChatResponse { choices: None, error: None };
    assert!(matches!(extract_image_from_response(no_choices), Err(SpriteGenError::NoImageInResponse)));
    let empty = ChatResponse { choices: Some(vec![]), error: None };
    assert!(matches!(extract_image_from_response(empty), Err(SpriteGenError::NoImageInResponse)));
    let no_message = ChatResponse { choices: Some(vec![Choice { message: None }]), error: None };
    assert!(matches!(extract_image_from_response(no_message), Err(SpriteGenError::NoImageInResponse)));
}

#[test]
fn error_bodies_become_api_errors() {
    let resp = ChatResponse { choices: None, error: Some(ApiError { message: Some("quota".to_string()) }) };
    match interpret_chat_response(resp) {
        Err(SpriteGenError::Api { status, message }) => {
            assert_eq!(status, 400);
            assert_eq!(message, "quota");
        },
        other => panic!("unexpected {:?}", other),
    }
    let resp = ChatResponse { choices: None, error: Some(ApiError { message: None }) };
    match interpret_chat_response(resp) {
        Err(SpriteGenError::Api { status, message }) => {
            assert_eq!(status, 400);
            assert_eq!(message, "unknown API error");
        },
        other => panic!("unexpected {:?}", other),
    }
    let ok = answer(Some(MessageContent::Text("aGk=".to_string())));
    assert_eq!(interpret_chat_response(ok).unwrap(), b"hi".to_vec());
}

#[test]
fn full_path_joins_assets_and_the_asset_path() {
    let golem = find_sprite("golem").unwrap();
    assert_eq!(
        golem.full_path(Path::new("/game")),
        std::path::PathBuf::from("/game/assets/sprites/enemies/golem.png")
    );
}

#[test]
fn sprite_file_paths_follow_the_manifest() {
    let paths = sprite_file_paths(Path::new("/game"));
    let specs = sprite_manifest();
    assert_eq!(paths.len(), specs.len());
    for (p, s) in paths.iter().zip(specs.iter()) {
        assert_eq!(*p, s.full_path(Path::new("/game")));
    }
    assert_eq!(paths[0], std::path::PathBuf::from("/game/assets/sprites/enemies/bat.png"));
}

#[test]
fn nothing_present_means_everything_missing() {
    let missing = find_missing_sprites(Path::new("/no/such/project/root"));
    assert_eq!(missing.len(), 13);
    assert_eq!(missing[0].name, "bat");
    assert_eq!(missing[12].name, "potion");
}
