use clipboard_history::history::{bytes_fingerprint, ClipboardManager};
use clipboard_history::item::{ClipboardContent, ClipboardItem};
use clipboard_history::wire::{decode_entry, encode_entry};

#[test]
fn text_entry_round_trips() {
    let item = ClipboardItem {
        id: "0b2f4c1e".to_string(),
        content: ClipboardContent::Text("hello world".to_string()),
        timestamp: "2024-05-01T12:00:00+00:00".to_string(),
        pinned: true,
        preview: "hello world".to_string(),
    };
    let wire = encode_entry(&item);
    let back = decode_entry(&wire).expect("decode failed");
    assert_eq!(back, item);
}

#[test]
fn awkward_characters_round_trip() {
    let text = "line one\n\"quoted\"\t\\backslash\\ and\r more".to_string();
    let item = ClipboardItem {
        id: "id-\"x\"".to_string(),
        content: ClipboardContent::Text(text.clone()),
        timestamp: "2024-05-01T12:00:00+00:00".to_string(),
        pinned: false,
        preview: text,
    };
    let back = decode_entry(&encode_entry(&item)).expect("decode failed");
    assert_eq!(back, item);
}

#[test]
fn image_entry_round_trips() {
    let mut m = ClipboardManager::new();
    let pixels = vec![0, 128, 255, 255];
    let hash = bytes_fingerprint(&pixels);
    let item = m.add_image(pixels, 1, 1, hash).unwrap();
    let back = decode_entry(&encode_entry(&item)).expect("decode failed");
    assert_eq!(back, item);
}

#[test]
fn wire_form_is_the_documented_json() {
    let item = ClipboardItem {
        id: "abc".to_string(),
        content: ClipboardContent::Text("hi".to_string()),
        timestamp: "2024-01-02T03:04:05+00:00".to_string(),
        pinned: false,
        preview: "hi".to_string(),
    };
    assert_eq!(
        encode_entry(&item),
        "{\"id\":\"abc\",\"content\":{\"type\":\"Text\",\"data\":\"hi\"},\
         \"timestamp\":\"2024-01-02T03:04:05+00:00\",\"pinned\":false,\"preview\":\"hi\"}"
    );
}

#[test]
fn image_wire_form_is_the_documented_json() {
    let item = ClipboardItem {
        id: "x".to_string(),
        content: ClipboardContent::Image {
            base64: "QUJD".to_string(),
            width: 640,
            height: 480,
        },
        timestamp: "t".to_string(),
        pinned: true,
        preview: "Image (640x480) #7".to_string(),
    };
    assert_eq!(
        encode_entry(&item),
        "{\"id\":\"x\",\"content\":{\"type\":\"Image\",\"data\":{\"base64\":\"QUJD\",\
         \"width\":640,\"height\":480}},\"timestamp\":\"t\",\"pinned\":true,\
         \"preview\":\"Image (640x480) #7\"}"
    );
}

#[test]
fn wire_form_parses_as_json_with_the_expected_fields() {
    let item = ClipboardItem {
        id: "id-1".to_string(),
        content: ClipboardContent::Text("a \"b\" c".to_string()),
        timestamp: "2024-01-02T03:04:05+00:00".to_string(),
        pinned: true,
        preview: "a \"b\" c".to_string(),
    };
    let value: serde_json::Value = serde_json::from_str(&encode_entry(&item)).expect("not JSON");
    assert_eq!(value["id"].as_str(), Some("id-1"));
    assert_eq!(value["content"]["type"].as_str(), Some("Text"));
    assert_eq!(value["content"]["data"].as_str(), Some("a \"b\" c"));
    assert_eq!(value["pinned"].as_bool(), Some(true));
    assert_eq!(value["preview"].as_str(), Some("a \"b\" c"));
}

#[test]
fn truncated_or_malformed_wire_text_is_rejected() {
    let item = ClipboardItem {
        id: "abc".to_string(),
        content: ClipboardContent::Text("hi".to_string()),
        timestamp: "t".to_string(),
        pinned: false,
        preview: "hi".to_string(),
    };
    let wire = encode_entry(&item);
    assert!(decode_entry(&wire[..wire.len() - 1]).is_none());
    assert!(decode_entry(&format!("{} ", wire)).is_none());
    assert!(decode_entry("").is_none());
    assert!(decode_entry("{\"id\":42}").is_none());
}

#[test]
fn control_characters_are_escaped_and_round_trip() {
    let text = "a\u{1}b\u{1f}c\u{0}".to_string();
    let item = ClipboardItem {
        id: "ctl".to_string(),
        content: ClipboardContent::Text(text.clone()),
        timestamp: "t".to_string(),
        pinned: false,
        preview: text.clone(),
    };
    let wire = encode_entry(&item);
    assert!(wire.contains("a\\u0001b\\u001fc\\u0000"));
    let back = decode_entry(&wire).expect("decode failed");
    assert_eq!(back, item);
    // The wire form is real JSON even with control characters inside.
    let value: serde_json::Value = serde_json::from_str(&wire).expect("not JSON");
    assert_eq!(value["content"]["data"].as_str(), Some(text.as_str()));
}
