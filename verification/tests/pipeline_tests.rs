use clip_tags::history::ClipboardHistory;
use clip_tags::pipeline::apply_reply;
use clip_tags::pipeline::build_tag_request;
use clip_tags::pipeline::handle_copy_core;
use clip_tags::pipeline::TagError;
use clip_tags::prompt::greet_reply;

const TEN_TAGS: &str = "[\"a\",\"b\",\"c\",\"d\",\"e\",\"f\",\"g\",\"h\",\"i\",\"j\"]";
const TEN_OTHERS: &str = "[\"x\",\"y\",\"z\",\"1\",\"2\",\"3\",\"4\",\"5\",\"6\",\"7\"]";

fn ten_tags() -> Vec<String> {
    vec![
        "a".to_string(),
        "b".to_string(),
        "c".to_string(),
        "d".to_string(),
        "e".to_string(),
        "f".to_string(),
        "g".to_string(),
        "h".to_string(),
        "i".to_string(),
        "j".to_string(),
    ]
}

#[test]
fn first_copy_stores_one_entry() {
    let content = handle_copy_core(None, "hello", TEN_TAGS).unwrap();
    assert_eq!(
        content,
        "{\"clipboardHistory.text_with_related_tags\":{\"hello\":[\"a\",\"b\",\"c\",\"d\",\"e\",\"f\",\"g\",\"h\",\"i\",\"j\"]}}"
    );
    let h = ClipboardHistory::load_from_store(&content);
    assert_eq!(h.len(), 1);
    assert_eq!(h.get_tags("hello").unwrap(), ten_tags());
}

#[test]
fn second_copy_overwrites_same_key() {
    let content1 = handle_copy_core(None, "hello", TEN_TAGS).unwrap();
    let content2 = handle_copy_core(Some(&content1), "hello", TEN_OTHERS).unwrap();
    let h = ClipboardHistory::load_from_store(&content2);
    assert_eq!(h.len(), 1);
    assert_eq!(
        h.get_tags("hello").unwrap(),
        vec![
            "x".to_string(),
            "y".to_string(),
            "z".to_string(),
            "1".to_string(),
            "2".to_string(),
            "3".to_string(),
            "4".to_string(),
            "5".to_string(),
            "6".to_string(),
            "7".to_string()
        ]
    );
}

#[test]
fn distinct_keys_both_kept() {
    let content1 = handle_copy_core(None, "hello", TEN_TAGS).unwrap();
    let content2 = handle_copy_core(Some(&content1), "world", TEN_OTHERS).unwrap();
    let h = ClipboardHistory::load_from_store(&content2);
    assert_eq!(h.len(), 2);
    assert!(h.get_tags("hello").is_some());
    assert!(h.get_tags("world").is_some());
}

#[test]
fn bad_reply_fails_and_store_is_untouched() {
    let content1 = handle_copy_core(None, "hello", TEN_TAGS).unwrap();
    let r = handle_copy_core(Some(&content1), "bad", "not json");
    assert!(r.is_err());
    assert!(matches!(r, Err(TagError::Parse)));
    // the caller writes nothing on error, so the stored content stands as it was
    let h = ClipboardHistory::load_from_store(&content1);
    assert_eq!(h.len(), 1);
    assert!(h.get_tags("bad").is_none());
}

#[test]
fn tolerant_load_starts_fresh_from_invalid_file() {
    let content = handle_copy_core(Some("{{{ definitely broken"), "hello", TEN_TAGS).unwrap();
    let h = ClipboardHistory::load_from_store(&content);
    assert_eq!(h.len(), 1);
    assert_eq!(h.get_tags("hello").unwrap(), ten_tags());
}

#[test]
fn empty_text_and_no_monitors() {
    let no_frames: Vec<Vec<u8>> = Vec::new();
    let req = build_tag_request("", &no_frames);
    assert!(req.images.is_empty());
    let content = handle_copy_core(None, "", TEN_TAGS).unwrap();
    let h = ClipboardHistory::load_from_store(&content);
    assert_eq!(h.len(), 1);
    assert_eq!(h.get_tags("").unwrap(), ten_tags());
}

#[test]
fn request_carries_one_image_per_frame() {
    let frames: Vec<Vec<u8>> = vec![vec![0u8], vec![255u8, 255u8, 255u8], vec![1u8, 2u8]];
    let req = build_tag_request("t", &frames);
    assert_eq!(req.images.len(), 3);
    assert_eq!(req.images[0], "AA==");
    assert_eq!(req.images[1], "////");
    assert_eq!(req.images[2], "AQI=");
}

#[test]
fn request_prompt_and_model() {
    let frames: Vec<Vec<u8>> = Vec::new();
    let req = build_tag_request("snippet", &frames);
    assert_eq!(req.model, "llava-phi3:latest");
    assert!(req.prompt.ends_with("text content: snippet"));
    let req2 = build_tag_request("other", &frames);
    let shared = req.prompt.strip_suffix("snippet").unwrap();
    assert_eq!(req2.prompt, format!("{}other", shared));
}

#[test]
fn apply_reply_updates_history_in_place() {
    let mut h = ClipboardHistory::new();
    assert!(apply_reply(&mut h, "k", "[\"t\"]").is_ok());
    assert_eq!(h.len(), 1);
    assert_eq!(h.get_tags("k").unwrap(), vec!["t".to_string()]);
    let r = apply_reply(&mut h, "k2", "nope");
    assert!(matches!(r, Err(TagError::Parse)));
    assert_eq!(h.len(), 1);
    assert!(h.get_tags("k2").is_none());
}

#[test]
fn greet_formats_reply() {
    assert_eq!(greet_reply(Ok("Hi Ada".to_string())), "AI:\nHi Ada");
    assert_eq!(
        greet_reply(Err("connection refused".to_string())),
        "Error: connection refused"
    );
}

#[test]
fn error_messages_name_their_stage() {
    assert_eq!(
        TagError::Capture("no display".to_string()).message(),
        "Error: screen capture failed: no display"
    );
    assert_eq!(
        TagError::Encode("bad frame".to_string()).message(),
        "Error: frame encoding failed: bad frame"
    );
    assert_eq!(
        TagError::Inference("timeout".to_string()).message(),
        "Error: inference failed: timeout"
    );
    assert_eq!(
        TagError::Parse.message(),
        "Error: the model reply is not a JSON array of strings"
    );
    assert_eq!(
        TagError::Store("disk full".to_string()).message(),
        "Error: the history store failed: disk full"
    );
}
