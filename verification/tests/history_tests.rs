use clip_tags::history::ClipboardHistory;
use clip_tags::prompt::greet_prompt;
use clip_tags::prompt::model_name;
use clip_tags::prompt::tagging_prompt;

#[test]
fn new_history_is_empty() {
    let h = ClipboardHistory::new();
    assert_eq!(h.len(), 0);
    assert!(h.get_tags("anything").is_none());
}

#[test]
fn put_inserts_and_overwrites() {
    let mut h = ClipboardHistory::new();
    h.put("a".to_string(), vec!["1".to_string()]);
    h.put("b".to_string(), vec!["2".to_string()]);
    assert_eq!(h.len(), 2);
    h.put("a".to_string(), vec!["3".to_string()]);
    assert_eq!(h.len(), 2);
    assert_eq!(h.get_tags("a").unwrap(), vec!["3".to_string()]);
    assert_eq!(h.get_tags("b").unwrap(), vec!["2".to_string()]);
}

#[test]
fn save_and_load_round_trip() {
    let mut h = ClipboardHistory::new();
    h.put("first".to_string(), vec!["x".to_string(), "y".to_string()]);
    h.put("sec\"ond".to_string(), vec!["z\n".to_string()]);
    let s = h.save_to_string();
    let back = ClipboardHistory::load_from_store(&s);
    assert_eq!(back.len(), 2);
    assert_eq!(
        back.get_tags("first").unwrap(),
        vec!["x".to_string(), "y".to_string()]
    );
    assert_eq!(back.get_tags("sec\"ond").unwrap(), vec!["z\n".to_string()]);
}

#[test]
fn load_is_tolerant_of_missing_or_broken_content() {
    assert_eq!(ClipboardHistory::load_from_store("").len(), 0);
    assert_eq!(ClipboardHistory::load_from_store("{").len(), 0);
    assert_eq!(ClipboardHistory::load_from_store("[1,2,3]").len(), 0);
    assert_eq!(ClipboardHistory::load_from_store("{\"wrong\":{}}").len(), 0);
}

#[test]
fn load_keeps_the_last_of_duplicate_keys() {
    let s = "{\"clipboardHistory.text_with_related_tags\":{\"k\":[\"old\"],\"k\":[\"new\"]}}";
    let h = ClipboardHistory::load_from_store(s);
    assert_eq!(h.len(), 1);
    assert_eq!(h.get_tags("k").unwrap(), vec!["new".to_string()]);
}

#[test]
fn tagging_prompt_is_template_plus_text() {
    let p = tagging_prompt("the clipboard text");
    assert_eq!(
        p,
        "Analyze the provided information and categorize it into relevant tags as an array (min 10 tags, max 20 tags). Your response should focus solely on tagging based on both textual content and visual data presented in the screenshots, excluding any other unrelated details or actions. text content: the clipboard text"
    );
}

#[test]
fn prompts_share_the_template() {
    let p1 = tagging_prompt("one");
    let p2 = tagging_prompt("two");
    let t1 = p1.strip_suffix("one").unwrap();
    let t2 = p2.strip_suffix("two").unwrap();
    assert_eq!(t1, t2);
}

#[test]
fn greet_prompt_interpolates_name() {
    assert_eq!(
        greet_prompt("Ada"),
        "You are helpfull AI assistant. Ada want to talk with you."
    );
}

#[test]
fn model_is_fixed() {
    assert_eq!(model_name(), "llava-phi3:latest");
}
