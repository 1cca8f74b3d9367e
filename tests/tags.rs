use tag_validator::tags::candidate_tags_from_response;
use tag_validator::StructuredTags;

fn strings(items: &[&str]) -> Vec<String> {
    items.iter().map(|s| s.to_string()).collect()
}

#[test]
fn flatten_keeps_category_and_priority_order() {
    let tags = StructuredTags {
        subject: strings(&["a", "b"]),
        environment: strings(&["c"]),
        quality: vec![],
    };
    assert_eq!(tags.to_flat_vec(), strings(&["a", "b", "c"]));
}

#[test]
fn flatten_keeps_duplicates() {
    let tags = StructuredTags {
        subject: strings(&["x"]),
        environment: strings(&["x", "y"]),
        quality: strings(&["y", "z"]),
    };
    assert_eq!(tags.to_flat_vec(), strings(&["x", "x", "y", "y", "z"]));
}

#[test]
fn flatten_of_empty_lists_is_empty() {
    let tags = StructuredTags { subject: vec![], environment: vec![], quality: vec![] };
    assert!(tags.to_flat_vec().is_empty());
}

#[test]
fn clean_fenced_json_parses() {
    let raw = "```json\n{\"subject\":[]}\n```".to_string();
    let cleaned = StructuredTags::clean_json_output(raw);
    assert_eq!(cleaned, "{\"subject\":[]}");
    let value: serde_json::Value = serde_json::from_str(&cleaned).unwrap();
    assert!(value.get("subject").is_some());
}

#[test]
fn clean_leaves_plain_json_alone() {
    let raw = "{\"subject\":[\"cat\"],\"environment\":[],\"quality\":[]}".to_string();
    assert_eq!(StructuredTags::clean_json_output(raw.clone()), raw);
}

#[test]
fn clean_strips_quotes_spaces_and_tag_without_newline() {
    let raw = " \"json {\"a\":1}\" \n".to_string();
    assert_eq!(StructuredTags::clean_json_output(raw), "{\"a\":1}");
}

#[test]
fn clean_strips_escaped_newlines_after_tag() {
    let raw = "```json\\n\\n{\"a\":1}```".to_string();
    assert_eq!(StructuredTags::clean_json_output(raw), "{\"a\":1}");
}

#[test]
fn clean_strips_tabs_after_tag() {
    let raw = "json\t\r\n {}".to_string();
    assert_eq!(StructuredTags::clean_json_output(raw), "{}");
}

#[test]
fn clean_of_only_fences_is_empty() {
    assert_eq!(StructuredTags::clean_json_output("``` \n\"\"".to_string()), "");
}

#[test]
fn clean_keeps_inner_backticks() {
    let raw = "{\"a\":\"`x`\"}".to_string();
    assert_eq!(StructuredTags::clean_json_output(raw.clone()), raw);
}

#[test]
fn candidates_split_and_trimmed() {
    let r = candidate_tags_from_response("  1girl, pink_hair ,smile  ");
    assert_eq!(r, strings(&["1girl", "pink_hair", "smile"]));
}

#[test]
fn candidates_drop_empty_pieces() {
    let r = candidate_tags_from_response(",a,, ,b,\n");
    assert_eq!(r, strings(&["a", "b"]));
}

#[test]
fn candidates_of_blank_answer_is_empty() {
    assert!(candidate_tags_from_response("   \n").is_empty());
    assert!(candidate_tags_from_response("").is_empty());
}

#[test]
fn candidates_keep_inner_spaces_and_order() {
    let r = candidate_tags_from_response("blue sky, cat, blue sky");
    assert_eq!(r, strings(&["blue sky", "cat", "blue sky"]));
}
