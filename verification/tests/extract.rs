//! Extraction end to end: real HTML in, gym mapping or failure out.

use gym_count::extract::{
    extract_from_pairs, extract_gym_member_count, live_count_selector, ExtractError, LiveSelector,
};

fn selector() -> LiveSelector {
    live_count_selector().expect("the live-count selector must compile")
}

#[test]
fn live_count_selector_compiles() {
    assert!(live_count_selector().is_some());
}

#[test]
fn invalid_selector_text_is_rejected() {
    assert!(LiveSelector::parse("span[").is_none());
}

#[test]
fn extracts_well_formed_page() {
    let sel = selector();
    let doc = r#"<span data-live-count="Joondalup">57</span><span data-live-count="Mandurah">123</span>"#;
    let state = extract_gym_member_count(&sel, doc).expect("extraction must succeed");
    assert_eq!(state.len(), 2);
    assert_eq!(state.get(&"Joondalup".to_string()), Some(57));
    assert_eq!(state.get(&"Mandurah".to_string()), Some(123));
}

#[test]
fn extracts_from_full_document() {
    let sel = selector();
    let doc = r#"<!DOCTYPE html><html><head><title>t</title></head><body>
        <div class="counts"><span data-live-count="Joondalup">57</span></div>
        <p>unrelated</p></body></html>"#;
    let state = extract_gym_member_count(&sel, doc).expect("extraction must succeed");
    assert_eq!(state.len(), 1);
    assert_eq!(state.get(&"Joondalup".to_string()), Some(57));
}

#[test]
fn non_numeric_count_fails_whole_extraction() {
    let sel = selector();
    let doc = r#"<span data-live-count="Joondalup">fifty-seven</span>"#;
    let err = extract_gym_member_count(&sel, doc).expect_err("extraction must fail");
    assert_eq!(err, ExtractError::InvalidCount);
    assert!(err.message().contains("parse"));
}

#[test]
fn one_bad_element_invalidates_valid_ones() {
    let sel = selector();
    let doc = r#"<span data-live-count="Joondalup">57</span><span data-live-count="Mandurah">many</span>"#;
    let err = extract_gym_member_count(&sel, doc).expect_err("extraction must fail");
    assert_eq!(err, ExtractError::InvalidCount);
}

#[test]
fn missing_count_text_fails() {
    let sel = selector();
    let doc = r#"<span data-live-count="Joondalup"></span>"#;
    let err = extract_gym_member_count(&sel, doc).expect_err("extraction must fail");
    assert_eq!(err, ExtractError::MissingCountText);
}

#[test]
fn missing_attribute_on_other_selector_fails() {
    // A selector that matches elements without the naming attribute: the
    // extraction then fails for the missing name.
    let sel = LiveSelector::parse("span[data-other]").expect("selector must compile");
    let doc = r#"<span data-other="x">5</span>"#;
    let err = extract_gym_member_count(&sel, doc).expect_err("extraction must fail");
    assert_eq!(err, ExtractError::MissingName);
}

#[test]
fn unmarked_elements_are_never_selected() {
    let sel = selector();
    let doc = r#"<span>57</span><span data-live-count="A">3</span><div data-live-count="B">7</div>"#;
    let state = extract_gym_member_count(&sel, doc).expect("extraction must succeed");
    assert_eq!(state.len(), 1);
    assert_eq!(state.get(&"A".to_string()), Some(3));
    assert_eq!(state.get(&"B".to_string()), None);
}

#[test]
fn duplicate_names_keep_later_count() {
    let sel = selector();
    let doc = r#"<span data-live-count="X">1</span><span data-live-count="X">2</span>"#;
    let state = extract_gym_member_count(&sel, doc).expect("extraction must succeed");
    assert_eq!(state.len(), 1);
    assert_eq!(state.get(&"X".to_string()), Some(2));
}

#[test]
fn empty_document_yields_empty_mapping() {
    let sel = selector();
    let state = extract_gym_member_count(&sel, "").expect("extraction must succeed");
    assert_eq!(state.len(), 0);
    let state = extract_gym_member_count(&sel, "<html><body><p>hi</p></body></html>")
        .expect("extraction must succeed");
    assert_eq!(state.len(), 0);
}

#[test]
fn first_text_chunk_is_the_count() {
    let sel = selector();
    let doc = r#"<span data-live-count="A">5<b>9</b></span>"#;
    let state = extract_gym_member_count(&sel, doc).expect("extraction must succeed");
    assert_eq!(state.get(&"A".to_string()), Some(5));
}

#[test]
fn whitespace_around_count_fails() {
    let sel = selector();
    let doc = r#"<span data-live-count="A"> 57 </span>"#;
    let err = extract_gym_member_count(&sel, doc).expect_err("extraction must fail");
    assert_eq!(err, ExtractError::InvalidCount);
}

#[test]
fn first_failure_decides_the_error() {
    let pairs = vec![
        (Some("A".to_string()), None),
        (Some("B".to_string()), Some("many".to_string())),
    ];
    let err = extract_from_pairs(&pairs).expect_err("extraction must fail");
    assert_eq!(err, ExtractError::MissingCountText);
}

#[test]
fn failure_messages_name_the_stage() {
    assert_eq!(ExtractError::MissingName.message(), "failed to get gym name");
    assert_eq!(ExtractError::MissingCountText.message(), "failed to get gym member count");
    assert_eq!(ExtractError::InvalidCount.message(), "failed to parse gym member count");
}
