use lapce_completion::completion::{
    CompletionData, CompletionItem, CompletionState, CompletionStatus,
};

fn item(label: &str) -> CompletionItem {
    CompletionItem {
        label: label.to_string(),
        kind: None,
        filter_text: None,
    }
}

fn item_with_filter(label: &str, filter: &str) -> CompletionItem {
    CompletionItem {
        label: label.to_string(),
        kind: None,
        filter_text: Some(filter.to_string()),
    }
}

fn labels(c: &CompletionData) -> Vec<String> {
    c.current_items()
        .iter()
        .map(|s| s.item.label.clone())
        .collect()
}

#[test]
fn new_controller_is_inactive_and_empty() {
    let c = CompletionData::new();
    assert_eq!(c.request_id, 0);
    assert!(c.status == CompletionStatus::Inactive);
    assert_eq!(c.input, "");
    assert_eq!(c.index, 0);
    assert_eq!(c.len(), 0);
    assert!(c.is_empty());
}

#[test]
fn stale_response_rejected() {
    let mut c = CompletionData::new();
    c.status = CompletionStatus::Started;
    c.request_id = 5;
    c.receive(
        4,
        "".to_string(),
        vec![item("alpha"), item("beta")],
    );
    // the response's id is not the live one: nothing cached, nothing shown
    assert_eq!(c.input_items.len(), 0);
    assert_eq!(c.filtered_items.len(), 0);
    assert_eq!(c.len(), 0);
}

#[test]
fn inactive_response_rejected() {
    let mut c = CompletionData::new();
    c.receive(0, "".to_string(), vec![item("alpha")]);
    assert_eq!(c.input_items.len(), 0);
    assert_eq!(c.len(), 0);
}

#[test]
fn accepted_response_populates_pool() {
    let mut c = CompletionData::new();
    c.status = CompletionStatus::Started;
    c.receive(
        0,
        "".to_string(),
        vec![item("alpha"), item("beta"), item("gamma")],
    );
    assert_eq!(c.input_items.len(), 1);
    assert_eq!(c.len(), 3);
    assert_eq!(labels(&c), vec!["alpha", "beta", "gamma"]);
}

#[test]
fn refilter_from_full_pool() {
    let mut c = CompletionData::new();
    c.status = CompletionStatus::Started;
    c.receive(
        0,
        "".to_string(),
        vec![item("ccc"), item("aaa"), item("bbb")],
    );
    // typing narrows the displayed list
    c.update_input("aa".to_string());
    assert_eq!(labels(&c), vec!["aaa"]);
    assert_eq!(c.index, 0);
    // erasing the filter restores the full pool in server order
    c.update_input("".to_string());
    assert_eq!(labels(&c), vec!["ccc", "aaa", "bbb"]);
}

#[test]
fn filtering_is_case_insensitive() {
    let mut c = CompletionData::new();
    c.status = CompletionStatus::Started;
    c.receive(0, "".to_string(), vec![item("Alpha"), item("beta")]);
    c.update_input("al".to_string());
    assert_eq!(labels(&c), vec!["Alpha"]);
}

#[test]
fn non_matching_candidates_are_dropped() {
    let mut c = CompletionData::new();
    c.status = CompletionStatus::Started;
    c.receive(0, "".to_string(), vec![item("hello"), item("world")]);
    c.update_input("zz".to_string());
    assert_eq!(c.len(), 0);
    c.update_input("wld".to_string());
    assert_eq!(labels(&c), vec!["world"]);
}

#[test]
fn match_indices_are_shifted_into_label_space() {
    let mut c = CompletionData::new();
    c.status = CompletionStatus::Started;
    c.receive(
        0,
        "".to_string(),
        vec![item_with_filter("xxfoo", "foo")],
    );
    c.update_input("foo".to_string());
    assert_eq!(labels(&c), vec!["xxfoo"]);
    // "foo" matches the filter text at 0,1,2; the filter text sits at
    // offset 2 of the label
    assert_eq!(c.current_items()[0].indices, vec![2, 3, 4]);
    assert!(c.current_items()[0].score != 0);
}

#[test]
fn filter_text_missing_from_label_drops_candidate() {
    let mut c = CompletionData::new();
    c.status = CompletionStatus::Started;
    c.receive(
        0,
        "".to_string(),
        vec![item_with_filter("alpha", "zeta"), item("zeta")],
    );
    c.update_input("ze".to_string());
    // the first candidate's filter text does not occur in its label
    assert_eq!(labels(&c), vec!["zeta"]);
}

#[test]
fn sort_tie_break_label_score() {
    let mut c = CompletionData::new();
    c.status = CompletionStatus::Started;
    // equal primary scores (same filter text), different label scores:
    // the exact label match ranks higher
    c.receive(
        0,
        "".to_string(),
        vec![item_with_filter("xxab", "ab"), item_with_filter("ab", "ab")],
    );
    c.update_input("ab".to_string());
    assert_eq!(labels(&c), vec!["ab", "xxab"]);
}

#[test]
fn sort_tie_break_shorter_label() {
    let mut c = CompletionData::new();
    c.status = CompletionStatus::Started;
    // equal primary and label scores: the shorter label surfaces first
    c.receive(0, "".to_string(), vec![item("abxx"), item("abx")]);
    c.update_input("ab".to_string());
    assert_eq!(labels(&c), vec!["abx", "abxx"]);
}

#[test]
fn response_is_cached_under_its_own_input() {
    let mut c = CompletionData::new();
    c.status = CompletionStatus::Started;
    c.receive(0, "ab".to_string(), vec![item("abc")]);
    // no empty-input entry: with an empty filter nothing is shown
    assert_eq!(c.len(), 0);
    // once the filter catches up with the response's input, its entry is
    // the pool
    c.update_input("ab".to_string());
    assert_eq!(labels(&c), vec!["abc"]);
}

#[test]
fn wraparound_navigation() {
    let mut c = CompletionData::new();
    c.status = CompletionStatus::Started;
    c.receive(
        0,
        "".to_string(),
        vec![item("one"), item("two"), item("three")],
    );
    c.index = 2;
    c.next();
    assert_eq!(c.index, 0);
    c.previous();
    assert_eq!(c.index, 2);
    c.next();
    c.next();
    assert_eq!(c.index, 1);
}

#[test]
fn empty_list_navigation_stays_put() {
    let mut c = CompletionData::new();
    c.next();
    assert_eq!(c.index, 0);
    c.previous();
    assert_eq!(c.index, 0);
}

#[test]
fn current_item_follows_selection() {
    let mut c = CompletionData::new();
    c.status = CompletionStatus::Started;
    c.receive(0, "".to_string(), vec![item("one"), item("two")]);
    assert_eq!(c.current(), "one");
    c.next();
    assert_eq!(c.current(), "two");
    assert_eq!(c.current_item().label, "two");
}

#[test]
fn cancel_clears_and_is_idempotent() {
    let mut c = CompletionData::new();
    c.status = CompletionStatus::Started;
    c.receive(0, "".to_string(), vec![item("one")]);
    c.update_input("o".to_string());
    c.index = 0;
    c.cancel();
    assert!(c.status == CompletionStatus::Inactive);
    assert_eq!(c.input, "");
    assert_eq!(c.input_items.len(), 0);
    assert_eq!(c.index, 0);
    c.cancel();
    assert!(c.status == CompletionStatus::Inactive);
}

#[test]
fn update_input_while_inactive_only_stores() {
    let mut c = CompletionData::new();
    c.update_input("pre".to_string());
    assert_eq!(c.input, "pre");
    assert_eq!(c.index, 0);
    assert_eq!(c.filtered_items.len(), 0);
}

#[test]
fn overlay_update_scores_by_arrival_order() {
    let mut s = CompletionState::new();
    s.update("in".to_string(), vec![item("one"), item("two"), item("three")]);
    assert_eq!(s.input, "in");
    assert_eq!(s.items.len(), 3);
    assert_eq!(s.items[0].score, -1);
    assert_eq!(s.items[1].score, -2);
    assert_eq!(s.items[2].score, -3);
    assert_eq!(s.items[1].index, 1);
    assert_eq!(s.len(), 3);
    assert!(!s.is_empty());
    let visible = s.current_items();
    assert_eq!(visible.len(), 3);
    assert_eq!(visible[0].item.label, "one");
    assert_eq!(visible[2].item.label, "three");
}

#[test]
fn overlay_hides_zero_scores() {
    let mut s = CompletionState::new();
    s.update("".to_string(), vec![item("one"), item("two")]);
    s.items[0].score = 0;
    assert_eq!(s.len(), 1);
    let visible = s.current_items();
    assert_eq!(visible.len(), 1);
    assert_eq!(visible[0].item.label, "two");
}

#[test]
fn overlay_clear_and_cancel() {
    let mut s = CompletionState::new();
    s.update("in".to_string(), vec![item("one")]);
    s.index = 1;
    s.clear();
    assert_eq!(s.items.len(), 0);
    assert_eq!(s.input, "");
    assert_eq!(s.index, 0);
    s.update("in".to_string(), vec![item("one")]);
    s.cancel();
    assert_eq!(s.items.len(), 0);
    assert!(s.is_empty());
}
