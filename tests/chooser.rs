use nameit::chooser::{
    answer_filter, answer_selection, default_answer, enter_value, keep_selected, menu_len,
    promote, start_choice, ChoiceStart, InputError, RangeTerm, Selection,
};

fn list(items: &[&str]) -> Vec<String> {
    items.iter().map(|s| s.to_string()).collect()
}

fn chosen(s: Selection) -> Option<String> {
    match s {
        Selection::Chosen(v) => Some(v),
        _ => None,
    }
}

#[test]
fn choosing_moves_value_to_front() {
    let mut c = list(&["a", "b", "c"]);
    assert_eq!(chosen(answer_selection(&mut c, "3")), Some("c".to_string()));
    assert_eq!(c, list(&["c", "a", "b"]));
    // an empty answer picks the most recent value again
    assert_eq!(chosen(answer_selection(&mut c, "")), Some("c".to_string()));
    assert_eq!(c, list(&["c", "a", "b"]));
}

#[test]
fn zero_asks_for_new_value() {
    let mut c = list(&["a", "b"]);
    assert!(matches!(answer_selection(&mut c, "0"), Selection::NewEntry));
    assert_eq!(c, list(&["a", "b"]));
    assert_eq!(enter_value(&mut c, "z".to_string()), "z");
    assert_eq!(c, list(&["z", "a", "b"]));
}

#[test]
fn bad_selections_change_nothing() {
    let mut c = list(&["a", "b"]);
    assert!(matches!(
        answer_selection(&mut c, "x"),
        Selection::Invalid(InputError::NotANumber)
    ));
    assert!(matches!(
        answer_selection(&mut c, "3"),
        Selection::Invalid(InputError::OutOfRange)
    ));
    assert_eq!(c, list(&["a", "b"]));
}

#[test]
fn empty_answer_with_no_candidates_asks_for_entry() {
    let mut c: Vec<String> = Vec::new();
    assert!(matches!(answer_selection(&mut c, ""), Selection::NewEntry));
}

#[test]
fn start_of_choice() {
    assert!(matches!(start_choice(&Vec::new(), false), ChoiceStart::Entry));
    match start_choice(&Vec::new(), true) {
        ChoiceStart::Finished(t) => assert_eq!(t, "0"),
        _ => panic!("expected a finished filter"),
    }
    assert!(matches!(start_choice(&list(&["a"]), true), ChoiceStart::Menu));
}

#[test]
fn menu_sizes() {
    assert_eq!(menu_len(0, 20), 0);
    assert_eq!(menu_len(5, 20), 5);
    assert_eq!(menu_len(30, 20), 20);
    assert_eq!(menu_len(3, 0), 1);
}

#[test]
fn defaults() {
    assert_eq!(default_answer(12, true), "1-12");
    assert_eq!(default_answer(12, false), "1");
}

#[test]
fn promote_first_keeps_order() {
    let mut c = list(&["a", "b"]);
    assert_eq!(promote(&mut c, 0), "a");
    assert_eq!(c, list(&["a", "b"]));
}

#[test]
fn filter_keeps_selected_in_order() {
    let mut c = list(&["a", "b", "c", "d", "e"]);
    assert_eq!(answer_filter(&mut c, "4,1-2"), Ok("4,1-2".to_string()));
    assert_eq!(c, list(&["a", "b", "d"]));
}

#[test]
fn filter_open_range_and_step() {
    let mut c = list(&["a", "b", "c", "d", "e"]);
    assert_eq!(answer_filter(&mut c, "3-"), Ok("3-".to_string()));
    assert_eq!(c, list(&["c", "d", "e"]));
    let mut d = list(&["a", "b", "c", "d", "e"]);
    assert_eq!(answer_filter(&mut d, "1-2-5"), Ok("1-2-5".to_string()));
    assert_eq!(d, list(&["a", "c", "e"]));
}

#[test]
fn empty_filter_keeps_all() {
    let mut c = list(&["a", "b", "c"]);
    assert_eq!(answer_filter(&mut c, ""), Ok("1-3".to_string()));
    assert_eq!(c, list(&["a", "b", "c"]));
}

#[test]
fn malformed_filter_is_refused() {
    let mut c = list(&["a", "b", "c"]);
    assert_eq!(answer_filter(&mut c, "abc"), Err(InputError::MalformedRange));
    assert_eq!(c, list(&["a", "b", "c"]));
}

#[test]
fn keep_selected_by_terms() {
    let mut c = list(&["a", "b", "c", "d"]);
    keep_selected(
        &mut c,
        &vec![RangeTerm::Single(4), RangeTerm::Stepped(1, 2, 3), RangeTerm::Stepped(3, 0, 4)],
    );
    assert_eq!(c, list(&["a", "c", "d"]));
}
