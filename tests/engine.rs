use nameit::chooser::{enter_value, start_choice, ChoiceStart};
use nameit::history::History;
use nameit::params::{RenderContext, ResolveError, Timestamp};
use nameit::render::{file_name, render_step, RenderStep};
use nameit::template::NameTemplate;

fn ctx(stem: &str, index: usize) -> RenderContext {
    RenderContext {
        stem: stem.to_string(),
        index,
        now: Timestamp {
            secs: 0,
            nanos: 0,
            offset_secs: 0,
        },
    }
}

#[test]
fn first_name_is_typed_in() {
    let t = NameTemplate::from("{name}_{###}").unwrap();
    let mut h = History::new();
    let c = ctx("img", 3);
    let mut out = Vec::new();
    let step = render_step(&t, &mut h, &c, false, &mut out).unwrap();
    let name = match step {
        RenderStep::NeedsChoice(n) => n,
        RenderStep::Complete => panic!("a choice was expected"),
    };
    assert_eq!(name, "name");
    let mut list = h.candidates("name").unwrap();
    assert!(list.is_empty());
    assert!(matches!(start_choice(&list, false), ChoiceStart::Entry));
    let v = enter_value(&mut list, "beach".to_string());
    h.store("name", list);
    out.push(v);
    assert!(matches!(
        render_step(&t, &mut h, &c, false, &mut out).unwrap(),
        RenderStep::Complete
    ));
    assert_eq!(out, vec!["beach".to_string(), "_".to_string(), "003".to_string()]);
    assert_eq!(file_name(&out), "beach_003");
    assert_eq!(h.variables, vec!["name".to_string()]);
    assert_eq!(h.candidates("name"), Some(vec!["beach".to_string()]));
}

#[test]
fn empty_history_forces_entry() {
    let mut h = History::default();
    assert!(h.formats.is_empty() && h.variables.is_empty() && h.values.is_empty());
    h.register("place");
    let list = h.candidates("place").unwrap();
    assert!(matches!(start_choice(&list, false), ChoiceStart::Entry));
}

#[test]
fn repeat_last_takes_most_recent() {
    let t = NameTemplate::from("{name}_{#}").unwrap();
    let mut h = History::new();
    h.register("name");
    h.store("name", vec!["sea".to_string(), "hill".to_string()]);
    let mut out = Vec::new();
    let step = render_step(&t, &mut h, &ctx("x", 2), true, &mut out).unwrap();
    assert!(matches!(step, RenderStep::Complete));
    assert_eq!(file_name(&out), "sea_2");
}

#[test]
fn known_variable_asks_without_repeat() {
    let t = NameTemplate::from("{name}").unwrap();
    let mut h = History::new();
    h.register("name");
    h.store("name", vec!["sea".to_string()]);
    let mut out = Vec::new();
    let step = render_step(&t, &mut h, &ctx("x", 1), false, &mut out).unwrap();
    assert!(matches!(step, RenderStep::NeedsChoice(_)));
    assert!(out.is_empty());
    assert_eq!(h.candidates("name"), Some(vec!["sea".to_string()]));
}

#[test]
fn failing_parameter_stops_rendering() {
    let t = NameTemplate::from("#_{?x}").unwrap();
    let mut h = History::new();
    let mut out = Vec::new();
    let r = render_step(&t, &mut h, &ctx("x", 1), false, &mut out);
    assert!(matches!(r, Err(ResolveError::UnrecognizedParameter)));
    assert_eq!(out.len(), 2);
}

#[test]
fn spaces_become_hyphens() {
    let parts = vec!["my trip".to_string(), "_".to_string(), "a b c".to_string()];
    let once = file_name(&parts);
    assert_eq!(once, "my-trip_a-b-c");
    assert_eq!(file_name(&vec![once.clone()]), once);
}

#[test]
fn orphans_and_pruning() {
    let mut h = History::new();
    h.formats = vec!["{name}_{##}".to_string(), "bad{".to_string()];
    h.register("name");
    h.register("old");
    h.store("name", vec!["x".to_string()]);
    assert!(h.uses_variable("name"));
    assert!(!h.uses_variable("old"));
    h.prune_empty();
    assert_eq!(h.variables, vec!["name".to_string()]);
    assert_eq!(h.values.len(), 1);
    assert_eq!(h.candidates("old"), None);
}
