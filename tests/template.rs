use nameit::template::{NamePart, NameTemplate, ParseError};

fn texts(t: &NameTemplate) -> Vec<(char, String)> {
    t.parts
        .iter()
        .map(|p| match p {
            NamePart::Literal(s) => ('L', s.clone()),
            NamePart::Delimiter(s) => ('D', s.clone()),
            NamePart::Variable(s) => ('V', s.clone()),
            NamePart::Parameter(s) => ('P', s.clone()),
        })
        .collect()
}

#[test]
fn braces_and_delimiters() {
    let t = NameTemplate::from("{name}_{###}").unwrap();
    assert_eq!(
        texts(&t),
        vec![
            ('V', "name".to_string()),
            ('D', "_".to_string()),
            ('P', "###".to_string())
        ]
    );
}

#[test]
fn bare_runs_are_variables_or_parameters() {
    let t = NameTemplate::from("event_%Y-%m-%d_?_**").unwrap();
    assert_eq!(
        texts(&t),
        vec![
            ('V', "event".to_string()),
            ('D', "_".to_string()),
            ('P', "%Y-%m-%d".to_string()),
            ('D', "_".to_string()),
            ('P', "?".to_string()),
            ('D', "_".to_string()),
            ('P', "**".to_string())
        ]
    );
}

#[test]
fn underscore_inside_braces_is_kept() {
    let t = NameTemplate::from("{a_b}c").unwrap();
    assert_eq!(
        texts(&t),
        vec![('V', "a_b".to_string()), ('V', "c".to_string())]
    );
}

#[test]
fn round_trip_without_braces() {
    let src = "{trip}_x_{##}__{%H}";
    let t = NameTemplate::from(src).unwrap();
    assert_eq!(t.text(), "trip_x_##__%H");
    assert_eq!(t.text(), src.replace('{', "").replace('}', ""));
}

#[test]
fn empty_template_has_no_parts() {
    let t = NameTemplate::from("").unwrap();
    assert!(t.parts.is_empty());
}

#[test]
fn unexpected_open() {
    assert_eq!(NameTemplate::from("{a{b}}").err(), Some(ParseError::UnexpectedOpen));
}

#[test]
fn unexpected_close() {
    assert_eq!(NameTemplate::from("a}").err(), Some(ParseError::UnexpectedClose));
}

#[test]
fn unclosed() {
    assert_eq!(NameTemplate::from("x_{abc").err(), Some(ParseError::Unclosed));
}

#[test]
fn empty_body() {
    assert_eq!(NameTemplate::from("a{}b").err(), Some(ParseError::EmptyBody));
}
