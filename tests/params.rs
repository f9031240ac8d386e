use nameit::decimal::{parse_index, zero_padded};
use nameit::params::{leading_groups_of, resolve_special, RenderContext, ResolveError, Timestamp};

fn ctx(stem: &str, index: usize) -> RenderContext {
    RenderContext {
        stem: stem.to_string(),
        index,
        now: Timestamp {
            secs: 0,
            nanos: 0,
            offset_secs: 0,
        },
    }
}

#[test]
fn index_is_zero_padded() {
    assert_eq!(resolve_special("###", &ctx("img", 3)), Ok("003".to_string()));
    assert_eq!(resolve_special("#", &ctx("img", 7)), Ok("7".to_string()));
}

#[test]
fn index_wider_than_marker_is_not_cut() {
    assert_eq!(resolve_special("##", &ctx("img", 1234)), Ok("1234".to_string()));
}

#[test]
fn padded_index_reads_back() {
    for (n, w) in [(0usize, 3usize), (5, 1), (42, 6), (123456, 2)] {
        let s = zero_padded(n, w);
        assert!(s.len() >= w);
        assert!(s.chars().all(|c| c.is_ascii_digit()));
        assert_eq!(parse_index(&s), Some(n));
    }
}

#[test]
fn stem_is_kept() {
    for i in [1usize, 2, 99] {
        assert_eq!(
            resolve_special("?", &ctx("vacation-photo", i)),
            Ok("vacation-photo".to_string())
        );
    }
}

#[test]
fn two_leading_groups() {
    assert_eq!(resolve_special("**", &ctx("a_b_c_d", 1)), Ok("a_b".to_string()));
    assert_eq!(leading_groups_of("a_b_c_d", 2), "a_b");
}

#[test]
fn groups_clamped_to_stem() {
    assert_eq!(leading_groups_of("a_b", 5), "a_b");
    assert_eq!(leading_groups_of("plain", 1), "plain");
    assert_eq!(leading_groups_of("_x", 1), "");
    assert_eq!(leading_groups_of("a_b", 0), "");
}

#[test]
fn date_is_formatted() {
    let c = ctx("img", 1);
    assert_eq!(resolve_special("%Y-%m-%d", &c), Ok("1970-01-01".to_string()));
}

#[test]
fn date_uses_offset() {
    let c = RenderContext {
        stem: "x".to_string(),
        index: 1,
        now: Timestamp {
            secs: 86_400 + 3_600,
            nanos: 0,
            offset_secs: 7_200,
        },
    };
    assert_eq!(resolve_special("%d %H", &c), Ok("02 03".to_string()));
}

#[test]
fn date_with_bad_offset_fails() {
    let c = RenderContext {
        stem: "x".to_string(),
        index: 1,
        now: Timestamp {
            secs: 0,
            nanos: 0,
            offset_secs: 100_000,
        },
    };
    assert_eq!(resolve_special("%Y", &c), Err(ResolveError::InvalidDateFormat));
}

#[test]
fn unknown_parameter() {
    assert_eq!(
        resolve_special("?x", &ctx("img", 1)),
        Err(ResolveError::UnrecognizedParameter)
    );
    assert_eq!(
        resolve_special("#*", &ctx("img", 1)),
        Err(ResolveError::UnrecognizedParameter)
    );
}

#[test]
fn context_at_current_time() {
    let c = RenderContext::at_current_time("stem".to_string(), 4);
    assert_eq!(c.stem, "stem");
    assert_eq!(c.index, 4);
}

#[test]
fn parse_index_forms() {
    assert_eq!(parse_index("12"), Some(12));
    assert_eq!(parse_index("+3"), Some(3));
    assert_eq!(parse_index("007"), Some(7));
    assert_eq!(parse_index(""), None);
    assert_eq!(parse_index("+"), None);
    assert_eq!(parse_index("1a"), None);
    assert_eq!(parse_index("-1"), None);
    assert_eq!(parse_index("99999999999999999999999"), None);
}
