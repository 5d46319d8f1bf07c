use gitjournal::model::TimeSpentAnnotation;
use gitjournal::parse::{parse, render_annotation, MalformedReason, ParseOutcome};

fn msg(s: &str) -> Vec<u8> {
    s.as_bytes().to_vec()
}

#[test]
fn parses_hours_with_label() {
    let r = parse(&msg("[time: 2h] fix bug"));
    assert_eq!(
        r,
        ParseOutcome::Annotation(TimeSpentAnnotation {
            minutes: 120,
            label: Some(b"fix bug".to_vec()),
        })
    );
}

#[test]
fn message_without_tag_is_not_present() {
    assert_eq!(parse(&msg("no tag here")), ParseOutcome::NotPresent);
    assert_eq!(parse(&msg("")), ParseOutcome::NotPresent);
}

#[test]
fn negative_duration_is_malformed() {
    assert_eq!(
        parse(&msg("[time: -1h] oops")),
        ParseOutcome::Malformed(MalformedReason::InvalidDuration)
    );
}

#[test]
fn parses_minutes_only() {
    let r = parse(&msg("[time: 30m]"));
    assert_eq!(
        r,
        ParseOutcome::Annotation(TimeSpentAnnotation { minutes: 30, label: None })
    );
}

#[test]
fn parses_hours_and_minutes() {
    let r = parse(&msg("[time: 1h30m] refactor"));
    assert_eq!(
        r,
        ParseOutcome::Annotation(TimeSpentAnnotation {
            minutes: 90,
            label: Some(b"refactor".to_vec()),
        })
    );
}

#[test]
fn zero_duration_is_malformed() {
    assert_eq!(
        parse(&msg("[time: 0h]")),
        ParseOutcome::Malformed(MalformedReason::ZeroDuration)
    );
    assert_eq!(
        parse(&msg("[time: 0m]")),
        ParseOutcome::Malformed(MalformedReason::ZeroDuration)
    );
}

#[test]
fn unterminated_tag_is_malformed() {
    assert_eq!(
        parse(&msg("[time: 2h")),
        ParseOutcome::Malformed(MalformedReason::MissingClose)
    );
}

#[test]
fn empty_duration_is_malformed() {
    assert_eq!(
        parse(&msg("[time: ]")),
        ParseOutcome::Malformed(MalformedReason::InvalidDuration)
    );
    assert_eq!(
        parse(&msg("[time: h]")),
        ParseOutcome::Malformed(MalformedReason::InvalidDuration)
    );
    assert_eq!(
        parse(&msg("[time: 2d]")),
        ParseOutcome::Malformed(MalformedReason::InvalidDuration)
    );
}

#[test]
fn huge_duration_overflows() {
    assert_eq!(
        parse(&msg("[time: 99999999999999999999h]")),
        ParseOutcome::Malformed(MalformedReason::DurationOverflow)
    );
}

#[test]
fn first_tag_is_honored() {
    let r = parse(&msg("see [time: 1h] and also [time: 2h]"));
    match r {
        ParseOutcome::Annotation(a) => assert_eq!(a.minutes, 60),
        other => panic!("expected an annotation, got {:?}", other),
    }
}

#[test]
fn label_is_trimmed() {
    let r = parse(&msg("[time: 5m]   padded label  "));
    assert_eq!(
        r,
        ParseOutcome::Annotation(TimeSpentAnnotation {
            minutes: 5,
            label: Some(b"padded label".to_vec()),
        })
    );
}

#[test]
fn render_then_parse_round_trips() {
    let a = TimeSpentAnnotation { minutes: 125, label: Some(b"deep work".to_vec()) };
    let s = render_annotation(&a);
    assert_eq!(s, b"[time: 125m] deep work".to_vec());
    assert_eq!(parse(&s), ParseOutcome::Annotation(a));
}

#[test]
fn render_without_label_round_trips() {
    let a = TimeSpentAnnotation { minutes: 1, label: None };
    let s = render_annotation(&a);
    assert_eq!(s, b"[time: 1m]".to_vec());
    assert_eq!(parse(&s), ParseOutcome::Annotation(a));
}

#[test]
fn render_of_zero_minutes_is_rejected() {
    let a = TimeSpentAnnotation { minutes: 0, label: None };
    let s = render_annotation(&a);
    assert_eq!(parse(&s), ParseOutcome::Malformed(MalformedReason::ZeroDuration));
}
