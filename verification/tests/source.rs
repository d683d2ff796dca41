use proctree::util::piderator::{
    args_or_stdin, piderator, piderator_against, step, step_against, Step,
};

fn line(text: &str) -> Result<String, String> {
    Ok(String::from(text))
}

fn broken(text: &str) -> Result<String, String> {
    Err(String::from(text))
}

#[test]
fn stdin_line_tolerance() {
    let lines = vec![line("1"), line(""), line("not-a-pid"), line("2")];
    let (ids, reports) = piderator_against(&lines, &Ok(32768));
    assert_eq!(ids, vec![1, 2]);
    assert_eq!(reports, vec!["not a process ID: \"not-a-pid\""]);
}

#[test]
fn stdin_line_tolerance_against_the_kernel() {
    let lines = vec![line("1"), line(""), line("not-a-pid"), line("2")];
    let (ids, reports) = piderator(&lines);
    assert_eq!(ids, vec![1, 2]);
    assert_eq!(reports, vec!["not a process ID: \"not-a-pid\""]);
}

#[test]
fn a_line_that_cannot_be_read_is_reported() {
    let lines = vec![broken("stream did not contain valid UTF-8"), line("3")];
    let (ids, reports) = piderator_against(&lines, &Ok(10));
    assert_eq!(ids, vec![3]);
    assert_eq!(
        reports,
        vec!["broken line: stream did not contain valid UTF-8"]
    );
}

#[test]
fn lines_out_of_range_are_reported() {
    let lines = vec![line("0"), line("11"), line("10"), line("-1")];
    let (ids, reports) = piderator_against(&lines, &Ok(10));
    assert_eq!(ids, vec![10]);
    assert_eq!(
        reports,
        vec!["invalid PID: 0", "invalid PID: 11", "invalid PID: -1"]
    );
}

#[test]
fn blank_lines_are_skipped_in_silence() {
    let lines = vec![line("   "), line("\t"), line(""), line("\u{a0}")];
    let (ids, reports) = piderator_against(&lines, &Ok(10));
    assert!(ids.is_empty());
    assert!(reports.is_empty());
}

#[test]
fn a_line_is_validated_as_it_was_read() {
    let lines = vec![line(" 4"), line("4 "), line("4")];
    let (ids, reports) = piderator_against(&lines, &Ok(10));
    assert_eq!(ids, vec![4]);
    assert_eq!(
        reports,
        vec!["not a process ID: \" 4\"", "not a process ID: \"4 \""]
    );
}

#[test]
fn no_lines_no_identifiers() {
    let (ids, reports) = piderator(&vec![]);
    assert!(ids.is_empty());
    assert!(reports.is_empty());
}

#[test]
fn an_unreadable_limit_is_reported_for_every_number() {
    let limit: Result<i32, String> = Err(String::from("no limit"));
    let lines = vec![line("1"), line(""), line("x")];
    let (ids, reports) = piderator_against(&lines, &limit);
    assert!(ids.is_empty());
    assert_eq!(reports, vec!["no limit", "not a process ID: \"x\""]);
}

#[test]
fn one_line_at_a_time() {
    assert!(matches!(step_against(&line("7"), Ok(10)), Step::Yield(7)));
    assert!(matches!(step_against(&line(" "), Ok(10)), Step::Skip));
    match step_against(&line("70"), Ok(10)) {
        Step::Report(message) => assert_eq!(message, "invalid PID: 70"),
        other => panic!("unexpected step {:?}", other),
    }
    match step_against(&broken("eof"), Ok(10)) {
        Step::Report(message) => assert_eq!(message, "broken line: eof"),
        other => panic!("unexpected step {:?}", other),
    }
    assert!(matches!(step(&line("1")), Step::Yield(1)));
    assert!(matches!(step(&line("")), Step::Skip));
    match step(&line("zero")) {
        Step::Report(message) => assert_eq!(message, "not a process ID: \"zero\""),
        other => panic!("unexpected step {:?}", other),
    }
    match step(&broken("eof")) {
        Step::Report(message) => assert_eq!(message, "broken line: eof"),
        other => panic!("unexpected step {:?}", other),
    }
}

#[test]
fn arguments_come_before_the_input() {
    let lines = vec![line("1"), line("x")];
    let (ids, reports) = args_or_stdin(Some(vec![5, 3, 5]), &lines);
    assert_eq!(ids, vec![5, 3, 5]);
    assert!(reports.is_empty());
}

#[test]
fn the_input_is_read_without_arguments() {
    let lines = vec![line("1"), line("x")];
    let (ids, reports) = args_or_stdin(None, &lines);
    assert_eq!(ids, vec![1]);
    assert_eq!(reports, vec!["not a process ID: \"x\""]);
}
