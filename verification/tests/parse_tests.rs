use daap7::ProblemInstance;
use daap7::ProblemInstanceError;

#[test]
fn parse_usize_with_prefix_pass() {
    assert_eq!(
        ProblemInstance::parse_usize_with_prefix("n:\t45", "n:"),
        Some(45)
    );
}

#[test]
fn parse_usize_with_prefix_fail() {
    assert_eq!(
        ProblemInstance::parse_usize_with_prefix("n:\t45", "m:"),
        None
    );
}

#[test]
fn parse_usize_list_pass() {
    assert_eq!(
        ProblemInstance::parse_usize_list("45\t3\t23\t4\t\r\n", "\t"),
        Some(vec![45, 3, 23, 4])
    );
}

#[test]
fn parse_usize_list_fail() {
    assert_eq!(ProblemInstance::parse_usize_list("45\t3\t23\ta", "\t"), None);
}

#[test]
fn parse_usize_with_prefix_trims_and_accepts_plus() {
    assert_eq!(
        ProblemInstance::parse_usize_with_prefix("n:  +7  ", "n:"),
        Some(7)
    );
    assert_eq!(ProblemInstance::parse_usize_with_prefix("n:", "n:"), None);
    assert_eq!(ProblemInstance::parse_usize_with_prefix("n: 1 2", "n:"), None);
}

#[test]
fn parse_usize_list_overflow_is_rejected() {
    let huge = format!("1\t{}0", usize::MAX);
    assert_eq!(ProblemInstance::parse_usize_list(&huge, "\t"), None);
}

#[test]
fn from_lines_builds_the_instance() {
    let lines: Vec<String> = vec![
        "n:\t3".to_string(),
        "m:\t2".to_string(),
        "times\t1\t2\t4".to_string(),
        "setup times".to_string(),
        "0\t0\t2\t3".to_string(),
        "1\t0\t4\t3".to_string(),
        "3\t2\t0\t2".to_string(),
        "1\t0\t2\t0".to_string(),
    ];
    let instance = ProblemInstance::from_lines(&lines).unwrap();
    assert_eq!(instance.number_of_machines(), 2);
    assert_eq!(instance.task_times(), &vec![1, 2, 4]);
    assert_eq!(instance.setup_times().len(), 4);
    assert_eq!(instance.setup_times()[2], vec![3, 2, 0, 2]);
}

#[test]
fn from_lines_reports_the_offending_line() {
    let bad_first: Vec<String> = vec!["x:\t3".to_string()];
    match ProblemInstance::from_lines(&bad_first) {
        Err(ProblemInstanceError::SyntaxError(line)) => assert_eq!(line, 1),
        _ => panic!("expected a syntax error on line 1"),
    }
    let bad_matrix: Vec<String> = vec![
        "n:\t1".to_string(),
        "m:\t1".to_string(),
        "times\t5".to_string(),
        "".to_string(),
        "0\t1".to_string(),
        "oops".to_string(),
    ];
    match ProblemInstance::from_lines(&bad_matrix) {
        Err(ProblemInstanceError::SyntaxError(line)) => assert_eq!(line, 6),
        _ => panic!("expected a syntax error on line 6"),
    }
}
