use msh::report::{broadcast_report, registry_words, Report};
use msh::strutil::abbreviate_home;

#[test]
fn one_failure_among_valid_targets_reports_once() {
    let targets = ["/a", "/b", "/c", "/gone"];
    let outcomes: Vec<Result<String, String>> = vec![
        Ok("out a\n".to_string()),
        Ok("out b\n".to_string()),
        Ok("out c\n".to_string()),
        Err("No such file or directory".to_string()),
    ];
    let reports: Vec<Report> = targets
        .iter()
        .zip(outcomes.iter())
        .map(|(t, o)| broadcast_report(t, o))
        .collect();
    let failures = reports
        .iter()
        .filter(|r| matches!(r, Report::Failure(_)))
        .count();
    let outputs = reports
        .iter()
        .filter(|r| matches!(r, Report::Output(_)))
        .count();
    assert_eq!(failures, 1);
    assert_eq!(outputs, 3);
}

#[test]
fn failure_report_names_target_and_error() {
    let outcome: Result<String, String> = Err("boom".to_string());
    assert_eq!(
        broadcast_report("/gone", &outcome),
        Report::Failure(
            "Could not execute process on dir: /gone, failed with error: boom".to_string()
        )
    );
}

#[test]
fn output_report_is_prefixed_by_target() {
    let outcome: Result<String, String> = Ok("hello\n".to_string());
    assert_eq!(
        broadcast_report("/a", &outcome),
        Report::Output("/a:\nhello\n".to_string())
    );
}

#[test]
fn blank_output_is_quiet() {
    let outcome: Result<String, String> = Ok("  \n".to_string());
    assert_eq!(broadcast_report("/a", &outcome), Report::Quiet);
    let empty: Result<String, String> = Ok(String::new());
    assert_eq!(broadcast_report("/a", &empty), Report::Quiet);
}

#[test]
fn registry_file_words_are_paths() {
    assert_eq!(
        registry_words("/a /b\n/c\t/d\n"),
        vec!["/a", "/b", "/c", "/d"]
    );
    assert_eq!(registry_words("  \n \t "), Vec::<String>::new());
    assert_eq!(registry_words("one"), vec!["one"]);
}

#[test]
fn home_prefix_becomes_tilde() {
    assert_eq!(abbreviate_home("/home/u/work", "/home/u"), "~/work");
    assert_eq!(abbreviate_home("/home/u", "/home/u"), "~");
    assert_eq!(abbreviate_home("/etc", "/home/u"), "/etc");
}
