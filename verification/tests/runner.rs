use stateless::runner::{report_single_file, TestRun, TestRunnerCommand};

fn single(is_file: bool, extension: Option<&str>) -> bool {
    let command = TestRunnerCommand { path: "tests/case" };
    match command.test_run(is_file, extension.map(|e| e.to_owned())) {
        TestRun::SingleFile { path } => {
            assert_eq!(path, "tests/case");
            true
        }
        TestRun::Suite { path, subdirectory } => {
            assert_eq!(path, "tests/case");
            assert_eq!(subdirectory, "blockchain_tests");
            false
        }
    }
}

#[test]
fn only_a_json_file_is_run_on_its_own() {
    assert!(single(true, Some("json")));
    assert!(!single(false, Some("json")));
    assert!(!single(true, Some("JSON")));
    assert!(!single(true, Some("jso")));
    assert!(!single(true, None));
    assert!(!single(false, None));
}

#[test]
fn a_failed_test_fails_the_process() {
    let passed = report_single_file(true);
    assert_eq!((passed.message, passed.exit_code), ("Test passed!", 0));
    let failed = report_single_file(false);
    assert_eq!((failed.message, failed.exit_code), ("Test failed: ", 1));
}
