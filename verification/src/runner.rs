//! What the command-line test runner does with its arguments.

use vstd::prelude::*;

verus! {

/// Command-line arguments for the test runner.
#[derive(Debug)]
pub struct TestRunnerCommand<P> {
    /// Path to the test suite directory or a single JSON test file.
    ///
    /// If a directory is provided, it should contain a `blockchain_tests` subdirectory.
    /// If a JSON file is provided, it will be run directly as a single test case.
    pub path: P,
}

/// What the test runner is to run.
#[derive(Debug)]
pub enum TestRun<P> {
    /// The test case in one file.
    SingleFile {
        /// The file.
        path: P,
    },
    /// The test suite in a subdirectory.
    Suite {
        /// The directory above it.
        path: P,
        /// The name of the subdirectory.
        subdirectory: &'static str,
    },
}

/// What the test runner tells of a single test case.
#[derive(Debug)]
pub struct TestReport {
    /// What is printed, before the error of a failed test.
    pub message: &'static str,
    /// The exit code of the process.
    pub exit_code: i32,
}

impl<P> TestRunnerCommand<P> {
    /// Decides what to run. `is_file` tells whether the path is a file, `extension` is its file
    /// extension.
    pub fn test_run(self, is_file: bool, extension: Option<String>) -> (r: TestRun<P>)
        ensures
            if is_file && extension is Some && extension->0@ == "json"@ {
                r == (TestRun::SingleFile { path: self.path })
            } else {
                &&& r matches TestRun::Suite { path, subdirectory }
                &&& path == self.path
                &&& subdirectory@ == "blockchain_tests"@
            },
    {
        let json: bool = match extension {
            Some(extension) => extension == "json".to_owned(),
            None => false,
        };
        if is_file && json {
            TestRun::SingleFile { path: self.path }
        } else {
            TestRun::Suite { path: self.path, subdirectory: "blockchain_tests" }
        }
    }
}

/// Reports the outcome of a single test case: a failed test fails the process.
pub fn report_single_file(passed: bool) -> (r: TestReport)
    ensures
        passed ==> r.message@ == "Test passed!"@ && r.exit_code == 0,
        !passed ==> r.message@ == "Test failed: "@ && r.exit_code == 1,
{
    if passed {
        TestReport { message: "Test passed!", exit_code: 0 }
    } else {
        TestReport { message: "Test failed: ", exit_code: 1 }
    }
}

} // verus!
