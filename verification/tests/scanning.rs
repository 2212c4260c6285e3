//! Output scanning tests: reading per-unit warning and error counts out
//! of captured build-tool diagnostics, and classifying runs from them.

use cargo_feature_combinations::runner::classify;
use cargo_feature_combinations::runner::sum_counts;
use cargo_feature_combinations::scan::error_counts;
use cargo_feature_combinations::scan::warning_counts;

fn single_mod_multiple_errors_stderr() -> String {
    [
        "   Compiling example v0.1.0 (/tmp/example)",
        "error[E0425]: cannot find value `x` in this scope",
        " --> src/lib.rs:2:5",
        "  |",
        "2 |     x",
        "  |     ^ not found in this scope",
        "",
        "error[E0425]: cannot find value `y` in this scope",
        " --> src/lib.rs:3:5",
        "",
        "error: could not compile `example` due to 2 previous errors",
        "",
    ]
    .join("\n")
}

fn two_mods_warnings_stderr() -> String {
    [
        "   Compiling mod-a v0.1.0 (/tmp/mod-a)",
        "warning: unused variable: `a`",
        " --> src/lib.rs:2:9",
        "",
        "warning: `mod-a` (lib) generated 6 warnings",
        "   Compiling mod-b v0.1.0 (/tmp/mod-b)",
        "warning: unused import: `std::io`",
        "",
        "warning: `mod-b` (lib) generated 7 warnings (run `cargo fix --lib` to apply 3 suggestions)",
        "    Finished `dev` profile [unoptimized + debuginfo] target(s) in 0.50s",
        "",
    ]
    .join("\n")
}

#[test]
fn lib_error_regex_single_mod_multiple_errors() {
    let stderr = single_mod_multiple_errors_stderr();
    let errors: Vec<usize> = error_counts(&stderr);
    assert_eq!(&errors, &vec![2]);
}

#[test]
fn lib_warning_regex_two_mod_multiple_warnings() {
    let stderr = two_mods_warnings_stderr();
    let warnings: Vec<usize> = warning_counts(&stderr);
    assert_eq!(&warnings, &vec![6, 7]);
}

#[test]
fn main_error_regex_single_mod_multiple_errors() {
    let stderr = [
        "error[E0308]: mismatched types",
        " --> src/main.rs:4:20",
        "",
        "error[E0308]: mismatched types",
        "",
        "error: could not compile `another-example` due to 2 previous errors",
    ]
    .join("\n");
    let errors: Vec<usize> = error_counts(&stderr);
    assert_eq!(&errors, &vec![2]);
}

#[test]
fn main_warning_regex_two_mod_multiple_warnings() {
    let stderr = [
        "warning: `first` (lib) generated 6 warnings",
        "warning: `second` (bin \"second\") generated 7 warnings",
    ]
    .join("\n");
    let warnings: Vec<usize> = warning_counts(&stderr);
    assert_eq!(&warnings, &vec![6, 7]);
}

#[test]
fn a_single_error_in_singular_form_counts_as_one() {
    let stderr = "error: could not compile `tiny` due to previous error\n";
    assert_eq!(error_counts(stderr), vec![1]);
}

#[test]
fn unrelated_lines_report_nothing() {
    let stderr = [
        "   Compiling quiet v0.1.0",
        "    Finished `dev` profile in 0.10s",
    ]
    .join("\n");
    assert_eq!(warning_counts(&stderr), Vec::<usize>::new());
    assert_eq!(error_counts(&stderr), Vec::<usize>::new());
}

#[test]
fn empty_output_reports_nothing() {
    assert_eq!(warning_counts(""), Vec::<usize>::new());
    assert_eq!(error_counts(""), Vec::<usize>::new());
}

#[test]
fn pedantic_mode_fails_on_warnings_and_errors() {
    // A run whose stderr holds two warning totals and one error total:
    // 6 + 7 warnings and 2 errors.
    let stderr = [
        "warning: `mod-a` (lib) generated 6 warnings",
        "warning: `mod-b` (lib) generated 7 warnings",
        "error: could not compile `mod-b` due to 2 previous errors",
    ]
    .join("\n");
    let warning_count = sum_counts(&warning_counts(&stderr));
    let error_count = sum_counts(&error_counts(&stderr));
    assert_eq!(warning_count, 13);
    assert_eq!(error_count, 2);
    // Under pedantic policy this is never a success, however the
    // process exited.
    assert!(!classify(true, true, error_count, warning_count));
    assert!(!classify(false, true, error_count, warning_count));
    // Without pedantic policy only the exit status decides.
    assert!(classify(true, false, error_count, warning_count));
}

#[test]
fn greedy_reading_takes_the_last_total_on_a_line() {
    let line = "warning: `a` generated 1 warnings warning: `b` generated 2 warnings\n";
    assert_eq!(warning_counts(line), vec![2]);
}
