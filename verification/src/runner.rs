//! Per-run bookkeeping for the orchestrator: building the subprocess
//! argument vector, turning a finished run's captured output into a
//! [`Summary`], and folding all summaries into the report's numbers and
//! the process's final exit code.
//!
//! Spawning the build tool, relaying its output and all printing live
//! outside this crate; what stands here is every decision those steps
//! rest on.

use vstd::prelude::*;

use crate::args::contains_flag;
use crate::args::has_flag;
use crate::fset::clone_strings;
use crate::fset::joined;
use crate::fset::views;
use crate::fset::FeatureSet;
use crate::order::str_eq;
use crate::scan::err_counts_text;
use crate::scan::error_counts;
use crate::scan::warn_counts_text;
use crate::scan::warning_counts;

verus! {

/// The outcome of running the build tool once on one feature set.
pub struct Summary {
    /// The package that was built.
    pub package_name: String,
    /// The feature set it was built with.
    pub features: Vec<String>,
    /// The process's exit code, absent if it was killed abnormally.
    pub exit_code: Option<i32>,
    /// Whether the run counts as a success under the requested policy.
    pub pedantic_success: bool,
    /// Total warnings its output reported.
    pub num_warnings: usize,
    /// Total errors its output reported.
    pub num_errors: usize,
}

/// High-level command requested by the user.
pub enum Command {
    /// Print a JSON feature matrix.
    FeatureMatrix {
        /// Whether to pretty-print the JSON.
        pretty: bool,
    },
    /// Print the tool version.
    Version,
    /// Print help text.
    Help,
}

/// Command-line options that drive a whole invocation.
pub struct Options {
    /// Path to the manifest to inspect, if given.
    pub manifest_path: Option<String>,
    /// Explicit package names to include.
    pub packages: Vec<String>,
    /// Package names to exclude.
    pub exclude_packages: Vec<String>,
    /// High-level command to execute, if any.
    pub command: Option<Command>,
    /// Restrict processing to packages with a library target.
    pub only_packages_with_lib_target: bool,
    /// Hide the build tool's output and only show the final summary.
    pub silent: bool,
    /// Print the full command for each run.
    pub verbose: bool,
    /// Treat warnings like errors for the summary and fail-fast.
    pub pedantic: bool,
    /// Ask the build tool to silence warnings and show errors only.
    pub errors_only: bool,
    /// Only list packages instead of feature combinations.
    pub packages_only: bool,
    /// Stop after the first failing feature combination.
    pub fail_fast: bool,
}

impl Default for Options {
    fn default() -> (r: Self)
        ensures
            r.manifest_path is None,
            r.packages@ == Seq::<String>::empty(),
            r.exclude_packages@ == Seq::<String>::empty(),
            r.command is None,
            !r.only_packages_with_lib_target,
            !r.silent,
            !r.verbose,
            !r.pedantic,
            !r.errors_only,
            !r.packages_only,
            !r.fail_fast,
    {
        Options {
            manifest_path: None,
            packages: Vec::new(),
            exclude_packages: Vec::new(),
            command: None,
            only_packages_with_lib_target: false,
            silent: false,
            verbose: false,
            pedantic: false,
            errors_only: false,
            packages_only: false,
            fail_fast: false,
        }
    }
}

/// What stripping the ANSI escape sequences leaves of a byte stream.
pub uninterp spec fn stripped_of(bytes: Seq<u8>) -> Seq<u8>;

/// Relies on strip_ansi_escapes::strip: the escape sequences are removed
/// and the result depends on the input bytes alone.
#[verifier::external_body]
fn strip_ansi(data: &Vec<u8>) -> (r: Vec<u8>)
    ensures
        r@ == stripped_of(data@),
{
    strip_ansi_escapes::strip(data.as_slice())
}

/// What lossy UTF-8 decoding makes of a byte stream.
pub uninterp spec fn lossy_text_of(bytes: Seq<u8>) -> Seq<char>;

/// Relies on String::from_utf8_lossy: invalid sequences become
/// replacement characters and the result depends on the input bytes
/// alone.
#[verifier::external_body]
fn utf8_lossy(bytes: &Vec<u8>) -> (r: String)
    ensures
        r@ == lossy_text_of(bytes@),
{
    String::from_utf8_lossy(bytes.as_slice()).into_owned()
}

/// A running total that stops at the largest representable value.
pub open spec fn sat_sum(s: Seq<int>) -> int
    decreases s.len(),
{
    if s.len() == 0 {
        0
    } else {
        let rest = sat_sum(s.drop_last());
        if rest + s.last() > usize::MAX {
            usize::MAX as int
        } else {
            rest + s.last()
        }
    }
}

/// Add up reported counts, saturating instead of overflowing.
pub fn sum_counts(v: &Vec<usize>) -> (r: usize)
    ensures
        r as int == sat_sum(v@.map_values(|c: usize| c as int)),
{
    let ghost m = v@.map_values(|c: usize| c as int);
    let mut acc: usize = 0;
    let mut i: usize = 0;
    proof {
        assert(m.take(0) =~= Seq::<int>::empty());
    }
    while i < v.len()
        invariant
            0 <= i <= v.len(),
            m == v@.map_values(|c: usize| c as int),
            acc as int == sat_sum(m.take(i as int)),
        decreases v.len() - i,
    {
        proof {
            assert(m.take(i as int + 1).drop_last() =~= m.take(i as int));
            assert(m.take(i as int + 1).last() == m[i as int]);
        }
        acc = acc.saturating_add(v[i]);
        i = i + 1;
    }
    proof {
        assert(m.take(m.len() as int) =~= m);
    }
    acc
}

/// Whether a run counts as a success: the process must have succeeded,
/// and under pedantic policy its output must have reported neither
/// errors nor warnings.
pub fn classify(exit_success: bool, pedantic: bool, num_errors: usize, num_warnings: usize) -> (r:
    bool)
    ensures
        r == (exit_success && !(pedantic && (num_errors > 0 || num_warnings > 0))),
{
    let pedantic_fail = pedantic && (num_errors > 0 || num_warnings > 0);
    exit_success && !pedantic_fail
}

/// Build one run's [`Summary`] from what the orchestrator captured: the
/// raw bytes of the diagnostic stream and how the process exited. The
/// captured bytes are stripped of escape sequences and decoded before
/// their summary lines are counted.
pub fn make_summary(
    package_name: String,
    features: &FeatureSet,
    captured: &Vec<u8>,
    exit_success: bool,
    exit_code: Option<i32>,
    pedantic: bool,
) -> (s: Summary)
    ensures
        s.package_name == package_name,
        s.features@ == features.names@,
        s.exit_code == exit_code,
        s.num_warnings as int == sat_sum(
            warn_counts_text(lossy_text_of(stripped_of(captured@))),
        ),
        s.num_errors as int == sat_sum(err_counts_text(lossy_text_of(stripped_of(captured@)))),
        s.pedantic_success == (exit_success && !(pedantic && (s.num_errors > 0
            || s.num_warnings > 0))),
{
    let stripped = strip_ansi(captured);
    let text = utf8_lossy(&stripped);
    let warnings = warning_counts(text.as_str());
    let errors = error_counts(text.as_str());
    let num_warnings = sum_counts(&warnings);
    let num_errors = sum_counts(&errors);
    let pedantic_success = classify(exit_success, pedantic, num_errors, num_warnings);
    Summary {
        package_name,
        features: clone_strings(features.names()),
        exit_code,
        pedantic_success,
        num_warnings,
        num_errors,
    }
}

/// The status token the report prints for one outcome.
#[derive(Clone, Copy, Debug, PartialEq, Eq, Structural)]
pub enum RunStatus {
    /// The run was not a success under the requested policy.
    Fail,
    /// The run succeeded but its output reported warnings.
    Warn,
    /// The run succeeded with no warnings reported.
    Pass,
}

/// Which status token one outcome earns.
pub fn run_status(s: &Summary) -> (r: RunStatus)
    ensures
        (r == RunStatus::Fail) == !s.pedantic_success,
        (r == RunStatus::Warn) == (s.pedantic_success && s.num_warnings > 0),
        (r == RunStatus::Pass) == (s.pedantic_success && s.num_warnings == 0),
{
    if !s.pedantic_success {
        RunStatus::Fail
    } else if s.num_warnings > 0 {
        RunStatus::Warn
    } else {
        RunStatus::Pass
    }
}

/// The exit code of the first outcome that was not a success, 1 if that
/// run has no exit code, and 0 when every outcome succeeded.
pub open spec fn spec_exit_code(s: Seq<Summary>) -> int
    decreases s.len(),
{
    if s.len() == 0 {
        0
    } else if !s[0].pedantic_success {
        match s[0].exit_code {
            Some(c) => c as int,
            None => 1,
        }
    } else {
        spec_exit_code(s.skip(1))
    }
}

/// The whole invocation's exit code, from the outcomes in run order.
pub fn final_exit_code(outcomes: &Vec<Summary>) -> (r: i32)
    ensures
        r as int == spec_exit_code(outcomes@),
{
    let mut i: usize = 0;
    proof {
        assert(outcomes@.skip(0) =~= outcomes@);
    }
    while i < outcomes.len()
        invariant
            0 <= i <= outcomes@.len(),
            spec_exit_code(outcomes@) == spec_exit_code(outcomes@.skip(i as int)),
        decreases outcomes@.len() - i,
    {
        proof {
            assert(outcomes@.skip(i as int)[0] == outcomes@[i as int]);
            assert(outcomes@.skip(i as int).skip(1) =~= outcomes@.skip(i as int + 1));
        }
        if !outcomes[i].pedantic_success {
            return match outcomes[i].exit_code {
                Some(c) => c,
                None => 1,
            };
        }
        i = i + 1;
    }
    0
}

/// The index of the first `--` separator, or the list's length.
pub open spec fn first_sep(s: Seq<Seq<char>>) -> int
    decreases s.len(),
{
    if s.len() == 0 {
        0
    } else if s[0] == "--"@ {
        0
    } else {
        1 + first_sep(s.skip(1))
    }
}

/// The separator index is within the list, at a `--`, with none before.
pub proof fn lemma_first_sep(s: Seq<Seq<char>>)
    ensures
        0 <= first_sep(s) <= s.len(),
        first_sep(s) < s.len() ==> s[first_sep(s)] == "--"@,
        forall|k: int| 0 <= k < first_sep(s) ==> s[k] != "--"@,
    decreases s.len(),
{
    if s.len() > 0 && s[0] != "--"@ {
        lemma_first_sep(s.skip(1));
        assert forall|k: int| 0 <= k < first_sep(s) implies s[k] != "--"@ by {
            if k > 0 {
                assert(s.skip(1)[k - 1] == s[k]);
            }
        }
        if first_sep(s) < s.len() {
            assert(s.skip(1)[first_sep(s) - 1] == s[first_sep(s)]);
        }
    }
}

/// Split the raw build-tool arguments for a run: the part before the
/// first `--` (with `--color always` injected unless a color flag is
/// already present), the part from the `--` on (passed through as it
/// stands), and whether the whole invocation carried no arguments at
/// all — in which case no flags are injected into the runs.
pub fn prepare_cargo_args(cargo_args: Vec<String>) -> (r: (Vec<String>, Vec<String>, bool))
    ensures
        views(r.1@) == views(cargo_args@).skip(first_sep(views(cargo_args@))),
        r.2 == (cargo_args@.len() == 0),
        views(r.0@) == {
            let head = views(cargo_args@).take(first_sep(views(cargo_args@)));
            if has_flag(head, "--color"@) {
                head
            } else {
                head + seq!["--color"@, "always"@]
            }
        },
{
    let ghost av = views(cargo_args@);
    let mut head = cargo_args;
    let mut sep: usize = 0;
    proof {
        lemma_first_sep(av);
    }
    loop
        invariant
            0 <= sep <= head@.len(),
            views(head@) == av,
            forall|k: int| 0 <= k < sep ==> av[k] != "--"@,
        ensures
            0 <= sep <= head@.len(),
            views(head@) == av,
            forall|k: int| 0 <= k < sep ==> av[k] != "--"@,
            sep < head@.len() ==> av[sep as int] == "--"@,
        decreases head@.len() - sep,
    {
        if sep == head.len() {
            break ;
        }
        if str_eq(head[sep].as_str(), "--") {
            proof {
                assert(av[sep as int] == "--"@);
            }
            break ;
        }
        sep = sep + 1;
    }
    proof {
        // `sep` is the first separator: nothing before it matches, and
        // either it is one or the list is exhausted.
        if first_sep(av) < sep {
            assert(av[first_sep(av)] == "--"@);
            assert(false);
        }
        if sep < head@.len() && first_sep(av) > sep {
            assert(av[sep as int] == "--"@);
            assert(false);
        }
        if sep == head@.len() && first_sep(av) > sep {
            assert(false);
        }
        assert(first_sep(av) == sep);
    }
    let missing = head.len() == 0;
    let extra = head.split_off(sep);
    proof {
        assert(views(extra@) =~= av.skip(sep as int));
        assert(views(head@) =~= av.take(sep as int));
    }
    let has_color = contains_flag(&head, "--color");
    if !has_color {
        let ghost pre = views(head@);
        head.push(String::from_str("--color"));
        head.push(String::from_str("always"));
        proof {
            assert(views(head@) =~= pre + seq!["--color"@, "always"@]);
        }
    }
    (head, extra, missing)
}

/// The argument vector for one run: the prepared head, then (unless the
/// invocation carried no arguments) `--no-default-features` and the
/// `--features=` flag naming the run's feature set, then the passthrough
/// part.
pub fn build_command_args(
    head: &Vec<String>,
    extra: &Vec<String>,
    features: &FeatureSet,
    missing_arguments: bool,
) -> (r: Vec<String>)
    ensures
        views(r@) == views(head@) + (if missing_arguments {
            Seq::<Seq<char>>::empty()
        } else {
            seq!["--no-default-features"@, "--features="@ + joined(features.seq_view())]
        }) + views(extra@),
{
    let mut out = clone_strings(head);
    proof {
        assert(views(out@) =~= views(head@));
    }
    if !missing_arguments {
        let ghost pre = views(out@);
        out.push(String::from_str("--no-default-features"));
        let mut flag = String::from_str("--features=");
        flag.append(features.join_commas().as_str());
        proof {
            assert(flag@ == "--features="@ + joined(features.seq_view()));
        }
        out.push(flag);
        proof {
            assert(views(out@) =~= pre + seq![
                "--no-default-features"@,
                "--features="@ + joined(features.seq_view()),
            ]);
        }
    }
    let ghost mid = views(out@);
    let mut tail = clone_strings(extra);
    out.append(&mut tail);
    proof {
        assert(views(out@) =~= mid + views(extra@));
        assert(views(out@) =~= views(head@) + (if missing_arguments {
            Seq::<Seq<char>>::empty()
        } else {
            seq!["--no-default-features"@, "--features="@ + joined(features.seq_view())]
        }) + views(extra@));
    }
    out
}

/// The package names of a list of outcomes, in order.
pub open spec fn outcome_names(s: Seq<Summary>) -> Seq<Seq<char>> {
    s.map_values(|o: Summary| o.package_name@)
}

/// The (package, feature set) pairs of a list of outcomes, in order.
pub open spec fn outcome_pairs(s: Seq<Summary>) -> Seq<(Seq<char>, Seq<Seq<char>>)> {
    s.map_values(|o: Summary| (o.package_name@, views(o.features@)))
}

/// The largest value in a list, or 0 for an empty list.
pub open spec fn seq_max(s: Seq<int>) -> int
    decreases s.len(),
{
    if s.len() == 0 {
        0
    } else {
        let m = seq_max(s.drop_last());
        if s.last() > m {
            s.last()
        } else {
            m
        }
    }
}

/// How many digits a number prints with.
pub open spec fn dec_width(n: int) -> int
    decreases n,
{
    if n < 10 {
        1
    } else {
        1 + dec_width(n / 10)
    }
}

proof fn lemma_dec_width_le(n: int)
    requires
        n >= 0,
    ensures
        1 <= dec_width(n) <= n + 1,
    decreases n,
{
    if n >= 10 {
        lemma_dec_width_le(n / 10);
    }
}

/// How many digits a number prints with: the report's column widths.
pub fn decimal_width(n: usize) -> (r: usize)
    ensures
        r as int == dec_width(n as int),
    decreases n,
{
    if n < 10 {
        1
    } else {
        let w = decimal_width(n / 10);
        proof {
            lemma_dec_width_le(n as int / 10);
        }
        1 + w
    }
}

/// Do two name lists hold the same names in the same order?
fn strs_eq(a: &Vec<String>, b: &Vec<String>) -> (r: bool)
    ensures
        r == (views(a@) == views(b@)),
{
    if a.len() != b.len() {
        proof {
            assert(views(a@).len() != views(b@).len());
        }
        return false;
    }
    let mut i: usize = 0;
    while i < a.len()
        invariant
            0 <= i <= a.len(),
            a@.len() == b@.len(),
            forall|k: int| 0 <= k < i ==> views(a@)[k] == views(b@)[k],
        decreases a.len() - i,
    {
        if !str_eq(a[i].as_str(), b[i].as_str()) {
            assert(views(a@)[i as int] != views(b@)[i as int]);
            return false;
        }
        i = i + 1;
    }
    proof {
        assert(views(a@) =~= views(b@));
    }
    true
}

/// Count the distinct package names among the outcomes.
fn count_distinct_names(outcomes: &Vec<Summary>) -> (r: usize)
    ensures
        r as int == outcome_names(outcomes@).to_set().len(),
{
    broadcast use vstd::seq_lib::seq_to_set_is_finite;

    let mut seen: Vec<String> = Vec::new();
    let mut i: usize = 0;
    proof {
        assert(views(seen@) =~= Seq::<Seq<char>>::empty());
        assert(outcome_names(outcomes@.take(0)) =~= Seq::<Seq<char>>::empty());
        assert(views(seen@).to_set() =~= outcome_names(outcomes@.take(0)).to_set());
    }
    while i < outcomes.len()
        invariant
            0 <= i <= outcomes.len(),
            views(seen@).no_duplicates(),
            views(seen@).to_set() == outcome_names(outcomes@.take(i as int)).to_set(),
        decreases outcomes.len() - i,
    {
        let ghost pre = views(seen@);
        let nm = &outcomes[i].package_name;
        if !crate::fset::names_contain(&seen, nm.as_str()) {
            seen.push(nm.clone());
            proof {
                assert(views(seen@) =~= pre.push(nm@));
                crate::fset::lemma_to_set_push(pre, nm@);
                assert forall|a: int, b: int|
                    0 <= a < b < views(seen@).len() implies views(seen@)[a] != views(
                    seen@,
                )[b] by {
                    if b == views(seen@).len() - 1 {
                        assert(pre.contains(pre[a]));
                    }
                }
            }
        }
        proof {
            assert(outcome_names(outcomes@.take(i as int + 1)) =~= outcome_names(
                outcomes@.take(i as int),
            ).push(outcomes@[i as int].package_name@));
            crate::fset::lemma_to_set_push(
                outcome_names(outcomes@.take(i as int)),
                outcomes@[i as int].package_name@,
            );
            assert(views(seen@).to_set() =~= outcome_names(outcomes@.take(i as int + 1)).to_set());
        }
        i = i + 1;
    }
    proof {
        assert(outcomes@.take(outcomes@.len() as int) =~= outcomes@);
        views(seen@).unique_seq_to_set();
    }
    seen.len()
}

/// Count the distinct (package, feature set) pairs among the outcomes.
fn count_distinct_pairs(outcomes: &Vec<Summary>) -> (r: usize)
    ensures
        r as int == outcome_pairs(outcomes@).to_set().len(),
{
    broadcast use vstd::seq_lib::seq_to_set_is_finite;

    let ghost pv = |t: (String, Vec<String>)| (t.0@, views(t.1@));
    let mut seen: Vec<(String, Vec<String>)> = Vec::new();
    let mut i: usize = 0;
    proof {
        assert(seen@.map_values(pv) =~= Seq::<(Seq<char>, Seq<Seq<char>>)>::empty());
        assert(outcome_pairs(outcomes@.take(0)) =~= Seq::<(Seq<char>, Seq<Seq<char>>)>::empty());
        assert(seen@.map_values(pv).to_set() =~= outcome_pairs(outcomes@.take(0)).to_set());
    }
    while i < outcomes.len()
        invariant
            0 <= i <= outcomes.len(),
            pv == (|t: (String, Vec<String>)| (t.0@, views(t.1@))),
            seen@.map_values(pv).no_duplicates(),
            seen@.map_values(pv).to_set() == outcome_pairs(outcomes@.take(i as int)).to_set(),
        decreases outcomes.len() - i,
    {
        let ghost pre = seen@.map_values(pv);
        let ghost cur = (outcomes@[i as int].package_name@, views(outcomes@[i as int].features@));
        let mut present = false;
        let mut k: usize = 0;
        loop
            invariant_except_break
                !present,
                forall|m: int| 0 <= m < k ==> pre[m] != cur,
            invariant
                0 <= k <= seen.len(),
                pv == (|t: (String, Vec<String>)| (t.0@, views(t.1@))),
                pre == seen@.map_values(pv),
                cur == (outcomes@[i as int].package_name@, views(outcomes@[i as int].features@)),
                i < outcomes@.len(),
            ensures
                present == pre.contains(cur),
            decreases seen@.len() - k,
        {
            if k == seen.len() {
                proof {
                    if pre.contains(cur) {
                        let m = choose|m: int| 0 <= m < pre.len() && pre[m] == cur;
                        assert(false);
                    }
                }
                break ;
            }
            if str_eq(seen[k].0.as_str(), outcomes[i].package_name.as_str()) && strs_eq(
                &seen[k].1,
                &outcomes[i].features,
            ) {
                present = true;
                proof {
                    assert(pre[k as int] == cur);
                    assert(pre.contains(cur));
                }
                break ;
            }
            proof {
                assert(pre[k as int] != cur);
            }
            k = k + 1;
        }
        if !present {
            seen.push((outcomes[i].package_name.clone(), clone_strings(&outcomes[i].features)));
            proof {
                assert(seen@.map_values(pv) =~= pre.push(cur));
                crate::fset::lemma_to_set_push(pre, cur);
                assert forall|a: int, b: int|
                    0 <= a < b < seen@.map_values(pv).len() implies seen@.map_values(pv)[a]
                    != seen@.map_values(pv)[b] by {
                    if b == seen@.map_values(pv).len() - 1 {
                        assert(pre.contains(pre[a]));
                    }
                }
            }
        } else {
            proof {
                assert(pre.contains(cur));
                assert(pre.to_set().contains(cur));
            }
        }
        proof {
            assert(outcome_pairs(outcomes@.take(i as int + 1)) =~= outcome_pairs(
                outcomes@.take(i as int),
            ).push(cur));
            crate::fset::lemma_to_set_push(outcome_pairs(outcomes@.take(i as int)), cur);
            assert(seen@.map_values(pv).to_set() =~= outcome_pairs(
                outcomes@.take(i as int + 1),
            ).to_set());
        }
        i = i + 1;
    }
    proof {
        assert(outcomes@.take(outcomes@.len() as int) =~= outcomes@);
        seen@.map_values(pv).unique_seq_to_set();
    }
    seen.len()
}

/// The numbers the final report is laid out from.
pub struct SummaryStats {
    /// How many distinct packages were built.
    pub num_packages: usize,
    /// How many distinct (package, feature set) runs there were.
    pub num_feature_sets: usize,
    /// The largest error count of any run.
    pub most_errors: usize,
    /// The largest warning count of any run.
    pub most_warnings: usize,
    /// Print width of the error column.
    pub errors_width: usize,
    /// Print width of the warning column.
    pub warnings_width: usize,
}

/// Fold all outcomes into the report's numbers: distinct package and run
/// counts, the maxima of the error and warning columns, and the widths
/// those columns are right-aligned to.
pub fn summary_stats(outcomes: &Vec<Summary>) -> (r: SummaryStats)
    ensures
        r.num_packages as int == outcome_names(outcomes@).to_set().len(),
        r.num_feature_sets as int == outcome_pairs(outcomes@).to_set().len(),
        r.most_errors as int == seq_max(outcomes@.map_values(|o: Summary| o.num_errors as int)),
        r.most_warnings as int == seq_max(
            outcomes@.map_values(|o: Summary| o.num_warnings as int),
        ),
        r.errors_width as int == dec_width(r.most_errors as int),
        r.warnings_width as int == dec_width(r.most_warnings as int),
{
    let ghost ev = outcomes@.map_values(|o: Summary| o.num_errors as int);
    let ghost wv = outcomes@.map_values(|o: Summary| o.num_warnings as int);
    let mut most_errors: usize = 0;
    let mut most_warnings: usize = 0;
    let mut i: usize = 0;
    proof {
        assert(ev.take(0) =~= Seq::<int>::empty());
        assert(wv.take(0) =~= Seq::<int>::empty());
    }
    while i < outcomes.len()
        invariant
            0 <= i <= outcomes.len(),
            ev == outcomes@.map_values(|o: Summary| o.num_errors as int),
            wv == outcomes@.map_values(|o: Summary| o.num_warnings as int),
            most_errors as int == seq_max(ev.take(i as int)),
            most_warnings as int == seq_max(wv.take(i as int)),
        decreases outcomes.len() - i,
    {
        proof {
            assert(ev.take(i as int + 1).drop_last() =~= ev.take(i as int));
            assert(ev.take(i as int + 1).last() == ev[i as int]);
            assert(wv.take(i as int + 1).drop_last() =~= wv.take(i as int));
            assert(wv.take(i as int + 1).last() == wv[i as int]);
        }
        if outcomes[i].num_errors > most_errors {
            most_errors = outcomes[i].num_errors;
        }
        if outcomes[i].num_warnings > most_warnings {
            most_warnings = outcomes[i].num_warnings;
        }
        i = i + 1;
    }
    proof {
        assert(ev.take(ev.len() as int) =~= ev);
        assert(wv.take(wv.len() as int) =~= wv);
    }
    let num_packages = count_distinct_names(outcomes);
    let num_feature_sets = count_distinct_pairs(outcomes);
    let errors_width = decimal_width(most_errors);
    let warnings_width = decimal_width(most_warnings);
    SummaryStats {
        num_packages,
        num_feature_sets,
        most_errors,
        most_warnings,
        errors_width,
        warnings_width,
    }
}

} // verus!
