//! Plain argument-list parsing: flag lookup in `--flag` and `--flag=value`
//! forms, and recognition of the build tool's subcommand.

use vstd::prelude::*;

use crate::fset::views;
use crate::order::str_eq;
use crate::scan::chars_of;

verus! {

/// Does `a` name this flag, either exactly or in `flag=value` form?
pub open spec fn flag_match(a: Seq<char>, arg: Seq<char>) -> bool {
    a == arg || starts_with_eq(a, arg)
}

/// Does `a` begin with `arg` followed by `=`?
pub open spec fn starts_with_eq(a: Seq<char>, arg: Seq<char>) -> bool {
    a.len() > arg.len() && a.subrange(0, arg.len() as int) == arg && a[arg.len() as int] == '='
}

/// Is some entry of `a` this flag, bare or with a value?
pub open spec fn has_flag(a: Seq<Seq<char>>, arg: Seq<char>) -> bool {
    exists|k: int| 0 <= k < a.len() && flag_match(#[trigger] a[k], arg)
}

/// Is some entry of `a` exactly this word?
pub open spec fn has_word(a: Seq<Seq<char>>, w: Seq<char>) -> bool {
    exists|k: int| 0 <= k < a.len() && #[trigger] a[k] == w
}

/// Does `a` begin with `arg` followed by `=`?
fn starts_with_eq_exec(a: &str, arg: &str) -> (r: bool)
    ensures
        r == starts_with_eq(a@, arg@),
{
    let av = chars_of(a);
    let gv = chars_of(arg);
    if av.len() <= gv.len() {
        return false;
    }
    if av[gv.len()] != '=' {
        return false;
    }
    let mut m: usize = 0;
    while m < gv.len()
        invariant
            0 <= m <= gv.len(),
            gv@.len() < av@.len(),
            av@ == a@,
            gv@ == arg@,
            forall|i: int| 0 <= i < m ==> av@[i] == gv@[i],
        decreases gv.len() - m,
    {
        if av[m] != gv[m] {
            proof {
                assert(a@.subrange(0, arg@.len() as int)[m as int] == a@[m as int]);
            }
            return false;
        }
        m = m + 1;
    }
    proof {
        assert(a@.subrange(0, arg@.len() as int) =~= arg@);
    }
    true
}

/// Does `a` name this flag, either exactly or in `flag=value` form?
fn flag_match_exec(a: &str, arg: &str) -> (r: bool)
    ensures
        r == flag_match(a@, arg@),
{
    if str_eq(a, arg) {
        return true;
    }
    starts_with_eq_exec(a, arg)
}

/// Is some entry of `args` this flag, bare or with a value?
pub fn contains_flag(args: &Vec<String>, arg: &str) -> (r: bool)
    ensures
        r == has_flag(views(args@), arg@),
{
    let mut k: usize = 0;
    while k < args.len()
        invariant
            0 <= k <= args.len(),
            forall|i: int| 0 <= i < k ==> !flag_match(views(args@)[i], arg@),
        decreases args.len() - k,
    {
        if flag_match_exec(args[k].as_str(), arg) {
            assert(flag_match(views(args@)[k as int], arg@));
            return true;
        }
        k = k + 1;
    }
    false
}

/// Is some entry of `args` exactly this word?
pub fn contains_word(args: &Vec<String>, w: &str) -> (r: bool)
    ensures
        r == has_word(views(args@), w@),
{
    let mut k: usize = 0;
    while k < args.len()
        invariant
            0 <= k <= args.len(),
            forall|i: int| 0 <= i < k ==> views(args@)[i] != w@,
        decreases args.len() - k,
    {
        if str_eq(args[k].as_str(), w) {
            assert(views(args@)[k as int] == w@);
            return true;
        }
        k = k + 1;
    }
    false
}

/// `a` with every leading repetition of `p` removed.
pub open spec fn trim_rep(a: Seq<char>, p: Seq<char>) -> Seq<char>
    decreases a.len(),
{
    if p.len() > 0 && a.len() >= p.len() && a.subrange(0, p.len() as int) == p {
        trim_rep(a.skip(p.len() as int), p)
    } else {
        a
    }
}

/// The match of one flag request at position `k` of the argument list:
/// `--flag value` consumes two entries and yields the value, a bare
/// `--flag` consumes one and yields the flag itself, and `--flag=value`
/// consumes one and yields what follows the repeated `--flag=` prefix.
pub open spec fn match_at(args: Seq<Seq<char>>, arg: Seq<char>, has_value: bool, k: int) -> Option<
    (int, int, Seq<char>),
> {
    if k + 1 < args.len() && args[k] == arg && has_value {
        Some((k, k + 1, args[k + 1]))
    } else if args[k] == arg && !has_value {
        Some((k, k, args[k]))
    } else if starts_with_eq(args[k], arg) {
        Some((k, k, trim_rep(args[k], arg + seq!['='])))
    } else {
        None
    }
}

/// All matches from position `k` on, in ascending order.
pub open spec fn matches_from(
    args: Seq<Seq<char>>,
    arg: Seq<char>,
    has_value: bool,
    k: int,
) -> Seq<(int, int, Seq<char>)>
    decreases args.len() - k,
{
    if k < 0 || k >= args.len() {
        Seq::empty()
    } else {
        (match match_at(args, arg, has_value, k) {
            Some(m) => seq![m],
            None => Seq::empty(),
        }) + matches_from(args, arg, has_value, k + 1)
    }
}

/// The first match at or after position `k`.
pub open spec fn first_match_from(
    args: Seq<Seq<char>>,
    arg: Seq<char>,
    has_value: bool,
    k: int,
) -> Option<(int, int, Seq<char>)>
    decreases args.len() - k,
{
    if k < 0 || k >= args.len() {
        None
    } else {
        match match_at(args, arg, has_value, k) {
            Some(m) => Some(m),
            None => first_match_from(args, arg, has_value, k + 1),
        }
    }
}

/// The view of one produced match: its span and the value's characters.
pub open spec fn match_view(t: (usize, usize, String)) -> (int, int, Seq<char>) {
    (t.0 as int, t.1 as int, t.2@)
}

/// Remove every leading repetition of `pat` from `a`.
fn trim_rep_exec(a: &String, pat: &Vec<char>) -> (r: String)
    requires
        pat@.len() > 0,
    ensures
        r@ == trim_rep(a@, pat@),
{
    let av = chars_of(a.as_str());
    let alen = av.len();
    let plen = pat.len();
    let mut off: usize = 0;
    proof {
        assert(a@.skip(0) =~= a@);
    }
    loop
        invariant
            0 <= off <= av@.len(),
            alen == av@.len(),
            av@ == a@,
            plen == pat@.len(),
            plen > 0,
            trim_rep(a@, pat@) == trim_rep(a@.skip(off as int), pat@),
        ensures
            0 <= off <= av@.len(),
            trim_rep(a@, pat@) == a@.skip(off as int),
        decreases av@.len() - off,
    {
        let ghost t = a@.skip(off as int);
        if !crate::scan::pat_at(&av, off, pat) {
            proof {
                if t.len() >= pat@.len() && t.subrange(0, pat@.len() as int) == pat@ {
                    assert forall|i: int|
                        0 <= i < pat@.len() implies a@.subrange(
                        off as int,
                        off as int + pat@.len() as int,
                    )[i] == pat@[i] by {
                        assert(t.subrange(0, pat@.len() as int)[i] == t[i]);
                        assert(t[i] == a@[off + i]);
                    }
                    assert(a@.subrange(off as int, off as int + pat@.len() as int) =~= pat@);
                    assert(crate::scan::starts_with_at(a@, off as int, pat@));
                    assert(false);
                }
                assert(trim_rep(t, pat@) == t);
            }
            break ;
        }
        proof {
            assert forall|i: int| 0 <= i < pat@.len() implies t.subrange(
                0,
                pat@.len() as int,
            )[i] == pat@[i] by {
                assert(t[i] == a@[off + i]);
                assert(a@.subrange(off as int, off as int + pat@.len() as int)[i] == a@[off + i]);
            }
            assert(t.subrange(0, pat@.len() as int) =~= pat@);
            assert(t.skip(pat@.len() as int) =~= a@.skip(off + plen));
            assert(trim_rep(t, pat@) == trim_rep(a@.skip(off + plen), pat@));
            assert(off + plen <= alen);
        }
        off = off + plen;
    }
    let r = a.as_str().substring_char(off, a.as_str().unicode_len());
    proof {
        assert(r@ =~= a@.skip(off as int));
    }
    r.to_owned()
}

/// Simple argument parsing over a plain argument list.
pub trait ArgumentParser {
    /// The parsed entries, as character sequences.
    spec fn args_view(&self) -> Seq<Seq<char>>;

    /// Check whether an argument flag exists, either standalone or in
    /// `--flag=value` form.
    fn contains(&self, arg: &str) -> (r: bool)
        ensures
            r == has_flag(self.args_view(), arg@),
    ;

    /// Extract all occurrences of an argument and their spans, last
    /// occurrence first. With `has_value`, `--flag value` and
    /// `--flag=value` forms yield the value part; without it, bare
    /// `--flag` entries match.
    fn get_all(&self, arg: &str, has_value: bool) -> (r: Vec<(usize, usize, String)>)
        ensures
            r@.map_values(|t: (usize, usize, String)| match_view(t)) == matches_from(
                self.args_view(),
                arg@,
                has_value,
                0,
            ).reverse(),
    ;
}

impl ArgumentParser for Vec<String> {
    open spec fn args_view(&self) -> Seq<Seq<char>> {
        views(self@)
    }

    fn contains(&self, arg: &str) -> (r: bool) {
        contains_flag(self, arg)
    }

    fn get_all(&self, arg: &str, has_value: bool) -> (r: Vec<(usize, usize, String)>) {
        let mut asc = collect_matches(self, arg, has_value);
        let ghost full = asc@;
        let mut r: Vec<(usize, usize, String)> = Vec::new();
        proof {
            assert(full.take(full.len() as int) =~= full);
        }
        while asc.len() > 0
            invariant
                asc@ == full.take(asc@.len() as int),
                r@.len() + asc@.len() == full.len(),
                forall|i: int| 0 <= i < r@.len() ==> r@[i] == full[full.len() - 1 - i],
            decreases asc@.len(),
        {
            let ghost n = asc@.len() as int;
            match asc.pop() {
                Some(x) => {
                    proof {
                        assert(full.take(n).last() == full[n - 1]);
                        assert(full.take(n).drop_last() =~= full.take(n - 1));
                    }
                    r.push(x);
                },
                None => {
                    assert(false);
                },
            }
        }
        proof {
            let mv = |t: (usize, usize, String)| match_view(t);
            let ms = matches_from(self.args_view(), arg@, has_value, 0);
            assert(full.map_values(mv) == ms);
            assert forall|i: int| 0 <= i < r@.len() implies r@.map_values(mv)[i]
                == ms.reverse()[i] by {
                assert(r@[i] == full[full.len() - 1 - i]);
                assert(full.map_values(mv)[full.len() - 1 - i] == mv(full[full.len() - 1 - i]));
            }
            assert(r@.map_values(mv) =~= ms.reverse());
        }
        r
    }
}

/// All matches of one flag request, in ascending order.
fn collect_matches(args: &Vec<String>, arg: &str, has_value: bool) -> (r: Vec<
    (usize, usize, String),
>)
    ensures
        r@.map_values(|t: (usize, usize, String)| match_view(t)) == matches_from(
            views(args@),
            arg@,
            has_value,
            0,
        ),
{
    let ghost av = views(args@);
    let mut r: Vec<(usize, usize, String)> = Vec::new();
    let mut k: usize = 0;
    let eq_pat = {
        let mut p = chars_of(arg);
        p.push('=');
        p
    };
    proof {
        assert(eq_pat@ =~= arg@ + seq!['=']);
    }
    while k < args.len()
        invariant
            0 <= k <= args.len(),
            av == views(args@),
            eq_pat@ == arg@ + seq!['='],
            r@.map_values(|t: (usize, usize, String)| match_view(t)) == matches_upto(
                av,
                arg@,
                has_value,
                k as int,
            ),
        decreases args.len() - k,
    {
        let ghost rpre = r@.map_values(|t: (usize, usize, String)| match_view(t));
        if k + 1 < args.len() && has_value && str_eq(args[k].as_str(), arg) {
            let v = args[k + 1].clone();
            r.push((k, k + 1, v));
            proof {
                assert(match_at(av, arg@, has_value, k as int) == Some(
                    (k as int, k as int + 1, av[k as int + 1]),
                ));
                assert(r@.map_values(|t: (usize, usize, String)| match_view(t)) =~= rpre.push(
                    (k as int, k as int + 1, av[k as int + 1]),
                ));
            }
        } else if !has_value && str_eq(args[k].as_str(), arg) {
            let v = args[k].clone();
            r.push((k, k, v));
            proof {
                assert(match_at(av, arg@, has_value, k as int) == Some(
                    (k as int, k as int, av[k as int]),
                ));
                assert(r@.map_values(|t: (usize, usize, String)| match_view(t)) =~= rpre.push(
                    (k as int, k as int, av[k as int]),
                ));
            }
        } else if starts_with_eq_exec(args[k].as_str(), arg) {
            let v = trim_rep_exec(&args[k], &eq_pat);
            r.push((k, k, v));
            proof {
                assert(match_at(av, arg@, has_value, k as int) == Some(
                    (k as int, k as int, trim_rep(av[k as int], arg@ + seq!['='])),
                ));
                assert(r@.map_values(|t: (usize, usize, String)| match_view(t)) =~= rpre.push(
                    (k as int, k as int, trim_rep(av[k as int], arg@ + seq!['='])),
                ));
            }
        } else {
            proof {
                assert(match_at(av, arg@, has_value, k as int) is None);
            }
        }
        proof {
            lemma_matches_upto_step(av, arg@, has_value, k as int);
        }
        k = k + 1;
    }
    proof {
        lemma_matches_split(av, arg@, has_value, 0, args@.len() as int);
        assert(matches_upto(av, arg@, has_value, av.len() as int) =~= matches_from(
            av,
            arg@,
            has_value,
            0,
        ));
    }
    r
}

/// The matches among the first `k` positions, in ascending order.
spec fn matches_upto(args: Seq<Seq<char>>, arg: Seq<char>, has_value: bool, k: int) -> Seq<
    (int, int, Seq<char>),
>
    decreases k,
{
    if k <= 0 {
        Seq::empty()
    } else {
        matches_upto(args, arg, has_value, k - 1) + (match match_at(args, arg, has_value, k - 1) {
            Some(m) => seq![m],
            None => Seq::empty(),
        })
    }
}

/// One more position appends that position's match, if any.
proof fn lemma_matches_upto_step(args: Seq<Seq<char>>, arg: Seq<char>, has_value: bool, k: int)
    requires
        0 <= k,
    ensures
        matches_upto(args, arg, has_value, k + 1) == matches_upto(args, arg, has_value, k)
            + (match match_at(args, arg, has_value, k) {
            Some(m) => seq![m],
            None => Seq::<(int, int, Seq<char>)>::empty(),
        }),
{
}

/// Scanning forward from `k` and scanning the first `n` positions agree.
proof fn lemma_matches_split(args: Seq<Seq<char>>, arg: Seq<char>, has_value: bool, k: int, n: int)
    requires
        0 <= k <= n == args.len(),
    ensures
        matches_upto(args, arg, has_value, n) == matches_upto(args, arg, has_value, k)
            + matches_from(args, arg, has_value, k),
    decreases n - k,
{
    if k == n {
        assert(matches_from(args, arg, has_value, k) =~= Seq::<(int, int, Seq<char>)>::empty());
        assert(matches_upto(args, arg, has_value, n) =~= matches_upto(args, arg, has_value, k)
            + Seq::<(int, int, Seq<char>)>::empty());
    } else {
        lemma_matches_split(args, arg, has_value, k + 1, n);
        lemma_matches_upto_step(args, arg, has_value, k);
        assert(matches_upto(args, arg, has_value, n) =~= matches_upto(args, arg, has_value, k)
            + matches_from(args, arg, has_value, k));
    }
}

/// A raw argument list, as a binary's entry point receives it.
pub struct Args(pub Vec<String>);

impl Args {
    /// The entries, as character sequences.
    pub open spec fn args_view(&self) -> Seq<Seq<char>> {
        views(self.0@)
    }

    /// Check whether an argument flag exists, either standalone or in
    /// `--flag=value` form.
    pub fn contains(&self, arg: &str) -> (r: bool)
        ensures
            r == has_flag(self.args_view(), arg@),
    {
        contains_flag(&self.0, arg)
    }

    /// Extract the first occurrence of an argument and its value, in the
    /// same forms as [`ArgumentParser::get_all`].
    pub fn get(&self, arg: &str, has_value: bool) -> (r: Option<(usize, usize, String)>)
        ensures
            match r {
                Some(t) => first_match_from(self.args_view(), arg@, has_value, 0) == Some(
                    match_view(t),
                ),
                None => first_match_from(self.args_view(), arg@, has_value, 0) is None,
            },
    {
        let ghost av = self.args_view();
        let args = &self.0;
        let mut k: usize = 0;
        let eq_pat = {
            let mut p = chars_of(arg);
            p.push('=');
            p
        };
        proof {
            assert(eq_pat@ =~= arg@ + seq!['=']);
        }
        while k < args.len()
            invariant
                0 <= k <= args.len(),
                av == views(args@),
                args == self.0,
                eq_pat@ == arg@ + seq!['='],
                first_match_from(av, arg@, has_value, 0) == first_match_from(
                    av,
                    arg@,
                    has_value,
                    k as int,
                ),
            decreases args.len() - k,
        {
            if k + 1 < args.len() && has_value && str_eq(args[k].as_str(), arg) {
                return Some((k, k + 1, args[k + 1].clone()));
            } else if !has_value && str_eq(args[k].as_str(), arg) {
                return Some((k, k, args[k].clone()));
            } else if starts_with_eq_exec(args[k].as_str(), arg) {
                let v = trim_rep_exec(&args[k], &eq_pat);
                return Some((k, k, v));
            }
            proof {
                assert(match_at(av, arg@, has_value, k as int) is None);
            }
            k = k + 1;
        }
        None
    }
}

/// The build-tool subcommand an argument list implies.
#[derive(Clone, Copy, Debug, PartialEq, Eq, Structural)]
pub enum CargoSubcommand {
    /// `build` or `b`.
    Build,
    /// `check`, `c` or `clippy`.
    Check,
    /// `test` or `t`.
    Test,
    /// `doc` or `d`.
    Doc,
    /// `run` or `r`.
    Run,
    /// Anything else.
    Other,
}

/// The subcommand named in an argument list.
pub open spec fn spec_cargo_subcommand(a: Seq<Seq<char>>) -> CargoSubcommand {
    if has_word(a, "build"@) || has_word(a, "b"@) {
        CargoSubcommand::Build
    } else if has_word(a, "check"@) || has_word(a, "c"@) || has_word(a, "clippy"@) {
        CargoSubcommand::Check
    } else if has_word(a, "test"@) || has_word(a, "t"@) {
        CargoSubcommand::Test
    } else if has_word(a, "doc"@) || has_word(a, "d"@) {
        CargoSubcommand::Doc
    } else if has_word(a, "run"@) || has_word(a, "r"@) {
        CargoSubcommand::Run
    } else {
        CargoSubcommand::Other
    }
}

/// Determine the build-tool subcommand implied by the argument list.
pub fn cargo_subcommand(args: &Vec<String>) -> (r: CargoSubcommand)
    ensures
        r == spec_cargo_subcommand(views(args@)),
{
    if contains_word(args, "build") || contains_word(args, "b") {
        CargoSubcommand::Build
    } else if contains_word(args, "check") || contains_word(args, "c") || contains_word(
        args,
        "clippy",
    ) {
        CargoSubcommand::Check
    } else if contains_word(args, "test") || contains_word(args, "t") {
        CargoSubcommand::Test
    } else if contains_word(args, "doc") || contains_word(args, "d") {
        CargoSubcommand::Doc
    } else if contains_word(args, "run") || contains_word(args, "r") {
        CargoSubcommand::Run
    } else {
        CargoSubcommand::Other
    }
}

/// Is the string one of the accepted true-words, in any letter case?
/// The accepted words are `yes`, `true`, `y` and `t`.
pub open spec fn truthy(s: Seq<char>) -> bool {
    ci_match(s, "yes"@) || ci_match(s, "true"@) || ci_match(s, "y"@) || ci_match(s, "t"@)
}

/// Case-insensitive match against a lowercase pattern, for the letters
/// the true-words use.
pub open spec fn ci_match(s: Seq<char>, lower: Seq<char>) -> bool {
    s.len() == lower.len() && forall|i: int|
        0 <= i < s.len() ==> ci_char(#[trigger] s[i], lower[i])
}

/// Does `c` read as the lowercase letter `l`, ignoring case?
pub open spec fn ci_char(c: char, l: char) -> bool {
    c == l || (l == 'y' && c == 'Y') || (l == 'e' && c == 'E') || (l == 's' && c == 'S') || (l
        == 't' && c == 'T') || (l == 'r' && c == 'R') || (l == 'u' && c == 'U')
}

/// Does `c` read as the lowercase letter `l`, ignoring case?
fn ci_char_exec(c: char, l: char) -> (r: bool)
    ensures
        r == ci_char(c, l),
{
    c == l || (l == 'y' && c == 'Y') || (l == 'e' && c == 'E') || (l == 's' && c == 'S') || (l
        == 't' && c == 'T') || (l == 'r' && c == 'R') || (l == 'u' && c == 'U')
}

/// Case-insensitive match against a lowercase pattern.
fn ci_match_exec(s: &Vec<char>, lower: &Vec<char>) -> (r: bool)
    ensures
        r == ci_match(s@, lower@),
{
    if s.len() != lower.len() {
        return false;
    }
    let mut i: usize = 0;
    while i < s.len()
        invariant
            0 <= i <= s.len(),
            s@.len() == lower@.len(),
            forall|k: int| 0 <= k < i ==> ci_char(#[trigger] s@[k], lower@[k]),
        decreases s.len() - i,
    {
        if !ci_char_exec(s[i], lower[i]) {
            return false;
        }
        i = i + 1;
    }
    true
}

/// Is the string a true-word (`yes`, `true`, `y`, `t`), in any letter
/// case? This is how a boolean-like environment value is read.
pub fn is_truthy(s: &str) -> (r: bool)
    ensures
        r == truthy(s@),
{
    let sv = chars_of(s);
    let yes = chars_of("yes");
    let tru = chars_of("true");
    let y = chars_of("y");
    let t = chars_of("t");
    ci_match_exec(&sv, &yes) || ci_match_exec(&sv, &tru) || ci_match_exec(&sv, &y)
        || ci_match_exec(&sv, &t)
}

} // verus!
