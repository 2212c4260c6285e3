//! Scanning captured build-tool output for its per-unit summary lines.
//!
//! The build tool ends each compiled unit's diagnostics with a line such
//! as `warning: `crate` generated 6 warnings`, and each failed unit with
//! `error: could not compile `crate` due to 2 previous errors`. The
//! scanners below find those lines and read the counts out of them, one
//! count per matching line. A count too large for `usize` falls back the
//! way a failed parse always has: to 0 for warnings and to 1 for errors
//! (an error line may also name no count at all, in singular form, which
//! counts as 1).
//!
//! Text is handled line by line: a summary line never spans lines, and a
//! line yields at most one count, read at the last position where the
//! grammar matches (the greedy reading).

use vstd::prelude::*;

verus! {

/// Does `p` occur in `s` starting at position `i`?
pub open spec fn starts_with_at(s: Seq<char>, i: int, p: Seq<char>) -> bool {
    0 <= i && i + p.len() <= s.len() && s.subrange(i, i + p.len()) == p
}

/// A decimal digit.
pub open spec fn is_digit(c: char) -> bool {
    '0' <= c && c <= '9'
}

/// Horizontal whitespace, as the summary grammar admits between the
/// count and the words around it.
pub open spec fn is_ws(c: char) -> bool {
    c == ' ' || c == '\t' || c == '\r' || c == '\u{b}' || c == '\u{c}'
}

/// The end of the digit run starting at `i`.
pub open spec fn digit_end(s: Seq<char>, i: int) -> int
    decreases s.len() - i,
{
    if 0 <= i < s.len() && is_digit(s[i]) {
        digit_end(s, i + 1)
    } else {
        i
    }
}

/// The end of the whitespace run starting at `i`.
pub open spec fn ws_end(s: Seq<char>, i: int) -> int
    decreases s.len() - i,
{
    if 0 <= i < s.len() && is_ws(s[i]) {
        ws_end(s, i + 1)
    } else {
        i
    }
}

/// The number a digit denotes.
pub open spec fn digit_val_of(c: char) -> int {
    if c == '0' {
        0
    } else if c == '1' {
        1
    } else if c == '2' {
        2
    } else if c == '3' {
        3
    } else if c == '4' {
        4
    } else if c == '5' {
        5
    } else if c == '6' {
        6
    } else if c == '7' {
        7
    } else if c == '8' {
        8
    } else {
        9
    }
}

/// The number a digit run denotes.
pub open spec fn digits_val(ds: Seq<char>) -> int
    decreases ds.len(),
{
    if ds.len() == 0 {
        0
    } else {
        digits_val(ds.drop_last()) * 10 + digit_val_of(ds.last())
    }
}

/// The index of the first line break, or `-1` if the text is one line.
pub open spec fn first_nl(s: Seq<char>) -> int
    decreases s.len(),
{
    if s.len() == 0 {
        -1
    } else if s[0] == '\n' {
        0
    } else {
        let r = first_nl(s.skip(1));
        if r < 0 {
            -1
        } else {
            r + 1
        }
    }
}

/// Where the first line break is, if any: before it nothing breaks.
pub proof fn lemma_first_nl(s: Seq<char>)
    ensures
        first_nl(s) < 0 ==> forall|k: int| 0 <= k < s.len() ==> s[k] != '\n',
        first_nl(s) >= 0 ==> 0 <= first_nl(s) < s.len() && s[first_nl(s)] == '\n' && forall|
            k: int,
        | 0 <= k < first_nl(s) ==> s[k] != '\n',
    decreases s.len(),
{
    if s.len() == 0 {
    } else if s[0] == '\n' {
    } else {
        lemma_first_nl(s.skip(1));
        let r = first_nl(s.skip(1));
        if r < 0 {
            assert forall|k: int| 0 <= k < s.len() implies s[k] != '\n' by {
                if k > 0 {
                    assert(s.skip(1)[k - 1] == s[k]);
                }
            }
        } else {
            assert(s.skip(1)[r] == s[r + 1]);
            assert forall|k: int| 0 <= k < first_nl(s) implies s[k] != '\n' by {
                if k > 0 {
                    assert(s.skip(1)[k - 1] == s[k]);
                }
            }
        }
    }
}

/// The characters of a string, as a list.
pub fn chars_of(s: &str) -> (r: Vec<char>)
    ensures
        r@ == s@,
{
    let len = s.unicode_len();
    let mut r: Vec<char> = Vec::new();
    let mut i: usize = 0;
    while i < len
        invariant
            0 <= i <= len,
            len == s@.len(),
            r@ == s@.take(i as int),
        decreases len - i,
    {
        r.push(s.get_char(i));
        proof {
            assert(r@ =~= s@.take(i as int + 1));
        }
        i = i + 1;
    }
    proof {
        assert(s@.take(s@.len() as int) =~= s@);
    }
    r
}

/// The first line break at or after `pos`, or the text's length.
fn find_nl(chars: &Vec<char>, pos: usize) -> (r: usize)
    requires
        pos <= chars@.len(),
    ensures
        pos <= r <= chars@.len(),
        r < chars@.len() ==> first_nl(chars@.skip(pos as int)) == r - pos,
        r == chars@.len() ==> first_nl(chars@.skip(pos as int)) == -1,
{
    let mut e: usize = pos;
    while e < chars.len() && chars[e] != '\n'
        invariant
            pos <= e <= chars@.len(),
            forall|k: int| pos <= k < e ==> chars@[k] != '\n',
        decreases chars@.len() - e,
    {
        e = e + 1;
    }
    proof {
        let t = chars@.skip(pos as int);
        lemma_first_nl(t);
        assert forall|k: int| 0 <= k < e - pos implies t[k] != '\n' by {
            assert(t[k] == chars@[pos + k]);
        }
        if e < chars@.len() {
            assert(t[e - pos] == chars@[e as int]);
            if first_nl(t) < 0 {
                assert(false);
            }
            if first_nl(t) < e - pos {
                assert(t[first_nl(t)] == '\n');
                assert(false);
            }
            if first_nl(t) > e - pos {
                assert(false);
            }
        } else {
            if first_nl(t) >= 0 {
                assert(t[first_nl(t)] == '\n');
                assert(chars@[pos + first_nl(t)] == '\n');
                assert(false);
            }
        }
    }
    e
}

/// A copy of the characters from `lo` to `hi`.
fn copy_range(chars: &Vec<char>, lo: usize, hi: usize) -> (r: Vec<char>)
    requires
        lo <= hi <= chars@.len(),
    ensures
        r@ == chars@.subrange(lo as int, hi as int),
{
    let mut r: Vec<char> = Vec::new();
    let mut k: usize = lo;
    while k < hi
        invariant
            lo <= k <= hi <= chars@.len(),
            r@ == chars@.subrange(lo as int, k as int),
        decreases hi - k,
    {
        r.push(chars[k]);
        proof {
            assert(r@ =~= chars@.subrange(lo as int, k as int + 1));
        }
        k = k + 1;
    }
    r
}

/// Does `pat` occur in `line` at position `i`?
pub fn pat_at(line: &Vec<char>, i: usize, pat: &Vec<char>) -> (r: bool)
    ensures
        r == starts_with_at(line@, i as int, pat@),
{
    if i > line.len() || pat.len() > line.len() - i {
        return false;
    }
    let mut k: usize = 0;
    while k < pat.len()
        invariant
            0 <= k <= pat.len(),
            i + pat.len() <= line.len(),
            forall|m: int| 0 <= m < k ==> line@[i + m] == pat@[m],
        decreases pat.len() - k,
    {
        if line[i + k] != pat[k] {
            proof {
                assert(line@.subrange(i as int, i as int + pat@.len())[k as int] == line@[i + k]);
            }
            return false;
        }
        k = k + 1;
    }
    proof {
        assert(line@.subrange(i as int, i as int + pat@.len()) =~= pat@);
    }
    true
}

/// The end of the digit run starting at `i`.
fn digit_end_exec(line: &Vec<char>, i: usize) -> (r: usize)
    requires
        i <= line@.len(),
    ensures
        i <= r <= line@.len(),
        r == digit_end(line@, i as int),
        forall|k: int| i <= k < r ==> is_digit(line@[k]),
        r < line@.len() ==> !is_digit(line@[r as int]),
{
    let mut e: usize = i;
    loop
        invariant
            i <= e <= line@.len(),
            digit_end(line@, i as int) == digit_end(line@, e as int),
            forall|k: int| i <= k < e ==> is_digit(line@[k]),
        ensures
            i <= e <= line@.len(),
            digit_end(line@, i as int) == digit_end(line@, e as int),
            forall|k: int| i <= k < e ==> is_digit(line@[k]),
            e == line@.len() || !is_digit(line@[e as int]),
        decreases line@.len() - e,
    {
        if e == line.len() {
            break ;
        }
        let c = line[e];
        if !('0' <= c && c <= '9') {
            break ;
        }
        proof {
            assert(is_digit(line@[e as int]));
            assert(digit_end(line@, e as int) == digit_end(line@, e as int + 1));
        }
        e = e + 1;
    }
    e
}

/// The end of the whitespace run starting at `i`.
fn ws_end_exec(line: &Vec<char>, i: usize) -> (r: usize)
    requires
        i <= line@.len(),
    ensures
        i <= r <= line@.len(),
        r == ws_end(line@, i as int),
{
    let mut e: usize = i;
    loop
        invariant
            i <= e <= line@.len(),
            ws_end(line@, i as int) == ws_end(line@, e as int),
        ensures
            i <= e <= line@.len(),
            ws_end(line@, i as int) == ws_end(line@, e as int),
            e == line@.len() || !is_ws(line@[e as int]),
        decreases line@.len() - e,
    {
        if e == line.len() {
            break ;
        }
        let c = line[e];
        if !(c == ' ' || c == '\t' || c == '\r' || c == '\u{b}' || c == '\u{c}') {
            break ;
        }
        e = e + 1;
    }
    e
}

/// The number a digit denotes.
fn digit_value(c: char) -> (r: usize)
    ensures
        r == digit_val_of(c),
{
    if c == '0' {
        0
    } else if c == '1' {
        1
    } else if c == '2' {
        2
    } else if c == '3' {
        3
    } else if c == '4' {
        4
    } else if c == '5' {
        5
    } else if c == '6' {
        6
    } else if c == '7' {
        7
    } else if c == '8' {
        8
    } else {
        9
    }
}

/// A digit run denotes a nonnegative number.
proof fn lemma_digits_val_nonneg(ds: Seq<char>)
    ensures
        digits_val(ds) >= 0,
    decreases ds.len(),
{
    if ds.len() > 0 {
        lemma_digits_val_nonneg(ds.drop_last());
    }
}

/// Reading more digits never shrinks the number.
proof fn lemma_digits_val_take_mono(ds: Seq<char>, k: int)
    requires
        0 <= k <= ds.len(),
    ensures
        digits_val(ds.take(k)) <= digits_val(ds),
    decreases ds.len() - k,
{
    if k == ds.len() {
        assert(ds.take(k) =~= ds);
    } else {
        assert(ds.take(k + 1).drop_last() =~= ds.take(k));
        assert(ds.take(k + 1).last() == ds[k]);
        lemma_digits_val_nonneg(ds.take(k));
        assert(digits_val(ds.take(k + 1)) == digits_val(ds.take(k)) * 10 + digit_val_of(ds[k]));
        lemma_digits_val_take_mono(ds, k + 1);
    }
}

/// Read the number the digits from `lo` to `hi` denote, or report that
/// it does not fit.
fn parse_digits(line: &Vec<char>, lo: usize, hi: usize) -> (r: Option<usize>)
    requires
        lo <= hi <= line@.len(),
    ensures
        match r {
            Some(v) => v == digits_val(line@.subrange(lo as int, hi as int)) && digits_val(
                line@.subrange(lo as int, hi as int),
            ) <= usize::MAX,
            None => digits_val(line@.subrange(lo as int, hi as int)) > usize::MAX,
        },
{
    let ghost sub = line@.subrange(lo as int, hi as int);
    let mut acc: usize = 0;
    let mut k: usize = lo;
    proof {
        assert(sub.take(0) =~= Seq::<char>::empty());
    }
    while k < hi
        invariant
            lo <= k <= hi <= line@.len(),
            sub == line@.subrange(lo as int, hi as int),
            acc == digits_val(sub.take(k - lo)),
        decreases hi - k,
    {
        let d = digit_value(line[k]);
        proof {
            assert(sub.take(k - lo + 1).drop_last() =~= sub.take(k - lo));
            assert(sub.take(k - lo + 1).last() == sub[k - lo]);
            assert(sub[k - lo] == line@[k as int]);
        }
        let next = match acc.checked_mul(10) {
            Some(t) => t.checked_add(d),
            None => None,
        };
        match next {
            Some(t) => {
                acc = t;
            },
            None => {
                proof {
                    assert(digits_val(sub.take(k - lo + 1)) == acc * 10 + digit_val_of(
                        line@[k as int],
                    ));
                    assert(digit_val_of(line@[k as int]) >= 0);
                    assert(digits_val(sub.take(k - lo + 1)) > usize::MAX);
                    lemma_digits_val_take_mono(sub, k - lo + 1);
                }
                return None;
            },
        }
        k = k + 1;
    }
    proof {
        assert(sub.take(hi - lo) =~= sub);
    }
    Some(acc)
}

/// The tail of the grammar of a warning summary line, at position `j`:
/// ` generated `, at least one digit, ` warning`.
pub open spec fn warn_gen_at(line: Seq<char>, j: int) -> bool {
    let e = digit_end(line, j + 11);
    starts_with_at(line, j, " generated "@) && e > j + 11 && starts_with_at(line, e, " warning"@)
}

/// A full warning summary match ending at position `j`: somewhere at
/// least eleven characters earlier, the line says `warning: `.
pub open spec fn warn_valid_at(line: Seq<char>, j: int) -> bool {
    warn_gen_at(line, j) && exists|i: int|
        0 <= i && i + 9 <= j && #[trigger] starts_with_at(line, i, "warning: "@)
}

/// The last position at or before `from` where a warning summary
/// matches, or `-1`: the greedy reading of the line.
pub open spec fn last_warn_at(line: Seq<char>, from: int) -> int
    decreases from + 1,
{
    if from < 0 {
        -1
    } else if warn_valid_at(line, from) {
        from
    } else {
        last_warn_at(line, from - 1)
    }
}

/// The warning count a line reports, if it is a warning summary line.
/// A count that does not fit in `usize` reads as 0.
pub open spec fn line_warn_count(line: Seq<char>) -> Option<int> {
    let j = last_warn_at(line, line.len() - 1);
    if j < 0 {
        None
    } else {
        let e = digit_end(line, j + 11);
        let v = digits_val(line.subrange(j + 11, e));
        Some(
            if v > usize::MAX {
                0
            } else {
                v
            },
        )
    }
}

/// The tail of the grammar of an error summary line, at position `j`:
/// `` ` due to ``, whitespace, an optional digit run, whitespace,
/// `previous error`.
pub open spec fn err_gen_at(line: Seq<char>, j: int) -> bool {
    let w1 = ws_end(line, j + 8);
    let e = digit_end(line, w1);
    let w2 = ws_end(line, e);
    starts_with_at(line, j, "` due to"@) && starts_with_at(line, w2, "previous error"@)
}

/// A full error summary match ending at position `j`: somewhere at least
/// twenty-six characters earlier, the line says
/// ``error: could not compile ` ``.
pub open spec fn err_valid_at(line: Seq<char>, j: int) -> bool {
    err_gen_at(line, j) && exists|i: int|
        0 <= i && i + 26 <= j && #[trigger] starts_with_at(line, i, "error: could not compile `"@)
}

/// The last position at or before `from` where an error summary matches,
/// or `-1`.
pub open spec fn last_err_at(line: Seq<char>, from: int) -> int
    decreases from + 1,
{
    if from < 0 {
        -1
    } else if err_valid_at(line, from) {
        from
    } else {
        last_err_at(line, from - 1)
    }
}

/// The error count a line reports, if it is an error summary line. An
/// absent count — the singular `previous error` — reads as 1, as does a
/// count that does not fit in `usize`.
pub open spec fn line_err_count(line: Seq<char>) -> Option<int> {
    let j = last_err_at(line, line.len() - 1);
    if j < 0 {
        None
    } else {
        let w1 = ws_end(line, j + 8);
        let e = digit_end(line, w1);
        let ds = line.subrange(w1, e);
        Some(
            if ds.len() == 0 {
                1
            } else if digits_val(ds) > usize::MAX {
                1
            } else {
                digits_val(ds)
            },
        )
    }
}

/// A line with no warning summary match anywhere has no greedy match.
proof fn lemma_last_warn_none(line: Seq<char>, from: int)
    requires
        forall|j: int| 0 <= j <= from ==> !warn_valid_at(line, j),
    ensures
        last_warn_at(line, from) == -1,
    decreases from + 1,
{
    if from >= 0 {
        lemma_last_warn_none(line, from - 1);
    }
}

/// A line with no error summary match anywhere has no greedy match.
proof fn lemma_last_err_none(line: Seq<char>, from: int)
    requires
        forall|j: int| 0 <= j <= from ==> !err_valid_at(line, j),
    ensures
        last_err_at(line, from) == -1,
    decreases from + 1,
{
    if from >= 0 {
        lemma_last_err_none(line, from - 1);
    }
}

/// Decide whether a warning summary match ends at `cand`, given the
/// first position `i0` where the line says `warning: `.
fn warn_valid_exec(
    line: &Vec<char>,
    i0: usize,
    cand: usize,
    wgen: &Vec<char>,
    wsuf: &Vec<char>,
) -> (r: bool)
    requires
        wgen@ == " generated "@,
        wsuf@ == " warning"@,
        starts_with_at(line@, i0 as int, "warning: "@),
        forall|k: int| 0 <= k < i0 ==> !starts_with_at(line@, k, "warning: "@),
    ensures
        r == warn_valid_at(line@, cand as int),
{
    proof {
        reveal_strlit("warning: ");
        reveal_strlit(" generated ");
        reveal_strlit(" warning");
    }
    if !(cand >= 9 && i0 <= cand - 9) {
        proof {
            if warn_valid_at(line@, cand as int) {
                let iw = choose|iw: int|
                    0 <= iw && iw + 9 <= cand && #[trigger] starts_with_at(
                        line@,
                        iw,
                        "warning: "@,
                    );
                assert(iw >= i0);
                assert(false);
            }
        }
        return false;
    }
    if !pat_at(line, cand, wgen) {
        return false;
    }
    let line_len = line.len();
    proof {
        assert(" generated "@.len() == 11);
        assert(cand + 11 <= line_len);
    }
    let e = digit_end_exec(line, cand + 11);
    if e == cand + 11 {
        return false;
    }
    if !pat_at(line, e, wsuf) {
        return false;
    }
    proof {
        assert(warn_gen_at(line@, cand as int));
        assert(0 <= i0 && i0 + 9 <= cand && starts_with_at(line@, i0 as int, "warning: "@));
    }
    true
}

/// The warning count of one line, by the greedy reading.
fn warn_match_line(line: &Vec<char>) -> (r: Option<usize>)
    ensures
        match r {
            Some(v) => line_warn_count(line@) == Some(v as int),
            None => line_warn_count(line@) is None,
        },
{
    let wpre = chars_of("warning: ");
    let mut i0: usize = 0;
    let mut found = false;
    loop
        invariant
            0 <= i0 <= line@.len(),
            wpre@ == "warning: "@,
            forall|k: int| 0 <= k < i0 ==> !starts_with_at(line@, k, "warning: "@),
            found ==> starts_with_at(line@, i0 as int, "warning: "@),
        ensures
            0 <= i0 <= line@.len(),
            forall|k: int| 0 <= k < i0 ==> !starts_with_at(line@, k, "warning: "@),
            found ==> starts_with_at(line@, i0 as int, "warning: "@),
            !found ==> i0 == line@.len(),
        decreases line@.len() - i0,
    {
        if i0 == line.len() {
            break ;
        }
        if pat_at(line, i0, &wpre) {
            found = true;
            break ;
        }
        i0 = i0 + 1;
    }
    if !found {
        proof {
            assert forall|j: int| 0 <= j <= line@.len() - 1 implies !warn_valid_at(line@, j) by {
                if warn_valid_at(line@, j) {
                    let iw = choose|iw: int|
                        0 <= iw && iw + 9 <= j && #[trigger] starts_with_at(
                            line@,
                            iw,
                            "warning: "@,
                        );
                    assert(!starts_with_at(line@, iw, "warning: "@));
                }
            }
            lemma_last_warn_none(line@, line@.len() - 1);
        }
        return None;
    }
    let wgen = chars_of(" generated ");
    let wsuf = chars_of(" warning");
    let mut j: usize = line.len();
    loop
        invariant
            0 <= j <= line@.len(),
            last_warn_at(line@, line@.len() - 1) == last_warn_at(line@, j as int - 1),
            wgen@ == " generated "@,
            wsuf@ == " warning"@,
            wpre@ == "warning: "@,
            starts_with_at(line@, i0 as int, "warning: "@),
            forall|k: int| 0 <= k < i0 ==> !starts_with_at(line@, k, "warning: "@),
        decreases j,
    {
        if j == 0 {
            proof {
                assert(last_warn_at(line@, -1) == -1);
            }
            return None;
        }
        let cand = j - 1;
        if warn_valid_exec(line, i0, cand, &wgen, &wsuf) {
            let line_len = line.len();
            proof {
                reveal_strlit(" generated ");
                assert(" generated "@.len() == 11);
                assert(cand + 11 <= line_len);
                assert(last_warn_at(line@, cand as int) == cand);
            }
            let e = digit_end_exec(line, cand + 11);
            let cnt = match parse_digits(line, cand + 11, e) {
                Some(v) => v,
                None => 0,
            };
            return Some(cnt);
        }
        proof {
            assert(last_warn_at(line@, cand as int) == last_warn_at(line@, cand as int - 1));
        }
        j = cand;
    }
}

/// Decide whether an error summary match ends at `cand`, given the
/// first position `i0` where the line starts an error summary.
fn err_valid_exec(
    line: &Vec<char>,
    i0: usize,
    cand: usize,
    emid: &Vec<char>,
    esuf: &Vec<char>,
) -> (r: bool)
    requires
        emid@ == "` due to"@,
        esuf@ == "previous error"@,
        starts_with_at(line@, i0 as int, "error: could not compile `"@),
        forall|k: int| 0 <= k < i0 ==> !starts_with_at(line@, k, "error: could not compile `"@),
    ensures
        r == err_valid_at(line@, cand as int),
{
    proof {
        reveal_strlit("error: could not compile `");
        reveal_strlit("` due to");
        reveal_strlit("previous error");
    }
    if !(cand >= 26 && i0 <= cand - 26) {
        proof {
            if err_valid_at(line@, cand as int) {
                let iw = choose|iw: int|
                    0 <= iw && iw + 26 <= cand && #[trigger] starts_with_at(
                        line@,
                        iw,
                        "error: could not compile `"@,
                    );
                assert(iw >= i0);
                assert(false);
            }
        }
        return false;
    }
    if !pat_at(line, cand, emid) {
        return false;
    }
    let line_len = line.len();
    proof {
        assert("` due to"@.len() == 8);
        assert(cand + 8 <= line_len);
    }
    let w1 = ws_end_exec(line, cand + 8);
    let e = digit_end_exec(line, w1);
    let w2 = ws_end_exec(line, e);
    if !pat_at(line, w2, esuf) {
        return false;
    }
    proof {
        assert(err_gen_at(line@, cand as int));
        assert(0 <= i0 && i0 + 26 <= cand && starts_with_at(
            line@,
            i0 as int,
            "error: could not compile `"@,
        ));
    }
    true
}

/// The error count of one line, by the greedy reading.
fn err_match_line(line: &Vec<char>) -> (r: Option<usize>)
    ensures
        match r {
            Some(v) => line_err_count(line@) == Some(v as int),
            None => line_err_count(line@) is None,
        },
{
    let epre = chars_of("error: could not compile `");
    let mut i0: usize = 0;
    let mut found = false;
    loop
        invariant
            0 <= i0 <= line@.len(),
            epre@ == "error: could not compile `"@,
            forall|k: int|
                0 <= k < i0 ==> !starts_with_at(line@, k, "error: could not compile `"@),
            found ==> starts_with_at(line@, i0 as int, "error: could not compile `"@),
        ensures
            0 <= i0 <= line@.len(),
            forall|k: int|
                0 <= k < i0 ==> !starts_with_at(line@, k, "error: could not compile `"@),
            found ==> starts_with_at(line@, i0 as int, "error: could not compile `"@),
            !found ==> i0 == line@.len(),
        decreases line@.len() - i0,
    {
        if i0 == line.len() {
            break ;
        }
        if pat_at(line, i0, &epre) {
            found = true;
            break ;
        }
        i0 = i0 + 1;
    }
    if !found {
        proof {
            assert forall|j: int| 0 <= j <= line@.len() - 1 implies !err_valid_at(line@, j) by {
                if err_valid_at(line@, j) {
                    let iw = choose|iw: int|
                        0 <= iw && iw + 26 <= j && #[trigger] starts_with_at(
                            line@,
                            iw,
                            "error: could not compile `"@,
                        );
                    assert(!starts_with_at(line@, iw, "error: could not compile `"@));
                }
            }
            lemma_last_err_none(line@, line@.len() - 1);
        }
        return None;
    }
    let emid = chars_of("` due to");
    let esuf = chars_of("previous error");
    let mut j: usize = line.len();
    loop
        invariant
            0 <= j <= line@.len(),
            last_err_at(line@, line@.len() - 1) == last_err_at(line@, j as int - 1),
            emid@ == "` due to"@,
            esuf@ == "previous error"@,
            starts_with_at(line@, i0 as int, "error: could not compile `"@),
            forall|k: int|
                0 <= k < i0 ==> !starts_with_at(line@, k, "error: could not compile `"@),
        decreases j,
    {
        if j == 0 {
            proof {
                assert(last_err_at(line@, -1) == -1);
            }
            return None;
        }
        let cand = j - 1;
        if err_valid_exec(line, i0, cand, &emid, &esuf) {
            let line_len = line.len();
            proof {
                reveal_strlit("` due to");
                assert("` due to"@.len() == 8);
                assert(cand + 8 <= line_len);
                assert(last_err_at(line@, cand as int) == cand);
            }
            let w1 = ws_end_exec(line, cand + 8);
            let e = digit_end_exec(line, w1);
            let cnt = if e == w1 {
                1
            } else {
                match parse_digits(line, w1, e) {
                    Some(v) => v,
                    None => 1,
                }
            };
            return Some(cnt);
        }
        proof {
            assert(last_err_at(line@, cand as int) == last_err_at(line@, cand as int - 1));
        }
        j = cand;
    }
}

/// The warning counts that the text's warning summary lines report, one
/// entry per matching line, in order.
pub open spec fn warn_counts_text(s: Seq<char>) -> Seq<int>
    decreases s.len(),
{
    let nl = first_nl(s);
    let line = if nl < 0 {
        s
    } else {
        s.subrange(0, nl)
    };
    let head = match line_warn_count(line) {
        Some(c) => seq![c],
        None => Seq::empty(),
    };
    if nl < 0 {
        head
    } else if nl < s.len() {
        head + warn_counts_text(s.skip(nl + 1))
    } else {
        head
    }
}

/// The error counts that the text's error summary lines report, one
/// entry per matching line, in order.
pub open spec fn err_counts_text(s: Seq<char>) -> Seq<int>
    decreases s.len(),
{
    let nl = first_nl(s);
    let line = if nl < 0 {
        s
    } else {
        s.subrange(0, nl)
    };
    let head = match line_err_count(line) {
        Some(c) => seq![c],
        None => Seq::empty(),
    };
    if nl < 0 {
        head
    } else if nl < s.len() {
        head + err_counts_text(s.skip(nl + 1))
    } else {
        head
    }
}

/// Per-unit warning counts from build output: one entry for each line
/// reporting that a compiled unit generated warnings.
pub fn warning_counts(output: &str) -> (r: Vec<usize>)
    ensures
        r@.map_values(|c: usize| c as int) == warn_counts_text(output@),
{
    let chars = chars_of(output);
    let mut r: Vec<usize> = Vec::new();
    let mut pos: usize = 0;
    proof {
        assert(output@.skip(0) =~= output@);
        assert(r@.map_values(|c: usize| c as int) =~= Seq::<int>::empty());
    }
    loop
        invariant_except_break
            warn_counts_text(output@) == r@.map_values(|c: usize| c as int) + warn_counts_text(
                output@.skip(pos as int),
            ),
        invariant
            0 <= pos <= chars@.len(),
            chars@ == output@,
        ensures
            r@.map_values(|c: usize| c as int) == warn_counts_text(output@),
        decreases chars@.len() - pos,
    {
        let e = find_nl(&chars, pos);
        let line = copy_range(&chars, pos, e);
        let ghost rest = output@.skip(pos as int);
        let ghost nl = first_nl(rest);
        proof {
            lemma_first_nl(rest);
            if e < chars@.len() {
                assert(nl == e - pos);
                assert(rest.subrange(0, nl) =~= chars@.subrange(pos as int, e as int));
            } else {
                assert(nl == -1);
                assert(rest =~= chars@.subrange(pos as int, e as int));
            }
        }
        let m = warn_match_line(&line);
        let ghost rpre = r@;
        match m {
            Some(v) => {
                r.push(v);
                proof {
                    assert(r@.map_values(|c: usize| c as int) =~= rpre.map_values(
                        |c: usize| c as int,
                    ).push(v as int));
                }
            },
            None => {},
        }
        if e == chars.len() {
            proof {
                assert(warn_counts_text(rest) == match line_warn_count(line@) {
                    Some(c) => seq![c],
                    None => Seq::<int>::empty(),
                });
                assert(r@.map_values(|c: usize| c as int) =~= warn_counts_text(output@));
            }
            break ;
        }
        proof {
            assert(0 <= nl < rest.len());
            assert(rest.skip(nl + 1) =~= output@.skip(e as int + 1));
            assert(warn_counts_text(rest) == (match line_warn_count(line@) {
                Some(c) => seq![c],
                None => Seq::<int>::empty(),
            }) + warn_counts_text(output@.skip(e as int + 1)));
            assert(warn_counts_text(output@) =~= r@.map_values(|c: usize| c as int)
                + warn_counts_text(output@.skip(e as int + 1)));
        }
        pos = e + 1;
    }
    r
}

/// Per-unit error counts from build output: one entry for each line
/// reporting that a unit could not be compiled.
pub fn error_counts(output: &str) -> (r: Vec<usize>)
    ensures
        r@.map_values(|c: usize| c as int) == err_counts_text(output@),
{
    let chars = chars_of(output);
    let mut r: Vec<usize> = Vec::new();
    let mut pos: usize = 0;
    proof {
        assert(output@.skip(0) =~= output@);
        assert(r@.map_values(|c: usize| c as int) =~= Seq::<int>::empty());
    }
    loop
        invariant_except_break
            err_counts_text(output@) == r@.map_values(|c: usize| c as int) + err_counts_text(
                output@.skip(pos as int),
            ),
        invariant
            0 <= pos <= chars@.len(),
            chars@ == output@,
        ensures
            r@.map_values(|c: usize| c as int) == err_counts_text(output@),
        decreases chars@.len() - pos,
    {
        let e = find_nl(&chars, pos);
        let line = copy_range(&chars, pos, e);
        let ghost rest = output@.skip(pos as int);
        let ghost nl = first_nl(rest);
        proof {
            lemma_first_nl(rest);
            if e < chars@.len() {
                assert(nl == e - pos);
                assert(rest.subrange(0, nl) =~= chars@.subrange(pos as int, e as int));
            } else {
                assert(nl == -1);
                assert(rest =~= chars@.subrange(pos as int, e as int));
            }
        }
        let m = err_match_line(&line);
        let ghost rpre = r@;
        match m {
            Some(v) => {
                r.push(v);
                proof {
                    assert(r@.map_values(|c: usize| c as int) =~= rpre.map_values(
                        |c: usize| c as int,
                    ).push(v as int));
                }
            },
            None => {},
        }
        if e == chars.len() {
            proof {
                assert(err_counts_text(rest) == match line_err_count(line@) {
                    Some(c) => seq![c],
                    None => Seq::<int>::empty(),
                });
                assert(r@.map_values(|c: usize| c as int) =~= err_counts_text(output@));
            }
            break ;
        }
        proof {
            assert(0 <= nl < rest.len());
            assert(rest.skip(nl + 1) =~= output@.skip(e as int + 1));
            assert(err_counts_text(rest) == (match line_err_count(line@) {
                Some(c) => seq![c],
                None => Seq::<int>::empty(),
            }) + err_counts_text(output@.skip(e as int + 1)));
            assert(err_counts_text(output@) =~= r@.map_values(|c: usize| c as int)
                + err_counts_text(output@.skip(e as int + 1)));
        }
        pos = e + 1;
    }
    r
}

} // verus!
