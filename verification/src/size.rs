//! Human-readable size parsing: a trimmed token is mapped to a byte count.
//! The empty string, `-` and `Directory` mean zero; a leading run of digits
//! (with at most one decimal point) is scaled by the unit suffix `K`, `M`,
//! `G` or `T` (case-insensitive, powers of two); the product is truncated to
//! an integer and clamped to `u64::MAX`.
use vstd::arithmetic::div_mod::lemma_div_denominator;
use vstd::arithmetic::div_mod::lemma_div_pos_is_pos;
use vstd::arithmetic::div_mod::lemma_fundamental_div_mod;
use vstd::arithmetic::div_mod::lemma_hoist_over_denominator;
use vstd::arithmetic::div_mod::lemma_multiply_divide_le;
use vstd::prelude::*;
use vstd::string::StrSliceExecFns;

use crate::filetype::str_eq;

verus! {

/// The whitespace characters trimmed from either end of a size token.
pub open spec fn is_space(c: char) -> bool {
    c == ' ' || c == '\t' || c == '\n' || c == '\r' || c == '\u{b}' || c == '\u{c}'
}

pub open spec fn trim_start_spec(s: Seq<char>) -> Seq<char>
    decreases s.len(),
{
    if s.len() > 0 && is_space(s[0]) {
        trim_start_spec(s.drop_first())
    } else {
        s
    }
}

pub open spec fn trim_end_spec(s: Seq<char>) -> Seq<char>
    decreases s.len(),
{
    if s.len() > 0 && is_space(s.last()) {
        trim_end_spec(s.drop_last())
    } else {
        s
    }
}

/// The token with whitespace removed from both ends.
pub open spec fn trim_spec(s: Seq<char>) -> Seq<char> {
    trim_end_spec(trim_start_spec(s))
}

pub open spec fn is_digit(c: char) -> bool {
    '0' <= c && c <= '9'
}

pub open spec fn digit_val(c: char) -> int {
    c as int - 48
}

/// Whether a character may belong to the numeric run.
pub open spec fn is_num_char(c: char) -> bool {
    is_digit(c) || c == '.'
}

/// Value of a digit string, most significant digit first.
pub open spec fn digits_val(s: Seq<char>) -> int
    decreases s.len(),
{
    if s.len() == 0 {
        0
    } else {
        10 * digits_val(s.drop_last()) + digit_val(s.last())
    }
}

pub open spec fn pow10(k: nat) -> int
    decreases k,
{
    if k == 0 {
        1
    } else {
        10 * pow10((k - 1) as nat)
    }
}

/// Length of the maximal leading run of digits and decimal points.
pub open spec fn num_run_len(s: Seq<char>) -> int
    decreases s.len(),
{
    if s.len() > 0 && is_num_char(s[0]) {
        1 + num_run_len(s.drop_first())
    } else {
        0
    }
}

pub open spec fn dot_count(s: Seq<char>) -> int
    decreases s.len(),
{
    if s.len() == 0 {
        0
    } else {
        dot_count(s.drop_last()) + if s.last() == '.' {
            1int
        } else {
            0int
        }
    }
}

pub open spec fn digit_count(s: Seq<char>) -> int
    decreases s.len(),
{
    if s.len() == 0 {
        0
    } else {
        digit_count(s.drop_last()) + if is_digit(s.last()) {
            1int
        } else {
            0int
        }
    }
}

/// Index of the first `.` of `s` (or `s.len()` when there is none).
pub open spec fn first_dot(s: Seq<char>) -> int
    decreases s.len(),
{
    if s.len() == 0 {
        0
    } else if s[0] == '.' {
        0
    } else {
        1 + first_dot(s.drop_first())
    }
}

/// ASCII upper-casing of one character.  The unit match below only tests
/// for the four ASCII letters `K`, `M`, `G`, `T`, and no other character's
/// upper-case form is one of them, so the ASCII fold decides exactly as a
/// full Unicode fold would.
pub open spec fn upper_char(c: char) -> char {
    if 'a' <= c && c <= 'z' {
        (((c as u8) - 32) as char)
    } else {
        c
    }
}

/// Byte multiplier of the unit suffix: the whole suffix must be one of the
/// four unit letters (either case); anything else multiplies by one.
pub open spec fn mult_of(suf: Seq<char>) -> int {
    if suf.len() == 1 {
        if upper_char(suf[0]) == 'K' {
            1024
        } else if upper_char(suf[0]) == 'M' {
            1048576
        } else if upper_char(suf[0]) == 'G' {
            1073741824
        } else if upper_char(suf[0]) == 'T' {
            1099511627776
        } else {
            1
        }
    } else {
        1
    }
}

/// Exact mathematical value of a size token before clamping: the decimal
/// number formed by the leading numeric run, times the suffix multiplier,
/// truncated toward zero.  Malformed numbers (no digit, or more than one
/// decimal point) count as zero, as do the directory placeholders.
pub open spec fn size_value(s: Seq<char>) -> int {
    let t = trim_spec(s);
    if t.len() == 0 || t == "-"@ || t == "Directory"@ {
        0
    } else {
        let e = num_run_len(t);
        let num = t.subrange(0, e);
        let suf = t.subrange(e, t.len() as int);
        if digit_count(num) < 1 || dot_count(num) > 1 {
            0
        } else {
            let m = mult_of(suf);
            let p = if dot_count(num) == 1 {
                first_dot(num)
            } else {
                e
            };
            let whole = num.subrange(0, p);
            let frac = if dot_count(num) == 1 {
                num.subrange(p + 1, e)
            } else {
                Seq::<char>::empty()
            };
            ((digits_val(whole) * pow10(frac.len()) + digits_val(frac)) * m) / pow10(frac.len())
        }
    }
}

/// What `parse_size` returns: the token's value clamped to `u64::MAX`.
pub open spec fn parse_size_spec(s: Seq<char>) -> int {
    if size_value(s) > u64::MAX as int {
        u64::MAX as int
    } else {
        size_value(s)
    }
}

proof fn lemma_trim_start(s: Seq<char>, lo: int)
    requires
        0 <= lo <= s.len(),
        forall|j: int| 0 <= j < lo ==> is_space(s[j]),
        lo == s.len() || !is_space(s[lo]),
    ensures
        trim_start_spec(s) == s.subrange(lo, s.len() as int),
    decreases lo,
{
    if lo == 0 {
        assert(s.subrange(0, s.len() as int) =~= s);
    } else {
        let d = s.drop_first();
        assert(forall|j: int| 0 <= j < lo - 1 ==> d[j] == s[j + 1] && is_space(d[j]));
        lemma_trim_start(d, lo - 1);
        assert(d.subrange(lo - 1, d.len() as int) =~= s.subrange(lo, s.len() as int));
    }
}

proof fn lemma_trim_end(s: Seq<char>, hi: int)
    requires
        0 <= hi <= s.len(),
        forall|j: int| hi <= j < s.len() ==> is_space(s[j]),
        hi == 0 || !is_space(s[hi - 1]),
    ensures
        trim_end_spec(s) == s.subrange(0, hi),
    decreases s.len(),
{
    if hi == s.len() {
        assert(s.subrange(0, s.len() as int) =~= s);
    } else {
        let d = s.drop_last();
        lemma_trim_end(d, hi);
        assert(d.subrange(0, hi) =~= s.subrange(0, hi));
    }
}

proof fn lemma_num_run(s: Seq<char>, e: int)
    requires
        0 <= e <= s.len(),
        forall|j: int| 0 <= j < e ==> is_num_char(s[j]),
        e == s.len() || !is_num_char(s[e]),
    ensures
        num_run_len(s) == e,
    decreases e,
{
    if e == 0 {
    } else {
        let d = s.drop_first();
        assert(forall|j: int| 0 <= j < e - 1 ==> d[j] == s[j + 1]);
        lemma_num_run(d, e - 1);
    }
}

proof fn lemma_dot_count_nonneg(s: Seq<char>)
    ensures
        dot_count(s) >= 0,
    decreases s.len(),
{
    if s.len() > 0 {
        lemma_dot_count_nonneg(s.drop_last());
    }
}

proof fn lemma_dot_count_pos(s: Seq<char>, a: int)
    requires
        0 <= a < s.len(),
        s[a] == '.',
    ensures
        dot_count(s) >= 1,
    decreases s.len(),
{
    lemma_dot_count_nonneg(s.drop_last());
    if a < s.len() - 1 {
        lemma_dot_count_pos(s.drop_last(), a);
    }
}

proof fn lemma_dot_count_two(s: Seq<char>, a: int, b: int)
    requires
        0 <= a < b < s.len(),
        s[a] == '.',
        s[b] == '.',
    ensures
        dot_count(s) >= 2,
    decreases s.len(),
{
    if b < s.len() - 1 {
        lemma_dot_count_two(s.drop_last(), a, b);
        lemma_dot_count_nonneg(s);
        assert(dot_count(s) >= dot_count(s.drop_last()) + 0);
    } else {
        lemma_dot_count_pos(s.drop_last(), a);
    }
}

proof fn lemma_no_dots(s: Seq<char>)
    requires
        dot_count(s) == 0,
    ensures
        forall|j: int| 0 <= j < s.len() ==> s[j] != '.',
{
    assert forall|j: int| 0 <= j < s.len() implies s[j] != '.' by {
        if s[j] == '.' {
            lemma_dot_count_pos(s, j);
        }
    }
}

proof fn lemma_first_dot(s: Seq<char>, p: int)
    requires
        0 <= p < s.len(),
        forall|j: int| 0 <= j < p ==> s[j] != '.',
        s[p] == '.',
    ensures
        first_dot(s) == p,
    decreases p,
{
    if p > 0 {
        let d = s.drop_first();
        assert(forall|j: int| 0 <= j < p - 1 ==> d[j] == s[j + 1]);
        lemma_first_dot(d, p - 1);
    }
}

proof fn lemma_digits_val_bounds(s: Seq<char>)
    requires
        forall|j: int| 0 <= j < s.len() ==> is_digit(s[j]),
    ensures
        0 <= digits_val(s) < pow10(s.len()),
    decreases s.len(),
{
    if s.len() > 0 {
        lemma_digits_val_bounds(s.drop_last());
        assert(digits_val(s) < pow10(s.len())) by (nonlinear_arith)
            requires
                digits_val(s) == 10 * digits_val(s.drop_last()) + digit_val(s.last()),
                digits_val(s.drop_last()) < pow10((s.len() - 1) as nat),
                digit_val(s.last()) <= 9,
                pow10(s.len()) == 10 * pow10((s.len() - 1) as nat),
        ;
    }
}

proof fn lemma_pow10_pos(k: nat)
    ensures
        pow10(k) >= 1,
    decreases k,
{
    if k > 0 {
        lemma_pow10_pos((k - 1) as nat)
    }
}

/// Head decomposition of a digit string's value.
proof fn lemma_digits_val_head(s: Seq<char>)
    requires
        s.len() > 0,
    ensures
        digits_val(s) == digit_val(s[0]) * pow10((s.len() - 1) as nat) + digits_val(
            s.drop_first(),
        ),
    decreases s.len(),
{
    if s.len() == 1 {
        assert(s.drop_last() =~= Seq::<char>::empty());
        assert(s.drop_first() =~= Seq::<char>::empty());
        assert(digits_val(s.drop_last()) == 0);
        assert(digits_val(s.drop_first()) == 0);
        assert(s.last() == s[0]);
        assert(digit_val(s[0]) * 1 == digit_val(s[0])) by (nonlinear_arith);
    } else {
        let dl = s.drop_last();
        lemma_digits_val_head(dl);
        assert(dl[0] == s[0]);
        let sdf = s.drop_first();
        assert(sdf.last() == s.last());
        assert(sdf.drop_last() =~= dl.drop_first());
        assert(digits_val(sdf) == 10 * digits_val(dl.drop_first()) + digit_val(s.last()));
        let k = (s.len() - 2) as nat;
        assert((dl.len() - 1) as nat == k);
        assert(digits_val(dl) == digit_val(s[0]) * pow10(k) + digits_val(dl.drop_first()));
        assert(10 * (digit_val(s[0]) * pow10(k) + digits_val(dl.drop_first())) == digit_val(s[0])
            * (10 * pow10(k)) + 10 * digits_val(dl.drop_first())) by (nonlinear_arith);
        assert(digits_val(s) == digit_val(s[0]) * (10 * pow10(k)) + digits_val(s.drop_first()));
        assert(pow10((s.len() - 1) as nat) == 10 * pow10(k));
        assert(digit_val(s[0]) * pow10((s.len() - 1) as nat) == digit_val(s[0]) * (10 * pow10(
            k,
        )));
    }
}

/// One step of the right-to-left fraction fold: pulling the next digit into
/// the truncated product.
proof fn lemma_frac_step(d: int, m: int, fv: int, k: nat)
    requires
        0 <= d <= 9,
        1 <= m,
        0 <= fv,
    ensures
        (d * m + (m * fv) / pow10(k)) / 10 == (m * (d * pow10(k) + fv)) / (10 * pow10(k)),
{
    lemma_pow10_pos(k);
    let p = pow10(k);
    assert(0 <= m * fv) by (nonlinear_arith)
        requires
            0 <= m,
            0 <= fv,
    ;
    lemma_hoist_over_denominator(m * fv, d * m, p as nat);
    assert((m * fv) / p + d * m == (m * fv + (d * m) * p) / p);
    assert(m * (d * p + fv) == m * fv + (d * m) * p) by (nonlinear_arith);
    assert(0 <= m * (d * p + fv)) by (nonlinear_arith)
        requires
            0 <= m,
            0 <= d,
            0 <= p,
            0 <= fv,
    ;
    lemma_div_denominator(m * (d * p + fv), p, 10);
    assert((m * (d * p + fv)) / p / 10 == (m * (d * p + fv)) / (p * 10));
}

/// Splitting the truncated product into its whole and fractional parts.
proof fn lemma_value_split(w: int, fv: int, k: nat, m: int)
    requires
        0 <= w,
        0 <= fv,
        1 <= m,
    ensures
        ((w * pow10(k) + fv) * m) / pow10(k) == w * m + (fv * m) / pow10(k),
{
    lemma_pow10_pos(k);
    let p = pow10(k);
    assert(0 <= fv * m) by (nonlinear_arith)
        requires
            0 <= fv,
            0 <= m,
    ;
    lemma_hoist_over_denominator(fv * m, w * m, p as nat);
    assert((fv * m) / p + w * m == (fv * m + (w * m) * p) / p);
    assert((w * p + fv) * m == fv * m + (w * m) * p) by (nonlinear_arith);
}

fn is_space_x(c: char) -> (r: bool)
    ensures
        r == is_space(c),
{
    c == ' ' || c == '\t' || c == '\n' || c == '\r' || c == '\u{b}' || c == '\u{c}'
}

/// Parse a human-readable size token into a byte count.  Total: malformed
/// input yields zero, values beyond `u64::MAX` clamp to it.
#[verifier::rlimit(60)]
pub fn parse_size(size_str: &str) -> (r: u64)
    ensures
        r as int == parse_size_spec(size_str@),
{
    let n = size_str.unicode_len();
    let mut lo: usize = 0;
    while lo < n && is_space_x(size_str.get_char(lo))
        invariant
            lo <= n,
            n == size_str@.len(),
            forall|j: int| 0 <= j < lo ==> is_space(size_str@[j]),
        decreases n - lo,
    {
        lo = lo + 1;
    }
    let mut hi: usize = n;
    while hi > lo && is_space_x(size_str.get_char(hi - 1))
        invariant
            lo <= hi <= n,
            n == size_str@.len(),
            forall|j: int| 0 <= j < lo ==> is_space(size_str@[j]),
            forall|j: int| hi <= j < n ==> is_space(size_str@[j]),
        decreases hi,
    {
        hi = hi - 1;
    }
    let t: &str = size_str.substring_char(lo, hi);
    proof {
        lemma_trim_start(size_str@, lo as int);
        let ts = size_str@.subrange(lo as int, n as int);
        lemma_trim_end(ts, hi - lo);
        assert(ts.subrange(0, hi - lo) =~= size_str@.subrange(lo as int, hi as int));
        assert(t@ == trim_spec(size_str@));
    }
    let tl = t.unicode_len();
    if tl == 0 {
        return 0;
    }
    if str_eq(t, "-") || str_eq(t, "Directory") {
        return 0;
    }
    // scan the leading numeric run
    let mut e: usize = 0;
    let mut dots: usize = 0;
    let mut digits: usize = 0;
    let mut dotpos: usize = 0;
    while e < tl && (t.get_char(e) == '.' || ('0' <= t.get_char(e) && t.get_char(e) <= '9'))
        invariant
            e <= tl,
            tl == t@.len(),
            forall|j: int| 0 <= j < e ==> is_num_char(t@[j]),
            dots == dot_count(t@.subrange(0, e as int)),
            digits == digit_count(t@.subrange(0, e as int)),
            dots >= 1 ==> dotpos < e && t@[dotpos as int] == '.' && (forall|j: int|
                0 <= j < dotpos ==> t@[j] != '.'),
            dots <= e,
            digits <= e,
        decreases tl - e,
    {
        let c = t.get_char(e);
        if c == '.' {
            if dots == 0 {
                proof {
                    lemma_no_dots(t@.subrange(0, e as int));
                    assert forall|j: int| 0 <= j < e implies t@[j] != '.' by {
                        assert(t@.subrange(0, e as int)[j] == t@[j]);
                    }
                }
                dotpos = e;
            }
            dots = dots + 1;
        } else {
            digits = digits + 1;
        }
        e = e + 1;
        proof {
            let cur = t@.subrange(0, e as int);
            assert(cur.drop_last() =~= t@.subrange(0, e - 1));
            assert(cur.last() == t@[e - 1]);
        }
    }
    proof {
        lemma_num_run(t@, e as int);
    }
    if digits == 0 || dots > 1 {
        return 0;
    }
    let ghost num = t@.subrange(0, e as int);
    let ghost suf = t@.subrange(e as int, tl as int);
    // unit multiplier from the suffix
    let m: u64 = if tl - e == 1 {
        let c = t.get_char(e);
        let u = if 'a' <= c && c <= 'z' {
            ((c as u8) - 32) as char
        } else {
            c
        };
        proof {
            assert(u == upper_char(suf[0]));
        }
        if u == 'K' {
            1024
        } else if u == 'M' {
            1048576
        } else if u == 'G' {
            1073741824
        } else if u == 'T' {
            1099511627776
        } else {
            1
        }
    } else {
        1
    };
    proof {
        assert(m as int == mult_of(suf));
    }
    // whole part, saturating past 2^64
    let p: usize = if dots == 1 {
        dotpos
    } else {
        e
    };
    proof {
        if dots == 1 {
            lemma_first_dot(num, p as int);
            assert forall|j: int| 0 <= j < p implies #[trigger] is_digit(t@[j]) by {
                assert(is_num_char(t@[j]) && t@[j] != '.');
            }
        } else {
            lemma_no_dots(num);
            assert forall|j: int| 0 <= j < p implies #[trigger] is_digit(t@[j]) by {
                assert(num[j] == t@[j]);
                assert(is_num_char(t@[j]) && t@[j] != '.');
            }
        }
    }
    let ghost whole = num.subrange(0, p as int);
    let mut w: u128 = 0;
    let mut i: usize = 0;
    proof {
        assert(whole.subrange(0, 0) =~= Seq::<char>::empty());
    }
    while i < p
        invariant
            i <= p,
            p <= tl,
            tl == t@.len(),
            whole == t@.subrange(0, p as int),
            forall|j: int| 0 <= j < p ==> is_digit(t@[j]),
            w <= digits_val(whole.subrange(0, i as int)),
            w < 0x10000000000000000u128 ==> w as int == digits_val(whole.subrange(0, i as int)),
            digits_val(whole.subrange(0, i as int)) >= 0x10000000000000000
                ==> w >= 0x10000000000000000u128,
        decreases p - i,
    {
        let c = t.get_char(i);
        let d = ((c as u8) - 48) as u128;
        proof {
            let pre = whole.subrange(0, i as int);
            let cur = whole.subrange(0, i + 1);
            assert(cur.drop_last() =~= pre);
            assert(cur.last() == t@[i as int]);
            lemma_digits_val_bounds(pre);
            lemma_digits_val_bounds(cur);
        }
        if w < 0x10000000000000000u128 {
            w = w * 10 + d;
        }
        i = i + 1;
    }
    proof {
        assert(whole.subrange(0, p as int) =~= whole);
    }
    // fractional contribution, folded right to left
    let ghost k: nat = if dots == 1 {
        (e - (p + 1)) as nat
    } else {
        0
    };
    let ghost frac = if dots == 1 {
        num.subrange(p + 1, e as int)
    } else {
        Seq::<char>::empty()
    };
    let mut fc: u64 = 0;
    if dots == 1 {
        proof {
            assert forall|j: int| p < j < e implies #[trigger] is_digit(t@[j]) by {
                assert(num[j] == t@[j]);
                if t@[j] == '.' {
                    lemma_dot_count_two(num, p as int, j);
                }
                assert(is_num_char(t@[j]));
            }
            assert(t@.subrange(e as int, e as int) =~= Seq::<char>::empty());
        }
        let mut j: usize = e;
        while j > p + 1
            invariant
                p + 1 <= j <= e,
                e <= tl,
                tl == t@.len(),
                1 <= m,
                m <= 1099511627776,
                forall|jj: int| p < jj < e ==> is_digit(t@[jj]),
                fc as int == (m as int * digits_val(t@.subrange(j as int, e as int))) / pow10(
                    (e - j) as nat,
                ),
                fc <= m,
            decreases j,
        {
            let c = t.get_char(j - 1);
            let d = ((c as u8) - 48) as u64;
            proof {
                let rest = t@.subrange(j as int, e as int);
                let cur = t@.subrange(j - 1, e as int);
                assert(cur[0] == t@[j - 1]);
                assert(cur.drop_first() =~= rest);
                lemma_digits_val_head(cur);
                lemma_digits_val_bounds(rest);
                lemma_digits_val_bounds(cur);
                lemma_frac_step(d as int, m as int, digits_val(rest), (e - j) as nat);
                assert(pow10((e - (j - 1)) as nat) == 10 * pow10((e - j) as nat));
                assert(d as int * pow10((e - j) as nat) + digits_val(rest) == digits_val(cur));
                // bound the new carry by m
                lemma_pow10_pos((e - (j - 1)) as nat);
                assert(m as int * digits_val(cur) <= pow10((e - (j - 1)) as nat) * m as int - m)
                    by (nonlinear_arith)
                    requires
                        digits_val(cur) < pow10((e - (j - 1)) as nat),
                        digits_val(cur) >= 0,
                        m >= 1,
                ;
                assert(m as int * digits_val(cur) >= 0) by (nonlinear_arith)
                    requires
                        digits_val(cur) >= 0,
                        m >= 1,
                ;
                lemma_multiply_divide_le(
                    m as int * digits_val(cur),
                    pow10((e - (j - 1)) as nat),
                    m as int,
                );
                lemma_div_pos_is_pos(m as int * digits_val(cur), pow10((e - (j - 1)) as nat));
            }
            fc = (d * m + fc) / 10;
            j = j - 1;
        }
        proof {
            assert(t@.subrange(p + 1, e as int) =~= frac);
        }
    }
    proof {
        if dots != 1 {
            assert(digits_val(frac) == 0);
            assert(pow10(k) == 1);
            assert(m as int * 0 == 0) by (nonlinear_arith);
            assert(fc as int == (m as int * digits_val(frac)) / pow10(k));
        }
        assert(k == frac.len());
        assert(forall|j: int| 0 <= j < frac.len() ==> is_digit(frac[j]));
        lemma_digits_val_bounds(frac);
        lemma_digits_val_bounds(whole);
        lemma_value_split(digits_val(whole), digits_val(frac), k, m as int);
        assert(m as int * digits_val(frac) == digits_val(frac) * m as int) by (nonlinear_arith);
        // fc == (frac * m) / 10^k is the fractional contribution
    }
    let ghost value = ((digits_val(whole) * pow10(k) + digits_val(frac)) * m as int) / pow10(k);
    proof {
        assert(value == digits_val(whole) * m as int + (digits_val(frac) * m as int) / pow10(k));
        assert(size_value(size_str@) == value);
    }
    if w >= 0x10000000000000000u128 {
        proof {
            assert(digits_val(whole) >= 0x10000000000000000);
            assert(digits_val(whole) * m as int >= digits_val(whole)) by (nonlinear_arith)
                requires
                    digits_val(whole) >= 0,
                    m >= 1,
            ;
        }
        return u64::MAX;
    }
    proof {
        vstd::arithmetic::mul::lemma_mul_upper_bound(
            w as int,
            0xffffffffffffffff,
            m as int,
            1099511627776,
        );
        vstd::arithmetic::mul::lemma_mul_nonnegative(w as int, m as int);
    }
    let total: u128 = w * (m as u128) + (fc as u128);
    proof {
        assert(w as int * m as int + fc as int == value);
    }
    if total >= 0x10000000000000000u128 {
        u64::MAX
    } else {
        total as u64
    }
}

/// Decimal digit character of a value in `0..=9`.
pub open spec fn digit_char(d: int) -> char {
    (((48 + d) as u8) as char)
}

/// The plain decimal rendering of a non-negative integer.
pub open spec fn dec_str_of(n: int) -> Seq<char>
    decreases n,
{
    if n < 10 {
        seq![digit_char(n)]
    } else {
        dec_str_of(n / 10).push(digit_char(n % 10))
    }
}

proof fn lemma_dec_str_digits(n: int)
    requires
        n >= 0,
    ensures
        dec_str_of(n).len() >= 1,
        forall|j: int| 0 <= j < dec_str_of(n).len() ==> is_digit(#[trigger] dec_str_of(n)[j]),
        digits_val(dec_str_of(n)) == n,
    decreases n,
{
    if n < 10 {
        assert(digits_val(dec_str_of(n)) == 10 * digits_val(seq![digit_char(n)].drop_last())
            + digit_val(digit_char(n)));
        assert(seq![digit_char(n)].drop_last() =~= Seq::<char>::empty());
    } else {
        lemma_fundamental_div_mod(n, 10);
        lemma_div_pos_is_pos(n, 10);
        lemma_dec_str_digits(n / 10);
        assert(dec_str_of(n).drop_last() =~= dec_str_of(n / 10));
    }
}

proof fn lemma_all_digits_counts(s: Seq<char>)
    requires
        forall|j: int| 0 <= j < s.len() ==> is_digit(s[j]),
    ensures
        dot_count(s) == 0,
        digit_count(s) == s.len(),
    decreases s.len(),
{
    if s.len() > 0 {
        lemma_all_digits_counts(s.drop_last());
    }
}

/// `parse_size` round-trips plain integers: the decimal rendering of any
/// `u64` parses back to exactly that value.
pub proof fn lemma_parse_size_round_trip(n: u64)
    ensures
        parse_size_spec(dec_str_of(n as int)) == n as int,
{
    let s = dec_str_of(n as int);
    lemma_dec_str_digits(n as int);
    // a digit string is left untouched by trimming
    assert(!is_space(s[0]));
    assert(!is_space(s.last()));
    assert(trim_start_spec(s) == s);
    assert(trim_end_spec(s) == s);
    assert(trim_spec(s) == s);
    // it is neither of the placeholder tokens
    assert(s != "-"@) by {
        reveal_strlit("-");
        if s == "-"@ {
            assert(s[0] == '-');
            assert(!is_digit('-'));
        }
    }
    assert(s != "Directory"@) by {
        reveal_strlit("Directory");
        if s == "Directory"@ {
            assert(s[0] == 'D');
            assert(!is_digit('D'));
        }
    }
    // the numeric run is the whole string and carries no dot
    lemma_num_run(s, s.len() as int);
    lemma_all_digits_counts(s);
    assert(s.subrange(0, s.len() as int) =~= s);
    assert(s.subrange(s.len() as int, s.len() as int) =~= Seq::<char>::empty());
    let whole = s.subrange(0, s.len() as int);
    assert(whole == s);
    assert(size_value(s) == (digits_val(s) * pow10(0) + digits_val(Seq::<char>::empty()) as int)
        * 1 / pow10(0));
    assert(digits_val(s) * 1 + 0 == digits_val(s)) by (nonlinear_arith);
    assert((digits_val(s) * 1 + 0) / 1 == digits_val(s) * 1 + 0);
    assert(size_value(s) == n as int);
}

} // verus!
