//! Package versions: parsing into (epoch, upstream, revision) and the
//! Debian-style total order over version strings.
//!
//! A version string is compared component-wise: the numeric epoch first,
//! then the upstream part, then the revision, the latter two under a string
//! order that alternates between comparing runs of non-digit characters
//! (where `~` sorts lowest, even below the end of the string, and letters
//! sort below all other characters) and comparing runs of digits by their
//! numeric value.

use std::cmp::Ordering;

use vstd::prelude::*;
use vstd::string::StrSliceExecFns;

verus! {

// ---------------------------------------------------------------------------
// Character classes
// ---------------------------------------------------------------------------

/// An ASCII decimal digit.
pub open spec fn is_digit(c: char) -> bool {
    '0' as u32 <= c as u32 && c as u32 <= '9' as u32
}

/// An ASCII letter.
pub open spec fn is_letter(c: char) -> bool {
    ('a' as u32 <= c as u32 && c as u32 <= 'z' as u32) || ('A' as u32 <= c as u32 && c as u32
        <= 'Z' as u32)
}

/// Numeric value of a digit character.
pub open spec fn digit_val(c: char) -> nat {
    (c as u32 - '0' as u32) as nat
}

fn digit_ex(c: char) -> (r: bool)
    ensures
        r == is_digit(c),
{
    let u: u32 = c as u32;
    48 <= u && u <= 57
}

// ---------------------------------------------------------------------------
// The string order: specification
// ---------------------------------------------------------------------------

/// Three-valued comparison results are modelled as an integer:
/// negative for `Less`, zero for `Equal`, positive for `Greater`.
pub open spec fn ord_int(o: Ordering) -> int {
    match o {
        Ordering::Less => -1,
        Ordering::Equal => 0,
        Ordering::Greater => 1,
    }
}

/// The head of the current non-digit run: the first character, unless the
/// string is exhausted or a digit run starts there.
pub open spec fn nd_head(s: Seq<char>) -> Option<char> {
    if s.len() > 0 && !is_digit(s[0]) {
        Some(s[0])
    } else {
        None
    }
}

/// Rank class of a run head: `~` sorts below everything, then the absent
/// head (end of run), then letters, then all remaining characters.
///
/// Characters are told apart by their code points throughout, so that the
/// order provably depends on nothing but the sequence of code points.
pub open spec fn head_class(h: Option<char>) -> int {
    match h {
        Some(c) => if c as u32 == '~' as u32 {
            0
        } else if is_letter(c) {
            2
        } else {
            3
        },
        None => 1,
    }
}

/// Tie-break within a rank class: the character's code point.
pub open spec fn head_code(h: Option<char>) -> int {
    match h {
        Some(c) => (c as u32) as int,
        None => 0,
    }
}

/// Comparison of two run heads by rank class, then code point.
pub open spec fn cmp_head(x: Option<char>, y: Option<char>) -> int {
    if head_class(x) < head_class(y) {
        -1
    } else if head_class(x) > head_class(y) {
        1
    } else if head_code(x) < head_code(y) {
        -1
    } else if head_code(x) > head_code(y) {
        1
    } else {
        0
    }
}

/// Comparison of the non-digit runs at the front of `a` and `b`: equal
/// characters are consumed in lockstep; the first difference is decided by
/// `cmp_head`, where a digit or the end of the string counts as an absent
/// head. Zero means both runs ended with no difference.
pub open spec fn cmp_nd(a: Seq<char>, b: Seq<char>) -> int
    decreases a.len() + b.len(),
{
    if nd_head(a) is Some && nd_head(b) is Some && a[0] as u32 == b[0] as u32 {
        cmp_nd(a.drop_first(), b.drop_first())
    } else {
        cmp_head(nd_head(a), nd_head(b))
    }
}

/// Length of the digit run at the front of `s`.
pub open spec fn digit_run_len(s: Seq<char>) -> nat
    decreases s.len(),
{
    if s.len() > 0 && is_digit(s[0]) {
        1 + digit_run_len(s.drop_first())
    } else {
        0
    }
}

/// Numeric value of a digit string (most significant digit first).
pub open spec fn num_value(s: Seq<char>) -> nat
    decreases s.len(),
{
    if s.len() == 0 {
        0
    } else {
        num_value(s.drop_last()) * 10 + digit_val(s.last())
    }
}

pub proof fn lemma_digit_run_len_le(s: Seq<char>)
    ensures
        digit_run_len(s) <= s.len(),
    decreases s.len(),
{
    if s.len() > 0 && is_digit(s[0]) {
        lemma_digit_run_len_le(s.drop_first());
    }
}

/// The full string order, an alternation of non-digit and digit phases.
/// In the non-digit phase, equal heads are consumed in lockstep and the
/// first difference decides; when both runs end the comparison moves to
/// the digit phase, which compares the leading digit runs by numeric value
/// (an absent run counts as zero) and, on a tie, returns to the non-digit
/// phase behind the runs. Two exhausted strings are equal.
pub open spec fn cmp_ver(a: Seq<char>, b: Seq<char>, digit_phase: bool) -> int
    decreases a.len() + b.len(), (if digit_phase { 0int } else { 1int }),
    via cmp_ver_decreases
{
    if !digit_phase {
        if nd_head(a) is Some && nd_head(b) is Some && a[0] as u32 == b[0] as u32 {
            cmp_ver(a.drop_first(), b.drop_first(), false)
        } else if nd_head(a) is None && nd_head(b) is None {
            if a.len() == 0 && b.len() == 0 {
                0
            } else {
                cmp_ver(a, b, true)
            }
        } else {
            cmp_head(nd_head(a), nd_head(b))
        }
    } else {
        let la = digit_run_len(a);
        let lb = digit_run_len(b);
        if la == 0 && lb == 0 {
            0
        } else {
            let va = num_value(a.take(la as int));
            let vb = num_value(b.take(lb as int));
            if va < vb {
                -1
            } else if va > vb {
                1
            } else {
                cmp_ver(a.skip(la as int), b.skip(lb as int), false)
            }
        }
    }
}

#[via_fn]
proof fn cmp_ver_decreases(a: Seq<char>, b: Seq<char>, digit_phase: bool) {
    lemma_digit_run_len_le(a);
    lemma_digit_run_len_le(b);
}

// ---------------------------------------------------------------------------
// Facts about numeric values of digit strings
// ---------------------------------------------------------------------------

/// Powers of ten.
pub open spec fn pow10(n: nat) -> nat
    decreases n,
{
    if n == 0 {
        1
    } else {
        10 * pow10((n - 1) as nat)
    }
}

pub open spec fn all_digits(s: Seq<char>) -> bool {
    forall|i: int| 0 <= i < s.len() ==> is_digit(#[trigger] s[i])
}

proof fn lemma_pow10_pos(n: nat)
    ensures
        pow10(n) >= 1,
    decreases n,
{
    if n > 0 {
        lemma_pow10_pos((n - 1) as nat);
    }
}

proof fn lemma_pow10_mono(m: nat, n: nat)
    requires
        m <= n,
    ensures
        pow10(m) <= pow10(n),
    decreases n,
{
    if m < n {
        lemma_pow10_mono(m, (n - 1) as nat);
        lemma_pow10_pos((n - 1) as nat);
    }
}

proof fn lemma_num_value_bound(s: Seq<char>)
    requires
        all_digits(s),
    ensures
        num_value(s) < pow10(s.len()),
    decreases s.len(),
{
    if s.len() > 0 {
        assert(all_digits(s.drop_last()));
        lemma_num_value_bound(s.drop_last());
        assert(digit_val(s.last()) <= 9);
    }
}

proof fn lemma_num_value_lower(s: Seq<char>)
    requires
        all_digits(s),
        s.len() > 0,
        s[0] as u32 != '0' as u32,
    ensures
        num_value(s) >= pow10((s.len() - 1) as nat),
    decreases s.len(),
{
    if s.len() == 1 {
        assert(is_digit(s[0]));
        assert(digit_val(s[0]) >= 1);
    } else {
        assert(s.drop_last()[0] == s[0]);
        assert(all_digits(s.drop_last()));
        lemma_num_value_lower(s.drop_last());
    }
}

proof fn lemma_num_value_concat(u: Seq<char>, v: Seq<char>)
    ensures
        num_value(u + v) == num_value(u) * pow10(v.len()) + num_value(v),
    decreases v.len(),
{
    if v.len() == 0 {
        assert(u + v =~= u);
        assert(pow10(v.len()) == 1);
        assert(num_value(u + v) == num_value(u) * pow10(v.len()) + num_value(v));
    } else {
        let n1 = (v.len() - 1) as nat;
        let x = num_value(u);
        let y = num_value(v.drop_last());
        let d = digit_val(v.last());
        assert((u + v).drop_last() =~= u + v.drop_last());
        lemma_num_value_concat(u, v.drop_last());
        assert(num_value(u + v.drop_last()) == x * pow10(n1) + y);
        assert((u + v).last() == v.last());
        assert(num_value(u + v) == (x * pow10(n1) + y) * 10 + d);
        assert(pow10(v.len()) == 10 * pow10(n1));
        assert(x * pow10(n1) * 10 == x * pow10(v.len())) by (nonlinear_arith)
            requires
                pow10(v.len() as nat) == 10 * pow10(n1),
        ;
        assert((x * pow10(n1) + y) * 10 == x * pow10(n1) * 10 + y * 10);
        assert(num_value(v) == y * 10 + d);
        assert(num_value(u + v) == x * pow10(v.len()) + num_value(v));
    }
}

/// A prefix of a digit string has a value no larger than the whole.
proof fn lemma_num_value_prefix_le(s: Seq<char>, m: int)
    requires
        0 <= m <= s.len(),
    ensures
        num_value(s.take(m)) <= num_value(s),
{
    assert(s =~= s.take(m) + s.skip(m));
    lemma_num_value_concat(s.take(m), s.skip(m));
    lemma_pow10_pos(s.skip(m).len());
    assert(num_value(s.take(m)) * 1 <= num_value(s.take(m)) * pow10(s.skip(m).len()))
        by (nonlinear_arith)
        requires
            pow10(s.skip(m).len()) >= 1,
    ;
}

/// The numeric value depends on the digits' code points alone.
proof fn lemma_num_value_codes(s: Seq<char>, t: Seq<char>)
    requires
        s.len() == t.len(),
        forall|j: int| 0 <= j < s.len() ==> s[j] as u32 == #[trigger] (t[j] as u32),
    ensures
        num_value(s) == num_value(t),
    decreases s.len(),
{
    if s.len() > 0 {
        assert(forall|j: int| 0 <= j < s.len() - 1 ==> s.drop_last()[j] as u32 == #[trigger] (
        t.drop_last()[j] as u32)) by {
            assert(forall|j: int| 0 <= j < s.len() - 1 ==> s.drop_last()[j] == s[j]
                && t.drop_last()[j] == t[j]);
        }
        lemma_num_value_codes(s.drop_last(), t.drop_last());
    }
}

/// Two equal-length digit strings compare by their first differing digit.
proof fn lemma_num_value_lex(s: Seq<char>, t: Seq<char>, k: int)
    requires
        s.len() == t.len(),
        all_digits(s),
        all_digits(t),
        0 <= k < s.len(),
        forall|j: int| 0 <= j < k ==> s[j] as u32 == #[trigger] (t[j] as u32),
        (s[k] as u32) < (t[k] as u32),
    ensures
        num_value(s) < num_value(t),
{
    let n = s.len() as int;
    let rest = (n - k - 1) as nat;
    assert(s =~= s.take(k + 1) + s.skip(k + 1));
    assert(t =~= t.take(k + 1) + t.skip(k + 1));
    lemma_num_value_concat(s.take(k + 1), s.skip(k + 1));
    lemma_num_value_concat(t.take(k + 1), t.skip(k + 1));
    assert(s.take(k + 1).drop_last() =~= s.take(k));
    assert(t.take(k + 1).drop_last() =~= t.take(k));
    assert(forall|j: int| 0 <= j < k ==> s.take(k)[j] as u32 == #[trigger] (t.take(k)[j] as u32))
        by {
        assert(forall|j: int| 0 <= j < k ==> s.take(k)[j] == s[j] && t.take(k)[j] == t[j]);
    }
    lemma_num_value_codes(s.take(k), t.take(k));
    // value of the (k+1)-prefix of s is strictly below that of t
    assert(is_digit(s[k]) && is_digit(t[k]));
    assert(digit_val(s[k]) + 1 <= digit_val(t[k]));
    assert(num_value(s.take(k + 1)) + 1 <= num_value(t.take(k + 1)));
    assert(all_digits(s.skip(k + 1)));
    lemma_num_value_bound(s.skip(k + 1));
    assert(s.skip(k + 1).len() == rest);
    assert(t.skip(k + 1).len() == rest);
    assert(num_value(s) < (num_value(s.take(k + 1)) + 1) * pow10(rest)) by (nonlinear_arith)
        requires
            num_value(s) == num_value(s.take(k + 1)) * pow10(rest) + num_value(s.skip(k + 1)),
            num_value(s.skip(k + 1)) < pow10(rest),
    ;
    assert((num_value(s.take(k + 1)) + 1) * pow10(rest) <= num_value(t.take(k + 1)) * pow10(rest))
        by (nonlinear_arith)
        requires
            num_value(s.take(k + 1)) + 1 <= num_value(t.take(k + 1)),
            pow10(rest) >= 0,
    ;
    assert(num_value(t.take(k + 1)) * pow10(rest) <= num_value(t));
}

// ---------------------------------------------------------------------------
// The string order: executable comparison
// ---------------------------------------------------------------------------

fn nd_head_at(s: &str, n: usize, i: usize) -> (h: Option<char>)
    requires
        n == s@.len(),
        i <= n,
    ensures
        h == nd_head(s@.skip(i as int)),
{
    proof {
        if i < n {
            assert(s@.skip(i as int)[0] == s@[i as int]);
        }
    }
    if i < n {
        let c = s.get_char(i);
        if digit_ex(c) {
            None
        } else {
            Some(c)
        }
    } else {
        None
    }
}

fn head_class_ex(h: Option<char>) -> (r: u32)
    ensures
        r as int == head_class(h),
{
    match h {
        Some(c) => {
            let u: u32 = c as u32;
            if u == 126 {
                0
            } else if (97 <= u && u <= 122) || (65 <= u && u <= 90) {
                2
            } else {
                3
            }
        },
        None => 1,
    }
}

fn cmp_heads(x: Option<char>, y: Option<char>) -> (r: Ordering)
    ensures
        ord_int(r) == cmp_head(x, y),
{
    let cx = head_class_ex(x);
    let cy = head_class_ex(y);
    if cx < cy {
        Ordering::Less
    } else if cx > cy {
        Ordering::Greater
    } else {
        let ux: u32 = match x {
            Some(c) => c as u32,
            None => 0,
        };
        let uy: u32 = match y {
            Some(c) => c as u32,
            None => 0,
        };
        if ux < uy {
            Ordering::Less
        } else if ux > uy {
            Ordering::Greater
        } else {
            Ordering::Equal
        }
    }
}

/// First position at or after `i` that does not hold a digit.
fn digit_run_end(s: &str, n: usize, i: usize) -> (j: usize)
    requires
        n == s@.len(),
        i <= n,
    ensures
        i <= j <= n,
        forall|k: int| i <= k < j ==> is_digit(#[trigger] s@[k]),
        j == n || !is_digit(s@[j as int]),
        j - i == digit_run_len(s@.skip(i as int)),
{
    let mut j = i;
    while j < n
        invariant_except_break
            n == s@.len(),
            i <= j <= n,
            forall|k: int| i <= k < j ==> is_digit(#[trigger] s@[k]),
        ensures
            i <= j <= n,
            forall|k: int| i <= k < j ==> is_digit(#[trigger] s@[k]),
            j == n || !is_digit(s@[j as int]),
        decreases n - j,
    {
        let c = s.get_char(j);
        if !digit_ex(c) {
            break ;
        }
        j = j + 1;
    }
    proof {
        let sub = s@.skip(i as int);
        assert(forall|k: int| 0 <= k < j - i ==> is_digit(#[trigger] sub[k])) by {
            assert(forall|k: int| 0 <= k < j - i ==> sub[k] == s@[i + k]);
        }
        if j < n {
            assert(sub[j - i] == s@[j as int]);
        }
        lemma_digit_run_len_eq(sub, j - i);
    }
    j
}

/// First position in `[i, j)` that does not hold the digit zero.
fn skip_zeros(s: &str, n: usize, i: usize, j: usize) -> (z: usize)
    requires
        n == s@.len(),
        i <= j <= n,
    ensures
        i <= z <= j,
        forall|k: int| i <= k < z ==> #[trigger] (s@[k] as u32) == '0' as u32,
        z == j || s@[z as int] as u32 != '0' as u32,
{
    let mut z = i;
    while z < j
        invariant_except_break
            n == s@.len(),
            i <= z <= j <= n,
            forall|k: int| i <= k < z ==> #[trigger] (s@[k] as u32) == '0' as u32,
        ensures
            i <= z <= j,
            forall|k: int| i <= k < z ==> #[trigger] (s@[k] as u32) == '0' as u32,
            z == j || s@[z as int] as u32 != '0' as u32,
        decreases j - z,
    {
        let c = s.get_char(z);
        let u: u32 = c as u32;
        if u != 48 {
            break ;
        }
        z = z + 1;
    }
    z
}

/// Numeric comparison of the digit runs `a[ai..la]` and `b[bi..lb]`.
fn cmp_runs(a: &str, an: usize, ai: usize, la: usize, b: &str, bn: usize, bi: usize, lb: usize) -> (r:
    Ordering)
    requires
        an == a@.len(),
        bn == b@.len(),
        ai <= la <= an,
        bi <= lb <= bn,
        forall|k: int| ai <= k < la ==> is_digit(#[trigger] a@[k]),
        forall|k: int| bi <= k < lb ==> is_digit(#[trigger] b@[k]),
    ensures
        ({
            let va = num_value(a@.subrange(ai as int, la as int));
            let vb = num_value(b@.subrange(bi as int, lb as int));
            ord_int(r) == (if va < vb {
                -1int
            } else if va > vb {
                1int
            } else {
                0int
            })
        }),
{
    let ghost ra = a@.subrange(ai as int, la as int);
    let ghost rb = b@.subrange(bi as int, lb as int);
    proof {
        assert(forall|k: int| 0 <= k < ra.len() ==> ra[k] == a@[ai + k]);
        assert(forall|k: int| 0 <= k < rb.len() ==> rb[k] == b@[bi + k]);
        assert(all_digits(ra));
        assert(all_digits(rb));
    }
    let za = skip_zeros(a, an, ai, la);
    let zb = skip_zeros(b, bn, bi, lb);
    let ghost ea_s = a@.subrange(za as int, la as int);
    let ghost eb_s = b@.subrange(zb as int, lb as int);
    proof {
        assert(ra.skip(za - ai) =~= ea_s);
        assert(rb.skip(zb - bi) =~= eb_s);
        assert(forall|k: int| 0 <= k < za - ai ==> #[trigger] (ra[k] as u32) == '0' as u32) by {
            assert(forall|k: int| 0 <= k < za - ai ==> ra[k] == a@[ai + k]);
        }
        assert(forall|k: int| 0 <= k < zb - bi ==> #[trigger] (rb[k] as u32) == '0' as u32) by {
            assert(forall|k: int| 0 <= k < zb - bi ==> rb[k] == b@[bi + k]);
        }
        lemma_num_value_strip_zeros_codes(ra, za - ai);
        lemma_num_value_strip_zeros_codes(rb, zb - bi);
        assert(num_value(ra) == num_value(ea_s));
        assert(num_value(rb) == num_value(eb_s));
        assert(all_digits(ea_s));
        assert(all_digits(eb_s));
    }
    let ea = la - za;
    let eb = lb - zb;
    if ea < eb {
        proof {
            lemma_num_value_bound(ea_s);
            lemma_num_value_lower(eb_s);
            lemma_pow10_mono(ea as nat, (eb - 1) as nat);
        }
        Ordering::Less
    } else if ea > eb {
        proof {
            lemma_num_value_bound(eb_s);
            lemma_num_value_lower(ea_s);
            lemma_pow10_mono(eb as nat, (ea - 1) as nat);
        }
        Ordering::Greater
    } else {
        let mut k: usize = 0;
        while k < ea
            invariant_except_break
                an == a@.len(),
                bn == b@.len(),
                ai <= za <= la <= an,
                bi <= zb <= lb <= bn,
                ea == la - za,
                ea == lb - zb,
                ea_s == a@.subrange(za as int, la as int),
                eb_s == b@.subrange(zb as int, lb as int),
                k <= ea,
                forall|m: int| 0 <= m < k ==> #[trigger] (ea_s[m] as u32) == eb_s[m] as u32,
            ensures
                an == a@.len(),
                bn == b@.len(),
                ai <= za <= la <= an,
                bi <= zb <= lb <= bn,
                k <= ea,
                forall|m: int| 0 <= m < k ==> #[trigger] (ea_s[m] as u32) == eb_s[m] as u32,
                k == ea || ea_s[k as int] as u32 != eb_s[k as int] as u32,
            decreases ea - k,
        {
            let ca = a.get_char(za + k);
            let cb = b.get_char(zb + k);
            let ua: u32 = ca as u32;
            let ub: u32 = cb as u32;
            proof {
                assert(ea_s[k as int] == a@[za + k]);
                assert(eb_s[k as int] == b@[zb + k]);
            }
            if ua != ub {
                break ;
            }
            k = k + 1;
        }
        if k == ea {
            proof {
                lemma_num_value_codes(ea_s, eb_s);
            }
            Ordering::Equal
        } else {
            let ca = a.get_char(za + k);
            let cb = b.get_char(zb + k);
            let ua: u32 = ca as u32;
            let ub: u32 = cb as u32;
            proof {
                assert(ea_s[k as int] == a@[za + k]);
                assert(eb_s[k as int] == b@[zb + k]);
            }
            if ua < ub {
                proof {
                    lemma_num_value_lex(ea_s, eb_s, k as int);
                }
                Ordering::Less
            } else {
                proof {
                    lemma_num_value_lex(eb_s, ea_s, k as int);
                }
                Ordering::Greater
            }
        }
    }
}

/// Stripping leading zeros, given by their code points, does not
/// change the numeric value.
proof fn lemma_num_value_strip_zeros_codes(s: Seq<char>, z: int)
    requires
        0 <= z <= s.len(),
        forall|i: int| 0 <= i < z ==> #[trigger] (s[i] as u32) == '0' as u32,
    ensures
        num_value(s) == num_value(s.skip(z)),
{
    assert(s =~= s.take(z) + s.skip(z));
    lemma_num_value_concat(s.take(z), s.skip(z));
    lemma_num_value_zeros_codes(s.take(z));
}

proof fn lemma_num_value_zeros_codes(s: Seq<char>)
    requires
        forall|i: int| 0 <= i < s.len() ==> #[trigger] (s[i] as u32) == '0' as u32,
    ensures
        num_value(s) == 0,
    decreases s.len(),
{
    if s.len() > 0 {
        assert(forall|i: int| 0 <= i < s.len() - 1 ==> #[trigger] (s.drop_last()[i] as u32)
            == '0' as u32) by {
            assert(forall|i: int| 0 <= i < s.len() - 1 ==> s.drop_last()[i] == s[i]);
        }
        lemma_num_value_zeros_codes(s.drop_last());
        assert(digit_val(s.last()) == 0);
    }
}

/// The full alternating comparison, from positions `ai` and `bi` on.
fn cmp_from(a: &str, an: usize, ai: usize, b: &str, bn: usize, bi: usize, digit_phase: bool) -> (r:
    Ordering)
    requires
        an == a@.len(),
        bn == b@.len(),
        ai <= an,
        bi <= bn,
    ensures
        ord_int(r) == cmp_ver(a@.skip(ai as int), b@.skip(bi as int), digit_phase),
    decreases an - ai + bn - bi, (if digit_phase { 0int } else { 1int }),
{
    let ghost sa = a@.skip(ai as int);
    let ghost sb = b@.skip(bi as int);
    if !digit_phase {
        let ha = nd_head_at(a, an, ai);
        let hb = nd_head_at(b, bn, bi);
        match (ha, hb) {
            (Some(ca), Some(cb)) => {
                if ca as u32 == cb as u32 {
                    proof {
                        assert(sa[0] == ca && sb[0] == cb);
                        assert(a@.skip(ai + 1) =~= sa.drop_first());
                        assert(b@.skip(bi + 1) =~= sb.drop_first());
                    }
                    cmp_from(a, an, ai + 1, b, bn, bi + 1, false)
                } else {
                    proof {
                        assert(sa[0] == ca && sb[0] == cb);
                    }
                    cmp_heads(ha, hb)
                }
            },
            (None, None) => {
                if ai == an && bi == bn {
                    Ordering::Equal
                } else {
                    cmp_from(a, an, ai, b, bn, bi, true)
                }
            },
            _ => cmp_heads(ha, hb),
        }
    } else {
        let la = digit_run_end(a, an, ai);
        let lb = digit_run_end(b, bn, bi);
        proof {
            assert(sa.take(la - ai) =~= a@.subrange(ai as int, la as int));
            assert(sb.take(lb - bi) =~= b@.subrange(bi as int, lb as int));
        }
        if la == ai && lb == bi {
            Ordering::Equal
        } else {
            let c = cmp_runs(a, an, ai, la, b, bn, bi, lb);
            match c {
                Ordering::Equal => {
                    proof {
                        assert(sa.skip(la - ai) =~= a@.skip(la as int));
                        assert(sb.skip(lb - bi) =~= b@.skip(lb as int));
                    }
                    cmp_from(a, an, la, b, bn, lb, false)
                },
                _ => c,
            }
        }
    }
}

/// Comparison of the non-digit runs at the front of `a` and `b`, as the
/// first phase of the version string order does it: `Equal` means both
/// runs ended (a digit or the end of the string) with no difference found.
pub fn cmp_non_digit(a: &str, b: &str) -> (r: Ordering)
    ensures
        ord_int(r) == cmp_nd(a@, b@),
{
    let an = a.unicode_len();
    let bn = b.unicode_len();
    proof {
        assert(a@.skip(0) =~= a@);
        assert(b@.skip(0) =~= b@);
    }
    cmp_nd_from(a, an, 0, b, bn, 0)
}

fn cmp_nd_from(a: &str, an: usize, ai: usize, b: &str, bn: usize, bi: usize) -> (r: Ordering)
    requires
        an == a@.len(),
        bn == b@.len(),
        ai <= an,
        bi <= bn,
    ensures
        ord_int(r) == cmp_nd(a@.skip(ai as int), b@.skip(bi as int)),
    decreases an - ai + bn - bi,
{
    let ghost sa = a@.skip(ai as int);
    let ghost sb = b@.skip(bi as int);
    let ha = nd_head_at(a, an, ai);
    let hb = nd_head_at(b, bn, bi);
    match (ha, hb) {
        (Some(ca), Some(cb)) => {
            if ca as u32 == cb as u32 {
                proof {
                    assert(sa[0] == ca && sb[0] == cb);
                    assert(a@.skip(ai + 1) =~= sa.drop_first());
                    assert(b@.skip(bi + 1) =~= sb.drop_first());
                }
                cmp_nd_from(a, an, ai + 1, b, bn, bi + 1)
            } else {
                proof {
                    assert(sa[0] == ca && sb[0] == cb);
                }
                cmp_heads(ha, hb)
            }
        },
        _ => cmp_heads(ha, hb),
    }
}

/// The version string order on whole strings, beginning in the non-digit
/// phase.
pub fn cmp_string(a: &str, b: &str) -> (r: Ordering)
    ensures
        ord_int(r) == cmp_ver(a@, b@, false),
{
    let an = a.unicode_len();
    let bn = b.unicode_len();
    proof {
        assert(a@.skip(0) =~= a@);
        assert(b@.skip(0) =~= b@);
    }
    cmp_from(a, an, 0, b, bn, 0, false)
}

// ---------------------------------------------------------------------------
// Laws of the string order
// ---------------------------------------------------------------------------

/// A difference found between the leading non-digit runs decides the
/// whole string order.
pub proof fn lemma_cmp_nd_decides(a: Seq<char>, b: Seq<char>)
    ensures
        cmp_nd(a, b) != 0 ==> cmp_ver(a, b, false) == cmp_nd(a, b),
    decreases a.len() + b.len(),
{
    if nd_head(a) is Some && nd_head(b) is Some && a[0] as u32 == b[0] as u32 {
        lemma_cmp_nd_decides(a.drop_first(), b.drop_first());
    }
}

/// The string order is reflexive.
pub proof fn lemma_cmp_ver_refl(s: Seq<char>, digit_phase: bool)
    ensures
        cmp_ver(s, s, digit_phase) == 0,
    decreases s.len(), (if digit_phase { 0int } else { 1int }),
{
    if !digit_phase {
        if nd_head(s) is Some {
            lemma_cmp_ver_refl(s.drop_first(), false);
        } else if s.len() > 0 {
            lemma_cmp_ver_refl(s, true);
        }
    } else {
        let l = digit_run_len(s);
        if l > 0 {
            lemma_digit_run_len_le(s);
            lemma_cmp_ver_refl(s.skip(l as int), false);
        }
    }
}

/// Swapping the arguments negates the string order.
pub proof fn lemma_cmp_ver_neg(a: Seq<char>, b: Seq<char>, digit_phase: bool)
    ensures
        cmp_ver(a, b, digit_phase) == -cmp_ver(b, a, digit_phase),
    decreases a.len() + b.len(), (if digit_phase { 0int } else { 1int }),
{
    if !digit_phase {
        if nd_head(a) is Some && nd_head(b) is Some && a[0] as u32 == b[0] as u32 {
            lemma_cmp_ver_neg(a.drop_first(), b.drop_first(), false);
        } else if nd_head(a) is None && nd_head(b) is None {
            if a.len() == 0 && b.len() == 0 {
            } else {
                lemma_cmp_ver_neg(a, b, true);
            }
        }
    } else {
        let la = digit_run_len(a);
        let lb = digit_run_len(b);
        if la == 0 && lb == 0 {
        } else {
            let va = num_value(a.take(la as int));
            let vb = num_value(b.take(lb as int));
            if va == vb {
                lemma_digit_run_len_le(a);
                lemma_digit_run_len_le(b);
                lemma_cmp_ver_neg(a.skip(la as int), b.skip(lb as int), false);
            }
        }
    }
}

/// The string order is transitive, strictly so as soon as one of the two
/// given comparisons is strict. In the digit phase the three strings must
/// each start with a digit run (possibly empty at their end), which is the
/// only way that phase is ever entered.
pub proof fn lemma_cmp_ver_trans(a: Seq<char>, b: Seq<char>, c: Seq<char>, digit_phase: bool)
    requires
        cmp_ver(a, b, digit_phase) <= 0,
        cmp_ver(b, c, digit_phase) <= 0,
        digit_phase ==> nd_head(a) is None && nd_head(b) is None && nd_head(c) is None,
    ensures
        cmp_ver(a, c, digit_phase) <= 0,
        cmp_ver(a, b, digit_phase) < 0 || cmp_ver(b, c, digit_phase) < 0 ==> cmp_ver(
            a,
            c,
            digit_phase,
        ) < 0,
    decreases a.len() + b.len() + c.len(), (if digit_phase { 0int } else { 1int }),
{
    if !digit_phase {
        let ha = nd_head(a);
        let hb = nd_head(b);
        let hc = nd_head(c);
        let gab = ha is Some && hb is Some && a[0] as u32 == b[0] as u32;
        let gbc = hb is Some && hc is Some && b[0] as u32 == c[0] as u32;
        if gab && gbc {
            lemma_cmp_ver_trans(a.drop_first(), b.drop_first(), c.drop_first(), false);
        } else if gab {
            // (b, c) and (a, c) are both decided by their heads, which agree
            // since the heads of a and b carry the same code point.
            assert(head_class(ha) == head_class(hb) && head_code(ha) == head_code(hb));
        } else if gbc {
            assert(head_class(hb) == head_class(hc) && head_code(hb) == head_code(hc));
        } else if ha is None && hb is None {
            if hc is Some {
                // cmp(b, c) is decided by the heads; it is at most zero only
                // when c starts with a tilde, which would make it positive:
                // contradiction or a decided negative answer.
                assert(cmp_ver(b, c, false) == cmp_head(hb, hc));
            } else {
                // all three heads are absent
                if a.len() == 0 && b.len() == 0 {
                    assert(a =~= b);
                } else if b.len() == 0 && c.len() == 0 {
                    assert(c =~= b);
                } else if a.len() == 0 && c.len() == 0 {
                    // b is not empty; its digit run must have value zero or
                    // one of the hypotheses is violated
                    let lb = digit_run_len(b);
                    lemma_digit_run_len_le(b);
                    assert(lb > 0);
                    let vb = num_value(b.take(lb as int));
                    assert(cmp_ver(a, b, false) == cmp_ver(a, b, true));
                    assert(cmp_ver(b, c, false) == cmp_ver(b, c, true));
                    assert(num_value(a.take(0)) == 0 && num_value(c.take(0)) == 0) by {
                        assert(a.take(0) =~= Seq::<char>::empty());
                        assert(c.take(0) =~= Seq::<char>::empty());
                    }
                    assert(vb == 0);
                    assert(a.skip(0) =~= a);
                    assert(c.skip(0) =~= c);
                    lemma_cmp_ver_trans(a, b.skip(lb as int), c, false);
                    assert(cmp_ver(a, c, false) == 0);
                } else {
                    lemma_cmp_ver_trans(a, b, c, true);
                }
            }
        } else if ha is None {
            // hb is Some; cmp(a, b) is decided by the heads and is negative,
            // so b does not start with a tilde
            assert(cmp_ver(a, b, false) == cmp_head(ha, hb));
            if hc is Some {
                assert(cmp_ver(b, c, false) == cmp_head(hb, hc));
            }
        } else if hb is None {
            // ha is Some; cmp(a, b) <= 0 forces a to start with a tilde
            assert(cmp_ver(a, b, false) == cmp_head(ha, hb));
            assert(head_class(ha) == 0);
            if hc is None {
                assert(cmp_ver(a, c, false) == cmp_head(ha, hc));
            } else {
                assert(cmp_ver(b, c, false) == cmp_head(hb, hc));
            }
        } else {
            // both heads present with distinct codes: keys decide, and keys
            // are functions of the code points, so they chain transitively
            assert(cmp_ver(a, b, false) == cmp_head(ha, hb));
            if hc is None {
                assert(cmp_ver(b, c, false) == cmp_head(hb, hc));
            } else if hb is Some && hc is Some && b[0] as u32 == c[0] as u32 {
                assert(head_class(hb) == head_class(hc) && head_code(hb) == head_code(hc));
            } else {
                assert(cmp_ver(b, c, false) == cmp_head(hb, hc));
            }
        }
    } else {
        let la = digit_run_len(a);
        let lb = digit_run_len(b);
        let lc = digit_run_len(c);
        lemma_digit_run_len_le(a);
        lemma_digit_run_len_le(b);
        lemma_digit_run_len_le(c);
        let va = num_value(a.take(la as int));
        let vb = num_value(b.take(lb as int));
        let vc = num_value(c.take(lc as int));
        // a head that is absent means the string is empty or starts a digit
        // run, so a zero run length pins the string as empty
        if la == 0 && lb == 0 {
            assert(a =~= b);
        } else if lb == 0 && lc == 0 {
            assert(c =~= b);
        } else if la == 0 && lc == 0 {
            assert(va == 0 && vc == 0) by {
                assert(a.take(0) =~= Seq::<char>::empty());
                assert(c.take(0) =~= Seq::<char>::empty());
            }
            assert(va <= vb && vb <= vc);
            assert(vb == 0);
            assert(cmp_ver(a, b, true) == cmp_ver(a.skip(0), b.skip(lb as int), false));
            assert(cmp_ver(b, c, true) == cmp_ver(b.skip(lb as int), c.skip(0), false));
            assert(a.skip(0) =~= a);
            assert(c.skip(0) =~= c);
            lemma_cmp_ver_trans(a, b.skip(lb as int), c, false);
            assert(cmp_ver(a, c, false) == 0);
        } else {
            assert(va <= vb && vb <= vc);
            if va < vc {
                assert(cmp_ver(a, c, true) == -1);
            } else {
                assert(va == vb && vb == vc);
                lemma_cmp_ver_trans(a.skip(la as int), b.skip(lb as int), c.skip(lc as int), false);
            }
        }
    }
}

// ---------------------------------------------------------------------------
// Locating split points
// ---------------------------------------------------------------------------

/// Position of the first character of `s` with the code point of `c`,
/// or -1 when there is none.
pub open spec fn find_first(s: Seq<char>, c: char) -> int
    decreases s.len(),
{
    if s.len() == 0 {
        -1
    } else if s[0] as u32 == c as u32 {
        0
    } else if find_first(s.drop_first(), c) < 0 {
        -1
    } else {
        1 + find_first(s.drop_first(), c)
    }
}

/// Position of the last character of `s` with the code point of `c`,
/// or -1 when there is none.
pub open spec fn find_last(s: Seq<char>, c: char) -> int
    decreases s.len(),
{
    if s.len() == 0 {
        -1
    } else if s[s.len() - 1] as u32 == c as u32 {
        s.len() - 1
    } else {
        find_last(s.drop_last(), c)
    }
}

pub proof fn lemma_find_first_found(s: Seq<char>, c: char, n: int)
    requires
        0 <= n < s.len(),
        s[n] as u32 == c as u32,
        forall|k: int| 0 <= k < n ==> #[trigger] (s[k] as u32) != c as u32,
    ensures
        find_first(s, c) == n,
    decreases s.len(),
{
    if n > 0 {
        assert(forall|k: int| 0 <= k < n - 1 ==> s.drop_first()[k] == s[k + 1]);
        lemma_find_first_found(s.drop_first(), c, n - 1);
    }
}

pub proof fn lemma_find_first_none(s: Seq<char>, c: char)
    requires
        forall|k: int| 0 <= k < s.len() ==> #[trigger] (s[k] as u32) != c as u32,
    ensures
        find_first(s, c) == -1,
    decreases s.len(),
{
    if s.len() > 0 {
        assert(forall|k: int| 0 <= k < s.len() - 1 ==> s.drop_first()[k] == s[k + 1]);
        lemma_find_first_none(s.drop_first(), c);
    }
}

pub proof fn lemma_find_last_found(s: Seq<char>, c: char, n: int)
    requires
        0 <= n < s.len(),
        s[n] as u32 == c as u32,
        forall|k: int| n < k < s.len() ==> #[trigger] (s[k] as u32) != c as u32,
    ensures
        find_last(s, c) == n,
    decreases s.len(),
{
    if n < s.len() - 1 {
        assert(forall|k: int| 0 <= k < s.len() - 1 ==> s.drop_last()[k] == s[k]);
        lemma_find_last_found(s.drop_last(), c, n);
    }
}

pub proof fn lemma_find_last_none(s: Seq<char>, c: char)
    requires
        forall|k: int| 0 <= k < s.len() ==> #[trigger] (s[k] as u32) != c as u32,
    ensures
        find_last(s, c) == -1,
    decreases s.len(),
{
    if s.len() > 0 {
        assert(forall|k: int| 0 <= k < s.len() - 1 ==> s.drop_last()[k] == s[k]);
        lemma_find_last_none(s.drop_last(), c);
    }
}

/// First occurrence of the code point of `c` in `s`.
pub(crate) fn find_char(s: &str, n: usize, c: char) -> (r: Option<usize>)
    requires
        n == s@.len(),
    ensures
        match r {
            Some(i) => i < n && find_first(s@, c) == i,
            None => find_first(s@, c) == -1,
        },
{
    let mut i: usize = 0;
    while i < n
        invariant
            n == s@.len(),
            i <= n,
            forall|k: int| 0 <= k < i ==> #[trigger] (s@[k] as u32) != c as u32,
        decreases n - i,
    {
        let ci = s.get_char(i);
        if ci as u32 == c as u32 {
            proof {
                lemma_find_first_found(s@, c, i as int);
            }
            return Some(i);
        }
        i = i + 1;
    }
    proof {
        lemma_find_first_none(s@, c);
    }
    None
}

/// Last occurrence of the code point of `c` in `s`.
pub(crate) fn rfind_char(s: &str, n: usize, c: char) -> (r: Option<usize>)
    requires
        n == s@.len(),
    ensures
        match r {
            Some(i) => i < n && find_last(s@, c) == i,
            None => find_last(s@, c) == -1,
        },
{
    let mut i: usize = n;
    while i > 0
        invariant
            n == s@.len(),
            i <= n,
            forall|k: int| i <= k < n ==> #[trigger] (s@[k] as u32) != c as u32,
        decreases i,
    {
        i = i - 1;
        let ci = s.get_char(i);
        if ci as u32 == c as u32 {
            proof {
                lemma_find_last_found(s@, c, i as int);
            }
            return Some(i);
        }
    }
    proof {
        lemma_find_last_none(s@, c);
    }
    None
}

// ---------------------------------------------------------------------------
// Epoch numbers
// ---------------------------------------------------------------------------

/// Why an epoch failed to parse as a decimal number.
#[derive(Clone, Copy, Debug, PartialEq, Eq, Structural)]
pub enum EpochErrorKind {
    /// The epoch text was empty.
    Empty,
    /// The epoch text held a character that is no decimal digit.
    InvalidDigit,
    /// The epoch number does not fit the machine word.
    PosOverflow,
}

/// The epoch digits: one optional leading `+` sign is allowed.
pub open spec fn sign_stripped(s: Seq<char>) -> Seq<char> {
    if s.len() > 0 && s[0] as u32 == '+' as u32 {
        s.drop_first()
    } else {
        s
    }
}

pub open spec fn is_dec_digits(s: Seq<char>) -> bool {
    s.len() > 0 && all_digits(s)
}

/// What parsing a non-negative decimal number returns: the numeric value
/// of the digits after an optional sign, or the reason it is rejected.
pub open spec fn spec_parse_u64(s: Seq<char>) -> Result<u64, EpochErrorKind> {
    if s.len() == 0 {
        Err(EpochErrorKind::Empty)
    } else {
        let d = sign_stripped(s);
        if !is_dec_digits(d) {
            Err(EpochErrorKind::InvalidDigit)
        } else if num_value(d) > u64::MAX {
            Err(EpochErrorKind::PosOverflow)
        } else {
            Ok(num_value(d) as u64)
        }
    }
}

/// Parses a non-negative decimal number with an optional `+` sign.
fn parse_u64(s: &str) -> (r: Result<u64, EpochErrorKind>)
    ensures
        r == spec_parse_u64(s@),
{
    let n = s.unicode_len();
    if n == 0 {
        return Err(EpochErrorKind::Empty);
    }
    let first = s.get_char(0);
    let start: usize = if first as u32 == 43 {
        1
    } else {
        0
    };
    let ghost d = sign_stripped(s@);
    proof {
        if start == 1 {
            assert(d =~= s@.skip(1));
        } else {
            assert(d =~= s@.skip(0));
        }
        assert(d.len() == n - start);
        assert(forall|k: int| 0 <= k < d.len() ==> d[k] == s@[start + k]);
    }
    if start == n {
        return Err(EpochErrorKind::InvalidDigit);
    }
    // first pass: every remaining character must be a digit
    let mut i = start;
    while i < n
        invariant
            n == s@.len(),
            start <= i <= n,
            d == sign_stripped(s@),
            d.len() == n - start,
            forall|k: int| 0 <= k < d.len() ==> d[k] == s@[start + k],
            forall|k: int| start <= k < i ==> is_digit(#[trigger] s@[k]),
        decreases n - i,
    {
        let c = s.get_char(i);
        if !digit_ex(c) {
            proof {
                assert(d[i - start] == s@[i as int]);
                assert(!all_digits(d));
            }
            return Err(EpochErrorKind::InvalidDigit);
        }
        i = i + 1;
    }
    proof {
        assert(forall|k: int| 0 <= k < d.len() ==> is_digit(#[trigger] d[k])) by {
            assert(forall|k: int| 0 <= k < d.len() ==> d[k] == s@[start + k]);
        }
        assert(is_dec_digits(d));
    }
    // second pass: accumulate, watching for overflow
    let mut acc: u64 = 0;
    let mut j = start;
    while j < n
        invariant
            n == s@.len(),
            start <= j <= n,
            d == sign_stripped(s@),
            d.len() == n - start,
            forall|k: int| 0 <= k < d.len() ==> d[k] == s@[start + k],
            is_dec_digits(d),
            forall|k: int| start <= k < n ==> is_digit(#[trigger] s@[k]),
            acc == num_value(d.take(j - start)),
        decreases n - j,
    {
        let c = s.get_char(j);
        let u: u32 = c as u32;
        proof {
            assert(s@[j as int] == c);
            assert(is_digit(s@[j as int]));
        }
        let dv: u64 = (u - 48) as u64;
        let limit: u64 = 1844674407370955161;
        let ghost p = d.take(j - start + 1);
        proof {
            assert(p.drop_last() =~= d.take(j - start));
            assert(p.last() == d[j - start] && d[j - start] == s@[j as int]);
            assert(num_value(p) == acc * 10 + dv);
        }
        if acc > limit || (acc == limit && dv > 5) {
            proof {
                assert(num_value(p) > u64::MAX);
                lemma_num_value_prefix_le(d, j - start + 1);
                assert(num_value(d) > u64::MAX);
            }
            return Err(EpochErrorKind::PosOverflow);
        }
        proof {
            assert(acc * 10 + dv <= u64::MAX);
        }
        acc = acc * 10 + dv;
        j = j + 1;
    }
    proof {
        assert(d.take(n - start) =~= d);
        assert(num_value(d) == acc);
    }
    Ok(acc)
}

// ---------------------------------------------------------------------------
// Version values
// ---------------------------------------------------------------------------

/// The text before the first `:`, if any: the explicit epoch.
pub open spec fn epoch_text(s: Seq<char>) -> Option<Seq<char>> {
    let i = find_first(s, ':');
    if i >= 0 {
        Some(s.take(i))
    } else {
        None
    }
}

/// The text after the first `:`, or the whole string without one.
pub open spec fn rest_text(s: Seq<char>) -> Seq<char> {
    let i = find_first(s, ':');
    if i >= 0 {
        s.skip(i + 1)
    } else {
        s
    }
}

/// The upstream part: the rest up to the last `-`, or all of it.
pub open spec fn upstream_text(s: Seq<char>) -> Seq<char> {
    let r = rest_text(s);
    let j = find_last(r, '-');
    if j >= 0 {
        r.take(j)
    } else {
        r
    }
}

/// The revision: what follows the last `-` of the rest, or nothing.
pub open spec fn revision_text(s: Seq<char>) -> Seq<char> {
    let r = rest_text(s);
    let j = find_last(r, '-');
    if j >= 0 {
        r.skip(j + 1)
    } else {
        Seq::empty()
    }
}

/// What the epoch of `s` parses to: zero when no `:` is present.
pub open spec fn spec_epoch(s: Seq<char>) -> Result<u64, EpochErrorKind> {
    match epoch_text(s) {
        None => Ok(0),
        Some(e) => spec_parse_u64(e),
    }
}

/// A version string is accepted unless its explicit epoch is malformed.
pub open spec fn version_parses(s: Seq<char>) -> bool {
    spec_epoch(s) is Ok
}

pub open spec fn epoch_val(s: Seq<char>) -> u64 {
    match spec_epoch(s) {
        Ok(v) => v,
        Err(_) => 0,
    }
}

/// The mathematical content of a version: its three components, plus the
/// original text it was read from.
#[verifier::ext_equal]
pub ghost struct VersionModel {
    pub epoch: u64,
    pub upstream: Seq<char>,
    pub revision: Seq<char>,
    pub original: Seq<char>,
}

/// Component-wise comparison: the epoch decides first, then the upstream
/// part, then the revision, the latter two under the string order.
pub open spec fn spec_version_cmp(a: VersionModel, b: VersionModel) -> int {
    if a.epoch < b.epoch {
        -1
    } else if a.epoch > b.epoch {
        1
    } else if cmp_ver(a.upstream, b.upstream, false) != 0 {
        cmp_ver(a.upstream, b.upstream, false)
    } else {
        cmp_ver(a.revision, b.revision, false)
    }
}

/// Two versions are equal when their three components agree; the retained
/// original text takes no part in it.
pub open spec fn version_eq(a: VersionModel, b: VersionModel) -> bool {
    a.epoch == b.epoch && a.upstream == b.upstream && a.revision == b.revision
}

/// The error returned for a version whose epoch is no decimal number.
/// It carries the offending epoch text.
#[derive(Clone, Debug)]
pub struct VersionEpochError {
    pub kind: EpochErrorKind,
    pub text: String,
}

impl VersionEpochError {
    /// The reason the epoch was rejected.
    pub fn kind(&self) -> (r: EpochErrorKind)
        ensures
            r == self.kind,
    {
        self.kind
    }
}

/// A package version: a numeric epoch (zero unless written as an `epoch:`
/// prefix), an upstream part, and a revision (what follows the last `-`,
/// empty without one). The original text is retained verbatim, so that
/// formatting a parsed version reproduces its input exactly.
#[derive(Debug)]
pub struct Version {
    epoch: u64,
    upstream: String,
    revision: String,
    original: String,
}

impl View for Version {
    type V = VersionModel;

    closed spec fn view(&self) -> VersionModel {
        VersionModel {
            epoch: self.epoch,
            upstream: self.upstream@,
            revision: self.revision@,
            original: self.original@,
        }
    }
}

/// The components of a well-formed version are exactly what parsing its
/// retained original yields.
pub open spec fn version_wf(m: VersionModel) -> bool {
    &&& version_parses(m.original)
    &&& m.epoch == epoch_val(m.original)
    &&& m.upstream == upstream_text(m.original)
    &&& m.revision == revision_text(m.original)
}

/// The model a string parses to, meaningful when `version_parses` holds.
pub open spec fn version_model_of(s: Seq<char>) -> VersionModel {
    VersionModel {
        epoch: epoch_val(s),
        upstream: upstream_text(s),
        revision: revision_text(s),
        original: s,
    }
}

impl Version {
    /// The components are exactly what parsing the retained original
    /// yields.
    pub open spec fn wf(&self) -> bool {
        version_wf(self@)
    }

    /// Parses a version string: an optional `epoch:` prefix before the
    /// first `:` must be a decimal number; the remainder splits at its
    /// last `-` into upstream part and revision. The one way to fail is a
    /// malformed epoch.
    pub fn parse(s: &str) -> (r: Result<Version, VersionEpochError>)
        ensures
            r is Ok <==> version_parses(s@),
            match r {
                Ok(v) => v.wf() && v@.original == s@ && v@ == version_model_of(s@),
                Err(e) => {
                    &&& find_first(s@, ':') >= 0
                    &&& e.text@ == s@.take(find_first(s@, ':'))
                    &&& spec_parse_u64(e.text@) == Err::<u64, EpochErrorKind>(e.kind)
                },
            },
    {
        let n = s.unicode_len();
        let colon = find_char(s, n, ':');
        let epoch: u64;
        let rest_start: usize;
        match colon {
            None => {
                epoch = 0;
                rest_start = 0;
            },
            Some(i) => {
                let etext = s.substring_char(0, i);
                proof {
                    assert(etext@ =~= s@.take(i as int));
                }
                match parse_u64(etext) {
                    Err(k) => {
                        return Err(VersionEpochError { kind: k, text: etext.to_owned() });
                    },
                    Ok(e) => {
                        epoch = e;
                        rest_start = i + 1;
                    },
                }
            },
        }
        let rest = s.substring_char(rest_start, n);
        let rn = n - rest_start;
        proof {
            assert(rest@ =~= rest_text(s@));
            assert(rest@.len() == rn);
        }
        let dash = rfind_char(rest, rn, '-');
        let upstream: String;
        let revision: String;
        match dash {
            None => {
                upstream = rest.to_owned();
                revision = String::new();
            },
            Some(j) => {
                let u = rest.substring_char(0, j);
                let v = rest.substring_char(j + 1, rn);
                proof {
                    assert(u@ =~= rest@.take(j as int));
                    assert(v@ =~= rest@.skip(j + 1));
                }
                upstream = u.to_owned();
                revision = v.to_owned();
            },
        }
        Ok(Version { epoch, upstream, revision, original: s.to_owned() })
    }

    /// The numeric epoch.
    pub fn epoch(&self) -> (r: u64)
        ensures
            r == self@.epoch,
    {
        self.epoch
    }

    /// The upstream part.
    pub fn version(&self) -> (r: &str)
        ensures
            r@ == self@.upstream,
    {
        self.upstream.as_str()
    }

    /// The revision; empty when the version has none.
    pub fn revision(&self) -> (r: &str)
        ensures
            r@ == self@.revision,
    {
        self.revision.as_str()
    }

    /// The original text, verbatim.
    pub fn as_str(&self) -> (r: &str)
        ensures
            r@ == self@.original,
    {
        self.original.as_str()
    }

    /// The total order over versions.
    pub fn cmp(&self, other: &Version) -> (r: Ordering)
        ensures
            ord_int(r) == spec_version_cmp(self@, other@),
    {
        if self.epoch < other.epoch {
            return Ordering::Less;
        }
        if self.epoch > other.epoch {
            return Ordering::Greater;
        }
        let up = cmp_string(self.upstream.as_str(), other.upstream.as_str());
        match up {
            Ordering::Equal => cmp_string(self.revision.as_str(), other.revision.as_str()),
            _ => up,
        }
    }
}

impl Clone for Version {
    fn clone(&self) -> (r: Self)
        ensures
            r == *self,
    {
        Version {
            epoch: self.epoch,
            upstream: self.upstream.clone(),
            revision: self.revision.clone(),
            original: self.original.clone(),
        }
    }
}

impl PartialEq for Version {
    fn eq(&self, other: &Self) -> (r: bool) {
        self.epoch == other.epoch && self.upstream == other.upstream && self.revision
            == other.revision
    }
}

impl vstd::std_specs::cmp::PartialEqSpecImpl for Version {
    open spec fn obeys_eq_spec() -> bool {
        true
    }

    open spec fn eq_spec(&self, other: &Self) -> bool {
        version_eq(self@, other@)
    }
}

impl Eq for Version {

}

// ---------------------------------------------------------------------------
// Laws of the version order
// ---------------------------------------------------------------------------

/// The version comparison is reflexive.
pub proof fn lemma_version_cmp_reflexive(a: VersionModel)
    ensures
        spec_version_cmp(a, a) == 0,
{
    lemma_cmp_ver_refl(a.upstream, false);
    lemma_cmp_ver_refl(a.revision, false);
}

/// Swapping the arguments negates the version comparison.
pub proof fn lemma_version_cmp_antisymmetric(a: VersionModel, b: VersionModel)
    ensures
        spec_version_cmp(a, b) == -spec_version_cmp(b, a),
{
    lemma_cmp_ver_neg(a.upstream, b.upstream, false);
    lemma_cmp_ver_neg(a.revision, b.revision, false);
}

/// The version comparison is transitive, strictly so as soon as one of
/// the two given comparisons is strict.
pub proof fn lemma_version_cmp_transitive(a: VersionModel, b: VersionModel, c: VersionModel)
    requires
        spec_version_cmp(a, b) <= 0,
        spec_version_cmp(b, c) <= 0,
    ensures
        spec_version_cmp(a, c) <= 0,
        spec_version_cmp(a, b) < 0 || spec_version_cmp(b, c) < 0 ==> spec_version_cmp(a, c) < 0,
{
    if a.epoch == b.epoch && b.epoch == c.epoch {
        let uab = cmp_ver(a.upstream, b.upstream, false);
        let ubc = cmp_ver(b.upstream, c.upstream, false);
        lemma_cmp_ver_trans(a.upstream, b.upstream, c.upstream, false);
        if uab == 0 && ubc == 0 {
            // the upstream comparison of a and c is exactly zero
            lemma_cmp_ver_neg(a.upstream, b.upstream, false);
            lemma_cmp_ver_neg(b.upstream, c.upstream, false);
            lemma_cmp_ver_neg(a.upstream, c.upstream, false);
            lemma_cmp_ver_trans(c.upstream, b.upstream, a.upstream, false);
            lemma_cmp_ver_trans(a.revision, b.revision, c.revision, false);
        }
    }
}

/// Versions with equal components compare as equal.
pub proof fn lemma_version_eq_cmp(a: VersionModel, b: VersionModel)
    requires
        version_eq(a, b),
    ensures
        spec_version_cmp(a, b) == 0,
{
    lemma_cmp_ver_refl(a.upstream, false);
    lemma_cmp_ver_refl(a.revision, false);
}

/// The digit-run length is pinned by its characterisation.
proof fn lemma_digit_run_len_eq(s: Seq<char>, n: int)
    requires
        0 <= n <= s.len(),
        forall|k: int| 0 <= k < n ==> is_digit(#[trigger] s[k]),
        n == s.len() || !is_digit(s[n]),
    ensures
        digit_run_len(s) == n,
    decreases s.len(),
{
    if n == 0 {
    } else {
        assert(is_digit(s[0]));
        assert(forall|k: int| 0 <= k < n - 1 ==> is_digit(#[trigger] s.drop_first()[k]));
        lemma_digit_run_len_eq(s.drop_first(), n - 1);
    }
}

} // verus!
