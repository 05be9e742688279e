//! Exact decimal arithmetic for the language's number values.
//!
//! A number literal or arithmetic result is held as a sign, an integer
//! mantissa and a decimal scale: the value is `mant / 10^scale`, negated when
//! the sign is set.  Division by zero yields the signed infinite values and
//! the not-a-number value, which also travel through arithmetic; a result
//! whose exact mantissa would not fit the mantissa word is reported as out of
//! range rather than rounded.
use vstd::prelude::*;
use vstd::string::*;

use crate::token::char_to_string;

verus! {

/// A finite decimal: `(-1)^neg * mant / 10^scale`.
#[derive(Clone, Copy, PartialEq, Eq, Structural)]
pub struct Dec {
    pub neg: bool,
    pub mant: u128,
    pub scale: u32,
}

/// A number value: finite, infinite (the flag is the sign) or not-a-number.
#[derive(Clone, Copy, PartialEq, Eq, Structural)]
pub enum Num {
    Fin(Dec),
    Inf(bool),
    Nan,
}

/// The order of two numbers, when they are ordered at all.
#[derive(Clone, Copy, PartialEq, Eq, Structural)]
pub enum Cmp {
    Lt,
    Eq,
    Gt,
}

pub open spec fn pow10(e: nat) -> nat
    decreases e,
{
    if e == 0 {
        1
    } else {
        10 * pow10((e - 1) as nat)
    }
}

pub open spec fn sig(neg: bool) -> int {
    if neg {
        -1
    } else {
        1
    }
}

/// The signed mantissa of a finite decimal.
pub open spec fn ival(d: Dec) -> int {
    sig(d.neg) * d.mant
}

/// The signed integer `10^s` times the value of `d`, for any `s` at least
/// `d.scale`: the common ground on which two decimals are compared or added.
pub open spec fn scaled(d: Dec, s: nat) -> int
    recommends
        d.scale <= s,
{
    ival(d) * pow10((s - d.scale) as nat)
}

pub proof fn lemma_pow10_pos(e: nat)
    ensures
        pow10(e) >= 1,
    decreases e,
{
    if e > 0 {
        lemma_pow10_pos((e - 1) as nat);
    }
}

pub proof fn lemma_pow10_add(a: nat, b: nat)
    ensures
        pow10(a + b) == pow10(a) * pow10(b),
    decreases a,
{
    if a == 0 {
        assert(pow10(a + b) == pow10(b));
        assert(pow10(a) * pow10(b) == 1 * pow10(b));
        assert(1 * pow10(b) == pow10(b));
    } else {
        lemma_pow10_add((a - 1) as nat, b);
        assert(pow10(a + b) == 10 * pow10((a + b - 1) as nat));
        assert(10 * (pow10((a - 1) as nat) * pow10(b)) == (10 * pow10((a - 1) as nat)) * pow10(b))
            by (nonlinear_arith);
    }
}

pub proof fn lemma_pow10_mono(a: nat, b: nat)
    requires
        a <= b,
    ensures
        pow10(a) <= pow10(b),
    decreases b,
{
    if a < b {
        lemma_pow10_mono(a, (b - 1) as nat);
        lemma_pow10_pos((b - 1) as nat);
    }
}

pub open spec fn is_digit(c: char) -> bool {
    48 <= c as u32 && c as u32 <= 57
}

pub open spec fn digit_val(c: char) -> nat {
    (c as u32 - 48) as nat
}

pub open spec fn all_digits(s: Seq<char>) -> bool {
    forall|i: int| 0 <= i < s.len() ==> is_digit(#[trigger] s[i])
}

/// The natural number a digit string denotes, most significant digit first.
pub open spec fn digits_val(s: Seq<char>) -> nat
    decreases s.len(),
{
    if s.len() == 0 {
        0
    } else {
        digits_val(s.drop_last()) * 10 + digit_val(s.last())
    }
}

/// The index of the first `.` in `s`, or `s.len()` when there is none.
pub open spec fn first_dot(s: Seq<char>) -> int
    decreases s.len(),
{
    if s.len() == 0 {
        0
    } else if s[0] == '.' {
        0
    } else {
        1 + first_dot(s.subrange(1, s.len() as int))
    }
}

pub proof fn lemma_first_dot_range(s: Seq<char>)
    ensures
        0 <= first_dot(s) <= s.len(),
        forall|i: int| 0 <= i < first_dot(s) ==> #[trigger] s[i] != '.',
        first_dot(s) < s.len() ==> s[first_dot(s)] == '.',
    decreases s.len(),
{
    if s.len() > 0 && s[0] != '.' {
        let sub = s.subrange(1, s.len() as int);
        lemma_first_dot_range(sub);
        assert forall|i: int| 0 <= i < first_dot(s) implies #[trigger] s[i] != '.' by {
            if i > 0 {
                assert(sub[i - 1] == s[i]);
            }
        }
        if first_dot(s) < s.len() {
            assert(sub[first_dot(sub)] == s[first_dot(s)]);
        }
    }
}

/// The digit characters of a decimal magnitude text: the digits before the
/// first dot followed by those after it.
pub open spec fn mag_digits(s: Seq<char>) -> Seq<char> {
    let d = first_dot(s);
    if d < s.len() {
        s.subrange(0, d) + s.subrange(d + 1, s.len() as int)
    } else {
        s
    }
}

/// The number of fractional digits of a decimal magnitude text.
pub open spec fn mag_scale(s: Seq<char>) -> int {
    let d = first_dot(s);
    if d < s.len() {
        s.len() - d - 1
    } else {
        0
    }
}

/// A well-formed unsigned decimal magnitude: a nonempty run of digits,
/// optionally followed by a dot and a nonempty run of digits.
pub open spec fn wf_mag(s: Seq<char>) -> bool {
    let d = first_dot(s);
    &&& d > 0
    &&& all_digits(s.subrange(0, d))
    &&& (d < s.len() ==> s.len() - d - 1 > 0 && all_digits(s.subrange(d + 1, s.len() as int)))
}

/// A well-formed signed decimal numeral: an optional leading minus sign
/// before a well-formed magnitude.
pub open spec fn wf_numeral(s: Seq<char>) -> bool {
    if s.len() > 0 && s[0] == '-' {
        wf_mag(s.subrange(1, s.len() as int))
    } else {
        wf_mag(s)
    }
}

/// The magnitude part of a signed numeral.
pub open spec fn numeral_mag(s: Seq<char>) -> Seq<char> {
    if s.len() > 0 && s[0] == '-' {
        s.subrange(1, s.len() as int)
    } else {
        s
    }
}

pub open spec fn numeral_neg(s: Seq<char>) -> bool {
    s.len() > 0 && s[0] == '-'
}

/// Whether a well-formed numeral's mantissa and scale fit the finite
/// representation.
pub open spec fn numeral_fits(s: Seq<char>) -> bool {
    digits_val(mag_digits(numeral_mag(s))) <= u128::MAX && mag_scale(numeral_mag(s)) <= u32::MAX
}

/// The finite decimal a well-formed, fitting numeral denotes.
pub open spec fn numeral_dec(s: Seq<char>) -> Dec {
    Dec {
        neg: numeral_neg(s),
        mant: digits_val(mag_digits(numeral_mag(s))) as u128,
        scale: mag_scale(numeral_mag(s)) as u32,
    }
}

/// What parsing a literal text yields: one of the three special spellings,
/// or a finite decimal when the text is a fitting numeral, or nothing.
pub open spec fn spec_parse_num(s: Seq<char>) -> Option<Num> {
    if s == "inf"@ {
        Some(Num::Inf(false))
    } else if s == "-inf"@ {
        Some(Num::Inf(true))
    } else if s == "NaN"@ {
        Some(Num::Nan)
    } else if wf_numeral(s) && numeral_fits(s) {
        Some(Num::Fin(numeral_dec(s)))
    } else {
        None
    }
}

/// Splitting a digit string multiplies the left part's value by ten to the
/// length of the right part.
pub proof fn lemma_digits_val_concat(a: Seq<char>, b: Seq<char>)
    ensures
        digits_val(a + b) == digits_val(a) * pow10(b.len()) + digits_val(b),
    decreases b.len(),
{
    if b.len() == 0 {
        assert(a + b =~= a);
        assert(pow10(0) == 1);
    } else {
        lemma_digits_val_concat(a, b.drop_last());
        assert((a + b).drop_last() =~= a + b.drop_last());
        assert((a + b).last() == b.last());
        assert(digits_val(a + b) == digits_val(a + b.drop_last()) * 10 + digit_val(b.last()));
        lemma_pow10_add((b.len() - 1) as nat, 1);
        assert(pow10(1) == 10 * pow10(0));
        assert((digits_val(a) * pow10((b.len() - 1) as nat) + digits_val(b.drop_last())) * 10
            == digits_val(a) * (pow10((b.len() - 1) as nat) * 10) + digits_val(b.drop_last()) * 10)
            by (nonlinear_arith);
        assert(pow10(b.len()) == 10 * pow10((b.len() - 1) as nat));
    }
}

proof fn lemma_accum_step(s: Seq<char>, from: int, i: int, acc: nat, cur: nat)
    requires
        0 <= from <= i < s.len(),
        cur == acc * pow10((i - from) as nat) + digits_val(s.subrange(from, i)),
    ensures
        cur * 10 + digit_val(s[i]) == acc * pow10((i + 1 - from) as nat) + digits_val(
            s.subrange(from, i + 1),
        ),
{
    assert(s.subrange(from, i + 1).drop_last() =~= s.subrange(from, i));
    assert(s.subrange(from, i + 1).last() == s[i]);
    assert(digits_val(s.subrange(from, i + 1)) == digits_val(s.subrange(from, i)) * 10 + digit_val(
        s[i],
    ));
    assert(pow10((i + 1 - from) as nat) == 10 * pow10((i - from) as nat));
    assert((acc * pow10((i - from) as nat) + digits_val(s.subrange(from, i))) * 10 == acc * (10
        * pow10((i - from) as nat)) + digits_val(s.subrange(from, i)) * 10) by (nonlinear_arith);
}

proof fn lemma_accum_overflow(s: Seq<char>, from: int, i: int, to: int, acc: nat, cur: nat)
    requires
        0 <= from <= i < to <= s.len(),
        cur == acc * pow10((i - from) as nat) + digits_val(s.subrange(from, i)),
    ensures
        acc * pow10((to - from) as nat) + digits_val(s.subrange(from, to)) >= cur * 10 + digit_val(
            s[i],
        ),
{
    let rest = (to - i - 1) as nat;
    lemma_accum_step(s, from, i, acc, cur);
    let head = s.subrange(from, i + 1);
    let tail = s.subrange(i + 1, to);
    assert(s.subrange(from, to) =~= head + tail);
    lemma_digits_val_concat(head, tail);
    lemma_pow10_add((i + 1 - from) as nat, rest);
    lemma_pow10_pos(rest);
    let v1 = (acc * pow10((i + 1 - from) as nat) + digits_val(head)) as int;
    let ai = acc as int;
    let pi = pow10((i + 1 - from) as nat) as int;
    let hi = digits_val(head) as int;
    let qi = pow10(rest) as int;
    assert(ai * (pi * qi) + hi * qi == (ai * pi + hi) * qi) by (nonlinear_arith);
    assert(v1 * qi >= v1 * 1) by (nonlinear_arith)
        requires
            qi >= 1,
            v1 >= 0,
    ;
}

pub fn is_digit_exec(c: char) -> (r: bool)
    ensures
        r == is_digit(c),
{
    let u: u32 = c as u32;
    48 <= u && u <= 57
}

/// Accumulates the digits of `s` between `from` and `to` onto `acc`,
/// reporting overflow of the mantissa word as `None`.
fn accum_digits(s: &str, from: usize, to: usize, acc: u128) -> (r: Option<u128>)
    requires
        from <= to <= s@.len(),
        all_digits(s@.subrange(from as int, to as int)),
    ensures
        r is Some ==> r->0 == acc * pow10((to - from) as nat) + digits_val(
            s@.subrange(from as int, to as int),
        ),
        r is None ==> acc * pow10((to - from) as nat) + digits_val(
            s@.subrange(from as int, to as int),
        ) > u128::MAX,
{
    let mut i = from;
    let mut cur = acc;
    proof {
        assert(s@.subrange(from as int, from as int) =~= Seq::<char>::empty());
        assert(pow10(0) == 1);
        assert(acc * 1 == acc);
    }
    while i < to
        invariant
            from <= i <= to <= s@.len(),
            all_digits(s@.subrange(from as int, to as int)),
            cur == acc * pow10((i - from) as nat) + digits_val(s@.subrange(from as int, i as int)),
        decreases to - i,
    {
        let c = s.get_char(i);
        proof {
            assert(s@.subrange(from as int, to as int)[i - from] == s@[i as int]);
        }
        let d: u32 = c as u32 - 48;
        let step = cur.checked_mul(10);
        match step {
            Some(c10) => {
                let next = c10.checked_add(d as u128);
                match next {
                    Some(v) => {
                        proof {
                            lemma_accum_step(s@, from as int, i as int, acc as nat, cur as nat);
                        }
                        cur = v;
                        i = i + 1;
                    },
                    None => {
                        proof {
                            lemma_accum_overflow(s@, from as int, i as int, to as int, acc as nat,
                                cur as nat);
                        }
                        return None;
                    },
                }
            },
            None => {
                proof {
                    lemma_accum_overflow(s@, from as int, i as int, to as int, acc as nat,
                        cur as nat);
                }
                return None;
            },
        }
    }
    proof {
        assert(s@.subrange(from as int, i as int) =~= s@.subrange(from as int, to as int));
    }
    Some(cur)
}

/// A string of digits holds no dot.
pub proof fn lemma_all_digits_no_first_dot(s: Seq<char>)
    requires
        all_digits(s),
    ensures
        first_dot(s) == s.len(),
{
    lemma_first_dot_range(s);
    if first_dot(s) < s.len() {
        assert(is_digit(s[first_dot(s)]));
        assert(s[first_dot(s)] == '.');
        assert(('.') as u32 == 46);
    }
}

/// The first dot is exactly the first position holding a dot.
proof fn lemma_first_dot_at(s: Seq<char>, p: int)
    requires
        0 <= p < s.len(),
        s[p] == '.',
        forall|j: int| 0 <= j < p ==> #[trigger] s[j] != '.',
    ensures
        first_dot(s) == p,
{
    lemma_first_dot_range(s);
    if first_dot(s) < p {
        assert(s[first_dot(s)] != '.');
    }
    if first_dot(s) > p {
        assert(s[p] != '.');
    }
}

/// Parses a number literal: an optional minus sign and a decimal magnitude,
/// or one of the spellings `inf`, `-inf`, `NaN`.  Yields nothing when the
/// text has any other shape or its exact value does not fit the mantissa
/// word.
#[verifier::rlimit(100)]
pub fn parse_num(s: &str) -> (r: Option<Num>)
    ensures
        r == spec_parse_num(s@),
{
    let owned = s.to_owned();
    if owned == String::from_str("inf") {
        return Some(Num::Inf(false));
    }
    if owned == String::from_str("-inf") {
        return Some(Num::Inf(true));
    }
    if owned == String::from_str("NaN") {
        return Some(Num::Nan);
    }
    let n = s.unicode_len();
    if n == 0 {
        return None;
    }
    let neg = s.get_char(0) == '-';
    let start: usize = if neg { 1 } else { 0 };
    let ghost m = s@.subrange(start as int, n as int);
    proof {
        assert(numeral_neg(s@) == neg);
        assert(numeral_mag(s@) =~= m);
    }
    // scan the integer-part digits
    let mut i = start;
    while i < n && is_digit_exec(s.get_char(i))
        invariant
            start <= i <= n == s@.len(),
            forall|j: int| start <= j < i ==> is_digit(#[trigger] s@[j]),
        decreases n - i,
    {
        i = i + 1;
    }
    let d_end = i;
    proof {
        assert forall|k: int| 0 <= k < m.len() implies m[k] == s@[start + k] by {}
    }
    if d_end == start {
        // no leading digit: either an immediate dot or a stray character
        proof {
            if m.len() == 0 {
                assert(first_dot(m) == 0);
            } else {
                assert(!is_digit(s@[start as int]));
                lemma_first_dot_range(m);
                if m[0] == '.' {
                    lemma_first_dot_at(m, 0);
                } else {
                    let fd = first_dot(m);
                    assert(fd > 0 ==> !is_digit(m.subrange(0, fd)[0]));
                }
            }
            assert(!wf_mag(m));
        }
        return None;
    }
    if d_end < n {
        let c = s.get_char(d_end);
        if c != '.' {
            // a non-digit other than a dot ends the magnitude: malformed
            proof {
                let p = d_end - start;
                lemma_first_dot_range(m);
                let fd = first_dot(m);
                if fd < m.len() && fd <= p {
                    assert(m[fd] == '.');
                    assert(is_digit(m[fd]) || fd == p);
                    assert(false);
                }
                if wf_mag(m) {
                    assert(fd > p);
                    assert(!is_digit(m.subrange(0, fd)[p]));
                    assert(false);
                }
            }
            return None;
        }
        // fractional digits
        let mut j = d_end + 1;
        while j < n && is_digit_exec(s.get_char(j))
            invariant
                d_end + 1 <= j <= n == s@.len(),
                forall|k: int| d_end + 1 <= k < j ==> is_digit(#[trigger] s@[k]),
            decreases n - j,
        {
            j = j + 1;
        }
        proof {
            lemma_first_dot_at(m, d_end - start);
        }
        if j < n {
            // a second non-digit inside the fraction: malformed
            proof {
                let frac = m.subrange(d_end - start + 1, m.len() as int);
                assert(frac[j - d_end - 1] == s@[j as int]);
                assert(!wf_mag(m));
            }
            return None;
        }
        if d_end + 1 == n {
            // a trailing dot with no fraction: malformed
            proof {
                assert(!wf_mag(m));
            }
            return None;
        }
        proof {
            assert(wf_mag(m));
            assert(m.subrange(0, d_end - start) =~= s@.subrange(start as int, d_end as int));
            assert(m.subrange(d_end - start + 1, m.len() as int) =~= s@.subrange(
                d_end + 1,
                n as int,
            ));
            assert(mag_digits(m) =~= s@.subrange(start as int, d_end as int) + s@.subrange(
                d_end + 1,
                n as int,
            ));
        }
        let head = match accum_digits(s, start, d_end, 0) {
            Some(v) => v,
            None => {
                proof {
                    lemma_whole_at_least_head(s@, start as int, d_end as int, n as int);
                }
                return None;
            },
        };
        proof {
            assert(head * pow10((n - d_end - 1) as nat) + digits_val(
                s@.subrange(d_end + 1, n as int),
            ) == digits_val(mag_digits(m))) by {
                lemma_digits_val_concat(
                    s@.subrange(start as int, d_end as int),
                    s@.subrange(d_end + 1, n as int),
                );
                assert(head == 0 * pow10((d_end - start) as nat) + digits_val(
                    s@.subrange(start as int, d_end as int),
                ));
            }
        }
        let mant = match accum_digits(s, d_end + 1, n, head) {
            Some(v) => v,
            None => {
                return None;
            },
        };
        let frac_len = n - d_end - 1;
        if frac_len > u32::MAX as usize {
            proof {
                assert(mag_scale(m) > u32::MAX);
            }
            return None;
        }
        proof {
            assert(mag_scale(m) == frac_len);
            assert(numeral_fits(s@));
        }
        Some(Num::Fin(Dec { neg, mant, scale: frac_len as u32 }))
    } else {
        // digits to the end of the text: an integer numeral
        proof {
            assert(all_digits(m));
            lemma_all_digits_no_first_dot(m);
            assert(wf_mag(m));
            assert(mag_digits(m) == m);
            assert(mag_scale(m) == 0);
            assert(m =~= s@.subrange(start as int, n as int));
        }
        let mant = match accum_digits(s, start, n, 0) {
            Some(v) => v,
            None => {
                return None;
            },
        };
        proof {
            assert(mant == 0 * pow10((n - start) as nat) + digits_val(m));
        }
        Some(Num::Fin(Dec { neg, mant, scale: 0 }))
    }
}

/// The value of all the magnitude's digits is at least the value of its
/// integer-part digits.
proof fn lemma_whole_at_least_head(s: Seq<char>, start: int, d_end: int, n: int)
    requires
        0 <= start <= d_end < n <= s.len(),
    ensures
        digits_val(s.subrange(start, d_end) + s.subrange(d_end + 1, n)) >= digits_val(
            s.subrange(start, d_end),
        ),
{
    let a = s.subrange(start, d_end);
    let b = s.subrange(d_end + 1, n);
    lemma_digits_val_concat(a, b);
    lemma_pow10_pos(b.len());
    assert(digits_val(a) * pow10(b.len()) >= digits_val(a) * 1) by (nonlinear_arith)
        requires
            pow10(b.len()) >= 1,
    ;
}

pub open spec fn digit_char(d: nat) -> char {
    ((48 + d) as u8) as char
}

/// The decimal digit characters of `n`, most significant first.
pub open spec fn digits_of(n: nat) -> Seq<char>
    decreases n,
{
    if n < 10 {
        seq![digit_char(n)]
    } else {
        digits_of(n / 10).push(digit_char(n % 10))
    }
}

/// Strips trailing fractional zeros: divides the mantissa by ten as long as
/// that is exact and some scale remains.
pub open spec fn canon_mant(m: nat, s: nat) -> (nat, nat)
    decreases s,
{
    if s > 0 && m % 10 == 0 {
        canon_mant(m / 10, (s - 1) as nat)
    } else {
        (m, s)
    }
}

pub open spec fn zeros(n: nat) -> Seq<char>
    decreases n,
{
    if n == 0 {
        Seq::<char>::empty()
    } else {
        zeros((n - 1) as nat).push('0')
    }
}

/// The canonical text of an unsigned decimal `m / 10^s`: trailing
/// fractional zeros dropped, a dot only when fractional digits remain, and
/// a single leading zero in front of a bare fraction.
pub open spec fn dec_body(m: nat, s: nat) -> Seq<char> {
    let c = canon_mant(m, s);
    let ds = digits_of(c.0);
    if c.1 == 0 {
        ds
    } else if ds.len() > c.1 {
        ds.subrange(0, ds.len() - c.1) + seq!['.'] + ds.subrange(ds.len() - c.1, ds.len() as int)
    } else {
        seq!['0', '.'] + zeros((c.1 - ds.len()) as nat) + ds
    }
}

/// The surface text of a number value.
pub open spec fn spec_num_str(x: Num) -> Seq<char> {
    match x {
        Num::Fin(d) => if d.neg {
            seq!['-'] + dec_body(d.mant as nat, d.scale as nat)
        } else {
            dec_body(d.mant as nat, d.scale as nat)
        },
        Num::Inf(neg) => if neg {
            "-inf"@
        } else {
            "inf"@
        },
        Num::Nan => "NaN"@,
    }
}

/// Whether the canonical text of a finite value is rendered with a forced
/// `.0` in its decoded literal: it must be a whole number small enough for
/// a 32-bit signed reading of the text.
pub open spec fn literal_gets_point_zero(d: Dec) -> bool {
    let c = canon_mant(d.mant as nat, d.scale as nat);
    c.1 == 0 && c.0 <= (if d.neg {
        2147483648nat
    } else {
        2147483647nat
    })
}

/// The decoded literal of a number value: the surface text, with `.0`
/// appended for small whole numbers.
pub open spec fn spec_num_literal(x: Num) -> Seq<char> {
    match x {
        Num::Fin(d) => if literal_gets_point_zero(d) {
            spec_num_str(x) + ".0"@
        } else {
            spec_num_str(x)
        },
        _ => spec_num_str(x),
    }
}

/// The digit characters of `m`, most significant first.
fn digits_string(m: u128) -> (r: String)
    ensures
        r@ == digits_of(m as nat),
    decreases m,
{
    let d: u8 = 48 + (m % 10) as u8;
    let c: char = d as char;
    proof {
        assert(c == digit_char((m % 10) as nat));
    }
    if m < 10 {
        char_to_string(c)
    } else {
        let mut s = digits_string(m / 10);
        let tail = char_to_string(c);
        s.append(tail.as_str());
        proof {
            assert(s@ =~= digits_of(m as nat));
        }
        s
    }
}

/// A run of `n` zero characters.
fn zeros_string(n: usize) -> (r: String)
    ensures
        r@ == zeros(n as nat),
{
    let mut s = String::new();
    let mut i: usize = 0;
    while i < n
        invariant
            i <= n,
            s@ == zeros(i as nat),
        decreases n - i,
    {
        s.append("0");
        i = i + 1;
        proof {
            reveal_strlit("0");
            assert(s@ =~= zeros(i as nat));
        }
    }
    s
}

/// Drops trailing fractional zeros from a mantissa and scale.
fn canon(m: u128, s: u32) -> (r: (u128, u32))
    ensures
        (r.0 as nat, r.1 as nat) == canon_mant(m as nat, s as nat),
{
    let mut cm = m;
    let mut cs = s;
    while cs > 0 && cm % 10 == 0
        invariant
            canon_mant(cm as nat, cs as nat) == canon_mant(m as nat, s as nat),
        decreases cs,
    {
        cm = cm / 10;
        cs = cs - 1;
    }
    (cm, cs)
}

/// Renders a number value as its surface text and its decoded literal.
pub fn num_strings(x: &Num) -> (r: (String, String))
    ensures
        r.0@ == spec_num_str(*x),
        r.1@ == spec_num_literal(*x),
{
    match x {
        Num::Inf(neg) => {
            if *neg {
                (String::from_str("-inf"), String::from_str("-inf"))
            } else {
                (String::from_str("inf"), String::from_str("inf"))
            }
        },
        Num::Nan => (String::from_str("NaN"), String::from_str("NaN")),
        Num::Fin(d) => {
            let c = canon(d.mant, d.scale);
            let cm = c.0;
            let cs = c.1;
            let dstr = digits_string(cm);
            let dl = dstr.as_str().unicode_len();
            let body: String = if cs == 0 {
                dstr
            } else if dl > cs as usize {
                let cut = dl - cs as usize;
                let mut b = dstr.as_str().substring_char(0, cut).to_owned();
                b.append(".");
                b.append(dstr.as_str().substring_char(cut, dl));
                proof {
                    reveal_strlit(".");
                    assert(b@ =~= dec_body(d.mant as nat, d.scale as nat));
                }
                b
            } else {
                let mut b = String::from_str("0.");
                let z = zeros_string(cs as usize - dl);
                b.append(z.as_str());
                b.append(dstr.as_str());
                proof {
                    reveal_strlit("0.");
                    assert("0."@ =~= seq!['0', '.']);
                    assert(b@ =~= dec_body(d.mant as nat, d.scale as nat));
                }
                b
            };
            let lexeme: String = if d.neg {
                let mut out = String::from_str("-");
                out.append(body.as_str());
                proof {
                    reveal_strlit("-");
                    assert(out@ =~= spec_num_str(*x));
                }
                out
            } else {
                body
            };
            let whole_limit: u128 = if d.neg {
                2147483648
            } else {
                2147483647
            };
            let literal: String = if cs == 0 && cm <= whole_limit {
                let mut lit = lexeme.clone();
                lit.append(".0");
                lit
            } else {
                lexeme.clone()
            };
            (lexeme, literal)
        },
    }
}

pub open spec fn iabs(x: int) -> nat {
    if x >= 0 {
        x as nat
    } else {
        (-x) as nat
    }
}

/// The larger of the two scales: the common scale at which the decimals are
/// compared or added.
pub open spec fn max_scale(a: Dec, b: Dec) -> nat {
    if a.scale >= b.scale {
        a.scale as nat
    } else {
        b.scale as nat
    }
}

pub open spec fn dec_lt(a: Dec, b: Dec) -> bool {
    scaled(a, max_scale(a, b)) < scaled(b, max_scale(a, b))
}

pub open spec fn dec_eq_val(a: Dec, b: Dec) -> bool {
    scaled(a, max_scale(a, b)) == scaled(b, max_scale(a, b))
}

/// Strict order on numbers, neither being not-a-number: the negative
/// infinite value below every finite value, the positive one above.
pub open spec fn num_lt(x: Num, y: Num) -> bool {
    match (x, y) {
        (Num::Inf(a), Num::Inf(b)) => a && !b,
        (Num::Inf(a), Num::Fin(_)) => a,
        (Num::Fin(_), Num::Inf(b)) => !b,
        (Num::Fin(a), Num::Fin(b)) => dec_lt(a, b),
        _ => false,
    }
}

/// Numeric equality on numbers, neither being not-a-number.
pub open spec fn num_eq_val(x: Num, y: Num) -> bool {
    match (x, y) {
        (Num::Inf(a), Num::Inf(b)) => a == b,
        (Num::Fin(a), Num::Fin(b)) => dec_eq_val(a, b),
        _ => false,
    }
}

/// `scaled` is the sign applied to the aligned magnitude.
proof fn lemma_scaled_split(d: Dec, s: nat)
    requires
        d.scale <= s,
    ensures
        scaled(d, s) == sig(d.neg) * ((d.mant * pow10((s - d.scale) as nat)) as int),
        d.mant == 0 ==> scaled(d, s) == 0,
        d.mant > 0 && !d.neg ==> scaled(d, s) > 0,
        d.mant > 0 && d.neg ==> scaled(d, s) < 0,
        iabs(scaled(d, s)) == d.mant * pow10((s - d.scale) as nat),
{
    let p = pow10((s - d.scale) as nat);
    lemma_pow10_pos((s - d.scale) as nat);
    assert((sig(d.neg) * d.mant) * p == sig(d.neg) * ((d.mant * p) as int)) by (nonlinear_arith);
    assert(d.mant > 0 ==> d.mant * p >= 1 * p) by (nonlinear_arith);
}

/// Multiplies by a power of ten, reporting overflow of the mantissa word.
fn mul_pow10(m: u128, e: u32) -> (r: Option<u128>)
    ensures
        r is Some ==> m * pow10(e as nat) <= u128::MAX && r->0 == m * pow10(e as nat),
        r is None ==> m * pow10(e as nat) > u128::MAX,
{
    let mut i: u32 = 0;
    let mut cur = m;
    proof {
        assert(pow10(0) == 1);
        assert(m * 1 == m) by (nonlinear_arith);
    }
    while i < e
        invariant
            i <= e,
            cur == m * pow10(i as nat),
        decreases e - i,
    {
        match cur.checked_mul(10) {
            Some(v) => {
                proof {
                    assert((m * pow10(i as nat)) * 10 == m * (10 * pow10(i as nat)))
                        by (nonlinear_arith);
                }
                cur = v;
                i = i + 1;
            },
            None => {
                proof {
                    assert((m * pow10(i as nat)) * 10 == m * (10 * pow10(i as nat)))
                        by (nonlinear_arith);
                    lemma_pow10_mono((i + 1) as nat, e as nat);
                    assert(m * pow10((i + 1) as nat) <= m * pow10(e as nat)) by (nonlinear_arith)
                        requires
                            pow10((i + 1) as nat) <= pow10(e as nat),
                            m >= 0,
                    ;
                }
                return None;
            },
        }
    }
    Some(cur)
}

/// Compares two finite decimals by value.
fn dec_cmp(a: Dec, b: Dec) -> (r: Cmp)
    ensures
        (r == Cmp::Lt) == dec_lt(a, b),
        (r == Cmp::Gt) == dec_lt(b, a),
        (r == Cmp::Eq) == dec_eq_val(a, b),
{
    proof {
        lemma_scaled_split(a, max_scale(a, b));
        lemma_scaled_split(b, max_scale(a, b));
    }
    if a.mant == 0 && b.mant == 0 {
        Cmp::Eq
    } else if a.mant == 0 {
        if b.neg {
            Cmp::Gt
        } else {
            Cmp::Lt
        }
    } else if b.mant == 0 {
        if a.neg {
            Cmp::Lt
        } else {
            Cmp::Gt
        }
    } else if a.neg != b.neg {
        if a.neg {
            Cmp::Lt
        } else {
            Cmp::Gt
        }
    } else {
        // same sign, both magnitudes positive: compare aligned magnitudes
        let ghost s = max_scale(a, b);
        let ghost maga = (a.mant * pow10((s - a.scale) as nat)) as int;
        let ghost magb = (b.mant * pow10((s - b.scale) as nat)) as int;
        proof {
            assert(pow10(0) == 1);
        }
        let mag: Cmp = if a.scale == b.scale {
            proof {
                assert(s == a.scale as nat);
                assert((s - a.scale) as nat == 0 && (s - b.scale) as nat == 0);
                assert(pow10(0) == 1);
                assert(a.mant * pow10(0) == a.mant) by (nonlinear_arith);
                assert(b.mant * pow10(0) == b.mant) by (nonlinear_arith);
                assert(maga == a.mant && magb == b.mant);
            }
            if a.mant < b.mant {
                Cmp::Lt
            } else if a.mant == b.mant {
                Cmp::Eq
            } else {
                Cmp::Gt
            }
        } else if a.scale < b.scale {
            proof {
                assert(s == b.scale as nat);
                assert((s - b.scale) as nat == 0);
                assert(pow10(0) == 1);
                assert(b.mant * pow10(0) == b.mant) by (nonlinear_arith);
                assert(magb == b.mant);
            }
            match mul_pow10(a.mant, b.scale - a.scale) {
                Some(ma) => {
                    proof {
                        assert(maga == ma);
                    }
                    if ma < b.mant {
                        Cmp::Lt
                    } else if ma == b.mant {
                        Cmp::Eq
                    } else {
                        Cmp::Gt
                    }
                },
                None => {
                    proof {
                        assert(maga > u128::MAX >= magb);
                    }
                    Cmp::Gt
                },
            }
        } else {
            proof {
                assert(s == a.scale as nat);
                assert((s - a.scale) as nat == 0);
                assert(pow10(0) == 1);
                assert(a.mant * pow10(0) == a.mant) by (nonlinear_arith);
                assert(maga == a.mant);
            }
            match mul_pow10(b.mant, a.scale - b.scale) {
                Some(mb) => {
                    proof {
                        assert(magb == mb);
                    }
                    if a.mant < mb {
                        Cmp::Lt
                    } else if a.mant == mb {
                        Cmp::Eq
                    } else {
                        Cmp::Gt
                    }
                },
                None => {
                    proof {
                        assert(magb > u128::MAX >= maga);
                    }
                    Cmp::Lt
                },
            }
        };
        proof {
            assert(maga < magb ==> sig(a.neg) * maga < sig(a.neg) * magb || a.neg)
                by (nonlinear_arith);
            assert(maga < magb && a.neg ==> sig(a.neg) * maga > sig(a.neg) * magb)
                by (nonlinear_arith);
            assert(maga > magb ==> sig(a.neg) * maga > sig(a.neg) * magb || a.neg)
                by (nonlinear_arith);
            assert(maga > magb && a.neg ==> sig(a.neg) * maga < sig(a.neg) * magb)
                by (nonlinear_arith);
        }
        if a.neg {
            match mag {
                Cmp::Lt => Cmp::Gt,
                Cmp::Eq => Cmp::Eq,
                Cmp::Gt => Cmp::Lt,
            }
        } else {
            mag
        }
    }
}

/// Compares two numbers; `None` when either is not-a-number, which is
/// ordered with nothing.
pub fn num_cmp(a: &Num, b: &Num) -> (r: Option<Cmp>)
    ensures
        (r is None) == (*a is Nan || *b is Nan),
        (r == Some(Cmp::Lt)) == (!(*a is Nan || *b is Nan) && num_lt(*a, *b)),
        (r == Some(Cmp::Gt)) == (!(*a is Nan || *b is Nan) && num_lt(*b, *a)),
        (r == Some(Cmp::Eq)) == (!(*a is Nan || *b is Nan) && num_eq_val(*a, *b)),
{
    match (a, b) {
        (Num::Nan, _) => None,
        (_, Num::Nan) => None,
        (Num::Inf(x), Num::Inf(y)) => {
            if *x == *y {
                Some(Cmp::Eq)
            } else if *x {
                Some(Cmp::Lt)
            } else {
                Some(Cmp::Gt)
            }
        },
        (Num::Inf(x), Num::Fin(_)) => {
            if *x {
                Some(Cmp::Lt)
            } else {
                Some(Cmp::Gt)
            }
        },
        (Num::Fin(_), Num::Inf(y)) => {
            if *y {
                Some(Cmp::Gt)
            } else {
                Some(Cmp::Lt)
            }
        },
        (Num::Fin(x), Num::Fin(y)) => Some(dec_cmp(*x, *y)),
    }
}


/// The exact sum of two finite decimals at their common scale, when both
/// aligned mantissas and the sum's magnitude fit the mantissa word.
pub open spec fn spec_dec_add(a: Dec, b: Dec) -> Option<Dec> {
    let s = max_scale(a, b);
    let la = a.mant * pow10((s - a.scale) as nat);
    let lb = b.mant * pow10((s - b.scale) as nat);
    let sum = scaled(a, s) + scaled(b, s);
    if la <= u128::MAX && lb <= u128::MAX && iabs(sum) <= u128::MAX {
        Some(
            Dec {
                neg: if sum > 0 {
                    false
                } else if sum < 0 {
                    true
                } else {
                    a.neg && b.neg
                },
                mant: iabs(sum) as u128,
                scale: s as u32,
            },
        )
    } else {
        None
    }
}

pub open spec fn flip_sign(d: Dec) -> Dec {
    Dec { neg: !d.neg, mant: d.mant, scale: d.scale }
}

/// The exact product of two finite decimals, when mantissa and scale fit.
pub open spec fn spec_dec_mul(a: Dec, b: Dec) -> Option<Dec> {
    if a.mant * b.mant <= u128::MAX && a.scale + b.scale <= u32::MAX {
        Some(
            Dec {
                neg: a.neg != b.neg,
                mant: (a.mant * b.mant) as u128,
                scale: (a.scale + b.scale) as u32,
            },
        )
    } else {
        None
    }
}

/// The largest extension `p` at most `k` for which `m * 10^p` still fits
/// the mantissa word.
pub open spec fn prec_rec(m: nat, k: nat) -> nat
    decreases k,
{
    if k == 0 {
        0
    } else if m * pow10(k) <= u128::MAX {
        k
    } else {
        prec_rec(m, (k - 1) as nat)
    }
}

/// How many digits of quotient precision a division may add: up to twenty,
/// bounded by what the mantissa word can hold.
pub open spec fn div_prec(m: nat) -> nat {
    prec_rec(m, 20)
}

/// The quotient of two finite decimals, the dividend's mantissa extended by
/// `div_prec` digits and the quotient truncated toward zero.
pub open spec fn spec_dec_div(a: Dec, b: Dec) -> Option<Dec>
    recommends
        b.mant > 0,
{
    let p = div_prec(a.mant as nat);
    let q = (a.mant * pow10(p)) as int / (b.mant as int);
    let neg = a.neg != b.neg;
    if a.scale + p >= b.scale {
        if a.scale + p - b.scale <= u32::MAX {
            Some(Dec { neg, mant: q as u128, scale: (a.scale + p - b.scale) as u32 })
        } else {
            None
        }
    } else {
        let q2 = q * pow10((b.scale - a.scale - p) as nat);
        if q2 <= u128::MAX {
            Some(Dec { neg, mant: q2 as u128, scale: 0 })
        } else {
            None
        }
    }
}

proof fn lemma_prec_fits(m: nat, k: nat)
    requires
        m <= u128::MAX,
    ensures
        m * pow10(prec_rec(m, k)) <= u128::MAX,
        prec_rec(m, k) <= k,
    decreases k,
{
    if k == 0 {
        assert(pow10(0) == 1);
        assert(m * 1 == m) by (nonlinear_arith);
    } else if m * pow10(k) <= u128::MAX {
    } else {
        lemma_prec_fits(m, (k - 1) as nat);
    }
}

proof fn lemma_prec_exact(m: nat, p: nat, k: nat)
    requires
        m <= u128::MAX,
        p <= k,
        m * pow10(p) <= u128::MAX,
        p < k ==> m * pow10((p + 1) as nat) > u128::MAX,
    ensures
        prec_rec(m, k) == p,
    decreases k,
{
    if k == p {
        if k == 0 {
        } else {
        }
    } else {
        lemma_pow10_mono((p + 1) as nat, k);
        assert(m * pow10((p + 1) as nat) <= m * pow10(k)) by (nonlinear_arith)
            requires
                pow10((p + 1) as nat) <= pow10(k),
                m >= 0,
        ;
        lemma_prec_exact(m, p, (k - 1) as nat);
    }
}

/// Adds two finite decimals exactly; `None` when the exact result does not
/// fit the representation.
fn dec_add(a: Dec, b: Dec) -> (r: Option<Dec>)
    ensures
        r == spec_dec_add(a, b),
{
    let s_hi: u32 = if a.scale >= b.scale {
        a.scale
    } else {
        b.scale
    };
    proof {
        assert(s_hi as nat == max_scale(a, b));
        lemma_scaled_split(a, s_hi as nat);
        lemma_scaled_split(b, s_hi as nat);
    }
    let la = match mul_pow10(a.mant, s_hi - a.scale) {
        Some(v) => v,
        None => {
            return None;
        },
    };
    let lb = match mul_pow10(b.mant, s_hi - b.scale) {
        Some(v) => v,
        None => {
            return None;
        },
    };
    let ghost sum = scaled(a, s_hi as nat) + scaled(b, s_hi as nat);
    if a.neg == b.neg {
        proof {
            assert(sig(a.neg) * (la as int) + sig(a.neg) * (lb as int) == sig(a.neg) * ((la + lb)
                as int)) by (nonlinear_arith);
        }
        match la.checked_add(lb) {
            Some(m) => {
                proof {
                    assert(iabs(sum) == la + lb);
                }
                Some(Dec { neg: if m == 0 { a.neg && b.neg } else { a.neg }, mant: m, scale: s_hi })
            },
            None => {
                proof {
                    assert(iabs(sum) == la + lb);
                }
                None
            },
        }
    } else {
        proof {
            assert(sig(a.neg) * (la as int) + sig(b.neg) * (lb as int) == if a.neg {
                (lb as int) - (la as int)
            } else {
                (la as int) - (lb as int)
            }) by (nonlinear_arith)
                requires
                    a.neg != b.neg,
            ;
        }
        if la == lb {
            Some(Dec { neg: false, mant: 0, scale: s_hi })
        } else if la > lb {
            Some(Dec { neg: a.neg, mant: la - lb, scale: s_hi })
        } else {
            Some(Dec { neg: b.neg, mant: lb - la, scale: s_hi })
        }
    }
}

/// Multiplies two finite decimals exactly; `None` when mantissa or scale
/// would not fit.
fn dec_mul(a: Dec, b: Dec) -> (r: Option<Dec>)
    ensures
        r == spec_dec_mul(a, b),
{
    match a.mant.checked_mul(b.mant) {
        Some(m) => {
            match a.scale.checked_add(b.scale) {
                Some(sc) => Some(Dec { neg: a.neg != b.neg, mant: m, scale: sc }),
                None => None,
            }
        },
        None => None,
    }
}

/// Divides two finite decimals, the divisor's mantissa nonzero, truncating
/// the quotient after the added precision digits.
fn dec_div(a: Dec, b: Dec) -> (r: Option<Dec>)
    requires
        b.mant > 0,
    ensures
        r == spec_dec_div(a, b),
{
    let mut p: u32 = 0;
    let mut cur = a.mant;
    proof {
        assert(pow10(0) == 1);
        assert(a.mant * 1 == a.mant);
    }
    while p < 20 && cur <= u128::MAX / 10
        invariant
            p <= 20,
            cur == a.mant * pow10(p as nat),
            cur <= u128::MAX,
        decreases 20 - p,
    {
        proof {
            assert((a.mant * pow10(p as nat)) * 10 == a.mant * (10 * pow10(p as nat)))
                by (nonlinear_arith);
        }
        cur = cur * 10;
        p = p + 1;
    }
    proof {
        if p < 20 {
            assert(cur > u128::MAX / 10);
            assert((a.mant * pow10(p as nat)) * 10 == a.mant * (10 * pow10(p as nat)))
                by (nonlinear_arith);
            assert(a.mant * pow10((p + 1) as nat) > u128::MAX);
        }
        lemma_prec_exact(a.mant as nat, p as nat, 20);
        assert(div_prec(a.mant as nat) == p as nat);
    }
    let q = cur / b.mant;
    let neg = a.neg != b.neg;
    let sp: u64 = a.scale as u64 + p as u64;
    if sp >= b.scale as u64 {
        let rs: u64 = sp - b.scale as u64;
        if rs <= u32::MAX as u64 {
            Some(Dec { neg, mant: q, scale: rs as u32 })
        } else {
            None
        }
    } else {
        let e: u32 = b.scale - a.scale - p;
        match mul_pow10(q, e) {
            Some(q2) => Some(Dec { neg, mant: q2, scale: 0 }),
            None => None,
        }
    }
}


/// Addition over number values: not-a-number absorbs, opposite infinities
/// cancel to not-a-number, an infinity absorbs any finite value; `None`
/// only when an exact finite result does not fit the representation.
pub open spec fn spec_num_add(x: Num, y: Num) -> Option<Num> {
    match (x, y) {
        (Num::Nan, _) => Some(Num::Nan),
        (_, Num::Nan) => Some(Num::Nan),
        (Num::Inf(p), Num::Inf(q)) => if p == q {
            Some(Num::Inf(p))
        } else {
            Some(Num::Nan)
        },
        (Num::Inf(p), Num::Fin(_)) => Some(Num::Inf(p)),
        (Num::Fin(_), Num::Inf(q)) => Some(Num::Inf(q)),
        (Num::Fin(da), Num::Fin(db)) => match spec_dec_add(da, db) {
            Some(d) => Some(Num::Fin(d)),
            None => None,
        },
    }
}

/// Subtraction over number values: the second operand's sign is flipped and
/// the addition rules apply.
pub open spec fn spec_num_sub(x: Num, y: Num) -> Option<Num> {
    match (x, y) {
        (Num::Nan, _) => Some(Num::Nan),
        (_, Num::Nan) => Some(Num::Nan),
        (Num::Inf(p), Num::Inf(q)) => if p != q {
            Some(Num::Inf(p))
        } else {
            Some(Num::Nan)
        },
        (Num::Inf(p), Num::Fin(_)) => Some(Num::Inf(p)),
        (Num::Fin(_), Num::Inf(q)) => Some(Num::Inf(!q)),
        (Num::Fin(da), Num::Fin(db)) => match spec_dec_add(da, flip_sign(db)) {
            Some(d) => Some(Num::Fin(d)),
            None => None,
        },
    }
}

/// Multiplication over number values: an infinity times zero is
/// not-a-number, signs multiply.
pub open spec fn spec_num_mul(x: Num, y: Num) -> Option<Num> {
    match (x, y) {
        (Num::Nan, _) => Some(Num::Nan),
        (_, Num::Nan) => Some(Num::Nan),
        (Num::Inf(p), Num::Inf(q)) => Some(Num::Inf(p != q)),
        (Num::Inf(p), Num::Fin(d)) => if d.mant == 0 {
            Some(Num::Nan)
        } else {
            Some(Num::Inf(p != d.neg))
        },
        (Num::Fin(d), Num::Inf(q)) => if d.mant == 0 {
            Some(Num::Nan)
        } else {
            Some(Num::Inf(d.neg != q))
        },
        (Num::Fin(da), Num::Fin(db)) => match spec_dec_mul(da, db) {
            Some(d) => Some(Num::Fin(d)),
            None => None,
        },
    }
}

/// Division over number values: zero divides to a signed infinity, zero
/// over zero and infinity over infinity are not-a-number, a finite value
/// over an infinity is a signed zero.
pub open spec fn spec_num_div(x: Num, y: Num) -> Option<Num> {
    match (x, y) {
        (Num::Nan, _) => Some(Num::Nan),
        (_, Num::Nan) => Some(Num::Nan),
        (Num::Inf(_), Num::Inf(_)) => Some(Num::Nan),
        (Num::Inf(p), Num::Fin(d)) => Some(Num::Inf(p != d.neg)),
        (Num::Fin(d), Num::Inf(q)) => Some(
            Num::Fin(Dec { neg: d.neg != q, mant: 0, scale: 0 }),
        ),
        (Num::Fin(da), Num::Fin(db)) => if db.mant == 0 {
            if da.mant == 0 {
                Some(Num::Nan)
            } else {
                Some(Num::Inf(da.neg != db.neg))
            }
        } else {
            match spec_dec_div(da, db) {
                Some(d) => Some(Num::Fin(d)),
                None => None,
            }
        },
    }
}

pub fn num_add(x: &Num, y: &Num) -> (r: Option<Num>)
    ensures
        r == spec_num_add(*x, *y),
{
    match (x, y) {
        (Num::Nan, _) => Some(Num::Nan),
        (_, Num::Nan) => Some(Num::Nan),
        (Num::Inf(p), Num::Inf(q)) => {
            if *p == *q {
                Some(Num::Inf(*p))
            } else {
                Some(Num::Nan)
            }
        },
        (Num::Inf(p), Num::Fin(_)) => Some(Num::Inf(*p)),
        (Num::Fin(_), Num::Inf(q)) => Some(Num::Inf(*q)),
        (Num::Fin(da), Num::Fin(db)) => {
            match dec_add(*da, *db) {
                Some(d) => Some(Num::Fin(d)),
                None => None,
            }
        },
    }
}

pub fn num_sub(x: &Num, y: &Num) -> (r: Option<Num>)
    ensures
        r == spec_num_sub(*x, *y),
{
    match (x, y) {
        (Num::Nan, _) => Some(Num::Nan),
        (_, Num::Nan) => Some(Num::Nan),
        (Num::Inf(p), Num::Inf(q)) => {
            if *p != *q {
                Some(Num::Inf(*p))
            } else {
                Some(Num::Nan)
            }
        },
        (Num::Inf(p), Num::Fin(_)) => Some(Num::Inf(*p)),
        (Num::Fin(_), Num::Inf(q)) => Some(Num::Inf(!*q)),
        (Num::Fin(da), Num::Fin(db)) => {
            let flipped = Dec { neg: !db.neg, mant: db.mant, scale: db.scale };
            match dec_add(*da, flipped) {
                Some(d) => Some(Num::Fin(d)),
                None => None,
            }
        },
    }
}

pub fn num_mul(x: &Num, y: &Num) -> (r: Option<Num>)
    ensures
        r == spec_num_mul(*x, *y),
{
    match (x, y) {
        (Num::Nan, _) => Some(Num::Nan),
        (_, Num::Nan) => Some(Num::Nan),
        (Num::Inf(p), Num::Inf(q)) => Some(Num::Inf(*p != *q)),
        (Num::Inf(p), Num::Fin(d)) => {
            if d.mant == 0 {
                Some(Num::Nan)
            } else {
                Some(Num::Inf(*p != d.neg))
            }
        },
        (Num::Fin(d), Num::Inf(q)) => {
            if d.mant == 0 {
                Some(Num::Nan)
            } else {
                Some(Num::Inf(d.neg != *q))
            }
        },
        (Num::Fin(da), Num::Fin(db)) => {
            match dec_mul(*da, *db) {
                Some(d) => Some(Num::Fin(d)),
                None => None,
            }
        },
    }
}

pub fn num_div(x: &Num, y: &Num) -> (r: Option<Num>)
    ensures
        r == spec_num_div(*x, *y),
{
    match (x, y) {
        (Num::Nan, _) => Some(Num::Nan),
        (_, Num::Nan) => Some(Num::Nan),
        (Num::Inf(_), Num::Inf(_)) => Some(Num::Nan),
        (Num::Inf(p), Num::Fin(d)) => Some(Num::Inf(*p != d.neg)),
        (Num::Fin(d), Num::Inf(q)) => Some(Num::Fin(Dec { neg: d.neg != *q, mant: 0, scale: 0 })),
        (Num::Fin(da), Num::Fin(db)) => {
            if db.mant == 0 {
                if da.mant == 0 {
                    Some(Num::Nan)
                } else {
                    Some(Num::Inf(da.neg != db.neg))
                }
            } else {
                match dec_div(*da, *db) {
                    Some(d) => Some(Num::Fin(d)),
                    None => None,
                }
            }
        },
    }
}


/// Rendering a digit's value gives the digit character back.
proof fn lemma_digit_char_roundtrip(c: char)
    requires
        is_digit(c),
    ensures
        digit_char(digit_val(c)) == c,
{
    let u: u32 = c as u32;
    assert((48 + digit_val(c)) as u8 == u as u8);
    assert(u as u8 as u32 == u);
    vstd::utf8::char_u32_cast(c, u);
}

/// A digit string without a leading zero denotes a positive value.
pub proof fn lemma_digits_val_pos(t: Seq<char>)
    requires
        all_digits(t),
        t.len() > 0,
        t[0] != '0',
    ensures
        digits_val(t) >= 1,
{
    let head = t.subrange(0, 1);
    let rest = t.subrange(1, t.len() as int);
    assert(t =~= head + rest);
    lemma_digits_val_concat(head, rest);
    lemma_pow10_pos(rest.len());
    assert(head.drop_last() =~= Seq::<char>::empty());
    assert(head.last() == t[0]);
    assert(digits_val(head) == digits_val(head.drop_last()) * 10 + digit_val(head.last()));
    assert(digits_val(head) == digit_val(t[0]));
    assert('0' as u32 == 48);
    if t[0] as u32 == 48 {
        vstd::utf8::char_u32_cast(t[0], 48);
        vstd::utf8::char_u32_cast('0', 48);
        assert(t[0] == '0');
    }
    assert(digit_val(t[0]) >= 1);
    assert(digits_val(head) * pow10(rest.len()) >= 1 * 1) by (nonlinear_arith)
        requires
            digits_val(head) >= 1,
            pow10(rest.len()) >= 1,
    ;
}

/// Rendering the value of a canonical digit string gives that string back.
pub proof fn lemma_digits_roundtrip(t: Seq<char>)
    requires
        all_digits(t),
        t.len() > 0,
        t.len() > 1 ==> t[0] != '0',
    ensures
        digits_of(digits_val(t)) == t,
    decreases t.len(),
{
    if t.len() == 1 {
        assert(digits_val(t) == digits_val(t.drop_last()) * 10 + digit_val(t.last()));
        assert(t.drop_last().len() == 0);
        assert(digits_val(t) == digit_val(t[0]));
        lemma_digit_char_roundtrip(t[0]);
        assert(digits_of(digits_val(t)) =~= t);
    } else {
        let front = t.drop_last();
        let c = t.last();
        lemma_digits_roundtrip(front);
        lemma_digits_val_pos(front);
        let v = digits_val(t);
        let vf = digits_val(front);
        assert(v == vf * 10 + digit_val(c));
        assert(vf * 10 >= 10) by (nonlinear_arith)
            requires
                vf >= 1,
        ;
        assert(v / 10 == vf && v % 10 == digit_val(c)) by (nonlinear_arith)
            requires
                v == vf * 10 + digit_val(c),
                digit_val(c) < 10,
        ;
        lemma_digit_char_roundtrip(c);
        assert(digits_of(v) =~= t);
    }
}


/// The digit string of `n` is nonempty, all digits, and denotes `n`.
proof fn lemma_digits_of_props(n: nat)
    ensures
        all_digits(digits_of(n)),
        digits_of(n).len() >= 1,
        digits_val(digits_of(n)) == n,
    decreases n,
{
    let c = digit_char(n % 10);
    assert(c as u32 == 48 + n % 10);
    assert(is_digit(c) && digit_val(c) == n % 10);
    if n < 10 {
        assert(digits_of(n) =~= seq![c]);
        assert(digits_of(n).drop_last() =~= Seq::<char>::empty());
        assert(digits_of(n).last() == c);
        assert(digits_val(digits_of(n).drop_last()) == 0);
        assert(digits_val(digits_of(n)) == digits_val(digits_of(n).drop_last()) * 10 + digit_val(
            digits_of(n).last(),
        ));
        assert(digits_val(digits_of(n)) == digit_val(c));
    } else {
        lemma_digits_of_props(n / 10);
        assert(digits_of(n) == digits_of(n / 10).push(c));
        assert(digits_of(n).drop_last() =~= digits_of(n / 10));
        assert(digits_of(n).last() == c);
        assert(digits_val(digits_of(n)) == (n / 10) * 10 + n % 10);
        assert((n / 10) * 10 + n % 10 == n) by (nonlinear_arith);
        assert forall|i: int| 0 <= i < digits_of(n).len() implies is_digit(
            #[trigger] digits_of(n)[i],
        ) by {
            if i < digits_of(n).len() - 1 {
                assert(digits_of(n)[i] == digits_of(n / 10)[i]);
            }
        }
    }
}

/// A run of zero characters is all digits and denotes zero.
proof fn lemma_zeros_props(k: nat)
    ensures
        all_digits(zeros(k)),
        zeros(k).len() == k,
        digits_val(zeros(k)) == 0,
    decreases k,
{
    assert(('0') as u32 == 48);
    if k > 0 {
        lemma_zeros_props((k - 1) as nat);
        assert(zeros(k) == zeros((k - 1) as nat).push('0'));
        assert(zeros(k).drop_last() =~= zeros((k - 1) as nat));
        assert(digits_val(zeros(k)) == digits_val(zeros((k - 1) as nat)) * 10 + digit_val('0'));
        assert forall|i: int| 0 <= i < zeros(k).len() implies is_digit(#[trigger] zeros(k)[i]) by {
            if i < zeros(k).len() - 1 {
                assert(zeros(k)[i] == zeros((k - 1) as nat)[i]);
            }
        }
    }
}

/// Dropping trailing fractional zeros keeps the represented value: the old
/// mantissa is the new one scaled back up by the dropped digits.
proof fn lemma_canon_props(m: nat, s: nat)
    ensures
        canon_mant(m, s).1 <= s,
        m == canon_mant(m, s).0 * pow10((s - canon_mant(m, s).1) as nat),
        canon_mant(m, s).0 <= m,
    decreases s,
{
    if s > 0 && m % 10 == 0 {
        lemma_canon_props(m / 10, (s - 1) as nat);
        let c = canon_mant(m, s);
        let k = ((s - 1) - c.1) as nat;
        assert(m / 10 == c.0 * pow10(k));
        assert(m == (m / 10) * 10) by (nonlinear_arith)
            requires
                m % 10 == 0,
        ;
        assert((c.0 * pow10(k)) * 10 == c.0 * (pow10(k) * 10)) by (nonlinear_arith);
        assert(pow10(k + 1) == 10 * pow10(k));
        assert(m / 10 <= m) by (nonlinear_arith);
        lemma_pow10_pos(k);
        assert(c.0 <= c.0 * pow10(k)) by (nonlinear_arith)
            requires
                pow10(k) >= 1,
                c.0 >= 0,
        ;
    } else {
        assert(pow10(0) == 1);
        assert(m * 1 == m) by (nonlinear_arith);
    }
}

/// Two finite decimals with the same sign whose mantissas agree after
/// cross-scaling have the same value.
proof fn lemma_eq_val_cross(a: Dec, b: Dec)
    requires
        a.neg == b.neg,
        a.mant * pow10(b.scale as nat) == b.mant * pow10(a.scale as nat),
    ensures
        dec_eq_val(a, b),
{
    let s = max_scale(a, b);
    lemma_pow10_add((s - a.scale) as nat, a.scale as nat);
    lemma_pow10_add((s - b.scale) as nat, b.scale as nat);
    lemma_pow10_pos((s - a.scale) as nat);
    lemma_pow10_pos((s - b.scale) as nat);
    lemma_pow10_pos(a.scale as nat);
    lemma_pow10_pos(b.scale as nat);
    let pa = pow10((s - a.scale) as nat) as int;
    let pb = pow10((s - b.scale) as nat) as int;
    let qa = pow10(a.scale as nat) as int;
    let qb = pow10(b.scale as nat) as int;
    let ma = a.mant as int;
    let mb = b.mant as int;
    assert(pa * qa == pb * qb);
    assert(ma * qb == mb * qa);
    // both scaled mantissas, multiplied by the common positive factor
    // qa * qb, agree, so they agree themselves
    assert((ma * pa) * (qa * qb) == (ma * qb) * (pa * qa)) by (nonlinear_arith);
    assert((mb * pb) * (qa * qb) == (mb * qa) * (pb * qb)) by (nonlinear_arith);
    assert((ma * qb) * (pa * qa) == (mb * qa) * (pb * qb)) by (nonlinear_arith)
        requires
            ma * qb == mb * qa,
            pa * qa == pb * qb,
    ;
    assert(ma * pa == mb * pb) by (nonlinear_arith)
        requires
            (ma * pa) * (qa * qb) == (mb * pb) * (qa * qb),
            qa >= 1,
            qb >= 1,
    ;
    assert(sig(a.neg) * (ma * pa) == sig(b.neg) * (mb * pb));
    assert(scaled(a, s) == sig(a.neg) * ((a.mant * pow10((s - a.scale) as nat)) as int))
        by (nonlinear_arith);
    assert(scaled(b, s) == sig(b.neg) * ((b.mant * pow10((s - b.scale) as nat)) as int))
        by (nonlinear_arith);
}


/// Re-reading a rendered number keeps its value: the decoded literal of
/// any number parses back successfully, to the identical special value or
/// to a value-equal finite decimal of the same sign.  Chained arithmetic
/// rests on this: each operation re-reads the literal its operand was
/// rendered to.
pub proof fn lemma_literal_round_trip(x: Num)
    ensures
        x is Nan ==> spec_parse_num(spec_num_literal(x)) == Some(Num::Nan),
        x is Inf ==> spec_parse_num(spec_num_literal(x)) == Some(x),
        x is Fin ==> (match spec_parse_num(spec_num_literal(x)) {
            Some(y) => y is Fin && y->Fin_0.neg == x->Fin_0.neg && dec_eq_val(y->Fin_0, x->Fin_0),
            None => false,
        }),
{
    reveal_strlit("inf");
    reveal_strlit("-inf");
    reveal_strlit("NaN");
    reveal_strlit(".0");
    match x {
        Num::Nan => {
            assert(spec_num_literal(x) == "NaN"@);
            assert("NaN"@ != "inf"@) by {
                if "NaN"@ == "inf"@ {
                    assert("NaN"@[0] == "inf"@[0]);
                }
            }
            assert("NaN"@ != "-inf"@);
        },
        Num::Inf(neg) => {
            if neg {
                assert(spec_num_literal(x) == "-inf"@);
                assert("-inf"@ != "inf"@);
            } else {
                assert(spec_num_literal(x) == "inf"@);
            }
        },
        Num::Fin(d) => {
            lemma_fin_literal_round_trip(d);
        },
    }
}

/// The finite case of the literal round trip.
proof fn lemma_fin_literal_round_trip(d: Dec)
    ensures
        (match spec_parse_num(spec_num_literal(Num::Fin(d))) {
            Some(y) => y is Fin && y->Fin_0.neg == d.neg && dec_eq_val(y->Fin_0, d),
            None => false,
        }),
{
    reveal_strlit("inf");
    reveal_strlit("-inf");
    reveal_strlit("NaN");
    reveal_strlit(".0");
    let x = Num::Fin(d);
    let c = canon_mant(d.mant as nat, d.scale as nat);
    let cm = c.0;
    let cs = c.1;
    lemma_canon_props(d.mant as nat, d.scale as nat);
    let ds = digits_of(cm);
    lemma_digits_of_props(cm);
    let ell = ds.len() as int;
    let body = dec_body(d.mant as nat, d.scale as nat);
    // the body of the rendered text starts with a digit in every shape
    assert('.' as u32 == 46 && '-' as u32 == 45 && '0' as u32 == 48);
    if cs == 0 {
        assert(body == ds);
    } else if ds.len() > cs {
        assert(body[0] == ds[0]);
    } else {
        assert(body[0] == '0');
    }
    assert(body.len() >= 1 && is_digit(body[0]));
    // the decoded literal: an optional sign, the body, and `.0` for small
    // whole values
    let with_zero = literal_gets_point_zero(d);
    let lit = spec_num_literal(x);
    let mag: Seq<char> = if with_zero {
        body + ".0"@
    } else {
        body
    };
    if d.neg {
        assert(spec_num_str(x) == seq!['-'] + body);
        if with_zero {
            assert(lit =~= seq!['-'] + mag);
        } else {
            assert(lit =~= seq!['-'] + mag);
        }
        assert(lit[0] == '-');
        assert(numeral_neg(lit) == d.neg);
        assert(numeral_mag(lit) =~= mag);
    } else {
        assert(spec_num_str(x) == body);
        if with_zero {
            assert(lit =~= mag);
        } else {
            assert(lit =~= mag);
        }
        assert(lit[0] == body[0]);
        assert(lit[0] != '-');
        assert(numeral_neg(lit) == d.neg);
        assert(numeral_mag(lit) =~= mag);
    }
    // the literal is none of the special spellings
    assert(lit != "inf"@) by {
        if lit == "inf"@ {
            assert(lit[0] == 'i');
            assert(!is_digit('i') && 'i' != '-');
        }
    }
    assert(lit != "-inf"@) by {
        if lit == "-inf"@ {
            assert(lit[0] == '-' && lit[1] == 'i');
            assert(d.neg && mag[0] == 'i');
            assert(mag[0] == body[0]);
            assert(!is_digit('i'));
        }
    }
    assert(lit != "NaN"@) by {
        if lit == "NaN"@ {
            assert(lit[0] == 'N');
            assert(!is_digit('N') && 'N' != '-');
        }
    }
    // the magnitude is well formed and denotes the canonical mantissa
    if with_zero {
        // digits, a dot, one fractional zero
        assert(cs == 0 && body == ds);
        assert(mag =~= ds + seq!['.', '0']);
        assert forall|j: int| 0 <= j < ell implies #[trigger] mag[j] != '.' by {
            assert(mag[j] == ds[j]);
            assert(is_digit(ds[j]));
        }
        assert(mag[ell] == '.');
        lemma_first_dot_at(mag, ell);
        assert(mag.subrange(0, ell) =~= ds);
        assert(mag.subrange(ell + 1, mag.len() as int) =~= seq!['0']);
        assert(all_digits(seq!['0']));
        assert(wf_mag(mag));
        assert(mag_digits(mag) =~= ds.push('0'));
        assert(ds.push('0').drop_last() =~= ds);
        assert(digits_val(ds.push('0')) == cm * 10);
        assert(mag_scale(mag) == 1);
        assert(cm <= 2147483648);
        assert(cm * 10 <= u128::MAX) by (nonlinear_arith)
            requires
                cm <= 2147483648,
        ;
        assert(numeral_fits(lit));
        let y = numeral_dec(lit);
        assert(y == Dec { neg: d.neg, mant: (cm * 10) as u128, scale: 1u32 });
        lemma_pow10_add((d.scale - cs) as nat, 0);
        assert(d.mant == cm * pow10(d.scale as nat));
        assert((cm * 10) * pow10(d.scale as nat) == (cm * pow10(d.scale as nat)) * pow10(1))
            by (nonlinear_arith)
            requires
                pow10(1) == 10,
        ;
        assert(pow10(1) == 10 * pow10(0) && pow10(0) == 1);
        lemma_eq_val_cross(y, d);
    } else if cs == 0 {
        // a whole number too large for the forced fraction: bare digits
        assert(mag == ds);
        lemma_all_digits_no_first_dot(mag);
        assert(mag.subrange(0, ell) =~= ds);
        assert(wf_mag(mag));
        assert(mag_digits(mag) == ds);
        assert(mag_scale(mag) == 0);
        assert(cm <= d.mant);
        assert(numeral_fits(lit));
        let y = numeral_dec(lit);
        assert(y == Dec { neg: d.neg, mant: cm as u128, scale: 0u32 });
        assert(pow10(0) == 1);
        assert(d.mant == cm * pow10(d.scale as nat));
        assert(cm * pow10(d.scale as nat) == (cm * pow10(d.scale as nat)) * 1)
            by (nonlinear_arith);
        lemma_eq_val_cross(y, d);
    } else {
        let k = (d.scale - cs) as nat;
        assert(d.mant == cm * pow10(k));
        if ds.len() > cs {
            // the dot stands inside the digits
            let cut = ell - cs;
            assert(mag =~= ds.subrange(0, cut) + seq!['.'] + ds.subrange(cut, ell));
            assert forall|j: int| 0 <= j < cut implies #[trigger] mag[j] != '.' by {
                assert(mag[j] == ds[j]);
                assert(is_digit(ds[j]));
            }
            assert(mag[cut] == '.');
            lemma_first_dot_at(mag, cut);
            assert(mag.subrange(0, cut) =~= ds.subrange(0, cut));
            assert(mag.subrange(cut + 1, mag.len() as int) =~= ds.subrange(cut, ell));
            assert(wf_mag(mag));
            assert(mag_digits(mag) =~= ds);
            assert(mag_scale(mag) == cs);
        } else {
            // a bare fraction: one leading zero, padding zeros, the digits
            let pad = (cs - ds.len()) as nat;
            lemma_zeros_props(pad);
            assert(mag =~= seq!['0', '.'] + zeros(pad) + ds);
            assert(mag[0] == '0' && mag[1] == '.');
            lemma_first_dot_at(mag, 1);
            assert(mag.subrange(0, 1) =~= seq!['0']);
            assert(all_digits(seq!['0']));
            let frac = mag.subrange(2, mag.len() as int);
            assert(frac =~= zeros(pad) + ds);
            assert forall|j: int| 0 <= j < frac.len() implies is_digit(#[trigger] frac[j]) by {
                if j < pad {
                    assert(frac[j] == zeros(pad)[j]);
                } else {
                    assert(frac[j] == ds[j - pad]);
                }
            }
            assert(frac.len() == cs > 0);
            assert(wf_mag(mag));
            assert(mag_digits(mag) =~= seq!['0'] + (zeros(pad) + ds));
            lemma_digits_val_concat(seq!['0'], zeros(pad) + ds);
            lemma_digits_val_concat(zeros(pad), ds);
            assert(seq!['0'].drop_last() =~= Seq::<char>::empty());
            assert(digits_val(seq!['0'].drop_last()) == 0);
            assert(seq!['0'].last() == '0');
            assert(digits_val(seq!['0']) == digits_val(seq!['0'].drop_last()) * 10 + digit_val(
                seq!['0'].last(),
            ));
            assert(digits_val(seq!['0']) == digit_val('0'));
            assert(digit_val('0') == 0);
            assert(digits_val(mag_digits(mag)) == 0 * pow10((zeros(pad) + ds).len()) + (0 * pow10(
                ds.len(),
            ) + cm));
            assert(0 * pow10((zeros(pad) + ds).len()) == 0) by (nonlinear_arith);
            assert(0 * pow10(ds.len()) == 0) by (nonlinear_arith);
            assert(digits_val(mag_digits(mag)) == cm);
            assert(mag_scale(mag) == cs);
        }
        assert(digits_val(mag_digits(mag)) == cm);
        assert(cm <= d.mant);
        assert(numeral_fits(lit));
        let y = numeral_dec(lit);
        assert(y == Dec { neg: d.neg, mant: cm as u128, scale: cs as u32 });
        lemma_pow10_add(k, cs);
        assert((cm * pow10(k)) * pow10(cs) == cm * (pow10(k) * pow10(cs))) by (nonlinear_arith);
        assert(cm * pow10(d.scale as nat) == d.mant * pow10(cs));
        lemma_eq_val_cross(y, d);
    }
}

} // verus!
