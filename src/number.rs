//! Exact decimal numbers read from text, and the comparisons that numeric
//! filter commands make with them.

use vstd::prelude::*;
use crate::text::{find_char, lemma_find_char_first, lemma_find_char_ge, lemma_find_char_skip};

verus! {

/// Most digits that a [`Decimal`] holds; values that filters test are read
/// without this bound.
pub const MAX_DIGITS: usize = 18;

/// The number that a numeric command compares against, held exactly:
/// `mantissa / 10^scale`, negated when `negative`.
#[derive(Clone, Copy, Debug, PartialEq, Eq, Structural)]
pub struct Decimal {
    pub negative: bool,
    pub mantissa: u64,
    pub scale: u32,
}

/// Which way a numeric comparison goes.
#[derive(Clone, Copy, Debug, PartialEq, Eq, Structural)]
pub enum CompareOp {
    /// The value must be greater than the given number.
    Greater,
    /// The value must be less than the given number.
    Less,
}

pub open spec fn pow10(n: nat) -> nat
    decreases n,
{
    if n == 0 {
        1
    } else {
        10 * pow10((n - 1) as nat)
    }
}

pub open spec fn is_digit(c: char) -> bool {
    '0' <= c <= '9'
}

/// Characters that survive the stripping of a value before it is read as a number.
pub open spec fn is_numeric_char(c: char) -> bool {
    is_digit(c) || c == '.'
}

pub open spec fn all_digits(s: Seq<char>) -> bool {
    forall|i: int| 0 <= i < s.len() ==> is_digit(#[trigger] s[i])
}

pub open spec fn digit_value(c: char) -> nat {
    ((c as u32) - ('0' as u32)) as nat
}

/// The number that a run of decimal digits spells.
pub open spec fn digits_value(s: Seq<char>) -> nat
    decreases s.len(),
{
    if s.len() == 0 {
        0
    } else {
        digits_value(s.drop_last()) * 10 + digit_value(s.last())
    }
}

/// `s` with every character removed that is neither a digit nor a decimal point.
pub open spec fn keep_numeric(s: Seq<char>) -> Seq<char>
    decreases s.len(),
{
    if s.len() == 0 {
        s
    } else if is_numeric_char(s.last()) {
        keep_numeric(s.drop_last()).push(s.last())
    } else {
        keep_numeric(s.drop_last())
    }
}

/// Reads digits with at most one decimal point (`12`, `1.5`, `.5`, `3.`) as a
/// [`Decimal`]: at least one digit and at most [`MAX_DIGITS`] in all.
pub open spec fn unsigned_decimal(s: Seq<char>) -> Option<Decimal> {
    match number_parts(s) {
        Some((whole, frac)) => if whole.len() + frac.len() <= MAX_DIGITS {
            Some(
                Decimal {
                    negative: false,
                    mantissa: digits_value(whole + frac) as u64,
                    scale: frac.len() as u32,
                },
            )
        } else {
            None
        },
        None => None,
    }
}

/// An unsigned decimal, optionally preceded by `-` or `+`.
pub open spec fn signed_decimal(s: Seq<char>) -> Option<Decimal> {
    if s.len() > 0 && (s[0] == '-' || s[0] == '+') {
        match unsigned_decimal(s.subrange(1, s.len() as int)) {
            Some(d) => Some(Decimal { negative: s[0] == '-', ..d }),
            None => None,
        }
    } else {
        unsigned_decimal(s)
    }
}

impl Decimal {
    pub open spec fn wf(self) -> bool {
        self.mantissa < pow10(MAX_DIGITS as nat) && self.scale <= MAX_DIGITS
    }

    pub open spec fn signed_mantissa(self) -> int {
        if self.negative {
            -(self.mantissa as int)
        } else {
            self.mantissa as int
        }
    }

}

/// What a numeric command decides for a value: the value's text, stripped of
/// everything but digits and decimal points, must read as a number, and that
/// number must compare with `num` exactly as `op` says. A `num` outside the
/// range of [`Decimal`] compares with nothing.
pub open spec fn num_op_holds(value: Seq<char>, op: CompareOp, num: Decimal) -> bool {
    num.wf() && match number_parts(keep_numeric(value)) {
        Some((w, f)) => match op {
            CompareOp::Greater => value_gt_num(w, f, num),
            CompareOp::Less => value_lt_num(w, f, num),
        },
        None => false,
    }
}

proof fn lemma_pow10_mono(a: nat, b: nat)
    requires
        a <= b,
    ensures
        1 <= pow10(a) <= pow10(b),
    decreases b,
{
    if b > 0 {
        if a < b {
            lemma_pow10_mono(a, (b - 1) as nat);
        } else {
            lemma_pow10_mono((a - 1) as nat, (b - 1) as nat);
        }
    }
}

proof fn lemma_digits_value_bound(s: Seq<char>)
    requires
        all_digits(s),
    ensures
        digits_value(s) < pow10(s.len()),
    decreases s.len(),
{
    if s.len() > 0 {
        let t = s.drop_last();
        assert(all_digits(t)) by {
            assert forall|i: int| 0 <= i < t.len() implies is_digit(#[trigger] t[i]) by {
                assert(t[i] == s[i]);
            }
        }
        lemma_digits_value_bound(t);
        let a = digits_value(t);
        let p = pow10(t.len());
        let d = digit_value(s.last());
        assert(is_digit(s[s.len() - 1]));
        assert(d <= 9);
        assert(a * 10 + d < 10 * p) by (nonlinear_arith)
            requires
                a < p,
                d <= 9,
        ;
    }
}

/// Strips every character that is not a digit or a decimal point.
pub fn remove_all_non_num_chars(value: &Vec<char>) -> (r: Vec<char>)
    ensures
        r@ == keep_numeric(value@),
{
    let mut out: Vec<char> = Vec::new();
    let mut i: usize = 0;
    while i < value.len()
        invariant
            i <= value@.len(),
            out@ == keep_numeric(value@.subrange(0, i as int)),
        decreases value@.len() - i,
    {
        let c = value[i];
        if ('0' <= c && c <= '9') || c == '.' {
            out.push(c);
        }
        assert(value@.subrange(0, i + 1).drop_last() =~= value@.subrange(0, i as int));
        i += 1;
    }
    assert(value@.subrange(0, i as int) =~= value@);
    out
}

/// Reads `s[from..]` as an unsigned decimal.
pub fn parse_unsigned(s: &Vec<char>, from: usize) -> (r: Option<Decimal>)
    requires
        from <= s@.len(),
    ensures
        r == unsigned_decimal(s@.subrange(from as int, s@.len() as int)),
        r matches Some(d) ==> d.wf(),
{
    let ghost t = s@.subrange(from as int, s@.len() as int);
    let n = s.len();
    let mut i: usize = from;
    let mut mantissa: u64 = 0;
    let mut ndigits: usize = 0;
    let mut seen_dot = false;
    let mut scale: u32 = 0;
    let ghost mut p: int = 0;
    proof {
        reveal_with_fuel(pow10, 19);
    }
    while i < n
        invariant
            from <= i <= n == s@.len(),
            t == s@.subrange(from as int, n as int),
            ndigits <= MAX_DIGITS,
            pow10(MAX_DIGITS as nat) == 1000000000000000000,
            !seen_dot ==> {
                &&& all_digits(t.subrange(0, i - from))
                &&& find_char(t, '.', 0) == find_char(t, '.', i - from)
                &&& mantissa == digits_value(t.subrange(0, i - from))
                &&& ndigits == i - from
                &&& scale == 0
            },
            seen_dot ==> {
                &&& 0 <= p < i - from
                &&& t[p] == '.'
                &&& find_char(t, '.', 0) == p
                &&& all_digits(t.subrange(0, p))
                &&& all_digits(t.subrange(p + 1, i - from))
                &&& mantissa == digits_value(t.subrange(0, p) + t.subrange(p + 1, i - from))
                &&& ndigits == i - from - 1
                &&& scale == i - from - 1 - p
            },
            mantissa < pow10(ndigits as nat),
        decreases n - i,
    {
        let c = s[i];
        let ghost k = i - from;
        if '0' <= c && c <= '9' {
            if ndigits == MAX_DIGITS {
                proof {
                    lemma_find_char_ge(t, '.', k + 1);
                    if seen_dot {
                        assert(find_char(t, '.', 0) == p);
                    }
                }
                return None;
            }
            let ghost old_m = mantissa;
            let ghost digits_before = if seen_dot {
                t.subrange(0, p) + t.subrange(p + 1, k)
            } else {
                t.subrange(0, k)
            };
            proof {
                lemma_digits_value_bound(digits_before);
                lemma_pow10_mono(ndigits as nat, (MAX_DIGITS - 1) as nat);
                assert(digits_before.push(c) =~= if seen_dot {
                    t.subrange(0, p) + t.subrange(p + 1, k + 1)
                } else {
                    t.subrange(0, k + 1)
                });
                assert(digits_before.push(c).drop_last() =~= digits_before);
                let d = digit_value(c);
                assert(old_m * 10 + d < 10 * pow10(ndigits as nat)) by (nonlinear_arith)
                    requires
                        old_m < pow10(ndigits as nat),
                        d <= 9,
                ;
            }
            mantissa = mantissa * 10 + (c as u32 - '0' as u32) as u64;
            ndigits += 1;
            if seen_dot {
                scale += 1;
            }
            i += 1;
            proof {
                if !seen_dot {
                    assert forall|q: int| 0 <= q < k + 1 implies is_digit(
                        #[trigger] t.subrange(0, k + 1)[q],
                    ) by {
                        if q < k {
                            assert(t.subrange(0, k + 1)[q] == t.subrange(0, k)[q]);
                        }
                    }
                    assert(find_char(t, '.', k) == find_char(t, '.', k + 1));
                } else {
                    assert forall|q: int| 0 <= q < k + 1 - (p + 1) implies is_digit(
                        #[trigger] t.subrange(p + 1, k + 1)[q],
                    ) by {
                        if q < k - (p + 1) {
                            assert(t.subrange(p + 1, k + 1)[q] == t.subrange(p + 1, k)[q]);
                        }
                    }
                }
            }
        } else if c == '.' && !seen_dot {
            proof {
                p = k;
                lemma_find_char_first(t, '.', k, k);
                assert(t.subrange(p + 1, k + 1) =~= Seq::<char>::empty());
                assert(t.subrange(0, p) + t.subrange(p + 1, k + 1) =~= t.subrange(0, k));
            }
            seen_dot = true;
            i += 1;
        } else {
            proof {
                lemma_find_char_ge(t, '.', k);
                lemma_find_char_ge(t, '.', 0);
                let q = find_char(t, '.', 0);
                if !seen_dot {
                    assert(t.subrange(0, q)[k] == t[k]);
                } else {
                    assert(t.subrange(p + 1, t.len() as int)[k - p - 1] == t[k]);
                }
            }
            return None;
        }
    }
    if ndigits == 0 {
        proof {
            if seen_dot {
                assert(t.subrange(p + 1, t.len() as int) =~= t.subrange(p + 1, i - from));
            } else {
                assert(t.subrange(0, i - from) =~= t);
                lemma_find_char_first(t, '.', t.len() as int, t.len() as int);
            }
        }
        return None;
    }
    proof {
        if seen_dot {
            assert(t.subrange(p + 1, t.len() as int) =~= t.subrange(p + 1, i - from));
        } else {
            assert(t.subrange(0, i - from) =~= t);
            lemma_find_char_first(t, '.', t.len() as int, t.len() as int);
            assert(t + Seq::<char>::empty() =~= t);
        }
        lemma_pow10_mono(ndigits as nat, MAX_DIGITS as nat);
    }
    Some(Decimal { negative: false, mantissa, scale })
}

/// Reads `s` as a decimal number with an optional sign.
pub fn parse_number(s: &Vec<char>) -> (r: Option<Decimal>)
    ensures
        r == signed_decimal(s@),
        r matches Some(d) ==> d.wf(),
{
    if s.len() > 0 && (s[0] == '-' || s[0] == '+') {
        match parse_unsigned(s, 1) {
            Some(d) => Some(Decimal { negative: s[0] == '-', ..d }),
            None => None,
        }
    } else {
        assert(s@.subrange(0, s@.len() as int) =~= s@);
        parse_unsigned(s, 0)
    }
}

impl Decimal {
    /// Whether the number lies within the range that [`Decimal`] holds.
    pub fn in_range(&self) -> (r: bool)
        ensures
            r == self.wf(),
    {
        proof {
            reveal_with_fuel(pow10, 19);
        }
        self.mantissa < 1000000000000000000 && self.scale <= MAX_DIGITS as u32
    }
}

/// Strips `value` to its digits and decimal points, reads it as a number, and
/// compares it with `num` exactly. A value that does not read as a number fails.
pub fn num_op(value: &Vec<char>, op: CompareOp, num: Decimal) -> (r: bool)
    ensures
        r == num_op_holds(value@, op, num),
{
    if !num.in_range() {
        return false;
    }
    let stripped = remove_all_non_num_chars(value);
    match number_split(&stripped) {
        None => false,
        Some(p) => {
            let c = compare_magnitude(&stripped, p, num.mantissa, num.scale);
            let ghost (w, f) = number_parts(stripped@).unwrap();
            let ghost lhs = digits_value(w + f) * pow10(num.scale as nat);
            let ghost pf = pow10(f.len());
            proof {
                lemma_pow10_mono(0, f.len());
                let m = num.mantissa as int;
                assert(lhs >= 0) by (nonlinear_arith)
                    requires
                        lhs == digits_value(w + f) * pow10(num.scale as nat),
                ;
                assert((-m) * pf == -(m * pf)) by (nonlinear_arith);
                assert(m > 0 ==> m * pf > 0) by (nonlinear_arith)
                    requires
                        pf >= 1,
                ;
            }
            if !num.negative {
                match op {
                    CompareOp::Greater => c > 0,
                    CompareOp::Less => c < 0,
                }
            } else {
                match op {
                    CompareOp::Greater => !(c == 0 && num.mantissa == 0),
                    CompareOp::Less => false,
                }
            }
        },
    }
}

/// The digits before and after the first decimal point of `s`, when `s` is
/// digits with at most one decimal point and at least one digit in all.
pub open spec fn number_parts(s: Seq<char>) -> Option<(Seq<char>, Seq<char>)> {
    let p = find_char(s, '.', 0);
    let whole = s.subrange(0, p);
    let frac = if p < s.len() {
        s.subrange(p + 1, s.len() as int)
    } else {
        Seq::empty()
    };
    if all_digits(whole) && all_digits(frac) && 1 <= whole.len() + frac.len() {
        Some((whole, frac))
    } else {
        None
    }
}

/// The number `whole.frac` is greater than `num`, compared exactly.
pub open spec fn value_gt_num(whole: Seq<char>, frac: Seq<char>, num: Decimal) -> bool {
    digits_value(whole + frac) * pow10(num.scale as nat) > num.signed_mantissa() * pow10(frac.len())
}

/// The number `whole.frac` is less than `num`, compared exactly.
pub open spec fn value_lt_num(whole: Seq<char>, frac: Seq<char>, num: Decimal) -> bool {
    digits_value(whole + frac) * pow10(num.scale as nat) < num.signed_mantissa() * pow10(frac.len())
}

pub open spec fn zeros(n: nat) -> Seq<char> {
    Seq::new(n, |i: int| '0')
}

proof fn lemma_pow10_add(a: nat, b: nat)
    ensures
        pow10(a + b) == pow10(a) * pow10(b),
    decreases b,
{
    if b > 0 {
        lemma_pow10_add(a, (b - 1) as nat);
        let pa = pow10(a);
        let pb = pow10((b - 1) as nat);
        assert((a + b - 1) as nat == a + (b - 1) as nat);
        assert(pow10(a + b) == 10 * pow10((a + b - 1) as nat));
        assert(pow10(b) == 10 * pb);
        assert(10 * (pa * pb) == pa * (10 * pb)) by (nonlinear_arith);
    } else {
        assert(a + b == a);
        assert(pow10(b) == 1);
    }
}

proof fn lemma_digits_concat(a: Seq<char>, b: Seq<char>)
    ensures
        digits_value(a + b) == digits_value(a) * pow10(b.len()) + digits_value(b),
    decreases b.len(),
{
    if b.len() == 0 {
        assert(a + b =~= a);
        assert(digits_value(b) == 0);
        assert(pow10(0) == 1);
    } else {
        let b1 = b.drop_last();
        assert((a + b).drop_last() =~= a + b1);
        assert((a + b).last() == b.last());
        lemma_digits_concat(a, b1);
        let x = digits_value(a);
        let y = digits_value(b1);
        let p = pow10(b1.len());
        let d = digit_value(b.last());
        assert(digits_value(a + b) == digits_value(a + b1) * 10 + d);
        assert(digits_value(b) == y * 10 + d);
        assert(pow10(b.len()) == 10 * p);
        assert((x * p + y) * 10 + d == x * (10 * p) + (y * 10 + d)) by (nonlinear_arith);
    }
}

proof fn lemma_zero_digits(s: Seq<char>)
    requires
        forall|i: int| 0 <= i < s.len() ==> s[i] == '0',
    ensures
        digits_value(s) == 0,
    decreases s.len(),
{
    if s.len() > 0 {
        lemma_zero_digits(s.drop_last());
    }
}

proof fn lemma_nonzero_digit(s: Seq<char>, i: int)
    requires
        all_digits(s),
        0 <= i < s.len(),
        s[i] != '0',
    ensures
        digits_value(s) > 0,
    decreases s.len(),
{
    assert(is_digit(s[s.len() - 1]));
    if i < s.len() - 1 {
        let t = s.drop_last();
        assert(all_digits(t)) by {
            assert forall|j: int| 0 <= j < t.len() implies is_digit(#[trigger] t[j]) by {
                assert(t[j] == s[j]);
            }
        }
        lemma_nonzero_digit(t, i);
    } else {
        assert(is_digit(s[i]));
    }
}

/// Comparing `w.f` with `m / 10^sc` exactly comes down to comparing `m` with
/// the digits of `w.f` up to `sc` places after the point, and, on a tie, to
/// whether any digit further on is not zero.
proof fn lemma_compare_by_prefix(w: Seq<char>, f: Seq<char>, sc: nat, m: nat)
    requires
        all_digits(f),
    ensures
        ({
            let k: int = if sc <= f.len() { sc as int } else { f.len() as int };
            let x = digits_value(w + (f.subrange(0, k) + zeros((sc - k) as nat)));
            let d = digits_value(f.subrange(k, f.len() as int));
            let lhs = digits_value(w + f) * pow10(sc);
            let rhs = m * pow10(f.len());
            &&& (lhs > rhs) == (x > m || (x == m && d > 0))
            &&& (lhs < rhs) == (x < m)
        }),
{
    let k: int = if sc <= f.len() { sc as int } else { f.len() as int };
    let z = zeros((sc - k) as nat);
    let g = w + (f.subrange(0, k) + z);
    let r = f.subrange(k, f.len() as int);
    let v = digits_value(w + f);
    if f.len() <= sc {
        assert(f.subrange(0, k) =~= f);
        assert(g =~= (w + f) + z);
        lemma_digits_concat(w + f, z);
        lemma_zero_digits(z);
        lemma_zero_digits(r);
        lemma_pow10_add((sc - f.len()) as nat, f.len());
        assert(sc == (sc - f.len()) as nat + f.len());
        let x = digits_value(g);
        let pz = pow10((sc - f.len()) as nat);
        let pf = pow10(f.len());
        lemma_pow10_mono(0, f.len());
        assert(x == v * pz);
        assert(v * pow10(sc) == x * pf) by (nonlinear_arith)
            requires
                x == v * pz,
                pow10(sc) == pz * pf,
        ;
        assert((x * pf > m * pf) == (x > m) && (x * pf < m * pf) == (x < m)) by (nonlinear_arith)
            requires
                pf >= 1,
        ;
    } else {
        let f1 = f.subrange(0, k);
        assert(z =~= Seq::<char>::empty());
        assert(g =~= w + f1);
        assert(w + f =~= (w + f1) + r);
        lemma_digits_concat(w + f1, r);
        assert(all_digits(r)) by {
            assert forall|j: int| 0 <= j < r.len() implies is_digit(#[trigger] r[j]) by {
                assert(r[j] == f[k + j]);
            }
        }
        lemma_digits_value_bound(r);
        lemma_pow10_add(r.len(), sc);
        assert(f.len() == r.len() + sc);
        let x = digits_value(g);
        let d = digits_value(r);
        let q = pow10(r.len());
        let ps = pow10(sc);
        lemma_pow10_mono(0, sc);
        assert(v == x * q + d);
        assert(pow10(f.len()) == q * ps);
        assert(((x * q + d) * ps > m * (q * ps)) == (x > m || (x == m && d > 0))) by (nonlinear_arith)
            requires
                0 <= d < q,
                ps >= 1,
        ;
        assert(((x * q + d) * ps < m * (q * ps)) == (x < m)) by (nonlinear_arith)
            requires
                0 <= d < q,
                ps >= 1,
        ;
    }
}

/// Where the decimal point of `s` stands (or `s.len()` when it has none), if
/// `s` reads as a number.
fn number_split(s: &Vec<char>) -> (r: Option<usize>)
    ensures
        r.is_some() == number_parts(s@).is_some(),
        r matches Some(p) ==> p == find_char(s@, '.', 0) && p <= s@.len(),
{
    let n = s.len();
    let mut p: usize = 0;
    while p < n && s[p] != '.'
        invariant
            p <= n == s@.len(),
            forall|j: int| 0 <= j < p ==> s@[j] != '.' && is_digit(s@[j]),
        decreases n - p,
    {
        if !('0' <= s[p] && s[p] <= '9') {
            proof {
                lemma_find_char_skip(s@, '.', 0, p as int);
                lemma_find_char_ge(s@, '.', p + 1);
                assert(s@.subrange(0, find_char(s@, '.', 0))[p as int] == s@[p as int]);
            }
            return None;
        }
        p += 1;
    }
    proof {
        lemma_find_char_first(s@, '.', 0, p as int);
        assert(all_digits(s@.subrange(0, p as int))) by {
            assert forall|j: int| 0 <= j < p implies is_digit(#[trigger] s@.subrange(0, p as int)[j]) by {
                assert(s@.subrange(0, p as int)[j] == s@[j]);
            }
        }
    }
    if p < n {
        let mut q: usize = p + 1;
        while q < n
            invariant
                p < q <= n == s@.len(),
                find_char(s@, '.', 0) == p,
                forall|j: int| p < j < q ==> is_digit(s@[j]),
            decreases n - q,
        {
            if !('0' <= s[q] && s[q] <= '9') {
                assert(s@.subrange(p + 1, n as int)[q - p - 1] == s@[q as int]);
                return None;
            }
            q += 1;
        }
        assert(all_digits(s@.subrange(p + 1, n as int))) by {
            assert forall|j: int| 0 <= j < n - p - 1 implies is_digit(
                #[trigger] s@.subrange(p + 1, n as int)[j],
            ) by {
                assert(s@.subrange(p + 1, n as int)[j] == s@[p + 1 + j]);
            }
        }
        if n == 1 {
            return None;
        }
    } else if n == 0 {
        return None;
    }
    Some(p)
}

/// The digits of `w.f` up to `sc` places after the point, padded with zeros.
pub open spec fn scaled_prefix(w: Seq<char>, f: Seq<char>, sc: nat) -> Seq<char> {
    let k: int = if sc <= f.len() { sc as int } else { f.len() as int };
    w + (f.subrange(0, k) + zeros((sc - k) as nat))
}

/// The digits of `f` from `sc` places after the point on.
pub open spec fn scaled_rest(f: Seq<char>, sc: nat) -> Seq<char> {
    let k: int = if sc <= f.len() { sc as int } else { f.len() as int };
    f.subrange(k, f.len() as int)
}

/// The digits before the point at `p` in `s`, then `sc` places after it.
fn scaled_digits(s: &Vec<char>, p: usize, sc: u32) -> (g: Vec<char>)
    requires
        number_parts(s@).is_some(),
        p == find_char(s@, '.', 0),
        p <= s@.len(),
    ensures
        g@ == scaled_prefix(number_parts(s@).unwrap().0, number_parts(s@).unwrap().1, sc as nat),
        all_digits(g@),
{
    let ghost (w, f) = number_parts(s@).unwrap();
    let n = s.len();
    let flen: usize = if p < n {
        n - p - 1
    } else {
        0
    };
    let ghost k: int = if sc as int <= flen as int {
        sc as int
    } else {
        flen as int
    };
    let ghost tail = f.subrange(0, k) + zeros((sc - k) as nat);
    assert forall|q: int| 0 <= q < sc implies #[trigger] tail[q] == (if q < flen {
        s@[p + 1 + q]
    } else {
        '0'
    }) by {
        if q < k {
            assert(tail[q] == f[q]);
        } else {
            assert(tail[q] == zeros((sc - k) as nat)[q - k]);
        }
    }
    let mut g: Vec<char> = Vec::new();
    let mut i: usize = 0;
    while i < p
        invariant
            i <= p <= n == s@.len(),
            w == s@.subrange(0, p as int),
            g@ == w.subrange(0, i as int),
        decreases p - i,
    {
        g.push(s[i]);
        i += 1;
        assert(g@ =~= w.subrange(0, i as int));
    }
    assert(g@ =~= w + tail.subrange(0, 0));
    let mut t: usize = 0;
    while t < sc as usize
        invariant
            t <= sc,
            p <= n == s@.len(),
            flen == n - p - 1 || (flen == 0 && p == n),
            tail.len() == sc,
            forall|q: int| 0 <= q < sc ==> #[trigger] tail[q] == (if q < flen {
                s@[p + 1 + q]
            } else {
                '0'
            }),
            g@ == w + tail.subrange(0, t as int),
        decreases sc - t,
    {
        let c = if t < flen {
            s[p + 1 + t]
        } else {
            '0'
        };
        g.push(c);
        t += 1;
        assert(g@ =~= w + tail.subrange(0, t as int));
    }
    assert(tail.subrange(0, sc as int) =~= tail);
    proof {
        let gg = g@;
        assert forall|q: int| 0 <= q < gg.len() implies is_digit(#[trigger] gg[q]) by {
            if q < w.len() {
                assert(gg[q] == w[q]);
            } else if q - w.len() < k {
                assert(gg[q] == f[q - w.len()]);
            } else {
                assert(gg[q] == tail[q - w.len()]);
            }
        }
    }
    g
}

/// The number that the digits `g` spell, unless it reaches `10^18`.
fn saturating_value(g: &Vec<char>) -> (r: Option<u64>)
    requires
        all_digits(g@),
    ensures
        match r {
            Some(x) => x == digits_value(g@) && x < pow10(MAX_DIGITS as nat),
            None => digits_value(g@) >= pow10(MAX_DIGITS as nat),
        },
{
    proof {
        reveal_with_fuel(pow10, 19);
    }
    let limit: u64 = 1000000000000000000;
    let mut x: u64 = 0;
    let mut i: usize = 0;
    while i < g.len()
        invariant
            i <= g@.len(),
            all_digits(g@),
            limit == 1000000000000000000,
            pow10(MAX_DIGITS as nat) == limit,
            x == digits_value(g@.subrange(0, i as int)),
            x < limit,
        decreases g@.len() - i,
    {
        assert(is_digit(g@[i as int]));
        assert(g@.subrange(0, i + 1).drop_last() =~= g@.subrange(0, i as int));
        let d = (g[i] as u32 - '0' as u32) as u64;
        let y = x * 10 + d;
        if y >= limit {
            proof {
                let a = g@.subrange(0, i + 1);
                let b = g@.subrange(i + 1, g@.len() as int);
                assert(digits_value(a) == y);
                assert(g@ =~= a + b);
                lemma_digits_concat(a, b);
                lemma_pow10_mono(0, b.len());
                let va = digits_value(a);
                let pb = pow10(b.len());
                let vb = digits_value(b);
                assert(va * pb + vb >= va) by (nonlinear_arith)
                    requires
                        pb >= 1,
                ;
            }
            return None;
        }
        x = y;
        i += 1;
    }
    assert(g@.subrange(0, i as int) =~= g@);
    Some(x)
}

/// Whether `s[from..]` holds a character other than `0`.
fn has_nonzero_from(s: &Vec<char>, from: usize) -> (r: bool)
    requires
        from <= s@.len(),
    ensures
        r == exists|i: int| from <= i < s@.len() && s@[i] != '0',
{
    let mut i: usize = from;
    while i < s.len()
        invariant
            from <= i <= s@.len(),
            forall|q: int| from <= q < i ==> s@[q] == '0',
        decreases s@.len() - i,
    {
        if s[i] != '0' {
            return true;
        }
        i += 1;
    }
    false
}

/// The sign of `w.f - m / 10^sc`, where `w` and `f` are the digits of `s`
/// before and after the decimal point at `p`.
fn compare_magnitude(s: &Vec<char>, p: usize, m: u64, sc: u32) -> (r: i8)
    requires
        number_parts(s@).is_some(),
        p == find_char(s@, '.', 0),
        p <= s@.len(),
        m < pow10(MAX_DIGITS as nat),
    ensures
        ({
            let (w, f) = number_parts(s@).unwrap();
            let lhs = digits_value(w + f) * pow10(sc as nat);
            let rhs = m * pow10(f.len());
            &&& (r > 0) == (lhs > rhs)
            &&& (r < 0) == (lhs < rhs)
        }),
{
    let ghost (w, f) = number_parts(s@).unwrap();
    proof {
        lemma_compare_by_prefix(w, f, sc as nat, m as nat);
    }
    let g = scaled_digits(s, p, sc);
    match saturating_value(&g) {
        None => 1,
        Some(x) => {
            if x > m {
                1
            } else if x < m {
                -1
            } else {
                let n = s.len();
                let flen: usize = if p < n {
                    n - p - 1
                } else {
                    0
                };
                let k: usize = if (sc as usize) <= flen {
                    sc as usize
                } else {
                    flen
                };
                let ghost rest = scaled_rest(f, sc as nat);
                if k == flen {
                    assert(rest.len() == 0);
                    proof {
                        lemma_zero_digits(rest);
                    }
                    0
                } else {
                    assert(rest =~= s@.subrange(p + 1 + k, n as int));
                    assert(all_digits(rest)) by {
                        assert forall|i: int| 0 <= i < rest.len() implies is_digit(#[trigger] rest[i]) by {
                            assert(rest[i] == f[k + i]);
                        }
                    }
                    if has_nonzero_from(s, p + 1 + k) {
                        proof {
                            let i = choose|i: int| p + 1 + k <= i < s@.len() && s@[i] != '0';
                            assert(rest[i - (p + 1 + k)] == s@[i]);
                            lemma_nonzero_digit(rest, i - (p + 1 + k));
                        }
                        1
                    } else {
                        proof {
                            assert forall|i: int| 0 <= i < rest.len() implies rest[i] == '0' by {
                                assert(rest[i] == s@[p + 1 + k + i]);
                            }
                            lemma_zero_digits(rest);
                        }
                        0
                    }
                }
            }
        },
    }
}

} // verus!
