use vstd::prelude::*;
use vstd::string::*;

use crate::order_book::BookError;

verus! {

/// Number of decimal places of the fixed-point prices and quantities.
pub const FRACTION_DIGITS: usize = 8;

/// `10^FRACTION_DIGITS`: the fixed-point value of one whole unit.
pub const SCALE: u64 = 100_000_000;

pub open spec fn pow10(n: nat) -> int
    decreases n,
{
    if n == 0 {
        1
    } else {
        10 * pow10((n - 1) as nat)
    }
}

pub open spec fn is_digit(c: char) -> bool {
    '0' <= c && c <= '9'
}

pub open spec fn digit_value(c: char) -> int {
    c as int - '0' as int
}

pub open spec fn all_digits(s: Seq<char>) -> bool {
    forall|i: int| 0 <= i < s.len() ==> is_digit(#[trigger] s[i])
}

/// The number that a string of decimal digits denotes.
pub open spec fn digits_value(s: Seq<char>) -> int
    decreases s.len(),
{
    if s.len() == 0 {
        0
    } else {
        digits_value(s.drop_last()) * 10 + digit_value(s.last())
    }
}

/// `s` is `whole '.' fraction`, the dot at `k`, with at least one digit on
/// each side and at most `FRACTION_DIGITS` digits after the dot.
pub open spec fn is_split_at(s: Seq<char>, k: int) -> bool {
    &&& 0 < k < s.len() - 1
    &&& s[k] == '.'
    &&& all_digits(s.take(k))
    &&& all_digits(s.skip(k + 1))
    &&& s.len() - k - 1 <= FRACTION_DIGITS
}

/// The fixed-point value of `whole '.' fraction` split at `k`.
pub open spec fn split_value(s: Seq<char>, k: int) -> int {
    digits_value(s.take(k)) * SCALE + digits_value(s.skip(k + 1)) * pow10(
        (FRACTION_DIGITS - (s.len() - k - 1)) as nat,
    )
}

/// The value of the decimal numeral `s` in units of `1 / SCALE`: `s` is a
/// non-empty run of digits, optionally followed by a dot and one to
/// `FRACTION_DIGITS` digits. No sign, exponent or blank is part of a numeral.
pub open spec fn numeral_value(s: Seq<char>) -> Option<int> {
    if s.len() > 0 && all_digits(s) {
        Some(digits_value(s) * SCALE)
    } else if exists|k: int| is_split_at(s, k) {
        Some(split_value(s, choose|k: int| is_split_at(s, k)))
    } else {
        None
    }
}

/// What decoding one field gives: the fixed-point value, where `s` is a
/// numeral whose value fits in a `u64`.
pub open spec fn decimal_result(s: Seq<char>) -> Result<u64, BookError> {
    match numeral_value(s) {
        Some(v) => if v <= u64::MAX {
            Ok(v as u64)
        } else {
            Err(BookError::Parse)
        },
        None => Err(BookError::Parse),
    }
}

proof fn lemma_digits_prefix_monotone(s: Seq<char>, i: int, j: int)
    requires
        0 <= i <= j <= s.len(),
        all_digits(s),
    ensures
        0 <= digits_value(s.take(i)) <= digits_value(s.take(j)),
    decreases j - i,
{
    if i < j {
        lemma_digits_prefix_monotone(s, i, j - 1);
        assert(s.take(j).drop_last() =~= s.take(j - 1));
        assert(s.take(j).last() == s[j - 1]);
    } else {
        lemma_digits_nonneg(s.take(i));
    }
}

proof fn lemma_digits_nonneg(s: Seq<char>)
    requires
        all_digits(s),
    ensures
        digits_value(s) >= 0,
    decreases s.len(),
{
    if s.len() > 0 {
        lemma_digits_nonneg(s.drop_last());
    }
}

proof fn lemma_split_unique(s: Seq<char>, k: int, j: int)
    requires
        is_split_at(s, k),
        is_split_at(s, j),
    ensures
        k == j,
{
    if j < k {
        assert(s.take(k)[j] == s[j]);
    } else if k < j {
        assert(s.take(j)[k] == s[k]);
    }
}

proof fn lemma_fraction_small(f: Seq<char>)
    requires
        all_digits(f),
    ensures
        0 <= digits_value(f) < pow10(f.len()),
    decreases f.len(),
{
    if f.len() > 0 {
        let g = f.drop_last();
        assert(all_digits(g)) by {
            assert forall|i: int| 0 <= i < g.len() implies is_digit(#[trigger] g[i]) by {
                assert(g[i] == f[i]);
            }
        }
        lemma_fraction_small(g);
        assert(pow10(f.len()) == 10 * pow10(g.len()));
    }
}

proof fn lemma_pow10_bounds(m: nat)
    requires
        m <= FRACTION_DIGITS,
    ensures
        0 < pow10(m) <= SCALE,
    decreases m,
{
    if m > 0 {
        lemma_pow10_bounds((m - 1) as nat);
        assert(pow10((m - 1) as nat) <= pow10(7)) by {
            lemma_pow10_mono((m - 1) as nat, 7);
        }
        reveal_with_fuel(pow10, 8);
    }
}

proof fn lemma_pow10_mono(a: nat, b: nat)
    requires
        a <= b,
    ensures
        0 < pow10(a) <= pow10(b),
    decreases b,
{
    if a < b {
        lemma_pow10_mono(a, (b - 1) as nat);
    } else if a > 0 {
        lemma_pow10_mono((a - 1) as nat, (a - 1) as nat);
    }
}

/// Facts on the shape of `s` gathered by `parse_decimal`: `k` is the first dot
/// (or the length, where there is none) and every other character is a digit.
pub open spec fn scanned(s: Seq<char>, k: int) -> bool {
    &&& 0 <= k <= s.len()
    &&& forall|j: int| 0 <= j < k ==> s[j] != '.'
    &&& k < s.len() ==> s[k] == '.'
}

/// The fraction part of `s` split at `k`, scaled to `FRACTION_DIGITS` places.
pub open spec fn scaled_fraction(s: Seq<char>, k: int) -> int {
    if k < s.len() {
        digits_value(s.skip(k + 1)) * pow10((FRACTION_DIGITS - (s.len() - k - 1)) as nat)
    } else {
        0
    }
}

proof fn lemma_no_numeral_bad_dot(s: Seq<char>, k: int)
    requires
        scanned(s, k),
        k == 0 || (k < s.len() && (k + 1 == s.len() || s.len() - k - 1 > FRACTION_DIGITS)),
    ensures
        numeral_value(s) is None,
{
    if s.len() > 0 {
        assert(!is_digit(s[k]));
    }
    if exists|j: int| is_split_at(s, j) {
        let j = choose|j: int| is_split_at(s, j);
        if j > k {
            assert(s.take(j)[k] == s[k]);
        } else if j < k {
            assert(s[j] == '.');
        }
    }
}

proof fn lemma_no_numeral_bad_char(s: Seq<char>, k: int, i: int)
    requires
        scanned(s, k),
        0 <= i < s.len(),
        i != k,
        !is_digit(s[i]),
    ensures
        numeral_value(s) is None,
{
    if exists|j: int| is_split_at(s, j) {
        let j = choose|j: int| is_split_at(s, j);
        if j > k {
            assert(s.take(j)[k] == s[k]);
        } else if j < k {
            assert(s[j] == '.');
        } else if i < k {
            assert(s.take(k)[i] == s[i]);
        } else {
            assert(s.skip(k + 1)[i - k - 1] == s[i]);
        }
    }
}

proof fn lemma_numeral_shape(s: Seq<char>, k: int)
    requires
        scanned(s, k),
        0 < k,
        k < s.len() ==> k + 1 < s.len() && s.len() - k - 1 <= FRACTION_DIGITS,
        forall|j: int| 0 <= j < s.len() && j != k ==> is_digit(#[trigger] s[j]),
    ensures
        numeral_value(s) == Some(digits_value(s.take(k)) * SCALE + scaled_fraction(s, k)),
        digits_value(s.take(k)) >= 0,
        scaled_fraction(s, k) >= 0,
{
    assert(all_digits(s.take(k))) by {
        assert forall|j: int| 0 <= j < k implies is_digit(#[trigger] s.take(k)[j]) by {
            assert(s.take(k)[j] == s[j]);
        }
    }
    lemma_digits_nonneg(s.take(k));
    if k == s.len() {
        assert(s.take(k) =~= s);
    } else {
        assert(all_digits(s.skip(k + 1))) by {
            assert forall|j: int| 0 <= j < s.len() - k - 1 implies is_digit(
                #[trigger] s.skip(k + 1)[j],
            ) by {
                assert(s.skip(k + 1)[j] == s[j + k + 1]);
            }
        }
        assert(is_split_at(s, k));
        assert(!is_digit(s[k]));
        let j = choose|j: int| is_split_at(s, j);
        lemma_split_unique(s, k, j);
        lemma_digits_nonneg(s.skip(k + 1));
        lemma_pow10_mono(0, (FRACTION_DIGITS - (s.len() - k - 1)) as nat);
        assert(scaled_fraction(s, k) >= 0) by (nonlinear_arith)
            requires
                scaled_fraction(s, k) == digits_value(s.skip(k + 1)) * pow10(
                    (FRACTION_DIGITS - (s.len() - k - 1)) as nat,
                ),
                digits_value(s.skip(k + 1)) >= 0,
                pow10((FRACTION_DIGITS - (s.len() - k - 1)) as nat) > 0,
        ;
    }
}

/// Reads the digits `s[from..to]` as a number, giving up (with `None`) once
/// the value exceeds `u64::MAX`.
fn read_digits(s: &str, from: usize, to: usize) -> (r: Option<u64>)
    requires
        from <= to <= s@.len(),
        all_digits(s@.subrange(from as int, to as int)),
    ensures
        match r {
            Some(v) => v == digits_value(s@.subrange(from as int, to as int)),
            None => digits_value(s@.subrange(from as int, to as int)) > u64::MAX,
        },
{
    let ghost d = s@.subrange(from as int, to as int);
    let mut acc: u64 = 0;
    let mut i: usize = from;
    while i < to
        invariant
            from <= i <= to <= s@.len(),
            d == s@.subrange(from as int, to as int),
            all_digits(d),
            acc == digits_value(d.take(i - from)),
        decreases to - i,
    {
        let c = s.get_char(i);
        proof {
            assert(d[i - from] == c);
            assert(d.take(i + 1 - from).drop_last() =~= d.take(i - from));
            assert(d.take(i + 1 - from).last() == c);
        }
        let dv: u64 = (c as u32 - '0' as u32) as u64;
        if acc > (u64::MAX - dv) / 10 {
            proof {
                lemma_digits_prefix_monotone(d, i + 1 - from, d.len() as int);
                assert(d.take(d.len() as int) =~= d);
            }
            return None;
        }
        acc = acc * 10 + dv;
        i = i + 1;
    }
    proof {
        assert(d.take(i - from) =~= d);
    }
    Some(acc)
}

/// Decodes a decimal numeral into fixed-point units of `1 / SCALE`
/// ("39982.8" is `3998280000000`). Anything that is not a numeral of at most
/// `FRACTION_DIGITS` decimal places, or whose value exceeds `u64::MAX` units,
/// is rejected with `BookError::Parse`; nothing is coerced to zero.
pub fn parse_decimal(s: &str) -> (r: Result<u64, BookError>)
    ensures
        r == decimal_result(s@),
{
    let n = s.unicode_len();
    // The first dot, or `n` where there is none.
    let mut k: usize = 0;
    while k < n && s.get_char(k) != '.'
        invariant
            n == s@.len(),
            k <= n,
            forall|j: int| 0 <= j < k ==> s@[j] != '.',
        decreases n - k,
    {
        k = k + 1;
    }
    // A dot must have digits on both sides and at most FRACTION_DIGITS after it.
    if k == 0 || (k < n && (k + 1 == n || n - k - 1 > FRACTION_DIGITS)) {
        proof {
            lemma_no_numeral_bad_dot(s@, k as int);
        }
        return Err(BookError::Parse);
    }
    let mut i: usize = 0;
    while i < n
        invariant
            n == s@.len(),
            k <= n,
            scanned(s@, k as int),
            forall|j: int| 0 <= j < i && j != k ==> is_digit(#[trigger] s@[j]),
        decreases n - i,
    {
        if i != k {
            let c = s.get_char(i);
            if !('0' <= c && c <= '9') {
                proof {
                    lemma_no_numeral_bad_char(s@, k as int, i as int);
                }
                return Err(BookError::Parse);
            }
        }
        i = i + 1;
    }
    let ghost sv = s@;
    proof {
        lemma_numeral_shape(sv, k as int);
        assert(sv.take(k as int) =~= sv.subrange(0, k as int));
    }
    let whole = read_digits(s, 0, k);
    match whole {
        None => Err(BookError::Parse),
        Some(w) => {
            let mut frac: u64 = 0;
            if k < n {
                let ghost f = sv.subrange(k + 1, n as int);
                proof {
                    assert(f =~= sv.skip(k + 1));
                }
                let digits = read_digits(s, k + 1, n);
                proof {
                    lemma_fraction_small(f);
                    lemma_pow10_bounds(f.len());
                }
                frac = digits.unwrap();
                let mut m: usize = n - k - 1;
                while m < FRACTION_DIGITS
                    invariant
                        n == sv.len(),
                        k < n,
                        f == sv.skip(k + 1),
                        n - k - 1 <= m <= FRACTION_DIGITS,
                        frac == digits_value(f) * pow10((m - (n - k - 1)) as nat),
                        frac < pow10(m as nat),
                    decreases FRACTION_DIGITS - m,
                {
                    proof {
                        lemma_pow10_bounds((m + 1) as nat);
                        assert(pow10((m + 1 - (n - k - 1)) as nat) == 10 * pow10(
                            (m - (n - k - 1)) as nat,
                        ));
                        assert(digits_value(f) * (10 * pow10((m - (n - k - 1)) as nat)) == 10 * (
                        digits_value(f) * pow10((m - (n - k - 1)) as nat))) by (nonlinear_arith);
                    }
                    frac = frac * 10;
                    m = m + 1;
                }
            }
            assert(frac == scaled_fraction(sv, k as int));
            assert((w as u128) * (SCALE as u128) <= u64::MAX as u128 * (SCALE as u128))
                by (nonlinear_arith);
            let total: u128 = (w as u128) * (SCALE as u128) + frac as u128;
            if total > u64::MAX as u128 {
                Err(BookError::Parse)
            } else {
                Ok(total as u64)
            }
        },
    }
}

} // verus!
