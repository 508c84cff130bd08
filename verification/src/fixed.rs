//! Fixed-point decimal coordinates.
//!
//! Coordinates travel through the pipeline as decimal-degree text such as
//! `43.6452` and are held scaled by `10^7` in an `i32`, which covers the
//! whole latitude/longitude range at about centimetre precision.  This
//! module gives the verified parser and formatter for that representation,
//! and proves that formatting then parsing returns the original value.
//!
//! Accepted numeric text is plain decimal notation: an optional sign,
//! digits, and at most one decimal point, with at least one digit in all.
//! Fractional digits beyond the seventh are read and discarded.  A value
//! whose magnitude does not fit in `i32` is rejected.

use vstd::prelude::*;

verus! {

/// Decimal degrees are held multiplied by this factor.
pub const COORD_SCALE: u32 = 10000000;

pub open spec fn is_ascii_digit(b: u8) -> bool {
    0x30 <= b && b <= 0x39
}

pub open spec fn digit_val(b: u8) -> int {
    b - 0x30
}

pub open spec fn all_digits(d: Seq<u8>) -> bool {
    forall|k: int| 0 <= k < d.len() ==> is_ascii_digit(#[trigger] d[k])
}

/// Value of a digit string, most significant digit first.
pub open spec fn val_of_digits(d: Seq<u8>) -> int
    decreases d.len(),
{
    if d.len() == 0 {
        0
    } else {
        val_of_digits(d.drop_last()) * 10 + digit_val(d.last())
    }
}

/// Scan a run of digits starting at `i`, accumulating onto `acc`; the scan
/// stops at the first non-digit, at the end of the input, or once `acc`
/// exceeds `cap`.  Returns the accumulated value and the stop position.
pub open spec fn scan_digits(s: Seq<u8>, i: int, acc: int, cap: int) -> (int, int)
    decreases s.len() - i,
        when 0 <= i <= s.len()
{
    if i < s.len() && is_ascii_digit(s[i]) && acc <= cap {
        scan_digits(s, i + 1, acc * 10 + digit_val(s[i]), cap)
    } else {
        (acc, i)
    }
}

/// Scan fractional digits starting at `i`: the first seven are accumulated
/// onto `acc`, later ones are read and discarded.  Returns the accumulated
/// value, the stop position, and the count of accumulated digits.
pub open spec fn scan_frac(s: Seq<u8>, i: int, acc: int, k: int) -> (int, int, int)
    decreases s.len() - i,
        when 0 <= i <= s.len()
{
    if i < s.len() && is_ascii_digit(s[i]) {
        if k < 7 {
            scan_frac(s, i + 1, acc * 10 + digit_val(s[i]), k + 1)
        } else {
            scan_frac(s, i + 1, acc, k)
        }
    } else {
        (acc, i, k)
    }
}

/// `10^(7-k)`, the padding factor that extends `k` fractional digits to
/// seven.
pub open spec fn pad_factor(k: int) -> int {
    if k <= 0 {
        10000000
    } else if k == 1 {
        1000000
    } else if k == 2 {
        100000
    } else if k == 3 {
        10000
    } else if k == 4 {
        1000
    } else if k == 5 {
        100
    } else if k == 6 {
        10
    } else {
        1
    }
}

/// Leading sign of a coordinate: whether it is negative, and the position
/// of the first digit.
pub open spec fn coord_sign(s: Seq<u8>) -> (bool, int) {
    if s.len() > 0 && s[0] == 0x2du8 {
        (true, 1)
    } else if s.len() > 0 && s[0] == 0x2bu8 {
        (false, 1)
    } else {
        (false, 0)
    }
}

/// A nonnegative magnitude and a sign, squeezed into the `i32` range, or
/// `None` where it does not fit.
pub open spec fn coord_in_range(neg: bool, m: int) -> Option<int> {
    if neg && m <= 0x80000000 {
        Some(-m)
    } else if !neg && m <= 0x7fffffff {
        Some(m)
    } else {
        None
    }
}

/// What `parse_coord` returns: the scaled fixed-point value of decimal
/// coordinate text, or `None` where the text is not plain decimal notation
/// or does not fit.
pub open spec fn spec_parse_coord(s: Seq<u8>) -> Option<int> {
    let (neg, i0) = coord_sign(s);
    let (ip, i1) = scan_digits(s, i0, 0, 0x7fffffff);
    if i1 < s.len() && s[i1] == 0x2eu8 {
        let (fp, i2, k) = scan_frac(s, i1 + 1, 0, 0);
        if i2 == s.len() && (i1 - i0) + k > 0 {
            coord_in_range(neg, ip * 10000000 + fp * pad_factor(k))
        } else {
            None
        }
    } else if i1 == s.len() && i1 - i0 > 0 {
        coord_in_range(neg, ip * 10000000)
    } else {
        None
    }
}

fn pad_factor_exec(k: u32) -> (r: i64)
    ensures
        r == pad_factor(k as int),
{
    if k == 0 {
        10000000
    } else if k == 1 {
        1000000
    } else if k == 2 {
        100000
    } else if k == 3 {
        10000
    } else if k == 4 {
        1000
    } else if k == 5 {
        100
    } else if k == 6 {
        10
    } else {
        1
    }
}

/// Parse decimal-degree text into the scaled fixed-point representation.
pub fn parse_coord(s: &[u8]) -> (r: Option<i32>)
    ensures
        match r {
            Some(v) => spec_parse_coord(s@) == Some(v as int),
            None => spec_parse_coord(s@) is None,
        },
{
    let n = s.len();
    let mut i: usize = 0;
    let mut neg = false;
    if n > 0 && (s[0] == 0x2d || s[0] == 0x2b) {
        neg = s[0] == 0x2d;
        i = 1;
    }
    let i0 = i;
    let mut acc: i64 = 0;
    while i < n && 0x30 <= s[i] && s[i] <= 0x39 && acc <= 0x7fffffff
        invariant
            n == s@.len(),
            i0 <= i <= n,
            0 <= acc <= 0x7fffffffi64 * 10 + 9,
            scan_digits(s@, i0 as int, 0, 0x7fffffff) == scan_digits(
                s@,
                i as int,
                acc as int,
                0x7fffffff,
            ),
        decreases n - i,
    {
        acc = acc * 10 + ((s[i] - 0x30) as i64);
        i += 1;
    }
    proof {
        assert(scan_digits(s@, i as int, acc as int, 0x7fffffff) == (acc as int, i as int));
    }
    if i < n && s[i] == 0x2e {
        i += 1;
        let f0 = i;
        let mut facc: i64 = 0;
        let mut k: u32 = 0;
        while i < n && 0x30 <= s[i] && s[i] <= 0x39
            invariant
                n == s@.len(),
                f0 <= i <= n,
                0 <= k <= 7,
                0 <= facc < pad_factor(7 - k as int),
                scan_frac(s@, f0 as int, 0, 0) == scan_frac(s@, i as int, facc as int, k as int),
            decreases n - i,
        {
            if k < 7 {
                facc = facc * 10 + ((s[i] - 0x30) as i64);
                k += 1;
            }
            i += 1;
        }
        proof {
            assert(scan_frac(s@, i as int, facc as int, k as int) == (
                facc as int,
                i as int,
                k as int,
            ));
        }
        if i == n && (f0 - 1 > i0 || k > 0) {
            let m: i64 = acc * 10000000 + facc * pad_factor_exec(k);
            finish_coord(neg, m)
        } else {
            None
        }
    } else if i == n && i > i0 {
        let m: i64 = acc * 10000000;
        finish_coord(neg, m)
    } else {
        None
    }
}

/// Apply the sign and the `i32` range check to a parsed magnitude.
fn finish_coord(neg: bool, m: i64) -> (r: Option<i32>)
    requires
        0 <= m,
    ensures
        match r {
            Some(v) => coord_in_range(neg, m as int) == Some(v as int),
            None => coord_in_range(neg, m as int) is None,
        },
{
    if neg {
        if m <= 0x80000000 {
            Some((-m) as i32)
        } else {
            None
        }
    } else {
        if m <= 0x7fffffff {
            Some(m as i32)
        } else {
            None
        }
    }
}

/// What `parse_count` returns: the value of a small nonnegative integer
/// code, or `None` where the text is not digits or does not fit in `u32`.
pub open spec fn spec_parse_count(s: Seq<u8>) -> Option<u32> {
    let i0: int = if s.len() > 0 && s[0] == 0x2bu8 {
        1
    } else {
        0
    };
    let (v, i1) = scan_digits(s, i0, 0, 0xffffffff);
    if i1 == s.len() && i1 - i0 > 0 && v <= 0xffffffff {
        Some(v as u32)
    } else {
        None
    }
}

/// Parse a small nonnegative integer code such as `wheelchair_boarding`.
pub fn parse_count(s: &[u8]) -> (r: Option<u32>)
    ensures
        r == spec_parse_count(s@),
{
    let n = s.len();
    let mut i: usize = 0;
    if n > 0 && s[0] == 0x2b {
        i = 1;
    }
    let i0 = i;
    let mut acc: i64 = 0;
    while i < n && 0x30 <= s[i] && s[i] <= 0x39 && acc <= 0xffffffff
        invariant
            n == s@.len(),
            i0 <= i <= n,
            0 <= acc <= 0xffffffffi64 * 10 + 9,
            scan_digits(s@, i0 as int, 0, 0xffffffff) == scan_digits(
                s@,
                i as int,
                acc as int,
                0xffffffff,
            ),
        decreases n - i,
    {
        acc = acc * 10 + ((s[i] - 0x30) as i64);
        i += 1;
    }
    proof {
        assert(scan_digits(s@, i as int, acc as int, 0xffffffff) == (acc as int, i as int));
    }
    if i == n && i > i0 && acc <= 0xffffffff {
        Some(acc as u32)
    } else {
        None
    }
}

/// Decimal representation of a nonnegative number, most significant digit
/// first, no leading zeros (a single `0` for zero).
pub open spec fn dec_rep(n: int) -> Seq<u8>
    decreases n,
        when n >= 0
{
    if n < 10 {
        seq![(0x30 + n) as u8]
    } else {
        dec_rep(n / 10).push((0x30 + n % 10) as u8)
    }
}

/// Decimal representation of `n` in exactly `w` digits, zero padded.
pub open spec fn dec_pad(n: int, w: int) -> Seq<u8>
    decreases w,
        when n >= 0 && w >= 0
{
    if w <= 0 {
        Seq::empty()
    } else {
        dec_pad(n / 10, w - 1).push((0x30 + n % 10) as u8)
    }
}

/// What `format_coord` returns: sign, integer degrees, a point, and seven
/// fractional digits.
pub open spec fn spec_format_coord(v: int) -> Seq<u8> {
    let m = if v < 0 {
        -v
    } else {
        v
    };
    let sign: Seq<u8> = if v < 0 {
        seq![0x2du8]
    } else {
        Seq::empty()
    };
    sign + dec_rep(m / 10000000) + seq![0x2eu8] + dec_pad(m % 10000000, 7)
}

/// Append the decimal representation of `n`.
pub fn push_dec(out: &mut Vec<u8>, n: u64)
    ensures
        final(out)@ == old(out)@ + dec_rep(n as int),
    decreases n,
{
    if n < 10 {
        out.push(0x30 + (n as u8));
        proof {
            assert(dec_rep(n as int) =~= seq![(0x30 + n) as u8]);
            assert(out@ =~= old(out)@ + dec_rep(n as int));
        }
    } else {
        push_dec(out, n / 10);
        out.push(0x30 + ((n % 10) as u8));
        proof {
            assert(dec_rep(n as int) =~= dec_rep((n / 10) as int).push((0x30 + n % 10) as u8));
            assert(out@ =~= old(out)@ + dec_rep(n as int));
        }
    }
}

/// Append exactly `w` digits of `n`, zero padded.
pub fn push_pad(out: &mut Vec<u8>, n: u64, w: u64)
    ensures
        final(out)@ == old(out)@ + dec_pad(n as int, w as int),
    decreases w,
{
    if w == 0 {
        proof {
            assert(out@ =~= old(out)@ + dec_pad(n as int, 0));
        }
    } else {
        push_pad(out, n / 10, w - 1);
        out.push(0x30 + ((n % 10) as u8));
        proof {
            assert(out@ =~= old(out)@ + dec_pad(n as int, w as int));
        }
    }
}

/// Format a scaled fixed-point coordinate as decimal-degree text.
pub fn format_coord(v: i32) -> (r: Vec<u8>)
    ensures
        r@ == spec_format_coord(v as int),
{
    let m: i64 = if v < 0 {
        -(v as i64)
    } else {
        v as i64
    };
    let mut out: Vec<u8> = Vec::new();
    if v < 0 {
        out.push(0x2d);
    }
    push_dec(&mut out, (m / 10000000) as u64);
    out.push(0x2e);
    push_pad(&mut out, (m % 10000000) as u64, 7);
    proof {
        assert(out@ =~= spec_format_coord(v as int));
    }
    out
}

} // verus!

verus! {

pub proof fn lemma_dec_rep_digits(n: int)
    requires
        n >= 0,
    ensures
        all_digits(dec_rep(n)),
        dec_rep(n).len() >= 1,
    decreases n,
{
    if n < 10 {
        assert forall|k: int| 0 <= k < dec_rep(n).len() implies is_ascii_digit(
            #[trigger] dec_rep(n)[k],
        ) by {
            assert(dec_rep(n)[0] == (0x30 + n) as u8);
        }
    } else {
        lemma_dec_rep_digits(n / 10);
        assert forall|k: int| 0 <= k < dec_rep(n).len() implies is_ascii_digit(
            #[trigger] dec_rep(n)[k],
        ) by {
            if k < dec_rep(n / 10).len() {
                assert(dec_rep(n)[k] == dec_rep(n / 10)[k]);
            } else {
                assert(dec_rep(n)[k] == (0x30 + n % 10) as u8);
            }
        }
    }
}

proof fn lemma_dec_pad_digits(n: int, w: int)
    requires
        n >= 0,
        w >= 0,
    ensures
        all_digits(dec_pad(n, w)),
        dec_pad(n, w).len() == w,
    decreases w,
{
    if w > 0 {
        lemma_dec_pad_digits(n / 10, w - 1);
        assert forall|k: int| 0 <= k < dec_pad(n, w).len() implies is_ascii_digit(
            #[trigger] dec_pad(n, w)[k],
        ) by {
            if k < dec_pad(n / 10, w - 1).len() {
                assert(dec_pad(n, w)[k] == dec_pad(n / 10, w - 1)[k]);
            } else {
                assert(dec_pad(n, w)[k] == (0x30 + n % 10) as u8);
            }
        }
    }
}

proof fn lemma_val_nonneg(d: Seq<u8>)
    requires
        all_digits(d),
    ensures
        val_of_digits(d) >= 0,
    decreases d.len(),
{
    if d.len() > 0 {
        assert forall|k: int| 0 <= k < d.drop_last().len() implies is_ascii_digit(
            #[trigger] d.drop_last()[k],
        ) by {
            assert(d.drop_last()[k] == d[k]);
        }
        lemma_val_nonneg(d.drop_last());
        assert(is_ascii_digit(d.last()));
    }
}

proof fn lemma_val_dec_rep(n: int)
    requires
        n >= 0,
    ensures
        val_of_digits(dec_rep(n)) == n,
    decreases n,
{
    if n < 10 {
        let d = dec_rep(n);
        assert(d.drop_last() =~= Seq::<u8>::empty());
        assert(val_of_digits(Seq::<u8>::empty()) == 0);
        assert(d.last() == (0x30 + n) as u8);
        assert(val_of_digits(d) == digit_val((0x30 + n) as u8));
    } else {
        lemma_val_dec_rep(n / 10);
        let d = dec_rep(n);
        assert(d.drop_last() =~= dec_rep(n / 10));
        assert(d.last() == (0x30 + n % 10) as u8);
    }
}

spec fn pow10(k: int) -> int
    decreases k,
        when k >= 0
{
    if k <= 0 {
        1
    } else {
        10 * pow10(k - 1)
    }
}

proof fn lemma_pow10_7()
    ensures
        pow10(7) == 10000000,
{
    assert(pow10(0) == 1);
    assert(pow10(1) == 10);
    assert(pow10(2) == 100);
    assert(pow10(3) == 1000);
    assert(pow10(4) == 10000);
    assert(pow10(5) == 100000);
    assert(pow10(6) == 1000000);
    assert(pow10(7) == 10000000);
}

proof fn lemma_val_dec_pad(n: int, w: int)
    requires
        w >= 0,
        0 <= n < pow10(w),
    ensures
        val_of_digits(dec_pad(n, w)) == n,
    decreases w,
{
    if w == 0 {
        assert(dec_pad(n, w) =~= Seq::<u8>::empty());
    } else {
        assert(n / 10 < pow10(w - 1)) by {
            assert(n == 10 * (n / 10) + n % 10);
        }
        lemma_val_dec_pad(n / 10, w - 1);
        let d = dec_pad(n, w);
        assert(d.drop_last() =~= dec_pad(n / 10, w - 1));
        assert(d.last() == (0x30 + n % 10) as u8);
        assert(digit_val((0x30 + n % 10) as u8) == n % 10);
    }
}

proof fn lemma_val_prefix_step(s: Seq<u8>, i0: int, i: int)
    requires
        0 <= i0 <= i < s.len(),
        is_ascii_digit(s[i]),
    ensures
        val_of_digits(s.subrange(i0, i + 1)) == val_of_digits(s.subrange(i0, i)) * 10 + digit_val(
            s[i],
        ),
{
    assert(s.subrange(i0, i + 1).drop_last() =~= s.subrange(i0, i));
    assert(s.subrange(i0, i + 1).last() == s[i]);
}

proof fn lemma_val_prefix_mono(s: Seq<u8>, i0: int, i: int, j: int)
    requires
        0 <= i0 <= i <= j <= s.len(),
        forall|k: int| i0 <= k < j ==> is_ascii_digit(#[trigger] s[k]),
    ensures
        0 <= val_of_digits(s.subrange(i0, i)),
        val_of_digits(s.subrange(i0, i)) <= val_of_digits(s.subrange(i0, j)),
    decreases j - i,
{
    assert forall|k: int| 0 <= k < s.subrange(i0, i).len() implies is_ascii_digit(
        #[trigger] s.subrange(i0, i)[k],
    ) by {
        assert(s.subrange(i0, i)[k] == s[i0 + k]);
    }
    lemma_val_nonneg(s.subrange(i0, i));
    if i < j {
        lemma_val_prefix_step(s, i0, i);
        lemma_val_prefix_mono(s, i0, i + 1, j);
    }
}

proof fn lemma_scan_digits_region(s: Seq<u8>, i0: int, i: int, j: int, cap: int)
    requires
        0 <= i0 <= i <= j <= s.len(),
        forall|k: int| i0 <= k < j ==> is_ascii_digit(#[trigger] s[k]),
        j == s.len() || !is_ascii_digit(s[j]),
        val_of_digits(s.subrange(i0, j)) <= cap,
    ensures
        scan_digits(s, i, val_of_digits(s.subrange(i0, i)), cap) == (
            val_of_digits(s.subrange(i0, j)),
            j,
        ),
    decreases j - i,
{
    if i == j {
        lemma_val_prefix_mono(s, i0, j, j);
    } else {
        lemma_val_prefix_mono(s, i0, i, j);
        lemma_val_prefix_step(s, i0, i);
        lemma_scan_digits_region(s, i0, i + 1, j, cap);
    }
}

proof fn lemma_scan_frac_region(s: Seq<u8>, i0: int, i: int, j: int)
    requires
        0 <= i0 <= i <= j <= s.len(),
        j - i0 <= 7,
        forall|k: int| i0 <= k < j ==> is_ascii_digit(#[trigger] s[k]),
        j == s.len() || !is_ascii_digit(s[j]),
    ensures
        scan_frac(s, i, val_of_digits(s.subrange(i0, i)), i - i0) == (
            val_of_digits(s.subrange(i0, j)),
            j,
            j - i0,
        ),
    decreases j - i,
{
    if i == j {
    } else {
        lemma_val_prefix_step(s, i0, i);
        lemma_scan_frac_region(s, i0, i + 1, j);
    }
}

/// Formatting a fixed-point coordinate and parsing the text back returns
/// the original value.
pub proof fn lemma_coord_round_trip(v: int)
    requires
        -0x80000000 <= v <= 0x7fffffff,
    ensures
        spec_parse_coord(spec_format_coord(v)) == Some(v),
{
    let m = if v < 0 {
        -v
    } else {
        v
    };
    let ip = m / 10000000;
    let fp = m % 10000000;
    let s = spec_format_coord(v);
    let s0: int = if v < 0 {
        1
    } else {
        0
    };
    lemma_dec_rep_digits(ip);
    lemma_dec_pad_digits(fp, 7);
    let dl = dec_rep(ip).len() as int;
    let dot = s0 + dl;
    assert(s.len() == s0 + dl + 1 + 7);
    assert(s.subrange(s0, dot) =~= dec_rep(ip));
    assert(s[dot] == 0x2eu8);
    assert(s.subrange(dot + 1, s.len() as int) =~= dec_pad(fp, 7));
    if v < 0 {
        assert(s[0] == 0x2du8);
        assert(coord_sign(s) == (true, 1int));
    } else {
        assert(s[0] == dec_rep(ip)[0]);
        assert(is_ascii_digit(s[0]));
        assert(coord_sign(s) == (false, 0int));
    }
    lemma_val_dec_rep(ip);
    assert(s.subrange(s0, s0) =~= Seq::<u8>::empty());
    assert forall|k: int| s0 <= k < dot implies is_ascii_digit(#[trigger] s[k]) by {
        assert(s[k] == dec_rep(ip)[k - s0]);
    }
    assert(val_of_digits(s.subrange(s0, dot)) == ip);
    assert(ip <= 0x7fffffff);
    lemma_scan_digits_region(s, s0, s0, dot, 0x7fffffff);
    assert(scan_digits(s, s0, 0, 0x7fffffff) == (ip, dot));
    lemma_pow10_7();
    lemma_val_dec_pad(fp, 7);
    assert forall|k: int| dot + 1 <= k < s.len() implies is_ascii_digit(#[trigger] s[k]) by {
        assert(s[k] == dec_pad(fp, 7)[k - (dot + 1)]);
    }
    assert(s.subrange(dot + 1, dot + 1) =~= Seq::<u8>::empty());
    assert(val_of_digits(s.subrange(dot + 1, s.len() as int)) == fp);
    lemma_scan_frac_region(s, dot + 1, dot + 1, s.len() as int);
    assert(scan_frac(s, dot + 1, 0, 0) == (fp, s.len() as int, 7int));
    assert(ip * 10000000 + fp * pad_factor(7) == m) by {
        assert(m == 10000000 * (m / 10000000) + m % 10000000);
    }
    assert(coord_in_range(v < 0, m) == Some(v));
}

} // verus!

verus! {

/// Formatting then parsing a small code returns the original value.
pub proof fn lemma_count_round_trip(c: u32)
    ensures
        spec_parse_count(dec_rep(c as int)) == Some(c),
{
    let s = dec_rep(c as int);
    lemma_dec_rep_digits(c as int);
    lemma_val_dec_rep(c as int);
    assert(is_ascii_digit(s[0]));
    assert(s.subrange(0, 0) =~= Seq::<u8>::empty());
    assert(s.subrange(0, s.len() as int) =~= s);
    lemma_scan_digits_region(s, 0, 0, s.len() as int, 0xffffffff);
    assert(scan_digits(s, 0, 0, 0xffffffff) == (c as int, s.len() as int));
}

/// The shape of formatted coordinate text: it starts with a minus sign
/// or a digit and ends with a digit, so trimming leaves it unchanged.
pub proof fn lemma_format_coord_shape(v: int)
    requires
        -0x80000000 <= v <= 0x7fffffff,
    ensures
        spec_format_coord(v).len() >= 3,
        spec_format_coord(v)[0] == 0x2du8 || is_ascii_digit(spec_format_coord(v)[0]),
        is_ascii_digit(spec_format_coord(v).last()),
{
    let m = if v < 0 {
        -v
    } else {
        v
    };
    let ip = m / 10000000;
    let fp = m % 10000000;
    let s = spec_format_coord(v);
    lemma_dec_rep_digits(ip);
    lemma_dec_pad_digits(fp, 7);
    if v < 0 {
        assert(s[0] == 0x2du8);
    } else {
        assert(s[0] == dec_rep(ip)[0]);
    }
    assert(s.last() == dec_pad(fp, 7)[6]);
}

} // verus!

verus! {

/// Every byte of formatted coordinate text is a digit, the minus sign,
/// or the decimal point.
pub proof fn lemma_format_coord_bytes(v: int)
    requires
        -0x80000000 <= v <= 0x7fffffff,
    ensures
        forall|k: int|
            0 <= k < spec_format_coord(v).len() ==> (#[trigger] spec_format_coord(v)[k] == 0x2du8
                || spec_format_coord(v)[k] == 0x2eu8 || is_ascii_digit(spec_format_coord(v)[k])),
{
    let m = if v < 0 {
        -v
    } else {
        v
    };
    let ip = m / 10000000;
    let fp = m % 10000000;
    let s = spec_format_coord(v);
    let s0: int = if v < 0 {
        1
    } else {
        0
    };
    lemma_dec_rep_digits(ip);
    lemma_dec_pad_digits(fp, 7);
    let dl = dec_rep(ip).len() as int;
    assert forall|k: int| 0 <= k < s.len() implies (#[trigger] s[k] == 0x2du8 || s[k] == 0x2eu8
        || is_ascii_digit(s[k])) by {
        if k < s0 {
            assert(s[k] == 0x2du8);
        } else if k < s0 + dl {
            assert(s[k] == dec_rep(ip)[k - s0]);
        } else if k == s0 + dl {
            assert(s[k] == 0x2eu8);
        } else {
            assert(s[k] == dec_pad(fp, 7)[k - (s0 + dl + 1)]);
        }
    }
}

} // verus!
