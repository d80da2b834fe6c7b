//! Exact decimal numbers.
//!
//! GPX carries latitudes, longitudes and elevations as decimal text such as
//! `52.1350720`. This module reads such text into an exact integer scaled by
//! 1e9 (the tenth and later fraction digits are dropped). The whole grammar
//! and value are given by spec functions, and the executable reader is
//! proved to return exactly the specified value.

use vstd::prelude::*;

verus! {

/// ASCII digit.
pub open spec fn is_digit(b: u8) -> bool {
    48 <= b <= 57
}

pub open spec fn all_digits(s: Seq<u8>) -> bool {
    forall|i: int| 0 <= i < s.len() ==> is_digit(#[trigger] s[i])
}

/// The integer a digit string denotes, most significant digit first.
pub open spec fn digits_val(s: Seq<u8>) -> int
    decreases s.len(),
{
    if s.len() == 0 {
        0
    } else {
        digits_val(s.drop_last()) * 10 + (s.last() - 48)
    }
}

pub open spec fn pow10(n: nat) -> int
    decreases n,
{
    if n == 0 {
        1
    } else {
        10 * pow10((n - 1) as nat)
    }
}

/// End of the run of digits that starts at `i`.
pub open spec fn digits_end(s: Seq<u8>, i: int) -> int
    decreases s.len() - i when 0 <= i <= s.len()
{
    if i < s.len() && is_digit(s[i]) {
        digits_end(s, i + 1)
    } else {
        i
    }
}

/// Value of a fraction-digit string, in 1e-9 units: the first nine digits
/// count, shorter strings are scaled up, later digits are dropped.
pub open spec fn frac_nano(s: Seq<u8>) -> int {
    if s.len() >= 9 {
        digits_val(s.take(9))
    } else {
        digits_val(s) * pow10((9 - s.len()) as nat)
    }
}

/// Value denoted by integer digits `ip` and fraction digits `fp`, in 1e-9
/// units.
pub open spec fn unsigned_nano(ip: Seq<u8>, fp: Seq<u8>) -> int {
    digits_val(ip) * 1_000_000_000 + frac_nano(fp)
}

/// Grammar of a decimal literal: an optional sign, one or more integer
/// digits, and an optional dot followed by one or more fraction digits,
/// with nothing else before or after. Yields the sign and the two digit
/// strings.
pub open spec fn dec_parse(s: Seq<u8>) -> Option<(bool, Seq<u8>, Seq<u8>)> {
    let signed = s.len() > 0 && (s[0] == 45 || s[0] == 43);
    let neg = s.len() > 0 && s[0] == 45;
    let start: int = if signed {
        1
    } else {
        0
    };
    let e = digits_end(s, start);
    if e == start {
        None
    } else if e == s.len() {
        Some((neg, s.subrange(start, e), Seq::empty()))
    } else if s[e] == 46 {
        let f = digits_end(s, e + 1);
        if f == s.len() && f > e + 1 {
            Some((neg, s.subrange(start, e), s.subrange(e + 1, f)))
        } else {
            None
        }
    } else {
        None
    }
}

/// The value of a decimal literal in 1e-9 units, if the text is a decimal
/// literal and its magnitude is at most `bound`.
pub open spec fn parse_nano(s: Seq<u8>, bound: int) -> Option<int> {
    match dec_parse(s) {
        None => None,
        Some((neg, ip, fp)) => {
            let v = unsigned_nano(ip, fp);
            if v <= bound {
                Some(
                    if neg {
                        -v
                    } else {
                        v
                    },
                )
            } else {
                None
            }
        },
    }
}

pub proof fn lemma_pow10_pos(n: nat)
    ensures
        pow10(n) >= 1,
    decreases n,
{
    if n > 0 {
        lemma_pow10_pos((n - 1) as nat);
    }
}

pub proof fn lemma_pow10_mono(a: nat, b: nat)
    requires
        a <= b,
    ensures
        pow10(a) <= pow10(b),
    decreases b,
{
    if a < b {
        lemma_pow10_mono(a, (b - 1) as nat);
        lemma_pow10_pos((b - 1) as nat);
    }
}

pub proof fn lemma_pow10_add(a: nat, b: nat)
    ensures
        pow10(a) * pow10(b) == pow10(a + b),
    decreases a,
{
    if a == 0 {
        assert(pow10(0) * pow10(b) == pow10(b));
    } else {
        lemma_pow10_add((a - 1) as nat, b);
        assert(pow10(a) * pow10(b) == (10 * pow10((a - 1) as nat)) * pow10(b));
        assert((10 * pow10((a - 1) as nat)) * pow10(b) == 10 * (pow10((a - 1) as nat) * pow10(b)))
            by (nonlinear_arith);
    }
}

pub proof fn lemma_digits_val_bounds(s: Seq<u8>)
    requires
        all_digits(s),
    ensures
        0 <= digits_val(s) < pow10(s.len() as nat),
    decreases s.len(),
{
    if s.len() == 0 {
    } else {
        let dl = s.drop_last();
        assert(all_digits(dl)) by {
            assert(forall|i: int| 0 <= i < dl.len() ==> dl[i] == s[i] && is_digit(#[trigger] s[i]));
        }
        lemma_digits_val_bounds(dl);
        assert(is_digit(s.last()));
        assert(pow10(s.len() as nat) == 10 * pow10((s.len() - 1) as nat));
    }
}

/// Splitting a digit string at `k` splits its value by place value.
pub proof fn lemma_digits_val_split(s: Seq<u8>, k: int)
    requires
        0 <= k <= s.len(),
    ensures
        digits_val(s) == digits_val(s.take(k)) * pow10((s.len() - k) as nat) + digits_val(
            s.skip(k),
        ),
    decreases s.len(),
{
    if k == s.len() {
        assert(s.take(k) =~= s);
        assert(s.skip(k) =~= Seq::<u8>::empty());
    } else {
        let dl = s.drop_last();
        lemma_digits_val_split(dl, k);
        assert(dl.take(k) =~= s.take(k));
        assert(dl.skip(k) =~= s.skip(k).drop_last());
        assert(s.skip(k).len() >= 1);
        assert(s.skip(k).last() == s.last());
        let t = digits_val(s.take(k));
        let p = pow10((dl.len() - k) as nat);
        let r = digits_val(dl.skip(k));
        let d = s.last() - 48;
        assert(digits_val(s) == (t * p + r) * 10 + d);
        assert((t * p + r) * 10 + d == t * (10 * p) + (r * 10 + d)) by (nonlinear_arith);
        assert(pow10((s.len() - k) as nat) == 10 * p);
        assert(digits_val(s.skip(k)) == r * 10 + d);
    }
}

pub proof fn lemma_zeros_val(s: Seq<u8>)
    requires
        forall|i: int| 0 <= i < s.len() ==> #[trigger] s[i] == 48,
    ensures
        digits_val(s) == 0,
    decreases s.len(),
{
    if s.len() > 0 {
        let dl = s.drop_last();
        assert(forall|i: int| 0 <= i < dl.len() ==> #[trigger] dl[i] == 48) by {
            assert(forall|i: int| 0 <= i < dl.len() ==> dl[i] == #[trigger] s[i]);
        }
        lemma_zeros_val(dl);
    }
}

/// A digit string that does not start with zero is at least its place value.
pub proof fn lemma_first_nonzero_lower(s: Seq<u8>)
    requires
        all_digits(s),
        s.len() >= 1,
        s[0] != 48,
    ensures
        digits_val(s) >= pow10((s.len() - 1) as nat),
{
    lemma_digits_val_split(s, 1);
    let tail = s.skip(1);
    assert(all_digits(tail)) by {
        assert(forall|i: int| 0 <= i < tail.len() ==> tail[i] == s[i + 1] && is_digit(
            #[trigger] s[i + 1],
        ));
    }
    lemma_digits_val_bounds(tail);
    let p = pow10((s.len() - 1) as nat);
    let h = digits_val(s.take(1));
    assert(s.take(1).drop_last() =~= Seq::<u8>::empty());
    assert(s.take(1).last() == s[0]);
    assert(digits_val(Seq::<u8>::empty()) == 0);
    assert(h == s[0] - 48);
    assert(h >= 1);
    lemma_pow10_pos((s.len() - 1) as nat);
    assert(h * p >= 1 * p) by (nonlinear_arith)
        requires
            h >= 1,
            p >= 1,
    ;
}

/// Everything `digits_end` says about the run it finds.
pub proof fn lemma_digits_end(s: Seq<u8>, i: int)
    requires
        0 <= i <= s.len(),
    ensures
        i <= digits_end(s, i) <= s.len(),
        all_digits(s.subrange(i, digits_end(s, i))),
        digits_end(s, i) < s.len() ==> !is_digit(s[digits_end(s, i)]),
    decreases s.len() - i,
{
    if i < s.len() && is_digit(s[i]) {
        lemma_digits_end(s, i + 1);
        let e = digits_end(s, i);
        assert(e == digits_end(s, i + 1));
        let sub = s.subrange(i, e);
        let sub1 = s.subrange(i + 1, e);
        assert(forall|j: int| 0 <= j < sub.len() ==> sub[j] == #[trigger] s[i + j]);
        assert(forall|j: int|
            0 <= j < sub1.len() ==> is_digit(#[trigger] sub1[j]) && sub1[j] == s[i + 1 + j]);
        assert(all_digits(sub)) by {
            assert(forall|j: int|
                1 <= j < sub.len() ==> #[trigger] sub[j] == sub1[j - 1] && is_digit(sub1[j - 1]));
        }
    }
}

pub fn digits_end_exec(s: &[u8], from: usize) -> (end: usize)
    requires
        from <= s.len(),
    ensures
        end as int == digits_end(s@, from as int),
        from <= end <= s.len(),
{
    let mut i: usize = from;
    while i < s.len() && 48 <= s[i] && s[i] <= 57
        invariant
            from <= i <= s.len(),
            digits_end(s@, from as int) == digits_end(s@, i as int),
        decreases s.len() - i,
    {
        i = i + 1;
    }
    proof {
        lemma_digits_end(s@, from as int);
    }
    i
}

/// 10 to the `k`, executably.
pub fn pow10_exec(k: usize) -> (r: i64)
    requires
        k <= 18,
    ensures
        r as int == pow10(k as nat),
        r >= 1,
{
    let mut r: i64 = 1;
    let mut idx: usize = 0;
    while idx < k
        invariant
            idx <= k <= 18,
            r as int == pow10(idx as nat),
        decreases k - idx,
    {
        proof {
            lemma_pow10_mono(idx as nat, 17);
            reveal_with_fuel(pow10, 19);
        }
        r = r * 10;
        idx = idx + 1;
    }
    proof {
        lemma_pow10_pos(k as nat);
    }
    r
}

/// A value [`parse_nano`] accepts lies within the bound on both sides.
pub proof fn lemma_parse_nano_range(s: Seq<u8>, bound: int)
    requires
        bound >= 0,
        parse_nano(s, bound) is Some,
    ensures
        -bound <= parse_nano(s, bound)->Some_0 <= bound,
{
    match dec_parse(s) {
        None => {},
        Some((neg, ip, fp)) => {
            let signed = s.len() > 0 && (s[0] == 45 || s[0] == 43);
            let start: int = if signed {
                1
            } else {
                0
            };
            assert(s.len() > 0);
            lemma_digits_end(s, start);
            let e = digits_end(s, start);
            assert(ip == s.subrange(start, e));
            assert(all_digits(ip));
            lemma_digits_val_bounds(ip);
            if e == s.len() {
                assert(fp == Seq::<u8>::empty());
                assert(digits_val(fp) == 0);
                assert(frac_nano(fp) == 0) by {
                    assert(0 * pow10((9 - fp.len()) as nat) == 0) by (nonlinear_arith);
                }
            } else {
                lemma_digits_end(s, e + 1);
                assert(fp == s.subrange(e + 1, digits_end(s, e + 1)));
                assert(all_digits(fp));
                if fp.len() >= 9 {
                    assert(all_digits(fp.take(9))) by {
                        assert(forall|i: int|
                            0 <= i < 9 ==> fp.take(9)[i] == #[trigger] fp[i]);
                    }
                    lemma_digits_val_bounds(fp.take(9));
                } else {
                    lemma_digits_val_bounds(fp);
                    lemma_pow10_pos((9 - fp.len()) as nat);
                    assert(digits_val(fp) * pow10((9 - fp.len()) as nat) >= 0)
                        by (nonlinear_arith)
                        requires
                            digits_val(fp) >= 0,
                            pow10((9 - fp.len()) as nat) >= 1,
                    ;
                }
            }
            assert(digits_val(ip) * 1_000_000_000 >= 0) by (nonlinear_arith)
                requires
                    digits_val(ip) >= 0,
            ;
            assert(unsigned_nano(ip, fp) >= 0);
        },
    }
}

/// Value of the integer-part digits `s[ds..e]`: `None` means the value
/// is at least 10^10 (too large for any coordinate or elevation bound).
fn int_digits_value(s: &[u8], ds: usize, e: usize) -> (r: Option<i64>)
    requires
        ds <= e <= s.len(),
        all_digits(s@.subrange(ds as int, e as int)),
    ensures
        match r {
            Some(v) => v as int == digits_val(s@.subrange(ds as int, e as int)) && 0 <= v
                < 10_000_000_000,
            None => digits_val(s@.subrange(ds as int, e as int)) >= 10_000_000_000,
        },
{
    let ghost ip = s@.subrange(ds as int, e as int);
    let mut z: usize = ds;
    while z < e && s[z] == 48
        invariant
            ds <= z <= e <= s.len(),
            forall|i: int| ds <= i < z ==> s@[i] == 48,
        decreases e - z,
    {
        z = z + 1;
    }
    proof {
        lemma_digits_val_split(ip, z - ds);
        assert(ip.take(z - ds) =~= s@.subrange(ds as int, z as int));
        assert(ip.skip(z - ds) =~= s@.subrange(z as int, e as int));
        lemma_zeros_val(s@.subrange(ds as int, z as int));
        assert(digits_val(ip) == digits_val(s@.subrange(z as int, e as int))) by {
            assert(0 * pow10((e - z) as nat) == 0) by (nonlinear_arith);
        }
        assert(all_digits(s@.subrange(z as int, e as int))) by {
            assert(forall|i: int|
                0 <= i < e - z ==> s@.subrange(z as int, e as int)[i] == #[trigger] ip[i + z - ds]);
        }
    }
    let ghost core = s@.subrange(z as int, e as int);
    if e - z > 10 {
        proof {
            lemma_first_nonzero_lower(core);
            lemma_pow10_mono(10, (core.len() - 1) as nat);
            reveal_with_fuel(pow10, 12);
        }
        return None;
    }
    let mut acc: i64 = 0;
    let mut j: usize = z;
    while j < e
        invariant
            z <= j <= e <= s.len(),
            e - z <= 10,
            all_digits(s@.subrange(z as int, e as int)),
            acc as int == digits_val(s@.subrange(z as int, j as int)),
            acc >= 0,
            (acc as int) < pow10((j - z) as nat),
        decreases e - j,
    {
        proof {
            assert(is_digit(s@[j as int])) by {
                assert(s@.subrange(z as int, e as int)[j - z] == s@[j as int]);
            }
            lemma_pow10_mono((j - z) as nat, 10);
            reveal_with_fuel(pow10, 12);
            assert(s@.subrange(z as int, (j + 1) as int).drop_last() =~= s@.subrange(
                z as int,
                j as int,
            ));
            assert(s@.subrange(z as int, (j + 1) as int).last() == s@[j as int]);
        }
        acc = acc * 10 + ((s[j] - 48) as i64);
        j = j + 1;
        proof {
            assert(pow10((j - z) as nat) == 10 * pow10((j - 1 - z) as nat));
        }
    }
    proof {
        assert(s@.subrange(z as int, j as int) =~= core);
        lemma_pow10_mono((e - z) as nat, 10);
        reveal_with_fuel(pow10, 12);
    }
    Some(acc)
}

/// Value of the fraction digits `s[fs..fe]`, in 1e-9 units: the first
/// nine digits, scaled to place value; later digits are dropped.
fn frac_digits_value(s: &[u8], fs: usize, fe: usize) -> (v: i64)
    requires
        fs <= fe <= s.len(),
        all_digits(s@.subrange(fs as int, fe as int)),
    ensures
        v as int == frac_nano(s@.subrange(fs as int, fe as int)),
        0 <= v < 1_000_000_000,
{
    let ghost fp = s@.subrange(fs as int, fe as int);
    let flen = fe - fs;
    let cnt: usize = if flen >= 9 {
        9
    } else {
        flen
    };
    let mut fac: i64 = 0;
    let mut t: usize = fs;
    proof {
        assert(all_digits(s@.subrange(fs as int, (fs + cnt) as int))) by {
            assert(forall|i: int|
                0 <= i < cnt ==> s@.subrange(fs as int, (fs + cnt) as int)[i] == #[trigger] fp[i]);
        }
    }
    while t < fs + cnt
        invariant
            fs <= t <= fs + cnt,
            cnt <= 9,
            fs + cnt <= fe <= s.len(),
            all_digits(s@.subrange(fs as int, (fs + cnt) as int)),
            fac as int == digits_val(s@.subrange(fs as int, t as int)),
            fac >= 0,
            (fac as int) < pow10((t - fs) as nat),
        decreases fs + cnt - t,
    {
        proof {
            assert(is_digit(s@[t as int])) by {
                assert(s@.subrange(fs as int, (fs + cnt) as int)[t - fs] == s@[t as int]);
            }
            lemma_pow10_mono((t - fs) as nat, 9);
            reveal_with_fuel(pow10, 12);
            assert(s@.subrange(fs as int, (t + 1) as int).drop_last() =~= s@.subrange(
                fs as int,
                t as int,
            ));
            assert(s@.subrange(fs as int, (t + 1) as int).last() == s@[t as int]);
        }
        fac = fac * 10 + ((s[t] - 48) as i64);
        t = t + 1;
        proof {
            assert(pow10((t - fs) as nat) == 10 * pow10((t - 1 - fs) as nat));
        }
    }
    let scale = pow10_exec(9 - cnt);
    proof {
        lemma_pow10_mono((9 - cnt) as nat, 9);
        lemma_pow10_mono(cnt as nat, 9);
        reveal_with_fuel(pow10, 12);
        lemma_pow10_add(cnt as nat, (9 - cnt) as nat);
        assert(fac * scale < 1_000_000_000) by (nonlinear_arith)
            requires
                fac >= 0,
                (fac as int) < pow10(cnt as nat),
                scale as int == pow10((9 - cnt) as nat),
                scale >= 1,
                pow10(cnt as nat) * pow10((9 - cnt) as nat) == 1_000_000_000,
        ;
        assert(fac * scale >= 0) by (nonlinear_arith)
            requires
                fac >= 0,
                scale >= 1,
        ;
    }
    let fval: i64 = fac * scale;
    proof {
        assert(s@.subrange(fs as int, (fs + cnt) as int) =~= fp.take(cnt as int));
        if cnt == 9 {
            assert(frac_nano(fp) == fac as int);
            assert(fval == fac);
        } else {
            assert(fp.take(cnt as int) =~= fp);
            assert(frac_nano(fp) == fac as int * pow10((9 - cnt) as nat));
        }
    }
    fval
}

/// Reads a decimal literal of magnitude at most `bound`, in 1e-9 units.
///
/// Returns exactly what [`parse_nano`] specifies: `None` on any text that
/// is not a decimal literal or whose magnitude exceeds the bound.
pub fn parse_nano_exec(s: &[u8], bound: i64) -> (r: Option<i64>)
    requires
        0 <= bound <= 1_000_000_000_000_000_000,
    ensures
        match r {
            Some(v) => parse_nano(s@, bound as int) == Some(v as int),
            None => parse_nano(s@, bound as int) is None,
        },
{
    let n = s.len();
    if n == 0 {
        return None;
    }
    let signed = s[0] == 45 || s[0] == 43;
    let neg = s[0] == 45;
    let start: usize = if signed {
        1
    } else {
        0
    };
    let e = digits_end_exec(s, start);
    proof {
        lemma_digits_end(s@, start as int);
    }
    if e == start {
        return None;
    }
    let ghost ip = s@.subrange(start as int, e as int);
    let mut fs: usize = e;
    let mut fe: usize = e;
    if e < n {
        if s[e] != 46 {
            return None;
        }
        fs = e + 1;
        fe = digits_end_exec(s, fs);
        proof {
            lemma_digits_end(s@, fs as int);
        }
        if fe < n || fe == fs {
            return None;
        }
    }
    let ghost fp = s@.subrange(fs as int, fe as int);
    proof {
        if e == n {
            assert(fp =~= Seq::<u8>::empty());
            assert(dec_parse(s@) == Some((neg, ip, fp)));
        } else {
            assert(dec_parse(s@) == Some((neg, ip, fp)));
            lemma_digits_end(s@, fs as int);
        }
        assert(all_digits(fp));
    }
    let fval = frac_digits_value(s, fs, fe);
    let acc = match int_digits_value(s, start, e) {
        Some(v) => v,
        None => {
            // The integer part alone is at least 10^10, so the whole
            // value exceeds any permitted bound.
            proof {
                assert(digits_val(ip) * 1_000_000_000 >= 10_000_000_000 * 1_000_000_000)
                    by (nonlinear_arith)
                    requires
                        digits_val(ip) >= 10_000_000_000,
                ;
            }
            return None;
        },
    };
    let wide: i128 = (acc as i128) * 1_000_000_000 + (fval as i128);
    proof {
        assert(wide as int == unsigned_nano(ip, fp));
    }
    if wide > bound as i128 {
        return None;
    }
    proof {
        assert(0 <= wide <= 1_000_000_000_000_000_000);
    }
    let v: i64 = wide as i64;
    if neg {
        Some(-v)
    } else {
        Some(v)
    }
}

} // verus!
