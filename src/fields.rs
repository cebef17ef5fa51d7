//! The text of one table cell: a decimal probability, read in millionths,
//! or a ciphertext symbol.
use vstd::prelude::*;

verus! {

/// The byte of the decimal point.
pub const POINT: u8 = 46;

/// One, in millionths: the largest value of a probability cell.
pub const CELL_CAP: u64 = 1_000_000;

/// An ASCII decimal digit.
pub open spec fn is_digit(b: u8) -> bool {
    48 <= b <= 57
}

/// Every byte is a digit.
pub open spec fn all_digits(s: Seq<u8>) -> bool {
    forall|i: int| 0 <= i < s.len() ==> is_digit(#[trigger] s[i])
}

/// The value of a run of digits, most significant first.
pub open spec fn numeral(s: Seq<u8>) -> int
    decreases s.len(),
{
    if s.len() == 0 {
        0
    } else {
        numeral(s.drop_last()) * 10 + (s.last() - 48)
    }
}

/// The length of the run of digits that starts the cell.
pub open spec fn digit_run(s: Seq<u8>) -> nat
    decreases s.len(),
{
    if s.len() == 0 || all_digits(s) {
        s.len()
    } else {
        digit_run(s.drop_last())
    }
}

/// What follows the decimal point, if there is one.
pub open spec fn fraction(s: Seq<u8>) -> Seq<u8> {
    if digit_run(s) < s.len() {
        s.skip(digit_run(s) as int + 1)
    } else {
        Seq::empty()
    }
}

/// How many digits after the point count: six at most, the rest are
/// below a millionth.
pub open spec fn kept(s: Seq<u8>) -> nat {
    if fraction(s).len() < 6 {
        fraction(s).len()
    } else {
        6
    }
}

/// `10` to the power `k`.
pub open spec fn pow10(k: nat) -> int
    decreases k,
{
    if k == 0 {
        1
    } else {
        10 * pow10((k - 1) as nat)
    }
}

/// The cell is digits, optionally followed by a point and more digits, with
/// at least one digit before the point.
pub open spec fn is_decimal(s: Seq<u8>) -> bool {
    &&& digit_run(s) > 0
    &&& digit_run(s) == s.len() || (s[digit_run(s) as int] == POINT && all_digits(fraction(s)))
}

/// The value of a decimal cell in millionths, rounded down.
pub open spec fn millionths(s: Seq<u8>) -> int {
    numeral(s.take(digit_run(s) as int)) * 1_000_000 + numeral(fraction(s).take(kept(s) as int)) * pow10(
        (6 - kept(s)) as nat,
    )
}

/// The cell is a probability: a decimal of value at most one.
pub open spec fn is_probability(s: Seq<u8>) -> bool {
    is_decimal(s) && millionths(s) <= CELL_CAP
}

/// The cell is a symbol: digits only, of a value that fits 32 bits.
pub open spec fn is_symbol(s: Seq<u8>) -> bool {
    s.len() > 0 && all_digits(s) && numeral(s) <= u32::MAX
}

/// The digit run ends at the first byte that is not a digit.
proof fn lemma_digit_run(s: Seq<u8>, i: int)
    requires
        0 <= i <= s.len(),
        all_digits(s.take(i)),
        i == s.len() || !is_digit(s[i]),
    ensures
        digit_run(s) == i,
    decreases s.len(),
{
    if i == s.len() {
        assert(s.take(i) =~= s);
    } else {
        assert(s.take(i + 1)[i] == s[i]);
        assert(!all_digits(s));
        let t = s.drop_last();
        assert(t.take(i) =~= s.take(i));
        lemma_digit_run(t, i);
    }
}

/// Reading one more digit of a run.
proof fn lemma_numeral_next(s: Seq<u8>, i: int)
    requires
        0 <= i < s.len(),
    ensures
        numeral(s.take(i + 1)) == numeral(s.take(i)) * 10 + (s[i] - 48),
{
    assert(s.take(i + 1).drop_last() =~= s.take(i));
}

/// A run of digits has a non-negative value.
proof fn lemma_numeral_nonneg(s: Seq<u8>)
    requires
        all_digits(s),
    ensures
        numeral(s) >= 0,
    decreases s.len(),
{
    if s.len() > 0 {
        assert(all_digits(s.drop_last()));
        lemma_numeral_nonneg(s.drop_last());
    }
}

/// Scans the leading run of digits of `s`: its length, whether its value
/// exceeds `cap`, and otherwise that value.
fn leading_digits(s: &Vec<u8>, cap: u64) -> (r: (usize, bool, u64))
    requires
        cap <= u32::MAX,
    ensures
        r.0 == digit_run(s@),
        r.0 <= s@.len(),
        all_digits(s@.take(r.0 as int)),
        r.1 <==> numeral(s@.take(r.0 as int)) > cap,
        !r.1 ==> r.2 == numeral(s@.take(r.0 as int)),
{
    let n = s.len();
    let mut i: usize = 0;
    let mut over = false;
    let mut value: u64 = 0;
    while i < n && 48 <= s[i] && s[i] <= 57
        invariant
            n == s@.len(),
            i <= n,
            cap <= u32::MAX,
            all_digits(s@.take(i as int)),
            over <==> numeral(s@.take(i as int)) > cap,
            !over ==> value == numeral(s@.take(i as int)),
        decreases n - i,
    {
        proof {
            lemma_numeral_next(s@, i as int);
            lemma_numeral_nonneg(s@.take(i as int));
            assert(all_digits(s@.take(i as int + 1))) by {
                assert forall|j: int| 0 <= j < i + 1 implies is_digit(#[trigger] s@.take(i as int + 1)[j]) by {
                    if j < i {
                        assert(s@.take(i as int + 1)[j] == s@.take(i as int)[j]);
                    }
                }
            }
        }
        if !over {
            let v = value * 10 + (s[i] - 48) as u64;
            if v > cap {
                over = true;
            } else {
                value = v;
            }
        }
        i += 1;
    }
    proof {
        lemma_digit_run(s@, i as int);
    }
    (i, over, value)
}

/// A probability cell in millionths; `None` where the cell is not a decimal
/// of value at most one.
pub fn parse_probability(s: &Vec<u8>) -> (r: Option<u64>)
    ensures
        r is Some <==> is_probability(s@),
        r matches Some(v) ==> v == millionths(s@),
{
    let n = s.len();
    let (k, over, whole) = leading_digits(s, CELL_CAP);
    let ghost f = fraction(s@);
    proof {
        assert(pow10(0) == 1);
        assert(pow10(1) == 10);
        assert(pow10(2) == 100);
        assert(pow10(3) == 1000);
        assert(pow10(4) == 10000);
        assert(pow10(5) == 100000);
        assert(pow10(6) == 1000000);
        lemma_numeral_nonneg(s@.take(k as int));
    }
    if k == 0 {
        return None;
    }
    if k < n && s[k] != POINT {
        return None;
    }
    // the digits after the point, the first six of them kept
    let mut frac: u64 = 0;
    let mut kept_digits: usize = 0;
    if k < n {
        let mut j: usize = k + 1;
        while j < n
            invariant
                n == s@.len(),
                k < n,
                k + 1 <= j <= n,
                f == s@.skip(k + 1),
                f == fraction(s@),
                k == digit_run(s@),
                kept_digits == if j - k - 1 < 6 { j - k - 1 } else { 6 },
                all_digits(f.take(j - k - 1)),
                frac == numeral(f.take(kept_digits as int)),
                frac < pow10(kept_digits as nat),
                pow10(5) == 100000,
            decreases n - j,
        {
            let b = s[j];
            let ghost q = j - k - 1;
            if !(48 <= b && b <= 57) {
                proof {
                    assert(f[q] == b);
                    assert(!is_digit(f[q]));
                    assert(0 <= q < f.len());
                    assert(!all_digits(f));
                    assert(f == fraction(s@));
                    assert(!is_decimal(s@));
                }
                return None;
            }
            proof {
                assert(all_digits(f.take(q + 1))) by {
                    assert forall|t: int| 0 <= t < q + 1 implies is_digit(#[trigger] f.take(q + 1)[t]) by {
                        if t < q {
                            assert(f.take(q + 1)[t] == f.take(q)[t]);
                        }
                    }
                }
            }
            if kept_digits < 6 {
                proof {
                    lemma_numeral_next(f, q);
                    assert(f.take(q) =~= f.take(kept_digits as int));
                    lemma_pow10_grows(kept_digits as nat, 5);
                }
                frac = frac * 10 + (b - 48) as u64;
                kept_digits = kept_digits + 1;
            } else {
                proof {
                    assert(f.take(q + 1).take(6) =~= f.take(6));
                }
            }
            j += 1;
        }
        proof {
            assert(f.take(n - k - 1) =~= f);
        }
    } else {
        proof {
            assert(f =~= Seq::<u8>::empty());
            assert(f.take(0) =~= Seq::<u8>::empty());
        }
    }
    if over {
        proof {
            let w = numeral(s@.take(k as int));
            let x = numeral(f.take(kept(s@) as int)) * pow10((6 - kept(s@)) as nat);
            lemma_numeral_nonneg(f.take(kept(s@) as int));
            lemma_pow10_pos((6 - kept(s@)) as nat);
            assert(x >= 0) by (nonlinear_arith)
                requires x == numeral(f.take(kept(s@) as int)) * pow10((6 - kept(s@)) as nat),
                    numeral(f.take(kept(s@) as int)) >= 0, pow10((6 - kept(s@)) as nat) >= 1;
            assert(w * 1_000_000 >= w) by (nonlinear_arith) requires w >= 0;
        }
        return None;
    }
    let mut scaled: u64 = frac;
    let mut t: usize = kept_digits;
    while t < 6
        invariant
            kept_digits <= t <= 6,
            scaled == frac * pow10((t - kept_digits) as nat),
            scaled < pow10(t as nat),
            pow10(6) == 1000000,
        decreases 6 - t,
    {
        proof {
            assert(pow10((t + 1 - kept_digits) as nat) == 10 * pow10((t - kept_digits) as nat));
            assert(frac * (10 * pow10((t - kept_digits) as nat)) == 10 * (frac * pow10((t - kept_digits) as nat)))
                by (nonlinear_arith);
            lemma_pow10_grows(t as nat, 6);
        }
        scaled = scaled * 10;
        t += 1;
    }
    proof {
        assert(kept(s@) == kept_digits);
    }
    let total = whole * 1_000_000 + scaled;
    if total > CELL_CAP {
        return None;
    }
    Some(total)
}

/// Powers of ten are positive.
proof fn lemma_pow10_pos(k: nat)
    ensures
        pow10(k) >= 1,
    decreases k,
{
    if k > 0 {
        lemma_pow10_pos((k - 1) as nat);
    }
}

/// Powers of ten grow with the exponent.
proof fn lemma_pow10_grows(a: nat, b: nat)
    requires
        a <= b,
    ensures
        pow10(a) <= pow10(b),
    decreases b,
{
    if a < b {
        lemma_pow10_grows(a, (b - 1) as nat);
        lemma_pow10_pos((b - 1) as nat);
    }
}

/// A symbol cell; `None` where the cell is not a whole number of 32 bits.
pub fn parse_symbol(s: &Vec<u8>) -> (r: Option<u32>)
    ensures
        r is Some <==> is_symbol(s@),
        r matches Some(v) ==> v == numeral(s@),
{
    let (k, over, value) = leading_digits(s, u32::MAX as u64);
    if k == 0 || k < s.len() || over {
        proof {
            assert(s@.take(s@.len() as int) =~= s@);
            if k < s@.len() && is_symbol(s@) {
                lemma_digit_run(s@, s@.len() as int);
            }
        }
        return None;
    }
    proof {
        assert(s@.take(k as int) =~= s@);
    }
    Some(value as u32)
}

} // verus!
