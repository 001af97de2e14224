//! Decimal numbers as they stand in a serialized message: ASCII digits, most
//! significant first, no sign, no leading zero.

use vstd::prelude::*;

verus! {

/// Whether `byte` is an ASCII digit.
pub open spec fn is_digit(byte: u8) -> bool {
    48 <= byte && byte <= 57
}

/// The ASCII digit for `d`, which is below ten.
pub open spec fn digit_byte(d: nat) -> u8 {
    (48 + d) as u8
}

/// The decimal notation of `n`.
pub open spec fn decimal_digits(n: nat) -> Seq<u8>
    decreases n,
{
    if n < 10 {
        seq![digit_byte(n)]
    } else {
        decimal_digits(n / 10).push(digit_byte(n % 10))
    }
}

/// Whether every byte of `digits` is an ASCII digit.
pub open spec fn all_digits(digits: Seq<u8>) -> bool {
    forall|i: int| 0 <= i < digits.len() ==> is_digit(#[trigger] digits[i])
}

/// The number that a run of ASCII digits denotes.
pub open spec fn digits_value(digits: Seq<u8>) -> nat
    decreases digits.len(),
{
    if digits.len() == 0 {
        0
    } else {
        digits_value(digits.drop_last()) * 10 + (digits.last() - 48) as nat
    }
}

/// Ten to the power `k`.
pub open spec fn pow10(k: nat) -> nat
    decreases k,
{
    if k == 0 {
        1
    } else {
        10 * pow10((k - 1) as nat)
    }
}

/// Whether the notation of `n` stands in `s` at `pos` and ends there: what
/// follows it, if anything, is no digit.
pub open spec fn number_at(s: Seq<u8>, pos: int, n: nat) -> bool {
    let end = pos + decimal_digits(n).len();
    &&& 0 <= pos
    &&& end <= s.len()
    &&& s.subrange(pos, end) == decimal_digits(n)
    &&& (end == s.len() || !is_digit(s[end]))
}

/// The notation of a number is one or more digits, starts with a zero only
/// for zero itself, and denotes that number.
pub proof fn lemma_decimal_digits(n: nat)
    ensures
        decimal_digits(n).len() >= 1,
        all_digits(decimal_digits(n)),
        n == 0 ==> decimal_digits(n) == seq![48u8],
        n > 0 ==> decimal_digits(n)[0] != 48,
        digits_value(decimal_digits(n)) == n,
        n > 0 ==> n >= pow10((decimal_digits(n).len() - 1) as nat),
    decreases n,
{
    let d = decimal_digits(n);
    if n < 10 {
        assert(d.drop_last() =~= Seq::<u8>::empty());
        assert(digits_value(d.drop_last()) == 0);
        assert(pow10(0) == 1);
        if n == 0 {
            assert(d =~= seq![48u8]);
        }
    } else {
        lemma_decimal_digits(n / 10);
        let front = decimal_digits(n / 10);
        assert(d.drop_last() =~= front);
        assert(d[0] == front[0]);
        assert(pow10((d.len() - 1) as nat) == 10 * pow10((front.len() - 1) as nat));
    }
}

/// A run of digits denotes less than ten to the power of its length.
pub proof fn lemma_digits_value_bound(digits: Seq<u8>)
    requires
        all_digits(digits),
    ensures
        digits_value(digits) < pow10(digits.len()),
    decreases digits.len(),
{
    if digits.len() > 0 {
        lemma_digits_value_bound(digits.drop_last());
    }
}

/// A run of digits without a leading zero is the notation of what it denotes.
pub proof fn lemma_canonical_digits(digits: Seq<u8>)
    requires
        digits.len() >= 1,
        all_digits(digits),
        digits.len() > 1 ==> digits[0] != 48,
    ensures
        decimal_digits(digits_value(digits)) == digits,
        digits[0] != 48 ==> digits_value(digits) >= 1,
    decreases digits.len(),
{
    let front = digits.drop_last();
    let last = digits.last();
    if digits.len() == 1 {
        assert(front =~= Seq::<u8>::empty());
        assert(digits_value(front) == 0);
        assert(is_digit(digits[0]));
        assert(digits =~= seq![digit_byte((last - 48) as nat)]);
    } else {
        assert(front[0] == digits[0]);
        assert(is_digit(last));
        lemma_canonical_digits(front);
        let v = digits_value(front);
        let n = digits_value(digits);
        assert(n == v * 10 + (last - 48));
        assert(n / 10 == v);
        assert(n % 10 == last - 48);
        assert(decimal_digits(n) == decimal_digits(v).push(digit_byte(n % 10)));
        assert(digits =~= front.push(last));
    }
}

/// Two numbers whose notations both stand and end at one place are the same.
pub proof fn lemma_number_at_unique(s: Seq<u8>, pos: int, a: nat, b: nat)
    requires
        number_at(s, pos, a),
        number_at(s, pos, b),
    ensures
        a == b,
{
    lemma_decimal_digits(a);
    lemma_decimal_digits(b);
    let da = decimal_digits(a);
    let db = decimal_digits(b);
    if da.len() < db.len() {
        assert(s[pos + da.len()] == s.subrange(pos, pos + db.len())[da.len() as int]);
        assert(is_digit(db[da.len() as int]));
    } else if db.len() < da.len() {
        assert(s[pos + db.len()] == s.subrange(pos, pos + da.len())[db.len() as int]);
        assert(is_digit(da[db.len() as int]));
    }
    assert(da == db);
}

/// Appends the decimal notation of `n` to `out`.
pub fn push_decimal(out: &mut Vec<u8>, n: u64)
    ensures
        final(out)@ == old(out)@ + decimal_digits(n as nat),
    decreases n,
{
    if n >= 10 {
        push_decimal(out, n / 10);
    }
    let digit: u8 = 48 + (n % 10) as u8;
    out.push(digit);
    assert(final(out)@ =~= old(out)@ + decimal_digits(n as nat));
}

/// Ten to a higher power is no smaller.
proof fn lemma_pow10_grows(a: nat, b: nat)
    requires
        a <= b,
    ensures
        1 <= pow10(a) <= pow10(b),
    decreases b,
{
    if a < b {
        lemma_pow10_grows(a, (b - 1) as nat);
    } else if a > 0 {
        lemma_pow10_grows((a - 1) as nat, (a - 1) as nat);
    }
}

proof fn lemma_pow10_20()
    ensures
        pow10(20) == 100_000_000_000_000_000_000,
{
    reveal_with_fuel(pow10, 21);
}

/// The notation that stands and ends at `pos` covers exactly the digits from
/// `pos` to `end`, where the run of digits stops.
proof fn lemma_number_at_fills_run(s: Seq<u8>, pos: int, end: int, n: nat)
    requires
        0 <= pos <= end <= s.len(),
        all_digits(s.subrange(pos, end)),
        number_at(s, pos, n),
    ensures
        pos + decimal_digits(n).len() >= end,
        (end == s.len() || !is_digit(s[end])) ==> pos + decimal_digits(n).len() == end,
{
    lemma_decimal_digits(n);
    let stop = pos + decimal_digits(n).len();
    if stop < end {
        assert(s[stop] == s.subrange(pos, end)[stop - pos]);
    }
    if stop > end {
        assert(s[end] == s.subrange(pos, stop)[end - pos]);
        assert(is_digit(decimal_digits(n)[end - pos]));
    }
}

/// Reads the number whose notation stands and ends at `pos` in `buf`, and
/// says where it ends. There is none where no digit stands at `pos`, where a
/// zero leads further digits, or where the number exceeds `max`.
pub fn scan_number(buf: &[u8], pos: usize, max: u64) -> (res: Option<(u64, usize)>)
    ensures
        match res {
            Some((n, end)) => n <= max && number_at(buf@, pos as int, n as nat) && end == pos
                + decimal_digits(n as nat).len(),
            None => forall|n: nat| n <= max ==> !number_at(buf@, pos as int, n),
        },
{
    let len = buf.len();
    if pos >= len {
        proof {
            assert forall|n: nat| n <= max implies !number_at(buf@, pos as int, n) by {
                lemma_decimal_digits(n);
            }
        }
        return None;
    }
    let mut i: usize = pos;
    let mut acc: u128 = 0;
    proof {
        lemma_pow10_20();
        assert(buf@.subrange(pos as int, pos as int) =~= Seq::<u8>::empty());
    }
    while i < len && i - pos < 20 && buf[i] >= 48 && buf[i] <= 57
        invariant
            len == buf@.len(),
            pos <= i <= len,
            i - pos <= 20,
            all_digits(buf@.subrange(pos as int, i as int)),
            acc == digits_value(buf@.subrange(pos as int, i as int)),
            acc < pow10((i - pos) as nat),
            pow10(20) == 100_000_000_000_000_000_000,
        decreases len - i,
    {
        proof {
            lemma_pow10_grows((i - pos) as nat, 20);
            let longer = buf@.subrange(pos as int, i + 1);
            assert(longer.drop_last() =~= buf@.subrange(pos as int, i as int));
            assert(longer.last() == buf@[i as int]);
            assert forall|k: int| 0 <= k < longer.len() implies is_digit(#[trigger] longer[k]) by {
                if k < i - pos {
                    assert(longer[k] == buf@.subrange(pos as int, i as int)[k]);
                }
            }
            lemma_digits_value_bound(longer);
        }
        acc = acc * 10 + (buf[i] - 48) as u128;
        i += 1;
    }
    let ghost run = buf@.subrange(pos as int, i as int);
    if i == pos {
        proof {
            assert forall|n: nat| n <= max implies !number_at(buf@, pos as int, n) by {
                lemma_decimal_digits(n);
                if number_at(buf@, pos as int, n) {
                    let stop = pos + decimal_digits(n).len();
                    assert(buf@[pos as int] == buf@.subrange(pos as int, stop)[0]);
                }
            }
        }
        return None;
    }
    if i < len && buf[i] >= 48 && buf[i] <= 57 {
        proof {
            assert forall|n: nat| n <= max implies !number_at(buf@, pos as int, n) by {
                if number_at(buf@, pos as int, n) {
                    lemma_decimal_digits(n);
                    lemma_number_at_fills_run(buf@, pos as int, i as int, n);
                    let digits = decimal_digits(n).len();
                    assert(digits >= 21);
                    lemma_pow10_grows(20, (digits - 1) as nat);
                }
            }
        }
        return None;
    }
    if (i - pos > 1 && buf[pos] == 48) || acc > max as u128 {
        proof {
            assert forall|n: nat| n <= max implies !number_at(buf@, pos as int, n) by {
                if number_at(buf@, pos as int, n) {
                    lemma_decimal_digits(n);
                    lemma_number_at_fills_run(buf@, pos as int, i as int, n);
                    assert(decimal_digits(n) == run);
                    assert(run[0] == buf@[pos as int]);
                }
            }
        }
        return None;
    }
    proof {
        assert(run[0] == buf@[pos as int]);
        lemma_canonical_digits(run);
    }
    Some((acc as u64, i))
}

} // verus!
