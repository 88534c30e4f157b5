use vstd::prelude::*;

verus! {

/// Byte of an ASCII decimal digit, `'0'..='9'`.
pub open spec fn is_digit(b: u8) -> bool {
    48 <= b <= 57
}

/// Every byte of `s` is an ASCII decimal digit.
pub open spec fn all_digits(s: Seq<u8>) -> bool {
    forall|i: int| 0 <= i < s.len() ==> is_digit(#[trigger] s[i])
}

/// Numeric value of a digit sequence, most significant digit first.
pub open spec fn dec_value(s: Seq<u8>) -> int
    decreases s.len(),
{
    if s.len() == 0 {
        0
    } else {
        dec_value(s.drop_last()) * 10 + (s.last() - 48)
    }
}

/// The longest run of decimal digits at the front of `s`.
pub open spec fn leading_digits(s: Seq<u8>) -> Seq<u8>
    decreases s.len(),
{
    if s.len() == 0 || !is_digit(s[0]) {
        Seq::empty()
    } else {
        seq![s[0]] + leading_digits(s.drop_first())
    }
}

/// Canonical decimal representation of a non-negative number:
/// no leading zeros, and `0` is written as the single digit `0`.
pub open spec fn dec_repr(n: int) -> Seq<u8>
    recommends
        n >= 0,
    decreases n,
{
    if n < 10 {
        seq![(48 + n) as u8]
    } else {
        dec_repr(n / 10).push((48 + n % 10) as u8)
    }
}

pub proof fn lemma_dec_value_nonneg(s: Seq<u8>)
    requires
        all_digits(s),
    ensures
        dec_value(s) >= 0,
    decreases s.len(),
{
    if s.len() > 0 {
        assert(all_digits(s.drop_last()));
        lemma_dec_value_nonneg(s.drop_last());
    }
}

/// A digit prefix never exceeds the value of the whole digit string.
pub proof fn lemma_dec_value_prefix(s: Seq<u8>, j: int)
    requires
        all_digits(s),
        0 <= j <= s.len(),
    ensures
        dec_value(s.subrange(0, j)) <= dec_value(s),
    decreases s.len(),
{
    if j == s.len() {
        assert(s.subrange(0, j) =~= s);
    } else {
        assert(s.drop_last() =~= s.subrange(0, s.len() - 1));
        assert(all_digits(s.drop_last()));
        lemma_dec_value_prefix(s.drop_last(), j);
        assert(s.drop_last().subrange(0, j) =~= s.subrange(0, j));
        lemma_dec_value_nonneg(s.drop_last());
    }
}

/// The canonical representation is made of digits and reads back to its value.
pub proof fn lemma_dec_repr_ok(n: int)
    requires
        n >= 0,
    ensures
        dec_repr(n).len() >= 1,
        all_digits(dec_repr(n)),
        dec_value(dec_repr(n)) == n,
    decreases n,
{
    if n < 10 {
        let s = seq![(48 + n) as u8];
        assert(s.len() == 1);
        assert(s.last() == (48 + n) as u8);
        assert(s.drop_last() =~= Seq::<u8>::empty());
        assert(dec_value(s.drop_last()) == 0);
        assert((48 + n) as u8 == 48 + n);
        assert(dec_value(s) == dec_value(s.drop_last()) * 10 + (s.last() - 48));
    } else {
        lemma_dec_repr_ok(n / 10);
        let d = (48 + n % 10) as u8;
        let r = dec_repr(n / 10).push(d);
        assert(r.drop_last() =~= dec_repr(n / 10));
        assert(r.last() == d);
        assert(dec_value(r) == dec_value(dec_repr(n / 10)) * 10 + (d - 48));
        assert(forall|i: int|
            0 <= i < r.len() ==> is_digit(#[trigger] r[i]) == if i < r.len() - 1 {
                is_digit(dec_repr(n / 10)[i])
            } else {
                is_digit(d)
            });
    }
}

/// Appends the canonical decimal digits of `n` to `out`.
pub fn push_dec(out: &mut Vec<u8>, n: u64)
    ensures
        final(out)@ == old(out)@ + dec_repr(n as int),
    decreases n,
{
    if n < 10 {
        out.push(48 + n as u8);
        assert(out@ =~= old(out)@ + dec_repr(n as int));
    } else {
        push_dec(out, n / 10);
        out.push(48 + (n % 10) as u8);
        assert(out@ =~= old(out)@ + dec_repr(n as int));
    }
}

/// Parses a whole line of decimal digits as a `u64`.
///
/// Returns `Some` exactly when the line is non-empty, contains digits
/// only, and its value fits in a `u64`.
pub fn parse_decimal(line: &[u8]) -> (r: Option<u64>)
    ensures
        r is Some <==> line@.len() > 0 && all_digits(line@) && dec_value(line@) <= u64::MAX,
        r matches Some(v) ==> v == dec_value(line@),
{
    if line.len() == 0 {
        return None;
    }
    let mut acc: u64 = 0;
    let mut i: usize = 0;
    while i < line.len()
        invariant
            0 < line@.len(),
            i <= line@.len(),
            all_digits(line@.subrange(0, i as int)),
            acc == dec_value(line@.subrange(0, i as int)),
        decreases line@.len() - i,
    {
        let b = line[i];
        if b < 48 || b > 57 {
            assert(!is_digit(line@[i as int]));
            return None;
        }
        let d = (b - 48) as u64;
        proof {
            assert(line@.subrange(0, i + 1).drop_last() =~= line@.subrange(0, i as int));
            assert(line@.subrange(0, i + 1).last() == line@[i as int]);
        }
        if acc > (u64::MAX - d) / 10 {
            proof {
                let q = (u64::MAX - d) / 10;
                assert(acc * 10 >= (q + 1) * 10);
                assert(q * 10 + 10 > u64::MAX - d);
                assert(dec_value(line@.subrange(0, i + 1)) > u64::MAX);
                if all_digits(line@) {
                    lemma_dec_value_prefix(line@, i + 1);
                }
            }
            return None;
        }
        proof {
            let q = (u64::MAX - d) / 10;
            assert(q * 10 <= u64::MAX - d);
            assert(acc * 10 <= q * 10);
        }
        acc = acc * 10 + d;
        i = i + 1;
    }
    proof {
        assert(line@.subrange(0, line@.len() as int) =~= line@);
    }
    Some(acc)
}

} // verus!
