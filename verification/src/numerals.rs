use vstd::prelude::*;

verus! {

/// The decimal digit character for a value `d` between 0 and 9.
pub open spec fn digit_char(d: int) -> char
    recommends
        0 <= d <= 9,
{
    (('0' as u32) + d) as char
}

/// The decimal digit string of a non-negative integer, most significant
/// digit first, with no leading zeros (a single '0' for zero).
pub open spec fn dec_digits(n: int) -> Seq<char>
    recommends
        n >= 0,
    decreases n,
{
    if n < 10 {
        seq![digit_char(n)]
    } else {
        dec_digits(n / 10).push(digit_char(n % 10))
    }
}

/// The decimal rendering of an integer: a leading '-' when negative,
/// then the digits of its magnitude.
pub open spec fn int_chars(n: int) -> Seq<char> {
    if n < 0 {
        seq!['-'] + dec_digits(-n)
    } else {
        dec_digits(n)
    }
}

/// Appends the decimal digits of `n` to `out`.
pub fn push_u128_chars(out: &mut Vec<char>, n: u128)
    ensures
        final(out)@ == old(out)@ + dec_digits(n as int),
{
    let mut digs: Vec<char> = Vec::new();
    let mut m: u128 = n;
    proof {
        assert(dec_digits(n as int) =~= dec_digits(m as int) + digs@);
    }
    while m >= 10
        invariant
            dec_digits(n as int) == dec_digits(m as int) + digs@,
        decreases m,
    {
        let d: u8 = (m % 10) as u8;
        let c: char = (48u8 + d) as char;
        let ghost before = digs@;
        proof {
            assert(c == digit_char((m as int) % 10));
            assert(dec_digits(m as int) =~= dec_digits((m as int) / 10) + seq![c]);
        }
        digs.insert(0, c);
        proof {
            assert(digs@ =~= seq![c] + before);
            assert(dec_digits((m as int) / 10) + digs@ =~= dec_digits(m as int) + before);
        }
        m = m / 10;
    }
    let d: u8 = m as u8;
    let c: char = (48u8 + d) as char;
    let ghost before = digs@;
    proof {
        assert(c == digit_char(m as int));
        assert(dec_digits(m as int) =~= seq![c]);
    }
    digs.insert(0, c);
    proof {
        assert(digs@ =~= seq![c] + before);
        assert(dec_digits(n as int) =~= digs@);
    }
    let mut k: usize = 0;
    while k < digs.len()
        invariant
            k <= digs.len(),
            dec_digits(n as int) == digs@,
            out@ == old(out)@ + digs@.take(k as int),
        decreases digs.len() - k,
    {
        out.push(digs[k]);
        proof {
            assert(digs@.take(k + 1) =~= digs@.take(k as int).push(digs@[k as int]));
            assert(out@ =~= old(out)@ + digs@.take(k + 1));
        }
        k = k + 1;
    }
    proof {
        assert(digs@.take(digs@.len() as int) =~= digs@);
    }
}

/// Appends the decimal rendering of `n` (sign included) to `out`.
pub fn push_i128_chars(out: &mut Vec<char>, n: i128)
    ensures
        final(out)@ == old(out)@ + int_chars(n as int),
{
    if n < 0 {
        out.push('-');
        let mag: u128 = ((-(n + 1)) as u128) + 1;
        proof {
            assert(mag as int == -(n as int));
        }
        push_u128_chars(out, mag);
        proof {
            assert((old(out)@ + seq!['-']) + dec_digits(mag as int) =~= old(out)@ + int_chars(
                n as int,
            ));
        }
    } else {
        push_u128_chars(out, n as u128);
    }
}

/// Appends the decimal rendering of `n` (sign included) to `out`.
pub fn push_i64_chars(out: &mut Vec<char>, n: i64)
    ensures
        final(out)@ == old(out)@ + int_chars(n as int),
{
    push_i128_chars(out, n as i128);
}

} // verus!
