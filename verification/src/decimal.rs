//! Decimal text of integers: zero-padded formatting (as `{:0N}` writes it)
//! and parsing (as `str::parse::<i64>` reads it).
use vstd::prelude::*;
use crate::text::push_char;

verus! {

/// The character of a decimal digit `d` (0 to 9).
pub open spec fn digit_char(d: int) -> char {
    ((48 + d) as u32) as char
}

/// The decimal digits of `n`, without leading zeros (`0` for zero).
pub open spec fn dec_digits(n: nat) -> Seq<char>
    decreases n,
{
    if n < 10 {
        seq![digit_char(n as int)]
    } else {
        dec_digits(n / 10).push(digit_char((n % 10) as int))
    }
}

/// `s` with `0` characters in front up to `width` characters.
pub open spec fn zero_pad(s: Seq<char>, width: nat) -> Seq<char> {
    if s.len() >= width {
        s
    } else {
        Seq::new((width - s.len()) as nat, |i: int| '0') + s
    }
}

/// What `format!("{:0width$}", n)` writes for an integer: a `-` first for a
/// negative number, and zeros after it up to `width` characters in all.
pub open spec fn fmt_padded(n: int, width: nat) -> Seq<char> {
    if n < 0 {
        seq!['-'] + zero_pad(dec_digits((-n) as nat), (width - 1) as nat)
    } else {
        zero_pad(dec_digits(n as nat), width)
    }
}

/// Whether a byte is an ASCII decimal digit.
pub open spec fn is_digit_byte(b: u8) -> bool {
    48 <= b <= 57
}

/// The value of a sequence of ASCII digits.
pub open spec fn digits_value(s: Seq<u8>) -> nat
    decreases s.len(),
{
    if s.len() == 0 {
        0
    } else {
        digits_value(s.drop_last()) * 10 + (s.last() - 48) as nat
    }
}

/// The digits of a number text, after its sign if it has one.
pub open spec fn unsigned_part(s: Seq<u8>) -> Seq<u8> {
    if s.len() > 0 && (s[0] == 45u8 || s[0] == 43u8) {
        s.skip(1)
    } else {
        s
    }
}

/// What `str::parse::<i64>` gives for a text, by its bytes: an optional
/// `+` or `-`, then one or more ASCII digits, with a value that fits in `i64`.
pub open spec fn parse_i64_bytes(s: Seq<u8>) -> Option<i64> {
    let ds = unsigned_part(s);
    if ds.len() == 0 || !(forall|i: int| 0 <= i < ds.len() ==> is_digit_byte(#[trigger] ds[i])) {
        None
    } else {
        let v: int = if s[0] == 45u8 {
            -(digits_value(ds) as int)
        } else {
            digits_value(ds) as int
        };
        if i64::MIN <= v <= i64::MAX {
            Some(v as i64)
        } else {
            None
        }
    }
}

fn digit(d: u64) -> (c: char)
    requires
        d < 10,
    ensures
        c == digit_char(d as int),
{
    let b: u8 = (48 + d) as u8;
    b as char
}

/// Appends the decimal digits of `n`.
pub fn push_digits(out: &mut String, n: u64)
    ensures
        final(out)@ == old(out)@ + dec_digits(n as nat),
    decreases n,
{
    if n >= 10 {
        push_digits(out, n / 10);
    }
    push_char(out, digit(n % 10));
    proof {
        if n < 10 {
            assert(old(out)@ + dec_digits(n as nat) =~= old(out)@.push(digit_char(n as int)));
        } else {
            assert((old(out)@ + dec_digits((n / 10) as nat)).push(digit_char((n % 10) as int))
                =~= old(out)@ + dec_digits(n as nat));
        }
    }
}

/// The digits of `n` with zeros in front up to `width` characters.
fn push_padded_unsigned(out: &mut String, n: u64, width: usize)
    ensures
        final(out)@ == old(out)@ + zero_pad(dec_digits(n as nat), width as nat),
{
    let mut digits = String::new();
    push_digits(&mut digits, n);
    let dv = crate::text::chars_of(digits.as_str());
    proof {
        assert(Seq::<char>::empty() + dec_digits(n as nat) =~= dec_digits(n as nat));
    }
    let ghost start = out@;
    if dv.len() < width {
        let pad = width - dv.len();
        let mut i: usize = 0;
        while i < pad
            invariant
                i <= pad,
                out@ == start + Seq::new(i as nat, |j: int| '0'),
            decreases pad - i,
        {
            push_char(out, '0');
            proof {
                assert(start + Seq::new((i + 1) as nat, |j: int| '0') =~= (start + Seq::new(
                    i as nat,
                    |j: int| '0',
                )).push('0'));
            }
            i = i + 1;
        }
    }
    crate::text::push_all(out, &dv);
    proof {
        if dv@.len() < width {
            assert(start + Seq::new((width - dv@.len()) as nat, |j: int| '0') + dv@ =~= start
                + zero_pad(dec_digits(n as nat), width as nat));
        }
    }
}

/// What `format!("{:0width$}", n)` writes for `n`.
pub fn format_padded(n: i64, width: usize) -> (r: String)
    requires
        width >= 1,
    ensures
        r@ == fmt_padded(n as int, width as nat),
{
    let mut out = String::new();
    if n < 0 {
        push_char(&mut out, '-');
        let m: u64 = (-(n as i128)) as u64;
        push_padded_unsigned(&mut out, m, width - 1);
        proof {
            assert(seq!['-'] + zero_pad(dec_digits(m as nat), (width - 1) as nat) =~= out@);
        }
    } else {
        push_padded_unsigned(&mut out, n as u64, width);
        proof {
            assert(Seq::<char>::empty() + zero_pad(dec_digits(n as nat), width as nat) =~= out@);
        }
    }
    out
}

/// What `format!("{:0width$}", n)` writes for an unsigned `n`.
pub fn format_padded_u64(n: u64, width: usize) -> (r: String)
    ensures
        r@ == fmt_padded(n as int, width as nat),
{
    let mut out = String::new();
    push_padded_unsigned(&mut out, n, width);
    proof {
        assert(Seq::<char>::empty() + zero_pad(dec_digits(n as nat), width as nat) =~= out@);
    }
    out
}

proof fn lemma_value_prefix_monotone(s: Seq<u8>, k: int)
    requires
        0 <= k <= s.len(),
        forall|i: int| 0 <= i < s.len() ==> is_digit_byte(#[trigger] s[i]),
    ensures
        digits_value(s.take(k)) <= digits_value(s),
    decreases s.len() - k,
{
    if k < s.len() {
        lemma_value_prefix_monotone(s, k + 1);
        assert(s.take(k + 1).drop_last() =~= s.take(k));
    } else {
        assert(s.take(k) =~= s);
    }
}

/// Reads a number the way `str::parse::<i64>` does, from the bytes of its
/// text: `None` unless the text is an optional sign and one or more digits
/// with a value that fits in `i64`.
pub fn parse_i64(s: &[u8]) -> (r: Option<i64>)
    ensures
        r == parse_i64_bytes(s@),
{
    let n = s.len();
    if n == 0 {
        return None;
    }
    let neg = s[0] == 45u8;
    let start: usize = if s[0] == 45u8 || s[0] == 43u8 {
        1
    } else {
        0
    };
    let ghost ds = unsigned_part(s@);
    proof {
        if start == 0 {
            assert(ds == s@);
        } else {
            assert(ds == s@.skip(1));
        }
    }
    if start == n {
        return None;
    }
    let bound: u128 = 9223372036854775808;
    let mut acc: u128 = 0;
    let mut i: usize = start;
    while i < n
        invariant
            start <= i <= n,
            n == s@.len(),
            ds == s@.skip(start as int),
            ds == unsigned_part(s@),
            bound == 9223372036854775808u128,
            forall|j: int| 0 <= j < i - start ==> is_digit_byte(#[trigger] ds[j]),
            acc == digits_value(ds.take(i - start)),
            acc <= bound,
        decreases n - i,
    {
        let b = s[i];
        if b < 48u8 || b > 57u8 {
            proof {
                assert(ds[i - start] == b);
                assert(!is_digit_byte(ds[i - start]));
            }
            return None;
        }
        proof {
            assert(ds.take(i - start + 1).drop_last() =~= ds.take(i - start));
            assert(ds.take(i - start + 1).last() == b);
        }
        proof {
            assert(acc * 10 <= bound * 10) by (nonlinear_arith)
                requires
                    acc <= bound,
            ;
        }
        acc = acc * 10 + (b - 48u8) as u128;
        if acc > bound {
            proof {
                assert forall|j: int| 0 <= j < ds.len() implies is_digit_byte(#[trigger] ds[j])
                    || !(forall|k: int| 0 <= k < ds.len() ==> is_digit_byte(#[trigger] ds[k])) by {
                }
                if forall|k: int| 0 <= k < ds.len() ==> is_digit_byte(#[trigger] ds[k]) {
                    lemma_value_prefix_monotone(ds, i - start + 1);
                }
            }
            return None;
        }
        i = i + 1;
    }
    proof {
        assert(ds.take(n - start) =~= ds);
    }
    if neg {
        let v: i128 = -(acc as i128);
        Some(v as i64)
    } else {
        if acc == bound {
            return None;
        }
        Some(acc as i64)
    }
}

/// The bytes of an ASCII text.
pub open spec fn ascii_bytes(s: Seq<char>) -> Seq<u8> {
    s.map_values(|c: char| c as u8)
}

/// Ten to the power `k`.
pub open spec fn pow10(k: nat) -> nat
    decreases k,
{
    if k == 0 {
        1
    } else {
        10 * pow10((k - 1) as nat)
    }
}

/// A number below `10^k` has at most `k` digits (and always at least one).
pub proof fn lemma_digits_len(n: nat, k: nat)
    requires
        n < pow10(k),
    ensures
        1 <= dec_digits(n).len() <= if k == 0 { 1 } else { k },
    decreases k,
{
    if n >= 10 {
        assert(k >= 2) by {
            if k == 1 {
                assert(pow10(1) == 10) by {
                    assert(pow10(0) == 1);
                }
            } else if k == 0 {
            }
        }
        let p = pow10((k - 1) as nat);
        assert(n / 10 < p) by (nonlinear_arith)
            requires
                n < 10 * p,
        ;
        lemma_digits_len(n / 10, (k - 1) as nat);
    }
}

/// The digits of `n` are ASCII digits and spell `n`.
pub proof fn lemma_digits_value(n: nat)
    ensures
        forall|i: int|
            0 <= i < dec_digits(n).len() ==> is_digit_byte(#[trigger] ascii_bytes(dec_digits(n))[i]),
        digits_value(ascii_bytes(dec_digits(n))) == n,
    decreases n,
{
    let d = dec_digits(n);
    if n < 10 {
        let c = digit_char(n as int);
        assert((c as u8) == 48 + n);
        assert(ascii_bytes(d).drop_last() =~= Seq::<u8>::empty());
        assert(ascii_bytes(d).last() == c as u8);
        assert(digits_value(ascii_bytes(d)) == digits_value(Seq::<u8>::empty()) * 10 + n);
    } else {
        lemma_digits_value(n / 10);
        let p = dec_digits(n / 10);
        let c = digit_char((n % 10) as int);
        assert((c as u8) == 48 + n % 10);
        assert(ascii_bytes(d) =~= ascii_bytes(p).push(c as u8));
        assert(ascii_bytes(d).drop_last() =~= ascii_bytes(p));
        assert(ascii_bytes(d).last() == c as u8);
        assert(digits_value(ascii_bytes(d)) == digits_value(ascii_bytes(p)) * 10 + (n % 10));
        assert(n == (n / 10) * 10 + n % 10);
    }
}

/// Leading zeros do not change the value of a digit text.
pub proof fn lemma_leading_zeros(k: nat, s: Seq<u8>)
    ensures
        digits_value(Seq::new(k, |i: int| 48u8) + s) == digits_value(s),
    decreases s.len(), k,
{
    let z = Seq::new(k, |i: int| 48u8);
    if s.len() == 0 {
        assert(z + s =~= z);
        if k > 0 {
            lemma_leading_zeros((k - 1) as nat, s);
            let z1 = Seq::new((k - 1) as nat, |i: int| 48u8);
            assert(z.drop_last() =~= z1 + s);
        }
    } else {
        lemma_leading_zeros(k, s.drop_last());
        assert((z + s).drop_last() =~= z + s.drop_last());
    }
}

} // verus!
