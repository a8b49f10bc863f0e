use vstd::prelude::*;

verus! {

/// The character whose code point is `n`.
pub open spec fn chr(n: int) -> char {
    (n as u32) as char
}

/// An ASCII decimal digit.
pub open spec fn is_digit(c: char) -> bool {
    '0' <= c && c <= '9'
}

/// Value of an ASCII decimal digit.
pub open spec fn digit_value(c: char) -> int {
    (c as int) - ('0' as int)
}

/// Decimal rendering of `n`, without leading zeros.
pub open spec fn decimal_text(n: nat) -> Seq<char>
    decreases n,
{
    if n < 10 {
        seq![chr(n as int + 48)]
    } else {
        decimal_text(n / 10).push(chr((n % 10) as int + 48))
    }
}

/// Decimal rendering of `n`, padded with zeros on the left to `width` digits.
pub open spec fn padded_decimal(n: nat, width: nat) -> Seq<char> {
    let t = decimal_text(n);
    if t.len() >= width {
        t
    } else {
        Seq::new((width - t.len()) as nat, |i: int| '0') + t
    }
}

/// Relies on String::push: the character is appended at the end.
#[verifier::external_body]
pub(crate) fn push_char(s: &mut String, c: char)
    ensures
        final(s)@ == old(s)@.push(c),
{
    s.push(c)
}

/// Appends the decimal rendering of `n`.
pub fn push_decimal(s: &mut String, n: u64)
    ensures
        final(s)@ == old(s)@ + decimal_text(n as nat),
    decreases n,
{
    if n < 10 {
        push_char(s, ((n + 48) as u8) as char);
        assert(old(s)@ + decimal_text(n as nat) =~= old(s)@.push(chr(n as int + 48)));
    } else {
        push_decimal(s, n / 10);
        push_char(s, ((n % 10 + 48) as u8) as char);
        assert(old(s)@ + decimal_text(n as nat) =~= (old(s)@ + decimal_text((n / 10) as nat)).push(
            chr((n % 10) as int + 48),
        ));
    }
}

/// Appends the decimal rendering of `n`, zero-padded to `width` digits.
pub fn push_padded(s: &mut String, n: u64, width: usize)
    ensures
        final(s)@ == old(s)@ + padded_decimal(n as nat, width as nat),
{
    let len = decimal_len(n);
    let ghost start = s@;
    if len < width {
        let mut k: usize = len;
        while k < width
            invariant
                len <= k <= width,
                s@ =~= start + Seq::new((k - len) as nat, |i: int| '0'),
            decreases width - k,
        {
            push_char(s, '0');
            k = k + 1;
        }
    }
    push_decimal(s, n);
    assert(s@ =~= start + padded_decimal(n as nat, width as nat));
}

/// Number of digits in the decimal rendering of `n`.
pub fn decimal_len(n: u64) -> (r: usize)
    ensures
        r == decimal_text(n as nat).len(),
    decreases n,
{
    if n < 10 {
        1
    } else {
        let r = decimal_len(n / 10);
        proof {
            lemma_decimal_len_bound((n / 10) as nat);
        }
        r + 1
    }
}

proof fn lemma_decimal_len_bound(n: nat)
    ensures
        decimal_text(n).len() <= 20 || n > 0xffff_ffff_ffff_ffff,
    decreases n,
{
    if n >= 10 {
        lemma_decimal_len_bound(n / 10);
        if n <= 0xffff_ffff_ffff_ffff {
            lemma_short_numbers(n);
        }
    }
}

proof fn lemma_short_numbers(n: nat)
    requires
        n <= 0xffff_ffff_ffff_ffff,
    ensures
        decimal_text(n).len() <= 20,
{
    reveal_with_fuel(pow10, 21);
    assert(pow10(20) == 100000000000000000000nat);
    lemma_len_le(n, 20);
}

proof fn lemma_len_le(n: nat, k: nat)
    requires
        k >= 1,
        n < pow10(k),
    ensures
        decimal_text(n).len() <= k,
    decreases k,
{
    if n >= 10 {
        if k == 1 {
            reveal_with_fuel(pow10, 2);
        } else {
            assert(n / 10 < pow10((k - 1) as nat)) by (nonlinear_arith)
                requires
                    n < pow10(k),
                    pow10(k) == 10 * pow10((k - 1) as nat),
            ;
            lemma_len_le(n / 10, (k - 1) as nat);
        }
    }
}

/// Ten to the power `k`.
pub open spec fn pow10(k: nat) -> nat
    decreases k,
{
    if k == 0 {
        1
    } else {
        10 * pow10((k - 1) as nat)
    }
}

} // verus!
