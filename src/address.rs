use vstd::prelude::*;
use vstd::arithmetic::div_mod::lemma_fundamental_div_mod_converse;
use crate::text::{chr, decimal_text, digit_value, is_digit};

verus! {

/// Why a textual cell address was rejected.
#[derive(Debug, Clone, Copy, PartialEq, Eq, Structural)]
pub enum AddressError {
    /// The address holds no digit, so it has no row part.
    InvalidFormat,
    /// The letter run is empty, holds a character that is no letter, or names
    /// a column beyond the `u32` range.
    InvalidColumn,
    /// The digit run is not a positive integer that fits in `u32`.
    InvalidRow,
}

/// A column letter, of either case.
pub open spec fn is_letter(c: char) -> bool {
    ('A' <= c && c <= 'Z') || ('a' <= c && c <= 'z')
}

/// Value of a column letter: `A` is 1, `Z` is 26.
pub open spec fn letter_number(c: char) -> int {
    if 'A' <= c && c <= 'Z' {
        (c as int) - ('A' as int) + 1
    } else {
        (c as int) - ('a' as int) + 1
    }
}

/// Index of the first digit of `s`, or its length when it holds none.
pub open spec fn first_digit(s: Seq<char>) -> int
    decreases s.len(),
{
    if s.len() == 0 {
        0
    } else if is_digit(s[0]) {
        0
    } else {
        1 + first_digit(s.drop_first())
    }
}

pub open spec fn all_letters(s: Seq<char>) -> bool {
    forall|i: int| 0 <= i < s.len() ==> is_letter(#[trigger] s[i])
}

pub open spec fn all_digits(s: Seq<char>) -> bool {
    forall|i: int| 0 <= i < s.len() ==> is_digit(#[trigger] s[i])
}

/// Bijective base-26 value of a letter run (`A` = 1, `Z` = 26, `AA` = 27).
pub open spec fn column_number(s: Seq<char>) -> int
    decreases s.len(),
{
    if s.len() == 0 {
        0
    } else {
        26 * column_number(s.drop_last()) + letter_number(s.last())
    }
}

/// Decimal value of a digit run.
pub open spec fn decimal_number(s: Seq<char>) -> int
    decreases s.len(),
{
    if s.len() == 0 {
        0
    } else {
        10 * decimal_number(s.drop_last()) + digit_value(s.last())
    }
}

/// The zero-based (row, column) that a textual address names, or why it names none.
pub open spec fn address_spec(s: Seq<char>) -> Result<(int, int), AddressError> {
    let k = first_digit(s);
    let letters = s.subrange(0, k);
    let digits = s.subrange(k, s.len() as int);
    if k >= s.len() {
        Err(AddressError::InvalidFormat)
    } else if letters.len() == 0 || !all_letters(letters) || column_number(letters) > 0x1_0000_0000 {
        Err(AddressError::InvalidColumn)
    } else if !all_digits(digits) || decimal_number(digits) == 0 || decimal_number(digits)
        > 0xffff_ffff {
        Err(AddressError::InvalidRow)
    } else {
        Ok((decimal_number(digits) - 1, column_number(letters) - 1))
    }
}

/// Uppercase letter run naming the one-based column `n` (1 is `A`, 27 is `AA`).
pub open spec fn column_label(n: nat) -> Seq<char>
    decreases n,
{
    if n == 0 {
        Seq::empty()
    } else {
        column_label(((n - 1) / 26) as nat).push(chr((n - 1) % 26 + ('A' as int)))
    }
}

/// The canonical textual address of a zero-based (row, column).
pub open spec fn address_text(row: nat, col: nat) -> Seq<char> {
    column_label(col + 1) + decimal_text(row + 1)
}

proof fn lemma_first_digit(s: Seq<char>, i: int)
    requires
        0 <= i <= s.len(),
        forall|j: int| 0 <= j < i ==> !is_digit(#[trigger] s[j]),
        i == s.len() || is_digit(s[i]),
    ensures
        first_digit(s) == i,
    decreases s.len(),
{
    if s.len() > 0 && i > 0 {
        assert(!is_digit(s[0]));
        assert forall|j: int| 0 <= j < i - 1 implies !is_digit(#[trigger] s.drop_first()[j]) by {
            assert(s.drop_first()[j] == s[j + 1]);
        }
        lemma_first_digit(s.drop_first(), i - 1);
    }
}

/// Writing back what a canonical address decodes to gives the address again:
/// for an uppercase letter run followed by a row without leading zeros that
/// decodes, `address_text(row, col)` gives back the same text.
pub proof fn lemma_address_round_trip(letters: Seq<char>, digits: Seq<char>)
    requires
        letters.len() > 0,
        forall|i: int| 0 <= i < letters.len() ==> 'A' <= #[trigger] letters[i] <= 'Z',
        digits.len() > 0,
        all_digits(digits),
        digits[0] != '0',
        address_spec(letters + digits) is Ok,
    ensures
        match address_spec(letters + digits) {
            Ok((row, col)) => row >= 0 && col >= 0 && address_text(row as nat, col as nat)
                == letters + digits,
            Err(_) => false,
        },
{
    let s = letters + digits;
    let k = letters.len() as int;
    assert forall|j: int| 0 <= j < k implies !is_digit(#[trigger] s[j]) by {
        assert(s[j] == letters[j]);
    }
    assert(s[k] == digits[0]);
    lemma_first_digit(s, k);
    assert(s.subrange(0, k) =~= letters);
    assert(s.subrange(k, s.len() as int) =~= digits);
    lemma_column_label_inverse(letters);
    lemma_decimal_text_inverse(digits);
    lemma_decimal_positive(digits);
    let row = decimal_number(digits) - 1;
    let col = column_number(letters) - 1;
    assert(address_spec(s) == Ok::<(int, int), AddressError>((row, col)));
    assert((col + 1) as nat == column_number(letters) as nat);
    assert((row + 1) as nat == decimal_number(digits) as nat);
    assert(address_text(row as nat, col as nat) == s);
}

proof fn lemma_column_label_inverse(l: Seq<char>)
    requires
        forall|i: int| 0 <= i < l.len() ==> 'A' <= #[trigger] l[i] <= 'Z',
    ensures
        column_number(l) >= 0,
        column_label(column_number(l) as nat) == l,
    decreases l.len(),
{
    if l.len() > 0 {
        let p = l.drop_last();
        assert forall|i: int| 0 <= i < p.len() implies 'A' <= #[trigger] p[i] <= 'Z' by {
            assert(p[i] == l[i]);
        }
        lemma_column_label_inverse(p);
        if p.len() == 0 {
            assert(column_number(p) == 0);
        }
        let c = l.last();
        assert('A' <= l[l.len() - 1] <= 'Z');
        let v = letter_number(c);
        let n = column_number(l);
        assert(n - 1 == column_number(p) * 26 + (v - 1));
        lemma_fundamental_div_mod_converse(n - 1, 26, column_number(p), v - 1);
        assert(chr((n - 1) % 26 + ('A' as int)) == c);
        assert(column_label(n as nat) =~= l);
    }
}

proof fn lemma_decimal_positive(d: Seq<char>)
    requires
        d.len() > 0,
        all_digits(d),
        d[0] != '0',
    ensures
        decimal_number(d) >= 1,
    decreases d.len(),
{
    let p = d.drop_last();
    assert(is_digit(d[d.len() - 1]));
    if p.len() > 0 {
        assert(p[0] == d[0]);
        assert(all_digits(p)) by {
            assert forall|i: int| 0 <= i < p.len() implies is_digit(#[trigger] p[i]) by {
                assert(p[i] == d[i]);
            }
        }
        lemma_decimal_positive(p);
    } else {
        assert(decimal_number(p) == 0);
        assert(d[0] == d.last());
    }
}

proof fn lemma_decimal_text_inverse(d: Seq<char>)
    requires
        d.len() > 0,
        all_digits(d),
        d[0] != '0',
    ensures
        decimal_text(decimal_number(d) as nat) == d,
    decreases d.len(),
{
    let p = d.drop_last();
    let c = d.last();
    assert(is_digit(d[d.len() - 1]));
    lemma_decimal_positive(d);
    let n = decimal_number(d);
    if p.len() == 0 {
        assert(decimal_number(p) == 0);
        assert(n == digit_value(c));
        assert(chr(n + 48) == c);
        assert(decimal_text(n as nat) =~= d);
    } else {
        assert(p[0] == d[0]);
        assert(all_digits(p)) by {
            assert forall|i: int| 0 <= i < p.len() implies is_digit(#[trigger] p[i]) by {
                assert(p[i] == d[i]);
            }
        }
        lemma_decimal_positive(p);
        lemma_decimal_text_inverse(p);
        lemma_fundamental_div_mod_converse(n, 10, decimal_number(p), digit_value(c));
        assert(chr((n % 10) + 48) == c);
        assert(decimal_text(n as nat) =~= d);
    }
}

const COLUMN_CAP: u64 = 0x1_0000_0001;

const ROW_CAP: u64 = 0x1_0000_0000;

/// Decodes a spreadsheet-style address such as `"AB12"` into a zero-based
/// (row, column) pair.
///
/// The address splits at its first digit. The letters before it are read in
/// bijective base 26 (`A` = 1 ... `Z` = 26, either case) and one is taken
/// off; the digits after it are the one-based row.
pub fn address_to_row_col(cell_address: &str) -> (r: Result<(u32, u32), AddressError>)
    ensures
        match r {
            Ok((row, col)) => address_spec(cell_address@) == Ok::<(int, int), AddressError>(
                (row as int, col as int),
            ),
            Err(e) => address_spec(cell_address@) == Err::<(int, int), AddressError>(e),
        },
{
    let ghost s = cell_address@;
    let n = cell_address.unicode_len();
    let mut k: usize = 0;
    while k < n && !is_digit_char(cell_address.get_char(k))
        invariant
            n == s.len(),
            s == cell_address@,
            0 <= k <= n,
            forall|j: int| 0 <= j < k ==> !is_digit(#[trigger] s[j]),
        decreases n - k,
    {
        k = k + 1;
    }
    proof {
        lemma_first_digit(s, k as int);
    }
    if k == n {
        return Err(AddressError::InvalidFormat);
    }
    let ghost letters = s.subrange(0, k as int);
    let ghost digits = s.subrange(k as int, n as int);
    if k == 0 {
        return Err(AddressError::InvalidColumn);
    }
    // The column value saturates at COLUMN_CAP, past which no column fits.
    let mut col: u64 = 0;
    let mut i: usize = 0;
    while i < k
        invariant
            n == s.len(),
            s == cell_address@,
            0 <= i <= k < n,
            letters == s.subrange(0, k as int),
            first_digit(s) == k,
            all_letters(s.subrange(0, i as int)),
            col == if column_number(s.subrange(0, i as int)) < COLUMN_CAP {
                column_number(s.subrange(0, i as int))
            } else {
                COLUMN_CAP as int
            },
            column_number(s.subrange(0, i as int)) >= 0,
            i > 0 ==> col >= 1,
        decreases k - i,
    {
        let c = cell_address.get_char(i);
        let v = match letter_value(c) {
            Some(v) => v,
            None => {
                assert(letters[i as int] == c);
                assert(!is_letter(letters[i as int]));
                assert(!all_letters(letters));
                return Err(AddressError::InvalidColumn);
            },
        };
        let ghost prev = s.subrange(0, i as int);
        let ghost next = s.subrange(0, i as int + 1);
        assert(next.drop_last() =~= prev);
        assert(next.last() == c);
        let grown = col * 26 + v as u64;
        col = if grown < COLUMN_CAP { grown } else { COLUMN_CAP };
        proof {
            let p = column_number(prev);
            assert(p >= COLUMN_CAP ==> 26 * p + v >= COLUMN_CAP) by (nonlinear_arith)
                requires p >= 0, v >= 1;
            assert(all_letters(next)) by {
                assert forall|j: int| 0 <= j < next.len() implies is_letter(#[trigger] next[j]) by {
                    if j < i {
                        assert(next[j] == prev[j]);
                    }
                }
            }
        }
        i = i + 1;
    }
    assert(s.subrange(0, i as int) =~= letters);
    if col >= COLUMN_CAP {
        return Err(AddressError::InvalidColumn);
    }
    let mut row: u64 = 0;
    let mut i: usize = k;
    while i < n
        invariant
            n == s.len(),
            s == cell_address@,
            0 <= k <= i <= n,
            digits == s.subrange(k as int, n as int),
            first_digit(s) == k,
            letters == s.subrange(0, k as int),
            k > 0,
            all_letters(letters),
            1 <= column_number(letters) <= 0x1_0000_0000,
            all_digits(s.subrange(k as int, i as int)),
            row == if decimal_number(s.subrange(k as int, i as int)) < ROW_CAP {
                decimal_number(s.subrange(k as int, i as int))
            } else {
                ROW_CAP as int
            },
            decimal_number(s.subrange(k as int, i as int)) >= 0,
        decreases n - i,
    {
        let c = cell_address.get_char(i);
        if !is_digit_char(c) {
            assert(digits[i - k] == c);
            assert(!is_digit(digits[i - k]));
            assert(!all_digits(digits));
            return Err(AddressError::InvalidRow);
        }
        let ghost prev = s.subrange(k as int, i as int);
        let ghost next = s.subrange(k as int, i as int + 1);
        assert(next.drop_last() =~= prev);
        assert(next.last() == c);
        let d = (c as u32 - '0' as u32) as u64;
        let grown = row * 10 + d;
        row = if grown < ROW_CAP { grown } else { ROW_CAP };
        proof {
            let p = decimal_number(prev);
            assert(p >= ROW_CAP ==> 10 * p + d >= ROW_CAP) by (nonlinear_arith)
                requires p >= 0, d >= 0;
            assert(all_digits(next)) by {
                assert forall|j: int| 0 <= j < next.len() implies is_digit(#[trigger] next[j]) by {
                    if j < i - k {
                        assert(next[j] == prev[j]);
                    }
                }
            }
        }
        i = i + 1;
    }
    assert(s.subrange(k as int, i as int) =~= digits);
    if row == 0 || row >= ROW_CAP {
        return Err(AddressError::InvalidRow);
    }
    Ok(((row - 1) as u32, (col - 1) as u32))
}

fn is_digit_char(c: char) -> (r: bool)
    ensures
        r == is_digit(c),
{
    '0' <= c && c <= '9'
}

/// Value of a column letter of either case (`A` and `a` are 1), if `c` is one.
pub fn letter_value(c: char) -> (r: Option<u32>)
    ensures
        r is Some <==> is_letter(c),
        r is Some ==> r->0 == letter_number(c) && 1 <= r->0 <= 26,
{
    if 'A' <= c && c <= 'Z' {
        Some((c as u32) - ('A' as u32) + 1)
    } else if 'a' <= c && c <= 'z' {
        Some((c as u32) - ('a' as u32) + 1)
    } else {
        None
    }
}

} // verus!
