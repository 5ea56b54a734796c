use crate::error::{with_err_view, Error, SpecErr};
use crate::text::{chars_of_str, string_of_chars};
use vstd::prelude::*;

verus! {

/// A spreadsheet cell address: one column letter and a row number.
#[derive(Clone, Copy, PartialEq, Eq, Structural, Hash, Debug)]
pub struct CellId {
    pub col: char,
    pub row: usize,
}

/// A well-formed address: an upper-case ASCII column and a positive row.
pub open spec fn cell_id_valid(c: CellId) -> bool {
    'A' <= c.col <= 'Z' && 1 <= c.row
}

/// An ASCII decimal digit.
pub open spec fn is_digit(c: char) -> bool {
    '0' <= c <= '9'
}

/// The numeric value of a digit character.
pub open spec fn digit_val(c: char) -> nat
    recommends
        is_digit(c),
{
    (c as u32 - '0' as u32) as nat
}

/// The digit character of a value below ten.
pub open spec fn digit_char(d: nat) -> char
    recommends
        d < 10,
{
    if d == 0 {
        '0'
    } else if d == 1 {
        '1'
    } else if d == 2 {
        '2'
    } else if d == 3 {
        '3'
    } else if d == 4 {
        '4'
    } else if d == 5 {
        '5'
    } else if d == 6 {
        '6'
    } else if d == 7 {
        '7'
    } else if d == 8 {
        '8'
    } else {
        '9'
    }
}

/// Every character of the sequence is a decimal digit.
pub open spec fn all_digits(s: Seq<char>) -> bool {
    forall|i: int| 0 <= i < s.len() ==> is_digit(#[trigger] s[i])
}

/// The value of a most-significant-first digit string.
pub open spec fn digits_val(s: Seq<char>) -> nat
    decreases s.len(),
{
    if s.len() == 0 {
        0
    } else {
        10 * digits_val(s.drop_last()) + digit_val(s.last())
    }
}

/// The shortest decimal digit string of a number (`0` for zero).
pub open spec fn row_digits(n: nat) -> Seq<char>
    decreases n,
{
    if n < 10 {
        seq![digit_char(n)]
    } else {
        row_digits(n / 10).push(digit_char(n % 10))
    }
}

/// The canonical text of an address: the column letter, then the row,
/// zero-padded to at least two digits.
pub open spec fn format_spec(c: CellId) -> Seq<char> {
    let ds = if c.row < 10 {
        seq!['0'].add(row_digits(c.row as nat))
    } else {
        row_digits(c.row as nat)
    };
    seq![c.col].add(ds)
}

/// What parsing an address text yields: the address, or the first of three
/// complaints (empty text, bad column letter, missing or bad row).
pub open spec fn cell_id_parse_spec(s: Seq<char>) -> Result<CellId, SpecErr> {
    if s.len() == 0 {
        Err(SpecErr::EmptyCellId)
    } else if !('A' <= s[0] <= 'Z') {
        Err(SpecErr::BadColumn)
    } else {
        let ds = s.skip(1);
        if ds.len() == 0 || !all_digits(ds) || digits_val(ds) > usize::MAX as nat || digits_val(ds)
            == 0 {
            Err(SpecErr::BadRow)
        } else {
            Ok(CellId { col: s[0], row: digits_val(ds) as usize })
        }
    }
}

/// A digit-string prefix never exceeds the value of the whole string.
proof fn lemma_digits_prefix_le(s: Seq<char>, i: int)
    requires
        0 <= i <= s.len(),
    ensures
        digits_val(s.take(i)) <= digits_val(s),
    decreases s.len() - i,
{
    if i == s.len() {
        assert(s.take(i) =~= s);
    } else {
        lemma_digits_prefix_le(s, i + 1);
        assert(s.take(i + 1).drop_last() =~= s.take(i));
        assert(digits_val(s.take(i + 1)) == 10 * digits_val(s.take(i)) + digit_val(
            s.take(i + 1).last(),
        ));
    }
}

impl CellId {
    /// Reads an address such as `A18` or `Z01`: one upper-case column letter,
    /// then a positive row number written in decimal digits.
    pub fn parse(s: &str) -> (r: Result<CellId, Error>)
        ensures
            with_err_view(r) == cell_id_parse_spec(s@),
    {
        let chars = chars_of_str(s);
        CellId::parse_chars(&chars)
    }

    /// Reads an address from its characters; see [`CellId::parse`].
    pub fn parse_chars(chars: &Vec<char>) -> (r: Result<CellId, Error>)
        ensures
            with_err_view(r) == cell_id_parse_spec(chars@),
    {
        let ghost s = chars@;
        if chars.len() == 0 {
            return Err(Error::EmptyCellId);
        }
        let col = chars[0];
        if !('A' <= col && col <= 'Z') {
            return Err(Error::BadColumn);
        }
        let ghost ds = s.skip(1);
        if chars.len() == 1 {
            return Err(Error::BadRow);
        }
        let mut acc: usize = 0;
        let mut i: usize = 1;
        while i < chars.len()
            invariant
                1 <= i <= chars.len(),
                chars@ == s,
                s.len() >= 2,
                col == s[0],
                'A' <= col <= 'Z',
                ds == s.skip(1),
                all_digits(ds.take(i - 1)),
                acc == digits_val(ds.take(i - 1)),
            decreases chars.len() - i,
        {
            let c = chars[i];
            proof {
                assert(ds[i - 1] == s[i as int]);
            }
            if !('0' <= c && c <= '9') {
                assert(!all_digits(ds)) by {
                    assert(!is_digit(ds[i - 1]));
                }
                return Err(Error::BadRow);
            }
            let d = (c as u32 - '0' as u32) as usize;
            if acc > (usize::MAX - d) / 10 {
                proof {
                    lemma_digits_acc_overflow(acc as nat, d as nat);
                    assert(ds.take(i as int).drop_last() =~= ds.take(i - 1));
                    assert(digits_val(ds.take(i as int)) == 10 * acc + d);
                    lemma_digits_prefix_le(ds, i as int);
                }
                return Err(Error::BadRow);
            }
            proof {
                lemma_digits_acc_fits(acc as nat, d as nat);
                assert(ds.take(i as int).drop_last() =~= ds.take(i - 1));
            }
            acc = acc * 10 + d;
            i += 1;
        }
        proof {
            assert(ds.take(i - 1) =~= ds);
        }
        if acc == 0 {
            return Err(Error::BadRow);
        }
        Ok(CellId { col, row: acc })
    }

    /// Writes the canonical text of the address, the inverse of
    /// [`CellId::parse`]: column letter, then the row zero-padded to at
    /// least two digits.
    pub fn format(&self) -> (r: String)
        ensures
            r@ == format_spec(*self),
    {
        let mut v: Vec<char> = Vec::new();
        v.push(self.col);
        if self.row < 10 {
            v.push('0');
        }
        let mut ds = digits_exec(self.row);
        v.append(&mut ds);
        string_of_chars(&v)
    }
}

/// An accumulator past the overflow guard would exceed `usize::MAX`.
proof fn lemma_digits_acc_overflow(acc: nat, d: nat)
    requires
        d < 10,
        acc > (usize::MAX as nat - d) / 10,
    ensures
        10 * acc + d > usize::MAX as nat,
{
    let m = usize::MAX as nat - d;
    assert(acc >= m / 10 + 1);
    assert(10 * (m / 10) + m % 10 == m) by (nonlinear_arith);
    assert(10 * acc >= 10 * (m / 10) + 10) by (nonlinear_arith)
        requires
            acc >= m / 10 + 1,
    ;
}

/// An accumulator within the overflow guard keeps the next value in range.
proof fn lemma_digits_acc_fits(acc: nat, d: nat)
    requires
        d < 10,
        acc <= (usize::MAX as nat - d) / 10,
    ensures
        10 * acc + d <= usize::MAX as nat,
{
    let m = usize::MAX as nat - d;
    assert(10 * (m / 10) + m % 10 == m) by (nonlinear_arith);
    assert(10 * acc <= 10 * (m / 10)) by (nonlinear_arith)
        requires
            acc <= m / 10,
    ;
}

/// The digit character of a value below ten.
fn digit_char_exec(d: usize) -> (r: char)
    requires
        d < 10,
    ensures
        r == digit_char(d as nat),
{
    if d == 0 {
        '0'
    } else if d == 1 {
        '1'
    } else if d == 2 {
        '2'
    } else if d == 3 {
        '3'
    } else if d == 4 {
        '4'
    } else if d == 5 {
        '5'
    } else if d == 6 {
        '6'
    } else if d == 7 {
        '7'
    } else if d == 8 {
        '8'
    } else {
        '9'
    }
}

/// The decimal digits of a number, most significant first.
fn digits_exec(n: usize) -> (r: Vec<char>)
    ensures
        r@ == row_digits(n as nat),
    decreases n,
{
    if n < 10 {
        let mut v: Vec<char> = Vec::new();
        v.push(digit_char_exec(n));
        proof {
            assert(v@ =~= seq![digit_char(n as nat)]);
        }
        v
    } else {
        let mut v = digits_exec(n / 10);
        v.push(digit_char_exec(n % 10));
        v
    }
}

/// The digit character of a small value reads back as that value.
proof fn lemma_digit_roundtrip(d: nat)
    requires
        d < 10,
    ensures
        is_digit(digit_char(d)),
        digit_val(digit_char(d)) == d,
{
}

/// The digit string of a number holds digits only and reads back as the
/// number itself.
proof fn lemma_row_digits_val(n: nat)
    ensures
        all_digits(row_digits(n)),
        digits_val(row_digits(n)) == n,
        row_digits(n).len() >= 1,
    decreases n,
{
    if n < 10 {
        lemma_digit_roundtrip(n);
        assert(row_digits(n).drop_last() =~= Seq::<char>::empty());
        assert(digits_val(Seq::<char>::empty()) == 0);
        assert(digits_val(row_digits(n)) == 10 * digits_val(row_digits(n).drop_last()) + digit_val(
            row_digits(n).last(),
        ));
    } else {
        lemma_row_digits_val(n / 10);
        lemma_digit_roundtrip(n % 10);
        assert(row_digits(n).drop_last() =~= row_digits(n / 10));
        assert(10 * (n / 10) + n % 10 == n) by (nonlinear_arith);
        assert forall|i: int| 0 <= i < row_digits(n).len() implies is_digit(
            #[trigger] row_digits(n)[i],
        ) by {
            if i < row_digits(n / 10).len() {
                assert(row_digits(n)[i] == row_digits(n / 10)[i]);
            }
        }
    }
}

/// A leading zero does not change the value of a digit string.
proof fn lemma_leading_zero(s: Seq<char>)
    ensures
        digits_val(seq!['0'].add(s)) == digits_val(s),
    decreases s.len(),
{
    if s.len() == 0 {
        assert(seq!['0'].add(s) =~= seq!['0']);
        assert(seq!['0'].drop_last() =~= Seq::<char>::empty());
        assert(digits_val(Seq::<char>::empty()) == 0);
        assert(digits_val(seq!['0']) == 10 * digits_val(seq!['0'].drop_last()) + digit_val(
            seq!['0'].last(),
        ));
    } else {
        lemma_leading_zero(s.drop_last());
        assert(seq!['0'].add(s).drop_last() =~= seq!['0'].add(s.drop_last()));
        assert(seq!['0'].add(s).last() == s.last());
    }
}

/// Parsing the canonical text of a well-formed address yields the address
/// back: the codec round-trips.
pub proof fn lemma_cell_id_round_trip(c: CellId)
    requires
        cell_id_valid(c),
    ensures
        cell_id_parse_spec(format_spec(c)) == Ok::<CellId, SpecErr>(c),
{
    let n = c.row as nat;
    lemma_row_digits_val(n);
    let s = format_spec(c);
    let ds = if c.row < 10 {
        seq!['0'].add(row_digits(n))
    } else {
        row_digits(n)
    };
    assert(s[0] == c.col);
    assert(s.skip(1) =~= ds);
    if c.row < 10 {
        lemma_leading_zero(row_digits(n));
        assert(ds[0] == '0');
        assert forall|i: int| 0 <= i < ds.len() implies is_digit(#[trigger] ds[i]) by {
            if i >= 1 {
                assert(ds[i] == row_digits(n)[i - 1]);
            }
        }
    }
    assert(digits_val(ds) == n);
}

} // verus!
