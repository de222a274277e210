//! The base32 alphabet "0123456789ABCDEFGHJKMNPQRSTVWXYZ": digit values 0 to 31
//! and their symbols, in the same order.
use vstd::prelude::*;

use crate::error::UlidError;

verus! {

/// Number of symbols in the alphabet.
pub const ENCODING_LEN: u64 = 32;

/// Value of the largest digit.
pub const MAX_DIGIT: u8 = 31;

/// Code point of the symbol for digit `d` (0 to 31). The alphabet skips I, L, O and U.
pub open spec fn symbol_code(d: int) -> int {
    if d < 10 {
        48 + d
    } else if d < 18 {
        55 + d
    } else if d < 20 {
        56 + d
    } else if d < 22 {
        57 + d
    } else if d < 27 {
        58 + d
    } else {
        59 + d
    }
}

/// The symbol for digit `d` (0 to 31).
pub open spec fn symbol(d: int) -> char {
    symbol_code(d) as char
}

/// Whether `c` is one of the 32 symbols.
pub open spec fn is_symbol(c: char) -> bool {
    let x = c as u32;
    (48 <= x <= 57) || (65 <= x <= 72) || (74 <= x <= 75) || (77 <= x <= 78) || (80 <= x
        <= 84) || (86 <= x <= 90)
}

/// The digit value of the symbol `c`.
pub open spec fn digit(c: char) -> int {
    let x = c as u32;
    if x <= 57 {
        x - 48
    } else if x <= 72 {
        x - 55
    } else if x <= 75 {
        x - 56
    } else if x <= 78 {
        x - 57
    } else if x <= 84 {
        x - 58
    } else {
        x - 59
    }
}

/// Every character of `s` is a symbol of the alphabet.
pub open spec fn all_symbols(s: Seq<char>) -> bool {
    forall|i: int| 0 <= i < s.len() ==> #[trigger] is_symbol(s[i])
}

/// Symbols and digits correspond one to one.
pub proof fn lemma_symbol_digit(d: int)
    requires
        0 <= d < 32,
    ensures
        is_symbol(symbol(d)),
        digit(symbol(d)) == d,
        symbol(d) as u32 == symbol_code(d),
{
}

/// A symbol is the symbol of its own digit.
pub proof fn lemma_digit_symbol(c: char)
    requires
        is_symbol(c),
    ensures
        0 <= digit(c) < 32,
        symbol(digit(c)) == c,
{
}

/// The order of the symbols' code points is the order of their digits.
pub proof fn lemma_symbol_order(d: int, e: int)
    requires
        0 <= d < e < 32,
    ensures
        (symbol(d) as u32) < (symbol(e) as u32),
{
    lemma_symbol_digit(d);
    lemma_symbol_digit(e);
}

/// The symbol for digit `index`.
pub fn symbol_at(index: u8) -> (c: char)
    requires
        index < 32,
    ensures
        c == symbol(index as int),
{
    proof {
        lemma_symbol_digit(index as int);
    }
    let code: u8 = if index < 10 {
        48 + index
    } else if index < 18 {
        55 + index
    } else if index < 20 {
        56 + index
    } else if index < 22 {
        57 + index
    } else if index < 27 {
        58 + index
    } else {
        59 + index
    };
    code as char
}

/// The digit value of the symbol `c`, or `InvalidCharacter(c)` where `c` is no symbol.
pub fn index_of(c: char) -> (r: Result<u8, UlidError>)
    ensures
        is_symbol(c) ==> r == Ok::<u8, UlidError>(digit(c) as u8),
        !is_symbol(c) ==> r == Err::<u8, UlidError>(UlidError::InvalidCharacter(c)),
        r matches Ok(d) ==> d < 32,
{
    let x: u32 = c as u32;
    if 48 <= x && x <= 57 {
        Ok((x - 48) as u8)
    } else if 65 <= x && x <= 72 {
        Ok((x - 55) as u8)
    } else if 74 <= x && x <= 75 {
        Ok((x - 56) as u8)
    } else if 77 <= x && x <= 78 {
        Ok((x - 57) as u8)
    } else if 80 <= x && x <= 84 {
        Ok((x - 58) as u8)
    } else if 86 <= x && x <= 90 {
        Ok((x - 59) as u8)
    } else {
        Err(UlidError::InvalidCharacter(c))
    }
}

} // verus!
