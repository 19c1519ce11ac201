//! The base-58 numeral alphabet of the token payload and its inverse.
use vstd::prelude::*;

verus! {

/// Number of symbols in the alphabet, the radix of the payload.
pub const BASE: u64 = 58;

/// Digit value to symbol.
pub const ALPHABET: [u8; 58] = [
    'F' as u8, 'c' as u8, 'w' as u8, 'A' as u8, 'P' as u8, 'N' as u8, 'K' as u8, 'T' as u8,
    'M' as u8, 'u' as u8, 'g' as u8, '3' as u8, 'G' as u8, 'V' as u8, '5' as u8, 'L' as u8,
    'j' as u8, '7' as u8, 'E' as u8, 'J' as u8, 'n' as u8, 'H' as u8, 'p' as u8, 'W' as u8,
    's' as u8, 'x' as u8, '4' as u8, 't' as u8, 'b' as u8, '8' as u8, 'h' as u8, 'a' as u8,
    'Y' as u8, 'e' as u8, 'v' as u8, 'i' as u8, 'q' as u8, 'B' as u8, 'z' as u8, '6' as u8,
    'r' as u8, 'k' as u8, 'C' as u8, 'y' as u8, '1' as u8, '2' as u8, 'm' as u8, 'U' as u8,
    'S' as u8, 'D' as u8, 'Q' as u8, 'X' as u8, '9' as u8, 'R' as u8, 'd' as u8, 'o' as u8,
    'Z' as u8, 'f' as u8,
];

/// The symbol that stands for digit `d`.
pub open spec fn symbol(d: nat) -> u8 {
    ALPHABET@[d as int]
}

/// Whether byte `c` is one of the alphabet's symbols.
pub open spec fn is_symbol(c: u8) -> bool {
    ALPHABET@.contains(c)
}

/// The digit value of symbol `c` (meaningful only where `is_symbol(c)`).
pub open spec fn digit_of(c: u8) -> nat {
    ALPHABET@.index_of(c) as nat
}

/// No symbol stands for two digits, and every symbol is an ASCII character.
pub proof fn lemma_alphabet_distinct_ascii()
    ensures
        forall|i: int, j: int|
            0 <= i < 58 && 0 <= j < 58 && i != j ==> #[trigger] ALPHABET@[i] != #[trigger] ALPHABET@[j],
        forall|i: int| 0 <= i < 58 ==> #[trigger] ALPHABET@[i] < 128,
        ALPHABET@.len() == 58,
{
}

/// Each digit below the radix is recovered from its symbol.
pub proof fn lemma_digit_of_symbol(d: nat)
    requires
        d < 58,
    ensures
        is_symbol(symbol(d)),
        digit_of(symbol(d)) == d,
{
    lemma_alphabet_distinct_ascii();
    assert(ALPHABET@[d as int] == symbol(d));
}

/// Looks up the digit value of a payload byte.
pub fn rev(value: u8) -> (r: Option<u8>)
    ensures
        match r {
            Some(d) => d < 58 && ALPHABET@[d as int] == value,
            None => !is_symbol(value),
        },
        r is Some <==> is_symbol(value),
        is_symbol(value) ==> r == Some(digit_of(value) as u8),
{
    proof {
        lemma_alphabet_distinct_ascii();
    }
    let r = match value as char {
        'F' => Some(0),
        'c' => Some(1),
        'w' => Some(2),
        'A' => Some(3),
        'P' => Some(4),
        'N' => Some(5),
        'K' => Some(6),
        'T' => Some(7),
        'M' => Some(8),
        'u' => Some(9),
        'g' => Some(10),
        '3' => Some(11),
        'G' => Some(12),
        'V' => Some(13),
        '5' => Some(14),
        'L' => Some(15),
        'j' => Some(16),
        '7' => Some(17),
        'E' => Some(18),
        'J' => Some(19),
        'n' => Some(20),
        'H' => Some(21),
        'p' => Some(22),
        'W' => Some(23),
        's' => Some(24),
        'x' => Some(25),
        '4' => Some(26),
        't' => Some(27),
        'b' => Some(28),
        '8' => Some(29),
        'h' => Some(30),
        'a' => Some(31),
        'Y' => Some(32),
        'e' => Some(33),
        'v' => Some(34),
        'i' => Some(35),
        'q' => Some(36),
        'B' => Some(37),
        'z' => Some(38),
        '6' => Some(39),
        'r' => Some(40),
        'k' => Some(41),
        'C' => Some(42),
        'y' => Some(43),
        '1' => Some(44),
        '2' => Some(45),
        'm' => Some(46),
        'U' => Some(47),
        'S' => Some(48),
        'D' => Some(49),
        'Q' => Some(50),
        'X' => Some(51),
        '9' => Some(52),
        'R' => Some(53),
        'd' => Some(54),
        'o' => Some(55),
        'Z' => Some(56),
        'f' => Some(57),
        _ => None,
    };
    proof {
        if let Some(d) = r {
            assert(ALPHABET@[d as int] == value);
        }
    }
    r
}

} // verus!
