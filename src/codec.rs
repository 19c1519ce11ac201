//! Encoding numeric identifiers as tokens, and decoding tokens back.
use vstd::prelude::*;
use vstd::arithmetic::div_mod::lemma_div_basics_2;
use vstd::slice::slice_to_vec;
use vstd::std_specs::bits::{u64_leading_zeros, axiom_u64_leading_zeros};
use vstd::string::is_ascii_spec_bytes;
use vstd::utf8::is_ascii_chars;
use crate::alphabet::{
    ALPHABET, BASE, symbol, is_symbol, digit_of, rev, lemma_alphabet_distinct_ascii,
};
use crate::digits::{
    pow58, base58_digits, digits_value, all_digits, lemma_pow58_eight_nine, lemma_div_pow58_zero,
    lemma_pow58_monotone, lemma_div_pow58_succ, lemma_base58_digits_prepend,
    lemma_base58_digits_len, lemma_digits_value_bound,
};
use crate::error::Error;
use crate::laws::lemma_token_format;

verus! {

/// Mixing constant applied in both directions.
pub const XOR_CODE: u64 = 23442827791579;
/// The low 51 bits.
pub const MASK_CODE: u64 = 2251799813685247;

/// Exclusive upper bound of valid numeric identifiers, `2^51`.
pub const MAX_AID: u64 = 0x8_0000_0000_0000;
/// Smallest valid numeric identifier.
pub const MIN_AID: u64 = 1;

/// Length of a token in bytes.
const BV_LEN: usize = 12;

/// The number that is expanded into the payload: bit 51 set, then mixed.
pub open spec fn mixed(aid: u64) -> u64 {
    (MAX_AID | aid) ^ XOR_CODE
}

/// The fixed positional permutation of a token: positions 3 and 9 trade
/// places, then positions 4 and 7.
pub open spec fn shuffle<T>(s: Seq<T>) -> Seq<T> {
    let s1 = s.update(3, s[9]).update(9, s[3]);
    s1.update(4, s1[7]).update(7, s1[4])
}

/// The marker that begins every token.
pub open spec fn prefix_bytes() -> Seq<u8> {
    seq!['B' as u8, 'V' as u8, '1' as u8]
}

/// Bytes read as characters of the same code.
pub open spec fn ascii_chars(bs: Seq<u8>) -> Seq<char> {
    bs.map_values(|b: u8| b as char)
}

/// The bytes of the token of `aid`: the marker, then the nine base-58 digits
/// of `mixed(aid)` as symbols, most significant first, then shuffled.
pub open spec fn token_bytes(aid: u64) -> Seq<u8> {
    shuffle(prefix_bytes() + base58_digits(mixed(aid) as nat, 9).map_values(|d: nat| symbol(d)))
}

/// The token of `aid` as text.
pub open spec fn token_of(aid: u64) -> Seq<char> {
    ascii_chars(token_bytes(aid))
}

/// Characters read as bytes.
pub open spec fn text_bytes(t: Seq<char>) -> Seq<u8> {
    t.map_values(|c: char| c as u8)
}

/// An ASCII byte with upper-case letters folded onto lower case.
pub open spec fn fold_case(b: u8) -> u8 {
    if 'A' as u8 <= b && b <= 'Z' as u8 {
        (b + 32) as u8
    } else {
        b
    }
}

/// Whether bytes begin with the marker `BV1`, letter case ignored.
pub open spec fn has_marker(bs: Seq<u8>) -> bool {
    &&& bs.len() >= 3
    &&& fold_case(bs[0]) == fold_case('B' as u8)
    &&& fold_case(bs[1]) == fold_case('V' as u8)
    &&& fold_case(bs[2]) == fold_case('1' as u8)
}

/// The digits of payload symbols read left to right, or the first byte that
/// is no symbol.
pub open spec fn payload_digits(p: Seq<u8>) -> Result<Seq<nat>, u8>
    decreases p.len(),
{
    if p.len() == 0 {
        Ok(seq![])
    } else {
        match payload_digits(p.drop_last()) {
            Err(c) => Err(c),
            Ok(ds) => if is_symbol(p.last()) {
                Ok(ds.push(digit_of(p.last())))
            } else {
                Err(p.last())
            },
        }
    }
}

/// `2^52`: payload values from here on are too large.
pub open spec fn payload_limit() -> nat {
    0x10_0000_0000_0000
}

/// The outcome of decoding a payload of value `v`.
pub open spec fn value_result(v: nat) -> Result<u64, Error> {
    if v >= payload_limit() {
        Err(Error::BvTooBig)
    } else if v < MAX_AID {
        Err(Error::BvTooSmall)
    } else if (v as u64 & MASK_CODE) ^ XOR_CODE < MIN_AID {
        Err(Error::BvTooSmall)
    } else {
        Ok((v as u64 & MASK_CODE) ^ XOR_CODE)
    }
}

/// The outcome of decoding text `t`, checked in this order: empty, not
/// ASCII, length other than twelve, marker, payload symbols, payload value.
pub open spec fn decode_result(t: Seq<char>) -> Result<u64, Error> {
    if t.len() == 0 {
        Err(Error::BvEmpty)
    } else if !is_ascii_chars(t) {
        Err(Error::BvWithUnicode)
    } else if t.len() < 12 {
        Err(Error::BvTooSmall)
    } else if t.len() > 12 {
        Err(Error::BvTooBig)
    } else if !has_marker(text_bytes(t)) {
        Err(Error::BvInvalidPrefix)
    } else {
        match payload_digits(shuffle(text_bytes(t)).subrange(3, 12)) {
            Err(c) => Err(Error::BvInvalidChar(c as char)),
            Ok(ds) => value_result(digits_value(ds)),
        }
    }
}

/// Once a byte that is no symbol is met, the outcome stays that byte.
proof fn lemma_payload_err_extends(p: Seq<u8>, j: int, c: u8)
    requires
        0 <= j <= p.len(),
        payload_digits(p.subrange(0, j)) == Err::<Seq<nat>, u8>(c),
    ensures
        payload_digits(p) == Err::<Seq<nat>, u8>(c),
    decreases p.len() - j,
{
    if j < p.len() {
        assert(p.subrange(0, j + 1).drop_last() =~= p.subrange(0, j));
        lemma_payload_err_extends(p, j + 1, c);
    } else {
        assert(p.subrange(0, j) =~= p);
    }
}

/// How the bit length `64 - leading_zeros` of a nonzero value compares with 52.
proof fn lemma_bit_length(x: u64)
    requires
        x != 0,
    ensures
        64 - u64_leading_zeros(x) > 52 <==> x >= 0x10_0000_0000_0000,
        64 - u64_leading_zeros(x) < 52 <==> x < 0x8_0000_0000_0000,
{
    axiom_u64_leading_zeros(x);
    let lz = u64_leading_zeros(x);
    let top = (63 - lz) as u64;
    let above = (64 - lz) as u64;
    assert((x >> top) & 1u64 != 0u64);
    assert(x >> above == 0);
    assert(top >= 52 && (x >> top) & 1u64 != 0u64 ==> x >= 0x10_0000_0000_0000u64) by (bit_vector);
    assert(above <= 52 && x >> above == 0u64 ==> x < 0x10_0000_0000_0000u64) by (bit_vector);
    assert(top >= 51 && (x >> top) & 1u64 != 0u64 ==> x >= 0x8_0000_0000_0000u64) by (bit_vector);
    assert(above <= 51 && x >> above == 0u64 ==> x < 0x8_0000_0000_0000u64) by (bit_vector);
}

/// For a valid identifier, the mixed value has exactly bit 51 as its top bit,
/// and masking and mixing it again gives the identifier back.
pub proof fn lemma_mixed(aid: u64)
    requires
        MIN_AID <= aid < MAX_AID,
    ensures
        MAX_AID <= mixed(aid) < 0x10_0000_0000_0000,
        (mixed(aid) & MASK_CODE) ^ XOR_CODE == aid,
{
    assert(MAX_AID == 0x8_0000_0000_0000u64) by (bit_vector);
    assert(aid < 0x8_0000_0000_0000u64 ==> 0x8_0000_0000_0000u64 <= (0x8_0000_0000_0000u64 | aid)
        ^ 23442827791579u64 < 0x10_0000_0000_0000u64) by (bit_vector);
    assert(aid < 0x8_0000_0000_0000u64 ==> (((0x8_0000_0000_0000u64 | aid) ^ 23442827791579u64)
        & 2251799813685247u64) ^ 23442827791579u64 == aid) by (bit_vector);
}

/// Relies on `String::from_utf8`: a vector of ASCII bytes is valid UTF-8,
/// and each byte becomes the character of the same code.
#[verifier::external_body]
fn ascii_string(bytes: Vec<u8>) -> (r: String)
    requires
        forall|i: int| 0 <= i < bytes@.len() ==> #[trigger] bytes@[i] < 128,
    ensures
        r@ == ascii_chars(bytes@),
{
    String::from_utf8(bytes).unwrap()
}

/// Exchanges two elements of a buffer.
fn swap_bytes(array: &mut Vec<u8>, index_a: usize, index_b: usize)
    requires
        index_a < old(array)@.len(),
        index_b < old(array)@.len(),
    ensures
        final(array)@ == old(array)@.update(index_a as int, old(array)@[index_b as int]).update(
            index_b as int,
            old(array)@[index_a as int],
        ),
{
    let a = array[index_a];
    let b = array[index_b];
    array.set(index_a, b);
    array.set(index_b, a);
}

/// Applies the positional permutation of tokens to a twelve-byte buffer.
fn shuffle_bytes(bytes: &mut Vec<u8>)
    requires
        old(bytes)@.len() == 12,
    ensures
        final(bytes)@ == shuffle(old(bytes)@),
{
    swap_bytes(bytes, 3, 9);
    swap_bytes(bytes, 4, 7);
}

/// Encodes a numeric identifier as its token.
pub fn av2bv(avid: u64) -> (r: Result<String, Error>)
    ensures
        avid < MIN_AID ==> r == Err::<String, Error>(Error::AvTooSmall(avid)),
        avid >= MAX_AID ==> r == Err::<String, Error>(Error::AvTooBig(avid)),
        MIN_AID <= avid < MAX_AID ==> r is Ok && r->Ok_0@ == token_of(avid),
        r is Ok ==> r->Ok_0@.len() == 12 && r->Ok_0@.subrange(0, 3) == seq!['B', 'V', '1'],
{
    if avid < MIN_AID {
        return Err(Error::AvTooSmall(avid));
    }
    if avid >= MAX_AID {
        return Err(Error::AvTooBig(avid));
    }
    let mut bytes: Vec<u8> = vec![
        'B' as u8, 'V' as u8, '1' as u8, '0' as u8, '0' as u8, '0' as u8, '0' as u8, '0' as u8,
        '0' as u8, '0' as u8, '0' as u8, '0' as u8,
    ];
    let mut bv_idx: usize = BV_LEN - 1;
    let mut tmp: u64 = (MAX_AID | avid) ^ XOR_CODE;
    let ghost m: nat = tmp as nat;
    proof {
        lemma_mixed(avid);
        lemma_pow58_eight_nine();
        lemma_alphabet_distinct_ascii();
        assert(bytes@.subrange(0, 3) =~= prefix_bytes());
        assert(pow58(0) == 1);
        lemma_div_basics_2(m as int);
        assert(bytes@.subrange(12, 12) =~= base58_digits(m, 0).map_values(|d: nat| symbol(d)));
    }
    while tmp != 0
        invariant
            2 <= bv_idx <= 11,
            bytes@.len() == 12,
            tmp as nat == m / pow58((11 - bv_idx) as nat),
            pow58(8) < m < pow58(9),
            bytes@.subrange(0, 3) == prefix_bytes(),
            bytes@.subrange(bv_idx + 1, 12) == base58_digits(m, (11 - bv_idx) as nat).map_values(
                |d: nat| symbol(d),
            ),
        decreases tmp,
    {
        let ghost k = (11 - bv_idx) as nat;
        let ghost done = bytes@.subrange(bv_idx + 1, 12);
        proof {
            lemma_div_pow58_zero(m, k);
            if k >= 9 {
                lemma_pow58_monotone(9, k);
            }
            lemma_div_pow58_succ(m, k);
            lemma_base58_digits_prepend(m, k);
        }
        let table_idx = tmp % BASE;
        bytes.set(bv_idx, ALPHABET[table_idx as usize]);
        tmp = tmp / BASE;
        bv_idx = bv_idx - 1;
        proof {
            assert(bytes@.subrange(0, 3) =~= prefix_bytes());
            assert(bytes@.subrange(bv_idx + 1, 12) =~= seq![symbol(table_idx as nat)] + done);
            assert(bytes@.subrange(bv_idx + 1, 12) =~= base58_digits(m, k + 1).map_values(
                |d: nat| symbol(d),
            ));
        }
    }
    proof {
        let k = (11 - bv_idx) as nat;
        lemma_div_pow58_zero(m, k);
        if k <= 8 {
            lemma_pow58_monotone(k, 8);
        }
        assert(bytes@ =~= prefix_bytes() + base58_digits(m, 9).map_values(|d: nat| symbol(d)));
    }
    shuffle_bytes(&mut bytes);
    proof {
        lemma_base58_digits_len(m, 9);
        assert forall|i: int| 0 <= i < bytes@.len() implies #[trigger] bytes@[i] < 128 by {
            let pre = prefix_bytes() + base58_digits(m, 9).map_values(|d: nat| symbol(d));
            assert(pre[3] < 128);
            assert(pre[4] < 128);
            assert(pre[7] < 128);
            assert(pre[9] < 128);
            assert(pre[i] < 128);
        }
        lemma_token_format(avid);
    }
    Ok(ascii_string(bytes))
}

/// Reads the nine payload digits of a shuffled token buffer, left to right.
fn payload_value(bytes: &Vec<u8>) -> (r: Result<u64, u8>)
    requires
        bytes@.len() == 12,
    ensures
        match payload_digits(bytes@.subrange(3, 12)) {
            Err(c) => r == Err::<u64, u8>(c),
            Ok(ds) => r == Ok::<u64, u8>(digits_value(ds) as u64) && digits_value(ds) < pow58(9),
        },
{
    let mut tmp: u64 = 0;
    let mut i: usize = 3;
    let ghost mut ds: Seq<nat> = seq![];
    proof {
        lemma_pow58_eight_nine();
        assert(bytes@.subrange(3, 3) =~= Seq::<u8>::empty());
    }
    while i < BV_LEN
        invariant
            3 <= i <= 12,
            bytes@.len() == 12,
            payload_digits(bytes@.subrange(3, i as int)) == Ok::<Seq<nat>, u8>(ds),
            ds.len() == i - 3,
            all_digits(ds),
            tmp as nat == digits_value(ds),
            pow58(9) == 7427658739644928,
        decreases 12 - i,
    {
        let byte = bytes[i];
        proof {
            assert(bytes@.subrange(3, i + 1).drop_last() =~= bytes@.subrange(3, i as int));
        }
        match rev(byte) {
            None => {
                proof {
                    let p = bytes@.subrange(3, 12);
                    assert(p.subrange(0, i - 2) =~= bytes@.subrange(3, i + 1));
                    lemma_payload_err_extends(p, i - 2, byte);
                }
                return Err(byte);
            },
            Some(idx) => {
                proof {
                    lemma_digits_value_bound(ds);
                    lemma_pow58_monotone(ds.len(), 8);
                }
                tmp = tmp * BASE + idx as u64;
                proof {
                    let ds2 = ds.push(idx as nat);
                    assert(ds2.drop_last() =~= ds);
                    assert forall|j: int| 0 <= j < ds2.len() implies #[trigger] ds2[j] < 58 by {
                        if j < ds.len() {
                            assert(ds2[j] == ds[j]);
                        }
                    }
                    ds = ds2;
                }
            },
        }
        i = i + 1;
    }
    proof {
        lemma_digits_value_bound(ds);
    }
    Ok(tmp)
}

/// Decodes a token to the numeric identifier it stands for.
pub fn bv2av(bvid: &str) -> (r: Result<u64, Error>)
    ensures
        r == decode_result(bvid@),
{
    if bvid.is_empty() {
        return Err(Error::BvEmpty);
    }
    if !bvid.is_ascii() {
        return Err(Error::BvWithUnicode);
    }
    proof {
        is_ascii_spec_bytes(bvid);
        lemma_pow58_eight_nine();
    }
    let raw = bvid.as_bytes();
    let len = raw.len();
    if len < BV_LEN {
        return Err(Error::BvTooSmall);
    }
    if len > BV_LEN {
        return Err(Error::BvTooBig);
    }
    let mut bytes = slice_to_vec(raw);
    assert(bytes@ =~= text_bytes(bvid@));
    if !(ascii_eq_ignore_case(bytes[0], 'B' as u8) && ascii_eq_ignore_case(bytes[1], 'V' as u8)
        && ascii_eq_ignore_case(bytes[2], '1' as u8)) {
        return Err(Error::BvInvalidPrefix);
    }
    shuffle_bytes(&mut bytes);
    let tmp = match payload_value(&bytes) {
        Err(c) => {
            return Err(Error::BvInvalidChar(c as char));
        },
        Ok(v) => v,
    };
    let bin_len: u32 = if tmp == 0 {
        0
    } else {
        64 - tmp.leading_zeros()
    };
    proof {
        if tmp != 0 {
            lemma_bit_length(tmp);
        }
    }
    if bin_len > 52 {
        return Err(Error::BvTooBig);
    }
    if bin_len < 52 {
        return Err(Error::BvTooSmall);
    }
    let avid = (tmp & MASK_CODE) ^ XOR_CODE;
    if avid < MIN_AID {
        return Err(Error::BvTooSmall);
    }
    Ok(avid)
}

/// Compares two bytes with ASCII letter case ignored.
fn ascii_eq_ignore_case(a: u8, b: u8) -> (r: bool)
    ensures
        r == (fold_case(a) == fold_case(b)),
{
    let la = if 'A' as u8 <= a && a <= 'Z' as u8 {
        a + 32
    } else {
        a
    };
    let lb = if 'A' as u8 <= b && b <= 'Z' as u8 {
        b + 32
    } else {
        b
    };
    la == lb
}

} // verus!
