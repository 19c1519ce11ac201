//! Properties that relate encoding and decoding.
use vstd::prelude::*;
use vstd::utf8::is_ascii_chars;
use vstd::arithmetic::div_mod::lemma_small_mod;
use crate::alphabet::{symbol, lemma_digit_of_symbol, lemma_alphabet_distinct_ascii};
use crate::codec::{
    MIN_AID, MAX_AID, mixed, shuffle, prefix_bytes, text_bytes, token_bytes, token_of,
    payload_digits, decode_result, value_result, has_marker, lemma_mixed,
};
use crate::digits::{
    base58_digits, digits_value, all_digits, pow58, lemma_base58_digits_len,
    lemma_digits_value_base58, lemma_pow58_eight_nine,
};
use crate::error::Error;

verus! {

/// The positional permutation undoes itself: applied twice to a
/// twelve-element buffer it gives the buffer back.
pub proof fn lemma_shuffle_involution<T>(s: Seq<T>)
    requires
        s.len() == 12,
    ensures
        shuffle(shuffle(s)) == s,
{
    assert(shuffle(shuffle(s)) =~= s);
}

/// Symbols of digits read back as those digits.
proof fn lemma_payload_of_symbols(ds: Seq<nat>)
    requires
        all_digits(ds),
    ensures
        payload_digits(ds.map_values(|d: nat| symbol(d))) == Ok::<Seq<nat>, u8>(ds),
    decreases ds.len(),
{
    let p = ds.map_values(|d: nat| symbol(d));
    if ds.len() == 0 {
        assert(ds =~= seq![]);
    } else {
        let init = ds.drop_last();
        assert(all_digits(init)) by {
            assert forall|i: int| 0 <= i < init.len() implies #[trigger] init[i] < 58 by {
                assert(init[i] == ds[i]);
            }
        }
        lemma_payload_of_symbols(init);
        assert(p.drop_last() =~= init.map_values(|d: nat| symbol(d)));
        assert(ds[ds.len() - 1] < 58);
        lemma_digit_of_symbol(ds.last());
        assert(ds =~= init.push(ds.last()));
    }
}

/// A token is twelve ASCII characters that begin with `BV1`.
pub proof fn lemma_token_format(aid: u64)
    requires
        MIN_AID <= aid < MAX_AID,
    ensures
        token_of(aid).len() == 12,
        token_of(aid).subrange(0, 3) == seq!['B', 'V', '1'],
        is_ascii_chars(token_of(aid)),
        text_bytes(token_of(aid)) == token_bytes(aid),
{
    let m = mixed(aid) as nat;
    let pre = prefix_bytes() + base58_digits(m, 9).map_values(|d: nat| symbol(d));
    lemma_base58_digits_len(m, 9);
    lemma_alphabet_distinct_ascii();
    let bs = token_bytes(aid);
    assert(bs == shuffle(pre));
    assert forall|i: int| 0 <= i < 12 implies #[trigger] bs[i] < 128 by {
        assert(pre[3] < 128);
        assert(pre[4] < 128);
        assert(pre[7] < 128);
        assert(pre[9] < 128);
        assert(pre[i] < 128);
    }
    let t = token_of(aid);
    assert(t.subrange(0, 3) =~= seq!['B', 'V', '1']);
    assert(text_bytes(t) =~= bs);
}

/// Decoding the token of a valid identifier gives the identifier back.
pub proof fn lemma_round_trip(aid: u64)
    requires
        MIN_AID <= aid < MAX_AID,
    ensures
        decode_result(token_of(aid)) == Ok::<u64, Error>(aid),
{
    let m = mixed(aid) as nat;
    let ds = base58_digits(m, 9);
    let pre = prefix_bytes() + ds.map_values(|d: nat| symbol(d));
    let t = token_of(aid);
    lemma_token_format(aid);
    lemma_mixed(aid);
    lemma_base58_digits_len(m, 9);
    lemma_shuffle_involution(pre);
    assert(has_marker(text_bytes(t)));
    assert(shuffle(text_bytes(t)).subrange(3, 12) =~= ds.map_values(|d: nat| symbol(d)));
    lemma_payload_of_symbols(ds);
    lemma_digits_value_base58(m, 9);
    lemma_pow58_eight_nine();
    lemma_small_mod(m, pow58(9));
    assert(digits_value(ds) == m);
    assert(value_result(m) == Ok::<u64, Error>(aid));
}

/// Distinct valid identifiers have distinct tokens.
pub proof fn lemma_encode_injective(a1: u64, a2: u64)
    requires
        MIN_AID <= a1 < MAX_AID,
        MIN_AID <= a2 < MAX_AID,
        a1 != a2,
    ensures
        token_of(a1) != token_of(a2),
{
    lemma_round_trip(a1);
    lemma_round_trip(a2);
}

/// The marker is read with letter case ignored: a twelve-character ASCII
/// text that begins with any case variant of `bv1` passes the marker check,
/// and decodes as the same text with the marker written `BV1`.
pub proof fn lemma_marker_case_insensitive(t: Seq<char>)
    requires
        t.len() == 12,
        is_ascii_chars(t),
        t[0] == 'b' || t[0] == 'B',
        t[1] == 'v' || t[1] == 'V',
        t[2] == '1',
    ensures
        decode_result(t) != Err::<u64, Error>(Error::BvInvalidPrefix),
        decode_result(t) == decode_result(seq!['B', 'V', '1'] + t.subrange(3, 12)),
{
    let u = seq!['B', 'V', '1'] + t.subrange(3, 12);
    assert(is_ascii_chars(u)) by {
        assert forall|i: int| 0 <= i < u.len() implies '\0' <= #[trigger] u[i] <= '\u{7f}' by {
            if i >= 3 {
                assert(u[i] == t[i]);
            }
        }
    }
    assert(has_marker(text_bytes(t)));
    assert(has_marker(text_bytes(u)));
    assert(shuffle(text_bytes(t)).subrange(3, 12) =~= shuffle(text_bytes(u)).subrange(3, 12));
}

} // verus!
