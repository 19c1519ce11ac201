//! Fixed-width base-58 numerals: digit sequences and their values.
use vstd::prelude::*;
use vstd::arithmetic::div_mod::{lemma_div_denominator, lemma_fundamental_div_mod, lemma_small_mod, lemma_breakdown, lemma_basic_div, lemma_div_non_zero, lemma_div_basics_2};

verus! {

/// `58` raised to the power `k`.
pub open spec fn pow58(k: nat) -> nat
    decreases k,
{
    if k == 0 {
        1
    } else {
        58 * pow58((k - 1) as nat)
    }
}

/// The `k` lowest base-58 digits of `n`, most significant first.
pub open spec fn base58_digits(n: nat, k: nat) -> Seq<nat>
    decreases k,
{
    if k == 0 {
        seq![]
    } else {
        base58_digits(n / 58, (k - 1) as nat).push(n % 58)
    }
}

/// The number that a sequence of base-58 digits (most significant first) denotes.
pub open spec fn digits_value(ds: Seq<nat>) -> nat
    decreases ds.len(),
{
    if ds.len() == 0 {
        0
    } else {
        digits_value(ds.drop_last()) * 58 + ds.last()
    }
}

/// Every digit of a sequence is below the radix.
pub open spec fn all_digits(ds: Seq<nat>) -> bool {
    forall|i: int| 0 <= i < ds.len() ==> #[trigger] ds[i] < 58
}

pub proof fn lemma_pow58_positive(k: nat)
    ensures
        pow58(k) > 0,
    decreases k,
{
    if k > 0 {
        lemma_pow58_positive((k - 1) as nat);
    }
}

pub proof fn lemma_pow58_monotone(j: nat, k: nat)
    requires
        j <= k,
    ensures
        pow58(j) <= pow58(k),
    decreases k,
{
    if j < k {
        lemma_pow58_monotone(j, (k - 1) as nat);
    }
}

/// The two powers that bound a nine-digit payload.
pub proof fn lemma_pow58_eight_nine()
    ensures
        pow58(8) == 128063081718016,
        pow58(9) == 7427658739644928,
{
    assert(pow58(0) == 1);
    assert(pow58(1) == 58);
    assert(pow58(2) == 3364);
    assert(pow58(3) == 195112);
    assert(pow58(4) == 11316496);
    assert(pow58(5) == 656356768);
    assert(pow58(6) == 38068692544);
    assert(pow58(7) == 2207984167552);
    assert(pow58(8) == 128063081718016);
    assert(pow58(9) == 7427658739644928);
}

/// Dividing by `58^(k+1)` is dividing by `58^k`, then by `58`.
pub proof fn lemma_div_pow58_succ(n: nat, k: nat)
    ensures
        n / pow58(k + 1) == (n / pow58(k)) / 58,
{
    lemma_pow58_positive(k);
    lemma_div_denominator(n as int, pow58(k) as int, 58);
    assert(pow58(k + 1) == pow58(k) * 58);
}

/// A number below `58^k` divided by `58^k` leaves nothing, and a number that
/// leaves nothing is below `58^k`.
pub proof fn lemma_div_pow58_zero(n: nat, k: nat)
    ensures
        n / pow58(k) == 0 <==> n < pow58(k),
{
    lemma_pow58_positive(k);
    if n < pow58(k) {
        lemma_basic_div(n as int, pow58(k) as int);
    } else {
        lemma_div_non_zero(n as int, pow58(k) as int);
    }
}

pub proof fn lemma_base58_digits_len(n: nat, k: nat)
    ensures
        base58_digits(n, k).len() == k,
        all_digits(base58_digits(n, k)),
    decreases k,
{
    if k > 0 {
        lemma_base58_digits_len(n / 58, (k - 1) as nat);
    }
}

/// Adding one more digit puts it in front: the digit of weight `58^k`.
pub proof fn lemma_base58_digits_prepend(n: nat, k: nat)
    ensures
        base58_digits(n, k + 1) == seq![(n / pow58(k)) % 58] + base58_digits(n, k),
    decreases k,
{
    if k == 0 {
        assert(base58_digits(n / 58, 0) =~= seq![]);
        assert(base58_digits(n, 1) =~= seq![n % 58]);
        assert(pow58(0) == 1);
        lemma_div_basics_2(n as int);
        assert(base58_digits(n, 0) =~= seq![]);
        assert(seq![n % 58] + base58_digits(n, 0) =~= seq![n % 58]);
    } else {
        let k1 = (k - 1) as nat;
        lemma_base58_digits_prepend(n / 58, k1);
        lemma_pow58_positive(k1);
        lemma_div_denominator(n as int, 58, pow58(k1) as int);
        assert(pow58(k) == 58 * pow58(k1));
        assert(base58_digits(n, k + 1) =~= seq![(n / pow58(k)) % 58] + base58_digits(n, k));
    }
}

/// The digits denote the number modulo `58^k`.
pub proof fn lemma_digits_value_base58(n: nat, k: nat)
    ensures
        digits_value(base58_digits(n, k)) == n % pow58(k),
    decreases k,
{
    if k == 0 {
        lemma_small_mod(0, 1);
        assert(n % 1 == 0);
    } else {
        let k1 = (k - 1) as nat;
        lemma_digits_value_base58(n / 58, k1);
        lemma_pow58_positive(k1);
        assert(base58_digits(n, k).drop_last() =~= base58_digits(n / 58, k1));
        lemma_breakdown(n as int, 58, pow58(k1) as int);
        assert(pow58(k) == 58 * pow58(k1));
    }
}

/// A sequence of `k` digits denotes a number below `58^k`.
pub proof fn lemma_digits_value_bound(ds: Seq<nat>)
    requires
        all_digits(ds),
    ensures
        digits_value(ds) < pow58(ds.len()),
    decreases ds.len(),
{
    if ds.len() > 0 {
        let init = ds.drop_last();
        assert(all_digits(init)) by {
            assert forall|i: int| 0 <= i < init.len() implies #[trigger] init[i] < 58 by {
                assert(init[i] == ds[i]);
            }
        }
        lemma_digits_value_bound(init);
        let v = digits_value(init) as int;
        let p = pow58(init.len()) as int;
        let d = ds.last() as int;
        assert(ds[ds.len() - 1] < 58);
        assert(v * 58 + d < p * 58) by (nonlinear_arith)
            requires
                v < p,
                0 <= d < 58,
        ;
        assert(pow58(ds.len()) == 58 * pow58(init.len()));
    }
}

} // verus!
