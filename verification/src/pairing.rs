//! BLS signatures over a stand-in for a pairing-friendly group.
//!
//! A group element is an integer modulo `2^64` and the group operation is
//! addition, in the source groups and in the target group alike.  The
//! pairing is handed in by the caller.

use crate::modular::{seq_sum, sum_words};
use vstd::arithmetic::div_mod::*;
use vstd::prelude::*;

verus! {

/// An element of one of the groups.
pub type GroupElement = u64;

/// The multiple `sk * h` of a group element.
pub open spec fn spec_bls_sign(sk: int, h: int) -> int {
    (sk * h) % 0x1_0000_0000_0000_0000
}

/// `values` holds, place by place, a value of the pairing at the message
/// point and the public key of that place.
pub open spec fn pairs_to<F: Fn(GroupElement, GroupElement) -> GroupElement>(
    pairing: F,
    message_points: Seq<GroupElement>,
    pks: Seq<GroupElement>,
    values: Seq<GroupElement>,
) -> bool {
    values.len() == message_points.len() && forall|i: int|
        0 <= i < values.len() ==> call_ensures(
            pairing,
            (message_points[i], pks[i]),
            #[trigger] values[i],
        )
}

/// Signs the message point `h`: the signature is `sk * h`.
pub fn bls_sign(sk: u64, message_point: GroupElement) -> (sig: GroupElement)
    ensures
        sig == spec_bls_sign(sk as int, message_point as int),
{
    assert(0 <= (sk as int) * (message_point as int) < 0x1_0000_0000_0000_0000_0000_0000_0000_0000)
        by (nonlinear_arith)
        requires
            0 <= sk < 0x1_0000_0000_0000_0000,
            0 <= message_point < 0x1_0000_0000_0000_0000,
    ;
    let wide: u128 = (sk as u128) * (message_point as u128);
    (wide % 0x1_0000_0000_0000_0000u128) as u64
}

/// Compares the two sides of a pairing equation.
pub fn pairing_values_agree(lhs: GroupElement, rhs: GroupElement) -> (ok: bool)
    ensures
        ok == (lhs == rhs),
{
    lhs == rhs
}

/// Checks a signature: `e(sig, g2)` must equal `e(message_point, pk)`.
///
/// The result is the comparison of the two values that the pairing returns.
pub fn bls_verify<F: Fn(GroupElement, GroupElement) -> GroupElement>(
    sig: GroupElement,
    g2: GroupElement,
    message_point: GroupElement,
    pk: GroupElement,
    pairing: F,
) -> (ok: bool)
    requires
        call_requires(pairing, (sig, g2)),
        call_requires(pairing, (message_point, pk)),
    ensures
        exists|lhs: GroupElement, rhs: GroupElement|
            call_ensures(pairing, (sig, g2), lhs) && call_ensures(
                pairing,
                (message_point, pk),
                rhs,
            ) && ok == (lhs == rhs),
{
    let lhs: GroupElement = pairing(sig, g2);
    let rhs: GroupElement = pairing(message_point, pk);
    pairing_values_agree(lhs, rhs)
}

/// Aggregates signatures: their sum in the group.
pub fn bls_aggregate_sigs(sigs: &[GroupElement]) -> (agg: GroupElement)
    ensures
        agg == seq_sum(sigs@) % 0x1_0000_0000_0000_0000,
{
    sum_words(sigs)
}

/// Checks an aggregated signature on messages of their own:
/// `e(agg_sig, g2)` must equal the sum in the target group of the values
/// `e(message_points[i], pks[i])`.
pub fn bls_aggregate_verify<F: Fn(GroupElement, GroupElement) -> GroupElement>(
    agg_sig: GroupElement,
    g2: GroupElement,
    message_points: &[GroupElement],
    pks: &[GroupElement],
    pairing: F,
) -> (ok: bool)
    requires
        message_points.len() == pks.len(),
        call_requires(pairing, (agg_sig, g2)),
        forall|i: int|
            0 <= i < pks.len() ==> call_requires(pairing, (#[trigger] message_points[i], pks[i])),
    ensures
        exists|lhs: GroupElement, values: Seq<GroupElement>|
            call_ensures(pairing, (agg_sig, g2), lhs) && pairs_to(
                pairing,
                message_points@,
                pks@,
                values,
            ) && ok == (lhs == seq_sum(values) % 0x1_0000_0000_0000_0000),
{
    let lhs: GroupElement = pairing(agg_sig, g2);
    let mut values: Vec<GroupElement> = Vec::new();
    let mut i: usize = 0;
    while i < pks.len()
        invariant
            i <= pks.len(),
            message_points.len() == pks.len(),
            values.len() == i,
            forall|j: int|
                0 <= j < pks.len() ==> call_requires(
                    pairing,
                    (#[trigger] message_points[j], pks[j]),
                ),
            forall|j: int|
                0 <= j < i ==> call_ensures(
                    pairing,
                    (message_points[j], pks[j]),
                    #[trigger] values[j],
                ),
        decreases pks.len() - i,
    {
        let v: GroupElement = pairing(message_points[i], pks[i]);
        values.push(v);
        i = i + 1;
    }
    let rhs: GroupElement = sum_words(values.as_slice());
    assert(pairs_to(pairing, message_points@, pks@, values@));
    pairing_values_agree(lhs, rhs)
}

} // verus!
