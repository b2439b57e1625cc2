//! The guest's side of an advice-backed field op: the inline hands back an
//! untrusted result, which the guest checks and welds to its record block.
//!
//! Division by zero spoils the proof before anything is welded, a
//! non-canonical result spoils it too, and the op's words are then welded in
//! verified-identity order (Mul: (a, b, c); Square: (a, a, c); Div:
//! (c, b, a)). An accepted op whose record satisfies `x*y = w*q + z` is
//! exactly the field operation.

use crate::bind::{weld_spec, WeldBinder, WeldState};
use crate::limbs::val4;
use crate::record::{satisfies_identity, FieldOpRecord};
use crate::sdk::{is_fq_non_canonical, lemma_modulus_value, q_nat, Fq, MODULUS};
use crate::sequence_builder::{normalize_spec, op_result, EdBlsOp};
use vstd::prelude::*;

verus! {

/// The weld state after the guest's checks on one op: spoiled by a zero
/// divisor (Div) or by a result that is not below q, then the op's
/// normalized words welded against the current block.
pub open spec fn accept_spec(s: WeldState, op: EdBlsOp, a: [u64; 4], b: [u64; 4], advice: [u64; 4]) -> WeldState {
    let bad = (op == EdBlsOp::DivQ && val4(b) == 0) || val4(advice) >= q_nat();
    let words = normalize_spec(op, a, b, advice);
    weld_spec((s.0, s.1, s.2 || bad), words.0, words.1, words.2)
}

/// Check and weld the advice result of one op on operands `a` and `b`. The
/// result comes back as a field element when it is canonical; otherwise the
/// proof is spoiled and there is no element to return.
pub fn accept_advice(op: EdBlsOp, a: &Fq, b: &Fq, advice: [u64; 4], binder: &mut WeldBinder) -> (r: Option<Fq>)
    requires
        old(binder)@.1 + 128 <= usize::MAX,
    ensures
        final(binder)@ == accept_spec(old(binder)@, op, a.limbs(), b.limbs(), advice),
        r is Some <==> val4(advice) < q_nat(),
        r matches Some(c) ==> c.limbs() == advice && c@ == val4(advice),
{
    let al = a.to_canonical();
    let bl = b.to_canonical();
    if matches!(op, EdBlsOp::DivQ) && b.is_zero() {
        binder.spoil();
    }
    let non_canonical = is_fq_non_canonical(&advice);
    if non_canonical {
        binder.spoil();
    }
    match op {
        EdBlsOp::MulQ => binder.weld(&al, &bl, &advice),
        EdBlsOp::SquareQ => binder.weld(&al, &al, &advice),
        EdBlsOp::DivQ => binder.weld(&advice, &bl, &al),
    }
    if non_canonical {
        None
    } else {
        Some(Fq::from_canonical(advice))
    }
}

/// An accepted op is the field operation: when the operands and the advice
/// are canonical and the words the op welds, with some quotient `w`, satisfy
/// the record identity `x*y = w*q + z`, the advice is the op's result.
pub proof fn lemma_accepted_advice_is_the_result(
    op: EdBlsOp,
    a: [u64; 4],
    b: [u64; 4],
    advice: [u64; 4],
    w: [u64; 4],
)
    requires
        val4(a) < q_nat(),
        val4(b) < q_nat(),
        val4(advice) < q_nat(),
        satisfies_identity(
            (FieldOpRecord {
                x: normalize_spec(op, a, b, advice).0,
                y: normalize_spec(op, a, b, advice).1,
                z: normalize_spec(op, a, b, advice).2,
                w,
            }),
            MODULUS,
        ),
    ensures
        op_result(op, val4(a), val4(b), val4(advice)),
{
    lemma_modulus_value();
    let words = normalize_spec(op, a, b, advice);
    let p = val4(words.0) * val4(words.1);
    vstd::arithmetic::div_mod::lemma_fundamental_div_mod_converse(
        p as int,
        q_nat() as int,
        val4(w) as int,
        val4(words.2) as int,
    );
}

/// The guest's checks spoil only a division by zero or a non-canonical
/// result: a product or square with a canonical result is welded as it is,
/// whatever the operands (a zero factor included), and so is a division
/// with a nonzero divisor and a canonical result.
pub proof fn lemma_only_zero_division_or_non_canonical_spoils(
    s: WeldState,
    op: EdBlsOp,
    a: [u64; 4],
    b: [u64; 4],
    advice: [u64; 4],
)
    requires
        val4(advice) < q_nat(),
        op == EdBlsOp::DivQ ==> val4(b) != 0,
    ensures
        accept_spec(s, op, a, b, advice) == weld_spec(
            s,
            normalize_spec(op, a, b, advice).0,
            normalize_spec(op, a, b, advice).1,
            normalize_spec(op, a, b, advice).2,
        ),
{
}

/// An honest op never spoils on its own: when the advice is the op's field
/// result on canonical operands (and a division has a nonzero divisor), the
/// guest only welds the op's words.
pub proof fn lemma_honest_advice_is_only_welded(s: WeldState, op: EdBlsOp, a: [u64; 4], b: [u64; 4], advice: [u64; 4])
    requires
        val4(a) < q_nat(),
        val4(b) < q_nat(),
        op_result(op, val4(a), val4(b), val4(advice)),
        op == EdBlsOp::DivQ ==> val4(b) != 0,
    ensures
        accept_spec(s, op, a, b, advice) == weld_spec(
            s,
            normalize_spec(op, a, b, advice).0,
            normalize_spec(op, a, b, advice).1,
            normalize_spec(op, a, b, advice).2,
        ),
{
    lemma_only_zero_division_or_non_canonical_spoils(s, op, a, b, advice);
}

} // verus!
