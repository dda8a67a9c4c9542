//! Elements of the Pallas base and scalar fields in their `32`-byte little-endian form.
use darkfi_serial::Decodable;
use pasta_curves::group::ff::PrimeField;
use pasta_curves::pallas;
use vstd::prelude::*;

verus! {

/// The number a little-endian byte string stands for.
pub open spec fn le_value(bytes: Seq<u8>) -> nat
    decreases bytes.len(),
{
    if bytes.len() == 0 {
        0
    } else {
        bytes[0] as nat + 256 * le_value(bytes.skip(1))
    }
}

/// The order of the Pallas base field.
pub open spec fn base_modulus() -> nat {
    0x40000000000000000000000000000000224698fc094cf91b992d30ed00000001nat
}

/// The order of the Pallas scalar field.
pub open spec fn scalar_modulus() -> nat {
    0x40000000000000000000000000000000224698fc0994a8dd8c46eb2100000001nat
}

/// `bytes` is the canonical form of a base field element.
pub open spec fn is_base(bytes: Seq<u8>) -> bool {
    bytes.len() == 32 && le_value(bytes) < base_modulus()
}

/// `bytes` is the canonical form of a scalar field element.
pub open spec fn is_scalar(bytes: Seq<u8>) -> bool {
    bytes.len() == 32 && le_value(bytes) < scalar_modulus()
}

/// Calls `pallas::Base::decode`, which accepts `32` bytes exactly where they stand for a number
/// below the field's order.
#[verifier::external_body]
pub(crate) fn decodes_as_base(bytes: &[u8; 32]) -> (ok: bool)
    ensures
        ok == is_base(bytes@),
{
    pallas::Base::decode(&mut std::io::Cursor::new(*bytes)).is_ok()
}

/// Calls `pallas::Scalar::decode`, which accepts `32` bytes exactly where they stand for a number
/// below the field's order.
#[verifier::external_body]
pub(crate) fn decodes_as_scalar(bytes: &[u8; 32]) -> (ok: bool)
    ensures
        ok == is_scalar(bytes@),
{
    pallas::Scalar::decode(&mut std::io::Cursor::new(*bytes)).is_ok()
}

/// Calls the addition of `pallas::Scalar`, which adds modulo the field's order.
#[verifier::external_body]
pub(crate) fn scalar_add(a: &[u8; 32], b: &[u8; 32]) -> (sum: [u8; 32])
    requires
        is_scalar(a@),
        is_scalar(b@),
    ensures
        is_scalar(sum@),
        le_value(sum@) == (le_value(a@) + le_value(b@)) % scalar_modulus(),
{
    let x = pallas::Scalar::from_repr(*a).unwrap();
    let y = pallas::Scalar::from_repr(*b).unwrap();
    (x + y).to_repr()
}

/// Calls the subtraction of `pallas::Scalar`, which subtracts modulo the field's order.
#[verifier::external_body]
pub(crate) fn scalar_sub(a: &[u8; 32], b: &[u8; 32]) -> (difference: [u8; 32])
    requires
        is_scalar(a@),
        is_scalar(b@),
    ensures
        is_scalar(difference@),
        le_value(difference@) as int == (le_value(a@) - le_value(b@)) % (scalar_modulus() as int),
{
    let x = pallas::Scalar::from_repr(*a).unwrap();
    let y = pallas::Scalar::from_repr(*b).unwrap();
    (x - y).to_repr()
}

/// A little-endian number counts each byte with its power of `256`.
pub proof fn law_little_endian(bytes: Seq<u8>, b: u8)
    ensures
        le_value(Seq::empty()) == 0,
        le_value(seq![b] + bytes) == b + 256 * le_value(bytes),
        le_value(bytes.push(b)) == le_value(bytes) + b * vstd::arithmetic::power::pow(
            256,
            bytes.len(),
        ),
    decreases bytes.len(),
{
    reveal(vstd::arithmetic::power::pow);
    assert((seq![b] + bytes).skip(1) =~= bytes);
    if bytes.len() == 0 {
        assert(bytes.push(b).skip(1) =~= bytes);
    } else {
        let t = bytes.skip(1);
        law_little_endian(t, b);
        assert(bytes.push(b).skip(1) =~= t.push(b));
        let p = vstd::arithmetic::power::pow(256, t.len());
        assert(256 * (b * p) == b * (256 * p)) by (nonlinear_arith);
    }
}

/// The orders of the two fields, above `2^254`.
pub proof fn law_field_orders()
    ensures
        base_modulus() - 0x4000000000000000000000000000000000000000000000000000000000000000int
            == 45560315531419706090280762371685220353int,
        scalar_modulus() - 0x4000000000000000000000000000000000000000000000000000000000000000int
            == 45560315531506369815346746415080538113int,
{
}

/// Canonical elements are the `32`-byte forms of numbers below the order.
pub proof fn law_canonical_elements(bytes: Seq<u8>)
    ensures
        is_base(bytes) <==> bytes.len() == 32 && !(le_value(bytes) >= base_modulus()),
        is_scalar(bytes) <==> bytes.len() == 32 && !(le_value(bytes) >= scalar_modulus()),
{
}

} // verus!
