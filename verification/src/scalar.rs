use vstd::prelude::*;

verus! {

/// The order of the Ristretto group, a prime: 2^252 + 27742317777372353535851937790883648493.
#[verifier::opaque]
pub open spec fn order() -> nat {
    0x1000_0000_0000_0000_0000_0000_0000_0000_14de_f9de_a2f7_9cd6_5812_631a_5cf5_d3ed_nat
}

/// The group order is above 2^252, so every 64-bit number is its own field element.
pub proof fn lemma_order()
    ensures
        order() > 0x1000_0000_0000_0000_0000_0000_0000_0000_0000_0000_0000_0000_0000_0000_0000_0000,
        order() > u64::MAX,
        order() > 2,
{
    reveal(order);
}

/// Product of two field elements.
pub open spec fn field_mul(a: nat, b: nat) -> nat {
    (a * b) % order()
}

/// Sum of two field elements.
pub open spec fn field_add(a: nat, b: nat) -> nat {
    (a + b) % order()
}

/// Additive inverse of a field element.
pub open spec fn field_neg(a: nat) -> nat {
    ((order() - a) % (order() as int)) as nat
}

/// The field element of an integer of either sign.
pub open spec fn field_of(x: int) -> nat {
    (x % (order() as int)) as nat
}

/// The number that a byte string encodes, least significant byte first.
pub open spec fn le_value(bytes: Seq<u8>) -> nat
    decreases bytes.len(),
{
    if bytes.len() == 0 {
        0
    } else {
        bytes[0] as nat + 256 * le_value(bytes.drop_first())
    }
}

/// An element of the scalar field, kept as 32 little-endian bytes.
///
/// Any 32 bytes are accepted; they stand for their value modulo the group order.
#[derive(Copy, Clone, Debug, PartialEq, Eq)]
pub struct Scalar {
    pub bytes: [u8; 32],
}

impl View for Scalar {
    type V = nat;

    /// The field element that the bytes stand for.
    open spec fn view(&self) -> nat {
        le_value(self.bytes@) % order()
    }
}

/// Calls `Scalar::from(u64)` of curve25519-dalek and keeps the bytes of the result.
/// Claimed: the result is reduced and its value is `x`.
#[verifier::external_body]
fn scalar_from_u64(x: u64) -> (r: Scalar)
    ensures
        r.is_canonical(),
        r@ == x as nat,
{
    Scalar { bytes: curve25519_dalek_ng::scalar::Scalar::from(x).to_bytes() }
}

/// Calls the multiplication of two scalars of curve25519-dalek on the reductions of `a` and `b`.
/// Claimed: the result is reduced and is the product modulo the group order.
#[verifier::external_body]
fn scalar_mul(a: &Scalar, b: &Scalar) -> (r: Scalar)
    ensures
        r.is_canonical(),
        r@ == field_mul(a@, b@),
{
    let a = curve25519_dalek_ng::scalar::Scalar::from_bytes_mod_order(a.bytes);
    let b = curve25519_dalek_ng::scalar::Scalar::from_bytes_mod_order(b.bytes);
    Scalar { bytes: (a * b).to_bytes() }
}

/// Calls the negation of a scalar of curve25519-dalek on the reduction of `a`.
/// Claimed: the result is reduced and is the additive inverse modulo the group order.
#[verifier::external_body]
fn scalar_neg(a: &Scalar) -> (r: Scalar)
    ensures
        r.is_canonical(),
        r@ == field_neg(a@),
{
    let a = curve25519_dalek_ng::scalar::Scalar::from_bytes_mod_order(a.bytes);
    Scalar { bytes: (-a).to_bytes() }
}

/// Calls the equality test of curve25519-dalek on the reductions of `a` and `b`.
/// Claimed: it holds exactly when both stand for the same field element.
#[verifier::external_body]
fn scalar_eq(a: &Scalar, b: &Scalar) -> (r: bool)
    ensures
        r == (a@ == b@),
{
    let a = curve25519_dalek_ng::scalar::Scalar::from_bytes_mod_order(a.bytes);
    let b = curve25519_dalek_ng::scalar::Scalar::from_bytes_mod_order(b.bytes);
    a == b
}

/// Calls `Scalar::random` of curve25519-dalek with the thread's random number generator.
/// Claimed: the result is reduced; nothing else, since it is drawn at random.
#[verifier::external_body]
fn scalar_random() -> (r: Scalar)
    ensures
        r.is_canonical(),
{
    Scalar { bytes: curve25519_dalek_ng::scalar::Scalar::random(&mut rand::thread_rng()).to_bytes() }
}

impl Scalar {
    /// The bytes encode a number below the group order.
    pub open spec fn is_canonical(self) -> bool {
        le_value(self.bytes@) < order()
    }

    /// The field element of a 64-bit number.
    pub fn from_u64(x: u64) -> (r: Scalar)
        ensures
            r.is_canonical(),
            r@ == x as nat,
    {
        scalar_from_u64(x)
    }

    /// The zero of the field.
    pub fn zero() -> (r: Scalar)
        ensures
            r.is_canonical(),
            r@ == 0,
    {
        scalar_from_u64(0)
    }

    /// The one of the field.
    pub fn one() -> (r: Scalar)
        ensures
            r.is_canonical(),
            r@ == 1,
    {
        scalar_from_u64(1)
    }

    /// The product in the field.
    pub fn mul(&self, rhs: &Scalar) -> (r: Scalar)
        ensures
            r.is_canonical(),
            r@ == field_mul(self@, rhs@),
    {
        scalar_mul(self, rhs)
    }

    /// The additive inverse in the field.
    pub fn neg(&self) -> (r: Scalar)
        ensures
            r.is_canonical(),
            r@ == field_neg(self@),
    {
        scalar_neg(self)
    }

    /// Whether both stand for the same field element.
    pub fn equals(&self, rhs: &Scalar) -> (r: bool)
        ensures
            r == (self@ == rhs@),
    {
        scalar_eq(self, rhs)
    }

    /// A scalar drawn uniformly at random, for blinding a commitment.
    pub fn random() -> (r: Scalar)
        ensures
            r.is_canonical(),
    {
        scalar_random()
    }
}

} // verus!
