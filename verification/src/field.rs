//! The base field of the Pallas curve: its arithmetic as a specification, and its elements as
//! canonical little-endian byte strings on which `halo2_proofs` computes.
use halo2_proofs::arithmetic::FieldExt;
use halo2_proofs::pasta::group::ff::PrimeField;
use halo2_proofs::pasta::Fp;
use vstd::arithmetic::div_mod::*;
use vstd::arithmetic::mul::*;
use vstd::arithmetic::power::*;
use vstd::prelude::*;

verus! {

/// The order of the field.
#[verifier::opaque]
pub open spec fn modulus() -> int {
    0x40000000000000000000000000000000224698fc094cf91b992d30ed00000001int
}

/// `a` is the least residue of a field element.
pub open spec fn in_field(a: int) -> bool {
    0 <= a < modulus()
}

pub open spec fn fadd(a: int, b: int) -> int {
    (a + b) % modulus()
}

pub open spec fn fsub(a: int, b: int) -> int {
    (a - b) % modulus()
}

pub open spec fn fmul(a: int, b: int) -> int {
    (a * b) % modulus()
}

pub open spec fn fpow(a: int, exponent: nat) -> int {
    pow(a, exponent) % modulus()
}

/// The integer that a little-endian byte string spells.
pub open spec fn le_bytes(bytes: Seq<u8>) -> nat
    decreases bytes.len(),
{
    if bytes.len() == 0 {
        0
    } else {
        (bytes[0] + 256 * le_bytes(bytes.drop_first())) as nat
    }
}

/// The integer that four little-endian 64-bit limbs spell.
pub open spec fn le_limbs(limbs: [u64; 4]) -> nat {
    (limbs[0] + 0x1_0000_0000_0000_0000int * (limbs[1] + 0x1_0000_0000_0000_0000int * (limbs[2]
        + 0x1_0000_0000_0000_0000int * limbs[3]))) as nat
}

/// `bytes` is the canonical encoding of a field element.
pub open spec fn canonical(bytes: [u8; 32]) -> bool {
    le_bytes(bytes@) < modulus()
}

pub broadcast proof fn lemma_fadd_in_field(a: int, b: int)
    ensures
        in_field(#[trigger] fadd(a, b)),
{
    reveal(modulus);
    lemma_mod_bound(a + b, modulus());
}

pub broadcast proof fn lemma_fsub_in_field(a: int, b: int)
    ensures
        in_field(#[trigger] fsub(a, b)),
{
    reveal(modulus);
    lemma_mod_bound(a - b, modulus());
}

pub broadcast proof fn lemma_fmul_in_field(a: int, b: int)
    ensures
        in_field(#[trigger] fmul(a, b)),
{
    reveal(modulus);
    lemma_mod_bound(a * b, modulus());
}

pub broadcast proof fn lemma_fpow_in_field(a: int, e: nat)
    ensures
        in_field(#[trigger] fpow(a, e)),
{
    reveal(modulus);
    lemma_mod_bound(pow(a, e), modulus());
}

/// Every result of a field operation is a least residue.
pub broadcast group group_in_field {
    lemma_fadd_in_field,
    lemma_fsub_in_field,
    lemma_fmul_in_field,
    lemma_fpow_in_field,
}

pub proof fn lemma_small_residues()
    ensures
        in_field(0),
        in_field(1),
        modulus() > 1,
{
    reveal(modulus);
}

pub proof fn lemma_fadd_commutes(a: int, b: int)
    ensures
        fadd(a, b) == fadd(b, a),
{
}

pub proof fn lemma_fadd_zero(a: int)
    requires
        in_field(a),
    ensures
        fadd(0, a) == a,
        fadd(a, 0) == a,
        fsub(a, 0) == a,
{
    lemma_small_mod(a as nat, modulus() as nat);
}

pub proof fn lemma_fadd_associates(a: int, b: int, c: int)
    ensures
        fadd(fadd(a, b), c) == fadd(a, fadd(b, c)),
{
    lemma_small_residues();
    lemma_add_mod_noop(a + b, c, modulus());
    lemma_add_mod_noop((a + b) % modulus(), c, modulus());
    lemma_mod_twice(a + b, modulus());
    lemma_add_mod_noop(a, b + c, modulus());
    lemma_add_mod_noop(a, (b + c) % modulus(), modulus());
    lemma_mod_twice(b + c, modulus());
}

pub proof fn lemma_fmul_commutes(a: int, b: int)
    ensures
        fmul(a, b) == fmul(b, a),
{
    lemma_mul_is_commutative(a, b);
}

pub proof fn lemma_fmul_associates(a: int, b: int, c: int)
    ensures
        fmul(fmul(a, b), c) == fmul(a, fmul(b, c)),
{
    lemma_small_residues();
    lemma_mul_mod_noop_left(a * b, c, modulus());
    lemma_mul_mod_noop_right(a, b * c, modulus());
    lemma_mul_is_associative(a, b, c);
}

pub proof fn lemma_fmul_one(a: int)
    requires
        in_field(a),
    ensures
        fmul(1, a) == a,
        fmul(a, 1) == a,
{
    lemma_small_mod(a as nat, modulus() as nat);
    lemma_mul_basics(a);
}

pub proof fn lemma_fmul_zero(a: int)
    ensures
        fmul(0, a) == 0,
        fmul(a, 0) == 0,
{
    lemma_small_residues();
    lemma_mul_basics(a);
    lemma_small_mod(0, modulus() as nat);
}

pub proof fn lemma_fmul_distributes(a: int, b: int, c: int)
    ensures
        fmul(a, fadd(b, c)) == fadd(fmul(a, b), fmul(a, c)),
        fmul(fadd(b, c), a) == fadd(fmul(b, a), fmul(c, a)),
{
    lemma_small_residues();
    lemma_mul_mod_noop_right(a, b + c, modulus());
    lemma_mul_is_distributive_add(a, b, c);
    lemma_add_mod_noop(a * b, a * c, modulus());
    lemma_mul_is_commutative(a, b);
    lemma_mul_is_commutative(a, c);
    lemma_mul_is_commutative(a, fadd(b, c));
}

pub proof fn lemma_fsub_self(a: int)
    ensures
        fsub(a, a) == 0,
{
    lemma_small_residues();
    lemma_small_mod(0, modulus() as nat);
}

/// A difference vanishes only between equal elements.
pub proof fn lemma_fsub_zero(a: int, b: int)
    requires
        in_field(a),
        in_field(b),
        fsub(a, b) == 0,
    ensures
        a == b,
{
    lemma_mod_equivalence(a, b, modulus());
    lemma_small_mod(a as nat, modulus() as nat);
    lemma_small_mod(b as nat, modulus() as nat);
}

/// Subtracting two elements one after the other is subtracting their sum.
pub proof fn lemma_fsub_twice(a: int, b: int, c: int)
    ensures
        fsub(fsub(a, b), c) == fsub(a, fadd(b, c)),
{
    lemma_small_residues();
    lemma_sub_mod_noop(a - b, c, modulus());
    lemma_sub_mod_noop((a - b) % modulus(), c, modulus());
    lemma_mod_twice(a - b, modulus());
    lemma_sub_mod_noop_right(a, b + c, modulus());
}

/// The fifth power as two multiplications by the square.
pub proof fn lemma_fifth_power(a: int)
    ensures
        fpow(a, 5) == fmul(fmul(a, fmul(a, a)), fmul(a, a)),
        fpow(a, 5) == fmul(fmul(fmul(a, a), fmul(a, a)), a),
{
    let s = a * a;
    assert(pow(a, 5) == a * s * s) by {
        reveal_with_fuel(pow, 6);
        assert(a * (a * (a * (a * (a * 1)))) == a * s * s) by (nonlinear_arith)
            requires
                s == a * a,
        ;
    }
    let m = modulus();
    lemma_small_residues();
    lemma_mul_mod_noop_right(a, s, m);
    lemma_mul_mod_noop_left(a * s, s % m, m);
    lemma_mul_mod_noop_right(a * s, s, m);
    let sq = fmul(a, a);
    lemma_fmul_associates(a, sq, sq);
    lemma_fmul_commutes(a, fmul(sq, sq));
}

/// The field is arithmetic on the integers below the order of the Pallas base field, modulo that
/// order.
pub proof fn law_the_field_is_arithmetic_modulo_its_order(a: int, b: int, e: nat)
    ensures
        modulus() == 0x40000000000000000000000000000000224698fc094cf91b992d30ed00000001int,
        in_field(a) <==> 0 <= a < 0x40000000000000000000000000000000224698fc094cf91b992d30ed00000001int,
        fadd(a, b) == (a + b) % 0x40000000000000000000000000000000224698fc094cf91b992d30ed00000001int,
        fsub(a, b) == (a - b) % 0x40000000000000000000000000000000224698fc094cf91b992d30ed00000001int,
        fmul(a, b) == (a * b) % 0x40000000000000000000000000000000224698fc094cf91b992d30ed00000001int,
        fpow(a, e) == pow(a, e) % 0x40000000000000000000000000000000224698fc094cf91b992d30ed00000001int,
{
    reveal(modulus);
}

/// Byte strings are read in little-endian order: one more byte at the end counts that many times
/// 256 as there are bytes before it.
pub proof fn law_bytes_are_little_endian(bytes: Seq<u8>, byte: u8)
    ensures
        le_bytes(Seq::<u8>::empty()) == 0,
        le_bytes(bytes.push(byte)) == le_bytes(bytes) + byte * pow(256, bytes.len()),
    decreases bytes.len(),
{
    let n = bytes.len();
    let more = bytes.push(byte);
    if n == 0 {
        lemma_pow0(256);
        lemma_mul_basics(byte as int);
        assert(more.drop_first() =~= Seq::<u8>::empty());
        assert(le_bytes(more) == byte + 256 * le_bytes(more.drop_first()));
        assert(bytes =~= Seq::<u8>::empty());
    } else {
        let rest = bytes.drop_first();
        law_bytes_are_little_endian(rest, byte);
        assert(more.drop_first() =~= rest.push(byte));
        assert(pow(256, n) == 256 * pow(256, (n - 1) as nat)) by {
            reveal(pow);
        }
        let p = pow(256, (n - 1) as nat);
        let low = le_bytes(rest) as int;
        assert(bytes[0] + 256 * (low + byte * p) == (bytes[0] + 256 * low) + byte * (256 * p))
            by (nonlinear_arith);
        assert(le_bytes(more) == more[0] + 256 * le_bytes(more.drop_first()));
    }
}

/// Limbs are read in little-endian order, 64 bits each.
pub proof fn law_limbs_are_little_endian(limbs: [u64; 4])
    ensures
        le_limbs(limbs) == limbs@[0] + limbs@[1] * 0x1_0000_0000_0000_0000 + limbs@[2]
            * 0x1_0000_0000_0000_0000_0000_0000_0000_0000int + limbs@[3]
            * 0x1_0000_0000_0000_0000_0000_0000_0000_0000_0000_0000_0000_0000int,
{
}

/// An element of the field.
#[derive(Clone, Copy, Debug, PartialEq, Eq)]
pub struct Felt {
    pub(crate) repr: [u8; 32],
}

impl View for Felt {
    type V = int;

    closed spec fn view(&self) -> int {
        le_bytes(self.repr@) as int % modulus()
    }
}

/// The least residue of every element lies in the field.
pub broadcast proof fn lemma_felt_in_field(f: Felt)
    ensures
        in_field(#[trigger] f@),
{
    reveal(modulus);
    lemma_mod_bound(le_bytes(f.repr@) as int, modulus());
}

/// `Fp::zero`, encoded by `PrimeField::to_repr`: the canonical encoding of zero.
#[verifier::external_body]
fn fp_zero() -> (r: [u8; 32])
    ensures
        canonical(r),
        le_bytes(r@) == 0,
{
    Fp::zero().to_repr()
}

/// `Fp::one`, encoded by `PrimeField::to_repr`: the canonical encoding of one.
#[verifier::external_body]
fn fp_one() -> (r: [u8; 32])
    ensures
        canonical(r),
        le_bytes(r@) == 1,
{
    Fp::one().to_repr()
}

/// `PrimeField::from_repr`: accepts exactly the canonical encodings, and `to_repr` gives an
/// accepted encoding back.
#[verifier::external_body]
fn fp_from_repr(repr: [u8; 32]) -> (r: Option<[u8; 32]>)
    ensures
        r == (if canonical(repr) {
            Some(repr)
        } else {
            None
        }),
{
    Option::<Fp>::from(Fp::from_repr(repr)).map(|element| element.to_repr())
}

/// `Fp::add`: addition modulo the order of the field.
#[verifier::external_body]
fn fp_add(a: [u8; 32], b: [u8; 32]) -> (r: [u8; 32])
    requires
        canonical(a),
        canonical(b),
    ensures
        canonical(r),
        le_bytes(r@) == fadd(le_bytes(a@) as int, le_bytes(b@) as int),
{
    (Fp::from_repr(a).unwrap() + Fp::from_repr(b).unwrap()).to_repr()
}

/// `Fp::mul`: multiplication modulo the order of the field.
#[verifier::external_body]
fn fp_mul(a: [u8; 32], b: [u8; 32]) -> (r: [u8; 32])
    requires
        canonical(a),
        canonical(b),
    ensures
        canonical(r),
        le_bytes(r@) == fmul(le_bytes(a@) as int, le_bytes(b@) as int),
{
    (Fp::from_repr(a).unwrap() * Fp::from_repr(b).unwrap()).to_repr()
}

/// `Fp::square`: the product of an element with itself.
#[verifier::external_body]
fn fp_square(a: [u8; 32]) -> (r: [u8; 32])
    requires
        canonical(a),
    ensures
        canonical(r),
        le_bytes(r@) == fmul(le_bytes(a@) as int, le_bytes(a@) as int),
{
    Fp::from_repr(a).unwrap().square().to_repr()
}

/// `FieldExt::pow`: the power whose exponent is given by four little-endian limbs.
#[verifier::external_body]
fn fp_pow(a: [u8; 32], exponent: &[u64; 4]) -> (r: [u8; 32])
    requires
        canonical(a),
    ensures
        canonical(r),
        le_bytes(r@) == fpow(le_bytes(a@) as int, le_limbs(*exponent)),
{
    FieldExt::pow(&Fp::from_repr(a).unwrap(), exponent).to_repr()
}

impl Felt {
    /// Every element is held by its canonical encoding.
    #[verifier::type_invariant]
    pub(crate) open spec fn well_formed(self) -> bool {
        canonical(self.repr)
    }

    proof fn lemma_view(self)
        requires
            self.well_formed(),
        ensures
            self@ == le_bytes(self.repr@),
    {
        lemma_small_mod(le_bytes(self.repr@), modulus() as nat);
    }

    /// The element that `repr` encodes in little-endian order, if the encoding is canonical.
    pub fn from_repr(repr: [u8; 32]) -> (r: Option<Felt>)
        ensures
            r is Some <==> le_bytes(repr@) < modulus(),
            r is Some <==> le_bytes(repr@) < 0x40000000000000000000000000000000224698fc094cf91b992d30ed00000001int,
            r matches Some(f) ==> f@ == le_bytes(repr@) && f.repr_bytes() == repr@,
    {
        proof {
            law_the_field_is_arithmetic_modulo_its_order(0, 0, 0);
        }
        match fp_from_repr(repr) {
            Some(repr) => {
                let f = Felt { repr };
                proof {
                    f.lemma_view();
                }
                Some(f)
            },
            None => None,
        }
    }

    /// The canonical encoding of an element.
    pub closed spec fn repr_bytes(self) -> Seq<u8> {
        self.repr@
    }

    /// The canonical little-endian encoding of this element.
    pub fn to_repr(&self) -> (r: [u8; 32])
        ensures
            r@ == self.repr_bytes(),
            le_bytes(r@) == self@,
    {
        proof {
            use_type_invariant(self);
            self.lemma_view();
        }
        self.repr
    }

    pub fn zero() -> (r: Felt)
        ensures
            r@ == 0,
    {
        let r = Felt { repr: fp_zero() };
        proof {
            r.lemma_view();
        }
        r
    }

    pub fn one() -> (r: Felt)
        ensures
            r@ == 1,
    {
        let r = Felt { repr: fp_one() };
        proof {
            r.lemma_view();
        }
        r
    }

    pub fn plus(&self, other: &Felt) -> (r: Felt)
        ensures
            r@ == fadd(self@, other@),
            r@ == (self@ + other@) % 0x40000000000000000000000000000000224698fc094cf91b992d30ed00000001int,
    {
        proof {
            law_the_field_is_arithmetic_modulo_its_order(self@, other@, 0);
            use_type_invariant(self);
            use_type_invariant(other);
            self.lemma_view();
            other.lemma_view();
        }
        let r = Felt { repr: fp_add(self.repr, other.repr) };
        proof {
            r.lemma_view();
        }
        r
    }

    pub fn times(&self, other: &Felt) -> (r: Felt)
        ensures
            r@ == fmul(self@, other@),
            r@ == (self@ * other@) % 0x40000000000000000000000000000000224698fc094cf91b992d30ed00000001int,
    {
        proof {
            law_the_field_is_arithmetic_modulo_its_order(self@, other@, 0);
            use_type_invariant(self);
            use_type_invariant(other);
            self.lemma_view();
            other.lemma_view();
        }
        let r = Felt { repr: fp_mul(self.repr, other.repr) };
        proof {
            r.lemma_view();
        }
        r
    }

    pub fn square(&self) -> (r: Felt)
        ensures
            r@ == fmul(self@, self@),
            r@ == (self@ * self@) % 0x40000000000000000000000000000000224698fc094cf91b992d30ed00000001int,
    {
        proof {
            law_the_field_is_arithmetic_modulo_its_order(self@, self@, 0);
            use_type_invariant(self);
            self.lemma_view();
        }
        let r = Felt { repr: fp_square(self.repr) };
        proof {
            r.lemma_view();
        }
        r
    }

    /// The power whose exponent is given by four little-endian limbs.
    pub fn pow(&self, exponent: &[u64; 4]) -> (r: Felt)
        ensures
            r@ == fpow(self@, le_limbs(*exponent)),
            r@ == pow(self@, le_limbs(*exponent)) % 0x40000000000000000000000000000000224698fc094cf91b992d30ed00000001int,
    {
        proof {
            law_the_field_is_arithmetic_modulo_its_order(self@, 0, le_limbs(*exponent));
            use_type_invariant(self);
            self.lemma_view();
        }
        let r = Felt { repr: fp_pow(self.repr, exponent) };
        proof {
            r.lemma_view();
        }
        r
    }
}

} // verus!
