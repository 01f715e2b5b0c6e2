use vstd::prelude::*;

verus! {

/// The order of the prime field: `2^64 - 9 * 2^28 + 1`.
pub const ORDER: u64 = 18446744071293632513;

/// An element of the prime field of order `ORDER`, held in canonical form.
#[derive(Clone, Copy, PartialEq, Eq, Structural, Debug)]
pub struct FieldElement {
    value: u64,
}

impl FieldElement {
    #[verifier::type_invariant]
    spec fn canonical(self) -> bool {
        self.value < ORDER
    }

    /// The integer in `[0, ORDER)` that this element stands for.
    pub closed spec fn val(self) -> int {
        self.value as int
    }

    /// Elements that stand for the same integer are the same element.
    pub proof fn lemma_val_injective(a: FieldElement, b: FieldElement)
        requires
            a.val() == b.val(),
        ensures
            a == b,
    {
    }

    pub fn zero() -> (r: FieldElement)
        ensures
            r.val() == 0,
    {
        FieldElement { value: 0 }
    }

    /// Reduces an arbitrary `u64` into the field.
    pub fn from_u64(x: u64) -> (r: FieldElement)
        ensures
            r.val() == x as int % ORDER as int,
    {
        FieldElement { value: x % ORDER }
    }

    pub fn to_canonical_u64(&self) -> (r: u64)
        ensures
            r as int == self.val(),
            r < ORDER,
    {
        proof {
            use_type_invariant(self);
        }
        self.value
    }

    pub fn add(self, other: FieldElement) -> (r: FieldElement)
        ensures
            r.val() == (self.val() + other.val()) % ORDER as int,
    {
        proof {
            use_type_invariant(&self);
            use_type_invariant(&other);
        }
        let s: u128 = self.value as u128 + other.value as u128;
        let v: u128 = s % (ORDER as u128);
        FieldElement { value: v as u64 }
    }

    pub fn mul(self, other: FieldElement) -> (r: FieldElement)
        ensures
            r.val() == (self.val() * other.val()) % ORDER as int,
    {
        proof {
            use_type_invariant(&self);
            use_type_invariant(&other);
        }
        let a: u128 = self.value as u128;
        let b: u128 = other.value as u128;
        assert(a * b < 0x1_0000_0000_0000_0000_0000_0000_0000_0000) by (nonlinear_arith)
            requires
                a < 0x1_0000_0000_0000_0000,
                b < 0x1_0000_0000_0000_0000,
        ;
        let p: u128 = a * b;
        let v: u128 = p % (ORDER as u128);
        FieldElement { value: v as u64 }
    }

    /// `x^3`, computed as `(x * x) * x`.
    pub fn cube(self) -> (r: FieldElement)
        ensures
            r.val() == cube_spec(self.val()),
    {
        let sq = self.mul(self);
        sq.mul(self)
    }
}

/// The first `n` elements of `v`, copied.
pub fn take_prefix<T: Copy>(v: &Vec<T>, n: usize) -> (r: Vec<T>)
    requires
        n <= v.len(),
    ensures
        r@ == v@.take(n as int),
{
    let mut r: Vec<T> = Vec::new();
    let mut i: usize = 0;
    while i < n
        invariant
            i <= n,
            n <= v.len(),
            r@ == v@.take(i as int),
        decreases n - i,
    {
        r.push(v[i]);
        assert(v@.take(i as int).push(v@[i as int]) =~= v@.take(i as int + 1));
        i = i + 1;
    }
    r
}

/// The cube of `x` in the field, reducing after each product.
pub open spec fn cube_spec(x: int) -> int {
    ((x * x) % ORDER as int) * x % ORDER as int
}

/// The integers that a sequence of field elements stands for.
pub open spec fn vals(s: Seq<FieldElement>) -> Seq<int> {
    s.map_values(|x: FieldElement| x.val())
}

} // verus!
