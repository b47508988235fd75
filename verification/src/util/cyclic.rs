use vstd::prelude::*;

verus! {

/// The class of `value` modulo `modulo`, as the natural number in `0..modulo`.
pub open spec fn residue(value: int, modulo: int) -> int
    recommends
        modulo > 0,
{
    value % modulo
}

/// A counter that wraps around: its value always lies in `0..modulo`.
#[derive(Debug, Clone, Copy, PartialEq, Eq)]
pub struct Cyclic {
    value: usize,
    modulo: usize,
}

impl Cyclic {
    #[verifier::type_invariant]
    spec fn inv(self) -> bool {
        0 < self.modulo && self.value < self.modulo
    }

    /// The current value.
    pub closed spec fn val(self) -> nat {
        self.value as nat
    }

    /// The modulus.
    pub closed spec fn modulus(self) -> nat {
        self.modulo as nat
    }

    /// Creates the counter that holds `value % modulo`.
    pub fn new(value: usize, modulo: usize) -> (r: Self)
        requires
            modulo > 0,
        ensures
            r.val() == residue(value as int, modulo as int),
            r.modulus() == modulo,
    {
        Cyclic { value: value % modulo, modulo }
    }

    /// Moves `delta` steps forward, wrapping around.
    pub fn add(&self, delta: usize) -> (r: Self)
        requires
            self.val() + delta <= usize::MAX,
        ensures
            r.val() == residue(self.val() + delta, self.modulus() as int),
            r.modulus() == self.modulus(),
    {
        proof { use_type_invariant(self); }
        self.set(self.value + delta)
    }

    /// Moves `delta` steps backward, wrapping around.
    pub fn sub(&self, delta: usize) -> (r: Self)
        requires
            self.val() + self.modulus() <= usize::MAX,
        ensures
            r.val() == residue(self.val() - delta, self.modulus() as int),
            r.modulus() == self.modulus(),
    {
        proof { use_type_invariant(self); }
        let reduced = delta % self.modulo;
        let value = self.value + self.modulo - reduced;
        proof {
            let m = self.modulo as int;
            let v = self.value as int;
            let d = delta as int;
            vstd::arithmetic::div_mod::lemma_fundamental_div_mod(d, m);
            let q = d / m;
            let r = d % m;
            assert(v + m - r == m * (q + 1) + (v - d)) by (nonlinear_arith)
                requires
                    d == m * q + r;
            vstd::arithmetic::div_mod::lemma_mod_multiples_vanish(q + 1, v - d, m);
        }
        self.set(value)
    }

    /// The counter with the same modulus whose value is `value % modulus`.
    pub fn set(&self, value: usize) -> (r: Self)
        ensures
            r.val() == residue(value as int, self.modulus() as int),
            r.modulus() == self.modulus(),
    {
        proof { use_type_invariant(self); }
        Cyclic { value: value % self.modulo, modulo: self.modulo }
    }

    /// The current value, which is less than the modulus.
    pub fn value(&self) -> (r: usize)
        ensures
            r == self.val(),
            r < self.modulus(),
    {
        proof { use_type_invariant(self); }
        self.value
    }

    /// The modulus, which is positive.
    pub fn modulo(&self) -> (r: usize)
        ensures
            r == self.modulus(),
            r > 0,
    {
        proof { use_type_invariant(self); }
        self.modulo
    }
}

/// Moving forward by `d` and then back by `d` returns to the start, and so does moving back and
/// then forward.
pub proof fn lemma_add_sub_inverse(v: int, d: int, m: int)
    requires
        m > 0,
        0 <= v < m,
    ensures
        residue(residue(v + d, m) - d, m) == v,
        residue(residue(v - d, m) + d, m) == v,
{
    vstd::arithmetic::div_mod::lemma_sub_mod_noop(v + d, d, m);
    vstd::arithmetic::div_mod::lemma_sub_mod_noop_right((v + d) % m, d, m);
    vstd::arithmetic::div_mod::lemma_add_mod_noop_right(d, v - d, m);
    vstd::arithmetic::div_mod::lemma_small_mod(v as nat, m as nat);
}

/// Moving forward by `a` and then by `b` is moving forward by `a + b`.
pub proof fn lemma_add_add(v: int, a: int, b: int, m: int)
    requires
        m > 0,
    ensures
        residue(residue(v + a, m) + b, m) == residue(v + a + b, m),
{
    vstd::arithmetic::div_mod::lemma_add_mod_noop_right(b, v + a, m);
}

} // verus!
