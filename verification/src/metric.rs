//! Where distances and similarities come from.
use vstd::prelude::*;

verus! {

/// A measure between numbered things: the distance of a stored vector from a query, the
/// similarity of two stored vectors. A measure is computed when it is asked for, and the
/// same pair always measures the same.
pub trait Metric {
    /// How many things can be measured from.
    spec fn sources(&self) -> nat;

    /// How many things can be measured to.
    spec fn targets(&self) -> nat;

    /// The measure from `from` to `to`, as the bits of a single-precision number.
    spec fn measured(&self, from: int, to: int) -> u32;

    /// Computes the measure from `from` to `to`.
    fn measure(&self, from: u32, to: u32) -> (bits: u32)
        requires
            from < self.sources(),
            to < self.targets(),
        ensures
            bits == self.measured(from as int, to as int),
    ;
}

/// Measures worked out beforehand, row by row.
pub struct DistanceTable {
    /// The rows one after another.
    pub cells: Vec<u32>,
    /// Length of a row.
    pub width: usize,
}

impl Metric for DistanceTable {
    open spec fn sources(&self) -> nat {
        if self.width == 0 {
            0
        } else {
            self.cells@.len() / self.width as nat
        }
    }

    open spec fn targets(&self) -> nat {
        self.width as nat
    }

    open spec fn measured(&self, from: int, to: int) -> u32 {
        self.cells@[from * self.width + to]
    }

    fn measure(&self, from: u32, to: u32) -> (bits: u32) {
        let rows: usize = self.cells.len() / self.width;
        proof {
            let w = self.width as int;
            let len = self.cells@.len() as int;
            vstd::arithmetic::div_mod::lemma_fundamental_div_mod(len, w);
            assert((from + 1) * w <= len) by (nonlinear_arith)
                requires
                    from + 1 <= rows,
                    rows * w <= len,
                    0 < w,
            ;
            assert((from + 1) * w == from * w + w) by (nonlinear_arith);
            assert(0 <= from * w) by (nonlinear_arith)
                requires
                    0 < w,
            ;
        }
        self.cells[from as usize * self.width + to as usize]
    }
}

/// Measures that a function works out when they are asked for.
pub struct Computed<F> {
    /// The function.
    pub f: F,
    /// How many things can be measured from.
    pub sources: usize,
    /// How many things can be measured to.
    pub targets: usize,
}

impl<F: Fn(u32, u32) -> u32> Computed<F> {
    /// What the function gives for a pair.
    pub open spec fn result(&self, from: u32, to: u32) -> u32 {
        choose|bits: u32| #[trigger] call_ensures(self.f, (from, to), bits)
    }

    /// The function measures every pair, and each always the same.
    pub open spec fn settled(&self) -> bool {
        &&& forall|from: u32, to: u32|
            from < self.sources && to < self.targets ==> #[trigger] call_requires(
                self.f,
                (from, to),
            )
        &&& forall|from: u32, to: u32, a: u32, b: u32|
            #[trigger] call_ensures(self.f, (from, to), a) && #[trigger] call_ensures(
                self.f,
                (from, to),
                b,
            ) ==> a == b
    }
}

impl<F: Fn(u32, u32) -> u32> Metric for Computed<F> {
    /// None where the function is not settled.
    open spec fn sources(&self) -> nat {
        if self.settled() {
            self.sources as nat
        } else {
            0
        }
    }

    open spec fn targets(&self) -> nat {
        self.targets as nat
    }

    open spec fn measured(&self, from: int, to: int) -> u32 {
        self.result(from as u32, to as u32)
    }

    fn measure(&self, from: u32, to: u32) -> (bits: u32) {
        (self.f)(from, to)
    }
}

} // verus!
