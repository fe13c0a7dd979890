//! The activation kernels, over any arithmetic.

use crate::lanes::{ap, definite};
use crate::norm::decided;
use crate::scan::{ap1, definite1};
use vstd::prelude::*;

verus! {

/// The operations that the activations are made of.
pub struct Curve<T, A, M, N, E, R, L, G> {
    pub zero: T,
    pub one: T,
    pub plus: A,
    pub times: M,
    pub negate: N,
    pub exp: E,
    pub invert: R,
    pub log: L,
    /// Whether the first number is the greater one.
    pub above: G,
}

impl<
    T: Copy,
    A: Fn(T, T) -> T,
    M: Fn(T, T) -> T,
    N: Fn(T) -> T,
    E: Fn(T) -> T,
    R: Fn(T) -> T,
    L: Fn(T) -> T,
    G: Fn(T, T) -> bool,
> Curve<T, A, M, N, E, R, L, G> {
    /// Whether every operation can always be applied, and gives one value.
    pub open spec fn ok(self) -> bool {
        &&& definite(self.plus)
        &&& definite(self.times)
        &&& definite1(self.negate)
        &&& definite1(self.exp)
        &&& definite1(self.invert)
        &&& definite1(self.log)
        &&& decided(self.above)
    }

    /// `1 / (1 + exp(-x))`.
    pub open spec fn sigmoid_of(self, x: T) -> T {
        ap1(self.invert, ap(self.plus, self.one, ap1(self.exp, ap1(self.negate, x))))
    }

    /// `max(x, 0) + log(1 + exp(-|x|))`.
    pub open spec fn softplus_of(self, x: T) -> T {
        let part = if self.above.ensures((x, self.zero), true) {
            x
        } else {
            self.zero
        };
        let down = if self.above.ensures((self.zero, x), true) {
            x
        } else {
            ap1(self.negate, x)
        };
        ap(self.plus, part, ap1(self.log, ap(self.plus, self.one, ap1(self.exp, down))))
    }

    pub fn sigmoid(&self, x: T) -> (y: T)
        requires
            self.ok(),
        ensures
            y == self.sigmoid_of(x),
    {
        let e = (self.exp)((self.negate)(x));
        (self.invert)((self.plus)(self.one, e))
    }

    pub fn silu(&self, x: T) -> (y: T)
        requires
            self.ok(),
        ensures
            y == ap(self.times, x, self.sigmoid_of(x)),
    {
        let s = self.sigmoid(x);
        (self.times)(x, s)
    }

    pub fn softplus(&self, x: T) -> (y: T)
        requires
            self.ok(),
        ensures
            y == self.softplus_of(x),
    {
        let part = if (self.above)(x, self.zero) {
            x
        } else {
            self.zero
        };
        let down = if (self.above)(self.zero, x) {
            x
        } else {
            (self.negate)(x)
        };
        let e = (self.exp)(down);
        let l = (self.log)((self.plus)(self.one, e));
        (self.plus)(part, l)
    }
}

} // verus!
