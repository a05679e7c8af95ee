//! Generic 2-vectors. Not to be confused with `std::vec::Vec`, these are
//! pairs that stand for vectors in the plane.

use std::fmt::Display;
use std::ops::{Add, Mul, Neg, Sub};
use vstd::prelude::*;
use vstd::std_specs::ops::{AddSpec, MulSpec, NegSpec, SubSpec};
use vstd::string::to_string_from_display_ensures;

verus! {

/// A 2-vector.
#[derive(Clone, Copy, PartialEq, Eq, Debug)]
pub struct V2<Coord> {
    pub x: Coord,
    pub y: Coord,
}

impl<T> V2<T> {
    /// Constructs a new `V2`.
    pub fn new(x: T, y: T) -> (v: Self)
        ensures
            v.x == x,
            v.y == y,
    {
        V2 { x, y }
    }
}

impl<T: Copy + Mul<Output = T>> V2<T> {
    /// Multiplies the vector by a scalar.
    pub fn scale(&self, factor: T) -> (v: V2<T>)
        requires
            factor.mul_req(self.x),
            factor.mul_req(self.y),
        ensures
            T::obeys_mul_spec() ==> v.x == factor.mul_spec(self.x) && v.y == factor.mul_spec(self.y),
    {
        V2 { x: factor * self.x, y: factor * self.y }
    }
}

impl<T: Copy + Mul<Output = T> + Add<Output = T>> V2<T> {
    /// Computes the inner product (dot product) of two vectors.
    pub fn inner_product(&self, other: &V2<T>) -> (product: T)
        requires
            self.x.mul_req(other.x),
            self.y.mul_req(other.y),
            forall|p: T, q: T|
                call_ensures(T::mul, (self.x, other.x), p) && call_ensures(
                    T::mul,
                    (self.y, other.y),
                    q,
                ) ==> p.add_req(q),
        ensures
            T::obeys_mul_spec() && T::obeys_add_spec() ==> product == self.x.mul_spec(
                other.x,
            ).add_spec(self.y.mul_spec(other.y)),
    {
        self.x * other.x + self.y * other.y
    }
}

impl<T: Copy + Default> Default for V2<T> {
    /// The vector whose coordinates are both the default of `T`.
    fn default() -> (v: Self)
        ensures
            call_ensures(T::default, (), v.x),
            call_ensures(T::default, (), v.y),
    {
        V2::new(T::default(), T::default())
    }
}

impl<T: Display> V2<T> {
    /// The vector as text: its coordinates in angle brackets, with a comma
    /// and a space between them.
    pub fn to_string(&self) -> (text: String)
        ensures
            exists|x: String, y: String|
                to_string_from_display_ensures(&self.x, x) && to_string_from_display_ensures(
                    &self.y,
                    y,
                ) && text@ == "\u{27e8}"@ + x@ + ", "@ + y@ + "\u{27e9}"@,
    {
        let x = self.x.to_string();
        let y = self.y.to_string();
        let mut text = String::from_str("\u{27e8}");
        text.append(x.as_str());
        text.append(", ");
        text.append(y.as_str());
        text.append("\u{27e9}");
        text
    }
}

impl<T: Copy + Neg> V2<T> {
    /// Negates a vector.
    pub fn neg(self) -> (v: V2<T::Output>)
        requires
            self.x.neg_req(),
            self.y.neg_req(),
        ensures
            T::obeys_neg_spec() ==> v.x == self.x.neg_spec() && v.y == self.y.neg_spec(),
    {
        V2::new(self.x.neg(), self.y.neg())
    }
}

impl<T: Copy> V2<T> {
    /// Adds two vectors.
    pub fn add<U: Copy>(self, other: V2<U>) -> (v: V2<T::Output>) where T: Add<U>
        requires
            self.x.add_req(other.x),
            self.y.add_req(other.y),
        ensures
            T::obeys_add_spec() ==> v.x == self.x.add_spec(other.x) && v.y == self.y.add_spec(
                other.y,
            ),
    {
        V2::new(self.x + other.x, self.y + other.y)
    }

    /// Subtracts two vectors.
    pub fn sub<U: Copy>(self, other: V2<U>) -> (v: V2<T::Output>) where T: Sub<U>
        requires
            self.x.sub_req(other.x),
            self.y.sub_req(other.y),
        ensures
            T::obeys_sub_spec() ==> v.x == self.x.sub_spec(other.x) && v.y == self.y.sub_spec(
                other.y,
            ),
    {
        V2::new(self.x - other.x, self.y - other.y)
    }
}

} // verus!
