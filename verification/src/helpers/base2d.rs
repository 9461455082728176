//! A pair of values along two axes: a coordinate, an index, a size.

use crate::helpers::read::{parse, split, split_text, texts, FromText, ParseError};
use core::convert::{TryFrom, TryInto};
use core::str::FromStr;
use core::ops::Add;
use vstd::prelude::*;
use vstd::string::StringSliceAdditionalSpecFns;
use vstd::std_specs::cmp::{PartialEqSpec, PartialEqSpecImpl};
use vstd::std_specs::convert::{TryFromSpecImpl, TryIntoSpec};
use vstd::std_specs::ops::{AddSpec, AddSpecImpl};

verus! {

/// Helper struct for representing 2d values, i.e: coordinates, indexes, etc.
#[derive(Copy, Clone, Debug)]
pub struct Base2d<U> {
    pub x: U,
    pub y: U,
}

impl<U: Copy> Base2d<U> {
    /// Constructs a new Base2d.
    pub fn new(x: U, y: U) -> (p: Base2d<U>)
        ensures
            p.x == x,
            p.y == y,
    {
        Base2d { x, y }
    }

    /// Returns a tuple `(x, y)`.
    pub fn tuple(&self) -> (t: (U, U))
        ensures
            t == (self.x, self.y),
    {
        (self.x, self.y)
    }
}

impl<U: PartialEq> Base2d<U> {
    /// Whether both values lie in one column, that is, agree in `x`.
    pub fn is_same_column(&self, rhs: &Self) -> (same: bool)
        ensures
            U::obeys_eq_spec() ==> same == self.x.eq_spec(&rhs.x),
    {
        self.x == rhs.x
    }

    /// Whether both values lie in one row, that is, agree in `y`.
    pub fn is_same_row(&self, rhs: &Self) -> (same: bool)
        ensures
            U::obeys_eq_spec() ==> same == self.y.eq_spec(&rhs.y),
    {
        self.y == rhs.y
    }
}

impl<U: PartialEq> PartialEq for Base2d<U> {
    /// Two values are equal when they agree on both axes.
    fn eq(&self, other: &Self) -> (equal: bool) {
        self.x == other.x && self.y == other.y
    }
}

impl<U: PartialEq> PartialEqSpecImpl for Base2d<U> {
    open spec fn obeys_eq_spec() -> bool {
        U::obeys_eq_spec()
    }

    open spec fn eq_spec(&self, other: &Self) -> bool {
        self.x.eq_spec(&other.x) && self.y.eq_spec(&other.y)
    }
}

impl<U: Add<Output = U>> Add for Base2d<U> {
    type Output = Self;

    /// Adds axis by axis.
    fn add(self, rhs: Self) -> (sum: Self) {
        Base2d { x: self.x + rhs.x, y: self.y + rhs.y }
    }
}

impl<U: Add<Output = U>> AddSpecImpl for Base2d<U> {
    open spec fn obeys_add_spec() -> bool {
        U::obeys_add_spec()
    }

    open spec fn add_req(self, rhs: Self) -> bool {
        self.x.add_req(rhs.x) && self.y.add_req(rhs.y)
    }

    open spec fn add_spec(self, rhs: Self) -> Self {
        Base2d { x: self.x.add_spec(rhs.x), y: self.y.add_spec(rhs.y) }
    }
}

impl<U: TryInto<usize>> TryFrom<(U, U)> for Base2d<usize> {
    type Error = <U as TryInto<usize>>::Error;

    /// Converts both members of the tuple, `x` first; the first member that
    /// does not fit gives the error.
    fn try_from(item: (U, U)) -> (converted: Result<Self, Self::Error>) {
        let x = match item.0.try_into() {
            Ok(x) => x,
            Err(e) => {
                return Err(e);
            },
        };
        match item.1.try_into() {
            Ok(y) => Ok(Base2d { x, y }),
            Err(e) => Err(e),
        }
    }
}

impl<U: TryInto<usize>> TryFromSpecImpl<(U, U)> for Base2d<usize> {
    open spec fn obeys_try_from_spec() -> bool {
        <U as TryIntoSpec<usize>>::obeys_try_into_spec()
    }

    open spec fn try_from_spec(item: (U, U)) -> Result<Self, Self::Error> {
        match item.0.try_into_spec() {
            Ok(x) => match item.1.try_into_spec() {
                Ok(y) => Ok(Base2d { x, y }),
                Err(e) => Err(e),
            },
            Err(e) => Err(e),
        }
    }
}

impl<U: FromText + Copy> FromText for Base2d<U> {
    /// The text needs to have two values separated by a comma, as in
    /// `15,21`. What follows a second comma is not looked at.
    open spec fn parsed(text: Seq<u8>) -> Option<Self> {
        let pieces = split_text(text, seq![44u8]);
        if pieces.len() < 2 {
            None
        } else {
            match (U::parsed(pieces[0]), U::parsed(pieces[1])) {
                (Some(x), Some(y)) => Some(Base2d { x, y }),
                _ => None,
            }
        }
    }

    fn from_text(text: &[u8]) -> (value: Option<Self>) {
        let comma: [u8; 1] = [44];
        assert(comma@ =~= seq![44u8]);
        let pieces = split(text, comma.as_slice());
        assert(texts(pieces@).len() == pieces@.len());
        if pieces.len() < 2 {
            return None;
        }
        assert(texts(pieces@)[0] == pieces@[0]@);
        assert(texts(pieces@)[1] == pieces@[1]@);
        let x = match U::from_text(pieces[0]) {
            Some(x) => x,
            None => {
                return None;
            },
        };
        match U::from_text(pieces[1]) {
            Some(y) => Some(Base2d::new(x, y)),
            None => None,
        }
    }
}

impl<U: FromText + Copy> FromStr for Base2d<U> {
    type Err = ParseError;

    /// The string needs to have two values separated by a comma, as in
    /// `15,21`; any other string gives the error.
    fn from_str(s: &str) -> (value: Result<Self, ParseError>)
        ensures
            value == match Self::parsed(s.spec_bytes()) {
                Some(point) => Ok::<Self, ParseError>(point),
                None => Err(ParseError),
            },
    {
        parse(s)
    }
}

} // verus!
