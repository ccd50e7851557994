//! Key ordering for the tree maps.
//!
//! Every map in this crate is keyed by a type whose total order is given by an
//! injective embedding into the mathematical integers: `ord` places each key on
//! the number line, and the executable three-way comparison `key_cmp` is proved
//! to agree with that placement. All ordering reasoning in the tree invariants
//! is therefore ordinary integer arithmetic.

use vstd::prelude::*;

verus! {

/// Outcome of a three-way key comparison.
pub enum KeyOrdering {
    Less,
    Equal,
    Greater,
}

/// A totally ordered key type.
///
/// The order is specified by `ord`, an injective embedding into `int`;
/// `key_cmp` is the executable comparison, proved to agree with `ord`.
pub trait TreeKey: Sized {
    /// The key's position in the total order.
    spec fn ord(self) -> int;

    /// Keys at equal positions are equal.
    proof fn lemma_ord_injective(a: Self, b: Self)
        requires
            a.ord() == b.ord(),
        ensures
            a == b,
    ;

    /// Three-way comparison that agrees with `ord`.
    fn key_cmp(&self, other: &Self) -> (c: KeyOrdering)
        ensures
            c matches KeyOrdering::Less <==> self.ord() < other.ord(),
            c matches KeyOrdering::Equal <==> self.ord() == other.ord(),
            c matches KeyOrdering::Greater <==> self.ord() > other.ord(),
    ;
}

impl TreeKey for u8 {
    open spec fn ord(self) -> int {
        self as int
    }

    proof fn lemma_ord_injective(a: Self, b: Self) {
    }

    fn key_cmp(&self, other: &Self) -> (c: KeyOrdering) {
        if *self < *other {
            KeyOrdering::Less
        } else if *self == *other {
            KeyOrdering::Equal
        } else {
            KeyOrdering::Greater
        }
    }
}

impl TreeKey for u16 {
    open spec fn ord(self) -> int {
        self as int
    }

    proof fn lemma_ord_injective(a: Self, b: Self) {
    }

    fn key_cmp(&self, other: &Self) -> (c: KeyOrdering) {
        if *self < *other {
            KeyOrdering::Less
        } else if *self == *other {
            KeyOrdering::Equal
        } else {
            KeyOrdering::Greater
        }
    }
}

impl TreeKey for u32 {
    open spec fn ord(self) -> int {
        self as int
    }

    proof fn lemma_ord_injective(a: Self, b: Self) {
    }

    fn key_cmp(&self, other: &Self) -> (c: KeyOrdering) {
        if *self < *other {
            KeyOrdering::Less
        } else if *self == *other {
            KeyOrdering::Equal
        } else {
            KeyOrdering::Greater
        }
    }
}

impl TreeKey for u64 {
    open spec fn ord(self) -> int {
        self as int
    }

    proof fn lemma_ord_injective(a: Self, b: Self) {
    }

    fn key_cmp(&self, other: &Self) -> (c: KeyOrdering) {
        if *self < *other {
            KeyOrdering::Less
        } else if *self == *other {
            KeyOrdering::Equal
        } else {
            KeyOrdering::Greater
        }
    }
}

impl TreeKey for usize {
    open spec fn ord(self) -> int {
        self as int
    }

    proof fn lemma_ord_injective(a: Self, b: Self) {
    }

    fn key_cmp(&self, other: &Self) -> (c: KeyOrdering) {
        if *self < *other {
            KeyOrdering::Less
        } else if *self == *other {
            KeyOrdering::Equal
        } else {
            KeyOrdering::Greater
        }
    }
}

impl TreeKey for i8 {
    open spec fn ord(self) -> int {
        self as int
    }

    proof fn lemma_ord_injective(a: Self, b: Self) {
    }

    fn key_cmp(&self, other: &Self) -> (c: KeyOrdering) {
        if *self < *other {
            KeyOrdering::Less
        } else if *self == *other {
            KeyOrdering::Equal
        } else {
            KeyOrdering::Greater
        }
    }
}

impl TreeKey for i16 {
    open spec fn ord(self) -> int {
        self as int
    }

    proof fn lemma_ord_injective(a: Self, b: Self) {
    }

    fn key_cmp(&self, other: &Self) -> (c: KeyOrdering) {
        if *self < *other {
            KeyOrdering::Less
        } else if *self == *other {
            KeyOrdering::Equal
        } else {
            KeyOrdering::Greater
        }
    }
}

impl TreeKey for i32 {
    open spec fn ord(self) -> int {
        self as int
    }

    proof fn lemma_ord_injective(a: Self, b: Self) {
    }

    fn key_cmp(&self, other: &Self) -> (c: KeyOrdering) {
        if *self < *other {
            KeyOrdering::Less
        } else if *self == *other {
            KeyOrdering::Equal
        } else {
            KeyOrdering::Greater
        }
    }
}

impl TreeKey for i64 {
    open spec fn ord(self) -> int {
        self as int
    }

    proof fn lemma_ord_injective(a: Self, b: Self) {
    }

    fn key_cmp(&self, other: &Self) -> (c: KeyOrdering) {
        if *self < *other {
            KeyOrdering::Less
        } else if *self == *other {
            KeyOrdering::Equal
        } else {
            KeyOrdering::Greater
        }
    }
}

impl TreeKey for isize {
    open spec fn ord(self) -> int {
        self as int
    }

    proof fn lemma_ord_injective(a: Self, b: Self) {
    }

    fn key_cmp(&self, other: &Self) -> (c: KeyOrdering) {
        if *self < *other {
            KeyOrdering::Less
        } else if *self == *other {
            KeyOrdering::Equal
        } else {
            KeyOrdering::Greater
        }
    }
}

impl TreeKey for char {
    open spec fn ord(self) -> int {
        self as int
    }

    proof fn lemma_ord_injective(a: Self, b: Self) {
    }

    fn key_cmp(&self, other: &Self) -> (c: KeyOrdering) {
        let a = *self;
        let b = *other;
        if a < b {
            KeyOrdering::Less
        } else if a == b {
            KeyOrdering::Equal
        } else {
            KeyOrdering::Greater
        }
    }
}

} // verus!
