//! Values a cluster can agree on.
use vstd::prelude::*;

verus! {

/// A value that can be proposed, copied between nodes and compared.
///
/// Two values are the same value exactly when their views are equal.
pub trait Value: View + Sized {
    /// Returns a second copy of this value.
    fn copied(&self) -> (copy: Self)
        ensures
            copy@ == self@,
    ;

    /// Whether two values are the same value.
    fn same(&self, other: &Self) -> (equal: bool)
        ensures
            equal == (self@ == other@),
    ;
}

/// The mathematical value that a value stands for.
pub type Model<V> = <V as View>::V;

impl Value for u64 {
    fn copied(&self) -> (copy: Self) {
        *self
    }

    fn same(&self, other: &Self) -> (equal: bool) {
        *self == *other
    }
}

impl Value for u32 {
    fn copied(&self) -> (copy: Self) {
        *self
    }

    fn same(&self, other: &Self) -> (equal: bool) {
        *self == *other
    }
}

impl Value for String {
    fn copied(&self) -> (copy: Self) {
        self.clone()
    }

    fn same(&self, other: &Self) -> (equal: bool) {
        *self == *other
    }
}

impl Value for Vec<u8> {
    fn copied(&self) -> (copy: Self) {
        let mut copy: Vec<u8> = Vec::new();
        let mut i: usize = 0;
        while i < self.len()
            invariant
                i <= self.len(),
                copy@ == self@.take(i as int),
            decreases self.len() - i,
        {
            copy.push(self[i]);
            i += 1;
        }
        assert(self@.take(i as int) =~= self@);
        copy
    }

    fn same(&self, other: &Self) -> (equal: bool) {
        if self.len() != other.len() {
            return false;
        }
        let mut i: usize = 0;
        while i < self.len()
            invariant
                i <= self.len(),
                self.len() == other.len(),
                forall|j: int| 0 <= j < i ==> self[j] == other[j],
            decreases self.len() - i,
        {
            if self[i] != other[i] {
                return false;
            }
            i += 1;
        }
        assert(self@ =~= other@);
        true
    }
}

/// The view of what an option holds.
pub open spec fn opt<V: View>(value: Option<V>) -> Option<V::V> {
    match value {
        Some(v) => Some(v@),
        None => None,
    }
}

/// The views of a list of values.
pub open spec fn views<V: View>(values: Seq<V>) -> Seq<V::V> {
    values.map_values(|v: V| v@)
}

} // verus!
