//! Data elements and matrices of index sets keyed by pairs of elements.
use std::collections::HashSet;
use std::hash::Hash;

use vstd::prelude::*;

use crate::error::{ErrorKind, StreamError, StreamResult};
use crate::streams::traits::ConstBinParsible;

verus! {

broadcast use vstd::std_specs::hash::group_hash_axioms;

/// A data element; data (and images) are read and written one element at a time.
pub trait Elem: Copy + ConstBinParsible {
    /// Index of the element among all possible values of its type.
    spec fn spec_index(&self) -> nat;

    /// Amount of all different possible values of the element type.
    spec fn spec_num_values() -> nat;

    /// Gets the amount of all different possible values of the element type.
    fn num_values() -> (n: usize)
        ensures
            n == Self::spec_num_values(),
    ;

    /// Converts the element to an index (for an array, a matrix, ...).
    fn as_index(&self) -> (i: usize)
        ensures
            i == self.spec_index(),
    ;

    /// Indexes are below the amount of values, and distinct values have
    /// distinct indexes.
    proof fn lemma_index(a: Self, b: Self)
        ensures
            a.spec_index() < Self::spec_num_values(),
            a.spec_index() == b.spec_index() ==> a == b,
    ;
}

impl Elem for u8 {
    open spec fn spec_index(&self) -> nat {
        *self as nat
    }

    open spec fn spec_num_values() -> nat {
        256
    }

    fn num_values() -> (n: usize) {
        256
    }

    fn as_index(&self) -> (i: usize) {
        *self as usize
    }

    proof fn lemma_index(a: u8, b: u8) {
    }
}

impl Elem for u16 {
    open spec fn spec_index(&self) -> nat {
        *self as nat
    }

    open spec fn spec_num_values() -> nat {
        65536
    }

    fn num_values() -> (n: usize) {
        65536
    }

    fn as_index(&self) -> (i: usize) {
        *self as usize
    }

    proof fn lemma_index(a: u16, b: u16) {
    }
}

/// A slot in a matrix of index sets keyed by pairs of elements.
pub trait ElemIndexesMatrixSlot<I> {
    /// Indexes in the slot's set.
    spec fn indexes(&self) -> Set<I>;

    /// The slot's storage never fails.
    spec fn reliable(&self) -> bool;

    /// Gets the indexes in the slot's set (each once, in no particular order).
    fn iter(&self) -> (r: StreamResult<Vec<I>>)
        ensures
            r matches Ok(v) ==> v@.to_set() == self.indexes() && v@.no_duplicates(),
            self.reliable() ==> r is Ok,
    ;

    /// Checks whether the slot's set contains `index`.
    fn contains(&self, index: &I) -> (r: StreamResult<bool>)
        ensures
            r matches Ok(b) ==> b == self.indexes().contains(*index),
            self.reliable() ==> r is Ok,
    ;
}

/// A mutable slot in a matrix of index sets keyed by pairs of elements.
pub trait ElemIndexesMatrixSlotMut<I>: ElemIndexesMatrixSlot<I> {
    /// Inserts `index` into the slot's set.
    fn insert(&mut self, index: I) -> (r: StreamResult<()>)
        ensures
            r is Ok ==> final(self).indexes() == old(self).indexes().insert(index),
            old(self).reliable() ==> r is Ok && final(self).reliable(),
    ;
}

/// A matrix of index sets keyed by pairs of elements (row, column).
pub trait ElemIndexesMatrix<E: Elem, I> {
    /// Type of the matrix's slots.
    type Slot: ElemIndexesMatrixSlot<I>;

    /// Indexes in the slot at row `i` and column `j`.
    spec fn slot_indexes(&self, i: E, j: E) -> Set<I>;

    /// The matrix's storage never fails.
    spec fn reliable(&self) -> bool;

    /// Gets the slot at row `i` and column `j`.
    fn at(&self, i: E, j: E) -> (r: StreamResult<&Self::Slot>)
        ensures
            r matches Ok(s) ==> s.indexes() == self.slot_indexes(i, j),
            self.reliable() ==> (r matches Ok(s) && s.reliable()),
    ;

    /// Inserts `index` into the slot at row `i` and column `j`.
    fn insert_at(&mut self, i: E, j: E, index: I) -> (r: StreamResult<()>)
        ensures
            r is Ok ==> forall|a: E, b: E| #[trigger]
                final(self).slot_indexes(a, b) == if a == i && b == j {
                    old(self).slot_indexes(a, b).insert(index)
                } else {
                    old(self).slot_indexes(a, b)
                },
            old(self).reliable() ==> r is Ok && final(self).reliable(),
    ;
}

/// Slot of index sets backed by a hash set.
///
/// Index types are those whose hashing vstd models (such as the integer types).
pub struct RuntimeElemIndexesMatrixSlot<I: Eq + Copy + Hash> {
    indexes: HashSet<I>,
}

impl<I: Eq + Copy + Hash> RuntimeElemIndexesMatrixSlot<I> {
    #[verifier::type_invariant]
    spec fn inv(&self) -> bool {
        vstd::std_specs::hash::obeys_key_model::<I>()
    }

    /// Constructs an empty slot.
    pub fn new() -> (r: Self)
        requires
            vstd::std_specs::hash::obeys_key_model::<I>(),
        ensures
            r.indexes() == Set::<I>::empty(),
    {
        Self { indexes: HashSet::new() }
    }
}

impl<I: Eq + Copy + Hash> ElemIndexesMatrixSlot<I> for RuntimeElemIndexesMatrixSlot<I> {
    closed spec fn indexes(&self) -> Set<I> {
        self.indexes@
    }

    /// Memory does not fail.
    open spec fn reliable(&self) -> bool {
        true
    }

    fn iter(&self) -> (r: StreamResult<Vec<I>>)
        ensures
            r is Ok,
    {
        proof {
            use_type_invariant(self);
        }
        let mut res: Vec<I> = Vec::new();
        let iter0 = self.indexes.iter();
        let ghost keys = vstd::std_specs::iter::IteratorSpec::remaining(&iter0);
        proof {
            vstd::std_specs::hash::axiom_spec_hash_keys_iter(&self.indexes);
        }
        for x in it: iter0
            invariant
                res@.len() == it.index(),
                forall|k: int| 0 <= k < res@.len() ==> res@[k] == *it.seq()[k],
        {
            res.push(*x);
        }
        assert(res@ =~= keys.unref());
        Ok(res)
    }

    fn contains(&self, index: &I) -> (r: StreamResult<bool>)
        ensures
            r is Ok,
    {
        proof {
            use_type_invariant(self);
        }
        Ok(self.indexes.contains(index))
    }
}

impl<I: Eq + Copy + Hash> ElemIndexesMatrixSlotMut<I> for RuntimeElemIndexesMatrixSlot<I> {
    fn insert(&mut self, index: I) -> (r: StreamResult<()>)
        ensures
            r is Ok,
    {
        proof {
            use_type_invariant(&*self);
        }
        let mut set: HashSet<I> = HashSet::new();
        std::mem::swap(&mut set, &mut self.indexes);
        set.insert(index);
        self.indexes = set;
        Ok(())
    }
}

/// Matrix of index sets backed by hash sets; it has one row and one column
/// per possible element value.
pub struct RuntimeElemIndexesMatrix<E: Elem, I: Eq + Copy + Hash> {
    matrix: Vec<Vec<RuntimeElemIndexesMatrixSlot<I>>>,
    phantom: core::marker::PhantomData<E>,
}

impl<E: Elem, I: Eq + Copy + Hash> RuntimeElemIndexesMatrix<E, I> {
    /// The matrix has one row and one column per possible element value.
    pub closed spec fn wf(&self) -> bool {
        &&& self.matrix@.len() == E::spec_num_values()
        &&& forall|r: int|
            0 <= r < self.matrix@.len() ==> #[trigger] self.matrix@[r]@.len() == E::spec_num_values()
    }

    /// Constructs a matrix whose slots are all empty.
    pub fn new() -> (r: Self)
        requires
            vstd::std_specs::hash::obeys_key_model::<I>(),
        ensures
            r.wf(),
            forall|a: E, b: E| #[trigger] r.slot_indexes(a, b) == Set::<I>::empty(),
    {
        let n = E::num_values();
        let mut matrix: Vec<Vec<RuntimeElemIndexesMatrixSlot<I>>> = Vec::new();
        let mut r: usize = 0;
        while r < n
            invariant
                n == E::spec_num_values(),
                vstd::std_specs::hash::obeys_key_model::<I>(),
                r <= n,
                matrix@.len() == r,
                forall|x: int| 0 <= x < r ==> #[trigger] matrix@[x]@.len() == n,
                forall|x: int, y: int|
                    0 <= x < r && 0 <= y < n ==> (#[trigger] matrix@[x]@[y]).indexes() == Set::<I>::empty(),
            decreases n - r,
        {
            let mut row: Vec<RuntimeElemIndexesMatrixSlot<I>> = Vec::new();
            let mut c: usize = 0;
            while c < n
                invariant
                    n == E::spec_num_values(),
                    vstd::std_specs::hash::obeys_key_model::<I>(),
                    c <= n,
                    row@.len() == c,
                    forall|y: int| 0 <= y < c ==> (#[trigger] row@[y]).indexes() == Set::<I>::empty(),
                decreases n - c,
            {
                row.push(RuntimeElemIndexesMatrixSlot::new());
                c = c + 1;
            }
            matrix.push(row);
            r = r + 1;
        }
        let res = Self { matrix, phantom: core::marker::PhantomData };
        proof {
            assert forall|a: E, b: E| #[trigger] res.slot_indexes(a, b) == Set::<I>::empty() by {
                E::lemma_index(a, b);
                E::lemma_index(b, a);
            }
        }
        res
    }
}

impl<E: Elem, I: Eq + Copy + Hash> ElemIndexesMatrix<E, I> for RuntimeElemIndexesMatrix<E, I> {
    type Slot = RuntimeElemIndexesMatrixSlot<I>;

    /// A matrix of the right dimensions never fails.
    open spec fn reliable(&self) -> bool {
        self.wf()
    }

    closed spec fn slot_indexes(&self, i: E, j: E) -> Set<I> {
        let a = i.spec_index() as int;
        let b = j.spec_index() as int;
        if a < self.matrix@.len() && b < self.matrix@[a]@.len() {
            self.matrix@[a]@[b].indexes()
        } else {
            Set::empty()
        }
    }

    /// Fails with `InvalidInput` when the matrix is not one of the right dimensions.
    fn at(&self, i: E, j: E) -> (r: StreamResult<&RuntimeElemIndexesMatrixSlot<I>>)
        ensures
            self.wf() ==> r is Ok,
    {
        proof {
            E::lemma_index(i, j);
            E::lemma_index(j, i);
        }
        let a = i.as_index();
        let b = j.as_index();
        if a >= self.matrix.len() || b >= self.matrix[a].len() {
            return Err(StreamError::new(ErrorKind::InvalidInput));
        }
        Ok(&self.matrix[a][b])
    }

    /// Fails with `InvalidInput` (changing nothing) when the matrix is not one
    /// of the right dimensions.
    fn insert_at(&mut self, i: E, j: E, index: I) -> (r: StreamResult<()>)
        ensures
            old(self).wf() ==> r is Ok && final(self).wf(),
            r is Err ==> *final(self) == *old(self),
    {
        proof {
            E::lemma_index(i, j);
            E::lemma_index(j, i);
        }
        let a = i.as_index();
        let b = j.as_index();
        if a >= self.matrix.len() || b >= self.matrix[a].len() {
            return Err(StreamError::new(ErrorKind::InvalidInput));
        }
        let mut row: Vec<RuntimeElemIndexesMatrixSlot<I>> = Vec::new();
        self.matrix.set_and_swap(a, &mut row);
        let ghost row0 = row@;
        let current = &row[b];
        proof {
            use_type_invariant(current);
        }
        let mut slot = RuntimeElemIndexesMatrixSlot::new();
        row.set_and_swap(b, &mut slot);
        let ins = slot.insert(index);
        assert(slot.indexes() == row0[b as int].indexes().insert(index));
        row.set_and_swap(b, &mut slot);
        self.matrix.set_and_swap(a, &mut row);
        proof {
            assert(self.matrix@[a as int]@ == row0.update(b as int, self.matrix@[a as int]@[b as int]));
            assert(row0 == old(self).matrix@[a as int]@);
            assert forall|x: int, y: int|
                0 <= x < self.matrix@.len() && 0 <= y < self.matrix@[x]@.len() implies
                (#[trigger] self.matrix@[x]@[y]).indexes() == if x == a && y == b {
                    old(self).matrix@[x]@[y].indexes().insert(index)
                } else {
                    old(self).matrix@[x]@[y].indexes()
                } by {}
            assert forall|x: E, y: E| #[trigger] self.slot_indexes(x, y) == if x == i && y == j {
                old(self).slot_indexes(x, y).insert(index)
            } else {
                old(self).slot_indexes(x, y)
            } by {
                E::lemma_index(x, i);
                E::lemma_index(y, j);
                E::lemma_index(i, x);
                E::lemma_index(j, y);
            }
        }
        Ok(())
    }
}

} // verus!
