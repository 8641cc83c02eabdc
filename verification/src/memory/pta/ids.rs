//! Short lists of numbers, which mostly hold a few.

use crate::collections::{list_at, KeyedMap};
use super::loc::with_item;
use smallvec::SmallVec;
use vstd::prelude::*;

verus! {

/// A list of numbers that keeps the first few in place: a `SmallVec` of
/// `smallvec`.
#[verifier::external_body]
pub struct IdVec {
    items: SmallVec<[usize; 4]>,
}

/// The numbers of a list, first to last.
pub uninterp spec fn id_items(v: IdVec) -> Seq<usize>;

impl View for IdVec {
    type V = Seq<usize>;

    open spec fn view(&self) -> Seq<usize> {
        id_items(*self)
    }
}

/// `SmallVec::new` of `smallvec` builds an empty list.
#[verifier::external_body]
fn small_new() -> (v: IdVec)
    ensures
        id_items(v) == Seq::<usize>::empty(),
{
    IdVec { items: SmallVec::new() }
}

/// `SmallVec::push` of `smallvec` appends one item.
#[verifier::external_body]
fn small_push(v: &mut IdVec, x: usize)
    ensures
        id_items(*final(v)) == id_items(*old(v)).push(x),
{
    v.items.push(x);
}

/// `SmallVec::as_slice` of `smallvec` is the whole list.
#[verifier::external_body]
fn small_slice(v: &IdVec) -> (r: &[usize])
    ensures
        r@ == id_items(*v),
{
    v.items.as_slice()
}

impl IdVec {
    /// The empty list.
    pub fn new() -> (v: Self)
        ensures
            v@ == Seq::<usize>::empty(),
    {
        small_new()
    }

    /// Appends a number.
    pub fn push(&mut self, x: usize)
        ensures
            final(self)@ == old(self)@.push(x),
    {
        small_push(self, x)
    }

    /// The numbers, first to last.
    pub fn as_slice(&self) -> (r: &[usize])
        ensures
            r@ == self@,
    {
        small_slice(self)
    }

    /// Whether a number is in the list.
    pub fn contains(&self, x: usize) -> (b: bool)
        ensures
            b == self@.contains(x),
    {
        let items = self.as_slice();
        let mut i: usize = 0;
        while i < items.len()
            invariant
                i <= items@.len(),
                items@ == self@,
                forall|j: int| 0 <= j < i ==> items@[j] != x,
            decreases items@.len() - i,
        {
            if items[i] == x {
                assert(self@[i as int] == x);
                return true;
            }
            i = i + 1;
        }
        false
    }

    /// Appends a number, unless it is in the list.
    pub fn add_new(&mut self, x: usize)
        ensures
            final(self)@ == with_item(old(self)@, x),
    {
        if !self.contains(x) {
            self.push(x);
        }
    }

    /// The numbers in a vector.
    pub fn to_vec(&self) -> (r: Vec<usize>)
        ensures
            r@ == self@,
    {
        let items = self.as_slice();
        let mut r: Vec<usize> = Vec::new();
        let mut i: usize = 0;
        while i < items.len()
            invariant
                i <= items@.len(),
                r@ == items@.take(i as int),
            decreases items@.len() - i,
        {
            r.push(items[i]);
            i = i + 1;
            proof {
                assert(r@ =~= items@.take(i as int));
            }
        }
        proof {
            assert(items@.take(i as int) =~= items@);
        }
        r
    }
}

/// The lists of a map of short lists.
pub open spec fn id_lists(m: Map<usize, IdVec>) -> Map<usize, Seq<usize>> {
    m.map_values(|v: IdVec| v@)
}

/// The lists with `x` in the one at `k`.
pub open spec fn with_id(m: Map<usize, Seq<usize>>, k: usize, x: usize) -> Map<usize, Seq<usize>> {
    m.insert(k, with_item(list_at(m, k), x))
}

/// Puts `x` into the list at `k`, unless it is there.
pub fn add_id(m: &mut KeyedMap<usize, IdVec>, k: usize, x: usize)
    requires
        old(m).wf(),
    ensures
        final(m).wf(),
        id_lists(final(m)@) == with_id(id_lists(old(m)@), k, x),
{
    let ghost before = m@;
    let mut list = IdVec::new();
    match m.get(&k) {
        Some(v) => {
            let items = v.as_slice();
            let mut i: usize = 0;
            proof {
                assert(list@ =~= items@.take(0));
            }
            while i < items.len()
                invariant
                    i <= items@.len(),
                    list@ == items@.take(i as int),
                decreases items@.len() - i,
            {
                list.push(items[i]);
                i = i + 1;
                proof {
                    assert(list@ =~= items@.take(i as int));
                }
            }
            proof {
                assert(items@.take(i as int) =~= items@);
                assert(id_lists(before)[k] == items@);
            }
        },
        None => {},
    }
    proof {
        assert(list@ =~= list_at(id_lists(before), k));
    }
    list.add_new(x);
    m.insert(k, list);
    proof {
        assert(id_lists(m@) =~= with_id(id_lists(before), k, x));
    }
}

} // verus!
