use vstd::prelude::*;
use vstd::std_specs::cmp::PartialEqSpec;

verus! {

// The set semantics over a kept insertion order: an element equal to one
// already present is not inserted again.  Meaningful wherever the element
// type's equality obeys its specification.
pub open spec fn spec_set_contains<T: PartialEq>(s: Seq<T>, t: T) -> bool {
    exists|k: int| 0 <= k < s.len() && (#[trigger] s[k]).eq_spec(&t)
}

pub open spec fn spec_set_insert<T: PartialEq>(s: Seq<T>, t: T) -> Seq<T> {
    if spec_set_contains(s, t) {
        s
    } else {
        s.push(t)
    }
}

pub open spec fn spec_set_insert_all<T: PartialEq>(s: Seq<T>, ts: Seq<T>) -> Seq<T>
    decreases ts.len(),
{
    if ts.len() == 0 {
        s
    } else {
        spec_set_insert_all(spec_set_insert(s, ts[0]), ts.drop_first())
    }
}

/// An insertion-ordered collection that drops duplicates by equality.
#[derive(Debug, Clone, Default)]
pub struct DedupSet<T: Eq> {
    items: Vec<T>,
}

impl<T: Eq> View for DedupSet<T> {
    type V = Seq<T>;

    closed spec fn view(&self) -> Seq<T> {
        self.items@
    }
}

impl<T: Eq> DedupSet<T> {
    pub fn new() -> (r: DedupSet<T>)
        ensures
            r@ == Seq::<T>::empty(),
    {
        DedupSet { items: Vec::new() }
    }

    /// Inserts a new element; an element already present is kept once, and
    /// the result says whether the element was new.
    pub fn insert(&mut self, t: T) -> (r: bool)
        ensures
            T::obeys_eq_spec() ==> {
                &&& r == !spec_set_contains(old(self)@, t)
                &&& final(self)@ == spec_set_insert(old(self)@, t)
            },
    {
        let n = self.items.len();
        let mut i: usize = 0;
        while i < n
            invariant
                i <= n,
                n == self.items@.len(),
                T::obeys_eq_spec() ==> forall|k: int|
                    0 <= k < i ==> !(#[trigger] self.items@[k]).eq_spec(&t),
            decreases n - i,
        {
            if self.items[i].eq(&t) {
                return false;
            }
            i = i + 1;
        }
        self.items.push(t);
        true
    }

    /// Inserts each of the given elements in order.
    pub fn insert_all(&mut self, ts: Vec<T>)
        ensures
            T::obeys_eq_spec() ==> final(self)@ == spec_set_insert_all(old(self)@, ts@),
    {
        let mut remaining = ts;
        proof {
            assert(remaining@.skip(0) =~= remaining@);
        }
        while remaining.len() > 0
            invariant
                T::obeys_eq_spec() ==> spec_set_insert_all(self@, remaining@)
                    == spec_set_insert_all(old(self)@, ts@),
            decreases remaining@.len(),
        {
            let ghost pre = remaining@;
            let t = remaining.remove(0);
            proof {
                assert(remaining@ =~= pre.drop_first());
            }
            self.insert(t);
        }
    }

    /// The elements, in insertion order.
    pub fn as_slice(&self) -> (r: &[T])
        ensures
            r@ == self@,
    {
        self.items.as_slice()
    }
}

} // verus!
