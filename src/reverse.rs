//! Collecting a sequence of items in reverse order.
use vstd::prelude::*;

verus! {

/// A collection that can be built from items given in reverse order.
pub trait FromIteratorRev<T>: Sized {
    /// The items of the collection, in order.
    spec fn rev_items(&self) -> Seq<T>;

    /// Builds the collection holding `items` last to first.
    fn from_iter_rev(items: Vec<T>) -> (r: Self)
        ensures
            r.rev_items() == items@.reverse(),
    ;
}

impl<T> FromIteratorRev<T> for Vec<T> {
    open spec fn rev_items(&self) -> Seq<T> {
        self@
    }

    fn from_iter_rev(items: Vec<T>) -> (r: Vec<T>) {
        let mut rest = items;
        let mut out: Vec<T> = Vec::new();
        while rest.len() > 0
            invariant
                out@ + rest@.reverse() == items@.reverse(),
            decreases rest.len(),
        {
            let ghost before = rest@;
            let last = rest.pop().unwrap();
            proof {
                assert(before == rest@.push(last));
                assert(before.reverse() =~= seq![last] + rest@.reverse());
            }
            out.push(last);
            assert(out@ + rest@.reverse() =~= items@.reverse());
        }
        assert(rest@.reverse() =~= Seq::<T>::empty());
        assert(out@ =~= items@.reverse());
        out
    }
}

/// A source of items that can be collected last to first.
pub trait CollectRev<T>: Sized {
    /// The items of the source, in order.
    spec fn source_items(&self) -> Seq<T>;

    /// Collects the items of `self` into a `B`, last item first.
    fn collect_rev<B: FromIteratorRev<T>>(self) -> (r: B)
        ensures
            r.rev_items() == self.source_items().reverse(),
    ;
}

impl<T> CollectRev<T> for Vec<T> {
    open spec fn source_items(&self) -> Seq<T> {
        self@
    }

    fn collect_rev<B: FromIteratorRev<T>>(self) -> (r: B) {
        B::from_iter_rev(self)
    }
}

} // verus!
