use vstd::prelude::*;

verus! {

/// A cursor over a vector of items with one-item look-ahead: taking a
/// matching prefix out of it never consumes the first non-matching item,
/// which stays available to later reads.
pub struct AdvanPeekIter<T> {
    elems: Vec<T>,
    pos: usize,
}

/// The matching prefix taken out of an `AdvanPeekIter`.
pub struct TakeWhile<T> {
    items: Vec<T>,
}

impl<T> View for AdvanPeekIter<T> {
    type V = Seq<T>;

    /// The items not yet consumed.
    closed spec fn view(&self) -> Seq<T> {
        self.elems@.skip(self.pos as int)
    }
}

impl<T> View for TakeWhile<T> {
    type V = Seq<T>;

    /// The items of the prefix, in order.
    closed spec fn view(&self) -> Seq<T> {
        self.items@
    }
}

impl<T> AdvanPeekIter<T> {
    /// The cursor never points past the end of its items.
    pub closed spec fn wf(&self) -> bool {
        self.pos <= self.elems@.len()
    }

    /// Starts a cursor over all of `inner`.
    pub fn new(inner: Vec<T>) -> (r: Self)
        ensures
            r.wf(),
            r@ == inner@,
    {
        let r = AdvanPeekIter { elems: inner, pos: 0 };
        proof {
            assert(r.elems@.skip(0) =~= r.elems@);
        }
        r
    }

    /// Takes the longest prefix of the remaining items that `predicate`
    /// accepts, consuming exactly those items: unlike a plain take-while,
    /// the first rejected item is looked at but not consumed.
    pub fn intell_take_while<F: Fn(T) -> bool>(&mut self, predicate: F) -> (r: TakeWhile<T>) where
        T: Copy,

        requires
            old(self).wf(),
            forall|t: T| #[trigger] call_requires(predicate, (t,)),
        ensures
            final(self).wf(),
            exists|k: int|
                {
                    &&& 0 <= k <= old(self)@.len()
                    &&& r@ == old(self)@.take(k)
                    &&& final(self)@ == old(self)@.skip(k)
                    &&& (forall|j: int|
                        0 <= j < k ==> call_ensures(predicate, (#[trigger] old(self)@[j],), true))
                    &&& (k < old(self)@.len() ==> call_ensures(
                        predicate,
                        (old(self)@[k],),
                        false,
                    ))
                },
    {
        let ghost start = self.pos as int;
        let ghost whole = self.elems@;
        let mut items: Vec<T> = Vec::new();
        loop
            invariant
                0 <= start <= self.pos <= self.elems@.len(),
                self.elems@ == whole,
                old(self)@ == whole.skip(start),
                items@ =~= whole.skip(start).take(self.pos - start),
                forall|j: int|
                    start <= j < self.pos ==> call_ensures(predicate, (#[trigger] whole[j],), true),
                forall|t: T| #[trigger] call_requires(predicate, (t,)),
            decreases self.elems@.len() - self.pos,
        {
            let ghost k = self.pos - start;
            if self.pos >= self.elems.len() {
                proof {
                    assert(self@ =~= whole.skip(start).skip(k));
                    assert forall|j: int| 0 <= j < k implies call_ensures(
                        predicate,
                        (#[trigger] old(self)@[j],),
                        true,
                    ) by {
                        assert(old(self)@[j] == whole[start + j]);
                    }
                }
                return TakeWhile { items };
            }
            let x = self.elems[self.pos];
            if !predicate(x) {
                proof {
                    assert(old(self)@[k] == whole[self.pos as int]);
                    assert(self@ =~= whole.skip(start).skip(k));
                    assert forall|j: int| 0 <= j < k implies call_ensures(
                        predicate,
                        (#[trigger] old(self)@[j],),
                        true,
                    ) by {
                        assert(old(self)@[j] == whole[start + j]);
                    }
                }
                return TakeWhile { items };
            }
            items.push(x);
            self.pos = self.pos + 1;
            proof {
                assert(whole.skip(start).take(self.pos - start) =~= whole.skip(start).take(
                    self.pos - 1 - start,
                ).push(whole[self.pos - 1]));
            }
        }
    }

    /// Consumes the cursor and counts the items that were left.
    pub fn count(self) -> (r: usize)
        requires
            self.wf(),
        ensures
            r == self@.len(),
    {
        self.elems.len() - self.pos
    }
}

impl<T> TakeWhile<T> {
    /// Consumes the prefix and counts its items.
    pub fn count(self) -> (r: usize)
        ensures
            r == self@.len(),
    {
        self.items.len()
    }
}

} // verus!
