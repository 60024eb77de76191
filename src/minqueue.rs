use vstd::prelude::*;

verus! {

/// A stack entry: an item, and the smallest item from the bottom of its stack up to it.
#[derive(Clone, Copy, Debug, PartialEq, Eq, Structural)]
pub struct Slot {
    pub item: u64,
    pub min: u64,
}

/// Entry `k`'s `min` is the smallest item from the bottom of the stack up to it.
pub open spec fn min_ok(s: Seq<Slot>, k: int) -> bool {
    &&& exists|j: int| 0 <= j <= k && s[j].item == s[k].min
    &&& forall|j: int| 0 <= j <= k ==> s[k].min <= #[trigger] s[j].item
}

/// Every entry's `min` is right.
pub open spec fn running_min(s: Seq<Slot>) -> bool {
    forall|k: int| 0 <= k < s.len() ==> #[trigger] min_ok(s, k)
}

proof fn lemma_drop_keeps(s: Seq<Slot>)
    requires
        running_min(s),
        s.len() > 0,
    ensures
        running_min(s.drop_last()),
{
    let t = s.drop_last();
    assert forall|k: int| 0 <= k < t.len() implies #[trigger] min_ok(t, k) by {
        assert(min_ok(s, k));
        let j = choose|j: int| 0 <= j <= k && s[j].item == s[k].min;
        assert(t[j] == s[j]);
        assert forall|j2: int| 0 <= j2 <= k implies t[k].min <= #[trigger] t[j2].item by {
            assert(s[k].min <= s[j2].item);
        }
    }
}

pub open spec fn items(s: Seq<Slot>) -> Seq<u64> {
    s.map_values(|x: Slot| x.item)
}

/// A FIFO queue that also tells its smallest item, in amortized constant time: items go in
/// on one stack and come out of another, each entry remembering the minimum below it.
pub struct MinQueue {
    left: Vec<Slot>,
    right: Vec<Slot>,
}

impl View for MinQueue {
    type V = Seq<u64>;

    /// The items, front first.
    closed spec fn view(&self) -> Seq<u64> {
        items(self.right@).reverse() + items(self.left@)
    }
}

impl MinQueue {
    pub closed spec fn wf(&self) -> bool {
        running_min(self.left@) && running_min(self.right@)
    }

    /// An empty queue.
    pub fn new() -> (r: Self)
        ensures
            r.wf(),
            r@ == Seq::<u64>::empty(),
    {
        let r = MinQueue { left: Vec::new(), right: Vec::new() };
        assert(r@ =~= Seq::<u64>::empty());
        r
    }

    /// Number of items.
    pub fn len(&self) -> (r: usize)
        requires
            self@.len() <= usize::MAX,
        ensures
            r == self@.len(),
    {
        self.left.len() + self.right.len()
    }

    fn push_slot(stack: &mut Vec<Slot>, item: u64)
        requires
            running_min(old(stack)@),
        ensures
            running_min(final(stack)@),
            items(final(stack)@) == items(old(stack)@).push(item),
    {
        let n = stack.len();
        let m = if n == 0 {
            item
        } else {
            let below = stack[n - 1].min;
            if below < item { below } else { item }
        };
        let ghost before = stack@;
        stack.push(Slot { item, min: m });
        proof {
            let s = stack@;
            assert forall|k: int| 0 <= k < s.len() implies #[trigger] min_ok(s, k) by {
                if k < n {
                    assert(min_ok(before, k));
                    assert(s[k] == before[k]);
                    let j = choose|j: int| 0 <= j <= k && before[j].item == before[k].min;
                    assert(s[j].item == s[k].min);
                    assert forall|j2: int| 0 <= j2 <= k implies s[k].min <= #[trigger] s[j2].item by {
                        assert(before[k].min <= before[j2].item);
                    }
                } else if n == 0 {
                    assert(s[0].item == s[k].min);
                } else {
                    assert(min_ok(before, n - 1));
                    if before[n - 1].min < item {
                        let j = choose|j: int| 0 <= j <= n - 1 && before[j].item == before[n - 1].min;
                        assert(s[j].item == s[k].min);
                    } else {
                        assert(s[k].item == s[k].min);
                    }
                    assert forall|j: int| 0 <= j <= k implies s[k].min <= #[trigger] s[j].item by {
                        if j < n {
                            assert(before[n - 1].min <= before[j].item);
                        }
                    }
                }
            }
            assert(items(s) =~= items(before).push(item));
        }
    }

    /// Adds an item at the back.
    pub fn push_back(&mut self, elem: u64)
        requires
            old(self).wf(),
        ensures
            final(self).wf(),
            final(self)@ == old(self)@.push(elem),
    {
        Self::push_slot(&mut self.left, elem);
        proof {
            assert(self@ =~= old(self)@.push(elem));
        }
    }

    /// Takes the item at the front.
    pub fn pop_front(&mut self) -> (r: Option<u64>)
        requires
            old(self).wf(),
        ensures
            final(self).wf(),
            old(self)@.len() == 0 ==> r.is_none() && final(self)@ == old(self)@,
            old(self)@.len() > 0 ==> r == Some(old(self)@[0]) && final(self)@ == old(self)@.drop_first(),
    {
        let ghost q0 = self@;
        if self.right.len() == 0 {
            proof {
                assert(items(self.right@).reverse() =~= Seq::<u64>::empty());
                assert(q0 =~= items(self.left@));
            }
            while self.left.len() > 0
                invariant
                    running_min(self.left@),
                    running_min(self.right@),
                    items(self.left@) + items(self.right@).reverse() == q0,
                decreases self.left@.len(),
            {
                let ghost l = self.left@;
                let ghost rr = self.right@;
                let top = self.left.pop().unwrap();
                proof {
                    assert(l == self.left@.push(top));
                    assert(self.left@ == l.drop_last());
                    lemma_drop_keeps(l);
                }
                Self::push_slot(&mut self.right, top.item);
                proof {
                    assert(items(l) =~= items(self.left@).push(top.item));
                    assert(items(self.right@).reverse() =~= seq![top.item] + items(rr).reverse());
                    assert(items(self.left@) + items(self.right@).reverse() =~= items(l) + items(rr).reverse());
                }
            }
            proof {
                assert(items(self.left@) =~= Seq::<u64>::empty());
                assert(self@ =~= q0);
            }
        }
        if self.right.len() == 0 {
            proof {
                assert(self@ =~= Seq::<u64>::empty());
            }
            return None;
        }
        let ghost rr = self.right@;
        let top = self.right.pop().unwrap();
        proof {
            assert(rr == self.right@.push(top));
            assert(self.right@ == rr.drop_last());
            lemma_drop_keeps(rr);
            assert(items(rr) =~= items(self.right@).push(top.item));
            assert(items(rr).reverse() =~= seq![top.item] + items(self.right@).reverse());
            assert(q0 =~= seq![top.item] + self@);
            assert(q0.drop_first() =~= self@);
        }
        Some(top.item)
    }
    /// The item at the front, if any.
    pub fn peek_front(&self) -> (r: Option<u64>)
        requires
            self.wf(),
        ensures
            self@.len() == 0 ==> r.is_none(),
            self@.len() > 0 ==> r == Some(self@[0]),
    {
        let nr = self.right.len();
        if nr > 0 {
            proof {
                assert(self@[0] == items(self.right@).reverse()[0]);
            }
            Some(self.right[nr - 1].item)
        } else if self.left.len() > 0 {
            proof {
                assert(items(self.right@).reverse().len() == 0);
                assert(self@[0] == items(self.left@)[0]);
            }
            Some(self.left[0].item)
        } else {
            None
        }
    }

    /// The smallest item, if any.
    pub fn min(&self) -> (r: Option<u64>)
        requires
            self.wf(),
        ensures
            r.is_none() == (self@.len() == 0),
            r.is_some() ==> self@.contains(r.unwrap()) && forall|i: int| 0 <= i < self@.len() ==> r.unwrap() <= #[trigger] self@[i],
    {
        let nl = self.left.len();
        let nr = self.right.len();
        let ghost q = self@;
        proof {
            assert forall|i: int| 0 <= i < q.len() implies
                (i < nr ==> #[trigger] q[i] == self.right@[nr - 1 - i].item)
                && (i >= nr ==> q[i] == self.left@[i - nr].item) by {}
        }
        if nl == 0 && nr == 0 {
            return None;
        }
        let m = if nl == 0 {
            self.right[nr - 1].min
        } else if nr == 0 {
            self.left[nl - 1].min
        } else {
            let a = self.left[nl - 1].min;
            let b = self.right[nr - 1].min;
            if a < b { a } else { b }
        };
        proof {
            if nl > 0 {
                assert(min_ok(self.left@, nl - 1));
            }
            if nr > 0 {
                assert(min_ok(self.right@, nr - 1));
            }
            assert forall|i: int| 0 <= i < q.len() implies m <= #[trigger] q[i] by {
                if i < nr {
                    assert(self.right@[nr - 1].min <= self.right@[nr - 1 - i].item);
                } else {
                    assert(self.left@[nl - 1].min <= self.left@[i - nr].item);
                }
            }
            if nl > 0 && (nr == 0 || m == self.left@[nl - 1].min) {
                let j = choose|j: int| 0 <= j <= nl - 1 && self.left@[j].item == self.left@[nl - 1].min;
                assert(q[nr + j] == m);
            } else {
                let j = choose|j: int| 0 <= j <= nr - 1 && self.right@[j].item == self.right@[nr - 1].min;
                assert(q[nr - 1 - j] == m);
            }
        }
        Some(m)
    }
}

} // verus!
