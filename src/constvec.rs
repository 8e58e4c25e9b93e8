use vstd::multiset::Multiset;
use vstd::prelude::*;

verus! {

/// The sequence after pushing `x` onto `s` with room for `cap` elements:
/// a push onto a full sequence leaves it as it was.
pub open spec fn pushed<T>(s: Seq<T>, cap: nat, x: T) -> Seq<T> {
    if s.len() < cap {
        s.push(x)
    } else {
        s
    }
}

/// The sequence after removing index `i` by moving the last element into it.
pub open spec fn swap_removed<T>(s: Seq<T>, i: int) -> Seq<T> {
    s.update(i, s.last()).drop_last()
}

/// One mutating call on a `ConstVec`, as a value.
pub enum VecOp<T> {
    Push(T),
    Pop,
    SwapPop(usize),
    Clear,
}

/// The effect of one call on the held sequence `s` with room for `cap`
/// elements: the new sequence, the elements the call handed back to the
/// caller, those it dropped itself, and those it took in.
pub open spec fn apply_op<T>(s: Seq<T>, cap: nat, op: VecOp<T>) -> (Seq<T>, Multiset<T>, Multiset<T>, Multiset<T>) {
    match op {
        VecOp::Push(x) => (
            pushed(s, cap, x),
            Multiset::empty(),
            Multiset::empty(),
            if s.len() < cap {
                Multiset::singleton(x)
            } else {
                Multiset::empty()
            },
        ),
        VecOp::Pop => if s.len() > 0 {
            (s.drop_last(), Multiset::singleton(s.last()), Multiset::empty(), Multiset::empty())
        } else {
            (s, Multiset::empty(), Multiset::empty(), Multiset::empty())
        },
        VecOp::SwapPop(i) => if i < s.len() {
            (
                swap_removed(s, i as int),
                Multiset::singleton(s[i as int]),
                Multiset::empty(),
                Multiset::empty(),
            )
        } else {
            (s, Multiset::empty(), Multiset::empty(), Multiset::empty())
        },
        VecOp::Clear => (Seq::empty(), Multiset::empty(), s.to_multiset(), Multiset::empty()),
    }
}

/// The effect of a series of calls, in order: the final sequence and all
/// elements handed back, dropped and taken in.
pub open spec fn run_ops<T>(s: Seq<T>, cap: nat, ops: Seq<VecOp<T>>) -> (Seq<T>, Multiset<T>, Multiset<T>, Multiset<T>)
    decreases ops.len(),
{
    if ops.len() == 0 {
        (s, Multiset::empty(), Multiset::empty(), Multiset::empty())
    } else {
        let (h, t, d, a) = run_ops(s, cap, ops.drop_last());
        let (h2, t2, d2, a2) = apply_op(h, cap, ops.last());
        (h2, t.add(t2), d.add(d2), a.add(a2))
    }
}

proof fn lemma_op_accounted<T>(s: Seq<T>, cap: nat, op: VecOp<T>)
    requires
        s.len() <= cap,
    ensures
        ({
            let (held, taken, dropped, accepted) = apply_op(s, cap, op);
            &&& held.len() <= cap
            &&& held.to_multiset().add(taken).add(dropped) =~= s.to_multiset().add(accepted)
        }),
{
    broadcast use vstd::seq_lib::group_to_multiset_ensures, vstd::multiset::group_multiset_axioms;

    let m = s.to_multiset();
    let none = Multiset::<T>::empty();
    let (held, taken, dropped, accepted) = apply_op(s, cap, op);
    assert(m.add(none).add(none) =~= m.add(none));
    match op {
        VecOp::Push(x) => {
            if s.len() < cap {
                assert(s.push(x).to_multiset() =~= m.insert(x));
                assert(m.insert(x).add(none).add(none) =~= m.add(Multiset::singleton(x)));
            }
        },
        VecOp::Pop => {
            if s.len() > 0 {
                let last = s[s.len() - 1];
                assert(s.drop_last().push(last) =~= s);
                assert(s.drop_last().to_multiset().insert(last) =~= m);
                assert(s.drop_last().to_multiset().add(Multiset::singleton(last)).add(none) =~= m.add(
                    none,
                ));
            }
        },
        VecOp::SwapPop(i) => {
            if i < s.len() {
                let last = s[s.len() - 1];
                let u = s.update(i as int, last);
                assert(u.len() == s.len());
                assert(u.drop_last().push(last) =~= u);
                assert(u.to_multiset() =~= m.insert(last).remove(s[i as int]));
                assert(u.drop_last().to_multiset().insert(last) =~= u.to_multiset());
                assert(m.count(s[i as int]) > 0);
                let lhs = u.drop_last().to_multiset().add(Multiset::singleton(s[i as int])).add(none);
                assert forall|v: T| lhs.count(v) == m.add(none).count(v) by {
                    assert(u.drop_last().to_multiset().insert(last).count(v) == u.to_multiset().count(
                        v,
                    ));
                    assert(u.to_multiset().count(v) == m.insert(last).remove(s[i as int]).count(v));
                }
                assert(lhs =~= m.add(none));
            }
        },
        VecOp::Clear => {
            assert(Seq::<T>::empty().to_multiset() =~= none) by {
                assert(Seq::<T>::empty().to_multiset().len() == 0);
            }
            assert(none.add(none).add(m) =~= m.add(none));
        },
    }
}

/// Every element a `ConstVec` ever took in is, after any series of calls,
/// in exactly one place: still held, handed back to a caller, or dropped by
/// the vector. So dropping the vector at the end runs the destructor of
/// exactly the elements taken in and not handed back, each once. The vector
/// never holds more than its capacity.
pub proof fn lemma_elements_accounted<T>(s: Seq<T>, cap: nat, ops: Seq<VecOp<T>>)
    requires
        s.len() <= cap,
    ensures
        ({
            let (held, taken, dropped, accepted) = run_ops(s, cap, ops);
            &&& held.len() <= cap
            &&& held.to_multiset().add(taken).add(dropped) == s.to_multiset().add(accepted)
            &&& held.len() + taken.len() + dropped.len() == s.len() + accepted.len()
        }),
    decreases ops.len(),
{
    broadcast use vstd::seq_lib::group_to_multiset_ensures, vstd::multiset::group_multiset_axioms;

    if ops.len() > 0 {
        lemma_elements_accounted(s, cap, ops.drop_last());
        let (h, t, d, a) = run_ops(s, cap, ops.drop_last());
        lemma_op_accounted(h, cap, ops.last());
        let (h2, t2, d2, a2) = apply_op(h, cap, ops.last());
        assert(h.to_multiset().add(t).add(d) == s.to_multiset().add(a));
        assert(h2.to_multiset().add(t2).add(d2) =~= h.to_multiset().add(a2));
        let lhs = h2.to_multiset().add(t.add(t2)).add(d.add(d2));
        let rhs = s.to_multiset().add(a.add(a2));
        assert forall|v: T| lhs.count(v) == rhs.count(v) by {
            assert(h.to_multiset().add(t).add(d).count(v) == s.to_multiset().add(a).count(v));
            assert(h2.to_multiset().add(t2).add(d2).count(v) == h.to_multiset().add(a2).count(v));
        }
        assert(lhs =~= rhs);
    } else {
        assert(s.to_multiset().add(Multiset::empty()).add(Multiset::empty()) =~= s.to_multiset().add(
            Multiset::empty(),
        ));
    }
}

/// A push onto a full vector is refused: nothing is taken in and the held
/// elements stay as they were.
pub proof fn lemma_full_push_refused<T>(s: Seq<T>, cap: nat, x: T)
    requires
        s.len() >= cap,
    ensures
        apply_op(s, cap, VecOp::Push(x)) == (
            s,
            Multiset::<T>::empty(),
            Multiset::<T>::empty(),
            Multiset::<T>::empty(),
        ),
{
}

/// A vector that holds at most `S` elements and never grows past that.
///
/// Its view is the sequence of the elements it holds, in index order.
pub struct ConstVec<T, const S: usize> {
    items: Vec<T>,
}

impl<T, const S: usize> View for ConstVec<T, S> {
    type V = Seq<T>;

    closed spec fn view(&self) -> Seq<T> {
        self.items@
    }
}

impl<T, const S: usize> ConstVec<T, S> {
    pub fn new() -> (r: Self)
        ensures
            r@ == Seq::<T>::empty(),
    {
        ConstVec { items: Vec::with_capacity(S) }
    }

    /// The current number of elements.
    pub fn len(&self) -> (r: usize)
        ensures
            r == self@.len(),
    {
        self.items.len()
    }

    pub fn is_empty(&self) -> (r: bool)
        ensures
            r == (self@.len() == 0),
    {
        self.len() == 0
    }

    pub fn is_full(&self) -> (r: bool)
        ensures
            r == (self@.len() >= S),
    {
        self.len() >= S
    }

    /// The held elements as a slice.
    pub fn as_slice(&self) -> (r: &[T])
        ensures
            r@ == self@,
    {
        self.items.as_slice()
    }

    /// Appends `item` when there is room; a full vector rejects it and stays
    /// as it was.
    pub fn push(&mut self, item: T)
        ensures
            final(self)@ == pushed(old(self)@, S as nat, item),
    {
        if !self.is_full() {
            self.items.push(item);
        }
    }

    /// Removes and returns the last element, or `None` when empty.
    pub fn pop(&mut self) -> (r: Option<T>)
        ensures
            old(self)@.len() == 0 ==> r is None && final(self)@ == old(self)@,
            old(self)@.len() > 0 ==> r == Some(old(self)@.last()) && final(self)@
                == old(self)@.drop_last(),
    {
        self.items.pop()
    }

    /// Removes and returns the element at `index`, moving the last element
    /// into its place; `None` when `index` is out of bounds.
    pub fn swap_pop(&mut self, index: usize) -> (r: Option<T>)
        ensures
            index >= old(self)@.len() ==> r is None && final(self)@ == old(self)@,
            index < old(self)@.len() ==> r == Some(old(self)@[index as int]) && final(self)@
                == swap_removed(old(self)@, index as int),
    {
        if index >= self.items.len() {
            return None;
        }
        Some(self.items.swap_remove(index))
    }

    /// Replaces the element at `index` with `value` and returns the former
    /// element; `None` (and `value` dropped) when `index` is out of bounds.
    pub fn set(&mut self, index: usize, value: T) -> (r: Option<T>)
        ensures
            index >= old(self)@.len() ==> r is None && final(self)@ == old(self)@,
            index < old(self)@.len() ==> r == Some(old(self)@[index as int]) && final(self)@
                == old(self)@.update(index as int, value),
    {
        if index >= self.items.len() {
            return None;
        }
        self.items.push(value);
        let former = self.items.swap_remove(index);
        proof {
            assert(self.items@ =~= old(self)@.update(index as int, value));
        }
        Some(former)
    }

    /// The element at `index`, or `None` when out of bounds.
    pub fn get(&self, index: usize) -> (r: Option<&T>)
        ensures
            index >= self@.len() ==> r is None,
            index < self@.len() ==> r == Some(&self@[index as int]),
    {
        if index >= self.items.len() {
            return None;
        }
        Some(&self.items[index])
    }

    /// A mutable borrow of the element at `index`, or `None` when out of
    /// bounds; what is written through it lands at `index`.
    pub fn get_mut(&mut self, index: usize) -> (r: Option<&mut T>)
        ensures
            index >= old(self)@.len() ==> r is None && final(self)@ == old(self)@,
            index < old(self)@.len() ==> r is Some && *r.unwrap() == old(self)@[index as int]
                && final(self)@ == old(self)@.update(index as int, *final(r.unwrap())),
    {
        if index >= self.items.len() {
            return None;
        }
        Some(&mut self.items[index])
    }

    /// The held elements as a mutable slice of the same length.
    pub fn as_mut_slice(&mut self) -> (r: &mut [T])
        ensures
            r@ == old(self)@,
            final(self)@ == final(r)@,
    {
        self.items.as_mut_slice()
    }

    /// Drops every held element, leaving the vector empty.
    pub fn clear(&mut self)
        ensures
            final(self)@ == Seq::<T>::empty(),
    {
        self.items.clear();
    }
}

impl<T, const S: usize> core::ops::Index<usize> for ConstVec<T, S> {
    type Output = T;

    fn index(&self, index: usize) -> (r: &T) {
        &self.items[index]
    }
}

impl<T, const S: usize> vstd::std_specs::core::IndexSpecImpl<usize> for ConstVec<T, S> {
    open spec fn index_req(&self, index: &usize) -> bool {
        *index < self@.len()
    }
}

} // verus!
