//! Free list of block addresses for one size class.
//!
//! The list stores plain integer addresses; the head of the list is the most
//! recently pushed address.  In the view, the head is the *last* element of
//! the sequence, so `push` appends and `pop` removes the last element.
//! Besides constant-time push and pop at the head, the list supports the
//! search-and-remove operation the buddy merge needs: removing the first
//! occurrence of a given address, counted from the head.

use vstd::prelude::*;

verus! {

/// The sequence left after removing the occurrence of `v` closest to the
/// head (the last element of `s`), or `s` itself if `v` does not occur.
pub open spec fn remove_head_occurrence(s: Seq<usize>, v: usize) -> Seq<usize>
    decreases s.len(),
{
    if s.len() == 0 {
        s
    } else if s.last() == v {
        s.drop_last()
    } else {
        remove_head_occurrence(s.drop_last(), v).push(s.last())
    }
}

/// Removing a value that does not occur leaves the sequence unchanged.
pub proof fn lemma_remove_absent(s: Seq<usize>, v: usize)
    requires
        !s.contains(v),
    ensures
        remove_head_occurrence(s, v) == s,
    decreases s.len(),
{
    if s.len() > 0 {
        assert(s.last() != v);
        assert(!s.drop_last().contains(v)) by {
            if s.drop_last().contains(v) {
                let i = choose|i: int| 0 <= i < s.drop_last().len() && s.drop_last()[i] == v;
                assert(s[i] == v);
            }
        }
        lemma_remove_absent(s.drop_last(), v);
        assert(remove_head_occurrence(s, v) =~= s);
    } else {
        assert(remove_head_occurrence(s, v) =~= s);
    }
}

/// Removing a present value shortens the sequence by one, keeps every
/// remaining element an element of the original, and does not disturb the
/// last element when that is not the value removed.
pub proof fn lemma_remove_present(s: Seq<usize>, v: usize)
    requires
        s.contains(v),
    ensures
        remove_head_occurrence(s, v).len() == s.len() - 1,
        forall|x: usize| remove_head_occurrence(s, v).contains(x) ==> s.contains(x),
        s.last() != v ==> remove_head_occurrence(s, v).last() == s.last()
            && s.drop_last().contains(v),
    decreases s.len(),
{
    let r = remove_head_occurrence(s, v);
    if s.last() == v {
        assert(r == s.drop_last());
        assert(forall|x: usize| s.drop_last().contains(x) ==> s.contains(x)) by {
            assert forall|x: usize| s.drop_last().contains(x) implies s.contains(x) by {
                let i = choose|i: int| 0 <= i < s.drop_last().len() && s.drop_last()[i] == x;
                assert(s[i] == x);
            }
        }
    } else {
        assert(s.drop_last().contains(v)) by {
            let i = choose|i: int| 0 <= i < s.len() && s[i] == v;
            assert(i < s.len() - 1);
            assert(s.drop_last()[i] == v);
        }
        let t = s.drop_last();
        lemma_remove_present(t, v);
        let rr = remove_head_occurrence(t, v);
        assert(r == rr.push(s.last()));
        assert forall|x: usize| r.contains(x) implies s.contains(x) by {
            let i = choose|i: int| 0 <= i < r.len() && r[i] == x;
            if i == r.len() - 1 {
                assert(s[s.len() - 1] == x);
            } else {
                assert(rr[i] == x);
                assert(rr.contains(x));
                assert(t.contains(x));
                let j = choose|j: int| 0 <= j < t.len() && t[j] == x;
                assert(s[j] == x);
            }
        }
    }
}

/// Removing the value just pushed undoes the push.
pub proof fn lemma_remove_pushed(s: Seq<usize>, v: usize)
    ensures
        remove_head_occurrence(s.push(v), v) == s,
{
    assert(s.push(v).last() == v);
    assert(s.push(v).drop_last() =~= s);
}

/// An intrusive-style free list of block addresses for one size class,
/// with the head stored as the last element of the backing vector.
#[derive(Debug)]
pub struct LinkedList {
    items: Vec<usize>,
}

impl LinkedList {
    /// The list as a sequence; the head of the list is the last element.
    pub closed spec fn view(&self) -> Seq<usize> {
        self.items@
    }

    /// Create an empty list.
    pub fn new() -> (r: Self)
        ensures
            r@ == Seq::<usize>::empty(),
    {
        LinkedList { items: Vec::new() }
    }

    /// Whether the list holds no address.
    pub fn is_empty(&self) -> (r: bool)
        ensures
            r <==> self@.len() == 0,
    {
        self.items.len() == 0
    }

    /// Number of addresses in the list.
    pub fn len(&self) -> (r: usize)
        ensures
            r == self@.len(),
    {
        self.items.len()
    }

    /// Push an address onto the head of the list.
    pub fn push(&mut self, addr: usize)
        ensures
            final(self)@ == old(self)@.push(addr),
    {
        self.items.push(addr);
    }

    /// Pop the address at the head of the list, if any.
    pub fn pop(&mut self) -> (r: Option<usize>)
        ensures
            old(self)@.len() == 0 ==> r is None && final(self)@ == old(self)@,
            old(self)@.len() > 0 ==> r == Some(old(self)@.last())
                && final(self)@ == old(self)@.drop_last(),
    {
        let r = self.items.pop();
        proof {
            if old(self)@.len() > 0 {
                assert(self@ =~= old(self)@.drop_last());
            }
        }
        r
    }

    /// Remove the occurrence of `v` closest to the head, searching from the
    /// head, as the buddy merge does; report whether one was found.
    pub fn remove_value(&mut self, v: usize) -> (r: bool)
        ensures
            r <==> old(self)@.contains(v),
            final(self)@ == remove_head_occurrence(old(self)@, v),
    {
        let mut i = self.items.len();
        while i > 0
            invariant
                i <= self.items@.len(),
                self.items@ == old(self)@,
                forall|j: int| i <= j < self.items@.len() ==> self.items@[j] != v,
            decreases i,
        {
            i = i - 1;
            if self.items[i] == v {
                self.items.remove(i);
                proof {
                    lemma_remove_at_last_occurrence(old(self)@, v, i as int);
                }
                return true;
            }
        }
        proof {
            assert(!old(self)@.contains(v)) by {
                if old(self)@.contains(v) {
                    let j = choose|j: int| 0 <= j < old(self)@.len() && old(self)@[j] == v;
                    assert(old(self)@[j] != v);
                }
            }
            lemma_remove_absent(old(self)@, v);
        }
        false
    }
}

/// If `s[i] == v` and no later position holds `v`, then removing the
/// head-most occurrence of `v` is removing position `i`.
proof fn lemma_remove_at_last_occurrence(s: Seq<usize>, v: usize, i: int)
    requires
        0 <= i < s.len(),
        s[i] == v,
        forall|j: int| i < j < s.len() ==> s[j] != v,
    ensures
        remove_head_occurrence(s, v) == s.remove(i),
    decreases s.len(),
{
    if i == s.len() - 1 {
        assert(s.last() == v);
        assert(remove_head_occurrence(s, v) == s.drop_last());
        assert(s.drop_last() =~= s.remove(i));
    } else {
        assert(s.last() != v);
        let t = s.drop_last();
        assert(t[i] == v);
        lemma_remove_at_last_occurrence(t, v, i);
        assert(remove_head_occurrence(s, v) == t.remove(i).push(s.last()));
        assert(t.remove(i).push(s.last()) =~= s.remove(i));
    }
}


/// A successful removal is the removal of one position: some index holds
/// `v` and the result is the sequence without exactly that position.
pub proof fn lemma_remove_is_remove_at(s: Seq<usize>, v: usize)
    requires
        s.contains(v),
    ensures
        exists|idx: int|
            0 <= idx < s.len() && s[idx] == v
                && remove_head_occurrence(s, v) == s.remove(idx),
    decreases s.len(),
{
    if s.last() == v {
        let idx = s.len() - 1;
        assert(s.drop_last() =~= s.remove(idx));
        assert(remove_head_occurrence(s, v) == s.remove(idx));
    } else {
        let t = s.drop_last();
        assert(t.contains(v)) by {
            let i = choose|i: int| 0 <= i < s.len() && s[i] == v;
            assert(t[i] == v);
        }
        lemma_remove_is_remove_at(t, v);
        let idx = choose|idx: int|
            0 <= idx < t.len() && t[idx] == v
                && remove_head_occurrence(t, v) == t.remove(idx);
        assert(t.remove(idx).push(s.last()) =~= s.remove(idx));
        assert(s[idx] == v);
        assert(remove_head_occurrence(s, v) == s.remove(idx));
    }
}
} // verus!
