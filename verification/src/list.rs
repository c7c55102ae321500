//! A persistent singly linked list: prepending shares the old list, so every
//! list built from another keeps the other intact.

use std::rc::Rc;
use vstd::prelude::*;
use vstd::std_specs::cmp::PartialEqSpec;

verus! {

struct Node<T> {
    value: T,
    next: Option<Rc<Node<T>>>,
}

/// A persistent list, first element at the head.
pub struct List<T> {
    head: Option<Rc<Node<T>>>,
}

/// Walks a list from its head, one element at a time.
pub struct Iter<'a, T> {
    next: Option<&'a Node<T>>,
}

/// The elements reachable from a link, in order.
closed spec fn link_view<T>(link: Option<Rc<Node<T>>>) -> Seq<T>
    decreases link,
{
    match link {
        None => Seq::empty(),
        Some(node) => seq![node.value] + link_view(node.next),
    }
}

/// `Rc::clone`: a second handle on the same allocation, holding the same value.
#[verifier::external_body]
fn rc_clone<T>(rc: &Rc<T>) -> (r: Rc<T>)
    ensures
        r == *rc,
{
    Rc::clone(rc)
}

impl<T> View for List<T> {
    type V = Seq<T>;

    closed spec fn view(&self) -> Seq<T> {
        link_view(self.head)
    }
}

impl<'a, T> View for Iter<'a, T> {
    type V = Seq<T>;

    closed spec fn view(&self) -> Seq<T> {
        match self.next {
            None => Seq::empty(),
            Some(node) => seq![node.value] + link_view(node.next),
        }
    }
}

impl<T> List<T> {
    /// The empty list.
    pub fn new() -> (r: List<T>)
        ensures
            r@ == Seq::<T>::empty(),
    {
        List { head: None }
    }

    /// A new list: `elem` followed by the elements of `self`, which is left as it was.
    pub fn prepend(&self, elem: T) -> (r: List<T>)
        ensures
            r@ == seq![elem] + self@,
    {
        let next = match &self.head {
            Some(rc) => Some(rc_clone(rc)),
            None => None,
        };
        List { head: Some(Rc::new(Node { value: elem, next })) }
    }

    /// The list without its first element (empty if `self` is empty).
    pub fn tail(&self) -> (r: List<T>)
        ensures
            r@ == (if self@.len() == 0 { Seq::<T>::empty() } else { self@.drop_first() }),
    {
        match &self.head {
            Some(node) => {
                let next = match &node.next {
                    Some(rc) => Some(rc_clone(rc)),
                    None => None,
                };
                assert(seq![node.value] + link_view(node.next) == self@);
                assert(self@.drop_first() =~= link_view(node.next));
                List { head: next }
            },
            None => List { head: None },
        }
    }

    /// The first element, if any.
    pub fn head(&self) -> (r: Option<&T>)
        ensures
            match r {
                Some(v) => self@.len() > 0 && *v == self@[0],
                None => self@.len() == 0,
            },
    {
        match &self.head {
            Some(node) => Some(&node.value),
            None => None,
        }
    }

    /// A walk over the elements, head first.
    pub fn next(&self) -> (r: Iter<'_, T>)
        ensures
            r@ == self@,
    {
        match &self.head {
            Some(node) => Iter { next: Some(&**node) },
            None => Iter { next: None },
        }
    }
}

/// A prepended element is the head, and the tail is the list it was
/// prepended to.
pub proof fn lemma_prepend_then_tail<T>(s: Seq<T>, x: T)
    ensures
        (seq![x] + s).len() > 0,
        (seq![x] + s)[0] == x,
        (seq![x] + s).drop_first() == s,
{
    assert((seq![x] + s).drop_first() =~= s);
}

/// The contents of an empty list after prepending each of `xs` in turn.
pub open spec fn prepended_all<T>(xs: Seq<T>) -> Seq<T>
    decreases xs.len(),
{
    if xs.len() == 0 {
        Seq::empty()
    } else {
        seq![xs.last()] + prepended_all(xs.drop_last())
    }
}

/// Prepending `x1, ..., xn` in turn to an empty list gives `xn, ..., x1`.
pub proof fn lemma_prepended_all<T>(xs: Seq<T>)
    ensures
        prepended_all(xs) == xs.reverse(),
    decreases xs.len(),
{
    if xs.len() > 0 {
        lemma_prepended_all(xs.drop_last());
        assert(xs.reverse() =~= seq![xs.last()] + xs.drop_last().reverse());
    } else {
        assert(xs.reverse() =~= Seq::<T>::empty());
    }
}

/// Successive calls of `Iter::next` on a walk over `s`: after `k` calls the
/// walk holds `s.skip(k)`, so call `k + 1` gives `s[k]`; after `s.len()`
/// calls the walk is empty, and from then on every call gives `None` and
/// leaves it empty.
pub proof fn lemma_walk_in_order<T>(s: Seq<T>, k: int)
    requires
        0 <= k <= s.len(),
    ensures
        s.skip(0) == s,
        k < s.len() ==> s.skip(k).len() > 0 && s.skip(k)[0] == s[k] && s.skip(k).drop_first()
            == s.skip(k + 1),
        k == s.len() ==> s.skip(k) == Seq::<T>::empty(),
{
    assert(s.skip(0) =~= s);
    if k < s.len() {
        assert(s.skip(k).drop_first() =~= s.skip(k + 1));
    } else {
        assert(s.skip(k) =~= Seq::<T>::empty());
    }
}

impl<T> List<T> {
    /// The elements, head first, taken by walking the list with `next`
    /// until the walk gives `None`.
    pub fn elements(&self) -> (r: Vec<&T>)
        ensures
            r@.len() == self@.len(),
            forall|i: int| 0 <= i < self@.len() ==> *r@[i] == self@[i],
    {
        let mut out: Vec<&T> = Vec::new();
        let mut it = self.next();
        let ghost mut k: int = 0;
        proof {
            lemma_walk_in_order(self@, 0);
        }
        loop
            invariant
                0 <= k <= self@.len(),
                it@ == self@.skip(k),
                out@.len() == k,
                forall|i: int| 0 <= i < k ==> *out@[i] == self@[i],
            decreases self@.len() - k,
        {
            proof {
                lemma_walk_in_order(self@, k);
            }
            match it.next() {
                Some(x) => {
                    out.push(x);
                    proof {
                        k = k + 1;
                    }
                },
                None => {
                    return out;
                },
            }
        }
    }
}

impl<T: PartialEq> List<T> {
    /// The first element equal to `value`, if any.
    pub fn find(&self, value: &T) -> (r: Option<&T>)
        ensures
            r matches Some(x) ==> self@.contains(*x),
            T::obeys_eq_spec() ==> match r {
                Some(x) => exists|i: int|
                    0 <= i < self@.len() && *x == self@[i] && self@[i].eq_spec(value) && forall|
                        j: int,
                    | 0 <= j < i ==> !(#[trigger] self@[j]).eq_spec(value),
                None => forall|i: int| 0 <= i < self@.len() ==> !(#[trigger] self@[i]).eq_spec(value),
            },
    {
        let mut it = self.next();
        let ghost mut idx: int = 0;
        loop
            invariant
                0 <= idx <= self@.len(),
                it@ == self@.subrange(idx, self@.len() as int),
                T::obeys_eq_spec() ==> forall|j: int| 0 <= j < idx ==> !(#[trigger] self@[j]).eq_spec(value),
            decreases it@.len(),
        {
            let ghost before = it@;
            match it.next() {
                Some(x) => {
                    assert(*x == self@[idx]);
                    if x.eq(value) {
                        return Some(x);
                    }
                    proof {
                        assert(it@ =~= self@.subrange(idx + 1, self@.len() as int));
                        idx = idx + 1;
                    }
                },
                None => {
                    return None;
                },
            }
        }
    }

    /// The first element for which `predicate` holds, if any.
    pub fn find_by_predicate<F: Fn(&T) -> bool>(&self, predicate: F) -> (r: Option<&T>)
        requires
            forall|x: &T| #[trigger] predicate.requires((x,)),
        ensures
            match r {
                Some(x) => exists|i: int|
                    0 <= i < self@.len() && *x == self@[i] && predicate.ensures((&self@[i],), true)
                        && forall|j: int|
                        0 <= j < i ==> predicate.ensures((#[trigger] &self@[j],), false),
                None => forall|i: int|
                    0 <= i < self@.len() ==> predicate.ensures((#[trigger] &self@[i],), false),
            },
    {
        let mut it = self.next();
        let ghost mut idx: int = 0;
        loop
            invariant
                0 <= idx <= self@.len(),
                it@ == self@.subrange(idx, self@.len() as int),
                forall|x: &T| #[trigger] predicate.requires((x,)),
                forall|j: int| 0 <= j < idx ==> predicate.ensures((#[trigger] &self@[j],), false),
            decreases it@.len(),
        {
            match it.next() {
                Some(x) => {
                    assert(*x == self@[idx]);
                    if predicate(x) {
                        return Some(x);
                    }
                    proof {
                        assert(it@ =~= self@.subrange(idx + 1, self@.len() as int));
                        idx = idx + 1;
                    }
                },
                None => {
                    return None;
                },
            }
        }
    }
}

impl<'a, T> Iter<'a, T> {
    /// The next element, if any, and the walk moved past it.
    pub fn next(&mut self) -> (r: Option<&'a T>)
        ensures
            old(self)@.len() > 0 ==> (r matches Some(v) && *v == old(self)@[0]
                && final(self)@ == old(self)@.drop_first()),
            old(self)@.len() == 0 ==> r is None && final(self)@ == old(self)@,
    {
        match self.next {
            Some(node) => {
                let ghost rest = link_view(node.next);
                assert(old(self)@.drop_first() =~= rest);
                self.next = match &node.next {
                    Some(rc) => Some(&**rc),
                    None => None,
                };
                Some(&node.value)
            },
            None => None,
        }
    }
}

} // verus!
