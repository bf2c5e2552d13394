//! A singly linked list with head insertion and removal, linear search and
//! insertion after a matching element, viewed as the sequence of its values.

use vstd::prelude::*;
use vstd::std_specs::cmp::PartialEqSpec;

verus! {

struct LNode<T> {
    value: T,
    next: Option<Box<LNode<T>>>,
}

/// A singly linked list of values, viewed as the sequence of its values from
/// the head onward.
pub struct List<T> {
    head: Option<Box<LNode<T>>>,
    size: usize,
}

spec fn chain_view<T>(p: Option<Box<LNode<T>>>) -> Seq<T>
    decreases p,
{
    match p {
        Option::None => Seq::empty(),
        Option::Some(n) => seq![n.value] + chain_view(n.next),
    }
}

/// Some element of `s` equals `v`, in the sense of `T`'s own equality.
pub open spec fn has_value<T: PartialEq>(s: Seq<T>, v: T) -> bool {
    exists|i: int| 0 <= i < s.len() && (#[trigger] s[i].eq_spec(&v))
}

/// The sequence `s` with `item` slipped in right after the first element
/// equal to `elem`; unchanged when no element matches.
pub open spec fn with_item_after<T: PartialEq>(s: Seq<T>, item: T, elem: T) -> Seq<T>
    decreases s.len(),
{
    if s.len() == 0 {
        s
    } else if s[0].eq_spec(&elem) {
        seq![s[0], item] + s.drop_first()
    } else {
        seq![s[0]] + with_item_after(s.drop_first(), item, elem)
    }
}

impl<T> View for List<T> {
    type V = Seq<T>;

    closed spec fn view(&self) -> Seq<T> {
        chain_view(self.head)
    }
}

impl<T: PartialEq> List<T> {
    /// The stored size matches the number of reachable nodes.
    pub closed spec fn wf(&self) -> bool {
        self.size == self@.len()
    }

    /// Creates an empty list.
    pub fn new() -> (r: List<T>)
        ensures
            r.wf(),
            r@ == Seq::<T>::empty(),
    {
        List { head: None, size: 0 }
    }

    /// True exactly when the list holds no value.
    pub fn is_empty(&self) -> (r: bool)
        ensures
            r <==> self@.len() == 0,
    {
        self.head.is_none()
    }

    /// Puts `item` in front of everything already stored.
    pub fn add_front(&mut self, item: T)
        requires
            old(self).wf(),
            old(self)@.len() < usize::MAX,
        ensures
            final(self).wf(),
            final(self)@ == seq![item] + old(self)@,
    {
        self.head = Some(Box::new(LNode { value: item, next: self.head.take() }));
        self.size = self.size + 1;
    }

    /// Takes the front value out, if any.
    pub fn rm_front(&mut self) -> (r: Option<T>)
        requires
            old(self).wf(),
        ensures
            final(self).wf(),
            match r {
                None => old(self)@.len() == 0 && final(self)@ == old(self)@,
                Some(v) => old(self)@.len() > 0 && v == old(self)@[0] && final(self)@ == old(
                    self,
                )@.drop_first(),
            },
    {
        match self.head.take() {
            None => None,
            Some(old_head) => {
                let node = *old_head;
                self.head = node.next;
                self.size = self.size - 1;
                proof {
                    assert(old(self)@.drop_first() =~= self@);
                }
                Some(node.value)
            },
        }
    }

    /// The front value, left in place.
    pub fn head(&self) -> (r: Option<&T>)
        ensures
            match r {
                None => self@.len() == 0,
                Some(v) => self@.len() > 0 && *v == self@[0],
            },
    {
        match &self.head {
            None => None,
            Some(node) => Some(&node.value),
        }
    }

    /// A mutable handle on the front value, if any; the rest stays as it is.
    pub fn head_mut(&mut self) -> (r: Option<&mut T>)
        requires
            old(self).wf(),
        ensures
            match r {
                None => old(self)@.len() == 0 && final(self)@ == old(self)@ && final(self).wf(),
                Some(m) => old(self)@.len() > 0 && *m == old(self)@[0] && final(self)@ == old(
                    self,
                )@.update(0, *final(m)) && final(self).wf(),
            },
    {
        match &mut self.head {
            None => None,
            Some(node) => Some(&mut node.value),
        }
    }

    /// Number of stored values.
    pub fn size(&self) -> (r: usize)
        requires
            self.wf(),
        ensures
            r == self@.len(),
    {
        self.size
    }

    /// The last stored value, left in place.
    pub fn tail(&self) -> (r: Option<&T>)
        ensures
            match r {
                None => self@.len() == 0,
                Some(v) => self@.len() > 0 && *v == self@.last(),
            },
    {
        Self::chain_last(&self.head)
    }

    fn chain_last(p: &Option<Box<LNode<T>>>) -> (r: Option<&T>)
        ensures
            match r {
                None => chain_view(*p).len() == 0,
                Some(v) => chain_view(*p).len() > 0 && *v == chain_view(*p).last(),
            },
        decreases *p,
    {
        match p {
            None => {
                proof {
                    assert(chain_view(*p) =~= Seq::<T>::empty());
                }
                None
            },
            Some(node) => {
                if node.next.is_none() {
                    proof {
                        assert(chain_view(node.next) =~= Seq::<T>::empty());
                        assert(chain_view(*p) =~= seq![node.value]);
                    }
                    Some(&node.value)
                } else {
                    Self::chain_last(&node.next)
                }
            },
        }
    }

    /// Appends `item` behind the last stored value.
    pub fn add_tail(&mut self, item: T)
        requires
            old(self).wf(),
            old(self)@.len() < usize::MAX,
        ensures
            final(self).wf(),
            final(self)@ == old(self)@.push(item),
    {
        Self::chain_push(&mut self.head, item);
        self.size = self.size + 1;
    }

    fn chain_push(p: &mut Option<Box<LNode<T>>>, item: T)
        ensures
            chain_view(*final(p)) == chain_view(*old(p)).push(item),
        decreases *old(p),
    {
        match p.take() {
            None => {
                *p = Some(Box::new(LNode { value: item, next: None }));
                proof {
                    assert(chain_view(*p) =~= chain_view(*old(p)).push(item));
                }
            },
            Some(mut node) => {
                let ghost rest0 = chain_view(node.next);
                Self::chain_push(&mut node.next, item);
                proof {
                    assert(chain_view(Some(node)) =~= (seq![node.value] + rest0).push(item));
                }
                *p = Some(node);
            },
        }
    }

    /// Whether some stored value equals `item`; what `==` decides is only
    /// pinned down for types whose equality obeys its specification.
    pub fn contains(&self, item: &T) -> (r: bool)
        ensures
            T::obeys_eq_spec() ==> (r <==> has_value(self@, *item)),
    {
        Self::chain_contains(&self.head, item)
    }

    fn chain_contains(p: &Option<Box<LNode<T>>>, item: &T) -> (r: bool)
        ensures
            T::obeys_eq_spec() ==> (r <==> has_value(chain_view(*p), *item)),
        decreases *p,
    {
        match p {
            None => false,
            Some(node) => {
                if node.value == *item {
                    proof {
                        if T::obeys_eq_spec() {
                            assert(chain_view(*p)[0].eq_spec(item));
                        }
                    }
                    true
                } else {
                    let r = Self::chain_contains(&node.next, item);
                    proof {
                        if T::obeys_eq_spec() {
                            let s = chain_view(*p);
                            let rest = chain_view(node.next);
                            assert(s.len() == rest.len() + 1);
                            assert(forall|i: int| 0 <= i < rest.len() ==> s[i + 1] == #[trigger]
                            rest[i]);
                            if r {
                                let i = choose|i: int|
                                    0 <= i < rest.len() && (#[trigger] rest[i].eq_spec(item));
                                assert(s[i + 1].eq_spec(item));
                            } else {
                                assert forall|i: int|
                                    0 <= i < s.len() implies !(#[trigger] s[i].eq_spec(
                                    item,
                                )) by {
                                    if i >= 1 {
                                        assert(s[i] == rest[i - 1]);
                                    }
                                }
                            }
                        }
                    }
                    r
                }
            },
        }
    }

    /// Slips `item` in right after the first stored value equal to `elem`;
    /// when no value matches, the list stays as it is and `item` is dropped.
    pub fn add_after(&mut self, item: T, elem: &T)
        requires
            old(self).wf(),
            old(self)@.len() < usize::MAX,
        ensures
            final(self).wf(),
            T::obeys_eq_spec() ==> final(self)@ == with_item_after(old(self)@, item, *elem),
            final(self)@.len() <= old(self)@.len() + 1,
    {
        let inserted = Self::chain_add_after(&mut self.head, item, elem);
        if inserted {
            self.size = self.size + 1;
        }
    }

    fn chain_add_after(p: &mut Option<Box<LNode<T>>>, item: T, elem: &T) -> (inserted: bool)
        ensures
            T::obeys_eq_spec() ==> chain_view(*final(p)) == with_item_after(
                chain_view(*old(p)),
                item,
                *elem,
            ),
            inserted ==> chain_view(*final(p)).len() == chain_view(*old(p)).len() + 1,
            !inserted ==> chain_view(*final(p)) == chain_view(*old(p)),
        decreases *old(p),
    {
        match p.take() {
            None => false,
            Some(mut node) => {
                if node.value == *elem {
                    let next = node.next.take();
                    node.next = Some(Box::new(LNode { value: item, next }));
                    proof {
                        let s = chain_view(*old(p));
                        assert(s.drop_first() =~= chain_view(next));
                        assert(chain_view(node.next) =~= seq![item] + chain_view(next));
                        assert(chain_view(Some(node)) =~= seq![s[0], item] + s.drop_first());
                    }
                    *p = Some(node);
                    true
                } else {
                    let ghost s = chain_view(*old(p));
                    let ghost rest0 = chain_view(node.next);
                    let inserted = Self::chain_add_after(&mut node.next, item, elem);
                    proof {
                        assert(s.drop_first() =~= rest0);
                        if T::obeys_eq_spec() {
                            assert(chain_view(Some(node)) =~= seq![s[0]] + with_item_after(
                                s.drop_first(),
                                item,
                                *elem,
                            ));
                        }
                        if !inserted {
                            assert(chain_view(Some(node)) =~= s);
                        }
                    }
                    *p = Some(node);
                    inserted
                }
            },
        }
    }
}

} // verus!
