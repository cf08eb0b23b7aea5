//! A singly linked list of boxed nodes, without a bound on its length.
use vstd::prelude::*;
use vstd::std_specs::cmp::PartialEqSpec;
use crate::model::{first_match, has_match, inserted_at, elem_eq, lemma_first_match, removed_first};

verus! {

/// One node: an element and the rest of the list.
struct Node<T> {
    data: T,
    next: Option<Box<Node<T>>>,
}

/// The elements of the list that starts at `link`.
spec fn link_view<T>(link: Option<Box<Node<T>>>) -> Seq<T>
    decreases link,
{
    match link {
        None => Seq::empty(),
        Some(node) => seq![node.data] + link_view(node.next),
    }
}

/// A singly linked list whose nodes are allocated one by one.
pub struct DynamicLinkedList<T> {
    head: Option<Box<Node<T>>>,
}

impl<T> View for DynamicLinkedList<T> {
    type V = Seq<T>;

    /// The elements, from the head onwards.
    closed spec fn view(&self) -> Seq<T> {
        link_view(self.head)
    }
}

/// Putting an element in front shifts every position by one.
proof fn lemma_cons<T: PartialEq>(d: T, rest: Seq<T>, index: int, x: T)
    ensures
        (seq![d] + rest).drop_first() == rest,
        index >= 0 ==> inserted_at(seq![d] + rest, index + 1, x) == seq![d] + inserted_at(rest, index, x),
        has_match(seq![d] + rest, x) == (elem_eq(d, x) || has_match(rest, x)),
        removed_first(seq![d] + rest, x) == if elem_eq(d, x) {
            rest
        } else {
            seq![d] + removed_first(rest, x)
        },
{
    let s = seq![d] + rest;
    assert(s.drop_first() =~= rest);
    if 0 <= index <= rest.len() {
        assert(s.insert(index + 1, x) =~= seq![d] + rest.insert(index, x));
    }
    lemma_first_match(s, x);
    lemma_first_match(rest, x);
    if !elem_eq(d, x) {
        let k = first_match(rest, x);
        if k < rest.len() {
            assert(s.remove(k + 1) =~= seq![d] + rest.remove(k));
        }
    } else {
        assert(s.remove(0) =~= rest);
    }
    if has_match(rest, x) {
        let i = choose|i: int| 0 <= i < rest.len() && elem_eq(#[trigger] rest[i], x);
        assert(s[i + 1] == rest[i]);
    }
}

/// Appends `data` at the end of the list that starts at `link`.
fn append_link<T: PartialEq>(link: &mut Option<Box<Node<T>>>, data: T)
    ensures
        link_view(*final(link)) == link_view(*old(link)).push(data),
    decreases link_view(*old(link)).len(),
{
    match link {
        None => {
            *link = Some(Box::new(Node { data, next: None }));
            assert(link_view(*link) =~= seq![data]);
        },
        Some(node) => {
            let ghost before = link_view(node.next);
            append_link(&mut node.next, data);
            assert(seq![node.data] + before.push(data) =~= (seq![node.data] + before).push(data));
        },
    }
}

/// Inserts `data` at position `index` of the list that starts at `link`.
fn insert_link<T: PartialEq>(link: &mut Option<Box<Node<T>>>, index: usize, data: T)
    ensures
        link_view(*final(link)) == inserted_at(link_view(*old(link)), index as int, data),
    decreases link_view(*old(link)).len(),
{
    if index == 0 {
        let rest = link.take();
        *link = Some(Box::new(Node { data, next: rest }));
        assert(link_view(*link) =~= link_view(*old(link)).insert(0, data));
    } else {
        match link {
            None => {},
            Some(node) => {
                proof {
                    lemma_cons(node.data, link_view(node.next), index - 1, data);
                }
                insert_link(&mut node.next, index - 1, data);
            },
        }
    }
}

/// Unlinks the first node of the list at `link` whose element equals `data`.
fn delete_link<T: PartialEq>(link: &mut Option<Box<Node<T>>>, data: &T) -> (r: bool)
    requires
        T::obeys_eq_spec(),
    ensures
        r == has_match(link_view(*old(link)), *data),
        link_view(*final(link)) == removed_first(link_view(*old(link)), *data),
    decreases link_view(*old(link)).len(),
{
    match link {
        None => {
            proof {
                lemma_first_match(link_view(*link), *data);
            }
            false
        },
        Some(node) => {
            proof {
                lemma_cons(node.data, link_view(node.next), 0, *data);
            }
            if node.data == *data {
                let rest = node.next.take();
                *link = rest;
                true
            } else {
                delete_link(&mut node.next, data)
            }
        },
    }
}

impl<T: PartialEq + Clone> DynamicLinkedList<T> {
    /// An empty list.
    pub fn new() -> (r: Self)
        ensures
            r@ == Seq::<T>::empty(),
    {
        Self { head: None }
    }

    /// Appends `data` at the end of the list.
    pub fn insert(&mut self, data: T)
        ensures
            final(self)@ == old(self)@.push(data),
    {
        append_link(&mut self.head, data);
    }

    /// Inserts `data` so that it stands at position `index`; does nothing
    /// when `index` is past the end of the list.
    pub fn insert_at_index(&mut self, index: usize, data: T)
        ensures
            final(self)@ == inserted_at(old(self)@, index as int, data),
    {
        insert_link(&mut self.head, index, data);
    }

    /// Removes the first element equal to `data`; returns whether there was
    /// one.
    pub fn delete_element(&mut self, data: T) -> (r: bool)
        requires
            T::obeys_eq_spec(),
        ensures
            r == has_match(old(self)@, data),
            final(self)@ == removed_first(old(self)@, data),
    {
        delete_link(&mut self.head, &data)
    }

    /// Copies of the elements, from the head onwards.
    pub fn to_vec(&self) -> (r: Vec<T>)
        ensures
            r@.len() == self@.len(),
            forall|i: int| 0 <= i < r@.len() ==> cloned(self@[i], #[trigger] r@[i]),
    {
        let mut result: Vec<T> = Vec::new();
        let mut current = &self.head;
        loop
            invariant
                result@.len() <= self@.len(),
                link_view(*current) == self@.skip(result@.len() as int),
                forall|i: int| 0 <= i < result@.len() ==> cloned(self@[i], #[trigger] result@[i]),
            decreases self@.len() - result@.len(),
        {
            match current {
                Some(node) => {
                    proof {
                        let n = result@.len() as int;
                        assert(link_view(*current) == seq![node.data] + link_view(node.next));
                        assert(self@.skip(n).len() == self@.len() - n);
                        assert(self@.skip(n)[0] == self@[n]);
                        assert(self@[n] == node.data);
                        assert forall|i: int| 0 <= i < link_view(node.next).len() implies link_view(node.next)[i] == self@.skip(n + 1)[i] by {
                            assert(link_view(node.next)[i] == self@.skip(n)[i + 1]);
                        }
                        assert(link_view(node.next) =~= self@.skip(n + 1));
                    }
                    result.push(node.data.clone());
                    current = &node.next;
                },
                None => {
                    return result;
                },
            }
        }
    }
}

} // verus!
