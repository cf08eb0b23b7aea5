//! A singly linked list of fixed capacity: its nodes live in a slot array
//! allocated once, links are slot indices, and unused slots are kept on a
//! stack so that the most recently freed slot is the next one taken.
use vstd::prelude::*;
use vstd::std_specs::cmp::PartialEqSpec;
use crate::model::{elem_eq, first_match, has_match, inserted_at, lemma_first_match, lemma_first_match_at, removed_first, replaced_first};

verus! {

/// The number of slots of every `StaticLinkedList`.
pub const MAX_SIZE: usize = 100;

/// One slot: an element when the slot is in use, and the index of the next
/// slot of the list when there is one.
struct StaticNode<T: Clone + PartialEq> {
    data: Option<T>,
    next: Option<usize>,
}

impl<T: Clone + PartialEq> StaticNode<T> {
    /// A slot that holds nothing and links nowhere.
    fn vacant() -> (r: Self)
        ensures
            r.data.is_none(),
            r.next.is_none(),
    {
        StaticNode { data: None, next: None }
    }
}

/// Relies on array_init::array_init: element `i` of the array it returns is
/// what the initializer returns for index `i`, here always a vacant slot.
#[verifier::external_body]
fn vacant_slots<T: Clone + PartialEq>() -> (r: [StaticNode<T>; MAX_SIZE])
    ensures
        forall|i: int| 0 <= i < MAX_SIZE ==> (#[trigger] r[i]).data.is_none() && r[i].next.is_none(),
{
    array_init::array_init(|_| StaticNode::vacant())
}

/// A singly linked list that holds at most `MAX_SIZE` elements.
pub struct StaticLinkedList<T: Clone + PartialEq> {
    nodes: [StaticNode<T>; MAX_SIZE],
    head: Option<usize>,
    free: Vec<usize>,
    /// The slots of the list, from the head onwards.
    chain: Ghost<Seq<usize>>,
}

impl<T: Clone + PartialEq> View for StaticLinkedList<T> {
    type V = Seq<T>;

    /// The elements, from the head onwards.
    closed spec fn view(&self) -> Seq<T> {
        Seq::new(self.chain@.len(), |k: int| self.nodes[self.chain@[k] as int].data.unwrap())
    }
}

impl<T: Clone + PartialEq> StaticLinkedList<T> {
    /// The indices of the slots that hold the list, from the head onwards.
    pub closed spec fn chain(&self) -> Seq<usize> {
        self.chain@
    }

    /// The free slots as a stack: the last one is the next to be taken.
    pub closed spec fn free_list(&self) -> Seq<usize> {
        self.free@
    }

    /// The element held in slot `i`, if any.
    pub closed spec fn data_at(&self, i: int) -> Option<T> {
        self.nodes[i].data
    }

    /// The slot that follows slot `i`, if any.
    pub closed spec fn next_at(&self, i: int) -> Option<usize> {
        self.nodes[i].next
    }

    /// The first slot of the list, if any.
    pub closed spec fn head_slot(&self) -> Option<usize> {
        self.head
    }

    /// `self` is `before` with `x` appended, in the slot that was on top of
    /// `before`'s free stack.
    pub open spec fn appended(self, before: Self, x: T) -> bool {
        &&& self@ == before@.push(x)
        &&& self.chain() == before.chain().push(before.free_list().last())
        &&& self.free_list() == before.free_list().drop_last()
    }

    /// `self` is `before` without the element at position `index`, whose
    /// slot went on top of the free stack.
    pub open spec fn removed_at(self, before: Self, index: int) -> bool {
        &&& self@ == before@.remove(index)
        &&& self.chain() == before.chain().remove(index)
        &&& self.free_list() == before.free_list().push(before.chain()[index])
    }

    /// Every slot index below `MAX_SIZE` is either on the list or free, and
    /// never both; neither holds an index twice, so the two counts add up to
    /// `MAX_SIZE`.
    pub proof fn lemma_slots_partition(&self)
        requires
            self.wf(),
        ensures
            self.chain().len() + self.free_list().len() == MAX_SIZE,
            self.chain().no_duplicates(),
            self.free_list().no_duplicates(),
            forall|i: usize| (self.chain().contains(i) || self.free_list().contains(i)) <==> i < MAX_SIZE,
            forall|i: usize| !(self.chain().contains(i) && self.free_list().contains(i)),
            self@.len() == self.chain().len(),
    {
        assert forall|i: usize| (self.chain().contains(i) || self.free_list().contains(i)) implies i < MAX_SIZE by {
            if self.chain@.contains(i) {
                let k = choose|k: int| 0 <= k < self.chain@.len() && self.chain@[k] == i;
                assert(self.chain@[k] < MAX_SIZE);
            } else {
                let k = choose|k: int| 0 <= k < self.free@.len() && self.free@[k] == i;
                assert(self.free@[k] < MAX_SIZE);
            }
        }
        assert forall|i: usize| !(self.chain().contains(i) && self.free_list().contains(i)) by {
            if self.chain@.contains(i) && self.free@.contains(i) {
                let k = choose|k: int| 0 <= k < self.chain@.len() && self.chain@[k] == i;
                let j = choose|j: int| 0 <= j < self.free@.len() && self.free@[j] == i;
                assert(self.chain@[k] != self.free@[j]);
            }
        }
    }

    /// A slot holds an element exactly when it is on the list, and the
    /// list's slots hold its elements in order.
    pub proof fn lemma_data_iff_on_list(&self)
        requires
            self.wf(),
        ensures
            forall|i: usize| i < MAX_SIZE ==> (self.data_at(i as int).is_some() <==> self.chain().contains(i)),
            forall|k: int| 0 <= k < self@.len() ==> self.data_at(#[trigger] self.chain()[k] as int) == Some(self@[k]),
    {
        assert forall|i: usize| i < MAX_SIZE implies (self.data_at(i as int).is_some() <==> self.chain().contains(i)) by {
            if self.chain@.contains(i) {
                let k = choose|k: int| 0 <= k < self.chain@.len() && self.chain@[k] == i;
                assert(self.nodes[self.chain@[k] as int].data.is_some());
            } else {
                assert(self.free@.contains(i));
                let j = choose|j: int| 0 <= j < self.free@.len() && self.free@[j] == i;
                assert(self.nodes[self.free@[j] as int].data.is_none());
            }
        }
        assert forall|k: int| 0 <= k < self@.len() implies self.data_at(#[trigger] self.chain()[k] as int) == Some(self@[k]) by {
            assert(self.nodes[self.chain@[k] as int].data.is_some());
        }
    }

    /// The links are what walking the list follows: the head is the first
    /// slot of the list, each slot links to the one after it, and the last
    /// links nowhere, so a walk from the head ends within `MAX_SIZE` steps.
    pub proof fn lemma_links_follow_chain(&self)
        requires
            self.wf(),
        ensures
            self.chain().len() <= MAX_SIZE,
            self.head_slot() == if self.chain().len() == 0 { None::<usize> } else { Some(self.chain()[0]) },
            forall|k: int| 0 <= k < self.chain().len() ==> self.next_at(#[trigger] self.chain()[k] as int) == if k + 1 < self.chain().len() {
                Some(self.chain()[k + 1])
            } else {
                None::<usize>
            },
    {
        assert forall|k: int| 0 <= k < self.chain().len() implies self.next_at(#[trigger] self.chain()[k] as int) == if k + 1 < self.chain().len() {
            Some(self.chain()[k + 1])
        } else {
            None::<usize>
        } by {
            assert(self.nodes[self.chain@[k] as int].next == self.next_at(self.chain@[k] as int));
        }
    }

    /// Deleting the element at `index` and then appending `x` puts `x` in
    /// the slot that the deletion freed and leaves the free stack as it was;
    /// every other element keeps its slot, its value and its order.
    pub proof fn lemma_delete_then_insert_reuses_slot(s0: Self, s1: Self, s2: Self, index: int, x: T)
        requires
            s0.wf(),
            0 <= index < s0@.len(),
            s1.removed_at(s0, index),
            s2.appended(s1, x),
        ensures
            s2.chain().last() == s0.chain()[index],
            s2.free_list() == s0.free_list(),
            s2@ == s0@.remove(index).push(x),
            forall|k: int| 0 <= k < index ==> s2.chain()[k] == s0.chain()[k] && #[trigger] s2@[k] == s0@[k],
            forall|k: int| index <= k < s0@.len() - 1 ==> s2.chain()[k] == s0.chain()[k + 1] && #[trigger] s2@[k] == s0@[k + 1],
    {
        assert(s2.free_list() =~= s0.free_list());
    }

    /// The slots of the list and the free slots part the index range between
    /// them; the head and the links thread the list's slots in order; a slot
    /// holds an element exactly when it is on the list.
    pub closed spec fn wf(&self) -> bool {
        let c = self.chain@;
        let f = self.free@;
        &&& c.len() + f.len() == MAX_SIZE
        &&& c.no_duplicates()
        &&& f.no_duplicates()
        &&& forall|k: int| 0 <= k < c.len() ==> #[trigger] c[k] < MAX_SIZE
        &&& forall|k: int| 0 <= k < f.len() ==> #[trigger] f[k] < MAX_SIZE
        &&& forall|k: int, j: int| 0 <= k < c.len() && 0 <= j < f.len() ==> #[trigger] c[k] != #[trigger] f[j]
        &&& forall|i: usize| i < MAX_SIZE ==> c.contains(i) || f.contains(i)
        &&& self.head == if c.len() == 0 { None::<usize> } else { Some(c[0]) }
        &&& forall|k: int| 0 <= k < c.len() ==> (#[trigger] self.nodes[c[k] as int]).next == if k + 1 < c.len() {
            Some(c[k + 1])
        } else {
            None::<usize>
        }
        &&& forall|k: int| 0 <= k < c.len() ==> (#[trigger] self.nodes[c[k] as int]).data.is_some()
        &&& forall|j: int| 0 <= j < f.len() ==> (#[trigger] self.nodes[f[j] as int]).data.is_none()
            && self.nodes[f[j] as int].next.is_none()
    }
}

impl<T: Clone + PartialEq> StaticLinkedList<T> {
    /// The slot `steps` links away from the head, if the list is that long.
    fn walk(&self, steps: usize) -> (r: Option<usize>)
        requires
            self.wf(),
        ensures
            r == if steps < self.chain@.len() { Some(self.chain@[steps as int]) } else { None::<usize> },
    {
        let mut curr = self.head;
        let mut k: usize = 0;
        while k < steps
            invariant
                self.wf(),
                k <= steps,
                curr == if k < self.chain@.len() { Some(self.chain@[k as int]) } else { None::<usize> },
            decreases steps - k,
        {
            match curr {
                Some(i) => {
                    proof {
                        assert(self.nodes[self.chain@[k as int] as int].next == self.nodes[i as int].next);
                    }
                    curr = self.nodes[i].next;
                },
                None => {
                    return None;
                },
            }
            k += 1;
        }
        curr
    }

    /// The last slot of a list that is not empty.
    fn tail(&self) -> (r: usize)
        requires
            self.wf(),
            self.chain@.len() > 0,
        ensures
            r == self.chain@.last(),
    {
        let mut idx: usize = match self.head {
            Some(i) => i,
            None => 0,
        };
        let mut k: usize = 0;
        loop
            invariant
                self.wf(),
                0 <= k < self.chain@.len(),
                idx == self.chain@[k as int],
            decreases self.chain@.len() - k,
        {
            match self.nodes[idx].next {
                Some(next_idx) => {
                    idx = next_idx;
                    k += 1;
                },
                None => {
                    return idx;
                },
            }
        }
    }

    /// Takes the slot at position `pos` off the list, clears it and pushes it
    /// on the free stack; `prev` is the slot before it, if any.
    fn unlink(&mut self, prev: Option<usize>, target: usize, Ghost(pos): Ghost<int>)
        requires
            old(self).wf(),
            0 <= pos < old(self).chain@.len(),
            target == old(self).chain@[pos],
            prev == if pos == 0 { None::<usize> } else { Some(old(self).chain@[pos - 1]) },
        ensures
            final(self).wf(),
            final(self).chain@ == old(self).chain@.remove(pos),
            final(self).free@ == old(self).free@.push(target),
            final(self)@ == old(self)@.remove(pos),
    {
        let ghost c = self.chain@;
        let ghost f = self.free@;
        let after = self.nodes[target].next;
        match prev {
            None => {
                self.head = after;
            },
            Some(p) => {
                self.nodes[p].next = after;
            },
        }
        self.nodes[target] = StaticNode::vacant();
        self.free.push(target);
        self.chain = Ghost(c.remove(pos));
        proof {
            assert forall|i: usize| i < MAX_SIZE implies self.chain@.contains(i) || self.free@.contains(i) by {
                if c.contains(i) {
                    let k = choose|k: int| 0 <= k < c.len() && c[k] == i;
                    if k < pos {
                        assert(self.chain@[k] == i);
                    } else if k == pos {
                        assert(self.free@[f.len() as int] == i);
                    } else {
                        assert(self.chain@[k - 1] == i);
                    }
                } else {
                    let j = choose|j: int| 0 <= j < f.len() && f[j] == i;
                    assert(self.free@[j] == i);
                }
            }
            assert(self@ =~= old(self)@.remove(pos));
        }
    }
}

impl<T: Clone + PartialEq + Default> StaticLinkedList<T> {
    /// An empty list: every slot is free, slot `MAX_SIZE - 1` is the first
    /// to be taken and slot 0 the last.
    pub fn new() -> (r: Self)
        ensures
            r.wf(),
            r@ == Seq::<T>::empty(),
            r.free_list() == Seq::new(MAX_SIZE as nat, |k: int| k as usize),
    {
        let mut free: Vec<usize> = Vec::with_capacity(MAX_SIZE);
        let mut i: usize = 0;
        while i < MAX_SIZE
            invariant
                i <= MAX_SIZE,
                free@ == Seq::new(i as nat, |k: int| k as usize),
            decreases MAX_SIZE - i,
        {
            free.push(i);
            i += 1;
        }
        let r = StaticLinkedList { nodes: vacant_slots(), head: None, free, chain: Ghost(Seq::empty()) };
        assert forall|i: usize| i < MAX_SIZE implies r.chain@.contains(i) || r.free@.contains(i) by {
            assert(r.free@[i as int] == i);
        }
        assert(r@ =~= Seq::<T>::empty());
        r
    }

    /// Appends `data` at the end of the list, in the slot on top of the free
    /// stack; does nothing when the list is full.
    pub fn insert(&mut self, data: T)
        requires
            old(self).wf(),
        ensures
            final(self).wf(),
            old(self)@.len() < MAX_SIZE ==> final(self).appended(*old(self), data),
            old(self)@.len() == MAX_SIZE ==> *final(self) == *old(self),
    {
        if self.free.len() == 0 {
            return;
        }
        let ghost c = self.chain@;
        let ghost f = self.free@;
        let tail = if self.head.is_some() { Some(self.tail()) } else { None };
        let new_idx = self.free.pop().unwrap();
        self.nodes[new_idx] = StaticNode { data: Some(data), next: None };
        match tail {
            None => {
                self.head = Some(new_idx);
            },
            Some(t) => {
                self.nodes[t].next = Some(new_idx);
            },
        }
        self.chain = Ghost(c.push(new_idx));
        proof {
            assert(f.last() == new_idx);
            assert(forall|j: int| 0 <= j < self.free@.len() ==> self.free@[j] == f[j]);
            assert forall|i: usize| i < MAX_SIZE implies self.chain@.contains(i) || self.free@.contains(i) by {
                if c.contains(i) {
                    let k = choose|k: int| 0 <= k < c.len() && c[k] == i;
                    assert(self.chain@[k] == i);
                } else {
                    let j = choose|j: int| 0 <= j < f.len() && f[j] == i;
                    if j == f.len() - 1 {
                        assert(self.chain@[c.len() as int] == i);
                    } else {
                        assert(self.free@[j] == i);
                    }
                }
            }
            assert(self@ =~= old(self)@.push(data));
        }
    }

    /// Inserts `data` so that it stands at position `index`, in the slot on
    /// top of the free stack; does nothing when the list is full or `index`
    /// is past its end.
    pub fn insert_at_index(&mut self, index: usize, data: T)
        requires
            old(self).wf(),
        ensures
            final(self).wf(),
            old(self)@.len() < MAX_SIZE ==> final(self)@ == inserted_at(old(self)@, index as int, data),
            old(self)@.len() < MAX_SIZE && index <= old(self)@.len() ==> {
                &&& final(self).chain() == old(self).chain().insert(index as int, old(self).free_list().last())
                &&& final(self).free_list() == old(self).free_list().drop_last()
            },
            old(self)@.len() == MAX_SIZE || index > old(self)@.len() ==> *final(self) == *old(self),
    {
        if self.free.len() == 0 {
            return;
        }
        let ghost c = self.chain@;
        let ghost f = self.free@;
        let prev = if index == 0 {
            None
        } else {
            match self.walk(index - 1) {
                Some(p) => Some(p),
                None => {
                    return;
                },
            }
        };
        let new_idx = self.free.pop().unwrap();
        match prev {
            None => {
                self.nodes[new_idx] = StaticNode { data: Some(data), next: self.head };
                self.head = Some(new_idx);
            },
            Some(p) => {
                let after = self.nodes[p].next;
                self.nodes[new_idx] = StaticNode { data: Some(data), next: after };
                self.nodes[p].next = Some(new_idx);
            },
        }
        self.chain = Ghost(c.insert(index as int, new_idx));
        proof {
            assert(f.last() == new_idx);
            assert(forall|j: int| 0 <= j < self.free@.len() ==> self.free@[j] == f[j]);
            assert forall|i: usize| i < MAX_SIZE implies self.chain@.contains(i) || self.free@.contains(i) by {
                if c.contains(i) {
                    let k = choose|k: int| 0 <= k < c.len() && c[k] == i;
                    if k < index {
                        assert(self.chain@[k] == i);
                    } else {
                        assert(self.chain@[k + 1] == i);
                    }
                } else {
                    let j = choose|j: int| 0 <= j < f.len() && f[j] == i;
                    if j == f.len() - 1 {
                        assert(self.chain@[index as int] == i);
                    } else {
                        assert(self.free@[j] == i);
                    }
                }
            }
            assert(self@ =~= old(self)@.insert(index as int, data));
        }
    }

    /// Removes the element at position `index`; returns whether there was
    /// one. The freed slot goes on top of the free stack.
    pub fn delete_at_index(&mut self, index: usize) -> (r: bool)
        requires
            old(self).wf(),
        ensures
            final(self).wf(),
            r == (index < old(self)@.len()),
            r ==> final(self).removed_at(*old(self), index as int),
            !r ==> *final(self) == *old(self),
    {
        if index == 0 {
            match self.head {
                Some(i) => {
                    self.unlink(None, i, Ghost(0));
                    return true;
                },
                None => {
                    return false;
                },
            }
        }
        let prev_idx = match self.walk(index - 1) {
            Some(i) => i,
            None => {
                return false;
            },
        };
        let target_idx = match self.nodes[prev_idx].next {
            Some(i) => i,
            None => {
                return false;
            },
        };
        self.unlink(Some(prev_idx), target_idx, Ghost(index as int));
        true
    }

    /// Removes the first element equal to `data`; returns whether there was
    /// one. The freed slot goes on top of the free stack.
    pub fn delete_element(&mut self, data: T) -> (r: bool)
        requires
            old(self).wf(),
            T::obeys_eq_spec(),
        ensures
            final(self).wf(),
            r == has_match(old(self)@, data),
            final(self)@ == removed_first(old(self)@, data),
            r ==> final(self).removed_at(*old(self), first_match(old(self)@, data)),
            !r ==> *final(self) == *old(self),
    {
        let ghost s = self@;
        proof {
            lemma_first_match(s, data);
        }
        let mut prev: Option<usize> = None;
        let mut curr = self.head;
        let ghost mut k: int = 0;
        loop
            invariant
                self.wf(),
                T::obeys_eq_spec(),
                *self == *old(self),
                s == self@,
                0 <= k <= s.len(),
                curr == if k < s.len() { Some(self.chain@[k]) } else { None::<usize> },
                prev == if k == 0 { None::<usize> } else { Some(self.chain@[k - 1]) },
                forall|j: int| 0 <= j < k ==> !elem_eq(#[trigger] s[j], data),
            decreases s.len() - k,
        {
            match curr {
                None => {
                    proof {
                        lemma_first_match_at(s, data, k);
                    }
                    return false;
                },
                Some(idx) => {
                    let hit = match &self.nodes[idx].data {
                        Some(v) => *v == data,
                        None => false,
                    };
                    proof {
                        assert(s[k] == self.nodes[idx as int].data.unwrap());
                    }
                    if hit {
                        proof {
                            lemma_first_match_at(s, data, k);
                        }
                        self.unlink(prev, idx, Ghost(k));
                        return true;
                    }
                    proof {
                        assert(self.nodes[self.chain@[k] as int].next == self.nodes[idx as int].next);
                    }
                    prev = curr;
                    curr = self.nodes[idx].next;
                    proof {
                        k = k + 1;
                    }
                },
            }
        }
    }

    /// Replaces the first element equal to `old_data` by `new_data`, in the
    /// same slot; returns whether there was one.
    pub fn update_element(&mut self, old_data: T, new_data: T) -> (r: bool)
        requires
            old(self).wf(),
            T::obeys_eq_spec(),
        ensures
            final(self).wf(),
            r == has_match(old(self)@, old_data),
            final(self)@ == replaced_first(old(self)@, old_data, new_data),
            final(self).chain() == old(self).chain(),
            final(self).free_list() == old(self).free_list(),
            !r ==> *final(self) == *old(self),
    {
        let ghost s = self@;
        proof {
            lemma_first_match(s, old_data);
        }
        let mut curr = self.head;
        let ghost mut k: int = 0;
        while curr.is_some()
            invariant
                self.wf(),
                T::obeys_eq_spec(),
                *self == *old(self),
                s == self@,
                0 <= k <= s.len(),
                curr == if k < s.len() { Some(self.chain@[k]) } else { None::<usize> },
                forall|j: int| 0 <= j < k ==> !elem_eq(#[trigger] s[j], old_data),
            decreases s.len() - k,
        {
            let idx = curr.unwrap();
            let hit = match &self.nodes[idx].data {
                Some(v) => *v == old_data,
                None => false,
            };
            proof {
                assert(s[k] == self.nodes[idx as int].data.unwrap());
            }
            if hit {
                proof {
                    lemma_first_match_at(s, old_data, k);
                }
                self.nodes[idx].data = Some(new_data);
                proof {
                    assert(self@ =~= s.update(k, new_data));
                }
                return true;
            }
            proof {
                assert(self.nodes[self.chain@[k] as int].next == self.nodes[idx as int].next);
            }
            curr = self.nodes[idx].next;
            proof {
                k = k + 1;
            }
        }
        proof {
            lemma_first_match_at(s, old_data, k);
        }
        false
    }

    /// Replaces the element at position `index` by `data`, in the same slot;
    /// returns whether there was one.
    pub fn update_element_at_index(&mut self, index: usize, data: T) -> (r: bool)
        requires
            old(self).wf(),
        ensures
            final(self).wf(),
            r == (index < old(self)@.len()),
            r ==> final(self)@ == old(self)@.update(index as int, data),
            final(self).chain() == old(self).chain(),
            final(self).free_list() == old(self).free_list(),
            !r ==> *final(self) == *old(self),
    {
        match self.walk(index) {
            Some(i) => {
                self.nodes[i].data = Some(data);
                proof {
                    assert(self@ =~= old(self)@.update(index as int, data));
                }
                true
            },
            None => false,
        }
    }

    /// Whether some element of the list equals `data`.
    pub fn find(&self, data: T) -> (r: bool)
        requires
            self.wf(),
            T::obeys_eq_spec(),
        ensures
            r == has_match(self@, data),
    {
        let ghost s = self@;
        let mut curr = self.head;
        let ghost mut k: int = 0;
        while curr.is_some()
            invariant
                self.wf(),
                T::obeys_eq_spec(),
                s == self@,
                0 <= k <= s.len(),
                curr == if k < s.len() { Some(self.chain@[k]) } else { None::<usize> },
                forall|j: int| 0 <= j < k ==> !elem_eq(#[trigger] s[j], data),
            decreases s.len() - k,
        {
            let idx = curr.unwrap();
            let hit = match &self.nodes[idx].data {
                Some(v) => *v == data,
                None => false,
            };
            proof {
                assert(s[k] == self.nodes[idx as int].data.unwrap());
            }
            if hit {
                return true;
            }
            proof {
                assert(self.nodes[self.chain@[k] as int].next == self.nodes[idx as int].next);
            }
            curr = self.nodes[idx].next;
            proof {
                k = k + 1;
            }
        }
        proof {
            lemma_first_match_at(s, data, k);
            lemma_first_match(s, data);
        }
        false
    }

    /// A copy of the element at position `index`, if the list is that long.
    pub fn get(&self, index: usize) -> (r: Option<T>)
        requires
            self.wf(),
        ensures
            index < self@.len() ==> r.is_some() && cloned(self@[index as int], r.unwrap()),
            index >= self@.len() ==> r.is_none(),
    {
        match self.walk(index) {
            Some(i) => match &self.nodes[i].data {
                Some(v) => Some(v.clone()),
                None => None,
            },
            None => None,
        }
    }

    /// The first slot of the list, if any.
    pub fn head_index(&self) -> (r: Option<usize>)
        ensures
            r == self.head_slot(),
    {
        self.head
    }

    /// A copy of the element held in slot `i`, if any.
    pub fn node_data(&self, i: usize) -> (r: Option<T>)
        requires
            i < MAX_SIZE,
        ensures
            self.data_at(i as int).is_some() ==> r.is_some() && cloned(self.data_at(i as int).unwrap(), r.unwrap()),
            self.data_at(i as int).is_none() ==> r.is_none(),
    {
        match &self.nodes[i].data {
            Some(v) => Some(v.clone()),
            None => None,
        }
    }

    /// The slot that follows slot `i`, if any.
    pub fn node_next(&self, i: usize) -> (r: Option<usize>)
        requires
            i < MAX_SIZE,
        ensures
            r == self.next_at(i as int),
    {
        self.nodes[i].next
    }
}

} // verus!
