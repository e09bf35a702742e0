//! An append-only arena of singly linked cells, and deques that live in it.
//!
//! A deque is a small copyable handle: the first cell of a linked list and the
//! direction in which that list is to be read. Pushing allocates one cell whose
//! tail is the old list, so deques share suffixes and a copy of a handle never
//! sees what is later done through another copy. Working at the far end of a
//! deque first reverses its list; the reversal of a list is remembered in its
//! first cell, so that it is built once.

use vstd::prelude::*;
use std::cmp::Ordering;

verus! {

/// The direction in which the cells of a deque are linked.
#[derive(Clone, Copy, PartialEq, Eq, Structural, Debug)]
pub enum DequeDirection {
    /// The first cell holds the front item.
    Forwards,
    /// The first cell holds the back item.
    Backwards,
}

/// One cell of a linked list: an item, the list that follows it, and the
/// reversal of the list that starts here, once it has been built.
pub struct DequeCell<T> {
    head: T,
    tail: usize,
    reversed: Option<usize>,
}

/// Storage for the cells of any number of deques of `T`.
pub struct DequeArena<T> {
    cells: Vec<DequeCell<T>>,
}

/// A double-ended sequence stored in a [`DequeArena`].
///
/// List `0` is the empty list; list `h > 0` starts at cell `h - 1`.
#[derive(Clone, Copy, Debug)]
pub struct Deque {
    list: usize,
    direction: DequeDirection,
}

impl<T> DequeArena<T> {
    /// The number of cells allocated so far.
    pub closed spec fn cell_count(self) -> nat {
        self.cells@.len()
    }

    /// The items of list `handle`, first cell first.
    pub closed spec fn list(self, handle: nat) -> Seq<T>
        decreases handle,
    {
        if 0 < handle <= self.cells@.len() {
            let cell = self.cells@[handle - 1];
            if cell.tail < handle {
                seq![cell.head] + self.list(cell.tail as nat)
            } else {
                Seq::empty()
            }
        } else {
            Seq::empty()
        }
    }

    /// Every tail points to an older cell, and every remembered reversal is
    /// the reversal of its list.
    pub closed spec fn wf(self) -> bool {
        forall|i: int|
            0 <= i < self.cells@.len() ==> {
                &&& (#[trigger] self.cells@[i]).tail <= i
                &&& match self.cells@[i].reversed {
                    Some(r) => 0 < r <= self.cells@.len() && self.list(r as nat) =~= self.list(
                        (i + 1) as nat,
                    ).reverse(),
                    None => true,
                }
            }
    }

    /// Whether `deque` was made in this arena (or is empty).
    pub closed spec fn contains(self, deque: Deque) -> bool {
        deque.list <= self.cells@.len()
    }

    /// The items of `deque`, front first.
    pub closed spec fn items(self, deque: Deque) -> Seq<T> {
        match deque.direction {
            DequeDirection::Forwards => self.list(deque.list as nat),
            DequeDirection::Backwards => self.list(deque.list as nat).reverse(),
        }
    }

    /// `other` holds every cell of `self`, with the same item and tail.
    pub closed spec fn grows_to(self, other: Self) -> bool {
        &&& self.cells@.len() <= other.cells@.len()
        &&& forall|i: int|
            0 <= i < self.cells@.len() ==> (#[trigger] other.cells@[i]).head == self.cells@[i].head
                && other.cells@[i].tail == self.cells@[i].tail
    }

    /// Every deque of `self` is a deque of `other` with the same items.
    pub open spec fn extended_by(self, other: Self) -> bool {
        forall|deque: Deque| #[trigger]
            self.contains(deque) ==> other.contains(deque) && other.items(deque) == self.items(
                deque,
            )
    }

    /// A list reads the same after the arena has grown.
    proof fn lemma_grow_keeps_list(self, other: Self, handle: nat)
        requires
            self.wf(),
            self.grows_to(other),
            handle <= self.cells@.len(),
        ensures
            other.list(handle) == self.list(handle),
        decreases handle,
    {
        if 0 < handle {
            let cell = self.cells@[handle - 1];
            assert(other.cells@[handle - 1].tail == cell.tail);
            assert(other.cells@[handle - 1].head == cell.head);
            self.lemma_grow_keeps_list(other, cell.tail as nat);
        }
    }

    /// Growth keeps every deque: the structural relation gives the public one.
    pub proof fn lemma_grow_extends(self, other: Self)
        requires
            self.wf(),
            self.grows_to(other),
        ensures
            self.extended_by(other),
    {
        assert forall|deque: Deque| #[trigger] self.contains(deque) implies other.contains(deque)
            && other.items(deque) == self.items(deque) by {
            self.lemma_grow_keeps_list(other, deque.list as nat);
        }
    }

    /// Growth keeps well-formedness where the new cells are well-formed and
    /// the remembered reversals of the old cells are those of `self` or correct.
    proof fn lemma_grow_keeps_wf(self, other: Self)
        requires
            self.wf(),
            self.grows_to(other),
            forall|i: int|
                0 <= i < self.cells@.len() ==> (#[trigger] other.cells@[i]).reversed
                    == self.cells@[i].reversed,
            forall|i: int|
                self.cells@.len() <= i < other.cells@.len() ==> (#[trigger] other.cells@[i]).tail
                    <= i && other.cells@[i].reversed.is_none(),
        ensures
            other.wf(),
    {
        assert forall|i: int| 0 <= i < other.cells@.len() implies {
            &&& (#[trigger] other.cells@[i]).tail <= i
            &&& match other.cells@[i].reversed {
                Some(r) => 0 < r <= other.cells@.len() && other.list(r as nat) =~= other.list(
                    (i + 1) as nat,
                ).reverse(),
                None => true,
            }
        } by {
            if i < self.cells@.len() {
                assert(self.cells@[i].tail <= i);
                match self.cells@[i].reversed {
                    Some(r) => {
                        self.lemma_grow_keeps_list(other, r as nat);
                        self.lemma_grow_keeps_list(other, (i + 1) as nat);
                    },
                    None => {},
                }
            }
        }
    }

    /// Growth is transitive.
    pub proof fn lemma_grow_transitive(self, middle: Self, other: Self)
        requires
            self.grows_to(middle),
            middle.grows_to(other),
        ensures
            self.grows_to(other),
    {
        assert forall|i: int| 0 <= i < self.cells@.len() implies (#[trigger] other.cells@[i]).head
            == self.cells@[i].head && other.cells@[i].tail == self.cells@[i].tail by {
            assert(middle.cells@[i].head == self.cells@[i].head);
        }
    }

    /// Every arena grows to itself.
    pub proof fn lemma_grow_reflexive(self)
        ensures
            self.grows_to(self),
    {
    }

    /// The empty deque is empty in every arena, and a deque whose list is
    /// empty has no items.
    pub proof fn lemma_items_of_empty(self, deque: Deque)
        ensures
            deque.is_empty_spec() ==> self.contains(deque) && self.items(deque).len() == 0,
            self.wf() && self.contains(deque) && !deque.is_empty_spec() ==> self.items(deque).len()
                > 0,
    {
        reveal_with_fuel(DequeArena::list, 2);
        if self.wf() && self.contains(deque) && !deque.is_empty_spec() {
            assert(self.cells@[deque.list - 1].tail <= deque.list - 1);
        }
    }

    /// An arena without cells holds no deque but the empty one.
    pub proof fn lemma_nothing_in_empty_arena(self, deque: Deque)
        requires
            self.cell_count() == 0,
            self.contains(deque),
        ensures
            deque.is_empty_spec(),
            self.items(deque).len() == 0,
    {
        self.lemma_items_of_empty(deque);
    }

    /// Whether `deque` was made in this arena (or is empty).
    pub fn holds(&self, deque: &Deque) -> (held: bool)
        ensures
            held == self.contains(*deque),
    {
        deque.list <= self.cells.len()
    }

    /// An arena without cells.
    pub fn new() -> (arena: Self)
        ensures
            arena.wf(),
            arena.cell_count() == 0,
    {
        DequeArena { cells: Vec::new() }
    }
}

impl<T: Copy> DequeArena<T> {
    /// Allocates the cell `item :: tail` and returns its list.
    fn cons(&mut self, item: T, tail: usize) -> (list: usize)
        requires
            old(self).wf(),
            tail <= old(self).cell_count(),
        ensures
            final(self).wf(),
            old(self).grows_to(*final(self)),
            0 < list <= final(self).cell_count(),
            list == old(self).cell_count() + 1,
            final(self).cell_count() == old(self).cell_count() + 1,
            final(self).list(list as nat) == seq![item] + old(self).list(tail as nat),
            final(self).cells@[list - 1].reversed.is_none(),
            forall|i: int|
                0 <= i < old(self).cell_count() ==> (#[trigger] final(self).cells@[i])
                    == old(self).cells@[i],
    {
        self.cells.push(DequeCell { head: item, tail, reversed: None });
        let list: usize = self.cells.len();
        proof {
            old(self).lemma_grow_keeps_wf(*self);
            old(self).lemma_grow_keeps_list(*self, tail as nat);
        }
        list
    }

    /// Remembers in the first cell of `list` that `reversed` is its reversal.
    fn remember_reversal(&mut self, list: usize, reversed: usize)
        requires
            old(self).wf(),
            0 < list <= old(self).cell_count(),
            0 < reversed <= old(self).cell_count(),
            old(self).list(reversed as nat) =~= old(self).list(list as nat).reverse(),
        ensures
            final(self).wf(),
            old(self).grows_to(*final(self)),
            final(self).grows_to(*old(self)),
            final(self).cell_count() == old(self).cell_count(),
            final(self).cells@[list - 1].reversed == Some(reversed),
    {
        let head = self.cells[list - 1].head;
        let tail: usize = self.cells[list - 1].tail;
        self.cells.set(list - 1, DequeCell { head, tail, reversed: Some(reversed) });
        proof {
            assert forall|i: int| 0 <= i < self.cells@.len() implies {
                &&& (#[trigger] self.cells@[i]).tail <= i
                &&& match self.cells@[i].reversed {
                    Some(r) => 0 < r <= self.cells@.len() && self.list(r as nat) =~= self.list(
                        (i + 1) as nat,
                    ).reverse(),
                    None => true,
                }
            } by {
                assert(old(self).cells@[i].tail <= i);
                old(self).lemma_grow_keeps_list(*self, (i + 1) as nat);
                match self.cells@[i].reversed {
                    Some(r) => {
                        old(self).lemma_grow_keeps_list(*self, r as nat);
                    },
                    None => {},
                }
            }
        }
    }

    /// The list that holds the items of `list` in reverse order.
    fn reverse_list(&mut self, list: usize) -> (reversed: usize)
        requires
            old(self).wf(),
            list <= old(self).cell_count(),
        ensures
            final(self).wf(),
            old(self).grows_to(*final(self)),
            reversed <= final(self).cell_count(),
            final(self).list(reversed as nat) =~= old(self).list(list as nat).reverse(),
            (list == 0) == (reversed == 0),
    {
        if list == 0 {
            proof {
                reveal_with_fuel(DequeArena::list, 1);
            }
            return 0;
        }
        if let Some(known) = self.cells[list - 1].reversed {
            return known;
        }
        let ghost before = *self;
        let mut reversed: usize = 0;
        let mut current: usize = list;
        while current != 0
            invariant
                self.wf(),
                before.wf(),
                before.grows_to(*self),
                0 < list <= before.cell_count(),
                current <= before.cell_count(),
                reversed <= self.cell_count(),
                (reversed == 0) == (current == list),
                self.list(reversed as nat).reverse() + before.list(current as nat) =~= before.list(
                    list as nat,
                ),
            decreases current,
        {
            let head = self.cells[current - 1].head;
            let tail: usize = self.cells[current - 1].tail;
            let ghost middle = *self;
            let ghost done = self.list(reversed as nat);
            proof {
                assert(before.cells@[current - 1].tail <= current - 1);
                assert(before.list(current as nat) =~= seq![head] + before.list(tail as nat));
            }
            reversed = self.cons(head, reversed);
            current = tail;
            proof {
                before.lemma_grow_transitive(middle, *self);
                assert(self.list(reversed as nat) =~= seq![head] + done);
                assert((seq![head] + done).reverse() =~= done.reverse() + seq![head]);
            }
        }
        proof {
            reveal_with_fuel(DequeArena::list, 1);
            assert(before.list(0) =~= Seq::<T>::empty());
            assert(self.list(reversed as nat).reverse() =~= before.list(list as nat));
            assert(self.list(reversed as nat).reverse().reverse() =~= self.list(reversed as nat));
            before.lemma_grow_keeps_list(*self, list as nat);
        }
        let ghost built = *self;
        self.remember_reversal(list, reversed);
        proof {
            built.lemma_grow_keeps_list(*self, list as nat);
            built.lemma_grow_keeps_list(*self, reversed as nat);
            assert(self.list(list as nat) =~= self.list(reversed as nat).reverse());
        }
        let ghost noted = *self;
        self.remember_reversal(reversed, list);
        proof {
            noted.lemma_grow_keeps_list(*self, reversed as nat);
            before.lemma_grow_transitive(built, noted);
            before.lemma_grow_transitive(noted, *self);
        }
        reversed
    }
}

} // verus!

verus! {

impl Deque {
    /// Whether the deque's list is the empty list.
    pub closed spec fn is_empty_spec(self) -> bool {
        self.list == 0
    }

    /// The deque without items.
    pub fn empty() -> (deque: Deque)
        ensures
            deque.is_empty_spec(),
    {
        Deque { list: 0, direction: DequeDirection::Forwards }
    }

    /// Whether the deque has no items.
    pub fn is_empty(&self) -> (empty: bool)
        ensures
            empty == self.is_empty_spec(),
    {
        self.list == 0
    }

    /// Relinks the deque, if need be, so that its first cell holds the item at
    /// the end named by `direction`.
    fn ensure_direction<T: Copy>(&mut self, arena: &mut DequeArena<T>, direction: DequeDirection)
        requires
            old(arena).wf(),
            old(arena).contains(*old(self)),
        ensures
            final(arena).wf(),
            old(arena).grows_to(*final(arena)),
            final(arena).contains(*final(self)),
            final(arena).items(*final(self)) == old(arena).items(*old(self)),
            final(self).direction == direction,
            final(self).is_empty_spec() == old(self).is_empty_spec(),
    {
        if self.direction != direction {
            let reversed: usize = arena.reverse_list(self.list);
            proof {
                let items = old(arena).list(old(self).list as nat);
                assert(items.reverse().reverse() =~= items);
            }
            self.list = reversed;
            self.direction = direction;
        } else {
            proof {
                old(arena).lemma_grow_reflexive();
            }
        }
    }

    /// Relinks the deque, if need be, so that it can be read front to back.
    pub fn ensure_forwards<T: Copy>(&mut self, arena: &mut DequeArena<T>)
        requires
            old(arena).wf(),
            old(arena).contains(*old(self)),
        ensures
            final(arena).wf(),
            old(arena).grows_to(*final(arena)),
            final(arena).contains(*final(self)),
            final(arena).items(*final(self)) == old(arena).items(*old(self)),
            final(self).is_forwards(),
    {
        self.ensure_direction(arena, DequeDirection::Forwards);
    }

    /// Whether the first cell holds the front item.
    pub closed spec fn is_forwards(self) -> bool {
        self.direction == DequeDirection::Forwards
    }

    /// Puts `item` at the end named by `direction`.
    fn push_at<T: Copy>(&mut self, arena: &mut DequeArena<T>, item: T, direction: DequeDirection)
        requires
            old(arena).wf(),
            old(arena).contains(*old(self)),
        ensures
            final(arena).wf(),
            old(arena).grows_to(*final(arena)),
            final(arena).contains(*final(self)),
            final(self).direction == direction,
            final(arena).list(final(self).list as nat) == seq![item] + match direction {
                DequeDirection::Forwards => old(arena).items(*old(self)),
                DequeDirection::Backwards => old(arena).items(*old(self)).reverse(),
            },
    {
        self.ensure_direction(arena, direction);
        let ghost middle = *arena;
        proof {
            let linked = middle.list(self.list as nat);
            assert(linked.reverse().reverse() =~= linked);
        }
        self.list = arena.cons(item, self.list);
        proof {
            old(arena).lemma_grow_transitive(middle, *arena);
        }
    }

    /// Takes the item at the end named by `direction`, if there is one.
    fn pop_at<T: Copy>(&mut self, arena: &mut DequeArena<T>, direction: DequeDirection) -> (item:
        Option<T>)
        requires
            old(arena).wf(),
            old(arena).contains(*old(self)),
        ensures
            final(arena).wf(),
            old(arena).grows_to(*final(arena)),
            final(arena).contains(*final(self)),
            final(self).direction == direction,
            item.is_none() <==> old(arena).items(*old(self)).len() == 0,
            item.is_none() ==> final(arena).list(final(self).list as nat).len() == 0,
            item.is_some() ==> seq![item.unwrap()] + final(arena).list(final(self).list as nat)
                == match direction {
                DequeDirection::Forwards => old(arena).items(*old(self)),
                DequeDirection::Backwards => old(arena).items(*old(self)).reverse(),
            },
    {
        self.ensure_direction(arena, direction);
        proof {
            let linked = arena.list(self.list as nat);
            assert(linked.reverse().reverse() =~= linked);
            arena.lemma_items_of_empty(*self);
            reveal_with_fuel(DequeArena::list, 1);
        }
        if self.list == 0 {
            None
        } else {
            let head = arena.cells[self.list - 1].head;
            let tail: usize = arena.cells[self.list - 1].tail;
            proof {
                assert(arena.cells@[self.list - 1].tail <= self.list - 1);
            }
            self.list = tail;
            Some(head)
        }
    }

    /// Puts `item` in front of the others.
    pub fn push_front<T: Copy>(&mut self, arena: &mut DequeArena<T>, item: T)
        requires
            old(arena).wf(),
            old(arena).contains(*old(self)),
        ensures
            final(arena).wf(),
            old(arena).grows_to(*final(arena)),
            final(arena).contains(*final(self)),
            final(arena).items(*final(self)) == seq![item] + old(arena).items(*old(self)),
    {
        self.push_at(arena, item, DequeDirection::Forwards);
    }

    /// Puts `item` behind the others.
    pub fn push_back<T: Copy>(&mut self, arena: &mut DequeArena<T>, item: T)
        requires
            old(arena).wf(),
            old(arena).contains(*old(self)),
        ensures
            final(arena).wf(),
            old(arena).grows_to(*final(arena)),
            final(arena).contains(*final(self)),
            final(arena).items(*final(self)) == old(arena).items(*old(self)).push(item),
    {
        self.push_at(arena, item, DequeDirection::Backwards);
        proof {
            let items = old(arena).items(*old(self));
            assert((seq![item] + items.reverse()).reverse() =~= items.push(item));
        }
    }

    /// Takes the front item; `None`, and nothing changes, where there is none.
    pub fn pop_front<T: Copy>(&mut self, arena: &mut DequeArena<T>) -> (item: Option<T>)
        requires
            old(arena).wf(),
            old(arena).contains(*old(self)),
        ensures
            final(arena).wf(),
            old(arena).grows_to(*final(arena)),
            final(arena).contains(*final(self)),
            match item {
                Some(front) => old(arena).items(*old(self)).len() > 0 && front == old(
                    arena,
                ).items(*old(self)).first() && final(arena).items(*final(self)) == old(
                    arena,
                ).items(*old(self)).drop_first(),
                None => old(arena).items(*old(self)).len() == 0 && final(arena).items(
                    *final(self),
                ).len() == 0,
            },
    {
        let item = self.pop_at(arena, DequeDirection::Forwards);
        proof {
            let items = old(arena).items(*old(self));
            let rest = arena.list(self.list as nat);
            if item.is_some() {
                assert((seq![item.unwrap()] + rest).drop_first() =~= rest);
            }
        }
        item
    }

    /// Takes the back item; `None`, and nothing changes, where there is none.
    pub fn pop_back<T: Copy>(&mut self, arena: &mut DequeArena<T>) -> (item: Option<T>)
        requires
            old(arena).wf(),
            old(arena).contains(*old(self)),
        ensures
            final(arena).wf(),
            old(arena).grows_to(*final(arena)),
            final(arena).contains(*final(self)),
            match item {
                Some(back) => old(arena).items(*old(self)).len() > 0 && back == old(arena).items(
                    *old(self),
                ).last() && final(arena).items(*final(self)) == old(arena).items(
                    *old(self),
                ).drop_last(),
                None => old(arena).items(*old(self)).len() == 0 && final(arena).items(
                    *final(self),
                ).len() == 0,
            },
    {
        let item = self.pop_at(arena, DequeDirection::Backwards);
        proof {
            let items = old(arena).items(*old(self));
            let rest = arena.list(self.list as nat);
            if item.is_some() {
                let linked = seq![item.unwrap()] + rest;
                assert(linked == items.reverse());
                assert(linked.reverse() =~= items.reverse().reverse());
                assert(items.reverse().reverse() =~= items);
                assert(linked.reverse() =~= rest.reverse().push(item.unwrap()));
                assert(rest.reverse().push(item.unwrap()).drop_last() =~= rest.reverse());
            } else {
                assert(rest.reverse() =~= rest);
            }
        }
        item
    }

    /// The items in the order in which the cells are linked: front to back
    /// for a deque that is linked forwards, back to front for the other.
    pub fn iter_unordered<T: Copy>(&self, arena: &DequeArena<T>) -> (items: Vec<T>)
        requires
            arena.wf(),
            arena.contains(*self),
        ensures
            self.is_forwards() ==> items@ == arena.items(*self),
            !self.is_forwards() ==> items@ == arena.items(*self).reverse(),
    {
        let mut items: Vec<T> = Vec::new();
        let mut current: usize = self.list;
        while current != 0
            invariant
                arena.wf(),
                current <= arena.cell_count(),
                items@ + arena.list(current as nat) =~= arena.list(self.list as nat),
            decreases current,
        {
            proof {
                assert(arena.cells@[current - 1].tail <= current - 1);
            }
            items.push(arena.cells[current - 1].head);
            current = arena.cells[current - 1].tail;
        }
        proof {
            reveal_with_fuel(DequeArena::list, 1);
            let linked = arena.list(self.list as nat);
            assert(items@ =~= linked);
            assert(linked.reverse().reverse() =~= linked);
        }
        items
    }

    /// The items, front first.
    pub fn iter<T: Copy>(&self, arena: &mut DequeArena<T>) -> (items: Vec<T>)
        requires
            old(arena).wf(),
            old(arena).contains(*self),
        ensures
            final(arena).wf(),
            old(arena).grows_to(*final(arena)),
            items@ == old(arena).items(*self),
    {
        let mut forwards = *self;
        forwards.ensure_forwards(arena);
        forwards.iter_unordered(arena)
    }
}

/// Whether two sequences are equally long and `eq` can say `true` of every
/// pair of items at the same place.
pub open spec fn items_agree<T, F: Fn(T, T) -> bool>(a: Seq<T>, b: Seq<T>, eq: F) -> bool {
    &&& a.len() == b.len()
    &&& forall|i: int| 0 <= i < a.len() ==> #[trigger] eq.ensures((a[i], b[i]), true)
}

/// Whether two sequences are not equally long, or `eq` can say `false` of
/// a pair of items at the same place.
pub open spec fn items_differ<T, F: Fn(T, T) -> bool>(a: Seq<T>, b: Seq<T>, eq: F) -> bool {
    ||| a.len() != b.len()
    ||| exists|i: int| 0 <= i < a.len() && i < b.len() && #[trigger] eq.ensures((a[i], b[i]), false)
}

/// Whether `order` is the order of two sequences by their first `agreed`
/// pairs and what follows: `item_order` can say `Equal` of each of these
/// pairs, and then either both sequences end, or one ends and comes first,
/// or `item_order` can say `order`, which is not `Equal`, of the next pair.
pub open spec fn ordered_after<T, F: Fn(T, T) -> Ordering>(
    a: Seq<T>,
    b: Seq<T>,
    item_order: F,
    order: Ordering,
    agreed: int,
) -> bool {
    &&& 0 <= agreed <= a.len()
    &&& agreed <= b.len()
    &&& forall|i: int| 0 <= i < agreed ==> #[trigger] item_order.ensures((a[i], b[i]), Ordering::Equal)
    &&& if agreed == a.len() && agreed == b.len() {
        order == Ordering::Equal
    } else if agreed == a.len() {
        order == Ordering::Less
    } else if agreed == b.len() {
        order == Ordering::Greater
    } else {
        order != Ordering::Equal && item_order.ensures((a[agreed], b[agreed]), order)
    }
}

impl Deque {
    /// Whether two deques hold equal items in the same order, where `eq`
    /// says which items are equal. The items are compared front to back, and
    /// no further than the first pair that is not equal.
    pub fn equals_with<T: Copy, F: Fn(T, T) -> bool>(
        self,
        arena: &mut DequeArena<T>,
        other: Deque,
        eq: F,
    ) -> (equal: bool)
        requires
            old(arena).wf(),
            old(arena).contains(self),
            old(arena).contains(other),
            forall|a: T, b: T| eq.requires((a, b)),
        ensures
            final(arena).wf(),
            old(arena).grows_to(*final(arena)),
            equal ==> items_agree(old(arena).items(self), old(arena).items(other), eq),
            !equal ==> items_differ(old(arena).items(self), old(arena).items(other), eq),
    {
        let mut mine = self;
        let mut theirs = other;
        let ghost first = arena.items(self);
        let ghost second = arena.items(other);
        let ghost mut agreed: int = 0;
        proof {
            arena.lemma_grow_reflexive();
            assert(first.skip(0) =~= first);
            assert(second.skip(0) =~= second);
        }
        loop
            invariant
                arena.wf(),
                old(arena).grows_to(*arena),
                arena.contains(mine),
                arena.contains(theirs),
                first == old(arena).items(self),
                second == old(arena).items(other),
                0 <= agreed <= first.len(),
                agreed <= second.len(),
                arena.items(mine) == first.skip(agreed),
                arena.items(theirs) == second.skip(agreed),
                forall|a: T, b: T| eq.requires((a, b)),
                forall|i: int| 0 <= i < agreed ==> #[trigger] eq.ensures((first[i], second[i]), true),
            decreases first.len() - agreed,
        {
            let ghost before = *arena;
            let a = mine.pop_front(arena);
            let ghost middle = *arena;
            proof {
                before.lemma_grow_extends(middle);
                assert(before.contains(theirs));
            }
            let b = theirs.pop_front(arena);
            proof {
                middle.lemma_grow_extends(*arena);
                assert(middle.contains(mine));
                before.lemma_grow_transitive(middle, *arena);
                old(arena).lemma_grow_transitive(before, *arena);
            }
            match (a, b) {
                (Some(a), Some(b)) => {
                    proof {
                        assert(first.skip(agreed).drop_first() =~= first.skip(agreed + 1));
                        assert(second.skip(agreed).drop_first() =~= second.skip(agreed + 1));
                        assert(a == first[agreed] && b == second[agreed]);
                    }
                    if !eq(a, b) {
                        return false;
                    }
                    proof {
                        agreed = agreed + 1;
                    }
                },
                (None, None) => {
                    return true;
                },
                _ => {
                    return false;
                },
            }
        }
    }

    /// The order of two deques, where `item_order` gives the order of two
    /// items: the first pair of items that `item_order` does not call
    /// `Equal` decides, and a proper prefix comes first.
    pub fn cmp_with<T: Copy, F: Fn(T, T) -> Ordering>(
        self,
        arena: &mut DequeArena<T>,
        other: Deque,
        item_order: F,
    ) -> (order: Ordering)
        requires
            old(arena).wf(),
            old(arena).contains(self),
            old(arena).contains(other),
            forall|a: T, b: T| item_order.requires((a, b)),
        ensures
            final(arena).wf(),
            old(arena).grows_to(*final(arena)),
            exists|agreed: int|
                ordered_after(
                    old(arena).items(self),
                    old(arena).items(other),
                    item_order,
                    order,
                    agreed,
                ),
    {
        let mut mine = self;
        let mut theirs = other;
        let ghost first = arena.items(self);
        let ghost second = arena.items(other);
        let ghost mut agreed: int = 0;
        proof {
            arena.lemma_grow_reflexive();
            assert(first.skip(0) =~= first);
            assert(second.skip(0) =~= second);
        }
        loop
            invariant
                arena.wf(),
                old(arena).grows_to(*arena),
                arena.contains(mine),
                arena.contains(theirs),
                first == old(arena).items(self),
                second == old(arena).items(other),
                0 <= agreed <= first.len(),
                agreed <= second.len(),
                arena.items(mine) == first.skip(agreed),
                arena.items(theirs) == second.skip(agreed),
                forall|a: T, b: T| item_order.requires((a, b)),
                forall|i: int|
                    0 <= i < agreed ==> #[trigger] item_order.ensures(
                        (first[i], second[i]),
                        Ordering::Equal,
                    ),
            decreases first.len() - agreed,
        {
            let ghost before = *arena;
            let a = mine.pop_front(arena);
            let ghost middle = *arena;
            proof {
                before.lemma_grow_extends(middle);
                assert(before.contains(theirs));
            }
            let b = theirs.pop_front(arena);
            proof {
                middle.lemma_grow_extends(*arena);
                assert(middle.contains(mine));
                before.lemma_grow_transitive(middle, *arena);
                old(arena).lemma_grow_transitive(before, *arena);
            }
            match (a, b) {
                (Some(a), Some(b)) => {
                    proof {
                        assert(first.skip(agreed).drop_first() =~= first.skip(agreed + 1));
                        assert(second.skip(agreed).drop_first() =~= second.skip(agreed + 1));
                        assert(a == first[agreed] && b == second[agreed]);
                    }
                    match item_order(a, b) {
                        Ordering::Equal => {},
                        Ordering::Less => {
                            proof {
                                assert(ordered_after(
                                    first,
                                    second,
                                    item_order,
                                    Ordering::Less,
                                    agreed,
                                ));
                            }
                            return Ordering::Less;
                        },
                        Ordering::Greater => {
                            proof {
                                assert(ordered_after(
                                    first,
                                    second,
                                    item_order,
                                    Ordering::Greater,
                                    agreed,
                                ));
                            }
                            return Ordering::Greater;
                        },
                    }
                    proof {
                        agreed = agreed + 1;
                    }
                },
                (None, None) => {
                    proof {
                        assert(ordered_after(first, second, item_order, Ordering::Equal, agreed));
                    }
                    return Ordering::Equal;
                },
                (None, Some(_)) => {
                    proof {
                        assert(ordered_after(first, second, item_order, Ordering::Less, agreed));
                    }
                    return Ordering::Less;
                },
                (Some(_), None) => {
                    proof {
                        assert(ordered_after(first, second, item_order, Ordering::Greater, agreed));
                    }
                    return Ordering::Greater;
                },
            }
        }
    }
}

} // verus!
