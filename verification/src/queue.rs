use vstd::prelude::*;
use crate::event::Event;

verus! {

/// A handle on an event in a queue: it names the event from its `push` until the event
/// leaves the queue, and nothing after that. The null handle names nothing.
#[derive(Clone, Copy, PartialEq, Eq, Structural, Debug)]
pub struct QueueIndex {
    pub id: Option<usize>,
}

impl QueueIndex {
    /// The null handle.
    pub fn new() -> (r: Self)
        ensures
            r.id.is_none(),
    {
        QueueIndex { id: None }
    }
}

/// A queue of events that gives out the one with the least `y` first, and from which an
/// event can be taken by its handle.
///
/// A binary heap of handles; beside it, for every handle ever given out, the event and the
/// place of the handle in the heap, kept up on every swap.
pub struct PriorityQueue {
    events: Vec<Event>,
    places: Vec<Option<usize>>,
    heap: Vec<usize>,
}

impl PriorityQueue {
    /// The events in the queue, each under the number of its handle.
    pub closed spec fn live(&self) -> Map<usize, Event> {
        Map::new(
            |id: usize| id < self.places@.len() && self.places@[id as int].is_some(),
            |id: usize| self.events@[id as int],
        )
    }

    /// The number of handles given out so far.
    pub closed spec fn issued(&self) -> nat {
        self.events@.len()
    }

    /// The number of events in the queue.
    pub closed spec fn size(&self) -> nat {
        self.heap@.len()
    }

    /// The `y` of the event at place `i` of the heap.
    spec fn key_at(&self, i: int) -> int {
        self.events@[self.heap@[i] as int].y.key as int
    }

    /// Heap and places name each other.
    spec fn linked(&self) -> bool {
        &&& self.events@.len() == self.places@.len()
        &&& forall|i: int|
            0 <= i < self.heap@.len() ==> (#[trigger] self.heap@[i]) < self.places@.len()
                && self.places@[self.heap@[i] as int].is_some() && self.places@[self.heap@[i] as int].unwrap()
                == i
        &&& forall|id: int|
            0 <= id < self.places@.len() ==> match #[trigger] self.places@[id] {
                Some(i) => i < self.heap@.len() && self.heap@[i as int] == id,
                None => true,
            }
        &&& forall|i: int|
            0 <= i < self.heap@.len() ==> self.events@[#[trigger] self.heap@[i] as int].y.is_number()
    }

    /// The heap order holds between place `j` and its parent.
    spec fn above(&self, j: int) -> bool {
        self.key_at((j - 1) / 2) <= self.key_at(j)
    }

    /// The heap order holds everywhere.
    spec fn ordered(&self) -> bool {
        forall|j: int| 0 < j < self.heap@.len() ==> #[trigger] self.above(j)
    }

    /// The queue is in order: every event in it has a number for its `y`, and the heap
    /// is a heap.
    pub closed spec fn wf(&self) -> bool {
        self.linked() && self.ordered()
    }

    /// Every event of the queue has a number for its `y`.
    pub proof fn lemma_live_numbers(&self)
        requires
            self.wf(),
        ensures
            forall|id: usize| #[trigger]
                self.live().contains_key(id) ==> id < self.issued() && self.live()[id].y.is_number(),
            self.live().dom().finite(),
            self.live().dom().len() == self.size(),
    {
        assert forall|id: usize| #[trigger] self.live().contains_key(id) implies id < self.issued()
            && self.live()[id].y.is_number() by {
            let i = self.places@[id as int].unwrap();
            assert(self.heap@[i as int] == id);
        }
        self.lemma_count();
    }

    proof fn lemma_count(&self)
        requires
            self.linked(),
        ensures
            self.live().dom().finite(),
            self.live().dom().len() == self.heap@.len(),
    {
        let ids = self.heap@;
        assert(ids.no_duplicates()) by {
            assert forall|a: int, b: int| 0 <= a < ids.len() && 0 <= b < ids.len() && a != b implies ids[a] != ids[b] by {
                assert(self.places@[ids[a] as int].unwrap() == a);
                assert(self.places@[ids[b] as int].unwrap() == b);
            }
        }
        ids.unique_seq_to_set();
        assert(ids.to_set() =~= self.live().dom()) by {
            assert forall|id: usize| ids.to_set().contains(id) == self.live().dom().contains(id) by {
                if ids.to_set().contains(id) {
                    let a = choose|a: int| 0 <= a < ids.len() && ids[a] == id;
                    assert(self.places@[ids[a] as int].is_some());
                }
                if self.live().dom().contains(id) {
                    let i = self.places@[id as int].unwrap();
                    assert(ids[i as int] == id);
                }
            }
        }
    }

    /// In a heap nothing lies below the root.
    proof fn lemma_root_least(&self, i: int)
        requires
            self.ordered(),
            0 <= i < self.heap@.len(),
        ensures
            self.key_at(0) <= self.key_at(i),
        decreases i,
    {
        if i > 0 {
            assert(self.above(i));
            self.lemma_root_least((i - 1) / 2);
        }
    }

    pub fn new() -> (r: Self)
        ensures
            r.wf(),
            r.live() == Map::<usize, Event>::empty(),
            r.issued() == 0,
            r.size() == 0,
    {
        let r = PriorityQueue { events: Vec::new(), places: Vec::new(), heap: Vec::new() };
        assert(r.live() =~= Map::<usize, Event>::empty());
        r
    }

    pub fn len(&self) -> (r: usize)
        ensures
            r == self.size(),
    {
        self.heap.len()
    }

    pub fn is_empty(&self) -> (r: bool)
        ensures
            r == (self.size() == 0),
    {
        self.heap.len() == 0
    }

    /// Whether the handle names an event of the queue.
    pub fn contains(&self, index: QueueIndex) -> (r: bool)
        ensures
            r == (index.id.is_some() && self.live().contains_key(index.id.unwrap())),
    {
        match index.id {
            None => false,
            Some(id) => id < self.places.len() && self.places[id].is_some(),
        }
    }

    /// Exchanges the handles at two places of the heap.
    fn swap(&mut self, i: usize, j: usize)
        requires
            old(self).linked(),
            i < old(self).heap@.len(),
            j < old(self).heap@.len(),
        ensures
            final(self).linked(),
            final(self).events@ == old(self).events@,
            final(self).heap@ == old(self).heap@.update(i as int, old(self).heap@[j as int]).update(
                j as int,
                old(self).heap@[i as int],
            ),
            final(self).live() == old(self).live(),
    {
        let a = self.heap[i];
        let b = self.heap[j];
        self.heap.set(i, b);
        self.heap.set(j, a);
        self.places.set(b, Some(i));
        self.places.set(a, Some(j));
        proof {
            assert(self.live() =~= old(self).live());
            assert forall|k: int| 0 <= k < self.heap@.len() implies (#[trigger] self.heap@[k])
                < self.places@.len() && self.places@[self.heap@[k] as int].is_some()
                && self.places@[self.heap@[k] as int].unwrap() == k by {
                if k != i && k != j {
                    assert(old(self).heap@[k] == self.heap@[k]);
                    assert(old(self).places@[old(self).heap@[k] as int].unwrap() == k);
                }
            }
            assert forall|id: int| 0 <= id < self.places@.len() implies match #[trigger] self.places@[id] {
                Some(k) => k < self.heap@.len() && self.heap@[k as int] == id,
                None => true,
            } by {
                if id != a && id != b {
                    assert(self.places@[id] == old(self).places@[id]);
                }
            }
            assert forall|k: int| 0 <= k < self.heap@.len() implies self.events@[#[trigger] self.heap@[k] as int].y.is_number() by {
                if k == i {
                    assert(old(self).events@[old(self).heap@[j as int] as int].y.is_number());
                } else if k == j {
                    assert(old(self).events@[old(self).heap@[i as int] as int].y.is_number());
                } else {
                    assert(old(self).heap@[k] == self.heap@[k]);
                }
            }
        }
    }

    /// Moves the handle at place `start` up to where the heap order holds again.
    fn sift_up(&mut self, start: usize)
        requires
            old(self).linked(),
            start < old(self).heap@.len(),
            forall|j: int|
                0 < j < old(self).heap@.len() && j != start ==> #[trigger] old(self).above(j),
            forall|j: int|
                0 < j < old(self).heap@.len() && (j - 1) / 2 == start && start > 0 ==> old(self).key_at((start - 1) / 2) <= #[trigger] old(self).key_at(j),
        ensures
            final(self).wf(),
            final(self).live() == old(self).live(),
            final(self).events@ == old(self).events@,
            final(self).heap@.len() == old(self).heap@.len(),
    {
        let mut i = start;
        while i > 0 && self.events[self.heap[i]].y.key < self.events[self.heap[(i - 1) / 2]].y.key
            invariant
                self.linked(),
                i < self.heap@.len(),
                self.live() == old(self).live(),
                self.events@ == old(self).events@,
                self.heap@.len() == old(self).heap@.len(),
                forall|j: int| 0 < j < self.heap@.len() && j != i ==> #[trigger] self.above(j),
                forall|j: int|
                    0 < j < self.heap@.len() && (j - 1) / 2 == i && i > 0 ==> self.key_at(
                        (i - 1) / 2,
                    ) <= #[trigger] self.key_at(j),
            decreases i,
        {
            let parent = (i - 1) / 2;
            let ghost before = *self;
            self.swap(i, parent);
            proof {
                assert forall|j: int| 0 < j < self.heap@.len() && j != parent implies #[trigger] self.above(j) by {
                    if j == i {
                    } else if (j - 1) / 2 == i {
                        assert(before.key_at(parent as int) <= before.key_at(j));
                    } else if (j - 1) / 2 == parent {
                        assert(before.above(j));
                    } else {
                        assert(before.above(j));
                    }
                }
                assert forall|j: int| 0 < j < self.heap@.len() && (j - 1) / 2 == parent && parent > 0 implies self.key_at(
                    (parent - 1) / 2,
                ) <= #[trigger] self.key_at(j) by {
                    assert(before.above(parent as int));
                    if j != i {
                        assert(before.above(j));
                    }
                }
            }
            i = parent;
        }
        proof {
            assert forall|j: int| 0 < j < self.heap@.len() implies #[trigger] self.above(j) by {
                if j == i {
                    assert(self.events@[self.heap@[i as int] as int].y.is_number());
                }
            }
        }
    }

    /// Moves the handle at place `start` down to where the heap order holds again.
    fn sift_down(&mut self, start: usize)
        requires
            old(self).linked(),
            start < old(self).heap@.len(),
            forall|j: int|
                0 < j < old(self).heap@.len() && (j - 1) / 2 != start ==> #[trigger] old(self).above(j),
            forall|j: int|
                0 < j < old(self).heap@.len() && (j - 1) / 2 == start && start > 0 ==> old(self).key_at((start - 1) / 2) <= #[trigger] old(self).key_at(j),
        ensures
            final(self).wf(),
            final(self).live() == old(self).live(),
            final(self).events@ == old(self).events@,
            final(self).heap@.len() == old(self).heap@.len(),
    {
        let n = self.heap.len();
        let half = n / 2;
        let mut i = start;
        let mut settled = false;
        while i < half && !settled
            invariant
                self.linked(),
                n == self.heap@.len(),
                half == n / 2,
                i < n,
                self.live() == old(self).live(),
                self.events@ == old(self).events@,
                forall|j: int|
                    0 < j < n && (j - 1) / 2 != i ==> #[trigger] self.above(j),
                forall|j: int|
                    0 < j < n && (j - 1) / 2 == i && i > 0 ==> self.key_at((i - 1) / 2)
                        <= #[trigger] self.key_at(j),
                settled ==> forall|j: int| 0 < j < n && (j - 1) / 2 == i ==> #[trigger] self.above(j),
            decreases n - i + (if settled { 0int } else { 1int }),
        {
            let left = 2 * i + 1;
            let right = left + 1;
            let mut least = left;
            if right < n && self.events[self.heap[right]].y.key < self.events[self.heap[left]].y.key {
                least = right;
            }
            if self.events[self.heap[least]].y.key < self.events[self.heap[i]].y.key {
                let ghost before = *self;
                self.swap(i, least);
                proof {
                    assert forall|j: int| 0 < j < n && (j - 1) / 2 != least implies #[trigger] self.above(j) by {
                        if j == least {
                        } else if (j - 1) / 2 == i {
                            assert(j == left || j == right);
                        } else if j == i {
                            assert(before.key_at((i - 1) / 2) <= before.key_at(least as int));
                        } else {
                            assert(before.above(j));
                        }
                    }
                    assert forall|j: int| 0 < j < n && (j - 1) / 2 == least && least > 0 implies self.key_at(
                        (least - 1) / 2,
                    ) <= #[trigger] self.key_at(j) by {
                        assert(before.above(j));
                    }
                }
                i = least;
            } else {
                settled = true;
                proof {
                    assert forall|j: int| 0 < j < n && (j - 1) / 2 == i implies #[trigger] self.above(j) by {
                        assert(j == left || j == right);
                    }
                }
            }
        }
        proof {
            assert forall|j: int| 0 < j < n implies #[trigger] self.above(j) by {
                if (j - 1) / 2 == i {
                    assert(settled);
                }
            }
        }
    }

    /// Enters the event and returns a handle on it.
    pub fn push(&mut self, event: Event) -> (r: QueueIndex)
        requires
            old(self).wf(),
            event.y.is_number(),
        ensures
            final(self).wf(),
            r.id == Some(old(self).issued() as usize),
            !old(self).live().contains_key(r.id.unwrap()),
            final(self).live() == old(self).live().insert(r.id.unwrap(), event),
            final(self).issued() == old(self).issued() + 1,
            final(self).size() == old(self).size() + 1,
    {
        let id = self.events.len();
        let place = self.heap.len();
        self.events.push(event);
        self.places.push(Some(place));
        self.heap.push(id);
        proof {
            assert(self.live() =~= old(self).live().insert(id, event));
            assert forall|j: int| 0 < j < self.heap@.len() && j != place implies #[trigger] self.above(j) by {
                assert(old(self).above(j));
            }
        }
        self.sift_up(place);
        QueueIndex { id: Some(id) }
    }

    /// Takes the handle at place `place` out of the heap.
    fn take(&mut self, place: usize) -> (r: usize)
        requires
            old(self).wf(),
            place < old(self).heap@.len(),
        ensures
            final(self).wf(),
            r == old(self).heap@[place as int],
            old(self).live().contains_key(r),
            final(self).live() == old(self).live().remove(r),
            final(self).events@ == old(self).events@,
            final(self).heap@.len() == old(self).heap@.len() - 1,
    {
        let last = self.heap.len() - 1;
        let id = self.heap[place];
        if place != last {
            self.swap(place, last);
        }
        self.heap.pop();
        self.places.set(id, None);
        proof {
            assert(self.live() =~= old(self).live().remove(id));
        }
        if place < last {
            proof {
                assert forall|j: int| 0 < j < self.heap@.len() && j != place && (j - 1) / 2 != place implies #[trigger] self.above(j) by {
                    assert(old(self).above(j));
                }
                assert forall|j: int| 0 < j < self.heap@.len() && (j - 1) / 2 == place && place > 0 implies self.key_at(
                    (place - 1) / 2,
                ) <= #[trigger] self.key_at(j) by {
                    assert(old(self).above(j));
                    assert(old(self).above(place as int));
                }
            }
            if place > 0 && self.events[self.heap[place]].y.key < self.events[self.heap[(place - 1) / 2]].y.key {
                proof {
                    assert forall|j: int| 0 < j < self.heap@.len() && j != place implies #[trigger] self.above(j) by {
                        if (j - 1) / 2 == place {
                            assert(self.key_at((place - 1) / 2) <= self.key_at(j));
                        }
                    }
                }
                self.sift_up(place);
            } else {
                proof {
                    assert forall|j: int| 0 < j < self.heap@.len() && (j - 1) / 2 != place implies #[trigger] self.above(j) by {
                        if j == place {
                            assert(self.events@[self.heap@[place as int] as int].y.is_number());
                            assert(self.events@[self.heap@[(place - 1) / 2] as int].y.is_number());
                        }
                    }
                }
                self.sift_down(place);
            }
        } else {
            proof {
                assert forall|j: int| 0 < j < self.heap@.len() implies #[trigger] self.above(j) by {
                    assert(old(self).above(j));
                }
            }
        }
        id
    }

    /// Takes out an event with the least `y`, if the queue holds any.
    pub fn pop(&mut self) -> (r: Option<Event>)
        requires
            old(self).wf(),
        ensures
            final(self).wf(),
            final(self).issued() == old(self).issued(),
            old(self).size() == 0 ==> r.is_none() && final(self).live() == old(self).live()
                && final(self).size() == 0,
            old(self).size() > 0 ==> r.is_some() && final(self).size() == old(self).size() - 1
                && exists|id: usize|
                {
                    &&& #[trigger] old(self).live().contains_key(id)
                    &&& old(self).live()[id] == r.unwrap()
                    &&& final(self).live() == old(self).live().remove(id)
                },
            r.is_some() ==> forall|id: usize| #[trigger]
                old(self).live().contains_key(id) ==> r.unwrap().y.le_spec(old(self).live()[id].y),
    {
        if self.heap.len() == 0 {
            proof {
                self.lemma_count();
                assert(self.live().dom() =~= Set::<usize>::empty());
            }
            return None;
        }
        proof {
            assert forall|id: usize| #[trigger] self.live().contains_key(id) implies self.events@[self.heap@[0] as int].y.le_spec(
                self.live()[id].y,
            ) by {
                let i = self.places@[id as int].unwrap();
                assert(self.heap@[i as int] == id);
                self.lemma_root_least(i as int);
            }
        }
        let id = self.take(0);
        Some(self.events[id])
    }

    /// Takes the event that the handle names out of the queue. Nothing happens where the
    /// handle names none: the null handle, or one whose event has left the queue.
    pub fn remove(&mut self, index: QueueIndex)
        requires
            old(self).wf(),
        ensures
            final(self).wf(),
            final(self).issued() == old(self).issued(),
            index.id.is_none() ==> final(self).live() == old(self).live(),
            index.id.is_some() ==> final(self).live() == old(self).live().remove(index.id.unwrap()),
    {
        match index.id {
            None => {},
            Some(id) => {
                if id < self.places.len() {
                    match self.places[id] {
                        Some(place) => {
                            self.take(place);
                        },
                        None => {
                            assert(self.live() =~= old(self).live().remove(id));
                        },
                    }
                } else {
                    assert(self.live() =~= old(self).live().remove(id));
                }
            },
        }
    }
}

} // verus!
