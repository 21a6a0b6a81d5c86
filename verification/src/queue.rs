//! A priority queue kept as a vector in ascending order of priority, with
//! first-in first-out order among entries of equal priority.

use vstd::prelude::*;

verus! {

/// One queued entry: a payload and the priority that places it.
#[derive(Debug, Copy, Clone, PartialEq, Eq, Structural)]
pub struct PQElement {
    pub value: i32,
    pub priority: i32,
}

/// No entry has a greater priority than one behind it.
pub open spec fn ordered_by_priority(s: Seq<PQElement>) -> bool {
    forall|i: int, j: int| 0 <= i <= j < s.len() ==> s[i].priority <= s[j].priority
}

/// Where an entry of the given priority goes: the position of the first
/// entry whose priority is strictly greater, or the end if there is none.
pub open spec fn insertion_point(s: Seq<PQElement>, priority: i32) -> int
    decreases s.len(),
{
    if s.len() == 0 || s[0].priority > priority {
        0
    } else {
        1 + insertion_point(s.drop_first(), priority)
    }
}

/// The contents of a queue holding `s` after `entry` has been enqueued.
pub open spec fn enqueued(s: Seq<PQElement>, entry: PQElement) -> Seq<PQElement> {
    s.insert(insertion_point(s, entry.priority), entry)
}

/// The contents of a queue that started empty and was given `entries` one
/// after the other.
pub open spec fn enqueued_all(entries: Seq<PQElement>) -> Seq<PQElement>
    decreases entries.len(),
{
    if entries.len() == 0 {
        Seq::empty()
    } else {
        enqueued(enqueued_all(entries.drop_last()), entries.last())
    }
}

/// `at` is a position behind entries whose priority is at most `priority`
/// only, and it is the end or holds an entry of greater priority.
pub open spec fn is_first_greater(s: Seq<PQElement>, priority: i32, at: int) -> bool {
    &&& 0 <= at <= s.len()
    &&& forall|i: int| 0 <= i < at ==> s[i].priority <= priority
    &&& at < s.len() ==> s[at].priority > priority
}

/// The insertion point is the one position behind entries of the same or a
/// lower priority only and before an entry of greater priority, if any.
pub proof fn lemma_insertion_point(s: Seq<PQElement>, priority: i32)
    ensures
        is_first_greater(s, priority, insertion_point(s, priority)),
        forall|at: int|
            is_first_greater(s, priority, at) ==> at == insertion_point(s, priority),
    decreases s.len(),
{
    if s.len() > 0 && s[0].priority <= priority {
        let rest = s.drop_first();
        lemma_insertion_point(rest, priority);
        let next = insertion_point(rest, priority);
        assert forall|i: int| 0 <= i < next + 1 implies s[i].priority <= priority by {
            if i > 0 {
                assert(rest[i - 1] == s[i]);
            }
        }
        assert forall|at: int| is_first_greater(s, priority, at) implies at == next + 1 by {
            assert forall|i: int| 0 <= i < at - 1 implies rest[i].priority <= priority by {
                assert(rest[i] == s[i + 1]);
            }
            assert(is_first_greater(rest, priority, at - 1));
        }
    }
}

/// Enqueueing into an ordered queue leaves it ordered.
pub proof fn lemma_enqueued_ordered(s: Seq<PQElement>, entry: PQElement)
    requires
        ordered_by_priority(s),
    ensures
        ordered_by_priority(enqueued(s, entry)),
{
    lemma_insertion_point(s, entry.priority);
    let at = insertion_point(s, entry.priority);
    let t = enqueued(s, entry);
    assert forall|i: int, j: int| 0 <= i <= j < t.len() implies t[i].priority
        <= t[j].priority by {
        // `t` is `s` with `entry` at `at`: what stood before `at` stands
        // where it stood, the rest one place further back
        let from_i = if i < at { i } else { i - 1 };
        let from_j = if j < at { j } else { j - 1 };
        if i != at && j != at {
            assert(s[from_i].priority <= s[from_j].priority);
        }
    }
}

/// Whatever is enqueued into an empty queue, and in whatever order, the
/// queue is ordered by priority after each step.
pub proof fn lemma_enqueued_all_ordered(entries: Seq<PQElement>)
    ensures
        ordered_by_priority(enqueued_all(entries)),
    decreases entries.len(),
{
    if entries.len() > 0 {
        lemma_enqueued_all_ordered(entries.drop_last());
        lemma_enqueued_ordered(enqueued_all(entries.drop_last()), entries.last());
    }
}

/// Entries in ascending order of priority; entries of equal priority stay in
/// the order in which they were enqueued.
#[derive(PartialEq)]
pub struct PriorityQueue {
    elements: Vec<PQElement>,
}

impl View for PriorityQueue {
    type V = Seq<PQElement>;

    closed spec fn view(&self) -> Seq<PQElement> {
        self.elements@
    }
}

impl PriorityQueue {
    #[verifier::type_invariant]
    spec fn well_formed(self) -> bool {
        ordered_by_priority(self.elements@)
    }

    /// Creates a new empty `PriorityQueue`.
    pub fn new() -> (queue: Self)
        ensures
            queue@ == Seq::<PQElement>::empty(),
    {
        PriorityQueue { elements: Vec::new() }
    }

    /// Adds an element to the `PriorityQueue` according to priority: behind
    /// every entry of the same or a lower priority, before the rest.
    pub fn enqueue(&mut self, value: i32, priority: i32)
        ensures
            final(self)@ == enqueued(old(self)@, (PQElement { value, priority })),
            ordered_by_priority(final(self)@),
    {
        let pqe = PQElement { value, priority };
        let mut is_queued = false;
        proof {
            use_type_invariant(&*self);
            lemma_insertion_point(self@, priority);
            lemma_enqueued_ordered(self@, pqe);
        }
        // The vector leaves the queue while it is rearranged, so that the
        // queue is in order whenever it can be seen.
        let mut elements: Vec<PQElement> = Vec::new();
        core::mem::swap(&mut self.elements, &mut elements);
        let len: usize = elements.len();
        for i in 0..len
            invariant_except_break
                !is_queued,
                elements@ == old(self)@,
                forall|k: int| 0 <= k < i ==> elements@[k].priority <= priority,
            invariant
                len == old(self)@.len(),
                pqe == (PQElement { value, priority }),
            ensures
                is_queued ==> elements@ == enqueued(old(self)@, pqe),
                !is_queued ==> elements@ == old(self)@ && forall|k: int|
                    0 <= k < len ==> elements@[k].priority <= priority,
        {
            if elements[i].priority > pqe.priority {
                proof {
                    lemma_insertion_point(elements@, priority);
                }
                elements.insert(i, pqe);
                is_queued = true;
                break ;
            }
        }
        if !is_queued {
            elements.push(pqe);
        }
        self.elements = elements;
    }

    /// Removes highest priority element & returns it: the entry at the
    /// front, whose priority no other entry is below. An empty queue gives
    /// `None` and stays empty.
    pub fn dequeue(&mut self) -> (front: Option<PQElement>)
        ensures
            old(self)@.len() == 0 ==> front.is_none() && final(self)@ == old(self)@,
            old(self)@.len() > 0 ==> front == Some(old(self)@[0]) && final(self)@ == old(
                self,
            )@.drop_first(),
            ordered_by_priority(old(self)@),
            ordered_by_priority(final(self)@),
    {
        proof {
            use_type_invariant(&*self);
        }
        match self.elements.is_empty() {
            true => None,
            false => {
                let mut elements: Vec<PQElement> = Vec::new();
                core::mem::swap(&mut self.elements, &mut elements);
                let front = elements.remove(0);
                proof {
                    assert forall|i: int, j: int|
                        0 <= i <= j < elements@.len() implies elements@[i].priority
                        <= elements@[j].priority by {
                        assert(old(self)@[i + 1].priority <= old(self)@[j + 1].priority);
                    }
                }
                self.elements = elements;
                Some(front)
            },
        }
    }

    /// Returns highest priority element but doesn't remove it: a copy of
    /// the entry at the front, or `None` where the queue is empty.
    pub fn front(&self) -> (front: Option<PQElement>)
        ensures
            self@.len() == 0 ==> front.is_none(),
            self@.len() > 0 ==> front == Some(self@[0]),
            ordered_by_priority(self@),
    {
        proof {
            use_type_invariant(self);
        }
        match self.elements.is_empty() {
            true => None,
            false => Some(self.elements[0]),
        }
    }

    /// The queued entries from front to back, which are in ascending order
    /// of priority.
    pub fn elements(&self) -> (entries: &[PQElement])
        ensures
            entries@ == self@,
            ordered_by_priority(entries@),
    {
        proof {
            use_type_invariant(self);
        }
        self.elements.as_slice()
    }
}

} // verus!
