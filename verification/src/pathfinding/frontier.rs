//! The candidates of a route search that wait to be looked at, the cheapest
//! first.

use vstd::prelude::*;
use vstd::multiset::Multiset;
use vstd::seq_lib::{to_multiset_build, to_multiset_update};
use crate::pathfinding::search_node::{comes_before, Candidate, SearchNode};

verus! {

/// Whether `candidate` is the one of `open` that is looked at first.
pub open spec fn is_first(open: Multiset<Candidate>, candidate: Candidate) -> bool {
    &&& open.contains(candidate)
    &&& forall|other: Candidate| #[trigger]
        open.contains(other) ==> other == candidate || comes_before(candidate, other)
}

/// Two candidates that are both first are one.
pub proof fn lemma_first_is_unique(open: Multiset<Candidate>, a: Candidate, b: Candidate)
    requires
        is_first(open, a),
        is_first(open, b),
    ensures
        a == b,
{
}

/// Whether `a` is `b` or comes before it.
pub open spec fn at_most(a: Candidate, b: Candidate) -> bool {
    a == b || comes_before(a, b)
}

/// The place above place `i` of a heap.
pub open spec fn above(i: int) -> int {
    (i - 1) / 2
}

/// Whether no candidate comes before the one above it.
pub open spec fn is_heap(heap: Seq<Candidate>) -> bool {
    forall|i: int| 0 < i < heap.len() ==> at_most(heap[above(i)], #[trigger] heap[i])
}

/// Whether `heap` is a heap but for place `i`, whose candidate may come
/// before the one above it, yet not the candidates below it before that one.
pub open spec fn is_heap_but_up(heap: Seq<Candidate>, i: int) -> bool {
    &&& forall|j: int| 0 < j < heap.len() && j != i ==> at_most(heap[above(j)], #[trigger] heap[j])
    &&& forall|j: int|
        0 < j < heap.len() && above(j) == i && i > 0 ==> at_most(
            heap[above(i)],
            #[trigger] heap[j],
        )
}

/// Whether `heap` is a heap but for place `i`, whose candidate may come
/// after those below it, yet not those below it before the one above it.
pub open spec fn is_heap_but_down(heap: Seq<Candidate>, i: int) -> bool {
    &&& forall|j: int|
        0 < j < heap.len() && above(j) != i ==> at_most(heap[above(j)], #[trigger] heap[j])
    &&& forall|j: int|
        0 < j < heap.len() && above(j) == i && i > 0 ==> at_most(
            heap[above(i)],
            #[trigger] heap[j],
        )
}

/// No candidate of a heap comes before its first.
pub proof fn lemma_heap_starts_with_first(heap: Seq<Candidate>, i: int)
    requires
        is_heap(heap),
        0 <= i < heap.len(),
    ensures
        at_most(heap[0], heap[i]),
    decreases i,
{
    if i > 0 {
        lemma_heap_starts_with_first(heap, above(i));
        assert(at_most(heap[above(i)], heap[i]));
    }
}

/// The heap after the candidates at `i` and `j` have changed places.
pub open spec fn swapped(heap: Seq<Candidate>, i: int, j: int) -> Seq<Candidate> {
    heap.update(i, heap[j]).update(j, heap[i])
}

/// Changing places changes nothing of what a heap holds.
proof fn lemma_swapped_holds_the_same(heap: Seq<Candidate>, i: int, j: int)
    requires
        0 <= i < heap.len(),
        0 <= j < heap.len(),
    ensures
        swapped(heap, i, j).to_multiset() == heap.to_multiset(),
{
    broadcast use vstd::seq_lib::group_to_multiset_ensures;
    let between = heap.update(i, heap[j]);
    to_multiset_update(heap, i, heap[j]);
    to_multiset_update(between, j, heap[i]);
    assert(between[j] == heap[j]);
    assert(heap.contains(heap[i]));
    assert(heap.to_multiset().count(heap[i]) > 0);
    assert(swapped(heap, i, j).to_multiset() =~= heap.to_multiset());
}

/// Where the candidate at `i` comes before the one above it, letting the two
/// change places moves the exception one place up.
proof fn lemma_step_up(heap: Seq<Candidate>, i: int)
    requires
        0 < i < heap.len(),
        is_heap_but_up(heap, i),
        comes_before(heap[i], heap[above(i)]),
    ensures
        is_heap_but_up(swapped(heap, i, above(i)), above(i)),
{
    let up = above(i);
    let after = swapped(heap, i, up);
    assert forall|j: int| 0 < j < after.len() && j != up implies at_most(
        after[above(j)],
        #[trigger] after[j],
    ) by {
        if j == i {
        } else if above(j) == up {
            assert(at_most(heap[up], heap[j]));
        } else if above(j) == i {
            assert(at_most(heap[above(i)], heap[j]));
        } else {
            assert(at_most(heap[above(j)], heap[j]));
        }
    }
    assert forall|j: int| 0 < j < after.len() && above(j) == up && up > 0 implies at_most(
        after[above(up)],
        #[trigger] after[j],
    ) by {
        assert(at_most(heap[above(up)], heap[up]));
        if j != i {
            assert(at_most(heap[up], heap[j]));
        }
    }
}

/// Where the candidate at `i` does not come before the one above it, the
/// exception is none.
proof fn lemma_done_up(heap: Seq<Candidate>, i: int)
    requires
        0 <= i < heap.len(),
        is_heap_but_up(heap, i),
        i > 0 ==> !comes_before(heap[i], heap[above(i)]),
    ensures
        is_heap(heap),
{
    assert forall|j: int| 0 < j < heap.len() implies at_most(heap[above(j)], #[trigger] heap[j]) by {
        if j != i {
            assert(at_most(heap[above(j)], heap[j]));
        }
    }
}

/// Where the candidate at `least`, the first of those below `i`, comes
/// before the one at `i`, letting the two change places moves the exception
/// one place down.
proof fn lemma_step_down(heap: Seq<Candidate>, i: int, least: int)
    requires
        0 <= i < heap.len(),
        0 < least < heap.len(),
        above(least) == i,
        is_heap_but_down(heap, i),
        forall|j: int| 0 < j < heap.len() && above(j) == i ==> at_most(heap[least], heap[j]),
        comes_before(heap[least], heap[i]),
    ensures
        is_heap_but_down(swapped(heap, i, least), least),
{
    let after = swapped(heap, i, least);
    assert forall|j: int| 0 < j < after.len() && above(j) != least implies at_most(
        after[above(j)],
        #[trigger] after[j],
    ) by {
        if j == least {
        } else if above(j) == i {
            assert(at_most(heap[least], heap[j]));
        } else if j == i {
            assert(at_most(heap[above(i)], heap[least]));
        } else {
            assert(at_most(heap[above(j)], heap[j]));
        }
    }
    assert forall|j: int| 0 < j < after.len() && above(j) == least && least > 0 implies at_most(
        after[above(least)],
        #[trigger] after[j],
    ) by {
        assert(at_most(heap[above(j)], heap[j]));
    }
}

/// Where no candidate below `i` comes before the one at `i`, the exception
/// is none.
proof fn lemma_done_down(heap: Seq<Candidate>, i: int)
    requires
        0 <= i < heap.len(),
        is_heap_but_down(heap, i),
        forall|j: int| 0 < j < heap.len() && above(j) == i ==> at_most(heap[i], heap[j]),
    ensures
        is_heap(heap),
{
    assert forall|j: int| 0 < j < heap.len() implies at_most(heap[above(j)], #[trigger] heap[j]) by {
        if above(j) != i {
            assert(at_most(heap[above(j)], heap[j]));
        }
    }
}

/// The candidates that wait to be looked at, kept as a binary heap. One
/// candidate may wait more than once.
pub struct Frontier {
    nodes: Vec<SearchNode>,
}

/// What `node` stands for.
pub open spec fn candidate_of(node: SearchNode) -> Candidate {
    node@
}

impl View for Frontier {
    type V = Multiset<Candidate>;

    closed spec fn view(&self) -> Multiset<Candidate> {
        self.candidates().to_multiset()
    }
}

impl Frontier {
    /// The candidates in the order in which they are kept.
    pub closed spec fn candidates(&self) -> Seq<Candidate> {
        self.nodes@.map_values(|node: SearchNode| candidate_of(node))
    }

    /// The candidates are kept as a heap.
    pub closed spec fn wf(&self) -> bool {
        is_heap(self.candidates())
    }

    /// A frontier in which nothing waits.
    pub fn new() -> (frontier: Frontier)
        ensures
            frontier.wf(),
            frontier@ == Multiset::<Candidate>::empty(),
    {
        let frontier = Frontier { nodes: Vec::new() };
        proof {
            broadcast use vstd::seq_lib::group_to_multiset_ensures;
            assert(frontier.candidates() =~= Seq::<Candidate>::empty());
            assert(frontier.candidates().to_multiset().len() == 0);
            assert(frontier@ =~= Multiset::<Candidate>::empty());
        }
        frontier
    }

    /// Whether nothing waits.
    pub fn is_empty(&self) -> (empty: bool)
        ensures
            empty == (self@.len() == 0),
    {
        proof {
            broadcast use vstd::seq_lib::group_to_multiset_ensures;
        }
        self.nodes.len() == 0
    }

    /// Lets the nodes at `i` and `j` change places.
    fn swap(&mut self, i: usize, j: usize)
        requires
            i < old(self).nodes.len(),
            j < old(self).nodes.len(),
        ensures
            final(self).nodes.len() == old(self).nodes.len(),
            final(self).candidates() == swapped(old(self).candidates(), i as int, j as int),
            final(self)@ == old(self)@,
    {
        let ghost before = self.candidates();
        let a = self.nodes[i];
        let b = self.nodes[j];
        self.nodes[i] = b;
        self.nodes[j] = a;
        proof {
            assert(self.candidates() =~= swapped(before, i as int, j as int));
            lemma_swapped_holds_the_same(before, i as int, j as int);
        }
    }

    /// Lets `node` wait.
    pub fn push(&mut self, node: SearchNode)
        requires
            old(self).wf(),
        ensures
            final(self).wf(),
            final(self)@ == old(self)@.insert(node@),
    {
        proof {
            to_multiset_build(self.candidates(), node@);
            assert(self.nodes@.push(node).map_values(|node: SearchNode| candidate_of(node))
                =~= self.candidates().push(node@));
        }
        self.nodes.push(node);
        let mut i: usize = self.nodes.len() - 1;
        while i > 0
            invariant
                i < self.nodes.len(),
                self@ == old(self)@.insert(node@),
                is_heap_but_up(self.candidates(), i as int),
            ensures
                is_heap(self.candidates()),
            decreases i,
        {
            let up: usize = (i - 1) / 2;
            if !self.nodes[i].precedes(&self.nodes[up]) {
                proof {
                    lemma_done_up(self.candidates(), i as int);
                }
                break ;
            }
            proof {
                lemma_step_up(self.candidates(), i as int);
            }
            self.swap(i, up);
            i = up;
        }
    }

    /// Takes out the node that is looked at first, if any waits.
    pub fn pop(&mut self) -> (first: Option<SearchNode>)
        requires
            old(self).wf(),
        ensures
            final(self).wf(),
            match first {
                Some(node) => is_first(old(self)@, node@) && final(self)@ == old(self)@.remove(
                    node@,
                ),
                None => old(self)@.len() == 0 && final(self)@ == old(self)@,
            },
    {
        proof {
            broadcast use vstd::seq_lib::group_to_multiset_ensures;
        }
        if self.nodes.len() == 0 {
            return None;
        }
        let ghost before = self.candidates();
        let first = self.nodes[0];
        proof {
            assert(before[0] == first@);
            assert forall|other: Candidate| #[trigger] self@.contains(other) implies other
                == first@ || comes_before(first@, other) by {
                let j = choose|j: int| 0 <= j < before.len() && before[j] == other;
                lemma_heap_starts_with_first(before, j);
            }
        }
        let last = self.nodes.pop().unwrap();
        proof {
            let shorter = self.candidates();
            assert(shorter =~= before.drop_last());
            assert(before =~= shorter.push(last@));
            to_multiset_build(shorter, last@);
        }
        if self.nodes.len() == 0 {
            proof {
                assert(self.candidates() =~= Seq::<Candidate>::empty());
                assert(self@ =~= old(self)@.remove(first@));
            }
            return Some(first);
        }
        proof {
            to_multiset_update(self.candidates(), 0, last@);
            assert(self.nodes@.update(0, last).map_values(|node: SearchNode| candidate_of(node))
                =~= self.candidates().update(0, last@));
        }
        self.nodes[0] = last;
        assert(self@ =~= old(self)@.remove(first@));
        let len: usize = self.nodes.len();
        let mut i: usize = 0;
        loop
            invariant
                i < len,
                len == self.nodes.len(),
                self@ == old(self)@.remove(first@),
                is_heap_but_down(self.candidates(), i as int),
            ensures
                is_heap(self.candidates()),
            decreases len - i,
        {
            let ghost heap = self.candidates();
            if i >= len / 2 {
                proof {
                    lemma_done_down(heap, i as int);
                }
                break ;
            }
            let left: usize = 2 * i + 1;
            let right: usize = left + 1;
            let mut least: usize = left;
            if right < len && self.nodes[right].precedes(&self.nodes[left]) {
                least = right;
            }
            assert forall|j: int| 0 < j < heap.len() && above(j) == i implies at_most(
                heap[least as int],
                heap[j],
            ) by {
                assert(j == left || j == right);
            }
            if !self.nodes[least].precedes(&self.nodes[i]) {
                proof {
                    assert forall|j: int| 0 < j < heap.len() && above(j) == i implies at_most(
                        heap[i as int],
                        heap[j],
                    ) by {
                        assert(at_most(heap[least as int], heap[j]));
                    }
                    lemma_done_down(heap, i as int);
                }
                break ;
            }
            proof {
                lemma_step_down(heap, i as int, least as int);
            }
            self.swap(i, least);
            i = least;
        }
        Some(first)
    }
}

} // verus!
