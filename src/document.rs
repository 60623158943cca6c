use vstd::prelude::*;

use crate::elements::Element;

verus! {

/// A traversal marker: `Start` for every node, `End` for containers only.
#[derive(Clone, Copy, Debug, PartialEq, Eq, Structural)]
pub enum Event {
    Start(usize),
    End(usize),
}

/// The parsed tree, held as an arena in pre-order.
///
/// Node `i` owns the nodes `i + 1 .. ends[i]`; its children are the first of
/// them and, after each child `c`, the node at `ends[c]`. All links are indices.
pub struct Document {
    pub elements: Vec<Element>,
    pub ends: Vec<usize>,
    /// The parent of each node but the root; the root's entry is 0.
    pub parents: Vec<usize>,
    /// Length in bytes of the parsed input; every view lies within it.
    pub src_len: usize,
}

/// Arena shape: each subtree is a nonempty range inside the arena, leaves own
/// nothing, and two subtrees are nested or disjoint.
pub open spec fn arena_wf(elems: Seq<Element>, ends: Seq<usize>, n: nat) -> bool {
    &&& elems.len() == ends.len()
    &&& forall|i: int|
        0 <= i < ends.len() ==> {
            &&& i < #[trigger] ends[i] <= ends.len()
            &&& (!elems[i].container() ==> ends[i] == i + 1)
            &&& elems[i].within(n)
        }
    &&& forall|i: int, j: int|
        0 <= i < j < ends.len() && j < #[trigger] ends[i] ==> #[trigger] ends[j] <= ends[i]
}

/// Events of the subtree rooted at `i`.
pub open spec fn subtree_events(elems: Seq<Element>, ends: Seq<usize>, i: int) -> Seq<Event>
    decreases 2 * (ends[i] - i), 0int,
{
    if 0 <= i < ends.len() && i < ends[i] <= ends.len() {
        let tail = if elems[i].container() {
            seq![Event::End(i as usize)]
        } else {
            Seq::empty()
        };
        seq![Event::Start(i as usize)] + children_events(elems, ends, i + 1, ends[i] as int) + tail
    } else {
        Seq::empty()
    }
}

/// Events of the sibling subtrees starting at `j`, up to position `stop`.
pub open spec fn children_events(elems: Seq<Element>, ends: Seq<usize>, j: int, stop: int) -> Seq<Event>
    decreases 2 * (stop - j) + 1, 1int,
{
    if 0 <= j < stop && stop <= ends.len() && j < ends[j] <= stop {
        subtree_events(elems, ends, j) + children_events(elems, ends, ends[j] as int, stop)
    } else {
        Seq::empty()
    }
}

/// How many times `e` occurs in `s`.
pub open spec fn occurrences(s: Seq<Event>, e: Event) -> nat
    decreases s.len(),
{
    if s.len() == 0 {
        0
    } else {
        occurrences(s.drop_last(), e) + if s.last() == e {
            1nat
        } else {
            0nat
        }
    }
}

pub proof fn lemma_occurrences_concat(a: Seq<Event>, b: Seq<Event>, e: Event)
    ensures
        occurrences(a + b, e) == occurrences(a, e) + occurrences(b, e),
    decreases b.len(),
{
    if b.len() == 0 {
        assert(a + b =~= a);
    } else {
        lemma_occurrences_concat(a, b.drop_last(), e);
        assert((a + b).drop_last() =~= a + b.drop_last());
    }
}

proof fn lemma_occurrences_single(x: Event, e: Event)
    ensures
        occurrences(seq![x], e) == if x == e {
            1nat
        } else {
            0nat
        },
{
    assert(seq![x].drop_last() =~= Seq::<Event>::empty());
    assert(occurrences(Seq::<Event>::empty(), e) == 0);
}

proof fn lemma_subtree_counts(elems: Seq<Element>, ends: Seq<usize>, n: nat, i: int, k: usize)
    requires
        arena_wf(elems, ends, n),
        0 <= i < ends.len(),
    ensures
        occurrences(subtree_events(elems, ends, i), Event::Start(k)) == if i <= k
            < ends[i] {
            1nat
        } else {
            0nat
        },
        occurrences(subtree_events(elems, ends, i), Event::End(k)) == if i <= k
            < ends[i] && elems[k as int].container() {
            1nat
        } else {
            0nat
        },
    decreases 2 * (ends[i] - i), 0int,
{
    let ch = children_events(elems, ends, i + 1, ends[i] as int);
    let tail = if elems[i].container() {
        seq![Event::End(i as usize)]
    } else {
        Seq::empty()
    };
    assert forall|m: int| i + 1 <= m < ends[i] implies #[trigger] ends[m] <= ends[i] by {
        assert(ends[m] == ends[m]);
    }
    lemma_children_counts(elems, ends, n, i + 1, ends[i] as int, k);
    lemma_occurrences_concat(seq![Event::Start(i as usize)], ch, Event::Start(k));
    lemma_occurrences_concat(seq![Event::Start(i as usize)] + ch, tail, Event::Start(k));
    lemma_occurrences_concat(seq![Event::Start(i as usize)], ch, Event::End(k));
    lemma_occurrences_concat(seq![Event::Start(i as usize)] + ch, tail, Event::End(k));
    lemma_occurrences_single(Event::Start(i as usize), Event::Start(k));
    lemma_occurrences_single(Event::Start(i as usize), Event::End(k));
    if elems[i].container() {
        lemma_occurrences_single(Event::End(i as usize), Event::Start(k));
        lemma_occurrences_single(Event::End(i as usize), Event::End(k));
    } else {
        assert(occurrences(tail, Event::Start(k)) == 0);
        assert(occurrences(tail, Event::End(k)) == 0);
    }
}

proof fn lemma_children_counts(
    elems: Seq<Element>,
    ends: Seq<usize>,
    n: nat,
    j: int,
    stop: int,
    k: usize,
)
    requires
        arena_wf(elems, ends, n),
        0 <= j <= stop <= ends.len(),
        forall|m: int| j <= m < stop ==> #[trigger] ends[m] <= stop,
    ensures
        occurrences(children_events(elems, ends, j, stop), Event::Start(k)) == if j <= k
            < stop {
            1nat
        } else {
            0nat
        },
        occurrences(children_events(elems, ends, j, stop), Event::End(k)) == if j <= k
            < stop && elems[k as int].container() {
            1nat
        } else {
            0nat
        },
    decreases 2 * (stop - j) + 1, 1int,
{
    if j < stop {
        assert(j < ends[j] <= stop);
        lemma_subtree_counts(elems, ends, n, j, k);
        lemma_children_counts(elems, ends, n, ends[j] as int, stop, k);
        lemma_occurrences_concat(
            subtree_events(elems, ends, j),
            children_events(elems, ends, ends[j] as int, stop),
            Event::Start(k),
        );
        lemma_occurrences_concat(
            subtree_events(elems, ends, j),
            children_events(elems, ends, ends[j] as int, stop),
            Event::End(k),
        );
    }
}

impl Document {
    /// The arena is well formed, its root is the document node and spans the
    /// whole arena, and every view lies within the input.
    pub open spec fn wf(&self) -> bool {
        &&& self.elements@.len() > 0
        &&& self.elements@[0] == Element::Document
        &&& self.ends@[0] == self.elements@.len()
        &&& arena_wf(self.elements@, self.ends@, self.src_len as nat)
        &&& self.parents@.len() == self.elements@.len()
        &&& forall|i: int| 0 < i < self.elements@.len() ==> self.parent_of(i, #[trigger] self.parents@[i] as int)
    }

    /// `p` is the innermost node whose subtree holds node `i`.
    pub open spec fn parent_of(&self, i: int, p: int) -> bool {
        &&& 0 <= p < i < self.ends@[p]
        &&& forall|k: int| p < k < i ==> #[trigger] self.ends@[k] <= i
    }

    /// The depth-first event sequence of the whole tree.
    pub open spec fn event_seq(&self) -> Seq<Event> {
        subtree_events(self.elements@, self.ends@, 0)
    }

    pub fn len(&self) -> (r: usize)
        ensures
            r == self.elements@.len(),
    {
        self.elements.len()
    }

    /// The construct held by node `i`.
    pub fn element(&self, i: usize) -> (r: &Element)
        requires
            i < self.elements@.len(),
        ensures
            *r == self.elements@[i as int],
    {
        &self.elements[i]
    }

    /// The parent of node `i`; `None` for the root.
    pub fn parent(&self, i: usize) -> (r: Option<usize>)
        requires
            self.wf(),
            i < self.elements@.len(),
        ensures
            i == 0 ==> r is None,
            i > 0 ==> r == Some(self.parents@[i as int]) && self.parent_of(i as int, self.parents@[i as int] as int),
    {
        if i == 0 {
            None
        } else {
            Some(self.parents[i])
        }
    }

    /// The first child of node `i`, if it has children.
    pub fn first_child(&self, i: usize) -> (r: Option<usize>)
        requires
            self.wf(),
            i < self.elements@.len(),
        ensures
            r == if i + 1 < self.ends@[i as int] {
                Some((i + 1) as usize)
            } else {
                None
            },
    {
        assert(i < self.ends@[i as int] <= self.elements@.len());
        if i + 1 < self.ends[i] {
            Some(i + 1)
        } else {
            None
        }
    }

    /// The sibling that follows node `i`, if any.
    pub fn next_sibling(&self, i: usize) -> (r: Option<usize>)
        requires
            self.wf(),
            i < self.elements@.len(),
        ensures
            r == if i > 0 && self.ends@[i as int] < self.ends@[self.parents@[i as int] as int] {
                Some(self.ends@[i as int])
            } else {
                None
            },
    {
        if i == 0 {
            return None;
        }
        let p = self.parents[i];
        assert(self.parent_of(i as int, p as int));
        if self.ends[i] < self.ends[p] {
            Some(self.ends[i])
        } else {
            None
        }
    }

    /// Appends the events of the subtree rooted at `i`.
    fn walk(&self, i: usize, out: &mut Vec<Event>)
        requires
            arena_wf(self.elements@, self.ends@, self.src_len as nat),
            i < self.ends@.len(),
        ensures
            final(out)@ == old(out)@ + subtree_events(self.elements@, self.ends@, i as int),
        decreases 2 * (self.ends@[i as int] - i), 0int,
    {
        let ghost start = out@;
        let stop = self.ends[i];
        out.push(Event::Start(i));
        let mut j: usize = i + 1;
        assert(children_events(self.elements@, self.ends@, stop as int, stop as int) =~= Seq::empty());
        while j < stop
            invariant
                arena_wf(self.elements@, self.ends@, self.src_len as nat),
                i < j <= stop,
                stop == self.ends@[i as int],
                stop <= self.ends@.len(),
                start + seq![Event::Start(i)] + children_events(
                    self.elements@,
                    self.ends@,
                    i + 1,
                    stop as int,
                ) == out@ + children_events(self.elements@, self.ends@, j as int, stop as int),
            decreases stop - j,
        {
            let next = self.ends[j];
            assert(next <= stop);
            self.walk(j, out);
            j = next;
        }
        if self.elements[i].is_container() {
            out.push(Event::End(i));
        }
        assert(out@ =~= old(out)@ + subtree_events(self.elements@, self.ends@, i as int));
    }

    /// The whole depth-first event sequence: `Start` on entering every node,
    /// `End` after the children of every container.
    pub fn iter(&self) -> (r: Vec<Event>)
        requires
            self.wf(),
        ensures
            r@ == self.event_seq(),
    {
        let mut out: Vec<Event> = Vec::new();
        self.walk(0, &mut out);
        assert(out@ =~= self.event_seq());
        out
    }
}

/// Every node is entered exactly once; a container is left exactly once and a
/// leaf is never left.
pub proof fn lemma_events_balanced(doc: &Document, k: usize)
    requires
        doc.wf(),
        k < doc.elements@.len(),
    ensures
        occurrences(doc.event_seq(), Event::Start(k)) == 1,
        occurrences(doc.event_seq(), Event::End(k)) == if doc.elements@[k as int].container() {
            1nat
        } else {
            0nat
        },
{
    lemma_subtree_counts(doc.elements@, doc.ends@, doc.src_len as nat, 0, k);
}

proof fn lemma_occurs_at(s: Seq<Event>, p: int)
    requires
        0 <= p < s.len(),
    ensures
        occurrences(s, s[p]) >= 1,
    decreases s.len(),
{
    if p < s.len() - 1 {
        lemma_occurs_at(s.drop_last(), p);
    }
}

/// Every event names a node of the document.
pub proof fn lemma_event_in_range(doc: &Document, p: int)
    requires
        doc.wf(),
        0 <= p < doc.event_seq().len(),
    ensures
        match doc.event_seq()[p] {
            Event::Start(i) => i < doc.elements@.len(),
            Event::End(i) => i < doc.elements@.len(),
        },
{
    lemma_occurs_at(doc.event_seq(), p);
    match doc.event_seq()[p] {
        Event::Start(i) => lemma_subtree_counts(doc.elements@, doc.ends@, doc.src_len as nat, 0, i),
        Event::End(i) => lemma_subtree_counts(doc.elements@, doc.ends@, doc.src_len as nat, 0, i),
    }
}

/// Only containers have children: the parent of every node but the root is
/// a container.
pub proof fn lemma_parent_is_container(doc: &Document, i: int)
    requires
        doc.wf(),
        0 < i < doc.elements@.len(),
    ensures
        doc.elements@[doc.parents@[i] as int].container(),
{
    let p = doc.parents@[i] as int;
    assert(doc.parent_of(i, p));
    assert(p < doc.ends@[p]);
}

/// Two traversals of one document give the same events.
pub proof fn lemma_retraversal(doc: &Document, a: Seq<Event>, b: Seq<Event>)
    requires
        doc.wf(),
        a == doc.event_seq(),
        b == doc.event_seq(),
    ensures
        a == b,
{
}

} // verus!
