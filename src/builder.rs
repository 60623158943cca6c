use vstd::prelude::*;

use crate::document::{arena_wf, Document};
use crate::elements::Element;

verus! {

/// Grows a document arena in pre-order, keeping a stack of the containers
/// that are still open.
pub struct Builder {
    elements: Vec<Element>,
    ends: Vec<usize>,
    parents: Vec<usize>,
    stack: Vec<usize>,
    src_len: usize,
}

impl Builder {
    pub closed spec fn is_open(&self, i: int) -> bool {
        self.stack@.contains(i as usize)
    }

    pub closed spec fn depth(&self) -> nat {
        self.stack@.len()
    }

    /// Number of nodes so far.
    pub closed spec fn size(&self) -> nat {
        self.elements@.len()
    }

    pub closed spec fn src_len(&self) -> nat {
        self.src_len as nat
    }

    /// The nodes between node `i` and its parent are closed and end by `i`.
    closed spec fn closed_between(&self, i: int) -> bool {
        forall|k: int| self.parents@[i] < k < i ==> k < #[trigger] self.ends@[k] <= i
    }

    pub closed spec fn inv(&self) -> bool {
        let n = self.elements@.len();
        let ends = self.ends@;
        let st = self.stack@;
        &&& n == ends.len()
        &&& n == self.parents@.len()
        &&& forall|i: int|
            0 < i < n ==> {
                let p = #[trigger] self.parents@[i] as int;
                &&& p < i
                &&& (st.contains(p as usize) || i < ends[p])
            }
        &&& forall|i: int| 0 < i < n ==> #[trigger] self.closed_between(i)
        &&& n > 0
        &&& self.elements@[0] == Element::Document
        &&& st.len() > 0 ==> st[0] == 0
        &&& st.len() == 0 ==> ends[0] == n
        &&& forall|a: int|
            0 <= a < st.len() ==> #[trigger] st[a] < n && self.elements@[st[a] as int].container()
                && ends[st[a] as int] == 0
        &&& forall|a: int, b: int| 0 <= a < b < st.len() ==> #[trigger] st[a] < #[trigger] st[b]
        &&& forall|i: int| 0 <= i < n ==> (#[trigger] self.elements@[i]).within(self.src_len as nat)
        &&& forall|i: int|
            0 <= i < n && !st.contains(i as usize) ==> {
                &&& i < #[trigger] ends[i] <= n
                &&& (!self.elements@[i].container() ==> ends[i] == i + 1)
            }
        &&& forall|i: int, j: int|
            0 <= i < j < n && !st.contains(i as usize) && !st.contains(j as usize) && j
                < #[trigger] ends[i] ==> #[trigger] ends[j] <= ends[i]
        &&& forall|a: int, j: int|
            0 <= a < st.len() && 0 <= j < n && !st.contains(j as usize) && j < #[trigger] st[a]
                ==> st[a] >= #[trigger] ends[j]
    }

    /// No open node comes after the innermost one.
    proof fn lemma_top_is_last(&self)
        requires
            self.inv(),
            self.stack@.len() > 0,
        ensures
            forall|k: usize| #[trigger] self.stack@.contains(k) ==> k <= self.stack@.last(),
            self.stack@.last() < self.elements@.len(),
    {
        let st = self.stack@;
        assert(st[st.len() - 1] < self.elements@.len());
        assert forall|k: usize| #[trigger] st.contains(k) implies k <= st.last() by {
            let a = choose|a: int| 0 <= a < st.len() && st[a] == k;
            if a < st.len() - 1 {
                assert(st[a] < st[st.len() - 1]);
            }
        }
    }

    /// A builder holding only the open document node.
    pub fn new(src_len: usize) -> (r: Builder)
        ensures
            r.inv(),
            r.src_len() == src_len,
            r.depth() == 1,
            r.size() == 1,
    {
        let mut elements: Vec<Element> = Vec::new();
        elements.push(Element::Document);
        let mut ends: Vec<usize> = Vec::new();
        ends.push(0);
        let mut parents: Vec<usize> = Vec::new();
        parents.push(0);
        let mut stack: Vec<usize> = Vec::new();
        stack.push(0);
        Builder { elements, ends, parents, stack, src_len }
    }

    /// Appends a leaf as the last child of the innermost open container.
    pub fn leaf(&mut self, e: Element)
        requires
            old(self).inv(),
            e.within(old(self).src_len()),
            !e.container(),
        ensures
            final(self).inv(),
            final(self).src_len() == old(self).src_len(),
            final(self).depth() == old(self).depth(),
            final(self).size() >= old(self).size(),
            old(self).depth() > 0 ==> final(self).size() > 1,
    {
        let n = self.elements.len();
        if n < usize::MAX - 1 && self.stack.len() > 0 {
            let ghost st = self.stack@;
            let t = self.stack[self.stack.len() - 1];
            proof {
                self.lemma_top_is_last();
            }
            self.elements.push(e);
            self.ends.push(n + 1);
            self.parents.push(t);
            assert(forall|i: int| 0 <= i < n ==> self.parents@[i] == old(self).parents@[i]);
            assert(self.parents@[n as int] == t);
            assert(self.elements@[n as int] == e);
            assert(self.ends@[n as int] == n + 1);
            assert(forall|i: int| 0 <= i < n ==> self.ends@[i] == old(self).ends@[i]);
            assert(forall|i: int| 0 <= i < n ==> self.elements@[i] == old(self).elements@[i]);
            assert(!st.contains(n)) by {
                if st.contains(n) {
                    let a = choose|a: int| 0 <= a < st.len() && st[a] == n;
                    assert(st[a] < n);
                }
            }
            assert(st.contains(t)) by {
                assert(st[st.len() - 1] == t);
            }
            assert forall|i: int| 0 < i <= n implies #[trigger] self.closed_between(i) by {
                if i < n {
                    assert(old(self).closed_between(i));
                    assert(old(self).parents@[i] == self.parents@[i]);
                }
                assert forall|k: int| self.parents@[i] < k < i implies k < #[trigger] self.ends@[k] <= i by {
                    if i == n {
                        assert(!st.contains(k as usize));
                    } else {
                        assert(old(self).ends@[k] <= i);
                    }
                }
            }
        }
    }

    /// Opens a container as the last child of the innermost open container.
    /// Returns whether there was room for it.
    pub fn open(&mut self, e: Element) -> (r: bool)
        requires
            old(self).inv(),
            e.within(old(self).src_len()),
            e.container(),
        ensures
            final(self).inv(),
            final(self).src_len() == old(self).src_len(),
            final(self).depth() == old(self).depth() + if r {
                1int
            } else {
                0int
            },
            final(self).size() >= old(self).size(),
            old(self).depth() > 0 ==> final(self).size() > 1,
    {
        let n = self.elements.len();
        if n < usize::MAX - 1 && self.stack.len() > 0 {
            let ghost st = self.stack@;
            let t = self.stack[self.stack.len() - 1];
            proof {
                self.lemma_top_is_last();
            }
            self.elements.push(e);
            self.ends.push(0);
            self.parents.push(t);
            self.stack.push(n);
            assert(forall|i: int| 0 <= i < n ==> self.parents@[i] == old(self).parents@[i]);
            assert(self.parents@[n as int] == t);
            assert(self.elements@[n as int] == e);
            assert(forall|i: int| 0 <= i < n ==> self.ends@[i] == old(self).ends@[i]);
            assert(forall|i: int| 0 <= i < n ==> self.elements@[i] == old(self).elements@[i]);
            assert forall|i: int| 0 <= i < n implies (self.stack@.contains(i as usize) <==> #[trigger] st.contains(i as usize)) by {
                if st.contains(i as usize) {
                    let a = choose|a: int| 0 <= a < st.len() && st[a] == i as usize;
                    assert(self.stack@[a] == i as usize);
                }
                if self.stack@.contains(i as usize) {
                    let a = choose|a: int| 0 <= a < self.stack@.len() && self.stack@[a] == i as usize;
                    assert(a < st.len());
                    assert(st[a] == i as usize);
                }
            }
            assert(self.stack@.contains(n)) by {
                assert(self.stack@[st.len() as int] == n);
            }
            assert(self.stack@.contains(t)) by {
                assert(self.stack@[st.len() - 1] == t);
            }
            assert forall|i: int| 0 < i <= n implies #[trigger] self.closed_between(i) by {
                if i < n {
                    assert(old(self).closed_between(i));
                    assert(old(self).parents@[i] == self.parents@[i]);
                }
                assert forall|k: int| self.parents@[i] < k < i implies k < #[trigger] self.ends@[k] <= i by {
                    if i == n {
                        assert(!st.contains(k as usize));
                    } else {
                        assert(old(self).ends@[k] <= i);
                    }
                }
            }
            true
        } else {
            false
        }
    }

    /// Closes the innermost open container, unless it is the document node.
    pub fn close(&mut self)
        requires
            old(self).inv(),
        ensures
            final(self).inv(),
            final(self).src_len() == old(self).src_len(),
            final(self).depth() == if old(self).depth() > 1 {
                old(self).depth() - 1
            } else {
                old(self).depth() as int
            },
            final(self).size() == old(self).size(),
    {
        if self.stack.len() > 1 {
            self.close_top();
        }
    }

    fn close_top(&mut self)
        requires
            old(self).inv(),
            old(self).stack@.len() > 0,
        ensures
            final(self).inv(),
            final(self).src_len() == old(self).src_len(),
            final(self).depth() == old(self).depth() - 1,
            final(self).size() == old(self).size(),
    {
        let ghost st = self.stack@;
        let n = self.elements.len();
        let t = self.stack.pop().unwrap();
        let ghost top = st.len() - 1;
        assert(t == st[top]);
        self.ends.set(t, n);
        assert(forall|i: int| 0 <= i < n && i != t ==> self.ends@[i] == old(self).ends@[i]);
        assert forall|i: int| 0 <= i < n implies (self.stack@.contains(i as usize) <==> (#[trigger] st.contains(i as usize) && i != t)) by {
            if st.contains(i as usize) && i != t {
                let a = choose|a: int| 0 <= a < st.len() && st[a] == i as usize;
                assert(a != top);
                assert(self.stack@[a] == i as usize);
            }
            if self.stack@.contains(i as usize) {
                let a = choose|a: int| 0 <= a < self.stack@.len() && self.stack@[a] == i as usize;
                assert(st[a] == i as usize);
                assert(st[a] < st[top]);
            }
        }
        assert(st.contains(t)) by {
            assert(st[top] == t);
        }
        proof {
            if self.stack@.len() == 0 {
                assert(t == 0);
            }
            let new_st = self.stack@;
            assert forall|i: int| 0 < i < n implies {
                let p = #[trigger] self.parents@[i] as int;
                &&& p < i
                &&& (new_st.contains(p as usize) || i < self.ends@[p])
            } by {
                let p = self.parents@[i] as int;
                assert(old(self).parents@[i] as int == p);
                if p != t {
                    assert(self.ends@[p] == old(self).ends@[p]);
                    if st.contains(p as usize) {
                        assert(new_st.contains(p as usize));
                    }
                }
            }
            assert forall|i: int| 0 < i < n implies #[trigger] self.closed_between(i) by {
                assert(old(self).closed_between(i));
                assert(old(self).parents@[i] == self.parents@[i]);
                assert forall|k: int| self.parents@[i] < k < i implies k < #[trigger] self.ends@[k] <= i by {
                    assert(old(self).ends@[k] <= i);
                    assert(old(self).ends@[t as int] == 0);
                    assert(k != t);
                }
            }
        }
    }

    /// Closes every open container, the document node last.
    pub fn finish(self) -> (r: Document)
        requires
            self.inv(),
        ensures
            r.wf(),
            r.src_len == self.src_len(),
            r.elements@.len() == self.size(),
    {
        let mut b = self;
        while b.stack.len() > 0
            invariant
                b.inv(),
                b.src_len() == self.src_len(),
                b.size() == self.size(),
            decreases b.stack@.len(),
        {
            b.close_top();
        }
        let ghost st = b.stack@;
        assert(forall|i: int| 0 <= i < b.elements@.len() ==> !(#[trigger] st.contains(i as usize)));
        let doc = Document { elements: b.elements, ends: b.ends, parents: b.parents, src_len: b.src_len };
        assert forall|i: int| 0 < i < doc.elements@.len() implies doc.parent_of(
            i,
            #[trigger] doc.parents@[i] as int,
        ) by {
            assert(b.closed_between(i));
            let p = doc.parents@[i] as int;
            assert(!st.contains(p as usize));
            assert forall|k: int| p < k < i implies #[trigger] doc.ends@[k] <= i by {
                assert(k < b.ends@[k] <= i);
            }
        }
        doc
    }
}

} // verus!
