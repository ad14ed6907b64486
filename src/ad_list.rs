//! A doubly linked list whose nodes live in an arena and are addressed by
//! handles, with optional per-value hooks for cloning, dropping and
//! comparing values.

use vstd::prelude::*;
use std::rc::Rc;
use vstd::std_specs::cmp::PartialEqSpec;

verus! {

/// Makes the copy of a value that a list clone holds.
pub trait ValueClone<T> {
    fn clone_value(&self, value: T) -> T;
}

/// Releases what a value owns when its node leaves the list.
pub trait ValueDrop<T> {
    fn drop_value(&self, value: T);
}

/// Decides whether two values match, for search.
pub trait ValueEquals<T> {
    fn equals(&self, a: T, b: T) -> bool;
}

/// A list node: its value and the handles of its neighbours.
#[derive(Clone, Copy)]
pub struct Node<T> {
    prev: Option<usize>,
    next: Option<usize>,
    pub value: T,
}

impl<T> Node<T> {
    pub closed spec fn spec_value(&self) -> T {
        self.value
    }

    pub closed spec fn spec_prev(&self) -> Option<usize> {
        self.prev
    }

    pub closed spec fn spec_next(&self) -> Option<usize> {
        self.next
    }
}

/// The handle before position `i` of `o`.
pub open spec fn prev_of(o: Seq<usize>, i: int) -> Option<usize> {
    if i == 0 {
        None
    } else {
        Some(o[i - 1])
    }
}

/// The handle after position `i` of `o`.
pub open spec fn next_of(o: Seq<usize>, i: int) -> Option<usize> {
    if i + 1 == o.len() {
        None
    } else {
        Some(o[i + 1])
    }
}

/// The first handle of `o`, if any.
pub open spec fn first_of(o: Seq<usize>) -> Option<usize> {
    if o.len() == 0 {
        None
    } else {
        Some(o[0])
    }
}

/// The last handle of `o`, if any.
pub open spec fn last_of(o: Seq<usize>) -> Option<usize> {
    if o.len() == 0 {
        None
    } else {
        Some(o[o.len() - 1])
    }
}

/// No handle occurs twice in `o`.
pub open spec fn distinct(o: Seq<usize>) -> bool {
    forall|i: int, j: int| 0 <= i < j < o.len() ==> o[i] != o[j]
}

/// The arena holds a node for each handle of `o`, linked in that order.
#[verifier::opaque]
spec fn links_ok<T>(nodes: Seq<Option<Node<T>>>, o: Seq<usize>) -> bool {
    &&& distinct(o)
    &&& forall|i: int|
        0 <= i < o.len() ==> (#[trigger] o[i]) < nodes.len() && nodes[o[i] as int] is Some
    &&& forall|i: int|
        0 <= i < o.len() ==> (#[trigger] nodes[o[i] as int]).unwrap().prev == prev_of(o, i)
    &&& forall|i: int|
        0 <= i < o.len() ==> (#[trigger] nodes[o[i] as int]).unwrap().next == next_of(o, i)
}

/// The free slots are distinct, in range and empty.
spec fn free_ok<T>(nodes: Seq<Option<Node<T>>>, free: Seq<usize>) -> bool {
    &&& distinct(free)
    &&& forall|k: int|
        0 <= k < free.len() ==> (#[trigger] free[k]) < nodes.len() && nodes[free[k] as int] is None
}

spec fn values_of<T>(nodes: Seq<Option<Node<T>>>, o: Seq<usize>) -> Seq<T> {
    o.map_values(|h: usize| nodes[h as int].unwrap().value)
}

#[verifier::rlimit(40)]
proof fn lemma_link_between<T>(
    old_nodes: Seq<Option<Node<T>>>,
    nodes: Seq<Option<Node<T>>>,
    o: Seq<usize>,
    k: int,
    s: usize,
    value: T,
)
    requires
        links_ok(old_nodes, o),
        0 <= k,
        k + 1 < o.len(),
        s < nodes.len(),
        s < old_nodes.len() ==> old_nodes[s as int] is None,
        nodes.len() >= old_nodes.len(),
        nodes[s as int] == Some(Node { prev: Some(o[k]), next: Some(o[k + 1]), value }),
        nodes[o[k] as int] == Some(Node { next: Some(s), ..old_nodes[o[k] as int].unwrap() }),
        nodes[o[k + 1] as int] == Some(Node { prev: Some(s), ..old_nodes[o[k + 1] as int].unwrap() }),
        forall|x: int|
            0 <= x < old_nodes.len() && x != s && x != o[k] && x != o[k + 1] ==> nodes[x]
                == old_nodes[x],
    ensures
        links_ok(nodes, o.insert(k + 1, s)),
        values_of(nodes, o.insert(k + 1, s)) == values_of(old_nodes, o).insert(k + 1, value),
{
    reveal(links_ok);
    let no = o.insert(k + 1, s);
    let n = o.len();
    assert forall|i: int| 0 <= i < n implies o[i] != s by {
        assert(o[i] < old_nodes.len());
    }
    assert forall|i: int| 0 <= i < no.len() implies (#[trigger] no[i]) < nodes.len()
        && nodes[no[i] as int] is Some by {
        if i <= k {
            assert(no[i] == o[i]);
        } else if i > k + 1 {
            assert(no[i] == o[i - 1]);
        }
    }
    assert forall|i: int| 0 <= i < no.len() implies (#[trigger] nodes[no[i] as int]).unwrap().prev
        == prev_of(no, i) && nodes[no[i] as int].unwrap().next == next_of(no, i) by {
        if i < k {
            assert(no[i] == o[i]);
            assert(o[i] != o[k] && o[i] != o[k + 1]);
            assert(nodes[o[i] as int] == old_nodes[o[i] as int]);
            assert(old_nodes[o[i] as int].unwrap().prev == prev_of(o, i));
            assert(old_nodes[o[i] as int].unwrap().next == next_of(o, i));
        } else if i == k {
            assert(no[i] == o[k]);
            assert(old_nodes[o[k] as int].unwrap().prev == prev_of(o, k));
        } else if i == k + 2 {
            assert(no[i] == o[k + 1]);
            assert(old_nodes[o[k + 1] as int].unwrap().next == next_of(o, k + 1));
        } else if i > k + 2 {
            assert(no[i] == o[i - 1]);
            assert(o[i - 1] != o[k] && o[i - 1] != o[k + 1]);
            assert(nodes[o[i - 1] as int] == old_nodes[o[i - 1] as int]);
            assert(old_nodes[o[i - 1] as int].unwrap().prev == prev_of(o, i - 1));
            assert(old_nodes[o[i - 1] as int].unwrap().next == next_of(o, i - 1));
        }
    }
    assert forall|i: int, j: int| 0 <= i < j < no.len() implies no[i] != no[j] by {
        if i != k + 1 && j != k + 1 {
            let oi = if i <= k { i } else { i - 1 };
            let oj = if j <= k { j } else { j - 1 };
            assert(no[i] == o[oi] && no[j] == o[oj]);
        }
    }
    let nv = values_of(nodes, no);
    let ov = values_of(old_nodes, o);
    assert forall|i: int| 0 <= i < n implies nodes[o[i] as int].unwrap().value
        == old_nodes[o[i] as int].unwrap().value by {
        assert(o[i] < old_nodes.len());
    }
    assert(nv =~= ov.insert(k + 1, value)) by {
        assert forall|i: int| 0 <= i < nv.len() implies nv[i] == ov.insert(k + 1, value)[i] by {
            if i <= k {
                assert(no[i] == o[i]);
            } else if i > k + 1 {
                assert(no[i] == o[i - 1]);
            }
        }
    }
}

#[verifier::rlimit(40)]
proof fn lemma_unlink<T>(
    old_nodes: Seq<Option<Node<T>>>,
    nodes: Seq<Option<Node<T>>>,
    o: Seq<usize>,
    k: int,
)
    requires
        links_ok(old_nodes, o),
        0 <= k < o.len(),
        nodes.len() == old_nodes.len(),
        k > 0 ==> nodes[o[k - 1] as int] == Some(
            Node { next: next_of(o, k), ..old_nodes[o[k - 1] as int].unwrap() },
        ),
        k + 1 < o.len() ==> nodes[o[k + 1] as int] == Some(
            Node { prev: prev_of(o, k), ..old_nodes[o[k + 1] as int].unwrap() },
        ),
        forall|x: int|
            0 <= x < old_nodes.len() && x != o[k] && (k == 0 || x != o[k - 1]) && (k + 1 >= o.len()
                || x != o[k + 1]) ==> nodes[x] == old_nodes[x],
    ensures
        links_ok(nodes, o.remove(k)),
        values_of(nodes, o.remove(k)) == values_of(old_nodes, o).remove(k),
        forall|i: int|
            0 <= i < o.len() ==> (#[trigger] o[i]) < old_nodes.len() && old_nodes[o[i] as int] is Some,
{
    reveal(links_ok);
    let no = o.remove(k);
    let n = o.len();
    assert forall|i: int| 0 <= i < no.len() implies (#[trigger] no[i]) < nodes.len()
        && nodes[no[i] as int] is Some by {
        if i < k {
            assert(no[i] == o[i] && o[i] != o[k]);
        } else {
            assert(no[i] == o[i + 1] && o[i + 1] != o[k]);
        }
    }
    assert forall|i: int| 0 <= i < no.len() implies (#[trigger] nodes[no[i] as int]).unwrap().prev
        == prev_of(no, i) && nodes[no[i] as int].unwrap().next == next_of(no, i) by {
        if i < k - 1 {
            assert(no[i] == o[i]);
            assert(o[i] != o[k] && o[i] != o[k - 1] && (k + 1 >= n || o[i] != o[k + 1]));
            assert(old_nodes[o[i] as int].unwrap().prev == prev_of(o, i));
            assert(old_nodes[o[i] as int].unwrap().next == next_of(o, i));
        } else if i == k - 1 {
            assert(no[i] == o[k - 1]);
            assert(k + 1 >= n || o[k - 1] != o[k + 1]);
            assert(old_nodes[o[k - 1] as int].unwrap().prev == prev_of(o, k - 1));
        } else if i == k {
            assert(no[i] == o[k + 1]);
            assert(k == 0 || o[k + 1] != o[k - 1]);
            assert(old_nodes[o[k + 1] as int].unwrap().next == next_of(o, k + 1));
        } else {
            assert(no[i] == o[i + 1]);
            assert(o[i + 1] != o[k] && o[i + 1] != o[k + 1] && (k == 0 || o[i + 1] != o[k - 1]));
            assert(old_nodes[o[i + 1] as int].unwrap().prev == prev_of(o, i + 1));
            assert(old_nodes[o[i + 1] as int].unwrap().next == next_of(o, i + 1));
        }
    }
    assert forall|i: int, j: int| 0 <= i < j < no.len() implies no[i] != no[j] by {
        let oi = if i < k { i } else { i + 1 };
        let oj = if j < k { j } else { j + 1 };
        assert(no[i] == o[oi] && no[j] == o[oj]);
    }
    let nv = values_of(nodes, no);
    let ov = values_of(old_nodes, o);
    assert(nv =~= ov.remove(k)) by {
        assert forall|i: int| 0 <= i < nv.len() implies nv[i] == ov.remove(k)[i] by {
            let oi = if i < k { i } else { i + 1 };
            assert(no[i] == o[oi]);
            assert(o[oi] != o[k]);
            if nodes[o[oi] as int] != old_nodes[o[oi] as int] {
                assert(oi == k - 1 || oi == k + 1);
            }
        }
    }
}

proof fn lemma_frame<T>(
    old_nodes: Seq<Option<Node<T>>>,
    nodes: Seq<Option<Node<T>>>,
    o: Seq<usize>,
)
    requires
        links_ok(old_nodes, o),
        nodes.len() >= old_nodes.len(),
        forall|i: int| 0 <= i < o.len() ==> nodes[#[trigger] o[i] as int] == old_nodes[o[i] as int],
    ensures
        links_ok(nodes, o),
        values_of(nodes, o) == values_of(old_nodes, o),
        forall|i: int|
            0 <= i < o.len() ==> (#[trigger] o[i]) < old_nodes.len() && old_nodes[o[i] as int] is Some,
{
    reveal(links_ok);
    assert forall|i: int| 0 <= i < o.len() implies (#[trigger] nodes[o[i] as int]).unwrap().prev
        == prev_of(o, i) && nodes[o[i] as int].unwrap().next == next_of(o, i) by {
        assert(nodes[o[i] as int] == old_nodes[o[i] as int]);
    }
    assert(values_of(nodes, o) =~= values_of(old_nodes, o));
}

#[verifier::rlimit(40)]
proof fn lemma_link_back<T>(
    old_nodes: Seq<Option<Node<T>>>,
    nodes: Seq<Option<Node<T>>>,
    o: Seq<usize>,
    h: usize,
)
    requires
        links_ok(old_nodes, o),
        h < old_nodes.len(),
        old_nodes[h as int] is Some,
        !o.contains(h),
        nodes.len() == old_nodes.len(),
        nodes[h as int] == Some(Node { prev: last_of(o), next: None, ..old_nodes[h as int].unwrap() }),
        o.len() > 0 ==> nodes[o[o.len() - 1] as int] == Some(
            Node { next: Some(h), ..old_nodes[o[o.len() - 1] as int].unwrap() },
        ),
        forall|x: int|
            0 <= x < old_nodes.len() && x != h && (o.len() == 0 || x != o[o.len() - 1]) ==> nodes[x]
                == old_nodes[x],
    ensures
        links_ok(nodes, o.push(h)),
        values_of(nodes, o.push(h)) == values_of(old_nodes, o).push(old_nodes[h as int].unwrap().value),
{
    reveal(links_ok);
    let no = o.push(h);
    let n = o.len();
    assert forall|i: int| 0 <= i < no.len() implies (#[trigger] no[i]) < nodes.len()
        && nodes[no[i] as int] is Some && nodes[no[i] as int].unwrap().prev == prev_of(no, i)
        && nodes[no[i] as int].unwrap().next == next_of(no, i) by {
        if i < n {
            assert(no[i] == o[i]);
            assert(o[i] != h);
            if i + 1 < n {
                assert(o[i] != o[n - 1]);
            }
        }
    }
    assert forall|i: int, j: int| 0 <= i < j < no.len() implies no[i] != no[j] by {
        if j < n {
            assert(no[i] == o[i] && no[j] == o[j]);
        } else {
            assert(no[i] == o[i]);
        }
    }
    let nv = values_of(nodes, no);
    let ov = values_of(old_nodes, o);
    assert(nv =~= ov.push(old_nodes[h as int].unwrap().value)) by {
        assert forall|i: int| 0 <= i < n implies nv[i] == ov[i] by {
            assert(no[i] == o[i] && o[i] != h);
        }
    }
}

#[verifier::rlimit(40)]
proof fn lemma_link_front<T>(
    old_nodes: Seq<Option<Node<T>>>,
    nodes: Seq<Option<Node<T>>>,
    o: Seq<usize>,
    h: usize,
)
    requires
        links_ok(old_nodes, o),
        h < old_nodes.len(),
        old_nodes[h as int] is Some,
        !o.contains(h),
        nodes.len() == old_nodes.len(),
        nodes[h as int] == Some(Node { prev: None, next: first_of(o), ..old_nodes[h as int].unwrap() }),
        o.len() > 0 ==> nodes[o[0] as int] == Some(Node { prev: Some(h), ..old_nodes[o[0] as int].unwrap() }),
        forall|x: int|
            0 <= x < old_nodes.len() && x != h && (o.len() == 0 || x != o[0]) ==> nodes[x] == old_nodes[x],
    ensures
        links_ok(nodes, seq![h] + o),
        values_of(nodes, seq![h] + o) == seq![old_nodes[h as int].unwrap().value] + values_of(old_nodes, o),
{
    reveal(links_ok);
    let no = seq![h] + o;
    let n = o.len();
    assert forall|i: int| 0 <= i < no.len() implies (#[trigger] no[i]) < nodes.len()
        && nodes[no[i] as int] is Some && nodes[no[i] as int].unwrap().prev == prev_of(no, i)
        && nodes[no[i] as int].unwrap().next == next_of(no, i) by {
        if i > 0 {
            assert(no[i] == o[i - 1]);
            assert(o[i - 1] != h);
            if i > 1 {
                assert(o[i - 1] != o[0]);
            }
        }
    }
    assert forall|i: int, j: int| 0 <= i < j < no.len() implies no[i] != no[j] by {
        if i > 0 {
            assert(no[i] == o[i - 1] && no[j] == o[j - 1]);
        } else {
            assert(no[j] == o[j - 1]);
        }
    }
    let nv = values_of(nodes, no);
    let ov = values_of(old_nodes, o);
    assert(nv =~= seq![old_nodes[h as int].unwrap().value] + ov) by {
        assert forall|i: int| 0 < i < no.len() implies nv[i] == ov[i - 1] by {
            assert(no[i] == o[i - 1] && o[i - 1] != h);
        }
    }
}

/// A doubly linked list.
///
/// Nodes live in an arena; a handle is the index of a node's slot and stays
/// valid until that node is removed. Freed slots are reused. Dropping a list
/// releases its nodes without calling the drop hook; `clear` calls it.
#[verifier::reject_recursive_types(T)]
pub struct List<T> {
    nodes: Vec<Option<Node<T>>>,
    free: Vec<usize>,
    head: Option<usize>,
    tail: Option<usize>,
    len: usize,
    value_clone: Option<Rc<dyn ValueClone<T>>>,
    value_drop: Option<Rc<dyn ValueDrop<T>>>,
    value_equals: Option<Rc<dyn ValueEquals<T>>>,
    order: Ghost<Seq<usize>>,
}

impl<T: Copy> View for List<T> {
    type V = Seq<T>;

    /// The values from head to tail.
    closed spec fn view(&self) -> Seq<T> {
        values_of(self.nodes@, self.order@)
    }
}

impl<T: Copy> List<T> {
    /// The handles of the nodes from head to tail.
    pub closed spec fn handles(&self) -> Seq<usize> {
        self.order@
    }

    /// The list is well formed.
    pub closed spec fn wf(&self) -> bool {
        &&& links_ok(self.nodes@, self.order@)
        &&& free_ok(self.nodes@, self.free@)
        &&& self.len == self.order@.len()
        &&& self.head == first_of(self.order@)
        &&& self.tail == last_of(self.order@)
    }

    /// The clone, drop and equality hooks, in that order.
    pub closed spec fn hooks(&self) -> (
        Option<Rc<dyn ValueClone<T>>>,
        Option<Rc<dyn ValueDrop<T>>>,
        Option<Rc<dyn ValueEquals<T>>>,
    ) {
        (self.value_clone, self.value_drop, self.value_equals)
    }

    pub open spec fn has_clone_hook(&self) -> bool {
        self.hooks().0 is Some
    }

    pub open spec fn has_drop_hook(&self) -> bool {
        self.hooks().1 is Some
    }

    pub open spec fn has_equals_hook(&self) -> bool {
        self.hooks().2 is Some
    }

    /// The handle `get(index)` returns: positions count from the head for
    /// `index >= 0` and from the tail for negative `index`.
    pub open spec fn spec_get(&self, index: int) -> Option<usize> {
        let n = self.handles().len() as int;
        if 0 <= index < n {
            Some(self.handles()[index])
        } else if -n <= index < 0 {
            Some(self.handles()[n + index])
        } else {
            None
        }
    }

    /// The same hooks as `other`.
    pub open spec fn same_hooks(&self, other: &Self) -> bool {
        self.hooks() == other.hooks()
    }

    /// Facts that every well-formed list keeps.
    pub proof fn lemma_wf(&self)
        requires
            self.wf(),
        ensures
            self@.len() == self.handles().len(),
            distinct(self.handles()),
    {
        reveal(links_ok);
    }

    /// An empty list without hooks.
    pub fn new() -> (r: Self)
        ensures
            r.wf(),
            r@ == Seq::<T>::empty(),
            r.handles() == Seq::<usize>::empty(),
            !r.has_clone_hook(),
            !r.has_drop_hook(),
            !r.has_equals_hook(),
    {
        let r = List {
            nodes: Vec::new(),
            free: Vec::new(),
            head: None,
            tail: None,
            len: 0,
            value_clone: None,
            value_drop: None,
            value_equals: None,
            order: Ghost(Seq::empty()),
        };
        assert(r@ =~= Seq::<T>::empty());
        assert(links_ok(r.nodes@, r.order@)) by {
            reveal(links_ok);
        }
        r
    }

    /// Stores `node` in a free slot of the arena, or a new one, and returns
    /// the slot's handle.
    fn alloc_slot(&mut self, node: Node<T>) -> (s: usize)
        requires
            free_ok(old(self).nodes@, old(self).free@),
        ensures
            free_ok(final(self).nodes@, final(self).free@),
            s < final(self).nodes@.len(),
            final(self).nodes@[s as int] == Some(node),
            s < old(self).nodes@.len() ==> old(self).nodes@[s as int] is None,
            final(self).nodes@.len() >= old(self).nodes@.len(),
            forall|x: int|
                0 <= x < old(self).nodes@.len() && x != s ==> final(self).nodes@[x] == old(
                    self,
                ).nodes@[x],
            final(self).head == old(self).head,
            final(self).tail == old(self).tail,
            final(self).len == old(self).len,
            final(self).order == old(self).order,
            final(self).same_hooks(old(self)),
    {
        match self.free.pop() {
            Some(s) => {
                proof {
                    assert(old(self).free@[old(self).free@.len() - 1] == s);
                    assert forall|k: int| 0 <= k < self.free@.len() implies self.free@[k] != s by {
                        assert(old(self).free@[k] == self.free@[k]);
                    }
                }
                self.nodes.set(s, Some(node));
                proof {
                    assert forall|k: int| 0 <= k < self.free@.len() implies (#[trigger] self.free@[k])
                        < self.nodes@.len() && self.nodes@[self.free@[k] as int] is None by {
                        assert(old(self).free@[k] == self.free@[k]);
                    }
                    assert forall|k: int, l: int|
                        0 <= k < l < self.free@.len() implies self.free@[k] != self.free@[l] by {
                        assert(old(self).free@[k] == self.free@[k]);
                        assert(old(self).free@[l] == self.free@[l]);
                    }
                }
                s
            },
            None => {
                self.nodes.push(Some(node));
                self.nodes.len() - 1
            },
        }
    }

    /// Sets the previous-node link of the node at `h`.
    fn set_prev(&mut self, h: usize, p: Option<usize>)
        requires
            h < old(self).nodes@.len(),
            old(self).nodes@[h as int] is Some,
        ensures
            final(self).nodes@ == old(self).nodes@.update(
                h as int,
                Some(Node { prev: p, ..old(self).nodes@[h as int].unwrap() }),
            ),
            final(self).free == old(self).free,
            final(self).head == old(self).head,
            final(self).tail == old(self).tail,
            final(self).len == old(self).len,
            final(self).order == old(self).order,
            final(self).same_hooks(old(self)),
    {
        let mut n = self.nodes[h].unwrap();
        n.prev = p;
        self.nodes.set(h, Some(n));
    }

    /// Sets the next-node link of the node at `h`.
    fn set_next(&mut self, h: usize, x: Option<usize>)
        requires
            h < old(self).nodes@.len(),
            old(self).nodes@[h as int] is Some,
        ensures
            final(self).nodes@ == old(self).nodes@.update(
                h as int,
                Some(Node { next: x, ..old(self).nodes@[h as int].unwrap() }),
            ),
            final(self).free == old(self).free,
            final(self).head == old(self).head,
            final(self).tail == old(self).tail,
            final(self).len == old(self).len,
            final(self).order == old(self).order,
            final(self).same_hooks(old(self)),
    {
        let mut n = self.nodes[h].unwrap();
        n.next = x;
        self.nodes.set(h, Some(n));
    }

    /// The node at handle `h`.
    pub fn node(&self, h: usize) -> (r: &Node<T>)
        requires
            self.wf(),
            self.handles().contains(h),
        ensures
            forall|i: int| 0 <= i < self@.len() && self.handles()[i] == h ==> r.spec_value() == self@[i],
            forall|i: int|
                0 <= i < self@.len() && self.handles()[i] == h ==> r.spec_prev() == prev_of(
                    self.handles(),
                    i,
                ) && r.spec_next() == next_of(self.handles(), i),
    {
        proof {
            reveal(links_ok);
            let i = choose|i: int| 0 <= i < self.order@.len() && self.order@[i] == h;
            assert(self.order@[i] < self.nodes@.len());
        }
        let slot = &self.nodes[h];
        slot.as_ref().unwrap()
    }

    /// Takes the node at `h`, position `k`, out of the chain; it stays in its
    /// arena slot.
    fn detach(&mut self, h: usize, Ghost(k): Ghost<int>)
        requires
            old(self).wf(),
            0 <= k < old(self).handles().len(),
            old(self).handles()[k] == h,
        ensures
            final(self).wf(),
            final(self).handles() == old(self).handles().remove(k),
            final(self)@ == old(self)@.remove(k),
            h < final(self).nodes@.len(),
            final(self).nodes@.len() == old(self).nodes@.len(),
            final(self).nodes@[h as int] is Some,
            final(self).nodes@[h as int].unwrap().value == old(self)@[k],
            !final(self).handles().contains(h),
            final(self).free == old(self).free,
            final(self).same_hooks(old(self)),
    {
        let ghost o = self.order@;
        proof {
            reveal(links_ok);
            assert(o[k] < self.nodes@.len());
            if k > 0 {
                assert(o[k - 1] < self.nodes@.len() && o[k - 1] != o[k]);
            }
            if k + 1 < o.len() {
                assert(o[k + 1] < self.nodes@.len() && o[k + 1] != o[k]);
            }
            if k > 0 && k + 1 < o.len() {
                assert(o[k - 1] != o[k + 1]);
            }
        }
        let n = self.nodes[h].unwrap();
        match n.prev {
            None => {
                self.head = n.next;
            },
            Some(p) => {
                self.set_next(p, n.next);
            },
        }
        match n.next {
            None => {
                self.tail = n.prev;
            },
            Some(x) => {
                self.set_prev(x, n.prev);
            },
        }
        self.len = self.len - 1;
        self.order = Ghost(o.remove(k));
        proof {
            lemma_unlink(old(self).nodes@, self.nodes@, o, k);
            let f = self.free@;
            assert forall|j: int| 0 <= j < f.len() implies (#[trigger] f[j]) < self.nodes@.len()
                && self.nodes@[f[j] as int] is None by {
                assert(old(self).nodes@[f[j] as int] is None);
                assert(k == 0 || f[j] != o[k - 1]);
                assert(k + 1 >= o.len() || f[j] != o[k + 1]);
            }
            assert(self.head == first_of(self.order@));
            assert(self.tail == last_of(self.order@));
            assert forall|i: int| 0 <= i < self.order@.len() implies self.order@[i] != h by {
                if i < k {
                    assert(o[i] != o[k]);
                } else {
                    assert(o[i + 1] != o[k]);
                }
            }
        }
    }

    /// Links the unlinked node in slot `h` in as the new tail.
    fn attach_back(&mut self, h: usize)
        requires
            old(self).wf(),
            h < old(self).nodes@.len(),
            old(self).nodes@[h as int] is Some,
            !old(self).handles().contains(h),
            old(self)@.len() < usize::MAX,
        ensures
            final(self).wf(),
            final(self).handles() == old(self).handles().push(h),
            final(self)@ == old(self)@.push(old(self).nodes@[h as int].unwrap().value),
            final(self).nodes@.len() == old(self).nodes@.len(),
            final(self).free == old(self).free,
            final(self).same_hooks(old(self)),
    {
        let ghost o = self.order@;
        proof {
            reveal(links_ok);
            if o.len() > 0 {
                assert(o[o.len() - 1] < self.nodes@.len());
            }
        }
        let t = self.tail;
        self.set_prev(h, t);
        self.set_next(h, None);
        match t {
            Some(t) => {
                self.set_next(t, Some(h));
            },
            None => {
                self.head = Some(h);
            },
        }
        self.tail = Some(h);
        self.len = self.len + 1;
        self.order = Ghost(o.push(h));
        proof {
            lemma_link_back(old(self).nodes@, self.nodes@, o, h);
            let f = self.free@;
            assert forall|j: int| 0 <= j < f.len() implies (#[trigger] f[j]) < self.nodes@.len()
                && self.nodes@[f[j] as int] is None by {
                assert(old(self).nodes@[f[j] as int] is None);
            }
        }
    }

    /// Links the unlinked node in slot `h` in as the new head.
    fn attach_front(&mut self, h: usize)
        requires
            old(self).wf(),
            h < old(self).nodes@.len(),
            old(self).nodes@[h as int] is Some,
            !old(self).handles().contains(h),
            old(self)@.len() < usize::MAX,
        ensures
            final(self).wf(),
            final(self).handles() == seq![h] + old(self).handles(),
            final(self)@ == seq![old(self).nodes@[h as int].unwrap().value] + old(self)@,
            final(self).nodes@.len() == old(self).nodes@.len(),
            final(self).free == old(self).free,
            final(self).same_hooks(old(self)),
    {
        let ghost o = self.order@;
        proof {
            reveal(links_ok);
            if o.len() > 0 {
                assert(o[0] < self.nodes@.len());
            }
        }
        let first = self.head;
        self.set_prev(h, None);
        self.set_next(h, first);
        match first {
            Some(x) => {
                self.set_prev(x, Some(h));
            },
            None => {
                self.tail = Some(h);
            },
        }
        self.head = Some(h);
        self.len = self.len + 1;
        self.order = Ghost(seq![h] + o);
        proof {
            lemma_link_front(old(self).nodes@, self.nodes@, o, h);
            let f = self.free@;
            assert forall|j: int| 0 <= j < f.len() implies (#[trigger] f[j]) < self.nodes@.len()
                && self.nodes@[f[j] as int] is None by {
                assert(old(self).nodes@[f[j] as int] is None);
            }
        }
    }

    /// Stores a new unlinked node holding `value`, keeping the list as it is.
    fn new_node(&mut self, value: T) -> (s: usize)
        requires
            old(self).wf(),
        ensures
            final(self).wf(),
            final(self).handles() == old(self).handles(),
            final(self)@ == old(self)@,
            s < final(self).nodes@.len(),
            final(self).nodes@[s as int] is Some,
            final(self).nodes@[s as int].unwrap().value == value,
            !final(self).handles().contains(s),
            final(self).same_hooks(old(self)),
    {
        let s = self.alloc_slot(Node { prev: None, next: None, value });
        proof {
            let o = self.order@;
            reveal(links_ok);
            assert forall|i: int| 0 <= i < o.len() implies o[i] != s by {
                assert(o[i] < old(self).nodes@.len());
            }
            assert forall|i: int| 0 <= i < o.len() implies self.nodes@[#[trigger] o[i] as int]
                == old(self).nodes@[o[i] as int] by {
                assert(o[i] < old(self).nodes@.len());
            }
            lemma_frame(old(self).nodes@, self.nodes@, o);
        }
        s
    }

    /// Adds `value` at the head.
    pub fn push_front(&mut self, value: T) -> (r: &mut Self)
        requires
            old(self).wf(),
            old(self)@.len() < usize::MAX,
        ensures
            *final(r) == *final(self),
            r.wf(),
            r@ == seq![value] + old(self)@,
            r.handles().len() == old(self).handles().len() + 1,
            r.handles().subrange(1, r.handles().len() as int) == old(self).handles(),
            r.same_hooks(old(self)),
    {
        let s = self.new_node(value);
        self.attach_front(s);
        assert(self.order@.subrange(1, self.order@.len() as int) =~= old(self).order@);
        self
    }

    /// Adds `value` at the tail.
    pub fn push_back(&mut self, value: T) -> (r: &mut Self)
        requires
            old(self).wf(),
            old(self)@.len() < usize::MAX,
        ensures
            *final(r) == *final(self),
            r.wf(),
            r@ == old(self)@.push(value),
            r.handles().len() == old(self).handles().len() + 1,
            r.handles().subrange(0, old(self).handles().len() as int) == old(self).handles(),
            r.same_hooks(old(self)),
    {
        self.push_back_node(value);
        assert(self.order@.subrange(0, old(self).order@.len() as int) =~= old(self).order@);
        self
    }

    fn push_back_node(&mut self, value: T) -> (s: usize)
        requires
            old(self).wf(),
            old(self)@.len() < usize::MAX,
        ensures
            final(self).wf(),
            final(self)@ == old(self)@.push(value),
            final(self).handles() == old(self).handles().push(s),
            final(self).same_hooks(old(self)),
    {
        let s = self.new_node(value);
        self.attach_back(s);
        s
    }

    /// Links a new node holding `value` between the adjacent nodes `a` and
    /// `b`, at positions `k` and `k + 1`.
    fn link_between(&mut self, a: usize, b: usize, value: T, Ghost(k): Ghost<int>) -> (s: usize)
        requires
            old(self).wf(),
            0 <= k,
            k + 1 < old(self).handles().len(),
            old(self).handles()[k] == a,
            old(self).handles()[k + 1] == b,
            old(self)@.len() < usize::MAX,
        ensures
            final(self).wf(),
            final(self)@ == old(self)@.insert(k + 1, value),
            final(self).handles() == old(self).handles().insert(k + 1, s),
            final(self).same_hooks(old(self)),
    {
        let ghost o = self.order@;
        proof {
            reveal(links_ok);
            assert(o[k] < self.nodes@.len());
            assert(o[k + 1] < self.nodes@.len());
        }
        let s = self.alloc_slot(Node { prev: Some(a), next: Some(b), value });
        self.set_next(a, Some(s));
        self.set_prev(b, Some(s));
        self.len = self.len + 1;
        self.order = Ghost(o.insert(k + 1, s));
        proof {
            assert(o[k] != s && o[k + 1] != s);
            lemma_link_between(old(self).nodes@, self.nodes@, o, k, s, value);
            assert forall|kk: int| 0 <= kk < self.free@.len() implies (#[trigger] self.free@[kk])
                < self.nodes@.len() && self.nodes@[self.free@[kk] as int] is None by {
            }
        }
        s
    }

    /// Adds `value` next to the node at `exist_node`: after it when `after`,
    /// else before it.
    #[verifier::rlimit(40)]
    pub fn insert_node(&mut self, exist_node: usize, value: T, after: bool) -> (r: &mut Self)
        requires
            old(self).wf(),
            old(self).handles().contains(exist_node),
            old(self)@.len() < usize::MAX,
        ensures
            *final(r) == *final(self),
            r.wf(),
            forall|k: int|
                0 <= k < old(self)@.len() && old(self).handles()[k] == exist_node ==> {
                    let at = if after { k + 1 } else { k };
                    &&& r@ == old(self)@.insert(at, value)
                    &&& r.handles().len() == old(self).handles().len() + 1
                    &&& r.handles().remove(at) == old(self).handles()
                },
            r.same_hooks(old(self)),
    {
        let ghost o = self.order@;
        let ghost k = choose|k: int| 0 <= k < o.len() && o[k] == exist_node;
        let ghost n = o.len();
        let ghost ov = self@;
        let ghost at = if after { k + 1 } else { k };
        proof {
            assert forall|kk: int| 0 <= kk < n && o[kk] == exist_node implies kk == k by {
                reveal(links_ok);
            }
        }
        let en = self.node(exist_node);
        let en_prev = en.prev;
        let en_next = en.next;
        if after {
            match en_next {
                Some(x) => {
                    self.link_between(exist_node, x, value, Ghost(k));
                    assert(self.order@.remove(k + 1) =~= o);
                },
                None => {
                    self.push_back_node(value);
                    assert(ov.insert(k + 1, value) =~= ov.push(value));
                    assert(self.order@.remove(k + 1) =~= o);
                },
            }
        } else {
            match en_prev {
                Some(p) => {
                    self.link_between(p, exist_node, value, Ghost(k - 1));
                    assert(self.order@.remove(k) =~= o);
                },
                None => {
                    self.push_front(value);
                    assert(ov.insert(0, value) =~= seq![value] + ov);
                    assert(self.order@.remove(0) =~= self.order@.subrange(1, self.order@.len() as int));
                },
            }
        }
        assert(self@ == ov.insert(at, value));
        assert(self.order@.remove(at) == o);
        self
    }
    /// Unlinks and frees the node at `node`, handing its value to the drop
    /// hook when there is one.
    pub fn remove(&mut self, node: usize)
        requires
            old(self).wf(),
            old(self).handles().contains(node),
        ensures
            final(self).wf(),
            forall|k: int|
                0 <= k < old(self)@.len() && old(self).handles()[k] == node ==> {
                    &&& final(self)@ == old(self)@.remove(k)
                    &&& final(self).handles() == old(self).handles().remove(k)
                },
            final(self)@.len() == old(self)@.len() - 1,
            final(self).same_hooks(old(self)),
    {
        let ghost o = self.order@;
        let ghost k = choose|k: int| 0 <= k < o.len() && o[k] == node;
        proof {
            reveal(links_ok);
            assert forall|kk: int| 0 <= kk < o.len() && o[kk] == node implies kk == k by {}
        }
        self.detach(node, Ghost(k));
        let value = self.nodes[node].unwrap().value;
        match &self.value_drop {
            Some(d) => d.drop_value(value),
            None => {},
        }
        let ghost mid = self.nodes@;
        self.nodes.set(node, None);
        self.free.push(node);
        proof {
            let no = self.order@;
            assert forall|i: int| 0 <= i < no.len() implies self.nodes@[#[trigger] no[i] as int]
                == mid[no[i] as int] by {
                assert(no[i] != node);
            }
            lemma_frame(mid, self.nodes@, no);
            let f = self.free@;
            let of = old(self).free@;
            assert forall|j: int| 0 <= j < of.len() implies of[j] != node by {
                assert(mid[of[j] as int] is None);
            }
            assert forall|j: int| 0 <= j < f.len() implies (#[trigger] f[j]) < self.nodes@.len()
                && self.nodes@[f[j] as int] is None by {
                if j < f.len() - 1 {
                    assert(f[j] == of[j]);
                    assert(mid[of[j] as int] is None);
                }
            }
            assert forall|i: int, j: int| 0 <= i < j < f.len() implies f[i] != f[j] by {
                assert(f[i] == of[i]);
                if j < f.len() - 1 {
                    assert(f[j] == of[j]);
                }
            }
        }
    }

    /// Moves the head node to the tail; a list of fewer than two nodes stays
    /// as it is.
    pub fn move_head_to_tail(&mut self)
        requires
            old(self).wf(),
        ensures
            final(self).wf(),
            old(self)@.len() <= 1 ==> *final(self) == *old(self),
            old(self)@.len() > 1 ==> {
                &&& final(self)@ == old(self)@.subrange(1, old(self)@.len() as int).push(old(self)@[0])
                &&& final(self).handles() == old(self).handles().subrange(1, old(self)@.len() as int).push(
                    old(self).handles()[0],
                )
            },
            final(self).same_hooks(old(self)),
    {
        if self.len <= 1 {
            return;
        }
        let ghost o = self.order@;
        let ghost v = self@;
        let h = self.head.unwrap();
        self.detach(h, Ghost(0));
        self.attach_back(h);
        assert(o.remove(0) =~= o.subrange(1, o.len() as int));
        assert(v.remove(0) =~= v.subrange(1, v.len() as int));
    }

    /// Moves the tail node to the head; a list of fewer than two nodes stays
    /// as it is.
    pub fn move_tail_to_head(&mut self)
        requires
            old(self).wf(),
        ensures
            final(self).wf(),
            old(self)@.len() <= 1 ==> *final(self) == *old(self),
            old(self)@.len() > 1 ==> {
                let n = old(self)@.len() as int;
                &&& final(self)@ == seq![old(self)@[n - 1]] + old(self)@.subrange(0, n - 1)
                &&& final(self).handles() == seq![old(self).handles()[n - 1]]
                    + old(self).handles().subrange(0, n - 1)
            },
            final(self).same_hooks(old(self)),
    {
        if self.len <= 1 {
            return;
        }
        let ghost o = self.order@;
        let ghost v = self@;
        let t = self.tail.unwrap();
        self.detach(t, Ghost(o.len() - 1));
        self.attach_front(t);
        assert(o.remove(o.len() - 1) =~= o.subrange(0, o.len() - 1));
        assert(v.remove(v.len() - 1) =~= v.subrange(0, v.len() - 1));
    }
    /// Number of nodes.
    pub fn len(&self) -> (r: usize)
        requires
            self.wf(),
        ensures
            r == self@.len(),
    {
        self.len
    }

    /// The handle of the head node, if any.
    pub fn first(&self) -> (r: Option<usize>)
        requires
            self.wf(),
        ensures
            r == first_of(self.handles()),
    {
        self.head
    }

    /// The handle of the tail node, if any.
    pub fn last(&self) -> (r: Option<usize>)
        requires
            self.wf(),
        ensures
            r == last_of(self.handles()),
    {
        self.tail
    }

    pub fn is_empty(&self) -> (r: bool)
        requires
            self.wf(),
        ensures
            r <==> self@.len() == 0,
    {
        self.len == 0
    }

    /// Sets or clears the hook that copies values for `clone`.
    pub fn set_value_clone_method(&mut self, value_clone: Option<Rc<dyn ValueClone<T>>>)
        requires
            old(self).wf(),
        ensures
            final(self).wf(),
            final(self)@ == old(self)@,
            final(self).handles() == old(self).handles(),
            final(self).hooks() == (value_clone, old(self).hooks().1, old(self).hooks().2),
    {
        self.value_clone = value_clone;
    }

    /// Sets or clears the hook that receives each value whose node is freed.
    pub fn set_value_drop_method(&mut self, value_drop: Option<Rc<dyn ValueDrop<T>>>)
        requires
            old(self).wf(),
        ensures
            final(self).wf(),
            final(self)@ == old(self)@,
            final(self).handles() == old(self).handles(),
            final(self).hooks() == (old(self).hooks().0, value_drop, old(self).hooks().2),
    {
        self.value_drop = value_drop;
    }

    /// Sets or clears the hook that `search` compares values with.
    pub fn set_value_equals_method(&mut self, value_equals: Option<Rc<dyn ValueEquals<T>>>)
        requires
            old(self).wf(),
        ensures
            final(self).wf(),
            final(self)@ == old(self)@,
            final(self).handles() == old(self).handles(),
            final(self).hooks() == (old(self).hooks().0, old(self).hooks().1, value_equals),
    {
        self.value_equals = value_equals;
    }

    /// The handle of the node at `index`, counting from the head for
    /// `index >= 0` and from the tail for negative `index` (`-1` is the tail);
    /// `None` when out of range.
    pub fn get(&self, index: isize) -> (r: Option<usize>)
        requires
            self.wf(),
        ensures
            r == self.spec_get(index as int),
    {
        let n = self.len;
        let ghost o = self.order@;
        if index >= 0 {
            let steps = index as usize;
            if steps >= n {
                return None;
            }
            let mut cur = self.head.unwrap();
            let mut i: usize = 0;
            while i < steps
                invariant
                    self.wf(),
                    o == self.handles(),
                    n == o.len(),
                    i <= steps < n,
                    cur == o[i as int],
                decreases steps - i,
            {
                let nd = self.node(cur);
                assert(nd.spec_next() == next_of(o, i as int)) by {
                    reveal(links_ok);
                    assert forall|kk: int| 0 <= kk < n && o[kk] == cur implies kk == i by {}
                }
                cur = nd.next.unwrap();
                i = i + 1;
            }
            Some(cur)
        } else {
            let steps = (-(index + 1)) as usize;
            if steps >= n {
                return None;
            }
            let mut cur = self.tail.unwrap();
            let mut i: usize = 0;
            while i < steps
                invariant
                    self.wf(),
                    o == self.handles(),
                    n == o.len(),
                    i <= steps < n,
                    cur == o[n - 1 - i],
                decreases steps - i,
            {
                let nd = self.node(cur);
                assert(nd.spec_prev() == prev_of(o, n - 1 - i)) by {
                    reveal(links_ok);
                    assert forall|kk: int| 0 <= kk < n && o[kk] == cur implies kk == n - 1 - i by {}
                }
                cur = nd.prev.unwrap();
                i = i + 1;
            }
            Some(cur)
        }
    }

    /// The successor handle of position `i` as the links record it.
    fn step_forward(&self, cur: usize, Ghost(i): Ghost<int>) -> (r: (T, Option<usize>))
        requires
            self.wf(),
            0 <= i < self@.len(),
            self.handles()[i] == cur,
        ensures
            r.0 == self@[i],
            r.1 == next_of(self.handles(), i),
    {
        proof {
            reveal(links_ok);
            assert forall|kk: int| 0 <= kk < self.order@.len() && self.order@[kk] == cur implies kk
                == i by {}
        }
        let nd = self.node(cur);
        (nd.value, nd.next)
    }

    /// Moves every value of `other` to the tail of this list, in order, and
    /// leaves `other` empty; nothing happens when `other` is empty.
    ///
    /// The two lists have arenas of their own, so the nodes of `other` cannot
    /// be spliced in place: when this list is empty the arenas are swapped in
    /// O(1) and the handles of `other` stay valid here; otherwise each value
    /// gets a new node at the tail, which costs O(len(other)), and the handles
    /// of `other` are void. No value is dropped or cloned either way.
    pub fn append(&mut self, other: &mut Self)
        requires
            old(self).wf(),
            old(other).wf(),
            old(self)@.len() + old(other)@.len() <= usize::MAX,
        ensures
            final(self).wf(),
            final(other).wf(),
            final(self)@ == old(self)@ + old(other)@,
            final(self).handles().subrange(0, old(self)@.len() as int) == old(self).handles(),
            final(self).handles().len() == old(self)@.len() + old(other)@.len(),
            final(other)@ == Seq::<T>::empty(),
            final(other).handles() == Seq::<usize>::empty(),
            old(other)@.len() == 0 ==> *final(self) == *old(self) && *final(other) == *old(other),
            old(self)@.len() == 0 ==> final(self).handles() == old(other).handles(),
            final(self).same_hooks(old(self)),
            final(other).same_hooks(old(other)),
    {
        let n = other.len;
        if n == 0 {
            assert(old(self)@ + old(other)@ =~= old(self)@);
            assert(self.order@.subrange(0, self.order@.len() as int) =~= self.order@);
            proof {
                reveal(links_ok);
            }
            return;
        }
        if self.len == 0 {
            std::mem::swap(&mut self.nodes, &mut other.nodes);
            std::mem::swap(&mut self.free, &mut other.free);
            std::mem::swap(&mut self.head, &mut other.head);
            std::mem::swap(&mut self.tail, &mut other.tail);
            std::mem::swap(&mut self.len, &mut other.len);
            std::mem::swap(&mut self.order, &mut other.order);
            proof {
                reveal(links_ok);
                assert(old(self)@ =~= Seq::<T>::empty());
                assert(self@ =~= old(self)@ + old(other)@);
                assert(self.order@.subrange(0, 0) =~= old(self).order@);
                assert(other@ =~= Seq::<T>::empty());
            }
            return;
        }
        let ghost ov = other@;
        let mut cur = other.head.unwrap();
        let mut i: usize = 0;
        while i < n
            invariant
                self.wf(),
                other.wf(),
                *other == *old(other),
                ov == other@,
                n == ov.len(),
                old(self)@.len() + n <= usize::MAX,
                i <= n,
                i < n ==> cur == other.handles()[i as int],
                self@ == old(self)@ + ov.subrange(0, i as int),
                self.handles().len() == old(self)@.len() + i,
                self.handles().subrange(0, old(self)@.len() as int) == old(self).handles(),
                self.same_hooks(old(self)),
            decreases n - i,
        {
            let (value, next) = other.step_forward(cur, Ghost(i as int));
            let ghost before = self.order@;
            self.push_back_node(value);
            proof {
                assert(ov.subrange(0, i + 1) =~= ov.subrange(0, i as int).push(value));
                assert(self.order@.subrange(0, old(self)@.len() as int) =~= before.subrange(
                    0,
                    old(self)@.len() as int,
                ));
            }
            i = i + 1;
            if i < n {
                cur = next.unwrap();
            }
        }
        assert(ov.subrange(0, n as int) =~= ov);
        other.nodes = Vec::new();
        other.free = Vec::new();
        other.head = None;
        other.tail = None;
        other.len = 0;
        other.order = Ghost(Seq::empty());
        proof {
            reveal(links_ok);
            assert(other@ =~= Seq::<T>::empty());
        }
    }

    /// Frees every node, handing each value to the drop hook when there is
    /// one, head first; safe on an empty list.
    pub fn clear(&mut self)
        requires
            old(self).wf(),
        ensures
            final(self).wf(),
            final(self)@ == Seq::<T>::empty(),
            final(self).handles() == Seq::<usize>::empty(),
            final(self).same_hooks(old(self)),
    {
        let n = self.len;
        let mut cur = self.head;
        let mut i: usize = 0;
        while i < n
            invariant
                self.wf(),
                *self == *old(self),
                n == self@.len(),
                i <= n,
                cur == if i < n { Some(self.handles()[i as int]) } else { None },
            decreases n - i,
        {
            let h = cur.unwrap();
            let (value, next) = self.step_forward(h, Ghost(i as int));
            match &self.value_drop {
                Some(d) => d.drop_value(value),
                None => {},
            }
            cur = next;
            i = i + 1;
        }
        self.nodes = Vec::new();
        self.free = Vec::new();
        self.head = None;
        self.tail = None;
        self.len = 0;
        self.order = Ghost(Seq::empty());
        proof {
            reveal(links_ok);
            assert(self@ =~= Seq::<T>::empty());
        }
    }

    /// A new list with the same hooks and a copy of every value, in order;
    /// each copy comes from the clone hook when there is one.
    pub fn clone(&self) -> (r: Self)
        requires
            self.wf(),
        ensures
            r.wf(),
            r@.len() == self@.len(),
            !self.has_clone_hook() ==> r@ == self@,
            r.same_hooks(self),
    {
        let value_clone = match &self.value_clone {
            Some(f) => Some(f.clone()),
            None => None,
        };
        let value_drop = match &self.value_drop {
            Some(f) => Some(f.clone()),
            None => None,
        };
        let value_equals = match &self.value_equals {
            Some(f) => Some(f.clone()),
            None => None,
        };
        let mut copy = List {
            nodes: Vec::new(),
            free: Vec::new(),
            head: None,
            tail: None,
            len: 0,
            value_clone,
            value_drop,
            value_equals,
            order: Ghost(Seq::empty()),
        };
        proof {
            reveal(links_ok);
            assert(copy@ =~= Seq::<T>::empty());
        }
        let n = self.len;
        let mut cur = self.head;
        let mut i: usize = 0;
        while i < n
            invariant
                self.wf(),
                copy.wf(),
                n == self@.len(),
                i <= n,
                cur == if i < n { Some(self.handles()[i as int]) } else { None },
                copy@.len() == i,
                !self.has_clone_hook() ==> copy@ == self@.subrange(0, i as int),
                copy.same_hooks(self),
            decreases n - i,
        {
            let h = cur.unwrap();
            let (value, next) = self.step_forward(h, Ghost(i as int));
            let v = match &self.value_clone {
                Some(f) => f.clone_value(value),
                None => value,
            };
            copy.push_back_node(v);
            proof {
                if !self.has_clone_hook() {
                    assert(self@.subrange(0, i + 1) =~= self@.subrange(0, i as int).push(value));
                }
            }
            cur = next;
            i = i + 1;
        }
        assert(self@.subrange(0, n as int) =~= self@);
        copy
    }

    /// An iterator over the node handles from head to tail.
    pub fn iter(&self) -> (r: It<'_, T>)
        requires
            self.wf(),
        ensures
            r.wf(),
            r.remaining() == self.handles(),
            *r.list() == *self,
    {
        let r = It { list: self, next: self.head, forward: true, pos: Ghost(0) };
        assert(r.remaining() =~= self.handles());
        r
    }

    /// An iterator over the node handles from tail to head.
    pub fn rev_iter(&self) -> (r: It<'_, T>)
        requires
            self.wf(),
        ensures
            r.wf(),
            r.remaining() == self.handles().reverse(),
            *r.list() == *self,
    {
        let r = It { list: self, next: self.tail, forward: false, pos: Ghost(self.len - 1) };
        assert(r.remaining() =~= self.handles().reverse());
        r
    }
}

impl<T: Copy + PartialEq> List<T> {
    /// The handle of the first node, from the head, whose value matches
    /// `value`: by the equality hook when there is one, else by `==`.
    pub fn search(&self, value: T) -> (r: Option<usize>)
        requires
            self.wf(),
        ensures
            r matches Some(h) ==> self.handles().contains(h),
            !self.has_equals_hook() && T::obeys_eq_spec() ==> match r {
                None => forall|i: int| 0 <= i < self@.len() ==> !self@[i].eq_spec(&value),
                Some(h) => exists|i: int|
                    0 <= i < self@.len() && self.handles()[i] == h && self@[i].eq_spec(&value)
                        && forall|j: int| 0 <= j < i ==> !self@[j].eq_spec(&value),
            },
    {
        let n = self.len;
        let mut cur = self.head;
        let mut i: usize = 0;
        while i < n
            invariant
                self.wf(),
                n == self@.len(),
                i <= n,
                cur == if i < n { Some(self.handles()[i as int]) } else { None },
                !self.has_equals_hook() && T::obeys_eq_spec() ==> forall|j: int|
                    0 <= j < i ==> !self@[j].eq_spec(&value),
            decreases n - i,
        {
            let h = cur.unwrap();
            let (v, next) = self.step_forward(h, Ghost(i as int));
            let found = match &self.value_equals {
                Some(f) => f.equals(v, value),
                None => v == value,
            };
            if found {
                return Some(h);
            }
            cur = next;
            i = i + 1;
        }
        None
    }
}

/// A cursor over the handles of a list, head to tail or tail to head.
#[verifier::reject_recursive_types(T)]
pub struct It<'a, T> {
    list: &'a List<T>,
    next: Option<usize>,
    forward: bool,
    pos: Ghost<int>,
}

impl<'a, T: Copy> It<'a, T> {
    /// The list walked.
    pub closed spec fn list(&self) -> &'a List<T> {
        self.list
    }

    /// The handles still to come, in the order they come.
    pub closed spec fn remaining(&self) -> Seq<usize> {
        let o = self.list.handles();
        if self.forward {
            o.subrange(self.pos@, o.len() as int)
        } else {
            o.subrange(0, self.pos@ + 1).reverse()
        }
    }

    pub closed spec fn wf(&self) -> bool {
        let o = self.list.handles();
        &&& self.list.wf()
        &&& self.forward ==> {
            &&& 0 <= self.pos@ <= o.len()
            &&& self.next == if self.pos@ < o.len() { Some(o[self.pos@]) } else { None }
        }
        &&& !self.forward ==> {
            &&& -1 <= self.pos@ < o.len()
            &&& self.next == if self.pos@ >= 0 { Some(o[self.pos@]) } else { None }
        }
    }

    /// The next handle, or `None` when the walk is over.
    pub fn next(&mut self) -> (r: Option<usize>)
        requires
            old(self).wf(),
        ensures
            final(self).wf(),
            final(self).list() == old(self).list(),
            old(self).remaining().len() == 0 ==> r is None && final(self).remaining() == old(
                self,
            ).remaining(),
            old(self).remaining().len() > 0 ==> r == Some(old(self).remaining()[0])
                && final(self).remaining() == old(self).remaining().drop_first(),
    {
        let ghost o = self.list.handles();
        match self.next {
            None => None,
            Some(h) => {
                let i = self.pos;
                let (_, succ) = self.list.step_forward(h, i);
                let pred = self.list.node(h).prev;
                proof {
                    reveal(links_ok);
                    assert forall|kk: int| 0 <= kk < o.len() && o[kk] == h implies kk == i@ by {}
                }
                if self.forward {
                    self.next = succ;
                    self.pos = Ghost(i@ + 1);
                    assert(self.remaining() =~= old(self).remaining().drop_first());
                } else {
                    self.next = pred;
                    self.pos = Ghost(i@ - 1);
                    assert(self.remaining() =~= old(self).remaining().drop_first());
                }
                Some(h)
            },
        }
    }
}

/// Counting from the tail mirrors counting from the head: `get(-(i + 1))`
/// is the node `get(len - 1 - i)` finds, for every `i` below the length, and
/// both `get(len)` and `get(-(len + 1))` find nothing.
pub proof fn lemma_get_mirrors<T: Copy>(list: &List<T>, i: int)
    requires
        list.wf(),
        0 <= i < list@.len(),
    ensures
        list.spec_get(-(i + 1)) == list.spec_get(list@.len() - 1 - i),
        list.spec_get(i) is Some,
        list.spec_get(list@.len() as int) is None,
        list.spec_get(-(list@.len() + 1)) is None,
{
    list.lemma_wf();
}

/// A walk from the tail yields the handles of a list in exactly the reverse
/// of the order in which a walk from the head yields them.
pub proof fn lemma_rev_iter_reverses<'a, T: Copy>(fwd: &It<'a, T>, bwd: &It<'a, T>)
    requires
        fwd.list() == bwd.list(),
        fwd.remaining() == fwd.list().handles(),
        bwd.remaining() == bwd.list().handles().reverse(),
    ensures
        bwd.remaining() == fwd.remaining().reverse(),
        bwd.remaining().len() == fwd.remaining().len(),
        forall|k: int|
            0 <= k < fwd.remaining().len() ==> bwd.remaining()[k]
                == fwd.remaining()[fwd.remaining().len() - 1 - k],
{
}

} // verus!
