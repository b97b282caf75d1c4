//! The forest that an arena's nodes form, stated over the sequence of nodes in
//! the order of their indices.
use vstd::prelude::*;

use crate::index::{index_at, lemma_index_view_eq, Index};
use crate::node::{link, Node};

verus! {

/// The siblings from node `c` on: `c`, the sibling added before it, and so on.
pub open(crate) spec fn sibling_chain<T>(nodes: Seq<Node<T>>, c: nat) -> Seq<nat>
    decreases c,
{
    if c < nodes.len() {
        match nodes[c as int].next {
            Some(n) => if n@ < c {
                seq![c] + sibling_chain(nodes, n@)
            } else {
                seq![c]
            },
            None => seq![c],
        }
    } else {
        seq![c]
    }
}

/// Node `p`'s children as its links list them: the head, then along `next`.
pub open(crate) spec fn children_of<T>(nodes: Seq<Node<T>>, p: nat) -> Seq<nat> {
    match nodes[p as int].child {
        Some(c) => sibling_chain(nodes, c@),
        None => Seq::empty(),
    }
}

/// The nodes among the first `n` whose parent is `p`, the latest first.
pub open(crate) spec fn children_before<T>(nodes: Seq<Node<T>>, p: nat, n: nat) -> Seq<nat>
    decreases n,
{
    if n == 0 {
        Seq::empty()
    } else if link(nodes[n - 1].parent) == Some(p) {
        seq![(n - 1) as nat] + children_before(nodes, p, (n - 1) as nat)
    } else {
        children_before(nodes, p, (n - 1) as nat)
    }
}

/// The links of `nodes` form a forest, and each node's list of children holds
/// exactly the nodes whose parent it is, the latest added first.
pub open(crate) spec fn is_forest<T>(nodes: Seq<Node<T>>) -> bool {
    &&& forall|i: int| 0 <= i < nodes.len() ==> (#[trigger] nodes[i]).index@ == i
    &&& forall|i: int|
        0 <= i < nodes.len() && (#[trigger] nodes[i]).parent is Some ==> nodes[i].parent.unwrap()@
            < i
    &&& forall|i: int|
        0 <= i < nodes.len() && (#[trigger] nodes[i]).next is Some ==> nodes[i].next.unwrap()@ < i
    &&& forall|i: int|
        0 <= i < nodes.len() && (#[trigger] nodes[i]).child is Some ==> i < nodes[i].child.unwrap()@
            < nodes.len()
    &&& forall|p: nat|
        p < nodes.len() ==> #[trigger] children_of(nodes, p) == children_before(
            nodes,
            p,
            nodes.len(),
        )
}

/// The node that is added as `index` with parent `parent` (which must be in
/// `nodes`): no children yet, and the parent's former head as its sibling.
pub open(crate) spec fn new_node<T>(
    nodes: Seq<Node<T>>,
    parent: Option<Index>,
    index: Index,
    value: T,
) -> Node<T> {
    Node {
        index,
        parent,
        child: None,
        next: match parent {
            Some(p) => nodes[p@ as int].child,
            None => None,
        },
        value,
    }
}

/// `nodes` after a node is added as `index` with parent `parent`: the new node
/// at the end, and the parent's head set to it.
pub open(crate) spec fn pushed<T>(
    nodes: Seq<Node<T>>,
    parent: Option<Index>,
    index: Index,
    value: T,
) -> Seq<Node<T>> {
    let node = new_node(nodes, parent, index, value);
    match parent {
        Some(p) => nodes.update(p@ as int, Node { child: Some(index), ..nodes[p@ as int] }).push(
            node,
        ),
        None => nodes.push(node),
    }
}

/// `nodes` after one node is added for each of `values`, in order, all with
/// parent `parent`; their indices follow those of `nodes`.
pub open(crate) spec fn pushed_all<T>(
    nodes: Seq<Node<T>>,
    parent: Option<Index>,
    values: Seq<T>,
) -> Seq<Node<T>>
    decreases values.len(),
{
    if values.len() == 0 {
        nodes
    } else {
        let before = pushed_all(nodes, parent, values.drop_last());
        pushed(before, parent, index_at(before.len()), values.last())
    }
}

/// Adding nodes for `values` adds exactly as many nodes.
pub(crate) proof fn lemma_pushed_all_len<T>(nodes: Seq<Node<T>>, parent: Option<Index>, values: Seq<T>)
    requires
        parent matches Some(p) ==> p@ < nodes.len(),
    ensures
        pushed_all(nodes, parent, values).len() == nodes.len() + values.len(),
    decreases values.len(),
{
    if values.len() > 0 {
        lemma_pushed_all_len(nodes, parent, values.drop_last());
        let before = pushed_all(nodes, parent, values.drop_last());
        assert(pushed(before, parent, index_at(before.len()), values.last()).len() == before.len()
            + 1);
    }
}

/// Adding a node leaves every earlier node as it was, but for the head of the
/// parent's list of children: each keeps its index, parent, next sibling and
/// value.
pub proof fn lemma_push_keeps_nodes<T>(
    nodes: Seq<Node<T>>,
    parent: Option<Index>,
    index: Index,
    value: T,
    i: int,
)
    requires
        0 <= i < nodes.len(),
        parent matches Some(p) ==> p@ < nodes.len(),
    ensures
        pushed(nodes, parent, index, value)[i].spec_index() == nodes[i].spec_index(),
        pushed(nodes, parent, index, value)[i].spec_parent() == nodes[i].spec_parent(),
        pushed(nodes, parent, index, value)[i].spec_next() == nodes[i].spec_next(),
        pushed(nodes, parent, index, value)[i].spec_value() == nodes[i].spec_value(),
        link(parent) != Some(i as nat) ==> pushed(nodes, parent, index, value)[i] == nodes[i],
{
}

/// A sibling chain reads only the `next` links of the nodes up to its start.
proof fn lemma_chain_frame<T>(a: Seq<Node<T>>, b: Seq<Node<T>>, c: nat)
    requires
        c < a.len() <= b.len(),
        forall|j: int| 0 <= j <= c ==> (#[trigger] b[j]).next == a[j].next,
    ensures
        sibling_chain(b, c) == sibling_chain(a, c),
    decreases c,
{
    match a[c as int].next {
        Some(n) => {
            if n@ < c {
                lemma_chain_frame(a, b, n@);
            }
        },
        None => {},
    }
}

/// `children_before` reads only the `parent` links of the nodes it covers.
proof fn lemma_children_before_frame<T>(a: Seq<Node<T>>, b: Seq<Node<T>>, p: nat, m: nat)
    requires
        m <= a.len(),
        m <= b.len(),
        forall|j: int| 0 <= j < m ==> (#[trigger] b[j]).parent == a[j].parent,
    ensures
        children_before(b, p, m) == children_before(a, p, m),
    decreases m,
{
    if m > 0 {
        lemma_children_before_frame(a, b, p, (m - 1) as nat);
    }
}

/// No node before `p` or at it has `p` as its parent.
proof fn lemma_children_before_none<T>(nodes: Seq<Node<T>>, p: nat, m: nat)
    requires
        m <= nodes.len(),
        m <= p + 1,
        forall|i: int|
            0 <= i < nodes.len() && (#[trigger] nodes[i]).parent is Some ==> nodes[i].parent.unwrap()@
                < i,
    ensures
        children_before(nodes, p, m) == Seq::<nat>::empty(),
    decreases m,
{
    if m > 0 {
        lemma_children_before_none(nodes, p, (m - 1) as nat);
    }
}

/// What `children_before` lists: children of `p` below `m`, each once, the
/// latest first, and all of them.
pub(crate) proof fn lemma_children_before_props<T>(nodes: Seq<Node<T>>, p: nat, m: nat)
    requires
        m <= nodes.len(),
    ensures
        forall|i: int|
            0 <= i < children_before(nodes, p, m).len() ==> {
                let k = #[trigger] children_before(nodes, p, m)[i];
                k < m && link(nodes[k as int].parent) == Some(p)
            },
        forall|i: int, j: int|
            0 <= i < j < children_before(nodes, p, m).len() ==> children_before(nodes, p, m)[j]
                < children_before(nodes, p, m)[i],
        forall|k: nat|
            k < m && link(#[trigger] nodes[k as int].parent) == Some(p) ==> children_before(
                nodes,
                p,
                m,
            ).contains(k),
    decreases m,
{
    if m > 0 {
        let m1 = (m - 1) as nat;
        lemma_children_before_props(nodes, p, m1);
        let s1 = children_before(nodes, p, m1);
        let s = children_before(nodes, p, m);
        if link(nodes[m1 as int].parent) == Some(p) {
            assert(s == seq![m1] + s1);
            assert forall|i: int| 0 <= i < s.len() implies {
                let k = #[trigger] s[i];
                k < m && link(nodes[k as int].parent) == Some(p)
            } by {
                if i > 0 {
                    assert(s[i] == s1[i - 1]);
                }
            }
            assert forall|i: int, j: int| 0 <= i < j < s.len() implies s[j] < s[i] by {
                assert(s[j] == s1[j - 1]);
                if i > 0 {
                    assert(s[i] == s1[i - 1]);
                } else {
                    assert(s1[j - 1] < m1);
                }
            }
            assert forall|k: nat| k < m && link(#[trigger] nodes[k as int].parent) == Some(p) implies s.contains(k) by {
                if k == m1 {
                    assert(s[0] == k);
                } else {
                    assert(s1.contains(k));
                    let t = choose|t: int| 0 <= t < s1.len() && s1[t] == k;
                    assert(s[t + 1] == k);
                }
            }
        }
    }
}

/// Adding a node keeps the forest well formed.
pub(crate) proof fn lemma_pushed_is_forest<T>(
    nodes: Seq<Node<T>>,
    parent: Option<Index>,
    index: Index,
    value: T,
)
    requires
        is_forest(nodes),
        index@ == nodes.len(),
        parent matches Some(p) ==> p@ < nodes.len(),
    ensures
        is_forest(pushed(nodes, parent, index, value)),
{
    let n = nodes.len();
    let b = pushed(nodes, parent, index, value);
    let node = new_node(nodes, parent, index, value);
    assert(b.len() == n + 1);
    assert(b[n as int] == node);
    assert forall|j: int| 0 <= j < n implies (#[trigger] b[j]).next == nodes[j].next
        && b[j].parent == nodes[j].parent && b[j].index == nodes[j].index by {}
    assert forall|j: int| 0 <= j < n + 1 implies (#[trigger] b[j]).parent == pushed(nodes, parent, index, value)[j].parent by {}
    if let Some(p) = parent {
        assert(nodes[p@ as int].child matches Some(h) ==> h@ < n);
    }
    assert forall|q: nat| q < b.len() implies #[trigger] children_of(b, q) == children_before(
        b,
        q,
        b.len(),
    ) by {
        lemma_children_before_frame(nodes, b, q, n);
        if q < n {
            assert(children_of(nodes, q) == children_before(nodes, q, n));
        }
        if q == n {
            lemma_children_before_none(b, q, b.len());
        }
        if let Some(p) = parent {
            if q == p@ {
                assert(children_before(b, q, n + 1) == seq![n] + children_before(b, q, n));
                match nodes[q as int].child {
                    Some(h) => {
                        lemma_chain_frame(nodes, b, h@);
                        assert(sibling_chain(b, n) == seq![n] + sibling_chain(b, h@));
                    },
                    None => {
                        assert(sibling_chain(b, n) == seq![n]);
                    },
                }
            } else if q < n {
                lemma_index_view_eq(p, index);
                assert(children_before(b, q, n + 1) == children_before(b, q, n));
                assert(b[q as int].child == nodes[q as int].child);
                if let Some(c) = nodes[q as int].child {
                    lemma_chain_frame(nodes, b, c@);
                }
            }
        } else if q < n {
            assert(children_before(b, q, n + 1) == children_before(b, q, n));
            if let Some(c) = nodes[q as int].child {
                lemma_chain_frame(nodes, b, c@);
            }
        }
    }
}

} // verus!
