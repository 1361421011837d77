//! The component tree as data: node path to the declared order of its
//! children.
use vstd::prelude::*;

use crate::ids::{ComponentId, ComponentPath};

verus! {

/// A path as its segments.
pub type Path = Seq<Seq<char>>;

/// Every non-leaf node, the world root among them, with its children's names
/// in declared order.
pub type Children = Map<Seq<Seq<char>>, Seq<Seq<char>>>;

/// Whether `p` is `q` or an ancestor of it.
pub open spec fn is_prefix(p: Path, q: Path) -> bool {
    p.len() <= q.len() && q.take(p.len() as int) == p
}

/// Whether `p` is an ancestor of `q`.
pub open spec fn is_above(p: Path, q: Path) -> bool {
    p.len() < q.len() && q.take(p.len() as int) == p
}

/// How many leading segments two paths share.
pub open spec fn shared(p: Path, q: Path) -> nat
    decreases p.len(),
{
    if p.len() == 0 || q.len() == 0 || p[0] != q[0] {
        0
    } else {
        1 + shared(p.drop_first(), q.drop_first())
    }
}

/// Shared segments are shared, and the next ones differ.
pub proof fn lemma_shared(p: Path, q: Path)
    ensures
        shared(p, q) <= p.len(),
        shared(p, q) <= q.len(),
        p.take(shared(p, q) as int) == q.take(shared(p, q) as int),
        shared(p, q) < p.len() && shared(p, q) < q.len() ==> p[shared(p, q) as int]
            != q[shared(p, q) as int],
    decreases p.len(),
{
    if p.len() == 0 || q.len() == 0 || p[0] != q[0] {
        assert(p.take(0) =~= q.take(0));
    } else {
        let n = shared(p, q) as int;
        lemma_shared(p.drop_first(), q.drop_first());
        assert(p.take(n) =~= seq![p[0]] + p.drop_first().take(n - 1));
        assert(q.take(n) =~= seq![q[0]] + q.drop_first().take(n - 1));
    }
}

/// The number of shared segments is the only one that fits.
pub proof fn lemma_shared_unique(p: Path, q: Path, n: nat)
    requires
        n <= p.len(),
        n <= q.len(),
        p.take(n as int) == q.take(n as int),
        n < p.len() && n < q.len() ==> p[n as int] != q[n as int],
    ensures
        shared(p, q) == n,
{
    let m = shared(p, q);
    lemma_shared(p, q);
    if m < n {
        assert(p.take(n as int)[m as int] == p[m as int]);
        assert(q.take(n as int)[m as int] == q[m as int]);
    } else if n < m {
        assert(p.take(m as int)[n as int] == p[n as int]);
        assert(q.take(m as int)[n as int] == q[n as int]);
    }
}

// ---------------------------------------------------------------------------
// What the tree's operations do
// ---------------------------------------------------------------------------

/// The declared children of a node; none for a path that is no node.
pub open spec fn children_at(children: Children, p: Path) -> Seq<Seq<char>> {
    if children.contains_key(p) {
        children[p]
    } else {
        Seq::empty()
    }
}

/// A child list with one more name at its end, unless it is there already.
pub open spec fn with_child(list: Seq<Seq<char>>, child: Seq<char>) -> Seq<Seq<char>> {
    if list.contains(child) {
        list
    } else {
        list.push(child)
    }
}

/// A child list without a name; the others keep their order.
pub open spec fn without_child(list: Seq<Seq<char>>, child: Seq<char>) -> Seq<Seq<char>> {
    list.filter(|c: Seq<char>| c != child)
}

/// The tree with a child noted under a node.
pub open spec fn noted(children: Children, parent: Path, child: Seq<char>) -> Children {
    children.insert(parent, with_child(children_at(children, parent), child))
}

/// The tree with a leaf declared: each of its segments up to depth `depth` is
/// a child of the node above it.
pub open spec fn declared_to(children: Children, leaf: Path, depth: int) -> Children {
    Map::new(
        |p: Path| children.contains_key(p) || (is_above(p, leaf) && p.len() < depth),
        |p: Path|
            if is_above(p, leaf) && p.len() < depth {
                with_child(children_at(children, p), leaf[p.len() as int])
            } else {
                children[p]
            },
    )
}

/// The tree with a leaf declared.
pub open spec fn declared(children: Children, leaf: Path) -> Children {
    declared_to(children, leaf, leaf.len() as int)
}

/// The tree with a child forgotten. A node left without children is no node,
/// so it is forgotten from the one above it in turn, on up until a node still
/// has survivors or the world root is reached.
pub open spec fn forgotten(children: Children, parent: Path, child: Seq<char>) -> Children
    decreases parent.len(),
{
    if !children.contains_key(parent) {
        children
    } else {
        let left = without_child(children[parent], child);
        if left.len() > 0 {
            children.insert(parent, left)
        } else if parent.len() == 0 {
            children.remove(parent)
        } else {
            forgotten(children.remove(parent), parent.drop_last(), parent.last())
        }
    }
}

/// The visibility rule's same-instant clause: whether a subscriber stepping
/// now may receive what a publisher published at this same instant.
///
/// Their nearest common ancestor is below the world root, so that they live
/// inside the same composite, and the publisher's branch is declared earlier
/// than the subscriber's.
pub open spec fn releases(children: Children, publisher: Path, subscriber: Path) -> bool {
    let n = shared(publisher, subscriber) as int;
    let order = children_at(children, publisher.take(n));
    &&& 0 < n < publisher.len()
    &&& n < subscriber.len()
    &&& exists|i: int, j: int|
        0 <= i < j < order.len() && #[trigger] order[i] == publisher[n] && #[trigger] order[j]
            == subscriber[n]
}

/// Whether the tree is exactly that of a set of leaves: a node is what stands
/// above a leaf, its children are the next segments of the leaves below it,
/// and none is listed twice.
pub open spec fn tree_of(children: Children, leaves: Set<Path>) -> bool {
    &&& forall|p: Path| #[trigger]
        children.contains_key(p) <==> exists|q: Path| #[trigger] leaves.contains(q) && is_above(p, q)
    &&& forall|p: Path, c: Seq<char>|
        children.contains_key(p) ==> (#[trigger] children[p].contains(c) <==> exists|q: Path| #[trigger]
            leaves.contains(q) && is_prefix(p.push(c), q))
    &&& forall|p: Path| children.contains_key(p) ==> (#[trigger] children[p]).no_duplicates()
}

/// A component that is declared goes last: at every node on its way a new
/// branch stands behind the branches that were there, which keep their order,
/// and no other node changes.
pub proof fn law_a_newcomer_is_declared_last(children: Children, leaf: Path, node: Path)
    requires
        children.contains_key(node),
    ensures
        declared(children, leaf).contains_key(node),
        children[node].len() <= declared(children, leaf)[node].len() <= children[node].len() + 1,
        forall|i: int|
            0 <= i < children[node].len() ==> declared(children, leaf)[node][i]
                == #[trigger] children[node][i],
        declared(children, leaf)[node].len() == children[node].len() + 1 <==> is_above(node, leaf)
            && !children[node].contains(leaf[node.len() as int]),
        declared(children, leaf)[node].len() > children[node].len() ==> declared(
            children,
            leaf,
        )[node].last() == leaf[node.len() as int],
{
}

/// The next segment of a path under one of its ancestors makes a path that
/// leads to it.
proof fn lemma_step_down(p: Path, q: Path)
    requires
        is_above(p, q),
    ensures
        is_prefix(p.push(q[p.len() as int]), q),
{
    assert(q.take(p.len() as int + 1) =~= p.push(q[p.len() as int]));
}

/// A child's path leads to a leaf exactly where its node stands above the
/// leaf and the leaf goes on with the child.
proof fn lemma_child_prefix(p: Path, c: Seq<char>, q: Path)
    ensures
        is_prefix(p.push(c), q) <==> is_above(p, q) && q[p.len() as int] == c,
{
    if is_prefix(p.push(c), q) {
        assert(q.take(p.len() as int + 1)[p.len() as int] == c);
        assert(q.take(p.len() as int) =~= q.take(p.len() as int + 1).drop_last());
        assert(p.push(c).drop_last() =~= p);
    }
    if is_above(p, q) && q[p.len() as int] == c {
        lemma_step_down(p, q);
    }
}

/// Declaring a leaf makes the tree that of the leaves with it.
pub proof fn lemma_declared_tree(children: Children, leaves: Set<Path>, leaf: Path)
    requires
        tree_of(children, leaves),
    ensures
        tree_of(declared(children, leaf), leaves.insert(leaf)),
{
    let after = declared(children, leaf);
    let all = leaves.insert(leaf);
    assert forall|p: Path| #[trigger]
        after.contains_key(p) <==> exists|q: Path| #[trigger]
        all.contains(q) && is_above(p, q) by {
        if after.contains_key(p) {
            if is_above(p, leaf) {
                assert(all.contains(leaf));
            } else {
                assert(children.contains_key(p));
                let q = choose|q: Path| #[trigger] leaves.contains(q) && is_above(p, q);
                assert(all.contains(q));
            }
        }
        if exists|q: Path| #[trigger] all.contains(q) && is_above(p, q) {
            let q = choose|q: Path| #[trigger] all.contains(q) && is_above(p, q);
            if q != leaf {
                assert(leaves.contains(q));
                assert(children.contains_key(p));
            }
        }
    }
    assert forall|p: Path, c: Seq<char>| after.contains_key(p) implies (#[trigger] after[p].contains(
        c,
    ) <==> exists|q: Path| #[trigger] all.contains(q) && is_prefix(p.push(c), q)) by {
        let list = children_at(children, p);
        lemma_child_prefix(p, c, leaf);
        if after[p].contains(c) {
            if list.contains(c) {
                assert(children.contains_key(p));
                assert(children[p].contains(c));
                let q = choose|q: Path| #[trigger] leaves.contains(q) && is_prefix(p.push(c), q);
                assert(all.contains(q));
            } else {
                let k = choose|k: int| 0 <= k < after[p].len() && after[p][k] == c;
                assert(is_above(p, leaf));
                assert(c == leaf[p.len() as int]);
                assert(all.contains(leaf));
            }
        }
        if exists|q: Path| #[trigger] all.contains(q) && is_prefix(p.push(c), q) {
            let q = choose|q: Path| #[trigger] all.contains(q) && is_prefix(p.push(c), q);
            lemma_child_prefix(p, c, q);
            if q != leaf {
                assert(leaves.contains(q) && is_above(p, q));
                assert(children.contains_key(p));
                assert(children[p].contains(c));
                let k = choose|k: int| 0 <= k < list.len() && list[k] == c;
                assert(after[p][k] == c);
            } else {
                if list.contains(c) {
                    let k = choose|k: int| 0 <= k < list.len() && list[k] == c;
                    assert(after[p][k] == c);
                } else {
                    assert(after[p][list.len() as int] == c);
                }
            }
        }
    }
    assert forall|p: Path| after.contains_key(p) implies (
    #[trigger] after[p]).no_duplicates() by {
        let list = children_at(children, p);
        if children.contains_key(p) {
            assert(children[p].no_duplicates());
        }
        assert(list.no_duplicates());
        if is_above(p, leaf) && !list.contains(leaf[p.len() as int]) {
            let grown = list.push(leaf[p.len() as int]);
            assert forall|i: int, j: int|
                0 <= i < grown.len() && 0 <= j < grown.len() && i != j implies grown[i]
                != grown[j] by {
                if i < list.len() && j < list.len() {
                    assert(list[i] != list[j]);
                } else if i < list.len() {
                    assert(list.contains(list[i]));
                } else if j < list.len() {
                    assert(list.contains(list[j]));
                }
            }
        }
    }
}

/// What filtering one name out of a child list keeps.
pub proof fn lemma_filter_out(list: Seq<Seq<char>>, child: Seq<char>)
    ensures
        forall|c: Seq<char>|
            #[trigger] without_child(list, child).contains(c) <==> list.contains(c) && c != child,
        list.no_duplicates() ==> without_child(list, child).no_duplicates(),
    decreases list.len(),
{
    reveal(Seq::filter);
    let result = without_child(list, child);
    if list.len() > 0 {
        let front = list.drop_last();
        lemma_filter_out(front, child);
        let kept = without_child(front, child);
        assert(result == if list.last() != child {
            kept.push(list.last())
        } else {
            kept
        });
        assert forall|c: Seq<char>| #[trigger]
            result.contains(c) <==> list.contains(c) && c != child by {
            if list.contains(c) && c != child {
                let i = choose|i: int| 0 <= i < list.len() && list[i] == c;
                if i < front.len() {
                    assert(front[i] == c);
                    assert(front.contains(c));
                    assert(kept.contains(c));
                    let k = choose|k: int| 0 <= k < kept.len() && kept[k] == c;
                    assert(result[k] == c);
                } else {
                    assert(result[kept.len() as int] == c);
                }
            }
            if result.contains(c) {
                let k = choose|k: int| 0 <= k < result.len() && result[k] == c;
                if k < kept.len() {
                    assert(kept[k] == c);
                    assert(kept.contains(c));
                    assert(front.contains(c));
                    let i = choose|i: int| 0 <= i < front.len() && front[i] == c;
                    assert(list[i] == c);
                } else {
                    assert(list[list.len() - 1] == c);
                }
            }
        }
        if list.no_duplicates() {
            assert(front.no_duplicates()) by {
                assert forall|i: int, j: int|
                    0 <= i < front.len() && 0 <= j < front.len() && i != j implies front[i]
                    != front[j] by {
                    assert(list[i] != list[j]);
                }
            }
            assert forall|i: int, j: int|
                0 <= i < result.len() && 0 <= j < result.len() && i != j implies result[i]
                != result[j] by {
                if i < kept.len() && j < kept.len() {
                    assert(kept[i] != kept[j]);
                } else {
                    let k = if i < kept.len() {
                        i
                    } else {
                        j
                    };
                    assert(kept.contains(kept[k]));
                    assert(front.contains(kept[k]));
                    let m = choose|m: int| 0 <= m < front.len() && front[m] == kept[k];
                    assert(list[m] != list[list.len() - 1]);
                }
            }
        }
    }
}

/// Whether no path of a set stands above another.
pub open spec fn no_leaf_above_another(leaves: Set<Path>) -> bool {
    forall|p: Path, q: Path|
        #[trigger] leaves.contains(p) && #[trigger] leaves.contains(q) ==> !is_above(p, q)
}

/// Forgetting a leaf makes the tree that of the leaves without it.
pub proof fn lemma_forgotten_tree(children: Children, leaves: Set<Path>, leaf: Path)
    requires
        leaf.len() > 0,
        !leaves.contains(leaf),
        tree_of(children, leaves.insert(leaf)),
        forall|q: Path| #[trigger] leaves.contains(q) ==> !is_above(leaf, q),
        forall|q: Path| #[trigger] leaves.contains(q) ==> !is_above(q, leaf),
    ensures
        tree_of(forgotten(children, leaf.drop_last(), leaf.last()), leaves),
    decreases leaf.len(),
{
    let all = leaves.insert(leaf);
    let parent = leaf.drop_last();
    let child = leaf.last();
    assert(leaf.take(parent.len() as int) =~= parent);
    assert(is_above(parent, leaf));
    assert(all.contains(leaf));
    assert(children.contains_key(parent));
    let left = without_child(children[parent], child);
    lemma_filter_out(children[parent], child);
    assert(parent.push(child) =~= leaf);
    // What stays in the parent's list leads to a leaf that stays.
    assert forall|c: Seq<char>| #[trigger]
        left.contains(c) <==> exists|q: Path| #[trigger]
        leaves.contains(q) && is_prefix(parent.push(c), q) by {
        if left.contains(c) {
            assert(children[parent].contains(c));
            let q = choose|q: Path| #[trigger] all.contains(q) && is_prefix(parent.push(c), q);
            lemma_child_prefix(parent, c, q);
            assert(q != leaf);
            assert(leaves.contains(q));
        }
        if exists|q: Path| #[trigger] leaves.contains(q) && is_prefix(parent.push(c), q) {
            let q = choose|q: Path| #[trigger] leaves.contains(q) && is_prefix(parent.push(c), q);
            assert(all.contains(q));
            assert(children[parent].contains(c));
            if c == child {
                assert(is_prefix(leaf, q));
                if q.len() == leaf.len() {
                    assert(q.take(leaf.len() as int) =~= q);
                }
            }
        }
    }
    if left.len() > 0 {
        let after = children.insert(parent, left);
        assert(left.contains(left[0]));
        let through = choose|q: Path| #[trigger]
            leaves.contains(q) && is_prefix(parent.push(left[0]), q);
        lemma_child_prefix(parent, left[0], through);
        assert forall|p: Path| #[trigger]
            after.contains_key(p) <==> exists|q: Path| #[trigger]
            leaves.contains(q) && is_above(p, q) by {
            if after.contains_key(p) {
                if p == parent {
                    assert(leaves.contains(through) && is_above(p, through));
                } else {
                    let q = choose|q: Path| #[trigger] all.contains(q) && is_above(p, q);
                    if q == leaf {
                        // Everything above the leaf but its parent is above
                        // the parent, and so above what goes through it.
                        assert(p.len() < parent.len()) by {
                            if p.len() == parent.len() {
                                assert(p =~= parent);
                            }
                        }
                        assert(through.take(p.len() as int) =~= through.take(
                            parent.len() as int,
                        ).take(p.len() as int));
                        assert(leaf.take(p.len() as int) =~= parent.take(p.len() as int));
                        assert(leaves.contains(through) && is_above(p, through));
                    } else {
                        assert(leaves.contains(q));
                    }
                }
            }
            if exists|q: Path| #[trigger] leaves.contains(q) && is_above(p, q) {
                let q = choose|q: Path| #[trigger] leaves.contains(q) && is_above(p, q);
                assert(all.contains(q));
                assert(children.contains_key(p));
            }
        }
        assert forall|p: Path, c: Seq<char>| after.contains_key(p) implies (
        #[trigger] after[p].contains(c) <==> exists|q: Path| #[trigger]
            leaves.contains(q) && is_prefix(p.push(c), q)) by {
            if p != parent {
                assert(children.contains_key(p));
                assert(after[p] == children[p]);
                if after[p].contains(c) {
                    assert(children[p].contains(c));
                    let q = choose|q: Path| #[trigger] all.contains(q) && is_prefix(p.push(c), q);
                    if q == leaf {
                        lemma_child_prefix(p, c, leaf);
                        assert(p.len() < parent.len()) by {
                            if p.len() == parent.len() {
                                assert(p =~= parent);
                            }
                        }
                        assert(through.take(p.len() as int) =~= through.take(
                            parent.len() as int,
                        ).take(p.len() as int));
                        assert(leaf.take(p.len() as int) =~= parent.take(p.len() as int));
                        assert(through.take(parent.len() as int)[p.len() as int]
                            == through[p.len() as int]);
                        assert(parent[p.len() as int] == leaf[p.len() as int]);
                        lemma_child_prefix(p, c, through);
                        assert(leaves.contains(through));
                    } else {
                        assert(leaves.contains(q));
                    }
                }
                if exists|q: Path| #[trigger] leaves.contains(q) && is_prefix(p.push(c), q) {
                    let q = choose|q: Path| #[trigger]
                        leaves.contains(q) && is_prefix(p.push(c), q);
                    assert(all.contains(q));
                    assert(children[p].contains(c));
                }
            }
        }
        assert forall|p: Path| after.contains_key(p) implies (
        #[trigger] after[p]).no_duplicates() by {
            assert(children[parent].no_duplicates());
            if p != parent {
                assert(children[p].no_duplicates());
            }
        }
    } else {
        let after = children.remove(parent);
        // Nothing that stays goes through the parent.
        assert forall|q: Path| #[trigger] leaves.contains(q) implies !is_above(parent, q) by {
            if is_above(parent, q) {
                lemma_step_down(parent, q);
                assert(left.contains(q[parent.len() as int]));
            }
        }
        if parent.len() == 0 {
            assert(tree_of(after, leaves)) by {
                assert forall|p: Path| !(#[trigger] after.contains_key(p)) by {
                    if after.contains_key(p) {
                        let q = choose|q: Path| #[trigger] all.contains(q) && is_above(p, q);
                        if q == leaf {
                            assert(p =~= parent);
                        } else {
                            assert(leaves.contains(q));
                            assert(q.take(0) =~= parent);
                            assert(is_above(parent, q));
                        }
                    }
                }
                assert forall|p: Path| #[trigger]
                    after.contains_key(p) <==> exists|q: Path| #[trigger]
                    leaves.contains(q) && is_above(p, q) by {
                    if exists|q: Path| #[trigger] leaves.contains(q) && is_above(p, q) {
                        let q = choose|q: Path| #[trigger] leaves.contains(q) && is_above(p, q);
                        assert(q.take(0) =~= parent);
                        assert(is_above(parent, q));
                    }
                }
            }
        } else {
            let above = leaves.insert(parent);
            if leaves.contains(parent) {
                assert(is_above(parent, leaf));
            }
            assert forall|q: Path| #[trigger] leaves.contains(q) implies !is_above(q, parent) by {
                if is_above(q, parent) {
                    assert(leaf.take(q.len() as int) =~= parent.take(q.len() as int));
                    assert(is_above(q, leaf));
                }
            }
            assert(tree_of(after, above)) by {
                assert forall|p: Path| #[trigger]
                    after.contains_key(p) <==> exists|q: Path| #[trigger]
                    above.contains(q) && is_above(p, q) by {
                    if after.contains_key(p) {
                        let q = choose|q: Path| #[trigger] all.contains(q) && is_above(p, q);
                        if q == leaf {
                            assert(p.len() < parent.len()) by {
                                if p.len() == parent.len() {
                                    assert(p =~= parent);
                                }
                            }
                            assert(leaf.take(p.len() as int) =~= parent.take(p.len() as int));
                            assert(above.contains(parent) && is_above(p, parent));
                        } else {
                            assert(above.contains(q));
                        }
                    }
                    if exists|q: Path| #[trigger] above.contains(q) && is_above(p, q) {
                        let q = choose|q: Path| #[trigger] above.contains(q) && is_above(p, q);
                        if q == parent {
                            assert(leaf.take(p.len() as int) =~= parent.take(p.len() as int));
                            assert(is_above(p, leaf));
                            assert(all.contains(leaf));
                        } else {
                            assert(leaves.contains(q));
                            assert(all.contains(q));
                        }
                        assert(children.contains_key(p));
                        if p == parent {
                            assert(q != parent);
                            assert(is_above(parent, q));
                        }
                    }
                }
                assert forall|p: Path, c: Seq<char>| after.contains_key(p) implies (
                #[trigger] after[p].contains(c) <==> exists|q: Path| #[trigger]
                    above.contains(q) && is_prefix(p.push(c), q)) by {
                    assert(children.contains_key(p) && p != parent);
                    assert(after[p] == children[p]);
                    if after[p].contains(c) {
                        assert(children[p].contains(c));
                        let q = choose|q: Path| #[trigger]
                            all.contains(q) && is_prefix(p.push(c), q);
                        if q == leaf {
                            lemma_child_prefix(p, c, leaf);
                            assert(p.len() < parent.len()) by {
                                if p.len() == parent.len() {
                                    assert(p =~= parent);
                                }
                            }
                            assert(leaf.take(p.len() as int) =~= parent.take(p.len() as int));
                            assert(parent[p.len() as int] == leaf[p.len() as int]);
                            lemma_child_prefix(p, c, parent);
                            assert(above.contains(parent));
                        } else {
                            assert(above.contains(q));
                        }
                    }
                    if exists|q: Path| #[trigger] above.contains(q) && is_prefix(p.push(c), q) {
                        let q = choose|q: Path| #[trigger]
                            above.contains(q) && is_prefix(p.push(c), q);
                        if q == parent {
                            lemma_child_prefix(p, c, parent);
                            assert(leaf.take(p.len() as int) =~= parent.take(p.len() as int));
                            assert(parent[p.len() as int] == leaf[p.len() as int]);
                            lemma_child_prefix(p, c, leaf);
                            assert(all.contains(leaf));
                        } else {
                            assert(leaves.contains(q));
                            assert(all.contains(q));
                        }
                        assert(children[p].contains(c));
                    }
                }
                assert forall|p: Path| after.contains_key(p) implies (
                #[trigger] after[p]).no_duplicates() by {
                    assert(children[p].no_duplicates());
                }
            }
            lemma_forgotten_tree(after, leaves, parent);
        }
    }
}

// ---------------------------------------------------------------------------
// The tree itself
// ---------------------------------------------------------------------------

/// One non-leaf node: its path, and its children's names in declared order.
#[derive(Debug)]
pub struct Node {
    pub path: ComponentPath,
    pub children: Vec<ComponentId>,
}

/// The component tree as data. Declared order is registration order, and it
/// is what "earlier sibling" means in the visibility rule. Leaves are not
/// nodes of it.
#[derive(Debug)]
pub struct Tree {
    pub nodes: Vec<Node>,
}

/// A list of nodes as a map from path to children.
pub open spec fn node_map(nodes: Seq<Node>) -> Children
    decreases nodes.len(),
{
    if nodes.len() == 0 {
        Map::empty()
    } else {
        node_map(nodes.drop_last()).insert(
            nodes.last().path@,
            crate::ids::names(nodes.last().children@),
        )
    }
}

/// Whether no path is listed twice.
pub open spec fn distinct_nodes(nodes: Seq<Node>) -> bool {
    forall|i: int, j: int|
        0 <= i < j < nodes.len() ==> (#[trigger] nodes[i]).path@ != (#[trigger] nodes[j]).path@
}

/// The map holds a listed node.
proof fn lemma_node_at(nodes: Seq<Node>, i: int)
    requires
        distinct_nodes(nodes),
        0 <= i < nodes.len(),
    ensures
        node_map(nodes).contains_key(nodes[i].path@),
        node_map(nodes)[nodes[i].path@] == crate::ids::names(nodes[i].children@),
    decreases nodes.len(),
{
    if i < nodes.len() - 1 {
        let front = nodes.drop_last();
        assert forall|a: int, b: int| 0 <= a < b < front.len() implies (#[trigger] front[a]).path@
            != (#[trigger] front[b]).path@ by {
            assert(nodes[a].path@ != nodes[b].path@);
        }
        lemma_node_at(front, i);
        assert(front[i] == nodes[i]);
        assert(nodes[i].path@ != nodes[nodes.len() - 1].path@);
    }
}

/// The map holds nothing but listed nodes.
proof fn lemma_node_listed(nodes: Seq<Node>, p: Path)
    requires
        node_map(nodes).contains_key(p),
    ensures
        exists|i: int| 0 <= i < nodes.len() && (#[trigger] nodes[i]).path@ == p,
    decreases nodes.len(),
{
    if nodes.len() > 0 {
        if nodes.last().path@ == p {
            assert(nodes[nodes.len() - 1].path@ == p);
        } else {
            lemma_node_listed(nodes.drop_last(), p);
            let i = choose|i: int|
                0 <= i < nodes.drop_last().len() && (#[trigger] nodes.drop_last()[i]).path@ == p;
            assert(nodes[i].path@ == p);
        }
    }
}

/// Changing a node's children changes the map there.
proof fn lemma_node_update(nodes: Seq<Node>, i: int, node: Node)
    requires
        distinct_nodes(nodes),
        0 <= i < nodes.len(),
        node.path@ == nodes[i].path@,
    ensures
        node_map(nodes.update(i, node)) == node_map(nodes).insert(
            node.path@,
            crate::ids::names(node.children@),
        ),
        distinct_nodes(nodes.update(i, node)),
    decreases nodes.len(),
{
    let changed = nodes.update(i, node);
    assert forall|a: int, b: int| 0 <= a < b < changed.len() implies (#[trigger] changed[a]).path@
        != (#[trigger] changed[b]).path@ by {
        assert(nodes[a].path@ != nodes[b].path@);
    }
    let front = nodes.drop_last();
    assert forall|a: int, b: int| 0 <= a < b < front.len() implies (#[trigger] front[a]).path@ != (
    #[trigger] front[b]).path@ by {
        assert(nodes[a].path@ != nodes[b].path@);
    }
    if i == nodes.len() - 1 {
        assert(changed.drop_last() =~= front);
        assert(node_map(changed) =~= node_map(nodes).insert(
            node.path@,
            crate::ids::names(node.children@),
        ));
    } else {
        lemma_node_update(front, i, node);
        assert(changed.drop_last() =~= front.update(i, node));
        assert(nodes[i].path@ != nodes[nodes.len() - 1].path@);
        assert(node_map(changed) =~= node_map(nodes).insert(
            node.path@,
            crate::ids::names(node.children@),
        ));
    }
}

/// Taking a node out takes it out of the map.
proof fn lemma_node_removed(nodes: Seq<Node>, i: int)
    requires
        distinct_nodes(nodes),
        0 <= i < nodes.len(),
    ensures
        node_map(nodes.remove(i)) == node_map(nodes).remove(nodes[i].path@),
        distinct_nodes(nodes.remove(i)),
    decreases nodes.len(),
{
    let changed = nodes.remove(i);
    assert forall|a: int, b: int| 0 <= a < b < changed.len() implies (#[trigger] changed[a]).path@
        != (#[trigger] changed[b]).path@ by {
        let x = if a < i {
            a
        } else {
            a + 1
        };
        let y = if b < i {
            b
        } else {
            b + 1
        };
        assert(nodes[x].path@ != nodes[y].path@);
    }
    let front = nodes.drop_last();
    assert forall|a: int, b: int| 0 <= a < b < front.len() implies (#[trigger] front[a]).path@ != (
    #[trigger] front[b]).path@ by {
        assert(nodes[a].path@ != nodes[b].path@);
    }
    if i == nodes.len() - 1 {
        assert(changed =~= front);
        assert(!node_map(front).contains_key(nodes[i].path@)) by {
            if node_map(front).contains_key(nodes[i].path@) {
                lemma_node_listed(front, nodes[i].path@);
                let k = choose|k: int|
                    0 <= k < front.len() && (#[trigger] front[k]).path@ == nodes[i].path@;
                assert(nodes[k].path@ != nodes[i].path@);
            }
        }
        assert(node_map(changed) =~= node_map(nodes).remove(nodes[i].path@));
    } else {
        lemma_node_removed(front, i);
        assert(changed.drop_last() =~= front.remove(i));
        assert(changed.last() == nodes.last());
        assert(nodes[i].path@ != nodes[nodes.len() - 1].path@);
        assert(node_map(changed) =~= node_map(nodes).remove(nodes[i].path@));
    }
}

/// The position of a name in a list of names.
fn position_of(ids: &Vec<ComponentId>, name: &ComponentId) -> (place: Option<usize>)
    ensures
        match place {
            Some(i) => i < ids@.len() && crate::ids::names(ids@)[i as int] == name@,
            None => !crate::ids::names(ids@).contains(name@),
        },
{
    let mut i: usize = 0;
    while i < ids.len()
        invariant
            0 <= i <= ids@.len(),
            forall|j: int| 0 <= j < i ==> (#[trigger] ids@[j])@ != name@,
        decreases ids@.len() - i,
    {
        if ids[i] == *name {
            return Some(i);
        }
        i += 1;
    }
    proof {
        let list = crate::ids::names(ids@);
        if list.contains(name@) {
            let k = choose|k: int| 0 <= k < list.len() && list[k] == name@;
            assert(ids@[k]@ == name@);
        }
    }
    None
}

impl View for Tree {
    type V = Children;

    open spec fn view(&self) -> Children {
        node_map(self.nodes@)
    }
}

impl Tree {
    /// No node is listed twice.
    pub open spec fn wf(&self) -> bool {
        distinct_nodes(self.nodes@)
    }

    /// A tree without nodes.
    pub fn new() -> (tree: Self)
        ensures
            tree@ == Map::<Seq<Seq<char>>, Seq<Seq<char>>>::empty(),
            tree.wf(),
    {
        Tree { nodes: Vec::new() }
    }

    /// Where a node is listed.
    fn find(&self, path: &ComponentPath) -> (place: Option<usize>)
        requires
            self.wf(),
        ensures
            match place {
                Some(i) => i < self.nodes@.len() && self.nodes@[i as int].path@ == path@
                    && self@.contains_key(path@) && self@[path@] == crate::ids::names(
                    self.nodes@[i as int].children@,
                ),
                None => !self@.contains_key(path@),
            },
    {
        let mut i: usize = 0;
        while i < self.nodes.len()
            invariant
                self.wf(),
                0 <= i <= self.nodes@.len(),
                forall|j: int| 0 <= j < i ==> (#[trigger] self.nodes@[j]).path@ != path@,
            decreases self.nodes@.len() - i,
        {
            if self.nodes[i].path == *path {
                proof {
                    lemma_node_at(self.nodes@, i as int);
                }
                return Some(i);
            }
            i += 1;
        }
        proof {
            if self@.contains_key(path@) {
                lemma_node_listed(self.nodes@, path@);
            }
        }
        None
    }

    /// Whether nothing is declared anywhere.
    pub fn is_empty(&self) -> (empty: bool)
        requires
            self.wf(),
        ensures
            empty == (self@ == Map::<Seq<Seq<char>>, Seq<Seq<char>>>::empty()),
    {
        let empty = self.nodes.len() == 0;
        proof {
            if !empty {
                lemma_node_at(self.nodes@, 0);
                assert(self@.contains_key(self.nodes@[0].path@));
            } else {
                assert(self@ =~= Map::<Seq<Seq<char>>, Seq<Seq<char>>>::empty());
            }
        }
        empty
    }

    /// The declared children of a node; `None` for a path that is no node.
    pub fn children(&self, path: &ComponentPath) -> (list: Option<&[ComponentId]>)
        requires
            self.wf(),
        ensures
            match list {
                Some(ids) => self@.contains_key(path@) && crate::ids::names(ids@) == self@[path@],
                None => !self@.contains_key(path@),
            },
    {
        match self.find(path) {
            Some(i) => Some(self.nodes[i].children.as_slice()),
            None => None,
        }
    }

    /// Notes a child under a node, at the end of its children unless it is
    /// there already; the node is made if it was none.
    pub fn note_child(&mut self, parent_path: &ComponentPath, child_name: &ComponentId)
        requires
            old(self).wf(),
        ensures
            final(self).wf(),
            final(self)@ == noted(old(self)@, parent_path@, child_name@),
    {
        match self.find(parent_path) {
            Some(i) => {
                if position_of(&self.nodes[i].children, child_name).is_some() {
                    proof {
                        let list = self@[parent_path@];
                        let k = choose|k: int| 0 <= k < list.len() && list[k] == child_name@;
                        assert(list.contains(child_name@));
                        assert(self@ =~= noted(old(self)@, parent_path@, child_name@));
                    }
                } else {
                    let mut ids: Vec<ComponentId> = copy_ids(&self.nodes[i].children);
                    ids.push(child_name.clone());
                    let node = Node { path: parent_path.clone(), children: ids };
                    proof {
                        lemma_node_update(self.nodes@, i as int, node);
                        assert(crate::ids::names(node.children@) =~= self@[parent_path@].push(
                            child_name@,
                        ));
                    }
                    self.nodes.set(i, node);
                }
            },
            None => {
                let mut ids: Vec<ComponentId> = Vec::new();
                ids.push(child_name.clone());
                let node = Node { path: parent_path.clone(), children: ids };
                self.nodes.push(node);
                proof {
                    assert(self.nodes@.drop_last() =~= old(self).nodes@);
                    assert(crate::ids::names(node.children@) =~= with_child(
                        children_at(old(self)@, parent_path@),
                        child_name@,
                    ));
                    assert forall|a: int, b: int| 0 <= a < b < self.nodes@.len() implies (
                    #[trigger] self.nodes@[a]).path@ != (#[trigger] self.nodes@[b]).path@ by {
                        if b == self.nodes@.len() - 1 {
                            lemma_node_at(old(self).nodes@, a);
                        }
                    }
                }
            },
        }
    }

    /// Whether a path is a node, so that no leaf can stand there.
    pub fn is_internal_node(&self, path: &ComponentPath) -> (internal: bool)
        requires
            self.wf(),
        ensures
            internal == self@.contains_key(path@),
    {
        self.find(path).is_some()
    }

    /// Forgets a departed child, so its name no longer counts as a declared
    /// sibling. Survivors keep their relative order, and a later component
    /// may reuse the name, arriving at the end like any new sibling.
    ///
    /// Forgetting the last child leaves its parent empty, and an empty node
    /// is not a node: it is forgotten from *its* parent in turn, on up until
    /// a node still has survivors or the world root is reached.
    pub fn forget_child(&mut self, parent_path: &ComponentPath, child_name: &ComponentId)
        requires
            old(self).wf(),
        ensures
            final(self).wf(),
            final(self)@ == forgotten(old(self)@, parent_path@, child_name@),
        decreases parent_path@.len(),
    {
        let i: usize = match self.find(parent_path) {
            Some(i) => i,
            None => {
                return;
            },
        };
        let left = keep_others(&self.nodes[i].children, child_name);
        proof {
            assert(crate::ids::names(left@) == without_child(self@[parent_path@], child_name@));
        }
        if left.len() > 0 {
            let node = Node { path: parent_path.clone(), children: left };
            proof {
                lemma_node_update(self.nodes@, i as int, node);
            }
            self.nodes.set(i, node);
            return;
        }
        proof {
            lemma_node_removed(self.nodes@, i as int);
        }
        self.nodes.remove(i);
        match parent_path.parent() {
            Some(grandparent_path) => {
                let last: usize = parent_path.len() - 1;
                proof {
                    assert(parent_path@[last as int] == parent_path@.last());
                }
                let emptied = parent_path.segment(last).clone();
                self.forget_child(&grandparent_path, &emptied);
            },
            None => {},
        }
    }

    /// The visibility rule's same-instant clause: may `subscriber`, stepping
    /// now, receive a message `publisher` published at this same instant?
    ///
    /// True iff their nearest common ancestor is below the world root (they
    /// live inside the same composite) and the publisher's branch is declared
    /// earlier than the subscriber's. Cross-actor messages always wait for
    /// the subscriber's next step.
    pub fn releases_same_instant(
        &self,
        publisher: &ComponentPath,
        subscriber: &ComponentPath,
    ) -> (released: bool)
        requires
            self.wf(),
            forall|p: Path|
                self@.contains_key(p) ==> (#[trigger] self@[p]).no_duplicates(),
        ensures
            released == releases(self@, publisher@, subscriber@),
    {
        let n: usize = publisher.common_prefix_len(subscriber);
        proof {
            lemma_shared_unique(publisher@, subscriber@, n as nat);
        }
        if n == 0 || n >= publisher.len() || n >= subscriber.len() {
            return false;
        }
        let ancestor = publisher.prefix(n);
        let i: usize = match self.find(&ancestor) {
            Some(i) => i,
            None => {
                return false;
            },
        };
        let ghost order = self@[ancestor@];
        let published = position_of(&self.nodes[i].children, publisher.segment(n));
        let subscribed = position_of(&self.nodes[i].children, subscriber.segment(n));
        match (published, subscribed) {
            (Some(p), Some(s)) => {
                proof {
                    assert(order.no_duplicates());
                    if p < s {
                        assert(order[p as int] == publisher@[n as int] && order[s as int]
                            == subscriber@[n as int]);
                    } else if releases(self@, publisher@, subscriber@) {
                        let (a, b) = choose|a: int, b: int|
                            0 <= a < b < order.len() && #[trigger] order[a] == publisher@[n as int]
                                && #[trigger] order[b] == subscriber@[n as int];
                        assert(a == p && b == s);
                    }
                }
                p < s
            },
            _ => {
                proof {
                    if releases(self@, publisher@, subscriber@) {
                        let (a, b) = choose|a: int, b: int|
                            0 <= a < b < order.len() && #[trigger] order[a] == publisher@[n as int]
                                && #[trigger] order[b] == subscriber@[n as int];
                        assert(order.contains(publisher@[n as int]));
                        assert(order.contains(subscriber@[n as int]));
                    }
                }
                false
            },
        }
    }
}

/// A copy of a list of names.
fn copy_ids(ids: &Vec<ComponentId>) -> (copy: Vec<ComponentId>)
    ensures
        copy@ == ids@,
{
    let mut copy: Vec<ComponentId> = Vec::new();
    let mut i: usize = 0;
    while i < ids.len()
        invariant
            0 <= i <= ids@.len(),
            copy@ == ids@.take(i as int),
        decreases ids@.len() - i,
    {
        copy.push(ids[i].clone());
        proof {
            assert(copy@ =~= ids@.take(i + 1));
        }
        i += 1;
    }
    proof {
        assert(ids@.take(i as int) =~= ids@);
    }
    copy
}

/// The names of a list but for one; the others keep their order.
fn keep_others(ids: &Vec<ComponentId>, name: &ComponentId) -> (kept: Vec<ComponentId>)
    ensures
        crate::ids::names(kept@) == without_child(crate::ids::names(ids@), name@),
{
    let mut kept: Vec<ComponentId> = Vec::new();
    let mut i: usize = 0;
    let ghost all = crate::ids::names(ids@);
    proof {
        reveal(Seq::filter);
        assert(crate::ids::names(kept@) =~= without_child(all.take(0), name@));
    }
    while i < ids.len()
        invariant
            all == crate::ids::names(ids@),
            0 <= i <= ids@.len(),
            crate::ids::names(kept@) == without_child(all.take(i as int), name@),
        decreases ids@.len() - i,
    {
        proof {
            reveal(Seq::filter);
            assert(all.take(i + 1).drop_last() =~= all.take(i as int));
            assert(all.take(i + 1).last() == ids@[i as int]@);
        }
        if ids[i] != *name {
            let ghost before = kept@;
            kept.push(ids[i].clone());
            proof {
                assert(crate::ids::names(kept@) =~= crate::ids::names(before).push(ids@[i as int]@));
            }
        }
        i += 1;
    }
    proof {
        assert(all.take(i as int) =~= all);
    }
    kept
}

} // verus!
