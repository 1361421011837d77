//! The registered components and the tree they form.
use vstd::prelude::*;

use crate::component::{Component, StepCtx};
use crate::conductor_error::{ConductorError, ConductorErrorModel};
use crate::error::CoreError;
use crate::ids::{ComponentId, ComponentPath};
use crate::seed::derive_component_seed;
use crate::stopwatch::{Moment, Stopwatch};
use crate::time::SimTime;
use crate::timing::StepTiming;
use crate::tree::Tree;

verus! {

/// One scheduled leaf component and its bookkeeping.
pub struct Entry<K> {
    pub path: ComponentPath,
    pub component: K,
    pub last_step: Option<SimTime>,
    pub next_seq: u64,
    /// Derived from the world seed and the path; handed to every step.
    pub component_seed: u64,
    /// What this component's steps may cost in wall time, as declared when it
    /// joined.
    pub timing: StepTiming,
    /// How many of its steps have exceeded the soft half of that. Purely
    /// diagnostic.
    pub budget_misses: u64,
}

/// The bookkeeping of a registered component.
pub struct EntryModel {
    pub path: Seq<Seq<char>>,
    pub last_step: Option<SimTime>,
    pub next_seq: u64,
    pub component_seed: u64,
    pub timing: StepTiming,
    pub budget_misses: u64,
}

impl<K> View for Entry<K> {
    type V = EntryModel;

    open spec fn view(&self) -> EntryModel {
        EntryModel {
            path: self.path@,
            last_step: self.last_step,
            next_seq: self.next_seq,
            component_seed: self.component_seed,
            timing: self.timing,
            budget_misses: self.budget_misses,
        }
    }
}

/// The declared slots, and the tree of their paths.
#[verifier::ext_equal]
pub struct RegistryModel {
    pub entries: Seq<Option<EntryModel>>,
    pub children: Map<Seq<Seq<char>>, Seq<Seq<char>>>,
}

/// Whether a slot holds a component at a path.
pub open spec fn stands_at(entries: Seq<Option<EntryModel>>, i: int, path: Seq<Seq<char>>) -> bool {
    0 <= i < entries.len() && (entries[i] matches Some(entry) && entry.path == path)
}

/// Whether a component is registered at a path.
pub open spec fn is_registered(entries: Seq<Option<EntryModel>>, path: Seq<Seq<char>>) -> bool {
    exists|i: int| stands_at(entries, i, path)
}

/// The paths of all registered components.
pub open spec fn leaves(entries: Seq<Option<EntryModel>>) -> Set<Seq<Seq<char>>> {
    Set::new(|path: Seq<Seq<char>>| is_registered(entries, path))
}

/// The declaration index of the component registered at a path.
pub open spec fn slot_of(entries: Seq<Option<EntryModel>>, path: Seq<Seq<char>>) -> int {
    choose|i: int| stands_at(entries, i, path)
}

/// The paths of the components strictly beneath a path, earliest declared
/// first.
pub open spec fn beneath(entries: Seq<Option<EntryModel>>, path: Seq<Seq<char>>) -> Seq<
    Seq<Seq<char>>,
>
    decreases entries.len(),
{
    if entries.len() == 0 {
        Seq::empty()
    } else {
        let earlier = beneath(entries.drop_last(), path);
        match entries.last() {
            Some(entry) => if crate::tree::is_above(path, entry.path) {
                earlier.push(entry.path)
            } else {
                earlier
            },
            None => earlier,
        }
    }
}

/// The shortest registered path strictly above `path` that is at least
/// `depth` segments long.
pub open spec fn ancestor_from(
    entries: Seq<Option<EntryModel>>,
    path: Seq<Seq<char>>,
    depth: int,
) -> Option<Seq<Seq<char>>>
    decreases path.len() - depth,
{
    if depth >= path.len() {
        None
    } else if is_registered(entries, path.take(depth)) {
        Some(path.take(depth))
    } else {
        ancestor_from(entries, path, depth + 1)
    }
}

/// Why no component can be registered at a path, if none can: one is there
/// already, or the path is a composite, or a component stands above it.
pub open spec fn add_error(m: RegistryModel, path: Seq<Seq<char>>) -> Option<ConductorErrorModel> {
    if is_registered(m.entries, path) {
        Some(ConductorErrorModel::DuplicatePath(path))
    } else if m.children.contains_key(path) {
        Some(ConductorErrorModel::PathConflict { existing: path, new: path })
    } else {
        match ancestor_from(m.entries, path, 1) {
            Some(existing) => Some(ConductorErrorModel::PathConflict { existing, new: path }),
            None => None,
        }
    }
}

/// The bookkeeping of a component that has just been registered.
pub open spec fn fresh_entry(path: Seq<Seq<char>>, world_seed: u64, timing: StepTiming) -> EntryModel {
    EntryModel {
        path,
        last_step: None,
        next_seq: 0,
        component_seed: crate::seed::component_seed(world_seed, path),
        timing,
        budget_misses: 0,
    }
}

/// The registry with a component registered in a fresh slot at the end.
pub open spec fn added(
    m: RegistryModel,
    path: Seq<Seq<char>>,
    world_seed: u64,
    timing: StepTiming,
) -> RegistryModel {
    RegistryModel {
        entries: m.entries.push(Some(fresh_entry(path, world_seed, timing))),
        children: crate::tree::declared(m.children, path),
    }
}

/// The registry with a component's slot vacated and its path free again.
pub open spec fn removed(m: RegistryModel, path: Seq<Seq<char>>) -> RegistryModel {
    RegistryModel {
        entries: m.entries.update(slot_of(m.entries, path), None),
        children: crate::tree::forgotten(m.children, path.drop_last(), path.last()),
    }
}

/// Whether sibling leaves are listed in the order they were declared.
pub open spec fn siblings_in_order(m: RegistryModel) -> bool {
    forall|i: int, j: int, a: int, b: int|
        #![trigger m.entries[i], m.entries[j], m.children[m.entries[i]->0.path.drop_last()][a], m.children[m.entries[i]->0.path.drop_last()][b]]
        0 <= i < j < m.entries.len() && m.entries[i] is Some && m.entries[j] is Some
            && m.entries[i]->0.path.drop_last() == m.entries[j]->0.path.drop_last() && 0 <= a
            < m.children[m.entries[i]->0.path.drop_last()].len() && 0 <= b
            < m.children[m.entries[i]->0.path.drop_last()].len()
            && m.children[m.entries[i]->0.path.drop_last()][a] == m.entries[i]->0.path.last()
            && m.children[m.entries[i]->0.path.drop_last()][b] == m.entries[j]->0.path.last() ==> a
            < b
}

/// Whether a registry is one that registering and removing lead to: every
/// path is that of a leaf below the root, none is registered twice, none
/// stands above another, and the tree is exactly theirs with sibling leaves
/// in the order they were declared.
pub open spec fn sound(m: RegistryModel) -> bool {
    &&& forall|i: int|
        0 <= i < m.entries.len() && m.entries[i] is Some ==> (
        #[trigger] m.entries[i])->0.path.len() > 0
    &&& forall|i: int, j: int|
        0 <= i < j < m.entries.len() && m.entries[i] is Some && m.entries[j] is Some ==> (
        #[trigger] m.entries[i])->0.path != (#[trigger] m.entries[j])->0.path
    &&& crate::tree::no_leaf_above_another(leaves(m.entries))
    &&& crate::tree::tree_of(m.children, leaves(m.entries))
    &&& siblings_in_order(m)
}

/// In a sound registry a path has one slot.
pub proof fn lemma_slot(m: RegistryModel, path: Seq<Seq<char>>, i: int)
    requires
        sound(m),
        stands_at(m.entries, i, path),
    ensures
        slot_of(m.entries, path) == i,
        is_registered(m.entries, path),
{
    let k = slot_of(m.entries, path);
    assert(stands_at(m.entries, k, path));
    if k < i {
        assert(m.entries[k]->0.path != m.entries[i]->0.path);
    } else if i < k {
        assert(m.entries[i]->0.path != m.entries[k]->0.path);
    }
}

/// No registered path stands above `path` where none is found.
proof fn lemma_ancestor_from(entries: Seq<Option<EntryModel>>, path: Seq<Seq<char>>, depth: int)
    requires
        ancestor_from(entries, path, depth) is None,
        0 <= depth,
    ensures
        forall|d: int|
            depth <= d < path.len() ==> !is_registered(entries, #[trigger] path.take(d)),
    decreases path.len() - depth,
{
    if depth < path.len() {
        lemma_ancestor_from(entries, path, depth + 1);
    }
}

/// Registering keeps a registry sound.
pub proof fn lemma_added_sound(
    m: RegistryModel,
    path: Seq<Seq<char>>,
    world_seed: u64,
    timing: StepTiming,
)
    requires
        sound(m),
        path.len() > 0,
        add_error(m, path) is None,
    ensures
        sound(added(m, path, world_seed, timing)),
{
    let after = added(m, path, world_seed, timing);
    let before_leaves = leaves(m.entries);
    let after_leaves = leaves(after.entries);
    let n = m.entries.len() as int;
    assert(after_leaves =~= before_leaves.insert(path)) by {
        assert forall|p: Seq<Seq<char>>| after_leaves.contains(p) <==> before_leaves.insert(
            path,
        ).contains(p) by {
            if is_registered(after.entries, p) {
                let i = choose|i: int| stands_at(after.entries, i, p);
                if i < n {
                    assert(stands_at(m.entries, i, p));
                }
            }
            if is_registered(m.entries, p) {
                let i = choose|i: int| stands_at(m.entries, i, p);
                assert(stands_at(after.entries, i, p));
            }
            if p == path {
                assert(stands_at(after.entries, n, p));
            }
        }
    }
    crate::tree::lemma_declared_tree(m.children, before_leaves, path);
    lemma_ancestor_from(m.entries, path, 1);
    assert(crate::tree::no_leaf_above_another(after_leaves)) by {
        assert forall|p: Seq<Seq<char>>, q: Seq<Seq<char>>|
            #[trigger] after_leaves.contains(p) && #[trigger] after_leaves.contains(
                q,
            ) implies !crate::tree::is_above(p, q) by {
            if crate::tree::is_above(p, q) {
                if q == path {
                    if p != path {
                        assert(before_leaves.contains(p));
                        let i = choose|i: int| stands_at(m.entries, i, p);
                        assert(m.entries[i]->0.path.len() > 0);
                        assert(path.take(p.len() as int) == p);
                    }
                } else if p == path {
                    assert(before_leaves.contains(q));
                    assert(m.children.contains_key(path));
                } else {
                    assert(before_leaves.contains(p) && before_leaves.contains(q));
                }
            }
        }
    }
    assert forall|i: int, j: int|
        0 <= i < j < after.entries.len() && after.entries[i] is Some
            && after.entries[j] is Some implies (#[trigger] after.entries[i])->0.path != (
    #[trigger] after.entries[j])->0.path by {
        if j == n {
            if m.entries[i]->0.path == path {
                assert(stands_at(m.entries, i, path));
            }
        } else {
            assert(m.entries[i]->0.path != m.entries[j]->0.path);
        }
    }
    assert forall|i: int| 0 <= i < after.entries.len() && after.entries[i] is Some implies (
    #[trigger] after.entries[i])->0.path.len() > 0 by {
        if i < n {
            assert(m.entries[i]->0.path.len() > 0);
        }
    }
    let home = path.drop_last();
    let name = path.last();
    assert(!crate::tree::children_at(m.children, home).contains(name)) by {
        if crate::tree::children_at(m.children, home).contains(name) {
            assert(m.children.contains_key(home));
            assert(m.children[home].contains(name));
            let q = choose|q: Seq<Seq<char>>| #[trigger]
                before_leaves.contains(q) && crate::tree::is_prefix(home.push(name), q);
            assert(home.push(name) =~= path);
            if q.len() == path.len() {
                assert(q.take(path.len() as int) =~= q);
                assert(is_registered(m.entries, path));
            } else {
                assert(crate::tree::is_above(path, q));
                assert(m.children.contains_key(path));
            }
        }
    }
    assert(path.take(home.len() as int) =~= home);
    assert(crate::tree::is_above(home, path));
    assert(path[home.len() as int] == name);
    let grown = crate::tree::children_at(m.children, home).push(name);
    assert(after.children[home] == grown);
    assert(siblings_in_order(after)) by {
        assert forall|i: int, j: int, a: int, b: int|
            #![trigger after.entries[i], after.entries[j], after.children[after.entries[i]->0.path.drop_last()][a], after.children[after.entries[i]->0.path.drop_last()][b]]
            0 <= i < j < after.entries.len() && after.entries[i] is Some
                && after.entries[j] is Some && after.entries[i]->0.path.drop_last()
                == after.entries[j]->0.path.drop_last() && 0 <= a
                < after.children[after.entries[i]->0.path.drop_last()].len() && 0 <= b
                < after.children[after.entries[i]->0.path.drop_last()].len()
                && after.children[after.entries[i]->0.path.drop_last()][a]
                == after.entries[i]->0.path.last()
                && after.children[after.entries[i]->0.path.drop_last()][b]
                == after.entries[j]->0.path.last() implies a < b by {
            let p = after.entries[i]->0.path;
            let q = after.entries[j]->0.path;
            let shared_home = p.drop_last();
            assert(after.entries[i] == m.entries[i]);
            assert(p.len() > 0);
            assert(p.take(shared_home.len() as int) =~= shared_home);
            assert(stands_at(m.entries, i, p));
            assert(before_leaves.contains(p));
            assert(crate::tree::is_above(shared_home, p));
            assert(m.children.contains_key(shared_home));
            let list = m.children[shared_home];
            if j == n {
                // The newcomer is at the end of the list.
                assert(shared_home == home);
                assert(crate::tree::children_at(m.children, home) == list);
                if b < list.len() {
                    assert(list[b] == name);
                    assert(list.contains(name));
                }
                if a == list.len() {
                    assert(p =~= home.push(name));
                    assert(path =~= home.push(name));
                }
            } else {
                assert(after.entries[j] == m.entries[j]);
                assert(stands_at(m.entries, j, q));
                assert(before_leaves.contains(q));
                assert(q.len() > 0);
                assert(q.take(shared_home.len() as int) =~= shared_home);
                assert(p =~= shared_home.push(p.last()));
                assert(q =~= shared_home.push(q.last()));
                assert(p.take(p.len() as int) =~= p);
                assert(q.take(q.len() as int) =~= q);
                assert(crate::tree::is_prefix(shared_home.push(p.last()), p));
                assert(crate::tree::is_prefix(shared_home.push(q.last()), q));
                assert(list.contains(p.last()));
                assert(list.contains(q.last()));
                let a0 = choose|k: int| 0 <= k < list.len() && list[k] == p.last();
                let b0 = choose|k: int| 0 <= k < list.len() && list[k] == q.last();
                assert(m.children[m.entries[i]->0.path.drop_last()][a0] == p.last());
                assert(m.children[m.entries[i]->0.path.drop_last()][b0] == q.last());
                assert(a0 < b0);
                let result = after.children[shared_home];
                assert(result[a0] == p.last());
                assert(result[b0] == q.last());
                assert(result.no_duplicates());
                assert(a == a0 && b == b0);
            }
        }
    }
}

/// Taking a name out of a list keeps the order of the others.
proof fn lemma_filtered_order(list: Seq<Seq<char>>, child: Seq<char>, a: int, b: int)
    requires
        0 <= a < b < crate::tree::without_child(list, child).len(),
    ensures
        exists|x: int, y: int|
            0 <= x < y < list.len() && #[trigger] list[x] == crate::tree::without_child(
                list,
                child,
            )[a] && #[trigger] list[y] == crate::tree::without_child(list, child)[b],
    decreases list.len(),
{
    reveal(Seq::filter);
    let result = crate::tree::without_child(list, child);
    let front = list.drop_last();
    let kept = crate::tree::without_child(front, child);
    if list.len() > 0 {
        assert(result == if list.last() != child {
            kept.push(list.last())
        } else {
            kept
        });
        if b < kept.len() {
            lemma_filtered_order(front, child, a, b);
            let (x, y) = choose|x: int, y: int|
                0 <= x < y < front.len() && #[trigger] front[x] == kept[a] && #[trigger] front[y]
                    == kept[b];
            assert(list[x] == result[a] && list[y] == result[b]);
        } else {
            crate::tree::lemma_filter_out(front, child);
            assert(kept.contains(kept[a]));
            assert(front.contains(kept[a]));
            let x = choose|x: int| 0 <= x < front.len() && front[x] == kept[a];
            let y = list.len() - 1;
            assert(list[x] == result[a] && list[y] == result[b]);
        }
    }
}

/// What forgetting leaves of any node's child list: the list, or the list
/// without one name.
proof fn lemma_forgotten_lists(
    children: Map<Seq<Seq<char>>, Seq<Seq<char>>>,
    parent: Seq<Seq<char>>,
    child: Seq<char>,
    p: Seq<Seq<char>>,
)
    requires
        crate::tree::forgotten(children, parent, child).contains_key(p),
    ensures
        children.contains_key(p),
        crate::tree::forgotten(children, parent, child)[p] == children[p] || exists|c: Seq<char>|
            crate::tree::forgotten(children, parent, child)[p]
                == #[trigger] crate::tree::without_child(children[p], c),
    decreases parent.len(),
{
    if children.contains_key(parent) {
        let left = crate::tree::without_child(children[parent], child);
        if left.len() > 0 {
        } else if parent.len() > 0 {
            lemma_forgotten_lists(
                children.remove(parent),
                parent.drop_last(),
                parent.last(),
                p,
            );
        }
    }
}

/// Removing keeps a registry sound.
pub proof fn lemma_removed_sound(m: RegistryModel, path: Seq<Seq<char>>)
    requires
        sound(m),
        is_registered(m.entries, path),
    ensures
        sound(removed(m, path)),
        leaves(removed(m, path).entries) == leaves(m.entries).remove(path),
{
    let after = removed(m, path);
    let slot = slot_of(m.entries, path);
    assert(stands_at(m.entries, slot, path));
    let before_leaves = leaves(m.entries);
    let after_leaves = leaves(after.entries);
    assert(after_leaves =~= before_leaves.remove(path)) by {
        assert forall|p: Seq<Seq<char>>| after_leaves.contains(p) <==> before_leaves.remove(
            path,
        ).contains(p) by {
            if is_registered(after.entries, p) {
                let i = choose|i: int| stands_at(after.entries, i, p);
                assert(i != slot);
                assert(stands_at(m.entries, i, p));
                if p == path {
                    lemma_slot(m, path, i);
                }
            }
            if is_registered(m.entries, p) && p != path {
                let i = choose|i: int| stands_at(m.entries, i, p);
                assert(i != slot);
                assert(stands_at(after.entries, i, p));
            }
        }
    }
    assert(before_leaves.contains(path));
    assert(path.len() > 0) by {
        assert(m.entries[slot]->0.path.len() > 0);
    }
    assert(after_leaves.insert(path) =~= before_leaves);
    assert forall|q: Seq<Seq<char>>| #[trigger] after_leaves.contains(
        q,
    ) implies !crate::tree::is_above(path, q) by {
        assert(before_leaves.contains(q));
    }
    assert forall|q: Seq<Seq<char>>| #[trigger] after_leaves.contains(
        q,
    ) implies !crate::tree::is_above(q, path) by {
        assert(before_leaves.contains(q));
    }
    crate::tree::lemma_forgotten_tree(m.children, after_leaves, path);
    assert(crate::tree::no_leaf_above_another(after_leaves)) by {
        assert forall|p: Seq<Seq<char>>, q: Seq<Seq<char>>|
            #[trigger] after_leaves.contains(p) && #[trigger] after_leaves.contains(
                q,
            ) implies !crate::tree::is_above(p, q) by {
            assert(before_leaves.contains(p) && before_leaves.contains(q));
        }
    }
    assert forall|i: int, j: int|
        0 <= i < j < after.entries.len() && after.entries[i] is Some
            && after.entries[j] is Some implies (#[trigger] after.entries[i])->0.path != (
    #[trigger] after.entries[j])->0.path by {
        assert(m.entries[i]->0.path != m.entries[j]->0.path);
    }
    assert forall|i: int| 0 <= i < after.entries.len() && after.entries[i] is Some implies (
    #[trigger] after.entries[i])->0.path.len() > 0 by {
        assert(m.entries[i]->0.path.len() > 0);
    }
    assert(siblings_in_order(after)) by {
        assert forall|i: int, j: int, a: int, b: int|
            #![trigger after.entries[i], after.entries[j], after.children[after.entries[i]->0.path.drop_last()][a], after.children[after.entries[i]->0.path.drop_last()][b]]
            0 <= i < j < after.entries.len() && after.entries[i] is Some
                && after.entries[j] is Some && after.entries[i]->0.path.drop_last()
                == after.entries[j]->0.path.drop_last() && 0 <= a
                < after.children[after.entries[i]->0.path.drop_last()].len() && 0 <= b
                < after.children[after.entries[i]->0.path.drop_last()].len()
                && after.children[after.entries[i]->0.path.drop_last()][a]
                == after.entries[i]->0.path.last()
                && after.children[after.entries[i]->0.path.drop_last()][b]
                == after.entries[j]->0.path.last() implies a < b by {
            let p = after.entries[i]->0.path;
            let q = after.entries[j]->0.path;
            let home = p.drop_last();
            assert(after.entries[i] == m.entries[i] && after.entries[j] == m.entries[j]);
            assert(p.len() > 0 && q.len() > 0);
            assert(p.take(home.len() as int) =~= home);
            assert(stands_at(after.entries, i, p));
            assert(after_leaves.contains(p));
            assert(crate::tree::is_above(home, p));
            assert(after.children.contains_key(home));
            lemma_forgotten_lists(m.children, path.drop_last(), path.last(), home);
            let list = m.children[home];
            let result = after.children[home];
            assert(p =~= home.push(p.last()) && q =~= home.push(q.last()));
            assert(p != q);
            if a == b {
                assert(p.last() == q.last());
            } else if b < a {
                if result == list {
                    assert(m.children[m.entries[i]->0.path.drop_last()][a] == p.last());
                    assert(m.children[m.entries[i]->0.path.drop_last()][b] == q.last());
                } else {
                    let c = choose|c: Seq<char>|
                        result == #[trigger] crate::tree::without_child(list, c);
                    lemma_filtered_order(list, c, b, a);
                    let (x, y) = choose|x: int, y: int|
                        0 <= x < y < list.len() && #[trigger] list[x] == result[b]
                            && #[trigger] list[y] == result[a];
                    assert(m.children[m.entries[i]->0.path.drop_last()][y] == p.last());
                    assert(m.children[m.entries[i]->0.path.drop_last()][x] == q.last());
                }
            }
        }
    }
}

/// Execution order and visibility agree on which sibling is earlier: of two
/// leaves of one composite, the one declared first is the one whose messages
/// reach the other within an instant, and never the reverse.
pub proof fn law_declaration_order_is_visibility_order(m: RegistryModel, i: int, j: int)
    requires
        sound(m),
        0 <= i < m.entries.len(),
        0 <= j < m.entries.len(),
        i != j,
        m.entries[i] is Some,
        m.entries[j] is Some,
        m.entries[i]->0.path.drop_last() == m.entries[j]->0.path.drop_last(),
        m.entries[i]->0.path.len() > 1,
    ensures
        crate::tree::releases(m.children, m.entries[i]->0.path, m.entries[j]->0.path) <==> i < j,
{
    let p = m.entries[i]->0.path;
    let q = m.entries[j]->0.path;
    let home = p.drop_last();
    assert(q.len() > 0);
    if i < j {
        assert(m.entries[i]->0.path != m.entries[j]->0.path);
    } else {
        assert(m.entries[j]->0.path != m.entries[i]->0.path);
    }
    assert(p =~= home.push(p.last()) && q =~= home.push(q.last()));
    let n = home.len();
    assert(p.take(n as int) =~= home && q.take(n as int) =~= home);
    crate::tree::lemma_shared_unique(p, q, n);
    assert(stands_at(m.entries, i, p) && stands_at(m.entries, j, q));
    assert(leaves(m.entries).contains(p) && leaves(m.entries).contains(q));
    assert(crate::tree::is_above(home, p));
    assert(m.children.contains_key(home));
    let list = m.children[home];
    assert(p.take(p.len() as int) =~= p && q.take(q.len() as int) =~= q);
    assert(crate::tree::is_prefix(home.push(p.last()), p));
    assert(crate::tree::is_prefix(home.push(q.last()), q));
    assert(list.contains(p.last()) && list.contains(q.last()));
    let a = choose|k: int| 0 <= k < list.len() && list[k] == p.last();
    let b = choose|k: int| 0 <= k < list.len() && list[k] == q.last();
    let order = crate::tree::children_at(m.children, p.take(n as int));
    assert(order == list);
    assert(order[a] == p[n as int] && order[b] == q[n as int]);
    if i < j {
        assert(m.children[m.entries[i]->0.path.drop_last()][a] == p.last());
        assert(m.children[m.entries[i]->0.path.drop_last()][b] == q.last());
        assert(a < b);
    } else {
        assert(m.children[m.entries[j]->0.path.drop_last()][a] == p.last());
        assert(m.children[m.entries[j]->0.path.drop_last()][b] == q.last());
        assert(b < a);
        if crate::tree::releases(m.children, p, q) {
            let (x, y) = choose|x: int, y: int|
                0 <= x < y < order.len() && #[trigger] order[x] == p[n as int]
                    && #[trigger] order[y] == q[n as int];
            assert(list.no_duplicates());
            assert(x == a && y == b);
        }
    }
}

/// Nothing published at an instant reaches the publisher itself at it, nor a
/// component of another actor, nor both ways between two components.
pub proof fn law_same_instant_isolation(
    children: Map<Seq<Seq<char>>, Seq<Seq<char>>>,
    p: Seq<Seq<char>>,
    q: Seq<Seq<char>>,
)
    requires
        forall|n: Seq<Seq<char>>|
            children.contains_key(n) ==> (#[trigger] children[n]).no_duplicates(),
    ensures
        !crate::tree::releases(children, p, p),
        p.len() > 0 && q.len() > 0 && p[0] != q[0] ==> !crate::tree::releases(children, p, q),
        !(crate::tree::releases(children, p, q) && crate::tree::releases(children, q, p)),
{
    crate::tree::lemma_shared_unique(p, p, p.len());
    if crate::tree::releases(children, p, q) && crate::tree::releases(children, q, p) {
        crate::tree::lemma_shared(p, q);
        crate::tree::lemma_shared_unique(q, p, crate::tree::shared(p, q));
        let n = crate::tree::shared(p, q) as int;
        let order = crate::tree::children_at(children, p.take(n));
        let (a, b) = choose|a: int, b: int|
            0 <= a < b < order.len() && #[trigger] order[a] == p[n] && #[trigger] order[b] == q[n];
        let (c, d) = choose|c: int, d: int|
            0 <= c < d < order.len() && #[trigger] order[c] == q[n] && #[trigger] order[d] == p[n];
        assert(order.no_duplicates());
        assert(a == d && b == c);
    }
}

/// Of two components of one actor, wherever in it they are, what one
/// publishes reaches the other within an instant, and never the reverse; of
/// components of different actors neither does.
pub proof fn law_parts_of_an_actor_see_one_way(m: RegistryModel, i: int, j: int)
    requires
        sound(m),
        0 <= i < m.entries.len(),
        0 <= j < m.entries.len(),
        i != j,
        m.entries[i] is Some,
        m.entries[j] is Some,
    ensures
        m.entries[i]->0.path[0] != m.entries[j]->0.path[0] ==> !crate::tree::releases(
            m.children,
            m.entries[i]->0.path,
            m.entries[j]->0.path,
        ),
        m.entries[i]->0.path[0] == m.entries[j]->0.path[0] ==> (crate::tree::releases(
            m.children,
            m.entries[i]->0.path,
            m.entries[j]->0.path,
        ) <==> !crate::tree::releases(
            m.children,
            m.entries[j]->0.path,
            m.entries[i]->0.path,
        )),
{
    let p = m.entries[i]->0.path;
    let q = m.entries[j]->0.path;
    assert(p != q) by {
        if i < j {
            assert(m.entries[i]->0.path != m.entries[j]->0.path);
        } else {
            assert(m.entries[j]->0.path != m.entries[i]->0.path);
        }
    }
    assert(stands_at(m.entries, i, p) && stands_at(m.entries, j, q));
    let all = leaves(m.entries);
    assert(all.contains(p) && all.contains(q));
    law_same_instant_isolation(m.children, p, q);
    if p[0] == q[0] {
        crate::tree::lemma_shared(p, q);
        let n = crate::tree::shared(p, q) as int;
        crate::tree::lemma_shared_unique(q, p, n as nat);
        assert(n < p.len() && n < q.len()) by {
            if n == p.len() {
                assert(p.take(n) =~= p);
                if n == q.len() {
                    assert(q.take(n) =~= q);
                } else {
                    assert(crate::tree::is_above(p, q));
                }
            } else if n == q.len() {
                assert(q.take(n) =~= q);
                assert(crate::tree::is_above(q, p));
            }
        }
        let home = p.take(n);
        assert(crate::tree::is_above(home, p));
        assert(q.take(n) == home);
        assert(m.children.contains_key(home));
        let list = m.children[home];
        assert(p.take(n + 1) =~= home.push(p[n]));
        assert(q.take(n + 1) =~= home.push(q[n]));
        assert(crate::tree::is_prefix(home.push(p[n]), p));
        assert(crate::tree::is_prefix(home.push(q[n]), q));
        assert(list.contains(p[n]) && list.contains(q[n]));
        let a = choose|k: int| 0 <= k < list.len() && list[k] == p[n];
        let b = choose|k: int| 0 <= k < list.len() && list[k] == q[n];
        assert(crate::tree::children_at(m.children, home) == list);
        if a < b {
            assert(list[a] == p[n] && list[b] == q[n]);
            assert(crate::tree::releases(m.children, p, q));
        } else {
            assert(list[b] == q[n] && list[a] == p[n]);
            assert(crate::tree::releases(m.children, q, p));
        }
    }
}

/// Removing a component leaves every other slot as it was, so execution order
/// among the survivors is untouched.
pub proof fn law_removal_keeps_survivors(m: RegistryModel, path: Seq<Seq<char>>, i: int)
    requires
        sound(m),
        is_registered(m.entries, path),
        0 <= i < m.entries.len(),
        !stands_at(m.entries, i, path),
    ensures
        removed(m, path).entries.len() == m.entries.len(),
        removed(m, path).entries[i] == m.entries[i],
{
    let slot = slot_of(m.entries, path);
    assert(stands_at(m.entries, slot, path));
}

/// Whether two lists of slots hold components at the same paths.
pub open spec fn same_paths(a: Seq<Option<EntryModel>>, b: Seq<Option<EntryModel>>) -> bool {
    &&& a.len() == b.len()
    &&& forall|i: int|
        #![trigger a[i]]
        #![trigger b[i]]
        0 <= i < a.len() ==> (a[i] is Some <==> b[i] is Some) && (a[i] is Some ==> a[i]->0.path
            == b[i]->0.path)
}

/// Soundness is about paths alone: bookkeeping does not touch it.
pub proof fn lemma_bookkeeping_keeps_sound(m: RegistryModel, entries: Seq<Option<EntryModel>>)
    requires
        sound(m),
        same_paths(m.entries, entries),
    ensures
        sound(RegistryModel { entries, ..m }),
        leaves(entries) == leaves(m.entries),
{
    let after = RegistryModel { entries, ..m };
    assert(leaves(entries) =~= leaves(m.entries)) by {
        assert forall|p: Seq<Seq<char>>| leaves(entries).contains(p) <==> leaves(
            m.entries,
        ).contains(p) by {
            if is_registered(entries, p) {
                let i = choose|i: int| stands_at(entries, i, p);
                assert(entries[i] is Some);
                assert(stands_at(m.entries, i, p));
            }
            if is_registered(m.entries, p) {
                let i = choose|i: int| stands_at(m.entries, i, p);
                assert(m.entries[i] is Some);
                assert(stands_at(entries, i, p));
            }
        }
    }
    assert forall|i: int| 0 <= i < entries.len() && entries[i] is Some implies (
    #[trigger] entries[i])->0.path.len() > 0 by {
        assert(m.entries[i]->0.path.len() > 0);
    }
    assert forall|i: int, j: int|
        0 <= i < j < entries.len() && entries[i] is Some && entries[j] is Some implies (
    #[trigger] entries[i])->0.path != (#[trigger] entries[j])->0.path by {
        assert(m.entries[i]->0.path != m.entries[j]->0.path);
    }
    assert(siblings_in_order(after)) by {
        assert forall|i: int, j: int, a: int, b: int|
            #![trigger after.entries[i], after.entries[j], after.children[after.entries[i]->0.path.drop_last()][a], after.children[after.entries[i]->0.path.drop_last()][b]]
            0 <= i < j < after.entries.len() && after.entries[i] is Some
                && after.entries[j] is Some && after.entries[i]->0.path.drop_last()
                == after.entries[j]->0.path.drop_last() && 0 <= a
                < after.children[after.entries[i]->0.path.drop_last()].len() && 0 <= b
                < after.children[after.entries[i]->0.path.drop_last()].len()
                && after.children[after.entries[i]->0.path.drop_last()][a]
                == after.entries[i]->0.path.last()
                && after.children[after.entries[i]->0.path.drop_last()][b]
                == after.entries[j]->0.path.last() implies a < b by {
            assert(m.entries[i]->0.path == entries[i]->0.path);
            assert(m.entries[j]->0.path == entries[j]->0.path);
            assert(m.children[m.entries[i]->0.path.drop_last()][a] == entries[i]->0.path.last());
            assert(m.children[m.entries[i]->0.path.drop_last()][b] == entries[j]->0.path.last());
        }
    }
}

// ---------------------------------------------------------------------------
// The registry itself
// ---------------------------------------------------------------------------

/// All registered leaves, indexed by declaration order, which is the
/// deterministic execution order within an instant, plus the tree.
///
/// A slot is `None` once its component has left. Vacating rather than
/// removing is what keeps every surviving index stable.
pub struct Registry<K> {
    pub entries: Vec<Option<Entry<K>>>,
    pub tree: Tree,
}

/// A slot's bookkeeping.
pub open spec fn slot_model<K>(slot: Option<Entry<K>>) -> Option<EntryModel> {
    match slot {
        Some(entry) => Some(entry@),
        None => None,
    }
}

/// The bookkeeping of all slots.
pub open spec fn slot_models<K>(slots: Seq<Option<Entry<K>>>) -> Seq<Option<EntryModel>> {
    Seq::new(slots.len(), |i: int| slot_model(slots[i]))
}

/// The views of a sequence of paths.
pub open spec fn path_models(paths: Seq<ComponentPath>) -> Seq<Seq<Seq<char>>> {
    Seq::new(paths.len(), |i: int| paths[i]@)
}

/// The components in their slots.
pub open spec fn components<K>(entries: Seq<Option<Entry<K>>>) -> Seq<Option<K>> {
    Seq::new(
        entries.len(),
        |i: int|
            match entries[i] {
                Some(entry) => Some(entry.component),
                None => None,
            },
    )
}

impl<K> View for Registry<K> {
    type V = RegistryModel;

    open spec fn view(&self) -> RegistryModel {
        RegistryModel { entries: slot_models(self.entries@), children: self.tree@ }
    }
}

/// Whether one path stands strictly above another.
fn stands_above(path: &ComponentPath, candidate: &ComponentPath) -> (above: bool)
    ensures
        above == crate::tree::is_above(path@, candidate@),
{
    if candidate.len() <= path.len() {
        return false;
    }
    candidate.prefix(path.len()) == *path
}

impl<K> Registry<K> {
    /// The registry is sound and its tree lists no node twice.
    pub open spec fn wf(&self) -> bool {
        self.tree.wf() && sound(self@)
    }

    /// A registry without components.
    pub fn new() -> (registry: Self)
        ensures
            registry.wf(),
            registry@.entries == Seq::<Option<EntryModel>>::empty(),
            registry@.children == Map::<Seq<Seq<char>>, Seq<Seq<char>>>::empty(),
    {
        let registry = Registry { entries: Vec::new(), tree: Tree::new() };
        proof {
            assert(registry@.entries =~= Seq::<Option<EntryModel>>::empty());
        }
        registry
    }

    /// The live component at `index`, or `None` if that slot has been vacated
    /// by a departure or never was one.
    pub fn entry(&self, index: usize) -> (entry: Option<&Entry<K>>)
        ensures
            match entry {
                Some(e) => index < self.entries@.len() && self.entries@[index as int] == Some(*e)
                    && self@.entries[index as int] == Some(e@),
                None => index >= self@.entries.len() || self@.entries[index as int] is None,
            },
    {
        if index < self.entries.len() {
            self.entries[index].as_ref()
        } else {
            None
        }
    }

    /// The declaration index of the component registered at `path`, if one
    /// is.
    pub fn index_of(&self, path: &ComponentPath) -> (index: Option<usize>)
        requires
            self.wf(),
        ensures
            match index {
                Some(i) => stands_at(self@.entries, i as int, path@) && i == slot_of(
                    self@.entries,
                    path@,
                ) && is_registered(self@.entries, path@),
                None => !is_registered(self@.entries, path@),
            },
    {
        let mut i: usize = 0;
        while i < self.entries.len()
            invariant
                self.wf(),
                0 <= i <= self.entries@.len(),
                forall|j: int| 0 <= j < i ==> !#[trigger] stands_at(self@.entries, j, path@),
            decreases self.entries@.len() - i,
        {
            match &self.entries[i] {
                Some(entry) => {
                    if entry.path == *path {
                        proof {
                            assert(stands_at(self@.entries, i as int, path@));
                            lemma_slot(self@, path@, i as int);
                        }
                        return Some(i);
                    }
                },
                None => {},
            }
            i += 1;
        }
        None
    }

    /// Every registered leaf strictly beneath `path`, in declaration order:
    /// what a composite means, given only leaves are ever registered. Empty
    /// when `path` is itself a leaf, or names nothing at all.
    pub fn components_under(&self, path: &ComponentPath) -> (found: Vec<ComponentPath>)
        ensures
            path_models(found@) == beneath(self@.entries, path@),
    {
        let mut found: Vec<ComponentPath> = Vec::new();
        let mut i: usize = 0;
        proof {
            assert(path_models(found@) =~= beneath(self@.entries.take(0), path@));
        }
        while i < self.entries.len()
            invariant
                0 <= i <= self.entries@.len(),
                path_models(found@) == beneath(self@.entries.take(i as int), path@),
            decreases self.entries@.len() - i,
        {
            proof {
                assert(self@.entries.take(i + 1).drop_last() =~= self@.entries.take(i as int));
                assert(self@.entries.take(i + 1).last() == slot_model(self.entries@[i as int]));
            }
            match &self.entries[i] {
                Some(entry) => {
                    if stands_above(path, &entry.path) {
                        let ghost before = found@;
                        found.push(entry.path.clone());
                        proof {
                            assert(path_models(found@) =~= path_models(before).push(entry.path@));
                        }
                    }
                },
                None => {},
            }
            i += 1;
        }
        proof {
            assert(self@.entries.take(i as int) =~= self@.entries);
        }
        found
    }

    /// Removes a leaf: vacates its slot, frees its path for reuse, and drops
    /// it from its parent's declared children. Returns the vacated index, or
    /// `None` if no such component is registered.
    ///
    /// Rejoining under the same path is allowed and arrives like any new
    /// sibling: a fresh slot at the end, and the end of the parent's child
    /// list.
    pub fn remove(&mut self, path: &ComponentPath) -> (index: Option<usize>)
        requires
            old(self).wf(),
        ensures
            final(self).wf(),
            match index {
                Some(i) => is_registered(old(self)@.entries, path@) && i == slot_of(
                    old(self)@.entries,
                    path@,
                ) && final(self)@ == removed(old(self)@, path@) && final(self).entries@
                    == old(self).entries@.update(i as int, None),
                None => !is_registered(old(self)@.entries, path@) && final(self)@ == old(self)@
                    && final(self).entries@ == old(self).entries@,
            },
    {
        let index: usize = match self.index_of(path) {
            Some(index) => index,
            None => {
                return None;
            },
        };
        proof {
            lemma_removed_sound(self@, path@);
            assert(stands_at(self@.entries, index as int, path@));
            assert(self@.entries[index as int]->0.path.len() > 0);
        }
        self.entries.set(index, None);
        match path.parent() {
            Some(parent_path) => {
                let last: usize = path.len() - 1;
                proof {
                    assert(path@[last as int] == path@.last());
                }
                self.tree.forget_child(&parent_path, path.segment(last));
            },
            None => {},
        }
        proof {
            assert(self@.entries =~= old(self)@.entries.update(index as int, None));
            assert(self@ =~= removed(old(self)@, path@));
        }
        Some(index)
    }

    /// Registers a leaf under `parent_path`, creating intermediate tree nodes
    /// as needed. Returns the declaration index and full path.
    pub fn add(
        &mut self,
        parent_path: &ComponentPath,
        id: ComponentId,
        component: K,
        world_seed: u64,
        timing: StepTiming,
    ) -> (done: Result<(usize, ComponentPath), ConductorError>)
        requires
            old(self).wf(),
        ensures
            final(self).wf(),
            match done {
                Ok((index, path)) => add_error(old(self)@, parent_path@.push(id@)) is None && path@
                    == parent_path@.push(id@) && index == old(self)@.entries.len() && final(self)@
                    == added(old(self)@, parent_path@.push(id@), world_seed, timing)
                    && final(self).entries@.drop_last() == old(self).entries@ && (
                final(self).entries@.last() matches Some(entry) && entry.component == component),
                Err(error) => add_error(old(self)@, parent_path@.push(id@)) == Some(error@)
                    && final(self)@ == old(self)@ && final(self).entries@ == old(self).entries@,
            },
    {
        let path = parent_path.join(id);
        if self.index_of(&path).is_some() {
            return Err(ConductorError::DuplicatePath(path));
        }
        if self.tree.is_internal_node(&path) {
            return Err(ConductorError::PathConflict { existing: path.clone(), new: path });
        }
        // No existing leaf may be an ancestor of the new path.
        let mut depth: usize = 1;
        while depth < path.len()
            invariant
                self.wf(),
                self@ == old(self)@,
                self.entries@ == old(self).entries@,
                1 <= depth <= path@.len(),
                !is_registered(self@.entries, path@),
                !self@.children.contains_key(path@),
                ancestor_from(self@.entries, path@, 1) == ancestor_from(
                    self@.entries,
                    path@,
                    depth as int,
                ),
                path@ == parent_path@.push(id@),
            decreases path@.len() - depth,
        {
            let ancestor = path.prefix(depth);
            if self.index_of(&ancestor).is_some() {
                return Err(ConductorError::PathConflict { existing: ancestor, new: path });
            }
            depth += 1;
        }
        proof {
            lemma_added_sound(self@, path@, world_seed, timing);
        }
        // Every segment of the new path, the leaf itself among them, is a
        // child of the node above it.
        let mut noted: usize = 0;
        proof {
            assert(self.tree@ =~= crate::tree::declared_to(old(self)@.children, path@, 0));
        }
        while noted < path.len()
            invariant
                self.entries@ == old(self).entries@,
                self.tree.wf(),
                0 <= noted <= path@.len(),
                self.tree@ == crate::tree::declared_to(
                    old(self)@.children,
                    path@,
                    noted as int,
                ),
            decreases path@.len() - noted,
        {
            let node = path.prefix(noted);
            let ghost before = self.tree@;
            self.tree.note_child(&node, path.segment(noted));
            proof {
                assert(crate::tree::is_above(node@, path@)) by {
                    assert(path@.take(noted as int) == node@);
                }
                assert(node@.len() == noted);
                let after = crate::tree::declared_to(old(self)@.children, path@, noted + 1);
                assert forall|p: Seq<Seq<char>>| #[trigger]
                    self.tree@.contains_key(p) <==> after.contains_key(p) by {
                    if crate::tree::is_above(p, path@) && p.len() == noted {
                        assert(p == node@);
                    }
                }
                assert forall|p: Seq<Seq<char>>| self.tree@.contains_key(
                    p,
                ) implies #[trigger] self.tree@[p] == after[p] by {
                    if p == node@ {
                        assert(crate::tree::children_at(before, p) == crate::tree::children_at(
                            old(self)@.children,
                            p,
                        ));
                    } else if crate::tree::is_above(p, path@) && p.len() == noted {
                        assert(p == node@);
                    }
                }
                assert(self.tree@ =~= after);
            }
            noted += 1;
        }
        let index: usize = self.entries.len();
        let component_seed: u64 = derive_component_seed(world_seed, &path);
        let entry = Entry {
            path: path.clone(),
            component,
            last_step: None,
            next_seq: 0,
            component_seed,
            timing,
            budget_misses: 0,
        };
        self.entries.push(Some(entry));
        proof {
            assert(self.entries@.drop_last() =~= old(self).entries@);
            assert(self@.entries =~= old(self)@.entries.push(
                Some(fresh_entry(path@, world_seed, timing)),
            ));
            assert(self@ =~= added(old(self)@, path@, world_seed, timing));
        }
        Ok((index, path))
    }

    /// Lets a component take its step: what it is shown, what it returns and
    /// what it becomes are of one call of its own. The bookkeeping and every
    /// other component are untouched.
    pub(crate) fn step_component<'a>(
        &mut self,
        stopwatch: &mut Stopwatch,
        index: usize,
        shown: StepCtx<'a>,
    ) -> (taken: (Result<SimTime, CoreError>, StepCtx<'a>)) where K: Component
        requires
            old(self).wf(),
            index < old(self)@.entries.len(),
            old(self)@.entries[index as int] is Some,
        ensures
            final(self).wf(),
            final(self)@ == old(self)@,
            final(self).tree == old(self).tree,
            crate::component::took_step(
                old(self).entries@[index as int]->0.component,
                shown,
                taken.0,
                final(self).entries@[index as int]->0.component,
                taken.1,
            ),
            final(stopwatch)@ == old(stopwatch)@.push(
                Moment::Asked(
                    crate::stopwatch::told_to(old(self)@.entries[index as int]->0.path, shown@),
                ),
            ),
            final(self).entries@ == old(self).entries@.update(
                index as int,
                final(self).entries@[index as int],
            ),
    {
        let taken = match self.entries[index].take() {
            Some(entry) => {
                let Entry {
                    path,
                    component,
                    last_step,
                    next_seq,
                    component_seed,
                    timing,
                    budget_misses,
                } = entry;
                let (outcome, component, done) = stopwatch.step(&path, component, shown);
                let entry = Entry {
                    path,
                    component,
                    last_step,
                    next_seq,
                    component_seed,
                    timing,
                    budget_misses,
                };
                self.entries.set(index, Some(entry));
                (outcome, done)
            },
            None => (Ok(shown.now()), shown),
        };
        proof {
            assert(self@.entries =~= old(self)@.entries);
            assert(self.entries@ =~= old(self).entries@.update(
                index as int,
                self.entries@[index as int],
            ));
        }
        taken
    }

    /// A component's exposed state, as the component itself gives it.
    pub(crate) fn component_state(&self, index: usize) -> (state: Option<Vec<u8>>) where K: Component
        requires
            index < self@.entries.len(),
            self@.entries[index as int] is Some,
        ensures
            call_ensures(
                K::state_bytes,
                (&self.entries@[index as int]->0.component,),
                state,
            ),
    {
        match &self.entries[index] {
            Some(entry) => entry.component.state_bytes(),
            None => None,
        }
    }

    /// Books a step: when it was taken, and the sequence number that the
    /// component's next message gets.
    pub fn book_step(&mut self, index: usize, now: SimTime, next_seq: u64)
        requires
            old(self).wf(),
            index < old(self)@.entries.len(),
            old(self)@.entries[index as int] is Some,
        ensures
            final(self).wf(),
            final(self)@ == (RegistryModel {
                entries: old(self)@.entries.update(
                    index as int,
                    Some(
                        EntryModel {
                            last_step: Some(now),
                            next_seq,
                            ..old(self)@.entries[index as int]->0
                        },
                    ),
                ),
                ..old(self)@
            }),
            components(final(self).entries@) == components(old(self).entries@),
            final(self).entries@ == old(self).entries@.update(
                index as int,
                final(self).entries@[index as int],
            ),
    {
        match &mut self.entries[index] {
            Some(entry) => {
                entry.last_step = Some(now);
                entry.next_seq = next_seq;
            },
            None => {},
        }
        proof {
            let entry = EntryModel {
                last_step: Some(now),
                next_seq,
                ..old(self)@.entries[index as int]->0
            };
            let entries = old(self)@.entries.update(index as int, Some(entry));
            assert(self@.entries =~= entries);
            assert(components(self.entries@) =~= components(old(self).entries@));
            assert(self.entries@ =~= old(self).entries@.update(
                index as int,
                self.entries@[index as int],
            ));
            lemma_bookkeeping_keeps_sound(old(self)@, entries);
        }
    }

    /// Counts a missed budget against a component.
    pub fn count_miss(&mut self, index: usize)
        requires
            old(self).wf(),
            index < old(self)@.entries.len(),
            old(self)@.entries[index as int] is Some,
            old(self)@.entries[index as int]->0.budget_misses < u64::MAX,
        ensures
            final(self).wf(),
            final(self)@ == (RegistryModel {
                entries: old(self)@.entries.update(
                    index as int,
                    Some(
                        EntryModel {
                            budget_misses: (old(self)@.entries[index as int]->0.budget_misses
                                + 1) as u64,
                            ..old(self)@.entries[index as int]->0
                        },
                    ),
                ),
                ..old(self)@
            }),
            components(final(self).entries@) == components(old(self).entries@),
            final(self).entries@ == old(self).entries@.update(
                index as int,
                final(self).entries@[index as int],
            ),
    {
        match &mut self.entries[index] {
            Some(entry) => {
                entry.budget_misses = entry.budget_misses + 1;
            },
            None => {},
        }
        proof {
            let entry = EntryModel {
                budget_misses: (old(self)@.entries[index as int]->0.budget_misses + 1) as u64,
                ..old(self)@.entries[index as int]->0
            };
            let entries = old(self)@.entries.update(index as int, Some(entry));
            assert(self@.entries =~= entries);
            assert(components(self.entries@) =~= components(old(self).entries@));
            assert(self.entries@ =~= old(self).entries@.update(
                index as int,
                self.entries@[index as int],
            ));
            lemma_bookkeeping_keeps_sound(old(self)@, entries);
        }
    }
}

} // verus!
