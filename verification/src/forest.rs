//! The mathematics of the topology: forests of device trees, what it means
//! to find, detach and hang a subtree, and when a forest is well formed.

use crate::device::{
    forest_relevel, forest_size, lemma_forest_relevel, lemma_forest_size_index, tree_relevel,
    tree_size, DeviceTree,
};
use vstd::multiset::Multiset;
use vstd::prelude::*;

verus! {

/// The first node with identity `id` that a depth-first walk of `f` meets,
/// parents before children, with its subtree.
pub open spec fn forest_find(f: Seq<DeviceTree>, id: Seq<char>) -> Option<DeviceTree>
    decreases f,
{
    if f.len() == 0 {
        None
    } else if f[0].id == id {
        Some(f[0])
    } else {
        match forest_find(f[0].children, id) {
            Some(t) => Some(t),
            None => forest_find(f.drop_first(), id),
        }
    }
}

/// The forest `f` without the node that `forest_find` meets, and without
/// everything below that node.
pub open spec fn forest_remove(f: Seq<DeviceTree>, id: Seq<char>) -> Seq<DeviceTree>
    decreases f,
{
    if f.len() == 0 {
        f
    } else if f[0].id == id {
        f.drop_first()
    } else if forest_find(f[0].children, id) is Some {
        seq![DeviceTree { children: forest_remove(f[0].children, id), ..f[0] }] + f.drop_first()
    } else {
        seq![f[0]] + forest_remove(f.drop_first(), id)
    }
}

/// The children of a tree weigh less than the forest that holds the tree.
pub proof fn lemma_children_smaller(f: Seq<DeviceTree>, i: int)
    requires
        0 <= i < f.len(),
    ensures
        forest_size(f[i].children) < forest_size(f),
{
    lemma_forest_size_index(f, i);
    assert(tree_size(f[i]) == 1 + forest_size(f[i].children));
}

/// Removing an identity that the forest does not hold changes nothing.
pub proof fn lemma_remove_absent(f: Seq<DeviceTree>, id: Seq<char>)
    requires
        forest_find(f, id) is None,
    ensures
        forest_remove(f, id) == f,
    decreases f.len(),
{
    if f.len() > 0 {
        assert(forest_find(f[0].children, id) is None);
        lemma_remove_absent(f.drop_first(), id);
        assert(seq![f[0]] + f.drop_first() =~= f);
    }
}

/// The forest `f` with the tree `c` hung below the node that
/// `forest_find(f, pid)` meets, as its last child and at the depth that
/// follows from the node's own. Without such a node, `f`.
pub open spec fn forest_attach(f: Seq<DeviceTree>, pid: Seq<char>, c: DeviceTree) -> Seq<
    DeviceTree,
>
    decreases f,
{
    if f.len() == 0 {
        f
    } else if f[0].id == pid {
        seq![
            DeviceTree { children: f[0].children.push(tree_relevel(c, f[0].level + 1)), ..f[0] },
        ] + f.drop_first()
    } else if forest_find(f[0].children, pid) is Some {
        seq![DeviceTree { children: forest_attach(f[0].children, pid, c), ..f[0] }]
            + f.drop_first()
    } else {
        seq![f[0]] + forest_attach(f.drop_first(), pid, c)
    }
}

/// Every node of `t` lies at a depth under `bound`.
pub open spec fn tree_levels_below(t: DeviceTree, bound: int) -> bool
    decreases t,
{
    t.level < bound && forest_levels_below(t.children, bound)
}

/// Every node of `f` lies at a depth under `bound`.
pub open spec fn forest_levels_below(f: Seq<DeviceTree>, bound: int) -> bool
    decreases f,
{
    f.len() == 0 || (tree_levels_below(f[0], bound) && forest_levels_below(f.drop_first(), bound))
}

/// A bound on a forest holds of each of its trees.
pub proof fn lemma_levels_below_index(f: Seq<DeviceTree>, bound: int, i: int)
    requires
        forest_levels_below(f, bound),
        0 <= i < f.len(),
    ensures
        tree_levels_below(f[i], bound),
    decreases f.len(),
{
    if i > 0 {
        lemma_levels_below_index(f.drop_first(), bound, i - 1);
    }
}

/// The identities of the nodes of a tree, each as often as it occurs.
pub open spec fn tree_ids(t: DeviceTree) -> Multiset<Seq<char>>
    decreases t,
{
    forest_ids(t.children).insert(t.id)
}

/// The identities of the nodes of a forest, each as often as it occurs.
pub open spec fn forest_ids(f: Seq<DeviceTree>) -> Multiset<Seq<char>>
    decreases f,
{
    if f.len() == 0 {
        Multiset::empty()
    } else {
        tree_ids(f[0]).add(forest_ids(f.drop_first()))
    }
}

/// The root of `t` lies at depth `level`, every node below it one deeper
/// than the node above, and each declares the node above as its parent.
pub open spec fn tree_linked(t: DeviceTree, level: nat) -> bool
    decreases t,
{
    t.level == level && forest_linked(t.children, Some(t.id), level + 1)
}

/// Every tree of `f` is linked at depth `level`, and its root declares
/// `parent` where there is one.
pub open spec fn forest_linked(f: Seq<DeviceTree>, parent: Option<Seq<char>>, level: nat) -> bool
    decreases f,
{
    f.len() == 0 || {
        &&& parent is Some ==> f[0].parent == parent
        &&& tree_linked(f[0], level)
        &&& forest_linked(f.drop_first(), parent, level)
    }
}

/// No identity occurs twice in `f`.
pub open spec fn forest_unique(f: Seq<DeviceTree>) -> bool {
    forall|id: Seq<char>| forest_ids(f).count(id) <= 1
}

/// The forest is sound: its roots lie at depth 0, every other node lies
/// one deeper than its parent and declares it, and no identity occurs
/// twice.
pub open spec fn forest_sound(f: Seq<DeviceTree>) -> bool {
    forest_linked(f, None, 0) && forest_unique(f)
}

/// The root at `k` has found its place: it declares no parent, or the
/// parent that it declares stands nowhere in the forest but, at most,
/// below the root itself.
pub open spec fn root_settled(f: Seq<DeviceTree>, k: int) -> bool {
    f[k].parent is Some ==> forest_ids(f).count(f[k].parent->0) == tree_ids(f[k]).count(
        f[k].parent->0,
    )
}

/// Every root with identity `id` has found its place.
pub open spec fn id_settled(f: Seq<DeviceTree>, id: Seq<char>) -> bool {
    forall|k: int| 0 <= k < f.len() && (#[trigger] f[k]).id == id ==> root_settled(f, k)
}

/// No root of the forest waits for a parent that stands elsewhere in the
/// forest: see [`root_settled`].
pub open spec fn forest_settled(f: Seq<DeviceTree>) -> bool {
    forall|k: int| 0 <= k < f.len() ==> #[trigger] root_settled(f, k)
}

/// The forest is a well-formed topology: it is sound, and a device is a
/// root only where the parent that it declares stands nowhere else in
/// the topology.
pub open spec fn forest_wf(f: Seq<DeviceTree>) -> bool {
    forest_sound(f) && forest_settled(f)
}

/// The identities of two forests laid end to end.
pub proof fn lemma_ids_concat(a: Seq<DeviceTree>, b: Seq<DeviceTree>)
    ensures
        forest_ids(a + b) == forest_ids(a).add(forest_ids(b)),
    decreases a.len(),
{
    if a.len() == 0 {
        assert(a + b =~= b);
        assert(forest_ids(a) =~= Multiset::empty());
        assert(forest_ids(a).add(forest_ids(b)) =~= forest_ids(b));
    } else {
        lemma_ids_concat(a.drop_first(), b);
        assert((a + b).drop_first() =~= a.drop_first() + b);
        assert((a + b)[0] == a[0]);
        assert(forest_ids(a + b) == tree_ids(a[0]).add(forest_ids(a.drop_first() + b)));
        assert(forest_ids(a + b) =~= forest_ids(a).add(forest_ids(b)));
    }
}

/// The identities of a forest of one tree.
pub proof fn lemma_ids_single(t: DeviceTree)
    ensures
        forest_ids(seq![t]) == tree_ids(t),
{
    let f = seq![t];
    assert(f.drop_first() =~= Seq::<DeviceTree>::empty());
    assert(forest_ids(f.drop_first()) =~= Multiset::empty());
    assert(forest_ids(f) == tree_ids(f[0]).add(forest_ids(f.drop_first())));
    assert(forest_ids(f) =~= tree_ids(t));
}

/// A node is found exactly when its identity occurs, and the node found
/// bears the identity asked for.
pub proof fn lemma_find_ids(f: Seq<DeviceTree>, id: Seq<char>)
    ensures
        forest_find(f, id) is Some <==> forest_ids(f).count(id) > 0,
        forest_find(f, id) is Some ==> forest_find(f, id)->0.id == id,
    decreases f,
{
    if f.len() == 0 {
        assert(forest_ids(f) =~= Multiset::empty());
    } else {
        lemma_find_ids(f[0].children, id);
        lemma_find_ids(f.drop_first(), id);
        assert(tree_ids(f[0]) == forest_ids(f[0].children).insert(f[0].id));
        assert(forest_ids(f) == tree_ids(f[0]).add(forest_ids(f.drop_first())));
    }
}

/// What is detached and what stays make up what was there.
pub proof fn lemma_remove_ids(f: Seq<DeviceTree>, id: Seq<char>)
    requires
        forest_find(f, id) is Some,
    ensures
        forest_ids(f) == forest_ids(forest_remove(f, id)).add(tree_ids(forest_find(f, id)->0)),
    decreases f,
{
    let rest = f.drop_first();
    let t = f[0];
    assert(forest_ids(f) == tree_ids(t).add(forest_ids(rest)));
    assert(tree_ids(t) == forest_ids(t.children).insert(t.id));
    if t.id == id {
        assert(forest_ids(f) =~= forest_ids(rest).add(tree_ids(t)));
    } else if forest_find(t.children, id) is Some {
        lemma_remove_ids(t.children, id);
        let t2 = DeviceTree { children: forest_remove(t.children, id), ..t };
        lemma_ids_concat(seq![t2], rest);
        lemma_ids_single(t2);
        assert(tree_ids(t2) == forest_ids(t2.children).insert(t2.id));
        assert(forest_ids(f) =~= forest_ids(seq![t2] + rest).add(
            tree_ids(forest_find(f, id)->0),
        ));
    } else {
        lemma_remove_ids(rest, id);
        lemma_ids_concat(seq![t], forest_remove(rest, id));
        lemma_ids_single(t);
        assert(forest_ids(f) =~= forest_ids(seq![t] + forest_remove(rest, id)).add(
            tree_ids(forest_find(f, id)->0),
        ));
    }
}

/// Moving a tree to another depth keeps its identities.
pub proof fn lemma_relevel_tree_ids(t: DeviceTree, level: nat)
    ensures
        tree_ids(tree_relevel(t, level)) == tree_ids(t),
    decreases t,
{
    lemma_relevel_forest_ids(t.children, level + 1);
    assert(tree_ids(t) == forest_ids(t.children).insert(t.id));
    let r = tree_relevel(t, level);
    assert(tree_ids(r) == forest_ids(r.children).insert(r.id));
}

/// Moving a forest to another depth keeps its identities.
pub proof fn lemma_relevel_forest_ids(f: Seq<DeviceTree>, level: nat)
    ensures
        forest_ids(forest_relevel(f, level)) == forest_ids(f),
    decreases f,
{
    if f.len() == 0 {
        assert(forest_relevel(f, level) =~= f);
    } else {
        let head = tree_relevel(f[0], level);
        let tail = forest_relevel(f.drop_first(), level);
        lemma_relevel_tree_ids(f[0], level);
        lemma_relevel_forest_ids(f.drop_first(), level);
        lemma_ids_concat(seq![head], tail);
        lemma_ids_single(head);
        assert(forest_relevel(f, level) == seq![head] + tail);
        assert(forest_ids(f) == tree_ids(f[0]).add(forest_ids(f.drop_first())));
    }
}

/// Hanging a tree into a forest adds its identities.
pub proof fn lemma_attach_ids(f: Seq<DeviceTree>, pid: Seq<char>, c: DeviceTree)
    requires
        forest_find(f, pid) is Some,
    ensures
        forest_ids(forest_attach(f, pid, c)) == forest_ids(f).add(tree_ids(c)),
    decreases f,
{
    let rest = f.drop_first();
    let t = f[0];
    assert(forest_ids(f) == tree_ids(t).add(forest_ids(rest)));
    assert(tree_ids(t) == forest_ids(t.children).insert(t.id));
    if t.id == pid {
        let hung = tree_relevel(c, t.level + 1);
        let t2 = DeviceTree { children: t.children.push(hung), ..t };
        lemma_relevel_tree_ids(c, t.level + 1);
        assert(t.children.push(hung) =~= t.children + seq![hung]);
        lemma_ids_concat(t.children, seq![hung]);
        lemma_ids_single(hung);
        lemma_ids_concat(seq![t2], rest);
        lemma_ids_single(t2);
        assert(tree_ids(t2) == forest_ids(t2.children).insert(t2.id));
        assert(forest_ids(seq![t2] + rest) =~= forest_ids(f).add(tree_ids(c)));
    } else if forest_find(t.children, pid) is Some {
        lemma_attach_ids(t.children, pid, c);
        let t2 = DeviceTree { children: forest_attach(t.children, pid, c), ..t };
        lemma_ids_concat(seq![t2], rest);
        lemma_ids_single(t2);
        assert(tree_ids(t2) == forest_ids(t2.children).insert(t2.id));
        assert(forest_ids(seq![t2] + rest) =~= forest_ids(f).add(tree_ids(c)));
    } else {
        lemma_attach_ids(rest, pid, c);
        lemma_ids_concat(seq![t], forest_attach(rest, pid, c));
        lemma_ids_single(t);
        assert(forest_ids(seq![t] + forest_attach(rest, pid, c)) =~= forest_ids(f).add(
            tree_ids(c),
        ));
    }
}

/// Two forests laid end to end are linked exactly when both are.
pub proof fn lemma_linked_concat(
    a: Seq<DeviceTree>,
    b: Seq<DeviceTree>,
    parent: Option<Seq<char>>,
    level: nat,
)
    ensures
        forest_linked(a + b, parent, level) <==> forest_linked(a, parent, level) && forest_linked(
            b,
            parent,
            level,
        ),
    decreases a.len(),
{
    if a.len() == 0 {
        assert(a + b =~= b);
    } else {
        lemma_linked_concat(a.drop_first(), b, parent, level);
        assert((a + b).drop_first() =~= a.drop_first() + b);
        assert((a + b)[0] == a[0]);
    }
}

/// A forest of one tree is linked exactly when the tree is.
pub proof fn lemma_linked_single(t: DeviceTree, parent: Option<Seq<char>>, level: nat)
    ensures
        forest_linked(seq![t], parent, level) <==> (parent is Some ==> t.parent == parent)
            && tree_linked(t, level),
{
    let f = seq![t];
    assert(f[0] == t);
    assert(f.drop_first() =~= Seq::<DeviceTree>::empty());
    assert(forest_linked(f.drop_first(), parent, level));
}

/// Detaching a subtree leaves a linked forest linked.
pub proof fn lemma_remove_linked(
    f: Seq<DeviceTree>,
    id: Seq<char>,
    parent: Option<Seq<char>>,
    level: nat,
)
    requires
        forest_linked(f, parent, level),
    ensures
        forest_linked(forest_remove(f, id), parent, level),
    decreases f,
{
    if f.len() > 0 {
        let rest = f.drop_first();
        let t = f[0];
        assert(tree_linked(t, level));
        assert(forest_linked(t.children, Some(t.id), level + 1));
        if t.id == id {
        } else if forest_find(t.children, id) is Some {
            lemma_remove_linked(t.children, id, Some(t.id), level + 1);
            let t2 = DeviceTree { children: forest_remove(t.children, id), ..t };
            assert(tree_linked(t2, level));
            lemma_linked_single(t2, parent, level);
            lemma_linked_concat(seq![t2], rest, parent, level);
        } else {
            lemma_remove_linked(rest, id, parent, level);
            lemma_linked_single(t, parent, level);
            lemma_linked_concat(seq![t], forest_remove(rest, id), parent, level);
        }
    }
}

/// A linked tree moved to another depth is linked there.
pub proof fn lemma_relevel_tree_linked(t: DeviceTree, from: nat, level: nat)
    requires
        tree_linked(t, from),
    ensures
        tree_linked(tree_relevel(t, level), level),
    decreases t,
{
    lemma_relevel_forest_linked(t.children, Some(t.id), from + 1, level + 1);
}

/// A linked forest moved to another depth is linked there.
pub proof fn lemma_relevel_forest_linked(
    f: Seq<DeviceTree>,
    parent: Option<Seq<char>>,
    from: nat,
    level: nat,
)
    requires
        forest_linked(f, parent, from),
    ensures
        forest_linked(forest_relevel(f, level), parent, level),
    decreases f,
{
    if f.len() == 0 {
        assert(forest_relevel(f, level) =~= f);
    } else {
        let head = tree_relevel(f[0], level);
        let tail = forest_relevel(f.drop_first(), level);
        lemma_relevel_tree_linked(f[0], from, level);
        lemma_relevel_forest_linked(f.drop_first(), parent, from, level);
        assert(forest_relevel(f, level) == seq![head] + tail);
        lemma_linked_single(head, parent, level);
        lemma_linked_concat(seq![head], tail, parent, level);
    }
}

/// Hanging a linked tree below the parent that it declares leaves a linked
/// forest linked.
pub proof fn lemma_attach_linked(
    f: Seq<DeviceTree>,
    pid: Seq<char>,
    c: DeviceTree,
    from: nat,
    parent: Option<Seq<char>>,
    level: nat,
)
    requires
        forest_linked(f, parent, level),
        tree_linked(c, from),
        c.parent == Some(pid),
    ensures
        forest_linked(forest_attach(f, pid, c), parent, level),
    decreases f,
{
    if f.len() > 0 {
        let rest = f.drop_first();
        let t = f[0];
        assert(tree_linked(t, level));
        assert(forest_linked(t.children, Some(t.id), level + 1));
        if t.id == pid {
            let hung = tree_relevel(c, t.level + 1);
            let t2 = DeviceTree { children: t.children.push(hung), ..t };
            lemma_relevel_tree_linked(c, from, level + 1);
            assert(t.children.push(hung) =~= t.children + seq![hung]);
            lemma_linked_single(hung, Some(t.id), level + 1);
            lemma_linked_concat(t.children, seq![hung], Some(t.id), level + 1);
            assert(tree_linked(t2, level));
            lemma_linked_single(t2, parent, level);
            lemma_linked_concat(seq![t2], rest, parent, level);
        } else if forest_find(t.children, pid) is Some {
            lemma_attach_linked(t.children, pid, c, from, Some(t.id), level + 1);
            let t2 = DeviceTree { children: forest_attach(t.children, pid, c), ..t };
            assert(tree_linked(t2, level));
            lemma_linked_single(t2, parent, level);
            lemma_linked_concat(seq![t2], rest, parent, level);
        } else {
            lemma_attach_linked(rest, pid, c, from, parent, level);
            lemma_linked_single(t, parent, level);
            lemma_linked_concat(seq![t], forest_attach(rest, pid, c), parent, level);
        }
    }
}

/// A bound on the depths of a tree holds of every larger bound.
pub proof fn lemma_tree_levels_mono(t: DeviceTree, bound: int, larger: int)
    requires
        tree_levels_below(t, bound),
        bound <= larger,
    ensures
        tree_levels_below(t, larger),
    decreases t,
{
    lemma_forest_levels_mono(t.children, bound, larger);
}

/// A bound on the depths of a forest holds of every larger bound.
pub proof fn lemma_forest_levels_mono(f: Seq<DeviceTree>, bound: int, larger: int)
    requires
        forest_levels_below(f, bound),
        bound <= larger,
    ensures
        forest_levels_below(f, larger),
    decreases f,
{
    if f.len() > 0 {
        lemma_tree_levels_mono(f[0], bound, larger);
        lemma_forest_levels_mono(f.drop_first(), bound, larger);
    }
}

/// In a linked tree no node lies deeper than the tree has nodes.
pub proof fn lemma_tree_linked_levels(t: DeviceTree, level: nat)
    requires
        tree_linked(t, level),
    ensures
        tree_levels_below(t, (level + tree_size(t)) as int),
    decreases t,
{
    lemma_forest_linked_levels(t.children, Some(t.id), level + 1);
    assert(tree_size(t) == 1 + forest_size(t.children));
}

/// In a linked forest no node lies deeper than the forest has nodes.
pub proof fn lemma_forest_linked_levels(f: Seq<DeviceTree>, parent: Option<Seq<char>>, level: nat)
    requires
        forest_linked(f, parent, level),
    ensures
        forest_levels_below(f, (level + forest_size(f)) as int),
    decreases f,
{
    if f.len() > 0 {
        lemma_tree_linked_levels(f[0], level);
        lemma_forest_linked_levels(f.drop_first(), parent, level);
        assert(forest_size(f) == tree_size(f[0]) + forest_size(f.drop_first()));
        lemma_tree_levels_mono(
            f[0],
            (level + tree_size(f[0])) as int,
            (level + forest_size(f)) as int,
        );
        lemma_forest_levels_mono(
            f.drop_first(),
            (level + forest_size(f.drop_first())) as int,
            (level + forest_size(f)) as int,
        );
    }
}

/// The roots of `f` that do not declare `id` as their parent, in order.
pub open spec fn roots_kept(f: Seq<DeviceTree>, id: Seq<char>) -> Seq<DeviceTree>
    decreases f.len(),
{
    if f.len() == 0 {
        f
    } else if f[0].parent == Some(id) {
        roots_kept(f.drop_first(), id)
    } else {
        seq![f[0]] + roots_kept(f.drop_first(), id)
    }
}

/// The roots of `f` that declare `id` as their parent, in order: the
/// orphans that wait for the node `id`.
pub open spec fn roots_orphans(f: Seq<DeviceTree>, id: Seq<char>) -> Seq<DeviceTree>
    decreases f.len(),
{
    if f.len() == 0 {
        f
    } else if f[0].parent == Some(id) {
        seq![f[0]] + roots_orphans(f.drop_first(), id)
    } else {
        roots_orphans(f.drop_first(), id)
    }
}

/// The device `c` with the roots of `f` that wait for it: every root
/// that declares `c` as its parent stands below `c`, behind the children
/// that `c` brings. The levels are not yet those of the place of `c`.
pub open spec fn tree_adopting(f: Seq<DeviceTree>, c: DeviceTree) -> DeviceTree {
    DeviceTree { children: c.children + roots_orphans(f, c.id), ..c }
}

/// The forest `f` with `c` as a new last root at depth 0, and with every
/// root of `f` that declares `c` as its parent moved below `c`.
pub open spec fn forest_adopt(f: Seq<DeviceTree>, c: DeviceTree) -> Seq<DeviceTree> {
    roots_kept(f, c.id).push(tree_relevel(tree_adopting(f, c), 0))
}

/// The forest `f` with `c` put in its place. The roots of `f` that
/// declare `c` as their parent move below `c` in every case. With them
/// `c` goes below the parent that it declares, where the rest of the
/// forest holds that parent; else it becomes the last root. The levels of
/// `c` and of everything below it follow from the place of `c`.
pub open spec fn forest_place(f: Seq<DeviceTree>, c: DeviceTree) -> Seq<DeviceTree> {
    match c.parent {
        Some(p) => if forest_find(roots_kept(f, c.id), p) is Some {
            forest_attach(roots_kept(f, c.id), p, tree_adopting(f, c))
        } else {
            forest_adopt(f, c)
        },
        None => forest_adopt(f, c),
    }
}

/// The forest `f` after the device `c` arrived: what `f` held under the
/// identity of `c` is gone, and `c` is put in its place.
pub open spec fn forest_insert(f: Seq<DeviceTree>, c: DeviceTree) -> Seq<DeviceTree> {
    forest_place(forest_remove(f, c.id), c)
}

/// Kept roots and orphans make up the roots.
pub proof fn lemma_split_ids(f: Seq<DeviceTree>, id: Seq<char>)
    ensures
        forest_ids(roots_kept(f, id)).add(forest_ids(roots_orphans(f, id))) == forest_ids(f),
    decreases f.len(),
{
    if f.len() == 0 {
        assert(forest_ids(f) =~= Multiset::empty());
        assert(forest_ids(f).add(forest_ids(f)) =~= forest_ids(f));
    } else {
        let rest = f.drop_first();
        lemma_split_ids(rest, id);
        lemma_ids_single(f[0]);
        assert(forest_ids(f) == tree_ids(f[0]).add(forest_ids(rest)));
        if f[0].parent == Some(id) {
            lemma_ids_concat(seq![f[0]], roots_orphans(rest, id));
            assert(forest_ids(roots_kept(f, id)).add(forest_ids(roots_orphans(f, id)))
                =~= forest_ids(f));
        } else {
            lemma_ids_concat(seq![f[0]], roots_kept(rest, id));
            assert(forest_ids(roots_kept(f, id)).add(forest_ids(roots_orphans(f, id)))
                =~= forest_ids(f));
        }
    }
}

/// Kept roots stay linked as roots, and orphans are linked below `id`.
pub proof fn lemma_split_linked(f: Seq<DeviceTree>, id: Seq<char>, level: nat)
    requires
        forest_linked(f, None, level),
    ensures
        forest_linked(roots_kept(f, id), None, level),
        forest_linked(roots_orphans(f, id), Some(id), level),
    decreases f.len(),
{
    if f.len() > 0 {
        let rest = f.drop_first();
        lemma_split_linked(rest, id, level);
        if f[0].parent == Some(id) {
            lemma_linked_single(f[0], Some(id), level);
            lemma_linked_concat(seq![f[0]], roots_orphans(rest, id), Some(id), level);
        } else {
            lemma_linked_single(f[0], None, level);
            lemma_linked_concat(seq![f[0]], roots_kept(rest, id), None, level);
        }
    }
}

/// Detaching a subtree leaves a well-formed forest well formed, and the
/// identity detached is gone from it.
pub proof fn lemma_remove_sound(f: Seq<DeviceTree>, id: Seq<char>)
    requires
        forest_sound(f),
    ensures
        forest_sound(forest_remove(f, id)),
        forest_find(forest_remove(f, id), id) is None,
        forall|other: Seq<char>|
            forest_ids(forest_remove(f, id)).count(other) <= forest_ids(f).count(other),
{
    lemma_remove_linked(f, id, None, 0);
    lemma_find_ids(f, id);
    lemma_find_ids(forest_remove(f, id), id);
    if forest_find(f, id) is Some {
        lemma_remove_ids(f, id);
        let t = forest_find(f, id)->0;
        assert(tree_ids(t) == forest_ids(t.children).insert(t.id));
        assert(tree_ids(t).count(id) >= 1);
        assert forall|other: Seq<char>|
            forest_ids(forest_remove(f, id)).count(other) <= forest_ids(f).count(other) by {
            assert(forest_ids(f).count(other) == forest_ids(forest_remove(f, id)).count(other)
                + tree_ids(t).count(other));
        }
    } else {
        lemma_remove_absent(f, id);
    }
    assert forall|other: Seq<char>| forest_ids(forest_remove(f, id)).count(other) <= 1 by {
        assert(forest_ids(f).count(other) <= 1);
    }
}

/// Hanging a linked tree with fresh identities below the parent that it
/// declares leaves a well-formed forest well formed.
pub proof fn lemma_attach_sound(f: Seq<DeviceTree>, pid: Seq<char>, c: DeviceTree, from: nat)
    requires
        forest_sound(f),
        forest_find(f, pid) is Some,
        tree_linked(c, from),
        c.parent == Some(pid),
        forall|id: Seq<char>| forest_ids(f).count(id) + tree_ids(c).count(id) <= 1,
    ensures
        forest_sound(forest_attach(f, pid, c)),
        forest_ids(forest_attach(f, pid, c)) == forest_ids(f).add(tree_ids(c)),
{
    lemma_attach_linked(f, pid, c, from, None, 0);
    lemma_attach_ids(f, pid, c);
}

/// Moving a tree to a depth is the same whatever depth it was moved to
/// before.
pub proof fn lemma_relevel_tree_twice(t: DeviceTree, first: nat, level: nat)
    ensures
        tree_relevel(tree_relevel(t, first), level) == tree_relevel(t, level),
    decreases t,
{
    lemma_relevel_forest_twice(t.children, first + 1, level + 1);
}

/// Moving a forest to a depth is the same whatever depth it was moved to
/// before.
pub proof fn lemma_relevel_forest_twice(f: Seq<DeviceTree>, first: nat, level: nat)
    ensures
        forest_relevel(forest_relevel(f, first), level) == forest_relevel(f, level),
    decreases f,
{
    if f.len() == 0 {
        assert(forest_relevel(f, first) =~= f);
    } else {
        let once = forest_relevel(f, first);
        lemma_relevel_tree_twice(f[0], first, level);
        lemma_relevel_forest_twice(f.drop_first(), first, level);
        assert(once == seq![tree_relevel(f[0], first)] + forest_relevel(f.drop_first(), first));
        assert(once[0] == tree_relevel(f[0], first));
        assert(once.drop_first() =~= forest_relevel(f.drop_first(), first));
    }
}

/// Hanging a tree into a forest is the same whatever depth the tree was
/// moved to before.
pub proof fn lemma_attach_releveled(f: Seq<DeviceTree>, pid: Seq<char>, c: DeviceTree, first: nat)
    ensures
        forest_attach(f, pid, tree_relevel(c, first)) == forest_attach(f, pid, c),
    decreases f,
{
    if f.len() > 0 {
        lemma_relevel_tree_twice(c, first, f[0].level + 1);
        lemma_attach_releveled(f[0].children, pid, c, first);
        lemma_attach_releveled(f.drop_first(), pid, c, first);
    }
}

/// Kept roots and orphans weigh what the roots weigh.
pub proof fn lemma_split_size(f: Seq<DeviceTree>, id: Seq<char>)
    ensures
        forest_size(roots_kept(f, id)) + forest_size(roots_orphans(f, id)) == forest_size(f),
{
    lemma_split_ids(f, id);
    lemma_forest_size_ids(f);
    lemma_forest_size_ids(roots_kept(f, id));
    lemma_forest_size_ids(roots_orphans(f, id));
}

/// What a device without children holds once it has adopted its orphans:
/// the orphans are its children, and at depth 0 it is linked.
pub proof fn lemma_adopting(f: Seq<DeviceTree>, c: DeviceTree)
    requires
        forest_linked(f, None, 0),
        c.children.len() == 0,
    ensures
        tree_adopting(f, c).children == roots_orphans(f, c.id),
        tree_linked(tree_relevel(tree_adopting(f, c), 0), 0),
        tree_ids(tree_adopting(f, c)) == forest_ids(roots_orphans(f, c.id)).insert(c.id),
        tree_ids(tree_relevel(tree_adopting(f, c), 0)) == tree_ids(tree_adopting(f, c)),
        tree_size(tree_adopting(f, c)) == 1 + forest_size(roots_orphans(f, c.id)),
{
    let orphans = roots_orphans(f, c.id);
    let n = tree_adopting(f, c);
    let m = tree_relevel(n, 0);
    assert(n.children =~= orphans);
    lemma_split_linked(f, c.id, 0);
    lemma_relevel_forest_linked(orphans, Some(c.id), 0, 1);
    lemma_relevel_tree_ids(n, 0);
    assert(m.children == forest_relevel(orphans, 1));
    assert(tree_linked(m, 0));
    assert(tree_ids(n) == forest_ids(n.children).insert(n.id));
    assert(tree_size(n) == 1 + forest_size(n.children));
}

/// Putting a device with a fresh identity in its place leaves a
/// well-formed forest well formed.
pub proof fn lemma_place_sound(f: Seq<DeviceTree>, c: DeviceTree)
    requires
        forest_sound(f),
        c.children.len() == 0,
        forest_find(f, c.id) is None,
    ensures
        forest_sound(forest_place(f, c)),
        forest_ids(forest_place(f, c)) == forest_ids(f).insert(c.id),
{
    let kept = roots_kept(f, c.id);
    let orphans = roots_orphans(f, c.id);
    let n = tree_adopting(f, c);
    let m = tree_relevel(n, 0);
    lemma_split_ids(f, c.id);
    lemma_split_linked(f, c.id, 0);
    lemma_adopting(f, c);
    lemma_find_ids(f, c.id);
    assert(forest_ids(kept).add(tree_ids(m)) =~= forest_ids(f).insert(c.id));
    assert forall|id: Seq<char>| forest_ids(kept).count(id) <= 1 by {
        assert(forest_ids(f).count(id) == forest_ids(kept).count(id) + forest_ids(orphans).count(
            id,
        ));
    }
    assert forall|id: Seq<char>| forest_ids(kept).count(id) + tree_ids(m).count(id) <= 1 by {
        assert(forest_ids(f).count(id) == forest_ids(kept).count(id) + forest_ids(orphans).count(
            id,
        ));
    }
    let attached = c.parent is Some && forest_find(kept, c.parent->0) is Some;
    if attached {
        let p = c.parent->0;
        lemma_attach_releveled(kept, p, n, 0);
        lemma_attach_sound(kept, p, m, 0);
    } else {
        lemma_linked_single(m, None, 0);
        assert(kept.push(m) =~= kept + seq![m]);
        lemma_linked_concat(kept, seq![m], None, 0);
        lemma_ids_concat(kept, seq![m]);
        lemma_ids_single(m);
    }
}

/// The identities of a tree without children.
pub proof fn lemma_leaf_ids(c: DeviceTree)
    requires
        c.children.len() == 0,
    ensures
        tree_ids(c) == Multiset::singleton(c.id),
{
    assert(forest_ids(c.children) =~= Multiset::empty());
    assert(tree_ids(c) == forest_ids(c.children).insert(c.id));
    assert(tree_ids(c) =~= Multiset::singleton(c.id));
}

/// A well-formed topology stays well formed when a device arrives, and
/// it then holds the device.
pub proof fn lemma_insert_sound(f: Seq<DeviceTree>, c: DeviceTree)
    requires
        forest_sound(f),
        c.children.len() == 0,
    ensures
        forest_sound(forest_insert(f, c)),
        forest_ids(forest_insert(f, c)) == forest_ids(forest_remove(f, c.id)).insert(c.id),
        forest_find(forest_insert(f, c), c.id) is Some,
{
    let g = forest_remove(f, c.id);
    lemma_remove_sound(f, c.id);
    lemma_place_sound(g, c);
    lemma_find_ids(forest_insert(f, c), c.id);
}

/// Detaching a subtree does not make a forest larger.
pub proof fn lemma_remove_size(f: Seq<DeviceTree>, id: Seq<char>)
    ensures
        forest_size(forest_remove(f, id)) <= forest_size(f),
    decreases f,
{
    if f.len() > 0 {
        let rest = f.drop_first();
        let t = f[0];
        assert(forest_size(f) == tree_size(t) + forest_size(rest));
        assert(tree_size(t) == 1 + forest_size(t.children));
        if t.id == id {
        } else if forest_find(t.children, id) is Some {
            lemma_remove_size(t.children, id);
            let t2 = DeviceTree { children: forest_remove(t.children, id), ..t };
            assert(tree_size(t2) == 1 + forest_size(t2.children));
            lemma_size_concat(seq![t2], rest);
            lemma_size_single(t2);
        } else {
            lemma_remove_size(rest, id);
            lemma_size_concat(seq![t], forest_remove(rest, id));
            lemma_size_single(t);
        }
    }
}

/// The size of two forests laid end to end.
pub proof fn lemma_size_concat(a: Seq<DeviceTree>, b: Seq<DeviceTree>)
    ensures
        forest_size(a + b) == forest_size(a) + forest_size(b),
    decreases a.len(),
{
    if a.len() == 0 {
        assert(a + b =~= b);
    } else {
        lemma_size_concat(a.drop_first(), b);
        assert((a + b).drop_first() =~= a.drop_first() + b);
        assert((a + b)[0] == a[0]);
    }
}

/// The size of a forest of one tree.
pub proof fn lemma_size_single(t: DeviceTree)
    ensures
        forest_size(seq![t]) == tree_size(t),
{
    let f = seq![t];
    assert(f.drop_first() =~= Seq::<DeviceTree>::empty());
    assert(forest_size(f) == tree_size(f[0]) + forest_size(f.drop_first()));
}

/// Every root of a forest is found in it.
pub proof fn lemma_root_found(f: Seq<DeviceTree>, i: int)
    requires
        0 <= i < f.len(),
    ensures
        forest_find(f, f[i].id) is Some,
    decreases f.len(),
{
    if i > 0 && f[0].id != f[i].id && forest_find(f[0].children, f[i].id) is None {
        lemma_root_found(f.drop_first(), i - 1);
    }
}

/// The orphans of two forests laid end to end.
pub proof fn lemma_orphans_concat(a: Seq<DeviceTree>, b: Seq<DeviceTree>, id: Seq<char>)
    ensures
        roots_orphans(a + b, id) == roots_orphans(a, id) + roots_orphans(b, id),
    decreases a.len(),
{
    if a.len() == 0 {
        assert(a + b =~= b);
        assert(roots_orphans(a, id) + roots_orphans(b, id) =~= roots_orphans(b, id));
    } else {
        lemma_orphans_concat(a.drop_first(), b, id);
        assert((a + b).drop_first() =~= a.drop_first() + b);
        assert((a + b)[0] == a[0]);
        assert(roots_orphans(a + b, id) =~= roots_orphans(a, id) + roots_orphans(b, id));
    }
}

/// Every kept root is a root of the forest it was kept from.
pub proof fn lemma_kept_members(f: Seq<DeviceTree>, id: Seq<char>)
    ensures
        forall|i: int|
            0 <= i < roots_kept(f, id).len() ==> exists|j: int|
                0 <= j < f.len() && f[j] == #[trigger] roots_kept(f, id)[i],
    decreases f.len(),
{
    if f.len() > 0 {
        let rest = f.drop_first();
        lemma_kept_members(rest, id);
        assert forall|i: int| 0 <= i < roots_kept(f, id).len() implies exists|j: int|
            0 <= j < f.len() && f[j] == #[trigger] roots_kept(f, id)[i] by {
            if f[0].parent == Some(id) {
                let j = choose|j: int| 0 <= j < rest.len() && rest[j] == roots_kept(rest, id)[i];
                assert(f[j + 1] == roots_kept(f, id)[i]);
            } else if i == 0 {
                assert(f[0] == roots_kept(f, id)[i]);
            } else {
                let j = choose|j: int|
                    0 <= j < rest.len() && rest[j] == roots_kept(rest, id)[i - 1];
                assert(f[j + 1] == roots_kept(f, id)[i]);
            }
        }
    }
}

/// Removing a device removes everything below it: no identity of the
/// subtree is found in what stays, and none is the identity of a root.
pub proof fn lemma_remove_takes_subtree(f: Seq<DeviceTree>, id: Seq<char>)
    requires
        forest_sound(f),
        forest_find(f, id) is Some,
    ensures
        forest_ids(f) == forest_ids(forest_remove(f, id)).add(tree_ids(forest_find(f, id)->0)),
        forall|x: Seq<char>|
            tree_ids(forest_find(f, id)->0).count(x) > 0 ==> (#[trigger] forest_find(
                forest_remove(f, id),
                x,
            )) is None,
        forall|i: int|
            0 <= i < forest_remove(f, id).len() ==> tree_ids(forest_find(f, id)->0).count(
                (#[trigger] forest_remove(f, id)[i]).id,
            ) == 0,
{
    let g = forest_remove(f, id);
    let t = forest_find(f, id)->0;
    lemma_remove_ids(f, id);
    assert forall|x: Seq<char>| tree_ids(t).count(x) > 0 implies forest_find(g, x) is None by {
        assert(forest_ids(f).count(x) == forest_ids(g).count(x) + tree_ids(t).count(x));
        lemma_find_ids(g, x);
    }
    assert forall|i: int| 0 <= i < g.len() implies tree_ids(t).count((#[trigger] g[i]).id)
        == 0 by {
        lemma_root_found(g, i);
    }
}

/// One change of the topology.
pub enum TopologyChange {
    /// A device arrived.
    Arrival(DeviceTree),
    /// The device of this identity left.
    Removal(Seq<char>),
}

/// A change is valid when the device that arrives brings no children.
pub open spec fn change_valid(change: TopologyChange) -> bool {
    match change {
        TopologyChange::Arrival(c) => c.children.len() == 0,
        TopologyChange::Removal(_) => true,
    }
}

/// The forest after one change.
pub open spec fn forest_apply(f: Seq<DeviceTree>, change: TopologyChange) -> Seq<DeviceTree> {
    match change {
        TopologyChange::Arrival(c) => forest_insert(f, c),
        TopologyChange::Removal(id) => forest_remove(f, id),
    }
}

/// The forest after a sequence of changes, the first applied first.
pub open spec fn forest_apply_all(f: Seq<DeviceTree>, changes: Seq<TopologyChange>) -> Seq<
    DeviceTree,
>
    decreases changes.len(),
{
    if changes.len() == 0 {
        f
    } else {
        forest_apply(forest_apply_all(f, changes.drop_last()), changes.last())
    }
}

/// Whatever valid arrivals and removals follow one another, a well-formed
/// topology stays well formed: its roots lie at depth 0, every other
/// device lies one level below its parent, and no device occurs twice.
pub proof fn lemma_changes_keep_wf(f: Seq<DeviceTree>, changes: Seq<TopologyChange>)
    requires
        forest_wf(f),
        forall|i: int| 0 <= i < changes.len() ==> change_valid(#[trigger] changes[i]),
    ensures
        forest_wf(forest_apply_all(f, changes)),
    decreases changes.len(),
{
    if changes.len() > 0 {
        lemma_changes_keep_wf(f, changes.drop_last());
        let g = forest_apply_all(f, changes.drop_last());
        assert(change_valid(changes[changes.len() - 1]));
        match changes.last() {
            TopologyChange::Arrival(c) => {
                lemma_insert_wf(g, c);
            },
            TopologyChange::Removal(id) => {
                lemma_remove_wf(g, id);
            },
        }
    }
}

/// A tree has as many nodes as identities.
pub proof fn lemma_tree_size_ids(t: DeviceTree)
    ensures
        tree_size(t) == tree_ids(t).len(),
    decreases t,
{
    lemma_forest_size_ids(t.children);
    assert(tree_ids(t) =~= forest_ids(t.children).add(Multiset::singleton(t.id)));
}

/// A forest has as many nodes as identities.
pub proof fn lemma_forest_size_ids(f: Seq<DeviceTree>)
    ensures
        forest_size(f) == forest_ids(f).len(),
    decreases f,
{
    if f.len() > 0 {
        lemma_tree_size_ids(f[0]);
        lemma_forest_size_ids(f.drop_first());
    }
}

/// An arrival makes the topology larger by one device at most.
pub proof fn lemma_insert_size(f: Seq<DeviceTree>, c: DeviceTree)
    requires
        forest_sound(f),
        c.children.len() == 0,
    ensures
        forest_size(forest_insert(f, c)) <= forest_size(f) + 1,
{
    lemma_insert_sound(f, c);
    lemma_remove_size(f, c.id);
    lemma_forest_size_ids(forest_insert(f, c));
    lemma_forest_size_ids(forest_remove(f, c.id));
    assert(forest_ids(forest_remove(f, c.id)).insert(c.id) =~= forest_ids(
        forest_remove(f, c.id),
    ).add(Multiset::singleton(c.id)));
}

/// Taking the last tree of a forest and laying its children in its place
/// leaves one node less.
pub proof fn lemma_walk_step(f: Seq<DeviceTree>)
    requires
        f.len() > 0,
    ensures
        forest_size(f.drop_last() + f.last().children) + 1 == forest_size(f),
{
    lemma_size_concat(f.drop_last(), f.last().children);
    lemma_size_concat(f.drop_last(), seq![f.last()]);
    lemma_size_single(f.last());
    assert(f.drop_last() + seq![f.last()] =~= f);
    assert(tree_size(f.last()) == 1 + forest_size(f.last().children));
}

/// The order in which a walk hands out the devices of the trees that
/// wait on its stack: the last tree's root, then in the same way what is
/// left once that tree's children have taken its place.
pub open spec fn walk_order(stack: Seq<DeviceTree>) -> Seq<DeviceTree>
    decreases forest_size(stack),
{
    if stack.len() == 0 {
        Seq::empty()
    } else {
        proof {
            lemma_walk_step(stack);
        }
        seq![stack.last()] + walk_order(stack.drop_last() + stack.last().children)
    }
}

/// The identities of the roots of `f`, each as often as it occurs.
pub open spec fn root_ids(f: Seq<DeviceTree>) -> Multiset<Seq<char>>
    decreases f.len(),
{
    if f.len() == 0 {
        Multiset::empty()
    } else {
        root_ids(f.drop_first()).insert(f[0].id)
    }
}

/// The identities of a forest whose last tree is set apart.
pub proof fn lemma_ids_last(f: Seq<DeviceTree>)
    requires
        f.len() > 0,
    ensures
        forest_ids(f) == forest_ids(f.drop_last()).add(tree_ids(f.last())),
{
    assert(f =~= f.drop_last() + seq![f.last()]);
    lemma_ids_concat(f.drop_last(), seq![f.last()]);
    lemma_ids_single(f.last());
}

/// A walk hands out every device of the topology, and each as often as
/// the topology holds it: once where the topology is well formed.
pub proof fn lemma_walk_visits_all(stack: Seq<DeviceTree>)
    ensures
        root_ids(walk_order(stack)) == forest_ids(stack),
        walk_order(stack).len() == forest_size(stack),
    decreases forest_size(stack),
{
    if stack.len() == 0 {
        assert(forest_ids(stack) =~= Multiset::empty());
        assert(root_ids(walk_order(stack)) =~= Multiset::empty());
    } else {
        let next = stack.drop_last() + stack.last().children;
        lemma_walk_step(stack);
        lemma_walk_visits_all(next);
        lemma_ids_last(stack);
        lemma_ids_concat(stack.drop_last(), stack.last().children);
        let order = walk_order(stack);
        assert(order == seq![stack.last()] + walk_order(next));
        assert(order.drop_first() =~= walk_order(next));
        assert(tree_ids(stack.last()) == forest_ids(stack.last().children).insert(
            stack.last().id,
        ));
        assert(root_ids(order) =~= forest_ids(stack));
    }
}

/// A forest and what is left of it once a root was taken out.
pub proof fn lemma_take_root(f: Seq<DeviceTree>, k: int, parent: Option<Seq<char>>, level: nat)
    requires
        0 <= k < f.len(),
    ensures
        forest_size(f.remove(k)) + tree_size(f[k]) == forest_size(f),
        forest_ids(f) == forest_ids(f.remove(k)).add(tree_ids(f[k])),
        forest_linked(f, parent, level) ==> forest_linked(f.remove(k), parent, level)
            && tree_linked(f[k], level),
{
    let a = f.take(k);
    let b = f.skip(k + 1);
    assert(f =~= a + (seq![f[k]] + b));
    assert(f.remove(k) =~= a + b);
    lemma_size_concat(a, seq![f[k]] + b);
    lemma_size_concat(seq![f[k]], b);
    lemma_size_single(f[k]);
    lemma_size_concat(a, b);
    lemma_ids_concat(a, seq![f[k]] + b);
    lemma_ids_concat(seq![f[k]], b);
    lemma_ids_single(f[k]);
    lemma_ids_concat(a, b);
    assert(forest_ids(f) =~= forest_ids(f.remove(k)).add(tree_ids(f[k])));
    lemma_linked_concat(a, seq![f[k]] + b, parent, level);
    lemma_linked_concat(seq![f[k]], b, parent, level);
    lemma_linked_single(f[k], parent, level);
    lemma_linked_concat(a, b, parent, level);
}

/// The identities of a tree of a forest are among those of the forest.
pub proof fn lemma_tree_in_forest(f: Seq<DeviceTree>, k: int, x: Seq<char>)
    requires
        0 <= k < f.len(),
    ensures
        tree_ids(f[k]).count(x) <= forest_ids(f).count(x),
{
    lemma_take_root(f, k, None, 0);
}

/// In a forest where no identity occurs twice, two roots differ in their
/// identities.
pub proof fn lemma_roots_differ(f: Seq<DeviceTree>, i: int, j: int)
    requires
        forest_unique(f),
        0 <= i < f.len(),
        0 <= j < f.len(),
        i != j,
    ensures
        f[i].id != f[j].id,
{
    if f[i].id == f[j].id {
        let x = f[i].id;
        lemma_take_root(f, i, None, 0);
        let rest = f.remove(i);
        let j2 = if j < i {
            j
        } else {
            j - 1
        };
        assert(rest[j2] == f[j]);
        lemma_tree_in_forest(rest, j2, x);
        assert(tree_ids(f[i]) == forest_ids(f[i].children).insert(f[i].id));
        assert(tree_ids(f[j]) == forest_ids(f[j].children).insert(f[j].id));
        assert(forest_ids(f).count(x) >= 2);
    }
}

/// Hanging a tree into a forest leaves the roots where they are, each
/// with its identity and the parent it declares, and takes no identity
/// out of any tree.
pub proof fn lemma_attach_roots(f: Seq<DeviceTree>, pid: Seq<char>, c: DeviceTree)
    ensures
        forest_attach(f, pid, c).len() == f.len(),
        forall|i: int|
            0 <= i < f.len() ==> (#[trigger] forest_attach(f, pid, c)[i]).id == f[i].id
                && forest_attach(f, pid, c)[i].parent == f[i].parent,
        forall|i: int, x: Seq<char>|
            0 <= i < f.len() ==> #[trigger] tree_ids(forest_attach(f, pid, c)[i]).count(x)
                >= tree_ids(f[i]).count(x),
    decreases f,
{
    if f.len() > 0 {
        let rest = f.drop_first();
        let t = f[0];
        let g = forest_attach(f, pid, c);
        assert(tree_ids(t) == forest_ids(t.children).insert(t.id));
        if t.id == pid {
            let hung = tree_relevel(c, t.level + 1);
            let t2 = DeviceTree { children: t.children.push(hung), ..t };
            assert(g == seq![t2] + rest);
            assert(t.children.push(hung) =~= t.children + seq![hung]);
            lemma_ids_concat(t.children, seq![hung]);
            assert(tree_ids(t2) == forest_ids(t2.children).insert(t2.id));
            assert forall|i: int, x: Seq<char>| 0 <= i < f.len() implies #[trigger] tree_ids(
                g[i],
            ).count(x) >= tree_ids(f[i]).count(x) by {
                if i > 0 {
                    assert(g[i] == rest[i - 1]);
                }
            }
            assert forall|i: int| 0 <= i < f.len() implies (#[trigger] g[i]).id == f[i].id
                && g[i].parent == f[i].parent by {
                if i > 0 {
                    assert(g[i] == rest[i - 1]);
                }
            }
        } else if forest_find(t.children, pid) is Some {
            let t2 = DeviceTree { children: forest_attach(t.children, pid, c), ..t };
            assert(g == seq![t2] + rest);
            lemma_attach_ids(t.children, pid, c);
            assert(tree_ids(t2) == forest_ids(t2.children).insert(t2.id));
            assert forall|i: int, x: Seq<char>| 0 <= i < f.len() implies #[trigger] tree_ids(
                g[i],
            ).count(x) >= tree_ids(f[i]).count(x) by {
                if i > 0 {
                    assert(g[i] == rest[i - 1]);
                }
            }
            assert forall|i: int| 0 <= i < f.len() implies (#[trigger] g[i]).id == f[i].id
                && g[i].parent == f[i].parent by {
                if i > 0 {
                    assert(g[i] == rest[i - 1]);
                }
            }
        } else {
            lemma_attach_roots(rest, pid, c);
            let tail = forest_attach(rest, pid, c);
            assert(g == seq![t] + tail);
            assert forall|i: int, x: Seq<char>| 0 <= i < f.len() implies #[trigger] tree_ids(
                g[i],
            ).count(x) >= tree_ids(f[i]).count(x) by {
                if i > 0 {
                    assert(g[i] == tail[i - 1]);
                    assert(tree_ids(tail[i - 1]).count(x) >= tree_ids(rest[i - 1]).count(x));
                }
            }
            assert forall|i: int| 0 <= i < f.len() implies (#[trigger] g[i]).id == f[i].id
                && g[i].parent == f[i].parent by {
                if i > 0 {
                    assert(g[i] == tail[i - 1]);
                    assert(tail[i - 1].id == rest[i - 1].id);
                }
            }
        }
    }
}

/// Detaching a subtree takes identities away and brings none.
pub proof fn lemma_remove_counts(f: Seq<DeviceTree>, id: Seq<char>, x: Seq<char>)
    ensures
        forest_ids(forest_remove(f, id)).count(x) <= forest_ids(f).count(x),
{
    if forest_find(f, id) is Some {
        lemma_remove_ids(f, id);
    } else {
        lemma_remove_absent(f, id);
    }
}

/// Where the root at `k` of the forest without the node `id` stood among
/// the roots before the node was detached.
pub open spec fn remove_origin(f: Seq<DeviceTree>, id: Seq<char>, k: int) -> int
    decreases f.len(),
{
    if f.len() == 0 {
        k
    } else if f[0].id == id {
        k + 1
    } else if forest_find(f[0].children, id) is Some {
        k
    } else if k == 0 {
        0
    } else {
        1 + remove_origin(f.drop_first(), id, k - 1)
    }
}

/// A root that stays when a node is detached is the root that it was,
/// with its identity and the parent it declares, and nothing comes to
/// stand beside it that did not stand there before.
pub proof fn lemma_remove_origin(f: Seq<DeviceTree>, id: Seq<char>, k: int, x: Seq<char>)
    requires
        0 <= k < forest_remove(f, id).len(),
    ensures
        0 <= remove_origin(f, id, k) < f.len(),
        forest_remove(f, id)[k].id == f[remove_origin(f, id, k)].id,
        forest_remove(f, id)[k].parent == f[remove_origin(f, id, k)].parent,
        forest_ids(forest_remove(f, id)).count(x) - tree_ids(forest_remove(f, id)[k]).count(x)
            <= forest_ids(f).count(x) - tree_ids(f[remove_origin(f, id, k)]).count(x),
    decreases f.len(),
{
    let g = forest_remove(f, id);
    let t = f[0];
    let rest = f.drop_first();
    assert(forest_ids(f) == tree_ids(t).add(forest_ids(rest)));
    assert(tree_ids(t) == forest_ids(t.children).insert(t.id));
    if t.id == id {
        assert(g[k] == f[k + 1]);
    } else if forest_find(t.children, id) is Some {
        let t2 = DeviceTree { children: forest_remove(t.children, id), ..t };
        assert(g == seq![t2] + rest);
        lemma_ids_concat(seq![t2], rest);
        lemma_ids_single(t2);
        assert(tree_ids(t2) == forest_ids(t2.children).insert(t2.id));
        lemma_remove_counts(t.children, id, x);
        if k > 0 {
            assert(g[k] == rest[k - 1]);
            assert(rest[k - 1] == f[k]);
        }
    } else {
        let tail = forest_remove(rest, id);
        assert(g == seq![t] + tail);
        lemma_ids_concat(seq![t], tail);
        lemma_ids_single(t);
        lemma_remove_counts(rest, id, x);
        if k > 0 {
            assert(g[k] == tail[k - 1]);
            lemma_remove_origin(rest, id, k - 1, x);
            assert(rest[remove_origin(rest, id, k - 1)] == f[1 + remove_origin(rest, id, k - 1)]);
        }
    }
}

/// Detaching a subtree leaves no root waiting for a parent that stands
/// elsewhere, where none waited before.
pub proof fn lemma_remove_settled(f: Seq<DeviceTree>, id: Seq<char>)
    requires
        forest_settled(f),
    ensures
        forest_settled(forest_remove(f, id)),
{
    let g = forest_remove(f, id);
    assert forall|k: int| 0 <= k < g.len() implies #[trigger] root_settled(g, k) by {
        if g[k].parent is Some {
            let q = g[k].parent->0;
            let j = remove_origin(f, id, k);
            lemma_remove_origin(f, id, k, q);
            assert(root_settled(f, j));
            lemma_tree_in_forest(g, k, q);
        }
    }
}

/// Detaching a subtree leaves a well-formed topology well formed, and
/// the identity detached is gone from it.
pub proof fn lemma_remove_wf(f: Seq<DeviceTree>, id: Seq<char>)
    requires
        forest_wf(f),
    ensures
        forest_wf(forest_remove(f, id)),
        forest_find(forest_remove(f, id), id) is None,
        forall|other: Seq<char>|
            forest_ids(forest_remove(f, id)).count(other) <= forest_ids(f).count(other),
{
    lemma_remove_sound(f, id);
    lemma_remove_settled(f, id);
}

/// No kept root declares the identity that the orphans wait for.
pub proof fn lemma_kept_parents(f: Seq<DeviceTree>, id: Seq<char>)
    ensures
        forall|i: int|
            0 <= i < roots_kept(f, id).len() ==> (#[trigger] roots_kept(f, id)[i]).parent != Some(
                id,
            ),
    decreases f.len(),
{
    if f.len() > 0 {
        let rest = f.drop_first();
        lemma_kept_parents(rest, id);
        if f[0].parent != Some(id) {
            assert forall|i: int| 0 <= i < roots_kept(f, id).len() implies (
            #[trigger] roots_kept(f, id)[i]).parent != Some(id) by {
                if i > 0 {
                    assert(roots_kept(f, id)[i] == roots_kept(rest, id)[i - 1]);
                }
            }
        }
    }
}

/// Putting a device with a fresh identity in its place leaves no root
/// waiting for a parent that stands elsewhere, where none waited before.
pub proof fn lemma_place_settled(f: Seq<DeviceTree>, c: DeviceTree)
    requires
        forest_wf(f),
        c.children.len() == 0,
        forest_find(f, c.id) is None,
    ensures
        forest_settled(forest_place(f, c)),
{
    let kept = roots_kept(f, c.id);
    let orphans = roots_orphans(f, c.id);
    let n = tree_adopting(f, c);
    let m = tree_relevel(n, 0);
    let h = forest_place(f, c);
    lemma_split_ids(f, c.id);
    lemma_adopting(f, c);
    lemma_kept_members(f, c.id);
    lemma_kept_parents(f, c.id);
    assert forall|i: int| 0 <= i < kept.len() && (#[trigger] kept[i]).parent is Some implies ({
        &&& forest_ids(kept).count(kept[i].parent->0) == tree_ids(kept[i]).count(
            kept[i].parent->0,
        )
        &&& tree_ids(n).count(kept[i].parent->0) == 0
    }) by {
        let q = kept[i].parent->0;
        let j = choose|j: int| 0 <= j < f.len() && f[j] == roots_kept(f, c.id)[i];
        assert(root_settled(f, j));
        assert(forest_ids(f).count(q) == forest_ids(kept).count(q) + forest_ids(orphans).count(q));
        lemma_tree_in_forest(kept, i, q);
    }
    let attached = c.parent is Some && forest_find(kept, c.parent->0) is Some;
    if attached {
        let p = c.parent->0;
        lemma_attach_roots(kept, p, n);
        lemma_attach_ids(kept, p, n);
        assert forall|k: int| 0 <= k < h.len() implies #[trigger] root_settled(h, k) by {
            if h[k].parent is Some {
                let q = h[k].parent->0;
                assert(kept[k].parent == Some(q));
                assert(tree_ids(h[k]).count(q) >= tree_ids(kept[k]).count(q));
                lemma_tree_in_forest(h, k, q);
            }
        }
    } else {
        assert(h == kept.push(m));
        assert(kept.push(m) =~= kept + seq![m]);
        lemma_ids_concat(kept, seq![m]);
        lemma_ids_single(m);
        assert forall|k: int| 0 <= k < h.len() implies #[trigger] root_settled(h, k) by {
            if h[k].parent is Some {
                let q = h[k].parent->0;
                if k < kept.len() {
                    assert(h[k] == kept[k]);
                } else {
                    assert(h[k] == m);
                    lemma_find_ids(kept, q);
                }
            }
        }
    }
}

/// A well-formed topology stays well formed when a device arrives, and
/// it then holds the device.
pub proof fn lemma_insert_wf(f: Seq<DeviceTree>, c: DeviceTree)
    requires
        forest_wf(f),
        c.children.len() == 0,
    ensures
        forest_wf(forest_insert(f, c)),
        forest_ids(forest_insert(f, c)) == forest_ids(forest_remove(f, c.id)).insert(c.id),
        forest_find(forest_insert(f, c), c.id) is Some,
{
    lemma_remove_wf(f, c.id);
    lemma_insert_sound(f, c);
    lemma_place_settled(forest_remove(f, c.id), c);
}

/// A node is found in two forests laid end to end where it is found in
/// the first, else where it is found in the second.
pub proof fn lemma_find_concat(a: Seq<DeviceTree>, b: Seq<DeviceTree>, id: Seq<char>)
    ensures
        forest_find(a + b, id) == (match forest_find(a, id) {
            Some(t) => Some(t),
            None => forest_find(b, id),
        }),
    decreases a.len(),
{
    if a.len() == 0 {
        assert(a + b =~= b);
    } else {
        lemma_find_concat(a.drop_first(), b, id);
        assert((a + b).drop_first() =~= a.drop_first() + b);
        assert((a + b)[0] == a[0]);
    }
}

/// A tree with a fresh identity that was hung into a forest is found
/// there, one level below the node that it was hung under.
pub proof fn lemma_attach_finds(f: Seq<DeviceTree>, pid: Seq<char>, c: DeviceTree)
    requires
        forest_find(f, pid) is Some,
        forest_find(f, c.id) is None,
    ensures
        forest_find(forest_attach(f, pid, c), c.id) == Some(
            tree_relevel(c, forest_find(f, pid)->0.level + 1),
        ),
    decreases f,
{
    let t = f[0];
    let rest = f.drop_first();
    if t.id == pid {
        let hung = tree_relevel(c, t.level + 1);
        let t2 = DeviceTree { children: t.children.push(hung), ..t };
        let g = seq![t2] + rest;
        assert(g[0] == t2);
        assert(t.children.push(hung) =~= t.children + seq![hung]);
        lemma_find_concat(t.children, seq![hung], c.id);
        assert(seq![hung][0] == hung);
        assert(forest_find(seq![hung], c.id) == Some(hung));
    } else if forest_find(t.children, pid) is Some {
        lemma_attach_finds(t.children, pid, c);
        let t2 = DeviceTree { children: forest_attach(t.children, pid, c), ..t };
        let g = seq![t2] + rest;
        assert(g[0] == t2);
    } else {
        lemma_attach_finds(rest, pid, c);
        let g = seq![t] + forest_attach(rest, pid, c);
        assert(g[0] == t);
        assert(g.drop_first() =~= forest_attach(rest, pid, c));
    }
}

/// A device whose identity the topology does not hold arrives: the
/// topology then holds what it held and the device, and nothing else.
pub proof fn lemma_insert_fresh(f: Seq<DeviceTree>, c: DeviceTree)
    requires
        forest_wf(f),
        c.children.len() == 0,
        forest_find(f, c.id) is None,
    ensures
        forest_ids(forest_insert(f, c)) == forest_ids(f).insert(c.id),
        forest_size(forest_insert(f, c)) == forest_size(f) + 1,
{
    lemma_insert_wf(f, c);
    lemma_remove_absent(f, c.id);
    lemma_forest_size_ids(f);
    lemma_forest_size_ids(forest_insert(f, c));
    assert(forest_ids(f).insert(c.id) =~= forest_ids(f).add(Multiset::singleton(c.id)));
}

/// A device that arrives before the parent that it declares waits as
/// the last root, at depth 0 and with the parent that it declares kept,
/// and the roots that waited for it stand below it.
pub proof fn lemma_orphan_waits(f: Seq<DeviceTree>, c: DeviceTree)
    requires
        forest_wf(f),
        c.children.len() == 0,
        c.parent is Some ==> forest_find(f, c.parent->0) is None,
    ensures
        forest_insert(f, c) == forest_adopt(forest_remove(f, c.id), c),
        forest_insert(f, c).len() > 0,
        forest_insert(f, c).last().id == c.id,
        forest_insert(f, c).last().parent == c.parent,
        forest_insert(f, c).last().level == 0,
        forest_insert(f, c).last().children == forest_relevel(
            roots_orphans(forest_remove(f, c.id), c.id),
            1,
        ),
{
    let g = forest_remove(f, c.id);
    let kept = roots_kept(g, c.id);
    lemma_remove_wf(f, c.id);
    lemma_adopting(g, c);
    if c.parent is Some {
        let p = c.parent->0;
        lemma_split_ids(g, c.id);
        lemma_find_ids(f, p);
        lemma_find_ids(g, p);
        lemma_find_ids(kept, p);
        assert(forest_ids(g).count(p) == forest_ids(kept).count(p) + forest_ids(
            roots_orphans(g, c.id),
        ).count(p));
    }
}

/// A device that arrived before the parent that it declares is moved
/// below that parent when the parent arrives, wherever the parent finds
/// its place: it then stands one level below the parent with everything
/// that stood below it, and it is no root any more.
pub proof fn lemma_orphan_adopted(f: Seq<DeviceTree>, c: DeviceTree, p: DeviceTree)
    requires
        forest_wf(f),
        c.children.len() == 0,
        p.children.len() == 0,
        c.parent == Some(p.id),
        c.id != p.id,
        forest_find(f, p.id) is None,
    ensures
        ({
            let waiting = forest_insert(f, c);
            let h = forest_insert(waiting, p);
            &&& forest_wf(h)
            &&& waiting.len() > 0 && waiting.last().id == c.id
            &&& forest_find(h, p.id) is Some
            &&& forest_find(h, p.id)->0.children.len() > 0
            &&& forest_find(h, p.id)->0.children.last() == tree_relevel(
                waiting.last(),
                forest_find(h, p.id)->0.level + 1,
            )
            &&& forest_find(h, p.id)->0.children.last().id == c.id
            &&& forest_find(h, p.id)->0.children.last().parent == Some(p.id)
            &&& forest_find(h, p.id)->0.children.last().level == forest_find(h, p.id)->0.level + 1
            &&& forall|i: int| 0 <= i < h.len() ==> (#[trigger] h[i]).id != c.id
        }),
{
    let g1 = forest_insert(f, c);
    let h = forest_insert(g1, p);
    lemma_orphan_waits(f, c);
    lemma_insert_wf(f, c);
    lemma_remove_wf(f, c.id);
    lemma_find_ids(f, p.id);
    lemma_find_ids(forest_remove(f, c.id), p.id);
    lemma_find_ids(g1, p.id);
    assert(forest_find(g1, p.id) is None);
    lemma_remove_absent(g1, p.id);
    lemma_insert_wf(g1, p);
    let waiting = g1.last();
    let kept = roots_kept(g1, p.id);
    let orphans = roots_orphans(g1, p.id);
    let n = tree_adopting(g1, p);
    lemma_adopting(g1, p);
    lemma_split_ids(g1, p.id);
    lemma_find_ids(kept, p.id);
    assert(forest_ids(g1).count(p.id) == forest_ids(kept).count(p.id) + forest_ids(orphans).count(
        p.id,
    ));
    assert(forest_find(kept, p.id) is None);
    // the device that waits is the last of the orphans
    let front = g1.drop_last();
    assert(g1 =~= front + seq![waiting]);
    lemma_orphans_concat(front, seq![waiting], p.id);
    let one = seq![waiting];
    assert(one.drop_first() =~= Seq::<DeviceTree>::empty());
    assert(roots_orphans(one.drop_first(), p.id) =~= Seq::<DeviceTree>::empty());
    assert(roots_orphans(one, p.id) =~= one);
    assert(orphans.last() == waiting);
    // no root that is kept bears the identity of the device that waits
    lemma_kept_members(g1, p.id);
    lemma_kept_parents(g1, p.id);
    assert forall|i: int| 0 <= i < kept.len() implies (#[trigger] kept[i]).id != c.id by {
        let j = choose|j: int| 0 <= j < g1.len() && g1[j] == roots_kept(g1, p.id)[i];
        if j != g1.len() - 1 {
            lemma_roots_differ(g1, j, g1.len() - 1);
        }
    }
    let attached = p.parent is Some && forest_find(kept, p.parent->0) is Some;
    if attached {
        let pp = p.parent->0;
        let level = forest_find(kept, pp)->0.level + 1;
        assert(h == forest_attach(kept, pp, n));
        lemma_attach_finds(kept, pp, n);
        lemma_attach_roots(kept, pp, n);
        let node = tree_relevel(n, level);
        lemma_forest_relevel(orphans, level + 1);
        assert(node.children == forest_relevel(orphans, level + 1));
        assert(node.children.last() == tree_relevel(waiting, level + 1));
        assert forall|i: int| 0 <= i < h.len() implies (#[trigger] h[i]).id != c.id by {
            assert(h[i].id == kept[i].id);
        }
    } else {
        let m = tree_relevel(n, 0);
        assert(h == kept.push(m));
        assert(kept.push(m) =~= kept + seq![m]);
        lemma_find_concat(kept, seq![m], p.id);
        assert(seq![m][0] == m);
        assert(forest_find(seq![m], p.id) == Some(m));
        lemma_forest_relevel(orphans, 1);
        assert(m.children == forest_relevel(orphans, 1));
        assert(m.children.last() == tree_relevel(waiting, 1));
        assert forall|i: int| 0 <= i < h.len() implies (#[trigger] h[i]).id != c.id by {
            if i < kept.len() {
                assert(h[i] == kept[i]);
            }
        }
    }
}

} // verus!
