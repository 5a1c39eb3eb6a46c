//! How a topology is built: forests are merged device by device, and a
//! flat list of devices is made a forest by settling each device below the
//! parent that it declares.

use crate::device::{
    forest_relevel, forest_size, is_hub, lemma_forest_relevel, tree_relevel, tree_size, DeviceTree,
};
use crate::error::Win32Error;
use crate::forest::{
    forest_attach, forest_find, forest_ids, forest_insert, forest_linked, forest_unique, forest_wf,
    id_settled, lemma_attach_ids, lemma_attach_linked, lemma_attach_roots, lemma_find_concat,
    lemma_find_ids, lemma_forest_size_ids, lemma_insert_fresh, lemma_insert_size, lemma_insert_wf,
    lemma_leaf_ids, lemma_linked_concat, lemma_linked_single, lemma_relevel_forest_ids,
    lemma_root_found, lemma_roots_differ, lemma_size_concat, lemma_size_single, lemma_take_root,
    lemma_tree_in_forest, root_ids, root_settled, tree_ids, tree_linked,
};
use vstd::multiset::Multiset;
use vstd::prelude::*;

verus! {

/// The node `t` alone, without what stands below it.
pub open spec fn tree_leaf(t: DeviceTree) -> DeviceTree {
    DeviceTree { children: Seq::empty(), ..t }
}

/// The nodes of a tree, each alone, in the order in which a merge takes
/// them up read from the end: a node comes behind everything below it.
pub open spec fn tree_flatten(t: DeviceTree) -> Seq<DeviceTree>
    decreases t,
{
    forest_flatten(t.children).push(tree_leaf(t))
}

/// The nodes of a forest, each alone: tree after tree, a node behind
/// everything below it.
pub open spec fn forest_flatten(f: Seq<DeviceTree>) -> Seq<DeviceTree>
    decreases f,
{
    if f.len() == 0 {
        Seq::empty()
    } else {
        tree_flatten(f[0]) + forest_flatten(f.drop_first())
    }
}

/// The forest after the devices of `items` arrived one by one, the last
/// of `items` first.
pub open spec fn forest_insert_all(f: Seq<DeviceTree>, items: Seq<DeviceTree>) -> Seq<DeviceTree>
    decreases items.len(),
{
    if items.len() == 0 {
        f
    } else {
        forest_insert_all(forest_insert(f, items.last()), items.drop_last())
    }
}

/// The forest `base` after every device of `incoming` arrived in it, each
/// alone and each before the devices below it.
pub open spec fn forest_merge(base: Seq<DeviceTree>, incoming: Seq<DeviceTree>) -> Seq<DeviceTree> {
    forest_insert_all(base, forest_flatten(incoming))
}

/// A flattened tree has as many nodes as the tree, and none has children.
pub proof fn lemma_tree_flatten(t: DeviceTree)
    ensures
        tree_flatten(t).len() == tree_size(t),
        forall|i: int|
            0 <= i < tree_flatten(t).len() ==> (#[trigger] tree_flatten(t)[i]).children.len() == 0,
    decreases t,
{
    lemma_forest_flatten(t.children);
}

/// A flattened forest has as many nodes as the forest, and none has
/// children.
pub proof fn lemma_forest_flatten(f: Seq<DeviceTree>)
    ensures
        forest_flatten(f).len() == forest_size(f),
        forall|i: int|
            0 <= i < forest_flatten(f).len() ==> (#[trigger] forest_flatten(f)[i]).children.len()
                == 0,
    decreases f,
{
    if f.len() > 0 {
        lemma_tree_flatten(f[0]);
        lemma_forest_flatten(f.drop_first());
    }
}

/// Arrivals one by one keep a well-formed topology well formed, and make
/// it larger by one device each at most.
pub proof fn lemma_insert_all_wf(f: Seq<DeviceTree>, items: Seq<DeviceTree>)
    requires
        forest_wf(f),
        forall|i: int| 0 <= i < items.len() ==> (#[trigger] items[i]).children.len() == 0,
    ensures
        forest_wf(forest_insert_all(f, items)),
        forest_size(forest_insert_all(f, items)) <= forest_size(f) + items.len(),
    decreases items.len(),
{
    if items.len() > 0 {
        lemma_insert_wf(f, items.last());
        lemma_insert_size(f, items.last());
        lemma_insert_all_wf(forest_insert(f, items.last()), items.drop_last());
    }
}

/// Merging keeps a well-formed topology well formed.
pub proof fn lemma_merge_wf(base: Seq<DeviceTree>, incoming: Seq<DeviceTree>)
    requires
        forest_wf(base),
    ensures
        forest_wf(forest_merge(base, incoming)),
        forest_size(forest_merge(base, incoming)) <= forest_size(base) + forest_size(incoming),
{
    lemma_forest_flatten(incoming);
    lemma_insert_all_wf(base, forest_flatten(incoming));
}

/// The identities of the roots of a forest, in order.
pub open spec fn root_id_list(f: Seq<DeviceTree>) -> Seq<Seq<char>> {
    Seq::new(f.len(), |i: int| f[i].id)
}

/// Where the first root with identity `id` stands among the roots.
pub open spec fn root_index(f: Seq<DeviceTree>, id: Seq<char>) -> Option<int>
    decreases f.len(),
{
    if f.len() == 0 {
        None
    } else if f[0].id == id {
        Some(0)
    } else {
        match root_index(f.drop_first(), id) {
            Some(k) => Some(k + 1),
            None => None,
        }
    }
}

/// The forest `f` after the root `id` was moved below the parent that it
/// declares, where the rest of the forest holds that parent; else `f`.
pub open spec fn forest_settle(f: Seq<DeviceTree>, id: Seq<char>) -> Seq<DeviceTree> {
    match root_index(f, id) {
        None => f,
        Some(k) => match f[k].parent {
            None => f,
            Some(p) => if forest_find(f.remove(k), p) is Some {
                forest_attach(f.remove(k), p, f[k])
            } else {
                f
            },
        },
    }
}

/// The forest `f` after the roots named by `ids` were settled one by one.
pub open spec fn forest_settle_all(f: Seq<DeviceTree>, ids: Seq<Seq<char>>) -> Seq<DeviceTree>
    decreases ids.len(),
{
    if ids.len() == 0 {
        f
    } else {
        forest_settle_all(forest_settle(f, ids[0]), ids.drop_first())
    }
}

/// The forest that a flat list of devices makes: every device starts as a
/// root, and one after the other each is moved below the parent that it
/// declares, with what has gathered below it, where that parent is there.
pub open spec fn forest_built(flat: Seq<DeviceTree>) -> Seq<DeviceTree> {
    forest_settle_all(forest_relevel(flat, 0), root_id_list(flat))
}

/// Every device of the list is without children.
pub open spec fn all_leaves(flat: Seq<DeviceTree>) -> bool {
    forall|i: int| 0 <= i < flat.len() ==> (#[trigger] flat[i]).children.len() == 0
}

/// The index that `root_index` gives is that of a root with the identity.
pub proof fn lemma_root_index(f: Seq<DeviceTree>, id: Seq<char>)
    ensures
        match root_index(f, id) {
            Some(k) => 0 <= k < f.len() && f[k].id == id,
            None => forall|i: int| 0 <= i < f.len() ==> (#[trigger] f[i]).id != id,
        },
    decreases f.len(),
{
    if f.len() > 0 && f[0].id != id {
        lemma_root_index(f.drop_first(), id);
        if root_index(f.drop_first(), id) is None {
            assert forall|i: int| 0 <= i < f.len() implies (#[trigger] f[i]).id != id by {
                if i > 0 {
                    assert(f.drop_first()[i - 1].id != id);
                }
            }
        }
    }
}

/// Settling a root keeps a linked forest linked, and keeps its devices.
pub proof fn lemma_settle_keeps(f: Seq<DeviceTree>, id: Seq<char>)
    requires
        forest_linked(f, None, 0),
    ensures
        forest_linked(forest_settle(f, id), None, 0),
        forest_ids(forest_settle(f, id)) == forest_ids(f),
        forest_size(forest_settle(f, id)) == forest_size(f),
{
    lemma_root_index(f, id);
    match root_index(f, id) {
        None => {},
        Some(k) => {
            match f[k].parent {
                None => {},
                Some(p) => {
                    let rest = f.remove(k);
                    if forest_find(rest, p) is Some {
                        lemma_take_root(f, k, None, 0);
                        lemma_attach_linked(rest, p, f[k], 0, None, 0);
                        lemma_attach_ids(rest, p, f[k]);
                        assert(forest_ids(forest_settle(f, id)) =~= forest_ids(f));
                        lemma_forest_size_ids(forest_settle(f, id));
                        lemma_forest_size_ids(f);
                    }
                },
            }
        },
    }
}

/// Settling roots one by one keeps a linked forest linked, and keeps its
/// devices.
pub proof fn lemma_settle_all_keeps(f: Seq<DeviceTree>, ids: Seq<Seq<char>>)
    requires
        forest_linked(f, None, 0),
    ensures
        forest_linked(forest_settle_all(f, ids), None, 0),
        forest_ids(forest_settle_all(f, ids)) == forest_ids(f),
        forest_size(forest_settle_all(f, ids)) == forest_size(f),
    decreases ids.len(),
{
    if ids.len() > 0 {
        lemma_settle_keeps(f, ids[0]);
        lemma_settle_all_keeps(forest_settle(f, ids[0]), ids.drop_first());
    }
}

/// A flat list of devices, each made a root, is a linked forest with as
/// many nodes as the list has devices.
pub proof fn lemma_flat_roots(flat: Seq<DeviceTree>)
    requires
        all_leaves(flat),
    ensures
        forest_linked(forest_relevel(flat, 0), None, 0),
        forest_size(forest_relevel(flat, 0)) == flat.len(),
        forest_size(flat) == flat.len(),
        forest_ids(forest_relevel(flat, 0)) == forest_ids(flat),
    decreases flat.len(),
{
    lemma_relevel_forest_ids(flat, 0);
    if flat.len() == 0 {
        assert(forest_relevel(flat, 0) =~= flat);
    } else {
        let rest = flat.drop_first();
        assert forall|i: int| 0 <= i < rest.len() implies (#[trigger] rest[i]).children.len()
            == 0 by {
            assert(rest[i] == flat[i + 1]);
        }
        lemma_flat_roots(rest);
        let head = tree_relevel(flat[0], 0);
        assert(flat[0].children.len() == 0);
        assert(forest_relevel(flat[0].children, 1) =~= Seq::<DeviceTree>::empty());
        assert(tree_linked(head, 0));
        assert(tree_size(head) == 1 + forest_size(head.children));
        assert(tree_size(flat[0]) == 1 + forest_size(flat[0].children));
        assert(forest_relevel(flat, 0) == seq![head] + forest_relevel(rest, 0));
        lemma_linked_single(head, None, 0);
        lemma_linked_concat(seq![head], forest_relevel(rest, 0), None, 0);
        lemma_size_concat(seq![head], forest_relevel(rest, 0));
        lemma_size_single(head);
    }
}

/// The forest built from a flat list of devices is linked and holds the
/// devices of the list; it is a well-formed topology where no identity
/// occurs twice in the list.
pub proof fn lemma_built_wf(flat: Seq<DeviceTree>)
    requires
        all_leaves(flat),
    ensures
        forest_linked(forest_built(flat), None, 0),
        forest_ids(forest_built(flat)) == forest_ids(flat),
        forest_size(forest_built(flat)) == flat.len(),
        forest_unique(flat) ==> forest_wf(forest_built(flat)),
{
    lemma_flat_roots(flat);
    lemma_settle_all_keeps(forest_relevel(flat, 0), root_id_list(flat));
    if forest_unique(flat) {
        lemma_built_settled(flat);
    }
}

/// The first root with an identity is the one that `root_index` gives.
pub proof fn lemma_root_index_first(f: Seq<DeviceTree>, id: Seq<char>, k: int)
    requires
        0 <= k < f.len(),
        f[k].id == id,
        forall|j: int| 0 <= j < k ==> (#[trigger] f[j]).id != id,
    ensures
        root_index(f, id) == Some(k),
    decreases f.len(),
{
    if k > 0 {
        assert(f[0].id != id);
        assert forall|j: int| 0 <= j < k - 1 implies (#[trigger] f.drop_first()[j]).id != id by {
            assert(f[j + 1].id != id);
        }
        lemma_root_index_first(f.drop_first(), id, k - 1);
    }
}

/// The list `acc` after the devices of `found` were taken up, the last
/// first: a hub is passed over, and so is a device whose identity the
/// list already holds.
pub open spec fn listing_into(acc: Seq<DeviceTree>, found: Seq<DeviceTree>) -> Seq<DeviceTree>
    decreases found.len(),
{
    if found.len() == 0 {
        acc
    } else if is_hub(found.last()) || root_index(acc, found.last().id) is Some {
        listing_into(acc, found.drop_last())
    } else {
        listing_into(acc.push(found.last()), found.drop_last())
    }
}

/// The devices of an enumeration that count: no hubs, and of the devices
/// with one identity the last that was found.
pub open spec fn listing_of(found: Seq<DeviceTree>) -> Seq<DeviceTree> {
    listing_into(Seq::empty(), found)
}

/// No two devices of the list share an identity, none has children, and
/// none is a hub.
pub open spec fn listing_clean(list: Seq<DeviceTree>) -> bool {
    &&& all_leaves(list)
    &&& forall|i: int| 0 <= i < list.len() ==> !is_hub(#[trigger] list[i])
    &&& forall|i: int, j: int|
        0 <= i < list.len() && 0 <= j < list.len() && i != j ==> (#[trigger] list[i]).id != (
        #[trigger] list[j]).id
}

/// Taking up devices keeps a clean list clean, and makes it longer by
/// the number of devices at most.
pub proof fn lemma_listing_into(acc: Seq<DeviceTree>, found: Seq<DeviceTree>)
    requires
        listing_clean(acc),
        all_leaves(found),
    ensures
        listing_clean(listing_into(acc, found)),
        listing_into(acc, found).len() <= acc.len() + found.len(),
    decreases found.len(),
{
    if found.len() > 0 {
        let d = found.last();
        let rest = found.drop_last();
        assert forall|i: int| 0 <= i < rest.len() implies (#[trigger] rest[i]).children.len()
            == 0 by {
            assert(rest[i] == found[i]);
        }
        if is_hub(d) || root_index(acc, d.id) is Some {
            lemma_listing_into(acc, rest);
        } else {
            lemma_root_index(acc, d.id);
            let next = acc.push(d);
            assert(found[found.len() - 1].children.len() == 0);
            assert forall|i: int, j: int|
                0 <= i < next.len() && 0 <= j < next.len() && i != j implies (
            #[trigger] next[i]).id != (#[trigger] next[j]).id by {
                if i < acc.len() && j < acc.len() {
                    assert(acc[i].id != acc[j].id);
                } else if i < acc.len() {
                    assert(acc[i].id != d.id);
                } else {
                    assert(acc[j].id != d.id);
                }
            }
            lemma_listing_into(next, rest);
        }
    }
}

/// In a list of devices without children, an identity that is found is
/// the identity of a device of the list.
pub proof fn lemma_leaves_found(list: Seq<DeviceTree>, id: Seq<char>)
    requires
        all_leaves(list),
        forest_find(list, id) is Some,
    ensures
        exists|i: int| 0 <= i < list.len() && list[i].id == id,
    decreases list.len(),
{
    if list[0].id == id {
    } else {
        let rest = list.drop_first();
        assert(list[0].children.len() == 0);
        assert(forest_find(list[0].children, id) is None);
        assert forall|i: int| 0 <= i < rest.len() implies (#[trigger] rest[i]).children.len()
            == 0 by {
            assert(rest[i] == list[i + 1]);
        }
        lemma_leaves_found(rest, id);
        let i = choose|i: int| 0 <= i < rest.len() && rest[i].id == id;
        assert(list[i + 1].id == id);
    }
}

/// In a clean list no identity occurs twice.
pub proof fn lemma_clean_unique(list: Seq<DeviceTree>)
    requires
        listing_clean(list),
    ensures
        forest_unique(list),
    decreases list.len(),
{
    if list.len() == 0 {
        assert(forest_ids(list) =~= Multiset::empty());
    } else {
        let rest = list.drop_first();
        assert forall|i: int| 0 <= i < rest.len() implies (#[trigger] rest[i]).children.len()
            == 0 && !is_hub(rest[i]) by {
            assert(rest[i] == list[i + 1]);
        }
        assert forall|i: int, j: int|
            0 <= i < rest.len() && 0 <= j < rest.len() && i != j implies (#[trigger] rest[i]).id
            != (#[trigger] rest[j]).id by {
            assert(list[i + 1].id != list[j + 1].id);
        }
        lemma_clean_unique(rest);
        assert(list[0].children.len() == 0);
        lemma_leaf_ids(list[0]);
        assert(forest_ids(list) == tree_ids(list[0]).add(forest_ids(rest)));
        assert forall|id: Seq<char>| forest_ids(list).count(id) <= 1 by {
            if id == list[0].id && forest_ids(rest).count(id) > 0 {
                lemma_find_ids(rest, id);
                lemma_leaves_found(rest, id);
                let i = choose|i: int| 0 <= i < rest.len() && rest[i].id == id;
                assert(list[i + 1].id == list[0].id);
            }
        }
    }
}

/// What one class of devices gave when it was enumerated: the devices, or
/// the failure.
pub open spec fn forest_loaded(
    base: Seq<DeviceTree>,
    listings: Seq<Result<Seq<DeviceTree>, Win32Error>>,
) -> Result<Seq<DeviceTree>, Win32Error>
    decreases listings.len(),
{
    if listings.len() == 0 {
        Ok(base)
    } else {
        match listings[0] {
            Err(e) => Err(e),
            Ok(found) => forest_loaded(
                forest_merge(base, forest_built(listing_of(found))),
                listings.drop_first(),
            ),
        }
    }
}

/// Number of devices in the listings that did not fail.
pub open spec fn listings_count(
    listings: Seq<Result<Seq<DeviceTree>, Win32Error>>,
) -> nat
    decreases listings.len(),
{
    if listings.len() == 0 {
        0
    } else {
        (match listings[0] {
            Ok(found) => found.len(),
            Err(_) => 0,
        }) + listings_count(listings.drop_first())
    }
}

/// Every listing that did not fail holds devices without children.
pub open spec fn listings_flat(
    listings: Seq<Result<Seq<DeviceTree>, Win32Error>>,
) -> bool {
    forall|i: int|
        0 <= i < listings.len() ==> ((#[trigger] listings[i]) is Ok ==> all_leaves(
            listings[i]->Ok_0,
        ))
}

/// The forest built from what an enumeration found is a well-formed
/// topology with as many devices as counted, at most.
pub proof fn lemma_listing_built(found: Seq<DeviceTree>)
    requires
        all_leaves(found),
    ensures
        forest_wf(forest_built(listing_of(found))),
        forest_size(forest_built(listing_of(found))) <= found.len(),
        listing_clean(listing_of(found)),
{
    let empty = Seq::<DeviceTree>::empty();
    lemma_listing_into(empty, found);
    lemma_clean_unique(listing_of(found));
    lemma_built_wf(listing_of(found));
}

/// Settling a root leaves every root that had found its place in its
/// place, and puts the root that is settled in its own.
pub proof fn lemma_settle_settles(f: Seq<DeviceTree>, id: Seq<char>, a: Seq<char>)
    requires
        forest_unique(f),
        a == id || id_settled(f, a),
    ensures
        id_settled(forest_settle(f, id), a),
{
    let g = forest_settle(f, id);
    lemma_root_index(f, id);
    match root_index(f, id) {
        None => {},
        Some(k) => {
            match f[k].parent {
                None => {
                    assert forall|j: int| 0 <= j < g.len() && (#[trigger] g[j]).id
                        == a implies root_settled(g, j) by {
                        if a == id && j != k {
                            lemma_roots_differ(f, j, k);
                        }
                    }
                },
                Some(p) => {
                    let rest = f.remove(k);
                    lemma_take_root(f, k, None, 0);
                    lemma_find_ids(rest, p);
                    if forest_find(rest, p) is Some {
                        lemma_attach_roots(rest, p, f[k]);
                        lemma_attach_ids(rest, p, f[k]);
                        assert(forest_ids(g) =~= forest_ids(f));
                        assert forall|j: int| 0 <= j < g.len() && (#[trigger] g[j]).id
                            == a implies root_settled(g, j) by {
                            let j2 = if j < k {
                                j
                            } else {
                                j + 1
                            };
                            assert(rest[j] == f[j2]);
                            assert(g[j].id == rest[j].id);
                            assert(g[j].parent == rest[j].parent);
                            if a == id {
                                lemma_roots_differ(f, j2, k);
                            } else if g[j].parent is Some {
                                let q = g[j].parent->0;
                                assert(root_settled(f, j2));
                                assert(tree_ids(g[j]).count(q) >= tree_ids(rest[j]).count(q));
                                lemma_tree_in_forest(g, j, q);
                            }
                        }
                    } else {
                        assert forall|j: int| 0 <= j < g.len() && (#[trigger] g[j]).id
                            == a implies root_settled(g, j) by {
                            if a == id && j != k {
                                lemma_roots_differ(f, j, k);
                            }
                        }
                    }
                },
            }
        },
    }
}

/// Settling roots one by one puts every root named in its place, and
/// leaves those in place that were.
pub proof fn lemma_settle_all_settles(f: Seq<DeviceTree>, ids: Seq<Seq<char>>, a: Seq<char>)
    requires
        forest_unique(f),
        forest_linked(f, None, 0),
        ids.contains(a) || id_settled(f, a),
    ensures
        id_settled(forest_settle_all(f, ids), a),
    decreases ids.len(),
{
    if ids.len() > 0 {
        let g = forest_settle(f, ids[0]);
        lemma_settle_keeps(f, ids[0]);
        if a == ids[0] || id_settled(f, a) {
            lemma_settle_settles(f, ids[0], a);
        } else {
            let i = choose|i: int| 0 <= i < ids.len() && ids[i] == a;
            assert(ids.drop_first()[i - 1] == a);
        }
        lemma_settle_all_settles(g, ids.drop_first(), a);
    }
}

/// Settling keeps the roots among those that were roots before.
pub proof fn lemma_settle_roots(f: Seq<DeviceTree>, id: Seq<char>)
    ensures
        forall|j: int|
            0 <= j < forest_settle(f, id).len() ==> root_id_list(f).contains(
                (#[trigger] forest_settle(f, id)[j]).id,
            ),
{
    let g = forest_settle(f, id);
    lemma_root_index(f, id);
    assert forall|j: int| 0 <= j < g.len() implies root_id_list(f).contains(
        (#[trigger] g[j]).id,
    ) by {
        if g == f {
            assert(root_id_list(f)[j] == f[j].id);
        } else {
            let k = root_index(f, id)->0;
            let rest = f.remove(k);
            lemma_attach_roots(rest, f[k].parent->0, f[k]);
            let j2 = if j < k {
                j
            } else {
                j + 1
            };
            assert(rest[j] == f[j2]);
            assert(root_id_list(f)[j2] == f[j2].id);
        }
    }
}

/// Settling roots one by one keeps the roots among those that were roots
/// before.
pub proof fn lemma_settle_all_roots(f: Seq<DeviceTree>, ids: Seq<Seq<char>>)
    ensures
        forall|j: int|
            0 <= j < forest_settle_all(f, ids).len() ==> root_id_list(f).contains(
                (#[trigger] forest_settle_all(f, ids)[j]).id,
            ),
    decreases ids.len(),
{
    if ids.len() == 0 {
        assert forall|j: int| 0 <= j < f.len() implies root_id_list(f).contains(
            (#[trigger] f[j]).id,
        ) by {
            assert(root_id_list(f)[j] == f[j].id);
        }
    } else {
        let g = forest_settle(f, ids[0]);
        lemma_settle_roots(f, ids[0]);
        lemma_settle_all_roots(g, ids.drop_first());
        let h = forest_settle_all(f, ids);
        assert forall|j: int| 0 <= j < h.len() implies root_id_list(f).contains(
            (#[trigger] h[j]).id,
        ) by {
            assert(root_id_list(g).contains(h[j].id));
            let m = choose|m: int| 0 <= m < g.len() && root_id_list(g)[m] == h[j].id;
            assert(root_id_list(f).contains(g[m].id));
        }
    }
}

/// In the forest built from a flat list in which no identity occurs
/// twice, a device is a root only where the parent that it declares is
/// not among the other devices: what a root declares stands nowhere in
/// the forest but, at most, below the root itself.
pub proof fn lemma_built_settled(flat: Seq<DeviceTree>)
    requires
        all_leaves(flat),
        forest_unique(flat),
    ensures
        forall|k: int|
            0 <= k < forest_built(flat).len() ==> #[trigger] root_settled(forest_built(flat), k),
{
    let start = forest_relevel(flat, 0);
    let ids = root_id_list(flat);
    let built = forest_built(flat);
    lemma_flat_roots(flat);
    lemma_forest_relevel(flat, 0);
    lemma_settle_all_roots(start, ids);
    assert(root_id_list(start) =~= ids);
    assert forall|k: int| 0 <= k < built.len() implies #[trigger] root_settled(built, k) by {
        let a = built[k].id;
        assert(ids.contains(a));
        lemma_settle_all_settles(start, ids, a);
    }
}

/// The identities of the roots of two forests laid end to end.
pub proof fn lemma_root_ids_concat(a: Seq<DeviceTree>, b: Seq<DeviceTree>)
    ensures
        root_ids(a + b) == root_ids(a).add(root_ids(b)),
    decreases a.len(),
{
    if a.len() == 0 {
        assert(a + b =~= b);
        assert(root_ids(a).add(root_ids(b)) =~= root_ids(b));
    } else {
        lemma_root_ids_concat(a.drop_first(), b);
        assert((a + b).drop_first() =~= a.drop_first() + b);
        assert((a + b)[0] == a[0]);
        assert(root_ids(a + b) =~= root_ids(a).add(root_ids(b)));
    }
}

/// The identity of the root of a forest of one tree.
pub proof fn lemma_root_ids_single(t: DeviceTree)
    ensures
        root_ids(seq![t]) == Multiset::singleton(t.id),
{
    let f = seq![t];
    assert(f.drop_first() =~= Seq::<DeviceTree>::empty());
    assert(root_ids(f.drop_first()) =~= Multiset::empty());
    assert(root_ids(f) =~= Multiset::singleton(t.id));
}

/// The nodes of a tree, each alone, bear the identities of the tree.
pub proof fn lemma_tree_flatten_ids(t: DeviceTree)
    ensures
        root_ids(tree_flatten(t)) == tree_ids(t),
    decreases t,
{
    let below = forest_flatten(t.children);
    lemma_forest_flatten_ids(t.children);
    assert(tree_flatten(t) =~= below + seq![tree_leaf(t)]);
    lemma_root_ids_concat(below, seq![tree_leaf(t)]);
    lemma_root_ids_single(tree_leaf(t));
    assert(tree_ids(t) == forest_ids(t.children).insert(t.id));
    assert(root_ids(tree_flatten(t)) =~= tree_ids(t));
}

/// The nodes of a forest, each alone, bear the identities of the forest.
pub proof fn lemma_forest_flatten_ids(f: Seq<DeviceTree>)
    ensures
        root_ids(forest_flatten(f)) == forest_ids(f),
    decreases f,
{
    if f.len() == 0 {
        assert(forest_ids(f) =~= Multiset::empty());
        assert(root_ids(forest_flatten(f)) =~= Multiset::empty());
    } else {
        lemma_tree_flatten_ids(f[0]);
        lemma_forest_flatten_ids(f.drop_first());
        lemma_root_ids_concat(tree_flatten(f[0]), forest_flatten(f.drop_first()));
        assert(forest_ids(f) == tree_ids(f[0]).add(forest_ids(f.drop_first())));
    }
}

/// Devices whose identities the topology does not hold, and of which no
/// two share one, arrive one by one: the topology then holds what it held
/// and these devices, and nothing else.
pub proof fn lemma_insert_all_ids(f: Seq<DeviceTree>, items: Seq<DeviceTree>)
    requires
        forest_wf(f),
        forall|i: int| 0 <= i < items.len() ==> (#[trigger] items[i]).children.len() == 0,
        forall|x: Seq<char>| forest_ids(f).count(x) + root_ids(items).count(x) <= 1,
    ensures
        forest_wf(forest_insert_all(f, items)),
        forest_ids(forest_insert_all(f, items)) == forest_ids(f).add(root_ids(items)),
    decreases items.len(),
{
    if items.len() == 0 {
        assert(root_ids(items) =~= Multiset::empty());
        assert(forest_ids(f).add(root_ids(items)) =~= forest_ids(f));
    } else {
        let c = items.last();
        let front = items.drop_last();
        assert(items =~= front + seq![c]);
        lemma_root_ids_concat(front, seq![c]);
        lemma_root_ids_single(c);
        assert(root_ids(items).count(c.id) >= 1);
        assert(forest_ids(f).count(c.id) + root_ids(items).count(c.id) <= 1);
        lemma_find_ids(f, c.id);
        assert(items[items.len() - 1].children.len() == 0);
        lemma_insert_wf(f, c);
        lemma_insert_fresh(f, c);
        let g = forest_insert(f, c);
        assert forall|x: Seq<char>| forest_ids(g).count(x) + root_ids(front).count(x) <= 1 by {
            assert(forest_ids(f).count(x) + root_ids(items).count(x) <= 1);
        }
        assert forall|i: int| 0 <= i < front.len() implies (#[trigger] front[i]).children.len()
            == 0 by {
            assert(front[i] == items[i]);
        }
        lemma_insert_all_ids(g, front);
        assert(forest_ids(forest_insert_all(f, items)) =~= forest_ids(f).add(root_ids(items)));
    }
}

/// Merging two forests that share no identity gives a topology that
/// holds the devices of both, and nothing else.
pub proof fn lemma_merge_ids(base: Seq<DeviceTree>, incoming: Seq<DeviceTree>)
    requires
        forest_wf(base),
        forall|x: Seq<char>| forest_ids(base).count(x) + forest_ids(incoming).count(x) <= 1,
    ensures
        forest_wf(forest_merge(base, incoming)),
        forest_ids(forest_merge(base, incoming)) == forest_ids(base).add(forest_ids(incoming)),
{
    lemma_forest_flatten(incoming);
    lemma_forest_flatten_ids(incoming);
    lemma_insert_all_ids(base, forest_flatten(incoming));
}

/// The identities of the devices that count in the listings, each as
/// often as the listings that did not fail hold it.
pub open spec fn listings_ids(listings: Seq<Result<Seq<DeviceTree>, Win32Error>>) -> Multiset<
    Seq<char>,
>
    decreases listings.len(),
{
    if listings.len() == 0 {
        Multiset::empty()
    } else {
        (match listings[0] {
            Ok(found) => forest_ids(listing_of(found)),
            Err(_) => Multiset::empty(),
        }).add(listings_ids(listings.drop_first()))
    }
}

/// A load from listings that did not fail, and whose devices share no
/// identity with one another or with what is there, gives a well-formed
/// topology that holds what was there and the devices that count in the
/// listings, and nothing else.
pub proof fn lemma_loaded_ids(
    base: Seq<DeviceTree>,
    listings: Seq<Result<Seq<DeviceTree>, Win32Error>>,
)
    requires
        forest_wf(base),
        listings_flat(listings),
        forall|i: int| 0 <= i < listings.len() ==> (#[trigger] listings[i]) is Ok,
        forall|x: Seq<char>| forest_ids(base).count(x) + listings_ids(listings).count(x) <= 1,
    ensures
        forest_loaded(base, listings) is Ok,
        forest_wf(forest_loaded(base, listings)->Ok_0),
        forest_ids(forest_loaded(base, listings)->Ok_0) == forest_ids(base).add(
            listings_ids(listings),
        ),
    decreases listings.len(),
{
    if listings.len() == 0 {
        assert(forest_ids(base).add(listings_ids(listings)) =~= forest_ids(base));
    } else {
        assert(listings[0] is Ok);
        let found = listings[0]->Ok_0;
        let rest = listings.drop_first();
        let list = listing_of(found);
        let built = forest_built(list);
        lemma_listing_built(found);
        lemma_built_wf(list);
        assert forall|x: Seq<char>| forest_ids(base).count(x) + forest_ids(built).count(x)
            <= 1 by {
            assert(forest_ids(base).count(x) + listings_ids(listings).count(x) <= 1);
        }
        lemma_merge_ids(base, built);
        let merged = forest_merge(base, built);
        assert forall|x: Seq<char>| forest_ids(merged).count(x) + listings_ids(rest).count(x)
            <= 1 by {
            assert(forest_ids(base).count(x) + listings_ids(listings).count(x) <= 1);
        }
        assert forall|i: int| 0 <= i < rest.len() implies (#[trigger] rest[i]) is Ok by {
            assert(rest[i] == listings[i + 1]);
        }
        assert forall|i: int| 0 <= i < rest.len() && (#[trigger] rest[i]) is Ok implies all_leaves(
            rest[i]->Ok_0,
        ) by {
            assert(rest[i] == listings[i + 1]);
        }
        lemma_loaded_ids(merged, rest);
        assert(forest_ids(forest_loaded(base, listings)->Ok_0) =~= forest_ids(base).add(
            listings_ids(listings),
        ));
    }
}

/// The devices that count in an enumeration are the devices found that
/// are no hubs: an identity is among them exactly when a device that is
/// no hub bears it.
pub proof fn lemma_listing_holds(acc: Seq<DeviceTree>, found: Seq<DeviceTree>, x: Seq<char>)
    requires
        all_leaves(found),
    ensures
        forest_find(listing_into(acc, found), x) is Some <==> forest_find(acc, x) is Some || exists|
            i: int,
        |
            0 <= i < found.len() && !is_hub(#[trigger] found[i]) && found[i].id == x,
    decreases found.len(),
{
    if found.len() > 0 {
        let d = found.last();
        let front = found.drop_last();
        assert forall|i: int| 0 <= i < front.len() implies (#[trigger] front[i]).children.len()
            == 0 by {
            assert(front[i] == found[i]);
        }
        assert(found[found.len() - 1].children.len() == 0);
        let before = exists|i: int|
            0 <= i < front.len() && !is_hub(#[trigger] front[i]) && front[i].id == x;
        let now = exists|i: int|
            0 <= i < found.len() && !is_hub(#[trigger] found[i]) && found[i].id == x;
        let last_counts = !is_hub(d) && d.id == x;
        if before {
            let i = choose|i: int|
                0 <= i < front.len() && !is_hub(#[trigger] front[i]) && front[i].id == x;
            assert(found[i] == front[i]);
            assert(0 <= i < found.len() && !is_hub(found[i]) && found[i].id == x);
        }
        if last_counts {
            let i = found.len() - 1;
            assert(0 <= i < found.len() && !is_hub(found[i]) && found[i].id == x);
        }
        if now {
            let i = choose|i: int|
                0 <= i < found.len() && !is_hub(#[trigger] found[i]) && found[i].id == x;
            if i < front.len() {
                assert(front[i] == found[i]);
                assert(0 <= i < front.len() && !is_hub(front[i]) && front[i].id == x);
            }
        }
        assert(now == (before || last_counts));
        if is_hub(d) || root_index(acc, d.id) is Some {
            lemma_listing_holds(acc, front, x);
            assert(listing_into(acc, found) == listing_into(acc, front));
            if !is_hub(d) {
                lemma_root_index(acc, d.id);
                lemma_root_found(acc, root_index(acc, d.id)->0);
            }
        } else {
            lemma_listing_holds(acc.push(d), front, x);
            assert(listing_into(acc, found) == listing_into(acc.push(d), front));
            assert(acc.push(d) =~= acc + seq![d]);
            lemma_find_concat(acc, seq![d], x);
            let one = seq![d];
            assert(one[0] == d);
            assert(forest_find(d.children, x) is None);
            assert(one.drop_first() =~= Seq::<DeviceTree>::empty());
            assert(forest_find(one.drop_first(), x) is None);
            assert(forest_find(one, x) is Some <==> d.id == x);
        }
    }
}

/// The devices that count in an enumeration bear exactly the identities
/// of the devices found that are no hubs.
pub proof fn lemma_listing_of_holds(found: Seq<DeviceTree>, x: Seq<char>)
    requires
        all_leaves(found),
    ensures
        forest_find(listing_of(found), x) is Some <==> exists|i: int|
            0 <= i < found.len() && !is_hub(#[trigger] found[i]) && found[i].id == x,
{
    lemma_listing_holds(Seq::empty(), found, x);
}

} // verus!
