//! Hubs stay out of the topology: none of the operations that build or
//! change a forest brings one in.

use crate::building::{
    all_leaves, forest_built, forest_flatten, forest_insert_all, forest_loaded, forest_merge,
    forest_settle, forest_settle_all, lemma_listing_built, lemma_root_index, listing_clean,
    listing_of, listings_flat, root_id_list, root_index, tree_flatten, tree_leaf,
};
use crate::device::{forest_relevel, is_hub, tree_relevel, DeviceTree};
use crate::error::Win32Error;
use crate::forest::{
    forest_attach, forest_find, forest_insert, forest_remove, roots_kept, roots_orphans,
    tree_adopting,
};
use vstd::prelude::*;

verus! {

/// No node of the tree is a hub.
pub open spec fn tree_hub_free(t: DeviceTree) -> bool
    decreases t,
{
    !is_hub(t) && forest_hub_free(t.children)
}

/// No node of the forest is a hub.
pub open spec fn forest_hub_free(f: Seq<DeviceTree>) -> bool
    decreases f,
{
    f.len() == 0 || (tree_hub_free(f[0]) && forest_hub_free(f.drop_first()))
}

/// Two forests laid end to end hold no hub exactly when neither does.
pub proof fn lemma_hub_free_concat(a: Seq<DeviceTree>, b: Seq<DeviceTree>)
    ensures
        forest_hub_free(a + b) <==> forest_hub_free(a) && forest_hub_free(b),
    decreases a.len(),
{
    if a.len() == 0 {
        assert(a + b =~= b);
    } else {
        lemma_hub_free_concat(a.drop_first(), b);
        assert((a + b).drop_first() =~= a.drop_first() + b);
        assert((a + b)[0] == a[0]);
    }
}

/// A forest of one tree holds no hub exactly when the tree holds none.
pub proof fn lemma_hub_free_single(t: DeviceTree)
    ensures
        forest_hub_free(seq![t]) <==> tree_hub_free(t),
{
    let f = seq![t];
    assert(f[0] == t);
    assert(f.drop_first() =~= Seq::<DeviceTree>::empty());
    assert(forest_hub_free(f.drop_first()));
}

/// Detaching a subtree brings no hub in.
pub proof fn lemma_remove_hub_free(f: Seq<DeviceTree>, id: Seq<char>)
    requires
        forest_hub_free(f),
    ensures
        forest_hub_free(forest_remove(f, id)),
        forest_find(f, id) is Some ==> tree_hub_free(forest_find(f, id)->0),
    decreases f,
{
    if f.len() > 0 {
        let rest = f.drop_first();
        let t = f[0];
        assert(tree_hub_free(t));
        assert(forest_hub_free(t.children));
        if t.id == id {
        } else if forest_find(t.children, id) is Some {
            lemma_remove_hub_free(t.children, id);
            let t2 = DeviceTree { children: forest_remove(t.children, id), ..t };
            assert(tree_hub_free(t2));
            lemma_hub_free_single(t2);
            lemma_hub_free_concat(seq![t2], rest);
        } else {
            lemma_remove_hub_free(rest, id);
            lemma_hub_free_single(t);
            lemma_hub_free_concat(seq![t], forest_remove(rest, id));
        }
    }
}

/// Moving a tree to another depth brings no hub in.
pub proof fn lemma_relevel_tree_hub_free(t: DeviceTree, level: nat)
    requires
        tree_hub_free(t),
    ensures
        tree_hub_free(tree_relevel(t, level)),
    decreases t,
{
    lemma_relevel_forest_hub_free(t.children, level + 1);
}

/// Moving a forest to another depth brings no hub in.
pub proof fn lemma_relevel_forest_hub_free(f: Seq<DeviceTree>, level: nat)
    requires
        forest_hub_free(f),
    ensures
        forest_hub_free(forest_relevel(f, level)),
    decreases f,
{
    if f.len() == 0 {
        assert(forest_relevel(f, level) =~= f);
    } else {
        let head = tree_relevel(f[0], level);
        let tail = forest_relevel(f.drop_first(), level);
        lemma_relevel_tree_hub_free(f[0], level);
        lemma_relevel_forest_hub_free(f.drop_first(), level);
        assert(forest_relevel(f, level) == seq![head] + tail);
        lemma_hub_free_single(head);
        lemma_hub_free_concat(seq![head], tail);
    }
}

/// Hanging a tree without hubs into a forest without hubs brings none in.
pub proof fn lemma_attach_hub_free(f: Seq<DeviceTree>, pid: Seq<char>, c: DeviceTree)
    requires
        forest_hub_free(f),
        tree_hub_free(c),
    ensures
        forest_hub_free(forest_attach(f, pid, c)),
    decreases f,
{
    if f.len() > 0 {
        let rest = f.drop_first();
        let t = f[0];
        assert(tree_hub_free(t));
        assert(forest_hub_free(t.children));
        if t.id == pid {
            let hung = tree_relevel(c, t.level + 1);
            let t2 = DeviceTree { children: t.children.push(hung), ..t };
            lemma_relevel_tree_hub_free(c, t.level + 1);
            assert(t.children.push(hung) =~= t.children + seq![hung]);
            lemma_hub_free_single(hung);
            lemma_hub_free_concat(t.children, seq![hung]);
            assert(tree_hub_free(t2));
            lemma_hub_free_single(t2);
            lemma_hub_free_concat(seq![t2], rest);
        } else if forest_find(t.children, pid) is Some {
            lemma_attach_hub_free(t.children, pid, c);
            let t2 = DeviceTree { children: forest_attach(t.children, pid, c), ..t };
            assert(tree_hub_free(t2));
            lemma_hub_free_single(t2);
            lemma_hub_free_concat(seq![t2], rest);
        } else {
            lemma_attach_hub_free(rest, pid, c);
            lemma_hub_free_single(t);
            lemma_hub_free_concat(seq![t], forest_attach(rest, pid, c));
        }
    }
}

/// Kept roots and orphans of a forest without hubs hold none.
pub proof fn lemma_split_hub_free(f: Seq<DeviceTree>, id: Seq<char>)
    requires
        forest_hub_free(f),
    ensures
        forest_hub_free(roots_kept(f, id)),
        forest_hub_free(roots_orphans(f, id)),
    decreases f.len(),
{
    if f.len() > 0 {
        let rest = f.drop_first();
        lemma_split_hub_free(rest, id);
        lemma_hub_free_single(f[0]);
        if f[0].parent == Some(id) {
            lemma_hub_free_concat(seq![f[0]], roots_orphans(rest, id));
        } else {
            lemma_hub_free_concat(seq![f[0]], roots_kept(rest, id));
        }
    }
}

/// A device that is no hub arrives in a topology without hubs: the
/// topology holds no hub afterwards.
pub proof fn lemma_insert_hub_free(f: Seq<DeviceTree>, c: DeviceTree)
    requires
        forest_hub_free(f),
        tree_hub_free(c),
    ensures
        forest_hub_free(forest_insert(f, c)),
{
    let g = forest_remove(f, c.id);
    lemma_remove_hub_free(f, c.id);
    let kept = roots_kept(g, c.id);
    let orphans = roots_orphans(g, c.id);
    let n = tree_adopting(g, c);
    lemma_split_hub_free(g, c.id);
    assert(forest_hub_free(c.children));
    lemma_hub_free_concat(c.children, orphans);
    assert(tree_hub_free(n));
    let attached = c.parent is Some && forest_find(kept, c.parent->0) is Some;
    if attached {
        lemma_attach_hub_free(kept, c.parent->0, n);
    } else {
        let m = tree_relevel(n, 0);
        lemma_relevel_tree_hub_free(n, 0);
        lemma_hub_free_single(m);
        assert(kept.push(m) =~= kept + seq![m]);
        lemma_hub_free_concat(kept, seq![m]);
    }
}

/// Arrivals of devices that are no hubs leave a topology without hubs.
pub proof fn lemma_insert_all_hub_free(f: Seq<DeviceTree>, items: Seq<DeviceTree>)
    requires
        forest_hub_free(f),
        forall|i: int| 0 <= i < items.len() ==> tree_hub_free(#[trigger] items[i]),
    ensures
        forest_hub_free(forest_insert_all(f, items)),
    decreases items.len(),
{
    if items.len() > 0 {
        assert(tree_hub_free(items[items.len() - 1]));
        lemma_insert_hub_free(f, items.last());
        assert forall|i: int| 0 <= i < items.drop_last().len() implies tree_hub_free(
            #[trigger] items.drop_last()[i],
        ) by {
            assert(items.drop_last()[i] == items[i]);
        }
        lemma_insert_all_hub_free(forest_insert(f, items.last()), items.drop_last());
    }
}

/// The nodes of a tree without hubs, each alone, are no hubs.
pub proof fn lemma_tree_flatten_hub_free(t: DeviceTree)
    requires
        tree_hub_free(t),
    ensures
        forall|i: int|
            0 <= i < tree_flatten(t).len() ==> tree_hub_free(#[trigger] tree_flatten(t)[i]),
    decreases t,
{
    assert(forest_hub_free(t.children));
    lemma_forest_flatten_hub_free(t.children);
    assert(tree_hub_free(tree_leaf(t))) by {
        assert(forest_hub_free(tree_leaf(t).children));
    }
    let below = forest_flatten(t.children);
    assert forall|i: int| 0 <= i < tree_flatten(t).len() implies tree_hub_free(
        #[trigger] tree_flatten(t)[i],
    ) by {
        if i < below.len() {
            assert(tree_flatten(t)[i] == below[i]);
        } else {
            assert(tree_flatten(t)[i] == tree_leaf(t));
        }
    }
}

/// The nodes of a forest without hubs, each alone, are no hubs.
pub proof fn lemma_forest_flatten_hub_free(f: Seq<DeviceTree>)
    requires
        forest_hub_free(f),
    ensures
        forall|i: int|
            0 <= i < forest_flatten(f).len() ==> tree_hub_free(#[trigger] forest_flatten(f)[i]),
    decreases f,
{
    if f.len() > 0 {
        assert(tree_hub_free(f[0]));
        lemma_tree_flatten_hub_free(f[0]);
        lemma_forest_flatten_hub_free(f.drop_first());
        let head = tree_flatten(f[0]);
        let tail = forest_flatten(f.drop_first());
        assert(forest_flatten(f) == head + tail);
        assert forall|i: int| 0 <= i < forest_flatten(f).len() implies tree_hub_free(
            #[trigger] forest_flatten(f)[i],
        ) by {
            if i < head.len() {
                assert(forest_flatten(f)[i] == head[i]);
            } else {
                assert(forest_flatten(f)[i] == tail[i - head.len()]);
            }
        }
    }
}

/// Merging forests without hubs gives one without hubs.
pub proof fn lemma_merge_hub_free(base: Seq<DeviceTree>, incoming: Seq<DeviceTree>)
    requires
        forest_hub_free(base),
        forest_hub_free(incoming),
    ensures
        forest_hub_free(forest_merge(base, incoming)),
{
    lemma_forest_flatten_hub_free(incoming);
    lemma_insert_all_hub_free(base, forest_flatten(incoming));
}

/// Settling a root of a forest without hubs brings none in.
pub proof fn lemma_settle_hub_free(f: Seq<DeviceTree>, id: Seq<char>)
    requires
        forest_hub_free(f),
    ensures
        forest_hub_free(forest_settle(f, id)),
{
    lemma_root_index(f, id);
    match root_index(f, id) {
        None => {},
        Some(k) => {
            match f[k].parent {
                None => {},
                Some(p) => {
                    let a = f.take(k);
                    let b = f.skip(k + 1);
                    assert(f =~= a + (seq![f[k]] + b));
                    assert(f.remove(k) =~= a + b);
                    lemma_hub_free_concat(a, seq![f[k]] + b);
                    lemma_hub_free_concat(seq![f[k]], b);
                    lemma_hub_free_single(f[k]);
                    lemma_hub_free_concat(a, b);
                    if forest_find(f.remove(k), p) is Some {
                        lemma_attach_hub_free(f.remove(k), p, f[k]);
                    }
                },
            }
        },
    }
}

/// Settling roots of a forest without hubs brings none in.
pub proof fn lemma_settle_all_hub_free(f: Seq<DeviceTree>, ids: Seq<Seq<char>>)
    requires
        forest_hub_free(f),
    ensures
        forest_hub_free(forest_settle_all(f, ids)),
    decreases ids.len(),
{
    if ids.len() > 0 {
        lemma_settle_hub_free(f, ids[0]);
        lemma_settle_all_hub_free(forest_settle(f, ids[0]), ids.drop_first());
    }
}

/// A clean list holds no hub.
pub proof fn lemma_clean_hub_free(list: Seq<DeviceTree>)
    requires
        listing_clean(list),
    ensures
        forest_hub_free(list),
    decreases list.len(),
{
    if list.len() > 0 {
        let rest = list.drop_first();
        assert forall|i: int| 0 <= i < rest.len() implies (#[trigger] rest[i]).children.len()
            == 0 && !is_hub(rest[i]) by {
            assert(rest[i] == list[i + 1]);
        }
        assert forall|i: int, j: int|
            0 <= i < rest.len() && 0 <= j < rest.len() && i != j implies (#[trigger] rest[i]).id
            != (#[trigger] rest[j]).id by {
            assert(list[i + 1].id != list[j + 1].id);
        }
        lemma_clean_hub_free(rest);
        assert(list[0].children.len() == 0);
        assert(forest_hub_free(list[0].children));
        assert(!is_hub(list[0]));
        assert(tree_hub_free(list[0]));
    }
}

/// The topology that a load builds holds no hub, whatever the
/// enumerations found.
pub proof fn lemma_loaded_hub_free(
    base: Seq<DeviceTree>,
    listings: Seq<Result<Seq<DeviceTree>, Win32Error>>,
)
    requires
        forest_hub_free(base),
        listings_flat(listings),
    ensures
        forest_loaded(base, listings) is Ok ==> forest_hub_free(
            forest_loaded(base, listings)->Ok_0,
        ),
    decreases listings.len(),
{
    if listings.len() > 0 {
        match listings[0] {
            Err(_) => {},
            Ok(found) => {
                let list = listing_of(found);
                lemma_listing_built(found);
                lemma_clean_hub_free(list);
                lemma_relevel_forest_hub_free(list, 0);
                lemma_settle_all_hub_free(forest_relevel(list, 0), root_id_list(list));
                lemma_merge_hub_free(base, forest_built(list));
                assert forall|i: int|
                    0 <= i < listings.drop_first().len() && (
                    #[trigger] listings.drop_first()[i]) is Ok implies all_leaves(
                    listings.drop_first()[i]->Ok_0,
                ) by {
                    assert(listings.drop_first()[i] == listings[i + 1]);
                }
                lemma_loaded_hub_free(
                    forest_merge(base, forest_built(list)),
                    listings.drop_first(),
                );
            },
        }
    }
}

} // verus!
