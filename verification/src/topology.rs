//! The device topology: a forest of devices and the operations that keep it.

use crate::building::{
    all_leaves, forest_built, forest_flatten, forest_insert_all, forest_loaded, forest_merge,
    forest_settle, forest_settle_all, lemma_built_settled, lemma_built_wf, lemma_clean_unique,
    lemma_flat_roots, lemma_forest_flatten, lemma_listing_built, lemma_listing_into,
    lemma_loaded_ids, lemma_merge_ids, lemma_merge_wf, lemma_root_index, lemma_root_index_first,
    lemma_settle_keeps, listing_clean, listing_into, listing_of, listings_count, listings_flat,
    listings_ids, root_id_list, root_index, tree_flatten, tree_leaf,
};
use crate::device::{
    device_filter_function, forest_relevel, forest_size, forest_view, is_hub, lemma_forest_relevel,
    lemma_forest_view, opt_id_view, tree_relevel, tree_size, Device, DeviceId, DeviceInstance,
    DeviceState, DeviceTree,
};
use crate::error::{
    ConfigManagerError, DeviceInsertionError, Win32Error, ERROR_DEV_NOT_EXIST, ERROR_NO_MORE_ITEMS,
};
use crate::forest::{
    forest_attach, forest_find, forest_ids, forest_insert, forest_levels_below, forest_linked,
    forest_remove, forest_unique, forest_wf, lemma_adopting, lemma_children_smaller,
    lemma_forest_levels_mono, lemma_forest_linked_levels, lemma_insert_fresh, lemma_insert_size,
    lemma_insert_wf, lemma_levels_below_index, lemma_remove_absent, lemma_remove_size,
    lemma_remove_wf, lemma_size_concat, lemma_size_single, lemma_split_linked, lemma_split_size,
    lemma_take_root, lemma_walk_step, root_settled, roots_kept, roots_orphans, tree_adopting,
};
use crate::hubs::{forest_hub_free, lemma_insert_hub_free, lemma_loaded_hub_free};
use crate::property::{device_of, DeviceProperties};
use vstd::multiset::Multiset;
use vstd::prelude::*;

verus! {

/// Looks a device up anywhere in `devices`, depth first.
pub fn find_in<'a>(devices: &'a Vec<Device>, id: &DeviceId) -> (r: Option<&'a Device>)
    ensures
        match r {
            Some(d) => forest_find(forest_view(devices@), id@) == Some(d@),
            None => forest_find(forest_view(devices@), id@) is None,
        },
    decreases forest_size(forest_view(devices@)),
{
    let ghost fv = forest_view(devices@);
    proof {
        lemma_forest_view(devices@);
        assert(fv.skip(0) =~= fv);
    }
    let n = devices.len();
    let mut i: usize = 0;
    while i < n
        invariant
            i <= n,
            n == devices.len(),
            fv == forest_view(devices@),
            fv.len() == n,
            forall|j: int| 0 <= j < n ==> (#[trigger] fv[j]) == devices@[j]@,
            forest_find(fv, id@) == forest_find(fv.skip(i as int), id@),
        decreases n - i,
    {
        let d = &devices[i];
        proof {
            let rest = fv.skip(i as int);
            assert(rest[0] == d@);
            assert(rest.drop_first() =~= fv.skip(i as int + 1));
            lemma_children_smaller(fv, i as int);
            assert(d@.children == forest_view(d.devices@));
        }
        if d.device_id == *id {
            return Some(d);
        }
        let r = find_in(&d.devices, id);
        if r.is_some() {
            return r;
        }
        i += 1;
    }
    None
}

/// Detaches the device `id`, with everything below it, from wherever it
/// stands in `devices`.
pub fn remove_in(devices: &mut Vec<Device>, id: &DeviceId) -> (r: Option<Device>)
    ensures
        forest_view(final(devices)@) == forest_remove(forest_view(old(devices)@), id@),
        match r {
            Some(d) => forest_find(forest_view(old(devices)@), id@) == Some(d@),
            None => forest_find(forest_view(old(devices)@), id@) is None,
        },
    decreases forest_size(forest_view(old(devices)@)),
{
    let ghost fv = forest_view(devices@);
    proof {
        lemma_forest_view(devices@);
        assert(fv.skip(0) =~= fv);
        assert(fv.take(0) + forest_remove(fv, id@) =~= forest_remove(fv, id@));
    }
    let n = devices.len();
    let mut i: usize = 0;
    while i < n
        invariant
            i <= n,
            n == devices.len(),
            fv == forest_view(devices@),
            fv == forest_view(old(devices)@),
            fv.len() == n,
            forest_find(fv, id@) == forest_find(fv.skip(i as int), id@),
            forest_remove(fv, id@) == fv.take(i as int) + forest_remove(fv.skip(i as int), id@),
        decreases n - i,
    {
        let ghost before = devices@;
        let ghost rest = fv.skip(i as int);
        proof {
            lemma_forest_view(before);
            assert(rest[0] == before[i as int]@);
            assert(rest.drop_first() =~= fv.skip(i as int + 1));
            lemma_children_smaller(fv, i as int);
            assert(before[i as int]@.children == forest_view(before[i as int].devices@));
        }
        if devices[i].device_id == *id {
            let d = devices.remove(i);
            proof {
                lemma_forest_view(devices@);
                assert(forest_view(devices@) =~= fv.take(i as int) + rest.drop_first());
            }
            return Some(d);
        }
        let r = remove_in(&mut devices[i].devices, id);
        proof {
            lemma_forest_view(devices@);
            let now = devices@[i as int]@;
            assert(now == DeviceTree {
                children: forest_remove(rest[0].children, id@),
                ..rest[0]
            });
        }
        if r.is_some() {
            proof {
                assert(forest_view(devices@) =~= fv.take(i as int) + (seq![
                    DeviceTree { children: forest_remove(rest[0].children, id@), ..rest[0] },
                ] + rest.drop_first()));
            }
            return r;
        }
        proof {
            lemma_remove_absent(rest[0].children, id@);
            assert(forest_view(devices@) =~= fv);
            assert(fv.take(i as int) + (seq![rest[0]] + forest_remove(rest.drop_first(), id@))
                =~= fv.take(i as int + 1) + forest_remove(fv.skip(i as int + 1), id@));
        }
        i += 1;
    }
    proof {
        assert(fv.skip(n as int) =~= Seq::<DeviceTree>::empty());
        assert(fv.take(n as int) =~= fv);
        assert(fv + Seq::<DeviceTree>::empty() =~= fv);
    }
    None
}

/// Hangs `child`, with everything below it, under the device `parent_id`
/// wherever that stands in `devices`, and hands `child` back if it stands
/// nowhere.
pub fn attach_in(devices: &mut Vec<Device>, parent_id: &DeviceId, child: Device) -> (r: Option<
    Device,
>)
    requires
        forest_levels_below(forest_view(old(devices)@), u32::MAX + 1 - tree_size(child@)),
    ensures
        match r {
            None => {
                &&& forest_find(forest_view(old(devices)@), parent_id@) is Some
                &&& forest_view(final(devices)@) == forest_attach(
                    forest_view(old(devices)@),
                    parent_id@,
                    child@,
                )
            },
            Some(c) => {
                &&& forest_find(forest_view(old(devices)@), parent_id@) is None
                &&& forest_view(final(devices)@) == forest_view(old(devices)@)
                &&& c == child
            },
        },
    decreases forest_size(forest_view(old(devices)@)),
{
    let ghost fv = forest_view(devices@);
    let ghost c0 = child@;
    let ghost given = child;
    let ghost bound = u32::MAX + 1 - tree_size(child@);
    proof {
        lemma_forest_view(devices@);
        assert(fv.skip(0) =~= fv);
        assert(fv.take(0) + forest_attach(fv, parent_id@, c0) =~= forest_attach(
            fv,
            parent_id@,
            c0,
        ));
    }
    let mut cur = child;
    let n = devices.len();
    let mut i: usize = 0;
    while i < n
        invariant
            i <= n,
            n == devices.len(),
            fv == forest_view(devices@),
            fv == forest_view(old(devices)@),
            fv.len() == n,
            cur == given,
            child == given,
            given@ == c0,
            bound == u32::MAX + 1 - tree_size(c0),
            forest_levels_below(fv, bound),
            forest_find(fv, parent_id@) == forest_find(fv.skip(i as int), parent_id@),
            forest_attach(fv, parent_id@, c0) == fv.take(i as int) + forest_attach(
                fv.skip(i as int),
                parent_id@,
                c0,
            ),
        decreases n - i,
    {
        let ghost before = devices@;
        let ghost rest = fv.skip(i as int);
        proof {
            lemma_forest_view(before);
            assert(rest[0] == before[i as int]@);
            assert(rest.drop_first() =~= fv.skip(i as int + 1));
            lemma_children_smaller(fv, i as int);
            lemma_levels_below_index(fv, bound, i as int);
            assert(before[i as int]@.children == forest_view(before[i as int].devices@));
        }
        if devices[i].device_id == *parent_id {
            let level = devices[i].tree_level;
            cur.relevel(level + 1);
            let ghost kids = devices[i as int].devices@;
            devices[i].devices.push(cur);
            proof {
                lemma_forest_view(devices@);
                assert(devices@[i as int].devices@.drop_last() =~= kids);
                assert(forest_view(devices@[i as int].devices@) == forest_view(kids).push(
                    tree_relevel(c0, level as nat + 1),
                ));
                assert(forest_view(devices@) =~= fv.take(i as int) + (seq![
                    DeviceTree {
                        children: rest[0].children.push(tree_relevel(c0, rest[0].level + 1)),
                        ..rest[0]
                    },
                ] + rest.drop_first()));
                assert(forest_find(rest, parent_id@) == Some(rest[0]));
                assert(forest_attach(rest, parent_id@, c0) == seq![
                    DeviceTree {
                        children: rest[0].children.push(tree_relevel(c0, rest[0].level + 1)),
                        ..rest[0]
                    },
                ] + rest.drop_first());
            }
            return None;
        }
        match attach_in(&mut devices[i].devices, parent_id, cur) {
            None => {
                proof {
                    lemma_forest_view(devices@);
                    assert(forest_view(devices@) =~= fv.take(i as int) + (seq![
                        DeviceTree {
                            children: forest_attach(rest[0].children, parent_id@, c0),
                            ..rest[0]
                        },
                    ] + rest.drop_first()));
                    assert(forest_find(rest, parent_id@) is Some);
                    assert(forest_attach(rest, parent_id@, c0) == seq![
                        DeviceTree {
                            children: forest_attach(rest[0].children, parent_id@, c0),
                            ..rest[0]
                        },
                    ] + rest.drop_first());
                }
                return None;
            },
            Some(c) => {
                cur = c;
            },
        }
        proof {
            lemma_forest_view(devices@);
            assert(forest_view(devices@) =~= fv);
            assert(fv.take(i as int) + (seq![rest[0]] + forest_attach(
                rest.drop_first(),
                parent_id@,
                c0,
            )) =~= fv.take(i as int + 1) + forest_attach(fv.skip(i as int + 1), parent_id@, c0));
        }
        i += 1;
    }
    proof {
        assert(fv.skip(n as int) =~= Seq::<DeviceTree>::empty());
        assert(fv.take(n as int) =~= fv);
        assert(fv + Seq::<DeviceTree>::empty() =~= fv);
    }
    Some(cur)
}

/// Moves every root of `roots` that declares `node` as its parent below
/// `node`, behind the children that `node` has. The levels of what is
/// moved stay as they are: they are recomputed when `node` is put in its
/// place.
pub fn adopt_orphans(roots: &mut Vec<Device>, node: &mut Device)
    ensures
        forest_view(final(roots)@) == roots_kept(forest_view(old(roots)@), old(node)@.id),
        final(node)@ == tree_adopting(forest_view(old(roots)@), old(node)@),
{
    let ghost g = forest_view(roots@);
    let ghost id = node@.id;
    let ghost n0 = node@;
    let ghost moved: Seq<DeviceTree> = Seq::empty();
    let ghost k: int = 0;
    proof {
        lemma_forest_view(roots@);
        assert(g.skip(0) =~= g);
        assert(g.take(0) + roots_kept(g, id) =~= roots_kept(g, id));
        assert(moved + roots_orphans(g, id) =~= roots_orphans(g, id));
        assert(n0.children + moved =~= n0.children);
    }
    let mut i: usize = 0;
    while i < roots.len()
        invariant
            0 <= k <= g.len(),
            i <= roots.len(),
            roots.len() - i == g.len() - k,
            forest_view(roots@).skip(i as int) == g.skip(k),
            forest_view(roots@).take(i as int) + roots_kept(g.skip(k), id) == roots_kept(g, id),
            moved + roots_orphans(g.skip(k), id) == roots_orphans(g, id),
            node@ == (DeviceTree { children: n0.children + moved, ..n0 }),
            n0.id == id,
        decreases g.len() - k,
    {
        let ghost fv = forest_view(roots@);
        let ghost rest = g.skip(k);
        proof {
            lemma_forest_view(roots@);
            assert(rest[0] == fv.skip(i as int)[0]);
            assert(rest[0] == roots@[i as int]@);
            assert(rest.drop_first() =~= g.skip(k + 1));
        }
        let orphan = match &roots[i].parent_id {
            Some(p) => *p == node.device_id,
            None => false,
        };
        assert(orphan == (rest[0].parent == Some(id)));
        if orphan {
            let o = roots.remove(i);
            let ghost kids = node.devices@;
            node.devices.push(o);
            proof {
                lemma_forest_view(roots@);
                assert(node.devices@.drop_last() =~= kids);
                assert(forest_view(node.devices@) == forest_view(kids).push(rest[0]));
                assert(forest_view(roots@).skip(i as int) =~= g.skip(k + 1));
                assert(forest_view(roots@).take(i as int) =~= fv.take(i as int));
                assert((moved.push(rest[0])) + roots_orphans(g.skip(k + 1), id) =~= moved + (seq![
                    rest[0],
                ] + roots_orphans(rest.drop_first(), id)));
                assert(n0.children + moved.push(rest[0]) =~= (n0.children + moved).push(rest[0]));
                moved = moved.push(rest[0]);
                k = k + 1;
            }
        } else {
            proof {
                assert(fv.skip(i as int + 1) =~= g.skip(k + 1));
                assert(fv.take(i as int + 1) + roots_kept(g.skip(k + 1), id) =~= fv.take(i as int)
                    + (seq![rest[0]] + roots_kept(rest.drop_first(), id)));
                k = k + 1;
            }
            i += 1;
        }
    }
    proof {
        let fv = forest_view(roots@);
        lemma_forest_view(roots@);
        assert(g.skip(k) =~= Seq::<DeviceTree>::empty());
        assert(fv.take(i as int) =~= fv);
        assert(fv + roots_kept(g.skip(k), id) =~= fv);
        assert(moved + roots_orphans(g.skip(k), id) =~= moved);
    }
}

/// What the system is to be asked so that a device changes its state.
#[derive(Debug, Clone, Copy, PartialEq, Eq, Structural)]
pub struct StateChange {
    /// Handle of the device node to act on.
    pub devinst: DeviceInstance,
    /// The state to bring it to.
    pub state: DeviceState,
}

/// The topology of the devices that are present: a forest, kept in step
/// with arrivals and removals.
#[derive(Debug)]
pub struct DeviceTracker {
    /// The devices without a parent in the topology.
    pub devices: Vec<Device>,
}

impl View for DeviceTracker {
    type V = Seq<DeviceTree>;

    open spec fn view(&self) -> Seq<DeviceTree> {
        forest_view(self.devices@)
    }
}

/// The device that arrives with a probe: none where the lookup or the
/// query for the identity failed, and none where the device is a hub.
pub open spec fn arrival(
    probe: Result<(DeviceInstance, DeviceProperties), ConfigManagerError>,
) -> Option<DeviceTree> {
    match probe {
        Err(_) => None,
        Ok((devinst, answers)) => if answers.device_id is Err || is_hub(
            device_of(devinst, answers),
        ) {
            None
        } else {
            Some(device_of(devinst, answers))
        },
    }
}

/// How taking up the device of a probe ends.
pub open spec fn insertion_outcome(
    probe: Result<(DeviceInstance, DeviceProperties), ConfigManagerError>,
) -> Result<(), DeviceInsertionError> {
    match probe {
        Err(e) => Err(DeviceInsertionError::Win32Error(Win32Error::ConfigManagerError(e))),
        Ok((devinst, answers)) => match answers.device_id {
            Err(e) => Err(DeviceInsertionError::Win32Error(e)),
            Ok(_) => if is_hub(device_of(devinst, answers)) {
                Err(DeviceInsertionError::DeviceFilteredNotUsb)
            } else {
                Ok(())
            },
        },
    }
}

/// A copy of an optional identifier.
pub fn clone_parent(parent: &Option<DeviceId>) -> (r: Option<DeviceId>)
    ensures
        opt_id_view(r) == opt_id_view(*parent),
{
    match parent {
        Some(p) => Some(p.clone()),
        None => None,
    }
}

impl DeviceTracker {
    /// The topology is well formed: its roots lie at level 0, every other
    /// device lies one level below its parent and declares it, no identity
    /// occurs twice, and a device is a root only where the parent that it
    /// declares stands nowhere else in the topology. See [`forest_wf`].
    pub open spec fn wf(&self) -> bool {
        forest_wf(self@)
    }

    /// A topology without devices.
    pub fn new() -> (t: DeviceTracker)
        ensures
            t@ == Seq::<DeviceTree>::empty(),
            t.wf(),
    {
        let t = DeviceTracker { devices: Vec::new() };
        proof {
            assert(t@ =~= Seq::<DeviceTree>::empty());
            assert(forest_ids(t@) =~= Multiset::empty());
        }
        t
    }

    /// Looks a device up by its identity, anywhere in the topology.
    pub fn find(&self, device_id: &DeviceId) -> (r: Option<&Device>)
        ensures
            match r {
                Some(d) => forest_find(self@, device_id@) == Some(d@),
                None => forest_find(self@, device_id@) is None,
            },
    {
        find_in(&self.devices, device_id)
    }

    /// Decides what to ask of the system so that the device `device_id`
    /// takes `state`: the request for the device's node, or the error that
    /// the device does not exist where the topology does not hold it.
    pub fn set_device_state(&self, device_id: &DeviceId, state: DeviceState) -> (r: Result<
        StateChange,
        Win32Error,
    >)
        ensures
            match forest_find(self@, device_id@) {
                Some(t) => r == Ok::<StateChange, Win32Error>(
                    StateChange { devinst: DeviceInstance(t.devinst), state: state },
                ),
                None => r == Err::<StateChange, Win32Error>(Win32Error::DeviceNotExist),
            },
    {
        match find_in(&self.devices, device_id) {
            Some(device) => Ok(StateChange { devinst: device.devinst, state: state }),
            None => Err(Win32Error::from_code(ERROR_DEV_NOT_EXIST)),
        }
    }

    /// Takes the device `device_id` out of the topology, with everything
    /// below it, and hands the subtree back. Nothing that stood below the
    /// device stays behind, as a root or elsewhere.
    pub fn remove_device_by_id(&mut self, device_id: &DeviceId) -> (r: Option<Device>)
        ensures
            final(self)@ == forest_remove(old(self)@, device_id@),
            match r {
                Some(d) => forest_find(old(self)@, device_id@) == Some(d@),
                None => forest_find(old(self)@, device_id@) is None && final(self)@ == old(self)@,
            },
            old(self).wf() ==> final(self).wf(),
    {
        proof {
            if self.wf() {
                lemma_remove_wf(self@, device_id@);
            }
            if forest_find(self@, device_id@) is None {
                lemma_remove_absent(self@, device_id@);
            }
        }
        remove_in(&mut self.devices, device_id)
    }

    /// Puts a device that has just arrived into the topology. What the
    /// topology held under the device's identity is replaced. The roots
    /// that declare the device as their parent move below it; with them
    /// the device goes below the parent that it declares where the
    /// topology holds that parent, and else becomes a root. No device is
    /// left as a root while its parent stands elsewhere in the topology.
    pub fn insert_device_into_tree(&mut self, new_device: Device)
        requires
            old(self).wf(),
            new_device@.children.len() == 0,
            forest_size(old(self)@) < u32::MAX,
        ensures
            final(self)@ == forest_insert(old(self)@, new_device@),
            final(self).wf(),
            forest_find(final(self)@, new_device@.id) is Some,
            forest_find(old(self)@, new_device@.id) is None ==> forest_ids(final(self)@)
                == forest_ids(old(self)@).insert(new_device@.id),
    {
        insert_in(&mut self.devices, new_device);
    }

    /// Takes up a device that the system reported as connected. `probe`
    /// holds what the system answered when it was asked for the device:
    /// the failure of the lookup, or the handle with the properties. A
    /// failure is handed on, a hub is refused with an error of its own,
    /// and in both cases the topology stays as it is. Every other device
    /// is put into the topology.
    pub fn insert_device_by_id(
        &mut self,
        probe: Result<(DeviceInstance, DeviceProperties), ConfigManagerError>,
    ) -> (r: Result<(), DeviceInsertionError>)
        requires
            old(self).wf(),
            forest_size(old(self)@) < u32::MAX,
        ensures
            final(self).wf(),
            r == insertion_outcome(probe),
            final(self)@ == (match arrival(probe) {
                Some(c) => forest_insert(old(self)@, c),
                None => old(self)@,
            }),
            forest_hub_free(old(self)@) ==> forest_hub_free(final(self)@),
            r is Ok ==> arrival(probe) is Some && forest_find(
                final(self)@,
                arrival(probe)->0.id,
            ) is Some,
            r is Ok && forest_find(old(self)@, arrival(probe)->0.id) is None ==> forest_ids(
                final(self)@,
            ) == forest_ids(old(self)@).insert(arrival(probe)->0.id),
    {
        let (device_instance, answers) = match probe {
            Ok(found) => found,
            Err(e) => {
                return Err(DeviceInsertionError::Win32Error(Win32Error::from(e)));
            },
        };
        let new_device = match Device::try_from(device_instance, answers) {
            Ok(d) => d,
            Err(e) => {
                return Err(DeviceInsertionError::Win32Error(e));
            },
        };
        if device_filter_function(&new_device) {
            return Err(DeviceInsertionError::DeviceFilteredNotUsb);
        }
        proof {
            if forest_hub_free(self@) {
                assert(forest_hub_free(new_device@.children));
                lemma_insert_hub_free(self@, new_device@);
            }
        }
        insert_in(&mut self.devices, new_device);
        Ok(())
    }

    /// Merges the forest `tree_to_merge` into `base_tree`: every device of
    /// it arrives in `base_tree` alone, a device before the devices below
    /// it, and finds its place as an arrival does.
    pub fn merge_device_trees(base_tree: &mut Vec<Device>, tree_to_merge: Vec<Device>)
        requires
            forest_wf(forest_view(old(base_tree)@)),
            forest_size(forest_view(old(base_tree)@)) + forest_size(forest_view(tree_to_merge@))
                <= u32::MAX,
        ensures
            forest_view(final(base_tree)@) == forest_merge(
                forest_view(old(base_tree)@),
                forest_view(tree_to_merge@),
            ),
            forest_wf(forest_view(final(base_tree)@)),
            (forall|x: Seq<char>|
                forest_ids(forest_view(old(base_tree)@)).count(x) + forest_ids(
                    forest_view(tree_to_merge@),
                ).count(x) <= 1) ==> forest_ids(forest_view(final(base_tree)@)) == forest_ids(
                forest_view(old(base_tree)@),
            ).add(forest_ids(forest_view(tree_to_merge@))),
    {
        let ghost base = forest_view(base_tree@);
        let ghost incoming = forest_view(tree_to_merge@);
        proof {
            if forall|x: Seq<char>|
                forest_ids(base).count(x) + forest_ids(incoming).count(x) <= 1 {
                lemma_merge_ids(base, incoming);
            }
        }
        let mut pending: Vec<Device> = Vec::new();
        proof {
            assert(forest_view(pending@) =~= Seq::<DeviceTree>::empty());
        }
        collect_devices(tree_to_merge, &mut pending);
        let ghost items = forest_view(pending@);
        proof {
            assert(Seq::<DeviceTree>::empty() + forest_flatten(incoming) =~= forest_flatten(
                incoming,
            ));
            lemma_forest_flatten(incoming);
            lemma_forest_view(pending@);
        }
        while pending.len() > 0
            invariant
                forest_wf(forest_view(base_tree@)),
                forest_size(forest_view(base_tree@)) + pending.len() <= u32::MAX,
                forall|i: int|
                    0 <= i < pending.len() ==> (#[trigger] forest_view(
                        pending@,
                    )[i]).children.len() == 0,
                forest_view(pending@).len() == pending.len(),
                forest_insert_all(forest_view(base_tree@), forest_view(pending@))
                    == forest_insert_all(base, items),
            decreases pending.len(),
        {
            let ghost before = pending@;
            let ghost f = forest_view(base_tree@);
            let device = pending.pop().unwrap();
            proof {
                lemma_forest_view(before);
                lemma_forest_view(pending@);
                assert(pending@ =~= before.drop_last());
                assert(forest_view(pending@) =~= forest_view(before).drop_last());
                assert(forest_view(before).last() == device@);
                lemma_insert_size(f, device@);
            }
            insert_in(base_tree, device);
        }
    }
}

/// Puts the device `new_device` into the forest `devices`: see
/// [`DeviceTracker::insert_device_into_tree`].
pub fn insert_in(devices: &mut Vec<Device>, new_device: Device)
    requires
        forest_wf(forest_view(old(devices)@)),
        new_device@.children.len() == 0,
        forest_size(forest_view(old(devices)@)) < u32::MAX,
    ensures
        forest_view(final(devices)@) == forest_insert(forest_view(old(devices)@), new_device@),
        forest_wf(forest_view(final(devices)@)),
        forest_find(forest_view(final(devices)@), new_device@.id) is Some,
        forest_find(forest_view(old(devices)@), new_device@.id) is None ==> forest_ids(
            forest_view(final(devices)@),
        ) == forest_ids(forest_view(old(devices)@)).insert(new_device@.id),
{
    let ghost f = forest_view(devices@);
    let ghost c = new_device@;
    let ghost g = forest_remove(f, c.id);
    proof {
        lemma_insert_wf(f, c);
        if forest_find(f, c.id) is None {
            lemma_insert_fresh(f, c);
        }
        lemma_remove_wf(f, c.id);
        lemma_remove_size(f, c.id);
        lemma_split_size(g, c.id);
        lemma_split_linked(g, c.id, 0);
        lemma_adopting(g, c);
        let kept = roots_kept(g, c.id);
        lemma_forest_linked_levels(kept, None, 0);
        lemma_forest_levels_mono(
            kept,
            forest_size(kept) as int,
            u32::MAX + 1 - tree_size(tree_adopting(g, c)),
        );
    }
    let _ = remove_in(devices, &new_device.device_id);
    let parent = clone_parent(&new_device.parent_id);
    let mut device = new_device;
    adopt_orphans(devices, &mut device);
    match parent {
        Some(p) => {
            match attach_in(devices, &p, device) {
                None => {
                    return ;
                },
                Some(d) => {
                    device = d;
                },
            }
        },
        None => {},
    }
    device.relevel(0);
    let ghost kept = devices@;
    devices.push(device);
    proof {
        assert(devices@.drop_last() =~= kept);
        assert(forest_view(devices@) == forest_view(kept).push(device@));
    }
}

/// Takes the forest `devices` apart: every device of it is added to
/// `collector` alone, behind the devices that stood below it.
pub fn collect_devices(devices: Vec<Device>, collector: &mut Vec<Device>)
    ensures
        forest_view(final(collector)@) == forest_view(old(collector)@) + forest_flatten(
            forest_view(devices@),
        ),
    decreases forest_size(forest_view(devices@)),
{
    let ghost fv = forest_view(devices@);
    let ghost start = forest_view(collector@);
    let ghost given = devices@;
    let mut rest = devices;
    proof {
        lemma_forest_view(given);
        assert(fv.skip(0) =~= fv);
    }
    let n = rest.len();
    let mut k: usize = 0;
    while k < n
        invariant
            k <= n,
            n == given.len(),
            devices@ == given,
            fv == forest_view(given),
            fv.len() == n,
            rest@ == given.skip(k as int),
            forest_view(collector@) + forest_flatten(fv.skip(k as int)) == start + forest_flatten(
                fv,
            ),
        decreases n - k,
    {
        let ghost tail = fv.skip(k as int);
        let ghost so_far = forest_view(collector@);
        let mut device = rest.remove(0);
        let mut children: Vec<Device> = Vec::new();
        core::mem::swap(&mut device.devices, &mut children);
        proof {
            lemma_forest_view(given);
            assert(tail[0] == given[k as int]@);
            assert(tail.drop_first() =~= fv.skip(k as int + 1));
            assert(rest@ =~= given.skip(k as int + 1));
            lemma_children_smaller(fv, k as int);
            assert(forest_view(children@) == tail[0].children);
            assert(forest_view(device.devices@) =~= Seq::<DeviceTree>::empty());
            assert(device@ == tree_leaf(tail[0]));
        }
        collect_devices(children, collector);
        let ghost mid = collector@;
        collector.push(device);
        proof {
            assert(collector@.drop_last() =~= mid);
            assert(forest_view(collector@) == forest_view(mid).push(tree_leaf(tail[0])));
            assert(forest_view(collector@) + forest_flatten(fv.skip(k as int + 1)) =~= so_far + (
            tree_flatten(tail[0]) + forest_flatten(tail.drop_first())));
        }
        k += 1;
    }
    proof {
        assert(fv.skip(n as int) =~= Seq::<DeviceTree>::empty());
        assert(forest_view(collector@) + forest_flatten(fv.skip(n as int)) =~= forest_view(
            collector@,
        ));
    }
}

/// A walk over every device of a topology, depth first: a device is
/// handed out before the devices below it.
pub struct DeviceIterator<'a> {
    /// The devices that wait to be handed out, the next one last.
    pub stack: Vec<&'a Device>,
}

impl<'a> DeviceIterator<'a> {
    /// The trees that the walk has still to go through, the next one last.
    pub open spec fn pending(&self) -> Seq<DeviceTree> {
        Seq::new(self.stack@.len(), |i: int| self.stack@[i]@)
    }

    /// Number of devices that the walk will still hand out.
    pub open spec fn remaining(&self) -> nat {
        forest_size(self.pending())
    }

    /// A walk that starts at the roots `devices`.
    pub fn new(devices: &'a Vec<Device>) -> (it: DeviceIterator<'a>)
        ensures
            it.pending() == forest_view(devices@),
    {
        let mut stack: Vec<&'a Device> = Vec::new();
        let n = devices.len();
        let mut i: usize = 0;
        while i < n
            invariant
                i <= n,
                n == devices.len(),
                stack.len() == i,
                forall|j: int| 0 <= j < i ==> *(#[trigger] stack@[j]) == devices@[j],
            decreases n - i,
        {
            stack.push(&devices[i]);
            i += 1;
        }
        let it = DeviceIterator { stack: stack };
        proof {
            lemma_forest_view(devices@);
            assert(it.pending() =~= forest_view(devices@));
        }
        it
    }

    /// Hands out the next device of the walk, or `None` at its end. The
    /// devices directly below the one handed out are gone through next.
    pub fn next(&mut self) -> (r: Option<&'a Device>)
        ensures
            match r {
                Some(d) => {
                    &&& old(self).pending().len() > 0
                    &&& d@ == old(self).pending().last()
                    &&& final(self).pending() == old(self).pending().drop_last() + d@.children
                    &&& final(self).remaining() + 1 == old(self).remaining()
                },
                None => old(self).pending().len() == 0 && final(self).pending() == old(
                    self,
                ).pending(),
            },
    {
        let ghost before = self.pending();
        match self.stack.pop() {
            Some(device) => {
                let ghost base = self.pending();
                let n = device.devices.len();
                let mut i: usize = 0;
                proof {
                    assert(base =~= before.drop_last());
                    assert(forest_view(device.devices@).take(0) =~= Seq::<DeviceTree>::empty());
                    assert(base + Seq::<DeviceTree>::empty() =~= base);
                }
                while i < n
                    invariant
                        i <= n,
                        n == device.devices.len(),
                        self.pending() == base + forest_view(device.devices@).take(i as int),
                    decreases n - i,
                {
                    let ghost prev = self.pending();
                    self.stack.push(&device.devices[i]);
                    proof {
                        lemma_forest_view(device.devices@);
                        assert(self.pending() =~= prev.push(device.devices@[i as int]@));
                        assert(self.pending() =~= base + forest_view(device.devices@).take(
                            i as int + 1,
                        ));
                    }
                    i += 1;
                }
                proof {
                    lemma_forest_view(device.devices@);
                    let kids = forest_view(device.devices@);
                    assert(kids.take(n as int) =~= kids);
                    assert(device@.children == kids);
                    lemma_walk_step(before);
                }
                Some(device)
            },
            None => None,
        }
    }
}

impl DeviceTracker {
    /// A fresh walk over every device of the topology.
    pub fn iter<'a>(&'a self) -> (it: DeviceIterator<'a>)
        ensures
            it.pending() == self@,
    {
        DeviceIterator::new(&self.devices)
    }
}

/// Where the first root with identity `id` stands among `devices`.
pub fn root_position(devices: &Vec<Device>, id: &DeviceId) -> (r: Option<usize>)
    ensures
        match r {
            Some(k) => root_index(forest_view(devices@), id@) == Some(k as int),
            None => root_index(forest_view(devices@), id@) is None,
        },
{
    let ghost fv = forest_view(devices@);
    let n = devices.len();
    let mut i: usize = 0;
    proof {
        lemma_forest_view(devices@);
    }
    while i < n
        invariant
            i <= n,
            n == devices.len(),
            fv == forest_view(devices@),
            fv.len() == n,
            forall|j: int| 0 <= j < i ==> (#[trigger] fv[j]).id != id@,
        decreases n - i,
    {
        if devices[i].device_id == *id {
            proof {
                lemma_forest_view(devices@);
                lemma_root_index_first(fv, id@, i as int);
            }
            return Some(i);
        }
        proof {
            lemma_forest_view(devices@);
        }
        i += 1;
    }
    proof {
        lemma_root_index(fv, id@);
    }
    None
}

/// Moves the root `id` of `forest` below the parent that it declares,
/// with everything below it, where the rest of the forest holds that
/// parent.
pub fn settle_in(forest: &mut Vec<Device>, id: &DeviceId)
    requires
        forest_linked(forest_view(old(forest)@), None, 0),
        forest_size(forest_view(old(forest)@)) <= u32::MAX,
    ensures
        forest_view(final(forest)@) == forest_settle(forest_view(old(forest)@), id@),
{
    let ghost f = forest_view(forest@);
    proof {
        lemma_forest_view(forest@);
        lemma_root_index(f, id@);
    }
    let k = match root_position(forest, id) {
        Some(k) => k,
        None => {
            return ;
        },
    };
    let parent = match clone_parent(&forest[k].parent_id) {
        Some(p) => p,
        None => {
            return ;
        },
    };
    let ghost before = forest@;
    let device = forest.remove(k);
    proof {
        lemma_forest_view(forest@);
        assert(forest_view(forest@) =~= f.remove(k as int));
        lemma_take_root(f, k as int, None, 0);
        lemma_forest_linked_levels(f.remove(k as int), None, 0);
        lemma_forest_levels_mono(
            f.remove(k as int),
            forest_size(f.remove(k as int)) as int,
            u32::MAX + 1 - tree_size(f[k as int]),
        );
    }
    match attach_in(forest, &parent, device) {
        None => {},
        Some(d) => {
            let ghost rest = forest@;
            proof {
                lemma_forest_view(rest);
                lemma_forest_view(before);
                assert(d@ == f[k as int]);
            }
            forest.insert(k, d);
            proof {
                lemma_forest_view(forest@);
                assert forall|j: int| 0 <= j < f.len() implies forest_view(forest@)[j] == f[j] by {
                    if j < k {
                        assert(forest@[j] == rest[j]);
                        assert(forest_view(rest)[j] == f.remove(k as int)[j]);
                    } else if j > k {
                        assert(forest@[j] == rest[j - 1]);
                        assert(forest_view(rest)[j - 1] == f.remove(k as int)[j - 1]);
                    }
                }
                assert(forest_view(forest@) =~= f);
            }
        },
    }
}

/// Builds the forest of a flat list of devices: every device becomes a
/// root, and one after the other each is moved below the parent that it
/// declares, where that parent is among the devices. A device whose
/// parent is not among them stays a root.
pub fn convert_devices_into_tree(devices: Vec<Device>) -> (forest: Vec<Device>)
    requires
        all_leaves(forest_view(devices@)),
        devices.len() <= u32::MAX,
    ensures
        forest_view(forest@) == forest_built(forest_view(devices@)),
        forest_linked(forest_view(forest@), None, 0),
        forest_ids(forest_view(forest@)) == forest_ids(forest_view(devices@)),
        forest_unique(forest_view(devices@)) ==> forest_wf(forest_view(forest@)),
        forest_unique(forest_view(devices@)) ==> forall|k: int|
            0 <= k < forest@.len() ==> #[trigger] root_settled(forest_view(forest@), k),
{
    let ghost flat = forest_view(devices@);
    let ghost given = devices@;
    let mut forest = devices;
    let mut ids: Vec<DeviceId> = Vec::new();
    let n = forest.len();
    let mut i: usize = 0;
    proof {
        lemma_forest_view(given);
        lemma_built_wf(flat);
        lemma_flat_roots(flat);
        lemma_forest_relevel(flat, 0);
    }
    while i < n
        invariant
            i <= n,
            n == forest.len(),
            n == given.len(),
            devices@ == given,
            flat == forest_view(given),
            flat.len() == n,
            all_leaves(flat),
            ids.len() == i,
            forall|j: int| 0 <= j < i ==> (#[trigger] ids@[j])@ == flat[j].id,
            forall|j: int| 0 <= j < i ==> (#[trigger] forest@[j])@ == tree_relevel(flat[j], 0),
            forall|j: int| i <= j < n ==> forest@[j] == given[j],
        decreases n - i,
    {
        proof {
            lemma_forest_view(given);
            assert(flat[i as int].children.len() == 0);
            assert(tree_size(flat[i as int]) == 1 + forest_size(flat[i as int].children));
        }
        forest[i].relevel(0);
        ids.push(forest[i].device_id.clone());
        i += 1;
    }
    proof {
        lemma_forest_view(forest@);
        lemma_forest_relevel(flat, 0);
        assert(forest_view(forest@) =~= forest_relevel(flat, 0));
        assert(root_id_list(flat).skip(0) =~= root_id_list(flat));
    }
    let mut j: usize = 0;
    while j < n
        invariant
            j <= n,
            n == ids.len(),
            forall|k: int| 0 <= k < n ==> (#[trigger] ids@[k])@ == root_id_list(flat)[k],
            root_id_list(flat).len() == n,
            forest_linked(forest_view(forest@), None, 0),
            forest_size(forest_view(forest@)) == n,
            n <= u32::MAX,
            forest_settle_all(forest_view(forest@), root_id_list(flat).skip(j as int))
                == forest_built(flat),
            all_leaves(flat),
            flat == forest_view(devices@),
        decreases n - j,
    {
        proof {
            let rest = root_id_list(flat).skip(j as int);
            assert(rest[0] == ids@[j as int]@);
            assert(rest.drop_first() =~= root_id_list(flat).skip(j as int + 1));
            lemma_settle_keeps(forest_view(forest@), ids@[j as int]@);
        }
        settle_in(&mut forest, &ids[j]);
        j += 1;
    }
    proof {
        lemma_forest_view(forest@);
        lemma_built_wf(flat);
        if forest_unique(flat) {
            lemma_built_settled(flat);
        }
    }
    forest
}

/// What an enumeration does after it has asked for the device at the
/// next index.
#[derive(Debug, Clone, Copy, PartialEq, Eq, Structural)]
pub enum EnumerationStep {
    /// There was a device: take it up and go on.
    Next,
    /// There are no more devices.
    Done,
    /// The enumeration failed.
    Failed(Win32Error),
}

/// Decides how an enumeration goes on: `found` says whether there was a
/// device at the index, and `last_error` is the system's error code where
/// there was none.
pub fn enumeration_step(found: bool, last_error: u32) -> (step: EnumerationStep)
    ensures
        found ==> step == EnumerationStep::Next,
        !found && last_error == ERROR_NO_MORE_ITEMS ==> step == EnumerationStep::Done,
        !found && last_error != ERROR_NO_MORE_ITEMS ==> step == EnumerationStep::Failed(
            Win32Error::of_code(last_error),
        ),
{
    if found {
        EnumerationStep::Next
    } else if last_error == ERROR_NO_MORE_ITEMS {
        EnumerationStep::Done
    } else {
        EnumerationStep::Failed(Win32Error::from_code(last_error))
    }
}

/// The view of a listing.
pub open spec fn listing_view(listing: Result<Vec<Device>, Win32Error>) -> Result<
    Seq<DeviceTree>,
    Win32Error,
> {
    match listing {
        Ok(found) => Ok(forest_view(found@)),
        Err(e) => Err(e),
    }
}

/// The views of a sequence of listings.
pub open spec fn listings_view(listings: Seq<Result<Vec<Device>, Win32Error>>) -> Seq<
    Result<Seq<DeviceTree>, Win32Error>,
> {
    Seq::new(listings.len(), |i: int| listing_view(listings[i]))
}

impl DeviceTracker {
    /// Builds the forest of the devices that the enumeration of one class
    /// found. Hubs are left out; of the devices with one identity the
    /// last that was found counts.
    pub fn get_listed_devices(found: Vec<Device>) -> (forest: Vec<Device>)
        requires
            all_leaves(forest_view(found@)),
            found.len() <= u32::MAX,
        ensures
            forest_view(forest@) == forest_built(listing_of(forest_view(found@))),
            forest_wf(forest_view(forest@)),
            forest_size(forest_view(forest@)) <= found.len(),
            forest_ids(forest_view(forest@)) == forest_ids(listing_of(forest_view(found@))),
    {
        let ghost given = forest_view(found@);
        let mut rest = found;
        let mut devices: Vec<Device> = Vec::new();
        proof {
            lemma_forest_view(rest@);
            assert(forest_view(devices@) =~= Seq::<DeviceTree>::empty());
            lemma_listing_built(given);
        }
        while rest.len() > 0
            invariant
                all_leaves(forest_view(rest@)),
                listing_clean(forest_view(devices@)),
                forest_view(found@) == given,
                devices.len() + rest.len() <= given.len(),
                given.len() <= u32::MAX,
                listing_into(forest_view(devices@), forest_view(rest@)) == listing_of(given),
            decreases rest.len(),
        {
            let ghost before = rest@;
            let ghost acc = forest_view(devices@);
            let ghost kept = devices@;
            proof {
                lemma_forest_view(before);
                lemma_forest_view(devices@);
            }
            let device = rest.pop().unwrap();
            proof {
                lemma_forest_view(rest@);
                assert(rest@ =~= before.drop_last());
                assert(forest_view(rest@) =~= forest_view(before).drop_last());
                assert(forest_view(before).last() == device@);
                assert(forest_view(before)[before.len() - 1].children.len() == 0);
                lemma_listing_into(acc, seq![device@]);
                lemma_root_index(acc, device@.id);
            }
            let skip = device_filter_function(&device) || root_position(
                &devices,
                &device.device_id,
            ).is_some();
            if !skip {
                devices.push(device);
                proof {
                    assert(devices@.drop_last() =~= kept);
                    assert(forest_view(devices@) == acc.push(device@));
                    let one = seq![device@];
                    assert(one.drop_last() =~= Seq::<DeviceTree>::empty());
                    assert(listing_into(acc, one) == listing_into(
                        acc.push(device@),
                        one.drop_last(),
                    ));
                    lemma_forest_view(devices@);
                }
            }
        }
        proof {
            lemma_forest_view(devices@);
            lemma_clean_unique(forest_view(devices@));
            lemma_built_wf(forest_view(devices@));
        }
        convert_devices_into_tree(devices)
    }

    /// Builds the topology of the devices that are present from the
    /// enumerations of the device classes, one listing for each class and
    /// in their order: the forest of each class is built and merged into
    /// what the classes before it made. The first enumeration that failed
    /// makes the load fail with its error.
    pub fn load(listings: Vec<Result<Vec<Device>, Win32Error>>) -> (r: Result<
        DeviceTracker,
        Win32Error,
    >)
        requires
            listings_flat(listings_view(listings@)),
            listings_count(listings_view(listings@)) <= u32::MAX,
        ensures
            match forest_loaded(Seq::empty(), listings_view(listings@)) {
                Ok(f) => r is Ok && r->Ok_0@ == f && r->Ok_0.wf() && forest_hub_free(f),
                Err(e) => r is Err && r->Err_0 == e,
            },
            (forall|i: int|
                0 <= i < listings@.len() ==> (#[trigger] listings_view(listings@)[i]) is Ok) && (
            forall|x: Seq<char>| listings_ids(listings_view(listings@)).count(x) <= 1) ==> r is Ok
                && forest_ids(r->Ok_0@) == listings_ids(listings_view(listings@)),
    {
        let ghost all = listings_view(listings@);
        proof {
            lemma_loaded_hub_free(Seq::empty(), all);
            let none = Seq::<DeviceTree>::empty();
            assert(forest_ids(none) =~= Multiset::empty());
            if (forall|i: int| 0 <= i < all.len() ==> (#[trigger] all[i]) is Ok) && (forall|
                x: Seq<char>,
            |
                listings_ids(all).count(x) <= 1) {
                assert(forest_wf(none));
                lemma_loaded_ids(none, all);
                assert(forest_ids(none).add(listings_ids(all)) =~= listings_ids(all));
            }
        }
        let mut rest = listings;
        let mut tracker = DeviceTracker::new();
        let n = rest.len();
        let mut k: usize = 0;
        proof {
            assert(all.skip(0) =~= all);
        }
        while k < n
            invariant
                k <= n,
                n == all.len(),
                listings_view(listings@) == all,
                listings_view(rest@) == all.skip(k as int),
                listings_flat(all),
                tracker.wf(),
                forest_size(tracker@) + listings_count(all.skip(k as int)) <= u32::MAX,
                forest_loaded(tracker@, all.skip(k as int)) == forest_loaded(Seq::empty(), all),
            decreases n - k,
        {
            let ghost tail = all.skip(k as int);
            let ghost before = rest@;
            let ghost base = tracker@;
            let listing = rest.remove(0);
            proof {
                assert(tail[0] == listing_view(before[0]));
                assert(tail[0] == all[k as int]);
                assert(tail.drop_first() =~= all.skip(k as int + 1));
                assert(listings_view(rest@) =~= all.skip(k as int + 1));
            }
            let found = match listing {
                Ok(found) => found,
                Err(e) => {
                    return Err(e);
                },
            };
            proof {
                lemma_forest_view(found@);
                lemma_listing_built(forest_view(found@));
                lemma_merge_wf(base, forest_built(listing_of(forest_view(found@))));
            }
            let forest = DeviceTracker::get_listed_devices(found);
            DeviceTracker::merge_device_trees(&mut tracker.devices, forest);
            k += 1;
        }
        proof {
            assert(all.skip(n as int) =~= Seq::<Result<Seq<DeviceTree>, Win32Error>>::empty());
        }
        Ok(tracker)
    }
}

/// Counts the devices of a forest, as far as `limit`.
pub fn count_devices(devices: &Vec<Device>, limit: u64) -> (n: u64)
    ensures
        n == if forest_size(forest_view(devices@)) <= limit {
            forest_size(forest_view(devices@))
        } else {
            limit as nat
        },
    decreases forest_size(forest_view(devices@)),
{
    let ghost fv = forest_view(devices@);
    let mut n: u64 = 0;
    let len = devices.len();
    let mut i: usize = 0;
    proof {
        lemma_forest_view(devices@);
        assert(fv.take(0) =~= Seq::<DeviceTree>::empty());
    }
    while i < len
        invariant
            i <= len,
            len == devices.len(),
            fv == forest_view(devices@),
            fv.len() == len,
            n <= limit,
            n == if forest_size(fv.take(i as int)) <= limit {
                forest_size(fv.take(i as int))
            } else {
                limit as nat
            },
        decreases len - i,
    {
        proof {
            lemma_forest_view(devices@);
            lemma_children_smaller(fv, i as int);
            let head = fv.take(i as int);
            assert(fv.take(i as int + 1) =~= head + seq![fv[i as int]]);
            lemma_size_concat(head, seq![fv[i as int]]);
            lemma_size_single(fv[i as int]);
            assert(tree_size(fv[i as int]) == 1 + forest_size(fv[i as int].children));
            assert(fv[i as int].children == forest_view(devices@[i as int].devices@));
        }
        if n == limit {
            i += 1;
        } else {
            let below = count_devices(&devices[i].devices, limit - n - 1);
            n = n + 1 + below;
            i += 1;
        }
    }
    proof {
        assert(fv.take(len as int) =~= fv);
    }
    n
}

impl DeviceTracker {
    /// Whether the topology can take up one more device: whether it holds
    /// fewer devices than a level can count.
    pub fn has_room(&self) -> (r: bool)
        ensures
            r == (forest_size(self@) < u32::MAX),
    {
        count_devices(&self.devices, 0xffff_ffff) < 0xffff_ffff
    }
}

} // verus!
