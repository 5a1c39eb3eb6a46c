//! Devices and their identifiers.
//!
//! A [`Device`] is a node of the topology: it owns its children. Contracts
//! speak of a device through its view, a [`DeviceTree`].

use crate::text::{chars_of, text_of, to_uppercase, uppercase_of};
use vstd::prelude::*;
use vstd::std_specs::cmp::PartialEqSpecImpl;
use vstd::std_specs::convert::FromSpecImpl;

verus! {

/// Handle by which the operating system names a device node.
#[derive(Debug, Clone, Copy, PartialEq, Eq, Structural)]
pub struct DeviceInstance(pub u32);

/// Canonical identity of a device: its instance path.
#[derive(Debug, Hash)]
pub struct DeviceId(pub String);

impl View for DeviceId {
    type V = Seq<char>;

    open spec fn view(&self) -> Seq<char> {
        self.0@
    }
}

impl Clone for DeviceId {
    fn clone(&self) -> (r: Self)
        ensures
            r@ == self@,
    {
        DeviceId(self.0.clone())
    }
}

impl PartialEq for DeviceId {
    fn eq(&self, other: &DeviceId) -> (r: bool) {
        self.0 == other.0
    }
}

impl Eq for DeviceId {

}

impl PartialEqSpecImpl for DeviceId {
    open spec fn obeys_eq_spec() -> bool {
        true
    }

    open spec fn eq_spec(&self, other: &DeviceId) -> bool {
        self@ == other@
    }
}

impl From<String> for DeviceId {
    fn from(id: String) -> (r: DeviceId) {
        DeviceId(id)
    }
}

impl FromSpecImpl<String> for DeviceId {
    open spec fn obeys_from_spec() -> bool {
        true
    }

    open spec fn from_spec(id: String) -> DeviceId {
        DeviceId(id)
    }
}

impl DeviceId {
    /// The identifier that `id` spells.
    pub fn new(id: &str) -> (r: DeviceId)
        ensures
            r@ == id@,
    {
        DeviceId(id.to_owned())
    }

    /// The identifier as text.
    pub fn as_str(&self) -> (s: &str)
        ensures
            s@ == self@,
    {
        self.0.as_str()
    }
}

/// The state that a device's driver is asked to take.
#[derive(Debug, Clone, Copy, PartialEq, Eq, Structural)]
pub enum DeviceState {
    /// Load the driver.
    Enable,
    /// Unload the driver.
    Disable,
}

/// Number by which the system knows the request to enable a device.
pub const DICS_ENABLE: u32 = 1;

/// Number by which the system knows the request to disable a device.
pub const DICS_DISABLE: u32 = 2;

impl DeviceState {
    /// The number by which the system knows the state.
    pub fn code(&self) -> (c: u32)
        ensures
            c == (match self {
                DeviceState::Enable => DICS_ENABLE,
                DeviceState::Disable => DICS_DISABLE,
            }),
    {
        match self {
            DeviceState::Enable => DICS_ENABLE,
            DeviceState::Disable => DICS_DISABLE,
        }
    }
}

/// A device as the contracts see it: a node together with its subtree.
pub struct DeviceTree {
    pub devinst: u32,
    pub id: Seq<char>,
    pub parent: Option<Seq<char>>,
    pub level: nat,
    pub children: Seq<DeviceTree>,
    pub service: Option<Seq<char>>,
    pub class: Option<Seq<char>>,
    pub friendly_name: Option<Seq<char>>,
    pub device_type: Option<Seq<char>>,
    pub description: Option<Seq<char>>,
}

/// A device of the system, with the devices below it.
#[derive(Debug)]
pub struct Device {
    /// Handle of the device node.
    pub devinst: DeviceInstance,
    /// Identity of the device, unique in the whole topology.
    pub device_id: DeviceId,
    /// Identity of the parent that the system declared, if any.
    pub parent_id: Option<DeviceId>,
    /// Depth in the topology: 0 for a root.
    pub tree_level: u32,
    /// The devices directly below this one.
    pub devices: Vec<Device>,
    /// Name of the service that drives the device.
    pub device_service: Option<String>,
    /// Setup class of the device.
    pub device_class: Option<String>,
    /// Name under which the system shows the device.
    pub device_friendly_name: Option<String>,
    /// Type identifier of the device.
    pub device_type: Option<String>,
    /// Description of the device.
    pub device_description: Option<String>,
}

/// The view of an optional identifier.
pub open spec fn opt_id_view(o: Option<DeviceId>) -> Option<Seq<char>> {
    match o {
        Some(id) => Some(id@),
        None => None,
    }
}

/// The view of an optional text.
pub open spec fn opt_text_view(o: Option<String>) -> Option<Seq<char>> {
    match o {
        Some(s) => Some(s@),
        None => None,
    }
}

impl View for Device {
    type V = DeviceTree;

    open spec fn view(&self) -> DeviceTree
        decreases self,
    {
        DeviceTree {
            devinst: self.devinst.0,
            id: self.device_id@,
            parent: opt_id_view(self.parent_id),
            level: self.tree_level as nat,
            children: forest_view(self.devices@),
            service: opt_text_view(self.device_service),
            class: opt_text_view(self.device_class),
            friendly_name: opt_text_view(self.device_friendly_name),
            device_type: opt_text_view(self.device_type),
            description: opt_text_view(self.device_description),
        }
    }
}

/// The views of a sequence of devices, in order.
pub open spec fn forest_view(s: Seq<Device>) -> Seq<DeviceTree>
    decreases s,
{
    if s.len() == 0 {
        Seq::empty()
    } else {
        forest_view(s.drop_last()).push(s.last()@)
    }
}

/// `forest_view` keeps length and order.
pub proof fn lemma_forest_view(s: Seq<Device>)
    ensures
        forest_view(s).len() == s.len(),
        forall|i: int| 0 <= i < s.len() ==> (#[trigger] forest_view(s)[i]) == s[i]@,
    decreases s.len(),
{
    if s.len() > 0 {
        lemma_forest_view(s.drop_last());
        assert(forest_view(s) == forest_view(s.drop_last()).push(s.last()@));
    } else {
        assert(forest_view(s) == Seq::<DeviceTree>::empty());
    }
}

/// Number of nodes of a tree.
pub open spec fn tree_size(t: DeviceTree) -> nat
    decreases t,
{
    1 + forest_size(t.children)
}

/// Number of nodes of a forest.
pub open spec fn forest_size(f: Seq<DeviceTree>) -> nat
    decreases f,
{
    if f.len() == 0 {
        0
    } else {
        tree_size(f[0]) + forest_size(f.drop_first())
    }
}

/// A tree of a forest is no larger than the forest.
pub proof fn lemma_forest_size_index(f: Seq<DeviceTree>, i: int)
    requires
        0 <= i < f.len(),
    ensures
        tree_size(f[i]) <= forest_size(f),
    decreases f.len(),
{
    if i > 0 {
        lemma_forest_size_index(f.drop_first(), i - 1);
    }
}

/// The tree `t` moved to depth `level`: the level of every node is recomputed.
pub open spec fn tree_relevel(t: DeviceTree, level: nat) -> DeviceTree
    decreases t,
{
    DeviceTree { level: level, children: forest_relevel(t.children, level + 1), ..t }
}

/// Every tree of `f` moved to depth `level`.
pub open spec fn forest_relevel(f: Seq<DeviceTree>, level: nat) -> Seq<DeviceTree>
    decreases f,
{
    if f.len() == 0 {
        Seq::empty()
    } else {
        seq![tree_relevel(f[0], level)] + forest_relevel(f.drop_first(), level)
    }
}

/// `forest_relevel` keeps length and order.
pub proof fn lemma_forest_relevel(f: Seq<DeviceTree>, level: nat)
    ensures
        forest_relevel(f, level).len() == f.len(),
        forall|i: int|
            0 <= i < f.len() ==> (#[trigger] forest_relevel(f, level)[i]) == tree_relevel(
                f[i],
                level,
            ),
    decreases f.len(),
{
    if f.len() > 0 {
        lemma_forest_relevel(f.drop_first(), level);
        assert(forest_relevel(f, level) == seq![tree_relevel(f[0], level)] + forest_relevel(
            f.drop_first(),
            level,
        ));
    } else {
        assert(forest_relevel(f, level) == Seq::<DeviceTree>::empty());
    }
}

impl Device {
    /// Moves the device to depth `level` and recomputes the level of every
    /// device below it.
    pub fn relevel(&mut self, level: u32)
        requires
            level + tree_size(old(self)@) <= u32::MAX + 1,
        ensures
            final(self)@ == tree_relevel(old(self)@, level as nat),
        decreases tree_size(old(self)@),
    {
        self.tree_level = level;
        let n = self.devices.len();
        let mut i: usize = 0;
        while i < n
            invariant
                i <= n,
                self.devices.len() == n,
                old(self).devices.len() == n,
                self.devinst == old(self).devinst,
                self.device_id == old(self).device_id,
                self.parent_id == old(self).parent_id,
                self.device_service == old(self).device_service,
                self.device_class == old(self).device_class,
                self.device_friendly_name == old(self).device_friendly_name,
                self.device_type == old(self).device_type,
                self.device_description == old(self).device_description,
                self.tree_level == level,
                level + tree_size(old(self)@) <= u32::MAX + 1,
                forall|j: int| i <= j < n ==> self.devices[j] == old(self).devices[j],
                forall|j: int|
                    0 <= j < i ==> (#[trigger] self.devices[j])@ == tree_relevel(
                        old(self).devices[j]@,
                        level as nat + 1,
                    ),
            decreases n - i,
        {
            proof {
                lemma_forest_view(old(self).devices@);
                lemma_forest_size_index(old(self)@.children, i as int);
            }
            self.devices[i].relevel(level + 1);
            i += 1;
        }
        proof {
            lemma_forest_view(old(self).devices@);
            lemma_forest_view(self.devices@);
            lemma_forest_relevel(old(self)@.children, level as nat + 1);
            assert(self@.children =~= tree_relevel(old(self)@, level as nat).children);
        }
    }
}

/// The marker in front of a raw device interface path.
pub open spec fn path_marker() -> Seq<char> {
    seq!['\\', '\\', '?', '\\']
}

/// The path without the marker in front of it, where it has one.
pub open spec fn without_marker(path: Seq<char>) -> Seq<char> {
    if path.len() >= 4 && path.take(4) == path_marker() {
        path.skip(4)
    } else {
        path
    }
}

/// The path up to its last `#`: all of it where it has none.
pub open spec fn without_suffix(path: Seq<char>) -> Seq<char>
    decreases path.len(),
{
    if !path.contains('#') {
        path
    } else if path.last() == '#' {
        path.drop_last()
    } else {
        without_suffix(path.drop_last())
    }
}

/// The path with `\` in the place of every `#`.
pub open spec fn with_separators(path: Seq<char>) -> Seq<char> {
    Seq::new(path.len(), |i: int| if path[i] == '#' { '\\' } else { path[i] })
}

/// The instance path that a raw device interface path names, before its
/// letters are made upper case: the marker in front is stripped, what
/// follows the last `#` is dropped with it, and every `#` that is left
/// becomes `\`.
pub open spec fn instance_path(path: Seq<char>) -> Seq<char> {
    with_separators(without_suffix(without_marker(path)))
}

/// The instance path that a raw device interface path names, in the case
/// in which the path spells it.
pub fn interface_path_to_instance_path(device_path: &str) -> (r: String)
    ensures
        r@ == instance_path(device_path@),
{
    let chars = chars_of(device_path);
    let n = chars.len();
    let start: usize = if n >= 4 && chars[0] == '\\' && chars[1] == '\\' && chars[2] == '?'
        && chars[3] == '\\' {
        4
    } else {
        0
    };
    let ghost body = without_marker(chars@);
    proof {
        if n >= 4 {
            assert(chars@.take(4) =~= path_marker() <==> start == 4) by {
                if start == 4 {
                    assert(chars@.take(4) =~= path_marker());
                } else {
                    if chars@.take(4) == path_marker() {
                        assert(chars@.take(4)[0] == path_marker()[0]);
                        assert(chars@.take(4)[1] == path_marker()[1]);
                        assert(chars@.take(4)[2] == path_marker()[2]);
                        assert(chars@.take(4)[3] == path_marker()[3]);
                    }
                }
            }
        }
        assert(body =~= chars@.skip(start as int));
        assert(chars@.subrange(start as int, n as int) =~= body);
    }
    let mut end: usize = n;
    while end > start && chars[end - 1] != '#'
        invariant
            start <= end <= n,
            n == chars.len(),
            body == chars@.skip(start as int),
            forall|j: int| end <= j < n ==> chars@[j] != '#',
        decreases end,
    {
        end -= 1;
    }
    let ghost kept: Seq<char>;
    proof {
        if end > start {
            kept = chars@.subrange(start as int, end - 1);
            lemma_without_suffix(body, end - 1 - start);
        } else {
            kept = body;
            assert forall|j: int| 0 <= j < body.len() implies body[j] != '#' by {
                assert(body[j] == chars@[start + j]);
            }
            assert(!body.contains('#'));
        }
        assert(kept == without_suffix(body));
    }
    let stop: usize = if end > start {
        end - 1
    } else {
        n
    };
    let mut out: Vec<char> = Vec::new();
    let mut i: usize = start;
    proof {
        assert(kept =~= chars@.subrange(start as int, stop as int));
    }
    while i < stop
        invariant
            start <= i <= stop <= n,
            n == chars.len(),
            kept == chars@.subrange(start as int, stop as int),
            out@ == with_separators(kept).take(i - start),
        decreases stop - i,
    {
        let c = chars[i];
        if c == '#' {
            out.push('\\');
        } else {
            out.push(c);
        }
        proof {
            assert(with_separators(kept).take(i - start + 1) =~= with_separators(kept).take(
                i - start,
            ).push(with_separators(kept)[i - start]));
        }
        i += 1;
    }
    proof {
        assert(with_separators(kept).take(stop - start) =~= with_separators(kept));
    }
    text_of(&out)
}

/// A path whose last `#` stands at `k` is cut there.
pub proof fn lemma_without_suffix(path: Seq<char>, k: int)
    requires
        0 <= k < path.len(),
        path[k] == '#',
        forall|j: int| k < j < path.len() ==> path[j] != '#',
    ensures
        without_suffix(path) == path.take(k),
    decreases path.len(),
{
    assert(path.contains('#'));
    if k == path.len() - 1 {
        assert(path.drop_last() =~= path.take(k));
    } else {
        let head = path.drop_last();
        assert(head[k] == '#');
        lemma_without_suffix(head, k);
        assert(head.take(k) =~= path.take(k));
    }
}

/// The identity of the device that a raw device interface path names:
/// the instance path, in upper case.
pub fn device_path_to_device_id(device_path: &str) -> (id: DeviceId)
    ensures
        id@ == uppercase_of(instance_path(device_path@)),
{
    let path = interface_path_to_instance_path(device_path);
    DeviceId(to_uppercase(path.as_str()))
}

/// Whether a device is a hub: whether its service is one of the hub
/// drivers. Hubs are kept out of the topology.
pub open spec fn is_hub(t: DeviceTree) -> bool {
    t.service == Some("usbhub3"@) || t.service == Some("usbhub"@)
}

/// Whether the device is to be kept out of the topology: whether it is a
/// hub.
pub fn device_filter_function(device: &Device) -> (r: bool)
    ensures
        r == is_hub(device@),
{
    match &device.device_service {
        Some(service) => {
            let hub3 = String::from_str("usbhub3");
            let hub = String::from_str("usbhub");
            *service == hub3 || *service == hub
        },
        None => false,
    }
}

} // verus!
