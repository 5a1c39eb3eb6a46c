//! The topology as text: one block for each device, indented by its depth.

use crate::device::{forest_size, forest_view, lemma_forest_view, Device, DeviceTree};
use crate::forest::lemma_children_smaller;
use crate::topology::DeviceTracker;
use vstd::prelude::*;

verus! {

/// `n` tabs.
pub open spec fn tabs(n: nat) -> Seq<char> {
    Seq::new(n, |i: int| '\t')
}

/// A text where there is one, else the word `None`.
pub open spec fn text_or_word(o: Option<Seq<char>>) -> Seq<char> {
    match o {
        Some(s) => s,
        None => "None"@,
    }
}

/// One line of a block: the indentation, a label, a value and a line end.
pub open spec fn line(indent: Seq<char>, label: Seq<char>, value: Seq<char>) -> Seq<char> {
    indent + label + value + seq!['\n']
}

/// The lines of a device's own attributes.
pub open spec fn attribute_lines(t: DeviceTree) -> Seq<char> {
    let indent = tabs(t.level);
    line(indent, "Device ID: "@, t.id) + line(
        indent,
        " - Device Service: "@,
        text_or_word(t.service),
    ) + line(indent, " - Device Class: "@, text_or_word(t.class)) + line(
        indent,
        " - Device Friendly Name: "@,
        text_or_word(t.friendly_name),
    ) + line(indent, " - Device Type: "@, text_or_word(t.device_type)) + line(
        indent,
        " - Device Description: "@,
        text_or_word(t.description),
    )
}

/// The block of a device: its attributes, then for each device below it
/// a heading one tab deeper, the block of that device and an empty line.
pub open spec fn tree_text(t: DeviceTree) -> Seq<char>
    decreases t,
{
    attribute_lines(t) + children_text(t.children, t.level)
}

/// The blocks of the devices below a device at depth `level`.
pub open spec fn children_text(f: Seq<DeviceTree>, level: nat) -> Seq<char>
    decreases f,
{
    if f.len() == 0 {
        Seq::empty()
    } else {
        line(tabs(level + 1), "Sub-device:"@, Seq::empty()) + tree_text(f[0]) + seq!['\n']
            + children_text(f.drop_first(), level)
    }
}

/// The text of a topology: the block of each root, each followed by an
/// empty line.
pub open spec fn forest_text(f: Seq<DeviceTree>) -> Seq<char>
    decreases f,
{
    if f.len() == 0 {
        Seq::empty()
    } else {
        tree_text(f[0]) + seq!['\n'] + forest_text(f.drop_first())
    }
}

/// Appends `n` tabs.
fn push_tabs(out: &mut String, n: u64)
    ensures
        final(out)@ == old(out)@ + tabs(n as nat),
{
    let ghost start = out@;
    let mut i: u64 = 0;
    proof {
        assert(start + tabs(0) =~= start);
    }
    while i < n
        invariant
            i <= n,
            out@ == start + tabs(i as nat),
        decreases n - i,
    {
        out.push('\t');
        proof {
            assert(start + tabs(i as nat + 1) =~= (start + tabs(i as nat)).push('\t'));
        }
        i += 1;
    }
}

/// Appends a line: tabs, a label, a value where there is one, else the
/// word `None`, and a line end.
fn push_line(out: &mut String, level: u32, label: &str, value: Option<&str>)
    ensures
        final(out)@ == old(out)@ + line(
            tabs(level as nat),
            label@,
            match value {
                Some(v) => v@,
                None => "None"@,
            },
        ),
{
    let ghost start = out@;
    push_tabs(out, level as u64);
    out.append(label);
    match value {
        Some(v) => {
            out.append(v);
        },
        None => {
            out.append("None");
        },
    }
    out.push('\n');
    proof {
        let v = match value {
            Some(v) => v@,
            None => "None"@,
        };
        assert(out@ =~= start + line(tabs(level as nat), label@, v));
    }
}

/// A text as a slice where there is one.
fn as_text(o: &Option<String>) -> (r: Option<&str>)
    ensures
        match r {
            Some(s) => o is Some && s@ == o->0@,
            None => o is None,
        },
{
    match o {
        Some(s) => Some(s.as_str()),
        None => None,
    }
}

/// Appends the heading in front of the block of a device below a device
/// at depth `level`.
fn push_heading(out: &mut String, level: u32)
    ensures
        final(out)@ == old(out)@ + line(tabs(level as nat + 1), "Sub-device:"@, Seq::empty()),
{
    let ghost start = out@;
    push_tabs(out, level as u64 + 1);
    out.append("Sub-device:");
    out.push('\n');
    proof {
        assert(out@ =~= start + line(tabs(level as nat + 1), "Sub-device:"@, Seq::empty()));
    }
}

impl Device {
    /// Appends the lines of the device's own attributes to `out`.
    fn render_attributes(&self, out: &mut String)
        ensures
            final(out)@ == old(out)@ + attribute_lines(self@),
    {
        let ghost start = out@;
        let level = self.tree_level;
        push_line(out, level, "Device ID: ", Some(self.device_id.as_str()));
        push_line(out, level, " - Device Service: ", as_text(&self.device_service));
        push_line(out, level, " - Device Class: ", as_text(&self.device_class));
        push_line(out, level, " - Device Friendly Name: ", as_text(&self.device_friendly_name));
        push_line(out, level, " - Device Type: ", as_text(&self.device_type));
        push_line(out, level, " - Device Description: ", as_text(&self.device_description));
        proof {
            assert(out@ =~= start + attribute_lines(self@));
        }
    }

    /// Appends the block of the device to `out`.
    pub fn render_into(&self, out: &mut String)
        ensures
            final(out)@ == old(out)@ + tree_text(self@),
        decreases forest_size(forest_view(self.devices@)),
    {
        let ghost start = out@;
        let ghost t = self@;
        let level = self.tree_level;
        self.render_attributes(out);
        proof {
            lemma_forest_view(self.devices@);
            assert(t.children.skip(0) =~= t.children);
            assert(out@ + children_text(t.children, t.level) =~= start + tree_text(t));
        }
        let n = self.devices.len();
        let mut i: usize = 0;
        while i < n
            invariant
                i <= n,
                n == self.devices.len(),
                t == self@,
                t.children == forest_view(self.devices@),
                t.children.len() == n,
                level == t.level,
                out@ + children_text(t.children.skip(i as int), t.level) == start + tree_text(t),
            decreases n - i,
        {
            let ghost before = out@;
            let ghost rest = t.children.skip(i as int);
            proof {
                lemma_forest_view(self.devices@);
                assert(rest[0] == self.devices@[i as int]@);
                assert(rest.drop_first() =~= t.children.skip(i as int + 1));
                lemma_children_smaller(t.children, i as int);
            }
            push_heading(out, level);
            self.devices[i].render_into(out);
            out.push('\n');
            proof {
                let block = line(tabs(t.level + 1), "Sub-device:"@, Seq::empty()) + tree_text(
                    rest[0],
                ) + seq!['\n'];
                assert(out@ =~= before + block);
                assert(children_text(rest, t.level) == block + children_text(
                    rest.drop_first(),
                    t.level,
                ));
                assert(out@ + children_text(t.children.skip(i as int + 1), t.level) =~= before
                    + children_text(rest, t.level));
            }
            i += 1;
        }
        proof {
            assert(t.children.skip(n as int) =~= Seq::<DeviceTree>::empty());
            assert(out@ + children_text(t.children.skip(n as int), t.level) =~= out@);
        }
    }

    /// The block of the device as text.
    pub fn render(&self) -> (s: String)
        ensures
            s@ == tree_text(self@),
    {
        let mut s = String::new();
        self.render_into(&mut s);
        proof {
            assert(Seq::<char>::empty() + tree_text(self@) =~= tree_text(self@));
        }
        s
    }
}

impl DeviceTracker {
    /// The topology as text: the block of each root, each followed by an
    /// empty line.
    pub fn render(&self) -> (s: String)
        ensures
            s@ == forest_text(self@),
    {
        let ghost f = self@;
        let mut s = String::new();
        let n = self.devices.len();
        let mut i: usize = 0;
        proof {
            lemma_forest_view(self.devices@);
            assert(f.skip(0) =~= f);
            assert(s@ + forest_text(f) =~= forest_text(f));
        }
        while i < n
            invariant
                i <= n,
                n == self.devices.len(),
                f == self@,
                f.len() == n,
                s@ + forest_text(f.skip(i as int)) == forest_text(f),
            decreases n - i,
        {
            let ghost before = s@;
            let ghost rest = f.skip(i as int);
            proof {
                lemma_forest_view(self.devices@);
                assert(rest[0] == self.devices@[i as int]@);
                assert(rest.drop_first() =~= f.skip(i as int + 1));
            }
            self.devices[i].render_into(&mut s);
            s.push('\n');
            proof {
                assert(s@ + forest_text(f.skip(i as int + 1)) =~= before + (tree_text(rest[0])
                    + seq!['\n'] + forest_text(rest.drop_first())));
            }
            i += 1;
        }
        proof {
            assert(f.skip(n as int) =~= Seq::<DeviceTree>::empty());
            assert(s@ + forest_text(f.skip(n as int)) =~= s@);
        }
        s
    }
}

} // verus!
