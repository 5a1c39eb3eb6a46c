//! The access policy: the list of devices that are authorised to stay
//! enabled, how it is kept as a blob, and what enforcing it asks for.

use crate::building::root_id_list;
use crate::device::{lemma_forest_view, DeviceId, DeviceState, DeviceTree};
use crate::error::Win32Error;
use crate::forest::{forest_find, lemma_find_ids, lemma_walk_visits_all, root_ids, walk_order};
use crate::hex::{decode_hex, encode_hex, hex_decoded, hex_text, lemma_hex_round_trip, HexError};
use crate::text::text_from_utf8;
use crate::topology::DeviceTracker;
use vstd::multiset::Multiset;
use vstd::prelude::*;
use vstd::utf8::{
    decode_utf8, encode_utf8, encode_utf8_decode_utf8, encode_utf8_valid_utf8, valid_utf8,
};

verus! {

/// Why the persisted list could not be read.
#[derive(Debug, Clone, Copy, PartialEq, Eq, Structural)]
pub enum WhitelistError {
    /// The secret store holds no list.
    StoreEmpty,
    /// The blob is no hexadecimal text.
    Hex(HexError),
    /// The data ends inside the length of a record.
    TruncatedLength,
    /// The data ends inside the text of a record.
    TruncatedText,
    /// The text of a record is not UTF-8.
    InvalidUtf8,
}

/// The `width` low bytes of `n`, the lowest first.
pub open spec fn le_bytes(n: nat, width: nat) -> Seq<u8>
    decreases width,
{
    if width == 0 {
        Seq::empty()
    } else {
        seq![(n % 256) as u8] + le_bytes(n / 256, (width - 1) as nat)
    }
}

/// The number that `bytes` spell, the lowest byte first.
pub open spec fn le_value(bytes: Seq<u8>) -> nat
    decreases bytes.len(),
{
    if bytes.len() == 0 {
        0
    } else {
        bytes[0] as nat + 256 * le_value(bytes.drop_first())
    }
}

/// 256 to the power of `width`.
pub open spec fn pow256(width: nat) -> nat
    decreases width,
{
    if width == 0 {
        1
    } else {
        256 * pow256((width - 1) as nat)
    }
}

/// A number that fits into `width` bytes is read back from them.
pub proof fn lemma_le_round_trip(n: nat, width: nat)
    requires
        n < pow256(width),
    ensures
        le_bytes(n, width).len() == width,
        le_value(le_bytes(n, width)) == n,
    decreases width,
{
    if width > 0 {
        lemma_le_round_trip(n / 256, (width - 1) as nat);
        let b = le_bytes(n, width);
        assert(b.drop_first() =~= le_bytes(n / 256, (width - 1) as nat));
    }
}

/// Eight bytes hold every number under 2 to the power of 64.
pub proof fn lemma_pow256_8()
    ensures
        pow256(8) == 0x1_0000_0000_0000_0000,
{
    reveal_with_fuel(pow256, 9);
}

/// The record of one identifier: the length of its UTF-8 text in eight
/// bytes, the lowest first, then the text.
pub open spec fn record_bytes(id: Seq<char>) -> Seq<u8> {
    le_bytes(encode_utf8(id).len(), 8) + encode_utf8(id)
}

/// The records of `ids`, one after the other.
pub open spec fn serialized(ids: Seq<Seq<char>>) -> Seq<u8>
    decreases ids.len(),
{
    if ids.len() == 0 {
        Seq::empty()
    } else {
        record_bytes(ids[0]) + serialized(ids.drop_first())
    }
}

/// The identifier `head`, followed by what `tail` parsed to.
pub open spec fn records_prepend(
    head: Seq<Seq<char>>,
    tail: Result<Seq<Seq<char>>, WhitelistError>,
) -> Result<Seq<Seq<char>>, WhitelistError> {
    match tail {
        Ok(rest) => Ok(head + rest),
        Err(e) => Err(e),
    }
}

/// The identifiers whose records `bytes` hold, in order; an error where
/// the data ends inside a record or a text is not UTF-8.
pub open spec fn parsed(bytes: Seq<u8>) -> Result<Seq<Seq<char>>, WhitelistError>
    decreases bytes.len(),
{
    if bytes.len() == 0 {
        Ok(Seq::empty())
    } else if bytes.len() < 8 {
        Err(WhitelistError::TruncatedLength)
    } else {
        let n = le_value(bytes.take(8)) as int;
        if bytes.len() - 8 < n {
            Err(WhitelistError::TruncatedText)
        } else {
            let text = bytes.subrange(8, 8 + n);
            if !valid_utf8(text) {
                Err(WhitelistError::InvalidUtf8)
            } else {
                records_prepend(seq![decode_utf8(text)], parsed(bytes.skip(8 + n)))
            }
        }
    }
}

/// Reading back the records that were written gives the identifiers that
/// were written, in order.
pub proof fn lemma_records_round_trip(ids: Seq<Seq<char>>)
    requires
        forall|i: int| 0 <= i < ids.len() ==> encode_utf8(#[trigger] ids[i]).len() < pow256(8),
    ensures
        parsed(serialized(ids)) == Ok::<Seq<Seq<char>>, WhitelistError>(ids),
    decreases ids.len(),
{
    if ids.len() == 0 {
        assert(ids =~= Seq::<Seq<char>>::empty());
    } else {
        let id = ids[0];
        let rest = ids.drop_first();
        let text = encode_utf8(id);
        let bytes = serialized(ids);
        assert forall|i: int| 0 <= i < rest.len() implies encode_utf8(#[trigger] rest[i]).len()
            < pow256(8) by {
            assert(rest[i] == ids[i + 1]);
        }
        lemma_records_round_trip(rest);
        lemma_le_round_trip(text.len(), 8);
        encode_utf8_valid_utf8(id);
        encode_utf8_decode_utf8(id);
        assert(bytes == record_bytes(id) + serialized(rest));
        assert(bytes.take(8) =~= le_bytes(text.len(), 8));
        assert(bytes.subrange(8, 8 + text.len() as int) =~= text);
        assert(bytes.skip(8 + text.len() as int) =~= serialized(rest));
        assert(seq![id] + rest =~= ids);
    }
}

/// The identifiers of a list, as texts.
pub open spec fn ids_view(list: Seq<DeviceId>) -> Seq<Seq<char>> {
    Seq::new(list.len(), |i: int| list[i]@)
}

/// The list `ids` without repetitions: of equal identifiers the first
/// stays.
pub open spec fn distinct(ids: Seq<Seq<char>>) -> Seq<Seq<char>>
    decreases ids.len(),
{
    if ids.len() == 0 {
        Seq::empty()
    } else {
        list_with(distinct(ids.drop_last()), ids.last())
    }
}

/// The list with `id` added at its end, unless the list holds it.
pub open spec fn list_with(list: Seq<Seq<char>>, id: Seq<char>) -> Seq<Seq<char>> {
    if list.contains(id) {
        list
    } else {
        list.push(id)
    }
}

/// The list without the identifiers equal to `id`.
pub open spec fn list_without(list: Seq<Seq<char>>, id: Seq<char>) -> Seq<Seq<char>>
    decreases list.len(),
{
    if list.len() == 0 {
        Seq::empty()
    } else if list.last() == id {
        list_without(list.drop_last(), id)
    } else {
        list_without(list.drop_last(), id).push(list.last())
    }
}

/// Appends the eight bytes of `len`, the lowest first.
fn push_length(out: &mut Vec<u8>, len: u64)
    ensures
        final(out)@ == old(out)@ + le_bytes(len as nat, 8),
{
    let ghost before = out@;
    out.push((len % 256) as u8);
    out.push((len / 0x100 % 256) as u8);
    out.push((len / 0x1_0000 % 256) as u8);
    out.push((len / 0x100_0000 % 256) as u8);
    out.push((len / 0x1_0000_0000 % 256) as u8);
    out.push((len / 0x100_0000_0000 % 256) as u8);
    out.push((len / 0x1_0000_0000_0000 % 256) as u8);
    out.push((len / 0x100_0000_0000_0000 % 256) as u8);
    proof {
        reveal_with_fuel(le_bytes, 9);
        let n = len as nat;
        assert(n / 256 / 256 == n / 0x1_0000);
        assert(n / 256 / 256 / 256 == n / 0x100_0000);
        assert(n / 256 / 256 / 256 / 256 == n / 0x1_0000_0000);
        assert(n / 256 / 256 / 256 / 256 / 256 == n / 0x100_0000_0000);
        assert(n / 256 / 256 / 256 / 256 / 256 / 256 == n / 0x1_0000_0000_0000);
        assert(n / 256 / 256 / 256 / 256 / 256 / 256 / 256 == n / 0x100_0000_0000_0000);
        assert(out@ =~= before + le_bytes(n, 8));
    }
}

/// The number that bytes spell from `k` on: the byte at `k`, and 256 times
/// what the bytes behind it spell.
pub proof fn lemma_le_value_step(bytes: Seq<u8>, k: int)
    requires
        0 <= k < bytes.len(),
    ensures
        le_value(bytes.skip(k)) == bytes[k] as nat + 256 * le_value(bytes.skip(k + 1)),
{
    assert(bytes.skip(k).drop_first() =~= bytes.skip(k + 1));
}

/// Reads the number that the eight bytes from `at` on spell.
fn read_length(bytes: &[u8], at: usize) -> (len: u64)
    requires
        at + 8 <= bytes.len(),
    ensures
        len == le_value(bytes@.subrange(at as int, at + 8)),
{
    let ghost b = bytes@.subrange(at as int, at + 8);
    proof {
        assert(b.skip(0) =~= b);
        lemma_le_value_step(b, 0);
        lemma_le_value_step(b, 1);
        lemma_le_value_step(b, 2);
        lemma_le_value_step(b, 3);
        lemma_le_value_step(b, 4);
        lemma_le_value_step(b, 5);
        lemma_le_value_step(b, 6);
        lemma_le_value_step(b, 7);
        assert(b.skip(8).len() == 0);
    }
    let b0 = bytes[at] as u64;
    let b1 = bytes[at + 1] as u64;
    let b2 = bytes[at + 2] as u64;
    let b3 = bytes[at + 3] as u64;
    let b4 = bytes[at + 4] as u64;
    let b5 = bytes[at + 5] as u64;
    let b6 = bytes[at + 6] as u64;
    let b7 = bytes[at + 7] as u64;
    b0 + b1 * 0x100 + b2 * 0x1_0000 + b3 * 0x100_0000 + b4 * 0x1_0000_0000 + b5
        * 0x100_0000_0000 + b6 * 0x1_0000_0000_0000 + b7 * 0x100_0000_0000_0000
}

/// Writes a list of identifiers as records: for each its length in eight
/// bytes, the lowest first, and its UTF-8 text.
pub fn serialize_set_bytes(set: &Vec<DeviceId>) -> (out: Vec<u8>)
    ensures
        out@ == serialized(ids_view(set@)),
        parsed(out@) == Ok::<Seq<Seq<char>>, WhitelistError>(ids_view(set@)),
{
    let ghost ids = ids_view(set@);
    let mut out: Vec<u8> = Vec::new();
    let n = set.len();
    let mut i: usize = 0;
    proof {
        assert(ids.skip(0) =~= ids);
        assert(out@ + serialized(ids) =~= serialized(ids));
    }
    while i < n
        invariant
            i <= n,
            n == set.len(),
            ids == ids_view(set@),
            out@ + serialized(ids.skip(i as int)) == serialized(ids),
            forall|j: int| 0 <= j < i ==> encode_utf8(#[trigger] ids[j]).len() <= usize::MAX,
        decreases n - i,
    {
        let ghost before = out@;
        let ghost rest = ids.skip(i as int);
        let text = set[i].as_str().as_bytes();
        let len = text.len();
        push_length(&mut out, len as u64);
        let mut k: usize = 0;
        let ghost mid = out@;
        while k < len
            invariant
                k <= len,
                len == text.len(),
                out@ == mid + text@.take(k as int),
            decreases len - k,
        {
            out.push(text[k]);
            proof {
                assert(text@.take(k as int + 1) =~= text@.take(k as int).push(text@[k as int]));
            }
            k += 1;
        }
        proof {
            assert(text@.take(len as int) =~= text@);
            assert(rest[0] == set@[i as int]@);
            assert(rest.drop_first() =~= ids.skip(i as int + 1));
            assert(out@ + serialized(ids.skip(i as int + 1)) =~= before + (record_bytes(rest[0])
                + serialized(rest.drop_first())));
        }
        i += 1;
    }
    proof {
        assert(ids.skip(n as int) =~= Seq::<Seq<char>>::empty());
        assert(out@ + serialized(ids.skip(n as int)) =~= out@);
        lemma_pow256_8();
        lemma_records_round_trip(ids);
    }
    out
}

/// Whether the list holds the identifier.
pub fn contains_id(list: &Vec<DeviceId>, id: &DeviceId) -> (r: bool)
    ensures
        r == ids_view(list@).contains(id@),
{
    let n = list.len();
    let mut i: usize = 0;
    while i < n
        invariant
            i <= n,
            n == list.len(),
            forall|j: int| 0 <= j < i ==> ids_view(list@)[j] != id@,
        decreases n - i,
    {
        if list[i] == *id {
            assert(ids_view(list@)[i as int] == id@);
            return true;
        }
        i += 1;
    }
    false
}

/// Reads a list of identifiers back from its records. Identifiers that
/// occur again are dropped. Data that ends inside a record, or a text
/// that is not UTF-8, is an error.
pub fn deserialize_set_bytes(bytes: &[u8]) -> (r: Result<Vec<DeviceId>, WhitelistError>)
    ensures
        match parsed(bytes@) {
            Ok(ids) => r is Ok && ids_view(r->Ok_0@) == distinct(ids),
            Err(e) => r == Err::<Vec<DeviceId>, WhitelistError>(e),
        },
{
    let mut out: Vec<DeviceId> = Vec::new();
    let ghost done: Seq<Seq<char>> = Seq::empty();
    let n = bytes.len();
    let mut i: usize = 0;
    proof {
        assert(bytes@.skip(0) =~= bytes@);
        assert(ids_view(out@) =~= distinct(done));
        if parsed(bytes@) is Ok {
            assert(done + parsed(bytes@)->Ok_0 =~= parsed(bytes@)->Ok_0);
        }
    }
    while i < n
        invariant
            i <= n,
            n == bytes.len(),
            ids_view(out@) == distinct(done),
            parsed(bytes@) == records_prepend(done, parsed(bytes@.skip(i as int))),
        decreases n - i,
    {
        let ghost rest = bytes@.skip(i as int);
        if n - i < 8 {
            return Err(WhitelistError::TruncatedLength);
        }
        let len = read_length(bytes, i);
        proof {
            assert(rest.take(8) =~= bytes@.subrange(i as int, i + 8));
        }
        let room = (n - i - 8) as u64;
        if room < len {
            return Err(WhitelistError::TruncatedText);
        }
        let len = len as usize;
        let text = vstd::slice::slice_subrange(bytes, i + 8, i + 8 + len);
        proof {
            assert(rest.subrange(8, 8 + len as int) =~= text@);
            assert(rest.skip(8 + len as int) =~= bytes@.skip(i + 8 + len));
        }
        match text_from_utf8(text) {
            None => {
                return Err(WhitelistError::InvalidUtf8);
            },
            Some(s) => {
                let id = DeviceId(s);
                let ghost before = ids_view(out@);
                if !contains_id(&out, &id) {
                    out.push(id);
                }
                proof {
                    assert(done.push(id@).drop_last() =~= done);
                    assert(ids_view(out@) =~= list_with(before, id@));
                    let tail = parsed(bytes@.skip(i + 8 + len));
                    if tail is Ok {
                        assert(done.push(id@) + tail->Ok_0 =~= done + (seq![id@] + tail->Ok_0));
                    }
                    done = done.push(id@);
                }
            },
        }
        i = i + 8 + len;
    }
    proof {
        assert(bytes@.skip(n as int) =~= Seq::<u8>::empty());
        assert(done + Seq::<Seq<char>>::empty() =~= done);
    }
    Ok(out)
}

/// What a list without `id` holds: the identifiers of the list but `id`.
pub proof fn lemma_list_without(list: Seq<Seq<char>>, id: Seq<char>)
    ensures
        forall|x: Seq<char>|
            #[trigger] list_without(list, id).contains(x) <==> list.contains(x) && x != id,
        list.no_duplicates() ==> list_without(list, id).no_duplicates(),
        !list.contains(id) ==> list_without(list, id) == list,
    decreases list.len(),
{
    if list.len() > 0 {
        let head = list.drop_last();
        let r = list_without(head, id);
        lemma_list_without(head, id);
        assert forall|x: Seq<char>| #[trigger]
            list_without(list, id).contains(x) <==> list.contains(x) && x != id by {
            if list.contains(x) {
                let i = choose|i: int| 0 <= i < list.len() && list[i] == x;
                if i < head.len() {
                    assert(head[i] == x);
                    assert(head.contains(x));
                }
            }
            if head.contains(x) {
                let i = choose|i: int| 0 <= i < head.len() && head[i] == x;
                assert(list[i] == x);
            }
            if list.last() != id {
                assert(r.push(list.last())[r.len() as int] == list.last());
                if r.contains(x) {
                    let i = choose|i: int| 0 <= i < r.len() && r[i] == x;
                    assert(r.push(list.last())[i] == x);
                }
            }
        }
        if list.no_duplicates() {
            assert forall|i: int, j: int| 0 <= i < head.len() && 0 <= j < head.len() && i != j
                implies head[i] != head[j] by {
                assert(list[i] != list[j]);
            }
            if list.last() != id {
                if r.contains(list.last()) {
                    let i = choose|i: int| 0 <= i < head.len() && head[i] == list.last();
                    assert(list[i] == list[list.len() - 1]);
                }
            }
        }
        if !list.contains(id) {
            assert(list[list.len() - 1] != id);
            if head.contains(id) {
                let i = choose|i: int| 0 <= i < head.len() && head[i] == id;
                assert(list[i] == id);
            }
            assert(r.push(list.last()) =~= list);
        }
    }
}

/// A list without repetitions is kept as it is, and adding to it keeps it
/// free of them.
pub proof fn lemma_distinct_fixed(list: Seq<Seq<char>>)
    ensures
        distinct(list).no_duplicates(),
        list.no_duplicates() ==> distinct(list) == list,
        forall|x: Seq<char>| #[trigger] distinct(list).contains(x) <==> list.contains(x),
    decreases list.len(),
{
    if list.len() > 0 {
        let head = list.drop_last();
        let d = distinct(head);
        lemma_distinct_fixed(head);
        assert forall|x: Seq<char>| #[trigger] distinct(list).contains(x) <==> list.contains(
            x,
        ) by {
            if list.contains(x) {
                let i = choose|i: int| 0 <= i < list.len() && list[i] == x;
                if i < head.len() {
                    assert(head[i] == x);
                    assert(head.contains(x));
                }
            }
            if head.contains(x) {
                let i = choose|i: int| 0 <= i < head.len() && head[i] == x;
                assert(list[i] == x);
            }
            if !d.contains(list.last()) {
                assert(d.push(list.last())[d.len() as int] == list.last());
                if d.contains(x) {
                    let i = choose|i: int| 0 <= i < d.len() && d[i] == x;
                    assert(d.push(list.last())[i] == x);
                }
            } else {
                assert(list[list.len() - 1] == list.last());
            }
        }
        if list.no_duplicates() {
            assert forall|i: int, j: int| 0 <= i < head.len() && 0 <= j < head.len() && i != j
                implies head[i] != head[j] by {
                assert(list[i] != list[j]);
            }
            if head.contains(list.last()) {
                let i = choose|i: int| 0 <= i < head.len() && head[i] == list.last();
                assert(list[i] == list[list.len() - 1]);
            }
            assert(d.push(list.last()) =~= list);
        }
    }
}

/// The list that a blob holds: the identifiers of its records, each once;
/// an error where the store is empty or the blob is damaged.
pub open spec fn blob_entries(stored: Option<Seq<char>>) -> Result<Seq<Seq<char>>, WhitelistError> {
    match stored {
        None => Err(WhitelistError::StoreEmpty),
        Some(text) => match hex_decoded(encode_utf8(text)) {
            Err(e) => Err(WhitelistError::Hex(e)),
            Ok(bytes) => match parsed(bytes) {
                Err(e) => Err(e),
                Ok(ids) => Ok(distinct(ids)),
            },
        },
    }
}

/// The state that the policy asks for a device: enabled where the list
/// holds the device, disabled where it does not.
pub open spec fn state_for(id: Seq<char>, allowed: Seq<Seq<char>>) -> DeviceState {
    if allowed.contains(id) {
        DeviceState::Enable
    } else {
        DeviceState::Disable
    }
}

/// What enforcing the list `allowed` asks for the devices of `order`,
/// one decision for each device and in that order.
pub open spec fn decisions(order: Seq<DeviceTree>, allowed: Seq<Seq<char>>) -> Seq<
    (Seq<char>, DeviceState),
> {
    Seq::new(order.len(), |i: int| (order[i].id, state_for(order[i].id, allowed)))
}

/// The decisions of a plan, as the contracts see them.
pub open spec fn plan_view(plan: Seq<(DeviceId, DeviceState)>) -> Seq<(Seq<char>, DeviceState)> {
    Seq::new(plan.len(), |i: int| (plan[i].0@, plan[i].1))
}

/// The states of the devices after the decisions of `plan` were carried
/// out one by one on the states `states`.
pub open spec fn enforce(
    states: Map<Seq<char>, DeviceState>,
    plan: Seq<(Seq<char>, DeviceState)>,
) -> Map<Seq<char>, DeviceState>
    decreases plan.len(),
{
    if plan.len() == 0 {
        states
    } else {
        enforce(states, plan.drop_last()).insert(plan.last().0, plan.last().1)
    }
}

/// After a plan was carried out, every device that it names has the state
/// that the plan's last decision for it asks for.
pub proof fn lemma_enforce_sets(
    states: Map<Seq<char>, DeviceState>,
    order: Seq<DeviceTree>,
    allowed: Seq<Seq<char>>,
)
    ensures
        forall|i: int|
            0 <= i < order.len() ==> {
                &&& enforce(states, decisions(order, allowed)).dom().contains(
                    (#[trigger] order[i]).id,
                )
                &&& enforce(states, decisions(order, allowed))[order[i].id] == state_for(
                    order[i].id,
                    allowed,
                )
            },
    decreases order.len(),
{
    if order.len() > 0 {
        let head = order.drop_last();
        lemma_enforce_sets(states, head, allowed);
        assert(decisions(order, allowed).drop_last() =~= decisions(head, allowed));
        assert forall|i: int| 0 <= i < order.len() implies {
            &&& enforce(states, decisions(order, allowed)).dom().contains((#[trigger] order[i]).id)
            &&& enforce(states, decisions(order, allowed))[order[i].id] == state_for(
                order[i].id,
                allowed,
            )
        } by {
            if i < head.len() {
                assert(head[i] == order[i]);
            }
        }
    }
}

/// Carrying out part of a plan on states that the whole plan has shaped
/// changes nothing.
pub proof fn lemma_enforce_again(
    states: Map<Seq<char>, DeviceState>,
    order: Seq<DeviceTree>,
    allowed: Seq<Seq<char>>,
)
    requires
        forall|i: int|
            0 <= i < order.len() ==> states.dom().contains((#[trigger] order[i]).id)
                && states[order[i].id] == state_for(order[i].id, allowed),
    ensures
        enforce(states, decisions(order, allowed)) == states,
    decreases order.len(),
{
    if order.len() > 0 {
        let head = order.drop_last();
        assert forall|i: int| 0 <= i < head.len() implies states.dom().contains(
            (#[trigger] head[i]).id,
        ) && states[head[i].id] == state_for(head[i].id, allowed) by {
            assert(head[i] == order[i]);
        }
        lemma_enforce_again(states, head, allowed);
        assert(decisions(order, allowed).drop_last() =~= decisions(head, allowed));
        let last = order[order.len() - 1];
        assert(enforce(states, decisions(order, allowed)) =~= states);
    }
}

/// Enforcing the list leaves every device of the topology that the list
/// holds enabled and every other one disabled, whatever the states were
/// before; and enforcing it once more changes nothing.
pub proof fn lemma_apply_idempotent(
    states: Map<Seq<char>, DeviceState>,
    topology: Seq<DeviceTree>,
    allowed: Seq<Seq<char>>,
)
    ensures
        ({
            let plan = decisions(walk_order(topology), allowed);
            let after = enforce(states, plan);
            &&& forall|id: Seq<char>|
                forest_find(topology, id) is Some ==> after.dom().contains(id)
                    && #[trigger] after[id] == state_for(id, allowed)
            &&& enforce(after, plan) == after
        }),
{
    let order = walk_order(topology);
    let plan = decisions(order, allowed);
    let after = enforce(states, plan);
    lemma_enforce_sets(states, order, allowed);
    lemma_enforce_again(after, order, allowed);
    assert forall|id: Seq<char>| forest_find(topology, id) is Some implies after.dom().contains(
        id,
    ) && #[trigger] after[id] == state_for(id, allowed) by {
        lemma_find_ids(topology, id);
        lemma_walk_visits_all(topology);
        lemma_root_ids_member(order, id);
        let i = choose|i: int| 0 <= i < order.len() && order[i].id == id;
        assert(order[i].id == id);
    }
}

/// An identity that occurs among the roots is the identity of one of them.
pub proof fn lemma_root_ids_member(f: Seq<DeviceTree>, id: Seq<char>)
    requires
        root_ids(f).count(id) > 0,
    ensures
        exists|i: int| 0 <= i < f.len() && f[i].id == id,
    decreases f.len(),
{
    if f.len() == 0 {
        assert(root_ids(f) =~= Multiset::empty());
    } else if f[0].id == id {
    } else {
        lemma_root_ids_member(f.drop_first(), id);
        let i = choose|i: int| 0 <= i < f.drop_first().len() && f.drop_first()[i].id == id;
        assert(f[i + 1].id == id);
    }
}

/// The view of an optional blob.
pub open spec fn blob_view(stored: Option<String>) -> Option<Seq<char>> {
    match stored {
        Some(s) => Some(s@),
        None => None,
    }
}

/// The access policy together with the topology that it is enforced on.
#[derive(Debug)]
pub struct Whitelist {
    /// The blob as the secret store holds it, or `None` where the store
    /// holds none.
    pub stored: Option<String>,
    /// The topology of the devices that are present.
    pub device_tracker: DeviceTracker,
}

impl Whitelist {
    /// The authorised identifiers: what the blob holds.
    pub open spec fn entries(&self) -> Result<Seq<Seq<char>>, WhitelistError> {
        blob_entries(blob_view(self.stored))
    }

    /// A policy over the topology `device_tracker` that authorises the
    /// devices which are its roots.
    pub fn new(device_tracker: DeviceTracker) -> (w: Whitelist)
        ensures
            w.device_tracker == device_tracker,
            w.entries() == Ok::<Seq<Seq<char>>, WhitelistError>(
                distinct(root_id_list(device_tracker@)),
            ),
    {
        let mut set: Vec<DeviceId> = Vec::new();
        let n = device_tracker.devices.len();
        let mut i: usize = 0;
        while i < n
            invariant
                i <= n,
                n == device_tracker.devices.len(),
                set.len() == i,
                forall|j: int|
                    0 <= j < i ==> (#[trigger] set@[j])@
                        == device_tracker.devices@[j].device_id@,
            decreases n - i,
        {
            set.push(device_tracker.devices[i].device_id.clone());
            i += 1;
        }
        proof {
            lemma_forest_view(device_tracker.devices@);
            assert(ids_view(set@) =~= root_id_list(device_tracker@));
        }
        let mut w = Whitelist { stored: None, device_tracker: device_tracker };
        w.store_whitelist(&set);
        w
    }

    /// Reads the authorised identifiers from the blob.
    pub fn load_whitelist(&self) -> (r: Result<Vec<DeviceId>, WhitelistError>)
        ensures
            match self.entries() {
                Ok(list) => r is Ok && ids_view(r->Ok_0@) == list,
                Err(e) => r == Err::<Vec<DeviceId>, WhitelistError>(e),
            },
    {
        let text = match &self.stored {
            Some(s) => s,
            None => {
                return Err(WhitelistError::StoreEmpty);
            },
        };
        let bytes = match decode_hex(text.as_str()) {
            Ok(b) => b,
            Err(e) => {
                return Err(WhitelistError::Hex(e));
            },
        };
        deserialize_set_bytes(bytes.as_slice())
    }

    /// Replaces the blob by one that holds the identifiers of `set`.
    pub fn store_whitelist(&mut self, set: &Vec<DeviceId>)
        ensures
            final(self).device_tracker == old(self).device_tracker,
            blob_view(final(self).stored) == Some(hex_text(serialized(ids_view(set@)))),
            final(self).entries() == Ok::<Seq<Seq<char>>, WhitelistError>(
                distinct(ids_view(set@)),
            ),
    {
        let bytes = serialize_set_bytes(set);
        let text = encode_hex(bytes.as_slice());
        proof {
            lemma_hex_round_trip(bytes@);
        }
        self.stored = Some(text);
    }

    /// Authorises the device `device_id`. Nothing is enforced by this.
    pub fn whitelist_device(&mut self, device_id: &str) -> (r: Result<(), WhitelistError>)
        ensures
            final(self).device_tracker == old(self).device_tracker,
            match old(self).entries() {
                Ok(list) => r is Ok && final(self).entries() == Ok::<
                    Seq<Seq<char>>,
                    WhitelistError,
                >(list_with(list, device_id@)),
                Err(e) => r == Err::<(), WhitelistError>(e) && final(self).stored == old(
                    self,
                ).stored,
            },
    {
        let mut set = match self.load_whitelist() {
            Ok(s) => s,
            Err(e) => {
                return Err(e);
            },
        };
        let ghost list = ids_view(set@);
        let id = DeviceId::new(device_id);
        if !contains_id(&set, &id) {
            set.push(id);
        }
        proof {
            assert(ids_view(set@) =~= list_with(list, device_id@));
            lemma_blob_entries_distinct(blob_view(old(self).stored));
            lemma_list_with_distinct(list, device_id@);
        }
        self.store_whitelist(&set);
        Ok(())
    }

    /// Withdraws the authorisation of the device `device_id`. Nothing is
    /// enforced by this.
    pub fn blacklist_device(&mut self, device_id: &str) -> (r: Result<(), WhitelistError>)
        ensures
            final(self).device_tracker == old(self).device_tracker,
            match old(self).entries() {
                Ok(list) => r is Ok && final(self).entries() == Ok::<
                    Seq<Seq<char>>,
                    WhitelistError,
                >(list_without(list, device_id@)),
                Err(e) => r == Err::<(), WhitelistError>(e) && final(self).stored == old(
                    self,
                ).stored,
            },
    {
        let set = match self.load_whitelist() {
            Ok(s) => s,
            Err(e) => {
                return Err(e);
            },
        };
        let ghost list = ids_view(set@);
        let id = DeviceId::new(device_id);
        let mut kept: Vec<DeviceId> = Vec::new();
        let n = set.len();
        let mut i: usize = 0;
        proof {
            assert(list.take(0) =~= Seq::<Seq<char>>::empty());
            assert(ids_view(kept@) =~= list_without(list.take(0), device_id@));
        }
        while i < n
            invariant
                i <= n,
                n == set.len(),
                list == ids_view(set@),
                id@ == device_id@,
                ids_view(kept@) == list_without(list.take(i as int), device_id@),
            decreases n - i,
        {
            let ghost before = ids_view(kept@);
            proof {
                assert(list.take(i as int + 1).drop_last() =~= list.take(i as int));
                assert(list.take(i as int + 1).last() == set@[i as int]@);
            }
            if !(set[i] == id) {
                kept.push(set[i].clone());
                proof {
                    assert(ids_view(kept@) =~= before.push(set@[i as int]@));
                }
            }
            i += 1;
        }
        proof {
            assert(list.take(n as int) =~= list);
            lemma_blob_entries_distinct(blob_view(old(self).stored));
            lemma_list_without(list, device_id@);
            lemma_distinct_fixed(list_without(list, device_id@));
        }
        self.store_whitelist(&kept);
        Ok(())
    }

    /// Decides what enforcing the policy asks for: for every device of
    /// the topology, in the order of a walk, that it be enabled where the
    /// list holds it and disabled where not. Nothing is decided where the
    /// list cannot be read.
    pub fn apply_whitelist(&self) -> (r: Result<Vec<(DeviceId, DeviceState)>, WhitelistError>)
        ensures
            match self.entries() {
                Ok(list) => r is Ok && plan_view(r->Ok_0@) == decisions(
                    walk_order(self.device_tracker@),
                    list,
                ),
                Err(e) => r == Err::<Vec<(DeviceId, DeviceState)>, WhitelistError>(e),
            },
    {
        let allowed = match self.load_whitelist() {
            Ok(s) => s,
            Err(e) => {
                return Err(e);
            },
        };
        let ghost list = ids_view(allowed@);
        let ghost whole = walk_order(self.device_tracker@);
        let mut plan: Vec<(DeviceId, DeviceState)> = Vec::new();
        let mut walk = self.device_tracker.iter();
        proof {
            assert(plan_view(plan@) + decisions(whole, list) =~= decisions(whole, list));
        }
        loop
            invariant
                list == ids_view(allowed@),
                self.entries() == Ok::<Seq<Seq<char>>, WhitelistError>(list),
                whole == walk_order(self.device_tracker@),
                plan_view(plan@) + decisions(walk_order(walk.pending()), list) == decisions(
                    whole,
                    list,
                ),
            decreases walk.remaining(),
        {
            let ghost stack = walk.pending();
            let ghost before = plan_view(plan@);
            match walk.next() {
                None => {
                    proof {
                        assert(walk_order(stack) =~= Seq::<DeviceTree>::empty());
                        assert(before + decisions(walk_order(stack), list) =~= before);
                    }
                    return Ok(plan);
                },
                Some(d) => {
                    let state = if contains_id(&allowed, &d.device_id) {
                        DeviceState::Enable
                    } else {
                        DeviceState::Disable
                    };
                    plan.push((d.device_id.clone(), state));
                    proof {
                        let next = stack.drop_last() + stack.last().children;
                        assert(walk_order(stack) == seq![stack.last()] + walk_order(next));
                        assert(plan_view(plan@) =~= before.push((d@.id, state_for(d@.id, list))));
                        assert(plan_view(plan@) + decisions(walk_order(next), list) =~= before
                            + decisions(walk_order(stack), list));
                    }
                },
            }
        }
    }
}

/// What a blob holds has no repetitions.
pub proof fn lemma_blob_entries_distinct(stored: Option<Seq<char>>)
    ensures
        blob_entries(stored) is Ok ==> blob_entries(stored)->Ok_0.no_duplicates(),
{
    if blob_entries(stored) is Ok {
        let bytes = hex_decoded(encode_utf8(stored->0))->Ok_0;
        lemma_distinct_fixed(parsed(bytes)->Ok_0);
    }
}

/// Adding an identifier to a list without repetitions leaves it without
/// them.
pub proof fn lemma_list_with_distinct(list: Seq<Seq<char>>, id: Seq<char>)
    requires
        list.no_duplicates(),
    ensures
        list_with(list, id).no_duplicates(),
        distinct(list_with(list, id)) == list_with(list, id),
{
    lemma_distinct_fixed(list_with(list, id));
}

/// Writing a list of identifiers and reading it back gives the same set
/// of identifiers, whatever their order and however often one occurs.
pub proof fn lemma_whitelist_round_trip(ids: Seq<Seq<char>>)
    requires
        forall|i: int| 0 <= i < ids.len() ==> encode_utf8(#[trigger] ids[i]).len() < pow256(8),
    ensures
        parsed(serialized(ids)) == Ok::<Seq<Seq<char>>, WhitelistError>(ids),
        blob_entries(Some(hex_text(serialized(ids)))) == Ok::<Seq<Seq<char>>, WhitelistError>(
            distinct(ids),
        ),
        distinct(ids).no_duplicates(),
        distinct(ids).to_set() == ids.to_set(),
{
    lemma_records_round_trip(ids);
    lemma_hex_round_trip(serialized(ids));
    lemma_distinct_fixed(ids);
    assert(distinct(ids).to_set() =~= ids.to_set());
}

/// What enforcing the policy does after a device could not be toggled.
#[derive(Debug, Clone, Copy, PartialEq, Eq, Structural)]
pub enum FailurePolicy {
    /// Report the failure and go on with the next device.
    Continue,
    /// Give the pass up at the first failure.
    Abort,
}

/// Whether a pass that enforces the policy goes on after the outcome of
/// one toggle: always after a success, and after a failure where the
/// policy says so.
pub fn pass_goes_on(policy: FailurePolicy, outcome: &Result<(), Win32Error>) -> (r: bool)
    ensures
        r == (*outcome is Ok || policy == FailurePolicy::Continue),
{
    match outcome {
        Ok(_) => true,
        Err(_) => policy == FailurePolicy::Continue,
    }
}

} // verus!
