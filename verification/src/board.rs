//! Bookkeeping of the drawing board: the packets that peers exchange to
//! synchronise their boards, and the element ids.
//!
//! A packet is one type byte followed by its data. Type 0 carries a peer's
//! state vector and asks for what that peer lacks; type 1 carries an update
//! to apply. Any other packet, and an empty one, is ignored.
use vstd::prelude::*;
use vstd::string::*;
use crate::svg::str_eq;

verus! {

/// The type byte of a packet that carries a state vector.
pub const SYNC_STEP: u8 = 0;

/// The type byte of a packet that carries an update.
pub const SYNC_UPDATE: u8 = 1;

/// What a packet asks of the board that receives it.
pub enum Packet {
    /// A peer's state vector: answer with the update that it lacks.
    SyncStep(Vec<u8>),
    /// An update to apply.
    Update(Vec<u8>),
}

/// A packet's meaning, over its bytes.
pub enum PacketV {
    SyncStep(Seq<u8>),
    Update(Seq<u8>),
}

/// A packet's meaning, with its data as bytes.
pub open spec fn packet_view(p: Packet) -> PacketV {
    match p {
        Packet::SyncStep(d) => PacketV::SyncStep(d@),
        Packet::Update(d) => PacketV::Update(d@),
    }
}

/// What a received packet asks for, if anything.
pub open spec fn read_spec(bytes: Seq<u8>) -> Option<PacketV> {
    if bytes.len() == 0 {
        None
    } else if bytes[0] == SYNC_STEP {
        Some(PacketV::SyncStep(bytes.drop_first()))
    } else if bytes[0] == SYNC_UPDATE {
        Some(PacketV::Update(bytes.drop_first()))
    } else {
        None
    }
}

/// The bytes `tag` followed by `data`.
fn framed(tag: u8, data: &[u8]) -> (out: Vec<u8>)
    ensures
        out@ == seq![tag] + data@,
{
    let mut out: Vec<u8> = Vec::new();
    out.push(tag);
    let n = data.len();
    for i in 0..n
        invariant
            n == data@.len(),
            out@ == seq![tag] + data@.take(i as int),
    {
        out.push(data[i]);
        proof {
            assert(data@.take(i + 1) =~= data@.take(i as int).push(data@[i as int]));
        }
    }
    proof {
        assert(data@.take(n as int) =~= data@);
    }
    out
}

/// The packet that sends this board's state vector to a peer.
pub fn state_vector_packet(state_vector: &[u8]) -> (out: Vec<u8>)
    ensures
        out@ == seq![SYNC_STEP] + state_vector@,
{
    framed(SYNC_STEP, state_vector)
}

/// The packet that answers a peer's state vector with an update.
pub fn update_packet(update: &[u8]) -> (out: Vec<u8>)
    ensures
        out@ == seq![SYNC_UPDATE] + update@,
{
    framed(SYNC_UPDATE, update)
}

/// What a received packet asks for; `None` for a packet to ignore.
pub fn read_packet(bytes: &[u8]) -> (p: Option<Packet>)
    ensures
        match p {
            Some(q) => read_spec(bytes@) == Some(packet_view(q)),
            None => read_spec(bytes@) is None,
        },
{
    if bytes.len() == 0 {
        return None;
    }
    let tag = bytes[0];
    if tag != SYNC_STEP && tag != SYNC_UPDATE {
        return None;
    }
    let n = bytes.len();
    let mut data: Vec<u8> = Vec::new();
    for i in 1..n
        invariant
            n == bytes@.len(),
            data@ == bytes@.subrange(1, i as int),
    {
        data.push(bytes[i]);
        proof {
            assert(bytes@.subrange(1, i + 1) =~= bytes@.subrange(1, i as int).push(bytes@[i as int]));
        }
    }
    proof {
        assert(data@ =~= bytes@.drop_first());
    }
    if tag == SYNC_STEP {
        Some(Packet::SyncStep(data))
    } else {
        Some(Packet::Update(data))
    }
}

/// Reading a state vector packet gives back the state vector, and reading an
/// update packet the update.
pub proof fn law_packets_read_back(data: Seq<u8>)
    ensures
        read_spec(seq![SYNC_STEP] + data) == Some(PacketV::SyncStep(data)),
        read_spec(seq![SYNC_UPDATE] + data) == Some(PacketV::Update(data)),
{
    assert((seq![SYNC_STEP] + data).drop_first() =~= data);
    assert((seq![SYNC_UPDATE] + data).drop_first() =~= data);
}

// ── Element ids ──────────────────────────────────────────────────────────────

/// Hands out the id in `counter` and moves the counter on by one: how the
/// board numbers a new element. The counter must not be at the largest
/// `u64`, where moving on would overflow.
pub fn take_next_id(counter: &mut u64) -> (id: u64)
    requires
        *old(counter) < u64::MAX,
    ensures
        id == *old(counter),
        *final(counter) == *old(counter) + 1,
{
    let id = *counter;
    *counter = id + 1;
    id
}

/// The largest id, or 0 when there is none.
pub open spec fn max_id(ids: Seq<u64>) -> u64
    decreases ids.len(),
{
    if ids.len() == 0 {
        0
    } else {
        let m = max_id(ids.drop_last());
        if ids.last() > m {
            ids.last()
        } else {
            m
        }
    }
}

/// The id counter after the elements with ids `ids` arrived from a peer: it
/// moves up to the largest id when that is not below it.
pub open spec fn merged_next_id_spec(ids: Seq<u64>, next_id: u64) -> u64 {
    if max_id(ids) >= next_id {
        max_id(ids)
    } else {
        next_id
    }
}

proof fn lemma_max_id_bounds(ids: Seq<u64>)
    ensures
        forall|i: int| 0 <= i < ids.len() ==> #[trigger] ids[i] <= max_id(ids),
    decreases ids.len(),
{
    if ids.len() > 0 {
        lemma_max_id_bounds(ids.drop_last());
        assert forall|i: int| 0 <= i < ids.len() implies #[trigger] ids[i] <= max_id(ids) by {
            if i < ids.len() - 1 {
                assert(ids[i] == ids.drop_last()[i]);
            }
        }
    }
}

/// After elements arrive from a peer the id counter has not moved back, and
/// it is at or past every id that arrived.
pub proof fn law_merged_next_id_covers(ids: Seq<u64>, next_id: u64)
    ensures
        merged_next_id_spec(ids, next_id) >= next_id,
        forall|i: int| 0 <= i < ids.len() ==> #[trigger] ids[i] <= merged_next_id_spec(ids, next_id),
{
    lemma_max_id_bounds(ids);
}

/// The id counter after the elements with ids `ids` arrived from a peer.
pub fn merged_next_id(ids: &[u64], next_id: u64) -> (r: u64)
    ensures
        r == merged_next_id_spec(ids@, next_id),
{
    let n = ids.len();
    let mut m: u64 = 0;
    for i in 0..n
        invariant
            n == ids@.len(),
            m == max_id(ids@.take(i as int)),
    {
        proof {
            assert(ids@.take(i + 1).drop_last() =~= ids@.take(i as int));
        }
        if ids[i] > m {
            m = ids[i];
        }
    }
    proof {
        assert(ids@.take(n as int) =~= ids@);
    }
    if m >= next_id {
        m
    } else {
        next_id
    }
}

/// `a` comes before `b` when the elements are put in id order: by id, and
/// by position between equal ids.
pub open spec fn id_before(ids: Seq<u64>, a: int, b: int) -> bool {
    ids[a] < ids[b] || (ids[a] == ids[b] && a < b)
}

/// `order` lists the positions of `ids` once each, in id order.
pub open spec fn id_order(ids: Seq<u64>, order: Seq<usize>) -> bool {
    &&& order.len() == ids.len()
    &&& forall|i: int| 0 <= i < order.len() ==> (#[trigger] order[i]) < ids.len()
    &&& forall|i: int, j: int| 0 <= i < j < order.len() ==> id_before(ids, #[trigger] order[i] as int, #[trigger] order[j] as int)
}

/// The positions of the elements with ids `ids`, in id order: how the board
/// lists the elements that it rebuilt from a peer's update.
pub fn order_by_id(ids: &[u64]) -> (order: Vec<usize>)
    ensures
        id_order(ids@, order@),
        forall|v: int| 0 <= v < ids@.len() ==> #[trigger] order@.contains(v as usize),
{
    let n = ids.len();
    let mut order: Vec<usize> = Vec::new();
    for v in 0..n
        invariant
            n == ids@.len(),
            order@.len() == v,
            forall|i: int| 0 <= i < order@.len() ==> (#[trigger] order@[i]) < v,
            forall|w: int| 0 <= w < v ==> #[trigger] order@.contains(w as usize),
            forall|i: int, j: int| 0 <= i < j < order@.len() ==> id_before(ids@, #[trigger] order@[i] as int, #[trigger] order@[j] as int),
    {
        // Insert `v` before the first element with a larger id.
        let mut p: usize = 0;
        while p < order.len()
            invariant
                n == ids@.len(),
                v < n,
                p <= order@.len(),
                forall|i: int| 0 <= i < order@.len() ==> (#[trigger] order@[i]) < v,
                forall|i: int| 0 <= i < p ==> ids@[#[trigger] order@[i] as int] <= ids@[v as int],
            ensures
                p <= order@.len(),
                forall|i: int| 0 <= i < p ==> ids@[#[trigger] order@[i] as int] <= ids@[v as int],
                p < order@.len() ==> ids@[order@[p as int] as int] > ids@[v as int],
            decreases order@.len() - p,
        {
            if ids[order[p]] > ids[v] {
                break;
            }
            p = p + 1;
        }
        let ghost old_order = order@;
        order.insert(p, v);
        proof {
            assert(order@ =~= old_order.insert(p as int, v));
            assert forall|i: int| 0 <= i < p implies id_before(ids@, #[trigger] old_order[i] as int, v as int) by {}
            assert forall|j: int| p <= j < old_order.len() implies id_before(ids@, v as int, #[trigger] old_order[j] as int) by {
                if j > p {
                    assert(id_before(ids@, old_order[p as int] as int, old_order[j] as int));
                }
            }
            assert forall|i: int, j: int| 0 <= i < j < order@.len() implies id_before(ids@, #[trigger] order@[i] as int, #[trigger] order@[j] as int) by {
                if j < p {
                    assert(order@[i] == old_order[i] && order@[j] == old_order[j]);
                } else if j == p {
                    assert(order@[i] == old_order[i]);
                } else if i < p {
                    assert(order@[i] == old_order[i] && order@[j] == old_order[j - 1]);
                    assert(id_before(ids@, old_order[p as int] as int, old_order[j - 1] as int) || j - 1 == p);
                } else if i == p {
                    assert(order@[j] == old_order[j - 1]);
                    assert(id_before(ids@, old_order[p as int] as int, old_order[j - 1] as int) || j - 1 == p);
                } else {
                    assert(order@[i] == old_order[i - 1] && order@[j] == old_order[j - 1]);
                }
            }
            assert forall|w: int| 0 <= w < v + 1 implies #[trigger] order@.contains(w as usize) by {
                if w < v {
                    assert(old_order.contains(w as usize));
                    let k = choose|k: int| 0 <= k < old_order.len() && old_order[k] == w as usize;
                    if k < p {
                        assert(order@[k] == w as usize);
                    } else {
                        assert(order@[k + 1] == w as usize);
                    }
                } else {
                    assert(order@[p as int] == v);
                }
            }
        }
    }
    order
}

/// Whether each element stays when the elements with ids in `gone` are
/// removed from the board.
pub fn keep_mask(ids: &[u64], gone: &[u64]) -> (keep: Vec<bool>)
    ensures
        keep@.len() == ids@.len(),
        forall|i: int| 0 <= i < ids@.len() ==> #[trigger] keep@[i] == !gone@.contains(ids@[i]),
{
    let n = ids.len();
    let mut keep: Vec<bool> = Vec::new();
    for i in 0..n
        invariant
            n == ids@.len(),
            keep@.len() == i,
            forall|j: int| 0 <= j < i ==> #[trigger] keep@[j] == !gone@.contains(ids@[j]),
    {
        keep.push(!contains_id(gone, ids[i]));
    }
    keep
}

/// Whether `id` is among `ids`.
pub fn contains_id(ids: &[u64], id: u64) -> (r: bool)
    ensures
        r == ids@.contains(id),
{
    let n = ids.len();
    for i in 0..n
        invariant
            n == ids@.len(),
            forall|j: int| 0 <= j < i ==> ids@[j] != id,
    {
        if ids[i] == id {
            proof {
                assert(ids@[i as int] == id);
            }
            return true;
        }
    }
    false
}

/// The ids in `ids` that are not in `gone`, in order.
pub open spec fn without_spec(ids: Seq<u64>, gone: Seq<u64>) -> Seq<u64>
    decreases ids.len(),
{
    if ids.len() == 0 {
        Seq::empty()
    } else if gone.contains(ids.last()) {
        without_spec(ids.drop_last(), gone)
    } else {
        without_spec(ids.drop_last(), gone).push(ids.last())
    }
}

/// The ids in `ids` that are not in `gone`, in order: what is left of the
/// selection when elements are removed.
pub fn without(ids: &Vec<u64>, gone: &[u64]) -> (r: Vec<u64>)
    ensures
        r@ == without_spec(ids@, gone@),
{
    let n = ids.len();
    let mut r: Vec<u64> = Vec::new();
    for i in 0..n
        invariant
            n == ids@.len(),
            r@ == without_spec(ids@.take(i as int), gone@),
    {
        proof {
            assert(ids@.take(i + 1).drop_last() =~= ids@.take(i as int));
        }
        if !contains_id(gone, ids[i]) {
            r.push(ids[i]);
        }
    }
    proof {
        assert(ids@.take(n as int) =~= ids@);
    }
    r
}

// ── Colours ──────────────────────────────────────────────────────────────────

/// The dark stroke colours that dark mode shows in white.
pub open spec fn is_dark_ink(color: Seq<char>) -> bool {
    color == "#1a1a2e"@ || color == "#000000"@ || color == "#111111"@
}

/// The colour that an element's colour is drawn in: in dark mode the dark
/// inks become white, and every other colour stays.
pub open spec fn adaptive_color_spec(dark_mode: bool, color: Seq<char>) -> Seq<char> {
    if dark_mode && is_dark_ink(color) {
        "#FFFFFF"@
    } else {
        color
    }
}

/// Outside dark mode every colour is drawn as it is; in dark mode a colour
/// is drawn as it is or, for the three dark inks `#1a1a2e`, `#000000` and
/// `#111111`, in white, and nothing else turns white.
pub proof fn law_adaptive_color(color: Seq<char>)
    ensures
        adaptive_color_spec(false, color) == color,
        adaptive_color_spec(true, color) == color || adaptive_color_spec(true, color) == "#FFFFFF"@,
        adaptive_color_spec(true, "#1a1a2e"@) == "#FFFFFF"@,
        adaptive_color_spec(true, "#000000"@) == "#FFFFFF"@,
        adaptive_color_spec(true, "#111111"@) == "#FFFFFF"@,
        color != "#1a1a2e"@ && color != "#000000"@ && color != "#111111"@ ==> adaptive_color_spec(true, color)
            == color,
{
}

/// The colour that an element's colour is drawn in.
pub fn adaptive_color(dark_mode: bool, color: &str) -> (r: String)
    ensures
        r@ == adaptive_color_spec(dark_mode, color@),
{
    if dark_mode && (str_eq(color, "#1a1a2e") || str_eq(color, "#000000") || str_eq(color, "#111111")) {
        String::from_str("#FFFFFF")
    } else {
        color.to_string()
    }
}

} // verus!
