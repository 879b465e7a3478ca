//! Dispatcher for map ways: resolves reference ids to quantized positions
//! through a caller-supplied lookup, asks the external classifier whether
//! the way is an area, and encodes the matching record — an area record, a
//! line record when at least two references resolved, or nothing.
use crate::record::{
    area_bytes, area_size, line_bytes, line_size, node_bytes, node_size, PeerArea, PeerLine,
    PeerNode, AREA_RECORD_TAG,
};
use crate::varint;
use crate::varint::{varint_bytes, varint_len};
use std::collections::HashMap;
use vstd::prelude::*;

verus! {

broadcast use vstd::std_specs::hash::group_hash_axioms;

/// View of a tag list as character sequences.
pub open spec fn tags_view(tags: Seq<(String, String)>) -> Seq<(Seq<char>, Seq<char>)> {
    tags.map_values(|t: (String, String)| (t.0@, t.1@))
}

/// What the external way classifier answers for a tag list and a reference
/// chain: whether the chain with these tags bounds an area. The answer is
/// a function of the two arguments alone.
pub uninterp spec fn is_area_of(tags: Seq<(Seq<char>, Seq<char>)>, refs: Seq<i64>) -> bool;

/// Relies on osm_is_area::way: decides from the tags and the reference
/// chain whether a way is an area, as a pure function of both.
#[verifier::external_body]
fn classify_way(tags: &Vec<(String, String)>, refs: &Vec<i64>) -> (r: bool)
    ensures
        r == is_area_of(tags_view(tags@), refs@),
{
    let borrowed: Vec<(&str, &str)> = tags.iter().map(|t| (t.0.as_str(), t.1.as_str())).collect();
    osm_is_area::way(&borrowed, refs)
}

/// The positions of the references that resolve in the lookup, in input
/// order; a reference that is absent contributes nothing.
pub open spec fn resolved_positions(refs: Seq<i64>, deps: Map<i64, (i32, i32)>) -> Seq<(i32, i32)>
    decreases refs.len(),
{
    if refs.len() == 0 {
        Seq::empty()
    } else {
        resolved_positions(refs.drop_last(), deps) + (if deps.contains_key(refs.last()) {
            seq![deps[refs.last()]]
        } else {
            Seq::empty()
        })
    }
}

/// Resolves each reference id through the lookup. An id that is absent is
/// skipped — the way is still processed with whatever resolved.
pub fn get_positions(refs: &Vec<i64>, deps: &HashMap<i64, (i32, i32)>) -> (r: Vec<(i32, i32)>)
    ensures
        r@ == resolved_positions(refs@, deps@),
{
    let mut out: Vec<(i32, i32)> = Vec::new();
    let mut i: usize = 0;
    while i < refs.len()
        invariant
            i <= refs@.len(),
            out@ == resolved_positions(refs@.subrange(0, i as int), deps@),
        decreases refs@.len() - i,
    {
        let ghost pre = out@;
        match deps.get(&refs[i]) {
            Some(p) => {
                out.push(*p);
            },
            None => {},
        }
        proof {
            let t = refs@.subrange(0, i + 1);
            assert(t.drop_last() =~= refs@.subrange(0, i as int));
            assert(t.last() == refs@[i as int]);
            if deps@.contains_key(refs@[i as int]) {
                assert(out@ =~= pre + seq![deps@[refs@[i as int]]]);
            } else {
                assert(out@ =~= pre + Seq::<(i32, i32)>::empty());
            }
        }
        i = i + 1;
    }
    proof {
        assert(refs@.subrange(0, refs@.len() as int) =~= refs@);
    }
    out
}

/// Encodes one node record from plain values.
pub fn node(id: u64, lon: i32, lat: i32, typ: u64, label: Vec<u8>) -> (r: Vec<u8>)
    requires
        node_size(typ, id, label@) <= usize::MAX,
    ensures
        r@ == node_bytes(typ, id, lon, lat, label@),
        r@.len() == node_size(typ, id, label@),
{
    let n = PeerNode::new(id, typ, label, lon, lat);
    n.to_bytes_le()
}

/// The record bytes of a way: an area record when the classifier says
/// area, a line record when at least two references resolved, and nothing
/// otherwise — a way with fewer than two usable points carries no
/// renderable geometry and is silently dropped.
pub open spec fn way_bytes(
    typ: u64,
    id: u64,
    tags: Seq<(Seq<char>, Seq<char>)>,
    refs: Seq<i64>,
    deps: Map<i64, (i32, i32)>,
    cells: Seq<u64>,
    label: Seq<u8>,
) -> Seq<u8> {
    let positions = resolved_positions(refs, deps);
    if is_area_of(tags, refs) {
        area_bytes(typ, id, positions, cells, label)
    } else if positions.len() >= 2 {
        line_bytes(typ, id, positions, label)
    } else {
        Seq::empty()
    }
}

/// Encodes the record of a way with the given tags, reference chain,
/// position lookup and (for areas) triangle-vertex-index list.
pub fn way(
    id: u64,
    typ: u64,
    label: Vec<u8>,
    tags: &Vec<(String, String)>,
    refs: &Vec<i64>,
    deps: &HashMap<i64, (i32, i32)>,
    cells: &Vec<u64>,
) -> (r: Vec<u8>)
    requires
        area_size(typ, id, resolved_positions(refs@, deps@), cells@, label@) <= usize::MAX,
        line_size(typ, id, resolved_positions(refs@, deps@), label@) <= usize::MAX,
    ensures
        r@ == way_bytes(typ, id, tags_view(tags@), refs@, deps@, cells@, label@),
{
    let is_area = classify_way(tags, refs);
    let positions = get_positions(refs, deps);
    if is_area {
        let area = PeerArea::new(id, typ, label, positions);
        area.to_bytes_le(cells)
    } else if positions.len() >= 2 {
        let line = PeerLine::new(id, typ, label, positions);
        line.to_bytes_le()
    } else {
        Vec::new()
    }
}

/// Law: a way that the classifier does not call an area and whose
/// references resolve to fewer than two positions encodes to nothing.
pub proof fn lemma_way_too_small_empty(
    typ: u64,
    id: u64,
    tags: Seq<(Seq<char>, Seq<char>)>,
    refs: Seq<i64>,
    deps: Map<i64, (i32, i32)>,
    cells: Seq<u64>,
    label: Seq<u8>,
)
    requires
        !is_area_of(tags, refs),
        resolved_positions(refs, deps).len() < 2,
    ensures
        way_bytes(typ, id, tags, refs, deps, cells, label) == Seq::<u8>::empty(),
{
}

/// Law: a way that the classifier calls an area, with four resolved
/// positions, encodes to an area record whose position-count field reads
/// exactly 4.
pub proof fn lemma_way_area_position_count(
    typ: u64,
    id: u64,
    tags: Seq<(Seq<char>, Seq<char>)>,
    refs: Seq<i64>,
    deps: Map<i64, (i32, i32)>,
    cells: Seq<u64>,
    label: Seq<u8>,
)
    requires
        is_area_of(tags, refs),
        resolved_positions(refs, deps).len() == 4,
    ensures
        ({
            let b = way_bytes(typ, id, tags, refs, deps, cells, label);
            let off = 1 + varint_len(typ) + varint_len(id);
            &&& b[0] == AREA_RECORD_TAG
            &&& b[off] == 4u8
        }),
{
    let positions = resolved_positions(refs, deps);
    let b = way_bytes(typ, id, tags, refs, deps, cells, label);
    let off = 1 + varint_len(typ) + varint_len(id);
    varint::lemma_varint_encoding_decodes(typ);
    varint::lemma_varint_encoding_decodes(id);
    assert(positions.len() as u64 == 4u64);
    assert(varint_bytes(4u64) == seq![4u8]);
    assert(b == seq![AREA_RECORD_TAG] + varint_bytes(typ) + varint_bytes(id) + varint_bytes(4u64)
        + crate::record::points_bytes(positions) + varint_bytes((cells.len() / 3) as u64)
        + crate::record::cells_bytes(cells) + label);
    assert(b[0] == AREA_RECORD_TAG);
    assert(b[off] == 4u8);
}

} // verus!
