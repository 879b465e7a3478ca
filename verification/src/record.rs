//! Wire records for map features. Every record is self-contained: a leading
//! record-kind tag byte, the feature class and entity id as varints, the
//! geometry, for areas the triangulation indices, and the label verbatim at
//! the tail. The byte length of a record is computed exactly before any
//! write; the encoders prove that the bytes written equal that size.
use crate::label;
use crate::point;
use crate::point::point_bytes;
use crate::varint;
use crate::varint::{varint_bytes, varint_len};
use vstd::prelude::*;

verus! {

/// Record-kind tag of a node record.
pub const NODE_RECORD_TAG: u8 = 1;

/// Record-kind tag of a line record.
pub const LINE_RECORD_TAG: u8 = 2;

/// Record-kind tag of an area record.
pub const AREA_RECORD_TAG: u8 = 3;

/// The concatenated 8-byte encodings of a position list, in input order.
pub open spec fn points_bytes(positions: Seq<(i32, i32)>) -> Seq<u8>
    decreases positions.len(),
{
    if positions.len() == 0 {
        Seq::empty()
    } else {
        points_bytes(positions.drop_last()) + point_bytes(positions.last().0) + point_bytes(
            positions.last().1,
        )
    }
}

/// The concatenated varint encodings of a triangle-vertex-index list.
pub open spec fn cells_bytes(cells: Seq<u64>) -> Seq<u8>
    decreases cells.len(),
{
    if cells.len() == 0 {
        Seq::empty()
    } else {
        cells_bytes(cells.drop_last()) + varint_bytes(cells.last())
    }
}

/// The full byte image of a node record.
pub open spec fn node_bytes(typ: u64, id: u64, lon: i32, lat: i32, label: Seq<u8>) -> Seq<u8> {
    seq![NODE_RECORD_TAG] + varint_bytes(typ) + varint_bytes(id) + point_bytes(lon) + point_bytes(
        lat,
    ) + label
}

/// The full byte image of a line record.
pub open spec fn line_bytes(typ: u64, id: u64, positions: Seq<(i32, i32)>, label: Seq<u8>) -> Seq<
    u8,
> {
    seq![LINE_RECORD_TAG] + varint_bytes(typ) + varint_bytes(id) + varint_bytes(
        positions.len() as u64,
    ) + points_bytes(positions) + label
}

/// The full byte image of an area record.
pub open spec fn area_bytes(
    typ: u64,
    id: u64,
    positions: Seq<(i32, i32)>,
    cells: Seq<u64>,
    label: Seq<u8>,
) -> Seq<u8> {
    seq![AREA_RECORD_TAG] + varint_bytes(typ) + varint_bytes(id) + varint_bytes(
        positions.len() as u64,
    ) + points_bytes(positions) + varint_bytes((cells.len() / 3) as u64) + cells_bytes(cells)
        + label
}

/// Pre-computed byte size of a node record.
pub open spec fn node_size(typ: u64, id: u64, label: Seq<u8>) -> int {
    1 + varint_len(typ) + varint_len(id) + 8 + label.len()
}

/// Pre-computed byte size of a line record.
pub open spec fn line_size(typ: u64, id: u64, positions: Seq<(i32, i32)>, label: Seq<u8>) -> int {
    1 + varint_len(typ) + varint_len(id) + varint_len(positions.len() as u64) + 8 * positions.len()
        + label.len()
}

/// Pre-computed byte size of an area record.
pub open spec fn area_size(
    typ: u64,
    id: u64,
    positions: Seq<(i32, i32)>,
    cells: Seq<u64>,
    label: Seq<u8>,
) -> int {
    1 + varint_len(typ) + varint_len(id) + varint_len(positions.len() as u64) + 8 * positions.len()
        + varint_len((cells.len() / 3) as u64) + cells_bytes(cells).len() + label.len()
}

/// A position list encodes to exactly eight bytes per position.
pub proof fn lemma_points_bytes_len(positions: Seq<(i32, i32)>)
    ensures
        points_bytes(positions).len() == 8 * positions.len(),
    decreases positions.len(),
{
    if positions.len() > 0 {
        lemma_points_bytes_len(positions.drop_last());
    }
}

/// Law: each record's byte image has exactly its pre-computed size.
pub proof fn lemma_record_sizes(
    typ: u64,
    id: u64,
    lon: i32,
    lat: i32,
    positions: Seq<(i32, i32)>,
    cells: Seq<u64>,
    label: Seq<u8>,
)
    ensures
        node_bytes(typ, id, lon, lat, label).len() == node_size(typ, id, label),
        line_bytes(typ, id, positions, label).len() == line_size(typ, id, positions, label),
        area_bytes(typ, id, positions, cells, label).len() == area_size(
            typ,
            id,
            positions,
            cells,
            label,
        ),
{
    lemma_points_bytes_len(positions);
}

/// Extending an index list appends one varint to its encoding.
proof fn lemma_cells_bytes_extend(cells: Seq<u64>, i: int)
    requires
        0 <= i < cells.len(),
    ensures
        cells_bytes(cells.subrange(0, i + 1)) == cells_bytes(cells.subrange(0, i)) + varint_bytes(
            cells[i],
        ),
{
    let t = cells.subrange(0, i + 1);
    assert(t.drop_last() =~= cells.subrange(0, i));
    assert(t.last() == cells[i]);
}

/// A prefix of an index list encodes to at most as many bytes as the whole.
proof fn lemma_cells_bytes_prefix(cells: Seq<u64>, i: int)
    requires
        0 <= i <= cells.len(),
    ensures
        cells_bytes(cells.subrange(0, i)).len() <= cells_bytes(cells).len(),
    decreases cells.len() - i,
{
    if i == cells.len() {
        assert(cells.subrange(0, i) =~= cells);
    } else {
        lemma_cells_bytes_extend(cells, i);
        lemma_cells_bytes_prefix(cells, i + 1);
        varint::lemma_varint_encoding_decodes(cells[i]);
    }
}

/// Extending a position list appends eight bytes to its encoding.
proof fn lemma_points_bytes_extend(positions: Seq<(i32, i32)>, i: int)
    requires
        0 <= i < positions.len(),
    ensures
        points_bytes(positions.subrange(0, i + 1)) == points_bytes(positions.subrange(0, i))
            + point_bytes(positions[i].0) + point_bytes(positions[i].1),
{
    let t = positions.subrange(0, i + 1);
    assert(t.drop_last() =~= positions.subrange(0, i));
    assert(t.last() == positions[i]);
}

/// A vector of `n` zero bytes.
fn zero_vec(n: usize) -> (v: Vec<u8>)
    ensures
        v@.len() == n,
{
    let mut v: Vec<u8> = Vec::new();
    while v.len() < n
        invariant
            v@.len() <= n,
        decreases n - v@.len(),
    {
        v.push(0);
    }
    v
}

/// Writes the 8-byte encodings of all positions into `buf` at `offset`;
/// returns the number of bytes written and leaves every other byte as it
/// was.
fn write_points(positions: &Vec<(i32, i32)>, buf: &mut Vec<u8>, offset: usize) -> (n: usize)
    requires
        offset + 8 * positions@.len() <= old(buf)@.len(),
    ensures
        n == 8 * positions@.len(),
        final(buf)@.len() == old(buf)@.len(),
        final(buf)@.subrange(offset as int, offset + n) == points_bytes(positions@),
        forall|k: int|
            0 <= k < old(buf)@.len() && !(offset <= k < offset + n) ==> final(buf)@[k] == old(
                buf,
            )@[k],
{
    let ghost buf0 = old(buf)@;
    let blen: usize = buf.len();
    let mut i: usize = 0;
    while i < positions.len()
        invariant
            i <= positions@.len(),
            offset + 8 * positions@.len() <= buf@.len(),
            buf@.len() == blen,
            buf@.len() == buf0.len(),
            buf@.subrange(offset as int, offset + 8 * i) == points_bytes(
                positions@.subrange(0, i as int),
            ),
            forall|k: int|
                0 <= k < buf0.len() && !(offset <= k < offset + 8 * i) ==> buf@[k] == buf0[k],
        decreases positions@.len() - i,
    {
        let ghost pre = buf@;
        let p = positions[i];
        let o = offset + 8 * i;
        point::encode_with_offset(p.0, buf, o);
        point::encode_with_offset(p.1, buf, o + 4);
        proof {
            lemma_points_bytes_extend(positions@, i as int);
            assert(buf@.subrange(offset as int, o as int) =~= pre.subrange(
                offset as int,
                o as int,
            ));
            assert(buf@.subrange(o as int, o + 4) =~= point_bytes(p.0));
            assert(buf@.subrange(offset as int, offset + 8 * (i + 1)) =~= pre.subrange(
                offset as int,
                o as int,
            ) + point_bytes(p.0) + point_bytes(p.1));
        }
        i = i + 1;
    }
    proof {
        assert(positions@.subrange(0, positions@.len() as int) =~= positions@);
    }
    8 * i
}

/// Writes the varint encodings of all triangle vertex indices into `buf`
/// at `offset`; returns the number of bytes written and leaves every other
/// byte as it was.
fn write_cells(cells: &Vec<u64>, buf: &mut Vec<u8>, offset: usize) -> (n: usize)
    requires
        offset + cells_bytes(cells@).len() <= old(buf)@.len(),
    ensures
        n == cells_bytes(cells@).len(),
        final(buf)@.len() == old(buf)@.len(),
        final(buf)@.subrange(offset as int, offset + n) == cells_bytes(cells@),
        forall|k: int|
            0 <= k < old(buf)@.len() && !(offset <= k < offset + n) ==> final(buf)@[k] == old(
                buf,
            )@[k],
{
    let ghost buf0 = old(buf)@;
    let blen: usize = buf.len();
    let mut i: usize = 0;
    let mut pos: usize = offset;
    while i < cells.len()
        invariant
            i <= cells@.len(),
            offset <= pos,
            pos - offset == cells_bytes(cells@.subrange(0, i as int)).len(),
            offset + cells_bytes(cells@).len() <= buf@.len(),
            buf@.len() == blen,
            buf@.len() == buf0.len(),
            buf@.subrange(offset as int, pos as int) == cells_bytes(cells@.subrange(0, i as int)),
            forall|k: int| 0 <= k < buf0.len() && !(offset <= k < pos) ==> buf@[k] == buf0[k],
        decreases cells@.len() - i,
    {
        proof {
            lemma_cells_bytes_extend(cells@, i as int);
            lemma_cells_bytes_prefix(cells@, i + 1);
        }
        let ghost pre = buf@;
        let c = cells[i];
        let w = varint::encode_with_offset(c, buf, pos);
        proof {
            assert(buf@.subrange(offset as int, pos as int) =~= pre.subrange(
                offset as int,
                pos as int,
            ));
            assert(buf@.subrange(offset as int, pos + w) =~= pre.subrange(offset as int, pos as int)
                + varint_bytes(c));
        }
        pos = pos + w;
        i = i + 1;
    }
    proof {
        assert(cells@.subrange(0, cells@.len() as int) =~= cells@);
    }
    pos - offset
}

/// Sum of the varint lengths of all triangle vertex indices, i.e. the byte
/// size of their encoding.
fn cells_data_length(cells: &Vec<u64>) -> (n: usize)
    requires
        cells_bytes(cells@).len() <= usize::MAX,
    ensures
        n == cells_bytes(cells@).len(),
{
    let mut i: usize = 0;
    let mut acc: usize = 0;
    while i < cells.len()
        invariant
            i <= cells@.len(),
            acc == cells_bytes(cells@.subrange(0, i as int)).len(),
            cells_bytes(cells@).len() <= usize::MAX,
        decreases cells@.len() - i,
    {
        proof {
            lemma_cells_bytes_extend(cells@, i as int);
            lemma_cells_bytes_prefix(cells@, i + 1);
        }
        acc = acc + varint::length(cells[i]);
        i = i + 1;
    }
    proof {
        assert(cells@.subrange(0, cells@.len() as int) =~= cells@);
    }
    acc
}

/// A map node: one coordinate pair with its feature class and label.
pub struct PeerNode {
    pub id: u64,
    pub lon: i32,
    pub lat: i32,
    pub typ: u64,
    pub label: Vec<u8>,
}

impl PeerNode {
    /// Builds a node from its id, an externally classified feature class
    /// and label, and a quantized coordinate pair.
    pub fn new(id: u64, typ: u64, label: Vec<u8>, lon: i32, lat: i32) -> (r: Self)
        ensures
            r.id == id && r.typ == typ && r.label == label && r.lon == lon && r.lat == lat,
    {
        PeerNode { id, lon, lat, typ, label }
    }

    /// Encodes the node record; the bytes returned are exactly
    /// `node_bytes` and their count exactly `node_size`.
    #[verifier::rlimit(50)]
    pub fn to_bytes_le(&self) -> (r: Vec<u8>)
        requires
            node_size(self.typ, self.id, self.label@) <= usize::MAX,
        ensures
            r@ == node_bytes(self.typ, self.id, self.lon, self.lat, self.label@),
            r@.len() == node_size(self.typ, self.id, self.label@),
    {
        let typ_length = varint::length(self.typ);
        let id_length = varint::length(self.id);
        let size = 1 + typ_length + id_length + 8 + self.label.len();
        let mut buf = zero_vec(size);
        let ghost whole = node_bytes(self.typ, self.id, self.lon, self.lat, self.label@);
        buf[0] = NODE_RECORD_TAG;
        let mut offset: usize = 1;
        proof {
            assert(buf@.subrange(0, 1) =~= seq![NODE_RECORD_TAG]);
        }
        let ghost p0 = buf@;
        let n1 = varint::encode_with_offset(self.typ, &mut buf, offset);
        proof {
            assert(buf@.subrange(0, offset + n1) =~= seq![NODE_RECORD_TAG] + varint_bytes(
                self.typ,
            ));
        }
        offset = offset + n1;
        let ghost pa = buf@;
        let n2 = varint::encode_with_offset(self.id, &mut buf, offset);
        proof {
            assert(buf@.subrange(0, offset as int) =~= pa.subrange(0, offset as int));
            assert(buf@.subrange(0, offset + n2) =~= seq![NODE_RECORD_TAG] + varint_bytes(self.typ)
                + varint_bytes(self.id));
        }
        offset = offset + n2;
        let ghost p1 = buf@;
        let n3 = point::encode_with_offset(self.lon, &mut buf, offset);
        proof {
            assert(buf@.subrange(0, offset as int) =~= p1.subrange(0, offset as int));
            assert(buf@.subrange(0, offset + 4) =~= seq![NODE_RECORD_TAG] + varint_bytes(self.typ)
                + varint_bytes(self.id) + point_bytes(self.lon));
        }
        offset = offset + n3;
        let ghost p2 = buf@;
        let n4 = point::encode_with_offset(self.lat, &mut buf, offset);
        proof {
            assert(buf@.subrange(0, offset as int) =~= p2.subrange(0, offset as int));
            assert(buf@.subrange(0, offset + 4) =~= seq![NODE_RECORD_TAG] + varint_bytes(self.typ)
                + varint_bytes(self.id) + point_bytes(self.lon) + point_bytes(self.lat));
        }
        offset = offset + n4;
        let ghost p3 = buf@;
        let n5 = label::encode_with_offset(&self.label, &mut buf, offset);
        proof {
            assert(buf@.subrange(0, offset as int) =~= p3.subrange(0, offset as int));
            assert(buf@.subrange(0, offset + n5) =~= whole);
            assert(buf@ =~= whole);
        }
        buf
    }
}

/// An open polyline: an ordered position list with its feature class and
/// label.
pub struct PeerLine {
    pub id: u64,
    pub positions: Vec<(i32, i32)>,
    pub typ: u64,
    pub label: Vec<u8>,
}

impl PeerLine {
    /// Builds a line from its id, an externally classified feature class
    /// and label, and the quantized positions in input order.
    pub fn new(id: u64, typ: u64, label: Vec<u8>, positions: Vec<(i32, i32)>) -> (r: Self)
        ensures
            r.id == id && r.typ == typ && r.label == label && r.positions == positions,
    {
        PeerLine { id, positions, typ, label }
    }

    /// Encodes the line record; the bytes returned are exactly
    /// `line_bytes` and their count exactly `line_size`.
    #[verifier::rlimit(50)]
    pub fn to_bytes_le(&self) -> (r: Vec<u8>)
        requires
            line_size(self.typ, self.id, self.positions@, self.label@) <= usize::MAX,
        ensures
            r@ == line_bytes(self.typ, self.id, self.positions@, self.label@),
            r@.len() == line_size(self.typ, self.id, self.positions@, self.label@),
    {
        let typ_length = varint::length(self.typ);
        let id_length = varint::length(self.id);
        let pcount = self.positions.len();
        let pcount_length = varint::length(pcount as u64);
        let size = 1 + typ_length + id_length + pcount_length + 8 * pcount + self.label.len();
        let mut buf = zero_vec(size);
        let ghost whole = line_bytes(self.typ, self.id, self.positions@, self.label@);
        proof {
            lemma_points_bytes_len(self.positions@);
        }
        buf[0] = LINE_RECORD_TAG;
        let mut offset: usize = 1;
        proof {
            assert(buf@.subrange(0, 1) =~= seq![LINE_RECORD_TAG]);
        }
        let ghost p0 = buf@;
        let n1 = varint::encode_with_offset(self.typ, &mut buf, offset);
        proof {
            assert(buf@.subrange(0, offset + n1) =~= seq![LINE_RECORD_TAG] + varint_bytes(
                self.typ,
            ));
        }
        offset = offset + n1;
        let ghost pa = buf@;
        let n2 = varint::encode_with_offset(self.id, &mut buf, offset);
        proof {
            assert(buf@.subrange(0, offset as int) =~= pa.subrange(0, offset as int));
            assert(buf@.subrange(0, offset + n2) =~= seq![LINE_RECORD_TAG] + varint_bytes(self.typ)
                + varint_bytes(self.id));
        }
        offset = offset + n2;
        let ghost p1 = buf@;
        let n3 = varint::encode_with_offset(pcount as u64, &mut buf, offset);
        proof {
            assert(buf@.subrange(0, offset as int) =~= p1.subrange(0, offset as int));
            assert(buf@.subrange(0, offset + n3) =~= seq![LINE_RECORD_TAG] + varint_bytes(self.typ)
                + varint_bytes(self.id) + varint_bytes(pcount as u64));
        }
        offset = offset + n3;
        let ghost p2 = buf@;
        let n4 = write_points(&self.positions, &mut buf, offset);
        proof {
            assert(buf@.subrange(0, offset as int) =~= p2.subrange(0, offset as int));
            assert(buf@.subrange(0, offset + n4) =~= seq![LINE_RECORD_TAG] + varint_bytes(self.typ)
                + varint_bytes(self.id) + varint_bytes(pcount as u64) + points_bytes(
                self.positions@,
            ));
        }
        offset = offset + n4;
        let ghost p3 = buf@;
        let n5 = label::encode_with_offset(&self.label, &mut buf, offset);
        proof {
            assert(buf@.subrange(0, offset as int) =~= p3.subrange(0, offset as int));
            assert(buf@.subrange(0, offset + n5) =~= whole);
            assert(buf@ =~= whole);
        }
        buf
    }
}

/// A filled polygon: an ordered ring of positions with its feature class
/// and label. Triangulation of the ring is an external collaborator; its
/// flat triangle-vertex-index list is handed to the encoder.
pub struct PeerArea {
    pub id: u64,
    pub positions: Vec<(i32, i32)>,
    pub typ: u64,
    pub label: Vec<u8>,
}

impl PeerArea {
    /// Builds an area from its id, an externally classified feature class
    /// and label, and the quantized ring positions in input order.
    pub fn new(id: u64, typ: u64, label: Vec<u8>, positions: Vec<(i32, i32)>) -> (r: Self)
        ensures
            r.id == id && r.typ == typ && r.label == label && r.positions == positions,
    {
        PeerArea { id, positions, typ, label }
    }

    /// Encodes the area record with the given triangle-vertex-index list;
    /// the bytes returned are exactly `area_bytes` and their count exactly
    /// `area_size`.
    #[verifier::rlimit(50)]
    pub fn to_bytes_le(&self, cells: &Vec<u64>) -> (r: Vec<u8>)
        requires
            area_size(self.typ, self.id, self.positions@, cells@, self.label@) <= usize::MAX,
        ensures
            r@ == area_bytes(self.typ, self.id, self.positions@, cells@, self.label@),
            r@.len() == area_size(self.typ, self.id, self.positions@, cells@, self.label@),
    {
        let typ_length = varint::length(self.typ);
        let id_length = varint::length(self.id);
        let pcount = self.positions.len();
        let pcount_length = varint::length(pcount as u64);
        proof {
            lemma_points_bytes_len(self.positions@);
        }
        let clen = varint::length((cells.len() / 3) as u64);
        let clen_data = cells_data_length(cells);
        let size = 1 + typ_length + id_length + pcount_length + 8 * pcount + clen + clen_data
            + self.label.len();
        let mut buf = zero_vec(size);
        let ghost whole = area_bytes(self.typ, self.id, self.positions@, cells@, self.label@);
        buf[0] = AREA_RECORD_TAG;
        let mut offset: usize = 1;
        proof {
            assert(buf@.subrange(0, 1) =~= seq![AREA_RECORD_TAG]);
        }
        let ghost p0 = buf@;
        let n1 = varint::encode_with_offset(self.typ, &mut buf, offset);
        proof {
            assert(buf@.subrange(0, offset + n1) =~= seq![AREA_RECORD_TAG] + varint_bytes(
                self.typ,
            ));
        }
        offset = offset + n1;
        let ghost pa = buf@;
        let n2 = varint::encode_with_offset(self.id, &mut buf, offset);
        proof {
            assert(buf@.subrange(0, offset as int) =~= pa.subrange(0, offset as int));
            assert(buf@.subrange(0, offset + n2) =~= seq![AREA_RECORD_TAG] + varint_bytes(self.typ)
                + varint_bytes(self.id));
        }
        offset = offset + n2;
        let ghost p1 = buf@;
        let n3 = varint::encode_with_offset(pcount as u64, &mut buf, offset);
        proof {
            assert(buf@.subrange(0, offset as int) =~= p1.subrange(0, offset as int));
            assert(buf@.subrange(0, offset + n3) =~= seq![AREA_RECORD_TAG] + varint_bytes(self.typ)
                + varint_bytes(self.id) + varint_bytes(pcount as u64));
        }
        offset = offset + n3;
        let ghost p2 = buf@;
        let n4 = write_points(&self.positions, &mut buf, offset);
        proof {
            assert(buf@.subrange(0, offset as int) =~= p2.subrange(0, offset as int));
            assert(buf@.subrange(0, offset + n4) =~= seq![AREA_RECORD_TAG] + varint_bytes(self.typ)
                + varint_bytes(self.id) + varint_bytes(pcount as u64) + points_bytes(
                self.positions@,
            ));
        }
        offset = offset + n4;
        let ghost p3 = buf@;
        let n5 = varint::encode_with_offset((cells.len() / 3) as u64, &mut buf, offset);
        proof {
            assert(buf@.subrange(0, offset as int) =~= p3.subrange(0, offset as int));
            assert(buf@.subrange(0, offset + n5) =~= seq![AREA_RECORD_TAG] + varint_bytes(self.typ)
                + varint_bytes(self.id) + varint_bytes(pcount as u64) + points_bytes(
                self.positions@,
            ) + varint_bytes((cells@.len() / 3) as u64));
        }
        offset = offset + n5;
        let ghost p4 = buf@;
        let n6 = write_cells(cells, &mut buf, offset);
        proof {
            assert(buf@.subrange(0, offset as int) =~= p4.subrange(0, offset as int));
            assert(buf@.subrange(0, offset + n6) =~= seq![AREA_RECORD_TAG] + varint_bytes(self.typ)
                + varint_bytes(self.id) + varint_bytes(pcount as u64) + points_bytes(
                self.positions@,
            ) + varint_bytes((cells@.len() / 3) as u64) + cells_bytes(cells@));
        }
        offset = offset + n6;
        let ghost p5 = buf@;
        let n7 = label::encode_with_offset(&self.label, &mut buf, offset);
        proof {
            assert(buf@.subrange(0, offset as int) =~= p5.subrange(0, offset as int));
            assert(buf@.subrange(0, offset + n7) =~= whole);
            assert(buf@ =~= whole);
        }
        buf
    }
}

} // verus!
