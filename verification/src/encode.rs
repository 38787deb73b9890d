use vstd::prelude::*;
use vstd::arithmetic::div_mod::lemma_fundamental_div_mod;
use crate::bytes::le16_bytes;
use crate::bytes::u16_val;
use crate::bytes::push_le_i16;
use crate::bytes::push_le_u16;
use crate::bytes::lemma_le16_round_trip;
use crate::bytes::lemma_le16s_round_trip;
use crate::name::Name8;
use crate::records::Thing;
use crate::records::LineDef;
use crate::records::SideDef;
use crate::records::Vertex;
use crate::records::Seg;
use crate::records::SubSector;
use crate::records::Node;
use crate::records::Sector;
use crate::records::ChildRef;
use crate::records::child_raw_u16;
use crate::records::child_index_ok;
use crate::records::thing_matches;
use crate::records::things_match;
use crate::records::linedef_matches;
use crate::records::linedefs_match;
use crate::records::sidedef_matches;
use crate::records::sidedefs_match;
use crate::records::vertex_matches;
use crate::records::vertices_match;
use crate::records::seg_matches;
use crate::records::segs_match;
use crate::records::subsector_matches;
use crate::records::subsectors_match;
use crate::records::node_matches;
use crate::records::nodes_match;
use crate::records::sector_matches;
use crate::records::sectors_match;

verus! {

/// The concatenation of the encodings of a sequence of records.
pub open spec fn encode_seq<A>(s: Seq<A>, f: spec_fn(A) -> Seq<u8>) -> Seq<u8>
    decreases s.len(),
{
    if s.len() == 0 {
        Seq::empty()
    } else {
        encode_seq(s.drop_last(), f) + f(s.last())
    }
}

/// When every record's encoding is its own chunk of a buffer, encoding the
/// whole sequence reproduces the buffer.
proof fn lemma_encode_chunks<A>(b: Seq<u8>, s: Seq<A>, c: int, fb: spec_fn(A) -> Seq<u8>)
    requires
        c > 0,
        b.len() == c * s.len(),
        forall|i: int| 0 <= i < s.len() ==> #[trigger] fb(s[i]) == b.subrange(c * i, c * i + c),
    ensures
        encode_seq(s, fb) == b,
    decreases s.len(),
{
    if s.len() == 0 {
        assert(b =~= Seq::<u8>::empty());
    } else {
        let m = s.len() - 1;
        assert(c * s.len() == c * m + c) by (nonlinear_arith)
            requires m == s.len() - 1;
        let bpre = b.subrange(0, c * m);
        assert forall|i: int| 0 <= i < m implies #[trigger] fb(s.drop_last()[i])
            == bpre.subrange(c * i, c * i + c) by {
            assert(s.drop_last()[i] == s[i]);
            assert(0 <= c * i && c * i + c <= c * m) by (nonlinear_arith)
                requires 0 <= i < m, c > 0;
            assert(fb(s[i]) == b.subrange(c * i, c * i + c));
            assert(bpre.subrange(c * i, c * i + c) =~= b.subrange(c * i, c * i + c));
        }
        lemma_encode_chunks(bpre, s.drop_last(), c, fb);
        assert(fb(s[m]) == b.subrange(c * m, c * m + c));
        assert(encode_seq(s, fb) =~= b);
    }
}

/// Append all eight bytes of a name.
pub fn push_name8(out: &mut Vec<u8>, n: &Name8)
    ensures
        final(out)@ == old(out)@ + n@,
{
    let mut i: usize = 0;
    while i < 8
        invariant
            i <= 8,
            out@ == old(out)@ + n@.subrange(0, i as int),
        decreases 8 - i,
    {
        out.push(n.bytes[i]);
        proof {
            assert(out@ =~= old(out)@ + n@.subrange(0, i + 1));
        }
        i = i + 1;
    }
    proof {
        assert(n@.subrange(0, 8) =~= n@);
    }
}

/// The ten bytes that encode an object record.
pub open spec fn thing_bytes(t: Thing) -> Seq<u8> {
    le16_bytes(u16_val(t.x)) + le16_bytes(u16_val(t.y)) + le16_bytes(u16_val(t.angle))
        + le16_bytes(u16_val(t.thing_type)) + le16_bytes(t.flags as int)
}

/// Encode a sequence of object records.
pub fn things_to_bytes(v: &Vec<Thing>) -> (r: Vec<u8>)
    ensures
        r@ == encode_seq(v@, |t: Thing| thing_bytes(t)),
{
    let ghost fb = |t: Thing| thing_bytes(t);
    let mut out: Vec<u8> = Vec::new();
    let mut i: usize = 0;
    proof {
        assert(v@.take(0) =~= Seq::<Thing>::empty());
    }
    while i < v.len()
        invariant
            i <= v@.len(),
            out@ == encode_seq(v@.take(i as int), fb),
            fb == (|t: Thing| thing_bytes(t)),
        decreases v@.len() - i,
    {
        let t = v[i];
        push_le_i16(&mut out, t.x);
        push_le_i16(&mut out, t.y);
        push_le_i16(&mut out, t.angle);
        push_le_i16(&mut out, t.thing_type);
        push_le_u16(&mut out, t.flags);
        proof {
            assert(v@.take(i + 1).drop_last() =~= v@.take(i as int));
            assert(v@.take(i + 1).last() == v@[i as int]);
            assert(out@ =~= encode_seq(v@.take(i + 1), fb));
        }
        i = i + 1;
    }
    proof {
        assert(v@.take(v@.len() as int) =~= v@);
    }
    out
}

/// One decoded object re-encodes to exactly its chunk.
proof fn lemma_thing_chunk(b: Seq<u8>, off: int, t: Thing)
    requires
        0 <= off,
        off + 10 <= b.len(),
        thing_matches(t, b, off),
    ensures
        thing_bytes(t) == b.subrange(off, off + 10),
{
    lemma_le16s_round_trip(b, off, t.x);
    lemma_le16s_round_trip(b, off + 2, t.y);
    lemma_le16s_round_trip(b, off + 4, t.angle);
    lemma_le16s_round_trip(b, off + 6, t.thing_type);
    lemma_le16_round_trip(b, off + 8);
    assert(thing_bytes(t) =~= b.subrange(off, off + 10));
}

/// Decoding an object block and re-encoding the records reproduces the
/// block byte for byte, whenever the block's length is an exact multiple of
/// the record size.
pub proof fn lemma_things_round_trip(b: Seq<u8>, s: Seq<Thing>)
    requires
        b.len() % 10 == 0,
        things_match(s, b),
    ensures
        encode_seq(s, |t: Thing| thing_bytes(t)) == b,
{
    lemma_fundamental_div_mod(b.len() as int, 10);
    let fb = |t: Thing| thing_bytes(t);
    assert forall|i: int| 0 <= i < s.len() implies #[trigger] fb(s[i])
        == b.subrange(10 * i, 10 * i + 10) by {
        assert(0 <= 10 * i && 10 * i + 10 <= b.len()) by (nonlinear_arith)
            requires 0 <= i < b.len() / 10, b.len() == 10 * (b.len() / 10);
        lemma_thing_chunk(b, 10 * i, s[i]);
    }
    lemma_encode_chunks(b, s, 10, fb);
}

/// The four bytes that encode a vertex record.
pub open spec fn vertex_bytes(v: Vertex) -> Seq<u8> {
    le16_bytes(u16_val(v.x)) + le16_bytes(u16_val(v.y))
}

/// Encode a sequence of vertex records.
pub fn vertices_to_bytes(v: &Vec<Vertex>) -> (r: Vec<u8>)
    ensures
        r@ == encode_seq(v@, |a: Vertex| vertex_bytes(a)),
{
    let ghost fb = |a: Vertex| vertex_bytes(a);
    let mut out: Vec<u8> = Vec::new();
    let mut i: usize = 0;
    proof {
        assert(v@.take(0) =~= Seq::<Vertex>::empty());
    }
    while i < v.len()
        invariant
            i <= v@.len(),
            out@ == encode_seq(v@.take(i as int), fb),
            fb == (|a: Vertex| vertex_bytes(a)),
        decreases v@.len() - i,
    {
        let a = v[i];
        push_le_i16(&mut out, a.x);
        push_le_i16(&mut out, a.y);
        proof {
            assert(v@.take(i + 1).drop_last() =~= v@.take(i as int));
            assert(v@.take(i + 1).last() == v@[i as int]);
            assert(out@ =~= encode_seq(v@.take(i + 1), fb));
        }
        i = i + 1;
    }
    proof {
        assert(v@.take(v@.len() as int) =~= v@);
    }
    out
}

/// One decoded vertex re-encodes to exactly its chunk.
proof fn lemma_vertex_chunk(b: Seq<u8>, off: int, v: Vertex)
    requires
        0 <= off,
        off + 4 <= b.len(),
        vertex_matches(v, b, off),
    ensures
        vertex_bytes(v) == b.subrange(off, off + 4),
{
    lemma_le16s_round_trip(b, off, v.x);
    lemma_le16s_round_trip(b, off + 2, v.y);
    assert(vertex_bytes(v) =~= b.subrange(off, off + 4));
}

/// Decoding a vertex block and re-encoding the records reproduces the
/// block, whenever its length is an exact multiple of the record size.
pub proof fn lemma_vertices_round_trip(b: Seq<u8>, s: Seq<Vertex>)
    requires
        b.len() % 4 == 0,
        vertices_match(s, b),
    ensures
        encode_seq(s, |v: Vertex| vertex_bytes(v)) == b,
{
    lemma_fundamental_div_mod(b.len() as int, 4);
    let fb = |v: Vertex| vertex_bytes(v);
    assert forall|i: int| 0 <= i < s.len() implies #[trigger] fb(s[i])
        == b.subrange(4 * i, 4 * i + 4) by {
        assert(0 <= 4 * i && 4 * i + 4 <= b.len()) by (nonlinear_arith)
            requires 0 <= i < b.len() / 4, b.len() == 4 * (b.len() / 4);
        lemma_vertex_chunk(b, 4 * i, s[i]);
    }
    lemma_encode_chunks(b, s, 4, fb);
}

/// The fourteen bytes that encode an edge record.
pub open spec fn linedef_bytes(l: LineDef) -> Seq<u8> {
    le16_bytes(u16_val(l.start)) + le16_bytes(u16_val(l.end)) + le16_bytes(l.flags as int)
        + le16_bytes(u16_val(l.special_type)) + le16_bytes(u16_val(l.sector_tag))
        + le16_bytes(u16_val(l.front_sidedef)) + le16_bytes(u16_val(l.back_sidedef))
}

/// Encode a sequence of edge records.
pub fn linedefs_to_bytes(v: &Vec<LineDef>) -> (r: Vec<u8>)
    ensures
        r@ == encode_seq(v@, |l: LineDef| linedef_bytes(l)),
{
    let ghost fb = |l: LineDef| linedef_bytes(l);
    let mut out: Vec<u8> = Vec::new();
    let mut i: usize = 0;
    proof {
        assert(v@.take(0) =~= Seq::<LineDef>::empty());
    }
    while i < v.len()
        invariant
            i <= v@.len(),
            out@ == encode_seq(v@.take(i as int), fb),
            fb == (|l: LineDef| linedef_bytes(l)),
        decreases v@.len() - i,
    {
        let l = v[i];
        push_le_i16(&mut out, l.start);
        push_le_i16(&mut out, l.end);
        push_le_u16(&mut out, l.flags);
        push_le_i16(&mut out, l.special_type);
        push_le_i16(&mut out, l.sector_tag);
        push_le_i16(&mut out, l.front_sidedef);
        push_le_i16(&mut out, l.back_sidedef);
        proof {
            assert(v@.take(i + 1).drop_last() =~= v@.take(i as int));
            assert(v@.take(i + 1).last() == v@[i as int]);
            assert(out@ =~= encode_seq(v@.take(i + 1), fb));
        }
        i = i + 1;
    }
    proof {
        assert(v@.take(v@.len() as int) =~= v@);
    }
    out
}

/// One decoded edge re-encodes to exactly its chunk.
proof fn lemma_linedef_chunk(b: Seq<u8>, off: int, l: LineDef)
    requires
        0 <= off,
        off + 14 <= b.len(),
        linedef_matches(l, b, off),
    ensures
        linedef_bytes(l) == b.subrange(off, off + 14),
{
    lemma_le16s_round_trip(b, off, l.start);
    lemma_le16s_round_trip(b, off + 2, l.end);
    lemma_le16_round_trip(b, off + 4);
    lemma_le16s_round_trip(b, off + 6, l.special_type);
    lemma_le16s_round_trip(b, off + 8, l.sector_tag);
    lemma_le16s_round_trip(b, off + 10, l.front_sidedef);
    lemma_le16s_round_trip(b, off + 12, l.back_sidedef);
    assert(linedef_bytes(l) =~= b.subrange(off, off + 14));
}

/// Decoding an edge block and re-encoding the records reproduces the
/// block, whenever its length is an exact multiple of the record size.
pub proof fn lemma_linedefs_round_trip(b: Seq<u8>, s: Seq<LineDef>)
    requires
        b.len() % 14 == 0,
        linedefs_match(s, b),
    ensures
        encode_seq(s, |l: LineDef| linedef_bytes(l)) == b,
{
    lemma_fundamental_div_mod(b.len() as int, 14);
    let fb = |l: LineDef| linedef_bytes(l);
    assert forall|i: int| 0 <= i < s.len() implies #[trigger] fb(s[i])
        == b.subrange(14 * i, 14 * i + 14) by {
        assert(0 <= 14 * i && 14 * i + 14 <= b.len()) by (nonlinear_arith)
            requires 0 <= i < b.len() / 14, b.len() == 14 * (b.len() / 14);
        lemma_linedef_chunk(b, 14 * i, s[i]);
    }
    lemma_encode_chunks(b, s, 14, fb);
}

/// The thirty bytes that encode a surface record.
pub open spec fn sidedef_bytes(s: SideDef) -> Seq<u8> {
    le16_bytes(u16_val(s.x_offset)) + le16_bytes(u16_val(s.y_offset)) + s.upper_texture@
        + s.lower_texture@ + s.middle_texture@ + le16_bytes(u16_val(s.facing_sector))
}

/// Encode a sequence of surface records.
pub fn sidedefs_to_bytes(v: &Vec<SideDef>) -> (r: Vec<u8>)
    ensures
        r@ == encode_seq(v@, |s: SideDef| sidedef_bytes(s)),
{
    let ghost fb = |s: SideDef| sidedef_bytes(s);
    let mut out: Vec<u8> = Vec::new();
    let mut i: usize = 0;
    proof {
        assert(v@.take(0) =~= Seq::<SideDef>::empty());
    }
    while i < v.len()
        invariant
            i <= v@.len(),
            out@ == encode_seq(v@.take(i as int), fb),
            fb == (|s: SideDef| sidedef_bytes(s)),
        decreases v@.len() - i,
    {
        let s = v[i];
        push_le_i16(&mut out, s.x_offset);
        push_le_i16(&mut out, s.y_offset);
        push_name8(&mut out, &s.upper_texture);
        push_name8(&mut out, &s.lower_texture);
        push_name8(&mut out, &s.middle_texture);
        push_le_i16(&mut out, s.facing_sector);
        proof {
            assert(v@.take(i + 1).drop_last() =~= v@.take(i as int));
            assert(v@.take(i + 1).last() == v@[i as int]);
            assert(out@ =~= encode_seq(v@.take(i + 1), fb));
        }
        i = i + 1;
    }
    proof {
        assert(v@.take(v@.len() as int) =~= v@);
    }
    out
}

/// One decoded surface re-encodes to exactly its chunk.
proof fn lemma_sidedef_chunk(b: Seq<u8>, off: int, s: SideDef)
    requires
        0 <= off,
        off + 30 <= b.len(),
        sidedef_matches(s, b, off),
    ensures
        sidedef_bytes(s) == b.subrange(off, off + 30),
{
    lemma_le16s_round_trip(b, off, s.x_offset);
    lemma_le16s_round_trip(b, off + 2, s.y_offset);
    lemma_le16s_round_trip(b, off + 28, s.facing_sector);
    assert(sidedef_bytes(s) =~= b.subrange(off, off + 30));
}

/// Decoding a surface block and re-encoding the records reproduces the
/// block, whenever its length is an exact multiple of the record size.
pub proof fn lemma_sidedefs_round_trip(b: Seq<u8>, s: Seq<SideDef>)
    requires
        b.len() % 30 == 0,
        sidedefs_match(s, b),
    ensures
        encode_seq(s, |d: SideDef| sidedef_bytes(d)) == b,
{
    lemma_fundamental_div_mod(b.len() as int, 30);
    let fb = |d: SideDef| sidedef_bytes(d);
    assert forall|i: int| 0 <= i < s.len() implies #[trigger] fb(s[i])
        == b.subrange(30 * i, 30 * i + 30) by {
        assert(0 <= 30 * i && 30 * i + 30 <= b.len()) by (nonlinear_arith)
            requires 0 <= i < b.len() / 30, b.len() == 30 * (b.len() / 30);
        lemma_sidedef_chunk(b, 30 * i, s[i]);
    }
    lemma_encode_chunks(b, s, 30, fb);
}

/// The twelve bytes that encode a segment record.
pub open spec fn seg_bytes(s: Seg) -> Seq<u8> {
    le16_bytes(u16_val(s.start)) + le16_bytes(u16_val(s.end)) + le16_bytes(u16_val(s.bin_angle))
        + le16_bytes(u16_val(s.linedef_num)) + le16_bytes(u16_val(s.direction_raw))
        + le16_bytes(u16_val(s.offset))
}

/// Encode a sequence of segment records.
pub fn segs_to_bytes(v: &Vec<Seg>) -> (r: Vec<u8>)
    ensures
        r@ == encode_seq(v@, |s: Seg| seg_bytes(s)),
{
    let ghost fb = |s: Seg| seg_bytes(s);
    let mut out: Vec<u8> = Vec::new();
    let mut i: usize = 0;
    proof {
        assert(v@.take(0) =~= Seq::<Seg>::empty());
    }
    while i < v.len()
        invariant
            i <= v@.len(),
            out@ == encode_seq(v@.take(i as int), fb),
            fb == (|s: Seg| seg_bytes(s)),
        decreases v@.len() - i,
    {
        let s = v[i];
        push_le_i16(&mut out, s.start);
        push_le_i16(&mut out, s.end);
        push_le_i16(&mut out, s.bin_angle);
        push_le_i16(&mut out, s.linedef_num);
        push_le_i16(&mut out, s.direction_raw);
        push_le_i16(&mut out, s.offset);
        proof {
            assert(v@.take(i + 1).drop_last() =~= v@.take(i as int));
            assert(v@.take(i + 1).last() == v@[i as int]);
            assert(out@ =~= encode_seq(v@.take(i + 1), fb));
        }
        i = i + 1;
    }
    proof {
        assert(v@.take(v@.len() as int) =~= v@);
    }
    out
}

/// One decoded segment re-encodes to exactly its chunk.
proof fn lemma_seg_chunk(b: Seq<u8>, off: int, s: Seg)
    requires
        0 <= off,
        off + 12 <= b.len(),
        seg_matches(s, b, off),
    ensures
        seg_bytes(s) == b.subrange(off, off + 12),
{
    lemma_le16s_round_trip(b, off, s.start);
    lemma_le16s_round_trip(b, off + 2, s.end);
    lemma_le16s_round_trip(b, off + 4, s.bin_angle);
    lemma_le16s_round_trip(b, off + 6, s.linedef_num);
    lemma_le16s_round_trip(b, off + 8, s.direction_raw);
    lemma_le16s_round_trip(b, off + 10, s.offset);
    assert(seg_bytes(s) =~= b.subrange(off, off + 12));
}

/// Decoding a segment block and re-encoding the records reproduces the
/// block, whenever its length is an exact multiple of the record size.
pub proof fn lemma_segs_round_trip(b: Seq<u8>, s: Seq<Seg>)
    requires
        b.len() % 12 == 0,
        segs_match(s, b),
    ensures
        encode_seq(s, |g: Seg| seg_bytes(g)) == b,
{
    lemma_fundamental_div_mod(b.len() as int, 12);
    let fb = |g: Seg| seg_bytes(g);
    assert forall|i: int| 0 <= i < s.len() implies #[trigger] fb(s[i])
        == b.subrange(12 * i, 12 * i + 12) by {
        assert(0 <= 12 * i && 12 * i + 12 <= b.len()) by (nonlinear_arith)
            requires 0 <= i < b.len() / 12, b.len() == 12 * (b.len() / 12);
        lemma_seg_chunk(b, 12 * i, s[i]);
    }
    lemma_encode_chunks(b, s, 12, fb);
}

/// The four bytes that encode a region record.
pub open spec fn subsector_bytes(s: SubSector) -> Seq<u8> {
    le16_bytes(u16_val(s.ssec_size)) + le16_bytes(u16_val(s.first_seg))
}

/// Encode a sequence of region records.
pub fn subsectors_to_bytes(v: &Vec<SubSector>) -> (r: Vec<u8>)
    ensures
        r@ == encode_seq(v@, |s: SubSector| subsector_bytes(s)),
{
    let ghost fb = |s: SubSector| subsector_bytes(s);
    let mut out: Vec<u8> = Vec::new();
    let mut i: usize = 0;
    proof {
        assert(v@.take(0) =~= Seq::<SubSector>::empty());
    }
    while i < v.len()
        invariant
            i <= v@.len(),
            out@ == encode_seq(v@.take(i as int), fb),
            fb == (|s: SubSector| subsector_bytes(s)),
        decreases v@.len() - i,
    {
        let s = v[i];
        push_le_i16(&mut out, s.ssec_size);
        push_le_i16(&mut out, s.first_seg);
        proof {
            assert(v@.take(i + 1).drop_last() =~= v@.take(i as int));
            assert(v@.take(i + 1).last() == v@[i as int]);
            assert(out@ =~= encode_seq(v@.take(i + 1), fb));
        }
        i = i + 1;
    }
    proof {
        assert(v@.take(v@.len() as int) =~= v@);
    }
    out
}

/// One decoded region re-encodes to exactly its chunk.
proof fn lemma_subsector_chunk(b: Seq<u8>, off: int, s: SubSector)
    requires
        0 <= off,
        off + 4 <= b.len(),
        subsector_matches(s, b, off),
    ensures
        subsector_bytes(s) == b.subrange(off, off + 4),
{
    lemma_le16s_round_trip(b, off, s.ssec_size);
    lemma_le16s_round_trip(b, off + 2, s.first_seg);
    assert(subsector_bytes(s) =~= b.subrange(off, off + 4));
}

/// Decoding a region block and re-encoding the records reproduces the
/// block, whenever its length is an exact multiple of the record size.
pub proof fn lemma_subsectors_round_trip(b: Seq<u8>, s: Seq<SubSector>)
    requires
        b.len() % 4 == 0,
        subsectors_match(s, b),
    ensures
        encode_seq(s, |u: SubSector| subsector_bytes(u)) == b,
{
    lemma_fundamental_div_mod(b.len() as int, 4);
    let fb = |u: SubSector| subsector_bytes(u);
    assert forall|i: int| 0 <= i < s.len() implies #[trigger] fb(s[i])
        == b.subrange(4 * i, 4 * i + 4) by {
        assert(0 <= 4 * i && 4 * i + 4 <= b.len()) by (nonlinear_arith)
            requires 0 <= i < b.len() / 4, b.len() == 4 * (b.len() / 4);
        lemma_subsector_chunk(b, 4 * i, s[i]);
    }
    lemma_encode_chunks(b, s, 4, fb);
}

/// The twenty-six bytes that encode an area record.
pub open spec fn sector_bytes(s: Sector) -> Seq<u8> {
    le16_bytes(u16_val(s.floor_height)) + le16_bytes(u16_val(s.ceiling_height))
        + s.floor_texture@ + s.ceiling_texture@ + le16_bytes(u16_val(s.light_level))
        + le16_bytes(u16_val(s.special_type)) + le16_bytes(u16_val(s.tag_number))
}

/// Encode a sequence of area records.
pub fn sectors_to_bytes(v: &Vec<Sector>) -> (r: Vec<u8>)
    ensures
        r@ == encode_seq(v@, |s: Sector| sector_bytes(s)),
{
    let ghost fb = |s: Sector| sector_bytes(s);
    let mut out: Vec<u8> = Vec::new();
    let mut i: usize = 0;
    proof {
        assert(v@.take(0) =~= Seq::<Sector>::empty());
    }
    while i < v.len()
        invariant
            i <= v@.len(),
            out@ == encode_seq(v@.take(i as int), fb),
            fb == (|s: Sector| sector_bytes(s)),
        decreases v@.len() - i,
    {
        let s = v[i];
        push_le_i16(&mut out, s.floor_height);
        push_le_i16(&mut out, s.ceiling_height);
        push_name8(&mut out, &s.floor_texture);
        push_name8(&mut out, &s.ceiling_texture);
        push_le_i16(&mut out, s.light_level);
        push_le_i16(&mut out, s.special_type);
        push_le_i16(&mut out, s.tag_number);
        proof {
            assert(v@.take(i + 1).drop_last() =~= v@.take(i as int));
            assert(v@.take(i + 1).last() == v@[i as int]);
            assert(out@ =~= encode_seq(v@.take(i + 1), fb));
        }
        i = i + 1;
    }
    proof {
        assert(v@.take(v@.len() as int) =~= v@);
    }
    out
}

/// One decoded area re-encodes to exactly its chunk.
proof fn lemma_sector_chunk(b: Seq<u8>, off: int, s: Sector)
    requires
        0 <= off,
        off + 26 <= b.len(),
        sector_matches(s, b, off),
    ensures
        sector_bytes(s) == b.subrange(off, off + 26),
{
    lemma_le16s_round_trip(b, off, s.floor_height);
    lemma_le16s_round_trip(b, off + 2, s.ceiling_height);
    lemma_le16s_round_trip(b, off + 20, s.light_level);
    lemma_le16s_round_trip(b, off + 22, s.special_type);
    lemma_le16s_round_trip(b, off + 24, s.tag_number);
    assert(sector_bytes(s) =~= b.subrange(off, off + 26));
}

/// Decoding an area block and re-encoding the records reproduces the
/// block, whenever its length is an exact multiple of the record size.
pub proof fn lemma_sectors_round_trip(b: Seq<u8>, s: Seq<Sector>)
    requires
        b.len() % 26 == 0,
        sectors_match(s, b),
    ensures
        encode_seq(s, |c: Sector| sector_bytes(c)) == b,
{
    lemma_fundamental_div_mod(b.len() as int, 26);
    let fb = |c: Sector| sector_bytes(c);
    assert forall|i: int| 0 <= i < s.len() implies #[trigger] fb(s[i])
        == b.subrange(26 * i, 26 * i + 26) by {
        assert(0 <= 26 * i && 26 * i + 26 <= b.len()) by (nonlinear_arith)
            requires 0 <= i < b.len() / 26, b.len() == 26 * (b.len() / 26);
        lemma_sector_chunk(b, 26 * i, s[i]);
    }
    lemma_encode_chunks(b, s, 26, fb);
}

/// A node that can be re-encoded: its line and box vectors have their fixed
/// lengths and both child indices are non-negative.
pub open spec fn node_encodable(n: Node) -> bool {
    &&& n.start@.len() == 2
    &&& n.change@.len() == 2
    &&& n.right_box@.len() == 4
    &&& n.left_box@.len() == 4
    &&& child_index_ok(n.right_child)
    &&& child_index_ok(n.left_child)
}

/// The twenty-eight bytes that encode a node record.
pub open spec fn node_bytes(n: Node) -> Seq<u8>
    recommends
        node_encodable(n),
{
    le16_bytes(u16_val(n.start@[0])) + le16_bytes(u16_val(n.start@[1]))
        + le16_bytes(u16_val(n.change@[0])) + le16_bytes(u16_val(n.change@[1]))
        + le16_bytes(u16_val(n.right_box@[0])) + le16_bytes(u16_val(n.right_box@[1]))
        + le16_bytes(u16_val(n.right_box@[2])) + le16_bytes(u16_val(n.right_box@[3]))
        + le16_bytes(u16_val(n.left_box@[0])) + le16_bytes(u16_val(n.left_box@[1]))
        + le16_bytes(u16_val(n.left_box@[2])) + le16_bytes(u16_val(n.left_box@[3]))
        + le16_bytes(child_raw_u16(n.right_child)) + le16_bytes(child_raw_u16(n.left_child))
}

/// Append the two bytes of a child reference's raw pattern.
fn push_child(out: &mut Vec<u8>, c: ChildRef)
    requires
        child_index_ok(c),
    ensures
        final(out)@ == old(out)@ + le16_bytes(child_raw_u16(c)),
{
    match c {
        ChildRef::Region(idx) => {
            push_le_u16(out, (idx as u16) + 0x8000);
        },
        ChildRef::Subtree(idx) => {
            push_le_i16(out, idx);
        },
    }
}

/// Encode a sequence of node records.
pub fn nodes_to_bytes(v: &Vec<Node>) -> (r: Vec<u8>)
    requires
        forall|i: int| 0 <= i < v@.len() ==> node_encodable(#[trigger] v@[i]),
    ensures
        r@ == encode_seq(v@, |n: Node| node_bytes(n)),
{
    let ghost fb = |n: Node| node_bytes(n);
    let mut out: Vec<u8> = Vec::new();
    let mut i: usize = 0;
    proof {
        assert(v@.take(0) =~= Seq::<Node>::empty());
    }
    while i < v.len()
        invariant
            i <= v@.len(),
            out@ == encode_seq(v@.take(i as int), fb),
            fb == (|n: Node| node_bytes(n)),
            forall|j: int| 0 <= j < v@.len() ==> node_encodable(#[trigger] v@[j]),
        decreases v@.len() - i,
    {
        let n = &v[i];
        assert(node_encodable(v@[i as int]));
        push_le_i16(&mut out, n.start[0]);
        push_le_i16(&mut out, n.start[1]);
        push_le_i16(&mut out, n.change[0]);
        push_le_i16(&mut out, n.change[1]);
        push_le_i16(&mut out, n.right_box[0]);
        push_le_i16(&mut out, n.right_box[1]);
        push_le_i16(&mut out, n.right_box[2]);
        push_le_i16(&mut out, n.right_box[3]);
        push_le_i16(&mut out, n.left_box[0]);
        push_le_i16(&mut out, n.left_box[1]);
        push_le_i16(&mut out, n.left_box[2]);
        push_le_i16(&mut out, n.left_box[3]);
        push_child(&mut out, n.right_child);
        push_child(&mut out, n.left_child);
        proof {
            assert(v@.take(i + 1).drop_last() =~= v@.take(i as int));
            assert(v@.take(i + 1).last() == v@[i as int]);
            assert(out@ =~= encode_seq(v@.take(i + 1), fb));
        }
        i = i + 1;
    }
    proof {
        assert(v@.take(v@.len() as int) =~= v@);
    }
    out
}

/// One decoded node re-encodes to exactly its chunk.
proof fn lemma_node_chunk(b: Seq<u8>, off: int, n: Node)
    requires
        0 <= off,
        off + 28 <= b.len(),
        node_matches(n, b, off),
    ensures
        node_bytes(n) == b.subrange(off, off + 28),
{
    lemma_le16s_round_trip(b, off, n.start@[0]);
    lemma_le16s_round_trip(b, off + 2, n.start@[1]);
    lemma_le16s_round_trip(b, off + 4, n.change@[0]);
    lemma_le16s_round_trip(b, off + 6, n.change@[1]);
    lemma_le16s_round_trip(b, off + 8, n.right_box@[0]);
    lemma_le16s_round_trip(b, off + 10, n.right_box@[1]);
    lemma_le16s_round_trip(b, off + 12, n.right_box@[2]);
    lemma_le16s_round_trip(b, off + 14, n.right_box@[3]);
    lemma_le16s_round_trip(b, off + 16, n.left_box@[0]);
    lemma_le16s_round_trip(b, off + 18, n.left_box@[1]);
    lemma_le16s_round_trip(b, off + 20, n.left_box@[2]);
    lemma_le16s_round_trip(b, off + 22, n.left_box@[3]);
    assert(child_raw_u16(n.right_child) == crate::bytes::le16(b, off + 24));
    assert(child_raw_u16(n.left_child) == crate::bytes::le16(b, off + 26));
    lemma_le16_round_trip(b, off + 24);
    lemma_le16_round_trip(b, off + 26);
    assert(node_bytes(n) =~= b.subrange(off, off + 28));
}

/// Decoding a node block and re-encoding the records reproduces the block,
/// whenever its length is an exact multiple of the record size.
pub proof fn lemma_nodes_round_trip(b: Seq<u8>, s: Seq<Node>)
    requires
        b.len() % 28 == 0,
        nodes_match(s, b),
    ensures
        encode_seq(s, |n: Node| node_bytes(n)) == b,
{
    lemma_fundamental_div_mod(b.len() as int, 28);
    let fb = |n: Node| node_bytes(n);
    assert forall|i: int| 0 <= i < s.len() implies #[trigger] fb(s[i])
        == b.subrange(28 * i, 28 * i + 28) by {
        assert(0 <= 28 * i && 28 * i + 28 <= b.len()) by (nonlinear_arith)
            requires 0 <= i < b.len() / 28, b.len() == 28 * (b.len() / 28);
        lemma_node_chunk(b, 28 * i, s[i]);
    }
    lemma_encode_chunks(b, s, 28, fb);
}


} // verus!
