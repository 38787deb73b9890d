use vstd::prelude::*;
use vstd::arithmetic::power2::pow2;
use vstd::arithmetic::power2::lemma2_to64;
use vstd::arithmetic::power2::lemma_pow2_adds;
use vstd::arithmetic::power2::lemma_pow2_strictly_increases;
use vstd::arithmetic::div_mod::lemma_mod_multiples_vanish;
use vstd::arithmetic::div_mod::lemma_fundamental_div_mod;
use vstd::arithmetic::div_mod::lemma_fundamental_div_mod_converse_div;
use vstd::arithmetic::power2::lemma_pow2_pos;
use vstd::arithmetic::mul::lemma_mul_is_distributive_add;
use crate::bytes::le16;
use crate::bytes::le16s;
use crate::bytes::read_le_i16;
use crate::bytes::read_le_u16;
use crate::name::Name8;
use crate::name::ascii_ok;
use crate::error::FormatError;

verus! {

/// The flag at index `k` of a 16-bit field: exactly bit `k` of the
/// field's two's-complement pattern, bit 0 the first, lowest flag.
pub open spec fn flag_test(v: int, k: nat) -> bool
    recommends
        k <= 15,
{
    (v / (pow2(k) as int)) % 2 == 1
}

/// `2^k` as a 16-bit value.
fn pow2_u16(k: u32) -> (r: u16)
    requires
        k <= 14,
    ensures
        r as int == pow2(k as nat),
{
    proof {
        lemma2_to64();
    }
    let mut r: u16 = 1;
    let mut i: u32 = 0;
    while i < k
        invariant
            i <= k,
            k <= 14,
            r as int == pow2(i as nat),
        decreases k - i,
    {
        proof {
            lemma2_to64();
            if (i as nat) < 13 {
                lemma_pow2_strictly_increases(i as nat, 13);
            }
            lemma_pow2_adds(i as nat, 1);
        }
        r = r * 2;
        i = i + 1;
    }
    r
}

/// Adding the 16-bit wrap-around constant changes no flag below bit 15:
/// the bits of a negative field's two's-complement pattern are the bits
/// of its value plus `2^16`.
proof fn lemma_flag_test_wrap(v: int, k: nat)
    requires
        k <= 14,
    ensures
        flag_test(v + 0x1_0000, k) == flag_test(v, k),
{
    broadcast use vstd::arithmetic::div_mod::group_mod_properties;
    let p = pow2(k) as int;
    lemma_pow2_pos(k);
    let q = v / p;
    let r = v % p;
    lemma_fundamental_div_mod(v, p);
    lemma_pow2_adds(k, (16 - k) as nat);
    lemma_pow2_adds(1, (15 - k) as nat);
    lemma2_to64();
    assert(0x1_0000 == p * (pow2((16 - k) as nat) as int));
    lemma_mul_is_distributive_add(p, q, pow2((16 - k) as nat) as int);
    lemma_fundamental_div_mod_converse_div(
        v + 0x1_0000, p, q + pow2((16 - k) as nat), r);
    assert(pow2((16 - k) as nat) == 2 * pow2((15 - k) as nat));
    lemma_mod_multiples_vanish(pow2((15 - k) as nat) as int, q, 2);
}

/// The flag at `index` in an unsigned 16-bit flag field.
pub(crate) fn flag_of_u16(v: u16, index: u32) -> (r: bool)
    requires
        index <= 13,
    ensures
        r == flag_test(v as int, index as nat),
{
    let p: u16 = pow2_u16(index);
    proof {
        lemma_pow2_pos(index as nat);
    }
    (v / p) % 2 == 1
}

/// The flag at `index` in a signed 16-bit flag field: bit `index` of the
/// field's two's-complement pattern.
pub fn bool_from_i16(value: i16, index: u32) -> (r: bool)
    requires
        index <= 13,
    ensures
        r == flag_test(value as int, index as nat),
{
    let v: u16 = if value >= 0 {
        value as u16
    } else {
        ((value as i32) + 0x1_0000) as u16
    };
    proof {
        if value < 0 {
            lemma_flag_test_wrap(value as int, index as nat);
        }
    }
    flag_of_u16(v, index)
}

/// A partition node's child reference, decoded from its raw signed value: a
/// set top bit marks a leaf region, with a fixed bias recovering the index.
#[derive(Clone, Copy, Debug, PartialEq, Eq, Structural)]
pub enum ChildRef {
    /// A leaf: the index of a region (subsector).
    Region(i16),
    /// A subtree: the index of another partition node.
    Subtree(i16),
}

/// The child reference encoded by a raw signed 16-bit value.
pub open spec fn child_of(v: int) -> ChildRef
    recommends
        -0x8000 <= v < 0x8000,
{
    if v < 0 {
        ChildRef::Region((v + 0x8000) as i16)
    } else {
        ChildRef::Subtree(v as i16)
    }
}

/// The unsigned 16-bit pattern that re-encodes a child reference.
pub open spec fn child_raw_u16(c: ChildRef) -> int
    recommends
        child_index_ok(c),
{
    match c {
        ChildRef::Region(i) => i + 0x8000,
        ChildRef::Subtree(i) => i as int,
    }
}

/// A decoded child reference always carries a non-negative index.
pub open spec fn child_index_ok(c: ChildRef) -> bool {
    match c {
        ChildRef::Region(i) => 0 <= i,
        ChildRef::Subtree(i) => 0 <= i,
    }
}

/// Decode a raw child value: negative values are regions, with the fixed
/// bias added back; the rest are subtree indices, kept as they are.
pub fn child_from_raw(raw: i16) -> (c: ChildRef)
    ensures
        c == child_of(raw as int),
        child_index_ok(c),
{
    if raw < 0 {
        ChildRef::Region(((raw as i32) + 0x8000) as i16)
    } else {
        ChildRef::Subtree(raw)
    }
}

/// A placeable game object: a spawn point, item or monster, with
/// per-difficulty and multiplayer visibility flags.
#[derive(Clone, Copy, Debug, PartialEq, Eq, Structural)]
pub struct Thing {
    pub x: i16,
    pub y: i16,
    pub angle: i16,
    pub thing_type: i16,
    /// The raw 16-bit flag field, kept for exact re-encoding.
    pub flags: u16,
    pub easy: bool,
    pub medium: bool,
    pub hard: bool,
    pub ambush: bool,
    pub multiplayer: bool,
}

/// The object decoded from the ten bytes at `off`.
pub open spec fn thing_matches(t: Thing, b: Seq<u8>, off: int) -> bool
    recommends
        0 <= off,
        off + 10 <= b.len(),
{
    &&& t.x as int == le16s(b, off)
    &&& t.y as int == le16s(b, off + 2)
    &&& t.angle as int == le16s(b, off + 4)
    &&& t.thing_type as int == le16s(b, off + 6)
    &&& t.flags as int == le16(b, off + 8)
    &&& t.easy == flag_test(le16(b, off + 8), 0)
    &&& t.medium == flag_test(le16(b, off + 8), 1)
    &&& t.hard == flag_test(le16(b, off + 8), 2)
    &&& t.ambush == flag_test(le16(b, off + 8), 3)
    &&& t.multiplayer == flag_test(le16(b, off + 8), 4)
}

/// The whole object sequence decoded from a byte block: one record per full
/// ten-byte chunk, trailing bytes ignored.
pub open spec fn things_match(s: Seq<Thing>, b: Seq<u8>) -> bool {
    &&& s.len() == b.len() / 10
    &&& forall|i: int| 0 <= i < s.len() ==> thing_matches(#[trigger] s[i], b, 10 * i)
}

impl Thing {
    /// Decode every complete ten-byte object record in the block.
    pub fn from_bytes(data: &Vec<u8>) -> (r: Vec<Thing>)
        ensures
            things_match(r@, data@),
    {
        let n: usize = data.len() / 10;
        proof {
            broadcast use vstd::arithmetic::div_mod::group_mod_properties;
            lemma_fundamental_div_mod(data@.len() as int, 10);
        }
        let mut out: Vec<Thing> = Vec::new();
        let mut i: usize = 0;
        while i < n
            invariant
                n == data@.len() as int / 10,
                10 * n <= data@.len(),
                data@.len() <= usize::MAX,
                out@.len() == i,
                i <= n,
                forall|j: int| 0 <= j < i ==> thing_matches(#[trigger] out@[j], data@, 10 * j),
            decreases n - i,
        {
            let loc: usize = i * 10;
            let flags = read_le_u16(data, loc + 8);
            let t = Thing {
                x: read_le_i16(data, loc),
                y: read_le_i16(data, loc + 2),
                angle: read_le_i16(data, loc + 4),
                thing_type: read_le_i16(data, loc + 6),
                flags,
                easy: flag_of_u16(flags, 0),
                medium: flag_of_u16(flags, 1),
                hard: flag_of_u16(flags, 2),
                ambush: flag_of_u16(flags, 3),
                multiplayer: flag_of_u16(flags, 4),
            };
            out.push(t);
            i = i + 1;
        }
        out
    }
}

/// A map vertex, shared by edges, segments and partition lines.
#[derive(Clone, Copy, Debug, PartialEq, Eq, Structural)]
pub struct Vertex {
    pub x: i16,
    pub y: i16,
}

/// The vertex decoded from the four bytes at `off`.
pub open spec fn vertex_matches(v: Vertex, b: Seq<u8>, off: int) -> bool
    recommends
        0 <= off,
        off + 4 <= b.len(),
{
    &&& v.x as int == le16s(b, off)
    &&& v.y as int == le16s(b, off + 2)
}

/// The whole vertex sequence decoded from a byte block.
pub open spec fn vertices_match(s: Seq<Vertex>, b: Seq<u8>) -> bool {
    &&& s.len() == b.len() / 4
    &&& forall|i: int| 0 <= i < s.len() ==> vertex_matches(#[trigger] s[i], b, 4 * i)
}

impl Vertex {
    /// Decode every complete four-byte vertex record in the block.
    pub fn from_bytes(data: &Vec<u8>) -> (r: Vec<Vertex>)
        ensures
            vertices_match(r@, data@),
    {
        let n: usize = data.len() / 4;
        proof {
            broadcast use vstd::arithmetic::div_mod::group_mod_properties;
            lemma_fundamental_div_mod(data@.len() as int, 4);
        }
        let mut out: Vec<Vertex> = Vec::new();
        let mut i: usize = 0;
        while i < n
            invariant
                n == data@.len() as int / 4,
                4 * n <= data@.len(),
                data@.len() <= usize::MAX,
                out@.len() == i,
                i <= n,
                forall|j: int| 0 <= j < i ==> vertex_matches(#[trigger] out@[j], data@, 4 * j),
            decreases n - i,
        {
            let loc: usize = i * 4;
            let v = Vertex { x: read_le_i16(data, loc), y: read_le_i16(data, loc + 2) };
            out.push(v);
            i = i + 1;
        }
        out
    }
}

/// Wrap the eight bytes at `off` as a name value.
pub(crate) fn read_name8(b: &Vec<u8>, off: usize) -> (r: Name8)
    requires
        off + 8 <= b@.len(),
    ensures
        r@ == b@.subrange(off as int, off + 8),
{
    let blen: usize = b.len();
    let bytes: [u8; 8] = [
        b[off], b[off + 1], b[off + 2], b[off + 3],
        b[off + 4], b[off + 5], b[off + 6], b[off + 7],
    ];
    let r = Name8::new(bytes);
    proof {
        assert(r@ =~= b@.subrange(off as int, off + 8));
    }
    r
}

/// Whether the `len` bytes at `off` are all ASCII.
pub(crate) fn check_ascii(b: &Vec<u8>, off: usize, len: usize) -> (r: bool)
    requires
        off + len <= b@.len(),
    ensures
        r == ascii_ok(b@.subrange(off as int, off + len)),
{
    let blen: usize = b.len();
    let ghost sub = b@.subrange(off as int, off + len);
    let mut i: usize = 0;
    while i < len
        invariant
            i <= len,
            off + len <= b@.len(),
            b@.len() <= usize::MAX,
            sub == b@.subrange(off as int, off + len),
            forall|j: int| 0 <= j < i ==> sub[j] < 0x80,
        decreases len - i,
    {
        if b[off + i] >= 0x80 {
            assert(sub[i as int] >= 0x80);
            return false;
        }
        i = i + 1;
    }
    true
}

/// A directed wall edge between two vertices, with activation flags and up
/// to two surface references; a reference of `-1` means "absent".
#[derive(Clone, Copy, Debug, PartialEq, Eq, Structural)]
pub struct LineDef {
    pub start: i16,
    pub end: i16,
    /// The raw 16-bit flag field, kept for exact re-encoding.
    pub flags: u16,
    pub block_players_and_monsters: bool,
    pub block_monsters: bool,
    pub two_sided: bool,
    pub upper_unpegged: bool,
    pub lower_unpegged: bool,
    pub secret: bool,
    pub block_sound: bool,
    pub never_automap: bool,
    pub always_automap: bool,
    pub special_type: i16,
    pub sector_tag: i16,
    pub front_sidedef: i16,
    pub back_sidedef: i16,
}

/// The edge decoded from the fourteen bytes at `off`.
pub open spec fn linedef_matches(l: LineDef, b: Seq<u8>, off: int) -> bool
    recommends
        0 <= off,
        off + 14 <= b.len(),
{
    &&& l.start as int == le16s(b, off)
    &&& l.end as int == le16s(b, off + 2)
    &&& l.flags as int == le16(b, off + 4)
    &&& l.block_players_and_monsters == flag_test(le16(b, off + 4), 0)
    &&& l.block_monsters == flag_test(le16(b, off + 4), 1)
    &&& l.two_sided == flag_test(le16(b, off + 4), 2)
    &&& l.upper_unpegged == flag_test(le16(b, off + 4), 3)
    &&& l.lower_unpegged == flag_test(le16(b, off + 4), 4)
    &&& l.secret == flag_test(le16(b, off + 4), 5)
    &&& l.block_sound == flag_test(le16(b, off + 4), 6)
    &&& l.never_automap == flag_test(le16(b, off + 4), 7)
    &&& l.always_automap == flag_test(le16(b, off + 4), 8)
    &&& l.special_type as int == le16s(b, off + 6)
    &&& l.sector_tag as int == le16s(b, off + 8)
    &&& l.front_sidedef as int == le16s(b, off + 10)
    &&& l.back_sidedef as int == le16s(b, off + 12)
}

/// The whole edge sequence decoded from a byte block.
pub open spec fn linedefs_match(s: Seq<LineDef>, b: Seq<u8>) -> bool {
    &&& s.len() == b.len() / 14
    &&& forall|i: int| 0 <= i < s.len() ==> linedef_matches(#[trigger] s[i], b, 14 * i)
}

impl LineDef {
    /// Decode every complete fourteen-byte edge record in the block.
    pub fn from_bytes(data: &Vec<u8>) -> (r: Vec<LineDef>)
        ensures
            linedefs_match(r@, data@),
    {
        let n: usize = data.len() / 14;
        proof {
            broadcast use vstd::arithmetic::div_mod::group_mod_properties;
            lemma_fundamental_div_mod(data@.len() as int, 14);
        }
        let mut out: Vec<LineDef> = Vec::new();
        let mut i: usize = 0;
        while i < n
            invariant
                n == data@.len() as int / 14,
                14 * n <= data@.len(),
                data@.len() <= usize::MAX,
                out@.len() == i,
                i <= n,
                forall|j: int| 0 <= j < i ==> linedef_matches(#[trigger] out@[j], data@, 14 * j),
            decreases n - i,
        {
            let loc: usize = i * 14;
            let flags = read_le_u16(data, loc + 4);
            let l = LineDef {
                start: read_le_i16(data, loc),
                end: read_le_i16(data, loc + 2),
                flags,
                block_players_and_monsters: flag_of_u16(flags, 0),
                block_monsters: flag_of_u16(flags, 1),
                two_sided: flag_of_u16(flags, 2),
                upper_unpegged: flag_of_u16(flags, 3),
                lower_unpegged: flag_of_u16(flags, 4),
                secret: flag_of_u16(flags, 5),
                block_sound: flag_of_u16(flags, 6),
                never_automap: flag_of_u16(flags, 7),
                always_automap: flag_of_u16(flags, 8),
                special_type: read_le_i16(data, loc + 6),
                sector_tag: read_le_i16(data, loc + 8),
                front_sidedef: read_le_i16(data, loc + 10),
                back_sidedef: read_le_i16(data, loc + 12),
            };
            out.push(l);
            i = i + 1;
        }
        out
    }
}

/// Texture and offset data for one side of an edge.
#[derive(Clone, Copy, Debug)]
pub struct SideDef {
    pub x_offset: i16,
    pub y_offset: i16,
    pub upper_texture: Name8,
    pub lower_texture: Name8,
    pub middle_texture: Name8,
    pub facing_sector: i16,
}

/// The surface decoded from the thirty bytes at `off`.
pub open spec fn sidedef_matches(s: SideDef, b: Seq<u8>, off: int) -> bool
    recommends
        0 <= off,
        off + 30 <= b.len(),
{
    &&& s.x_offset as int == le16s(b, off)
    &&& s.y_offset as int == le16s(b, off + 2)
    &&& s.upper_texture@ == b.subrange(off + 4, off + 12)
    &&& s.lower_texture@ == b.subrange(off + 12, off + 20)
    &&& s.middle_texture@ == b.subrange(off + 20, off + 28)
    &&& s.facing_sector as int == le16s(b, off + 28)
}

/// The three texture-name fields of the surface record at `off` are ASCII.
pub open spec fn sidedef_text_ok(b: Seq<u8>, off: int) -> bool
    recommends
        0 <= off,
        off + 30 <= b.len(),
{
    ascii_ok(b.subrange(off + 4, off + 28))
}

/// Every complete surface record in the block has ASCII texture names.
pub open spec fn sidedefs_text_ok(b: Seq<u8>) -> bool {
    forall|i: int| 0 <= i < b.len() / 30 ==> sidedef_text_ok(b, #[trigger] (30 * i))
}

/// The whole surface sequence decoded from a byte block.
pub open spec fn sidedefs_match(s: Seq<SideDef>, b: Seq<u8>) -> bool {
    &&& s.len() == b.len() / 30
    &&& forall|i: int| 0 <= i < s.len() ==> sidedef_matches(#[trigger] s[i], b, 30 * i)
}

impl SideDef {
    /// Decode every complete thirty-byte surface record in the block, or
    /// reject the block if any texture-name byte is not ASCII.
    pub fn from_bytes(data: &Vec<u8>) -> (r: Result<Vec<SideDef>, FormatError>)
        ensures
            match r {
                Ok(s) => sidedefs_match(s@, data@) && sidedefs_text_ok(data@),
                Err(e) => e == FormatError::InvalidText && !sidedefs_text_ok(data@),
            },
    {
        let n: usize = data.len() / 30;
        proof {
            broadcast use vstd::arithmetic::div_mod::group_mod_properties;
            lemma_fundamental_div_mod(data@.len() as int, 30);
        }
        let mut out: Vec<SideDef> = Vec::new();
        let mut i: usize = 0;
        while i < n
            invariant
                n == data@.len() as int / 30,
                30 * n <= data@.len(),
                data@.len() <= usize::MAX,
                out@.len() == i,
                i <= n,
                forall|j: int| 0 <= j < i ==> sidedef_matches(#[trigger] out@[j], data@, 30 * j),
                forall|j: int| 0 <= j < i ==> sidedef_text_ok(data@, #[trigger] (30 * j)),
            decreases n - i,
        {
            let loc: usize = i * 30;
            if !check_ascii(data, loc + 4, 24) {
                proof {
                    assert(!sidedef_text_ok(data@, 30 * (i as int)));
                    assert(!sidedefs_text_ok(data@));
                }
                return Err(FormatError::InvalidText);
            }
            let s = SideDef {
                x_offset: read_le_i16(data, loc),
                y_offset: read_le_i16(data, loc + 2),
                upper_texture: read_name8(data, loc + 4),
                lower_texture: read_name8(data, loc + 12),
                middle_texture: read_name8(data, loc + 20),
                facing_sector: read_le_i16(data, loc + 28),
            };
            out.push(s);
            i = i + 1;
        }
        Ok(out)
    }
}

/// A sub-span of an edge, used to bound one convex region.
#[derive(Clone, Copy, Debug, PartialEq, Eq, Structural)]
pub struct Seg {
    pub start: i16,
    pub end: i16,
    /// The raw 16-bit binary angle; in degrees it reads as
    /// `bin_angle * 45 / 8192`.
    pub bin_angle: i16,
    pub linedef_num: i16,
    /// The raw direction field, kept for exact re-encoding.
    pub direction_raw: i16,
    /// Whether the segment points opposite to its parent edge.
    pub direction: bool,
    pub offset: i16,
}

/// The segment decoded from the twelve bytes at `off`.
pub open spec fn seg_matches(s: Seg, b: Seq<u8>, off: int) -> bool
    recommends
        0 <= off,
        off + 12 <= b.len(),
{
    &&& s.start as int == le16s(b, off)
    &&& s.end as int == le16s(b, off + 2)
    &&& s.bin_angle as int == le16s(b, off + 4)
    &&& s.linedef_num as int == le16s(b, off + 6)
    &&& s.direction_raw as int == le16s(b, off + 8)
    &&& s.direction == (le16s(b, off + 8) == 1)
    &&& s.offset as int == le16s(b, off + 10)
}

/// The whole segment sequence decoded from a byte block.
pub open spec fn segs_match(s: Seq<Seg>, b: Seq<u8>) -> bool {
    &&& s.len() == b.len() / 12
    &&& forall|i: int| 0 <= i < s.len() ==> seg_matches(#[trigger] s[i], b, 12 * i)
}

impl Seg {
    /// Decode every complete twelve-byte segment record in the block.
    pub fn from_bytes(data: &Vec<u8>) -> (r: Vec<Seg>)
        ensures
            segs_match(r@, data@),
    {
        let n: usize = data.len() / 12;
        proof {
            broadcast use vstd::arithmetic::div_mod::group_mod_properties;
            lemma_fundamental_div_mod(data@.len() as int, 12);
        }
        let mut out: Vec<Seg> = Vec::new();
        let mut i: usize = 0;
        while i < n
            invariant
                n == data@.len() as int / 12,
                12 * n <= data@.len(),
                data@.len() <= usize::MAX,
                out@.len() == i,
                i <= n,
                forall|j: int| 0 <= j < i ==> seg_matches(#[trigger] out@[j], data@, 12 * j),
            decreases n - i,
        {
            let loc: usize = i * 12;
            let direction_raw = read_le_i16(data, loc + 8);
            let s = Seg {
                start: read_le_i16(data, loc),
                end: read_le_i16(data, loc + 2),
                bin_angle: read_le_i16(data, loc + 4),
                linedef_num: read_le_i16(data, loc + 6),
                direction_raw,
                direction: direction_raw == 1,
                offset: read_le_i16(data, loc + 10),
            };
            out.push(s);
            i = i + 1;
        }
        out
    }

    /// The segment's angle in degrees, scaled by 8192 so that it stays
    /// exact: the angle in degrees is this value divided by 8192.
    pub fn angle_scaled(&self) -> (r: i32)
        ensures
            r as int == 45 * self.bin_angle as int,
    {
        (self.bin_angle as i32) * 45
    }
}

/// A convex leaf region of the partition tree: a contiguous run of
/// segments.
#[derive(Clone, Copy, Debug, PartialEq, Eq, Structural)]
pub struct SubSector {
    pub ssec_size: i16,
    pub first_seg: i16,
}

/// The region decoded from the four bytes at `off`.
pub open spec fn subsector_matches(s: SubSector, b: Seq<u8>, off: int) -> bool
    recommends
        0 <= off,
        off + 4 <= b.len(),
{
    &&& s.ssec_size as int == le16s(b, off)
    &&& s.first_seg as int == le16s(b, off + 2)
}

/// The whole region sequence decoded from a byte block.
pub open spec fn subsectors_match(s: Seq<SubSector>, b: Seq<u8>) -> bool {
    &&& s.len() == b.len() / 4
    &&& forall|i: int| 0 <= i < s.len() ==> subsector_matches(#[trigger] s[i], b, 4 * i)
}

impl SubSector {
    /// Decode every complete four-byte region record in the block.
    pub fn from_bytes(data: &Vec<u8>) -> (r: Vec<SubSector>)
        ensures
            subsectors_match(r@, data@),
    {
        let n: usize = data.len() / 4;
        proof {
            broadcast use vstd::arithmetic::div_mod::group_mod_properties;
            lemma_fundamental_div_mod(data@.len() as int, 4);
        }
        let mut out: Vec<SubSector> = Vec::new();
        let mut i: usize = 0;
        while i < n
            invariant
                n == data@.len() as int / 4,
                4 * n <= data@.len(),
                data@.len() <= usize::MAX,
                out@.len() == i,
                i <= n,
                forall|j: int| 0 <= j < i ==> subsector_matches(#[trigger] out@[j], data@, 4 * j),
            decreases n - i,
        {
            let loc: usize = i * 4;
            let s = SubSector {
                ssec_size: read_le_i16(data, loc),
                first_seg: read_le_i16(data, loc + 2),
            };
            out.push(s);
            i = i + 1;
        }
        out
    }
}

/// An internal partition node: a splitting line, a bounding box per side,
/// and a child reference per side.
#[derive(Debug)]
pub struct Node {
    /// The start of the partition line: x then y.
    pub start: Vec<i16>,
    /// The direction vector of the partition line: dx then dy.
    pub change: Vec<i16>,
    /// The right child's bounding box: top, bottom, left, right.
    pub right_box: Vec<i16>,
    /// The left child's bounding box: top, bottom, left, right.
    pub left_box: Vec<i16>,
    pub right_child: ChildRef,
    pub left_child: ChildRef,
}

/// The node decoded from the twenty-eight bytes at `off`.
pub open spec fn node_matches(n: Node, b: Seq<u8>, off: int) -> bool
    recommends
        0 <= off,
        off + 28 <= b.len(),
{
    &&& n.start@.len() == 2
    &&& n.start@[0] as int == le16s(b, off)
    &&& n.start@[1] as int == le16s(b, off + 2)
    &&& n.change@.len() == 2
    &&& n.change@[0] as int == le16s(b, off + 4)
    &&& n.change@[1] as int == le16s(b, off + 6)
    &&& n.right_box@.len() == 4
    &&& n.right_box@[0] as int == le16s(b, off + 8)
    &&& n.right_box@[1] as int == le16s(b, off + 10)
    &&& n.right_box@[2] as int == le16s(b, off + 12)
    &&& n.right_box@[3] as int == le16s(b, off + 14)
    &&& n.left_box@.len() == 4
    &&& n.left_box@[0] as int == le16s(b, off + 16)
    &&& n.left_box@[1] as int == le16s(b, off + 18)
    &&& n.left_box@[2] as int == le16s(b, off + 20)
    &&& n.left_box@[3] as int == le16s(b, off + 22)
    &&& n.right_child == child_of(le16s(b, off + 24))
    &&& n.left_child == child_of(le16s(b, off + 26))
}

/// The whole node sequence decoded from a byte block.
pub open spec fn nodes_match(s: Seq<Node>, b: Seq<u8>) -> bool {
    &&& s.len() == b.len() / 28
    &&& forall|i: int| 0 <= i < s.len() ==> node_matches(#[trigger] s[i], b, 28 * i)
}

impl Node {
    /// Decode every complete twenty-eight-byte node record in the block.
    pub fn from_bytes(data: &Vec<u8>) -> (r: Vec<Node>)
        ensures
            nodes_match(r@, data@),
    {
        let n: usize = data.len() / 28;
        proof {
            broadcast use vstd::arithmetic::div_mod::group_mod_properties;
            lemma_fundamental_div_mod(data@.len() as int, 28);
        }
        let mut out: Vec<Node> = Vec::new();
        let mut i: usize = 0;
        while i < n
            invariant
                n == data@.len() as int / 28,
                28 * n <= data@.len(),
                data@.len() <= usize::MAX,
                out@.len() == i,
                i <= n,
                forall|j: int| 0 <= j < i ==> node_matches(#[trigger] out@[j], data@, 28 * j),
            decreases n - i,
        {
            let loc: usize = i * 28;
            let start = vec![read_le_i16(data, loc), read_le_i16(data, loc + 2)];
            let change = vec![read_le_i16(data, loc + 4), read_le_i16(data, loc + 6)];
            let right_box = vec![
                read_le_i16(data, loc + 8),
                read_le_i16(data, loc + 10),
                read_le_i16(data, loc + 12),
                read_le_i16(data, loc + 14),
            ];
            let left_box = vec![
                read_le_i16(data, loc + 16),
                read_le_i16(data, loc + 18),
                read_le_i16(data, loc + 20),
                read_le_i16(data, loc + 22),
            ];
            let right_child = child_from_raw(read_le_i16(data, loc + 24));
            let left_child = child_from_raw(read_le_i16(data, loc + 26));
            let nd = Node { start, change, right_box, left_box, right_child, left_child };
            out.push(nd);
            i = i + 1;
        }
        out
    }
}

/// A floor/ceiling area referenced by surfaces.
#[derive(Clone, Copy, Debug)]
pub struct Sector {
    pub floor_height: i16,
    pub ceiling_height: i16,
    pub floor_texture: Name8,
    pub ceiling_texture: Name8,
    pub light_level: i16,
    pub special_type: i16,
    pub tag_number: i16,
}

/// The area decoded from the twenty-six bytes at `off`.
pub open spec fn sector_matches(s: Sector, b: Seq<u8>, off: int) -> bool
    recommends
        0 <= off,
        off + 26 <= b.len(),
{
    &&& s.floor_height as int == le16s(b, off)
    &&& s.ceiling_height as int == le16s(b, off + 2)
    &&& s.floor_texture@ == b.subrange(off + 4, off + 12)
    &&& s.ceiling_texture@ == b.subrange(off + 12, off + 20)
    &&& s.light_level as int == le16s(b, off + 20)
    &&& s.special_type as int == le16s(b, off + 22)
    &&& s.tag_number as int == le16s(b, off + 24)
}

/// The two texture-name fields of the area record at `off` are ASCII.
pub open spec fn sector_text_ok(b: Seq<u8>, off: int) -> bool
    recommends
        0 <= off,
        off + 26 <= b.len(),
{
    ascii_ok(b.subrange(off + 4, off + 20))
}

/// Every complete area record in the block has ASCII texture names.
pub open spec fn sectors_text_ok(b: Seq<u8>) -> bool {
    forall|i: int| 0 <= i < b.len() / 26 ==> sector_text_ok(b, #[trigger] (26 * i))
}

/// The whole area sequence decoded from a byte block.
pub open spec fn sectors_match(s: Seq<Sector>, b: Seq<u8>) -> bool {
    &&& s.len() == b.len() / 26
    &&& forall|i: int| 0 <= i < s.len() ==> sector_matches(#[trigger] s[i], b, 26 * i)
}

impl Sector {
    /// Decode every complete twenty-six-byte area record in the block, or
    /// reject the block if any texture-name byte is not ASCII.
    pub fn from_bytes(data: &Vec<u8>) -> (r: Result<Vec<Sector>, FormatError>)
        ensures
            match r {
                Ok(s) => sectors_match(s@, data@) && sectors_text_ok(data@),
                Err(e) => e == FormatError::InvalidText && !sectors_text_ok(data@),
            },
    {
        let n: usize = data.len() / 26;
        proof {
            broadcast use vstd::arithmetic::div_mod::group_mod_properties;
            lemma_fundamental_div_mod(data@.len() as int, 26);
        }
        let mut out: Vec<Sector> = Vec::new();
        let mut i: usize = 0;
        while i < n
            invariant
                n == data@.len() as int / 26,
                26 * n <= data@.len(),
                data@.len() <= usize::MAX,
                out@.len() == i,
                i <= n,
                forall|j: int| 0 <= j < i ==> sector_matches(#[trigger] out@[j], data@, 26 * j),
                forall|j: int| 0 <= j < i ==> sector_text_ok(data@, #[trigger] (26 * j)),
            decreases n - i,
        {
            let loc: usize = i * 26;
            if !check_ascii(data, loc + 4, 16) {
                proof {
                    assert(!sector_text_ok(data@, 26 * (i as int)));
                    assert(!sectors_text_ok(data@));
                }
                return Err(FormatError::InvalidText);
            }
            let s = Sector {
                floor_height: read_le_i16(data, loc),
                ceiling_height: read_le_i16(data, loc + 2),
                floor_texture: read_name8(data, loc + 4),
                ceiling_texture: read_name8(data, loc + 12),
                light_level: read_le_i16(data, loc + 20),
                special_type: read_le_i16(data, loc + 22),
                tag_number: read_le_i16(data, loc + 24),
            };
            out.push(s);
            i = i + 1;
        }
        Ok(out)
    }
}


} // verus!
