use vstd::prelude::*;
use crate::bytes::le32;
use crate::bytes::read_le_u32;
use crate::bytes::copy_range;
use crate::name::Name8;
use crate::name::ascii_ok;
use crate::records::check_ascii;
use crate::records::read_name8;
use crate::records::things_match;
use crate::records::linedefs_match;
use crate::records::sidedefs_match;
use crate::records::vertices_match;
use crate::records::segs_match;
use crate::records::subsectors_match;
use crate::records::nodes_match;
use crate::records::sectors_match;
use crate::records::sidedefs_text_ok;
use crate::records::sectors_text_ok;
use crate::bsp::BspMap;
use crate::bsp::level_refs_ok;
use crate::bsp::spawn_pos;
use crate::bsp::spawn_rot;
use crate::error::FormatError;

verus! {

/// The container kind its four-byte tag declares: the primary game data
/// container, or a patch container layered over it.
#[derive(Clone, Copy, Debug, PartialEq, Eq, Structural)]
pub enum WadKind {
    Iwad,
    Pwad,
}

/// The buffer starts with the primary container tag, the four bytes
/// "IWAD".
pub open spec fn tag_is_iwad(b: Seq<u8>) -> bool {
    b.len() >= 4 && b[0] == 0x49u8 && b[1] == 0x57u8 && b[2] == 0x41u8 && b[3] == 0x44u8
}

/// The buffer starts with the patch container tag, the four bytes "PWAD".
pub open spec fn tag_is_pwad(b: Seq<u8>) -> bool {
    b.len() >= 4 && b[0] == 0x50u8 && b[1] == 0x57u8 && b[2] == 0x41u8 && b[3] == 0x44u8
}

/// The buffer starts with a recognized container tag.
pub open spec fn tag_ok(b: Seq<u8>) -> bool {
    tag_is_iwad(b) || tag_is_pwad(b)
}

/// The lump count in the container header.
pub open spec fn num_lumps(b: Seq<u8>) -> int {
    le32(b, 4)
}

/// The directory offset in the container header.
pub open spec fn dir_off(b: Seq<u8>) -> int {
    le32(b, 8)
}

/// Where directory entry `i` starts: sixteen bytes per entry.
pub open spec fn entry_at(b: Seq<u8>, i: int) -> int {
    dir_off(b) + 16 * i
}

/// Directory entry `i` lies inside the buffer.
pub open spec fn entry_in_bounds(b: Seq<u8>, i: int) -> bool {
    entry_at(b, i) + 16 <= b.len()
}

/// The byte offset of lump `i`, from its directory entry.
pub open spec fn lump_pos(b: Seq<u8>, i: int) -> int {
    le32(b, entry_at(b, i))
}

/// The byte length of lump `i`, from its directory entry.
pub open spec fn lump_len(b: Seq<u8>, i: int) -> int {
    le32(b, entry_at(b, i) + 4)
}

/// The eight name bytes of lump `i`, from its directory entry.
pub open spec fn lump_name(b: Seq<u8>, i: int) -> Seq<u8> {
    b.subrange(entry_at(b, i) + 8, entry_at(b, i) + 16)
}

/// Lump `i`'s byte range lies inside the buffer.
pub open spec fn lump_in_bounds(b: Seq<u8>, i: int) -> bool {
    lump_pos(b, i) + lump_len(b, i) <= b.len()
}

/// The bytes of lump `i`.
pub open spec fn lump_data(b: Seq<u8>, i: int) -> Seq<u8> {
    b.subrange(lump_pos(b, i), lump_pos(b, i) + lump_len(b, i))
}

/// The first directory failure at or after entry `i`: an entry outside
/// the buffer, a lump range outside the buffer, or a non-ASCII name byte.
pub open spec fn dir_err_from(b: Seq<u8>, i: int) -> Option<FormatError>
    decreases num_lumps(b) - i,
        when 0 <= i <= num_lumps(b)
{
    if i >= num_lumps(b) {
        None
    } else if !entry_in_bounds(b, i) {
        Some(FormatError::DirectoryOutOfBounds)
    } else if !lump_in_bounds(b, i) {
        Some(FormatError::LumpOutOfBounds)
    } else if !ascii_ok(lump_name(b, i)) {
        Some(FormatError::InvalidText)
    } else {
        dir_err_from(b, i + 1)
    }
}

/// The twelve-byte header is present and its tag is recognized.
pub open spec fn header_ok(b: Seq<u8>) -> bool {
    b.len() >= 12 && tag_ok(b)
}

/// The whole container parses: header and every directory entry.
pub open spec fn container_ok(b: Seq<u8>) -> bool {
    header_ok(b) && dir_err_from(b, 0) is None
}

/// A named, offset-addressed byte range sliced out of the container.
pub struct Lump {
    /// The lump's eight-byte padded name.
    pub name: Name8,
    /// The lump's raw bytes.
    pub data: Vec<u8>,
}

/// Lump value `l` is what directory entry `i` describes.
pub open spec fn lump_matches(l: Lump, b: Seq<u8>, i: int) -> bool {
    l.name@ == lump_name(b, i) && l.data@ == lump_data(b, i)
}

/// The parsed container: its kind and its ordered lump list.
pub struct Container {
    pub kind: WadKind,
    pub lumps: Vec<Lump>,
}

impl Container {
    /// Parse the container header and directory and slice out every lump.
    /// Rejects a buffer shorter than the header, an unrecognized tag, a
    /// directory entry or lump range outside the buffer, and a non-ASCII
    /// name byte, in that order.
    #[verifier::loop_isolation(false)]
    pub fn read(file: &Vec<u8>) -> (r: Result<Container, FormatError>)
        ensures
            (match r {
                Ok(c) => {
                    &&& container_ok(file@)
                    &&& (c.kind == WadKind::Iwad <==> tag_is_iwad(file@))
                    &&& (c.kind == WadKind::Pwad <==> tag_is_pwad(file@))
                    &&& c.lumps@.len() == num_lumps(file@)
                    &&& forall|i: int| 0 <= i < c.lumps@.len() ==> lump_matches(
                        #[trigger] c.lumps@[i], file@, i)
                },
                Err(e) => {
                    ||| (e == FormatError::TooShort && file@.len() < 12)
                    ||| (e == FormatError::BadTag && file@.len() >= 12 && !tag_ok(file@))
                    ||| (header_ok(file@) && dir_err_from(file@, 0) == Some(e))
                },
            }),
    {
        let flen: usize = file.len();
        if flen < 12 {
            return Err(FormatError::TooShort);
        }
        let kind: WadKind = if file[0] == 0x49 && file[1] == 0x57 && file[2] == 0x41
            && file[3] == 0x44 {
            WadKind::Iwad
        } else if file[0] == 0x50 && file[1] == 0x57 && file[2] == 0x41 && file[3] == 0x44 {
            WadKind::Pwad
        } else {
            return Err(FormatError::BadTag);
        };
        let count: u32 = read_le_u32(file, 4);
        let diroff: u32 = read_le_u32(file, 8);
        let mut lumps: Vec<Lump> = Vec::new();
        let mut i: u32 = 0;
        while i < count
            invariant
                i <= count,
                lumps@.len() == i as int,
                dir_err_from(file@, 0) == dir_err_from(file@, i as int),
                forall|j: int| 0 <= j < i ==> lump_matches(#[trigger] lumps@[j], file@, j),
            decreases count - i,
        {
            let e64: u64 = (diroff as u64) + 16u64 * (i as u64);
            if !(e64 + 16 <= flen as u64) {
                return Err(FormatError::DirectoryOutOfBounds);
            }
            let e: usize = e64 as usize;
            let pos: u32 = read_le_u32(file, e);
            let sz: u32 = read_le_u32(file, e + 4);
            if !((pos as u64) + (sz as u64) <= flen as u64) {
                return Err(FormatError::LumpOutOfBounds);
            }
            if !check_ascii(file, e + 8, 8) {
                return Err(FormatError::InvalidText);
            }
            let name = read_name8(file, e + 8);
            let data = copy_range(file, pos as usize, sz as usize);
            lumps.push(Lump { name, data });
            i = i + 1;
        }
        Ok(Container { kind, lumps })
    }
}

/// The fixed sentinel lump name that ends the level run: the seven bytes
/// of "PLAYPAL" and one NUL byte. It names the first non-level lump of a
/// container.
pub open spec fn sentinel_name() -> Seq<u8> {
    seq![0x50u8, 0x4cu8, 0x41u8, 0x59u8, 0x50u8, 0x41u8, 0x4cu8, 0x00u8]
}

/// The sentinel lump name as a value.
pub fn sentinel() -> (r: Name8)
    ensures
        r@ == sentinel_name(),
{
    let r = Name8::new([0x50, 0x4c, 0x41, 0x59, 0x50, 0x41, 0x4c, 0x00]);
    proof {
        assert(r@ =~= sentinel_name());
    }
    r
}

/// How many levels the grouping scan finds from lump cursor `c` on: each
/// non-sentinel lump there marks a level of exactly ten following lumps,
/// and the scan must reach a sentinel-named lump. Running off the lump
/// list means the sentinel is missing; a marker with fewer than ten lumps
/// after it before that leaves the level incomplete.
pub open spec fn group_res(names: Seq<Seq<u8>>, c: int) -> Result<int, FormatError>
    decreases names.len() - c,
        when 0 <= c
{
    if c >= names.len() {
        Err(FormatError::MissingSentinel)
    } else if names[c] == sentinel_name() {
        Ok(0)
    } else if c + 11 > names.len() {
        Err(FormatError::IncompleteLevel)
    } else {
        match group_res(names, c + 11) {
            Ok(n) => Ok(n + 1),
            Err(e) => Err(e),
        }
    }
}

/// The result of a grouping scan, with `k` levels already consumed.
pub open spec fn add_levels(r: Result<int, FormatError>, k: int) -> Result<int, FormatError> {
    match r {
        Ok(n) => Ok(n + k),
        Err(e) => Err(e),
    }
}

/// The name of each lump, in order.
pub open spec fn names_of(lumps: Seq<Lump>) -> Seq<Seq<u8>> {
    lumps.map_values(|l: Lump| l.name@)
}

/// One level's slice of the lump list: its marker name and the raw bytes
/// of the ten lumps that follow the marker.
pub struct RawLevel {
    /// The marker lump's eight-byte name: the level's name.
    pub name: Name8,
    /// The ten raw blocks after the marker, in container order: objects,
    /// edges, surfaces, vertices, segments, regions, partition nodes,
    /// areas, and two reserved blocks kept for layout compatibility.
    pub blocks: Vec<Vec<u8>>,
}

/// Raw level `r` is the `k`th level group of the lump list.
pub open spec fn raw_level_matches(r: RawLevel, lumps: Seq<Lump>, k: int) -> bool {
    &&& r.name@ == lumps[11 * k].name@
    &&& r.blocks@.len() == 10
    &&& forall|j: int| 0 <= j < 10 ==> (#[trigger] r.blocks@[j])@ == lumps[11 * k + 1 + j].data@
}

/// Scan the lump list from the start: each lump at a multiple-of-eleven
/// cursor is a level marker whose ten following lumps are that level's
/// raw blocks, until the sentinel lump is reached.
#[verifier::loop_isolation(false)]
pub fn group(lumps: &Vec<Lump>) -> (r: Result<Vec<RawLevel>, FormatError>)
    ensures
        (match r {
            Ok(levels) => {
                &&& group_res(names_of(lumps@), 0) == Ok::<int, FormatError>(levels@.len() as int)
                &&& forall|k: int| 0 <= k < levels@.len() ==> raw_level_matches(
                    #[trigger] levels@[k], lumps@, k)
            },
            Err(e) => group_res(names_of(lumps@), 0) == Err::<int, FormatError>(e),
        }),
{
    let sent = sentinel();
    let ghost names = names_of(lumps@);
    let mut out: Vec<RawLevel> = Vec::new();
    let mut c: usize = 0;
    while c < lumps.len()
        invariant
            c == 11 * out@.len(),
            group_res(names, 0) == add_levels(group_res(names, c as int), out@.len() as int),
            forall|k: int| 0 <= k < out@.len() ==> raw_level_matches(#[trigger] out@[k], lumps@, k),
        decreases lumps@.len() - c,
    {
        proof {
            assert(names[c as int] == lumps@[c as int].name@);
        }
        if lumps[c].name.matches(&sent) {
            return Ok(out);
        }
        if lumps.len() - c < 11 {
            return Err(FormatError::IncompleteLevel);
        }
        let mut blocks: Vec<Vec<u8>> = Vec::new();
        let mut j: usize = 0;
        while j < 10
            invariant
                j <= 10,
                blocks@.len() == j as int,
                c + 11 <= lumps@.len(),
                forall|t: int| 0 <= t < j ==> (#[trigger] blocks@[t])@
                    == lumps@[c + 1 + t].data@,
            decreases 10 - j,
        {
            let src = &lumps[c + 1 + j];
            let block = copy_range(&src.data, 0, src.data.len());
            proof {
                assert(block@ =~= lumps@[c as int + 1 + j as int].data@);
            }
            blocks.push(block);
            j = j + 1;
        }
        out.push(RawLevel { name: lumps[c].name, blocks });
        c = c + 11;
    }
    Err(FormatError::MissingSentinel)
}

/// The name of each lump the directory describes, in order.
pub open spec fn dir_names(b: Seq<u8>) -> Seq<Seq<u8>> {
    Seq::new(num_lumps(b) as nat, |i: int| lump_name(b, i))
}

/// A grouping scan that succeeds with `m` levels has consumed exactly
/// eleven lumps per level and stopped at a sentinel-named lump inside the
/// list; no earlier marker carries the sentinel name. Together with the
/// ten raw blocks each grouped level holds, the level run's lump count is
/// a fixed multiple of the per-level count.
pub proof fn lemma_group_bounds(names: Seq<Seq<u8>>, c: int, m: int)
    requires
        0 <= c,
        group_res(names, c) == Ok::<int, FormatError>(m),
    ensures
        0 <= m,
        c + 11 * m < names.len(),
        names[c + 11 * m] == sentinel_name(),
        forall|k: int| 0 <= k < m ==> #[trigger] names[c + 11 * k] != sentinel_name(),
    decreases names.len() - c,
{
    if names[c] == sentinel_name() {
    } else {
        lemma_group_bounds(names, c + 11, m - 1);
        assert forall|k: int| 0 <= k < m implies #[trigger] names[c + 11 * k]
            != sentinel_name() by {
            if k > 0 {
                assert(names[(c + 11) + 11 * (k - 1)] != sentinel_name());
            }
        }
    }
}

/// Both text-bearing blocks of level `k` hold only ASCII text.
pub open spec fn level_text_ok(b: Seq<u8>, k: int) -> bool {
    sidedefs_text_ok(lump_data(b, 11 * k + 3)) && sectors_text_ok(lump_data(b, 11 * k + 8))
}

/// Every cross-reference of level `k` resolves, judged on the raw lumps.
pub open spec fn level_refs_ok_at(b: Seq<u8>, k: int) -> bool {
    level_refs_ok(
        lump_data(b, 11 * k + 2),
        lump_data(b, 11 * k + 3),
        lump_data(b, 11 * k + 4),
        lump_data(b, 11 * k + 5),
        lump_data(b, 11 * k + 6),
        lump_data(b, 11 * k + 7),
        lump_data(b, 11 * k + 8),
    )
}

/// Why assembling level `k` fails, if it does: bad text first, then a
/// reference that does not resolve.
pub open spec fn level_err(b: Seq<u8>, k: int) -> Option<FormatError> {
    if !level_text_ok(b, k) {
        Some(FormatError::InvalidText)
    } else if !level_refs_ok_at(b, k) {
        Some(FormatError::BadReference)
    } else {
        None
    }
}

/// The first assembly failure among levels `k` to `m`, if any.
pub open spec fn levels_err(b: Seq<u8>, k: int, m: int) -> Option<FormatError>
    decreases m - k,
        when 0 <= k <= m
{
    if k >= m {
        None
    } else {
        match level_err(b, k) {
            Some(e) => Some(e),
            None => levels_err(b, k + 1, m),
        }
    }
}

/// Level value `m` is what the `k`th level group of the container
/// decodes to: every record collection decoded from its lump, all
/// cross-references resolving, and the four spawn slots read off the
/// objects.
pub open spec fn map_matches_level(m: BspMap, b: Seq<u8>, k: int) -> bool {
    &&& m.name@ == lump_name(b, 11 * k)
    &&& things_match(m.things@, lump_data(b, 11 * k + 1))
    &&& linedefs_match(m.linedefs@, lump_data(b, 11 * k + 2))
    &&& sidedefs_match(m.sidedefs@, lump_data(b, 11 * k + 3))
    &&& vertices_match(m.vertices@, lump_data(b, 11 * k + 4))
    &&& segs_match(m.segs@, lump_data(b, 11 * k + 5))
    &&& subsectors_match(m.subsectors@, lump_data(b, 11 * k + 6))
    &&& nodes_match(m.nodes@, lump_data(b, 11 * k + 7))
    &&& sectors_match(m.sectors@, lump_data(b, 11 * k + 8))
    &&& m.wf()
    &&& m.p1_spawn == spawn_pos(m.things@, 1) && m.p1_rot == spawn_rot(m.things@, 1)
    &&& m.p2_spawn == spawn_pos(m.things@, 2) && m.p2_rot == spawn_rot(m.things@, 2)
    &&& m.p3_spawn == spawn_pos(m.things@, 3) && m.p3_rot == spawn_rot(m.things@, 3)
    &&& m.p4_spawn == spawn_pos(m.things@, 4) && m.p4_rot == spawn_rot(m.things@, 4)
}

/// The index of the last level whose name equals `name`. Of several
/// levels under one name, the later one shadows the earlier, as a lookup
/// table that overwrites on insert would have it.
pub open spec fn last_with_name(maps: Seq<BspMap>, name: Seq<u8>) -> Option<int>
    decreases maps.len(),
{
    if maps.len() == 0 {
        None
    } else if maps.last().name@ == name {
        Some(maps.len() - 1)
    } else {
        last_with_name(maps.drop_last(), name)
    }
}

/// The whole loaded container: its kind and every level it holds, in
/// container order.
pub struct Wad {
    /// Which container kind the tag declared.
    pub wad_id: WadKind,
    /// The decoded levels, in the order their markers appear.
    pub maps: Vec<BspMap>,
}

impl Wad {
    /// Load a container from its raw bytes: parse the directory, group
    /// the lumps into levels, and assemble every level, validating all
    /// cross-references once. Any malformed part of the buffer rejects
    /// the whole load with the error of the first stage that failed.
    #[verifier::loop_isolation(false)]
    pub fn load(file: &Vec<u8>) -> (r: Result<Wad, FormatError>)
        ensures
            (match r {
                Ok(w) => {
                    &&& container_ok(file@)
                    &&& group_res(dir_names(file@), 0)
                        == Ok::<int, FormatError>(w.maps@.len() as int)
                    &&& levels_err(file@, 0, w.maps@.len() as int) is None
                    &&& (w.wad_id == WadKind::Iwad <==> tag_is_iwad(file@))
                    &&& (w.wad_id == WadKind::Pwad <==> tag_is_pwad(file@))
                    &&& forall|k: int| 0 <= k < w.maps@.len() ==> map_matches_level(
                        #[trigger] w.maps@[k], file@, k)
                },
                Err(e) => {
                    ||| (e == FormatError::TooShort && file@.len() < 12)
                    ||| (e == FormatError::BadTag && file@.len() >= 12 && !tag_ok(file@))
                    ||| (header_ok(file@) && dir_err_from(file@, 0) == Some(e))
                    ||| (container_ok(file@)
                        && group_res(dir_names(file@), 0) == Err::<int, FormatError>(e))
                    ||| (container_ok(file@) && (match group_res(dir_names(file@), 0) {
                        Ok(m) => levels_err(file@, 0, m) == Some(e),
                        Err(_) => false,
                    }))
                },
            }),
    {
        let container = match Container::read(file) {
            Ok(c) => c,
            Err(e) => {
                return Err(e);
            },
        };
        proof {
            assert(names_of(container.lumps@) =~~= dir_names(file@));
        }
        let levels = match group(&container.lumps) {
            Ok(l) => l,
            Err(e) => {
                return Err(e);
            },
        };
        let ghost mtot = levels@.len() as int;
        proof {
            lemma_group_bounds(dir_names(file@), 0, mtot);
        }
        let mut maps: Vec<BspMap> = Vec::new();
        let mut k: usize = 0;
        while k < levels.len()
            invariant
                maps@.len() == k as int,
                k <= levels@.len(),
                levels_err(file@, 0, mtot) == levels_err(file@, k as int, mtot),
                forall|t: int| 0 <= t < k ==> map_matches_level(#[trigger] maps@[t], file@, t),
            decreases levels@.len() - k,
        {
            let lv = &levels[k];
            proof {
                assert(raw_level_matches(levels@[k as int], container.lumps@, k as int));
                assert(lump_matches(
                    container.lumps@[11 * (k as int)], file@, 11 * (k as int)));
                assert forall|j: int| 0 <= j < 10 implies (#[trigger] lv.blocks@[j])@
                    == lump_data(file@, 11 * (k as int) + 1 + j) by {
                    assert(lump_matches(container.lumps@[11 * (k as int) + 1 + j],
                        file@, 11 * (k as int) + 1 + j));
                }
            }
            let m = match BspMap::assemble(lv.name, &lv.blocks) {
                Ok(m) => m,
                Err(e) => {
                    proof {
                        assert(level_err(file@, k as int) == Some(e));
                        assert(levels_err(file@, k as int, mtot) == Some(e));
                    }
                    return Err(e);
                },
            };
            maps.push(m);
            proof {
                assert(level_err(file@, k as int) is None);
                assert(levels_err(file@, k as int, mtot)
                    == levels_err(file@, k as int + 1, mtot));
            }
            k = k + 1;
        }
        Ok(Wad { wad_id: container.kind, maps })
    }

    /// Look a level up by its exact eight-byte padded name, embedded NUL
    /// padding included. Of several levels with the name, the last one
    /// wins; a missing name is recoverable and reported as absence, not
    /// an error.
    #[verifier::loop_isolation(false)]
    pub fn get_map(&self, name: &Name8) -> (r: Option<&BspMap>)
        ensures
            (match r {
                Some(m) => exists|i: int|
                    last_with_name(self.maps@, name@) == Some(i) && *m == self.maps@[i],
                None => last_with_name(self.maps@, name@) is None,
            }),
    {
        let mut i: usize = self.maps.len();
        proof {
            assert(self.maps@.take(i as int) =~= self.maps@);
        }
        while i > 0
            invariant
                i <= self.maps@.len(),
                last_with_name(self.maps@, name@)
                    == last_with_name(self.maps@.take(i as int), name@),
            decreases i,
        {
            i = i - 1;
            proof {
                assert(self.maps@.take(i + 1).drop_last() =~= self.maps@.take(i as int));
                assert(self.maps@.take(i + 1).last() == self.maps@[i as int]);
            }
            if self.maps[i].name.matches(name) {
                return Some(&self.maps[i]);
            }
        }
        None
    }
}


} // verus!
