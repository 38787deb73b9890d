use wadbsp::bsp::check_box;
use wadbsp::bsp::check_line;
use wadbsp::bsp::BspMap;
use wadbsp::encode::linedefs_to_bytes;
use wadbsp::encode::nodes_to_bytes;
use wadbsp::encode::sectors_to_bytes;
use wadbsp::encode::segs_to_bytes;
use wadbsp::encode::sidedefs_to_bytes;
use wadbsp::encode::subsectors_to_bytes;
use wadbsp::encode::things_to_bytes;
use wadbsp::encode::vertices_to_bytes;
use wadbsp::error::FormatError;
use wadbsp::name::Name8;
use wadbsp::records::bool_from_i16;
use wadbsp::records::child_from_raw;
use wadbsp::records::ChildRef;
use wadbsp::records::LineDef;
use wadbsp::records::Node;
use wadbsp::records::Sector;
use wadbsp::records::Seg;
use wadbsp::records::SideDef;
use wadbsp::records::SubSector;
use wadbsp::records::Thing;
use wadbsp::records::Vertex;
use wadbsp::wad::group;
use wadbsp::wad::Container;
use wadbsp::wad::Wad;
use wadbsp::wad::WadKind;

fn le16(out: &mut Vec<u8>, v: i32) {
    let u = (v as i64).rem_euclid(0x1_0000) as u16;
    out.push((u % 256) as u8);
    out.push((u / 256) as u8);
}

fn le32(out: &mut Vec<u8>, v: u32) {
    out.push((v & 0xff) as u8);
    out.push(((v >> 8) & 0xff) as u8);
    out.push(((v >> 16) & 0xff) as u8);
    out.push(((v >> 24) & 0xff) as u8);
}

fn name8(s: &str) -> [u8; 8] {
    let mut r = [0u8; 8];
    for (i, b) in s.bytes().enumerate() {
        r[i] = b;
    }
    r
}

fn thing_bytes(x: i32, y: i32, angle: i32, code: i32, flags: i32) -> Vec<u8> {
    let mut b = Vec::new();
    le16(&mut b, x);
    le16(&mut b, y);
    le16(&mut b, angle);
    le16(&mut b, code);
    le16(&mut b, flags);
    b
}

fn linedef_bytes(
    start: i32, end: i32, flags: i32, special: i32, tag: i32, front: i32, back: i32,
) -> Vec<u8> {
    let mut b = Vec::new();
    le16(&mut b, start);
    le16(&mut b, end);
    le16(&mut b, flags);
    le16(&mut b, special);
    le16(&mut b, tag);
    le16(&mut b, front);
    le16(&mut b, back);
    b
}

/// One well-formed level's ten blocks.
fn level_blocks() -> Vec<Vec<u8>> {
    // One player-start object.
    let things = thing_bytes(32, -64, 90, 1, 7);
    // One edge between the two vertices, front surface 0, no back surface.
    let linedefs = linedef_bytes(0, 1, 1, 0, 0, 0, -1);
    // One surface facing area 0.
    let mut sidedefs = Vec::new();
    le16(&mut sidedefs, 0);
    le16(&mut sidedefs, 0);
    sidedefs.extend_from_slice(&name8("AASTINKY"));
    sidedefs.extend_from_slice(&name8("-"));
    sidedefs.extend_from_slice(&name8("STARTAN3"));
    le16(&mut sidedefs, 0);
    // Two vertices.
    let mut vertices = Vec::new();
    le16(&mut vertices, 0);
    le16(&mut vertices, 0);
    le16(&mut vertices, 0);
    le16(&mut vertices, 128);
    // One segment of edge 0.
    let mut segs = Vec::new();
    le16(&mut segs, 0);
    le16(&mut segs, 1);
    le16(&mut segs, 8192);
    le16(&mut segs, 0);
    le16(&mut segs, 0);
    le16(&mut segs, 0);
    // One region holding that segment.
    let mut subsectors = Vec::new();
    le16(&mut subsectors, 1);
    le16(&mut subsectors, 0);
    // One partition node: a vertical line, both children the one region.
    let mut nodes = Vec::new();
    le16(&mut nodes, 0); // line start x
    le16(&mut nodes, 0); // line start y
    le16(&mut nodes, 0); // line delta x
    le16(&mut nodes, 1); // line delta y
    for _ in 0..8 {
        le16(&mut nodes, 0); // both bounding boxes
    }
    le16(&mut nodes, -32768); // right child: region 0
    le16(&mut nodes, -32768); // left child: region 0
    // One area.
    let mut sectors = Vec::new();
    le16(&mut sectors, 0);
    le16(&mut sectors, 128);
    sectors.extend_from_slice(&name8("FLOOR4_8"));
    sectors.extend_from_slice(&name8("CEIL3_5"));
    le16(&mut sectors, 160);
    le16(&mut sectors, 0);
    le16(&mut sectors, 0);
    vec![
        things,
        linedefs,
        sidedefs,
        vertices,
        segs,
        subsectors,
        nodes,
        sectors,
        Vec::new(),
        Vec::new(),
    ]
}

/// A whole container holding the given levels and the sentinel lump.
fn build_wad(tag: &[u8; 4], levels: &[(&str, Vec<Vec<u8>>)]) -> Vec<u8> {
    let mut lumps: Vec<([u8; 8], Vec<u8>)> = Vec::new();
    for (name, blocks) in levels {
        lumps.push((name8(name), Vec::new()));
        for b in blocks {
            lumps.push(([0u8; 8], b.clone()));
        }
    }
    // Give the level blocks distinct filler names.
    for (i, l) in lumps.iter_mut().enumerate() {
        if l.0 == [0u8; 8] {
            let n = format!("BLK{:05}", i);
            l.0 = name8(&n);
        }
    }
    lumps.push((name8("PLAYPAL\0"), vec![1, 2, 3]));
    let mut body = Vec::new();
    let mut dir = Vec::new();
    let header = 12u32;
    let mut pos = header;
    for (name, data) in &lumps {
        le32(&mut dir, pos);
        le32(&mut dir, data.len() as u32);
        dir.extend_from_slice(name);
        body.extend_from_slice(data);
        pos += data.len() as u32;
    }
    let mut file = Vec::new();
    file.extend_from_slice(tag);
    le32(&mut file, lumps.len() as u32);
    le32(&mut file, header + body.len() as u32);
    file.extend_from_slice(&body);
    file.extend_from_slice(&dir);
    file
}

#[test]
fn load_scenario_one_level() {
    let file = build_wad(b"IWAD", &[("E1M1\0\0\0\0", level_blocks())]);
    let wad = Wad::load(&file).unwrap();
    assert_eq!(wad.wad_id, WadKind::Iwad);
    assert_eq!(wad.maps.len(), 1);
    let key = Name8::new(name8("E1M1\0\0\0\0"));
    let map = wad.get_map(&key).unwrap();
    assert_eq!(map.vertices.len(), 2);
    assert_eq!(map.linedefs.len(), 1);
    assert_eq!(map.sectors.len(), 1);
    let (spawn, rot) = map.spawn_point(1);
    assert_eq!((spawn.x, spawn.y, rot), (32, -64, 90));
}

#[test]
fn load_rejects_bad_tag() {
    let file = build_wad(b"ZWAD", &[("E1M1\0\0\0\0", level_blocks())]);
    assert_eq!(Wad::load(&file).err(), Some(FormatError::BadTag));
}

#[test]
fn load_rejects_short_buffer() {
    let file = vec![0x49, 0x57, 0x41, 0x44, 0, 0];
    assert_eq!(Wad::load(&file).err(), Some(FormatError::TooShort));
}

#[test]
fn load_rejects_directory_out_of_bounds() {
    let mut file = Vec::new();
    file.extend_from_slice(b"PWAD");
    le32(&mut file, 2); // two lumps claimed
    le32(&mut file, 12); // directory right after the header
    // Only one 16-byte entry present.
    le32(&mut file, 12);
    le32(&mut file, 0);
    file.extend_from_slice(&name8("PLAYPAL\0"));
    assert_eq!(Wad::load(&file).err(), Some(FormatError::DirectoryOutOfBounds));
}

#[test]
fn load_rejects_lump_out_of_bounds() {
    let mut file = Vec::new();
    file.extend_from_slice(b"PWAD");
    le32(&mut file, 1);
    le32(&mut file, 12);
    le32(&mut file, 12); // lump points at the directory itself
    le32(&mut file, 10_000); // and claims far too many bytes
    file.extend_from_slice(&name8("PLAYPAL\0"));
    assert_eq!(Wad::load(&file).err(), Some(FormatError::LumpOutOfBounds));
}

#[test]
fn load_rejects_non_ascii_lump_name() {
    let mut file = Vec::new();
    file.extend_from_slice(b"PWAD");
    le32(&mut file, 1);
    le32(&mut file, 12);
    le32(&mut file, 12);
    le32(&mut file, 0);
    let mut bad = name8("PLAYPAL\0");
    bad[2] = 0xfe;
    file.extend_from_slice(&bad);
    assert_eq!(Wad::load(&file).err(), Some(FormatError::InvalidText));
}

#[test]
fn load_rejects_missing_sentinel() {
    let mut file = build_wad(b"IWAD", &[("E1M1\0\0\0\0", level_blocks())]);
    // Drop the sentinel from the directory: the scan runs off the list.
    file[4] = 11;
    assert_eq!(Wad::load(&file).err(), Some(FormatError::MissingSentinel));
}

#[test]
fn load_rejects_incomplete_level() {
    // A marker followed by only the sentinel: fewer than ten blocks remain.
    let file = build_wad(b"IWAD", &[("E1M1\0\0\0\0", vec![Vec::new()])]);
    assert_eq!(Wad::load(&file).err(), Some(FormatError::IncompleteLevel));
}

#[test]
fn load_rejects_empty_lump_list() {
    let mut file = Vec::new();
    file.extend_from_slice(b"IWAD");
    le32(&mut file, 0);
    le32(&mut file, 12);
    assert_eq!(Wad::load(&file).err(), Some(FormatError::MissingSentinel));
}

#[test]
fn load_rejects_bad_texture_text() {
    let mut blocks = level_blocks();
    blocks[2][6] = 0xff; // a non-ASCII byte inside the upper texture name
    let file = build_wad(b"IWAD", &[("E1M1\0\0\0\0", blocks)]);
    assert_eq!(Wad::load(&file).err(), Some(FormatError::InvalidText));
}

#[test]
fn load_rejects_dangling_edge_endpoint() {
    let mut blocks = level_blocks();
    blocks[1] = linedef_bytes(0, 9, 1, 0, 0, 0, -1); // vertex 9 of 2
    let file = build_wad(b"IWAD", &[("E1M1\0\0\0\0", blocks)]);
    assert_eq!(Wad::load(&file).err(), Some(FormatError::BadReference));
}

#[test]
fn load_rejects_negative_surface_reference() {
    let mut blocks = level_blocks();
    blocks[1] = linedef_bytes(0, 1, 1, 0, 0, -5, -1); // only -1 means absent
    let file = build_wad(b"IWAD", &[("E1M1\0\0\0\0", blocks)]);
    assert_eq!(Wad::load(&file).err(), Some(FormatError::BadReference));
}

#[test]
fn load_rejects_upward_child_reference() {
    let mut blocks = level_blocks();
    // Right child names node 3; a node may only point below itself.
    blocks[6][24] = 3;
    blocks[6][25] = 0;
    let file = build_wad(b"IWAD", &[("E1M1\0\0\0\0", blocks)]);
    assert_eq!(Wad::load(&file).err(), Some(FormatError::BadReference));
}

#[test]
fn group_counts_and_sentinel() {
    let file = build_wad(
        b"IWAD",
        &[("E1M1\0\0\0\0", level_blocks()), ("E1M2\0\0\0\0", level_blocks())],
    );
    let container = Container::read(&file).unwrap();
    assert_eq!(container.lumps.len(), 23);
    let levels = group(&container.lumps).unwrap();
    assert_eq!(levels.len(), 2);
    for lv in &levels {
        assert_eq!(lv.blocks.len(), 10);
    }
    assert_eq!(&levels[1].name.bytes, &name8("E1M2\0\0\0\0"));
}

#[test]
fn get_map_needs_exact_padding() {
    let file = build_wad(b"IWAD", &[("E1M1\0\0\0\0", level_blocks())]);
    let wad = Wad::load(&file).unwrap();
    assert!(wad.get_map(&Name8::new(name8("E1M1\0\0\0\0"))).is_some());
    assert!(wad.get_map(&Name8::new(name8("E1M1    "))).is_none());
    assert!(wad.get_map(&Name8::new(name8("E1M2\0\0\0\0"))).is_none());
}

#[test]
fn spawn_last_match_wins() {
    let mut things = thing_bytes(1, 1, 0, 1, 7);
    things.extend_from_slice(&thing_bytes(2, 2, 45, 1, 7));
    let mut blocks = level_blocks();
    blocks[0] = things;
    let file = build_wad(b"IWAD", &[("E1M1\0\0\0\0", blocks)]);
    let wad = Wad::load(&file).unwrap();
    let (spawn, rot) = wad.maps[0].spawn_point(1);
    assert_eq!((spawn.x, spawn.y, rot), (2, 2, 45));
    // No object for slot 3: the default is the origin with angle zero.
    let (s3, r3) = wad.maps[0].spawn_point(3);
    assert_eq!((s3.x, s3.y, r3), (0, 0, 0));
}

#[test]
fn things_round_trip() {
    let mut b = thing_bytes(-100, 200, 90, 3004, 0b10011);
    b.extend_from_slice(&thing_bytes(7, -7, 270, 2, 5));
    let decoded = Thing::from_bytes(&b);
    assert_eq!(decoded.len(), 2);
    assert_eq!(things_to_bytes(&decoded), b);
}

#[test]
fn linedefs_round_trip() {
    let b = linedef_bytes(3, 4, 0b100010001, 12, 7, -1, 2);
    let decoded = LineDef::from_bytes(&b);
    assert_eq!(decoded.len(), 1);
    assert_eq!(linedefs_to_bytes(&decoded), b);
}

#[test]
fn sidedefs_round_trip() {
    let blocks = level_blocks();
    let decoded = SideDef::from_bytes(&blocks[2]).unwrap();
    assert_eq!(decoded.len(), 1);
    assert_eq!(sidedefs_to_bytes(&decoded), blocks[2]);
}

#[test]
fn vertices_round_trip() {
    let blocks = level_blocks();
    let decoded = Vertex::from_bytes(&blocks[3]);
    assert_eq!(decoded.len(), 2);
    assert_eq!(vertices_to_bytes(&decoded), blocks[3]);
}

#[test]
fn segs_round_trip() {
    let blocks = level_blocks();
    let decoded = Seg::from_bytes(&blocks[4]);
    assert_eq!(decoded.len(), 1);
    assert_eq!(segs_to_bytes(&decoded), blocks[4]);
}

#[test]
fn subsectors_round_trip() {
    let blocks = level_blocks();
    let decoded = SubSector::from_bytes(&blocks[5]);
    assert_eq!(decoded.len(), 1);
    assert_eq!(subsectors_to_bytes(&decoded), blocks[5]);
}

#[test]
fn nodes_round_trip() {
    let blocks = level_blocks();
    let decoded = Node::from_bytes(&blocks[6]);
    assert_eq!(decoded.len(), 1);
    assert_eq!(nodes_to_bytes(&decoded), blocks[6]);
}

#[test]
fn sectors_round_trip() {
    let blocks = level_blocks();
    let decoded = Sector::from_bytes(&blocks[7]).unwrap();
    assert_eq!(decoded.len(), 1);
    assert_eq!(sectors_to_bytes(&decoded), blocks[7]);
}

#[test]
fn round_trip_ignores_no_trailing_bytes() {
    // A block whose length is an exact chunk multiple reproduces exactly;
    // trailing bytes are dropped by decoding and stay dropped.
    let mut b = thing_bytes(1, 2, 3, 4, 5);
    b.push(0xAA); // one trailing byte: not part of any record
    let decoded = Thing::from_bytes(&b);
    assert_eq!(decoded.len(), 1);
    let again = things_to_bytes(&decoded);
    assert_eq!(&again[..], &b[..10]);
}

#[test]
fn flag_unpacking_is_bit_exact() {
    // Flags 0, 1 and 4 set: exactly those three decode true.
    let t = &Thing::from_bytes(&thing_bytes(0, 0, 0, 1, 0b10011))[0];
    assert_eq!(t.flags, 0b10011);
    assert!(t.easy); // bit 0: set
    assert!(t.medium); // bit 1: set
    assert!(!t.hard); // bit 2: clear
    assert!(!t.ambush); // bit 3: clear
    assert!(t.multiplayer); // bit 4: set
    let t2 = &Thing::from_bytes(&thing_bytes(0, 0, 0, 1, 0b00100))[0];
    assert!(!t2.easy);
    assert!(!t2.medium);
    assert!(t2.hard); // bit 2: set
    assert!(!t2.ambush);
    assert!(!t2.multiplayer);
    let l = &LineDef::from_bytes(&linedef_bytes(0, 0, 0b10011, 0, 0, -1, -1))[0];
    assert!(l.block_players_and_monsters);
    assert!(l.block_monsters);
    assert!(!l.two_sided);
    assert!(!l.upper_unpegged);
    assert!(l.lower_unpegged);
    assert!(!l.secret);
    assert!(!l.block_sound);
    assert!(!l.never_automap);
    assert!(!l.always_automap);
}

#[test]
fn bool_from_i16_is_bit_exact() {
    assert!(bool_from_i16(0b10011, 0));
    assert!(bool_from_i16(0b10011, 1));
    assert!(!bool_from_i16(0b10011, 2));
    assert!(!bool_from_i16(0b10011, 3));
    assert!(bool_from_i16(0b10011, 4));
    assert!(!bool_from_i16(0b10000, 3));
    assert!(bool_from_i16(0b10000, 4));
    assert!(!bool_from_i16(0, 5));
    assert!(bool_from_i16(-1, 0));
    assert!(bool_from_i16(-1, 13));
    assert!(!bool_from_i16(-32768, 13)); // only bit 15 of the pattern is set
    assert!(bool_from_i16(0x2000, 13));
}

#[test]
fn child_decoding_is_bias_exact() {
    assert_eq!(child_from_raw(-1), ChildRef::Region(32767));
    assert_eq!(child_from_raw(5), ChildRef::Subtree(5));
    assert_eq!(child_from_raw(-32768), ChildRef::Region(0));
    assert_eq!(child_from_raw(0), ChildRef::Subtree(0));
}

#[test]
fn angle_conversion_is_exact() {
    let mut b = Vec::new();
    for raw in [8192, 0, -8192] {
        le16(&mut b, 0);
        le16(&mut b, 0);
        le16(&mut b, raw);
        le16(&mut b, 0);
        le16(&mut b, 0);
        le16(&mut b, 0);
    }
    let segs = Seg::from_bytes(&b);
    assert_eq!(segs[0].angle_scaled() as f64 / 8192.0, 45.0);
    assert_eq!(segs[1].angle_scaled() as f64 / 8192.0, 0.0);
    assert_eq!(segs[2].angle_scaled() as f64 / 8192.0, -45.0);
}

fn two_node_map() -> BspMap {
    let subsectors = vec![
        SubSector { ssec_size: 0, first_seg: 0 },
        SubSector { ssec_size: 0, first_seg: 0 },
        SubSector { ssec_size: 0, first_seg: 0 },
    ];
    let node0 = Node {
        start: vec![0, 0],
        change: vec![0, 1],
        right_box: vec![0, 0, 0, 0],
        left_box: vec![0, 0, 0, 0],
        right_child: ChildRef::Region(0),
        left_child: ChildRef::Region(1),
    };
    let node1 = Node {
        start: vec![10, 0],
        change: vec![0, 1],
        right_box: vec![0, 0, 0, 0],
        left_box: vec![0, 0, 0, 0],
        right_child: ChildRef::Subtree(0),
        left_child: ChildRef::Region(2),
    };
    BspMap {
        name: Name8::new(name8("E9M9\0\0\0\0")),
        things: Vec::new(),
        p1_spawn: Vertex { x: 0, y: 0 },
        p1_rot: 0,
        p2_spawn: Vertex { x: 0, y: 0 },
        p2_rot: 0,
        p3_spawn: Vertex { x: 0, y: 0 },
        p3_rot: 0,
        p4_spawn: Vertex { x: 0, y: 0 },
        p4_rot: 0,
        linedefs: Vec::new(),
        sidedefs: Vec::new(),
        vertices: Vec::new(),
        segs: Vec::new(),
        subsectors,
        nodes: vec![node0, node1],
        sectors: Vec::new(),
    }
}

#[test]
fn traversal_is_deterministic_and_side_correct() {
    let map = two_node_map();
    let root = map.nodes.len() - 1;
    // The point is left of the root's vertical line at x = 10: the left
    // child (region 2) comes first.
    let p = Vertex { x: 5, y: 5 };
    let first = map.traverse_bsp(root, &p);
    let second = map.traverse_bsp(root, &p);
    assert_eq!(first, second);
    assert_eq!(first, vec![2, 0, 1]);
    // A point right of both lines sees the right children first.
    let q = Vertex { x: 20, y: 5 };
    assert_eq!(map.traverse_bsp(root, &q), vec![0, 1, 2]);
}

#[test]
fn traversal_emits_every_region_once() {
    let map = two_node_map();
    let root = map.nodes.len() - 1;
    for p in [
        Vertex { x: -100, y: 0 },
        Vertex { x: 0, y: 0 },
        Vertex { x: 7, y: -3 },
        Vertex { x: 1000, y: 1000 },
    ] {
        let mut out = map.traverse_bsp(root, &p);
        out.sort();
        assert_eq!(out, vec![0, 1, 2]);
    }
}

#[test]
fn check_line_classifies_points() {
    // A vertical line through the origin pointing up: right of it is
    // positive x.
    let start = vec![0, 0];
    let up = vec![0, 1];
    assert!(check_line(&start, &up, &Vertex { x: 3, y: 9 }));
    assert!(!check_line(&start, &up, &Vertex { x: -3, y: 9 }));
    // The same line pointing down inverts the answer.
    let down = vec![0, -1];
    assert!(!check_line(&start, &down, &Vertex { x: 3, y: 9 }));
    // A horizontal line pointing along positive x: below it is "right".
    let right = vec![1, 0];
    assert!(check_line(&start, &right, &Vertex { x: 3, y: -2 }));
    assert!(!check_line(&start, &right, &Vertex { x: 3, y: 2 }));
    // A diagonal line with slope one.
    let diag = vec![2, 2];
    assert!(check_line(&start, &diag, &Vertex { x: 10, y: 2 }));
    assert!(!check_line(&start, &diag, &Vertex { x: -10, y: 2 }));
}

#[test]
fn check_box_is_strict() {
    let bb = vec![10, -10, -20, 20]; // top, bottom, left, right
    assert!(check_box(&Vertex { x: 0, y: 0 }, &bb));
    assert!(!check_box(&Vertex { x: 20, y: 0 }, &bb)); // on the edge
    assert!(!check_box(&Vertex { x: 0, y: 10 }, &bb));
    assert!(!check_box(&Vertex { x: -30, y: 0 }, &bb));
}

#[test]
fn name_equality_keeps_padding() {
    let a = Name8::new(name8("E1M1\0\0\0\0"));
    let b = Name8::new(name8("E1M1\0\0\0\0"));
    let c = Name8::new(name8("E1M1\0\0\0*"));
    assert!(a.matches(&b));
    assert!(!a.matches(&c));
}

#[test]
fn directory_offsets_beyond_one_byte() {
    // A body large enough that lump offsets and the directory offset no
    // longer fit in a single byte.
    let mut things = Vec::new();
    for i in 0..40 {
        things.extend_from_slice(&thing_bytes(i, -i, 0, 10, 7));
    }
    let mut blocks = level_blocks();
    blocks[0] = things;
    let file = build_wad(b"IWAD", &[("E1M1\0\0\0\0", blocks)]);
    assert!(file.len() > 400);
    let wad = Wad::load(&file).unwrap();
    assert_eq!(wad.maps[0].things.len(), 40);
    assert_eq!(wad.maps[0].things[39].x, 39);
    assert_eq!(wad.maps[0].things[39].y, -39);
}

#[test]
fn duplicate_level_name_last_wins() {
    let mut blocks2 = level_blocks();
    blocks2[0] = thing_bytes(7, 8, 180, 1, 7);
    let file = build_wad(
        b"IWAD",
        &[("E1M1\0\0\0\0", level_blocks()), ("E1M1\0\0\0\0", blocks2)],
    );
    let wad = Wad::load(&file).unwrap();
    assert_eq!(wad.maps.len(), 2);
    let map = wad.get_map(&Name8::new(name8("E1M1\0\0\0\0"))).unwrap();
    let (spawn, rot) = map.spawn_point(1);
    assert_eq!((spawn.x, spawn.y, rot), (7, 8, 180));
}
