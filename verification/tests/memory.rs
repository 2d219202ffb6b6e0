use std::collections::HashMap;

use factorio_3d::daynight::{
    find_daytime, game_darkness, init, sample, store_darkness, validate_daytime,
};
use factorio_3d::getters::{
    base_dir_addr, base_orient_addr, callable, decode_orientation, entity_dir, entity_pos,
    entity_pos_field, install, is_unit_double, is_unit_single, model_for_prototype, proto_model,
    turret_orient_addr, GetterFns, Orientation,
};
use factorio_3d::hooks::{hooked_get_map_position, pack, MapPos};
use factorio_3d::idmap::IdMap;
use factorio_3d::mem::{
    dq_is_ghost, follow, page_allows_read, read, readable, readable_off, scan_proto_strings,
    try_read, try_read_off, try_read_u64, Memory, Region,
};
use factorio_3d::models::{build_registry, Disk, Folder, Registry};
use factorio_3d::symbols::{
    by_symbol, find_game_functions, resolve, wanted, GameFn, PublicSymbol,
};
use factorio_3d::util::{le_u64, memo, AtomicF32, FxHasher, FX_SEED};

const READ_WRITE: u32 = 4;

fn region(base: u64, bytes: Vec<u8>) -> Region {
    Region { base, bytes, committed: true, protect: READ_WRITE }
}

fn put(bytes: &mut [u8], at: usize, v: u64) {
    bytes[at..at + 8].copy_from_slice(&v.to_le_bytes());
}

/// A short string of the game, held in place.
fn put_short(bytes: &mut [u8], at: usize, s: &str) {
    bytes[at..at + s.len()].copy_from_slice(s.as_bytes());
    put(bytes, at + 0x10, s.len() as u64);
    put(bytes, at + 0x18, 15);
}

fn clock(dusk: f64, ticks: u32, position: f64) -> Vec<u8> {
    let mut b = vec![0; 0x40];
    put(&mut b, 0, dusk.to_bits());
    put(&mut b, 8, 0.75f64.to_bits());
    put(&mut b, 0x10, 0.45f64.to_bits());
    put(&mut b, 0x18, 0.55f64.to_bits());
    b[0x20..0x24].copy_from_slice(&ticks.to_le_bytes());
    put(&mut b, 0x28, position.to_bits());
    put(&mut b, 0x38, 0.85f64.to_bits());
    b
}

fn gf(symbol: &'static str, rva: u64) -> GameFn {
    GameFn { symbol, rva }
}

fn public(name: &str, rva: Option<u32>) -> PublicSymbol {
    PublicSymbol { name: name.to_string(), rva }
}

#[test]
fn pages_that_may_be_read() {
    assert!(page_allows_read(true, 2));
    assert!(page_allows_read(true, 4));
    assert!(page_allows_read(true, 0x20));
    assert!(!page_allows_read(false, 4));
    assert!(!page_allows_read(true, 1));
    assert!(!page_allows_read(true, 0x104));
    assert!(!page_allows_read(true, 0x10));
}

#[test]
fn reads_span_adjacent_regions() {
    let mem = Memory { regions: vec![region(100, vec![1, 2, 3]), region(103, vec![4, 5])] };
    assert!(readable(&mem, 100, 5));
    assert!(!readable(&mem, 100, 6));
    assert!(!readable(&mem, 99, 2));
    assert!(!readable(&mem, 100, 0));
    assert_eq!(read(&mem, 101, 3), vec![2, 3, 4]);
    assert_eq!(try_read(&mem, 102, 3), Some(vec![3, 4, 5]));
    assert_eq!(try_read(&mem, 103, 3), None);
    assert_eq!(try_read_off(&mem, 100, 1, 2), Some(0x0302));
    assert!(readable_off(&mem, 100, 4, 1));
    assert!(!readable_off(&mem, u64::MAX, 1, 1));
    assert_eq!(try_read_off(&mem, u64::MAX, 101, 1), None);
}

#[test]
fn the_null_page_is_never_read() {
    let mem = Memory { regions: vec![region(0, vec![7; 16])] };
    assert!(!readable(&mem, 0, 4));
    assert!(readable(&mem, 1, 4));
    assert_eq!(try_read_u64(&mem, 0), None);
    assert_eq!(try_read_u64(&mem, 1), Some(0x0707_0707_0707_0707));
}

#[test]
fn a_guarded_page_stops_a_read() {
    let mut guarded = region(108, vec![0; 8]);
    guarded.protect = 0x104;
    let mem = Memory { regions: vec![region(100, vec![1; 8]), guarded] };
    assert_eq!(try_read_u64(&mem, 100), Some(0x0101_0101_0101_0101));
    assert_eq!(try_read_u64(&mem, 101), None);
}

#[test]
fn pointers_are_followed_to_other_objects() {
    let mut b = vec![0; 0x80];
    put(&mut b, 8, 0x1040);
    put(&mut b, 16, 0x1000);
    put(&mut b, 24, 0x1041);
    let mem = Memory { regions: vec![region(0x1000, b)] };
    assert_eq!(follow(&mem, 0x1000, 8), Some(0x1040));
    assert_eq!(follow(&mem, 0x1000, 0), None);
    assert_eq!(follow(&mem, 0x1000, 16), None);
    assert_eq!(follow(&mem, 0x1000, 24), None);
    assert_eq!(follow(&mem, 0x1000, 0x79), None);
}

#[test]
fn ghost_mode_of_a_draw_queue() {
    let mut b = vec![0; 0x12A1];
    b[0x12A0] = 1;
    let mem = Memory { regions: vec![region(0x5000, b), region(0x9000, vec![0; 0x12A1])] };
    assert!(dq_is_ghost(&mem, 0x5000));
    assert!(!dq_is_ghost(&mem, 0x9000));
    assert!(!dq_is_ghost(&mem, 0));
}

#[test]
fn names_are_scanned_out_of_a_prototype() {
    let mut b = vec![0; 0x100];
    put_short(&mut b, 0x10, "pipe");
    put(&mut b, 0x40, 0x8000);
    put(&mut b, 0x50, 20);
    put(&mut b, 0x58, 31);
    put_short(&mut b, 0x80, "no");
    put_short(&mut b, 0xA0, "bad\n");
    let mut long = b"small-electric-pole!".to_vec();
    long.push(0);
    let mem = Memory { regions: vec![region(0x1000, b), region(0x8000, long)] };
    let found = scan_proto_strings(&mem, 0x1000);
    assert_eq!(
        found,
        vec![(0x10, "pipe".to_string()), (0x40, "small-electric-pole!".to_string())]
    );
    assert!(scan_proto_strings(&mem, 0x4000).is_empty());
}

#[test]
fn the_scan_stops_after_eight_names() {
    let mut b = vec![0; 0x600];
    for i in 0..10 {
        put_short(&mut b, i * 0x20, "coal");
    }
    let mem = Memory { regions: vec![region(0x1000, b)] };
    let found = scan_proto_strings(&mem, 0x1000);
    assert_eq!(found.len(), 8);
    assert_eq!(found[7].0, 7 * 0x20);
}

#[test]
fn a_prototype_resolves_by_the_first_name_with_a_model() {
    let mut b = vec![0; 0x80];
    put_short(&mut b, 0, "icons");
    put_short(&mut b, 0x20, "pipe");
    let mem = Memory { regions: vec![region(0x1000, b)] };
    let mut reg: Registry = build_registry(vec![Folder {
        path: "ENTITIES/STRUCTURES/pipes".to_string(),
        entries: vec!["pipe-I.glb".to_string()],
    }]);
    let m = proto_model(&mut reg, &Disk::empty(), &mem, 0x1000).unwrap();
    assert_eq!(m.parts[0].key, "ENTITIES/STRUCTURES/pipes/pipe-I.glb");
    let mut cache = IdMap::new();
    assert!(model_for_prototype(&mut cache, &mut reg, &Disk::empty(), &mem, 0).is_none());
    assert!(model_for_prototype(&mut cache, &mut reg, &Disk::empty(), &mem, 0x1000).is_some());
    let empty = Memory { regions: vec![] };
    assert!(model_for_prototype(&mut cache, &mut reg, &Disk::empty(), &empty, 0x1000).is_some());
    assert!(model_for_prototype(&mut cache, &mut reg, &Disk::empty(), &empty, 0x2000).is_none());
}

#[test]
fn symbols_win_over_offsets() {
    let all = vec![gf("draw@Pipe", 0x10), gf("", 0x20)];
    let publics = vec![
        public("?draw@Pipe@@QEBA", Some(0x500)),
        public("?draw@PipeToGround@@QEBA", None),
        public("?other@@", Some(0x700)),
    ];
    assert!(wanted(&all, "?draw@Pipe@@QEBA"));
    assert!(!wanted(&all, "?other@@"));
    let found = find_game_functions(&publics, &all, 0x1000);
    assert_eq!(found.len(), 1);
    assert_eq!(by_symbol(&found, "Pipe"), Some(0x1500));
    assert_eq!(by_symbol(&found, ""), None);
    assert_eq!(by_symbol(&found, "Belt"), None);
    assert_eq!(resolve(&found, 0x1000, &all[0]), 0x1500);
    assert_eq!(resolve(&found, 0x1000, &all[1]), 0x1020);
    assert_eq!(resolve(&found, 0x1000, &gf("draw@Belt", 0x30)), 0x1030);
}

#[test]
fn getters_take_their_addresses() {
    let none = find_game_functions(&vec![], &vec![], 0);
    let fns = GetterFns {
        prototype: gf("", 1),
        position: gf("", 2),
        surface: gf("", 3),
        turret_orientation: gf("", 4),
        direction: gf("", 5),
        orientation: gf("", 6),
    };
    let g = install(&none, 100, &fns);
    assert_eq!((g.get_prototype, g.get_pos, g.get_surface), (101, 102, 103));
    assert_eq!(turret_orient_addr(&g), 104);
    assert_eq!(base_dir_addr(&g), 105);
    assert_eq!(base_orient_addr(&g), 106);
    assert!(callable(101, 7));
    assert!(!callable(0, 7));
    assert!(!callable(101, 0));
}

#[test]
fn directions_come_from_the_buffer_or_the_register() {
    assert_eq!(entity_dir(1, 5, 9), 5);
    assert_eq!(entity_dir(1, 0xFF, 9), 9);
    assert_eq!(entity_dir(1, 0xFF, 16), 0);
    assert_eq!(entity_dir(0, 5, 9), 0);
    assert_eq!(entity_dir(1, 0x1203, 9), 3);
}

#[test]
fn positions_come_from_the_buffer_or_the_register() {
    let unset = MapPos { x: i32::MIN, y: i32::MIN };
    assert_eq!(entity_pos(0, unset, 0), None);
    assert_eq!(entity_pos(1, MapPos { x: 3, y: i32::MIN }, 0), Some(MapPos { x: 3, y: i32::MIN }));
    assert_eq!(entity_pos(1, unset, pack(-5, 6)), Some(MapPos { x: -5, y: 6 }));
    let mut b = vec![0; 0x58];
    put(&mut b, 0x50, pack(256, -512));
    let mem = Memory { regions: vec![region(0x1000, b)] };
    assert_eq!(entity_pos_field(&mem, 0x1000), Some(MapPos { x: 256, y: -512 }));
    assert_eq!(entity_pos_field(&mem, 0x1001), None);
    assert_eq!(entity_pos_field(&mem, 0), None);
    assert_eq!(entity_pos_field(&mem, u64::MAX), None);
}

#[test]
fn packing_undoes_unpacking() {
    for (x, y) in [(0, 0), (-1, 1), (i32::MIN, i32::MAX), (77, -78)] {
        assert_eq!(MapPos::tiles_packed(pack(x, y)), MapPos { x, y });
    }
    assert_eq!(pack(1, 2), 0x0000_0002_0000_0001);
    assert_eq!(hooked_get_map_position(9, None), 9);
    assert_eq!(hooked_get_map_position(9, Some((1, 2))), 0x0000_0002_0000_0001);
}

#[test]
fn orientations_are_read_as_the_width_that_fits() {
    let half = 0.5f64.to_bits();
    assert_eq!(decode_orientation(half, 0), Orientation::Double(half));
    let single = 0xFFFF_FFFF_0000_0000 | 0.25f32.to_bits() as u64;
    assert_eq!(decode_orientation(single, 0), Orientation::Single(0.25f32.to_bits()));
    assert_eq!(decode_orientation(2.0f64.to_bits() | 0x7FFF_FFFF, half), Orientation::Double(half));
    let bad = 0xFFFF_FFFF_FFFF_FFFF;
    assert_eq!(decode_orientation(bad, 0x3F00_0000), Orientation::Single(0x3F00_0000));
    assert_eq!(decode_orientation(0x3F00_0000, half), Orientation::Single(0x3F00_0000));
    assert_eq!(decode_orientation(bad, 0), Orientation::Single(0));
    assert_eq!(decode_orientation(bad, bad), Orientation::Zero);
    assert!(is_unit_double(1.0f64.to_bits()));
    assert!(!is_unit_double((1.0f64 + 1e-9).to_bits()));
    assert!(is_unit_double((-0.0f64).to_bits()));
    assert!(!is_unit_double((-0.1f64).to_bits()));
    assert!(is_unit_single(1.0f32.to_bits()));
    assert!(!is_unit_single(f32::NAN.to_bits()));
}

#[test]
fn a_clock_is_told_by_its_fields() {
    let mem = Memory {
        regions: vec![
            region(0x1000, clock(0.25, 25000, 0.5)),
            region(0x2000, clock(0.25, 99, 0.5)),
            region(0x3000, clock(2.0, 25000, 0.5)),
            region(0x4000, clock(0.25, 25000, -0.5)),
        ],
    };
    assert!(validate_daytime(&mem, 0x1000));
    assert!(!validate_daytime(&mem, 0x2000));
    assert!(!validate_daytime(&mem, 0x3000));
    assert!(!validate_daytime(&mem, 0x4000));
    assert!(!validate_daytime(&mem, 0x1004));
    assert!(!validate_daytime(&mem, 0));
}

#[test]
fn the_clock_is_looked_up_once_per_surface() {
    let mut surface = vec![0; 0x1000];
    put(&mut surface, 0x48, 0x1000);
    let mut known = vec![0; 0x838];
    put(&mut known, 0x830, 0x2000);
    let mem = Memory {
        regions: vec![
            region(0x1000, clock(0.25, 25000, 0.5)),
            region(0x2000, clock(0.25, 25000, 0.1)),
            region(0x10000, surface),
            region(0x20000, known),
        ],
    };
    assert_eq!(find_daytime(&mem, 0x10000), 0x1000);
    assert_eq!(find_daytime(&mem, 0x20000), 0x2000);
    assert_eq!(find_daytime(&mem, 0x30000), 0);
    let none = find_game_functions(&vec![], &vec![], 0);
    let mut s = init(&none, 100, &gf("", 11));
    assert_eq!(s.get_darkness, 111);
    assert_eq!(game_darkness(&s), None);
    assert_eq!(sample(&mut s, &mem, 0), None);
    assert_eq!(sample(&mut s, &mem, 0x10000), Some((0x1000, 0.85f64.to_bits())));
    assert_eq!((s.cached_surface, s.cached_daytime), (0x10000, 0x1000));
    assert_eq!(sample(&mut s, &mem, 0x20000), Some((0x2000, 0.85f64.to_bits())));
    store_darkness(&mut s, 0.3f32.to_bits());
    assert_eq!(game_darkness(&s), Some(0.3f32.to_bits()));
    store_darkness(&mut s, 1.5f32.to_bits());
    store_darkness(&mut s, f32::NAN.to_bits());
    assert_eq!(game_darkness(&s), Some(0.3f32.to_bits()));
}

#[test]
fn hashing_a_word_rotates_mixes_and_multiplies() {
    let mut h = FxHasher::new();
    assert_eq!(h.finish(), 0);
    h.write_u64(1);
    assert_eq!(h.finish(), FX_SEED);
    h.write_u32(2);
    let want = (FX_SEED.rotate_left(5) ^ 2).wrapping_mul(FX_SEED);
    assert_eq!(h.finish(), want);
    let mut by_size = FxHasher::new();
    by_size.write_usize(1);
    by_size.write_u8(2);
    assert_eq!(by_size.finish(), want);
}

#[test]
fn hashing_bytes_goes_word_by_word() {
    let mut bytes = FxHasher::new();
    bytes.write(&vec![1, 0, 0, 0, 0, 0, 0, 0, 2, 0]);
    let mut words = FxHasher::new();
    words.write_u64(1);
    words.write_u64(2);
    assert_eq!(bytes.finish(), words.finish());
    let mut split = FxHasher::new();
    split.write(&vec![1, 0, 0, 0, 0, 0, 0, 0]);
    split.write(&vec![2, 0]);
    assert_eq!(split.finish(), bytes.finish());
    let mut none = FxHasher::new();
    none.write(&vec![]);
    assert_eq!(none.finish(), 0);
}

#[test]
fn small_helpers() {
    assert_eq!(le_u64(&vec![9, 1, 2], 1, 3), 0x0201);
    assert_eq!(le_u64(&vec![9], 0, 0), 0);
    let mut f = AtomicF32::new(1.5f32.to_bits());
    assert_eq!(f.get(), 1.5f32.to_bits());
    f.set(7);
    assert_eq!(f.get(), 7);
    let mut cache = HashMap::new();
    assert_eq!(memo(&mut cache, 4, || 10), 10);
    assert_eq!(memo(&mut cache, 4, || panic!("computed again")), 10);
    assert_eq!(memo(&mut cache, 5, || 30), 30);
}
