use factorio_3d::entities::{record, state_of, Entities, Record};
use factorio_3d::frame::ViewRect;
use factorio_3d::grid::Cell;
use factorio_3d::hooks::MapPos;
use factorio_3d::idmap::IdMap;
use factorio_3d::item_draws::{
    begin_belt_items, end_belt_items, expire_belts, item_cells, item_instances,
    promote_item_batch, record_item, record_item_ex, ItemDraw, Items,
};
use factorio_3d::items::{
    asks_item, ensure_belt_sprite_map, held_item, hooked_draw_internal, hooked_draw_item_on_map,
    hooked_draw_item_stack, hooked_item_entity_draw, hooked_scaled_tinted, item_key_by_id,
    item_proto_key, parse_item_table, reaches_far, record_belt, resolve_from_strings, GroundDraw,
    ItemContext, ItemUse,
};
use factorio_3d::mem::{Memory, Region};
use factorio_3d::models::{
    build_registry, ConnKind, Disk, EntityModel, Folder, LoadedModel, Part, Registry, YawSource,
};
use factorio_3d::view_cull::ViewCull;

fn item(key: &str, x: i32) -> ItemDraw {
    ItemDraw {
        key: key.to_string(),
        at: MapPos { x, y: 0 },
        x: 0,
        y: 0,
        lift: None,
        size: None,
    }
}

fn keys(v: &[ItemDraw]) -> Vec<&str> {
    v.iter().map(|i| i.key.as_str()).collect()
}

fn everywhere() -> ViewCull {
    ViewCull::new(&ViewRect { left: 0, top: 0, span_x: 0, span_y: 0 })
}

fn registry() -> Registry {
    let folder = |path: &str, entries: &[&str]| Folder {
        path: path.to_string(),
        entries: entries.iter().map(|e| e.to_string()).collect(),
    };
    build_registry(vec![
        folder("ENTITIES/ITEMS", &["iron-plate", "coal"]),
        folder("ENTITIES/ITEMS/iron-plate", &["static.glb"]),
        folder("ENTITIES/ITEMS/coal", &["static.glb"]),
        folder("ENTITIES/STRUCTURES", &["lab"]),
        folder("ENTITIES/STRUCTURES/lab", &["static.glb"]),
    ])
}

#[test]
fn the_items_of_a_belt_replace_those_of_an_earlier_frame() {
    let (mut s, mut belt) = (Items::new(), None);
    begin_belt_items(&mut belt);
    record_item(&mut s, &mut belt, "a".to_string(), MapPos { x: 1, y: 2 }, 3, 4);
    end_belt_items(&mut s, &mut belt, 7, 1);
    assert!(belt.is_none() && s.staged.is_empty());
    begin_belt_items(&mut belt);
    record_item_ex(&mut s, &mut belt, item("b", 0));
    end_belt_items(&mut s, &mut belt, 7, 1);
    assert_eq!(keys(&s.belts.get(7).unwrap().items), vec!["a", "b"]);
    begin_belt_items(&mut belt);
    record_item_ex(&mut s, &mut belt, item("c", 0));
    end_belt_items(&mut s, &mut belt, 7, 2);
    assert_eq!(keys(&s.belts.get(7).unwrap().items), vec!["c"]);
    begin_belt_items(&mut belt);
    end_belt_items(&mut s, &mut belt, 7, 2);
    assert!(!s.belts.contains(7));
    end_belt_items(&mut s, &mut belt, 7, 3);
    assert!(!s.belts.contains(7));
}

#[test]
fn a_belt_holds_only_so_many_items() {
    let (mut s, mut belt) = (Items::new(), None);
    begin_belt_items(&mut belt);
    for _ in 0..300 {
        record_item_ex(&mut s, &mut belt, item("a", 0));
    }
    assert_eq!(belt.as_ref().map(|v| v.len()), Some(256));
    belt = None;
    for _ in 0..16400 {
        record_item_ex(&mut s, &mut belt, item("a", 0));
    }
    assert_eq!(s.staged.len(), 16384);
}

#[test]
fn what_a_belt_draws_twice_is_capped_as_a_whole() {
    let (mut s, mut belt) = (Items::new(), None);
    begin_belt_items(&mut belt);
    for _ in 0..256 {
        record_item_ex(&mut s, &mut belt, item("a", 0));
    }
    end_belt_items(&mut s, &mut belt, 7, 1);
    begin_belt_items(&mut belt);
    record_item_ex(&mut s, &mut belt, item("b", 0));
    end_belt_items(&mut s, &mut belt, 7, 1);
    let held = &s.belts.get(7).unwrap().items;
    assert_eq!(held.len(), 256);
    assert!(held.iter().all(|i| i.key == "a"));
}

#[test]
fn items_off_belts_stay_for_a_while() {
    let mut s = Items::new();
    let mut none = None;
    record_item_ex(&mut s, &mut none, item("hand", 0));
    promote_item_batch(&mut s, 10, 30);
    assert_eq!((keys(&s.live), s.live_frame), (vec!["hand"], 10));
    promote_item_batch(&mut s, 40, 30);
    assert_eq!(s.live.len(), 1);
    promote_item_batch(&mut s, 41, 30);
    assert!(s.live.is_empty());
}

#[test]
fn belts_that_are_not_drawn_lose_their_items() {
    let (mut s, mut belt) = (Items::new(), None);
    for (id, frame) in [(1, 10), (2, 20), (3, 10)] {
        begin_belt_items(&mut belt);
        record_item_ex(&mut s, &mut belt, item("a", 0));
        end_belt_items(&mut s, &mut belt, id, frame);
    }
    expire_belts(&mut s, 41, 30);
    assert_eq!(s.belts.len(), 1);
    assert!(s.belts.contains(2));
}

#[test]
fn items_out_of_view_are_not_drawn() {
    let (mut s, mut belt) = (Items::new(), None);
    record_item_ex(&mut s, &mut belt, item("near", 0));
    record_item_ex(&mut s, &mut belt, item("far", 1_000_000));
    promote_item_batch(&mut s, 1, 30);
    begin_belt_items(&mut belt);
    record_item_ex(&mut s, &mut belt, item("belt", 512));
    end_belt_items(&mut s, &mut belt, 9, 1);
    let view = ViewRect { left: -256, top: -256, span_x: 2560, span_y: 2560 };
    let v = item_instances(&mut s, 2, 30, &ViewCull::new(&view));
    assert_eq!(keys(&v), vec!["near", "belt"]);
    assert_eq!(item_instances(&mut s, 2, 30, &everywhere()).len(), 3);
    let cells = item_cells(&s);
    assert!(cells.contains(Cell { x: 2, y: 0 }) && cells.contains(Cell { x: 0, y: 0 }));
    assert!(!cells.contains(Cell { x: 1, y: 0 }));
}

fn put(b: &mut [u8], at: usize, v: u64) {
    b[at..at + 8].copy_from_slice(&v.to_le_bytes());
}

fn name(b: &mut [u8], at: usize, text: &str) {
    b[at..at + text.len()].copy_from_slice(text.as_bytes());
    put(b, at + 0x10, text.len() as u64);
    put(b, at + 0x18, 15);
}

fn memory(base: u64, bytes: Vec<u8>) -> Memory {
    Memory { regions: vec![Region { base, bytes, committed: true, protect: 0x04 }] }
}

#[test]
fn files_and_labels_are_no_names() {
    let mut reg = registry();
    let strings = |v: &[&str]| v.iter().map(|s| (0u64, s.to_string())).collect::<Vec<_>>();
    let found = resolve_from_strings(&mut reg, &Disk::empty(), &strings(&["a/coal", "coal.png", "[coal]", "coal"]));
    assert_eq!(found.as_deref(), Some("ENTITIES/ITEMS/coal/static.glb"));
    assert_eq!(
        resolve_from_strings(&mut reg, &Disk::empty(), &strings(&["nothing", "lab"])).as_deref(),
        Some("ENTITIES/STRUCTURES/lab/static.glb")
    );
    assert!(resolve_from_strings(&mut reg, &Disk::empty(), &strings(&["nothing"])).is_none());
}

#[test]
fn an_item_is_known_by_a_name_behind_a_pointer() {
    let base = 0x10000u64;
    let mut b = vec![0u8; 0x4000];
    put(&mut b, 0x1010, base + 0x2000);
    name(&mut b, 0x2100, "iron-plate");
    let mem = memory(base, b);
    let (mut cache, mut reg) = (IdMap::new(), registry());
    let key = item_proto_key(&mut cache, &mut reg, &Disk::empty(), &mem, base + 0x1000);
    assert_eq!(key.as_deref(), Some("ENTITIES/ITEMS/iron-plate/static.glb"));
    let empty = memory(0x10, vec![0]);
    let again = item_proto_key(&mut cache, &mut reg, &Disk::empty(), &empty, base + 0x1000);
    assert_eq!(again.as_deref(), Some("ENTITIES/ITEMS/iron-plate/static.glb"));
    assert!(item_proto_key(&mut cache, &mut reg, &Disk::empty(), &empty, base + 0x3000).is_none());
    assert!(cache.contains(base + 0x3000));
}

#[test]
fn sprites_on_belts_stand_for_items() {
    let base = 0x10000u64;
    let mut b = vec![0u8; 0x8000];
    put(&mut b, 0x0, base + 0x100);
    put(&mut b, 0x100 + 8, base + 0x1000);
    put(&mut b, 0x100 + 16, base + 0x2000);
    name(&mut b, 0x1100, "coal");
    name(&mut b, 0x2100, "iron-plate");
    put(&mut b, 0x1000 + 0x368, base + 0x5000);
    put(&mut b, 0x1000 + 0x370, base + 0x5000 + 3 * 0xA0);
    put(&mut b, 0x2000 + 0x2B8, base + 0x6000);
    let mem = memory(base, b);
    let (mut cache, mut reg) = (IdMap::new(), registry());
    assert!(ensure_belt_sprite_map(&mut cache, &mut reg, &Disk::empty(), &mem, 0).is_none());
    assert!(asks_item(&cache, &mem, base, 2));
    let m = ensure_belt_sprite_map(&mut cache, &mut reg, &Disk::empty(), &mem, base).unwrap();
    assert_eq!(m.len(), 4);
    for i in 0..3u64 {
        assert_eq!(m.get(base + 0x5000 + i * 0xA0).unwrap(), "ENTITIES/ITEMS/coal/static.glb");
    }
    assert_eq!(m.get(base + 0x6068).unwrap(), "ENTITIES/ITEMS/iron-plate/static.glb");
    let c = ItemContext { ground_item: 0, in_stack: false, in_belt: true };
    assert!(hooked_scaled_tinted(&c, &m, base + 0x6068, 1, false).is_some());
    assert!(hooked_scaled_tinted(&c, &m, base + 0x6068, 1, true).is_none());
    assert!(hooked_scaled_tinted(&c, &m, base, 1, false).is_none());
    assert!(!asks_item(&cache, &mem, base, 2));
    assert!(!asks_item(&cache, &mem, 0, 2));
    let key = item_key_by_id(&mut cache, &mut reg, &Disk::empty(), &mem, base, 2);
    assert_eq!(key.as_deref(), Some("ENTITIES/ITEMS/iron-plate/static.glb"));
    assert!(item_key_by_id(&mut cache, &mut reg, &Disk::empty(), &mem, base, 0).is_none());
    assert!(item_key_by_id(&mut cache, &mut reg, &Disk::empty(), &mem, base, 3).is_none());
    assert!(item_key_by_id(&mut cache, &mut reg, &Disk::empty(), &mem, 0, 2).is_none());
}

#[test]
fn the_table_of_items_is_found_in_code() {
    let mut code = vec![0x90u8; 0x40];
    code[5..12].copy_from_slice(&[0x48, 0x8B, 0x05, 0x10, 0, 0, 0]);
    assert_eq!(parse_item_table(&memory(0x1000, code.clone()), 0x1000), Some(0x101C));
    code[8..12].copy_from_slice(&(-12i32).to_le_bytes());
    assert_eq!(parse_item_table(&memory(0x1000, code.clone()), 0x1000), Some(0x1000));
    assert_eq!(parse_item_table(&memory(0x1000, vec![0x90; 0x40]), 0x1000), None);
    assert_eq!(parse_item_table(&memory(0x1000, code[..0x3F].to_vec()), 0x1000), None);
}

#[test]
fn items_are_recorded_once() {
    let mut c = ItemContext { ground_item: 0, in_stack: false, in_belt: false };
    assert_eq!(hooked_draw_item_stack(&c, 1, false, true), ItemUse::Recorded);
    assert_eq!(hooked_draw_item_on_map(&c, 1, true, false, true), ItemUse::Recorded);
    assert_eq!(hooked_draw_internal(&c, true, 1, false, true), ItemUse::Recorded);
    c.ground_item = 9;
    assert_eq!(hooked_draw_internal(&c, true, 1, false, true), ItemUse::Adopted(9));
    assert_eq!(hooked_draw_internal(&c, true, 1, true, true), ItemUse::Ignored);
    assert_eq!(hooked_draw_internal(&c, true, 1, false, false), ItemUse::Ignored);
    c.in_stack = true;
    assert_eq!(hooked_draw_item_stack(&c, 1, false, true), ItemUse::Ignored);
    assert_eq!(hooked_draw_item_on_map(&c, 1, true, false, true), ItemUse::Ignored);
}

#[test]
fn an_empty_hand_holds_nothing() {
    let mut b = vec![0u8; 0x200];
    assert_eq!(held_item(&memory(0x1000, b.clone()), 0x1000), None);
    b[0x114] = 0x34;
    b[0x115] = 0x12;
    assert_eq!(held_item(&memory(0x1000, b.clone()), 0x1000), Some(0x1234));
    assert_eq!(held_item(&memory(0x1000, b), 0x2000), None);
    assert!(reaches_far("inserter/long-handed/arm.glb"));
    assert!(!reaches_far("inserter/fast/arm.glb"));
}

fn belt() -> EntityModel {
    EntityModel {
        parts: vec![Part { key: "belt-I.glb".to_string(), yaw: YawSource::Direction }],
        tiles: 1000,
        kind: ConnKind::Belt,
    }
}

#[test]
fn belts_are_recorded_now_and_then() {
    let (mut e, mut seen, mut reg) = (Entities::new(), IdMap::new(), registry());
    let m = belt();
    let pos = Some(MapPos { x: 0, y: 0 });
    record_belt(&mut e, &mut seen, &mut reg, Some(&m), 0, pos, 4, 1, 10);
    assert_eq!(e.entries.len(), 0);
    record_belt(&mut e, &mut seen, &mut reg, Some(&m), 5, pos, 4, 1, 10);
    assert_eq!(state_of(&e, 5).unwrap().dir, 4);
    record_belt(&mut e, &mut seen, &mut reg, Some(&m), 5, pos, 8, 1, 20);
    assert_eq!(state_of(&e, 5).unwrap().dir, 4);
    record_belt(&mut e, &mut seen, &mut reg, Some(&m), 5, pos, 8, 1, 40);
    assert_eq!(state_of(&e, 5).unwrap().dir, 8);
    record_belt(&mut e, &mut seen, &mut reg, None, 6, pos, 8, 1, 40);
    assert!(seen.contains(6) && state_of(&e, 6).is_none());
}

#[test]
fn an_item_on_the_ground_is_marked_until_it_is_known() {
    let (mut e, mut reg) = (Entities::new(), registry());
    let pos = Some(MapPos { x: 3, y: 4 });
    assert_eq!(hooked_item_entity_draw(&mut e, &mut reg, 0, pos, 1, false, 9), GroundDraw::Plain);
    assert_eq!(hooked_item_entity_draw(&mut e, &mut reg, 7, pos, 1, true, 9), GroundDraw::Plain);
    assert_eq!(hooked_item_entity_draw(&mut e, &mut reg, 7, pos, 1, false, 9), GroundDraw::Marked);
    let m = EntityModel {
        parts: vec![Part { key: "p.glb".to_string(), yaw: YawSource::Fixed }],
        tiles: 450,
        kind: ConnKind::Plain,
    };
    record(&mut e, &mut reg, &m, &Record::at(7, MapPos { x: 3, y: 4 }), 9);
    assert_eq!(hooked_item_entity_draw(&mut e, &mut reg, 7, pos, 1, false, 10), GroundDraw::Plain);
    hooked_item_entity_draw(&mut e, &mut reg, 7, pos, 1, false, 11);
    reg.finish_load("p.glb", Some(LoadedModel { handle: 1, duration_bits: 0 }));
    assert_eq!(hooked_item_entity_draw(&mut e, &mut reg, 7, None, 1, false, 12), GroundDraw::Plain);
    assert_eq!(hooked_item_entity_draw(&mut e, &mut reg, 7, pos, 1, false, 12), GroundDraw::Hidden);
}
