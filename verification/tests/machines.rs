use factorio_3d::entities::{state_of, Entities, Ghost3d};
use factorio_3d::getters::Getters;
use factorio_3d::hooks::MapPos;
use factorio_3d::machines::{
    anim_fingerprint, cursor_dir, draw_use, generic_draw, generic_fingerprint, generic_hooks,
    hooked_draw_e2b, hooked_rocket_draw, mining_drill_fp, record_current, snap,
    turret_draw_common, turret_of, DrawReads, DrawUse, GenericDraw, GenericOutcome,
};
use factorio_3d::mem::{Memory, Region};
use factorio_3d::models::{build_registry, ConnKind, EntityModel, LoadedModel, Part, YawSource};
use factorio_3d::namemap::NameMap;
use factorio_3d::player::{
    char_draw_inner, hooked_perform_mining, hooked_shoot, mining_frame, player_color, Players,
};
use factorio_3d::symbols::{DrawTarget, GameFn};
use factorio_3d::wires::Color;

fn memory(base: u64, bytes: Vec<u8>) -> Memory {
    Memory { regions: vec![Region { base, bytes, committed: true, protect: 0x04 }] }
}

fn model(kind: ConnKind) -> EntityModel {
    EntityModel {
        parts: vec![Part { key: "a.glb".to_string(), yaw: YawSource::Direction }],
        tiles: 3000,
        kind,
    }
}

fn reads() -> DrawReads {
    DrawReads { x: 0, y: 0, orientation: None, gate: None, progress: None, anim_on_draw: false }
}

fn draw() -> GenericDraw {
    GenericDraw {
        entity: 5,
        pos: Some(MapPos { x: 10, y: 20 }),
        dir: 4,
        turret: None,
        surface: 1,
        reads: reads(),
        morph: None,
        at_work: None,
        inserter: false,
        rate: None,
        arm: None,
        has_wires: false,
        as_ghost: false,
        preview: false,
    }
}

#[test]
fn a_working_machine_has_a_changing_fingerprint() {
    let mut b = vec![0u8; 0x20];
    b[0x10] = 7;
    b[0x4] = 1;
    assert_eq!(anim_fingerprint(&memory(0x1000, b), 0x1000), 7 ^ (1 << 48));
    assert_eq!(anim_fingerprint(&memory(0x1000, vec![0]), 0), 0);
}

#[test]
fn a_drill_counts_in_two_halves() {
    let mut b = vec![0u8; 0x10];
    b[0x0] = 3;
    b[0x8] = 2;
    b[0x4] = 99;
    assert_eq!(mining_drill_fp(&memory(0x1000, b.clone()), 0x1000), 3 | (2 << 32));
    assert_eq!(mining_drill_fp(&memory(0x1000, b), 0x1001), 0);
    assert_eq!(mining_drill_fp(&memory(0x1000, vec![0]), 0), 0);
}

#[test]
fn fingerprints_go_by_what_there_is() {
    let mut d = reads();
    assert_eq!(generic_fingerprint(&d, 9), 0);
    d.anim_on_draw = true;
    assert_eq!(generic_fingerprint(&d, 9), 9);
    d.progress = Some(77);
    assert_eq!(generic_fingerprint(&d, 9), 77);
    d.gate = Some(5);
    assert_eq!(generic_fingerprint(&d, 9), 5);
    d.orientation = Some(0x10);
    d.x = 1;
    d.y = 2;
    assert_eq!(generic_fingerprint(&d, 9), (1 << 32) ^ 2 ^ (0x10 << 16));
}

#[test]
fn previews_and_ghosts_are_told_apart() {
    assert_eq!(record_current(true, 1, true, 1, false), DrawUse::Plain);
    assert_eq!(record_current(false, 1, false, 1, false), DrawUse::Plain);
    assert_eq!(record_current(false, 1, true, 1, true), DrawUse::SeeThrough);
    assert_eq!(record_current(false, 1, true, 1, false), DrawUse::Recorded);
    assert_eq!(draw_use(true, true, true, true), DrawUse::Plain);
    assert_eq!(draw_use(true, true, false, true), DrawUse::SeeThrough);
    assert_eq!(draw_use(true, false, false, false), DrawUse::Plain);
    assert_eq!(turret_of(0.5f32.to_bits()), Some(0.5f32.to_bits()));
    assert_eq!(turret_of(1.5f32.to_bits()), None);
}

#[test]
fn previews_snap_to_the_grid() {
    assert_eq!(snap(300, 3000), 384);
    assert_eq!(snap(255, 3000), 128);
    assert_eq!(snap(256, 3000), 384);
    assert_eq!(snap(-100, 3000), -128);
    assert_eq!(snap(300, 2000), 256);
    assert_eq!(snap(384, 2000), 512);
    assert_eq!(snap(-384, 2000), -512);
    for v in [-1000, -129, -1, 0, 77, 128, 999] {
        for t in [1000, 2000] {
            let s = snap(v, t);
            assert!((s - v as i64).abs() <= 128);
            assert_eq!(snap(s as i32, t), s);
        }
    }
}

#[test]
fn the_cursor_has_a_direction() {
    let base = 0x1000u64;
    let mut b = vec![0u8; 0x1000];
    b[0x8] = 0x26;
    b[0x30..0x38].copy_from_slice(&(base + 0x100).to_le_bytes());
    b[0x100 + 0x1C0..0x100 + 0x1C8].copy_from_slice(&(base + 0x800).to_le_bytes());
    b[0x858] = 0x0C;
    assert_eq!(cursor_dir(&memory(base, b.clone()), base), 6);
    b[0x859] = 1;
    assert_eq!(cursor_dir(&memory(base, b.clone()), base), 12);
    b[0x30..0x38].copy_from_slice(&0u64.to_le_bytes());
    assert_eq!(cursor_dir(&memory(base, b), base), 0);
}

#[test]
fn classes_use_their_own_getters() {
    let mut symbols = NameMap::new();
    symbols.insert("?getDirection@Boiler@@XYZ".to_string(), 500);
    let target = |dir_sym| DrawTarget {
        gf: GameFn { symbol: "", rva: 0 },
        oriented: false,
        anim_on_draw: true,
        dir_sym,
        orient_sym: "",
        turret_sym: "",
        progress_sym: "?getProgress@",
        wire_off: 3,
        activity_sym: "",
        gate_off: 4,
    };
    let g = Getters {
        get_prototype: 1,
        get_pos: 2,
        get_surface: 3,
        turret_orient: 4,
        base_dir: 5,
        base_orient: 6,
    };
    let targets = vec![target("?getDirection@Boiler@@"), target("")];
    let h = generic_hooks(&symbols, &targets, &g);
    assert_eq!((h[0].dir_addr, h[1].dir_addr), (500, 5));
    assert_eq!((h[0].orient_addr, h[0].progress_addr, h[0].turret_addr), (6, 0, 0));
    assert_eq!((h[0].wire_off, h[0].gate_off, h[0].anim_on_draw), (3, 4, true));
    let many: Vec<DrawTarget> = (0..60).map(|_| target("")).collect();
    assert_eq!(generic_hooks(&symbols, &many, &g).len(), 44);
}

#[test]
fn a_building_is_recorded_and_hidden_once_its_model_is_there() {
    let (mut e, mut g, mut reg) = (Entities::new(), Vec::<Ghost3d>::new(), build_registry(vec![]));
    let m = model(ConnKind::Plain);
    let mut d = draw();
    d.inserter = true;
    d.has_wires = true;
    d.rate = Some(8);
    d.arm = Some(9);
    d.morph = Some(10);
    d.at_work = Some(false);
    let plain = GenericOutcome { vanilla: true, hand: false, wires: false };
    assert_eq!(generic_draw(&mut e, &mut g, &mut reg, Some(&m), &d, 1), plain);
    let s = state_of(&e, 5).unwrap();
    assert_eq!((s.morph, s.active, s.arm_angle), (Some(10), false, None));
    generic_draw(&mut e, &mut g, &mut reg, Some(&m), &d, 5);
    assert_eq!(reg.take_queue(), vec!["a.glb".to_string()]);
    reg.finish_load("a.glb", Some(LoadedModel { handle: 1, duration_bits: 0 }));
    assert_eq!(
        generic_draw(&mut e, &mut g, &mut reg, Some(&m), &d, 6),
        GenericOutcome { vanilla: false, hand: true, wires: true }
    );
    let s = state_of(&e, 5).unwrap();
    assert_eq!((s.anim_rate, s.arm_angle, s.active_frame), (8, Some(9), 6));
}

#[test]
fn a_ghost_of_a_building_is_see_through() {
    let (mut e, mut g, mut reg) = (Entities::new(), Vec::<Ghost3d>::new(), build_registry(vec![]));
    let m = model(ConnKind::Plain);
    let mut d = draw();
    d.as_ghost = true;
    assert!(generic_draw(&mut e, &mut g, &mut reg, Some(&m), &d, 1).vanilla);
    assert_eq!((g.len(), g[0].dir, e.entries.len()), (1, 4, 0));
    d.preview = true;
    assert!(generic_draw(&mut e, &mut g, &mut reg, Some(&m), &d, 1).vanilla);
    assert!(generic_draw(&mut e, &mut g, &mut reg, None, &draw(), 1).vanilla);
    assert_eq!((g.len(), e.entries.len()), (1, 0));
}

#[test]
fn a_turret_works_while_it_turns() {
    let (mut e, mut g, mut reg) = (Entities::new(), Vec::<Ghost3d>::new(), build_registry(vec![]));
    let m = model(ConnKind::Plain);
    let p = Some(MapPos { x: 1, y: 2 });
    let mut shoot = |e: &mut Entities, o, ghost, frame| {
        turret_draw_common(e, &mut g, &mut reg, Some(&m), 3, p, o, 7, ghost, false, frame)
    };
    assert!(shoot(&mut e, 100, false, 1));
    assert!(shoot(&mut e, 101, false, 2));
    let s = state_of(&e, 3).unwrap();
    assert_eq!((s.orientation, s.fingerprint, s.last_change), (Some(101), 101, 2));
    assert!(shoot(&mut e, 102, true, 3));
    assert_eq!(state_of(&e, 3).unwrap().fingerprint, 101);
    assert_eq!((g.len(), g[0].dir), (1, 0));
}

#[test]
fn a_rocket_is_marked() {
    let (mut e, mut reg) = (Entities::new(), build_registry(vec![]));
    let m = model(ConnKind::Plain);
    let p = Some(MapPos { x: 1, y: 2 });
    assert!(!hooked_rocket_draw(&mut e, &mut reg, Some(&m), 3, p, 7, true, false, 1));
    assert!(!hooked_rocket_draw(&mut e, &mut reg, Some(&m), 3, None, 7, false, false, 1));
    assert!(hooked_rocket_draw(&mut e, &mut reg, Some(&m), 3, p, 7, false, false, 1));
    assert_eq!(state_of(&e, 3).unwrap().rocket, Some(0));
}

#[test]
fn the_build_cursor_shows_a_ghost_on_the_grid() {
    let mut g: Vec<Ghost3d> = Vec::new();
    let mem = memory(0x10, vec![0]);
    let m = model(ConnKind::Plain);
    hooked_draw_e2b(&mut g, &mem, Some(&m), MapPos { x: 300, y: 10 }, 0x1000, true, 1);
    assert!(g.is_empty());
    hooked_draw_e2b(&mut g, &mem, Some(&m), MapPos { x: 300, y: 10 }, 0x1000, false, 1);
    assert_eq!((g[0].pos, g[0].dir), (MapPos { x: 384, y: 128 }, 0));
}

#[test]
fn the_player_mines_and_shoots() {
    let mut p = Players::new();
    assert_eq!(mining_frame(&p), 0);
    hooked_perform_mining(&mut p, 77);
    assert_eq!(mining_frame(&p), 77);
    assert!(hooked_shoot(1, 5));
    assert!(!hooked_shoot(0, 5));
    assert!(!hooked_shoot(1, 0));
}

#[test]
fn a_character_is_recorded_with_its_colour() {
    let half = 0.5f32.to_bits();
    let c = Color { r: half, g: half, b: half, a: half };
    assert_eq!(player_color(c), Some(c));
    assert_eq!(player_color(Color { a: f32::NAN.to_bits(), ..c }), None);
    assert_eq!(player_color(Color { r: 1.1f32.to_bits(), ..c }), None);
    let (mut e, mut reg) = (Entities::new(), build_registry(vec![]));
    let m = model(ConnKind::Plain);
    let p = Some(MapPos { x: 1, y: 2 });
    let shown =
        char_draw_inner(&mut e, &mut reg, Some(&m), 3, p, 6, true, 99, Some(c), false, false, 12);
    assert!(!shown);
    let s = state_of(&e, 3).unwrap();
    assert_eq!((s.surface, s.dir, s.fingerprint, s.player_color), (0, 6, 12, c));
    let shown =
        char_draw_inner(&mut e, &mut reg, Some(&m), 3, p, 6, false, 99, None, false, false, 13);
    assert!(!shown);
    let s = state_of(&e, 3).unwrap();
    assert_eq!((s.surface, s.last_change, s.player_color), (99, 13, c));
}
