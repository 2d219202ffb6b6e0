use factorio_3d::entities::{
    adopt_item, advances_spin, belt_record_due, dominant_surface, electric_pole_cells,
    entity_instances, ghost_shows, is_working, key_extra_yaw, model_of, record, record_ghost,
    remove, set_active, set_anim_rate, set_arm_angle, set_morph, set_player_color,
    set_player_shot, set_rocket, state_of, take_wires, tick, update_player, BaseYaw, DrawAs,
    Drawn, Entities, Entry, ExtraYaw, Ghost3d, MainSurface, Motion, Place, PoleCells,
    PoseWindows, Record,
};
use factorio_3d::frame::ViewRect;
use factorio_3d::grid::{Cell, CellSet, Joint};
use factorio_3d::hooks::MapPos;
use factorio_3d::idmap::IdMap;
use factorio_3d::item_draws::Items;
use factorio_3d::models::{
    build_registry, get, ConnKind, EntityModel, LoadedModel, Part, Registry, YawSource,
};
use factorio_3d::view_cull::ViewCull;
use factorio_3d::wires::{Color, WireDraw};

const COLOR: Color = Color { r: 1, g: 2, b: 3, a: 0 };

fn model(key: &str, kind: ConnKind) -> EntityModel {
    EntityModel {
        parts: vec![Part { key: key.to_string(), yaw: YawSource::Direction }],
        tiles: 1000,
        kind,
    }
}

fn registry() -> Registry {
    build_registry(Vec::new())
}

fn at(x: i32, y: i32) -> MapPos {
    MapPos { x, y }
}

fn everywhere() -> ViewCull {
    ViewCull::new(&ViewRect { left: 0, top: 0, span_x: 0, span_y: 0 })
}

#[test]
fn a_sprite_stays_until_its_entity_is_established_and_loaded() {
    let (mut e, mut reg) = (Entities::new(), registry());
    let m = model("a.glb", ConnKind::Plain);
    let r = Record::at(1, at(0, 0));
    assert!(!record(&mut e, &mut reg, &m, &r, 10));
    assert!(!record(&mut e, &mut reg, &m, &r, 11));
    assert!(reg.take_queue().is_empty());
    assert!(!record(&mut e, &mut reg, &m, &r, 12));
    assert_eq!(reg.take_queue(), vec!["a.glb".to_string()]);
    reg.finish_load("a.glb", Some(LoadedModel { handle: 1, duration_bits: 0 }));
    assert!(record(&mut e, &mut reg, &m, &r, 13));
}

#[test]
fn an_entity_that_comes_back_is_new_again() {
    let (mut e, mut reg) = (Entities::new(), registry());
    let (mut items, mut seen, mut wires) = (Items::new(), IdMap::new(), Vec::new());
    let m = model("a.glb", ConnKind::Plain);
    reg.finish_load("a.glb", Some(LoadedModel { handle: 1, duration_bits: 0 }));
    let r = Record::at(1, at(0, 0));
    assert!(!record(&mut e, &mut reg, &m, &r, 10));
    assert!(record(&mut e, &mut reg, &m, &r, 12));
    remove(&mut e, &mut items, &mut seen, &mut wires, 1);
    assert!(!record(&mut e, &mut reg, &m, &r, 20));
    assert!(!record(&mut e, &mut reg, &m, &r, 21));
    assert!(record(&mut e, &mut reg, &m, &r, 22));
}

#[test]
fn a_change_of_fingerprint_is_work() {
    let (mut e, mut reg) = (Entities::new(), registry());
    let m = model("a.glb", ConnKind::Plain);
    let mut r = Record::at(1, at(0, 0));
    record(&mut e, &mut reg, &m, &r, 10);
    assert!(!is_working(&state_of(&e, 1).unwrap(), 10));
    r.fingerprint = 5;
    record(&mut e, &mut reg, &m, &r, 20);
    let s = state_of(&e, 1).unwrap();
    assert_eq!((s.fingerprint, s.last_change), (5, 20));
    assert!(is_working(&s, 28));
    assert!(!is_working(&s, 29));
}

#[test]
fn motion_is_measured_and_jumps_are_not() {
    let (mut e, mut reg) = (Entities::new(), registry());
    let m = model("a.glb", ConnKind::Plain);
    record(&mut e, &mut reg, &m, &Record::at(1, at(0, 0)), 100);
    record(&mut e, &mut reg, &m, &Record::at(1, at(640, -640)), 110);
    let s = state_of(&e, 1).unwrap();
    assert_eq!(s.motion, Motion { dx: 640, dy: -640, frames: 10 });
    assert_eq!((s.interval, s.pos_frame, s.first), (10, 110, at(0, 0)));
    record(&mut e, &mut reg, &m, &Record::at(1, at(640, 641)), 120);
    let s = state_of(&e, 1).unwrap();
    assert_eq!(s.motion, Motion { dx: 0, dy: 0, frames: 1 });
    assert_eq!((s.interval, s.pos_frame), (10, 120));
    record(&mut e, &mut reg, &m, &Record::at(1, at(641, 641)), 1120);
    assert_eq!(state_of(&e, 1).unwrap().interval, 120);
}

#[test]
fn an_unknown_surface_changes_nothing() {
    let (mut e, mut reg) = (Entities::new(), registry());
    let m = model("a.glb", ConnKind::Plain);
    let mut r = Record::at(1, at(0, 0));
    r.surface = 77;
    record(&mut e, &mut reg, &m, &r, 1);
    r.surface = 0;
    record(&mut e, &mut reg, &m, &r, 2);
    assert_eq!(state_of(&e, 1).unwrap().surface, 77);
}

#[test]
fn what_is_drawn_twice_in_a_frame_settles() {
    let (mut e, mut reg) = (Entities::new(), registry());
    let m = model("a.glb", ConnKind::Plain);
    record(&mut e, &mut reg, &m, &Record::at(1, at(0, 0)), 1);
    let r = Record { fingerprint: 9, dir: 3, ..Record::at(1, at(50, 60)) };
    record(&mut e, &mut reg, &m, &r, 4);
    let once = state_of(&e, 1);
    record(&mut e, &mut reg, &m, &r, 4);
    assert_eq!(state_of(&e, 1), once);
}

#[test]
fn what_connects_joins_the_grid_and_leaves_it() {
    let (mut e, mut reg) = (Entities::new(), registry());
    let (mut items, mut seen, mut wires) = (Items::new(), IdMap::new(), Vec::new());
    let s = model("splitter.glb", ConnKind::Splitter);
    let r = Record { dir: 4, ..Record::at(7, at(128, 256)) };
    record(&mut e, &mut reg, &s, &r, 1);
    let joint = Some(Joint { kind: ConnKind::Splitter, dir: 4 });
    assert_eq!(e.grid.get(Cell { x: 0, y: 0 }), joint);
    assert_eq!(e.grid.get(Cell { x: 0, y: 1 }), joint);
    belt_record_due(&mut seen, 7, 1);
    wires.push(WireDraw { from: at(128, 200), to: at(9999, 9999), height: 0, color: COLOR, seen: 0 });
    wires.push(WireDraw { from: at(900, 900), to: at(9999, 9999), height: 0, color: COLOR, seen: 0 });
    remove(&mut e, &mut items, &mut seen, &mut wires, 7);
    assert_eq!(e.grid.get(Cell { x: 0, y: 0 }), None);
    assert_eq!(e.grid.get(Cell { x: 0, y: 1 }), None);
    assert!(state_of(&e, 7).is_none() && !seen.contains(7));
    assert_eq!(wires.len(), 1);
    remove(&mut e, &mut items, &mut seen, &mut wires, 7);
    assert_eq!(wires.len(), 1);
}

#[test]
fn items_on_the_ground_become_entities() {
    let (mut e, mut reg) = (Entities::new(), registry());
    adopt_item(&mut e, &mut reg, 5, "plate.glb".to_string(), at(1, 2), 3, 450, 9);
    let m = model_of(&e, 5).unwrap();
    assert_eq!((m.parts.len(), m.parts[0].key.as_str(), m.tiles), (1, "plate.glb", 450));
    assert_eq!(m.parts[0].yaw, YawSource::Fixed);
    let s = state_of(&e, 5).unwrap();
    assert_eq!((s.pos, s.surface, s.first_seen), (at(1, 2), 3, 9));
    assert!(model_of(&e, 6).is_none());
}

#[test]
fn settings_of_an_unknown_entity_are_lost() {
    let mut e = Entities::new();
    set_active(&mut e, 1, false, 3);
    set_player_shot(&mut e, 1, 3);
    assert!(state_of(&e, 1).is_none());
}

#[test]
fn settings_of_an_entity_are_kept() {
    let (mut e, mut reg) = (Entities::new(), registry());
    record(&mut e, &mut reg, &model("a.glb", ConnKind::Plain), &Record::at(1, at(0, 0)), 1);
    set_rocket(&mut e, 1, 11);
    set_anim_rate(&mut e, 1, 12);
    set_arm_angle(&mut e, 1, 13);
    set_player_color(&mut e, 1, COLOR);
    set_morph(&mut e, 1, 14);
    set_active(&mut e, 1, false, 15);
    set_player_shot(&mut e, 1, 16);
    let s = state_of(&e, 1).unwrap();
    assert_eq!((s.rocket, s.anim_rate, s.arm_angle), (Some(11), 12, Some(13)));
    assert_eq!((s.player_color, s.morph), (COLOR, Some(14)));
    assert_eq!((s.active, s.active_frame, s.last_shot), (false, 15, 16));
}

#[test]
fn poles_are_looked_up_now_and_then() {
    let (mut e, mut reg) = (Entities::new(), registry());
    let pole = model("ENTITIES/STRUCTURES/medium-electric-pole/static.glb", ConnKind::Plain);
    record(&mut e, &mut reg, &pole, &Record::at(1, at(300, 10)), 1);
    record(&mut e, &mut reg, &model("lab.glb", ConnKind::Plain), &Record::at(2, at(900, 10)), 1);
    let mut cache = PoleCells { frame: None, cells: CellSet::new() };
    electric_pole_cells(&mut cache, &e, 5);
    assert!(cache.cells.contains(Cell { x: 1, y: 0 }));
    assert!(!cache.cells.contains(Cell { x: 3, y: 0 }));
    record(&mut e, &mut reg, &pole, &Record::at(3, at(-1, -1)), 6);
    electric_pole_cells(&mut cache, &e, 34);
    assert!(!cache.cells.contains(Cell { x: -1, y: -1 }));
    electric_pole_cells(&mut cache, &e, 35);
    assert!(cache.cells.contains(Cell { x: -1, y: -1 }));
    assert_eq!(cache.frame, Some(35));
}

#[test]
fn a_belt_is_due_at_first_and_then_now_and_then() {
    let mut seen = IdMap::new();
    assert!(belt_record_due(&mut seen, 4, 100));
    assert!(!belt_record_due(&mut seen, 4, 129));
    assert!(belt_record_due(&mut seen, 5, 129));
    assert!(belt_record_due(&mut seen, 4, 130));
    assert!(!belt_record_due(&mut seen, 4, 50));
}

#[test]
fn the_surface_with_most_entities_is_the_main_one() {
    let (mut e, mut reg) = (Entities::new(), registry());
    let m = model("a.glb", ConnKind::Plain);
    for (id, surface) in [(1, 0), (2, 0), (3, 0), (4, 8), (5, 9), (6, 9)] {
        let r = Record { surface, ..Record::at(id, at(0, 0)) };
        record(&mut e, &mut reg, &m, &r, 1);
    }
    let mut c = MainSurface { frame: None, surface: 0 };
    assert_eq!(dominant_surface(&mut c, &Entities::new(), 0), 0);
    assert_eq!(dominant_surface(&mut c, &e, 29), 0);
    assert_eq!(dominant_surface(&mut c, &e, 30), 9);
}

#[test]
fn ghosts_last_for_a_few_frames() {
    let mut g: Vec<Ghost3d> = Vec::new();
    let m = model("a.glb", ConnKind::Plain);
    record_ghost(&mut g, &m, at(0, 0), 0, 5);
    record_ghost(&mut g, &m, at(0, 0), 8, 5);
    record_ghost(&mut g, &m, at(256, 0), 4, 5);
    record_ghost(&mut g, &model("b.glb", ConnKind::Plain), at(0, 0), 0, 5);
    assert_eq!(g.iter().map(|d| d.dir).collect::<Vec<u8>>(), vec![8, 4, 0]);
    assert!(ghost_shows(&g[0], 7) && !ghost_shows(&g[0], 8));
    record_ghost(&mut g, &m, at(0, 0), 1, 6);
    assert_eq!(g.len(), 1);
    for x in 0..300 {
        record_ghost(&mut g, &m, at(x * 256, 0), 1, 6);
    }
    assert_eq!(g.len(), 256);
}

#[test]
fn only_what_is_near_and_on_the_main_surface_is_drawn() {
    let (mut e, mut reg) = (Entities::new(), registry());
    let add = |e: &mut Entities, reg: &mut Registry, id, key: &str, kind, x, surface| {
        let r = Record { surface, fingerprint: 1, ..Record::at(id, at(x, 0)) };
        record(e, reg, &model(key, kind), &r, 1);
    };
    add(&mut e, &mut reg, 1, "lab.glb", ConnKind::Plain, 0, 9);
    add(&mut e, &mut reg, 2, "belt.glb", ConnKind::Belt, 0, 0);
    add(&mut e, &mut reg, 3, "x/construction-robot/y.glb", ConnKind::Plain, 0, 9);
    add(&mut e, &mut reg, 4, "lab.glb", ConnKind::Plain, 0, 8);
    add(&mut e, &mut reg, 5, "lab.glb", ConnKind::Plain, 1_000_000, 9);
    let view = ViewRect { left: -2560, top: -2560, span_x: 5120, span_y: 5120 };
    let drawn = tick(&e, 2, 9, &ViewCull::new(&view), 30);
    assert_eq!(
        drawn,
        vec![
            Drawn { entity: 1, how: DrawAs::Plain },
            Drawn { entity: 2, how: DrawAs::Connectable },
            Drawn { entity: 3, how: DrawAs::Robot },
        ]
    );
    assert_eq!(tick(&e, 2, 0, &everywhere(), 30).len(), 5);
}

#[test]
fn a_player_who_is_no_longer_drawn_is_hidden() {
    let (mut e, mut reg) = (Entities::new(), registry());
    let m = model("ENTITIES/PLAYER/idle.glb", ConnKind::Plain);
    record(&mut e, &mut reg, &m, &Record::at(1, at(0, 0)), 1);
    record(&mut e, &mut reg, &m, &Record { fingerprint: 5, ..Record::at(1, at(0, 0)) }, 5);
    assert_eq!(tick(&e, 35, 0, &everywhere(), 30), vec![Drawn { entity: 1, how: DrawAs::Player }]);
    assert!(tick(&e, 36, 0, &everywhere(), 30).is_empty());
}

#[test]
fn a_player_runs_shoots_and_mines() {
    let (mut e, mut reg) = (Entities::new(), registry());
    let m = model("ENTITIES/PLAYER/idle.glb", ConnKind::Plain);
    let w = PoseWindows { mine: 12, shoot: 40 };
    record(&mut e, &mut reg, &m, &Record::at(1, at(0, 0)), 100);
    let t = update_player(&mut e, 1, 100, 0, &w).unwrap();
    assert_eq!((t.pose, t.stepped, t.restarted, t.on_belt), (0, false, false, false));
    record(&mut e, &mut reg, &m, &Record::at(1, at(20, 0)), 101);
    let t = update_player(&mut e, 1, 101, 0, &w).unwrap();
    assert_eq!((t.pose, t.stepped, t.restarted), (1, true, true));
    set_player_shot(&mut e, 1, 102);
    assert_eq!(update_player(&mut e, 1, 109, 0, &w).unwrap().pose, 2);
    assert_eq!(update_player(&mut e, 1, 110, 0, &w).unwrap().pose, 3);
    assert_eq!(update_player(&mut e, 1, 110, 100, &w).unwrap().pose, 4);
    assert_eq!(update_player(&mut e, 1, 143, 0, &w).unwrap().pose, 0);
    assert!(update_player(&mut e, 2, 143, 0, &w).is_none());
    record(&mut e, &mut reg, &m, &Record::at(1, at(20 + 1280, 0)), 150);
    assert!(!update_player(&mut e, 1, 150, 0, &w).unwrap().stepped);
    record(&mut e, &mut reg, &model("belt.glb", ConnKind::Belt), &Record::at(2, at(1300, 0)), 150);
    assert!(update_player(&mut e, 1, 151, 0, &w).unwrap().on_belt);
}

#[test]
fn the_settings_of_models_go_by_their_key() {
    assert_eq!(key_extra_yaw("a/underground-belt/b", true), ExtraYaw::Under);
    assert_eq!(key_extra_yaw("splitter.glb", false), ExtraYaw::Splitter);
    assert_eq!(key_extra_yaw("gun-turret/static2.glb", false), ExtraYaw::TurretHead);
    assert_eq!(key_extra_yaw("ENTITIES/VEHICLES/tank/a", true), ExtraYaw::Tank);
    assert_eq!(key_extra_yaw("ENTITIES/VEHICLES/car/a", true), ExtraYaw::Car);
    assert_eq!(key_extra_yaw("ENTITIES/ENEMIES/biters/a", true), ExtraYaw::Biter);
    assert_eq!(key_extra_yaw("ENTITIES/PLAYER/idle.glb", false), ExtraYaw::Player);
    assert_eq!(key_extra_yaw("loco.glb", true), ExtraYaw::Vehicle);
    assert_eq!(key_extra_yaw("loco.glb", false), ExtraYaw::Zero);
}

fn entry(m: EntityModel, r: Record) -> Entry {
    let (mut e, mut reg) = (Entities::new(), registry());
    record(&mut e, &mut reg, &m, &r, 10);
    Entry { state: state_of(&e, r.entity).unwrap(), model: m }
}

#[test]
fn parts_turn_by_what_the_entity_has() {
    let m = EntityModel {
        parts: vec![
            Part { key: "base.glb".to_string(), yaw: YawSource::Direction },
            Part { key: "head.glb".to_string(), yaw: YawSource::Orientation },
            Part { key: "fix.glb".to_string(), yaw: YawSource::Fixed },
            Part { key: "dish.glb".to_string(), yaw: YawSource::Spin },
        ],
        tiles: 1000,
        kind: ConnKind::Plain,
    };
    let still = entry(
        factorio_3d::models::copy_model(&m),
        Record { dir: 6, ..Record::at(1, at(0, 0)) },
    );
    let bases: Vec<BaseYaw> = entity_instances(&still, 10).iter().map(|p| p.base).collect();
    assert_eq!(
        bases,
        vec![BaseYaw::Direction(6), BaseYaw::Zero, BaseYaw::Zero, BaseYaw::Spin]
    );
    let moving = entry(m, Record { orientation: Some(99), ..Record::at(1, at(0, 0)) });
    let parts = entity_instances(&moving, 10);
    assert_eq!(parts[0].base, BaseYaw::Orientation(99));
    assert_eq!((parts[0].extra, parts[1].extra), (ExtraYaw::Vehicle, ExtraYaw::Zero));
    assert_eq!(parts[1].base, BaseYaw::Orientation(99));
    assert!(advances_spin(&moving, 14) && !advances_spin(&moving, 15));
}

#[test]
fn players_and_rockets_have_places_of_their_own() {
    let mut p = entry(model("ENTITIES/PLAYER/idle.glb", ConnKind::Plain), Record::at(1, at(0, 0)));
    p.state.player_state = 4;
    p.state.player_color = Color { r: 0, g: 0, b: 0, a: 1.0f32.to_bits() };
    let d = entity_instances(&p, 10);
    assert_eq!(d[0].key, "ENTITIES/PLAYER/mining.glb");
    assert_eq!((d[0].place, d[0].tinted, d[0].extra), (Place::Smoothed, true, ExtraYaw::Player));
    let mut r = entry(model("rocket.glb", ConnKind::Plain), Record::at(1, at(0, 0)));
    assert_eq!(entity_instances(&r, 10)[0].place, Place::Live);
    r.state.rocket = Some(0);
    assert_eq!(entity_instances(&r, 10)[0].place, Place::First);
    r.state.active_frame = 10;
    assert!(entity_instances(&r, 39)[0].active && !entity_instances(&r, 40)[0].active);
    let jack = entry(model("a/pumpjack/b.glb", ConnKind::Plain), Record::at(1, at(0, 0)));
    assert!(entity_instances(&jack, 10)[0].mirrored);
}

#[test]
fn wires_between_entities_stay() {
    let (mut e, mut reg) = (Entities::new(), registry());
    let m = model("pole.glb", ConnKind::Plain);
    record(&mut e, &mut reg, &m, &Record::at(1, at(0, 0)), 1);
    record(&mut e, &mut reg, &m, &Record::at(2, at(2560, 0)), 1);
    let w = |x| WireDraw { from: at(0, 0), to: at(x, 0), height: 0, color: COLOR, seen: 8 };
    let mut wires = vec![w(2560 + 300), w(5120)];
    take_wires(&mut wires, &e, 27, 20);
    assert_eq!(wires.len(), 2);
    take_wires(&mut wires, &e, 24, 20);
    assert_eq!(wires.len(), 2);
    take_wires(&mut wires, &e, 32, 20);
    assert_eq!(wires, vec![w(2560 + 300)]);
}

#[test]
fn a_model_is_asked_for_once() {
    let mut reg = registry();
    assert!(get(&mut reg, "a.glb").is_none());
    assert!(get(&mut reg, "a.glb").is_none());
    assert_eq!(reg.take_queue(), vec!["a.glb".to_string()]);
    reg.finish_load("a.glb", None);
    assert!(get(&mut reg, "a.glb").is_none());
    assert!(reg.take_queue().is_empty());
}
