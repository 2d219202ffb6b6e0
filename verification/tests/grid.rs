use factorio_3d::connect::{
    asks_disk, connectable_instances, junction_pieces, junction_variant, Connectable, Junction,
    LiftKnob, Scroll, YawKnob,
};
use factorio_3d::grid::{
    belt_curve, card, cell_at, corner_quarter, fork_quarter, is_exit, neighbor_mask, same_group,
    splitter_cells, straight_yaw, Cell, CellSet, Curve, Grid, Joint, Sides,
};
use factorio_3d::hooks::MapPos;
use factorio_3d::models::{build_registry, ConnKind, Disk, Folder, Registry};

fn cell(x: i32, y: i32) -> Cell {
    Cell { x, y }
}

fn grid(joints: &[(i32, i32, ConnKind, u8)]) -> Grid {
    let mut g = Grid::new();
    for (x, y, kind, dir) in joints {
        g.insert(cell(*x, *y), Joint { kind: *kind, dir: *dir });
    }
    g
}

fn sides(s: &str) -> Sides {
    Sides {
        north: s.contains('n'),
        east: s.contains('e'),
        south: s.contains('s'),
        west: s.contains('w'),
    }
}

fn registry() -> Registry {
    build_registry(vec![])
}

fn disk(path: &str, file: &str) -> Disk {
    let folder = Folder { path: path.to_string(), entries: vec![file.to_string()] };
    Disk { folders: vec![folder], ignores_case: false }
}

#[test]
fn tiles_are_rounded_down() {
    assert_eq!(cell_at(MapPos { x: 0, y: 255 }), cell(0, 0));
    assert_eq!(cell_at(MapPos { x: 256, y: -1 }), cell(1, -1));
    assert_eq!(cell_at(MapPos { x: -256, y: -257 }), cell(-1, -2));
    assert_eq!(cell_at(MapPos { x: i32::MIN, y: i32::MAX }), cell(-8388608, 8388607));
}

#[test]
fn sets_of_tiles_hold_what_was_put_in() {
    let mut s = CellSet::new();
    s.insert(cell(-1, 2));
    s.insert(cell(-1, 2));
    assert!(s.contains(cell(-1, 2)));
    assert!(!s.contains(cell(2, -1)));
}

#[test]
fn the_grid_forgets_what_is_removed() {
    let mut g = grid(&[(0, 0, ConnKind::Pipe, 0), (-3, 7, ConnKind::Wall, 0)]);
    g.insert(cell(0, 0), Joint { kind: ConnKind::Belt, dir: 4 });
    assert_eq!(g.get(cell(0, 0)), Some(Joint { kind: ConnKind::Belt, dir: 4 }));
    g.remove(cell(0, 0));
    assert_eq!(g.get(cell(0, 0)), None);
    assert!(g.get(cell(-3, 7)).is_some());
}

#[test]
fn kinds_connect_within_their_group() {
    assert!(same_group(ConnKind::Belt, ConnKind::Splitter));
    assert!(same_group(ConnKind::PipeEnd, ConnKind::Pipe));
    assert!(same_group(ConnKind::Heat, ConnKind::Heat));
    assert!(same_group(ConnKind::Wall, ConnKind::Gate));
    assert!(!same_group(ConnKind::Heat, ConnKind::Pipe));
    assert!(!same_group(ConnKind::Plain, ConnKind::Plain));
}

#[test]
fn neighbours_see_each_other() {
    let g = grid(&[
        (0, 0, ConnKind::Pipe, 0),
        (0, -1, ConnKind::PipeEnd, 0),
        (1, 0, ConnKind::Heat, 0),
        (0, 1, ConnKind::Pipe, 0),
    ]);
    assert_eq!(neighbor_mask(&g, cell(0, 0), ConnKind::Pipe), sides("ns"));
    assert_eq!(neighbor_mask(&g, cell(0, -1), ConnKind::PipeEnd), sides("s"));
    assert_eq!(neighbor_mask(&g, cell(1, 0), ConnKind::Heat), sides(""));
}

#[test]
fn junctions_are_turned_from_north_and_east() {
    assert_eq!(straight_yaw(&sides("")), Some(0));
    assert_eq!(straight_yaw(&sides("s")), Some(0));
    assert_eq!(straight_yaw(&sides("ew")), Some(1));
    assert_eq!(straight_yaw(&sides("ne")), None);
    let corners: Vec<u8> =
        ["ne", "es", "sw", "wn"].iter().map(|s| corner_quarter(&sides(s))).collect();
    assert_eq!(corners, vec![0, 1, 2, 3]);
    let forks: Vec<u8> =
        ["esw", "nsw", "new", "nes"].iter().map(|s| fork_quarter(&sides(s))).collect();
    assert_eq!(forks, vec![0, 1, 2, 3]);
}

#[test]
fn belts_curve_where_a_side_feeds_them() {
    let east = [(0, 0, ConnKind::Belt, 4), (-1, 0, ConnKind::Belt, 4)];
    assert_eq!(belt_curve(&grid(&east), cell(0, 0), 4), Curve::Straight);
    let from_south = [(0, 0, ConnKind::Belt, 4), (0, 1, ConnKind::Belt, 0)];
    assert_eq!(belt_curve(&grid(&from_south), cell(0, 0), 4), Curve::Right);
    let from_north = [(0, 0, ConnKind::Belt, 4), (0, -1, ConnKind::Under, 8)];
    assert_eq!(belt_curve(&grid(&from_north), cell(0, 0), 4), Curve::Left);
    let both_sides =
        [(0, 0, ConnKind::Belt, 4), (0, 1, ConnKind::Belt, 0), (0, -1, ConnKind::Belt, 8)];
    assert_eq!(belt_curve(&grid(&both_sides), cell(0, 0), 4), Curve::Straight);
    let north = [(-1, 0, ConnKind::Belt, 4), (1, 0, ConnKind::Belt, 12)];
    assert_eq!(belt_curve(&grid(&north), cell(0, 0), 0), Curve::Straight);
    assert_eq!(belt_curve(&grid(&north[..1]), cell(0, 0), 0), Curve::Left);
    let behind_too =
        [(0, 0, ConnKind::Belt, 4), (-1, 0, ConnKind::Belt, 4), (0, 1, ConnKind::Belt, 0)];
    assert_eq!(belt_curve(&grid(&behind_too), cell(0, 0), 4), Curve::Straight);
    let head_on = [(0, 0, ConnKind::Belt, 4), (1, 0, ConnKind::Belt, 12)];
    assert_eq!(belt_curve(&grid(&head_on), cell(0, 0), 4), Curve::Straight);
}

#[test]
fn underground_belts_pair_up() {
    let pair = grid(&[(0, 0, ConnKind::Under, 4), (9, 0, ConnKind::Under, 4)]);
    assert!(!is_exit(&pair, cell(0, 0), 4));
    assert!(is_exit(&pair, cell(9, 0), 4));
    let far = grid(&[(0, 0, ConnKind::Under, 4), (10, 0, ConnKind::Under, 4)]);
    assert!(!is_exit(&far, cell(0, 0), 4));
    assert!(!is_exit(&far, cell(10, 0), 4));
    let lone = grid(&[(0, 0, ConnKind::Under, 4), (1, 0, ConnKind::Belt, 4)]);
    assert!(is_exit(&lone, cell(0, 0), 4));
}

#[test]
fn splitters_stand_on_two_tiles() {
    assert_eq!(card(0), 0);
    assert_eq!(card(13), 3);
    assert_eq!(
        splitter_cells(MapPos { x: 256, y: 128 }, 0),
        (cell(0, 0), cell(1, 0))
    );
    assert_eq!(
        splitter_cells(MapPos { x: 128, y: 0 }, 4),
        (cell(0, -1), cell(0, 0))
    );
}

#[test]
fn a_junction_with_a_file_of_its_own_uses_it() {
    let f = "ENTITIES/STRUCTURES/pipes";
    let (mut reg, d) = (registry(), disk(f, "t.glb"));
    match junction_variant(&mut reg, &d, f, &sides("nsw")) {
        Junction::Model(key, q) => {
            assert_eq!((key.as_str(), q), ("ENTITIES/STRUCTURES/pipes/t.glb", 1));
        }
        _ => panic!("a file of its own"),
    }
    assert!(matches!(junction_variant(&mut reg, &d, f, &sides("nesw")), Junction::Halves));
    assert!(matches!(junction_variant(&mut reg, &d, f, &sides("ew")), Junction::Straight(1)));
}

#[test]
fn pipe_corners_are_laid_on_their_side() {
    let (mut reg, d) = (registry(), Disk::empty());
    let p = junction_pieces(&mut reg, &d, ConnKind::Pipe, "pipe-I.glb", &sides("es"));
    assert_eq!(p.len(), 1);
    assert_eq!(p[0].key, "ENTITIES/STRUCTURES/pipes/pipe-to-ground.glb");
    assert_eq!((p[0].turn, p[0].elbow, p[0].yaw), (4, Some(1), YawKnob::PipeCorner));
}

#[test]
fn walls_fork_into_halves() {
    let (mut reg, d) = (registry(), Disk::empty());
    let p = junction_pieces(&mut reg, &d, ConnKind::Wall, "wall.glb", &sides("nes"));
    let turns: Vec<(u16, Option<u8>)> = p.iter().map(|q| (q.turn, q.half)).collect();
    assert_eq!(turns, vec![(4, Some(0)), (8, Some(1)), (4, Some(2))]);
    assert!(p.iter().all(|q| q.lift == LiftKnob::Ground && q.yaw == YawKnob::Wall));
    let s = junction_pieces(&mut reg, &d, ConnKind::Wall, "wall.glb", &sides("n"));
    assert_eq!((s[0].turn, s[0].half), (4, None));
}

#[test]
fn curved_belts_use_the_corner_model() {
    let (mut reg, d) = (registry(), Disk::empty());
    let g = grid(&[(0, 0, ConnKind::Belt, 4), (0, 1, ConnKind::Belt, 0)]);
    let e = Connectable {
        kind: ConnKind::Belt,
        key: "fast/belt-I.glb",
        pos: MapPos { x: 128, y: 128 },
        dir: 4,
    };
    let (p, scroll) = connectable_instances(&mut reg, &d, &g, &CellSet::new(), &e, false);
    assert_eq!(p[0].key, "fast/belt-L.glb");
    assert_eq!((p[0].turn, p[0].mirror, scroll), (4, false, Scroll::Belt));
    let (q, _) = connectable_instances(&mut reg, &d, &g, &CellSet::new(), &e, true);
    assert!(q[0].mirror);
}

#[test]
fn splitters_run_while_an_item_rides_on_them() {
    let (mut reg, d) = (registry(), Disk::empty());
    let g = Grid::new();
    let mut items = CellSet::new();
    let e = Connectable {
        kind: ConnKind::Splitter,
        key: "splitter.glb",
        pos: MapPos { x: 256, y: 128 },
        dir: 0,
    };
    assert_eq!(connectable_instances(&mut reg, &d, &g, &items, &e, false).1, Scroll::Still);
    items.insert(cell(1, 0));
    assert_eq!(connectable_instances(&mut reg, &d, &g, &items, &e, false).1, Scroll::Splitter);
}

#[test]
fn underground_exits_face_back() {
    let (mut reg, d) = (registry(), Disk::empty());
    let g = grid(&[(0, 0, ConnKind::Under, 4), (3, 0, ConnKind::Under, 4)]);
    let e = |x| Connectable {
        kind: ConnKind::Under,
        key: "under.glb",
        pos: MapPos { x, y: 128 },
        dir: 4,
    };
    assert_eq!(connectable_instances(&mut reg, &d, &g, &CellSet::new(), &e(128), false).0[0].turn, 4);
    assert_eq!(
        connectable_instances(&mut reg, &d, &g, &CellSet::new(), &e(3 * 256 + 128), false).0[0].turn,
        12
    );
}

#[test]
fn the_disk_is_asked_once_for_a_fork() {
    let mut reg = registry();
    let g = grid(&[
        (0, 0, ConnKind::Wall, 0),
        (0, -1, ConnKind::Wall, 0),
        (1, 0, ConnKind::Wall, 0),
        (0, 1, ConnKind::Wall, 0),
    ]);
    let e = |x| Connectable {
        kind: ConnKind::Wall,
        key: "wall.glb",
        pos: MapPos { x, y: 128 },
        dir: 0,
    };
    assert!(!asks_disk(&reg, &g, &e(256 + 128)));
    assert!(asks_disk(&reg, &g, &e(128)));
    let there = disk("ENTITIES/STRUCTURES/stone-wall", "t.glb");
    let first = connectable_instances(&mut reg, &there, &g, &CellSet::new(), &e(128), false).0;
    assert_eq!(first.len(), 1);
    assert_eq!(first[0].key, "ENTITIES/STRUCTURES/stone-wall/t.glb");
    assert!(!asks_disk(&reg, &g, &e(128)));
    let gone = Disk::empty();
    let again = connectable_instances(&mut reg, &gone, &g, &CellSet::new(), &e(128), false).0;
    assert_eq!(again[0].key, first[0].key);
    let mut other = registry();
    let halves = connectable_instances(&mut other, &gone, &g, &CellSet::new(), &e(128), false).0;
    assert_eq!(halves.len(), 3);
}
