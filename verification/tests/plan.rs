use factorio_3d::explore::{name_matches, search_symbols, shown, AnySymbol};
use factorio_3d::frame::ViewRect;
use factorio_3d::hooks::MapPos;
use factorio_3d::idmap::IdMap;
use factorio_3d::model_plan::{
    bones_used, build_plan, draw, draw_prims, ensure_depth, ensure_inst_buf, ensure_model,
    group_by_look, is_arc_prim, is_lamp, is_plain, layout, prepare_instance, prepares, rests, take_marked,
    DrawCall, DrawItem, Extras, Look, ModelInfo, PartInfo, Prepare, Upload, MAX_WIRES_DRAWN,
};
use factorio_3d::models::{build_registry, LoadedModel};
use factorio_3d::paths::{dll_candidates, first_there, models_candidates, pdb_candidates};
use factorio_3d::present::{draws_models, on_after_world_render, window_size, WorldPasses};
use factorio_3d::view_cull::ViewCull;
use factorio_3d::warp::{
    ensure_staging, quad_corner, staging_fits, warp_in_place, Corner, Layers, Staging, WarpPass,
};

fn look(id: u64) -> Look {
    Look { id, u: 0, v: 0, active: true }
}

#[test]
fn models_that_look_alike_are_drawn_together() {
    let looks: Vec<Look> = [1, 2, 1, 3, 2, 1, 4].iter().map(|i| look(*i)).collect();
    let plain = vec![true, true, true, true, false, true, false];
    let p = build_plan(&looks, &plain);
    assert_eq!(p.groups.len(), 1);
    assert_eq!(p.groups[0].members, vec![0, 2, 5]);
    let mut singles = p.singles.clone();
    singles.sort();
    assert_eq!(singles, vec![1, 3, 4, 6]);
    let all = group_by_look(&looks, &vec![true; 7]);
    assert_eq!(all.iter().map(|g| g.members.len()).sum::<usize>(), 7);
    assert_eq!(all.len(), 4);
    assert!(build_plan(&Vec::new(), &Vec::new()).singles.is_empty());
}

#[test]
fn every_matrix_has_its_place() {
    let (bases, total) = layout(&vec![3, 2, 5], &vec![2, 1, 0]);
    assert_eq!((bases, total), (vec![0, 6, 8], 8));
    assert_eq!(layout(&Vec::new(), &Vec::new()).1, 0);
}

#[test]
fn the_room_for_matrices_doubles() {
    assert_eq!(ensure_inst_buf(None, 0), (1024, true));
    assert_eq!(ensure_inst_buf(None, 1024), (1024, true));
    assert_eq!(ensure_inst_buf(Some(1024), 1025), (2048, true));
    assert_eq!(ensure_inst_buf(Some(4096), 1025), (4096, false));
    assert_eq!(ensure_inst_buf(None, 5000), (8192, true));
    assert_eq!(ensure_depth(Some((3, 4)), 3, 4), None);
    assert_eq!(ensure_depth(Some((3, 4)), 0, 4), Some((1, 4)));
    assert_eq!(ensure_depth(None, 5, 6), Some((5, 6)));
}

#[test]
fn uploads_are_spread_over_frames() {
    let mut reg = build_registry(Vec::new());
    let m = LoadedModel { handle: 4, duration_bits: 0 };
    let mut budget = 1;
    assert_eq!(ensure_model(&mut reg, true, "a", &mut budget), Upload::There);
    assert_eq!(ensure_model(&mut reg, false, "a", &mut budget), Upload::Later);
    assert_eq!(reg.take_queue(), vec!["a".to_string()]);
    reg.finish_load("a", Some(m));
    assert_eq!(ensure_model(&mut reg, false, "a", &mut budget), Upload::Now(m));
    assert_eq!(budget, 0);
    assert_eq!(ensure_model(&mut reg, false, "b", &mut budget), Upload::Later);
    assert!(reg.take_queue().is_empty());
    budget = 2;
    let mut step = |on, there, scale_there, key: &str, scale: &str| {
        prepare_instance(&mut reg, on, there, scale_there, key, scale, &mut budget)
    };
    assert_eq!(step(false, true, true, "a", "a"), Prepare::Skip);
    assert_eq!(step(true, false, false, "a", "a"), Prepare::UploadModel(m));
    assert_eq!(step(true, true, false, "b", "a"), Prepare::UploadScale(m));
    assert_eq!(step(true, true, true, "b", "a"), Prepare::Draw);
    assert_eq!(step(true, true, false, "a", "a"), Prepare::Draw);
    assert_eq!(step(true, false, true, "a", "a"), Prepare::Skip);
}

#[test]
fn plain_models_have_nothing_of_their_own() {
    let none = Extras {
        on_track: false,
        head_clip: false,
        half: false,
        tinted: false,
        see_through: false,
        morphed: false,
        at_rest: true,
    };
    assert!(is_plain(&none));
    assert!(!is_plain(&Extras { morphed: true, ..none }));
    assert!(!is_plain(&Extras { at_rest: false, ..none }));
    assert!(rests(true, false, true, true) && !rests(true, true, true, false));
    assert!(!rests(false, false, false, false));
    assert!(is_arc_prim("a/accumulator/b.glb", "mat9") && !is_arc_prim("accumulator", "mat1"));
    assert!(is_lamp("x/small-lamp/y") && !is_lamp("lamp"));
    assert_eq!((bones_used(95), bones_used(200)), (95, 96));
}

#[test]
fn only_so_many_lamps_and_wires_are_drawn() {
    assert_eq!(take_marked(&vec![true, false, true, true], 2), vec![0, 2]);
    assert_eq!(take_marked(&vec![true; 40], 16).len(), 16);
    assert_eq!(take_marked(&vec![true; 2000], MAX_WIRES_DRAWN).len(), 1365);
    assert!(1365 * 96 <= 131072 && 1366 * 96 > 131072);
}

#[test]
fn draws_follow_the_plan() {
    let part = |arc, track| PartInfo { arc, track };
    let models = vec![
        ModelInfo { parts: vec![part(false, false), part(true, false)], has_path: false },
        ModelInfo { parts: vec![part(false, true)], has_path: true },
    ];
    let item = |model, active, opaque, on_track| DrawItem { model, active, opaque, on_track };
    let items = vec![
        item(0, false, true, false),
        item(0, false, true, false),
        item(1, true, false, true),
    ];
    let looks = vec![
        Look { active: false, ..look(1) },
        Look { active: false, ..look(1) },
        look(2),
    ];
    let plan = build_plan(&looks, &vec![true, true, false]);
    let (bases, _) = layout(&vec![2], &vec![2]);
    assert_eq!(
        draw_prims(&plan, &bases, &items, &models, false),
        vec![
            DrawCall::Instanced { group: 0, part: 0, slot: 0, count: 2 },
            DrawCall::Path(2),
            DrawCall::Single { item: 2, part: 0, on_track: true },
        ]
    );
    assert_eq!(draw_prims(&plan, &bases, &items, &models, true).len(), 1);
}

#[test]
fn nothing_is_drawn_without_a_view() {
    let v = ViewRect { left: 0, top: 0, span_x: 5000, span_y: 5000 };
    assert!(prepares(true, false, &v) && prepares(false, true, &v));
    assert!(!prepares(false, false, &v));
    assert!(!prepares(true, true, &ViewRect { span_x: 127, ..v }));
    assert!(draw(false, false, &v, 1, 1, true, true).is_none());
    assert!(draw(true, false, &ViewRect { span_y: 127, ..v }, 1, 0, true, true).is_none());
    assert!(draw(true, true, &v, 0, 0, true, true).is_none());
    let p = draw(true, true, &v, 3, 0, true, false).unwrap();
    assert!(p.models && !p.shadows && !p.wires);
}

#[test]
fn the_passes_go_from_the_ground_up() {
    let l = Layers {
        ground_hi: true,
        belt: true,
        elevated: true,
        elevated_raised: false,
        object: true,
        object_hi: true,
        wire: true,
        wire_raised: true,
        any_tile: true,
    };
    assert_eq!(
        warp_in_place(&l, 7),
        vec![
            WarpPass::Ground(true),
            WarpPass::Belt(1),
            WarpPass::Belt(2),
            WarpPass::Belt(3),
            WarpPass::Billboards(7, true),
            WarpPass::Wire,
        ]
    );
    let flat = Layers { belt: false, wire_raised: false, elevated_raised: true, any_tile: false, ..l };
    assert_eq!(
        warp_in_place(&flat, 0),
        vec![
            WarpPass::Ground(false),
            WarpPass::Deck(1),
            WarpPass::Deck(2),
            WarpPass::Deck(3),
            WarpPass::ObjectsFlat,
        ]
    );
    assert_eq!(warp_in_place(&l, 70000)[4], WarpPass::Billboards(65536, true));
}

#[test]
fn the_copy_of_a_frame_fits_it() {
    let mut s = Staging { width: 10, height: 20, format: 3 };
    assert!(staging_fits(&s, 10, 20, 3) && !staging_fits(&s, 10, 20, 4));
    assert!(ensure_staging(&mut s, 10, 20, 3, false));
    assert!(!ensure_staging(&mut s, 11, 20, 3, false));
    assert_eq!(s.width, 10);
    assert!(ensure_staging(&mut s, 11, 20, 3, true));
    assert_eq!(s, Staging { width: 11, height: 20, format: 3 });
}

#[test]
fn a_quad_is_two_triangles() {
    let c: Vec<Corner> = (0..6).map(quad_corner).collect();
    assert_eq!(c[1], c[4]);
    assert_eq!(c[2], c[3]);
    assert_eq!(c[0], Corner { right: false, top: false });
    assert_eq!(c[5], Corner { right: true, top: true });
}

#[test]
fn symbols_are_searched_without_regard_to_case() {
    let sym = |name: &str, rva, procedure| AnySymbol { name: name.to_string(), rva, procedure };
    let all = vec![
        sym("?zoom@Render@@", Some(5), false),
        sym("?draw@RENDERER@@", None, false),
        sym("?other@@", Some(7), false),
        sym("render_proc", Some(8), true),
    ];
    let found = search_symbols(&all, "Render", false);
    let names: Vec<(&str, u32)> = found.iter().map(|m| (m.name.as_str(), m.rva)).collect();
    assert_eq!(names, vec![("?draw@RENDERER@@", 0), ("?zoom@Render@@", 5)]);
    assert_eq!(search_symbols(&all, "render", true).len(), 3);
    assert!(name_matches("abc", "b") && !name_matches("abc", "B"));
    assert_eq!((shown(3, 100), shown(300, 100)), (3, 100));
}

#[test]
fn files_are_looked_for_in_order() {
    assert_eq!(first_there(&vec![false, true, true]), Some(1));
    assert_eq!(first_there(&vec![false]), None);
    assert_eq!(first_there(&Vec::new()), None);
    assert_eq!(pdb_candidates().len(), 4);
    assert_eq!(pdb_candidates()[1].path, "bin/x64/factorio.pdb");
    assert_eq!(dll_candidates()[1].path, "target/release/factorio_3d.dll");
    assert!(dll_candidates()[0].in_folder && !dll_candidates()[2].in_folder);
    assert_eq!(models_candidates(true).len(), 3);
    assert_eq!(models_candidates(false).len(), 1);
}

#[test]
fn models_are_drawn_in_views_of_the_world() {
    let v = |span_x| ViewRect { left: 0, top: 0, span_x, span_y: 9 };
    assert!(!draws_models(&v(256)) && draws_models(&v(257)));
    assert!(draws_models(&v(153599)) && !draws_models(&v(153600)));
    assert_eq!(on_after_world_render(false, true, false, 0, 900, false, true, &v(999)), None);
    assert_eq!(
        on_after_world_render(true, true, false, 0, 900, false, true, &v(999)),
        Some(WorldPasses { warp: false, models: true })
    );
    assert_eq!(
        on_after_world_render(true, true, false, 0, 889, false, false, &v(999)),
        Some(WorldPasses { warp: true, models: false })
    );
    assert_eq!(window_size((0, 5), (7, 8)), (7, 8));
    assert_eq!(window_size((4, 5), (7, 8)), (4, 5));
}

#[test]
fn what_is_near_the_view_is_drawn() {
    let c = ViewCull::new(&ViewRect { left: 0, top: 0, span_x: 2560, span_y: 2560 });
    let at = |x, y| c.contains(MapPos { x, y });
    assert!(at(0, 0) && at(-2047, 0) && !at(-2048, 0));
    assert!(at(2560 + 2047, 5) && !at(2560 + 2048, 5));
    let all = ViewCull::new(&ViewRect { left: 0, top: 0, span_x: 128, span_y: 9999 });
    assert!(all.contains(MapPos { x: i32::MIN, y: i32::MAX }));
}

#[test]
fn values_are_found_by_number() {
    let mut m: IdMap<&str> = IdMap::new();
    m.insert(5, "five");
    m.insert(6, "six");
    m.insert(7, "seven");
    m.insert(6, "SIX");
    assert_eq!((m.len(), m.get(6).copied()), (3, Some("SIX")));
    assert_eq!(m.remove(5), Some("five"));
    assert_eq!((m.id_at(0), *m.value_at(0)), (7, "seven"));
    *m.value_mut(0) = "SEVEN";
    assert_eq!(m.get(7).copied(), Some("SEVEN"));
    assert_eq!(m.remove(5), None);
    assert_eq!((m.find(6), m.find(5), m.contains(7)), (Some(1), None, true));
}
