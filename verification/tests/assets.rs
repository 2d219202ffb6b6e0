use factorio_3d::geometry::{
    default_indices, interleave, merge_prims, Attributes, PrimData, ONE_BITS, VERTEX_FLOATS,
};
use factorio_3d::gltf_model::{
    anim_duration, assemble, best_clip, bind_skins, flags_in, flatten, is_strict, keep_legs, load,
    material_flags, parse_spider_role, pick_scene, rig_nodes, roles_in, static_nodes, Channel, Clip, LegSeg, LoadError,
    NodeData, Scene, SceneNode, SceneSkin, SpiderRole, TrackOutput,
};
use factorio_3d::order::order_by_key;
use factorio_3d::pose::{key_spot, match_feet, KeySpot};
use factorio_3d::textures::{halve, mip_chain, to_rgba, Image, PixelFormat, TexData};
use factorio_3d::track::{load_track_path, parse_json, track_path_from, Coords, Json};

fn node(name: &str, children: Vec<usize>, mesh: Option<usize>) -> SceneNode {
    SceneNode { children, name: name.to_string(), mesh, skin: None }
}

fn channel(node: usize, times: usize, end: f32, output: TrackOutput) -> Channel {
    Channel { node, times, end: end.to_bits(), output }
}

fn prim(node: usize, material: Option<usize>, first: u32) -> PrimData {
    PrimData {
        node,
        skin: None,
        material,
        vertices: vec![first; 2 * VERTEX_FLOATS],
        indices: vec![0, 1, 0],
    }
}

fn tank() -> Scene {
    Scene {
        nodes: vec![
            node("hull", vec![1, 2], Some(0)),
            node("turrethull", vec![3], Some(1)),
            node("wheels.001", vec![], None),
            node("barrel", vec![], Some(2)),
            node("scorch mark", vec![], Some(3)),
        ],
        roots: vec![0, 4],
    }
}

#[test]
fn the_scene_to_load() {
    assert_eq!(pick_scene(Some(2), 3), Ok(2));
    assert_eq!(pick_scene(None, 3), Ok(0));
    assert_eq!(pick_scene(None, 0), Err(LoadError::NoScene));
}

#[test]
fn roles_of_a_spidertron_s_nodes() {
    assert_eq!(parse_spider_role("body"), SpiderRole::Body);
    assert_eq!(parse_spider_role("leg3_upper"), SpiderRole::Leg(3, LegSeg::Upper));
    assert_eq!(parse_spider_role("leg+7_foot"), SpiderRole::Leg(7, LegSeg::Foot));
    assert_eq!(parse_spider_role("leg007_lower"), SpiderRole::Leg(7, LegSeg::Lower));
    assert_eq!(parse_spider_role("leg8_upper"), SpiderRole::Unposed);
    assert_eq!(parse_spider_role("leg256_upper"), SpiderRole::Unposed);
    assert_eq!(parse_spider_role("leg_upper"), SpiderRole::Unposed);
    assert_eq!(parse_spider_role("leg1_knee"), SpiderRole::Unposed);
    assert_eq!(parse_spider_role("leg1upper"), SpiderRole::Unposed);
    assert_eq!(parse_spider_role("arm1_upper"), SpiderRole::Unposed);
}

#[test]
fn the_case_of_a_node_s_name_does_not_matter() {
    let scene = Scene {
        nodes: vec![
            node("TurretHull", vec![1, 2, 3, 4], Some(0)),
            node("Wheels.001", vec![], None),
            node("Track_L", vec![], None),
            node("Leg2_Upper", vec![], None),
            node("SCORCH", vec![], Some(1)),
        ],
        roots: vec![0],
    };
    let flat = flatten(&scene);
    let at = |n: usize| &flat.nodes[flat.to_local[n].unwrap()];
    assert!(at(0).is_turret && !at(1).is_turret);
    assert!(at(1).is_wheel && !at(2).is_wheel);
    assert!(at(2).is_track);
    assert_eq!(at(3).spider, SpiderRole::Leg(2, LegSeg::Upper));
    assert_eq!(flat.meshes.len(), 1);
    assert!(roles_in("a scorch mark").scorched);
    assert!(!roles_in("wheelset").is_wheel);
    assert!(roles_in("wheels").is_wheel);
}

#[test]
fn parents_come_before_their_children() {
    let scene = tank();
    assert!(is_strict(&scene));
    let flat = flatten(&scene);
    assert_eq!(flat.nodes.len(), 5);
    for (i, n) in flat.nodes.iter().enumerate() {
        if let Some(p) = n.parent {
            assert!(p < i);
        }
    }
    for (n, local) in flat.to_local.iter().enumerate() {
        assert_eq!(flat.nodes[local.unwrap()].source, Some(n));
    }
    assert_eq!(flat.nodes[0].source, Some(4));
    assert_eq!(flat.meshes.len(), 3);
    assert!(!flat.meshes.iter().any(|m| m.mesh == 3));
}

#[test]
fn a_node_with_two_parents_is_no_tree() {
    let mut scene = tank();
    scene.nodes[2].children = vec![3];
    assert!(!is_strict(&scene));
    let mut scene = tank();
    scene.roots = vec![0, 0];
    assert!(!is_strict(&scene));
    let mut scene = tank();
    scene.nodes[3].children = vec![99];
    assert!(!is_strict(&scene));
}

#[test]
fn what_no_root_reaches_need_not_be_a_tree() {
    let mut scene = tank();
    let n = scene.nodes.len();
    for children in [vec![n + 1, 99, 99], vec![n, 0]] {
        scene.nodes.push(SceneNode { children, name: String::new(), mesh: None, skin: None });
    }
    assert!(is_strict(&scene));
    let flat = flatten(&scene);
    assert_eq!(flat.nodes.len(), n);
    assert_eq!(flat.to_local[n..], [None, None]);
}

#[test]
fn materials_are_told_by_their_name_and_images() {
    let flags = |name: &str, mr, ao| {
        let f = material_flags(name, mr, ao);
        (f.tintable, f.mr_has_ao)
    };
    assert_eq!(flags("Alpha_Joints_MAT", Some(1), Some(1)), (false, true));
    assert_eq!(flags("Surface", Some(1), Some(2)), (true, false));
    assert_eq!(flags("", None, None), (true, false));
    assert!(flags_in("Joint", None, None).tintable);
}

#[test]
fn the_best_clip_plays() {
    let empty = Clip { channels: vec![] };
    let short = Clip { channels: vec![channel(0, 2, 1.0, TrackOutput::Translations(2))] };
    let long = Clip { channels: vec![channel(0, 2, 2.5, TrackOutput::Translations(2))] };
    assert_eq!(anim_duration(&long), 2.5f32.to_bits());
    assert_eq!(anim_duration(&empty), 0);
    assert_eq!(best_clip(&vec![]), None);
    assert_eq!(best_clip(&vec![empty]), None);
    assert_eq!(best_clip(&vec![short, long]), Some(1));
    let a = Clip { channels: vec![channel(0, 2, 1.0, TrackOutput::Other)] };
    let b = Clip { channels: vec![channel(0, 2, 1.0, TrackOutput::Other)] };
    assert_eq!(best_clip(&vec![a, b]), Some(0));
}

#[test]
fn a_plan_binds_tracks_and_skins() {
    let mut scene = tank();
    scene.nodes[3].skin = Some(1);
    let clips = vec![Clip {
        channels: vec![
            channel(3, 2, 1.0, TrackOutput::Rotations(2)),
            channel(3, 2, 1.5, TrackOutput::Rotations(3)),
            channel(0, 2, 0.5, TrackOutput::Weights(vec![1, 2, 3, 4])),
        ],
    }];
    let skins = vec![
        SceneSkin { joints: vec![1, 3], binds: Some(1) },
        SceneSkin { joints: vec![1, 3], binds: Some(2) },
    ];
    let plan = load(&scene, &clips, &skins);
    assert_eq!(plan.clip, Some(0));
    assert_eq!(plan.duration, 1.5f32.to_bits());
    let at = |source: usize| plan.nodes.iter().position(|n| n.source == Some(source)).unwrap();
    assert_eq!(plan.nodes[at(3)].r_anim, Some(0));
    assert_eq!(plan.nodes[at(3)].t_anim, None);
    let w = plan.weights.as_ref().unwrap();
    assert_eq!((w.channel, w.values.clone()), (2, vec![1, 3]));
    assert_eq!(plan.skins.len(), 1);
    assert_eq!(plan.skins[0].source, 1);
    assert_eq!(plan.skins[0].joints, vec![at(1), at(3)]);
    assert_eq!(plan.meshes.iter().find(|m| m.mesh == 2).unwrap().skin, Some(0));
    assert!(plan.fixed[at(0)]);
    assert!(!plan.fixed[at(1)]);
    assert!(!plan.fixed[at(3)]);
    assert!(!plan.fixed[at(2)]);
}

#[test]
fn a_skin_with_a_lost_joint_is_dropped() {
    let skins = vec![SceneSkin { joints: vec![0, 1], binds: None }];
    let (kept, moved) = bind_skins(&skins, &vec![Some(0), None]);
    assert!(kept.is_empty());
    assert_eq!(moved, vec![None]);
    let (kept, moved) = bind_skins(&skins, &vec![Some(4), Some(2)]);
    assert_eq!(kept[0].joints, vec![4, 2]);
    assert_eq!(moved, vec![Some(0)]);
}

#[test]
fn geometry_of_fixed_nodes_is_merged() {
    let plan = load(&tank(), &vec![], &vec![]);
    let at = |source: usize| plan.nodes.iter().position(|n| n.source == Some(source)).unwrap();
    let (hull, turret) = (at(0), at(1));
    let nodes = plan.nodes.len();
    let prims = vec![
        prim(hull, Some(1), 10),
        prim(turret, Some(1), 20),
        prim(hull, None, 30),
        prim(hull, Some(1), 40),
    ];
    let m = assemble(plan, prims, true, false).unwrap();
    assert_eq!(m.prims.len(), 3);
    assert_eq!(m.prims[0].vertices[0], 20);
    assert_eq!(m.prims[1].node, nodes);
    assert_eq!(m.prims[1].vertices.len(), 4 * VERTEX_FLOATS);
    assert_eq!(m.prims[1].indices, vec![0, 1, 0, 2, 3, 2]);
    assert_eq!(m.prims[2].material, None);
    assert_eq!(m.nodes.len(), nodes + 1);
    assert!(m.has_pose_nodes);
    assert!(!m.has_track);
}

#[test]
fn a_model_needs_primitives_and_bounds() {
    let plan = load(&tank(), &vec![], &vec![]);
    assert!(matches!(assemble(plan, vec![], true, false), Err(LoadError::NoPrimitives)));
    let plan = load(&tank(), &vec![], &vec![]);
    assert!(matches!(
        assemble(plan, vec![prim(0, None, 1)], false, false),
        Err(LoadError::EmptyBounds)
    ));
}

#[test]
fn skinned_prims_are_not_merged() {
    let mut skinned = prim(0, None, 1);
    skinned.skin = Some(0);
    let out = merge_prims(vec![skinned, prim(0, None, 2)], &vec![true], 1);
    assert_eq!(out.len(), 2);
    assert_eq!(out[0].node, 0);
    assert_eq!(out[1].node, 1);
    assert_eq!(merge_prims(vec![prim(0, None, 2)], &vec![false], 1)[0].node, 0);
}

#[test]
fn complete_legs_make_a_rig() {
    let blank = |spider: SpiderRole, parent: Option<usize>| NodeData {
        source: None,
        parent,
        t_anim: None,
        r_anim: None,
        s_anim: None,
        is_turret: false,
        is_track: false,
        is_wheel: false,
        spider,
    };
    let mut nodes = vec![
        blank(SpiderRole::Body, None),
        blank(SpiderRole::Leg(2, LegSeg::Upper), Some(0)),
        blank(SpiderRole::Leg(2, LegSeg::Lower), Some(1)),
    ];
    assert!(rig_nodes(&nodes).is_none());
    nodes.push(blank(SpiderRole::Leg(2, LegSeg::Foot), Some(2)));
    let (body, legs) = rig_nodes(&nodes).unwrap();
    assert_eq!(body, Some(0));
    assert_eq!(legs.len(), 1);
    assert_eq!((legs[0].upper, legs[0].lower, legs[0].foot, legs[0].root), (1, 2, 3, 0));
    assert_eq!(static_nodes(&nodes), vec![false; 4]);
    assert!(keep_legs(&legs, &vec![false]).is_none());
    assert_eq!(keep_legs(&legs, &vec![true]).unwrap().len(), 1);
}

#[test]
fn missing_attributes_have_defaults() {
    let a = Attributes {
        positions: vec![(1, 2, 3), (4, 5, 6)],
        normals: None,
        uvs: Some(vec![(7, 8), (9, 10)]),
        morph_positions: Some(vec![(11, 12, 13)]),
        morph_normals: None,
        joints: None,
        weights: None,
    };
    let v = interleave(&a);
    assert_eq!(v.len(), 2 * VERTEX_FLOATS);
    assert_eq!(&v[..14], &[1, 2, 3, 0, ONE_BITS, 0, 7, 8, 11, 12, 13, 0, 0, 0]);
    assert_eq!(&v[22..33], &[4, 5, 6, 0, ONE_BITS, 0, 9, 10, 0, 0, 0]);
    assert_eq!(default_indices(3), vec![0, 1, 2]);
    assert!(default_indices(0).is_empty());
}

#[test]
fn images_become_rgba() {
    let rgb = Image {
        width: 1,
        height: 2,
        format: PixelFormat::R8G8B8,
        pixels: vec![1, 2, 3, 4, 5, 6],
    };
    assert_eq!(to_rgba(rgb).unwrap().rgba, vec![1, 2, 3, 255, 4, 5, 6, 255]);
    let grey = Image { width: 2, height: 1, format: PixelFormat::R8, pixels: vec![9, 8] };
    assert_eq!(to_rgba(grey).unwrap().rgba, vec![9, 9, 9, 255, 8, 8, 8, 255]);
    let other = Image { width: 1, height: 1, format: PixelFormat::Other, pixels: vec![0] };
    assert!(to_rgba(other).is_none());
}

#[test]
fn large_images_are_shrunk() {
    let big = Image {
        width: 2048,
        height: 2,
        format: PixelFormat::R8,
        pixels: vec![100; 4096],
    };
    let t = to_rgba(big).unwrap();
    assert_eq!((t.width, t.height), (1024, 1));
    assert_eq!(t.rgba.len(), 4096);
    assert_eq!(&t.rgba[..4], &[100, 100, 100, 255]);
}

#[test]
fn mips_go_down_to_one_pixel() {
    let t = TexData { width: 4, height: 1, rgba: vec![1, 0, 0, 0, 2, 0, 0, 0, 3, 0, 0, 0, 5, 0, 0, 0] };
    assert_eq!(halve(&t).rgba, vec![1, 0, 0, 0, 4, 0, 0, 0]);
    let levels = mip_chain(t);
    assert_eq!(levels.len(), 3);
    assert_eq!((levels[0].0, levels[1].0, levels[2].0), (4, 2, 1));
    assert_eq!(levels[1].1, vec![2, 0, 0, 0, 4, 0, 0, 0]);
    assert_eq!(levels[2].1, vec![3, 0, 0, 0]);
}

#[test]
fn a_track_path_is_read_from_json() {
    let text = r#"{"points": [[0, 1, 2.5], [3, 4, 5], [6, "x", 7], [8, 9, 10, 11]], "lateral": [1, 0, 0]}"#;
    let p = load_track_path(text).unwrap();
    let c = |x: f64, y: f64, z: f64| Coords { x: x.to_bits(), y: y.to_bits(), z: z.to_bits() };
    assert_eq!(p.points, vec![c(0.0, 1.0, 2.5), c(3.0, 4.0, 5.0), c(8.0, 9.0, 10.0)]);
    assert_eq!(p.lateral, Some(c(1.0, 0.0, 0.0)));
}

#[test]
fn a_track_path_has_three_to_sixty_four_points() {
    let text = |n: usize| format!("{{\"points\": [{}]}}", vec!["[1, 2, 3]"; n].join(","));
    assert!(load_track_path(&text(2)).is_none());
    assert!(load_track_path(&text(3)).unwrap().lateral.is_none());
    assert_eq!(load_track_path(&text(64)).unwrap().points.len(), 64);
    assert!(load_track_path(&text(65)).is_none());
    assert!(load_track_path("{\"points\": 5}").is_none());
    assert!(load_track_path("[]").is_none());
    assert!(load_track_path("not json").is_none());
}

#[test]
fn json_is_taken_apart() {
    match parse_json(r#"{"a": [null, true, -1, "t"]}"#).unwrap() {
        Json::Object(fields) => {
            assert_eq!(fields.len(), 1);
            assert_eq!(fields[0].0, "a");
            match &fields[0].1 {
                Json::List(v) => {
                    assert!(matches!(v[0], Json::Null));
                    assert!(matches!(v[1], Json::Bool(true)));
                    assert!(matches!(v[2], Json::Number(Some(n)) if n == (-1.0f64).to_bits()));
                    assert!(matches!(&v[3], Json::Text(t) if t == "t"));
                },
                _ => panic!("no list"),
            }
        },
        _ => panic!("no object"),
    }
    assert!(parse_json("{").is_none());
    assert!(track_path_from(&Json::Null).is_none());
}

#[test]
fn ordering_is_stable() {
    assert_eq!(order_by_key(&vec![3, 1, 3, 2, 1]), vec![1, 4, 3, 0, 2]);
    assert!(order_by_key(&vec![]).is_empty());
}

#[test]
fn legs_take_the_nearest_free_foot() {
    let far: Vec<Option<u32>> = vec![None; 8];
    let mut a = far.clone();
    a[2] = Some(10);
    a[5] = Some(4);
    let mut b = far.clone();
    b[5] = Some(1);
    b[2] = Some(9);
    assert_eq!(match_feet(&vec![1, 2], &vec![a.clone(), b.clone()]), vec![Some(5), Some(2)]);
    assert_eq!(match_feet(&vec![2, 1], &vec![a, b]), vec![Some(2), Some(5)]);
    assert_eq!(match_feet(&vec![0], &vec![far]), vec![None]);
    let tie = vec![Some(3), Some(3), None, None, None, None, None, None];
    assert_eq!(match_feet(&vec![0], &vec![tie]), vec![Some(0)]);
}

#[test]
fn a_time_falls_between_two_keys() {
    let t = vec![10, 20, 20, 40];
    assert_eq!(key_spot(&vec![], 5), KeySpot::Rest);
    assert_eq!(key_spot(&t, 10), KeySpot::First);
    assert_eq!(key_spot(&t, 40), KeySpot::Last);
    assert_eq!(key_spot(&t, 15), KeySpot::Between(1));
    assert_eq!(key_spot(&t, 20), KeySpot::Between(3));
}
