use factorio_3d::models::{
    alias, all_ready, belt_corner_key, belt_tier, biter_model, build_registry, chest_tier,
    file_exists, footprint, get, init, inserter_tier, is_player_key, is_spider_key,
    knows_variant, optional_key, pick_parts, player_key, ready_duration, resolve, resolve_item, tier_file,
    ConnKind, Disk, EntityModel, Folder, LoadedModel, YawSource,
};
use factorio_3d::namemap::NameMap;
use factorio_3d::text::{
    contains, ends_with, join2, position, replace, sorted_names, starts_with, str_eq, str_le,
    strip_prefix, substring,
};

fn folder(path: &str, entries: &[&str]) -> Folder {
    Folder {
        path: path.to_string(),
        entries: entries.iter().map(|e| e.to_string()).collect(),
    }
}

fn strings(v: &[&str]) -> Vec<String> {
    v.iter().map(|s| s.to_string()).collect()
}

fn keys(m: &EntityModel) -> Vec<&str> {
    m.parts.iter().map(|p| p.key.as_str()).collect()
}

fn tree() -> Vec<Folder> {
    vec![
        folder("ENTITIES/STRUCTURES/lab", &["static.glb", "animated1.glb", "static2.glb"]),
        folder("ENTITIES/STRUCTURES/belts/fast", &["belt-I.glb"]),
        folder("ENTITIES/STRUCTURES/belts", &["belt-I.glb", "belt-L.glb"]),
        folder("ENTITIES/STRUCTURES/assembling-machine/2", &["static.glb", "animated1.glb"]),
        folder("ENTITIES/STRUCTURES/radar", &["static1.glb", "static2.glb"]),
        folder("ENTITIES/STRUCTURES/stone-wall", &["static.glb"]),
        folder("ENTITIES/STRUCTURES/empty", &["readme.txt"]),
        folder("ENTITIES/VEHICLES/tank", &["static.glb"]),
        folder("ENTITIES/VEHICLES/lab", &["other.glb"]),
        folder("ENTITIES/RESOURCES/coal-ore", &["static.glb"]),
        folder("ENTITIES/ITEMS/coal", &["coal.glb"]),
    ]
}

fn disk() -> Disk {
    Disk { folders: tree(), ignores_case: false }
}

#[test]
fn the_parts_of_a_folder() {
    assert_eq!(
        pick_parts(&strings(&["static2.glb", "animated1.glb", "static.glb", "notes.txt"])),
        strings(&["static.glb", "animated1.glb"])
    );
    assert_eq!(
        pick_parts(&strings(&["static2.glb", "static1.glb"])),
        strings(&["static1.glb", "static2.glb"])
    );
    assert_eq!(pick_parts(&strings(&["b.glb", "a.glb"])), strings(&["a.glb"]));
    assert!(pick_parts(&strings(&["a.png"])).is_empty());
}

#[test]
fn names_and_their_tiers() {
    assert_eq!(footprint("lab"), 3000);
    assert_eq!(footprint("rocket-silo"), 9000);
    assert_eq!(footprint("oil-refinery"), 5000);
    assert_eq!(footprint("roboport"), 4000);
    assert_eq!(footprint("car"), 2000);
    assert_eq!(footprint("locomotive"), 6000);
    assert_eq!(footprint("wooden-chest"), 1000);
    assert_eq!(alias("coal"), Some("coal-ore"));
    assert_eq!(alias("stone"), None);
    assert_eq!(belt_tier("fast-transport-belt", "transport-belt"), Some("fast"));
    assert_eq!(belt_tier("transport-belt", "transport-belt"), None);
    assert_eq!(inserter_tier("inserter"), Some(None));
    assert_eq!(inserter_tier("bulk-inserter"), Some(Some("bulk")));
    assert_eq!(inserter_tier("lab"), None);
    assert_eq!(chest_tier("storage-chest"), Some("storage"));
    assert_eq!(chest_tier("wooden-chest"), None);
    assert_eq!(biter_model("big-biter"), Some(("ENTITIES/ENEMIES/biters/biter_tier3.glb", 2760)));
    assert_eq!(biter_model("small-spitter"), None);
    assert_eq!(player_key(1), "ENTITIES/PLAYER/running.glb");
    assert_eq!(player_key(200), "ENTITIES/PLAYER/mining.glb");
    assert!(is_player_key("ENTITIES/PLAYER/idle.glb"));
    assert!(!is_player_key("ENTITIES/VEHICLES/tank/static.glb"));
    assert!(is_spider_key("ENTITIES/VEHICLES/spidertron/static.glb"));
    assert_eq!(belt_corner_key("a/belt-I.glb"), "a/belt-L.glb");
}

#[test]
fn a_tier_without_its_own_file_uses_the_plain_one() {
    let t = disk();
    assert!(file_exists(&t, "ENTITIES/STRUCTURES/belts/fast/belt-I.glb"));
    assert!(!file_exists(&t, "ENTITIES/STRUCTURES/belts/turbo/belt-I.glb"));
    assert_eq!(
        tier_file(&t, "belts", Some("fast"), "belt-I.glb"),
        "ENTITIES/STRUCTURES/belts/fast/belt-I.glb"
    );
    assert_eq!(
        tier_file(&t, "belts", Some("turbo"), "belt-I.glb"),
        "ENTITIES/STRUCTURES/belts/belt-I.glb"
    );
    assert_eq!(tier_file(&t, "belts", None, "belt-I.glb"), "ENTITIES/STRUCTURES/belts/belt-I.glb");
}

#[test]
fn entities_resolve_to_their_models() {
    let mut reg = build_registry(tree());
    let lab = resolve(&mut reg, &disk(), "lab").unwrap();
    assert_eq!(
        keys(&lab),
        ["ENTITIES/STRUCTURES/lab/static.glb", "ENTITIES/STRUCTURES/lab/animated1.glb"]
    );
    assert_eq!((lab.tiles, lab.kind), (3000, ConnKind::Plain));
    let belt = resolve(&mut reg, &disk(), "fast-transport-belt").unwrap();
    assert_eq!(keys(&belt), ["ENTITIES/STRUCTURES/belts/fast/belt-I.glb"]);
    assert_eq!(belt.kind, ConnKind::Belt);
    let wall = resolve(&mut reg, &disk(), "stone-wall").unwrap();
    assert_eq!(wall.kind, ConnKind::Wall);
    let press = resolve(&mut reg, &disk(), "assembling-machine-2").unwrap();
    assert_eq!(keys(&press)[1], "ENTITIES/STRUCTURES/assembling-machine/2/animated1.glb");
    let radar = resolve(&mut reg, &disk(), "radar").unwrap();
    assert_eq!(radar.parts[1].yaw, YawSource::Spin);
    let ore = resolve(&mut reg, &disk(), "coal").unwrap();
    assert_eq!(keys(&ore), ["ENTITIES/RESOURCES/coal-ore/static.glb"]);
    let tank = resolve(&mut reg, &disk(), "tank-3").unwrap();
    assert_eq!(keys(&tank), ["ENTITIES/VEHICLES/tank/static.glb"]);
    let rock = resolve(&mut reg, &disk(), "huge-rock").unwrap();
    assert_eq!(rock.tiles, 2600);
    assert!(resolve(&mut reg, &disk(), "empty").is_none());
    assert!(resolve(&mut reg, &disk(), "rocket").is_none());
    let again = resolve(&mut reg, &disk(), "lab").unwrap();
    assert_eq!(keys(&again), keys(&lab));
}

#[test]
fn a_tree_keeps_its_shape() {
    let mut reg = build_registry(vec![]);
    let a = resolve(&mut reg, &disk(), "tree-01").unwrap();
    let b = resolve(&mut reg, &disk(), "tree-01").unwrap();
    assert_eq!(keys(&a), keys(&b));
    assert_eq!(a.tiles, 1500);
    let h = "tree-01".bytes().fold(0u32, |h, b| h.wrapping_mul(31).wrapping_add(b as u32));
    assert_eq!(keys(&a)[0], format!("ENTITIES/FOLIAGE/tree{}/static.glb", 1 + h % 5));
}

#[test]
fn items_have_their_own_models_or_their_entity_s() {
    let mut reg = build_registry(tree());
    assert_eq!(resolve_item(&mut reg, &disk(), "coal"), Some("ENTITIES/ITEMS/coal/coal.glb".to_string()));
    assert_eq!(
        resolve_item(&mut reg, &disk(), "lab"),
        Some("ENTITIES/STRUCTURES/lab/static.glb".to_string())
    );
    assert_eq!(resolve_item(&mut reg, &disk(), "science-pack"), None);
}

#[test]
fn a_model_is_requested_once() {
    let mut reg = build_registry(vec![]);
    assert!(get(&mut reg, "a.glb").is_none());
    assert!(get(&mut reg, "a.glb").is_none());
    assert!(ready_duration(&mut reg, "b.glb").is_none());
    assert_eq!(reg.take_queue(), strings(&["a.glb", "b.glb"]));
    assert!(reg.take_queue().is_empty());
    reg.finish_load("a.glb", Some(LoadedModel { handle: 7, duration_bits: 3 }));
    reg.finish_load("b.glb", None);
    assert_eq!(get(&mut reg, "a.glb").unwrap().handle, 7);
    assert_eq!(ready_duration(&mut reg, "a.glb"), Some(3));
    assert!(get(&mut reg, "b.glb").is_none());
    assert!(reg.take_queue().is_empty());
}

#[test]
fn a_model_is_ready_with_all_its_parts() {
    let mut reg = build_registry(tree());
    let lab = resolve(&mut reg, &disk(), "lab").unwrap();
    assert!(!all_ready(&mut reg, &lab));
    assert_eq!(reg.take_queue(), strings(&["ENTITIES/STRUCTURES/lab/static.glb"]));
    for key in keys(&lab) {
        reg.finish_load(key, Some(LoadedModel { handle: 1, duration_bits: 0 }));
    }
    assert!(all_ready(&mut reg, &lab));
}

#[test]
fn a_character_asks_for_all_its_poses() {
    let mut reg = build_registry(vec![]);
    let m = resolve(&mut reg, &disk(), "character").unwrap();
    assert_eq!(keys(&m), ["ENTITIES/PLAYER/idle.glb"]);
    assert_eq!(reg.take_queue().len(), 5);
}

#[test]
fn belts_on_disk_are_loaded_from_the_start() {
    let mut reg = init(tree(), &disk());
    let queue = reg.take_queue();
    assert_eq!(
        queue,
        strings(&[
            "ENTITIES/STRUCTURES/belts/belt-I.glb",
            "ENTITIES/STRUCTURES/belts/belt-L.glb",
            "ENTITIES/STRUCTURES/stone-wall/static.glb",
            "ENTITIES/STRUCTURES/belts/fast/belt-I.glb",
        ])
    );
    assert_eq!(
        optional_key(&mut reg, &disk(), "ENTITIES/VEHICLES/tank/static.glb"),
        Some("ENTITIES/VEHICLES/tank/static.glb".to_string())
    );
    assert_eq!(optional_key(&mut reg, &disk(), "ENTITIES/VEHICLES/car/static.glb"), None);
}

#[test]
fn a_variant_keeps_the_first_answer() {
    let mut reg = build_registry(tree());
    let (tank, car) = ("ENTITIES/VEHICLES/tank/static.glb", "ENTITIES/VEHICLES/car/static.glb");
    assert!(!knows_variant(&reg, tank));
    assert_eq!(optional_key(&mut reg, &disk(), tank), Some(tank.to_string()));
    assert!(knows_variant(&reg, tank));
    assert_eq!(optional_key(&mut reg, &Disk::empty(), tank), Some(tank.to_string()));
    assert_eq!(optional_key(&mut reg, &Disk::empty(), car), None);
    let mut later = disk();
    later.folders.push(folder("ENTITIES/VEHICLES/car", &["static.glb"]));
    assert_eq!(optional_key(&mut reg, &later, car), None);
    let mut fresh = build_registry(tree());
    assert_eq!(optional_key(&mut fresh, &later, car), Some(car.to_string()));
}

#[test]
fn the_disk_is_asked_when_a_model_is_first_resolved() {
    let mut reg = build_registry(tree());
    let turbo = "ENTITIES/STRUCTURES/belts/turbo/belt-I.glb";
    let mut later = disk();
    later.folders.push(folder("ENTITIES/STRUCTURES/belts/turbo", &["belt-I.glb"]));
    let belt = resolve(&mut reg, &later, "turbo-transport-belt").unwrap();
    assert_eq!(keys(&belt), [turbo]);
    let again = resolve(&mut reg, &Disk::empty(), "turbo-transport-belt").unwrap();
    assert_eq!(keys(&again), [turbo]);
    let mut other = build_registry(tree());
    let plain = resolve(&mut other, &disk(), "turbo-transport-belt").unwrap();
    assert_eq!(keys(&plain), ["ENTITIES/STRUCTURES/belts/belt-I.glb"]);
    let again = resolve(&mut other, &later, "turbo-transport-belt").unwrap();
    assert_eq!(keys(&again), keys(&plain));
}

#[test]
fn a_disk_may_ignore_case() {
    let mut d = disk();
    assert!(!file_exists(&d, "entities/vehicles/Tank/STATIC.glb"));
    d.ignores_case = true;
    assert!(file_exists(&d, "entities/vehicles/Tank/STATIC.glb"));
    assert!(file_exists(&d, "ENTITIES/VEHICLES/tank/static.glb"));
    assert!(!file_exists(&d, "ENTITIES/VEHICLES/tanks/static.glb"));
    let mut reg = build_registry(vec![]);
    let rel = "ENTITIES/Vehicles/tank/static.GLB";
    assert_eq!(optional_key(&mut reg, &d, rel), Some(rel.to_string()));
}

#[test]
fn text_helpers() {
    assert!(str_eq("a", "a"));
    assert!(!str_eq("a", "ab"));
    assert!(starts_with("belt-I", "belt"));
    assert!(!starts_with("be", "belt"));
    assert!(ends_with("a.glb", ".glb"));
    assert!(contains("xaby", "ab"));
    assert!(contains("x", ""));
    assert!(!contains("", "x"));
    assert!(str_le("ab", "abc"));
    assert!(str_le("B", "a"));
    assert!(!str_le("b", "a"));
    assert_eq!(sorted_names(&strings(&["b", "a", "ab", "a"])), strings(&["a", "a", "ab", "b"]));
    assert_eq!(substring("hello", 1, 3), "el");
    assert_eq!(strip_prefix("belt-I", "belt-"), Some("I".to_string()));
    assert_eq!(strip_prefix("belt", "belt-"), None);
    assert_eq!(join2("a", "b"), "ab");
    assert_eq!(position(&strings(&["x", "y", "y"]), "y"), Some(1));
    assert_eq!(position(&strings(&["x"]), "y"), None);
    assert_eq!(replace("aXbXX", "X", "-+"), "a-+b-+-+");
    assert_eq!(replace("aaa", "aa", "b"), "ba");
}

#[test]
fn a_name_map_keeps_the_first_place_of_a_name() {
    let mut m: NameMap<u32> = NameMap::new();
    m.insert("a".to_string(), 1);
    m.insert("b".to_string(), 2);
    m.insert("a".to_string(), 3);
    assert_eq!(m.len(), 2);
    assert_eq!(m.key_at(0), "a");
    assert_eq!(*m.value_at(0), 3);
    assert_eq!(m.get("b"), Some(&2));
    assert_eq!(m.get("c"), None);
    assert!(m.contains("a"));
}
