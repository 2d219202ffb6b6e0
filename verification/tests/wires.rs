use factorio_3d::grid::{Cell, CellSet};
use factorio_3d::hooks::MapPos;
use factorio_3d::mem::{Memory, Region};
use factorio_3d::wires::{
    clear_wires_near, expire_wires, hooked_wire_seg, near_pole, record_wire, tint_of, wire_color,
    wire_color_from, wire_color_in, wire_sprite_strings, Color, SpanUse, WireDraw,
};
use std::collections::HashMap;

fn rgb(r: f32, g: f32, b: f32) -> Color {
    Color { r: r.to_bits(), g: g.to_bits(), b: b.to_bits(), a: 1.0f32.to_bits() }
}

fn copper() -> Color {
    rgb(0.72, 0.45, 0.28)
}

fn green() -> Color {
    rgb(0.25, 0.75, 0.28)
}

fn red() -> Color {
    rgb(0.85, 0.25, 0.22)
}

fn span(x1: i32, y1: i32, x2: i32, y2: i32) -> WireDraw {
    WireDraw {
        from: MapPos { x: x1, y: y1 },
        to: MapPos { x: x2, y: y2 },
        height: 0,
        color: copper(),
        seen: 0,
    }
}

#[test]
fn wires_have_the_colour_of_their_name() {
    assert_eq!(wire_color_in("graphics/copper-wire.png"), Some(copper()));
    assert_eq!(wire_color_in("green-wire"), Some(green()));
    assert_eq!(wire_color_in("red-wire"), Some(red()));
    assert_eq!(wire_color_in("Red-Wire"), None);
    let names = |v: &[&str]| v.iter().map(|s| (0u64, s.to_string())).collect::<Vec<_>>();
    assert_eq!(wire_color_from(&names(&["atlas", "Red-WIRE", "copper-wire"])), Some(red()));
    assert_eq!(wire_color_from(&names(&["atlas"])), None);
}

#[test]
fn poles_lift_the_wires_that_end_around_them() {
    let mut poles = CellSet::new();
    poles.insert(Cell { x: -1, y: 2 });
    assert!(near_pole(&poles, MapPos { x: -1, y: 700 }));
    assert!(near_pole(&poles, MapPos { x: 255, y: 1023 }));
    assert!(!near_pole(&poles, MapPos { x: 256, y: 700 }));
    assert!(!near_pole(&poles, MapPos { x: -1, y: 1024 }));
}

fn put(b: &mut [u8], at: usize, v: u64) {
    b[at..at + 8].copy_from_slice(&v.to_le_bytes());
}

fn name(b: &mut [u8], at: usize, text: &str) {
    b[at..at + text.len()].copy_from_slice(text.as_bytes());
    put(b, at + 0x10, text.len() as u64);
    put(b, at + 0x18, 15);
}

fn memory(base: u64, bytes: Vec<u8>) -> Memory {
    Memory { regions: vec![Region { base, bytes, committed: true, protect: 0x04 }] }
}

#[test]
fn the_name_of_a_sprite_may_stand_behind_a_pointer() {
    let base = 0x10000u64;
    let mut b = vec![0u8; 0x2000];
    put(&mut b, 0x8, base + 0x1000);
    name(&mut b, 0x1040, "GREEN-wire");
    let mem = memory(base, b.clone());
    let found = wire_sprite_strings(&mem, base);
    assert_eq!(found.len(), 1);
    assert_eq!(found[0].1, "GREEN-wire");
    let mut cache = HashMap::new();
    assert_eq!(wire_color(&mut cache, &mem, base), green());
    assert_eq!(wire_color(&mut cache, &memory(0x10, vec![0]), base), green());
    assert_eq!(wire_color(&mut cache, &memory(0x10, vec![0]), 0x99), copper());
    name(&mut b, 0x100, "red-wire");
    let mut fresh = HashMap::new();
    assert_eq!(wire_color(&mut fresh, &memory(base, b), base), red());
    assert!(wire_sprite_strings(&mem, 0).is_empty());
}

#[test]
fn a_tint_that_is_near_white_says_nothing() {
    let t = rgb(0.5, 1.0, 1.0);
    assert_eq!(tint_of(Some(t)), Some(t));
    assert_eq!(tint_of(Some(rgb(0.93, 0.95, 1.0))), None);
    assert_eq!(tint_of(Some(rgb(0.5, 1.1, 1.0))), None);
    assert_eq!(tint_of(Some(rgb(-0.5, 0.5, 0.5))), None);
    assert_eq!(tint_of(Some(rgb(f32::NAN, 0.5, 0.5))), None);
    assert_eq!(tint_of(None), None);
}

#[test]
fn shadows_of_wires_are_dropped() {
    assert_eq!(hooked_wire_seg(true, 1, 1, 0), SpanUse::Plain);
    assert_eq!(hooked_wire_seg(false, 0, 1, 0), SpanUse::Plain);
    assert_eq!(hooked_wire_seg(false, 1, 1, 1), SpanUse::Dropped);
    assert_eq!(hooked_wire_seg(false, 1, 1, 0), SpanUse::Recorded);
}

#[test]
fn a_span_is_known_by_its_ends() {
    let mut w = Vec::new();
    record_wire(&mut w, span(0, 0, 2560, 0), 5);
    record_wire(&mut w, span(7, -7, 2560, 0), 6);
    assert_eq!(w.len(), 1);
    assert_eq!((w[0].seen, w[0].from.x), (6, 7));
    record_wire(&mut w, span(8, 0, 2560, 0), 7);
    record_wire(&mut w, WireDraw { color: red(), ..span(0, 0, 2560, 0) }, 7);
    assert_eq!(w.len(), 3);
    for i in 0..5000 {
        record_wire(&mut w, span(i * 16, 9999, 0, 0), 8);
    }
    assert_eq!(w.len(), 4096);
}

#[test]
fn spans_near_a_place_are_cleared() {
    let mut w = vec![span(0, 255, 9999, 0), span(0, 256, 9999, 0), span(9999, 0, 181, 181)];
    clear_wires_near(&mut w, MapPos { x: 0, y: 0 });
    assert_eq!(w, vec![span(0, 256, 9999, 0)]);
    let mut far = vec![span(i32::MIN, i32::MIN, i32::MAX, i32::MAX)];
    clear_wires_near(&mut far, MapPos { x: 0, y: i32::MAX });
    assert_eq!(far.len(), 1);
}

#[test]
fn spans_in_the_open_expire() {
    let mut cells = CellSet::new();
    cells.insert(Cell { x: 0, y: 0 });
    cells.insert(Cell { x: 10, y: 0 });
    let anchored = span(300, -200, 2900, 100);
    let open = WireDraw { seen: 15, ..span(0, 0, 4000, 0) };
    let mut w = vec![anchored, open];
    expire_wires(&mut w, &cells, 34, 20);
    assert_eq!(w.len(), 2);
    expire_wires(&mut w, &cells, 35, 20);
    assert_eq!(w, vec![anchored]);
}
