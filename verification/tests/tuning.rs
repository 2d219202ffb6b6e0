use factorio_3d::split::{is_white, split, split_once, trim};
use factorio_3d::tuning::{
    apply_lines, init, model_tweaks, parse_file, parse_line, poll, set_knob, template,
    tweak_memo, LineKind, NumLine, TweakCache, Tweak,
};
use std::collections::HashMap;

const NAMES: [&str; 3] = ["BELT_I_YAW", "PIPE_LIFT", "NIGHT"];

fn names() -> Vec<&'static str> {
    NAMES.to_vec()
}

fn num(kind: LineKind, name: &str, nums: &[f32]) -> NumLine {
    NumLine {
        kind,
        name: name.to_string(),
        nums: nums.iter().map(|n| n.to_bits()).collect(),
    }
}

#[test]
fn white_space_is_trimmed() {
    assert_eq!(trim(" \t a b \r\n"), "a b");
    assert_eq!(trim("\u{3000}x\u{00A0}"), "x");
    assert_eq!(trim("   "), "");
    assert_eq!(trim(""), "");
    for c in (0..0x11_0000u32).filter_map(char::from_u32) {
        assert_eq!(is_white(c), c.is_whitespace());
    }
}

#[test]
fn texts_are_split() {
    assert_eq!(split("a,,b", ','), vec!["a", "", "b"]);
    assert_eq!(split("", ','), vec![""]);
    assert_eq!(split("a,", ','), vec!["a", ""]);
    assert_eq!(split_once("a=b=c", '='), Some(("a".to_string(), "b=c".to_string())));
    assert_eq!(split_once("abc", '='), None);
}

#[test]
fn comments_and_empty_lines_say_nothing() {
    assert!(parse_line("  # night=1").is_none());
    assert!(parse_line("   ").is_none());
    assert!(parse_line("night 1").is_none());
    assert!(parse_line("night=1").is_some());
}

#[test]
fn lines_are_told_apart_by_their_prefix() {
    let l = parse_line(" off: oil-refinery = 0.5, -0.5 ,0.2 ").unwrap();
    assert_eq!((l.kind, l.name.as_str()), (LineKind::Offset, "oil-refinery"));
    assert_eq!(l.values, vec!["0.5", "-0.5", "0.2"]);
    let l = parse_line("copy:centrifuge/animated1=1,2,3,90").unwrap();
    assert_eq!((l.kind, l.name.as_str(), l.values.len()), (LineKind::Extra, "centrifuge/animated1", 4));
    let l = parse_line("yaw:lab=180").unwrap();
    assert_eq!((l.kind, l.name.as_str(), l.values), (LineKind::Value, "yaw:lab", vec!["180".to_string()]));
    let all = parse_file("# x\nnight=1\r\n\nbelt_i_yaw = 5 = 6\n");
    assert_eq!(all.len(), 2);
    assert_eq!(all[0].values, vec!["1"]);
    assert_eq!((all[1].name.as_str(), all[1].values[0].as_str()), ("belt_i_yaw", "5 = 6"));
}

#[test]
fn settings_are_set_by_name() {
    let mut t = init(vec![0, 0, 0]);
    let lines = vec![
        num(LineKind::Value, "belt_i_yaw", &[90.0]),
        num(LineKind::Value, "Night", &[]),
        num(LineKind::Value, "unknown", &[3.0]),
        num(LineKind::Value, "NIGHT", &[0.5]),
    ];
    apply_lines(&mut t, &names(), &lines);
    assert_eq!(t.knobs, vec![90.0f32.to_bits(), 0, 0.5f32.to_bits()]);
    assert_eq!(t.generation, 0);
    set_knob(&mut t.knobs, &names(), "PIPE_LIFT", 7);
    set_knob(&mut t.knobs, &names(), "pipe_lift", 8);
    assert_eq!(t.knobs[1], 7);
}

#[test]
fn models_have_settings_of_their_own() {
    let mut t = init(vec![0; 3]);
    let lines = || {
        vec![
            num(LineKind::Value, "yaw: refinery ", &[180.0]),
            num(LineKind::Value, "yaw:oil", &[1.0]),
            num(LineKind::Offset, "lab", &[1.0, 2.0, 3.0]),
            num(LineKind::Offset, "lab", &[1.0, 2.0]),
            num(LineKind::Extra, "lab", &[1.0, 2.0, 3.0]),
            num(LineKind::Extra, "lab", &[1.0, 2.0, 3.0, 4.0]),
            num(LineKind::Extra, "lab", &[1.0]),
        ]
    };
    apply_lines(&mut t, &names(), &lines());
    assert_eq!((t.tweaks.yaws.len(), t.tweaks.offsets.len(), t.tweaks.copies.len()), (2, 1, 2));
    assert_eq!(t.tweaks.copies[0].nums[3], 0);
    assert_eq!(t.generation, 1);
    apply_lines(&mut t, &names(), &lines());
    assert_eq!(t.generation, 1);
    apply_lines(&mut t, &names(), &Vec::new());
    assert_eq!((t.generation, t.tweaks.yaws.len()), (2, 0));
    let list = vec![
        Tweak { name: "refinery".to_string(), nums: vec![1] },
        Tweak { name: "lab".to_string(), nums: vec![2] },
        Tweak { name: "oil".to_string(), nums: vec![3] },
    ];
    assert_eq!(model_tweaks(&list, "oil-refinery/a.glb"), vec![vec![1], vec![3]]);
}

#[test]
fn a_number_that_is_none_counts_as_a_change() {
    let mut t = init(vec![0; 3]);
    let nan = || vec![num(LineKind::Value, "yaw:a", &[f32::NAN])];
    apply_lines(&mut t, &names(), &nan());
    apply_lines(&mut t, &names(), &nan());
    assert_eq!(t.generation, 2);
    let zero = |z: f32| vec![num(LineKind::Value, "yaw:a", &[z])];
    apply_lines(&mut t, &names(), &zero(0.0));
    apply_lines(&mut t, &names(), &zero(-0.0));
    assert_eq!(t.generation, 3);
}

#[test]
fn the_file_is_read_now_and_then() {
    let mut t = init(vec![0; 3]);
    assert!(poll(&mut t, u64::MAX));
    assert_eq!(t.last_poll, 0);
    assert!(!poll(&mut t, 59));
    assert!(poll(&mut t, 60));
    assert!(!poll(&mut t, 119));
    assert!(!poll(&mut t, 10));
    assert!(poll(&mut t, 120));
}

#[test]
fn what_was_worked_out_is_kept_until_the_settings_change() {
    let mut c: TweakCache<u32> = TweakCache { generation: 0, known: HashMap::new() };
    assert_eq!(tweak_memo(&mut c, 0, 5, || 1), 1);
    assert_eq!(tweak_memo(&mut c, 0, 5, || 2), 1);
    assert_eq!(tweak_memo(&mut c, 1, 5, || 3), 3);
    assert_eq!(c.known.len(), 1);
}

#[test]
fn a_new_file_is_written_once() {
    let mut t = init(vec![0; 3]);
    let defaults = vec!["0".to_string(), "0.55".to_string(), "-1".to_string()];
    let text = template(&mut t, &names(), &defaults).unwrap();
    assert_eq!(
        text,
        "# live yaw tuning (degrees), re-read every second\n\
         # per-model override: yaw:oil-refinery=180 (substring match)\n\
         # per-model offset: off:oil-refinery=dx,dy,dz (tiles)\n\
         # extra part placement: copy:centrifuge/animated1=dx,dy,dz[,yawdeg]\n\
         belt_i_yaw=0\npipe_lift=0.55\nnight=-1\n"
    );
    assert!(template(&mut t, &names(), &defaults).is_none());
    assert_eq!(parse_file(&text).len(), 3);
}
