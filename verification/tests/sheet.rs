use icontool::canvas::Canvas;
use icontool::codec::encode_frame;
use icontool::compile::{paint_frames, unused_icon_states};
use icontool::decompile::{decompile_icon, extract_icon_states};
use icontool::dmi::{DreamMakerIconMetadata, IconState};
use icontool::error::IconError;
use icontool::layout::plan_layout;

fn simple_state(name: &str, dirs: u32, frames: u32) -> IconState {
    IconState {
        name: String::from(name),
        dirs,
        frames,
        delay: None,
        hotspot: None,
        loop_flag: None,
        movement_flag: None,
        rewind_flag: None,
    }
}

fn frame_pattern(seed: u8, len: usize) -> Vec<u8> {
    let mut v = Vec::with_capacity(len);
    for i in 0..len {
        v.push(seed.wrapping_add((i % 13) as u8));
    }
    v
}

#[test]
fn test_pack_then_unpack_round_trip() {
    let dmi = DreamMakerIconMetadata {
        version_major: 4,
        version_minor: 0,
        width: 4,
        height: 4,
        states: vec![simple_state("idle", 2, 1), simple_state("walk", 1, 3)],
    };
    let plan = plan_layout(&dmi.states, 4, 4, 16, 8, 6144, 6144).unwrap();
    let mut canvas = Canvas::new(plan.width, plan.height);
    let frame_len = 4 * 4 * 4;
    let idle_frames =
        vec![frame_pattern(1, frame_len), frame_pattern(2, frame_len)];
    let walk_frames = vec![
        frame_pattern(3, frame_len),
        frame_pattern(4, frame_len),
        frame_pattern(5, frame_len),
    ];
    let idle_value = idle_frames
        .iter()
        .map(|f| encode_frame(f))
        .collect::<Vec<_>>()
        .join("\n");
    let walk_value = walk_frames
        .iter()
        .map(|f| encode_frame(f))
        .collect::<Vec<_>>()
        .join("\n");
    let values = vec![idle_value.clone(), walk_value.clone()];
    paint_frames(&dmi, &values, &plan, &mut canvas).unwrap();

    let unpacked = extract_icon_states(&canvas, &dmi, &plan);
    assert_eq!(2, unpacked.len());
    assert_eq!("idle", unpacked[0].key);
    assert_eq!("walk", unpacked[1].key);
    assert_eq!(idle_value, unpacked[0].value);
    assert_eq!(walk_value, unpacked[1].value);
}

#[test]
fn test_frame_count_mismatch_named() {
    let dmi = DreamMakerIconMetadata {
        version_major: 4,
        version_minor: 0,
        width: 4,
        height: 4,
        states: vec![simple_state("idle", 4, 1)],
    };
    let plan = plan_layout(&dmi.states, 4, 4, 32, 8, 6144, 6144).unwrap();
    let mut canvas = Canvas::new(plan.width, plan.height);
    let frame_len = 4 * 4 * 4;
    // three newline-joined frames while the metadata declares four
    let value = (0..3)
        .map(|i| encode_frame(&frame_pattern(i as u8, frame_len)))
        .collect::<Vec<_>>()
        .join("\n");
    match paint_frames(&dmi, &vec![value], &plan, &mut canvas) {
        Err(IconError::FrameCountMismatch(name, expected, actual)) => {
            assert_eq!("idle", name);
            assert_eq!(4, expected);
            assert_eq!(3, actual);
        }
        _ => panic!("expected a named frame-count mismatch"),
    }
}

#[test]
fn test_corrupt_frame_leaves_canvas_untouched() {
    let dmi = DreamMakerIconMetadata {
        version_major: 4,
        version_minor: 0,
        width: 4,
        height: 4,
        states: vec![simple_state("idle", 1, 1)],
    };
    let plan = plan_layout(&dmi.states, 4, 4, 16, 8, 6144, 6144).unwrap();
    let mut canvas = Canvas::new(plan.width, plan.height);
    let before = canvas.bytes().clone();
    match paint_frames(&dmi, &vec![String::from("not base64 !!!")], &plan, &mut canvas) {
        Err(IconError::FrameCorrupt(_)) => {}
        _ => panic!("expected a corrupt-frame failure"),
    }
    assert_eq!(before, *canvas.bytes());
}

#[test]
fn test_decompile_icon_layout_of_entries() {
    let dmi = DreamMakerIconMetadata {
        version_major: 4,
        version_minor: 0,
        width: 4,
        height: 4,
        states: vec![simple_state("idle", 1, 1)],
    };
    let plan = plan_layout(&dmi.states, 4, 4, 16, 8, 6144, 6144).unwrap();
    let canvas = Canvas::new(plan.width, plan.height);
    let entries = decompile_icon("icons/a.dmi", &canvas, "metadata text", &dmi, &plan);
    assert_eq!(5, entries.len());
    assert_eq!("__dmi_path", entries[0].0);
    assert_eq!("__image_width", entries[1].0);
    assert_eq!("__image_height", entries[2].0);
    assert_eq!("idle", entries[3].0);
    assert_eq!("__dmi_metadata", entries[4].0);
}

#[test]
fn test_unused_icon_states_filters() {
    let dmi = DreamMakerIconMetadata {
        version_major: 4,
        version_minor: 0,
        width: 32,
        height: 32,
        states: vec![simple_state("idle", 1, 1)],
    };
    let keys = vec![
        String::from("__dmi_metadata"),
        String::from("idle"),
        String::from("ghost"),
        String::from("__image_width"),
        String::from("zombie"),
    ];
    let unused = unused_icon_states(&keys, &dmi);
    assert_eq!(vec![String::from("ghost"), String::from("zombie")], unused);
}

#[test]
fn test_canvas_new_is_transparent() {
    let canvas = Canvas::new(8, 4);
    assert_eq!(8 * 4 * 4, canvas.bytes().len());
    assert!(canvas.bytes().iter().all(|b| *b == 0));
}

#[test]
fn test_canvas_from_bytes_checks_size() {
    assert!(Canvas::from_bytes(2, 2, vec![0; 16]).is_some());
    assert!(Canvas::from_bytes(2, 2, vec![0; 15]).is_none());
}
