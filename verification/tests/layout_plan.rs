use icontool::dmi::{DreamMakerIconMetadata, IconState};
use icontool::error::IconError;
use icontool::layout::{frame_slot, frame_slots_for, plan_layout, CanvasPlan, FrameSlot};

fn simple_state(name: &str, dirs: u32, frames: u32) -> IconState {
    IconState {
        name: String::from(name),
        dirs,
        frames,
        delay: None,
        hotspot: None,
        loop_flag: None,
        movement_flag: None,
        rewind_flag: None,
    }
}

#[test]
fn test_plan_layout_no_growth() {
    // four frames needed, five available: the declared size stands
    let states = vec![simple_state("idle", 4, 1)];
    let plan = plan_layout(&states, 32, 32, 160, 32, 6144, 6144).unwrap();
    assert_eq!(CanvasPlan { width: 160, height: 32, frame_width: 32, frame_height: 32 }, plan);
    for (i, expected_x) in [0u32, 32, 64, 96].iter().enumerate() {
        let slot = frame_slot(&plan, i as u64);
        assert_eq!(FrameSlot { x: *expected_x, y: 0 }, slot);
    }
}

#[test]
fn test_plan_layout_equality_triggers_growth() {
    // four frames needed, exactly four available: still grows
    let states = vec![simple_state("idle", 4, 1)];
    let plan = plan_layout(&states, 32, 32, 128, 32, 6144, 6144).unwrap();
    // side = isqrt(32*32*4) = 64, three frames per row, two rows
    assert_eq!(CanvasPlan { width: 96, height: 64, frame_width: 32, frame_height: 32 }, plan);
    let capacity = (plan.width / plan.frame_width) * (plan.height / plan.frame_height);
    assert!(capacity > 4);
}

#[test]
fn test_plan_layout_small_canvas_grows_within_bounds() {
    // room for one frame, need four: grows, stays under the maximum
    let states = vec![simple_state("idle", 4, 1)];
    let plan = plan_layout(&states, 32, 32, 32, 32, 6144, 6144).unwrap();
    assert_eq!(CanvasPlan { width: 96, height: 64, frame_width: 32, frame_height: 32 }, plan);
    assert!(plan.width <= 6144 && plan.height <= 6144);
    let capacity = (plan.width / plan.frame_width) * (plan.height / plan.frame_height);
    assert!(capacity > 4);
}

#[test]
fn test_plan_layout_deterministic() {
    let states = vec![simple_state("idle", 4, 3), simple_state("walk", 8, 2)];
    let first = plan_layout(&states, 32, 32, 64, 64, 6144, 6144).unwrap();
    let second = plan_layout(&states, 32, 32, 64, 64, 6144, 6144).unwrap();
    assert_eq!(first, second);
}

#[test]
fn test_plan_layout_too_large() {
    let states = vec![simple_state("idle", 100, 100)];
    match plan_layout(&states, 32, 32, 32, 32, 64, 64) {
        Err(IconError::CanvasTooLarge(_, _)) => {}
        _ => panic!("expected the canvas to exceed the configured maximum"),
    }
}

#[test]
fn test_frame_slots_per_state_counts() {
    let states = vec![simple_state("idle", 4, 1), simple_state("walk", 2, 3)];
    let dmi = DreamMakerIconMetadata {
        version_major: 4,
        version_minor: 0,
        width: 32,
        height: 32,
        states,
    };
    let plan = plan_layout(&dmi.states, 32, 32, 64, 64, 6144, 6144).unwrap();
    let idle_slots = frame_slots_for(&plan, &dmi, 0);
    let walk_slots = frame_slots_for(&plan, &dmi, 1);
    assert_eq!(4, idle_slots.len());
    assert_eq!(6, walk_slots.len());
    // the walk slots continue exactly where the idle slots stopped
    let next = frame_slot(&plan, 4);
    assert_eq!(next, walk_slots[0]);
}

#[test]
fn test_slot_walk_wraps_rows() {
    let plan = CanvasPlan { width: 96, height: 64, frame_width: 32, frame_height: 32 };
    assert_eq!(FrameSlot { x: 0, y: 0 }, frame_slot(&plan, 0));
    assert_eq!(FrameSlot { x: 32, y: 0 }, frame_slot(&plan, 1));
    assert_eq!(FrameSlot { x: 64, y: 0 }, frame_slot(&plan, 2));
    assert_eq!(FrameSlot { x: 0, y: 32 }, frame_slot(&plan, 3));
    assert_eq!(FrameSlot { x: 32, y: 32 }, frame_slot(&plan, 4));
}
