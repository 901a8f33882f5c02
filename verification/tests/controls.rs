use gravity::controls::{Button, Command, Controls, FrameCounter, Key};

#[test]
fn new_controls() {
    let c = Controls::new(3);
    assert!(!c.is_paused);
    assert_eq!(c.steps_per_frame, 3);
    assert!(!c.is_left_clicked);
    assert!(!c.is_right_clicked);
}

#[test]
fn space_toggles_pause() {
    let mut c = Controls::new(1);
    assert_eq!(c.handle_key(Key::Space, false), Command::Nothing);
    assert!(c.is_paused);
    assert_eq!(c.steps_this_frame(), 0);
    c.handle_key(Key::Space, true);
    assert!(!c.is_paused);
    assert_eq!(c.steps_this_frame(), 1);
}

#[test]
fn reset_sets_one_step() {
    let mut c = Controls::new(40);
    assert_eq!(c.handle_key(Key::R, false), Command::ResetCamera);
    assert_eq!(c.steps_per_frame, 1);
}

#[test]
fn commands_of_keys() {
    let mut c = Controls::new(2);
    assert_eq!(c.handle_key(Key::Q, false), Command::Exit);
    assert_eq!(c.handle_key(Key::I, false), Command::ZoomIn);
    assert_eq!(c.handle_key(Key::O, true), Command::ZoomOut);
    assert_eq!(c.handle_key(Key::Other, true), Command::Nothing);
    assert_eq!(c, Controls::new(2));
}

#[test]
fn brackets_change_speed() {
    let mut c = Controls::new(1);
    c.handle_key(Key::BracketRight, false);
    assert_eq!(c.steps_per_frame, 2);
    c.handle_key(Key::BracketRight, true);
    assert_eq!(c.steps_per_frame, 12);
    c.handle_key(Key::BracketLeft, true);
    assert_eq!(c.steps_per_frame, 2);
    c.handle_key(Key::BracketLeft, true);
    assert_eq!(c.steps_per_frame, 1);
    c.handle_key(Key::BracketLeft, false);
    assert_eq!(c.steps_per_frame, 1);
}

#[test]
fn speed_up_then_down_restores() {
    for start in 1..30usize {
        for shift in [false, true] {
            let mut c = Controls::new(start);
            c.handle_key(Key::BracketRight, shift);
            c.handle_key(Key::BracketLeft, shift);
            assert_eq!(c.steps_per_frame, start);
        }
    }
}

#[test]
fn zero_steps_slow_down_to_one() {
    let mut c = Controls::new(0);
    c.handle_key(Key::BracketLeft, false);
    assert_eq!(c.steps_per_frame, 1);
}

#[test]
fn mouse_buttons_are_tracked() {
    let mut c = Controls::new(1);
    c.handle_mouse_button(Button::Left, true);
    assert!(c.is_left_clicked && !c.is_right_clicked);
    c.handle_mouse_button(Button::Right, true);
    assert!(c.is_right_clicked);
    c.handle_mouse_button(Button::Left, false);
    assert!(!c.is_left_clicked);
    c.handle_mouse_button(Button::Other, false);
    assert!(c.is_right_clicked);
}

#[test]
fn frame_counter_reports_once_a_second() {
    let mut c = FrameCounter::new();
    assert_eq!(c.on_frame(0), None);
    assert_eq!(c.on_frame(0), None);
    assert_eq!(c.on_frame(1), Some(3));
    assert_eq!(c.frames, 0);
    assert_eq!(c.on_frame(5), Some(1));
}
