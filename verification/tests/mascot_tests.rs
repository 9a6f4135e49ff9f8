use awa::mascot::{Mascot, MascotMode, MascotState};

fn pixel(frame: &[u8], width: usize, x: usize, y: usize) -> [u8; 4] {
    let i = (y * width + x) * 4;
    [frame[i], frame[i + 1], frame[i + 2], frame[i + 3]]
}

#[test]
fn new_mascot_is_cute_and_idle() {
    let m = Mascot::new(128, 96);
    assert_eq!(m.mode, MascotMode::Cute);
    assert_eq!(m.state, MascotState::Idle);
    assert_eq!(m.width, 128);
    assert_eq!(m.height, 96);
}

#[test]
fn cycle_mode_goes_cute_sexy_focus_and_back() {
    let mut m = Mascot::new(128, 128);
    m.cycle_mode();
    assert_eq!(m.mode, MascotMode::Sexy);
    m.cycle_mode();
    assert_eq!(m.mode, MascotMode::Focus);
    m.cycle_mode();
    assert_eq!(m.mode, MascotMode::Cute);
    assert_eq!(m.state, MascotState::Idle);
}

#[test]
fn transition_resets_idle_timer_only_into_active_states() {
    let mut m = Mascot::new(128, 128);
    assert!(!m.transition(MascotState::Idle));
    assert!(m.transition(MascotState::Walking));
    assert_eq!(m.state, MascotState::Walking);
    assert!(!m.transition(MascotState::Walking));
    assert!(m.transition(MascotState::Running));
    assert!(!m.transition(MascotState::Sitting));
    assert_eq!(m.state, MascotState::Sitting);
    assert!(!m.transition(MascotState::Idle));
    assert!(m.transition(MascotState::Waving));
    assert_eq!(m.state, MascotState::Waving);
}

#[test]
fn draw_paints_body_dot_and_clears_the_rest() {
    let m = Mascot::new(128, 128);
    let mut frame = vec![7u8; 128 * 128 * 4 + 2];
    m.draw(&mut frame);
    // the state dot in the middle: idle is white
    assert_eq!(pixel(&frame, 128, 64, 64), [255, 255, 255, 200]);
    assert_eq!(pixel(&frame, 128, 72, 64), [255, 255, 255, 200]);
    // the body around it: cute is pink
    assert_eq!(pixel(&frame, 128, 84, 64), [255, 182, 193, 220]);
    assert_eq!(pixel(&frame, 128, 64, 104), [255, 182, 193, 220]);
    assert_eq!(pixel(&frame, 128, 73, 64), [255, 182, 193, 220]);
    // outside the body: transparent
    assert_eq!(pixel(&frame, 128, 64, 105), [0, 0, 0, 0]);
    assert_eq!(pixel(&frame, 128, 0, 0), [0, 0, 0, 0]);
    assert_eq!(pixel(&frame, 128, 127, 127), [0, 0, 0, 0]);
    // trailing bytes that are no whole pixel are left alone
    assert_eq!(frame[128 * 128 * 4], 7);
    assert_eq!(frame[128 * 128 * 4 + 1], 7);
}

#[test]
fn draw_body_is_a_square() {
    let m = Mascot::new(128, 128);
    let mut frame = vec![0u8; 128 * 128 * 4];
    m.draw(&mut frame);
    // the corners of the 81 x 81 square around the centre (64, 64)
    assert_eq!(pixel(&frame, 128, 104, 104), [255, 182, 193, 220]);
    assert_eq!(pixel(&frame, 128, 24, 24), [255, 182, 193, 220]);
    assert_eq!(pixel(&frame, 128, 24, 104), [255, 182, 193, 220]);
    assert_eq!(pixel(&frame, 128, 104, 24), [255, 182, 193, 220]);
    // just outside it
    assert_eq!(pixel(&frame, 128, 105, 104), [0, 0, 0, 0]);
    assert_eq!(pixel(&frame, 128, 104, 105), [0, 0, 0, 0]);
    assert_eq!(pixel(&frame, 128, 23, 64), [0, 0, 0, 0]);
    // the dot stays round: (72, 64) is in it, (70, 70) is not
    assert_eq!(pixel(&frame, 128, 72, 64), [255, 255, 255, 200]);
    assert_eq!(pixel(&frame, 128, 70, 70), [255, 182, 193, 220]);
}

#[test]
fn draw_colours_follow_mode_and_state() {
    let mut m = Mascot::new(128, 128);
    m.cycle_mode();
    m.transition(MascotState::Running);
    let mut frame = vec![0u8; 128 * 128 * 4];
    m.draw(&mut frame);
    assert_eq!(pixel(&frame, 128, 64, 64), [255, 200, 50, 200]);
    assert_eq!(pixel(&frame, 128, 94, 64), [180, 80, 220, 220]);

    m.cycle_mode();
    m.transition(MascotState::Walking);
    m.draw(&mut frame);
    assert_eq!(pixel(&frame, 128, 64, 64), [100, 255, 100, 200]);
    assert_eq!(pixel(&frame, 128, 64, 30), [80, 160, 255, 220]);

    m.transition(MascotState::Sitting);
    m.draw(&mut frame);
    assert_eq!(pixel(&frame, 128, 64, 64), [100, 200, 255, 200]);

    m.transition(MascotState::Waving);
    m.draw(&mut frame);
    assert_eq!(pixel(&frame, 128, 64, 64), [255, 100, 100, 200]);
}

#[test]
fn draw_twice_is_draw_once() {
    let m = Mascot::new(100, 90);
    let mut once = vec![42u8; 100 * 90 * 4 + 3];
    m.draw(&mut once);
    let mut twice = once.clone();
    m.draw(&mut twice);
    assert_eq!(once, twice);
}

#[test]
fn draw_into_a_frame_too_wide_for_screen_coordinates_only_clears() {
    let m = Mascot::new(0x8000_0000, 1);
    let mut frame = vec![9u8; 10];
    m.draw(&mut frame);
    assert_eq!(frame, vec![0, 0, 0, 0, 0, 0, 0, 0, 9, 9]);
}

#[test]
fn draw_with_an_empty_frame_size_only_clears() {
    let m = Mascot::new(0, 128);
    let mut frame = vec![5u8; 8];
    m.draw(&mut frame);
    assert_eq!(frame, vec![0u8; 8]);
}
