use flipstack::SliceStack;
use flipstack::ss_find_first_double_move;
use flipstack::ss_find_single_joining_move;
use flipstack::ss_init_fixed;

fn fixture(colors: &[u8], color_count: u32) -> SliceStack {
    let mut ss = SliceStack::new();
    let v: Vec<u8> = colors.to_vec();
    ss_init_fixed(&mut ss, &v, color_count).unwrap();
    ss
}

#[test]
fn ss_find_single_joining_move_test() {
}

#[test]
fn ss_find_first_double_move_test() {
}

#[test]
fn mod_ss_find_single_joining_move_test() {
}

#[test]
fn mod_ss_find_first_double_move_test() {
}

#[test]
fn single_joining_move_prefers_left_edge() {
    let ss = fixture(&[0, 1, 0, 2], 3);
    let mut direction: i32 = -7;
    let index = ss_find_single_joining_move(&ss, &mut direction);
    assert_eq!(index, 2);
    assert_eq!(direction, 0);
}

#[test]
fn single_joining_move_falls_back_to_right_edge() {
    let ss = fixture(&[0, 0, 1, 2, 1], 3);
    let mut direction: i32 = -7;
    let index = ss_find_single_joining_move(&ss, &mut direction);
    assert_eq!(index, 2);
    assert_eq!(direction, 1);
}

#[test]
fn single_joining_move_reports_none() {
    let ss = fixture(&[0, 0, 1, 1], 2);
    let mut direction: i32 = -7;
    let index = ss_find_single_joining_move(&ss, &mut direction);
    assert_eq!(index, -1);
    // the direction is left untouched on failure
    assert_eq!(direction, -7);
}

#[test]
fn double_move_forward_scan_finds_first_break() {
    let ss = fixture(&[0, 1, 0, 2], 3);
    let mut direction: i32 = -7;
    let index = ss_find_first_double_move(&ss, 0, &mut direction);
    assert_eq!(index, 1);
    assert_eq!(direction, 1);
}

#[test]
fn double_move_backward_scan_finds_last_break() {
    let ss = fixture(&[2, 1, 0, 1, 0, 3], 4);
    let mut direction: i32 = -7;
    let index = ss_find_first_double_move(&ss, 1, &mut direction);
    assert_eq!(index, 3);
    assert_eq!(direction, 0);
}

#[test]
fn double_move_reports_none_on_complete_stack() {
    let ss = fixture(&[0, 0, 1], 2);
    let mut direction: i32 = -7;
    let index = ss_find_first_double_move(&ss, 0, &mut direction);
    assert_eq!(index, -1);
    assert_eq!(direction, -7);
    let index = ss_find_first_double_move(&ss, 1, &mut direction);
    assert_eq!(index, -1);
    assert_eq!(direction, -7);
}
