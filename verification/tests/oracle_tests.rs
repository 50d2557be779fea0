use flipstack::MAX_SLICES;
use flipstack::PrngCtxGaloisLsfw;
use flipstack::SliceStack;
use flipstack::ss_fragmentation;
use flipstack::ss_fragmentation2;
use flipstack::ss_init;
use flipstack::ss_init_fixed;
use flipstack::ss_iscomplete;
use flipstack::ss_iscomplete2;

fn fixture(colors: &[u8], color_count: u32) -> SliceStack {
    let mut ss = SliceStack::new();
    let v: Vec<u8> = colors.to_vec();
    ss_init_fixed(&mut ss, &v, color_count).unwrap();
    ss
}

#[test]
fn ss_is_complete_test() {
    let ss = fixture(&[0, 2, 1, 1], 3);
    assert!(ss_iscomplete(&ss));
    assert!(ss_iscomplete2(&ss));
}

#[test]
fn ss_iscomplete_test() {
    let ss = fixture(&[0, 2, 1, 1], 3);
    assert!(ss_iscomplete(&ss));
    assert!(ss_iscomplete2(&ss));
    let ss = fixture(&[1, 0, 2, 1], 3);
    assert!(!ss_iscomplete(&ss));
    assert!(!ss_iscomplete2(&ss));
}

#[test]
fn ss_fragmentation_test() {
    let ss = fixture(&[0, 2, 1, 1], 3);
    assert_eq!(3, ss_fragmentation(&ss));
    assert_eq!(3, ss_fragmentation2(&ss));
}

#[test]
fn mod_ss_fragmentation_test() {
    let ss = fixture(&[0, 2, 1, 1], 3);
    assert_eq!(3, ss_fragmentation(&ss));
    assert_eq!(3, ss_fragmentation2(&ss));
}

#[test]
fn ss_fragmentation_equiv_test() {
    const SLICE_COUNT: usize = MAX_SLICES;
    const COLOR_COUNT: u32 = 8;

    const SS_COUNT: usize = 1;
    let mut ss = vec![SliceStack::new(); SS_COUNT];
    let mut ctx = PrngCtxGaloisLsfw { value: 34 };

    for s in ss.iter_mut() {
        ss_init(s, SLICE_COUNT, COLOR_COUNT, &mut ctx).unwrap();
        let f1 = ss_fragmentation(s);
        let f2 = ss_fragmentation2(s);
        assert!(f1 <= s.count as i32);
        assert!(f2 <= s.count as i32);
        assert_eq!(f1, f2);
        assert_eq!(ss_iscomplete(s), ss_iscomplete2(s));
    }
}

#[test]
fn fragmentation_stays_between_one_and_count() {
    let mut ctx = PrngCtxGaloisLsfw { value: 0x10293847 };
    for trial in 0..200 {
        let count = 1 + (trial % MAX_SLICES);
        let mut ss = SliceStack::new();
        ss_init(&mut ss, count, 8, &mut ctx).unwrap();
        let f = ss_fragmentation(&ss);
        assert!(1 <= f && f <= count as i32);
        assert_eq!(f, ss_fragmentation2(&ss));
    }
}

#[test]
fn fragmentation_of_single_run_is_one() {
    let ss = fixture(&[4, 4, 4, 4, 4], 5);
    assert_eq!(1, ss_fragmentation(&ss));
    assert!(ss_iscomplete(&ss));
}

#[test]
fn completeness_predicates_diverge_when_a_color_is_absent() {
    // colors 0 and 1 each form one run, but the nominal limit of 3 colors
    // leaves iscomplete2 slack that the bitmap form does not have
    let ss = fixture(&[0, 1, 0], 3);
    assert!(!ss_iscomplete(&ss));
    assert!(ss_iscomplete2(&ss));
}

#[test]
fn empty_stack_oracle_values() {
    // the sentinel formulation counts zero runs in an empty stack, while the
    // adjacent-pair formulation starts from one; an empty stack is complete
    let ss = SliceStack::new();
    assert_eq!(0, ss_fragmentation(&ss));
    assert_eq!(1, ss_fragmentation2(&ss));
    assert!(ss_iscomplete(&ss));
}
