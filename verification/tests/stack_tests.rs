use flipstack::MAX_SLICES;
use flipstack::PrngCtxGaloisLsfw;
use flipstack::SliceStack;
use flipstack::StackError;
use flipstack::ss_flip;
use flipstack::ss_init;
use flipstack::ss_init_fixed;

fn fixture(colors: &[u8], color_count: u32) -> SliceStack {
    let mut ss = SliceStack::new();
    let v: Vec<u8> = colors.to_vec();
    ss_init_fixed(&mut ss, &v, color_count).unwrap();
    ss
}

fn active(ss: &SliceStack) -> Vec<u8> {
    ss.slice_type[..ss.count].to_vec()
}

#[test]
fn basic_init_test() {
    let mut ss: SliceStack = SliceStack::new();
    let mut ctx = PrngCtxGaloisLsfw { value: 34 };
    ss_init(&mut ss, 4, 2, &mut ctx).unwrap();
    assert_eq!(4, ss.count);
    assert_eq!(2, ss.color_count);
    println!("someothing!");
}

#[test]
fn mod_basic_init_test() {
    let mut ss: SliceStack = SliceStack::new();
    let mut ctx = PrngCtxGaloisLsfw { value: 34 };
    ss_init(&mut ss, 4, 2, &mut ctx).unwrap();
    assert_eq!(4, ss.count);
    assert_eq!(2, ss.color_count);
}

#[test]
fn init_random_colors_in_range() {
    let mut ctx = PrngCtxGaloisLsfw { value: 99 };
    for color_count in 1..=8u32 {
        let mut ss = SliceStack::new();
        ss_init(&mut ss, MAX_SLICES, color_count, &mut ctx).unwrap();
        assert_eq!(ss.count, MAX_SLICES);
        for &c in &active(&ss) {
            assert!((c as u32) < color_count);
        }
    }
}

#[test]
fn init_rejects_oversized_count() {
    let mut ss = SliceStack::new();
    let mut ctx = PrngCtxGaloisLsfw { value: 1 };
    let r = ss_init(&mut ss, MAX_SLICES + 1, 4, &mut ctx);
    assert_eq!(r, Err(StackError::InvalidConfiguration));
    assert_eq!(ss.count, 0);
}

#[test]
fn init_rejects_oversized_color_count() {
    let mut ss = SliceStack::new();
    let mut ctx = PrngCtxGaloisLsfw { value: 1 };
    let r = ss_init(&mut ss, 4, 33, &mut ctx);
    assert_eq!(r, Err(StackError::InvalidConfiguration));
}

#[test]
fn init_rejects_slices_without_colors() {
    let mut ss = SliceStack::new();
    let mut ctx = PrngCtxGaloisLsfw { value: 1 };
    let r = ss_init(&mut ss, 4, 0, &mut ctx);
    assert_eq!(r, Err(StackError::InvalidConfiguration));
    // an empty stack with no colors is a fine configuration
    assert_eq!(ss_init(&mut ss, 0, 0, &mut ctx), Ok(()));
}

#[test]
fn init_fixed_stores_colors() {
    let ss = fixture(&[0, 2, 1, 1], 3);
    assert_eq!(ss.count, 4);
    assert_eq!(ss.color_count, 3);
    assert_eq!(active(&ss), vec![0, 2, 1, 1]);
}

#[test]
fn init_fixed_rejects_out_of_range_color() {
    let mut ss = SliceStack::new();
    let colors: Vec<u8> = vec![0, 3, 1];
    let r = ss_init_fixed(&mut ss, &colors, 3);
    assert_eq!(r, Err(StackError::InvalidConfiguration));
    assert_eq!(ss.count, 0);
}

#[test]
fn flip_reverses_suffix_and_prefix() {
    let mut ss = fixture(&[0, 1, 2, 3, 4], 5);
    ss_flip(&mut ss, 2, 1);
    assert_eq!(active(&ss), vec![0, 1, 4, 3, 2]);
    let mut ss = fixture(&[0, 1, 2, 3, 4], 5);
    ss_flip(&mut ss, 2, -1);
    assert_eq!(active(&ss), vec![2, 1, 0, 3, 4]);
}

#[test]
fn flip_is_involution() {
    let cases: [(&[u8], usize, i32); 4] =
        [(&[0, 1, 2, 3], 1, 1), (&[0, 1, 2, 3], 2, -1), (&[1, 0, 2, 1], 0, 1), (&[1, 0, 2, 1], 3, -1)];
    for (colors, index, direction) in cases {
        let mut ss = fixture(colors, 4);
        let before = active(&ss);
        ss_flip(&mut ss, index, direction);
        ss_flip(&mut ss, index, direction);
        assert_eq!(active(&ss), before);
    }
}

#[test]
fn flip_preserves_color_multiset() {
    let mut ss = fixture(&[1, 0, 2, 1], 3);
    let mut before = active(&ss);
    ss_flip(&mut ss, 1, 1);
    let mut after = active(&ss);
    before.sort();
    after.sort();
    assert_eq!(before, after);
}
