use collam::util::{min_align_unchecked, pad_min_align, pad_to_align};
use collam::MIN_ALIGN;

#[test]
fn test_min_align_unchecked() {
    for val in [0, 5, 491, 5910, 15290, 501920].iter() {
        assert_eq!(min_align_unchecked(*val) % MIN_ALIGN, 0);
    }
}

#[test]
fn test_pad_to_align_ok() {
    let align = 4096;
    for val in [0, 5, 491, 5910, 15290, 501920].iter() {
        let layout = pad_to_align(*val, align).expect("unable to align");
        assert_eq!(layout.size() % align, 0);
    }
}

#[test]
fn test_pad_to_align_err() {
    assert!(pad_to_align(usize::max_value() - 12, 4096).is_err());
}

#[test]
fn test_pad_min_align_ok() {
    for val in [0, 5, 491, 5910, 15290, 501920].iter() {
        let layout = pad_min_align(*val).expect("unable to align");
        assert_eq!(layout.size() % MIN_ALIGN, 0);
    }
}

#[test]
fn test_pad_min_align_err() {
    assert!(pad_min_align(usize::max_value() - 14).is_err());
}

#[test]
fn min_align_rounds_to_next_multiple() {
    assert_eq!(min_align_unchecked(0), 0);
    assert_eq!(min_align_unchecked(1), 16);
    assert_eq!(min_align_unchecked(16), 16);
    assert_eq!(min_align_unchecked(100), 112);
}

#[test]
fn pad_to_align_exact_sizes() {
    assert_eq!(pad_to_align(272, 4096).unwrap().size(), 4096);
    assert_eq!(pad_to_align(4097, 4096).unwrap().size(), 8192);
    assert_eq!(pad_to_align(0, 4096).unwrap().size(), 0);
    assert_eq!(pad_min_align(50).unwrap().size(), 64);
    assert_eq!(pad_min_align(50).unwrap().align(), 16);
}

#[test]
fn pad_to_align_rejects_non_power_of_two() {
    assert!(pad_to_align(10, 24).is_err());
    assert!(pad_to_align(10, 0).is_err());
}

#[test]
fn pad_min_align_largest_size() {
    let largest = isize::MAX as usize - 15;
    assert_eq!(pad_min_align(largest).unwrap().size(), isize::MAX as usize - 15);
    assert!(pad_min_align(largest + 1).is_err());
}
