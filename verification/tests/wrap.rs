use euchre_rotator::wrap::{iWrap, uWrap, wrap_back, wrap_before, wrap_next};

#[test]
fn unsigned_wrap_is_the_remainder() {
    assert_eq!(uWrap(0, 5), 0);
    assert_eq!(uWrap(4, 5), 4);
    assert_eq!(uWrap(5, 5), 0);
    assert_eq!(uWrap(7, 5), 2);
    assert_eq!(uWrap(23, 1), 0);
    assert_eq!(uWrap(usize::MAX, 2), 1);
}

#[test]
fn signed_wrap_counts_backwards_from_the_end() {
    assert_eq!(iWrap(0, 5), 0);
    assert_eq!(iWrap(7, 5), 2);
    assert_eq!(iWrap(-1, 5), 4);
    assert_eq!(iWrap(-4, 5), 1);
    assert_eq!(iWrap(-5, 5), 0);
    assert_eq!(iWrap(-6, 5), 4);
    assert_eq!(iWrap(-13, 1), 0);
    assert_eq!(iWrap(isize::MIN, 3), {
        // isize::MIN is -(2^k) for an odd k, so it leaves remainder 1 modulo 3
        1
    });
    assert_eq!(iWrap(isize::MAX, 2), 1);
}

#[test]
fn signed_wrap_agrees_with_the_euclidean_remainder() {
    for size in 1..9usize {
        for index in -40..40isize {
            assert_eq!(iWrap(index, size), index.rem_euclid(size as isize) as usize);
        }
    }
}

#[test]
fn backward_steps_wrap_like_negative_indices() {
    for size in 1..9usize {
        for steps in 0..40usize {
            assert_eq!(wrap_back(steps, size), iWrap(-(steps as isize), size));
            assert_eq!(wrap_before(steps, size), iWrap(-(steps as isize) - 1, size));
            assert_eq!(wrap_next(steps, size), uWrap(steps + 1, size));
        }
    }
    assert_eq!(wrap_next(usize::MAX, 4), 0);
    assert_eq!(wrap_before(0, 6), 5);
    assert_eq!(wrap_back(0, 6), 0);
    assert_eq!(wrap_back(1, 6), 5);
}
