use hilbert_index::{
    dmap, emap, g, gc, gc_inv, max, offset, reduce, rotate_left, rotate_right, t, t_inv,
};

#[test]
fn max_is_the_mask() {
    assert_eq!(max::<0>(), 0);
    assert_eq!(max::<1>(), 1);
    assert_eq!(max::<3>(), 7);
    assert_eq!(max::<6>(), 63);
    assert_eq!(max::<63>(), usize::MAX >> 1);
}

#[test]
fn gray_code_values() {
    let expected = [0usize, 1, 3, 2, 6, 7, 5, 4];
    for (i, &c) in expected.iter().enumerate() {
        assert_eq!(gc(i), c);
    }
    // neighbours differ in one bit
    for i in 0..1000usize {
        assert_eq!((gc(i) ^ gc(i + 1)).count_ones(), 1);
    }
}

#[test]
fn gray_code_inverse_values() {
    let expected = [0usize, 1, 3, 2, 7, 6, 4, 5];
    for (c, &i) in expected.iter().enumerate() {
        assert_eq!(gc_inv::<3>(c), i);
    }
    for i in 0..64usize {
        assert_eq!(gc_inv::<6>(gc(i)), i);
        assert_eq!(gc(gc_inv::<6>(i)), i);
    }
    // beyond the field the fold is still the fold
    assert_eq!(gc_inv::<3>(0b10110), 24);
    assert_eq!(gc_inv::<1>(5), 5);
    assert_eq!(gc_inv::<0>(5), 5);
}

#[test]
fn trailing_ones() {
    assert_eq!(g(0), 0);
    assert_eq!(g(1), 1);
    assert_eq!(g(2), 0);
    assert_eq!(g(0b0111), 3);
    assert_eq!(g(0b1011), 2);
    assert_eq!(g(usize::MAX), usize::BITS as usize);
    assert_eq!(g(usize::MAX >> 1), (usize::BITS - 1) as usize);
}

#[test]
fn direction_values() {
    let expected = [0usize, 1, 1, 2, 2, 1, 1, 0];
    for (i, &d) in expected.iter().enumerate() {
        assert_eq!(dmap::<3>(i), d);
    }
    assert_eq!(dmap::<2>(3), 0);
    assert_eq!(dmap::<1>(1), 0);
}

#[test]
fn entry_values() {
    let expected = [0usize, 0, 0, 3, 3, 6, 6, 5];
    for (i, &e) in expected.iter().enumerate() {
        assert_eq!(emap(i), e);
    }
}

#[test]
fn rotations() {
    assert_eq!(rotate_left::<5>(0b10011, 2), 0b01110);
    assert_eq!(rotate_right::<5>(0b10011, 2), 0b11100);
    assert_eq!(rotate_left::<5>(0b10011, 7), 0b01110);
    assert_eq!(rotate_left::<3>(0b101, 3), 0b101);
    assert_eq!(rotate_right::<3>(0b101, 0), 0b101);
    for b in 0..32usize {
        for i in 0..12usize {
            assert_eq!(rotate_right::<5>(rotate_left::<5>(b, i), i), b);
            assert_eq!(rotate_left::<5>(rotate_right::<5>(b, i), i), b);
            assert_eq!(rotate_left::<5>(b, i).count_ones(), b.count_ones());
            assert!(rotate_left::<5>(b, i) < 32);
        }
    }
    // bits beyond the field
    assert_eq!(rotate_left::<3>(0b1101, 1), 1);
    assert_eq!(rotate_right::<3>(0b1101, 1), 2);
}

#[test]
fn digit_transform() {
    assert_eq!(t::<3>(0b110, 0b011, 1), 3);
    assert_eq!(t_inv::<3>(0b110, 0b011, 1), 0);
    for e in 0..8usize {
        for d in 0..3usize {
            for b in 0..8usize {
                assert_eq!(t_inv::<3>(t::<3>(b, e, d), e, d), b);
                assert_eq!(t::<3>(t_inv::<3>(b, e, d), e, d), b);
            }
            // the entry corner goes to 0, the exit corner to the top bit
            assert_eq!(t::<3>(e, e, d), 0);
            assert_eq!(t::<3>(e ^ (1 << d), e, d), 4);
        }
    }
}

#[test]
fn bit_planes() {
    let p = [5usize, 2, 7];
    assert_eq!(reduce(&p, 0), 5);
    assert_eq!(reduce(&p, 1), 6);
    assert_eq!(reduce(&p, 2), 5);
    assert_eq!(reduce(&p, 3), 0);
    let q: [usize; 0] = [];
    assert_eq!(reduce(&q, 0), 0);
}

#[test]
fn offset_values() {
    assert_eq!(offset::<2>(3), 21);
    assert_eq!(offset::<3>(0), 0);
    assert_eq!(offset::<3>(1), 1);
    assert_eq!(offset::<0>(5), 1);
    assert_eq!(offset::<4>(3), 0x111);
    // bits shifted beyond the word are lost
    assert_eq!(offset::<63>(2), 9223372036854775809);
    assert_eq!(offset::<4>(20), 1229782938247303441);
}
