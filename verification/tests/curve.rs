use hilbert_index::{indices, FromHilbertIndex, ToHilbertIndex};
use std::collections::HashSet;

fn check<const D: usize>(level: usize) {
    let max = 2usize.pow((D * level) as u32) - 1;

    for key in 0..2usize.pow((D * level) as u32) {
        let xyz: [usize; D] = key.from_hilbert_index(level);

        // the two conversions undo each other
        assert_eq!(key, xyz.to_hilbert_index(level));

        for x in xyz.iter() {
            // every component lies inside the cube
            assert!((&0 <= x) && (x <= &max));
        }

        if key > 0 {
            // one component, and one only, differs by one from the point before
            let prv: [usize; D] = (key - 1).from_hilbert_index(level);

            let diff = prv
                .iter()
                .zip(xyz.iter())
                .map(|(&p, &c)| (p as isize - c as isize).abs())
                .sum::<isize>();
            assert_eq!(diff, 1);
        }
    }
}

#[test]
fn dim_two() {
    const D: usize = 2;
    for level in 1..8 {
        check::<D>(level);
    }
}

#[test]
fn dim_three() {
    const D: usize = 3;
    for level in 1..7 {
        check::<D>(level);
    }
}

#[test]
fn dim_four() {
    const D: usize = 4;
    for level in 1..6 {
        check::<D>(level);
    }
}

#[test]
fn dim_five() {
    const D: usize = 5;
    for level in 1..5 {
        check::<D>(level);
    }
}

#[test]
fn dim_six() {
    const D: usize = 6;
    for level in 1..4 {
        check::<D>(level);
    }
}

fn fills_cube<const D: usize>(level: usize) {
    let side = 1usize << level;
    let count = 1usize << (D * level);
    let mut seen: HashSet<[usize; D]> = HashSet::new();
    for key in indices::<D>(level) {
        let p: [usize; D] = key.from_hilbert_index(level);
        assert!(p.iter().all(|&x| x < side));
        assert!(seen.insert(p));
    }
    assert_eq!(seen.len(), count);
}

#[test]
fn plane_curve_fills_the_square() {
    for level in 0..8 {
        fills_cube::<2>(level);
    }
}

#[test]
fn space_curve_fills_the_cube() {
    for level in 0..7 {
        fills_cube::<3>(level);
    }
}

#[test]
fn cube_of_level_one() {
    let expected: [[usize; 3]; 8] = [
        [0, 0, 0],
        [0, 1, 0],
        [0, 1, 1],
        [0, 0, 1],
        [1, 0, 1],
        [1, 1, 1],
        [1, 1, 0],
        [1, 0, 0],
    ];
    for (k, point) in expected.iter().enumerate() {
        let p: [usize; 3] = k.from_hilbert_index(1);
        assert_eq!(&p, point);
        assert_eq!(point.to_hilbert_index(1), k);
    }
}

#[test]
fn square_of_level_one() {
    let expected: [[usize; 2]; 4] = [[0, 0], [0, 1], [1, 1], [1, 0]];
    for (k, point) in expected.iter().enumerate() {
        let p: [usize; 2] = k.from_hilbert_index(1);
        assert_eq!(&p, point);
        assert_eq!(point.to_hilbert_index(1), k);
    }
}

#[test]
fn square_of_level_two() {
    let expected: [[usize; 2]; 16] = [
        [0, 0],
        [1, 0],
        [1, 1],
        [0, 1],
        [0, 2],
        [0, 3],
        [1, 3],
        [1, 2],
        [2, 2],
        [2, 3],
        [3, 3],
        [3, 2],
        [3, 1],
        [2, 1],
        [2, 0],
        [3, 0],
    ];
    for (k, point) in expected.iter().enumerate() {
        let p: [usize; 2] = k.from_hilbert_index(2);
        assert_eq!(&p, point);
        assert_eq!(point.to_hilbert_index(2), k);
    }
}

#[test]
fn level_zero_has_one_point() {
    assert_eq!([0usize; 2].to_hilbert_index(0), 0);
    assert_eq!([0usize; 3].to_hilbert_index(0), 0);
    assert_eq!([0usize; 6].to_hilbert_index(0), 0);
    let p: [usize; 4] = 0usize.from_hilbert_index(0);
    assert_eq!(p, [0, 0, 0, 0]);
    assert_eq!(indices::<2>(0).collect::<Vec<usize>>(), vec![0]);
    assert_eq!(indices::<5>(0).collect::<Vec<usize>>(), vec![0]);
}

#[test]
fn single_points() {
    let p: [usize; 3] = 100usize.from_hilbert_index(3);
    assert_eq!(p, [1, 6, 3]);
    assert_eq!([1usize, 6, 3].to_hilbert_index(3), 100);
    assert_eq!([5usize, 2, 7].to_hilbert_index(3), 260);
    let q: [usize; 3] = 260usize.from_hilbert_index(3);
    assert_eq!(q, [5, 2, 7]);
    let r: [usize; 4] = 12345usize.from_hilbert_index(4);
    assert_eq!(r, [1, 6, 13, 1]);
    assert_eq!([9usize, 3, 14, 6].to_hilbert_index(4), 49780);
    let s: [usize; 4] = 49780usize.from_hilbert_index(4);
    assert_eq!(s, [9, 3, 14, 6]);
}

#[test]
fn short_names_agree() {
    for key in 0..512usize {
        let a: [usize; 3] = key.from_hilbert_index(3);
        let b: [usize; 3] = key.from_hindex(3);
        assert_eq!(a, b);
        assert_eq!(a.to_hilbert_index(3), a.to_hindex(3));
        assert_eq!(a.to_hindex(3), key);
    }
}

#[test]
fn curve_runs_from_origin_along_first_axis() {
    let a: [usize; 3] = 0usize.from_hilbert_index(3);
    assert_eq!(a, [0, 0, 0]);
    let b: [usize; 3] = 511usize.from_hilbert_index(3);
    assert_eq!(b, [7, 0, 0]);
    let c: [usize; 4] = 4095usize.from_hilbert_index(3);
    assert_eq!(c, [7, 0, 0, 0]);
    let d: [usize; 2] = 0usize.from_hilbert_index(5);
    assert_eq!(d, [0, 0]);
}

#[test]
fn line_is_the_identity() {
    for key in 0..64usize {
        let p: [usize; 1] = key.from_hilbert_index(6);
        assert_eq!(p, [key]);
        assert_eq!([key].to_hilbert_index(6), key);
    }
}

#[test]
fn only_the_low_bits_count() {
    // of a coordinate, the low `level` bits
    assert_eq!([5usize, 6].to_hilbert_index(1), 3);
    assert_eq!([1usize, 0].to_hilbert_index(1), 3);
    // of an index, the low `level` digits
    let p: [usize; 2] = 29usize.from_hilbert_index(1);
    assert_eq!(p, [0, 1]);
    let q: [usize; 2] = 1usize.from_hilbert_index(1);
    assert_eq!(q, [0, 1]);
}

#[test]
fn indices_is_the_full_range() {
    assert_eq!(indices::<3>(2), 0..64);
    assert_eq!(indices::<2>(7), 0..16384);
    assert_eq!(indices::<6>(1).count(), 64);
    let all: Vec<usize> = indices::<2>(2).collect();
    assert_eq!(all, (0..16).collect::<Vec<usize>>());
    // a second walk starts again at zero
    let r = indices::<2>(1);
    assert_eq!(r.clone().collect::<Vec<usize>>(), vec![0, 1, 2, 3]);
    assert_eq!(r.collect::<Vec<usize>>(), vec![0, 1, 2, 3]);
}
