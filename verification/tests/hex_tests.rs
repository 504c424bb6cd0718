use hexcore::frac::FracCube;
use hexcore::hex::Cube;

fn cube(q: i32, r: i32) -> Cube {
    Cube::new(q, r)
}

#[test]
fn new_keeps_axial_invariant() {
    let c = cube(3, -5);
    assert_eq!(c.q + c.r + c.s, 0);
    assert_eq!(c.s, 2);
}

#[test]
fn arithmetic_keeps_axial_invariant() {
    let a = cube(2, -1);
    let b = cube(-4, 3);
    let s = a.add(b);
    assert_eq!(s.q + s.r + s.s, 0);
    assert_eq!((s.q, s.r, s.s), (-2, 2, 0));
    let d = a.sub(b);
    assert_eq!(d.q + d.r + d.s, 0);
    assert_eq!((d.q, d.r, d.s), (6, -4, -2));
    let m = a.scale(3);
    assert_eq!(m.q + m.r + m.s, 0);
    assert_eq!((m.q, m.r, m.s), (6, -3, -3));
}

#[test]
fn distance_samples() {
    let o = cube(0, 0);
    let c = cube(2, -1);
    assert_eq!(o.distance(c), 2);
    assert_eq!(c.distance(o), 2);
    assert_eq!(c.distance(c), 0);
    // triangle inequality on a sampled triple
    let b = cube(-1, 3);
    assert!(o.distance(b) <= o.distance(c) + c.distance(b));
    // max form equals half the component sum
    let d = o.distance(c) as i64;
    let half = (c.q.abs() as i64 + c.r.abs() as i64 + c.s.abs() as i64) / 2;
    assert_eq!(d, half);
}

#[test]
fn neighbors_are_six_at_distance_one() {
    let c = cube(4, -2);
    let n = c.neighbors();
    assert_eq!(n.len(), 6);
    assert_eq!((n[0].q, n[0].r, n[0].s), (5, -2, -3));
    for nb in n.iter() {
        assert_eq!(c.distance(*nb), 1);
        assert_eq!(nb.q + nb.r + nb.s, 0);
    }
}

#[test]
fn disc_sizes_match_formula() {
    let c = cube(0, 0);
    for n in 0u32..4 {
        let d = c.disc(n);
        assert_eq!(d.len() as u32, 3 * n * (n + 1) + 1);
        for x in d.iter() {
            assert!(c.distance(*x) <= n);
            assert_eq!(x.q + x.r + x.s, 0);
        }
    }
    assert_eq!(c.disc(0).len(), 1);
    assert_eq!(c.disc(1).len(), 7);
    assert_eq!(c.disc(2).len(), 19);
    assert_eq!(c.disc(3).len(), 37);
}

#[test]
fn ring_sizes_and_distances() {
    let c = cube(1, 1);
    assert_eq!(c.ring(0).len(), 1);
    for n in 1u32..4 {
        let r = c.ring(n);
        assert_eq!(r.len() as u32, 6 * n);
        for x in r.iter() {
            assert_eq!(c.distance(*x), n);
        }
    }
}

#[test]
fn round_restores_invariant_on_half_ties() {
    // (0.5, 0.5, -1): both q and r sit on exact half-integer ties.
    let f = FracCube { qn: 1, rn: 1, sn: -2, den: 2 };
    let c = f.round();
    assert_eq!(c.q + c.r + c.s, 0);
    // deterministic: the tie on the largest error corrects q first
    assert_eq!((c.q, c.r, c.s), (0, 1, -1));
    // rounding twice gives the same coordinate
    let c2 = FracCube { qn: 1, rn: 1, sn: -2, den: 2 }.round();
    assert_eq!((c.q, c.r, c.s), (c2.q, c2.r, c2.s));
}

#[test]
fn round_is_exact_on_integers() {
    let f = FracCube { qn: -6, rn: 9, sn: -3, den: 3 };
    let c = f.round();
    assert_eq!((c.q, c.r, c.s), (-2, 3, -1));
}

#[test]
fn round_corrects_largest_error() {
    // (1.4, 1.4, -2.8): naive rounding gives (1, 1, -3), summing to -1;
    // q carries the largest rounding error and is recomputed from r and s.
    let f = FracCube { qn: 7, rn: 7, sn: -14, den: 5 };
    let c = f.round();
    assert_eq!(c.q + c.r + c.s, 0);
    assert_eq!((c.q, c.r, c.s), (2, 1, -3));

    // (1.2, 1.2, -2.4): here s carries the largest error.
    let g = FracCube { qn: 6, rn: 6, sn: -12, den: 5 };
    let d = g.round();
    assert_eq!(d.q + d.r + d.s, 0);
    assert_eq!((d.q, d.r, d.s), (1, 1, -2));
}
