use vstd::prelude::*;

verus! {

/// A coordinate on a hexagonal grid in cube form: three components that
/// always sum to zero. The third component is redundant (`s == -q - r`) but
/// kept explicit so that distance and rounding read like the algebra they
/// are. Adjacency is the same for both drawing orientations; orientation
/// only affects the pixel mapping.
#[derive(Clone, Copy, PartialEq, Eq, Structural, Hash, Debug)]
pub struct Cube {
    pub q: i32,
    pub r: i32,
    pub s: i32,
}

/// Absolute value over mathematical integers.
pub open spec fn iabs(x: int) -> int {
    if x < 0 {
        -x
    } else {
        x
    }
}

/// Maximum of three mathematical integers.
pub open spec fn imax3(a: int, b: int, c: int) -> int {
    if a >= b && a >= c {
        a
    } else if b >= c {
        b
    } else {
        c
    }
}

/// Hex distance in cube form: the largest component difference.
pub open spec fn dist(a: Cube, b: Cube) -> int {
    imax3(iabs(a.q - b.q), iabs(a.r - b.r), iabs(a.s - b.s))
}

/// `q` offset of the direction with index `i` (`0 <= i < 6`). The fixed
/// order starts east of the centre and proceeds counter-clockwise.
pub open spec fn dir_dq(i: int) -> int {
    if i == 0 {
        1
    } else if i == 1 {
        1
    } else if i == 2 {
        0
    } else if i == 3 {
        -1
    } else if i == 4 {
        -1
    } else {
        0
    }
}

/// `r` offset of the direction with index `i` (`0 <= i < 6`).
pub open spec fn dir_dr(i: int) -> int {
    if i == 0 {
        0
    } else if i == 1 {
        -1
    } else if i == 2 {
        -1
    } else if i == 3 {
        0
    } else if i == 4 {
        1
    } else {
        1
    }
}

/// `b` is the neighbor of `a` in direction `i`.
pub open spec fn is_neighbor_at(a: Cube, b: Cube, i: int) -> bool {
    b.q == a.q + dir_dq(i) && b.r == a.r + dir_dr(i) && b.s == a.s - dir_dq(i) - dir_dr(i)
}

/// Two coordinates share an edge.
pub open spec fn adjacent(a: Cube, b: Cube) -> bool {
    exists|i: int| 0 <= i < 6 && is_neighbor_at(a, b, i)
}

impl Cube {
    /// The axial invariant that every coordinate keeps.
    pub open spec fn wf(self) -> bool {
        self.q + self.r + self.s == 0
    }

    /// Every component is at least `m` away from the `i32` boundary, so
    /// offsets up to `m` cannot overflow.
    pub open spec fn margin(self, m: int) -> bool {
        i32::MIN + m <= self.q <= i32::MAX - m && i32::MIN + m <= self.r <= i32::MAX - m
            && i32::MIN + m <= self.s <= i32::MAX - m
    }

    /// Builds a coordinate from the two free axes; the third is derived, so
    /// the invariant holds by construction.
    pub fn new(q: i32, r: i32) -> (c: Cube)
        requires
            i32::MIN <= -(q as int) - (r as int) <= i32::MAX,
        ensures
            c.q == q,
            c.r == r,
            c.wf(),
    {
        let s64: i64 = -(q as i64) - (r as i64);
        Cube { q, r, s: s64 as i32 }
    }

    /// Component-wise sum. The sum of two well-formed coordinates is
    /// well-formed.
    pub fn add(self, other: Cube) -> (c: Cube)
        requires
            i32::MIN <= self.q + other.q <= i32::MAX,
            i32::MIN <= self.r + other.r <= i32::MAX,
            i32::MIN <= self.s + other.s <= i32::MAX,
        ensures
            c.q == self.q + other.q,
            c.r == self.r + other.r,
            c.s == self.s + other.s,
            self.wf() && other.wf() ==> c.wf(),
    {
        Cube { q: self.q + other.q, r: self.r + other.r, s: self.s + other.s }
    }

    /// Component-wise difference. The difference of two well-formed
    /// coordinates is well-formed.
    pub fn sub(self, other: Cube) -> (c: Cube)
        requires
            i32::MIN <= self.q - other.q <= i32::MAX,
            i32::MIN <= self.r - other.r <= i32::MAX,
            i32::MIN <= self.s - other.s <= i32::MAX,
        ensures
            c.q == self.q - other.q,
            c.r == self.r - other.r,
            c.s == self.s - other.s,
            self.wf() && other.wf() ==> c.wf(),
    {
        Cube { q: self.q - other.q, r: self.r - other.r, s: self.s - other.s }
    }

    /// Scale by an integer factor. A scaled well-formed coordinate is
    /// well-formed.
    pub fn scale(self, k: i32) -> (c: Cube)
        requires
            i32::MIN <= self.q * k <= i32::MAX,
            i32::MIN <= self.r * k <= i32::MAX,
            i32::MIN <= self.s * k <= i32::MAX,
        ensures
            c.q == self.q * k,
            c.r == self.r * k,
            c.s == self.s * k,
            self.wf() ==> c.wf(),
    {
        let q64: i64 = (self.q as i64) * (k as i64);
        let r64: i64 = (self.r as i64) * (k as i64);
        let s64: i64 = (self.s as i64) * (k as i64);
        let c = Cube { q: q64 as i32, r: r64 as i32, s: s64 as i32 };
        proof {
            if self.wf() {
                assert((self.q + self.r + self.s) * k == 0) by (nonlinear_arith)
                    requires
                        self.q + self.r + self.s == 0,
                ;
                assert(self.q * k + self.r * k + self.s * k == (self.q + self.r + self.s) * k)
                    by (nonlinear_arith);
            }
        }
        c
    }

    /// Hex distance to another coordinate.
    pub fn distance(self, other: Cube) -> (d: u32)
        ensures
            d == dist(self, other),
    {
        let dq: i64 = (self.q as i64) - (other.q as i64);
        let dr: i64 = (self.r as i64) - (other.r as i64);
        let ds: i64 = (self.s as i64) - (other.s as i64);
        let aq: i64 = if dq < 0 { -dq } else { dq };
        let ar: i64 = if dr < 0 { -dr } else { dr };
        let sa: i64 = if ds < 0 { -ds } else { ds };
        let m: i64 = if aq >= ar && aq >= sa {
            aq
        } else if ar >= sa {
            ar
        } else {
            sa
        };
        m as u32
    }

    /// The six adjacent coordinates, in the fixed direction order
    /// (east first, then counter-clockwise). Orientation plays no role.
    pub fn neighbors(self) -> (v: Vec<Cube>)
        requires
            self.margin(1),
        ensures
            v.len() == 6,
            forall|i: int| 0 <= i < 6 ==> is_neighbor_at(self, #[trigger] v[i], i),
            self.wf() ==> forall|i: int| 0 <= i < 6 ==> (#[trigger] v[i]).wf(),
    {
        let mut v: Vec<Cube> = Vec::new();
        v.push(Cube { q: self.q + 1, r: self.r, s: self.s - 1 });
        v.push(Cube { q: self.q + 1, r: self.r - 1, s: self.s });
        v.push(Cube { q: self.q, r: self.r - 1, s: self.s + 1 });
        v.push(Cube { q: self.q - 1, r: self.r, s: self.s + 1 });
        v.push(Cube { q: self.q - 1, r: self.r + 1, s: self.s });
        v.push(Cube { q: self.q, r: self.r + 1, s: self.s - 1 });
        v
    }
}

impl Cube {
    /// All coordinates within distance `n` of `self`, inclusive: exactly
    /// `3n(n+1) + 1` of them, each listed once, in column order (`q` then
    /// `r` ascending).
    #[verifier::loop_isolation(false)]
    pub fn disc(self, n: u32) -> (v: Vec<Cube>)
        requires
            self.wf(),
            n <= 1000,
            self.margin(n as int),
        ensures
            v@.len() == 3 * (n as int) * (n as int) + 3 * (n as int) + 1,
            forall|k: int| 0 <= k < v@.len() ==> (#[trigger] v[k]).wf(),
            forall|k: int| 0 <= k < v@.len() ==> dist(self, #[trigger] v[k]) <= n as int,
            forall|c: Cube| c.wf() && dist(self, c) <= n as int ==> v@.contains(c),
            forall|k1: int, k2: int| 0 <= k1 < k2 < v@.len() ==> v[k1] != v[k2],
    {
        let ni: i64 = n as i64;
        let qq: i64 = self.q as i64;
        let rr: i64 = self.r as i64;
        let ss: i64 = self.s as i64;
        let mut v: Vec<Cube> = Vec::new();
        let mut dq: i64 = -ni;
        proof {
            let nn = ni as int;
            let d0 = -nn;
            assert((d0 + nn) * (3 * nn + 1 + d0) == 0) by (nonlinear_arith)
                requires
                    d0 == -nn,
            ;
        }
        while dq <= ni
            invariant
                -ni <= dq <= ni + 1,
                2 * v@.len() == if dq <= 0 {
                    (dq + ni) * (3 * ni + 1 + dq)
                } else {
                    ni * (3 * ni + 1) + dq * (4 * ni + 3 - dq)
                },
                forall|k: int| 0 <= k < v@.len() ==> (#[trigger] v[k]).wf(),
                forall|k: int| 0 <= k < v@.len() ==> dist(self, #[trigger] v[k]) <= n as int,
                forall|k: int| 0 <= k < v@.len() ==> (#[trigger] v[k]).q < self.q + dq,
                forall|c: Cube|
                    c.wf() && dist(self, c) <= n as int && c.q < self.q + dq ==> v@.contains(c),
                forall|k1: int, k2: int|
                    0 <= k1 < k2 < v@.len() ==> (v[k1].q < v[k2].q || (v[k1].q == v[k2].q
                        && v[k1].r < v[k2].r)),
            decreases ni + 1 - dq,
        {
            let lo: i64 = if -dq - ni > -ni {
                -dq - ni
            } else {
                -ni
            };
            let hi: i64 = if ni - dq < ni {
                ni - dq
            } else {
                ni
            };
            let ghost len0: int = v@.len() as int;
            let mut dr: i64 = lo;
            while dr <= hi
                invariant
                    lo <= dr <= hi + 1,
                    v@.len() == len0 + (dr - lo),
                    forall|k: int| 0 <= k < v@.len() ==> (#[trigger] v[k]).wf(),
                    forall|k: int| 0 <= k < v@.len() ==> dist(self, #[trigger] v[k]) <= n as int,
                    forall|k: int| 0 <= k < len0 ==> (#[trigger] v[k]).q < self.q + dq,
                    forall|k: int|
                        len0 <= k < v@.len() ==> (#[trigger] v[k]).q == self.q + dq && v[k].r
                            == self.r + lo + (k - len0),
                    forall|c: Cube|
                        c.wf() && dist(self, c) <= n as int && c.q < self.q + dq ==> v@.contains(
                            c,
                        ),
                    forall|k1: int, k2: int|
                        0 <= k1 < k2 < v@.len() ==> (v[k1].q < v[k2].q || (v[k1].q == v[k2].q
                            && v[k1].r < v[k2].r)),
                decreases hi + 1 - dr,
            {
                let cq: i64 = qq + dq;
                let cr: i64 = rr + dr;
                let cs: i64 = ss - dq - dr;
                let ghost vpre: Seq<Cube> = v@;
                v.push(Cube { q: cq as i32, r: cr as i32, s: cs as i32 });
                proof {
                    assert forall|x: Cube| vpre.contains(x) implies v@.contains(x) by {
                        let i = choose|i: int| 0 <= i < vpre.len() && vpre[i] == x;
                        assert(v@[i] == x);
                    }
                }
                dr = dr + 1;
            }
            proof {
                assert(hi - lo + 1 == 2 * ni + 1 - iabs(dq as int));
                let nn = ni as int;
                let dd = dq as int;
                if dd < 0 {
                    assert((dd + nn) * (3 * nn + 1 + dd) + 2 * (2 * nn + 1 + dd) == (dd + 1 + nn)
                        * (3 * nn + 1 + dd + 1)) by (nonlinear_arith);
                } else if dd == 0 {
                    assert((dd + nn) * (3 * nn + 1 + dd) + 2 * (2 * nn + 1) == nn * (3 * nn + 1)
                        + (dd + 1) * (4 * nn + 3 - (dd + 1))) by (nonlinear_arith)
                        requires
                            dd == 0,
                    ;
                } else {
                    assert(nn * (3 * nn + 1) + dd * (4 * nn + 3 - dd) + 2 * (2 * nn + 1 - dd) == nn
                        * (3 * nn + 1) + (dd + 1) * (4 * nn + 3 - (dd + 1))) by (nonlinear_arith);
                }
                assert forall|c: Cube|
                    c.wf() && dist(self, c) <= n as int && c.q < self.q + dq + 1 implies v@.contains(
                    c,
                ) by {
                    if c.q == self.q + dq {
                        let idx = len0 + (c.r - self.r - lo);
                        assert(lo <= c.r - self.r <= hi);
                        assert(v@[idx] == c);
                    }
                }
            }
            dq = dq + 1;
        }
        proof {
            let nn = ni as int;
            assert(nn * (3 * nn + 1) + (nn + 1) * (4 * nn + 3 - (nn + 1)) == 2 * (3 * nn * nn + 3
                * nn + 1)) by (nonlinear_arith);
            assert(3 * (n as int) * (n as int) == 3 * nn * nn) by (nonlinear_arith)
                requires
                    nn == n as int,
            ;
            assert forall|k1: int, k2: int| 0 <= k1 < k2 < v@.len() implies v[k1] != v[k2] by {
                assert(v[k1].q < v[k2].q || (v[k1].q == v[k2].q && v[k1].r < v[k2].r));
            }
        }
        v
    }

    /// The coordinates at distance exactly `n` from `self`: the boundary of
    /// `disc(n)`, each listed once.
    #[verifier::loop_isolation(false)]
    pub fn ring(self, n: u32) -> (v: Vec<Cube>)
        requires
            self.wf(),
            n <= 1000,
            self.margin(n as int),
        ensures
            forall|k: int| 0 <= k < v@.len() ==> (#[trigger] v[k]).wf(),
            forall|k: int| 0 <= k < v@.len() ==> dist(self, #[trigger] v[k]) == n as int,
            forall|c: Cube| c.wf() && dist(self, c) == n as int ==> v@.contains(c),
            forall|k1: int, k2: int| 0 <= k1 < k2 < v@.len() ==> v[k1] != v[k2],
    {
        let d = self.disc(n);
        let mut v: Vec<Cube> = Vec::new();
        let mut k: usize = 0;
        while k < d.len()
            invariant
                0 <= k <= d@.len(),
                forall|j: int|
                    0 <= j < v@.len() ==> dist(self, #[trigger] v[j]) == n as int && v[j].wf(),
                forall|j: int|
                    0 <= j < v@.len() ==> exists|m: int| 0 <= m < k && #[trigger] v[j] == d[m],
                forall|m: int|
                    0 <= m < k && dist(self, #[trigger] d[m]) == n as int ==> exists|j: int|
                        0 <= j < v@.len() && v[j] == #[trigger] d[m],
                forall|k1: int, k2: int| 0 <= k1 < k2 < v@.len() ==> v[k1] != v[k2],
            decreases d@.len() - k,
        {
            let c = d[k];
            if self.distance(c) == n {
                proof {
                    assert forall|j: int| 0 <= j < v@.len() implies v@[j] != c by {
                        if v@[j] == c {
                            let m = choose|m: int| 0 <= m < k && v@[j] == d[m];
                            assert(d[m] == d[k as int]);
                            assert(false);
                        }
                    }
                }
                let ghost vpre: Seq<Cube> = v@;
                v.push(c);
                proof {
                    assert(v@[vpre.len() as int] == c);
                    assert(d@[k as int] == c);
                    assert forall|m: int|
                        0 <= m < k + 1 && dist(self, #[trigger] d[m]) == n as int implies exists|
                            j: int,
                        | 0 <= j < v@.len() && v[j] == d[m] by {
                        if m < k {
                            let j0 = choose|j: int| 0 <= j < vpre.len() && vpre[j] == d[m];
                            assert(v@[j0] == d[m]);
                        } else {
                            assert(v@[vpre.len() as int] == d[m]);
                        }
                    }
                }
            }
            k = k + 1;
        }
        proof {
            assert forall|c: Cube| c.wf() && dist(self, c) == n as int implies v@.contains(c) by {
                assert(d@.contains(c));
                let m = choose|m: int| 0 <= m < d@.len() && d@[m] == c;
                assert(dist(self, d@[m]) == n as int);
                let j = choose|j: int| 0 <= j < v@.len() && v@[j] == d@[m];
                assert(v@[j] == c);
            }
        }
        v
    }
}

/// The distance is symmetric in its arguments.
pub proof fn lemma_distance_symmetric(a: Cube, b: Cube)
    ensures
        dist(a, b) == dist(b, a),
{
}

/// The distance is zero exactly between equal coordinates, and never
/// negative.
pub proof fn lemma_distance_zero(a: Cube, b: Cube)
    ensures
        dist(a, b) >= 0,
        dist(a, b) == 0 <==> (a.q == b.q && a.r == b.r && a.s == b.s),
{
}

/// Triangle inequality for the hex distance.
pub proof fn lemma_distance_triangle(a: Cube, b: Cube, c: Cube)
    ensures
        dist(a, c) <= dist(a, b) + dist(b, c),
{
}

/// On well-formed coordinates the max form of the distance equals half the
/// sum of the component differences.
pub proof fn lemma_distance_half_sum(a: Cube, b: Cube)
    requires
        a.wf(),
        b.wf(),
    ensures
        2 * dist(a, b) == iabs(a.q - b.q) + iabs(a.r - b.r) + iabs(a.s - b.s),
{
}

/// Between well-formed coordinates, adjacency is the same as being at
/// distance exactly one.
pub proof fn lemma_adjacent_iff_distance_one(a: Cube, b: Cube)
    requires
        a.wf(),
        b.wf(),
    ensures
        adjacent(a, b) <==> dist(a, b) == 1,
{
    if adjacent(a, b) {
        let i = choose|i: int| 0 <= i < 6 && is_neighbor_at(a, b, i);
        assert(dist(a, b) == 1);
    }
    if dist(a, b) == 1 {
        let dq = b.q - a.q;
        let dr = b.r - a.r;
        if dq == 1 && dr == 0 {
            assert(is_neighbor_at(a, b, 0));
        } else if dq == 1 && dr == -1 {
            assert(is_neighbor_at(a, b, 1));
        } else if dq == 0 && dr == -1 {
            assert(is_neighbor_at(a, b, 2));
        } else if dq == -1 && dr == 0 {
            assert(is_neighbor_at(a, b, 3));
        } else if dq == -1 && dr == 1 {
            assert(is_neighbor_at(a, b, 4));
        } else {
            assert(is_neighbor_at(a, b, 5));
        }
    }
}

} // verus!
