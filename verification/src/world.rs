use vstd::prelude::*;
use crate::hex::Cube;

verus! {

/// Terrain of a tile; always present on an existing tile.
#[derive(Clone, Copy, PartialEq, Eq, Structural, Debug)]
pub enum TileCategory {
    Farmland,
    Water,
}

impl TileCategory {
    /// Whether an army may stand on this terrain.
    pub open spec fn spec_allows_army(self) -> bool {
        self is Farmland
    }

    /// Executable form of `spec_allows_army`.
    pub fn allows_army(self) -> (r: bool)
        ensures
            r == self.spec_allows_army(),
    {
        match self {
            TileCategory::Farmland => true,
            TileCategory::Water => false,
        }
    }
}

/// A settlement or feature occupying a tile; at most one per tile.
#[derive(Clone, Copy, PartialEq, Eq, Structural, Debug)]
pub enum LocalityCategory {
    Capital,
    SatelliteCapital,
    City,
    PortCity,
    Airport,
}

/// An army unit standing on a tile.
#[derive(Clone, Copy, PartialEq, Eq, Structural, Debug)]
pub struct Army {
    pub owner_index: u32,
    pub manpower: u32,
    pub morale: u32,
    pub can_move: bool,
}

/// The full state of one tile.
#[derive(Clone, Copy, Debug)]
pub struct Tile {
    pub category: TileCategory,
    pub locality: Option<LocalityCategory>,
    pub owner_index: Option<u32>,
    pub army: Option<Army>,
}

impl Tile {
    /// A bare tile: terrain only, nothing else set.
    pub fn new(category: TileCategory) -> (t: Tile)
        ensures
            t.category == category,
            t.locality is None,
            t.owner_index is None,
            t.army is None,
    {
        Tile { category, locality: None, owner_index: None, army: None }
    }
}

/// The authoritative mapping from cube coordinate to tile state. A
/// coordinate with no entry is empty/unexplored, which is distinct from an
/// entry with unset optional fields. Keys are unique and well-formed.
pub struct World {
    tiles: Vec<(Cube, Tile)>,
}

impl World {
    /// The entries of the store, as a sequence of key/tile pairs.
    pub closed spec fn entries(self) -> Seq<(Cube, Tile)> {
        self.tiles@
    }

    /// Keys are pairwise distinct and every key satisfies the axial
    /// invariant.
    pub open spec fn wf(self) -> bool {
        (forall|i: int, j: int|
            0 <= i < j < self.entries().len() ==> (#[trigger] self.entries()[i]).0 != (
            #[trigger] self.entries()[j]).0) && (forall|i: int|
            0 <= i < self.entries().len() ==> (#[trigger] self.entries()[i]).0.wf())
    }

    /// There is a tile at `c`.
    pub open spec fn has_tile(self, c: Cube) -> bool {
        exists|i: int| 0 <= i < self.entries().len() && (#[trigger] self.entries()[i]).0 == c
    }

    /// The index of the entry holding `c`.
    pub open spec fn idx_of(self, c: Cube) -> int {
        choose|i: int| 0 <= i < self.entries().len() && (#[trigger] self.entries()[i]).0 == c
    }

    /// The tile at `c` (meaningful only when `has_tile(c)`).
    pub open spec fn tile_at(self, c: Cube) -> Tile {
        self.entries()[self.idx_of(c)].1
    }

    /// The derived ownership index: the coordinates owned by player `p`.
    /// Always equal to what a full scan of the map yields.
    pub open spec fn owner_set(self, p: u32) -> Set<Cube> {
        Set::new(|c: Cube| self.has_tile(c) && self.tile_at(c).owner_index == Some(p))
    }

    /// The derived locality index: the coordinates carrying locality `l`.
    pub open spec fn locality_set(self, l: LocalityCategory) -> Set<Cube> {
        Set::new(|c: Cube| self.has_tile(c) && self.tile_at(c).locality == Some(l))
    }

    /// An entry with key `c` at index `i` is the unique witness for `c`.
    pub proof fn lemma_at(self, c: Cube, i: int)
        requires
            self.wf(),
            0 <= i < self.entries().len(),
            self.entries()[i].0 == c,
        ensures
            self.has_tile(c),
            self.idx_of(c) == i,
            self.tile_at(c) == self.entries()[i].1,
    {
        assert(self.has_tile(c));
        let j = self.idx_of(c);
        if j < i {
            assert(self.entries()[j].0 != self.entries()[i].0);
        } else if j > i {
            assert(self.entries()[i].0 != self.entries()[j].0);
        }
    }

    /// An empty world.
    pub fn new() -> (w: World)
        ensures
            w.wf(),
            w.entries().len() == 0,
            forall|c: Cube| !w.has_tile(c),
    {
        World { tiles: Vec::new() }
    }

    /// How many tiles exist.
    pub fn len(&self) -> (n: usize)
        ensures
            n == self.entries().len(),
    {
        self.tiles.len()
    }

    /// All entries, for enumeration by renderers and persistence.
    pub fn all_tiles(&self) -> (v: &Vec<(Cube, Tile)>)
        ensures
            v@ == self.entries(),
    {
        &self.tiles
    }

    /// The index holding `c`, if any.
    fn find(&self, c: Cube) -> (r: Option<usize>)
        ensures
            match r {
                Some(i) => 0 <= i < self.entries().len() && self.entries()[i as int].0 == c,
                None => !self.has_tile(c),
            },
            self.has_tile(c) ==> r is Some,
    {
        let mut k: usize = 0;
        while k < self.tiles.len()
            invariant
                0 <= k <= self.entries().len(),
                forall|j: int| 0 <= j < k ==> (#[trigger] self.entries()[j]).0 != c,
            decreases self.entries().len() - k,
        {
            if self.tiles[k].0 == c {
                return Some(k);
            }
            k = k + 1;
        }
        None
    }

    /// Presence-checked access; absence is "no tile here", not an error.
    pub fn get(&self, c: Cube) -> (r: Option<Tile>)
        requires
            self.wf(),
        ensures
            match r {
                Some(t) => self.has_tile(c) && t == self.tile_at(c),
                None => !self.has_tile(c),
            },
    {
        match self.find(c) {
            Some(i) => {
                proof {
                    self.lemma_at(c, i as int);
                }
                Some(self.tiles[i].1)
            },
            None => None,
        }
    }

    /// If a tile exists at `c`, replaces its terrain in place, preserving
    /// locality, army and ownership; otherwise creates a bare tile with
    /// that terrain.
    pub fn upsert_terrain(&mut self, c: Cube, category: TileCategory)
        requires
            old(self).wf(),
            c.wf(),
        ensures
            final(self).wf(),
            final(self).has_tile(c),
            final(self).tile_at(c).category == category,
            old(self).has_tile(c) ==> {
                &&& final(self).tile_at(c).locality == old(self).tile_at(c).locality
                &&& final(self).tile_at(c).owner_index == old(self).tile_at(c).owner_index
                &&& final(self).tile_at(c).army == old(self).tile_at(c).army
            },
            !old(self).has_tile(c) ==> {
                &&& final(self).tile_at(c).locality is None
                &&& final(self).tile_at(c).owner_index is None
                &&& final(self).tile_at(c).army is None
            },
            forall|d: Cube|
                d != c ==> (final(self).has_tile(d) <==> old(self).has_tile(d)),
            forall|d: Cube|
                d != c && old(self).has_tile(d) ==> final(self).tile_at(d) == old(self).tile_at(
                    d,
                ),
    {
        let found = self.find(c);
        match found {
            Some(i) => {
                proof {
                    old(self).lemma_at(c, i as int);
                }
                self.tiles[i].1.category = category;
                proof {
                    self.lemma_frame(*old(self), c, i as int);
                }
            },
            None => {
                self.tiles.push((c, Tile::new(category)));
                proof {
                    self.lemma_grow(*old(self), c);
                }
            },
        }
    }

    /// Sets or clears the tile's locality; a no-op if no tile exists.
    pub fn set_locality(&mut self, c: Cube, locality: Option<LocalityCategory>)
        requires
            old(self).wf(),
        ensures
            final(self).wf(),
            forall|d: Cube| final(self).has_tile(d) <==> old(self).has_tile(d),
            !old(self).has_tile(c) ==> final(self).entries() == old(self).entries(),
            old(self).has_tile(c) ==> {
                &&& final(self).tile_at(c).locality == locality
                &&& final(self).tile_at(c).category == old(self).tile_at(c).category
                &&& final(self).tile_at(c).owner_index == old(self).tile_at(c).owner_index
                &&& final(self).tile_at(c).army == old(self).tile_at(c).army
            },
            forall|d: Cube|
                d != c && old(self).has_tile(d) ==> final(self).tile_at(d) == old(self).tile_at(
                    d,
                ),
    {
        let found = self.find(c);
        match found {
            Some(i) => {
                proof {
                    old(self).lemma_at(c, i as int);
                }
                self.tiles[i].1.locality = locality;
                proof {
                    self.lemma_frame(*old(self), c, i as int);
                }
            },
            None => {},
        }
    }

    /// Sets or clears the tile's owner; a no-op if no tile exists. The
    /// derived ownership index moves the coordinate between buckets with
    /// the same update.
    pub fn set_ownership(&mut self, c: Cube, owner_index: Option<u32>)
        requires
            old(self).wf(),
        ensures
            final(self).wf(),
            forall|d: Cube| final(self).has_tile(d) <==> old(self).has_tile(d),
            !old(self).has_tile(c) ==> final(self).entries() == old(self).entries(),
            old(self).has_tile(c) ==> {
                &&& final(self).tile_at(c).owner_index == owner_index
                &&& final(self).tile_at(c).category == old(self).tile_at(c).category
                &&& final(self).tile_at(c).locality == old(self).tile_at(c).locality
                &&& final(self).tile_at(c).army == old(self).tile_at(c).army
            },
            forall|d: Cube|
                d != c && old(self).has_tile(d) ==> final(self).tile_at(d) == old(self).tile_at(
                    d,
                ),
    {
        let found = self.find(c);
        match found {
            Some(i) => {
                proof {
                    old(self).lemma_at(c, i as int);
                }
                self.tiles[i].1.owner_index = owner_index;
                proof {
                    self.lemma_frame(*old(self), c, i as int);
                }
            },
            None => {},
        }
    }

    /// Places or removes an army on the tile; a no-op if no tile exists.
    pub fn set_army(&mut self, c: Cube, army: Option<Army>)
        requires
            old(self).wf(),
        ensures
            final(self).wf(),
            forall|d: Cube| final(self).has_tile(d) <==> old(self).has_tile(d),
            !old(self).has_tile(c) ==> final(self).entries() == old(self).entries(),
            old(self).has_tile(c) ==> {
                &&& final(self).tile_at(c).army == army
                &&& final(self).tile_at(c).category == old(self).tile_at(c).category
                &&& final(self).tile_at(c).locality == old(self).tile_at(c).locality
                &&& final(self).tile_at(c).owner_index == old(self).tile_at(c).owner_index
            },
            forall|d: Cube|
                d != c && old(self).has_tile(d) ==> final(self).tile_at(d) == old(self).tile_at(
                    d,
                ),
    {
        let found = self.find(c);
        match found {
            Some(i) => {
                proof {
                    old(self).lemma_at(c, i as int);
                }
                self.tiles[i].1.army = army;
                proof {
                    self.lemma_frame(*old(self), c, i as int);
                }
            },
            None => {},
        }
    }

    /// Appends an entry under a fresh, well-formed key; used when loading a
    /// persisted world record by record.
    pub(crate) fn push_entry(&mut self, c: Cube, t: Tile)
        requires
            old(self).wf(),
            c.wf(),
            !old(self).has_tile(c),
        ensures
            final(self).wf(),
            final(self).entries() == old(self).entries().push((c, t)),
    {
        self.tiles.push((c, t));
        proof {
            self.lemma_grow(*old(self), c);
        }
    }

    /// Removes the tile entirely: terrain, locality, army and ownership are
    /// all discarded, and the coordinate leaves every derived index.
    pub fn clear_terrain(&mut self, c: Cube)
        requires
            old(self).wf(),
        ensures
            final(self).wf(),
            !final(self).has_tile(c),
            !old(self).has_tile(c) ==> final(self).entries() == old(self).entries(),
            forall|d: Cube|
                d != c ==> (final(self).has_tile(d) <==> old(self).has_tile(d)),
            forall|d: Cube|
                d != c && old(self).has_tile(d) ==> final(self).tile_at(d) == old(self).tile_at(
                    d,
                ),
    {
        let found = self.find(c);
        match found {
            Some(i) => {
                proof {
                    old(self).lemma_at(c, i as int);
                }
                self.tiles.remove(i);
                proof {
                    self.lemma_shrink(*old(self), c, i as int);
                }
            },
            None => {},
        }
    }

    /// After an in-place update of the tile at index `i` (key unchanged),
    /// presence is unchanged everywhere and tiles at other keys are
    /// untouched.
    proof fn lemma_frame(self, pre: World, c: Cube, i: int)
        requires
            pre.wf(),
            0 <= i < pre.entries().len(),
            pre.entries()[i].0 == c,
            self.entries().len() == pre.entries().len(),
            self.entries()[i].0 == c,
            forall|j: int|
                0 <= j < pre.entries().len() && j != i ==> self.entries()[j] == pre.entries()[j],
        ensures
            self.wf(),
            self.has_tile(c),
            self.tile_at(c) == self.entries()[i].1,
            forall|d: Cube| self.has_tile(d) <==> pre.has_tile(d),
            forall|d: Cube|
                d != c && pre.has_tile(d) ==> self.tile_at(d) == pre.tile_at(d),
    {
        assert forall|j: int| 0 <= j < self.entries().len() implies (
        #[trigger] self.entries()[j]).0 == pre.entries()[j].0 by {}
        assert(self.wf());
        self.lemma_at(c, i);
        assert forall|d: Cube| pre.has_tile(d) implies self.has_tile(d) by {
            let j = pre.idx_of(d);
            assert(self.entries()[j].0 == d);
        }
        assert forall|d: Cube| self.has_tile(d) implies pre.has_tile(d) by {
            let j = self.idx_of(d);
            assert(pre.entries()[j].0 == d);
        }
        assert forall|d: Cube| d != c && pre.has_tile(d) implies self.tile_at(d) == pre.tile_at(
            d,
        ) by {
            let j = pre.idx_of(d);
            pre.lemma_at(d, j);
            self.lemma_at(d, j);
        }
    }

    /// After pushing a fresh, well-formed key, the store is still
    /// well-formed and everything else is untouched.
    proof fn lemma_grow(self, pre: World, c: Cube)
        requires
            pre.wf(),
            c.wf(),
            !pre.has_tile(c),
            self.entries().len() == pre.entries().len() + 1,
            self.entries()[pre.entries().len() as int].0 == c,
            forall|j: int|
                0 <= j < pre.entries().len() ==> self.entries()[j] == pre.entries()[j],
        ensures
            self.wf(),
            self.has_tile(c),
            self.tile_at(c) == self.entries()[pre.entries().len() as int].1,
            forall|d: Cube| d != c ==> (self.has_tile(d) <==> pre.has_tile(d)),
            forall|d: Cube|
                d != c && pre.has_tile(d) ==> self.tile_at(d) == pre.tile_at(d),
    {
        let n = pre.entries().len() as int;
        assert forall|i: int, j: int|
            0 <= i < j < self.entries().len() implies (#[trigger] self.entries()[i]).0 != (
        #[trigger] self.entries()[j]).0 by {
            if j == n {
                if self.entries()[i].0 == c {
                    assert(pre.entries()[i].0 == c);
                    assert(pre.has_tile(c));
                }
            }
        }
        assert(self.wf());
        self.lemma_at(c, n);
        assert forall|d: Cube| d != c && pre.has_tile(d) implies self.has_tile(d)
            && self.tile_at(d) == pre.tile_at(d) by {
            let j = pre.idx_of(d);
            pre.lemma_at(d, j);
            self.lemma_at(d, j);
        }
        assert forall|d: Cube| d != c && self.has_tile(d) implies pre.has_tile(d) by {
            let j = self.idx_of(d);
            assert(self.entries()[j].0 == d);
            assert(j < n);
            assert(pre.entries()[j].0 == d);
        }
    }

    /// After removing the entry at index `i`, its key is gone and every
    /// other key still maps to its old tile.
    proof fn lemma_shrink(self, pre: World, c: Cube, i: int)
        requires
            pre.wf(),
            0 <= i < pre.entries().len(),
            pre.entries()[i].0 == c,
            self.entries() == pre.entries().remove(i),
        ensures
            self.wf(),
            !self.has_tile(c),
            forall|d: Cube| d != c ==> (self.has_tile(d) <==> pre.has_tile(d)),
            forall|d: Cube|
                d != c && pre.has_tile(d) ==> self.tile_at(d) == pre.tile_at(d),
    {
        let n = pre.entries().len() as int;
        assert(self.entries().len() == n - 1);
        assert forall|j: int| 0 <= j < n - 1 implies #[trigger] self.entries()[j] == (if j < i {
            pre.entries()[j]
        } else {
            pre.entries()[j + 1]
        }) by {}
        assert(self.wf()) by {
            assert forall|j1: int, j2: int|
                0 <= j1 < j2 < self.entries().len() implies (#[trigger] self.entries()[j1]).0 != (
            #[trigger] self.entries()[j2]).0 by {}
        }
        if self.has_tile(c) {
            let j = self.idx_of(c);
            if j < i {
                assert(pre.entries()[j].0 == c);
                pre.lemma_at(c, j);
            } else {
                assert(pre.entries()[j + 1].0 == c);
                pre.lemma_at(c, j + 1);
            }
        }
        assert forall|d: Cube| d != c && pre.has_tile(d) implies self.has_tile(d)
            && self.tile_at(d) == pre.tile_at(d) by {
            let j = pre.idx_of(d);
            pre.lemma_at(d, j);
            if j < i {
                self.lemma_at(d, j);
            } else {
                assert(j != i);
                assert(self.entries()[j - 1] == pre.entries()[j]);
                self.lemma_at(d, j - 1);
            }
        }
        assert forall|d: Cube| d != c && self.has_tile(d) implies pre.has_tile(d) by {
            let j = self.idx_of(d);
            if j < i {
                assert(pre.entries()[j].0 == d);
            } else {
                assert(pre.entries()[j + 1].0 == d);
            }
        }
    }

    /// The coordinates owned by player `p`: the ownership index, recomputed
    /// by a full scan, each coordinate listed once.
    #[verifier::loop_isolation(false)]
    pub fn owned_by(&self, p: u32) -> (v: Vec<Cube>)
        requires
            self.wf(),
        ensures
            forall|c: Cube| v@.contains(c) <==> self.owner_set(p).contains(c),
            forall|k1: int, k2: int| 0 <= k1 < k2 < v@.len() ==> v[k1] != v[k2],
    {
        let mut v: Vec<Cube> = Vec::new();
        let mut k: usize = 0;
        while k < self.tiles.len()
            invariant
                0 <= k <= self.entries().len(),
                forall|j: int|
                    0 <= j < v@.len() ==> self.owner_set(p).contains(#[trigger] v[j]),
                forall|j: int|
                    0 <= j < v@.len() ==> exists|m: int|
                        0 <= m < k && #[trigger] v[j] == self.entries()[m].0,
                forall|m: int|
                    0 <= m < k && (#[trigger] self.entries()[m]).1.owner_index == Some(p)
                        ==> v@.contains(self.entries()[m].0),
                forall|k1: int, k2: int| 0 <= k1 < k2 < v@.len() ==> v[k1] != v[k2],
            decreases self.entries().len() - k,
        {
            let owned = match self.tiles[k].1.owner_index {
                Some(o) => o == p,
                None => false,
            };
            if owned {
                let c = self.tiles[k].0;
                proof {
                    self.lemma_at(c, k as int);
                    assert(self.owner_set(p).contains(c));
                    assert forall|j: int| 0 <= j < v@.len() implies v@[j] != c by {
                        if v@[j] == c {
                            let m = choose|m: int|
                                0 <= m < k && v@[j] == self.entries()[m].0;
                            assert(self.entries()[m].0 == self.entries()[k as int].0);
                        }
                    }
                }
                let ghost vpre: Seq<Cube> = v@;
                v.push(c);
                proof {
                    assert(v@[vpre.len() as int] == c);
                    assert forall|m: int|
                        0 <= m < k + 1 && (#[trigger] self.entries()[m]).1.owner_index == Some(
                            p,
                        ) implies v@.contains(self.entries()[m].0) by {
                        if m < k {
                            let j0 = choose|j: int|
                                0 <= j < vpre.len() && vpre[j] == self.entries()[m].0;
                            assert(v@[j0] == self.entries()[m].0);
                        } else {
                            assert(v@[vpre.len() as int] == self.entries()[m].0);
                        }
                    }
                }
            } else {
                proof {
                    self.lemma_at(self.entries()[k as int].0, k as int);
                }
            }
            k = k + 1;
        }
        proof {
            assert forall|c: Cube| v@.contains(c) implies self.owner_set(p).contains(c) by {
                let j = choose|j: int| 0 <= j < v@.len() && v@[j] == c;
                assert(self.owner_set(p).contains(v@[j]));
            }
            assert forall|c: Cube| self.owner_set(p).contains(c) implies v@.contains(c) by {
                let m = self.idx_of(c);
                assert(self.entries()[m].0 == c);
                assert(self.entries()[m].1.owner_index == Some(p)) by {
                    self.lemma_at(c, m);
                }
            }
        }
        v
    }

    /// The coordinates carrying locality `l`: the locality-category index,
    /// recomputed by a full scan, each coordinate listed once.
    #[verifier::loop_isolation(false)]
    pub fn with_locality(&self, l: LocalityCategory) -> (v: Vec<Cube>)
        requires
            self.wf(),
        ensures
            forall|c: Cube| v@.contains(c) <==> self.locality_set(l).contains(c),
            forall|k1: int, k2: int| 0 <= k1 < k2 < v@.len() ==> v[k1] != v[k2],
    {
        let mut v: Vec<Cube> = Vec::new();
        let mut k: usize = 0;
        while k < self.tiles.len()
            invariant
                0 <= k <= self.entries().len(),
                forall|j: int|
                    0 <= j < v@.len() ==> self.locality_set(l).contains(#[trigger] v[j]),
                forall|j: int|
                    0 <= j < v@.len() ==> exists|m: int|
                        0 <= m < k && #[trigger] v[j] == self.entries()[m].0,
                forall|m: int|
                    0 <= m < k && (#[trigger] self.entries()[m]).1.locality == Some(l)
                        ==> v@.contains(self.entries()[m].0),
                forall|k1: int, k2: int| 0 <= k1 < k2 < v@.len() ==> v[k1] != v[k2],
            decreases self.entries().len() - k,
        {
            let here = match self.tiles[k].1.locality {
                Some(x) => x == l,
                None => false,
            };
            if here {
                let c = self.tiles[k].0;
                proof {
                    self.lemma_at(c, k as int);
                    assert(self.locality_set(l).contains(c));
                    assert forall|j: int| 0 <= j < v@.len() implies v@[j] != c by {
                        if v@[j] == c {
                            let m = choose|m: int|
                                0 <= m < k && v@[j] == self.entries()[m].0;
                            assert(self.entries()[m].0 == self.entries()[k as int].0);
                        }
                    }
                }
                let ghost vpre: Seq<Cube> = v@;
                v.push(c);
                proof {
                    assert(v@[vpre.len() as int] == c);
                    assert forall|m: int|
                        0 <= m < k + 1 && (#[trigger] self.entries()[m]).1.locality == Some(
                            l,
                        ) implies v@.contains(self.entries()[m].0) by {
                        if m < k {
                            let j0 = choose|j: int|
                                0 <= j < vpre.len() && vpre[j] == self.entries()[m].0;
                            assert(v@[j0] == self.entries()[m].0);
                        } else {
                            assert(v@[vpre.len() as int] == self.entries()[m].0);
                        }
                    }
                }
            } else {
                proof {
                    self.lemma_at(self.entries()[k as int].0, k as int);
                }
            }
            k = k + 1;
        }
        proof {
            assert forall|c: Cube| v@.contains(c) implies self.locality_set(l).contains(c) by {
                let j = choose|j: int| 0 <= j < v@.len() && v@[j] == c;
                assert(self.locality_set(l).contains(v@[j]));
            }
            assert forall|c: Cube| self.locality_set(l).contains(c) implies v@.contains(c) by {
                let m = self.idx_of(c);
                assert(self.entries()[m].0 == c);
                assert(self.entries()[m].1.locality == Some(l)) by {
                    self.lemma_at(c, m);
                }
            }
        }
        v
    }
}

/// A coordinate whose tile has been cleared is in no derived index: it is
/// owned by nobody and carries no locality.
pub proof fn lemma_cleared_leaves_indices(w: World, c: Cube)
    requires
        !w.has_tile(c),
    ensures
        forall|p: u32| !(#[trigger] w.owner_set(p)).contains(c),
        forall|l: LocalityCategory| !(#[trigger] w.locality_set(l)).contains(c),
{
}

} // verus!
