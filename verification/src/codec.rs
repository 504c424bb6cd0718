use vstd::prelude::*;
use crate::hex::Cube;
use crate::world::{Army, LocalityCategory, Tile, TileCategory, World};

verus! {

/// Why a persisted world failed to load. Loading is recoverable: a failed
/// load leaves any previously loaded world untouched.
#[derive(Clone, Copy, PartialEq, Eq, Structural, Debug)]
pub enum LoadError {
    /// The data ends before the announced records do.
    Truncated,
    /// A tag byte holds a value outside its range.
    BadTag,
    /// A coordinate whose derived third component does not fit.
    BadCoordinate,
    /// The same coordinate appears twice.
    DuplicateKey,
    /// Bytes remain after the announced records.
    TrailingData,
}

/// Low byte of a 32-bit word.
pub open spec fn b0(v: u32) -> u8 {
    (v & 0xff) as u8
}

/// Second byte of a 32-bit word.
pub open spec fn b1(v: u32) -> u8 {
    ((v >> 8) & 0xff) as u8
}

/// Third byte of a 32-bit word.
pub open spec fn b2(v: u32) -> u8 {
    ((v >> 16) & 0xff) as u8
}

/// High byte of a 32-bit word.
pub open spec fn b3(v: u32) -> u8 {
    ((v >> 24) & 0xff) as u8
}

/// The 32-bit word with the given little-endian bytes.
pub open spec fn word_of(x0: u8, x1: u8, x2: u8, x3: u8) -> u32 {
    (x0 as u32) | ((x1 as u32) << 8) | ((x2 as u32) << 16) | ((x3 as u32) << 24)
}

/// Little-endian bytes of a 32-bit word.
pub open spec fn word_bytes(v: u32) -> Seq<u8> {
    seq![b0(v), b1(v), b2(v), b3(v)]
}

/// Splitting a word into bytes and reassembling them is the identity.
pub proof fn lemma_word_roundtrip(v: u32)
    ensures
        word_of(b0(v), b1(v), b2(v), b3(v)) == v,
{
    assert(((v & 0xff) as u8 as u32) | ((((v >> 8) & 0xff) as u8 as u32) << 8) | ((((v >> 16)
        & 0xff) as u8 as u32) << 16) | ((((v >> 24) & 0xff) as u8 as u32) << 24) == v)
        by (bit_vector);
}

/// A signed component, shifted into unsigned range for storage.
pub open spec fn zig(x: i32) -> u32 {
    (x + 0x8000_0000) as u32
}

/// The inverse shift.
pub open spec fn unzig(v: u32) -> i32 {
    (v - 0x8000_0000) as i32
}

/// Tag byte of a terrain category.
pub open spec fn cat_byte(c: TileCategory) -> u8 {
    match c {
        TileCategory::Farmland => 0,
        TileCategory::Water => 1,
    }
}

/// Tag byte of an optional locality: zero for none.
pub open spec fn loc_byte(l: Option<LocalityCategory>) -> u8 {
    match l {
        None => 0,
        Some(LocalityCategory::Capital) => 1,
        Some(LocalityCategory::SatelliteCapital) => 2,
        Some(LocalityCategory::City) => 3,
        Some(LocalityCategory::PortCity) => 4,
        Some(LocalityCategory::Airport) => 5,
    }
}

/// Presence flag of an optional owner.
pub open spec fn own_flag(o: Option<u32>) -> u8 {
    if o is Some {
        1
    } else {
        0
    }
}

/// Stored value of an optional owner: zero padding for none.
pub open spec fn own_val(o: Option<u32>) -> u32 {
    match o {
        Some(p) => p,
        None => 0,
    }
}

/// Presence flag of an optional army.
pub open spec fn army_flag(a: Option<Army>) -> u8 {
    if a is Some {
        1
    } else {
        0
    }
}

/// A stored field of an optional army: zero padding for none.
pub open spec fn army_owner(a: Option<Army>) -> u32 {
    match a {
        Some(x) => x.owner_index,
        None => 0,
    }
}

/// Stored manpower: zero padding for none.
pub open spec fn army_man(a: Option<Army>) -> u32 {
    match a {
        Some(x) => x.manpower,
        None => 0,
    }
}

/// Stored morale: zero padding for none.
pub open spec fn army_mor(a: Option<Army>) -> u32 {
    match a {
        Some(x) => x.morale,
        None => 0,
    }
}

/// Stored movement flag: zero padding for none.
pub open spec fn army_mv(a: Option<Army>) -> u8 {
    match a {
        Some(x) => if x.can_move {
            1
        } else {
            0
        },
        None => 0,
    }
}

/// The 29 bytes of one persisted tile record.
pub open spec fn tile_bytes(c: Cube, t: Tile) -> Seq<u8> {
    seq![
        b0(zig(c.q)),
        b1(zig(c.q)),
        b2(zig(c.q)),
        b3(zig(c.q)),
        b0(zig(c.r)),
        b1(zig(c.r)),
        b2(zig(c.r)),
        b3(zig(c.r)),
        cat_byte(t.category),
        loc_byte(t.locality),
        own_flag(t.owner_index),
        b0(own_val(t.owner_index)),
        b1(own_val(t.owner_index)),
        b2(own_val(t.owner_index)),
        b3(own_val(t.owner_index)),
        army_flag(t.army),
        b0(army_owner(t.army)),
        b1(army_owner(t.army)),
        b2(army_owner(t.army)),
        b3(army_owner(t.army)),
        b0(army_man(t.army)),
        b1(army_man(t.army)),
        b2(army_man(t.army)),
        b3(army_man(t.army)),
        b0(army_mor(t.army)),
        b1(army_mor(t.army)),
        b2(army_mor(t.army)),
        b3(army_mor(t.army)),
        army_mv(t.army),
    ]
}

/// The bytes of a sequence of records, first record first.
pub open spec fn records_bytes(s: Seq<(Cube, Tile)>) -> Seq<u8>
    decreases s.len(),
{
    if s.len() == 0 {
        Seq::empty()
    } else {
        tile_bytes(s[0].0, s[0].1) + records_bytes(s.subrange(1, s.len() as int))
    }
}

/// The persisted form of a whole world: a record count, then the records.
pub open spec fn world_bytes(s: Seq<(Cube, Tile)>) -> Seq<u8> {
    word_bytes(s.len() as u32) + records_bytes(s)
}

/// What one 29-byte record parses to.
pub open spec fn parse_tile(b: Seq<u8>) -> Result<(Cube, Tile), LoadError> {
    let q = unzig(word_of(b[0], b[1], b[2], b[3]));
    let r = unzig(word_of(b[4], b[5], b[6], b[7]));
    if !(i32::MIN <= -(q as int) - (r as int) <= i32::MAX) {
        Err(LoadError::BadCoordinate)
    } else if b[8] > 1 {
        Err(LoadError::BadTag)
    } else if b[9] > 5 {
        Err(LoadError::BadTag)
    } else if b[10] > 1 {
        Err(LoadError::BadTag)
    } else if b[15] > 1 {
        Err(LoadError::BadTag)
    } else if b[28] > 1 {
        Err(LoadError::BadTag)
    } else {
        let c = Cube { q, r, s: (-(q as int) - (r as int)) as i32 };
        let category = if b[8] == 0 {
            TileCategory::Farmland
        } else {
            TileCategory::Water
        };
        let locality = if b[9] == 0 {
            None
        } else if b[9] == 1 {
            Some(LocalityCategory::Capital)
        } else if b[9] == 2 {
            Some(LocalityCategory::SatelliteCapital)
        } else if b[9] == 3 {
            Some(LocalityCategory::City)
        } else if b[9] == 4 {
            Some(LocalityCategory::PortCity)
        } else {
            Some(LocalityCategory::Airport)
        };
        let owner_index = if b[10] == 1 {
            Some(word_of(b[11], b[12], b[13], b[14]))
        } else {
            None
        };
        let army = if b[15] == 1 {
            Some(
                Army {
                    owner_index: word_of(b[16], b[17], b[18], b[19]),
                    manpower: word_of(b[20], b[21], b[22], b[23]),
                    morale: word_of(b[24], b[25], b[26], b[27]),
                    can_move: b[28] == 1,
                },
            )
        } else {
            None
        };
        Ok((c, Tile { category, locality, owner_index, army }))
    }
}

/// A key already occurs among the entries parsed so far.
pub open spec fn has_key(s: Seq<(Cube, Tile)>, c: Cube) -> bool {
    exists|i: int| 0 <= i < s.len() && (#[trigger] s[i]).0 == c
}

/// What `k` records parse to, given the entries accumulated so far; the
/// byte sequence must end exactly where the records do.
pub open spec fn parse_records(b: Seq<u8>, k: nat, acc: Seq<(Cube, Tile)>) -> Result<
    Seq<(Cube, Tile)>,
    LoadError,
>
    decreases k,
{
    if k == 0 {
        if b.len() == 0 {
            Ok(acc)
        } else {
            Err(LoadError::TrailingData)
        }
    } else if b.len() < 29 {
        Err(LoadError::Truncated)
    } else {
        match parse_tile(b.subrange(0, 29)) {
            Err(e) => Err(e),
            Ok((c, t)) => if has_key(acc, c) {
                Err(LoadError::DuplicateKey)
            } else {
                parse_records(b.subrange(29, b.len() as int), (k - 1) as nat, acc.push((c, t)))
            },
        }
    }
}

/// What a whole persisted world parses to.
pub open spec fn parse_world(b: Seq<u8>) -> Result<Seq<(Cube, Tile)>, LoadError> {
    if b.len() < 4 {
        Err(LoadError::Truncated)
    } else {
        parse_records(
            b.subrange(4, b.len() as int),
            word_of(b[0], b[1], b[2], b[3]) as nat,
            Seq::empty(),
        )
    }
}

/// A record made from a well-formed coordinate parses back to exactly that
/// coordinate and tile.
pub proof fn lemma_tile_roundtrip(c: Cube, t: Tile)
    requires
        c.wf(),
    ensures
        parse_tile(tile_bytes(c, t)) == Ok::<(Cube, Tile), LoadError>((c, t)),
{
    lemma_word_roundtrip(zig(c.q));
    lemma_word_roundtrip(zig(c.r));
    lemma_word_roundtrip(own_val(t.owner_index));
    lemma_word_roundtrip(army_owner(t.army));
    lemma_word_roundtrip(army_man(t.army));
    lemma_word_roundtrip(army_mor(t.army));
    let b = tile_bytes(c, t);
    assert(unzig(word_of(b[0], b[1], b[2], b[3])) == c.q);
    assert(unzig(word_of(b[4], b[5], b[6], b[7])) == c.r);
}

/// A record is exactly 29 bytes, so `k` records are `29 * k` bytes.
pub proof fn lemma_records_len(s: Seq<(Cube, Tile)>)
    ensures
        records_bytes(s).len() == 29 * s.len(),
    decreases s.len(),
{
    if s.len() > 0 {
        lemma_records_len(s.subrange(1, s.len() as int));
    }
}

/// Appending one record to an encoded prefix encodes the longer prefix.
proof fn lemma_records_snoc(s: Seq<(Cube, Tile)>, k: int)
    requires
        0 <= k < s.len(),
    ensures
        records_bytes(s.subrange(0, k + 1)) == records_bytes(s.subrange(0, k)) + tile_bytes(
            s[k].0,
            s[k].1,
        ),
    decreases k,
{
    let rest = s.subrange(1, s.len() as int);
    if k == 0 {
        assert(s.subrange(0, 1).subrange(1, 1) =~= Seq::<(Cube, Tile)>::empty());
        assert(s.subrange(0, 0) =~= Seq::<(Cube, Tile)>::empty());
        assert(records_bytes(s.subrange(0, 1)) =~= records_bytes(s.subrange(0, 0)) + tile_bytes(
            s[0].0,
            s[0].1,
        ));
    } else {
        lemma_records_snoc(rest, k - 1);
        assert(s.subrange(0, k + 1).subrange(1, k + 1) =~= rest.subrange(0, k));
        assert(s.subrange(0, k).subrange(1, k) =~= rest.subrange(0, k - 1));
        assert(rest[k - 1] == s[k]);
        let t0 = tile_bytes(s[0].0, s[0].1);
        let x = records_bytes(rest.subrange(0, k - 1));
        let y = tile_bytes(s[k].0, s[k].1);
        assert(records_bytes(s.subrange(0, k + 1)) == t0 + (x + y));
        assert(records_bytes(s.subrange(0, k)) == t0 + x);
        assert(t0 + (x + y) =~= (t0 + x) + y);
    }
}

/// Parsing the encoding of `s` on top of already-accepted entries `acc`
/// succeeds and yields `acc` followed by `s`, provided all keys are
/// distinct and well-formed.
proof fn lemma_parse_records_roundtrip(s: Seq<(Cube, Tile)>, acc: Seq<(Cube, Tile)>)
    requires
        forall|i: int, j: int|
            0 <= i < j < (acc + s).len() ==> (#[trigger] (acc + s)[i]).0 != (#[trigger] (acc
                + s)[j]).0,
        forall|i: int| 0 <= i < s.len() ==> (#[trigger] s[i]).0.wf(),
    ensures
        parse_records(records_bytes(s), s.len(), acc) == Ok::<Seq<(Cube, Tile)>, LoadError>(
            acc + s,
        ),
    decreases s.len(),
{
    if s.len() == 0 {
        assert(acc + s =~= acc);
    } else {
        let c = s[0].0;
        let t = s[0].1;
        let rest = s.subrange(1, s.len() as int);
        let rb = records_bytes(s);
        lemma_records_len(rest);
        assert(rb.len() == 29 + 29 * rest.len());
        assert(rb.subrange(0, 29) =~= tile_bytes(c, t));
        assert(s[0].0.wf());
        lemma_tile_roundtrip(c, t);
        assert(parse_tile(rb.subrange(0, 29)) == Ok::<(Cube, Tile), LoadError>((c, t)));
        assert(!has_key(acc, c)) by {
            if has_key(acc, c) {
                let i = choose|i: int| 0 <= i < acc.len() && (#[trigger] acc[i]).0 == c;
                assert((acc + s)[i].0 == c);
                assert((acc + s)[acc.len() as int].0 == c);
            }
        }
        assert(rb.subrange(29, rb.len() as int) =~= records_bytes(rest));
        assert(acc.push((c, t)) + rest =~= acc + s);
        assert forall|i: int| 0 <= i < rest.len() implies (#[trigger] rest[i]).0.wf() by {
            assert(rest[i] == s[i + 1]);
        }
        lemma_parse_records_roundtrip(rest, acc.push((c, t)));
    }
}

/// Saving a world and loading the result reproduces exactly the same tile
/// set, in the same order.
pub proof fn lemma_save_load_roundtrip(s: Seq<(Cube, Tile)>)
    requires
        s.len() < 0x1_0000_0000,
        forall|i: int, j: int| 0 <= i < j < s.len() ==> (#[trigger] s[i]).0 != (#[trigger] s[j]).0,
        forall|i: int| 0 <= i < s.len() ==> (#[trigger] s[i]).0.wf(),
    ensures
        parse_world(world_bytes(s)) == Ok::<Seq<(Cube, Tile)>, LoadError>(s),
{
    let b = world_bytes(s);
    let n = s.len() as u32;
    lemma_word_roundtrip(n);
    assert(b.len() >= 4);
    assert(b[0] == b0(n) && b[1] == b1(n) && b[2] == b2(n) && b[3] == b3(n));
    assert(word_of(b[0], b[1], b[2], b[3]) == n);
    assert(b.subrange(4, b.len() as int) =~= records_bytes(s));
    assert(Seq::<(Cube, Tile)>::empty() + s =~= s);
    assert forall|i: int, j: int|
        0 <= i < j < (Seq::<(Cube, Tile)>::empty() + s).len() implies (#[trigger] (Seq::<(
            Cube,
            Tile,
        )>::empty() + s)[i]).0 != (#[trigger] (Seq::<(Cube, Tile)>::empty() + s)[j]).0 by {}
    lemma_parse_records_roundtrip(s, Seq::empty());
}

/// The little-endian word at offset `off`.
fn read_word(b: &Vec<u8>, off: usize) -> (r: u32)
    requires
        off + 4 <= b@.len(),
    ensures
        r == word_of(b@[off as int], b@[off as int + 1], b@[off as int + 2], b@[off as int + 3]),
{
    let _len: usize = b.len();
    (b[off] as u32) | ((b[off + 1] as u32) << 8u32) | ((b[off + 2] as u32) << 16u32) | ((b[off
        + 3] as u32) << 24u32)
}

/// Appends a word, low byte first.
fn push_word(out: &mut Vec<u8>, v: u32)
    ensures
        final(out)@ == old(out)@ + word_bytes(v),
{
    out.push((v & 0xff) as u8);
    out.push(((v >> 8u32) & 0xff) as u8);
    out.push(((v >> 16u32) & 0xff) as u8);
    out.push(((v >> 24u32) & 0xff) as u8);
    proof {
        assert(out@ =~= old(out)@ + word_bytes(v));
    }
}

/// The stored form of a signed component.
fn zig_exec(x: i32) -> (r: u32)
    ensures
        r == zig(x),
{
    ((x as i64) + 0x8000_0000i64) as u32
}

/// The signed component of a stored word.
fn unzig_exec(v: u32) -> (r: i32)
    ensures
        r == unzig(v),
{
    ((v as i64) - 0x8000_0000i64) as i32
}

/// Appends the 29-byte record of one tile.
#[verifier::rlimit(50)]
fn encode_tile(out: &mut Vec<u8>, c: Cube, t: &Tile)
    ensures
        final(out)@ == old(out)@ + tile_bytes(c, *t),
{
    push_word(out, zig_exec(c.q));
    push_word(out, zig_exec(c.r));
    let catb: u8 = match t.category {
        TileCategory::Farmland => 0,
        TileCategory::Water => 1,
    };
    out.push(catb);
    let locb: u8 = match t.locality {
        None => 0,
        Some(LocalityCategory::Capital) => 1,
        Some(LocalityCategory::SatelliteCapital) => 2,
        Some(LocalityCategory::City) => 3,
        Some(LocalityCategory::PortCity) => 4,
        Some(LocalityCategory::Airport) => 5,
    };
    out.push(locb);
    match t.owner_index {
        Some(p) => {
            out.push(1);
            push_word(out, p);
        },
        None => {
            out.push(0);
            push_word(out, 0);
        },
    }
    match t.army {
        Some(a) => {
            out.push(1);
            push_word(out, a.owner_index);
            push_word(out, a.manpower);
            push_word(out, a.morale);
            out.push(if a.can_move { 1 } else { 0 });
        },
        None => {
            out.push(0);
            push_word(out, 0);
            push_word(out, 0);
            push_word(out, 0);
            out.push(0);
        },
    }
    proof {
        assert(out@ =~= old(out)@ + tile_bytes(c, *t));
    }
}

/// Serializes the whole world: a record count, then one 29-byte record per
/// tile, in store order.
pub fn encode_world(w: &World) -> (out: Vec<u8>)
    requires
        w.wf(),
        w.entries().len() < 0x1_0000_0000,
    ensures
        out@ == world_bytes(w.entries()),
{
    let tiles = w.all_tiles();
    let n: usize = tiles.len();
    let mut out: Vec<u8> = Vec::new();
    push_word(&mut out, n as u32);
    let mut k: usize = 0;
    while k < n
        invariant
            0 <= k <= n,
            n == w.entries().len(),
            n < 0x1_0000_0000,
            tiles@ == w.entries(),
            out@ == word_bytes(n as u32) + records_bytes(w.entries().subrange(0, k as int)),
        decreases n - k,
    {
        let (c, t) = tiles[k];
        encode_tile(&mut out, c, &t);
        proof {
            lemma_records_snoc(w.entries(), k as int);
            assert((word_bytes(n as u32) + records_bytes(w.entries().subrange(0, k as int)))
                + tile_bytes(c, t) =~= word_bytes(n as u32) + records_bytes(
                w.entries().subrange(0, k as int + 1),
            ));
        }
        k = k + 1;
    }
    proof {
        assert(w.entries().subrange(0, n as int) =~= w.entries());
    }
    out
}

/// Parses a persisted world. Succeeds exactly on byte sequences of the
/// persisted form; each failure names what is wrong, and a failed load
/// hands the caller nothing, leaving any current world untouched.
#[verifier::loop_isolation(false)]
pub fn decode_world(bytes: &Vec<u8>) -> (r: Result<World, LoadError>)
    ensures
        match r {
            Ok(w) => w.wf() && parse_world(bytes@) == Ok::<Seq<(Cube, Tile)>, LoadError>(
                w.entries(),
            ),
            Err(e) => parse_world(bytes@) == Err::<Seq<(Cube, Tile)>, LoadError>(e),
        },
{
    if bytes.len() < 4 {
        return Err(LoadError::Truncated);
    }
    let n: u32 = read_word(bytes, 0);
    let mut w = World::new();
    proof {
        assert(w.entries() =~= Seq::<(Cube, Tile)>::empty());
    }
    let mut idx: usize = 4;
    let mut j: u32 = 0;
    while j < n
        invariant
            0 <= j <= n,
            4 <= idx <= bytes@.len(),
            w.wf(),
            parse_world(bytes@) == parse_records(
                bytes@.subrange(idx as int, bytes@.len() as int),
                (n - j) as nat,
                w.entries(),
            ),
        decreases n - j,
    {
        let ghost rest = bytes@.subrange(idx as int, bytes@.len() as int);
        let ghost idx0 = idx as int;
        if bytes.len() - idx < 29 {
            return Err(LoadError::Truncated);
        }
        proof {
            assert forall|i: int| 0 <= i < 29 implies #[trigger] rest.subrange(0, 29)[i]
                == bytes@[idx0 + i] by {}
        }
        let qw = read_word(bytes, idx);
        let rw = read_word(bytes, idx + 4);
        let q = unzig_exec(qw);
        let r = unzig_exec(rw);
        let ssum: i64 = -(q as i64) - (r as i64);
        let ghost rec = rest.subrange(0, 29);
        if !(-0x8000_0000i64 <= ssum && ssum <= 0x7fff_ffffi64) {
            return Err(LoadError::BadCoordinate);
        }
        let catb = bytes[idx + 8];
        if catb > 1 {
            return Err(LoadError::BadTag);
        }
        let locb = bytes[idx + 9];
        if locb > 5 {
            return Err(LoadError::BadTag);
        }
        let ownb = bytes[idx + 10];
        if ownb > 1 {
            return Err(LoadError::BadTag);
        }
        let armyb = bytes[idx + 15];
        if armyb > 1 {
            return Err(LoadError::BadTag);
        }
        let mvb = bytes[idx + 28];
        if mvb > 1 {
            return Err(LoadError::BadTag);
        }
        let c = Cube { q, r, s: ssum as i32 };
        let category = if catb == 0 {
            TileCategory::Farmland
        } else {
            TileCategory::Water
        };
        let locality = if locb == 0 {
            None
        } else if locb == 1 {
            Some(LocalityCategory::Capital)
        } else if locb == 2 {
            Some(LocalityCategory::SatelliteCapital)
        } else if locb == 3 {
            Some(LocalityCategory::City)
        } else if locb == 4 {
            Some(LocalityCategory::PortCity)
        } else {
            Some(LocalityCategory::Airport)
        };
        let owner_index = if ownb == 1 {
            Some(read_word(bytes, idx + 11))
        } else {
            None
        };
        let army = if armyb == 1 {
            Some(
                Army {
                    owner_index: read_word(bytes, idx + 16),
                    manpower: read_word(bytes, idx + 20),
                    morale: read_word(bytes, idx + 24),
                    can_move: mvb == 1,
                },
            )
        } else {
            None
        };
        let tile = Tile { category, locality, owner_index, army };
        proof {
            assert(parse_tile(rec) == Ok::<(Cube, Tile), LoadError>((c, tile)));
        }
        let dup = match w.get(c) {
            Some(_) => true,
            None => false,
        };
        proof {
            assert(has_key(w.entries(), c) == w.has_tile(c)) by {
                if has_key(w.entries(), c) {
                    assert(w.has_tile(c));
                }
                if w.has_tile(c) {
                    assert(has_key(w.entries(), c));
                }
            }
        }
        if dup {
            return Err(LoadError::DuplicateKey);
        }
        w.push_entry(c, tile);
        proof {
            assert(rest.subrange(29, rest.len() as int) =~= bytes@.subrange(
                idx0 + 29,
                bytes@.len() as int,
            ));
        }
        idx = idx + 29;
        j = j + 1;
    }
    if idx != bytes.len() {
        return Err(LoadError::TrailingData);
    }
    Ok(w)
}

} // verus!
