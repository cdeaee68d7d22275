use vstd::prelude::*;

use crate::geometry::TileCoord;

verus! {

/// Bytes of the three section lengths that open a level file.
pub const HEADER_LEN: usize = 24;

/// Bytes of one background or foreground record: x, y (8 bytes each), sprite row and column
/// (2 bytes each).
pub const SPRITE_RECORD_LEN: usize = 20;

/// Bytes of one collision record: x, y (8 bytes each).
pub const TILE_RECORD_LEN: usize = 16;

/// Bytes of an entity record before its label: x, y, label length (8 bytes each).
pub const ENTITY_HEAD_LEN: usize = 24;

/// A tile and the spritesheet cell drawn on it.
#[derive(Clone, Copy, Debug, PartialEq, Eq, Structural)]
pub struct TileSprite {
    pub tile: TileCoord,
    pub sprite: TileCoord,
}

/// An entity placed on a tile, with its label's raw bytes.
#[derive(Clone, Debug)]
pub struct EntityRecord {
    pub tile: TileCoord,
    pub label: Vec<u8>,
}

/// Everything a level file holds, in file order.
#[derive(Clone, Debug)]
pub struct LevelData {
    pub background: Vec<TileSprite>,
    pub foreground: Vec<TileSprite>,
    pub collision: Vec<TileCoord>,
    pub entities: Vec<EntityRecord>,
}

/// Why a level file could not be read.
#[derive(Clone, Copy, Debug, PartialEq, Eq, Structural)]
pub enum LevelFileError {
    /// Fewer bytes than the header needs.
    MissingHeader,
    /// The three sections declared by the header run past the end of the file.
    SectionsTooLong,
    /// An entity record runs past the end of the file.
    TruncatedEntity,
}

pub open spec fn le_u16(b: Seq<u8>, at: int) -> int {
    b[at] + 256 * b[at + 1]
}

pub open spec fn le_u32(b: Seq<u8>, at: int) -> int {
    le_u16(b, at) + 0x1_0000 * le_u16(b, at + 2)
}

pub open spec fn le_u64(b: Seq<u8>, at: int) -> int {
    le_u32(b, at) + 0x1_0000_0000 * le_u32(b, at + 4)
}

/// The two's complement reading of a 16-bit value.
pub open spec fn signed16(u: int) -> int {
    if u >= 0x8000 {
        u - 0x1_0000
    } else {
        u
    }
}

/// The two's complement reading of a 32-bit value.
pub open spec fn signed32(u: int) -> int {
    if u >= 0x8000_0000 {
        u - 0x1_0000_0000
    } else {
        u
    }
}

/// Negation wrapped to 32 bits.
pub open spec fn wrapping_neg32(v: int) -> int {
    if v == i32::MIN {
        v
    } else {
        -v
    }
}

/// The tile of a record at `at`: the 64-bit `x` and the negated 64-bit `y`, each wrapped to 32
/// bits (only their low four bytes count).
pub open spec fn tile_record(b: Seq<u8>, at: int) -> TileCoord {
    TileCoord {
        x: signed32(le_u32(b, at)) as i32,
        y: wrapping_neg32(signed32(le_u32(b, at + 8))) as i32,
    }
}

pub open spec fn sprite_record(b: Seq<u8>, at: int) -> TileSprite {
    TileSprite {
        tile: tile_record(b, at),
        sprite: TileCoord {
            x: signed16(le_u16(b, at + 16)) as i32,
            y: signed16(le_u16(b, at + 18)) as i32,
        },
    }
}

/// The whole records of a section of `len` bytes at `start`; a tail shorter than a record is
/// ignored.
pub open spec fn sprite_section(b: Seq<u8>, start: int, len: int) -> Seq<TileSprite> {
    Seq::new(
        (len / SPRITE_RECORD_LEN as int) as nat,
        |i: int| sprite_record(b, start + SPRITE_RECORD_LEN * i),
    )
}

pub open spec fn tile_section(b: Seq<u8>, start: int, len: int) -> Seq<TileCoord> {
    Seq::new(
        (len / TILE_RECORD_LEN as int) as nat,
        |i: int| tile_record(b, start + TILE_RECORD_LEN * i),
    )
}

/// The entity records from `at` to the end of the file, or `None` where one runs past it.
pub open spec fn entity_records(b: Seq<u8>, at: int) -> Option<Seq<(TileCoord, Seq<u8>)>>
    decreases b.len() - at,
{
    if at >= b.len() {
        Some(Seq::empty())
    } else if at + ENTITY_HEAD_LEN > b.len() {
        None
    } else {
        let label_len = le_u64(b, at + 16);
        let end = at + ENTITY_HEAD_LEN + label_len;
        if end > b.len() {
            None
        } else {
            match entity_records(b, end) {
                Some(rest) => Some(
                    seq![(tile_record(b, at), b.subrange(at + ENTITY_HEAD_LEN, end))] + rest,
                ),
                None => None,
            }
        }
    }
}

/// Where the entity records start: after the header and the three sections.
pub open spec fn entities_start(b: Seq<u8>) -> int {
    HEADER_LEN + le_u64(b, 0) + le_u64(b, 8) + le_u64(b, 16)
}

pub open spec fn entity_view(e: EntityRecord) -> (TileCoord, Seq<u8>) {
    (e.tile, e.label@)
}

/// Reads a little-endian `u16` at `at`.
fn read_u16(b: &Vec<u8>, at: usize) -> (r: u32)
    requires
        at + 2 <= b@.len(),
    ensures
        r == le_u16(b@, at as int),
{
    let n = b.len();
    assert(at + 2 <= n);
    let b0 = b[at] as u32;
    let b1 = b[at + 1] as u32;
    b0 + b1 * 0x100
}

/// Reads a little-endian `u32` at `at`.
fn read_u32(b: &Vec<u8>, at: usize) -> (r: u64)
    requires
        at + 4 <= b@.len(),
    ensures
        r == le_u32(b@, at as int),
{
    let n = b.len();
    assert(at + 4 <= n);
    let lo = read_u16(b, at) as u64;
    let hi = read_u16(b, at + 2) as u64;
    lo + hi * 0x1_0000
}

/// Reads a little-endian `u64` at `at`.
fn read_u64(b: &Vec<u8>, at: usize) -> (r: u64)
    requires
        at + 8 <= b@.len(),
    ensures
        r == le_u64(b@, at as int),
{
    let n = b.len();
    assert(at + 8 <= n);
    let lo = read_u32(b, at);
    let hi = read_u32(b, at + 4);
    lo + hi * 0x1_0000_0000
}

/// Reads the low four bytes of a little-endian 64-bit value at `at`, as `i32`.
fn read_i32(b: &Vec<u8>, at: usize) -> (r: i32)
    requires
        at + 4 <= b@.len(),
    ensures
        r == signed32(le_u32(b@, at as int)),
{
    let u = read_u32(b, at);
    if u >= 0x8000_0000 {
        (u as i64 - 0x1_0000_0000) as i32
    } else {
        u as i32
    }
}

/// Reads a little-endian `i16` at `at`, widened to `i32`.
fn read_i16(b: &Vec<u8>, at: usize) -> (r: i32)
    requires
        at + 2 <= b@.len(),
    ensures
        r == signed16(le_u16(b@, at as int)),
{
    let u = read_u16(b, at);
    if u >= 0x8000 {
        u as i32 - 0x1_0000
    } else {
        u as i32
    }
}

fn read_tile(b: &Vec<u8>, at: usize) -> (r: TileCoord)
    requires
        at + TILE_RECORD_LEN <= b@.len(),
    ensures
        r == tile_record(b@, at as int),
{
    let n = b.len();
    assert(at + 16 <= n);
    let x = read_i32(b, at);
    let y = read_i32(b, at + 8);
    let ny = if y == i32::MIN {
        y
    } else {
        -y
    };
    TileCoord { x, y: ny }
}

fn read_sprite_section(b: &Vec<u8>, start: usize, len: usize) -> (r: Vec<TileSprite>)
    requires
        start + len <= b@.len(),
    ensures
        r@ == sprite_section(b@, start as int, len as int),
{
    let n = len / SPRITE_RECORD_LEN;
    let mut out: Vec<TileSprite> = Vec::new();
    let mut i: usize = 0;
    while i < n
        invariant
            n == len / SPRITE_RECORD_LEN,
            start + len <= b@.len(),
            i <= n,
            out@ =~= sprite_section(b@, start as int, len as int).subrange(0, i as int),
        decreases n - i,
    {
        assert(SPRITE_RECORD_LEN * (i + 1) <= len) by (nonlinear_arith)
            requires
                i < n,
                n == len / 20,
                SPRITE_RECORD_LEN == 20,
        ;
        let total = b.len();
        assert(start + SPRITE_RECORD_LEN * i + SPRITE_RECORD_LEN <= total);
        let at = start + SPRITE_RECORD_LEN * i;
        let tile = read_tile(b, at);
        let row = read_i16(b, at + 16);
        let col = read_i16(b, at + 18);
        out.push(TileSprite { tile, sprite: TileCoord { x: row, y: col } });
        i = i + 1;
    }
    out
}

fn read_tile_section(b: &Vec<u8>, start: usize, len: usize) -> (r: Vec<TileCoord>)
    requires
        start + len <= b@.len(),
    ensures
        r@ == tile_section(b@, start as int, len as int),
{
    let n = len / TILE_RECORD_LEN;
    let mut out: Vec<TileCoord> = Vec::new();
    let mut i: usize = 0;
    while i < n
        invariant
            n == len / TILE_RECORD_LEN,
            start + len <= b@.len(),
            i <= n,
            out@ =~= tile_section(b@, start as int, len as int).subrange(0, i as int),
        decreases n - i,
    {
        assert(TILE_RECORD_LEN * (i + 1) <= len) by (nonlinear_arith)
            requires
                i < n,
                n == len / 16,
                TILE_RECORD_LEN == 16,
        ;
        let total = b.len();
        assert(start + TILE_RECORD_LEN * i + TILE_RECORD_LEN <= total);
        let at = start + TILE_RECORD_LEN * i;
        out.push(read_tile(b, at));
        i = i + 1;
    }
    out
}

/// `done` followed by the records of `o`, if any.
pub open spec fn after(done: Seq<(TileCoord, Seq<u8>)>, o: Option<Seq<(TileCoord, Seq<u8>)>>) -> Option<
    Seq<(TileCoord, Seq<u8>)>,
> {
    match o {
        Some(rest) => Some(done + rest),
        None => None,
    }
}

fn copy_range(b: &Vec<u8>, from: usize, to: usize) -> (r: Vec<u8>)
    requires
        from <= to <= b@.len(),
    ensures
        r@ == b@.subrange(from as int, to as int),
{
    let mut out: Vec<u8> = Vec::new();
    let mut i = from;
    while i < to
        invariant
            from <= i <= to <= b@.len(),
            out@ =~= b@.subrange(from as int, i as int),
        decreases to - i,
    {
        out.push(b[i]);
        i = i + 1;
    }
    out
}

/// Reads the entity records from `start` to the end of the file.
fn read_entities(b: &Vec<u8>, start: usize) -> (r: Option<Vec<EntityRecord>>)
    requires
        start <= b@.len(),
    ensures
        match entity_records(b@, start as int) {
            Some(es) => r is Some && r->0@.map_values(|e: EntityRecord| entity_view(e)) == es,
            None => r is None,
        },
{
    let len = b.len();
    let mut at = start;
    let mut out: Vec<EntityRecord> = Vec::new();
    loop
        invariant
            start <= at <= len,
            len == b@.len(),
            entity_records(b@, start as int) == after(
                out@.map_values(|e: EntityRecord| entity_view(e)),
                entity_records(b@, at as int),
            ),
        decreases len - at,
    {
        if at >= len {
            proof {
                let done = out@.map_values(|e: EntityRecord| entity_view(e));
                assert(done + Seq::<(TileCoord, Seq<u8>)>::empty() =~= done);
            }
            return Some(out);
        }
        if len - at < ENTITY_HEAD_LEN {
            return None;
        }
        let label_len = read_u64(b, at + 16);
        if label_len as u128 > (len - at - ENTITY_HEAD_LEN) as u128 {
            return None;
        }
        let end = at + ENTITY_HEAD_LEN + label_len as usize;
        let tile = read_tile(b, at);
        let label = copy_range(b, at + ENTITY_HEAD_LEN, end);
        let ghost done = out@.map_values(|e: EntityRecord| entity_view(e));
        let rec = EntityRecord { tile, label };
        out.push(rec);
        proof {
            let item = (tile_record(b@, at as int), b@.subrange(at + ENTITY_HEAD_LEN, end as int));
            assert(entity_view(rec) == item);
            assert(out@.map_values(|e: EntityRecord| entity_view(e)) =~= done.push(item));
            if let Some(rest) = entity_records(b@, end as int) {
                assert(done + (seq![item] + rest) =~= done.push(item) + rest);
            }
        }
        at = end;
    }
}

/// Reads a level file: a header of three little-endian `u64` section lengths, then the
/// background records, the foreground records and the collision records (each section read
/// in whole records), then entity records to the end of the file.
pub fn parse_level(b: &Vec<u8>) -> (r: Result<LevelData, LevelFileError>)
    ensures
        b@.len() < HEADER_LEN ==> r is Err && r->Err_0 == LevelFileError::MissingHeader,
        b@.len() >= HEADER_LEN && entities_start(b@) > b@.len() ==> r is Err && r->Err_0
            == LevelFileError::SectionsTooLong,
        b@.len() >= HEADER_LEN && entities_start(b@) <= b@.len() ==> match entity_records(
            b@,
            entities_start(b@),
        ) {
            None => r is Err && r->Err_0 == LevelFileError::TruncatedEntity,
            Some(es) => r is Ok && {
                let d = r->Ok_0;
                let bg = le_u64(b@, 0);
                let fg = le_u64(b@, 8);
                let col = le_u64(b@, 16);
                &&& d.background@ == sprite_section(b@, HEADER_LEN as int, bg)
                &&& d.foreground@ == sprite_section(b@, HEADER_LEN + bg, fg)
                &&& d.collision@ == tile_section(b@, HEADER_LEN + bg + fg, col)
                &&& d.entities@.map_values(|e: EntityRecord| entity_view(e)) == es
            }
        },
{
    let len = b.len();
    if len < HEADER_LEN {
        return Err(LevelFileError::MissingHeader);
    }
    let bg = read_u64(b, 0);
    let fg = read_u64(b, 8);
    let col = read_u64(b, 16);
    if bg as u128 + fg as u128 + col as u128 > (len - HEADER_LEN) as u128 {
        return Err(LevelFileError::SectionsTooLong);
    }
    let bg_start = HEADER_LEN;
    let fg_start = bg_start + bg as usize;
    let col_start = fg_start + fg as usize;
    let entity_start = col_start + col as usize;
    let background = read_sprite_section(b, bg_start, bg as usize);
    let foreground = read_sprite_section(b, fg_start, fg as usize);
    let collision = read_tile_section(b, col_start, col as usize);
    match read_entities(b, entity_start) {
        Some(entities) => Ok(LevelData { background, foreground, collision, entities }),
        None => Err(LevelFileError::TruncatedEntity),
    }
}

} // verus!
