//! Records in a file, each behind its length.

use crate::hashed::{
    bytes_at, tile_bytes_insert, tile_bytes_new, tile_bytes_remove, TileBytes,
};
use crate::tile_loader::TileCoord;
use vstd::prelude::*;
use vstd::slice::slice_subrange;
use vstd::slice::slice_to_vec;

verus! {

/// A length as four bytes, the lowest first.
pub open spec fn le_bytes(n: int) -> Seq<u8> {
    seq![
        (n % 256) as u8,
        (n / 256 % 256) as u8,
        (n / 65536 % 256) as u8,
        (n / 16777216 % 256) as u8,
    ]
}

/// The length that four bytes give, the lowest first.
pub open spec fn le_value(b: Seq<u8>) -> int {
    b[0] + 256 * b[1] + 65536 * b[2] + 16777216 * b[3]
}

/// A record behind its length.
pub open spec fn frame(record: Seq<u8>) -> Seq<u8> {
    le_bytes(record.len() as int) + record
}

/// Records, each behind its length, one after another.
pub open spec fn frames(records: Seq<Seq<u8>>) -> Seq<u8>
    decreases records.len(),
{
    if records.len() == 0 {
        Seq::empty()
    } else {
        frame(records.first()) + frames(records.drop_first())
    }
}

/// The records that bytes hold. Reading ends where no length is left; a record that is cut short makes
/// the whole unreadable.
pub open spec fn unframed(bytes: Seq<u8>) -> Option<Seq<Seq<u8>>>
    decreases bytes.len(),
{
    if bytes.len() < 4 {
        Some(Seq::empty())
    } else {
        let n = le_value(bytes);
        if bytes.len() < 4 + n {
            None
        } else {
            match unframed(bytes.skip(4 + n)) {
                None => None,
                Some(rest) => Some(seq![bytes.subrange(4, 4 + n)] + rest),
            }
        }
    }
}

proof fn lemma_le(n: int)
    requires
        0 <= n <= u32::MAX,
    ensures
        le_bytes(n).len() == 4,
        le_value(le_bytes(n)) == n,
{
}

/// What has been written is read back: records come out as they went in, whatever stray bytes, too few
/// for a length, follow them.
pub proof fn lemma_round_trip(records: Seq<Seq<u8>>, stray: Seq<u8>)
    requires
        forall|i: int| 0 <= i < records.len() ==> (#[trigger] records[i]).len() <= u32::MAX,
        stray.len() < 4,
    ensures
        unframed(frames(records) + stray) == Some(records),
    decreases records.len(),
{
    if records.len() == 0 {
        assert(frames(records) + stray =~= stray);
        assert(records =~= Seq::<Seq<u8>>::empty());
    } else {
        let first = records.first();
        let rest = records.drop_first();
        let n = first.len() as int;
        assert(records[0].len() <= u32::MAX);
        lemma_le(n);
        let all = frames(records) + stray;
        assert(all =~= le_bytes(n) + first + frames(rest) + stray);
        assert(all[0] == le_bytes(n)[0] && all[1] == le_bytes(n)[1] && all[2] == le_bytes(n)[2]
            && all[3] == le_bytes(n)[3]);
        assert(le_value(all) == n);
        assert(all.subrange(4, 4 + n) =~= first);
        assert(all.skip(4 + n) =~= frames(rest) + stray);
        assert forall|i: int| 0 <= i < rest.len() implies (#[trigger] rest[i]).len() <= u32::MAX by {
            assert(rest[i] == records[i + 1]);
        }
        lemma_round_trip(rest, stray);
        assert(seq![first] + rest =~= records);
    }
}

/// Appends a record behind its length.
pub fn write_record(out: &mut Vec<u8>, record: &Vec<u8>)
    requires
        record@.len() <= u32::MAX,
    ensures
        final(out)@ == old(out)@ + frame(record@),
{
    let n: usize = record.len();
    let ghost before = out@;
    out.push((n % 256) as u8);
    out.push((n / 256 % 256) as u8);
    out.push((n / 65536 % 256) as u8);
    out.push((n / 16777216 % 256) as u8);
    assert(out@ =~= before + le_bytes(n as int));
    out.extend_from_slice(record.as_slice());
    assert(out@ =~= before + frame(record@));
}

/// A record is cut short.
#[derive(Debug, Clone, Copy, PartialEq, Eq)]
pub struct TruncatedRecord;

/// The records that bytes hold, unless one is cut short.
pub fn split_records(bytes: &Vec<u8>) -> (r: Result<Vec<Vec<u8>>, TruncatedRecord>)
    ensures
        match r {
            Ok(v) => unframed(bytes@) is Some && v@.len() == unframed(bytes@)->0.len() && forall|
                i: int,
            |
                #![trigger v@[i]]
                0 <= i < v@.len() ==> v@[i]@ == unframed(bytes@)->0[i],
            Err(_) => unframed(bytes@) is None,
        },
{
    let mut r: Vec<Vec<u8>> = Vec::new();
    let mut at: usize = 0;
    let ghost mut views = Seq::<Seq<u8>>::empty();
    assert(bytes@.skip(0) =~= bytes@);
    loop
        invariant
            at <= bytes@.len(),
            views.len() == r@.len(),
            forall|i: int| #![trigger r@[i]] 0 <= i < r@.len() ==> r@[i]@ == views[i],
            match unframed(bytes@.skip(at as int)) {
                None => unframed(bytes@) is None,
                Some(rest) => unframed(bytes@) == Some(views + rest),
            },
        decreases bytes@.len() - at,
    {
        let left: usize = bytes.len() - at;
        let ghost tail = bytes@.skip(at as int);
        if left < 4 {
            assert(unframed(bytes@) == Some(views));
            return Ok(r);
        }
        let n: u64 = (bytes[at] as u64) + 256 * (bytes[at + 1] as u64) + 65536 * (bytes[at
            + 2] as u64) + 16777216 * (bytes[at + 3] as u64);
        assert(tail[0] == bytes@[at as int] && tail[1] == bytes@[at + 1] && tail[2] == bytes@[at
            + 2] && tail[3] == bytes@[at + 3]);
        assert(n == le_value(tail));
        if ((left - 4) as u64) < n {
            return Err(TruncatedRecord);
        }
        let len: usize = n as usize;
        let record = slice_to_vec(slice_subrange(bytes.as_slice(), at + 4, at + 4 + len));
        proof {
            assert(record@ =~= tail.subrange(4, 4 + n));
            assert(tail.skip(4 + n) =~= bytes@.skip(at + 4 + n));
            let ghost v0 = views;
            views = views.push(record@);
            if unframed(tail.skip(4 + n)) is Some {
                let rest = unframed(tail.skip(4 + n))->0;
                assert(v0 + (seq![record@] + rest) =~= views + rest);
            }
        }
        r.push(record);
        at = at + 4 + len;
    }
}

/// How many bytes a tile's buffer may hold before it is written.
pub const MAX_TILE_BUFFER_SIZE: usize = 8_388_608;

/// Bytes on their way to the files of tiles.
pub struct TileBuffers {
    pub buffers: TileBytes,
}

/// What a tile's buffer holds.
pub open spec fn buffered(m: TileBytes, t: TileCoord) -> Seq<u8> {
    if bytes_at(m).contains_key((t.x, t.y)) {
        bytes_at(m)[(t.x, t.y)]
    } else {
        Seq::empty()
    }
}

impl TileBuffers {
    /// Empty buffers.
    pub fn new() -> (r: Self)
        ensures
            forall|t: TileCoord| #[trigger] buffered(r.buffers, t) == Seq::<u8>::empty(),
    {
        TileBuffers { buffers: tile_bytes_new() }
    }

    /// Appends a record to a tile's buffer. If the buffer gets too full, its bytes are handed out, to be
    /// written to the tile's file, and it starts anew.
    pub fn append(&mut self, tile: TileCoord, record: &Vec<u8>) -> (r: Option<Vec<u8>>)
        requires
            record@.len() <= u32::MAX,
        ensures
            ({
                let all = buffered(old(self).buffers, tile) + frame(record@);
                match r {
                    Some(data) => all.len() > MAX_TILE_BUFFER_SIZE && data@ == all && buffered(
                        final(self).buffers,
                        tile,
                    ) == Seq::<u8>::empty(),
                    None => all.len() <= MAX_TILE_BUFFER_SIZE && buffered(
                        final(self).buffers,
                        tile,
                    ) == all,
                }
            }),
            forall|t: TileCoord|
                t != tile ==> #[trigger] buffered(final(self).buffers, t) == buffered(
                    old(self).buffers,
                    t,
                ),
    {
        let key = (tile.x, tile.y);
        let mut data: Vec<u8> = match tile_bytes_remove(&mut self.buffers, key) {
            Some(v) => v,
            None => Vec::new(),
        };
        write_record(&mut data, record);
        if data.len() > MAX_TILE_BUFFER_SIZE {
            return Some(data);
        }
        tile_bytes_insert(&mut self.buffers, key, data);
        None
    }

    /// Hands out what a tile's buffer holds, to be written to the tile's file.
    pub fn take(&mut self, tile: TileCoord) -> (r: Vec<u8>)
        ensures
            r@ == buffered(old(self).buffers, tile),
            buffered(final(self).buffers, tile) == Seq::<u8>::empty(),
            forall|t: TileCoord|
                t != tile ==> #[trigger] buffered(final(self).buffers, t) == buffered(
                    old(self).buffers,
                    t,
                ),
    {
        match tile_bytes_remove(&mut self.buffers, (tile.x, tile.y)) {
            Some(v) => v,
            None => Vec::new(),
        }
    }
}

/// A record stands behind its length, which takes four bytes, the lowest first.
pub proof fn lemma_frame(record: Seq<u8>)
    requires
        record.len() <= u32::MAX,
    ensures
        frame(record).len() == 4 + record.len(),
        frame(record).skip(4) == record,
        forall|k: int|
            #![trigger frame(record)[k]]
            0 <= k < 4 ==> frame(record)[k] == (record.len() as int / vstd::arithmetic::power::pow(
                256,
                k as nat,
            )) % 256,
{
    let n = record.len() as int;
    assert(frame(record).skip(4) =~= record);
    reveal_with_fuel(vstd::arithmetic::power::pow, 5);
    assert(vstd::arithmetic::power::pow(256, 0) == 1);
    assert(vstd::arithmetic::power::pow(256, 1) == 256);
    assert(vstd::arithmetic::power::pow(256, 2) == 65536);
    assert(vstd::arithmetic::power::pow(256, 3) == 16777216);
    assert forall|k: int| #![trigger frame(record)[k]] 0 <= k < 4 implies frame(record)[k] == (n
        / vstd::arithmetic::power::pow(256, k as nat)) % 256 by {
        assert(k == 0 || k == 1 || k == 2 || k == 3);
        assert(n / 1 == n);
    }
}

} // verus!
