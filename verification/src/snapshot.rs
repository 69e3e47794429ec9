//! The snapshot format of the index.
//!
//! A snapshot is the magic `KVINDEX3`, the number of entries as a
//! little-endian `u64`, then for each entry: the key's length (`u32`) and
//! UTF-8 bytes, shard, offset and size (`u64` each), the hash's length
//! (`u32`) and UTF-8 bytes, and the expiry time (`u64`, zero for none).
//! Snapshots of the older format `KVINDEX2`, without expiry times, are read too.

use crate::codec::{append_bytes, append_u32_le, append_u64_le, read_u32_le, read_u64_le, copy_range, string_bytes, string_from_utf8, u32_at, u64_at};
use crate::error::Error;
use crate::index::{BlobLocation, Index, LocView};
use vstd::bytes::*;
use vstd::prelude::*;
use vstd::utf8::*;

verus! {

/// The magic of the current format, "KVINDEX3".
pub open spec fn magic_v3() -> Seq<u8> {
    seq![75u8, 86u8, 73u8, 78u8, 68u8, 69u8, 88u8, 51u8]
}

/// The magic of the format without expiry times, "KVINDEX2".
pub open spec fn magic_v2() -> Seq<u8> {
    seq![75u8, 86u8, 73u8, 78u8, 68u8, 69u8, 88u8, 50u8]
}

/// The bytes of one entry.
pub open spec fn encode_entry(k: Seq<char>, l: LocView) -> Seq<u8> {
    let kb = encode_utf8(k);
    let hb = encode_utf8(l.blake3);
    spec_u32_to_le_bytes(kb.len() as u32) + kb + spec_u64_to_le_bytes(l.shard)
        + spec_u64_to_le_bytes(l.offset) + spec_u64_to_le_bytes(l.size) + spec_u32_to_le_bytes(
        hb.len() as u32,
    ) + hb + spec_u64_to_le_bytes(
        match l.expires_at {
            Some(e) => e,
            None => 0,
        },
    )
}

/// The bytes of the first `n` entries.
pub open spec fn encode_entries(keys: Seq<Seq<char>>, locs: Seq<LocView>, n: int) -> Seq<u8>
    decreases n,
{
    if n <= 0 {
        Seq::empty()
    } else {
        encode_entries(keys, locs, n - 1) + encode_entry(keys[n - 1], locs[n - 1])
    }
}

/// The snapshot of an index whose entries are `keys` and `locs`, in that order.
pub open spec fn encode_index(keys: Seq<Seq<char>>, locs: Seq<LocView>) -> Seq<u8> {
    magic_v3() + spec_u64_to_le_bytes(keys.len() as u64) + encode_entries(keys, locs, keys.len() as int)
}

/// Why a snapshot could not be read.
#[derive(Debug, Clone, Copy, PartialEq, Eq, Structural)]
pub enum SnapshotError {
    /// The bytes end before the snapshot does.
    UnexpectedEof,
    /// The snapshot does not start with a known magic.
    InvalidMagic,
    /// A key is not valid UTF-8.
    InvalidKeyUtf8,
    /// A hash is not valid UTF-8.
    InvalidHashUtf8,
}

/// The entry that starts at `pos`, and where the next one starts.
pub open spec fn parse_entry(b: Seq<u8>, pos: int, ttl: bool) -> Result<
    (Seq<char>, LocView, int),
    SnapshotError,
> {
    if pos + 4 > b.len() {
        Err(SnapshotError::UnexpectedEof)
    } else {
        let klen = u32_at(b, pos) as int;
        let p1 = pos + 4;
        if p1 + klen > b.len() {
            Err(SnapshotError::UnexpectedEof)
        } else if !valid_utf8(b.subrange(p1, p1 + klen)) {
            Err(SnapshotError::InvalidKeyUtf8)
        } else {
            let p2 = p1 + klen;
            if p2 + 28 > b.len() {
                Err(SnapshotError::UnexpectedEof)
            } else {
                let hlen = u32_at(b, p2 + 24) as int;
                let p3 = p2 + 28;
                if p3 + hlen > b.len() {
                    Err(SnapshotError::UnexpectedEof)
                } else if !valid_utf8(b.subrange(p3, p3 + hlen)) {
                    Err(SnapshotError::InvalidHashUtf8)
                } else {
                    let p4 = p3 + hlen;
                    if ttl && p4 + 8 > b.len() {
                        Err(SnapshotError::UnexpectedEof)
                    } else {
                        let ts = if ttl {
                            u64_at(b, p4)
                        } else {
                            0
                        };
                        let loc = LocView {
                            shard: u64_at(b, p2),
                            offset: u64_at(b, p2 + 8),
                            size: u64_at(b, p2 + 16),
                            blake3: decode_utf8(b.subrange(p3, p3 + hlen)),
                            expires_at: if ts == 0 {
                                None
                            } else {
                                Some(ts)
                            },
                        };
                        Ok(
                            (
                                decode_utf8(b.subrange(p1, p1 + klen)),
                                loc,
                                if ttl {
                                    p4 + 8
                                } else {
                                    p4
                                },
                            ),
                        )
                    }
                }
            }
        }
    }
}

/// The `count` entries that start at `pos`, and where the last one ends.
pub open spec fn parse_entries(b: Seq<u8>, pos: int, count: nat, ttl: bool) -> Result<
    (Seq<(Seq<char>, LocView)>, int),
    SnapshotError,
>
    decreases count,
{
    if count == 0 {
        Ok((Seq::empty(), pos))
    } else {
        match parse_entry(b, pos, ttl) {
            Err(e) => Err(e),
            Ok((k, l, p)) => match parse_entries(b, p, (count - 1) as nat, ttl) {
                Err(e) => Err(e),
                Ok((rest, q)) => Ok((seq![(k, l)] + rest, q)),
            },
        }
    }
}

/// The entries a snapshot holds, in order (bytes after the last entry are ignored).
pub open spec fn parse_snapshot(b: Seq<u8>) -> Result<Seq<(Seq<char>, LocView)>, SnapshotError> {
    if b.len() < 8 {
        Err(SnapshotError::UnexpectedEof)
    } else if b.subrange(0, 8) != magic_v3() && b.subrange(0, 8) != magic_v2() {
        Err(SnapshotError::InvalidMagic)
    } else if b.len() < 16 {
        Err(SnapshotError::UnexpectedEof)
    } else {
        match parse_entries(b, 16, u64_at(b, 8) as nat, b.subrange(0, 8) == magic_v3()) {
            Err(e) => Err(e),
            Ok((entries, _)) => Ok(entries),
        }
    }
}

/// The map made by inserting `entries` in order (a later entry for a key wins).
pub open spec fn entries_to_map(entries: Seq<(Seq<char>, LocView)>) -> Map<Seq<char>, LocView>
    decreases entries.len(),
{
    if entries.len() == 0 {
        Map::empty()
    } else {
        entries_to_map(entries.drop_last()).insert(entries.last().0, entries.last().1)
    }
}

/// The entries `keys[i]`, `locs[i]` in order.
pub open spec fn entry_seq(keys: Seq<Seq<char>>, locs: Seq<LocView>) -> Seq<(Seq<char>, LocView)> {
    Seq::new(keys.len(), |i: int| (keys[i], locs[i]))
}

/// The message of a snapshot error, as the store reports it.
pub open spec fn snapshot_error_text(e: SnapshotError) -> Seq<char> {
    match e {
        SnapshotError::UnexpectedEof => "failed to fill whole buffer"@,
        SnapshotError::InvalidMagic => "Invalid snapshot magic"@,
        SnapshotError::InvalidKeyUtf8 => "Invalid UTF-8 in key"@,
        SnapshotError::InvalidHashUtf8 => "Invalid UTF-8 in hash"@,
    }
}

impl SnapshotError {
    /// The store error that reports this snapshot error: running out of bytes is an
    /// I/O error, the rest are corruption.
    pub fn to_error(&self) -> (r: Error)
        ensures
            match r {
                Error::Io(m) => *self is UnexpectedEof && m@ == snapshot_error_text(*self),
                Error::Corrupted(m) => !(*self is UnexpectedEof) && m@ == snapshot_error_text(
                    *self,
                ),
                _ => false,
            },
    {
        match self {
            SnapshotError::UnexpectedEof => Error::Io("failed to fill whole buffer".to_owned()),
            SnapshotError::InvalidMagic => Error::Corrupted("Invalid snapshot magic".to_owned()),
            SnapshotError::InvalidKeyUtf8 => Error::Corrupted("Invalid UTF-8 in key".to_owned()),
            SnapshotError::InvalidHashUtf8 => Error::Corrupted("Invalid UTF-8 in hash".to_owned()),
        }
    }
}

fn append_magic_v3(out: &mut Vec<u8>)
    ensures
        final(out)@ == old(out)@ + magic_v3(),
{
    out.push(75u8);
    out.push(86u8);
    out.push(73u8);
    out.push(78u8);
    out.push(68u8);
    out.push(69u8);
    out.push(88u8);
    out.push(51u8);
    assert(out@ =~= old(out)@ + magic_v3());
}

fn append_entry(out: &mut Vec<u8>, key: &String, loc: &BlobLocation)
    ensures
        final(out)@ == old(out)@ + encode_entry(key@, loc@),
{
    let kb = string_bytes(key.as_str());
    append_u32_le(out, kb.len() as u32);
    append_bytes(out, kb);
    append_u64_le(out, loc.shard);
    append_u64_le(out, loc.offset);
    append_u64_le(out, loc.size);
    let hb = string_bytes(loc.blake3.as_str());
    append_u32_le(out, hb.len() as u32);
    append_bytes(out, hb);
    let ts = match loc.expires_at {
        Some(e) => e,
        None => 0,
    };
    append_u64_le(out, ts);
    assert(out@ =~= old(out)@ + encode_entry(key@, loc@));
}

impl Index {
    /// The snapshot of this index, its entries in entry order.
    ///
    /// Reading it back (`decode_snapshot`) gives this index again, except
    /// that an expiry time of zero comes back as no expiry, as long as no key
    /// or hash is longer than `u32::MAX` bytes.
    pub fn encode_snapshot(&self) -> (r: Vec<u8>)
        ensures
            r@ == encode_index(self.key_seq(), self.loc_seq()),
            self.lists_entries(),
            sizes_fit(self.key_seq(), self.loc_seq()) ==> (parse_snapshot(r@) matches Ok(es)
                && entries_to_map(es) == self@.map_values(|l: LocView| stored_loc(l))),
    {
        proof {
            use_type_invariant(self);
            if sizes_fit(self.key_seq(), self.loc_seq()) {
                lemma_snapshot_roundtrip(self);
            }
        }
        let entries = self.iter();
        let n = entries.len();
        let mut out: Vec<u8> = Vec::new();
        append_magic_v3(&mut out);
        append_u64_le(&mut out, n as u64);
        let ghost head = out@;
        let mut i: usize = 0;
        while i < n
            invariant
                n == entries@.len(),
                n == self.key_seq().len(),
                forall|j: int|
                    0 <= j < n ==> #[trigger] entries@[j].0@ == self.key_seq()[j] && entries@[j].1@
                        == self.loc_seq()[j],
                i <= n,
                out@ == head + encode_entries(self.key_seq(), self.loc_seq(), i as int),
            decreases n - i,
        {
            let (k, l) = entries[i];
            append_entry(&mut out, k, l);
            i = i + 1;
            assert(out@ =~= head + encode_entries(self.key_seq(), self.loc_seq(), i as int));
        }
        out
    }
}

/// Whether an exec decoding result matches the spec parse of one entry.
pub open spec fn entry_result_matches(
    r: Result<(String, BlobLocation, usize), SnapshotError>,
    s: Result<(Seq<char>, LocView, int), SnapshotError>,
) -> bool {
    match s {
        Ok((k, l, p)) => r matches Ok((rk, rl, rp)) && rk@ == k && rl@ == l && rp == p,
        Err(e) => r == Err::<(String, BlobLocation, usize), SnapshotError>(e),
    }
}

fn decode_entry(b: &[u8], pos: usize, ttl: bool) -> (r: Result<(String, BlobLocation, usize), SnapshotError>)
    requires
        pos <= b@.len(),
    ensures
        entry_result_matches(r, parse_entry(b@, pos as int, ttl)),
        r matches Ok((_, _, p)) ==> pos < p <= b@.len(),
{
    let n = b.len();
    if n - pos < 4 {
        return Err(SnapshotError::UnexpectedEof);
    }
    let klen = read_u32_le(b, pos) as usize;
    let p1 = pos + 4;
    if n - p1 < klen {
        return Err(SnapshotError::UnexpectedEof);
    }
    let kbytes = copy_range(b, p1, p1 + klen);
    let key = match string_from_utf8(kbytes) {
        Some(k) => k,
        None => {
            return Err(SnapshotError::InvalidKeyUtf8);
        },
    };
    let p2 = p1 + klen;
    if n - p2 < 28 {
        return Err(SnapshotError::UnexpectedEof);
    }
    let shard = read_u64_le(b, p2);
    let offset = read_u64_le(b, p2 + 8);
    let size = read_u64_le(b, p2 + 16);
    let hlen = read_u32_le(b, p2 + 24) as usize;
    let p3 = p2 + 28;
    if n - p3 < hlen {
        return Err(SnapshotError::UnexpectedEof);
    }
    let hbytes = copy_range(b, p3, p3 + hlen);
    let blake3 = match string_from_utf8(hbytes) {
        Some(h) => h,
        None => {
            return Err(SnapshotError::InvalidHashUtf8);
        },
    };
    let p4 = p3 + hlen;
    let mut end = p4;
    let mut ts: u64 = 0;
    if ttl {
        if n - p4 < 8 {
            return Err(SnapshotError::UnexpectedEof);
        }
        ts = read_u64_le(b, p4);
        end = p4 + 8;
    }
    let expires_at = if ts == 0 {
        None
    } else {
        Some(ts)
    };
    Ok((key, BlobLocation { shard, offset, size, blake3, expires_at }, end))
}

/// The spec parse result with `prefix` put before the entries.
pub open spec fn with_prefix(
    prefix: Seq<(Seq<char>, LocView)>,
    r: Result<(Seq<(Seq<char>, LocView)>, int), SnapshotError>,
) -> Result<(Seq<(Seq<char>, LocView)>, int), SnapshotError> {
    match r {
        Ok((rest, q)) => Ok((prefix + rest, q)),
        Err(e) => Err(e),
    }
}

impl Index {
    /// Reads an index back from a snapshot. Entries are inserted in the
    /// order they appear; bytes after the last entry are ignored.
    pub fn decode_snapshot(b: &[u8]) -> (r: Result<Index, SnapshotError>)
        ensures
            match parse_snapshot(b@) {
                Ok(entries) => r matches Ok(idx) && idx@ == entries_to_map(entries),
                Err(e) => r matches Err(re) && re == e,
            },
    {
        let n = b.len();
        if n < 8 {
            return Err(SnapshotError::UnexpectedEof);
        }
        let is_v3 = b[0] == 75u8 && b[1] == 86u8 && b[2] == 73u8 && b[3] == 78u8 && b[4] == 68u8
            && b[5] == 69u8 && b[6] == 88u8 && b[7] == 51u8;
        let is_v2 = b[0] == 75u8 && b[1] == 86u8 && b[2] == 73u8 && b[3] == 78u8 && b[4] == 68u8
            && b[5] == 69u8 && b[6] == 88u8 && b[7] == 50u8;
        proof {
            let m = b@.subrange(0, 8);
            assert(is_v3 == (m =~= magic_v3()));
            assert(is_v2 == (m =~= magic_v2()));
        }
        if !is_v2 && !is_v3 {
            return Err(SnapshotError::InvalidMagic);
        }
        if n < 16 {
            return Err(SnapshotError::UnexpectedEof);
        }
        let count = read_u64_le(b, 8);
        let ghost total = parse_entries(b@, 16, count as nat, is_v3);
        proof {
            assert(count == u64_at(b@, 8));
            assert(parse_snapshot(b@) == match total {
                Err(e) => Err(e),
                Ok((entries, _)) => Ok::<Seq<(Seq<char>, LocView)>, SnapshotError>(entries),
            });
        }
        let mut index = Index::new();
        let mut pos: usize = 16;
        let mut i: u64 = 0;
        let ghost mut done: Seq<(Seq<char>, LocView)> = Seq::empty();
        assert(with_prefix(done, total) =~= total) by {
            match total {
                Ok((rest, q)) => {
                    assert(done + rest =~= rest);
                },
                Err(_) => {},
            }
        }
        while i < count
            invariant
                n == b@.len(),
                16 <= pos <= n,
                i <= count,
                total == parse_entries(b@, 16, count as nat, is_v3),
                parse_snapshot(b@) == match total {
                    Err(e) => Err(e),
                    Ok((entries, _)) => Ok::<Seq<(Seq<char>, LocView)>, SnapshotError>(entries),
                },
                total == with_prefix(done, parse_entries(b@, pos as int, (count - i) as nat, is_v3)),
                index@ == entries_to_map(done),
            decreases count - i,
        {
            let ghost rem = (count - i) as nat;
            match decode_entry(b, pos, is_v3) {
                Err(e) => {
                    assert(total == Err::<(Seq<(Seq<char>, LocView)>, int), SnapshotError>(e));
                    return Err(e);
                },
                Ok((key, loc, next)) => {
                    let ghost kv = (key@, loc@);
                    let ghost rest_res = parse_entries(b@, next as int, (rem - 1) as nat, is_v3);
                    proof {
                        assert(parse_entries(b@, pos as int, rem, is_v3) == match rest_res {
                            Err(e) => Err(e),
                            Ok((rest, q)) => Ok((seq![kv] + rest, q)),
                        });
                        match rest_res {
                            Ok((rest, q)) => {
                                assert(done + (seq![kv] + rest) =~= done.push(kv) + rest);
                            },
                            Err(_) => {},
                        }
                    }
                    index.insert(key, loc);
                    proof {
                        let nd = done.push(kv);
                        assert(nd.drop_last() =~= done);
                        done = nd;
                    }
                    pos = next;
                    i = i + 1;
                },
            }
        }
        proof {
            assert(parse_entries(b@, pos as int, 0, is_v3) == Ok::<(Seq<(Seq<char>, LocView)>, int), SnapshotError>((Seq::empty(), pos as int)));
            assert(done + Seq::<(Seq<char>, LocView)>::empty() =~= done);
        }
        Ok(index)
    }
}

/// Whether entries can go through a snapshot unchanged: there are at most
/// `u64::MAX` of them, every key and hash is at most `u32::MAX` bytes long,
/// and no expiry time is zero (zero stands for "no expiry").
pub open spec fn fits_format(keys: Seq<Seq<char>>, locs: Seq<LocView>) -> bool {
    &&& keys.len() == locs.len()
    &&& keys.len() <= u64::MAX
    &&& forall|i: int|
        0 <= i < keys.len() ==> encode_utf8(#[trigger] keys[i]).len() <= u32::MAX
            && encode_utf8(locs[i].blake3).len() <= u32::MAX
            && locs[i].expires_at != Some(0u64)
}

/// Whether entries can be written to a snapshot without a length being cut:
/// there are at most `u64::MAX` of them, and every key and hash is at most
/// `u32::MAX` bytes long.
pub open spec fn sizes_fit(keys: Seq<Seq<char>>, locs: Seq<LocView>) -> bool {
    &&& keys.len() == locs.len()
    &&& keys.len() <= u64::MAX
    &&& forall|i: int|
        0 <= i < keys.len() ==> encode_utf8(#[trigger] keys[i]).len() <= u32::MAX
            && encode_utf8(locs[i].blake3).len() <= u32::MAX
}

/// A location as a snapshot gives it back: an expiry time of zero is
/// written as zero, which reads back as "no expiry".
pub open spec fn stored_loc(l: LocView) -> LocView {
    if l.expires_at == Some(0u64) {
        LocView { expires_at: None, ..l }
    } else {
        l
    }
}

/// The locations as a snapshot gives them back.
pub open spec fn stored_locs(locs: Seq<LocView>) -> Seq<LocView> {
    locs.map_values(|l: LocView| stored_loc(l))
}

proof fn lemma_stored_encoding(keys: Seq<Seq<char>>, locs: Seq<LocView>, n: int)
    requires
        keys.len() == locs.len(),
        0 <= n <= keys.len(),
    ensures
        encode_entries(keys, locs, n) == encode_entries(keys, stored_locs(locs), n),
    decreases n,
{
    if n > 0 {
        lemma_stored_encoding(keys, locs, n - 1);
        let l = locs[n - 1];
        assert(stored_locs(locs)[n - 1] == stored_loc(l));
        assert(encode_entry(keys[n - 1], l) == encode_entry(keys[n - 1], stored_loc(l)));
    }
}

proof fn lemma_parse_entry(b: Seq<u8>, pos: int, k: Seq<char>, l: LocView)
    requires
        0 <= pos,
        pos + encode_entry(k, l).len() <= b.len(),
        b.subrange(pos, pos + encode_entry(k, l).len()) == encode_entry(k, l),
        encode_utf8(k).len() <= u32::MAX,
        encode_utf8(l.blake3).len() <= u32::MAX,
        l.expires_at != Some(0u64),
    ensures
        parse_entry(b, pos, true) == Ok::<(Seq<char>, LocView, int), SnapshotError>(
            (k, l, pos + encode_entry(k, l).len()),
        ),
{
    lemma_auto_spec_u32_to_from_le_bytes();
    lemma_auto_spec_u64_to_from_le_bytes();
    let kb = encode_utf8(k);
    let hb = encode_utf8(l.blake3);
    let ts: u64 = match l.expires_at {
        Some(e) => e,
        None => 0,
    };
    let s0 = spec_u32_to_le_bytes(kb.len() as u32);
    let s1 = spec_u64_to_le_bytes(l.shard);
    let s2 = spec_u64_to_le_bytes(l.offset);
    let s3 = spec_u64_to_le_bytes(l.size);
    let s4 = spec_u32_to_le_bytes(hb.len() as u32);
    let s5 = spec_u64_to_le_bytes(ts);
    let enc = encode_entry(k, l);
    assert(enc == s0 + kb + s1 + s2 + s3 + s4 + hb + s5);
    let kl = kb.len() as int;
    let hl = hb.len() as int;
    let o2 = 4 + kl;
    let o3 = o2 + 8;
    let o4 = o3 + 8;
    let o5 = o4 + 8;
    let o6 = o5 + 4;
    let o7 = o6 + hl;
    assert(enc.len() == o7 + 8);
    assert forall|a: int, c: int| 0 <= a <= c <= enc.len() implies #[trigger] b.subrange(
        pos + a,
        pos + c,
    ) == enc.subrange(a, c) by {
        assert(b.subrange(pos + a, pos + c) =~= b.subrange(pos, pos + enc.len()).subrange(a, c));
    }
    assert(enc.subrange(0, 4) =~= s0);
    assert(enc.subrange(4, o2) =~= kb);
    assert(enc.subrange(o2, o2 + 8) =~= s1);
    assert(enc.subrange(o3, o3 + 8) =~= s2);
    assert(enc.subrange(o4, o4 + 8) =~= s3);
    assert(enc.subrange(o5, o5 + 4) =~= s4);
    assert(enc.subrange(o6, o7) =~= hb);
    assert(enc.subrange(o7, o7 + 8) =~= s5);
    assert(b.subrange(pos, pos + 4) == s0);
    assert(b.subrange(pos + 4, pos + o2) == kb);
    assert(b.subrange(pos + o2, pos + o2 + 8) == s1);
    assert(b.subrange(pos + o3, pos + o3 + 8) == s2);
    assert(b.subrange(pos + o4, pos + o4 + 8) == s3);
    assert(b.subrange(pos + o5, pos + o5 + 4) == s4);
    assert(b.subrange(pos + o6, pos + o7) == hb);
    assert(b.subrange(pos + o7, pos + o7 + 8) == s5);
    assert(u32_at(b, pos) == kb.len() as u32);
    assert(u32_at(b, pos + o2 + 24) == hb.len() as u32);
    assert(u64_at(b, pos + o2) == l.shard);
    assert(u64_at(b, pos + o2 + 8) == l.offset);
    assert(u64_at(b, pos + o2 + 16) == l.size);
    assert(u64_at(b, pos + o7) == ts);
    encode_utf8_valid_utf8(k);
    encode_utf8_valid_utf8(l.blake3);
    encode_utf8_decode_utf8(k);
    encode_utf8_decode_utf8(l.blake3);
}

proof fn lemma_encode_entries_prefix(keys: Seq<Seq<char>>, locs: Seq<LocView>, j: int, n: int)
    requires
        0 <= j <= n,
    ensures
        encode_entries(keys, locs, j).len() <= encode_entries(keys, locs, n).len(),
        encode_entries(keys, locs, n).subrange(0, encode_entries(keys, locs, j).len() as int)
            == encode_entries(keys, locs, j),
    decreases n - j,
{
    if j < n {
        lemma_encode_entries_prefix(keys, locs, j, n - 1);
        let a = encode_entries(keys, locs, j);
        let m = encode_entries(keys, locs, n - 1);
        assert(encode_entries(keys, locs, n) == m + encode_entry(keys[n - 1], locs[n - 1]));
        assert(encode_entries(keys, locs, n).subrange(0, a.len() as int) =~= m.subrange(
            0,
            a.len() as int,
        ));
    } else {
        assert(encode_entries(keys, locs, n).subrange(0, encode_entries(keys, locs, n).len() as int)
            =~= encode_entries(keys, locs, n));
    }
}

proof fn lemma_parse_entries(keys: Seq<Seq<char>>, locs: Seq<LocView>, j: int)
    requires
        fits_format(keys, locs),
        0 <= j <= keys.len(),
    ensures
        parse_entries(
            encode_index(keys, locs),
            16 + encode_entries(keys, locs, j).len() as int,
            (keys.len() - j) as nat,
            true,
        ) == Ok::<(Seq<(Seq<char>, LocView)>, int), SnapshotError>(
            (entry_seq(keys, locs).subrange(j, keys.len() as int), encode_index(keys, locs).len() as int),
        ),
    decreases keys.len() - j,
{
    lemma_auto_spec_u64_to_from_le_bytes();
    let n = keys.len() as int;
    let b = encode_index(keys, locs);
    let ee = encode_entries(keys, locs, n);
    assert(b.len() == 16 + ee.len());
    if j == n {
        assert(entry_seq(keys, locs).subrange(j, n) =~= Seq::<(Seq<char>, LocView)>::empty());
    } else {
        lemma_parse_entries(keys, locs, j + 1);
        lemma_encode_entries_prefix(keys, locs, j + 1, n);
        let a = encode_entries(keys, locs, j);
        let e = encode_entry(keys[j], locs[j]);
        assert(encode_entries(keys, locs, j + 1) == a + e);
        let pos: int = 16 + a.len() as int;
        assert(b.subrange(pos, pos + e.len() as int) =~= e) by {
            assert forall|x: int| 0 <= x < e.len() implies b.subrange(pos, pos + e.len() as int)[x]
                == e[x] by {
                assert(b[pos + x] == ee[a.len() + x]);
                assert(ee.subrange(0, (a + e).len() as int)[a.len() + x] == (a + e)[a.len() + x]);
            }
        }
        lemma_parse_entry(b, pos, keys[j], locs[j]);
        assert(entry_seq(keys, locs).subrange(j, n) =~= seq![(keys[j], locs[j])]
            + entry_seq(keys, locs).subrange(j + 1, n));
    }
}

proof fn lemma_entries_to_map(keys: Seq<Seq<char>>, locs: Seq<LocView>, m: int)
    requires
        keys.len() == locs.len(),
        keys.no_duplicates(),
        0 <= m <= keys.len(),
    ensures
        forall|i: int|
            0 <= i < m ==> #[trigger] entries_to_map(entry_seq(keys, locs).take(m)).contains_key(
                keys[i],
            ) && entries_to_map(entry_seq(keys, locs).take(m))[keys[i]] == locs[i],
        forall|k: Seq<char>|
            #[trigger] entries_to_map(entry_seq(keys, locs).take(m)).contains_key(k) ==> exists|
                i: int,
            |
                0 <= i < m && keys[i] == k,
    decreases m,
{
    if m > 0 {
        lemma_entries_to_map(keys, locs, m - 1);
        let s = entry_seq(keys, locs).take(m);
        let prev = entry_seq(keys, locs).take(m - 1);
        assert(s.drop_last() =~= prev);
        assert(s.last() == (keys[m - 1], locs[m - 1]));
        let pm = entries_to_map(prev);
        assert(entries_to_map(s) == pm.insert(keys[m - 1], locs[m - 1]));
        assert forall|i: int| 0 <= i < m implies #[trigger] entries_to_map(s).contains_key(keys[i])
            && entries_to_map(s)[keys[i]] == locs[i] by {
            if i < m - 1 {
                assert(keys[i] != keys[m - 1]);
                assert(pm.contains_key(keys[i]));
            }
        }
        assert forall|k: Seq<char>| #[trigger] entries_to_map(s).contains_key(k) implies exists|
            i: int,
        | 0 <= i < m && keys[i] == k by {
            if k != keys[m - 1] {
                assert(pm.contains_key(k));
                let i = choose|i: int| 0 <= i < m - 1 && keys[i] == k;
                assert(0 <= i < m && keys[i] == k);
            } else {
                assert(keys[m - 1] == k);
            }
        }
    } else {
        assert(entry_seq(keys, locs).take(m) =~= Seq::<(Seq<char>, LocView)>::empty());
    }
}

proof fn lemma_stored_fits(keys: Seq<Seq<char>>, locs0: Seq<LocView>)
    requires
        sizes_fit(keys, locs0),
    ensures
        fits_format(keys, stored_locs(locs0)),
        encode_index(keys, locs0) == encode_index(keys, stored_locs(locs0)),
{
    let locs = stored_locs(locs0);
    assert forall|i: int| 0 <= i < keys.len() implies encode_utf8(#[trigger] keys[i]).len()
        <= u32::MAX && encode_utf8(locs[i].blake3).len() <= u32::MAX && locs[i].expires_at != Some(
        0u64,
    ) by {
        assert(locs[i] == stored_loc(locs0[i]));
        assert(encode_utf8(keys[i]).len() <= u32::MAX);
        assert(encode_utf8(locs0[i].blake3).len() <= u32::MAX);
        assert(stored_loc(locs0[i]).blake3 == locs0[i].blake3);
    }
    lemma_stored_encoding(keys, locs0, keys.len() as int);
}

/// Reading back the snapshot of a well-formed index gives each entry back
/// in entry order, an expiry time of zero as no expiry.
#[verifier::rlimit(40)]
proof fn lemma_snapshot_roundtrip(idx: &Index)
    requires
        idx.wf(),
        sizes_fit(idx.key_seq(), idx.loc_seq()),
    ensures
        parse_snapshot(encode_index(idx.key_seq(), idx.loc_seq())) == Ok::<
            Seq<(Seq<char>, LocView)>,
            SnapshotError,
        >(entry_seq(idx.key_seq(), stored_locs(idx.loc_seq()))),
        entries_to_map(entry_seq(idx.key_seq(), stored_locs(idx.loc_seq())))
            == idx@.map_values(|l: LocView| stored_loc(l)),
{
    lemma_auto_spec_u64_to_from_le_bytes();
    let keys = idx.key_seq();
    let locs0 = idx.loc_seq();
    let locs = stored_locs(locs0);
    let n = keys.len() as int;
    lemma_stored_fits(keys, locs0);
    let b = encode_index(keys, locs);
    let s8 = spec_u64_to_le_bytes(n as u64);
    assert(b.subrange(0, 8) =~= magic_v3());
    assert(b.subrange(8, 16) =~= s8);
    assert(u64_at(b, 8) == n as u64);
    lemma_parse_entries(keys, locs, 0);
    assert(encode_entries(keys, locs, 0) =~= Seq::<u8>::empty());
    assert(entry_seq(keys, locs).subrange(0, n) =~= entry_seq(keys, locs));
    idx.lemma_entries();
    lemma_entries_to_map(keys, locs, n);
    assert(entry_seq(keys, locs).take(n) =~= entry_seq(keys, locs));
    let m = entries_to_map(entry_seq(keys, locs));
    let target = idx@.map_values(|l: LocView| stored_loc(l));
    assert forall|k: Seq<char>| #[trigger] m.contains_key(k) implies target.contains_key(k)
        && m[k] == target[k] by {
        let i = choose|i: int| 0 <= i < n && keys[i] == k;
        assert(keys.to_set().contains(k));
        assert(locs[i] == stored_loc(locs0[i]));
    }
    assert forall|k: Seq<char>| #[trigger] target.contains_key(k) implies m.contains_key(k) by {
        assert(keys.to_set().contains(k));
        let i = choose|i: int| 0 <= i < keys.len() && keys[i] == k;
    }
    assert(m =~= target);
}

} // verus!
