//! `.nowdat`: a minimal sidecar archive format for shipping local image assets
//! alongside a compiled binary.
//!
//! ```text
//! magic:   b"NWDT"                4 bytes
//! version: u32 LE                 4 bytes  (currently 1)
//! count:   u32 LE                 4 bytes  (number of entries)
//! per entry, `count` times:
//!   key_len:     u32 LE           4 bytes
//!   key:         [u8; key_len]    UTF-8
//!   data_len:    u64 LE           8 bytes
//!   data_offset: u64 LE           8 bytes  (absolute byte offset into this
//!                                 same file)
//! ... then every entry's raw bytes, back to back, at their recorded offsets
//! ```
//!
//! The index is read once when an archive is opened; entry bytes are sliced
//! out of the one in-memory buffer on demand.

use vstd::prelude::*;
use vstd::string::*;
use vstd::slice::slice_subrange;
use vstd::utf8::{
    decode_utf8, encode_utf8, encode_utf8_decode_utf8, encode_utf8_valid_utf8, valid_utf8,
};
use crate::assoc::AssocMap;
use crate::text::{decimal, decimal_string, string_from_utf8, utf8_error_text};

verus! {

pub const VERSION: u32 = 1;

// ---- little-endian numbers ----

/// The number that `bs` holds, least significant byte first.
pub open spec fn le_value(bs: Seq<u8>) -> nat
    decreases bs.len(),
{
    if bs.len() == 0 {
        0
    } else {
        bs[0] as nat + 256 * le_value(bs.drop_first())
    }
}

/// The low `width` bytes of `n`, least significant byte first.
pub open spec fn le_bytes(n: nat, width: nat) -> Seq<u8>
    decreases width,
{
    if width == 0 {
        Seq::empty()
    } else {
        seq![(n % 256) as u8] + le_bytes(n / 256, (width - 1) as nat)
    }
}

/// How many numbers `width` bytes can hold.
pub open spec fn byte_range(width: nat) -> nat
    decreases width,
{
    if width == 0 {
        1
    } else {
        256 * byte_range((width - 1) as nat)
    }
}

/// Reading a number back gives the number that was written, if it fits.
pub proof fn law_le_round_trip(n: nat, width: nat)
    requires
        n < byte_range(width),
    ensures
        le_bytes(n, width).len() == width,
        le_value(le_bytes(n, width)) == n,
    decreases width,
{
    if width > 0 {
        law_le_round_trip(n / 256, (width - 1) as nat);
        let b = le_bytes(n, width);
        assert(b.drop_first() =~= le_bytes(n / 256, (width - 1) as nat));
    }
}

proof fn lemma_le_bytes_len(n: nat, width: nat)
    ensures
        le_bytes(n, width).len() == width,
    decreases width,
{
    if width > 0 {
        lemma_le_bytes_len(n / 256, (width - 1) as nat);
    }
}

proof fn lemma_byte_ranges()
    ensures
        byte_range(4) == 0x1_0000_0000,
        byte_range(8) == 0x1_0000_0000_0000_0000,
{
    reveal_with_fuel(byte_range, 9);
}

/// The number held by the `width` bytes of `bytes` from `pos` on.
fn le_read(bytes: &[u8], pos: usize, width: usize) -> (r: u64)
    requires
        width <= 8,
        pos + width <= bytes@.len(),
    ensures
        r as nat == le_value(bytes@.subrange(pos as int, pos + width)),
        r < byte_range(width as nat),
    decreases width,
{
    let ghost s = bytes@.subrange(pos as int, pos + width);
    let _ = bytes.len();
    if width == 0 {
        0
    } else {
        let rest: u64 = le_read(bytes, pos + 1, width - 1);
        proof {
            assert(s.drop_first() =~= bytes@.subrange(pos + 1, pos + width));
            lemma_byte_range_bound((width - 1) as nat);
        }
        bytes[pos] as u64 + 256 * rest
    }
}

proof fn lemma_byte_range_bound(width: nat)
    requires
        width <= 7,
    ensures
        byte_range(width) <= 0x100_0000_0000_0000,
{
    reveal_with_fuel(byte_range, 8);
}

/// Appends the low `width` bytes of `n`.
fn le_write(out: &mut Vec<u8>, n: u64, width: usize)
    ensures
        final(out)@ == old(out)@ + le_bytes(n as nat, width as nat),
    decreases width,
{
    let ghost start = out@;
    if width > 0 {
        out.push((n % 256) as u8);
        le_write(out, n / 256, width - 1);
    }
    assert(out@ =~= start + le_bytes(n as nat, width as nat));
}

fn push_all(out: &mut Vec<u8>, bytes: &[u8])
    ensures
        final(out)@ == old(out)@ + bytes@,
{
    let ghost start = out@;
    let mut i: usize = 0;
    assert(start + bytes@.take(0) =~= start);
    while i < bytes.len()
        invariant
            0 <= i <= bytes@.len(),
            out@ == start + bytes@.take(i as int),
        decreases bytes@.len() - i,
    {
        out.push(bytes[i]);
        i = i + 1;
        assert(out@ =~= start + bytes@.take(i as int));
    }
    assert(bytes@.take(bytes@.len() as int) =~= bytes@);
}

// ---- reading an archive ----

/// `b"NWDT"`.
pub open spec fn magic() -> Seq<u8> {
    seq![0x4eu8, 0x57u8, 0x44u8, 0x54u8]
}

/// An index record: the key, and where its data stands.
pub struct Record {
    pub key: Seq<char>,
    pub offset: nat,
    pub len: nat,
}

/// Whether `len` bytes stand at `pos`.
pub open spec fn holds(bytes: Seq<u8>, pos: int, len: int) -> bool {
    0 <= pos && pos + len <= bytes.len()
}

pub open spec fn err_end() -> Seq<char> {
    "unexpected end of .nowdat header"@
}

pub open spec fn err_outside(key: Seq<char>) -> Seq<char> {
    "entry `"@ + key + "` points outside the archive (truncated file?)"@
}

/// The index record at `pos`, and the position after it; or what is wrong there.
pub open spec fn record_at(bytes: Seq<u8>, pos: int) -> Result<(Record, int), Seq<char>> {
    if !holds(bytes, pos, 4) {
        Err(err_end())
    } else {
        let key_len = le_value(bytes.subrange(pos, pos + 4)) as int;
        let p = pos + 4 + key_len;
        if !holds(bytes, pos + 4, key_len) {
            Err(err_end())
        } else {
            let key_bytes = bytes.subrange(pos + 4, p);
            if !valid_utf8(key_bytes) {
                Err("invalid utf-8 key: "@ + utf8_error_text(key_bytes))
            } else if !holds(bytes, p, 8) || !holds(bytes, p + 8, 8) {
                Err(err_end())
            } else {
                let key = decode_utf8(key_bytes);
                let len = le_value(bytes.subrange(p, p + 8));
                let offset = le_value(bytes.subrange(p + 8, p + 16));
                if offset + len > bytes.len() {
                    Err(err_outside(key))
                } else {
                    Ok((Record { key, offset, len }, p + 16))
                }
            }
        }
    }
}

/// The `count` index records from `pos` on, or what is wrong with the first
/// faulty one.
pub open spec fn records_at(bytes: Seq<u8>, pos: int, count: nat) -> Result<
    Seq<Record>,
    Seq<char>,
>
    decreases count,
{
    if count == 0 {
        Ok(Seq::empty())
    } else {
        match record_at(bytes, pos) {
            Err(e) => Err(e),
            Ok((r, next)) => match records_at(bytes, next, (count - 1) as nat) {
                Err(e) => Err(e),
                Ok(rest) => Ok(seq![r] + rest),
            },
        }
    }
}

/// What the archive maps each recorded key to. A key recorded twice has the
/// data of its last record.
pub open spec fn contents_of(bytes: Seq<u8>, records: Seq<Record>) -> Map<Seq<char>, Seq<u8>>
    decreases records.len(),
{
    if records.len() == 0 {
        Map::empty()
    } else {
        let r = records.last();
        contents_of(bytes, records.drop_last()).insert(
            r.key,
            bytes.subrange(r.offset as int, (r.offset + r.len) as int),
        )
    }
}

/// The contents of the archive that `bytes` hold, or why they hold none.
pub open spec fn archive_contents(bytes: Seq<u8>) -> Result<Map<Seq<char>, Seq<u8>>, Seq<char>> {
    if bytes.len() < 12 {
        Err("not a .nowdat file (too short for a header)"@)
    } else if bytes.subrange(0, 4) != magic() {
        Err("not a .nowdat file (bad magic)"@)
    } else if le_value(bytes.subrange(4, 8)) != VERSION {
        Err(
            "unsupported .nowdat version "@ + decimal(le_value(bytes.subrange(4, 8)))
                + " (expected 1)"@,
        )
    } else {
        match records_at(bytes, 12, le_value(bytes.subrange(8, 12))) {
            Err(e) => Err(e),
            Ok(records) => Ok(contents_of(bytes, records)),
        }
    }
}

/// A `.nowdat` archive, fully loaded into memory.
pub struct NowdatArchive {
    bytes: Vec<u8>,
    index: AssocMap<(u64, u64)>,
}

/// The bytes an index entry `(offset, len)` stands for.
spec fn slice_of(bytes: Seq<u8>, at: (u64, u64)) -> Seq<u8> {
    bytes.subrange(at.0 as int, at.0 + at.1)
}

/// `r` with the records `done` in front.
spec fn after(done: Seq<Record>, r: Result<Seq<Record>, Seq<char>>) -> Result<
    Seq<Record>,
    Seq<char>,
> {
    match r {
        Ok(rest) => Ok(done + rest),
        Err(e) => Err(e),
    }
}

impl NowdatArchive {
    /// What each key maps to.
    pub closed spec fn view(&self) -> Map<Seq<char>, Seq<u8>> {
        self.index.view().map_values(|at: (u64, u64)| slice_of(self.bytes@, at))
    }

    /// Every recorded slice lies inside the buffer.
    #[verifier::type_invariant]
    spec fn inv(&self) -> bool {
        forall|k: Seq<char>| #[trigger]
            self.index.view().dom().contains(k) ==> self.index.view()[k].0
                + self.index.view()[k].1 <= self.bytes@.len()
    }

    /// Opens the archive held in `bytes`.
    pub fn open(bytes: Vec<u8>) -> (r: Result<Self, String>)
        ensures
            match r {
                Ok(a) => archive_contents(bytes@) == Ok::<_, Seq<char>>(a.view()),
                Err(e) => archive_contents(bytes@) == Err::<Map<Seq<char>, Seq<u8>>, _>(e@),
            },
    {
        if bytes.len() < 12 {
            return Err("not a .nowdat file (too short for a header)".to_owned());
        }
        let ghost head = bytes@.subrange(0, 4);
        if bytes[0] != 0x4e || bytes[1] != 0x57 || bytes[2] != 0x44 || bytes[3] != 0x54 {
            assert(head[0] == bytes@[0] && head[1] == bytes@[1] && head[2] == bytes@[2] && head[3]
                == bytes@[3]);
            assert(magic()[0] == 0x4e && magic()[1] == 0x57 && magic()[2] == 0x44 && magic()[3]
                == 0x54);
            return Err("not a .nowdat file (bad magic)".to_owned());
        }
        assert(head =~= magic());
        let version: u64 = le_read(bytes.as_slice(), 4, 4);
        if version != 1 {
            let mut e: String = "unsupported .nowdat version ".to_owned();
            e.append(decimal_string(version).as_str());
            e.append(" (expected 1)");
            return Err(e);
        }
        let count: u64 = le_read(bytes.as_slice(), 8, 4);
        let mut index: AssocMap<(u64, u64)> = AssocMap::new();
        let mut pos: usize = 12;
        let mut i: u64 = 0;
        let ghost mut done: Seq<Record> = Seq::empty();
        let ghost all = records_at(bytes@, 12, count as nat);
        proof {
            assert(after(done, all) == all) by {
                match all {
                    Ok(rest) => {
                        assert(done + rest =~= rest);
                    },
                    Err(_) => {},
                }
            }
            assert(index.view().map_values(|at: (u64, u64)| slice_of(bytes@, at))
                =~= contents_of(bytes@, done));
        }
        while i < count
            invariant
                0 <= i <= count,
                12 <= pos <= bytes@.len(),
                bytes@.subrange(0, 4) == magic(),
                le_value(bytes@.subrange(4, 8)) == VERSION,
                count as nat == le_value(bytes@.subrange(8, 12)),
                all == records_at(bytes@, 12, count as nat),
                all == after(done, records_at(bytes@, pos as int, (count - i) as nat)),
                contents_of(bytes@, done) == index.view().map_values(
                    |at: (u64, u64)| slice_of(bytes@, at),
                ),
                forall|k: Seq<char>| #[trigger]
                    index.view().dom().contains(k) ==> index.view()[k].0 + index.view()[k].1
                        <= bytes@.len(),
            decreases count - i,
        {
            let ghost at = pos as int;
            let ghost step = record_at(bytes@, at);
            let key_len: u32 = match read_u32(bytes.as_slice(), &mut pos) {
                Ok(n) => n,
                Err(e) => {
                    return Err(e);
                },
            };
            let key_bytes: &[u8] = match read_slice(bytes.as_slice(), &mut pos, key_len as usize) {
                Ok(b) => b,
                Err(e) => {
                    return Err(e);
                },
            };
            let key: String = match string_from_utf8(key_bytes) {
                Ok(k) => k,
                Err(e) => {
                    let mut m: String = "invalid utf-8 key: ".to_owned();
                    m.append(e.as_str());
                    return Err(m);
                },
            };
            let data_len: u64 = match read_u64(bytes.as_slice(), &mut pos) {
                Ok(n) => n,
                Err(e) => {
                    return Err(e);
                },
            };
            let data_offset: u64 = match read_u64(bytes.as_slice(), &mut pos) {
                Ok(n) => n,
                Err(e) => {
                    return Err(e);
                },
            };
            let total: u64 = bytes.len() as u64;
            if data_offset > total || data_len > total - data_offset {
                let mut m: String = "entry `".to_owned();
                m.append(key.as_str());
                m.append("` points outside the archive (truncated file?)");
                return Err(m);
            }
            let ghost old_index = index.view();
            index.insert(key.as_str(), (data_offset, data_len));
            proof {
                let r = Record { key: key@, offset: data_offset as nat, len: data_len as nat };
                assert(step == Ok::<(Record, int), Seq<char>>((r, pos as int)));
                let rest = records_at(bytes@, pos as int, (count - i - 1) as nat);
                match rest {
                    Ok(more) => {
                        assert(done + (seq![r] + more) =~= done.push(r) + more);
                    },
                    Err(_) => {},
                }
                assert(done.push(r).drop_last() =~= done);
                let f = |at: (u64, u64)| slice_of(bytes@, at);
                assert(index.view().map_values(f) =~= old_index.map_values(f).insert(
                    key@,
                    f((data_offset, data_len)),
                ));
                done = done.push(r);
            }
            i = i + 1;
        }
        proof {
            assert(done + Seq::<Record>::empty() =~= done);
        }
        Ok(NowdatArchive { bytes, index })
    }

    /// The data of `key`.
    pub fn get(&self, key: &str) -> (r: Option<&[u8]>)
        ensures
            r is Some <==> self.view().dom().contains(key@),
            r matches Some(data) ==> data@ == self.view()[key@],
    {
        proof {
            use_type_invariant(self);
        }
        match self.index.get(key) {
            Some(at) => {
                let offset: u64 = at.0;
                let len: u64 = at.1;
                let total: usize = self.bytes.len();
                assert(self.index.view().dom().contains(key@));
                assert(offset + len <= total);
                Some(slice_subrange(self.bytes.as_slice(), offset as usize, (offset + len) as usize))
            },
            None => None,
        }
    }

    /// Every entry's key, each once.
    pub fn keys(&self) -> (r: Vec<&str>)
        ensures
            r@.len() == self.view().dom().len(),
            forall|i: int|
                0 <= i < r@.len() ==> self.view().dom().contains((#[trigger] r@[i])@),
            forall|k: Seq<char>| #[trigger]
                self.view().dom().contains(k) ==> exists|i: int|
                    0 <= i < r@.len() && (#[trigger] r@[i])@ == k,
            forall|i: int, j: int|
                0 <= i < j < r@.len() ==> (#[trigger] r@[i])@ != (#[trigger] r@[j])@,
    {
        let n: usize = self.index.len();
        let mut out: Vec<&str> = Vec::new();
        let mut i: usize = 0;
        proof {
            assert(self.view().dom() =~= self.index.view().dom());
        }
        while i < n
            invariant
                0 <= i <= n,
                n == self.index.key_order().len(),
                out@.len() == i,
                forall|k: int| 0 <= k < i ==> (#[trigger] out@[k])@ == self.index.key_order()[k],
            decreases n - i,
        {
            out.push(self.index.key_at(i));
            i = i + 1;
        }
        proof {
            assert forall|k: Seq<char>| #[trigger]
                self.view().dom().contains(k) implies exists|i: int|
                0 <= i < out@.len() && (#[trigger] out@[i])@ == k by {
                let j = choose|j: int|
                    0 <= j < self.index.key_order().len() && #[trigger] self.index.key_order()[j]
                        == k;
                assert(out@[j]@ == k);
            }
        }
        out
    }

    /// How many keys there are.
    pub fn len(&self) -> (r: usize)
        ensures
            self.view().dom().finite(),
            r == self.view().dom().len(),
    {
        proof {
            assert(self.view().dom() =~= self.index.view().dom());
        }
        self.index.len()
    }

    /// Whether there is no key.
    pub fn is_empty(&self) -> (r: bool)
        ensures
            self.view().dom().finite(),
            r == (self.view().dom().len() == 0),
    {
        self.len() == 0
    }
}

/// The `u32` at `*pos`, which moves past it; an error where the bytes end first.
pub fn read_u32(bytes: &[u8], pos: &mut usize) -> (r: Result<u32, String>)
    ensures
        match r {
            Ok(n) => holds(bytes@, *old(pos) as int, 4) && *final(pos) == *old(pos) + 4 && n as nat
                == le_value(bytes@.subrange(*old(pos) as int, *old(pos) + 4)),
            Err(e) => !holds(bytes@, *old(pos) as int, 4) && *final(pos) == *old(pos) && e@
                == err_end(),
        },
{
    let at: usize = *pos;
    match read_slice(bytes, pos, 4) {
        Ok(_) => {
            proof {
                lemma_byte_ranges();
            }
            Ok(le_read(bytes, at, 4) as u32)
        },
        Err(e) => Err(e),
    }
}

/// The `u64` at `*pos`, which moves past it; an error where the bytes end first.
pub fn read_u64(bytes: &[u8], pos: &mut usize) -> (r: Result<u64, String>)
    ensures
        match r {
            Ok(n) => holds(bytes@, *old(pos) as int, 8) && *final(pos) == *old(pos) + 8 && n as nat
                == le_value(bytes@.subrange(*old(pos) as int, *old(pos) + 8)),
            Err(e) => !holds(bytes@, *old(pos) as int, 8) && *final(pos) == *old(pos) && e@
                == err_end(),
        },
{
    let at: usize = *pos;
    match read_slice(bytes, pos, 8) {
        Ok(_) => Ok(le_read(bytes, at, 8)),
        Err(e) => Err(e),
    }
}

/// The `len` bytes at `*pos`, which moves past them; an error where the bytes
/// end first.
pub fn read_slice<'a>(bytes: &'a [u8], pos: &mut usize, len: usize) -> (r: Result<
    &'a [u8],
    String,
>)
    ensures
        match r {
            Ok(s) => holds(bytes@, *old(pos) as int, len as int) && *final(pos) == *old(pos) + len
                && s@ == bytes@.subrange(*old(pos) as int, *old(pos) + len),
            Err(e) => !holds(bytes@, *old(pos) as int, len as int) && *final(pos) == *old(pos) && e@
                == err_end(),
        },
{
    let at: usize = *pos;
    if at > bytes.len() || len > bytes.len() - at {
        return Err("unexpected end of .nowdat header".to_owned());
    }
    *pos = at + len;
    Ok(slice_subrange(bytes, at, at + len))
}

// ---- writing an archive ----

/// An entry's key and data.
pub open spec fn entry_view(e: (String, Vec<u8>)) -> (Seq<char>, Seq<u8>) {
    (e.0@, e.1@)
}

pub open spec fn entries_view(es: Seq<(String, Vec<u8>)>) -> Seq<(Seq<char>, Seq<u8>)> {
    es.map_values(|e: (String, Vec<u8>)| entry_view(e))
}

/// How many bytes the index takes for the first `k` entries.
pub open spec fn index_len(es: Seq<(Seq<char>, Seq<u8>)>, k: nat) -> nat
    decreases k,
{
    if k == 0 {
        0
    } else {
        index_len(es, (k - 1) as nat) + 4 + encode_utf8(es[k - 1].0).len() + 8 + 8
    }
}

/// How many bytes the data of the first `k` entries takes.
pub open spec fn data_len(es: Seq<(Seq<char>, Seq<u8>)>, k: nat) -> nat
    decreases k,
{
    if k == 0 {
        0
    } else {
        data_len(es, (k - 1) as nat) + es[k - 1].1.len()
    }
}

/// Where the data of entry `k` stands: the data follows the whole index.
pub open spec fn data_offset(es: Seq<(Seq<char>, Seq<u8>)>, k: nat) -> nat {
    12 + index_len(es, es.len()) + data_len(es, k)
}

/// The index record of entry `k`.
pub open spec fn record_bytes(es: Seq<(Seq<char>, Seq<u8>)>, k: nat) -> Seq<u8> {
    let key = encode_utf8(es[k as int].0);
    le_bytes(key.len(), 4) + key + le_bytes(es[k as int].1.len(), 8) + le_bytes(
        data_offset(es, k),
        8,
    )
}

/// The index records of the first `k` entries.
pub open spec fn index_bytes(es: Seq<(Seq<char>, Seq<u8>)>, k: nat) -> Seq<u8>
    decreases k,
{
    if k == 0 {
        Seq::empty()
    } else {
        index_bytes(es, (k - 1) as nat) + record_bytes(es, (k - 1) as nat)
    }
}

/// The data of the first `k` entries, back to back.
pub open spec fn data_bytes(es: Seq<(Seq<char>, Seq<u8>)>, k: nat) -> Seq<u8>
    decreases k,
{
    if k == 0 {
        Seq::empty()
    } else {
        data_bytes(es, (k - 1) as nat) + es[k - 1].1
    }
}

/// The archive's fixed header. Counts are stored in 32 bits.
pub open spec fn header_bytes(es: Seq<(Seq<char>, Seq<u8>)>) -> Seq<u8> {
    magic() + le_bytes(VERSION as nat, 4) + le_bytes(es.len(), 4)
}

/// The archive of `es`, in the order given.
pub open spec fn archive_bytes(es: Seq<(Seq<char>, Seq<u8>)>) -> Seq<u8> {
    header_bytes(es) + index_bytes(es, es.len()) + data_bytes(es, es.len())
}

proof fn lemma_index_len(es: Seq<(Seq<char>, Seq<u8>)>, k: nat)
    ensures
        index_bytes(es, k).len() == index_len(es, k),
        data_bytes(es, k).len() == data_len(es, k),
    decreases k,
{
    if k > 0 {
        lemma_index_len(es, (k - 1) as nat);
        let j = (k - 1) as nat;
        lemma_le_bytes_len(encode_utf8(es[j as int].0).len(), 4);
        lemma_le_bytes_len(es[j as int].1.len(), 8);
        lemma_le_bytes_len(data_offset(es, j), 8);
    }
}

proof fn lemma_lens_monotonic(es: Seq<(Seq<char>, Seq<u8>)>, k: nat, n: nat)
    requires
        k <= n,
    ensures
        index_len(es, k) <= index_len(es, n),
        data_len(es, k) <= data_len(es, n),
    decreases n - k,
{
    if k < n {
        lemma_lens_monotonic(es, k, (n - 1) as nat);
    }
}

/// Packs `entries` (key, raw bytes) into an archive, in the order given.
pub fn build(entries: &Vec<(String, Vec<u8>)>) -> (r: Vec<u8>)
    requires
        archive_bytes(entries_view(entries@)).len() <= usize::MAX,
    ensures
        r@ == archive_bytes(entries_view(entries@)),
{
    let ghost es = entries_view(entries@);
    let n: usize = entries.len();
    proof {
        lemma_index_len(es, es.len());
        lemma_le_bytes_len(VERSION as nat, 4);
        lemma_le_bytes_len(es.len(), 4);
    }
    let mut header_len: usize = 12;
    let mut i: usize = 0;
    while i < n
        invariant
            0 <= i <= n,
            n == entries@.len(),
            es == entries_view(entries@),
            12 + index_len(es, n as nat) + data_len(es, n as nat) <= usize::MAX,
            header_len == 12 + index_len(es, i as nat),
        decreases n - i,
    {
        proof {
            lemma_lens_monotonic(es, (i + 1) as nat, n as nat);
        }
        header_len = header_len + 4 + entries[i].0.as_str().as_bytes().len() + 8 + 8;
        i = i + 1;
    }
    let mut out: Vec<u8> = Vec::new();
    out.push(0x4e);
    out.push(0x57);
    out.push(0x44);
    out.push(0x54);
    assert(out@ =~= magic());
    le_write(&mut out, VERSION as u64, 4);
    le_write(&mut out, n as u64, 4);
    assert(out@ =~= header_bytes(es));
    let mut offset: u64 = header_len as u64;
    let mut k: usize = 0;
    assert(header_bytes(es) + index_bytes(es, 0) =~= header_bytes(es));
    while k < n
        invariant
            0 <= k <= n,
            n == entries@.len(),
            es == entries_view(entries@),
            12 + index_len(es, n as nat) + data_len(es, n as nat) <= usize::MAX,
            offset == data_offset(es, k as nat),
            out@ == header_bytes(es) + index_bytes(es, k as nat),
        decreases n - k,
    {
        proof {
            lemma_lens_monotonic(es, (k + 1) as nat, n as nat);
        }
        let key: &str = entries[k].0.as_str();
        let ghost before = out@;
        le_write(&mut out, key.as_bytes().len() as u64, 4);
        push_all(&mut out, key.as_bytes());
        le_write(&mut out, entries[k].1.len() as u64, 8);
        le_write(&mut out, offset, 8);
        assert(out@ =~= before + record_bytes(es, k as nat));
        offset = offset + entries[k].1.len() as u64;
        k = k + 1;
        assert(out@ =~= header_bytes(es) + index_bytes(es, k as nat));
    }
    let ghost head = out@;
    let mut m: usize = 0;
    assert(head + data_bytes(es, 0) =~= head);
    while m < n
        invariant
            0 <= m <= n,
            n == entries@.len(),
            es == entries_view(entries@),
            out@ == head + data_bytes(es, m as nat),
        decreases n - m,
    {
        let ghost before = out@;
        push_all(&mut out, entries[m].1.as_slice());
        assert(out@ =~= head + (data_bytes(es, m as nat) + es[m as int].1));
        m = m + 1;
    }
    out
}

// ---- laws ----

/// What the entries map each key to; a key given twice keeps its last data.
pub open spec fn entries_map(es: Seq<(Seq<char>, Seq<u8>)>, k: nat) -> Map<Seq<char>, Seq<u8>>
    decreases k,
{
    if k == 0 {
        Map::empty()
    } else {
        entries_map(es, (k - 1) as nat).insert(es[k - 1].0, es[k - 1].1)
    }
}

/// The records that the index of `es` holds.
spec fn records_of(es: Seq<(Seq<char>, Seq<u8>)>, from: nat) -> Seq<Record> {
    Seq::new(
        (es.len() - from) as nat,
        |i: int|
            Record {
                key: es[from + i].0,
                offset: data_offset(es, (from + i) as nat),
                len: es[from + i].1.len(),
            },
    )
}

proof fn lemma_record_place(es: Seq<(Seq<char>, Seq<u8>)>, k: nat, n: nat)
    requires
        k < n <= es.len(),
    ensures
        index_len(es, (k + 1) as nat) <= index_len(es, n),
        data_len(es, (k + 1) as nat) <= data_len(es, n),
        index_bytes(es, n).len() == index_len(es, n),
        data_bytes(es, n).len() == data_len(es, n),
        index_bytes(es, n).subrange(index_len(es, k) as int, index_len(es, k + 1) as int)
            == record_bytes(es, k),
        data_bytes(es, n).subrange(data_len(es, k) as int, data_len(es, k + 1) as int)
            == es[k as int].1,
    decreases n,
{
    lemma_lens_monotonic(es, (k + 1) as nat, n);
    lemma_index_len(es, n);
    lemma_index_len(es, (n - 1) as nat);
    let a = index_len(es, k) as int;
    let b = index_len(es, k + 1) as int;
    let c = data_len(es, k) as int;
    let d = data_len(es, k + 1) as int;
    if k + 1 == n {
        lemma_index_len(es, k);
        assert(index_bytes(es, n).subrange(a, b) =~= record_bytes(es, k));
        assert(data_bytes(es, n).subrange(c, d) =~= es[k as int].1);
    } else {
        let m = (n - 1) as nat;
        lemma_record_place(es, k, m);
        assert(index_bytes(es, n).subrange(a, b) =~= index_bytes(es, m).subrange(a, b));
        assert(data_bytes(es, n).subrange(c, d) =~= data_bytes(es, m).subrange(c, d));
    }
}

/// A record that stands in the buffer as it is written is read as it was written.
proof fn lemma_record_reads(b: Seq<u8>, pos: int, key: Seq<char>, len: nat, off: nat)
    requires
        0 <= pos,
        pos + 20 + encode_utf8(key).len() <= b.len(),
        encode_utf8(key).len() < 0x1_0000_0000,
        off + len <= b.len() < 0x1_0000_0000_0000_0000,
        b.subrange(pos, pos + 20 + encode_utf8(key).len()) == le_bytes(encode_utf8(key).len(), 4)
            + encode_utf8(key) + le_bytes(len, 8) + le_bytes(off, 8),
    ensures
        record_at(b, pos) == Ok::<(Record, int), Seq<char>>(
            (Record { key, offset: off, len }, pos + 20 + encode_utf8(key).len()),
        ),
{
    let kb = encode_utf8(key);
    let n = kb.len() as int;
    let rec = b.subrange(pos, pos + 20 + n);
    lemma_byte_ranges();
    law_le_round_trip(kb.len(), 4);
    law_le_round_trip(len, 8);
    law_le_round_trip(off, 8);
    let p = pos + 4 + n;
    assert(b.subrange(pos, pos + 4) =~= rec.subrange(0, 4));
    assert(rec.subrange(0, 4) =~= le_bytes(kb.len(), 4));
    assert(b.subrange(pos + 4, p) =~= rec.subrange(4, 4 + n));
    assert(rec.subrange(4, 4 + n) =~= kb);
    assert(b.subrange(p, p + 8) =~= rec.subrange(4 + n, 12 + n));
    assert(rec.subrange(4 + n, 12 + n) =~= le_bytes(len, 8));
    assert(b.subrange(p + 8, p + 16) =~= rec.subrange(12 + n, 20 + n));
    assert(rec.subrange(12 + n, 20 + n) =~= le_bytes(off, 8));
    encode_utf8_valid_utf8(key);
    encode_utf8_decode_utf8(key);
}

proof fn lemma_archive_parts(es: Seq<(Seq<char>, Seq<u8>)>, k: nat)
    requires
        k < es.len(),
    ensures
        archive_bytes(es).len() == 12 + index_len(es, es.len()) + data_len(es, es.len()),
        index_len(es, k) <= index_len(es, (k + 1) as nat) <= index_len(es, es.len()),
        data_len(es, k) <= data_len(es, (k + 1) as nat) <= data_len(es, es.len()),
        archive_bytes(es).subrange(
            12 + index_len(es, k) as int,
            12 + index_len(es, k + 1) as int,
        )
            == record_bytes(es, k),
        archive_bytes(es).subrange(
            data_offset(es, k) as int,
            (data_offset(es, k) + es[k as int].1.len()) as int,
        ) == es[k as int].1,
{
    let b = archive_bytes(es);
    let n = es.len();
    lemma_record_place(es, k, n);
    lemma_le_bytes_len(VERSION as nat, 4);
    lemma_le_bytes_len(es.len(), 4);
    let pos = 12 + index_len(es, k) as int;
    let next = 12 + index_len(es, k + 1) as int;
    assert(b.subrange(pos, next) =~= index_bytes(es, n).subrange(pos - 12, next - 12));
    let off = data_offset(es, k) as int;
    let len = es[k as int].1.len() as int;
    assert(b.subrange(off, off + len) =~= data_bytes(es, n).subrange(
        data_len(es, k) as int,
        data_len(es, k + 1) as int,
    ));
}

proof fn lemma_parse_records(es: Seq<(Seq<char>, Seq<u8>)>, k: nat)
    requires
        k <= es.len(),
        forall|i: int|
            0 <= i < es.len() ==> encode_utf8((#[trigger] es[i]).0).len() < 0x1_0000_0000,
        archive_bytes(es).len() < 0x1_0000_0000_0000_0000,
    ensures
        records_at(archive_bytes(es), 12 + index_len(es, k) as int, (es.len() - k) as nat) == Ok::<
            Seq<Record>,
            Seq<char>,
        >(records_of(es, k)),
    decreases es.len() - k,
{
    let b = archive_bytes(es);
    let n = es.len();
    if k == n {
        assert(records_of(es, k) =~= Seq::<Record>::empty());
    } else {
        lemma_parse_records(es, k + 1);
        lemma_archive_parts(es, k);
        let (key, data) = es[k as int];
        let pos = 12 + index_len(es, k) as int;
        let off = data_offset(es, k);
        assert(encode_utf8(key).len() < 0x1_0000_0000);
        lemma_record_reads(b, pos, key, data.len(), off);
        let r = Record { key, offset: off, len: data.len() };
        assert(records_of(es, k) =~= seq![r] + records_of(es, k + 1));
    }
}

proof fn lemma_contents(es: Seq<(Seq<char>, Seq<u8>)>, k: nat)
    requires
        k <= es.len(),
    ensures
        contents_of(archive_bytes(es), records_of(es, 0).take(k as int)) == entries_map(es, k),
    decreases k,
{
    if k > 0 {
        let j = (k - 1) as nat;
        lemma_contents(es, j);
        lemma_archive_parts(es, j);
        let rs = records_of(es, 0).take(k as int);
        assert(rs.drop_last() =~= records_of(es, 0).take(j as int));
    }
}

/// Opening a built archive gives back its entries: each key maps to the data it
/// was given last. (Counts, key lengths and offsets have to fit the widths the
/// format stores them in.)
pub proof fn law_build_then_open(es: Seq<(Seq<char>, Seq<u8>)>)
    requires
        es.len() < 0x1_0000_0000,
        forall|i: int|
            0 <= i < es.len() ==> encode_utf8((#[trigger] es[i]).0).len() < 0x1_0000_0000,
        archive_bytes(es).len() < 0x1_0000_0000_0000_0000,
    ensures
        archive_contents(archive_bytes(es)) == Ok::<_, Seq<char>>(entries_map(es, es.len())),
{
    let b = archive_bytes(es);
    lemma_parse_records(es, 0);
    lemma_contents(es, es.len());
    lemma_byte_ranges();
    law_le_round_trip(VERSION as nat, 4);
    law_le_round_trip(es.len(), 4);
    lemma_index_len(es, es.len());
    assert(b.subrange(0, 4) =~= magic());
    assert(b.subrange(4, 8) =~= le_bytes(VERSION as nat, 4));
    assert(b.subrange(8, 12) =~= le_bytes(es.len(), 4));
    assert(records_of(es, 0).take(es.len() as int) =~= records_of(es, 0));
}

/// A record that is read from the first `n` bytes alone is the one that all bytes
/// give there, and its data lies among those `n`.
proof fn lemma_record_in_prefix(b: Seq<u8>, n: int, pos: int)
    requires
        0 <= n <= b.len(),
        record_at(b.take(n), pos) is Ok,
    ensures
        record_at(b, pos) == record_at(b.take(n), pos),
        record_at(b, pos)->Ok_0.0.offset + record_at(b, pos)->Ok_0.0.len <= n,
{
    let c = b.take(n);
    assert(c.subrange(pos, pos + 4) =~= b.subrange(pos, pos + 4));
    let p = pos + 4 + le_value(b.subrange(pos, pos + 4));
    assert(c.subrange(pos + 4, p) =~= b.subrange(pos + 4, p));
    assert(c.subrange(p, p + 8) =~= b.subrange(p, p + 8));
    assert(c.subrange(p + 8, p + 16) =~= b.subrange(p + 8, p + 16));
}

proof fn lemma_prefix_records(es: Seq<(Seq<char>, Seq<u8>)>, n: int, k: nat)
    requires
        k < es.len(),
        0 <= n < archive_bytes(es).len(),
        forall|i: int|
            0 <= i < es.len() ==> encode_utf8((#[trigger] es[i]).0).len() < 0x1_0000_0000,
        archive_bytes(es).len() < 0x1_0000_0000_0000_0000,
    ensures
        records_at(
            archive_bytes(es).take(n),
            12 + index_len(es, k) as int,
            (es.len() - k) as nat,
        ) is Err,
    decreases es.len() - k,
{
    let b = archive_bytes(es);
    let c = b.take(n);
    let pos = 12 + index_len(es, k) as int;
    if record_at(c, pos) is Ok {
        lemma_archive_parts(es, k);
        lemma_record_in_prefix(b, n, pos);
        let (key, data) = es[k as int];
        assert(encode_utf8(key).len() < 0x1_0000_0000);
        lemma_record_reads(b, pos, key, data.len(), data_offset(es, k));
        if k + 1 < es.len() {
            lemma_prefix_records(es, n, k + 1);
        }
    }
}

/// No strict prefix of a built archive opens: a file that was cut short is
/// refused, wherever it was cut.
pub proof fn law_no_strict_prefix_opens(es: Seq<(Seq<char>, Seq<u8>)>, n: int)
    requires
        es.len() < 0x1_0000_0000,
        forall|i: int|
            0 <= i < es.len() ==> encode_utf8((#[trigger] es[i]).0).len() < 0x1_0000_0000,
        archive_bytes(es).len() < 0x1_0000_0000_0000_0000,
        0 <= n < archive_bytes(es).len(),
    ensures
        archive_contents(archive_bytes(es).take(n)) is Err,
{
    let b = archive_bytes(es);
    let c = b.take(n);
    lemma_byte_ranges();
    law_le_round_trip(VERSION as nat, 4);
    law_le_round_trip(es.len(), 4);
    lemma_index_len(es, es.len());
    if n >= 12 {
        assert(c.subrange(8, 12) =~= le_bytes(es.len(), 4));
        assert(es.len() > 0);
        lemma_prefix_records(es, n, 0);
    }
}

/// With no key given twice, every entry can be read back.
pub proof fn law_every_entry_reads_back(es: Seq<(Seq<char>, Seq<u8>)>, k: nat, i: int)
    requires
        0 <= i < k <= es.len(),
        forall|a: int, b: int|
            0 <= a < b < es.len() ==> (#[trigger] es[a]).0 != (#[trigger] es[b]).0,
    ensures
        entries_map(es, k).dom().contains(es[i].0),
        entries_map(es, k)[es[i].0] == es[i].1,
    decreases k,
{
    if i < k - 1 {
        law_every_entry_reads_back(es, (k - 1) as nat, i);
        assert(es[i].0 != es[k - 1].0);
    }
}

} // verus!
