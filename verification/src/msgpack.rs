//! The MessagePack encoding of a store: one map, with each path as a string
//! and each fingerprint as a byte string, in the order of the entries.
//!
//! Written, every length takes the shortest header that holds it. Read, any
//! header of the right kind is taken.

use crate::entries::Entry;
use crate::error::{Malformed, Oversize};
use crate::fingerprint::{ImageHash, HASH_BYTES};
use crate::hashdb::rows_view;
use vstd::prelude::*;
use vstd::slice::{slice_subrange, slice_to_vec};
use vstd::utf8::{decode_utf8, encode_utf8, valid_utf8};

verus! {

/// The kinds of value that the encoding of a store is made of.
#[derive(Clone, Copy, Debug, PartialEq, Eq, Structural)]
pub enum Kind {
    /// A map: the header gives the number of its entries.
    Mapping,
    /// A string: the header gives the number of its bytes.
    Text,
    /// A byte string: the header gives the number of its bytes.
    Binary,
}

/// The number `n`, below 2^16, as two bytes, the high one first.
pub open spec fn be16(n: nat) -> Seq<u8> {
    seq![(n / 0x100) as u8, (n % 0x100) as u8]
}

/// The number `n`, below 2^32, as four bytes, the highest first.
pub open spec fn be32(n: nat) -> Seq<u8> {
    seq![
        (n / 0x100_0000) as u8,
        (n / 0x1_0000 % 0x100) as u8,
        (n / 0x100 % 0x100) as u8,
        (n % 0x100) as u8,
    ]
}

/// The number that bytes stand for, the highest byte first.
pub open spec fn be_value(bytes: Seq<u8>) -> nat
    decreases bytes.len(),
{
    if bytes.len() == 0 {
        0
    } else {
        be_value(bytes.drop_last()) * 0x100 + bytes.last() as nat
    }
}

/// The header of a value of the given kind and length: the shortest that
/// holds the length. The length is at most `u32::MAX`.
pub open spec fn header(kind: Kind, n: nat) -> Seq<u8> {
    match kind {
        Kind::Mapping => if n < 16 {
            seq![(0x80 + n) as u8]
        } else if n < 0x1_0000 {
            seq![0xdeu8] + be16(n)
        } else {
            seq![0xdfu8] + be32(n)
        },
        Kind::Text => if n < 32 {
            seq![(0xa0 + n) as u8]
        } else if n < 0x100 {
            seq![0xd9u8, n as u8]
        } else if n < 0x1_0000 {
            seq![0xdau8] + be16(n)
        } else {
            seq![0xdbu8] + be32(n)
        },
        Kind::Binary => if n < 0x100 {
            seq![0xc4u8, n as u8]
        } else if n < 0x1_0000 {
            seq![0xc5u8] + be16(n)
        } else {
            seq![0xc6u8] + be32(n)
        },
    }
}

/// The encoding of one entry: the path as a string, then the fingerprint as
/// a byte string.
pub open spec fn packed_entry(e: Entry) -> Seq<u8> {
    header(Kind::Text, encode_utf8(e.0).len()) + encode_utf8(e.0) + header(Kind::Binary, e.1.len())
        + e.1
}

/// The encodings of the entries, one after the other.
pub open spec fn packed_entries(s: Seq<Entry>) -> Seq<u8>
    decreases s.len(),
{
    if s.len() == 0 {
        Seq::empty()
    } else {
        packed_entries(s.drop_last()) + packed_entry(s.last())
    }
}

/// The encoding of a store with the entries `s`.
pub open spec fn packed(s: Seq<Entry>) -> Seq<u8> {
    header(Kind::Mapping, s.len()) + packed_entries(s)
}

/// Index of the first entry whose path takes more than `u32::MAX` bytes; the
/// length of `s` if there is none.
pub open spec fn first_long(s: Seq<Entry>) -> int
    decreases s.len(),
{
    if s.len() == 0 {
        0
    } else {
        let p = first_long(s.drop_last());
        if p < s.len() - 1 {
            p
        } else if encode_utf8(s.last().0).len() > u32::MAX {
            s.len() - 1
        } else {
            s.len() as int
        }
    }
}

/// The length that keeps `s` from being written, if there is one: the number
/// of entries, or else the length of the first path that is too long.
pub open spec fn oversize(s: Seq<Entry>) -> Option<Oversize> {
    if s.len() > u32::MAX {
        Some(Oversize::Entries(s.len() as usize))
    } else if first_long(s) < s.len() {
        Some(Oversize::Path(encode_utf8(s[first_long(s)].0).len() as usize))
    } else {
        None
    }
}

/// How many bytes of length follow the first byte `b` of a header of the
/// given kind; `None` if `b` does not start such a header.
pub open spec fn width(kind: Kind, b: u8) -> Option<int> {
    match kind {
        Kind::Mapping => if 0x80 <= b <= 0x8f {
            Some(0int)
        } else if b == 0xde {
            Some(2int)
        } else if b == 0xdf {
            Some(4int)
        } else {
            None
        },
        Kind::Text => if 0xa0 <= b <= 0xbf {
            Some(0int)
        } else if b == 0xd9 {
            Some(1int)
        } else if b == 0xda {
            Some(2int)
        } else if b == 0xdb {
            Some(4int)
        } else {
            None
        },
        Kind::Binary => if b == 0xc4 {
            Some(1int)
        } else if b == 0xc5 {
            Some(2int)
        } else if b == 0xc6 {
            Some(4int)
        } else {
            None
        },
    }
}

/// The length that a first byte holds in itself.
pub open spec fn fixed(kind: Kind, b: u8) -> int {
    match kind {
        Kind::Mapping => b - 0x80,
        Kind::Text => b - 0xa0,
        Kind::Binary => 0,
    }
}

/// Reads the header of a value of the given kind at the start of `bytes`:
/// the length that it gives, and the number of bytes that the header takes.
pub open spec fn header_at(kind: Kind, bytes: Seq<u8>) -> Result<(int, int), Malformed> {
    if bytes.len() == 0 {
        Err(Malformed::Truncated)
    } else {
        match width(kind, bytes[0]) {
            None => Err(Malformed::Marker(bytes[0])),
            Some(w) => if w == 0 {
                Ok((fixed(kind, bytes[0]), 1int))
            } else if bytes.len() < 1 + w {
                Err(Malformed::Truncated)
            } else {
                Ok((be_value(bytes.subrange(1, 1 + w)) as int, 1 + w))
            },
        }
    }
}

/// Reads one entry at the start of `bytes`: the entry, and the number of
/// bytes that it takes.
pub open spec fn entry_at(bytes: Seq<u8>) -> Result<(Entry, int), Malformed> {
    match header_at(Kind::Text, bytes) {
        Err(e) => Err(e),
        Ok((n, h)) => if bytes.len() < h + n {
            Err(Malformed::Truncated)
        } else if !valid_utf8(bytes.subrange(h, h + n)) {
            Err(Malformed::Utf8)
        } else {
            match header_at(Kind::Binary, bytes.skip(h + n)) {
                Err(e) => Err(e),
                Ok((m, g)) => if m != HASH_BYTES {
                    Err(Malformed::HashLength(m as usize))
                } else if bytes.len() < h + n + g + m {
                    Err(Malformed::Truncated)
                } else {
                    Ok(
                        (
                            (
                                decode_utf8(bytes.subrange(h, h + n)),
                                bytes.subrange(h + n + g, h + n + g + m),
                            ),
                            h + n + g + m,
                        ),
                    )
                },
            }
        },
    }
}

/// Reads `count` entries from the start of `bytes`: the entries, and the
/// number of bytes that they take together.
pub open spec fn entries_at(bytes: Seq<u8>, count: nat) -> Result<(Seq<Entry>, int), Malformed>
    decreases count,
{
    if count == 0 {
        Ok((Seq::empty(), 0int))
    } else {
        match entries_at(bytes, (count - 1) as nat) {
            Err(e) => Err(e),
            Ok((before, used)) => match entry_at(bytes.skip(used)) {
                Err(e) => Err(e),
                Ok((e, more)) => Ok((before.push(e), used + more)),
            },
        }
    }
}

/// Reads `bytes` as the encoding of a store: a map header, as many entries
/// as it gives, and nothing after them. The entries come as they are
/// written, so one path may come more than once.
pub open spec fn unpacked(bytes: Seq<u8>) -> Result<Seq<Entry>, Malformed> {
    match header_at(Kind::Mapping, bytes) {
        Err(e) => Err(e),
        Ok((count, h)) => match entries_at(bytes.skip(h), count as nat) {
            Err(e) => Err(e),
            Ok((s, used)) => if h + used == bytes.len() {
                Ok(s)
            } else {
                Err(Malformed::Trailing)
            },
        },
    }
}

/// `first_long` finds the first path that is too long, and stays in range.
pub proof fn lemma_first_long(s: Seq<Entry>)
    ensures
        0 <= first_long(s) <= s.len(),
        first_long(s) < s.len() ==> encode_utf8(s[first_long(s)].0).len() > u32::MAX,
        forall|i: int| 0 <= i < first_long(s) ==> encode_utf8(s[i].0).len() <= u32::MAX,
    decreases s.len(),
{
    if s.len() != 0 {
        let front = s.drop_last();
        lemma_first_long(front);
        assert forall|i: int| 0 <= i < first_long(s) implies encode_utf8(s[i].0).len()
            <= u32::MAX by {
            if i < front.len() {
                assert(front[i] == s[i]);
            }
        }
    }
}

/// Adds the bytes to the end of `out`.
fn append(out: &mut Vec<u8>, bytes: &[u8])
    ensures
        final(out)@ == old(out)@ + bytes@,
{
    let mut i: usize = 0;
    while i < bytes.len()
        invariant
            i <= bytes.len(),
            out@ == old(out)@ + bytes@.take(i as int),
        decreases bytes.len() - i,
    {
        out.push(bytes[i]);
        assert(out@ =~= old(out)@ + bytes@.take(i + 1));
        i += 1;
    }
    assert(bytes@.take(i as int) =~= bytes@);
}

/// Adds the header of a value of the given kind and length to the end of `out`.
fn push_header(out: &mut Vec<u8>, kind: Kind, n: u32)
    ensures
        final(out)@ == old(out)@ + header(kind, n as nat),
{
    let short: u32 = match kind {
        Kind::Mapping => 16,
        Kind::Text => 32,
        Kind::Binary => 0,
    };
    if n < short {
        let first: u8 = match kind {
            Kind::Mapping => 0x80,
            _ => 0xa0,
        };
        out.push(first + (n as u8));
        assert(out@ =~= old(out)@ + header(kind, n as nat));
    } else if n < 0x100 && kind != Kind::Mapping {
        let first: u8 = match kind {
            Kind::Text => 0xd9,
            _ => 0xc4,
        };
        out.push(first);
        out.push(n as u8);
        assert(out@ =~= old(out)@ + header(kind, n as nat));
    } else if n < 0x1_0000 {
        let first: u8 = match kind {
            Kind::Mapping => 0xde,
            Kind::Text => 0xda,
            Kind::Binary => 0xc5,
        };
        out.push(first);
        out.push((n / 0x100) as u8);
        out.push((n % 0x100) as u8);
        assert(out@ =~= old(out)@ + header(kind, n as nat));
    } else {
        let first: u8 = match kind {
            Kind::Mapping => 0xdf,
            Kind::Text => 0xdb,
            Kind::Binary => 0xc6,
        };
        out.push(first);
        out.push((n / 0x100_0000) as u8);
        out.push((n / 0x1_0000 % 0x100) as u8);
        out.push((n / 0x100 % 0x100) as u8);
        out.push((n % 0x100) as u8);
        assert(out@ =~= old(out)@ + header(kind, n as nat));
    }
}

/// Writes the rows as the encoding of a store, unless a length is too great
/// for the format.
pub(crate) fn pack(rows: &Vec<(String, ImageHash)>) -> (res: Result<Vec<u8>, Oversize>)
    ensures
        match oversize(rows_view(rows@)) {
            Some(o) => res == Err::<Vec<u8>, Oversize>(o),
            None => res matches Ok(bytes) && bytes@ == packed(rows_view(rows@)),
        },
{
    let ghost s = rows_view(rows@);
    if rows.len() > u32::MAX as usize {
        return Err(Oversize::Entries(rows.len()));
    }
    let mut out: Vec<u8> = Vec::new();
    push_header(&mut out, Kind::Mapping, rows.len() as u32);
    let mut i: usize = 0;
    assert(s.take(0) =~= Seq::<Entry>::empty());
    while i < rows.len()
        invariant
            i <= rows.len(),
            s == rows_view(rows@),
            s.len() <= u32::MAX,
            first_long(s.take(i as int)) == i,
            out@ == header(Kind::Mapping, s.len()) + packed_entries(s.take(i as int)),
        decreases rows.len() - i,
    {
        let path = rows[i].0.as_str().as_bytes();
        proof {
            assert(s.take(i + 1).drop_last() =~= s.take(i as int));
            assert(s.take(i + 1).last() == s[i as int]);
            assert(path@ == encode_utf8(s[i as int].0));
        }
        if path.len() > u32::MAX as usize {
            proof {
                lemma_first_long(s);
                lemma_first_long(s.take(i + 1));
                let p = first_long(s);
                if p < i {
                    assert(s.take(i + 1)[p] == s[p]);
                }
                if p > i {
                    assert(encode_utf8(s[i as int].0).len() <= u32::MAX);
                }
            }
            return Err(Oversize::Path(path.len()));
        }
        push_header(&mut out, Kind::Text, path.len() as u32);
        append(&mut out, path);
        push_header(&mut out, Kind::Binary, HASH_BYTES as u32);
        append(&mut out, rows[i].1.as_bytes());
        proof {
            rows[i as int].1.lemma_len();
            assert(out@ =~= header(Kind::Mapping, s.len()) + packed_entries(s.take(i + 1)));
        }
        i += 1;
    }
    proof {
        assert(s.take(i as int) =~= s);
    }
    Ok(out)
}

/// Calls `String::from_utf8`, which gives a string with the given bytes if
/// they are UTF-8, and fails if they are not.
#[verifier::external_body]
fn text(bytes: Vec<u8>) -> (res: Option<String>)
    ensures
        res is Some <==> valid_utf8(bytes@),
        res matches Some(s) ==> s@ == decode_utf8(bytes@),
{
    String::from_utf8(bytes).ok()
}

/// Reads the header of a value of the given kind at the place `at`: the
/// length that it gives, and the place where the header ends.
fn read_header(bytes: &[u8], at: usize, kind: Kind) -> (res: Result<(usize, usize), Malformed>)
    requires
        at <= bytes@.len(),
    ensures
        match header_at(kind, bytes@.skip(at as int)) {
            Ok((n, h)) => res == Ok::<(usize, usize), Malformed>((n as usize, (at + h) as usize))
                && 0 <= n <= u32::MAX && at + h <= bytes@.len() && h >= 1,
            Err(e) => res == Err::<(usize, usize), Malformed>(e),
        },
{
    let ghost rest = bytes@.skip(at as int);
    if at >= bytes.len() {
        return Err(Malformed::Truncated);
    }
    let b = bytes[at];
    assert(rest[0] == b);
    let w: usize = match kind {
        Kind::Mapping => if 0x80 <= b && b <= 0x8f {
            return Ok(((b - 0x80) as usize, at + 1));
        } else if b == 0xde {
            2
        } else if b == 0xdf {
            4
        } else {
            return Err(Malformed::Marker(b));
        },
        Kind::Text => if 0xa0 <= b && b <= 0xbf {
            return Ok(((b - 0xa0) as usize, at + 1));
        } else if b == 0xd9 {
            1
        } else if b == 0xda {
            2
        } else if b == 0xdb {
            4
        } else {
            return Err(Malformed::Marker(b));
        },
        Kind::Binary => if b == 0xc4 {
            1
        } else if b == 0xc5 {
            2
        } else if b == 0xc6 {
            4
        } else {
            return Err(Malformed::Marker(b));
        },
    };
    assert(width(kind, b) == Some(w as int));
    if bytes.len() - at - 1 < w {
        return Err(Malformed::Truncated);
    }
    let ghost digits = rest.subrange(1, 1 + w);
    let mut n: usize = 0;
    let mut i: usize = 0;
    assert(digits.take(0) =~= Seq::<u8>::empty());
    while i < w
        invariant
            i <= w <= 4,
            at + 1 + w <= bytes@.len() <= usize::MAX,
            digits == bytes@.skip(at as int).subrange(1, 1 + w),
            n == be_value(digits.take(i as int)),
            n < pow256(i as nat),
        decreases w - i,
    {
        proof {
            assert(digits.take(i + 1).drop_last() =~= digits.take(i as int));
            assert(digits.take(i + 1).last() == bytes@[at + 1 + i]);
            reveal_with_fuel(pow256, 5);
        }
        n = n * 0x100 + bytes[at + 1 + i] as usize;
        i += 1;
    }
    proof {
        assert(digits.take(w as int) =~= digits);
        reveal_with_fuel(pow256, 5);
    }
    Ok((n, at + 1 + w))
}

/// 256 to the power of `k`.
pub open spec fn pow256(k: nat) -> nat
    decreases k,
{
    if k == 0 {
        1
    } else {
        0x100 * pow256((k - 1) as nat)
    }
}

/// Reads one row at the place `at`: the row, and the place where it ends.
fn read_row(bytes: &[u8], at: usize) -> (res: Result<((String, ImageHash), usize), Malformed>)
    requires
        at <= bytes@.len(),
    ensures
        match entry_at(bytes@.skip(at as int)) {
            Ok((e, used)) => res matches Ok((row, end)) && (row.0@, row.1@) == e && end == at
                + used && end <= bytes@.len() && used >= 1,
            Err(x) => res == Err::<((String, ImageHash), usize), Malformed>(x),
        },
{
    let ghost rest = bytes@.skip(at as int);
    let (n, start) = match read_header(bytes, at, Kind::Text) {
        Ok(found) => found,
        Err(e) => {
            return Err(e);
        },
    };
    let ghost h = start - at;
    if bytes.len() - start < n {
        return Err(Malformed::Truncated);
    }
    let path = slice_to_vec(slice_subrange(bytes, start, start + n));
    assert(path@ =~= rest.subrange(h, h + n));
    let name = match text(path) {
        Some(name) => name,
        None => {
            return Err(Malformed::Utf8);
        },
    };
    assert(rest.skip(h + n) =~= bytes@.skip(start + n));
    let (m, data) = match read_header(bytes, start + n, Kind::Binary) {
        Ok(found) => found,
        Err(e) => {
            return Err(e);
        },
    };
    let ghost g = data - start - n;
    if m != HASH_BYTES {
        return Err(Malformed::HashLength(m));
    }
    if bytes.len() - data < m {
        return Err(Malformed::Truncated);
    }
    let hash = match ImageHash::from_bytes(slice_subrange(bytes, data, data + m)) {
        Some(hash) => hash,
        None => {
            return Err(Malformed::HashLength(m));
        },
    };
    assert(hash@ =~= rest.subrange(h + n + g, h + n + g + m));
    Ok(((name, hash), data + m))
}

/// Errors stay: what has failed for some number of entries fails in the
/// same way for any greater number.
proof fn lemma_entries_at_err(bytes: Seq<u8>, count: nat, more: nat)
    requires
        entries_at(bytes, count) is Err,
        count <= more,
    ensures
        entries_at(bytes, more) == entries_at(bytes, count),
    decreases more,
{
    if count < more {
        lemma_entries_at_err(bytes, count, (more - 1) as nat);
    }
}

/// Reads the bytes as the encoding of a store.
pub(crate) fn unpack(bytes: &[u8]) -> (res: Result<Vec<(String, ImageHash)>, Malformed>)
    ensures
        match unpacked(bytes@) {
            Ok(s) => res matches Ok(rows) && rows_view(rows@) == s,
            Err(e) => res == Err::<Vec<(String, ImageHash)>, Malformed>(e),
        },
{
    let (count, start) = match read_header(bytes, 0, Kind::Mapping) {
        Ok(found) => found,
        Err(e) => {
            assert(bytes@.skip(0) =~= bytes@);
            return Err(e);
        },
    };
    assert(bytes@.skip(0) =~= bytes@);
    let ghost body = bytes@.skip(start as int);
    let mut rows: Vec<(String, ImageHash)> = Vec::new();
    let mut at: usize = start;
    let mut i: usize = 0;
    assert(rows_view(rows@) =~= Seq::<Entry>::empty());
    while i < count
        invariant
            i <= count,
            start <= at <= bytes@.len(),
            body == bytes@.skip(start as int),
            header_at(Kind::Mapping, bytes@) == Ok::<(int, int), Malformed>(
                (count as int, start as int),
            ),
            entries_at(body, i as nat) == Ok::<(Seq<Entry>, int), Malformed>(
                (rows_view(rows@), at - start),
            ),
        decreases count - i,
    {
        assert(body.skip(at - start) =~= bytes@.skip(at as int));
        match read_row(bytes, at) {
            Ok((row, end)) => {
                let ghost before = rows_view(rows@);
                let ghost e = (row.0@, row.1@);
                rows.push(row);
                assert(rows_view(rows@) =~= before.push(e));
                at = end;
            },
            Err(e) => {
                proof {
                    lemma_entries_at_err(body, (i + 1) as nat, count as nat);
                }
                return Err(e);
            },
        }
        i += 1;
    }
    if at != bytes.len() {
        return Err(Malformed::Trailing);
    }
    Ok(rows)
}

/// A header that was written is read as what it was written for, whatever
/// follows it.
pub proof fn lemma_header_at(kind: Kind, n: nat, tail: Seq<u8>)
    requires
        n <= u32::MAX,
    ensures
        header_at(kind, header(kind, n) + tail) == Ok::<(int, int), Malformed>(
            (n as int, header(kind, n).len() as int),
        ),
{
    let written = header(kind, n);
    let bytes = written + tail;
    assert(bytes[0] == written[0]);
    match width(kind, bytes[0]) {
        None => {},
        Some(w) => {
            if w > 0 {
                let digits = bytes.subrange(1, 1 + w);
                assert(digits =~= written.subrange(1, 1 + w));
                reveal_with_fuel(be_value, 5);
                if w == 1 {
                    assert(digits =~= seq![n as u8]);
                } else if w == 2 {
                    assert(digits =~= be16(n));
                    assert(be16(n).drop_last() =~= seq![(n / 0x100) as u8]);
                } else {
                    assert(digits =~= be32(n));
                    let d3 = be32(n).drop_last();
                    let d2 = d3.drop_last();
                    let d1 = d2.drop_last();
                    assert(d3 =~= seq![
                        (n / 0x100_0000) as u8,
                        (n / 0x1_0000 % 0x100) as u8,
                        (n / 0x100 % 0x100) as u8,
                    ]);
                    assert(d2 =~= seq![(n / 0x100_0000) as u8, (n / 0x1_0000 % 0x100) as u8]);
                    assert(d1 =~= seq![(n / 0x100_0000) as u8]);
                    assert(d1.drop_last() =~= Seq::<u8>::empty());
                }
            }
        },
    }
}

/// An entry that was written is read as what it was, whatever follows it.
pub proof fn lemma_entry_at(e: Entry, tail: Seq<u8>)
    requires
        encode_utf8(e.0).len() <= u32::MAX,
        e.1.len() == HASH_BYTES,
    ensures
        entry_at(packed_entry(e) + tail) == Ok::<(Entry, int), Malformed>(
            (e, packed_entry(e).len() as int),
        ),
{
    let path = encode_utf8(e.0);
    let first = header(Kind::Text, path.len());
    let second = header(Kind::Binary, e.1.len());
    let bytes = packed_entry(e) + tail;
    let h = first.len() as int;
    let n = path.len() as int;
    let g = second.len() as int;
    let m = e.1.len() as int;
    assert(bytes =~= first + (path + second + e.1 + tail));
    lemma_header_at(Kind::Text, path.len(), path + second + e.1 + tail);
    assert(bytes.subrange(h, h + n) =~= path);
    vstd::utf8::encode_utf8_valid_utf8(e.0);
    vstd::utf8::encode_utf8_decode_utf8(e.0);
    assert(bytes.skip(h + n) =~= second + (e.1 + tail));
    lemma_header_at(Kind::Binary, e.1.len(), e.1 + tail);
    assert(bytes.subrange(h + n + g, h + n + g + m) =~= e.1);
}

/// Entries that were written are read as what they were, whatever follows
/// them.
pub proof fn lemma_entries_at(s: Seq<Entry>, tail: Seq<u8>)
    requires
        forall|i: int|
            0 <= i < s.len() ==> encode_utf8((#[trigger] s[i]).0).len() <= u32::MAX && s[i].1.len()
                == HASH_BYTES,
    ensures
        entries_at(packed_entries(s) + tail, s.len()) == Ok::<(Seq<Entry>, int), Malformed>(
            (s, packed_entries(s).len() as int),
        ),
    decreases s.len(),
{
    if s.len() == 0 {
        assert(s =~= Seq::<Entry>::empty());
    } else {
        let front = s.drop_last();
        let last = s.last();
        let bytes = packed_entries(s) + tail;
        assert forall|i: int| 0 <= i < front.len() implies encode_utf8(
            (#[trigger] front[i]).0,
        ).len() <= u32::MAX && front[i].1.len() == HASH_BYTES by {
            assert(front[i] == s[i]);
        }
        assert(bytes =~= packed_entries(front) + (packed_entry(last) + tail));
        lemma_entries_at(front, packed_entry(last) + tail);
        let used = packed_entries(front).len() as int;
        assert(bytes.skip(used) =~= packed_entry(last) + tail);
        assert(s[s.len() - 1] == last);
        lemma_entry_at(last, tail);
        assert(front.push(last) =~= s);
    }
}

/// Reading what was written gives back the entries: the same paths with the
/// same fingerprints, in the same order.
pub proof fn lemma_unpacked_packed(s: Seq<Entry>)
    requires
        oversize(s) is None,
        forall|i: int| 0 <= i < s.len() ==> (#[trigger] s[i]).1.len() == HASH_BYTES,
    ensures
        unpacked(packed(s)) == Ok::<Seq<Entry>, Malformed>(s),
{
    let first = header(Kind::Mapping, s.len());
    lemma_header_at(Kind::Mapping, s.len(), packed_entries(s));
    lemma_first_long(s);
    assert(packed(s).skip(first.len() as int) =~= packed_entries(s) + Seq::<u8>::empty());
    lemma_entries_at(s, Seq::<u8>::empty());
}

} // verus!
