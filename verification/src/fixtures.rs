//! The embedded fixture blob: a header (`RVF\0`, the format version and the
//! entry count, each little-endian `u32`) followed by each entry as its path
//! (`u32` length, UTF-8 bytes) and its content (`u64` length, bytes).
use vstd::prelude::*;
use vstd::string::StringSliceAdditionalSpecFns;
use vstd::utf8::{decode_utf8, encode_utf8, valid_utf8};
use crate::text::{decimal, owned, push_decimal, push_str, str_from_utf8, utf8_error_text};
use crate::{EMBEDDED_FIXTURES_FORMAT_VERSION, EMBEDDED_FIXTURES_MAGIC};

verus! {

// ---------------------------------------------------------------------------
// Little-endian integers
// ---------------------------------------------------------------------------

pub open spec fn u32_le(n: u32) -> Seq<u8> {
    seq![(n & 0xff) as u8, ((n >> 8u32) & 0xff) as u8, ((n >> 16u32) & 0xff) as u8, ((n >> 24u32) & 0xff) as u8]
}

pub open spec fn u32_from_le(b: Seq<u8>) -> u32 {
    (b[0] as u32) | ((b[1] as u32) << 8u32) | ((b[2] as u32) << 16u32) | ((b[3] as u32) << 24u32)
}

pub open spec fn u64_le(n: u64) -> Seq<u8> {
    seq![
        (n & 0xff) as u8,
        ((n >> 8u64) & 0xff) as u8,
        ((n >> 16u64) & 0xff) as u8,
        ((n >> 24u64) & 0xff) as u8,
        ((n >> 32u64) & 0xff) as u8,
        ((n >> 40u64) & 0xff) as u8,
        ((n >> 48u64) & 0xff) as u8,
        ((n >> 56u64) & 0xff) as u8,
    ]
}

pub open spec fn u64_from_le(b: Seq<u8>) -> u64 {
    (b[0] as u64) | ((b[1] as u64) << 8u64) | ((b[2] as u64) << 16u64) | ((b[3] as u64) << 24u64) | ((
    b[4] as u64) << 32u64) | ((b[5] as u64) << 40u64) | ((b[6] as u64) << 48u64) | ((b[7] as u64) << 56u64)
}

proof fn lemma_u32_le(n: u32)
    ensures
        u32_le(n).len() == 4,
        u32_from_le(u32_le(n)) == n,
{
    let b = u32_le(n);
    let (b0, b1, b2, b3) = (b[0], b[1], b[2], b[3]);
    assert((b0 as u32) | ((b1 as u32) << 8u32) | ((b2 as u32) << 16u32) | ((b3 as u32) << 24u32) == n) by (bit_vector)
        requires
            b0 == (n & 0xff) as u8,
            b1 == ((n >> 8u32) & 0xff) as u8,
            b2 == ((n >> 16u32) & 0xff) as u8,
            b3 == ((n >> 24u32) & 0xff) as u8,
    ;
}

proof fn lemma_u64_le(n: u64)
    ensures
        u64_le(n).len() == 8,
        u64_from_le(u64_le(n)) == n,
{
    let b = u64_le(n);
    let (b0, b1, b2, b3, b4, b5, b6, b7) = (b[0], b[1], b[2], b[3], b[4], b[5], b[6], b[7]);
    assert((b0 as u64) | ((b1 as u64) << 8u64) | ((b2 as u64) << 16u64) | ((b3 as u64) << 24u64) | ((b4 as u64)
        << 32u64) | ((b5 as u64) << 40u64) | ((b6 as u64) << 48u64) | ((b7 as u64) << 56u64) == n) by (bit_vector)
        requires
            b0 == (n & 0xff) as u8,
            b1 == ((n >> 8u64) & 0xff) as u8,
            b2 == ((n >> 16u64) & 0xff) as u8,
            b3 == ((n >> 24u64) & 0xff) as u8,
            b4 == ((n >> 32u64) & 0xff) as u8,
            b5 == ((n >> 40u64) & 0xff) as u8,
            b6 == ((n >> 48u64) & 0xff) as u8,
            b7 == ((n >> 56u64) & 0xff) as u8,
    ;
}

fn push_u32_le(out: &mut Vec<u8>, n: u32)
    ensures
        final(out)@ == old(out)@ + u32_le(n),
{
    out.push((n & 0xff) as u8);
    out.push(((n >> 8u32) & 0xff) as u8);
    out.push(((n >> 16u32) & 0xff) as u8);
    out.push(((n >> 24u32) & 0xff) as u8);
    assert(final(out)@ =~= old(out)@ + u32_le(n));
}

fn push_u64_le(out: &mut Vec<u8>, n: u64)
    ensures
        final(out)@ == old(out)@ + u64_le(n),
{
    out.push((n & 0xff) as u8);
    out.push(((n >> 8u64) & 0xff) as u8);
    out.push(((n >> 16u64) & 0xff) as u8);
    out.push(((n >> 24u64) & 0xff) as u8);
    out.push(((n >> 32u64) & 0xff) as u8);
    out.push(((n >> 40u64) & 0xff) as u8);
    out.push(((n >> 48u64) & 0xff) as u8);
    out.push(((n >> 56u64) & 0xff) as u8);
    assert(final(out)@ =~= old(out)@ + u64_le(n));
}

fn read_u32_le(b: &[u8], off: usize) -> (r: u32)
    requires
        off + 4 <= b@.len(),
    ensures
        r == u32_from_le(b@.subrange(off as int, off + 4)),
{
    let ghost s = b@.subrange(off as int, off + 4);
    assert(s[0] == b@[off as int] && s[1] == b@[off + 1] && s[2] == b@[off + 2] && s[3] == b@[off + 3]);
    (b[off] as u32) | ((b[off + 1] as u32) << 8u32) | ((b[off + 2] as u32) << 16u32) | ((b[off + 3] as u32) << 24u32)
}

fn read_u64_le(b: &[u8], off: usize) -> (r: u64)
    requires
        off + 8 <= b@.len(),
    ensures
        r == u64_from_le(b@.subrange(off as int, off + 8)),
{
    let ghost s = b@.subrange(off as int, off + 8);
    assert(s[0] == b@[off as int] && s[1] == b@[off + 1] && s[2] == b@[off + 2] && s[3] == b@[off + 3]);
    assert(s[4] == b@[off + 4] && s[5] == b@[off + 5] && s[6] == b@[off + 6] && s[7] == b@[off + 7]);
    (b[off] as u64) | ((b[off + 1] as u64) << 8u64) | ((b[off + 2] as u64) << 16u64) | ((b[off + 3] as u64) << 24u64)
        | ((b[off + 4] as u64) << 32u64) | ((b[off + 5] as u64) << 40u64) | ((b[off + 6] as u64) << 48u64) | ((
    b[off + 7] as u64) << 56u64)
}

// ---------------------------------------------------------------------------
// Encoding
// ---------------------------------------------------------------------------

/// An entry as plain values: its path and its content.
pub type EntryView = (Seq<char>, Seq<u8>);

pub open spec fn entry_views(es: Seq<(String, Vec<u8>)>) -> Seq<EntryView> {
    es.map_values(|e: (String, Vec<u8>)| (e.0@, e.1@))
}

pub open spec fn magic() -> Seq<u8> {
    seq![0x52u8, 0x56u8, 0x46u8, 0x00u8]
}

/// One entry: the path's UTF-8 length and bytes, the content's length and
/// bytes.
pub open spec fn entry_encoding(e: EntryView) -> Seq<u8> {
    let pb = encode_utf8(e.0);
    u32_le(pb.len() as u32) + pb + u64_le(e.1.len() as u64) + e.1
}

pub open spec fn entries_encoding(es: Seq<EntryView>) -> Seq<u8>
    decreases es.len(),
{
    if es.len() == 0 {
        Seq::empty()
    } else {
        entry_encoding(es[0]) + entries_encoding(es.skip(1))
    }
}

/// The blob holding `es`, in order.
pub open spec fn blob_spec(es: Seq<EntryView>) -> Seq<u8> {
    magic() + u32_le(1) + u32_le(es.len() as u32) + entries_encoding(es)
}

/// Whether every count and length of `es` fits its field.
pub open spec fn encodable(es: Seq<EntryView>) -> bool {
    &&& es.len() <= u32::MAX
    &&& forall|k: int| 0 <= k < es.len() ==> fits(#[trigger] es[k])
}

/// Whether an entry's lengths fit their fields.
pub open spec fn fits(e: EntryView) -> bool {
    encode_utf8(e.0).len() <= u32::MAX && e.1.len() <= u64::MAX
}

proof fn lemma_entries_encoding_step(es: Seq<EntryView>, i: int)
    requires
        0 <= i < es.len(),
    ensures
        entries_encoding(es.subrange(0, i + 1)) == entries_encoding(es.subrange(0, i)) + entry_encoding(es[i]),
    decreases i,
{
    let a = es.subrange(0, i + 1);
    let b = es.subrange(0, i);
    if i == 0 {
        assert(a.skip(1) =~= Seq::<EntryView>::empty());
        assert(entries_encoding(a.skip(1)) =~= Seq::<u8>::empty());
        assert(a[0] == es[0]);
        assert(entries_encoding(a) =~= entry_encoding(es[0]));
        assert(entries_encoding(b) =~= Seq::<u8>::empty());
    } else {
        lemma_entries_encoding_step(es.skip(1), i - 1);
        assert(a.skip(1) =~= es.skip(1).subrange(0, i));
        assert(b.skip(1) =~= es.skip(1).subrange(0, i - 1));
        assert(es.skip(1)[i - 1] == es[i]);
        assert(a[0] == es[0] && b[0] == es[0]);
    }
}

/// The blob holding `entries`, in order (see [`blob_spec`]).
pub fn fixture_blob(entries: &Vec<(String, Vec<u8>)>) -> (r: Vec<u8>)
    requires
        encodable(entry_views(entries@)),
    ensures
        r@ == blob_spec(entry_views(entries@)),
{
    let ghost es = entry_views(entries@);
    let mut out: Vec<u8> = Vec::new();
    let magic_bytes = EMBEDDED_FIXTURES_MAGIC;
    let mut m: usize = 0;
    while m < 4
        invariant
            m <= 4,
            magic_bytes@ == magic(),
            out@ == magic().subrange(0, m as int),
        decreases 4 - m,
    {
        out.push(magic_bytes[m]);
        assert(out@ =~= magic().subrange(0, m + 1));
        m = m + 1;
    }
    assert(out@ =~= magic());
    push_u32_le(&mut out, EMBEDDED_FIXTURES_FORMAT_VERSION);
    push_u32_le(&mut out, entries.len() as u32);
    let ghost head = out@;
    assert(es.subrange(0, 0) =~= Seq::<EntryView>::empty());
    let mut i: usize = 0;
    while i < entries.len()
        invariant
            i <= entries@.len(),
            es == entry_views(entries@),
            encodable(es),
            out@ == head + entries_encoding(es.subrange(0, i as int)),
        decreases entries@.len() - i,
    {
        let path = entries[i].0.as_str();
        let content = &entries[i].1;
        let pb = path.as_bytes();
        assert(es[i as int] == (entries@[i as int].0@, entries@[i as int].1@));
        assert(pb@ == encode_utf8(es[i as int].0));
        let ghost before = out@;
        push_u32_le(&mut out, pb.len() as u32);
        let mut k: usize = 0;
        while k < pb.len()
            invariant
                k <= pb@.len(),
                out@ == before + u32_le(pb@.len() as u32) + pb@.subrange(0, k as int),
            decreases pb@.len() - k,
        {
            out.push(pb[k]);
            assert(out@ =~= before + u32_le(pb@.len() as u32) + pb@.subrange(0, k + 1));
            k = k + 1;
        }
        push_u64_le(&mut out, content.len() as u64);
        let mut k: usize = 0;
        let ghost mid = out@;
        while k < content.len()
            invariant
                k <= content@.len(),
                out@ == mid + content@.subrange(0, k as int),
            decreases content@.len() - k,
        {
            out.push(content[k]);
            assert(out@ =~= mid + content@.subrange(0, k + 1));
            k = k + 1;
        }
        proof {
            assert(pb@.subrange(0, pb@.len() as int) =~= pb@);
            assert(content@.subrange(0, content@.len() as int) =~= content@);
            lemma_entries_encoding_step(es, i as int);
            assert(out@ =~= before + entry_encoding(es[i as int]));
        }
        i = i + 1;
    }
    assert(es.subrange(0, es.len() as int) =~= es);
    out
}

// ---------------------------------------------------------------------------
// Decoding
// ---------------------------------------------------------------------------

/// Reading `n` entries from offset `off`: the entries and the offset after
/// them, or the first problem met.
pub open spec fn parse_entries(b: Seq<u8>, off: int, n: nat) -> Result<(Seq<EntryView>, int), Seq<char>>
    decreases n,
{
    if n == 0 {
        Ok((Seq::empty(), off))
    } else if b.len() < off + 4 {
        Err("truncated path_len"@)
    } else {
        let o1 = off + 4;
        let pl = u32_from_le(b.subrange(off, o1)) as int;
        if b.len() < o1 + pl {
            Err("truncated path bytes"@)
        } else {
            let pb = b.subrange(o1, o1 + pl);
            let o2 = o1 + pl;
            if !valid_utf8(pb) {
                Err("path utf-8: "@ + utf8_error_text(pb))
            } else if b.len() < o2 + 8 {
                Err("truncated content_len"@)
            } else {
                let o3 = o2 + 8;
                let cl = u64_from_le(b.subrange(o2, o3)) as int;
                if b.len() < o3 + cl {
                    Err("truncated content bytes"@)
                } else {
                    match parse_entries(b, o3 + cl, (n - 1) as nat) {
                        Err(e) => Err(e),
                        Ok((rest, end)) => Ok((seq![(decode_utf8(pb), b.subrange(o3, o3 + cl))] + rest, end)),
                    }
                }
            }
        }
    }
}

/// Reading a blob: its entries, or the first problem met.
pub open spec fn parse_blob_spec(b: Seq<u8>) -> Result<Seq<EntryView>, Seq<char>> {
    if b.len() < 12 {
        Err("blob too short: "@ + decimal(b.len()))
    } else if b.subrange(0, 4) != magic() {
        Err("magic mismatch"@)
    } else if u32_from_le(b.subrange(4, 8)) != 1 {
        Err("unknown version "@ + decimal(u32_from_le(b.subrange(4, 8)) as nat))
    } else {
        match parse_entries(b, 12, u32_from_le(b.subrange(8, 12)) as nat) {
            Err(e) => Err(e),
            Ok((es, end)) => if end != b.len() {
                Err("blob has "@ + decimal((b.len() - end) as nat) + " trailing bytes after entries"@)
            } else {
                Ok(es)
            },
        }
    }
}

fn copy_bytes(b: &[u8], from: usize, to: usize) -> (r: Vec<u8>)
    requires
        from <= to <= b@.len(),
    ensures
        r@ == b@.subrange(from as int, to as int),
{
    let mut r: Vec<u8> = Vec::new();
    let mut k = from;
    while k < to
        invariant
            from <= k <= to <= b@.len(),
            r@ == b@.subrange(from as int, k as int),
        decreases to - k,
    {
        r.push(b[k]);
        assert(r@ =~= b@.subrange(from as int, k + 1));
        k = k + 1;
    }
    r
}

/// Reads a blob (see [`parse_blob_spec`]).
pub fn parse_fixture_blob(blob: &[u8]) -> (r: Result<Vec<(String, Vec<u8>)>, String>)
    ensures
        match parse_blob_spec(blob@) {
            Ok(es) => r matches Ok(v) && entry_views(v@) == es,
            Err(e) => r matches Err(m) && m@ == e,
        },
{
    let len = blob.len();
    if len < 12 {
        let mut m = owned("blob too short: ");
        push_decimal(&mut m, len as u128);
        return Err(m);
    }
    if !(blob[0] == 0x52 && blob[1] == 0x56 && blob[2] == 0x46 && blob[3] == 0x00) {
        assert(blob@.subrange(0, 4) != magic()) by {
            if blob@.subrange(0, 4) == magic() {
                assert(blob@.subrange(0, 4)[0] == blob@[0] && blob@.subrange(0, 4)[1] == blob@[1]);
                assert(blob@.subrange(0, 4)[2] == blob@[2] && blob@.subrange(0, 4)[3] == blob@[3]);
            }
        }
        return Err(owned("magic mismatch"));
    }
    assert(blob@.subrange(0, 4) =~= magic());
    let version = read_u32_le(blob, 4);
    if version != EMBEDDED_FIXTURES_FORMAT_VERSION {
        let mut m = owned("unknown version ");
        push_decimal(&mut m, version as u128);
        return Err(m);
    }
    let count = read_u32_le(blob, 8);
    let ghost total = count as nat;
    let mut out: Vec<(String, Vec<u8>)> = Vec::new();
    let mut offset: usize = 12;
    let mut done: u32 = 0;
    while done < count
        invariant
            len == blob@.len(),
            len >= 12,
            blob@.subrange(0, 4) == magic(),
            u32_from_le(blob@.subrange(4, 8)) == 1,
            count == u32_from_le(blob@.subrange(8, 12)),
            total == count as nat,
            done <= count,
            offset <= len,
            parse_entries(blob@, 12, total) == match parse_entries(blob@, offset as int, (count - done) as nat) {
                Err(e) => Err(e),
                Ok((rest, end)) => Ok((entry_views(out@) + rest, end)),
            },
        decreases count - done,
    {
        let ghost remaining = (count - done) as nat;
        if len - offset < 4 {
            return Err(owned("truncated path_len"));
        }
        let path_len = read_u32_le(blob, offset) as usize;
        let o1 = offset + 4;
        if len - o1 < path_len {
            return Err(owned("truncated path bytes"));
        }
        let o2 = o1 + path_len;
        let path = match str_from_utf8(&blob[o1..o2]) {
            Err(e) => {
                let mut m = owned("path utf-8: ");
                push_str(&mut m, e.as_str());
                proof {
                    assert(blob@.subrange(o1 as int, o2 as int) =~= blob@.subrange(o1 as int, o1 + path_len));
                }
                return Err(m);
            },
            Ok(p) => p,
        };
        if len - o2 < 8 {
            return Err(owned("truncated content_len"));
        }
        let content_len = read_u64_le(blob, o2);
        let o3 = o2 + 8;
        if ((len - o3) as u64) < content_len {
            return Err(owned("truncated content bytes"));
        }
        let end = o3 + content_len as usize;
        let content = copy_bytes(blob, o3, end);
        let path_owned = owned(path);
        proof {
            let pb = blob@.subrange(o1 as int, o2 as int);
            vstd::utf8::encode_utf8_decode_utf8(path@);
            assert(path_owned@ == decode_utf8(pb));
            let ghost before = entry_views(out@);
            assert(entry_views(out@.push((path_owned, content))) =~= before.push((path_owned@, content@)));
            match parse_entries(blob@, end as int, (remaining - 1) as nat) {
                Err(_) => {},
                Ok((rest, e)) => {
                    assert(before + (seq![(decode_utf8(pb), blob@.subrange(o3 as int, end as int))] + rest) =~= before.push(
                        (path_owned@, content@),
                    ) + rest);
                },
            }
        }
        out.push((path_owned, content));
        offset = end;
        done = done + 1;
    }
    proof {
        assert(entry_views(out@) + Seq::<EntryView>::empty() =~= entry_views(out@));
    }
    if offset != len {
        let mut m = owned("blob has ");
        push_decimal(&mut m, (len - offset) as u128);
        push_str(&mut m, " trailing bytes after entries");
        return Err(m);
    }
    Ok(out)
}

// ---------------------------------------------------------------------------
// The round trip
// ---------------------------------------------------------------------------

proof fn lemma_entry_fields(b: Seq<u8>, off: int, e: EntryView)
    requires
        0 <= off,
        off + entry_encoding(e).len() <= b.len(),
        b.subrange(off, off + entry_encoding(e).len()) == entry_encoding(e),
        fits(e),
    ensures
        entry_encoding(e).len() == 12 + encode_utf8(e.0).len() + e.1.len(),
        u32_from_le(b.subrange(off, off + 4)) as int == encode_utf8(e.0).len(),
        b.subrange(off + 4, off + 4 + encode_utf8(e.0).len()) == encode_utf8(e.0),
        u64_from_le(b.subrange(off + 4 + encode_utf8(e.0).len(), off + 12 + encode_utf8(e.0).len())) as int
            == e.1.len(),
        b.subrange(off + 12 + encode_utf8(e.0).len(), off + 12 + encode_utf8(e.0).len() + e.1.len()) == e.1,
{
    let pb = encode_utf8(e.0);
    let pl = pb.len() as int;
    let enc = entry_encoding(e);
    lemma_u32_le(pl as u32);
    lemma_u64_le(e.1.len() as u64);
    let w = b.subrange(off, off + enc.len());
    assert(enc.subrange(0, 4) =~= u32_le(pl as u32));
    assert(enc.subrange(4, 4 + pl) =~= pb);
    assert(enc.subrange(4 + pl, 12 + pl) =~= u64_le(e.1.len() as u64));
    assert(enc.subrange(12 + pl, 12 + pl + e.1.len()) =~= e.1);
    assert(b.subrange(off, off + 4) =~= w.subrange(0, 4));
    assert(b.subrange(off + 4, off + 4 + pl) =~= w.subrange(4, 4 + pl));
    assert(b.subrange(off + 4 + pl, off + 12 + pl) =~= w.subrange(4 + pl, 12 + pl));
    assert(b.subrange(off + 12 + pl, off + 12 + pl + e.1.len()) =~= w.subrange(12 + pl, 12 + pl + e.1.len()));
}

/// One step of [`parse_entries`] over a well-formed entry at `off`.
proof fn lemma_parse_step(b: Seq<u8>, off: int, n: nat, e: EntryView)
    requires
        n > 0,
        0 <= off,
        off + entry_encoding(e).len() <= b.len(),
        b.subrange(off, off + entry_encoding(e).len()) == entry_encoding(e),
        fits(e),
    ensures
        parse_entries(b, off, n) == match parse_entries(b, off + entry_encoding(e).len(), (n - 1) as nat) {
            Err(x) => Err(x),
            Ok((rest, end)) => Ok((seq![e] + rest, end)),
        },
{
    lemma_entry_fields(b, off, e);
    vstd::utf8::encode_utf8_valid_utf8(e.0);
    vstd::utf8::encode_utf8_decode_utf8(e.0);
}

proof fn lemma_parse_entries(pre: Seq<u8>, es: Seq<EntryView>, post: Seq<u8>)
    requires
        forall|k: int| 0 <= k < es.len() ==> fits(#[trigger] es[k]),
    ensures
        parse_entries(pre + entries_encoding(es) + post, pre.len() as int, es.len()) == Ok::<
            (Seq<EntryView>, int),
            Seq<char>,
        >((es, (pre.len() + entries_encoding(es).len()) as int)),
    decreases es.len(),
{
    let b = pre + entries_encoding(es) + post;
    if es.len() == 0 {
        assert(es =~= Seq::<EntryView>::empty());
    } else {
        let e = es[0];
        let enc = entry_encoding(e);
        let rest = es.skip(1);
        let off = pre.len() as int;
        assert forall|k: int| 0 <= k < rest.len() implies fits(#[trigger] rest[k]) by {
            assert(rest[k] == es[k + 1]);
        }
        assert(fits(es[0]));
        assert(entries_encoding(es) == enc + entries_encoding(rest));
        assert(b == (pre + enc) + entries_encoding(rest) + post) by {
            assert(b =~= (pre + enc) + entries_encoding(rest) + post);
        }
        assert(b.subrange(off, off + enc.len()) == enc) by {
            assert(b.subrange(off, off + enc.len()) =~= enc);
        }
        lemma_parse_step(b, off, es.len(), e);
        lemma_parse_entries(pre + enc, rest, post);
        assert(seq![e] + rest =~= es);
    }
}

/// Reading the blob written for any entries whose lengths fit their fields
/// gives those entries back, in order.
pub proof fn law_fixture_blob_round_trip(es: Seq<EntryView>)
    requires
        encodable(es),
    ensures
        parse_blob_spec(blob_spec(es)) == Ok::<Seq<EntryView>, Seq<char>>(es),
{
    let b = blob_spec(es);
    let head = magic() + u32_le(1) + u32_le(es.len() as u32);
    lemma_u32_le(1);
    lemma_u32_le(es.len() as u32);
    lemma_parse_entries(head, es, Seq::empty());
    assert(head + entries_encoding(es) + Seq::<u8>::empty() =~= b);
    assert(b.subrange(0, 4) =~= magic());
    assert(b.subrange(4, 8) =~= u32_le(1));
    assert(b.subrange(8, 12) =~= u32_le(es.len() as u32));
}

// ---------------------------------------------------------------------------
// The embedded corpus
// ---------------------------------------------------------------------------

/// Code-point order on texts (that of `String`'s `Ord`: UTF-8 byte order
/// agrees with code-point order).
pub open spec fn text_lt(a: Seq<char>, b: Seq<char>) -> bool
    decreases a.len(),
{
    if a.len() == 0 {
        b.len() > 0
    } else if b.len() == 0 {
        false
    } else if a[0] != b[0] {
        (a[0] as u32) < (b[0] as u32)
    } else {
        text_lt(a.skip(1), b.skip(1))
    }
}

proof fn lemma_text_lt_asymmetric(a: Seq<char>, b: Seq<char>)
    ensures
        !(text_lt(a, b) && text_lt(b, a)),
    decreases a.len(),
{
    if a.len() > 0 && b.len() > 0 && a[0] == b[0] {
        lemma_text_lt_asymmetric(a.skip(1), b.skip(1));
    }
}

proof fn lemma_text_lt_transitive(a: Seq<char>, b: Seq<char>, c: Seq<char>)
    requires
        text_lt(a, b),
        text_lt(b, c),
    ensures
        text_lt(a, c),
    decreases a.len(),
{
    if a.len() > 0 && b.len() > 0 && c.len() > 0 {
        vstd::utf8::char_u32_cast(a[0], a[0] as u32);
        vstd::utf8::char_u32_cast(b[0], b[0] as u32);
        vstd::utf8::char_u32_cast(c[0], c[0] as u32);
        if a[0] == b[0] && b[0] == c[0] {
            lemma_text_lt_transitive(a.skip(1), b.skip(1), c.skip(1));
        }
    }
}

proof fn lemma_text_lt_total(a: Seq<char>, b: Seq<char>)
    ensures
        a == b || text_lt(a, b) || text_lt(b, a),
    decreases a.len(),
{
    if a.len() > 0 && b.len() > 0 {
        vstd::utf8::char_u32_cast(a[0], a[0] as u32);
        vstd::utf8::char_u32_cast(b[0], b[0] as u32);
        if a[0] == b[0] {
            lemma_text_lt_total(a.skip(1), b.skip(1));
            if a.skip(1) == b.skip(1) {
                assert(a =~= seq![a[0]] + a.skip(1));
                assert(b =~= seq![b[0]] + b.skip(1));
            }
        }
    } else if a.len() == 0 && b.len() == 0 {
        assert(a =~= b);
    }
}

/// Whether text `a` orders strictly before `b` (see [`text_lt`]).
fn text_less(a: &str, b: &str) -> (r: bool)
    ensures
        r == text_lt(a@, b@),
{
    let x = crate::text::chars_of(a);
    let y = crate::text::chars_of(b);
    let mut i: usize = 0;
    assert(x@.skip(0) =~= x@);
    assert(y@.skip(0) =~= y@);
    loop
        invariant
            x@ == a@,
            y@ == b@,
            i <= x@.len(),
            i <= y@.len(),
            text_lt(a@, b@) == text_lt(x@.skip(i as int), y@.skip(i as int)),
        decreases x@.len() - i,
    {
        let ghost xs = x@.skip(i as int);
        let ghost ys = y@.skip(i as int);
        if i == x.len() {
            return i < y.len();
        }
        if i == y.len() {
            return false;
        }
        let cx = x[i];
        let cy = y[i];
        assert(xs[0] == cx && ys[0] == cy);
        if cx != cy {
            return (cx as u32) < (cy as u32);
        }
        assert(xs.skip(1) =~= x@.skip(i + 1));
        assert(ys.skip(1) =~= y@.skip(i + 1));
        i = i + 1;
    }
}

/// Entries in non-decreasing path order.
pub open spec fn entries_sorted(s: Seq<(String, Vec<u8>)>) -> bool {
    forall|i: int, j: int| 0 <= i < j < s.len() ==> !text_lt(s[j].0@, s[i].0@)
}

/// The entries sorted by path (see [`text_lt`]).
fn sort_entries(v: Vec<(String, Vec<u8>)>) -> (r: Vec<(String, Vec<u8>)>)
    ensures
        r@.to_multiset() == v@.to_multiset(),
        entries_sorted(r@),
{
    broadcast use vstd::multiset::group_multiset_axioms;
    let ghost orig = v@;
    let mut rest = v;
    let mut out: Vec<(String, Vec<u8>)> = Vec::new();
    proof {
        vstd::seq_lib::to_multiset_len(out@);
        vstd::multiset::lemma_multiset_empty_len(out@.to_multiset());
    }
    assert(orig.to_multiset() =~= rest@.to_multiset().add(out@.to_multiset()));
    while rest.len() > 0
        invariant
            orig.to_multiset() == rest@.to_multiset().add(out@.to_multiset()),
            entries_sorted(out@),
        decreases rest@.len(),
    {
        let ghost before = rest@;
        let x = rest.pop().unwrap();
        assert(before =~= rest@.push(x));
        proof {
            vstd::seq_lib::to_multiset_build(rest@, x);
        }
        let mut k: usize = 0;
        while k < out.len() && !text_less(x.0.as_str(), out[k].0.as_str())
            invariant
                k <= out@.len(),
                forall|i: int| 0 <= i < k ==> !text_lt(x.0@, out@[i].0@),
            decreases out@.len() - k,
        {
            k = k + 1;
        }
        let ghost old_out = out@;
        out.insert(k, x);
        assert(out@ == old_out.insert(k as int, x));
        proof {
            vstd::seq_lib::to_multiset_insert(old_out, k as int, x);
        }
        assert(orig.to_multiset() =~= rest@.to_multiset().add(out@.to_multiset()));
        assert forall|i: int, j: int| 0 <= i < j < out@.len() implies !text_lt(out@[j].0@, out@[i].0@) by {
            if j < k {
                assert(out@[i] == old_out[i] && out@[j] == old_out[j]);
            } else if j == k {
                assert(out@[i] == old_out[i]);
            } else if i == k {
                assert(out@[j] == old_out[j - 1]);
                assert(text_lt(x.0@, old_out[k as int].0@));
                if j - 1 > k {
                    lemma_text_lt_total(old_out[k as int].0@, old_out[j - 1].0@);
                    if text_lt(old_out[k as int].0@, old_out[j - 1].0@) {
                        lemma_text_lt_transitive(x.0@, old_out[k as int].0@, old_out[j - 1].0@);
                    }
                }
                lemma_text_lt_asymmetric(x.0@, old_out[j - 1].0@);
            } else if i < k {
                assert(out@[i] == old_out[i] && out@[j] == old_out[j - 1]);
            } else {
                assert(out@[i] == old_out[i - 1] && out@[j] == old_out[j - 1]);
            }
        }
    }
    proof {
        vstd::seq_lib::to_multiset_len(rest@);
        vstd::multiset::lemma_multiset_empty_len(rest@.to_multiset());
    }
    assert(rest@.to_multiset() =~= vstd::multiset::Multiset::empty());
    assert(orig.to_multiset() =~= out@.to_multiset());
    out
}

proof fn lemma_permutation_encodable(a: Seq<(String, Vec<u8>)>, b: Seq<(String, Vec<u8>)>)
    requires
        a.to_multiset() == b.to_multiset(),
        encodable(entry_views(a)),
    ensures
        encodable(entry_views(b)),
{
    vstd::seq_lib::to_multiset_len(a);
    vstd::seq_lib::to_multiset_len(b);
    assert forall|k: int| 0 <= k < entry_views(b).len() implies fits(#[trigger] entry_views(b)[k]) by {
        assert(b.contains(b[k]));
        vstd::seq_lib::to_multiset_contains(b, b[k]);
        vstd::seq_lib::to_multiset_contains(a, b[k]);
        let w = choose|w: int| 0 <= w < a.len() && a[w] == b[k];
        assert(entry_views(a)[w] == entry_views(b)[k]);
    }
}

/// The fixture blob of a corpus: its entries sorted by path and written
/// with [`fixture_blob`]. The corpus is the canonical fixture tree, given by
/// whoever builds the blob; an empty corpus is refused.
pub fn embedded_fixtures(corpus: Vec<(String, Vec<u8>)>) -> (r: Vec<u8>)
    requires
        corpus@.len() > 0,
        encodable(entry_views(corpus@)),
    ensures
        exists|s: Seq<(String, Vec<u8>)>|
            s.to_multiset() == corpus@.to_multiset() && entries_sorted(s) && r@ == #[trigger] blob_spec(
                entry_views(s),
            ),
{
    let ghost c = corpus@;
    let sorted = sort_entries(corpus);
    proof {
        lemma_permutation_encodable(c, sorted@);
    }
    let r = fixture_blob(&sorted);
    assert(sorted@.to_multiset() == c.to_multiset() && entries_sorted(sorted@) && r@ == blob_spec(
        entry_views(sorted@),
    ));
    r
}

} // verus!
