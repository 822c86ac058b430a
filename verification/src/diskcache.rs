//! Versioned binary cache files for row offsets and sort permutations:
//! a magic, a version, a `(file length, mtime)` validation pair, and the
//! payload, all little-endian. A reader validates everything before use;
//! any mismatch or truncation is a miss.

use vstd::bytes::{
    lemma_auto_spec_u32_to_from_le_bytes, lemma_auto_spec_u64_to_from_le_bytes,
    spec_u32_to_le_bytes, spec_u64_to_le_bytes, u32_from_le_bytes, u64_from_le_bytes,
};
use vstd::prelude::*;

verus! {

pub const CACHE_VERSION: u32 = 1;

/// Identifies one (path, length, mtime, dialect) combination on disk.
#[derive(Clone, Copy, Debug, PartialEq, Eq, Structural)]
pub struct CacheKey {
    pub hash: u64,
    pub len: u64,
    pub modified: u64,
}

/// The four magic bytes of an offsets file.
pub open spec fn spec_offsets_magic() -> Seq<u8> {
    seq![67u8, 86u8, 79u8, 70u8]
}

/// The four magic bytes of a sort-order file.
pub open spec fn spec_order_magic() -> Seq<u8> {
    seq![67u8, 86u8, 83u8, 79u8]
}

/// A list of 64-bit values laid out little-endian.
pub open spec fn spec_u64s_bytes(vals: Seq<u64>) -> Seq<u8>
    decreases vals.len(),
{
    if vals.len() == 0 {
        Seq::empty()
    } else {
        spec_u64s_bytes(vals.drop_last()) + spec_u64_to_le_bytes(vals.last())
    }
}

pub proof fn lemma_u64s_bytes_len(vals: Seq<u64>)
    ensures
        spec_u64s_bytes(vals).len() == 8 * vals.len(),
    decreases vals.len(),
{
    lemma_auto_spec_u64_to_from_le_bytes();
    if vals.len() > 0 {
        lemma_u64s_bytes_len(vals.drop_last());
    }
}

pub proof fn lemma_u64s_bytes_index(vals: Seq<u64>, i: int)
    requires
        0 <= i < vals.len(),
    ensures
        spec_u64s_bytes(vals).subrange(8 * i, 8 * i + 8) == spec_u64_to_le_bytes(vals[i]),
    decreases vals.len(),
{
    lemma_auto_spec_u64_to_from_le_bytes();
    lemma_u64s_bytes_len(vals);
    if i == vals.len() - 1 {
        lemma_u64s_bytes_len(vals.drop_last());
        assert(spec_u64s_bytes(vals).subrange(8 * i, 8 * i + 8) =~= spec_u64_to_le_bytes(
            vals.last(),
        ));
    } else {
        lemma_u64s_bytes_index(vals.drop_last(), i);
        lemma_u64s_bytes_len(vals.drop_last());
        assert(spec_u64s_bytes(vals).subrange(8 * i, 8 * i + 8) =~= spec_u64s_bytes(
            vals.drop_last(),
        ).subrange(8 * i, 8 * i + 8));
        assert(vals.drop_last()[i] == vals[i]);
    }
}

/// The exact bytes of an offsets cache file.
pub open spec fn spec_offsets_file(key: CacheKey, offs: Seq<u64>) -> Seq<u8> {
    spec_offsets_magic() + spec_u32_to_le_bytes(CACHE_VERSION) + spec_u64_to_le_bytes(key.len)
        + spec_u64_to_le_bytes(key.modified) + spec_u64_to_le_bytes(offs.len() as u64)
        + spec_u64s_bytes(offs)
}

/// The lower-case hex digit for a value below 16.
pub open spec fn hex_digit_char(n: int) -> char {
    if n == 0 {
        '0'
    } else if n == 1 {
        '1'
    } else if n == 2 {
        '2'
    } else if n == 3 {
        '3'
    } else if n == 4 {
        '4'
    } else if n == 5 {
        '5'
    } else if n == 6 {
        '6'
    } else if n == 7 {
        '7'
    } else if n == 8 {
        '8'
    } else if n == 9 {
        '9'
    } else if n == 10 {
        'a'
    } else if n == 11 {
        'b'
    } else if n == 12 {
        'c'
    } else if n == 13 {
        'd'
    } else if n == 14 {
        'e'
    } else {
        'f'
    }
}

/// A 64-bit value as 16 hex digits, most significant first.
pub open spec fn spec_hex16(v: u64) -> Seq<char> {
    Seq::new(16, |k: int| hex_digit_char(((v >> (((15 - k) as u64) * 4)) & 0xf) as int))
}

/// A number in decimal digits.
pub open spec fn spec_decimal(n: int) -> Seq<char>
    decreases n,
{
    if n < 10 {
        seq![hex_digit_char(if n < 0 {
            0
        } else {
            n
        })]
    } else {
        spec_decimal(n / 10) + seq![hex_digit_char(n % 10)]
    }
}

/// The one-character string of a digit value below 16.
fn hex_digit_str(d: u8) -> (r: &'static str)
    requires
        d < 16,
    ensures
        r@ == seq![hex_digit_char(d as int)],
{
    proof {
        reveal_strlit("0");
        reveal_strlit("1");
        reveal_strlit("2");
        reveal_strlit("3");
        reveal_strlit("4");
        reveal_strlit("5");
        reveal_strlit("6");
        reveal_strlit("7");
        reveal_strlit("8");
        reveal_strlit("9");
        reveal_strlit("a");
        reveal_strlit("b");
        reveal_strlit("c");
        reveal_strlit("d");
        reveal_strlit("e");
        reveal_strlit("f");
    }
    let r = match d {
        0 => "0",
        1 => "1",
        2 => "2",
        3 => "3",
        4 => "4",
        5 => "5",
        6 => "6",
        7 => "7",
        8 => "8",
        9 => "9",
        10 => "a",
        11 => "b",
        12 => "c",
        13 => "d",
        14 => "e",
        _ => "f",
    };
    proof {
        assert(r@ =~= seq![hex_digit_char(d as int)]);
    }
    r
}

/// Append a 64-bit value as 16 hex digits.
fn push_hex16(out: &mut String, v: u64)
    ensures
        final(out)@ == old(out)@ + spec_hex16(v),
{
    let ghost pre = out@;
    let mut k: usize = 0;
    while k < 16
        invariant
            0 <= k <= 16,
            out@ == pre + spec_hex16(v).take(k as int),
        decreases 16 - k,
    {
        let shift: u64 = (15 - k as u64) * 4;
        let d = ((v >> shift) & 0xf) as u8;
        assert(d < 16) by (bit_vector)
            requires
                d == ((v >> shift) & 0xf) as u8,
        ;
        assert((v >> shift) & 0xf <= 0xf) by (bit_vector);
        assert(d as int == ((v >> shift) & 0xf) as int);
        assert(shift == ((15 - k as int) as u64) * 4);
        assert(seq![hex_digit_char(d as int)] =~= seq![spec_hex16(v)[k as int]]);
        out.append(hex_digit_str(d));
        k = k + 1;
        assert(out@ =~= pre + spec_hex16(v).take(k as int));
    }
    assert(out@ =~= pre + spec_hex16(v));
}

/// Append a number in decimal.
pub fn push_decimal(out: &mut String, n: usize)
    ensures
        final(out)@ == old(out)@ + spec_decimal(n as int),
    decreases n,
{
    if n >= 10 {
        push_decimal(out, n / 10);
    }
    let d = (n % 10) as u8;
    out.append(hex_digit_str(d));
    assert(final(out)@ =~= old(out)@ + spec_decimal(n as int));
}

/// The file name of an offsets cache entry: the key's hash in hex.
pub fn offsets_cache_path(key: CacheKey) -> (r: String)
    ensures
        r@ == "offsets_"@ + spec_hex16(key.hash) + ".bin"@,
{
    let mut out = String::from_str("offsets_");
    push_hex16(&mut out, key.hash);
    out.append(".bin");
    out
}

/// The file name of a sort-order cache entry: the key's hash in hex plus
/// the column and direction.
pub fn order_cache_path(key: CacheKey, column: usize, ascending: bool) -> (r: String)
    ensures
        r@ == "order_"@ + spec_hex16(key.hash) + "_c"@ + spec_decimal(column as int) + "_"@ + (
        if ascending {
            "asc"@
        } else {
            "desc"@
        }) + ".bin"@,
{
    let mut out = String::from_str("order_");
    push_hex16(&mut out, key.hash);
    out.append("_c");
    push_decimal(&mut out, column);
    out.append("_");
    if ascending {
        out.append("asc");
    } else {
        out.append("desc");
    }
    out.append(".bin");
    out
}

/// The bytes hashed into a cache key: the path, the length, the mtime and
/// the dialect hash when present.
pub open spec fn spec_cache_key_bytes(
    path: Seq<char>,
    len: u64,
    modified: u64,
    settings_hash: Option<u64>,
) -> Seq<u8> {
    vstd::utf8::encode_utf8(path) + spec_u64_to_le_bytes(len) + spec_u64_to_le_bytes(modified)
        + (match settings_hash {
        Option::Some(h) => spec_u64_to_le_bytes(h),
        Option::None => Seq::<u8>::empty(),
    })
}

/// Derive the disk-cache key for a file: its stat data and the dialect,
/// hashed together.
pub fn cache_key(path: &str, len: u64, modified: u64, settings_hash: Option<u64>) -> (r: CacheKey)
    ensures
        r.hash == crate::text::sip_hash_of(
            spec_cache_key_bytes(path@, len, modified, settings_hash),
        ),
        r.len == len,
        r.modified == modified,
{
    let mut buf: Vec<u8> = Vec::new();
    let pb = path.as_bytes();
    let mut i: usize = 0;
    while i < pb.len()
        invariant
            0 <= i <= pb@.len(),
            pb@ == vstd::utf8::encode_utf8(path@),
            buf@ == pb@.take(i as int),
        decreases pb@.len() - i,
    {
        buf.push(pb[i]);
        i = i + 1;
        assert(buf@ =~= pb@.take(i as int));
    }
    assert(buf@ =~= pb@);
    write_u64(&mut buf, len);
    write_u64(&mut buf, modified);
    match settings_hash {
        Some(h) => {
            write_u64(&mut buf, h);
        },
        None => {},
    }
    assert(buf@ =~= spec_cache_key_bytes(path@, len, modified, settings_hash));
    let hash = crate::text::sip_hash(buf.as_slice());
    CacheKey { hash, len, modified }
}

/// Append the bytes of `b` to `out`.
pub fn append_bytes(out: &mut Vec<u8>, b: &Vec<u8>)
    ensures
        final(out)@ == old(out)@ + b@,
{
    let ghost pre = out@;
    let mut i: usize = 0;
    while i < b.len()
        invariant
            0 <= i <= b@.len(),
            out@ == pre + b@.take(i as int),
        decreases b@.len() - i,
    {
        out.push(b[i]);
        i = i + 1;
        assert(out@ =~= pre + b@.take(i as int));
    }
    assert(out@ =~= pre + b@);
}

/// Read one byte.
pub fn read_u8(data: &[u8], pos: usize) -> (r: Option<u8>)
    ensures
        r is Some <==> pos < data@.len(),
        r matches Option::Some(v) ==> v == data@[pos as int],
{
    if pos < data.len() {
        Some(data[pos])
    } else {
        None
    }
}

/// Append one byte.
pub fn write_u8(out: &mut Vec<u8>, value: u8)
    ensures
        final(out)@ == old(out)@ + seq![value],
{
    out.push(value);
    assert(final(out)@ =~= old(out)@ + seq![value]);
}

/// Read a little-endian 32-bit value.
pub fn read_u32(data: &[u8], pos: usize) -> (r: Option<u32>)
    ensures
        r is Some <==> pos + 4 <= data@.len(),
        r matches Option::Some(v) ==> spec_u32_to_le_bytes(v) == data@.subrange(
            pos as int,
            pos + 4,
        ),
{
    if pos < data.len() && data.len() - pos >= 4 {
        let v = u32_from_le_bytes(&data[pos..pos + 4]);
        proof {
            lemma_auto_spec_u32_to_from_le_bytes();
        }
        Some(v)
    } else {
        None
    }
}

/// Append a little-endian 32-bit value.
pub fn write_u32(out: &mut Vec<u8>, value: u32)
    ensures
        final(out)@ == old(out)@ + spec_u32_to_le_bytes(value),
{
    let b = vstd::bytes::u32_to_le_bytes(value);
    append_bytes(out, &b);
}

/// Read a little-endian 64-bit value.
pub fn read_u64(data: &[u8], pos: usize) -> (r: Option<u64>)
    ensures
        r is Some <==> pos + 8 <= data@.len(),
        r matches Option::Some(v) ==> spec_u64_to_le_bytes(v) == data@.subrange(
            pos as int,
            pos + 8,
        ),
{
    if pos < data.len() && data.len() - pos >= 8 {
        let v = u64_from_le_bytes(&data[pos..pos + 8]);
        proof {
            lemma_auto_spec_u64_to_from_le_bytes();
        }
        Some(v)
    } else {
        None
    }
}

/// Append a little-endian 64-bit value.
pub fn write_u64(out: &mut Vec<u8>, value: u64)
    ensures
        final(out)@ == old(out)@ + spec_u64_to_le_bytes(value),
{
    let b = vstd::bytes::u64_to_le_bytes(value);
    append_bytes(out, &b);
}

/// Encode the offset array as a cache file: magic, version, the key's
/// validation pair, the count, then the offsets.
pub fn write_offsets_cache(key: CacheKey, offsets: &Vec<u64>) -> (r: Vec<u8>)
    ensures
        r@ == spec_offsets_file(key, offsets@),
{
    let mut out: Vec<u8> = Vec::new();
    out.push(67u8);
    out.push(86u8);
    out.push(79u8);
    out.push(70u8);
    assert(out@ =~= spec_offsets_magic());
    write_u32(&mut out, CACHE_VERSION);
    write_u64(&mut out, key.len);
    write_u64(&mut out, key.modified);
    write_u64(&mut out, offsets.len() as u64);
    let ghost header = out@;
    let mut i: usize = 0;
    while i < offsets.len()
        invariant
            0 <= i <= offsets@.len(),
            out@ == header + spec_u64s_bytes(offsets@.take(i as int)),
        decreases offsets@.len() - i,
    {
        let ghost pre = out@;
        write_u64(&mut out, offsets[i]);
        i = i + 1;
        proof {
            assert(offsets@.take(i as int).drop_last() =~= offsets@.take(i - 1));
            assert(offsets@.take(i as int).last() == offsets@[i - 1]);
            assert(out@ =~= header + (spec_u64s_bytes(offsets@.take(i - 1)) + spec_u64_to_le_bytes(
                offsets@[i - 1],
            )));
        }
    }
    proof {
        assert(offsets@.take(offsets@.len() as int) =~= offsets@);
        assert(out@ =~= spec_offsets_file(key, offsets@));
    }
    out
}

/// Decode an offsets cache file, validating the magic, the version and the
/// key's `(length, mtime)` pair; any mismatch, truncation or trailing data
/// is a miss.
pub fn read_offsets_cache(data: &[u8], key: CacheKey) -> (r: Option<Vec<u64>>)
    ensures
        r matches Option::Some(v) ==> data@ == spec_offsets_file(key, v@),
        forall|offs: Seq<u64>|
            data@ == spec_offsets_file(key, offs) ==> r is Some && r->0@ == offs,
{
    proof {
        lemma_auto_spec_u32_to_from_le_bytes();
        lemma_auto_spec_u64_to_from_le_bytes();
    }
    assert forall|offs: Seq<u64>| data@ == spec_offsets_file(key, offs) implies spec_file_shape(
        data@,
        key,
        offs,
    ) by {
        lemma_u64s_bytes_len(offs);
        lemma_offsets_file_shape(data@, key, offs);
    }
    if data.len() < 32 {
        return None;
    }
    if !(data[0] == 67 && data[1] == 86 && data[2] == 79 && data[3] == 70) {
        proof {
            assert forall|offs: Seq<u64>| data@ != spec_offsets_file(key, offs) by {
                if data@ == spec_offsets_file(key, offs) {
                    assert(data@[0] == 67 && data@[1] == 86 && data@[2] == 79 && data@[3] == 70);
                }
            }
        }
        return None;
    }
    let version = match read_u32(data, 4) {
        Some(v) => v,
        None => {
            return None;
        },
    };
    if version != CACHE_VERSION {
        proof {
            assert forall|offs: Seq<u64>| data@ != spec_offsets_file(key, offs) by {
                if data@ == spec_offsets_file(key, offs) {
                    assert(data@.subrange(4, 8) == spec_u32_to_le_bytes(CACHE_VERSION));
                    assert(spec_u32_to_le_bytes(version) == spec_u32_to_le_bytes(CACHE_VERSION));
                    assert(version == CACHE_VERSION);
                }
            }
        }
        return None;
    }
    let klen = match read_u64(data, 8) {
        Some(v) => v,
        None => {
            return None;
        },
    };
    let kmod = match read_u64(data, 16) {
        Some(v) => v,
        None => {
            return None;
        },
    };
    if klen != key.len || kmod != key.modified {
        proof {
            assert forall|offs: Seq<u64>| data@ != spec_offsets_file(key, offs) by {
                if data@ == spec_offsets_file(key, offs) {
                    assert(data@.subrange(8, 16) == spec_u64_to_le_bytes(key.len));
                    assert(data@.subrange(16, 24) == spec_u64_to_le_bytes(key.modified));
                    assert(spec_u64_to_le_bytes(klen) == spec_u64_to_le_bytes(key.len));
                    assert(spec_u64_to_le_bytes(kmod) == spec_u64_to_le_bytes(key.modified));
                }
            }
        }
        return None;
    }
    let count = match read_u64(data, 24) {
        Some(v) => v,
        None => {
            return None;
        },
    };
    let mut out: Vec<u64> = Vec::new();
    let mut pos: usize = 32;
    let mut i: u64 = 0;
    while i < count
        invariant
            data@.len() <= usize::MAX,
            0 <= i <= count,
            out@.len() == i,
            32 <= pos <= data@.len(),
            pos == 32 + 8 * (i as int),
            spec_u64_to_le_bytes(count) == data@.subrange(24, 32),
            data@.subrange(32, pos as int) == spec_u64s_bytes(out@),
        decreases count - i,
    {
        let v = match read_u64(data, pos) {
            Some(v) => v,
            None => {
                proof {
                    assert forall|offs: Seq<u64>| data@ != spec_offsets_file(key, offs) by {
                        if data@ == spec_offsets_file(key, offs) {
                            lemma_auto_spec_u64_to_from_le_bytes();
                            lemma_u64s_bytes_len(offs);
                            lemma_offsets_file_shape(data@, key, offs);
                            assert(spec_u64_to_le_bytes(count) == spec_u64_to_le_bytes(
                                offs.len() as u64,
                            ));
                            assert(offs.len() as u64 == count);
                            assert(offs.len() < 0x10000000000000000) by {
                                assert(32 + 8 * offs.len() == data@.len() <= usize::MAX);
                            }
                            assert(i < offs.len());
                            assert(data@.len() == 32 + 8 * offs.len());
                        }
                    }
                }
                return None;
            },
        };
        let ghost pre = out@;
        out.push(v);
        proof {
            assert(out@.drop_last() =~= pre);
            assert(data@.subrange(32, pos + 8) =~= data@.subrange(32, pos as int) + data@.subrange(
                pos as int,
                pos + 8,
            ));
        }
        pos = pos + 8;
        i = i + 1;
    }
    if pos != data.len() {
        proof {
            assert forall|offs: Seq<u64>| data@ != spec_offsets_file(key, offs) by {
                if data@ == spec_offsets_file(key, offs) {
                    lemma_auto_spec_u64_to_from_le_bytes();
                    lemma_u64s_bytes_len(offs);
                    lemma_offsets_file_shape(data@, key, offs);
                    assert(spec_u64_to_le_bytes(count) == spec_u64_to_le_bytes(
                        offs.len() as u64,
                    ));
                    assert(offs.len() as u64 == count);
                    assert(offs.len() < 0x10000000000000000) by {
                        assert(32 + 8 * offs.len() == data@.len() <= usize::MAX);
                    }
                    assert(count as int == offs.len());
                    assert(data@.len() == 32 + 8 * offs.len());
                }
            }
        }
        return None;
    }
    proof {
        lemma_auto_spec_u64_to_from_le_bytes();
        assert(data@ =~= spec_offsets_file(key, out@)) by {
            lemma_u64s_bytes_len(out@);
            assert(data@.subrange(0, 4) =~= spec_offsets_magic());
            assert(data@.subrange(4, 8) =~= spec_u32_to_le_bytes(CACHE_VERSION));
            assert(data@.subrange(8, 16) =~= spec_u64_to_le_bytes(key.len));
            assert(data@.subrange(16, 24) =~= spec_u64_to_le_bytes(key.modified));
            assert(data@.subrange(24, 32) =~= spec_u64_to_le_bytes(out@.len() as u64));
            assert(data@.subrange(32, data@.len() as int) =~= spec_u64s_bytes(out@));
        }
        assert forall|offs: Seq<u64>| data@ == spec_offsets_file(key, offs) implies out@ == offs by {
            lemma_offsets_file_shape(data@, key, offs);
            lemma_offsets_file_shape(data@, key, out@);
            assert(spec_u64_to_le_bytes(offs.len() as u64) == spec_u64_to_le_bytes(
                out@.len() as u64,
            ));
            assert(offs.len() as u64 == out@.len() as u64);
            assert(offs.len() < 0x10000000000000000) by {
                assert(32 + 8 * offs.len() == data@.len() <= usize::MAX);
            }
            assert(offs.len() == out@.len());
            assert forall|j: int| 0 <= j < offs.len() implies offs[j] == out@[j] by {
                lemma_u64s_bytes_index(offs, j);
                lemma_u64s_bytes_index(out@, j);
                let pay = data@.subrange(32, data@.len() as int);
                assert(spec_u64s_bytes(offs) == pay && spec_u64s_bytes(out@) == pay);
                assert(spec_u64_to_le_bytes(offs[j]) == spec_u64_to_le_bytes(out@[j]));
            }
            assert(out@ =~= offs);
        }
    }
    Some(out)
}

/// The exact bytes of a sort-order cache file.
pub open spec fn spec_order_file(key: CacheKey, column: u32, ascending: bool, ids: Seq<u64>) -> Seq<
    u8,
> {
    spec_order_magic() + spec_u32_to_le_bytes(CACHE_VERSION) + spec_u64_to_le_bytes(key.len)
        + spec_u64_to_le_bytes(key.modified) + spec_u32_to_le_bytes(column) + seq![
        if ascending {
            1u8
        } else {
            0u8
        },
    ] + spec_u64_to_le_bytes(ids.len() as u64) + spec_u64s_bytes(ids)
}

/// The shape facts of a well-formed order file.
pub open spec fn spec_order_shape(
    data: Seq<u8>,
    key: CacheKey,
    column: u32,
    ascending: bool,
    ids: Seq<u64>,
) -> bool {
    &&& data.len() == 37 + 8 * ids.len()
    &&& data.subrange(0, 4) == spec_order_magic()
    &&& data.subrange(4, 8) == spec_u32_to_le_bytes(CACHE_VERSION)
    &&& data.subrange(8, 16) == spec_u64_to_le_bytes(key.len)
    &&& data.subrange(16, 24) == spec_u64_to_le_bytes(key.modified)
    &&& data.subrange(24, 28) == spec_u32_to_le_bytes(column)
    &&& data[28] == (if ascending {
        1u8
    } else {
        0u8
    })
    &&& data.subrange(29, 37) == spec_u64_to_le_bytes(ids.len() as u64)
    &&& data.subrange(37, data.len() as int) == spec_u64s_bytes(ids)
}

/// Decompose an order file into its parts.
pub proof fn lemma_order_file_shape(
    data: Seq<u8>,
    key: CacheKey,
    column: u32,
    ascending: bool,
    ids: Seq<u64>,
)
    requires
        data == spec_order_file(key, column, ascending, ids),
    ensures
        spec_order_shape(data, key, column, ascending, ids),
{
    lemma_auto_spec_u32_to_from_le_bytes();
    lemma_auto_spec_u64_to_from_le_bytes();
    lemma_u64s_bytes_len(ids);
    assert(data.subrange(0, 4) =~= spec_order_magic());
    assert(data.subrange(4, 8) =~= spec_u32_to_le_bytes(CACHE_VERSION));
    assert(data.subrange(8, 16) =~= spec_u64_to_le_bytes(key.len));
    assert(data.subrange(16, 24) =~= spec_u64_to_le_bytes(key.modified));
    assert(data.subrange(24, 28) =~= spec_u32_to_le_bytes(column));
    assert(data.subrange(29, 37) =~= spec_u64_to_le_bytes(ids.len() as u64));
    assert(data.subrange(37, data.len() as int) =~= spec_u64s_bytes(ids));
}

/// The ids of a permutation as stored 64-bit values.
pub open spec fn spec_ids_u64(s: Seq<usize>) -> Seq<u64> {
    s.map_values(|x: usize| x as u64)
}

/// Encode a sort permutation as a cache file keyed by `(column, direction)`.
pub fn write_order_cache(key: CacheKey, column: u32, ascending: bool, order: &Vec<usize>) -> (r:
    Vec<u8>)
    ensures
        r@ == spec_order_file(key, column, ascending, spec_ids_u64(order@)),
{
    let mut out: Vec<u8> = Vec::new();
    out.push(67u8);
    out.push(86u8);
    out.push(83u8);
    out.push(79u8);
    assert(out@ =~= spec_order_magic());
    write_u32(&mut out, CACHE_VERSION);
    write_u64(&mut out, key.len);
    write_u64(&mut out, key.modified);
    write_u32(&mut out, column);
    write_u8(
        &mut out,
        if ascending {
            1u8
        } else {
            0u8
        },
    );
    write_u64(&mut out, order.len() as u64);
    let ghost idsv = spec_ids_u64(order@);
    assert(idsv.len() == order@.len());
    let ghost header = out@;
    let mut i: usize = 0;
    while i < order.len()
        invariant
            0 <= i <= order@.len(),
            idsv == spec_ids_u64(order@),
            idsv.len() == order@.len(),
            out@ == header + spec_u64s_bytes(idsv.take(i as int)),
        decreases order@.len() - i,
    {
        let ghost pre = out@;
        write_u64(&mut out, order[i] as u64);
        i = i + 1;
        proof {
            assert(idsv.take(i as int).drop_last() =~= idsv.take(i - 1));
            assert(idsv.take(i as int).last() == idsv[i - 1]);
            assert(idsv[i - 1] == order@[i - 1] as u64);
            assert(out@ =~= header + (spec_u64s_bytes(idsv.take(i - 1)) + spec_u64_to_le_bytes(
                idsv[i - 1],
            )));
        }
    }
    proof {
        assert(idsv.take(idsv.len() as int) =~= idsv);
        assert(out@ =~= spec_order_file(key, column, ascending, idsv));
    }
    out
}

/// Decode a sort-order cache file, validating the magic, version, the key's
/// `(length, mtime)` pair, the column and the direction; any mismatch,
/// truncation or trailing data is a miss.
pub fn read_order_cache(data: &[u8], key: CacheKey, column: u32, ascending: bool) -> (r: Option<
    Vec<usize>,
>)
    ensures
        r matches Option::Some(v) ==> data@ == spec_order_file(
            key,
            column,
            ascending,
            spec_ids_u64(v@),
        ),
        forall|ids: Seq<usize>|
            data@ == spec_order_file(key, column, ascending, spec_ids_u64(ids)) ==> r is Some
                && r->0@ == ids,
{
    proof {
        lemma_auto_spec_u32_to_from_le_bytes();
        lemma_auto_spec_u64_to_from_le_bytes();
    }
    if data.len() < 37 {
        proof {
            assert forall|ids: Seq<usize>|
                data@ != spec_order_file(key, column, ascending, spec_ids_u64(ids)) by {
                if data@ == spec_order_file(key, column, ascending, spec_ids_u64(ids)) {
                    lemma_order_file_shape(data@, key, column, ascending, spec_ids_u64(ids));
                }
            }
        }
        return None;
    }
    let hdr_ok = data[0] == 67 && data[1] == 86 && data[2] == 83 && data[3] == 79;
    let version = match read_u32(data, 4) {
        Some(v) => v,
        None => {
            return None;
        },
    };
    let klen = match read_u64(data, 8) {
        Some(v) => v,
        None => {
            return None;
        },
    };
    let kmod = match read_u64(data, 16) {
        Some(v) => v,
        None => {
            return None;
        },
    };
    let fcol = match read_u32(data, 24) {
        Some(v) => v,
        None => {
            return None;
        },
    };
    let fdir = data[28];
    let want_dir: u8 = if ascending {
        1u8
    } else {
        0u8
    };
    if !hdr_ok || version != CACHE_VERSION || klen != key.len || kmod != key.modified || fcol
        != column || fdir != want_dir {
        proof {
            assert forall|ids: Seq<usize>|
                data@ != spec_order_file(key, column, ascending, spec_ids_u64(ids)) by {
                if data@ == spec_order_file(key, column, ascending, spec_ids_u64(ids)) {
                    lemma_order_file_shape(data@, key, column, ascending, spec_ids_u64(ids));
                    assert(spec_u32_to_le_bytes(version) == spec_u32_to_le_bytes(CACHE_VERSION));
                    assert(spec_u64_to_le_bytes(klen) == spec_u64_to_le_bytes(key.len));
                    assert(spec_u64_to_le_bytes(kmod) == spec_u64_to_le_bytes(key.modified));
                    assert(spec_u32_to_le_bytes(fcol) == spec_u32_to_le_bytes(column));
                }
            }
        }
        return None;
    }
    let count = match read_u64(data, 29) {
        Some(v) => v,
        None => {
            return None;
        },
    };
    let mut out: Vec<usize> = Vec::new();
    let mut pos: usize = 37;
    let mut i: u64 = 0;
    while i < count
        invariant
            data@.len() <= usize::MAX,
            0 <= i <= count,
            out@.len() == i,
            37 <= pos <= data@.len(),
            pos == 37 + 8 * (i as int),
            spec_u64_to_le_bytes(count) == data@.subrange(29, 37),
            data@.subrange(37, pos as int) == spec_u64s_bytes(spec_ids_u64(out@)),
            spec_ids_u64(out@).len() == out@.len(),
        decreases count - i,
    {
        let v = match read_u64(data, pos) {
            Some(v) => v,
            None => {
                proof {
                    assert forall|ids: Seq<usize>|
                        data@ != spec_order_file(key, column, ascending, spec_ids_u64(ids)) by {
                        if data@ == spec_order_file(key, column, ascending, spec_ids_u64(ids)) {
                            lemma_auto_spec_u64_to_from_le_bytes();
                            lemma_u64s_bytes_len(spec_ids_u64(ids));
                            lemma_order_file_shape(
                                data@,
                                key,
                                column,
                                ascending,
                                spec_ids_u64(ids),
                            );
                            assert(spec_u64_to_le_bytes(count) == spec_u64_to_le_bytes(
                                spec_ids_u64(ids).len() as u64,
                            ));
                            assert(ids.len() as u64 == count);
                            assert(ids.len() < 0x10000000000000000) by {
                                assert(37 + 8 * ids.len() == data@.len() <= usize::MAX);
                            }
                            assert(i < ids.len());
                        }
                    }
                }
                return None;
            },
        };
        if v > usize::MAX as u64 {
            proof {
                assert forall|ids: Seq<usize>|
                    data@ != spec_order_file(key, column, ascending, spec_ids_u64(ids)) by {
                    if data@ == spec_order_file(key, column, ascending, spec_ids_u64(ids)) {
                        lemma_auto_spec_u64_to_from_le_bytes();
                        lemma_u64s_bytes_len(spec_ids_u64(ids));
                        lemma_order_file_shape(data@, key, column, ascending, spec_ids_u64(ids));
                        assert(spec_u64_to_le_bytes(count) == spec_u64_to_le_bytes(
                            spec_ids_u64(ids).len() as u64,
                        ));
                        assert(ids.len() as u64 == count);
                        assert(ids.len() < 0x10000000000000000) by {
                            assert(37 + 8 * ids.len() == data@.len() <= usize::MAX);
                        }
                        assert(i < ids.len());
                        lemma_u64s_bytes_index(spec_ids_u64(ids), i as int);
                        assert(data@.subrange(37 + 8 * (i as int), 37 + 8 * (i as int) + 8)
                            == spec_u64_to_le_bytes(spec_ids_u64(ids)[i as int]));
                        assert(spec_u64_to_le_bytes(v) == spec_u64_to_le_bytes(
                            spec_ids_u64(ids)[i as int],
                        ));
                        assert(v == ids[i as int] as u64);
                    }
                }
            }
            return None;
        }
        let ghost pre = out@;
        out.push(v as usize);
        proof {
            assert(spec_ids_u64(out@).drop_last() =~= spec_ids_u64(pre));
            assert(spec_ids_u64(out@).last() == (v as usize) as u64);
            assert((v as usize) as u64 == v);
            assert(data@.subrange(37, pos + 8) =~= data@.subrange(37, pos as int) + data@.subrange(
                pos as int,
                pos + 8,
            ));
        }
        pos = pos + 8;
        i = i + 1;
    }
    if pos != data.len() {
        proof {
            assert forall|ids: Seq<usize>|
                data@ != spec_order_file(key, column, ascending, spec_ids_u64(ids)) by {
                if data@ == spec_order_file(key, column, ascending, spec_ids_u64(ids)) {
                    lemma_auto_spec_u64_to_from_le_bytes();
                    lemma_u64s_bytes_len(spec_ids_u64(ids));
                    lemma_order_file_shape(data@, key, column, ascending, spec_ids_u64(ids));
                    assert(spec_u64_to_le_bytes(count) == spec_u64_to_le_bytes(
                        spec_ids_u64(ids).len() as u64,
                    ));
                    assert(ids.len() as u64 == count);
                    assert(ids.len() < 0x10000000000000000) by {
                        assert(37 + 8 * ids.len() == data@.len() <= usize::MAX);
                    }
                    assert(count as int == ids.len());
                }
            }
        }
        return None;
    }
    proof {
        lemma_auto_spec_u64_to_from_le_bytes();
        let outv = spec_ids_u64(out@);
        assert(outv.len() == out@.len());
        assert(data@ =~= spec_order_file(key, column, ascending, outv)) by {
            lemma_u64s_bytes_len(outv);
            assert(data@.subrange(0, 4) =~= spec_order_magic());
            assert(data@.subrange(4, 8) =~= spec_u32_to_le_bytes(CACHE_VERSION));
            assert(data@.subrange(8, 16) =~= spec_u64_to_le_bytes(key.len));
            assert(data@.subrange(16, 24) =~= spec_u64_to_le_bytes(key.modified));
            assert(data@.subrange(24, 28) =~= spec_u32_to_le_bytes(column));
            assert(data@.subrange(29, 37) =~= spec_u64_to_le_bytes(outv.len() as u64));
            assert(data@.subrange(28, 29) =~= seq![want_dir]);
            assert(data@[28] == want_dir);
            assert(data@.subrange(37, data@.len() as int) =~= spec_u64s_bytes(outv));
        }
        assert forall|ids: Seq<usize>|
            data@ == spec_order_file(key, column, ascending, spec_ids_u64(ids)) implies out@
            == ids by {
            let idsv = spec_ids_u64(ids);
            lemma_order_file_shape(data@, key, column, ascending, idsv);
            lemma_order_file_shape(data@, key, column, ascending, outv);
            assert(spec_u64_to_le_bytes(idsv.len() as u64) == spec_u64_to_le_bytes(
                outv.len() as u64,
            ));
            assert(idsv.len() as u64 == outv.len() as u64);
            assert(ids.len() < 0x10000000000000000) by {
                assert(37 + 8 * idsv.len() == data@.len() <= usize::MAX);
                assert(idsv.len() == ids.len());
            }
            assert(idsv.len() == outv.len());
            assert forall|j: int| 0 <= j < ids.len() implies ids[j] == out@[j] by {
                lemma_u64s_bytes_index(idsv, j);
                lemma_u64s_bytes_index(outv, j);
                let pay = data@.subrange(37, data@.len() as int);
                assert(spec_u64s_bytes(idsv) == pay && spec_u64s_bytes(outv) == pay);
                assert(spec_u64_to_le_bytes(idsv[j]) == spec_u64_to_le_bytes(outv[j]));
                assert(idsv[j] == outv[j]);
                assert(idsv[j] == ids[j] as u64 && outv[j] == out@[j] as u64);
            }
            assert(out@ =~= ids);
        }
    }
    Some(out)
}

/// The shape facts of a well-formed offsets file.
pub open spec fn spec_file_shape(data: Seq<u8>, key: CacheKey, offs: Seq<u64>) -> bool {
    &&& data.len() == 32 + 8 * offs.len()
    &&& data.subrange(0, 4) == spec_offsets_magic()
    &&& data.subrange(4, 8) == spec_u32_to_le_bytes(CACHE_VERSION)
    &&& data.subrange(8, 16) == spec_u64_to_le_bytes(key.len)
    &&& data.subrange(16, 24) == spec_u64_to_le_bytes(key.modified)
    &&& data.subrange(24, 32) == spec_u64_to_le_bytes(offs.len() as u64)
    &&& data.subrange(32, data.len() as int) == spec_u64s_bytes(offs)
}

/// Decompose an offsets file into its parts.
pub proof fn lemma_offsets_file_shape(data: Seq<u8>, key: CacheKey, offs: Seq<u64>)
    requires
        data == spec_offsets_file(key, offs),
    ensures
        spec_file_shape(data, key, offs),
{
    vstd::bytes::lemma_auto_spec_u32_to_from_le_bytes();
    lemma_auto_spec_u64_to_from_le_bytes();
    lemma_u64s_bytes_len(offs);
    assert(data.subrange(0, 4) =~= spec_offsets_magic());
    assert(data.subrange(4, 8) =~= spec_u32_to_le_bytes(CACHE_VERSION));
    assert(data.subrange(8, 16) =~= spec_u64_to_le_bytes(key.len));
    assert(data.subrange(16, 24) =~= spec_u64_to_le_bytes(key.modified));
    assert(data.subrange(24, 32) =~= spec_u64_to_le_bytes(offs.len() as u64));
    assert(data.subrange(32, data.len() as int) =~= spec_u64s_bytes(offs));
}

} // verus!
