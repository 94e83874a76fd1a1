//! The binary codec for diff logs.
//!
//! Wire format, per record, concatenated with no framing header:
//! one tag byte (`'A'`, `'D'` or `'M'`), the path bytes, the sentinel byte
//! `0xD6`, a 4-byte little-endian content length, and the content bytes.
//! The path is delimited by the first sentinel byte, so a path must not
//! itself contain `0xD6` — a latent limitation of the format.
//!
//! Decoding is truncation-tolerant: an unrecognized tag byte, a missing
//! sentinel, or too few bytes for the length field or the contents all end
//! the stream gracefully, returning the records decoded so far. Path bytes
//! that are not valid UTF-8 are the one hard error, `InvalidEncoding`.

use vstd::prelude::*;

use crate::bytes::{copy_bytes, find_byte_from, first_index_from, lemma_first_index_exact,
    lemma_first_index_from, lemma_first_index_suffix, subrange_vec};
use crate::record::{ChangeType, FileDiff, RecordModel, models_of};

verus! {

/// The byte that terminates the path field of a record.
pub const SENTINEL: u8 = 0xd6;

pub const TAG_ADD: u8 = 65;

pub const TAG_DELETE: u8 = 68;

pub const TAG_MODIFY: u8 = 77;

/// Decoding fails only on a path field that is not valid UTF-8.
#[derive(Clone, Copy, PartialEq, Eq, Structural, Debug)]
pub enum CodecError {
    InvalidEncoding,
}

/// The tag byte written for each change kind.
pub open spec fn tag_of(k: ChangeType) -> u8 {
    match k {
        ChangeType::Add => TAG_ADD,
        ChangeType::Delete => TAG_DELETE,
        ChangeType::Modify => TAG_MODIFY,
    }
}

/// The change kind a tag byte denotes, if any.
pub open spec fn kind_of_tag(b: u8) -> Option<ChangeType> {
    if b == TAG_ADD {
        Some(ChangeType::Add)
    } else if b == TAG_DELETE {
        Some(ChangeType::Delete)
    } else if b == TAG_MODIFY {
        Some(ChangeType::Modify)
    } else {
        None
    }
}

/// The 4 little-endian bytes of a 32-bit length.
pub open spec fn le32_bytes(n: int) -> Seq<u8> {
    seq![
        (n % 256) as u8,
        ((n / 256) % 256) as u8,
        ((n / 65536) % 256) as u8,
        ((n / 16777216) % 256) as u8,
    ]
}

/// The value of 4 little-endian bytes.
pub open spec fn le32_value(b0: u8, b1: u8, b2: u8, b3: u8) -> int {
    b0 + 256 * b1 + 65536 * b2 + 16777216 * b3
}

/// Reading back the 4 little-endian bytes of `n` yields `n`.
pub proof fn lemma_le32_round_trip(n: int)
    requires
        0 <= n < 0x1_0000_0000,
    ensures
        ({
            let b = le32_bytes(n);
            le32_value(b[0], b[1], b[2], b[3]) == n
        }),
{
    vstd::arithmetic::div_mod::lemma_fundamental_div_mod(n, 256);
    vstd::arithmetic::div_mod::lemma_fundamental_div_mod(n / 256, 256);
    vstd::arithmetic::div_mod::lemma_fundamental_div_mod(n / 65536, 256);
    vstd::arithmetic::div_mod::lemma_div_denominator(n, 256, 256);
    vstd::arithmetic::div_mod::lemma_div_denominator(n, 65536, 256);
}

/// Whether `b` is a UTF-8 continuation byte.
pub open spec fn utf8_cont(b: u8) -> bool {
    0x80 <= b < 0xC0
}

/// Whether `s` is a well-formed UTF-8 byte sequence (no overlong forms, no
/// surrogates, nothing above U+10FFFF). This is the validity rule the decoder
/// applies to path fields.
pub open spec fn utf8_valid(s: Seq<u8>) -> bool
    decreases s.len(),
{
    if s.len() == 0 {
        true
    } else {
        let b0 = s[0];
        if b0 < 0x80 {
            utf8_valid(s.skip(1))
        } else if 0xC2 <= b0 && b0 <= 0xDF {
            s.len() >= 2 && utf8_cont(s[1]) && utf8_valid(s.skip(2))
        } else if b0 == 0xE0 {
            s.len() >= 3 && 0xA0 <= s[1] < 0xC0 && utf8_cont(s[2]) && utf8_valid(s.skip(3))
        } else if 0xE1 <= b0 && b0 <= 0xEF && b0 != 0xED {
            s.len() >= 3 && utf8_cont(s[1]) && utf8_cont(s[2]) && utf8_valid(s.skip(3))
        } else if b0 == 0xED {
            s.len() >= 3 && 0x80 <= s[1] < 0xA0 && utf8_cont(s[2]) && utf8_valid(s.skip(3))
        } else if b0 == 0xF0 {
            s.len() >= 4 && 0x90 <= s[1] < 0xC0 && utf8_cont(s[2]) && utf8_cont(s[3])
                && utf8_valid(s.skip(4))
        } else if 0xF1 <= b0 && b0 <= 0xF3 {
            s.len() >= 4 && utf8_cont(s[1]) && utf8_cont(s[2]) && utf8_cont(s[3])
                && utf8_valid(s.skip(4))
        } else if b0 == 0xF4 {
            s.len() >= 4 && 0x80 <= s[1] < 0x90 && utf8_cont(s[2]) && utf8_cont(s[3])
                && utf8_valid(s.skip(4))
        } else {
            false
        }
    }
}

/// The encoding of one record.
pub open spec fn spec_encode_record(r: RecordModel) -> Seq<u8> {
    seq![tag_of(r.kind)] + r.path + seq![SENTINEL] + le32_bytes(r.contents.len() as int)
        + r.contents
}

/// The encoding of a sequence of records: their encodings, concatenated.
pub open spec fn spec_encode(rs: Seq<RecordModel>) -> Seq<u8>
    decreases rs.len(),
{
    if rs.len() == 0 {
        Seq::empty()
    } else {
        spec_encode_record(rs[0]) + spec_encode(rs.skip(1))
    }
}

/// What decoding yields from position `pos` of `s` on: `None` for an
/// `InvalidEncoding` failure, otherwise the records read before the stream
/// ended (a short or malformed read at a record boundary ends it cleanly).
pub open spec fn spec_decode_from(s: Seq<u8>, pos: int) -> Option<Seq<RecordModel>>
    decreases s.len() - pos
    via spec_decode_from_decreases
{
    if pos < 0 || pos >= s.len() {
        Some(Seq::empty())
    } else {
        match kind_of_tag(s[pos]) {
            None => Some(Seq::empty()),
            Some(kind) => match first_index_from(s, pos + 1, SENTINEL) {
                None => Some(Seq::empty()),
                Some(t) => {
                    let path = s.subrange(pos + 1, t);
                    if !utf8_valid(path) {
                        None
                    } else if s.len() < t + 5 {
                        Some(Seq::empty())
                    } else {
                        let n = le32_value(s[t + 1], s[t + 2], s[t + 3], s[t + 4]);
                        if s.len() < t + 5 + n {
                            Some(Seq::empty())
                        } else {
                            match spec_decode_from(s, t + 5 + n) {
                                None => None,
                                Some(tail) => Some(
                                    seq![
                                        RecordModel {
                                            path,
                                            kind,
                                            contents: s.subrange(t + 5, t + 5 + n),
                                        },
                                    ] + tail,
                                ),
                            }
                        }
                    }
                }
            },
        }
    }
}

#[via_fn]
proof fn spec_decode_from_decreases(s: Seq<u8>, pos: int) {
    if 0 <= pos < s.len() {
        lemma_first_index_from(s, pos + 1, SENTINEL);
    }
}

/// What decoding a whole byte stream yields.
pub open spec fn spec_decode(s: Seq<u8>) -> Option<Seq<RecordModel>> {
    spec_decode_from(s, 0)
}

/// Relies on hex::decode: the string "d6" is two hex digits, so it decodes to
/// `Ok`, holding the single byte 0xD6.
#[verifier::external_body]
fn sentinel_bytes() -> (r: Vec<u8>)
    ensures
        r@ == seq![SENTINEL],
{
    hex::decode("d6").unwrap()
}

/// Encode one record into its wire form.
pub fn encode_record(f: &FileDiff) -> (r: Vec<u8>)
    requires
        f.change_contents@.len() <= 0xFFFF_FFFF,
    ensures
        r@ == spec_encode_record(f@),
{
    let mut line: Vec<u8> = Vec::new();
    match f.change_type {
        ChangeType::Add => line.push(TAG_ADD),
        ChangeType::Delete => line.push(TAG_DELETE),
        ChangeType::Modify => line.push(TAG_MODIFY),
    }
    let mut path = copy_bytes(&f.path);
    line.append(&mut path);
    let mut sentinel = sentinel_bytes();
    line.append(&mut sentinel);
    let n: u32 = f.change_contents.len() as u32;
    line.push((n % 256) as u8);
    line.push(((n / 256) % 256) as u8);
    line.push(((n / 65536) % 256) as u8);
    line.push(((n / 16777216) % 256) as u8);
    let mut contents = copy_bytes(&f.change_contents);
    line.append(&mut contents);
    proof {
        assert(line@ =~= spec_encode_record(f@));
    }
    line
}

/// Appending one record to a sequence appends its encoding to the stream.
pub proof fn lemma_encode_snoc(rs: Seq<RecordModel>, r: RecordModel)
    ensures
        spec_encode(rs.push(r)) == spec_encode(rs) + spec_encode_record(r),
    decreases rs.len(),
{
    if rs.len() == 0 {
        reveal_with_fuel(spec_encode, 3);
        assert(rs.push(r)[0] == r);
        assert(rs.push(r).skip(1) =~= Seq::<RecordModel>::empty());
        assert(spec_encode(rs.push(r)) =~= spec_encode(rs) + spec_encode_record(r));
    } else {
        assert(rs.push(r).skip(1) =~= rs.skip(1).push(r));
        lemma_encode_snoc(rs.skip(1), r);
        assert(rs.push(r)[0] == rs[0]);
        assert(spec_encode_record(rs[0]) + (spec_encode(rs.skip(1)) + spec_encode_record(r)) =~= (
        spec_encode_record(rs[0]) + spec_encode(rs.skip(1))) + spec_encode_record(r));
    }
}

/// Encode a sequence of records into one byte stream.
pub fn encode_diff(diffs: &Vec<FileDiff>) -> (r: Vec<u8>)
    requires
        forall|i: int|
            0 <= i < diffs@.len() ==> (#[trigger] diffs@[i]).change_contents@.len()
                <= 0xFFFF_FFFF,
    ensures
        r@ == spec_encode(models_of(diffs@)),
{
    let mut out: Vec<u8> = Vec::new();
    let mut i: usize = 0;
    while i < diffs.len()
        invariant
            0 <= i <= diffs@.len(),
            forall|k: int|
                0 <= k < diffs@.len() ==> (#[trigger] diffs@[k]).change_contents@.len()
                    <= 0xFFFF_FFFF,
            out@ == spec_encode(models_of(diffs@).take(i as int)),
        decreases diffs@.len() - i,
    {
        let mut line = encode_record(&diffs[i]);
        proof {
            let ms = models_of(diffs@);
            assert(ms.take(i as int).push(diffs@[i as int]@) =~= ms.take(i as int + 1));
            lemma_encode_snoc(ms.take(i as int), diffs@[i as int]@);
        }
        out.append(&mut line);
        i += 1;
    }
    proof {
        assert(models_of(diffs@).take(diffs@.len() as int) =~= models_of(diffs@));
    }
    out
}

/// Check whether `v` is well-formed UTF-8, per `utf8_valid`.
pub fn utf8_check(v: &Vec<u8>) -> (r: bool)
    ensures
        r == utf8_valid(v@),
{
    let n = v.len();
    let mut i: usize = 0;
    proof {
        assert(v@.skip(0) =~= v@);
    }
    while i < n
        invariant
            0 <= i <= n == v@.len(),
            utf8_valid(v@) == utf8_valid(v@.skip(i as int)),
        decreases n - i,
    {
        let ghost rest = v@.skip(i as int);
        let b0 = v[i];
        assert(rest[0] == b0);
        let step: usize = if b0 < 0x80 {
            1
        } else if 0xC2 <= b0 && b0 <= 0xDF {
            if !(n - i > 1 && utf8_cont_check(v[i + 1])) {
                return false;
            }
            2
        } else if b0 == 0xE0 {
            if !(n - i > 2 && 0xA0 <= v[i + 1] && v[i + 1] < 0xC0 && utf8_cont_check(v[i + 2])) {
                return false;
            }
            3
        } else if 0xE1 <= b0 && b0 <= 0xEF && b0 != 0xED {
            if !(n - i > 2 && utf8_cont_check(v[i + 1]) && utf8_cont_check(v[i + 2])) {
                return false;
            }
            3
        } else if b0 == 0xED {
            if !(n - i > 2 && 0x80 <= v[i + 1] && v[i + 1] < 0xA0 && utf8_cont_check(v[i + 2])) {
                return false;
            }
            3
        } else if b0 == 0xF0 {
            if !(n - i > 3 && 0x90 <= v[i + 1] && v[i + 1] < 0xC0 && utf8_cont_check(v[i + 2])
                && utf8_cont_check(v[i + 3])) {
                return false;
            }
            4
        } else if 0xF1 <= b0 && b0 <= 0xF3 {
            if !(n - i > 3 && utf8_cont_check(v[i + 1]) && utf8_cont_check(v[i + 2])
                && utf8_cont_check(v[i + 3])) {
                return false;
            }
            4
        } else if b0 == 0xF4 {
            if !(n - i > 3 && 0x80 <= v[i + 1] && v[i + 1] < 0x90 && utf8_cont_check(v[i + 2])
                && utf8_cont_check(v[i + 3])) {
                return false;
            }
            4
        } else {
            return false;
        };
        proof {
            assert(forall|k: int| 0 <= k < rest.len() ==> rest[k] == v@[i + k]);
            assert(rest.skip(step as int) =~= v@.skip(i as int + step as int));
        }
        i += step;
    }
    proof {
        assert(v@.skip(n as int) =~= Seq::<u8>::empty());
    }
    true
}

/// Whether `b` is a UTF-8 continuation byte.
fn utf8_cont_check(b: u8) -> (r: bool)
    ensures
        r == utf8_cont(b),
{
    0x80 <= b && b < 0xC0
}

/// Decode a byte stream back into records. Truncated or unrecognized trailing
/// bytes end the stream cleanly; a non-UTF-8 path field is an error.
#[verifier::rlimit(50)]
pub fn decode_diff(data: &Vec<u8>) -> (r: Result<Vec<FileDiff>, CodecError>)
    ensures
        match r {
            Ok(ds) => spec_decode(data@) == Some(models_of(ds@)),
            Err(_) => spec_decode(data@) is None,
        },
{
    let mut out: Vec<FileDiff> = Vec::new();
    let mut pos: usize = 0;
    loop
        invariant
            0 <= pos <= data@.len(),
            spec_decode(data@) == match spec_decode_from(data@, pos as int) {
                Some(tail) => Some(models_of(out@) + tail),
                None => None::<Seq<RecordModel>>,
            },
        decreases data@.len() - pos,
    {
        if pos >= data.len() {
            proof {
                assert(models_of(out@) + Seq::<RecordModel>::empty() =~= models_of(out@));
            }
            return Ok(out);
        }
        let tag = data[pos];
        let kind_opt = if tag == TAG_ADD {
            Some(ChangeType::Add)
        } else if tag == TAG_DELETE {
            Some(ChangeType::Delete)
        } else if tag == TAG_MODIFY {
            Some(ChangeType::Modify)
        } else {
            None
        };
        let kind = match kind_opt {
            Some(k) => k,
            None => {
                proof {
                    assert(models_of(out@) + Seq::<RecordModel>::empty() =~= models_of(out@));
                }
                return Ok(out);
            },
        };
        let t = match find_byte_from(data, pos + 1, SENTINEL) {
            Some(t) => t,
            None => {
                proof {
                    assert(models_of(out@) + Seq::<RecordModel>::empty() =~= models_of(out@));
                }
                return Ok(out);
            },
        };
        proof {
            lemma_first_index_from(data@, pos as int + 1, SENTINEL);
        }
        let path = subrange_vec(data, pos + 1, t);
        if !utf8_check(&path) {
            return Err(CodecError::InvalidEncoding);
        }
        if data.len() - t < 5 {
            proof {
                assert(models_of(out@) + Seq::<RecordModel>::empty() =~= models_of(out@));
            }
            return Ok(out);
        }
        let n32 = le32_read(data[t + 1], data[t + 2], data[t + 3], data[t + 4]);
        let n = n32 as usize;
        if data.len() - (t + 5) < n {
            proof {
                assert(models_of(out@) + Seq::<RecordModel>::empty() =~= models_of(out@));
            }
            return Ok(out);
        }
        let contents = subrange_vec(data, t + 5, t + 5 + n);
        let fd = FileDiff { path, change_type: kind, change_contents: contents };
        let ghost prev = out@;
        let ghost oldpos = pos as int;
        out.push(fd);
        pos = t + 5 + n;
        proof {
            let tail = spec_decode_from(data@, pos as int);
            if tail is Some {
                assert(spec_decode_from(data@, oldpos) == Some(
                    seq![fd@] + tail.unwrap(),
                ));
                assert(models_of(prev.push(fd)) =~= models_of(prev).push(fd@));
                assert(models_of(prev).push(fd@) + tail.unwrap() =~= models_of(prev) + (
                seq![fd@] + tail.unwrap()));
            }
        }
    }
}

/// Read a 4-byte little-endian length.
fn le32_read(b0: u8, b1: u8, b2: u8, b3: u8) -> (r: u32)
    ensures
        r as int == le32_value(b0, b1, b2, b3),
{
    b0 as u32 + 256 * b1 as u32 + 65536 * b2 as u32 + 16777216 * b3 as u32
}

/// Decoding from a position depends only on the bytes from there on.
proof fn lemma_decode_suffix(s1: Seq<u8>, p1: int, s2: Seq<u8>, p2: int)
    requires
        0 <= p1 <= s1.len(),
        0 <= p2 <= s2.len(),
        s1.skip(p1) == s2.skip(p2),
    ensures
        spec_decode_from(s1, p1) == spec_decode_from(s2, p2),
    decreases s1.len() - p1,
{
    assert(s1.skip(p1).len() == s1.len() - p1);
    assert(s2.skip(p2).len() == s2.len() - p2);
    assert(s1.len() - p1 == s2.len() - p2);
    assert forall|j: int| p1 <= j < s1.len() implies #[trigger] s1[j] == s2[j - p1 + p2] by {
        let k = j - p1;
        assert(s1.skip(p1)[k] == s1[p1 + k]);
        assert(s2.skip(p2)[k] == s2[p2 + k]);
    }
    if p1 < s1.len() {
        assert(s1[p1] == s2[p2]);
        if kind_of_tag(s1[p1]) is Some {
            assert(s1.skip(p1 + 1) =~= s2.skip(p2 + 1)) by {
                assert forall|k: int| 0 <= k < s1.len() - p1 - 1 implies #[trigger] s1.skip(
                    p1 + 1,
                )[k] == s2.skip(p2 + 1)[k] by {
                    assert(s1.skip(p1 + 1)[k] == s1[p1 + 1 + k]);
                    assert(s2.skip(p2 + 1)[k] == s2[p2 + 1 + k]);
                    assert(s1[p1 + 1 + k] == s2[p2 + 1 + k]);
                }
            }
            lemma_first_index_suffix(s1, p1 + 1, s2, p2 + 1, SENTINEL);
            lemma_first_index_from(s1, p1 + 1, SENTINEL);
            lemma_first_index_from(s2, p2 + 1, SENTINEL);
            match first_index_from(s1, p1 + 1, SENTINEL) {
                None => {},
                Some(t1) => {
                    let t2 = p2 + (t1 - p1);
                    assert(s1.subrange(p1 + 1, t1) =~= s2.subrange(p2 + 1, t2));
                    if utf8_valid(s1.subrange(p1 + 1, t1)) && s1.len() >= t1 + 5 {
                        assert(s1[t1 + 1] == s2[t2 + 1] && s1[t1 + 2] == s2[t2 + 2] && s1[t1 + 3]
                            == s2[t2 + 3] && s1[t1 + 4] == s2[t2 + 4]);
                        let n = le32_value(s1[t1 + 1], s1[t1 + 2], s1[t1 + 3], s1[t1 + 4]);
                        if s1.len() >= t1 + 5 + n {
                            assert(s1.subrange(t1 + 5, t1 + 5 + n) =~= s2.subrange(
                                t2 + 5,
                                t2 + 5 + n,
                            ));
                            assert(s1.skip(t1 + 5 + n) =~= s2.skip(t2 + 5 + n));
                            lemma_decode_suffix(s1, t1 + 5 + n, s2, t2 + 5 + n);
                        }
                    }
                },
            }
        }
    }
}

/// A record the wire format can carry faithfully: its path contains no
/// sentinel byte and is valid UTF-8, and its contents fit the 4-byte length
/// field.
pub open spec fn encodable(r: RecordModel) -> bool {
    &&& !r.path.contains(SENTINEL)
    &&& utf8_valid(r.path)
    &&& r.contents.len() <= 0xFFFF_FFFF
}

/// Round-trip law: decoding an encoded record sequence yields the same
/// records — same kinds, paths, contents, in the same order — provided each
/// record is one the wire format can carry.
pub proof fn lemma_round_trip(rs: Seq<RecordModel>)
    requires
        forall|i: int| 0 <= i < rs.len() ==> encodable(#[trigger] rs[i]),
    ensures
        spec_decode(spec_encode(rs)) == Some(rs),
    decreases rs.len(),
{
    if rs.len() == 0 {
        assert(spec_encode(rs).len() == 0);
    } else {
        let r = rs[0];
        assert(encodable(r));
        let e = spec_encode_record(r);
        let rest = spec_encode(rs.skip(1));
        let s = spec_encode(rs);
        assert(s == e + rest);
        let plen = r.path.len() as int;
        let n = r.contents.len() as int;
        let t = 1 + plen;
        assert(e.len() == t + 5 + n);
        assert(s[0] == tag_of(r.kind));
        assert(kind_of_tag(tag_of(r.kind)) == Some(r.kind));
        assert(forall|k: int| 0 <= k < plen ==> s[1 + k] == r.path[k]);
        assert(s[t] == SENTINEL);
        assert(forall|k: int| 1 <= k < t ==> s[k] != SENTINEL) by {
            assert(forall|k: int| 0 <= k < plen ==> r.path[k] != SENTINEL);
        }
        lemma_first_index_exact(s, 1, t, SENTINEL);
        assert(s.subrange(1, t) =~= r.path);
        assert(s[t + 1] == le32_bytes(n)[0] && s[t + 2] == le32_bytes(n)[1] && s[t + 3]
            == le32_bytes(n)[2] && s[t + 4] == le32_bytes(n)[3]);
        lemma_le32_round_trip(n);
        assert(le32_value(s[t + 1], s[t + 2], s[t + 3], s[t + 4]) == n);
        assert(s.subrange(t + 5, t + 5 + n) =~= r.contents);
        assert(s.skip(t + 5 + n) =~= rest);
        assert(rest.skip(0) =~= rest);
        lemma_round_trip(rs.skip(1));
        lemma_decode_suffix(s, t + 5 + n, rest, 0);
        assert(spec_decode_from(s, t + 5 + n) == Some(rs.skip(1)));
        assert(seq![
            RecordModel { path: s.subrange(1, t), kind: r.kind, contents: s.subrange(
                t + 5,
                t + 5 + n,
            ) },
        ] + rs.skip(1) =~= rs);
    }
}

} // verus!
