//! The on-disk encoding of the store.
//!
//! A store is written as `deflate(encode)` where `encode` is the compact
//! binary form below and `deflate` is a zlib stream at the default level.
//! Decoding inverts both steps exactly; the completeness clauses on the
//! readers state the round-trip law.
//!
//! Layout: a format tag byte, the entry count as a little-endian `u64`, then
//! each entry in strictly increasing key order. Strings are a byte length
//! followed by UTF-8 bytes; options are a one-byte tag.

use vstd::prelude::*;

use vstd::string::StrSliceExecFns;
use vstd::string::StringSliceAdditionalSpecFns;
use vstd::utf8::{decode_utf8, encode_utf8, encode_utf8_decode_utf8, encode_utf8_valid_utf8,
    valid_utf8};

use crate::record::{AppDetails, RecordV, ReqV, Requirements};
use crate::store::{sorted_strict, Cache};

verus! {

/// The format tag that opens every encoded store.
pub const FORMAT_TAG: u8 = 1;

/// What `deflate` (a zlib stream, default level) makes of a byte sequence.
pub uninterp spec fn deflate_of(b: Seq<u8>) -> Seq<u8>;

/// A `u64` as eight little-endian bytes.
pub open spec fn le64(n: u64) -> Seq<u8> {
    seq![
        (n & 0xff) as u8,
        ((n >> 8) & 0xff) as u8,
        ((n >> 16) & 0xff) as u8,
        ((n >> 24) & 0xff) as u8,
        ((n >> 32) & 0xff) as u8,
        ((n >> 40) & 0xff) as u8,
        ((n >> 48) & 0xff) as u8,
        ((n >> 56) & 0xff) as u8,
    ]
}

/// A string: its UTF-8 byte length, then its UTF-8 bytes.
pub open spec fn enc_str(s: Seq<char>) -> Seq<u8> {
    le64(encode_utf8(s).len() as u64) + encode_utf8(s)
}

/// The length prefix must be faithful for the encoding to mean anything.
pub open spec fn str_ok(s: Seq<char>) -> bool {
    encode_utf8(s).len() <= u64::MAX
}

pub open spec fn enc_bool(v: bool) -> Seq<u8> {
    if v {
        seq![1u8]
    } else {
        seq![0u8]
    }
}

pub open spec fn enc_opt_str(o: Option<Seq<char>>) -> Seq<u8> {
    match o {
        Option::None => seq![0u8],
        Option::Some(s) => seq![1u8] + enc_str(s),
    }
}

pub open spec fn opt_str_ok(o: Option<Seq<char>>) -> bool {
    match o {
        Option::None => true,
        Option::Some(s) => str_ok(s),
    }
}

pub open spec fn enc_req(r: ReqV) -> Seq<u8> {
    enc_opt_str(r.minimum) + enc_opt_str(r.recommended)
}

pub open spec fn req_ok(r: ReqV) -> bool {
    opt_str_ok(r.minimum) && opt_str_ok(r.recommended)
}

pub open spec fn enc_record(r: RecordV) -> Seq<u8> {
    le64(r.id as u64) + enc_str(r.name) + enc_bool(r.is_free) + enc_str(r.short_description)
        + enc_req(r.pc_requirements)
}

pub open spec fn rec_ok(r: RecordV) -> bool {
    str_ok(r.name) && str_ok(r.short_description) && req_ok(r.pc_requirements)
}

pub open spec fn enc_entry(e: (u64, RecordV)) -> Seq<u8> {
    le64(e.0) + enc_record(e.1)
}

pub open spec fn enc_entries(s: Seq<(u64, RecordV)>) -> Seq<u8>
    decreases s.len(),
{
    if s.len() == 0 {
        Seq::empty()
    } else {
        enc_entry(s.first()) + enc_entries(s.drop_first())
    }
}

/// The whole store: tag, count, entries in strictly increasing key order.
pub open spec fn enc_store(s: Seq<(u64, RecordV)>) -> Seq<u8> {
    seq![FORMAT_TAG] + le64(s.len() as u64) + enc_entries(s)
}

/// An entry sequence the encoding is faithful for.
pub open spec fn entries_ok(s: Seq<(u64, RecordV)>) -> bool {
    &&& s.len() <= u64::MAX
    &&& sorted_strict(s)
    &&& forall|i: int| 0 <= i < s.len() ==> rec_ok(#[trigger] s[i].1)
}

proof fn lemma_enc_entries_push(s: Seq<(u64, RecordV)>, e: (u64, RecordV))
    ensures
        enc_entries(s.push(e)) == enc_entries(s) + enc_entry(e),
    decreases s.len(),
{
    if s.len() == 0 {
        let t = s.push(e);
        assert(t.len() == 1);
        assert(t.first() == e);
        assert(t.drop_first() =~= s);
        assert(enc_entries(t) == enc_entry(e) + enc_entries(s));
        assert(enc_entries(s) =~= Seq::<u8>::empty());
        assert(enc_entry(e) + enc_entries(s) =~= enc_entries(s) + enc_entry(e));
    } else {
        assert(s.push(e).drop_first() =~= s.drop_first().push(e));
        assert(s.push(e).first() == s.first());
        lemma_enc_entries_push(s.drop_first(), e);
        assert(enc_entries(s.push(e)) == enc_entry(s.first()) + (enc_entries(s.drop_first())
            + enc_entry(e)));
        assert(enc_entry(s.first()) + (enc_entries(s.drop_first()) + enc_entry(e)) =~= (enc_entry(
            s.first(),
        ) + enc_entries(s.drop_first())) + enc_entry(e));
    }
}

// ---------------------------------------------------------------------------
// Trusted boundary: compression and UTF-8 decoding.
// ---------------------------------------------------------------------------

/// Relies on `miniz_oxide::deflate::compress_to_vec_zlib`: a deterministic
/// zlib encoding of the input bytes at the default compression level.
#[verifier::external_body]
fn compress_zlib(data: &Vec<u8>) -> (r: Vec<u8>)
    ensures
        r@ == deflate_of(data@),
{
    miniz_oxide::deflate::compress_to_vec_zlib(data.as_slice(), 6)
}

/// Relies on `miniz_oxide::inflate::decompress_to_vec_zlib`: inflating a
/// stream that `compress_to_vec_zlib` produced yields exactly the bytes that
/// were compressed; other inputs yield some bytes or an error.
#[verifier::external_body]
fn decompress_zlib(data: &Vec<u8>) -> (r: Option<Vec<u8>>)
    ensures
        r matches Some(v) ==> forall|o: Seq<u8>| data@ == deflate_of(o) ==> v@ == o,
        r is None ==> forall|o: Seq<u8>| data@ != deflate_of(o),
{
    match miniz_oxide::inflate::decompress_to_vec_zlib(data.as_slice()) {
        Ok(v) => Some(v),
        Err(_) => None,
    }
}

/// Relies on `String::from_utf8`: it succeeds exactly on valid UTF-8 and
/// returns the string spelled by those bytes.
#[verifier::external_body]
fn string_from_utf8(bytes: Vec<u8>) -> (r: Option<String>)
    ensures
        valid_utf8(bytes@) ==> r is Some,
        r matches Some(s) ==> s@ == decode_utf8(bytes@) && valid_utf8(bytes@),
{
    match String::from_utf8(bytes) {
        Ok(s) => Some(s),
        Err(_) => None,
    }
}

// ---------------------------------------------------------------------------
// Encoding.
// ---------------------------------------------------------------------------

fn push_u64(out: &mut Vec<u8>, n: u64)
    ensures
        final(out)@ == old(out)@ + le64(n),
{
    out.push((n & 0xff) as u8);
    out.push(((n >> 8) & 0xff) as u8);
    out.push(((n >> 16) & 0xff) as u8);
    out.push(((n >> 24) & 0xff) as u8);
    out.push(((n >> 32) & 0xff) as u8);
    out.push(((n >> 40) & 0xff) as u8);
    out.push(((n >> 48) & 0xff) as u8);
    out.push(((n >> 56) & 0xff) as u8);
    proof {
        assert(out@ =~= old(out)@ + le64(n));
    }
}

fn push_str(out: &mut Vec<u8>, s: &String)
    ensures
        final(out)@ == old(out)@ + enc_str(s@),
        str_ok(s@),
{
    let mut bytes = s.as_str().as_bytes_vec();
    assert(bytes@ == encode_utf8(s@));
    let blen: usize = bytes.len();
    assert(blen <= usize::MAX && usize::MAX <= u64::MAX);
    assert(encode_utf8(s@).len() <= u64::MAX);
    push_u64(out, blen as u64);
    out.append(&mut bytes);
    proof {
        assert(out@ =~= old(out)@ + enc_str(s@));
    }
}

fn push_opt_str(out: &mut Vec<u8>, o: &Option<String>)
    ensures
        final(out)@ == old(out)@ + enc_opt_str(o.deep_view()),
        opt_str_ok(o.deep_view()),
{
    match o {
        Option::None => {
            out.push(0u8);
            proof {
                assert(out@ =~= old(out)@ + enc_opt_str(o.deep_view()));
            }
        },
        Option::Some(s) => {
            out.push(1u8);
            push_str(out, s);
            proof {
                assert(out@ =~= old(out)@ + enc_opt_str(o.deep_view()));
            }
        },
    }
}

fn push_record(out: &mut Vec<u8>, r: &AppDetails)
    ensures
        final(out)@ == old(out)@ + enc_record(r@),
        rec_ok(r@),
{
    push_u64(out, r.id as u64);
    push_str(out, &r.name);
    out.push(if r.is_free {
        1u8
    } else {
        0u8
    });
    push_str(out, &r.short_description);
    push_opt_str(out, &r.pc_requirements.minimum);
    push_opt_str(out, &r.pc_requirements.recommended);
    proof {
        assert(out@ =~= old(out)@ + enc_record(r@));
    }
}

/// The canonical (uncompressed) byte form of a store.
pub fn encode_store(c: &Cache) -> (r: Vec<u8>)
    requires
        c.wf(),
    ensures
        r@ == enc_store(c.entry_seq()),
        entries_ok(c.entry_seq()),
{
    let es = c.entries();
    let n = es.len();
    let mut out: Vec<u8> = Vec::new();
    out.push(FORMAT_TAG);
    assert(n as u64 as int == n as int) by (bit_vector);
    push_u64(&mut out, n as u64);
    proof {
        assert(c.entry_seq().subrange(0, 0) =~= Seq::<(u64, RecordV)>::empty());
        assert(out@ =~= seq![FORMAT_TAG] + le64(c.entry_seq().len() as u64) + enc_entries(
            c.entry_seq().subrange(0, 0),
        ));
    }
    let mut i: usize = 0;
    while i < n
        invariant
            c.wf(),
            n == c.entry_seq().len(),
            es@.len() == c.entry_seq().len(),
            forall|k: int|
                0 <= k < es@.len() ==> #[trigger] c.entry_seq()[k] == (es@[k].0, es@[k].1@),
            0 <= i <= n,
            out@ == seq![FORMAT_TAG] + le64(c.entry_seq().len() as u64) + enc_entries(
                c.entry_seq().subrange(0, i as int),
            ),
            forall|k: int| 0 <= k < i ==> rec_ok(#[trigger] c.entry_seq()[k].1),
        decreases n - i,
    {
        let ghost pre = c.entry_seq().subrange(0, i as int);
        push_u64(&mut out, es[i].0);
        push_record(&mut out, &es[i].1);
        proof {
            assert(c.entry_seq()[i as int] == (es@[i as int].0, es@[i as int].1@));
            assert(c.entry_seq().subrange(0, i + 1) =~= pre.push(c.entry_seq()[i as int]));
            lemma_enc_entries_push(pre, c.entry_seq()[i as int]);
            assert(out@ =~= seq![FORMAT_TAG] + le64(c.entry_seq().len() as u64) + enc_entries(
                c.entry_seq().subrange(0, i + 1),
            ));
        }
        i += 1;
    }
    proof {
        assert(c.entry_seq().subrange(0, n as int) =~= c.entry_seq());
        assert(c.entry_seq().len() <= u64::MAX);
    }
    out
}

} // verus!

verus! {

// ---------------------------------------------------------------------------
// Decoding.
//
// Each reader carries a completeness clause: whenever the bytes at `i` are
// the encoding of some value, the reader succeeds and returns exactly that
// value. Chained together these clauses are the round-trip law for the whole
// store.
// ---------------------------------------------------------------------------

/// A subrange of a matched region matches the same subrange of the pattern.
proof fn lemma_sub_of_match(b: Seq<u8>, i: int, full: Seq<u8>, lo: int, hi: int)
    requires
        0 <= i,
        i + full.len() <= b.len(),
        b.subrange(i, i + full.len()) == full,
        0 <= lo <= hi <= full.len(),
    ensures
        b.subrange(i + lo, i + hi) == full.subrange(lo, hi),
{
    assert(b.subrange(i + lo, i + hi) =~= full.subrange(lo, hi));
}

fn read_u8(b: &Vec<u8>, i: usize) -> (r: Option<(u8, usize)>)
    ensures
        r matches Some(p) ==> i + 1 <= b@.len() && p.0 == b@[i as int] && p.1 == i + 1,
        i + 1 <= b@.len() ==> r is Some,
{
    if i < b.len() {
        Some((b[i], i + 1))
    } else {
        None
    }
}

fn read_u64(b: &Vec<u8>, i: usize) -> (r: Option<(u64, usize)>)
    ensures
        r matches Some(p) ==> i + 8 <= b@.len() && p.1 == i + 8,
        forall|n: u64| #![trigger le64(n)]
            (i + 8 <= b@.len() && b@.subrange(i as int, i as int + 8) == le64(n)) ==> (r matches Some(p) && p.0 == n && p.1 == i + 8),
{
    if b.len() < 8 || i > b.len() - 8 {
        return None;
    }
    let v0 = b[i];
    let v1 = b[i + 1];
    let v2 = b[i + 2];
    let v3 = b[i + 3];
    let v4 = b[i + 4];
    let v5 = b[i + 5];
    let v6 = b[i + 6];
    let v7 = b[i + 7];
    let m: u64 = (v0 as u64) | ((v1 as u64) << 8) | ((v2 as u64) << 16) | ((v3 as u64) << 24) | (
    (v4 as u64) << 32) | ((v5 as u64) << 40) | ((v6 as u64) << 48) | ((v7 as u64) << 56);
    proof {
        assert forall|n: u64| #![trigger le64(n)]
            (i + 8 <= b@.len() && b@.subrange(i as int, i as int + 8) == le64(n)) implies m
            == n by {
            let s = b@.subrange(i as int, i as int + 8);
            assert(v0 == s[0] && v1 == s[1] && v2 == s[2] && v3 == s[3] && v4 == s[4] && v5 == s[5]
                && v6 == s[6] && v7 == s[7]);
            assert(m == n) by (bit_vector)
                requires
                    m == (v0 as u64) | ((v1 as u64) << 8) | ((v2 as u64) << 16) | ((v3 as u64)
                        << 24) | ((v4 as u64) << 32) | ((v5 as u64) << 40) | ((v6 as u64) << 48) | (
                    (v7 as u64) << 56),
                    v0 == (n & 0xff) as u8,
                    v1 == ((n >> 8) & 0xff) as u8,
                    v2 == ((n >> 16) & 0xff) as u8,
                    v3 == ((n >> 24) & 0xff) as u8,
                    v4 == ((n >> 32) & 0xff) as u8,
                    v5 == ((n >> 40) & 0xff) as u8,
                    v6 == ((n >> 48) & 0xff) as u8,
                    v7 == ((n >> 56) & 0xff) as u8,
            ;
        }
    }
    Some((m, i + 8))
}

fn read_exact(b: &Vec<u8>, i: usize, len: usize) -> (r: Option<(Vec<u8>, usize)>)
    ensures
        r matches Some(p) ==> i + len <= b@.len() && p.0@ == b@.subrange(
            i as int,
            i as int + len as int,
        ) && p.1 == i + len,
        i + len <= b@.len() ==> r is Some,
{
    if i > b.len() || len > b.len() - i {
        return None;
    }
    let n = b.len();
    let mut v: Vec<u8> = Vec::new();
    let mut j: usize = 0;
    while j < len
        invariant
            n == b@.len(),
            i + len <= b@.len(),
            0 <= j <= len,
            v@.len() == j,
            forall|k: int| 0 <= k < j ==> v@[k] == b@[i + k],
        decreases len - j,
    {
        v.push(b[i + j]);
        j += 1;
    }
    proof {
        assert(v@ =~= b@.subrange(i as int, i as int + len as int));
    }
    Some((v, i + len))
}

fn read_str(b: &Vec<u8>, i: usize) -> (r: Option<(String, usize)>)
    ensures
        r matches Some(p) ==> i <= p.1 <= b@.len(),
        forall|s: Seq<char>| #![trigger enc_str(s)]
            (str_ok(s) && i + enc_str(s).len() <= b@.len() && b@.subrange(
                i as int,
                i as int + enc_str(s).len() as int,
            ) == enc_str(s)) ==> (r matches Some(p) && p.0@ == s && p.1 == i + enc_str(s).len()),
{
    let r64 = read_u64(b, i);
    match r64 {
        Option::None => {
            proof {
                assert forall|s: Seq<char>| #![trigger enc_str(s)]
                    (str_ok(s) && i + enc_str(s).len() <= b@.len() && b@.subrange(
                        i as int,
                        i as int + enc_str(s).len() as int,
                    ) == enc_str(s)) implies false by {
                    lemma_sub_of_match(b@, i as int, enc_str(s), 0, 8);
                    assert(enc_str(s).subrange(0, 8) =~= le64(encode_utf8(s).len() as u64));
                }
            }
            None
        },
        Option::Some((len64, j)) => {
            let rem = b.len() - j;
            assert(rem <= usize::MAX && usize::MAX <= u64::MAX);
            if len64 > rem as u64 {
                proof {
                    assert forall|s: Seq<char>| #![trigger enc_str(s)]
                        (str_ok(s) && i + enc_str(s).len() <= b@.len() && b@.subrange(
                            i as int,
                            i as int + enc_str(s).len() as int,
                        ) == enc_str(s)) implies false by {
                        lemma_sub_of_match(b@, i as int, enc_str(s), 0, 8);
                        assert(enc_str(s).subrange(0, 8) =~= le64(encode_utf8(s).len() as u64));
                    }
                }
                return None;
            }
            let len = len64 as usize;
            match read_exact(b, j, len) {
                Option::None => {
                    proof {
                        assert(false);
                    }
                    None
                },
                Option::Some((bytes, j2)) => {
                    match string_from_utf8(bytes) {
                        Option::Some(st) => {
                            proof {
                                assert forall|s: Seq<char>| #![trigger enc_str(s)]
                                    (str_ok(s) && i + enc_str(s).len() <= b@.len() && b@.subrange(
                                        i as int,
                                        i as int + enc_str(s).len() as int,
                                    ) == enc_str(s)) implies (st@ == s && j2 == i + enc_str(
                                    s,
                                ).len()) by {
                                    let l = encode_utf8(s).len() as int;
                                    lemma_sub_of_match(b@, i as int, enc_str(s), 0, 8);
                                    assert(enc_str(s).subrange(0, 8) =~= le64(
                                        encode_utf8(s).len() as u64,
                                    ));
                                    lemma_sub_of_match(b@, i as int, enc_str(s), 8, 8 + l);
                                    assert(enc_str(s).subrange(8, 8 + l) =~= encode_utf8(s));
                                    encode_utf8_decode_utf8(s);
                                }
                            }
                            Some((st, j2))
                        },
                        Option::None => {
                            proof {
                                assert forall|s: Seq<char>| #![trigger enc_str(s)]
                                    (str_ok(s) && i + enc_str(s).len() <= b@.len() && b@.subrange(
                                        i as int,
                                        i as int + enc_str(s).len() as int,
                                    ) == enc_str(s)) implies false by {
                                    let l = encode_utf8(s).len() as int;
                                    lemma_sub_of_match(b@, i as int, enc_str(s), 0, 8);
                                    assert(enc_str(s).subrange(0, 8) =~= le64(
                                        encode_utf8(s).len() as u64,
                                    ));
                                    lemma_sub_of_match(b@, i as int, enc_str(s), 8, 8 + l);
                                    assert(enc_str(s).subrange(8, 8 + l) =~= encode_utf8(s));
                                    encode_utf8_valid_utf8(s);
                                }
                            }
                            None
                        },
                    }
                },
            }
        },
    }
}

} // verus!

verus! {

/// The bytes of `b` starting at `i` spell `pat`.
spec fn bytes_match(b: Seq<u8>, i: int, pat: Seq<u8>) -> bool {
    0 <= i && i + pat.len() <= b.len() && b.subrange(i, i + pat.len()) == pat
}

/// The entry values denoted by an entry vector.
spec fn entry_views(v: Seq<(u64, AppDetails)>) -> Seq<(u64, RecordV)> {
    Seq::new(v.len(), |k: int| (v[k].0, v[k].1@))
}

/// Every key is above the bound, if there is one.
spec fn above(lower: Option<u64>, es: Seq<(u64, RecordV)>) -> bool {
    match lower {
        Option::None => true,
        Option::Some(l) => forall|k: int| 0 <= k < es.len() ==> l < #[trigger] es[k].0,
    }
}

proof fn lemma_record_pieces(b: Seq<u8>, i: int, rv: RecordV)
    requires
        bytes_match(b, i, enc_record(rv)),
    ensures
        bytes_match(b, i, le64(rv.id as u64)),
        bytes_match(b, i + 8, enc_str(rv.name)),
        bytes_match(b, i + 8 + enc_str(rv.name).len(), enc_bool(rv.is_free)),
        bytes_match(b, i + 9 + enc_str(rv.name).len(), enc_str(rv.short_description)),
        bytes_match(
            b,
            i + 9 + enc_str(rv.name).len() + enc_str(rv.short_description).len(),
            enc_req(rv.pc_requirements),
        ),
        enc_record(rv).len() == 9 + enc_str(rv.name).len() + enc_str(rv.short_description).len()
            + enc_req(rv.pc_requirements).len(),
{
    let l1 = enc_str(rv.name).len() as int;
    let l2 = enc_str(rv.short_description).len() as int;
    let lr = enc_req(rv.pc_requirements).len() as int;
    lemma_sub_of_match(b, i, enc_record(rv), 0, 8);
    assert(enc_record(rv).subrange(0, 8) =~= le64(rv.id as u64));
    lemma_sub_of_match(b, i, enc_record(rv), 8, 8 + l1);
    assert(enc_record(rv).subrange(8, 8 + l1) =~= enc_str(rv.name));
    lemma_sub_of_match(b, i, enc_record(rv), 8 + l1, 9 + l1);
    assert(enc_record(rv).subrange(8 + l1, 9 + l1) =~= enc_bool(rv.is_free));
    lemma_sub_of_match(b, i, enc_record(rv), 9 + l1, 9 + l1 + l2);
    assert(enc_record(rv).subrange(9 + l1, 9 + l1 + l2) =~= enc_str(rv.short_description));
    lemma_sub_of_match(b, i, enc_record(rv), 9 + l1 + l2, 9 + l1 + l2 + lr);
    assert(enc_record(rv).subrange(9 + l1 + l2, 9 + l1 + l2 + lr) =~= enc_req(
        rv.pc_requirements,
    ));
}

proof fn lemma_req_pieces(b: Seq<u8>, i: int, q: ReqV)
    requires
        bytes_match(b, i, enc_req(q)),
    ensures
        bytes_match(b, i, enc_opt_str(q.minimum)),
        bytes_match(b, i + enc_opt_str(q.minimum).len(), enc_opt_str(q.recommended)),
        enc_req(q).len() == enc_opt_str(q.minimum).len() + enc_opt_str(q.recommended).len(),
{
    let l1 = enc_opt_str(q.minimum).len() as int;
    let l2 = enc_opt_str(q.recommended).len() as int;
    lemma_sub_of_match(b, i, enc_req(q), 0, l1);
    assert(enc_req(q).subrange(0, l1) =~= enc_opt_str(q.minimum));
    lemma_sub_of_match(b, i, enc_req(q), l1, l1 + l2);
    assert(enc_req(q).subrange(l1, l1 + l2) =~= enc_opt_str(q.recommended));
}

proof fn lemma_entries_pieces(b: Seq<u8>, i: int, es: Seq<(u64, RecordV)>)
    requires
        es.len() > 0,
        bytes_match(b, i, enc_entries(es)),
    ensures
        bytes_match(b, i, le64(es.first().0)),
        bytes_match(b, i + 8, enc_record(es.first().1)),
        bytes_match(b, i + 8 + enc_record(es.first().1).len(), enc_entries(es.drop_first())),
        enc_entries(es).len() == 8 + enc_record(es.first().1).len() + enc_entries(
            es.drop_first(),
        ).len(),
{
    let lr = enc_record(es.first().1).len() as int;
    let lt = enc_entries(es.drop_first()).len() as int;
    assert(enc_entries(es) == enc_entry(es.first()) + enc_entries(es.drop_first()));
    lemma_sub_of_match(b, i, enc_entries(es), 0, 8);
    assert(enc_entries(es).subrange(0, 8) =~= le64(es.first().0));
    lemma_sub_of_match(b, i, enc_entries(es), 8, 8 + lr);
    assert(enc_entries(es).subrange(8, 8 + lr) =~= enc_record(es.first().1));
    lemma_sub_of_match(b, i, enc_entries(es), 8 + lr, 8 + lr + lt);
    assert(enc_entries(es).subrange(8 + lr, 8 + lr + lt) =~= enc_entries(es.drop_first()));
}

proof fn lemma_enc_entries_min(es: Seq<(u64, RecordV)>)
    ensures
        enc_entries(es).len() >= es.len(),
    decreases es.len(),
{
    if es.len() > 0 {
        lemma_enc_entries_min(es.drop_first());
    }
}

proof fn lemma_store_pieces(b: Seq<u8>, es: Seq<(u64, RecordV)>)
    requires
        b == enc_store(es),
    ensures
        b.len() == 9 + enc_entries(es).len(),
        b[0] == FORMAT_TAG,
        bytes_match(b, 1, le64(es.len() as u64)),
        bytes_match(b, 9, enc_entries(es)),
{
    let lt = enc_entries(es).len() as int;
    assert(b.subrange(0, b.len() as int) =~= b);
    lemma_sub_of_match(b, 0, enc_store(es), 1, 9);
    assert(enc_store(es).subrange(1, 9) =~= le64(es.len() as u64));
    lemma_sub_of_match(b, 0, enc_store(es), 9, 9 + lt);
    assert(enc_store(es).subrange(9, 9 + lt) =~= enc_entries(es));
}

fn read_opt_str(b: &Vec<u8>, i: usize) -> (r: Option<(Option<String>, usize)>)
    ensures
        r matches Some(p) ==> i <= p.1 <= b@.len(),
        forall|o: Option<Seq<char>>| #![trigger enc_opt_str(o)]
            (opt_str_ok(o) && bytes_match(b@, i as int, enc_opt_str(o))) ==> (r matches Some(p)
                && p.0.deep_view() == o && p.1 == i + enc_opt_str(o).len()),
{
    match read_u8(b, i) {
        Option::None => {
            proof {
                assert forall|o: Option<Seq<char>>| #![trigger enc_opt_str(o)]
                    (opt_str_ok(o) && bytes_match(b@, i as int, enc_opt_str(o))) implies false by {
                    assert(enc_opt_str(o).len() >= 1);
                }
            }
            None
        },
        Option::Some((tag, j)) => {
            if tag == 0 {
                proof {
                    assert forall|o: Option<Seq<char>>| #![trigger enc_opt_str(o)]
                        (opt_str_ok(o) && bytes_match(b@, i as int, enc_opt_str(o))) implies (o
                        is None && 1 == enc_opt_str(o).len()) by {
                        assert(b@[i as int] == enc_opt_str(o)[0]);
                        match o {
                            Option::Some(s) => {
                                assert(enc_opt_str(o)[0] == 1);
                            },
                            Option::None => {},
                        }
                    }
                }
                Some((None, j))
            } else if tag == 1 {
                match read_str(b, j) {
                    Option::Some((st, j2)) => {
                        proof {
                            assert forall|o: Option<Seq<char>>| #![trigger enc_opt_str(o)]
                                (opt_str_ok(o) && bytes_match(b@, i as int, enc_opt_str(o))) implies (
                            Some(st).deep_view() == o && j2 == i + enc_opt_str(o).len()) by {
                                assert(b@[i as int] == enc_opt_str(o)[0]);
                                match o {
                                    Option::Some(s) => {
                                        lemma_sub_of_match(
                                            b@,
                                            i as int,
                                            enc_opt_str(o),
                                            1,
                                            1 + enc_str(s).len() as int,
                                        );
                                        assert(enc_opt_str(o).subrange(1, 1 + enc_str(s).len() as int)
                                            =~= enc_str(s));
                                        assert(st@ == s);
                                    },
                                    Option::None => {
                                        assert(enc_opt_str(o)[0] == 0);
                                    },
                                }
                            }
                        }
                        Some((Some(st), j2))
                    },
                    Option::None => {
                        proof {
                            assert forall|o: Option<Seq<char>>| #![trigger enc_opt_str(o)]
                                (opt_str_ok(o) && bytes_match(b@, i as int, enc_opt_str(o))) implies false by {
                                assert(b@[i as int] == enc_opt_str(o)[0]);
                                match o {
                                    Option::Some(s) => {
                                        lemma_sub_of_match(
                                            b@,
                                            i as int,
                                            enc_opt_str(o),
                                            1,
                                            1 + enc_str(s).len() as int,
                                        );
                                        assert(enc_opt_str(o).subrange(1, 1 + enc_str(s).len() as int)
                                            =~= enc_str(s));
                                    },
                                    Option::None => {
                                        assert(enc_opt_str(o)[0] == 0);
                                    },
                                }
                            }
                        }
                        None
                    },
                }
            } else {
                proof {
                    assert forall|o: Option<Seq<char>>| #![trigger enc_opt_str(o)]
                        (opt_str_ok(o) && bytes_match(b@, i as int, enc_opt_str(o))) implies false by {
                        assert(b@[i as int] == enc_opt_str(o)[0]);
                        match o {
                            Option::Some(s) => {
                                assert(enc_opt_str(o)[0] == 1);
                            },
                            Option::None => {
                                assert(enc_opt_str(o)[0] == 0);
                            },
                        }
                    }
                }
                None
            }
        },
    }
}

fn read_req(b: &Vec<u8>, i: usize) -> (r: Option<(Requirements, usize)>)
    ensures
        r matches Some(p) ==> i <= p.1 <= b@.len(),
        forall|q: ReqV| #![trigger enc_req(q)]
            (req_ok(q) && bytes_match(b@, i as int, enc_req(q))) ==> (r matches Some(p) && p.0@
                =~= q && p.1 == i + enc_req(q).len()),
{
    match read_opt_str(b, i) {
        Option::None => {
            proof {
                assert forall|q: ReqV| #![trigger enc_req(q)]
                    (req_ok(q) && bytes_match(b@, i as int, enc_req(q))) implies false by {
                    lemma_req_pieces(b@, i as int, q);
                }
            }
            None
        },
        Option::Some((mn, j)) => {
            match read_opt_str(b, j) {
                Option::None => {
                    proof {
                        assert forall|q: ReqV| #![trigger enc_req(q)]
                            (req_ok(q) && bytes_match(b@, i as int, enc_req(q))) implies false by {
                            lemma_req_pieces(b@, i as int, q);
                        }
                    }
                    None
                },
                Option::Some((rc, j2)) => {
                    let req = Requirements { minimum: mn, recommended: rc };
                    proof {
                        assert forall|q: ReqV| #![trigger enc_req(q)]
                            (req_ok(q) && bytes_match(b@, i as int, enc_req(q))) implies (req@ =~= q
                            && j2 == i + enc_req(q).len()) by {
                            lemma_req_pieces(b@, i as int, q);
                        }
                    }
                    Some((req, j2))
                },
            }
        },
    }
}

} // verus!

verus! {

#[verifier::rlimit(80)]
fn read_record(b: &Vec<u8>, i: usize) -> (r: Option<(AppDetails, usize)>)
    ensures
        r matches Some(p) ==> i <= p.1 <= b@.len(),
        forall|rv: RecordV| #![trigger enc_record(rv)]
            (rec_ok(rv) && bytes_match(b@, i as int, enc_record(rv))) ==> (r matches Some(p)
                && p.0@ =~= rv && p.1 == i + enc_record(rv).len()),
{
    let r1 = read_u64(b, i);
    let (idu, j1) = match r1 {
        Option::Some(p) => p,
        Option::None => {
            proof {
                assert forall|rv: RecordV| #![trigger enc_record(rv)]
                    (rec_ok(rv) && bytes_match(b@, i as int, enc_record(rv))) implies false by {
                    lemma_record_pieces(b@, i as int, rv);
                }
            }
            return None;
        },
    };
    let r2 = read_str(b, j1);
    let (name, j2) = match r2 {
        Option::Some(p) => p,
        Option::None => {
            proof {
                assert forall|rv: RecordV| #![trigger enc_record(rv)]
                    (rec_ok(rv) && bytes_match(b@, i as int, enc_record(rv))) implies false by {
                    lemma_record_pieces(b@, i as int, rv);
                }
            }
            return None;
        },
    };
    let r3 = read_u8(b, j2);
    let (tag, j3) = match r3 {
        Option::Some(p) => p,
        Option::None => {
            proof {
                assert forall|rv: RecordV| #![trigger enc_record(rv)]
                    (rec_ok(rv) && bytes_match(b@, i as int, enc_record(rv))) implies false by {
                    lemma_record_pieces(b@, i as int, rv);
                    assert(b@.subrange(
                        i + 8 + enc_str(rv.name).len() as int,
                        i + 9 + enc_str(rv.name).len() as int,
                    ).len() == 1);
                }
            }
            return None;
        },
    };
    if tag > 1 {
        proof {
            assert forall|rv: RecordV| #![trigger enc_record(rv)]
                (rec_ok(rv) && bytes_match(b@, i as int, enc_record(rv))) implies false by {
                lemma_record_pieces(b@, i as int, rv);
                let o = i + 8 + enc_str(rv.name).len() as int;
                assert(b@[o] == enc_bool(rv.is_free)[0]);
            }
        }
        return None;
    }
    let r4 = read_str(b, j3);
    let (desc, j4) = match r4 {
        Option::Some(p) => p,
        Option::None => {
            proof {
                assert forall|rv: RecordV| #![trigger enc_record(rv)]
                    (rec_ok(rv) && bytes_match(b@, i as int, enc_record(rv))) implies false by {
                    lemma_record_pieces(b@, i as int, rv);
                }
            }
            return None;
        },
    };
    let r5 = read_req(b, j4);
    let (req, j5) = match r5 {
        Option::Some(p) => p,
        Option::None => {
            proof {
                assert forall|rv: RecordV| #![trigger enc_record(rv)]
                    (rec_ok(rv) && bytes_match(b@, i as int, enc_record(rv))) implies false by {
                    lemma_record_pieces(b@, i as int, rv);
                }
            }
            return None;
        },
    };
    let rec = AppDetails {
        id: idu as i64,
        name,
        is_free: tag == 1,
        short_description: desc,
        pc_requirements: req,
    };
    proof {
        assert forall|rv: RecordV| #![trigger enc_record(rv)]
            (rec_ok(rv) && bytes_match(b@, i as int, enc_record(rv))) implies (rec@ =~= rv && j5
            == i + enc_record(rv).len()) by {
            lemma_record_pieces(b@, i as int, rv);
            assert(idu == rv.id as u64);
            let idv: i64 = rv.id;
            assert(idu as i64 == idv) by (bit_vector)
                requires
                    idu == idv as u64,
            ;
            let o = i + 8 + enc_str(rv.name).len() as int;
            assert(b@[o] == enc_bool(rv.is_free)[0]);
            assert((tag == 1) == rv.is_free);
        }
    }
    Some((rec, j5))
}

#[verifier::rlimit(80)]
fn read_entries(b: &Vec<u8>, i: usize, count: u64, lower: Option<u64>) -> (r: Option<
    (Vec<(u64, AppDetails)>, usize),
>)
    ensures
        r matches Some(p) ==> i <= p.1 <= b@.len() && p.0@.len() == count && sorted_strict(
            entry_views(p.0@),
        ) && above(lower, entry_views(p.0@)),
        forall|es: Seq<(u64, RecordV)>| #![trigger enc_entries(es)]
            (es.len() == count && sorted_strict(es) && above(lower, es) && (forall|k: int|
                0 <= k < es.len() ==> rec_ok(#[trigger] es[k].1)) && bytes_match(
                b@,
                i as int,
                enc_entries(es),
            )) ==> (r matches Some(p) && entry_views(p.0@) == es && p.1 == i + enc_entries(
                es,
            ).len()),
    decreases count,
{
    if count == 0 {
        if i > b.len() {
            return None;
        }
        let v: Vec<(u64, AppDetails)> = Vec::new();
        proof {
            assert(entry_views(v@) =~= Seq::<(u64, RecordV)>::empty());
            assert forall|es: Seq<(u64, RecordV)>| #![trigger enc_entries(es)]
                (es.len() == count && sorted_strict(es) && above(lower, es) && (forall|k: int|
                    0 <= k < es.len() ==> rec_ok(#[trigger] es[k].1)) && bytes_match(
                    b@,
                    i as int,
                    enc_entries(es),
                )) implies (entry_views(v@) == es && i == i + enc_entries(es).len()) by {
                assert(entry_views(v@) =~= es);
            }
        }
        return Some((v, i));
    }
    let r1 = read_u64(b, i);
    let (key, j1) = match r1 {
        Option::Some(p) => p,
        Option::None => {
            proof {
                assert forall|es: Seq<(u64, RecordV)>| #![trigger enc_entries(es)]
                    (es.len() == count && sorted_strict(es) && above(lower, es) && (forall|k: int|
                        0 <= k < es.len() ==> rec_ok(#[trigger] es[k].1)) && bytes_match(
                        b@,
                        i as int,
                        enc_entries(es),
                    )) implies false by {
                    lemma_entries_pieces(b@, i as int, es);
                }
            }
            return None;
        },
    };
    let lower_ok = match lower {
        Option::Some(l) => key > l,
        Option::None => true,
    };
    if !lower_ok {
        proof {
            assert forall|es: Seq<(u64, RecordV)>| #![trigger enc_entries(es)]
                (es.len() == count && sorted_strict(es) && above(lower, es) && (forall|k: int|
                    0 <= k < es.len() ==> rec_ok(#[trigger] es[k].1)) && bytes_match(
                    b@,
                    i as int,
                    enc_entries(es),
                )) implies false by {
                lemma_entries_pieces(b@, i as int, es);
                assert(key == es.first().0);
                assert(es[0].0 == es.first().0);
            }
        }
        return None;
    }
    let r2 = read_record(b, j1);
    let (rec, j2) = match r2 {
        Option::Some(p) => p,
        Option::None => {
            proof {
                assert forall|es: Seq<(u64, RecordV)>| #![trigger enc_entries(es)]
                    (es.len() == count && sorted_strict(es) && above(lower, es) && (forall|k: int|
                        0 <= k < es.len() ==> rec_ok(#[trigger] es[k].1)) && bytes_match(
                        b@,
                        i as int,
                        enc_entries(es),
                    )) implies false by {
                    lemma_entries_pieces(b@, i as int, es);
                    assert(rec_ok(es[0].1));
                    assert(es[0].1 == es.first().1);
                }
            }
            return None;
        },
    };
    let r3 = read_entries(b, j2, count - 1, Some(key));
    let (mut tail, j3) = match r3 {
        Option::Some(p) => p,
        Option::None => {
            proof {
                assert forall|es: Seq<(u64, RecordV)>| #![trigger enc_entries(es)]
                    (es.len() == count && sorted_strict(es) && above(lower, es) && (forall|k: int|
                        0 <= k < es.len() ==> rec_ok(#[trigger] es[k].1)) && bytes_match(
                        b@,
                        i as int,
                        enc_entries(es),
                    )) implies false by {
                    lemma_entries_pieces(b@, i as int, es);
                    assert(rec_ok(es[0].1));
                    assert(es[0].1 == es.first().1);
                    assert(key == es.first().0);
                    let t = es.drop_first();
                    assert(forall|k: int| 0 <= k < t.len() ==> t[k] == es[k + 1]);
                    assert(forall|k: int| 0 <= k < t.len() ==> rec_ok(#[trigger] t[k].1));
                    assert forall|a: int, c: int| 0 <= a < c < t.len() implies t[a].0 < t[c].0 by {
                        assert(t[a] == es[a + 1] && t[c] == es[c + 1]);
                    }
                    assert(sorted_strict(t));
                    assert forall|k: int| 0 <= k < t.len() implies key < t[k].0 by {
                        assert(t[k] == es[k + 1]);
                    }
                    assert(above(Some(key), t));
                    assert(j2 == i + 8 + enc_record(es.first().1).len());
                }
            }
            return None;
        },
    };
    let mut out: Vec<(u64, AppDetails)> = Vec::new();
    let ghost tailv = tail@;
    let ghost tv = entry_views(tailv);
    out.push((key, rec));
    out.append(&mut tail);
    proof {
        assert(out@ =~= seq![(key, rec)] + tailv);
    }
    proof {
        let ov = entry_views(out@);
        assert(ov.len() == count);
        assert(ov[0] == (key, rec@));
        assert(forall|k: int| 0 <= k < tv.len() ==> ov[k + 1] == tv[k]);
        assert(forall|k: int| 0 <= k < tv.len() ==> key < #[trigger] tv[k].0);
        assert forall|a: int, c: int| 0 <= a < c < ov.len() implies ov[a].0 < ov[c].0 by {
            assert(ov[c] == tv[c - 1]);
            if a > 0 {
                assert(ov[a] == tv[a - 1]);
            }
        }
        assert(sorted_strict(ov));
        assert(above(lower, ov));
        assert forall|es: Seq<(u64, RecordV)>| #![trigger enc_entries(es)]
            (es.len() == count && sorted_strict(es) && above(lower, es) && (forall|k: int|
                0 <= k < es.len() ==> rec_ok(#[trigger] es[k].1)) && bytes_match(
                b@,
                i as int,
                enc_entries(es),
            )) implies (entry_views(out@) == es && j3 == i + enc_entries(es).len()) by {
            lemma_entries_pieces(b@, i as int, es);
            assert(rec_ok(es[0].1));
            assert(es[0].1 == es.first().1);
            assert(key == es.first().0);
            assert(rec@ =~= es.first().1);
            let t = es.drop_first();
            assert(forall|k: int| 0 <= k < t.len() ==> t[k] == es[k + 1]);
            assert(forall|k: int| 0 <= k < t.len() ==> rec_ok(#[trigger] t[k].1));
            assert forall|a: int, c: int| 0 <= a < c < t.len() implies t[a].0 < t[c].0 by {
                assert(t[a] == es[a + 1] && t[c] == es[c + 1]);
            }
            assert(sorted_strict(t));
            assert forall|k: int| 0 <= k < t.len() implies key < t[k].0 by {
                assert(t[k] == es[k + 1]);
            }
            assert(above(Some(key), t));
            assert(j2 == i + 8 + enc_record(es.first().1).len());
            assert(tv == t);
            assert(rec@ == es.first().1);
            assert forall|k: int| 0 <= k < es.len() implies entry_views(out@)[k] == es[k] by {
                if k == 0 {
                    assert(entry_views(out@)[0] == (key, rec@));
                    assert(es[0] == es.first());
                } else {
                    assert(entry_views(out@)[k] == tv[k - 1]);
                }
            }
            assert(entry_views(out@) =~= es);
        }
    }
    Some((out, j3))
}

} // verus!

verus! {

/// Decodes the canonical (uncompressed) byte form back into a store.
///
/// Whenever the input is the exact encoding of a well-formed store, the
/// result is that store; on any other input the result is `None` or some
/// well-formed store.
pub fn decode_store(b: &Vec<u8>) -> (r: Option<Cache>)
    ensures
        r matches Some(c) ==> c.wf(),
        forall|es: Seq<(u64, RecordV)>| #![trigger enc_store(es)]
            (entries_ok(es) && b@ == enc_store(es)) ==> (r matches Some(c) && c.entry_seq() == es),
{
    let r1 = read_u8(b, 0);
    let tag = match r1 {
        Option::Some(p) => p.0,
        Option::None => {
            proof {
                assert forall|es: Seq<(u64, RecordV)>| #![trigger enc_store(es)]
                    (entries_ok(es) && b@ == enc_store(es)) implies false by {
                    lemma_store_pieces(b@, es);
                }
            }
            return None;
        },
    };
    if tag != FORMAT_TAG {
        proof {
            assert forall|es: Seq<(u64, RecordV)>| #![trigger enc_store(es)]
                (entries_ok(es) && b@ == enc_store(es)) implies false by {
                lemma_store_pieces(b@, es);
            }
        }
        return None;
    }
    let r2 = read_u64(b, 1);
    let count = match r2 {
        Option::Some(p) => p.0,
        Option::None => {
            proof {
                assert forall|es: Seq<(u64, RecordV)>| #![trigger enc_store(es)]
                    (entries_ok(es) && b@ == enc_store(es)) implies false by {
                    lemma_store_pieces(b@, es);
                }
            }
            return None;
        },
    };
    let n = b.len();
    assert(n >= 9);
    assert(n - 9 <= usize::MAX && usize::MAX <= u64::MAX);
    if count > (n - 9) as u64 {
        proof {
            assert forall|es: Seq<(u64, RecordV)>| #![trigger enc_store(es)]
                (entries_ok(es) && b@ == enc_store(es)) implies false by {
                lemma_store_pieces(b@, es);
                assert(count == es.len() as u64);
                lemma_enc_entries_min(es);
            }
        }
        return None;
    }
    let r3 = read_entries(b, 9, count, None);
    let (v, end) = match r3 {
        Option::Some(p) => p,
        Option::None => {
            proof {
                assert forall|es: Seq<(u64, RecordV)>| #![trigger enc_store(es)]
                    (entries_ok(es) && b@ == enc_store(es)) implies false by {
                    lemma_store_pieces(b@, es);
                    assert(count == es.len() as u64);
                }
            }
            return None;
        },
    };
    if end != n {
        proof {
            assert forall|es: Seq<(u64, RecordV)>| #![trigger enc_store(es)]
                (entries_ok(es) && b@ == enc_store(es)) implies false by {
                lemma_store_pieces(b@, es);
                assert(count == es.len() as u64);
                assert(end == 9 + enc_entries(es).len());
            }
        }
        return None;
    }
    let ghost vv = v@;
    let c = Cache::from_entries(v);
    proof {
        assert(c.entry_seq() =~= entry_views(vv));
        assert forall|es: Seq<(u64, RecordV)>| #![trigger enc_store(es)]
            (entries_ok(es) && b@ == enc_store(es)) implies c.entry_seq() == es by {
            lemma_store_pieces(b@, es);
            assert(count == es.len() as u64);
            assert(entry_views(vv) == es);
        }
    }
    Some(c)
}

impl Cache {
    /// The bytes written to disk: the compressed canonical encoding.
    pub fn to_bytes(&self) -> (r: Vec<u8>)
        requires
            self.wf(),
        ensures
            r@ == deflate_of(enc_store(self.entry_seq())),
            entries_ok(self.entry_seq()),
    {
        let plain = encode_store(self);
        compress_zlib(&plain)
    }

    /// Decodes bytes read from disk; exactly inverts [`Cache::to_bytes`].
    pub fn from_bytes(data: &Vec<u8>) -> (r: Option<Cache>)
        ensures
            r matches Some(c) ==> c.wf(),
            forall|es: Seq<(u64, RecordV)>| #![trigger enc_store(es)]
                (entries_ok(es) && data@ == deflate_of(enc_store(es))) ==> (r matches Some(c)
                    && c.entry_seq() == es && c@ == crate::store::map_of(es)),
    {
        match decompress_zlib(data) {
            Option::Some(plain) => {
                let d = decode_store(&plain);
                proof {
                    assert forall|es: Seq<(u64, RecordV)>| #![trigger enc_store(es)]
                        (entries_ok(es) && data@ == deflate_of(enc_store(es))) implies (d matches Some(
                        c,
                    ) && c.entry_seq() == es && c@ == crate::store::map_of(es)) by {
                        assert(plain@ == enc_store(es));
                    }
                }
                d
            },
            Option::None => {
                None
            },
        }
    }

    /// The store denoted by the cache file's contents, or an empty store.
    ///
    /// `None` stands for a file that does not exist; undecodable bytes are
    /// treated the same way, so a corrupt cache never blocks a start.
    pub fn load_or_empty(data: &Option<Vec<u8>>) -> (c: Cache)
        ensures
            c.wf(),
            data is None ==> c@ == Map::<u64, RecordV>::empty(),
            data matches Some(d) ==> forall|es: Seq<(u64, RecordV)>| #![trigger enc_store(es)]
                (entries_ok(es) && d@ == deflate_of(enc_store(es))) ==> (c.entry_seq() == es && c@
                    == crate::store::map_of(es)),
    {
        match data {
            Option::None => Cache::empty(),
            Option::Some(d) => {
                match Cache::from_bytes(d) {
                    Option::Some(c) => c,
                    Option::None => Cache::empty(),
                }
            },
        }
    }
}

} // verus!
