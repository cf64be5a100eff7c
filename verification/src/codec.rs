//! The record framing protocol.
//!
//! An archive body is a plain concatenation of records, with no header,
//! trailer or count; clean end of input exactly where a record would start
//! is the terminator. Each record is
//!
//! ```text
//! filename_len: u32 LE   (UTF-16 code units, not bytes)
//! filename:     u16 LE * filename_len
//! content_len:  u32 LE   (bytes)
//! content:      u8 * content_len
//! ```
//!
//! [`parse_archive`] is the defining specification of the decoder, and
//! [`archive_bytes`] of the encoder; [`lemma_archive_round_trip`] and
//! [`lemma_truncation_detected`] relate the two.

use vstd::bytes::*;
use vstd::prelude::*;
use vstd::slice::{slice_subrange, slice_to_vec};

use crate::errors::ArchiveError;
use crate::record::{Record, RecordView, records_view};
use crate::utf16::{decode_utf16, encode_utf16, lemma_utf16_round_trip, utf16_decode, utf16_encode};

verus! {

/// The little-endian bytes of a sequence of 16-bit code units.
pub open spec fn units_to_le_bytes(us: Seq<u16>) -> Seq<u8>
    decreases us.len(),
{
    if us.len() == 0 {
        Seq::empty()
    } else {
        spec_u16_to_le_bytes(us[0]) + units_to_le_bytes(us.drop_first())
    }
}

/// The 16-bit code units read from little-endian bytes, two at a time.
pub open spec fn le_bytes_to_units(bs: Seq<u8>) -> Seq<u16>
    decreases bs.len(),
{
    if bs.len() < 2 {
        Seq::empty()
    } else {
        seq![spec_u16_from_le_bytes(bs.take(2))] + le_bytes_to_units(bs.skip(2))
    }
}

/// A record whose two length fields fit the wire format's 32-bit prefixes.
pub open spec fn valid_record(r: RecordView) -> bool {
    &&& utf16_encode(r.name).len() <= u32::MAX
    &&& r.content.len() <= u32::MAX
}

/// The wire encoding of one record.
pub open spec fn record_bytes(r: RecordView) -> Seq<u8> {
    let units = utf16_encode(r.name);
    spec_u32_to_le_bytes(units.len() as u32) + units_to_le_bytes(units) + spec_u32_to_le_bytes(
        r.content.len() as u32,
    ) + r.content
}

/// The wire encoding of a whole archive body: the records, in order.
pub open spec fn archive_bytes(rs: Seq<RecordView>) -> Seq<u8>
    decreases rs.len(),
{
    if rs.len() == 0 {
        Seq::empty()
    } else {
        record_bytes(rs[0]) + archive_bytes(rs.drop_first())
    }
}

/// What decoding an archive body yields: the records it frames, or the
/// error the malformation calls for. End of input at a record start is the
/// terminator; anywhere else inside a record it is a truncation.
pub open spec fn parse_archive(bs: Seq<u8>) -> Result<Seq<RecordView>, ArchiveError>
    decreases bs.len(),
{
    if bs.len() == 0 {
        Ok(Seq::empty())
    } else if bs.len() < 4 {
        Err(ArchiveError::TruncatedStream)
    } else {
        let flen = spec_u32_from_le_bytes(bs.take(4)) as int;
        if bs.len() < 4 + 2 * flen {
            Err(ArchiveError::TruncatedStream)
        } else {
            match utf16_decode(le_bytes_to_units(bs.subrange(4, 4 + 2 * flen))) {
                None => Err(ArchiveError::Encoding),
                Some(name) => {
                    if bs.len() < 8 + 2 * flen {
                        Err(ArchiveError::TruncatedStream)
                    } else {
                        let clen = spec_u32_from_le_bytes(
                            bs.subrange(4 + 2 * flen, 8 + 2 * flen),
                        ) as int;
                        if bs.len() < 8 + 2 * flen + clen {
                            Err(ArchiveError::TruncatedStream)
                        } else {
                            let content = bs.subrange(8 + 2 * flen, 8 + 2 * flen + clen);
                            match parse_archive(bs.skip(8 + 2 * flen + clen)) {
                                Ok(rest) => Ok(seq![RecordView { name, content }] + rest),
                                Err(e) => Err(e),
                            }
                        }
                    }
                },
            }
        }
    }
}

/// True at offsets where one record ends and the next would begin: the only
/// offsets where cutting the body off leaves it decodable.
pub open spec fn is_record_boundary(rs: Seq<RecordView>, n: int) -> bool
    decreases rs.len(),
{
    ||| n == 0
    ||| (rs.len() > 0 && n >= record_bytes(rs[0]).len() && is_record_boundary(
        rs.drop_first(),
        n - record_bytes(rs[0]).len(),
    ))
}

/// The byte form of a unit sequence is twice as long.
pub proof fn lemma_units_to_le_bytes_len(us: Seq<u16>)
    ensures
        units_to_le_bytes(us).len() == 2 * us.len(),
    decreases us.len(),
{
    lemma_auto_spec_u16_to_from_le_bytes();
    if us.len() == 0 {
    } else {
        lemma_units_to_le_bytes_len(us.drop_first());
    }
}

/// Appending one unit appends its two bytes.
pub proof fn lemma_units_to_le_bytes_push(us: Seq<u16>, u: u16)
    ensures
        units_to_le_bytes(us.push(u)) == units_to_le_bytes(us) + spec_u16_to_le_bytes(u),
    decreases us.len(),
{
    if us.len() == 0 {
        assert(us.push(u).drop_first() =~= Seq::<u16>::empty());
        assert(units_to_le_bytes(Seq::<u16>::empty()) == Seq::<u8>::empty());
        assert(units_to_le_bytes(us.push(u)) =~= units_to_le_bytes(us) + spec_u16_to_le_bytes(u));
    } else {
        assert(us.push(u).drop_first() =~= us.drop_first().push(u));
        lemma_units_to_le_bytes_push(us.drop_first(), u);
        assert(units_to_le_bytes(us.push(u)) =~= units_to_le_bytes(us) + spec_u16_to_le_bytes(u));
    }
}

/// Reading units back from the bytes of a unit sequence yields it exactly.
pub proof fn lemma_units_le_round_trip(us: Seq<u16>)
    ensures
        le_bytes_to_units(units_to_le_bytes(us)) == us,
    decreases us.len(),
{
    lemma_auto_spec_u16_to_from_le_bytes();
    if us.len() == 0 {
    } else {
        lemma_units_le_round_trip(us.drop_first());
        let bs = units_to_le_bytes(us);
        assert(bs.take(2) =~= spec_u16_to_le_bytes(us[0]));
        assert(bs.skip(2) =~= units_to_le_bytes(us.drop_first()));
        assert(le_bytes_to_units(bs) =~= us);
    }
}

/// Appending one more pair of bytes appends the unit they form.
pub proof fn lemma_le_bytes_to_units_snoc(bs: Seq<u8>, b0: u8, b1: u8)
    requires
        bs.len() % 2 == 0,
    ensures
        le_bytes_to_units(bs + seq![b0, b1]) == le_bytes_to_units(bs).push(
            spec_u16_from_le_bytes(seq![b0, b1]),
        ),
    decreases bs.len(),
{
    if bs.len() == 0 {
        let pair = seq![b0, b1];
        assert(bs + pair =~= pair);
        assert(pair.take(2) =~= pair);
        assert(pair.skip(2) =~= Seq::<u8>::empty());
        assert(le_bytes_to_units(Seq::<u8>::empty()) == Seq::<u16>::empty());
        assert(le_bytes_to_units(bs + pair) =~= le_bytes_to_units(bs).push(
            spec_u16_from_le_bytes(pair),
        ));
    } else {
        let pair = seq![b0, b1];
        let whole = bs + pair;
        assert(whole.len() >= 2);
        assert(whole.take(2) =~= bs.take(2));
        assert(whole.skip(2) =~= bs.skip(2) + pair);
        lemma_le_bytes_to_units_snoc(bs.skip(2), b0, b1);
        assert(le_bytes_to_units(whole) =~= le_bytes_to_units(bs).push(
            spec_u16_from_le_bytes(pair),
        ));
    }
}

/// Appending one record appends its wire bytes.
pub proof fn lemma_archive_bytes_push(rs: Seq<RecordView>, r: RecordView)
    ensures
        archive_bytes(rs.push(r)) == archive_bytes(rs) + record_bytes(r),
    decreases rs.len(),
{
    if rs.len() == 0 {
        assert(rs.push(r).drop_first() =~= Seq::<RecordView>::empty());
        assert(archive_bytes(Seq::<RecordView>::empty()) == Seq::<u8>::empty());
        assert(archive_bytes(rs.push(r)) =~= archive_bytes(rs) + record_bytes(r));
    } else {
        assert(rs.push(r).drop_first() =~= rs.drop_first().push(r));
        lemma_archive_bytes_push(rs.drop_first(), r);
        assert(archive_bytes(rs.push(r)) =~= archive_bytes(rs) + record_bytes(r));
    }
}

/// Decoding a record's bytes followed by anything parses off exactly that
/// record and goes on with the rest.
pub proof fn lemma_parse_prefix(r: RecordView, tail: Seq<u8>)
    requires
        valid_record(r),
    ensures
        parse_archive(record_bytes(r) + tail) == match parse_archive(tail) {
            Ok(rest) => Ok::<Seq<RecordView>, ArchiveError>(seq![r] + rest),
            Err(e) => Err::<Seq<RecordView>, ArchiveError>(e),
        },
{
    lemma_auto_spec_u32_to_from_le_bytes();
    let units = utf16_encode(r.name);
    lemma_units_to_le_bytes_len(units);
    let flen = units.len() as int;
    let clen = r.content.len() as int;
    let bs = record_bytes(r) + tail;
    let total = 8 + 2 * flen + clen;
    assert(record_bytes(r).len() == total);
    assert(bs.len() == total + tail.len());
    assert(bs.take(4) =~= spec_u32_to_le_bytes(units.len() as u32));
    assert(spec_u32_from_le_bytes(bs.take(4)) as int == flen);
    assert(bs.subrange(4, 4 + 2 * flen) =~= units_to_le_bytes(units));
    lemma_units_le_round_trip(units);
    lemma_utf16_round_trip(r.name);
    assert(utf16_decode(le_bytes_to_units(bs.subrange(4, 4 + 2 * flen))) == Some(r.name));
    assert(bs.subrange(4 + 2 * flen, 8 + 2 * flen) =~= spec_u32_to_le_bytes(
        r.content.len() as u32,
    ));
    assert(spec_u32_from_le_bytes(bs.subrange(4 + 2 * flen, 8 + 2 * flen)) as int == clen);
    assert(bs.subrange(8 + 2 * flen, total) =~= r.content);
    assert(bs.skip(total) =~= tail);
    assert(RecordView { name: r.name, content: r.content } =~= r);
    match parse_archive(tail) {
        Ok(rest) => {
            assert(parse_archive(bs) == Ok::<Seq<RecordView>, ArchiveError>(seq![r] + rest));
        },
        Err(e) => {
            assert(parse_archive(bs) == Err::<Seq<RecordView>, ArchiveError>(e));
        },
    }
}

/// Cutting a record's bytes anywhere strictly inside decodes to a
/// truncation error.
pub proof fn lemma_record_cut(r: RecordView, n: int)
    requires
        valid_record(r),
        0 < n < record_bytes(r).len(),
    ensures
        parse_archive(record_bytes(r).take(n)) == Err::<Seq<RecordView>, ArchiveError>(
            ArchiveError::TruncatedStream,
        ),
{
    lemma_auto_spec_u32_to_from_le_bytes();
    let units = utf16_encode(r.name);
    lemma_units_to_le_bytes_len(units);
    let flen = units.len() as int;
    let clen = r.content.len() as int;
    let whole = record_bytes(r);
    let t = whole.take(n);
    assert(t.len() == n);
    if n < 4 {
    } else {
        assert(t.take(4) =~= spec_u32_to_le_bytes(units.len() as u32));
        assert(spec_u32_from_le_bytes(t.take(4)) as int == flen);
        if n < 4 + 2 * flen {
        } else {
            assert(t.subrange(4, 4 + 2 * flen) =~= units_to_le_bytes(units));
            lemma_units_le_round_trip(units);
            lemma_utf16_round_trip(r.name);
            assert(utf16_decode(le_bytes_to_units(t.subrange(4, 4 + 2 * flen))) == Some(r.name));
            if n < 8 + 2 * flen {
            } else {
                assert(t.subrange(4 + 2 * flen, 8 + 2 * flen) =~= spec_u32_to_le_bytes(
                    r.content.len() as u32,
                ));
                assert(spec_u32_from_le_bytes(t.subrange(4 + 2 * flen, 8 + 2 * flen)) as int
                    == clen);
                assert(n < 8 + 2 * flen + clen);
            }
        }
    }
}

/// Law: decoding an encoded archive yields exactly the records that were
/// encoded, in their order.
pub proof fn lemma_archive_round_trip(rs: Seq<RecordView>)
    requires
        forall|i: int| 0 <= i < rs.len() ==> valid_record(#[trigger] rs[i]),
    ensures
        parse_archive(archive_bytes(rs)) == Ok::<Seq<RecordView>, ArchiveError>(rs),
    decreases rs.len(),
{
    if rs.len() == 0 {
        assert(archive_bytes(rs) == Seq::<u8>::empty());
        assert(rs =~= Seq::<RecordView>::empty());
    } else {
        assert(forall|i: int|
            0 <= i < rs.drop_first().len() ==> valid_record(#[trigger] rs.drop_first()[i]));
        lemma_archive_round_trip(rs.drop_first());
        lemma_parse_prefix(rs[0], archive_bytes(rs.drop_first()));
        assert(seq![rs[0]] + rs.drop_first() =~= rs);
    }
}

/// An encoded archive splits at any record index into the encodings of the
/// records before and after it.
pub proof fn lemma_archive_bytes_split(rs: Seq<RecordView>, k: int)
    requires
        0 <= k <= rs.len(),
    ensures
        archive_bytes(rs) == archive_bytes(rs.take(k)) + archive_bytes(rs.skip(k)),
    decreases k,
{
    if k == 0 {
        assert(rs.take(0) =~= Seq::<RecordView>::empty());
        assert(rs.skip(0) =~= rs);
        assert(archive_bytes(Seq::<RecordView>::empty()) == Seq::<u8>::empty());
        assert(archive_bytes(rs.take(0)) + archive_bytes(rs.skip(0)) =~= archive_bytes(rs));
    } else {
        let tail = rs.drop_first();
        lemma_archive_bytes_split(tail, k - 1);
        assert(rs.take(k).drop_first() =~= tail.take(k - 1));
        assert(rs.take(k)[0] == rs[0]);
        assert(rs.skip(k) =~= tail.skip(k - 1));
        assert(archive_bytes(rs.take(k)) + archive_bytes(rs.skip(k)) =~= archive_bytes(rs));
    }
}

/// Law: cutting an encoded archive exactly at a record boundary decodes
/// cleanly to the records before the boundary; end of input where a record
/// would start is the terminator.
pub proof fn lemma_boundary_cut(rs: Seq<RecordView>, k: int)
    requires
        forall|i: int| 0 <= i < rs.len() ==> valid_record(#[trigger] rs[i]),
        0 <= k <= rs.len(),
    ensures
        archive_bytes(rs).take(archive_bytes(rs.take(k)).len() as int) == archive_bytes(
            rs.take(k),
        ),
        parse_archive(archive_bytes(rs.take(k))) == Ok::<Seq<RecordView>, ArchiveError>(
            rs.take(k),
        ),
{
    lemma_archive_bytes_split(rs, k);
    assert(archive_bytes(rs).take(archive_bytes(rs.take(k)).len() as int) =~= archive_bytes(
        rs.take(k),
    ));
    assert(forall|i: int| 0 <= i < rs.take(k).len() ==> valid_record(#[trigger] rs.take(k)[i]));
    lemma_archive_round_trip(rs.take(k));
}

/// Law: cutting an encoded archive off at any offset strictly inside a
/// record decodes to a truncation error, never to a silently shortened
/// archive.
pub proof fn lemma_truncation_detected(rs: Seq<RecordView>, n: int)
    requires
        forall|i: int| 0 <= i < rs.len() ==> valid_record(#[trigger] rs[i]),
        0 <= n < archive_bytes(rs).len(),
        !is_record_boundary(rs, n),
    ensures
        parse_archive(archive_bytes(rs).take(n)) == Err::<Seq<RecordView>, ArchiveError>(
            ArchiveError::TruncatedStream,
        ),
    decreases rs.len(),
{
    assert(rs.len() > 0);
    let r = rs[0];
    let rest = rs.drop_first();
    let len0 = record_bytes(r).len() as int;
    let bytes = archive_bytes(rs);
    if n < len0 {
        assert(n != 0);
        assert(bytes.take(n) =~= record_bytes(r).take(n));
        lemma_record_cut(r, n);
    } else {
        let n2 = n - len0;
        assert(!is_record_boundary(rest, n2));
        assert(n2 < archive_bytes(rest).len());
        assert(forall|i: int| 0 <= i < rest.len() ==> valid_record(#[trigger] rest[i]));
        lemma_truncation_detected(rest, n2);
        assert(bytes.take(n) =~= record_bytes(r) + archive_bytes(rest).take(n2));
        lemma_parse_prefix(r, archive_bytes(rest).take(n2));
    }
}

/// Frame records into an archive body.
///
/// Succeeds exactly when every record's name and content fit the 32-bit
/// length prefixes; the bytes are then precisely [`archive_bytes`] of the
/// records, in their order.
pub fn encode_records(records: &Vec<Record>) -> (r: Result<Vec<u8>, ArchiveError>)
    ensures
        r is Ok <==> (forall|i: int|
            0 <= i < records@.len() ==> valid_record(#[trigger] records@[i]@)),
        r is Ok ==> r.unwrap()@ == archive_bytes(records_view(records@)),
        r is Err ==> r.unwrap_err() == ArchiveError::SizeLimit,
{
    let mut out: Vec<u8> = Vec::new();
    let mut i: usize = 0;
    proof {
        assert(records_view(records@.take(0)) =~= Seq::<RecordView>::empty());
    }
    while i < records.len()
        invariant
            i <= records@.len(),
            forall|k: int| 0 <= k < i ==> valid_record(#[trigger] records@[k]@),
            out@ == archive_bytes(records_view(records@.take(i as int))),
        decreases records@.len() - i,
    {
        let rec = &records[i];
        let units = encode_utf16(&rec.name);
        if (units.len() as u64) > (u32::MAX as u64) {
            proof {
                assert(!valid_record(records@[i as int]@));
            }
            return Err(ArchiveError::SizeLimit);
        }
        if (rec.content.len() as u64) > (u32::MAX as u64) {
            proof {
                assert(!valid_record(records@[i as int]@));
            }
            return Err(ArchiveError::SizeLimit);
        }
        let ghost out0 = out@;
        let mut p1 = u32_to_le_bytes(units.len() as u32);
        out.append(&mut p1);
        let mut j: usize = 0;
        proof {
            assert(units_to_le_bytes(units@.take(0)) =~= Seq::<u8>::empty());
            assert(out@ =~= out0 + spec_u32_to_le_bytes(units@.len() as u32) + units_to_le_bytes(
                units@.take(0),
            ));
        }
        while j < units.len()
            invariant
                j <= units@.len(),
                units@.len() <= u32::MAX,
                out@ == out0 + spec_u32_to_le_bytes(units@.len() as u32) + units_to_le_bytes(
                    units@.take(j as int),
                ),
            decreases units@.len() - j,
        {
            let mut ub = u16_to_le_bytes(units[j]);
            out.append(&mut ub);
            proof {
                lemma_units_to_le_bytes_push(units@.take(j as int), units@[j as int]);
                assert(units@.take(j + 1) =~= units@.take(j as int).push(units@[j as int]));
                assert(out@ =~= out0 + spec_u32_to_le_bytes(units@.len() as u32)
                    + units_to_le_bytes(units@.take(j + 1)));
            }
            j = j + 1;
        }
        let mut p2 = u32_to_le_bytes(rec.content.len() as u32);
        out.append(&mut p2);
        out.extend_from_slice(rec.content.as_slice());
        proof {
            assert(units@.take(units@.len() as int) =~= units@);
            assert(out@ =~= out0 + record_bytes(rec@));
            lemma_archive_bytes_push(records_view(records@.take(i as int)), rec@);
            assert(records_view(records@.take(i + 1)) =~= records_view(
                records@.take(i as int),
            ).push(rec@));
        }
        i = i + 1;
    }
    proof {
        assert(records@.take(records@.len() as int) =~= records@);
    }
    Ok(out)
}

/// Decode an archive body back into records.
///
/// The result is exactly what [`parse_archive`] says of the bytes: the
/// framed records on a well-formed body, and the error the malformation
/// calls for otherwise.
pub fn decode_records(bytes: &Vec<u8>) -> (r: Result<Vec<Record>, ArchiveError>)
    ensures
        match parse_archive(bytes@) {
            Ok(v) => r is Ok && records_view(r.unwrap()@) == v,
            Err(e) => r is Err && r.unwrap_err() == e,
        },
{
    let ghost full = bytes@;
    let mut out: Vec<Record> = Vec::new();
    let mut i: usize = 0;
    proof {
        assert(full.skip(0) =~= full);
        assert(records_view(out@) =~= Seq::<RecordView>::empty());
        if parse_archive(full) is Ok {
            assert(records_view(out@) + parse_archive(full).unwrap() =~= parse_archive(
                full,
            ).unwrap());
        }
    }
    while i < bytes.len()
        invariant
            i <= bytes@.len(),
            full == bytes@,
            parse_archive(full) == (match parse_archive(full.skip(i as int)) {
                Ok(rest) => Ok::<Seq<RecordView>, ArchiveError>(records_view(out@) + rest),
                Err(e) => Err::<Seq<RecordView>, ArchiveError>(e),
            }),
        decreases bytes@.len() - i,
    {
        let ghost tail = full.skip(i as int);
        let ghost out_prev = out@;
        if bytes.len() - i < 4 {
            return Err(ArchiveError::TruncatedStream);
        }
        let flen_u32 = u32_from_le_bytes(slice_subrange(bytes.as_slice(), i, i + 4));
        let after: usize = i + 4;
        proof {
            assert(full.subrange(i as int, i + 4) =~= tail.take(4));
        }
        let ghost flen = spec_u32_from_le_bytes(tail.take(4)) as int;
        if ((bytes.len() - after) as u64) < 2 * (flen_u32 as u64) {
            return Err(ArchiveError::TruncatedStream);
        }
        let flen_us: usize = flen_u32 as usize;
        let mut units: Vec<u16> = Vec::new();
        let mut j: usize = 0;
        proof {
            assert(le_bytes_to_units(full.subrange(after as int, after as int)) =~= Seq::<
                u16,
            >::empty());
        }
        while j < flen_us
            invariant
                j <= flen_us,
                full == bytes@,
                after + 2 * flen_us <= bytes@.len(),
                bytes@.len() <= usize::MAX,
                units@ == le_bytes_to_units(full.subrange(after as int, after + 2 * (j as int))),
            decreases flen_us - j,
        {
            let p = after + 2 * j;
            let u = u16_from_le_bytes(slice_subrange(bytes.as_slice(), p, p + 2));
            units.push(u);
            proof {
                let prefix = full.subrange(after as int, p as int);
                assert(full.subrange(p as int, p + 2) =~= seq![full[p as int], full[p + 1]]);
                assert(full.subrange(after as int, after + 2 * (j + 1)) =~= prefix + seq![
                    full[p as int],
                    full[p + 1],
                ]);
                lemma_le_bytes_to_units_snoc(prefix, full[p as int], full[p + 1]);
            }
            j = j + 1;
        }
        let ghost namebytes = tail.subrange(4, 4 + 2 * flen);
        proof {
            assert(full.subrange(after as int, after + 2 * (flen_us as int)) =~= namebytes);
        }
        let name = match decode_utf16(&units) {
            Some(name) => name,
            None => {
                return Err(ArchiveError::Encoding);
            },
        };
        let pos: usize = after + 2 * flen_us;
        if bytes.len() - pos < 4 {
            return Err(ArchiveError::TruncatedStream);
        }
        let clen_u32 = u32_from_le_bytes(slice_subrange(bytes.as_slice(), pos, pos + 4));
        proof {
            assert(full.subrange(pos as int, pos + 4) =~= tail.subrange(4 + 2 * flen, 8 + 2
                * flen));
        }
        let ghost clen = spec_u32_from_le_bytes(tail.subrange(4 + 2 * flen, 8 + 2 * flen)) as int;
        let pos2: usize = pos + 4;
        let clen_us: usize = clen_u32 as usize;
        if bytes.len() - pos2 < clen_us {
            return Err(ArchiveError::TruncatedStream);
        }
        let content = slice_to_vec(slice_subrange(bytes.as_slice(), pos2, pos2 + clen_us));
        proof {
            assert(full.subrange(pos2 as int, pos2 + clen_us as int) =~= tail.subrange(
                8 + 2 * flen,
                8 + 2 * flen + clen,
            ));
        }
        let rec = Record { name, content };
        out.push(rec);
        let next: usize = pos2 + clen_us;
        proof {
            assert(tail.skip(8 + 2 * flen + clen) =~= full.skip(next as int));
            assert(rec@ == (match parse_archive(tail) {
                Ok(v) => v[0],
                Err(_) => rec@,
            }));
            assert(records_view(out@) =~= records_view(out_prev).push(rec@));
            if parse_archive(full.skip(next as int)) is Ok {
                let rest = parse_archive(full.skip(next as int)).unwrap();
                assert(records_view(out_prev) + (seq![rec@] + rest) =~= records_view(out@) + rest);
            }
        }
        i = next;
    }
    proof {
        assert(full.skip(i as int) =~= Seq::<u8>::empty());
        assert(records_view(out@) + Seq::<RecordView>::empty() =~= records_view(out@));
    }
    Ok(out)
}

} // verus!
