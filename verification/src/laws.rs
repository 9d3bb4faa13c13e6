//! The archive layout stated as a spec-level encoder, and the laws the
//! decoder obeys against it: the encode/decode round trip, header
//! rejection, terminator handling, truncation detection, and the safety
//! of every extracted path.

use vstd::prelude::*;
use vstd::utf8::{valid_utf8, decode_utf8};
use crate::bytes::{
    spec_decrypt, u32_from_le, u32_to_le, u64_to_le, lemma_u32_le_round_trip,
    lemma_decrypt_involutive,
};
use crate::archive::{
    MAGIC, VERSION, FLAGS_END, PakError, spec_parse_table, spec_extract, spec_parse_pak,
    normalize_path, path_is_safe,
};

verus! {

/// A file to lay out in an archive: its raw name bytes, the timestamp its
/// table entry carries, and its payload.
pub struct RawRecord {
    /// The name field, UTF-8 bytes of a relative path.
    pub name: Seq<u8>,
    /// The timestamp field; the decoder reads and discards it.
    pub timestamp: u64,
    /// The payload bytes.
    pub content: Seq<u8>,
}

/// A record the archive layout can carry and the decoder accepts: the name
/// fits its one-byte length field, holds valid UTF-8, and normalizes to a
/// path that stays under the output root; the payload fits its four-byte
/// size field.
pub open spec fn record_ok(r: RawRecord) -> bool {
    &&& r.name.len() <= 255
    &&& r.content.len() <= u32::MAX
    &&& valid_utf8(r.name)
    &&& path_is_safe(normalize_path(decode_utf8(r.name)))
}

/// All records of a sequence are acceptable.
pub open spec fn records_ok(rs: Seq<RawRecord>) -> bool {
    forall|i: int| 0 <= i < rs.len() ==> record_ok(#[trigger] rs[i])
}

/// One table entry: a cleared flags byte, the name length, the name bytes,
/// the payload size, and the timestamp.
pub open spec fn encode_entry(r: RawRecord) -> Seq<u8> {
    seq![0u8, r.name.len() as u8] + r.name + u32_to_le(r.content.len() as u32) + u64_to_le(
        r.timestamp,
    )
}

/// The record table: one entry per record in order, closed by the
/// terminator byte.
pub open spec fn encode_table(rs: Seq<RawRecord>) -> Seq<u8>
    decreases rs.len(),
{
    if rs.len() == 0 {
        seq![FLAGS_END]
    } else {
        encode_entry(rs[0]) + encode_table(rs.drop_first())
    }
}

/// The payload region: every record's content, concatenated in table
/// order with no gaps.
pub open spec fn encode_payloads(rs: Seq<RawRecord>) -> Seq<u8>
    decreases rs.len(),
{
    if rs.len() == 0 {
        Seq::empty()
    } else {
        rs[0].content + encode_payloads(rs.drop_first())
    }
}

/// A whole plaintext archive: header, table, then payloads.
pub open spec fn encode_pak(rs: Seq<RawRecord>) -> Seq<u8> {
    u32_to_le(MAGIC) + u32_to_le(VERSION) + encode_table(rs) + encode_payloads(rs)
}

/// The table entries the decoder should recover from these records.
pub open spec fn entries_of(rs: Seq<RawRecord>) -> Seq<(Seq<u8>, u32)> {
    rs.map_values(|r: RawRecord| (r.name, r.content.len() as u32))
}

/// The files the decoder should extract from these records: each name
/// decoded and normalized, each payload unchanged.
pub open spec fn expected_files(rs: Seq<RawRecord>) -> Seq<(Seq<char>, Seq<u8>)> {
    rs.map_values(|r: RawRecord| (normalize_path(decode_utf8(r.name)), r.content))
}

/// Walking an encoded table recovers exactly the records' entries, and
/// leaves the cursor just past the terminator byte.
#[verifier::rlimit(80)]
proof fn lemma_parse_table_at(data: Seq<u8>, pos: int, rs: Seq<RawRecord>)
    requires
        records_ok(rs),
        0 <= pos,
        pos + encode_table(rs).len() <= data.len(),
        data.subrange(pos, pos + encode_table(rs).len()) == encode_table(rs),
    ensures
        spec_parse_table(data, pos) == Ok::<(Seq<(Seq<u8>, u32)>, int), PakError>((
            entries_of(rs),
            pos + encode_table(rs).len(),
        )),
    decreases rs.len(),
{
    let tab = encode_table(rs);
    let tl = tab.len() as int;
    if rs.len() == 0 {
        assert(data[pos] == tab[0]) by {
            assert(data.subrange(pos, pos + tl)[0] == data[pos]);
        }
        assert(FLAGS_END & FLAGS_END != 0u8) by (bit_vector);
        assert(entries_of(rs) =~= Seq::<(Seq<u8>, u32)>::empty());
    } else {
        let r0 = rs[0];
        let nl = r0.name.len() as int;
        let e = encode_entry(r0);
        let el = e.len() as int;
        let rest_tab = encode_table(rs.drop_first());
        assert(el == 14 + nl);
        assert(tab == e + rest_tab);
        assert(data[pos] == 0u8) by {
            assert(data.subrange(pos, pos + tl)[0] == data[pos]);
        }
        assert(0u8 & FLAGS_END == 0u8) by (bit_vector);
        assert(data[pos + 1] == r0.name.len() as u8) by {
            assert(data.subrange(pos, pos + tl)[1] == data[pos + 1]);
        }
        assert(data[pos + 1] as int == nl);
        assert(data.subrange(pos + 2, pos + 2 + nl) =~= r0.name) by {
            assert forall|k: int| 0 <= k < nl implies #[trigger] data.subrange(
                pos + 2,
                pos + 2 + nl,
            )[k] == r0.name[k] by {
                assert(data.subrange(pos, pos + tl)[2 + k] == data[pos + (2 + k)]);
                assert(tab[2 + k] == e[2 + k]);
                assert(e[2 + k] == r0.name[k]);
            }
        }
        assert(valid_utf8(r0.name));
        assert(data.subrange(pos + 2 + nl, pos + 6 + nl) =~= u32_to_le(r0.content.len() as u32))
            by {
            assert forall|k: int| 0 <= k < 4 implies #[trigger] data.subrange(
                pos + 2 + nl,
                pos + 6 + nl,
            )[k] == u32_to_le(r0.content.len() as u32)[k] by {
                assert(data.subrange(pos, pos + tl)[2 + nl + k] == data[pos + (2 + nl + k)]);
                assert(tab[2 + nl + k] == e[2 + nl + k]);
                assert(e[2 + nl + k] == u32_to_le(r0.content.len() as u32)[k]);
            }
        }
        lemma_u32_le_round_trip(r0.content.len() as u32);
        assert(records_ok(rs.drop_first())) by {
            assert(forall|i: int|
                0 <= i < rs.drop_first().len() ==> #[trigger] rs.drop_first()[i] == rs[i + 1]);
        }
        assert(data.subrange(pos + el, pos + el + rest_tab.len() as int) =~= rest_tab) by {
            assert forall|k: int| 0 <= k < rest_tab.len() implies #[trigger] data.subrange(
                pos + el,
                pos + el + rest_tab.len() as int,
            )[k] == rest_tab[k] by {
                assert(data.subrange(pos, pos + tl)[el + k] == data[pos + (el + k)]);
                assert(tab[el + k] == rest_tab[k]);
            }
        }
        lemma_parse_table_at(data, pos + el, rs.drop_first());
        assert(entries_of(rs) =~= seq![(r0.name, r0.content.len() as u32)] + entries_of(
            rs.drop_first(),
        ));
    }
}

/// Reading the payload region for the records' entries yields exactly the
/// expected files.
proof fn lemma_extract_at(data: Seq<u8>, pos: int, rs: Seq<RawRecord>)
    requires
        records_ok(rs),
        0 <= pos,
        pos + encode_payloads(rs).len() <= data.len(),
        data.subrange(pos, pos + encode_payloads(rs).len()) == encode_payloads(rs),
    ensures
        spec_extract(data, pos, entries_of(rs)) == Ok::<Seq<(Seq<char>, Seq<u8>)>, PakError>(
            expected_files(rs),
        ),
    decreases rs.len(),
{
    let pay = encode_payloads(rs);
    let pl = pay.len() as int;
    if rs.len() == 0 {
        assert(entries_of(rs).len() == 0);
        assert(expected_files(rs) =~= Seq::<(Seq<char>, Seq<u8>)>::empty());
    } else {
        let r0 = rs[0];
        let c = r0.content.len() as int;
        let es = entries_of(rs);
        assert(es[0] == (r0.name, r0.content.len() as u32));
        assert(es[0].1 as int == c);
        assert forall|k: int| 0 <= k < pl implies data[pos + k] == pay[k] by {
            assert(data.subrange(pos, pos + pl)[k] == data[pos + k]);
        }
        assert(data.subrange(pos, pos + c) =~= r0.content) by {
            assert forall|k: int| 0 <= k < c implies data.subrange(pos, pos + c)[k]
                == r0.content[k] by {
                assert(data[pos + k] == pay[k]);
            }
        }
        assert(path_is_safe(normalize_path(decode_utf8(r0.name))));
        assert(records_ok(rs.drop_first())) by {
            assert(forall|i: int|
                0 <= i < rs.drop_first().len() ==> #[trigger] rs.drop_first()[i] == rs[i + 1]);
        }
        let rest_pay = encode_payloads(rs.drop_first());
        assert(data.subrange(pos + c, pos + c + rest_pay.len() as int) =~= rest_pay) by {
            assert forall|k: int| 0 <= k < rest_pay.len() implies data.subrange(
                pos + c,
                pos + c + rest_pay.len() as int,
            )[k] == rest_pay[k] by {
                assert(data[pos + c + k] == pay[c + k]);
            }
        }
        lemma_extract_at(data, pos + c, rs.drop_first());
        assert(es.drop_first() =~= entries_of(rs.drop_first()));
        assert(expected_files(rs) =~= seq![
            (normalize_path(decode_utf8(r0.name)), r0.content),
        ] + expected_files(rs.drop_first()));
    }
}

/// Decoding a freshly laid-out plaintext archive succeeds and yields every
/// record's normalized path with its unchanged payload, in table order.
pub proof fn lemma_parse_encode(rs: Seq<RawRecord>)
    requires
        records_ok(rs),
    ensures
        spec_parse_pak(encode_pak(rs)) == Ok::<Seq<(Seq<char>, Seq<u8>)>, PakError>(
            expected_files(rs),
        ),
{
    let data = encode_pak(rs);
    let tab = encode_table(rs);
    let pay = encode_payloads(rs);
    let tl = tab.len() as int;
    let pl = pay.len() as int;
    assert(data.len() == 8 + tl + pl);
    assert(data.subrange(0, 4) =~= u32_to_le(MAGIC));
    assert(data.subrange(4, 8) =~= u32_to_le(VERSION));
    lemma_u32_le_round_trip(MAGIC);
    lemma_u32_le_round_trip(VERSION);
    assert(data.subrange(8, 8 + tl) =~= tab);
    lemma_parse_table_at(data, 8, rs);
    assert(data.subrange(8 + tl, 8 + tl + pl) =~= pay);
    lemma_extract_at(data, 8 + tl, rs);
}

/// Round trip: laying records out in the archive format, obfuscating the
/// image with the fixed key, then deciphering and decoding it, returns
/// exactly the records' normalized paths and byte-identical payloads.
pub proof fn lemma_round_trip(rs: Seq<RawRecord>)
    requires
        records_ok(rs),
    ensures
        spec_parse_pak(spec_decrypt(spec_decrypt(encode_pak(rs)))) == Ok::<
            Seq<(Seq<char>, Seq<u8>)>,
            PakError,
        >(expected_files(rs)),
{
    lemma_decrypt_involutive(encode_pak(rs));
    lemma_parse_encode(rs);
}

/// Header rejection: a plaintext buffer whose first four bytes do not hold
/// the magic fails with a magic mismatch, before any table parsing.
pub proof fn lemma_header_rejection(data: Seq<u8>)
    requires
        data.len() >= 4,
        u32_from_le(data.subrange(0, 4)) != MAGIC,
    ensures
        spec_parse_pak(data) == Err::<Seq<(Seq<char>, Seq<u8>)>, PakError>(PakError::BadMagic),
{
}

/// Terminator handling: an archive whose table is only the terminator byte
/// decodes to no files at all, and succeeds.
pub proof fn lemma_terminator_only()
    ensures
        spec_parse_pak(encode_pak(Seq::empty())) == Ok::<Seq<(Seq<char>, Seq<u8>)>, PakError>(
            Seq::empty(),
        ),
{
    lemma_parse_encode(Seq::empty());
    assert(expected_files(Seq::empty()) =~= Seq::<(Seq<char>, Seq<u8>)>::empty());
}

/// A payload region cut one byte short fails with an end-of-stream error
/// at the record whose payload no longer fits.
proof fn lemma_extract_short(data: Seq<u8>, pos: int, rs: Seq<RawRecord>)
    requires
        records_ok(rs),
        0 <= pos <= data.len(),
        pos + encode_payloads(rs).len() == data.len() + 1,
        data.subrange(pos, data.len() as int) == encode_payloads(rs).drop_last(),
    ensures
        spec_extract(data, pos, entries_of(rs)) == Err::<Seq<(Seq<char>, Seq<u8>)>, PakError>(
            PakError::EndOfStream,
        ),
    decreases rs.len(),
{
    let pay = encode_payloads(rs);
    let pl = pay.len() as int;
    assert(rs.len() > 0);
    let r0 = rs[0];
    let c = r0.content.len() as int;
    let es = entries_of(rs);
    assert(es[0] == (r0.name, r0.content.len() as u32));
    assert(es[0].1 as int == c);
    if pos + c > data.len() {
    } else {
        assert forall|k: int| 0 <= k < pl - 1 implies data[pos + k] == pay[k] by {
            assert(data.subrange(pos, data.len() as int)[k] == data[pos + k]);
            assert(pay.drop_last()[k] == pay[k]);
        }
        assert(data.subrange(pos, pos + c) =~= r0.content) by {
            assert forall|k: int| 0 <= k < c implies data.subrange(pos, pos + c)[k]
                == r0.content[k] by {
                assert(data[pos + k] == pay[k]);
            }
        }
        assert(path_is_safe(normalize_path(decode_utf8(r0.name))));
        assert(records_ok(rs.drop_first())) by {
            assert(forall|i: int|
                0 <= i < rs.drop_first().len() ==> #[trigger] rs.drop_first()[i] == rs[i + 1]);
        }
        let rest_pay = encode_payloads(rs.drop_first());
        assert(data.subrange(pos + c, data.len() as int) =~= rest_pay.drop_last()) by {
            assert forall|k: int| 0 <= k < rest_pay.len() - 1 implies data.subrange(
                pos + c,
                data.len() as int,
            )[k] == rest_pay.drop_last()[k] by {
                assert(data[pos + c + k] == pay[c + k]);
                assert(rest_pay.drop_last()[k] == rest_pay[k]);
            }
        }
        lemma_extract_short(data, pos + c, rs.drop_first());
        assert(es.drop_first() =~= entries_of(rs.drop_first()));
    }
}

/// Truncation: dropping the final byte of a well-formed archive's payload
/// region makes decoding fail with an end-of-stream error, never a silent
/// short read.
pub proof fn lemma_truncation(rs: Seq<RawRecord>)
    requires
        records_ok(rs),
        encode_payloads(rs).len() > 0,
    ensures
        spec_parse_pak(encode_pak(rs).drop_last()) == Err::<Seq<(Seq<char>, Seq<u8>)>, PakError>(
            PakError::EndOfStream,
        ),
{
    let full = encode_pak(rs);
    let data = full.drop_last();
    let tab = encode_table(rs);
    let pay = encode_payloads(rs);
    let tl = tab.len() as int;
    let pl = pay.len() as int;
    assert(full.len() == 8 + tl + pl);
    assert forall|k: int| 0 <= k < full.len() - 1 implies data[k] == full[k] by {
        assert(full.drop_last()[k] == full[k]);
    }
    assert(data.subrange(0, 4) =~= u32_to_le(MAGIC));
    assert(data.subrange(4, 8) =~= u32_to_le(VERSION));
    lemma_u32_le_round_trip(MAGIC);
    lemma_u32_le_round_trip(VERSION);
    assert(data.subrange(8, 8 + tl) =~= tab);
    lemma_parse_table_at(data, 8, rs);
    assert(data.subrange(8 + tl, data.len() as int) =~= pay.drop_last()) by {
        assert forall|k: int| 0 <= k < pl - 1 implies data.subrange(8 + tl, data.len() as int)[k]
            == pay.drop_last()[k] by {
            assert(data[8 + tl + k] == full[8 + tl + k]);
        }
    }
    lemma_extract_short(data, 8 + tl, rs);
}

/// Whenever payload extraction succeeds, every extracted path passed the
/// containment check.
proof fn lemma_extract_paths_safe(
    data: Seq<u8>,
    pos: int,
    recs: Seq<(Seq<u8>, u32)>,
    files: Seq<(Seq<char>, Seq<u8>)>,
)
    requires
        spec_extract(data, pos, recs) == Ok::<Seq<(Seq<char>, Seq<u8>)>, PakError>(files),
    ensures
        forall|i: int| 0 <= i < files.len() ==> path_is_safe((#[trigger] files[i]).0),
    decreases recs.len(),
{
    if recs.len() == 0 {
    } else {
        let size = recs[0].1 as int;
        let path = normalize_path(decode_utf8(recs[0].0));
        match spec_extract(data, pos + size, recs.drop_first()) {
            Ok(rest) => {
                lemma_extract_paths_safe(data, pos + size, recs.drop_first(), rest);
                assert(files == seq![(path, data.subrange(pos, pos + size))] + rest);
                assert forall|i: int| 0 <= i < files.len() implies path_is_safe(
                    (#[trigger] files[i]).0,
                ) by {
                    if i > 0 {
                        assert(files[i] == rest[i - 1]);
                    }
                }
            },
            Err(_) => {
                assert(false);
            },
        }
    }
}

/// Path traversal: whenever decoding succeeds, every extracted file's
/// normalized path is relative and free of parent segments, so resolving
/// it stays under the output root.  A record that fails that check makes
/// the whole decode fail instead.
pub proof fn lemma_success_paths_safe(data: Seq<u8>, files: Seq<(Seq<char>, Seq<u8>)>)
    requires
        spec_parse_pak(data) == Ok::<Seq<(Seq<char>, Seq<u8>)>, PakError>(files),
    ensures
        forall|i: int| 0 <= i < files.len() ==> path_is_safe((#[trigger] files[i]).0),
{
    match spec_parse_table(data, 8) {
        Ok(table) => {
            lemma_extract_paths_safe(data, table.1, table.0, files);
        },
        Err(_) => {
            assert(false);
        },
    }
}

} // verus!
