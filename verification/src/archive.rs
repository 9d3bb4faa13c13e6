//! The archive parser: validates the header, walks the record table until
//! the terminator, then reads each record's payload in table order and
//! turns it into a file to materialize.  The whole state machine is
//! mirrored by spec-level functions (`spec_parse_pak` and its parts), and
//! the executable parser is proved to return exactly what they say.

use vstd::prelude::*;
use vstd::string::*;
use vstd::utf8::{valid_utf8, decode_utf8};
use crate::bytes::u32_from_le;
use crate::reader::PakReader;

verus! {

/// The magic constant every archive must open with.
pub const MAGIC: u32 = 0xBAC04AC0;

/// The only format version this decoder supports.
pub const VERSION: u32 = 0x0;

/// The flags bit that marks the terminator entry of the record table.
pub const FLAGS_END: u8 = 0x80;

/// Why a decode failed.  Every failure aborts the whole run; the decoder
/// never returns a partial result.
#[derive(Debug, Clone, Copy, PartialEq, Eq, Structural)]
pub enum PakError {
    /// A read ran past the end of the buffer.
    EndOfStream,
    /// The first header field does not hold the archive magic.
    BadMagic,
    /// The second header field does not hold the supported version.
    BadVersion,
    /// A name field is not valid UTF-8.
    InvalidUtf8,
    /// A record's normalized path is absolute or holds a parent segment,
    /// so writing it could escape the output root.
    UnsafePath,
}

/// A record of the table: a relative file path and the declared payload
/// size.  The flags byte and the timestamp of the table entry are consumed
/// during parsing but not retained.
pub struct PakRecord {
    /// The path as it stands in the archive, before normalization.
    pub file_path: String,
    /// The declared payload size in bytes.
    pub file_size: u32,
}

/// One decoded file: where to put it under the output root, and its bytes.
#[derive(Debug, PartialEq, Eq)]
pub struct ExtractedFile {
    /// The normalized relative path, using `/` as the only separator.
    pub path: String,
    /// The payload, exactly as declared by the record's size field.
    pub data: Vec<u8>,
}

/// Replaces every backslash of a path with a forward slash.
pub open spec fn normalize_path(p: Seq<char>) -> Seq<char> {
    p.map_values(|c: char| if c == '\\' { '/' } else { c })
}

/// Whether a parent-directory segment `..` stands at offset `i` of the
/// normalized path: bounded by the path's ends or by `/` on both sides.
pub open spec fn parent_seg_at(p: Seq<char>, i: int) -> bool {
    &&& 0 <= i && i + 2 <= p.len()
    &&& p[i] == '.' && p[i + 1] == '.'
    &&& (i == 0 || p[i - 1] == '/')
    &&& (i + 2 == p.len() || p[i + 2] == '/')
}

/// A normalized path is safe to resolve under the output root when it is
/// not absolute and holds no parent-directory segment.
pub open spec fn path_is_safe(p: Seq<char>) -> bool {
    &&& !(p.len() > 0 && p[0] == '/')
    &&& forall|i: int| !parent_seg_at(p, i)
}

/// What walking the record table from `pos` yields: the records in table
/// order, each as its raw name bytes and declared size, and the offset
/// just past the terminator byte, where the payload region begins.
pub open spec fn spec_parse_table(data: Seq<u8>, pos: int) -> Result<
    (Seq<(Seq<u8>, u32)>, int),
    PakError,
>
    decreases data.len() - pos,
{
    if pos < 0 || pos + 1 > data.len() {
        Err(PakError::EndOfStream)
    } else if data[pos] & FLAGS_END != 0 {
        Ok((Seq::empty(), pos + 1))
    } else if pos + 2 > data.len() {
        Err(PakError::EndOfStream)
    } else {
        let name_len = data[pos + 1] as int;
        if pos + 2 + name_len > data.len() {
            Err(PakError::EndOfStream)
        } else if !valid_utf8(data.subrange(pos + 2, pos + 2 + name_len)) {
            Err(PakError::InvalidUtf8)
        } else if pos + 14 + name_len > data.len() {
            Err(PakError::EndOfStream)
        } else {
            let name = data.subrange(pos + 2, pos + 2 + name_len);
            let size = u32_from_le(data.subrange(pos + 2 + name_len, pos + 6 + name_len));
            match spec_parse_table(data, pos + 14 + name_len) {
                Ok(rest) => Ok((seq![(name, size)] + rest.0, rest.1)),
                Err(e) => Err(e),
            }
        }
    }
}

/// What reading the payload region from `pos` yields for the given
/// records: for each in table order, its normalized path and its payload
/// bytes, after the path passed the safety check.
pub open spec fn spec_extract(data: Seq<u8>, pos: int, recs: Seq<(Seq<u8>, u32)>) -> Result<
    Seq<(Seq<char>, Seq<u8>)>,
    PakError,
>
    decreases recs.len(),
{
    if recs.len() == 0 {
        Ok(Seq::empty())
    } else {
        let size = recs[0].1 as int;
        if pos < 0 || pos + size > data.len() {
            Err(PakError::EndOfStream)
        } else {
            let path = normalize_path(decode_utf8(recs[0].0));
            if !path_is_safe(path) {
                Err(PakError::UnsafePath)
            } else {
                match spec_extract(data, pos + size, recs.drop_first()) {
                    Ok(rest) => Ok(seq![(path, data.subrange(pos, pos + size))] + rest),
                    Err(e) => Err(e),
                }
            }
        }
    }
}

/// What decoding a whole plaintext buffer yields: the files to extract in
/// table order, or the first error the state machine runs into.
pub open spec fn spec_parse_pak(data: Seq<u8>) -> Result<Seq<(Seq<char>, Seq<u8>)>, PakError> {
    if data.len() < 4 {
        Err(PakError::EndOfStream)
    } else if u32_from_le(data.subrange(0, 4)) != MAGIC {
        Err(PakError::BadMagic)
    } else if data.len() < 8 {
        Err(PakError::EndOfStream)
    } else if u32_from_le(data.subrange(4, 8)) != VERSION {
        Err(PakError::BadVersion)
    } else {
        match spec_parse_table(data, 8) {
            Ok(table) => spec_extract(data, table.1, table.0),
            Err(e) => Err(e),
        }
    }
}

/// The executable results match the spec-level files: same count, and for
/// each the same path characters and the same payload bytes.
pub open spec fn files_match(files: Seq<ExtractedFile>, entries: Seq<(Seq<char>, Seq<u8>)>) -> bool {
    &&& files.len() == entries.len()
    &&& forall|i: int|
        0 <= i < entries.len() ==> (#[trigger] files[i]).path@ == entries[i].0 && files[i].data@
            == entries[i].1
}

/// The executable records match the spec-level table entries: same count,
/// and for each a path decoded from the entry's name bytes and the same
/// declared size.
spec fn records_match(records: Seq<PakRecord>, entries: Seq<(Seq<u8>, u32)>) -> bool {
    &&& records.len() == entries.len()
    &&& forall|j: int|
        0 <= j < entries.len() ==> {
            &&& valid_utf8((#[trigger] entries[j]).0)
            &&& records[j].file_path@ == decode_utf8(entries[j].0)
            &&& records[j].file_size == entries[j].1
        }
}

/// Prepends already-parsed records to the outcome of walking the rest of
/// the table.
spec fn table_step(
    r: Result<(Seq<(Seq<u8>, u32)>, int), PakError>,
    prefix: Seq<(Seq<u8>, u32)>,
) -> Result<(Seq<(Seq<u8>, u32)>, int), PakError> {
    match r {
        Ok(rest) => Ok((prefix + rest.0, rest.1)),
        Err(e) => Err(e),
    }
}

/// Prepends already-extracted files to the outcome of extracting the rest.
spec fn extract_step(
    r: Result<Seq<(Seq<char>, Seq<u8>)>, PakError>,
    prefix: Seq<(Seq<char>, Seq<u8>)>,
) -> Result<Seq<(Seq<char>, Seq<u8>)>, PakError> {
    match r {
        Ok(rest) => Ok(prefix + rest),
        Err(e) => Err(e),
    }
}

/// Builds the normalized form of a path: every backslash becomes a
/// forward slash; all other characters stay.
pub fn normalize_path_exec(p: &String) -> (r: String)
    ensures
        r@ == normalize_path(p@),
{
    let src = p.as_str();
    let n = src.unicode_len();
    let mut out = String::new();
    let mut i: usize = 0;
    while i < n
        invariant
            i <= n,
            n == p@.len(),
            src@ == p@,
            out@ == normalize_path(p@).subrange(0, i as int),
        decreases n - i,
    {
        let c = src.get_char(i);
        if c == '\\' {
            out.append("/");
            proof {
                reveal_strlit("/");
            }
        } else {
            let piece = src.substring_char(i, i + 1);
            out.append(piece);
        }
        proof {
            assert(out@ =~= normalize_path(p@).subrange(0, i + 1));
        }
        i = i + 1;
    }
    proof {
        assert(out@ =~= normalize_path(p@));
    }
    out
}

/// Decides whether a normalized path may be resolved under the output
/// root: rejects absolute paths and any `..` parent segment.
pub fn path_is_safe_exec(p: &String) -> (r: bool)
    ensures
        r == path_is_safe(p@),
{
    let src = p.as_str();
    let n = src.unicode_len();
    if n > 0 && src.get_char(0) == '/' {
        return false;
    }
    let mut i: usize = 0;
    while i < n
        invariant
            i <= n,
            n == p@.len(),
            src@ == p@,
            !(p@.len() > 0 && p@[0] == '/'),
            forall|j: int| j < i ==> !parent_seg_at(p@, j),
        decreases n - i,
    {
        if n >= 2 && i <= n - 2 && src.get_char(i) == '.' && src.get_char(i + 1) == '.' && (i == 0
            || src.get_char(i - 1) == '/') && (i + 2 == n || src.get_char(i + 2) == '/') {
            assert(parent_seg_at(p@, i as int));
            return false;
        }
        proof {
            assert(!parent_seg_at(p@, i as int));
        }
        i = i + 1;
    }
    proof {
        assert forall|j: int| !parent_seg_at(p@, j) by {
            if j >= i {
                assert(j + 2 > n);
            }
        }
    }
    true
}

/// Decodes a plaintext archive buffer into the files it holds, in table
/// order: header validation, the record table walk, then one payload per
/// record, its path normalized and checked against the output root.
pub fn parse_pak(data: Vec<u8>) -> (r: Result<Vec<ExtractedFile>, PakError>)
    ensures
        match r {
            Ok(files) => spec_parse_pak(data@) matches Ok(entries) && files_match(
                files@,
                entries,
            ),
            Err(e) => spec_parse_pak(data@) == Err::<Seq<(Seq<char>, Seq<u8>)>, PakError>(e),
        },
{
    let ghost orig: Seq<u8> = data@;
    let mut rd = PakReader::new(data);

    let magic = match rd.read_u32() {
        Ok(v) => v,
        Err(e) => {
            return Err(e);
        },
    };
    if magic != MAGIC {
        return Err(PakError::BadMagic);
    }
    let version = match rd.read_u32() {
        Ok(v) => v,
        Err(e) => {
            return Err(e);
        },
    };
    if version != VERSION {
        return Err(PakError::BadVersion);
    }

    let mut records: Vec<PakRecord> = Vec::new();
    let ghost mut entries: Seq<(Seq<u8>, u32)> = Seq::empty();
    proof {
        assert(entries + Seq::<(Seq<u8>, u32)>::empty() =~= entries);
    }
    loop
        invariant_except_break
            spec_parse_table(orig, 8) == table_step(spec_parse_table(orig, rd.position()), entries),
        invariant
            rd.wf(),
            rd.bytes() == orig,
            8 <= rd.position(),
            orig.len() >= 8,
            u32_from_le(orig.subrange(0, 4)) == MAGIC,
            u32_from_le(orig.subrange(4, 8)) == VERSION,
            orig == data@,
            records_match(records@, entries),
        ensures
            rd.wf(),
            rd.bytes() == orig,
            8 <= rd.position(),
            orig.len() >= 8,
            u32_from_le(orig.subrange(0, 4)) == MAGIC,
            u32_from_le(orig.subrange(4, 8)) == VERSION,
            orig == data@,
            records_match(records@, entries),
            spec_parse_table(orig, 8) == Ok::<(Seq<(Seq<u8>, u32)>, int), PakError>((
                entries,
                rd.position(),
            )),
        decreases orig.len() - rd.position(),
    {
        let ghost p: int = rd.position();
        let flags = match rd.read_u8() {
            Ok(b) => b,
            Err(e) => {
                assert(spec_parse_table(orig, p) == Err::<(Seq<(Seq<u8>, u32)>, int), PakError>(
                    PakError::EndOfStream,
                ));
                return Err(e);
            },
        };
        if flags & FLAGS_END > 0 {
            proof {
                assert(spec_parse_table(orig, p) == Ok::<(Seq<(Seq<u8>, u32)>, int), PakError>((
                    Seq::<(Seq<u8>, u32)>::empty(),
                    p + 1,
                )));
                assert(entries + Seq::<(Seq<u8>, u32)>::empty() =~= entries);
            }
            break;
        }
        let name_len = match rd.read_u8() {
            Ok(b) => b,
            Err(e) => {
                return Err(e);
            },
        };
        let ghost name: Seq<u8> = orig.subrange(p + 2, p + 2 + name_len as int);
        let file_name = match rd.read_string(name_len as usize) {
            Ok(s) => s,
            Err(e) => {
                return Err(e);
            },
        };
        let file_size = match rd.read_u32() {
            Ok(v) => v,
            Err(e) => {
                return Err(e);
            },
        };
        // The timestamp is read and discarded: it does not drive extraction.
        match rd.read_u64() {
            Ok(_) => (),
            Err(e) => {
                return Err(e);
            },
        };
        proof {
            let e0 = (name, file_size);
            assert(spec_parse_table(orig, p) == table_step(
                spec_parse_table(orig, p + 14 + name_len as int),
                seq![e0],
            ));
            match spec_parse_table(orig, rd.position()) {
                Ok(rest) => {
                    assert(entries + (seq![e0] + rest.0) =~= entries.push(e0) + rest.0);
                },
                Err(_) => {},
            }
            entries = entries.push(e0);
        }
        records.push(PakRecord { file_path: file_name, file_size });
    }

    let ghost table_end: int = rd.position();
    let mut out: Vec<ExtractedFile> = Vec::new();
    let ghost mut done: Seq<(Seq<char>, Seq<u8>)> = Seq::empty();
    proof {
        assert(entries.skip(0) =~= entries);
        match spec_extract(orig, table_end, entries) {
            Ok(rest) => {
                assert(Seq::<(Seq<char>, Seq<u8>)>::empty() + rest =~= rest);
            },
            Err(_) => {},
        }
    }
    let mut i: usize = 0;
    while i < records.len()
        invariant
            rd.wf(),
            rd.bytes() == orig,
            i <= records@.len(),
            orig == data@,
            records_match(records@, entries),
            spec_parse_table(orig, 8) == Ok::<(Seq<(Seq<u8>, u32)>, int), PakError>((
                entries,
                table_end,
            )),
            orig.len() >= 8,
            u32_from_le(orig.subrange(0, 4)) == MAGIC,
            u32_from_le(orig.subrange(4, 8)) == VERSION,
            files_match(out@, done),
            spec_extract(orig, table_end, entries) == extract_step(
                spec_extract(orig, rd.position(), entries.skip(i as int)),
                done,
            ),
        decreases records@.len() - i,
    {
        let ghost p: int = rd.position();
        let ghost rest: Seq<(Seq<u8>, u32)> = entries.skip(i as int);
        proof {
            assert(rest[0] == entries[i as int]);
        }
        let size = records[i].file_size;
        let buf = match rd.read_vec_u8(size as usize) {
            Ok(b) => b,
            Err(e) => {
                assert(spec_extract(orig, p, rest) == Err::<Seq<(Seq<char>, Seq<u8>)>, PakError>(
                    PakError::EndOfStream,
                ));
                return Err(e);
            },
        };
        let path = normalize_path_exec(&records[i].file_path);
        if !path_is_safe_exec(&path) {
            assert(spec_extract(orig, p, rest) == Err::<Seq<(Seq<char>, Seq<u8>)>, PakError>(
                PakError::UnsafePath,
            ));
            return Err(PakError::UnsafePath);
        }
        let ghost path_view: Seq<char> = path@;
        let ghost buf_view: Seq<u8> = buf@;
        proof {
            let f0 = (path_view, buf_view);
            assert(rest.drop_first() =~= entries.skip(i + 1));
            assert(path_view == normalize_path(decode_utf8(entries[i as int].0)));
            assert(spec_extract(orig, p, rest) == extract_step(
                spec_extract(orig, p + size as int, entries.skip(i + 1)),
                seq![f0],
            ));
            match spec_extract(orig, p + size as int, entries.skip(i + 1)) {
                Ok(more) => {
                    assert(done + (seq![f0] + more) =~= done.push(f0) + more);
                },
                Err(_) => {},
            }
            done = done.push(f0);
        }
        out.push(ExtractedFile { path, data: buf });
        i = i + 1;
    }
    proof {
        assert(entries.skip(i as int) =~= Seq::<(Seq<u8>, u32)>::empty());
        assert(done + Seq::<(Seq<char>, Seq<u8>)>::empty() =~= done);
    }
    Ok(out)
}

/// Deciphers an obfuscated archive and decodes it: the whole pipeline from
/// the raw bytes on disk to the files to materialize.
pub fn extract_pak(raw: Vec<u8>) -> (r: Result<Vec<ExtractedFile>, PakError>)
    ensures
        match r {
            Ok(files) => spec_parse_pak(crate::bytes::spec_decrypt(raw@)) matches Ok(entries)
                && files_match(files@, entries),
            Err(e) => spec_parse_pak(crate::bytes::spec_decrypt(raw@)) == Err::<
                Seq<(Seq<char>, Seq<u8>)>,
                PakError,
            >(e),
        },
{
    let plain = crate::bytes::decrypt(raw);
    parse_pak(plain)
}

} // verus!
