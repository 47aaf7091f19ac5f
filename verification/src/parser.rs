//! Archive container parsing: signature, header fields and the file table.
//!
//! Strings carry a variable-length prefix: one byte when the length is
//! below 128, otherwise a two-byte big-endian length whose top bit is set
//! in the first byte and whose low 15 bits carry the length. Multi-byte
//! integers are little-endian. String bytes decode as lenient UTF-8, with
//! invalid sequences replaced.

use crate::entry::{QArchiveHeader, QFileEntry};
use crate::errors::QtmError;
use vstd::prelude::*;

verus! {

/// What lenient UTF-8 decoding produces for the given bytes; a function
/// of the bytes alone.
pub uninterp spec fn lossy_chars(bytes: Seq<u8>) -> Seq<char>;

/// Relies on std's `String::from_utf8_lossy`: the result depends on the
/// bytes alone (invalid sequences are replaced), and bytes that are all
/// ASCII — valid UTF-8 — decode to themselves.
#[verifier::external_body]
fn utf8_lossy(bytes: &Vec<u8>) -> (r: String)
    ensures
        r@ == lossy_chars(bytes@),
        (forall|i: int| 0 <= i < bytes@.len() ==> bytes@[i] < 128) ==> r@ == bytes@.map(
            |_i: int, b: u8| b as char,
        ),
{
    String::from_utf8_lossy(bytes).into_owned()
}

/// The variable-length prefix at `p`: the length read and the position
/// after it, or nothing if the input ends first.
pub open spec fn spec_var_length(d: Seq<u8>, p: int) -> Option<(int, int)> {
    if !(0 <= p < d.len()) {
        None
    } else if d[p] < 128 {
        Some((d[p] as int, p + 1))
    } else if !(p + 1 < d.len()) {
        None
    } else {
        Some(((d[p] - 128) * 256 + d[p + 1], p + 2))
    }
}

/// The variable-length string at `p`: its raw bytes and the position
/// after it.
pub open spec fn spec_var_string(d: Seq<u8>, p: int) -> Option<(Seq<u8>, int)> {
    match spec_var_length(d, p) {
        Option::None => Option::None,
        Option::Some((n, q)) => if q + n <= d.len() {
            Option::Some((d.subrange(q, q + n), q + n))
        } else {
            Option::None
        },
    }
}

/// The little-endian 16-bit integer at `p` and the position after it.
pub open spec fn spec_u16_le(d: Seq<u8>, p: int) -> Option<(int, int)> {
    if 0 <= p && p + 2 <= d.len() {
        Option::Some((d[p] + 256 * d[p + 1], p + 2))
    } else {
        Option::None
    }
}

/// The little-endian 32-bit integer at `p` and the position after it.
pub open spec fn spec_u32_le(d: Seq<u8>, p: int) -> Option<(int, int)> {
    if 0 <= p && p + 4 <= d.len() {
        Option::Some(
            (d[p] + 256 * d[p + 1] + 65536 * d[p + 2] + 16777216 * d[p + 3], p + 4),
        )
    } else {
        Option::None
    }
}

/// Read a variable-length string prefix: one byte when below 128, else a
/// two-byte big-endian length with the top bit set in the first byte.
pub fn read_var_length(data: &[u8], pos: &mut usize) -> (r: Result<usize, QtmError>)
    ensures
        spec_var_length(data@, *old(pos) as int) matches Some(t) ==> r == Ok::<
            usize,
            QtmError,
        >(t.0 as usize) && *final(pos) == t.1,
        spec_var_length(data@, *old(pos) as int) is None ==> r == Err::<usize, QtmError>(
            QtmError::Truncated,
        ),
{
    if *pos >= data.len() {
        return Err(QtmError::Truncated);
    }
    let first = data[*pos];
    *pos = *pos + 1;
    if first < 128 {
        Ok(first as usize)
    } else {
        if *pos >= data.len() {
            return Err(QtmError::Truncated);
        }
        let second = data[*pos];
        *pos = *pos + 1;
        Ok(((first - 128) as usize) * 256 + (second as usize))
    }
}

/// Read a variable-length string and decode it as lenient UTF-8.
pub fn read_var_string(data: &[u8], pos: &mut usize) -> (r: Result<String, QtmError>)
    ensures
        spec_var_string(data@, *old(pos) as int) matches Some(t) ==> r matches Ok(s) && s@
            == lossy_chars(t.0) && *final(pos) == t.1,
        spec_var_string(data@, *old(pos) as int) is None ==> r == Err::<String, QtmError>(
            QtmError::Truncated,
        ),
{
    let n = match read_var_length(data, pos) {
        Ok(v) => v,
        Err(_) => {
            return Err(QtmError::Truncated);
        },
    };
    if n > data.len() - *pos {
        return Err(QtmError::Truncated);
    }
    let start = *pos;
    let dlen = data.len();
    let mut bytes: Vec<u8> = Vec::with_capacity(n);
    let mut k: usize = 0;
    while k < n
        invariant
            k <= n,
            dlen == data@.len(),
            start + n <= dlen,
            bytes@.len() == k,
            forall|j: int| 0 <= j < k ==> bytes@[j] == data@[start + j],
        decreases n - k,
    {
        bytes.push(data[start + k]);
        k = k + 1;
    }
    proof {
        assert(bytes@ =~= data@.subrange(start as int, start + n));
    }
    *pos = *pos + n;
    Ok(utf8_lossy(&bytes))
}

/// Read a little-endian 16-bit integer.
pub fn read_u16_le(data: &[u8], pos: &mut usize) -> (r: Result<u16, QtmError>)
    ensures
        spec_u16_le(data@, *old(pos) as int) matches Some(t) ==> r matches Ok(v) && v == t.0
            && *final(pos) == t.1,
        spec_u16_le(data@, *old(pos) as int) is None ==> r == Err::<u16, QtmError>(
            QtmError::Truncated,
        ) && *final(pos) == *old(pos),
{
    if data.len() < 2 || *pos > data.len() - 2 {
        return Err(QtmError::Truncated);
    }
    let v = (data[*pos] as u16) + 256 * (data[*pos + 1] as u16);
    *pos = *pos + 2;
    Ok(v)
}

/// Read a little-endian 32-bit integer.
pub fn read_u32_le(data: &[u8], pos: &mut usize) -> (r: Result<u32, QtmError>)
    ensures
        spec_u32_le(data@, *old(pos) as int) matches Some(t) ==> r matches Ok(v) && v == t.0
            && *final(pos) == t.1,
        spec_u32_le(data@, *old(pos) as int) is None ==> r == Err::<u32, QtmError>(
            QtmError::Truncated,
        ) && *final(pos) == *old(pos),
{
    if data.len() < 4 || *pos > data.len() - 4 {
        return Err(QtmError::Truncated);
    }
    let v = (data[*pos] as u32) + 256 * (data[*pos + 1] as u32) + 65536 * (data[*pos + 2] as u32)
        + 16777216 * (data[*pos + 3] as u32);
    *pos = *pos + 4;
    Ok(v)
}


/// The raw fields of one file record: name bytes, comment bytes, size,
/// time and date, with the position after the record.
pub open spec fn spec_entry(d: Seq<u8>, p: int) -> Option<
    ((Seq<u8>, Seq<u8>, int, int, int), int),
> {
    match spec_var_string(d, p) {
        Option::None => Option::None,
        Option::Some((nm, p1)) => match spec_var_string(d, p1) {
            Option::None => Option::None,
            Option::Some((cm, p2)) => match spec_u32_le(d, p2) {
                Option::None => Option::None,
                Option::Some((sz, p3)) => match spec_u16_le(d, p3) {
                    Option::None => Option::None,
                    Option::Some((tm, p4)) => match spec_u16_le(d, p4) {
                        Option::None => Option::None,
                        Option::Some((dt, p5)) => Option::Some(((nm, cm, sz, tm, dt), p5)),
                    },
                },
            },
        },
    }
}

/// The raw fields of `n` consecutive file records starting at `p`.
pub open spec fn spec_entries(d: Seq<u8>, p: int, n: int) -> Option<
    (Seq<(Seq<u8>, Seq<u8>, int, int, int)>, int),
>
    decreases n,
{
    if n <= 0 {
        Option::Some((Seq::empty(), p))
    } else {
        match spec_entry(d, p) {
            Option::None => Option::None,
            Option::Some((e, q)) => match spec_entries(d, q, n - 1) {
                Option::None => Option::None,
                Option::Some((rest, qq)) => Option::Some((seq![e] + rest, qq)),
            },
        }
    }
}

/// Whether a parsed record faithfully reflects the raw fields `t`.
pub open spec fn entry_matches(fe: QFileEntry, t: (Seq<u8>, Seq<u8>, int, int, int)) -> bool {
    fe.name@ == lossy_chars(t.0) && fe.comment@ == lossy_chars(t.1) && fe.size == t.2 && fe.time
        == t.3 && fe.date == t.4
}

/// The declared number of files, little-endian at offset 4.
pub open spec fn spec_num_files(d: Seq<u8>) -> int {
    d[4] + 256 * d[5]
}

proof fn lemma_spec_entries_len(d: Seq<u8>, p: int, n: int)
    requires
        n >= 0,
        spec_entries(d, p, n) is Some,
    ensures
        (spec_entries(d, p, n)->Some_0).0.len() == n,
    decreases n,
{
    if n > 0 {
        let q = (spec_entry(d, p)->Some_0).1;
        lemma_spec_entries_len(d, q, n - 1);
    }
}

/// Parse a complete archive: signature, header fields and the file table.
/// Returns the header, the file records and the byte offset of the first
/// compressed byte.
///
/// Rejects a buffer shorter than the 8-byte header, a wrong signature, a
/// window exponent outside `[10, 21]`, and a file table that the buffer
/// cannot hold.
pub fn parse_archive(data: &[u8]) -> (r: Result<(QArchiveHeader, Vec<QFileEntry>, usize), QtmError>)
    ensures
        data@.len() < 8 ==> r is Err && r->Err_0 == QtmError::TooSmall,
        data@.len() >= 8 && !(data@[0] == 0x44 && data@[1] == 0x53) ==> r is Err && r->Err_0
            == QtmError::InvalidSignature,
        data@.len() >= 8 && data@[0] == 0x44 && data@[1] == 0x53 && !(10 <= data@[6] <= 21)
            ==> r is Err && r->Err_0 == QtmError::InvalidTableSize,
        data@.len() >= 8 && data@[0] == 0x44 && data@[1] == 0x53 && 10 <= data@[6] <= 21 ==> {
            &&& spec_entries(data@, 8, spec_num_files(data@)) is None ==> r is Err && r->Err_0
                == QtmError::Truncated
            &&& spec_entries(data@, 8, spec_num_files(data@)) matches Some(t) ==> r matches Ok(
            out) && out.0.major_version == data@[2] && out.0.minor_version == data@[3]
                && out.0.num_files == spec_num_files(data@) && out.0.table_size == data@[6]
                && out.0.comp_flags == data@[7] && out.1@.len() == spec_num_files(data@)
                && t.0.len() == spec_num_files(data@) && (forall|j: int|
                0 <= j < t.0.len() ==> entry_matches(out.1@[j], t.0[j])) && out.2 == t.1
        },
{
    if data.len() < 8 {
        return Err(QtmError::TooSmall);
    }
    if !(data[0] == 0x44 && data[1] == 0x53) {
        return Err(QtmError::InvalidSignature);
    }

    let mut pos: usize = 2;
    let major_version = data[pos];
    pos = pos + 1;
    let minor_version = data[pos];
    pos = pos + 1;
    let num_files = match read_u16_le(data, &mut pos) {
        Ok(v) => v,
        Err(_) => {
            return Err(QtmError::Truncated);
        },
    };
    let table_size = data[pos];
    pos = pos + 1;
    let comp_flags = data[pos];
    pos = pos + 1;

    let header = QArchiveHeader { major_version, minor_version, num_files, table_size, comp_flags };

    if table_size < 10 || table_size > 21 {
        return Err(QtmError::InvalidTableSize);
    }

    let ghost d = data@;
    let ghost nf = spec_num_files(d);
    let ghost full = spec_entries(d, 8, nf);
    assert(num_files as int == nf);
    assert(pos == 8);
    proof {
        if full is Some {
            let t = full->Some_0;
            lemma_spec_entries_len(d, 8, nf);
            assert(t.0.skip(0) =~= t.0);
        }
    }

    let mut files: Vec<QFileEntry> = Vec::with_capacity(num_files as usize);
    let mut fi: usize = 0;
    while fi < num_files as usize
        invariant
            d == data@,
            d.len() >= 8,
            d[0] == 0x44 && d[1] == 0x53,
            10 <= d[6] <= 21,
            nf == num_files as int,
            nf == spec_num_files(d),
            0 <= nf,
            full == spec_entries(d, 8, nf),
            fi <= num_files as usize,
            files@.len() == fi,
            full matches Some(t) ==> spec_entries(d, pos as int, nf - fi) == Some(
                (t.0.skip(fi as int), t.1),
            ) && t.0.len() == nf && (forall|j: int|
                0 <= j < fi ==> entry_matches(files@[j], t.0[j])),
            full is None ==> spec_entries(d, pos as int, nf - fi) is None,
        decreases num_files as usize - fi,
    {
        let ghost p0 = pos as int;
        let ghost m = nf - fi;
        let name = match read_var_string(data, &mut pos) {
            Ok(v) => v,
            Err(_) => {
                proof {
                    assert(spec_entry(d, p0) is None);
                }
                return Err(QtmError::Truncated);
            },
        };
        let comment = match read_var_string(data, &mut pos) {
            Ok(v) => v,
            Err(_) => {
                proof {
                    assert(spec_entry(d, p0) is None);
                }
                return Err(QtmError::Truncated);
            },
        };
        let size = match read_u32_le(data, &mut pos) {
            Ok(v) => v,
            Err(_) => {
                proof {
                    assert(spec_entry(d, p0) is None);
                }
                return Err(QtmError::Truncated);
            },
        };
        let time = match read_u16_le(data, &mut pos) {
            Ok(v) => v,
            Err(_) => {
                proof {
                    assert(spec_entry(d, p0) is None);
                }
                return Err(QtmError::Truncated);
            },
        };
        let date = match read_u16_le(data, &mut pos) {
            Ok(v) => v,
            Err(_) => {
                proof {
                    assert(spec_entry(d, p0) is None);
                }
                return Err(QtmError::Truncated);
            },
        };
        files.push(QFileEntry { name, comment, size, time, date });
        proof {
            let e = spec_entry(d, p0)->Some_0;
            assert(spec_entry(d, p0) matches Some(ee) && ee.1 == pos as int);
            if full is Some {
                let t = full->Some_0;
                assert(spec_entries(d, p0, m) == Some((t.0.skip(fi as int), t.1)));
                let rest = spec_entries(d, pos as int, m - 1)->Some_0;
                assert(seq![e.0] + rest.0 == t.0.skip(fi as int));
                assert((seq![e.0] + rest.0)[0] == e.0);
                assert(t.0.skip(fi as int)[0] == t.0[fi as int]);
                assert(e.0 == t.0[fi as int]);
                assert forall|j: int| 0 <= j < rest.0.len() implies rest.0[j] == t.0.skip(
                    fi as int + 1,
                )[j] by {
                    assert((seq![e.0] + rest.0)[j + 1] == rest.0[j]);
                    assert(t.0.skip(fi as int)[j + 1] == t.0[fi + 1 + j]);
                }
                assert(rest.0 =~= t.0.skip(fi as int + 1));
                assert(entry_matches(files@[fi as int], t.0[fi as int]));
            }
        }
        fi = fi + 1;
    }
    proof {
        if full is None {
            assert(spec_entries(d, pos as int, 0) is None);
            assert(false);
        }
    }
    Ok((header, files, pos))
}

} // verus!
