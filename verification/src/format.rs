//! The binary file format, as specification: a file is a data region of
//! raw value bytes, a trailer of index entries (integer-keyed entries
//! first, then string-keyed ones), and an 8-byte footer holding the
//! offset at which the trailer begins.  `spec_open` is the mathematical
//! decoder that the `Reader` is proved against.

use vstd::prelude::*;
use vstd::utf8::{encode_utf8, valid_utf8, decode_utf8};
use crate::codec::{u32_le, u64_le, u32_of_le, u64_of_le};

verus! {

/// Trailer tag of an integer-keyed entry.
pub const INT_KEY_TYPE: u32 = 0;

/// Trailer tag of a string-keyed entry.
pub const STR_KEY_TYPE: u32 = 1;

/// Largest byte offset the format can express: offsets, lengths and keys
/// are stored as 64-bit signed fields.
pub const MAX_OFFSET: u64 = 0x7fff_ffff_ffff_ffff;

/// Why a file image is rejected at open time.
#[derive(Clone, Copy, Debug, PartialEq, Eq, Structural)]
pub enum ReadError {
    /// The trailer or footer does not decode to whole, in-range entries.
    Corrupt,
    /// A string key's bytes are not valid UTF-8.
    InvalidUtf8,
}

/// The bytes of one integer-keyed trailer entry.
pub open spec fn int_entry_bytes(key: i64, range: (usize, usize)) -> Seq<u8> {
    u32_le(INT_KEY_TYPE) + u64_le(range.0 as u64) + u64_le(range.1 as u64) + u64_le(key as u64)
}

/// The bytes of one string-keyed trailer entry.
pub open spec fn str_entry_bytes(key: Seq<char>, range: (usize, usize)) -> Seq<u8> {
    u32_le(STR_KEY_TYPE) + u64_le(range.0 as u64) + u64_le(range.1 as u64)
        + u64_le(encode_utf8(key).len() as u64) + encode_utf8(key)
}

/// The trailer bytes of a list of integer-keyed entries, in list order.
pub open spec fn int_trailer_bytes(l: Seq<(i64, (usize, usize))>) -> Seq<u8>
    decreases l.len(),
{
    if l.len() == 0 {
        Seq::empty()
    } else {
        int_entry_bytes(l[0].0, l[0].1) + int_trailer_bytes(l.drop_first())
    }
}

/// The trailer bytes of a list of string-keyed entries, in list order.
pub open spec fn str_trailer_bytes(l: Seq<(Seq<char>, (usize, usize))>) -> Seq<u8>
    decreases l.len(),
{
    if l.len() == 0 {
        Seq::empty()
    } else {
        str_entry_bytes(l[0].0, l[0].1) + str_trailer_bytes(l.drop_first())
    }
}

/// The whole file: data, integer entries, string entries, footer.  The
/// footer holds the data region's length, which is where the trailer
/// begins.
pub open spec fn file_bytes(
    data: Seq<u8>,
    ints: Seq<(i64, (usize, usize))>,
    strs: Seq<(Seq<char>, (usize, usize))>,
) -> Seq<u8> {
    data + int_trailer_bytes(ints) + str_trailer_bytes(strs) + u64_le(data.len() as u64)
}

/// The map a list of keyed ranges denotes when read front to back with
/// later entries overwriting earlier ones.
pub open spec fn int_index(
    m: Map<i64, (usize, usize)>,
    l: Seq<(i64, (usize, usize))>,
) -> Map<i64, (usize, usize)>
    decreases l.len(),
{
    if l.len() == 0 {
        m
    } else {
        int_index(m.insert(l[0].0, l[0].1), l.drop_first())
    }
}

/// As `int_index`, for string-keyed entries.
pub open spec fn str_index(
    m: Map<Seq<char>, (usize, usize)>,
    l: Seq<(Seq<char>, (usize, usize))>,
) -> Map<Seq<char>, (usize, usize)>
    decreases l.len(),
{
    if l.len() == 0 {
        m
    } else {
        str_index(m.insert(l[0].0, l[0].1), l.drop_first())
    }
}

/// Decodes trailer bytes `t` entry by entry, accumulating the two key
/// tables.  `data_end` is the offset where the trailer begins; a stored
/// range must lie inside the data region `[0, data_end)`'s bounds.  The
/// result mirrors the reader's walk exactly, including which error ends
/// it.
pub open spec fn parse_trailer(
    t: Seq<u8>,
    data_end: int,
    im: Map<i64, (usize, usize)>,
    sm: Map<Seq<char>, (usize, usize)>,
) -> Result<(Map<i64, (usize, usize)>, Map<Seq<char>, (usize, usize)>), ReadError>
    decreases t.len(),
{
    if t.len() == 0 {
        Ok((im, sm))
    } else if t.len() < 28 {
        Err(ReadError::Corrupt)
    } else {
        let tag = u32_of_le(t.subrange(0, 4));
        let start = u64_of_le(t.subrange(4, 12));
        let end = u64_of_le(t.subrange(12, 20));
        let third = u64_of_le(t.subrange(20, 28));
        if tag == INT_KEY_TYPE {
            if start <= end && end <= data_end {
                parse_trailer(
                    t.skip(28),
                    data_end,
                    im.insert(third as i64, (start as usize, end as usize)),
                    sm,
                )
            } else {
                Err(ReadError::Corrupt)
            }
        } else if tag == STR_KEY_TYPE {
            if start <= end && end <= data_end {
                if 28 + third <= t.len() {
                    let raw = t.subrange(28, 28 + third);
                    if valid_utf8(raw) {
                        parse_trailer(
                            t.skip(28 + third as int),
                            data_end,
                            im,
                            sm.insert(decode_utf8(raw), (start as usize, end as usize)),
                        )
                    } else {
                        Err(ReadError::InvalidUtf8)
                    }
                } else {
                    Err(ReadError::Corrupt)
                }
            } else {
                Err(ReadError::Corrupt)
            }
        } else {
            Err(ReadError::Corrupt)
        }
    }
}

/// Decodes a whole file image: footer first, then the trailer between
/// the footer's offset and the footer itself.
pub open spec fn spec_open(bytes: Seq<u8>) -> Result<
    (Map<i64, (usize, usize)>, Map<Seq<char>, (usize, usize)>),
    ReadError,
> {
    if bytes.len() < 8 {
        Err(ReadError::Corrupt)
    } else {
        let footer = u64_of_le(bytes.subrange(bytes.len() - 8, bytes.len() as int));
        if footer > bytes.len() - 8 {
            Err(ReadError::Corrupt)
        } else {
            parse_trailer(
                bytes.subrange(footer as int, bytes.len() - 8),
                footer as int,
                Map::empty(),
                Map::empty(),
            )
        }
    }
}

/// Every recorded range lies inside a data region of `data_len` bytes.
pub open spec fn int_entries_wf(l: Seq<(i64, (usize, usize))>, data_len: int) -> bool {
    forall|i: int|
        0 <= i < l.len() ==> (#[trigger] l[i]).1.0 <= l[i].1.1 && l[i].1.1 <= data_len
}

/// Ranges in bounds, and every key short enough for its length to be
/// stored in the 64-bit length field.
pub open spec fn str_entries_wf(l: Seq<(Seq<char>, (usize, usize))>, data_len: int) -> bool {
    forall|i: int|
        0 <= i < l.len() ==> (#[trigger] l[i]).1.0 <= l[i].1.1 && l[i].1.1 <= data_len
            && encode_utf8(l[i].0).len() <= MAX_OFFSET
}

} // verus!
