//! The sequential builder of one file image.  Values are appended to an
//! in-memory data region in call order; `close` serializes the trailer
//! and footer after the data, yielding the finished file's bytes.
//! Writing those bytes out is the caller's business.

use vstd::prelude::*;
use vstd::utf8::encode_utf8;
use crate::codec::{push_u32_le, push_u64_le};
use crate::format::{INT_KEY_TYPE, STR_KEY_TYPE, MAX_OFFSET, int_entry_bytes, str_entry_bytes,
    int_trailer_bytes, str_trailer_bytes, file_bytes, int_entries_wf, str_entries_wf};

verus! {

broadcast use vstd::slice::group_slice_axioms;

/// The character sequences of a list of string-keyed records.
pub open spec fn str_entries_view(l: Seq<(String, (usize, usize))>) -> Seq<
    (Seq<char>, (usize, usize)),
> {
    l.map_values(|p: (String, (usize, usize))| (p.0@, p.1))
}

/// Appends a byte slice to a vector.
pub fn append_slice(out: &mut Vec<u8>, src: &[u8])
    ensures
        final(out)@ == old(out)@ + src@,
{
    let mut i: usize = 0;
    while i < src.len()
        invariant
            i <= src@.len(),
            out@ == old(out)@ + src@.subrange(0, i as int),
        decreases src@.len() - i,
    {
        out.push(*vstd::slice::slice_index_get(src, i));
        proof {
            assert(old(out)@ + src@.subrange(0, i as int) + seq![src@[i as int]] =~= old(out)@
                + src@.subrange(0, i + 1));
        }
        i = i + 1;
    }
    proof {
        assert(src@.subrange(0, src@.len() as int) =~= src@);
    }
}

/// Appending one more record extends the integer trailer bytes at the end.
proof fn lemma_int_trailer_snoc(l: Seq<(i64, (usize, usize))>, p: (i64, (usize, usize)))
    ensures
        int_trailer_bytes(l.push(p)) == int_trailer_bytes(l) + int_entry_bytes(p.0, p.1),
    decreases l.len(),
{
    if l.len() == 0 {
        assert(l.push(p)[0] == p);
        assert(l.push(p).drop_first() =~= Seq::<(i64, (usize, usize))>::empty());
        assert(int_trailer_bytes(l.push(p)) == int_entry_bytes(p.0, p.1) + int_trailer_bytes(
            l.push(p).drop_first(),
        ));
        assert(int_trailer_bytes(l) + int_entry_bytes(p.0, p.1) =~= int_entry_bytes(p.0, p.1)
            + Seq::<u8>::empty());
    } else {
        assert(l.push(p)[0] == l[0]);
        assert(l.push(p).drop_first() =~= l.drop_first().push(p));
        lemma_int_trailer_snoc(l.drop_first(), p);
        assert(int_trailer_bytes(l.push(p)) == int_entry_bytes(l[0].0, l[0].1)
            + int_trailer_bytes(l.drop_first().push(p)));
        assert(int_entry_bytes(l[0].0, l[0].1) + (int_trailer_bytes(l.drop_first())
            + int_entry_bytes(p.0, p.1)) =~= int_trailer_bytes(l) + int_entry_bytes(p.0, p.1));
    }
}

/// Appending one more record extends the string trailer bytes at the end.
proof fn lemma_str_trailer_snoc(l: Seq<(Seq<char>, (usize, usize))>, p: (Seq<char>, (usize, usize)))
    ensures
        str_trailer_bytes(l.push(p)) == str_trailer_bytes(l) + str_entry_bytes(p.0, p.1),
    decreases l.len(),
{
    if l.len() == 0 {
        assert(l.push(p)[0] == p);
        assert(l.push(p).drop_first() =~= Seq::<(Seq<char>, (usize, usize))>::empty());
        assert(str_trailer_bytes(l.push(p)) == str_entry_bytes(p.0, p.1) + str_trailer_bytes(
            l.push(p).drop_first(),
        ));
        assert(str_trailer_bytes(l) + str_entry_bytes(p.0, p.1) =~= str_entry_bytes(p.0, p.1)
            + Seq::<u8>::empty());
    } else {
        assert(l.push(p)[0] == l[0]);
        assert(l.push(p).drop_first() =~= l.drop_first().push(p));
        lemma_str_trailer_snoc(l.drop_first(), p);
        assert(str_trailer_bytes(l.push(p)) == str_entry_bytes(l[0].0, l[0].1)
            + str_trailer_bytes(l.drop_first().push(p)));
        assert(str_entry_bytes(l[0].0, l[0].1) + (str_trailer_bytes(l.drop_first())
            + str_entry_bytes(p.0, p.1)) =~= str_trailer_bytes(l) + str_entry_bytes(p.0, p.1));
    }
}

/// Accumulates value blobs and their key records, then serializes the
/// trailer and footer on `close`.  Single-owner and sequential: the
/// borrow rules alone enforce the single-writer discipline.
pub struct Writer {
    data: Vec<u8>,
    int_offsets: Vec<(i64, (usize, usize))>,
    str_offsets: Vec<(String, (usize, usize))>,
    closed: bool,
}

impl Writer {
    /// The bytes written so far: the data region while the writer is
    /// open, the whole file image once it is closed.
    pub closed spec fn data_view(self) -> Seq<u8> {
        self.data@
    }

    /// The integer-keyed records, in insertion order.
    pub closed spec fn int_entries(self) -> Seq<(i64, (usize, usize))> {
        self.int_offsets@
    }

    /// The string-keyed records, in insertion order.
    pub closed spec fn str_entries(self) -> Seq<(Seq<char>, (usize, usize))> {
        str_entries_view(self.str_offsets@)
    }

    /// Whether `close` has run.
    pub closed spec fn is_closed(self) -> bool {
        self.closed
    }

    /// While open: the data region fits the 64-bit signed offset fields
    /// and every recorded range lies inside it.
    pub open spec fn wf(self) -> bool {
        &&& self.data_view().len() <= MAX_OFFSET
        &&& int_entries_wf(self.int_entries(), self.data_view().len() as int)
        &&& str_entries_wf(self.str_entries(), self.data_view().len() as int)
    }

    /// A fresh writer with nothing recorded.
    pub fn new() -> (w: Writer)
        ensures
            w.wf(),
            !w.is_closed(),
            w.data_view() == Seq::<u8>::empty(),
            w.int_entries() == Seq::<(i64, (usize, usize))>::empty(),
            w.str_entries() == Seq::<(Seq<char>, (usize, usize))>::empty(),
    {
        let w = Writer {
            data: Vec::new(),
            int_offsets: Vec::new(),
            str_offsets: Vec::new(),
            closed: false,
        };
        proof {
            assert(w.str_entries() =~= Seq::<(Seq<char>, (usize, usize))>::empty());
        }
        w
    }

    /// Appends `value` to the data region and records its byte range
    /// under the integer key `key`.
    pub fn add_int(&mut self, key: i64, value: &[u8])
        requires
            old(self).wf(),
            !old(self).is_closed(),
            old(self).data_view().len() + value@.len() <= MAX_OFFSET,
        ensures
            final(self).wf(),
            !final(self).is_closed(),
            final(self).data_view() == old(self).data_view() + value@,
            final(self).int_entries() == old(self).int_entries().push(
                (
                    key,
                    (
                        old(self).data_view().len() as usize,
                        (old(self).data_view().len() + value@.len()) as usize,
                    ),
                ),
            ),
            final(self).str_entries() == old(self).str_entries(),
    {
        let start = self.data.len();
        append_slice(&mut self.data, value);
        let end = self.data.len();
        self.int_offsets.push((key, (start, end)));
        proof {
            assert(forall|i: int|
                0 <= i < old(self).int_offsets@.len() ==> #[trigger] self.int_offsets@[i]
                    == old(self).int_offsets@[i]);
            assert(forall|i: int|
                0 <= i < self.str_offsets@.len() ==> #[trigger] self.str_offsets@[i]
                    == old(self).str_offsets@[i]);
            assert(final(self).str_entries() =~= old(self).str_entries());
        }
    }

    /// Appends `value` to the data region and records its byte range
    /// under the string key `key`, kept verbatim.
    pub fn add_str(&mut self, key: &str, value: &[u8])
        requires
            old(self).wf(),
            !old(self).is_closed(),
            old(self).data_view().len() + value@.len() <= MAX_OFFSET,
            encode_utf8(key@).len() <= MAX_OFFSET,
        ensures
            final(self).wf(),
            !final(self).is_closed(),
            final(self).data_view() == old(self).data_view() + value@,
            final(self).str_entries() == old(self).str_entries().push(
                (
                    key@,
                    (
                        old(self).data_view().len() as usize,
                        (old(self).data_view().len() + value@.len()) as usize,
                    ),
                ),
            ),
            final(self).int_entries() == old(self).int_entries(),
    {
        let start = self.data.len();
        append_slice(&mut self.data, value);
        let end = self.data.len();
        self.str_offsets.push((key.to_owned(), (start, end)));
        proof {
            assert(forall|i: int|
                0 <= i < old(self).str_offsets@.len() ==> #[trigger] self.str_offsets@[i]
                    == old(self).str_offsets@[i]);
            assert(final(self).str_entries() =~= old(self).str_entries().push(
                (key@, (start, end)),
            ));
        }
    }

    /// Serializes the trailer after the data — integer records in
    /// insertion order, then string records in insertion order — and
    /// the 8-byte footer holding the offset where the trailer begins.
    /// Closing an already closed writer changes nothing, so the footer
    /// can never be appended twice.
    pub fn close(&mut self)
        requires
            old(self).wf(),
        ensures
            final(self).is_closed(),
            final(self).int_entries() == old(self).int_entries(),
            final(self).str_entries() == old(self).str_entries(),
            old(self).is_closed() ==> final(self).data_view() == old(self).data_view(),
            !old(self).is_closed() ==> final(self).data_view() == file_bytes(
                old(self).data_view(),
                old(self).int_entries(),
                old(self).str_entries(),
            ),
    {
        if self.closed {
            return ;
        }
        let table_offset = self.data.len() as u64;
        let ghost data0 = self.data@;
        let ghost ints0 = self.int_offsets@;
        let ghost strs0 = self.str_offsets@;
        let mut i: usize = 0;
        while i < self.int_offsets.len()
            invariant
                i <= ints0.len(),
                self.int_offsets@ == ints0,
                self.str_offsets@ == strs0,
                self.data@ == data0 + int_trailer_bytes(ints0.subrange(0, i as int)),
            decreases ints0.len() - i,
        {
            let (k, (s, e)) = self.int_offsets[i];
            push_u32_le(&mut self.data, INT_KEY_TYPE);
            push_u64_le(&mut self.data, s as u64);
            push_u64_le(&mut self.data, e as u64);
            push_u64_le(&mut self.data, #[verifier::truncate] (k as u64));
            proof {
                assert(ints0.subrange(0, i + 1) =~= ints0.subrange(0, i as int).push(ints0[i as int]));
                lemma_int_trailer_snoc(ints0.subrange(0, i as int), ints0[i as int]);
                assert(self.data@ =~= data0 + int_trailer_bytes(ints0.subrange(0, i + 1)));
            }
            i = i + 1;
        }
        proof {
            assert(ints0.subrange(0, ints0.len() as int) =~= ints0);
        }
        let mut j: usize = 0;
        while j < self.str_offsets.len()
            invariant
                j <= strs0.len(),
                self.int_offsets@ == ints0,
                self.str_offsets@ == strs0,
                self.data@ == data0 + int_trailer_bytes(ints0) + str_trailer_bytes(
                    str_entries_view(strs0).subrange(0, j as int),
                ),
            decreases strs0.len() - j,
        {
            let p = vstd::std_specs::vec::vec_index(&self.str_offsets, j);
            let (s, e) = p.1;
            let kb = p.0.as_str().as_bytes();
            let kb_len = kb.len();
            push_u32_le(&mut self.data, STR_KEY_TYPE);
            push_u64_le(&mut self.data, s as u64);
            push_u64_le(&mut self.data, e as u64);
            push_u64_le(&mut self.data, kb_len as u64);
            append_slice(&mut self.data, kb);
            proof {
                let sv = str_entries_view(strs0);
                assert(sv[j as int] == (strs0[j as int].0@, strs0[j as int].1));
                assert(kb@ == encode_utf8(strs0[j as int].0@));
                assert(sv.subrange(0, j + 1) =~= sv.subrange(0, j as int).push(sv[j as int]));
                lemma_str_trailer_snoc(sv.subrange(0, j as int), sv[j as int]);
                assert(self.data@ =~= data0 + int_trailer_bytes(ints0) + str_trailer_bytes(
                    sv.subrange(0, j + 1),
                ));
            }
            j = j + 1;
        }
        proof {
            let sv = str_entries_view(strs0);
            assert(sv.subrange(0, sv.len() as int) =~= sv);
        }
        push_u64_le(&mut self.data, table_offset);
        self.closed = true;
        proof {
            assert(self.data@ =~= file_bytes(data0, ints0, str_entries_view(strs0)));
        }
    }

    /// The bytes accumulated so far; after `close`, the finished file
    /// image, ready to be written out.
    pub fn bytes(&self) -> (r: &Vec<u8>)
        ensures
            r@ == self.data_view(),
    {
        &self.data
    }
}

} // verus!
