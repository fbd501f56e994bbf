//! The read side: decode a finished file image once, building two
//! in-memory key tables, then answer lookups with byte-slice views into
//! the data region.  `Tables::build` is proved equal to the format's
//! `spec_open` decoder, error for error.

use vstd::prelude::*;
use vstd::utf8::{valid_utf8, decode_utf8};
use vstd::string::StringSliceAdditionalSpecFns;
use crate::codec::{read_u32_le, read_u64_le};
use crate::format::{INT_KEY_TYPE, STR_KEY_TYPE, ReadError, int_index, str_index, parse_trailer,
    spec_open, int_entries_wf};
use crate::laws::{lemma_int_index_lookup, lemma_str_index_lookup};
use crate::writer::str_entries_view;

verus! {

broadcast use vstd::slice::group_slice_axioms;

/// How a reader expects to touch the file: in random order (the
/// default) or sequentially.  A paging hint for the platform layer;
/// it never affects what lookups return.
pub struct ReaderOptions {
    random_access: bool,
}

impl ReaderOptions {
    /// The paging hint carried by these options.
    pub closed spec fn spec_random_access(self) -> bool {
        self.random_access
    }

    /// Reads the paging hint.
    pub fn random_access(&self) -> (r: bool)
        ensures
            r == self.spec_random_access(),
    {
        self.random_access
    }
}

impl Default for ReaderOptions {
    /// Expect random access unless told otherwise.
    fn default() -> (r: ReaderOptions)
        ensures
            r.spec_random_access(),
    {
        ReaderOptions { random_access: true }
    }
}

/// Relies on core::str::from_utf8: it returns `Ok` exactly when the
/// bytes are valid UTF-8, and the returned slice's bytes are the input
/// bytes unchanged.
#[verifier::external_body]
fn bytes_to_str<'a>(b: &'a [u8]) -> (r: Option<&'a str>)
    ensures
        r matches Some(s) ==> s.spec_bytes() == b@ && valid_utf8(b@),
        r is None ==> !valid_utf8(b@),
{
    core::str::from_utf8(b).ok()
}

/// Whether two byte slices hold the same bytes.
fn bytes_eq(a: &[u8], b: &[u8]) -> (r: bool)
    ensures
        r == (a@ == b@),
{
    let n = a.len();
    if n != b.len() {
        return false;
    }
    let mut i: usize = 0;
    while i < n
        invariant
            i <= n,
            a@.len() == n,
            b@.len() == n,
            forall|j: int| 0 <= j < i ==> a@[j] == b@[j],
        decreases n - i,
    {
        if *vstd::slice::slice_index_get(a, i) != *vstd::slice::slice_index_get(b, i) {
            return false;
        }
        i = i + 1;
    }
    proof {
        assert(a@ =~= b@);
    }
    true
}

/// Whether two string slices hold the same characters.  Two strings are
/// equal exactly when their UTF-8 bytes are.
fn str_eq(a: &str, b: &str) -> (r: bool)
    ensures
        r == (a@ == b@),
{
    let r = bytes_eq(a.as_bytes(), b.as_bytes());
    proof {
        if a.spec_bytes() == b.spec_bytes() {
            vstd::utf8::encode_utf8_decode_utf8(a@);
            vstd::utf8::encode_utf8_decode_utf8(b@);
        }
    }
    r
}

/// Table values bounded by `n`: the check that makes slicing safe.
proof fn lemma_int_index_bounds(m: Map<i64, (usize, usize)>, l: Seq<(i64, (usize, usize))>, n: int)
    requires
        forall|k: i64| m.contains_key(k) ==> (#[trigger] m[k]).0 <= m[k].1 <= n,
        int_entries_wf(l, n),
    ensures
        forall|k: i64|
            int_index(m, l).contains_key(k) ==> (#[trigger] int_index(m, l)[k]).0 <= int_index(
                m,
                l,
            )[k].1 <= n,
    decreases l.len(),
{
    if l.len() > 0 {
        assert(forall|i: int| 0 <= i < l.drop_first().len() ==> #[trigger] l.drop_first()[i] == l[
            i + 1
        ]);
        assert(l[0].1.0 <= l[0].1.1 <= n);
        assert(forall|k: i64|
            m.insert(l[0].0, l[0].1).contains_key(k) ==> (#[trigger] m.insert(l[0].0, l[0].1)[k]).0
                <= m.insert(l[0].0, l[0].1)[k].1 <= n);
        lemma_int_index_bounds(m.insert(l[0].0, l[0].1), l.drop_first(), n);
        assert(int_index(m, l) == int_index(m.insert(l[0].0, l[0].1), l.drop_first()));
    }
}

/// As `lemma_int_index_bounds`, for the string table.
proof fn lemma_str_index_bounds(
    m: Map<Seq<char>, (usize, usize)>,
    l: Seq<(Seq<char>, (usize, usize))>,
    n: int,
)
    requires
        forall|k: Seq<char>| m.contains_key(k) ==> (#[trigger] m[k]).0 <= m[k].1 <= n,
        forall|i: int| 0 <= i < l.len() ==> (#[trigger] l[i]).1.0 <= l[i].1.1 <= n,
    ensures
        forall|k: Seq<char>|
            str_index(m, l).contains_key(k) ==> (#[trigger] str_index(m, l)[k]).0 <= str_index(
                m,
                l,
            )[k].1 <= n,
    decreases l.len(),
{
    if l.len() > 0 {
        assert(forall|i: int| 0 <= i < l.drop_first().len() ==> #[trigger] l.drop_first()[i] == l[
            i + 1
        ]);
        assert(l[0].1.0 <= l[0].1.1 <= n);
        assert(forall|k: Seq<char>|
            m.insert(l[0].0, l[0].1).contains_key(k) ==> (#[trigger] m.insert(l[0].0, l[0].1)[k]).0
                <= m.insert(l[0].0, l[0].1)[k].1 <= n);
        lemma_str_index_bounds(m.insert(l[0].0, l[0].1), l.drop_first(), n);
        assert(str_index(m, l) == str_index(m.insert(l[0].0, l[0].1), l.drop_first()));
    }
}

/// The two lookup tables an open file decodes to: integer keys and
/// string keys to byte ranges, each namespace on its own.
#[derive(Debug)]
pub struct Tables {
    ints: Vec<(i64, (usize, usize))>,
    strs: Vec<(String, (usize, usize))>,
}

impl Tables {
    /// The integer-key table.
    pub closed spec fn int_map(self) -> Map<i64, (usize, usize)> {
        int_index(Map::empty(), self.ints@)
    }

    /// The string-key table.
    pub closed spec fn str_map(self) -> Map<Seq<char>, (usize, usize)> {
        str_index(Map::empty(), str_entries_view(self.strs@))
    }

    /// Every range either table holds lies inside `[0, n)`'s bounds.
    pub open spec fn bounded(self, n: int) -> bool {
        &&& forall|k: i64|
            self.int_map().contains_key(k) ==> (#[trigger] self.int_map()[k]).0
                <= self.int_map()[k].1 <= n
        &&& forall|k: Seq<char>|
            self.str_map().contains_key(k) ==> (#[trigger] self.str_map()[k]).0
                <= self.str_map()[k].1 <= n
    }

    /// Decodes a file image: footer, then the trailer entry by entry,
    /// newer entries for a key overwriting older ones.  Returns the
    /// tables exactly when `spec_open` accepts the bytes, and
    /// `spec_open`'s error otherwise.
    #[verifier::rlimit(100)]
    pub fn build(bytes: &[u8]) -> (r: Result<Tables, ReadError>)
        ensures
            r matches Ok(t) ==> spec_open(bytes@) matches Ok(m) && t.int_map() == m.0
                && t.str_map() == m.1 && t.bounded(bytes@.len() as int),
            r matches Err(e) ==> spec_open(bytes@) matches Err(e2) && e2 == e,
    {
        let ghost bv = bytes@;
        let n = bytes.len();
        if n < 8 {
            return Err(ReadError::Corrupt);
        }
        let tloc = n - 8;
        let footer = read_u64_le(bytes, tloc);
        if footer > tloc as u64 {
            return Err(ReadError::Corrupt);
        }
        let mut cur = footer as usize;
        let ghost fu = footer as usize;
        let mut ints: Vec<(i64, (usize, usize))> = Vec::new();
        let mut strs: Vec<(String, (usize, usize))> = Vec::new();
        proof {
            assert(spec_open(bv) == parse_trailer(
                bv.subrange(fu as int, tloc as int),
                fu as int,
                Map::<i64, (usize, usize)>::empty(),
                Map::<Seq<char>, (usize, usize)>::empty(),
            ));
            assert(str_entries_view(strs@) =~= Seq::<(Seq<char>, (usize, usize))>::empty());
        }
        while cur < tloc
            invariant
                bytes@ == bv,
                n == bv.len(),
                n >= 8,
                tloc == n - 8,
                fu == footer as usize,
                footer <= tloc as u64,
                fu <= cur <= tloc,
                int_entries_wf(ints@, fu as int),
                forall|i: int|
                    0 <= i < strs@.len() ==> (#[trigger] strs@[i]).1.0 <= strs@[i].1.1 <= fu,
                parse_trailer(
                    bv.subrange(cur as int, tloc as int),
                    fu as int,
                    int_index(Map::empty(), ints@),
                    str_index(Map::empty(), str_entries_view(strs@)),
                ) == spec_open(bv),
            decreases tloc - cur,
        {
            let ghost t = bv.subrange(cur as int, tloc as int);
            let ghost im = int_index(Map::<i64, (usize, usize)>::empty(), ints@);
            let ghost sm = str_index(
                Map::<Seq<char>, (usize, usize)>::empty(),
                str_entries_view(strs@),
            );
            if tloc - cur < 28 {
                return Err(ReadError::Corrupt);
            }
            let tag = read_u32_le(bytes, cur);
            let start = read_u64_le(bytes, cur + 4);
            let end = read_u64_le(bytes, cur + 12);
            let third = read_u64_le(bytes, cur + 20);
            proof {
                assert(t.subrange(0, 4) =~= bv.subrange(cur as int, cur as int + 4));
                assert(t.subrange(4, 12) =~= bv.subrange(cur as int + 4, cur as int + 12));
                assert(t.subrange(12, 20) =~= bv.subrange(cur as int + 12, cur as int + 20));
                assert(t.subrange(20, 28) =~= bv.subrange(cur as int + 20, cur as int + 28));
            }
            if tag == INT_KEY_TYPE {
                if !(start <= end && end <= footer) {
                    return Err(ReadError::Corrupt);
                }
                let key = #[verifier::truncate] (third as i64);
                let ghost ints_old = ints@;
                ints.push((key, (start as usize, end as usize)));
                proof {
                    let p = (key, (start as usize, end as usize));
                    crate::laws::lemma_int_index_snoc(
                        Map::<i64, (usize, usize)>::empty(),
                        ints_old,
                        p,
                    );
                    assert(parse_trailer(t, fu as int, im, sm) == parse_trailer(
                        t.skip(28),
                        fu as int,
                        im.insert(key, (start as usize, end as usize)),
                        sm,
                    ));
                    assert(t.skip(28) =~= bv.subrange(cur as int + 28, tloc as int));
                    assert(forall|ii: int|
                        0 <= ii < ints_old.len() ==> #[trigger] ints@[ii] == ints_old[ii]);
                    assert(int_entries_wf(ints@, fu as int));
                }
                cur = cur + 28;
            } else if tag == STR_KEY_TYPE {
                if !(start <= end && end <= footer) {
                    return Err(ReadError::Corrupt);
                }
                if third > (tloc - cur - 28) as u64 {
                    return Err(ReadError::Corrupt);
                }
                let klen = third as usize;
                let raw = vstd::slice::slice_subrange(bytes, cur + 28, cur + 28 + klen);
                proof {
                    assert(t.subrange(28, 28 + third as int) =~= bv.subrange(
                        cur as int + 28,
                        cur as int + 28 + klen as int,
                    ));
                }
                match bytes_to_str(raw) {
                    None => {
                        return Err(ReadError::InvalidUtf8);
                    },
                    Some(s) => {
                        let ghost strs_old = strs@;
                        let owned = s.to_owned();
                        strs.push((owned, (start as usize, end as usize)));
                        proof {
                            vstd::utf8::encode_utf8_decode_utf8(s@);
                            let q = (s@, (start as usize, end as usize));
                            assert(str_entries_view(strs@) =~= str_entries_view(strs_old).push(
                                q,
                            ));
                            crate::laws::lemma_str_index_snoc(
                                Map::<Seq<char>, (usize, usize)>::empty(),
                                str_entries_view(strs_old),
                                q,
                            );
                            assert(valid_utf8(t.subrange(28, 28 + third as int)));
                            assert(decode_utf8(t.subrange(28, 28 + third as int)) == s@);
                            assert(parse_trailer(t, fu as int, im, sm) == parse_trailer(
                                t.skip(28 + third as int),
                                fu as int,
                                im,
                                sm.insert(s@, (start as usize, end as usize)),
                            ));
                            assert(t.skip(28 + third as int) =~= bv.subrange(
                                cur as int + 28 + klen as int,
                                tloc as int,
                            ));
                            assert(forall|ii: int|
                                0 <= ii < strs_old.len() ==> #[trigger] strs@[ii] == strs_old[
                                    ii
                                ]);
                        }
                        cur = cur + 28 + klen;
                    },
                }
            } else {
                return Err(ReadError::Corrupt);
            }
        }
        proof {
            assert(bv.subrange(cur as int, tloc as int) =~= Seq::<u8>::empty());
        }
        let tables = Tables { ints, strs };
        proof {
            assert(forall|i: int|
                0 <= i < tables.ints@.len() ==> (#[trigger] tables.ints@[i]).1.0
                    <= tables.ints@[i].1.1 <= bv.len() as int);
            let sv = str_entries_view(tables.strs@);
            assert(forall|i: int|
                0 <= i < sv.len() ==> (#[trigger] sv[i]).1.0 <= sv[i].1.1 <= bv.len() as int);
            lemma_int_index_bounds(
                Map::<i64, (usize, usize)>::empty(),
                tables.ints@,
                bv.len() as int,
            );
            lemma_str_index_bounds(
                Map::<Seq<char>, (usize, usize)>::empty(),
                sv,
                bv.len() as int,
            );
        }
        Ok(tables)
    }

    /// Looks an integer key up: the byte range its last trailer entry
    /// recorded, or nothing if the key was never written.
    pub fn lookup_int(&self, key: i64) -> (r: Option<(usize, usize)>)
        ensures
            r matches Some(rg) ==> self.int_map().contains_key(key) && rg == self.int_map()[key],
            r is None ==> !self.int_map().contains_key(key),
    {
        let mut i: usize = self.ints.len();
        while i > 0
            invariant
                i <= self.ints@.len(),
                forall|j: int| i <= j < self.ints@.len() ==> (#[trigger] self.ints@[j]).0 != key,
            decreases i,
        {
            i = i - 1;
            let (k, rg) = self.ints[i];
            if k == key {
                proof {
                    lemma_int_index_lookup(Map::empty(), self.ints@, key);
                }
                return Some(rg);
            }
        }
        proof {
            lemma_int_index_lookup(Map::empty(), self.ints@, key);
        }
        None
    }

    /// Looks a string key up, comparing keys character for character.
    pub fn lookup_str(&self, key: &str) -> (r: Option<(usize, usize)>)
        ensures
            r matches Some(rg) ==> self.str_map().contains_key(key@) && rg == self.str_map()[key@],
            r is None ==> !self.str_map().contains_key(key@),
    {
        let ghost sv = str_entries_view(self.strs@);
        let mut i: usize = self.strs.len();
        while i > 0
            invariant
                sv == str_entries_view(self.strs@),
                sv.len() == self.strs@.len(),
                i <= self.strs@.len(),
                forall|j: int| i <= j < sv.len() ==> (#[trigger] sv[j]).0 != key@,
            decreases i,
        {
            i = i - 1;
            let p = vstd::std_specs::vec::vec_index(&self.strs, i);
            proof {
                assert(sv[i as int] == (self.strs@[i as int].0@, self.strs@[i as int].1));
            }
            if str_eq(key, p.0.as_str()) {
                proof {
                    lemma_str_index_lookup(Map::empty(), sv, key@);
                }
                return Some(p.1);
            }
        }
        proof {
            lemma_str_index_lookup(Map::empty(), sv, key@);
        }
        None
    }
}

/// A finished file held in memory together with its decoded tables.
/// Lookups return byte-slice views into the held data, copying nothing.
#[derive(Debug)]
pub struct Reader {
    data: Vec<u8>,
    tables: Tables,
}

impl Reader {
    /// The file image this reader holds.
    pub closed spec fn data_view(self) -> Seq<u8> {
        self.data@
    }

    /// The integer-key table.
    pub closed spec fn int_map(self) -> Map<i64, (usize, usize)> {
        self.tables.int_map()
    }

    /// The string-key table.
    pub closed spec fn str_map(self) -> Map<Seq<char>, (usize, usize)> {
        self.tables.str_map()
    }

    /// Every table range lies inside the held bytes.
    pub closed spec fn wf(self) -> bool {
        self.tables.bounded(self.data@.len() as int)
    }

    /// Opens a file image: decodes the footer and trailer, builds the
    /// tables, and keeps the bytes for lookups.  All-or-nothing: on any
    /// decode failure there is no reader.  The options carry only a
    /// paging hint, which an in-memory image has no use for.
    pub fn open(bytes: Vec<u8>, _options: ReaderOptions) -> (r: Result<Reader, ReadError>)
        ensures
            r matches Ok(rd) ==> rd.wf() && rd.data_view() == bytes@ && (spec_open(
                bytes@,
            ) matches Ok(m) && rd.int_map() == m.0 && rd.str_map() == m.1),
            r matches Err(e) ==> spec_open(bytes@) matches Err(e2) && e2 == e,
    {
        match Tables::build(bytes.as_slice()) {
            Ok(tables) => Ok(Reader { data: bytes, tables }),
            Err(e) => Err(e),
        }
    }

    /// The byte slice stored under an integer key, or nothing if the
    /// key is absent.  A view into the reader's data, not a copy.
    pub fn get_int(&self, key: i64) -> (r: Option<&[u8]>)
        requires
            self.wf(),
        ensures
            r matches Some(v) ==> self.int_map().contains_key(key) && v@ == self.data_view()
                .subrange(
                self.int_map()[key].0 as int,
                self.int_map()[key].1 as int,
            ),
            r is None ==> !self.int_map().contains_key(key),
    {
        match self.tables.lookup_int(key) {
            Some((s, e)) => Some(vstd::slice::slice_subrange(self.data.as_slice(), s, e)),
            None => None,
        }
    }

    /// The byte slice stored under a string key, or nothing if the key
    /// is absent.
    pub fn get_str(&self, key: &str) -> (r: Option<&[u8]>)
        requires
            self.wf(),
        ensures
            r matches Some(v) ==> self.str_map().contains_key(key@) && v@ == self.data_view()
                .subrange(
                self.str_map()[key@].0 as int,
                self.str_map()[key@].1 as int,
            ),
            r is None ==> !self.str_map().contains_key(key@),
    {
        match self.tables.lookup_str(key) {
            Some((s, e)) => Some(vstd::slice::slice_subrange(self.data.as_slice(), s, e)),
            None => None,
        }
    }
}

} // verus!
