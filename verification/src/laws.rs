//! Proofs that the format's decoder inverts its encoder: a file built
//! from well-formed entry lists opens successfully, and the two key
//! tables it opens to are the last-write-wins maps of those lists.

use vstd::prelude::*;
use vstd::utf8::{encode_utf8, decode_utf8};
use crate::codec::{u32_le, u64_le, u64_of_le, lemma_u32_le_roundtrip, lemma_u64_le_roundtrip,
    lemma_i64_bits_roundtrip};
use crate::format::{INT_KEY_TYPE, STR_KEY_TYPE, MAX_OFFSET, ReadError, int_entry_bytes,
    str_entry_bytes, int_trailer_bytes, str_trailer_bytes, file_bytes, int_index, str_index,
    parse_trailer, spec_open, int_entries_wf, str_entries_wf};

verus! {

/// Parsing a trailer that starts with one integer entry records that
/// entry and goes on with the rest.
proof fn lemma_parse_one_int(
    e: (i64, (usize, usize)),
    rest: Seq<u8>,
    data_end: int,
    im: Map<i64, (usize, usize)>,
    sm: Map<Seq<char>, (usize, usize)>,
)
    requires
        e.1.0 <= e.1.1 <= data_end,
    ensures
        parse_trailer(int_entry_bytes(e.0, e.1) + rest, data_end, im, sm) == parse_trailer(
            rest,
            data_end,
            im.insert(e.0, e.1),
            sm,
        ),
{
    let t = int_entry_bytes(e.0, e.1) + rest;
    assert(t.len() == 28 + rest.len());
    assert(t.subrange(0, 4) =~= u32_le(INT_KEY_TYPE));
    assert(t.subrange(4, 12) =~= u64_le(e.1.0 as u64));
    assert(t.subrange(12, 20) =~= u64_le(e.1.1 as u64));
    assert(t.subrange(20, 28) =~= u64_le(e.0 as u64));
    lemma_u32_le_roundtrip(INT_KEY_TYPE);
    lemma_u64_le_roundtrip(e.1.0 as u64);
    lemma_u64_le_roundtrip(e.1.1 as u64);
    lemma_u64_le_roundtrip(e.0 as u64);
    lemma_i64_bits_roundtrip(e.0);
    assert(t.skip(28) =~= rest);
    assert((e.1.0 as u64) as usize == e.1.0);
    assert((e.1.1 as u64) as usize == e.1.1);
}

/// Parsing a trailer that starts with one string entry records that
/// entry and goes on with the rest.
proof fn lemma_parse_one_str(
    e: (Seq<char>, (usize, usize)),
    rest: Seq<u8>,
    data_end: int,
    im: Map<i64, (usize, usize)>,
    sm: Map<Seq<char>, (usize, usize)>,
)
    requires
        e.1.0 <= e.1.1 <= data_end,
        encode_utf8(e.0).len() <= MAX_OFFSET,
    ensures
        parse_trailer(str_entry_bytes(e.0, e.1) + rest, data_end, im, sm) == parse_trailer(
            rest,
            data_end,
            im,
            sm.insert(e.0, e.1),
        ),
{
    let kb = encode_utf8(e.0);
    let t = str_entry_bytes(e.0, e.1) + rest;
    assert(t.len() == 28 + kb.len() + rest.len());
    assert(t.subrange(0, 4) =~= u32_le(STR_KEY_TYPE));
    assert(t.subrange(4, 12) =~= u64_le(e.1.0 as u64));
    assert(t.subrange(12, 20) =~= u64_le(e.1.1 as u64));
    assert(t.subrange(20, 28) =~= u64_le(kb.len() as u64));
    lemma_u32_le_roundtrip(STR_KEY_TYPE);
    lemma_u32_le_roundtrip(INT_KEY_TYPE);
    lemma_u64_le_roundtrip(e.1.0 as u64);
    lemma_u64_le_roundtrip(e.1.1 as u64);
    lemma_u64_le_roundtrip(kb.len() as u64);
    assert(t.subrange(28, 28 + kb.len() as int) =~= kb);
    vstd::utf8::encode_utf8_valid_utf8(e.0);
    vstd::utf8::encode_utf8_decode_utf8(e.0);
    assert(t.skip(28 + kb.len() as int) =~= rest);
    assert((e.1.0 as u64) as usize == e.1.0);
    assert((e.1.1 as u64) as usize == e.1.1);
}

/// Parsing a run of integer entries folds them into the integer table.
proof fn lemma_parse_int_run(
    l: Seq<(i64, (usize, usize))>,
    rest: Seq<u8>,
    data_end: int,
    im: Map<i64, (usize, usize)>,
    sm: Map<Seq<char>, (usize, usize)>,
)
    requires
        int_entries_wf(l, data_end),
    ensures
        parse_trailer(int_trailer_bytes(l) + rest, data_end, im, sm) == parse_trailer(
            rest,
            data_end,
            int_index(im, l),
            sm,
        ),
    decreases l.len(),
{
    if l.len() == 0 {
        assert(int_trailer_bytes(l) + rest =~= rest);
    } else {
        let e = l[0];
        let tail = l.drop_first();
        assert(int_trailer_bytes(l) + rest =~= int_entry_bytes(e.0, e.1) + (int_trailer_bytes(
            tail,
        ) + rest));
        lemma_parse_one_int(e, int_trailer_bytes(tail) + rest, data_end, im, sm);
        assert(int_entries_wf(tail, data_end)) by {
            assert(forall|i: int| 0 <= i < tail.len() ==> #[trigger] tail[i] == l[i + 1]);
        }
        lemma_parse_int_run(tail, rest, data_end, im.insert(e.0, e.1), sm);
    }
}

/// Parsing a run of string entries folds them into the string table.
proof fn lemma_parse_str_run(
    l: Seq<(Seq<char>, (usize, usize))>,
    rest: Seq<u8>,
    data_end: int,
    im: Map<i64, (usize, usize)>,
    sm: Map<Seq<char>, (usize, usize)>,
)
    requires
        str_entries_wf(l, data_end),
    ensures
        parse_trailer(str_trailer_bytes(l) + rest, data_end, im, sm) == parse_trailer(
            rest,
            data_end,
            im,
            str_index(sm, l),
        ),
    decreases l.len(),
{
    if l.len() == 0 {
        assert(str_trailer_bytes(l) + rest =~= rest);
    } else {
        let e = l[0];
        let tail = l.drop_first();
        assert(str_trailer_bytes(l) + rest =~= str_entry_bytes(e.0, e.1) + (str_trailer_bytes(
            tail,
        ) + rest));
        lemma_parse_one_str(e, str_trailer_bytes(tail) + rest, data_end, im, sm);
        assert(str_entries_wf(tail, data_end)) by {
            assert(forall|i: int| 0 <= i < tail.len() ==> #[trigger] tail[i] == l[i + 1]);
        }
        lemma_parse_str_run(tail, rest, data_end, im, sm.insert(e.0, e.1));
    }
}

/// Law: opening the bytes that `file_bytes` describes succeeds, and the
/// two tables are exactly the last-write-wins maps of the entry lists.
/// The integer table comes from the integer entries alone and the string
/// table from the string entries alone, so the two key namespaces cannot
/// touch each other.
#[verifier::rlimit(50)]
pub proof fn lemma_open_file_bytes(
    data: Seq<u8>,
    ints: Seq<(i64, (usize, usize))>,
    strs: Seq<(Seq<char>, (usize, usize))>,
)
    requires
        data.len() <= MAX_OFFSET,
        int_entries_wf(ints, data.len() as int),
        str_entries_wf(strs, data.len() as int),
    ensures
        spec_open(file_bytes(data, ints, strs)) == Ok::<_, ReadError>(
            (
                int_index(Map::empty(), ints),
                str_index(Map::empty(), strs),
            ),
        ),
{
    let bytes = file_bytes(data, ints, strs);
    let dl = data.len() as int;
    let ti = int_trailer_bytes(ints);
    let ts = str_trailer_bytes(strs);
    assert(bytes.len() == dl + ti.len() + ts.len() + 8);
    assert(bytes.subrange(bytes.len() - 8, bytes.len() as int) =~= u64_le(data.len() as u64));
    lemma_u64_le_roundtrip(data.len() as u64);
    assert(bytes.subrange(dl, bytes.len() - 8) =~= ti + (ts + Seq::<u8>::empty()));
    lemma_parse_int_run(ints, ts + Seq::<u8>::empty(), dl, Map::empty(), Map::empty());
    lemma_parse_str_run(strs, Seq::empty(), dl, int_index(Map::empty(), ints), Map::empty());
    assert(ts + Seq::<u8>::empty() =~= ts);
    assert(parse_trailer(Seq::empty(), dl, int_index(Map::empty(), ints), str_index(Map::empty(), strs))
        == Ok::<_, ReadError>((int_index(Map::empty(), ints), str_index(Map::empty(), strs))));
}

/// Folding one more entry onto the integer table inserts it last.
pub proof fn lemma_int_index_snoc(
    m: Map<i64, (usize, usize)>,
    l: Seq<(i64, (usize, usize))>,
    p: (i64, (usize, usize)),
)
    ensures
        int_index(m, l.push(p)) == int_index(m, l).insert(p.0, p.1),
    decreases l.len(),
{
    if l.len() == 0 {
        assert(l.push(p)[0] == p);
        assert(l.push(p).drop_first() =~= Seq::<(i64, (usize, usize))>::empty());
        assert(int_index(m, l.push(p)) == int_index(
            m.insert(p.0, p.1),
            l.push(p).drop_first(),
        ));
        assert(int_index(m.insert(p.0, p.1), l.push(p).drop_first()) == m.insert(p.0, p.1));
    } else {
        assert(l.push(p)[0] == l[0]);
        assert(l.push(p).drop_first() =~= l.drop_first().push(p));
        assert(int_index(m, l.push(p)) == int_index(
            m.insert(l[0].0, l[0].1),
            l.drop_first().push(p),
        ));
        lemma_int_index_snoc(m.insert(l[0].0, l[0].1), l.drop_first(), p);
        assert(int_index(m, l) == int_index(m.insert(l[0].0, l[0].1), l.drop_first()));
    }
}

/// Folding one more entry onto the string table inserts it last.
pub proof fn lemma_str_index_snoc(
    m: Map<Seq<char>, (usize, usize)>,
    l: Seq<(Seq<char>, (usize, usize))>,
    p: (Seq<char>, (usize, usize)),
)
    ensures
        str_index(m, l.push(p)) == str_index(m, l).insert(p.0, p.1),
    decreases l.len(),
{
    if l.len() == 0 {
        assert(l.push(p)[0] == p);
        assert(l.push(p).drop_first() =~= Seq::<(Seq<char>, (usize, usize))>::empty());
        assert(str_index(m, l.push(p)) == str_index(
            m.insert(p.0, p.1),
            l.push(p).drop_first(),
        ));
        assert(str_index(m.insert(p.0, p.1), l.push(p).drop_first()) == m.insert(p.0, p.1));
    } else {
        assert(l.push(p)[0] == l[0]);
        assert(l.push(p).drop_first() =~= l.drop_first().push(p));
        assert(str_index(m, l.push(p)) == str_index(
            m.insert(l[0].0, l[0].1),
            l.drop_first().push(p),
        ));
        lemma_str_index_snoc(m.insert(l[0].0, l[0].1), l.drop_first(), p);
        assert(str_index(m, l) == str_index(m.insert(l[0].0, l[0].1), l.drop_first()));
    }
}

/// What the integer table holds at `k`: the range of the last entry
/// recorded for `k`, the starting table's value if no entry names `k`,
/// and nothing otherwise.
pub proof fn lemma_int_index_lookup(
    m: Map<i64, (usize, usize)>,
    l: Seq<(i64, (usize, usize))>,
    k: i64,
)
    ensures
        int_index(m, l).contains_key(k) <==> (m.contains_key(k) || exists|i: int|
            0 <= i < l.len() && (#[trigger] l[i]).0 == k),
        forall|j: int|
            (0 <= j < l.len() && (#[trigger] l[j]).0 == k && (forall|i: int|
                j < i < l.len() ==> (#[trigger] l[i]).0 != k)) ==> int_index(m, l)[k] == l[j].1,
        (forall|i: int| 0 <= i < l.len() ==> (#[trigger] l[i]).0 != k) && m.contains_key(k)
            ==> int_index(m, l)[k] == m[k],
    decreases l.len(),
{
    if l.len() == 0 {
    } else {
        let front = l.drop_last();
        let p = l.last();
        assert(l =~= front.push(p));
        lemma_int_index_snoc(m, front, p);
        lemma_int_index_lookup(m, front, k);
        assert(forall|i: int| 0 <= i < front.len() ==> #[trigger] front[i] == l[i]);
        if p.0 == k {
            assert(l[l.len() - 1].0 == k);
        } else {
            assert forall|i: int| 0 <= i < l.len() && (#[trigger] l[i]).0 == k implies 0 <= i
                < front.len() && front[i].0 == k by {
                assert(i != l.len() - 1);
            }
        }
    }
}

/// What the string table holds at `k`: as for the integer table.
pub proof fn lemma_str_index_lookup(
    m: Map<Seq<char>, (usize, usize)>,
    l: Seq<(Seq<char>, (usize, usize))>,
    k: Seq<char>,
)
    ensures
        str_index(m, l).contains_key(k) <==> (m.contains_key(k) || exists|i: int|
            0 <= i < l.len() && (#[trigger] l[i]).0 == k),
        forall|j: int|
            (0 <= j < l.len() && (#[trigger] l[j]).0 == k && (forall|i: int|
                j < i < l.len() ==> (#[trigger] l[i]).0 != k)) ==> str_index(m, l)[k] == l[j].1,
        (forall|i: int| 0 <= i < l.len() ==> (#[trigger] l[i]).0 != k) && m.contains_key(k)
            ==> str_index(m, l)[k] == m[k],
    decreases l.len(),
{
    if l.len() == 0 {
    } else {
        let front = l.drop_last();
        let p = l.last();
        assert(l =~= front.push(p));
        lemma_str_index_snoc(m, front, p);
        lemma_str_index_lookup(m, front, k);
        assert(forall|i: int| 0 <= i < front.len() ==> #[trigger] front[i] == l[i]);
        if p.0 == k {
            assert(l[l.len() - 1].0 == k);
        } else {
            assert forall|i: int| 0 <= i < l.len() && (#[trigger] l[i]).0 == k implies 0 <= i
                < front.len() && front[i].0 == k by {
                assert(i != l.len() - 1);
            }
        }
    }
}

/// Law: last write wins.  When entry `j` is the last one recorded for an
/// integer key, the table maps that key to entry `j`'s range.
pub proof fn lemma_last_write_wins_int(l: Seq<(i64, (usize, usize))>, k: i64, j: int)
    requires
        0 <= j < l.len(),
        l[j].0 == k,
        forall|i: int| j < i < l.len() ==> (#[trigger] l[i]).0 != k,
    ensures
        int_index(Map::empty(), l).contains_key(k),
        int_index(Map::empty(), l)[k] == l[j].1,
{
    lemma_int_index_lookup(Map::empty(), l, k);
}

/// Law: last write wins, for string keys.
pub proof fn lemma_last_write_wins_str(l: Seq<(Seq<char>, (usize, usize))>, k: Seq<char>, j: int)
    requires
        0 <= j < l.len(),
        l[j].0 == k,
        forall|i: int| j < i < l.len() ==> (#[trigger] l[i]).0 != k,
    ensures
        str_index(Map::empty(), l).contains_key(k),
        str_index(Map::empty(), l)[k] == l[j].1,
{
    lemma_str_index_lookup(Map::empty(), l, k);
}

/// Law: absence.  An integer key that no entry records is absent from
/// the table.
pub proof fn lemma_absent_int(l: Seq<(i64, (usize, usize))>, k: i64)
    requires
        forall|i: int| 0 <= i < l.len() ==> (#[trigger] l[i]).0 != k,
    ensures
        !int_index(Map::empty(), l).contains_key(k),
{
    lemma_int_index_lookup(Map::empty(), l, k);
}

/// Law: absence, for string keys.
pub proof fn lemma_absent_str(l: Seq<(Seq<char>, (usize, usize))>, k: Seq<char>)
    requires
        forall|i: int| 0 <= i < l.len() ==> (#[trigger] l[i]).0 != k,
    ensures
        !str_index(Map::empty(), l).contains_key(k),
{
    lemma_str_index_lookup(Map::empty(), l, k);
}

/// Law: round trip.  Build a file from well-formed entry lists; an
/// integer key whose last record is entry `j` opens to exactly the byte
/// range recorded there, hence to the value bytes appended for it.
pub proof fn lemma_round_trip_int(
    data: Seq<u8>,
    ints: Seq<(i64, (usize, usize))>,
    strs: Seq<(Seq<char>, (usize, usize))>,
    k: i64,
    j: int,
)
    requires
        data.len() <= MAX_OFFSET,
        int_entries_wf(ints, data.len() as int),
        str_entries_wf(strs, data.len() as int),
        0 <= j < ints.len(),
        ints[j].0 == k,
        forall|i: int| j < i < ints.len() ==> (#[trigger] ints[i]).0 != k,
    ensures
        spec_open(file_bytes(data, ints, strs)) matches Ok(m) && m.0.contains_key(k) && m.0[k]
            == ints[j].1,
        file_bytes(data, ints, strs).subrange(ints[j].1.0 as int, ints[j].1.1 as int)
            == data.subrange(ints[j].1.0 as int, ints[j].1.1 as int),
{
    lemma_open_file_bytes(data, ints, strs);
    lemma_last_write_wins_int(ints, k, j);
    assert(file_bytes(data, ints, strs).subrange(ints[j].1.0 as int, ints[j].1.1 as int)
        =~= data.subrange(ints[j].1.0 as int, ints[j].1.1 as int));
}

/// Law: round trip, for a string key whose last record is entry `j`.
pub proof fn lemma_round_trip_str(
    data: Seq<u8>,
    ints: Seq<(i64, (usize, usize))>,
    strs: Seq<(Seq<char>, (usize, usize))>,
    k: Seq<char>,
    j: int,
)
    requires
        data.len() <= MAX_OFFSET,
        int_entries_wf(ints, data.len() as int),
        str_entries_wf(strs, data.len() as int),
        0 <= j < strs.len(),
        strs[j].0 == k,
        forall|i: int| j < i < strs.len() ==> (#[trigger] strs[i]).0 != k,
    ensures
        spec_open(file_bytes(data, ints, strs)) matches Ok(m) && m.1.contains_key(k) && m.1[k]
            == strs[j].1,
        file_bytes(data, ints, strs).subrange(strs[j].1.0 as int, strs[j].1.1 as int)
            == data.subrange(strs[j].1.0 as int, strs[j].1.1 as int),
{
    lemma_open_file_bytes(data, ints, strs);
    lemma_last_write_wins_str(strs, k, j);
    assert(file_bytes(data, ints, strs).subrange(strs[j].1.0 as int, strs[j].1.1 as int)
        =~= data.subrange(strs[j].1.0 as int, strs[j].1.1 as int));
}

/// Law: namespace isolation.  The integer table of an opened file does
/// not depend on the string entries, and the string table does not
/// depend on the integer entries; an integer key and a string key whose
/// text spells the same digits are resolved in different tables.
pub proof fn lemma_namespace_isolation(
    data: Seq<u8>,
    ints_a: Seq<(i64, (usize, usize))>,
    ints_b: Seq<(i64, (usize, usize))>,
    strs_a: Seq<(Seq<char>, (usize, usize))>,
    strs_b: Seq<(Seq<char>, (usize, usize))>,
)
    requires
        data.len() <= MAX_OFFSET,
        int_entries_wf(ints_a, data.len() as int),
        int_entries_wf(ints_b, data.len() as int),
        str_entries_wf(strs_a, data.len() as int),
        str_entries_wf(strs_b, data.len() as int),
    ensures
        spec_open(file_bytes(data, ints_a, strs_a)) matches Ok(ma) && spec_open(
            file_bytes(data, ints_a, strs_b),
        ) matches Ok(mb) && ma.0 == mb.0,
        spec_open(file_bytes(data, ints_a, strs_a)) matches Ok(ma) && spec_open(
            file_bytes(data, ints_b, strs_a),
        ) matches Ok(mc) && ma.1 == mc.1,
{
    lemma_open_file_bytes(data, ints_a, strs_a);
    lemma_open_file_bytes(data, ints_a, strs_b);
    lemma_open_file_bytes(data, ints_b, strs_a);
}

/// Law: footer correctness.  The last eight bytes of a finished file
/// hold exactly the offset where the trailer begins: the data region's
/// length.
pub proof fn lemma_footer(
    data: Seq<u8>,
    ints: Seq<(i64, (usize, usize))>,
    strs: Seq<(Seq<char>, (usize, usize))>,
)
    requires
        data.len() <= MAX_OFFSET,
    ensures
        file_bytes(data, ints, strs).subrange(
            file_bytes(data, ints, strs).len() - 8,
            file_bytes(data, ints, strs).len() as int,
        ) == u64_le(data.len() as u64),
        u64_of_le(u64_le(data.len() as u64)) == data.len(),
{
    let bytes = file_bytes(data, ints, strs);
    assert(bytes.subrange(bytes.len() - 8, bytes.len() as int) =~= u64_le(data.len() as u64));
    lemma_u64_le_roundtrip(data.len() as u64);
}

} // verus!
