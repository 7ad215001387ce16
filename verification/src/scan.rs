use vstd::prelude::*;
use vstd::map::*;
use vstd::slice::slice_subrange;

use crate::{AggError, RecordError};
use crate::decode::{decode_spec, parse_temp};
use crate::stats::{StatsM, stats_init, stats_upd};
use crate::table::{model_get, upd_map, StationTable};

verus! {

/// Largest input the scanner accepts: keeps every per-key sum exact in the
/// 64-bit accumulator, since each record occupies at least five bytes.
pub const MAX_INPUT_BYTES: usize = 0xFFFF_FFFE;

/// Index of the first occurrence of `c` in `s`, if any.
pub open spec fn find_byte(s: Seq<u8>, c: u8) -> Option<int>
    decreases s.len(),
{
    if s.len() == 0 {
        None
    } else if s[0] == c {
        Some(0)
    } else {
        match find_byte(s.drop_first(), c) {
            Some(i) => Some(i + 1),
            None => None,
        }
    }
}

pub proof fn lemma_find_byte(s: Seq<u8>, c: u8)
    ensures
        match find_byte(s, c) {
            Some(i) => 0 <= i < s.len() && s[i] == c && forall|j: int| 0 <= j < i ==> s[j] != c,
            None => forall|j: int| 0 <= j < s.len() ==> s[j] != c,
        },
    decreases s.len(),
{
    if s.len() > 0 && s[0] != c {
        let t = s.drop_first();
        lemma_find_byte(t, c);
        assert(forall|j: int| 0 <= j < t.len() ==> #[trigger] t[j] == s[j + 1]);
        match find_byte(t, c) {
            Some(i) => {
                assert(s[i + 1] == c);
                assert forall|j: int| 0 <= j < i + 1 implies s[j] != c by {
                    if j > 0 {
                        assert(t[j - 1] != c);
                    }
                }
            },
            None => {
                assert forall|j: int| 0 <= j < s.len() implies s[j] != c by {
                    if j > 0 {
                        assert(t[j - 1] != c);
                    }
                }
            },
        }
    }
}

/// A first-occurrence witness pins `find_byte` down.
pub proof fn lemma_find_byte_some(s: Seq<u8>, c: u8, i: int)
    requires
        0 <= i < s.len(),
        s[i] == c,
        forall|j: int| 0 <= j < i ==> s[j] != c,
    ensures
        find_byte(s, c) == Some(i),
{
    lemma_find_byte(s, c);
    match find_byte(s, c) {
        Some(k) => {
            if k < i {
                assert(s[k] != c);
            } else if i < k {
                assert(s[i] != c);
            }
        },
        None => {
            assert(s[i] != c);
        },
    }
}

pub proof fn lemma_find_byte_none(s: Seq<u8>, c: u8)
    requires
        forall|j: int| 0 <= j < s.len() ==> s[j] != c,
    ensures
        find_byte(s, c) == None::<int>,
{
    lemma_find_byte(s, c);
    match find_byte(s, c) {
        Some(k) => {
            assert(s[k] != c);
        },
        None => {},
    }
}

/// Relies on memchr::memchr: returns the index of the first occurrence of
/// `needle` in `hay`, or nothing when `needle` does not occur.
#[verifier::external_body]
fn find_first(needle: u8, hay: &[u8]) -> (r: Option<usize>)
    ensures
        match r {
            Some(i) => i < hay@.len() && hay@[i as int] == needle && forall|j: int|
                0 <= j < i ==> hay@[j] != needle,
            None => forall|j: int| 0 <= j < hay@.len() ==> hay@[j] != needle,
        },
{
    memchr::memchr(needle, hay)
}

/// One record split off the front of a non-empty input: the key bytes and
/// decoded scaled value, together with the input that remains.  The key ends
/// at the first `;`; the record ends at the first line feed after it, or at
/// the end of the input; one carriage return directly before the terminator
/// is not part of the value.  The separator search runs past line breaks, so
/// a line without `;` merges into the following record's key, as in the
/// reference scanner; only a remainder with no separator at all is
/// malformed.
pub open spec fn next_record(s: Seq<u8>) -> Result<((Seq<u8>, int), Seq<u8>), AggError>
    recommends
        s.len() > 0,
{
    match find_byte(s, 59) {
        None => Err(AggError::MalformedRecord),
        Some(semi) => {
            let end = match find_byte(s.subrange(semi + 1, s.len() as int), 10) {
                Some(i) => semi + 1 + i,
                None => s.len() as int,
            };
            let raw = s.subrange(semi + 1, end);
            let vb = if raw.len() > 0 && raw.last() == 13 {
                raw.drop_last()
            } else {
                raw
            };
            let rest = if end == s.len() {
                Seq::<u8>::empty()
            } else {
                s.subrange(end + 1, s.len() as int)
            };
            match decode_spec(vb) {
                None => Err(AggError::MalformedRecord),
                Some(v) => if semi == 0 {
                    Err(AggError::MalformedRecord)
                } else if semi > 100 {
                    Err(AggError::KeyTooLong)
                } else {
                    Ok(((s.subrange(0, semi), v), rest))
                },
            }
        },
    }
}

/// The outcome of scanning a whole input on top of the aggregates in `m`,
/// whose first record is the `rec`-th of the run: the final aggregation map,
/// or the first error in record order together with the ordinal of the
/// record that caused it.  A record with a new key fails when the
/// closed-capacity table is already full.
pub open spec fn run_scan(s: Seq<u8>, m: Map<Seq<u8>, StatsM>, rec: int) -> Result<
    Map<Seq<u8>, StatsM>,
    (AggError, int),
>
    decreases s.len(),
{
    if s.len() == 0 {
        Ok(m)
    } else {
        match next_record(s) {
            Err(e) => Err((e, rec)),
            Ok(((k, v), rest)) => if !m.contains_key(k) && m.dom().len() >= 65536 {
                Err((AggError::TableFull, rec))
            } else if rest.len() < s.len() {
                run_scan(rest, upd_map(m, k, v), rec + 1)
            } else {
                Err((AggError::MalformedRecord, rec))
            },
        }
    }
}

/// The input that remains once `pos` bytes are consumed.
pub open spec fn suffix_at(s: Seq<u8>, pos: int) -> Seq<u8> {
    if 0 <= pos <= s.len() {
        s.subrange(pos, s.len() as int)
    } else {
        Seq::<u8>::empty()
    }
}

/// Unfolds `next_record` on a suffix whose delimiter positions are known.
proof fn lemma_next_step(
    sfx: Seq<u8>,
    si: int,
    end_s: int,
    key: Seq<u8>,
    vb: Seq<u8>,
    rest: Seq<u8>,
)
    requires
        sfx.len() > 0,
        find_byte(sfx, 59) == Some(si),
        end_s == match find_byte(sfx.subrange(si + 1, sfx.len() as int), 10) {
            Some(j) => si + 1 + j,
            None => sfx.len() as int,
        },
        key == sfx.subrange(0, si),
        vb == ({
            let raw = sfx.subrange(si + 1, end_s);
            if raw.len() > 0 && raw.last() == 13 {
                raw.drop_last()
            } else {
                raw
            }
        }),
        rest == if end_s == sfx.len() {
            Seq::<u8>::empty()
        } else {
            sfx.subrange(end_s + 1, sfx.len() as int)
        },
    ensures
        0 <= si < sfx.len(),
        si + 1 <= end_s <= sfx.len(),
        rest.len() < sfx.len(),
        next_record(sfx) == match decode_spec(vb) {
            None => Err::<((Seq<u8>, int), Seq<u8>), AggError>(AggError::MalformedRecord),
            Some(v) => if si == 0 {
                Err(AggError::MalformedRecord)
            } else if si > 100 {
                Err(AggError::KeyTooLong)
            } else {
                Ok(((key, v), rest))
            },
        },
{
    lemma_find_byte(sfx, 59);
    lemma_find_byte(sfx.subrange(si + 1, sfx.len() as int), 10);
}

/// Consumes one record starting at `pos`: decodes it, folds it into the
/// table, and returns the position just past the record's terminator.
#[verifier::rlimit(100)]
fn scan_step(
    table: &mut StationTable,
    data: &[u8],
    pos: usize,
    recno: u64,
    Ghost(nrec): Ghost<int>,
) -> (r: Result<usize, AggError>)
    requires
        data@.len() <= MAX_INPUT_BYTES,
        pos < data@.len(),
        old(table).wf(),
        0 <= nrec,
        5 * nrec <= pos,
        recno as int == nrec + 1,
        forall|k: Seq<u8>| #[trigger]
            old(table).model().contains_key(k) ==> old(table).model()[k].count <= nrec,
    ensures
        final(table).wf(),
        match r {
            Ok(newpos) => pos + 5 <= newpos <= data@.len() + 1 && run_scan(
                suffix_at(data@, pos as int),
                old(table).model(),
                recno as int,
            ) == run_scan(
                suffix_at(data@, newpos as int),
                final(table).model(),
                recno as int + 1,
            ) && forall|k: Seq<u8>| #[trigger]
                final(table).model().contains_key(k) ==> final(table).model()[k].count <= nrec
                    + 1,
            Err(e) => run_scan(suffix_at(data@, pos as int), old(table).model(), recno as int)
                == Err::<Map<Seq<u8>, StatsM>, (AggError, int)>((e, recno as int)),
        },
{
    let ghost whole = data@;
    let ghost sfx = suffix_at(whole, pos as int);
    proof {
        assert(sfx.len() == whole.len() - pos);
    }
    let tail = slice_subrange(data, pos, data.len());
    let semi: usize = match find_first(59, tail) {
        None => {
            proof {
                lemma_find_byte_none(sfx, 59);
            }
            return Err(AggError::MalformedRecord);
        },
        Some(i) => {
            proof {
                lemma_find_byte_some(sfx, 59, i as int);
            }
            pos + i
        },
    };
    let ghost si = semi - pos;
    let after_tail = slice_subrange(data, semi + 1, data.len());
    let ghost sub2 = sfx.subrange(si + 1, sfx.len() as int);
    proof {
        assert(sub2 =~= whole.subrange(semi + 1, whole.len() as int));
    }
    let end: usize = match find_first(10, after_tail) {
        None => {
            proof {
                lemma_find_byte_none(sub2, 10);
            }
            data.len()
        },
        Some(i) => {
            proof {
                lemma_find_byte_some(sub2, 10, i as int);
            }
            semi + 1 + i
        },
    };
    let ghost end_s = end - pos;
    let vend: usize = if end > semi + 1 && data[end - 1] == 13 {
        end - 1
    } else {
        end
    };
    let ghost raw = sfx.subrange(si + 1, end_s);
    let ghost vb = if raw.len() > 0 && raw.last() == 13 {
        raw.drop_last()
    } else {
        raw
    };
    let ghost key = sfx.subrange(0, si);
    let ghost rest = if end_s == sfx.len() {
        Seq::<u8>::empty()
    } else {
        sfx.subrange(end_s + 1, sfx.len() as int)
    };
    proof {
        assert(raw =~= whole.subrange(semi + 1, end as int));
        if raw.len() > 0 {
            assert(raw.last() == whole[end - 1]);
        }
        assert(vb =~= whole.subrange(semi + 1, vend as int));
        assert(rest =~= suffix_at(whole, end + 1));
        lemma_next_step(sfx, si, end_s, key, vb, rest);
    }
    let value_slice = slice_subrange(data, semi + 1, vend);
    let v: i32 = match parse_temp(value_slice) {
        Err(e) => {
            proof {
                assert(decode_spec(vb) == None::<int>);
            }
            return Err(AggError::MalformedRecord);
        },
        Ok(v) => v,
    };
    proof {
        assert(decode_spec(vb) == Some(v as int));
    }
    if semi == pos {
        return Err(AggError::MalformedRecord);
    }
    let key_slice = slice_subrange(data, pos, semi);
    proof {
        assert(key =~= whole.subrange(pos as int, semi as int));
        assert(key_slice@ == key);
        assert(nrec < 0x4000_0000);
    }
    let ghost m_before = table.model();
    match table.lookup_or_insert(key_slice, v) {
        Err(e) => {
            proof {
                if e == AggError::KeyTooLong {
                    assert(si > 100);
                } else {
                    assert(e == AggError::TableFull);
                    assert(run_scan(sfx, m_before, recno as int) == Err::<
                        Map<Seq<u8>, StatsM>,
                        (AggError, int),
                    >((AggError::TableFull, recno as int)));
                }
            }
            return Err(e);
        },
        Ok(()) => {},
    }
    proof {
        assert(table.model() == upd_map(m_before, key, v as int));
        assert(!(!m_before.contains_key(key) && m_before.dom().len() >= 65536));
        assert(run_scan(sfx, m_before, recno as int) == run_scan(
            rest,
            table.model(),
            recno as int + 1,
        ));
        assert(vb.len() >= 3);
        assert(end >= pos + 5);
        assert forall|k2: Seq<u8>| #[trigger]
            table.model().contains_key(k2) implies table.model()[k2].count <= nrec + 1 by {
            if k2 == key {
                assert(table.model()[k2] == stats_upd(model_get(m_before, key), v as int));
                if m_before.contains_key(key) {
                    assert(m_before[key].count <= nrec);
                } else {
                    assert(model_get(m_before, key) == stats_init());
                }
            } else {
                assert(m_before.contains_key(k2));
                assert(table.model()[k2] == m_before[k2]);
            }
        }
    }
    Ok(end + 1)
}

/// Scans the whole input, decoding each record and folding it into a fresh
/// table.  The first malformed record, over-long key, or capacity overflow
/// aborts the scan with that error and the offending record's ordinal.
pub fn read_measurements(data: &[u8]) -> (r: Result<StationTable, RecordError>)
    requires
        data@.len() <= MAX_INPUT_BYTES,
    ensures
        match r {
            Ok(t) => t.wf() && run_scan(data@, Map::<Seq<u8>, StatsM>::empty(), 1) == Ok::<
                Map<Seq<u8>, StatsM>,
                (AggError, int),
            >(t.model()),
            Err(re) => run_scan(data@, Map::<Seq<u8>, StatsM>::empty(), 1) == Err::<
                Map<Seq<u8>, StatsM>,
                (AggError, int),
            >((re.kind, re.record as int)),
        },
{
    let mut table = StationTable::new();
    let mut pos: usize = 0;
    let mut recno: u64 = 1;
    let ghost mut nrec: int = 0int;
    let ghost whole = data@;
    let ghost m0 = Map::<Seq<u8>, StatsM>::empty();
    proof {
        assert(suffix_at(whole, 0) =~= whole);
    }
    while pos < data.len()
        invariant
            whole == data@,
            whole.len() <= MAX_INPUT_BYTES,
            m0 == Map::<Seq<u8>, StatsM>::empty(),
            pos <= whole.len() + 1,
            table.wf(),
            run_scan(whole, m0, 1) == run_scan(
                suffix_at(whole, pos as int),
                table.model(),
                recno as int,
            ),
            0 <= nrec,
            5 * nrec <= pos,
            recno as int == nrec + 1,
            forall|k: Seq<u8>| #[trigger]
                table.model().contains_key(k) ==> table.model()[k].count <= nrec,
        decreases whole.len() + 1 - pos,
    {
        match scan_step(&mut table, data, pos, recno, Ghost(nrec)) {
            Err(e) => {
                return Err(RecordError { kind: e, record: recno });
            },
            Ok(newpos) => {
                pos = newpos;
                recno = recno + 1;
                proof {
                    nrec = nrec + 1;
                }
            },
        }
    }
    proof {
        assert(suffix_at(whole, pos as int) =~= Seq::<u8>::empty());
        assert(run_scan(suffix_at(whole, pos as int), table.model(), recno as int) == Ok::<
            Map<Seq<u8>, StatsM>,
            (AggError, int),
        >(table.model()));
    }
    Ok(table)
}

} // verus!
