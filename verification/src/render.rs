use vstd::prelude::*;
use vstd::map::*;

use crate::{AggError, RecordError};
use crate::decode::{render_spec, render_temp};
use crate::extract::{entries_match, keys_sorted};
use crate::scan::{read_measurements, run_scan, MAX_INPUT_BYTES};
use crate::stats::{rounded_div, stats_wf, StationStats, StatsM};
use crate::text::{is_utf8, utf8_check};

verus! {

/// The `min/mean/max` text of one record, each with one fractional digit;
/// the mean is the rounded scaled division of the sum by the count.
pub open spec fn render_stats(st: StatsM) -> Seq<u8> {
    render_spec(st.min) + seq![47u8] + render_spec(rounded_div(st.sum, st.count as int))
        + seq![47u8] + render_spec(st.max)
}

/// One output entry: the key bytes, `=`, and the statistics text.
pub open spec fn render_entry(k: Seq<u8>, st: StatsM) -> Seq<u8> {
    k + seq![61u8] + render_stats(st)
}

/// The entries joined by `, ` in sequence order.
pub open spec fn render_entries(s: Seq<(Vec<u8>, StationStats)>) -> Seq<u8>
    decreases s.len(),
{
    if s.len() == 0 {
        Seq::<u8>::empty()
    } else if s.len() == 1 {
        render_entry(s[0].0@, s[0].1@)
    } else {
        render_entries(s.drop_last()) + seq![44u8, 32u8] + render_entry(s.last().0@, s.last().1@)
    }
}

/// The whole output line: the joined entries between braces.
pub open spec fn render_output(s: Seq<(Vec<u8>, StationStats)>) -> Seq<u8> {
    seq![123u8] + render_entries(s) + seq![125u8]
}

/// Appends a byte slice to the output buffer.
fn append_bytes(out: &mut Vec<u8>, s: &[u8])
    ensures
        final(out)@ == old(out)@ + s@,
{
    let mut i: usize = 0;
    while i < s.len()
        invariant
            i <= s@.len(),
            out@ == old(out)@ + s@.subrange(0, i as int),
        decreases s@.len() - i,
    {
        out.push(s[i]);
        proof {
            assert(out@ =~= old(out)@ + s@.subrange(0, i + 1));
        }
        i += 1;
    }
    proof {
        assert(out@ =~= old(out)@ + s@);
    }
}

/// Renders the sorted entries as the single output line
/// `{key1=min/mean/max, key2=min/mean/max, ...}`.
#[verifier::rlimit(100)]
pub fn format_results(entries: &Vec<(Vec<u8>, StationStats)>) -> (r: Vec<u8>)
    requires
        forall|t: int| 0 <= t < entries@.len() ==> stats_wf(#[trigger] entries@[t].1@),
    ensures
        r@ == render_output(entries@),
{
    let mut out: Vec<u8> = Vec::new();
    out.push(123);
    let mut t: usize = 0;
    while t < entries.len()
        invariant
            t <= entries@.len(),
            forall|q: int| 0 <= q < entries@.len() ==> stats_wf(#[trigger] entries@[q].1@),
            out@ == seq![123u8] + render_entries(entries@.subrange(0, t as int)),
        decreases entries@.len() - t,
    {
        let ghost done = entries@.subrange(0, t as int);
        if t > 0 {
            out.push(44);
            out.push(32);
        }
        let e = &entries[t];
        append_bytes(&mut out, e.0.as_slice());
        out.push(61);
        let mut piece = render_temp(e.1.min);
        out.append(&mut piece);
        out.push(47);
        let mean = e.1.mean_scaled();
        proof {
            assert(-0x8000_0000 <= mean <= 0x7fff_ffff);
        }
        let mut piece = render_temp(mean as i32);
        out.append(&mut piece);
        out.push(47);
        let mut piece = render_temp(e.1.max);
        out.append(&mut piece);
        proof {
            let next = entries@.subrange(0, t + 1);
            assert(next.drop_last() =~= done);
            assert(next.last() == entries@[t as int]);
            assert(render_spec(mean as i32 as int) == render_spec(mean as int));
            assert(out@ =~= seq![123u8] + render_entries(next));
        }
        t += 1;
    }
    out.push(125);
    proof {
        assert(entries@.subrange(0, entries@.len() as int) =~= entries@);
        assert(out@ =~= render_output(entries@));
    }
    out
}

/// Runs the whole pipeline on one input buffer: scan and aggregate every
/// record, validate each stored key as text, sort the distinct keys, and
/// render the output line.  The rendered entries are exactly the aggregation
/// result in strict ascending key order; a key that is not well-formed UTF-8
/// is reported as a decoding error instead of being printed raw.
pub fn summarize(data: &[u8]) -> (r: Result<Vec<u8>, RecordError>)
    requires
        data@.len() <= MAX_INPUT_BYTES,
    ensures
        match run_scan(data@, Map::<Seq<u8>, StatsM>::empty(), 1) {
            Ok(m) => match r {
                Ok(out) => (forall|k: Seq<u8>| #[trigger] m.contains_key(k) ==> is_utf8(k))
                    && exists|es: Seq<(Vec<u8>, StationStats)>|
                    #[trigger] keys_sorted(es) && entries_match(m, es) && out@ == render_output(
                        es,
                    ),
                Err(re) => re.kind == AggError::KeyNotText && exists|
                    es: Seq<(Vec<u8>, StationStats)>,
                |
                    #[trigger] keys_sorted(es) && entries_match(m, es) && 1 <= re.record
                        <= es.len() && !is_utf8(es[re.record - 1].0@) && forall|q: int|
                        0 <= q < re.record - 1 ==> is_utf8(#[trigger] es[q].0@),
            },
            Err(er) => match r {
                Ok(_) => false,
                Err(re) => re.kind == er.0 && re.record as int == er.1,
            },
        },
{
    match read_measurements(data) {
        Err(e) => Err(e),
        Ok(table) => {
            let entries = table.drain_sorted();
            proof {
                assert forall|t: int|
                    0 <= t < entries@.len() implies stats_wf(#[trigger] entries@[t].1@) by {
                    let k = entries@[t].0@;
                    assert(table.model().contains_key(k));
                    let j = table.slot_of(k);
                    assert(0 <= j < 65536 && table.occ(j) && table.key_at(j) == k);
                    assert(table.model()[k] == table.sm_at(j));
                }
            }
            let mut t: usize = 0;
            while t < entries.len()
                invariant
                    t <= entries@.len(),
                    run_scan(data@, Map::<Seq<u8>, StatsM>::empty(), 1) == Ok::<
                        Map<Seq<u8>, StatsM>,
                        (AggError, int),
                    >(table.model()),
                    keys_sorted(entries@),
                    entries_match(table.model(), entries@),
                    forall|q: int| 0 <= q < t ==> is_utf8(#[trigger] entries@[q].0@),
                decreases entries@.len() - t,
            {
                if !utf8_check(entries[t].0.as_slice()) {
                    proof {
                        let mm = run_scan(data@, Map::<Seq<u8>, StatsM>::empty(), 1)->Ok_0;
                        assert(mm == table.model());
                        assert(keys_sorted(entries@) && entries_match(mm, entries@));
                        assert(!is_utf8(entries@[t as int].0@));
                    }
                    return Err(RecordError { kind: AggError::KeyNotText, record: (t as u64) + 1 });
                }
                t += 1;
            }
            proof {
                assert forall|k: Seq<u8>| #[trigger]
                    table.model().contains_key(k) implies is_utf8(k) by {
                    let q = choose|q: int|
                        0 <= q < entries@.len() && #[trigger] entries@[q].0@ == k;
                    assert(is_utf8(entries@[q].0@));
                }
            }
            let out = format_results(&entries);
            proof {
                assert(keys_sorted(entries@) && entries_match(table.model(), entries@) && out@
                    == render_output(entries@));
            }
            Ok(out)
        },
    }
}

} // verus!
