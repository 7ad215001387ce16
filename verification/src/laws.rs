use vstd::prelude::*;
use vstd::map::*;
use vstd::seq_lib::{commutative_foldl, lemma_fold_left_permutation};

use crate::extract::{entries_match, keys_sorted, lemma_lex_trichotomy, lex_less};
use crate::scan::{next_record, run_scan};
use crate::stats::{stats_init, stats_upd, StatsM};
use crate::table::{model_get, upd_map};
use crate::AggError;

verus! {

/// The reference aggregation: fold the records, in order, into a map from
/// key to statistics, exactly as an association list would.
pub open spec fn agg_step() -> spec_fn(Map<Seq<u8>, StatsM>, (Seq<u8>, int)) -> Map<
    Seq<u8>,
    StatsM,
> {
    |m: Map<Seq<u8>, StatsM>, r: (Seq<u8>, int)| upd_map(m, r.0, r.1)
}

pub open spec fn aggregate(recs: Seq<(Seq<u8>, int)>) -> Map<Seq<u8>, StatsM> {
    recs.fold_left(Map::<Seq<u8>, StatsM>::empty(), agg_step())
}

/// How many records carry key `k`.
pub open spec fn key_count(recs: Seq<(Seq<u8>, int)>, k: Seq<u8>) -> nat
    decreases recs.len(),
{
    if recs.len() == 0 {
        0
    } else {
        key_count(recs.drop_last(), k) + if recs.last().0 == k {
            1nat
        } else {
            0nat
        }
    }
}

/// The sum of the values of the records carrying key `k`.
pub open spec fn key_sum(recs: Seq<(Seq<u8>, int)>, k: Seq<u8>) -> int
    decreases recs.len(),
{
    if recs.len() == 0 {
        0
    } else {
        key_sum(recs.drop_last(), k) + if recs.last().0 == k {
            recs.last().1
        } else {
            0int
        }
    }
}

proof fn lemma_key_count_pos(recs: Seq<(Seq<u8>, int)>, i: int)
    requires
        0 <= i < recs.len(),
    ensures
        key_count(recs, recs[i].0) > 0,
    decreases recs.len(),
{
    if i == recs.len() - 1 {
        assert(recs.last().0 == recs[i].0);
    } else {
        lemma_key_count_pos(recs.drop_last(), i);
        assert(recs.drop_last()[i] == recs[i]);
    }
}

/// The aggregation result is exact for every key: the keys of the result are
/// exactly the keys that occur; each key's count is the number of its
/// records and its sum is the exact sum of their values; and its minimum and
/// maximum bracket every one of its values.
pub proof fn lemma_aggregate_correct(recs: Seq<(Seq<u8>, int)>)
    requires
        forall|i: int| 0 <= i < recs.len() ==> -0x8000_0000 <= (#[trigger] recs[i]).1
            <= 0x7fff_ffff,
    ensures
        forall|k: Seq<u8>| #![trigger key_count(recs, k)]
            aggregate(recs).contains_key(k) <==> key_count(recs, k) > 0,
        forall|k: Seq<u8>| #![trigger key_count(recs, k)]
            aggregate(recs).contains_key(k) ==> aggregate(recs)[k].count == key_count(recs, k)
                && aggregate(recs)[k].sum == key_sum(recs, k),
        forall|i: int|
            0 <= i < recs.len() ==> aggregate(recs)[(#[trigger] recs[i]).0].min <= recs[i].1
                <= aggregate(recs)[recs[i].0].max,
    decreases recs.len(),
{
    if recs.len() > 0 {
        let pre = recs.drop_last();
        assert(forall|i: int| 0 <= i < pre.len() ==> #[trigger] pre[i] == recs[i]);
        lemma_aggregate_correct(pre);
        let k0 = recs.last().0;
        let v0 = recs.last().1;
        assert(aggregate(recs) == upd_map(aggregate(pre), k0, v0));
        assert(aggregate(recs)[k0] == stats_upd(model_get(aggregate(pre), k0), v0));
        assert forall|k: Seq<u8>| #![trigger key_count(recs, k)]
            aggregate(recs).contains_key(k) <==> key_count(recs, k) > 0 by {
            if k != k0 {
                assert(key_count(recs, k) == key_count(pre, k));
                assert(aggregate(recs).contains_key(k) == aggregate(pre).contains_key(k));
            }
        }
        assert forall|k: Seq<u8>| #![trigger key_count(recs, k)]
            aggregate(recs).contains_key(k) implies aggregate(recs)[k].count == key_count(
            recs,
            k,
        ) && aggregate(recs)[k].sum == key_sum(recs, k) by {
            if k == k0 {
                assert(key_count(recs, k0) == key_count(pre, k0) + 1);
                assert(key_sum(recs, k0) == key_sum(pre, k0) + v0);
                if aggregate(pre).contains_key(k0) {
                    assert(model_get(aggregate(pre), k0) == aggregate(pre)[k0]);
                    assert(aggregate(pre)[k0].count == key_count(pre, k0));
                    assert(aggregate(pre)[k0].sum == key_sum(pre, k0));
                } else {
                    assert(model_get(aggregate(pre), k0) == stats_init());
                    assert(key_count(pre, k0) == 0);
                    assert(key_sum(pre, k0) == 0) by {
                        lemma_key_sum_zero(pre, k0);
                    }
                }
            } else {
                assert(key_count(recs, k) == key_count(pre, k));
                assert(key_sum(recs, k) == key_sum(pre, k));
                assert(aggregate(pre).contains_key(k));
                assert(aggregate(recs)[k] == aggregate(pre)[k]);
                assert(aggregate(pre)[k].count == key_count(pre, k));
                assert(aggregate(pre)[k].sum == key_sum(pre, k));
            }
        }
        assert forall|i: int|
            0 <= i < recs.len() implies aggregate(recs)[(#[trigger] recs[i]).0].min <= recs[i].1
            <= aggregate(recs)[recs[i].0].max by {
            let k = recs[i].0;
            if i == recs.len() - 1 {
                if aggregate(pre).contains_key(k0) {
                } else {
                    assert(model_get(aggregate(pre), k0) == stats_init());
                }
            } else {
                if k == k0 {
                    lemma_key_count_pos(pre, i);
                    assert(aggregate(pre).contains_key(k));
                    assert(aggregate(pre)[k].min <= pre[i].1 <= aggregate(pre)[k].max);
                    assert(model_get(aggregate(pre), k0) == aggregate(pre)[k0]);
                } else {
                    assert(aggregate(recs)[k] == aggregate(pre)[k]);
                    assert(aggregate(pre)[k].min <= pre[i].1 <= aggregate(pre)[k].max);
                }
            }
        }
    }
}

proof fn lemma_key_sum_zero(recs: Seq<(Seq<u8>, int)>, k: Seq<u8>)
    requires
        key_count(recs, k) == 0,
    ensures
        key_sum(recs, k) == 0,
    decreases recs.len(),
{
    if recs.len() > 0 {
        lemma_key_sum_zero(recs.drop_last(), k);
    }
}

/// Folding one record commutes with folding another: the aggregation is an
/// associative, commutative reduction over the record multiset.
proof fn lemma_agg_step_commutes()
    ensures
        commutative_foldl(agg_step()),
{
    assert forall|x: (Seq<u8>, int), y: (Seq<u8>, int), m: Map<Seq<u8>, StatsM>| #[trigger]
        agg_step()(agg_step()(m, x), y) == agg_step()(agg_step()(m, y), x) by {
        let a = agg_step()(agg_step()(m, x), y);
        let b = agg_step()(agg_step()(m, y), x);
        if x.0 == y.0 {
            assert(stats_upd(stats_upd(model_get(m, x.0), x.1), y.1) == stats_upd(
                stats_upd(model_get(m, x.0), y.1),
                x.1,
            ));
            assert(a =~= b);
        } else {
            assert(a =~= b);
        }
    }
}

/// Aggregating any permutation of the records gives the same result: the
/// outcome does not depend on record arrival order.
pub proof fn lemma_aggregate_permutation(r1: Seq<(Seq<u8>, int)>, r2: Seq<(Seq<u8>, int)>)
    requires
        r1.to_multiset() == r2.to_multiset(),
    ensures
        aggregate(r1) == aggregate(r2),
{
    lemma_agg_step_commutes();
    lemma_fold_left_permutation(r1, r2, agg_step(), Map::<Seq<u8>, StatsM>::empty());
}

/// The records of an input, in input order, when every record is well
/// formed; the first error otherwise.
pub open spec fn parse_records(s: Seq<u8>) -> Result<Seq<(Seq<u8>, int)>, AggError>
    decreases s.len(),
{
    if s.len() == 0 {
        Ok(Seq::<(Seq<u8>, int)>::empty())
    } else {
        match next_record(s) {
            Err(e) => Err(e),
            Ok((rec, rest)) => if rest.len() < s.len() {
                match parse_records(rest) {
                    Ok(rs) => Ok(seq![rec] + rs),
                    Err(e) => Err(e),
                }
            } else {
                Err(AggError::MalformedRecord)
            },
        }
    }
}

/// A successful scan computes exactly the reference aggregation of the
/// input's records, starting from the aggregates already in `m0`, whatever
/// ordinal its first record carries.
pub proof fn lemma_run_scan_aggregate(s: Seq<u8>, m0: Map<Seq<u8>, StatsM>, rec: int)
    ensures
        match run_scan(s, m0, rec) {
            Ok(m) => parse_records(s) matches Ok(recs) && m == recs.fold_left(m0, agg_step()),
            Err(_) => true,
        },
    decreases s.len(),
{
    if s.len() > 0 {
        match next_record(s) {
            Err(_) => {},
            Ok((rec0, rest)) => {
                if !(!m0.contains_key(rec0.0) && m0.dom().len() >= 65536) && rest.len()
                    < s.len() {
                    let m1 = upd_map(m0, rec0.0, rec0.1);
                    lemma_run_scan_aggregate(rest, m1, rec + 1);
                    match run_scan(rest, m1, rec + 1) {
                        Ok(m) => {
                            let rs = parse_records(rest)->Ok_0;
                            let recs = seq![rec0] + rs;
                            assert(parse_records(s) == Ok::<Seq<(Seq<u8>, int)>, AggError>(recs));
                            assert(recs.fold_left(m0, agg_step()) == rs.fold_left(
                                m1,
                                agg_step(),
                            )) by {
                                recs.lemma_fold_left_alt(m0, agg_step());
                                assert(recs.subrange(1, recs.len() as int) =~= rs);
                                assert(recs[0] == rec0);
                                assert(agg_step()(m0, rec0) == m1);
                                rs.lemma_fold_left_alt(m1, agg_step());
                            }
                        },
                        Err(_) => {},
                    }
                }
            },
        }
    }
}

/// Two strictly sorted entry sequences with the same contents agree key by
/// key on a shared prefix.
proof fn lemma_sorted_match_prefix(
    m: Map<Seq<u8>, StatsM>,
    es1: Seq<(Vec<u8>, crate::stats::StationStats)>,
    es2: Seq<(Vec<u8>, crate::stats::StationStats)>,
    t: int,
)
    requires
        keys_sorted(es1),
        entries_match(m, es1),
        keys_sorted(es2),
        entries_match(m, es2),
        0 <= t <= es1.len(),
        t <= es2.len(),
    ensures
        forall|q: int| 0 <= q < t ==> #[trigger] es1[q].0@ == es2[q].0@,
    decreases t,
{
    if t > 0 {
        lemma_sorted_match_prefix(m, es1, es2, t - 1);
        let k1 = es1[t - 1].0@;
        let k2 = es2[t - 1].0@;
        assert(m.contains_key(k1));
        assert(m.contains_key(k2));
        let u1 = choose|u: int| 0 <= u < es2.len() && #[trigger] es2[u].0@ == k1;
        let u2 = choose|u: int| 0 <= u < es1.len() && #[trigger] es1[u].0@ == k2;
        if u1 < t - 1 {
            assert(es1[u1].0@ == es2[u1].0@);
            assert(es1[u1].0@ != es1[t - 1].0@);
            assert(false);
        }
        if u2 < t - 1 {
            assert(es2[u2].0@ == es1[u2].0@);
            assert(es2[u2].0@ != es2[t - 1].0@);
            assert(false);
        }
        if u1 > t - 1 {
            assert(lex_less(k2, es2[u1].0@));
        }
        if u2 > t - 1 {
            assert(lex_less(k1, es1[u2].0@));
        }
        if k1 != k2 {
            assert(lex_less(k2, k1) && lex_less(k1, k2));
            lemma_lex_trichotomy(k1, k2);
        }
    }
}

/// The sorted output is unique: any two strictly sorted entry sequences that
/// carry the same aggregation map are equal entry by entry.  Together with
/// order-independence of the aggregation, repeated runs over reordered
/// records print the same line.
pub proof fn lemma_sorted_output_unique(
    m: Map<Seq<u8>, StatsM>,
    es1: Seq<(Vec<u8>, crate::stats::StationStats)>,
    es2: Seq<(Vec<u8>, crate::stats::StationStats)>,
)
    requires
        keys_sorted(es1),
        entries_match(m, es1),
        keys_sorted(es2),
        entries_match(m, es2),
    ensures
        es1.len() == es2.len(),
        forall|t: int|
            0 <= t < es1.len() ==> #[trigger] es1[t].0@ == es2[t].0@ && es1[t].1@ == es2[t].1@,
{
    if es1.len() < es2.len() {
        lemma_sorted_match_prefix(m, es1, es2, es1.len() as int);
        let k = es2[es1.len() as int].0@;
        assert(m.contains_key(k));
        let t = choose|t: int| 0 <= t < es1.len() && #[trigger] es1[t].0@ == k;
        assert(es2[t].0@ == es1[t].0@);
        assert(es2[t].0@ != es2[es1.len() as int].0@);
        assert(false);
    }
    if es2.len() < es1.len() {
        lemma_sorted_match_prefix(m, es2, es1, es2.len() as int);
        let k = es1[es2.len() as int].0@;
        assert(m.contains_key(k));
        let t = choose|t: int| 0 <= t < es2.len() && #[trigger] es2[t].0@ == k;
        assert(es1[t].0@ == es2[t].0@);
        assert(es1[t].0@ != es1[es2.len() as int].0@);
        assert(false);
    }
    lemma_sorted_match_prefix(m, es1, es2, es1.len() as int);
    assert forall|t: int|
        0 <= t < es1.len() implies #[trigger] es1[t].0@ == es2[t].0@ && es1[t].1@
        == es2[t].1@ by {
        assert(m.contains_key(es1[t].0@));
        assert(es1[t].1@ == m[es1[t].0@]);
        assert(es2[t].1@ == m[es2[t].0@]);
    }
}

} // verus!
