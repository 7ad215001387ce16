use vstd::prelude::*;
use vstd::map::*;
use vstd::slice::slice_to_vec;

use crate::stats::{StationStats, StatsM};
use crate::table::StationTable;

verus! {

/// Byte-lexicographic strict order, decided from position `i` onward after
/// an equal shared prefix.
pub open spec fn lex_less_from(a: Seq<u8>, b: Seq<u8>, i: int) -> bool
    recommends
        0 <= i,
    decreases b.len() - i,
{
    if i >= b.len() {
        false
    } else if i >= a.len() {
        true
    } else if a[i] < b[i] {
        true
    } else if a[i] > b[i] {
        false
    } else {
        lex_less_from(a, b, i + 1)
    }
}

/// Strict byte-lexicographic order on byte strings.
pub open spec fn lex_less(a: Seq<u8>, b: Seq<u8>) -> bool {
    lex_less_from(a, b, 0)
}

proof fn lemma_lex_from_trichotomy(a: Seq<u8>, b: Seq<u8>, i: int)
    requires
        0 <= i <= a.len(),
        i <= b.len(),
    ensures
        lex_less_from(a, b, i) || lex_less_from(b, a, i) || (a.len() == b.len() && forall|j: int|
            i <= j < a.len() ==> a[j] == b[j]),
        !(lex_less_from(a, b, i) && lex_less_from(b, a, i)),
    decreases b.len() + a.len() - 2 * i,
{
    if i < a.len() && i < b.len() && a[i] == b[i] {
        lemma_lex_from_trichotomy(a, b, i + 1);
    }
}

/// Exactly one of `a < b`, `b < a`, `a == b` holds: the order is total.
pub proof fn lemma_lex_trichotomy(a: Seq<u8>, b: Seq<u8>)
    ensures
        lex_less(a, b) || lex_less(b, a) || a == b,
        !(lex_less(a, b) && lex_less(b, a)),
        lex_less(a, b) ==> a != b,
{
    lemma_lex_from_trichotomy(a, b, 0);
    if !lex_less(a, b) && !lex_less(b, a) {
        assert(a =~= b);
    }
    if a == b {
        lemma_lex_from_trichotomy(a, a, 0);
    }
}

proof fn lemma_lex_from_trans(a: Seq<u8>, b: Seq<u8>, c: Seq<u8>, i: int)
    requires
        0 <= i,
        lex_less_from(a, b, i),
        lex_less_from(b, c, i),
    ensures
        lex_less_from(a, c, i),
    decreases c.len() - i,
{
    if i < a.len() && i < b.len() && i < c.len() && a[i] == b[i] && b[i] == c[i] {
        lemma_lex_from_trans(a, b, c, i + 1);
    }
}

/// The order is transitive.
pub proof fn lemma_lex_trans(a: Seq<u8>, b: Seq<u8>, c: Seq<u8>)
    requires
        lex_less(a, b),
        lex_less(b, c),
    ensures
        lex_less(a, c),
{
    lemma_lex_from_trans(a, b, c, 0);
}

/// Decides the strict byte-lexicographic order on two byte slices.
pub fn lex_lt(a: &[u8], b: &[u8]) -> (r: bool)
    ensures
        r == lex_less(a@, b@),
{
    let n = if a.len() < b.len() {
        a.len()
    } else {
        b.len()
    };
    let mut i: usize = 0;
    while i < n
        invariant
            0 <= i <= n,
            n == if a@.len() < b@.len() { a@.len() as int } else { b@.len() as int },
            lex_less(a@, b@) == lex_less_from(a@, b@, i as int),
        decreases n - i,
    {
        if a[i] < b[i] {
            return true;
        }
        if a[i] > b[i] {
            return false;
        }
        i += 1;
    }
    a.len() < b.len()
}

/// Every key strictly precedes every later key: sorted, with no duplicates.
pub open spec fn keys_sorted(s: Seq<(Vec<u8>, StationStats)>) -> bool {
    forall|i: int, j: int| 0 <= i < j < s.len() ==> lex_less(s[i].0@, s[j].0@)
}

/// The entry sequence carries exactly the contents of map `m`.
pub open spec fn entries_match(m: Map<Seq<u8>, StatsM>, s: Seq<(Vec<u8>, StationStats)>) -> bool {
    &&& forall|t: int|
        0 <= t < s.len() ==> m.contains_key(#[trigger] s[t].0@) && s[t].1@ == m[s[t].0@]
    &&& forall|k: Seq<u8>| #[trigger]
        m.contains_key(k) ==> exists|t: int| 0 <= t < s.len() && #[trigger] s[t].0@ == k
    &&& forall|t1: int, t2: int| 0 <= t1 < t2 < s.len() ==> s[t1].0@ != s[t2].0@
}

/// The view of each collected entry: its key bytes and its statistics model.
pub open spec fn views_of(s: Seq<(Vec<u8>, StationStats)>) -> Seq<(Seq<u8>, StatsM)> {
    s.map_values(|e: (Vec<u8>, StationStats)| (e.0@, e.1@))
}

/// The occupied slots among the first `n`, in slot order.
pub open spec fn collected(t: StationTable, n: int) -> Seq<(Seq<u8>, StatsM)>
    decreases n,
{
    if n <= 0 {
        Seq::<(Seq<u8>, StatsM)>::empty()
    } else if t.occ(n - 1) {
        collected(t, n - 1).push((t.key_at(n - 1), t.sm_at(n - 1)))
    } else {
        collected(t, n - 1)
    }
}

#[verifier::rlimit(100)]
proof fn lemma_collected_props(t: StationTable, n: int)
    requires
        t.wf(),
        0 <= n <= 65536,
    ensures
        forall|u: int|
            #![trigger collected(t, n)[u]]
            0 <= u < collected(t, n).len() ==> exists|j: int|
                0 <= j < n && t.occ(j) && collected(t, n)[u].0 == t.key_at(j) && collected(t, n)[u].1 == t.sm_at(j),
        forall|j: int|
            #![trigger t.occ(j)]
            0 <= j < n && t.occ(j) ==> exists|u: int|
                0 <= u < collected(t, n).len() && collected(t, n)[u].0 == t.key_at(j) && collected(t, n)[u].1 == t.sm_at(j),
        forall|u1: int, u2: int|
            0 <= u1 < u2 < collected(t, n).len() ==> collected(t, n)[u1].0 != collected(
                t,
                n,
            )[u2].0,
    decreases n,
{
    if n > 0 {
        lemma_collected_props(t, n - 1);
        if t.occ(n - 1) {
            assert(forall|u: int| 0 <= u < collected(t, n - 1).len() ==> collected(t, n)[u] == collected(t, n - 1)[u]);
            assert(collected(t, n)[collected(t, n - 1).len() as int].0 == t.key_at(n - 1) && collected(t, n)[collected(t, n - 1).len() as int].1 == t.sm_at(n - 1));
            assert forall|u: int|
                #![trigger collected(t, n)[u]]
                0 <= u < collected(t, n).len() implies exists|j: int|
                0 <= j < n && t.occ(j) && collected(t, n)[u].0 == t.key_at(j) && collected(t, n)[u].1 == t.sm_at(j) by {
                if u < collected(t, n - 1).len() {
                    assert(collected(t, n - 1)[u] == collected(t, n)[u]);
                    let j = choose|j: int|
                        0 <= j < n - 1 && t.occ(j) && collected(t, n - 1)[u].0 == t.key_at(j) && collected(t, n - 1)[u].1 == t.sm_at(j);
                    assert(collected(t, n)[u].0 == t.key_at(j) && collected(t, n)[u].1 == t.sm_at(j));
                } else {
                    assert(collected(t, n)[u].0 == t.key_at(n - 1) && collected(t, n)[u].1 == t.sm_at(n - 1));
                }
            }
            assert forall|j: int|
                #![trigger t.occ(j)]
                0 <= j < n && t.occ(j) implies exists|u: int|
                0 <= u < collected(t, n).len() && collected(t, n)[u].0 == t.key_at(j) && collected(t, n)[u].1 == t.sm_at(j) by {
                if j < n - 1 {
                    let u = choose|u: int|
                        0 <= u < collected(t, n - 1).len() && (#[trigger] collected(t, n - 1)[u]).0 == t.key_at(j) && collected(
                            t,
                            n - 1,
                        )[u].1 == t.sm_at(j);
                    assert(collected(t, n)[u].0 == t.key_at(j) && collected(t, n)[u].1 == t.sm_at(j));
                } else {
                    assert(collected(t, n)[collected(t, n - 1).len() as int].0 == t.key_at(j) && collected(t, n)[collected(t, n - 1).len() as int].1 == t.sm_at(j));
                }
            }
            assert forall|u1: int, u2: int|
                0 <= u1 < u2 < collected(t, n).len() implies collected(t, n)[u1].0 != collected(t, n)[u2].0 by {
                if u2 == collected(t, n - 1).len() {
                    assert(collected(t, n - 1)[u1] == collected(t, n)[u1]);
                    let j = choose|j: int|
                        0 <= j < n - 1 && t.occ(j) && collected(t, n - 1)[u1].0 == t.key_at(j) && collected(t, n - 1)[u1].1 == t.sm_at(j);
                    assert(collected(t, n)[u1].0 == t.key_at(j));
                    assert(t.key_at(j) != t.key_at(n - 1));
                }
            }
        } else {
            assert(collected(t, n) == collected(t, n - 1));
            assert forall|u: int|
                #![trigger collected(t, n)[u]]
                0 <= u < collected(t, n).len() implies exists|j: int|
                0 <= j < n && t.occ(j) && collected(t, n)[u].0 == t.key_at(j) && collected(t, n)[u].1 == t.sm_at(j) by {
                assert(collected(t, n - 1)[u] == collected(t, n)[u]);
                let j = choose|j: int|
                    0 <= j < n - 1 && t.occ(j) && collected(t, n - 1)[u].0 == t.key_at(j) && collected(t, n - 1)[u].1 == t.sm_at(j);
                assert(collected(t, n)[u].0 == t.key_at(j) && collected(t, n)[u].1 == t.sm_at(j));
            }
            assert forall|j: int|
                #![trigger t.occ(j)]
                0 <= j < n && t.occ(j) implies exists|u: int|
                0 <= u < collected(t, n).len() && collected(t, n)[u].0 == t.key_at(j) && collected(t, n)[u].1 == t.sm_at(j) by {
                let u = choose|u: int|
                    0 <= u < collected(t, n - 1).len() && (#[trigger] collected(t, n - 1)[u]).0 == t.key_at(j) && collected(
                    t,
                    n - 1,
                )[u].1 == t.sm_at(j);
                assert(collected(t, n)[u].0 == t.key_at(j) && collected(t, n)[u].1 == t.sm_at(j));
            }
        }
    } else {
        assert(collected(t, n) =~= Seq::<(Seq<u8>, StatsM)>::empty());
    }
}

impl StationTable {
    /// Gathers every occupied slot and sorts the entries into strict
    /// ascending byte-lexicographic key order.
    pub fn drain_sorted(&self) -> (r: Vec<(Vec<u8>, StationStats)>)
        requires
            self.wf(),
        ensures
            keys_sorted(r@),
            entries_match(self.model(), r@),
    {
        let mut out: Vec<(Vec<u8>, StationStats)> = Vec::new();
        let mut i: usize = 0;
        while i < 65536
            invariant
                self.wf(),
                i <= 65536,
                views_of(out@) == collected(*self, i as int),
            decreases 65536 - i,
        {
            if self.keys[i].len() > 0 {
                let kv = slice_to_vec(self.keys[i].as_slice());
                let st = self.stats[i];
                out.push((kv, st));
                proof {
                    assert(self.occ(i as int));
                    assert(views_of(out@) =~= collected(*self, i as int).push(
                        (self.key_at(i as int), self.sm_at(i as int)),
                    ));
                }
            } else {
                proof {
                    assert(!self.occ(i as int));
                }
            }
            i += 1;
        }
        proof {
            lemma_entries_from_collected(*self, out@);
        }
        let ghost prev = out@;
        sort_entries(&mut out);
        proof {
            lemma_match_permuted(self.model(), prev, out@);
        }
        out
    }
}

/// `entries_match` only looks at which entries occur, so it survives any
/// reordering of the entry sequence.
proof fn lemma_match_permuted(
    m: Map<Seq<u8>, StatsM>,
    prev: Seq<(Vec<u8>, StationStats)>,
    cur: Seq<(Vec<u8>, StationStats)>,
)
    requires
        entries_match(m, prev),
        cur.to_multiset() == prev.to_multiset(),
        forall|t1: int, t2: int| 0 <= t1 < t2 < cur.len() ==> cur[t1].0@ != cur[t2].0@,
    ensures
        entries_match(m, cur),
{
    broadcast use vstd::seq_lib::group_to_multiset_ensures;

    assert forall|t: int|
        0 <= t < cur.len() implies m.contains_key(#[trigger] cur[t].0@) && cur[t].1@
        == m[cur[t].0@] by {
        assert(cur.contains(cur[t]));
        assert(cur.to_multiset().count(cur[t]) > 0);
        assert(prev.contains(cur[t]));
        let u = choose|u: int| 0 <= u < prev.len() && prev[u] == cur[t];
        assert(m.contains_key(prev[u].0@) && prev[u].1@ == m[prev[u].0@]);
    }
    assert forall|k: Seq<u8>| #[trigger] m.contains_key(k) implies exists|t: int|
        0 <= t < cur.len() && #[trigger] cur[t].0@ == k by {
        let u = choose|u: int| 0 <= u < prev.len() && #[trigger] prev[u].0@ == k;
        assert(prev.contains(prev[u]));
        assert(prev.to_multiset().count(prev[u]) > 0);
        assert(cur.contains(prev[u]));
        let t = choose|t: int| 0 <= t < cur.len() && cur[t] == prev[u];
        assert(cur[t].0@ == k);
    }
}

/// The gathered entries carry exactly the table's model.
proof fn lemma_entries_from_collected(t: StationTable, s: Seq<(Vec<u8>, StationStats)>)
    requires
        t.wf(),
        views_of(s) == collected(t, 65536),
    ensures
        entries_match(t.model(), s),
{
    lemma_collected_props(t, 65536);
    let c = collected(t, 65536);
    assert(s.len() == c.len());
    assert(forall|u: int| 0 <= u < s.len() ==> #[trigger] c[u] == (s[u].0@, s[u].1@));
    assert forall|u: int|
        0 <= u < s.len() implies t.model().contains_key(#[trigger] s[u].0@) && s[u].1@
        == t.model()[s[u].0@] by {
        let j = choose|j: int|
            0 <= j < 65536 && t.occ(j) && #[trigger] c[u].0 == t.key_at(j) && c[u].1 == t.sm_at(
                j,
            );
        assert(s[u].0@ == t.key_at(j));
        assert(t.has_key(t.key_at(j)));
        assert(t.slot_of(t.key_at(j)) == j) by {
            let j2 = t.slot_of(t.key_at(j));
            assert(0 <= j2 < 65536 && t.occ(j2) && t.key_at(j2) == t.key_at(j));
        }
        assert(t.model()[s[u].0@] == t.sm_at(j));
    }
    assert forall|k: Seq<u8>| #[trigger] t.model().contains_key(k) implies exists|u: int|
        0 <= u < s.len() && #[trigger] s[u].0@ == k by {
        let j = t.slot_of(k);
        assert(0 <= j < 65536 && t.occ(j) && t.key_at(j) == k);
        let u = choose|u: int|
            0 <= u < c.len() && #[trigger] c[u].0 == t.key_at(j) && c[u].1 == t.sm_at(j);
        assert(s[u].0@ == k);
    }
    assert forall|u1: int, u2: int|
        0 <= u1 < u2 < s.len() implies s[u1].0@ != s[u2].0@ by {
        assert(c[u1].0 != c[u2].0);
    }
}

/// Insertion sort on the collected entries, by strict key order: the result
/// is sorted and holds exactly the same entries.
#[verifier::rlimit(100)]
fn sort_entries(s: &mut Vec<(Vec<u8>, StationStats)>)
    requires
        forall|t1: int, t2: int|
            0 <= t1 < t2 < old(s)@.len() ==> old(s)@[t1].0@ != old(s)@[t2].0@,
    ensures
        keys_sorted(final(s)@),
        final(s)@.to_multiset() == old(s)@.to_multiset(),
        forall|t1: int, t2: int|
            0 <= t1 < t2 < final(s)@.len() ==> final(s)@[t1].0@ != final(s)@[t2].0@,
{
    let ghost orig = old(s)@;
    let mut i: usize = 1;
    while i < s.len()
        invariant
            s@.len() == orig.len(),
            1 <= i,
            s@.to_multiset() == orig.to_multiset(),
            forall|t1: int, t2: int| 0 <= t1 < t2 < i && t2 < s@.len() ==> lex_less(
                #[trigger] s@[t1].0@,
                #[trigger] s@[t2].0@,
            ),
            forall|t1: int, t2: int| 0 <= t1 < t2 < s@.len() ==> s@[t1].0@ != s@[t2].0@,
        decreases s@.len() - i,
    {
        let ghost before = s@;
        let x = s.remove(i);
        proof {
            assert(forall|t: int| 0 <= t < i ==> s@[t] == before[t]);
            assert(forall|t: int| i <= t < s@.len() ==> s@[t] == before[t + 1]);
        }
        let mut p: usize = 0;
        let mut stop = false;
        while p < i && !stop
            invariant
                s@ == before.remove(i as int),
                0 < i < before.len(),
                x == before[i as int],
                0 <= p <= i,
                i <= s@.len() + 1,
                s@.len() == before.len() - 1,
                forall|t1: int, t2: int| 0 <= t1 < t2 < i ==> lex_less(
                    #[trigger] before[t1].0@,
                    #[trigger] before[t2].0@,
                ),
                forall|t1: int, t2: int| 0 <= t1 < t2 < before.len() ==> before[t1].0@
                    != before[t2].0@,
                forall|t: int| 0 <= t < p ==> lex_less(#[trigger] s@[t].0@, x.0@),
                stop ==> p < i && lex_less(x.0@, s@[p as int].0@),
            decreases i - p + if stop { 0int } else { 1int },
        {
            if lex_lt(x.0.as_slice(), s[p].0.as_slice()) {
                stop = true;
            } else {
                proof {
                    assert(s@[p as int] == before[p as int]);
                    assert(before[p as int].0@ != before[i as int].0@);
                    lemma_lex_trichotomy(x.0@, s@[p as int].0@);
                }
                p += 1;
            }
        }
        let ghost mid = s@;
        s.insert(p, x);
        proof {
            vstd::seq_lib::to_multiset_remove(before, i as int);
            vstd::seq_lib::to_multiset_insert(mid, p as int, x);
            vstd::seq_lib::to_multiset_contains(before, x);
            assert(before.contains(x)) by {
                assert(before[i as int] == x);
            }
            assert(before.to_multiset().count(x) > 0);
            assert(s@.to_multiset() =~= before.to_multiset());
            assert(forall|t: int| 0 <= t < p ==> s@[t] == mid[t]);
            assert(s@[p as int] == x);
            assert(forall|t: int| p < t < s@.len() ==> s@[t] == mid[t - 1]);
            assert(forall|t: int| 0 <= t < p ==> s@[t] == before[t]);
            assert(forall|t: int| p < t <= i ==> s@[t] == before[t - 1]);
            assert(forall|t: int| i < t < s@.len() ==> s@[t] == before[t]);
            assert forall|t1: int, t2: int|
                0 <= t1 < t2 < i + 1 && t2 < s@.len() implies lex_less(
                s@[t1].0@,
                s@[t2].0@,
            ) by {
                if t1 == p && t2 > p {
                    if p < i {
                        assert(lex_less(x.0@, before[p as int].0@));
                        if t2 - 1 > p {
                            assert(lex_less(before[p as int].0@, before[t2 - 1].0@));
                            lemma_lex_trans(x.0@, before[p as int].0@, before[t2 - 1].0@);
                        }
                    }
                } else if t2 == p {
                    assert(lex_less(s@[t1].0@, x.0@));
                } else if t1 < p && t2 > p {
                    assert(s@[t1] == before[t1] && s@[t2] == before[t2 - 1]);
                    assert(lex_less(before[t1].0@, before[t2 - 1].0@));
                }
            }
            assert forall|t1: int, t2: int|
                0 <= t1 < t2 < s@.len() implies s@[t1].0@ != s@[t2].0@ by {
                lemma_perm_distinct(before, s@, t1, t2, p as int, i as int);
            }
        }
        i += 1;
    }
}

/// In the re-insertion step each output position takes its entry from a
/// distinct input position, so no key appears twice.
proof fn lemma_perm_distinct(
    before: Seq<(Vec<u8>, StationStats)>,
    after: Seq<(Vec<u8>, StationStats)>,
    t1: int,
    t2: int,
    p: int,
    i: int,
)
    requires
        0 <= p <= i < before.len(),
        after.len() == before.len(),
        0 <= t1 < t2 < after.len(),
        after[p] == before[i],
        forall|t: int| 0 <= t < p ==> after[t] == before[t],
        forall|t: int| p < t <= i ==> after[t] == before[t - 1],
        forall|t: int| i < t < after.len() ==> after[t] == before[t],
        forall|u1: int, u2: int| 0 <= u1 < u2 < before.len() ==> before[u1].0@ != before[u2].0@,
    ensures
        after[t1].0@ != after[t2].0@,
{
    let s1 = if t1 == p {
        i
    } else if t1 < p {
        t1
    } else if t1 <= i {
        t1 - 1
    } else {
        t1
    };
    let s2 = if t2 == p {
        i
    } else if t2 < p {
        t2
    } else if t2 <= i {
        t2 - 1
    } else {
        t2
    };
    assert(after[t1] == before[s1]);
    assert(after[t2] == before[s2]);
    assert(s1 != s2);
    if s1 < s2 {
        assert(before[s1].0@ != before[s2].0@);
    } else {
        assert(before[s2].0@ != before[s1].0@);
    }
}

} // verus!
