use vstd::prelude::*;

verus! {

/// Mathematical model of one aggregate record: running minimum, maximum,
/// exact sum and count of the scaled values observed for one key.
pub ghost struct StatsM {
    pub min: int,
    pub max: int,
    pub sum: int,
    pub count: nat,
}

/// The record before any observation: sentinel extrema, empty sum.
pub open spec fn stats_init() -> StatsM {
    StatsM { min: 0x7fff_ffff, max: -0x8000_0000, sum: 0, count: 0 }
}

/// Folding one observed value into a record.
pub open spec fn stats_upd(m: StatsM, v: int) -> StatsM {
    StatsM {
        min: if v < m.min { v } else { m.min },
        max: if v > m.max { v } else { m.max },
        sum: m.sum + v,
        count: m.count + 1,
    }
}

/// A record reachable from the initial one by observations in the 32-bit
/// value range: the extrema bracket the sum.
pub open spec fn stats_wf(m: StatsM) -> bool {
    &&& -0x8000_0000 <= m.min <= 0x7fff_ffff
    &&& -0x8000_0000 <= m.max <= 0x7fff_ffff
    &&& m.count >= 1
    &&& m.min <= m.max
    &&& m.min * m.count <= m.sum <= m.max * m.count
}

/// Division of the sum by the count, rounded half away from zero.
pub open spec fn rounded_div(s: int, c: int) -> int
    recommends
        c >= 1,
{
    if s >= 0 {
        (2 * s + c) / (2 * c)
    } else {
        -((2 * (-s) + c) / (2 * c))
    }
}

/// Running statistics for one key, with every value scaled by ten.
#[derive(Clone, Copy, Debug)]
pub struct StationStats {
    pub min: i32,
    pub max: i32,
    pub sum: i64,
    pub count: u64,
}

impl View for StationStats {
    type V = StatsM;

    open spec fn view(&self) -> StatsM {
        StatsM { min: self.min as int, max: self.max as int, sum: self.sum as int, count: self.count as nat }
    }
}

impl StationStats {
    /// A record with no observations yet: sentinel extrema, zero sum and count.
    pub fn new() -> (r: Self)
        ensures
            r@ == stats_init(),
    {
        Self { min: i32::MAX, max: i32::MIN, sum: 0, count: 0 }
    }

    /// Folds one observed scaled value into the running statistics.
    pub fn update(&mut self, temp: i32)
        requires
            old(self)@ == stats_init() || stats_wf(old(self)@),
            old(self)@.count < 0x4000_0000,
        ensures
            final(self)@ == stats_upd(old(self)@, temp as int),
            stats_wf(final(self)@),
    {
        proof {
            if old(self)@.count >= 1 {
                lemma_stats_sum_bound(old(self)@);
            }
        }
        if temp < self.min {
            self.min = temp;
        }
        if temp > self.max {
            self.max = temp;
        }
        self.sum = self.sum + temp as i64;
        self.count = self.count + 1;
        proof {
            lemma_stats_upd_wf(old(self)@, temp as int);
        }
    }

    /// The mean of the observed values in scaled units, rounded half away
    /// from zero to the nearest whole scaled unit.
    pub fn mean_scaled(&self) -> (r: i64)
        requires
            stats_wf(self@),
        ensures
            r == rounded_div(self@.sum, self@.count as int),
            self@.min <= r <= self@.max,
    {
        proof {
            lemma_rounded_div_bounds(self@.sum, self@.count as int, self@.min, self@.max);
        }
        let c: i128 = self.count as i128;
        if self.sum >= 0 {
            let q: i128 = (2 * self.sum as i128 + c) / (2 * c);
            q as i64
        } else {
            let q: i128 = (2 * (-(self.sum as i128)) + c) / (2 * c);
            (-q) as i64
        }
    }
}

/// A well-formed record's sum is bracketed by `count` times the extrema, so
/// it stays well inside the 64-bit range while the count is bounded.
pub proof fn lemma_stats_sum_bound(m: StatsM)
    requires
        stats_wf(m),
        m.count < 0x4000_0000,
    ensures
        -0x2000_0000_0000_0000 < m.sum < 0x2000_0000_0000_0000,
{
    assert(m.min * m.count > -0x2000_0000_0000_0000) by (nonlinear_arith)
        requires
            -0x8000_0000 <= m.min,
            0 <= m.count < 0x4000_0000,
    ;
    assert(m.max * m.count < 0x2000_0000_0000_0000) by (nonlinear_arith)
        requires
            m.max <= 0x7fff_ffff,
            0 <= m.count < 0x4000_0000,
    ;
}

/// Folding a 32-bit value preserves well-formedness of the record.
pub proof fn lemma_stats_upd_wf(m: StatsM, v: int)
    requires
        m == stats_init() || stats_wf(m),
        -0x8000_0000 <= v <= 0x7fff_ffff,
    ensures
        stats_wf(stats_upd(m, v)),
{
    let r = stats_upd(m, v);
    if m == stats_init() {
        assert(r.min * r.count == v) by (nonlinear_arith)
            requires
                r.min == v && r.count == 1,
        ;
        assert(r.max * r.count == v) by (nonlinear_arith)
            requires
                r.max == v && r.count == 1,
        ;
    } else {
        assert(r.min * r.count <= m.sum + v) by (nonlinear_arith)
            requires
                r.min <= m.min,
                r.min <= v,
                m.min * m.count <= m.sum,
                m.count >= 0,
                r.count == m.count + 1,
        ;
        assert(r.max * r.count >= m.sum + v) by (nonlinear_arith)
            requires
                r.max >= m.max,
                r.max >= v,
                m.max * m.count >= m.sum,
                m.count >= 0,
                r.count == m.count + 1,
        ;
    }
}

/// The rounded mean lies between the extrema that bracket the sum.
pub proof fn lemma_rounded_div_bounds(s: int, c: int, lo: int, hi: int)
    requires
        c >= 1,
        lo * c <= s <= hi * c,
        lo <= hi,
    ensures
        lo <= rounded_div(s, c) <= hi,
{
    if s >= 0 {
        let q = (2 * s + c) / (2 * c);
        assert(lo <= q <= hi) by (nonlinear_arith)
            requires
                c >= 1,
                s >= 0,
                lo * c <= s <= hi * c,
                q == (2 * s + c) / (2 * c),
        ;
    } else {
        let q = (2 * (-s) + c) / (2 * c);
        assert(lo <= -q <= hi) by (nonlinear_arith)
            requires
                c >= 1,
                s < 0,
                lo * c <= s <= hi * c,
                q == (2 * (-s) + c) / (2 * c),
        ;
    }
}

} // verus!
