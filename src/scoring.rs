use vstd::prelude::*;
use crate::series::{window_lo, trues, last_true_in, lemma_trues_bound};

verus! {

/// How a rule folds its boolean series over the trailing window.
#[derive(Clone, Copy, Debug, PartialEq, Eq, Structural)]
pub enum ScopeWay {
    Any,
    Last,
    Each,
    Recent,
    /// A run of at least this many consecutive `true` bars.
    Consec(usize),
}

/// Informational label of a rule.
#[derive(Clone, Copy, Debug, PartialEq, Eq, Structural)]
pub enum RuleTag {
    Opportunity,
}

/// What a scope finds in the window that ends at one bar.
#[derive(Clone, Copy, Debug, PartialEq, Eq, Structural)]
pub enum ScopeHit {
    Bool(bool),
    Count(usize),
    /// Bars since the latest `true` in the window, if any.
    Recent(Option<usize>),
}

/// One entry of a rule's distribution table: the recency range `[min, max]`
/// it covers, and whether the points it awards are a finite number.
#[derive(Clone, Copy, Debug, PartialEq, Eq, Structural)]
pub struct DistEntry {
    pub min: usize,
    pub max: usize,
    pub finite: bool,
}

/// The score of one bar, in terms of the rule's points.
#[derive(Clone, Copy, Debug, PartialEq, Eq, Structural)]
pub enum BarScore {
    /// No points.
    Zero,
    /// The rule's `points`.
    Points,
    /// `n` times the rule's `points`.
    Times(usize),
    /// The points of the distribution table's entry at this index.
    Bucket(usize),
}

/// The `k` bars from `s` on all hold `true`.
pub open spec fn run_at(bs: Seq<bool>, s: int, k: int) -> bool {
    forall|t: int| s <= t < s + k ==> #[trigger] bs[t]
}

/// Some `k` consecutive bars in `[lo, hi)` all hold `true`.
pub open spec fn has_run(bs: Seq<bool>, lo: int, hi: int, k: int) -> bool {
    exists|s: int| lo <= s && s + k <= hi && #[trigger] run_at(bs, s, k)
}

/// What scope `way` with window `w` finds at bar `i` of `bs`.
pub open spec fn scope_at(way: ScopeWay, w: usize, bs: Seq<bool>, i: int) -> ScopeHit {
    let lo = window_lo(i, w as int);
    match way {
        ScopeWay::Last => ScopeHit::Bool(bs[i]),
        ScopeWay::Any => ScopeHit::Bool(exists|j: int| lo <= j <= i && #[trigger] bs[j]),
        ScopeWay::Consec(k) => ScopeHit::Bool(has_run(bs, lo, i + 1, k as int)),
        ScopeWay::Each => ScopeHit::Count(trues(bs, lo, i + 1) as usize),
        ScopeWay::Recent => ScopeHit::Recent(
            match last_true_in(bs, lo, i + 1) {
                Some(j) => Some((i - j) as usize),
                None => None,
            },
        ),
    }
}

/// The first entry of `dps` whose range holds `d`.
pub open spec fn first_bucket(dps: Seq<DistEntry>, d: int) -> Option<int>
    decreases dps.len(),
{
    if dps.len() == 0 {
        None
    } else if dps.last().min <= d <= dps.last().max && first_bucket(dps.drop_last(), d) is None {
        Some(dps.len() - 1)
    } else {
        first_bucket(dps.drop_last(), d)
    }
}

/// The score of a bar from what its scope found.
pub open spec fn bar_score(hit: ScopeHit, dist: Option<Seq<DistEntry>>) -> BarScore {
    match hit {
        ScopeHit::Bool(b) => if b {
            BarScore::Points
        } else {
            BarScore::Zero
        },
        ScopeHit::Count(n) => BarScore::Times(n),
        ScopeHit::Recent(v) => match dist {
            Some(dps) => match v {
                Some(d) => match first_bucket(dps, d as int) {
                    Some(k) => BarScore::Bucket(k as usize),
                    None => BarScore::Zero,
                },
                None => BarScore::Zero,
            },
            None => match v {
                Some(_) => BarScore::Points,
                None => BarScore::Zero,
            },
        },
    }
}

pub proof fn lemma_first_bucket(dps: Seq<DistEntry>, d: int)
    ensures
        first_bucket(dps, d) matches Some(k) ==> 0 <= k < dps.len() && dps[k].min <= d
            <= dps[k].max && forall|m: int| 0 <= m < k ==> !(#[trigger] dps[m].min <= d <= dps[m].max),
        first_bucket(dps, d) is None ==> forall|m: int|
            0 <= m < dps.len() ==> !(#[trigger] dps[m].min <= d <= dps[m].max),
    decreases dps.len(),
{
    if dps.len() > 0 {
        lemma_first_bucket(dps.drop_last(), d);
        assert forall|m: int| 0 <= m < dps.len() - 1 implies dps.drop_last()[m] == dps[m] by {}
    }
}

/// What scope `way` with window `windows` finds at bar `i` of `bs`.
pub fn hit_scopeway(scopeway: ScopeWay, windows: usize, bs: &[bool], i: usize) -> (r: ScopeHit)
    requires
        i < bs@.len(),
    ensures
        r == scope_at(scopeway, windows, bs@, i as int),
{
    let n = bs.len();
    assert(i < n);
    let start: usize = if i + 1 >= windows {
        i + 1 - windows
    } else {
        0
    };
    let ghost lo = window_lo(i as int, windows as int);
    match scopeway {
        ScopeWay::Last => ScopeHit::Bool(bs[i]),
        ScopeWay::Any => {
            let mut j: usize = start;
            while j <= i
                invariant
                    scopeway == ScopeWay::Any,
                    start == lo,
                    lo == window_lo(i as int, windows as int),
                    start <= j <= i + 1,
                    i < bs@.len(),
                    forall|k: int| start <= k < j ==> !bs@[k],
                decreases i + 1 - j,
            {
                if bs[j] {
                    assert(lo <= j <= i && bs@[j as int]);
                    return ScopeHit::Bool(true);
                }
                j = j + 1;
            }
            ScopeHit::Bool(false)
        },
        ScopeWay::Consec(len) => {
            let mut cur: usize = 0;
            let mut best: usize = 0;
            let mut j: usize = start;
            assert(run_at(bs@, start as int, 0));
            while j <= i
                invariant
                    start == lo,
                    lo == window_lo(i as int, windows as int),
                    start <= j <= i + 1,
                    i < bs@.len(),
                    cur <= j - start,
                    forall|t: int| j - cur <= t < j ==> bs@[t],
                    j - cur > start ==> !bs@[j - cur - 1],
                    cur <= best,
                    has_run(bs@, start as int, j as int, best as int),
                    forall|s: int, m: int|
                        start <= s && s + m <= j && #[trigger] run_at(bs@, s, m) ==> m <= best,
                decreases i + 1 - j,
            {
                if bs[j] {
                    cur = cur + 1;
                } else {
                    cur = 0;
                }
                if cur > best {
                    best = cur;
                }
                proof {
                    assert forall|s: int, m: int|
                        start <= s && s + m <= j + 1 && #[trigger] run_at(bs@, s, m) implies m <= best by {
                        if s + m == j + 1 && m > 0 {
                            if m > cur {
                                let t = j - cur;
                                if cur == 0 {
                                    assert(bs@[j as int]);
                                } else {
                                    assert(bs@[t - 1]);
                                }
                            }
                        } else if m > 0 {
                            assert(s + m <= j);
                        }
                    }
                    if cur == best {
                        let s0 = j + 1 - cur;
                        assert(run_at(bs@, s0, best as int));
                        assert(has_run(bs@, start as int, j + 1, best as int));
                    } else {
                        let w = choose|s: int|
                            start <= s && s + best <= j && #[trigger] run_at(bs@, s, best as int);
                        assert(run_at(bs@, w, best as int));
                        assert(has_run(bs@, start as int, j + 1, best as int));
                    }
                }
                j = j + 1;
            }
            proof {
                if best >= len {
                    let w = choose|s: int|
                        start <= s && s + best <= j && #[trigger] run_at(bs@, s, best as int);
                    assert(run_at(bs@, w, len as int));
                } else {
                    assert forall|s: int|
                        start <= s && s + len <= i + 1 && #[trigger] run_at(bs@, s, len as int) implies false by {}
                }
            }
            ScopeHit::Bool(best >= len)
        },
        ScopeWay::Each => {
            let mut cnt: usize = 0;
            let mut j: usize = start;
            while j <= i
                invariant
                    start == lo,
                    lo == window_lo(i as int, windows as int),
                    start <= j <= i + 1,
                    i < bs@.len(),
                    cnt == trues(bs@, start as int, j as int),
                decreases i + 1 - j,
            {
                proof {
                    lemma_trues_bound(bs@, start as int, j as int);
                }
                if bs[j] {
                    cnt = cnt + 1;
                }
                j = j + 1;
            }
            ScopeHit::Count(cnt)
        },
        ScopeWay::Recent => {
            let mut j: usize = i + 1;
            while j > start
                invariant
                    scopeway == ScopeWay::Recent,
                    start == lo,
                    lo == window_lo(i as int, windows as int),
                    start <= j <= i + 1,
                    i < bs@.len(),
                    last_true_in(bs@, start as int, i + 1) == last_true_in(bs@, start as int, j as int),
                decreases j - start,
            {
                if bs[j - 1] {
                    assert(last_true_in(bs@, start as int, j as int) == Some(j - 1));
                    return ScopeHit::Recent(Some(i - (j - 1)));
                }
                j = j - 1;
            }
            ScopeHit::Recent(None)
        },
    }
}

/// The distribution table as a sequence, if there is one.
pub open spec fn dist_view(dist: Option<&[DistEntry]>) -> Option<Seq<DistEntry>> {
    match dist {
        Some(d) => Some(d@),
        None => None,
    }
}

/// The score of a `Recent` hit under a distribution table: the first entry
/// whose range holds the recency, or nothing.
pub fn impl_scope_at_recent(recent: ScopeHit, dps: &[DistEntry]) -> (r: BarScore)
    ensures
        r == (match recent {
            ScopeHit::Recent(Some(d)) => match first_bucket(dps@, d as int) {
                Some(k) => BarScore::Bucket(k as usize),
                None => BarScore::Zero,
            },
            _ => BarScore::Zero,
        }),
{
    let last = match recent {
        ScopeHit::Recent(Some(n)) => n,
        _ => {
            return BarScore::Zero;
        },
    };
    proof {
        lemma_first_bucket(dps@, last as int);
    }
    let mut k: usize = 0;
    while k < dps.len()
        invariant
            recent == ScopeHit::Recent(Some(last)),
            k <= dps@.len(),
            forall|m: int| 0 <= m < k ==> !(#[trigger] dps@[m].min <= last <= dps@[m].max),
            first_bucket(dps@, last as int) matches Some(b) ==> 0 <= b < dps@.len() && dps@[b].min
                <= last <= dps@[b].max && forall|m: int|
                0 <= m < b ==> !(#[trigger] dps@[m].min <= last <= dps@[m].max),
            first_bucket(dps@, last as int) is None ==> forall|m: int|
                0 <= m < dps@.len() ==> !(#[trigger] dps@[m].min <= last <= dps@[m].max),
        decreases dps.len() - k,
    {
        if dps[k].min <= last && last <= dps[k].max {
            return BarScore::Bucket(k);
        }
        k = k + 1;
    }
    BarScore::Zero
}

/// The score of a bar from what its scope found.
pub fn score_at(scopeway: ScopeHit, dps: Option<&[DistEntry]>) -> (r: BarScore)
    ensures
        r == bar_score(scopeway, dist_view(dps)),
{
    match scopeway {
        ScopeHit::Bool(ok) => if ok {
            BarScore::Points
        } else {
            BarScore::Zero
        },
        ScopeHit::Count(n) => BarScore::Times(n),
        ScopeHit::Recent(v) => match dps {
            Some(dp) => impl_scope_at_recent(ScopeHit::Recent(v), dp),
            None => match v {
                Some(_) => BarScore::Points,
                None => BarScore::Zero,
            },
        },
    }
}

/// The score of every bar of `bs` under one rule's scope and distribution table.
pub fn score_bars(scopeway: ScopeWay, windows: usize, dps: Option<&[DistEntry]>, bs: &[bool]) -> (out: Vec<BarScore>)
    ensures
        out@.len() == bs@.len(),
        forall|i: int|
            0 <= i < bs@.len() ==> out@[i] == bar_score(
                scope_at(scopeway, windows, bs@, i),
                dist_view(dps),
            ),
{
    let mut out: Vec<BarScore> = Vec::new();
    let mut i: usize = 0;
    while i < bs.len()
        invariant
            i <= bs@.len(),
            out@.len() == i,
            forall|k: int|
                0 <= k < i ==> out@[k] == bar_score(
                    scope_at(scopeway, windows, bs@, k),
                    dist_view(dps),
                ),
        decreases bs.len() - i,
    {
        let hit = hit_scopeway(scopeway, windows, bs, i);
        out.push(score_at(hit, dps));
        i = i + 1;
    }
    out
}

/// Under scope `Last` a bar scores the rule's points exactly where the
/// condition holds at that bar, whatever the window and the table.
pub proof fn lemma_last_is_pointwise(windows: usize, dist: Option<Seq<DistEntry>>, bs: Seq<bool>, i: int)
    requires
        0 <= i < bs.len(),
    ensures
        bar_score(scope_at(ScopeWay::Last, windows, bs, i), dist) == (if bs[i] {
            BarScore::Points
        } else {
            BarScore::Zero
        }),
{
}

} // verus!
