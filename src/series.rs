use vstd::prelude::*;

verus! {

/// First index of the trailing window of `w` bars that ends at `i`.
pub open spec fn window_lo(i: int, w: int) -> int {
    if i + 1 >= w {
        i + 1 - w
    } else {
        0
    }
}

/// Number of `true` entries of `c` in `[lo, hi)`.
pub open spec fn trues(c: Seq<bool>, lo: int, hi: int) -> nat
    decreases hi - lo,
{
    if hi <= lo {
        0
    } else {
        trues(c, lo, hi - 1) + (if c[hi - 1] {
            1nat
        } else {
            0nat
        })
    }
}

/// The largest index in `[lo, hi)` where `c` is `true`, if there is one.
pub open spec fn last_true_in(c: Seq<bool>, lo: int, hi: int) -> Option<int>
    decreases hi - lo,
{
    if hi <= lo {
        None
    } else if c[hi - 1] {
        Some(hi - 1)
    } else {
        last_true_in(c, lo, hi - 1)
    }
}

/// `x` moved `n` bars later: the first `n` entries are missing.
pub open spec fn lag_of<T>(x: Seq<Option<T>>, n: int) -> Seq<Option<T>> {
    Seq::new(
        x.len(),
        |i: int|
            if i < n {
                None
            } else {
                x[i - n]
            },
    )
}

/// Bars since the latest `true` at or before `i`; none before the first `true`.
pub open spec fn bars_since(c: Seq<bool>, i: int) -> Option<usize> {
    match last_true_in(c, 0, i + 1) {
        Some(j) => Some((i - j) as usize),
        None => None,
    }
}

/// A window size below one counts as one.
pub open spec fn at_least_one(n: usize) -> int {
    if n == 0 {
        1
    } else {
        n as int
    }
}

pub proof fn lemma_trues_bound(c: Seq<bool>, lo: int, hi: int)
    ensures
        trues(c, lo, hi) <= (if hi <= lo {
            0
        } else {
            hi - lo
        }),
    decreases hi - lo,
{
    if hi > lo {
        lemma_trues_bound(c, lo, hi - 1);
    }
}

proof fn lemma_trues_drop_first(c: Seq<bool>, lo: int, hi: int)
    requires
        lo < hi,
    ensures
        trues(c, lo, hi) == trues(c, lo + 1, hi) + (if c[lo] {
            1nat
        } else {
            0nat
        }),
    decreases hi - lo,
{
    if hi - 1 > lo {
        lemma_trues_drop_first(c, lo, hi - 1);
    } else {
        assert(trues(c, lo, lo) == 0);
        assert(trues(c, lo + 1, hi) == 0);
    }
}

pub proof fn lemma_last_true_in(c: Seq<bool>, lo: int, hi: int)
    ensures
        last_true_in(c, lo, hi) matches Some(j) ==> lo <= j < hi && c[j] && forall|k: int|
            j < k < hi ==> !c[k],
        last_true_in(c, lo, hi) is None ==> forall|k: int| lo <= k < hi ==> !c[k],
    decreases hi - lo,
{
    if hi > lo && !c[hi - 1] {
        lemma_last_true_in(c, lo, hi - 1);
    }
}

/// The `CROSS` series from the per-bar comparisons `gt` and `le` of its two inputs.
pub open spec fn cross_of(gt: Seq<Option<bool>>, le: Seq<Option<bool>>) -> Seq<bool> {
    Seq::new(
        if gt.len() == 0 {
            1
        } else {
            gt.len()
        },
        |i: int| i > 0 && gt[i] == Some(true) && le[i - 1] == Some(true),
    )
}

/// Lagging twice is lagging once by the sum: `REF(REF(x, a), b) == REF(x, a + b)`.
pub proof fn lemma_lag_lag<T>(x: Seq<Option<T>>, a: nat, b: nat)
    ensures
        lag_of(lag_of(x, a as int), b as int) == lag_of(x, (a + b) as int),
{
    assert(lag_of(lag_of(x, a as int), b as int) =~= lag_of(x, (a + b) as int));
}

/// Warm-up of the windowed built-ins that the library computes: `REF` with
/// lag `n` is missing on the first `n` bars, and `COUNT` over a window of `w`
/// bars counts, on the first `w - 1` bars, every bar seen so far.
pub proof fn lemma_warm_up<T>(x: Seq<Option<T>>, n: nat, c: Seq<bool>, w: nat, i: int)
    requires
        w >= 1,
        0 <= i < x.len(),
        i < c.len(),
    ensures
        i < n ==> lag_of(x, n as int)[i] is None,
        i >= n ==> lag_of(x, n as int)[i] == x[i - n],
        i + 1 < w ==> trues(c, window_lo(i, w as int), i + 1) == trues(c, 0, i + 1),
{
}

/// A cross needs a bar where the first series is above the second: where it
/// never is (two equal series), `CROSS` is `false` at every bar.
pub proof fn lemma_cross_needs_rise(gt: Seq<Option<bool>>, le: Seq<Option<bool>>)
    requires
        gt.len() == le.len(),
        forall|i: int| 0 <= i < gt.len() ==> gt[i] != Some(true),
    ensures
        forall|i: int| 0 <= i < cross_of(gt, le).len() ==> !cross_of(gt, le)[i],
{
}

/// `REF`: `x` lagged by `n` bars.
pub fn lag<T: Copy>(x: &[Option<T>], n: usize) -> (out: Vec<Option<T>>)
    ensures
        out@ == lag_of(x@, n as int),
{
    let mut out: Vec<Option<T>> = Vec::new();
    let mut i: usize = 0;
    while i < x.len()
        invariant
            i <= x.len(),
            out@ == lag_of(x@, n as int).subrange(0, i as int),
        decreases x.len() - i,
    {
        if i < n {
            out.push(None);
        } else {
            out.push(x[i - n]);
        }
        proof {
            assert(out@ =~= lag_of(x@, n as int).subrange(0, i + 1));
        }
        i = i + 1;
    }
    proof {
        assert(out@ =~= lag_of(x@, n as int));
    }
    out
}

/// `COUNT`: how many of the trailing `n` bars (at least one) hold `true`.
pub fn rolling_count(c: &[bool], n: usize) -> (out: Vec<usize>)
    ensures
        out@.len() == c@.len(),
        forall|i: int|
            0 <= i < c@.len() ==> out@[i] == trues(c@, window_lo(i, at_least_one(n)), i + 1),
{
    let w: usize = if n == 0 {
        1
    } else {
        n
    };
    let mut out: Vec<usize> = Vec::new();
    let mut cnt: usize = 0;
    let mut i: usize = 0;
    while i < c.len()
        invariant
            w == at_least_one(n),
            i <= c.len(),
            out@.len() == i,
            forall|k: int| 0 <= k < i ==> out@[k] == trues(c@, window_lo(k, w as int), k + 1),
            i > 0 ==> cnt == trues(c@, window_lo(i - 1, w as int), i as int),
            i == 0 ==> cnt == 0,
        decreases c.len() - i,
    {
        let ghost lo_prev = if i == 0 {
            0
        } else {
            window_lo(i - 1, w as int)
        };
        let ghost lo = window_lo(i as int, w as int);
        proof {
            assert(cnt == trues(c@, lo_prev, i as int));
            lemma_trues_bound(c@, lo_prev, i as int);
        }
        if c[i] {
            cnt = cnt + 1;
        }
        assert(cnt == trues(c@, lo_prev, i + 1));
        if i + 1 > w {
            let left = i + 1 - w;
            proof {
                assert(lo_prev == left - 1);
                lemma_trues_drop_first(c@, lo_prev, i + 1);
            }
            if c[left - 1] {
                cnt = cnt - 1;
            }
        }
        out.push(cnt);
        i = i + 1;
    }
    out
}

/// `BARSLAST`: for each bar, the bars since the latest `true` at or before it.
pub fn bars_last(c: &[bool]) -> (out: Vec<Option<usize>>)
    ensures
        out@.len() == c@.len(),
        forall|i: int| 0 <= i < c@.len() ==> out@[i] == bars_since(c@, i),
{
    let mut out: Vec<Option<usize>> = Vec::new();
    let mut last: Option<usize> = None;
    let mut i: usize = 0;
    while i < c.len()
        invariant
            i <= c.len(),
            out@.len() == i,
            forall|k: int| 0 <= k < i ==> out@[k] == bars_since(c@, k),
            last == (match last_true_in(c@, 0, i as int) {
                Some(j) => Some(j as usize),
                None => None::<usize>,
            }),
        decreases c.len() - i,
    {
        proof {
            lemma_last_true_in(c@, 0, i as int);
        }
        if c[i] {
            last = Some(i);
        }
        let v = match last {
            Some(j) => Some(i - j),
            None => None,
        };
        out.push(v);
        i = i + 1;
    }
    out
}

/// `CROSS`, from the comparisons of its two series: `gt[i]` is whether
/// `a[i] > b[i]` and `le[i]` whether `a[i] <= b[i]`, missing where either side
/// is. A cross is up at `i > 0` where `a[i] > b[i]` and `a[i-1] <= b[i-1]`.
/// The first entry is `false`; an empty input gives one `false`.
pub fn cross(gt: &[Option<bool>], le: &[Option<bool>]) -> (out: Vec<bool>)
    requires
        gt@.len() == le@.len(),
    ensures
        out@.len() == (if gt@.len() == 0 {
            1
        } else {
            gt@.len()
        }),
        out@[0] == false,
        forall|i: int|
            0 < i < gt@.len() ==> out@[i] == (gt@[i] == Some(true) && le@[i - 1] == Some(true)),
        out@ == cross_of(gt@, le@),
{
    let mut out: Vec<bool> = Vec::new();
    out.push(false);
    let mut i: usize = 1;
    while i < gt.len()
        invariant
            gt@.len() == le@.len(),
            1 <= i,
            gt@.len() > 0 ==> i <= gt@.len(),
            gt@.len() == 0 ==> i == 1,
            out@.len() == i,
            out@[0] == false,
            forall|k: int|
                0 < k < i ==> out@[k] == (gt@[k] == Some(true) && le@[k - 1] == Some(true)),
        decreases gt.len() - i,
    {
        let hit = match (gt[i], le[i - 1]) {
            (Some(true), Some(true)) => true,
            _ => false,
        };
        out.push(hit);
        i = i + 1;
    }
    assert(out@ =~= cross_of(gt@, le@));
    out
}

/// `IF`: per bar, `a[i]` where `c[i]` holds, else `b[i]`.
pub fn select_if<T: Copy>(c: &[bool], a: &[Option<T>], b: &[Option<T>]) -> (out: Vec<Option<T>>)
    requires
        a@.len() == c@.len(),
        b@.len() == c@.len(),
    ensures
        out@.len() == c@.len(),
        forall|i: int|
            0 <= i < c@.len() ==> out@[i] == if c@[i] {
                a@[i]
            } else {
                b@[i]
            },
{
    let mut out: Vec<Option<T>> = Vec::new();
    let mut i: usize = 0;
    while i < c.len()
        invariant
            a@.len() == c@.len(),
            b@.len() == c@.len(),
            i <= c.len(),
            out@.len() == i,
            forall|k: int|
                0 <= k < i ==> out@[k] == if c@[k] {
                    a@[k]
                } else {
                    b@[k]
                },
        decreases c.len() - i,
    {
        if c[i] {
            out.push(a[i]);
        } else {
            out.push(b[i]);
        }
        i = i + 1;
    }
    out
}

/// What `GET` gives at bar `i`: `x[j]` for the latest `j` before `i`, at most
/// `w` bars back, where `c[j]` holds; missing if there is none.
pub open spec fn latest_before<T>(c: Seq<bool>, x: Seq<Option<T>>, w: int, i: int) -> Option<T> {
    let lo = if i >= w {
        i - w
    } else {
        0
    };
    match last_true_in(c, lo, i) {
        Some(j) => x[j],
        None => None,
    }
}

/// `GET`: per bar, the value of `x` at the latest earlier bar in the last `n`
/// (at least one) where `c` holds.
pub fn get_latest<T: Copy>(c: &[bool], x: &[Option<T>], n: usize) -> (out: Vec<Option<T>>)
    requires
        x@.len() == c@.len(),
    ensures
        out@.len() == c@.len(),
        forall|i: int|
            0 <= i < c@.len() ==> out@[i] == latest_before(c@, x@, at_least_one(n), i),
{
    let w: usize = if n == 0 {
        1
    } else {
        n
    };
    let mut out: Vec<Option<T>> = Vec::new();
    let mut i: usize = 0;
    while i < c.len()
        invariant
            x@.len() == c@.len(),
            w == at_least_one(n),
            i <= c.len(),
            out@.len() == i,
            forall|k: int| 0 <= k < i ==> out@[k] == latest_before(c@, x@, w as int, k),
        decreases c.len() - i,
    {
        let lo: usize = if i >= w {
            i - w
        } else {
            0
        };
        let mut j: usize = i;
        let mut found: Option<T> = None;
        let mut hit = false;
        while j > lo && !hit
            invariant
                x@.len() == c@.len(),
                i < c.len(),
                lo <= j <= i,
                !hit ==> last_true_in(c@, lo as int, i as int) == last_true_in(
                    c@,
                    lo as int,
                    j as int,
                ),
                !hit ==> found is None,
                hit ==> last_true_in(c@, lo as int, i as int) == Some(j as int) && found
                    == x@[j as int],
            decreases j - lo + (if hit {
                0int
            } else {
                1int
            }),
        {
            if c[j - 1] {
                j = j - 1;
                found = x[j];
                hit = true;
            } else {
                j = j - 1;
            }
        }
        out.push(found);
        i = i + 1;
    }
    out
}

} // verus!
