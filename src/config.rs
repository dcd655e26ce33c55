use vstd::prelude::*;
use crate::scoring::{DistEntry, ScopeWay};
use crate::text::{
    blank, chars_of, is_blank, parse_usize, trim_bounds, trimmed, upper_matches, upper_matches_at,
    usize_of,
};

verus! {

/// The indicator file: its format version and its definitions.
#[derive(Debug, Clone)]
pub struct IndConfig {
    pub version: u32,
    pub ind: Vec<IndDef>,
}

/// One indicator: the column it fills, its expression, and its precision.
#[derive(Debug, Clone)]
pub struct IndDef {
    pub output_name: String,
    pub expr: String,
    pub prec: u8,
}

/// Why an indicator definition is refused; the number counts from one.
#[derive(Debug, Clone, Copy, PartialEq, Eq, Structural)]
pub enum IndError {
    EmptyOutputName(usize),
    EmptyExpr(usize),
}

/// What is wrong with the `n`-th indicator, if anything.
pub open spec fn ind_fault(d: IndDef, n: usize) -> Option<IndError> {
    if blank(d.output_name@) {
        Some(IndError::EmptyOutputName(n))
    } else if blank(d.expr@) {
        Some(IndError::EmptyExpr(n))
    } else {
        None
    }
}

impl IndConfig {
    /// Accepts the definitions when every name and expression holds more than
    /// whitespace; otherwise reports the first one that does not.
    pub fn validate_inds(inds: &[IndDef]) -> (r: Result<(), IndError>)
        ensures
            r is Ok <==> forall|i: int| 0 <= i < inds@.len() ==> ind_fault(#[trigger] inds@[i], (i + 1) as usize) is None,
            r matches Err(e) ==> exists|i: int|
                0 <= i < inds@.len() && ind_fault(#[trigger] inds@[i], (i + 1) as usize) == Some(e)
                    && forall|k: int| 0 <= k < i ==> ind_fault(#[trigger] inds@[k], (k + 1) as usize) is None,
    {
        let len = inds.len();
        let mut i: usize = 0;
        while i < len
            invariant
                len == inds@.len(),
                i <= len,
                forall|k: int| 0 <= k < i ==> ind_fault(#[trigger] inds@[k], (k + 1) as usize) is None,
            decreases len - i,
        {
            let n = i + 1;
            let x = &inds[i];
            if is_blank(x.output_name.as_str()) {
                return Err(IndError::EmptyOutputName(n));
            }
            if is_blank(x.expr.as_str()) {
                return Err(IndError::EmptyExpr(n));
            }
            i = i + 1;
        }
        Ok(())
    }
}

/// A scoring rule as the engine reads it. Its points are known here only as
/// finite or not; the amounts stay with the caller.
#[derive(Debug, Clone)]
pub struct RuleDef {
    pub name: String,
    pub scope_windows: usize,
    pub scope_way: ScopeWay,
    pub when: String,
    pub points_finite: bool,
    pub dist_points: Option<Vec<DistEntry>>,
}

/// Why a rule is refused. The first number is the rule's, the others an
/// entry's of its distribution table; all count from one.
#[derive(Debug, Clone, Copy, PartialEq, Eq, Structural)]
pub enum RuleError {
    EmptyName(usize),
    EmptyWhen(usize),
    /// Neither finite points nor a non-empty distribution table.
    NoPoints(usize),
    /// An entry with `min > max`.
    InvertedRange(usize, usize),
    /// An entry whose points are not finite.
    BadPoints(usize, usize),
    /// Two entries whose ranges share a value.
    Overlap(usize, usize, usize),
    ZeroWindow(usize),
}

/// Entry `e` is refused on its own.
pub open spec fn bad_entry(e: DistEntry) -> bool {
    e.min > e.max || !e.finite
}

/// The first refused entry at index `j` or later.
pub open spec fn first_bad(d: Seq<DistEntry>, j: int) -> Option<int>
    decreases d.len() - j,
{
    if j < 0 || j >= d.len() {
        None
    } else if bad_entry(d[j]) {
        Some(j)
    } else {
        first_bad(d, j + 1)
    }
}

/// Two ranges share a value.
pub open spec fn overlaps(a: DistEntry, b: DistEntry) -> bool {
    a.min <= b.max && b.min <= a.max
}

/// The first entry at index `k` or later whose range meets that of entry `j`.
pub open spec fn partner(d: Seq<DistEntry>, j: int, k: int) -> Option<int>
    decreases d.len() - k,
{
    if k < 0 || k >= d.len() {
        None
    } else if overlaps(d[j], d[k]) {
        Some(k)
    } else {
        partner(d, j, k + 1)
    }
}

/// The first pair `(j, k)`, `j < k`, with `j` at index `from` or later, whose ranges meet;
/// pairs are taken by `j`, then by `k`.
pub open spec fn first_overlap(d: Seq<DistEntry>, from: int) -> Option<(int, int)>
    decreases d.len() - from,
{
    if from < 0 || from >= d.len() {
        None
    } else {
        match partner(d, from, from + 1) {
            Some(k) => Some((from, k)),
            None => first_overlap(d, from + 1),
        }
    }
}

/// What is wrong with a distribution table of rule `n`, if anything.
pub open spec fn table_fault(d: Seq<DistEntry>, n: usize) -> Option<RuleError> {
    match first_bad(d, 0) {
        Some(j) => if d[j].min > d[j].max {
            Some(RuleError::InvertedRange(n, (j + 1) as usize))
        } else {
            Some(RuleError::BadPoints(n, (j + 1) as usize))
        },
        None => match first_overlap(d, 0) {
            Some((j, k)) => Some(RuleError::Overlap(n, (j + 1) as usize, (k + 1) as usize)),
            None => None,
        },
    }
}

/// What is wrong with rule `n`, if anything, in the order the checks are made.
pub open spec fn rule_fault(r: RuleDef, n: usize) -> Option<RuleError> {
    if blank(r.name@) {
        Some(RuleError::EmptyName(n))
    } else if blank(r.when@) {
        Some(RuleError::EmptyWhen(n))
    } else if !r.points_finite && !(r.dist_points matches Some(d) && d@.len() > 0) {
        Some(RuleError::NoPoints(n))
    } else if r.dist_points is Some && table_fault(r.dist_points->0@, n) is Some {
        table_fault(r.dist_points->0@, n)
    } else if r.scope_windows == 0 {
        Some(RuleError::ZeroWindow(n))
    } else {
        None
    }
}

fn check_table(d: &Vec<DistEntry>, n: usize) -> (r: Result<(), RuleError>)
    ensures
        r is Ok <==> table_fault(d@, n) is None,
        r matches Err(e) ==> table_fault(d@, n) == Some(e),
{
    let len = d.len();
    let mut j: usize = 0;
    while j < len
        invariant
            len == d@.len(),
            j <= len,
            first_bad(d@, 0) == first_bad(d@, j as int),
        decreases len - j,
    {
        if d[j].min > d[j].max {
            return Err(RuleError::InvertedRange(n, j + 1));
        }
        if !d[j].finite {
            return Err(RuleError::BadPoints(n, j + 1));
        }
        j = j + 1;
    }
    let mut j: usize = 0;
    while j < len
        invariant
            len == d@.len(),
            j <= len,
            first_bad(d@, 0) is None,
            first_overlap(d@, 0) == first_overlap(d@, j as int),
        decreases len - j,
    {
        let mut k: usize = j + 1;
        while k < len
            invariant
                len == d@.len(),
                j < len,
                j + 1 <= k <= len,
                first_bad(d@, 0) is None,
                first_overlap(d@, 0) == first_overlap(d@, j as int),
                partner(d@, j as int, j + 1) == partner(d@, j as int, k as int),
            decreases len - k,
        {
            if d[j].min <= d[k].max && d[k].min <= d[j].max {
                return Err(RuleError::Overlap(n, j + 1, k + 1));
            }
            k = k + 1;
        }
        j = j + 1;
    }
    Ok(())
}

impl RuleDef {
    /// Accepts the rules when each passes its checks; otherwise reports the
    /// first fault of the first rule that has one.
    pub fn validate_rules(rules: &[RuleDef]) -> (r: Result<(), RuleError>)
        ensures
            r is Ok <==> forall|i: int| 0 <= i < rules@.len() ==> rule_fault(#[trigger] rules@[i], (i + 1) as usize) is None,
            r matches Err(e) ==> exists|i: int|
                0 <= i < rules@.len() && rule_fault(#[trigger] rules@[i], (i + 1) as usize) == Some(e)
                    && forall|k: int| 0 <= k < i ==> rule_fault(#[trigger] rules@[k], (k + 1) as usize) is None,
    {
        let len = rules.len();
        let mut i: usize = 0;
        while i < len
            invariant
                len == rules@.len(),
                i <= len,
                forall|k: int| 0 <= k < i ==> rule_fault(#[trigger] rules@[k], (k + 1) as usize) is None,
            decreases len - i,
        {
            let n = i + 1;
            let r = &rules[i];
            if is_blank(r.name.as_str()) {
                return Err(RuleError::EmptyName(n));
            }
            if is_blank(r.when.as_str()) {
                return Err(RuleError::EmptyWhen(n));
            }
            let has_dist = match &r.dist_points {
                Some(v) => v.len() > 0,
                None => false,
            };
            if !r.points_finite && !has_dist {
                return Err(RuleError::NoPoints(n));
            }
            match &r.dist_points {
                Some(d) => {
                    match check_table(d, n) {
                        Err(e) => {
                            return Err(e);
                        },
                        Ok(()) => {},
                    }
                },
                None => {},
            }
            if r.scope_windows == 0 {
                return Err(RuleError::ZeroWindow(n));
            }
            i = i + 1;
        }
        Ok(())
    }
}

/// Why a `scope_way` setting is refused.
#[derive(Debug, Clone, Copy, PartialEq, Eq, Structural)]
pub enum ScopeWayError {
    /// Not one of `ANY`, `LAST`, `EACH`, `RECENT`, `CONSEC>=K`.
    Unknown,
    /// What follows `CONSEC>=` is not a count.
    BadCount,
    /// `CONSEC>=0`.
    ZeroCount,
}

/// The scope a `scope_way` setting names: trimmed, in any letter case.
pub open spec fn scope_way_of(raw: Seq<char>) -> Result<ScopeWay, ScopeWayError> {
    let t = trimmed(raw);
    if upper_matches(t, "ANY"@) {
        Ok(ScopeWay::Any)
    } else if upper_matches(t, "LAST"@) {
        Ok(ScopeWay::Last)
    } else if upper_matches(t, "EACH"@) {
        Ok(ScopeWay::Each)
    } else if upper_matches(t, "RECENT"@) {
        Ok(ScopeWay::Recent)
    } else if t.len() >= "CONSEC>="@.len() && upper_matches(
        t.subrange(0, "CONSEC>="@.len() as int),
        "CONSEC>="@,
    ) {
        match usize_of(t.subrange("CONSEC>="@.len() as int, t.len() as int)) {
            None => Err(ScopeWayError::BadCount),
            Some(k) => if k == 0 {
                Err(ScopeWayError::ZeroCount)
            } else {
                Ok(ScopeWay::Consec(k as usize))
            },
        }
    } else {
        Err(ScopeWayError::Unknown)
    }
}

/// Reads a `scope_way` setting.
pub fn parse_scope_way(raw: &str) -> (r: Result<ScopeWay, ScopeWayError>)
    ensures
        r == scope_way_of(raw@),
{
    let v = chars_of(raw);
    let (lo, hi) = trim_bounds(&v);
    let ghost t = v@.subrange(lo as int, hi as int);
    if upper_matches_at(&v, lo, hi, "ANY") {
        return Ok(ScopeWay::Any);
    }
    if upper_matches_at(&v, lo, hi, "LAST") {
        return Ok(ScopeWay::Last);
    }
    if upper_matches_at(&v, lo, hi, "EACH") {
        return Ok(ScopeWay::Each);
    }
    if upper_matches_at(&v, lo, hi, "RECENT") {
        return Ok(ScopeWay::Recent);
    }
    let prefix = "CONSEC>=";
    let plen = chars_of(prefix).len();
    if hi - lo >= plen && upper_matches_at(&v, lo, lo + plen, prefix) {
        proof {
            assert(t.subrange(0, plen as int) =~= v@.subrange(lo as int, lo + plen));
            assert(t.subrange(plen as int, t.len() as int) =~= v@.subrange(lo + plen, hi as int));
        }
        match parse_usize(&v, lo + plen, hi) {
            None => Err(ScopeWayError::BadCount),
            Some(k) => if k == 0 {
                Err(ScopeWayError::ZeroCount)
            } else {
                Ok(ScopeWay::Consec(k))
            },
        }
    } else {
        proof {
            if t.len() >= plen {
                assert(t.subrange(0, plen as int) =~= v@.subrange(lo as int, lo + plen));
            }
        }
        Err(ScopeWayError::Unknown)
    }
}

} // verus!
