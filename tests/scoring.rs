use lianghua_rs::config::{IndConfig, IndDef, IndError, RuleDef, RuleError};
use lianghua_rs::scoring::{
    hit_scopeway, impl_scope_at_recent, score_at, score_bars, BarScore, DistEntry, ScopeHit,
    ScopeWay,
};

// `C = [10, 11, 10, 12, 13]` and `when = C > REF(C, 1)`.
const WHEN: [bool; 5] = [false, true, false, true, true];

fn to_points(scores: &[BarScore], points: f64, table: &[f64]) -> Vec<f64> {
    scores
        .iter()
        .map(|s| match s {
            BarScore::Zero => 0.0,
            BarScore::Points => points,
            BarScore::Times(n) => *n as f64 * points,
            BarScore::Bucket(k) => table[*k],
        })
        .collect()
}

fn entry(min: usize, max: usize) -> DistEntry {
    DistEntry { min, max, finite: true }
}

#[test]
fn rule_scope_any() {
    let s = score_bars(ScopeWay::Any, 3, None, &WHEN);
    assert_eq!(to_points(&s, 1.0, &[]), vec![0.0, 1.0, 1.0, 1.0, 1.0]);
}

#[test]
fn rule_scope_consec() {
    let s = score_bars(ScopeWay::Consec(2), 3, None, &WHEN);
    assert_eq!(to_points(&s, 1.0, &[]), vec![0.0, 0.0, 0.0, 0.0, 1.0]);
}

#[test]
fn rule_scope_each() {
    let s = score_bars(ScopeWay::Each, 3, None, &WHEN);
    assert_eq!(to_points(&s, 1.0, &[]), vec![0.0, 1.0, 1.0, 2.0, 2.0]);
}

#[test]
fn rule_scope_recent() {
    let s = score_bars(ScopeWay::Recent, 3, None, &WHEN);
    assert_eq!(to_points(&s, 1.0, &[]), vec![0.0, 1.0, 1.0, 1.0, 1.0]);
}

#[test]
fn rule_scope_recent_with_table() {
    let table = [entry(0, 0), entry(1, 2)];
    let s = score_bars(ScopeWay::Recent, 3, Some(&table), &WHEN);
    assert_eq!(to_points(&s, 1.0, &[2.0, 1.0]), vec![0.0, 2.0, 1.0, 2.0, 2.0]);
}

#[test]
fn rule_scope_last_is_pointwise() {
    let s = score_bars(ScopeWay::Last, 4, None, &WHEN);
    assert_eq!(to_points(&s, 2.5, &[]), vec![0.0, 2.5, 0.0, 2.5, 2.5]);
}

#[test]
fn scope_hits_directly() {
    let bs = [true, true, false, true, true, true];
    assert_eq!(hit_scopeway(ScopeWay::Consec(3), 6, &bs, 5), ScopeHit::Bool(true));
    assert_eq!(hit_scopeway(ScopeWay::Consec(3), 3, &bs, 4), ScopeHit::Bool(false));
    assert_eq!(hit_scopeway(ScopeWay::Consec(0), 1, &[false], 0), ScopeHit::Bool(true));
    assert_eq!(hit_scopeway(ScopeWay::Recent, 2, &bs, 2), ScopeHit::Recent(Some(1)));
    assert_eq!(hit_scopeway(ScopeWay::Recent, 1, &bs, 2), ScopeHit::Recent(None));
    assert_eq!(hit_scopeway(ScopeWay::Each, 0, &bs, 2), ScopeHit::Count(0));
    assert_eq!(hit_scopeway(ScopeWay::Any, 1, &bs, 2), ScopeHit::Bool(false));
}

#[test]
fn recent_table_lookup() {
    let table = [entry(0, 1), entry(2, 5), entry(3, 4)];
    assert_eq!(impl_scope_at_recent(ScopeHit::Recent(Some(3)), &table), BarScore::Bucket(1));
    assert_eq!(impl_scope_at_recent(ScopeHit::Recent(Some(9)), &table), BarScore::Zero);
    assert_eq!(impl_scope_at_recent(ScopeHit::Recent(None), &table), BarScore::Zero);
    assert_eq!(impl_scope_at_recent(ScopeHit::Count(1), &table), BarScore::Zero);
    assert_eq!(score_at(ScopeHit::Count(4), None), BarScore::Times(4));
    assert_eq!(score_at(ScopeHit::Recent(Some(0)), Some(&[])), BarScore::Zero);
}

fn rule(name: &str, when: &str) -> RuleDef {
    RuleDef {
        name: name.to_string(),
        scope_windows: 3,
        scope_way: ScopeWay::Any,
        when: when.to_string(),
        points_finite: true,
        dist_points: None,
    }
}

#[test]
fn validate_rules_accepts_good_rules() {
    let mut r = rule("up", "C > O");
    r.dist_points = Some(vec![entry(3, 4), entry(0, 2)]);
    assert_eq!(RuleDef::validate_rules(&[rule("a", "C > 1"), r]), Ok(()));
}

#[test]
fn validate_rules_reports_first_fault() {
    assert_eq!(RuleDef::validate_rules(&[rule("a", "C"), rule(" ", "C")]), Err(RuleError::EmptyName(2)));
    assert_eq!(RuleDef::validate_rules(&[rule("a", "\t")]), Err(RuleError::EmptyWhen(1)));
    let mut r = rule("a", "C");
    r.points_finite = false;
    assert_eq!(RuleDef::validate_rules(&[r]), Err(RuleError::NoPoints(1)));
    let mut r = rule("a", "C");
    r.dist_points = Some(vec![entry(0, 1), entry(5, 2)]);
    assert_eq!(RuleDef::validate_rules(&[r]), Err(RuleError::InvertedRange(1, 2)));
    let mut r = rule("a", "C");
    r.dist_points = Some(vec![DistEntry { min: 0, max: 1, finite: false }]);
    assert_eq!(RuleDef::validate_rules(&[r]), Err(RuleError::BadPoints(1, 1)));
    let mut r = rule("a", "C");
    r.dist_points = Some(vec![entry(0, 1), entry(4, 6), entry(1, 2)]);
    assert_eq!(RuleDef::validate_rules(&[r]), Err(RuleError::Overlap(1, 1, 3)));
    let mut r = rule("a", "C");
    r.scope_windows = 0;
    assert_eq!(RuleDef::validate_rules(&[r]), Err(RuleError::ZeroWindow(1)));
}

#[test]
fn validate_inds_reports_blank_fields() {
    let d = |n: &str, e: &str| IndDef { output_name: n.to_string(), expr: e.to_string(), prec: 2 };
    assert_eq!(IndConfig::validate_inds(&[d("MA5", "MA(C,5)")]), Ok(()));
    assert_eq!(IndConfig::validate_inds(&[d("MA5", "MA(C,5)"), d("", "C")]), Err(IndError::EmptyOutputName(2)));
    assert_eq!(IndConfig::validate_inds(&[d("X", "  ")]), Err(IndError::EmptyExpr(1)));
}
