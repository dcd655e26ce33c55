use lianghua_rs::series::{bars_last, cross, get_latest, lag, rolling_count, select_if};

fn compare(a: &[f64], b: &[f64]) -> (Vec<Option<bool>>, Vec<Option<bool>>) {
    let gt = a.iter().zip(b).map(|(x, y)| Some(x > y)).collect();
    let le = a.iter().zip(b).map(|(x, y)| Some(x <= y)).collect();
    (gt, le)
}

#[test]
fn cross_scenario() {
    let (gt, le) = compare(&[1.0, 2.0, 3.0, 4.0, 3.0], &[2.0, 2.0, 2.0, 2.0, 4.0]);
    assert_eq!(cross(&gt, &le), vec![false, false, true, false, false]);
}

#[test]
fn cross_of_equal_series_is_all_false() {
    let a = [1.0, 5.0, 2.0, 2.0, 9.0];
    let (gt, le) = compare(&a, &a);
    assert_eq!(cross(&gt, &le), vec![false; 5]);
}

#[test]
fn cross_missing_and_empty() {
    let gt = vec![Some(false), None, Some(true)];
    let le = vec![Some(true), None, Some(true)];
    assert_eq!(cross(&gt, &le), vec![false, false, false]);
    assert_eq!(cross(&[], &[]), vec![false]);
}

#[test]
fn barslast_scenario() {
    let c = [false, false, true, false, false, true, false];
    assert_eq!(
        bars_last(&c),
        vec![None, None, Some(0), Some(1), Some(2), Some(0), Some(1)]
    );
}

#[test]
fn ref_lags_and_composes() {
    let x = vec![Some(1), Some(2), None, Some(4), Some(5)];
    assert_eq!(lag(&x, 2), vec![None, None, Some(1), Some(2), None]);
    assert_eq!(lag(&x, 0), x);
    assert_eq!(lag(&lag(&x, 1), 2), lag(&x, 3));
    assert_eq!(lag(&x, 9), vec![None; 5]);
}

#[test]
fn count_rolling_window() {
    let c = [true, false, true, true, false, true];
    assert_eq!(rolling_count(&c, 3), vec![1, 1, 2, 2, 2, 2]);
    assert_eq!(rolling_count(&c, 0), vec![1, 0, 1, 1, 0, 1]);
    assert_eq!(rolling_count(&c, 1), vec![1, 0, 1, 1, 0, 1]);
    assert_eq!(rolling_count(&c, 100), vec![1, 1, 2, 3, 3, 4]);
}

#[test]
fn if_selects_per_bar() {
    let c = [true, false, true];
    let a = [Some(1.5), Some(2.5), None];
    let b = [Some(-1.0), None, Some(3.0)];
    assert_eq!(select_if(&c, &a, &b), vec![Some(1.5), None, None]);
}

#[test]
fn get_takes_latest_earlier_hit() {
    let c = [true, false, true, false, false, false];
    let x = [Some(10), Some(11), Some(12), Some(13), Some(14), Some(15)];
    assert_eq!(
        get_latest(&c, &x, 2),
        vec![None, Some(10), Some(10), Some(12), Some(12), None]
    );
    assert_eq!(get_latest(&c, &x, 0), vec![None, Some(10), None, Some(12), None, None]);
}
