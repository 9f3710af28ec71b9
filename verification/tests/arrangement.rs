use flow::arrangement::{Arrangement, ArrangementError};
use flow::repr::{KeyValDiffRow, Row, Value};

fn key(v: i64) -> Row {
    Row::new(vec![Value::Int64(v)])
}

fn update(k: i64, time: i64, diff: i64) -> KeyValDiffRow {
    ((key(k), Row::empty()), time, diff)
}

fn everything(a: &Arrangement) -> Vec<KeyValDiffRow> {
    a.read_range(i64::MIN, i64::MAX)
}

#[test]
fn new_arrangement_is_empty() {
    let a = Arrangement::new();
    assert_eq!(a.last_compaction_time(), None);
    assert_eq!(a.earliest_future_time(), None);
    assert_eq!(everything(&a), Vec::<KeyValDiffRow>::new());
}

#[test]
fn write_orders_by_time_and_keeps_arrival_order() {
    let mut a = Arrangement::new();
    let written = a.write(
        0,
        vec![update(1, 2, 1), update(2, 1, 1), update(1, 2, -1), update(3, 1, 1)],
    );
    assert_eq!(written, Ok(()));
    assert_eq!(
        everything(&a),
        vec![update(2, 1, 1), update(3, 1, 1), update(1, 2, 1), update(1, 2, -1)]
    );
    assert_eq!(a.earliest_future_time(), Some(1));
    assert_eq!(a.last_compaction_time(), None);
}

#[test]
fn later_writes_go_behind_earlier_ones_of_the_same_time() {
    let mut a = Arrangement::new();
    assert_eq!(a.write(0, vec![update(1, 5, 1), update(2, 7, 1)]), Ok(()));
    assert_eq!(a.write(1, vec![update(3, 5, 1), update(4, 6, 1)]), Ok(()));
    assert_eq!(
        everything(&a),
        vec![update(1, 5, 1), update(3, 5, 1), update(4, 6, 1), update(2, 7, 1)]
    );
}

#[test]
fn read_range_includes_both_ends() {
    let mut a = Arrangement::new();
    assert_eq!(
        a.write(0, vec![update(1, 1, 1), update(2, 2, 1), update(3, 3, 1), update(4, 4, 1)]),
        Ok(())
    );
    assert_eq!(a.read_range(2, 3), vec![update(2, 2, 1), update(3, 3, 1)]);
    assert_eq!(a.read_range(4, 4), vec![update(4, 4, 1)]);
    assert_eq!(a.read_range(5, 9), Vec::<KeyValDiffRow>::new());
    assert_eq!(a.read_range(3, 2), Vec::<KeyValDiffRow>::new());
    assert_eq!(a.read_range(i64::MIN, 1), vec![update(1, 1, 1)]);
}

#[test]
fn read_range_twice_gives_equal_results() {
    let mut a = Arrangement::new();
    assert_eq!(
        a.write(0, vec![update(1, 1, 1), update(2, 2, 1), update(1, 2, -1)]),
        Ok(())
    );
    let first = a.read_range(1, 2);
    let second = a.read_range(1, 2);
    assert_eq!(first, second);
    assert_eq!(first, vec![update(1, 1, 1), update(2, 2, 1), update(1, 2, -1)]);
    assert_eq!(a.compaction(1), Ok(()));
    let third = a.read_range(1, 2);
    let fourth = a.read_range(1, 2);
    assert_eq!(third, fourth);
}

#[test]
fn read_range_reaches_behind_the_frontier() {
    let mut a = Arrangement::new();
    assert_eq!(
        a.write(0, vec![update(1, 1, 1), update(2, 2, 1), update(3, 3, 1)]),
        Ok(())
    );
    assert_eq!(a.compaction(2), Ok(()));
    assert_eq!(a.read_range(1, 3), vec![update(1, 1, 1), update(2, 2, 1), update(3, 3, 1)]);
    assert_eq!(a.read_range(3, 3), vec![update(3, 3, 1)]);
    assert_eq!(a.read_range(2, 2), vec![update(2, 2, 1)]);
}

#[test]
fn compaction_sums_per_key_and_time() {
    let mut a = Arrangement::new();
    assert_eq!(
        a.write(
            0,
            vec![update(1, 5, 1), update(2, 5, 1), update(1, 5, 1), update(1, 6, 1)]
        ),
        Ok(())
    );
    assert_eq!(a.compaction(5), Ok(()));
    assert_eq!(a.last_compaction_time(), Some(5));
    assert_eq!(everything(&a), vec![update(1, 5, 2), update(2, 5, 1), update(1, 6, 1)]);
    assert_eq!(a.earliest_future_time(), Some(6));
}

#[test]
fn compaction_drops_zero_sums() {
    let mut a = Arrangement::new();
    assert_eq!(
        a.write(0, vec![update(1, 2, 1), update(2, 2, 1), update(1, 2, -1)]),
        Ok(())
    );
    assert_eq!(a.compaction(2), Ok(()));
    assert_eq!(everything(&a), vec![update(2, 2, 1)]);
    assert_eq!(a.earliest_future_time(), None);
}

#[test]
fn compaction_keeps_times_apart() {
    let mut a = Arrangement::new();
    assert_eq!(
        a.write(0, vec![update(1, 1, 1), update(1, 2, -1), update(1, 3, 4)]),
        Ok(())
    );
    assert_eq!(a.compaction(2), Ok(()));
    assert_eq!(everything(&a), vec![update(1, 1, 1), update(1, 2, -1), update(1, 3, 4)]);
}

#[test]
fn compaction_tells_values_apart() {
    let mut a = Arrangement::new();
    let with_value = |v: i64, diff: i64| -> KeyValDiffRow { ((key(1), key(v)), 3, diff) };
    assert_eq!(
        a.write(0, vec![with_value(7, 1), with_value(8, 1), with_value(7, 2)]),
        Ok(())
    );
    assert_eq!(a.compaction(3), Ok(()));
    assert_eq!(everything(&a), vec![with_value(7, 3), with_value(8, 1)]);
}

#[test]
fn compaction_leaves_later_updates_as_written() {
    let mut a = Arrangement::new();
    assert_eq!(
        a.write(0, vec![update(1, 9, 1), update(1, 9, 1), update(1, 9, -2)]),
        Ok(())
    );
    assert_eq!(a.compaction(8), Ok(()));
    assert_eq!(everything(&a), vec![update(1, 9, 1), update(1, 9, 1), update(1, 9, -2)]);
    assert_eq!(a.earliest_future_time(), Some(9));
    assert_eq!(a.last_compaction_time(), Some(8));
}

#[test]
fn compaction_in_steps_equals_net_effect() {
    let mut a = Arrangement::new();
    assert_eq!(
        a.write(0, vec![update(1, 1, 1), update(1, 1, 1), update(2, 2, 5), update(2, 2, -5)]),
        Ok(())
    );
    assert_eq!(a.compaction(1), Ok(()));
    assert_eq!(everything(&a), vec![update(1, 1, 2), update(2, 2, 5), update(2, 2, -5)]);
    assert_eq!(a.compaction(2), Ok(()));
    assert_eq!(everything(&a), vec![update(1, 1, 2)]);
}

#[test]
fn compaction_behind_the_frontier_is_refused() {
    let mut a = Arrangement::new();
    assert_eq!(a.write(0, vec![update(1, 3, 1), update(1, 3, 1), update(2, 6, 1)]), Ok(()));
    assert_eq!(a.compaction(5), Ok(()));
    let before = everything(&a);
    assert_eq!(
        a.compaction(3),
        Err(ArrangementError::CompactionBehindFrontier { horizon: 3, frontier: 5 })
    );
    assert_eq!(a.last_compaction_time(), Some(5));
    assert_eq!(everything(&a), before);
    assert_eq!(before, vec![update(1, 3, 2), update(2, 6, 1)]);
}

#[test]
fn compaction_at_the_frontier_changes_nothing() {
    let mut a = Arrangement::new();
    assert_eq!(a.write(0, vec![update(1, 3, 1), update(2, 6, 1)]), Ok(()));
    assert_eq!(a.compaction(5), Ok(()));
    assert_eq!(a.compaction(5), Ok(()));
    assert_eq!(a.last_compaction_time(), Some(5));
    assert_eq!(everything(&a), vec![update(1, 3, 1), update(2, 6, 1)]);
}

#[test]
fn compaction_of_extreme_horizons() {
    let mut a = Arrangement::new();
    assert_eq!(a.write(0, vec![update(1, i64::MIN, 1), update(2, i64::MAX, 1)]), Ok(()));
    assert_eq!(a.compaction(i64::MIN), Ok(()));
    assert_eq!(a.earliest_future_time(), Some(i64::MAX));
    assert_eq!(a.compaction(i64::MAX), Ok(()));
    assert_eq!(a.earliest_future_time(), None);
    assert_eq!(a.last_compaction_time(), Some(i64::MAX));
    assert_eq!(
        a.write(i64::MAX, vec![update(3, i64::MAX, 1)]),
        Err(ArrangementError::UpdateBehindFrontier { frontier: i64::MAX })
    );
}

#[test]
fn sum_beyond_diff_is_refused() {
    let mut a = Arrangement::new();
    assert_eq!(a.write(0, vec![update(1, 1, i64::MAX), update(1, 1, 1), update(2, 1, 1)]), Ok(()));
    assert_eq!(a.compaction(1), Err(ArrangementError::DiffOverflow));
    assert_eq!(a.last_compaction_time(), None);
    assert_eq!(
        everything(&a),
        vec![update(1, 1, i64::MAX), update(1, 1, 1), update(2, 1, 1)]
    );
    // a horizon before the updates can still be compacted
    assert_eq!(a.compaction(0), Ok(()));
    assert_eq!(a.last_compaction_time(), Some(0));
}

#[test]
fn sum_within_diff_is_taken_whatever_the_partial_sums() {
    let mut a = Arrangement::new();
    assert_eq!(
        a.write(0, vec![update(1, 1, i64::MAX), update(1, 1, 1), update(1, 1, -5)]),
        Ok(())
    );
    assert_eq!(a.compaction(1), Ok(()));
    assert_eq!(everything(&a), vec![update(1, 1, i64::MAX - 4)]);

    let mut b = Arrangement::new();
    assert_eq!(
        b.write(0, vec![update(1, 1, i64::MIN), update(1, 1, -1), update(1, 1, 1)]),
        Ok(())
    );
    assert_eq!(b.compaction(1), Ok(()));
    assert_eq!(everything(&b), vec![update(1, 1, i64::MIN)]);
}

#[test]
fn write_dated_before_the_frontier_is_refused() {
    let mut a = Arrangement::new();
    assert_eq!(a.compaction(5), Ok(()));
    assert_eq!(
        a.write(4, Vec::new()),
        Err(ArrangementError::WriteBehindFrontier { time: 4, frontier: 5 })
    );
    assert_eq!(
        a.write(4, vec![update(1, 9, 1)]),
        Err(ArrangementError::WriteBehindFrontier { time: 4, frontier: 5 })
    );
    assert_eq!(everything(&a), Vec::<KeyValDiffRow>::new());
    assert_eq!(a.write(5, Vec::new()), Ok(()));
}

#[test]
fn update_at_or_before_the_frontier_is_refused() {
    let mut a = Arrangement::new();
    assert_eq!(a.write(0, vec![update(1, 7, 1)]), Ok(()));
    assert_eq!(a.compaction(5), Ok(()));
    assert_eq!(
        a.write(5, vec![update(2, 5, 1)]),
        Err(ArrangementError::UpdateBehindFrontier { frontier: 5 })
    );
    assert_eq!(
        a.write(6, vec![update(2, 4, 1)]),
        Err(ArrangementError::UpdateBehindFrontier { frontier: 5 })
    );
    // the write is refused as a whole
    assert_eq!(
        a.write(6, vec![update(2, 6, 1), update(3, 5, 1), update(4, 8, 1)]),
        Err(ArrangementError::UpdateBehindFrontier { frontier: 5 })
    );
    assert_eq!(everything(&a), vec![update(1, 7, 1)]);
    assert_eq!(a.last_compaction_time(), Some(5));
    // an update beyond the frontier is taken, also where it is dated before the write
    assert_eq!(a.write(9, vec![update(2, 6, 1)]), Ok(()));
    assert_eq!(everything(&a), vec![update(2, 6, 1), update(1, 7, 1)]);
}

#[test]
fn earliest_future_time_is_the_least_time_beyond_the_frontier() {
    let mut a = Arrangement::new();
    assert_eq!(a.write(0, vec![update(1, 9, 1), update(2, 4, 1), update(3, 6, 1)]), Ok(()));
    assert_eq!(a.earliest_future_time(), Some(4));
    assert_eq!(a.compaction(3), Ok(()));
    assert_eq!(a.earliest_future_time(), Some(4));
    assert_eq!(a.compaction(4), Ok(()));
    assert_eq!(a.earliest_future_time(), Some(6));
    assert_eq!(a.compaction(8), Ok(()));
    assert_eq!(a.earliest_future_time(), Some(9));
    assert_eq!(a.compaction(9), Ok(()));
    assert_eq!(a.earliest_future_time(), None);
}

#[test]
fn second_compaction_with_earlier_horizon_keeps_frontier_and_updates() {
    for (first, second) in [(5, 4), (5, -3), (0, i64::MIN), (i64::MAX, 0)] {
        let mut a = Arrangement::new();
        assert_eq!(
            a.write(i64::MIN, vec![update(1, -1, 1), update(1, -1, 2), update(2, 3, 1), update(2, 7, 1)]),
            Ok(())
        );
        assert_eq!(a.compaction(first), Ok(()));
        let held = everything(&a);
        assert_eq!(
            a.compaction(second),
            Err(ArrangementError::CompactionBehindFrontier { horizon: second, frontier: first })
        );
        assert_eq!(a.last_compaction_time(), Some(first));
        assert_eq!(everything(&a), held);
    }
}
