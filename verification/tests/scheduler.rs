use flow::arrangement::Arrangement;
use flow::repr::{Row, Value};
use flow::scheduler::{OperatorState, Scheduler, SubgraphId};

#[test]
fn new_scheduler_has_nothing_due() {
    let mut s = Scheduler::new();
    assert_eq!(s.cur_subgraph(), None);
    assert_eq!(s.next_wake(), None);
    assert_eq!(s.take_due(i64::MAX), Vec::<SubgraphId>::new());
}

#[test]
fn wake_is_due_from_its_time_on_and_taken_once() {
    let mut s = Scheduler::new();
    s.set_cur_subgraph(SubgraphId(3));
    assert_eq!(s.cur_subgraph(), Some(SubgraphId(3)));
    s.schedule_at(7);
    assert_eq!(s.next_wake(), Some(7));
    assert_eq!(s.take_due(6), Vec::<SubgraphId>::new());
    assert_eq!(s.next_wake(), Some(7));
    assert_eq!(s.take_due(7), vec![SubgraphId(3)]);
    assert_eq!(s.next_wake(), None);
    assert_eq!(s.take_due(7), Vec::<SubgraphId>::new());
    assert_eq!(s.take_due(100), Vec::<SubgraphId>::new());
}

#[test]
fn due_operators_come_by_time_then_by_order_of_asking() {
    let mut s = Scheduler::new();
    s.set_cur_subgraph(SubgraphId(2));
    s.schedule_at(5);
    s.schedule_at(3);
    s.set_cur_subgraph(SubgraphId(1));
    s.schedule_at(5);
    s.schedule_at(3);
    s.set_cur_subgraph(SubgraphId(9));
    s.schedule_at(4);
    assert_eq!(s.next_wake(), Some(3));
    assert_eq!(s.take_due(2), Vec::<SubgraphId>::new());
    assert_eq!(s.take_due(3), vec![SubgraphId(2), SubgraphId(1)]);
    assert_eq!(s.next_wake(), Some(4));
    assert_eq!(s.take_due(10), vec![SubgraphId(9), SubgraphId(2), SubgraphId(1)]);
    assert_eq!(s.next_wake(), None);
}

#[test]
fn several_due_wakes_of_one_operator_run_it_once() {
    let mut s = Scheduler::new();
    s.set_cur_subgraph(SubgraphId(1));
    s.schedule_at(3);
    s.schedule_at(5);
    s.schedule_at(5);
    s.schedule_at(8);
    s.set_cur_subgraph(SubgraphId(2));
    s.schedule_at(4);
    assert_eq!(s.take_due(5), vec![SubgraphId(1), SubgraphId(2)]);
    assert_eq!(s.next_wake(), Some(8));
    assert_eq!(s.take_due(8), vec![SubgraphId(1)]);
}

#[test]
fn schedule_for_arrange_asks_for_the_earliest_update_to_come() {
    let mut a = Arrangement::new();
    let row = |v: i64| Row::new(vec![Value::Int64(v)]);
    assert_eq!(
        a.write(0, vec![((row(1), Row::empty()), 9, 1), ((row(2), Row::empty()), 4, 1)]),
        Ok(())
    );
    assert_eq!(a.compaction(4), Ok(()));
    let mut s = Scheduler::new();
    s.set_cur_subgraph(SubgraphId(0));
    s.schedule_for_arrange(&a);
    assert_eq!(s.next_wake(), Some(9));
    assert_eq!(s.take_due(8), Vec::<SubgraphId>::new());
    assert_eq!(s.take_due(9), vec![SubgraphId(0)]);

    assert_eq!(a.compaction(9), Ok(()));
    s.schedule_for_arrange(&a);
    assert_eq!(s.next_wake(), None);
}

#[test]
fn extreme_times() {
    let mut s = Scheduler::new();
    s.set_cur_subgraph(SubgraphId(0));
    s.schedule_at(i64::MAX);
    s.schedule_at(i64::MIN);
    assert_eq!(s.next_wake(), Some(i64::MIN));
    assert_eq!(s.take_due(i64::MIN), vec![SubgraphId(0)]);
    assert_eq!(s.take_due(i64::MAX - 1), Vec::<SubgraphId>::new());
    assert_eq!(s.take_due(i64::MAX), vec![SubgraphId(0)]);
}

#[test]
fn operator_is_pending_until_its_wakes_are_taken() {
    let mut s = Scheduler::new();
    assert_eq!(s.state_of(SubgraphId(1)), OperatorState::Idle);
    s.set_cur_subgraph(SubgraphId(1));
    assert_eq!(s.state_of(SubgraphId(1)), OperatorState::Idle);
    s.schedule_at(9);
    assert_eq!(s.state_of(SubgraphId(1)), OperatorState::Pending(9));
    s.schedule_at(4);
    assert_eq!(s.state_of(SubgraphId(1)), OperatorState::Pending(4));
    assert_eq!(s.state_of(SubgraphId(2)), OperatorState::Idle);
    assert_eq!(s.take_due(3), Vec::<SubgraphId>::new());
    assert_eq!(s.state_of(SubgraphId(1)), OperatorState::Pending(4));
    assert_eq!(s.take_due(4), vec![SubgraphId(1)]);
    assert_eq!(s.state_of(SubgraphId(1)), OperatorState::Pending(9));
    assert_eq!(s.take_due(9), vec![SubgraphId(1)]);
    assert_eq!(s.state_of(SubgraphId(1)), OperatorState::Idle);
}
