use std::collections::BTreeMap;
use std::ops::Range;

use flow::expr::{BinaryFunc, GlobalId, Id, ScalarExpr, UnaryFunc, UnmaterializableFunc};
use flow::linear::MapFilterProject;
use flow::render::{CollectionBundle, Context, Plan};
use flow::repr::{ConcreteDataType, DiffRow, Row};
use flow::scheduler::SubgraphId;

/// Runs, at the time that the clock shows, the operators whose wake-up is due
/// and those for which input has arrived, in the order of their rendering.
/// Returns what each operator has handed on.
fn run_available_with_schedule(ctx: &mut Context) -> Vec<Vec<DiffRow>> {
    let due = ctx.take_due();
    let mut outputs: Vec<Vec<DiffRow>> = Vec::new();
    for i in 0..ctx.subgraph_count() {
        let id = SubgraphId(i);
        let input = match ctx.input_of(id) {
            Some(source) if source.0 < i => outputs[source.0].clone(),
            _ => Vec::new(),
        };
        let output = if due.contains(&id) || !input.is_empty() {
            ctx.run_subgraph(id, input)
        } else {
            Vec::new()
        };
        outputs.push(output);
    }
    outputs
}

fn get_output_handle(bundle: &CollectionBundle) -> SubgraphId {
    bundle.collection.stream
}

fn run_and_check(
    ctx: &mut Context,
    time_range: Range<i64>,
    expected: BTreeMap<i64, Vec<DiffRow>>,
    output: SubgraphId,
) {
    for now in time_range {
        ctx.set_current_ts(now);
        let outputs = run_available_with_schedule(ctx);
        if !ctx.compute_state().get_err_collector().is_empty() {
            panic!(
                "Errors occur: {:?}",
                ctx.compute_state().get_err_collector().get_all()
            )
        }
        assert!(ctx.compute_state().get_err_collector().is_empty());
        if let Some(expected) = expected.get(&now) {
            assert_eq!(outputs[output.0], *expected, "at ts={}", now);
        } else {
            assert_eq!(outputs[output.0], Vec::<DiffRow>::new(), "at ts={}", now);
        };
    }
}

/// test if temporal filter works properly
/// namely: if mfp operator can schedule a delete at the correct time
#[test]
fn test_render_mfp_with_temporal() {
    let mut ctx = Context::new();

    let rows = vec![
        (Row::new(vec![1i64.into()]), 0, 1),
        (Row::new(vec![2i64.into()]), 0, 1),
        (Row::new(vec![3i64.into()]), 0, 1),
    ];
    let collection = ctx.render_constant(rows.clone());
    ctx.insert_global(GlobalId::User(1), collection);
    let input_plan = Plan::Get {
        id: Id::Global(GlobalId::User(1)),
    };
    // temporal filter: now <= col(0) < now + 4
    let mfp = MapFilterProject::new(1)
        .filter(vec![
            ScalarExpr::Column(0)
                .call_unary(UnaryFunc::Cast(ConcreteDataType::datetime_datatype()))
                .call_binary(
                    ScalarExpr::CallUnmaterializable(UnmaterializableFunc::Now),
                    BinaryFunc::Gte,
                ),
            ScalarExpr::Column(0)
                .call_binary(
                    ScalarExpr::literal(4i64.into(), ConcreteDataType::int64_datatype()),
                    BinaryFunc::SubInt64,
                )
                .call_unary(UnaryFunc::Cast(ConcreteDataType::datetime_datatype()))
                .call_binary(
                    ScalarExpr::CallUnmaterializable(UnmaterializableFunc::Now),
                    BinaryFunc::Lt,
                ),
        ])
        .unwrap();

    let bundle = ctx.render_mfp(Box::new(input_plan), mfp).unwrap();
    let output = get_output_handle(&bundle);
    // expected output at given time
    let expected_output = BTreeMap::from([
        (
            0, // time
            vec![
                (Row::new(vec![1i64.into()]), 0, 1),
                (Row::new(vec![2i64.into()]), 0, 1),
                (Row::new(vec![3i64.into()]), 0, 1),
            ],
        ),
        (
            2, // time
            vec![(Row::new(vec![1i64.into()]), 2, -1)],
        ),
        (
            3, // time
            vec![(Row::new(vec![2i64.into()]), 3, -1)],
        ),
        (
            4, // time
            vec![(Row::new(vec![3i64.into()]), 4, -1)],
        ),
    ]);
    run_and_check(&mut ctx, 0..5, expected_output, output);
}

/// test if mfp operator without temporal filter works properly
/// that is it filter the rows correctly
#[test]
fn test_render_mfp() {
    let mut ctx = Context::new();

    let rows = vec![
        (Row::new(vec![1.into()]), 1, 1),
        (Row::new(vec![2.into()]), 2, 1),
        (Row::new(vec![3.into()]), 3, 1),
    ];
    let collection = ctx.render_constant(rows.clone());
    ctx.insert_global(GlobalId::User(1), collection);
    let input_plan = Plan::Get {
        id: Id::Global(GlobalId::User(1)),
    };
    // filter: col(0)>1
    let mfp = MapFilterProject::new(1)
        .filter(vec![ScalarExpr::Column(0).call_binary(
            ScalarExpr::literal(1.into(), ConcreteDataType::int32_datatype()),
            BinaryFunc::Gt,
        )])
        .unwrap();
    let bundle = ctx.render_mfp(Box::new(input_plan), mfp).unwrap();

    let output = get_output_handle(&bundle);
    let expected = BTreeMap::from([
        (2, vec![(Row::new(vec![2.into()]), 2, 1)]),
        (3, vec![(Row::new(vec![3.into()]), 3, 1)]),
    ]);
    run_and_check(&mut ctx, 1..5, expected, output);
}

fn col(c: usize) -> ScalarExpr {
    ScalarExpr::Column(c)
}

fn greater_than(c: usize, v: i64) -> ScalarExpr {
    col(c).call_binary(
        ScalarExpr::literal(v.into(), ConcreteDataType::int64_datatype()),
        BinaryFunc::Gt,
    )
}

fn row(v: i64) -> Row {
    Row::new(vec![v.into()])
}

#[test]
fn bundle_of_an_operator_offers_its_arrangement_by_all_output_columns() {
    let mut ctx = Context::new();
    let source = ctx.render_constant(vec![(Row::new(vec![1i64.into(), 2i64.into()]), 0, 1)]);
    assert_eq!(source.collection.stream, SubgraphId(0));
    assert_eq!(source.arranged, vec![]);
    ctx.insert_global(GlobalId::User(1), source);
    let mfp = MapFilterProject::new(2)
        .map(vec![col(0)])
        .unwrap()
        .project(vec![2, 0, 1])
        .unwrap();
    let bundle = ctx
        .render_mfp(Box::new(Plan::Get { id: Id::Global(GlobalId::User(1)) }), mfp)
        .unwrap();
    assert_eq!(bundle.collection.stream, SubgraphId(1));
    assert_eq!(bundle.arranged.len(), 1);
    assert_eq!(bundle.arranged[0].0, vec![col(0), col(1), col(2)]);
    let handle = bundle.arranged[0].1.arrangement;
    assert_eq!(ctx.subgraph_count(), 2);
    assert_eq!(ctx.input_of(SubgraphId(1)), Some(SubgraphId(0)));
    assert_eq!(ctx.input_of(SubgraphId(0)), None);
    assert_eq!(ctx.input_of(SubgraphId(2)), None);
    assert_eq!(ctx.compute_state().arrangement_count(), 1);

    // a reader of the bundle sees what the operator keeps
    let arrangement = ctx.compute_state().arrangement(handle).unwrap();
    assert_eq!(arrangement.last_compaction_time(), None);
    assert_eq!(arrangement.earliest_future_time(), None);
    ctx.set_current_ts(0);
    let outputs = run_available_with_schedule(&mut ctx);
    let projected = Row::new(vec![1i64.into(), 1i64.into(), 2i64.into()]);
    assert_eq!(outputs[1], vec![(projected.clone(), 0, 1)]);
    let arrangement = ctx.compute_state().arrangement(handle).unwrap();
    assert_eq!(arrangement.last_compaction_time(), Some(0));
    assert_eq!(
        arrangement.read_range(0, 0),
        vec![((projected, Row::empty()), 0, 1)]
    );
}

#[test]
fn operator_that_cannot_be_compiled_is_not_rendered() {
    let mut ctx = Context::new();
    let source = ctx.render_constant(vec![(row(1), 0, 1)]);
    ctx.insert_global(GlobalId::User(1), source);
    let get = || Box::new(Plan::Get { id: Id::Global(GlobalId::User(1)) });

    let undefined_column = MapFilterProject {
        expressions: vec![],
        predicates: vec![greater_than(3, 0)],
        projection: vec![0],
        input_arity: 1,
    };
    assert_eq!(
        ctx.render_mfp(get(), undefined_column),
        Err(flow::error::Error::UndefinedColumn)
    );
    let no_bound = MapFilterProject::new(1)
        .filter(vec![ScalarExpr::CallUnmaterializable(UnmaterializableFunc::Now)
            .call_unary(UnaryFunc::IsNull)])
        .unwrap();
    assert_eq!(
        ctx.render_mfp(get(), no_bound),
        Err(flow::error::Error::UnsupportedTemporalFilter)
    );
    assert_eq!(ctx.subgraph_count(), 1);
    assert_eq!(ctx.compute_state().arrangement_count(), 0);
    assert!(ctx.compute_state().get_err_collector().is_empty());
}

#[test]
fn plan_over_an_unknown_collection_is_not_rendered() {
    let mut ctx = Context::new();
    let source = ctx.render_constant(vec![(row(1), 0, 1)]);
    ctx.insert_global(GlobalId::User(1), source);
    let unknown = Plan::Get { id: Id::Global(GlobalId::System(1)) };
    assert_eq!(
        ctx.render_mfp(Box::new(unknown), MapFilterProject::new(1)),
        Err(flow::error::Error::UndefinedCollection { id: GlobalId::System(1) })
    );
    // nothing of a nested plan stays where its innermost input is unknown
    let nested = Plan::Mfp {
        input: Box::new(Plan::Mfp {
            input: Box::new(Plan::Get { id: Id::Global(GlobalId::User(2)) }),
            mfp: MapFilterProject::new(1),
        }),
        mfp: MapFilterProject::new(1),
    };
    assert_eq!(
        ctx.render_plan(nested),
        Err(flow::error::Error::UndefinedCollection { id: GlobalId::User(2) })
    );
    // the error of the input comes before that of the compiler
    let cannot_compile = || MapFilterProject {
        expressions: vec![],
        predicates: vec![],
        projection: vec![1],
        input_arity: 1,
    };
    assert_eq!(
        ctx.render_mfp(
            Box::new(Plan::Get { id: Id::Global(GlobalId::User(2)) }),
            cannot_compile()
        ),
        Err(flow::error::Error::UndefinedCollection { id: GlobalId::User(2) })
    );
    assert_eq!(
        ctx.render_mfp(
            Box::new(Plan::Get { id: Id::Global(GlobalId::User(1)) }),
            cannot_compile()
        ),
        Err(flow::error::Error::UndefinedColumn)
    );
    assert_eq!(ctx.subgraph_count(), 1);
    assert_eq!(ctx.compute_state().arrangement_count(), 0);
}

#[test]
fn collection_registered_last_is_the_one_that_is_read() {
    let mut ctx = Context::new();
    let first = ctx.render_constant(vec![(row(1), 0, 1)]);
    let second = ctx.render_constant(vec![(row(2), 0, 1)]);
    ctx.insert_global(GlobalId::User(1), first);
    ctx.insert_global(GlobalId::User(1), second);
    let bundle = ctx
        .render_plan(Plan::Get { id: Id::Global(GlobalId::User(1)) })
        .unwrap();
    assert_eq!(bundle.collection.stream, SubgraphId(1));
}

#[test]
fn operators_in_a_row() {
    let mut ctx = Context::new();
    let plan = Plan::Mfp {
        input: Box::new(Plan::Mfp {
            input: Box::new(Plan::Constant {
                rows: vec![(row(5), 0, 1), (row(7), 1, 1), (row(9), 1, 1), (row(6), 3, 1)],
            }),
            mfp: MapFilterProject::new(1).filter(vec![greater_than(0, 5)]).unwrap(),
        }),
        mfp: MapFilterProject::new(1)
            .map(vec![col(0).call_binary(col(0), BinaryFunc::AddInt64)])
            .unwrap()
            .filter(vec![greater_than(1, 14).call_unary(UnaryFunc::Not)])
            .unwrap()
            .project(vec![1])
            .unwrap(),
    };
    let bundle = ctx.render_plan(plan).unwrap();
    assert_eq!(ctx.subgraph_count(), 3);
    let output = get_output_handle(&bundle);
    assert_eq!(output, SubgraphId(2));
    let expected = BTreeMap::from([
        (1, vec![(row(14), 1, 1)]),
        (3, vec![(row(12), 3, 1)]),
    ]);
    run_and_check(&mut ctx, 0..5, expected, output);
}

#[test]
fn source_hands_rows_on_when_their_time_has_come() {
    let mut ctx = Context::new();
    let bundle = ctx.render_constant(vec![
        (row(3), 3, 1),
        (row(1), 1, 1),
        (row(4), 3, -1),
        (row(9), 9, 1),
    ]);
    let source = get_output_handle(&bundle);
    assert_eq!(ctx.compute_state().get_scheduler().next_wake(), Some(1));
    ctx.set_current_ts(0);
    assert_eq!(ctx.take_due(), vec![]);
    ctx.set_current_ts(1);
    assert_eq!(ctx.take_due(), vec![source]);
    assert_eq!(ctx.run_subgraph(source, Vec::new()), vec![(row(1), 1, 1)]);
    assert_eq!(ctx.compute_state().get_scheduler().next_wake(), Some(3));
    ctx.set_current_ts(5);
    assert_eq!(ctx.compute_state().current_ts(), 5);
    assert_eq!(ctx.take_due(), vec![source]);
    assert_eq!(
        ctx.run_subgraph(source, Vec::new()),
        vec![(row(3), 3, 1), (row(4), 3, -1)]
    );
    assert_eq!(ctx.run_subgraph(source, Vec::new()), vec![]);
    ctx.set_current_ts(9);
    assert_eq!(ctx.run_subgraph(source, vec![(row(0), 0, 1)]), vec![(row(9), 9, 1)]);
    assert_eq!(ctx.take_due(), vec![source]);
    assert_eq!(ctx.run_subgraph(source, Vec::new()), vec![]);
    assert_eq!(ctx.compute_state().get_scheduler().next_wake(), None);
}

#[test]
fn source_without_rows_asks_for_no_wake() {
    let mut ctx = Context::new();
    let bundle = ctx.render_constant(Vec::new());
    assert_eq!(ctx.compute_state().get_scheduler().next_wake(), None);
    assert_eq!(ctx.run_subgraph(bundle.collection.stream, Vec::new()), vec![]);
}

#[test]
fn running_an_unknown_operator_changes_nothing() {
    let mut ctx = Context::new();
    let _ = ctx.render_constant(vec![(row(1), 1, 1)]);
    ctx.set_current_ts(1);
    assert_eq!(ctx.run_subgraph(SubgraphId(7), vec![(row(1), 1, 1)]), vec![]);
    assert_eq!(ctx.subgraph_count(), 1);
    assert_eq!(ctx.take_due(), vec![SubgraphId(0)]);
}

#[test]
fn evaluation_error_is_recorded_once_and_the_rest_of_the_batch_is_handed_on() {
    let mut ctx = Context::new();
    let rows = vec![
        (row(2), 0, 1),
        (Row::new(vec![true.into()]), 0, 1),
        (row(3), 0, 1),
        (row(1), 0, 1),
    ];
    let source = ctx.render_constant(rows);
    ctx.insert_global(GlobalId::User(1), source);
    let mfp = MapFilterProject::new(1).filter(vec![greater_than(0, 1)]).unwrap();
    let bundle = ctx
        .render_mfp(Box::new(Plan::Get { id: Id::Global(GlobalId::User(1)) }), mfp)
        .unwrap();
    ctx.set_current_ts(0);
    let outputs = run_available_with_schedule(&mut ctx);
    assert_eq!(outputs[bundle.collection.stream.0], vec![(row(2), 0, 1), (row(3), 0, 1)]);
    assert_eq!(
        ctx.compute_state().get_err_collector().get_all(),
        vec![flow::error::RuntimeError::Eval(flow::expr::EvalError::TypeMismatch)]
    );
    ctx.set_current_ts(1);
    let outputs = run_available_with_schedule(&mut ctx);
    assert_eq!(outputs[bundle.collection.stream.0], vec![]);
    assert_eq!(ctx.compute_state().get_err_collector().len(), 1);
}

#[test]
fn operator_is_not_woken_before_an_update_is_due() {
    let mut ctx = Context::new();
    let source = ctx.render_constant(vec![(row(10), 0, 1)]);
    ctx.insert_global(GlobalId::User(1), source);
    // col0 = 10 holds from 7 up to 11
    let mfp = MapFilterProject::new(1)
        .filter(vec![
            ScalarExpr::Column(0)
                .call_unary(UnaryFunc::Cast(ConcreteDataType::datetime_datatype()))
                .call_binary(
                    ScalarExpr::CallUnmaterializable(UnmaterializableFunc::Now),
                    BinaryFunc::Gte,
                ),
            ScalarExpr::Column(0)
                .call_binary(
                    ScalarExpr::literal(4i64.into(), ConcreteDataType::int64_datatype()),
                    BinaryFunc::SubInt64,
                )
                .call_unary(UnaryFunc::Cast(ConcreteDataType::datetime_datatype()))
                .call_binary(
                    ScalarExpr::CallUnmaterializable(UnmaterializableFunc::Now),
                    BinaryFunc::Lt,
                ),
        ])
        .unwrap();
    let bundle = ctx
        .render_mfp(Box::new(Plan::Get { id: Id::Global(GlobalId::User(1)) }), mfp)
        .unwrap();
    let operator = bundle.collection.stream;
    ctx.set_current_ts(0);
    assert_eq!(ctx.take_due(), vec![SubgraphId(0)]);
    let batch = ctx.run_subgraph(SubgraphId(0), Vec::new());
    assert_eq!(ctx.run_subgraph(operator, batch), vec![]);
    for now in 1..7 {
        ctx.set_current_ts(now);
        assert_eq!(ctx.take_due(), vec![], "at ts={}", now);
    }
    ctx.set_current_ts(7);
    assert_eq!(ctx.take_due(), vec![operator]);
    assert_eq!(ctx.run_subgraph(operator, Vec::new()), vec![(row(10), 7, 1)]);
    for now in 8..11 {
        ctx.set_current_ts(now);
        assert_eq!(ctx.take_due(), vec![], "at ts={}", now);
    }
    ctx.set_current_ts(20);
    assert_eq!(ctx.take_due(), vec![operator]);
    assert_eq!(ctx.run_subgraph(operator, Vec::new()), vec![(row(10), 11, -1)]);
    ctx.set_current_ts(i64::MAX);
    assert_eq!(ctx.take_due(), vec![]);
}

#[test]
fn error_of_the_innermost_input_comes_first() {
    let mut ctx = Context::new();
    let source = ctx.render_constant(vec![(row(1), 0, 1)]);
    ctx.insert_global(GlobalId::User(1), source);
    let cannot_compile = || MapFilterProject {
        expressions: vec![],
        predicates: vec![],
        projection: vec![1],
        input_arity: 1,
    };
    let no_bound = || {
        MapFilterProject::new(1)
            .filter(vec![ScalarExpr::CallUnmaterializable(UnmaterializableFunc::Now)])
            .unwrap()
    };
    let get = |id: u64| Box::new(Plan::Get { id: Id::Global(GlobalId::User(id)) });

    // the inner operator cannot be compiled, nor can the outer one
    let inner_fails = Plan::Mfp { input: get(1), mfp: no_bound() };
    assert_eq!(
        ctx.render_mfp(Box::new(inner_fails), cannot_compile()),
        Err(flow::error::Error::UnsupportedTemporalFilter)
    );
    // the innermost input is unknown, and no operator above it can be compiled
    let unknown_below = Plan::Mfp { input: get(9), mfp: no_bound() };
    assert_eq!(
        ctx.render_mfp(Box::new(unknown_below), cannot_compile()),
        Err(flow::error::Error::UndefinedCollection { id: GlobalId::User(9) })
    );
    // only the outer operator cannot be compiled: nothing of the inner one stays
    let inner_renders = Plan::Mfp { input: get(1), mfp: MapFilterProject::new(1) };
    assert_eq!(
        ctx.render_mfp(Box::new(inner_renders), cannot_compile()),
        Err(flow::error::Error::UndefinedColumn)
    );
    assert_eq!(ctx.subgraph_count(), 1);
    assert_eq!(ctx.compute_state().arrangement_count(), 0);
    assert_eq!(ctx.compute_state().get_scheduler().next_wake(), Some(0));
}

#[test]
fn check_of_a_plan_says_what_rendering_would_and_adds_nothing() {
    let mut ctx = Context::new();
    let source = ctx.render_constant(vec![(row(1), 0, 1)]);
    ctx.insert_global(GlobalId::User(1), source);
    let get = |id: u64| Box::new(Plan::Get { id: Id::Global(GlobalId::User(id)) });
    let cannot_compile = || MapFilterProject {
        expressions: vec![],
        predicates: vec![greater_than(4, 0)],
        projection: vec![0],
        input_arity: 1,
    };
    assert_eq!(ctx.check_plan(&Plan::Constant { rows: vec![(row(1), 0, 1)] }), Ok(()));
    assert_eq!(ctx.check_plan(&get(1)), Ok(()));
    assert_eq!(
        ctx.check_plan(&get(2)),
        Err(flow::error::Error::UndefinedCollection { id: GlobalId::User(2) })
    );
    let renders = Plan::Mfp { input: get(1), mfp: MapFilterProject::new(1) };
    assert_eq!(ctx.check_plan(&renders), Ok(()));
    let fails_to_compile = Plan::Mfp { input: get(1), mfp: cannot_compile() };
    assert_eq!(ctx.check_plan(&fails_to_compile), Err(flow::error::Error::UndefinedColumn));
    let fails_both = Plan::Mfp { input: get(2), mfp: cannot_compile() };
    assert_eq!(
        ctx.check_plan(&fails_both),
        Err(flow::error::Error::UndefinedCollection { id: GlobalId::User(2) })
    );
    assert_eq!(ctx.subgraph_count(), 1);
    assert_eq!(ctx.compute_state().arrangement_count(), 0);
    // rendering gives what the check said
    assert_eq!(ctx.render_plan(fails_both).err(), ctx.check_plan(&Plan::Mfp {
        input: get(2),
        mfp: cannot_compile()
    }).err());
    assert!(ctx.render_plan(renders).is_ok());
    assert_eq!(ctx.subgraph_count(), 2);
}

#[test]
fn reads_through_the_handle_of_a_bundle_are_equal_and_change_nothing() {
    let mut ctx = Context::new();
    let source = ctx.render_constant(vec![(row(1), 0, 1), (row(2), 0, 1), (row(3), 1, 1)]);
    ctx.insert_global(GlobalId::User(1), source);
    // col0 holds from col0 - 3 up to col0 + 1
    let mfp = MapFilterProject::new(1)
        .filter(vec![
            ScalarExpr::Column(0)
                .call_unary(UnaryFunc::Cast(ConcreteDataType::datetime_datatype()))
                .call_binary(
                    ScalarExpr::CallUnmaterializable(UnmaterializableFunc::Now),
                    BinaryFunc::Gte,
                ),
            ScalarExpr::Column(0)
                .call_binary(
                    ScalarExpr::literal(4i64.into(), ConcreteDataType::int64_datatype()),
                    BinaryFunc::SubInt64,
                )
                .call_unary(UnaryFunc::Cast(ConcreteDataType::datetime_datatype()))
                .call_binary(
                    ScalarExpr::CallUnmaterializable(UnmaterializableFunc::Now),
                    BinaryFunc::Lt,
                ),
        ])
        .unwrap();
    let bundle = ctx
        .render_mfp(Box::new(Plan::Get { id: Id::Global(GlobalId::User(1)) }), mfp)
        .unwrap();
    let handle = bundle.arranged[0].1.arrangement;
    let output = bundle.collection.stream;
    let keyed = |v: i64, time: i64, diff: i64| ((row(v), Row::empty()), time, diff);

    assert_eq!(ctx.read_range(handle, i64::MIN, i64::MAX), Some(vec![]));
    let mut sent: Vec<DiffRow> = Vec::new();
    for now in 0..3 {
        ctx.set_current_ts(now);
        let outputs = run_available_with_schedule(&mut ctx);
        sent.extend(outputs[output.0].clone());
        for (from, to) in [(i64::MIN, i64::MAX), (0, 0), (now, now + 1), (3, 2), (2, 4)] {
            let first = ctx.read_range(handle, from, to);
            let second = ctx.read_range(handle, from, to);
            assert_eq!(first, second);
            assert!(first.is_some());
        }
        let arrangement = ctx.compute_state().arrangement(handle).unwrap();
        assert_eq!(arrangement.last_compaction_time(), Some(now));
    }
    assert_eq!(
        ctx.read_range(handle, i64::MIN, i64::MAX),
        Some(vec![
            keyed(1, 0, 1),
            keyed(2, 0, 1),
            keyed(3, 1, 1),
            keyed(1, 2, -1),
            keyed(2, 3, -1),
            keyed(3, 4, -1),
        ])
    );
    assert_eq!(ctx.read_range(handle, 3, 4), Some(vec![keyed(2, 3, -1), keyed(3, 4, -1)]));
    // what the operator hands on later is what it would have handed on without the reads
    for now in 3..6 {
        ctx.set_current_ts(now);
        let outputs = run_available_with_schedule(&mut ctx);
        sent.extend(outputs[output.0].clone());
    }
    assert_eq!(
        sent,
        vec![
            (row(1), 0, 1),
            (row(2), 0, 1),
            (row(3), 1, 1),
            (row(1), 2, -1),
            (row(2), 3, -1),
            (row(3), 4, -1),
        ]
    );
    // a handle that names no arrangement reads nothing
    assert_eq!(
        ctx.read_range(flow::state::ArrangeHandler { index: 7 }, 0, 9),
        None
    );
}

#[test]
fn bundles_of_this_library_have_no_key_twice() {
    let mut ctx = Context::new();
    let source = ctx.render_constant(vec![(row(1), 0, 1)]);
    assert_eq!(source.arranged.len(), 0);
    let copy = source.duplicate();
    assert_eq!(copy, source);
    ctx.insert_global(GlobalId::User(1), source);
    let bundle = ctx
        .render_mfp(
            Box::new(Plan::Get { id: Id::Global(GlobalId::User(1)) }),
            MapFilterProject::new(1),
        )
        .unwrap();
    assert_eq!(bundle.arranged.len(), 1);
    assert_eq!(bundle.duplicate(), bundle);
    assert_eq!(
        CollectionBundle::from_collection(bundle.collection).arranged,
        vec![]
    );
}
