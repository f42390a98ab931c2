//! Plan wiring, execution order, layout and dependency tests.

use mercury::{execution_order, Error, Plan, Shape, Source};

const SUM: Shape = Shape { inputs: 2, outputs: 1 };

fn all_depend(shapes: &[Shape]) -> Vec<Vec<Vec<bool>>> {
    shapes
        .iter()
        .map(|shape| vec![vec![true; shape.inputs]; shape.outputs])
        .collect()
}

/// Runs a plan whose every node sums its inputs into each of its outputs.
fn evaluate_sums(plan: &Plan, point: &[f64]) -> Vec<f64> {
    let mut values = vec![f64::NAN; plan.slots()];
    values[..plan.inputs()].copy_from_slice(point);
    for position in 0..plan.nodes().len() {
        plan.gather(position, &mut values);
        let node = &plan.nodes()[position];
        let sum: f64 = values[node.inputs.clone()].iter().sum();
        let outputs = vec![sum; node.outputs.len()];
        plan.store_outputs(position, &mut values, &outputs);
    }
    plan.publish(&values)
}

#[test]
fn wiring_checks_forward_references_cycles_and_foreign_nodes() {
    let mut builder = Plan::builder(1, 2);
    let first = builder.add(SUM, vec![Source::Input(0), Source::Input(1)]);
    let second = builder.add(SUM, vec![Source::Input(0), Source::Input(1)]);
    builder
        .connect(first, vec![second.output(0), Source::Input(1)])
        .unwrap();
    let plan = builder
        .build(vec![first.output(0)], &all_depend(&[SUM, SUM]))
        .unwrap();
    let value = evaluate_sums(&plan, &[2.0, 3.0]);
    assert_eq!(value, vec![8.0]);

    let mut cyclic = Plan::builder(2, 1);
    let a = cyclic.add(SUM, vec![Source::Input(0), Source::Input(0)]);
    let b = cyclic.add(SUM, vec![a.output(0), Source::Input(0)]);
    cyclic.connect(a, vec![b.output(0), Source::Input(0)]).unwrap();
    assert!(matches!(
        cyclic.build(vec![b.output(0)], &all_depend(&[SUM, SUM])),
        Err(Error::Cycle)
    ));

    let mut foreign = Plan::builder(3, 1);
    assert_eq!(foreign.connect(first, vec![]), Err(Error::ForeignNode));
    assert!(matches!(
        foreign.build(vec![first.output(0)], &vec![]),
        Err(Error::ForeignNode)
    ));
    assert!(matches!(
        Plan::builder(4, 1).build(vec![Source::Input(1)], &vec![]),
        Err(Error::InvalidSource)
    ));
    let mut bad_shape = Plan::builder(5, 1);
    let node = bad_shape.add(SUM, vec![Source::Input(0)]);
    assert!(matches!(
        bad_shape.build(vec![node.output(0)], &all_depend(&[SUM])),
        Err(Error::Dimension { .. })
    ));
}

#[test]
fn nodes_run_after_the_nodes_they_read() {
    let mut builder = Plan::builder(6, 1);
    let late = builder.add(SUM, vec![Source::Input(0), Source::Input(0)]);
    let early = builder.add(SUM, vec![Source::Input(0), Source::Input(0)]);
    builder
        .connect(late, vec![early.output(0), Source::Input(0)])
        .unwrap();
    let plan = builder
        .build(vec![late.output(0)], &all_depend(&[SUM, SUM]))
        .unwrap();
    let order: Vec<usize> = plan.nodes().iter().map(|node| node.index).collect();
    assert_eq!(order, vec![1, 0]);
    // Layout: input 0, node 0 (copies 1..3, output 3), node 1 (copies 4..6, output 6).
    assert_eq!(plan.slots(), 7);
    assert_eq!(plan.outputs(), &[3]);
    assert_eq!(plan.nodes()[0].sources, vec![0, 0]);
    assert_eq!(plan.nodes()[0].inputs, 4..6);
    assert_eq!(plan.nodes()[0].outputs, 6..7);
    assert_eq!(plan.nodes()[1].sources, vec![6, 0]);
    assert_eq!(evaluate_sums(&plan, &[1.5]), vec![4.5]);
}

#[test]
fn dependencies_follow_declared_operator_dependencies() {
    let mut builder = Plan::builder(7, 3);
    let mixed = builder.add(
        Shape { inputs: 2, outputs: 2 },
        vec![Source::Input(0), Source::Input(1)],
    );
    let tail = builder.add(SUM, vec![mixed.output(1), Source::Input(2)]);
    // Output 0 of `mixed` reads only input 0; output 1 reads only input 1.
    let depends = vec![
        vec![vec![true, false], vec![false, true]],
        vec![vec![true, true]],
    ];
    let plan = builder
        .build(
            vec![mixed.output(0), tail.output(0), Source::Input(2), mixed.output(0)],
            &depends,
        )
        .unwrap();
    assert_eq!(plan.epoch(), 7);
    assert_eq!(plan.shape(), Shape { inputs: 3, outputs: 4 });
    assert_eq!(
        plan.dependencies(),
        &[vec![0], vec![1, 2], vec![2], vec![0]]
    );
    assert!(plan.depends_on(1, 2));
    assert!(plan.depends_on(1, 1));
    assert!(!plan.depends_on(1, 0));
    assert!(!plan.depends_on(0, 1));
    assert!(plan.depends_on(3, 0));
}

#[test]
fn empty_plans_publish_inputs_directly() {
    let plan = Plan::builder(8, 2)
        .build(vec![Source::Input(1), Source::Input(1)], &vec![])
        .unwrap();
    assert_eq!(plan.shape(), Shape { inputs: 2, outputs: 2 });
    assert_eq!(plan.slots(), 2);
    assert_eq!(plan.dependencies(), &[vec![1], vec![1]]);
    assert_eq!(evaluate_sums(&plan, &[4.0, 5.0]), vec![5.0, 5.0]);
    let none = Plan::builder(9, 2).build(vec![], &vec![]).unwrap();
    assert_eq!(none.shape(), Shape { inputs: 2, outputs: 0 });
}

#[test]
fn overflowing_layouts_and_bad_outputs_are_rejected() {
    let mut huge = Plan::builder(10, 1);
    huge.add(Shape { inputs: usize::MAX, outputs: 1 }, vec![]);
    assert_eq!(
        huge.build(vec![], &vec![vec![vec![]]]).err(),
        Some(Error::SizeOverflow)
    );
    let mut builder = Plan::builder(11, 1);
    let node = builder.add(SUM, vec![Source::Input(0), Source::Input(0)]);
    assert_eq!(
        builder
            .build(vec![node.output(1)], &all_depend(&[SUM]))
            .err(),
        Some(Error::InvalidSource)
    );
}

#[test]
fn connecting_a_missing_node_is_rejected() {
    let mut first = Plan::builder(12, 1);
    let node = first.add(SUM, vec![Source::Input(0), Source::Input(0)]);
    let mut second = Plan::builder(12, 1);
    assert_eq!(second.connect(node, vec![]), Err(Error::InvalidSource));
    assert_eq!(
        node.output(3),
        Source::Node(node, 3)
    );
}

#[test]
fn input_count_errors_name_the_node_inputs() {
    let mut builder = Plan::builder(13, 1);
    builder.add(SUM, vec![Source::Input(0)]);
    assert_eq!(
        builder.build(vec![], &all_depend(&[SUM])).err(),
        Some(Error::Dimension {
            buffer: "node inputs",
            expected: 2,
            actual: 1
        })
    );
}

#[test]
fn execution_order_is_topological_or_reports_a_cycle() {
    // Diamond: 0 -> 1, 0 -> 2, 1 -> 3, 2 -> 3.
    let consumers = vec![vec![1, 2], vec![3], vec![3], vec![]];
    let order = execution_order(&consumers, vec![0, 1, 1, 2]).unwrap();
    assert_eq!(order, vec![0, 1, 2, 3]);
    let cycle = vec![vec![1], vec![0], vec![]];
    assert_eq!(execution_order(&cycle, vec![1, 1, 0]), Err(Error::Cycle));
}

#[test]
fn gather_copies_sources_into_input_slots() {
    let mut builder = Plan::builder(14, 2);
    builder.add(SUM, vec![Source::Input(1), Source::Input(0)]);
    let plan = builder.build(vec![], &all_depend(&[SUM])).unwrap();
    let mut values = vec![10, 20, 0, 0, 0];
    plan.gather(0, &mut values);
    assert_eq!(values, vec![10, 20, 20, 10, 0]);
    assert_eq!(plan.node_inputs(0, &values), vec![20, 10]);
    plan.store_outputs(0, &mut values, &[30]);
    assert_eq!(plan.node_outputs(0, &values), vec![30]);
}

#[test]
fn ready_nodes_run_first_in_first_out_in_insertion_order() {
    let mut builder = Plan::builder(15, 1);
    let reader = builder.add(SUM, vec![Source::Input(0), Source::Input(0)]);
    let _independent = builder.add(SUM, vec![Source::Input(0), Source::Input(0)]);
    let source = builder.add(SUM, vec![Source::Input(0), Source::Input(0)]);
    builder
        .connect(reader, vec![source.output(0), Source::Input(0)])
        .unwrap();
    let plan = builder
        .build(vec![reader.output(0)], &all_depend(&[SUM, SUM, SUM]))
        .unwrap();
    let order: Vec<usize> = plan.nodes().iter().map(|node| node.index).collect();
    assert_eq!(order, vec![1, 2, 0]);
    assert_eq!(evaluate_sums(&plan, &[1.0]), vec![3.0]);
}
