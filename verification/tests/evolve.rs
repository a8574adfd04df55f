use rvlvr::evolve;
use rvlvr::computed_distributions::ComputedDistributions;
use rvlvr::operator::Operator;
use rvlvr::prob::PROB_ONE;

#[test]
fn it_evolves_122() {
    // variables are:
    // winner
    // player
    // counter
    // There are only two possible games. ;)
    evolve(
        &vec![
            vec![
                vec![2, 0, 0],
                vec![2, 1, 1],
                vec![2, 0, 2],
                vec![0, 1, 2],
            ],
            vec![vec![2, 0, 0], vec![2, 1, 2], vec![1, 0, 2]],
        ],
        2,
        16,
        128,
    );
}

#[test]
fn constant_slot_predicts_constant() {
    // Domain size 3, 4 input slots, 2 examples: one slot holding Value(2)
    // reports the most likely value 2 with a full unit of mass, whatever
    // the inputs were.
    let inputs = [vec![0, 1, 2, 0], vec![2, 2, 1, 1]];
    for start in inputs.iter() {
        let mut d = ComputedDistributions::new(3, 5);
        d.set_values(0, start);
        Operator::Value(2).run(4, &mut d);
        assert_eq!(d.read_likely(4), (2, PROB_ONE));
    }
}

#[test]
fn relocate_rewrites_dependencies() {
    let map = vec![Some(0), None, Some(1), Some(2)];
    assert_eq!(
        Operator::Equality(0, 2).relocate(&map),
        Operator::Equality(0, 1)
    );
    assert_eq!(
        Operator::Ite(0, 2, 3).relocate(&map),
        Operator::Ite(0, 1, 2)
    );
    assert_eq!(Operator::Value(7).relocate(&map), Operator::Value(7));
}

#[test]
fn evolve_reports_one_entry_per_output() {
    let reports = evolve(
        &vec![vec![vec![1, 0], vec![0, 1], vec![1, 0]]],
        1,
        4,
        8,
    );
    assert_eq!(reports.len(), 2);
    for (o, report) in reports.iter().enumerate() {
        assert_eq!(report.output, o);
        assert_eq!(report.predictions.len(), 2);
        for p in report.predictions.iter() {
            assert!(p.predicted <= 2);
        }
    }
}

#[test]
fn dependents_are_positional() {
    assert_eq!(Operator::Initial.dependents(), [None, None, None]);
    assert_eq!(Operator::Increment(3).dependents(), [Some(3), None, None]);
    assert_eq!(
        Operator::Or(1, 2).dependents(),
        [Some(1), Some(2), None]
    );
    assert_eq!(
        Operator::Ite(4, 5, 6).dependents(),
        [Some(4), Some(5), Some(6)]
    );
}
