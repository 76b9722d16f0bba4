use automata_learning::observation_table::{
    Experiment, ObservationTable, OutputRow, Representative, TableError,
};

fn rep(s: &str) -> Representative<char> {
    Representative(s.chars().collect())
}

fn exp(s: &str) -> Experiment<char> {
    Experiment(s.chars().collect())
}

fn two_column_table() -> ObservationTable<char, bool> {
    ObservationTable::with_rows_and_experiments(
        vec![rep(""), rep("a"), rep("b")],
        vec![exp("a"), exp("ba")],
    )
}

#[test]
fn new_table_is_empty() {
    let t: ObservationTable<char, bool> = ObservationTable::new();
    assert_eq!(t.experiment_count(), 0);
    assert_eq!(t.representative_count(), 0);
    assert_eq!(t.row_of(&rep("a")), Err(TableError::NotFound));
}

#[test]
fn seeded_table_keeps_experiment_order_and_empty_rows() {
    let t = two_column_table();
    assert_eq!(t.experiment_count(), 2);
    assert_eq!(t.experiment_at(0), &exp("a"));
    assert_eq!(t.experiment_at(1), &exp("ba"));
    assert_eq!(t.representative_count(), 3);
    for r in ["", "a", "b"] {
        assert_eq!(t.row_of(&rep(r)), Ok(&OutputRow(Vec::new())));
    }
}

#[test]
fn seeded_duplicates_keep_one_row() {
    let t: ObservationTable<char, bool> = ObservationTable::with_rows_and_experiments(
        vec![rep("a"), rep("b"), rep("a"), rep("a")],
        vec![exp("a")],
    );
    assert_eq!(t.representative_count(), 2);
    let mut keys: Vec<Vec<char>> = (0..t.representative_count())
        .map(|i| t.entry_at(i).0 .0.clone())
        .collect();
    keys.sort();
    assert_eq!(keys, vec![vec!['a'], vec!['b']]);
}

#[test]
fn adding_a_present_representative_is_refused() {
    let mut t = two_column_table();
    assert_eq!(t.add_representative(rep("a")), Err(TableError::Duplicate));
    assert_eq!(t.representative_count(), 3);
    assert_eq!(t.add_representative(rep("ab")), Ok(()));
    assert_eq!(t.representative_count(), 4);
    assert_eq!(t.row_of(&rep("ab")), Ok(&OutputRow(Vec::new())));
}

#[test]
fn fill_absent_representative_is_not_found() {
    let mut t = two_column_table();
    assert_eq!(t.fill(&rep("bb"), 0, true), Err(TableError::NotFound));
}

#[test]
fn fill_beyond_experiments_is_out_of_range() {
    let mut t = two_column_table();
    assert_eq!(t.fill(&rep("a"), 0, true), Ok(()));
    assert_eq!(t.fill(&rep("a"), 1, false), Ok(()));
    assert_eq!(t.fill(&rep("a"), 2, true), Err(TableError::IndexOutOfRange));
    assert_eq!(t.row_of(&rep("a")), Ok(&OutputRow::from(vec![true, false])));
}

#[test]
fn fill_past_the_next_free_cell_is_out_of_range() {
    let mut t = two_column_table();
    assert_eq!(t.fill(&rep("b"), 1, true), Err(TableError::IndexOutOfRange));
    assert_eq!(t.row_of(&rep("b")), Ok(&OutputRow(Vec::new())));
}

#[test]
fn filling_a_cell_twice_with_one_value_is_idempotent() {
    let mut t = two_column_table();
    assert_eq!(t.fill(&rep(""), 0, true), Ok(()));
    assert_eq!(t.fill(&rep(""), 0, true), Ok(()));
    assert_eq!(t.row_of(&rep("")), Ok(&OutputRow(vec![true])));
}

#[test]
fn filling_a_cell_again_overwrites_it() {
    let mut t = two_column_table();
    assert_eq!(t.fill(&rep(""), 0, true), Ok(()));
    assert_eq!(t.fill(&rep(""), 1, true), Ok(()));
    assert_eq!(t.fill(&rep(""), 0, false), Ok(()));
    assert_eq!(t.row_of(&rep("")), Ok(&OutputRow(vec![false, true])));
}

#[test]
fn row_equivalence_on_filled_rows() {
    let mut t = two_column_table();
    for (r, row) in [("", [true, false]), ("a", [true, false]), ("b", [false, false])] {
        for (c, v) in row.iter().enumerate() {
            assert_eq!(t.fill(&rep(r), c, *v), Ok(()));
        }
    }
    assert_eq!(t.row_equivalent(&rep(""), &rep("")), Ok(true));
    assert_eq!(t.row_equivalent(&rep(""), &rep("a")), Ok(true));
    assert_eq!(t.row_equivalent(&rep("a"), &rep("")), Ok(true));
    assert_eq!(t.row_equivalent(&rep("a"), &rep("b")), Ok(false));
    assert_eq!(t.row_equivalent(&rep("b"), &rep("a")), Ok(false));
}

#[test]
fn row_equivalence_on_a_short_row_is_incomplete() {
    let mut t = two_column_table();
    assert_eq!(t.fill(&rep(""), 0, true), Ok(()));
    assert_eq!(t.fill(&rep(""), 1, true), Ok(()));
    assert_eq!(t.fill(&rep("a"), 0, true), Ok(()));
    assert_eq!(t.row_equivalent(&rep(""), &rep("a")), Err(TableError::Incomplete));
    assert_eq!(t.row_equivalent(&rep("a"), &rep("")), Err(TableError::Incomplete));
    assert_eq!(t.row_equivalent(&rep("b"), &rep("b")), Err(TableError::Incomplete));
}

#[test]
fn row_equivalence_on_an_absent_row_is_not_found() {
    let t = two_column_table();
    assert_eq!(t.row_equivalent(&rep(""), &rep("ba")), Err(TableError::NotFound));
    assert_eq!(t.row_equivalent(&rep("ba"), &rep("")), Err(TableError::NotFound));
}

#[test]
fn a_new_experiment_leaves_filled_rows_incomplete() {
    let mut t: ObservationTable<char, bool> =
        ObservationTable::with_rows_and_experiments(vec![rep("")], vec![exp("a")]);
    assert_eq!(t.fill(&rep(""), 0, true), Ok(()));
    assert_eq!(t.row_equivalent(&rep(""), &rep("")), Ok(true));
    t.add_experiment(exp("b"));
    assert_eq!(t.experiment_count(), 2);
    assert_eq!(t.row_of(&rep("")), Ok(&OutputRow(vec![true])));
    assert_eq!(t.row_equivalent(&rep(""), &rep("")), Err(TableError::Incomplete));
    assert_eq!(t.fill(&rep(""), 1, false), Ok(()));
    assert_eq!(t.row_equivalent(&rep(""), &rep("")), Ok(true));
}

#[test]
fn entries_walk_every_row() {
    let mut t = two_column_table();
    assert_eq!(t.fill(&rep("b"), 0, true), Ok(()));
    let mut seen = 0;
    for i in 0..t.representative_count() {
        let (r, row) = t.entry_at(i);
        assert_eq!(t.row_of(r), Ok(row));
        if r == &rep("b") {
            assert_eq!(row, &OutputRow(vec![true]));
        }
        seen += 1;
    }
    assert_eq!(seen, 3);
}
