use vstd::laws_eq::obeys_concrete_eq;
use vstd::prelude::*;
use vstd::std_specs::cmp::PartialEqSpec;

verus! {

/// A distinguishing suffix: the identity of one column of the table.
#[derive(Debug, Clone, PartialEq, Eq)]
pub struct Experiment<S>(pub Vec<S>);

/// An access sequence: the identity of one row of the table.
#[derive(Debug, Clone, PartialEq, Eq, Hash)]
pub struct Representative<S>(pub Vec<S>);

/// The observed outputs of one representative, position `i` answering
/// experiment `i`.
#[derive(Debug, Clone, PartialEq, Eq)]
pub struct OutputRow<X>(pub Vec<X>);

impl<X> From<Vec<X>> for OutputRow<X> {
    fn from(value: Vec<X>) -> Self {
        OutputRow(value)
    }
}

impl<X> vstd::std_specs::convert::FromSpecImpl<Vec<X>> for OutputRow<X> {
    open spec fn obeys_from_spec() -> bool {
        true
    }

    open spec fn from_spec(v: Vec<X>) -> Self {
        OutputRow(v)
    }
}

/// Compares two symbol sequences element by element.
pub fn same_sequence<S: PartialEq>(a: &Vec<S>, b: &Vec<S>) -> (r: bool)
    requires
        obeys_concrete_eq::<S>(),
    ensures
        r == (a@ == b@),
{
    proof {
        reveal(obeys_concrete_eq);
    }
    if a.len() != b.len() {
        return false;
    }
    let mut i: usize = 0;
    while i < a.len()
        invariant
            obeys_concrete_eq::<S>(),
            a.len() == b.len(),
            0 <= i <= a.len(),
            forall|j: int| 0 <= j < i ==> a@[j] == b@[j],
        decreases a.len() - i,
    {
        proof {
            reveal(obeys_concrete_eq);
        }
        if !a[i].eq(&b[i]) {
            return false;
        }
        i = i + 1;
    }
    assert(a@ =~= b@);
    true
}


/// Why an operation on an observation table could not be carried out.
#[derive(Debug, Clone, Copy, PartialEq, Eq, Structural)]
pub enum TableError {
    /// The representative has no row in the table.
    NotFound,
    /// The representative already has a row in the table.
    Duplicate,
    /// The column does not name the next free or an already filled cell of
    /// the row, within the current experiments.
    IndexOutOfRange,
    /// A row holds fewer outputs than there are experiments.
    Incomplete,
}

/// Whether no two entries share a representative.
pub open spec fn unique_keys<S, X>(e: Seq<(Seq<S>, Seq<X>)>) -> bool {
    forall|i: int, j: int|
        0 <= i < e.len() && 0 <= j < e.len() && i != j ==> #[trigger] e[i].0 != #[trigger] e[j].0
}

/// Whether `k` is the representative of some entry.
pub open spec fn has_key<S, X>(e: Seq<(Seq<S>, Seq<X>)>, k: Seq<S>) -> bool {
    exists|i: int| 0 <= i < e.len() && #[trigger] e[i].0 == k
}

/// The map from representative to row that a list of entries denotes.
pub open spec fn map_of<S, X>(e: Seq<(Seq<S>, Seq<X>)>) -> Map<Seq<S>, Seq<X>> {
    Map::new(
        |k: Seq<S>| has_key(e, k),
        |k: Seq<S>| e[choose|i: int| 0 <= i < e.len() && #[trigger] e[i].0 == k].1,
    )
}

/// A row after `v` is written into column `c`: the cell is replaced when it
/// was filled, and appended when it was the next free one.
pub open spec fn row_after_fill<X>(row: Seq<X>, c: int, v: X) -> Seq<X> {
    if c < row.len() {
        row.update(c, v)
    } else {
        row.push(v)
    }
}

proof fn lemma_map_of_index<S, X>(e: Seq<(Seq<S>, Seq<X>)>, i: int)
    requires
        unique_keys(e),
        0 <= i < e.len(),
    ensures
        map_of(e).contains_key(e[i].0),
        map_of(e)[e[i].0] == e[i].1,
{
    assert(has_key(e, e[i].0));
    let j = choose|j: int| 0 <= j < e.len() && #[trigger] e[j].0 == e[i].0;
    assert(j == i);
}

proof fn lemma_map_of_push<S, X>(e: Seq<(Seq<S>, Seq<X>)>, k: Seq<S>, v: Seq<X>)
    requires
        unique_keys(e),
        !has_key(e, k),
    ensures
        unique_keys(e.push((k, v))),
        map_of(e.push((k, v))) == map_of(e).insert(k, v),
{
    let f = e.push((k, v));
    assert(unique_keys(f));
    assert forall|q: Seq<S>| #[trigger] has_key(f, q) == (has_key(e, q) || q == k) by {
        if has_key(e, q) {
            let i = choose|i: int| 0 <= i < e.len() && #[trigger] e[i].0 == q;
            assert(f[i].0 == q);
        }
        if q == k {
            assert(f[e.len() as int].0 == q);
        }
    }
    assert forall|q: Seq<S>| #[trigger] map_of(f).contains_key(q) implies map_of(f)[q] == map_of(
        e,
    ).insert(k, v)[q] by {
        let i = choose|i: int| 0 <= i < f.len() && #[trigger] f[i].0 == q;
        lemma_map_of_index(f, i);
        if q != k {
            lemma_map_of_index(e, i);
        }
    }
    assert(map_of(f) =~= map_of(e).insert(k, v));
}

proof fn lemma_map_of_update<S, X>(e: Seq<(Seq<S>, Seq<X>)>, i: int, v: Seq<X>)
    requires
        unique_keys(e),
        0 <= i < e.len(),
    ensures
        unique_keys(e.update(i, (e[i].0, v))),
        map_of(e.update(i, (e[i].0, v))) == map_of(e).insert(e[i].0, v),
{
    let f = e.update(i, (e[i].0, v));
    assert(unique_keys(f));
    assert forall|q: Seq<S>| #[trigger] has_key(f, q) == has_key(e, q) by {
        if has_key(e, q) {
            let j = choose|j: int| 0 <= j < e.len() && #[trigger] e[j].0 == q;
            assert(f[j].0 == q);
        }
        if has_key(f, q) {
            let j = choose|j: int| 0 <= j < f.len() && #[trigger] f[j].0 == q;
            assert(e[j].0 == q);
        }
    }
    lemma_map_of_index(e, i);
    assert forall|q: Seq<S>| #[trigger] map_of(f).contains_key(q) implies map_of(f)[q] == map_of(
        e,
    ).insert(e[i].0, v)[q] by {
        let j = choose|j: int| 0 <= j < f.len() && #[trigger] f[j].0 == q;
        lemma_map_of_index(f, j);
        if j != i {
            lemma_map_of_index(e, j);
        }
    }
    assert(map_of(f) =~= map_of(e).insert(e[i].0, v));
}

/// The table of active learning: an ordered list of experiments, and one
/// row of outputs for each distinct representative. The operations that look
/// a representative up, or compare rows, ask that `==` on symbols (and on
/// outputs) be equality of values.
pub struct ObservationTable<S, X> {
    experiments: Vec<Experiment<S>>,
    representatives: Vec<Representative<S>>,
    rows: Vec<OutputRow<X>>,
}

impl<S, X> ObservationTable<S, X> {
    /// The experiments, in column order.
    pub closed spec fn experiment_seq(&self) -> Seq<Seq<S>> {
        self.experiments@.map_values(|e: Experiment<S>| e.0@)
    }

    /// The (representative, row) pairs, in the order in which they are
    /// walked.
    pub closed spec fn entries(&self) -> Seq<(Seq<S>, Seq<X>)> {
        Seq::new(
            self.representatives@.len(),
            |i: int| (self.representatives@[i].0@, self.rows@[i].0@),
        )
    }

    /// The row of each representative.
    pub open spec fn row_map(&self) -> Map<Seq<S>, Seq<X>> {
        map_of(self.entries())
    }

    /// Whether the row of `k` holds an output for every experiment.
    pub open spec fn is_filled(&self, k: Seq<S>) -> bool {
        self.row_map().contains_key(k) && self.row_map()[k].len() == self.experiment_seq().len()
    }

    /// Representatives are unique, and no row is longer than the list of
    /// experiments.
    pub closed spec fn wf(&self) -> bool {
        &&& self.representatives@.len() == self.rows@.len()
        &&& unique_keys(self.entries())
        &&& forall|i: int|
            0 <= i < self.rows@.len() ==> #[trigger] self.rows@[i].0@.len()
                <= self.experiments@.len()
    }

    /// An empty table: no experiments and no representatives.
    pub fn new() -> (r: Self)
        ensures
            r.wf(),
            r.experiment_seq() == Seq::<Seq<S>>::empty(),
            r.row_map() == Map::<Seq<S>, Seq<X>>::empty(),
    {
        let r = ObservationTable { experiments: Vec::new(), representatives: Vec::new(), rows: Vec::new() };
        assert(r.experiment_seq() =~= Seq::<Seq<S>>::empty());
        assert(r.row_map() =~= Map::<Seq<S>, Seq<X>>::empty());
        r
    }

    /// The number of experiments.
    pub fn experiment_count(&self) -> (n: usize)
        ensures
            n == self.experiment_seq().len(),
    {
        self.experiments.len()
    }

    /// The number of representatives.
    pub fn representative_count(&self) -> (n: usize)
        ensures
            n == self.entries().len(),
    {
        self.representatives.len()
    }
}


impl<S: PartialEq, X> ObservationTable<S, X> {
    /// Where the row of the representative `r` stands, if it has one.
    fn find(&self, r: &Vec<S>) -> (res: Option<usize>)
        requires
            self.wf(),
            obeys_concrete_eq::<S>(),
        ensures
            match res {
                Some(i) => i < self.entries().len() && self.entries()[i as int].0 == r@,
                None => !has_key(self.entries(), r@),
            },
    {
        let mut i: usize = 0;
        while i < self.representatives.len()
            invariant
                self.wf(),
                obeys_concrete_eq::<S>(),
                0 <= i <= self.entries().len(),
                forall|j: int| 0 <= j < i ==> #[trigger] self.entries()[j].0 != r@,
            decreases self.representatives.len() - i,
        {
            if same_sequence(&self.representatives[i].0, r) {
                return Some(i);
            }
            i = i + 1;
        }
        None
    }

    /// A table with the given experiments, in order, and an empty row for
    /// each distinct representative. Where representatives repeat, the
    /// last one given keeps the row.
    pub fn with_rows_and_experiments(
        rows: Vec<Representative<S>>,
        experiments: Vec<Experiment<S>>,
    ) -> (r: Self)
        requires
            obeys_concrete_eq::<S>(),
        ensures
            r.wf(),
            r.experiment_seq() == experiments@.map_values(|e: Experiment<S>| e.0@),
            r.row_map() == Map::new(
                |k: Seq<S>| exists|i: int| 0 <= i < rows@.len() && #[trigger] rows@[i].0@ == k,
                |k: Seq<S>| Seq::<X>::empty(),
            ),
    {
        let ghost given = rows@;
        let mut table = ObservationTable {
            experiments,
            representatives: Vec::new(),
            rows: Vec::new(),
        };
        assert(table.entries() =~= Seq::empty());
        assert(table.row_map() =~= Map::new(
            |k: Seq<S>| exists|i: int| given.len() <= i < given.len() && #[trigger] given[i].0@ == k,
            |k: Seq<S>| Seq::<X>::empty(),
        ));
        let mut rest = rows;
        while rest.len() > 0
            invariant
                obeys_concrete_eq::<S>(),
                table.wf(),
                table.experiment_seq() == experiments@.map_values(|e: Experiment<S>| e.0@),
                rest.len() <= given.len(),
                rest@ == given.subrange(0, rest.len() as int),
                table.row_map() == Map::new(
                    |k: Seq<S>|
                        exists|i: int| rest.len() <= i < given.len() && #[trigger] given[i].0@ == k,
                    |k: Seq<S>| Seq::<X>::empty(),
                ),
            decreases rest.len(),
        {
            let ghost n = rest.len() as int;
            let ghost before = table.row_map();
            let r = rest.pop().unwrap();
            assert(r == given[n - 1]);
            let ghost target = Map::new(
                |k: Seq<S>| exists|i: int| n - 1 <= i < given.len() && #[trigger] given[i].0@ == k,
                |k: Seq<S>| Seq::<X>::empty(),
            );
            match table.find(&r.0) {
                Some(j) => {
                    proof {
                        lemma_map_of_index(table.entries(), j as int);
                        assert forall|k: Seq<S>| #[trigger]
                            target.contains_key(k) implies before.contains_key(k) by {
                            let i = choose|i: int|
                                n - 1 <= i < given.len() && #[trigger] given[i].0@ == k;
                            if i != n - 1 {
                                assert(rest.len() <= i < given.len() && given[i].0@ == k);
                            }
                        }
                        assert(table.row_map() =~= target);
                    }
                },
                None => {
                    let ghost old_entries = table.entries();
                    table.representatives.push(r);
                    table.rows.push(OutputRow(Vec::new()));
                    proof {
                        assert(table.entries() =~= old_entries.push((r.0@, Seq::<X>::empty())));
                        lemma_map_of_push(old_entries, r.0@, Seq::<X>::empty());
                        assert forall|k: Seq<S>| #[trigger]
                            target.contains_key(k) implies before.insert(r.0@, Seq::<X>::empty()).contains_key(k) by {
                            let i = choose|i: int|
                                n - 1 <= i < given.len() && #[trigger] given[i].0@ == k;
                            if i != n - 1 {
                                assert(rest.len() <= i < given.len() && given[i].0@ == k);
                            }
                        }
                        assert(table.row_map() =~= target);
                    }
                },
            }
        }
        table
    }

    /// Appends an experiment. Rows keep their outputs, so every row that was
    /// filled now lacks the cell of the new column.
    pub fn add_experiment(&mut self, e: Experiment<S>)
        requires
            old(self).wf(),
        ensures
            final(self).wf(),
            final(self).experiment_seq() == old(self).experiment_seq().push(e.0@),
            final(self).entries() == old(self).entries(),
            final(self).row_map() == old(self).row_map(),
    {
        let ghost e_view = e.0@;
        self.experiments.push(e);
        assert(self.experiment_seq() =~= old(self).experiment_seq().push(e_view));
        assert(self.entries() =~= old(self).entries());
    }

    /// Adds a representative with an empty row; one that already has a row
    /// is refused.
    pub fn add_representative(&mut self, r: Representative<S>) -> (res: Result<(), TableError>)
        requires
            old(self).wf(),
            obeys_concrete_eq::<S>(),
        ensures
            final(self).wf(),
            final(self).experiment_seq() == old(self).experiment_seq(),
            res is Err <==> old(self).row_map().contains_key(r.0@),
            res is Err ==> res == Err::<(), TableError>(TableError::Duplicate)
                && final(self).row_map() == old(self).row_map(),
            res is Ok ==> final(self).row_map() == old(self).row_map().insert(
                r.0@,
                Seq::<X>::empty(),
            ),
    {
        match self.find(&r.0) {
            Some(j) => {
                proof {
                    lemma_map_of_index(self.entries(), j as int);
                }
                Err(TableError::Duplicate)
            },
            None => {
                let ghost old_entries = self.entries();
                let ghost k = r.0@;
                self.representatives.push(r);
                self.rows.push(OutputRow(Vec::new()));
                proof {
                    assert(self.entries() =~= old_entries.push((k, Seq::<X>::empty())));
                    lemma_map_of_push(old_entries, k, Seq::<X>::empty());
                    assert(self.experiment_seq() =~= old(self).experiment_seq());
                }
                Ok(())
            },
        }
    }

    /// Writes `value` into column `column` of the row of `r`. The column must
    /// name an experiment, and either a filled cell, which is overwritten, or
    /// the first free cell of the row.
    pub fn fill(&mut self, r: &Representative<S>, column: usize, value: X) -> (res: Result<
        (),
        TableError,
    >)
        requires
            old(self).wf(),
            obeys_concrete_eq::<S>(),
        ensures
            final(self).wf(),
            final(self).experiment_seq() == old(self).experiment_seq(),
            !old(self).row_map().contains_key(r.0@) ==> res == Err::<(), TableError>(
                TableError::NotFound,
            ),
            old(self).row_map().contains_key(r.0@) && (column >= old(self).experiment_seq().len()
                || column > old(self).row_map()[r.0@].len()) ==> res == Err::<(), TableError>(
                TableError::IndexOutOfRange,
            ),
            res is Err ==> final(self).row_map() == old(self).row_map(),
            old(self).row_map().contains_key(r.0@) && column < old(self).experiment_seq().len()
                && column <= old(self).row_map()[r.0@].len() ==> res == Ok::<(), TableError>(())
                && final(self).row_map() == old(self).row_map().insert(
                r.0@,
                row_after_fill(old(self).row_map()[r.0@], column as int, value),
            ),
    {
        match self.find(&r.0) {
            None => Err(TableError::NotFound),
            Some(i) => {
                proof {
                    lemma_map_of_index(self.entries(), i as int);
                }
                if column >= self.experiments.len() || column > self.rows[i].0.len() {
                    return Err(TableError::IndexOutOfRange);
                }
                let ghost old_entries = self.entries();
                let ghost new_row = row_after_fill(old_entries[i as int].1, column as int, value);
                let mut row = self.rows.remove(i);
                if column < row.0.len() {
                    row.0.set(column, value);
                } else {
                    row.0.push(value);
                }
                assert(row.0@ =~= new_row);
                self.rows.insert(i, row);
                proof {
                    assert(self.entries() =~= old_entries.update(
                        i as int,
                        (old_entries[i as int].0, new_row),
                    ));
                    lemma_map_of_update(old_entries, i as int, new_row);
                    assert forall|j: int| 0 <= j < self.rows@.len() implies #[trigger] self.rows@[j].0@.len()
                        <= self.experiments@.len() by {
                        if j != i {
                            assert(self.rows@[j] == old(self).rows@[j]);
                        }
                    }
                }
                Ok(())
            },
        }
    }

    /// The row of `r`.
    pub fn row_of(&self, r: &Representative<S>) -> (res: Result<&OutputRow<X>, TableError>)
        requires
            self.wf(),
            obeys_concrete_eq::<S>(),
        ensures
            res is Ok <==> self.row_map().contains_key(r.0@),
            match res {
                Ok(row) => row.0@ == self.row_map()[r.0@],
                Err(e) => e == TableError::NotFound,
            },
    {
        match self.find(&r.0) {
            None => Err(TableError::NotFound),
            Some(i) => {
                proof {
                    lemma_map_of_index(self.entries(), i as int);
                }
                Ok(&self.rows[i])
            },
        }
    }
}


impl<S, X> ObservationTable<S, X> {
    /// What comparing the rows of `k1` and `k2` yields: `NotFound` when one
    /// has no row, `Incomplete` when one row lacks outputs, else whether the
    /// rows are equal.
    pub open spec fn equivalence_outcome(&self, k1: Seq<S>, k2: Seq<S>) -> Result<bool, TableError> {
        if !self.row_map().contains_key(k1) || !self.row_map().contains_key(k2) {
            Err(TableError::NotFound)
        } else if !self.is_filled(k1) || !self.is_filled(k2) {
            Err(TableError::Incomplete)
        } else {
            Ok(self.row_map()[k1] == self.row_map()[k2])
        }
    }

    /// The entry at position `i` of the walk over the table.
    pub fn entry_at(&self, i: usize) -> (p: (&Representative<S>, &OutputRow<X>))
        requires
            self.wf(),
            i < self.entries().len(),
        ensures
            (p.0.0@, p.1.0@) == self.entries()[i as int],
            self.row_map().contains_key(p.0.0@),
            self.row_map()[p.0.0@] == p.1.0@,
    {
        proof {
            lemma_map_of_index(self.entries(), i as int);
        }
        (&self.representatives[i], &self.rows[i])
    }

    /// The experiment of column `i`.
    pub fn experiment_at(&self, i: usize) -> (e: &Experiment<S>)
        requires
            i < self.experiment_seq().len(),
        ensures
            e.0@ == self.experiment_seq()[i as int],
    {
        &self.experiments[i]
    }
}

impl<S: PartialEq, X: PartialEq> ObservationTable<S, X> {
    /// Whether `r1` and `r2` answer every experiment alike. Both need a row,
    /// and both rows must be filled: a row with missing outputs is
    /// `Incomplete`, never unequal.
    pub fn row_equivalent(&self, r1: &Representative<S>, r2: &Representative<S>) -> (res: Result<
        bool,
        TableError,
    >)
        requires
            self.wf(),
            obeys_concrete_eq::<S>(),
            obeys_concrete_eq::<X>(),
        ensures
            res == self.equivalence_outcome(r1.0@, r2.0@),
    {
        let i1 = match self.find(&r1.0) {
            None => {
                return Err(TableError::NotFound);
            },
            Some(i) => i,
        };
        let i2 = match self.find(&r2.0) {
            None => {
                return Err(TableError::NotFound);
            },
            Some(i) => i,
        };
        proof {
            lemma_map_of_index(self.entries(), i1 as int);
            lemma_map_of_index(self.entries(), i2 as int);
        }
        let n = self.experiments.len();
        if self.rows[i1].0.len() != n || self.rows[i2].0.len() != n {
            return Err(TableError::Incomplete);
        }
        Ok(same_sequence(&self.rows[i1].0, &self.rows[i2].0))
    }
}

/// Filling a cell twice with the same value leaves the row as one fill did.
pub proof fn lemma_fill_idempotent<X>(row: Seq<X>, c: int, v: X)
    requires
        0 <= c <= row.len(),
    ensures
        row_after_fill(row_after_fill(row, c, v), c, v) == row_after_fill(row, c, v),
{
    assert(row_after_fill(row_after_fill(row, c, v), c, v) =~= row_after_fill(row, c, v));
}

/// Filling a cell again with another value overwrites it: the row is as if
/// only the second value had been written.
pub proof fn lemma_fill_overwrites<X>(row: Seq<X>, c: int, v1: X, v2: X)
    requires
        0 <= c <= row.len(),
    ensures
        row_after_fill(row_after_fill(row, c, v1), c, v2) == row_after_fill(row, c, v2),
{
    assert(row_after_fill(row_after_fill(row, c, v1), c, v2) =~= row_after_fill(row, c, v2));
}

/// A representative whose row is filled is row-equivalent to itself.
pub proof fn lemma_row_equivalent_reflexive<S, X>(t: ObservationTable<S, X>, k: Seq<S>)
    requires
        t.is_filled(k),
    ensures
        t.equivalence_outcome(k, k) == Ok::<bool, TableError>(true),
{
}

/// Comparing `k1` with `k2` yields what comparing `k2` with `k1` yields.
pub proof fn lemma_row_equivalent_symmetric<S, X>(t: ObservationTable<S, X>, k1: Seq<S>, k2: Seq<S>)
    ensures
        t.equivalence_outcome(k1, k2) == t.equivalence_outcome(k2, k1),
{
}

/// Among filled rows, row equivalence is transitive.
pub proof fn lemma_row_equivalent_transitive<S, X>(
    t: ObservationTable<S, X>,
    k1: Seq<S>,
    k2: Seq<S>,
    k3: Seq<S>,
)
    requires
        t.equivalence_outcome(k1, k2) == Ok::<bool, TableError>(true),
        t.equivalence_outcome(k2, k3) == Ok::<bool, TableError>(true),
    ensures
        t.equivalence_outcome(k1, k3) == Ok::<bool, TableError>(true),
{
}

/// Comparing a row that is shorter than the list of experiments fails with
/// `Incomplete`, whatever the other row holds, as long as both rows exist.
pub proof fn lemma_short_row_incomplete<S, X>(t: ObservationTable<S, X>, k1: Seq<S>, k2: Seq<S>)
    requires
        t.row_map().contains_key(k1),
        t.row_map().contains_key(k2),
        t.row_map()[k1].len() < t.experiment_seq().len(),
    ensures
        t.equivalence_outcome(k1, k2) == Err::<bool, TableError>(TableError::Incomplete),
        t.equivalence_outcome(k2, k1) == Err::<bool, TableError>(TableError::Incomplete),
{
}

} // verus!
