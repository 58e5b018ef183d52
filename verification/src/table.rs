//! The accumulated wide table: one row per person, one column per
//! recorded timestamp, cells holding a duty state or absent, and the
//! merge of a new snapshot into it (a full outer join on the person
//! key).

use vstd::prelude::*;

use crate::calendar::Timestamp;
use crate::duty::DutyError;
use crate::duty::Status;
use crate::duty::UserStatus;
use crate::duty::spec_full_name;

verus! {

/// One row of the accumulated table.
pub struct Row {
    /// The person key.
    pub name: String,
    /// One cell per column of the table; `None` is an absent
    /// observation, never to be confused with `OffDuty`.
    pub cells: Vec<Option<Status>>,
}

/// Mathematical model of a row.
pub ghost struct RowModel {
    pub name: Seq<char>,
    pub cells: Seq<Option<Status>>,
}

/// Mathematical model of the accumulated table.
pub ghost struct TableModel {
    pub cols: Seq<Timestamp>,
    pub rows: Seq<RowModel>,
}

impl View for Row {
    type V = RowModel;

    open spec fn view(&self) -> RowModel {
        RowModel { name: self.name@, cells: self.cells@ }
    }
}

/// The models of a sequence of rows.
pub open spec fn rows_model(rows: Seq<Row>) -> Seq<RowModel> {
    Seq::new(rows.len(), |i: int| rows[i]@)
}

/// The accumulated table.
pub struct Data {
    pub cols: Vec<Timestamp>,
    pub rows: Vec<Row>,
}

impl View for Data {
    type V = TableModel;

    open spec fn view(&self) -> TableModel {
        TableModel { cols: self.cols@, rows: rows_model(self.rows@) }
    }
}

/// The empty accumulated table.
pub open spec fn empty_table() -> TableModel {
    TableModel { cols: Seq::empty(), rows: Seq::empty() }
}

/// Whether a person was observed at least once in this row.
pub open spec fn row_has_present(r: RowModel) -> bool {
    exists|j: int| 0 <= j < r.cells.len() && r.cells[j] is Some
}

/// Invariant of the accumulated table: every row is as wide as the
/// column list, person keys are unique, column timestamps are unique
/// and valid, and every person has been observed at least once.
pub open spec fn table_wf(t: TableModel) -> bool {
    &&& forall|i: int|
        0 <= i < t.rows.len() ==> (#[trigger] t.rows[i]).cells.len() == t.cols.len()
    &&& forall|i: int, j: int|
        0 <= i < j < t.rows.len() ==> (#[trigger] t.rows[i]).name != (#[trigger] t.rows[j]).name
    &&& forall|i: int, j: int|
        0 <= i < j < t.cols.len() ==> (#[trigger] t.cols[i]) != (#[trigger] t.cols[j])
    &&& forall|i: int| 0 <= i < t.cols.len() ==> (#[trigger] t.cols[i]).wf()
    &&& forall|i: int| 0 <= i < t.rows.len() ==> row_has_present(#[trigger] t.rows[i])
}

/// Pairwise distinct person keys within one snapshot.
pub open spec fn unique_user_names(users: Seq<UserStatus>) -> bool {
    forall|i: int, j: int|
        0 <= i < j < users.len() ==> spec_full_name(
            (#[trigger] users[i]).firstname@,
            users[i].lastname@,
        ) != spec_full_name((#[trigger] users[j]).firstname@, users[j].lastname@)
}

/// The state a snapshot observed for a person key, or `None` when the
/// person is absent from the snapshot.
pub open spec fn snap_lookup(users: Seq<UserStatus>, name: Seq<char>) -> Option<Status>
    decreases users.len(),
{
    if users.len() == 0 {
        None
    } else if spec_full_name(users[0].firstname@, users[0].lastname@) == name {
        Some(users[0].status)
    } else {
        snap_lookup(users.drop_first(), name)
    }
}

/// Whether some row carries the person key.
pub open spec fn spec_has_row(rows: Seq<RowModel>, name: Seq<char>) -> bool {
    exists|k: int| 0 <= k < rows.len() && (#[trigger] rows[k]).name == name
}

/// The existing rows after a merge: each gains one cell, the state the
/// snapshot observed for it (absent when the person is not in the
/// snapshot).
pub open spec fn updated_rows(t: TableModel, users: Seq<UserStatus>) -> Seq<RowModel> {
    Seq::new(
        t.rows.len(),
        |i: int|
            RowModel {
                name: t.rows[i].name,
                cells: t.rows[i].cells.push(snap_lookup(users, t.rows[i].name)),
            },
    )
}

/// The rows a merge appends: one per snapshot person not yet in the
/// table, in snapshot order, absent in all prior columns and observed
/// in the new one.
pub open spec fn added_rows(t: TableModel, users: Seq<UserStatus>, n_old: nat) -> Seq<RowModel>
    decreases users.len(),
{
    if users.len() == 0 {
        Seq::empty()
    } else {
        let init = added_rows(t, users.drop_last(), n_old);
        let u = users.last();
        let nm = spec_full_name(u.firstname@, u.lastname@);
        if spec_has_row(t.rows, nm) {
            init
        } else {
            init.push(
                RowModel {
                    name: nm,
                    cells: Seq::new(n_old as int as nat, |j: int| None::<Status>).push(
                        Some(u.status),
                    ),
                },
            )
        }
    }
}

/// The full outer join of the table with one snapshot, keyed on the
/// person key.
pub open spec fn spec_merge(t: TableModel, ts: Timestamp, users: Seq<UserStatus>) -> TableModel {
    TableModel {
        cols: t.cols.push(ts),
        rows: updated_rows(t, users) + added_rows(t, users, t.cols.len()),
    }
}

impl Data {
    /// A fresh, empty accumulated table.
    pub fn new() -> (r: Data)
        ensures
            r@ == empty_table(),
            table_wf(r@),
    {
        let r = Data { cols: Vec::new(), rows: Vec::new() };
        proof {
            assert(r@.cols =~= empty_table().cols);
            assert(r@.rows =~= empty_table().rows);
        }
        r
    }

    /// Whether a timestamp is already a column of the table.
    pub fn has_col(&self, ts: Timestamp) -> (b: bool)
        ensures
            b == self@.cols.contains(ts),
    {
        let mut i: usize = 0;
        while i < self.cols.len()
            invariant
                0 <= i <= self.cols@.len(),
                forall|k: int| 0 <= k < i ==> self.cols@[k] != ts,
            decreases self.cols@.len() - i,
        {
            if self.cols[i] == ts {
                return true;
            }
            i += 1;
        }
        false
    }

    /// The state the snapshot observed for a person key.
    fn find_state(users: &Vec<UserStatus>, name: &String) -> (r: Option<Status>)
        ensures
            r == snap_lookup(users@, name@),
    {
        let mut i: usize = 0;
        proof {
            assert(users@.skip(0) =~= users@);
        }
        while i < users.len()
            invariant
                0 <= i <= users@.len(),
                snap_lookup(users@, name@) == snap_lookup(users@.skip(i as int), name@),
            decreases users@.len() - i,
        {
            let full = users[i].full_name();
            if full == *name {
                proof {
                    assert(users@.skip(i as int)[0] == users@[i as int]);
                }
                return Some(users[i].status);
            }
            proof {
                assert(users@.skip(i as int)[0] == users@[i as int]);
                assert(users@.skip(i as int).drop_first() =~= users@.skip(i as int + 1));
            }
            i += 1;
        }
        None
    }

    /// Whether one of the first `upto` rows carries the person key.
    pub(crate) fn has_name(rows: &Vec<Row>, upto: usize, name: &String) -> (b: bool)
        requires
            upto <= rows@.len(),
        ensures
            b == exists|k: int| 0 <= k < upto && (#[trigger] rows@[k])@.name == name@,
    {
        let mut i: usize = 0;
        while i < upto
            invariant
                0 <= i <= upto <= rows@.len(),
                forall|k: int| 0 <= k < i ==> (#[trigger] rows@[k])@.name != name@,
            decreases upto - i,
        {
            if rows[i].name == *name {
                return true;
            }
            i += 1;
        }
        false
    }

    /// Merge one snapshot into the table: a full outer join on the
    /// person key. Existing rows gain exactly one column; persons new
    /// to the table are appended with all prior columns absent.
    ///
    /// An empty snapshot is rejected as `MalformedSnapshot` before any
    /// mutation.
    pub fn append(&mut self, datetime: Timestamp, users: &Vec<UserStatus>) -> (r: Result<
        (),
        DutyError,
    >)
        requires
            table_wf(old(self)@),
            datetime.wf(),
            !old(self)@.cols.contains(datetime),
            unique_user_names(users@),
        ensures
            users@.len() == 0 ==> r == Result::<(), DutyError>::Err(DutyError::MalformedSnapshot)
                && final(self)@ == old(self)@,
            users@.len() > 0 ==> r is Ok && final(self)@ == spec_merge(old(self)@, datetime, users@)
                && table_wf(final(self)@),
    {
        if users.len() == 0 {
            proof {
                assert(self@.cols =~= old(self)@.cols);
                assert(self@.rows =~= old(self)@.rows);
            }
            return Err(DutyError::MalformedSnapshot);
        }
        let ghost t0 = self@;
        let n_old_cols = self.cols.len();
        self.cols.push(datetime);

        let mut updated: Vec<Row> = Vec::new();
        while self.rows.len() > 0
            invariant
                self.cols@ == t0.cols.push(datetime),
                rows_model(updated@) =~= updated_rows(t0, users@).take(updated@.len() as int),
                rows_model(self.rows@) =~= t0.rows.skip(updated@.len() as int),
                updated@.len() + self.rows@.len() == t0.rows.len(),
            decreases self.rows@.len(),
        {
            let ghost k = updated@.len() as int;
            let ghost prev = self.rows@;
            let ghost prev_updated = updated@;
            let mut row = self.rows.remove(0);
            proof {
                assert(rows_model(prev)[0] == prev[0]@);
                assert(rows_model(prev)[0] == t0.rows.skip(k)[0]);
                assert(row@ == t0.rows[k]);
                assert(rows_model(self.rows@) =~= t0.rows.skip(k + 1)) by {
                    assert forall|x: int| 0 <= x < self.rows@.len() implies rows_model(
                        self.rows@,
                    )[x] == t0.rows.skip(k + 1)[x] by {
                        assert(rows_model(self.rows@)[x] == self.rows@[x]@);
                        assert(self.rows@[x] == prev[x + 1]);
                        assert(rows_model(prev)[x + 1] == prev[x + 1]@);
                        assert(rows_model(prev)[x + 1] == t0.rows.skip(k)[x + 1]);
                        assert(t0.rows.skip(k)[x + 1] == t0.rows[k + 1 + x]);
                        assert(t0.rows.skip(k + 1)[x] == t0.rows[k + 1 + x]);
                    }
                }
            }
            let st = Self::find_state(users, &row.name);
            row.cells.push(st);
            let ghost row_m = row@;
            updated.push(row);
            proof {
                assert(rows_model(updated@) =~= updated_rows(t0, users@).take(k + 1)) by {
                    assert forall|x: int| 0 <= x <= k implies rows_model(updated@)[x]
                        == updated_rows(t0, users@).take(k + 1)[x] by {
                        assert(rows_model(updated@)[x] == updated@[x]@);
                        if x < k {
                            assert(updated@[x] == prev_updated[x]);
                            assert(rows_model(prev_updated)[x] == prev_updated[x]@);
                            assert(rows_model(prev_updated)[x] == updated_rows(
                                t0,
                                users@,
                            ).take(k)[x]);
                        } else {
                            assert(updated@[x]@ == row_m);
                            assert(row_m.name == t0.rows[k].name);
                            assert(row_m.cells == t0.rows[k].cells.push(
                                snap_lookup(users@, t0.rows[k].name),
                            ));
                            assert(updated_rows(t0, users@)[k] == RowModel {
                                name: t0.rows[k].name,
                                cells: t0.rows[k].cells.push(
                                    snap_lookup(users@, t0.rows[k].name),
                                ),
                            });
                        }
                    }
                }
            }
        }
        proof {
            assert(rows_model(updated@) =~= updated_rows(t0, users@));
        }
        self.rows = updated;

        let n_base = self.rows.len();
        let mut j: usize = 0;
        proof {
            assert(rows_model(self.rows@) =~= updated_rows(t0, users@) + added_rows(
                t0,
                users@.take(0),
                t0.cols.len(),
            ));
        }
        while j < users.len()
            invariant
                unique_user_names(users@),
                0 <= j <= users@.len(),
                n_base == t0.rows.len(),
                n_base <= self.rows@.len(),
                self.cols@ == t0.cols.push(datetime),
                n_old_cols == t0.cols.len(),
                rows_model(self.rows@) =~= updated_rows(t0, users@) + added_rows(
                    t0,
                    users@.take(j as int),
                    t0.cols.len(),
                ),
            decreases users@.len() - j,
        {
            let u = &users[j];
            let name = u.full_name();
            let ghost before = self.rows@;
            let ghost added_j = added_rows(t0, users@.take(j as int), t0.cols.len());
            proof {
                assert forall|k: int| 0 <= k < n_base implies (#[trigger] self.rows@[k])@.name
                    == t0.rows[k].name by {
                    assert((updated_rows(t0, users@) + added_j)[k] == updated_rows(
                        t0,
                        users@,
                    )[k]);
                    assert(rows_model(self.rows@)[k] == self.rows@[k]@);
                }
            }
            if !Self::has_name(&self.rows, n_base, &name) {
                proof {
                    assert(!spec_has_row(t0.rows, name@)) by {
                        if spec_has_row(t0.rows, name@) {
                            let k = choose|k: int|
                                0 <= k < t0.rows.len() && (#[trigger] t0.rows[k]).name == name@;
                            assert(self.rows@[k]@.name == t0.rows[k].name);
                        }
                    }
                }
                let mut cells: Vec<Option<Status>> = Vec::new();
                let mut c: usize = 0;
                while c < n_old_cols
                    invariant
                        0 <= c <= n_old_cols,
                        cells@ =~= Seq::new(c as nat, |x: int| None::<Status>),
                    decreases n_old_cols - c,
                {
                    cells.push(None);
                    proof {
                        assert(cells@ =~= Seq::new((c + 1) as nat, |x: int| None::<Status>));
                    }
                    c += 1;
                }
                cells.push(Some(u.status));
                let new_row = Row { name, cells };
                let ghost newrow_m = new_row@;
                self.rows.push(new_row);
                proof {
                    let up = updated_rows(t0, users@);
                    assert(users@.take(j + 1).drop_last() =~= users@.take(j as int));
                    assert(users@.take(j + 1).last() == users@[j as int]);
                    let a1 = added_rows(t0, users@.take(j + 1), t0.cols.len());
                    assert(a1 == added_j.push(a1.last()));
                    assert(a1.last().name == newrow_m.name);
                    assert(a1.last().cells =~= newrow_m.cells) by {
                        assert(newrow_m.cells =~= Seq::new(
                            t0.cols.len(),
                            |x: int| None::<Status>,
                        ).push(Some(users@[j as int].status)));
                        assert(a1.last().cells =~= Seq::new(
                            t0.cols.len(),
                            |x: int| None::<Status>,
                        ).push(Some(users@[j as int].status)));
                    }
                    assert(a1.last() == newrow_m);
                    assert(rows_model(before).len() == before.len());
                    assert(before.len() == up.len() + added_j.len());
                    assert forall|x: int| 0 <= x < self.rows@.len() implies rows_model(
                        self.rows@,
                    )[x] == (up + a1)[x] by {
                        assert(rows_model(self.rows@)[x] == self.rows@[x]@);
                        if x < before.len() {
                            assert(self.rows@[x] == before[x]);
                            assert(rows_model(before)[x] == before[x]@);
                            assert(rows_model(before)[x] == (up + added_j)[x]);
                            if x < up.len() {
                                assert((up + added_j)[x] == up[x]);
                                assert((up + a1)[x] == up[x]);
                            } else {
                                assert((up + added_j)[x] == added_j[x - up.len()]);
                                assert((up + a1)[x] == a1[x - up.len()]);
                                assert(a1[x - up.len()] == added_j[x - up.len()]);
                            }
                        } else {
                            assert(self.rows@[x]@ == newrow_m);
                            assert((up + a1)[x] == a1[x - up.len()]);
                            assert(a1[x - up.len()] == a1.last());
                        }
                    }
                    assert(rows_model(self.rows@) =~= up + a1);
                }
            } else {
                proof {
                    let k = choose|k: int|
                        0 <= k < n_base && (#[trigger] self.rows@[k])@.name == name@;
                    assert(t0.rows[k].name == name@);
                    assert(spec_has_row(t0.rows, name@));
                    assert(users@.take(j + 1).drop_last() =~= users@.take(j as int));
                    assert(users@.take(j + 1).last() == users@[j as int]);
                    assert(added_rows(t0, users@.take(j + 1), t0.cols.len()) == added_j);
                    assert(rows_model(self.rows@) =~= updated_rows(t0, users@) + added_rows(
                        t0,
                        users@.take(j + 1),
                        t0.cols.len(),
                    ));
                }
            }
            j += 1;
        }
        proof {
            assert(users@.take(users@.len() as int) =~= users@);
            assert(self@.rows =~= spec_merge(t0, datetime, users@).rows);
            assert(self@ == spec_merge(t0, datetime, users@));
            lemma_merge_wf(t0, datetime, users@);
        }
        Ok(())
    }
}

/// Every appended row is one column wider than the old table, carries
/// a present cell in the new column, carries the key of some snapshot
/// person, and no key already present in the table.
proof fn lemma_added_rows_props(t: TableModel, users: Seq<UserStatus>, n_old: nat)
    requires
        unique_user_names(users),
    ensures
        forall|i: int|
            0 <= i < added_rows(t, users, n_old).len() ==> {
                let r = #[trigger] added_rows(t, users, n_old)[i];
                &&& r.cells.len() == n_old + 1
                &&& r.cells[n_old as int] is Some
                &&& !spec_has_row(t.rows, r.name)
                &&& exists|u: int|
                    0 <= u < users.len() && r.name == spec_full_name(
                        (#[trigger] users[u]).firstname@,
                        users[u].lastname@,
                    )
            },
        forall|i: int, j: int|
            0 <= i < j < added_rows(t, users, n_old).len() ==> (#[trigger] added_rows(
                t,
                users,
                n_old,
            )[i]).name != (#[trigger] added_rows(t, users, n_old)[j]).name,
    decreases users.len(),
{
    if users.len() == 0 {
    } else {
        lemma_added_rows_props(t, users.drop_last(), n_old);
        let prev = added_rows(t, users.drop_last(), n_old);
        let u = users.last();
        let nm = spec_full_name(u.firstname@, u.lastname@);
        assert(forall|k: int|
            0 <= k < users.len() - 1 ==> users.drop_last()[k] == users[k]);
        if !spec_has_row(t.rows, nm) {
            assert(added_rows(t, users, n_old) == prev.push(
                RowModel {
                    name: nm,
                    cells: Seq::new(n_old as int as nat, |j: int| None::<Status>).push(
                        Some(u.status),
                    ),
                },
            ));
            assert forall|i: int| 0 <= i < prev.len() implies (#[trigger] prev[i]).name != nm by {
                let w = choose|w: int|
                    0 <= w < users.drop_last().len() && prev[i].name == spec_full_name(
                        (#[trigger] users.drop_last()[w]).firstname@,
                        users.drop_last()[w].lastname@,
                    );
                assert(users[w] == users.drop_last()[w]);
                assert(users.len() - 1 > w);
            }
        }
    }
}

/// A merge of a well-formed table with a valid, non-empty snapshot of
/// distinct persons at a fresh timestamp yields a well-formed table.
pub proof fn lemma_merge_wf(t: TableModel, ts: Timestamp, users: Seq<UserStatus>)
    requires
        table_wf(t),
        ts.wf(),
        !t.cols.contains(ts),
        unique_user_names(users),
    ensures
        table_wf(spec_merge(t, ts, users)),
{
    let m = spec_merge(t, ts, users);
    let up = updated_rows(t, users);
    let ad = added_rows(t, users, t.cols.len());
    lemma_added_rows_props(t, users, t.cols.len());
    assert forall|i: int| 0 <= i < m.rows.len() implies (#[trigger] m.rows[i]).cells.len()
        == m.cols.len() by {
        if i < up.len() {
            assert(m.rows[i] == up[i]);
        } else {
            assert(m.rows[i] == ad[i - up.len()]);
        }
    }
    assert forall|i: int, j: int| 0 <= i < j < m.rows.len() implies (#[trigger] m.rows[i]).name
        != (#[trigger] m.rows[j]).name by {
        if j < up.len() {
            assert(m.rows[i] == up[i] && m.rows[j] == up[j]);
            assert(t.rows[i].name != t.rows[j].name);
        } else if i < up.len() {
            assert(m.rows[i] == up[i] && m.rows[j] == ad[j - up.len()]);
            assert(!spec_has_row(t.rows, ad[j - up.len()].name));
            assert(m.rows[i].name == t.rows[i].name);
        } else {
            assert(m.rows[i] == ad[i - up.len()] && m.rows[j] == ad[j - up.len()]);
        }
    }
    assert forall|i: int, j: int| 0 <= i < j < m.cols.len() implies (#[trigger] m.cols[i])
        != (#[trigger] m.cols[j]) by {
        if j == m.cols.len() - 1 {
            assert(m.cols[i] == t.cols[i]);
            assert(t.cols.contains(t.cols[i]) == true) by {
                assert(t.cols[i] == t.cols[i]);
            }
            assert(m.cols[j] == ts);
        }
    }
    assert forall|i: int| 0 <= i < m.cols.len() implies (#[trigger] m.cols[i]).wf() by {
        if i < t.cols.len() {
            assert(m.cols[i] == t.cols[i]);
        } else {
            assert(m.cols[i] == ts);
        }
    }
    assert forall|i: int| 0 <= i < m.rows.len() implies row_has_present(#[trigger] m.rows[i]) by {
        if i < up.len() {
            assert(m.rows[i] == up[i]);
            assert(row_has_present(t.rows[i]));
            let j = choose|j: int|
                0 <= j < t.rows[i].cells.len() && #[trigger] t.rows[i].cells[j] is Some;
            assert(m.rows[i].cells[j] == t.rows[i].cells[j]);
            assert(m.rows[i].cells[j] is Some);
        } else {
            assert(m.rows[i] == ad[i - up.len()]);
            assert(m.rows[i].cells[t.cols.len() as int] is Some);
        }
    }
}

/// Merging never alters or removes an existing cell: every prior
/// (person, timestamp) pair keeps its exact value, and every prior
/// column keeps its place.
pub proof fn lemma_merge_preserves_cells(
    t: TableModel,
    ts: Timestamp,
    users: Seq<UserStatus>,
    i: int,
    j: int,
)
    requires
        0 <= i < t.rows.len(),
        0 <= j < t.cols.len(),
        table_wf(t),
    ensures
        spec_merge(t, ts, users).cols[j] == t.cols[j],
        spec_merge(t, ts, users).rows[i].name == t.rows[i].name,
        spec_merge(t, ts, users).rows[i].cells[j] == t.rows[i].cells[j],
{
    let m = spec_merge(t, ts, users);
    let up = updated_rows(t, users);
    assert(m.rows[i] == up[i]);
}

/// The person keys of a sequence of rows, as a set.
pub open spec fn names_of_rows(rows: Seq<RowModel>) -> Set<Seq<char>>
    decreases rows.len(),
{
    if rows.len() == 0 {
        Set::empty()
    } else {
        names_of_rows(rows.drop_last()).insert(rows.last().name)
    }
}

/// The person keys observed by a snapshot, as a set.
pub open spec fn names_of_users(users: Seq<UserStatus>) -> Set<Seq<char>>
    decreases users.len(),
{
    if users.len() == 0 {
        Set::empty()
    } else {
        names_of_users(users.drop_last()).insert(
            spec_full_name(users.last().firstname@, users.last().lastname@),
        )
    }
}

proof fn lemma_names_of_rows_concat(a: Seq<RowModel>, b: Seq<RowModel>)
    ensures
        names_of_rows(a + b) =~= names_of_rows(a).union(names_of_rows(b)),
    decreases b.len(),
{
    if b.len() == 0 {
        assert(a + b =~= a);
    } else {
        lemma_names_of_rows_concat(a, b.drop_last());
        assert((a + b).drop_last() =~= a + b.drop_last());
        assert((a + b).last() == b.last());
    }
}

proof fn lemma_names_of_rows_membership(rows: Seq<RowModel>, name: Seq<char>)
    ensures
        names_of_rows(rows).contains(name) == spec_has_row(rows, name),
    decreases rows.len(),
{
    if rows.len() == 0 {
    } else {
        lemma_names_of_rows_membership(rows.drop_last(), name);
        if spec_has_row(rows.drop_last(), name) {
            let k = choose|k: int|
                0 <= k < rows.drop_last().len() && (#[trigger] rows.drop_last()[k]).name == name;
            assert(rows[k].name == name);
        } else if rows.last().name == name {
            assert(rows[rows.len() - 1].name == name);
        } else {
            if spec_has_row(rows, name) {
                let k = choose|k: int|
                    0 <= k < rows.len() && (#[trigger] rows[k]).name == name;
                if k < rows.len() - 1 {
                    assert(rows.drop_last()[k].name == name);
                }
            }
        }
    }
}

proof fn lemma_updated_rows_names(t: TableModel, users: Seq<UserStatus>)
    ensures
        names_of_rows(updated_rows(t, users)) =~= names_of_rows(t.rows),
{
    lemma_updated_rows_names_rec(t, users, t.rows.len() as int);
    assert(updated_rows(t, users).take(t.rows.len() as int) =~= updated_rows(t, users));
    assert(t.rows.take(t.rows.len() as int) =~= t.rows);
}

proof fn lemma_updated_rows_names_rec(t: TableModel, users: Seq<UserStatus>, n: int)
    requires
        0 <= n <= t.rows.len(),
    ensures
        names_of_rows(updated_rows(t, users).take(n)) =~= names_of_rows(t.rows.take(n)),
    decreases n,
{
    if n > 0 {
        lemma_updated_rows_names_rec(t, users, n - 1);
        assert(updated_rows(t, users).take(n).drop_last() =~= updated_rows(t, users).take(n - 1));
        assert(t.rows.take(n).drop_last() =~= t.rows.take(n - 1));
        assert(updated_rows(t, users).take(n).last() == updated_rows(t, users)[n - 1]);
        assert(t.rows.take(n).last() == t.rows[n - 1]);
    }
}

/// The row set after a merge is exactly the union of the table's
/// persons and the snapshot's persons.
pub proof fn lemma_merge_names(t: TableModel, ts: Timestamp, users: Seq<UserStatus>)
    ensures
        names_of_rows(spec_merge(t, ts, users).rows) =~= names_of_rows(t.rows).union(
            names_of_users(users),
        ),
    decreases users.len(),
{
    lemma_names_of_rows_concat(updated_rows(t, users), added_rows(t, users, t.cols.len()));
    lemma_updated_rows_names(t, users);
    lemma_added_rows_names(t, users, t.cols.len());
}

proof fn lemma_added_rows_names(t: TableModel, users: Seq<UserStatus>, n_old: nat)
    ensures
        names_of_rows(t.rows).union(names_of_rows(added_rows(t, users, n_old)))
            =~= names_of_rows(t.rows).union(names_of_users(users)),
    decreases users.len(),
{
    if users.len() == 0 {
    } else {
        lemma_added_rows_names(t, users.drop_last(), n_old);
        let u = users.last();
        let nm = spec_full_name(u.firstname@, u.lastname@);
        lemma_names_of_rows_membership(t.rows, nm);
        let prev = added_rows(t, users.drop_last(), n_old);
        let lhs = names_of_rows(t.rows).union(names_of_rows(added_rows(t, users, n_old)));
        let rhs = names_of_rows(t.rows).union(names_of_users(users));
        let ihl = names_of_rows(t.rows).union(names_of_rows(prev));
        let ihr = names_of_rows(t.rows).union(names_of_users(users.drop_last()));
        assert(ihl == ihr);
        assert(names_of_users(users) == names_of_users(users.drop_last()).insert(nm));
        if spec_has_row(t.rows, nm) {
            assert(names_of_rows(t.rows).contains(nm));
            assert(added_rows(t, users, n_old) == prev);
            assert forall|x: Seq<char>| rhs.contains(x) implies lhs.contains(x) by {
                if x == nm {
                    assert(names_of_rows(t.rows).contains(x));
                } else {
                    assert(ihr.contains(x));
                }
            }
            assert forall|x: Seq<char>| lhs.contains(x) implies rhs.contains(x) by {
                assert(ihl.contains(x));
            }
            assert(lhs =~= rhs);
        } else {
            let added = added_rows(t, users, n_old);
            assert(added.drop_last() =~= prev);
            assert(added.last().name == nm);
            assert(names_of_rows(added) == names_of_rows(added.drop_last()).insert(
                added.last().name,
            ));
            assert(names_of_rows(added) =~= names_of_rows(prev).insert(nm));
            assert forall|x: Seq<char>| rhs.contains(x) implies lhs.contains(x) by {
                if x == nm {
                    assert(names_of_rows(added).contains(x));
                } else {
                    assert(ihr.contains(x));
                    assert(ihl.contains(x));
                    if names_of_rows(prev).contains(x) {
                        assert(names_of_rows(added).contains(x));
                    }
                }
            }
            assert forall|x: Seq<char>| lhs.contains(x) implies rhs.contains(x) by {
                if x == nm {
                    assert(names_of_users(users).contains(x));
                } else {
                    if names_of_rows(added).contains(x) {
                        assert(names_of_rows(prev).contains(x));
                    }
                    assert(ihl.contains(x));
                    assert(ihr.contains(x));
                }
            }
            assert(lhs =~= rhs);
        }
    }
}

/// Merging two snapshots into the empty table yields exactly the union
/// of their person keys as rows, and exactly two columns.
pub proof fn lemma_join_totality(
    ts1: Timestamp,
    users1: Seq<UserStatus>,
    ts2: Timestamp,
    users2: Seq<UserStatus>,
)
    ensures
        ({
            let t1 = spec_merge(empty_table(), ts1, users1);
            let t2 = spec_merge(t1, ts2, users2);
            &&& names_of_rows(t2.rows) =~= names_of_users(users1).union(names_of_users(users2))
            &&& t2.cols.len() == 2
        }),
{
    let t1 = spec_merge(empty_table(), ts1, users1);
    lemma_merge_names(empty_table(), ts1, users1);
    lemma_merge_names(t1, ts2, users2);
}

} // verus!
