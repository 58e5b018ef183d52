//! Attendance summaries: per person, the overall and weekend-only
//! on-duty ratios, ordered descending by the overall ratio with ties
//! keeping the row order of the table.
//!
//! Ratios are kept as exact numerator/denominator pairs of counts; a
//! denominator of zero means the ratio is undefined (never an error).

use vstd::prelude::*;

use crate::calendar::Timestamp;
use crate::calendar::spec_in_weekend;
use crate::duty::Status;
use crate::table::Data;
use crate::table::TableModel;
use crate::table::rows_model;
use crate::table::table_wf;

verus! {

/// The derived attendance metrics of one person.
///
/// The overall on-duty percentage is `100 * total_on / total_present`,
/// the weekend one `100 * weekend_on / weekend_present`; either is
/// undefined when its denominator is zero.
pub struct SummaryRow {
    pub name: String,
    /// Cells equal to `OnDuty`, over all columns.
    pub total_on: usize,
    /// Present (non-absent) cells, over all columns.
    pub total_present: usize,
    /// Cells equal to `OnDuty`, over the weekend-window columns.
    pub weekend_on: usize,
    /// Present cells, over the weekend-window columns.
    pub weekend_present: usize,
}

/// Mathematical model of a summary row.
pub ghost struct SummaryModel {
    pub name: Seq<char>,
    pub total_on: nat,
    pub total_present: nat,
    pub weekend_on: nat,
    pub weekend_present: nat,
}

impl View for SummaryRow {
    type V = SummaryModel;

    open spec fn view(&self) -> SummaryModel {
        SummaryModel {
            name: self.name@,
            total_on: self.total_on as nat,
            total_present: self.total_present as nat,
            weekend_on: self.weekend_on as nat,
            weekend_present: self.weekend_present as nat,
        }
    }
}

/// The models of a sequence of summary rows.
pub open spec fn summaries_model(rows: Seq<SummaryRow>) -> Seq<SummaryModel> {
    Seq::new(rows.len(), |i: int| rows[i]@)
}

/// How many cells hold `OnDuty`.
pub open spec fn count_on(cells: Seq<Option<Status>>) -> nat
    decreases cells.len(),
{
    if cells.len() == 0 {
        0
    } else {
        count_on(cells.drop_last()) + if cells.last() == Some(Status::OnDuty) {
            1nat
        } else {
            0nat
        }
    }
}

/// How many cells are present (not absent).
pub open spec fn count_present(cells: Seq<Option<Status>>) -> nat
    decreases cells.len(),
{
    if cells.len() == 0 {
        0
    } else {
        count_present(cells.drop_last()) + if cells.last() is Some {
            1nat
        } else {
            0nat
        }
    }
}

/// How many cells hold `OnDuty` in a weekend-window column.
pub open spec fn count_weekend_on(cells: Seq<Option<Status>>, cols: Seq<Timestamp>) -> nat
    decreases cells.len(),
{
    if cells.len() == 0 || cols.len() == 0 {
        0
    } else {
        count_weekend_on(cells.drop_last(), cols.drop_last()) + if spec_in_weekend(cols.last())
            && cells.last() == Some(Status::OnDuty) {
            1nat
        } else {
            0nat
        }
    }
}

/// How many cells are present in a weekend-window column.
pub open spec fn count_weekend_present(cells: Seq<Option<Status>>, cols: Seq<Timestamp>) -> nat
    decreases cells.len(),
{
    if cells.len() == 0 || cols.len() == 0 {
        0
    } else {
        count_weekend_present(cells.drop_last(), cols.drop_last()) + if spec_in_weekend(
            cols.last(),
        ) && cells.last() is Some {
            1nat
        } else {
            0nat
        }
    }
}

/// The summary of one row of the table.
pub open spec fn spec_row_summary(t: TableModel, i: int) -> SummaryModel {
    SummaryModel {
        name: t.rows[i].name,
        total_on: count_on(t.rows[i].cells),
        total_present: count_present(t.rows[i].cells),
        weekend_on: count_weekend_on(t.rows[i].cells, t.cols),
        weekend_present: count_weekend_present(t.rows[i].cells, t.cols),
    }
}

/// The summaries of all rows, in row order (before sorting).
pub open spec fn spec_summaries(t: TableModel) -> Seq<SummaryModel> {
    Seq::new(t.rows.len(), |i: int| spec_row_summary(t, i))
}

/// Strictly smaller overall on-duty ratio, compared exactly by cross
/// multiplication.
pub open spec fn ratio_lt(a: SummaryModel, b: SummaryModel) -> bool {
    a.total_on * b.total_present < b.total_on * a.total_present
}

/// Insert into a descending-sorted sequence, after every element whose
/// ratio is not strictly smaller: ties keep their existing order ahead
/// of the inserted element, which makes the sort stable.
pub open spec fn insert_desc(s: Seq<SummaryModel>, x: SummaryModel) -> Seq<SummaryModel>
    decreases s.len(),
{
    if s.len() > 0 && ratio_lt(s.last(), x) {
        insert_desc(s.drop_last(), x).push(s.last())
    } else {
        s.push(x)
    }
}

/// Stable insertion sort, descending by the overall on-duty ratio.
pub open spec fn sort_desc(s: Seq<SummaryModel>) -> Seq<SummaryModel>
    decreases s.len(),
{
    if s.len() == 0 {
        Seq::empty()
    } else {
        insert_desc(sort_desc(s.drop_last()), s.last())
    }
}

/// The complete, ordered summary of a table.
pub open spec fn spec_calculate(t: TableModel) -> Seq<SummaryModel> {
    sort_desc(spec_summaries(t))
}

pub proof fn lemma_insert_desc_len(s: Seq<SummaryModel>, x: SummaryModel)
    ensures
        insert_desc(s, x).len() == s.len() + 1,
    decreases s.len(),
{
    if s.len() > 0 && ratio_lt(s.last(), x) {
        lemma_insert_desc_len(s.drop_last(), x);
    }
}

pub proof fn lemma_sort_desc_len(s: Seq<SummaryModel>)
    ensures
        sort_desc(s).len() == s.len(),
    decreases s.len(),
{
    if s.len() > 0 {
        lemma_sort_desc_len(s.drop_last());
        lemma_insert_desc_len(sort_desc(s.drop_last()), s.last());
    }
}

impl Data {
    /// Compare two summaries: is `a`'s overall ratio strictly below
    /// `b`'s?
    fn ratio_before(a: &SummaryRow, b: &SummaryRow) -> (r: bool)
        ensures
            r == ratio_lt(a@, b@),
    {
        let ta = a.total_on as u128;
        let pb = b.total_present as u128;
        let tb = b.total_on as u128;
        let pa = a.total_present as u128;
        proof {
            assert(ta * pb <= u128::MAX && tb * pa <= u128::MAX) by (nonlinear_arith)
                requires
                    ta <= 0xFFFF_FFFF_FFFF_FFFFu128,
                    pb <= 0xFFFF_FFFF_FFFF_FFFFu128,
                    tb <= 0xFFFF_FFFF_FFFF_FFFFu128,
                    pa <= 0xFFFF_FFFF_FFFF_FFFFu128,
            ;
        }
        ta * pb < tb * pa
    }

    /// Insert one summary into a sequence kept descending by overall
    /// ratio, after every element not strictly below it.
    fn insert_summary(sorted: Vec<SummaryRow>, x: SummaryRow) -> (r: Vec<SummaryRow>)
        ensures
            summaries_model(r@) == insert_desc(summaries_model(sorted@), x@),
        decreases sorted@.len(),
    {
        let ghost s0 = summaries_model(sorted@);
        let mut sorted = sorted;
        let n = sorted.len();
        if n > 0 && Self::ratio_before(&sorted[n - 1], &x) {
            proof {
                assert(s0.last() == sorted@[n - 1]@);
            }
            let last = sorted.pop().unwrap();
            proof {
                assert(summaries_model(sorted@) =~= s0.drop_last());
            }
            let ghost last_m = last@;
            let mut r = Self::insert_summary(sorted, x);
            r.push(last);
            proof {
                assert(summaries_model(r@) =~= insert_desc(s0.drop_last(), x@).push(last_m));
                assert(insert_desc(s0, x@) == insert_desc(s0.drop_last(), x@).push(s0.last()));
            }
            r
        } else {
            let ghost xm = x@;
            sorted.push(x);
            proof {
                assert(summaries_model(sorted@) =~= s0.push(xm));
                if n > 0 {
                    assert(s0.last() == sorted@[n - 1 as int]@);
                }
            }
            sorted
        }
    }

    /// Derive the ordered attendance summary of the table: per person
    /// the exact on-duty counts, overall and weekend-only, ordered
    /// descending by overall ratio with ties in row order.
    pub fn calculate(&self) -> (r: Vec<SummaryRow>)
        requires
            table_wf(self@),
        ensures
            summaries_model(r@) == spec_calculate(self@),
            r@.len() == self@.rows.len(),
    {
        let ghost t = self@;
        let mut result: Vec<SummaryRow> = Vec::new();
        let mut i: usize = 0;
        proof {
            assert(spec_summaries(t).take(0) =~= Seq::<SummaryModel>::empty());
            assert(summaries_model(result@) =~= sort_desc(spec_summaries(t).take(0)));
        }
        while i < self.rows.len()
            invariant
                table_wf(t),
                t == self@,
                0 <= i <= self.rows@.len(),
                self.rows@.len() == t.rows.len(),
                summaries_model(result@) == sort_desc(spec_summaries(t).take(i as int)),
            decreases self.rows@.len() - i,
        {
            let row = &self.rows[i];
            proof {
                assert(rows_model(self.rows@)[i as int] == self.rows@[i as int]@);
                assert(t.rows[i as int] == row@);
                assert(t.rows[i as int].cells.len() == t.cols.len());
            }
            let ncells = row.cells.len();
            let mut ton: usize = 0;
            let mut tpr: usize = 0;
            let mut won: usize = 0;
            let mut wpr: usize = 0;
            let mut j: usize = 0;
            proof {
                assert(row.cells@.take(0) =~= Seq::<Option<Status>>::empty());
                assert(self.cols@.take(0) =~= Seq::<Timestamp>::empty());
            }
            while j < ncells
                invariant
                    table_wf(t),
                    t == self@,
                    0 <= i < self.rows@.len(),
                    row@ == t.rows[i as int],
                    ncells == row.cells@.len(),
                    ncells == self.cols@.len(),
                    0 <= j <= ncells,
                    ton == count_on(row.cells@.take(j as int)),
                    tpr == count_present(row.cells@.take(j as int)),
                    won == count_weekend_on(row.cells@.take(j as int), self.cols@.take(j as int)),
                    wpr == count_weekend_present(
                        row.cells@.take(j as int),
                        self.cols@.take(j as int),
                    ),
                    ton <= j && tpr <= j && won <= j && wpr <= j,
                decreases ncells - j,
            {
                let cell = row.cells[j];
                let in_weekend = self.cols[j].is_weekend();
                proof {
                    assert(row.cells@.take(j + 1).drop_last() =~= row.cells@.take(j as int));
                    assert(self.cols@.take(j + 1).drop_last() =~= self.cols@.take(j as int));
                    assert(row.cells@.take(j + 1).last() == row.cells@[j as int]);
                    assert(self.cols@.take(j + 1).last() == self.cols@[j as int]);
                }
                match cell {
                    Some(Status::OnDuty) => {
                        ton += 1;
                        tpr += 1;
                        if in_weekend {
                            won += 1;
                            wpr += 1;
                        }
                    },
                    Some(Status::OffDuty) => {
                        tpr += 1;
                        if in_weekend {
                            wpr += 1;
                        }
                    },
                    None => {},
                }
                j += 1;
            }
            proof {
                assert(row.cells@.take(ncells as int) =~= row.cells@);
                assert(self.cols@.take(ncells as int) =~= self.cols@);
            }
            let x = SummaryRow {
                name: row.name.clone(),
                total_on: ton,
                total_present: tpr,
                weekend_on: won,
                weekend_present: wpr,
            };
            proof {
                assert(x@ == spec_row_summary(t, i as int));
            }
            result = Self::insert_summary(result, x);
            proof {
                assert(spec_summaries(t).take(i + 1).drop_last() =~= spec_summaries(t).take(
                    i as int,
                ));
                assert(spec_summaries(t).take(i + 1).last() == spec_row_summary(t, i as int));
            }
            i += 1;
        }
        proof {
            assert(spec_summaries(t).take(t.rows.len() as int) =~= spec_summaries(t));
            lemma_sort_desc_len(spec_summaries(t));
        }
        result
    }
}

/// An absent cell counts in no numerator and no denominator: appending
/// an absent observation changes none of the four counts.
pub proof fn lemma_absent_not_counted(cells: Seq<Option<Status>>, cols: Seq<Timestamp>, ts: Timestamp)
    requires
        cells.len() == cols.len(),
    ensures
        count_on(cells.push(None)) == count_on(cells),
        count_present(cells.push(None)) == count_present(cells),
        count_weekend_on(cells.push(None), cols.push(ts)) == count_weekend_on(cells, cols),
        count_weekend_present(cells.push(None), cols.push(ts)) == count_weekend_present(
            cells,
            cols,
        ),
{
    assert(cells.push(None).drop_last() =~= cells);
    assert(cols.push(ts).drop_last() =~= cols);
}

/// Numerators never exceed denominators, and weekend counts never
/// exceed the overall ones: each ratio, where defined, lies between
/// 0 and 100 percent.
pub proof fn lemma_ratio_bounds(cells: Seq<Option<Status>>, cols: Seq<Timestamp>)
    ensures
        count_on(cells) <= count_present(cells),
        count_present(cells) <= cells.len(),
        count_weekend_on(cells, cols) <= count_weekend_present(cells, cols),
        count_weekend_present(cells, cols) <= count_present(cells),
    decreases cells.len(),
{
    if cells.len() > 0 {
        if cols.len() > 0 {
            lemma_ratio_bounds(cells.drop_last(), cols.drop_last());
        } else {
            lemma_ratio_bounds(cells.drop_last(), cols);
        }
    }
}

/// Descending order: no earlier entry has a strictly smaller overall
/// ratio than a later one.
pub open spec fn sorted_desc(s: Seq<SummaryModel>) -> bool {
    forall|i: int, j: int| 0 <= i < j < s.len() ==> !ratio_lt(#[trigger] s[i], #[trigger] s[j])
}

/// All entries have at least one present cell.
pub open spec fn all_present_pos(s: Seq<SummaryModel>) -> bool {
    forall|i: int| 0 <= i < s.len() ==> (#[trigger] s[i]).total_present > 0
}

/// The overall-ratio order is transitive when every denominator is
/// positive.
proof fn lemma_ratio_ge_trans(a: SummaryModel, b: SummaryModel, c: SummaryModel)
    requires
        !ratio_lt(a, b),
        !ratio_lt(b, c),
        a.total_present > 0,
        b.total_present > 0,
        c.total_present > 0,
    ensures
        !ratio_lt(a, c),
{
    assert(a.total_on * c.total_present >= c.total_on * a.total_present) by (nonlinear_arith)
        requires
            a.total_on * b.total_present >= b.total_on * a.total_present,
            b.total_on * c.total_present >= c.total_on * b.total_present,
            a.total_present > 0,
            b.total_present > 0,
            c.total_present > 0,
    ;
}

/// Every entry of an insertion result is the inserted entry or one of
/// the sequence's.
proof fn lemma_insert_desc_elems(s: Seq<SummaryModel>, x: SummaryModel)
    ensures
        forall|i: int|
            0 <= i < insert_desc(s, x).len() ==> (#[trigger] insert_desc(s, x)[i]) == x
                || exists|j: int| 0 <= j < s.len() && insert_desc(s, x)[i] == s[j],
    decreases s.len(),
{
    lemma_insert_desc_len(s, x);
    if s.len() > 0 && ratio_lt(s.last(), x) {
        lemma_insert_desc_elems(s.drop_last(), x);
        let r = insert_desc(s, x);
        let rp = insert_desc(s.drop_last(), x);
        assert forall|i: int| 0 <= i < r.len() implies (#[trigger] r[i]) == x || exists|j: int|
            0 <= j < s.len() && r[i] == s[j] by {
            if i < r.len() - 1 {
                assert(r[i] == rp[i]);
                if rp[i] != x {
                    let j = choose|j: int| 0 <= j < s.drop_last().len() && rp[i] == s.drop_last()[j];
                    assert(r[i] == s[j]);
                }
            } else {
                assert(r[i] == s[s.len() - 1]);
            }
        }
    } else {
        let r = insert_desc(s, x);
        assert forall|i: int| 0 <= i < r.len() implies (#[trigger] r[i]) == x || exists|j: int|
            0 <= j < s.len() && r[i] == s[j] by {
            if i < s.len() {
                assert(r[i] == s[i]);
            }
        }
    }
}

/// Inserting into a descending sequence keeps it descending.
proof fn lemma_insert_desc_sorted(s: Seq<SummaryModel>, x: SummaryModel)
    requires
        sorted_desc(s),
        all_present_pos(s),
        x.total_present > 0,
    ensures
        sorted_desc(insert_desc(s, x)),
        all_present_pos(insert_desc(s, x)),
    decreases s.len(),
{
    lemma_insert_desc_len(s, x);
    lemma_insert_desc_elems(s, x);
    let r = insert_desc(s, x);
    if s.len() > 0 && ratio_lt(s.last(), x) {
        lemma_insert_desc_sorted(s.drop_last(), x);
        let rp = insert_desc(s.drop_last(), x);
        lemma_insert_desc_elems(s.drop_last(), x);
        assert forall|i: int, j: int| 0 <= i < j < r.len() implies !ratio_lt(
            #[trigger] r[i],
            #[trigger] r[j],
        ) by {
            if j < r.len() - 1 {
                assert(r[i] == rp[i] && r[j] == rp[j]);
            } else {
                assert(r[j] == s.last());
                assert(r[i] == rp[i]);
                if rp[i] == x {
                    assert(!ratio_lt(x, s.last()));
                } else {
                    let w = choose|w: int|
                        0 <= w < s.drop_last().len() && rp[i] == s.drop_last()[w];
                    assert(rp[i] == s[w]);
                    assert(!ratio_lt(s[w], s[s.len() - 1]));
                }
            }
        }
        assert forall|i: int| 0 <= i < r.len() implies (#[trigger] r[i]).total_present > 0 by {
            if i < r.len() - 1 {
                assert(r[i] == rp[i]);
            } else {
                assert(r[i] == s.last());
            }
        }
    } else {
        assert forall|i: int, j: int| 0 <= i < j < r.len() implies !ratio_lt(
            #[trigger] r[i],
            #[trigger] r[j],
        ) by {
            if j < s.len() {
                assert(r[i] == s[i] && r[j] == s[j]);
            } else {
                assert(r[j] == x);
                assert(r[i] == s[i]);
                if s.len() > 0 {
                    assert(!ratio_lt(s.last(), x));
                    if i < s.len() - 1 {
                        assert(!ratio_lt(s[i], s[s.len() - 1]));
                        lemma_ratio_ge_trans(s[i], s[s.len() - 1], x);
                    }
                }
            }
        }
        assert forall|i: int| 0 <= i < r.len() implies (#[trigger] r[i]).total_present > 0 by {
            if i < s.len() {
                assert(r[i] == s[i]);
            } else {
                assert(r[i] == x);
            }
        }
    }
}

/// The sorted summary is in descending order of the overall ratio.
pub proof fn lemma_sort_desc_sorted(s: Seq<SummaryModel>)
    requires
        all_present_pos(s),
    ensures
        sorted_desc(sort_desc(s)),
        all_present_pos(sort_desc(s)),
    decreases s.len(),
{
    if s.len() > 0 {
        assert(all_present_pos(s.drop_last())) by {
            assert(forall|i: int|
                0 <= i < s.len() - 1 ==> (#[trigger] s.drop_last()[i]) == s[i]);
        }
        lemma_sort_desc_sorted(s.drop_last());
        assert(s.last().total_present > 0);
        lemma_insert_desc_sorted(sort_desc(s.drop_last()), s.last());
    }
}

/// A row with a present cell has a positive present count.
pub proof fn lemma_present_pos(cells: Seq<Option<Status>>)
    requires
        exists|j: int| 0 <= j < cells.len() && cells[j] is Some,
    ensures
        count_present(cells) > 0,
    decreases cells.len(),
{
    let j = choose|j: int| 0 <= j < cells.len() && cells[j] is Some;
    if cells.last() is Some {
    } else {
        assert(j < cells.len() - 1);
        assert(cells.drop_last()[j] is Some);
        lemma_present_pos(cells.drop_last());
    }
}

/// Where the sort places a new entry: before the trailing entries
/// whose ratio is strictly smaller, after everything else.
pub open spec fn insert_pos(s: Seq<SummaryModel>, x: SummaryModel) -> int
    decreases s.len(),
{
    if s.len() > 0 && ratio_lt(s.last(), x) {
        insert_pos(s.drop_last(), x)
    } else {
        s.len() as int
    }
}

/// The tie-break of the sort: an entry is inserted after every entry
/// that is not strictly below it — in particular after every entry it
/// ties with — and the entries already placed keep their relative
/// order. Ties therefore retain the row order of the join.
pub proof fn lemma_insert_desc_stable(s: Seq<SummaryModel>, x: SummaryModel)
    ensures
        0 <= insert_pos(s, x) <= s.len(),
        insert_desc(s, x) == s.take(insert_pos(s, x)) + seq![x] + s.skip(insert_pos(s, x)),
        forall|k: int| insert_pos(s, x) <= k < s.len() ==> ratio_lt(#[trigger] s[k], x),
        insert_pos(s, x) > 0 ==> !ratio_lt(s[insert_pos(s, x) - 1], x),
    decreases s.len(),
{
    let p = insert_pos(s, x);
    if s.len() > 0 && ratio_lt(s.last(), x) {
        lemma_insert_desc_stable(s.drop_last(), x);
        let dl = s.drop_last();
        assert(p == insert_pos(dl, x));
        assert(s.take(p) =~= dl.take(p));
        assert(s.skip(p) =~= dl.skip(p).push(s.last()));
        assert(insert_desc(s, x) == insert_desc(dl, x).push(s.last()));
        assert((dl.take(p) + seq![x] + dl.skip(p)).push(s.last()) =~= s.take(p) + seq![x]
            + s.skip(p));
        assert forall|k: int| p <= k < s.len() implies ratio_lt(#[trigger] s[k], x) by {
            if k < s.len() - 1 {
                assert(s[k] == dl[k]);
            }
        }
        if p > 0 {
            assert(s[p - 1] == dl[p - 1]);
        }
    } else {
        assert(p == s.len());
        assert(s.take(p) =~= s);
        assert(s.skip(p) =~= Seq::<SummaryModel>::empty());
        assert(insert_desc(s, x) == s.push(x));
        assert(s.push(x) =~= s.take(p) + seq![x] + s.skip(p));
        if s.len() > 0 {
            assert(!ratio_lt(s[p - 1], x));
        }
    }
}

/// The report of a well-formed table is ordered descending by the
/// overall on-duty ratio, every denominator being positive.
pub proof fn lemma_calculate_sorted(t: TableModel)
    requires
        table_wf(t),
    ensures
        sorted_desc(spec_calculate(t)),
        all_present_pos(spec_calculate(t)),
{
    assert forall|i: int| 0 <= i < spec_summaries(t).len() implies (#[trigger] spec_summaries(
        t,
    )[i]).total_present > 0 by {
        assert(crate::table::row_has_present(t.rows[i]));
        lemma_present_pos(t.rows[i].cells);
    }
    lemma_sort_desc_sorted(spec_summaries(t));
}

/// Summarizing is a pure function of the accumulated table: two
/// summaries of the same unmodified table are identical, row for row,
/// so repeated reports print identically.
pub proof fn lemma_summarize_deterministic(
    t: TableModel,
    r1: Seq<SummaryModel>,
    r2: Seq<SummaryModel>,
)
    requires
        r1 == spec_calculate(t),
        r2 == spec_calculate(t),
    ensures
        r1 == r2,
{
}

} // verus!
