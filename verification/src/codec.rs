//! The self-describing columnar text format in which the accumulated
//! table is persisted: a fixed-width column count, one fixed-width
//! timestamp per column, a fixed-width row count, and per row a
//! length-prefixed person key followed by one character per cell.

use vstd::prelude::*;

use crate::calendar::Timestamp;
use crate::calendar::spec_days_in_month;
use crate::duty::DutyError;
use crate::duty::Status;
use crate::table::Data;
use crate::table::Row;
use crate::table::RowModel;
use crate::table::TableModel;
use crate::table::rows_model;
use crate::table::table_wf;

verus! {

/// Powers of ten.
pub open spec fn pow10(w: nat) -> nat
    decreases w,
{
    if w == 0 {
        1
    } else {
        10 * pow10((w - 1) as nat)
    }
}

/// The decimal digit character of a value below ten.
pub open spec fn digit_char(d: nat) -> char {
    if d == 0 {
        '0'
    } else if d == 1 {
        '1'
    } else if d == 2 {
        '2'
    } else if d == 3 {
        '3'
    } else if d == 4 {
        '4'
    } else if d == 5 {
        '5'
    } else if d == 6 {
        '6'
    } else if d == 7 {
        '7'
    } else if d == 8 {
        '8'
    } else {
        '9'
    }
}

/// The value of a decimal digit character; ten for any other
/// character.
pub open spec fn digit_val(c: char) -> nat {
    if c == '0' {
        0
    } else if c == '1' {
        1
    } else if c == '2' {
        2
    } else if c == '3' {
        3
    } else if c == '4' {
        4
    } else if c == '5' {
        5
    } else if c == '6' {
        6
    } else if c == '7' {
        7
    } else if c == '8' {
        8
    } else if c == '9' {
        9
    } else {
        10
    }
}

pub open spec fn is_digit(c: char) -> bool {
    digit_val(c) <= 9
}

/// A value written as exactly `w` decimal digits, leading zeros
/// included.
pub open spec fn digits_fixed(n: nat, w: nat) -> Seq<char>
    decreases w,
{
    if w == 0 {
        Seq::empty()
    } else {
        digits_fixed(n / 10, (w - 1) as nat).push(digit_char(n % 10))
    }
}

/// The value of a sequence of decimal digit characters.
pub open spec fn value_of(ds: Seq<char>) -> nat
    decreases ds.len(),
{
    if ds.len() == 0 {
        0
    } else {
        value_of(ds.drop_last()) * 10 + digit_val(ds.last())
    }
}

pub open spec fn all_digits(ds: Seq<char>) -> bool {
    forall|i: int| 0 <= i < ds.len() ==> is_digit(#[trigger] ds[i])
}

/// Writing a value below `pow10(w)` in `w` digits and reading it back
/// is the identity.
pub proof fn lemma_digits_value(n: nat, w: nat)
    requires
        n < pow10(w),
    ensures
        digits_fixed(n, w).len() == w,
        all_digits(digits_fixed(n, w)),
        value_of(digits_fixed(n, w)) == n,
    decreases w,
{
    if w == 0 {
    } else {
        lemma_digits_value(n / 10, (w - 1) as nat);
        let ds = digits_fixed(n, w);
        assert(ds.drop_last() =~= digits_fixed(n / 10, (w - 1) as nat));
        assert(ds.last() == digit_char(n % 10));
        assert(digit_val(digit_char(n % 10)) == n % 10);
        assert(value_of(ds) == value_of(ds.drop_last()) * 10 + n % 10);
        assert(forall|i: int| 0 <= i < ds.len() - 1 ==> ds[i] == ds.drop_last()[i]);
    }
}

/// Reading `w` digit characters and writing the value back in `w`
/// digits is the identity.
pub proof fn lemma_value_digits(ds: Seq<char>)
    requires
        all_digits(ds),
    ensures
        value_of(ds) < pow10(ds.len()),
        digits_fixed(value_of(ds), ds.len()) == ds,
    decreases ds.len(),
{
    if ds.len() == 0 {
        assert(digits_fixed(0, 0) =~= ds);
    } else {
        assert(is_digit(ds.last()));
        assert(forall|i: int| 0 <= i < ds.len() - 1 ==> ds.drop_last()[i] == ds[i]);
        lemma_value_digits(ds.drop_last());
        let v = value_of(ds);
        let vh = value_of(ds.drop_last());
        assert(v == vh * 10 + digit_val(ds.last()));
        assert(v / 10 == vh && v % 10 == digit_val(ds.last()));
        assert(digit_char(digit_val(ds.last())) == ds.last());
        assert(digits_fixed(v, ds.len()) == digits_fixed(vh, (ds.len() - 1) as nat).push(
            ds.last(),
        ));
        assert(digits_fixed(v, ds.len()) =~= ds);
        assert(vh * 10 + digit_val(ds.last()) < pow10(ds.len())) by {
            assert(vh <= pow10((ds.len() - 1) as nat) - 1);
            assert(pow10(ds.len()) == 10 * pow10((ds.len() - 1) as nat));
        }
    }
}

/// The nineteen characters of a timestamp column name.
pub open spec fn spec_ts_chars(ts: Timestamp) -> Seq<char> {
    digits_fixed(ts.year as nat, 4) + seq!['-'] + digits_fixed(ts.month as nat, 2) + seq!['-']
        + digits_fixed(ts.day as nat, 2) + seq!['T'] + digits_fixed(ts.hour as nat, 2)
        + seq![':'] + digits_fixed(ts.minute as nat, 2) + seq![':'] + digits_fixed(
        ts.second as nat,
        2,
    )
}

/// The cell character: absent, on duty, or off duty.
pub open spec fn cell_char(c: Option<Status>) -> char {
    match c {
        None => 'N',
        Some(Status::OnDuty) => 'O',
        Some(Status::OffDuty) => 'F',
    }
}

pub open spec fn spec_cells_chars(cells: Seq<Option<Status>>) -> Seq<char> {
    Seq::new(cells.len(), |i: int| cell_char(cells[i]))
}

pub open spec fn spec_cols_chars(cols: Seq<Timestamp>) -> Seq<char>
    decreases cols.len(),
{
    if cols.len() == 0 {
        Seq::empty()
    } else {
        spec_cols_chars(cols.drop_last()) + spec_ts_chars(cols.last())
    }
}

/// One row: the key length in twenty digits, the key, one character
/// per cell.
pub open spec fn spec_row_chars(r: RowModel) -> Seq<char> {
    digits_fixed(r.name.len(), 20) + r.name + spec_cells_chars(r.cells)
}

pub open spec fn spec_rows_chars(rows: Seq<RowModel>) -> Seq<char>
    decreases rows.len(),
{
    if rows.len() == 0 {
        Seq::empty()
    } else {
        spec_rows_chars(rows.drop_last()) + spec_row_chars(rows.last())
    }
}

/// The persisted text of an accumulated table.
pub open spec fn encode_spec(t: TableModel) -> Seq<char> {
    digits_fixed(t.cols.len(), 20) + spec_cols_chars(t.cols) + digits_fixed(t.rows.len(), 20)
        + spec_rows_chars(t.rows)
}

/// Equal fixed-width digit runs denote equal values.
proof fn lemma_digits_fixed_injective(a: nat, b: nat, w: nat)
    requires
        a < pow10(w),
        b < pow10(w),
        digits_fixed(a, w) == digits_fixed(b, w),
    ensures
        a == b,
{
    lemma_digits_value(a, w);
    lemma_digits_value(b, w);
}

/// Lengths of the pieces of a timestamp's column name.
proof fn lemma_ts_chars_len(ts: Timestamp)
    ensures
        spec_ts_chars(ts).len() == 19,
{
    lemma_digits_fixed_len(ts.year as nat, 4);
    lemma_digits_fixed_len(ts.month as nat, 2);
    lemma_digits_fixed_len(ts.day as nat, 2);
    lemma_digits_fixed_len(ts.hour as nat, 2);
    lemma_digits_fixed_len(ts.minute as nat, 2);
    lemma_digits_fixed_len(ts.second as nat, 2);
}

/// A timestamp is determined by its column name.
proof fn lemma_ts_chars_injective(a: Timestamp, b: Timestamp)
    requires
        a.wf(),
        b.wf(),
        spec_ts_chars(a) == spec_ts_chars(b),
    ensures
        a == b,
{
    lemma_ts_chars_len(a);
    lemma_ts_chars_len(b);
    lemma_digits_fixed_len(a.year as nat, 4);
    lemma_digits_fixed_len(a.month as nat, 2);
    lemma_digits_fixed_len(a.day as nat, 2);
    lemma_digits_fixed_len(a.hour as nat, 2);
    lemma_digits_fixed_len(a.minute as nat, 2);
    lemma_digits_fixed_len(a.second as nat, 2);
    lemma_digits_fixed_len(b.year as nat, 4);
    lemma_digits_fixed_len(b.month as nat, 2);
    lemma_digits_fixed_len(b.day as nat, 2);
    lemma_digits_fixed_len(b.hour as nat, 2);
    lemma_digits_fixed_len(b.minute as nat, 2);
    lemma_digits_fixed_len(b.second as nat, 2);
    assert(digits_fixed(a.year as nat, 4) =~= spec_ts_chars(a).subrange(0, 4));
    assert(digits_fixed(a.month as nat, 2) =~= spec_ts_chars(a).subrange(5, 7));
    assert(digits_fixed(a.day as nat, 2) =~= spec_ts_chars(a).subrange(8, 10));
    assert(digits_fixed(a.hour as nat, 2) =~= spec_ts_chars(a).subrange(11, 13));
    assert(digits_fixed(a.minute as nat, 2) =~= spec_ts_chars(a).subrange(14, 16));
    assert(digits_fixed(a.second as nat, 2) =~= spec_ts_chars(a).subrange(17, 19));
    assert(digits_fixed(b.year as nat, 4) =~= spec_ts_chars(b).subrange(0, 4));
    assert(digits_fixed(b.month as nat, 2) =~= spec_ts_chars(b).subrange(5, 7));
    assert(digits_fixed(b.day as nat, 2) =~= spec_ts_chars(b).subrange(8, 10));
    assert(digits_fixed(b.hour as nat, 2) =~= spec_ts_chars(b).subrange(11, 13));
    assert(digits_fixed(b.minute as nat, 2) =~= spec_ts_chars(b).subrange(14, 16));
    assert(digits_fixed(b.second as nat, 2) =~= spec_ts_chars(b).subrange(17, 19));
    assert(pow10(0) == 1);
    assert(pow10(1) == 10);
    assert(pow10(2) == 100);
    assert(pow10(3) == 1000);
    assert(pow10(4) == 10000);
    lemma_digits_fixed_injective(a.year as nat, b.year as nat, 4);
    lemma_digits_fixed_injective(a.month as nat, b.month as nat, 2);
    lemma_digits_fixed_injective(a.day as nat, b.day as nat, 2);
    lemma_digits_fixed_injective(a.hour as nat, b.hour as nat, 2);
    lemma_digits_fixed_injective(a.minute as nat, b.minute as nat, 2);
    lemma_digits_fixed_injective(a.second as nat, b.second as nat, 2);
}

/// The column-name run of a column list has nineteen characters per
/// column.
proof fn lemma_cols_chars_len(cols: Seq<Timestamp>)
    ensures
        spec_cols_chars(cols).len() == 19 * cols.len(),
    decreases cols.len(),
{
    if cols.len() > 0 {
        lemma_cols_chars_len(cols.drop_last());
        lemma_ts_chars_len(cols.last());
    }
}

/// A column list is determined by its column-name run.
proof fn lemma_cols_chars_injective(c1: Seq<Timestamp>, c2: Seq<Timestamp>)
    requires
        c1.len() == c2.len(),
        forall|i: int| 0 <= i < c1.len() ==> (#[trigger] c1[i]).wf(),
        forall|i: int| 0 <= i < c2.len() ==> (#[trigger] c2[i]).wf(),
        spec_cols_chars(c1) == spec_cols_chars(c2),
    ensures
        c1 == c2,
    decreases c1.len(),
{
    if c1.len() == 0 {
        assert(c1 =~= c2);
    } else {
        lemma_cols_chars_len(c1.drop_last());
        lemma_cols_chars_len(c2.drop_last());
        lemma_ts_chars_len(c1.last());
        lemma_ts_chars_len(c2.last());
        let pre = 19 * (c1.len() - 1);
        assert forall|i: int| 0 <= i < 19 implies spec_ts_chars(c1.last())[i] == spec_ts_chars(
            c2.last(),
        )[i] by {
            assert(spec_ts_chars(c1.last())[i] == spec_cols_chars(c1)[pre + i]);
            assert(spec_ts_chars(c2.last())[i] == spec_cols_chars(c2)[pre + i]);
        }
        assert(spec_ts_chars(c1.last()) =~= spec_ts_chars(c2.last()));
        assert forall|i: int| 0 <= i < pre implies spec_cols_chars(c1.drop_last())[i]
            == spec_cols_chars(c2.drop_last())[i] by {
            assert(spec_cols_chars(c1.drop_last())[i] == spec_cols_chars(c1)[i]);
            assert(spec_cols_chars(c2.drop_last())[i] == spec_cols_chars(c2)[i]);
        }
        assert(spec_cols_chars(c1.drop_last()) =~= spec_cols_chars(c2.drop_last()));
        lemma_ts_chars_injective(c1.last(), c2.last());
        lemma_cols_chars_injective(c1.drop_last(), c2.drop_last());
        assert forall|i: int| 0 <= i < c1.len() implies c1[i] == c2[i] by {
            if i < c1.len() - 1 {
                assert(c1[i] == c1.drop_last()[i]);
                assert(c2[i] == c2.drop_last()[i]);
            } else {
                assert(c1[i] == c1.last());
                assert(c2[i] == c2.last());
            }
        }
        assert(c1 =~= c2);
    }
}

/// A cell is determined by its cell character.
proof fn lemma_cell_char_injective(x: Option<Status>, y: Option<Status>)
    requires
        cell_char(x) == cell_char(y),
    ensures
        x == y,
{
}

/// A row's cells are determined by their cell-character run.
proof fn lemma_cells_chars_injective(e1: Seq<Option<Status>>, e2: Seq<Option<Status>>)
    requires
        e1.len() == e2.len(),
        spec_cells_chars(e1) == spec_cells_chars(e2),
    ensures
        e1 == e2,
{
    assert forall|i: int| 0 <= i < e1.len() implies e1[i] == e2[i] by {
        assert(spec_cells_chars(e1)[i] == cell_char(e1[i]));
        assert(spec_cells_chars(e2)[i] == cell_char(e2[i]));
        lemma_cell_char_injective(e1[i], e2[i]);
    }
    assert(e1 =~= e2);
}

/// The row run decomposes from the left as well: the first row's
/// characters followed by the remaining rows'.
proof fn lemma_rows_chars_left(rows: Seq<RowModel>)
    requires
        rows.len() > 0,
    ensures
        spec_rows_chars(rows) == spec_row_chars(rows[0]) + spec_rows_chars(rows.drop_first()),
    decreases rows.len(),
{
    if rows.len() == 1 {
        assert(rows.drop_last() =~= Seq::<RowModel>::empty());
        assert(rows.drop_first() =~= Seq::<RowModel>::empty());
        assert(rows.last() == rows[0]);
        assert(spec_rows_chars(rows) =~= spec_row_chars(rows[0]) + spec_rows_chars(
            rows.drop_first(),
        ));
    } else {
        lemma_rows_chars_left(rows.drop_last());
        assert(rows.drop_last()[0] == rows[0]);
        assert(rows.drop_last().drop_first() =~= rows.drop_first().drop_last());
        assert(rows.drop_first().last() == rows.last());
        assert(spec_rows_chars(rows.drop_first()) == spec_rows_chars(
            rows.drop_first().drop_last(),
        ) + spec_row_chars(rows.last()));
        assert(spec_rows_chars(rows) =~= spec_row_chars(rows[0]) + spec_rows_chars(
            rows.drop_first(),
        ));
    }
}

/// A row list of known widths is determined by its character run.
proof fn lemma_rows_chars_injective(r1: Seq<RowModel>, r2: Seq<RowModel>, ncols: nat)
    requires
        r1.len() == r2.len(),
        forall|i: int| 0 <= i < r1.len() ==> (#[trigger] r1[i]).name.len() < pow10(20),
        forall|i: int| 0 <= i < r2.len() ==> (#[trigger] r2[i]).name.len() < pow10(20),
        forall|i: int| 0 <= i < r1.len() ==> (#[trigger] r1[i]).cells.len() == ncols,
        forall|i: int| 0 <= i < r2.len() ==> (#[trigger] r2[i]).cells.len() == ncols,
        spec_rows_chars(r1) == spec_rows_chars(r2),
    ensures
        r1 == r2,
    decreases r1.len(),
{
    if r1.len() == 0 {
        assert(r1 =~= r2);
    } else {
        lemma_rows_chars_left(r1);
        lemma_rows_chars_left(r2);
        let a = r1[0];
        let b = r2[0];
        lemma_digits_fixed_len(a.name.len(), 20);
        lemma_digits_fixed_len(b.name.len(), 20);
        let s1 = spec_rows_chars(r1);
        assert(digits_fixed(a.name.len(), 20) =~= s1.subrange(0, 20));
        assert(digits_fixed(b.name.len(), 20) =~= s1.subrange(0, 20));
        lemma_digits_fixed_injective(a.name.len(), b.name.len(), 20);
        let nl = a.name.len() as int;
        assert(a.name =~= s1.subrange(20, 20 + nl));
        assert(b.name =~= s1.subrange(20, 20 + nl));
        assert(spec_cells_chars(a.cells) =~= s1.subrange(20 + nl, 20 + nl + ncols));
        assert(spec_cells_chars(b.cells) =~= s1.subrange(20 + nl, 20 + nl + ncols));
        lemma_cells_chars_injective(a.cells, b.cells);
        assert(a == b);
        let hl = 20 + nl + ncols as int;
        assert(spec_row_chars(a).len() == hl);
        assert(spec_row_chars(b).len() == hl);
        assert(spec_rows_chars(r1).len() == hl + spec_rows_chars(r1.drop_first()).len());
        assert(spec_rows_chars(r2).len() == hl + spec_rows_chars(r2.drop_first()).len());
        assert(spec_rows_chars(r1.drop_first()).len() == spec_rows_chars(
            r2.drop_first(),
        ).len());
        assert forall|i: int| 0 <= i < spec_rows_chars(r1.drop_first()).len() implies
            spec_rows_chars(r1.drop_first())[i] == spec_rows_chars(r2.drop_first())[i] by {
            assert(spec_rows_chars(r1.drop_first())[i] == spec_rows_chars(r1)[hl + i]);
            assert(spec_rows_chars(r2.drop_first())[i] == spec_rows_chars(r2)[hl + i]);
        }
        assert(spec_rows_chars(r1.drop_first()) =~= spec_rows_chars(r2.drop_first()));
        lemma_rows_chars_injective(r1.drop_first(), r2.drop_first(), ncols);
        assert forall|i: int| 0 <= i < r1.len() implies r1[i] == r2[i] by {
            if i > 0 {
                assert(r1[i] == r1.drop_first()[i - 1]);
                assert(r2[i] == r2.drop_first()[i - 1]);
            }
        }
        assert(r1 =~= r2);
    }
}

/// The column-name run of a prefix of the column list is the prefix
/// of the full run.
proof fn lemma_cols_chars_take(cols: Seq<Timestamp>, i: int)
    requires
        0 <= i <= cols.len(),
    ensures
        spec_cols_chars(cols.take(i)) == spec_cols_chars(cols).subrange(0, 19 * i),
    decreases cols.len() - i,
{
    lemma_cols_chars_len(cols);
    lemma_cols_chars_len(cols.take(i));
    if i == cols.len() {
        assert(cols.take(i) =~= cols);
        assert(spec_cols_chars(cols).subrange(0, 19 * i) =~= spec_cols_chars(cols));
    } else {
        lemma_cols_chars_take(cols.drop_last(), i);
        assert(cols.drop_last().take(i) =~= cols.take(i));
        lemma_cols_chars_len(cols.drop_last());
        assert(spec_cols_chars(cols) == spec_cols_chars(cols.drop_last()) + spec_ts_chars(
            cols.last(),
        ));
        assert(spec_cols_chars(cols.drop_last()).subrange(0, 19 * i) =~= spec_cols_chars(
            cols,
        ).subrange(0, 19 * i));
    }
}

/// Where each column's name stands in the run.
proof fn lemma_cols_chars_slice(cols: Seq<Timestamp>, i: int)
    requires
        0 <= i < cols.len(),
    ensures
        spec_ts_chars(cols[i]) == spec_cols_chars(cols).subrange(19 * i, 19 * i + 19),
{
    lemma_cols_chars_take(cols, i);
    lemma_cols_chars_take(cols, i + 1);
    lemma_cols_chars_len(cols);
    lemma_cols_chars_len(cols.take(i));
    lemma_ts_chars_len(cols[i]);
    assert(cols.take(i + 1).drop_last() =~= cols.take(i));
    assert(cols.take(i + 1).last() == cols[i]);
    assert(spec_cols_chars(cols.take(i + 1)) == spec_cols_chars(cols.take(i)) + spec_ts_chars(
        cols[i],
    ));
    assert forall|x: int| 0 <= x < 19 implies spec_ts_chars(cols[i])[x] == spec_cols_chars(
        cols,
    ).subrange(19 * i, 19 * i + 19)[x] by {
        assert(spec_cols_chars(cols.take(i + 1))[19 * i + x] == spec_ts_chars(cols[i])[x]);
        assert(spec_cols_chars(cols).subrange(0, 19 * (i + 1))[19 * i + x] == spec_cols_chars(
            cols,
        )[19 * i + x]);
    }
    assert(spec_ts_chars(cols[i]) =~= spec_cols_chars(cols).subrange(19 * i, 19 * i + 19));
}

/// A row list whose character run is a prefix of another's is a
/// prefix of that list.
proof fn lemma_rows_chars_prefix(a: Seq<RowModel>, b: Seq<RowModel>, ncols: nat)
    requires
        a.len() <= b.len(),
        forall|i: int| 0 <= i < a.len() ==> (#[trigger] a[i]).name.len() < pow10(20),
        forall|i: int| 0 <= i < b.len() ==> (#[trigger] b[i]).name.len() < pow10(20),
        forall|i: int| 0 <= i < a.len() ==> (#[trigger] a[i]).cells.len() == ncols,
        forall|i: int| 0 <= i < b.len() ==> (#[trigger] b[i]).cells.len() == ncols,
        spec_rows_chars(a).len() <= spec_rows_chars(b).len(),
        spec_rows_chars(a) == spec_rows_chars(b).subrange(0, spec_rows_chars(a).len() as int),
    ensures
        a == b.take(a.len() as int),
    decreases a.len(),
{
    if a.len() == 0 {
        assert(a =~= b.take(0));
    } else {
        lemma_rows_chars_left(a);
        lemma_rows_chars_left(b);
        let x = a[0];
        let y = b[0];
        lemma_digits_fixed_len(x.name.len(), 20);
        lemma_digits_fixed_len(y.name.len(), 20);
        let sa = spec_rows_chars(a);
        let sb = spec_rows_chars(b);
        assert(digits_fixed(x.name.len(), 20) =~= sa.subrange(0, 20));
        assert(digits_fixed(y.name.len(), 20) =~= sb.subrange(0, 20));
        assert(sa.subrange(0, 20) =~= sb.subrange(0, 20));
        lemma_digits_fixed_injective(x.name.len(), y.name.len(), 20);
        let nl = x.name.len() as int;
        assert(x.name =~= sa.subrange(20, 20 + nl));
        assert(y.name =~= sb.subrange(20, 20 + nl));
        assert(sa.subrange(20, 20 + nl) =~= sb.subrange(20, 20 + nl));
        assert(spec_cells_chars(x.cells) =~= sa.subrange(20 + nl, 20 + nl + ncols));
        assert(spec_cells_chars(y.cells) =~= sb.subrange(20 + nl, 20 + nl + ncols));
        assert(sa.subrange(20 + nl, 20 + nl + ncols) =~= sb.subrange(20 + nl, 20 + nl + ncols));
        lemma_cells_chars_injective(x.cells, y.cells);
        assert(x == y);
        let hl = 20 + nl + ncols as int;
        assert(spec_row_chars(x).len() == hl);
        assert(spec_row_chars(y).len() == hl);
        assert(sa.len() == hl + spec_rows_chars(a.drop_first()).len());
        assert(sb.len() == hl + spec_rows_chars(b.drop_first()).len());
        assert forall|i: int| 0 <= i < spec_rows_chars(a.drop_first()).len() implies
            spec_rows_chars(a.drop_first())[i] == spec_rows_chars(b.drop_first()).subrange(
            0,
            spec_rows_chars(a.drop_first()).len() as int,
        )[i] by {
            assert(spec_rows_chars(a.drop_first())[i] == sa[hl + i]);
            assert(spec_rows_chars(b.drop_first())[i] == sb[hl + i]);
        }
        assert(spec_rows_chars(a.drop_first()) =~= spec_rows_chars(b.drop_first()).subrange(
            0,
            spec_rows_chars(a.drop_first()).len() as int,
        ));
        assert forall|i: int| 0 <= i < a.len() - 1 implies (#[trigger] a.drop_first()[
            i
        ]).name.len() < pow10(20) && a.drop_first()[i].cells.len() == ncols by {
            assert(a.drop_first()[i] == a[i + 1]);
        }
        assert forall|i: int| 0 <= i < b.len() - 1 implies (#[trigger] b.drop_first()[
            i
        ]).name.len() < pow10(20) && b.drop_first()[i].cells.len() == ncols by {
            assert(b.drop_first()[i] == b[i + 1]);
        }
        lemma_rows_chars_prefix(a.drop_first(), b.drop_first(), ncols);
        assert forall|i: int| 0 <= i < a.len() implies a[i] == b.take(a.len() as int)[i] by {
            if i > 0 {
                assert(a.drop_first()[i - 1] == b.drop_first().take(a.len() - 1)[i - 1]);
                assert(b.drop_first().take(a.len() - 1)[i - 1] == b[i]);
            }
        }
        assert(a =~= b.take(a.len() as int));
    }
}

/// The row run of a concatenation is the concatenation of the runs.
proof fn lemma_rows_chars_concat(a: Seq<RowModel>, b: Seq<RowModel>)
    ensures
        spec_rows_chars(a + b) == spec_rows_chars(a) + spec_rows_chars(b),
    decreases b.len(),
{
    if b.len() == 0 {
        assert(a + b =~= a);
        assert(spec_rows_chars(a) + spec_rows_chars(b) =~= spec_rows_chars(a));
    } else {
        lemma_rows_chars_concat(a, b.drop_last());
        assert((a + b).drop_last() =~= a + b.drop_last());
        assert((a + b).last() == b.last());
        assert(spec_rows_chars(a + b) == spec_rows_chars(a) + spec_rows_chars(b.drop_last())
            + spec_row_chars(b.last()));
        assert(spec_rows_chars(a) + spec_rows_chars(b.drop_last()) + spec_row_chars(b.last())
            =~= spec_rows_chars(a) + spec_rows_chars(b));
    }
}

/// Where each piece of a table's persisted text stands.
proof fn lemma_encode_layout(t: TableModel, s: Seq<char>)
    requires
        table_wf(t),
        t.cols.len() <= usize::MAX,
        t.rows.len() <= usize::MAX,
        s == encode_spec(t),
    ensures
        s.len() == 40 + 19 * t.cols.len() as int + spec_rows_chars(t.rows).len(),
        all_digits(s.subrange(0, 20)),
        value_of(s.subrange(0, 20)) == t.cols.len(),
        spec_cols_chars(t.cols) == s.subrange(20, 20 + 19 * t.cols.len() as int),
        all_digits(s.subrange(20 + 19 * t.cols.len() as int, 40 + 19 * t.cols.len() as int)),
        value_of(s.subrange(20 + 19 * t.cols.len() as int, 40 + 19 * t.cols.len() as int)) == t.rows.len(),
        spec_rows_chars(t.rows) == s.subrange(40 + 19 * t.cols.len() as int, s.len() as int),
{
    lemma_pow10_20();
    lemma_digits_value(t.cols.len(), 20);
    lemma_digits_value(t.rows.len(), 20);
    lemma_cols_chars_len(t.cols);
    assert(s.subrange(0, 20) =~= digits_fixed(t.cols.len(), 20));
    assert(s.subrange(20, 20 + 19 * t.cols.len() as int) =~= spec_cols_chars(t.cols));
    assert(s.subrange(20 + 19 * t.cols.len() as int, 40 + 19 * t.cols.len() as int) =~= digits_fixed(
        t.rows.len(),
        20,
    ));
    assert(s.subrange(40 + 19 * t.cols.len() as int, s.len() as int) =~= spec_rows_chars(t.rows));
}

/// A table that fits in memory and persists to exactly this text.
pub open spec fn encodes_table(s: Seq<char>, t: TableModel) -> bool {
    &&& table_wf(t)
    &&& t.cols.len() <= usize::MAX
    &&& t.rows.len() <= usize::MAX
    &&& forall|i: int| 0 <= i < t.rows.len() ==> (#[trigger] t.rows[i]).name.len() <= usize::MAX
    &&& s == encode_spec(t)
}

/// What a run of parsed rows says of the table behind the text: the
/// parsed rows are the table's first rows, and the cursor stands at
/// the start of the next one.
proof fn lemma_row_position(t: TableModel, s: Seq<char>, parsed: Seq<RowModel>, ncols: nat, pos: int)
    requires
        encodes_table(s, t),
        ncols == value_of(s.subrange(0, 20)),
        parsed.len() <= t.rows.len(),
        forall|i: int| 0 <= i < parsed.len() ==> (#[trigger] parsed[i]).name.len() < pow10(20),
        forall|i: int| 0 <= i < parsed.len() ==> (#[trigger] parsed[i]).cells.len() == ncols,
        spec_rows_chars(parsed) == s.subrange(40 + 19 * (ncols as int), pos),
        40 + 19 * (ncols as int) <= pos <= s.len(),
    ensures
        ncols == t.cols.len(),
        parsed == t.rows.take(parsed.len() as int),
        pos == 40 + 19 * t.cols.len() as int + spec_rows_chars(
            t.rows.take(parsed.len() as int),
        ).len(),
{
    lemma_pow10_20();
    lemma_encode_layout(t, s);
    assert(ncols == t.cols.len());
    let rows_start = 40 + 19 * t.cols.len() as int;
    assert forall|x: int| 0 <= x < pos - rows_start implies spec_rows_chars(parsed)[x]
        == spec_rows_chars(t.rows).subrange(0, pos - rows_start)[x] by {
        assert(spec_rows_chars(parsed)[x] == s.subrange(rows_start, pos)[x]);
        assert(s.subrange(rows_start, pos)[x] == s[rows_start + x]);
        assert(spec_rows_chars(t.rows)[x] == s.subrange(rows_start, s.len() as int)[x]);
    }
    assert(spec_rows_chars(parsed) =~= spec_rows_chars(t.rows).subrange(0, pos - rows_start));
    assert forall|i: int| 0 <= i < t.rows.len() implies (#[trigger] t.rows[i]).name.len()
        < pow10(20) && t.rows[i].cells.len() == ncols by {
        assert(t.rows[i].name.len() <= usize::MAX);
    }
    lemma_rows_chars_prefix(parsed, t.rows, ncols);
    assert(spec_rows_chars(t.rows.take(parsed.len() as int)) == spec_rows_chars(parsed));
}

/// What the decoder knows mid-way through the rows: the counts are
/// the table's, the parsed rows are its first rows, and the cursor
/// stands at the start of the next one.
proof fn lemma_rows_ctx(
    t: TableModel,
    s: Seq<char>,
    parsed: Seq<RowModel>,
    ncols: nat,
    nrows: nat,
    pos: int,
)
    requires
        encodes_table(s, t),
        ncols == value_of(s.subrange(0, 20)),
        nrows == value_of(s.subrange(20 + 19 * (ncols as int), 40 + 19 * (ncols as int))),
        parsed.len() <= nrows,
        forall|i: int| 0 <= i < parsed.len() ==> (#[trigger] parsed[i]).name.len() < pow10(20),
        forall|i: int| 0 <= i < parsed.len() ==> (#[trigger] parsed[i]).cells.len() == ncols,
        spec_rows_chars(parsed) == s.subrange(40 + 19 * (ncols as int), pos),
        40 + 19 * (ncols as int) <= pos <= s.len(),
    ensures
        ncols == t.cols.len(),
        nrows == t.rows.len(),
        parsed == t.rows.take(parsed.len() as int),
        pos == 40 + 19 * t.cols.len() as int + spec_rows_chars(
            t.rows.take(parsed.len() as int),
        ).len(),
{
    lemma_pow10_20();
    lemma_encode_layout(t, s);
    lemma_row_position(t, s, parsed, ncols, pos);
}

/// Where row `k`'s pieces stand in a table's persisted text.
#[verifier::rlimit(60)]
proof fn lemma_row_k_layout(t: TableModel, s: Seq<char>, k: int, pos: int)
    requires
        table_wf(t),
        t.cols.len() <= usize::MAX,
        t.rows.len() <= usize::MAX,
        s == encode_spec(t),
        0 <= k < t.rows.len(),
        t.rows[k].name.len() < pow10(20),
        pos == 40 + 19 * t.cols.len() as int + spec_rows_chars(t.rows.take(k)).len(),
    ensures
        pos + 20 + t.rows[k].name.len() + t.cols.len() <= s.len(),
        all_digits(s.subrange(pos, pos + 20)),
        value_of(s.subrange(pos, pos + 20)) == t.rows[k].name.len(),
        t.rows[k].name == s.subrange(pos + 20, pos + 20 + t.rows[k].name.len()),
        spec_cells_chars(t.rows[k].cells) == s.subrange(
            pos + 20 + t.rows[k].name.len(),
            pos + 20 + t.rows[k].name.len() + t.cols.len(),
        ),
{
    lemma_encode_layout(t, s);
    let rows_start = 40 + 19 * t.cols.len() as int;
    assert(t.rows =~= t.rows.take(k) + t.rows.skip(k));
    lemma_rows_chars_concat(t.rows.take(k), t.rows.skip(k));
    assert(t.rows.skip(k).len() > 0);
    lemma_rows_chars_left(t.rows.skip(k));
    assert(t.rows.skip(k)[0] == t.rows[k]);
    let row = t.rows[k];
    let pre = spec_rows_chars(t.rows.take(k));
    let tail = spec_rows_chars(t.rows.skip(k).drop_first());
    assert(spec_rows_chars(t.rows) == pre + (spec_row_chars(row) + tail));
    lemma_digits_fixed_len(row.name.len(), 20);
    lemma_digits_value(row.name.len(), 20);
    let nl = row.name.len() as int;
    let ncols = t.cols.len() as int;
    assert(row.cells.len() == ncols);
    assert(spec_row_chars(row).len() == 20 + nl + ncols);
    assert(s.len() == rows_start + pre.len() + spec_row_chars(row).len() + tail.len());
    assert forall|x: int| 0 <= x < 20 + nl + ncols implies s[pos + x] == spec_row_chars(row)[x]
        by {
        assert(spec_rows_chars(t.rows)[pre.len() + x] == (spec_row_chars(row) + tail)[x]);
        assert(s.subrange(rows_start, s.len() as int)[pre.len() + x] == s[pos + x]);
    }
    assert(s.subrange(pos, pos + 20) =~= digits_fixed(row.name.len(), 20));
    assert(row.name =~= s.subrange(pos + 20, pos + 20 + nl));
    assert(spec_cells_chars(row.cells) =~= s.subrange(pos + 20 + nl, pos + 20 + nl + ncols));
}

/// Two well-formed tables with the same persisted text are the same
/// table. Together with `encode`'s and `decode`'s contracts this is
/// the round trip: reading a saved table back yields the same rows,
/// columns and cells, absent cells staying absent. The size bounds
/// hold of every table that fits in memory.
pub proof fn lemma_encode_injective(t1: TableModel, t2: TableModel)
    requires
        table_wf(t1),
        table_wf(t2),
        t1.cols.len() < pow10(20),
        t1.rows.len() < pow10(20),
        t2.cols.len() < pow10(20),
        t2.rows.len() < pow10(20),
        forall|i: int| 0 <= i < t1.rows.len() ==> (#[trigger] t1.rows[i]).name.len() < pow10(20),
        forall|i: int| 0 <= i < t2.rows.len() ==> (#[trigger] t2.rows[i]).name.len() < pow10(20),
        encode_spec(t1) == encode_spec(t2),
    ensures
        t1 == t2,
{
    let s = encode_spec(t1);
    lemma_digits_fixed_len(t1.cols.len(), 20);
    lemma_digits_fixed_len(t2.cols.len(), 20);
    assert(digits_fixed(t1.cols.len(), 20) =~= s.subrange(0, 20));
    assert(digits_fixed(t2.cols.len(), 20) =~= s.subrange(0, 20));
    lemma_digits_fixed_injective(t1.cols.len(), t2.cols.len(), 20);
    lemma_cols_chars_len(t1.cols);
    lemma_cols_chars_len(t2.cols);
    let ce = 20 + 19 * t1.cols.len() as int;
    assert(spec_cols_chars(t1.cols) =~= s.subrange(20, ce));
    assert(spec_cols_chars(t2.cols) =~= s.subrange(20, ce));
    lemma_cols_chars_injective(t1.cols, t2.cols);
    lemma_digits_fixed_len(t1.rows.len(), 20);
    lemma_digits_fixed_len(t2.rows.len(), 20);
    assert(digits_fixed(t1.rows.len(), 20) =~= s.subrange(ce, ce + 20));
    assert(digits_fixed(t2.rows.len(), 20) =~= s.subrange(ce, ce + 20));
    lemma_digits_fixed_injective(t1.rows.len(), t2.rows.len(), 20);
    assert(spec_rows_chars(t1.rows) =~= s.subrange(ce + 20, s.len() as int));
    assert(spec_rows_chars(t2.rows) =~= s.subrange(ce + 20, s.len() as int));
    lemma_rows_chars_injective(t1.rows, t2.rows, t1.cols.len());
    assert(t1 == t2);
}

/// The digit character of a value below ten, as a string.
pub(crate) fn digit_str(d: u64) -> (r: &'static str)
    requires
        d < 10,
    ensures
        r@ =~= seq![digit_char(d as nat)],
{
    proof {
        reveal_strlit("0");
        reveal_strlit("1");
        reveal_strlit("2");
        reveal_strlit("3");
        reveal_strlit("4");
        reveal_strlit("5");
        reveal_strlit("6");
        reveal_strlit("7");
        reveal_strlit("8");
        reveal_strlit("9");
    }
    match d {
        0 => "0",
        1 => "1",
        2 => "2",
        3 => "3",
        4 => "4",
        5 => "5",
        6 => "6",
        7 => "7",
        8 => "8",
        _ => "9",
    }
}

/// A value written as exactly `w` decimal digits.
fn digits_string(n: u64, w: u32) -> (r: String)
    ensures
        r@ == digits_fixed(n as nat, w as nat),
    decreases w,
{
    if w == 0 {
        String::new()
    } else {
        let mut s = digits_string(n / 10, w - 1);
        s.append(digit_str(n % 10));
        proof {
            assert(s@ =~= digits_fixed(n as nat, w as nat));
        }
        s
    }
}

impl Timestamp {
    /// The column name of this timestamp, `YYYY-MM-DDTHH:MM:SS`.
    pub fn format(&self) -> (r: String)
        ensures
            r@ == spec_ts_chars(*self),
            r@.len() == 19,
    {
        proof {
            reveal_strlit("-");
            reveal_strlit("T");
            reveal_strlit(":");
        }
        let mut s = digits_string(self.year as u64, 4);
        s.append("-");
        s.append(digits_string(self.month as u64, 2).as_str());
        s.append("-");
        s.append(digits_string(self.day as u64, 2).as_str());
        s.append("T");
        s.append(digits_string(self.hour as u64, 2).as_str());
        s.append(":");
        s.append(digits_string(self.minute as u64, 2).as_str());
        s.append(":");
        s.append(digits_string(self.second as u64, 2).as_str());
        proof {
            assert(s@ =~= spec_ts_chars(*self));
            lemma_digits_len();
            assert(s@.len() == 19);
        }
        s
    }
}

/// Fixed-width digit runs have their width as length.
proof fn lemma_digits_len()
    ensures
        forall|n: nat| (#[trigger] digits_fixed(n, 4)).len() == 4,
        forall|n: nat| (#[trigger] digits_fixed(n, 2)).len() == 2,
        forall|n: nat| (#[trigger] digits_fixed(n, 20)).len() == 20,
{
    assert forall|n: nat| (#[trigger] digits_fixed(n, 4)).len() == 4 by {
        lemma_digits_fixed_len(n, 4);
    }
    assert forall|n: nat| (#[trigger] digits_fixed(n, 2)).len() == 2 by {
        lemma_digits_fixed_len(n, 2);
    }
    assert forall|n: nat| (#[trigger] digits_fixed(n, 20)).len() == 20 by {
        lemma_digits_fixed_len(n, 20);
    }
}

pub proof fn lemma_digits_fixed_len(n: nat, w: nat)
    ensures
        digits_fixed(n, w).len() == w,
    decreases w,
{
    if w > 0 {
        lemma_digits_fixed_len(n / 10, (w - 1) as nat);
    }
}

impl Data {
    /// Persist the table as text: the exact character sequence of
    /// `encode_spec`.
    pub fn encode(&self) -> (r: String)
        requires
            table_wf(self@),
        ensures
            r@ == encode_spec(self@),
    {
        let ghost t = self@;
        let mut out = digits_string(self.cols.len() as u64, 20);
        let mut i: usize = 0;
        proof {
            assert(spec_cols_chars(t.cols.take(0)) =~= Seq::<char>::empty());
            assert(out@ =~= digits_fixed(t.cols.len(), 20) + spec_cols_chars(t.cols.take(0)));
        }
        while i < self.cols.len()
            invariant
                t == self@,
                0 <= i <= self.cols@.len(),
                out@ == digits_fixed(t.cols.len(), 20) + spec_cols_chars(t.cols.take(i as int)),
            decreases self.cols@.len() - i,
        {
            let ts = self.cols[i];
            out.append(ts.format().as_str());
            proof {
                assert(t.cols.take(i + 1).drop_last() =~= t.cols.take(i as int));
                assert(t.cols.take(i + 1).last() == t.cols[i as int]);
                assert(out@ =~= digits_fixed(t.cols.len(), 20) + spec_cols_chars(
                    t.cols.take(i + 1),
                ));
            }
            i += 1;
        }
        proof {
            assert(t.cols.take(t.cols.len() as int) =~= t.cols);
        }
        out.append(digits_string(self.rows.len() as u64, 20).as_str());
        let ghost head = digits_fixed(t.cols.len(), 20) + spec_cols_chars(t.cols) + digits_fixed(
            t.rows.len(),
            20,
        );
        let mut k: usize = 0;
        proof {
            assert(spec_rows_chars(t.rows.take(0)) =~= Seq::<char>::empty());
            assert(out@ =~= head + spec_rows_chars(t.rows.take(0)));
        }
        while k < self.rows.len()
            invariant
                t == self@,
                0 <= k <= self.rows@.len(),
                self.rows@.len() == t.rows.len(),
                out@ == head + spec_rows_chars(t.rows.take(k as int)),
            decreases self.rows@.len() - k,
        {
            let row = &self.rows[k];
            proof {
                assert(rows_model(self.rows@)[k as int] == self.rows@[k as int]@);
                assert(row@ == t.rows[k as int]);
            }
            let name_len = row.name.as_str().unicode_len();
            out.append(digits_string(name_len as u64, 20).as_str());
            out.append(row.name.as_str());
            let ghost row_head = head + spec_rows_chars(t.rows.take(k as int)) + digits_fixed(
                t.rows[k as int].name.len(),
                20,
            ) + t.rows[k as int].name;
            proof {
                assert(out@ =~= row_head);
            }
            let mut j: usize = 0;
            proof {
                assert(spec_cells_chars(t.rows[k as int].cells.take(0)) =~= Seq::<char>::empty());
                assert(out@ =~= row_head + spec_cells_chars(t.rows[k as int].cells.take(0)));
            }
            while j < row.cells.len()
                invariant
                    t == self@,
                    0 <= k < self.rows@.len(),
                    row@ == t.rows[k as int],
                    0 <= j <= row.cells@.len(),
                    out@ == row_head + spec_cells_chars(t.rows[k as int].cells.take(j as int)),
                decreases row.cells@.len() - j,
            {
                proof {
                    reveal_strlit("N");
                    reveal_strlit("O");
                    reveal_strlit("F");
                }
                match row.cells[j] {
                    None => out.append("N"),
                    Some(Status::OnDuty) => out.append("O"),
                    Some(Status::OffDuty) => out.append("F"),
                }
                proof {
                    assert(out@ =~= row_head + spec_cells_chars(
                        t.rows[k as int].cells.take(j + 1),
                    ));
                }
                j += 1;
            }
            proof {
                assert(t.rows[k as int].cells.take(row.cells@.len() as int) =~= t.rows[
                    k as int
                ].cells);
                assert(t.rows.take(k + 1).drop_last() =~= t.rows.take(k as int));
                assert(t.rows.take(k + 1).last() == t.rows[k as int]);
                assert(out@ =~= head + spec_rows_chars(t.rows.take(k + 1)));
            }
            k += 1;
        }
        proof {
            assert(t.rows.take(t.rows.len() as int) =~= t.rows);
            assert(out@ =~= encode_spec(t));
        }
        out
    }
}

/// `pow10(20)` written out, so that parsed counts are known to fit a
/// `u128`.
proof fn lemma_pow10_20()
    ensures
        pow10(20) == 0x56BC75E2D63100000,
        usize::MAX < pow10(20),
{
    assert(pow10(0) == 1);
    assert(pow10(1) == 10);
    assert(pow10(2) == 100);
    assert(pow10(3) == 1000);
    assert(pow10(4) == 10000);
    assert(pow10(5) == 100000);
    assert(pow10(6) == 1000000);
    assert(pow10(7) == 10000000);
    assert(pow10(8) == 100000000);
    assert(pow10(9) == 1000000000);
    assert(pow10(10) == 10000000000);
    assert(pow10(11) == 100000000000);
    assert(pow10(12) == 1000000000000);
    assert(pow10(13) == 10000000000000);
    assert(pow10(14) == 100000000000000);
    assert(pow10(15) == 1000000000000000);
    assert(pow10(16) == 10000000000000000);
    assert(pow10(17) == 100000000000000000);
    assert(pow10(18) == 1000000000000000000);
    assert(pow10(19) == 10000000000000000000);
    assert(pow10(20) == 100000000000000000000);
}

/// Monotonicity of powers of ten in the exponent.
proof fn lemma_pow10_le(a: nat, b: nat)
    requires
        a <= b,
    ensures
        pow10(a) <= pow10(b),
    decreases b,
{
    if a < b {
        lemma_pow10_le(a, (b - 1) as nat);
    }
}

/// Read exactly `w` decimal digits at `pos`; the value they denote.
fn parse_digits(s: &str, pos: usize, w: usize) -> (r: Option<u128>)
    requires
        pos <= s@.len(),
        w <= 20,
    ensures
        r is Some ==> {
            &&& pos + w <= s@.len()
            &&& all_digits(s@.subrange(pos as int, pos + w))
            &&& r->0 as nat == value_of(s@.subrange(pos as int, pos + w))
            &&& (r->0 as nat) < pow10(w as nat)
        },
        r is None ==> pos + w > s@.len() || !all_digits(s@.subrange(pos as int, pos + w)),
{
    let n = s.unicode_len();
    if n - pos < w {
        return None;
    }
    let mut acc: u128 = 0;
    let mut k: usize = 0;
    proof {
        assert(s@.subrange(pos as int, pos as int) =~= Seq::<char>::empty());
    }
    while k < w
        invariant
            pos + w <= s@.len(),
            s@.len() <= usize::MAX,
            0 <= k <= w <= 20,
            all_digits(s@.subrange(pos as int, pos + k)),
            acc as nat == value_of(s@.subrange(pos as int, pos + k)),
            (acc as nat) < pow10(k as nat),
        decreases w - k,
    {
        let c = s.get_char(pos + k);
        let d: u128 = match c {
            '0' => 0,
            '1' => 1,
            '2' => 2,
            '3' => 3,
            '4' => 4,
            '5' => 5,
            '6' => 6,
            '7' => 7,
            '8' => 8,
            '9' => 9,
            _ => {
                proof {
                    assert(s@.subrange(pos as int, pos + w)[k as int] == c);
                    assert(!is_digit(c));
                }
                return None;
            },
        };
        proof {
            assert(d as nat == digit_val(c));
            assert(is_digit(c));
            lemma_pow10_le(k as nat + 1, 20);
            lemma_pow10_20();
            assert(pow10(k as nat + 1) == 10 * pow10(k as nat));
        }
        acc = acc * 10 + d;
        proof {
            let sub1 = s@.subrange(pos as int, pos + k + 1);
            assert(sub1.drop_last() =~= s@.subrange(pos as int, pos + k));
            assert(sub1.last() == s@[pos + k]);
        }
        k += 1;
    }
    Some(acc)
}

/// Number of days in a month of the proleptic Gregorian calendar.
fn days_in_month(y: u32, m: u32) -> (d: u32)
    requires
        1 <= m <= 12,
    ensures
        d as int == spec_days_in_month(y as int, m as int),
{
    if m == 2 {
        if y % 4 == 0 && (y % 100 != 0 || y % 400 == 0) {
            29
        } else {
            28
        }
    } else if m == 4 || m == 6 || m == 9 || m == 11 {
        30
    } else {
        31
    }
}

/// What a valid timestamp's column name looks like at a position of a
/// larger text: separators in place, digit runs denoting the fields.
proof fn lemma_ts_chars_at(ts: Timestamp, s: Seq<char>, pos: int)
    requires
        ts.wf(),
        0 <= pos,
        pos + 19 <= s.len(),
        spec_ts_chars(ts) == s.subrange(pos, pos + 19),
    ensures
        s[pos + 4] == '-' && s[pos + 7] == '-' && s[pos + 10] == 'T' && s[pos + 13] == ':'
            && s[pos + 16] == ':',
        all_digits(s.subrange(pos, pos + 4)) && value_of(s.subrange(pos, pos + 4)) == ts.year,
        all_digits(s.subrange(pos + 5, pos + 7)) && value_of(s.subrange(pos + 5, pos + 7))
            == ts.month,
        all_digits(s.subrange(pos + 8, pos + 10)) && value_of(s.subrange(pos + 8, pos + 10))
            == ts.day,
        all_digits(s.subrange(pos + 11, pos + 13)) && value_of(s.subrange(pos + 11, pos + 13))
            == ts.hour,
        all_digits(s.subrange(pos + 14, pos + 16)) && value_of(s.subrange(pos + 14, pos + 16))
            == ts.minute,
        all_digits(s.subrange(pos + 17, pos + 19)) && value_of(s.subrange(pos + 17, pos + 19))
            == ts.second,
{
    lemma_digits_fixed_len(ts.year as nat, 4);
    lemma_digits_fixed_len(ts.month as nat, 2);
    lemma_digits_fixed_len(ts.day as nat, 2);
    lemma_digits_fixed_len(ts.hour as nat, 2);
    lemma_digits_fixed_len(ts.minute as nat, 2);
    lemma_digits_fixed_len(ts.second as nat, 2);
    assert(pow10(0) == 1);
    assert(pow10(1) == 10);
    assert(pow10(2) == 100);
    assert(pow10(3) == 1000);
    assert(pow10(4) == 10000);
    lemma_digits_value(ts.year as nat, 4);
    lemma_digits_value(ts.month as nat, 2);
    lemma_digits_value(ts.day as nat, 2);
    lemma_digits_value(ts.hour as nat, 2);
    lemma_digits_value(ts.minute as nat, 2);
    lemma_digits_value(ts.second as nat, 2);
    assert forall|i: int| 0 <= i < 19 implies s[pos + i] == spec_ts_chars(ts)[i] by {
        assert(s.subrange(pos, pos + 19)[i] == s[pos + i]);
    }
    assert(s.subrange(pos, pos + 4) =~= digits_fixed(ts.year as nat, 4)) by {
        assert forall|i: int| 0 <= i < 4 implies s.subrange(pos, pos + 4)[i] == digits_fixed(
            ts.year as nat,
            4,
        )[i] by {
            assert(s.subrange(pos, pos + 4)[i] == s[pos + i]);
            assert(spec_ts_chars(ts)[i] == digits_fixed(ts.year as nat, 4)[i]);
        }
    }
    assert(s.subrange(pos + 5, pos + 7) =~= digits_fixed(ts.month as nat, 2)) by {
        assert forall|i: int| 0 <= i < 2 implies s.subrange(pos + 5, pos + 7)[i] == digits_fixed(
            ts.month as nat,
            2,
        )[i] by {
            assert(s.subrange(pos + 5, pos + 7)[i] == s[pos + 5 + i]);
            assert(spec_ts_chars(ts)[5 + i] == digits_fixed(ts.month as nat, 2)[i]);
        }
    }
    assert(s.subrange(pos + 8, pos + 10) =~= digits_fixed(ts.day as nat, 2)) by {
        assert forall|i: int| 0 <= i < 2 implies s.subrange(pos + 8, pos + 10)[i] == digits_fixed(
            ts.day as nat,
            2,
        )[i] by {
            assert(s.subrange(pos + 8, pos + 10)[i] == s[pos + 8 + i]);
            assert(spec_ts_chars(ts)[8 + i] == digits_fixed(ts.day as nat, 2)[i]);
        }
    }
    assert(s.subrange(pos + 11, pos + 13) =~= digits_fixed(ts.hour as nat, 2)) by {
        assert forall|i: int| 0 <= i < 2 implies s.subrange(pos + 11, pos + 13)[i] == digits_fixed(
            ts.hour as nat,
            2,
        )[i] by {
            assert(s.subrange(pos + 11, pos + 13)[i] == s[pos + 11 + i]);
            assert(spec_ts_chars(ts)[11 + i] == digits_fixed(ts.hour as nat, 2)[i]);
        }
    }
    assert(s.subrange(pos + 14, pos + 16) =~= digits_fixed(ts.minute as nat, 2)) by {
        assert forall|i: int| 0 <= i < 2 implies s.subrange(pos + 14, pos + 16)[i] == digits_fixed(
            ts.minute as nat,
            2,
        )[i] by {
            assert(s.subrange(pos + 14, pos + 16)[i] == s[pos + 14 + i]);
            assert(spec_ts_chars(ts)[14 + i] == digits_fixed(ts.minute as nat, 2)[i]);
        }
    }
    assert(s.subrange(pos + 17, pos + 19) =~= digits_fixed(ts.second as nat, 2)) by {
        assert forall|i: int| 0 <= i < 2 implies s.subrange(pos + 17, pos + 19)[i] == digits_fixed(
            ts.second as nat,
            2,
        )[i] by {
            assert(s.subrange(pos + 17, pos + 19)[i] == s[pos + 17 + i]);
            assert(spec_ts_chars(ts)[17 + i] == digits_fixed(ts.second as nat, 2)[i]);
        }
    }
    assert(s[pos + 4] == spec_ts_chars(ts)[4]);
    assert(s[pos + 7] == spec_ts_chars(ts)[7]);
    assert(s[pos + 10] == spec_ts_chars(ts)[10]);
    assert(s[pos + 13] == spec_ts_chars(ts)[13]);
    assert(s[pos + 16] == spec_ts_chars(ts)[16]);
}

/// Read one `YYYY-MM-DDTHH:MM:SS` column name at `pos` and validate it
/// as a calendar timestamp.
fn parse_ts(s: &str, pos: usize) -> (r: Option<Timestamp>)
    requires
        pos <= s@.len(),
    ensures
        r is Some ==> {
            &&& pos + 19 <= s@.len()
            &&& r->0.wf()
            &&& spec_ts_chars(r->0) == s@.subrange(pos as int, pos + 19)
        },
        r is None ==> pos + 19 > s@.len() || (forall|ts: Timestamp|
            ts.wf() ==> spec_ts_chars(ts) != s@.subrange(pos as int, pos + 19)),
{
    let n = s.unicode_len();
    if n - pos < 19 {
        return None;
    }
    proof {
        reveal_strlit("-");
        reveal_strlit("T");
        reveal_strlit(":");
    }
    if s.get_char(pos + 4) != '-' || s.get_char(pos + 7) != '-' || s.get_char(pos + 10) != 'T'
        || s.get_char(pos + 13) != ':' || s.get_char(pos + 16) != ':' {
        proof {
            assert forall|ts2: Timestamp| ts2.wf() implies spec_ts_chars(ts2) != s@.subrange(
                pos as int,
                pos + 19,
            ) by {
                if spec_ts_chars(ts2) == s@.subrange(pos as int, pos + 19) {
                    lemma_ts_chars_at(ts2, s@, pos as int);
                }
            }
        }
        return None;
    }
    let parsed = (
        parse_digits(s, pos, 4),
        parse_digits(s, pos + 5, 2),
        parse_digits(s, pos + 8, 2),
        parse_digits(s, pos + 11, 2),
        parse_digits(s, pos + 14, 2),
        parse_digits(s, pos + 17, 2),
    );
    let (year, month, day, hour, minute, second) = match parsed {
        (Some(y), Some(mo), Some(d), Some(h), Some(mi), Some(se)) => (y, mo, d, h, mi, se),
        _ => {
            proof {
                assert forall|ts2: Timestamp| ts2.wf() implies spec_ts_chars(ts2) != s@.subrange(
                    pos as int,
                    pos + 19,
                ) by {
                    if spec_ts_chars(ts2) == s@.subrange(pos as int, pos + 19) {
                        lemma_ts_chars_at(ts2, s@, pos as int);
                    }
                }
            }
            return None;
        },
    };
    proof {
        assert(pow10(0) == 1);
        assert(pow10(1) == 10);
        assert(pow10(2) == 100);
        assert(pow10(3) == 1000);
        assert(pow10(4) == 10000);
    }
    let year = year as u32;
    let month = month as u32;
    let day = day as u32;
    let hour = hour as u32;
    let minute = minute as u32;
    let second = second as u32;
    if year < 1000 || month < 1 || month > 12 || day < 1 || day > days_in_month(year, month)
        || hour > 23 || minute > 59 || second > 59 {
        proof {
            assert forall|ts2: Timestamp| ts2.wf() implies spec_ts_chars(ts2) != s@.subrange(
                pos as int,
                pos + 19,
            ) by {
                if spec_ts_chars(ts2) == s@.subrange(pos as int, pos + 19) {
                    lemma_ts_chars_at(ts2, s@, pos as int);
                }
            }
        }
        return None;
    }
    let ts = Timestamp { year, month, day, hour, minute, second };
    proof {
        lemma_value_digits(s@.subrange(pos as int, pos + 4));
        lemma_value_digits(s@.subrange(pos + 5, pos + 7));
        lemma_value_digits(s@.subrange(pos + 8, pos + 10));
        lemma_value_digits(s@.subrange(pos + 11, pos + 13));
        lemma_value_digits(s@.subrange(pos + 14, pos + 16));
        lemma_value_digits(s@.subrange(pos + 17, pos + 19));
        assert(digits_fixed(ts.year as nat, 4) == s@.subrange(pos as int, pos + 4));
        assert(digits_fixed(ts.month as nat, 2) == s@.subrange(pos + 5, pos + 7));
        assert(digits_fixed(ts.day as nat, 2) == s@.subrange(pos + 8, pos + 10));
        assert(digits_fixed(ts.hour as nat, 2) == s@.subrange(pos + 11, pos + 13));
        assert(digits_fixed(ts.minute as nat, 2) == s@.subrange(pos + 14, pos + 16));
        assert(digits_fixed(ts.second as nat, 2) == s@.subrange(pos + 17, pos + 19));
        assert(spec_ts_chars(ts) =~= s@.subrange(pos as int, pos + 19));
    }
    Some(ts)
}

/// Whether a timestamp already occurs among the parsed columns.
fn ts_in(cols: &Vec<Timestamp>, ts: Timestamp) -> (b: bool)
    ensures
        b == cols@.contains(ts),
{
    let mut i: usize = 0;
    while i < cols.len()
        invariant
            0 <= i <= cols@.len(),
            forall|k: int| 0 <= k < i ==> cols@[k] != ts,
        decreases cols@.len() - i,
    {
        if cols[i] == ts {
            return true;
        }
        i += 1;
    }
    false
}

/// Whether any cell of the row is present.
fn cells_have_present(cells: &Vec<Option<Status>>) -> (b: bool)
    ensures
        b == exists|j: int| 0 <= j < cells@.len() && cells@[j] is Some,
{
    let mut i: usize = 0;
    while i < cells.len()
        invariant
            0 <= i <= cells@.len(),
            forall|k: int| 0 <= k < i ==> !(cells@[k] is Some),
        decreases cells@.len() - i,
    {
        if cells[i].is_some() {
            return true;
        }
        i += 1;
    }
    false
}

/// Read one cell character per column at `pos`.
fn parse_cells(s: &str, pos: usize, ncols: usize) -> (r: Option<Vec<Option<Status>>>)
    requires
        pos <= s@.len(),
    ensures
        r is Some ==> {
            &&& pos + ncols <= s@.len()
            &&& r->0@.len() == ncols
            &&& spec_cells_chars(r->0@) == s@.subrange(pos as int, pos + ncols)
        },
        r is None ==> pos + ncols > s@.len() || (forall|cells: Seq<Option<Status>>|
            cells.len() == ncols ==> spec_cells_chars(cells) != s@.subrange(
                pos as int,
                pos + ncols,
            )),
{
    let n = s.unicode_len();
    if n - pos < ncols {
        return None;
    }
    let mut cells: Vec<Option<Status>> = Vec::new();
    let mut j: usize = 0;
    proof {
        reveal_strlit("N");
        reveal_strlit("O");
        reveal_strlit("F");
        assert(spec_cells_chars(cells@) =~= s@.subrange(pos as int, pos as int));
    }
    while j < ncols
        invariant
            pos + ncols <= s@.len(),
            s@.len() <= usize::MAX,
            0 <= j <= ncols,
            cells@.len() == j,
            spec_cells_chars(cells@) == s@.subrange(pos as int, pos + j),
        decreases ncols - j,
    {
        let c = s.get_char(pos + j);
        let cell: Option<Status> = match c {
            'N' => None,
            'O' => Some(Status::OnDuty),
            'F' => Some(Status::OffDuty),
            _ => {
                proof {
                    assert forall|other: Seq<Option<Status>>| other.len() == ncols implies
                        spec_cells_chars(other) != s@.subrange(pos as int, pos + ncols) by {
                        if spec_cells_chars(other) == s@.subrange(pos as int, pos + ncols) {
                            assert(spec_cells_chars(other)[j as int] == cell_char(
                                other[j as int],
                            ));
                            assert(s@.subrange(pos as int, pos + ncols)[j as int] == c);
                        }
                    }
                }
                return None;
            },
        };
        proof {
            assert(cell_char(cell) == c);
        }
        cells.push(cell);
        proof {
            assert(spec_cells_chars(cells@) =~= s@.subrange(pos as int, pos + j + 1));
        }
        j += 1;
    }
    Some(cells)
}

impl Data {
    /// Read an accumulated table back from its persisted text.
    ///
    /// Any text this returns a table for is exactly that table's
    /// `encode_spec`, and the table satisfies the accumulated-table
    /// invariant; a text that some table persists to is never
    /// rejected, so reading a saved table back always succeeds.
    pub fn decode(s: &str) -> (r: Result<Data, DutyError>)
        ensures
            r is Ok ==> table_wf(r->Ok_0@) && encode_spec(r->Ok_0@) == s@,
            r is Err ==> r->Err_0 == DutyError::StorageRead,
            r is Err ==> forall|t: TableModel| !encodes_table(s@, t),
    {
        let n = s.unicode_len();
        let ncols_v = match parse_digits(s, 0, 20) {
            Some(v) => v,
            None => {
                proof {
                    assert forall|t: TableModel| !encodes_table(s@, t) by {
                        if encodes_table(s@, t) {
                            lemma_pow10_20();
                            lemma_encode_layout(t, s@);
                        }
                    }
                }
                return Err(DutyError::StorageRead);
            },
        };
        if ncols_v > usize::MAX as u128 {
            proof {
                assert forall|t: TableModel| !encodes_table(s@, t) by {
                    if encodes_table(s@, t) {
                        lemma_pow10_20();
                        lemma_encode_layout(t, s@);
                        assert(ncols_v as nat == t.cols.len());
                    }
                }
            }
            return Err(DutyError::StorageRead);
        }
        let ncols = ncols_v as usize;
        let mut pos: usize = 20;
        let mut cols: Vec<Timestamp> = Vec::new();
        let mut i: usize = 0;
        proof {
            assert(spec_cols_chars(cols@) =~= s@.subrange(20, 20));
        }
        while i < ncols
            invariant
                n as nat == s@.len(),
                0 <= i <= ncols,
                20 <= pos <= s@.len(),
                ncols as nat == value_of(s@.subrange(0, 20)),
                cols@.len() == i,
                spec_cols_chars(cols@) == s@.subrange(20, pos as int),
                forall|a: int, b: int| 0 <= a < b < i ==> cols@[a] != cols@[b],
                forall|a: int| 0 <= a < i ==> (#[trigger] cols@[a]).wf(),
                pos == 20 + i * 19,
            decreases ncols - i,
        {
            let ts = match parse_ts(s, pos) {
                Some(t) => t,
                None => {
                    proof {
                        assert forall|t: TableModel| !encodes_table(s@, t) by {
                            if encodes_table(s@, t) {
                                lemma_pow10_20();
                                lemma_encode_layout(t, s@);
                                assert(ncols as nat == t.cols.len());
                                lemma_cols_chars_slice(t.cols, i as int);
                                assert(pos + 19 <= s@.len());
                                assert forall|x: int| 0 <= x < 19 implies spec_ts_chars(
                                    t.cols[i as int],
                                )[x] == s@.subrange(pos as int, pos + 19)[x] by {
                                    assert(spec_cols_chars(t.cols).subrange(
                                        19 * i,
                                        19 * i + 19,
                                    )[x] == spec_cols_chars(t.cols)[19 * i + x]);
                                    assert(s@.subrange(20, 20 + 19 * t.cols.len() as int)[19 * i
                                        + x] == s@[20 + 19 * i + x]);
                                    assert(s@.subrange(pos as int, pos + 19)[x] == s@[pos + x]);
                                }
                                assert(spec_ts_chars(t.cols[i as int]) =~= s@.subrange(
                                    pos as int,
                                    pos + 19,
                                ));
                                assert(t.cols[i as int].wf());
                            }
                        }
                    }
                    return Err(DutyError::StorageRead);
                },
            };
            if ts_in(&cols, ts) {
                proof {
                    assert forall|t: TableModel| !encodes_table(s@, t) by {
                        if encodes_table(s@, t) {
                            lemma_pow10_20();
                            lemma_encode_layout(t, s@);
                            assert(ncols as nat == t.cols.len());
                            lemma_cols_chars_take(t.cols, i as int);
                            lemma_cols_chars_len(cols@);
                            assert forall|x: int| 0 <= x < 19 * i implies spec_cols_chars(
                                cols@,
                            )[x] == spec_cols_chars(t.cols.take(i as int))[x] by {
                                assert(spec_cols_chars(cols@)[x] == s@.subrange(
                                    20,
                                    pos as int,
                                )[x]);
                                assert(s@.subrange(20, pos as int)[x] == s@[20 + x]);
                                assert(spec_cols_chars(t.cols).subrange(0, 19 * (i as int))[x]
                                    == spec_cols_chars(t.cols)[x]);
                                assert(s@.subrange(20, 20 + 19 * t.cols.len() as int)[x] == s@[20
                                    + x]);
                            }
                            assert(spec_cols_chars(cols@) =~= spec_cols_chars(
                                t.cols.take(i as int),
                            ));
                            assert forall|a: int| 0 <= a < i implies (#[trigger] t.cols.take(
                                i as int,
                            )[a]).wf() by {
                                assert(t.cols.take(i as int)[a] == t.cols[a]);
                            }
                            lemma_cols_chars_injective(cols@, t.cols.take(i as int));
                            lemma_cols_chars_slice(t.cols, i as int);
                            assert forall|x: int| 0 <= x < 19 implies spec_ts_chars(
                                t.cols[i as int],
                            )[x] == spec_ts_chars(ts)[x] by {
                                assert(spec_cols_chars(t.cols).subrange(
                                    19 * i,
                                    19 * i + 19,
                                )[x] == spec_cols_chars(t.cols)[19 * i + x]);
                                assert(s@.subrange(20, 20 + 19 * t.cols.len() as int)[19 * i
                                    + x] == s@[20 + 19 * i + x]);
                                assert(s@.subrange(pos as int, pos + 19)[x] == s@[pos + x]);
                            }
                            assert(spec_ts_chars(t.cols[i as int]) =~= spec_ts_chars(ts));
                            lemma_ts_chars_injective(ts, t.cols[i as int]);
                            let a = choose|a: int| 0 <= a < cols@.len() && cols@[a] == ts;
                            assert(t.cols.take(i as int)[a] == cols@[a]);
                            assert(t.cols[a] == t.cols[i as int]);
                        }
                    }
                }
                return Err(DutyError::StorageRead);
            }
            let ghost cols0 = cols@;
            cols.push(ts);
            pos = pos + 19;
            proof {
                assert(cols@.drop_last() =~= cols0);
                assert(cols@.last() == ts);
                assert(spec_cols_chars(cols@) == spec_cols_chars(cols0) + spec_ts_chars(ts));
                assert(spec_cols_chars(cols@) =~= s@.subrange(20, pos as int));
                assert forall|a: int, b: int| 0 <= a < b < i + 1 implies cols@[a] != cols@[b] by {
                    if b < i {
                        assert(cols@[a] == cols0[a] && cols@[b] == cols0[b]);
                    } else {
                        assert(cols@[b] == ts);
                        assert(!cols0.contains(ts));
                        assert(cols@[a] == cols0[a]);
                        assert(cols0.contains(cols0[a]) == true) by {
                            assert(cols0[a] == cols0[a]);
                        }
                    }
                }
            }
            i += 1;
        }
        let ghost cols_end = pos as int;
        let nrows_v = match parse_digits(s, pos, 20) {
            Some(v) => v,
            None => {
                proof {
                    assert forall|t: TableModel| !encodes_table(s@, t) by {
                        if encodes_table(s@, t) {
                            lemma_pow10_20();
                            lemma_encode_layout(t, s@);
                            assert(ncols as nat == t.cols.len());
                            assert(pos as int == 20 + 19 * t.cols.len() as int);
                            assert(pos + 20 <= s@.len());
                        }
                    }
                }
                return Err(DutyError::StorageRead);
            },
        };
        if nrows_v > usize::MAX as u128 {
            proof {
                assert forall|t: TableModel| !encodes_table(s@, t) by {
                    if encodes_table(s@, t) {
                        lemma_pow10_20();
                        lemma_encode_layout(t, s@);
                        assert(ncols as nat == t.cols.len());
                        assert(pos as int == 20 + 19 * t.cols.len() as int);
                        assert(nrows_v as nat == t.rows.len());
                    }
                }
            }
            return Err(DutyError::StorageRead);
        }
        let nrows = nrows_v as usize;
        let ghost count2 = s@.subrange(cols_end, cols_end + 20);
        if pos > usize::MAX - 20 {
            proof {
                assert forall|t: TableModel| !encodes_table(s@, t) by {
                    if encodes_table(s@, t) {
                        lemma_pow10_20();
                        lemma_encode_layout(t, s@);
                        assert(ncols as nat == t.cols.len());
                        assert(pos as int == 20 + 19 * t.cols.len() as int);
                        assert(pos + 20 <= s@.len());
                    }
                }
            }
            return Err(DutyError::StorageRead);
        }
        pos = pos + 20;
        let ghost rows_start = pos as int;
        let mut rows: Vec<Row> = Vec::new();
        let mut k: usize = 0;
        proof {
            assert(spec_rows_chars(rows_model(rows@)) =~= s@.subrange(rows_start, rows_start));
        }
        while k < nrows
            invariant
                n as nat == s@.len(),
                0 <= k <= nrows,
                0 <= rows_start <= pos <= s@.len(),
                ncols as nat == value_of(s@.subrange(0, 20)),
                cols_end == 20 + 19 * (ncols as int),
                rows_start == cols_end + 20,
                nrows as nat == value_of(s@.subrange(cols_end, cols_end + 20)),
                rows@.len() == k,
                spec_rows_chars(rows_model(rows@)) == s@.subrange(rows_start, pos as int),
                forall|a: int, b: int|
                    0 <= a < b < k ==> (#[trigger] rows@[a])@.name != (#[trigger] rows@[b])@.name,
                forall|a: int| 0 <= a < k ==> (#[trigger] rows@[a])@.cells.len() == ncols,
                forall|a: int| 0 <= a < k ==> (#[trigger] rows@[a])@.name.len() < pow10(20),
                forall|a: int|
                    0 <= a < k ==> crate::table::row_has_present((#[trigger] rows@[a])@),
            decreases nrows - k,
        {
            let nlen_v = match parse_digits(s, pos, 20) {
                Some(v) => v,
                None => {
                    proof {
                        assert forall|t: TableModel| !encodes_table(s@, t) by {
                            if encodes_table(s@, t) {
                                lemma_pow10_20();
                                lemma_rows_ctx(
                                    t,
                                    s@,
                                    rows_model(rows@),
                                    ncols as nat,
                                    nrows as nat,
                                    pos as int,
                                );
                                lemma_row_k_layout(t, s@, k as int, pos as int);
                            }
                        }
                    }
                    return Err(DutyError::StorageRead);
                },
            };
            if nlen_v > usize::MAX as u128 {
                proof {
                    assert forall|t: TableModel| !encodes_table(s@, t) by {
                        if encodes_table(s@, t) {
                            lemma_pow10_20();
                            lemma_rows_ctx(
                                t,
                                s@,
                                rows_model(rows@),
                                ncols as nat,
                                nrows as nat,
                                pos as int,
                            );
                            lemma_row_k_layout(t, s@, k as int, pos as int);
                            assert(nlen_v as nat == t.rows[k as int].name.len());
                        }
                    }
                }
                return Err(DutyError::StorageRead);
            }
            let nlen = nlen_v as usize;
            let ghost len_chars = s@.subrange(pos as int, pos + 20);
            let pos1 = pos + 20;
            if n - pos1 < nlen {
                proof {
                    assert forall|t: TableModel| !encodes_table(s@, t) by {
                        if encodes_table(s@, t) {
                            lemma_pow10_20();
                            lemma_rows_ctx(
                                t,
                                s@,
                                rows_model(rows@),
                                ncols as nat,
                                nrows as nat,
                                pos as int,
                            );
                            lemma_row_k_layout(t, s@, k as int, pos as int);
                            assert(nlen as nat == t.rows[k as int].name.len());
                        }
                    }
                }
                return Err(DutyError::StorageRead);
            }
            let name = s.substring_char(pos1, pos1 + nlen).to_owned();
            let pos2 = pos1 + nlen;
            let cells = match parse_cells(s, pos2, ncols) {
                Some(c) => c,
                None => {
                    proof {
                        assert forall|t: TableModel| !encodes_table(s@, t) by {
                            if encodes_table(s@, t) {
                                lemma_pow10_20();
                                lemma_rows_ctx(
                                    t,
                                    s@,
                                    rows_model(rows@),
                                    ncols as nat,
                                    nrows as nat,
                                    pos as int,
                                );
                                lemma_row_k_layout(t, s@, k as int, pos as int);
                                assert(nlen as nat == t.rows[k as int].name.len());
                                assert(t.rows[k as int].cells.len() == ncols);
                                assert(spec_cells_chars(t.rows[k as int].cells) == s@.subrange(
                                    pos2 as int,
                                    pos2 + ncols,
                                ));
                            }
                        }
                    }
                    return Err(DutyError::StorageRead);
                },
            };
            if !cells_have_present(&cells) {
                proof {
                    assert forall|t: TableModel| !encodes_table(s@, t) by {
                        if encodes_table(s@, t) {
                            lemma_pow10_20();
                            lemma_rows_ctx(
                                t,
                                s@,
                                rows_model(rows@),
                                ncols as nat,
                                nrows as nat,
                                pos as int,
                            );
                            lemma_row_k_layout(t, s@, k as int, pos as int);
                            assert(nlen as nat == t.rows[k as int].name.len());
                            assert(spec_cells_chars(t.rows[k as int].cells) == s@.subrange(
                                pos2 as int,
                                pos2 + ncols,
                            ));
                            assert(t.rows[k as int].cells.len() == ncols);
                            lemma_cells_chars_injective(cells@, t.rows[k as int].cells);
                            assert(crate::table::row_has_present(t.rows[k as int]));
                            let j = choose|j: int|
                                0 <= j < t.rows[k as int].cells.len() && t.rows[
                                    k as int
                                ].cells[j] is Some;
                            assert(cells@[j] is Some);
                        }
                    }
                }
                return Err(DutyError::StorageRead);
            }
            if Data::has_name(&rows, rows.len(), &name) {
                proof {
                    assert forall|t: TableModel| !encodes_table(s@, t) by {
                        if encodes_table(s@, t) {
                            lemma_pow10_20();
                            lemma_rows_ctx(
                                t,
                                s@,
                                rows_model(rows@),
                                ncols as nat,
                                nrows as nat,
                                pos as int,
                            );
                            lemma_row_k_layout(t, s@, k as int, pos as int);
                            assert(nlen as nat == t.rows[k as int].name.len());
                            assert(name@ == t.rows[k as int].name);
                            let a = choose|a: int|
                                0 <= a < k && (#[trigger] rows@[a])@.name == name@;
                            assert(rows_model(rows@)[a] == t.rows.take(k as int)[a]);
                            assert(t.rows[a].name == t.rows[k as int].name);
                        }
                    }
                }
                return Err(DutyError::StorageRead);
            }
            let ghost rows0 = rows@;
            let ghost name_m = name@;
            let ghost cells_m = cells@;
            let pos3 = pos2 + ncols;
            rows.push(Row { name, cells });
            proof {
                let rm = rows_model(rows@);
                assert(rm.drop_last() =~= rows_model(rows0));
                assert(rm.last() == RowModel { name: name_m, cells: cells_m });
                assert(spec_rows_chars(rm) == spec_rows_chars(rows_model(rows0))
                    + spec_row_chars(rm.last()));
                lemma_value_digits(len_chars);
                assert(digits_fixed(name_m.len(), 20) == len_chars);
                assert(spec_row_chars(rm.last()) == len_chars + name_m + spec_cells_chars(
                    cells_m,
                ));
                assert(len_chars == s@.subrange(pos as int, pos1 as int));
                assert(name_m == s@.subrange(pos1 as int, pos2 as int));
                assert(spec_cells_chars(cells_m) == s@.subrange(pos2 as int, pos3 as int));
                assert(spec_rows_chars(rows_model(rows0)) == s@.subrange(rows_start, pos as int));
                assert(spec_row_chars(rm.last()) =~= s@.subrange(pos as int, pos3 as int));
                assert(s@.subrange(rows_start, pos as int) + s@.subrange(pos as int, pos3 as int)
                    =~= s@.subrange(rows_start, pos3 as int));
                assert(spec_rows_chars(rm) =~= s@.subrange(rows_start, pos3 as int));
                assert forall|a: int| 0 <= a < k + 1 implies crate::table::row_has_present(
                    (#[trigger] rows@[a])@,
                ) by {
                    if a < k {
                        assert(rows@[a] == rows0[a]);
                    } else {
                        let j = choose|j: int|
                            0 <= j < cells_m.len() && #[trigger] cells_m[j] is Some;
                        assert(rows@[a]@.cells[j] is Some);
                    }
                }
                assert forall|a: int| 0 <= a < k + 1 implies (#[trigger] rows@[a])@.name.len()
                    < pow10(20) by {
                    if a < k {
                        assert(rows@[a] == rows0[a]);
                    } else {
                        assert(rows@[a]@.name == name_m);
                        assert(name_m.len() == nlen as nat);
                    }
                }
                assert forall|a: int, b: int| 0 <= a < b < k + 1 implies (#[trigger] rows@[a])@.name
                    != (#[trigger] rows@[b])@.name by {
                    if b < k {
                        assert(rows@[a] == rows0[a] && rows@[b] == rows0[b]);
                    } else {
                        assert(rows@[b]@.name == name_m);
                        assert(rows@[a] == rows0[a]);
                    }
                }
            }
            pos = pos3;
            k += 1;
        }
        if pos != n {
            proof {
                assert forall|t: TableModel| !encodes_table(s@, t) by {
                    if encodes_table(s@, t) {
                        lemma_pow10_20();
                        lemma_rows_ctx(
                            t,
                            s@,
                            rows_model(rows@),
                            ncols as nat,
                            nrows as nat,
                            pos as int,
                        );
                        assert(t.rows.take(t.rows.len() as int) =~= t.rows);
                        lemma_encode_layout(t, s@);
                        assert(pos as int == s@.len());
                    }
                }
            }
            return Err(DutyError::StorageRead);
        }
        let table = Data { cols, rows };
        proof {
            let t = table@;
            assert(t.cols.len() == ncols);
            assert(t.rows.len() == nrows);
            assert forall|a: int| 0 <= a < t.rows.len() implies (#[trigger] t.rows[a]).cells.len()
                == t.cols.len() by {
                assert(t.rows[a] == table.rows@[a]@);
            }
            assert forall|a: int| 0 <= a < t.rows.len() implies crate::table::row_has_present(
                #[trigger] t.rows[a],
            ) by {
                assert(t.rows[a] == table.rows@[a]@);
                assert(crate::table::row_has_present(table.rows@[a]@));
            }
            assert(table_wf(t));
            lemma_value_digits(s@.subrange(0, 20));
            lemma_value_digits(count2);
            assert(digits_fixed(t.cols.len(), 20) == s@.subrange(0, 20));
            assert(digits_fixed(t.rows.len(), 20) == count2);
            assert(encode_spec(t) =~= s@);
        }
        Ok(table)
    }
}

} // verus!
