//! The series-set converter: splits a wide row batch, pre-sorted by its
//! tag columns, into contiguous runs that each represent one logical
//! time series. Runs are found by marking, per tag column, the rows
//! where the value changes, and uniting those marks in a compressed
//! bitmap.

use vstd::prelude::*;

use crate::roaring::{bitmap_add, bitmap_new, bitmap_or_inplace, bitmap_set, bitmap_to_vec};

verus! {

/// The values of one column: tag columns are strings; numeric columns
/// carry 64-bit integers, float columns their IEEE-754 bit patterns.
#[derive(Debug, Clone, PartialEq, Eq)]
pub enum ColumnValues {
    Utf8(Vec<String>),
    I64(Vec<i64>),
    F64(Vec<u64>),
}

impl ColumnValues {
    pub open spec fn spec_len(self) -> nat {
        match self {
            ColumnValues::Utf8(v) => v@.len(),
            ColumnValues::I64(v) => v@.len(),
            ColumnValues::F64(v) => v@.len(),
        }
    }
}

/// A named column.
#[derive(Debug, Clone, PartialEq, Eq)]
pub struct Column {
    pub name: String,
    pub values: ColumnValues,
}

/// A wide row batch: named, typed columns of equal length.
#[derive(Debug, Clone, PartialEq, Eq)]
pub struct RowBatch {
    pub num_rows: usize,
    pub columns: Vec<Column>,
}

impl RowBatch {
    /// Every column holds one value per row.
    pub open spec fn wf(self) -> bool {
        forall|i: int|
            0 <= i < self.columns@.len() ==> (#[trigger] self.columns@[i]).values.spec_len()
                == self.num_rows
    }
}

/// Index of the first column named `name`, or the column count.
pub open spec fn col_index(cols: Seq<Column>, name: Seq<char>) -> nat
    decreases cols.len(),
{
    if cols.len() == 0 {
        0
    } else if cols[0].name@ == name {
        0
    } else {
        (1 + col_index(cols.skip(1), name)) as nat
    }
}

pub proof fn lemma_col_index(cols: Seq<Column>, name: Seq<char>)
    ensures
        col_index(cols, name) <= cols.len(),
        col_index(cols, name) < cols.len() ==> cols[col_index(cols, name) as int].name@ == name,
        forall|j: int| 0 <= j < col_index(cols, name) ==> (#[trigger] cols[j]).name@ != name,
    decreases cols.len(),
{
    if cols.len() == 0 {
    } else if cols[0].name@ == name {
    } else {
        lemma_col_index(cols.skip(1), name);
        assert forall|j: int| 0 <= j < col_index(cols, name) implies (#[trigger] cols[j]).name@
            != name by {
            if j > 0 {
                assert(cols.skip(1)[j - 1] == cols[j]);
            }
        };
        if col_index(cols, name) < cols.len() {
            assert(cols.skip(1)[col_index(cols, name) - 1] == cols[col_index(
                cols,
                name,
            ) as int]);
        }
    }
}

/// The string value of column `ci` at row `r`.
pub open spec fn col_str_at(batch: RowBatch, ci: int, r: int) -> Seq<char> {
    ((batch.columns@[ci].values)->Utf8_0)@[r]@
}

/// The errors of the conversion path.
#[derive(Debug)]
pub enum Error {
    /// The source handed back an error instead of a batch.
    ReadingRecordBatch { description: String },
    /// A named tag, field or time column is missing from the schema.
    ColumnNotFoundForSeriesSet { column_name: String },
    /// A tag column is not string-typed.
    UnsupportedTagType { column_name: String },
    /// More than one batch was supplied.
    MultiBatchNotSupported,
    /// The consumer of the emitted sets is gone.
    Sending { description: String },
}

/// A contiguous run of rows within one batch that share their tag
/// values: one logical series.
#[derive(Debug, Clone, PartialEq, Eq)]
pub struct SeriesSet {
    /// The table the series came from.
    pub table_name: String,
    /// The `(tag key, tag value)` pairs identifying this series.
    pub tags: Vec<(String, String)>,
    /// Index of the timestamp column.
    pub timestamp_index: usize,
    /// Indices of the field columns.
    pub field_indices: Vec<usize>,
    /// First row of the run.
    pub start_row: usize,
    /// Number of rows in the run.
    pub num_rows: usize,
    /// The underlying batch the run points into.
    pub batch: RowBatch,
}

/// A group of series sharing a tag-key prefix.
#[derive(Debug, Clone, PartialEq, Eq)]
pub struct GroupDescription {
    pub tags: Vec<(String, String)>,
}

/// One item of a grouped conversion: a group marker or a series.
#[derive(Debug)]
pub enum GroupedSeriesSetItem {
    GroupStart(GroupDescription),
    GroupData(SeriesSet),
}

/// The emitted sets tile the rows `[0, n)`: the first starts at row 0,
/// each starts where the previous ended, and the last ends at `n`.
pub open spec fn sets_tile(sets: Seq<SeriesSet>, n: int) -> bool {
    &&& (n > 0 ==> sets.len() > 0)
    &&& (sets.len() > 0 ==> sets[0].start_row == 0 && sets[sets.len() - 1].start_row + sets[
        sets.len() - 1].num_rows == n)
    &&& forall|k: int|
        0 < k < sets.len() ==> (#[trigger] sets[k]).start_row == sets[k - 1].start_row + sets[k
            - 1].num_rows
}

/// Concatenating the emitted runs reproduces the batch's rows at most
/// once: two distinct runs never overlap.
pub proof fn lemma_sets_monotone(sets: Seq<SeriesSet>, k1: int, k2: int)
    requires
        forall|k: int|
            0 < k < sets.len() ==> (#[trigger] sets[k]).start_row == sets[k - 1].start_row
                + sets[k - 1].num_rows,
        0 <= k1 < k2 < sets.len(),
    ensures
        sets[k1].start_row + sets[k1].num_rows <= sets[k2].start_row,
    decreases k2 - k1,
{
    if k2 == k1 + 1 {
    } else {
        lemma_sets_monotone(sets, k1, k2 - 1);
    }
}

/// Concatenating the emitted runs reproduces the batch's rows at least
/// once: every row of the batch lies in some run.
pub proof fn lemma_row_in_some_set(sets: Seq<SeriesSet>, n: int, row: int)
    requires
        sets_tile(sets, n),
        0 <= row < n,
    ensures
        exists|k: int|
            0 <= k < sets.len() && (#[trigger] sets[k]).start_row <= row < sets[k].start_row
                + sets[k].num_rows,
    decreases sets.len(),
{
    let last = sets.len() - 1;
    if sets[last].start_row <= row {
        assert(sets[last].start_row <= row < sets[last].start_row + sets[last].num_rows);
    } else {
        let front = sets.take(last);
        assert(sets[last].start_row == sets[last - 1].start_row + sets[last - 1].num_rows) by {
            if last == 0 {
                assert(sets[0].start_row == 0);
            }
        }
        assert(front.len() > 0);
        assert(sets_tile(front, sets[last].start_row as int)) by {
            assert(front[0] == sets[0]);
            assert(front[front.len() - 1] == sets[last - 1]);
            assert forall|k: int|
                0 < k < front.len() implies (#[trigger] front[k]).start_row == front[k
                - 1].start_row + front[k - 1].num_rows by {
                assert(front[k] == sets[k]);
                assert(front[k - 1] == sets[k - 1]);
            };
        }
        lemma_row_in_some_set(front, sets[last].start_row as int, row);
        let k = choose|k: int|
            0 <= k < front.len() && (#[trigger] front[k]).start_row <= row < front[k].start_row
                + front[k].num_rows;
        assert(sets[k] == front[k]);
        assert(sets[k].start_row <= row < sets[k].start_row + sets[k].num_rows);
    }
}

/// The set of past-the-end row marks of one tag column: every row whose
/// value differs from the row before it, and the row count as the
/// closing mark.
pub open spec fn transition_set(vals: Seq<String>) -> Set<u32> {
    Set::new(
        |r: u32|
            (1 <= r < vals.len() && vals[r as int]@ != vals[r as int - 1]@) || r as int
                == vals.len(),
    )
}

/// Converts row batches into series sets.
#[derive(Debug)]
pub struct SeriesSetConverter {
}

impl SeriesSetConverter {
    pub fn new() -> (c: SeriesSetConverter) {
        SeriesSetConverter {  }
    }

    /// Looks up the index of each named column; fails, naming the
    /// column, when one is missing.
    pub fn names_to_indices(batch: &RowBatch, column_names: &Vec<String>) -> (r: Result<
        Vec<usize>,
        Error,
    >)
        ensures
            r is Ok <==> forall|j: int|
                0 <= j < column_names@.len() ==> col_index(
                    batch.columns@,
                    (#[trigger] column_names@[j])@,
                ) < batch.columns@.len(),
            match r {
                Ok(v) => {
                    &&& v@.len() == column_names@.len()
                    &&& forall|j: int|
                        0 <= j < v@.len() ==> (#[trigger] v@[j]) == col_index(
                            batch.columns@,
                            column_names@[j]@,
                        )
                },
                Err(e) => e matches Error::ColumnNotFoundForSeriesSet { column_name } && {
                    let m = first_unresolved(batch.columns@, column_names@);
                    m < column_names@.len() && column_name@ == column_names@[m as int]@
                },
            },
    {
        let mut out: Vec<usize> = Vec::new();
        let n = column_names.len();
        let mut j: usize = 0;
        while j < n
            invariant
                j <= n,
                n == column_names@.len(),
                out@.len() == j,
                forall|i: int|
                    0 <= i < j ==> (#[trigger] out@[i]) == col_index(
                        batch.columns@,
                        column_names@[i]@,
                    ) && col_index(batch.columns@, column_names@[i]@) < batch.columns@.len(),
            decreases n - j,
        {
            let ci = find_column(batch, column_names[j].as_str());
            if ci >= batch.columns.len() {
                proof {
                    assert(!(forall|i: int|
                        0 <= i < column_names@.len() ==> col_index(
                            batch.columns@,
                            (#[trigger] column_names@[i])@,
                        ) < batch.columns@.len())) by {
                        assert(col_index(batch.columns@, (column_names@[j as int])@)
                            >= batch.columns@.len());
                    };
                    lemma_first_unresolved(batch.columns@, column_names@);
                    let m = first_unresolved(batch.columns@, column_names@);
                    assert(m == j) by {
                        if m < j {
                            assert(out@[m as int] == col_index(
                                batch.columns@,
                                column_names@[m as int]@,
                            ));
                            assert(col_index(batch.columns@, (column_names@[m as int])@)
                                < batch.columns@.len());
                        }
                        if m > j {
                            assert(col_index(batch.columns@, (column_names@[j as int])@)
                                < batch.columns@.len());
                        }
                    };
                }
                return Err(
                    Error::ColumnNotFoundForSeriesSet {
                        column_name: column_names[j].clone(),
                    },
                );
            }
            out.push(ci);
            j = j + 1;
        }
        proof {
            assert forall|i: int|
                0 <= i < column_names@.len() implies col_index(
                batch.columns@,
                (#[trigger] column_names@[i])@,
            ) < batch.columns@.len() by {
                assert(out@[i] == col_index(batch.columns@, column_names@[i]@));
            };
        }
        Ok(out)
    }

    /// Marks, in a bitmap, each row of the tag column at `col_idx`
    /// whose value differs from the row before it, with the row count
    /// closing the final run; fails on a non-string column.
    pub fn compute_transitions(batch: &RowBatch, col_idx: usize) -> (r: Result<
        croaring::Bitmap,
        Error,
    >)
        requires
            batch.wf(),
            col_idx < batch.columns@.len(),
            batch.num_rows <= u32::MAX,
        ensures
            r is Ok <==> batch.columns@[col_idx as int].values is Utf8,
            match r {
                Ok(b) => {
                    &&& bitmap_set(b).finite()
                    &&& if batch.num_rows == 0 {
                        bitmap_set(b) == Set::<u32>::empty()
                    } else {
                        bitmap_set(b) == transition_set(
                            ((batch.columns@[col_idx as int].values)->Utf8_0)@,
                        )
                    }
                },
                Err(e) => e matches Error::UnsupportedTagType { column_name } && column_name@
                    == batch.columns@[col_idx as int].name@,
            },
    {
        let num_rows = batch.num_rows;
        let mut bitmap = bitmap_new();
        let col = &batch.columns[col_idx];
        match &col.values {
            ColumnValues::Utf8(vals) => {
                if num_rows < 1 {
                    return Ok(bitmap);
                }
                let ghost vseq = vals@;
                let mut row: usize = 1;
                while row < num_rows
                    invariant
                        1 <= row <= num_rows,
                        num_rows <= u32::MAX,
                        vseq.len() == num_rows,
                        vseq == vals@,
                        bitmap_set(bitmap).finite(),
                        forall|r: u32|
                            bitmap_set(bitmap).contains(r) <==> (1 <= r < row
                                && vseq[r as int]@ != vseq[r as int - 1]@),
                    decreases num_rows - row,
                {
                    let differs = crate::ordering::str_compare(
                        vals[row].as_str(),
                        vals[row - 1].as_str(),
                    ) != crate::ordering::KeyOrder::Equal;
                    if differs {
                        bitmap_add(&mut bitmap, row as u32);
                    }
                    row = row + 1;
                }
                bitmap_add(&mut bitmap, num_rows as u32);
                proof {
                    assert(bitmap_set(bitmap) =~= transition_set(vseq));
                }
                Ok(bitmap)
            },
            ColumnValues::I64(_) => Err(
                Error::UnsupportedTagType { column_name: col.name.clone() },
            ),
            ColumnValues::F64(_) => Err(
                Error::UnsupportedTagType { column_name: col.name.clone() },
            ),
        }
    }

    /// Reads the `(tag key, tag value)` pairs identifying the run that
    /// starts at `row`.
    pub fn get_tag_keys(
        batch: &RowBatch,
        row: usize,
        tag_column_names: &Vec<String>,
        tag_indicies: &Vec<usize>,
    ) -> (r: Vec<(String, String)>)
        requires
            tag_column_names@.len() == tag_indicies@.len(),
            batch.wf(),
            row < batch.num_rows,
            forall|j: int|
                0 <= j < tag_indicies@.len() ==> (#[trigger] tag_indicies@[j])
                    < batch.columns@.len() && batch.columns@[tag_indicies@[j] as int].values
                    is Utf8,
        ensures
            r@.len() == tag_column_names@.len(),
            forall|j: int|
                0 <= j < r@.len() ==> ((#[trigger] r@[j]).0@ == tag_column_names@[j]@ && r@[j].1@
                    == col_str_at(*batch, tag_indicies@[j] as int, row as int)),
    {
        let mut out: Vec<(String, String)> = Vec::new();
        let n = tag_column_names.len();
        let mut j: usize = 0;
        while j < n
            invariant
                j <= n,
                n == tag_column_names@.len(),
                n == tag_indicies@.len(),
                batch.wf(),
                row < batch.num_rows,
                forall|i: int|
                    0 <= i < n ==> (#[trigger] tag_indicies@[i]) < batch.columns@.len()
                        && batch.columns@[tag_indicies@[i] as int].values is Utf8,
                out@.len() == j,
                forall|i: int|
                    0 <= i < j ==> ((#[trigger] out@[i]).0@ == tag_column_names@[i]@ && out@[i].1@
                        == col_str_at(*batch, tag_indicies@[i] as int, row as int)),
            decreases n - j,
        {
            let ci = tag_indicies[j];
            let value = match &batch.columns[ci].values {
                ColumnValues::Utf8(vals) => vals[row].clone(),
                _ => String::new(),
            };
            out.push((tag_column_names[j].clone(), value));
            j = j + 1;
        }
        out
    }
}

/// All the tag values identifying the run around row `r` are the same
/// at `r` as at `r - 1`.
pub open spec fn tags_constant_at(batch: RowBatch, tags: Seq<String>, r: int) -> bool {
    forall|j: int|
        0 <= j < tags.len() ==> col_str_at(
            batch,
            col_index(batch.columns@, (#[trigger] tags[j])@) as int,
            r,
        ) == col_str_at(batch, col_index(batch.columns@, tags[j]@) as int, r - 1)
}

/// Index of the first name that resolves to no column, or the name
/// count.
pub open spec fn first_unresolved(cols: Seq<Column>, names: Seq<String>) -> nat
    decreases names.len(),
{
    if names.len() == 0 {
        0
    } else if col_index(cols, names[0]@) >= cols.len() {
        0
    } else {
        (1 + first_unresolved(cols, names.skip(1))) as nat
    }
}

pub proof fn lemma_first_unresolved(cols: Seq<Column>, names: Seq<String>)
    ensures
        first_unresolved(cols, names) <= names.len(),
        first_unresolved(cols, names) < names.len() ==> col_index(
            cols,
            names[first_unresolved(cols, names) as int]@,
        ) >= cols.len(),
        forall|j: int|
            0 <= j < first_unresolved(cols, names) ==> col_index(
                cols,
                (#[trigger] names[j])@,
            ) < cols.len(),
    decreases names.len(),
{
    if names.len() == 0 {
    } else if col_index(cols, names[0]@) >= cols.len() {
    } else {
        lemma_first_unresolved(cols, names.skip(1));
        assert forall|j: int|
            0 <= j < first_unresolved(cols, names) implies col_index(
            cols,
            (#[trigger] names[j])@,
        ) < cols.len() by {
            if j > 0 {
                assert(names.skip(1)[j - 1] == names[j]);
            }
        };
        if first_unresolved(cols, names) < names.len() {
            assert(names.skip(1)[first_unresolved(cols, names) - 1] == names[first_unresolved(
                cols,
                names,
            ) as int]);
        }
    }
}

/// Index of the first name whose resolved column is not string-typed,
/// or the name count. Meaningful once every name resolves.
pub open spec fn first_non_utf8(cols: Seq<Column>, names: Seq<String>) -> nat
    decreases names.len(),
{
    if names.len() == 0 {
        0
    } else if !(cols[col_index(cols, names[0]@) as int].values is Utf8) {
        0
    } else {
        (1 + first_non_utf8(cols, names.skip(1))) as nat
    }
}

pub proof fn lemma_first_non_utf8(cols: Seq<Column>, names: Seq<String>)
    ensures
        first_non_utf8(cols, names) <= names.len(),
        first_non_utf8(cols, names) < names.len() ==> !(cols[col_index(
            cols,
            names[first_non_utf8(cols, names) as int]@,
        ) as int].values is Utf8),
        forall|j: int|
            0 <= j < first_non_utf8(cols, names) ==> cols[col_index(
                cols,
                (#[trigger] names[j])@,
            ) as int].values is Utf8,
    decreases names.len(),
{
    if names.len() == 0 {
    } else if !(cols[col_index(cols, names[0]@) as int].values is Utf8) {
    } else {
        lemma_first_non_utf8(cols, names.skip(1));
        assert forall|j: int|
            0 <= j < first_non_utf8(cols, names) implies cols[col_index(
            cols,
            (#[trigger] names[j])@,
        ) as int].values is Utf8 by {
            if j > 0 {
                assert(names.skip(1)[j - 1] == names[j]);
            }
        };
        if first_non_utf8(cols, names) < names.len() {
            assert(names.skip(1)[first_non_utf8(cols, names) - 1] == names[first_non_utf8(
                cols,
                names,
            ) as int]);
        }
    }
}

/// Which error a conversion of one batch reports: the first failure in
/// the order the schema is checked — the time column, then the tag
/// names, then the field names, then the tag columns' types — naming
/// the offending column.
pub open spec fn convert_err_ok(
    batch: RowBatch,
    tags: Seq<String>,
    fields: Seq<String>,
    e: Error,
) -> bool {
    let cols = batch.columns@;
    if col_index(cols, "time"@) >= cols.len() {
        e matches Error::ColumnNotFoundForSeriesSet { column_name } && column_name@ == "time"@
    } else if first_unresolved(cols, tags) < tags.len() {
        e matches Error::ColumnNotFoundForSeriesSet { column_name } && column_name@
            == tags[first_unresolved(cols, tags) as int]@
    } else if first_unresolved(cols, fields) < fields.len() {
        e matches Error::ColumnNotFoundForSeriesSet { column_name } && column_name@
            == fields[first_unresolved(cols, fields) as int]@
    } else {
        e matches Error::UnsupportedTagType { column_name } && first_non_utf8(cols, tags)
            < tags.len() && column_name@ == tags[first_non_utf8(cols, tags) as int]@
    }
}

/// The named columns resolve and every tag column is string-typed.
pub open spec fn cols_ok(batch: RowBatch, tags: Seq<String>, fields: Seq<String>) -> bool {
    &&& col_index(batch.columns@, "time"@) < batch.columns@.len()
    &&& forall|j: int|
        0 <= j < tags.len() ==> col_index(batch.columns@, (#[trigger] tags[j])@)
            < batch.columns@.len()
    &&& forall|j: int|
        0 <= j < fields.len() ==> col_index(batch.columns@, (#[trigger] fields[j])@)
            < batch.columns@.len()
    &&& forall|j: int|
        0 <= j < tags.len() ==> batch.columns@[col_index(
            batch.columns@,
            (#[trigger] tags[j])@,
        ) as int].values is Utf8
}

/// What a successful conversion of one batch returns: the runs tile the
/// batch's rows in order; each run carries the table name, the resolved
/// time and field column indices, the batch, and the tag values read at
/// its first row; and no tag value changes strictly inside a run.
pub open spec fn convert_ok(
    table_name: Seq<char>,
    tags: Seq<String>,
    fields: Seq<String>,
    batch: RowBatch,
    sets: Seq<SeriesSet>,
) -> bool {
    &&& sets_tile(sets, batch.num_rows as int)
    &&& forall|k: int|
        0 <= k < sets.len() ==> {
            let s = #[trigger] sets[k];
            &&& s.table_name@ == table_name
            &&& s.timestamp_index == col_index(batch.columns@, "time"@)
            &&& s.field_indices@.len() == fields.len()
            &&& (forall|j: int|
                0 <= j < fields.len() ==> (#[trigger] s.field_indices@[j]) == col_index(
                    batch.columns@,
                    fields[j]@,
                ))
            &&& batch_like(s.batch, batch)
            &&& s.tags@.len() == tags.len()
            &&& (batch.num_rows > 0 ==> forall|j: int|
                0 <= j < tags.len() ==> ((#[trigger] s.tags@[j]).0@ == tags[j]@ && s.tags@[j].1@
                    == col_str_at(
                    batch,
                    col_index(batch.columns@, tags[j]@) as int,
                    s.start_row as int,
                )))
        }
    &&& (batch.num_rows > 0 ==> forall|k: int|
        0 <= k < sets.len() ==> (#[trigger] sets[k]).num_rows >= 1)
    &&& forall|k: int|
        0 < k < sets.len() ==> exists|j: int|
            0 <= j < tags.len() && col_str_at(
                batch,
                col_index(batch.columns@, (#[trigger] tags[j])@) as int,
                (#[trigger] sets[k]).start_row as int,
            ) != col_str_at(
                batch,
                col_index(batch.columns@, tags[j]@) as int,
                sets[k].start_row - 1,
            )
    &&& (tags.len() == 0 ==> sets.len() <= 1)
    &&& forall|k: int|
        0 <= k < sets.len() ==> (forall|r: int|
            #![trigger tags_constant_at(batch, tags, r)]
            (#[trigger] sets[k]).start_row < r < sets[k].start_row + sets[k].num_rows
                ==> tags_constant_at(batch, tags, r))
}

impl SeriesSetConverter {
    /// Converts the supplied batches into series sets, in run order.
    /// Exactly one batch is supported: none yields no sets, several are
    /// refused. Fails when a named column is missing or a tag column is
    /// not string-typed.
    pub fn convert(
        &self,
        table_name: &str,
        tag_columns: &Vec<String>,
        field_columns: &Vec<String>,
        batches: &Vec<RowBatch>,
    ) -> (r: Result<Vec<SeriesSet>, Error>)
        requires
            forall|i: int|
                0 <= i < batches@.len() ==> (#[trigger] batches@[i]).wf()
                    && batches@[i].num_rows <= u32::MAX,
        ensures
            batches@.len() == 0 ==> r is Ok && (r->Ok_0)@.len() == 0,
            batches@.len() > 1 ==> (r matches Err(Error::MultiBatchNotSupported)),
            batches@.len() == 1 ==> (r is Ok <==> cols_ok(
                batches@[0],
                tag_columns@,
                field_columns@,
            )),
            batches@.len() == 1 && r is Ok ==> convert_ok(
                table_name@,
                tag_columns@,
                field_columns@,
                batches@[0],
                (r->Ok_0)@,
            ),
            batches@.len() == 1 && r is Err ==> convert_err_ok(
                batches@[0],
                tag_columns@,
                field_columns@,
                r->Err_0,
            ),
    {
        let r = self.convert_impl(table_name, tag_columns, field_columns, batches);
        proof {
            if batches@.len() == 1 {
                assert(r is Ok <==> cols_ok(batches@[0], tag_columns@, field_columns@));
                if r is Err {
                    assert(convert_err_ok(
                        batches@[0],
                        tag_columns@,
                        field_columns@,
                        r->Err_0,
                    ));
                }
            }
        }
        r
    }

    /// The conversion logic behind [`Self::convert`].
    #[verifier::rlimit(100)]
    pub fn convert_impl(
        &self,
        table_name: &str,
        tag_columns: &Vec<String>,
        field_columns: &Vec<String>,
        batches: &Vec<RowBatch>,
    ) -> (r: Result<Vec<SeriesSet>, Error>)
        requires
            forall|i: int|
                0 <= i < batches@.len() ==> (#[trigger] batches@[i]).wf()
                    && batches@[i].num_rows <= u32::MAX,
        ensures
            batches@.len() == 0 ==> r is Ok && (r->Ok_0)@.len() == 0,
            batches@.len() > 1 ==> (r matches Err(Error::MultiBatchNotSupported)),
            batches@.len() == 1 ==> (r is Ok <==> cols_ok(
                batches@[0],
                tag_columns@,
                field_columns@,
            )),
            batches@.len() == 1 && r is Ok ==> convert_ok(
                table_name@,
                tag_columns@,
                field_columns@,
                batches@[0],
                (r->Ok_0)@,
            ),
            batches@.len() == 1 && r is Err ==> convert_err_ok(
                batches@[0],
                tag_columns@,
                field_columns@,
                r->Err_0,
            ),
    {
        if batches.len() == 0 {
            let empty: Vec<SeriesSet> = Vec::new();
            return Ok(empty);
        }
        if batches.len() > 1 {
            return Err(Error::MultiBatchNotSupported);
        }
        let batch = &batches[0];
        let num_rows = batch.num_rows;
        let timestamp_index = find_column(batch, "time");
        if timestamp_index >= batch.columns.len() {
            return Err(
                Error::ColumnNotFoundForSeriesSet { column_name: String::from_str("time") },
            );
        }
        let tag_indicies = match Self::names_to_indices(batch, tag_columns) {
            Ok(v) => v,
            Err(e) => {
                return Err(e);
            },
        };
        let field_indicies = match Self::names_to_indices(batch, field_columns) {
            Ok(v) => v,
            Err(e) => {
                proof {
                    lemma_first_unresolved(batch.columns@, tag_columns@);
                    let mt = first_unresolved(batch.columns@, tag_columns@);
                    assert(mt >= tag_columns@.len()) by {
                        if mt < tag_columns@.len() {
                            assert(col_index(batch.columns@, (tag_columns@[mt as int])@)
                                < batch.columns@.len());
                        }
                    };
                }
                return Err(e);
            },
        };
        // the union of the per-column transition marks
        let mut union = bitmap_new();
        let tn = tag_indicies.len();
        let mut j: usize = 0;
        while j < tn
            invariant
                j <= tn,
                tn == tag_indicies@.len(),
                tn == tag_columns@.len(),
                batches@.len() == 1,
                batch == batches@[0],
                batch.wf(),
                num_rows == batch.num_rows,
                num_rows <= u32::MAX,
                forall|i: int|
                    0 <= i < tn ==> (#[trigger] tag_indicies@[i]) == col_index(
                        batch.columns@,
                        tag_columns@[i]@,
                    ),
                forall|i: int|
                    0 <= i < tn ==> col_index(batch.columns@, (#[trigger] tag_columns@[i])@)
                        < batch.columns@.len(),
                col_index(batch.columns@, "time"@) < batch.columns@.len(),
                forall|i: int|
                    0 <= i < field_columns@.len() ==> col_index(
                        batch.columns@,
                        (#[trigger] field_columns@[i])@,
                    ) < batch.columns@.len(),
                forall|i: int|
                    0 <= i < j ==> (#[trigger] batch.columns@[tag_indicies@[i] as int]).values
                        is Utf8,
                forall|i: int|
                    0 <= i < j ==> batch.columns@[col_index(
                        batch.columns@,
                        (#[trigger] tag_columns@[i])@,
                    ) as int].values is Utf8,
                bitmap_set(union).finite(),
                forall|x: u32|
                    #[trigger] bitmap_set(union).contains(x) <==> (num_rows > 0 && exists|i: int|
                        0 <= i < j && transition_set(
                            ((batch.columns@[(#[trigger] tag_indicies@[i]) as int].values)->Utf8_0)@,
                        ).contains(x)),
            decreases tn - j,
        {
            let t = match Self::compute_transitions(batch, tag_indicies[j]) {
                Ok(t) => t,
                Err(e) => {
                    proof {
                        assert(!(batch.columns@[col_index(
                            batch.columns@,
                            (tag_columns@[j as int])@,
                        ) as int].values is Utf8));
                        lemma_first_unresolved(batch.columns@, tag_columns@);
                        let mt = first_unresolved(batch.columns@, tag_columns@);
                        assert(mt >= tag_columns@.len()) by {
                            if mt < tag_columns@.len() {
                                assert(col_index(batch.columns@, (tag_columns@[mt as int])@)
                                    < batch.columns@.len());
                            }
                        };
                        lemma_first_unresolved(batch.columns@, field_columns@);
                        let mf = first_unresolved(batch.columns@, field_columns@);
                        assert(mf >= field_columns@.len()) by {
                            if mf < field_columns@.len() {
                                assert(col_index(batch.columns@, (field_columns@[mf as int])@)
                                    < batch.columns@.len());
                            }
                        };
                        lemma_first_non_utf8(batch.columns@, tag_columns@);
                        let mu = first_non_utf8(batch.columns@, tag_columns@);
                        assert(mu == j) by {
                            if mu < j {
                                assert(batch.columns@[col_index(
                                    batch.columns@,
                                    (tag_columns@[mu as int])@,
                                ) as int].values is Utf8);
                            }
                            if mu > j {
                                assert(batch.columns@[col_index(
                                    batch.columns@,
                                    (tag_columns@[j as int])@,
                                ) as int].values is Utf8);
                            }
                        };
                        lemma_col_index(batch.columns@, tag_columns@[j as int]@);
                        assert(batch.columns@[col_index(
                            batch.columns@,
                            (tag_columns@[j as int])@,
                        ) as int].name@ == tag_columns@[j as int]@);
                    }
                    return Err(e);
                },
            };
            let ghost u_before = bitmap_set(union);
            bitmap_or_inplace(&mut union, &t);
            proof {
                assert forall|x: u32| #[trigger]
                    bitmap_set(union).contains(x) <==> (num_rows > 0 && exists|i: int|
                        0 <= i < j + 1 && transition_set(
                            ((batch.columns@[(#[trigger] tag_indicies@[i]) as int].values)->Utf8_0)@,
                        ).contains(x)) by {
                    if bitmap_set(union).contains(x) {
                        if u_before.contains(x) {
                            let i = choose|i: int|
                                0 <= i < j && transition_set(
                                    ((batch.columns@[(#[trigger] tag_indicies@[i]) as int].values)->Utf8_0)@,
                                ).contains(x);
                            assert(0 <= i < j + 1);
                        } else {
                            assert(0 <= j < j + 1);
                        }
                    }
                    if num_rows > 0 {
                        if exists|i: int|
                            0 <= i < j + 1 && transition_set(
                                ((batch.columns@[(#[trigger] tag_indicies@[i]) as int].values)->Utf8_0)@,
                            ).contains(x) {
                            let i = choose|i: int|
                                0 <= i < j + 1 && transition_set(
                                    ((batch.columns@[(#[trigger] tag_indicies@[i]) as int].values)->Utf8_0)@,
                                ).contains(x);
                            if i < j {
                                assert(u_before.contains(x));
                            }
                        }
                    }
                };
            }
            j = j + 1;
        }
        if tn == 0 {
            bitmap_add(&mut union, num_rows as u32);
        }
        let ends = bitmap_to_vec(&union);
        let en = ends.len();
        proof {
            let u = bitmap_set(union);
            // every mark lies in (0, num_rows]; marks below the row count
            // witness a changing tag column; unchanged rows bear no mark
            assert forall|i: int| 0 <= i < en implies 0 <= (#[trigger] ends@[i])
                <= num_rows by {
                assert(u.contains(ends@[i]));
            };
            assert forall|i: int| 0 <= i < en implies (tn > 0 ==> 1 <= (#[trigger] ends@[i])) by {
                assert(u.contains(ends@[i]));
            };
            assert forall|i: int|
                0 <= i < en implies ((#[trigger] ends@[i]) < num_rows ==> exists|q: int|
                0 <= q < tn && 1 <= ends@[i] && transition_differs(
                    *batch,
                    tag_indicies@[q] as int,
                    ends@[i] as int,
                )) by {
                assert(u.contains(ends@[i]));
                if ends@[i] < num_rows {
                    if tn == 0 {
                        assert(ends@[i] == num_rows);
                    } else {
                        let q = choose|q: int|
                            0 <= q < tn && transition_set(
                                ((batch.columns@[(#[trigger] tag_indicies@[q]) as int].values)->Utf8_0)@,
                            ).contains(ends@[i]);
                        assert(transition_differs(*batch, tag_indicies@[q] as int, ends@[i] as int));
                    }
                }
            };
            assert forall|r: u32|
                0 < r < num_rows && (forall|q: int|
                    0 <= q < tn ==> !transition_differs(
                        *batch,
                        (#[trigger] tag_indicies@[q]) as int,
                        r as int,
                    )) implies !ends@.contains(r) by {
                if ends@.contains(r) {
                    let i = choose|i: int| 0 <= i < ends@.len() && ends@[i] == r;
                    assert(u.contains(r));
                    if tn > 0 {
                        let q = choose|q: int|
                            0 <= q < tn && transition_set(
                                ((batch.columns@[(#[trigger] tag_indicies@[q]) as int].values)->Utf8_0)@,
                            ).contains(r);
                        assert(transition_differs(*batch, tag_indicies@[q] as int, r as int));
                    }
                }
            };
            if num_rows > 0 {
                assert(u.contains(num_rows as u32)) by {
                    if tn > 0 {
                        let vals = ((batch.columns@[tag_indicies@[0] as int].values)->Utf8_0)@;
                        assert(transition_set(vals).contains(num_rows as u32));
                    }
                };
                assert(ends@.contains(num_rows as u32));
                let i0 = choose|i: int| 0 <= i < ends@.len() && ends@[i] == num_rows as u32;
                assert(en > 0);
                assert(ends@[en - 1] == num_rows) by {
                    if i0 < en - 1 {
                        assert(ends@[i0] < ends@[en - 1]);
                        assert(u.contains(ends@[en - 1]));
                    }
                };
            }
            if tn == 0 {
                assert(en <= 1) by {
                    if en >= 2 {
                        assert(ends@[0] < ends@[1]);
                        assert(u.contains(ends@[0]));
                        assert(u.contains(ends@[1]));
                    }
                };
            }
            assert forall|r: u32|
                (0 < r < num_rows && exists|q: int|
                    0 <= q < tn && transition_differs(
                        *batch,
                        (#[trigger] tag_indicies@[q]) as int,
                        r as int,
                    )) implies #[trigger] ends@.contains(r) by {
                if 0 < r < num_rows {
                    if exists|q: int|
                        0 <= q < tn && transition_differs(
                            *batch,
                            (#[trigger] tag_indicies@[q]) as int,
                            r as int,
                        ) {
                        let q = choose|q: int|
                            0 <= q < tn && transition_differs(
                                *batch,
                                (#[trigger] tag_indicies@[q]) as int,
                                r as int,
                            );
                        let vals = ((batch.columns@[tag_indicies@[q] as int].values)->Utf8_0)@;
                        assert(transition_set(vals).contains(r));
                        assert(u.contains(r));
                    }
                }
            };
        }
        proof {
            assert forall|j2: int|
                0 <= j2 < tag_columns@.len() implies batch.columns@[col_index(
                batch.columns@,
                (#[trigger] tag_columns@[j2])@,
            ) as int].values is Utf8 by {
                assert(batch.columns@[tag_indicies@[j2] as int].values is Utf8);
            };
            assert(cols_ok(batches@[0], tag_columns@, field_columns@));
        }
        let sets = SeriesSetConverter::emit_sets(
            table_name,
            tag_columns,
            field_columns,
            batch,
            &tag_indicies,
            &field_indicies,
            timestamp_index,
            &ends,
        );
        Ok(sets)
    }

    /// Walks the ascending run marks and materialises one series set
    /// per run.
    #[verifier::rlimit(100)]
    fn emit_sets(
        table_name: &str,
        tag_columns: &Vec<String>,
        field_columns: &Vec<String>,
        batch: &RowBatch,
        tag_indicies: &Vec<usize>,
        field_indicies: &Vec<usize>,
        timestamp_index: usize,
        ends: &Vec<u32>,
    ) -> (sets: Vec<SeriesSet>)
        requires
            batch.wf(),
            batch.num_rows <= u32::MAX,
            tag_indicies@.len() == tag_columns@.len(),
            timestamp_index == col_index(batch.columns@, "time"@),
            field_indicies@.len() == field_columns@.len(),
            forall|i: int|
                0 <= i < field_indicies@.len() ==> (#[trigger] field_indicies@[i]) == col_index(
                    batch.columns@,
                    field_columns@[i]@,
                ),
            forall|i: int|
                0 <= i < tag_indicies@.len() ==> (#[trigger] tag_indicies@[i]) == col_index(
                    batch.columns@,
                    tag_columns@[i]@,
                ),
            forall|i: int|
                0 <= i < tag_indicies@.len() ==> col_index(
                    batch.columns@,
                    (#[trigger] tag_columns@[i])@,
                ) < batch.columns@.len(),
            forall|i: int|
                0 <= i < tag_indicies@.len() ==> (#[trigger] batch.columns@[tag_indicies@[i] as int]).values is Utf8,
            forall|i1: int, i2: int| 0 <= i1 < i2 < ends@.len() ==> ends@[i1] < ends@[i2],
            forall|i: int| 0 <= i < ends@.len() ==> 0 <= (#[trigger] ends@[i]) <= batch.num_rows,
            forall|i: int|
                0 <= i < ends@.len() ==> (tag_indicies@.len() > 0 ==> 1 <= (#[trigger] ends@[i])),
            forall|i: int|
                0 <= i < ends@.len() ==> ((#[trigger] ends@[i]) < batch.num_rows ==> exists|
                    q: int,
                |
                    0 <= q < tag_indicies@.len() && 1 <= ends@[i] && transition_differs(
                        *batch,
                        tag_indicies@[q] as int,
                        ends@[i] as int,
                    )),
            forall|r: u32|
                (0 < r < batch.num_rows && exists|q: int|
                    0 <= q < tag_indicies@.len() && transition_differs(
                        *batch,
                        (#[trigger] tag_indicies@[q]) as int,
                        r as int,
                    )) ==> #[trigger] ends@.contains(r),
            batch.num_rows > 0 ==> ends@.len() > 0 && ends@[ends@.len() - 1] == batch.num_rows,
            tag_indicies@.len() == 0 ==> ends@.len() <= 1,
        ensures
            convert_ok(table_name@, tag_columns@, field_columns@, *batch, sets@),
    {
        let num_rows = batch.num_rows;
        let tn = tag_indicies.len();
        let en = ends.len();
        let mut sets: Vec<SeriesSet> = Vec::new();
        let mut k: usize = 0;
        let mut start: u32 = 0;
        while k < en
            invariant
                k <= en,
                en == ends@.len(),
                batch.wf(),
                num_rows == batch.num_rows,
                num_rows <= u32::MAX,
                tn == tag_indicies@.len(),
                tn == tag_columns@.len(),
                timestamp_index == col_index(batch.columns@, "time"@),
                field_indicies@.len() == field_columns@.len(),
                forall|i: int|
                    0 <= i < field_indicies@.len() ==> (#[trigger] field_indicies@[i])
                        == col_index(batch.columns@, field_columns@[i]@),
                forall|i: int|
                    0 <= i < tn ==> (#[trigger] tag_indicies@[i]) == col_index(
                        batch.columns@,
                        tag_columns@[i]@,
                    ),
                forall|i: int|
                    0 <= i < tn ==> col_index(batch.columns@, (#[trigger] tag_columns@[i])@)
                        < batch.columns@.len(),
                forall|i: int|
                    0 <= i < tn ==> (#[trigger] batch.columns@[tag_indicies@[i] as int]).values
                        is Utf8,
                forall|i1: int, i2: int|
                    0 <= i1 < i2 < en ==> ends@[i1] < ends@[i2],
                forall|i: int|
                    0 <= i < en ==> 0 <= (#[trigger] ends@[i]) <= num_rows,
                forall|i: int|
                    0 <= i < en ==> (tn > 0 ==> 1 <= (#[trigger] ends@[i])),
                forall|i: int|
                    0 <= i < en ==> ((#[trigger] ends@[i]) < num_rows ==> exists|q: int|
                        0 <= q < tn && 1 <= ends@[i] && transition_differs(
                            *batch,
                            tag_indicies@[q] as int,
                            ends@[i] as int,
                        )),
                forall|r: u32|
                    (0 < r < num_rows && exists|q: int|
                        0 <= q < tn && transition_differs(
                            *batch,
                            (#[trigger] tag_indicies@[q]) as int,
                            r as int,
                        )) ==> #[trigger] ends@.contains(r),
                num_rows > 0 ==> en > 0 && ends@[en - 1] == num_rows,
                tn == 0 ==> en <= 1,
                sets@.len() == k,
                start == if k == 0 {
                    0u32
                } else {
                    ends@[k - 1]
                },
                forall|i: int|
                    0 <= i < k ==> {
                        let s = #[trigger] sets@[i];
                        &&& s.start_row == (if i == 0 {
                            0
                        } else {
                            ends@[i - 1] as int
                        })
                        &&& s.start_row + s.num_rows == ends@[i]
                        &&& s.table_name@ == table_name@
                        &&& s.timestamp_index == col_index(batch.columns@, "time"@)
                        &&& s.field_indices@ == field_indicies@
                        &&& batch_like(s.batch, *batch)
                        &&& s.tags@.len() == tag_columns@.len()
                        &&& (num_rows > 0 ==> forall|j2: int|
                            0 <= j2 < tn ==> ((#[trigger] s.tags@[j2]).0@ == tag_columns@[j2]@
                                && s.tags@[j2].1@ == col_str_at(
                                *batch,
                                col_index(batch.columns@, tag_columns@[j2]@) as int,
                                s.start_row as int,
                            )))
                    },
            decreases en - k,
        {
            let end = ends[k];
            let set_tags = if num_rows > 0 {
                SeriesSetConverter::get_tag_keys(
                    batch,
                    start as usize,
                    tag_columns,
                    &tag_indicies,
                )
            } else {
                Vec::new()
            };
            proof {
                if num_rows == 0 {
                    assert(tn == 0);
                    assert(tag_columns@.len() == 0);
                }
            }
            let set = SeriesSet {
                table_name: String::from_str(table_name),
                tags: set_tags,
                timestamp_index,
                field_indices: clone_indices(&field_indicies),
                start_row: start as usize,
                num_rows: (end - start) as usize,
                batch: clone_batch(batch),
            };
            sets.push(set);
            start = end;
            k = k + 1;
        }
        proof {
            assert(sets_tile(sets@, batch.num_rows as int)) by {
                if num_rows > 0 {
                    assert(en > 0);
                    assert(sets@[en - 1].start_row + sets@[en - 1].num_rows == ends@[en - 1]);
                }
                if sets@.len() > 0 {
                    assert(sets@[0].start_row == 0);
                    assert(sets@[sets@.len() - 1].start_row + sets@[sets@.len() - 1].num_rows
                        == ends@[en - 1]);
                    assert(ends@[en - 1] == num_rows) by {
                        if num_rows == 0 {
                            assert(0 <= ends@[en - 1] <= num_rows);
                        }
                    };
                }
            };
            if tag_columns@.len() == 0 {
                assert(sets@.len() <= 1);
            }
            assert forall|k2: int|
                0 <= k2 < sets@.len() implies (forall|r: int|
                #![trigger tags_constant_at(*batch, tag_columns@, r)]
                (#[trigger] sets@[k2]).start_row < r < sets@[k2].start_row + sets@[k2].num_rows
                    ==> tags_constant_at(*batch, tag_columns@, r)) by {
                assert forall|r: int|
                    #![trigger tags_constant_at(*batch, tag_columns@, r)]
                    sets@[k2].start_row < r < sets@[k2].start_row + sets@[k2].num_rows
                        implies tags_constant_at(*batch, tag_columns@, r) by {
                    let s = sets@[k2];
                    assert(s.start_row + s.num_rows == ends@[k2]);
                    assert(0 <= r < num_rows) by {
                        assert(ends@[k2] <= num_rows);
                    };
                    assert forall|q: int|
                        0 <= q < tag_columns@.len() implies col_str_at(
                        *batch,
                        col_index(batch.columns@, (#[trigger] tag_columns@[q])@) as int,
                        r,
                    ) == col_str_at(
                        *batch,
                        col_index(batch.columns@, tag_columns@[q]@) as int,
                        r - 1,
                    ) by {
                        if transition_differs(
                            *batch,
                            tag_indicies@[q] as int,
                            r,
                        ) {
                            assert(ends@.contains(r as u32));
                            let m = choose|m: int| 0 <= m < ends@.len() && ends@[m] == r as u32;
                            assert(ends@[m] < ends@[k2]);
                            assert(m < k2);
                            if k2 > 0 {
                                assert(s.start_row == ends@[k2 - 1]);
                                assert(ends@[m] > ends@[k2 - 1]);
                                assert(m > k2 - 1);
                            } else {
                                assert(s.start_row == 0);
                                assert(ends@[m] > 0);
                                assert(false) by {
                                    assert(ends@[m] < ends@[0] || m == 0);
                                    if m > 0 {
                                        assert(ends@[0] < ends@[m]);
                                    }
                                };
                            }
                        }
                    };
                };
            };
            assert(convert_ok(table_name@, tag_columns@, field_columns@, *batch, sets@));
        }
        sets
    }}

/// Converts row batches into grouped series sets. Grouped conversion
/// is not part of the core and is not offered yet; only the value
/// shapes it will produce are defined.
#[derive(Debug)]
pub struct GroupedSeriesSetConverter {
}

impl GroupedSeriesSetConverter {
    pub fn new() -> (c: GroupedSeriesSetConverter) {
        GroupedSeriesSetConverter {  }
    }
}

/// The two columns agree in name, type and values.
pub open spec fn col_like(a: Column, b: Column) -> bool {
    &&& a.name@ == b.name@
    &&& match (a.values, b.values) {
        (ColumnValues::Utf8(x), ColumnValues::Utf8(y)) => x@.len() == y@.len() && forall|r: int|
            0 <= r < x@.len() ==> (#[trigger] x@[r])@ == y@[r]@,
        (ColumnValues::I64(x), ColumnValues::I64(y)) => x@ == y@,
        (ColumnValues::F64(x), ColumnValues::F64(y)) => x@ == y@,
        _ => false,
    }
}

/// The two batches hold the same rows: same row count and pointwise
/// alike columns.
pub open spec fn batch_like(a: RowBatch, b: RowBatch) -> bool {
    &&& a.num_rows == b.num_rows
    &&& a.columns@.len() == b.columns@.len()
    &&& forall|i: int|
        0 <= i < a.columns@.len() ==> col_like(#[trigger] a.columns@[i], b.columns@[i])
}

/// Copies a vector of column indices.
fn clone_indices(v: &Vec<usize>) -> (r: Vec<usize>)
    ensures
        r@ == v@,
{
    let mut r: Vec<usize> = Vec::new();
    let n = v.len();
    let mut i: usize = 0;
    while i < n
        invariant
            i <= n,
            n == v@.len(),
            r@ == v@.take(i as int),
        decreases n - i,
    {
        r.push(v[i]);
        proof {
            assert(v@.take(i as int + 1) =~= v@.take(i as int).push(v@[i as int]));
        }
        i = i + 1;
    }
    proof {
        assert(v@.take(n as int) =~= v@);
    }
    r
}

/// Copies a batch, row for row.
fn clone_batch(b: &RowBatch) -> (r: RowBatch)
    ensures
        batch_like(r, *b),
{
    let mut columns: Vec<Column> = Vec::new();
    let n = b.columns.len();
    let mut i: usize = 0;
    while i < n
        invariant
            i <= n,
            n == b.columns@.len(),
            columns@.len() == i,
            forall|j: int| 0 <= j < i ==> col_like(#[trigger] columns@[j], b.columns@[j]),
        decreases n - i,
    {
        let c = &b.columns[i];
        let values = match &c.values {
            ColumnValues::Utf8(v) => ColumnValues::Utf8(clone_string_vec(v)),
            ColumnValues::I64(v) => ColumnValues::I64(clone_i64_vec(v)),
            ColumnValues::F64(v) => ColumnValues::F64(clone_u64_vec(v)),
        };
        columns.push(Column { name: c.name.clone(), values });
        i = i + 1;
    }
    RowBatch { num_rows: b.num_rows, columns }
}

fn clone_string_vec(v: &Vec<String>) -> (r: Vec<String>)
    ensures
        r@.len() == v@.len(),
        forall|i: int| 0 <= i < v@.len() ==> (#[trigger] r@[i])@ == v@[i]@,
{
    let mut r: Vec<String> = Vec::new();
    let n = v.len();
    let mut i: usize = 0;
    while i < n
        invariant
            i <= n,
            n == v@.len(),
            r@.len() == i,
            forall|j: int| 0 <= j < i ==> (#[trigger] r@[j])@ == v@[j]@,
        decreases n - i,
    {
        r.push(v[i].clone());
        i = i + 1;
    }
    r
}

fn clone_i64_vec(v: &Vec<i64>) -> (r: Vec<i64>)
    ensures
        r@ == v@,
{
    let mut r: Vec<i64> = Vec::new();
    let n = v.len();
    let mut i: usize = 0;
    while i < n
        invariant
            i <= n,
            n == v@.len(),
            r@ == v@.take(i as int),
        decreases n - i,
    {
        r.push(v[i]);
        proof {
            assert(v@.take(i as int + 1) =~= v@.take(i as int).push(v@[i as int]));
        }
        i = i + 1;
    }
    proof {
        assert(v@.take(n as int) =~= v@);
    }
    r
}

fn clone_u64_vec(v: &Vec<u64>) -> (r: Vec<u64>)
    ensures
        r@ == v@,
{
    let mut r: Vec<u64> = Vec::new();
    let n = v.len();
    let mut i: usize = 0;
    while i < n
        invariant
            i <= n,
            n == v@.len(),
            r@ == v@.take(i as int),
        decreases n - i,
    {
        r.push(v[i]);
        proof {
            assert(v@.take(i as int + 1) =~= v@.take(i as int).push(v@[i as int]));
        }
        i = i + 1;
    }
    proof {
        assert(v@.take(n as int) =~= v@);
    }
    r
}

/// Whether the tag column at `ci` changes value at row `r`.
pub open spec fn transition_differs(batch: RowBatch, ci: int, r: int) -> bool {
    col_str_at(batch, ci, r) != col_str_at(batch, ci, r - 1)
}

/// Finds the first column of `batch` named `name`.
fn find_column(batch: &RowBatch, name: &str) -> (i: usize)
    ensures
        i == col_index(batch.columns@, name@),
        i <= batch.columns@.len(),
{
    proof {
        lemma_col_index(batch.columns@, name@);
    }
    let n = batch.columns.len();
    let mut i: usize = 0;
    while i < n
        invariant
            i <= n,
            n == batch.columns@.len(),
            col_index(batch.columns@, name@) <= batch.columns@.len(),
            col_index(batch.columns@, name@) < batch.columns@.len() ==> batch.columns@[col_index(
                batch.columns@,
                name@,
            ) as int].name@ == name@,
            forall|j: int|
                0 <= j < col_index(batch.columns@, name@) ==> (#[trigger] batch.columns@[j]).name@
                    != name@,
            forall|j: int| 0 <= j < i ==> (#[trigger] batch.columns@[j]).name@ != name@,
        decreases n - i,
    {
        if crate::ordering::str_compare(batch.columns[i].name.as_str(), name)
            == crate::ordering::KeyOrder::Equal {
            return i;
        }
        i = i + 1;
    }
    i
}

} // verus!
