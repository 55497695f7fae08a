//! The shape check on a table of observations read from CSV: every row must
//! parse and have as many columns as the first, and the rows must have at
//! least one column.

use vstd::prelude::*;

verus! {

/// What reading one CSV row gave
#[derive(Debug, Clone, Copy, PartialEq, Eq)]
pub enum CsvRowShape {
    /// The CSV reader could not read the record
    RecordError,
    /// A cell of the record is not a number
    FloatError,
    /// Every cell parsed; the row has this many columns
    Columns(usize),
}

/// Why a table of observations has no usable shape
#[derive(Debug, Clone, Copy, PartialEq, Eq)]
pub enum ObservationShapeError {
    /// The CSV reader failed on this one-based row
    Record { row: usize },
    /// A cell of this one-based row is not a number
    Float { row: usize },
    /// This one-based row has a different number of columns than the first
    WidthMismatch { row: usize, got: usize, expected: usize },
    /// The rows have no columns at all
    ZeroColumns,
}

/// Row `i` parsed and has as many columns as the first row
pub open spec fn row_fine(rows: Seq<CsvRowShape>, i: int) -> bool {
    &&& rows[i] matches CsvRowShape::Columns(w)
    &&& rows[0] matches CsvRowShape::Columns(w0)
    &&& w == w0
}

/// Row `k` is the first row that is not fine
pub open spec fn first_bad_row(rows: Seq<CsvRowShape>, k: int) -> bool {
    &&& 0 <= k < rows.len()
    &&& !row_fine(rows, k)
    &&& forall|j: int| 0 <= j < k ==> #[trigger] row_fine(rows, j)
}

/// The error reported for row `k`
pub open spec fn error_at(rows: Seq<CsvRowShape>, k: int) -> ObservationShapeError {
    match rows[k] {
        CsvRowShape::RecordError => ObservationShapeError::Record { row: (k + 1) as usize },
        CsvRowShape::FloatError => ObservationShapeError::Float { row: (k + 1) as usize },
        CsvRowShape::Columns(w) => ObservationShapeError::WidthMismatch {
            row: (k + 1) as usize,
            got: w,
            expected: rows[0]->Columns_0,
        },
    }
}

/// The shape of the observations table, `(samples, features)`. Rows are
/// checked in order and the first bad one is reported: a row the reader
/// failed on, a row with a non-number, or a row whose width differs from
/// the first. An empty table has shape `(0, 0)`; rows of zero columns are
/// refused.
pub fn observation_shape(rows: &Vec<CsvRowShape>) -> (r: Result<(usize, usize), ObservationShapeError>)
    ensures
        (exists|k: int| first_bad_row(rows@, k)) ==> exists|k: int|
            first_bad_row(rows@, k) && r == Err::<(usize, usize), ObservationShapeError>(error_at(rows@, k)),
        (forall|i: int| 0 <= i < rows@.len() ==> row_fine(rows@, i)) ==> r == if rows@.len() == 0 {
            Ok::<(usize, usize), ObservationShapeError>((0, 0))
        } else if rows@[0]->Columns_0 == 0 {
            Err(ObservationShapeError::ZeroColumns)
        } else {
            Ok((rows@.len() as usize, rows@[0]->Columns_0))
        },
{
    let mut expected: usize = 0;
    let mut i: usize = 0;
    while i < rows.len()
        invariant
            i <= rows@.len(),
            forall|j: int| 0 <= j < i ==> #[trigger] row_fine(rows@, j),
            i > 0 ==> (rows@[0] matches CsvRowShape::Columns(w0) && expected == w0),
        decreases rows@.len() - i,
    {
        match rows[i] {
            CsvRowShape::RecordError => {
                assert(first_bad_row(rows@, i as int));
                return Err(ObservationShapeError::Record { row: i + 1 });
            },
            CsvRowShape::FloatError => {
                assert(first_bad_row(rows@, i as int));
                return Err(ObservationShapeError::Float { row: i + 1 });
            },
            CsvRowShape::Columns(w) => {
                if i == 0 {
                    expected = w;
                } else if w != expected {
                    assert(first_bad_row(rows@, i as int));
                    return Err(ObservationShapeError::WidthMismatch { row: i + 1, got: w, expected });
                }
            },
        }
        i = i + 1;
    }
    proof {
        assert forall|k: int| !first_bad_row(rows@, k) by {
            if 0 <= k < rows@.len() {
                assert(row_fine(rows@, k));
            }
        }
    }
    if rows.len() == 0 {
        Ok((0, 0))
    } else if expected == 0 {
        Err(ObservationShapeError::ZeroColumns)
    } else {
        Ok((rows.len(), expected))
    }
}

} // verus!
