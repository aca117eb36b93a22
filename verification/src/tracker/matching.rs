//! Detections, cost matrices, and the step from a solved assignment to the
//! pairs that the tracker accepts.

use vstd::prelude::*;
use crate::tracker::rect::Rect;
use crate::tracker::single::Single;

verus! {

/// Bit pattern of the cost 1e6 that pads a cost matrix to a square.
pub const PADDING_BITS: u32 = 0x4974_2400;

/// One observation of a detector: a box and a confidence.
#[derive(Clone, Copy, Debug)]
pub struct Detection {
    /// Bounding box.
    pub bbox: Rect,
    /// Confidence of the detection.
    pub score: Single,
}

impl Detection {
    pub fn from_rect(bbox: Rect, score: Single) -> (d: Detection)
        ensures
            d.bbox == bbox,
            d.score == score,
    {
        Detection { bbox, score }
    }
}

/// A matrix of costs with a row for each track and a column for each
/// detection. It keeps its number of columns also when it has no row.
#[derive(Debug)]
pub struct CostMatrix {
    rows: Vec<Vec<Single>>,
    cols: usize,
}

impl CostMatrix {
    #[verifier::type_invariant]
    spec fn rectangular(&self) -> bool {
        forall|i: int| 0 <= i < self.rows@.len() ==> (#[trigger] self.rows@[i]).len() == self.cols
    }

    /// Number of rows.
    pub closed spec fn nrows(&self) -> nat {
        self.rows@.len()
    }

    /// Number of columns.
    pub closed spec fn ncols(&self) -> nat {
        self.cols as nat
    }

    /// The entry in row `i` and column `j`.
    pub closed spec fn at(&self, i: int, j: int) -> Single {
        self.rows@[i]@[j]
    }

    /// The square of side `max(nrows, ncols)` that holds the matrix in its
    /// top-left corner and the padding cost everywhere else.
    pub open spec fn is_padding_of(&self, inner: &CostMatrix) -> bool {
        let size = if inner.nrows() >= inner.ncols() {
            inner.nrows()
        } else {
            inner.ncols()
        };
        &&& self.nrows() == size
        &&& self.ncols() == size
        &&& forall|i: int, j: int|
            0 <= i < size && 0 <= j < size ==> #[trigger] self.at(i, j) == (if i < inner.nrows()
                && j < inner.ncols() {
                inner.at(i, j)
            } else {
                Single { bits: PADDING_BITS }
            })
    }

    /// The matrix with the given rows, if each of them has `cols` entries.
    pub fn from_rows(rows: Vec<Vec<Single>>, cols: usize) -> (m: Option<CostMatrix>)
        ensures
            m is Some <==> forall|i: int| 0 <= i < rows@.len() ==> (#[trigger] rows@[i]).len() == cols,
            m matches Some(m) ==> {
                &&& m.nrows() == rows@.len()
                &&& m.ncols() == cols
                &&& forall|i: int, j: int|
                    0 <= i < rows@.len() && 0 <= j < cols ==> #[trigger] m.at(i, j) == rows@[i]@[j]
            },
    {
        let n: usize = rows.len();
        let mut i: usize = 0;
        while i < n
            invariant
                i <= n,
                n == rows@.len(),
                forall|k: int| 0 <= k < i ==> (#[trigger] rows@[k]).len() == cols,
            decreases n - i,
        {
            if rows[i].len() != cols {
                return None;
            }
            i = i + 1;
        }
        Some(CostMatrix { rows, cols })
    }

    /// Number of rows and of columns.
    pub fn dim(&self) -> (d: (usize, usize))
        ensures
            d.0 == self.nrows(),
            d.1 == self.ncols(),
    {
        (self.rows.len(), self.cols)
    }

    /// The entry in row `i` and column `j`.
    pub fn get(&self, i: usize, j: usize) -> (c: Single)
        requires
            i < self.nrows(),
            j < self.ncols(),
        ensures
            c == self.at(i as int, j as int),
    {
        proof {
            use_type_invariant(self);
        }
        self.rows[i][j]
    }

    /// The matrix that a solver for square problems is to be run on: `None`
    /// where the matrix has no row or no column, so that nothing is to be
    /// solved, and else the matrix padded to a square.
    pub fn padded(&self) -> (p: Option<CostMatrix>)
        ensures
            p is None <==> self.nrows() == 0 || self.ncols() == 0,
            p matches Some(p) ==> p.is_padding_of(self),
    {
        proof {
            use_type_invariant(self);
        }
        let num_rows: usize = self.rows.len();
        let num_cols: usize = self.cols;
        if num_rows == 0 || num_cols == 0 {
            return None;
        }
        let size: usize = if num_rows >= num_cols {
            num_rows
        } else {
            num_cols
        };
        let mut rows: Vec<Vec<Single>> = Vec::new();
        let mut i: usize = 0;
        while i < size
            invariant
                i <= size,
                num_rows == self.rows@.len(),
                num_cols == self.cols,
                num_rows <= size,
                num_cols <= size,
                self.rectangular(),
                rows@.len() == i,
                forall|k: int| 0 <= k < i ==> (#[trigger] rows@[k]).len() == size,
                forall|k: int, j: int|
                    0 <= k < i && 0 <= j < size ==> #[trigger] rows@[k]@[j] == (if k < num_rows && j
                        < num_cols {
                        self.rows@[k]@[j]
                    } else {
                        Single { bits: PADDING_BITS }
                    }),
            decreases size - i,
        {
            let mut row: Vec<Single> = Vec::new();
            let mut j: usize = 0;
            while j < size
                invariant
                    j <= size,
                    i < size,
                    num_rows == self.rows@.len(),
                    num_cols == self.cols,
                    self.rectangular(),
                    row@.len() == j,
                    forall|c: int|
                        0 <= c < j ==> #[trigger] row@[c] == (if i < num_rows && c < num_cols {
                            self.rows@[i as int]@[c]
                        } else {
                            Single { bits: PADDING_BITS }
                        }),
                decreases size - j,
            {
                if i < num_rows && j < num_cols {
                    row.push(self.rows[i][j]);
                } else {
                    row.push(Single { bits: PADDING_BITS });
                }
                j = j + 1;
            }
            rows.push(row);
            i = i + 1;
        }
        Some(CostMatrix { rows, cols: size })
    }
}

/// Pairs of a row and a column, and the rows and columns left without one.
#[derive(Debug, Clone)]
pub struct AssignmentResult {
    pub matches: Vec<(usize, usize)>,
    pub unmatched_tracks: Vec<usize>,
    pub unmatched_detections: Vec<usize>,
}

/// What an `AssignmentResult` holds, as sequences.
pub struct Assignment {
    pub matches: Seq<(usize, usize)>,
    pub unmatched_tracks: Seq<usize>,
    pub unmatched_detections: Seq<usize>,
}

impl View for AssignmentResult {
    type V = Assignment;

    open spec fn view(&self) -> Assignment {
        Assignment {
            matches: self.matches@,
            unmatched_tracks: self.unmatched_tracks@,
            unmatched_detections: self.unmatched_detections@,
        }
    }
}

impl Assignment {
    /// No row and no column occurs twice: the matched rows, the unmatched
    /// rows and the unmatched columns each come in increasing order, the
    /// matched columns differ from each other, and no unmatched row or column
    /// is a matched one. Rows are below `rows`, columns below `cols`, and
    /// every row is either matched or unmatched.
    pub open spec fn is_one_to_one(self, rows: nat, cols: nat) -> bool {
        &&& forall|a: int|
            0 <= a < self.matches.len() ==> (#[trigger] self.matches[a]).0 < rows
                && self.matches[a].1 < cols
        &&& forall|a: int, b: int|
            0 <= a < b < self.matches.len() ==> (#[trigger] self.matches[a]).0 < (
            #[trigger] self.matches[b]).0 && self.matches[a].1 != self.matches[b].1
        &&& forall|a: int|
            0 <= a < self.unmatched_tracks.len() ==> (#[trigger] self.unmatched_tracks[a]) < rows
        &&& forall|a: int, b: int|
            0 <= a < b < self.unmatched_tracks.len() ==> (#[trigger] self.unmatched_tracks[a]) < (
            #[trigger] self.unmatched_tracks[b])
        &&& forall|a: int|
            0 <= a < self.unmatched_detections.len() ==> (#[trigger] self.unmatched_detections[a])
                < cols
        &&& forall|a: int, b: int|
            0 <= a < b < self.unmatched_detections.len() ==> (
            #[trigger] self.unmatched_detections[a]) < (#[trigger] self.unmatched_detections[b])
        &&& forall|a: int, b: int|
            0 <= a < self.matches.len() && 0 <= b < self.unmatched_tracks.len() ==> (
            #[trigger] self.matches[a]).0 != #[trigger] self.unmatched_tracks[b]
        &&& forall|a: int, b: int|
            0 <= a < self.matches.len() && 0 <= b < self.unmatched_detections.len() ==> (
            #[trigger] self.matches[a]).1 != #[trigger] self.unmatched_detections[b]
        &&& self.matches.len() + self.unmatched_tracks.len() == rows
        &&& self.unmatched_detections.len() <= cols
    }
}

/// The indices below `n`, in order.
pub open spec fn indices(n: nat) -> Seq<usize> {
    Seq::new(n, |i: int| i as usize)
}

/// Whether `solution` gives each of `size` rows a column below `size` of its
/// own.
pub open spec fn is_assignment(solution: Seq<usize>, size: nat) -> bool {
    &&& solution.len() == size
    &&& forall|i: int| 0 <= i < size ==> (#[trigger] solution[i]) < size
    &&& forall|i: int, j: int|
        0 <= i < j < size ==> (#[trigger] solution[i]) != (#[trigger] solution[j])
}

/// What a solver returned, as a sequence.
pub open spec fn solution_view(solution: &Option<Vec<usize>>) -> Option<Seq<usize>> {
    match solution {
        Some(v) => Some(v@),
        None => None,
    }
}

impl CostMatrix {
    /// Side of the padded square.
    pub open spec fn side(&self) -> nat {
        if self.nrows() >= self.ncols() {
            self.nrows()
        } else {
            self.ncols()
        }
    }

    /// Whether the column that `solution` proposes for `row` is one of the
    /// matrix, at a cost of at most `thresh`.
    pub open spec fn accepts(&self, thresh: Single, solution: Seq<usize>, row: int) -> bool {
        solution[row] < self.ncols() && self.at(row, solution[row] as int).spec_le(thresh)
    }

    /// Whether one of the first `upto` rows is accepted with column `col`.
    pub open spec fn takes_before(
        &self,
        thresh: Single,
        solution: Seq<usize>,
        col: int,
        upto: int,
    ) -> bool {
        exists|i: int|
            0 <= i < upto && #[trigger] self.accepts(thresh, solution, i) && solution[i] == col
    }

    /// Whether a row is accepted with column `col`.
    pub open spec fn takes(&self, thresh: Single, solution: Seq<usize>, col: int) -> bool {
        self.takes_before(thresh, solution, col, self.nrows() as int)
    }
}

/// The pair of a row with its proposed column, where that is accepted.
pub open spec fn pair_of(cost: &CostMatrix, thresh: Single, solution: Seq<usize>) -> spec_fn(
    usize,
) -> Option<(usize, usize)> {
    |i: usize|
        if cost.accepts(thresh, solution, i as int) {
            Some((i, solution[i as int]))
        } else {
            None
        }
}

/// A row whose proposed column is not accepted.
pub open spec fn row_left(cost: &CostMatrix, thresh: Single, solution: Seq<usize>) -> spec_fn(
    usize,
) -> Option<usize> {
    |i: usize|
        if cost.accepts(thresh, solution, i as int) {
            None
        } else {
            Some(i)
        }
}

/// A column that no row is accepted with.
pub open spec fn col_left(cost: &CostMatrix, thresh: Single, solution: Seq<usize>) -> spec_fn(
    usize,
) -> Option<usize> {
    |j: usize|
        if cost.takes(thresh, solution, j as int) {
            None
        } else {
            Some(j)
        }
}

/// The matches and leftovers for a cost matrix, a threshold and what the
/// solver returned for the padded matrix.
///
/// With no row or no column everything on the other side is unmatched. A
/// solution that is no one-to-one assignment of the padded square counts as
/// the solver's failure: everything is unmatched. Else row `i` is matched to
/// its column `solution[i]` where that is a column of the matrix and the cost
/// is at most `thresh`; the other rows, and the columns that no row was
/// matched to, are unmatched. All three come in increasing order.
pub open spec fn spec_linear_assignment(
    cost: &CostMatrix,
    thresh: Single,
    solution: Option<Seq<usize>>,
) -> Assignment {
    if cost.nrows() == 0 {
        Assignment {
            matches: Seq::empty(),
            unmatched_tracks: Seq::empty(),
            unmatched_detections: indices(cost.ncols()),
        }
    } else if cost.ncols() == 0 {
        Assignment {
            matches: Seq::empty(),
            unmatched_tracks: indices(cost.nrows()),
            unmatched_detections: Seq::empty(),
        }
    } else if solution is Some && is_assignment(solution->0, cost.side()) {
        Assignment {
            matches: indices(cost.nrows()).filter_map(pair_of(cost, thresh, solution->0)),
            unmatched_tracks: indices(cost.nrows()).filter_map(row_left(cost, thresh, solution->0)),
            unmatched_detections: indices(cost.ncols()).filter_map(
                col_left(cost, thresh, solution->0),
            ),
        }
    } else {
        Assignment {
            matches: Seq::empty(),
            unmatched_tracks: indices(cost.nrows()),
            unmatched_detections: indices(cost.ncols()),
        }
    }
}

/// The indices below `n`, in order.
pub fn all_indices(n: usize) -> (v: Vec<usize>)
    ensures
        v@ == indices(n as nat),
{
    let mut v: Vec<usize> = Vec::new();
    let mut i: usize = 0;
    while i < n
        invariant
            i <= n,
            v@ == indices(i as nat),
        decreases n - i,
    {
        v.push(i);
        i = i + 1;
        assert(v@ =~= indices(i as nat));
    }
    v
}

/// Whether `solution` gives each of `size` rows a column below `size` of its
/// own.
pub fn is_valid_assignment(solution: &Vec<usize>, size: usize) -> (valid: bool)
    ensures
        valid == is_assignment(solution@, size as nat),
{
    if solution.len() != size {
        return false;
    }
    let mut seen: Vec<bool> = Vec::new();
    let mut c: usize = 0;
    while c < size
        invariant
            c <= size,
            seen@.len() == c,
            forall|k: int| 0 <= k < c ==> !(#[trigger] seen@[k]),
        decreases size - c,
    {
        seen.push(false);
        c = c + 1;
    }
    let mut i: usize = 0;
    while i < size
        invariant
            i <= size,
            solution@.len() == size,
            seen@.len() == size,
            forall|k: int| 0 <= k < i ==> (#[trigger] solution@[k]) < size,
            forall|k: int, l: int|
                0 <= k < l < i ==> (#[trigger] solution@[k]) != (#[trigger] solution@[l]),
            forall|k: int| 0 <= k < i ==> seen@[(#[trigger] solution@[k]) as int],
            forall|col: int|
                0 <= col < size && #[trigger] seen@[col] ==> exists|k: int|
                    0 <= k < i && #[trigger] solution@[k] == col,
        decreases size - i,
    {
        let col: usize = solution[i];
        if col >= size {
            return false;
        }
        if seen[col] {
            proof {
                let k = choose|k: int| 0 <= k < i && #[trigger] solution@[k] == col;
                assert(solution@[k] == solution@[i as int]);
            }
            return false;
        }
        seen.set(col, true);
        i = i + 1;
    }
    true
}

/// Turns what the solver returned for the padded cost matrix into matches and
/// leftovers. The caller runs the solver on `cost_matrix.padded()` and hands
/// in the column it gives each row, or `None` where it failed or had nothing
/// to solve.
pub fn linear_assignment(
    cost_matrix: &CostMatrix,
    thresh: Single,
    solution: &Option<Vec<usize>>,
) -> (result: AssignmentResult)
    ensures
        result@ == spec_linear_assignment(cost_matrix, thresh, solution_view(solution)),
        result@.is_one_to_one(cost_matrix.nrows(), cost_matrix.ncols()),
        forall|a: int|
            0 <= a < result.matches@.len() ==> cost_matrix.at(
                (#[trigger] result.matches@[a]).0 as int,
                result.matches@[a].1 as int,
            ).spec_le(thresh),
{
    let (num_rows, num_cols) = cost_matrix.dim();
    if num_rows == 0 {
        return AssignmentResult {
            matches: Vec::new(),
            unmatched_tracks: Vec::new(),
            unmatched_detections: all_indices(num_cols),
        };
    }
    if num_cols == 0 {
        return AssignmentResult {
            matches: Vec::new(),
            unmatched_tracks: all_indices(num_rows),
            unmatched_detections: Vec::new(),
        };
    }
    let size: usize = if num_rows >= num_cols {
        num_rows
    } else {
        num_cols
    };
    let row_to_col: &Vec<usize> = match solution {
        Some(v) => v,
        None => {
            return AssignmentResult {
                matches: Vec::new(),
                unmatched_tracks: all_indices(num_rows),
                unmatched_detections: all_indices(num_cols),
            };
        },
    };
    if !is_valid_assignment(row_to_col, size) {
        return AssignmentResult {
            matches: Vec::new(),
            unmatched_tracks: all_indices(num_rows),
            unmatched_detections: all_indices(num_cols),
        };
    }
    let ghost sol = row_to_col@;
    let ghost rows = indices(num_rows as nat);
    let ghost cols = indices(num_cols as nat);
    let mut matches: Vec<(usize, usize)> = Vec::new();
    let mut unmatched_tracks: Vec<usize> = Vec::new();
    let mut free: Vec<bool> = Vec::new();
    let mut c: usize = 0;
    while c < num_cols
        invariant
            c <= num_cols,
            free@.len() == c,
            forall|k: int| 0 <= k < c ==> #[trigger] free@[k],
        decreases num_cols - c,
    {
        free.push(true);
        c = c + 1;
    }
    let mut i: usize = 0;
    while i < num_rows
        invariant
            i <= num_rows,
            num_rows == cost_matrix.nrows(),
            num_cols == cost_matrix.ncols(),
            num_rows <= size,
            sol == row_to_col@,
            is_assignment(sol, size as nat),
            rows == indices(num_rows as nat),
            free@.len() == num_cols,
            matches@ == rows.take(i as int).filter_map(pair_of(cost_matrix, thresh, sol)),
            unmatched_tracks@ == rows.take(i as int).filter_map(row_left(cost_matrix, thresh, sol)),
            forall|j: int|
                0 <= j < num_cols ==> (#[trigger] free@[j]) == !cost_matrix.takes_before(
                    thresh,
                    sol,
                    j,
                    i as int,
                ),
            matches@.len() + unmatched_tracks@.len() == i,
            forall|a: int|
                0 <= a < matches@.len() ==> {
                    &&& (#[trigger] matches@[a]).0 < i
                    &&& matches@[a].1 < num_cols
                    &&& matches@[a].1 == sol[matches@[a].0 as int]
                    &&& cost_matrix.accepts(thresh, sol, matches@[a].0 as int)
                    &&& cost_matrix.at(matches@[a].0 as int, matches@[a].1 as int).spec_le(thresh)
                },
            forall|a: int, b: int|
                0 <= a < b < matches@.len() ==> (#[trigger] matches@[a]).0 < (
                #[trigger] matches@[b]).0,
            forall|a: int|
                0 <= a < unmatched_tracks@.len() ==> (#[trigger] unmatched_tracks@[a]) < i
                    && !cost_matrix.accepts(thresh, sol, unmatched_tracks@[a] as int),
            forall|a: int, b: int|
                0 <= a < b < unmatched_tracks@.len() ==> (#[trigger] unmatched_tracks@[a]) < (
                #[trigger] unmatched_tracks@[b]),
        decreases num_rows - i,
    {
        proof {
            rows.lemma_filter_map_take_succ(pair_of(cost_matrix, thresh, sol), i as int);
            rows.lemma_filter_map_take_succ(row_left(cost_matrix, thresh, sol), i as int);
            assert(rows[i as int] == i);
        }
        let col: usize = row_to_col[i];
        let ghost before = free@;
        if col < num_cols && cost_matrix.get(i, col).le(thresh) {
            matches.push((i, col));
            free.set(col, false);
            proof {
                assert(cost_matrix.accepts(thresh, sol, i as int));
                assert forall|j: int| 0 <= j < num_cols implies (#[trigger] free@[j])
                    == !cost_matrix.takes_before(thresh, sol, j, i + 1) by {
                    if j == col {
                        assert(cost_matrix.accepts(thresh, sol, i as int) && sol[i as int] == j);
                    } else {
                        assert(free@[j] == before[j]);
                        if cost_matrix.takes_before(thresh, sol, j, i + 1) {
                            let w = choose|w: int|
                                0 <= w < i + 1 && #[trigger] cost_matrix.accepts(thresh, sol, w)
                                    && sol[w] == j;
                            assert(w < i);
                        }
                    }
                }
            }
        } else {
            unmatched_tracks.push(i);
            proof {
                assert(!cost_matrix.accepts(thresh, sol, i as int));
                assert forall|j: int| 0 <= j < num_cols implies (#[trigger] free@[j])
                    == !cost_matrix.takes_before(thresh, sol, j, i + 1) by {
                    if cost_matrix.takes_before(thresh, sol, j, i + 1) {
                        let w = choose|w: int|
                            0 <= w < i + 1 && #[trigger] cost_matrix.accepts(thresh, sol, w)
                                && sol[w] == j;
                        assert(w < i);
                    }
                }
            }
        }
        i = i + 1;
    }
    proof {
        assert(rows.take(num_rows as int) =~= rows);
        assert forall|a: int, b: int| 0 <= a < b < matches@.len() implies (
        #[trigger] matches@[a]).1 != (#[trigger] matches@[b]).1 by {
            assert(sol[matches@[a].0 as int] != sol[matches@[b].0 as int]);
        }
    }
    let mut unmatched_detections: Vec<usize> = Vec::new();
    let mut j: usize = 0;
    while j < num_cols
        invariant
            j <= num_cols,
            num_rows == cost_matrix.nrows(),
            num_cols == cost_matrix.ncols(),
            cols == indices(num_cols as nat),
            free@.len() == num_cols,
            forall|k: int|
                0 <= k < num_cols ==> (#[trigger] free@[k]) == !cost_matrix.takes(thresh, sol, k),
            unmatched_detections@ == cols.take(j as int).filter_map(
                col_left(cost_matrix, thresh, sol),
            ),
            forall|a: int|
                0 <= a < unmatched_detections@.len() ==> (#[trigger] unmatched_detections@[a]) < j
                    && !cost_matrix.takes(thresh, sol, unmatched_detections@[a] as int),
            forall|a: int, b: int|
                0 <= a < b < unmatched_detections@.len() ==> (#[trigger] unmatched_detections@[a])
                    < (#[trigger] unmatched_detections@[b]),
            unmatched_detections@.len() <= j,
        decreases num_cols - j,
    {
        proof {
            cols.lemma_filter_map_take_succ(col_left(cost_matrix, thresh, sol), j as int);
            assert(cols[j as int] == j);
        }
        if free[j] {
            unmatched_detections.push(j);
        }
        j = j + 1;
    }
    proof {
        assert(cols.take(num_cols as int) =~= cols);
        assert forall|a: int, b: int|
            0 <= a < matches@.len() && 0 <= b < unmatched_detections@.len() implies (
        #[trigger] matches@[a]).1 != #[trigger] unmatched_detections@[b] by {
            assert(cost_matrix.accepts(thresh, sol, matches@[a].0 as int));
        }
    }
    AssignmentResult { matches, unmatched_tracks, unmatched_detections }
}

/// What `filter_map` keeps comes from the sequence it is applied to, in the
/// same order.
pub proof fn lemma_mapped<A, B>(src: Seq<A>, f: spec_fn(A) -> Option<B>)
    ensures
        src.filter_map(f).len() <= src.len(),
        forall|k: int|
            0 <= k < src.filter_map(f).len() ==> exists|l: int|
                0 <= l < src.len() && f(#[trigger] src[l]) == Some(#[trigger] src.filter_map(f)[k]),
        forall|k1: int, k2: int|
            0 <= k1 < k2 < src.filter_map(f).len() ==> exists|l1: int, l2: int|
                0 <= l1 < l2 < src.len() && f(#[trigger] src[l1]) == Some(
                    #[trigger] src.filter_map(f)[k1],
                ) && f(#[trigger] src[l2]) == Some(#[trigger] src.filter_map(f)[k2]),
        (forall|l: int| 0 <= l < src.len() ==> f(#[trigger] src[l]) is None) ==> src.filter_map(
            f,
        ).len() == 0,
    decreases src.len(),
{
    let r = src.filter_map(f);
    if src.len() == 0 {
    } else {
        let rest = src.drop_last();
        let before = rest.filter_map(f);
        lemma_mapped(rest, f);
        let n = src.len() - 1;
        assert forall|k: int| 0 <= k < r.len() implies exists|l: int|
            0 <= l < src.len() && f(#[trigger] src[l]) == Some(#[trigger] r[k]) by {
            if k < before.len() {
                let l = choose|l: int| 0 <= l < rest.len() && f(#[trigger] rest[l]) == Some(before[k]);
                assert(src[l] == rest[l]);
            } else {
                assert(f(src[n]) == Some(r[k]));
            }
        }
        assert forall|k1: int, k2: int| 0 <= k1 < k2 < r.len() implies exists|l1: int, l2: int|
            0 <= l1 < l2 < src.len() && f(#[trigger] src[l1]) == Some(#[trigger] r[k1]) && f(
                #[trigger] src[l2],
            ) == Some(#[trigger] r[k2]) by {
            if k2 < before.len() {
                let (l1, l2) = choose|l1: int, l2: int|
                    0 <= l1 < l2 < rest.len() && f(#[trigger] rest[l1]) == Some(before[k1]) && f(
                        #[trigger] rest[l2],
                    ) == Some(before[k2]);
                assert(src[l1] == rest[l1] && src[l2] == rest[l2]);
            } else {
                let l1 = choose|l: int| 0 <= l < rest.len() && f(#[trigger] rest[l]) == Some(before[k1]);
                assert(src[l1] == rest[l1]);
                assert(f(src[n]) == Some(r[k2]));
            }
        }
        if forall|l: int| 0 <= l < src.len() ==> f(#[trigger] src[l]) is None {
            assert forall|l: int| 0 <= l < rest.len() implies f(#[trigger] rest[l]) is None by {
                assert(src[l] == rest[l]);
            }
            assert(f(src[n]) is None);
        }
    }
}

/// Of two functions of which each keeps what the other drops, the parts
/// kept make up the whole.
pub proof fn lemma_split<A, B, C>(src: Seq<A>, f: spec_fn(A) -> Option<B>, g: spec_fn(A) -> Option<C>)
    requires
        forall|l: int| 0 <= l < src.len() ==> (f(#[trigger] src[l]) is Some) != (g(src[l]) is Some),
    ensures
        src.filter_map(f).len() + src.filter_map(g).len() == src.len(),
    decreases src.len(),
{
    if src.len() > 0 {
        let rest = src.drop_last();
        assert forall|l: int| 0 <= l < rest.len() implies (f(#[trigger] rest[l]) is Some) != (g(
            rest[l],
        ) is Some) by {
            assert(src[l] == rest[l]);
        }
        lemma_split(rest, f, g);
        assert((f(src[src.len() - 1]) is Some) != (g(src[src.len() - 1]) is Some));
    }
}

/// In what `spec_linear_assignment` gives, no row is paired with more than
/// one column and no column with more than one row, nothing unmatched is
/// matched as well, every row is matched or unmatched, and every pair costs
/// at most the threshold.
pub proof fn lemma_assignment_is_one_to_one(
    cost: &CostMatrix,
    thresh: Single,
    solution: Option<Seq<usize>>,
)
    requires
        cost.nrows() <= usize::MAX,
        cost.ncols() <= usize::MAX,
    ensures
        spec_linear_assignment(cost, thresh, solution).is_one_to_one(cost.nrows(), cost.ncols()),
        forall|a: int|
            0 <= a < spec_linear_assignment(cost, thresh, solution).matches.len() ==> cost.at(
                (#[trigger] spec_linear_assignment(cost, thresh, solution).matches[a]).0 as int,
                spec_linear_assignment(cost, thresh, solution).matches[a].1 as int,
            ).spec_le(thresh),
{
    let r = spec_linear_assignment(cost, thresh, solution);
    let rows = indices(cost.nrows());
    let cols = indices(cost.ncols());
    if cost.nrows() != 0 && cost.ncols() != 0 && solution is Some && is_assignment(
        solution->0,
        cost.side(),
    ) {
        let sol = solution->0;
        let fp = pair_of(cost, thresh, sol);
        let fr = row_left(cost, thresh, sol);
        let fc = col_left(cost, thresh, sol);
        lemma_mapped(rows, fp);
        lemma_mapped(rows, fr);
        lemma_mapped(cols, fc);
        lemma_split(rows, fp, fr);
        assert forall|a: int| 0 <= a < r.matches.len() implies exists|l: int|
            0 <= l < cost.nrows() && #[trigger] r.matches[a] == (l as usize, sol[l])
                && cost.accepts(thresh, sol, l) by {
            let l = choose|l: int| 0 <= l < rows.len() && fp(#[trigger] rows[l]) == Some(r.matches[a]);
            assert(rows[l] == l as usize);
        }
        assert forall|a: int| 0 <= a < r.unmatched_tracks.len() implies (
        #[trigger] r.unmatched_tracks[a]) < cost.nrows() && !cost.accepts(
            thresh,
            sol,
            r.unmatched_tracks[a] as int,
        ) by {
            let l = choose|l: int|
                0 <= l < rows.len() && fr(#[trigger] rows[l]) == Some(r.unmatched_tracks[a]);
            assert(rows[l] == l as usize);
        }
        assert forall|a: int| 0 <= a < r.unmatched_detections.len() implies (
        #[trigger] r.unmatched_detections[a]) < cost.ncols() && !cost.takes(
            thresh,
            sol,
            r.unmatched_detections[a] as int,
        ) by {
            let l = choose|l: int|
                0 <= l < cols.len() && fc(#[trigger] cols[l]) == Some(r.unmatched_detections[a]);
            assert(cols[l] == l as usize);
        }
        assert forall|a: int, b: int| 0 <= a < b < r.matches.len() implies (
        #[trigger] r.matches[a]).0 < (#[trigger] r.matches[b]).0 && r.matches[a].1
            != r.matches[b].1 by {
            let (l1, l2) = choose|l1: int, l2: int|
                0 <= l1 < l2 < rows.len() && fp(#[trigger] rows[l1]) == Some(r.matches[a]) && fp(
                    #[trigger] rows[l2],
                ) == Some(r.matches[b]);
            assert(rows[l1] == l1 as usize && rows[l2] == l2 as usize);
            assert(sol[l1] != sol[l2]);
        }
        assert forall|a: int, b: int| 0 <= a < b < r.unmatched_tracks.len() implies (
        #[trigger] r.unmatched_tracks[a]) < (#[trigger] r.unmatched_tracks[b]) by {
            let (l1, l2) = choose|l1: int, l2: int|
                0 <= l1 < l2 < rows.len() && fr(#[trigger] rows[l1]) == Some(r.unmatched_tracks[a])
                    && fr(#[trigger] rows[l2]) == Some(r.unmatched_tracks[b]);
            assert(rows[l1] == l1 as usize && rows[l2] == l2 as usize);
        }
        assert forall|a: int, b: int| 0 <= a < b < r.unmatched_detections.len() implies (
        #[trigger] r.unmatched_detections[a]) < (#[trigger] r.unmatched_detections[b]) by {
            let (l1, l2) = choose|l1: int, l2: int|
                0 <= l1 < l2 < cols.len() && fc(#[trigger] cols[l1]) == Some(
                    r.unmatched_detections[a],
                ) && fc(#[trigger] cols[l2]) == Some(r.unmatched_detections[b]);
            assert(cols[l1] == l1 as usize && cols[l2] == l2 as usize);
        }
        assert forall|a: int, b: int|
            0 <= a < r.matches.len() && 0 <= b < r.unmatched_detections.len() implies (
        #[trigger] r.matches[a]).1 != #[trigger] r.unmatched_detections[b] by {
            let l = choose|l: int|
                0 <= l < cost.nrows() && r.matches[a] == (l as usize, sol[l]) && cost.accepts(
                    thresh,
                    sol,
                    l,
                );
            assert(cost.takes(thresh, sol, sol[l] as int));
        }
        assert forall|a: int| 0 <= a < r.matches.len() implies (#[trigger] r.matches[a]).0
            < cost.nrows() && r.matches[a].1 < cost.ncols() && cost.at(
            r.matches[a].0 as int,
            r.matches[a].1 as int,
        ).spec_le(thresh) by {
            let l = choose|l: int|
                0 <= l < cost.nrows() && r.matches[a] == (l as usize, sol[l]) && cost.accepts(
                    thresh,
                    sol,
                    l,
                );
        }
        assert forall|a: int, b: int|
            0 <= a < r.matches.len() && 0 <= b < r.unmatched_tracks.len() implies (
        #[trigger] r.matches[a]).0 != #[trigger] r.unmatched_tracks[b] by {
            let l = choose|l: int|
                0 <= l < cost.nrows() && r.matches[a] == (l as usize, sol[l]) && cost.accepts(
                    thresh,
                    sol,
                    l,
                );
        }
    }
}

} // verus!
