//! Two-dimensional arrays of single-bit booleans.
//!
//! An [`Array`] stores an `n_rows x n_columns` boolean matrix at one bit per
//! cell. The cells are packed, in row-major order, into unsigned 8-bit
//! groups, so a grid of `m * n` cells owns exactly `ceil(m * n / 8)` bytes of
//! storage. The whole surface is: construct a zeroed grid, read one cell,
//! write one cell.
//!
//! The abstract value of an array (its view) is the row-major sequence of its
//! boolean cells; every contract below speaks of that sequence and of the
//! addressing functions [`linear_index`], [`group_of`] and [`bit_offset_of`].

use vstd::prelude::*;

verus! {

/// Number of 8-bit groups needed to hold `bits` single-bit cells:
/// `ceil(bits / 8)`.
pub open spec fn group_count(bits: int) -> int {
    (bits + 7) / 8
}

/// Row-major flattening of a cell position `(i, j)` into a single linear bit
/// index, for a grid with `n_columns` columns.
pub open spec fn linear_index(i: int, j: int, n_columns: int) -> int {
    i * n_columns + j
}

/// Index of the 8-bit group that holds the bit with linear index `linear`.
pub open spec fn group_of(linear: int) -> int {
    linear / 8
}

/// Position (0 to 7) of the bit with linear index `linear` within its group.
pub open spec fn bit_offset_of(linear: int) -> int {
    linear % 8
}

/// Whether bit `k` of the 8-bit group `b` is set.
pub open spec fn group_bit(b: u8, k: u8) -> bool {
    b & (1u8 << k) != 0
}

/// Whether the bit with linear index `k` is set in the packed groups `bytes`.
pub open spec fn packed_bit(bytes: Seq<u8>, k: int) -> bool {
    group_bit(bytes[group_of(k)], bit_offset_of(k) as u8)
}

/// A two-dimensional array of single-bit booleans.
pub struct Array {
    n_rows: usize,
    n_columns: usize,
    content: Vec<u8>,
}

impl View for Array {
    type V = Seq<bool>;

    /// The abstract value of the array: the row-major sequence of its cells.
    closed spec fn view(&self) -> Seq<bool> {
        Seq::new((self.n_rows * self.n_columns) as nat, |k: int| packed_bit(self.content@, k))
    }
}

impl Array {
    /// Number of rows, fixed at construction.
    pub closed spec fn row_count(&self) -> int {
        self.n_rows as int
    }

    /// Number of columns, fixed at construction.
    pub closed spec fn column_count(&self) -> int {
        self.n_columns as int
    }

    /// Number of 8-bit groups of packed storage the array owns.
    pub closed spec fn storage_len(&self) -> int {
        self.content@.len() as int
    }

    /// Well-formedness: the cell count fits the platform's addressing
    /// arithmetic, and the packed storage holds exactly one group per eight
    /// cells, rounded up. Established by [`Array::new`] and preserved by
    /// [`Array::set`].
    pub closed spec fn wf(&self) -> bool {
        &&& self.n_rows * self.n_columns <= usize::MAX
        &&& self.content@.len() == group_count(self.n_rows * self.n_columns)
    }

    /// Whether `(i, j)` addresses a cell of the array.
    pub open spec fn valid_index(&self, i: int, j: int) -> bool {
        &&& 0 <= i < self.row_count()
        &&& 0 <= j < self.column_count()
    }

    /// The boolean stored at cell `(i, j)`.
    pub open spec fn cell(&self, i: int, j: int) -> bool {
        self@[linear_index(i, j, self.column_count())]
    }

    /// Constructs a new `Array`.
    ///
    /// The array is initially full of `false`. Dimensions whose product
    /// overflows the platform's addressing arithmetic are the caller's
    /// responsibility, not a checked error.
    pub fn new(n_rows: usize, n_columns: usize) -> (result: Array)
        requires
            n_rows * n_columns <= usize::MAX,
        ensures
            result.wf(),
            result.row_count() == n_rows,
            result.column_count() == n_columns,
            result.storage_len() == group_count(n_rows * n_columns),
            result@.len() == n_rows * n_columns,
            forall|i: int, j: int| result.valid_index(i, j) ==> !result.cell(i, j),
    {
        // compute size of the array's content
        let full_size: usize = n_rows * n_columns;
        let size: usize = if full_size % 8 == 0 {
            full_size / 8
        } else {
            full_size / 8 + 1
        };
        let mut content: Vec<u8> = Vec::new();
        while content.len() < size
            invariant
                content@.len() <= size,
                forall|g: int| 0 <= g < content@.len() ==> content@[g] == 0u8,
            decreases size - content@.len(),
        {
            content.push(0u8);
        }
        let result = Array { n_rows, n_columns, content };
        proof {
            assert forall|k: int| 0 <= k < result@.len() implies !result@[k] by {
                lemma_group_of_in_range(k, n_rows * n_columns);
                lemma_zero_group_bit(bit_offset_of(k) as u8);
            };
            assert forall|i: int, j: int| result.valid_index(i, j) implies !result.cell(i, j) by {
                lemma_linear_index_in_range(i, j, result.row_count(), result.column_count());
            };
        }
        result
    }

    /// Locates the bit that stores cell `(i, j)`: the index of its 8-bit
    /// group within the packed storage, and the bit's offset within that
    /// group.
    pub fn indexes(&self, i: usize, j: usize) -> (r: (usize, usize))
        requires
            self.wf(),
            self.valid_index(i as int, j as int),
        ensures
            r.0 == group_of(linear_index(i as int, j as int, self.column_count())),
            r.1 == bit_offset_of(linear_index(i as int, j as int, self.column_count())),
            r.0 < self.storage_len(),
            r.1 < 8,
    {
        proof {
            lemma_linear_index_in_range(i as int, j as int, self.row_count(), self.column_count());
            lemma_group_of_in_range(
                linear_index(i as int, j as int, self.column_count()),
                self.row_count() * self.column_count(),
            );
        }
        let linear: usize = i * self.n_columns + j;
        (linear / 8, linear % 8)
    }

    /// Reads the bit-boolean at position `(i, j)`.
    pub fn get(&self, i: usize, j: usize) -> (r: bool)
        requires
            self.wf(),
            self.valid_index(i as int, j as int),
        ensures
            r == self.cell(i as int, j as int),
    {
        proof {
            lemma_linear_index_in_range(i as int, j as int, self.row_count(), self.column_count());
        }
        // read boolean
        let (index, bit): (usize, usize) = self.indexes(i, j);
        self.content[index] & (1u8 << (bit as u8)) != 0
    }

    /// Sets the value of the bit-boolean at position `(i, j)`.
    ///
    /// Only the addressed cell changes: the view afterwards is the old view
    /// with the cell's linear index updated to `val`, and every other valid
    /// cell reads as it did before.
    pub fn set(&mut self, i: usize, j: usize, val: bool)
        requires
            old(self).wf(),
            old(self).valid_index(i as int, j as int),
        ensures
            final(self).wf(),
            final(self).row_count() == old(self).row_count(),
            final(self).column_count() == old(self).column_count(),
            final(self).storage_len() == old(self).storage_len(),
            final(self)@ == old(self)@.update(
                linear_index(i as int, j as int, old(self).column_count()),
                val,
            ),
            final(self).cell(i as int, j as int) == val,
            forall|i2: int, j2: int|
                old(self).valid_index(i2, j2) && (i2 != i || j2 != j)
                    ==> final(self).cell(i2, j2) == old(self).cell(i2, j2),
    {
        // set value
        let (index, bit): (usize, usize) = self.indexes(i, j);
        let group: u8 = self.content[index];
        let updated: u8 = if val {
            group | (1u8 << (bit as u8))
        } else {
            group & !(1u8 << (bit as u8))
        };
        self.content[index] = updated;
        proof {
            let rows = old(self).row_count();
            let cols = old(self).column_count();
            let lin = linear_index(i as int, j as int, cols);
            lemma_linear_index_in_range(i as int, j as int, rows, cols);
            lemma_group_bit_update(group, bit as u8, bit as u8);
            assert forall|k: int| 0 <= k < self@.len() implies self@[k] == old(self)@.update(
                lin,
                val,
            )[k] by {
                lemma_group_of_in_range(k, rows * cols);
                if k != lin {
                    if group_of(k) == index {
                        assert(k == 8 * group_of(k) + bit_offset_of(k));
                        assert(lin == 8 * group_of(lin) + bit_offset_of(lin));
                        lemma_group_bit_update(group, bit as u8, bit_offset_of(k) as u8);
                    }
                }
            };
            assert(self@ =~= old(self)@.update(lin, val));
            assert forall|i2: int, j2: int|
                old(self).valid_index(i2, j2) && (i2 != i || j2 != j) implies self.cell(i2, j2)
                == old(self).cell(i2, j2) by {
                lemma_linear_index_in_range(i2, j2, rows, cols);
                if linear_index(i2, j2, cols) == lin {
                    lemma_linear_index_injective(i2, j2, i as int, j as int, rows, cols);
                }
            };
        }
    }
}

/// A valid cell position flattens to a linear index within the grid's cell
/// count.
pub proof fn lemma_linear_index_in_range(i: int, j: int, n_rows: int, n_columns: int)
    requires
        0 <= i < n_rows,
        0 <= j < n_columns,
    ensures
        0 <= linear_index(i, j, n_columns) < n_rows * n_columns,
{
    assert(0 <= i * n_columns) by (nonlinear_arith)
        requires
            0 <= i,
            0 <= n_columns,
    ;
    assert(i * n_columns + j < n_rows * n_columns) by (nonlinear_arith)
        requires
            0 <= i < n_rows,
            0 <= j < n_columns,
    ;
}

/// Distinct valid cell positions flatten to distinct linear indices: the
/// addressing function is injective on the grid.
pub proof fn lemma_linear_index_injective(
    i1: int,
    j1: int,
    i2: int,
    j2: int,
    n_rows: int,
    n_columns: int,
)
    requires
        0 <= i1 < n_rows,
        0 <= j1 < n_columns,
        0 <= i2 < n_rows,
        0 <= j2 < n_columns,
        linear_index(i1, j1, n_columns) == linear_index(i2, j2, n_columns),
    ensures
        i1 == i2,
        j1 == j2,
{
    assert(i1 == i2 && j1 == j2) by (nonlinear_arith)
        requires
            0 <= j1 < n_columns,
            0 <= j2 < n_columns,
            i1 * n_columns + j1 == i2 * n_columns + j2,
    ;
}

/// A linear index below the cell count lands in a group below the group
/// count.
pub proof fn lemma_group_of_in_range(k: int, bits: int)
    requires
        0 <= k < bits,
    ensures
        0 <= group_of(k) < group_count(bits),
{
    assert(k <= bits - 1);
    assert((bits - 1) / 8 + 1 == (bits + 7) / 8);
}

/// Every bit of a zero group reads as clear.
proof fn lemma_zero_group_bit(k: u8)
    by (bit_vector)
    ensures
        !group_bit(0u8, k),
{
}

/// Or-ing a single-bit mask into a group makes that bit read as set;
/// and-ing the mask's complement makes it read as clear; either way, every
/// other bit of the group is left unchanged.
proof fn lemma_group_bit_update(b: u8, k: u8, m: u8)
    by (bit_vector)
    requires
        k < 8,
        m < 8,
    ensures
        group_bit(b | (1u8 << k), k),
        !group_bit(b & !(1u8 << k), k),
        m != k ==> group_bit(b | (1u8 << k), m) == group_bit(b, m),
        m != k ==> group_bit(b & !(1u8 << k), m) == group_bit(b, m),
{
}

/// Idempotence of writes: writing a cell twice in a row with the same value
/// leaves the same observable state as writing it once. `once` is any grid
/// related to `start` as `Array::set` of `(i, j, v)` relates its final state
/// to its initial one, and `twice` is related to `once` the same way; then
/// `twice` and `once` agree on every cell.
pub proof fn lemma_set_idempotent(
    start: Array,
    once: Array,
    twice: Array,
    i: int,
    j: int,
    v: bool,
)
    requires
        start.valid_index(i, j),
        once.row_count() == start.row_count(),
        once.column_count() == start.column_count(),
        once@ == start@.update(linear_index(i, j, start.column_count()), v),
        twice.row_count() == once.row_count(),
        twice.column_count() == once.column_count(),
        twice@ == once@.update(linear_index(i, j, once.column_count()), v),
    ensures
        twice@ == once@,
{
    lemma_linear_index_in_range(i, j, start.row_count(), start.column_count());
    assert(twice@ =~= once@);
}

/// A degenerate grid, with no rows or no columns, owns no storage groups and
/// admits no valid cell position: every `(i, j)` is out of bounds.
pub proof fn lemma_degenerate_grid(a: Array, i: int, j: int)
    requires
        a.wf(),
        a.row_count() == 0 || a.column_count() == 0,
    ensures
        a.storage_len() == 0,
        a@.len() == 0,
        !a.valid_index(i, j),
{
    let rows = a.row_count();
    let cols = a.column_count();
    assert(rows * cols == 0) by (nonlinear_arith)
        requires
            rows == 0 || cols == 0,
    ;
}

} // verus!
