use vstd::prelude::*;

verus! {

/// A host-side numeric matrix: a flat buffer in column-major order together
/// with its row and column counts.
///
/// Element values are carried as opaque 64-bit words (the bit pattern of the
/// host's 64-bit float), so that the layout contract can be stated and proved
/// bit for bit: this layer reinterprets layout and never transforms a value.
/// The element at row `i`, column `j` sits at buffer offset `j * rows + i`.
pub struct NumericMatrix {
    data: Vec<u64>,
    rows: usize,
    cols: usize,
}

/// The native 2D array produced by the matrix adapter.
///
/// It owns a fresh buffer (it never aliases the host's) and keeps the
/// source's column-major convention, so its construction involves no element
/// transposition; `at(i, j)` exposes the same value the host stored at
/// `(i, j)`.
pub struct NativeArray {
    data: Vec<u64>,
    rows: usize,
    cols: usize,
}

impl NumericMatrix {
    /// The flat column-major buffer, as a sequence.
    pub closed spec fn buf(self) -> Seq<u64> {
        self.data@
    }

    pub closed spec fn spec_rows(self) -> usize {
        self.rows
    }

    pub closed spec fn spec_cols(self) -> usize {
        self.cols
    }

    /// The buffer holds exactly rows * cols elements.
    pub open spec fn wf(self) -> bool {
        self.buf().len() == self.spec_rows() * self.spec_cols()
    }

    /// The matrix as a row-indexed, then column-indexed grid of values.
    pub open spec fn view_grid(self) -> Seq<Seq<u64>> {
        Seq::new(
            self.spec_rows() as nat,
            |i: int| Seq::new(
                self.spec_cols() as nat,
                |j: int| self.buf()[j * (self.spec_rows() as int) + i],
            ),
        )
    }

    /// Wraps a host buffer, checking the boundary contract that the buffer
    /// length equals rows * cols; a mismatch is the caller's fault and yields
    /// `None` so the boundary can abort the call.
    pub fn new(data: Vec<u64>, rows: usize, cols: usize) -> (r: Option<NumericMatrix>)
        ensures
            r is Some <==> data@.len() == rows * cols,
            r matches Some(m) ==> m.wf() && m.buf() == data@ && m.spec_rows() == rows
                && m.spec_cols() == cols,
    {
        let n = data.len();
        match rows.checked_mul(cols) {
            Some(len) if len == n => Some(NumericMatrix { data, rows, cols }),
            _ => None,
        }
    }

    pub fn nrows(&self) -> (r: usize)
        ensures
            r == self.spec_rows(),
    {
        self.rows
    }

    pub fn ncols(&self) -> (r: usize)
        ensures
            r == self.spec_cols(),
    {
        self.cols
    }
}

impl NativeArray {
    /// The flat column-major buffer, as a sequence.
    pub closed spec fn buf(self) -> Seq<u64> {
        self.data@
    }

    pub closed spec fn spec_rows(self) -> usize {
        self.rows
    }

    pub closed spec fn spec_cols(self) -> usize {
        self.cols
    }

    pub open spec fn wf(self) -> bool {
        self.buf().len() == self.spec_rows() * self.spec_cols()
    }

    /// The array as a row-indexed, then column-indexed grid of values.
    pub open spec fn view_grid(self) -> Seq<Seq<u64>> {
        Seq::new(
            self.spec_rows() as nat,
            |i: int| Seq::new(
                self.spec_cols() as nat,
                |j: int| self.buf()[j * (self.spec_rows() as int) + i],
            ),
        )
    }

    pub fn nrows(&self) -> (r: usize)
        ensures
            r == self.spec_rows(),
    {
        self.rows
    }

    pub fn ncols(&self) -> (r: usize)
        ensures
            r == self.spec_cols(),
    {
        self.cols
    }

    /// Reads the element at row `i`, column `j`.
    pub fn at(&self, i: usize, j: usize) -> (r: u64)
        requires
            self.wf(),
            i < self.spec_rows(),
            j < self.spec_cols(),
        ensures
            r == self.view_grid()[i as int][j as int],
    {
        let len = self.data.len();
        proof {
            lemma_col_major_offset_in_range(
                self.spec_rows() as int,
                self.spec_cols() as int,
                i as int,
                j as int,
            );
            assert(j * (self.spec_rows() as int) + i < len);
        }
        self.data[j * self.rows + i]
    }
}

/// In a rows x cols column-major buffer, the offset of (i, j) is in range.
proof fn lemma_col_major_offset_in_range(rows: int, cols: int, i: int, j: int)
    requires
        0 <= i < rows,
        0 <= j < cols,
    ensures
        0 <= j * rows + i < rows * cols,
{
    assert(0 <= j * rows + i < rows * cols) by (nonlinear_arith)
        requires
            0 <= i < rows,
            0 <= j < cols,
    ;
}

/// Converts a host matrix to a native array.
///
/// The values are identical to the source's, element for element; only the
/// layout is reinterpreted, and the construction honors the source's
/// column-major convention (the buffer is carried over unchanged, so no
/// transposition pass runs). The result owns a fresh buffer: the host's own
/// buffer is left to the host.
pub fn convert(m: &NumericMatrix) -> (r: NativeArray)
    requires
        m.wf(),
    ensures
        r.wf(),
        r.spec_rows() == m.spec_rows(),
        r.spec_cols() == m.spec_cols(),
        r.buf() == m.buf(),
        r.view_grid() == m.view_grid(),
{
    let data: Vec<u64> = m.data.clone();
    let r = NativeArray { data, rows: m.rows, cols: m.cols };
    proof {
        assert(r.view_grid() =~= m.view_grid());
    }
    r
}

} // verus!
