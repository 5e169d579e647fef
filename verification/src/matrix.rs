//! Snapshots of the key matrix: one bit per key position.

use vstd::prelude::*;

verus! {

/// In a grid of `cols` columns, the cell `(r, c)` has the row-major index
/// `r * cols + c`, which lies below `rows * cols`.
pub proof fn lemma_index_in_grid(rows: nat, cols: nat, r: nat, c: nat)
    requires
        r < rows,
        c < cols,
    ensures
        r * cols + c < rows * cols,
        (r * cols + c) / cols == r,
        (r * cols + c) % cols == c,
{
    assert(r * cols + cols <= rows * cols) by (nonlinear_arith)
        requires
            r + 1 <= rows,
    ;
    vstd::arithmetic::div_mod::lemma_fundamental_div_mod_converse(
        (r * cols + c) as int,
        cols as int,
        r as int,
        c as int,
    );
}

/// The raw state of every key position at one scan: `true` where the switch
/// is electrically closed. The dimensions are fixed when the snapshot is made.
#[derive(Clone, Debug, PartialEq, Eq)]
pub struct Snapshot {
    rows: usize,
    cols: usize,
    bits: Vec<bool>,
}

impl View for Snapshot {
    type V = Seq<bool>;

    /// The bits in row-major order.
    closed spec fn view(&self) -> Seq<bool> {
        self.bits@
    }
}

impl Snapshot {
    /// Number of rows.
    pub closed spec fn spec_rows(&self) -> nat {
        self.rows as nat
    }

    /// Number of columns.
    pub closed spec fn spec_cols(&self) -> nat {
        self.cols as nat
    }

    /// There is exactly one bit per position.
    pub open spec fn wf(&self) -> bool {
        self@.len() == self.spec_rows() * self.spec_cols()
    }

    /// The bit of position `(r, c)`.
    pub open spec fn at(&self, r: int, c: int) -> bool {
        self@[r * self.spec_cols() + c]
    }

    /// A snapshot of `rows` by `cols` positions from its bits in row-major
    /// order; `None` when the number of bits is not `rows * cols`.
    pub fn new(rows: usize, cols: usize, bits: Vec<bool>) -> (res: Option<Snapshot>)
        ensures
            res is Some <==> bits@.len() == rows * cols,
            res matches Some(s) ==> s.wf() && s.spec_rows() == rows && s.spec_cols() == cols && s@
                == bits@,
    {
        let len: usize = bits.len();
        match rows.checked_mul(cols) {
            Some(n) => {
                if len == n {
                    Some(Snapshot { rows, cols, bits })
                } else {
                    None
                }
            },
            None => None,
        }
    }

    /// The snapshot of `rows` by `cols` positions in which no key is down;
    /// `None` when `rows * cols` does not fit the machine's word.
    pub fn released(rows: usize, cols: usize) -> (res: Option<Snapshot>)
        ensures
            res is Some <==> rows * cols <= usize::MAX,
            res matches Some(s) ==> s.wf() && s.spec_rows() == rows && s.spec_cols() == cols && s@
                == Seq::new((rows * cols) as nat, |i: int| false),
    {
        match rows.checked_mul(cols) {
            Some(n) => {
                let mut bits: Vec<bool> = Vec::new();
                while bits.len() < n
                    invariant
                        bits@.len() <= n,
                        forall|i: int| 0 <= i < bits@.len() ==> !bits@[i],
                    decreases n - bits@.len(),
                {
                    bits.push(false);
                }
                assert(bits@ =~= Seq::new((rows * cols) as nat, |i: int| false));
                Some(Snapshot { rows, cols, bits })
            },
            None => None,
        }
    }

    /// Number of rows.
    pub fn rows(&self) -> (n: usize)
        ensures
            n == self.spec_rows(),
    {
        self.rows
    }

    /// Number of columns.
    pub fn cols(&self) -> (n: usize)
        ensures
            n == self.spec_cols(),
    {
        self.cols
    }

    /// Number of positions.
    pub(crate) fn len(&self) -> (n: usize)
        ensures
            n == self@.len(),
    {
        self.bits.len()
    }

    /// The bit at the row-major index `i`.
    pub(crate) fn bit(&self, i: usize) -> (b: bool)
        requires
            i < self@.len(),
        ensures
            b == self@[i as int],
    {
        self.bits[i]
    }

    /// Whether the key at `(r, c)` is down; `None` outside the matrix.
    pub fn get(&self, r: usize, c: usize) -> (res: Option<bool>)
        requires
            self.wf(),
        ensures
            res is Some <==> r < self.spec_rows() && c < self.spec_cols(),
            res matches Some(b) ==> b == self.at(r as int, c as int),
    {
        let len: usize = self.bits.len();
        if r < self.rows && c < self.cols {
            proof {
                lemma_index_in_grid(self.rows as nat, self.cols as nat, r as nat, c as nat);
                assert(0 <= r * self.cols) by (nonlinear_arith);
                assert(r * self.cols + c < len);
            }
            Some(self.bits[r * self.cols + c])
        } else {
            None
        }
    }
}

} // verus!
