//! Spectrogram / waterfall storage.
//!
//! Stores the most recent `rows` frames (each `cols` bins) in a
//! pre-allocated ring. The newest frame is pushed with
//! [`Spectrogram::push_row`]; [`Spectrogram::row`] and
//! [`Spectrogram::as_image`] expose the frames for rendering, oldest first.
use vstd::prelude::*;

verus! {

/// A ring of frames forming a waterfall display.
pub struct Spectrogram<T> {
    rows: usize,
    cols: usize,
    data: Vec<T>,
    head: usize,
    filled: usize,
}

/// Start of row `r` in the flat storage.
proof fn lemma_row_start(r: int, rows: int, cols: int)
    requires
        0 <= r < rows,
        cols > 0,
    ensures
        0 <= r * cols,
        r * cols + cols <= rows * cols,
{
    assert(0 <= r * cols) by (nonlinear_arith)
        requires
            0 <= r,
            cols > 0,
    ;
    assert(r * cols + cols <= rows * cols) by (nonlinear_arith)
        requires
            0 <= r < rows,
            cols > 0,
    ;
}

/// Rows `a` and `b` of the flat storage do not overlap when `a != b`.
proof fn lemma_rows_disjoint(a: int, b: int, k: int, cols: int)
    requires
        a != b,
        0 <= a,
        0 <= b,
        0 <= k < cols,
    ensures
        k + b * cols < a * cols || k + b * cols >= a * cols + cols,
{
    if a < b {
        assert(a * cols + cols <= b * cols) by (nonlinear_arith)
            requires
                a < b,
                cols > 0,
        ;
    } else {
        assert(b * cols + cols <= a * cols) by (nonlinear_arith)
            requires
                b < a,
                cols > 0,
        ;
    }
}

impl<T> Spectrogram<T> {
    /// Dimensions are positive, the storage holds `rows * cols` bins, the
    /// write position is a row, and a ring that is not yet full has
    /// written exactly its first `filled` rows.
    #[verifier::type_invariant]
    spec fn well_formed(&self) -> bool {
        &&& self.rows > 0
        &&& self.rows * self.cols <= usize::MAX
        &&& self.cols > 0
        &&& self.data@.len() == self.rows * self.cols
        &&& self.head < self.rows
        &&& self.filled <= self.rows
        &&& self.filled < self.rows ==> self.head == self.filled
    }

    /// Number of frames retained.
    pub closed spec fn spec_rows(&self) -> int {
        self.rows as int
    }

    /// Bins per frame.
    pub closed spec fn spec_cols(&self) -> int {
        self.cols as int
    }

    /// Row of storage holding the `i`-th oldest frame.
    closed spec fn slot(&self, i: int) -> int {
        let oldest = if self.filled < self.rows {
            0
        } else {
            self.head as int
        };
        if oldest + i < self.rows {
            oldest + i
        } else {
            oldest + i - self.rows
        }
    }

    /// The stored frames, oldest first.
    pub closed spec fn view(&self) -> Seq<Seq<T>> {
        Seq::new(
            self.filled as nat,
            |i: int|
                self.data@.subrange(
                    self.slot(i) * self.cols,
                    self.slot(i) * self.cols + self.cols,
                ),
        )
    }

}

impl<T: Copy> Spectrogram<T> {
    /// Create a spectrogram with room for `rows` frames of `cols` bins.
    pub fn new(rows: usize, cols: usize) -> (r: Self) where T: Default
        requires
            rows > 0,
            cols > 0,
            rows * cols <= usize::MAX,
        ensures
            r.spec_rows() == rows,
            r.spec_cols() == cols,
            r@.len() == 0,
    {
        let data = vec![T::default(); rows * cols];
        Spectrogram { rows, cols, data, head: 0, filled: 0 }
    }

    /// Number of frames retained.
    pub fn rows(&self) -> (r: usize)
        ensures
            r == self.spec_rows(),
            r > 0,
            self@.len() <= r,
    {
        proof { use_type_invariant(self); }
        self.rows
    }

    /// Bins per frame.
    pub fn cols(&self) -> (r: usize)
        ensures
            r == self.spec_cols(),
            r > 0,
    {
        proof { use_type_invariant(self); }
        self.cols
    }

    /// Frames currently stored (`min(rows, frames seen)`).
    pub fn filled(&self) -> (r: usize)
        ensures
            r == self@.len(),
    {
        self.filled
    }

    /// Append one frame (length must equal `cols`). When the ring is full
    /// the oldest frame is dropped.
    pub fn push_row(&mut self, frame: &[T])
        requires
            frame@.len() == old(self).spec_cols(),
        ensures
            final(self).spec_rows() == old(self).spec_rows(),
            final(self).spec_cols() == old(self).spec_cols(),
            old(self)@.len() < old(self).spec_rows() ==> final(self)@ == old(self)@.push(frame@),
            old(self)@.len() == old(self).spec_rows() ==> final(self)@ == old(self)@.drop_first().push(
                frame@,
            ),
    {
        proof { use_type_invariant(&*self); }
        let ghost before = self@;
        let ghost old_data = self.data@;
        let rows = self.rows;
        let cols = self.cols;
        let head = self.head;
        let filled = self.filled;
        proof {
            lemma_row_start(head as int, rows as int, cols as int);
        }
        let base = head * cols;
        let mut k: usize = 0;
        while k < cols
            invariant
                rows == self.rows,
                cols == self.cols,
                head == self.head,
                filled == self.filled,
                rows > 0,
                cols > 0,
                head < rows,
                filled <= rows,
                filled < rows ==> head == filled,
                self.data@.len() == rows * cols,
                rows * cols <= usize::MAX,
                base == head * cols,
                base + cols <= rows * cols,
                frame@.len() == cols,
                0 <= k <= cols,
                forall|p: int|
                    0 <= p < self.data@.len() ==> #[trigger] self.data@[p] == (if base <= p < base + k {
                        frame@[p - base]
                    } else {
                        old_data[p]
                    }),
            decreases cols - k,
        {
            self.data[base + k] = frame[k];
            k = k + 1;
        }
        let was_full = filled == rows;
        // The ring counts as full while the write position moves, so that
        // every intermediate state is well formed.
        self.filled = rows;
        self.head = if head + 1 == rows {
            0
        } else {
            head + 1
        };
        self.filled = if filled < rows {
            filled + 1
        } else {
            filled
        };
        proof {
            let after = self@;
            let expected = if was_full {
                before.drop_first().push(frame@)
            } else {
                before.push(frame@)
            };
            assert forall|i: int| 0 <= i < after.len() implies #[trigger] after[i] == expected[i] by {
                let s_new = self.slot(i);
                lemma_row_start(s_new, rows as int, cols as int);
                if s_new == head {
                    assert(after[i] =~= frame@);
                } else {
                    assert(after[i] =~= old_data.subrange(s_new * cols, s_new * cols + cols)) by {
                        assert forall|q: int| 0 <= q < cols implies #[trigger] after[i][q]
                            == old_data[s_new * cols + q] by {
                            lemma_rows_disjoint(head as int, s_new, q, cols as int);
                        }
                    }
                }
            }
            assert(after =~= expected);
        }
    }

    /// Copy the `i`-th oldest frame (`0` = oldest, `filled-1` = newest)
    /// into `out` (length `cols`).
    pub fn row(&self, i: usize, out: &mut [T])
        requires
            i < self@.len(),
            old(out)@.len() == self.spec_cols(),
        ensures
            final(out)@ == self@[i as int],
    {
        proof { use_type_invariant(self); }
        let oldest = if self.filled < self.rows {
            0
        } else {
            self.head
        };
        let idx = if i < self.rows - oldest {
            oldest + i
        } else {
            i - (self.rows - oldest)
        };
        proof {
            lemma_row_start(idx as int, self.rows as int, self.cols as int);
        }
        let base = idx * self.cols;
        let mut k: usize = 0;
        while k < self.cols
            invariant
                out@.len() == self.cols,
                self.well_formed(),
                self.data@.len() == self.rows * self.cols,
                base == self.slot(i as int) * self.cols,
                base + self.cols <= self.data@.len(),
                0 <= k <= self.cols,
                forall|q: int| 0 <= q < k ==> #[trigger] out@[q] == self.data@[base + q],
            decreases self.cols - k,
        {
            out[k] = self.data[base + k];
            k = k + 1;
        }
        assert(out@ =~= self@[i as int]);
    }

    /// Flatten the frames into an image where each row is a frame in
    /// chronological order (oldest first). `out` must hold at least
    /// `filled * cols` bins; the bins past the image are left unchanged.
    pub fn as_image(&self, out: &mut [T])
        requires
            old(out)@.len() >= self@.len() * self.spec_cols(),
        ensures
            final(out)@.len() == old(out)@.len(),
            forall|i: int, k: int|
                0 <= i < self@.len() && 0 <= k < self.spec_cols() ==> #[trigger] final(out)@[i
                    * self.spec_cols() + k] == self@[i][k],
            forall|p: int|
                self@.len() * self.spec_cols() <= p < old(out)@.len() ==> #[trigger] final(out)@[p]
                    == old(out)@[p],
    {
        proof { use_type_invariant(self); }
        let cols = self.cols;
        let olen = out.len();
        let ghost image_len = self@.len() * self.spec_cols();
        assert(self.filled * cols <= self.rows * cols) by (nonlinear_arith)
            requires
                self.filled <= self.rows,
                cols > 0,
        ;
        let mut i: usize = 0;
        while i < self.filled
            invariant
                cols == self.cols,
                cols > 0,
                self.well_formed(),
                self.filled <= self.rows,
                out@.len() == old(out)@.len(),
                olen == out@.len(),
                self.filled * cols <= self.rows * cols,
                out@.len() >= self.filled * cols,
                image_len == self.filled * cols,
                0 <= i <= self.filled,
                forall|j: int, k: int|
                    0 <= j < i && 0 <= k < cols ==> #[trigger] out@[j * cols + k] == self@[j][k],
                forall|p: int| i * cols <= p < out@.len() ==> #[trigger] out@[p] == old(out)@[p],
            decreases self.filled - i,
        {
            proof {
                lemma_row_start(i as int, self.filled as int, cols as int);
            }
            let base = i * cols;
            let mut k: usize = 0;
            while k < cols
                invariant
                    cols == self.cols,
                    cols > 0,
                    self.well_formed(),
                    out@.len() == old(out)@.len(),
                    olen == out@.len(),
                    0 <= i < self.filled,
                    self.filled <= self.rows,
                    base == i * cols,
                    base + cols <= self.filled * cols,
                    self.filled * cols <= out@.len(),
                    0 <= k <= cols,
                    forall|j: int, q: int|
                        0 <= j < i && 0 <= q < cols ==> #[trigger] out@[j * cols + q] == self@[j][q],
                    forall|q: int| 0 <= q < k ==> #[trigger] out@[base + q] == self@[i as int][q],
                    forall|p: int| base + k <= p < out@.len() ==> #[trigger] out@[p] == old(out)@[p],
                decreases cols - k,
            {
                let v = self.value_at(i, k);
                let ghost prev = out@;
                out[base + k] = v;
                proof {
                    assert forall|j: int, q: int| 0 <= j < i && 0 <= q < cols implies #[trigger] out@[j
                        * cols + q] == self@[j][q] by {
                        lemma_rows_disjoint(i as int, j, q, cols as int);
                        assert(prev[j * cols + q] == self@[j][q]);
                        assert(j * cols + q != base + k);
                        lemma_row_start(j, i as int, cols as int);
                        assert(out@[j * cols + q] == prev[j * cols + q]);
                    }
                }
                k = k + 1;
            }
            proof {
                assert forall|q: int| 0 <= q < cols implies #[trigger] out@[i * cols + q]
                    == self@[i as int][q] by {
                    assert(out@[base + q] == self@[i as int][q]);
                }
                assert((i + 1) * cols == i * cols + cols) by (nonlinear_arith);
            }
            i = i + 1;
        }
    }

    /// Bin `k` of the `i`-th oldest frame.
    fn value_at(&self, i: usize, k: usize) -> (r: T)
        requires
            self.well_formed(),
            i < self@.len(),
            k < self.spec_cols(),
        ensures
            r == self@[i as int][k as int],
    {
        let oldest = if self.filled < self.rows {
            0
        } else {
            self.head
        };
        let idx = if i < self.rows - oldest {
            oldest + i
        } else {
            i - (self.rows - oldest)
        };
        proof {
            lemma_row_start(idx as int, self.rows as int, self.cols as int);
        }
        self.data[idx * self.cols + k]
    }

    /// Copy the newest frame into `out` (length `cols`).
    pub fn latest(&self, out: &mut [T])
        requires
            self@.len() > 0,
            old(out)@.len() == self.spec_cols(),
        ensures
            final(out)@ == self@.last(),
    {
        proof { use_type_invariant(self); }
        let idx = if self.filled < self.rows {
            self.head - 1
        } else if self.head == 0 {
            self.rows - 1
        } else {
            self.head - 1
        };
        assert(idx == self.slot(self.filled - 1));
        proof {
            lemma_row_start(idx as int, self.rows as int, self.cols as int);
        }
        let base = idx * self.cols;
        let mut k: usize = 0;
        while k < self.cols
            invariant
                out@.len() == self.cols,
                self.well_formed(),
                self.data@.len() == self.rows * self.cols,
                base == idx * self.cols,
                base + self.cols <= self.data@.len(),
                0 <= k <= self.cols,
                forall|q: int| 0 <= q < k ==> #[trigger] out@[q] == self.data@[base + q],
            decreases self.cols - k,
        {
            out[k] = self.data[base + k];
            k = k + 1;
        }
        assert(out@ =~= self@.last());
    }
}

} // verus!
