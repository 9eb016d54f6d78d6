use vstd::prelude::*;

verus! {

/// The mathematical content of a pin matrix: `rows` output channels, `cols`
/// input channels and the cells in row-major order.
pub ghost struct PinGrid {
    pub rows: nat,
    pub cols: nat,
    pub cells: Seq<bool>,
}

impl PinGrid {
    pub open spec fn wf(self) -> bool {
        self.cells.len() == self.rows * self.cols
    }

    /// Position of the cell that routes `input` to `output`.
    pub open spec fn index(self, input: int, output: int) -> int {
        output * self.cols + input
    }

    /// Whether input channel `input` is routed to output channel `output`.
    pub open spec fn enabled(self, input: int, output: int) -> bool {
        self.cells[self.index(input, output)]
    }

    pub open spec fn in_range(self, input: int, output: int) -> bool {
        0 <= input < self.cols && 0 <= output < self.rows
    }
}

/// The pair `(input, output)` that the cell at position `k` stands for.
pub open spec fn pair_at(cols: nat, k: int) -> (usize, usize) {
    ((k % (cols as int)) as usize, (k / (cols as int)) as usize)
}

/// The enabled cells among the first `k`, as `(input, output)` pairs in
/// row-major order.
pub open spec fn connections_upto(g: PinGrid, k: nat) -> Seq<(usize, usize)>
    decreases k,
{
    if k == 0 {
        Seq::empty()
    } else {
        let prev = connections_upto(g, (k - 1) as nat);
        if g.cells[k - 1] {
            prev.push(pair_at(g.cols, k - 1))
        } else {
            prev
        }
    }
}

/// Every enabled `(input, output)` pair of `g`, in row-major order.
pub open spec fn connections(g: PinGrid) -> Seq<(usize, usize)> {
    connections_upto(g, g.cells.len())
}

/// The grid of the given shape in which exactly the listed pairs are enabled.
pub open spec fn grid_of_pairs(pairs: Seq<(usize, usize)>, rows: nat, cols: nat) -> PinGrid {
    PinGrid {
        rows,
        cols,
        cells: Seq::new(
            rows * cols,
            |k: int| exists|j: int| 0 <= j < pairs.len() && pairs[j] == pair_at(cols, k),
        ),
    }
}

/// Routing between the output channels of one node (the columns, here called
/// input channels) and the input channels of the next (the rows).
pub struct PinMatrix {
    rows: usize,
    cols: usize,
    data: Vec<bool>,
}

impl View for PinMatrix {
    type V = PinGrid;

    closed spec fn view(&self) -> PinGrid {
        PinGrid { rows: self.rows as nat, cols: self.cols as nat, cells: self.data@ }
    }
}

impl PinMatrix {
    pub open spec fn wf(&self) -> bool {
        self@.wf()
    }

    /// A matrix with no cell enabled.
    pub fn new(input_channels: usize, output_channels: usize) -> (r: PinMatrix)
        requires
            input_channels * output_channels <= usize::MAX,
        ensures
            r.wf(),
            r@.rows == output_channels,
            r@.cols == input_channels,
            forall|k: int| 0 <= k < r@.cells.len() ==> !r@.cells[k],
    {
        let n = output_channels * input_channels;
        let data = vec![false; n];
        proof {
            assert(n == input_channels * output_channels) by (nonlinear_arith)
                requires n == output_channels * input_channels;
        }
        PinMatrix { rows: output_channels, cols: input_channels, data }
    }

    /// A matrix that routes channel `k` to channel `k` for every `k` that both
    /// sides have.
    pub fn diagonal(input_channels: usize, output_channels: usize) -> (r: PinMatrix)
        requires
            input_channels * output_channels <= usize::MAX,
        ensures
            r.wf(),
            r@.rows == output_channels,
            r@.cols == input_channels,
            forall|i: int, o: int| r@.in_range(i, o) ==> r@.enabled(i, o) == (i == o),
    {
        let n = output_channels * input_channels;
        let mut data = vec![false; n];
        let diagonal_length = if input_channels < output_channels {
            input_channels
        } else {
            output_channels
        };
        proof {
            assert(n == input_channels * output_channels) by (nonlinear_arith)
                requires n == output_channels * input_channels;
        }
        let ghost cols = input_channels as int;
        proof {
            assert forall|p: int| 0 <= p < n implies #[trigger] data@[p] == (p % cols == p / cols
                && p % cols < 0) by {
                lemma_pair_at_index(p, cols, output_channels as int);
            }
        }
        let mut k: usize = 0;
        while k < diagonal_length
            invariant
                k <= diagonal_length,
                diagonal_length <= input_channels,
                diagonal_length <= output_channels,
                cols == input_channels,
                n == input_channels * output_channels,
                data@.len() == n,
                forall|p: int|
                    0 <= p < n ==> #[trigger] data@[p] == (p % cols == p / cols && p % cols < k),
            decreases diagonal_length - k,
        {
            proof {
                assert(k * input_channels + k < n) by (nonlinear_arith)
                    requires
                        k < input_channels,
                        k < output_channels,
                        n == input_channels * output_channels,
                ;
                lemma_pair_at_of_index(k as int, k as int, cols);
            }
            let pos = k * input_channels + k;
            let ghost before = data@;
            data.set(pos, true);
            proof {
                assert forall|p: int| 0 <= p < n implies #[trigger] data@[p] == (p % cols == p / cols
                    && p % cols < k + 1) by {
                    lemma_pair_at_index(p, cols, output_channels as int);
                    if p != pos {
                        assert(before[p] == data@[p]);
                    }
                }
            }
            k = k + 1;
        }
        let r = PinMatrix { rows: output_channels, cols: input_channels, data };
        proof {
            assert forall|i: int, o: int| r@.in_range(i, o) implies r@.enabled(i, o) == (i == o) by {
                lemma_pair_at_of_index(i, o, cols);
                lemma_index_in_bounds(i, o, cols, output_channels as int);
                assert(data@[o * cols + i] == (i == o && i < k));
            }
        }
        r
    }

    /// A matrix with every cell enabled.
    pub fn full(input_channels: usize, output_channels: usize) -> (r: PinMatrix)
        requires
            input_channels * output_channels <= usize::MAX,
        ensures
            r.wf(),
            r@.rows == output_channels,
            r@.cols == input_channels,
            forall|k: int| 0 <= k < r@.cells.len() ==> r@.cells[k],
    {
        let n = output_channels * input_channels;
        let data = vec![true; n];
        proof {
            assert(n == input_channels * output_channels) by (nonlinear_arith)
                requires n == output_channels * input_channels;
        }
        PinMatrix { rows: output_channels, cols: input_channels, data }
    }

    pub fn get(&self, input_channel: usize, output_channel: usize) -> (r: bool)
        requires
            self.wf(),
            self@.in_range(input_channel as int, output_channel as int),
        ensures
            r == self@.enabled(input_channel as int, output_channel as int),
    {
        proof {
            lemma_index_in_bounds(input_channel as int, output_channel as int, self.cols as int, self.rows as int);
        }
        let len = self.data.len();
        assert(len == self.rows * self.cols);
        self.data[output_channel * self.cols + input_channel]
    }

    pub fn set(&mut self, input_channel: usize, output_channel: usize, val: bool)
        requires
            old(self).wf(),
            old(self)@.in_range(input_channel as int, output_channel as int),
        ensures
            final(self).wf(),
            final(self)@ == (PinGrid {
                cells: old(self)@.cells.update(
                    old(self)@.index(input_channel as int, output_channel as int),
                    val,
                ),
                ..old(self)@
            }),
    {
        proof {
            lemma_index_in_bounds(input_channel as int, output_channel as int, self.cols as int, self.rows as int);
        }
        let len = self.data.len();
        assert(len == self.rows * self.cols);
        let pos = output_channel * self.cols + input_channel;
        self.data.set(pos, val);
    }

    /// Whether the cells match the shape.
    pub fn is_valid(&self) -> (r: bool)
        ensures
            r == self.wf(),
    {
        proof {
            assert(self.rows as int * self.cols as int <= usize::MAX as int * usize::MAX as int) by (nonlinear_arith)
                requires
                    self.rows <= usize::MAX,
                    self.cols <= usize::MAX,
            ;
        }
        self.data.len() as u128 == self.rows as u128 * self.cols as u128
    }

    pub fn input_channels(&self) -> (r: usize)
        ensures
            r == self@.cols,
    {
        self.cols
    }

    pub fn output_channels(&self) -> (r: usize)
        ensures
            r == self@.rows,
    {
        self.rows
    }

    /// The enabled `(input, output)` pairs in row-major order.
    pub fn channel_connections(&self) -> (r: Vec<(usize, usize)>)
        requires
            self.wf(),
        ensures
            r@ == connections(self@),
    {
        let mut pins: Vec<(usize, usize)> = Vec::new();
        let mut index: usize = 0;
        while index < self.data.len()
            invariant
                self.wf(),
                index <= self.data@.len(),
                pins@ == connections_upto(self@, index as nat),
            decreases self.data@.len() - index,
        {
            if self.data[index] {
                proof {
                    assert(self.cols > 0) by (nonlinear_arith)
                        requires
                            index < self.data@.len(),
                            self.data@.len() == self.rows * self.cols,
                    ;
                }
                pins.push((index % self.cols, index / self.cols));
            }
            index = index + 1;
        }
        pins
    }

    /// The matrix of the given shape in which exactly the listed pairs are
    /// enabled.
    pub fn from_pairs(pairs: &Vec<(usize, usize)>, output_channels: usize, input_channels: usize) -> (r:
        PinMatrix)
        requires
            input_channels * output_channels <= usize::MAX,
            forall|j: int|
                0 <= j < pairs@.len() ==> #[trigger] pairs@[j].0 < input_channels && pairs@[j].1
                    < output_channels,
        ensures
            r.wf(),
            r@ == grid_of_pairs(pairs@, output_channels as nat, input_channels as nat),
    {
        let mut m = PinMatrix::new(input_channels, output_channels);
        let mut j: usize = 0;
        while j < pairs.len()
            invariant
                m.wf(),
                m@.rows == output_channels,
                m@.cols == input_channels,
                j <= pairs@.len(),
                forall|jj: int|
                    0 <= jj < pairs@.len() ==> #[trigger] pairs@[jj].0 < input_channels && pairs@[jj].1
                        < output_channels,
                forall|k: int|
                    0 <= k < m@.cells.len() ==> #[trigger] m@.cells[k] == exists|jj: int|
                        0 <= jj < j && pairs@[jj] == pair_at(input_channels as nat, k),
            decreases pairs@.len() - j,
        {
            let (i, o) = pairs[j];
            let ghost before = m@;
            m.set(i, o, true);
            proof {
                let c = input_channels as int;
                lemma_index_in_bounds(i as int, o as int, c, output_channels as int);
                assert(m@.cells == before.cells.update(o * c + i, true));
                assert forall|k: int| 0 <= k < m@.cells.len() implies #[trigger] m@.cells[k]
                    == exists|jj: int| 0 <= jj < j + 1 && pairs@[jj] == pair_at(input_channels as nat, k) by {
                    lemma_pair_at_index(k, c, output_channels as int);
                    if k == o * c + i {
                        lemma_pair_at_of_index(i as int, o as int, c);
                        assert(pairs@[j as int] == pair_at(input_channels as nat, k));
                    } else {
                        assert(before.cells[k] == m@.cells[k]);
                        if pairs@[j as int] == pair_at(input_channels as nat, k) {
                            assert(k == o * c + i);
                        }
                        if m@.cells[k] {
                            let jj = choose|jj: int| 0 <= jj < j && pairs@[jj] == pair_at(input_channels as nat, k);
                            assert(0 <= jj < j + 1 && pairs@[jj] == pair_at(input_channels as nat, k));
                        }
                        if exists|jj: int| 0 <= jj < j + 1 && pairs@[jj] == pair_at(input_channels as nat, k) {
                            let jj = choose|jj: int| 0 <= jj < j + 1 && pairs@[jj] == pair_at(input_channels as nat, k);
                            assert(jj != j);
                        }
                    }
                }
            }
            j = j + 1;
        }
        proof {
            assert(m@.cells =~= grid_of_pairs(pairs@, output_channels as nat, input_channels as nat).cells);
        }
        m
    }
}

/// Rebuilding a matrix from its enumerated connections, in its own shape,
/// gives back the same matrix.
pub proof fn lemma_from_pairs_round_trip(matrix: PinMatrix)
    requires
        matrix.wf(),
    ensures
        grid_of_pairs(connections(matrix@), matrix@.rows, matrix@.cols) == matrix@,
{
    let m = matrix@;
    let g = grid_of_pairs(connections(m), m.rows, m.cols);
    assert forall|k: int| 0 <= k < m.cells.len() implies #[trigger] g.cells[k] == m.cells[k] by {
        lemma_pair_at_index(k, m.cols as int, m.rows as int);
        let p = pair_at(m.cols, k);
        lemma_connections_upto(m, m.cells.len(), p);
        if g.cells[k] {
            let idx = choose|idx: int| 0 <= idx < m.cells.len() && m.cells[idx] && pair_at(m.cols, idx) == p;
            lemma_pair_at_index(idx, m.cols as int, m.rows as int);
            assert(idx % (m.cols as int) == k % (m.cols as int));
            assert(idx / (m.cols as int) == k / (m.cols as int));
            assert(idx == k);
        } else {
            assert(!(0 <= k < m.cells.len() && m.cells[k] && pair_at(m.cols, k) == p));
        }
    }
    assert(g.cells =~= m.cells);
}

/// Every enumerated connection names channels that the matrix has.
pub proof fn lemma_connections_in_range(matrix: PinMatrix, j: int)
    requires
        matrix.wf(),
        0 <= j < connections(matrix@).len(),
    ensures
        connections(matrix@)[j].0 < matrix@.cols,
        connections(matrix@)[j].1 < matrix@.rows,
{
    let m = matrix@;
    let p = connections(m)[j];
    lemma_connections_upto(m, m.cells.len(), p);
    let idx = choose|idx: int| 0 <= idx < m.cells.len() && m.cells[idx] && pair_at(m.cols, idx) == p;
    lemma_pair_at_index(idx, m.cols as int, m.rows as int);
}

proof fn lemma_connections_upto(g: PinGrid, k: nat, p: (usize, usize))
    requires
        g.wf(),
        k <= g.cells.len(),
    ensures
        (exists|j: int| 0 <= j < connections_upto(g, k).len() && connections_upto(g, k)[j] == p)
            <==> (exists|idx: int| 0 <= idx < k && g.cells[idx] && pair_at(g.cols, idx) == p),
    decreases k,
{
    if k > 0 {
        let prev = connections_upto(g, (k - 1) as nat);
        let cur = connections_upto(g, k);
        lemma_connections_upto(g, (k - 1) as nat, p);
        if exists|j: int| 0 <= j < cur.len() && cur[j] == p {
            let j = choose|j: int| 0 <= j < cur.len() && cur[j] == p;
            if j < prev.len() {
                assert(prev[j] == p);
                let idx = choose|idx: int| 0 <= idx < k - 1 && g.cells[idx] && pair_at(g.cols, idx) == p;
                assert(0 <= idx < k && g.cells[idx] && pair_at(g.cols, idx) == p);
            } else {
                assert(0 <= k - 1 < k && g.cells[k - 1] && pair_at(g.cols, k - 1) == p);
            }
        }
        if exists|idx: int| 0 <= idx < k && g.cells[idx] && pair_at(g.cols, idx) == p {
            let idx = choose|idx: int| 0 <= idx < k && g.cells[idx] && pair_at(g.cols, idx) == p;
            if idx < k - 1 {
                let j = choose|j: int| 0 <= j < prev.len() && prev[j] == p;
                assert(cur[j] == p);
            } else {
                assert(cur[prev.len() as int] == p);
            }
        }
    }
}

proof fn lemma_index_in_bounds(i: int, o: int, cols: int, rows: int)
    requires
        0 <= i < cols,
        0 <= o < rows,
    ensures
        0 <= o * cols + i < rows * cols,
{
    assert(o * cols + i < rows * cols) by (nonlinear_arith)
        requires
            0 <= i < cols,
            0 <= o < rows,
    ;
    assert(0 <= o * cols) by (nonlinear_arith)
        requires
            0 <= o,
            0 <= cols,
    ;
}

proof fn lemma_index_unique(i: int, o: int, i2: int, o2: int, cols: int)
    requires
        0 <= i < cols,
        0 <= i2 < cols,
        0 <= o,
        0 <= o2,
    ensures
        (o * cols + i == o2 * cols + i2) == (i == i2 && o == o2),
{
    if o * cols + i == o2 * cols + i2 {
        lemma_pair_at_of_index(i, o, cols);
        lemma_pair_at_of_index(i2, o2, cols);
    }
}

proof fn lemma_pair_at_of_index(i: int, o: int, cols: int)
    requires
        0 <= i < cols,
        0 <= o,
    ensures
        (o * cols + i) % cols == i,
        (o * cols + i) / cols == o,
{
    vstd::arithmetic::div_mod::lemma_fundamental_div_mod_converse(o * cols + i, cols, o, i);
}

proof fn lemma_pair_at_index(k: int, cols: int, rows: int)
    requires
        0 <= k < rows * cols,
        cols >= 0,
        rows >= 0,
    ensures
        cols > 0,
        0 <= k % cols < cols,
        0 <= k / cols < rows,
        k == (k / cols) * cols + k % cols,
{
    assert(cols > 0) by (nonlinear_arith)
        requires
            0 <= k < rows * cols,
            cols >= 0,
            rows >= 0,
    ;
    vstd::arithmetic::div_mod::lemma_fundamental_div_mod(k, cols);
    vstd::arithmetic::div_mod::lemma_div_pos_is_pos(k, cols);
    vstd::arithmetic::div_mod::lemma_mod_bound(k, cols);
    let q = k / cols;
    let r = k % cols;
    assert(q < rows) by (nonlinear_arith)
        requires
            k == cols * q + r,
            0 <= r,
            k < rows * cols,
            cols > 0,
    ;
    assert(k == q * cols + r) by (nonlinear_arith)
        requires
            k == cols * q + r,
    ;
}

} // verus!
