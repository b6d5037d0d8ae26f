use transpose::transpose;
use vstd::prelude::*;
use vstd::string::StringSliceAdditionalSpecFns;

verus! {

/// An image of the sky, stored row after row: `#` is a galaxy.
pub struct Universe {
    pub data: Vec<u8>,
    pub r: usize,
    pub c: usize,
}

/// An image of the sky with what it costs to cross each row and each column.
pub struct Universe2 {
    pub data: Vec<u8>,
    pub r: usize,
    pub c: usize,
    pub row_costs: Vec<usize>,
    pub col_costs: Vec<usize>,
}

/// The byte that marks a galaxy.
pub const GALAXY: u8 = 35;

/// The byte that ends a line.
pub const NEWLINE: u8 = 10;

/// Row `k` of an image that is `c` wide.
pub open spec fn row_of(data: Seq<u8>, c: int, k: int) -> Seq<u8> {
    data.subrange(k * c, k * c + c)
}

/// Whether a stretch of sky holds no galaxy.
pub open spec fn is_void(row: Seq<u8>) -> bool {
    forall|i: int| 0 <= i < row.len() ==> #[trigger] row[i] != GALAXY
}

/// The first `k` rows of an image after every row without a galaxy has been
/// doubled.
pub open spec fn expanded_upto(data: Seq<u8>, c: int, k: nat) -> Seq<u8>
    decreases k,
{
    if k == 0 {
        Seq::empty()
    } else {
        let row = row_of(data, c, k - 1);
        let before = expanded_upto(data, c, (k - 1) as nat) + row;
        if is_void(row) {
            before + row
        } else {
            before
        }
    }
}

/// The number of rows without a galaxy among the first `k`.
pub open spec fn voids_upto(data: Seq<u8>, c: int, k: nat) -> nat
    decreases k,
{
    if k == 0 {
        0
    } else {
        voids_upto(data, c, (k - 1) as nat) + if is_void(row_of(data, c, k - 1)) {
            1nat
        } else {
            0nat
        }
    }
}

proof fn lemma_expanded_len(data: Seq<u8>, c: int, k: nat)
    requires
        c >= 0,
        k * c <= data.len(),
    ensures
        expanded_upto(data, c, k).len() == (k + voids_upto(data, c, k)) * c,
        voids_upto(data, c, k) <= k,
    decreases k,
{
    if k > 0 {
        assert((k - 1) * c + c == k * c) by (nonlinear_arith);
        assert(0 <= (k - 1) * c) by (nonlinear_arith)
            requires
                c >= 0,
                k >= 1,
        ;
        lemma_expanded_len(data, c, (k - 1) as nat);
        let v = voids_upto(data, c, (k - 1) as nat) as int;
        let row = row_of(data, c, k - 1);
        assert(row.len() == c);
        assert((k - 1 + v) * c + c == (k + v) * c) by (nonlinear_arith);
        assert((k + v) * c + c == (k + v + 1) * c) by (nonlinear_arith);
    } else {
        assert((0 + 0) * c == 0) by (nonlinear_arith);
    }
}

/// The transposed image of a `width` wide and `height` high image: the
/// cell at column `x` of row `y` becomes the cell at column `y` of row `x`.
pub open spec fn transpose_spec(input: Seq<u8>, width: int, height: int) -> Seq<u8> {
    Seq::new(input.len(), |i: int| input[(i % height) * width + i / height])
}

/// `transpose::transpose`: writes the rows of the input, a row-major image of
/// the given width and height, as the columns of the output. It panics when
/// either slice is not `width * height` long.
#[verifier::external_body]
fn transposed(input: &Vec<u8>, width: usize, height: usize) -> (output: Vec<u8>)
    requires
        input.len() == width * height,
    ensures
        output@ == transpose_spec(input@, width as int, height as int),
{
    let mut output = vec![0; input.len()];
    transpose(input, &mut output, width, height);
    output
}

/// An image of the sky as a value: its bytes, row after row, its height and
/// its width.
pub struct Sky {
    pub data: Seq<u8>,
    pub r: nat,
    pub c: nat,
}

/// The sky with every row without a galaxy doubled.
pub open spec fn rows_expanded(s: Sky) -> Sky {
    Sky {
        data: expanded_upto(s.data, s.c as int, s.r),
        r: s.r + voids_upto(s.data, s.c as int, s.r),
        c: s.c,
    }
}

/// The sky with rows and columns exchanged.
pub open spec fn rotated(s: Sky) -> Sky {
    Sky { data: transpose_spec(s.data, s.c as int, s.r as int), r: s.c, c: s.r }
}

/// The sky with every row and every column without a galaxy doubled.
pub open spec fn expanded(s: Sky) -> Sky {
    rotated(rows_expanded(rotated(rows_expanded(s))))
}

fn has_galaxy(data: &Vec<u8>, from: usize, to: usize) -> (r: bool)
    requires
        from <= to <= data.len(),
    ensures
        r == !is_void(data@.subrange(from as int, to as int)),
{
    let ghost row = data@.subrange(from as int, to as int);
    let mut i = from;
    while i < to
        invariant
            from <= i <= to <= data.len(),
            row == data@.subrange(from as int, to as int),
            forall|j: int| 0 <= j < i - from ==> #[trigger] row[j] != GALAXY,
        decreases to - i,
    {
        if data[i] == GALAXY {
            assert(row[i - from] == GALAXY);
            return true;
        }
        i = i + 1;
    }
    false
}

impl Universe {
    /// Whether the image has a byte for every cell and for nothing else.
    pub open spec fn wf(&self) -> bool {
        self.data.len() == self.r * self.c
    }

    /// The image as a value.
    pub open spec fn view(&self) -> Sky {
        Sky { data: self.data@, r: self.r as nat, c: self.c as nat }
    }

    /// Turns rows into columns.
    pub fn rotate(&mut self)
        requires
            old(self).wf(),
        ensures
            final(self).wf(),
            final(self)@ == rotated(old(self)@),
    {
        assert(self.r * self.c == self.c * self.r) by (nonlinear_arith);
        let transposed = transposed(&self.data, self.c, self.r);
        self.data = transposed;
        let r = self.r;
        self.r = self.c;
        self.c = r;
    }

    /// Doubles every row without a galaxy.
    pub fn expand_rows(&mut self)
        requires
            old(self).wf(),
            2 * old(self).r <= usize::MAX,
        ensures
            final(self).wf(),
            final(self)@ == rows_expanded(old(self)@),
            final(self).r <= 2 * old(self).r,
    {
        let mut expanded: Vec<u8> = Vec::new();
        let rows = self.r;
        let c = self.c;
        let mut added: usize = 0;
        let mut k: usize = 0;
        let mut start: usize = 0;
        assert(0 * c == 0) by (nonlinear_arith);
        while k < rows
            invariant
                *self == *old(self),
                self.wf(),
                rows == self.r,
                c == self.c,
                2 * rows <= usize::MAX,
                k <= rows,
                start == k * c,
                start <= self.data.len(),
                added == voids_upto(self.data@, c as int, k as nat),
                added <= k,
                expanded@ == expanded_upto(self.data@, c as int, k as nat),
            decreases rows - k,
        {
            assert((k + 1) * c == k * c + c) by (nonlinear_arith);
            assert((k + 1) * c <= rows * c) by (nonlinear_arith)
                requires
                    k + 1 <= rows,
            ;
            let end = start + c;
            let ghost row = row_of(self.data@, c as int, k as int);
            let ghost before = expanded@;
            let doubled = !has_galaxy(&self.data, start, end);
            let mut i = start;
            while i < end
                invariant
                    start <= i <= end <= self.data.len(),
                    row == self.data@.subrange(start as int, end as int),
                    expanded@ == before + row.take(i - start),
                decreases end - i,
            {
                expanded.push(self.data[i]);
                assert(expanded@ =~= before + row.take(i + 1 - start));
                i = i + 1;
            }
            assert(row.take(end - start) =~= row);
            if doubled {
                let ghost once = expanded@;
                let mut i = start;
                while i < end
                    invariant
                        start <= i <= end <= self.data.len(),
                        row == self.data@.subrange(start as int, end as int),
                        expanded@ == once + row.take(i - start),
                    decreases end - i,
                {
                    expanded.push(self.data[i]);
                    assert(expanded@ =~= once + row.take(i + 1 - start));
                    i = i + 1;
                }
                added = added + 1;
            }
            start = end;
            k = k + 1;
        }
        proof {
            lemma_expanded_len(self.data@, c as int, rows as nat);
        }
        self.data = expanded;
        self.r = rows + added;
    }

    /// Doubles every row and every column without a galaxy.
    pub fn expand(&mut self)
        requires
            old(self).wf(),
            2 * old(self).r <= usize::MAX,
            2 * old(self).c <= usize::MAX,
        ensures
            final(self).wf(),
            final(self)@ == expanded(old(self)@),
    {
        self.expand_rows();
        self.rotate();
        self.expand_rows();
        self.rotate();
    }
}

/// The index of the first line end at or after `from`, or the length.
pub open spec fn first_line_end(bytes: Seq<u8>, from: int) -> int
    decreases bytes.len() - from,
{
    if from < 0 || from >= bytes.len() || bytes[from] == NEWLINE {
        from
    } else {
        first_line_end(bytes, from + 1)
    }
}

/// The number of line ends among the first `k` bytes.
pub open spec fn line_ends_upto(bytes: Seq<u8>, k: nat) -> nat
    decreases k,
{
    if k == 0 || k > bytes.len() {
        0
    } else {
        line_ends_upto(bytes, (k - 1) as nat) + if bytes[k - 1] == NEWLINE {
            1nat
        } else {
            0nat
        }
    }
}

/// The bytes of a text other than its line ends.
pub open spec fn without_line_ends(bytes: Seq<u8>) -> Seq<u8> {
    bytes.filter(|b: u8| b != NEWLINE)
}

/// The image that a text shows: as wide as the first line is long, with a
/// row for every piece between line ends, the piece after the last included.
pub open spec fn image_of(bytes: Seq<u8>) -> Sky {
    Sky {
        data: without_line_ends(bytes),
        r: line_ends_upto(bytes, bytes.len()) + 1,
        c: first_line_end(bytes, 0) as nat,
    }
}

/// Reads an image of the sky.
pub fn parse_input(input: &str) -> (u: Universe)
    requires
        input.spec_bytes().len() < usize::MAX,
    ensures
        u@ == image_of(input.spec_bytes()),
{
    let v = input.as_bytes();
    let n = v.len();
    let mut n_cols: usize = 0;
    while n_cols < n && v[n_cols] != NEWLINE
        invariant
            n == v@.len(),
            n_cols <= n,
            first_line_end(v@, 0) == first_line_end(v@, n_cols as int),
        decreases n - n_cols,
    {
        n_cols = n_cols + 1;
    }
    let mut data: Vec<u8> = Vec::new();
    let mut line_ends: usize = 0;
    let mut i: usize = 0;
    assert(v@.take(0) =~= Seq::<u8>::empty());
    while i < n
        invariant
            n == v@.len(),
            i <= n,
            line_ends == line_ends_upto(v@, i as nat),
            line_ends <= i,
            data@ == without_line_ends(v@.take(i as int)),
        decreases n - i,
    {
        let c = v[i];
        proof {
            assert(v@.take(i + 1).drop_last() =~= v@.take(i as int));
            assert(v@.take(i + 1).last() == c);
            reveal(Seq::filter);
        }
        if c != NEWLINE {
            data.push(c);
        } else {
            line_ends = line_ends + 1;
        }
        i = i + 1;
    }
    assert(v@.take(n as int) =~= v@);
    Universe { data, r: line_ends + 1, c: n_cols }
}

/// The cell of every galaxy among the first `k` bytes of an image that is
/// `c` wide, as row and column.
pub open spec fn galaxies_upto(data: Seq<u8>, c: int, k: nat) -> Seq<(usize, usize)>
    decreases k,
{
    if k == 0 || k > data.len() {
        Seq::empty()
    } else {
        let before = galaxies_upto(data, c, (k - 1) as nat);
        if data[k - 1] == GALAXY {
            before.push((((k - 1) / c) as usize, ((k - 1) % c) as usize))
        } else {
            before
        }
    }
}

/// The number of steps between two cells, moving along rows and columns.
pub open spec fn distance(a: (usize, usize), b: (usize, usize)) -> nat {
    (if a.0 > b.0 {
        a.0 - b.0
    } else {
        b.0 - a.0
    } + if a.1 > b.1 {
        a.1 - b.1
    } else {
        b.1 - a.1
    }) as nat
}

/// The sum of the distances from cell `i` to the cells after it and before `j`.
pub open spec fn reach_upto(cells: Seq<(usize, usize)>, i: int, j: int) -> nat
    decreases j - i,
{
    if i < 0 || j <= i + 1 || j > cells.len() {
        0
    } else {
        reach_upto(cells, i, j - 1) + distance(cells[i], cells[j - 1])
    }
}

/// The sum of the distances between the pairs of cells whose first is among
/// the first `i`.
pub open spec fn pairs_upto(cells: Seq<(usize, usize)>, i: nat) -> nat
    decreases i,
{
    if i == 0 || i > cells.len() {
        0
    } else {
        pairs_upto(cells, (i - 1) as nat) + reach_upto(cells, i - 1, cells.len() as int)
    }
}

/// The sum of the distances between all pairs of galaxies of an image.
pub open spec fn total_distance(s: Sky) -> nat {
    let cells = galaxies_upto(s.data, s.c as int, s.data.len());
    pairs_upto(cells, cells.len())
}

proof fn lemma_reach_grows(cells: Seq<(usize, usize)>, i: int, j: int)
    requires
        0 <= i < j <= cells.len(),
    ensures
        reach_upto(cells, i, j) <= reach_upto(cells, i, cells.len() as int),
    decreases cells.len() - j,
{
    if j < cells.len() {
        lemma_reach_grows(cells, i, j + 1);
    }
}

proof fn lemma_pairs_grow(cells: Seq<(usize, usize)>, i: nat)
    requires
        i <= cells.len(),
    ensures
        pairs_upto(cells, i) <= pairs_upto(cells, cells.len()),
    decreases cells.len() - i,
{
    if i < cells.len() {
        lemma_pairs_grow(cells, i + 1);
    }
}

fn find_galaxies(data: &Vec<u8>, c: usize) -> (cells: Vec<(usize, usize)>)
    requires
        c > 0,
    ensures
        cells@ == galaxies_upto(data@, c as int, data.len() as nat),
{
    let mut positions: Vec<(usize, usize)> = Vec::new();
    let n = data.len();
    let mut idx: usize = 0;
    while idx < n
        invariant
            n == data.len(),
            idx <= n,
            c > 0,
            positions@ == galaxies_upto(data@, c as int, idx as nat),
        decreases n - idx,
    {
        if data[idx] == GALAXY {
            positions.push((idx / c, idx % c));
        }
        idx = idx + 1;
    }
    positions
}

fn distance_between(a: (usize, usize), b: (usize, usize)) -> (r: Option<usize>)
    ensures
        match r {
            Some(d) => d == distance(a, b),
            None => distance(a, b) > usize::MAX,
        },
{
    let d_row = if a.0 > b.0 {
        a.0 - b.0
    } else {
        b.0 - a.0
    };
    let d_col = if a.1 > b.1 {
        a.1 - b.1
    } else {
        b.1 - a.1
    };
    d_row.checked_add(d_col)
}

/// The sum of the distances between all pairs of galaxies.
pub fn solve(universe: &Universe) -> (sum: usize)
    requires
        universe.c > 0,
        total_distance(universe@) <= usize::MAX,
    ensures
        sum == total_distance(universe@),
{
    try_solve(universe).unwrap()
}

/// The sum of the distances between all pairs of galaxies, if the image has
/// a width and the sum fits.
pub fn try_solve(universe: &Universe) -> (r: Option<usize>)
    ensures
        match r {
            Some(sum) => universe.c > 0 && sum == total_distance(universe@),
            None => universe.c == 0 || total_distance(universe@) > usize::MAX,
        },
{
    if universe.c == 0 {
        return None;
    }
    let positions = find_galaxies(&universe.data, universe.c);
    let n = positions.len();
    let ghost cells = positions@;
    let mut sum: usize = 0;
    let mut i: usize = 0;
    while i < n
        invariant
            n == positions.len(),
            cells == positions@,
            universe.c > 0,
            i <= n,
            pairs_upto(cells, n as nat) == total_distance(universe@),
            sum == pairs_upto(cells, i as nat),
        decreases n - i,
    {
        let ghost base = sum;
        let mut j: usize = i + 1;
        proof {
            lemma_pairs_grow(cells, (i + 1) as nat);
        }
        while j < n
            invariant
                n == positions.len(),
                cells == positions@,
                universe.c > 0,
                i < n,
                i + 1 <= j <= n,
                pairs_upto(cells, n as nat) == total_distance(universe@),
                base + reach_upto(cells, i as int, n as int) <= pairs_upto(cells, n as nat),
                sum == base + reach_upto(cells, i as int, j as int),
            decreases n - j,
        {
            proof {
                lemma_reach_grows(cells, i as int, j + 1);
            }
            let d = match distance_between(positions[i], positions[j]) {
                Some(d) => d,
                None => {
                    return None;
                },
            };
            sum = match sum.checked_add(d) {
                Some(sum) => sum,
                None => {
                    return None;
                },
            };
            j = j + 1;
        }
        i = i + 1;
    }
    Some(sum)
}

/// The sum of the costs from index `lo` up to, not including, index `hi`.
pub open spec fn span_cost(costs: Seq<usize>, lo: int, hi: int) -> nat
    decreases hi - lo,
{
    if lo < 0 || hi <= lo || hi > costs.len() {
        0
    } else {
        span_cost(costs, lo, hi - 1) + costs[hi - 1] as nat
    }
}

/// The cost of going from one cell to another: the costs of the rows and
/// columns that lie between them, those of the cell nearer the origin included.
pub open spec fn weighted_distance(
    rows: Seq<usize>,
    cols: Seq<usize>,
    a: (usize, usize),
    b: (usize, usize),
) -> nat {
    (if a.0 < b.0 {
        span_cost(rows, a.0 as int, b.0 as int)
    } else {
        span_cost(rows, b.0 as int, a.0 as int)
    }) + (if a.1 < b.1 {
        span_cost(cols, a.1 as int, b.1 as int)
    } else {
        span_cost(cols, b.1 as int, a.1 as int)
    })
}

/// The sum of the costs of going from cell `i` to the cells after it and before `j`.
pub open spec fn weighted_reach(
    rows: Seq<usize>,
    cols: Seq<usize>,
    cells: Seq<(usize, usize)>,
    i: int,
    j: int,
) -> nat
    decreases j - i,
{
    if i < 0 || j <= i + 1 || j > cells.len() {
        0
    } else {
        weighted_reach(rows, cols, cells, i, j - 1) + weighted_distance(
            rows,
            cols,
            cells[i],
            cells[j - 1],
        )
    }
}

/// The sum of the costs of going between the pairs of cells whose first is
/// among the first `i`.
pub open spec fn weighted_pairs(
    rows: Seq<usize>,
    cols: Seq<usize>,
    cells: Seq<(usize, usize)>,
    i: nat,
) -> nat
    decreases i,
{
    if i == 0 || i > cells.len() {
        0
    } else {
        weighted_pairs(rows, cols, cells, (i - 1) as nat) + weighted_reach(
            rows,
            cols,
            cells,
            i - 1,
            cells.len() as int,
        )
    }
}

impl Universe2 {
    /// The galaxies of the image, as row and column.
    pub open spec fn galaxies(&self) -> Seq<(usize, usize)> {
        galaxies_upto(self.data@, self.c as int, self.data.len() as nat)
    }

    /// Whether every galaxy lies in a row and in a column that has a cost.
    pub open spec fn wf(&self) -> bool {
        self.c > 0 && forall|i: int|
            0 <= i < self.galaxies().len() ==> (#[trigger] self.galaxies()[i]).0
                < self.row_costs.len() && self.galaxies()[i].1 < self.col_costs.len()
    }

    /// The sum of the costs of going between all pairs of galaxies.
    pub open spec fn total_cost(&self) -> nat {
        weighted_pairs(
            self.row_costs@,
            self.col_costs@,
            self.galaxies(),
            self.galaxies().len(),
        )
    }
}

proof fn lemma_span_grows(costs: Seq<usize>, lo: int, k: int, hi: int)
    requires
        0 <= lo <= k <= hi <= costs.len(),
    ensures
        span_cost(costs, lo, k) <= span_cost(costs, lo, hi),
    decreases hi - k,
{
    if k < hi {
        lemma_span_grows(costs, lo, k, hi - 1);
    }
}

proof fn lemma_weighted_reach_grows(
    rows: Seq<usize>,
    cols: Seq<usize>,
    cells: Seq<(usize, usize)>,
    i: int,
    j: int,
)
    requires
        0 <= i < j <= cells.len(),
    ensures
        weighted_reach(rows, cols, cells, i, j) <= weighted_reach(
            rows,
            cols,
            cells,
            i,
            cells.len() as int,
        ),
    decreases cells.len() - j,
{
    if j < cells.len() {
        lemma_weighted_reach_grows(rows, cols, cells, i, j + 1);
    }
}

proof fn lemma_weighted_pairs_grow(
    rows: Seq<usize>,
    cols: Seq<usize>,
    cells: Seq<(usize, usize)>,
    i: nat,
)
    requires
        i <= cells.len(),
    ensures
        weighted_pairs(rows, cols, cells, i) <= weighted_pairs(rows, cols, cells, cells.len()),
    decreases cells.len() - i,
{
    if i < cells.len() {
        lemma_weighted_pairs_grow(rows, cols, cells, i + 1);
    }
}

fn cost_between(costs: &Vec<usize>, lo: usize, hi: usize) -> (r: Option<usize>)
    requires
        lo <= hi <= costs.len(),
    ensures
        match r {
            Some(sum) => sum == span_cost(costs@, lo as int, hi as int),
            None => span_cost(costs@, lo as int, hi as int) > usize::MAX,
        },
{
    let mut sum: usize = 0;
    let mut k = lo;
    while k < hi
        invariant
            lo <= k <= hi <= costs.len(),
            sum == span_cost(costs@, lo as int, k as int),
        decreases hi - k,
    {
        proof {
            lemma_span_grows(costs@, lo as int, k + 1, hi as int);
        }
        sum = match sum.checked_add(costs[k]) {
            Some(sum) => sum,
            None => {
                return None;
            },
        };
        k = k + 1;
    }
    Some(sum)
}

fn weighted_between(
    rows: &Vec<usize>,
    cols: &Vec<usize>,
    a: (usize, usize),
    b: (usize, usize),
) -> (r: Option<usize>)
    requires
        a.0 < rows.len(),
        b.0 < rows.len(),
        a.1 < cols.len(),
        b.1 < cols.len(),
    ensures
        match r {
            Some(d) => d == weighted_distance(rows@, cols@, a, b),
            None => weighted_distance(rows@, cols@, a, b) > usize::MAX,
        },
{
    let d_row = if a.0 < b.0 {
        cost_between(rows, a.0, b.0)
    } else {
        cost_between(rows, b.0, a.0)
    };
    let d_col = if a.1 < b.1 {
        cost_between(cols, a.1, b.1)
    } else {
        cost_between(cols, b.1, a.1)
    };
    match (d_row, d_col) {
        (Some(d_row), Some(d_col)) => d_row.checked_add(d_col),
        _ => None,
    }
}

/// The sum of the costs of going between all pairs of galaxies.
pub fn solve2(universe: &Universe2) -> (sum: usize)
    requires
        universe.wf(),
        universe.total_cost() <= usize::MAX,
    ensures
        sum == universe.total_cost(),
{
    try_solve2(universe).unwrap()
}

impl Universe2 {
    /// Whether every galaxy lies in a row and in a column that has a cost.
    pub fn is_whole(&self) -> (r: bool)
        ensures
            r == self.wf(),
    {
        if self.c == 0 {
            return false;
        }
        let positions = find_galaxies(&self.data, self.c);
        let mut i: usize = 0;
        while i < positions.len()
            invariant
                i <= positions.len(),
                positions@ == self.galaxies(),
                forall|k: int|
                    0 <= k < i ==> (#[trigger] positions[k]).0 < self.row_costs.len()
                        && positions[k].1 < self.col_costs.len(),
            decreases positions.len() - i,
        {
            if positions[i].0 >= self.row_costs.len() || positions[i].1 >= self.col_costs.len() {
                return false;
            }
            i = i + 1;
        }
        true
    }
}

/// The sum of the costs of going between all pairs of galaxies, if every
/// galaxy lies in a row and in a column that has a cost and the sum fits.
pub fn try_solve2(universe: &Universe2) -> (r: Option<usize>)
    ensures
        match r {
            Some(sum) => universe.wf() && sum == universe.total_cost(),
            None => !universe.wf() || universe.total_cost() > usize::MAX,
        },
{
    if !universe.is_whole() {
        return None;
    }
    let positions = find_galaxies(&universe.data, universe.c);
    let n = positions.len();
    let ghost cells = positions@;
    let ghost rows = universe.row_costs@;
    let ghost cols = universe.col_costs@;
    let mut sum: usize = 0;
    let mut i: usize = 0;
    while i < n
        invariant
            n == positions.len(),
            cells == positions@,
            cells == universe.galaxies(),
            rows == universe.row_costs@,
            cols == universe.col_costs@,
            universe.wf(),
            i <= n,
            sum == weighted_pairs(rows, cols, cells, i as nat),
        decreases n - i,
    {
        let ghost base = sum;
        let mut j: usize = i + 1;
        proof {
            lemma_weighted_pairs_grow(rows, cols, cells, (i + 1) as nat);
        }
        while j < n
            invariant
                n == positions.len(),
                cells == positions@,
                cells == universe.galaxies(),
                rows == universe.row_costs@,
                cols == universe.col_costs@,
                universe.wf(),
                i < n,
                i + 1 <= j <= n,
                base + weighted_reach(rows, cols, cells, i as int, n as int) <= weighted_pairs(
                    rows,
                    cols,
                    cells,
                    n as nat,
                ),
                sum == base + weighted_reach(rows, cols, cells, i as int, j as int),
            decreases n - j,
        {
            proof {
                lemma_weighted_reach_grows(rows, cols, cells, i as int, j + 1);
                assert(cells[i as int].0 < rows.len());
                assert(cells[j as int].0 < rows.len());
            }
            let d = match weighted_between(
                &universe.row_costs,
                &universe.col_costs,
                positions[i],
                positions[j],
            ) {
                Some(d) => d,
                None => {
                    return None;
                },
            };
            sum = match sum.checked_add(d) {
                Some(sum) => sum,
                None => {
                    return None;
                },
            };
            j = j + 1;
        }
        i = i + 1;
    }
    Some(sum)
}

/// What it costs to cross each of the `n` rows of an image that is `c`
/// wide: `extra_cost` for a row without a galaxy, one for any other.
pub open spec fn crossing_costs(data: Seq<u8>, c: int, n: nat, extra_cost: usize) -> Seq<usize> {
    Seq::new(
        n,
        |i: int|
            if is_void(row_of(data, c, i)) {
                extra_cost
            } else {
                1usize
            },
    )
}

fn costs_of_rows(data: &Vec<u8>, c: usize, n: usize, extra_cost: usize) -> (costs: Vec<usize>)
    requires
        data.len() == n * c,
    ensures
        costs@ == crossing_costs(data@, c as int, n as nat, extra_cost),
{
    let mut costs: Vec<usize> = Vec::new();
    let mut k: usize = 0;
    let mut start: usize = 0;
    assert(0 * c == 0) by (nonlinear_arith);
    while k < n
        invariant
            data.len() == n * c,
            k <= n,
            start == k * c,
            costs@ == crossing_costs(data@, c as int, k as nat, extra_cost),
        decreases n - k,
    {
        assert((k + 1) * c == k * c + c) by (nonlinear_arith);
        assert((k + 1) * c <= n * c) by (nonlinear_arith)
            requires
                k + 1 <= n,
        ;
        let end = start + c;
        if has_galaxy(data, start, end) {
            costs.push(1);
        } else {
            costs.push(extra_cost);
        }
        assert(costs@ =~= crossing_costs(data@, c as int, (k + 1) as nat, extra_cost));
        start = end;
        k = k + 1;
    }
    costs
}

/// Reads an image of the sky and works out what it costs to cross each row
/// and each column: `extra_cost` for those without a galaxy, one for the
/// others.
pub fn parse_input2(input: &str, extra_cost: usize) -> (u: Universe2)
    requires
        input.spec_bytes().len() < usize::MAX,
        image_of(input.spec_bytes()).data.len() == image_of(input.spec_bytes()).r * image_of(
            input.spec_bytes(),
        ).c,
    ensures
        u.data@ == image_of(input.spec_bytes()).data,
        u.r == image_of(input.spec_bytes()).r,
        u.c == image_of(input.spec_bytes()).c,
        u.row_costs@ == crossing_costs(u.data@, u.c as int, u.r as nat, extra_cost),
        u.col_costs@ == crossing_costs(
            transpose_spec(u.data@, u.c as int, u.r as int),
            u.r as int,
            u.c as nat,
            extra_cost,
        ),
{
    let plain = parse_input(input);
    let row_costs = costs_of_rows(&plain.data, plain.c, plain.r, extra_cost);
    assert(plain.r * plain.c == plain.c * plain.r) by (nonlinear_arith);
    let turned = transposed(&plain.data, plain.c, plain.r);
    let col_costs = costs_of_rows(&turned, plain.r, plain.c, extra_cost);
    Universe2 { data: plain.data, r: plain.r, c: plain.c, row_costs, col_costs }
}

impl Universe {
    /// Whether the image has a byte for every cell and for nothing else.
    pub fn is_whole(&self) -> (r: bool)
        ensures
            r == self.wf(),
    {
        whole(self.data.len(), self.r, self.c)
    }
}

/// Whether `len` is `r` times `c`.
fn whole(len: usize, r: usize, c: usize) -> (b: bool)
    ensures
        b == (len == r * c),
{
    if c == 0 || r == 0 {
        assert(r * c == 0) by (nonlinear_arith)
            requires
                r == 0 || c == 0,
        ;
        return len == 0;
    }
    if r > usize::MAX / c {
        assert(r * c > usize::MAX) by (nonlinear_arith)
            requires
                r > usize::MAX / c,
                c > 0,
        ;
        return false;
    }
    assert(r * c <= usize::MAX) by (nonlinear_arith)
        requires
            r <= usize::MAX / c,
            c > 0,
    ;
    len == r * c
}

} // verus!
