use crate::text::all_digits;
use crate::text::chars_of;
use crate::text::decimal_value;
use crate::text::digit_of;
use crate::text::digit_value;
use crate::text::parse_number;
use vstd::arithmetic::div_mod::lemma_fundamental_div_mod_converse;
use vstd::prelude::*;

verus! {

/// A grid of characters, stored row after row.
#[derive(Debug)]
pub struct Matrix {
    pub rows: usize,
    pub columns: usize,
    pub data: Vec<char>,
}

/// A number of the grid, the symbols around it, and where it ends.
#[derive(Debug)]
pub struct NumberWithBoundary {
    pub number: usize,
    pub boundary: Vec<char>,
    pub r: usize,
    pub c: usize,
}

/// The index of the first line feed at or after `from`, or the length.
pub open spec fn first_newline(s: Seq<char>, from: int) -> int
    decreases s.len() - from,
{
    if from < 0 || from >= s.len() || s[from] == '\n' {
        from
    } else {
        first_newline(s, from + 1)
    }
}

/// A text without its line feeds.
pub open spec fn without_newlines(s: Seq<char>) -> Seq<char> {
    s.filter(|c: char| c != '\n')
}

impl Matrix {
    /// Whether the cell is one of the grid's.
    pub open spec fn holds(&self, row: usize, column: usize) -> bool {
        row < self.rows && column < self.columns
    }

    /// Whether there is a character for every cell and for nothing else.
    pub open spec fn wf(&self) -> bool {
        self.data.len() == self.rows * self.columns
    }

    /// The character of a cell.
    pub open spec fn cell(&self, row: int, column: int) -> char {
        self.data[row * self.columns + column]
    }

    /// An empty grid of the given size, to be filled row after row.
    pub fn new(rows: usize, columns: usize) -> (m: Self)
        requires
            rows * columns <= usize::MAX,
        ensures
            m.rows == rows,
            m.columns == columns,
            m.data@ == Seq::<char>::empty(),
    {
        Self { rows, columns, data: Vec::with_capacity(rows * columns) }
    }

    /// Reads a grid from a text whose lines all end with a line feed: the
    /// width is the length of the first line, the height is the number of
    /// whole widths in the text less one, and the cells are the characters
    /// other than line feeds.
    pub fn from_str(input: &str) -> (m: Self)
        requires
            0 < first_newline(input@, 0) < input@.len(),
            input@.len() / (first_newline(input@, 0) as nat) >= 2,
        ensures
            m.columns == first_newline(input@, 0),
            m.rows == input@.len() / (m.columns as nat) - 1,
            m.data@ == without_newlines(input@),
    {
        let text = chars_of(input);
        let n = text.len();
        let mut columns: usize = 0;
        while columns < n && text[columns] != '\n'
            invariant
                n == text.len(),
                columns <= n,
                first_newline(text@, 0) == first_newline(text@, columns as int),
            decreases n - columns,
        {
            columns = columns + 1;
        }
        let rows = n / columns - 1;
        assert(rows * columns <= n) by (nonlinear_arith)
            requires
                rows == n / columns - 1,
                columns > 0,
        ;
        let mut matrix = Self::new(rows, columns);
        let mut i: usize = 0;
        assert(text@.take(0) =~= Seq::<char>::empty());
        while i < n
            invariant
                n == text.len(),
                i <= n,
                matrix.rows == rows,
                matrix.columns == columns,
                matrix.data@ == without_newlines(text@.take(i as int)),
            decreases n - i,
        {
            let c = text[i];
            proof {
                assert(text@.take(i + 1).drop_last() =~= text@.take(i as int));
                assert(text@.take(i + 1).last() == c);
                reveal(Seq::filter);
            }
            if c != '\n' {
                matrix.data.push(c);
            }
            i = i + 1;
        }
        assert(text@.take(n as int) =~= text@);
        matrix
    }

    /// The character at a cell.
    pub fn at(&self, row: usize, column: usize) -> (c: char)
        requires
            row * self.columns + column < self.data.len(),
        ensures
            c == self.cell(row as int, column as int),
    {
        self.data[row * self.columns + column]
    }

    /// Blanks a cell with a dot.
    pub fn clear_at(&mut self, row: usize, column: usize)
        requires
            row * old(self).columns + column < old(self).data.len(),
        ensures
            final(self).rows == old(self).rows,
            final(self).columns == old(self).columns,
            final(self).data@ == old(self).data@.update(row * old(self).columns + column, '.'),
    {
        let idx = row * self.columns + column;
        self.data.set(idx, '.');
    }

    /// The characters around a cell, row by row from the one above: to its
    /// left and right only where asked for, and only what lies in the grid.
    pub open spec fn boundary_spec(&self, row: int, column: int, left: bool, right: bool) -> Seq<
        char,
    > {
        let up = row > 0;
        let down = row < self.rows - 1;
        let west = column > 0;
        let east = column < self.columns - 1;
        pick(up && west, self.cell(row - 1, column - 1)) + pick(up, self.cell(row - 1, column))
            + pick(up && east, self.cell(row - 1, column + 1)) + pick(
            west && left,
            self.cell(row, column - 1),
        ) + pick(east && right, self.cell(row, column + 1)) + pick(
            down && west,
            self.cell(row + 1, column - 1),
        ) + pick(down, self.cell(row + 1, column)) + pick(
            down && east,
            self.cell(row + 1, column + 1),
        )
    }

    /// Every cell of a well-formed grid has its character.
    pub proof fn lemma_cell_in_range(&self, row: int, column: int)
        requires
            self.wf(),
            0 <= row < self.rows,
            0 <= column < self.columns,
        ensures
            0 <= row * self.columns + column < self.data.len(),
    {
        assert(0 <= row * self.columns + column < self.rows * self.columns) by (nonlinear_arith)
            requires
                0 <= row < self.rows,
                0 <= column < self.columns,
        ;
    }

    /// The character at a cell of a well-formed grid.
    pub fn get(&self, row: usize, column: usize) -> (c: char)
        requires
            self.wf(),
            self.holds(row, column),
        ensures
            c == self.cell(row as int, column as int),
    {
        proof {
            self.lemma_cell_in_range(row as int, column as int);
        }
        self.at(row, column)
    }

    /// The characters around a cell.
    #[verifier::rlimit(60)]
    pub fn boundary(&self, row: usize, column: usize, left: bool, right: bool) -> (around: Vec<
        char,
    >)
        requires
            self.wf(),
            self.holds(row, column),
        ensures
            around@ == self.boundary_spec(row as int, column as int, left, right),
    {
        let mut boundary: Vec<char> = Vec::new();
        let ghost r = row as int;
        let ghost c = column as int;
        let up = row > 0;
        let down = row < self.rows - 1;
        let west = column > 0;
        let east = column < self.columns - 1;
        if up && west {
            boundary.push(self.get(row - 1, column - 1));
        }
        let ghost s1 = boundary@;
        assert(s1 =~= pick(up && west, self.cell(r - 1, c - 1)));
        if up {
            boundary.push(self.get(row - 1, column));
        }
        let ghost s2 = boundary@;
        assert(s2 =~= s1 + pick(up, self.cell(r - 1, c)));
        if up && east {
            boundary.push(self.get(row - 1, column + 1));
        }
        let ghost s3 = boundary@;
        assert(s3 =~= s2 + pick(up && east, self.cell(r - 1, c + 1)));
        if west && left {
            boundary.push(self.get(row, column - 1));
        }
        let ghost s4 = boundary@;
        assert(s4 =~= s3 + pick(west && left, self.cell(r, c - 1)));
        if east && right {
            boundary.push(self.get(row, column + 1));
        }
        let ghost s5 = boundary@;
        assert(s5 =~= s4 + pick(east && right, self.cell(r, c + 1)));
        if down && west {
            boundary.push(self.get(row + 1, column - 1));
        }
        let ghost s6 = boundary@;
        assert(s6 =~= s5 + pick(down && west, self.cell(r + 1, c - 1)));
        if down {
            boundary.push(self.get(row + 1, column));
        }
        let ghost s7 = boundary@;
        assert(s7 =~= s6 + pick(down, self.cell(r + 1, c)));
        if down && east {
            boundary.push(self.get(row + 1, column + 1));
        }
        assert(boundary@ =~= s7 + pick(down && east, self.cell(r + 1, c + 1)));
        boundary
    }
}

/// The one character, if it is wanted, or nothing.
pub open spec fn pick(wanted: bool, c: char) -> Seq<char> {
    if wanted {
        seq![c]
    } else {
        Seq::empty()
    }
}

/// The number of digits that stand one after the other from index `from`
/// on, `budget` at most.
pub open spec fn run_len(data: Seq<char>, from: int, budget: nat) -> nat
    decreases budget,
{
    if budget == 0 || from < 0 || from >= data.len() || digit_value(data[from]) is None {
        0
    } else {
        1 + run_len(data, from + 1, (budget - 1) as nat)
    }
}

/// The digits that stand one after the other from index `from` on,
/// `budget` at most.
pub open spec fn run_right(data: Seq<char>, from: int, budget: nat) -> Seq<char> {
    data.subrange(from, from + run_len(data, from, budget))
}

proof fn lemma_run_len(data: Seq<char>, from: int, budget: nat)
    requires
        0 <= from <= data.len(),
    ensures
        run_len(data, from, budget) <= budget,
        from + run_len(data, from, budget) <= data.len(),
    decreases budget,
{
    if !(budget == 0 || from >= data.len() || digit_value(data[from]) is None) {
        lemma_run_len(data, from + 1, (budget - 1) as nat);
    }
}

/// The column at which the digits that end just before column `c` of the
/// row that starts at index `base` begin.
pub open spec fn run_start(data: Seq<char>, base: int, c: int) -> int
    decreases c,
{
    if c <= 0 || digit_value(data[base + c - 1]) is None {
        c
    } else {
        run_start(data, base, c - 1)
    }
}

/// The digits that end just before column `c` of the row that starts at
/// index `base`.
pub open spec fn run_left(data: Seq<char>, base: int, c: int) -> Seq<char> {
    data.subrange(base + run_start(data, base, c), base + c)
}

/// The column at which a search to the left from column `c`, over digits,
/// comes to a stop: the first column that is the leftmost or holds no digit.
pub open spec fn left_stop(data: Seq<char>, base: int, c: int) -> int
    decreases c,
{
    if c > 0 && digit_value(data[base + c]) is Some {
        left_stop(data, base, c - 1)
    } else {
        c
    }
}

/// A grid of characters as a value.
pub struct Chart {
    pub rows: usize,
    pub columns: usize,
    pub data: Seq<char>,
}

impl Chart {
    /// The index at which a row starts.
    pub open spec fn base(&self, row: int) -> int {
        row * self.columns
    }

    /// The number to the left of a cell.
    pub open spec fn west_of(&self, row: int, column: int) -> Option<u32> {
        if 0 <= row < self.rows {
            number_of(run_left(self.data, self.base(row), column))
        } else {
            None
        }
    }

    /// The number that starts right of a cell: its digits from the next
    /// index on, one for every column from the cell's on; so it may run on
    /// into the first cell of the next row.
    pub open spec fn east_of(&self, row: int, column: int) -> Option<u32> {
        if 0 <= row < self.rows {
            number_of(
                run_right(
                    self.data,
                    self.base(row) + column + 1,
                    (self.columns - column) as nat,
                ),
            )
        } else {
            None
        }
    }

    /// The number in row `row` that a cell of column `column` touches from
    /// above or below, if that row has a digit in this column: its digits
    /// from where a search to the left came to a stop, which leaves out a
    /// digit in the leftmost column, to the next character that is none.
    pub open spec fn beside_of(&self, row: int, column: int) -> Option<u32> {
        if 0 <= row < self.rows && digit_value(self.data[row * self.columns + column]) is Some {
            number_of(
                run_right(
                    self.data,
                    self.base(row) + left_stop(self.data, self.base(row), column) + 1,
                    self.data.len() as nat,
                ),
            )
        } else {
            None
        }
    }

}

/// The number that digits write, if there are any and it fits in 32 bits.
pub open spec fn number_of(digits: Seq<char>) -> Option<u32> {
    if digits.len() > 0 && all_digits(digits) && decimal_value(digits) <= u32::MAX {
        Some(decimal_value(digits) as u32)
    } else {
        None
    }
}

fn read_number(digits: &Vec<char>) -> (r: Option<u32>)
    ensures
        r == number_of(digits@),
{
    match parse_number(digits) {
        Some(v) => if v <= u32::MAX as u64 {
            Some(v as u32)
        } else {
            None
        },
        None => None,
    }
}

fn is_digit(c: char) -> (r: bool)
    ensures
        r == digit_value(c) is Some,
{
    digit_of(c).is_some()
}

fn collect_right(data: &Vec<char>, from: usize, budget: usize) -> (digits: Vec<char>)
    requires
        from <= data.len(),
    ensures
        digits@ == run_right(data@, from as int, budget as nat),
{
    let mut digits: Vec<char> = Vec::new();
    let mut i = from;
    let mut left = budget;
    proof {
        lemma_run_len(data@, from as int, budget as nat);
    }
    while left > 0 && i < data.len() && is_digit(data[i])
        invariant
            from <= i <= data.len(),
            left <= budget,
            digits@ == data@.subrange(from as int, i as int),
            run_len(data@, from as int, budget as nat) == (i - from) + run_len(
                data@,
                i as int,
                left as nat,
            ),
        decreases left,
    {
        digits.push(data[i]);
        assert(digits@ =~= data@.subrange(from as int, i + 1));
        i = i + 1;
        left = left - 1;
    }
    digits
}

fn collect_left(data: &Vec<char>, base: usize, c: usize) -> (digits: Vec<char>)
    requires
        base + c <= data.len(),
    ensures
        digits@ == run_left(data@, base as int, c as int),
{
    let mut start = c;
    while start > 0 && is_digit(data[base + start - 1])
        invariant
            start <= c,
            base + c <= data.len(),
            run_start(data@, base as int, c as int) == run_start(data@, base as int, start as int),
        decreases start,
    {
        start = start - 1;
    }
    let mut digits: Vec<char> = Vec::new();
    let mut i = start;
    while i < c
        invariant
            start <= i <= c,
            base + c <= data.len(),
            digits@ == data@.subrange(base + start, base + i),
        decreases c - i,
    {
        digits.push(data[base + i]);
        assert(digits@ =~= data@.subrange(base + start, base + i + 1));
        i = i + 1;
    }
    digits
}

impl Matrix {
    /// The index at which a row starts.
    pub open spec fn base(&self, row: int) -> int {
        self@.base(row)
    }

    /// The number to the left of a cell.
    pub open spec fn west_of(&self, row: int, column: int) -> Option<u32> {
        self@.west_of(row, column)
    }

    /// The number that starts right of a cell.
    pub open spec fn east_of(&self, row: int, column: int) -> Option<u32> {
        self@.east_of(row, column)
    }

    /// The number in row `row` that a cell of column `column` touches from
    /// above or below.
    pub open spec fn beside_of(&self, row: int, column: int) -> Option<u32> {
        self@.beside_of(row, column)
    }

    /// The grid as a value.
    pub open spec fn view(&self) -> Chart {
        Chart { rows: self.rows, columns: self.columns, data: self.data@ }
    }

    fn row_base(&self, row: usize) -> (base: usize)
        requires
            self.wf(),
            row < self.rows,
        ensures
            base == self.base(row as int),
            base + self.columns <= self.data.len(),
    {
        assert(row * self.columns + self.columns <= self.rows * self.columns) by (nonlinear_arith)
            requires
                row < self.rows,
        ;
        row * self.columns
    }

    fn left_number(&self, row: usize, column: usize) -> (r: Option<u32>)
        requires
            self.wf(),
            column < self.columns,
        ensures
            r == self.west_of(row as int, column as int),
    {
        if row >= self.rows {
            return None;
        }
        let base = self.row_base(row);
        read_number(&collect_left(&self.data, base, column))
    }

    fn right_number(&self, row: usize, column: usize) -> (r: Option<u32>)
        requires
            self.wf(),
            column < self.columns,
        ensures
            r == self.east_of(row as int, column as int),
    {
        if row >= self.rows {
            return None;
        }
        let base = self.row_base(row);
        read_number(&collect_right(&self.data, base + column + 1, self.columns - column))
    }

    fn beside_number(&self, row: usize, column: usize) -> (r: Option<u32>)
        requires
            self.wf(),
            column < self.columns,
        ensures
            r == self.beside_of(row as int, column as int),
    {
        if row >= self.rows {
            return None;
        }
        let base = self.row_base(row);
        if !is_digit(self.data[base + column]) {
            return None;
        }
        let mut c = column;
        while c > 0 && is_digit(self.data[base + c])
            invariant
                c <= column,
                base + self.columns <= self.data.len(),
                column < self.columns,
                left_stop(self.data@, base as int, column as int) == left_stop(
                    self.data@,
                    base as int,
                    c as int,
                ),
            decreases c,
        {
            c = c - 1;
        }
        read_number(&collect_right(&self.data, base + c + 1, self.data.len()))
    }
}

/// The number diagonally up and to the left of a cell.
pub fn north_west(m: &Matrix, r: usize, c: usize) -> (n: Option<u32>)
    requires
        m.wf(),
        m.holds(r, c),
    ensures
        n == m.west_of(r - 1, c as int),
{
    if r == 0 {
        return None;
    }
    m.left_number(r - 1, c)
}

/// The number diagonally up and to the right of a cell.
pub fn north_east(m: &Matrix, r: usize, c: usize) -> (n: Option<u32>)
    requires
        m.wf(),
        m.holds(r, c),
    ensures
        n == m.east_of(r - 1, c as int),
{
    if r == 0 {
        return None;
    }
    m.right_number(r - 1, c)
}

/// The number that touches a cell from above.
pub fn north(m: &Matrix, r: usize, c: usize) -> (n: Option<u32>)
    requires
        m.wf(),
        m.holds(r, c),
    ensures
        n == m.beside_of(r - 1, c as int),
{
    if r == 0 {
        return None;
    }
    m.beside_number(r - 1, c)
}

/// The number that touches a cell from below.
pub fn south(m: &Matrix, r: usize, c: usize) -> (n: Option<u32>)
    requires
        m.wf(),
        m.holds(r, c),
    ensures
        n == m.beside_of(r + 1, c as int),
{
    m.beside_number(r + 1, c)
}

/// The number to the left of a cell.
pub fn west(m: &Matrix, r: usize, c: usize) -> (n: Option<u32>)
    requires
        m.wf(),
        m.holds(r, c),
    ensures
        n == m.west_of(r as int, c as int),
{
    m.left_number(r, c)
}

/// The number to the right of a cell.
pub fn east(m: &Matrix, r: usize, c: usize) -> (n: Option<u32>)
    requires
        m.wf(),
        m.holds(r, c),
    ensures
        n == m.east_of(r as int, c as int),
{
    m.right_number(r, c)
}

/// The number diagonally down and to the left of a cell.
pub fn south_west(m: &Matrix, r: usize, c: usize) -> (n: Option<u32>)
    requires
        m.wf(),
        m.holds(r, c),
    ensures
        n == m.west_of(r + 1, c as int),
{
    m.left_number(r + 1, c)
}

/// The number diagonally down and to the right of a cell.
pub fn south_east(m: &Matrix, r: usize, c: usize) -> (n: Option<u32>)
    requires
        m.wf(),
        m.holds(r, c),
    ensures
        n == m.east_of(r + 1, c as int),
{
    m.right_number(r + 1, c)
}

/// The one number, if there is one, or nothing.
pub open spec fn opt(n: Option<u32>) -> Seq<u32> {
    match n {
        Some(v) => seq![v],
        None => Seq::empty(),
    }
}

impl Chart {
    /// Whether there is a character for every cell and for nothing else.
    pub open spec fn wf(&self) -> bool {
        self.data.len() == self.rows * self.columns
    }

    /// The numbers that a cell of column `column` touches in the row `row`
    /// above or below it: the one straight above or below, or else those
    /// to either side of that.
    pub open spec fn touching(&self, row: int, column: int) -> Seq<u32> {
        match self.beside_of(row, column) {
            Some(n) => seq![n],
            None => opt(self.west_of(row, column)) + opt(self.east_of(row, column)),
        }
    }

    /// The numbers around a cell: above, below, to the left and to the right.
    pub open spec fn numbers_around(&self, row: int, column: int) -> Seq<u32> {
        self.touching(row - 1, column) + self.touching(row + 1, column) + opt(
            self.west_of(row, column),
        ) + opt(self.east_of(row, column))
    }

    /// The power of the gear in a cell: the product of the two numbers
    /// around a star; nothing for another cell, or for a star with fewer
    /// or more numbers around it.
    pub open spec fn gear_power(&self, row: int, column: int) -> nat {
        let nums = self.numbers_around(row, column);
        if self.data[row * self.columns + column] == '*' && nums.len() == 2 {
            (nums[0] * nums[1]) as nat
        } else {
            0
        }
    }

    /// The sum of the powers of the gears in the first `k` cells.
    pub open spec fn gear_sum(&self, k: nat) -> nat
        decreases k,
    {
        if k == 0 {
            0
        } else {
            self.gear_sum((k - 1) as nat) + self.gear_power(
                (k - 1) / (self.columns as int),
                (k - 1) % (self.columns as int),
            )
        }
    }

    proof fn lemma_gear_sum_grows(&self, k: nat, m: nat)
        requires
            k <= m,
        ensures
            self.gear_sum(k) <= self.gear_sum(m),
        decreases m - k,
    {
        if k < m {
            self.lemma_gear_sum_grows(k, (m - 1) as nat);
        }
    }
}

/// The grid that a text shows: as wide as its first line is long, as high
/// as it has whole widths, less one, with the characters other than line
/// feeds as its cells.
pub open spec fn chart_of(input: Seq<char>) -> Chart {
    Chart {
        rows: (input.len() / (first_newline(input, 0) as nat) - 1) as usize,
        columns: first_newline(input, 0) as usize,
        data: without_newlines(input),
    }
}

/// Whether a text shows a grid.
pub open spec fn shows_chart(input: Seq<char>) -> bool {
    0 < first_newline(input, 0) < input.len() && input.len() / (first_newline(input, 0) as nat)
        >= 2 && chart_of(input).wf()
}

fn touching_numbers(m: &Matrix, row: usize, column: usize, nums: &mut Vec<u32>)
    requires
        m.wf(),
        column < m.columns,
    ensures
        final(nums)@ == old(nums)@ + m@.touching(row as int, column as int),
{
    let n = m.beside_number(row, column);
    if n.is_some() {
        nums.push(n.unwrap());
        assert(nums@ =~= old(nums)@ + m@.touching(row as int, column as int));
    } else {
        let w = m.left_number(row, column);
        if w.is_some() {
            nums.push(w.unwrap());
        }
        let e = m.right_number(row, column);
        if e.is_some() {
            nums.push(e.unwrap());
        }
        assert(nums@ =~= old(nums)@ + m@.touching(row as int, column as int));
    }
}

fn numbers_around(m: &Matrix, r: usize, c: usize) -> (nums: Vec<u32>)
    requires
        m.wf(),
        m.holds(r, c),
    ensures
        nums@ == m@.numbers_around(r as int, c as int),
{
    let mut nums: Vec<u32> = Vec::new();
    if r > 0 {
        touching_numbers(m, r - 1, c, &mut nums);
    } else {
        assert(m@.touching(-1, c as int) =~= Seq::<u32>::empty());
    }
    let ghost a = nums@;
    assert(a =~= m@.touching(r - 1, c as int));
    touching_numbers(m, r + 1, c, &mut nums);
    let ghost b = nums@;
    let w = west(m, r, c);
    if w.is_some() {
        nums.push(w.unwrap());
    }
    let ghost d = nums@;
    assert(d =~= b + opt(m@.west_of(r as int, c as int)));
    let e = east(m, r, c);
    if e.is_some() {
        nums.push(e.unwrap());
    }
    assert(nums@ =~= d + opt(m@.east_of(r as int, c as int)));
    nums
}

/// The sum of the powers of the gears of a grid, or nothing where it does
/// not fit.
fn try_gear_sum(matrix: &Matrix) -> (r: Option<u32>)
    requires
        matrix.wf(),
    ensures
        match r {
            Some(sum) => sum == matrix@.gear_sum(matrix@.data.len()),
            None => matrix@.gear_sum(matrix@.data.len()) > u32::MAX,
        },
{
    let ghost chart = matrix@;
    let ghost total = chart.data.len();
    let mut sum: u32 = 0;
    let mut r: usize = 0;
    let mut idx: usize = 0;
    assert(0 * matrix.columns == 0) by (nonlinear_arith);
    while r < matrix.rows
        invariant
            matrix.wf(),
            chart == matrix@,
            total == matrix.data.len(),
            r <= matrix.rows,
            idx == r * matrix.columns,
            idx <= total,
            sum == chart.gear_sum(idx as nat),
        decreases matrix.rows - r,
    {
        let mut c: usize = 0;
        assert((r + 1) * matrix.columns == r * matrix.columns + matrix.columns) by (nonlinear_arith);
        assert((r + 1) * matrix.columns <= matrix.rows * matrix.columns) by (nonlinear_arith)
            requires
                r + 1 <= matrix.rows,
        ;
        while c < matrix.columns
            invariant
                matrix.wf(),
                chart == matrix@,
                total == matrix.data.len(),
                r < matrix.rows,
                c <= matrix.columns,
                idx == r * matrix.columns + c,
                r * matrix.columns + matrix.columns <= total,
                sum == chart.gear_sum(idx as nat),
            decreases matrix.columns - c,
        {
            proof {
                lemma_fundamental_div_mod_converse(
                    idx as int,
                    matrix.columns as int,
                    r as int,
                    c as int,
                );
                chart.lemma_gear_sum_grows((idx + 1) as nat, total);
            }
            if matrix.data[idx] == '*' {
                let nums = numbers_around(matrix, r, c);
                if nums.len() == 2 {
                    let ghost product = nums[0] * nums[1];
                    assert(chart.gear_power(r as int, c as int) == product);
                    let power = match nums[0].checked_mul(nums[1]) {
                        Some(power) => power,
                        None => {
                            return None;
                        },
                    };
                    sum = match sum.checked_add(power) {
                        Some(sum) => sum,
                        None => {
                            return None;
                        },
                    };
                }
            }
            c = c + 1;
            idx = idx + 1;
        }
        r = r + 1;
    }
    Some(sum)
}

/// The sum of the powers of the gears of a grid.
pub fn sum_gears_power(input: &str) -> (sum: u32)
    requires
        shows_chart(input@),
        chart_of(input@).gear_sum(chart_of(input@).data.len()) <= u32::MAX,
    ensures
        sum == chart_of(input@).gear_sum(chart_of(input@).data.len()),
{
    let matrix = Matrix::from_str(input);
    assert(matrix@ == chart_of(input@));
    try_gear_sum(&matrix).unwrap()
}

/// Whether the powers of the gears of a grid can be added up: the text
/// shows a grid, and the sum fits.
pub open spec fn gears_fit(input: Seq<char>) -> bool {
    shows_chart(input) && chart_of(input).gear_sum(chart_of(input).data.len()) <= u32::MAX
}

/// The sum of the powers of the gears of a grid, if they can be added up.
pub fn try_sum_gears_power(input: &str) -> (r: Option<u32>)
    ensures
        match r {
            Some(sum) => gears_fit(input@) && sum == chart_of(input@).gear_sum(
                chart_of(input@).data.len(),
            ),
            None => !gears_fit(input@),
        },
{
    match Matrix::try_from_str(input) {
        Some(matrix) => try_gear_sum(&matrix),
        None => None,
    }
}

/// The first index at or after `from` whose symbol comes after `c`, or
/// the length.
pub open spec fn place_of(symbols: Seq<char>, c: char, from: int) -> int
    decreases symbols.len() - from,
{
    if from < 0 || from >= symbols.len() || symbols[from] > c {
        from
    } else {
        place_of(symbols, c, from + 1)
    }
}

/// Symbols in ascending order with one more character among them, unless
/// it is a dot or there already.
pub open spec fn with_symbol(symbols: Seq<char>, c: char) -> Seq<char> {
    if c == '.' || symbols.contains(c) {
        symbols
    } else {
        symbols.insert(place_of(symbols, c, 0), c)
    }
}

/// Symbols in ascending order with more characters among them, each once,
/// dots left out.
pub open spec fn with_symbols(symbols: Seq<char>, more: Seq<char>) -> Seq<char>
    decreases more.len(),
{
    if more.len() == 0 {
        symbols
    } else {
        with_symbols(with_symbol(symbols, more[0]), more.skip(1))
    }
}

/// A number of the grid, as a value.
pub struct Finding {
    pub number: usize,
    pub boundary: Seq<char>,
    pub r: usize,
    pub c: usize,
}

impl NumberWithBoundary {
    /// The number with its symbols as a value.
    pub open spec fn view(&self) -> Finding {
        Finding { number: self.number, boundary: self.boundary@, r: self.r, c: self.c }
    }
}

/// The numbers with their symbols as values.
pub open spec fn findings(found: Seq<NumberWithBoundary>) -> Seq<Finding> {
    Seq::new(found.len(), |i: int| found[i]@)
}

impl Chart {
    /// The character of a cell.
    pub open spec fn cell(&self, row: int, column: int) -> char {
        self.data[row * self.columns + column]
    }

    /// Whether a number starts in a cell: it holds a digit, and the cell to
    /// its left, if there is one, does not.
    pub open spec fn starts_number(&self, row: int, column: int) -> bool {
        digit_value(self.cell(row, column)) is Some && (column == 0 || digit_value(
            self.cell(row, column - 1),
        ) is None)
    }

    /// The column after the last digit of the number that has a digit in
    /// column `column` of a row.
    pub open spec fn number_end(&self, row: int, column: int) -> int
        decreases self.columns - column,
    {
        if column < 0 || column >= self.columns || digit_value(self.cell(row, column)) is None {
            column
        } else {
            self.number_end(row, column + 1)
        }
    }

    /// The characters around a cell, as `Matrix::boundary_spec` gives them.
    pub open spec fn around(&self, row: int, column: int, left: bool, right: bool) -> Seq<char> {
        let up = row > 0;
        let down = row < self.rows - 1;
        let west = column > 0;
        let east = column < self.columns - 1;
        pick(up && west, self.cell(row - 1, column - 1)) + pick(up, self.cell(row - 1, column))
            + pick(up && east, self.cell(row - 1, column + 1)) + pick(
            west && left,
            self.cell(row, column - 1),
        ) + pick(east && right, self.cell(row, column + 1)) + pick(
            down && west,
            self.cell(row + 1, column - 1),
        ) + pick(down, self.cell(row + 1, column)) + pick(
            down && east,
            self.cell(row + 1, column + 1),
        )
    }

    /// The symbols around the digits of a number from its first, in column
    /// `first`, up to, not including, column `upto`: what stands around
    /// them other than dots and the digits of the number itself, each
    /// symbol once, in ascending order.
    pub open spec fn symbols_around(&self, row: int, first: int, upto: int) -> Seq<char>
        decreases upto - first,
    {
        if upto <= first {
            Seq::empty()
        } else {
            with_symbols(
                self.symbols_around(row, first, upto - 1),
                self.around(
                    row,
                    upto - 1,
                    upto - 1 == first,
                    upto == self.number_end(row, first),
                ),
            )
        }
    }

    /// The number that starts in a cell, with the symbols around it, its
    /// row, and the column after it, or the last column where it ends
    /// there.
    pub open spec fn finding_at(&self, row: int, column: int) -> Finding {
        let end = self.number_end(row, column);
        Finding {
            number: decimal_value(
                self.data.subrange(row * self.columns + column, row * self.columns + end),
            ) as usize,
            boundary: self.symbols_around(row, column, end),
            r: row as usize,
            c: if end < self.columns {
                end as usize
            } else {
                (self.columns - 1) as usize
            },
        }
    }

    /// The numbers that start in the first `k` cells, row by row.
    pub open spec fn findings_upto(&self, k: nat) -> Seq<Finding>
        decreases k,
    {
        if k == 0 {
            Seq::empty()
        } else {
            let before = self.findings_upto((k - 1) as nat);
            let row = (k - 1) / (self.columns as int);
            let column = (k - 1) % (self.columns as int);
            if self.starts_number(row, column) {
                before.push(self.finding_at(row, column))
            } else {
                before
            }
        }
    }

    proof fn lemma_number_end(&self, row: int, column: int)
        requires
            0 <= column <= self.columns,
        ensures
            column <= self.number_end(row, column) <= self.columns,
        decreases self.columns - column,
    {
        if !(column >= self.columns || digit_value(self.cell(row, column)) is None) {
            self.lemma_number_end(row, column + 1);
        }
    }

    /// The value of the number that starts in a cell.
    pub open spec fn number_value(&self, row: int, column: int) -> nat {
        decimal_value(
            self.data.subrange(
                row * self.columns + column,
                row * self.columns + self.number_end(row, column),
            ),
        )
    }

    /// Whether every number of the grid fits.
    pub open spec fn numbers_fit(&self) -> bool {
        forall|row: int, column: int|
            0 <= row < self.rows && 0 <= column < self.columns && #[trigger] self.starts_number(
                row,
                column,
            ) ==> self.number_value(row, column) <= usize::MAX
    }

    /// Whether every number fits that starts in a row before `row`, or in
    /// that row before `column`.
    pub open spec fn numbers_fit_before(&self, row: int, column: int) -> bool {
        forall|r: int, c: int|
            0 <= r < self.rows && 0 <= c < self.columns && (r < row || (r == row && c < column))
                && #[trigger] self.starts_number(r, c) ==> self.number_value(r, c) <= usize::MAX
    }
}

fn add_symbol(symbols: &mut Vec<char>, c: char)
    ensures
        final(symbols)@ == with_symbol(old(symbols)@, c),
{
    if c == '.' {
        return ;
    }
    let mut i: usize = 0;
    while i < symbols.len()
        invariant
            i <= symbols.len(),
            *symbols == *old(symbols),
            forall|j: int| 0 <= j < i ==> symbols[j] != c,
        decreases symbols.len() - i,
    {
        if symbols[i] == c {
            return ;
        }
        i = i + 1;
    }
    let mut at: usize = 0;
    while at < symbols.len() && symbols[at] <= c
        invariant
            at <= symbols.len(),
            *symbols == *old(symbols),
            place_of(symbols@, c, 0) == place_of(symbols@, c, at as int),
        decreases symbols.len() - at,
    {
        at = at + 1;
    }
    symbols.insert(at, c);
}

fn add_symbols(symbols: &mut Vec<char>, more: &Vec<char>)
    ensures
        final(symbols)@ == with_symbols(old(symbols)@, more@),
{
    let mut i: usize = 0;
    assert(more@.skip(0) =~= more@);
    while i < more.len()
        invariant
            i <= more.len(),
            with_symbols(old(symbols)@, more@) == with_symbols(symbols@, more@.skip(i as int)),
        decreases more.len() - i,
    {
        assert(more@.skip(i as int)[0] == more[i as int]);
        assert(more@.skip(i as int).skip(1) =~= more@.skip(i + 1));
        add_symbol(symbols, more[i]);
        i = i + 1;
    }
}

impl Matrix {
    proof fn lemma_around(&self, row: int, column: int, left: bool, right: bool)
        ensures
            self.boundary_spec(row, column, left, right) == self@.around(row, column, left, right),
    {
    }

    fn end_of_number(&self, row: usize, column: usize) -> (end: usize)
        requires
            self.wf(),
            self.holds(row, column),
        ensures
            end == self@.number_end(row as int, column as int),
            column <= end <= self.columns,
    {
        let base = self.row_base(row);
        let mut end = column;
        while end < self.columns && is_digit(self.data[base + end])
            invariant
                column <= end <= self.columns,
                base == row * self.columns,
                base + self.columns <= self.data.len(),
                self@.number_end(row as int, column as int) == self@.number_end(
                    row as int,
                    end as int,
                ),
            decreases self.columns - end,
        {
            end = end + 1;
        }
        end
    }

    fn number_at(&self, row: usize, column: usize) -> (r: Option<NumberWithBoundary>)
        requires
            self.wf(),
            self.holds(row, column),
            self@.starts_number(row as int, column as int),
        ensures
            match r {
                Some(found) => found@ == self@.finding_at(row as int, column as int) && found.c
                    >= column && self@.number_value(row as int, column as int) <= usize::MAX,
                None => self@.number_value(row as int, column as int) > usize::MAX,
            },
    {
        let base = self.row_base(row);
        let end = self.end_of_number(row, column);
        proof {
            self@.lemma_number_end(row as int, column + 1);
            assert(end > column);
        }
        let mut boundary: Vec<char> = Vec::new();
        let mut k = column;
        while k < end
            invariant
                self.wf(),
                row < self.rows,
                column <= k <= end <= self.columns,
                end == self@.number_end(row as int, column as int),
                boundary@ == self@.symbols_around(row as int, column as int, k as int),
            decreases end - k,
        {
            let around = self.boundary(row, k, k == column, k + 1 == end);
            proof {
                self.lemma_around(row as int, k as int, k == column, k + 1 == end);
            }
            add_symbols(&mut boundary, &around);
            k = k + 1;
        }
        let mut digits: Vec<char> = Vec::new();
        let mut i = column;
        while i < end
            invariant
                column <= i <= end <= self.columns,
                column < end,
                digits.len() == i - column,
                base + self.columns <= self.data.len(),
                digits@ == self.data@.subrange(base + column, base + i),
                forall|j: int| 0 <= j < digits.len() ==> digit_value(#[trigger] digits[j]) is Some,
                self@.number_end(row as int, i as int) == end,
                base == row * self.columns,
            decreases end - i,
        {
            assert(digit_value(self.data[base + i]) is Some);
            digits.push(self.data[base + i]);
            assert(digits@ =~= self.data@.subrange(base + column, base + i + 1));
            i = i + 1;
        }
        assert(digits.len() > 0);
        assert(all_digits(digits@));
        let number = match parse_number(&digits) {
            Some(number) => number,
            None => {
                return None;
            },
        };
        if number > usize::MAX as u64 {
            return None;
        }
        let c = if end < self.columns {
            end
        } else {
            self.columns - 1
        };
        Some(NumberWithBoundary { number: number as usize, boundary, r: row, c })
    }

    /// The numbers of the grid, row by row, each with the symbols around it.
    pub fn unique_symbols_in_boundary(&self) -> (res: Vec<NumberWithBoundary>)
        requires
            self.wf(),
            self@.numbers_fit(),
        ensures
            findings(res@) == self@.findings_upto(self.data.len() as nat),
    {
        self.try_unique_symbols_in_boundary().unwrap()
    }

    /// The numbers of the grid, row by row, each with the symbols around
    /// it, if every number fits.
    pub fn try_unique_symbols_in_boundary(&self) -> (r: Option<Vec<NumberWithBoundary>>)
        requires
            self.wf(),
        ensures
            match r {
                Some(res) => self@.numbers_fit() && findings(res@) == self@.findings_upto(
                    self.data.len() as nat,
                ),
                None => !self@.numbers_fit(),
            },
    {
        let mut res: Vec<NumberWithBoundary> = Vec::new();
        let mut r: usize = 0;
        let mut idx: usize = 0;
        let ghost chart = self@;
        assert(0 * self.columns == 0) by (nonlinear_arith);
        assert(findings(res@) =~= chart.findings_upto(0));
        while r < self.rows
            invariant
                self.wf(),
                chart == self@,
                chart.numbers_fit_before(r as int, 0),
                r <= self.rows,
                idx == r * self.columns,
                idx <= self.data.len(),
                findings(res@) == chart.findings_upto(idx as nat),
            decreases self.rows - r,
        {
            let base = self.row_base(r);
            let mut c: usize = 0;
            assert((r + 1) * self.columns == r * self.columns + self.columns) by (nonlinear_arith);
            while c < self.columns
                invariant
                    self.wf(),
                    chart == self@,
                    chart.numbers_fit_before(r as int, c as int),
                    r < self.rows,
                    c <= self.columns,
                    base == r * self.columns,
                    base + self.columns <= self.data.len(),
                    idx == base + c,
                    findings(res@) == chart.findings_upto(idx as nat),
                decreases self.columns - c,
            {
                proof {
                    lemma_fundamental_div_mod_converse(
                        idx as int,
                        self.columns as int,
                        r as int,
                        c as int,
                    );
                }
                let starts = is_digit(self.data[idx]) && (c == 0 || !is_digit(self.data[idx - 1]));
                if starts {
                    let ghost before = findings(res@);
                    let found = match self.number_at(r, c) {
                        Some(found) => found,
                        None => {
                            assert(chart.starts_number(r as int, c as int));
                            assert(chart.number_value(r as int, c as int) > usize::MAX);
                            return None;
                        },
                    };
                    res.push(found);
                    assert(findings(res@) =~= before.push(chart.finding_at(r as int, c as int)));
                }
                c = c + 1;
                idx = idx + 1;
            }
            r = r + 1;
        }
        Some(res)
    }
}

/// The sum of the first `k` numbers that have a symbol around them.
pub open spec fn touching_sum(found: Seq<Finding>, k: nat) -> nat
    decreases k,
{
    if k == 0 || k > found.len() {
        0
    } else {
        touching_sum(found, (k - 1) as nat) + if found[k - 1].boundary.len() > 0 {
            found[k - 1].number as nat
        } else {
            0
        }
    }
}

/// The sum of the first `k` numbers.
pub open spec fn plain_sum(found: Seq<Finding>, k: nat) -> nat
    decreases k,
{
    if k == 0 || k > found.len() {
        0
    } else {
        plain_sum(found, (k - 1) as nat) + found[k - 1].number as nat
    }
}

proof fn lemma_sums(found: Seq<Finding>, k: nat)
    requires
        k <= found.len(),
    ensures
        touching_sum(found, k) <= plain_sum(found, k),
        plain_sum(found, k) <= plain_sum(found, found.len()),
    decreases found.len() - k,
{
    lemma_touching_below(found, k);
    if k < found.len() {
        lemma_sums(found, k + 1);
    }
}

proof fn lemma_touching_below(found: Seq<Finding>, k: nat)
    requires
        k <= found.len(),
    ensures
        touching_sum(found, k) <= plain_sum(found, k),
    decreases k,
{
    if k > 0 {
        lemma_touching_below(found, (k - 1) as nat);
    }
}

/// Whether the numbers of a grid can be added up: the text shows a grid,
/// every number fits, and so does their sum.
pub open spec fn numbers_add_up(input: Seq<char>) -> bool {
    shows_chart(input) && chart_of(input).numbers_fit() && plain_sum(
        chart_of(input).findings_upto(chart_of(input).data.len()),
        chart_of(input).findings_upto(chart_of(input).data.len()).len(),
    ) <= usize::MAX
}

/// The sum of the numbers of a grid that have a symbol around them.
pub fn sum_number_with_boundaries(input: &str) -> (sum: usize)
    requires
        shows_chart(input@),
        chart_of(input@).numbers_fit(),
        plain_sum(
            chart_of(input@).findings_upto(chart_of(input@).data.len()),
            chart_of(input@).findings_upto(chart_of(input@).data.len()).len(),
        ) <= usize::MAX,
    ensures
        sum == touching_sum(
            chart_of(input@).findings_upto(chart_of(input@).data.len()),
            chart_of(input@).findings_upto(chart_of(input@).data.len()).len(),
        ),
{
    try_sum_number_with_boundaries(input).unwrap()
}

/// The sum of the numbers of a grid that have a symbol around them, if the
/// numbers can be added up.
pub fn try_sum_number_with_boundaries(input: &str) -> (r: Option<usize>)
    ensures
        match r {
            Some(sum) => numbers_add_up(input@) && sum == touching_sum(
                chart_of(input@).findings_upto(chart_of(input@).data.len()),
                chart_of(input@).findings_upto(chart_of(input@).data.len()).len(),
            ),
            None => !numbers_add_up(input@),
        },
{
    let matrix = match Matrix::try_from_str(input) {
        Some(matrix) => matrix,
        None => {
            return None;
        },
    };
    let boundary = match matrix.try_unique_symbols_in_boundary() {
        Some(boundary) => boundary,
        None => {
            return None;
        },
    };
    let ghost found = findings(boundary@);
    let mut sum_touching: usize = 0;
    let mut sum_all: usize = 0;
    let mut k: usize = 0;
    while k < boundary.len()
        invariant
            k <= boundary.len(),
            found == findings(boundary@),
            found == chart_of(input@).findings_upto(chart_of(input@).data.len()),
            shows_chart(input@),
            chart_of(input@).numbers_fit(),
            sum_touching == touching_sum(found, k as nat),
            sum_all == plain_sum(found, k as nat),
        decreases boundary.len() - k,
    {
        proof {
            lemma_sums(found, (k + 1) as nat);
            lemma_sums(found, k as nat);
        }
        let n = &boundary[k];
        assert(found[k as int] == n@);
        sum_all = match sum_all.checked_add(n.number) {
            Some(sum) => sum,
            None => {
                return None;
            },
        };
        if n.boundary.len() > 0 {
            sum_touching = sum_touching + n.number;
        }
        k = k + 1;
    }
    Some(sum_touching)
}

impl Matrix {
    /// Reads a grid from a text, if the text shows one: it has a line feed
    /// after a first line that is not empty, at least two whole widths,
    /// and a character for every cell.
    pub fn try_from_str(input: &str) -> (r: Option<Self>)
        ensures
            match r {
                Some(m) => shows_chart(input@) && m@ == chart_of(input@) && m.wf(),
                None => !shows_chart(input@),
            },
    {
        let text = chars_of(input);
        let n = text.len();
        let mut columns: usize = 0;
        while columns < n && text[columns] != '\n'
            invariant
                n == text.len(),
                columns <= n,
                first_newline(text@, 0) == first_newline(text@, columns as int),
            decreases n - columns,
        {
            columns = columns + 1;
        }
        if columns == 0 || columns >= n || n / columns < 2 {
            return None;
        }
        let m = Self::from_str(input);
        let rows = m.rows;
        assert(rows * columns <= n) by (nonlinear_arith)
            requires
                rows == n / columns - 1,
                columns > 0,
        ;
        if m.data.len() != rows * columns {
            return None;
        }
        Some(m)
    }
}

} // verus!
