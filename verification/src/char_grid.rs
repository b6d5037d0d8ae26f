use grid::Grid;
use vstd::prelude::*;

verus! {

/// `grid::Grid`, carried through as it is.
#[verifier::external_type_specification]
#[verifier::external_body]
#[verifier::reject_recursive_types(T)]
pub struct ExGrid<T>(Grid<T>);

/// The cells of a grid of characters, row by row. All rows are equally
/// long, and a grid without cells has no rows.
pub uninterp spec fn grid_cells(g: Grid<char>) -> Seq<Seq<char>>;

/// The length of the rows.
pub open spec fn width(cells: Seq<Seq<char>>) -> nat {
    if cells.len() == 0 {
        0
    } else {
        cells[0].len()
    }
}

/// Whether the cells are those of a grid: rows of one length, which is not
/// zero.
pub open spec fn is_grid(cells: Seq<Seq<char>>) -> bool {
    forall|i: int| 0 <= i < cells.len() ==> (#[trigger] cells[i]).len() == width(cells) && width(
        cells,
    ) > 0
}

/// A sequence cut into rows of `cols` cells; no rows where `cols` is zero.
pub open spec fn rows_of(v: Seq<char>, cols: int) -> Seq<Seq<char>> {
    if cols <= 0 {
        Seq::empty()
    } else {
        Seq::new((v.len() / cols as nat) as nat, |i: int| v.subrange(i * cols, i * cols + cols))
    }
}

/// The cells with the one at row `r` and column `c` replaced.
pub open spec fn put(cells: Seq<Seq<char>>, r: int, c: int, value: char) -> Seq<Seq<char>> {
    cells.update(r, cells[r].update(c, value))
}

/// `Grid::from_vec`: the grid whose rows are the consecutive stretches of
/// `cols` elements of the vector. It panics unless the length of the vector
/// is a multiple of `cols`; with `cols` zero the vector must be empty.
#[verifier::external_body]
pub(crate) fn grid_from_vec(v: Vec<char>, cols: usize) -> (g: Grid<char>)
    requires
        cols == 0 ==> v.len() == 0,
        cols > 0 ==> v.len() % cols == 0,
    ensures
        grid_cells(g) == rows_of(v@, cols as int),
{
    Grid::from_vec(v, cols)
}

/// `Grid::rows`: the number of rows.
#[verifier::external_body]
pub(crate) fn grid_rows(g: &Grid<char>) -> (n: usize)
    ensures
        n == grid_cells(*g).len(),
{
    g.rows()
}

/// `Grid::cols`: the number of columns, which is the length of every row
/// and zero only for a grid without rows.
#[verifier::external_body]
pub(crate) fn grid_cols(g: &Grid<char>) -> (n: usize)
    ensures
        n == width(grid_cells(*g)),
        forall|i: int|
            0 <= i < grid_cells(*g).len() ==> (#[trigger] grid_cells(*g)[i]).len() == n && n > 0,
{
    g.cols()
}

/// `Grid::get`: the cell at a row and a column, or nothing beyond the grid.
#[verifier::external_body]
pub(crate) fn grid_get(g: &Grid<char>, r: usize, c: usize) -> (found: Option<char>)
    ensures
        found is Some == (r < grid_cells(*g).len() && c < width(grid_cells(*g))),
        found is Some ==> found == Some(grid_cells(*g)[r as int][c as int]),
{
    g.get(r, c).copied()
}

/// `Grid::get_mut` and an assignment through it: replaces one cell.
#[verifier::external_body]
pub(crate) fn grid_set(g: &mut Grid<char>, r: usize, c: usize, value: char)
    requires
        r < grid_cells(*old(g)).len(),
        c < width(grid_cells(*old(g))),
    ensures
        grid_cells(*final(g)) == put(grid_cells(*old(g)), r as int, c as int, value),
{
    *g.get_mut(r, c).unwrap() = value;
}

/// `==` on grids: whether they have the same size and the same cells.
#[verifier::external_body]
pub(crate) fn grid_same(a: &Grid<char>, b: &Grid<char>) -> (same: bool)
    ensures
        same == (grid_cells(*a) == grid_cells(*b)),
{
    a == b
}

/// `Clone::clone` on a grid: a grid with the same cells.
#[verifier::external_body]
pub(crate) fn grid_clone(g: &Grid<char>) -> (copy: Grid<char>)
    ensures
        grid_cells(copy) == grid_cells(*g),
{
    g.clone()
}

} // verus!
