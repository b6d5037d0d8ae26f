use crate::scan::find_char;
use crate::scan::hex_of;
use crate::scan::hex_value;
use crate::scan::index_of;
use crate::scan::line_end_at;
use crate::scan::number_at;
use crate::scan::run_end;
use crate::scan::skip_line_end;
use crate::scan::skip_run;
use crate::scan::take_number;
use crate::scan::Class;
use crate::text::chars_of;
use vstd::prelude::*;

verus! {

/// The direction of one stretch of a trench.
#[derive(Clone, Copy, Debug, PartialEq, Eq, Structural)]
pub enum Direction {
    Up,
    Down,
    Left,
    Right,
}

/// One stretch of a trench: so many unit steps in one direction.
#[derive(Clone, Copy, Debug, PartialEq, Eq, Structural)]
pub struct Instruction {
    pub direction: Direction,
    pub distance: usize,
}

/// A lattice point.
#[derive(Clone, Copy, Debug, PartialEq, Eq, Structural)]
pub struct Position {
    pub x: i64,
    pub y: i64,
}

/// Whether a number fits in 64 bits with a sign.
pub open spec fn in_i64(v: int) -> bool {
    i64::MIN <= v <= i64::MAX
}

/// The shoelace term of the edge from `a` to `b`.
pub open spec fn term(a: Position, b: Position) -> int {
    a.x * b.y - b.x * a.y
}

/// The sum of the shoelace terms of the first `k` edges of a path.
pub open spec fn window_sum(data: Seq<Position>, k: nat) -> int
    decreases k,
{
    if k == 0 || k >= data.len() {
        0
    } else {
        window_sum(data, (k - 1) as nat) + term(data[k - 1], data[k as int])
    }
}

/// The number of edges of a path.
pub open spec fn edge_count(data: Seq<Position>) -> nat {
    if data.len() == 0 {
        0
    } else {
        (data.len() - 1) as nat
    }
}

/// Whether the shoelace sum of a path can be added up edge by edge in `i64`:
/// both products of every edge, their difference and every running sum fit,
/// and the sum has a magnitude.
pub open spec fn shoelace_fits(data: Seq<Position>) -> bool {
    &&& forall|k: int|
        0 <= k < data.len() - 1 ==> in_i64(#[trigger] data[k].x * data[k + 1].y) && in_i64(
            data[k + 1].x * data[k].y,
        ) && in_i64(term(data[k], data[k + 1])) && in_i64(window_sum(data, (k + 1) as nat))
    &&& window_sum(data, edge_count(data)) > i64::MIN
}

/// A number without its sign.
pub open spec fn magnitude(x: int) -> int {
    if x < 0 {
        -x
    } else {
        x
    }
}

/// The area that a path encloses, by the shoelace formula.
pub open spec fn shoelace_spec(data: Seq<Position>) -> int {
    magnitude(window_sum(data, edge_count(data))) / 2
}

/// The area that the path through `data` encloses: half the magnitude of the
/// sum of the shoelace terms of its edges.
pub fn shoelace(data: &Vec<Position>) -> (area: i64)
    requires
        shoelace_fits(data@),
    ensures
        area == shoelace_spec(data@),
{
    let n = data.len();
    let mut acc: i64 = 0;
    if n >= 2 {
        let mut k: usize = 0;
        while k < n - 1
            invariant
                n == data.len(),
                n >= 2,
                k <= n - 1,
                shoelace_fits(data@),
                acc == window_sum(data@, k as nat),
            decreases n - 1 - k,
        {
            let a = data[k];
            let b = data[k + 1];
            assert(in_i64(data[k as int].x * data[k + 1].y));
            let left = a.x * b.y;
            let right = b.x * a.y;
            acc = acc + (left - right);
            k = k + 1;
        }
    }
    if acc < 0 {
        (-acc) / 2
    } else {
        acc / 2
    }
}

/// Half of `n`, rounded towards zero.
pub open spec fn half(n: int) -> int {
    if n >= 0 {
        n / 2
    } else {
        -((-n) / 2)
    }
}

/// Pick's theorem, solved for the lattice points inside.
pub open spec fn pick_spec(area: int, n_points: int) -> int {
    area - half(n_points) + 1
}

/// The number of lattice points inside a polygon of the given area with
/// `n_points` lattice points on its boundary.
pub fn pick_theorem(area: i64, n_points: i64) -> (inside: i64)
    requires
        in_i64(pick_spec(area as int, n_points as int)),
        in_i64(area - half(n_points as int)),
    ensures
        inside == pick_spec(area as int, n_points as int),
{
    area - (n_points / 2) + 1
}

/// The point `steps` unit steps from `from` in direction `d`.
pub open spec fn moved(from: Position, d: Direction, steps: int) -> Position {
    match d {
        Direction::Up => Position { x: from.x, y: (from.y + steps) as i64 },
        Direction::Down => Position { x: from.x, y: (from.y - steps) as i64 },
        Direction::Left => Position { x: (from.x - steps) as i64, y: from.y },
        Direction::Right => Position { x: (from.x + steps) as i64, y: from.y },
    }
}

/// The points that one instruction adds to a path that stands at `from`.
pub open spec fn stretch(from: Position, i: Instruction) -> Seq<Position> {
    Seq::new(i.distance as nat, |j: int| moved(from, i.direction, j + 1))
}

/// The path that the first `k` instructions dig, point by point, from the origin.
pub open spec fn path_upto(data: Seq<Instruction>, k: nat) -> Seq<Position>
    decreases k,
{
    if k == 0 || k > data.len() {
        seq![Position { x: 0, y: 0 }]
    } else {
        let before = path_upto(data, (k - 1) as nat);
        before + stretch(before.last(), data[k - 1])
    }
}

/// The path that the instructions dig, point by point, from the origin.
pub open spec fn positions_spec(data: Seq<Instruction>) -> Seq<Position> {
    path_upto(data, data.len())
}

/// The number of unit steps of the first `k` instructions.
pub open spec fn distance_upto(data: Seq<Instruction>, k: nat) -> nat
    decreases k,
{
    if k == 0 || k > data.len() {
        0
    } else {
        distance_upto(data, (k - 1) as nat) + data[k - 1].distance as nat
    }
}

/// The number of unit steps of all instructions.
pub open spec fn total_distance(data: Seq<Instruction>) -> nat {
    distance_upto(data, data.len())
}

/// The first instructions make no more steps than all of them.
pub proof fn lemma_distance_grows(data: Seq<Instruction>, k: nat)
    requires
        k <= data.len(),
    ensures
        distance_upto(data, k) <= total_distance(data),
    decreases data.len() - k,
{
    if k < data.len() {
        lemma_distance_grows(data, k + 1);
    }
}

/// Whether `b` lies one unit step from `a`.
pub open spec fn unit_step(a: Position, b: Position) -> bool {
    (a.x == b.x && (a.y + 1 == b.y || b.y + 1 == a.y)) || (a.y == b.y && (a.x + 1 == b.x || b.x + 1
        == a.x))
}

/// Whether a point lies within `reach` unit steps of the origin.
pub open spec fn within(p: Position, reach: int) -> bool {
    -reach <= p.x <= reach && -reach <= p.y <= reach
}

/// The lattice points of the trench that the instructions dig, from the
/// origin on, one for every unit step.
pub fn positions(data: &Vec<Instruction>) -> (path: Vec<Position>)
    requires
        total_distance(data@) <= i64::MAX,
    ensures
        path@ == positions_spec(data@),
        path.len() == total_distance(data@) + 1,
        forall|i: int| 0 <= i < path.len() ==> within(#[trigger] path[i], total_distance(data@) as int),
        forall|i: int| 0 <= i < path.len() - 1 ==> unit_step(#[trigger] path[i], path[i + 1]),
{
    let mut v: Vec<Position> = Vec::new();
    let mut pos = Position { x: 0, y: 0 };
    v.push(pos);
    let n = data.len();
    let mut k: usize = 0;
    while k < n
        invariant
            n == data.len(),
            k <= n,
            total_distance(data@) <= i64::MAX,
            v@ == path_upto(data@, k as nat),
            v.len() == distance_upto(data@, k as nat) + 1,
            pos == v@.last(),
            within(pos, distance_upto(data@, k as nat) as int),
            forall|i: int|
                0 <= i < v.len() ==> within(#[trigger] v[i], distance_upto(data@, k as nat) as int),
            forall|i: int| 0 <= i < v.len() - 1 ==> unit_step(#[trigger] v[i], v[i + 1]),
        decreases n - k,
    {
        let instr = data[k];
        let ghost from = pos;
        let ghost before = v@;
        let ghost base = distance_upto(data@, k as nat);
        proof {
            lemma_distance_grows(data@, (k + 1) as nat);
        }
        let mut j: usize = 0;
        while j < instr.distance
            invariant
                j <= instr.distance,
                base + instr.distance <= i64::MAX,
                within(from, base as int),
                pos == moved(from, instr.direction, j as int),
                within(pos, base + j),
                v@ == before + stretch(from, instr).take(j as int),
                forall|i: int| 0 <= i < v.len() ==> within(#[trigger] v[i], base + j),
                forall|i: int| 0 <= i < v.len() - 1 ==> unit_step(#[trigger] v[i], v[i + 1]),
                v.len() >= 1,
                pos == v@.last(),
            decreases instr.distance - j,
        {
            match instr.direction {
                Direction::Up => {
                    pos.y = pos.y + 1;
                },
                Direction::Down => {
                    pos.y = pos.y - 1;
                },
                Direction::Left => {
                    pos.x = pos.x - 1;
                },
                Direction::Right => {
                    pos.x = pos.x + 1;
                },
            }
            v.push(pos);
            assert(v@ =~= before + stretch(from, instr).take(j + 1));
            j = j + 1;
        }
        assert(stretch(from, instr).take(instr.distance as int) =~= stretch(from, instr));
        k = k + 1;
    }
    v
}

/// The number of lattice points on and inside the trench: the boundary
/// points and, by the shoelace formula and Pick's theorem, those inside.
pub open spec fn lagoon_size(data: Seq<Instruction>) -> int {
    let path = positions_spec(data);
    let boundary = path.len() - 1;
    pick_spec(shoelace_spec(path), boundary) + boundary
}

/// The most unit steps that a trench may have for its size to be computed:
/// then every coordinate has at most 31 bits, and every sum fits in `i64`.
pub const MAX_TRENCH_STEPS: usize = 0x7fff_ffff;

proof fn lemma_window_bound(path: Seq<Position>, reach: int, k: nat)
    requires
        0 <= reach,
        k < path.len(),
        forall|i: int| 0 <= i < path.len() ==> within(#[trigger] path[i], reach),
        forall|i: int| 0 <= i < path.len() - 1 ==> unit_step(#[trigger] path[i], path[i + 1]),
    ensures
        -(k * reach) <= window_sum(path, k) <= k * reach,
    decreases k,
{
    if k > 0 {
        lemma_window_bound(path, reach, (k - 1) as nat);
        let a = path[k - 1];
        let b = path[k as int];
        assert(unit_step(a, b));
        assert(within(a, reach) && within(b, reach));
        lemma_unit_term(a, b);
        assert(k * reach == (k - 1) * reach + reach) by (nonlinear_arith);
    }
}

proof fn lemma_unit_term(a: Position, b: Position)
    requires
        unit_step(a, b),
    ensures
        term(a, b) == a.x || term(a, b) == -a.x || term(a, b) == a.y || term(a, b) == -a.y,
{
    let x = a.x as int;
    let y = a.y as int;
    assert(x * (y + 1) - x * y == x) by (nonlinear_arith);
    assert(x * (y - 1) - x * y == -x) by (nonlinear_arith);
    assert(x * y - (x + 1) * y == -y) by (nonlinear_arith);
    assert(x * y - (x - 1) * y == y) by (nonlinear_arith);
}

/// The shoelace sum of a path of unit steps that stays within 31 bits of the
/// origin, and is no longer than that, can be added up in `i64`.
pub proof fn lemma_unit_path_fits(path: Seq<Position>, reach: int)
    requires
        0 <= reach <= MAX_TRENCH_STEPS,
        path.len() <= reach + 1,
        forall|i: int| 0 <= i < path.len() ==> within(#[trigger] path[i], reach),
        forall|i: int| 0 <= i < path.len() - 1 ==> unit_step(#[trigger] path[i], path[i + 1]),
    ensures
        shoelace_fits(path),
        shoelace_spec(path) <= 0x2000_0000_0000_0000,
{
    assert forall|k: int| 0 <= k < path.len() - 1 implies in_i64(
        #[trigger] path[k].x * path[k + 1].y,
    ) && in_i64(path[k + 1].x * path[k].y) && in_i64(term(path[k], path[k + 1])) && in_i64(
        window_sum(path, (k + 1) as nat),
    ) by {
        let a = path[k];
        let b = path[k + 1];
        assert(within(a, reach) && within(b, reach));
        assert(unit_step(a, b));
        lemma_unit_term(a, b);
        lemma_product_bound(a.x as int, b.y as int, reach);
        lemma_product_bound(b.x as int, a.y as int, reach);
        lemma_window_bound(path, reach, (k + 1) as nat);
        lemma_product_bound(k + 1, reach, reach);
    }
    if path.len() >= 1 {
        lemma_window_bound(path, reach, edge_count(path));
        lemma_product_bound(edge_count(path) as int, reach, reach);
    }
}

proof fn lemma_product_bound(a: int, b: int, reach: int)
    requires
        -reach <= a <= reach,
        -reach <= b <= reach,
        reach <= 0x7fff_ffff,
    ensures
        -0x4000_0000_0000_0000 <= a * b <= 0x4000_0000_0000_0000,
{
    assert(-0x4000_0000_0000_0000 <= a * b <= 0x4000_0000_0000_0000) by (nonlinear_arith)
        requires
            -reach <= a <= reach,
            -reach <= b <= reach,
            reach <= 0x7fff_ffff,
    ;
}

/// The size of the lagoon that the instructions dig out: the lattice points
/// on the trench and those that it encloses.
pub fn solve(data: &Vec<Instruction>) -> (size: i64)
    requires
        total_distance(data@) <= MAX_TRENCH_STEPS,
    ensures
        size == lagoon_size(data@),
{
    let positions = positions(data);
    proof {
        lemma_unit_path_fits(positions@, total_distance(data@) as int);
    }
    let area = shoelace(&positions);
    let n_points = (positions.len() - 1) as i64;
    let interior = pick_theorem(area, n_points);
    interior + n_points
}

/// The direction that a letter of a dig plan stands for.
pub open spec fn direction_of(c: char) -> Option<Direction> {
    if c == 'U' {
        Some(Direction::Up)
    } else if c == 'D' {
        Some(Direction::Down)
    } else if c == 'L' {
        Some(Direction::Left)
    } else if c == 'R' {
        Some(Direction::Right)
    } else {
        None
    }
}

/// The direction that the last digit of a colour stands for.
pub open spec fn direction_of_digit(c: char) -> Option<Direction> {
    if c == '0' {
        Some(Direction::Right)
    } else if c == '1' {
        Some(Direction::Down)
    } else if c == '2' {
        Some(Direction::Left)
    } else if c == '3' {
        Some(Direction::Up)
    } else {
        None
    }
}

/// A line of a dig plan at `from`: a letter for the direction, blanks, the
/// distance, and anything up to and including the next closing bracket.
pub open spec fn line_at(s: Seq<char>, from: int) -> Option<(Instruction, int)> {
    if 0 <= from < s.len() && direction_of(s[from]) is Some {
        let gap = run_end(s, from + 1, Class::Blank);
        match number_at(s, gap) {
            Some((distance, end)) => {
                let close = index_of(s, end, ')');
                if gap > from + 1 && distance <= usize::MAX && close < s.len() {
                    Some(
                        (
                            Instruction {
                                direction: direction_of(s[from])->0,
                                distance: distance as usize,
                            },
                            close + 1,
                        ),
                    )
                } else {
                    None
                }
            },
            None => None,
        }
    } else {
        None
    }
}

/// The number that five hexadecimal digits at `from` write.
pub open spec fn hex5_at(s: Seq<char>, from: int) -> Option<nat> {
    if 0 <= from && from + 5 <= s.len() && hex_value(s[from]) is Some && hex_value(s[from + 1])
        is Some && hex_value(s[from + 2]) is Some && hex_value(s[from + 3]) is Some && hex_value(
        s[from + 4],
    ) is Some {
        Some(
            (((hex_value(s[from])->0 * 16 + hex_value(s[from + 1])->0) * 16 + hex_value(
                s[from + 2],
            )->0) * 16 + hex_value(s[from + 3])->0) * 16 + hex_value(s[from + 4])->0,
        )
    } else {
        None
    }
}

/// A line of a dig plan at `from`, read from its colour: after the next
/// hash sign, five hexadecimal digits for the distance, a digit for the
/// direction and a closing bracket.
pub open spec fn line2_at(s: Seq<char>, from: int) -> Option<(Instruction, int)> {
    let hash = index_of(s, from, '#');
    if 0 <= from && hash < s.len() {
        match hex5_at(s, hash + 1) {
            Some(distance) => if hash + 7 < s.len() && direction_of_digit(s[hash + 6]) is Some
                && s[hash + 7] == ')' {
                Some(
                    (
                        Instruction {
                            direction: direction_of_digit(s[hash + 6])->0,
                            distance: distance as usize,
                        },
                        hash + 8,
                    ),
                )
            } else {
                None
            },
            None => None,
        }
    } else {
        None
    }
}

/// A line of a dig plan, read in one of the two ways.
pub open spec fn plan_line_at(s: Seq<char>, from: int, by_colour: bool) -> Option<
    (Instruction, int),
> {
    if by_colour {
        line2_at(s, from)
    } else {
        line_at(s, from)
    }
}

/// The lines of a dig plan, after some have been read up to `from`: further
/// ones follow while a line end and a line do.
pub open spec fn plan_from(s: Seq<char>, from: int, by_colour: bool, done: Seq<Instruction>) -> Seq<
    Instruction,
>
    decreases s.len() - from,
{
    match line_end_at(s, from) {
        Some(next) => match plan_line_at(s, next, by_colour) {
            Some((line, end)) => if from < end <= s.len() {
                plan_from(s, end, by_colour, done.push(line))
            } else {
                done
            },
            None => done,
        },
        None => done,
    }
}

/// The dig plan that a text holds: its lines up to the first that is none;
/// there is no plan without a line.
pub open spec fn plan_of(s: Seq<char>, by_colour: bool) -> Option<Seq<Instruction>> {
    match plan_line_at(s, 0, by_colour) {
        Some((line, end)) => Some(plan_from(s, end, by_colour, seq![line])),
        None => None,
    }
}

fn read_direction(c: char) -> (r: Option<Direction>)
    ensures
        r == direction_of(c),
{
    if c == 'U' {
        Some(Direction::Up)
    } else if c == 'D' {
        Some(Direction::Down)
    } else if c == 'L' {
        Some(Direction::Left)
    } else if c == 'R' {
        Some(Direction::Right)
    } else {
        None
    }
}

fn read_direction_digit(c: char) -> (r: Option<Direction>)
    ensures
        r == direction_of_digit(c),
{
    if c == '0' {
        Some(Direction::Right)
    } else if c == '1' {
        Some(Direction::Down)
    } else if c == '2' {
        Some(Direction::Left)
    } else if c == '3' {
        Some(Direction::Up)
    } else {
        None
    }
}

/// Reads a line of a dig plan.
pub fn parse_line(text: &Vec<char>, from: usize) -> (r: Option<(Instruction, usize)>)
    requires
        from <= text.len(),
    ensures
        match r {
            Some((line, end)) => line_at(text@, from as int) == Some((line, end as int)) && from
                < end <= text.len(),
            None => line_at(text@, from as int) is None,
        },
{
    if from >= text.len() {
        return None;
    }
    let direction = match read_direction(text[from]) {
        Some(d) => d,
        None => {
            return None;
        },
    };
    let gap = skip_run(text, from + 1, Class::Blank);
    if gap == from + 1 {
        return None;
    }
    let (distance, end) = match take_number(text, gap) {
        Some(found) => found,
        None => {
            return None;
        },
    };
    if distance > usize::MAX as u64 {
        return None;
    }
    let close = find_char(text, end, ')');
    if close >= text.len() {
        return None;
    }
    Some((Instruction { direction, distance: distance as usize }, close + 1))
}

fn take_hex5(text: &Vec<char>, from: usize) -> (r: Option<usize>)
    requires
        from + 5 <= text.len(),
    ensures
        match r {
            Some(v) => hex5_at(text@, from as int) == Some(v as nat),
            None => hex5_at(text@, from as int) is None,
        },
{
    let a = match hex_of(text[from]) {
        Some(d) => d as usize,
        None => {
            return None;
        },
    };
    let b = match hex_of(text[from + 1]) {
        Some(d) => d as usize,
        None => {
            return None;
        },
    };
    let c = match hex_of(text[from + 2]) {
        Some(d) => d as usize,
        None => {
            return None;
        },
    };
    let d = match hex_of(text[from + 3]) {
        Some(d) => d as usize,
        None => {
            return None;
        },
    };
    let e = match hex_of(text[from + 4]) {
        Some(d) => d as usize,
        None => {
            return None;
        },
    };
    Some((((a * 16 + b) * 16 + c) * 16 + d) * 16 + e)
}

/// Reads a line of a dig plan from its colour.
pub fn parse_line2(text: &Vec<char>, from: usize) -> (r: Option<(Instruction, usize)>)
    requires
        from <= text.len(),
    ensures
        match r {
            Some((line, end)) => line2_at(text@, from as int) == Some((line, end as int)) && from
                < end <= text.len(),
            None => line2_at(text@, from as int) is None,
        },
{
    let hash = find_char(text, from, '#');
    if hash >= text.len() || text.len() - hash < 8 {
        return None;
    }
    let distance = match take_hex5(text, hash + 1) {
        Some(distance) => distance,
        None => {
            return None;
        },
    };
    let direction = match read_direction_digit(text[hash + 6]) {
        Some(d) => d,
        None => {
            return None;
        },
    };
    if text[hash + 7] != ')' {
        return None;
    }
    Some((Instruction { direction, distance }, hash + 8))
}

fn parse_plan(input: &str, by_colour: bool) -> (r: Option<Vec<Instruction>>)
    ensures
        match r {
            Some(plan) => plan_of(input@, by_colour) == Some(plan@),
            None => plan_of(input@, by_colour) is None,
        },
{
    let text = chars_of(input);
    let first = if by_colour {
        parse_line2(&text, 0)
    } else {
        parse_line(&text, 0)
    };
    let (line, mut at) = match first {
        Some(found) => found,
        None => {
            return None;
        },
    };
    let mut plan: Vec<Instruction> = Vec::new();
    plan.push(line);
    assert(plan@ =~= seq![line]);
    loop
        invariant
            at <= text.len(),
            text@ == input@,
            plan_of(text@, by_colour) == Some(plan_from(text@, at as int, by_colour, plan@)),
        ensures
            plan_of(input@, by_colour) == Some(plan@),
        decreases text.len() - at,
    {
        let next = match skip_line_end(&text, at) {
            Some(next) => next,
            None => {
                break ;
            },
        };
        let found = if by_colour {
            parse_line2(&text, next)
        } else {
            parse_line(&text, next)
        };
        match found {
            Some((line, end)) => {
                plan.push(line);
                at = end;
            },
            None => {
                break ;
            },
        }
    }
    Some(plan)
}

/// Reads a dig plan.
pub fn parse(input: &str) -> (r: Option<Vec<Instruction>>)
    ensures
        match r {
            Some(plan) => plan_of(input@, false) == Some(plan@),
            None => plan_of(input@, false) is None,
        },
{
    parse_plan(input, false)
}

/// Reads a dig plan from its colours.
pub fn parse2(input: &str) -> (r: Option<Vec<Instruction>>)
    ensures
        match r {
            Some(plan) => plan_of(input@, true) == Some(plan@),
            None => plan_of(input@, true) is None,
        },
{
    parse_plan(input, true)
}

} // verus!
