use crate::scan::has_at;
use crate::scan::line_end_at;
use crate::scan::run_end;
use crate::scan::skip_line_end;
use crate::scan::skip_literal;
use crate::scan::skip_run;
use crate::scan::Class;
use crate::text::chars_of;
use num::integer::lcm;
use vstd::arithmetic::div_mod::lemma_fundamental_div_mod;
use vstd::arithmetic::div_mod::lemma_fundamental_div_mod_converse;
use vstd::arithmetic::div_mod::lemma_mod_multiples_basic;
use vstd::prelude::*;

verus! {

/// A network of nodes: each has a name and the two nodes that it leads to,
/// to the left and to the right. Nodes are known by their index.
#[derive(Debug)]
pub struct Network {
    pub names: Vec<Vec<char>>,
    pub jumps: Vec<(usize, usize)>,
}

impl Network {
    /// Whether every node has a name and leads to nodes of the network.
    pub open spec fn wf(&self) -> bool {
        self.names.len() == self.jumps.len() && forall|i: int|
            0 <= i < self.jumps.len() ==> (#[trigger] self.jumps[i]).0 < self.jumps.len()
                && self.jumps[i].1 < self.jumps.len()
    }

    /// The node reached from `start` after `n` steps, the directions being
    /// followed over and over: `L` leads left, anything else right.
    pub open spec fn after(&self, directions: Seq<char>, start: usize, n: nat) -> usize
        decreases n,
    {
        if n == 0 {
            start
        } else {
            let from = self.after(directions, start, (n - 1) as nat);
            if directions[(n - 1) % (directions.len() as int)] == 'L' {
                self.jumps[from as int].0
            } else {
                self.jumps[from as int].1
            }
        }
    }

    /// Whether a node is the end of a walk: with `any_z` every node whose
    /// name ends in `Z`, else the node `ZZZ` alone.
    pub open spec fn is_end(&self, node: usize, any_z: bool) -> bool {
        if any_z {
            self.names[node as int]@.len() > 0 && self.names[node as int]@.last() == 'Z'
        } else {
            self.names[node as int]@ == seq!['Z', 'Z', 'Z']
        }
    }

    /// Whether a walk from `start` ends after exactly `n` steps.
    pub open spec fn ends_after(&self, directions: Seq<char>, start: usize, n: nat, any_z: bool) -> bool {
        &&& n >= 1
        &&& self.is_end(self.after(directions, start, n), any_z)
        &&& forall|k: nat| 1 <= k < n ==> !self.is_end(#[trigger] self.after(directions, start, k), any_z)
    }

    /// Whether a walk from `start` ends, after a number of steps that fits.
    pub open spec fn ends(&self, directions: Seq<char>, start: usize, any_z: bool) -> bool {
        exists|n: nat| n <= usize::MAX && #[trigger] self.ends_after(directions, start, n, any_z)
    }

    fn at_end(&self, node: usize, any_z: bool) -> (r: bool)
        requires
            self.wf(),
            node < self.jumps.len(),
        ensures
            r == self.is_end(node, any_z),
    {
        let name = &self.names[node];
        if any_z {
            name.len() > 0 && name[name.len() - 1] == 'Z'
        } else {
            let r = name.len() == 3 && name[0] == 'Z' && name[1] == 'Z' && name[2] == 'Z';
            assert(r == (name@ =~= seq!['Z', 'Z', 'Z']));
            r
        }
    }

    fn walk_until(&self, start: usize, directions: &Vec<char>, any_z: bool) -> (steps: usize)
        requires
            self.wf(),
            start < self.jumps.len(),
            directions.len() > 0,
            self.ends(directions@, start, any_z),
        ensures
            self.ends_after(directions@, start, steps as nat, any_z),
    {
        self.try_walk_until(start, directions, any_z).unwrap()
    }

    fn try_walk_until(&self, start: usize, directions: &Vec<char>, any_z: bool) -> (r: Option<usize>)
        requires
            self.wf(),
            start < self.jumps.len(),
            directions.len() > 0,
        ensures
            match r {
                Some(steps) => self.ends_after(directions@, start, steps as nat, any_z),
                None => !self.ends(directions@, start, any_z),
            },
    {
        let mut current = start;
        let mut steps: usize = 0;
        let mut step: usize = 0;
        let ghost mut rounds: int = 0;
        assert(0 * directions.len() == 0) by (nonlinear_arith);
        while steps < usize::MAX
            invariant
                self.wf(),
                directions.len() > 0,
                start < self.jumps.len(),
                step < directions.len(),
                rounds >= 0,
                steps == rounds * directions.len() + step,
                current == self.after(directions@, start, steps as nat),
                current < self.jumps.len(),
                forall|k: nat|
                    1 <= k <= steps ==> !self.is_end(
                        #[trigger] self.after(directions@, start, k),
                        any_z,
                    ),
            decreases usize::MAX - steps,
        {
            let (left, right) = self.jumps[current];
            proof {
                lemma_fundamental_div_mod_converse(
                    steps as int,
                    directions.len() as int,
                    rounds,
                    step as int,
                );
            }
            if directions[step] == 'L' {
                current = left;
            } else {
                current = right;
            }
            steps = steps + 1;
            if step + 1 == directions.len() {
                proof {
                    assert((rounds + 1) * directions.len() == rounds * directions.len()
                        + directions.len()) by (nonlinear_arith);
                    rounds = rounds + 1;
                }
                step = 0;
            } else {
                step = step + 1;
            }
            if self.at_end(current, any_z) {
                return Some(steps);
            }
        }
        assert forall|n: nat| n <= usize::MAX implies !#[trigger] self.ends_after(
            directions@,
            start,
            n,
            any_z,
        ) by {
            if n >= 1 {
                assert(!self.is_end(self.after(directions@, start, n), any_z));
            }
        }
        None
    }
}

/// The number of steps from `start` to the node `ZZZ`.
pub fn walk(start: usize, directions: &Vec<char>, network: &Network) -> (steps: usize)
    requires
        network.wf(),
        start < network.jumps.len(),
        directions.len() > 0,
        network.ends(directions@, start, false),
    ensures
        network.ends_after(directions@, start, steps as nat, false),
{
    network.walk_until(start, directions, false)
}

/// The number of steps from `start` to the node `ZZZ`, if the walk gets
/// there after a number of steps that fits.
pub fn try_walk(start: usize, directions: &Vec<char>, network: &Network) -> (r: Option<usize>)
    requires
        network.wf(),
        start < network.jumps.len(),
        directions.len() > 0,
    ensures
        match r {
            Some(steps) => network.ends_after(directions@, start, steps as nat, false),
            None => !network.ends(directions@, start, false),
        },
{
    network.try_walk_until(start, directions, false)
}

/// The number of steps from `start` to a node whose name ends in `Z`, if the
/// walk gets to one after a number of steps that fits.
pub fn try_walk2(start: usize, directions: &Vec<char>, network: &Network) -> (r: Option<usize>)
    requires
        network.wf(),
        start < network.jumps.len(),
        directions.len() > 0,
    ensures
        match r {
            Some(steps) => network.ends_after(directions@, start, steps as nat, true),
            None => !network.ends(directions@, start, true),
        },
{
    network.try_walk_until(start, directions, true)
}

/// The number of steps from `start` to a node whose name ends in `Z`.
pub fn walk2(start: usize, directions: &Vec<char>, network: &Network) -> (steps: usize)
    requires
        network.wf(),
        start < network.jumps.len(),
        directions.len() > 0,
        network.ends(directions@, start, true),
    ensures
        network.ends_after(directions@, start, steps as nat, true),
{
    network.walk_until(start, directions, true)
}

/// Whether `m` is a multiple of every number.
pub open spec fn is_common_multiple(m: int, nums: Seq<usize>) -> bool {
    forall|i: int| 0 <= i < nums.len() ==> m % (#[trigger] nums[i] as int) == 0
}

/// Whether `l` is the least common multiple of numbers that are not zero:
/// a multiple of each of them that divides every other.
pub open spec fn is_lcm_of(l: int, nums: Seq<usize>) -> bool {
    &&& l > 0
    &&& is_common_multiple(l, nums)
    &&& forall|m: int| m > 0 && #[trigger] is_common_multiple(m, nums) ==> m % l == 0
}

/// Whether no number is zero.
pub open spec fn all_positive(nums: Seq<usize>) -> bool {
    forall|i: int| 0 <= i < nums.len() ==> #[trigger] nums[i] > 0
}

/// Whether the numbers have a common multiple that fits.
pub open spec fn have_small_multiple(nums: Seq<usize>) -> bool {
    exists|m: int| 0 < m <= usize::MAX && #[trigger] is_common_multiple(m, nums)
}

/// The numbers that follow the last zero; all the numbers where none is zero.
pub open spec fn after_zeros(nums: Seq<usize>) -> Seq<usize>
    decreases nums.len(),
{
    if nums.len() == 0 || nums.last() == 0 {
        Seq::empty()
    } else {
        after_zeros(nums.drop_last()).push(nums.last())
    }
}

/// A common multiple of numbers is one of those that follow their last zero.
pub proof fn lemma_after_zeros_within(nums: Seq<usize>, m: int)
    requires
        is_common_multiple(m, nums),
    ensures
        is_common_multiple(m, after_zeros(nums)),
    decreases nums.len(),
{
    if nums.len() > 0 && nums.last() != 0 {
        let before = nums.drop_last();
        assert forall|i: int| 0 <= i < before.len() implies m % (#[trigger] before[i] as int)
            == 0 by {
            assert(before[i] == nums[i]);
        }
        lemma_after_zeros_within(before, m);
        assert(m % (nums[nums.len() - 1] as int) == 0);
    }
}

/// A common multiple of the numbers that follow the last zero is one of the
/// numbers from index `from` on, where none of these is zero.
proof fn lemma_after_zeros_cover(nums: Seq<usize>, from: int, m: int)
    requires
        0 <= from <= nums.len(),
        all_positive(nums.skip(from)),
        is_common_multiple(m, after_zeros(nums)),
    ensures
        is_common_multiple(m, nums.skip(from)),
    decreases nums.len(),
{
    let tail = nums.skip(from);
    if from < nums.len() {
        let before = nums.drop_last();
        let kept = after_zeros(before);
        assert(tail[tail.len() - 1] > 0);
        assert(after_zeros(nums) == kept.push(nums.last()));
        assert forall|i: int| 0 <= i < kept.len() implies m % (#[trigger] kept[i] as int) == 0 by {
            assert(after_zeros(nums)[i] == kept[i]);
        }
        assert(m % (after_zeros(nums)[kept.len() as int] as int) == 0);
        assert forall|i: int| 0 <= i < before.skip(from).len() implies #[trigger] before.skip(
            from,
        )[i] > 0 by {
            assert(before.skip(from)[i] == tail[i]);
        }
        lemma_after_zeros_cover(before, from, m);
        assert forall|i: int| 0 <= i < tail.len() implies m % (#[trigger] tail[i] as int) == 0 by {
            if i < tail.len() - 1 {
                assert(tail[i] == before.skip(from)[i]);
            }
        }
    }
}

/// `num::integer::lcm`: the least common multiple of two numbers that are
/// not zero, which divides every common multiple, and zero where one of
/// them is zero. It is computed as one number times the other's quotient by
/// their greatest common divisor, which overflows exactly when the least
/// common multiple does not fit.
#[verifier::external_body]
fn lcm_of(a: usize, b: usize) -> (l: usize)
    requires
        a > 0 && b > 0 ==> have_small_multiple(seq![a, b]),
    ensures
        a > 0 && b > 0 ==> is_lcm_of(l as int, seq![a, b]),
        a == 0 || b == 0 ==> l == 0,
{
    lcm(a, b)
}

proof fn lemma_divides_chain(x: int, y: int, z: int)
    requires
        x > 0,
        y > 0,
        y % x == 0,
        z % y == 0,
    ensures
        z % x == 0,
{
    lemma_fundamental_div_mod(y, x);
    lemma_fundamental_div_mod(z, y);
    let p = y / x;
    let q = z / y;
    assert(z == x * (p * q)) by (nonlinear_arith)
        requires
            y == x * p,
            z == y * q,
    ;
    lemma_mod_multiples_basic(p * q, x);
    assert((p * q) * x == x * (p * q)) by (nonlinear_arith);
}

/// The least common multiple of the numbers from index `from` on, or zero
/// where one of them is zero.
fn lcmm_from(nums: &Vec<usize>, from: usize) -> (l: usize)
    requires
        from < nums.len(),
        have_small_multiple(after_zeros(nums@)),
    ensures
        if all_positive(nums@.skip(from as int)) {
            is_lcm_of(l as int, nums@.skip(from as int))
        } else {
            l == 0
        },
    decreases nums.len() - from,
{
    let ghost tail = nums@.skip(from as int);
    let ghost small = choose|m: int|
        0 < m <= usize::MAX && #[trigger] is_common_multiple(m, after_zeros(nums@));
    if from + 1 == nums.len() {
        let l = nums[from];
        assert(tail =~= seq![l]);
        if l > 0 {
            assert(l as int % l as int == 0) by (nonlinear_arith)
                requires
                    l > 0,
            ;
            assert forall|m: int| m > 0 && #[trigger] is_common_multiple(m, tail) implies m % (
            l as int) == 0 by {
                assert(m % (tail[0] as int) == 0);
            }
        } else {
            assert(tail[0] == 0);
        }
        return l;
    }
    let rest = lcmm_from(nums, from + 1);
    let ghost after = nums@.skip(from + 1);
    let a = nums[from];
    assert(tail[0] == a);
    assert forall|i: int| 0 <= i < after.len() implies #[trigger] after[i] == tail[i + 1] by {}
    if a == 0 || rest == 0 {
        proof {
            if a > 0 {
                assert(!all_positive(after));
                let i = choose|i: int| 0 <= i < after.len() && !(#[trigger] after[i] > 0);
                assert(tail[i + 1] == 0);
            }
        }
        return lcm_of(a, rest);
    }
    proof {
        assert(all_positive(after));
        assert(all_positive(tail)) by {
            assert forall|i: int| 0 <= i < tail.len() implies #[trigger] tail[i] > 0 by {
                if i > 0 {
                    assert(after[i - 1] == tail[i]);
                }
            }
        }
        lemma_after_zeros_cover(nums@, from as int, small);
        assert(is_common_multiple(small, after)) by {
            assert forall|i: int| 0 <= i < after.len() implies small % (#[trigger] after[i] as int)
                == 0 by {
                assert(after[i] == tail[i + 1]);
            }
        }
        assert(small % (rest as int) == 0);
        assert(small % (tail[0] as int) == 0);
        assert(is_common_multiple(small, seq![a, rest]));
    }
    let l = lcm_of(a, rest);
    proof {
        let pair = seq![a, rest];
        assert(l as int % (pair[0] as int) == 0);
        assert(l as int % (pair[1] as int) == 0);
        assert forall|i: int| 0 <= i < tail.len() implies (l as int) % (#[trigger] tail[i] as int)
            == 0 by {
            if i > 0 {
                assert(tail[i] == after[i - 1]);
                assert((rest as int) % (after[i - 1] as int) == 0);
                assert(tail[i] > 0);
                lemma_divides_chain(tail[i] as int, rest as int, l as int);
            }
        }
        assert forall|m: int| m > 0 && #[trigger] is_common_multiple(m, tail) implies m % (l as int)
            == 0 by {
            assert(m % (tail[0] as int) == 0);
            assert(is_common_multiple(m, after)) by {
                assert forall|i: int| 0 <= i < after.len() implies m % (#[trigger] after[i] as int)
                    == 0 by {
                    assert(after[i] == tail[i + 1]);
                }
            }
            assert(m % (rest as int) == 0);
            assert(is_common_multiple(m, pair));
        }
    }
    l
}

/// The least common multiple of the numbers, or zero where one of them is
/// zero. It is worked out from the last number backwards, so the numbers
/// that follow the last zero must have a common multiple that fits.
pub fn lcmm(nums: Vec<usize>) -> (l: usize)
    requires
        nums.len() > 0,
        have_small_multiple(after_zeros(nums@)),
    ensures
        if all_positive(nums@) {
            is_lcm_of(l as int, nums@)
        } else {
            l == 0
        },
{
    assert(nums@.skip(0) =~= nums@);
    lcmm_from(&nums, 0)
}

/// The nodes among the first `k` whose names end in `A`, in order.
pub open spec fn starts_upto(names: Seq<Vec<char>>, k: nat) -> Seq<usize>
    decreases k,
{
    if k == 0 || k > names.len() {
        Seq::empty()
    } else {
        let before = starts_upto(names, (k - 1) as nat);
        if names[k - 1]@.len() > 0 && names[k - 1]@.last() == 'A' {
            before.push((k - 1) as usize)
        } else {
            before
        }
    }
}

/// Whether `lengths` holds, for every node whose name ends in `A`, the
/// number of steps from it to a node whose name ends in `Z`.
pub open spec fn are_walk_lengths(network: &Network, directions: Seq<char>, lengths: Seq<usize>) -> bool {
    let starts = starts_upto(network.names@, network.names.len() as nat);
    lengths.len() == starts.len() && forall|i: int|
        0 <= i < starts.len() ==> network.ends_after(directions, starts[i], #[trigger] lengths[i] as nat, true)
}

/// The number of steps after which walks from all nodes whose names end in
/// `A`, made side by side, stand on nodes whose names end in `Z` together,
/// provided that each comes back to its end node after as many steps as it
/// took to reach it: the least common multiple of the lengths of the walks.
pub fn walk3(directions: &Vec<char>, network: &Network) -> (steps: usize)
    requires
        network.wf(),
        directions.len() > 0,
        starts_upto(network.names@, network.names.len() as nat).len() > 0,
        forall|i: usize|
            i < network.names.len() && network.names[i as int]@.len() > 0
                && network.names[i as int]@.last() == 'A' ==> #[trigger] network.ends(
                directions@,
                i,
                true,
            ),
        forall|lengths: Seq<usize>| #[trigger]
            are_walk_lengths(network, directions@, lengths) ==> have_small_multiple(lengths),
    ensures
        exists|lengths: Seq<usize>| #[trigger]
            are_walk_lengths(network, directions@, lengths) && is_lcm_of(steps as int, lengths),
{
    let n = network.names.len();
    let mut steps: Vec<usize> = Vec::new();
    let mut i: usize = 0;
    let ghost names = network.names@;
    while i < n
        invariant
            n == network.names.len(),
            names == network.names@,
            network.wf(),
            directions.len() > 0,
            i <= n,
            forall|i: usize|
                i < network.names.len() && network.names[i as int]@.len() > 0
                    && network.names[i as int]@.last() == 'A' ==> #[trigger] network.ends(
                    directions@,
                    i,
                    true,
                ),
            steps.len() == starts_upto(names, i as nat).len(),
            forall|k: int|
                0 <= k < steps.len() ==> network.ends_after(
                    directions@,
                    starts_upto(names, i as nat)[k],
                    #[trigger] steps[k] as nat,
                    true,
                ),
        decreases n - i,
    {
        let name = &network.names[i];
        if name.len() > 0 && name[name.len() - 1] == 'A' {
            assert(network.ends(directions@, i, true));
            let length = walk2(i, directions, network);
            steps.push(length);
        }
        i = i + 1;
    }
    assert(are_walk_lengths(network, directions@, steps@));
    proof {
        assert forall|k: int| 0 <= k < steps.len() implies #[trigger] steps[k] > 0 by {
            assert(network.ends_after(
                directions@,
                starts_upto(names, n as nat)[k],
                steps[k] as nat,
                true,
            ));
        }
    }
    proof {
        let small = choose|m: int| 0 < m <= usize::MAX && #[trigger] is_common_multiple(m, steps@);
        lemma_after_zeros_within(steps@, small);
    }
    lcmm(steps)
}

/// Where the directions that start at `from` end.
pub open spec fn directions_end(s: Seq<char>, from: int) -> int
    decreases s.len() - from,
{
    if from < 0 || from >= s.len() || (s[from] != 'L' && s[from] != 'R') {
        from
    } else {
        directions_end(s, from + 1)
    }
}

/// The directions at `from`: at least one `L` or `R`, and a line end.
pub open spec fn directions_at(s: Seq<char>, from: int) -> Option<(Seq<char>, int)> {
    let end = directions_end(s, from);
    match line_end_at(s, end) {
        Some(next) => if 0 <= from < end {
            Some((s.subrange(from, end), next))
        } else {
            None
        },
        None => None,
    }
}

/// An entry of the network, by names: a node and the nodes that it leads to.
pub struct Entry {
    pub start: Seq<char>,
    pub left: Seq<char>,
    pub right: Seq<char>,
}

/// An entry at `from`: a name, ` = (`, a name, a comma and a space, a name
/// and a closing bracket; names are letters and digits.
pub open spec fn entry_at(s: Seq<char>, from: int) -> Option<(Entry, int)> {
    let a = run_end(s, from, Class::LetterOrDigit);
    let b = run_end(s, a + 4, Class::LetterOrDigit);
    let c = run_end(s, b + 2, Class::LetterOrDigit);
    if 0 <= from < a && has_at(s, a, seq![' ', '=', ' ', '(']) && a + 4 < b && has_at(
        s,
        b,
        seq![',', ' '],
    ) && b + 2 < c && has_at(s, c, seq![')']) {
        Some(
            (
                Entry {
                    start: s.subrange(from, a),
                    left: s.subrange(a + 4, b),
                    right: s.subrange(b + 2, c),
                },
                c + 1,
            ),
        )
    } else {
        None
    }
}

/// The entries of a text, after some have been read up to `from`.
pub open spec fn entries_from(s: Seq<char>, from: int, done: Seq<Entry>) -> Seq<Entry>
    decreases s.len() - from,
{
    match line_end_at(s, from) {
        Some(next) => match entry_at(s, next) {
            Some((entry, end)) => if from < end <= s.len() {
                entries_from(s, end, done.push(entry))
            } else {
                done
            },
            None => done,
        },
        None => done,
    }
}

/// The directions and the entries that a text holds: a line of directions,
/// an empty line, and entries, one to a line.
pub open spec fn entries_of(s: Seq<char>) -> Option<(Seq<char>, Seq<Entry>)> {
    match directions_at(s, 0) {
        Some((directions, a)) => match line_end_at(s, a) {
            Some(b) => match entry_at(s, b) {
                Some((entry, end)) => Some((directions, entries_from(s, end, seq![entry]))),
                None => None,
            },
            None => None,
        },
        None => None,
    }
}

/// The index of the first entry at or after `from` for the node `name`.
pub open spec fn entry_of(entries: Seq<Entry>, name: Seq<char>, from: int) -> Option<int>
    decreases entries.len() - from,
{
    if from < 0 || from >= entries.len() {
        None
    } else if entries[from].start == name {
        Some(from)
    } else {
        entry_of(entries, name, from + 1)
    }
}

/// Whether every entry leads to nodes that have entries.
pub open spec fn is_closed(entries: Seq<Entry>) -> bool {
    forall|i: int|
        0 <= i < entries.len() ==> entry_of(entries, (#[trigger] entries[i]).left, 0) is Some
            && entry_of(entries, entries[i].right, 0) is Some
}

/// Whether a network is that of the entries: its nodes are the entries in
/// order, each leading to the first entries for the nodes that it names.
pub open spec fn is_network_of(network: Network, entries: Seq<Entry>) -> bool {
    &&& network.names.len() == entries.len()
    &&& network.jumps.len() == entries.len()
    &&& forall|i: int|
        0 <= i < entries.len() ==> (#[trigger] network.names[i])@ == entries[i].start
    &&& forall|i: int|
        0 <= i < entries.len() ==> entry_of(entries, entries[i].left, 0) == Some(
            (#[trigger] network.jumps[i]).0 as int,
        ) && entry_of(entries, entries[i].right, 0) == Some(network.jumps[i].1 as int)
}

fn copy_range(text: &Vec<char>, from: usize, to: usize) -> (copy: Vec<char>)
    requires
        from <= to <= text.len(),
    ensures
        copy@ == text@.subrange(from as int, to as int),
{
    let mut copy: Vec<char> = Vec::new();
    let mut i = from;
    while i < to
        invariant
            from <= i <= to <= text.len(),
            copy@ == text@.subrange(from as int, i as int),
        decreases to - i,
    {
        copy.push(text[i]);
        assert(copy@ =~= text@.subrange(from as int, i + 1));
        i = i + 1;
    }
    copy
}

/// Reads the directions.
pub fn parse_directions(text: &Vec<char>, from: usize) -> (r: Option<(Vec<char>, usize)>)
    requires
        from <= text.len(),
    ensures
        match r {
            Some((directions, end)) => directions_at(text@, from as int) == Some(
                (directions@, end as int),
            ) && from < end <= text.len() && directions.len() > 0,
            None => directions_at(text@, from as int) is None,
        },
{
    let mut end = from;
    while end < text.len() && (text[end] == 'L' || text[end] == 'R')
        invariant
            from <= end <= text.len(),
            directions_end(text@, from as int) == directions_end(text@, end as int),
        decreases text.len() - end,
    {
        end = end + 1;
    }
    let next = match skip_line_end(text, end) {
        Some(next) => next,
        None => {
            return None;
        },
    };
    if end == from {
        return None;
    }
    Some((copy_range(text, from, end), next))
}

/// The names of an entry as they stand in the text.
struct Names {
    start: Vec<char>,
    left: Vec<char>,
    right: Vec<char>,
}

impl Names {
    spec fn view(&self) -> Entry {
        Entry { start: self.start@, left: self.left@, right: self.right@ }
    }
}

fn parse_entry(text: &Vec<char>, from: usize) -> (r: Option<(Names, usize)>)
    requires
        from <= text.len(),
    ensures
        match r {
            Some((entry, end)) => entry_at(text@, from as int) == Some((entry@, end as int))
                && from < end <= text.len(),
            None => entry_at(text@, from as int) is None,
        },
{
    let a = skip_run(text, from, Class::LetterOrDigit);
    if a == from {
        return None;
    }
    let equals = vec![' ', '=', ' ', '('];
    let comma = vec![',', ' '];
    let close = vec![')'];
    assert(equals@ =~= seq![' ', '=', ' ', '(']);
    assert(comma@ =~= seq![',', ' ']);
    assert(close@ =~= seq![')']);
    let a4 = match skip_literal(text, a, &equals) {
        Some(next) => next,
        None => {
            return None;
        },
    };
    let b = skip_run(text, a4, Class::LetterOrDigit);
    if b == a4 {
        return None;
    }
    let b2 = match skip_literal(text, b, &comma) {
        Some(next) => next,
        None => {
            return None;
        },
    };
    let c = skip_run(text, b2, Class::LetterOrDigit);
    if c == b2 {
        return None;
    }
    let stop = match skip_literal(text, c, &close) {
        Some(next) => next,
        None => {
            return None;
        },
    };
    Some(
        (
            Names {
                start: copy_range(text, from, a),
                left: copy_range(text, a4, b),
                right: copy_range(text, b2, c),
            },
            stop,
        ),
    )
}

spec fn entries_view(entries: Seq<Names>) -> Seq<Entry> {
    Seq::new(entries.len(), |i: int| entries[i]@)
}

fn same_name(a: &Vec<char>, b: &Vec<char>) -> (r: bool)
    ensures
        r == (a@ == b@),
{
    if a.len() != b.len() {
        return false;
    }
    let mut i: usize = 0;
    while i < a.len()
        invariant
            a.len() == b.len(),
            i <= a.len(),
            forall|j: int| 0 <= j < i ==> a[j] == b[j],
        decreases a.len() - i,
    {
        if a[i] != b[i] {
            return false;
        }
        i = i + 1;
    }
    assert(a@ =~= b@);
    true
}

fn find_entry(entries: &Vec<Names>, name: &Vec<char>) -> (r: Option<usize>)
    ensures
        match r {
            Some(at) => entry_of(entries_view(entries@), name@, 0) == Some(at as int) && at
                < entries.len(),
            None => entry_of(entries_view(entries@), name@, 0) is None,
        },
{
    let ghost all = entries_view(entries@);
    let mut i: usize = 0;
    while i < entries.len()
        invariant
            i <= entries.len(),
            all == entries_view(entries@),
            entry_of(all, name@, 0) == entry_of(all, name@, i as int),
        decreases entries.len() - i,
    {
        assert(all[i as int] == entries[i as int]@);
        if same_name(&entries[i].start, name) {
            return Some(i);
        }
        i = i + 1;
    }
    None
}

/// Reads the directions and the network of a text. There is a network only
/// where every node that an entry leads to has an entry.
pub fn parse_entries(input: &str) -> (r: Option<(Vec<char>, Network)>)
    ensures
        match r {
            Some((directions, network)) => match entries_of(input@) {
                Some((d, entries)) => d == directions@ && directions.len() > 0 && is_closed(
                    entries,
                ) && is_network_of(network, entries) && network.wf(),
                None => false,
            },
            None => match entries_of(input@) {
                Some((d, entries)) => !is_closed(entries),
                None => true,
            },
        },
{
    let text = chars_of(input);
    let (directions, a) = match parse_directions(&text, 0) {
        Some(found) => found,
        None => {
            return None;
        },
    };
    let b = match skip_line_end(&text, a) {
        Some(next) => next,
        None => {
            return None;
        },
    };
    let (first, mut at) = match parse_entry(&text, b) {
        Some(found) => found,
        None => {
            return None;
        },
    };
    let ghost whole = entries_from(text@, at as int, seq![first@]);
    let mut entries: Vec<Names> = Vec::new();
    entries.push(first);
    assert(entries_view(entries@) =~= seq![first@]);
    loop
        invariant
            at <= text.len(),
            whole == entries_from(text@, at as int, entries_view(entries@)),
        ensures
            whole == entries_view(entries@),
        decreases text.len() - at,
    {
        let next = match skip_line_end(&text, at) {
            Some(next) => next,
            None => {
                break ;
            },
        };
        match parse_entry(&text, next) {
            Some((entry, end)) => {
                let ghost before = entries_view(entries@);
                entries.push(entry);
                assert(entries_view(entries@) =~= before.push(entry@));
                at = end;
            },
            None => {
                break ;
            },
        }
    }
    let ghost all = entries_view(entries@);
    let mut names: Vec<Vec<char>> = Vec::new();
    let mut jumps: Vec<(usize, usize)> = Vec::new();
    let mut i: usize = 0;
    assert(entries_of(input@) == Some((directions@, all)));
    while i < entries.len()
        invariant
            i <= entries.len(),
            all == entries_view(entries@),
            entries_of(input@) == Some((directions@, all)),
            directions.len() > 0,
            names.len() == i,
            jumps.len() == i,
            forall|k: int| 0 <= k < i ==> (#[trigger] names[k])@ == all[k].start,
            forall|k: int|
                0 <= k < i ==> entry_of(all, all[k].left, 0) == Some((#[trigger] jumps[k]).0 as int)
                    && entry_of(all, all[k].right, 0) == Some(jumps[k].1 as int) && jumps[k].0
                    < entries.len() && jumps[k].1 < entries.len(),
        decreases entries.len() - i,
    {
        assert(all[i as int] == entries[i as int]@);
        let left = match find_entry(&entries, &entries[i].left) {
            Some(at) => at,
            None => {
                assert(entry_of(all, all[i as int].left, 0) is None);
                return None;
            },
        };
        let right = match find_entry(&entries, &entries[i].right) {
            Some(at) => at,
            None => {
                assert(entry_of(all, all[i as int].right, 0) is None);
                return None;
            },
        };
        names.push(copy_range(&entries[i].start, 0, entries[i].start.len()));
        assert(names[i as int]@ =~= all[i as int].start);
        jumps.push((left, right));
        i = i + 1;
    }
    let network = Network { names, jumps };
    proof {
        assert forall|k: int| 0 <= k < all.len() implies entry_of(
            all,
            (#[trigger] all[k]).left,
            0,
        ) is Some && entry_of(all, all[k].right, 0) is Some by {
            assert(network.jumps[k].0 < entries.len());
        }
        assert(is_network_of(network, all));
        assert(network.wf());
    }
    Some((directions, network))
}

} // verus!
