use crate::text::chars_of;
use crate::text::code_of;
use crate::text::decimal_value;
use crate::text::all_digits;
use crate::text::parse_number;
use crate::text::split;
use crate::text::split_spec;
use crate::text::views;
use vstd::prelude::*;

verus! {

/// The steps of an initialization sequence: the pieces of the text between
/// its commas.
pub fn parse(input: &str) -> (data: Vec<Vec<char>>)
    ensures
        views(data@) == split_spec(input@, ','),
{
    let text = chars_of(input);
    split(&text, ',')
}

/// The hash of a sequence of characters: start from zero and, for every
/// character, add its code, multiply by 17 and keep the remainder modulo 256.
pub open spec fn hash_spec(s: Seq<char>) -> nat
    decreases s.len(),
{
    if s.len() == 0 {
        0
    } else {
        ((hash_spec(s.drop_last()) + s.last() as u32) * 17 % 256) as nat
    }
}

/// The hash of a sequence of characters.
pub fn aoc_hash(v: &Vec<char>) -> (h: usize)
    ensures
        h == hash_spec(v@),
        h < 256,
{
    let mut acc: usize = 0;
    let n = v.len();
    let mut i: usize = 0;
    assert(v@.take(0) =~= Seq::<char>::empty());
    while i < n
        invariant
            n == v.len(),
            i <= n,
            acc < 256,
            acc == hash_spec(v@.take(i as int)),
        decreases n - i,
    {
        assert(v@.take(i + 1).drop_last() =~= v@.take(i as int));
        assert(v@.take(i + 1).last() == v[i as int]);
        let code = code_of(v[i]);
        acc = (acc + code as usize) * 17 % 256;
        i = i + 1;
    }
    assert(v@.take(n as int) =~= v@);
    acc
}

/// The sum of the hashes of the first `k` steps.
pub open spec fn hash_sum(data: Seq<Seq<char>>, k: nat) -> nat
    decreases k,
{
    if k == 0 || k > data.len() {
        0
    } else {
        hash_sum(data, (k - 1) as nat) + hash_spec(data[k - 1])
    }
}

proof fn lemma_hash_below(s: Seq<char>)
    ensures
        hash_spec(s) < 256,
    decreases s.len(),
{
    if s.len() > 0 {
        lemma_hash_below(s.drop_last());
    }
}

/// The sum of the hashes of all steps.
pub fn solve(data: &Vec<Vec<char>>) -> (sum: usize)
    requires
        255 * data.len() <= usize::MAX,
    ensures
        sum == hash_sum(views(data@), data.len() as nat),
{
    let n = data.len();
    let mut sum: usize = 0;
    let mut k: usize = 0;
    while k < n
        invariant
            n == data.len(),
            k <= n,
            255 * n <= usize::MAX,
            sum == hash_sum(views(data@), k as nat),
            sum <= 255 * k,
        decreases n - k,
    {
        let h = aoc_hash(&data[k]);
        assert(views(data@)[k as int] == data[k as int]@);
        sum = sum + h;
        k = k + 1;
    }
    sum
}

/// What a step does to the lens with its label.
#[derive(Clone, Copy, Debug, PartialEq, Eq, Structural)]
pub enum Operation {
    Remove,
    Insert,
}

/// A lens: the box that it belongs in, its label and its focal length.
#[derive(Debug)]
pub struct Chest {
    pub chest_id: usize,
    pub label: Vec<char>,
    pub focal_length: usize,
}

/// One step of the initialization sequence.
#[derive(Debug)]
pub struct Step {
    pub operation: Operation,
    pub chest: Chest,
}

/// The number of characters of a step before its first `=` or `-`.
pub open spec fn label_len(block: Seq<char>, from: int) -> int
    decreases block.len() - from,
{
    if from < 0 || from >= block.len() || block[from] == '=' || block[from] == '-' {
        from
    } else {
        label_len(block, from + 1)
    }
}

/// Whether a step can be read: a label, then `=` and a focal length that
/// fits, or then anything else.
pub open spec fn step_ok(block: Seq<char>) -> bool {
    let n = label_len(block, 0);
    n < block.len() && (block[n] == '=' ==> {
        let digits = block.skip(n + 1);
        digits.len() > 0 && all_digits(digits) && decimal_value(digits) <= usize::MAX
    })
}

/// Whether `step` is what the text `block` says.
pub open spec fn is_step_of(step: Step, block: Seq<char>) -> bool {
    let n = label_len(block, 0);
    &&& step.chest.label@ == block.take(n)
    &&& step.chest.chest_id == hash_spec(block.take(n))
    &&& step.operation == if block[n] == '=' {
        Operation::Insert
    } else {
        Operation::Remove
    }
    &&& step.chest.focal_length == if block[n] == '=' {
        decimal_value(block.skip(n + 1))
    } else {
        0
    }
}

/// Reads one step.
pub fn get_step(block: &Vec<char>) -> (step: Step)
    requires
        step_ok(block@),
    ensures
        is_step_of(step, block@),
{
    let mut seed: Vec<char> = Vec::new();
    let n = block.len();
    let mut i: usize = 0;
    while i < n && block[i] != '=' && block[i] != '-'
        invariant
            n == block.len(),
            i <= n,
            seed@ == block@.take(i as int),
            label_len(block@, 0) == label_len(block@, i as int),
        decreases n - i,
    {
        seed.push(block[i]);
        assert(seed@ =~= block@.take(i + 1));
        i = i + 1;
    }
    let chest_id = aoc_hash(&seed);
    let operation = if block[i] == '=' {
        Operation::Insert
    } else {
        Operation::Remove
    };
    let mut focal_length: usize = 0;
    if block[i] == '=' {
        let mut digits: Vec<char> = Vec::new();
        let mut j: usize = i + 1;
        while j < n
            invariant
                n == block.len(),
                i + 1 <= j <= n,
                digits@ == block@.subrange(i + 1, j as int),
            decreases n - j,
        {
            digits.push(block[j]);
            assert(digits@ =~= block@.subrange(i + 1, j + 1));
            j = j + 1;
        }
        assert(digits@ =~= block@.skip(i + 1));
        focal_length = parse_number(&digits).unwrap() as usize;
    }
    Step { operation, chest: Chest { chest_id, label: seed, focal_length } }
}

/// Reads the steps of an initialization sequence.
pub fn get_steps(data: &Vec<Vec<char>>) -> (steps: Vec<Step>)
    requires
        forall|i: int| 0 <= i < data.len() ==> step_ok(#[trigger] data[i]@),
    ensures
        steps.len() == data.len(),
        forall|i: int| 0 <= i < data.len() ==> is_step_of(#[trigger] steps[i], data[i]@),
{
    let mut v: Vec<Step> = Vec::new();
    let n = data.len();
    let mut k: usize = 0;
    while k < n
        invariant
            n == data.len(),
            k <= n,
            v.len() == k,
            forall|i: int| 0 <= i < data.len() ==> step_ok(#[trigger] data[i]@),
            forall|i: int| 0 <= i < k ==> is_step_of(#[trigger] v[i], data[i]@),
        decreases n - k,
    {
        assert(step_ok(data[k as int]@));
        let step = get_step(&data[k]);
        v.push(step);
        k = k + 1;
    }
    v
}

/// A lens as a value.
pub struct Lens {
    pub chest_id: usize,
    pub label: Seq<char>,
    pub focal_length: usize,
}

impl Chest {
    /// The lens as a value.
    pub open spec fn view(&self) -> Lens {
        Lens { chest_id: self.chest_id, label: self.label@, focal_length: self.focal_length }
    }
}

/// The lens that a step names, with the focal length that it gives.
pub open spec fn lens_of(block: Seq<char>) -> Lens {
    let n = label_len(block, 0);
    Lens {
        chest_id: hash_spec(block.take(n)) as usize,
        label: block.take(n),
        focal_length: if block[n] == '=' {
            decimal_value(block.skip(n + 1)) as usize
        } else {
            0
        },
    }
}

/// Whether a step puts a lens in; it takes one out otherwise.
pub open spec fn inserts(block: Seq<char>) -> bool {
    block[label_len(block, 0)] == '='
}

/// The slot, at or after `from`, of the first lens with the given label.
pub open spec fn slot_of(lenses: Seq<Lens>, label: Seq<char>, from: int) -> Option<int>
    decreases lenses.len() - from,
{
    if from < 0 || from >= lenses.len() {
        None
    } else if lenses[from].label == label {
        Some(from)
    } else {
        slot_of(lenses, label, from + 1)
    }
}

/// A box after a step: a lens that is put in takes the place of the first
/// lens with its label, keeping only its own focal length, or goes behind
/// the others; a lens that is taken out leaves its slot to those behind it.
pub open spec fn box_after(lenses: Seq<Lens>, lens: Lens, insert: bool) -> Seq<Lens> {
    match slot_of(lenses, lens.label, 0) {
        Some(i) => if insert {
            lenses.update(
                i,
                Lens {
                    chest_id: lenses[i].chest_id,
                    label: lenses[i].label,
                    focal_length: lens.focal_length,
                },
            )
        } else {
            lenses.remove(i)
        },
        None => if insert {
            lenses.push(lens)
        } else {
            lenses
        },
    }
}

/// The 256 boxes after the first `k` steps.
pub open spec fn boxes_upto(data: Seq<Seq<char>>, k: nat) -> Seq<Seq<Lens>>
    decreases k,
{
    if k == 0 || k > data.len() {
        Seq::new(256, |i: int| Seq::<Lens>::empty())
    } else {
        let before = boxes_upto(data, (k - 1) as nat);
        let lens = lens_of(data[k - 1]);
        before.update(
            lens.chest_id as int,
            box_after(before[lens.chest_id as int], lens, inserts(data[k - 1])),
        )
    }
}

/// The focusing power of the first `k` lenses of a box: for each, one more
/// than the number of its box, times its slot counted from one, times its
/// focal length.
pub open spec fn box_power(lenses: Seq<Lens>, k: nat) -> nat
    decreases k,
{
    if k == 0 || k > lenses.len() {
        0
    } else {
        box_power(lenses, (k - 1) as nat) + ((lenses[k - 1].chest_id + 1) * k
            * lenses[k - 1].focal_length) as nat
    }
}

/// The focusing power of the first `k` boxes.
pub open spec fn boxes_power(boxes: Seq<Seq<Lens>>, k: nat) -> nat
    decreases k,
{
    if k == 0 || k > boxes.len() {
        0
    } else {
        boxes_power(boxes, (k - 1) as nat) + box_power(boxes[k - 1], boxes[k - 1].len())
    }
}

/// The focusing power of the lenses that the steps leave in the boxes.
pub open spec fn focusing_power(data: Seq<Seq<char>>) -> nat {
    boxes_power(boxes_upto(data, data.len()), 256)
}

/// The lenses of a box as values.
pub open spec fn lenses_of(entry: Seq<Chest>) -> Seq<Lens> {
    Seq::new(entry.len(), |i: int| entry[i]@)
}

/// The boxes with their lenses as values.
pub open spec fn boxes_of(chests: Seq<Vec<Chest>>) -> Seq<Seq<Lens>> {
    Seq::new(chests.len(), |i: int| lenses_of(chests[i]@))
}

fn same_label(a: &Vec<char>, b: &Vec<char>) -> (r: bool)
    ensures
        r == (a@ == b@),
{
    if a.len() != b.len() {
        return false;
    }
    let mut i: usize = 0;
    while i < a.len()
        invariant
            a.len() == b.len(),
            i <= a.len(),
            forall|j: int| 0 <= j < i ==> a[j] == b[j],
        decreases a.len() - i,
    {
        if a[i] != b[i] {
            return false;
        }
        i = i + 1;
    }
    assert(a@ =~= b@);
    true
}

fn find_slot(entry: &Vec<Chest>, label: &Vec<char>) -> (r: Option<usize>)
    ensures
        match r {
            Some(i) => slot_of(lenses_of(entry@), label@, 0) == Some(i as int) && i < entry.len(),
            None => slot_of(lenses_of(entry@), label@, 0) is None,
        },
{
    let mut i: usize = 0;
    while i < entry.len()
        invariant
            i <= entry.len(),
            slot_of(lenses_of(entry@), label@, 0) == slot_of(lenses_of(entry@), label@, i as int),
        decreases entry.len() - i,
    {
        assert(lenses_of(entry@)[i as int] == entry[i as int]@);
        if same_label(&entry[i].label, label) {
            return Some(i);
        }
        i = i + 1;
    }
    None
}

fn apply_step(entry: &mut Vec<Chest>, step: Step)
    ensures
        lenses_of(final(entry)@) == box_after(
            lenses_of(old(entry)@),
            step.chest@,
            step.operation == Operation::Insert,
        ),
{
    let ghost before = lenses_of(entry@);
    match step.operation {
        Operation::Insert => {
            match find_slot(entry, &step.chest.label) {
                Some(i) => {
                    assert(before[i as int] == entry[i as int]@);
                    entry[i].focal_length = step.chest.focal_length;
                    assert(lenses_of(entry@) =~= box_after(before, step.chest@, true));
                },
                None => {
                    entry.push(step.chest);
                    assert(lenses_of(entry@) =~= box_after(before, step.chest@, true));
                },
            }
        },
        Operation::Remove => {
            match find_slot(entry, &step.chest.label) {
                Some(index) => {
                    entry.remove(index);
                    assert(lenses_of(entry@) =~= box_after(before, step.chest@, false));
                },
                None => {},
            }
        },
    }
}

proof fn lemma_box_power_grows(lenses: Seq<Lens>, k: nat)
    requires
        k <= lenses.len(),
    ensures
        box_power(lenses, k) <= box_power(lenses, lenses.len()),
    decreases lenses.len() - k,
{
    if k < lenses.len() {
        lemma_box_power_grows(lenses, k + 1);
    }
}

proof fn lemma_boxes_power_grows(boxes: Seq<Seq<Lens>>, k: nat)
    requires
        k <= boxes.len(),
    ensures
        boxes_power(boxes, k) <= boxes_power(boxes, boxes.len()),
    decreases boxes.len() - k,
{
    if k < boxes.len() {
        lemma_boxes_power_grows(boxes, k + 1);
    }
}

/// The focusing power of the lenses of a box, or nothing where it does not fit.
fn try_power_of_box(entry: &Vec<Chest>) -> (r: Option<usize>)
    ensures
        match r {
            Some(sum) => sum == box_power(lenses_of(entry@), entry.len() as nat),
            None => box_power(lenses_of(entry@), entry.len() as nat) > usize::MAX,
        },
{
    let ghost lenses = lenses_of(entry@);
    let mut sum: usize = 0;
    let mut slot: usize = 0;
    while slot < entry.len()
        invariant
            slot <= entry.len(),
            lenses == lenses_of(entry@),
            sum == box_power(lenses, slot as nat),
        decreases entry.len() - slot,
    {
        let chest = &entry[slot];
        assert(lenses[slot as int] == chest@);
        proof {
            lemma_box_power_grows(lenses, (slot + 1) as nat);
        }
        let ghost term = (chest.chest_id + 1) * (slot + 1) * chest.focal_length;
        if chest.focal_length > 0 {
            assert((chest.chest_id + 1) * (slot + 1) <= term) by (nonlinear_arith)
                requires
                    term == (chest.chest_id + 1) * (slot + 1) * chest.focal_length,
                    chest.focal_length >= 1,
                    chest.chest_id >= 0,
                    slot >= 0,
            ;
            assert(chest.chest_id + 1 <= (chest.chest_id + 1) * (slot + 1)) by (nonlinear_arith)
                requires
                    chest.chest_id >= 0,
                    slot >= 0,
            ;
            let number = match chest.chest_id.checked_add(1) {
                Some(number) => number,
                None => {
                    return None;
                },
            };
            let placed = match number.checked_mul(slot + 1) {
                Some(placed) => placed,
                None => {
                    return None;
                },
            };
            let power = match placed.checked_mul(chest.focal_length) {
                Some(power) => power,
                None => {
                    return None;
                },
            };
            sum = match sum.checked_add(power) {
                Some(sum) => sum,
                None => {
                    return None;
                },
            };
        } else {
            assert(term == 0) by (nonlinear_arith)
                requires
                    term == (chest.chest_id + 1) * (slot + 1) * chest.focal_length,
                    chest.focal_length == 0,
            ;
        }
        slot = slot + 1;
    }
    Some(sum)
}

/// The boxes after all the steps.
fn fill_boxes(data: &Vec<Vec<char>>) -> (chests: Vec<Vec<Chest>>)
    requires
        forall|i: int| 0 <= i < data.len() ==> step_ok(#[trigger] data[i]@),
    ensures
        chests.len() == 256,
        boxes_of(chests@) == boxes_upto(views(data@), data.len() as nat),
{
    let mut steps = get_steps(data);
    let ghost blocks = views(data@);
    let mut chests: Vec<Vec<Chest>> = Vec::new();
    while chests.len() < 256
        invariant
            chests.len() <= 256,
            forall|i: int| 0 <= i < chests.len() ==> (#[trigger] chests[i])@.len() == 0,
        decreases 256 - chests.len(),
    {
        chests.push(Vec::new());
    }
    assert(boxes_of(chests@) =~= boxes_upto(blocks, 0)) by {
        assert forall|i: int| 0 <= i < 256 implies #[trigger] boxes_of(chests@)[i]
            =~= Seq::<Lens>::empty() by {
            assert(chests[i]@.len() == 0);
        }
    }
    let n = steps.len();
    let mut k: usize = n;
    let ghost all_steps = steps@;
    while k > 0
        invariant
            n == data.len(),
            blocks == views(data@),
            k <= n,
            steps@ == all_steps.skip((n - k) as int),
            all_steps.len() == n,
            forall|i: int| 0 <= i < n ==> is_step_of(#[trigger] all_steps[i], data[i]@),
            forall|i: int| 0 <= i < data.len() ==> step_ok(#[trigger] data[i]@),
            chests.len() == 256,
            boxes_of(chests@) == boxes_upto(blocks, (n - k) as nat),
        decreases k,
    {
        let step = steps.remove(0);
        let ghost done = (n - k) as int;
        assert(step == all_steps[done]);
        assert(steps@ =~= all_steps.skip(done + 1));
        assert(is_step_of(all_steps[done], data[done]@));
        assert(blocks[done] == data[done]@);
        proof {
            lemma_hash_below(data[done]@.take(label_len(data[done]@, 0)));
        }
        let id = step.chest.chest_id;
        let ghost before = boxes_of(chests@);
        let ghost lens = step.chest@;
        let ghost insert = step.operation == Operation::Insert;
        assert(lens == lens_of(blocks[done]));
        assert(before[id as int] == lenses_of(chests[id as int]@));
        apply_step(&mut chests[id], step);
        assert(boxes_of(chests@) =~= before.update(
            id as int,
            box_after(before[id as int], lens, insert),
        ));
        k = k - 1;
    }
    chests
}

/// The focusing power of the lenses that the steps leave in the boxes.
pub fn solve2(data: &Vec<Vec<char>>) -> (power: usize)
    requires
        forall|i: int| 0 <= i < data.len() ==> step_ok(#[trigger] data[i]@),
        focusing_power(views(data@)) <= usize::MAX,
    ensures
        power == focusing_power(views(data@)),
{
    assert forall|i: int| 0 <= i < views(data@).len() implies step_ok(#[trigger] views(data@)[i]) by {
        assert(views(data@)[i] == data[i]@);
    }
    try_solve2(data).unwrap()
}

/// Whether a step can be read.
pub fn check_step(block: &Vec<char>) -> (r: bool)
    ensures
        r == step_ok(block@),
{
    let n = block.len();
    let mut i: usize = 0;
    while i < n && block[i] != '=' && block[i] != '-'
        invariant
            n == block.len(),
            i <= n,
            label_len(block@, 0) == label_len(block@, i as int),
        decreases n - i,
    {
        i = i + 1;
    }
    if i >= n {
        return false;
    }
    if block[i] != '=' {
        return true;
    }
    let mut digits: Vec<char> = Vec::new();
    let mut j: usize = i + 1;
    while j < n
        invariant
            n == block.len(),
            i + 1 <= j <= n,
            digits@ == block@.subrange(i + 1, j as int),
        decreases n - j,
    {
        digits.push(block[j]);
        assert(digits@ =~= block@.subrange(i + 1, j + 1));
        j = j + 1;
    }
    assert(digits@ =~= block@.skip(i + 1));
    match parse_number(&digits) {
        Some(v) => v <= usize::MAX as u64,
        None => false,
    }
}

/// Reads the steps of an initialization sequence, if every step can be read.
pub fn try_get_steps(data: &Vec<Vec<char>>) -> (r: Option<Vec<Step>>)
    ensures
        match r {
            Some(steps) => (forall|i: int| 0 <= i < data.len() ==> step_ok(#[trigger] data[i]@))
                && steps.len() == data.len() && forall|i: int|
                0 <= i < data.len() ==> is_step_of(#[trigger] steps[i], data[i]@),
            None => exists|i: int| 0 <= i < data.len() && !step_ok(#[trigger] data[i]@),
        },
{
    let mut k: usize = 0;
    while k < data.len()
        invariant
            k <= data.len(),
            forall|i: int| 0 <= i < k ==> step_ok(#[trigger] data[i]@),
        decreases data.len() - k,
    {
        if !check_step(&data[k]) {
            return None;
        }
        k = k + 1;
    }
    Some(get_steps(data))
}

/// Whether the focusing power of an initialization sequence can be
/// computed: every step can be read, and the power fits.
pub open spec fn can_focus(data: Seq<Seq<char>>) -> bool {
    (forall|i: int| 0 <= i < data.len() ==> step_ok(#[trigger] data[i])) && focusing_power(data)
        <= usize::MAX
}

/// The focusing power of the lenses that the steps leave in the boxes, if
/// it can be computed.
pub fn try_solve2(data: &Vec<Vec<char>>) -> (r: Option<usize>)
    ensures
        match r {
            Some(power) => can_focus(views(data@)) && power == focusing_power(views(data@)),
            None => !can_focus(views(data@)),
        },
{
    let ghost blocks = views(data@);
    if try_get_steps(data).is_none() {
        proof {
            let i = choose|i: int| 0 <= i < data.len() && !step_ok(#[trigger] data[i]@);
            assert(blocks[i] == data[i]@);
        }
        return None;
    }
    assert forall|i: int| 0 <= i < blocks.len() implies step_ok(#[trigger] blocks[i]) by {
        assert(blocks[i] == data[i]@);
    }
    let chests = fill_boxes(data);
    let ghost boxes = boxes_of(chests@);
    let mut power: usize = 0;
    let mut b: usize = 0;
    while b < 256
        invariant
            b <= 256,
            chests.len() == 256,
            boxes == boxes_of(chests@),
            focusing_power(blocks) == boxes_power(boxes, 256),
            blocks == views(data@),
            forall|i: int| 0 <= i < blocks.len() ==> step_ok(#[trigger] blocks[i]),
            power == boxes_power(boxes, b as nat),
        decreases 256 - b,
    {
        proof {
            lemma_boxes_power_grows(boxes, (b + 1) as nat);
        }
        assert(boxes[b as int] == lenses_of(chests[b as int]@));
        let p = match try_power_of_box(&chests[b]) {
            Some(p) => p,
            None => {
                return None;
            },
        };
        power = match power.checked_add(p) {
            Some(power) => power,
            None => {
                return None;
            },
        };
        b = b + 1;
    }
    Some(power)
}

} // verus!
