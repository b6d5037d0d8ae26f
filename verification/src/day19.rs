use crate::scan::char_at;
use crate::scan::find_char;
use crate::scan::index_of;
use crate::scan::is_char_at;
use crate::scan::line_end_at;
use crate::scan::number_at;
use crate::scan::run_end;
use crate::scan::skip_line_end;
use crate::scan::skip_run;
use crate::scan::take_number;
use crate::scan::Class;
use crate::text::chars_of;
use vstd::prelude::*;

verus! {

/// How a rating is compared with the value of a condition.
#[derive(Clone, Copy, Debug, PartialEq, Eq, Structural)]
pub enum Operator {
    GreaterThan,
    LessThan,
}

/// A condition on one rating of a part.
#[derive(Clone, Copy, Debug, PartialEq, Eq, Structural)]
pub struct Rule {
    pub category: char,
    pub operator: Operator,
    pub value: u32,
}

/// Where a part goes, and under which condition, if under any.
#[derive(Debug)]
pub struct Jump {
    pub destination: Vec<char>,
    pub condition: Option<Rule>,
}

/// A workflow: its name and its jumps, in the order in which they are tried.
#[derive(Debug)]
pub struct Workflow {
    pub name: Vec<char>,
    pub jumps: Vec<Jump>,
}

/// One rating of a part.
#[derive(Clone, Copy, Debug, PartialEq, Eq, Structural)]
pub struct Category {
    pub value: u32,
}

/// The workflows and the parts, each part with its ratings.
#[derive(Debug)]
pub struct Data {
    pub workflows: Vec<Workflow>,
    pub categories: Vec<Vec<Category>>,
}

/// A jump as a value.
pub struct JumpView {
    pub destination: Seq<char>,
    pub condition: Option<Rule>,
}

/// A workflow as a value.
pub struct WorkflowView {
    pub name: Seq<char>,
    pub jumps: Seq<JumpView>,
}

impl Jump {
    /// The jump as a value.
    pub open spec fn view(&self) -> JumpView {
        JumpView { destination: self.destination@, condition: self.condition }
    }
}

impl Workflow {
    /// The workflow as a value.
    pub open spec fn view(&self) -> WorkflowView {
        WorkflowView { name: self.name@, jumps: Seq::new(self.jumps.len() as nat, |i: int| self.jumps[i]@) }
    }
}

/// The workflows as values.
pub open spec fn workflow_views(workflows: Seq<Workflow>) -> Seq<WorkflowView> {
    Seq::new(workflows.len(), |i: int| workflows[i]@)
}

/// The parts as values.
pub open spec fn part_views(parts: Seq<Vec<Category>>) -> Seq<Seq<Category>> {
    Seq::new(parts.len(), |i: int| parts[i]@)
}

/// The place of a category among the ratings of a part.
pub open spec fn place_of(category: char) -> Option<int> {
    if category == 'x' {
        Some(0)
    } else if category == 'm' {
        Some(1)
    } else if category == 'a' {
        Some(2)
    } else if category == 's' {
        Some(3)
    } else {
        None
    }
}

/// Whether a part meets a condition.
pub open spec fn holds(rule: Rule, part: Seq<Category>) -> bool {
    match rule.operator {
        Operator::GreaterThan => part[place_of(rule.category)->0].value > rule.value,
        Operator::LessThan => part[place_of(rule.category)->0].value < rule.value,
    }
}

/// Where the first of the jumps from index `from` on sends a part: the
/// first whose condition it meets, or that has none.
pub open spec fn first_jump(jumps: Seq<JumpView>, part: Seq<Category>, from: int) -> Option<Seq<char>>
    decreases jumps.len() - from,
{
    if from < 0 || from >= jumps.len() {
        None
    } else {
        match jumps[from].condition {
            Some(rule) => if holds(rule, part) {
                Some(jumps[from].destination)
            } else {
                first_jump(jumps, part, from + 1)
            },
            None => Some(jumps[from].destination),
        }
    }
}

/// The index of the first workflow from index `from` on with the given name.
pub open spec fn find_workflow(workflows: Seq<WorkflowView>, name: Seq<char>, from: int) -> Option<int>
    decreases workflows.len() - from,
{
    if from < 0 || from >= workflows.len() {
        None
    } else if workflows[from].name == name {
        Some(from)
    } else {
        find_workflow(workflows, name, from + 1)
    }
}

/// Whether a part that stands before workflow `at` is accepted in the end.
/// There is no answer where a workflow sends the part nowhere, or to a
/// workflow that is not there, or where the part passes through more than
/// `fuel` further workflows.
pub open spec fn outcome(workflows: Seq<WorkflowView>, part: Seq<Category>, at: int, fuel: nat) -> Option<bool>
    decreases fuel,
{
    match first_jump(workflows[at].jumps, part, 0) {
        None => None,
        Some(destination) => if destination == seq!['A'] {
            Some(true)
        } else if destination == seq!['R'] {
            Some(false)
        } else {
            match find_workflow(workflows, destination, 0) {
                None => None,
                Some(next) => if fuel == 0 {
                    None
                } else {
                    outcome(workflows, part, next, (fuel - 1) as nat)
                },
            }
        },
    }
}

/// Whether a part is accepted: it starts at the workflow `in`.
pub open spec fn accepted(workflows: Seq<WorkflowView>, part: Seq<Category>) -> Option<bool> {
    match find_workflow(workflows, seq!['i', 'n'], 0) {
        Some(start) => outcome(workflows, part, start, workflows.len()),
        None => None,
    }
}

/// The sum of the four ratings of a part.
pub open spec fn rating(part: Seq<Category>) -> nat {
    (part[0].value + part[1].value + part[2].value + part[3].value) as nat
}

/// The sum of the ratings of the accepted parts among the first `k`.
pub open spec fn accepted_sum(workflows: Seq<WorkflowView>, parts: Seq<Seq<Category>>, k: nat) -> nat
    decreases k,
{
    if k == 0 || k > parts.len() {
        0
    } else {
        accepted_sum(workflows, parts, (k - 1) as nat) + if accepted(workflows, parts[k - 1])
            == Some(true) {
            rating(parts[k - 1])
        } else {
            0
        }
    }
}

/// Whether the conditions of the workflows are on ratings that parts have.
pub open spec fn rules_ok(workflows: Seq<WorkflowView>) -> bool {
    forall|i: int, j: int|
        0 <= i < workflows.len() && 0 <= j < workflows[i].jumps.len() ==> match (
        #[trigger] workflows[i].jumps[j]).condition {
            Some(rule) => place_of(rule.category) is Some,
            None => true,
        }
}

/// Whether the parts can be sorted: every part has four ratings whose sum
/// fits, every part is accepted or rejected, and the sum of the ratings of
/// the accepted parts fits.
pub open spec fn sortable(workflows: Seq<WorkflowView>, parts: Seq<Seq<Category>>) -> bool {
    &&& rules_ok(workflows)
    &&& forall|i: int|
        0 <= i < parts.len() ==> (#[trigger] parts[i]).len() >= 4 && rating(parts[i]) <= u32::MAX
            && accepted(workflows, parts[i]) is Some
    &&& accepted_sum(workflows, parts, parts.len()) <= u32::MAX
}

proof fn lemma_accepted_sum_grows(workflows: Seq<WorkflowView>, parts: Seq<Seq<Category>>, k: nat)
    requires
        k <= parts.len(),
    ensures
        accepted_sum(workflows, parts, k) <= accepted_sum(workflows, parts, parts.len()),
    decreases parts.len() - k,
{
    if k < parts.len() {
        lemma_accepted_sum_grows(workflows, parts, k + 1);
    }
}

fn same_name(a: &Vec<char>, b: &Vec<char>) -> (r: bool)
    ensures
        r == (a@ == b@),
{
    if a.len() != b.len() {
        return false;
    }
    let mut i: usize = 0;
    while i < a.len()
        invariant
            a.len() == b.len(),
            i <= a.len(),
            forall|j: int| 0 <= j < i ==> a[j] == b[j],
        decreases a.len() - i,
    {
        if a[i] != b[i] {
            return false;
        }
        i = i + 1;
    }
    assert(a@ =~= b@);
    true
}

fn find(workflows: &Vec<Workflow>, name: &Vec<char>) -> (r: Option<usize>)
    ensures
        match r {
            Some(at) => find_workflow(workflow_views(workflows@), name@, 0) == Some(at as int) && at
                < workflows.len(),
            None => find_workflow(workflow_views(workflows@), name@, 0) is None,
        },
{
    let ghost all = workflow_views(workflows@);
    let mut i: usize = 0;
    while i < workflows.len()
        invariant
            i <= workflows.len(),
            all == workflow_views(workflows@),
            find_workflow(all, name@, 0) == find_workflow(all, name@, i as int),
        decreases workflows.len() - i,
    {
        assert(all[i as int] == workflows[i as int]@);
        if same_name(&workflows[i].name, name) {
            return Some(i);
        }
        i = i + 1;
    }
    None
}

fn meets(rule: &Rule, part: &Vec<Category>) -> (r: bool)
    requires
        part.len() >= 4,
        place_of(rule.category) is Some,
    ensures
        r == holds(*rule, part@),
{
    let n = if rule.category == 'x' {
        part[0].value
    } else if rule.category == 'm' {
        part[1].value
    } else if rule.category == 'a' {
        part[2].value
    } else {
        part[3].value
    };
    match rule.operator {
        Operator::GreaterThan => n > rule.value,
        Operator::LessThan => n < rule.value,
    }
}

fn destination_of(workflow: &Workflow, part: &Vec<Category>) -> (r: Option<usize>)
    requires
        part.len() >= 4,
        forall|j: int|
            0 <= j < workflow@.jumps.len() ==> match (#[trigger] workflow@.jumps[j]).condition {
                Some(rule) => place_of(rule.category) is Some,
                None => true,
            },
    ensures
        match r {
            Some(j) => j < workflow.jumps.len() && first_jump(workflow@.jumps, part@, 0) == Some(
                workflow.jumps[j as int].destination@,
            ),
            None => first_jump(workflow@.jumps, part@, 0) is None,
        },
{
    let ghost jumps = workflow@.jumps;
    let mut j: usize = 0;
    while j < workflow.jumps.len()
        invariant
            j <= workflow.jumps.len(),
            part.len() >= 4,
            jumps == workflow@.jumps,
            forall|j: int|
                0 <= j < jumps.len() ==> match (#[trigger] jumps[j]).condition {
                    Some(rule) => place_of(rule.category) is Some,
                    None => true,
                },
            first_jump(jumps, part@, 0) == first_jump(jumps, part@, j as int),
        decreases workflow.jumps.len() - j,
    {
        assert(jumps[j as int] == workflow.jumps[j as int]@);
        match &workflow.jumps[j].condition {
            Some(rule) => {
                if meets(rule, part) {
                    return Some(j);
                }
            },
            None => {
                return Some(j);
            },
        }
        j = j + 1;
    }
    None
}

/// Whether the workflows accept a part, if they come to an answer.
pub fn sort_part(workflows: &Vec<Workflow>, part: &Vec<Category>) -> (r: Option<bool>)
    requires
        part.len() >= 4,
        rules_ok(workflow_views(workflows@)),
    ensures
        r == accepted(workflow_views(workflows@), part@),
{
    let ghost all = workflow_views(workflows@);
    let start = vec!['i', 'n'];
    assert(start@ =~= seq!['i', 'n']);
    let mut at = match find(workflows, &start) {
        Some(at) => at,
        None => {
            return None;
        },
    };
    let mut fuel = workflows.len();
    loop
        invariant
            part.len() >= 4,
            all == workflow_views(workflows@),
            rules_ok(all),
            at < workflows.len(),
            accepted(all, part@) == outcome(all, part@, at as int, fuel as nat),
        decreases fuel,
    {
        let workflow = &workflows[at];
        assert(all[at as int] == workflow@);
        assert forall|j: int| 0 <= j < workflow@.jumps.len() implies match (
        #[trigger] workflow@.jumps[j]).condition {
            Some(rule) => place_of(rule.category) is Some,
            None => true,
        } by {
            assert(all[at as int].jumps[j] == workflow@.jumps[j]);
        }
        let j = match destination_of(workflow, part) {
            Some(j) => j,
            None => {
                return None;
            },
        };
        let destination = &workflow.jumps[j].destination;
        if destination.len() == 1 && destination[0] == 'A' {
            assert(destination@ =~= seq!['A']);
            return Some(true);
        }
        if destination.len() == 1 && destination[0] == 'R' {
            assert(destination@ =~= seq!['R']);
            return Some(false);
        }
        assert(destination@ != seq!['A']) by {
            if destination@ == seq!['A'] {
                assert(destination@.len() == 1 && destination@[0] == 'A');
            }
        }
        assert(destination@ != seq!['R']) by {
            if destination@ == seq!['R'] {
                assert(destination@.len() == 1 && destination@[0] == 'R');
            }
        }
        at = match find(workflows, destination) {
            Some(at) => at,
            None => {
                return None;
            },
        };
        if fuel == 0 {
            return None;
        }
        fuel = fuel - 1;
    }
}

fn check_rules(workflows: &Vec<Workflow>) -> (r: bool)
    ensures
        r == rules_ok(workflow_views(workflows@)),
{
    let ghost all = workflow_views(workflows@);
    let mut i: usize = 0;
    while i < workflows.len()
        invariant
            i <= workflows.len(),
            all == workflow_views(workflows@),
            forall|a: int, b: int|
                0 <= a < i && 0 <= b < all[a].jumps.len() ==> match (#[trigger] all[a].jumps[b]).condition {
                    Some(rule) => place_of(rule.category) is Some,
                    None => true,
                },
        decreases workflows.len() - i,
    {
        let workflow = &workflows[i];
        assert(all[i as int] == workflow@);
        let mut j: usize = 0;
        while j < workflow.jumps.len()
            invariant
                j <= workflow.jumps.len(),
                i < workflows.len(),
                all == workflow_views(workflows@),
                all[i as int] == workflow@,
                forall|b: int|
                    0 <= b < j ==> match (#[trigger] all[i as int].jumps[b]).condition {
                        Some(rule) => place_of(rule.category) is Some,
                        None => true,
                    },
            decreases workflow.jumps.len() - j,
        {
            assert(all[i as int].jumps[j as int] == workflow.jumps[j as int]@);
            match &workflow.jumps[j].condition {
                Some(rule) => {
                    if !is_rating_letter(rule.category) {
                        return false;
                    }
                },
                None => {},
            }
            j = j + 1;
        }
        i = i + 1;
    }
    true
}

/// The sum of the ratings of the parts that the workflows accept, if the
/// parts can be sorted.
pub fn try_solve(data: &Data) -> (r: Option<u32>)
    ensures
        match r {
            Some(sum) => sortable(workflow_views(data.workflows@), part_views(data.categories@))
                && sum == accepted_sum(
                workflow_views(data.workflows@),
                part_views(data.categories@),
                data.categories.len() as nat,
            ),
            None => !sortable(workflow_views(data.workflows@), part_views(data.categories@)),
        },
{
    let ghost all = workflow_views(data.workflows@);
    let ghost parts = part_views(data.categories@);
    if !check_rules(&data.workflows) {
        return None;
    }
    let mut sum: u32 = 0;
    let mut k: usize = 0;
    while k < data.categories.len()
        invariant
            k <= data.categories.len(),
            all == workflow_views(data.workflows@),
            parts == part_views(data.categories@),
            rules_ok(all),
            forall|i: int|
                0 <= i < k ==> (#[trigger] parts[i]).len() >= 4 && rating(parts[i]) <= u32::MAX
                    && accepted(all, parts[i]) is Some,
            sum == accepted_sum(all, parts, k as nat),
        decreases data.categories.len() - k,
    {
        proof {
            lemma_accepted_sum_grows(all, parts, (k + 1) as nat);
        }
        let c = &data.categories[k];
        assert(parts[k as int] == c@);
        if c.len() < 4 {
            return None;
        }
        let rating = c[0].value as u64 + c[1].value as u64 + c[2].value as u64 + c[3].value as u64;
        if rating > u32::MAX as u64 {
            return None;
        }
        match sort_part(&data.workflows, c) {
            Some(true) => {
                if sum > u32::MAX - rating as u32 {
                    return None;
                }
                sum = sum + rating as u32;
            },
            Some(false) => {},
            None => {
                return None;
            },
        }
        k = k + 1;
    }
    Some(sum)
}

/// The sum of the ratings of the parts that the workflows accept.
pub fn solve(data: &Data) -> (sum: u32)
    requires
        sortable(workflow_views(data.workflows@), part_views(data.categories@)),
    ensures
        sum == accepted_sum(
            workflow_views(data.workflows@),
            part_views(data.categories@),
            data.categories.len() as nat,
        ),
{
    try_solve(data).unwrap()
}

/// A jump at `from`: a condition, which is the letter of a rating, `<` or
/// `>`, a number that fits in 32 bits and a colon, before a destination in
/// letters; or a destination alone.
pub open spec fn jump_at(s: Seq<char>, from: int) -> Option<(JumpView, int)> {
    let plain = run_end(s, from, Class::Letter);
    match condition_at(s, from) {
        Some((rule, end)) => Some(
            (
                JumpView {
                    destination: s.subrange(end, run_end(s, end, Class::Letter)),
                    condition: Some(rule),
                },
                run_end(s, end, Class::Letter),
            ),
        ),
        None => if 0 <= from < plain {
            Some((JumpView { destination: s.subrange(from, plain), condition: None }, plain))
        } else {
            None
        },
    }
}

/// A condition at `from`, with a destination behind it, and where the
/// destination starts.
pub open spec fn condition_at(s: Seq<char>, from: int) -> Option<(Rule, int)> {
    if 0 <= from && from + 1 < s.len() && place_of(s[from]) is Some && (s[from + 1] == '<'
        || s[from + 1] == '>') {
        match number_at(s, from + 2) {
            Some((value, end)) => if value <= u32::MAX && char_at(s, end, ':') && run_end(
                s,
                end + 1,
                Class::Letter,
            ) > end + 1 {
                Some(
                    (
                        Rule {
                            category: s[from],
                            operator: if s[from + 1] == '<' {
                                Operator::LessThan
                            } else {
                                Operator::GreaterThan
                            },
                            value: value as u32,
                        },
                        end + 1,
                    ),
                )
            } else {
                None
            },
            None => None,
        }
    } else {
        None
    }
}

/// The jumps of a workflow, after some have been read up to `from`.
pub open spec fn jumps_from(s: Seq<char>, from: int, done: Seq<JumpView>) -> (Seq<JumpView>, int)
    decreases s.len() - from,
{
    if char_at(s, from, ',') {
        match jump_at(s, from + 1) {
            Some((jump, end)) => if from < end <= s.len() {
                jumps_from(s, end, done.push(jump))
            } else {
                (done, from)
            },
            None => (done, from),
        }
    } else {
        (done, from)
    }
}

/// A workflow at `from`: its name, which runs up to the next opening
/// brace, and in braces its jumps, separated by commas.
pub open spec fn workflow_at(s: Seq<char>, from: int) -> Option<(WorkflowView, int)> {
    let open = index_of(s, from, '{');
    if 0 <= from && open < s.len() {
        match jump_at(s, open + 1) {
            Some((first, next)) => {
                let (jumps, close) = jumps_from(s, next, seq![first]);
                if char_at(s, close, '}') {
                    Some((WorkflowView { name: s.subrange(from, open), jumps }, close + 1))
                } else {
                    None
                }
            },
            None => None,
        }
    } else {
        None
    }
}

/// The workflows of a text, after some have been read up to `from`.
pub open spec fn workflows_from(s: Seq<char>, from: int, done: Seq<WorkflowView>) -> (
    Seq<WorkflowView>,
    int,
)
    decreases s.len() - from,
{
    match line_end_at(s, from) {
        Some(next) => match workflow_at(s, next) {
            Some((workflow, end)) => if from < end <= s.len() {
                workflows_from(s, end, done.push(workflow))
            } else {
                (done, from)
            },
            None => (done, from),
        },
        None => (done, from),
    }
}

/// A rating at `from`: the letter of a rating, an equals sign and a number
/// that fits in 32 bits.
pub open spec fn category_at(s: Seq<char>, from: int) -> Option<(Category, int)> {
    if 0 <= from < s.len() && place_of(s[from]) is Some && char_at(s, from + 1, '=') {
        match number_at(s, from + 2) {
            Some((value, end)) => if value <= u32::MAX {
                Some((Category { value: value as u32 }, end))
            } else {
                None
            },
            None => None,
        }
    } else {
        None
    }
}

/// The ratings of a part, after some have been read up to `from`.
pub open spec fn categories_from(s: Seq<char>, from: int, done: Seq<Category>) -> (
    Seq<Category>,
    int,
)
    decreases s.len() - from,
{
    if char_at(s, from, ',') {
        match category_at(s, from + 1) {
            Some((category, end)) => if from < end <= s.len() {
                categories_from(s, end, done.push(category))
            } else {
                (done, from)
            },
            None => (done, from),
        }
    } else {
        (done, from)
    }
}

/// A part at `from`: in braces its ratings, separated by commas.
pub open spec fn part_at(s: Seq<char>, from: int) -> Option<(Seq<Category>, int)> {
    if char_at(s, from, '{') {
        match category_at(s, from + 1) {
            Some((first, next)) => {
                let (ratings, close) = categories_from(s, next, seq![first]);
                if char_at(s, close, '}') {
                    Some((ratings, close + 1))
                } else {
                    None
                }
            },
            None => None,
        }
    } else {
        None
    }
}

/// The parts of a text, after some have been read up to `from`.
pub open spec fn parts_from(s: Seq<char>, from: int, done: Seq<Seq<Category>>) -> Seq<Seq<Category>>
    decreases s.len() - from,
{
    match line_end_at(s, from) {
        Some(next) => match part_at(s, next) {
            Some((part, end)) => if from < end <= s.len() {
                parts_from(s, end, done.push(part))
            } else {
                done
            },
            None => done,
        },
        None => done,
    }
}

/// The workflows and the parts that a text holds: workflows, one to a line,
/// an empty line, and parts, one to a line.
pub open spec fn data_of(s: Seq<char>) -> Option<(Seq<WorkflowView>, Seq<Seq<Category>>)> {
    match workflow_at(s, 0) {
        Some((first, next)) => {
            let (workflows, end) = workflows_from(s, next, seq![first]);
            match line_end_at(s, end) {
                Some(a) => match line_end_at(s, a) {
                    Some(b) => match part_at(s, b) {
                        Some((part, stop)) => Some((workflows, parts_from(s, stop, seq![part]))),
                        None => None,
                    },
                    None => None,
                },
                None => None,
            }
        },
        None => None,
    }
}

fn copy_range(text: &Vec<char>, from: usize, to: usize) -> (copy: Vec<char>)
    requires
        from <= to <= text.len(),
    ensures
        copy@ == text@.subrange(from as int, to as int),
{
    let mut copy: Vec<char> = Vec::new();
    let mut i = from;
    while i < to
        invariant
            from <= i <= to <= text.len(),
            copy@ == text@.subrange(from as int, i as int),
        decreases to - i,
    {
        copy.push(text[i]);
        assert(copy@ =~= text@.subrange(from as int, i + 1));
        i = i + 1;
    }
    copy
}

fn is_rating_letter(c: char) -> (r: bool)
    ensures
        r == place_of(c) is Some,
{
    c == 'x' || c == 'm' || c == 'a' || c == 's'
}

fn parse_condition(text: &Vec<char>, from: usize) -> (r: Option<(Rule, usize)>)
    requires
        from <= text.len(),
    ensures
        match r {
            Some((rule, end)) => condition_at(text@, from as int) == Some((rule, end as int))
                && from < end < text.len(),
            None => condition_at(text@, from as int) is None,
        },
{
    if text.len() - from < 2 || !is_rating_letter(text[from]) {
        return None;
    }
    let operator = if text[from + 1] == '<' {
        Operator::LessThan
    } else if text[from + 1] == '>' {
        Operator::GreaterThan
    } else {
        return None;
    };
    let (value, end) = match take_number(text, from + 2) {
        Some(found) => found,
        None => {
            return None;
        },
    };
    if value > u32::MAX as u64 || !is_char_at(text, end, ':') {
        return None;
    }
    if skip_run(text, end + 1, Class::Letter) == end + 1 {
        return None;
    }
    Some((Rule { category: text[from], operator, value: value as u32 }, end + 1))
}

/// Reads a jump.
pub fn parse_jump(text: &Vec<char>, from: usize) -> (r: Option<(Jump, usize)>)
    requires
        from <= text.len(),
    ensures
        match r {
            Some((jump, end)) => jump_at(text@, from as int) == Some((jump@, end as int)) && from
                < end <= text.len(),
            None => jump_at(text@, from as int) is None,
        },
{
    match parse_condition(text, from) {
        Some((rule, start)) => {
            let stop = skip_run(text, start, Class::Letter);
            Some((Jump { destination: copy_range(text, start, stop), condition: Some(rule) }, stop))
        },
        None => {
            let stop = skip_run(text, from, Class::Letter);
            if stop == from {
                None
            } else {
                Some((Jump { destination: copy_range(text, from, stop), condition: None }, stop))
            }
        },
    }
}

/// Reads a workflow.
pub fn parse_workflow(text: &Vec<char>, from: usize) -> (r: Option<(Workflow, usize)>)
    requires
        from <= text.len(),
    ensures
        match r {
            Some((workflow, end)) => workflow_at(text@, from as int) == Some(
                (workflow@, end as int),
            ) && from < end <= text.len(),
            None => workflow_at(text@, from as int) is None,
        },
{
    let open = find_char(text, from, '{');
    if open >= text.len() {
        return None;
    }
    let (first, mut at) = match parse_jump(text, open + 1) {
        Some(found) => found,
        None => {
            return None;
        },
    };
    let ghost whole = jumps_from(text@, at as int, seq![first@]);
    let ghost mut done = seq![first@];
    let mut jumps: Vec<Jump> = Vec::new();
    jumps.push(first);
    loop
        invariant
            open < at <= text.len(),
            done.len() == jumps.len(),
            forall|i: int| 0 <= i < jumps.len() ==> (#[trigger] jumps[i])@ == done[i],
            whole == jumps_from(text@, at as int, done),
        ensures
            open < at <= text.len(),
            done.len() == jumps.len(),
            forall|i: int| 0 <= i < jumps.len() ==> (#[trigger] jumps[i])@ == done[i],
            whole == (done, at as int),
        decreases text.len() - at,
    {
        if !is_char_at(text, at, ',') {
            break ;
        }
        match parse_jump(text, at + 1) {
            Some((jump, end)) => {
                proof {
                    done = done.push(jump@);
                }
                jumps.push(jump);
                at = end;
            },
            None => {
                break ;
            },
        }
    }
    if !is_char_at(text, at, '}') {
        return None;
    }
    let workflow = Workflow { name: copy_range(text, from, open), jumps };
    assert(workflow@.jumps =~= done);
    Some((workflow, at + 1))
}

fn parse_category(text: &Vec<char>, from: usize) -> (r: Option<(Category, usize)>)
    requires
        from <= text.len(),
    ensures
        match r {
            Some((category, end)) => category_at(text@, from as int) == Some(
                (category, end as int),
            ) && from < end <= text.len(),
            None => category_at(text@, from as int) is None,
        },
{
    if from >= text.len() || !is_rating_letter(text[from]) || !is_char_at(text, from + 1, '=') {
        return None;
    }
    match take_number(text, from + 2) {
        Some((value, end)) => if value <= u32::MAX as u64 {
            Some((Category { value: value as u32 }, end))
        } else {
            None
        },
        None => None,
    }
}

fn parse_category_set(text: &Vec<char>, from: usize) -> (r: Option<(Vec<Category>, usize)>)
    requires
        from <= text.len(),
    ensures
        match r {
            Some((part, end)) => part_at(text@, from as int) == Some((part@, end as int)) && from
                < end <= text.len(),
            None => part_at(text@, from as int) is None,
        },
{
    if !is_char_at(text, from, '{') {
        return None;
    }
    let (first, mut at) = match parse_category(text, from + 1) {
        Some(found) => found,
        None => {
            return None;
        },
    };
    let ghost whole = categories_from(text@, at as int, seq![first]);
    let mut ratings: Vec<Category> = Vec::new();
    ratings.push(first);
    assert(ratings@ =~= seq![first]);
    loop
        invariant
            from < at <= text.len(),
            whole == categories_from(text@, at as int, ratings@),
        ensures
            from < at <= text.len(),
            whole == (ratings@, at as int),
        decreases text.len() - at,
    {
        if !is_char_at(text, at, ',') {
            break ;
        }
        match parse_category(text, at + 1) {
            Some((category, end)) => {
                ratings.push(category);
                at = end;
            },
            None => {
                break ;
            },
        }
    }
    if !is_char_at(text, at, '}') {
        return None;
    }
    Some((ratings, at + 1))
}

/// Reads the workflows and the parts of a text.
pub fn parse(input: &str) -> (r: Option<Data>)
    ensures
        match r {
            Some(data) => data_of(input@) == Some(
                (workflow_views(data.workflows@), part_views(data.categories@)),
            ),
            None => data_of(input@) is None,
        },
{
    let text = chars_of(input);
    let (first, mut at) = match parse_workflow(&text, 0) {
        Some(found) => found,
        None => {
            return None;
        },
    };
    let ghost whole = workflows_from(text@, at as int, seq![first@]);
    let ghost mut done = seq![first@];
    let mut workflows: Vec<Workflow> = Vec::new();
    workflows.push(first);
    loop
        invariant
            at <= text.len(),
            text@ == input@,
            done.len() == workflows.len(),
            forall|i: int| 0 <= i < workflows.len() ==> (#[trigger] workflows[i])@ == done[i],
            whole == workflows_from(text@, at as int, done),
        ensures
            at <= text.len(),
            done.len() == workflows.len(),
            forall|i: int| 0 <= i < workflows.len() ==> (#[trigger] workflows[i])@ == done[i],
            whole == (done, at as int),
        decreases text.len() - at,
    {
        let next = match skip_line_end(&text, at) {
            Some(next) => next,
            None => {
                break ;
            },
        };
        match parse_workflow(&text, next) {
            Some((workflow, end)) => {
                proof {
                    done = done.push(workflow@);
                }
                workflows.push(workflow);
                at = end;
            },
            None => {
                break ;
            },
        }
    }
    assert(workflow_views(workflows@) =~= done);
    let a = match skip_line_end(&text, at) {
        Some(next) => next,
        None => {
            return None;
        },
    };
    let b = match skip_line_end(&text, a) {
        Some(next) => next,
        None => {
            return None;
        },
    };
    let (part, mut at) = match parse_category_set(&text, b) {
        Some(found) => found,
        None => {
            return None;
        },
    };
    let ghost all_parts = parts_from(text@, at as int, seq![part@]);
    let ghost mut read = seq![part@];
    let mut categories: Vec<Vec<Category>> = Vec::new();
    categories.push(part);
    loop
        invariant
            at <= text.len(),
            text@ == input@,
            read.len() == categories.len(),
            forall|i: int| 0 <= i < categories.len() ==> (#[trigger] categories[i])@ == read[i],
            all_parts == parts_from(text@, at as int, read),
        ensures
            read.len() == categories.len(),
            forall|i: int| 0 <= i < categories.len() ==> (#[trigger] categories[i])@ == read[i],
            all_parts == read,
        decreases text.len() - at,
    {
        let next = match skip_line_end(&text, at) {
            Some(next) => next,
            None => {
                break ;
            },
        };
        match parse_category_set(&text, next) {
            Some((part, end)) => {
                proof {
                    read = read.push(part@);
                }
                categories.push(part);
                at = end;
            },
            None => {
                break ;
            },
        }
    }
    assert(part_views(categories@) =~= read);
    Some(Data { workflows, categories })
}

} // verus!
