//! The network walker: nodes with a left and a right successor, a list of
//! turns that is followed again and again, and the number of steps that it
//! takes to arrive.
use crate::text::{
    blocks, copy_range, non_empty, same_chars, split, split_at_char, split_blocks, strip_end,
    strip_start, texts, to_chars, trim, trim_end_matches, trim_start_matches, trimmed,
    keep_non_empty,
};
use vstd::prelude::*;

verus! {

/// One turn of the walk.
#[derive(PartialEq, Eq, Structural, Clone, Copy, Debug)]
pub enum Direction {
    Left,
    Right,
}

/// A node of the network: its label and the labels of its two successors.
#[derive(Clone, Debug)]
pub struct Node {
    pub label: Vec<char>,
    pub left: Vec<char>,
    pub right: Vec<char>,
}

/// What a `Node` holds, as plain values.
pub struct NodeView {
    pub label: Seq<char>,
    pub left: Seq<char>,
    pub right: Seq<char>,
}

impl View for Node {
    type V = NodeView;

    open spec fn view(&self) -> NodeView {
        NodeView { label: self.label@, left: self.left@, right: self.right@ }
    }
}

/// Why a walk gave no number of steps.
#[derive(PartialEq, Eq, Structural, Clone, Copy, Debug)]
pub enum WalkError {
    /// The walk came to a label that the network has no node for.
    UnknownLabel,
    /// The number of steps is above `u64::MAX`.
    TooManySteps,
}

/// Where a walk is to end.
#[derive(Clone, Debug)]
pub enum Goal {
    /// At the node with this label.
    Label(Vec<char>),
    /// At any node whose label ends with this character.
    EndsWith(char),
}

/// What a `Goal` holds, as plain values.
pub enum Target {
    Label(Seq<char>),
    EndsWith(char),
}

impl View for Goal {
    type V = Target;

    open spec fn view(&self) -> Target {
        match self {
            Goal::Label(label) => Target::Label(label@),
            Goal::EndsWith(c) => Target::EndsWith(*c),
        }
    }
}

impl Target {
    /// Whether a walk with this goal ends at `label`.
    pub open spec fn met_by(self, label: Seq<char>) -> bool {
        match self {
            Target::Label(wanted) => label == wanted,
            Target::EndsWith(c) => label.len() > 0 && label.last() == c,
        }
    }
}

impl Goal {
    /// Whether a walk with this goal ends at `label`.
    pub fn is_met(&self, label: &Vec<char>) -> (met: bool)
        ensures
            met == self@.met_by(label@),
    {
        match self {
            Goal::Label(wanted) => same_chars(label.as_slice(), wanted.as_slice()),
            Goal::EndsWith(c) => label.len() > 0 && label[label.len() - 1] == *c,
        }
    }
}

impl Direction {
    /// The turn that a character stands for.
    pub open spec fn of_char(c: char) -> Option<Direction> {
        if c == 'L' {
            Some(Direction::Left)
        } else if c == 'R' {
            Some(Direction::Right)
        } else {
            None
        }
    }

    /// The turn that `c` stands for, if it stands for one.
    pub fn from_char(c: char) -> (turn: Option<Direction>)
        ensures
            turn == Direction::of_char(c),
    {
        match c {
            'L' => Some(Direction::Left),
            'R' => Some(Direction::Right),
            _ => None,
        }
    }

    /// The turn that `c` stands for.
    pub fn from(c: char) -> (turn: Direction)
        requires
            Direction::of_char(c) is Some,
        ensures
            Some(turn) == Direction::of_char(c),
    {
        match Direction::from_char(c) {
            Some(turn) => turn,
            None => vstd::pervasive::unreached(),
        }
    }
}

/// The views of the nodes.
pub open spec fn node_views(nodes: Seq<Node>) -> Seq<NodeView> {
    Seq::new(nodes.len(), |i: int| nodes[i]@)
}

/// A network: for each label that has a node, its left and its right successor.
pub type Network = Map<Seq<char>, (Seq<char>, Seq<char>)>;

/// The network that a list of nodes makes up. Where a label has more than one
/// node, the last of them holds.
pub open spec fn network(nodes: Seq<NodeView>) -> Network
    decreases nodes.len(),
{
    if nodes.len() == 0 {
        Map::empty()
    } else {
        network(nodes.drop_last()).insert(nodes.last().label, (nodes.last().left, nodes.last().right))
    }
}

/// The label to which one turn leads from `label`, if the network has a node
/// for `label`.
pub open spec fn successor(net: Network, label: Seq<char>, turn: Direction) -> Option<Seq<char>> {
    if net.dom().contains(label) {
        match turn {
            Direction::Left => Some(net[label].0),
            Direction::Right => Some(net[label].1),
        }
    } else {
        None
    }
}

/// The label reached from `start` after `n` steps, the turns being taken from
/// `turns` in order and from its beginning again when its end is reached. There
/// is none if one of these steps started from a label without a node.
pub open spec fn position(net: Network, turns: Seq<Direction>, start: Seq<char>, n: nat) -> Option<
    Seq<char>,
>
    decreases n,
{
    if n == 0 {
        Some(start)
    } else {
        match position(net, turns, start, (n - 1) as nat) {
            Some(label) => successor(net, label, turns[(n - 1) % (turns.len() as int)]),
            None => None,
        }
    }
}

/// Whether the walk from `start` has not come to an end before its `n`-th
/// step: each of the labels reached after fewer than `n` steps exists and is
/// not a goal.
pub open spec fn still_walking(
    net: Network,
    turns: Seq<Direction>,
    start: Seq<char>,
    goal: Target,
    n: nat,
) -> bool {
    forall|k: nat|
        k < n ==> (#[trigger] position(net, turns, start, k)) is Some && !goal.met_by(
            position(net, turns, start, k).unwrap(),
        )
}

/// Whether the walk from `start` arrives at a goal after exactly `n` steps,
/// and not before.
pub open spec fn arrives_after(
    net: Network,
    turns: Seq<Direction>,
    start: Seq<char>,
    goal: Target,
    n: nat,
) -> bool {
    &&& still_walking(net, turns, start, goal, n)
    &&& position(net, turns, start, n) is Some
    &&& goal.met_by(position(net, turns, start, n).unwrap())
}

/// Whether the walk from `start` fails at its `n`-th step, and not before: it
/// has not arrived, and the step starts from a label without a node.
pub open spec fn lost_after(
    net: Network,
    turns: Seq<Direction>,
    start: Seq<char>,
    goal: Target,
    n: nat,
) -> bool {
    still_walking(net, turns, start, goal, n) && position(net, turns, start, n) is None
}

/// The number of steps after which the walk from `start` arrives at a goal, if
/// it ever does.
pub open spec fn arrival(
    net: Network,
    turns: Seq<Direction>,
    start: Seq<char>,
    goal: Target,
) -> Option<nat> {
    if exists|n: nat| arrives_after(net, turns, start, goal, n) {
        Some(choose|n: nat| arrives_after(net, turns, start, goal, n))
    } else {
        None
    }
}

/// A walk has one outcome: it arrives after one certain number of steps, or it
/// fails at one certain step, or it goes on for ever.
pub proof fn walk_has_one_outcome(
    net: Network,
    turns: Seq<Direction>,
    start: Seq<char>,
    goal: Target,
    n: nat,
    m: nat,
)
    ensures
        arrives_after(net, turns, start, goal, n) && arrives_after(net, turns, start, goal, m) ==> n
            == m,
        lost_after(net, turns, start, goal, n) && lost_after(net, turns, start, goal, m) ==> n == m,
        !(arrives_after(net, turns, start, goal, n) && lost_after(net, turns, start, goal, m)),
        arrives_after(net, turns, start, goal, n) ==> !still_walking(net, turns, start, goal, n + 1),
        lost_after(net, turns, start, goal, n) ==> !still_walking(net, turns, start, goal, n + 1),
        arrives_after(net, turns, start, goal, n) ==> arrival(net, turns, start, goal) == Some(n),
{
    if arrives_after(net, turns, start, goal, n) {
        assert(position(net, turns, start, n) is Some);
        if arrives_after(net, turns, start, goal, m) {
            assert(position(net, turns, start, m) is Some);
        }
        let chosen = choose|k: nat| arrives_after(net, turns, start, goal, k);
        assert(position(net, turns, start, chosen) is Some);
    }
    if lost_after(net, turns, start, goal, n) {
        assert(position(net, turns, start, n) is None);
    }
    if lost_after(net, turns, start, goal, m) {
        assert(position(net, turns, start, m) is None);
    }
}

/// The index of the node that holds for `label`, if there is one.
fn find_node(nodes: &Vec<Node>, label: &Vec<char>) -> (found: Option<usize>)
    ensures
        found is Some == network(node_views(nodes@)).dom().contains(label@),
        found is Some ==> found.unwrap() < nodes@.len() && network(node_views(nodes@))[label@] == (
            nodes@[found.unwrap() as int]@.left,
            nodes@[found.unwrap() as int]@.right,
        ),
{
    let ghost all = node_views(nodes@);
    let mut i: usize = nodes.len();
    proof {
        assert(all.take(i as int) =~= all);
    }
    while i > 0
        invariant
            i <= nodes@.len(),
            all == node_views(nodes@),
            network(all).dom().contains(label@) == network(all.take(i as int)).dom().contains(label@),
            network(all).dom().contains(label@) ==> network(all)[label@] == network(
                all.take(i as int),
            )[label@],
        decreases i,
    {
        proof {
            assert(all.take(i as int).drop_last() =~= all.take(i - 1));
            assert(all.take(i as int).last() == nodes@[i - 1]@);
        }
        if same_chars(nodes[i - 1].label.as_slice(), label.as_slice()) {
            return Some(i - 1);
        }
        i -= 1;
    }
    None
}

/// Walks from `start`, taking the turns of `instructions` in order and again
/// from the beginning when they are used up, until the goal is met, and gives
/// the number of steps taken. If the start meets the goal, that is 0.
pub fn walk(nodes: &Vec<Node>, instructions: &Vec<Direction>, start: &Vec<char>, goal: &Goal) -> (steps:
    Result<u64, WalkError>)
    requires
        instructions@.len() > 0,
    ensures
        match steps {
            Ok(n) => arrives_after(
                network(node_views(nodes@)),
                instructions@,
                start@,
                goal@,
                n as nat,
            ),
            Err(WalkError::UnknownLabel) => exists|n: nat|
                n <= u64::MAX && lost_after(
                    network(node_views(nodes@)),
                    instructions@,
                    start@,
                    goal@,
                    n,
                ),
            Err(WalkError::TooManySteps) => still_walking(
                network(node_views(nodes@)),
                instructions@,
                start@,
                goal@,
                (u64::MAX + 1) as nat,
            ),
        },
{
    let ghost net = network(node_views(nodes@));
    let mut location = copy_range(start.as_slice(), 0, start.len());
    assert(location@ =~= start@);
    let mut step_count: u64 = 0;
    let turns: u64 = instructions.len() as u64;
    loop
        invariant
            net == network(node_views(nodes@)),
            instructions@.len() > 0,
            turns == instructions@.len(),
            still_walking(net, instructions@, start@, goal@, step_count as nat),
            position(net, instructions@, start@, step_count as nat) == Some(location@),
        decreases u64::MAX - step_count,
    {
        if goal.is_met(&location) {
            return Ok(step_count);
        }
        if step_count == u64::MAX {
            return Err(WalkError::TooManySteps);
        }
        let length = instructions.len();
        assert(step_count % turns < length);
        let index = (step_count % turns) as usize;
        let direction = instructions[index];
        match find_node(nodes, &location) {
            None => {
                assert(lost_after(net, instructions@, start@, goal@, (step_count + 1) as nat));
                return Err(WalkError::UnknownLabel);
            },
            Some(at) => {
                let next = match direction {
                    Direction::Left => &nodes[at].left,
                    Direction::Right => &nodes[at].right,
                };
                location = copy_range(next.as_slice(), 0, next.len());
                assert(location@ =~= next@);
                step_count += 1;
            },
        }
    }
}

/// The number of steps from `start` to the node with the label `terminal`.
pub fn walk_single(
    nodes: &Vec<Node>,
    instructions: &Vec<Direction>,
    start: &Vec<char>,
    terminal: &Vec<char>,
) -> (steps: Result<u64, WalkError>)
    requires
        instructions@.len() > 0,
    ensures
        match steps {
            Ok(n) => arrives_after(
                network(node_views(nodes@)),
                instructions@,
                start@,
                Target::Label(terminal@),
                n as nat,
            ),
            Err(WalkError::UnknownLabel) => exists|n: nat|
                n <= u64::MAX && lost_after(
                    network(node_views(nodes@)),
                    instructions@,
                    start@,
                    Target::Label(terminal@),
                    n,
                ),
            Err(WalkError::TooManySteps) => still_walking(
                network(node_views(nodes@)),
                instructions@,
                start@,
                Target::Label(terminal@),
                (u64::MAX + 1) as nat,
            ),
        },
{
    let wanted = copy_range(terminal.as_slice(), 0, terminal.len());
    assert(wanted@ =~= terminal@);
    let goal = Goal::Label(wanted);
    walk(nodes, instructions, start, &goal)
}

/// Whether `d` divides `n`.
pub open spec fn divides(d: nat, n: nat) -> bool {
    exists|k: nat| n == #[trigger] (d * k)
}

/// The greatest common divisor of `a` and `b`, by Euclid's rule; it is 0 where
/// both are 0.
pub open spec fn greatest_common_divisor(a: nat, b: nat) -> nat
    decreases b,
{
    if b == 0 {
        a
    } else {
        greatest_common_divisor(b, a % b)
    }
}

/// The least common multiple of `a` and `b`; it is 0 where one of them is 0.
pub open spec fn least_common_multiple(a: nat, b: nat) -> nat {
    if a == 0 || b == 0 {
        0
    } else {
        a / greatest_common_divisor(a, b) * b
    }
}

/// The least common multiple of all the numbers; of one number, that number.
pub open spec fn least_common_multiple_of(numbers: Seq<nat>) -> nat
    decreases numbers.len(),
{
    if numbers.len() == 0 {
        1
    } else if numbers.len() == 1 {
        numbers[0]
    } else {
        least_common_multiple(least_common_multiple_of(numbers.drop_last()), numbers.last())
    }
}

/// The greatest common divisor divides both numbers.
pub proof fn gcd_divides_both(a: nat, b: nat)
    ensures
        divides(greatest_common_divisor(a, b), a),
        divides(greatest_common_divisor(a, b), b),
        a > 0 || b > 0 ==> greatest_common_divisor(a, b) > 0,
    decreases b,
{
    let g = greatest_common_divisor(a, b);
    if b == 0 {
        assert(a == g * 1);
        assert(b == g * 0);
    } else {
        gcd_divides_both(b, a % b);
        let kb = choose|k: nat| b == #[trigger] (g * k);
        let kr = choose|k: nat| a % b == #[trigger] (g * k);
        let q = a / b;
        assert(a == b * q + a % b) by {
            vstd::arithmetic::div_mod::lemma_fundamental_div_mod(a as int, b as int);
        }
        assert(a == g * (kb * q + kr)) by (nonlinear_arith)
            requires
                a == b * q + a % b,
                b == g * kb,
                a % b == g * kr,
        ;
        assert(divides(g, a));
    }
}

/// Every common divisor of two numbers divides their greatest common divisor.
pub proof fn common_divisor_divides_gcd(a: nat, b: nat, d: nat)
    requires
        divides(d, a),
        divides(d, b),
    ensures
        divides(d, greatest_common_divisor(a, b)),
    decreases b,
{
    if b > 0 {
        let ka = choose|k: nat| a == #[trigger] (d * k);
        let kb = choose|k: nat| b == #[trigger] (d * k);
        let q = a / b;
        assert(a == b * q + a % b) by {
            vstd::arithmetic::div_mod::lemma_fundamental_div_mod(a as int, b as int);
        }
        assert(d > 0) by (nonlinear_arith)
            requires
                b == d * kb,
                b > 0,
        ;
        let k = ka - kb * q;
        let r = a % b;
        assert(r == d * k) by (nonlinear_arith)
            requires
                a == b * q + r,
                a == d * ka,
                b == d * kb,
                k == ka - kb * q,
        ;
        assert(k >= 0) by (nonlinear_arith)
            requires
                r == d * k,
                d > 0,
                r >= 0,
        ;
        assert(a % b == d * (k as nat));
        assert(divides(d, a % b));
        common_divisor_divides_gcd(b, a % b, d);
    }
}

/// The greatest common divisor is a sum of multiples of the two numbers.
proof fn gcd_is_a_combination(a: nat, b: nat) -> (xy: (int, int))
    ensures
        greatest_common_divisor(a, b) == a * xy.0 + b * xy.1,
    decreases b,
{
    if b == 0 {
        assert(a == a * 1 + b * 0);
        (1, 0)
    } else {
        let (x, y) = gcd_is_a_combination(b, a % b);
        let q = a / b;
        assert(a == b * q + a % b) by {
            vstd::arithmetic::div_mod::lemma_fundamental_div_mod(a as int, b as int);
        }
        let g = greatest_common_divisor(a, b);
        let r = a % b;
        assert(g == a * y + b * (x - q * y)) by (nonlinear_arith)
            requires
                g == b * x + r * y,
                a == b * q + r,
        ;
        (y, x - q * y)
    }
}

/// The least common multiple of two numbers is a multiple of both, and every
/// common multiple of the two is a multiple of it.
pub proof fn lcm_is_least_common_multiple(a: nat, b: nat, m: nat)
    requires
        a > 0,
        b > 0,
    ensures
        divides(a, least_common_multiple(a, b)),
        divides(b, least_common_multiple(a, b)),
        least_common_multiple(a, b) > 0,
        divides(a, m) && divides(b, m) ==> divides(least_common_multiple(a, b), m),
{
    let g = greatest_common_divisor(a, b);
    let l = least_common_multiple(a, b);
    gcd_divides_both(a, b);
    let ka = choose|k: nat| a == #[trigger] (g * k);
    let kb = choose|k: nat| b == #[trigger] (g * k);
    assert(a / g == ka) by {
        vstd::arithmetic::div_mod::lemma_div_multiples_vanish(ka as int, g as int);
        assert(g * ka == ka * g) by (nonlinear_arith);
    }
    assert(l == ka * b);
    assert(l == a * kb) by (nonlinear_arith)
        requires
            l == ka * b,
            a == g * ka,
            b == g * kb,
    ;
    assert(l == b * ka) by (nonlinear_arith)
        requires
            l == ka * b,
    ;
    assert(divides(a, l));
    assert(divides(b, l));
    assert(ka > 0 && kb > 0) by (nonlinear_arith)
        requires
            a == g * ka,
            b == g * kb,
            a > 0,
            b > 0,
    ;
    assert(l > 0) by (nonlinear_arith)
        requires
            l == ka * b,
            ka > 0,
            b > 0,
    ;
    if divides(a, m) && divides(b, m) {
        let p = choose|k: nat| m == #[trigger] (a * k);
        let q = choose|k: nat| m == #[trigger] (b * k);
        let (x, y) = gcd_is_a_combination(a, b);
        let k = q * x + p * y;
        let ab = a * b;
        assert(l * g == ab) by (nonlinear_arith)
            requires
                l == ka * b,
                a == g * ka,
                ab == a * b,
        ;
        assert(m * (a * x) == ab * (q * x)) by (nonlinear_arith)
            requires
                m == b * q,
                ab == a * b,
        ;
        assert(m * (b * y) == ab * (p * y)) by (nonlinear_arith)
            requires
                m == a * p,
                ab == a * b,
        ;
        assert(m * g == ab * k) by (nonlinear_arith)
            requires
                g == a * x + b * y,
                m * (a * x) == ab * (q * x),
                m * (b * y) == ab * (p * y),
                k == q * x + p * y,
        ;
        assert(m == l * k) by (nonlinear_arith)
            requires
                m * g == ab * k,
                l * g == ab,
                g > 0,
        ;
        assert(k >= 0) by (nonlinear_arith)
            requires
                m == l * k,
                l > 0,
                m >= 0,
        ;
        assert(m == l * (k as nat));
        assert(divides(l, m));
    }
}

/// The greatest common divisor of two numbers. This is `gcd::binary_u64`: it
/// computes the greatest common divisor by the binary algorithm, and gives the
/// other number where one is 0. The contract says that the result is the
/// greatest common divisor.
#[verifier::external_body]
fn binary_gcd(a: u64, b: u64) -> (g: u64)
    ensures
        g == greatest_common_divisor(a as nat, b as nat),
{
    gcd::binary_u64(a, b)
}

/// The least common multiple of two numbers, unless it is above `u64::MAX`.
pub fn lcm(a: u64, b: u64) -> (l: Option<u64>)
    ensures
        l is Some == (least_common_multiple(a as nat, b as nat) <= u64::MAX),
        l is Some ==> l.unwrap() == least_common_multiple(a as nat, b as nat),
{
    if a == 0 || b == 0 {
        return Some(0);
    }
    let g = binary_gcd(a, b);
    proof {
        gcd_divides_both(a as nat, b as nat);
    }
    (a / g).checked_mul(b)
}

/// The numbers as natural numbers.
pub open spec fn as_nats(numbers: Seq<u64>) -> Seq<nat> {
    Seq::new(numbers.len(), |i: int| numbers[i] as nat)
}

/// The least common multiple of numbers of which one is 0 is 0.
pub proof fn lcm_of_nothing_is_nothing(numbers: Seq<nat>, at: int)
    requires
        0 <= at < numbers.len(),
        numbers[at] == 0,
    ensures
        least_common_multiple_of(numbers) == 0,
    decreases numbers.len(),
{
    if numbers.len() > 1 && at < numbers.len() - 1 {
        lcm_of_nothing_is_nothing(numbers.drop_last(), at);
    }
}

/// The least common multiple of positive numbers is positive, and not less
/// than the least common multiple of the first `n` of them.
pub proof fn lcm_of_more_is_more(numbers: Seq<nat>, n: int)
    requires
        1 <= n <= numbers.len(),
        forall|i: int| 0 <= i < numbers.len() ==> numbers[i] > 0,
    ensures
        0 < least_common_multiple_of(numbers.take(n)) <= least_common_multiple_of(numbers),
    decreases numbers.len(),
{
    if n == numbers.len() {
        assert(numbers.take(n) =~= numbers);
        if numbers.len() > 1 {
            lcm_of_more_is_more(numbers.drop_last(), n - 1);
            assert(numbers.drop_last().take(n - 1) =~= numbers.drop_last());
            let before = least_common_multiple_of(numbers.drop_last());
            lcm_is_least_common_multiple(before, numbers.last(), 0);
        }
    } else {
        lcm_of_more_is_more(numbers.drop_last(), n);
        assert(numbers.drop_last().take(n) =~= numbers.take(n));
        let before = least_common_multiple_of(numbers.drop_last());
        let all = least_common_multiple(before, numbers.last());
        lcm_is_least_common_multiple(before, numbers.last(), 0);
        let k = choose|k: nat| all == #[trigger] (before * k);
        assert(all >= before) by (nonlinear_arith)
            requires
                all == before * k,
                all > 0,
                before > 0,
        ;
    }
}

/// The least common multiple of all the numbers, unless it is above `u64::MAX`.
pub fn lcm_of(numbers: &Vec<u64>) -> (l: Option<u64>)
    requires
        numbers@.len() > 0,
    ensures
        l is Some == (least_common_multiple_of(as_nats(numbers@)) <= u64::MAX),
        l is Some ==> l.unwrap() == least_common_multiple_of(as_nats(numbers@)),
{
    let ghost all = as_nats(numbers@);
    let mut i: usize = 0;
    while i < numbers.len()
        invariant
            i <= numbers@.len(),
            all == as_nats(numbers@),
            forall|k: int| 0 <= k < i ==> all[k] > 0,
        decreases numbers@.len() - i,
    {
        if numbers[i] == 0 {
            proof {
                lcm_of_nothing_is_nothing(all, i as int);
            }
            return Some(0);
        }
        i += 1;
    }
    let mut least_common_multiple: u64 = numbers[0];
    let mut i: usize = 1;
    proof {
        assert(all.take(1).len() == 1);
    }
    while i < numbers.len()
        invariant
            1 <= i <= numbers@.len(),
            all == as_nats(numbers@),
            forall|k: int| 0 <= k < all.len() ==> all[k] > 0,
            least_common_multiple == least_common_multiple_of(all.take(i as int)),
        decreases numbers@.len() - i,
    {
        proof {
            assert(all.take(i + 1).drop_last() =~= all.take(i as int));
            assert(all.take(i + 1).last() == numbers@[i as int]);
            lcm_of_more_is_more(all, i + 1);
        }
        least_common_multiple = match lcm(least_common_multiple, numbers[i]) {
            Some(l) => l,
            None => {
                return None;
            },
        };
        i += 1;
    }
    proof {
        assert(all.take(numbers@.len() as int) =~= all);
    }
    Some(least_common_multiple)
}

/// Whether each of the first `n` starts has a walk that arrives at the goal
/// after no more than `u64::MAX` steps.
pub open spec fn walkers_arrive(
    net: Network,
    turns: Seq<Direction>,
    starts: Seq<Seq<char>>,
    goal: Target,
    n: int,
) -> bool {
    forall|i: int|
        0 <= i < n ==> (#[trigger] arrival(net, turns, starts[i], goal)) is Some && arrival(
            net,
            turns,
            starts[i],
            goal,
        ).unwrap() <= u64::MAX
}

/// The numbers of steps after which the walks from the starts arrive.
pub open spec fn walker_steps(
    net: Network,
    turns: Seq<Direction>,
    starts: Seq<Seq<char>>,
    goal: Target,
) -> Seq<nat> {
    Seq::new(starts.len(), |i: int| arrival(net, turns, starts[i], goal).unwrap())
}

/// The number of steps after which walkers that set out from all the starts at
/// once are all at a node whose label ends with `terminal`: each walker is
/// followed to the first such node that it reaches, and the result is the least
/// common multiple of their numbers of steps.
pub fn walk_parallel(
    nodes: &Vec<Node>,
    instructions: &Vec<Direction>,
    start_set: &Vec<Vec<char>>,
    terminal: char,
) -> (steps: Result<u64, WalkError>)
    requires
        instructions@.len() > 0,
        start_set@.len() > 0,
    ensures
        match steps {
            Ok(n) => {
                &&& walkers_arrive(
                    network(node_views(nodes@)),
                    instructions@,
                    texts(start_set@),
                    Target::EndsWith(terminal),
                    start_set@.len() as int,
                )
                &&& n == least_common_multiple_of(
                    walker_steps(
                        network(node_views(nodes@)),
                        instructions@,
                        texts(start_set@),
                        Target::EndsWith(terminal),
                    ),
                )
            },
            Err(WalkError::UnknownLabel) => exists|i: int, n: nat|
                {
                    &&& 0 <= i < start_set@.len()
                    &&& n <= u64::MAX
                    &&& #[trigger] lost_after(
                        network(node_views(nodes@)),
                        instructions@,
                        texts(start_set@)[i],
                        Target::EndsWith(terminal),
                        n,
                    )
                    &&& walkers_arrive(
                        network(node_views(nodes@)),
                        instructions@,
                        texts(start_set@),
                        Target::EndsWith(terminal),
                        i,
                    )
                },
            Err(WalkError::TooManySteps) => {
                ||| exists|i: int|
                    {
                        &&& 0 <= i < start_set@.len()
                        &&& #[trigger] still_walking(
                            network(node_views(nodes@)),
                            instructions@,
                            texts(start_set@)[i],
                            Target::EndsWith(terminal),
                            (u64::MAX + 1) as nat,
                        )
                        &&& walkers_arrive(
                            network(node_views(nodes@)),
                            instructions@,
                            texts(start_set@),
                            Target::EndsWith(terminal),
                            i,
                        )
                    }
                ||| {
                    &&& walkers_arrive(
                        network(node_views(nodes@)),
                        instructions@,
                        texts(start_set@),
                        Target::EndsWith(terminal),
                        start_set@.len() as int,
                    )
                    &&& least_common_multiple_of(
                        walker_steps(
                            network(node_views(nodes@)),
                            instructions@,
                            texts(start_set@),
                            Target::EndsWith(terminal),
                        ),
                    ) > u64::MAX
                }
            },
        },
{
    let ghost net = network(node_views(nodes@));
    let ghost starts = texts(start_set@);
    let ghost target = Target::EndsWith(terminal);
    let goal = Goal::EndsWith(terminal);
    let mut iterations: Vec<u64> = Vec::new();
    let mut i: usize = 0;
    while i < start_set.len()
        invariant
            i <= start_set@.len(),
            instructions@.len() > 0,
            net == network(node_views(nodes@)),
            starts == texts(start_set@),
            target == Target::EndsWith(terminal),
            goal@ == target,
            iterations@.len() == i,
            walkers_arrive(net, instructions@, starts, target, i as int),
            forall|k: int|
                0 <= k < i ==> arrival(net, instructions@, starts[k], target) == Some(
                    #[trigger] iterations@[k] as nat,
                ),
        decreases start_set@.len() - i,
    {
        assert(start_set@[i as int]@ == starts[i as int]);
        match walk(nodes, instructions, &start_set[i], &goal) {
            Ok(step_count) => {
                proof {
                    walk_has_one_outcome(
                        net,
                        instructions@,
                        starts[i as int],
                        target,
                        step_count as nat,
                        0,
                    );
                }
                iterations.push(step_count);
            },
            Err(WalkError::UnknownLabel) => {
                proof {
                    let n = choose|n: nat|
                        n <= u64::MAX && lost_after(net, instructions@, starts[i as int], target, n);
                    assert(lost_after(net, instructions@, texts(start_set@)[i as int], target, n));
                }
                return Err(WalkError::UnknownLabel);
            },
            Err(WalkError::TooManySteps) => {
                assert(still_walking(
                    net,
                    instructions@,
                    texts(start_set@)[i as int],
                    target,
                    (u64::MAX + 1) as nat,
                ));
                return Err(WalkError::TooManySteps);
            },
        }
        i += 1;
    }
    assert(as_nats(iterations@) =~= walker_steps(net, instructions@, starts, target));
    match lcm_of(&iterations) {
        Some(l) => Ok(l),
        None => Err(WalkError::TooManySteps),
    }
}

/// Whether the text `a` comes before the text `b` in the order of the
/// dictionary: `b` goes on where `a` ends, or the two differ and at the first
/// place where they do the character of `a` is the lower one.
pub open spec fn text_below(a: Seq<char>, b: Seq<char>) -> bool {
    exists|i: int|
        {
            &&& 0 <= i <= a.len()
            &&& i <= b.len()
            &&& a.take(i) == b.take(i)
            &&& if i == a.len() {
                i < b.len()
            } else {
                i < b.len() && a[i] < b[i]
            }
        }
}

/// Whether the text `a` comes before the text `b` in the order of the dictionary.
pub fn is_below(a: &Vec<char>, b: &Vec<char>) -> (below: bool)
    ensures
        below == text_below(a@, b@),
{
    let mut i: usize = 0;
    proof {
        assert(a@.take(0) =~= b@.take(0));
    }
    while i < a.len() && i < b.len()
        invariant
            i <= a@.len(),
            i <= b@.len(),
            a@.take(i as int) == b@.take(i as int),
        decreases a@.len() - i,
    {
        if a[i] != b[i] {
            let below = a[i] < b[i];
            proof {
                if below {
                    assert(text_below(a@, b@));
                }
                if text_below(a@, b@) {
                    let k = choose|k: int|
                        {
                            &&& 0 <= k <= a@.len()
                            &&& k <= b@.len()
                            &&& a@.take(k) == b@.take(k)
                            &&& if k == a@.len() {
                                k < b@.len()
                            } else {
                                k < b@.len() && a@[k] < b@[k]
                            }
                        };
                    if k > i {
                        assert(a@.take(k)[i as int] == b@.take(k)[i as int]);
                    }
                    if k < i {
                        assert(a@.take(i as int)[k] == b@.take(i as int)[k]);
                    }
                }
            }
            return below;
        }
        proof {
            assert(a@.take(i + 1) =~= a@.take(i as int).push(a@[i as int]));
            assert(b@.take(i + 1) =~= b@.take(i as int).push(b@[i as int]));
        }
        i += 1;
    }
    let below = i == a.len() && i < b.len();
    proof {
        if below {
            assert(text_below(a@, b@));
        }
        if text_below(a@, b@) {
            let k = choose|k: int|
                {
                    &&& 0 <= k <= a@.len()
                    &&& k <= b@.len()
                    &&& a@.take(k) == b@.take(k)
                    &&& if k == a@.len() {
                        k < b@.len()
                    } else {
                        k < b@.len() && a@[k] < b@[k]
                    }
                };
            if k < i {
                assert(a@.take(i as int)[k] == b@.take(i as int)[k]);
            }
        }
    }
    below
}

/// The label that comes first among the labels of the nodes.
pub open spec fn first_label(nodes: Seq<NodeView>) -> Seq<char>
    decreases nodes.len(),
{
    if nodes.len() == 0 {
        Seq::empty()
    } else if nodes.len() == 1 {
        nodes[0].label
    } else if text_below(nodes.last().label, first_label(nodes.drop_last())) {
        nodes.last().label
    } else {
        first_label(nodes.drop_last())
    }
}

/// The label that comes last among the labels of the nodes.
pub open spec fn last_label(nodes: Seq<NodeView>) -> Seq<char>
    decreases nodes.len(),
{
    if nodes.len() == 0 {
        Seq::empty()
    } else if nodes.len() == 1 {
        nodes[0].label
    } else if text_below(last_label(nodes.drop_last()), nodes.last().label) {
        nodes.last().label
    } else {
        last_label(nodes.drop_last())
    }
}

/// The labels of the nodes that end with `c`, in the order of the nodes.
pub open spec fn labels_ending_with(nodes: Seq<NodeView>, c: char) -> Seq<Seq<char>>
    decreases nodes.len(),
{
    if nodes.len() == 0 {
        Seq::empty()
    } else if Target::EndsWith(c).met_by(nodes.last().label) {
        labels_ending_with(nodes.drop_last(), c).push(nodes.last().label)
    } else {
        labels_ending_with(nodes.drop_last(), c)
    }
}

/// The indices of the nodes whose labels come first and last.
fn find_ends(nodes: &Vec<Node>) -> (ends: (usize, usize))
    requires
        nodes@.len() > 0,
    ensures
        ends.0 < nodes@.len(),
        ends.1 < nodes@.len(),
        nodes@[ends.0 as int]@.label == first_label(node_views(nodes@)),
        nodes@[ends.1 as int]@.label == last_label(node_views(nodes@)),
{
    let ghost all = node_views(nodes@);
    let mut first: usize = 0;
    let mut last: usize = 0;
    let mut i: usize = 1;
    proof {
        assert(all.take(1).len() == 1);
    }
    while i < nodes.len()
        invariant
            1 <= i <= nodes@.len(),
            all == node_views(nodes@),
            first < i,
            last < i,
            nodes@[first as int]@.label == first_label(all.take(i as int)),
            nodes@[last as int]@.label == last_label(all.take(i as int)),
        decreases nodes@.len() - i,
    {
        proof {
            assert(all.take(i + 1).drop_last() =~= all.take(i as int));
            assert(all.take(i + 1).last() == nodes@[i as int]@);
        }
        if is_below(&nodes[i].label, &nodes[first].label) {
            first = i;
        }
        if is_below(&nodes[last].label, &nodes[i].label) {
            last = i;
        }
        i += 1;
    }
    proof {
        assert(all.take(nodes@.len() as int) =~= all);
    }
    (first, last)
}

/// The labels of the nodes that end with `c`.
fn find_starts(nodes: &Vec<Node>, c: char) -> (starts: Vec<Vec<char>>)
    ensures
        texts(starts@) == labels_ending_with(node_views(nodes@), c),
{
    let ghost all = node_views(nodes@);
    let goal = Goal::EndsWith(c);
    let mut starts: Vec<Vec<char>> = Vec::new();
    let mut i: usize = 0;
    while i < nodes.len()
        invariant
            i <= nodes@.len(),
            all == node_views(nodes@),
            goal@ == Target::EndsWith(c),
            texts(starts@) =~= labels_ending_with(all.take(i as int), c),
        decreases nodes@.len() - i,
    {
        proof {
            assert(all.take(i + 1).drop_last() =~= all.take(i as int));
            assert(all.take(i + 1).last() == nodes@[i as int]@);
        }
        if goal.is_met(&nodes[i].label) {
            let label = copy_range(nodes[i].label.as_slice(), 0, nodes[i].label.len());
            assert(label@ =~= nodes@[i as int]@.label);
            let ghost before = texts(starts@);
            starts.push(label);
            assert(texts(starts@) =~= before.push(label@));
        }
        i += 1;
    }
    proof {
        assert(all.take(nodes@.len() as int) =~= all);
    }
    starts
}

/// A successor as it is named in the text of a node: without the white space
/// around it, the brackets that open before it and those that close behind it.
pub open spec fn bare(s: Seq<char>) -> Seq<char> {
    strip_end(strip_start(trimmed(s), |x: char| x == '('), |x: char| x == ')')
}

/// Whether the line shows a node: a label, an equals sign, and behind it two
/// successors with a comma between them.
pub open spec fn is_node_line(line: Seq<char>) -> bool {
    split(line, '=').len() >= 2 && split(split(line, '=')[1], ',').len() == 2
}

/// The node that a line shows.
pub open spec fn node_of_line(line: Seq<char>) -> NodeView {
    let successors = split(split(line, '=')[1], ',');
    NodeView {
        label: trimmed(split(line, '=')[0]),
        left: bare(successors[0]),
        right: bare(successors[1]),
    }
}

/// The node that the line shows, if it shows one.
pub fn parse_node(line: &[char]) -> (node: Option<Node>)
    ensures
        node is Some == is_node_line(line@),
        node is Some ==> node.unwrap()@ == node_of_line(line@),
{
    let parts = split_at_char(line, '=');
    if parts.len() < 2 {
        return None;
    }
    assert(parts@[0]@ == split(line@, '=')[0]);
    assert(parts@[1]@ == split(line@, '=')[1]);
    let successors = split_at_char(parts[1].as_slice(), ',');
    if successors.len() != 2 {
        return None;
    }
    assert(successors@[0]@ == split(split(line@, '=')[1], ',')[0]);
    assert(successors@[1]@ == split(split(line@, '=')[1], ',')[1]);
    let label = trim(parts[0].as_slice());
    let left = trim(successors[0].as_slice());
    let left = trim_start_matches(left.as_slice(), '(');
    let left = trim_end_matches(left.as_slice(), ')');
    let right = trim(successors[1].as_slice());
    let right = trim_start_matches(right.as_slice(), '(');
    let right = trim_end_matches(right.as_slice(), ')');
    Some(Node { label, left, right })
}

/// The lines of the text that show its nodes: the lines of its second block
/// that are not empty.
pub open spec fn node_lines(s: Seq<char>) -> Seq<Seq<char>> {
    non_empty(split(blocks(s)[1], '\n'))
}

/// Whether the text shows a network: a block of turns, and a block in which
/// every line that is not empty shows a node. Blocks that follow are ignored.
pub open spec fn is_network_text(s: Seq<char>) -> bool {
    &&& blocks(s).len() >= 2
    &&& forall|i: int|
        0 <= i < blocks(s)[0].len() ==> Direction::of_char(#[trigger] blocks(s)[0][i]) is Some
    &&& forall|i: int| 0 <= i < node_lines(s).len() ==> is_node_line(#[trigger] node_lines(s)[i])
}

/// The turns that the text shows.
pub open spec fn turns_of_text(s: Seq<char>) -> Seq<Direction> {
    Seq::new(blocks(s)[0].len(), |i: int| Direction::of_char(blocks(s)[0][i]).unwrap())
}

/// The nodes that the text shows.
pub open spec fn nodes_of_text(s: Seq<char>) -> Seq<NodeView> {
    Seq::new(node_lines(s).len(), |i: int| node_of_line(node_lines(s)[i]))
}

/// The turns that the text `s` shows, if it shows nothing but turns.
fn parse_turns(s: &[char]) -> (turns: Option<Vec<Direction>>)
    ensures
        turns is Some == (forall|i: int|
            0 <= i < s@.len() ==> Direction::of_char(#[trigger] s@[i]) is Some),
        turns is Some ==> turns.unwrap()@ == Seq::new(
            s@.len(),
            |i: int| Direction::of_char(s@[i]).unwrap(),
        ),
{
    let mut turns: Vec<Direction> = Vec::new();
    let mut i: usize = 0;
    while i < s.len()
        invariant
            i <= s@.len(),
            turns@.len() == i,
            forall|k: int| 0 <= k < i ==> Direction::of_char(#[trigger] s@[k]) == Some(turns@[k]),
        decreases s@.len() - i,
    {
        match Direction::from_char(s[i]) {
            Some(turn) => {
                turns.push(turn);
            },
            None => {
                return None;
            },
        }
        i += 1;
    }
    assert(turns@ =~= Seq::new(s@.len(), |i: int| Direction::of_char(s@[i]).unwrap()));
    Some(turns)
}

/// The turns and the nodes that the text shows, if it shows a network.
pub fn parse_network(input: &str) -> (parsed: Option<(Vec<Direction>, Vec<Node>)>)
    ensures
        parsed is Some == is_network_text(input@),
        parsed is Some ==> parsed.unwrap().0@ == turns_of_text(input@),
        parsed is Some ==> node_views(parsed.unwrap().1@) == nodes_of_text(input@),
{
    let chars = to_chars(input);
    let parts = split_blocks(chars.as_slice());
    if parts.len() < 2 {
        return None;
    }
    assert(parts@[0]@ == blocks(input@)[0]);
    assert(parts@[1]@ == blocks(input@)[1]);
    let turns = match parse_turns(parts[0].as_slice()) {
        Some(turns) => turns,
        None => {
            return None;
        },
    };
    let rows = keep_non_empty(split_at_char(parts[1].as_slice(), '\n'));
    let ghost text = node_lines(input@);
    assert(texts(rows@) == text);
    let mut nodes: Vec<Node> = Vec::new();
    let mut i: usize = 0;
    while i < rows.len()
        invariant
            i <= rows@.len(),
            texts(rows@) == text,
            text == node_lines(input@),
            nodes@.len() == i,
            forall|k: int| 0 <= k < i ==> is_node_line(#[trigger] text[k]),
            forall|k: int| 0 <= k < i ==> (#[trigger] nodes@[k])@ == node_of_line(text[k]),
        decreases rows@.len() - i,
    {
        assert(rows@[i as int]@ == text[i as int]);
        match parse_node(rows[i].as_slice()) {
            Some(node) => {
                nodes.push(node);
            },
            None => {
                return None;
            },
        }
        i += 1;
    }
    assert(node_views(nodes@) =~= nodes_of_text(input@));
    Some((turns, nodes))
}

/// The number of steps of the single walk that the text asks for, if the text
/// shows a network with turns and nodes and the walk arrives after no more than
/// `u64::MAX` steps: the walk from the label that comes first among the labels
/// of the nodes to the one that comes last.
pub open spec fn single_walk_of_text(s: Seq<char>) -> Option<nat> {
    if is_network_text(s) && turns_of_text(s).len() > 0 && nodes_of_text(s).len() > 0 {
        let steps = arrival(
            network(nodes_of_text(s)),
            turns_of_text(s),
            first_label(nodes_of_text(s)),
            Target::Label(last_label(nodes_of_text(s))),
        );
        if steps is Some && steps.unwrap() <= u64::MAX {
            steps
        } else {
            None
        }
    } else {
        None
    }
}

/// The number of steps of the walk from the first label of the network that
/// the text shows to its last label, if there is such a number.
pub fn try_solve_part1(input: &str) -> (steps: Option<u64>)
    ensures
        steps is Some == single_walk_of_text(input@) is Some,
        steps is Some ==> steps.unwrap() == single_walk_of_text(input@).unwrap(),
{
    let (directions, locations) = match parse_network(input) {
        Some(parsed) => parsed,
        None => {
            return None;
        },
    };
    if directions.len() == 0 || locations.len() == 0 {
        return None;
    }
    let (first, last) = find_ends(&locations);
    let ghost net = network(node_views(locations@));
    let ghost goal = Target::Label(locations@[last as int]@.label);
    match walk_single(&locations, &directions, &locations[first].label, &locations[last].label) {
        Ok(count_steps) => {
            proof {
                walk_has_one_outcome(
                    net,
                    directions@,
                    locations@[first as int]@.label,
                    goal,
                    count_steps as nat,
                    0,
                );
            }
            Some(count_steps)
        },
        Err(WalkError::UnknownLabel) => {
            proof {
                let n = choose|n: nat|
                    n <= u64::MAX && lost_after(
                        net,
                        directions@,
                        locations@[first as int]@.label,
                        goal,
                        n,
                    );
                let steps = arrival(net, directions@, locations@[first as int]@.label, goal);
                if steps is Some {
                    walk_has_one_outcome(
                        net,
                        directions@,
                        locations@[first as int]@.label,
                        goal,
                        steps.unwrap(),
                        n,
                    );
                }
            }
            None
        },
        Err(WalkError::TooManySteps) => {
            proof {
                let steps = arrival(net, directions@, locations@[first as int]@.label, goal);
                if steps is Some && steps.unwrap() <= u64::MAX {
                    assert(position(
                        net,
                        directions@,
                        locations@[first as int]@.label,
                        steps.unwrap(),
                    ) is Some);
                }
            }
            None
        },
    }
}

/// The number of steps of the walk from the first label of the network that
/// the text shows to its last label.
pub fn solve_part1(input: &str) -> (steps: u64)
    requires
        single_walk_of_text(input@) is Some,
    ensures
        steps == single_walk_of_text(input@).unwrap(),
{
    match try_solve_part1(input) {
        Some(steps) => steps,
        None => vstd::pervasive::unreached(),
    }
}

/// The number of steps that the text asks for where walkers set out at once
/// from all labels that end with `A` and are to be, all at once, on labels that
/// end with `Z`: the least common multiple of the walkers' numbers of steps, if
/// the text shows a network with turns, there is such a walker, every walker
/// arrives after no more than `u64::MAX` steps, and the result is not above
/// `u64::MAX`.
pub open spec fn parallel_walk_of_text(s: Seq<char>) -> Option<nat> {
    let starts = labels_ending_with(nodes_of_text(s), 'A');
    if is_network_text(s) && turns_of_text(s).len() > 0 && starts.len() > 0 && walkers_arrive(
        network(nodes_of_text(s)),
        turns_of_text(s),
        starts,
        Target::EndsWith('Z'),
        starts.len() as int,
    ) {
        let steps = least_common_multiple_of(
            walker_steps(
                network(nodes_of_text(s)),
                turns_of_text(s),
                starts,
                Target::EndsWith('Z'),
            ),
        );
        if steps <= u64::MAX {
            Some(steps)
        } else {
            None
        }
    } else {
        None
    }
}

/// A walker that fails or goes on beyond `u64::MAX` steps does not arrive
/// within them.
proof fn lost_walker_does_not_arrive(
    net: Network,
    turns: Seq<Direction>,
    starts: Seq<Seq<char>>,
    goal: Target,
    i: int,
    n: nat,
)
    requires
        0 <= i < starts.len(),
        (n <= u64::MAX && lost_after(net, turns, starts[i], goal, n)) || still_walking(
            net,
            turns,
            starts[i],
            goal,
            (u64::MAX + 1) as nat,
        ),
    ensures
        !walkers_arrive(net, turns, starts, goal, starts.len() as int),
{
    let steps = arrival(net, turns, starts[i], goal);
    if steps is Some && steps.unwrap() <= u64::MAX {
        walk_has_one_outcome(net, turns, starts[i], goal, steps.unwrap(), n);
        assert(position(net, turns, starts[i], steps.unwrap()) is Some);
    }
}

/// The number of steps after which the walkers from all labels that end with
/// `A` are all on labels that end with `Z`, if there is such a number.
pub fn try_solve_part2(input: &str) -> (steps: Option<u64>)
    ensures
        steps is Some == parallel_walk_of_text(input@) is Some,
        steps is Some ==> steps.unwrap() == parallel_walk_of_text(input@).unwrap(),
{
    let (directions, locations) = match parse_network(input) {
        Some(parsed) => parsed,
        None => {
            return None;
        },
    };
    let start_locations = find_starts(&locations, 'A');
    if directions.len() == 0 || start_locations.len() == 0 {
        return None;
    }
    let ghost net = network(node_views(locations@));
    let ghost starts = texts(start_locations@);
    let ghost goal = Target::EndsWith('Z');
    match walk_parallel(&locations, &directions, &start_locations, 'Z') {
        Ok(least_common_multiple) => Some(least_common_multiple),
        Err(WalkError::UnknownLabel) => {
            proof {
                let (i, n) = choose|i: int, n: nat|
                    {
                        &&& 0 <= i < start_locations@.len()
                        &&& n <= u64::MAX
                        &&& #[trigger] lost_after(net, directions@, starts[i], goal, n)
                        &&& walkers_arrive(net, directions@, starts, goal, i)
                    };
                lost_walker_does_not_arrive(net, directions@, starts, goal, i, n);
            }
            None
        },
        Err(WalkError::TooManySteps) => {
            proof {
                if !walkers_arrive(net, directions@, starts, goal, starts.len() as int) {
                } else if exists|i: int|
                    {
                        &&& 0 <= i < start_locations@.len()
                        &&& #[trigger] still_walking(
                            net,
                            directions@,
                            starts[i],
                            goal,
                            (u64::MAX + 1) as nat,
                        )
                        &&& walkers_arrive(net, directions@, starts, goal, i)
                    } {
                    let i = choose|i: int|
                        {
                            &&& 0 <= i < start_locations@.len()
                            &&& #[trigger] still_walking(
                                net,
                                directions@,
                                starts[i],
                                goal,
                                (u64::MAX + 1) as nat,
                            )
                            &&& walkers_arrive(net, directions@, starts, goal, i)
                        };
                    lost_walker_does_not_arrive(net, directions@, starts, goal, i, 0);
                }
            }
            None
        },
    }
}

/// The number of steps after which the walkers from all labels that end with
/// `A` are all on labels that end with `Z`.
pub fn solve_part2(input: &str) -> (steps: u64)
    requires
        parallel_walk_of_text(input@) is Some,
    ensures
        steps == parallel_walk_of_text(input@).unwrap(),
{
    match try_solve_part2(input) {
        Some(steps) => steps,
        None => vstd::pervasive::unreached(),
    }
}

} // verus!
