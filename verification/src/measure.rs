//! Measuring scans: what is measured, how often, and what is reported of it.

use vstd::prelude::*;

use crate::text;
use crate::text::{begins_with, chars_of, owned};
use crate::tree;
use crate::tree::{FileNode, Tree};

verus! {

/// The longest time that can be measured, in nanoseconds.
pub const LONGEST: u128 = 18_446_744_073_709_551_615_999_999_999;

/// A frame that takes longer than this many nanoseconds is late.
pub const LATE: u128 = 16_000_000;

/// The sum of times.
pub open spec fn total(times: Seq<u128>) -> nat
    decreases times.len(),
{
    if times.len() == 0 {
        0
    } else {
        total(times.drop_last()) + times.last() as nat
    }
}

/// Whether times stand in order, the shortest first.
pub open spec fn ascending(times: Seq<u128>) -> bool {
    forall|i: int, j: int| 0 <= i < j < times.len() ==> times[i] <= times[j]
}

/// What is reported of several measurements, in nanoseconds.
pub struct Stats {
    pub min: u128,
    pub max: u128,
    pub median: u128,
    pub mean: u128,
    /// The measurements, the shortest first.
    pub values: Vec<u128>,
}

proof fn lemma_total_prefix(times: Seq<u128>, n: int)
    requires
        0 <= n <= times.len(),
    ensures
        total(times.take(n)) <= total(times),
    decreases times.len() - n,
{
    if n < times.len() {
        assert(times.take(n + 1).drop_last() =~= times.take(n));
        lemma_total_prefix(times, n + 1);
    } else {
        assert(times.take(n) =~= times);
    }
}

fn merge(left: &Vec<u128>, right: &Vec<u128>) -> (merged: Vec<u128>)
    requires
        ascending(left@),
        ascending(right@),
        left@.len() + right@.len() <= usize::MAX,
    ensures
        ascending(merged@),
        merged@.to_multiset() == (left@ + right@).to_multiset(),
        merged@.len() == left@.len() + right@.len(),
{
    broadcast use vstd::seq_lib::group_to_multiset_ensures;

    let mut merged: Vec<u128> = Vec::new();
    let mut i: usize = 0;
    let mut j: usize = 0;
    assert(left@.take(0) + right@.take(0) =~= Seq::<u128>::empty());
    while i < left.len() || j < right.len()
        invariant
            i <= left@.len(),
            j <= right@.len(),
            left@.len() + right@.len() <= usize::MAX,
            ascending(left@),
            ascending(right@),
            ascending(merged@),
            merged@.len() == i + j,
            merged@.to_multiset() == (left@.take(i as int) + right@.take(j as int)).to_multiset(),
            forall|k: int, l: int|
                0 <= k < merged@.len() && i <= l < left@.len() ==> #[trigger] merged@[k]
                    <= #[trigger] left@[l],
            forall|k: int, l: int|
                0 <= k < merged@.len() && j <= l < right@.len() ==> #[trigger] merged@[k]
                    <= #[trigger] right@[l],
        decreases left@.len() - i + right@.len() - j,
    {
        let ghost before = merged@;
        let ghost (a, b) = (left@.take(i as int), right@.take(j as int));
        if j == right.len() || (i < left.len() && left[i] <= right[j]) {
            let time: u128 = left[i];
            merged.push(time);
            proof {
                vstd::seq_lib::to_multiset_build(before, time);
                vstd::seq_lib::to_multiset_insert(a + b, i as int, time);
                assert(left@.take(i + 1) + b =~= (a + b).insert(i as int, time));
            }
            i += 1;
        } else {
            let time: u128 = right[j];
            merged.push(time);
            proof {
                vstd::seq_lib::to_multiset_build(before, time);
                vstd::seq_lib::to_multiset_build(a + b, time);
                assert(a + right@.take(j + 1) =~= (a + b).push(time));
            }
            j += 1;
        }
    }
    assert(left@.take(i as int) =~= left@ && right@.take(j as int) =~= right@);
    merged
}

fn in_order_range(times: &Vec<u128>, from: usize, to: usize) -> (sorted: Vec<u128>)
    requires
        from <= to <= times@.len(),
    ensures
        ascending(sorted@),
        sorted@.to_multiset() == times@.subrange(from as int, to as int).to_multiset(),
        sorted@.len() == to - from,
    decreases to - from,
{
    if to - from <= 1 {
        let mut sorted: Vec<u128> = Vec::new();
        if from < to {
            sorted.push(times[from]);
        }
        assert(sorted@ =~= times@.subrange(from as int, to as int));
        sorted
    } else {
        let mid: usize = from + (to - from) / 2;
        let left = in_order_range(times, from, mid);
        let right = in_order_range(times, mid, to);
        let whole: usize = times.len();
        assert(left@.len() + right@.len() <= whole);
        proof {
            let (a, b) = (
                times@.subrange(from as int, mid as int),
                times@.subrange(mid as int, to as int),
            );
            vstd::seq_lib::lemma_multiset_commutative(a, b);
            vstd::seq_lib::lemma_multiset_commutative(left@, right@);
            assert(a + b =~= times@.subrange(from as int, to as int));
        }
        merge(&left, &right)
    }
}

/// The times, the shortest first.
fn in_order(times: Vec<u128>) -> (sorted: Vec<u128>)
    ensures
        ascending(sorted@),
        sorted@.to_multiset() == times@.to_multiset(),
        sorted@.len() == times@.len(),
{
    assert(times@.subrange(0, times@.len() as int) =~= times@);
    in_order_range(&times, 0, times.len())
}

impl Stats {
    /// What is reported of these measurements. The median is the upper one of
    /// the two in the middle; the mean is rounded down.
    pub fn from_durations(times: Vec<u128>) -> (stats: Self)
        requires
            0 < times.len() <= u32::MAX,
            total(times@) <= LONGEST,
        ensures
            ascending(stats.values@),
            stats.values@.to_multiset() == times@.to_multiset(),
            stats.values@.len() == times@.len(),
            stats.min == stats.values@[0],
            stats.max == stats.values@[times@.len() - 1],
            stats.median == stats.values@[times@.len() as int / 2],
            stats.mean == total(times@) as int / times@.len() as int,
    {
        let n: usize = times.len();
        let mut sum: u128 = 0;
        let mut i: usize = 0;
        assert(times@.take(0) =~= Seq::<u128>::empty());
        while i < n
            invariant
                i <= n == times@.len(),
                total(times@) <= LONGEST,
                sum == total(times@.take(i as int)),
            decreases n - i,
        {
            proof {
                assert(times@.take(i + 1).drop_last() =~= times@.take(i as int));
                lemma_total_prefix(times@, i + 1);
            }
            sum += times[i];
            i += 1;
        }
        assert(times@.take(i as int) =~= times@);
        let mean: u128 = sum / (n as u128);
        let values = in_order(times);
        Stats { min: values[0], max: values[n - 1], median: values[n / 2], mean, values }
    }
}

/// How many of these frames were late.
pub fn late_frames(times: &[u128]) -> (count: usize)
    ensures
        count == times@.filter(|time: u128| time > LATE).len(),
{
    let ghost late = |time: u128| time > LATE;
    let mut count: usize = 0;
    let mut i: usize = 0;
    proof {
        reveal(Seq::filter);
        assert(times@.take(0) =~= Seq::<u128>::empty());
    }
    while i < times.len()
        invariant
            i <= times@.len(),
            count <= i,
            late == (|time: u128| time > LATE),
            count == times@.take(i as int).filter(late).len(),
        decreases times@.len() - i,
    {
        proof {
            reveal(Seq::filter);
            assert(times@.take(i + 1).drop_last() =~= times@.take(i as int));
            assert(times@.take(i + 1).last() == times@[i as int]);
        }
        if times[i] > LATE {
            count += 1;
        }
        i += 1;
    }
    assert(times@.take(i as int) =~= times@);
    count
}

/// How many nodes a tree has.
pub open spec fn nodes(node: Tree) -> nat
    decreases node, 0nat,
{
    1 + nodes_of(node.kids)
}

/// How many nodes several trees have.
pub open spec fn nodes_of(kids: Seq<Tree>) -> nat
    decreases kids, 0nat,
{
    if kids.len() == 0 {
        0
    } else {
        nodes_of(kids.drop_last()) + nodes(kids.last())
    }
}

proof fn lemma_nodes_prefix(kids: Seq<Tree>, n: int)
    requires
        0 <= n <= kids.len(),
    ensures
        nodes_of(kids.take(n)) <= nodes_of(kids),
    decreases kids.len() - n,
{
    if n < kids.len() {
        assert(kids.take(n + 1).drop_last() =~= kids.take(n));
        lemma_nodes_prefix(kids, n + 1);
    } else {
        assert(kids.take(n) =~= kids);
    }
}

/// How many nodes a tree has.
pub fn count_nodes(node: &FileNode) -> (count: usize)
    requires
        nodes(node@) <= usize::MAX,
    ensures
        count == nodes(node@),
    decreases node@,
{
    let children = node.children();
    let ghost kids = node@.kids;
    assert(kids.len() == children@.len());
    let mut count: usize = 1;
    let mut i: usize = 0;
    assert(kids.take(0) =~= Seq::<Tree>::empty());
    while i < children.len()
        invariant
            i <= children@.len(),
            kids == tree::trees(children@),
            kids == node@.kids,
            1 + nodes_of(kids) <= usize::MAX,
            count == 1 + nodes_of(kids.take(i as int)),
        decreases children@.len() - i,
    {
        proof {
            assert(kids.take(i + 1).drop_last() =~= kids.take(i as int));
            assert(kids.take(i + 1).last() == kids[i as int]);
            lemma_nodes_prefix(kids, i + 1);
            assert(children@[i as int]@ == node@.kids[i as int]);
            assert(decreases_to!(node@ => node@.kids[i as int]));
        }
        count += count_nodes(&children[i]);
        i += 1;
    }
    assert(kids.take(i as int) =~= kids);
    count
}

/// The node with all directories of the first `levels` levels shown.
pub open spec fn opened_to(node: Tree, levels: nat) -> Tree
    decreases levels,
{
    if levels == 0 {
        node
    } else {
        let shown = tree::opened(node, true);
        Tree {
            kids: shown.kids.map_values(
                |kid: Tree|
                    if kid.dir {
                        opened_to(kid, (levels - 1) as nat)
                    } else {
                        kid
                    },
            ),
            ..shown
        }
    }
}

/// Shows all directories from level `depth` down to `max_depth`.
pub fn expand_to_depth(node: &mut FileNode, depth: usize, max_depth: usize)
    ensures
        final(node)@ == opened_to(
            old(node)@,
            if depth < max_depth {
                (max_depth - depth) as nat
            } else {
                0
            },
        ),
    decreases max_depth - depth,
{
    if depth >= max_depth {
        return;
    }
    let ghost levels: nat = (max_depth - depth) as nat;
    let ghost whole = opened_to(node@, levels);
    proof {
        tree::lemma_files_are_leaves(*node);
    }
    node.set_expanded(true);
    let count: usize = node.children().len();
    let ghost shown = node@;
    assert(shown.kids.len() == count);
    match node.as_dir_mut() {
        Some(d) => {
            let mut i: usize = 0;
            assert(whole.kids.take(0) + shown.kids.skip(0) =~= shown.kids);
            while i < count
                invariant
                    i <= count == shown.kids.len(),
                    depth < max_depth,
                    levels == max_depth - depth,
                    whole.kids == shown.kids.map_values(
                        |kid: Tree|
                            if kid.dir {
                                opened_to(kid, (levels - 1) as nat)
                            } else {
                                kid
                            },
                    ),
                    d@ == (Tree {
                        kids: whole.kids.take(i as int) + shown.kids.skip(i as int),
                        ..shown
                    }),
                decreases count - i,
            {
                assert(d@.kids[i as int] == shown.kids[i as int]);
                let child = d.child_mut(i);
                if child.is_dir() {
                    expand_to_depth(child, depth + 1, max_depth);
                }
                i += 1;
                assert(d@.kids =~= whole.kids.take(i as int) + shown.kids.skip(i as int));
            }
            assert(d@.kids =~= whole.kids);
        },
        None => {
            assert(shown.kids =~= whole.kids);
        },
    }
}

/// The nodes with all their directories shown.
pub open spec fn all_opened(kids: Seq<Tree>) -> Seq<Tree>
    decreases kids, 1nat,
{
    Seq::new(
        kids.len(),
        |i: int|
            if 0 <= i < kids.len() {
                wholly_opened(kids[i])
            } else {
                arbitrary()
            },
    )
}

/// The node with all directories shown.
pub open spec fn wholly_opened(node: Tree) -> Tree
    decreases node, 0nat,
{
    tree::opened(Tree { kids: all_opened(node.kids), ..node }, true)
}

proof fn lemma_opened_order(node: Tree)
    requires
        node.kids.len() <= usize::MAX,
    ensures
        wholly_opened(node) == (Tree {
            kids: all_opened(tree::opened(node, true).kids),
            ..tree::opened(node, true)
        }),
{
    let f = |kid: Tree| wholly_opened(kid);
    assert forall|kid: Tree| #[trigger] f(kid).size == kid.size by {}
    tree::lemma_by_size_maps(node.kids, f);
    assert(all_opened(node.kids) =~= node.kids.map_values(f));
    let shown = tree::opened(node, true).kids;
    assert(all_opened(shown) =~= shown.map_values(f));
}

/// Shows all directories.
pub fn expand_all(node: &mut FileNode)
    ensures
        final(node)@ == wholly_opened(old(node)@),
    decreases old(node)@,
{
    let ghost before = node@;
    let ghost whole = wholly_opened(node@);
    let count: usize = node.children().len();
    assert(before.kids.len() == count);
    proof {
        tree::lemma_files_are_leaves(*node);
        lemma_opened_order(before);
        tree::lemma_by_size(before.kids);
    }
    node.set_expanded(true);
    let ghost shown = node@;
    match node.as_dir_mut() {
        Some(d) => {
            let mut i: usize = 0;
            assert(whole.kids.take(0) + shown.kids.skip(0) =~= shown.kids);
            while i < count
                invariant
                    i <= count == shown.kids.len(),
                    before == old(node)@,
                    before.kids.len() == count,
                    before.dir,
                    shown == tree::opened(before, true),
                    whole.kids == all_opened(shown.kids),
                    d@ == (Tree {
                        kids: whole.kids.take(i as int) + shown.kids.skip(i as int),
                        ..shown
                    }),
                decreases count - i,
            {
                proof {
                    assert(d@.kids[i as int] == shown.kids[i as int]);
                    let k = if before.sorted {
                        i as int
                    } else {
                        tree::lemma_by_size_in(before.kids, i as int)
                    };
                    assert(shown.kids[i as int] == before.kids[k]);
                    assert(decreases_to!(before => before.kids[k]));
                }
                let child = d.child_mut(i);
                expand_all(child);
                i += 1;
                assert(d@.kids =~= whole.kids.take(i as int) + shown.kids.skip(i as int));
            }
            assert(d@.kids =~= whole.kids);
        },
        None => {
            assert(before.kids =~= Seq::<Tree>::empty());
            assert(whole.kids =~= shown.kids);
        },
    }
}

/// The value of decimal digits.
pub open spec fn value(digits: Seq<char>) -> nat
    decreases digits.len(),
{
    if digits.len() == 0 {
        0
    } else {
        value(digits.drop_last()) * 10 + (digits.last() as nat - '0' as nat) as nat
    }
}

/// The digits of a count: it may begin with a plus.
pub open spec fn count_digits(text: Seq<char>) -> Seq<char> {
    if text.len() > 0 && text[0] == '+' {
        text.skip(1)
    } else {
        text
    }
}

/// The count that a text spells: a number that fits a `usize`.
pub open spec fn spelled_count(text: Seq<char>) -> Option<nat> {
    let digits = count_digits(text);
    if digits.len() > 0 && (forall|i: int|
        0 <= i < digits.len() ==> '0' <= #[trigger] digits[i] <= '9') && value(digits)
        <= usize::MAX {
        Some(value(digits))
    } else {
        None
    }
}

proof fn lemma_value_grows(digits: Seq<char>, n: int)
    requires
        0 <= n <= digits.len(),
    ensures
        value(digits.take(n)) <= value(digits),
    decreases digits.len() - n,
{
    if n < digits.len() {
        assert(digits.take(n + 1).drop_last() =~= digits.take(n));
        lemma_value_grows(digits, n + 1);
    } else {
        assert(digits.take(n) =~= digits);
    }
}

/// The count that a text spells.
pub fn parse_count(text: &str) -> (count: Option<usize>)
    ensures
        match count {
            Some(count) => spelled_count(text@) == Some(count as nat),
            None => spelled_count(text@) is None,
        },
{
    let chars = chars_of(text);
    let from: usize = if chars.len() > 0 && chars[0] == '+' {
        1
    } else {
        0
    };
    let ghost digits = count_digits(text@);
    assert(digits =~= chars@.skip(from as int));
    if chars.len() == from {
        return None;
    }
    let mut count: usize = 0;
    let mut i: usize = from;
    assert(digits.take(0) =~= Seq::<char>::empty());
    while i < chars.len()
        invariant
            from <= i <= chars@.len(),
            digits == count_digits(text@),
            digits == chars@.skip(from as int),
            forall|k: int| 0 <= k < i - from ==> '0' <= #[trigger] digits[k] <= '9',
            count == value(digits.take(i - from)),
        decreases chars@.len() - i,
    {
        let c: char = chars[i];
        let ghost n = i - from;
        proof {
            assert(digits[n] == c);
            assert(digits.take(n + 1).drop_last() =~= digits.take(n));
            assert(digits.take(n + 1).last() == c);
            lemma_value_grows(digits, n + 1);
        }
        if c < '0' || c > '9' {
            return None;
        }
        let digit: usize = (c as u32 - 48) as usize;
        if count > (usize::MAX - digit) / 10 {
            assert(count * 10 + digit > usize::MAX);
            return None;
        }
        count = count * 10 + digit;
        i += 1;
    }
    assert(digits.take(i - from) =~= digits);
    Some(count)
}

/// What is wrong with the arguments of a measurement.
#[derive(Clone, Copy, Debug, PartialEq, Eq, Structural)]
pub enum BenchError {
    MissingNumber,
    BadRuns,
    BadWarmup,
    UnknownOption,
}

impl BenchError {
    /// What is said of the argument at fault.
    pub open spec fn wording(self, arg: Seq<char>) -> Seq<char> {
        match self {
            BenchError::MissingNumber => "a number is missing at the end"@,
            BenchError::BadRuns => "--runs requires a number"@,
            BenchError::BadWarmup => "--warmup requires a number"@,
            BenchError::UnknownOption => "Unknown option: "@ + arg,
        }
    }

    pub fn message(self, arg: &str) -> (message: String)
        ensures
            message@ == self.wording(arg@),
    {
        match self {
            BenchError::MissingNumber => owned("a number is missing at the end"),
            BenchError::BadRuns => owned("--runs requires a number"),
            BenchError::BadWarmup => owned("--warmup requires a number"),
            BenchError::UnknownOption => {
                let mut message = owned("Unknown option: ");
                message.append(arg);
                message
            },
        }
    }
}

/// What an argument of a measurement asks for.
#[derive(Clone, Copy, Debug, PartialEq, Eq, Structural)]
pub enum BenchStep {
    /// Nothing yet.
    Continue,
    /// The usage.
    Help,
    /// Nothing that can be done.
    Refuse(BenchError),
}

/// What the next argument is.
#[derive(Clone, Copy, Debug, PartialEq, Eq, Structural)]
pub enum Expected {
    Anything,
    Runs,
    Warmup,
}

/// What is measured, and how often.
pub struct BenchConfig {
    pub path: Option<String>,
    pub runs: usize,
    pub warmup: usize,
    pub skip_startup: bool,
    pub json: bool,
    pub expected: Expected,
}

/// The same as a mathematical value.
pub struct Plan {
    pub path: Option<Seq<char>>,
    pub runs: nat,
    pub warmup: nat,
    pub skip_startup: bool,
    pub json: bool,
    pub expected: Expected,
}

impl View for BenchConfig {
    type V = Plan;

    open spec fn view(&self) -> Plan {
        Plan {
            path: match self.path {
                Some(path) => Some(path@),
                None => None,
            },
            runs: self.runs as nat,
            warmup: self.warmup as nat,
            skip_startup: self.skip_startup,
            json: self.json,
            expected: self.expected,
        }
    }
}

/// The plan after an argument, and what the argument asks for. Of several paths
/// the last one counts.
pub open spec fn planned(plan: Plan, arg: Seq<char>) -> (Plan, BenchStep) {
    let settled = Plan { expected: Expected::Anything, ..plan };
    match plan.expected {
        Expected::Runs => match spelled_count(arg) {
            Some(runs) => (Plan { runs, ..settled }, BenchStep::Continue),
            None => (settled, BenchStep::Refuse(BenchError::BadRuns)),
        },
        Expected::Warmup => match spelled_count(arg) {
            Some(warmup) => (Plan { warmup, ..settled }, BenchStep::Continue),
            None => (settled, BenchStep::Refuse(BenchError::BadWarmup)),
        },
        Expected::Anything => if arg == "--runs"@ {
            (Plan { expected: Expected::Runs, ..plan }, BenchStep::Continue)
        } else if arg == "--warmup"@ {
            (Plan { expected: Expected::Warmup, ..plan }, BenchStep::Continue)
        } else if arg == "--no-startup"@ {
            (Plan { skip_startup: true, ..plan }, BenchStep::Continue)
        } else if arg == "--json"@ {
            (Plan { json: true, ..plan }, BenchStep::Continue)
        } else if arg == "-h"@ || arg == "--help"@ {
            (plan, BenchStep::Help)
        } else if text::has_prefix(arg, "-"@) {
            (plan, BenchStep::Refuse(BenchError::UnknownOption))
        } else {
            (Plan { path: Some(arg), ..plan }, BenchStep::Continue)
        },
    }
}

impl BenchConfig {
    /// What is measured where nothing is said.
    pub fn new() -> (config: Self)
        ensures
            config@ == (Plan {
                path: None,
                runs: 5,
                warmup: 1,
                skip_startup: false,
                json: false,
                expected: Expected::Anything,
            }),
    {
        BenchConfig {
            path: None,
            runs: 5,
            warmup: 1,
            skip_startup: false,
            json: false,
            expected: Expected::Anything,
        }
    }

    /// Takes the next argument.
    pub fn take(&mut self, arg: &str) -> (step: BenchStep)
        ensures
            (final(self)@, step) == planned(old(self)@, arg@),
    {
        let expected = self.expected;
        match expected {
            Expected::Runs => {
                self.expected = Expected::Anything;
                match parse_count(arg) {
                    Some(runs) => {
                        self.runs = runs;
                        BenchStep::Continue
                    },
                    None => BenchStep::Refuse(BenchError::BadRuns),
                }
            },
            Expected::Warmup => {
                self.expected = Expected::Anything;
                match parse_count(arg) {
                    Some(warmup) => {
                        self.warmup = warmup;
                        BenchStep::Continue
                    },
                    None => BenchStep::Refuse(BenchError::BadWarmup),
                }
            },
            Expected::Anything => {
                if arg.eq("--runs") {
                    self.expected = Expected::Runs;
                    BenchStep::Continue
                } else if arg.eq("--warmup") {
                    self.expected = Expected::Warmup;
                    BenchStep::Continue
                } else if arg.eq("--no-startup") {
                    self.skip_startup = true;
                    BenchStep::Continue
                } else if arg.eq("--json") {
                    self.json = true;
                    BenchStep::Continue
                } else if arg.eq("-h") || arg.eq("--help") {
                    BenchStep::Help
                } else if begins_with(arg, "-") {
                    BenchStep::Refuse(BenchError::UnknownOption)
                } else {
                    self.path = Some(owned(arg));
                    BenchStep::Continue
                }
            },
        }
    }

    /// Whether all arguments were complete.
    pub fn finish(&self) -> (result: Result<(), BenchError>)
        ensures
            result == (if self@.expected == Expected::Anything {
                Ok(())
            } else {
                Err::<(), BenchError>(BenchError::MissingNumber)
            }),
    {
        match self.expected {
            Expected::Anything => Ok(()),
            _ => Err(BenchError::MissingNumber),
        }
    }
}

/// No measurement is below the shortest or above the longest that is reported, both are
/// measurements, and the mean times their number is their sum, but for what is rounded off.
pub proof fn lemma_stats(times: Vec<u128>, stats: Stats, time: u128)
    requires
        call_ensures(Stats::from_durations, (times,), stats),
        times@.len() > 0,
        times@.contains(time),
    ensures
        stats.min <= time <= stats.max,
        times@.contains(stats.min),
        times@.contains(stats.max),
        times@.contains(stats.median),
        stats.mean * times@.len() <= total(times@) < (stats.mean + 1) * times@.len(),
{
    broadcast use vstd::seq_lib::group_to_multiset_ensures;

    let values = stats.values@;
    let n = times@.len() as int;
    assert(times@.to_multiset().count(time) > 0);
    assert(values.contains(time));
    let i = values.index_of(time);
    assert(values[0] <= values[i] <= values[n - 1]);
    assert forall|k: int| 0 <= k < n implies times@.contains(#[trigger] values[k]) by {
        assert(values.to_multiset().count(values[k]) > 0);
    }
    let sum = total(times@) as int;
    vstd::arithmetic::div_mod::lemma_fundamental_div_mod(sum, n);
    let mean = sum / n;
    assert(mean * n == n * mean) by (nonlinear_arith);
    assert((mean + 1) * n == n * mean + n) by (nonlinear_arith);
}

/// As many measurements are no longer than the median as are before it, and as many are no
/// shorter as are behind it.
pub proof fn lemma_median(times: Vec<u128>, stats: Stats, k: int)
    requires
        call_ensures(Stats::from_durations, (times,), stats),
        0 <= k < times@.len(),
    ensures
        k <= times@.len() as int / 2 ==> stats.values@[k] <= stats.median,
        k >= times@.len() as int / 2 ==> stats.values@[k] >= stats.median,
        stats.values@.to_multiset() == times@.to_multiset(),
{
}

/// A frame is late where it takes longer than sixteen thousandths of a second.
pub proof fn lemma_late(times: &[u128], count: usize)
    requires
        call_ensures(late_frames, (times,), count),
    ensures
        count <= times@.len(),
        (forall|i: int| 0 <= i < times@.len() ==> #[trigger] times@[i] <= 16_000_000) ==> count
            == 0,
        (forall|i: int| 0 <= i < times@.len() ==> #[trigger] times@[i] > 16_000_000) ==> count
            == times@.len(),
{
    lemma_late_in(times@);
}

proof fn lemma_late_in(times: Seq<u128>)
    ensures
        ({
            let count = times.filter(|time: u128| time > LATE).len();
            &&& count <= times.len()
            &&& (forall|i: int| 0 <= i < times.len() ==> #[trigger] times[i] <= 16_000_000)
                ==> count == 0
            &&& (forall|i: int| 0 <= i < times.len() ==> #[trigger] times[i] > 16_000_000)
                ==> count == times.len()
        }),
    decreases times.len(),
{
    reveal(Seq::filter);
    if times.len() > 0 {
        let front = times.drop_last();
        lemma_late_in(front);
        assert(times[times.len() - 1] == times.last());
        assert(forall|i: int| 0 <= i < front.len() ==> #[trigger] front[i] == times[i]);
    }
}

/// A count is read as it is written, with a plus or without.
pub proof fn lemma_count_reads(n: nat)
    requires
        n <= usize::MAX,
    ensures
        spelled_count(text::decimal(n)) == Some(n),
        spelled_count(seq!['+'] + text::decimal(n)) == Some(n),
{
    let digits = text::decimal(n);
    text::lemma_decimal_reads_back(n);
    lemma_value_is_number(digits);
    assert(digits[0] != '+');
    assert((seq!['+'] + digits).skip(1) =~= digits);
}

proof fn lemma_value_is_number(digits: Seq<char>)
    requires
        forall|i: int| 0 <= i < digits.len() ==> '0' <= #[trigger] digits[i] <= '9',
    ensures
        value(digits) == text::number(digits, 10),
    decreases digits.len(),
{
    if digits.len() > 0 {
        let front = digits.drop_last();
        assert forall|i: int| 0 <= i < front.len() implies '0' <= #[trigger] front[i] <= '9' by {
            assert('0' <= digits[i] <= '9');
        }
        assert('0' <= digits[digits.len() - 1] <= '9');
        lemma_value_is_number(front);
    }
}

/// Whether every directory in a tree is open.
pub open spec fn open_throughout(node: Tree) -> bool
    decreases node,
{
    &&& node.dir ==> node.expanded
    &&& forall|i: int| 0 <= i < node.kids.len() ==> open_throughout(#[trigger] node.kids[i])
}

/// Opening everything opens every directory, and keeps names and sizes.
pub proof fn lemma_wholly_opened(node: Tree)
    requires
        tree::formed(node),
    ensures
        open_throughout(wholly_opened(node)),
        wholly_opened(node).name == node.name,
        wholly_opened(node).size == node.size,
        wholly_opened(node).kids.len() == node.kids.len(),
    decreases node,
{
    let kids = all_opened(node.kids);
    assert forall|i: int| 0 <= i < kids.len() implies open_throughout(#[trigger] kids[i]) by {
        assert(tree::formed(node.kids[i]));
        lemma_wholly_opened(node.kids[i]);
    }
    let whole = wholly_opened(node);
    tree::lemma_by_size(kids);
    assert forall|i: int| 0 <= i < whole.kids.len() implies open_throughout(
        #[trigger] whole.kids[i],
    ) by {
        if whole.kids == tree::by_size(kids) {
            let k = tree::lemma_by_size_in(kids, i);
            assert(kids[k] == whole.kids[i]);
        } else {
            assert(whole.kids == kids);
        }
    }
}

/// Opening no levels changes nothing; opening one opens the directory itself and leaves its
/// entries as they are.
pub proof fn lemma_opened_to(node: Tree, levels: nat)
    ensures
        opened_to(node, 0) == node,
        node.dir && levels > 0 ==> opened_to(node, levels).expanded,
        opened_to(node, levels).name == node.name,
        opened_to(node, levels).size == node.size,
        levels == 1 ==> opened_to(node, levels).kids == tree::opened(node, true).kids,
{
    reveal_with_fuel(opened_to, 2);
    if levels == 1 {
        assert(opened_to(node, levels).kids =~= tree::opened(node, true).kids);
    }
}

/// A number follows its option; a path is taken as one, and of several the last.
pub proof fn lemma_planned(plan: Plan, n: nat, path: Seq<char>)
    requires
        n <= usize::MAX,
        path.len() > 0,
        path[0] != '-',
    ensures
        plan.expected == Expected::Runs ==> planned(plan, text::decimal(n)) == (
            Plan { runs: n, expected: Expected::Anything, ..plan },
            BenchStep::Continue,
        ),
        plan.expected == Expected::Warmup ==> planned(plan, text::decimal(n)) == (
            Plan { warmup: n, expected: Expected::Anything, ..plan },
            BenchStep::Continue,
        ),
        plan.expected == Expected::Anything ==> {
            &&& planned(plan, path) == (Plan { path: Some(path), ..plan }, BenchStep::Continue)
            &&& planned(plan, "--runs"@).0.expected == Expected::Runs
            &&& planned(plan, "--warmup"@).0.expected == Expected::Warmup
            &&& planned(plan, "--json"@).0.json
            &&& planned(plan, "--no-startup"@).0.skip_startup
        },
{
    lemma_count_reads(n);
    reveal_strlit("--runs");
    reveal_strlit("--warmup");
    reveal_strlit("--no-startup");
    reveal_strlit("--json");
    reveal_strlit("-h");
    reveal_strlit("--help");
    reveal_strlit("-");
    assert("--runs"@[0] == '-' && "--warmup"@[0] == '-' && "--no-startup"@[0] == '-');
    assert("--json"@[0] == '-' && "-h"@[0] == '-' && "--help"@[0] == '-');
    assert("--runs"@[2] == 'r' && "--warmup"@[2] == 'w' && "--no-startup"@[2] == 'n');
    assert("--json"@[2] == 'j');
    if text::has_prefix(path, "-"@) {
        assert(path.take(1)[0] == '-');
    }
}

} // verus!
