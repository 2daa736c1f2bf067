//! Facts about instantaneous paths: how walks compose, and how long a walk
//! can be in a network without combinational cycles.

use vstd::prelude::*;
use vstd::seq_lib::*;
use vstd::set_lib::*;
use crate::model::{Node, has_cycle, on_cycle, sound, successor, walk, wired};

verus! {

/// A walk of `a + b` hops is a walk of `a` hops followed by one of `b` hops.
pub proof fn lemma_walk_split(nodes: Seq<Node>, c: usize, a: nat, b: nat)
    ensures
        walk(nodes, c, a + b) == match walk(nodes, c, a) {
            Some(m) => walk(nodes, m, b),
            None => None,
        },
    decreases a,
{
    if a > 0 {
        match successor(nodes, c) {
            Some(t) => {
                lemma_walk_split(nodes, t, (a - 1) as nat, b);
                assert(walk(nodes, c, a + b) == walk(nodes, t, (a + b - 1) as nat));
            },
            None => {},
        }
    }
}

/// A walk that exists for `b` hops exists for every shorter length too.
pub proof fn lemma_walk_prefix(nodes: Seq<Node>, c: usize, a: nat, b: nat)
    requires
        a <= b,
        walk(nodes, c, b) is Some,
    ensures
        walk(nodes, c, a) is Some,
{
    lemma_walk_split(nodes, c, a, (b - a) as nat);
}

/// In a wired network a walk from a component stays among the components.
pub proof fn lemma_walk_in_range(nodes: Seq<Node>, c: usize, steps: nat)
    requires
        wired(nodes),
        c < nodes.len(),
    ensures
        walk(nodes, c, steps) matches Some(m) ==> m < nodes.len(),
    decreases steps,
{
    if steps > 0 {
        match successor(nodes, c) {
            Some(t) => {
                assert(sound(nodes, c as int));
                lemma_walk_in_range(nodes, t, (steps - 1) as nat);
            },
            None => {},
        }
    }
}

/// Among more than `bound` numbers below `bound`, two are equal.
pub proof fn lemma_pigeonhole(s: Seq<int>, bound: nat) -> (pair: (int, int))
    requires
        s.len() > bound,
        forall|i: int| 0 <= i < s.len() ==> 0 <= #[trigger] s[i] < bound,
    ensures
        0 <= pair.0 < pair.1 < s.len(),
        s[pair.0] == s[pair.1],
{
    if s.no_duplicates() {
        s.unique_seq_to_set();
        lemma_int_range(0, bound as int);
        assert(s.to_set().subset_of(set_int_range(0, bound as int))) by {
            assert forall|x: int| s.to_set().contains(x) implies set_int_range(
                0,
                bound as int,
            ).contains(x) by {
                let i = choose|i: int| 0 <= i < s.len() && s[i] == x;
                assert(0 <= s[i] < bound);
            }
        }
        lemma_len_subset(s.to_set(), set_int_range(0, bound as int));
        assert(false);
    }
    let (i, j) = choose|i: int, j: int|
        0 <= i < s.len() && 0 <= j < s.len() && i != j && s[i] == s[j];
    if i < j {
        (i, j)
    } else {
        (j, i)
    }
}

/// Without a combinational cycle, no walk takes as many hops as there are
/// components.
pub proof fn lemma_walk_bounded(nodes: Seq<Node>, c: usize, steps: nat)
    requires
        wired(nodes),
        !has_cycle(nodes),
        c < nodes.len(),
        walk(nodes, c, steps) is Some,
    ensures
        steps < nodes.len(),
{
    if steps >= nodes.len() {
        let s = Seq::new(steps + 1, |j: int| walk(nodes, c, j as nat)->0 as int);
        assert forall|j: int| 0 <= j < s.len() implies 0 <= #[trigger] s[j] < nodes.len() by {
            lemma_walk_prefix(nodes, c, j as nat, steps);
            lemma_walk_in_range(nodes, c, j as nat);
        }
        let (i, j) = lemma_pigeonhole(s, nodes.len());
        lemma_walk_prefix(nodes, c, i as nat, steps);
        lemma_walk_prefix(nodes, c, j as nat, steps);
        lemma_walk_in_range(nodes, c, i as nat);
        let m = walk(nodes, c, i as nat)->0;
        lemma_walk_split(nodes, c, i as nat, (j - i) as nat);
        assert(walk(nodes, m, (j - i) as nat) == Some(m));
        assert(on_cycle(nodes, m));
    }
}

/// The number of combinational components on the path that starts at `c`,
/// counted up to `fuel`.
pub open spec fn reach(nodes: Seq<Node>, c: usize, fuel: nat) -> nat
    decreases fuel,
{
    if fuel == 0 || c >= nodes.len() || !nodes[c as int].combinational() {
        0
    } else {
        1 + match nodes[c as int].wire {
            Some(w) => reach(nodes, w.target, (fuel - 1) as nat),
            None => 0,
        }
    }
}

/// The length of the combinational path that starts at `c`: the number of
/// `Not` and `Or` components that a change in `c` can disturb in one instant,
/// `c` included.  It is 0 for a `Delay`.
#[verifier::opaque]
pub open spec fn height(nodes: Seq<Node>, c: usize) -> nat {
    reach(nodes, c, nodes.len())
}

/// The count never exceeds the fuel.
pub proof fn lemma_reach_le_fuel(nodes: Seq<Node>, c: usize, fuel: nat)
    ensures
        reach(nodes, c, fuel) <= fuel,
    decreases fuel,
{
    if fuel > 0 && c < nodes.len() && nodes[c as int].combinational() {
        if let Some(w) = nodes[c as int].wire {
            lemma_reach_le_fuel(nodes, w.target, (fuel - 1) as nat);
        }
    }
}

/// More fuel never counts fewer components, and counts no more once the path
/// has ended before the fuel ran out.
pub proof fn lemma_reach_more_fuel(nodes: Seq<Node>, c: usize, fuel: nat)
    ensures
        reach(nodes, c, fuel) <= reach(nodes, c, fuel + 1),
        reach(nodes, c, fuel) < fuel ==> reach(nodes, c, fuel + 1) == reach(nodes, c, fuel),
    decreases fuel,
{
    if fuel > 0 && c < nodes.len() && nodes[c as int].combinational() {
        if let Some(w) = nodes[c as int].wire {
            lemma_reach_more_fuel(nodes, w.target, (fuel - 1) as nat);
        }
    }
}

/// Where the count uses up the fuel, the path has that many components.
pub proof fn lemma_reach_walk(nodes: Seq<Node>, c: usize, fuel: nat)
    requires
        fuel > 0,
        reach(nodes, c, fuel) == fuel,
    ensures
        walk(nodes, c, (fuel - 1) as nat) is Some,
    decreases fuel,
{
    if fuel > 1 {
        let w = nodes[c as int].wire->0;
        lemma_reach_le_fuel(nodes, w.target, (fuel - 1) as nat);
        lemma_reach_walk(nodes, w.target, (fuel - 1) as nat);
        assert(successor(nodes, c) == Some(w.target));
    }
}

/// Every component has a height of at most the number of components, and a
/// combinational one of at least 1.
pub proof fn lemma_height_bounds(nodes: Seq<Node>, c: usize)
    ensures
        height(nodes, c) <= nodes.len(),
        c < nodes.len() && nodes[c as int].combinational() ==> height(nodes, c) >= 1,
        c < nodes.len() && !nodes[c as int].combinational() ==> height(nodes, c) == 0,
{
    reveal(height);
    lemma_reach_le_fuel(nodes, c, nodes.len());
}

/// Without a combinational cycle, the component that a combinational
/// component drives is strictly lower than its driver.
pub proof fn lemma_height_descends(nodes: Seq<Node>, c: usize)
    requires
        wired(nodes),
        !has_cycle(nodes),
        successor(nodes, c) is Some,
    ensures
        height(nodes, successor(nodes, c)->0) < height(nodes, c),
{
    reveal(height);
    let n = nodes.len();
    let t = successor(nodes, c)->0;
    assert(nodes[c as int].wire is Some);
    let less = (n - 1) as nat;
    assert(height(nodes, c) == 1 + reach(nodes, t, less));
    lemma_reach_le_fuel(nodes, t, n);
    lemma_reach_le_fuel(nodes, t, less);
    lemma_reach_more_fuel(nodes, t, less);
    if reach(nodes, t, n) == n {
        lemma_reach_walk(nodes, t, n);
        lemma_walk_split(nodes, c, 1, less);
        assert(walk(nodes, c, 1) == Some(t)) by {
            assert(walk(nodes, t, 0) == Some(t));
        }
        assert(walk(nodes, c, n) is Some);
        lemma_walk_bounded(nodes, c, n);
    }
}

} // verus!
