//! Prefixes of sequences: the longest run of a kind, and the longest
//! common prefix of two sequences.

use vstd::prelude::*;

verus! {

/// Length of the longest prefix of `items` whose members all satisfy `p`.
pub open spec fn run<A>(items: Seq<A>, p: spec_fn(A) -> bool) -> nat
    decreases items.len(),
{
    if items.len() > 0 && p(items[0]) {
        1 + run(items.skip(1), p)
    } else {
        0
    }
}

/// Length of the longest common prefix of `a` and `b`.
pub open spec fn common_prefix<A>(a: Seq<A>, b: Seq<A>) -> nat
    decreases a.len(),
{
    if a.len() > 0 && b.len() > 0 && a[0] == b[0] {
        1 + common_prefix(a.skip(1), b.skip(1))
    } else {
        0
    }
}

/// A prefix of length `k` is the run of `p` when all its members satisfy `p`
/// and the one behind it, if any, does not.
pub proof fn lemma_run_is<A>(items: Seq<A>, p: spec_fn(A) -> bool, k: nat)
    requires
        k <= items.len(),
        forall|i: int| 0 <= i < k ==> p(#[trigger] items[i]),
        k < items.len() ==> !p(items[k as int]),
    ensures
        run(items, p) == k,
    decreases k,
{
    if k > 0 {
        let rest = items.skip(1);
        assert forall|i: int| 0 <= i < k - 1 implies p(#[trigger] rest[i]) by {
            assert(rest[i] == items[i + 1]);
        }
        lemma_run_is(rest, p, (k - 1) as nat);
    }
}

/// What `run` returns: its members satisfy `p`, the one behind them does not.
pub proof fn lemma_run_props<A>(items: Seq<A>, p: spec_fn(A) -> bool)
    ensures
        run(items, p) <= items.len(),
        forall|i: int| 0 <= i < run(items, p) ==> p(#[trigger] items[i]),
        run(items, p) < items.len() ==> !p(items[run(items, p) as int]),
    decreases items.len(),
{
    if items.len() > 0 && p(items[0]) {
        let rest = items.skip(1);
        lemma_run_props(rest, p);
        assert forall|i: int| 0 <= i < run(items, p) implies p(#[trigger] items[i]) by {
            if i > 0 {
                assert(items[i] == rest[i - 1]);
            }
        }
    }
}

/// A length `k` is the common prefix of `a` and `b` when they agree on
/// their first `k` members and differ behind them or one of them ends.
pub proof fn lemma_common_prefix_is<A>(a: Seq<A>, b: Seq<A>, k: nat)
    requires
        k <= a.len(),
        k <= b.len(),
        forall|i: int| 0 <= i < k ==> a[i] == b[i],
        k < a.len() && k < b.len() ==> a[k as int] != b[k as int],
    ensures
        common_prefix(a, b) == k,
    decreases k,
{
    if k > 0 {
        lemma_common_prefix_is(a.skip(1), b.skip(1), (k - 1) as nat);
    }
}

} // verus!
