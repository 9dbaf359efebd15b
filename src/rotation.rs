//! The rotation model of the router: links are named by identifiers, kept in
//! the order they were added, and a send walks them from one past the cursor.
use vstd::prelude::*;

verus! {

/// Where a send starts: one past the cursor, wrapped to the front at the end.
pub open spec fn start_of(cursor: int, len: int) -> int {
    if cursor + 1 >= len {
        0
    } else {
        cursor + 1
    }
}

/// Where the cursor stands after `k` refusals on a walk that started at `s`
/// over `len` links: at `s` until the walk passes the end, at the front after.
pub open spec fn landing(len: int, s: int, k: int) -> int {
    if s + k < len {
        s
    } else {
        0
    }
}

/// The links left once the first `k` links in rotation order from `s` were
/// pruned; the others keep their order.
pub open spec fn pruned(links: Seq<nat>, s: int, k: int) -> Seq<nat> {
    if s + k <= links.len() {
        links.subrange(0, s) + links.subrange(s + k, links.len() as int)
    } else {
        links.subrange(s + k - links.len(), s)
    }
}

/// The link that receives the value after the first `k` in rotation order refused it.
pub open spec fn target(links: Seq<nat>, s: int, k: int) -> nat {
    links[(s + k) % (links.len() as int)]
}

/// Identifiers that strictly increase along the collection: links keep the
/// order in which they were added, and none appears twice.
pub open spec fn ascending(links: Seq<nat>) -> bool {
    forall|i: int, j: int| 0 <= i < j < links.len() ==> links[i] < links[j]
}

/// After `k` refusals the link under the cursor is the one the walk reached.
pub proof fn lemma_landing_is_target(links: Seq<nat>, s: int, k: int)
    requires
        0 <= s < links.len(),
        0 <= k < links.len(),
    ensures
        pruned(links, s, k).len() == links.len() - k,
        0 <= landing(links.len() as int, s, k) < pruned(links, s, k).len(),
        pruned(links, s, k)[landing(links.len() as int, s, k)] == target(links, s, k),
{
    lemma_wrap_once(s + k, links.len() as int);
}

/// A position less than two laps from the front wraps at most once.
pub proof fn lemma_wrap_once(x: int, n: int)
    requires
        0 <= x < 2 * n,
    ensures
        x % n == if x < n {
            x
        } else {
            x - n
        },
{
    if x < n {
        vstd::arithmetic::div_mod::lemma_small_mod(x as nat, n as nat);
    } else {
        vstd::arithmetic::div_mod::lemma_mod_add_multiples_vanish(x - n, n);
        vstd::arithmetic::div_mod::lemma_small_mod((x - n) as nat, n as nat);
    }
}

/// Pruning the link under the cursor is one more refusal in the walk.
pub proof fn lemma_prune_step(links: Seq<nat>, s: int, k: int)
    requires
        0 <= s < links.len(),
        0 <= k < links.len(),
    ensures
        pruned(links, s, k).remove(landing(links.len() as int, s, k)) == pruned(links, s, k + 1),
{
    let n = links.len() as int;
    let a = pruned(links, s, k).remove(landing(n, s, k));
    let b = pruned(links, s, k + 1);
    assert(a =~= b);
}

/// Pruning keeps the links in order: what is left is still ascending, and
/// every link left was there before.
pub proof fn lemma_pruned_within(links: Seq<nat>, s: int, k: int)
    requires
        0 <= s < links.len(),
        0 <= k <= links.len(),
    ensures
        ascending(links) ==> ascending(pruned(links, s, k)),
        forall|x: nat| pruned(links, s, k).contains(x) ==> links.contains(x),
{
    let p = pruned(links, s, k);
    let n = links.len() as int;
    assert forall|x: nat| p.contains(x) implies links.contains(x) by {
        let i = choose|i: int| 0 <= i < p.len() && p[i] == x;
        if s + k <= n {
            if i < s {
                assert(links[i] == x);
            } else {
                assert(links[i - s + s + k] == x);
            }
        } else {
            assert(links[i + s + k - n] == x);
        }
    }
}

} // verus!
