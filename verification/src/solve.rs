//! The solve loop: drives the move finder and the flip operator against the
//! completeness oracle until the stack is complete.
//!
//! Each step first tries the cheap single joining move; only when none
//! exists does it fall back to the double move, scanning in the caller-held
//! search direction and toggling that direction afterwards so consecutive
//! fallbacks alternate. A fallback scan that finds nothing while the stack
//! is incomplete is a broken invariant and surfaces as a distinguishable
//! fault rather than being swallowed.

use vstd::prelude::*;
use crate::stack::SliceStack;
use crate::stack::StackError;
use crate::stack::spec_flip;
use crate::stack::ss_flip;
use crate::oracle::spec_is_complete;
use crate::oracle::spec_fragmentation;
use crate::oracle::lemma_fragmentation_concat;
use crate::oracle::lemma_fragmentation_reverse;
use crate::oracle::ss_iscomplete;
use crate::moves::is_left_join;
use crate::moves::is_right_join;
use crate::moves::is_forward_break;
use crate::moves::is_backward_break;
use crate::moves::is_first_left_join;
use crate::moves::is_last_right_join;
use crate::moves::is_first_forward_break;
use crate::moves::is_last_backward_break;
use crate::moves::first_left_join_index;
use crate::moves::last_right_join_index;
use crate::moves::first_forward_break_index;
use crate::moves::last_backward_break_index;
use crate::moves::lemma_scan_results_unique;
use crate::moves::ss_find_single_joining_move;
use crate::moves::ss_find_first_double_move;
use crate::moves::lemma_complete_iff_no_forward_break;
use crate::moves::lemma_backward_break_exists;

verus! {

/// The flip the solver applies when the first-priority left-edge joining
/// move sits at `i`: reverse the prefix ending just before `i`.
pub open spec fn left_join_flip(s: Seq<u8>, i: int) -> Seq<u8> {
    spec_flip(s, i - 1, -1)
}

/// The flip for a right-edge joining move at `i`: reverse the suffix
/// starting just after `i`.
pub open spec fn right_join_flip(s: Seq<u8>, i: int) -> Seq<u8> {
    spec_flip(s, i + 1, 1)
}

/// The stack after one solver step: unchanged when complete, otherwise the
/// flip of the move the step picks — the first left-edge joining move, else
/// the last right-edge joining move, else the fallback break in the given
/// search direction.
pub open spec fn solve_step_next(s: Seq<u8>, sd: int) -> Seq<u8> {
    if spec_is_complete(s) {
        s
    } else if exists|i: int| is_left_join(s, i) {
        left_join_flip(s, first_left_join_index(s))
    } else if exists|i: int| is_right_join(s, i) {
        right_join_flip(s, last_right_join_index(s))
    } else if sd <= 0 {
        spec_flip(s, first_forward_break_index(s), 1)
    } else {
        spec_flip(s, last_backward_break_index(s), -1)
    }
}

/// The search direction after one solver step: toggled exactly when the
/// step fell back to a double move.
pub open spec fn solve_step_next_dir(s: Seq<u8>, sd: int) -> int {
    if spec_is_complete(s) || (exists|i: int| is_left_join(s, i)) || (exists|i: int|
    is_right_join(s, i)) {
        sd
    } else if sd <= 0 {
        1
    } else {
        0
    }
}

/// Stack and search direction after `n` solver steps.
pub open spec fn solve_run(s: Seq<u8>, sd: int, n: nat) -> (Seq<u8>, int)
    decreases n,
{
    if n == 0 {
        (s, sd)
    } else {
        (
            solve_step_next(solve_run(s, sd, (n - 1) as nat).0, solve_run(s, sd, (n - 1) as nat).1),
            solve_step_next_dir(
                solve_run(s, sd, (n - 1) as nat).0,
                solve_run(s, sd, (n - 1) as nat).1,
            ),
        )
    }
}

/// The first left-edge joining move merges the relocated slice into the
/// left run: fragmentation drops by exactly one.
pub proof fn lemma_left_join_flip_reduces_fragmentation(s: Seq<u8>, i: int)
    requires
        is_left_join(s, i),
        forall|k: int| 0 <= k < i ==> !is_left_join(s, k),
    ensures
        spec_fragmentation(left_join_flip(s, i)) == spec_fragmentation(s) - 1,
{
    let a = s.take(i);
    let b = s.skip(i);
    assert(i >= 2) by {
        let j = choose|j: int| #![trigger s[j]] 0 <= j < i && s[j] != s[0];
        assert(j >= 1);
    }
    assert(s[i - 1] != s[0]) by {
        if s[i - 1] == s[0] {
            let j = choose|j: int| #![trigger s[j]] 0 <= j < i && s[j] != s[0];
            assert(j != i - 1);
            assert(is_left_join(s, i - 1));
        }
    }
    assert(a + b =~= s);
    lemma_fragmentation_concat(a, b);
    lemma_fragmentation_concat(a.reverse(), b);
    lemma_fragmentation_reverse(a);
    assert(a.last() == s[i - 1] && b.first() == s[i] && a.reverse().last() == s[0]);
}

/// The last right-edge joining move merges the relocated slice into the
/// right run: fragmentation drops by exactly one.
pub proof fn lemma_right_join_flip_reduces_fragmentation(s: Seq<u8>, i: int)
    requires
        is_right_join(s, i),
        forall|k: int| i < k < s.len() - 1 ==> !is_right_join(s, k),
    ensures
        spec_fragmentation(right_join_flip(s, i)) == spec_fragmentation(s) - 1,
{
    let a = s.take(i + 1);
    let b = s.skip(i + 1);
    let last = s.len() - 1;
    assert(i < s.len() - 2) by {
        let j = choose|j: int| #![trigger s[j]] i < j < s.len() - 1 && s[j] != s[last];
    }
    assert(s[i + 1] != s[last]) by {
        if s[i + 1] == s[last] {
            let j = choose|j: int| #![trigger s[j]] i < j < s.len() - 1 && s[j] != s[last];
            assert(j != i + 1);
            assert(is_right_join(s, i + 1));
        }
    }
    assert(a + b =~= s);
    lemma_fragmentation_concat(a, b);
    lemma_fragmentation_concat(a, b.reverse());
    lemma_fragmentation_reverse(b);
    assert(a.last() == s[i] && b.first() == s[i + 1] && b.reverse().first() == s[last]);
}

/// The fallback move found by a forward scan reverses the suffix at a run
/// boundary: fragmentation never grows, and shrinks by at most one.
pub proof fn lemma_forward_break_flip_bounds_fragmentation(s: Seq<u8>, v: int)
    requires
        is_forward_break(s, v),
    ensures
        spec_fragmentation(s) - 1 <= spec_fragmentation(spec_flip(s, v, 1)) <= spec_fragmentation(
            s,
        ),
{
    let a = s.take(v);
    let b = s.skip(v);
    assert(a + b =~= s);
    lemma_fragmentation_concat(a, b);
    lemma_fragmentation_concat(a, b.reverse());
    lemma_fragmentation_reverse(b);
    assert(a.last() == s[v - 1] && b.first() == s[v] && b.reverse().first() == s[s.len() - 1]);
}

/// The fallback move found by a backward scan reverses the prefix at a run
/// boundary: fragmentation never grows, and shrinks by at most one.
pub proof fn lemma_backward_break_flip_bounds_fragmentation(s: Seq<u8>, v: int)
    requires
        is_backward_break(s, v),
    ensures
        spec_fragmentation(s) - 1 <= spec_fragmentation(spec_flip(s, v, -1)) <= spec_fragmentation(
            s,
        ),
{
    let a = s.take(v + 1);
    let b = s.skip(v + 1);
    assert(a + b =~= s);
    lemma_fragmentation_concat(a, b);
    lemma_fragmentation_concat(a.reverse(), b);
    lemma_fragmentation_reverse(a);
    assert(a.last() == s[v] && b.first() == s[v + 1] && a.reverse().last() == s[0]);
}

/// Performs one solver step: nothing on a complete stack, otherwise exactly
/// one flip, returning whether the stack is complete afterwards. The
/// first-found left-edge joining move takes priority, then the last-found
/// right-edge joining move, then the fallback double move in the caller's
/// search direction, which also toggles `search_dir`. A joining move cuts
/// fragmentation by exactly one and a fallback move never raises it. The
/// fallback scan provably always finds a move on an incomplete stack that
/// offers no joining move, whatever the nominal color limit, so the step
/// needs no fault path.
pub fn ss_solve_step(ss: &mut SliceStack, search_dir: &mut i32) -> (done: bool)
    requires
        old(ss).wf(),
    ensures
        final(ss).wf(),
        final(ss).count == old(ss).count,
        final(ss).color_count == old(ss).color_count,
        final(ss)@.to_multiset() == old(ss)@.to_multiset(),
        done == spec_is_complete(final(ss)@),
        final(ss)@ == solve_step_next(old(ss)@, *old(search_dir) as int),
        *final(search_dir) as int == solve_step_next_dir(old(ss)@, *old(search_dir) as int),
        !spec_is_complete(old(ss)@) ==> spec_fragmentation(final(ss)@) <= spec_fragmentation(
            old(ss)@,
        ),
        !spec_is_complete(old(ss)@) && ((exists|i: int| is_left_join(old(ss)@, i)) || (exists|i: int|
            is_right_join(old(ss)@, i))) ==> spec_fragmentation(final(ss)@) == spec_fragmentation(
            old(ss)@,
        ) - 1,
        spec_is_complete(old(ss)@) ==> ({
            &&& done
            &&& *final(ss) == *old(ss)
            &&& *final(search_dir) == *old(search_dir)
        }),
        !spec_is_complete(old(ss)@) ==> ({
            let s = old(ss)@;
            &&& (exists|i: int| is_left_join(s, i)) ==> ({
                &&& (exists|i: int|
                    {
                        &&& is_left_join(s, i)
                        &&& forall|k: int| 0 <= k < i ==> !is_left_join(s, k)
                        &&& final(ss)@ == left_join_flip(s, i)
                    })
                &&& *final(search_dir) == *old(search_dir)
            })
            &&& (!(exists|i: int| is_left_join(s, i)) && (exists|i: int| is_right_join(s, i)))
                ==> ({
                &&& (exists|i: int|
                    {
                        &&& is_right_join(s, i)
                        &&& forall|k: int| i < k < s.len() - 1 ==> !is_right_join(s, k)
                        &&& final(ss)@ == right_join_flip(s, i)
                    })
                &&& *final(search_dir) == *old(search_dir)
            })
            &&& (!(exists|i: int| is_left_join(s, i)) && !(exists|i: int| is_right_join(s, i))
                && *old(search_dir) <= 0) ==> ({
                &&& (exists|v: int|
                    {
                        &&& is_forward_break(s, v)
                        &&& forall|k: int| 1 <= k < v ==> !is_forward_break(s, k)
                        &&& final(ss)@ == spec_flip(s, v, 1)
                    })
                &&& *final(search_dir) == 1
            })
            &&& (!(exists|i: int| is_left_join(s, i)) && !(exists|i: int| is_right_join(s, i))
                && *old(search_dir) > 0) ==> ({
                &&& (exists|v: int|
                    {
                        &&& is_backward_break(s, v)
                        &&& forall|k: int| v < k <= s.len() - 2 ==> !is_backward_break(s, k)
                        &&& final(ss)@ == spec_flip(s, v, -1)
                    })
                &&& *final(search_dir) == 0
            })
        }),
{
    if ss_iscomplete(ss) {
        return true;
    }
    proof {
        assert(ss@.len() >= 1);
    }
    let mut direction: i32 = 0;
    let index = ss_find_single_joining_move(ss, &mut direction);
    if index >= 0 {
        if direction == 0 {
            proof {
                assert(is_left_join(ss@, index as int));
                assert(index >= 2);
            }
            ss_flip(ss, (index - 1) as usize, -1);
            proof {
                lemma_left_join_flip_reduces_fragmentation(old(ss)@, index as int);
                assert(is_first_left_join(old(ss)@, index as int));
                lemma_scan_results_unique(old(ss)@, first_left_join_index(old(ss)@), index as int);
            }
        } else {
            ss_flip(ss, (index + 1) as usize, 1);
            proof {
                lemma_right_join_flip_reduces_fragmentation(old(ss)@, index as int);
                assert(is_last_right_join(old(ss)@, index as int));
                lemma_scan_results_unique(old(ss)@, last_right_join_index(old(ss)@), index as int);
            }
        }
        return ss_iscomplete(ss);
    }
    let sd = *search_dir;
    proof {
        lemma_complete_iff_no_forward_break(ss@);
        if sd > 0 {
            lemma_backward_break_exists(ss@);
        }
    }
    let index2 = ss_find_first_double_move(ss, sd, &mut direction);
    proof {
        assert(index2 >= 0);
    }
    *search_dir = if sd <= 0 {
        1
    } else {
        0
    };
    if direction == 0 {
        ss_flip(ss, (index2 - 1) as usize, -1);
        proof {
            lemma_backward_break_flip_bounds_fragmentation(old(ss)@, index2 - 1);
            assert(is_last_backward_break(old(ss)@, index2 - 1));
            lemma_scan_results_unique(old(ss)@, last_backward_break_index(old(ss)@), index2 - 1);
        }
    } else {
        ss_flip(ss, (index2 + 1) as usize, 1);
        proof {
            lemma_forward_break_flip_bounds_fragmentation(old(ss)@, index2 + 1);
            assert(is_first_forward_break(old(ss)@, index2 + 1));
            lemma_scan_results_unique(old(ss)@, first_forward_break_index(old(ss)@), index2 + 1);
        }
    }
    ss_iscomplete(ss)
}

/// Runs solver steps until the stack is complete, alternating the fallback
/// search direction from an initial forward scan, and returns how many
/// flips were applied: the least `n` with `solve_run` complete after `n`
/// steps. The multiset of colors is preserved throughout, and fragmentation
/// never increases: a joining move reduces it by one and a fallback move
/// leaves it at worst unchanged (see the lemmas above). Fails with
/// `InvariantViolation` only when the stack is still incomplete after
/// `max_iters` genuine solver steps.
pub fn ss_solve(ss: &mut SliceStack, max_iters: u32) -> (r: Result<u32, StackError>)
    requires
        old(ss).wf(),
    ensures
        final(ss).wf(),
        final(ss).count == old(ss).count,
        final(ss).color_count == old(ss).color_count,
        final(ss)@.to_multiset() == old(ss)@.to_multiset(),
        spec_fragmentation(final(ss)@) <= spec_fragmentation(old(ss)@),
        spec_is_complete(old(ss)@) ==> r == Ok::<u32, StackError>(0u32) && *final(ss) == *old(ss),
        r is Ok ==> ({
            &&& r->Ok_0 <= max_iters
            &&& final(ss)@ == solve_run(old(ss)@, 0, r->Ok_0 as nat).0
            &&& spec_is_complete(final(ss)@)
            &&& forall|k: nat|
                k < r->Ok_0 ==> !spec_is_complete(#[trigger] solve_run(old(ss)@, 0, k).0)
        }),
        r is Err ==> ({
            &&& r == Err::<u32, StackError>(StackError::InvariantViolation)
            &&& final(ss)@ == solve_run(old(ss)@, 0, max_iters as nat).0
            &&& forall|k: nat|
                k <= max_iters ==> !spec_is_complete(#[trigger] solve_run(old(ss)@, 0, k).0)
        }),
{
    let mut iters: u32 = 0;
    let mut search_dir: i32 = 0;
    while iters < max_iters
        invariant
            ss.wf(),
            ss.count == old(ss).count,
            ss.color_count == old(ss).color_count,
            ss@.to_multiset() == old(ss)@.to_multiset(),
            iters <= max_iters,
            iters == 0 ==> *ss == *old(ss),
            spec_is_complete(old(ss)@) ==> iters == 0,
            spec_fragmentation(ss@) <= spec_fragmentation(old(ss)@),
            ss@ == solve_run(old(ss)@, 0, iters as nat).0,
            search_dir as int == solve_run(old(ss)@, 0, iters as nat).1,
            forall|k: nat| k < iters ==> !spec_is_complete(#[trigger] solve_run(old(ss)@, 0, k).0),
        decreases max_iters - iters,
    {
        if ss_iscomplete(ss) {
            return Ok(iters);
        }
        let done = ss_solve_step(ss, &mut search_dir);
        proof {
            assert(solve_run(old(ss)@, 0, (iters + 1) as nat).0 == solve_step_next(
                solve_run(old(ss)@, 0, iters as nat).0,
                solve_run(old(ss)@, 0, iters as nat).1,
            ));
        }
        iters = iters + 1;
        if done {
            return Ok(iters);
        }
    }
    if ss_iscomplete(ss) {
        return Ok(iters);
    }
    Err(StackError::InvariantViolation)
}

} // verus!
