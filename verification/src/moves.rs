//! The move finder: heuristics that pick where to flip next.
//!
//! The cheap tier looks for a single joining move: one slice that a single
//! flip relocates so that it extends the run at an edge. The fallback tier
//! scans for the first position where a color starts a second, non-adjacent
//! run, and proposes the flip that carries that fragment toward its matching
//! run. A returned index comes with a direction code: 0 asks the caller to
//! flip the prefix toward the left edge, 1 the suffix toward the right edge.

use vstd::prelude::*;
use crate::stack::SliceStack;
use crate::oracle::spec_is_complete;

verus! {

/// Witness for a left-edge joining move: slice `i` matches the leftmost
/// color, and a slice before it differs from it, so reversing the prefix
/// ending just before `i` makes `i` extend the left run.
pub open spec fn is_left_join(s: Seq<u8>, i: int) -> bool {
    &&& 0 <= i < s.len()
    &&& s[i] == s[0]
    &&& exists|j: int| #![trigger s[j]] 0 <= j < i && s[j] != s[0]
}

/// Witness for a right-edge joining move: slice `i` matches the rightmost
/// color, and a slice between it and the right edge differs from it.
pub open spec fn is_right_join(s: Seq<u8>, i: int) -> bool {
    &&& 0 <= i < s.len() - 1
    &&& s[i] == s[s.len() - 1]
    &&& exists|j: int| #![trigger s[j]] i < j < s.len() - 1 && s[j] != s[s.len() - 1]
}

/// Witness for the fallback move found by a forward scan: slice `i` starts a
/// new run of a color that already occurred earlier, so that color holds two
/// non-adjacent runs.
pub open spec fn is_forward_break(s: Seq<u8>, i: int) -> bool {
    &&& 1 <= i < s.len()
    &&& s[i] != s[i - 1]
    &&& exists|j: int| #![trigger s[j]] 0 <= j < i && s[j] == s[i]
}

/// Witness for the fallback move found by a backward scan, which walks from
/// the second-to-last slice down: slice `i` ends a run of a color that
/// occurs again among the scanned slices after it.
pub open spec fn is_backward_break(s: Seq<u8>, i: int) -> bool {
    &&& 1 <= i <= s.len() - 2
    &&& s[i] != s[i + 1]
    &&& exists|j: int| #![trigger s[j]] i < j <= s.len() - 2 && s[j] == s[i]
}

/// The first left-edge joining move: the scan's result when one exists.
pub open spec fn is_first_left_join(s: Seq<u8>, i: int) -> bool {
    is_left_join(s, i) && forall|k: int| 0 <= k < i ==> !is_left_join(s, k)
}

/// The last right-edge joining move: the scan's result when one exists.
pub open spec fn is_last_right_join(s: Seq<u8>, i: int) -> bool {
    is_right_join(s, i) && forall|k: int| i < k < s.len() - 1 ==> !is_right_join(s, k)
}

/// The first break a forward scan meets.
pub open spec fn is_first_forward_break(s: Seq<u8>, v: int) -> bool {
    is_forward_break(s, v) && forall|k: int| 1 <= k < v ==> !is_forward_break(s, k)
}

/// The last break, the first a backward scan meets.
pub open spec fn is_last_backward_break(s: Seq<u8>, v: int) -> bool {
    is_backward_break(s, v) && forall|k: int| v < k <= s.len() - 2 ==> !is_backward_break(s, k)
}

/// The index of the first left-edge joining move, where one exists.
pub open spec fn first_left_join_index(s: Seq<u8>) -> int {
    choose|i: int| is_first_left_join(s, i)
}

/// The index of the last right-edge joining move, where one exists.
pub open spec fn last_right_join_index(s: Seq<u8>) -> int {
    choose|i: int| is_last_right_join(s, i)
}

/// The index of the first forward break, where one exists.
pub open spec fn first_forward_break_index(s: Seq<u8>) -> int {
    choose|v: int| is_first_forward_break(s, v)
}

/// The index of the last backward break, where one exists.
pub open spec fn last_backward_break_index(s: Seq<u8>) -> int {
    choose|v: int| is_last_backward_break(s, v)
}

/// Each of the four scan results is unique: a first (or last) witness index
/// is pinned, so the named index functions agree with any witness.
pub proof fn lemma_scan_results_unique(s: Seq<u8>, i: int, j: int)
    ensures
        is_first_left_join(s, i) && is_first_left_join(s, j) ==> i == j,
        is_last_right_join(s, i) && is_last_right_join(s, j) ==> i == j,
        is_first_forward_break(s, i) && is_first_forward_break(s, j) ==> i == j,
        is_last_backward_break(s, i) && is_last_backward_break(s, j) ==> i == j,
{
}

/// Looks for one slice that a single flip can relocate to extend an edge
/// run. The left edge is tried first and takes priority; on success the
/// returned index is the first (for the left edge) or last (for the right
/// edge) such slice and `direction` codes the edge. Returns -1, leaving
/// `direction` untouched, exactly when no such slice exists on either edge.
pub fn ss_find_single_joining_move(ss: &SliceStack, direction: &mut i32) -> (r: i32)
    requires
        ss.wf(),
        ss.count >= 1,
    ensures
        (exists|i: int| is_left_join(ss@, i)) ==> ({
            &&& *final(direction) == 0
            &&& is_left_join(ss@, r as int)
            &&& forall|k: int| 0 <= k < r ==> !is_left_join(ss@, k)
        }),
        (!(exists|i: int| is_left_join(ss@, i)) && (exists|i: int| is_right_join(ss@, i))) ==> ({
            &&& *final(direction) == 1
            &&& is_right_join(ss@, r as int)
            &&& forall|k: int| r < k < ss@.len() - 1 ==> !is_right_join(ss@, k)
        }),
        (r == -1) <==> (!(exists|i: int| is_left_join(ss@, i)) && !(exists|i: int|
            is_right_join(ss@, i))),
        r == -1 ==> *final(direction) == *old(direction),
        r != -1 ==> 0 <= r < ss@.len(),
{
    let mut found_diff_type: bool = false;
    let outer_type = ss.slice_type[0];
    proof {
        assert(ss@[0] == ss.slice_type@[0]);
    }
    let mut i: usize = 0;
    while i < ss.count
        invariant
            ss.wf(),
            1 <= ss.count,
            i <= ss.count,
            outer_type == ss@[0],
            *direction == *old(direction),
            found_diff_type <==> exists|j: int| #![trigger ss@[j]] 0 <= j < i && ss@[j] != ss@[0],
            forall|k: int| 0 <= k < i ==> !is_left_join(ss@, k),
        decreases ss.count - i,
    {
        let t = ss.slice_type[i];
        proof {
            assert(ss@[i as int] == ss.slice_type@[i as int]);
        }
        if t == outer_type {
            if found_diff_type {
                *direction = 0;
                proof {
                    assert(is_left_join(ss@, i as int));
                }
                return i as i32;
            }
        } else {
            found_diff_type = true;
        }
        i = i + 1;
    }
    proof {
        assert forall|k: int| !is_left_join(ss@, k) by {
            if 0 <= k < ss@.len() {
                assert(!is_left_join(ss@, k));
            }
        }
    }
    found_diff_type = false;
    let right_type = ss.slice_type[ss.count - 1];
    proof {
        assert(ss@[ss.count - 1] == ss.slice_type@[ss.count - 1]);
    }
    let mut i2: usize = ss.count - 1;
    while i2 > 0
        invariant
            ss.wf(),
            1 <= ss.count,
            i2 <= ss.count - 1,
            right_type == ss@[ss.count - 1],
            *direction == *old(direction),
            forall|k: int| !is_left_join(ss@, k),
            found_diff_type <==> exists|j: int| #![trigger ss@[j]]
                i2 <= j <= ss.count - 2 && ss@[j] != ss@[ss.count - 1],
            forall|k: int| i2 <= k <= ss.count - 2 ==> !is_right_join(ss@, k),
        decreases i2,
    {
        i2 = i2 - 1;
        let t = ss.slice_type[i2];
        proof {
            assert(ss@[i2 as int] == ss.slice_type@[i2 as int]);
        }
        if t == right_type {
            if found_diff_type {
                *direction = 1;
                proof {
                    assert(is_right_join(ss@, i2 as int));
                }
                return i2 as i32;
            }
        } else {
            found_diff_type = true;
        }
    }
    proof {
        assert forall|k: int| !is_right_join(ss@, k) by {
            if 0 <= k < ss@.len() - 1 {
                assert(!is_right_join(ss@, k));
            }
        }
    }
    -1
}

/// Finds the fallback move: scanning forward from the start (for
/// `search_dir <= 0`) or backward from the second-to-last slice, it stops at
/// the first slice that resumes an already-seen color non-adjacently, and
/// proposes the flip that carries the intervening run toward that color. The
/// returned index is the position just before (forward) or just after
/// (backward) the breaking slice, with the opposite direction code.
///
/// A scan that finds nothing on an incomplete stack would be a broken
/// invariant, so such inputs are excluded: the forward scan always finds a
/// break on an incomplete stack ([`lemma_complete_iff_no_forward_break`]),
/// and a backward caller must bring one, which the solver discharges with
/// [`lemma_backward_break_exists`]. The recoverable -1, leaving `direction`
/// untouched, therefore comes exactly when the scan finds no break, and only
/// on a complete stack.
pub fn ss_find_first_double_move(ss: &SliceStack, search_dir: i32, direction: &mut i32) -> (r: i32)
    requires
        ss.wf(),
        ss.count >= 1,
        search_dir > 0 && !spec_is_complete(ss@) ==> exists|v: int| is_backward_break(ss@, v),
    ensures
        r == -1 ==> spec_is_complete(ss@),
        search_dir <= 0 ==> ({
            &&& (exists|v: int| is_forward_break(ss@, v)) ==> ({
                &&& *final(direction) == 1
                &&& is_forward_break(ss@, r + 1)
                &&& forall|k: int| 1 <= k < r + 1 ==> !is_forward_break(ss@, k)
                &&& 0 <= r < ss@.len() - 1
            })
            &&& (r == -1) <==> !(exists|v: int| is_forward_break(ss@, v))
        }),
        search_dir > 0 ==> ({
            &&& (exists|v: int| is_backward_break(ss@, v)) ==> ({
                &&& *final(direction) == 0
                &&& is_backward_break(ss@, r - 1)
                &&& forall|k: int| r - 1 < k <= ss@.len() - 2 ==> !is_backward_break(ss@, k)
                &&& 1 <= r <= ss@.len() - 1
            })
            &&& (r == -1) <==> !(exists|v: int| is_backward_break(ss@, v))
        }),
        r == -1 ==> *final(direction) == *old(direction),
{
    let mut c_index: Vec<u8> = Vec::new();
    while c_index.len() < 32
        invariant
            c_index@.len() <= 32,
            forall|k: int| 0 <= k < c_index@.len() ==> c_index@[k] == 0xFFu8,
        decreases 32 - c_index@.len(),
    {
        c_index.push(0xFF);
    }
    let mut last_type: u8 = 0xFF;

    if search_dir <= 0 {
        let mut i: usize = 0;
        while i < ss.count
            invariant
                ss.wf(),
                1 <= ss.count,
                search_dir <= 0,
                i <= ss.count,
                c_index@.len() == 32,
                *direction == *old(direction),
                i == 0 ==> last_type == 0xFF,
                i >= 1 ==> last_type == ss@[i - 1],
                forall|c: int|
                    0 <= c < 32 ==> ((c_index@[c] != 0xFF) <==> exists|j: int| #![trigger ss@[j]]
                        0 <= j < i && ss@[j] as int == c),
                forall|k: int| 1 <= k < i ==> !is_forward_break(ss@, k),
            decreases ss.count - i,
        {
            let t = ss.slice_type[i];
            proof {
                assert(ss@[i as int] == ss.slice_type@[i as int]);
            }
            if c_index[t as usize] == 0xFF {
                c_index.set(t as usize, i as u8);
                last_type = t;
            } else if t != last_type {
                *direction = 1;
                proof {
                    assert(is_forward_break(ss@, i as int));
                }
                return (i - 1) as i32;
            } else {
                proof {
                    assert(!is_forward_break(ss@, i as int));
                }
            }
            i = i + 1;
        }
        proof {
            assert forall|v: int| !is_forward_break(ss@, v) by {
                if 1 <= v < ss@.len() {
                    assert(!is_forward_break(ss@, v));
                }
            }
            lemma_complete_iff_no_forward_break(ss@);
        }
    } else {
        let mut i: usize = ss.count - 1;
        while i > 1
            invariant
                ss.wf(),
                1 <= ss.count,
                search_dir > 0,
                1 <= i <= ss.count - 1 || (ss.count == 1 && i == 0),
                c_index@.len() == 32,
                *direction == *old(direction),
                i == ss.count - 1 ==> last_type == 0xFF,
                i < ss.count - 1 ==> last_type == ss@[i as int],
                forall|c: int|
                    0 <= c < 32 ==> ((c_index@[c] != 0xFF) <==> exists|j: int| #![trigger ss@[j]]
                        i <= j <= ss.count - 2 && ss@[j] as int == c),
                forall|k: int| i <= k <= ss.count - 2 ==> !is_backward_break(ss@, k),
            decreases i,
        {
            i = i - 1;
            let t = ss.slice_type[i];
            proof {
                assert(ss@[i as int] == ss.slice_type@[i as int]);
            }
            if c_index[t as usize] == 0xFF {
                c_index.set(t as usize, i as u8);
                last_type = t;
            } else if t != last_type {
                *direction = 0;
                proof {
                    assert(is_backward_break(ss@, i as int));
                }
                return (i + 1) as i32;
            } else {
                proof {
                    assert(!is_backward_break(ss@, i as int));
                }
            }
        }
        proof {
            assert forall|v: int| !is_backward_break(ss@, v) by {
                if 1 <= v <= ss@.len() - 2 {
                    assert(!is_backward_break(ss@, v));
                }
            }
        }
    }
    -1
}

/// Walking right from a repeated color, the last slice of its first run
/// ends a run, so a non-adjacent repetition yields a forward break.
proof fn lemma_break_from_repeat(s: Seq<u8>, i: int, k: int, j: int)
    requires
        0 <= i < k < j < s.len(),
        s[i] == s[j],
        s[k] != s[i],
    ensures
        exists|v: int| is_forward_break(s, v),
    decreases j,
{
    if s[j - 1] != s[j] {
        assert(is_forward_break(s, j));
    } else {
        assert(j - 1 != k);
        lemma_break_from_repeat(s, i, k, j - 1);
    }
}

/// A stack is complete exactly when a forward scan finds no break: the
/// fallback move finder's empty-handed return is impossible on an
/// incomplete stack searched forward.
pub proof fn lemma_complete_iff_no_forward_break(s: Seq<u8>)
    ensures
        spec_is_complete(s) <==> !(exists|v: int| is_forward_break(s, v)),
{
    if exists|v: int| is_forward_break(s, v) {
        let v = choose|v: int| is_forward_break(s, v);
        let j = choose|j: int| #![trigger s[j]] 0 <= j < v && s[j] == s[v];
        assert(s[v - 1] != s[j]);
        assert(!spec_is_complete(s));
    }
    if !spec_is_complete(s) {
        let (i, k, j): (int, int, int) = choose|i: int, k: int, j: int|
            #![trigger s[i], s[k], s[j]]
            0 <= i <= k <= j < s.len() && s[i] == s[j] && s[k] != s[i];
        lemma_break_from_repeat(s, i, k, j);
    }
}

/// Between an occurrence of a color and a later slice of another color
/// lies an index where a run of that color ends.
proof fn lemma_run_end_exists(s: Seq<u8>, j: int, t: int, c: u8)
    requires
        0 <= j < t < s.len(),
        s[j] == c,
        s[t] != c,
    ensures
        exists|w: int| #![trigger s[w]] j <= w < t && s[w] == c && s[w + 1] != c,
    decreases t - j,
{
    if s[j + 1] != c {
        assert(s[j] == c && s[j + 1] != c);
    } else {
        lemma_run_end_exists(s, j + 1, t, c);
    }
}

/// On an incomplete stack that offers no joining move at either edge, the
/// backward fallback scan also has a break to find: the fallback tier never
/// comes up empty while solving is still needed, whatever the search
/// direction.
pub proof fn lemma_backward_break_exists(s: Seq<u8>)
    requires
        !spec_is_complete(s),
        forall|i: int| !is_left_join(s, i),
        forall|i: int| !is_right_join(s, i),
    ensures
        exists|w: int| is_backward_break(s, w),
{
    lemma_complete_iff_no_forward_break(s);
    let v = choose|v: int| is_forward_break(s, v);
    let c = s[v];
    let j = choose|j: int| #![trigger s[j]] 0 <= j < v && s[j] == c;
    assert(s[v - 1] != c);
    assert(j < v - 1);
    // the repeated color cannot be the left-edge color, or `v` itself would
    // be a left joining move
    assert(c != s[0]) by {
        if c == s[0] {
            assert(is_left_join(s, v));
        }
    }
    assert(j >= 1);
    // nor can the repetition sit on the last slice, or its earlier
    // occurrence would be a right joining move
    assert(v <= s.len() - 2) by {
        if v == s.len() - 1 {
            assert(is_right_join(s, j));
        }
    }
    lemma_run_end_exists(s, j, v - 1, c);
    let w = choose|w: int| #![trigger s[w]] j <= w < v - 1 && s[w] == c && s[w + 1] != c;
    assert(is_backward_break(s, w));
}

} // verus!
