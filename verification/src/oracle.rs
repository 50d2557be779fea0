//! The progress oracle: pure measurements of how far a stack is from being
//! solved.
//!
//! Fragmentation counts the maximal contiguous runs of equal color. A stack
//! is complete when every color occupies one contiguous run; the bitmap
//! predicate [`ss_iscomplete`] decides exactly that. The counting predicate
//! [`ss_iscomplete2`] instead compares fragmentation with the nominal color
//! limit; the two agree only when every nominal color actually occurs in the
//! stack, so the bitmap form is the canonical one.

use vstd::prelude::*;
use crate::stack::SliceStack;
use crate::stack::MAX_SLICES;

verus! {

/// Number of maximal contiguous runs of equal color: one for each position
/// whose color differs from its predecessor, and one for the first slice.
pub open spec fn spec_fragmentation(s: Seq<u8>) -> int
    decreases s.len(),
{
    if s.len() == 0 {
        0
    } else if s.len() == 1 {
        1
    } else {
        spec_fragmentation(s.drop_last()) + if s[s.len() - 2] == s[s.len() - 1] {
            0int
        } else {
            1int
        }
    }
}

/// The adjacent-pair formulation of the run count: it starts from one run and
/// adds one per unequal adjacent pair, so on an empty sequence it yields 1
/// where [`spec_fragmentation`] yields 0; on anything non-empty the two agree
/// (see [`lemma_fragmentation_formulations_agree`]).
pub open spec fn spec_fragmentation_adj(s: Seq<u8>) -> int
    decreases s.len(),
{
    if s.len() <= 1 {
        1
    } else {
        spec_fragmentation_adj(s.drop_last()) + if s[s.len() - 2] == s[s.len() - 1] {
            0int
        } else {
            1int
        }
    }
}

/// Every color occupies one contiguous run: any two equal colors have only
/// that same color between them.
pub open spec fn spec_is_complete(s: Seq<u8>) -> bool {
    forall|i: int, k: int, j: int| #![trigger s[i], s[k], s[j]]
        0 <= i <= k <= j < s.len() && s[i] == s[j] ==> s[k] == s[i]
}

/// Fragmentation of a non-empty stack is at least 1 and at most the number
/// of slices.
pub proof fn lemma_fragmentation_bounds(s: Seq<u8>)
    requires
        s.len() >= 1,
    ensures
        1 <= spec_fragmentation(s) <= s.len(),
    decreases s.len(),
{
    if s.len() > 1 {
        lemma_fragmentation_bounds(s.drop_last());
    }
}

/// The two formulations of the run count agree on every non-empty stack.
pub proof fn lemma_fragmentation_formulations_agree(s: Seq<u8>)
    requires
        s.len() >= 1,
    ensures
        spec_fragmentation(s) == spec_fragmentation_adj(s),
    decreases s.len(),
{
    if s.len() > 1 {
        lemma_fragmentation_formulations_agree(s.drop_last());
    }
}

/// Run count of a concatenation: the runs of both halves, merged into one
/// where the halves meet in the same color.
pub proof fn lemma_fragmentation_concat(a: Seq<u8>, b: Seq<u8>)
    requires
        a.len() >= 1,
        b.len() >= 1,
    ensures
        spec_fragmentation(a + b) == spec_fragmentation(a) + spec_fragmentation(b) - (
        if a.last() == b.first() {
            1int
        } else {
            0int
        }),
    decreases b.len(),
{
    if b.len() == 1 {
        assert((a + b).drop_last() =~= a);
        assert((a + b)[a.len() - 1] == a.last());
        assert((a + b)[a.len() as int] == b.first());
    } else {
        let b0 = b.drop_last();
        lemma_fragmentation_concat(a, b0);
        assert((a + b).drop_last() =~= a + b0);
        assert((a + b)[(a + b).len() - 2] == b[b.len() - 2]);
        assert((a + b)[(a + b).len() - 1] == b[b.len() - 1]);
        assert(b.first() == b0.first());
    }
}

/// Reversal preserves the run count: adjacency is symmetric.
pub proof fn lemma_fragmentation_reverse(s: Seq<u8>)
    ensures
        spec_fragmentation(s.reverse()) == spec_fragmentation(s),
    decreases s.len(),
{
    if s.len() <= 1 {
        assert(s.reverse() =~= s);
    } else {
        let rest = s.drop_first();
        lemma_fragmentation_reverse(rest);
        assert(s =~= seq![s[0]] + rest);
        assert(s.reverse() =~= rest.reverse() + seq![s[0]]);
        lemma_fragmentation_concat(seq![s[0]], rest);
        lemma_fragmentation_concat(rest.reverse(), seq![s[0]]);
        assert(rest.reverse().last() == rest.first());
        assert(spec_fragmentation(seq![s[0]]) == 1);
    }
}

/// Counts the maximal contiguous runs of equal color across the active
/// slices, comparing each slice against a sentinel holding its predecessor.
pub fn ss_fragmentation(ss: &SliceStack) -> (r: i32)
    requires
        ss.wf(),
    ensures
        r as int == spec_fragmentation(ss@),
        ss@.len() >= 1 ==> 1 <= r <= ss@.len(),
{
    let mut last_type: u8 = 0xFF;
    let mut frag: i32 = 0;
    let mut i: usize = 0;
    while i < ss.count
        invariant
            ss.wf(),
            i <= ss.count,
            i == 0 ==> last_type == 0xFF,
            i >= 1 ==> last_type == ss@[i - 1],
            frag as int == spec_fragmentation(ss@.take(i as int)),
            0 <= frag <= i,
        decreases ss.count - i,
    {
        let t = ss.slice_type[i];
        proof {
            assert(ss@[i as int] == ss.slice_type@[i as int]);
            assert(ss@.take(i + 1).drop_last() =~= ss@.take(i as int));
        }
        if last_type != t {
            frag = frag + 1;
        }
        last_type = t;
        i = i + 1;
    }
    proof {
        assert(ss@.take(ss.count as int) =~= ss@);
        if ss@.len() >= 1 {
            lemma_fragmentation_bounds(ss@);
        }
    }
    frag
}

/// The adjacent-pair formulation of the run count: starts at one run and
/// adds one per unequal adjacent pair. Provably equal to
/// [`ss_fragmentation`] on every non-empty stack.
pub fn ss_fragmentation2(ss: &SliceStack) -> (r: i32)
    requires
        ss.wf(),
    ensures
        r as int == spec_fragmentation_adj(ss@),
        1 <= r <= MAX_SLICES,
        ss@.len() >= 1 ==> r as int == spec_fragmentation(ss@),
{
    let mut frag: i32 = 1;
    let mut i: usize = 1;
    if ss.count == 0 {
        return 1;
    }
    while i < ss.count
        invariant
            ss.wf(),
            1 <= i <= ss.count,
            frag as int == spec_fragmentation_adj(ss@.take(i as int)),
            1 <= frag <= i,
        decreases ss.count - i,
    {
        proof {
            assert(ss@[i - 1] == ss.slice_type@[i - 1]);
            assert(ss@[i as int] == ss.slice_type@[i as int]);
            assert(ss@.take(i + 1).drop_last() =~= ss@.take(i as int));
        }
        if ss.slice_type[i - 1] != ss.slice_type[i] {
            frag = frag + 1;
        }
        i = i + 1;
    }
    proof {
        assert(ss@.take(ss.count as int) =~= ss@);
        lemma_fragmentation_formulations_agree(ss@);
    }
    frag
}

/// A complete prefix stays complete when the next color either has not been
/// seen before or simply continues the run it ends on.
proof fn lemma_complete_extend(s: Seq<u8>, n: int)
    requires
        0 <= n < s.len(),
        spec_is_complete(s.take(n)),
        (forall|j: int| 0 <= j < n ==> s[j] != s[n]) || (n >= 1 && s[n] == s[n - 1]),
    ensures
        spec_is_complete(s.take(n + 1)),
{
    assert forall|i: int, k: int, j: int| #![trigger s.take(n + 1)[i], s.take(n + 1)[k], s.take(n + 1)[j]]
        0 <= i <= k <= j < n + 1 && s.take(n + 1)[i] == s.take(n + 1)[j] implies s.take(n + 1)[k]
        == s.take(n + 1)[i] by {
        assert(s.take(n + 1)[i] == s[i] && s.take(n + 1)[k] == s[k] && s.take(n + 1)[j] == s[j]);
        if j < n {
            assert(s.take(n)[i] == s[i] && s.take(n)[k] == s[k] && s.take(n)[j] == s[j]);
        } else if i < n {
            assert(s[n] == s[n - 1]);
            if k < n {
                assert(s.take(n)[i] == s[i] && s.take(n)[k] == s[k] && s.take(n)[n - 1] == s[n
                    - 1]);
            }
        }
    }
}

/// Bitmap of the colors occurring in a sequence: bit `c` is set exactly
/// when color `c` occurs.
spec fn seen_mask(s: Seq<u8>) -> u32
    decreases s.len(),
{
    if s.len() == 0 {
        0u32
    } else {
        seen_mask(s.drop_last()) | (1u32 << (s.last() as u32))
    }
}

/// Bit `c` of the seen bitmap is set exactly when color `c` occurs.
proof fn lemma_seen_mask_bit(s: Seq<u8>, c: u32)
    requires
        c < 32,
        forall|i: int| 0 <= i < s.len() ==> (s[i] as u32) < 32,
    ensures
        ((seen_mask(s) >> c) & 1 == 1) <==> exists|j: int|
            0 <= j < s.len() && (#[trigger] s[j]) as u32 == c,
    decreases s.len(),
{
    if s.len() == 0 {
        assert(((0u32 >> c) & 1) == 0) by (bit_vector);
    } else {
        let s0 = s.drop_last();
        let m0 = seen_mask(s0);
        let d = s.last() as u32;
        lemma_seen_mask_bit(s0, c);
        assert((((m0 | (1u32 << d)) >> c) & 1 == 1) <==> (c == d || ((m0 >> c) & 1 == 1)))
            by (bit_vector)
            requires
                c < 32,
                d < 32,
        ;
        if c == d {
            assert((s[s.len() - 1]) as u32 == c);
        } else {
            if exists|j: int| 0 <= j < s.len() && (#[trigger] s[j]) as u32 == c {
                let j = choose|j: int| 0 <= j < s.len() && (#[trigger] s[j]) as u32 == c;
                assert(j < s.len() - 1);
                assert(s0[j] == s[j]);
            }
            if exists|j: int| 0 <= j < s0.len() && (#[trigger] s0[j]) as u32 == c {
                let j = choose|j: int| 0 <= j < s0.len() && (#[trigger] s0[j]) as u32 == c;
                assert(s[j] == s0[j]);
            }
        }
    }
}

/// Decides completeness with a bitmap of colors already seen: a color whose
/// bit is set, met again while it does not continue the current run, proves
/// a second, non-adjacent run of that color.
pub fn ss_iscomplete(ss: &SliceStack) -> (r: bool)
    requires
        ss.wf(),
    ensures
        r == spec_is_complete(ss@),
{
    let mut used_type_flags: u32 = 0;
    let mut last_type: u8 = 0xFF;
    let mut i: usize = 0;
    while i < ss.count
        invariant
            ss.wf(),
            i <= ss.count,
            i == 0 ==> last_type == 0xFF,
            i >= 1 ==> last_type == ss@[i - 1],
            spec_is_complete(ss@.take(i as int)),
            used_type_flags == seen_mask(ss@.take(i as int)),
        decreases ss.count - i,
    {
        let t = ss.slice_type[i];
        proof {
            assert(ss@[i as int] == ss.slice_type@[i as int]);
            assert(forall|k: int|
                0 <= k < ss@.take(i as int).len() ==> (#[trigger] ss@.take(i as int)[k]) == ss@[k]);
            lemma_seen_mask_bit(ss@.take(i as int), t as u32);
            assert((used_type_flags & (1u32 << (t as u32)) != 0) <==> ((used_type_flags >> (
            t as u32)) & 1 == 1)) by (bit_vector);
        }
        let type_flag: u32 = 1u32 << (t as u32);
        if (used_type_flags & type_flag) != 0 && last_type != t {
            proof {
                let j = choose|j: int|
                    0 <= j < i && (#[trigger] ss@.take(i as int)[j]) as u32 == t as u32;
                assert(ss@[j] == ss@[i as int]);
                assert(ss@[i - 1] != ss@[i as int]);
                assert(j != i - 1);
                assert(!spec_is_complete(ss@));
            }
            return false;
        }
        proof {
            if (used_type_flags & type_flag) == 0 {
                assert forall|j: int| 0 <= j < i implies (#[trigger] ss@[j]) != ss@[i as int] by {
                    assert(ss@.take(i as int)[j] == ss@[j]);
                }
            } else {
                assert(last_type == t);
                assert(i >= 1 && ss@[i as int] == ss@[i - 1]);
            }
            lemma_complete_extend(ss@, i as int);
            assert(ss@.take(i + 1).drop_last() =~= ss@.take(i as int));
            assert(ss@.take(i + 1).last() == ss@[i as int]);
        }
        used_type_flags = used_type_flags | type_flag;
        last_type = t;
        i = i + 1;
    }
    proof {
        assert(ss@.take(ss.count as int) =~= ss@);
    }
    true
}

/// Decides completeness by comparing the run count with the nominal color
/// limit. Exactly the test `fragmentation <= color_count`: equivalent to the
/// bitmap predicate only when all `color_count` colors actually occur.
pub fn ss_iscomplete2(ss: &SliceStack) -> (r: bool)
    requires
        ss.wf(),
    ensures
        r == (spec_fragmentation_adj(ss@) <= ss.color_count),
{
    let frag = ss_fragmentation2(ss);
    frag - (ss.color_count as i32) <= 0
}

/// The colors of a stack are those of its prefix plus the last one.
proof fn lemma_to_set_drop_last(s: Seq<u8>)
    requires
        s.len() >= 1,
    ensures
        s.to_set() =~= s.drop_last().to_set().insert(s.last()),
{
    broadcast use vstd::set::group_set_axioms;

    let s0 = s.drop_last();
    assert forall|a: u8| s.to_set().contains(a) implies s0.to_set().insert(s.last()).contains(
        a,
    ) by {
        let i = choose|i: int| 0 <= i < s.len() && s[i] == a;
        if i < s.len() - 1 {
            assert(s0[i] == a);
            assert(s0.contains(a));
        }
    }
    assert forall|a: u8| s0.to_set().insert(s.last()).contains(a) implies s.to_set().contains(
        a,
    ) by {
        if a == s.last() {
            assert(s[s.len() - 1] == a);
        } else {
            let i = choose|i: int| 0 <= i < s0.len() && s0[i] == a;
            assert(s[i] == a);
        }
        assert(s.contains(a));
    }
}

/// Each distinct color needs at least one run of its own.
pub proof fn lemma_fragmentation_ge_distinct(s: Seq<u8>)
    ensures
        spec_fragmentation(s) >= s.to_set().len(),
    decreases s.len(),
{
    broadcast use vstd::set::group_set_axioms;
    broadcast use vstd::seq_lib::seq_to_set_is_finite;

    if s.len() == 0 {
        assert(s.to_set() =~= Set::<u8>::empty());
    } else {
        let s0 = s.drop_last();
        lemma_fragmentation_ge_distinct(s0);
        lemma_to_set_drop_last(s);
        if s0.len() == 0 {
            assert(s0.to_set() =~= Set::<u8>::empty());
        } else if s[s.len() - 2] == s.last() {
            assert(s0[s.len() - 2] == s.last());
            assert(s0.contains(s.last()));
        }
    }
}

/// On a complete stack every color forms one run, so the run count is the
/// number of distinct colors present.
proof fn lemma_complete_fragmentation_equals_distinct(s: Seq<u8>)
    requires
        spec_is_complete(s),
    ensures
        spec_fragmentation(s) == s.to_set().len(),
    decreases s.len(),
{
    broadcast use vstd::set::group_set_axioms;
    broadcast use vstd::seq_lib::seq_to_set_is_finite;

    if s.len() == 0 {
        assert(s.to_set() =~= Set::<u8>::empty());
    } else {
        let s0 = s.drop_last();
        let last = s.last();
        assert(spec_is_complete(s0)) by {
            assert forall|i: int, k: int, j: int| #![trigger s0[i], s0[k], s0[j]]
                0 <= i <= k <= j < s0.len() && s0[i] == s0[j] implies s0[k] == s0[i] by {
                assert(s0[i] == s[i] && s0[k] == s[k] && s0[j] == s[j]);
            }
        }
        lemma_complete_fragmentation_equals_distinct(s0);
        lemma_to_set_drop_last(s);
        if s.len() == 1 {
            assert(s0.to_set() =~= Set::<u8>::empty());
        } else if s[s.len() - 2] == last {
            assert(s0[s.len() - 2] == last);
            assert(s0.contains(last));
        } else {
            assert(!s0.to_set().contains(last)) by {
                if s0.to_set().contains(last) {
                    let i = choose|i: int| 0 <= i < s0.len() && s0[i] == last;
                    assert(s[i] == s[s.len() - 1]);
                    assert(s[s.len() - 2] == s[i]);
                }
            }
        }
    }
}

/// On an incomplete stack some color holds two runs, so the run count
/// exceeds the number of distinct colors present.
proof fn lemma_incomplete_fragmentation_exceeds_distinct(s: Seq<u8>)
    requires
        !spec_is_complete(s),
    ensures
        spec_fragmentation(s) >= s.to_set().len() + 1,
    decreases s.len(),
{
    broadcast use vstd::set::group_set_axioms;
    broadcast use vstd::seq_lib::seq_to_set_is_finite;

    let s0 = s.drop_last();
    let last = s.last();
    lemma_to_set_drop_last(s);
    if !spec_is_complete(s0) {
        lemma_incomplete_fragmentation_exceeds_distinct(s0);
        if s[s.len() - 2] == last {
            assert(s0[s.len() - 2] == last);
            assert(s0.contains(last));
        }
    } else {
        lemma_complete_fragmentation_equals_distinct(s0);
        let (i, k, j): (int, int, int) = choose|i: int, k: int, j: int|
            #![trigger s[i], s[k], s[j]]
            0 <= i <= k <= j < s.len() && s[i] == s[j] && s[k] != s[i];
        assert(j == s.len() - 1) by {
            if j < s.len() - 1 {
                assert(s0[i] == s[i] && s0[k] == s[k] && s0[j] == s[j]);
            }
        }
        assert(i < j && k < j);
        assert(s0[i] == last);
        assert(s0.contains(last));
        assert(s[s.len() - 2] != last) by {
            if s[s.len() - 2] == last {
                assert(s0[i] == s0[s.len() - 2] && s0[k] != s0[i]);
                assert(i <= k <= s.len() - 2 < s0.len());
            }
        }
    }
}

/// A stack is complete exactly when its run count equals the number of
/// distinct colors it actually holds.
pub proof fn lemma_complete_iff_fragmentation_equals_distinct(s: Seq<u8>)
    ensures
        spec_is_complete(s) <==> spec_fragmentation(s) == s.to_set().len(),
{
    if spec_is_complete(s) {
        lemma_complete_fragmentation_equals_distinct(s);
    } else {
        lemma_incomplete_fragmentation_exceeds_distinct(s);
    }
}

/// The counting predicate agrees with the bitmap predicate on every
/// non-empty stack whose nominal color limit equals the number of distinct
/// colors actually present; a stack missing one of its nominal colors can
/// satisfy the count while a color still sits in two runs.
pub proof fn lemma_completeness_predicates_agree(s: Seq<u8>, color_count: u32)
    requires
        s.len() >= 1,
        s.to_set().len() == color_count,
    ensures
        (spec_fragmentation_adj(s) <= color_count) <==> spec_is_complete(s),
{
    lemma_fragmentation_formulations_agree(s);
    lemma_fragmentation_ge_distinct(s);
    lemma_complete_iff_fragmentation_equals_distinct(s);
}

} // verus!
