//! The slice stack: a bounded, ordered sequence of color codes plus metadata.
//!
//! A stack is created once, filled either from the generator or from an
//! explicit color sequence, and afterwards mutated only through [`ss_flip`],
//! which reverses a prefix or a suffix in place. Its length is fixed for its
//! lifetime. The view of a stack is the sequence of its `count` active colors.

use vstd::prelude::*;
use vstd::seq_lib::lemma_multiset_commutative;
use crate::prng::PrngCtxGaloisLsfw;
use crate::prng::galois_iter;
use crate::prng::galois_step;
use crate::prng::range_map;
use crate::prng::prng_galois_lsfw_int_minmax;

verus! {

/// Fixed maximum number of slices a stack can hold.
pub const MAX_SLICES: usize = 32;

/// Largest admissible number of distinct colors: one bit per color in the
/// 32-bit bitmap the completeness oracle uses.
pub const MAX_COLORS: u32 = 32;

/// The two failure classes: a caller-supplied configuration out of bounds,
/// and a broken internal invariant discovered while solving.
#[derive(Clone, Copy, PartialEq, Eq, Debug)]
pub enum StackError {
    InvalidConfiguration,
    InvariantViolation,
}

/// A bounded stack of colored slices. `slice_type` is an arena of
/// `MAX_SLICES` slots of which the first `count` are active; slots beyond
/// `count` are unused. Every active color index is below `color_count`.
#[derive(Clone)]
pub struct SliceStack {
    pub count: usize,
    pub color_count: u32,
    pub slice_type: Vec<u8>,
}

impl View for SliceStack {
    type V = Seq<u8>;

    open spec fn view(&self) -> Seq<u8> {
        self.slice_type@.take(self.count as int)
    }
}

impl SliceStack {
    /// Well-formedness: the arena has its fixed size, the active length and
    /// the color limit are in bounds, and every active color is below the
    /// limit.
    pub open spec fn wf(self) -> bool {
        &&& self.slice_type@.len() == MAX_SLICES
        &&& self.count <= MAX_SLICES
        &&& self.color_count <= MAX_COLORS
        &&& forall|i: int| 0 <= i < self@.len() ==> (self@[i] as u32) < self.color_count
    }

    /// An empty stack with a zeroed arena.
    pub fn new() -> (r: SliceStack)
        ensures
            r.wf(),
            r.count == 0,
            r.color_count == 0,
            r@.len() == 0,
            forall|i: int| 0 <= i < r.slice_type@.len() ==> r.slice_type@[i] == 0,
    {
        let mut slots: Vec<u8> = Vec::new();
        while slots.len() < MAX_SLICES
            invariant
                slots@.len() <= MAX_SLICES,
                forall|i: int| 0 <= i < slots@.len() ==> slots@[i] == 0,
            decreases MAX_SLICES - slots@.len(),
        {
            slots.push(0);
        }
        SliceStack { count: 0, color_count: 0, slice_type: slots }
    }
}

/// The stack after one flip: for a positive direction the suffix
/// `[index, count)` is reversed, otherwise the prefix `[0, index]`.
pub open spec fn spec_flip(s: Seq<u8>, index: int, direction: int) -> Seq<u8>
    recommends
        0 <= index < s.len(),
{
    if direction > 0 {
        s.take(index) + s.skip(index).reverse()
    } else {
        s.take(index + 1).reverse() + s.skip(index + 1)
    }
}

/// Swaps two active slots.
fn ss_swapslices(ss: &mut SliceStack, i0: usize, i1: usize)
    requires
        old(ss).wf(),
        i0 < old(ss).count,
        i1 < old(ss).count,
    ensures
        final(ss).wf(),
        final(ss).count == old(ss).count,
        final(ss).color_count == old(ss).color_count,
        final(ss)@ == old(ss)@.update(i0 as int, old(ss)@[i1 as int]).update(
            i1 as int,
            old(ss)@[i0 as int],
        ),
        final(ss).slice_type@ == old(ss).slice_type@.update(
            i0 as int,
            old(ss).slice_type@[i1 as int],
        ).update(i1 as int, old(ss).slice_type@[i0 as int]),
{
    let stype: u8 = ss.slice_type[i0];
    let other: u8 = ss.slice_type[i1];
    ss.slice_type.set(i0, other);
    ss.slice_type.set(i1, stype);
    proof {
        assert(ss@ =~= old(ss)@.update(i0 as int, old(ss)@[i1 as int]).update(
            i1 as int,
            old(ss)@[i0 as int],
        ));
    }
}

/// Reverses a sub-range of the stack in place, by swaps, without allocation:
/// the suffix `[index, count)` when `direction` is positive, else the prefix
/// `[0, index]`. This is the sole mutation a stack undergoes while solving;
/// it never changes the multiset of colors, only their order, and the unused
/// slots at or beyond `count` are untouched.
pub fn ss_flip(ss: &mut SliceStack, index: usize, direction: i32)
    requires
        old(ss).wf(),
        index < old(ss).count,
    ensures
        final(ss).wf(),
        final(ss).count == old(ss).count,
        final(ss).color_count == old(ss).color_count,
        final(ss)@ == spec_flip(old(ss)@, index as int, direction as int),
        final(ss)@.to_multiset() == old(ss)@.to_multiset(),
        forall|k: int|
            old(ss).count <= k < old(ss).slice_type@.len() ==> final(ss).slice_type@[k] == old(
                ss,
            ).slice_type@[k],
{
    if direction > 0 {
        let end = ss.count - 1;
        let half = (ss.count - index) / 2;
        let mut i: usize = 0;
        while i < half
            invariant
                ss.wf(),
                ss.count == old(ss).count,
                ss.color_count == old(ss).color_count,
                index < ss.count,
                end == ss.count - 1,
                half == (ss.count - index) / 2,
                i <= half,
                forall|k: int|
                    ss.count <= k < ss.slice_type@.len() ==> ss.slice_type@[k] == old(
                        ss,
                    ).slice_type@[k],
                forall|k: int|
                    0 <= k < ss@.len() ==> #[trigger] ss@[k] == (if (index <= k < index + i) || (end
                        - i < k <= end && index <= k) {
                        old(ss)@[index + end - k]
                    } else {
                        old(ss)@[k]
                    }),
            decreases half - i,
        {
            ss_swapslices(ss, index + i, end - i);
            i = i + 1;
        }
        proof {
            assert forall|k: int| index <= k < ss@.len() implies ss@[k] == old(ss)@[ss@.len() - 1
                - k + index] by {
                if !(index <= k < index + half) && !(end - half < k <= end) {
                    assert(k == index + half && k == end - half);
                }
            }
            lemma_flip_pointwise_suffix(old(ss)@, ss@, index as int);
        }
    } else {
        let half = (index + 1) / 2;
        let mut i: usize = 0;
        while i < half
            invariant
                ss.wf(),
                ss.count == old(ss).count,
                ss.color_count == old(ss).color_count,
                index < ss.count,
                half == (index + 1) / 2,
                i <= half,
                forall|k: int|
                    ss.count <= k < ss.slice_type@.len() ==> ss.slice_type@[k] == old(
                        ss,
                    ).slice_type@[k],
                forall|k: int|
                    0 <= k < ss@.len() ==> #[trigger] ss@[k] == (if (0 <= k < i) || (index - i < k
                        <= index) {
                        old(ss)@[index - k]
                    } else {
                        old(ss)@[k]
                    }),
            decreases half - i,
        {
            ss_swapslices(ss, index - i, i);
            i = i + 1;
        }
        proof {
            assert forall|k: int| 0 <= k <= index implies ss@[k] == old(ss)@[index - k] by {
                if !(0 <= k < half) && !(index - half < k <= index) {
                    assert(k == half && k == index - half);
                }
            }
            lemma_flip_pointwise_prefix(old(ss)@, ss@, index as int);
        }
    }
    proof {
        lemma_flip_preserves_multiset(old(ss)@, index as int, direction as int);
    }
}

/// A sequence whose suffix from `index` holds the old suffix mirrored, and
/// whose prefix is untouched, is exactly the suffix flip.
proof fn lemma_flip_pointwise_suffix(s: Seq<u8>, t: Seq<u8>, index: int)
    requires
        0 <= index < s.len(),
        t.len() == s.len(),
        forall|k: int| 0 <= k < index ==> t[k] == s[k],
        forall|k: int| index <= k < s.len() ==> t[k] == s[s.len() - 1 - k + index],
    ensures
        t == spec_flip(s, index, 1),
{
    assert(t =~= spec_flip(s, index, 1));
}

/// A sequence whose prefix up to `index` holds the old prefix mirrored, and
/// whose suffix is untouched, is exactly the prefix flip.
proof fn lemma_flip_pointwise_prefix(s: Seq<u8>, t: Seq<u8>, index: int)
    requires
        0 <= index < s.len(),
        t.len() == s.len(),
        forall|k: int| 0 <= k <= index ==> t[k] == s[index - k],
        forall|k: int| index < k < s.len() ==> t[k] == s[k],
    ensures
        t == spec_flip(s, index, -1),
{
    assert(t =~= spec_flip(s, index, -1));
}

/// Flipping is an involution: applying the identical flip twice restores the
/// prior order.
pub proof fn lemma_flip_involution(s: Seq<u8>, index: int, direction: int)
    requires
        0 <= index < s.len(),
    ensures
        spec_flip(spec_flip(s, index, direction), index, direction) == s,
{
    assert(spec_flip(spec_flip(s, index, direction), index, direction) =~= s);
}

/// A flip never changes the multiset of colors, only their order.
pub proof fn lemma_flip_preserves_multiset(s: Seq<u8>, index: int, direction: int)
    requires
        0 <= index < s.len(),
    ensures
        spec_flip(s, index, direction).to_multiset() == s.to_multiset(),
{
    if direction > 0 {
        let a = s.take(index);
        let b = s.skip(index);
        lemma_multiset_commutative(a, b.reverse());
        lemma_multiset_commutative(a, b);
        b.lemma_reverse_to_multiset();
        assert(a + b =~= s);
    } else {
        let a = s.take(index + 1);
        let b = s.skip(index + 1);
        lemma_multiset_commutative(a.reverse(), b);
        lemma_multiset_commutative(a, b);
        a.lemma_reverse_to_multiset();
        assert(a + b =~= s);
    }
}

/// Fills a stack with `count` colors drawn from the generator, each in
/// `[0, color_count)`. Rejects a configuration whose length exceeds the
/// capacity, whose color limit exceeds the bitmap width, or that asks for
/// slices without any color to give them; a rejected stack and generator are
/// left unchanged. On success the generator has advanced exactly `count`
/// steps and every color is the range mapping of the corresponding draw.
pub fn ss_init(
    ss: &mut SliceStack,
    count: usize,
    color_count: u32,
    ctx: &mut PrngCtxGaloisLsfw,
) -> (r: Result<(), StackError>)
    requires
        old(ss).wf(),
    ensures
        final(ss).wf(),
        count > MAX_SLICES || color_count > MAX_COLORS || (count > 0 && color_count == 0) ==> ({
            &&& r == Err::<(), StackError>(StackError::InvalidConfiguration)
            &&& *final(ss) == *old(ss)
            &&& *final(ctx) == *old(ctx)
        }),
        count <= MAX_SLICES && color_count <= MAX_COLORS && (count == 0 || color_count > 0) ==> ({
            &&& r == Ok::<(), StackError>(())
            &&& final(ss).count == count
            &&& final(ss).color_count == color_count
            &&& final(ctx).value == galois_iter(old(ctx).value, count as nat)
            &&& forall|k: int|
                0 <= k < count ==> final(ss)@[k] as int == range_map(
                    galois_iter(old(ctx).value, (k + 1) as nat),
                    0,
                    color_count - 1,
                )
        }),
{
    if count > MAX_SLICES || color_count > MAX_COLORS || (count > 0 && color_count == 0) {
        return Err(StackError::InvalidConfiguration);
    }
    let ghost v0: u32 = ctx.value;
    ss.count = count;
    ss.color_count = color_count;
    let mut i: usize = 0;
    while i < count
        invariant
            ss.slice_type@.len() == MAX_SLICES,
            ss.count == count,
            ss.color_count == color_count,
            count <= MAX_SLICES,
            0 < color_count <= MAX_COLORS || count == 0,
            i <= count,
            ctx.value == galois_iter(v0, i as nat),
            forall|k: int| #![trigger ss.slice_type@[k]]
                0 <= k < i ==> ss.slice_type@[k] as int == range_map(
                    galois_iter(v0, (k + 1) as nat),
                    0,
                    color_count - 1,
                ) && (ss.slice_type@[k] as u32) < color_count,
        decreases count - i,
    {
        let c = prng_galois_lsfw_int_minmax(ctx, 0, (color_count - 1) as i32);
        ss.slice_type.set(i, c as u8);
        proof {
            assert(galois_iter(v0, (i + 1) as nat) == galois_step(galois_iter(v0, i as nat)));
            assert(ss.slice_type@[i as int] == c as u8);
        }
        i = i + 1;
    }
    proof {
        assert forall|k: int| 0 <= k < count implies #[trigger] ss@[k] as int == range_map(
            galois_iter(v0, (k + 1) as nat),
            0,
            color_count - 1,
        ) && (ss@[k] as u32) < color_count by {
            assert(ss@[k] == ss.slice_type@[k]);
        }
    }
    Ok(())
}

/// Fills a stack from an explicit color sequence, for deterministic
/// fixtures. Rejects a sequence longer than the capacity, a color limit over
/// the bitmap width, or any color at or above the limit; a rejected stack is
/// left unchanged.
pub fn ss_init_fixed(ss: &mut SliceStack, colors: &Vec<u8>, color_count: u32) -> (r: Result<
    (),
    StackError,
>)
    requires
        old(ss).wf(),
    ensures
        final(ss).wf(),
        colors@.len() > MAX_SLICES || color_count > MAX_COLORS || (exists|i: int|
            0 <= i < colors@.len() && colors@[i] as u32 >= color_count) ==> ({
            &&& r == Err::<(), StackError>(StackError::InvalidConfiguration)
            &&& *final(ss) == *old(ss)
        }),
        colors@.len() <= MAX_SLICES && color_count <= MAX_COLORS && (forall|i: int|
            0 <= i < colors@.len() ==> (colors@[i] as u32) < color_count) ==> ({
            &&& r == Ok::<(), StackError>(())
            &&& final(ss).count == colors@.len()
            &&& final(ss).color_count == color_count
            &&& final(ss)@ == colors@
        }),
{
    if colors.len() > MAX_SLICES || color_count > MAX_COLORS {
        return Err(StackError::InvalidConfiguration);
    }
    let mut i: usize = 0;
    while i < colors.len()
        invariant
            ss.wf(),
            *ss == *old(ss),
            i <= colors@.len(),
            forall|k: int| 0 <= k < i ==> (colors@[k] as u32) < color_count,
        decreases colors@.len() - i,
    {
        if colors[i] as u32 >= color_count {
            return Err(StackError::InvalidConfiguration);
        }
        i = i + 1;
    }
    ss.count = colors.len();
    ss.color_count = color_count;
    let mut j: usize = 0;
    while j < colors.len()
        invariant
            ss.slice_type@.len() == MAX_SLICES,
            ss.count == colors@.len(),
            ss.color_count == color_count,
            colors@.len() <= MAX_SLICES,
            j <= colors@.len(),
            forall|k: int| 0 <= k < colors@.len() ==> (colors@[k] as u32) < color_count,
            forall|k: int| 0 <= k < j ==> ss@[k] == colors@[k],
        decreases colors@.len() - j,
    {
        let c = colors[j];
        ss.slice_type.set(j, c);
        j = j + 1;
    }
    proof {
        assert(ss@ =~= colors@);
    }
    Ok(())
}

} // verus!
