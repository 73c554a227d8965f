//! The mathematical model that the contracts of this library speak of.
//!
//! A queued write is a [`Patch`]: an offset and the bytes to put there. A
//! queue is a sequence of patches in arrival order, and what a reader must
//! observe at a position is the byte of the latest patch that covers it, or
//! else the byte underneath.

use vstd::prelude::*;

verus! {

/// A run of bytes destined for `offset`.
pub struct Patch {
    pub offset: int,
    pub data: Seq<u8>,
}

impl Patch {
    /// One past the last position that the patch writes.
    pub open spec fn end(self) -> int {
        self.offset + self.data.len()
    }

    /// Whether the patch writes position `pos`.
    pub open spec fn covers(self, pos: int) -> bool {
        self.offset <= pos < self.end()
    }

    /// The byte that the patch writes at `pos`, for a position it covers.
    pub open spec fn byte(self, pos: int) -> u8
        recommends
            self.covers(pos),
    {
        self.data[pos - self.offset]
    }

    /// Whether the patch intersects the half-open range `[start, end)`.
    pub open spec fn overlaps(self, start: int, end: int) -> bool {
        self.offset < end && self.end() > start
    }

    /// Whether the patch writes exactly the range `[offset, offset + len)`.
    pub open spec fn is_exactly(self, offset: int, len: int) -> bool {
        self.offset == offset && self.data.len() == len
    }

    /// Whether the patch begins where `prev` ends.
    pub open spec fn follows(self, prev: Patch) -> bool {
        prev.end() == self.offset
    }
}

/// The sum of the payload lengths of `ws`.
pub open spec fn tally(ws: Seq<Patch>) -> int
    decreases ws.len(),
{
    if ws.len() == 0 {
        0
    } else {
        tally(ws.drop_last()) + ws.last().data.len()
    }
}

/// The byte at `pos` once the patches `ws` have been laid, in order, over a
/// store that held `base` there: the latest patch covering `pos` wins.
pub open spec fn byte_after(ws: Seq<Patch>, base: u8, pos: int) -> u8
    decreases ws.len(),
{
    if ws.len() == 0 {
        base
    } else if ws.last().covers(pos) {
        ws.last().byte(pos)
    } else {
        byte_after(ws.drop_last(), base, pos)
    }
}

/// The bytes a reader gets for the range starting at `offset` when `disk` is
/// what the store returned for it and `ws` are laid over it in order.
pub open spec fn merged(disk: Seq<u8>, offset: int, ws: Seq<Patch>) -> Seq<u8> {
    Seq::new(disk.len(), |i: int| byte_after(ws, disk[i], offset + i))
}

/// The patches of `ws` that intersect `[start, end)`, in their order in `ws`.
pub open spec fn select_overlapping(ws: Seq<Patch>, start: int, end: int) -> Seq<Patch>
    decreases ws.len(),
{
    if ws.len() == 0 {
        Seq::empty()
    } else if ws.last().overlaps(start, end) {
        select_overlapping(ws.drop_last(), start, end).push(ws.last())
    } else {
        select_overlapping(ws.drop_last(), start, end)
    }
}

/// The index of the latest patch of `ws` that writes exactly
/// `[offset, offset + len)`, if there is one.
pub open spec fn last_exact(ws: Seq<Patch>, offset: int, len: int) -> Option<int>
    decreases ws.len(),
{
    if ws.len() == 0 {
        None
    } else if ws.last().is_exactly(offset, len) {
        Some(ws.len() - 1)
    } else {
        last_exact(ws.drop_last(), offset, len)
    }
}

/// Whether some patch of `ws` writes position `pos`.
pub open spec fn covered(ws: Seq<Patch>, pos: int) -> bool {
    exists|i: int| 0 <= i < ws.len() && (#[trigger] ws[i]).covers(pos)
}

/// Whether a read of `[offset, offset + len)` that is answered from the
/// latest exact match sees the newest bytes: either no patch matches the
/// range exactly, or none that arrived after the latest match touches it.
pub open spec fn exact_is_current(ws: Seq<Patch>, offset: int, len: int) -> bool {
    match last_exact(ws, offset, len) {
        Some(k) => forall|j: int| k < j < ws.len() ==> !(#[trigger] ws[j]).overlaps(offset, offset + len),
        None => true,
    }
}

/// Appending one patch adds its length to the tally.
pub proof fn lemma_tally_push(ws: Seq<Patch>, w: Patch)
    ensures
        tally(ws.push(w)) == tally(ws) + w.data.len(),
{
    assert(ws.push(w).drop_last() =~= ws);
}

/// A tally is never negative.
pub proof fn lemma_tally_nonneg(ws: Seq<Patch>)
    ensures
        tally(ws) >= 0,
    decreases ws.len(),
{
    if ws.len() > 0 {
        lemma_tally_nonneg(ws.drop_last());
    }
}

/// The tally of a concatenation is the sum of the tallies.
pub proof fn lemma_tally_concat(a: Seq<Patch>, b: Seq<Patch>)
    ensures
        tally(a + b) == tally(a) + tally(b),
    decreases b.len(),
{
    if b.len() == 0 {
        assert(a + b =~= a);
    } else {
        assert((a + b).drop_last() =~= a + b.drop_last());
        lemma_tally_concat(a, b.drop_last());
    }
}

/// The tally of a prefix is no more than the tally of the whole.
pub proof fn lemma_tally_take(ws: Seq<Patch>, n: int)
    requires
        0 <= n <= ws.len(),
    ensures
        0 <= tally(ws.take(n)) <= tally(ws),
{
    assert(ws =~= ws.take(n) + ws.skip(n));
    lemma_tally_concat(ws.take(n), ws.skip(n));
    lemma_tally_nonneg(ws.take(n));
    lemma_tally_nonneg(ws.skip(n));
}

/// Where no patch covers a position, the byte underneath shows through.
pub proof fn lemma_uncovered_byte(ws: Seq<Patch>, base: u8, pos: int)
    requires
        !covered(ws, pos),
    ensures
        byte_after(ws, base, pos) == base,
    decreases ws.len(),
{
    if ws.len() > 0 {
        assert(!ws[ws.len() - 1].covers(pos));
        assert(!covered(ws.drop_last(), pos)) by {
            if covered(ws.drop_last(), pos) {
                let i = choose|i: int| 0 <= i < ws.drop_last().len() && (#[trigger] ws.drop_last()[i]).covers(pos);
                assert(ws[i].covers(pos));
            }
        }
        lemma_uncovered_byte(ws.drop_last(), base, pos);
    }
}

/// Where some patch covers a position, the byte underneath does not matter.
pub proof fn lemma_covered_byte(ws: Seq<Patch>, a: u8, b: u8, pos: int)
    requires
        covered(ws, pos),
    ensures
        byte_after(ws, a, pos) == byte_after(ws, b, pos),
    decreases ws.len(),
{
    if ws.len() > 0 && !ws.last().covers(pos) {
        let i = choose|i: int| 0 <= i < ws.len() && (#[trigger] ws[i]).covers(pos);
        assert(i < ws.len() - 1);
        assert(ws.drop_last()[i].covers(pos));
        lemma_covered_byte(ws.drop_last(), a, b, pos);
    }
}

/// Selecting from a concatenation is concatenating the selections.
pub proof fn lemma_select_concat(a: Seq<Patch>, b: Seq<Patch>, start: int, end: int)
    ensures
        select_overlapping(a + b, start, end) == select_overlapping(a, start, end)
            + select_overlapping(b, start, end),
    decreases b.len(),
{
    if b.len() == 0 {
        assert(a + b =~= a);
        assert(select_overlapping(a, start, end) + Seq::<Patch>::empty() =~= select_overlapping(
            a,
            start,
            end,
        ));
    } else {
        assert((a + b).drop_last() =~= a + b.drop_last());
        assert((a + b).last() == b.last());
        lemma_select_concat(a, b.drop_last(), start, end);
        let sa = select_overlapping(a, start, end);
        let sb = select_overlapping(b.drop_last(), start, end);
        assert((sa + sb).push(b.last()) =~= sa + sb.push(b.last()));
    }
}

/// Inside the range, the selected patches decide every byte as the whole
/// queue does: what was left out touches no position of the range.
pub proof fn lemma_select_bytes(ws: Seq<Patch>, start: int, end: int, base: u8, pos: int)
    requires
        start <= pos < end,
    ensures
        byte_after(select_overlapping(ws, start, end), base, pos) == byte_after(ws, base, pos),
    decreases ws.len(),
{
    if ws.len() > 0 {
        lemma_select_bytes(ws.drop_last(), start, end, base, pos);
        let sel = select_overlapping(ws.drop_last(), start, end);
        if ws.last().overlaps(start, end) {
            assert(sel.push(ws.last()).drop_last() =~= sel);
        }
    }
}

/// The selection holds each overlapping patch of the queue once, and no
/// other: it is the queue read at strictly increasing indices, which are
/// exactly the indices of the patches that intersect the range.
pub proof fn lemma_select_once(ws: Seq<Patch>, start: int, end: int) -> (picks: Seq<int>)
    ensures
        picks.len() == select_overlapping(ws, start, end).len(),
        forall|a: int| 0 <= a < picks.len() ==> 0 <= #[trigger] picks[a] < ws.len(),
        forall|a: int|
            0 <= a < picks.len() ==> select_overlapping(ws, start, end)[a] == ws[#[trigger] picks[a]],
        forall|a: int, b: int| 0 <= a < b < picks.len() ==> #[trigger] picks[a] < #[trigger] picks[b],
        forall|i: int|
            0 <= i < ws.len() ==> ((#[trigger] ws[i]).overlaps(start, end) <==> picks.contains(i)),
    decreases ws.len(),
{
    if ws.len() == 0 {
        Seq::empty()
    } else {
        let init = ws.drop_last();
        let sub = lemma_select_once(init, start, end);
        let last = ws.len() - 1;
        if ws.last().overlaps(start, end) {
            let picks = sub.push(last);
            assert forall|i: int| 0 <= i < ws.len() implies ((#[trigger] ws[i]).overlaps(start, end)
                <==> picks.contains(i)) by {
                if i < last {
                    assert(init[i] == ws[i]);
                    if sub.contains(i) {
                        let a = choose|a: int| 0 <= a < sub.len() && sub[a] == i;
                        assert(picks[a] == i);
                    }
                    if picks.contains(i) {
                        let a = choose|a: int| 0 <= a < picks.len() && picks[a] == i;
                        assert(sub[a] == i);
                    }
                } else {
                    assert(picks[picks.len() - 1] == i);
                }
            }
            assert forall|a: int| 0 <= a < picks.len() implies select_overlapping(ws, start, end)[a]
                == ws[#[trigger] picks[a]] by {
                if a < sub.len() {
                    assert(init[sub[a]] == ws[sub[a]]);
                }
            }
            picks
        } else {
            assert forall|i: int| 0 <= i < ws.len() implies ((#[trigger] ws[i]).overlaps(start, end)
                <==> sub.contains(i)) by {
                if i < last {
                    assert(init[i] == ws[i]);
                } else if sub.contains(i) {
                    let a = choose|a: int| 0 <= a < sub.len() && sub[a] == i;
                    assert(sub[a] < init.len());
                }
            }
            assert forall|a: int| 0 <= a < sub.len() implies select_overlapping(ws, start, end)[a]
                == ws[#[trigger] sub[a]] by {
                assert(init[sub[a]] == ws[sub[a]]);
            }
            sub
        }
    }
}

/// The latest exact match of a concatenation lies in the second part if that
/// holds one, else in the first.
pub proof fn lemma_last_exact_concat(a: Seq<Patch>, b: Seq<Patch>, offset: int, len: int)
    ensures
        last_exact(a + b, offset, len) == match last_exact(b, offset, len) {
            Some(k) => Some(a.len() + k),
            None => last_exact(a, offset, len),
        },
    decreases b.len(),
{
    if b.len() == 0 {
        assert(a + b =~= a);
    } else {
        assert((a + b).drop_last() =~= a + b.drop_last());
        assert((a + b).last() == b.last());
        lemma_last_exact_concat(a, b.drop_last(), offset, len);
    }
}

/// What `last_exact` finds is an index of an exact match, and no later patch
/// matches.
pub proof fn lemma_last_exact_is_last(ws: Seq<Patch>, offset: int, len: int)
    ensures
        match last_exact(ws, offset, len) {
            Some(k) => {
                &&& 0 <= k < ws.len()
                &&& ws[k].is_exactly(offset, len)
                &&& forall|j: int| k < j < ws.len() ==> !(#[trigger] ws[j]).is_exactly(offset, len)
            },
            None => forall|j: int| 0 <= j < ws.len() ==> !(#[trigger] ws[j]).is_exactly(offset, len),
        },
    decreases ws.len(),
{
    if ws.len() > 0 {
        lemma_last_exact_is_last(ws.drop_last(), offset, len);
        if !ws.last().is_exactly(offset, len) {
            match last_exact(ws.drop_last(), offset, len) {
                Some(k) => {
                    assert(ws.drop_last()[k] == ws[k]);
                    assert forall|j: int| k < j < ws.len() implies !(#[trigger] ws[j]).is_exactly(
                        offset,
                        len,
                    ) by {
                        if j < ws.len() - 1 {
                            assert(ws.drop_last()[j] == ws[j]);
                        }
                    }
                },
                None => {
                    assert forall|j: int| 0 <= j < ws.len() implies !(#[trigger] ws[j]).is_exactly(
                        offset,
                        len,
                    ) by {
                        if j < ws.len() - 1 {
                            assert(ws.drop_last()[j] == ws[j]);
                        }
                    }
                },
            }
        }
    }
}

/// A patch that no later patch touches decides the bytes of its range.
pub proof fn lemma_untouched_patch_bytes(ws: Seq<Patch>, k: int, base: u8, pos: int)
    requires
        0 <= k < ws.len(),
        ws[k].covers(pos),
        forall|j: int| k < j < ws.len() ==> !(#[trigger] ws[j]).covers(pos),
    ensures
        byte_after(ws, base, pos) == ws[k].byte(pos),
    decreases ws.len(),
{
    if k < ws.len() - 1 {
        assert(!ws[ws.len() - 1].covers(pos));
        assert forall|j: int| k < j < ws.drop_last().len() implies !(#[trigger] ws.drop_last()[j]).covers(
            pos,
        ) by {
            assert(ws.drop_last()[j] == ws[j]);
        }
        assert(ws.drop_last()[k] == ws[k]);
        lemma_untouched_patch_bytes(ws.drop_last(), k, base, pos);
    }
}

} // verus!
