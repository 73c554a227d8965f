//! Ordering queued writes by offset, ties kept in arrival order.

use vstd::prelude::*;
use crate::model::{byte_after, covered, lemma_tally_push, tally, Patch};
use crate::write::{all_wf, patches, PendingWrite};

verus! {

/// `s` with `w` placed behind the last patch whose offset does not exceed
/// `w`'s own.
pub open spec fn insert_sorted(s: Seq<Patch>, w: Patch) -> Seq<Patch>
    decreases s.len(),
{
    if s.len() == 0 || s.last().offset <= w.offset {
        s.push(w)
    } else {
        insert_sorted(s.drop_last(), w).push(s.last())
    }
}

/// The patches of `ws` in ascending order of offset; patches with the same
/// offset stay in the order they have in `ws`.
pub open spec fn stable_sort(ws: Seq<Patch>) -> Seq<Patch>
    decreases ws.len(),
{
    if ws.len() == 0 {
        Seq::empty()
    } else {
        insert_sorted(stable_sort(ws.drop_last()), ws.last())
    }
}

/// Whether offsets never decrease along `s`.
pub open spec fn sorted_by_offset(s: Seq<Patch>) -> bool {
    forall|i: int, j: int| 0 <= i < j < s.len() ==> (#[trigger] s[i]).offset <= (#[trigger] s[j]).offset
}

/// Whether two patches write a common position, or would if neither were
/// empty.
pub open spec fn ranges_meet(a: Patch, b: Patch) -> bool {
    a.offset < b.end() && b.offset < a.end()
}

/// Whether, of any two patches of `ws` whose ranges meet, the one that
/// arrived first starts no later than the other.
pub open spec fn overlaps_in_offset_order(ws: Seq<Patch>) -> bool {
    forall|i: int, j: int|
        0 <= i < j < ws.len() && ranges_meet(#[trigger] ws[i], #[trigger] ws[j]) ==> ws[i].offset
            <= ws[j].offset
}

/// The patches of `ws` that start at `offset`, in their order in `ws`.
pub open spec fn starting_at(ws: Seq<Patch>, offset: int) -> Seq<Patch>
    decreases ws.len(),
{
    if ws.len() == 0 {
        Seq::empty()
    } else if ws.last().offset == offset {
        starting_at(ws.drop_last(), offset).push(ws.last())
    } else {
        starting_at(ws.drop_last(), offset)
    }
}

/// Inserting where the scan from the back stops is the same as
/// `insert_sorted`.
pub proof fn lemma_insert_sorted_at(s: Seq<Patch>, w: Patch, pos: int)
    requires
        0 <= pos <= s.len(),
        forall|j: int| pos <= j < s.len() ==> (#[trigger] s[j]).offset > w.offset,
        pos > 0 ==> s[pos - 1].offset <= w.offset,
    ensures
        insert_sorted(s, w) == s.insert(pos, w),
    decreases s.len() - pos,
{
    if pos == s.len() {
        assert(s.insert(pos, w) =~= s.push(w));
    } else {
        assert(s.last().offset > w.offset);
        lemma_insert_sorted_at(s.drop_last(), w, pos);
        assert(s.drop_last().insert(pos, w).push(s.last()) =~= s.insert(pos, w));
    }
}

/// Insertion lengthens by one and keeps every patch.
pub proof fn lemma_insert_sorted_members(s: Seq<Patch>, w: Patch)
    ensures
        insert_sorted(s, w).len() == s.len() + 1,
        forall|k: int|
            0 <= k < insert_sorted(s, w).len() ==> (#[trigger] insert_sorted(s, w)[k]) == w
                || s.contains(insert_sorted(s, w)[k]),
        insert_sorted(s, w).to_multiset() == s.to_multiset().insert(w),
    decreases s.len(),
{
    broadcast use vstd::seq_lib::group_to_multiset_ensures;

    if s.len() == 0 || s.last().offset <= w.offset {
        assert forall|k: int| 0 <= k < s.push(w).len() implies (#[trigger] s.push(w)[k]) == w
            || s.contains(s.push(w)[k]) by {
            if k < s.len() {
                assert(s[k] == s.push(w)[k]);
            }
        }
    } else {
        let t = s.drop_last();
        lemma_insert_sorted_members(t, w);
        let r = insert_sorted(t, w);
        assert forall|k: int| 0 <= k < r.push(s.last()).len() implies (#[trigger] r.push(
            s.last(),
        )[k]) == w || s.contains(r.push(s.last())[k]) by {
            if k < r.len() {
                assert(r.push(s.last())[k] == r[k]);
                if r[k] != w {
                    assert(t.contains(r[k]));
                    let i = choose|i: int| 0 <= i < t.len() && t[i] == r[k];
                    assert(s[i] == r[k]);
                }
            } else {
                assert(s[s.len() - 1] == s.last());
            }
        }
        assert(s =~= t.push(s.last()));
        assert(r.push(s.last()).to_multiset() =~= s.to_multiset().insert(w));
    }
}

/// Insertion into a sorted sequence gives a sorted sequence.
pub proof fn lemma_insert_sorted_keeps_order(s: Seq<Patch>, w: Patch)
    requires
        sorted_by_offset(s),
    ensures
        sorted_by_offset(insert_sorted(s, w)),
    decreases s.len(),
{
    if s.len() == 0 || s.last().offset <= w.offset {
        let r = s.push(w);
        assert forall|i: int, j: int| 0 <= i < j < r.len() implies (#[trigger] r[i]).offset <= (
        #[trigger] r[j]).offset by {
            if j < s.len() {
                assert(r[i] == s[i] && r[j] == s[j]);
            } else {
                assert(r[i] == s[i]);
                assert(s[i].offset <= s.last().offset) by {
                    if i < s.len() - 1 {
                        assert(s[i].offset <= s[s.len() - 1].offset);
                    }
                }
            }
        }
    } else {
        let t = s.drop_last();
        assert(sorted_by_offset(t)) by {
            assert forall|i: int, j: int| 0 <= i < j < t.len() implies (#[trigger] t[i]).offset <= (
            #[trigger] t[j]).offset by {
                assert(t[i] == s[i] && t[j] == s[j]);
            }
        }
        lemma_insert_sorted_keeps_order(t, w);
        lemma_insert_sorted_members(t, w);
        let q = insert_sorted(t, w);
        let r = q.push(s.last());
        assert forall|i: int, j: int| 0 <= i < j < r.len() implies (#[trigger] r[i]).offset <= (
        #[trigger] r[j]).offset by {
            if j < q.len() {
                assert(r[i] == q[i] && r[j] == q[j]);
            } else {
                assert(r[i] == q[i]);
                if q[i] != w {
                    assert(t.contains(q[i]));
                    let k = choose|k: int| 0 <= k < t.len() && t[k] == q[i];
                    assert(s[k].offset <= s[s.len() - 1].offset);
                }
            }
        }
    }
}

/// Insertion leaves the patches at each offset in their order, with `w`
/// behind those that share its offset.
pub proof fn lemma_insert_sorted_starting_at(s: Seq<Patch>, w: Patch, offset: int)
    ensures
        starting_at(insert_sorted(s, w), offset) == if w.offset == offset {
            starting_at(s, offset).push(w)
        } else {
            starting_at(s, offset)
        },
    decreases s.len(),
{
    if s.len() == 0 || s.last().offset <= w.offset {
        assert(s.push(w).drop_last() =~= s);
    } else {
        let t = s.drop_last();
        lemma_insert_sorted_starting_at(t, w, offset);
        let q = insert_sorted(t, w);
        assert(q.push(s.last()).drop_last() =~= q);
    }
}

/// The sorted sequence is as long as the input, sorted, a rearrangement of
/// it, and stable: at every offset it holds the same patches in the same
/// order.
pub proof fn lemma_stable_sort_properties(ws: Seq<Patch>)
    ensures
        stable_sort(ws).len() == ws.len(),
        sorted_by_offset(stable_sort(ws)),
        stable_sort(ws).to_multiset() == ws.to_multiset(),
        forall|k: int|
            0 <= k < stable_sort(ws).len() ==> ws.contains(#[trigger] stable_sort(ws)[k]),
        forall|offset: int| #[trigger] starting_at(stable_sort(ws), offset) == starting_at(ws, offset),
    decreases ws.len(),
{
    broadcast use vstd::seq_lib::group_to_multiset_ensures;

    if ws.len() == 0 {
    } else {
        let init = ws.drop_last();
        let w = ws.last();
        let s = stable_sort(init);
        lemma_stable_sort_properties(init);
        lemma_insert_sorted_members(s, w);
        lemma_insert_sorted_keeps_order(s, w);
        assert(ws =~= init.push(w));
        let r = insert_sorted(s, w);
        assert forall|k: int| 0 <= k < r.len() implies ws.contains(#[trigger] r[k]) by {
            if r[k] == w {
                assert(ws[ws.len() - 1] == w);
            } else {
                assert(s.contains(r[k]));
                let a = choose|a: int| 0 <= a < s.len() && s[a] == r[k];
                assert(init.contains(s[a]));
                let b = choose|b: int| 0 <= b < init.len() && init[b] == s[a];
                assert(ws[b] == r[k]);
            }
        }
        assert forall|offset: int| #[trigger]
            starting_at(stable_sort(ws), offset) == starting_at(ws, offset) by {
            lemma_insert_sorted_starting_at(s, w, offset);
            assert(starting_at(s, offset) == starting_at(init, offset));
        }
    }
}

/// Placing `w` before patches that it does not meet changes no byte.
pub proof fn lemma_insert_sorted_bytes(s: Seq<Patch>, w: Patch, base: u8, pos: int)
    requires
        forall|k: int| 0 <= k < s.len() && (#[trigger] s[k]).offset > w.offset ==> !ranges_meet(s[k], w),
    ensures
        byte_after(insert_sorted(s, w), base, pos) == byte_after(s.push(w), base, pos),
    decreases s.len(),
{
    if s.len() == 0 || s.last().offset <= w.offset {
    } else {
        let t = s.drop_last();
        let last = s.last();
        assert forall|k: int| 0 <= k < t.len() && (#[trigger] t[k]).offset > w.offset implies !ranges_meet(
            t[k],
            w,
        ) by {
            assert(t[k] == s[k]);
        }
        lemma_insert_sorted_bytes(t, w, base, pos);
        let q = insert_sorted(t, w);
        assert(q.push(last).drop_last() =~= q);
        assert(q.push(last).last() == last);
        assert(t.push(w).drop_last() =~= t);
        assert(s.push(w).drop_last() =~= s);
        assert(s[s.len() - 1] == last);
        assert(!ranges_meet(last, w));
        assert(!(last.covers(pos) && w.covers(pos)));
        assert(byte_after(s, base, pos) == if last.covers(pos) {
            last.byte(pos)
        } else {
            byte_after(t, base, pos)
        });
        assert(byte_after(t.push(w), base, pos) == if w.covers(pos) {
            w.byte(pos)
        } else {
            byte_after(t, base, pos)
        });
        assert(byte_after(s.push(w), base, pos) == if w.covers(pos) {
            w.byte(pos)
        } else {
            byte_after(s, base, pos)
        });
        assert(byte_after(q.push(last), base, pos) == if last.covers(pos) {
            last.byte(pos)
        } else {
            byte_after(q, base, pos)
        });
    }
}

/// Where overlapping writes arrived in offset order, issuing them sorted
/// leaves every byte as issuing them in arrival order would.
pub proof fn lemma_stable_sort_bytes(ws: Seq<Patch>, base: u8, pos: int)
    requires
        overlaps_in_offset_order(ws),
    ensures
        byte_after(stable_sort(ws), base, pos) == byte_after(ws, base, pos),
    decreases ws.len(),
{
    if ws.len() > 0 {
        let init = ws.drop_last();
        let w = ws.last();
        let s = stable_sort(init);
        assert(overlaps_in_offset_order(init)) by {
            assert forall|i: int, j: int|
                0 <= i < j < init.len() && ranges_meet(
                    #[trigger] init[i],
                    #[trigger] init[j],
                ) implies init[i].offset <= init[j].offset by {
                assert(init[i] == ws[i] && init[j] == ws[j]);
            }
        }
        lemma_stable_sort_bytes(init, base, pos);
        lemma_stable_sort_properties(init);
        assert forall|k: int| 0 <= k < s.len() && (#[trigger] s[k]).offset > w.offset implies !ranges_meet(
            s[k],
            w,
        ) by {
            assert(init.contains(s[k]));
            let i = choose|i: int| 0 <= i < init.len() && init[i] == s[k];
            assert(ws[i] == s[k]);
            assert(ws[ws.len() - 1] == w);
            if ranges_meet(s[k], w) {
                assert(ranges_meet(ws[i], ws[ws.len() - 1]));
                assert(ws[i].offset <= ws[ws.len() - 1].offset);
            }
        }
        lemma_insert_sorted_bytes(s, w, base, pos);
        assert(s.push(w).drop_last() =~= s);
    }
}

/// Insertion adds the length of the patch to the tally.
pub proof fn lemma_insert_sorted_tally(s: Seq<Patch>, w: Patch)
    ensures
        tally(insert_sorted(s, w)) == tally(s) + w.data.len(),
    decreases s.len(),
{
    if s.len() == 0 || s.last().offset <= w.offset {
        lemma_tally_push(s, w);
    } else {
        lemma_insert_sorted_tally(s.drop_last(), w);
        lemma_tally_push(insert_sorted(s.drop_last(), w), s.last());
    }
}

/// Sorting keeps the tally.
pub proof fn lemma_stable_sort_tally(ws: Seq<Patch>)
    ensures
        tally(stable_sort(ws)) == tally(ws),
    decreases ws.len(),
{
    if ws.len() > 0 {
        lemma_stable_sort_tally(ws.drop_last());
        lemma_insert_sorted_tally(stable_sort(ws.drop_last()), ws.last());
    }
}

/// Sorting covers no position that was not covered before.
pub proof fn lemma_stable_sort_covered(ws: Seq<Patch>, pos: int)
    requires
        covered(stable_sort(ws), pos),
    ensures
        covered(ws, pos),
{
    let s = stable_sort(ws);
    lemma_stable_sort_properties(ws);
    let k = choose|k: int| 0 <= k < s.len() && (#[trigger] s[k]).covers(pos);
    assert(ws.contains(s[k]));
    let i = choose|i: int| 0 <= i < ws.len() && ws[i] == s[k];
    assert(ws[i].covers(pos));
}

/// Sorts a queue's writes for issuing: ascending by offset, ties in arrival
/// order. The result holds handles on the same payloads.
///
/// An insertion sort: linear when the writes arrived in offset order, which
/// is what sequential writers produce.
pub fn sort_by_offset(writes: &Vec<PendingWrite>) -> (sorted: Vec<PendingWrite>)
    ensures
        patches(sorted@) == stable_sort(patches(writes@)),
        sorted@.len() == writes@.len(),
        all_wf(writes@) ==> all_wf(sorted@),
{
    let mut out: Vec<PendingWrite> = Vec::new();
    let mut i: usize = 0;
    let ghost all = patches(writes@);
    proof {
        assert(all.take(0) =~= Seq::<Patch>::empty());
        assert(patches(out@) =~= Seq::<Patch>::empty());
    }
    while i < writes.len()
        invariant
            0 <= i <= writes.len(),
            all == patches(writes@),
            out@.len() == i,
            patches(out@) == stable_sort(all.take(i as int)),
            all_wf(writes@) ==> all_wf(out@),
        decreases writes.len() - i,
    {
        let w = writes[i].clone();
        let mut pos: usize = out.len();
        while pos > 0 && out[pos - 1].offset > w.offset
            invariant
                0 <= pos <= out.len(),
                forall|j: int| pos <= j < out.len() ==> (#[trigger] patches(out@)[j]).offset > w@.offset,
            decreases pos,
        {
            pos -= 1;
        }
        proof {
            let s = patches(out@);
            assert(pos > 0 ==> s[pos - 1].offset <= w@.offset);
            lemma_insert_sorted_at(s, w@, pos as int);
            assert(all.take(i + 1).drop_last() =~= all.take(i as int));
            assert(all.take(i + 1).last() == w@);
            assert(patches(out@.insert(pos as int, w)) =~= s.insert(pos as int, w@));
            if all_wf(writes@) {
                assert(writes@[i as int].wf());
                assert forall|j: int| 0 <= j < out@.insert(pos as int, w).len() implies (
                #[trigger] out@.insert(pos as int, w)[j]).wf() by {
                    if j < pos {
                        assert(out@[j].wf());
                    } else if j > pos {
                        assert(out@[j - 1].wf());
                    }
                }
            }
        }
        out.insert(pos, w);
        i += 1;
    }
    proof {
        assert(all.take(writes.len() as int) =~= all);
    }
    out
}

} // verus!
