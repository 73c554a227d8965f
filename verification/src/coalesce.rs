//! Merging adjacent writes into contiguous runs.

use vstd::prelude::*;
use bytes::BytesMut;
use crate::buf::bytes_mut_view;
use crate::model::{
    byte_after, covered, lemma_tally_nonneg, lemma_tally_push, lemma_tally_take, tally, Patch,
};
use crate::order::{lemma_stable_sort_bytes, overlaps_in_offset_order, stable_sort};
use crate::write::{all_wf, patches, PendingWrite};

verus! {

/// The runs that `ws` merges into when walked front to back: a patch that
/// begins exactly where the run built so far ends is appended to it, any
/// other patch starts a new run.
pub open spec fn coalesced(ws: Seq<Patch>) -> Seq<Patch>
    decreases ws.len(),
{
    if ws.len() == 0 {
        Seq::empty()
    } else {
        let runs = coalesced(ws.drop_last());
        let w = ws.last();
        if runs.len() > 0 && w.follows(runs.last()) {
            runs.drop_last().push(
                Patch { offset: runs.last().offset, data: runs.last().data + w.data },
            )
        } else {
            runs.push(w)
        }
    }
}

/// Whether every patch of `ws` but the first begins where the one before it
/// ends.
pub open spec fn is_chain(ws: Seq<Patch>) -> bool {
    forall|i: int| 0 < i < ws.len() ==> (#[trigger] ws[i]).follows(ws[i - 1])
}

/// The payloads of `ws` laid end to end.
pub open spec fn joined(ws: Seq<Patch>) -> Seq<u8>
    decreases ws.len(),
{
    if ws.len() == 0 {
        Seq::empty()
    } else {
        joined(ws.drop_last()) + ws.last().data
    }
}

/// Merging never yields more runs than there are patches, yields one at
/// least where there is a patch, keeps the byte count, and ends where the
/// last patch ends.
pub proof fn lemma_coalesced_shape(ws: Seq<Patch>)
    ensures
        coalesced(ws).len() <= ws.len(),
        ws.len() > 0 ==> coalesced(ws).len() > 0,
        ws.len() > 0 ==> coalesced(ws).last().end() == ws.last().end(),
        ws.len() > 0 ==> coalesced(ws)[0].offset == ws[0].offset,
        tally(coalesced(ws)) == tally(ws),
    decreases ws.len(),
{
    if ws.len() > 0 {
        let init = ws.drop_last();
        let runs = coalesced(init);
        let w = ws.last();
        lemma_coalesced_shape(init);
        if runs.len() > 0 && w.follows(runs.last()) {
            let m = Patch { offset: runs.last().offset, data: runs.last().data + w.data };
            lemma_tally_push(runs.drop_last(), m);
            lemma_tally_push(runs.drop_last(), runs.last());
            assert(runs.drop_last().push(runs.last()) =~= runs);
            if runs.len() > 1 {
                assert(runs.drop_last().push(m)[0] == runs[0]);
                assert(init[0] == ws[0]);
            } else {
                assert(init[0] == ws[0]);
            }
        } else {
            lemma_tally_push(runs, w);
            if runs.len() > 0 {
                assert(runs.push(w)[0] == runs[0]);
                assert(init[0] == ws[0]);
            }
        }
    }
}

/// Issuing the merged runs leaves every byte as issuing the patches one by
/// one would.
pub proof fn lemma_coalesced_bytes(ws: Seq<Patch>, base: u8, pos: int)
    ensures
        byte_after(coalesced(ws), base, pos) == byte_after(ws, base, pos),
    decreases ws.len(),
{
    if ws.len() > 0 {
        let init = ws.drop_last();
        let runs = coalesced(init);
        let w = ws.last();
        lemma_coalesced_bytes(init, base, pos);
        if runs.len() > 0 && w.follows(runs.last()) {
            let last = runs.last();
            let rest = runs.drop_last();
            let m = Patch { offset: last.offset, data: last.data + w.data };
            assert(rest.push(m).drop_last() =~= rest);
            assert(rest.push(m).last() == m);
            assert(m.covers(pos) <==> last.covers(pos) || w.covers(pos));
            assert(byte_after(runs, base, pos) == if last.covers(pos) {
                last.byte(pos)
            } else {
                byte_after(rest, base, pos)
            });
            if w.covers(pos) {
                assert(m.byte(pos) == w.byte(pos));
            } else if last.covers(pos) {
                assert(m.byte(pos) == last.byte(pos));
            }
        } else {
            assert(runs.push(w).drop_last() =~= runs);
        }
    }
}

/// A run covers only positions that one of the merged patches covers.
pub proof fn lemma_coalesced_covered(ws: Seq<Patch>, pos: int)
    requires
        covered(coalesced(ws), pos),
    ensures
        covered(ws, pos),
    decreases ws.len(),
{
    if ws.len() > 0 {
        let init = ws.drop_last();
        let runs = coalesced(init);
        let w = ws.last();
        let out = coalesced(ws);
        let k = choose|k: int| 0 <= k < out.len() && (#[trigger] out[k]).covers(pos);
        if w.covers(pos) {
            assert(ws[ws.len() - 1].covers(pos));
        } else {
            if runs.len() > 0 && w.follows(runs.last()) {
                if k < out.len() - 1 {
                    assert(runs[k].covers(pos));
                } else {
                    assert(runs[runs.len() - 1].covers(pos));
                }
            } else {
                assert(k < runs.len());
                assert(runs[k].covers(pos));
            }
            assert(covered(runs, pos));
            lemma_coalesced_covered(init, pos);
            let i = choose|i: int| 0 <= i < init.len() && (#[trigger] init[i]).covers(pos);
            assert(ws[i].covers(pos));
        }
    }
}

/// No run of a flush ends beyond where the last of the queued writes ends:
/// a target that takes every write up to `bound` takes every run.
pub proof fn lemma_runs_end_within(queued: Seq<Patch>, bound: int)
    requires
        forall|i: int| 0 <= i < queued.len() ==> (#[trigger] queued[i]).end() <= bound,
    ensures
        forall|k: int|
            0 <= k < coalesced(stable_sort(queued)).len() ==> (#[trigger] coalesced(
                stable_sort(queued),
            )[k]).end() <= bound,
{
    let sorted = stable_sort(queued);
    crate::order::lemma_stable_sort_properties(queued);
    assert forall|i: int| 0 <= i < sorted.len() implies (#[trigger] sorted[i]).end() <= bound by {
        assert(queued.contains(sorted[i]));
        let j = choose|j: int| 0 <= j < queued.len() && queued[j] == sorted[i];
        assert(queued[j].end() <= bound);
    }
    lemma_coalesced_ends(sorted, bound);
}

/// Merging ends no run beyond where the last of the merged patches ends.
pub proof fn lemma_coalesced_ends(ws: Seq<Patch>, bound: int)
    requires
        forall|i: int| 0 <= i < ws.len() ==> (#[trigger] ws[i]).end() <= bound,
    ensures
        forall|k: int| 0 <= k < coalesced(ws).len() ==> (#[trigger] coalesced(ws)[k]).end() <= bound,
    decreases ws.len(),
{
    if ws.len() > 0 {
        let init = ws.drop_last();
        let runs = coalesced(init);
        let w = ws.last();
        let out = coalesced(ws);
        assert forall|i: int| 0 <= i < init.len() implies (#[trigger] init[i]).end() <= bound by {
            assert(init[i] == ws[i]);
        }
        lemma_coalesced_ends(init, bound);
        assert(ws[ws.len() - 1].end() <= bound);
        assert forall|k: int| 0 <= k < out.len() implies (#[trigger] out[k]).end() <= bound by {
            if runs.len() > 0 && w.follows(runs.last()) {
                if k < out.len() - 1 {
                    assert(out[k] == runs[k]);
                }
            } else {
                if k < runs.len() {
                    assert(out[k] == runs[k]);
                }
            }
        }
    }
}

/// No run begins where the run before it ends: what could be merged was.
pub proof fn lemma_coalesced_maximal(ws: Seq<Patch>)
    ensures
        forall|i: int| 0 < i < coalesced(ws).len() ==> !(#[trigger] coalesced(ws)[i]).follows(coalesced(ws)[i - 1]),
    decreases ws.len(),
{
    if ws.len() > 0 {
        let init = ws.drop_last();
        let runs = coalesced(init);
        let w = ws.last();
        lemma_coalesced_maximal(init);
        let out = coalesced(ws);
        if runs.len() > 0 && w.follows(runs.last()) {
            let m = Patch { offset: runs.last().offset, data: runs.last().data + w.data };
            assert forall|i: int| 0 < i < out.len() implies !(#[trigger] out[i]).follows(out[i - 1]) by {
                assert(out[i - 1] == runs[i - 1]);
                if i < out.len() - 1 {
                    assert(out[i] == runs[i]);
                } else {
                    assert(out[i] == m);
                    assert(!runs[i].follows(runs[i - 1]));
                }
            }
        } else {
            assert forall|i: int| 0 < i < out.len() implies !(#[trigger] out[i]).follows(out[i - 1]) by {
                if i < runs.len() {
                    assert(out[i] == runs[i]);
                    assert(out[i - 1] == runs[i - 1]);
                } else {
                    assert(out[i] == w);
                    assert(out[i - 1] == runs.last());
                }
            }
        }
    }
}

/// A chain merges into a single run that starts where the chain starts and
/// carries all of its bytes.
pub proof fn lemma_chain_is_one_run(ws: Seq<Patch>)
    requires
        ws.len() > 0,
        is_chain(ws),
    ensures
        coalesced(ws) == seq![Patch { offset: ws[0].offset, data: joined(ws) }],
    decreases ws.len(),
{
    let init = ws.drop_last();
    let w = ws.last();
    if init.len() == 0 {
        assert(coalesced(init) =~= Seq::<Patch>::empty());
        assert(joined(init) =~= Seq::<u8>::empty());
        assert(joined(ws) =~= w.data);
        assert(ws[0] == w);
        assert(coalesced(ws) =~= seq![Patch { offset: ws[0].offset, data: joined(ws) }]);
    } else {
        assert(is_chain(init)) by {
            assert forall|i: int| 0 < i < init.len() implies (#[trigger] init[i]).follows(init[i - 1]) by {
                assert(init[i] == ws[i] && init[i - 1] == ws[i - 1]);
                assert(ws[i].follows(ws[i - 1]));
            }
        }
        lemma_chain_is_one_run(init);
        lemma_coalesced_shape(init);
        let runs = coalesced(init);
        assert(runs.last().end() == init.last().end());
        assert(init.last() == ws[ws.len() - 2]);
        assert(ws[ws.len() - 1].follows(ws[ws.len() - 2]));
        assert(w.follows(runs.last()));
        assert(init[0] == ws[0]);
        assert(runs.drop_last() =~= Seq::<Patch>::empty());
        assert(coalesced(ws) =~= seq![Patch { offset: ws[0].offset, data: joined(ws) }]);
    }
}

/// A flush preserves content: where overlapping writes arrived in offset
/// order, the runs that a flush issues leave every byte of the store as the
/// queued writes, laid over it in arrival order, showed it to readers.
pub proof fn lemma_flush_preserves_content(queued: Seq<Patch>, base: u8, pos: int)
    requires
        overlaps_in_offset_order(queued),
    ensures
        byte_after(coalesced(stable_sort(queued)), base, pos) == byte_after(queued, base, pos),
{
    lemma_coalesced_bytes(stable_sort(queued), base, pos);
    lemma_stable_sort_bytes(queued, base, pos);
}

/// Adjacency merging: queued writes that, put in offset order, form one
/// contiguous range are issued as a single write of the whole range.
pub proof fn lemma_contiguous_queue_is_one_write(queued: Seq<Patch>)
    requires
        queued.len() > 0,
        is_chain(stable_sort(queued)),
    ensures
        coalesced(stable_sort(queued)) == seq![
            Patch { offset: stable_sort(queued)[0].offset, data: joined(stable_sort(queued)) },
        ],
{
    crate::order::lemma_stable_sort_properties(queued);
    lemma_chain_is_one_run(stable_sort(queued));
}

/// Merges adjacent writes of `sorted` into runs, front to back. Each run is
/// one buffer holding the payloads of its writes end to end.
pub fn coalesce(sorted: &Vec<PendingWrite>) -> (runs: Vec<PendingWrite>)
    requires
        all_wf(sorted@),
        tally(patches(sorted@)) <= isize::MAX,
    ensures
        patches(runs@) == coalesced(patches(sorted@)),
        all_wf(runs@),
{
    let n: usize = sorted.len();
    let ghost all = patches(sorted@);
    let mut runs: Vec<PendingWrite> = Vec::new();
    let mut i: usize = 0;
    proof {
        assert(all.take(0) =~= Seq::<Patch>::empty());
        assert(patches(runs@) =~= Seq::<Patch>::empty());
    }
    while i < n
        invariant
            0 <= i <= n,
            n == sorted.len(),
            all == patches(sorted@),
            all_wf(sorted@),
            all_wf(runs@),
            tally(all) <= isize::MAX,
            patches(runs@) == coalesced(all.take(i as int)),
            i < n && runs@.len() > 0 ==> !all[i as int].follows(patches(runs@).last()),
        decreases n - i,
    {
        let first = &sorted[i];
        let mut combined = BytesMut::new();
        proof {
            lemma_tally_take(all, i + 1);
            assert(all.take(i + 1).drop_last() =~= all.take(i as int));
            lemma_tally_nonneg(all.take(i as int));
        }
        combined.extend_from_slice(first.data.as_ref());
        let start_offset: u64 = first.offset;
        let ghost emitted = patches(runs@);
        let ghost begin = i;
        proof {
            assert(first.wf());
            assert(all.take(i + 1).last() == first@);
            assert(bytes_mut_view(combined) =~= first@.data);
            assert(first@ == (Patch { offset: start_offset as int, data: bytes_mut_view(combined) }));
            assert(all[i as int] == first@);
        }
        i += 1;
        while i < n && start_offset + combined.len() as u64 == sorted[i].offset
            invariant
                begin < i <= n,
                n == sorted.len(),
                all == patches(sorted@),
                all_wf(sorted@),
                tally(all) <= isize::MAX,
                emitted == patches(runs@),
                start_offset + bytes_mut_view(combined).len() == all[i - 1].end(),
                all[i - 1].end() <= u64::MAX,
                bytes_mut_view(combined).len() <= tally(all.take(i as int)),
                emitted.push(
                    Patch { offset: start_offset as int, data: bytes_mut_view(combined) },
                ) == coalesced(all.take(i as int)),
            decreases n - i,
        {
            let next = &sorted[i];
            proof {
                assert(next.wf());
                assert(all.take(i + 1).drop_last() =~= all.take(i as int));
                assert(all.take(i + 1).last() == next@);
                let cur = Patch { offset: start_offset as int, data: bytes_mut_view(combined) };
                assert(emitted.push(cur).last() == cur);
                assert(emitted.push(cur).drop_last() =~= emitted);
                lemma_tally_take(all, i + 1);
            }
            combined.extend_from_slice(next.data.as_ref());
            i += 1;
        }
        let ghost cur = Patch { offset: start_offset as int, data: bytes_mut_view(combined) };
        let run = PendingWrite { offset: start_offset, data: combined.freeze() };
        proof {
            assert(run@ == cur);
            assert(patches(runs@.push(run)) =~= emitted.push(cur));
            assert forall|j: int| 0 <= j < runs@.push(run).len() implies (#[trigger] runs@.push(run)[j]).wf() by {
                if j < runs@.len() {
                    assert(runs@[j].wf());
                }
            }
            if i < n {
                assert(sorted@[i as int].wf());
            }
        }
        runs.push(run);
        proof {
            assert(patches(runs@).last() == cur);
        }
    }
    proof {
        assert(all.take(n as int) =~= all);
    }
    runs
}

} // verus!
