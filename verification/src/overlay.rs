//! Laying pending writes over bytes read from the target.

use vstd::prelude::*;
use vstd::slice::slice_subrange;
use bytes::{Bytes, BytesMut};
use crate::buf::{bytes_mut_view, bytes_view, overwrite_range};
use crate::model::{
    byte_after, exact_is_current, last_exact, lemma_last_exact_is_last, lemma_select_bytes,
    lemma_untouched_patch_bytes, merged, select_overlapping, Patch,
};
use crate::write::{all_wf, patches, PendingWrite};

verus! {

/// Read-your-writes on the merge path: laying over the bytes read only the
/// queued writes that intersect the range gives, byte for byte, the overlay
/// of every queued write in arrival order on the store's image of the range.
pub proof fn lemma_read_your_writes(writes: Seq<Patch>, disk: Seq<u8>, offset: int)
    ensures
        merged(disk, offset, select_overlapping(writes, offset, offset + disk.len())) == merged(
            disk,
            offset,
            writes,
        ),
        forall|i: int|
            0 <= i < disk.len() ==> #[trigger] merged(disk, offset, writes)[i] == byte_after(
                writes,
                disk[i],
                offset + i,
            ),
{
    let picked = select_overlapping(writes, offset, offset + disk.len());
    assert forall|i: int| 0 <= i < disk.len() implies merged(disk, offset, picked)[i] == merged(
        disk,
        offset,
        writes,
    )[i] by {
        lemma_select_bytes(writes, offset, offset + disk.len(), disk[i], offset + i);
    }
    assert(merged(disk, offset, picked) =~= merged(disk, offset, writes));
}

/// Read-your-writes on the short cut: the payload of the latest write to
/// exactly the range read is the overlay of every queued write on the range,
/// provided no write that arrived after it touches the range.
pub proof fn lemma_exact_match_is_overlay(writes: Seq<Patch>, disk: Seq<u8>, offset: int)
    requires
        last_exact(writes, offset, disk.len() as int) is Some,
        exact_is_current(writes, offset, disk.len() as int),
    ensures
        writes[last_exact(writes, offset, disk.len() as int).unwrap()].data == merged(
            disk,
            offset,
            writes,
        ),
{
    let k = last_exact(writes, offset, disk.len() as int).unwrap();
    lemma_last_exact_is_last(writes, offset, disk.len() as int);
    assert forall|i: int| 0 <= i < disk.len() implies writes[k].data[i] == merged(
        disk,
        offset,
        writes,
    )[i] by {
        let pos = offset + i;
        assert forall|j: int| k < j < writes.len() implies !(#[trigger] writes[j]).covers(pos) by {
            assert(!writes[j].overlaps(offset, offset + disk.len()));
        }
        lemma_untouched_patch_bytes(writes, k, disk[i], pos);
    }
    assert(writes[k].data =~= merged(disk, offset, writes));
}

/// Lays `layers`, in order, over `disk`, the bytes that the target returned
/// for the range starting at `offset`.
///
/// Each patch contributes the part of it that falls inside the range; a later
/// patch overwrites an earlier one where they meet. Patches that miss the
/// range altogether are passed over.
pub fn overlay(disk: &Bytes, layers: &Vec<PendingWrite>, offset: u64) -> (r: Bytes)
    requires
        all_wf(layers@),
        offset + bytes_view(*disk).len() <= u64::MAX,
    ensures
        bytes_view(r) == merged(bytes_view(*disk), offset as int, patches(layers@)),
{
    let disk_slice = disk.as_ref();
    let n: usize = disk_slice.len();
    let read_end: u64 = offset + n as u64;
    let mut buf = BytesMut::from(disk_slice);
    let ghost base = bytes_view(*disk);
    let ghost all = patches(layers@);
    let mut k: usize = 0;
    proof {
        assert(all.take(0) =~= Seq::<Patch>::empty());
        assert(bytes_mut_view(buf) =~= merged(base, offset as int, all.take(0)));
    }
    while k < layers.len()
        invariant
            0 <= k <= layers.len(),
            all_wf(layers@),
            all == patches(layers@),
            base == bytes_view(*disk),
            base.len() == n,
            read_end == offset + n,
            bytes_mut_view(buf) == merged(base, offset as int, all.take(k as int)),
        decreases layers.len() - k,
    {
        let patch = &layers[k];
        let ghost before = bytes_mut_view(buf);
        let ghost w = patch@;
        proof {
            assert(patch.wf());
            assert(all.take(k + 1).last() == w);
            assert(all.take(k + 1).drop_last() =~= all.take(k as int));
        }
        let p_start: u64 = patch.offset;
        let p_end: u64 = patch.offset + patch.data.len() as u64;
        if !(p_start >= read_end || p_end <= offset) {
            let start_in_buf: usize = if p_start > offset {
                (p_start - offset) as usize
            } else {
                0
            };
            let end_in_buf: usize = if p_end < read_end {
                (p_end - offset) as usize
            } else {
                (read_end - offset) as usize
            };
            let start_in_patch: usize = if p_start < offset {
                (offset - p_start) as usize
            } else {
                0
            };
            let len_to_copy: usize = end_in_buf - start_in_buf;
            let src = slice_subrange(
                patch.data.as_ref(),
                start_in_patch,
                start_in_patch + len_to_copy,
            );
            overwrite_range(&mut buf, start_in_buf, end_in_buf, src);
            proof {
                let after = bytes_mut_view(buf);
                let goal = merged(base, offset as int, all.take(k + 1));
                assert(after.len() == goal.len());
                assert forall|i: int| 0 <= i < after.len() implies after[i] == goal[i] by {
                    if start_in_buf <= i < end_in_buf {
                        assert(after[i] == src@[i - start_in_buf]);
                        assert(w.covers(offset + i));
                    } else {
                        assert(after[i] == before[i]);
                        assert(!w.covers(offset + i));
                    }
                }
                assert(after =~= goal);
            }
        } else {
            proof {
                let goal = merged(base, offset as int, all.take(k + 1));
                assert forall|i: int| 0 <= i < before.len() implies before[i] == goal[i] by {
                    assert(!w.covers(offset + i));
                }
                assert(before =~= goal);
            }
        }
        k += 1;
    }
    proof {
        assert(all.take(layers.len() as int) =~= all);
    }
    buf.freeze()
}

} // verus!
