//! The set of registered targets, by numeric identifier.

use vstd::prelude::*;
use dashmap::DashMap;
use std::time::Duration;
use crate::ctx::{flush_result, IoContext};
use crate::error::Error;
use crate::metrics::idle_spec;
use crate::read::BufferReader;
use crate::target::IoTarget;
use crate::write::BufferWriter;

verus! {

/// `dashmap::DashMap`, a concurrent hash map.
#[verifier::external_type_specification]
#[verifier::external_body]
#[verifier::reject_recursive_types(K)]
#[verifier::reject_recursive_types(V)]
#[verifier::reject_recursive_types(S)]
pub struct ExDashMap<K, V, S>(DashMap<K, V, S>);

/// What an index holds: the slot recorded for each identifier in it.
pub uninterp spec fn slots(index: DashMap<u64, usize>) -> Map<u64, usize>;

/// `DashMap::new` makes an empty map.
#[verifier::external_body]
fn index_new() -> (r: DashMap<u64, usize>)
    ensures
        forall|id: u64| !slots(r).contains_key(id),
{
    DashMap::new()
}

/// `DashMap::insert` records `slot` for `id`, in place of the slot recorded
/// before, which it returns.
#[verifier::external_body]
fn index_insert(index: &mut DashMap<u64, usize>, id: u64, slot: usize) -> (prev: Option<usize>)
    ensures
        slots(*final(index)) == slots(*old(index)).insert(id, slot),
        prev == if slots(*old(index)).contains_key(id) {
            Some(slots(*old(index))[id])
        } else {
            None::<usize>
        },
{
    index.insert(id, slot)
}

/// `DashMap::get` looks up the slot recorded for `id`; the map stays as it
/// is.
#[verifier::external_body]
fn index_get(index: &DashMap<u64, usize>, id: u64) -> (slot: Option<usize>)
    ensures
        slot == if slots(*index).contains_key(id) {
            Some(slots(*index)[id])
        } else {
            None::<usize>
        },
{
    match index.get(&id) {
        Some(entry) => Some(*entry),
        None => None,
    }
}

/// `DashMap::remove` takes the entry of `id` out of the map and returns the
/// slot it recorded.
#[verifier::external_body]
fn index_remove(index: &mut DashMap<u64, usize>, id: u64) -> (slot: Option<usize>)
    ensures
        slots(*final(index)) == slots(*old(index)).remove(id),
        slot == if slots(*old(index)).contains_key(id) {
            Some(slots(*old(index))[id])
        } else {
            None::<usize>
        },
{
    match index.remove(&id) {
        Some((_, slot)) => Some(slot),
        None => None,
    }
}

/// What one janitor pass does to a context: one that has unflushed work and
/// has been quiet for longer than `threshold_ms` is flushed, whatever the
/// flush returns; any other is left alone.
pub open spec fn swept<T: IoTarget>(
    pre: IoContext<T>,
    post: IoContext<T>,
    now: u64,
    threshold_ms: u64,
) -> bool {
    if idle_spec(pre.metrics.last_in, pre.metrics.last_out, now, threshold_ms) {
        exists|r: Result<(), Error>| #[trigger] flush_result(pre, post, r, now)
    } else {
        post == pre
    }
}

/// How many of the first `n` contexts of `held` meet the janitor's idle test
/// at time `now`.
pub open spec fn idle_among<T: IoTarget>(
    held: Seq<IoContext<T>>,
    n: int,
    now: u64,
    threshold_ms: u64,
) -> nat
    decreases n,
{
    if n <= 0 || n > held.len() {
        0
    } else {
        let rest = idle_among(held, n - 1, now, threshold_ms);
        if idle_spec(held[n - 1].metrics.last_in, held[n - 1].metrics.last_out, now, threshold_ms) {
            rest + 1
        } else {
            rest
        }
    }
}

/// Contexts keyed by identifier. An identifier names one context at a time;
/// registering it again replaces the context.
///
/// The contexts stand in slots; a hash index finds the slot of an
/// identifier.
pub struct Registry<T: IoTarget> {
    index: DashMap<u64, usize>,
    ids: Vec<u64>,
    contexts: Vec<IoContext<T>>,
}

impl<T: IoTarget> Registry<T> {
    /// The registry invariant: the index records for every identifier the
    /// slot it stands in, and for none other; every context is well formed.
    pub closed spec fn wf(&self) -> bool {
        &&& self.ids@.len() == self.contexts@.len()
        &&& forall|i: int|
            0 <= i < self.ids@.len() ==> slots(self.index).contains_key(#[trigger] self.ids@[i])
                && slots(self.index)[self.ids@[i]] == i
        &&& forall|id: u64| #[trigger]
            slots(self.index).contains_key(id) ==> slots(self.index)[id] < self.ids@.len()
                && self.ids@[slots(self.index)[id] as int] == id
        &&& forall|i: int| 0 <= i < self.contexts@.len() ==> (#[trigger] self.contexts@[i]).wf()
    }

    /// Whether `id` is registered.
    pub closed spec fn contains(&self, id: u64) -> bool {
        slots(self.index).contains_key(id)
    }

    /// The context registered under `id`.
    pub closed spec fn context(&self, id: u64) -> IoContext<T>
        recommends
            self.contains(id),
    {
        self.contexts@[slots(self.index)[id] as int]
    }

    /// The number of registered targets.
    pub closed spec fn count(&self) -> nat {
        self.ids@.len()
    }

    /// The registered contexts, each once, in the order of their slots.
    pub closed spec fn held(&self) -> Seq<IoContext<T>> {
        self.contexts@
    }

    /// Whether `ctx` is the context registered under `id`.
    pub open spec fn holds(&self, id: u64, ctx: IoContext<T>) -> bool {
        self.contains(id) && self.context(id) == ctx
    }

    /// Whether `ctx` is registered under some identifier.
    pub open spec fn registers(&self, ctx: IoContext<T>) -> bool {
        exists|id: u64| #[trigger] self.holds(id, ctx)
    }

    /// The contexts held are the contexts registered: there are as many as
    /// identifiers, each stands under an identifier, and each identifier's
    /// context is among them.
    pub proof fn lemma_held_are_registered(&self)
        requires
            self.wf(),
        ensures
            self.held().len() == self.count(),
            forall|i: int| 0 <= i < self.held().len() ==> self.registers(#[trigger] self.held()[i]),
            forall|id: u64| #[trigger] self.contains(id) ==> self.held().contains(self.context(id)),
    {
        assert forall|i: int| 0 <= i < self.held().len() implies self.registers(
            #[trigger] self.held()[i],
        ) by {
            let id = self.ids@[i];
            assert(slots(self.index).contains_key(id) && slots(self.index)[id] == i);
            assert(self.holds(id, self.held()[i]));
        }
        assert forall|id: u64| #[trigger] self.contains(id) implies self.held().contains(
            self.context(id),
        ) by {
            let i = slots(self.index)[id] as int;
            assert(0 <= i < self.held().len() && self.held()[i] == self.context(id));
        }
    }

    /// Whether `other` holds the same contexts under the same identifiers,
    /// but possibly for `id`.
    pub open spec fn same_but(&self, other: &Self, id: u64) -> bool {
        forall|k: u64|
            k != id ==> (#[trigger] self.contains(k) == other.contains(k)) && (self.contains(k)
                ==> self.context(k) == other.context(k))
    }

    /// Whether the registry is `pre` with the context in slot `i` exchanged.
    closed spec fn replaces_slot(&self, pre: &Self, i: int) -> bool {
        &&& self.index == pre.index
        &&& self.ids == pre.ids
        &&& self.contexts@ == pre.contexts@.update(i, self.contexts@[i])
    }

    /// Whether the registry is `pre` but for the context under `id`, which it
    /// still holds: the same identifiers, every other context as it was, and
    /// well formed if the context under `id` is.
    pub open spec fn follows_slot(&self, pre: &Self, id: u64) -> bool {
        &&& self.contains(id)
        &&& self.same_but(pre, id)
        &&& self.count() == pre.count()
        &&& self.context(id).wf() ==> self.wf()
    }

    proof fn lemma_replaced_slot(pre: Self, post: Self, i: int, id: u64)
        requires
            pre.wf(),
            pre.contains(id),
            slots(pre.index)[id] == i,
            post.replaces_slot(&pre, i),
        ensures
            post.follows_slot(&pre, id),
            post.context(id) == post.contexts@[i],
    {
        assert forall|k: u64| k != id implies (#[trigger] post.contains(k) == pre.contains(k)) && (
        post.contains(k) ==> post.context(k) == pre.context(k)) by {
            if post.contains(k) {
                assert(slots(pre.index).contains_key(k));
                assert(pre.ids@[slots(pre.index)[k] as int] == k);
            }
        }
        if post.context(id).wf() {
            assert forall|j: int| 0 <= j < post.contexts@.len() implies (#[trigger] post.contexts@[j]).wf() by {
                if j != i {
                    assert(pre.contexts@[j].wf());
                }
            }
        }
    }

    /// An empty registry.
    pub fn new() -> (r: Self)
        ensures
            r.wf(),
            r.count() == 0,
            forall|id: u64| !#[trigger] r.contains(id),
    {
        Registry { index: index_new(), ids: Vec::new(), contexts: Vec::new() }
    }

    /// The slot of `id`.
    fn find(&self, id: u64) -> (r: Option<usize>)
        requires
            self.wf(),
        ensures
            match r {
                Some(i) => i < self.ids@.len() && self.ids@[i as int] == id && self.contains(id)
                    && slots(self.index)[id] == i,
                None => !self.contains(id),
            },
    {
        index_get(&self.index, id)
    }

    /// The number of registered targets.
    pub fn len(&self) -> (n: usize)
        ensures
            n == self.count(),
    {
        self.ids.len()
    }

    /// Whether `id` is registered.
    pub fn is_registered(&self, id: u64) -> (b: bool)
        requires
            self.wf(),
        ensures
            b == self.contains(id),
    {
        self.find(id).is_some()
    }

    /// Registers `target` under `id` with a fresh context, replacing the
    /// context that `id` named before, if any.
    pub fn insert(&mut self, id: u64, target: T, write_timeout: Duration, read_timeout: Duration)
        requires
            old(self).wf(),
            target.wf(),
        ensures
            final(self).wf(),
            final(self).contains(id),
            final(self).context(id).is_fresh(target, write_timeout, read_timeout),
            final(self).same_but(old(self), id),
            final(self).count() == if old(self).contains(id) {
                old(self).count()
            } else {
                old(self).count() + 1
            },
    {
        let ctx = IoContext::new(target, write_timeout, read_timeout);
        let ghost pre = *self;
        match self.find(id) {
            Some(i) => {
                self.contexts.set(i, ctx);
                proof {
                    assert forall|j: int| 0 <= j < self.contexts@.len() implies (
                    #[trigger] self.contexts@[j]).wf() by {
                        if j != i {
                            assert(pre.contexts@[j].wf());
                        }
                    }
                    assert forall|k: u64| k != id implies (#[trigger] self.contains(k)
                        == pre.contains(k)) && (self.contains(k) ==> self.context(k)
                        == pre.context(k)) by {
                        if self.contains(k) {
                            assert(pre.ids@[slots(pre.index)[k] as int] == k);
                        }
                    }
                }
            },
            None => {
                let slot: usize = self.ids.len();
                let _ = index_insert(&mut self.index, id, slot);
                self.ids.push(id);
                self.contexts.push(ctx);
                proof {
                    let n = pre.ids@.len() as int;
                    assert forall|i: int| 0 <= i < self.ids@.len() implies slots(
                        self.index,
                    ).contains_key(#[trigger] self.ids@[i]) && slots(self.index)[self.ids@[i]]
                        == i by {
                        if i < n {
                            assert(self.ids@[i] == pre.ids@[i]);
                            assert(slots(pre.index).contains_key(pre.ids@[i]));
                        }
                    }
                    assert forall|k: u64| #[trigger]
                        slots(self.index).contains_key(k) implies slots(self.index)[k]
                        < self.ids@.len() && self.ids@[slots(self.index)[k] as int] == k by {
                        if k != id {
                            assert(slots(pre.index).contains_key(k));
                            assert(self.ids@[slots(pre.index)[k] as int] == pre.ids@[slots(
                                pre.index,
                            )[k] as int]);
                        }
                    }
                    assert forall|i: int| 0 <= i < self.contexts@.len() implies (
                    #[trigger] self.contexts@[i]).wf() by {
                        if i < n {
                            assert(pre.contexts@[i].wf());
                        }
                    }
                    assert forall|k: u64| k != id implies (#[trigger] self.contains(k)
                        == pre.contains(k)) && (self.contains(k) ==> self.context(k)
                        == pre.context(k)) by {
                        if self.contains(k) {
                            assert(slots(pre.index).contains_key(k));
                            assert(slots(pre.index)[k] < n);
                        }
                    }
                }
            },
        }
    }

    /// Takes the context registered under `id` out of the registry. The
    /// context in the last slot moves into the slot left free.
    pub fn remove(&mut self, id: u64) -> (r: Option<IoContext<T>>)
        requires
            old(self).wf(),
        ensures
            final(self).wf(),
            !final(self).contains(id),
            final(self).same_but(old(self), id),
            match r {
                Some(ctx) => old(self).contains(id) && ctx == old(self).context(id) && ctx.wf()
                    && final(self).count() == old(self).count() - 1,
                None => !old(self).contains(id) && final(self).count() == old(self).count(),
            },
    {
        let ghost pre = *self;
        match index_remove(&mut self.index, id) {
            Some(slot) => {
                let last: usize = self.ids.len() - 1;
                proof {
                    assert(pre.contexts@[slot as int].wf());
                    assert(slots(pre.index).contains_key(pre.ids@[last as int]));
                }
                let moved: u64 = self.ids[last];
                let _ = self.ids.swap_remove(slot);
                let ctx = self.contexts.swap_remove(slot);
                if slot != last {
                    let _ = index_insert(&mut self.index, moved, slot);
                }
                proof {
                    assert(moved != id <==> slot != last) by {
                        assert(pre.ids@[slots(pre.index)[id] as int] == id);
                        assert(slots(pre.index)[pre.ids@[last as int]] == last);
                    }
                    assert forall|i: int| 0 <= i < self.ids@.len() implies slots(
                        self.index,
                    ).contains_key(#[trigger] self.ids@[i]) && slots(self.index)[self.ids@[i]]
                        == i by {
                        if i == slot {
                            assert(self.ids@[i] == moved);
                        } else {
                            assert(self.ids@[i] == pre.ids@[i]);
                            assert(slots(pre.index).contains_key(pre.ids@[i]));
                            assert(slots(pre.index)[pre.ids@[i]] == i);
                        }
                    }
                    assert forall|k: u64| #[trigger]
                        slots(self.index).contains_key(k) implies slots(self.index)[k]
                        < self.ids@.len() && self.ids@[slots(self.index)[k] as int] == k by {
                        assert(slots(pre.index).contains_key(k));
                        assert(pre.ids@[slots(pre.index)[k] as int] == k);
                        if k != moved {
                            assert(slots(pre.index)[k] != last);
                        }
                    }
                    assert forall|j: int| 0 <= j < self.contexts@.len() implies (
                    #[trigger] self.contexts@[j]).wf() by {
                        if j == slot {
                            assert(self.contexts@[j] == pre.contexts@[last as int]);
                            assert(pre.contexts@[last as int].wf());
                        } else {
                            assert(self.contexts@[j] == pre.contexts@[j]);
                            assert(pre.contexts@[j].wf());
                        }
                    }
                    assert forall|k: u64| k != id implies (#[trigger] self.contains(k)
                        == pre.contains(k)) && (self.contains(k) ==> self.context(k)
                        == pre.context(k)) by {
                        if pre.contains(k) {
                            assert(pre.ids@[slots(pre.index)[k] as int] == k);
                            if k != moved {
                                assert(slots(pre.index)[k] != last);
                                assert(slots(pre.index)[k] != slot);
                            }
                        }
                    }
                }
                Some(ctx)
            },
            None => {
                proof {
                    assert(slots(self.index) =~= slots(pre.index));
                    assert forall|k: u64| k != id implies (#[trigger] self.contains(k)
                        == pre.contains(k)) && (self.contains(k) ==> self.context(k)
                        == pre.context(k)) by {}
                }
                None
            },
        }
    }

    /// A writer on the context registered under `id`, or `None` if nothing
    /// is. The registry is borrowed for as long as the writer lives; what the
    /// writer leaves in the context is what the registry then holds under
    /// `id`.
    pub fn get_writer(&mut self, id: u64) -> (r: Option<BufferWriter<'_, T>>)
        requires
            old(self).wf(),
        ensures
            match r {
                Some(handle) => {
                    &&& old(self).contains(id)
                    &&& *handle.context == old(self).context(id)
                    &&& handle.context.wf()
                    &&& final(self).context(id) == *final(handle.context)
                    &&& final(self).follows_slot(old(self), id)
                },
                None => !old(self).contains(id) && *final(self) == *old(self),
            },
    {
        match self.find(id) {
            Some(i) => {
                assert(self.contexts@[i as int].wf());
                let ghost pre = *self;
                assert forall|post: Self| #[trigger]
                    post.replaces_slot(&pre, i as int) implies post.follows_slot(&pre, id)
                    && post.context(id) == post.contexts@[i as int] by {
                    Self::lemma_replaced_slot(pre, post, i as int, id);
                }
                let ctx = &mut self.contexts[i];
                Some(BufferWriter::new(ctx))
            },
            None => None,
        }
    }

    /// A reader on the context registered under `id`, or `None` if nothing
    /// is. The registry is borrowed for as long as the reader lives; what the
    /// reader leaves in the context is what the registry then holds under
    /// `id`.
    pub fn get_reader(&mut self, id: u64) -> (r: Option<BufferReader<'_, T>>)
        requires
            old(self).wf(),
        ensures
            match r {
                Some(handle) => {
                    &&& old(self).contains(id)
                    &&& *handle.context == old(self).context(id)
                    &&& handle.context.wf()
                    &&& final(self).context(id) == *final(handle.context)
                    &&& final(self).follows_slot(old(self), id)
                },
                None => !old(self).contains(id) && *final(self) == *old(self),
            },
    {
        match self.find(id) {
            Some(i) => {
                assert(self.contexts@[i as int].wf());
                let ghost pre = *self;
                assert forall|post: Self| #[trigger]
                    post.replaces_slot(&pre, i as int) implies post.follows_slot(&pre, id)
                    && post.context(id) == post.contexts@[i as int] by {
                    Self::lemma_replaced_slot(pre, post, i as int, id);
                }
                let ctx = &mut self.contexts[i];
                Some(BufferReader::new(ctx))
            },
            None => None,
        }
    }

    /// Runs one janitor pass at time `now`: every context whose last write
    /// came after its last flush, and more than `threshold_ms` ago, is
    /// flushed. A failed flush is passed over: its writes stay in the
    /// context's flushing queue. Returns how many contexts met the test and
    /// were flushed.
    pub fn sweep(&mut self, now: u64, threshold_ms: u64) -> (flushed: usize)
        requires
            old(self).wf(),
        ensures
            final(self).wf(),
            final(self).count() == old(self).count(),
            forall|id: u64| #[trigger] final(self).contains(id) == old(self).contains(id),
            forall|id: u64|
                old(self).contains(id) ==> swept(
                    old(self).context(id),
                    #[trigger] final(self).context(id),
                    now,
                    threshold_ms,
                ),
            flushed == idle_among(
                old(self).held(),
                old(self).held().len() as int,
                now,
                threshold_ms,
            ),
            flushed <= old(self).count(),
    {
        let ghost pre = *self;
        let mut flushed: usize = 0;
        let mut i: usize = 0;
        while i < self.contexts.len()
            invariant
                0 <= i <= self.contexts@.len(),
                flushed <= i,
                flushed == idle_among(pre.contexts@, i as int, now, threshold_ms),
                self.index == pre.index,
                self.ids == pre.ids,
                self.contexts@.len() == pre.contexts@.len(),
                pre.wf(),
                self.wf(),
                forall|j: int| 0 <= j < i ==> swept(pre.contexts@[j], #[trigger] self.contexts@[j], now, threshold_ms),
                forall|j: int| i <= j < self.contexts@.len() ==> #[trigger] self.contexts@[j] == pre.contexts@[j],
            decreases self.contexts@.len() - i,
        {
            let ghost before = self.contexts@;
            let ghost old_ctx = self.contexts@[i as int];
            assert(old_ctx.wf());
            let ctx = &mut self.contexts[i];
            if ctx.metrics.is_idle(now, threshold_ms) {
                let r = ctx.flush(now);
                proof {
                    assert(flush_result(old_ctx, *ctx, r, now));
                }
                flushed += 1;
            }
            proof {
                assert(swept(old_ctx, self.contexts@[i as int], now, threshold_ms));
                assert forall|j: int| 0 <= j < self.contexts@.len() implies (
                #[trigger] self.contexts@[j]).wf() by {
                    if j != i {
                        assert(self.contexts@[j] == before[j]);
                        assert(before[j].wf());
                    }
                }
            }
            i += 1;
        }
        proof {
            assert forall|id: u64| pre.contains(id) implies swept(
                pre.context(id),
                #[trigger] self.context(id),
                now,
                threshold_ms,
            ) by {
                assert(slots(pre.index)[id] < pre.ids@.len());
            }
        }
        flushed
    }
}

} // verus!
