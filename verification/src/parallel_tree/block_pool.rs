//! Pool of payload buffers addressed by dense ids, with a FIFO free list.

use vstd::prelude::*;

use crossbeam_queue::SegQueue;

verus! {

/// Dense handle that indexes a [`BlockPool`] slot.
pub type BufId = u32;

#[verifier::external_type_specification]
#[verifier::external_body]
#[verifier::reject_recursive_types(T)]
pub struct ExSegQueue<T>(SegQueue<T>);

/// The ids held by a free-list queue, front first.
pub uninterp spec fn queue_ids(q: SegQueue<u32>) -> Seq<u32>;

/// `SegQueue::new`: an empty queue.
#[verifier::external_body]
fn new_id_queue() -> (q: SegQueue<u32>)
    ensures
        queue_ids(q) == Seq::<u32>::empty(),
{
    SegQueue::new()
}

/// `SegQueue::push_mut`: appends `id` at the back of the queue.
#[verifier::external_body]
fn push_id(q: &mut SegQueue<u32>, id: u32)
    ensures
        queue_ids(*final(q)) == queue_ids(*old(q)).push(id),
{
    q.push_mut(id)
}

/// `SegQueue::pop_mut`: takes the front id, or returns `None` and leaves the
/// queue as it is when it is empty.
#[verifier::external_body]
fn pop_id(q: &mut SegQueue<u32>) -> (r: Option<u32>)
    ensures
        queue_ids(*old(q)).len() == 0 ==> r is None && queue_ids(*final(q)) == queue_ids(*old(q)),
        queue_ids(*old(q)).len() > 0 ==> r == Some(queue_ids(*old(q))[0]) && queue_ids(*final(q))
            == queue_ids(*old(q)).drop_first(),
{
    q.pop_mut()
}

/// `SegQueue::len`: the number of ids in the queue.
#[verifier::external_body]
fn id_count(q: &SegQueue<u32>) -> (n: usize)
    ensures
        n == queue_ids(*q).len(),
{
    q.len()
}

/// No id occurs twice in `ids`.
pub open spec fn ids_distinct(ids: Seq<u32>) -> bool {
    forall|a: int, b: int| 0 <= a < ids.len() && 0 <= b < ids.len() && a != b ==> #[trigger] ids[a] != #[trigger] ids[b]
}

/// The free list of a fresh pool of `n` blocks: `0` up to `n - 1`, so that
/// the first allocation gets id 0.
pub open spec fn fresh_free_list(n: nat) -> Seq<u32> {
    Seq::new(n, |k: int| k as u32)
}

/// The free list of a fresh pool of `n` blocks names each of the `n` slots
/// exactly once, so allocating from a fresh pool hands out `n` distinct ids,
/// each naming a slot, before it runs out.
pub proof fn lemma_fresh_free_list(n: nat)
    requires
        n <= u32::MAX + 1,
    ensures
        fresh_free_list(n).len() == n,
        ids_distinct(fresh_free_list(n)),
        forall|k: int| 0 <= k < n ==> #[trigger] fresh_free_list(n)[k] < n,
        forall|id: int| 0 <= id < n ==> #[trigger] fresh_free_list(n).contains(id as u32),
{
    assert forall|id: int| 0 <= id < n implies #[trigger] fresh_free_list(n).contains(id as u32) by {
        assert(fresh_free_list(n)[id] == id as u32);
    }
}

/// A free list that repeats no id keeps buffers exclusive: the id that
/// `allocate` takes from its front is no longer free and the rest still
/// repeat none, and handing back an id that is not free keeps the list free
/// of repeats.
pub proof fn lemma_free_list_exclusive(f: Seq<BufId>, id: BufId)
    requires
        ids_distinct(f),
    ensures
        f.len() > 0 ==> !f.drop_first().contains(f[0]) && ids_distinct(f.drop_first()),
        !f.contains(id) ==> ids_distinct(f.push(id)),
{
    if f.len() > 0 && f.drop_first().contains(f[0]) {
        let w = choose|w: int| 0 <= w < f.drop_first().len() && f.drop_first()[w] == f[0];
        assert(f[w + 1] == f[0]);
    }
    if !f.contains(id) {
        assert forall|x: int, y: int| 0 <= x < f.len() + 1 && 0 <= y < f.len() + 1 && x != y implies #[trigger] f.push(id)[x]
            != #[trigger] f.push(id)[y] by {
            if x < f.len() {
                assert(f.contains(f[x]));
            }
            if y < f.len() {
                assert(f.contains(f[y]));
            }
        }
    }
}

/// A read gives back what the last write to the slot stored: after a write
/// of `v` to slot `id`, the slot holds `v`, which is what a read returns.
pub proof fn lemma_read_after_write<P>(before: &BlockPool<P>, written: &BlockPool<P>, id: BufId, v: P)
    requires
        before.wf(),
        id < before.slots().len(),
        written.slots() == before.slots().update(id as int, Some(v)),
    ensures
        written.slots()[id as int] == Some(v),
{
}

/// Fixed set of payload slots; a slot is free when its id is in the free
/// list.
pub struct BlockPool<P> {
    blocks: Vec<Option<P>>,
    free: SegQueue<BufId>,
}

impl<P> BlockPool<P> {
    /// Contents of the slots.
    pub closed spec fn slots(&self) -> Seq<Option<P>> {
        self.blocks@
    }

    /// The free list, front first.
    pub closed spec fn free_ids(&self) -> Seq<BufId> {
        queue_ids(self.free)
    }

    /// Every slot has a [`BufId`], and every id in the free list names a
    /// slot.
    pub open spec fn wf(&self) -> bool {
        &&& self.slots().len() <= u32::MAX
        &&& forall|k: int| 0 <= k < self.free_ids().len() ==> #[trigger] self.free_ids()[k] < self.slots().len()
    }

    /// A pool of `2 * num_cores` empty slots, all free; the free list holds
    /// the ids from 0 up, so the first allocation gets id 0.
    pub fn new(num_cores: usize) -> (pool: Self)
        requires
            num_cores * 2 <= u32::MAX,
        ensures
            pool.wf(),
            pool.slots() == Seq::new((num_cores * 2) as nat, |k: int| None::<P>),
            pool.free_ids() == fresh_free_list((num_cores * 2) as nat),
            ids_distinct(pool.free_ids()),
    {
        let num_blocks: usize = num_cores * 2;
        let mut blocks: Vec<Option<P>> = Vec::new();
        let mut i: usize = 0;
        while i < num_blocks
            invariant
                i <= num_blocks,
                blocks@ == Seq::new(i as nat, |k: int| None::<P>),
            decreases num_blocks - i,
        {
            blocks.push(None);
            i = i + 1;
            assert(blocks@ =~= Seq::new(i as nat, |k: int| None::<P>));
        }
        let mut free = new_id_queue();
        let mut id: u32 = 0;
        while (id as usize) < num_blocks
            invariant
                id <= num_blocks,
                num_blocks <= u32::MAX,
                queue_ids(free) == fresh_free_list(num_blocks as nat).take(id as int),
            decreases num_blocks - id,
        {
            push_id(&mut free, id);
            id = id + 1;
            assert(queue_ids(free) =~= fresh_free_list(num_blocks as nat).take(id as int));
        }
        assert(queue_ids(free) =~= fresh_free_list(num_blocks as nat));
        BlockPool { blocks, free }
    }

    /// Takes the id at the front of the free list.  `None` when every slot is
    /// in use.
    pub fn allocate(&mut self) -> (h: Option<BufHandle>)
        requires
            old(self).wf(),
        ensures
            final(self).wf(),
            final(self).slots() == old(self).slots(),
            old(self).free_ids().len() == 0 ==> h is None && final(self).free_ids() == old(self).free_ids(),
            old(self).free_ids().len() > 0 ==> h is Some && h->0@ == old(self).free_ids()[0]
                && final(self).free_ids() == old(self).free_ids().drop_first(),
    {
        match pop_id(&mut self.free) {
            Some(id) => Some(BufHandle::new(id)),
            None => None,
        }
    }

    /// `id` names a slot of the pool.
    fn can_edit(&self, id: BufId) -> (r: bool)
        ensures
            r == (id < self.slots().len()),
    {
        (id as usize) < self.blocks.len()
    }

    /// Whether `id` is in the free list.  The scan takes every id out of
    /// the queue and pushes them back in the order it took them, so the free
    /// list is left as it was.
    pub fn is_free(&mut self, id: BufId) -> (r: bool)
        requires
            old(self).wf(),
        ensures
            final(self).wf(),
            final(self).slots() == old(self).slots(),
            r == (id < old(self).slots().len() && old(self).free_ids().contains(id)),
            final(self).free_ids() == old(self).free_ids(),
    {
        if !self.can_edit(id) {
            return false;
        }
        let ghost original = queue_ids(self.free);
        let mut found = false;
        let mut tmp: Vec<BufId> = Vec::new();
        loop
            invariant_except_break
                original == old(self).free_ids(),
                tmp@.len() <= original.len(),
                tmp@ == original.take(tmp@.len() as int),
                queue_ids(self.free) == original.skip(tmp@.len() as int),
                found == tmp@.contains(id),
                self.blocks@ == old(self).slots(),
            ensures
                tmp@ == original,
                queue_ids(self.free) == Seq::<u32>::empty(),
                found == original.contains(id),
                self.blocks@ == old(self).slots(),
            decreases original.len() - tmp@.len(),
        {
            let ghost before = tmp@;
            match pop_id(&mut self.free) {
                Some(x) => {
                    if x == id {
                        found = true;
                    }
                    tmp.push(x);
                    assert(tmp@ =~= original.take(tmp@.len() as int));
                    assert(original.skip(before.len() as int).drop_first() =~= original.skip(
                        tmp@.len() as int,
                    ));
                    assert(tmp@.contains(id) == (before.contains(id) || x == id)) by {
                        if x == id {
                            assert(tmp@[before.len() as int] == id);
                        }
                        if tmp@.contains(id) && x != id {
                            let w = choose|w: int| 0 <= w < tmp@.len() && tmp@[w] == id;
                            assert(before[w] == id);
                        }
                    }
                },
                None => {
                    assert(tmp@ =~= original);
                    break ;
                },
            }
        }
        let mut j: usize = 0;
        while j < tmp.len()
            invariant
                j <= tmp@.len(),
                tmp@ == original,
                queue_ids(self.free) == original.take(j as int),
                self.blocks@ == old(self).slots(),
            decreases tmp@.len() - j,
        {
            push_id(&mut self.free, tmp[j]);
            j = j + 1;
            assert(queue_ids(self.free) =~= original.take(j as int));
        }
        assert(queue_ids(self.free) =~= original);
        found
    }

    /// Empties the slot of `id` and appends `id` to the free list.
    pub fn free(&mut self, id: BufId)
        requires
            old(self).wf(),
            id < old(self).slots().len(),
        ensures
            final(self).wf(),
            final(self).slots() == old(self).slots().update(id as int, None),
            final(self).free_ids() == old(self).free_ids().push(id),
    {
        self.blocks.set(id as usize, None);
        push_id(&mut self.free, id);
        assert forall|k: int| 0 <= k < self.free_ids().len() implies #[trigger] self.free_ids()[k]
            < self.slots().len() by {
            if k < old(self).free_ids().len() {
                assert(self.free_ids()[k] == old(self).free_ids()[k]);
            }
        }
    }

    /// A handle on the slot of `id`, when `id` names a slot.  Whether the
    /// slot is in use is not checked.
    pub fn claim(&self, id: BufId) -> (h: Option<BufHandle>)
        ensures
            h is Some == (id < self.slots().len()),
            h is Some ==> h->0@ == id,
    {
        if self.can_edit(id) {
            Some(BufHandle::new(id))
        } else {
            None
        }
    }

    /// Number of free slots.
    pub fn free_count(&self) -> (n: usize)
        ensures
            n == self.free_ids().len(),
    {
        id_count(&self.free)
    }

    /// Number of slots.
    pub fn num_blocks(&self) -> (n: usize)
        ensures
            n == self.slots().len(),
    {
        self.blocks.len()
    }
}

/// Typed view on one slot of a [`BlockPool`].
pub struct BufHandle {
    id: BufId,
}

impl View for BufHandle {
    type V = BufId;

    closed spec fn view(&self) -> BufId {
        self.id
    }
}

impl BufHandle {
    pub fn new(id: BufId) -> (h: Self)
        ensures
            h@ == id,
    {
        BufHandle { id }
    }

    /// Stores `value` in the slot, overwriting what it held.
    pub fn write<P>(&self, pool: &mut BlockPool<P>, value: P)
        requires
            old(pool).wf(),
            self@ < old(pool).slots().len(),
        ensures
            final(pool).wf(),
            final(pool).slots() == old(pool).slots().update(self@ as int, Some(value)),
            final(pool).free_ids() == old(pool).free_ids(),
    {
        pool.blocks.set(self.id as usize, Some(value));
        assert forall|k: int| 0 <= k < pool.free_ids().len() implies #[trigger] pool.free_ids()[k]
            < pool.slots().len() by {
            assert(pool.free_ids()[k] == old(pool).free_ids()[k]);
        }
    }

    /// The id of the slot; the slot stays in use.
    pub fn into_id(self) -> (id: BufId)
        ensures
            id == self@,
    {
        self.id
    }

    /// Returns the slot to the pool.
    pub fn release<P>(self, pool: &mut BlockPool<P>)
        requires
            old(pool).wf(),
            self@ < old(pool).slots().len(),
        ensures
            final(pool).wf(),
            final(pool).slots() == old(pool).slots().update(self@ as int, None),
            final(pool).free_ids() == old(pool).free_ids().push(self@),
    {
        pool.free(self.id);
    }

    /// Takes the value out of the slot, leaving it empty.
    pub fn read<P>(&self, pool: &mut BlockPool<P>) -> (v: P)
        requires
            old(pool).wf(),
            self@ < old(pool).slots().len(),
            old(pool).slots()[self@ as int] is Some,
        ensures
            final(pool).wf(),
            Some(v) == old(pool).slots()[self@ as int],
            final(pool).slots() == old(pool).slots().update(self@ as int, None),
            final(pool).free_ids() == old(pool).free_ids(),
    {
        let mut taken: Option<P> = None;
        std::mem::swap(&mut taken, &mut pool.blocks[self.id as usize]);
        assert forall|k: int| 0 <= k < pool.free_ids().len() implies #[trigger] pool.free_ids()[k]
            < pool.slots().len() by {
            assert(pool.free_ids()[k] == old(pool).free_ids()[k]);
        }
        match taken {
            Some(v) => v,
            None => vstd::pervasive::unreached(),
        }
    }
}

} // verus!
