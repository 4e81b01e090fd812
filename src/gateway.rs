use vstd::prelude::*;
use crate::pool::{FreePool, SlotId, ids_upto, lemma_ids_upto};

verus! {

/// Why an entry left the slot table.
#[derive(Clone, Copy, Debug, PartialEq, Eq, Structural)]
pub enum RemovalCause {
    /// Its time to live ran out and a sweep noticed.
    Expired,
    /// It was removed on request.
    Explicit,
    /// It was pushed out by the capacity bound.
    Size,
    /// It was overwritten under the same id; the slot stays taken.
    Replaced,
}

/// The target of an active slot and the instant (in ms) from which it is dead.
pub struct SlotEntry {
    pub url: String,
    pub expires_at: u64,
}

/// One active slot as listed by `get_all_redirect`.
pub struct RedirectEntry {
    pub slot_id: SlotId,
    pub url: String,
}

/// The instant at which an entry written at `now` expires.
pub open spec fn expiry_at(now: u64, ttl: u64) -> u64 {
    if now + ttl > u64::MAX {
        u64::MAX
    } else {
        (now + ttl) as u64
    }
}

/// An entry whose clock has lapsed at `now`; a sweep removes it.
pub open spec fn expired(e: Option<SlotEntry>, now: u64) -> bool {
    e is Some && e.unwrap().expires_at <= now
}

/// Number of taken cells of a slot table.
pub open spec fn count_active(s: Seq<Option<SlotEntry>>) -> nat
    decreases s.len(),
{
    if s.len() == 0 {
        0
    } else {
        count_active(s.drop_last()) + if s.last() is Some {
            1nat
        } else {
            0nat
        }
    }
}

/// The table after a sweep at `now`: every expired cell is emptied.
pub open spec fn swept_table(t: Seq<Option<SlotEntry>>, now: u64) -> Seq<Option<SlotEntry>> {
    Seq::new(t.len(), |k: int| if expired(t[k], now) { None } else { t[k] })
}

/// The ids of the first `n` cells of `t` that are expired at `now`, smallest first.
pub open spec fn expired_ids(t: Seq<Option<SlotEntry>>, now: u64, n: nat) -> Seq<SlotId>
    decreases n,
{
    if n == 0 {
        Seq::empty()
    } else {
        let p = expired_ids(t, now, (n - 1) as nat);
        if expired(t[n - 1], now) {
            p.push(n as SlotId)
        } else {
            p
        }
    }
}

/// What taking an id from the pool does: the front id comes out, or
/// nothing when the pool is drained.
pub open spec fn acquired(pre: Seq<SlotId>, r: Option<SlotId>, post: Seq<SlotId>) -> bool {
    if pre.len() == 0 {
        r is None && post == pre
    } else {
        r == Some(pre[0]) && post == pre.drop_first()
    }
}

/// The table after `id` is written with `url` at `now`.
pub open spec fn written_table(
    t: Seq<Option<SlotEntry>>,
    id: SlotId,
    url: String,
    now: u64,
    ttl: u64,
) -> Seq<Option<SlotEntry>> {
    t.update(id - 1, Some(SlotEntry { url, expires_at: expiry_at(now, ttl) }))
}

pub proof fn lemma_count_update(s: Seq<Option<SlotEntry>>, i: int, v: Option<SlotEntry>)
    requires
        0 <= i < s.len(),
    ensures
        count_active(s.update(i, v)) + (if s[i] is Some { 1nat } else { 0nat }) == count_active(s)
            + (if v is Some { 1nat } else { 0nat }),
    decreases s.len(),
{
    let t = s.update(i, v);
    if i == s.len() - 1 {
        assert(t.drop_last() =~= s.drop_last());
    } else {
        assert(t.drop_last() =~= s.drop_last().update(i, v));
        lemma_count_update(s.drop_last(), i, v);
    }
}

/// The ids listed by a sweep are exactly those of the expired cells.
pub proof fn lemma_expired_ids(t: Seq<Option<SlotEntry>>, now: u64, n: nat)
    requires
        n <= t.len(),
        n <= u32::MAX,
    ensures
        forall|id: SlotId|
            expired_ids(t, now, n).contains(id) <==> 1 <= id <= n && expired(t[id - 1], now),
    decreases n,
{
    if n > 0 {
        lemma_expired_ids(t, now, (n - 1) as nat);
        let p = expired_ids(t, now, (n - 1) as nat);
        assert forall|id: SlotId|
            expired_ids(t, now, n).contains(id) <==> 1 <= id <= n && expired(t[id - 1], now) by {
            if expired(t[n - 1], now) {
                if id == n {
                    assert(p.push(n as SlotId)[p.len() as int] == id);
                }
                let q = p.push(n as SlotId);
                if q.contains(id) && id != n {
                    let k = choose|k: int| 0 <= k < q.len() && q[k] == id;
                    assert(p[k] == id);
                }
                if p.contains(id) {
                    let k = choose|k: int| 0 <= k < p.len() && p[k] == id;
                    assert(p.push(n as SlotId)[k] == id);
                }
            }
        }
    }
}

/// Conservation: in every well-formed state the free ids and the active
/// slots together make up the capacity.
pub proof fn lemma_conservation(g: VideoGateway)
    requires
        g.wf(),
    ensures
        g.free().len() + g.active_count() == g.max_slots(),
{
}

/// No double allocation: no id waiting in the pool is active, so the id
/// that `create_redirect` hands out never is.
pub proof fn lemma_free_not_active(g: VideoGateway, k: int)
    requires
        g.wf(),
        0 <= k < g.free().len(),
    ensures
        !g.is_active(g.free()[k]),
        g.in_range(g.free()[k]),
{
}

/// Eventual reclaim: a sweep at or after an entry's expiry empties its slot
/// and queues its id in the pool, where it can be taken again.
pub proof fn lemma_sweep_reclaims(
    t: Seq<Option<SlotEntry>>,
    free: Seq<SlotId>,
    now: u64,
    id: SlotId,
)
    requires
        t.len() <= u32::MAX,
        1 <= id <= t.len(),
        expired(t[id - 1], now),
    ensures
        swept_table(t, now)[id - 1] is None,
        (free + expired_ids(t, now, t.len())).contains(id),
{
    lemma_expired_ids(t, now, t.len());
    let e = expired_ids(t, now, t.len());
    assert(e.contains(id));
    let k = choose|k: int| 0 <= k < e.len() && e[k] == id;
    assert((free + e)[free.len() + k] == id);
}

/// Touch defers reclaim: after slot `id` is written again at `touched`, a
/// sweep at any `now` before the new expiry keeps the entry and does not
/// queue the id.
pub proof fn lemma_touch_defers_reclaim(
    t: Seq<Option<SlotEntry>>,
    id: SlotId,
    url: String,
    touched: u64,
    ttl: u64,
    now: u64,
)
    requires
        t.len() <= u32::MAX,
        1 <= id <= t.len(),
        now < expiry_at(touched, ttl),
    ensures
        swept_table(written_table(t, id, url, touched, ttl), now)[id - 1] == Some(
            SlotEntry { url, expires_at: expiry_at(touched, ttl) },
        ),
        !expired_ids(written_table(t, id, url, touched, ttl), now, t.len()).contains(id),
{
    lemma_expired_ids(written_table(t, id, url, touched, ttl), now, t.len());
}

proof fn lemma_drain_prefix(n: nat, pools: Seq<Seq<SlotId>>, rs: Seq<Option<SlotId>>, k: nat)
    requires
        n <= u32::MAX,
        k <= n,
        pools.len() == rs.len() + 1,
        rs.len() > n,
        pools[0] == ids_upto(n),
        forall|j: int| 0 <= j < rs.len() ==> acquired(#[trigger] pools[j], rs[j], pools[j + 1]),
    ensures
        pools[k as int] == ids_upto(n).subrange(k as int, n as int),
    decreases k,
{
    lemma_ids_upto(n);
    if k == 0 {
        assert(ids_upto(n).subrange(0, n as int) =~= ids_upto(n));
    } else {
        lemma_drain_prefix(n, pools, rs, (k - 1) as nat);
        assert(acquired(pools[k - 1], rs[k - 1], pools[k as int]));
        assert(pools[k as int] =~= ids_upto(n).subrange(k as int, n as int));
    }
}

/// Exhaustion: starting from a full pool of `n` ids, `n` consecutive
/// acquisitions hand out `1, 2, ..., n` (all distinct), and the next one
/// finds the pool drained.
pub proof fn lemma_exhaustion(n: nat, pools: Seq<Seq<SlotId>>, rs: Seq<Option<SlotId>>)
    requires
        n <= u32::MAX,
        pools.len() == rs.len() + 1,
        rs.len() == n + 1,
        pools[0] == ids_upto(n),
        forall|j: int| 0 <= j < rs.len() ==> acquired(#[trigger] pools[j], rs[j], pools[j + 1]),
    ensures
        forall|j: int| 0 <= j < n ==> rs[j] == Some((j + 1) as SlotId),
        rs[n as int] is None,
{
    lemma_ids_upto(n);
    assert forall|j: int| 0 <= j < n implies rs[j] == Some((j + 1) as SlotId) by {
        lemma_drain_prefix(n, pools, rs, j as nat);
        assert(acquired(pools[j], rs[j], pools[j + 1]));
        assert(pools[j][0] == ids_upto(n)[j]);
    }
    lemma_drain_prefix(n, pools, rs, n);
    assert(acquired(pools[n as int], rs[n as int], pools[n as int + 1]));
}

/// The slot-lifecycle engine: a FIFO pool of free ids and a table of active
/// slots, each with its own expiry instant.
///
/// Time is a millisecond clock handed in by the caller. An entry is live at
/// `now` while `now < expires_at`; reads and touches ignore an entry that is
/// not live, but its id goes back to the pool only when `tick` sweeps it,
/// so reclaim takes up to one sweep interval beyond the time to live.
///
/// Expiry is driven only by the clock values passed to the methods, never
/// by a clock read inside, so every state is a function of the calls made,
/// and each freed id is released exactly once.
pub struct VideoGateway {
    free_slots: FreePool,
    slots: Vec<Option<SlotEntry>>,
    ttl_ms: u64,
}

impl VideoGateway {
    /// The free ids, in the order they will be handed out.
    pub closed spec fn free(&self) -> Seq<SlotId> {
        self.free_slots@
    }

    /// Cell `id - 1` holds the entry of slot `id`.
    pub closed spec fn table(&self) -> Seq<Option<SlotEntry>> {
        self.slots@
    }

    pub closed spec fn ttl(&self) -> u64 {
        self.ttl_ms
    }

    pub open spec fn max_slots(&self) -> nat {
        self.table().len()
    }

    pub open spec fn in_range(&self, id: SlotId) -> bool {
        1 <= id <= self.max_slots()
    }

    pub open spec fn is_active(&self, id: SlotId) -> bool {
        self.in_range(id) && self.table()[id - 1] is Some
    }

    pub open spec fn is_live(&self, id: SlotId, now: u64) -> bool {
        self.is_active(id) && now < self.table()[id - 1].unwrap().expires_at
    }

    pub open spec fn url_of(&self, id: SlotId) -> String {
        self.table()[id - 1].unwrap().url
    }

    pub open spec fn active_count(&self) -> nat {
        count_active(self.table())
    }

    /// Every free id is in range, listed once, and not active; free and
    /// active slots together make up the capacity.
    pub open spec fn wf(&self) -> bool {
        &&& self.max_slots() <= u32::MAX
        &&& self.free().no_duplicates()
        &&& forall|k: int|
            0 <= k < self.free().len() ==> {
                let id = #[trigger] self.free()[k];
                self.in_range(id) && !self.is_active(id)
            }
        &&& self.free().len() + self.active_count() == self.max_slots()
    }

    /// A gateway with `max_slots` free slots and entries that live `ttl_ms`.
    pub fn new(max_slots: SlotId, ttl_ms: u64) -> (r: VideoGateway)
        ensures
            r.wf(),
            r.max_slots() == max_slots,
            r.ttl() == ttl_ms,
            r.free() == ids_upto(max_slots as nat),
            r.active_count() == 0,
            forall|id: SlotId| !r.is_active(id),
    {
        let free_slots = FreePool::new(max_slots);
        let mut slots: Vec<Option<SlotEntry>> = Vec::new();
        let mut i: SlotId = 0;
        while i < max_slots
            invariant
                i <= max_slots,
                slots@.len() == i,
                forall|k: int| 0 <= k < i ==> slots@[k] is None,
                count_active(slots@) == 0,
            decreases max_slots - i,
        {
            let ghost prev = slots@;
            slots.push(None);
            proof {
                assert(slots@.drop_last() =~= prev);
            }
            i = i + 1;
        }
        proof {
            lemma_ids_upto(max_slots as nat);
        }
        VideoGateway { free_slots, slots, ttl_ms }
    }

    /// Handles the notification that slot `id` left the table for `cause`.
    /// A replaced entry keeps its slot; any other cause frees the slot, and
    /// its id goes to the tail of the pool. Each removal is reported once,
    /// so an id is never queued twice.
    fn on_removal(&mut self, id: SlotId, cause: RemovalCause)
        requires
            cause != RemovalCause::Replaced ==> {
                &&& old(self).in_range(id)
                &&& !old(self).is_active(id)
                &&& !old(self).free().contains(id)
                &&& old(self).free().len() + old(self).active_count() + 1 == old(self).max_slots()
                &&& old(self).max_slots() <= u32::MAX
                &&& old(self).free().no_duplicates()
                &&& forall|k: int|
                    0 <= k < old(self).free().len() ==> {
                        let j = #[trigger] old(self).free()[k];
                        old(self).in_range(j) && !old(self).is_active(j)
                    }
            },
            cause == RemovalCause::Replaced ==> old(self).wf(),
        ensures
            final(self).wf(),
            final(self).table() == old(self).table(),
            final(self).ttl() == old(self).ttl(),
            cause == RemovalCause::Replaced ==> final(self).free() == old(self).free(),
            cause != RemovalCause::Replaced ==> final(self).free() == old(self).free().push(id),
    {
        match cause {
            RemovalCause::Replaced => {},
            RemovalCause::Expired | RemovalCause::Explicit | RemovalCause::Size => {
                self.free_slots.release(id);
                proof {
                    assert(self.free() == old(self).free().push(id));
                    assert forall|k: int| 0 <= k < self.free().len() implies {
                        let j = #[trigger] self.free()[k];
                        self.in_range(j) && !self.is_active(j)
                    } by {
                        if k < old(self).free().len() {
                            assert(self.free()[k] == old(self).free()[k]);
                        }
                    }
                    assert forall|a: int, b: int|
                        0 <= a < self.free().len() && 0 <= b < self.free().len() && a != b
                        implies self.free()[a] != self.free()[b] by {
                        let n = old(self).free().len() as int;
                        if a == n {
                            assert(old(self).free()[b] == self.free()[b]);
                        } else if b == n {
                            assert(old(self).free()[a] == self.free()[a]);
                        }
                    }
                }
            },
        }
    }

    /// Writes `url` into slot `id` with a fresh clock. Overwriting a taken
    /// slot is reported as `Replaced`; writing a free one reports nothing.
    fn insert(&mut self, id: SlotId, url: String, now: u64) -> (r: Option<RemovalCause>)
        requires
            old(self).in_range(id),
        ensures
            final(self).free() == old(self).free(),
            final(self).ttl() == old(self).ttl(),
            final(self).table() == written_table(old(self).table(), id, url, now, old(self).ttl()),
            r == (if old(self).is_active(id) { Some(RemovalCause::Replaced) } else { None }),
            final(self).active_count() == old(self).active_count() + (if old(self).is_active(id) {
                0nat
            } else {
                1nat
            }),
    {
        let idx = (id - 1) as usize;
        let expires_at = now.saturating_add(self.ttl_ms);
        let replaced = self.slots[idx].is_some();
        proof {
            lemma_count_update(self.slots@, idx as int, Some(SlotEntry { url, expires_at }));
        }
        self.slots[idx] = Some(SlotEntry { url, expires_at });
        if replaced {
            Some(RemovalCause::Replaced)
        } else {
            None
        }
    }

    /// Hands out the front id of the pool for `url`, or `None` when every
    /// slot is taken. The id handed out was not active.
    pub fn create_redirect(&mut self, url: String, now: u64) -> (r: Option<SlotId>)
        requires
            old(self).wf(),
        ensures
            final(self).wf(),
            final(self).ttl() == old(self).ttl(),
            acquired(old(self).free(), r, final(self).free()),
            old(self).free().len() == 0 ==> final(self).table() == old(self).table(),
            old(self).free().len() > 0 ==> {
                let id = old(self).free()[0];
                &&& !old(self).is_active(id)
                &&& final(self).table() == written_table(
                    old(self).table(),
                    id,
                    url,
                    now,
                    old(self).ttl(),
                )
            },
    {
        match self.free_slots.acquire() {
            None => None,
            Some(id) => {
                proof {
                    assert(old(self).free()[0] == id);
                    assert(old(self).in_range(id));
                    assert(!self.free().contains(id));
                }
                let cause = self.insert(id, url, now);
                proof {
                    assert forall|k: int| 0 <= k < self.free().len() implies {
                        let j = #[trigger] self.free()[k];
                        self.in_range(j) && !self.is_active(j)
                    } by {
                        assert(self.free()[k] == old(self).free()[k + 1]);
                        assert(old(self).free()[k + 1] != old(self).free()[0]);
                    }
                }
                Some(id)
            },
        }
    }

    /// The url of slot `id` if it is live at `now`; the clock is not reset.
    pub fn get_redirect(&self, id: SlotId, now: u64) -> (r: Option<String>)
        requires
            self.wf(),
        ensures
            r == (if self.is_live(id, now) { Some(self.url_of(id)) } else { None }),
    {
        if id == 0 || id as usize > self.slots.len() {
            return None;
        }
        match &self.slots[(id - 1) as usize] {
            Some(e) => {
                if now < e.expires_at {
                    Some(e.url.clone())
                } else {
                    None
                }
            },
            None => None,
        }
    }

    /// Removes slot `id` on request; its id goes to the tail of the pool.
    /// Does nothing when the slot is not taken.
    pub fn remove_redirect(&mut self, id: SlotId)
        requires
            old(self).wf(),
        ensures
            final(self).wf(),
            final(self).ttl() == old(self).ttl(),
            old(self).is_active(id) ==> final(self).free() == old(self).free().push(id)
                && final(self).table() == old(self).table().update(id - 1, None),
            !old(self).is_active(id) ==> final(self).free() == old(self).free()
                && final(self).table() == old(self).table(),
    {
        if id == 0 || id as usize > self.slots.len() {
            return;
        }
        let idx = (id - 1) as usize;
        if self.slots[idx].is_none() {
            return;
        }
        proof {
            lemma_count_update(self.slots@, idx as int, None);
            assert(!self.free().contains(id));
        }
        self.slots[idx] = None;
        self.on_removal(id, RemovalCause::Explicit);
    }

    /// The maintenance sweep at `now`: every entry whose clock has lapsed
    /// leaves the table, and its id goes to the tail of the pool, smallest
    /// id first. Entries still live are kept as they are.
    pub fn tick(&mut self, now: u64)
        requires
            old(self).wf(),
        ensures
            final(self).wf(),
            final(self).ttl() == old(self).ttl(),
            final(self).table() == swept_table(old(self).table(), now),
            final(self).free() == old(self).free() + expired_ids(
                old(self).table(),
                now,
                old(self).max_slots(),
            ),
    {
        let ghost t0 = self.slots@;
        let ghost f0 = self.free_slots@;
        let n = self.slots.len();
        let mut i: usize = 0;
        while i < n
            invariant
                self.wf(),
                n == self.slots@.len(),
                n == t0.len(),
                i <= n,
                self.ttl_ms == old(self).ttl_ms,
                t0 == old(self).table(),
                f0 == old(self).free(),
                forall|k: int| 0 <= k < i ==> self.slots@[k] == swept_table(t0, now)[k],
                forall|k: int| i <= k < n ==> self.slots@[k] == t0[k],
                self.free_slots@ == f0 + expired_ids(t0, now, i as nat),
            decreases n - i,
        {
            let lapsed = match &self.slots[i] {
                Some(e) => e.expires_at <= now,
                None => false,
            };
            let id = (i + 1) as SlotId;
            if lapsed {
                proof {
                    lemma_count_update(self.slots@, i as int, None);
                    assert(!self.free().contains(id)) by {
                        if self.free().contains(id) {
                            let k = choose|k: int| 0 <= k < self.free().len() && self.free()[k] == id;
                            assert(!self.is_active(self.free()[k]));
                        }
                    }
                }
                self.slots.set(i, None);
                self.on_removal(id, RemovalCause::Expired);
            }
            proof {
                assert(self.free_slots@ =~= f0 + expired_ids(t0, now, (i + 1) as nat));
            }
            i = i + 1;
        }
        proof {
            assert(self.slots@ =~= swept_table(t0, now));
        }
    }

    /// Every entry live at `now`, in increasing slot order.
    pub fn get_all_redirect(&self, now: u64) -> (r: Option<Vec<RedirectEntry>>)
        requires
            self.wf(),
        ensures
            r is Some,
            forall|k: int|
                0 <= k < r.unwrap()@.len() ==> {
                    let e = #[trigger] r.unwrap()@[k];
                    self.is_live(e.slot_id, now) && e.url == self.url_of(e.slot_id)
                },
            forall|id: SlotId|
                self.is_live(id, now) ==> exists|k: int|
                    0 <= k < r.unwrap()@.len() && (#[trigger] r.unwrap()@[k]).slot_id == id,
            forall|a: int, b: int|
                0 <= a < b < r.unwrap()@.len() ==> r.unwrap()@[a].slot_id < r.unwrap()@[b].slot_id,
    {
        let mut out: Vec<RedirectEntry> = Vec::new();
        let n = self.slots.len();
        let mut i: usize = 0;
        while i < n
            invariant
                self.wf(),
                n == self.slots@.len(),
                i <= n,
                forall|k: int|
                    0 <= k < out@.len() ==> {
                        let e = #[trigger] out@[k];
                        self.is_live(e.slot_id, now) && e.url == self.url_of(e.slot_id) && e.slot_id
                            <= i
                    },
                forall|id: SlotId|
                    id <= i && self.is_live(id, now) ==> exists|k: int|
                        0 <= k < out@.len() && (#[trigger] out@[k]).slot_id == id,
                forall|a: int, b: int|
                    0 <= a < b < out@.len() ==> out@[a].slot_id < out@[b].slot_id,
            decreases n - i,
        {
            let id = (i + 1) as SlotId;
            match &self.slots[i] {
                Some(e) => {
                    if now < e.expires_at {
                        let ghost prev = out@;
                        out.push(RedirectEntry { slot_id: id, url: e.url.clone() });
                        proof {
                            assert(out@[prev.len() as int].slot_id == id);
                            assert forall|j: SlotId|
                                j <= i + 1 && self.is_live(j, now) implies exists|k: int|
                                0 <= k < out@.len() && (#[trigger] out@[k]).slot_id == j by {
                                if j <= i {
                                    let k = choose|k: int|
                                        0 <= k < prev.len() && (#[trigger] prev[k]).slot_id == j;
                                    assert(out@[k] == prev[k]);
                                }
                            }
                        }
                    }
                },
                None => {},
            }
            i = i + 1;
        }
        let r = Some(out);
        proof {
            assert forall|id: SlotId| self.is_live(id, now) implies exists|k: int|
                0 <= k < r.unwrap()@.len() && (#[trigger] r.unwrap()@[k]).slot_id == id by {
                assert(id <= i);
                let k = choose|k: int| 0 <= k < out@.len() && (#[trigger] out@[k]).slot_id == id;
                assert(r.unwrap()@[k] == out@[k]);
            }
        }
        r
    }

    /// Touches each id of `slot_ids` in turn at `now`. Unknown or dead ids
    /// are skipped; no slot is taken or freed.
    pub fn batch_touch(&mut self, slot_ids: &Vec<SlotId>, now: u64)
        requires
            old(self).wf(),
        ensures
            final(self).wf(),
            final(self).ttl() == old(self).ttl(),
            final(self).free() == old(self).free(),
            final(self).active_count() == old(self).active_count(),
            final(self).max_slots() == old(self).max_slots(),
            forall|id: SlotId| final(self).is_active(id) == old(self).is_active(id),
            forall|id: SlotId|
                old(self).in_range(id) && !slot_ids@.contains(id) ==> final(self).table()[id - 1]
                    == old(self).table()[id - 1],
            forall|id: SlotId|
                old(self).in_range(id) && !old(self).is_live(id, now) ==> final(self).table()[id
                    - 1] == old(self).table()[id - 1],
            forall|id: SlotId|
                slot_ids@.contains(id) && old(self).is_live(id, now) ==> final(self).table()[id
                    - 1] == Some(
                    SlotEntry { url: old(self).url_of(id), expires_at: expiry_at(now, old(self).ttl()) },
                ),
    {
        let ghost g0 = old(self).table();
        let mut i: usize = 0;
        while i < slot_ids.len()
            invariant
                self.wf(),
                i <= slot_ids@.len(),
                self.ttl() == old(self).ttl(),
                self.free() == old(self).free(),
                self.active_count() == old(self).active_count(),
                g0 == old(self).table(),
                self.max_slots() == old(self).max_slots(),
                forall|id: SlotId| self.is_active(id) == old(self).is_active(id),
                forall|id: SlotId|
                    old(self).in_range(id) && !slot_ids@.take(i as int).contains(id) ==> self.table()[id
                        - 1] == g0[id - 1],
                forall|id: SlotId|
                    old(self).in_range(id) && !old(self).is_live(id, now) ==> self.table()[id - 1]
                        == g0[id - 1],
                forall|id: SlotId|
                    slot_ids@.take(i as int).contains(id) && old(self).is_live(id, now)
                        ==> self.table()[id - 1] == Some(
                        SlotEntry { url: old(self).url_of(id), expires_at: expiry_at(now, old(self).ttl()) },
                    ),
            decreases slot_ids@.len() - i,
        {
            let id = slot_ids[i];
            let ghost before = self.table();
            self.touch_redirect_slot(id, now);
            proof {
                let pre = slot_ids@.take(i as int);
                let post = slot_ids@.take(i + 1);
                assert(post =~= pre.push(id));
                assert forall|j: SlotId| post.contains(j) implies pre.contains(j) || j == id by {
                    let k = choose|k: int| 0 <= k < post.len() && post[k] == j;
                    if k < pre.len() {
                        assert(pre[k] == j);
                    }
                }
                assert forall|j: SlotId| pre.contains(j) implies post.contains(j) by {
                    let k = choose|k: int| 0 <= k < pre.len() && pre[k] == j;
                    assert(post[k] == j);
                }
                assert(post[i as int] == id);
            }
            i = i + 1;
        }
        proof {
            assert(slot_ids@.take(slot_ids@.len() as int) =~= slot_ids@);
        }
    }

    /// Number of free slots.
    pub fn free_count(&self) -> (r: usize)
        ensures
            r == self.free().len(),
    {
        self.free_slots.len()
    }

    /// Number of taken slots, live or awaiting a sweep.
    pub fn active_len(&self) -> (r: usize)
        requires
            self.wf(),
        ensures
            r == self.active_count(),
    {
        let n = self.slots.len();
        let mut c: usize = 0;
        let mut i: usize = 0;
        while i < n
            invariant
                n == self.slots@.len(),
                i <= n,
                c == count_active(self.slots@.take(i as int)),
                c <= i,
            decreases n - i,
        {
            proof {
                assert(self.slots@.take(i + 1).drop_last() =~= self.slots@.take(i as int));
            }
            if self.slots[i].is_some() {
                c = c + 1;
            }
            i = i + 1;
        }
        proof {
            assert(self.slots@.take(n as int) =~= self.slots@);
        }
        c
    }

    /// Resets the clock of slot `id` if it is live at `now`; otherwise does
    /// nothing. The slot stays taken either way: the pool is left alone.
    pub fn touch_redirect_slot(&mut self, id: SlotId, now: u64)
        requires
            old(self).wf(),
        ensures
            final(self).wf(),
            final(self).ttl() == old(self).ttl(),
            final(self).free() == old(self).free(),
            final(self).active_count() == old(self).active_count(),
            final(self).table() == (if old(self).is_live(id, now) {
                written_table(old(self).table(), id, old(self).url_of(id), now, old(self).ttl())
            } else {
                old(self).table()
            }),
    {
        match self.get_redirect(id, now) {
            Some(url) => {
                let cause = self.insert(id, url, now);
                match cause {
                    Some(c) => self.on_removal(id, c),
                    None => {},
                }
            },
            None => {},
        }
    }
}

} // verus!
