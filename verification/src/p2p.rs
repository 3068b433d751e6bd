//! Directed block sync between peers: the request window shared by every
//! sender, the page-chase bound, the byte cap of one answer, and the wire
//! format of requests and responses.
//!
//! Peers and outbound requests are named by integers here; the transport
//! maps its own identifiers onto them.
use vstd::prelude::*;
use std::collections::{HashMap, VecDeque};
use crate::bytes::{copy_range, le32, le64, lemma_le32_roundtrip, lemma_le64_roundtrip, push_u32, push_u64, read_u32, read_u64};
use crate::digest::{sha3, sha3_256};
use crate::codec::{framed_all, fields_fit, lemma_parse_framed, parse_fields, put_bytes, read_fields, u32_at, u64_at, DecodeErr};

verus! {

broadcast use {vstd::std_specs::hash::group_hash_axioms, vstd::std_specs::vec::group_vec_axioms};

/// Peers a single `get-blocks` is directed at at once.
pub const SYNC_FANOUT: usize = 3;

/// Peers that may wait for a free slot in the window.
pub const MAX_WAITING_PEERS: usize = 1024;

/// A waiting peer and the slot it will be asked to sync after.
pub type Waiting = (u64, u64);

/// One shared outgoing request window for connect, timer and page chase.
///
/// At most [`SYNC_FANOUT`] requests are in flight, at most one per peer;
/// further peers queue, each at most once, in arrival order.
pub struct Requests {
    active: HashMap<u64, u64>,
    waiting: VecDeque<Waiting>,
}

/// No two entries of `w` name the same peer.
pub open spec fn unique_peers(w: Seq<Waiting>) -> bool {
    forall|i: int, j: int| 0 <= i < j < w.len() ==> #[trigger] w[i].0 != #[trigger] w[j].0
}

/// The position of `peer` in the queue.
pub open spec fn waiting_index(w: Seq<Waiting>, peer: u64) -> Option<int> {
    if exists|i: int| 0 <= i < w.len() && #[trigger] w[i].0 == peer {
        Some(choose|i: int| 0 <= i < w.len() && #[trigger] w[i].0 == peer)
    } else {
        None
    }
}

/// Every entry that does not name `peer`.
pub open spec fn not_peer(peer: u64) -> spec_fn(Waiting) -> bool {
    |w: Waiting| w.0 != peer
}

proof fn lemma_filter_push(s: Seq<Waiting>, e: Waiting, peer: u64)
    ensures
        s.push(e).filter(not_peer(peer)) == if e.0 != peer {
            s.filter(not_peer(peer)).push(e)
        } else {
            s.filter(not_peer(peer))
        },
{
    reveal(Seq::filter);
    assert(s.push(e).drop_last() =~= s);
}

pub open spec fn min_u64(a: u64, b: u64) -> u64 {
    if a <= b {
        a
    } else {
        b
    }
}

impl Requests {
    /// In-flight requests by peer.
    pub closed spec fn active(&self) -> Map<u64, u64> {
        self.active@
    }

    /// The queue, front first.
    pub closed spec fn queue(&self) -> Seq<Waiting> {
        self.waiting@
    }

    /// The window's invariant: bounded, and one entry per peer.
    pub open spec fn wf(&self) -> bool {
        &&& self.active().len() <= SYNC_FANOUT
        &&& self.active().dom().finite()
        &&& self.queue().len() <= MAX_WAITING_PEERS
        &&& unique_peers(self.queue())
    }

    pub fn new() -> (r: Requests)
        ensures
            r.wf(),
            r.active() == Map::<u64, u64>::empty(),
            r.queue() == Seq::<Waiting>::empty(),
    {
        Requests { active: HashMap::new(), waiting: VecDeque::new() }
    }

    pub fn contains(&self, peer: u64) -> (r: bool)
        ensures
            r == self.active().dom().contains(peer),
    {
        self.active.contains_key(&peer)
    }

    /// The number of requests in flight.
    pub fn active_len(&self) -> (r: usize)
        requires
            self.wf(),
        ensures
            r == self.active().len(),
    {
        self.active.len()
    }

    /// The request in flight to `peer`, if any.
    pub fn active_request(&self, peer: u64) -> (r: Option<u64>)
        ensures
            r == (if self.active().dom().contains(peer) {
                Some(self.active()[peer])
            } else {
                None::<u64>
            }),
    {
        match self.active.get(&peer) {
            Some(id) => Some(*id),
            None => None,
        }
    }

    /// The queue, front first.
    pub fn waiting(&self) -> (r: Vec<Waiting>)
        ensures
            r@ == self.queue(),
    {
        let n = self.waiting.len();
        let mut out: Vec<Waiting> = Vec::new();
        let mut i: usize = 0;
        while i < n
            invariant
                i <= n,
                n == self.waiting@.len(),
                out@ == self.waiting@.subrange(0, i as int),
            decreases n - i,
        {
            out.push(self.waiting[i]);
            proof {
                assert(self.waiting@.subrange(0, i + 1) =~= self.waiting@.subrange(0, i as int).push(self.waiting@[i as int]));
            }
            i = i + 1;
        }
        proof {
            assert(self.waiting@.subrange(0, n as int) =~= self.waiting@);
        }
        out
    }

    /// Queue `peer` to be asked for blocks after `after_slot`. A peer already
    /// in flight is refused; a peer already waiting keeps its place and the
    /// lower cursor, so no outstanding gap is lost; a full queue refuses.
    pub fn enqueue(&mut self, peer: u64, after_slot: u64) -> (r: bool)
        requires
            old(self).wf(),
        ensures
            final(self).wf(),
            final(self).active() == old(self).active(),
            old(self).active().dom().contains(peer) ==> !r && final(self).queue() == old(self).queue(),
            !old(self).active().dom().contains(peer) ==> match waiting_index(old(self).queue(), peer) {
                Some(i) => r && final(self).queue() == old(self).queue().update(
                    i,
                    (peer, min_u64(old(self).queue()[i].1, after_slot)),
                ),
                None => if old(self).queue().len() >= MAX_WAITING_PEERS {
                    !r && final(self).queue() == old(self).queue()
                } else {
                    r && final(self).queue() == old(self).queue().push((peer, after_slot))
                },
            },
    {
        if self.contains(peer) {
            return false;
        }
        let n = self.waiting.len();
        let mut i: usize = 0;
        while i < n
            invariant
                i <= n,
                n == self.waiting@.len(),
                self.waiting@ == old(self).waiting@,
                self.active@ == old(self).active@,
                !self.active@.dom().contains(peer),
                old(self).wf(),
                forall|k: int| 0 <= k < i ==> #[trigger] self.waiting@[k].0 != peer,
            decreases n - i,
        {
            if self.waiting[i].0 == peer {
                let cur = self.waiting[i].1;
                let low = if after_slot < cur {
                    after_slot
                } else {
                    cur
                };
                let _ = self.waiting.remove(i);
                self.waiting.insert(i, (peer, low));
                proof {
                    assert(self.waiting@ =~= old(self).waiting@.update(i as int, (peer, low)));
                    let w = old(self).waiting@;
                    assert(waiting_index(w, peer) == Some(i as int)) by {
                        assert(w[i as int].0 == peer);
                        let j = choose|j: int| 0 <= j < w.len() && #[trigger] w[j].0 == peer;
                        if j != i as int {
                            if j < i {
                                assert(w[j].0 != peer);
                            } else {
                                assert(w[i as int].0 != w[j].0);
                            }
                        }
                    }
                    assert forall|a: int, b: int|
                        0 <= a < b < self.waiting@.len() implies #[trigger] self.waiting@[a].0
                        != #[trigger] self.waiting@[b].0 by {
                        assert(w[a].0 != w[b].0);
                    }
                }
                return true;
            }
            i = i + 1;
        }
        proof {
            let w = old(self).waiting@;
            assert(!(exists|j: int| 0 <= j < w.len() && #[trigger] w[j].0 == peer));
        }
        if n >= MAX_WAITING_PEERS {
            return false;
        }
        self.waiting.push_back((peer, after_slot));
        proof {
            let w = old(self).waiting@;
            assert forall|a: int, b: int|
                0 <= a < b < self.waiting@.len() implies #[trigger] self.waiting@[a].0
                != #[trigger] self.waiting@[b].0 by {
                if b < w.len() {
                    assert(w[a].0 != w[b].0);
                } else {
                    assert(self.waiting@[b].0 == peer);
                    assert(w[a].0 != peer);
                }
            }
        }
        true
    }

    /// Register `request` as in flight to `peer`, if the window has room and
    /// the peer has none in flight. The caller sends only after asking
    /// [`Requests::may_start`], so a refused peer is never sent anything.
    pub fn start(&mut self, peer: u64, request: u64) -> (r: bool)
        requires
            old(self).wf(),
        ensures
            final(self).wf(),
            final(self).queue() == old(self).queue(),
            r == (old(self).active().len() < SYNC_FANOUT && !old(self).active().dom().contains(peer)),
            r ==> final(self).active() == old(self).active().insert(peer, request),
            !r ==> final(self).active() == old(self).active(),
    {
        if self.active.len() >= SYNC_FANOUT || self.contains(peer) {
            return false;
        }
        self.active.insert(peer, request);
        true
    }

    /// Whether [`Requests::start`] would accept `peer` now.
    pub fn may_start(&self, peer: u64) -> (r: bool)
        requires
            self.wf(),
        ensures
            r == (self.active().len() < SYNC_FANOUT && !self.active().dom().contains(peer)),
    {
        self.active.len() < SYNC_FANOUT && !self.contains(peer)
    }

    /// Release the slot of `peer`, but only for the very request that holds
    /// it: a late answer to an older request cannot free a newer one.
    pub fn finish(&mut self, peer: u64, request: u64) -> (r: bool)
        requires
            old(self).wf(),
        ensures
            final(self).wf(),
            final(self).queue() == old(self).queue(),
            r == (old(self).active().dom().contains(peer) && old(self).active()[peer] == request),
            r ==> final(self).active() == old(self).active().remove(peer),
            !r ==> final(self).active() == old(self).active(),
    {
        match self.active.get(&peer) {
            Some(id) => {
                if *id != request {
                    return false;
                }
            },
            None => {
                return false;
            },
        }
        self.active.remove(&peer);
        true
    }

    /// Drop everything about `peer`: its request in flight and its place in
    /// the queue.
    pub fn forget(&mut self, peer: u64)
        requires
            old(self).wf(),
        ensures
            final(self).wf(),
            final(self).active() == old(self).active().remove(peer),
            final(self).queue() == old(self).queue().filter(not_peer(peer)),
    {
        self.active.remove(&peer);
        let mut old_w: VecDeque<Waiting> = VecDeque::new();
        std::mem::swap(&mut old_w, &mut self.waiting);
        let n = old_w.len();
        let mut kept: VecDeque<Waiting> = VecDeque::new();
        proof {
            reveal(Seq::filter);
            assert(old_w@.subrange(0, 0) =~= Seq::<Waiting>::empty());
        }
        let mut i: usize = 0;
        while i < n
            invariant
                i <= n,
                n == old_w@.len(),
                old_w@ == old(self).waiting@,
                unique_peers(old_w@),
                kept@ == old_w@.subrange(0, i as int).filter(not_peer(peer)),
                kept@.len() <= i,
                unique_peers(kept@),
                forall|k: int| 0 <= k < kept@.len() ==> exists|j: int| 0 <= j < i && #[trigger] kept@[k] == old_w@[j],
            decreases n - i,
        {
            let e = old_w[i];
            proof {
                assert(old_w@.subrange(0, i + 1) =~= old_w@.subrange(0, i as int).push(e));
                lemma_filter_push(old_w@.subrange(0, i as int), e, peer);
            }
            if e.0 != peer {
                proof {
                    let kp = kept@.push(e);
                    assert forall|a: int, b: int| 0 <= a < b < kp.len() implies #[trigger] kp[a].0 != #[trigger] kp[b].0 by {
                        if b == kp.len() - 1 {
                            let j = choose|j: int| 0 <= j < i && #[trigger] kept@[a] == old_w@[j];
                            assert(old_w@[j].0 != old_w@[i as int].0);
                        } else {
                        }
                    }
                }
                kept.push_back(e);
            }
            i = i + 1;
        }
        proof {
            assert(old_w@.subrange(0, n as int) =~= old_w@);
        }
        self.waiting = kept;
    }

    /// The next waiting peer to ask, taken off the queue, while the window
    /// has room. A queued peer that meanwhile got a request in flight is
    /// dropped from the queue, not asked twice.
    pub fn dispatch_next(&mut self) -> (r: Option<Waiting>)
        requires
            old(self).wf(),
        ensures
            final(self).wf(),
            final(self).active() == old(self).active(),
            old(self).active().len() >= SYNC_FANOUT ==> r is None && final(self).queue() == old(self).queue(),
            old(self).active().len() < SYNC_FANOUT ==> match r {
                Some(w) => {
                    &&& !old(self).active().dom().contains(w.0)
                    &&& exists|k: int|
                        #![trigger old(self).queue()[k]]
                        0 <= k < old(self).queue().len() && old(self).queue()[k] == w && final(self).queue()
                            == old(self).queue().subrange(k + 1, old(self).queue().len() as int)
                            && forall|j: int|
                            0 <= j < k ==> old(self).active().dom().contains(#[trigger] old(self).queue()[j].0)
                },
                None => final(self).queue() == Seq::<Waiting>::empty() && forall|j: int|
                    0 <= j < old(self).queue().len() ==> old(self).active().dom().contains(
                        #[trigger] old(self).queue()[j].0,
                    ),
            },
    {
        if self.active.len() >= SYNC_FANOUT {
            return None;
        }
        let ghost w0 = self.waiting@;
        let ghost mut k: int = 0;
        while self.waiting.len() > 0
            invariant
                self.active@ == old(self).active@,
                self.active@.len() < SYNC_FANOUT,
                old(self).wf(),
                w0 == old(self).waiting@,
                0 <= k <= w0.len(),
                self.waiting@ == w0.subrange(k, w0.len() as int),
                forall|j: int| 0 <= j < k ==> self.active@.dom().contains(#[trigger] w0[j].0),
            decreases self.waiting@.len(),
        {
            let e = self.waiting.pop_front().unwrap();
            proof {
                assert(e == w0[k]);
                k = k + 1;
                assert(self.waiting@ =~= w0.subrange(k, w0.len() as int));
            }
            if !self.contains(e.0) {
                proof {
                    assert(unique_peers(self.waiting@)) by {
                        assert forall|a: int, b: int| 0 <= a < b < self.waiting@.len() implies #[trigger] self.waiting@[a].0 != #[trigger] self.waiting@[b].0 by {
                            assert(self.waiting@[a] == w0[a + k]);
                            assert(self.waiting@[b] == w0[b + k]);
                        }
                    }
                }
                return Some(e);
            }
        }
        None
    }
}


// ── The gossip verdict ──────────────────────────────────────────────────────

/// The three verbs gossip validation understands. `Ignore` drops a message
/// and says nothing about the peer; `Reject` drops it and counts against the
/// forwarding peer.
#[derive(Clone, Copy, Debug, PartialEq, Eq)]
pub enum Verdict {
    /// Valid: relay it and count the peer's delivery.
    Accept,
    /// Drop without relaying. No penalty.
    Ignore,
    /// Provable violation. Drop, and penalize the forwarding peer.
    Reject,
}

// ── Paging a cold sync ──────────────────────────────────────────────────────

/// Full sync pages this node chases from one peer without its own applied
/// head advancing.
pub const MAX_PAGES_WITHOUT_PROGRESS: u32 = 64;

/// The page-chase counter: how many full pages were chased since the applied
/// head last moved, and the head at the last page.
#[derive(Clone, Copy, Debug, PartialEq, Eq)]
pub struct PageChase {
    pub pages_since_progress: u32,
    pub head_at_last_page: u64,
}

impl PageChase {
    pub open spec fn wf(&self) -> bool {
        self.pages_since_progress <= MAX_PAGES_WITHOUT_PROGRESS
    }

    pub fn new() -> (r: PageChase)
        ensures
            r.wf(),
            r.pages_since_progress == 0,
            r.head_at_last_page == 0,
    {
        PageChase { pages_since_progress: 0, head_at_last_page: 0 }
    }

    /// May this node chase another full page, with its applied head at
    /// `head`? Any advance of the head resets the allowance.
    pub fn may_chase_page(&mut self, head: u64) -> (r: bool)
        requires
            old(self).wf(),
        ensures
            final(self).wf(),
            (*final(self), r) == chase_step(*old(self), head),
            ({
                let base = if head > old(self).head_at_last_page {
                    0
                } else {
                    old(self).pages_since_progress
                };
                &&& final(self).head_at_last_page == (if head > old(self).head_at_last_page {
                    head
                } else {
                    old(self).head_at_last_page
                })
                &&& r == (base < MAX_PAGES_WITHOUT_PROGRESS)
                &&& final(self).pages_since_progress == (if r {
                    base + 1
                } else {
                    base as int
                })
            }),
    {
        if head > self.head_at_last_page {
            self.head_at_last_page = head;
            self.pages_since_progress = 0;
        }
        if self.pages_since_progress >= MAX_PAGES_WITHOUT_PROGRESS {
            return false;
        }
        self.pages_since_progress = self.pages_since_progress + 1;
        true
    }
}

/// One ask of [`PageChase::may_chase_page`]: the counter after it and the
/// answer.
pub open spec fn chase_step(c: PageChase, head: u64) -> (PageChase, bool) {
    let h = if head > c.head_at_last_page {
        head
    } else {
        c.head_at_last_page
    };
    let base: u32 = if head > c.head_at_last_page {
        0
    } else {
        c.pages_since_progress
    };
    if base < MAX_PAGES_WITHOUT_PROGRESS {
        (PageChase { pages_since_progress: (base + 1) as u32, head_at_last_page: h }, true)
    } else {
        (PageChase { pages_since_progress: base, head_at_last_page: h }, false)
    }
}

/// Pages granted by `k` consecutive asks with the applied head at `head`.
pub open spec fn pages_granted(c: PageChase, head: u64, k: nat) -> nat
    decreases k,
{
    if k == 0 {
        0
    } else {
        let (n, ok) = chase_step(c, head);
        (if ok {
            1nat
        } else {
            0nat
        }) + pages_granted(n, head, (k - 1) as nat)
    }
}

/// Without progress of the applied head, however often it is asked, the
/// chase grants at most [`MAX_PAGES_WITHOUT_PROGRESS`] pages, and only what
/// is left of the allowance when the head has not moved past the last page.
pub proof fn lemma_pages_without_progress_are_bounded(c: PageChase, head: u64, k: nat)
    requires
        c.wf(),
    ensures
        pages_granted(c, head, k) <= MAX_PAGES_WITHOUT_PROGRESS,
        head <= c.head_at_last_page ==> pages_granted(c, head, k) + c.pages_since_progress
            <= MAX_PAGES_WITHOUT_PROGRESS,
    decreases k,
{
    if k > 0 {
        let (n, ok) = chase_step(c, head);
        lemma_pages_without_progress_are_bounded(n, head, (k - 1) as nat);
    }
}

/// The largest slot in a page, or 0 for an empty one.
pub open spec fn highest_slot(slots: Seq<u64>) -> u64
    decreases slots.len(),
{
    if slots.len() == 0 {
        0
    } else {
        let rest = highest_slot(slots.drop_last());
        if slots.last() > rest {
            slots.last()
        } else {
            rest
        }
    }
}

/// The next page is asked after the highest slot of this one: a page's
/// highest slot is one of its slots and no slot of it is above it, so the
/// walk never asks again for a block this page already carried.
pub proof fn lemma_highest_slot_is_the_largest(slots: Seq<u64>)
    ensures
        slots.len() > 0 ==> slots.contains(highest_slot(slots)),
        forall|i: int| 0 <= i < slots.len() ==> #[trigger] slots[i] <= highest_slot(slots),
        slots.len() == 0 ==> highest_slot(slots) == 0,
    decreases slots.len(),
{
    if slots.len() > 0 {
        let init = slots.drop_last();
        lemma_highest_slot_is_the_largest(init);
        assert forall|i: int| 0 <= i < slots.len() implies #[trigger] slots[i] <= highest_slot(slots) by {
            if i < init.len() {
                assert(slots[i] == init[i]);
            }
        }
        if slots.last() > highest_slot(init) || init.len() == 0 {
            assert(slots[slots.len() - 1] == highest_slot(slots));
        } else {
            let k = choose|k: int| 0 <= k < init.len() && init[k] == highest_slot(init);
            assert(slots[k] == init[k]);
        }
    }
}

/// After a sync page of `page_len` envelopes whose decodable ones carry
/// `slots`: the `after_slot` of the next page to ask the same peer for, if
/// any. A full page means the peer has more; a short page, a page with no
/// slot above genesis, or an exhausted chase allowance ends the walk.
pub fn next_page_after(page_len: usize, slots: &Vec<u64>, chase: &mut PageChase, head: u64) -> (r: Option<u64>)
    requires
        old(chase).wf(),
    ensures
        final(chase).wf(),
        if page_len >= MAX_SYNC_BLOCKS && highest_slot(slots@) > 0 {
            &&& (*final(chase), r is Some) == chase_step(*old(chase), head)
            &&& (r matches Some(a) ==> a == highest_slot(slots@))
        } else {
            r is None && *final(chase) == *old(chase)
        },
{
    let mut highest: u64 = 0;
    let mut i: usize = 0;
    while i < slots.len()
        invariant
            i <= slots@.len(),
            highest == highest_slot(slots@.subrange(0, i as int)),
        decreases slots.len() - i,
    {
        proof {
            assert(slots@.subrange(0, i + 1).drop_last() =~= slots@.subrange(0, i as int));
        }
        if slots[i] > highest {
            highest = slots[i];
        }
        i = i + 1;
    }
    proof {
        assert(slots@.subrange(0, slots@.len() as int) =~= slots@);
    }
    if page_len >= MAX_SYNC_BLOCKS && highest > 0 && chase.may_chase_page(head) {
        Some(highest)
    } else {
        None
    }
}

// ── Whom a get-blocks goes to ───────────────────────────────────────────────

/// The position from `k` on at which `a` and `b` first differ, or where the
/// shorter one ends.
pub open spec fn agree_from(a: Seq<u8>, b: Seq<u8>, k: int) -> int
    decreases a.len() - k,
{
    if 0 <= k < a.len() && k < b.len() && a[k] == b[k] {
        agree_from(a, b, k + 1)
    } else {
        k
    }
}

/// `a` orders strictly before `b` byte by byte, a proper prefix first.
pub open spec fn bytes_before(a: Seq<u8>, b: Seq<u8>) -> bool {
    let d = agree_from(a, b, 0);
    (d < a.len() && d < b.len() && a[d] < b[d]) || (d == a.len() && d < b.len())
}

/// Peer `i` is asked before peer `j`: the higher observed head first, then
/// the smaller id, then the earlier position (the order is stable).
pub open spec fn asked_before(keys: Seq<(u64, Seq<u8>)>, i: usize, j: usize) -> bool {
    ||| keys[i as int].0 > keys[j as int].0
    ||| keys[i as int].0 == keys[j as int].0 && bytes_before(keys[i as int].1, keys[j as int].1)
    ||| keys[i as int].0 == keys[j as int].0 && keys[i as int].1 == keys[j as int].1 && i < j
}

/// Each peer's observed head and the bytes of its id.
pub open spec fn peer_keys(peers: Seq<(u64, Vec<u8>)>) -> Seq<(u64, Seq<u8>)> {
    Seq::new(peers.len(), |i: int| (peers[i].0, peers[i].1@))
}

proof fn lemma_agree_from(a: Seq<u8>, b: Seq<u8>, k: int)
    requires
        0 <= k <= a.len(),
        k <= b.len(),
    ensures
        k <= agree_from(a, b, k) <= a.len(),
        agree_from(a, b, k) <= b.len(),
        forall|i: int| k <= i < agree_from(a, b, k) ==> a[i] == b[i],
        agree_from(a, b, k) == a.len() || agree_from(a, b, k) == b.len() || a[agree_from(a, b, k)] != b[agree_from(
            a,
            b,
            k,
        )],
    decreases a.len() - k,
{
    if k < a.len() && k < b.len() && a[k] == b[k] {
        lemma_agree_from(a, b, k + 1);
    }
}

proof fn lemma_agree_is(a: Seq<u8>, b: Seq<u8>, k: int, d: int)
    requires
        0 <= k <= d <= a.len(),
        d <= b.len(),
        forall|i: int| k <= i < d ==> a[i] == b[i],
        d == a.len() || d == b.len() || a[d] != b[d],
    ensures
        agree_from(a, b, k) == d,
    decreases d - k,
{
    if k < d {
        lemma_agree_is(a, b, k + 1, d);
    }
}

proof fn lemma_bytes_irreflexive(a: Seq<u8>)
    ensures
        !bytes_before(a, a),
{
    lemma_agree_is(a, a, 0, a.len() as int);
}

proof fn lemma_bytes_total(a: Seq<u8>, b: Seq<u8>)
    requires
        a != b,
    ensures
        bytes_before(a, b) || bytes_before(b, a),
{
    lemma_agree_from(a, b, 0);
    let d = agree_from(a, b, 0);
    lemma_agree_is(b, a, 0, d);
    if d == a.len() && d == b.len() {
        assert(a =~= b);
    }
}

proof fn lemma_bytes_transitive(a: Seq<u8>, b: Seq<u8>, c: Seq<u8>)
    requires
        bytes_before(a, b),
        bytes_before(b, c),
    ensures
        bytes_before(a, c),
{
    lemma_agree_from(a, b, 0);
    lemma_agree_from(b, c, 0);
    let da = agree_from(a, b, 0);
    let db = agree_from(b, c, 0);
    let d = if da < db {
        da
    } else {
        db
    };
    assert forall|i: int| 0 <= i < d implies a[i] == c[i] by {
        assert(a[i] == b[i]);
        assert(b[i] == c[i]);
    }
    if da < db {
        assert(c[da] == b[da]);
    } else if db < da {
        assert(a[db] == b[db]);
    }
    lemma_agree_is(a, c, 0, d);
}

proof fn lemma_asked_total(keys: Seq<(u64, Seq<u8>)>, i: usize, j: usize)
    requires
        i != j,
    ensures
        asked_before(keys, i, j) || asked_before(keys, j, i),
{
    if keys[i as int].1 != keys[j as int].1 {
        lemma_bytes_total(keys[i as int].1, keys[j as int].1);
    }
}

proof fn lemma_asked_transitive(keys: Seq<(u64, Seq<u8>)>, i: usize, j: usize, k: usize)
    requires
        asked_before(keys, i, j),
        asked_before(keys, j, k),
    ensures
        asked_before(keys, i, k),
{
    let (a, b, c) = (keys[i as int].1, keys[j as int].1, keys[k as int].1);
    if keys[i as int].0 == keys[j as int].0 && keys[j as int].0 == keys[k as int].0 {
        if bytes_before(a, b) && bytes_before(b, c) {
            lemma_bytes_transitive(a, b, c);
        }
        if bytes_before(a, c) {
        } else if a == c {
            if bytes_before(a, b) {
                if bytes_before(b, c) {
                    lemma_bytes_transitive(a, b, c);
                    lemma_bytes_irreflexive(a);
                }
                lemma_bytes_transitive(a, b, a);
                lemma_bytes_irreflexive(a);
            } else if bytes_before(b, c) {
                lemma_bytes_transitive(b, c, b);
                lemma_bytes_irreflexive(b);
            }
        }
    }
}

/// The first [`SYNC_FANOUT`] of positions `0..j` in the asking order.
pub open spec fn is_top(keys: Seq<(u64, Seq<u8>)>, top: Seq<usize>, j: int) -> bool {
    &&& top.len() == (if j < SYNC_FANOUT {
        j
    } else {
        SYNC_FANOUT as int
    })
    &&& forall|k: int| 0 <= k < top.len() ==> top[k] < j
    &&& forall|k: int, l: int|
        0 <= k < l < top.len() ==> #[trigger] asked_before(keys, top[k], top[l])
    &&& forall|x: usize, k: int|
        x < j && !top.contains(x) && 0 <= k < top.len() ==> #[trigger] asked_before(keys, top[k], x)
    &&& top.len() < SYNC_FANOUT ==> forall|x: usize| x < j ==> #[trigger] top.contains(x)
}

/// `top` with `j` put at position `p`, cut back to [`SYNC_FANOUT`].
pub open spec fn kept(top: Seq<usize>, p: int, j: usize) -> Seq<usize> {
    let ins = top.subrange(0, p).push(j) + top.subrange(p, top.len() as int);
    if ins.len() > SYNC_FANOUT {
        ins.drop_last()
    } else {
        ins
    }
}

proof fn lemma_kept(keys: Seq<(u64, Seq<u8>)>, top: Seq<usize>, j: usize, p: int)
    requires
        j < keys.len(),
        is_top(keys, top, j as int),
        0 <= p <= top.len(),
        forall|k: int| 0 <= k < p ==> asked_before(keys, #[trigger] top[k], j),
        p < top.len() ==> asked_before(keys, j, top[p]),
    ensures
        is_top(keys, kept(top, p, j), j + 1),
{
    let n = top.len() as int;
    let ins = top.subrange(0, p).push(j) + top.subrange(p, n);
    let next = kept(top, p, j);
    assert(ins.len() == n + 1);
    assert forall|k: int| 0 <= k < ins.len() implies #[trigger] ins[k] == (if k < p {
        top[k]
    } else if k == p {
        j
    } else {
        top[k - 1]
    }) by {}
    // j is asked before every element from p on.
    assert forall|k: int| p <= k < n implies asked_before(keys, j, #[trigger] top[k]) by {
        if k > p {
            lemma_asked_transitive(keys, j, top[p], top[k]);
        }
    }
    // Every element before p is asked before every element from p on.
    assert forall|k: int, l: int| 0 <= k < l < ins.len() implies #[trigger] asked_before(
        keys,
        ins[k],
        ins[l],
    ) by {
        if k < p && l == p {
        } else if k < p && l > p {
            assert(asked_before(keys, top[k], top[l - 1]));
        } else if k == p {
        } else if k < p {
            assert(asked_before(keys, top[k], top[l]));
        } else {
            assert(asked_before(keys, top[k - 1], top[l - 1]));
        }
    }
    assert(next.len() <= ins.len());
    assert forall|k: int| 0 <= k < next.len() implies #[trigger] next[k] == ins[k] by {}
    assert forall|k: int, l: int| 0 <= k < l < next.len() implies #[trigger] asked_before(
        keys,
        next[k],
        next[l],
    ) by {
        assert(asked_before(keys, ins[k], ins[l]));
    }
    assert forall|k: int| 0 <= k < next.len() implies next[k] < j + 1 by {
        if k != p {
            assert(next[k] == top[if k < p { k } else { k - 1 }]);
        }
    }
    // Everything in top stays in ins.
    assert forall|x: usize| top.contains(x) implies ins.contains(x) by {
        let k = choose|k: int| 0 <= k < top.len() && top[k] == x;
        if k < p {
            assert(ins[k] == x);
        } else {
            assert(ins[k + 1] == x);
        }
    }
    assert(ins[p] == j);
    // A position left out of next is asked after everything kept.
    assert forall|x: usize, k: int|
        x < j + 1 && !next.contains(x) && 0 <= k < next.len() implies #[trigger] asked_before(
        keys,
        next[k],
        x,
    ) by {
        if ins.len() > SYNC_FANOUT {
            assert(n == SYNC_FANOUT);
            if p == n {
                // j itself was cut; next is top.
                assert(next =~= top);
                if x == j {
                    assert(asked_before(keys, top[k], j));
                } else {
                    assert(asked_before(keys, top[k], x));
                }
            } else {
                // The last of top was cut.
                let last = top[n - 1];
                assert(ins[n] == last);
                if x == last {
                    if next[k] == j {
                    } else if k < p {
                        assert(asked_before(keys, top[k], top[n - 1]));
                    } else {
                        assert(next[k] == top[k - 1]);
                        assert(asked_before(keys, top[k - 1], top[n - 1]));
                    }
                } else {
                    if x == j {
                        assert(next[p] == j);
                    }
                    assert(!top.contains(x)) by {
                        if top.contains(x) {
                            let m = choose|m: int| 0 <= m < top.len() && top[m] == x;
                            if m < p {
                                assert(next[m] == x);
                            } else if m < n - 1 {
                                assert(next[m + 1] == x);
                            }
                        }
                    }
                    if next[k] == j {
                        assert(asked_before(keys, top[p], x));
                        lemma_asked_transitive(keys, j, top[p], x);
                    } else if k < p {
                        assert(asked_before(keys, top[k], x));
                    } else {
                        assert(next[k] == top[k - 1]);
                        assert(asked_before(keys, top[k - 1], x));
                    }
                }
            }
        } else {
            assert(next == ins);
            assert(n < SYNC_FANOUT);
            if x == j {
                assert(next[p] == j);
            } else {
                assert(top.contains(x));
            }
        }
    }
    assert forall|x: usize| next.len() < SYNC_FANOUT && x < j + 1 implies #[trigger] next.contains(x) by {
        assert(next == ins);
        if x == j {
            assert(next[p] == j);
        } else {
            assert(top.contains(x));
        }
    }
}

fn bytes_first(a: &Vec<u8>, b: &Vec<u8>) -> (r: bool)
    ensures
        r == bytes_before(a@, b@),
{
    let mut k: usize = 0;
    while k < a.len() && k < b.len() && a[k] == b[k]
        invariant
            k <= a@.len(),
            k <= b@.len(),
            agree_from(a@, b@, 0) == agree_from(a@, b@, k as int),
        decreases a.len() - k,
    {
        k = k + 1;
    }
    if k < a.len() && k < b.len() {
        a[k] < b[k]
    } else {
        k == a.len() && k < b.len()
    }
}

fn asked_first(peers: &Vec<(u64, Vec<u8>)>, i: usize, j: usize) -> (r: bool)
    requires
        i < peers@.len(),
        j < peers@.len(),
    ensures
        r == asked_before(peer_keys(peers@), i, j),
{
    let ghost keys = peer_keys(peers@);
    assert(keys[i as int] == (peers@[i as int].0, peers@[i as int].1@));
    assert(keys[j as int] == (peers@[j as int].0, peers@[j as int].1@));
    let hi = peers[i].0;
    let hj = peers[j].0;
    if hi != hj {
        return hi > hj;
    }
    if bytes_first(&peers[i].1, &peers[j].1) {
        return true;
    }
    if bytes_first(&peers[j].1, &peers[i].1) {
        proof {
            lemma_bytes_irreflexive(peers@[i as int].1@);
        }
        return false;
    }
    proof {
        if peers@[i as int].1@ != peers@[j as int].1@ {
            lemma_bytes_total(peers@[i as int].1@, peers@[j as int].1@);
        }
    }
    i < j
}

/// Whom to direct a `get-blocks` at: positions in `peers`, each a connected
/// peer's highest observed head and the bytes of its id, the first
/// [`SYNC_FANOUT`] of them in the order of [`asked_before`]. Not a
/// broadcast, and not a single peer that may stay silent.
pub fn sync_targets(peers: &Vec<(u64, Vec<u8>)>) -> (r: Vec<usize>)
    ensures
        is_top(peer_keys(peers@), r@, peers@.len() as int),
{
    let n = peers.len();
    let ghost keys = peer_keys(peers@);
    let mut out: Vec<usize> = Vec::new();
    let mut j: usize = 0;
    while j < n
        invariant
            j <= n,
            n == peers@.len(),
            keys == peer_keys(peers@),
            is_top(keys, out@, j as int),
        decreases n - j,
    {
        let mut p: usize = 0;
        while p < out.len() && !asked_first(peers, j, out[p])
            invariant
                j < n,
                n == peers@.len(),
                keys == peer_keys(peers@),
                is_top(keys, out@, j as int),
                p <= out@.len(),
                forall|k: int| 0 <= k < p ==> asked_before(keys, #[trigger] out@[k], j),
            decreases out.len() - p,
        {
            proof {
                assert(out@[p as int] < j);
                lemma_asked_total(keys, j, out@[p as int]);
            }
            p = p + 1;
        }
        let ghost before = out@;
        let mut next: Vec<usize> = Vec::new();
        let mut k: usize = 0;
        while k < p
            invariant
                k <= p,
                p <= before.len(),
                next@ == before.subrange(0, k as int),
                out@ == before,
            decreases p - k,
        {
            next.push(out[k]);
            k = k + 1;
            proof {
                assert(next@ =~= before.subrange(0, k as int));
            }
        }
        next.push(j);
        let ghost head = next@;
        while k < out.len()
            invariant
                p <= k <= before.len(),
                head == before.subrange(0, p as int).push(j),
                next@ == head + before.subrange(p as int, k as int),
                out@ == before,
            decreases out.len() - k,
        {
            next.push(out[k]);
            k = k + 1;
            proof {
                assert(next@ =~= head + before.subrange(p as int, k as int));
            }
        }
        if next.len() > SYNC_FANOUT {
            next.pop();
        }
        proof {
            assert(head + before.subrange(p as int, before.len() as int) =~= before.subrange(0, p as int).push(j)
                + before.subrange(p as int, before.len() as int));
            lemma_kept(keys, before, j, p as int);
            assert(next@ == kept(before, p as int, j));
        }
        out = next;
        j = j + 1;
    }
    out
}

// ── Directed sync wire format ───────────────────────────────────────────────

/// Blocks one sync response may carry.
pub const MAX_SYNC_BLOCKS: usize = 128;

/// Byte ceiling on a sync frame.
pub const MAX_SYNC_FRAME: u64 = 8388608;

/// A directed sync request: every block with `slot > after_slot`, capped
/// at `limit`.
#[derive(Clone, Debug, PartialEq, Eq)]
pub enum SyncRequest {
    GetBlocks { after_slot: u64, limit: u32 },
}

/// The answer to a [`SyncRequest`]: encoded block envelopes, in chain order.
#[derive(Clone, Debug, PartialEq, Eq)]
pub enum SyncResponse {
    Blocks { envelopes: Vec<Vec<u8>> },
}

pub open spec fn envelopes_view(envs: Seq<Vec<u8>>) -> Seq<Seq<u8>> {
    Seq::new(envs.len(), |i: int| envs[i]@)
}

pub open spec fn encode_sync_request_spec(after_slot: u64, limit: u32) -> Seq<u8> {
    seq![1u8] + le64(after_slot) + le32(limit)
}

pub open spec fn decode_sync_request_spec(b: Seq<u8>) -> Option<(u64, u32)> {
    if b.len() == 13 && b[0] == 1 {
        Some((u64_at(b, 1) as u64, u32_at(b, 9) as u32))
    } else {
        None
    }
}

pub open spec fn encode_sync_response_spec(envs: Seq<Seq<u8>>) -> Seq<u8> {
    seq![1u8] + le32(envs.len() as u32) + framed_all(envs)
}

pub open spec fn decode_sync_response_spec(b: Seq<u8>) -> Option<Seq<Seq<u8>>> {
    if b.len() >= 5 && b[0] == 1 && u32_at(b, 1) <= MAX_SYNC_BLOCKS {
        match parse_fields(b, 5, u32_at(b, 1)) {
            Some((items, end)) => if end == b.len() {
                Some(items)
            } else {
                None
            },
            None => None,
        }
    } else {
        None
    }
}

/// Why bytes are not a sync request.
pub open spec fn sync_request_refusal(b: Seq<u8>) -> &'static str {
    if b.len() == 0 {
        "truncated input"
    } else if b[0] != 1 {
        "unknown sync request tag"
    } else if b.len() < 13 {
        "truncated input"
    } else {
        "trailing bytes"
    }
}

/// Why bytes are not a sync response.
pub open spec fn sync_response_refusal(b: Seq<u8>) -> &'static str {
    if b.len() == 0 {
        "truncated input"
    } else if b[0] != 1 {
        "unknown sync response tag"
    } else if b.len() < 5 {
        "truncated input"
    } else if u32_at(b, 1) > MAX_SYNC_BLOCKS {
        "sync response over the block cap"
    } else {
        match parse_fields(b, 5, u32_at(b, 1)) {
            None => "truncated input",
            Some(_) => "trailing bytes",
        }
    }
}

pub fn encode_sync_request(req: &SyncRequest) -> (r: Vec<u8>)
    ensures
        match req {
            SyncRequest::GetBlocks { after_slot, limit } => r@ == encode_sync_request_spec(*after_slot, *limit),
        },
{
    match req {
        SyncRequest::GetBlocks { after_slot, limit } => {
            let mut out: Vec<u8> = Vec::new();
            out.push(1u8);
            push_u64(&mut out, *after_slot);
            push_u32(&mut out, *limit);
            proof {
                assert(out@ =~= encode_sync_request_spec(*after_slot, *limit));
            }
            out
        },
    }
}

pub fn decode_sync_request(buf: &[u8]) -> (r: Result<SyncRequest, DecodeErr>)
    ensures
        match r {
            Ok(SyncRequest::GetBlocks { after_slot, limit }) => decode_sync_request_spec(buf@) == Some((after_slot, limit)),
            Err(e) => decode_sync_request_spec(buf@) is None && e.0 == sync_request_refusal(buf@),
        },
{
    let n = buf.len();
    if n == 0 {
        return Err(DecodeErr("truncated input"));
    }
    if buf[0] != 1 {
        return Err(DecodeErr("unknown sync request tag"));
    }
    if n < 13 {
        return Err(DecodeErr("truncated input"));
    }
    let after_slot = read_u64(buf, 1);
    let limit = read_u32(buf, 9);
    if n != 13 {
        return Err(DecodeErr("trailing bytes"));
    }
    Ok(SyncRequest::GetBlocks { after_slot, limit })
}

pub fn encode_sync_response(resp: &SyncResponse) -> (r: Vec<u8>)
    requires
        match resp {
            SyncResponse::Blocks { envelopes } => envelopes@.len() <= u32::MAX && forall|i: int|
                0 <= i < envelopes@.len() ==> #[trigger] envelopes@[i]@.len() <= u32::MAX,
        },
    ensures
        match resp {
            SyncResponse::Blocks { envelopes } => r@ == encode_sync_response_spec(envelopes_view(envelopes@)),
        },
{
    match resp {
        SyncResponse::Blocks { envelopes } => {
            let ghost ev = envelopes_view(envelopes@);
            let mut out: Vec<u8> = Vec::new();
            out.push(1u8);
            push_u32(&mut out, envelopes.len() as u32);
            let n = envelopes.len();
            let mut i: usize = 0;
            while i < n
                invariant
                    i <= n,
                    n == envelopes@.len(),
                    ev == envelopes_view(envelopes@),
                    forall|j: int| 0 <= j < n ==> #[trigger] envelopes@[j]@.len() <= u32::MAX,
                    out@ == seq![1u8] + le32(n as u32) + framed_all(ev.subrange(0, i as int)),
                decreases n - i,
            {
                put_bytes(&mut out, envelopes[i].as_slice());
                proof {
                    let t = ev.subrange(0, i + 1);
                    assert(t.drop_last() =~= ev.subrange(0, i as int));
                    assert(t.last() == envelopes@[i as int]@);
                    assert(out@ =~= seq![1u8] + le32(n as u32) + framed_all(t));
                }
                i = i + 1;
            }
            proof {
                assert(ev.subrange(0, n as int) =~= ev);
            }
            out
        },
    }
}

pub fn decode_sync_response(buf: &[u8]) -> (r: Result<SyncResponse, DecodeErr>)
    ensures
        match r {
            Ok(SyncResponse::Blocks { envelopes }) => decode_sync_response_spec(buf@) == Some(envelopes_view(envelopes@)),
            Err(e) => decode_sync_response_spec(buf@) is None && e.0 == sync_response_refusal(buf@),
        },
{
    let n = buf.len();
    if n == 0 {
        return Err(DecodeErr("truncated input"));
    }
    if buf[0] != 1 {
        return Err(DecodeErr("unknown sync response tag"));
    }
    if n < 5 {
        return Err(DecodeErr("truncated input"));
    }
    let count = read_u32(buf, 1);
    if count as usize > MAX_SYNC_BLOCKS {
        return Err(DecodeErr("sync response over the block cap"));
    }
    match read_fields(buf, 5, count) {
        None => Err(DecodeErr("truncated input")),
        Some((envelopes, end)) => {
            if end != n {
                return Err(DecodeErr("trailing bytes"));
            }
            proof {
                let v = parse_fields(buf@, 5, count as nat).unwrap().0;
                assert(v =~= envelopes_view(envelopes@));
            }
            Ok(SyncResponse::Blocks { envelopes })
        },
    }
}

/// A request reads back as itself, and nothing may follow it.
pub proof fn lemma_sync_request_round_trip(after_slot: u64, limit: u32, junk: Seq<u8>)
    ensures
        decode_sync_request_spec(encode_sync_request_spec(after_slot, limit)) == Some((after_slot, limit)),
        junk.len() > 0 ==> decode_sync_request_spec(encode_sync_request_spec(after_slot, limit) + junk) is None,
{
    let b = encode_sync_request_spec(after_slot, limit);
    lemma_le64_roundtrip(after_slot);
    lemma_le32_roundtrip(limit);
    assert(b.subrange(1, 9) =~= le64(after_slot));
    assert(b.subrange(9, 13) =~= le32(limit));
}

/// A response within the block cap reads back as itself, and nothing may
/// follow it.
pub proof fn lemma_sync_response_round_trip(envs: Seq<Seq<u8>>, junk: Seq<u8>)
    requires
        envs.len() <= MAX_SYNC_BLOCKS,
        fields_fit(envs),
    ensures
        decode_sync_response_spec(encode_sync_response_spec(envs)) == Some(envs),
        junk.len() > 0 ==> decode_sync_response_spec(encode_sync_response_spec(envs) + junk) is None,
{
    let pre = seq![1u8] + le32(envs.len() as u32);
    lemma_le32_roundtrip(envs.len() as u32);
    let b = encode_sync_response_spec(envs);
    assert(b =~= pre + framed_all(envs) + Seq::<u8>::empty());
    lemma_parse_framed(pre, envs, Seq::<u8>::empty());
    assert(b.subrange(1, 5) =~= le32(envs.len() as u32));
    let bj = b + junk;
    assert(bj =~= pre + framed_all(envs) + junk);
    lemma_parse_framed(pre, envs, junk);
    assert(bj.subrange(1, 5) =~= le32(envs.len() as u32));
    assert(bj[0] == 1);
}

// ── Serving one page ────────────────────────────────────────────────────────

/// Blocks one answer may carry for a request that asked for `limit`.
pub fn sync_limit(limit: u32) -> (r: usize)
    ensures
        r == (if (limit as int) < MAX_SYNC_BLOCKS {
            limit as usize
        } else {
            MAX_SYNC_BLOCKS
        }),
{
    if (limit as usize) < MAX_SYNC_BLOCKS {
        limit as usize
    } else {
        MAX_SYNC_BLOCKS
    }
}

/// Bytes one answer may carry, leaving room for the framing.
pub open spec fn page_cap() -> nat {
    (MAX_SYNC_FRAME - 1024) as nat
}

/// How many blocks from `i` on still fit, `used` bytes already taken: each
/// costs its length and a four-byte prefix, and the first that does not fit
/// ends the page.
pub open spec fn blocks_that_fit(items: Seq<Seq<u8>>, i: int, used: nat) -> int
    decreases items.len() - i,
{
    if i < 0 || i >= items.len() || used + items[i].len() + 4 > page_cap() {
        i
    } else {
        blocks_that_fit(items, i + 1, used + items[i].len() + 4)
    }
}

/// The page actually sent for the blocks a store returned: the longest
/// prefix within the byte cap of one frame.
pub fn cap_page(blocks: Vec<Vec<u8>>) -> (r: Vec<Vec<u8>>)
    ensures
        envelopes_view(r@) == envelopes_view(blocks@).subrange(0, blocks_that_fit(envelopes_view(blocks@), 0, 0)),
{
    let ghost bv = envelopes_view(blocks@);
    let cap: usize = (MAX_SYNC_FRAME - 1024) as usize;
    let n = blocks.len();
    let mut out: Vec<Vec<u8>> = Vec::new();
    let mut used: usize = 0;
    let mut rest = blocks;
    let mut i: usize = 0;
    let mut done = false;
    while i < n && !done
        invariant
            n == bv.len(),
            i <= n,
            used <= cap,
            cap == page_cap(),
            rest@.len() == n - i,
            forall|k: int| 0 <= k < rest@.len() ==> #[trigger] rest@[k]@ == bv[k + i],
            envelopes_view(out@) == bv.subrange(0, i as int),
            out@.len() == i,
            blocks_that_fit(bv, i as int, used as nat) == blocks_that_fit(bv, 0, 0),
            done ==> blocks_that_fit(bv, i as int, used as nat) == i,
        decreases n - i, if done { 0int } else { 1int },
    {
        let len0 = rest[0].len();
        let room = cap - used;
        if len0 > room || room - len0 < 4 {
            proof {
                assert(rest@[0]@ == bv[i as int]);
            }
            done = true;
        } else {
            let b = rest.remove(0);
            used = used + b.len() + 4;
            proof {
                assert(b@ == bv[i as int]);
                let pushed = out@.push(b);
                assert forall|k: int| 0 <= k < i + 1 implies #[trigger] envelopes_view(pushed)[k] == bv.subrange(0, i + 1)[k] by {
                    if k < i {
                        assert(pushed[k] == out@[k]);
                        assert(envelopes_view(out@)[k] == out@[k]@);
                    }
                }
                assert(envelopes_view(pushed) =~= bv.subrange(0, i + 1));
                assert forall|k: int| 0 <= k < rest@.len() implies #[trigger] rest@[k]@ == bv[k + i + 1] by {
                }
            }
            out.push(b);
            i = i + 1;
        }
    }
    proof {
        assert(blocks_that_fit(bv, i as int, used as nat) == i);
    }
    out
}


/// Bytes of a gossip message id.
pub const MESSAGE_ID_LEN: usize = 16;

/// The id a gossip message is deduplicated by: the first
/// [`MESSAGE_ID_LEN`] bytes of the SHA3-256 of its data, so every node,
/// whatever its version, names one payload the same way.
pub fn gossip_message_id(data: &[u8]) -> (r: Vec<u8>)
    ensures
        r@ == sha3_256(data@)@.subrange(0, MESSAGE_ID_LEN as int),
{
    let d = sha3(data);
    copy_range(&d, 0, MESSAGE_ID_LEN)
}

} // verus!
