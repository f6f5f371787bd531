use vstd::prelude::*;
use crate::codec::{decoded_frame, Frame};
use crate::errors::PoolError;
use crate::sender::{
    close_effect, fresh_sender, pop_effect, resolve_effect, submit_effect, Resolution, Sender,
    SenderModel,
};
use crate::session::{Session, SessionModel};

verus! {

/// Base delay before the first reconnect attempt of a slot.
pub const BASE_BACKOFF_MS: u64 = 100;
/// Ceiling on the delay between reconnect attempts.
pub const MAX_BACKOFF_MS: u64 = 10_000;
/// Failed reconnect attempts after which a slot is marked permanently dead.
pub const MAX_RECONNECT_ATTEMPTS: u64 = 5;

/// The lifecycle of one pool slot: routing only considers `Active` slots; a
/// `Reconnecting` slot is between connection attempts; a `Dead` slot gave up.
#[derive(Clone, Copy, Debug, PartialEq, Eq, Structural)]
pub enum SlotHealth {
    Active,
    Reconnecting,
    Dead,
}

/// A submission receipt: which slot took the request and under which
/// correlation identifier.
#[derive(Clone, Copy, Debug, PartialEq, Eq, Structural)]
pub struct Ticket {
    pub slot: usize,
    pub msg_id: u64,
}

/// One pool slot: a sender plus the pool's supervision state for it.
pub struct Slot {
    pub sender: Sender,
    pub health: SlotHealth,
    pub retries: u64,
}

/// The model of one slot.
pub ghost struct SlotModel {
    pub sender: SenderModel,
    pub health: SlotHealth,
    pub retries: u64,
}

impl View for Slot {
    type V = SlotModel;

    open spec fn view(&self) -> SlotModel {
        SlotModel { sender: self.sender@, health: self.health, retries: self.retries }
    }
}

/// The model of the pool: its fixed slot collection, the round-robin cursor,
/// whether new submissions are still accepted, and the shared session.
pub ghost struct PoolModel {
    pub slots: Seq<SlotModel>,
    pub cursor: int,
    pub accepting: bool,
    pub session: SessionModel,
}

impl PoolModel {
    /// Well-formedness: at least one slot, the cursor in range, every sender
    /// well-formed, and every `Active` slot's connection up.
    pub open spec fn wf(self) -> bool {
        &&& self.slots.len() >= 1
        &&& 0 <= self.cursor < self.slots.len()
        &&& forall|i: int| 0 <= i < self.slots.len() ==> (#[trigger] self.slots[i]).sender.wf()
        &&& forall|i: int|
            0 <= i < self.slots.len() ==> ((#[trigger] self.slots[i]).health is Active
                ==> self.slots[i].sender.alive)
    }
}

/// A fixed collection of senders behind one routing and shutdown policy.
/// Constructed once; slots are supervised in place, never added or removed.
pub struct Pool {
    pub slots: Vec<Slot>,
    pub cursor: usize,
    pub accepting: bool,
    pub session: Session,
}

impl View for Pool {
    type V = PoolModel;

    open spec fn view(&self) -> PoolModel {
        PoolModel {
            slots: self.slots@.map_values(|s: Slot| s@),
            cursor: self.cursor as int,
            accepting: self.accepting,
            session: self.session@,
        }
    }
}

/// The slot round-robin selection lands on when scanning from `i`, wrapping,
/// for at most `remaining` steps: the first `Active` slot it meets.
pub open spec fn scan_from(slots: Seq<SlotModel>, i: int, remaining: nat) -> Option<int>
    decreases remaining,
{
    if remaining == 0 {
        None
    } else if slots[i].health is Active {
        Some(i)
    } else {
        scan_from(slots, if i + 1 == slots.len() { 0int } else { i + 1 }, (remaining - 1) as nat)
    }
}

/// Where the pool routes its next submission: the first `Active` slot at or
/// after the cursor, wrapping once around the collection.
pub open spec fn chosen_slot(p: PoolModel) -> Option<int> {
    scan_from(p.slots, p.cursor, p.slots.len())
}

/// A selected slot is always in range and `Active`.
pub proof fn lemma_scan_in_range(slots: Seq<SlotModel>, i: int, remaining: nat)
    requires
        slots.len() > 0,
        0 <= i < slots.len(),
    ensures
        match scan_from(slots, i, remaining) {
            Some(j) => 0 <= j < slots.len() && slots[j].health is Active,
            None => true,
        },
    decreases remaining,
{
    if remaining > 0 && !(slots[i].health is Active) {
        lemma_scan_in_range(
            slots,
            if i + 1 == slots.len() { 0int } else { i + 1 },
            (remaining - 1) as nat,
        );
    }
}

/// Whether `post` differs from `pre` in at most the slot at `j`.
pub open spec fn slots_same_except(pre: Seq<SlotModel>, post: Seq<SlotModel>, j: int) -> bool {
    &&& post.len() == pre.len()
    &&& forall|k: int| 0 <= k < pre.len() && k != j ==> post[k] == pre[k]
}

/// How closing the control handle changes the pool: it merely stops accepting
/// new submissions; every slot, and so every registered pending call, is kept.
pub open spec fn shutdown_effect(pre: PoolModel, post: PoolModel) -> bool {
    post == (PoolModel { accepting: false, ..pre })
}

/// How a submission changes the pool, for every starting state: refused with
/// `ConnectionClosed` once shutdown began or the selected sender cannot issue
/// an identifier, refused with `NoAvailableSender` while no slot is `Active`,
/// and otherwise handed to the selected slot's sender, advancing the cursor
/// past it.
pub open spec fn pool_submit_effect(
    pre: PoolModel,
    post: PoolModel,
    payload: Seq<u8>,
    res: Result<Ticket, PoolError>,
) -> bool {
    if !pre.accepting {
        &&& res == Err::<Ticket, PoolError>(PoolError::ConnectionClosed)
        &&& post == pre
    } else {
        match chosen_slot(pre) {
            None => {
                &&& res == Err::<Ticket, PoolError>(PoolError::NoAvailableSender)
                &&& post == pre
            },
            Some(j) => {
                let s = pre.slots[j].sender;
                if s.next_id == u64::MAX {
                    &&& res == Err::<Ticket, PoolError>(PoolError::ConnectionClosed)
                    &&& post == pre
                } else {
                    &&& res == Ok::<Ticket, PoolError>(
                        Ticket { slot: j as usize, msg_id: s.next_id },
                    )
                    &&& submit_effect(s, post.slots[j].sender, s.next_id, payload)
                    &&& slots_same_except(pre.slots, post.slots, j)
                    &&& post.slots[j].health == pre.slots[j].health
                    &&& post.slots[j].retries == pre.slots[j].retries
                    &&& post.cursor == (if j + 1 == pre.slots.len() { 0int } else { j + 1 })
                    &&& post.accepting
                    &&& post.session == pre.session
                }
            },
        }
    }
}

/// Well-formedness survives replacing one slot, provided the new slot's
/// sender is well-formed and up whenever the slot claims to be `Active`.
proof fn lemma_pool_wf_update(pre: PoolModel, post: PoolModel, j: int)
    requires
        pre.wf(),
        0 <= j < pre.slots.len(),
        slots_same_except(pre.slots, post.slots, j),
        0 <= post.cursor < post.slots.len(),
        post.slots[j].sender.wf(),
        post.slots[j].health is Active ==> post.slots[j].sender.alive,
    ensures
        post.wf(),
{
    assert forall|i: int| 0 <= i < post.slots.len() implies (#[trigger] post.slots[i]).sender.wf() by {
        if i != j {
            assert(post.slots[i] == pre.slots[i]);
        }
    }
    assert forall|i: int|
        0 <= i < post.slots.len() implies ((#[trigger] post.slots[i]).health is Active
        ==> post.slots[i].sender.alive) by {
        if i != j {
            assert(post.slots[i] == pre.slots[i]);
        }
    }
}

impl Pool {
    /// Builds a pool of `n` senders sharing one session. Fails with `Config`,
    /// creating no sender, exactly when `n` is zero.
    pub fn new(session: Session, n: usize) -> (res: Result<Pool, PoolError>)
        ensures
            n == 0 ==> (res matches Err(e) && e == PoolError::Config),
            n > 0 ==> (res matches Ok(p) && p@.wf() && p@.slots.len() == n && p@.cursor == 0
                && p@.accepting && p@.session == session@ && forall|j: int|
                0 <= j < n ==> p@.slots[j] == (SlotModel {
                    sender: fresh_sender(),
                    health: SlotHealth::Active,
                    retries: 0,
                })),
    {
        if n == 0 {
            return Err(PoolError::Config);
        }
        let mut slots: Vec<Slot> = Vec::new();
        let mut i: usize = 0;
        while i < n
            invariant
                i <= n,
                slots@.len() == i,
                forall|j: int|
                    0 <= j < i ==> (#[trigger] slots@[j])@ == (SlotModel {
                        sender: fresh_sender(),
                        health: SlotHealth::Active,
                        retries: 0,
                    }),
            decreases n - i,
        {
            slots.push(Slot { sender: Sender::open(), health: SlotHealth::Active, retries: 0 });
            i = i + 1;
        }
        let p = Pool { slots, cursor: 0, accepting: true, session };
        proof {
            assert(p@.slots.len() == n);
            assert forall|j: int|
                0 <= j < n implies p@.slots[j] == (SlotModel {
                sender: fresh_sender(),
                health: SlotHealth::Active,
                retries: 0,
            }) by {
                assert(p@.slots[j] == p.slots@[j]@);
            }
        }
        Ok(p)
    }

    /// How many slots the pool was built with; fixed for its lifetime.
    pub fn slot_count(&self) -> (n: usize)
        ensures
            n == self@.slots.len(),
    {
        self.slots.len()
    }

    /// Whether new submissions are still accepted.
    pub fn is_accepting(&self) -> (b: bool)
        ensures
            b == self@.accepting,
    {
        self.accepting
    }

    /// The shared session, read by the process when (re)connecting a slot.
    pub fn session(&self) -> (s: &Session)
        ensures
            s@ == self@.session,
    {
        &self.session
    }

    /// Installs a rotated authorization key in the shared session; the pool
    /// is the session's single writer, so the update is atomic for readers.
    pub fn rotate_auth_key(&mut self, key: Vec<u8>)
        ensures
            final(self)@ == (PoolModel {
                session: SessionModel { auth_key: key@, ..old(self)@.session },
                ..old(self)@
            }),
    {
        self.session.rotate_auth_key(key);
    }

    /// The first `Active` slot at or after the cursor, wrapping once.
    fn find_active(&self) -> (res: Option<usize>)
        requires
            self@.wf(),
        ensures
            match res {
                Some(j) => chosen_slot(self@) == Some(j as int),
                None => chosen_slot(self@) is None,
            },
    {
        let n = self.slots.len();
        let mut k: usize = 0;
        let mut idx: usize = self.cursor;
        while k < n
            invariant
                self@.wf(),
                n == self@.slots.len(),
                idx < n,
                k <= n,
                chosen_slot(self@) == scan_from(self@.slots, idx as int, (n - k) as nat),
            decreases n - k,
        {
            if self.slots[idx].health == SlotHealth::Active {
                proof {
                    assert(self@.slots[idx as int].health is Active);
                    assert(scan_from(self@.slots, idx as int, (n - k) as nat) == Some(idx as int));
                }
                return Some(idx);
            }
            proof {
                assert(!(self@.slots[idx as int].health is Active));
                assert(scan_from(self@.slots, idx as int, (n - k) as nat) == scan_from(
                    self@.slots,
                    if idx as int + 1 == n as int { 0int } else { idx as int + 1 },
                    (n - k - 1) as nat,
                ));
            }
            idx = if idx + 1 == n { 0 } else { idx + 1 };
            k = k + 1;
        }
        None
    }

    /// Routes one framed payload: round-robin over `Active` slots, skipping
    /// dead ones. Refused with `ConnectionClosed` once shutdown began, with
    /// `NoAvailableSender` while every slot is down; otherwise the selected
    /// sender issues a fresh correlation identifier, queues the frame, and the
    /// returned ticket names both.
    pub fn submit(&mut self, payload: Vec<u8>) -> (res: Result<Ticket, PoolError>)
        requires
            old(self)@.wf(),
        ensures
            final(self)@.wf(),
            pool_submit_effect(old(self)@, final(self)@, payload@, res),
    {
        if !self.accepting {
            return Err(PoolError::ConnectionClosed);
        }
        match self.find_active() {
            None => Err(PoolError::NoAvailableSender),
            Some(j) => {
                proof {
                    lemma_scan_in_range(old(self)@.slots, old(self)@.cursor, old(self)@.slots.len());
                    assert(old(self)@.slots[j as int].sender.wf());
                    assert(old(self)@.slots[j as int].sender.alive);
                }
                if self.slots[j].sender.next_id == u64::MAX {
                    return Err(PoolError::ConnectionClosed);
                }
                let n = self.slots.len();
                let slot = &mut self.slots[j];
                let r = slot.sender.submit(payload);
                let id = match r {
                    Ok(id) => id,
                    Err(e) => {
                        proof {
                            assert(false);
                        }
                        return Err(e);
                    },
                };
                self.cursor = if j + 1 == n { 0 } else { j + 1 };
                proof {
                    assert forall|k: int|
                        0 <= k < old(self)@.slots.len() && k != j as int
                        implies self@.slots[k] == old(self)@.slots[k] by {
                        assert(self.slots@[k] == old(self).slots@[k]);
                    }
                    assert(self@.slots[j as int] == self.slots@[j as int]@);
                    lemma_pool_wf_update(old(self)@, self@, j as int);
                }
                Ok(Ticket { slot: j, msg_id: id })
            },
        }
    }

    /// Stops accepting new submissions; nothing else moves. Every call
    /// registered before stays registered and still resolves.
    pub fn begin_shutdown(&mut self)
        requires
            old(self)@.wf(),
        ensures
            final(self)@.wf(),
            shutdown_effect(old(self)@, final(self)@),
    {
        self.accepting = false;
        proof {
            assert(self@.slots == old(self)@.slots);
            assert forall|i: int|
                0 <= i < self@.slots.len() implies (#[trigger] self@.slots[i]).sender.wf()
                && (self@.slots[i].health is Active ==> self@.slots[i].sender.alive) by {
                assert(self@.slots[i] == old(self)@.slots[i]);
            }
        }
    }

    /// Whether every slot has flushed its outbound queue; the runner closes
    /// the connections only once shutdown began and this holds.
    pub fn all_drained(&self) -> (b: bool)
        requires
            self@.wf(),
        ensures
            b <==> forall|j: int|
                0 <= j < self@.slots.len() ==> (#[trigger] self@.slots[j]).sender.queue.len() == 0,
    {
        let n = self.slots.len();
        let mut i: usize = 0;
        while i < n
            invariant
                i <= n,
                n == self@.slots.len(),
                forall|j: int| 0 <= j < i ==> (#[trigger] self@.slots[j]).sender.queue.len() == 0,
            decreases n - i,
        {
            if !self.slots[i].sender.outbound_empty() {
                proof {
                    assert(self@.slots[i as int].sender.queue.len() != 0);
                }
                return false;
            }
            proof {
                assert(self@.slots[i as int] == self.slots@[i as int]@);
            }
            i = i + 1;
        }
        true
    }

    /// Takes the next frame slot `i` owes the wire, in submission order.
    pub fn pop_outbound(&mut self, i: usize) -> (popped: Option<Frame>)
        requires
            old(self)@.wf(),
            i < old(self)@.slots.len(),
        ensures
            final(self)@.wf(),
            slots_same_except(old(self)@.slots, final(self)@.slots, i as int),
            final(self)@.cursor == old(self)@.cursor,
            final(self)@.accepting == old(self)@.accepting,
            final(self)@.session == old(self)@.session,
            final(self)@.slots[i as int].health == old(self)@.slots[i as int].health,
            final(self)@.slots[i as int].retries == old(self)@.slots[i as int].retries,
            match popped {
                Some(f) => pop_effect(
                    old(self)@.slots[i as int].sender,
                    final(self)@.slots[i as int].sender,
                    Some((f.msg_id, f.payload@)),
                ),
                None => pop_effect(
                    old(self)@.slots[i as int].sender,
                    final(self)@.slots[i as int].sender,
                    None,
                ),
            },
    {
        proof {
            assert(old(self)@.slots[i as int].sender.wf());
        }
        let slot = &mut self.slots[i];
        let popped = slot.sender.pop_outbound();
        proof {
            assert forall|k: int|
                0 <= k < old(self)@.slots.len() && k != i as int implies self@.slots[k]
                == old(self)@.slots[k] by {
                assert(self.slots@[k] == old(self).slots@[k]);
            }
            assert(self@.slots[i as int] == self.slots@[i as int]@);
            lemma_pool_wf_update(old(self)@, self@, i as int);
        }
        popped
    }

    /// Applies one inbound byte string of slot `i`: a well-formed frame whose
    /// identifier is pending on that slot resolves exactly that call with the
    /// frame's payload; anything else is discarded and changes nothing.
    pub fn handle_inbound(&mut self, i: usize, bytes: &Vec<u8>) -> (res: Option<Resolution>)
        requires
            old(self)@.wf(),
            i < old(self)@.slots.len(),
        ensures
            final(self)@.wf(),
            slots_same_except(old(self)@.slots, final(self)@.slots, i as int),
            final(self)@.cursor == old(self)@.cursor,
            final(self)@.accepting == old(self)@.accepting,
            final(self)@.session == old(self)@.session,
            final(self)@.slots[i as int].health == old(self)@.slots[i as int].health,
            final(self)@.slots[i as int].retries == old(self)@.slots[i as int].retries,
            match decoded_frame(bytes@) {
                Some(frame) => {
                    if old(self)@.slots[i as int].sender.pending.contains(frame.0) {
                        &&& res matches Some(r)
                        &&& r.msg_id == frame.0
                        &&& (r.outcome matches Ok(p) && p@ == frame.1)
                        &&& resolve_effect(
                            old(self)@.slots[i as int].sender,
                            final(self)@.slots[i as int].sender,
                            frame.0,
                            true,
                        )
                    } else {
                        res is None && final(self)@ == old(self)@
                    }
                },
                None => res is None && final(self)@ == old(self)@,
            },
    {
        proof {
            assert(old(self)@.slots[i as int].sender.wf());
        }
        let slot = &mut self.slots[i];
        let res = slot.sender.handle_inbound(bytes);
        proof {
            assert forall|k: int|
                0 <= k < old(self)@.slots.len() && k != i as int implies self@.slots[k]
                == old(self)@.slots[k] by {
                assert(self.slots@[k] == old(self).slots@[k]);
            }
            assert(self@.slots[i as int] == self.slots@[i as int]@);
            lemma_pool_wf_update(old(self)@, self@, i as int);
            if self@.slots[i as int].sender == old(self)@.slots[i as int].sender {
                assert(self@.slots =~= old(self)@.slots);
            }
        }
        res
    }

    /// Records that slot `i`'s connection dropped: the sender is torn down and
    /// every identifier pending on it is handed back so each caller can be
    /// answered `ConnectionClosed`. While the pool is still accepting, the
    /// slot goes on to reconnect; during shutdown it is marked dead.
    pub fn on_disconnect(&mut self, i: usize) -> (orphans: Vec<u64>)
        requires
            old(self)@.wf(),
            i < old(self)@.slots.len(),
        ensures
            final(self)@.wf(),
            slots_same_except(old(self)@.slots, final(self)@.slots, i as int),
            final(self)@.cursor == old(self)@.cursor,
            final(self)@.accepting == old(self)@.accepting,
            final(self)@.session == old(self)@.session,
            close_effect(
                old(self)@.slots[i as int].sender,
                final(self)@.slots[i as int].sender,
                orphans@,
            ),
            final(self)@.slots[i as int].health == (if old(self)@.accepting {
                SlotHealth::Reconnecting
            } else {
                SlotHealth::Dead
            }),
            final(self)@.slots[i as int].retries == 0,
    {
        proof {
            assert(old(self)@.slots[i as int].sender.wf());
        }
        let accepting = self.accepting;
        let slot = &mut self.slots[i];
        let orphans = slot.sender.close();
        slot.health = if accepting {
            SlotHealth::Reconnecting
        } else {
            SlotHealth::Dead
        };
        slot.retries = 0;
        proof {
            assert forall|k: int|
                0 <= k < old(self)@.slots.len() && k != i as int implies self@.slots[k]
                == old(self)@.slots[k] by {
                assert(self.slots@[k] == old(self).slots@[k]);
            }
            assert(self@.slots[i as int] == self.slots@[i as int]@);
            lemma_pool_wf_update(old(self)@, self@, i as int);
        }
        orphans
    }

    /// Records one failed reconnect attempt of slot `i`: the attempt counter
    /// advances, and after `MAX_RECONNECT_ATTEMPTS` failures the slot is
    /// marked permanently dead. Reports whether the slot is now dead.
    pub fn on_reconnect_failed(&mut self, i: usize) -> (dead: bool)
        requires
            old(self)@.wf(),
            i < old(self)@.slots.len(),
        ensures
            final(self)@.wf(),
            slots_same_except(old(self)@.slots, final(self)@.slots, i as int),
            final(self)@.cursor == old(self)@.cursor,
            final(self)@.accepting == old(self)@.accepting,
            final(self)@.session == old(self)@.session,
            old(self)@.slots[i as int].health is Reconnecting ==> ({
                let bumped = if old(self)@.slots[i as int].retries < MAX_RECONNECT_ATTEMPTS {
                    (old(self)@.slots[i as int].retries + 1) as u64
                } else {
                    old(self)@.slots[i as int].retries
                };
                &&& final(self)@.slots[i as int].retries == bumped
                &&& final(self)@.slots[i as int].health == (if bumped >= MAX_RECONNECT_ATTEMPTS {
                    SlotHealth::Dead
                } else {
                    SlotHealth::Reconnecting
                })
                &&& final(self)@.slots[i as int].sender == old(self)@.slots[i as int].sender
                &&& dead == (bumped >= MAX_RECONNECT_ATTEMPTS)
            }),
            !(old(self)@.slots[i as int].health is Reconnecting) ==> final(self)@ == old(self)@
                && dead == (old(self)@.slots[i as int].health is Dead),
    {
        if self.slots[i].health != SlotHealth::Reconnecting {
            return self.slots[i].health == SlotHealth::Dead;
        }
        let slot = &mut self.slots[i];
        if slot.retries < MAX_RECONNECT_ATTEMPTS {
            slot.retries = slot.retries + 1;
        }
        let dead = slot.retries >= MAX_RECONNECT_ATTEMPTS;
        if dead {
            slot.health = SlotHealth::Dead;
        }
        proof {
            assert forall|k: int|
                0 <= k < old(self)@.slots.len() && k != i as int implies self@.slots[k]
                == old(self)@.slots[k] by {
                assert(self.slots@[k] == old(self).slots@[k]);
            }
            assert(self@.slots[i as int] == self.slots@[i as int]@);
            lemma_pool_wf_update(old(self)@, self@, i as int);
        }
        dead
    }

    /// Installs a freshly established connection in slot `i`: a new sender
    /// with a new identifier space takes the slot, which becomes `Active`
    /// again. A slot that was not reconnecting is left alone.
    pub fn on_reconnected(&mut self, i: usize) -> (ok: bool)
        requires
            old(self)@.wf(),
            i < old(self)@.slots.len(),
        ensures
            final(self)@.wf(),
            slots_same_except(old(self)@.slots, final(self)@.slots, i as int),
            final(self)@.cursor == old(self)@.cursor,
            final(self)@.accepting == old(self)@.accepting,
            final(self)@.session == old(self)@.session,
            old(self)@.slots[i as int].health is Reconnecting ==> ok && final(self)@.slots[i as int]
                == (SlotModel { sender: fresh_sender(), health: SlotHealth::Active, retries: 0 }),
            !(old(self)@.slots[i as int].health is Reconnecting) ==> !ok && final(self)@
                == old(self)@,
    {
        if self.slots[i].health != SlotHealth::Reconnecting {
            return false;
        }
        let slot = &mut self.slots[i];
        *slot = Slot { sender: Sender::open(), health: SlotHealth::Active, retries: 0 };
        proof {
            assert forall|k: int|
                0 <= k < old(self)@.slots.len() && k != i as int implies self@.slots[k]
                == old(self)@.slots[k] by {
                assert(self.slots@[k] == old(self).slots@[k]);
            }
            assert(self@.slots[i as int] == self.slots@[i as int]@);
            lemma_pool_wf_update(old(self)@, self@, i as int);
        }
        true
    }

    /// Tears every slot down: stops accepting, closes every connection, marks
    /// every slot dead, and hands back every still-pending call, slot by slot
    /// in order, so each caller can be answered `ConnectionClosed`.
    pub fn close_all(&mut self) -> (orphans: Vec<Ticket>)
        requires
            old(self)@.wf(),
        ensures
            final(self)@.wf(),
            !final(self)@.accepting,
            final(self)@.cursor == old(self)@.cursor,
            final(self)@.session == old(self)@.session,
            final(self)@.slots.len() == old(self)@.slots.len(),
            forall|j: int|
                0 <= j < old(self)@.slots.len() ==> ((#[trigger] final(self)@.slots[j]).health
                    is Dead && close_effect(
                    old(self)@.slots[j].sender,
                    final(self)@.slots[j].sender,
                    old(self)@.slots[j].sender.pending,
                )),
            orphans@ == orphans_upto(old(self)@.slots, old(self)@.slots.len() as int),
    {
        self.begin_shutdown();
        let mut orphans: Vec<Ticket> = Vec::new();
        let n = self.slots.len();
        let mut i: usize = 0;
        while i < n
            invariant
                i <= n,
                self@.wf(),
                n == self@.slots.len(),
                n == old(self)@.slots.len(),
                self@.cursor == old(self)@.cursor,
                self@.session == old(self)@.session,
                !self@.accepting,
                forall|j: int| i <= j < n ==> #[trigger] self@.slots[j] == old(self)@.slots[j],
                forall|j: int|
                    0 <= j < i ==> ((#[trigger] self@.slots[j]).health is Dead && close_effect(
                        old(self)@.slots[j].sender,
                        self@.slots[j].sender,
                        old(self)@.slots[j].sender.pending,
                    )),
                orphans@ == orphans_upto(old(self)@.slots, i as int),
            decreases n - i,
        {
            let ghost at_entry = self@;
            let ids = self.on_disconnect(i);
            proof {
                assert(at_entry.slots[i as int] == old(self)@.slots[i as int]);
                assert forall|j: int|
                    0 <= j < n && j != i as int implies self@.slots[j] == at_entry.slots[j] by {}
            }
            let mut k: usize = 0;
            while k < ids.len()
                invariant
                    k <= ids@.len(),
                    orphans@ == orphans_upto(old(self)@.slots, i as int) + slot_orphans(
                        old(self)@.slots[i as int],
                        i,
                    ).take(k as int),
                    ids@ == old(self)@.slots[i as int].sender.pending,
                    i < n,
                decreases ids@.len() - k,
            {
                orphans.push(Ticket { slot: i, msg_id: ids[k] });
                proof {
                    assert(orphans@ =~= orphans_upto(old(self)@.slots, i as int) + slot_orphans(
                        old(self)@.slots[i as int],
                        i,
                    ).take(k as int + 1));
                }
                k = k + 1;
            }
            proof {
                assert(slot_orphans(old(self)@.slots[i as int], i).take(
                    old(self)@.slots[i as int].sender.pending.len() as int,
                ) =~= slot_orphans(old(self)@.slots[i as int], i));
                assert(orphans@ =~= orphans_upto(old(self)@.slots, i as int + 1));
            }
            i = i + 1;
        }
        orphans
    }
}

/// The delay owed before reconnect attempt number `retries + 1`: it grows
/// with every failure and is capped at `MAX_BACKOFF_MS`.
pub open spec fn backoff_ms(retries: u64) -> u64 {
    if (retries + 1) * BASE_BACKOFF_MS > MAX_BACKOFF_MS {
        MAX_BACKOFF_MS
    } else {
        ((retries + 1) * BASE_BACKOFF_MS) as u64
    }
}

/// How long to wait before the next reconnect attempt of a slot that failed
/// `retries` times already.
pub fn backoff_delay_ms(retries: u64) -> (ms: u64)
    ensures
        ms == backoff_ms(retries),
{
    if retries >= MAX_BACKOFF_MS / BASE_BACKOFF_MS {
        MAX_BACKOFF_MS
    } else {
        let d = (retries + 1) * BASE_BACKOFF_MS;
        if d > MAX_BACKOFF_MS {
            MAX_BACKOFF_MS
        } else {
            d
        }
    }
}

/// The tickets of every call still pending on the first `n` slots, slot by
/// slot in order.
pub open spec fn orphans_upto(slots: Seq<SlotModel>, n: int) -> Seq<Ticket>
    decreases n,
{
    if n <= 0 {
        Seq::<Ticket>::empty()
    } else {
        orphans_upto(slots, n - 1) + slot_orphans(slots[n - 1], (n - 1) as usize)
    }
}

/// The tickets of every call still pending on one slot.
pub open spec fn slot_orphans(s: SlotModel, i: usize) -> Seq<Ticket> {
    s.sender.pending.map_values(|id: u64| Ticket { slot: i, msg_id: id })
}

/// Law: two successive submissions the pool accepts are never confused — the
/// tickets differ, either in the slot that took them or, on the same slot, in
/// the correlation identifier, so each response reaches only its own caller.
pub proof fn lemma_tickets_unique(
    p0: PoolModel,
    p1: PoolModel,
    p2: PoolModel,
    pay1: Seq<u8>,
    pay2: Seq<u8>,
    t1: Ticket,
    t2: Ticket,
)
    requires
        p0.wf(),
        p0.slots.len() <= usize::MAX,
        pool_submit_effect(p0, p1, pay1, Ok(t1)),
        pool_submit_effect(p1, p2, pay2, Ok(t2)),
    ensures
        t1 != t2,
{
    let j1 = chosen_slot(p0)->Some_0;
    let j2 = chosen_slot(p1)->Some_0;
    lemma_scan_in_range(p0.slots, p0.cursor, p0.slots.len());
    assert(t1 == Ticket { slot: j1 as usize, msg_id: p0.slots[j1].sender.next_id });
    lemma_scan_in_range(p1.slots, p1.cursor, p1.slots.len());
    assert(t2 == Ticket { slot: j2 as usize, msg_id: p1.slots[j2].sender.next_id });
    if j1 == j2 {
        assert(p1.slots[j1].sender.next_id == p0.slots[j1].sender.next_id + 1);
        assert(t1.msg_id != t2.msg_id);
    } else {
        assert(t1.slot != t2.slot);
    }
}

/// Law (shutdown draining): after the control handle is closed, no submission
/// succeeds — each is answered `ConnectionClosed` and changes nothing — while
/// every call registered before the close stays registered, slot for slot,
/// so it still resolves with its real response or `ConnectionClosed`.
pub proof fn lemma_shutdown_draining(
    pre: PoolModel,
    mid: PoolModel,
    post: PoolModel,
    payload: Seq<u8>,
    res: Result<Ticket, PoolError>,
)
    requires
        shutdown_effect(pre, mid),
        pool_submit_effect(mid, post, payload, res),
    ensures
        res == Err::<Ticket, PoolError>(PoolError::ConnectionClosed),
        post == mid,
        mid.slots == pre.slots,
{
}

} // verus!
