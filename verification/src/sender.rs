use vstd::prelude::*;
use crate::codec::{decoded_frame, Frame};
use crate::errors::PoolError;

verus! {

/// The model of one sender: the next correlation identifier it will issue,
/// whether its connection is up, the identifiers still awaiting a response,
/// the outbound queue of not yet transmitted frames, and every identifier the
/// connection ever issued.
pub ghost struct SenderModel {
    pub next_id: u64,
    pub alive: bool,
    pub pending: Seq<u64>,
    pub queue: Seq<(u64, Seq<u8>)>,
    pub issued: Set<u64>,
}

impl SenderModel {
    /// Well-formedness: no identifier awaits twice, every awaited or queued
    /// identifier was issued, and issued identifiers sit below the generator.
    pub open spec fn wf(self) -> bool {
        &&& forall|i: int, j: int|
            0 <= i < j < self.pending.len() ==> self.pending[i] != self.pending[j]
        &&& forall|i: int|
            0 <= i < self.pending.len() ==> self.issued.contains(#[trigger] self.pending[i])
        &&& forall|id: u64| self.issued.contains(id) ==> id < self.next_id
        &&& forall|i: int|
            0 <= i < self.queue.len() ==> self.issued.contains((#[trigger] self.queue[i]).0)
    }
}

/// One sender: owns a single connection's correlation state. The process
/// around the library performs the transport I/O; the sender decides which
/// frames leave, in what order, and which caller each inbound frame resolves.
pub struct Sender {
    pub next_id: u64,
    pub alive: bool,
    pub pending: Vec<u64>,
    pub outbound: Vec<Frame>,
    pub issued: Ghost<Set<u64>>,
}

impl View for Sender {
    type V = SenderModel;

    open spec fn view(&self) -> SenderModel {
        SenderModel {
            next_id: self.next_id,
            alive: self.alive,
            pending: self.pending@,
            queue: self.outbound@.map_values(|f: Frame| (f.msg_id, f.payload@)),
            issued: self.issued@,
        }
    }
}

/// The model of a freshly opened sender.
pub open spec fn fresh_sender() -> SenderModel {
    SenderModel {
        next_id: 0,
        alive: true,
        pending: Seq::<u64>::empty(),
        queue: Seq::<(u64, Seq<u8>)>::empty(),
        issued: Set::<u64>::empty(),
    }
}

/// How a successful submission changes a sender: a fresh identifier is issued,
/// registered as pending, and its frame joins the back of the outbound queue.
pub open spec fn submit_effect(pre: SenderModel, post: SenderModel, id: u64, payload: Seq<u8>) -> bool {
    &&& pre.alive
    &&& pre.next_id < u64::MAX
    &&& id == pre.next_id
    &&& post.next_id == pre.next_id + 1
    &&& post.alive
    &&& post.pending == pre.pending.push(id)
    &&& post.queue == pre.queue.push((id, payload))
    &&& post.issued == pre.issued.insert(id)
}

/// How resolving an identifier changes a sender: a pending identifier is
/// removed, exactly once; an unknown identifier changes nothing.
pub open spec fn resolve_effect(pre: SenderModel, post: SenderModel, id: u64, hit: bool) -> bool {
    if pre.pending.contains(id) {
        &&& hit
        &&& exists|i: int|
            0 <= i < pre.pending.len() && pre.pending[i] == id && post.pending == pre.pending.remove(i)
        &&& post.next_id == pre.next_id
        &&& post.alive == pre.alive
        &&& post.queue == pre.queue
        &&& post.issued == pre.issued
    } else {
        &&& !hit
        &&& post == pre
    }
}

/// How teardown changes a sender: the connection is down, nothing awaits and
/// nothing is queued any more; the identifier history is kept.
pub open spec fn close_effect(pre: SenderModel, post: SenderModel, orphans: Seq<u64>) -> bool {
    &&& orphans == pre.pending
    &&& post.next_id == pre.next_id
    &&& !post.alive
    &&& post.pending == Seq::<u64>::empty()
    &&& post.queue == Seq::<(u64, Seq<u8>)>::empty()
    &&& post.issued == pre.issued
}

/// How taking the next outbound frame changes a sender: the queue loses its
/// front and nothing else moves.
pub open spec fn pop_effect(pre: SenderModel, post: SenderModel, popped: Option<(u64, Seq<u8>)>) -> bool {
    if pre.queue.len() == 0 {
        &&& popped is None
        &&& post == pre
    } else {
        &&& popped == Some(pre.queue[0])
        &&& post.next_id == pre.next_id
        &&& post.alive == pre.alive
        &&& post.pending == pre.pending
        &&& post.queue == pre.queue.drop_first()
        &&& post.issued == pre.issued
    }
}

/// Any single step a sender can take.
pub open spec fn sender_step(pre: SenderModel, post: SenderModel) -> bool {
    ||| exists|id: u64, payload: Seq<u8>| submit_effect(pre, post, id, payload)
    ||| exists|id: u64, hit: bool| resolve_effect(pre, post, id, hit)
    ||| exists|orphans: Seq<u64>| close_effect(pre, post, orphans)
    ||| exists|popped: Option<(u64, Seq<u8>)>| pop_effect(pre, post, popped)
}

/// A resolution: the correlation identifier of a formerly pending call,
/// together with the payload (or terminal error) that answers it.
pub struct Resolution {
    pub msg_id: u64,
    pub outcome: Result<Vec<u8>, PoolError>,
}

/// Looks `id` up in `v`.
fn find_id(v: &Vec<u64>, id: u64) -> (res: Option<usize>)
    ensures
        match res {
            Some(i) => i < v@.len() && v@[i as int] == id,
            None => !v@.contains(id),
        },
{
    let mut i: usize = 0;
    while i < v.len()
        invariant
            i <= v@.len(),
            forall|j: int| 0 <= j < i ==> v@[j] != id,
        decreases v@.len() - i,
    {
        if v[i] == id {
            return Some(i);
        }
        i = i + 1;
    }
    None
}

impl Sender {
    /// A sender for a freshly established connection.
    pub fn open() -> (s: Sender)
        ensures
            s@ == fresh_sender(),
            s@.wf(),
    {
        let s = Sender {
            next_id: 0,
            alive: true,
            pending: Vec::new(),
            outbound: Vec::new(),
            issued: Ghost(Set::<u64>::empty()),
        };
        proof {
            assert(s@.queue =~= Seq::<(u64, Seq<u8>)>::empty());
            assert(s@ =~= fresh_sender());
        }
        s
    }

    /// Registers a payload for transmission: issues a fresh correlation
    /// identifier, frames the payload under it, queues the frame, and records
    /// the identifier as pending. Fails with `ConnectionClosed`, registering
    /// nothing, exactly when the connection is down or the identifier space
    /// is exhausted.
    pub fn submit(&mut self, payload: Vec<u8>) -> (res: Result<u64, PoolError>)
        requires
            old(self)@.wf(),
        ensures
            final(self)@.wf(),
            old(self)@.alive && old(self)@.next_id < u64::MAX ==> (res matches Ok(id)
                && submit_effect(old(self)@, final(self)@, id, payload@)),
            !(old(self)@.alive && old(self)@.next_id < u64::MAX) ==> res == Err::<u64, PoolError>(
                PoolError::ConnectionClosed,
            ) && final(self)@ == old(self)@,
            res matches Ok(id) ==> id == old(self)@.next_id && !old(self)@.issued.contains(id),
    {
        if !self.alive || self.next_id == u64::MAX {
            return Err(PoolError::ConnectionClosed);
        }
        let id = self.next_id;
        self.next_id = self.next_id + 1;
        self.pending.push(id);
        self.outbound.push(Frame { msg_id: id, payload });
        proof {
            self.issued@ = self.issued@.insert(id);
        }
        proof {
            assert(self@.queue =~= old(self)@.queue.push((id, payload@)));
            assert forall|i: int, j: int|
                0 <= i < j < self@.pending.len() implies self@.pending[i] != self@.pending[j] by {
                if j == self@.pending.len() - 1 {
                    assert(old(self)@.issued.contains(old(self)@.pending[i]));
                }
            }
            assert forall|i: int|
                0 <= i < self@.pending.len() implies self@.issued.contains(
                #[trigger] self@.pending[i]) by {
                if i < old(self)@.pending.len() {
                    assert(old(self)@.issued.contains(old(self)@.pending[i]));
                }
            }
            assert forall|x: u64| self@.issued.contains(x) implies x < self@.next_id by {
                if x != id {
                    assert(old(self)@.issued.contains(x));
                }
            }
            assert forall|i: int|
                0 <= i < self@.queue.len() implies self@.issued.contains(
                (#[trigger] self@.queue[i]).0) by {
                if i < old(self)@.queue.len() {
                    assert(old(self)@.issued.contains(old(self)@.queue[i].0));
                }
            }
        }
        Ok(id)
    }

    /// Resolves one pending identifier: reports whether it was pending, and
    /// if so removes it, exactly once.
    pub fn resolve(&mut self, msg_id: u64) -> (hit: bool)
        requires
            old(self)@.wf(),
        ensures
            final(self)@.wf(),
            resolve_effect(old(self)@, final(self)@, msg_id, hit),
            hit <==> old(self)@.pending.contains(msg_id),
    {
        match find_id(&self.pending, msg_id) {
            Some(i) => {
                self.pending.remove(i);
                proof {
                    assert(old(self)@.pending[i as int] == msg_id);
                    assert(old(self)@.pending.contains(msg_id));
                    assert(self@.queue == old(self)@.queue);
                }
                true
            },
            None => {
                proof {
                    assert(!old(self)@.pending.contains(msg_id));
                }
                false
            },
        }
    }

    /// Tears the sender down: the connection is closed, the outbound queue is
    /// dropped, and every still-pending identifier is handed back so that each
    /// of its callers can be answered with `ConnectionClosed`.
    pub fn close(&mut self) -> (orphans: Vec<u64>)
        requires
            old(self)@.wf(),
        ensures
            final(self)@.wf(),
            close_effect(old(self)@, final(self)@, orphans@),
    {
        let mut orphans: Vec<u64> = Vec::new();
        let mut i: usize = 0;
        while i < self.pending.len()
            invariant
                i <= self.pending@.len(),
                self == old(self),
                orphans@ == self.pending@.take(i as int),
            decreases self.pending@.len() - i,
        {
            orphans.push(self.pending[i]);
            proof {
                assert(orphans@ =~= self.pending@.take(i as int + 1));
            }
            i = i + 1;
        }
        proof {
            assert(orphans@ =~= old(self)@.pending);
        }
        self.pending.clear();
        self.outbound.clear();
        self.alive = false;
        proof {
            assert(self@.queue =~= Seq::<(u64, Seq<u8>)>::empty());
            assert forall|x: u64| self@.issued.contains(x) implies x < self@.next_id by {
                assert(old(self)@.issued.contains(x));
            }
        }
        orphans
    }

    /// Takes the next frame owed to the wire; frames leave in submission
    /// order.
    pub fn pop_outbound(&mut self) -> (popped: Option<Frame>)
        requires
            old(self)@.wf(),
        ensures
            final(self)@.wf(),
            match popped {
                Some(f) => pop_effect(old(self)@, final(self)@, Some((f.msg_id, f.payload@))),
                None => pop_effect(old(self)@, final(self)@, None),
            },
    {
        if self.outbound.len() == 0 {
            None
        } else {
            let f = self.outbound.remove(0);
            proof {
                assert(self@.queue =~= old(self)@.queue.drop_first());
                assert forall|i: int, j: int|
                    0 <= i < j < self@.pending.len() implies self@.pending[i]
                    != self@.pending[j] by {
                    assert(self@.pending[i] == old(self)@.pending[i]);
                    assert(self@.pending[j] == old(self)@.pending[j]);
                }
                assert forall|i: int|
                    0 <= i < self@.pending.len() implies self@.issued.contains(
                    #[trigger] self@.pending[i]) by {
                    assert(old(self)@.issued.contains(old(self)@.pending[i]));
                }
                assert forall|x: u64| self@.issued.contains(x) implies x < self@.next_id by {
                    assert(old(self)@.issued.contains(x));
                }
                assert forall|i: int|
                    0 <= i < self@.queue.len() implies self@.issued.contains(
                    (#[trigger] self@.queue[i]).0) by {
                    assert(self@.queue[i] == old(self)@.queue[i + 1]);
                    assert(old(self)@.issued.contains(old(self)@.queue[i + 1].0));
                }
            }
            Some(f)
        }
    }

    /// Applies one inbound byte string: a well-formed frame whose identifier
    /// is pending resolves exactly that call with the frame's payload; a frame
    /// with no matching identifier, or a malformed byte string, is discarded
    /// and changes nothing.
    pub fn handle_inbound(&mut self, bytes: &Vec<u8>) -> (res: Option<Resolution>)
        requires
            old(self)@.wf(),
        ensures
            final(self)@.wf(),
            match decoded_frame(bytes@) {
                Some((id, payload)) => {
                    if old(self)@.pending.contains(id) {
                        &&& res matches Some(r)
                        &&& r.msg_id == id
                        &&& r.outcome matches Ok(p) && p@ == payload
                        &&& resolve_effect(old(self)@, final(self)@, id, true)
                    } else {
                        res is None && final(self)@ == old(self)@
                    }
                },
                None => res is None && final(self)@ == old(self)@,
            },
    {
        match crate::codec::decode_frame(bytes) {
            Ok(frame) => {
                if self.resolve(frame.msg_id) {
                    Some(Resolution { msg_id: frame.msg_id, outcome: Ok(frame.payload) })
                } else {
                    None
                }
            },
            Err(_) => None,
        }
    }

    /// How many calls still await a response.
    pub fn pending_count(&self) -> (n: usize)
        ensures
            n == self@.pending.len(),
    {
        self.pending.len()
    }

    /// Whether this identifier still awaits a response.
    pub fn is_pending(&self, msg_id: u64) -> (b: bool)
        ensures
            b == self@.pending.contains(msg_id),
    {
        match find_id(&self.pending, msg_id) {
            Some(i) => {
                proof {
                    assert(self@.pending[i as int] == msg_id);
                }
                true
            },
            None => false,
        }
    }

    /// Whether the outbound queue is fully drained.
    pub fn outbound_empty(&self) -> (b: bool)
        ensures
            b <==> self@.queue.len() == 0,
    {
        self.outbound.len() == 0
    }

    /// Whether the connection is up.
    pub fn is_alive(&self) -> (b: bool)
        ensures
            b == self@.alive,
    {
        self.alive
    }
}

/// Law: one live sender never issues a correlation identifier twice — two
/// consecutive submissions return distinct identifiers.
pub proof fn lemma_correlation_ids_unique(
    s0: SenderModel,
    s1: SenderModel,
    s2: SenderModel,
    a: u64,
    b: u64,
    p: Seq<u8>,
    q: Seq<u8>,
)
    requires
        submit_effect(s0, s1, a, p),
        submit_effect(s1, s2, b, q),
    ensures
        a != b,
{
}

/// Law: a submission issues an identifier the connection never issued before,
/// and records it as issued.
pub proof fn lemma_issued_fresh(s0: SenderModel, s1: SenderModel, id: u64, p: Seq<u8>)
    requires
        s0.wf(),
        submit_effect(s0, s1, id, p),
    ensures
        !s0.issued.contains(id),
        s1.issued == s0.issued.insert(id),
        s1.wf(),
{
    assert forall|i: int, j: int|
        0 <= i < j < s1.pending.len() implies s1.pending[i] != s1.pending[j] by {
        if j == s1.pending.len() - 1 {
            assert(s0.issued.contains(s0.pending[i]));
        }
    }
}

/// Law (correlation correctness): a reply carrying the correlation identifier
/// of a submitted call resolves — it is never discarded as unmatched — and it
/// resolves exactly that call, leaving every other pending call registered.
pub proof fn lemma_reply_resolves_its_call(
    s0: SenderModel,
    s1: SenderModel,
    s2: SenderModel,
    id: u64,
    p: Seq<u8>,
    hit: bool,
)
    requires
        s0.wf(),
        submit_effect(s0, s1, id, p),
        resolve_effect(s1, s2, id, hit),
    ensures
        hit,
        forall|other: u64| other != id && s1.pending.contains(other) ==> s2.pending.contains(other),
{
    assert(s1.pending[s1.pending.len() - 1] == id);
    assert(s1.pending.contains(id));
    let i = choose|i: int|
        0 <= i < s1.pending.len() && s1.pending[i] == id && s2.pending == s1.pending.remove(i);
    assert forall|other: u64|
        other != id && s1.pending.contains(other) implies s2.pending.contains(other) by {
        let j = choose|j: int| 0 <= j < s1.pending.len() && s1.pending[j] == other;
        if j < i {
            assert(s2.pending[j] == other);
        } else {
            assert(s2.pending[j - 1] == other);
        }
    }
}

/// Law: a pending call resolves exactly once — after a resolution hits an
/// identifier, resolving the same identifier again is a no-op, never a second
/// delivery.
pub proof fn lemma_resolve_once(
    s0: SenderModel,
    s1: SenderModel,
    s2: SenderModel,
    id: u64,
    hit1: bool,
    hit2: bool,
)
    requires
        s0.wf(),
        resolve_effect(s0, s1, id, hit1),
        resolve_effect(s1, s2, id, hit2),
    ensures
        !(hit1 && hit2),
        hit1 ==> s2 == s1,
{
    if hit1 {
        let i = choose|i: int|
            0 <= i < s0.pending.len() && s0.pending[i] == id && s1.pending == s0.pending.remove(i);
        assert forall|j: int| 0 <= j < s1.pending.len() implies s1.pending[j] != id by {
            if j < i {
                assert(s0.pending[j] == s1.pending[j]);
            } else {
                assert(s0.pending[j + 1] == s1.pending[j]);
            }
        }
        assert(!s1.pending.contains(id));
    }
}

/// Law: once an issued identifier is no longer pending, no later step of the
/// sender makes it pending again — a resolved call can never be delivered to
/// twice, whatever the sender goes on to do.
pub proof fn lemma_resolved_stays_resolved(pre: SenderModel, post: SenderModel, id: u64)
    requires
        pre.wf(),
        pre.issued.contains(id),
        !pre.pending.contains(id),
        sender_step(pre, post),
    ensures
        post.issued.contains(id),
        !post.pending.contains(id),
{
    if exists|nid: u64, payload: Seq<u8>| submit_effect(pre, post, nid, payload) {
        let (nid, payload) = choose|nid: u64, payload: Seq<u8>| submit_effect(pre, post, nid, payload);
        assert(id < pre.next_id);
        assert forall|j: int| 0 <= j < post.pending.len() implies post.pending[j] != id by {
            if j < pre.pending.len() {
                assert(pre.pending[j] == post.pending[j]);
                assert(pre.pending.contains(pre.pending[j]) == pre.pending.contains(post.pending[j]));
            }
        }
    } else if exists|rid: u64, hit: bool| resolve_effect(pre, post, rid, hit) {
        let (rid, hit) = choose|rid: u64, hit: bool| resolve_effect(pre, post, rid, hit);
        if pre.pending.contains(rid) {
            let i = choose|i: int|
                0 <= i < pre.pending.len() && pre.pending[i] == rid && post.pending
                    == pre.pending.remove(i);
            assert forall|j: int| 0 <= j < post.pending.len() implies post.pending[j] != id by {
                if j < i {
                    assert(pre.pending[j] == post.pending[j]);
                } else {
                    assert(pre.pending[j + 1] == post.pending[j]);
                }
            }
        }
    }
}

/// Law: every step of a sender preserves well-formedness.
pub proof fn lemma_step_preserves_wf(pre: SenderModel, post: SenderModel)
    requires
        pre.wf(),
        sender_step(pre, post),
    ensures
        post.wf(),
{
    if exists|id: u64, payload: Seq<u8>| submit_effect(pre, post, id, payload) {
        let (id, payload) = choose|id: u64, payload: Seq<u8>| submit_effect(pre, post, id, payload);
        lemma_issued_fresh(pre, post, id, payload);
    } else if exists|id: u64, hit: bool| resolve_effect(pre, post, id, hit) {
        let (id, hit) = choose|id: u64, hit: bool| resolve_effect(pre, post, id, hit);
        if pre.pending.contains(id) {
            let i = choose|i: int|
                0 <= i < pre.pending.len() && pre.pending[i] == id && post.pending
                    == pre.pending.remove(i);
            assert forall|j: int|
                0 <= j < post.pending.len() implies pre.pending.contains(#[trigger] post.pending[j]) by {
                if j < i {
                    assert(pre.pending[j] == post.pending[j]);
                } else {
                    assert(pre.pending[j + 1] == post.pending[j]);
                }
            }
            assert forall|j: int, k: int|
                0 <= j < k < post.pending.len() implies post.pending[j] != post.pending[k] by {
                let j0 = if j < i { j } else { j + 1 };
                let k0 = if k < i { k } else { k + 1 };
                assert(post.pending[j] == pre.pending[j0]);
                assert(post.pending[k] == pre.pending[k0]);
            }
        }
    }
}

} // verus!
