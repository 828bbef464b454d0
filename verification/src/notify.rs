//! The notify hub: topic-based fan-out of chain events to dynamically
//! registered subscribers.
//!
//! The hub is a single-writer state machine. Each topic holds a list of
//! subscribers, each with a name and a capacity-bounded queue standing for
//! its receive endpoint. Registration is synchronous: once `subscribe_*`
//! returns, the subscriber is durably recorded, so a later `notify_*` is
//! guaranteed to reach it. Notification is best-effort fan-out: a full
//! endpoint misses the payload and a stopped hub drops it silently, while
//! a registration against a stopped hub fails with `ServiceUnavailable`.

use std::sync::Arc;
use vstd::prelude::*;

use crate::util::{arc_clone, IndexedBlock, ServiceUnavailable};

verus! {

/// Name under which the miner service registers with the hub.
pub const MINER_SUBSCRIBER: &'static str = "miner";

/// Name under which the transaction pool service registers with the hub.
pub const TXS_POOL_SUBSCRIBER: &'static str = "txs_pool";

/// Capacity of a freshly created subscriber endpoint.
pub const SUBSCRIBER_CAPACITY: usize = 128;

/// Payload of the new-transaction topic: a bare signal.
pub type MsgNewTransaction = ();

/// Payload of the new-tip topic: the block now at the tip, shared by
/// reference.
pub type MsgNewTip = Arc<IndexedBlock>;

/// Payload of the switch-fork topic: the blocks moved by a reorg, shared
/// by reference.
pub type MsgSwitchFork = Arc<ForkBlocks>;

/// The blocks detached from and attached to the canonical chain during a
/// reorg; the payload of a fork-switch notification.
#[derive(PartialEq, Eq, Debug)]
pub struct ForkBlocks {
    /// Blocks on the old best path but not the new one, ordered by
    /// ascending height.
    pub detached: Vec<Arc<IndexedBlock>>,
    /// Blocks on the new best path but not the old one, ordered by
    /// ascending height.
    pub attached: Vec<Arc<IndexedBlock>>,
}

/// One registered subscriber of a topic: a name and the capacity-bounded
/// queue standing for its receive endpoint.
pub struct Subscriber<M> {
    pub name: String,
    pub capacity: usize,
    pub queue: Vec<M>,
}

/// Mathematical model of a subscriber.
#[verifier::ext_equal]
pub ghost struct SubModel<M> {
    pub name: Seq<char>,
    pub capacity: usize,
    pub queue: Seq<M>,
}

impl<M> View for Subscriber<M> {
    type V = SubModel<M>;

    open spec fn view(&self) -> SubModel<M> {
        SubModel { name: self.name@, capacity: self.capacity, queue: self.queue@ }
    }
}

/// The models of a list of subscribers.
pub open spec fn sub_models<M>(subs: Seq<Subscriber<M>>) -> Seq<SubModel<M>> {
    subs.map_values(|s: Subscriber<M>| s@)
}

/// Index of the first subscriber with the given name, or -1.
pub open spec fn find_name<M>(subs: Seq<SubModel<M>>, name: Seq<char>) -> int
    decreases subs.len(),
{
    if subs.len() == 0 {
        -1
    } else if subs[0].name == name {
        0
    } else {
        let r = find_name(subs.drop_first(), name);
        if r < 0 {
            -1
        } else {
            r + 1
        }
    }
}

/// A freshly created subscriber endpoint: empty queue.
pub open spec fn fresh_sub<M>(name: Seq<char>, capacity: usize) -> SubModel<M> {
    SubModel { name, capacity, queue: Seq::empty() }
}

/// What registration does: a new name is appended with a fresh endpoint;
/// an existing name keeps its slot but its endpoint is replaced by a
/// fresh one. Returns the new subscriber list and the slot registered.
pub open spec fn register_model<M>(subs: Seq<SubModel<M>>, name: Seq<char>, capacity: usize) -> (
    Seq<SubModel<M>>,
    int,
) {
    let i = find_name(subs, name);
    if i >= 0 {
        (subs.update(i, fresh_sub(name, capacity)), i)
    } else {
        (subs.push(fresh_sub(name, capacity)), subs.len() as int)
    }
}

/// What one delivery does to one subscriber: the payload is appended to
/// its queue if there is room, and dropped otherwise (notification is
/// best-effort; a full endpoint is never an error for the publisher).
pub open spec fn deliver_model<M>(s: SubModel<M>, payload: M) -> SubModel<M> {
    if s.queue.len() < s.capacity {
        SubModel { name: s.name, capacity: s.capacity, queue: s.queue.push(payload) }
    } else {
        s
    }
}

/// What one notification does: one delivery to every currently
/// registered subscriber of the topic.
pub open spec fn fanout_model<M>(subs: Seq<SubModel<M>>, payload: M) -> Seq<SubModel<M>> {
    Seq::new(subs.len(), |i: int| deliver_model(subs[i], payload))
}

proof fn lemma_find_name_found<M>(subs: Seq<SubModel<M>>, name: Seq<char>, i: int)
    requires
        0 <= i < subs.len(),
        subs[i].name == name,
        forall|j: int| 0 <= j < i ==> subs[j].name != name,
    ensures
        find_name(subs, name) == i,
    decreases i,
{
    if i > 0 {
        assert forall|j: int| 0 <= j < i - 1 implies subs.drop_first()[j].name != name by {
            assert(subs.drop_first()[j] == subs[j + 1]);
        }
        assert(subs.drop_first()[i - 1] == subs[i]);
        lemma_find_name_found(subs.drop_first(), name, i - 1);
    }
}

proof fn lemma_find_name_absent<M>(subs: Seq<SubModel<M>>, name: Seq<char>)
    requires
        forall|j: int| 0 <= j < subs.len() ==> subs[j].name != name,
    ensures
        find_name(subs, name) == -1,
    decreases subs.len(),
{
    if subs.len() > 0 {
        assert forall|j: int| 0 <= j < subs.drop_first().len() implies subs.drop_first()[j].name
            != name by {
            assert(subs.drop_first()[j] == subs[j + 1]);
        }
        lemma_find_name_absent(subs.drop_first(), name);
    }
}

/// Register `name` in a subscriber list, as `register_model` says.
#[verifier::loop_isolation(false)]
fn register<M>(subs: &mut Vec<Subscriber<M>>, name: String, capacity: usize) -> (id: usize)
    ensures
        sub_models(final(subs)@) == register_model(sub_models(old(subs)@), name@, capacity).0,
        id as int == register_model(sub_models(old(subs)@), name@, capacity).1,
        id < final(subs)@.len(),
{
    let ghost orig = sub_models(subs@);
    let mut i: usize = 0;
    while i < subs.len()
        invariant
            i <= subs@.len(),
            sub_models(subs@) == orig,
            forall|j: int| 0 <= j < i ==> orig[j].name != name@,
        decreases subs@.len() - i,
    {
        if subs[i].name == name {
            proof {
                lemma_find_name_found(orig, name@, i as int);
            }
            subs[i] = Subscriber { name, capacity, queue: Vec::new() };
            assert(sub_models(subs@) =~= orig.update(i as int, fresh_sub(name@, capacity)));
            return i;
        }
        i = i + 1;
    }
    proof {
        lemma_find_name_absent(orig, name@);
    }
    subs.push(Subscriber { name, capacity, queue: Vec::new() });
    assert(sub_models(subs@) =~= orig.push(fresh_sub(name@, capacity)));
    subs.len() - 1
}

/// The notify hub's state: three topics' subscriber lists and the
/// stopped flag set by the shutdown signal.
pub struct NotifyService {
    pub stopped: bool,
    pub new_transaction_subs: Vec<Subscriber<MsgNewTransaction>>,
    pub new_tip_subs: Vec<Subscriber<MsgNewTip>>,
    pub switch_fork_subs: Vec<Subscriber<MsgSwitchFork>>,
}

impl NotifyService {
    /// A hub with no subscribers, ready to serve.
    pub fn new() -> (r: NotifyService)
        ensures
            !r.stopped,
            r.new_transaction_subs@.len() == 0,
            r.new_tip_subs@.len() == 0,
            r.switch_fork_subs@.len() == 0,
    {
        NotifyService {
            stopped: false,
            new_transaction_subs: Vec::new(),
            new_tip_subs: Vec::new(),
            switch_fork_subs: Vec::new(),
        }
    }

    /// Handle the shutdown signal: no further registrations are accepted
    /// and no further payloads are delivered; already delivered payloads
    /// stay readable.
    pub fn stop(&mut self)
        ensures
            final(self).stopped,
            final(self).new_transaction_subs == old(self).new_transaction_subs,
            final(self).new_tip_subs == old(self).new_tip_subs,
            final(self).switch_fork_subs == old(self).switch_fork_subs,
    {
        self.stopped = true;
    }

    /// Register `name` for the new-transaction topic. Fails with
    /// `ServiceUnavailable` once the hub has stopped; otherwise returns
    /// the slot of the fresh endpoint, as `register_model` says.
    pub fn subscribe_new_transaction(&mut self, name: String) -> (r: Result<
        usize,
        ServiceUnavailable,
    >)
        ensures
            old(self).stopped ==> r == Err::<usize, ServiceUnavailable>(ServiceUnavailable)
                && *final(self) == *old(self),
            !old(self).stopped ==> {
                let (m, mid) = register_model(
                    sub_models(old(self).new_transaction_subs@),
                    name@,
                    SUBSCRIBER_CAPACITY,
                );
                &&& r matches Ok(id) && id as int == mid
                &&& sub_models(final(self).new_transaction_subs@) == m
                &&& final(self).new_tip_subs == old(self).new_tip_subs
                &&& final(self).switch_fork_subs == old(self).switch_fork_subs
                &&& !final(self).stopped
            },
    {
        if self.stopped {
            return Err(ServiceUnavailable);
        }
        Ok(register(&mut self.new_transaction_subs, name, SUBSCRIBER_CAPACITY))
    }

    /// Register `name` for the new-tip topic; see
    /// `subscribe_new_transaction`.
    pub fn subscribe_new_tip(&mut self, name: String) -> (r: Result<usize, ServiceUnavailable>)
        ensures
            old(self).stopped ==> r == Err::<usize, ServiceUnavailable>(ServiceUnavailable)
                && *final(self) == *old(self),
            !old(self).stopped ==> {
                let (m, mid) = register_model(
                    sub_models(old(self).new_tip_subs@),
                    name@,
                    SUBSCRIBER_CAPACITY,
                );
                &&& r matches Ok(id) && id as int == mid
                &&& sub_models(final(self).new_tip_subs@) == m
                &&& final(self).new_transaction_subs == old(self).new_transaction_subs
                &&& final(self).switch_fork_subs == old(self).switch_fork_subs
                &&& !final(self).stopped
            },
    {
        if self.stopped {
            return Err(ServiceUnavailable);
        }
        Ok(register(&mut self.new_tip_subs, name, SUBSCRIBER_CAPACITY))
    }

    /// Register `name` for the switch-fork topic; see
    /// `subscribe_new_transaction`.
    pub fn subscribe_switch_fork(&mut self, name: String) -> (r: Result<usize, ServiceUnavailable>)
        ensures
            old(self).stopped ==> r == Err::<usize, ServiceUnavailable>(ServiceUnavailable)
                && *final(self) == *old(self),
            !old(self).stopped ==> {
                let (m, mid) = register_model(
                    sub_models(old(self).switch_fork_subs@),
                    name@,
                    SUBSCRIBER_CAPACITY,
                );
                &&& r matches Ok(id) && id as int == mid
                &&& sub_models(final(self).switch_fork_subs@) == m
                &&& final(self).new_transaction_subs == old(self).new_transaction_subs
                &&& final(self).new_tip_subs == old(self).new_tip_subs
                &&& !final(self).stopped
            },
    {
        if self.stopped {
            return Err(ServiceUnavailable);
        }
        Ok(register(&mut self.switch_fork_subs, name, SUBSCRIBER_CAPACITY))
    }

    /// Fan the new-transaction signal out to every registered
    /// subscriber; a no-op once the hub has stopped.
    #[verifier::loop_isolation(false)]
    pub fn notify_new_transaction(&mut self)
        ensures
            old(self).stopped ==> *final(self) == *old(self),
            !old(self).stopped ==> {
                &&& sub_models(final(self).new_transaction_subs@) == fanout_model(
                    sub_models(old(self).new_transaction_subs@),
                    (),
                )
                &&& final(self).new_tip_subs == old(self).new_tip_subs
                &&& final(self).switch_fork_subs == old(self).switch_fork_subs
                &&& !final(self).stopped
            },
    {
        if self.stopped {
            return ;
        }
        let ghost orig = sub_models(self.new_transaction_subs@);
        let mut i: usize = 0;
        while i < self.new_transaction_subs.len()
            invariant
                i <= self.new_transaction_subs@.len(),
                self.new_transaction_subs@.len() == orig.len(),
                forall|j: int|
                    0 <= j < i ==> sub_models(self.new_transaction_subs@)[j] == deliver_model(
                        orig[j],
                        (),
                    ),
                forall|j: int|
                    i <= j < orig.len() ==> sub_models(self.new_transaction_subs@)[j] == orig[j],
                !self.stopped,
                self.new_tip_subs == old(self).new_tip_subs,
                self.switch_fork_subs == old(self).switch_fork_subs,
            decreases self.new_transaction_subs@.len() - i,
        {
            let ghost pre = self.new_transaction_subs@;
            let cap = self.new_transaction_subs[i].capacity;
            if self.new_transaction_subs[i].queue.len() < cap {
                self.new_transaction_subs[i].queue.push(());
            }
            proof {
                assert forall|j: int| 0 <= j <= i implies sub_models(self.new_transaction_subs@)[j]
                    == deliver_model(orig[j], ()) by {
                    if j < i as int {
                        assert(self.new_transaction_subs@[j] == pre[j]);
                        assert(sub_models(pre)[j] == deliver_model(orig[j], ()));
                    } else {
                        assert(sub_models(pre)[j] == orig[j]);
                        assert(sub_models(self.new_transaction_subs@)[j] =~= deliver_model(orig[j], ()));
                    }
                }
            }
            i = i + 1;
        }
        assert(sub_models(self.new_transaction_subs@) =~= fanout_model(orig, ()));
    }

    /// Fan a new-tip payload out to every registered subscriber, shared
    /// by reference; a no-op once the hub has stopped.
    #[verifier::loop_isolation(false)]
    pub fn notify_new_tip(&mut self, block: MsgNewTip)
        ensures
            old(self).stopped ==> *final(self) == *old(self),
            !old(self).stopped ==> {
                &&& sub_models(final(self).new_tip_subs@) == fanout_model(
                    sub_models(old(self).new_tip_subs@),
                    block,
                )
                &&& final(self).new_transaction_subs == old(self).new_transaction_subs
                &&& final(self).switch_fork_subs == old(self).switch_fork_subs
                &&& !final(self).stopped
            },
    {
        if self.stopped {
            return ;
        }
        let ghost orig = sub_models(self.new_tip_subs@);
        let mut i: usize = 0;
        while i < self.new_tip_subs.len()
            invariant
                i <= self.new_tip_subs@.len(),
                self.new_tip_subs@.len() == orig.len(),
                forall|j: int|
                    0 <= j < i ==> sub_models(self.new_tip_subs@)[j] == deliver_model(
                        orig[j],
                        block,
                    ),
                forall|j: int| i <= j < orig.len() ==> sub_models(self.new_tip_subs@)[j] == orig[j],
                !self.stopped,
                self.new_transaction_subs == old(self).new_transaction_subs,
                self.switch_fork_subs == old(self).switch_fork_subs,
            decreases self.new_tip_subs@.len() - i,
        {
            let ghost pre = self.new_tip_subs@;
            let cap = self.new_tip_subs[i].capacity;
            if self.new_tip_subs[i].queue.len() < cap {
                let payload = arc_clone(&block);
                self.new_tip_subs[i].queue.push(payload);
            }
            proof {
                assert forall|j: int| 0 <= j <= i implies sub_models(self.new_tip_subs@)[j]
                    == deliver_model(orig[j], block) by {
                    if j < i as int {
                        assert(self.new_tip_subs@[j] == pre[j]);
                        assert(sub_models(pre)[j] == deliver_model(orig[j], block));
                    } else {
                        assert(sub_models(pre)[j] == orig[j]);
                        assert(sub_models(self.new_tip_subs@)[j] =~= deliver_model(orig[j], block));
                    }
                }
            }
            i = i + 1;
        }
        assert(sub_models(self.new_tip_subs@) =~= fanout_model(orig, block));
    }

    /// Fan a fork-switch payload out to every registered subscriber,
    /// shared by reference; a no-op once the hub has stopped.
    #[verifier::loop_isolation(false)]
    pub fn notify_switch_fork(&mut self, blocks: MsgSwitchFork)
        ensures
            old(self).stopped ==> *final(self) == *old(self),
            !old(self).stopped ==> {
                &&& sub_models(final(self).switch_fork_subs@) == fanout_model(
                    sub_models(old(self).switch_fork_subs@),
                    blocks,
                )
                &&& final(self).new_transaction_subs == old(self).new_transaction_subs
                &&& final(self).new_tip_subs == old(self).new_tip_subs
                &&& !final(self).stopped
            },
    {
        if self.stopped {
            return ;
        }
        let ghost orig = sub_models(self.switch_fork_subs@);
        let mut i: usize = 0;
        while i < self.switch_fork_subs.len()
            invariant
                i <= self.switch_fork_subs@.len(),
                self.switch_fork_subs@.len() == orig.len(),
                forall|j: int|
                    0 <= j < i ==> sub_models(self.switch_fork_subs@)[j] == deliver_model(
                        orig[j],
                        blocks,
                    ),
                forall|j: int|
                    i <= j < orig.len() ==> sub_models(self.switch_fork_subs@)[j] == orig[j],
                !self.stopped,
                self.new_transaction_subs == old(self).new_transaction_subs,
                self.new_tip_subs == old(self).new_tip_subs,
            decreases self.switch_fork_subs@.len() - i,
        {
            let ghost pre = self.switch_fork_subs@;
            let cap = self.switch_fork_subs[i].capacity;
            if self.switch_fork_subs[i].queue.len() < cap {
                let payload = arc_clone(&blocks);
                self.switch_fork_subs[i].queue.push(payload);
            }
            proof {
                assert forall|j: int| 0 <= j <= i implies sub_models(self.switch_fork_subs@)[j]
                    == deliver_model(orig[j], blocks) by {
                    if j < i as int {
                        assert(self.switch_fork_subs@[j] == pre[j]);
                        assert(sub_models(pre)[j] == deliver_model(orig[j], blocks));
                    } else {
                        assert(sub_models(pre)[j] == orig[j]);
                        assert(sub_models(self.switch_fork_subs@)[j] =~= deliver_model(orig[j], blocks));
                    }
                }
            }
            i = i + 1;
        }
        assert(sub_models(self.switch_fork_subs@) =~= fanout_model(orig, blocks));
    }

    /// Read the next pending signal of the endpoint in slot `id` of the
    /// new-transaction topic, if any.
    pub fn recv_new_transaction(&mut self, id: usize) -> (r: Option<MsgNewTransaction>)
        ensures
            id >= old(self).new_transaction_subs@.len() ==> r is None && *final(self) == *old(self),
            id < old(self).new_transaction_subs@.len() ==> {
                let q = old(self).new_transaction_subs@[id as int]@.queue;
                &&& q.len() == 0 ==> r is None && *final(self) == *old(self)
                &&& q.len() > 0 ==> {
                    &&& r == Some(q[0])
                    &&& final(self).new_transaction_subs@.len() == old(self).new_transaction_subs@.len()
                    &&& final(self).new_transaction_subs@[id as int]@.queue == q.drop_first()
                    &&& final(self).new_transaction_subs@[id as int]@.name == old(self).new_transaction_subs@[id as int]@.name
                    &&& final(self).new_transaction_subs@[id as int]@.capacity == old(self).new_transaction_subs@[id as int]@.capacity
                    &&& forall|j: int|
                        0 <= j < old(self).new_transaction_subs@.len() && j != id ==> final(self).new_transaction_subs@[j] == old(self).new_transaction_subs@[j]
                    &&& final(self).new_tip_subs == old(self).new_tip_subs
                    &&& final(self).switch_fork_subs == old(self).switch_fork_subs
                    &&& final(self).stopped == old(self).stopped
                }
            },
    {
        if id >= self.new_transaction_subs.len() {
            return None;
        }
        if self.new_transaction_subs[id].queue.len() == 0 {
            return None;
        }
        let ghost oldq = self.new_transaction_subs@[id as int]@.queue;
        let m = self.new_transaction_subs[id].queue.remove(0);
        assert(self.new_transaction_subs@[id as int]@.queue =~= oldq.drop_first());
        Some(m)
    }

    /// Read the next pending block of the endpoint in slot `id` of the
    /// new-tip topic, if any.
    pub fn recv_new_tip(&mut self, id: usize) -> (r: Option<MsgNewTip>)
        ensures
            id >= old(self).new_tip_subs@.len() ==> r is None && *final(self) == *old(self),
            id < old(self).new_tip_subs@.len() ==> {
                let q = old(self).new_tip_subs@[id as int]@.queue;
                &&& q.len() == 0 ==> r is None && *final(self) == *old(self)
                &&& q.len() > 0 ==> {
                    &&& r == Some(q[0])
                    &&& final(self).new_tip_subs@.len() == old(self).new_tip_subs@.len()
                    &&& final(self).new_tip_subs@[id as int]@.queue == q.drop_first()
                    &&& final(self).new_tip_subs@[id as int]@.name == old(self).new_tip_subs@[id as int]@.name
                    &&& final(self).new_tip_subs@[id as int]@.capacity == old(self).new_tip_subs@[id as int]@.capacity
                    &&& forall|j: int|
                        0 <= j < old(self).new_tip_subs@.len() && j != id ==> final(self).new_tip_subs@[j] == old(self).new_tip_subs@[j]
                    &&& final(self).new_transaction_subs == old(self).new_transaction_subs
                    &&& final(self).switch_fork_subs == old(self).switch_fork_subs
                    &&& final(self).stopped == old(self).stopped
                }
            },
    {
        if id >= self.new_tip_subs.len() {
            return None;
        }
        if self.new_tip_subs[id].queue.len() == 0 {
            return None;
        }
        let ghost oldq = self.new_tip_subs@[id as int]@.queue;
        let m = self.new_tip_subs[id].queue.remove(0);
        assert(self.new_tip_subs@[id as int]@.queue =~= oldq.drop_first());
        Some(m)
    }

    /// Read the next pending fork record of the endpoint in slot `id` of
    /// the switch-fork topic, if any.
    pub fn recv_switch_fork(&mut self, id: usize) -> (r: Option<MsgSwitchFork>)
        ensures
            id >= old(self).switch_fork_subs@.len() ==> r is None && *final(self) == *old(self),
            id < old(self).switch_fork_subs@.len() ==> {
                let q = old(self).switch_fork_subs@[id as int]@.queue;
                &&& q.len() == 0 ==> r is None && *final(self) == *old(self)
                &&& q.len() > 0 ==> {
                    &&& r == Some(q[0])
                    &&& final(self).switch_fork_subs@.len() == old(self).switch_fork_subs@.len()
                    &&& final(self).switch_fork_subs@[id as int]@.queue == q.drop_first()
                    &&& final(self).switch_fork_subs@[id as int]@.name == old(self).switch_fork_subs@[id as int]@.name
                    &&& final(self).switch_fork_subs@[id as int]@.capacity == old(self).switch_fork_subs@[id as int]@.capacity
                    &&& forall|j: int|
                        0 <= j < old(self).switch_fork_subs@.len() && j != id ==> final(self).switch_fork_subs@[j] == old(self).switch_fork_subs@[j]
                    &&& final(self).new_transaction_subs == old(self).new_transaction_subs
                    &&& final(self).new_tip_subs == old(self).new_tip_subs
                    &&& final(self).stopped == old(self).stopped
                }
            },
    {
        if id >= self.switch_fork_subs.len() {
            return None;
        }
        if self.switch_fork_subs[id].queue.len() == 0 {
            return None;
        }
        let ghost oldq = self.switch_fork_subs@[id as int]@.queue;
        let m = self.switch_fork_subs[id].queue.remove(0);
        assert(self.switch_fork_subs@[id as int]@.queue =~= oldq.drop_first());
        Some(m)
    }
}

impl Default for NotifyService {
    /// Same as `NotifyService::new`.
    fn default() -> (r: NotifyService)
        ensures
            !r.stopped,
            r.new_transaction_subs@.len() == 0,
            r.new_tip_subs@.len() == 0,
            r.switch_fork_subs@.len() == 0,
    {
        NotifyService::new()
    }
}

/// A notification reaches every subscriber that was registered, and had
/// room in its endpoint, when the notification was handled: its queue
/// ends with exactly one new copy of the payload. (An endpoint already
/// holding `capacity` undelivered payloads misses it: delivery is
/// best-effort.)
pub proof fn lemma_notify_reaches_prior_subscribers<M>(subs: Seq<SubModel<M>>, payload: M)
    ensures
        fanout_model(subs, payload).len() == subs.len(),
        forall|i: int|
            0 <= i < subs.len() && subs[i].queue.len() < subs[i].capacity ==> fanout_model(
                subs,
                payload,
            )[i].queue == subs[i].queue.push(payload),
        forall|i: int|
            0 <= i < subs.len() && subs[i].queue.len() >= subs[i].capacity ==> fanout_model(
                subs,
                payload,
            )[i].queue == subs[i].queue,
{
}

/// A notification never reaches a subscriber registered after it: the
/// endpoint created by a later registration is empty.
pub proof fn lemma_notify_never_reaches_later_subscriber<M>(
    subs: Seq<SubModel<M>>,
    payload: M,
    name: Seq<char>,
    capacity: usize,
)
    ensures
        ({
            let (after, id) = register_model(fanout_model(subs, payload), name, capacity);
            &&& 0 <= id < after.len()
            &&& after[id].queue.len() == 0
        }),
{
    let delivered = fanout_model(subs, payload);
    let i = find_name(delivered, name);
    if i >= 0 {
        lemma_find_name_bounds(delivered, name);
    }
}

proof fn lemma_find_name_bounds<M>(subs: Seq<SubModel<M>>, name: Seq<char>)
    ensures
        find_name(subs, name) >= 0 ==> find_name(subs, name) < subs.len(),
    decreases subs.len(),
{
    if subs.len() > 0 && subs[0].name != name {
        lemma_find_name_bounds(subs.drop_first(), name);
    }
}

} // verus!
