//! The node runtime as a state machine. One inbound envelope is
//! dispatched by `handle_message`: a reply is correlated through the
//! `pending` table and delivered to its waiting sender; a request runs
//! its workload handler, which answers and, for a fresh broadcast value,
//! fans out along the topology's next hops. The surrounding event loop
//! performs the returned effects in order.

use vstd::prelude::*;
use vstd::multiset::Multiset;
use crate::ids::{NodeId, PeerId};
use crate::protocol::{Body, ErrorCode, Message, Payload};
use crate::protocol::{is_ok_reply_for, spec_reply};
use crate::topology::{
    first_index, lemma_first_index, lemma_first_index_is, pair_keys, pairs_view, spec_neighbors,
    spec_next_fuel, topo_wf, Topology,
};

verus! {

/// The initial window of the broadcast fan-out timeout, in milliseconds.
pub const INITIAL_TIMEOUT_MS: u64 = 100;

/// What the dispatch of one inbound envelope asks the event loop to do,
/// in order.
#[derive(Debug, Clone, PartialEq, Eq)]
pub enum Effect {
    /// Enqueue the message on the outbound queue.
    Emit(Message),
    /// Hand the reply to the task waiting on `msg_id`.
    Deliver { msg_id: u64, reply: Message },
    /// Start a send of `broadcast {message}` to `dest`, retried with
    /// backoff until `broadcast_ok` arrives.
    Gossip { dest: NodeId, message: u64 },
}

/// The state of one node after the init handshake.
#[derive(Debug)]
pub struct Node {
    /// This node's identity, immutable after init.
    pub id: NodeId,
    /// Every node of the cluster, as announced by init.
    pub node_ids: Vec<NodeId>,
    /// The counter behind `generate`.
    pub ids_counter: u64,
    /// The next outbound message id.
    pub latest_message_id: u64,
    /// The broadcast values seen so far, in order of first arrival.
    pub messages: Vec<u64>,
    /// The peers this node gossips to, from the last topology request.
    pub broadcast_to: Vec<NodeId>,
    /// The outbound message ids whose reply slot is still live.
    pub pending: Vec<u64>,
}

/// `n + 1`, wrapping at the top of the 64-bit range.
pub open spec fn wrap_inc(n: u64) -> u64 {
    if n == u64::MAX {
        0
    } else {
        (n + 1) as u64
    }
}

/// The unique id generated by node `n` at counter value `c`.
pub open spec fn gen_id(n: u64, c: u64) -> u64 {
    (n << 32) | c
}

/// The seen-set after one broadcast value is delivered.
pub open spec fn seen_after(seen: Seq<u64>, m: u64) -> Seq<u64> {
    if seen.contains(m) {
        seen
    } else {
        seen.push(m)
    }
}

/// The seen-set after a whole sequence of deliveries.
pub open spec fn seen_after_all(seen: Seq<u64>, ms: Seq<u64>) -> Seq<u64>
    decreases ms.len(),
{
    if ms.len() == 0 {
        seen
    } else {
        seen_after(seen_after_all(seen, ms.drop_last()), ms.last())
    }
}

/// `p` with the first occurrence of `id` removed, if any.
pub open spec fn remove_first(p: Seq<u64>, id: u64) -> Seq<u64> {
    if p.contains(id) {
        p.remove(first_index(p, id))
    } else {
        p
    }
}

/// The fan-out recipients: every configured peer, except the immediate
/// sender when the sender is a node.
pub open spec fn fanout_targets(bt: Seq<NodeId>, src: PeerId) -> Seq<NodeId>
    decreases bt.len(),
{
    if bt.len() == 0 {
        Seq::empty()
    } else {
        let pre = fanout_targets(bt.drop_last(), src);
        match src {
            PeerId::Node(s) => if bt.last() == s {
                pre
            } else {
                pre.push(bt.last())
            },
            PeerId::Client(_) => pre.push(bt.last()),
        }
    }
}

/// One `Gossip` effect per target, in order.
pub open spec fn gossip_effects(targets: Seq<NodeId>, m: u64) -> Seq<Effect>
    decreases targets.len(),
{
    if targets.len() == 0 {
        Seq::empty()
    } else {
        gossip_effects(targets.drop_last(), m).push(
            Effect::Gossip { dest: targets.last(), message: m },
        )
    }
}

/// The reply effect for `req` carrying `value`: one `Emit` of the
/// correlated reply, or nothing when the request has no `msg_id`.
pub open spec fn reply_effs(n: NodeId, req: Message, value: Payload) -> Seq<Effect> {
    if req.body.msg_id is Some {
        seq![Effect::Emit(spec_reply(n, req, value))]
    } else {
        Seq::empty()
    }
}

/// The bytes of the text sent with a `NotSupported` error.
pub open spec fn not_supported_text() -> Seq<u8> {
    seq![0x4eu8, 0x6f, 0x74, 0x20, 0x73, 0x75, 0x70, 0x70, 0x6f, 0x72, 0x74, 0x65, 0x64]
}

/// The result of `topology.next` on the map described by `input`: some
/// well-formed sorted topology over the same map selects `out`. By
/// `lemma_next_pure`, `out` is uniquely determined by the map.
pub open spec fn topo_result(input: Seq<(NodeId, Vec<NodeId>)>, n: NodeId, out: Seq<NodeId>) -> bool {
    exists|tp: Seq<(NodeId, Seq<NodeId>)>, f: nat|
        {
            &&& topo_wf(tp)
            &&& pair_keys(tp).to_set() == pair_keys(pairs_view(input)).to_set()
            &&& forall|k: NodeId| #[trigger] spec_neighbors(tp, k).to_multiset() == spec_neighbors(
                pairs_view(input),
                k,
            ).to_multiset()
            &&& spec_next_fuel(tp, n, f) == Some(out)
        }
}

/// Wire invariant on an inbound envelope: a JSON object has distinct
/// keys, so a topology payload binds each node once.
pub open spec fn msg_wf(msg: Message) -> bool {
    msg.body.value matches Payload::Topology { topology } ==> pair_keys(
        pairs_view(topology@),
    ).no_duplicates()
}

/// All of `pre` unchanged in `post` except the fields a case names.
pub open spec fn same_but_pending(pre: Node, post: Node) -> bool {
    &&& post.id == pre.id
    &&& post.node_ids == pre.node_ids
    &&& post.ids_counter == pre.ids_counter
    &&& post.latest_message_id == pre.latest_message_id
    &&& post.messages == pre.messages
    &&& post.broadcast_to == pre.broadcast_to
}

pub open spec fn same_but_counter(pre: Node, post: Node) -> bool {
    &&& post.id == pre.id
    &&& post.node_ids == pre.node_ids
    &&& post.latest_message_id == pre.latest_message_id
    &&& post.messages == pre.messages
    &&& post.broadcast_to == pre.broadcast_to
    &&& post.pending == pre.pending
}

pub open spec fn same_but_messages(pre: Node, post: Node) -> bool {
    &&& post.id == pre.id
    &&& post.node_ids == pre.node_ids
    &&& post.ids_counter == pre.ids_counter
    &&& post.latest_message_id == pre.latest_message_id
    &&& post.broadcast_to == pre.broadcast_to
    &&& post.pending == pre.pending
}

pub open spec fn same_but_broadcast_to(pre: Node, post: Node) -> bool {
    &&& post.id == pre.id
    &&& post.node_ids == pre.node_ids
    &&& post.ids_counter == pre.ids_counter
    &&& post.latest_message_id == pre.latest_message_id
    &&& post.messages == pre.messages
    &&& post.pending == pre.pending
}

/// The dispatch relation: what one inbound envelope does to the node
/// and which effects it produces, case by case.
pub open spec fn step_ok(pre: Node, msg: Message, post: Node, eff: Seq<Effect>) -> bool {
    if msg.dest != PeerId::Node(pre.id) {
        // not addressed to this node: ignored
        post == pre && eff == Seq::<Effect>::empty()
    } else if msg.body.in_reply_to is Some {
        // a response: delivered to its waiting sender, or dropped when no
        // slot is registered (late, duplicate or unsolicited)
        let k = msg.body.in_reply_to->0;
        if pre.pending@.contains(k) {
            &&& same_but_pending(pre, post)
            &&& post.pending@ == remove_first(pre.pending@, k)
            &&& eff == seq![Effect::Deliver { msg_id: k, reply: msg }]
        } else {
            post == pre && eff == Seq::<Effect>::empty()
        }
    } else {
        match msg.body.value {
            Payload::Echo { echo } => {
                post == pre && eff == reply_effs(pre.id, msg, Payload::EchoOk { echo })
            },
            Payload::Generate => {
                &&& same_but_counter(pre, post)
                &&& post.ids_counter == wrap_inc(pre.ids_counter)
                &&& eff == reply_effs(
                    pre.id,
                    msg,
                    Payload::GenerateOk { id: gen_id(pre.id.0, pre.ids_counter) },
                )
            },
            Payload::Broadcast { message } => {
                if pre.messages@.contains(message) {
                    // duplicate delivery: acknowledge, no fan-out
                    post == pre && eff == reply_effs(pre.id, msg, Payload::BroadcastOk)
                } else {
                    &&& same_but_messages(pre, post)
                    &&& post.messages@ == seen_after(pre.messages@, message)
                    &&& eff == reply_effs(pre.id, msg, Payload::BroadcastOk) + gossip_effects(
                        fanout_targets(pre.broadcast_to@, msg.src),
                        message,
                    )
                }
            },
            Payload::Read => {
                &&& post == pre
                &&& if msg.body.msg_id is Some {
                    &&& eff.len() == 1
                    &&& eff[0] matches Effect::Emit(r) && r.src == PeerId::Node(pre.id) && r.dest
                        == msg.src && r.body.msg_id is None && r.body.in_reply_to
                        == msg.body.msg_id && (r.body.value matches Payload::ReadOk { messages }
                        && messages@ == pre.messages@)
                } else {
                    eff == Seq::<Effect>::empty()
                }
            },
            Payload::Topology { topology } => {
                &&& same_but_broadcast_to(pre, post)
                &&& topo_result(topology@, pre.id, post.broadcast_to@)
                &&& eff == reply_effs(pre.id, msg, Payload::TopologyOk)
            },
            _ => {
                // unsupported request types are answered with an error
                &&& post == pre
                &&& if msg.body.msg_id is Some {
                    &&& eff.len() == 1
                    &&& eff[0] matches Effect::Emit(r) && r.src == PeerId::Node(pre.id) && r.dest
                        == msg.src && r.body.msg_id is None && r.body.in_reply_to
                        == msg.body.msg_id && (r.body.value matches Payload::Error { code, text }
                        && code == ErrorCode::NotSupported && text@ == not_supported_text())
                } else {
                    eff == Seq::<Effect>::empty()
                }
            },
        }
    }
}

/// Reports whether `v` holds `x`.
fn contains_u64(v: &Vec<u64>, x: u64) -> (r: bool)
    ensures
        r == v@.contains(x),
{
    let n = v.len();
    let mut i: usize = 0;
    while i < n
        invariant
            0 <= i <= n,
            n == v@.len(),
            forall|k: int| 0 <= k < i ==> v@[k] != x,
        decreases n - i,
    {
        if v[i] == x {
            assert(v@[i as int] == x);
            return true;
        }
        i = i + 1;
    }
    assert(!v@.contains(x));
    false
}

/// The text sent with a `NotSupported` error.
fn make_not_supported_text() -> (r: Vec<u8>)
    ensures
        r@ == not_supported_text(),
{
    let mut v: Vec<u8> = Vec::new();
    v.push(0x4e);
    v.push(0x6f);
    v.push(0x74);
    v.push(0x20);
    v.push(0x73);
    v.push(0x75);
    v.push(0x70);
    v.push(0x70);
    v.push(0x6f);
    v.push(0x72);
    v.push(0x74);
    v.push(0x65);
    v.push(0x64);
    proof {
        assert(v@ =~= not_supported_text());
    }
    v
}

impl Node {
    /// The structural invariant: each broadcast value and each pending
    /// message id is held once.
    pub open spec fn wf(&self) -> bool {
        &&& self.messages@.no_duplicates()
        &&& self.pending@.no_duplicates()
    }

    /// A fresh node identified by `id`, knowing the cluster's nodes.
    pub fn new(id: NodeId, node_ids: Vec<NodeId>) -> (n: Node)
        ensures
            n.wf(),
            n.id == id,
            n.node_ids == node_ids,
            n.ids_counter == 0,
            n.latest_message_id == 0,
            n.messages@ == Seq::<u64>::empty(),
            n.broadcast_to@ == Seq::<NodeId>::empty(),
            n.pending@ == Seq::<u64>::empty(),
    {
        let n = Node {
            id,
            node_ids,
            ids_counter: 0,
            latest_message_id: 0,
            messages: Vec::new(),
            broadcast_to: Vec::new(),
            pending: Vec::new(),
        };
        proof {
            assert(n.messages@ =~= Seq::<u64>::empty());
            assert(n.broadcast_to@ =~= Seq::<NodeId>::empty());
            assert(n.pending@ =~= Seq::<u64>::empty());
        }
        n
    }

    /// The init handshake: an `init` request yields the `init_ok` reply
    /// and the initialized node; any other message is skipped.
    pub fn init_step(msg: Message) -> (r: Option<(Message, Node)>)
        ensures
            match r {
                Some(p) => {
                    &&& msg.body.value matches Payload::Init { node_id, node_ids } && p.0
                        == spec_reply(node_id, msg, Payload::InitOk) && p.1.id == node_id
                        && p.1.node_ids == node_ids
                    &&& p.1.wf()
                    &&& p.1.ids_counter == 0 && p.1.latest_message_id == 0
                    &&& p.1.messages@ == Seq::<u64>::empty()
                    &&& p.1.broadcast_to@ == Seq::<NodeId>::empty()
                    &&& p.1.pending@ == Seq::<u64>::empty()
                },
                None => !(msg.body.value matches Payload::Init { .. }),
            },
    {
        let ghost m0 = msg;
        let src = msg.src;
        let dest = msg.dest;
        let mid = msg.body.msg_id;
        match msg.body.value {
            Payload::Init { node_id, node_ids } => {
                let reply = Message {
                    src: PeerId::Node(node_id),
                    dest: src,
                    body: Body { msg_id: None, in_reply_to: mid, value: Payload::InitOk },
                };
                let node = Node::new(node_id, node_ids);
                Some((reply, node))
            },
            _ => None,
        }
    }

    /// Allocates the next outbound message id, registers its reply slot
    /// in `pending`, and builds the request envelope to send.
    pub fn prepare_send(&mut self, dest: NodeId, value: Payload) -> (m: Message)
        requires
            old(self).wf(),
            !old(self).pending@.contains(old(self).latest_message_id),
        ensures
            final(self).wf(),
            m == (Message {
                src: PeerId::Node(old(self).id),
                dest: PeerId::Node(dest),
                body: Body {
                    msg_id: Some(old(self).latest_message_id),
                    in_reply_to: None,
                    value,
                },
            }),
            final(self).latest_message_id == wrap_inc(old(self).latest_message_id),
            final(self).pending@ == old(self).pending@.push(old(self).latest_message_id),
            final(self).id == old(self).id && final(self).node_ids == old(self).node_ids
                && final(self).ids_counter == old(self).ids_counter && final(self).messages
                == old(self).messages && final(self).broadcast_to == old(self).broadcast_to,
    {
        let msg_id = self.latest_message_id;
        self.latest_message_id = msg_id.wrapping_add(1);
        self.pending.push(msg_id);
        Message {
            src: PeerId::Node(self.id),
            dest: PeerId::Node(dest),
            body: Body { msg_id: Some(msg_id), in_reply_to: None, value },
        }
    }

    /// Removes the reply slot of `msg_id`, if it is still registered;
    /// idempotent, as the dispatcher may have removed it already.
    pub fn complete_send(&mut self, msg_id: u64)
        requires
            old(self).wf(),
        ensures
            final(self).wf(),
            final(self).pending@ == remove_first(old(self).pending@, msg_id),
            final(self).id == old(self).id && final(self).node_ids == old(self).node_ids
                && final(self).ids_counter == old(self).ids_counter
                && final(self).latest_message_id == old(self).latest_message_id
                && final(self).messages == old(self).messages && final(self).broadcast_to
                == old(self).broadcast_to,
    {
        self.remove_pending(msg_id);
    }

    /// Removes the first slot registered under `k`, reporting whether one
    /// was.
    fn remove_pending(&mut self, k: u64) -> (found: bool)
        requires
            old(self).wf(),
        ensures
            final(self).wf(),
            found == old(self).pending@.contains(k),
            final(self).pending@ == remove_first(old(self).pending@, k),
            !old(self).pending@.contains(k) ==> *final(self) == *old(self),
            final(self).id == old(self).id && final(self).node_ids == old(self).node_ids
                && final(self).ids_counter == old(self).ids_counter
                && final(self).latest_message_id == old(self).latest_message_id
                && final(self).messages == old(self).messages && final(self).broadcast_to
                == old(self).broadcast_to,
    {
        let n = self.pending.len();
        let mut i: usize = 0;
        while i < n
            invariant
                0 <= i <= n,
                n == self.pending@.len(),
                self == old(self),
                old(self).wf(),
                forall|j: int| 0 <= j < i ==> self.pending@[j] != k,
            decreases n - i,
        {
            if self.pending[i] == k {
                proof {
                    assert(self.pending@[i as int] == k);
                    lemma_first_index_is(self.pending@, k, i as int);
                    assert(old(self).pending@.contains(k));
                }
                let ghost prev = self.pending@;
                self.pending.remove(i);
                proof {
                    assert(self.pending@ == prev.remove(i as int));
                    prev.remove_ensures(i as int);
                    assert(self.pending@.no_duplicates()) by {
                        assert forall|a: int, b: int|
                            0 <= a < self.pending@.len() && 0 <= b < self.pending@.len() && a
                                != b implies self.pending@[a] != self.pending@[b] by {
                            let a0 = if a < i { a } else { a + 1 };
                            let b0 = if b < i { b } else { b + 1 };
                            assert(self.pending@[a] == prev[a0] && self.pending@[b] == prev[b0]);
                        }
                    }
                }
                return true;
            }
            i = i + 1;
        }
        proof {
            assert(!old(self).pending@.contains(k));
        }
        false
    }

    /// Dispatches one inbound envelope, per `step_ok`: responses are
    /// correlated and delivered, requests are answered, a fresh broadcast
    /// value is recorded and gossiped onward.
    pub fn handle_message(&mut self, msg: Message) -> (eff: Vec<Effect>)
        requires
            old(self).wf(),
            msg_wf(msg),
        ensures
            final(self).wf(),
            step_ok(*old(self), msg, *final(self), eff@),
    {
        let ghost pre = *old(self);
        let ghost m0 = msg;
        if msg.dest != PeerId::Node(self.id) {
            let eff: Vec<Effect> = Vec::new();
            proof {
                assert(eff@ =~= Seq::<Effect>::empty());
            }
            return eff;
        }
        if let Some(k) = msg.body.in_reply_to {
            let mut eff: Vec<Effect> = Vec::new();
            if self.remove_pending(k) {
                eff.push(Effect::Deliver { msg_id: k, reply: msg });
                proof {
                    assert(eff@ =~= seq![Effect::Deliver { msg_id: k, reply: m0 }]);
                }
            } else {
                proof {
                    assert(eff@ =~= Seq::<Effect>::empty());
                }
            }
            return eff;
        }
        let src0 = msg.src;
        let mid0 = msg.body.msg_id;
        let id = self.id;
        let mut eff: Vec<Effect> = Vec::new();
        match msg.body.value {
            Payload::Echo { echo } => {
                self.push_reply(&mut eff, src0, mid0, Payload::EchoOk { echo });
                proof {
                    assert(eff@ =~= reply_effs(pre.id, m0, Payload::EchoOk { echo: m0.body.value->Echo_echo }));
                }
            },
            Payload::Generate => {
                let counter = self.ids_counter;
                self.ids_counter = counter.wrapping_add(1);
                let gid = (id.0 << 32) | counter;
                proof {
                    assert(gid == gen_id(pre.id.0, pre.ids_counter));
                }
                self.push_reply(&mut eff, src0, mid0, Payload::GenerateOk { id: gid });
                proof {
                    assert(eff@ =~= reply_effs(
                        pre.id,
                        m0,
                        Payload::GenerateOk { id: gen_id(pre.id.0, pre.ids_counter) },
                    ));
                }
            },
            Payload::Broadcast { message } => {
                if contains_u64(&self.messages, message) {
                    self.push_reply(&mut eff, src0, mid0, Payload::BroadcastOk);
                    proof {
                        assert(eff@ =~= reply_effs(pre.id, m0, Payload::BroadcastOk));
                    }
                } else {
                    self.messages.push(message);
                    self.push_reply(&mut eff, src0, mid0, Payload::BroadcastOk);
                    let ghost eff_reply = eff@;
                    let ghost mid_state = *self;
                    let n_bt = self.broadcast_to.len();
                    let mut i: usize = 0;
                    proof {
                        assert(self.broadcast_to@.subrange(0, 0) =~= Seq::<NodeId>::empty());
                        assert(eff@ =~= eff_reply + gossip_effects(
                            fanout_targets(self.broadcast_to@.subrange(0, 0), src0),
                            message,
                        ));
                    }
                    while i < n_bt
                        invariant
                            0 <= i <= n_bt,
                            n_bt == self.broadcast_to@.len(),
                            *self == mid_state,
                            eff@ == eff_reply + gossip_effects(
                                fanout_targets(self.broadcast_to@.subrange(0, i as int), src0),
                                message,
                            ),
                        decreases n_bt - i,
                    {
                        let ghost bts = self.broadcast_to@;
                        let ghost pre_targets = fanout_targets(bts.subrange(0, i as int), src0);
                        let t = self.broadcast_to[i];
                        let skip = match src0 {
                            PeerId::Node(s) => s.0 == t.0,
                            PeerId::Client(_) => false,
                        };
                        proof {
                            assert(bts.subrange(0, i as int + 1).drop_last() =~= bts.subrange(
                                0,
                                i as int,
                            ));
                            assert(bts.subrange(0, i as int + 1).last() == t);
                            if skip {
                                assert(fanout_targets(bts.subrange(0, i as int + 1), src0)
                                    == pre_targets);
                            } else {
                                assert(fanout_targets(bts.subrange(0, i as int + 1), src0)
                                    == pre_targets.push(t));
                                assert(gossip_effects(pre_targets.push(t), message)
                                    == gossip_effects(pre_targets, message).push(
                                    Effect::Gossip { dest: t, message },
                                )) by {
                                    assert(pre_targets.push(t).drop_last() =~= pre_targets);
                                }
                            }
                        }
                        if !skip {
                            eff.push(Effect::Gossip { dest: t, message });
                        }
                        i = i + 1;
                    }
                    proof {
                        assert(self.broadcast_to@.subrange(0, n_bt as int) =~= self.broadcast_to@);
                        assert(self.messages@.no_duplicates()) by {
                            assert(self.messages@ == pre.messages@.push(
                                m0.body.value->Broadcast_message,
                            ));
                            let msgs = self.messages@;
                            assert forall|a: int, b: int|
                                0 <= a < msgs.len() && 0 <= b < msgs.len() && a != b implies msgs[a]
                                != msgs[b] by {
                                if a < pre.messages@.len() && b < pre.messages@.len() {
                                } else if a < pre.messages@.len() {
                                    if msgs[a] == msgs[b] {
                                        assert(pre.messages@.contains(msgs[b]));
                                    }
                                } else {
                                    if msgs[a] == msgs[b] {
                                        assert(pre.messages@.contains(msgs[a]));
                                    }
                                }
                            }
                        }
                    }
                }
            },
            Payload::Read => {
                if let Some(_) = mid0 {
                    let ms = copy_u64s(&self.messages);
                    eff.push(
                        Effect::Emit(
                            Message {
                                src: PeerId::Node(id),
                                dest: src0,
                                body: Body {
                                    msg_id: None,
                                    in_reply_to: mid0,
                                    value: Payload::ReadOk { messages: ms },
                                },
                            },
                        ),
                    );
                }
            },
            Payload::Topology { topology } => {
                let t = Topology::from_pairs(topology);
                let ghost tpv = t@;
                let bt = t.next(id);
                let ghost f = choose|f: nat| spec_next_fuel(tpv, id, f) == Some(bt@);
                self.broadcast_to = bt;
                self.push_reply(&mut eff, src0, mid0, Payload::TopologyOk);
                proof {
                    assert(topo_result(
                        m0.body.value->Topology_topology@,
                        pre.id,
                        self.broadcast_to@,
                    ));
                    assert(eff@ =~= reply_effs(pre.id, m0, Payload::TopologyOk));
                }
            },
            _ => {
                if let Some(_) = mid0 {
                    let text = make_not_supported_text();
                    eff.push(
                        Effect::Emit(
                            Message {
                                src: PeerId::Node(id),
                                dest: src0,
                                body: Body {
                                    msg_id: None,
                                    in_reply_to: mid0,
                                    value: Payload::Error {
                                        code: ErrorCode::NotSupported,
                                        text,
                                    },
                                },
                            },
                        ),
                    );
                }
            },
        }
        eff
    }

    /// Pushes the reply effect for a request from `src` with id `mid`,
    /// or nothing when the request carries no `msg_id`.
    fn push_reply(&self, eff: &mut Vec<Effect>, src: PeerId, mid: Option<u64>, value: Payload)
        ensures
            mid is Some ==> final(eff)@ == old(eff)@.push(
                Effect::Emit(
                    Message {
                        src: PeerId::Node(self.id),
                        dest: src,
                        body: Body { msg_id: None, in_reply_to: mid, value },
                    },
                ),
            ),
            mid is None ==> final(eff)@ == old(eff)@,
    {
        match mid {
            Some(_) => {
                eff.push(
                    Effect::Emit(
                        Message {
                            src: PeerId::Node(self.id),
                            dest: src,
                            body: Body { msg_id: None, in_reply_to: mid, value },
                        },
                    ),
                );
            },
            None => {},
        }
    }
}

/// A fresh copy of a list of values.
fn copy_u64s(v: &Vec<u64>) -> (r: Vec<u64>)
    ensures
        r@ == v@,
{
    let n = v.len();
    let mut out: Vec<u64> = Vec::new();
    let mut i: usize = 0;
    while i < n
        invariant
            0 <= i <= n,
            n == v@.len(),
            out@ == v@.subrange(0, i as int),
        decreases n - i,
    {
        out.push(v[i]);
        proof {
            assert(out@ =~= v@.subrange(0, i as int + 1));
        }
        i = i + 1;
    }
    proof {
        assert(v@.subrange(0, n as int) =~= v@);
    }
    out
}

/// The timeout window after one more failed attempt: half as much again,
/// saturating at the top of the range.
pub fn backoff_next(timeout_ms: u64) -> (r: u64)
    ensures
        r == if timeout_ms + timeout_ms / 2 <= u64::MAX {
            (timeout_ms + timeout_ms / 2) as u64
        } else {
            u64::MAX
        },
{
    match timeout_ms.checked_add(timeout_ms / 2) {
        Some(t) => t,
        None => u64::MAX,
    }
}

/// Every element of a gossip list is a `Gossip` effect.
proof fn lemma_gossip_effects_shape(targets: Seq<NodeId>, m: u64)
    ensures
        gossip_effects(targets, m).len() == targets.len(),
        forall|i: int|
            0 <= i < targets.len() ==> (#[trigger] gossip_effects(targets, m)[i] matches
                Effect::Gossip { dest, message } && dest == targets[i] && message == m),
    decreases targets.len(),
{
    if targets.len() > 0 {
        lemma_gossip_effects_shape(targets.drop_last(), m);
        assert forall|i: int| 0 <= i < targets.len() implies (#[trigger] gossip_effects(
            targets,
            m,
        )[i] matches Effect::Gossip { dest, message } && dest == targets[i] && message == m) by {
            if i < targets.len() - 1 {
                assert(gossip_effects(targets, m)[i] == gossip_effects(targets.drop_last(), m)[i]);
                assert(targets.drop_last()[i] == targets[i]);
            }
        }
    }
}

/// Every emitted reply answers the inbound request that produced it: it
/// goes back to the requester, `in_reply_to` equals the request's
/// `msg_id`, and the payload is the request's `..Ok` payload or an
/// error.
pub proof fn lemma_replies_correlate(pre: Node, msg: Message, post: Node, eff: Seq<Effect>, i: int)
    requires
        step_ok(pre, msg, post, eff),
        0 <= i < eff.len(),
        eff[i] is Emit,
    ensures
        msg.body.msg_id is Some,
        eff[i]->Emit_0.src == PeerId::Node(pre.id),
        eff[i]->Emit_0.dest == msg.src,
        eff[i]->Emit_0.body.in_reply_to == msg.body.msg_id,
        is_ok_reply_for(eff[i]->Emit_0.body.value, msg.body.value),
{
    if msg.dest != PeerId::Node(pre.id) {
    } else if msg.body.in_reply_to is Some {
    } else {
        match msg.body.value {
            Payload::Broadcast { message } => {
                if !pre.messages@.contains(message) {
                    let replies = reply_effs(pre.id, msg, Payload::BroadcastOk);
                    let targets = fanout_targets(pre.broadcast_to@, msg.src);
                    lemma_gossip_effects_shape(targets, message);
                    if i >= replies.len() {
                        assert(eff[i] == gossip_effects(targets, message)[i - replies.len()]);
                        assert(false);
                    } else {
                        assert(eff[i] == replies[i]);
                    }
                }
            },
            _ => {},
        }
    }
}

/// The init reply correlates in the same way: `init_ok`, addressed back
/// to the requester, under the request's `msg_id`.
pub proof fn lemma_init_reply_correlates(msg: Message, node_id: NodeId)
    requires
        msg.body.value matches Payload::Init { .. },
    ensures
        ({
            let reply = spec_reply(node_id, msg, Payload::InitOk);
            &&& reply.dest == msg.src
            &&& reply.body.in_reply_to == msg.body.msg_id
            &&& is_ok_reply_for(reply.body.value, msg.body.value)
        }),
{
}

/// One send-lifecycle event: a send starting (its message id registered
/// in `pending`) or finishing (its slot removed by reply delivery,
/// timeout handling or caller cancellation).
#[derive(Debug, Clone, Copy, PartialEq, Eq, Structural)]
pub enum SendEvent {
    Start(u64),
    Finish(u64),
}

/// The pending table after a history of send events, starting empty:
/// `Start` pushes the id as `prepare_send` does, `Finish` removes its
/// first occurrence as `complete_send` and reply delivery do.
pub open spec fn pending_after(evts: Seq<SendEvent>) -> Seq<u64>
    decreases evts.len(),
{
    if evts.len() == 0 {
        Seq::empty()
    } else {
        let p = pending_after(evts.drop_last());
        match evts.last() {
            SendEvent::Start(id) => p.push(id),
            SendEvent::Finish(id) => remove_first(p, id),
        }
    }
}

/// The sends still in flight after a history: started and not yet
/// finished.
pub open spec fn inflight_after(evts: Seq<SendEvent>) -> Multiset<u64>
    decreases evts.len(),
{
    if evts.len() == 0 {
        Multiset::empty()
    } else {
        let m = inflight_after(evts.drop_last());
        match evts.last() {
            SendEvent::Start(id) => m.insert(id),
            SendEvent::Finish(id) => m.remove(id),
        }
    }
}

/// A history is well-formed when a send only finishes while it is in
/// flight.
pub open spec fn events_wf(evts: Seq<SendEvent>) -> bool
    decreases evts.len(),
{
    if evts.len() == 0 {
        true
    } else {
        &&& events_wf(evts.drop_last())
        &&& (evts.last() matches SendEvent::Finish(id) ==> inflight_after(
            evts.drop_last(),
        ).count(id) > 0)
    }
}

/// The pending table holds exactly the in-flight sends.
proof fn lemma_pending_matches_inflight(evts: Seq<SendEvent>)
    requires
        events_wf(evts),
    ensures
        pending_after(evts).to_multiset() == inflight_after(evts),
    decreases evts.len(),
{
    broadcast use vstd::seq_lib::group_to_multiset_ensures;

    if evts.len() > 0 {
        lemma_pending_matches_inflight(evts.drop_last());
        let p = pending_after(evts.drop_last());
        match evts.last() {
            SendEvent::Start(id) => {
                assert(p.push(id).to_multiset() =~= p.to_multiset().insert(id));
            },
            SendEvent::Finish(id) => {
                assert(p.to_multiset().count(id) > 0);
                assert(p.contains(id));
                lemma_first_index(p, id);
                assert(p.remove(first_index(p, id)).to_multiset() =~= p.to_multiset().remove(
                    p[first_index(p, id)],
                ));
            },
        }
    }
}

/// `pending` is empty exactly when no send is in flight.
pub proof fn lemma_pending_empty_iff_idle(evts: Seq<SendEvent>)
    requires
        events_wf(evts),
    ensures
        pending_after(evts).len() == 0 <==> inflight_after(evts).len() == 0,
{
    broadcast use vstd::seq_lib::group_to_multiset_ensures;

    lemma_pending_matches_inflight(evts);
    assert(pending_after(evts).len() == pending_after(evts).to_multiset().len());
}

/// After a node has delivered every broadcast payload the cluster
/// observed — in any order, each any number of times — its seen-set is
/// the union of those payloads with what it already held.
pub proof fn lemma_seen_is_union(seen: Seq<u64>, ms: Seq<u64>)
    ensures
        seen_after_all(seen, ms).to_set() == seen.to_set().union(ms.to_set()),
    decreases ms.len(),
{
    if ms.len() == 0 {
        assert(ms.to_set() =~= Set::<u64>::empty()) by {
            if exists|x: u64| ms.to_set().contains(x) {
                let x = choose|x: u64| ms.to_set().contains(x);
                let w = choose|w: int| 0 <= w < ms.len() && ms[w] == x;
            }
        }
        assert(seen.to_set().union(ms.to_set()) =~= seen.to_set());
    } else {
        lemma_seen_is_union(seen, ms.drop_last());
        let prev = seen_after_all(seen, ms.drop_last());
        let m = ms.last();
        assert(seen_after(prev, m).to_set() =~= prev.to_set().insert(m)) by {
            if prev.contains(m) {
                assert(prev.to_set().contains(m));
                assert(prev.to_set().insert(m) =~= prev.to_set());
            } else {
                crate::topology::lemma_to_set_push(prev, m);
            }
        }
        assert(ms.to_set() =~= ms.drop_last().to_set().insert(m)) by {
            assert(ms == ms.drop_last().push(m));
            crate::topology::lemma_to_set_push(ms.drop_last(), m);
        }
        assert(seen_after_all(seen, ms).to_set() =~= seen.to_set().union(ms.to_set()));
    }
}

/// Delivering a broadcast payload a second time changes nothing.
pub proof fn lemma_broadcast_idempotent(seen: Seq<u64>, m: u64)
    ensures
        seen_after(seen_after(seen, m), m) == seen_after(seen, m),
{
    if !seen.contains(m) {
        assert(seen.push(m).contains(m)) by {
            assert(seen.push(m)[seen.len() as int] == m);
        }
    }
}

/// The seen-set after `n` deliveries of one payload.
pub open spec fn seen_after_n(seen: Seq<u64>, m: u64, n: nat) -> Seq<u64>
    decreases n,
{
    if n == 0 {
        seen
    } else {
        seen_after(seen_after_n(seen, m, (n - 1) as nat), m)
    }
}

/// Delivering the same payload `n` times yields the same seen-set as
/// delivering it once.
pub proof fn lemma_broadcast_idempotent_n(seen: Seq<u64>, m: u64, n: nat)
    requires
        n >= 1,
    ensures
        seen_after_n(seen, m, n) == seen_after(seen, m),
    decreases n,
{
    assert(seen_after_n(seen, m, n) == seen_after(seen_after_n(seen, m, (n - 1) as nat), m));
    if n > 1 {
        lemma_broadcast_idempotent_n(seen, m, (n - 1) as nat);
        lemma_broadcast_idempotent(seen, m);
    } else {
        assert(seen_after_n(seen, m, 0) == seen);
    }
}

/// Distinct (node, counter) pairs give distinct generated ids while both
/// components are below 2^32; so a cluster of K such nodes, each
/// emitting M ids, emits exactly K times M distinct ids.
pub proof fn lemma_gen_id_injective(n1: u64, c1: u64, n2: u64, c2: u64)
    requires
        n1 < 0x1_0000_0000,
        c1 < 0x1_0000_0000,
        n2 < 0x1_0000_0000,
        c2 < 0x1_0000_0000,
        !(n1 == n2 && c1 == c2),
    ensures
        gen_id(n1, c1) != gen_id(n2, c2),
{
    assert(((n1 << 32) | c1) != ((n2 << 32) | c2)) by (bit_vector)
        requires
            n1 < 0x1_0000_0000u64,
            c1 < 0x1_0000_0000u64,
            n2 < 0x1_0000_0000u64,
            c2 < 0x1_0000_0000u64,
            !(n1 == n2 && c1 == c2),
    ;
}

} // verus!
