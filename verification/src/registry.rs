use vstd::prelude::*;
use vstd::string::StringSliceAdditionalSpecFns;

use crate::address::{addr_host, addr_port, parse_address, valid_address, Address};
use crate::errors::NodeError;
use crate::lifecycle::LifecycleState;
use crate::node::{Node, NodeView};
use crate::sink::HeaderSink;

verus! {

/// The opaque token `start` hands to the caller. It is the only way to reach
/// a running node, and it is consumed by `stop`: the type is neither `Clone`
/// nor `Copy`, so a handle can be passed to `stop` exactly once.
pub struct NodeHandle {
    /// The slot this handle refers to.
    pub id: usize,
    /// The slot's generation when this handle was issued; a reused slot
    /// carries a higher generation, so a stale handle never matches.
    pub generation: u64,
}

/// One arena slot: its generation and, if the slot is live, the node in it.
pub struct NodeSlot<C: HeaderSink> {
    /// Bumped each time the slot's node is torn down.
    pub generation: u64,
    /// The node living in this slot, if any.
    pub node: Option<Node<C>>,
}

/// The node controller: the public `start`/`stop` surface. Running nodes
/// live in an arena of slots; the caller holds only an opaque `NodeHandle`,
/// never the context itself.
pub struct NodeRegistry<C: HeaderSink> {
    /// The arena. Vacant slots are reused by later `start` calls.
    pub slots: Vec<NodeSlot<C>>,
}

impl<C: HeaderSink> NodeRegistry<C> {
    /// Slot `id` holds a running node.
    pub open spec fn slot_live(&self, id: int) -> bool {
        0 <= id < self.slots@.len() && self.slots@[id].node is Some
    }

    /// The model of the node in slot `id`.
    pub open spec fn node_view(&self, id: int) -> NodeView
        recommends
            self.slot_live(id),
    {
        self.slots@[id].node->Some_0@
    }

    /// The handle refers to a running node: its slot is live and its
    /// generation is current.
    pub open spec fn handle_live(&self, h: NodeHandle) -> bool {
        self.slot_live(h.id as int) && self.slots@[h.id as int].generation == h.generation
    }

    /// Some running node is bound to this endpoint.
    pub open spec fn endpoint_bound(&self, host: Seq<u8>, port: u16) -> bool {
        exists|i: int|
            {
                &&& #[trigger] self.slot_live(i)
                &&& self.node_view(i).host == host
                &&& self.node_view(i).port == port
            }
    }

    /// The controller's invariant: every running node is well formed and
    /// listening (a node leaves the arena the moment it is stopped), and no
    /// two running nodes share an endpoint.
    pub open spec fn wf(&self) -> bool {
        &&& forall|i: int|
            self.slot_live(i) ==> (#[trigger] self.slots@[i]).node->Some_0.wf()
                && self.slots@[i].node->Some_0@.state == LifecycleState::Listening
        &&& forall|i: int, j: int|
            #![trigger self.slots@[i], self.slots@[j]]
            self.slot_live(i) && self.slot_live(j) && i != j ==> !(self.node_view(i).host
                == self.node_view(j).host && self.node_view(i).port == self.node_view(j).port)
    }

    /// A controller with no running node.
    pub fn new() -> (r: NodeRegistry<C>)
        ensures
            r.wf(),
            forall|i: int| !r.slot_live(i),
    {
        NodeRegistry { slots: Vec::new() }
    }

    /// Start a node: resolve the textual `host:port` address, create its
    /// context, arm the accept path and hand back the handle. Returns
    /// `AddressError`, with the controller unchanged and no context created,
    /// exactly when the address does not parse or the endpoint is already
    /// bound. On success the new node listens on the parsed endpoint with
    /// nothing in flight and nothing delivered, and every other slot is
    /// untouched.
    pub fn start(&mut self, address: &str, sink: C) -> (r: Result<NodeHandle, NodeError>)
        requires
            old(self).wf(),
        ensures
            final(self).wf(),
            r is Ok <==> valid_address(address.spec_bytes()) && !old(self).endpoint_bound(
                addr_host(address.spec_bytes()),
                addr_port(address.spec_bytes()) as u16,
            ),
            r matches Ok(h) ==> {
                &&& final(self).handle_live(h)
                &&& final(self).node_view(h.id as int) == NodeView::initial(
                    addr_host(address.spec_bytes()),
                    addr_port(address.spec_bytes()) as u16,
                ).listen()
                &&& !old(self).slot_live(h.id as int)
                &&& h.id as int <= old(self).slots@.len()
                &&& final(self).slots@.len() >= old(self).slots@.len()
                &&& forall|i: int|
                    0 <= i < old(self).slots@.len() && i != h.id ==> final(self).slots@[i] == old(
                        self,
                    ).slots@[i]
            },
            r is Err ==> r == Err::<NodeHandle, NodeError>(NodeError::AddressError) && *final(self)
                == *old(self),
    {
        let addr = match parse_address(address) {
            Ok(a) => a,
            Err(e) => {
                return Err(e);
            },
        };
        proof {
            crate::address::lemma_parse_parts(address.spec_bytes(), addr);
        }
        // Refuse an endpoint some running node is already bound to.
        let n = self.slots.len();
        let mut i: usize = 0;
        while i < n
            invariant
                i <= n,
                n == self.slots@.len(),
                self.wf(),
                *self == *old(self),
                addr.host@ == addr_host(address.spec_bytes()),
                addr.port as nat == addr_port(address.spec_bytes()),
                forall|k: int|
                    0 <= k < i && self.slot_live(k) ==> !((#[trigger] self.node_view(k)).host
                        == addr.host@ && self.node_view(k).port == addr.port),
            decreases n - i,
        {
            match &self.slots[i].node {
                Some(node) => {
                    if node.addr.endpoint_eq(&addr) {
                        proof {
                            assert(self.slot_live(i as int));
                            assert(self.node_view(i as int).host == addr.host@);
                        }
                        return Err(NodeError::AddressError);
                    }
                },
                None => {},
            }
            i = i + 1;
        }
        proof {
            assert(!self.endpoint_bound(addr.host@, addr.port as u16));
        }
        let ghost host = addr.host@;
        let ghost port = addr.port;
        // Create the context and arm the accept path.
        let mut node = Node::new(addr, sink);
        node.start_listening();
        // Find a vacant slot, or grow the arena.
        let vacant_at = find_vacant(&self.slots);
        if let Some(j) = vacant_at {
            let slot = &mut self.slots[j];
            proof {
                assert(old(self).slots@[j as int].node is None);
            }
            slot.node = Some(node);
            let h = NodeHandle { id: j, generation: slot.generation };
            proof {
                assert(final(slot).node->Some_0@ =~= NodeView::initial(host, port).listen());
                lemma_views_after_update(*old(self), *self, j as int, host, port);
            }
            Ok(h)
        } else {
            let g: u64 = 0;
            self.slots.push(NodeSlot { generation: g, node: Some(node) });
            let h = NodeHandle { id: n, generation: g };
            proof {
                assert(self.slots@[n as int].node->Some_0@ =~= NodeView::initial(
                    host,
                    port,
                ).listen());
                lemma_views_after_update(*old(self), *self, n as int, host, port);
            }
            Ok(h)
        }
    }

    /// One inbound connection arrived for the node in slot `id` (the accept
    /// path knows its slot, never the handle). Accepted with a fresh
    /// connection identifier exactly when the slot holds a node that still
    /// listens; refused otherwise.
    pub fn accept_connection(&mut self, id: usize) -> (r: Option<u64>)
        requires
            old(self).wf(),
        ensures
            final(self).wf(),
            r matches Some(c) ==> {
                &&& old(self).slot_live(id as int)
                &&& old(self).node_view(id as int).accepts()
                &&& c == old(self).node_view(id as int).next_conn
                &&& final(self).node_view(id as int) == old(self).node_view(id as int).accept()
                &&& final(self).slots@.len() == old(self).slots@.len()
                &&& final(self).slot_live(id as int)
                &&& forall|i: int|
                    0 <= i < old(self).slots@.len() && i != id ==> final(self).slots@[i] == old(
                        self,
                    ).slots@[i]
            },
            r is None ==> (!old(self).slot_live(id as int) || !old(self).node_view(
                id as int,
            ).accepts()) && final(self).slots@ == old(self).slots@,
    {
        if id >= self.slots.len() {
            return None;
        }
        let r = {
            let slot = &mut self.slots[id];
            match slot.node.as_mut() {
                Some(node) => node.accept_connection(),
                None => None,
            }
        };
        proof {
            if old(self).slot_live(id as int) {
                lemma_views_after_node_step(*old(self), *self, id as int);
            } else {
                assert(self.slots@ =~= old(self).slots@);
            }
            if r is None {
                assert(self.slots@ =~= old(self).slots@);
            }
        }
        r
    }

    /// The extractor produced the header block of connection `conn` on the
    /// node in slot `id`: dispatch it. The callback is invoked exactly when
    /// the slot holds a node that still listens and `conn` is still in
    /// flight; either way that connection is resolved.
    pub fn header_extracted(&mut self, id: usize, conn: u64, block: &[u8]) -> (r: bool)
        requires
            old(self).wf(),
        ensures
            final(self).wf(),
            old(self).slot_live(id as int) ==> {
                &&& r == old(self).node_view(id as int).delivers_to(conn)
                &&& final(self).slot_live(id as int)
                &&& final(self).slots@.len() == old(self).slots@.len()
                &&& (r ==> final(self).node_view(id as int) == old(self).node_view(
                    id as int,
                ).deliver(conn, block@))
                &&& (!r ==> final(self).node_view(id as int) == old(self).node_view(
                    id as int,
                ).close(conn))
                &&& forall|i: int|
                    0 <= i < old(self).slots@.len() && i != id ==> final(self).slots@[i] == old(
                        self,
                    ).slots@[i]
            },
            !old(self).slot_live(id as int) ==> r == false && final(self).slots@ == old(
                self,
            ).slots@,
    {
        if id >= self.slots.len() {
            return false;
        }
        let slot = &mut self.slots[id];
        let r = match slot.node.as_mut() {
            Some(node) => node.header_extracted(conn, block),
            None => false,
        };
        proof {
            if old(self).slot_live(id as int) {
                lemma_views_after_node_step(*old(self), *self, id as int);
            } else {
                assert(self.slots@ =~= old(self).slots@);
            }
        }
        r
    }

    /// Connection `conn` on the node in slot `id` failed extraction: resolve
    /// it without a delivery. The failure stays isolated to that connection.
    pub fn extraction_failed(&mut self, id: usize, conn: u64)
        requires
            old(self).wf(),
        ensures
            final(self).wf(),
            old(self).slot_live(id as int) ==> {
                &&& final(self).slot_live(id as int)
                &&& final(self).slots@.len() == old(self).slots@.len()
                &&& final(self).node_view(id as int) == old(self).node_view(id as int).close(conn)
                &&& forall|i: int|
                    0 <= i < old(self).slots@.len() && i != id ==> final(self).slots@[i] == old(
                        self,
                    ).slots@[i]
            },
            !old(self).slot_live(id as int) ==> final(self).slots@ == old(self).slots@,
    {
        if id >= self.slots.len() {
            return ;
        }
        let slot = &mut self.slots[id];
        match slot.node.as_mut() {
            Some(node) => node.extraction_failed(conn),
            None => {},
        }
        proof {
            if old(self).slot_live(id as int) {
                lemma_views_after_node_step(*old(self), *self, id as int);
            } else {
                assert(self.slots@ =~= old(self).slots@);
            }
        }
    }

    /// Stop a node: tear its context down and hand the callback registration
    /// back. The call drives the node `Listening -> Draining -> Stopped`,
    /// frees its slot (the endpoint can be bound again) and leaves every
    /// other slot untouched. The returned sink's ledger is exactly the
    /// node's: no event is delivered during or after the stop. A handle that
    /// does not refer to a running node — the consistent, documented
    /// behaviour for anything stale — is refused with `ShutdownError` and
    /// the controller is unchanged.
    pub fn stop(&mut self, handle: NodeHandle) -> (r: Result<C, NodeError>)
        requires
            old(self).wf(),
        ensures
            final(self).wf(),
            r is Ok <==> old(self).handle_live(handle),
            r matches Ok(sink) ==> {
                &&& !final(self).handle_live(handle)
                &&& !final(self).slot_live(handle.id as int)
                &&& final(self).slots@.len() == old(self).slots@.len()
                &&& forall|i: int|
                    0 <= i < old(self).slots@.len() && i != handle.id ==> final(self).slots@[i]
                        == old(self).slots@[i]
                &&& sink.events() == old(self).slots@[handle.id as int].node->Some_0.sink.events()
                &&& !final(self).endpoint_bound(
                    old(self).node_view(handle.id as int).host,
                    old(self).node_view(handle.id as int).port,
                )
            },
            r is Err ==> r == Err::<C, NodeError>(NodeError::ShutdownError) && *final(self) == *old(
                self,
            ),
    {
        if handle.id >= self.slots.len() {
            return Err(NodeError::ShutdownError);
        }
        let live = match &self.slots[handle.id].node {
            Some(_) => true,
            None => false,
        };
        if !live || self.slots[handle.id].generation != handle.generation {
            return Err(NodeError::ShutdownError);
        }
        let slot = &mut self.slots[handle.id];
        let taken = slot.node.take();
        match taken {
            Some(mut node) => {
                // Drain, then wait out the accept path, then tear down.
                node.request_stop();
                node.finish_stop();
                // Retire the generation so any copy of this handle's slot
                // index can never match again.
                if slot.generation < u64::MAX {
                    slot.generation = slot.generation + 1;
                }
                proof {
                    lemma_views_after_removal(*old(self), *self, handle.id as int);
                    lemma_stop_releases_endpoint(*old(self), *self, handle.id as int);
                }
                let Node { sink, .. } = node;
                Ok(sink)
            },
            None => Err(NodeError::ShutdownError),
        }
    }
}

/// After the node in slot `at` took one step that kept it listening on its
/// endpoint (every other slot unchanged), the controller invariant holds
/// again.
proof fn lemma_views_after_node_step<C: HeaderSink>(
    pre: NodeRegistry<C>,
    post: NodeRegistry<C>,
    at: int,
)
    requires
        pre.wf(),
        pre.slot_live(at),
        post.slots@.len() == pre.slots@.len(),
        forall|i: int| 0 <= i < pre.slots@.len() && i != at ==> post.slots@[i] == pre.slots@[i],
        post.slot_live(at),
        post.slots@[at].node->Some_0.wf(),
        post.node_view(at).state == LifecycleState::Listening,
        post.node_view(at).host == pre.node_view(at).host,
        post.node_view(at).port == pre.node_view(at).port,
    ensures
        post.wf(),
{
    assert forall|i: int| post.slot_live(i) implies (#[trigger] post.slots@[i]).node->Some_0.wf()
        && post.slots@[i].node->Some_0@.state == LifecycleState::Listening by {
        if i != at {
            assert(pre.slot_live(i));
            assert(pre.slots@[i].node->Some_0.wf());
        }
    }
    assert forall|i: int, j: int|
        #![trigger post.slots@[i], post.slots@[j]]
        post.slot_live(i) && post.slot_live(j) && i != j implies !(post.node_view(i).host
        == post.node_view(j).host && post.node_view(i).port == post.node_view(j).port) by {
        assert(pre.slot_live(i) && pre.slot_live(j));
        assert(post.node_view(i).host == pre.node_view(i).host && post.node_view(i).port
            == pre.node_view(i).port);
        assert(post.node_view(j).host == pre.node_view(j).host && post.node_view(j).port
            == pre.node_view(j).port);
    }
}

/// Law: stopping a node releases its endpoint. Once a node's slot is vacated
/// and every other slot is untouched — what `stop` guarantees — no running
/// node is bound to the stopped node's endpoint any more, so a later `start`
/// on the same address is not refused for it.
pub proof fn lemma_stop_releases_endpoint<C: HeaderSink>(
    pre: NodeRegistry<C>,
    post: NodeRegistry<C>,
    id: int,
)
    requires
        pre.wf(),
        pre.slot_live(id),
        post.slots@.len() == pre.slots@.len(),
        forall|i: int| 0 <= i < pre.slots@.len() && i != id ==> post.slots@[i] == pre.slots@[i],
        !post.slot_live(id),
    ensures
        !post.endpoint_bound(pre.node_view(id).host, pre.node_view(id).port),
{
    let host = pre.node_view(id).host;
    let port = pre.node_view(id).port;
    assert forall|i: int| post.slot_live(i) implies !((#[trigger] post.node_view(i)).host == host
        && post.node_view(i).port == port) by {
        assert(i != id);
        assert(pre.slot_live(i));
        assert(pre.node_view(i) == post.node_view(i));
        assert(pre.node_view(i).host != host || pre.node_view(i).port != port);
    }
}

/// The first vacant slot of the arena, if any.
fn find_vacant<C: HeaderSink>(slots: &Vec<NodeSlot<C>>) -> (r: Option<usize>)
    ensures
        r matches Some(j) ==> j < slots@.len() && slots@[j as int].node is None,
{
    let n = slots.len();
    let mut j: usize = 0;
    while j < n
        invariant
            j <= n,
            n == slots@.len(),
        decreases n - j,
    {
        let vacant = match &slots[j].node {
            Some(_) => false,
            None => true,
        };
        if vacant {
            return Some(j);
        }
        j = j + 1;
    }
    None
}

/// After placing a fresh listening node in slot `at` (every other slot
/// unchanged), the controller invariant holds again.
proof fn lemma_views_after_update<C: HeaderSink>(
    pre: NodeRegistry<C>,
    post: NodeRegistry<C>,
    at: int,
    host: Seq<u8>,
    port: u16,
)
    requires
        pre.wf(),
        0 <= at,
        at < post.slots@.len(),
        pre.slots@.len() <= post.slots@.len() <= pre.slots@.len() + 1,
        at < pre.slots@.len() ==> post.slots@.len() == pre.slots@.len() && !pre.slot_live(at),
        at >= pre.slots@.len() ==> at == pre.slots@.len(),
        forall|i: int| 0 <= i < pre.slots@.len() && i != at ==> post.slots@[i] == pre.slots@[i],
        post.slot_live(at),
        post.slots@[at].node->Some_0.wf(),
        post.node_view(at) == NodeView::initial(host, port).listen(),
        !pre.endpoint_bound(host, port),
    ensures
        post.wf(),
{
    assert forall|i: int| post.slot_live(i) implies (#[trigger] post.slots@[i]).node->Some_0.wf()
        && post.slots@[i].node->Some_0@.state == LifecycleState::Listening by {
        if i != at {
            assert(pre.slot_live(i));
            assert(pre.slots@[i].node->Some_0.wf());
        }
    }
    assert forall|i: int, j: int|
        #![trigger post.slots@[i], post.slots@[j]]
        post.slot_live(i) && post.slot_live(j) && i != j implies !(post.node_view(i).host
        == post.node_view(j).host && post.node_view(i).port == post.node_view(j).port) by {
        if i != at && j != at {
            assert(pre.slot_live(i) && pre.slot_live(j));
            assert(pre.node_view(i) == post.node_view(i));
            assert(pre.node_view(j) == post.node_view(j));
        } else if i == at {
            assert(pre.slot_live(j));
            if post.node_view(j).host == host && post.node_view(j).port == port {
                assert(pre.endpoint_bound(host, port));
            }
        } else {
            assert(pre.slot_live(i));
            if post.node_view(i).host == host && post.node_view(i).port == port {
                assert(pre.endpoint_bound(host, port));
            }
        }
    }
}

/// After vacating slot `at` (every other slot unchanged), the controller
/// invariant holds again.
proof fn lemma_views_after_removal<C: HeaderSink>(
    pre: NodeRegistry<C>,
    post: NodeRegistry<C>,
    at: int,
)
    requires
        pre.wf(),
        post.slots@.len() == pre.slots@.len(),
        forall|i: int| 0 <= i < pre.slots@.len() && i != at ==> post.slots@[i] == pre.slots@[i],
        !post.slot_live(at),
    ensures
        post.wf(),
{
    assert forall|i: int| post.slot_live(i) implies (#[trigger] post.slots@[i]).node->Some_0.wf()
        && post.slots@[i].node->Some_0@.state == LifecycleState::Listening by {
        assert(pre.slot_live(i));
        assert(pre.slots@[i].node->Some_0.wf());
    }
    assert forall|i: int, j: int|
        #![trigger post.slots@[i], post.slots@[j]]
        post.slot_live(i) && post.slot_live(j) && i != j implies !(post.node_view(i).host
        == post.node_view(j).host && post.node_view(i).port == post.node_view(j).port) by {
        assert(pre.slot_live(i) && pre.slot_live(j));
        assert(pre.node_view(i) == post.node_view(i));
        assert(pre.node_view(j) == post.node_view(j));
    }
}

} // verus!
