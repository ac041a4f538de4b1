use vstd::prelude::*;

use crate::address::Address;
use crate::lifecycle::LifecycleState;
use crate::sink::HeaderSink;

verus! {

/// The mathematical model of one node context: its lifecycle state, the
/// endpoint it is bound to, the connections currently being parsed, the next
/// connection identifier to hand out, and the ledger of header events this
/// node has delivered (the byte spans, and the connection each one was
/// delivered for).
#[verifier::ext_equal]
pub struct NodeView {
    /// Where the node is in `Created -> Listening -> Draining -> Stopped`.
    pub state: LifecycleState,
    /// The host bytes of the bound endpoint.
    pub host: Seq<u8>,
    /// The port of the bound endpoint.
    pub port: u16,
    /// Identifiers of connections accepted and not yet resolved.
    pub in_flight: Seq<u64>,
    /// The identifier the next accepted connection will get.
    pub next_conn: u64,
    /// Every header block this node has delivered, in delivery order.
    pub delivered: Seq<Seq<u8>>,
    /// For each delivered block, the connection it was delivered for.
    pub delivered_conns: Seq<u64>,
}

impl NodeView {
    /// A context fresh out of `start`, before the accept path is armed.
    pub open spec fn initial(host: Seq<u8>, port: u16) -> NodeView {
        NodeView {
            state: LifecycleState::Created,
            host: host,
            port: port,
            in_flight: Seq::empty(),
            next_conn: 0,
            delivered: Seq::empty(),
            delivered_conns: Seq::empty(),
        }
    }

    /// `Created -> Listening`: the accept path is armed.
    pub open spec fn listen(self) -> NodeView {
        NodeView { state: LifecycleState::Listening, ..self }
    }

    /// `Listening -> Draining`: a stop was requested. In-flight extraction is
    /// cancelled immediately: no partial-header delivery happens once a stop
    /// is under way.
    pub open spec fn drain(self) -> NodeView {
        NodeView { state: LifecycleState::Draining, in_flight: Seq::empty(), ..self }
    }

    /// `Draining -> Stopped`: the accept path has fully exited.
    pub open spec fn halt(self) -> NodeView {
        NodeView { state: LifecycleState::Stopped, ..self }
    }

    /// The node may accept a connection: it is listening and has an
    /// identifier left to hand out.
    pub open spec fn accepts(self) -> bool {
        self.state == LifecycleState::Listening && self.next_conn < u64::MAX
    }

    /// One connection is accepted and starts header extraction.
    pub open spec fn accept(self) -> NodeView {
        NodeView {
            in_flight: self.in_flight.push(self.next_conn),
            next_conn: (self.next_conn + 1) as u64,
            ..self
        }
    }

    /// A header event for `conn` would be delivered now: the node still
    /// listens and `conn` is still in flight.
    pub open spec fn delivers_to(self, conn: u64) -> bool {
        self.state == LifecycleState::Listening && self.in_flight.contains(conn)
    }

    /// The header block of `conn` is delivered to the callback and the
    /// connection is resolved.
    pub open spec fn deliver(self, conn: u64, block: Seq<u8>) -> NodeView {
        NodeView {
            in_flight: self.in_flight.remove_value(conn),
            delivered: self.delivered.push(block),
            delivered_conns: self.delivered_conns.push(conn),
            ..self
        }
    }

    /// `conn` is resolved without a delivery: extraction failed or the node
    /// is no longer listening.
    pub open spec fn close(self, conn: u64) -> NodeView {
        NodeView { in_flight: self.in_flight.remove_value(conn), ..self }
    }

    /// The node's internal invariant. Connection identifiers are handed out
    /// once: every identifier in flight or already delivered sits below
    /// `next_conn`, no identifier is in flight twice, and no connection is
    /// delivered twice or while still in flight. Once a stop is under way
    /// nothing is in flight any more.
    pub open spec fn wf(self) -> bool {
        &&& self.in_flight.no_duplicates()
        &&& self.delivered_conns.no_duplicates()
        &&& self.delivered.len() == self.delivered_conns.len()
        &&& forall|c: u64| self.in_flight.contains(c) ==> c < self.next_conn
        &&& forall|c: u64|
            self.delivered_conns.contains(c) ==> c < self.next_conn && !self.in_flight.contains(c)
        &&& (self.state == LifecycleState::Draining || self.state == LifecycleState::Stopped)
            ==> self.in_flight == Seq::<u64>::empty()
    }

    /// The one-step transition relation of the node: everything the accept
    /// path or the controller can do to it.
    pub open spec fn step(self, post: NodeView) -> bool {
        ||| (self.state == LifecycleState::Created && post == self.listen())
        ||| (self.state == LifecycleState::Listening && post == self.drain())
        ||| (self.state == LifecycleState::Draining && post == self.halt())
        ||| (self.accepts() && post == self.accept())
        ||| (exists|conn: u64, block: Seq<u8>|
            self.delivers_to(conn) && post == self.deliver(conn, block))
        ||| (exists|conn: u64| post == self.close(conn))
    }
}

/// Removing one value from a duplicate-free sequence removes it completely
/// and touches nothing else.
proof fn lemma_remove_value_no_dup(s: Seq<u64>, val: u64)
    requires
        s.no_duplicates(),
    ensures
        s.remove_value(val).no_duplicates(),
        !s.remove_value(val).contains(val),
        forall|e: u64| #[trigger] s.remove_value(val).contains(e) ==> s.contains(e),
        forall|e: u64| e != val && s.contains(e) ==> s.remove_value(val).contains(e),
        !s.contains(val) ==> s.remove_value(val) == s,
{
    s.index_of_first_ensures(val);
    match s.index_of_first(val) {
        Some(i) => {
            let r = s.remove(i);
            s.remove_ensures(i);
            assert forall|e: u64| #[trigger] r.contains(e) implies s.contains(e) by {
                let k = choose|k: int| 0 <= k < r.len() && r[k] == e;
                if k < i {
                    assert(s[k] == e);
                } else {
                    assert(s[k + 1] == e);
                }
            }
            assert(!r.contains(val)) by {
                if r.contains(val) {
                    let k = choose|k: int| 0 <= k < r.len() && r[k] == val;
                    if k < i {
                        assert(s[k] == val);
                    } else {
                        assert(s[k + 1] == val);
                    }
                }
            }
            assert forall|e: u64| e != val && s.contains(e) implies r.contains(e) by {
                let k = choose|k: int| 0 <= k < s.len() && s[k] == e;
                if k < i {
                    assert(r[k] == e);
                } else {
                    assert(k != i);
                    assert(r[k - 1] == e);
                }
            }
            assert(r.no_duplicates()) by {
                assert forall|p: int, q: int|
                    0 <= p < r.len() && 0 <= q < r.len() && p != q implies r[p] != r[q] by {
                    let sp: int = if p < i {
                        p
                    } else {
                        p + 1
                    };
                    let sq: int = if q < i {
                        q
                    } else {
                        q + 1
                    };
                    assert(r[p] == s[sp] && r[q] == s[sq]);
                }
            }
        },
        None => {},
    }
}

/// Every transition of the node preserves its internal invariant: the
/// exactly-once delivery ledger and the identifier discipline hold in every
/// reachable state.
pub proof fn lemma_step_preserves_wf(pre: NodeView, post: NodeView)
    requires
        pre.wf(),
        pre.step(post),
    ensures
        post.wf(),
{
    if pre.state == LifecycleState::Listening && post == pre.drain() {
        assert(post.in_flight == Seq::<u64>::empty());
    } else if pre.accepts() && post == pre.accept() {
        let c = pre.next_conn;
        assert(!pre.in_flight.contains(c));
        assert forall|e: u64| #[trigger] post.in_flight.contains(e) implies e < post.next_conn by {
            let k = choose|k: int| 0 <= k < post.in_flight.len() && post.in_flight[k] == e;
            if k < pre.in_flight.len() {
                assert(pre.in_flight.contains(e));
            }
        }
        assert(post.in_flight.no_duplicates()) by {
            assert forall|p: int, q: int|
                0 <= p < post.in_flight.len() && 0 <= q < post.in_flight.len() && p != q
                implies post.in_flight[p] != post.in_flight[q] by {
                if p < pre.in_flight.len() && q < pre.in_flight.len() {
                } else if p < pre.in_flight.len() {
                    assert(pre.in_flight.contains(pre.in_flight[p]));
                } else if q < pre.in_flight.len() {
                    assert(pre.in_flight.contains(pre.in_flight[q]));
                }
            }
        }
        assert forall|e: u64| pre.delivered_conns.contains(e) implies e < post.next_conn
            && !post.in_flight.contains(e) by {
            if post.in_flight.contains(e) {
                let k = choose|k: int| 0 <= k < post.in_flight.len() && post.in_flight[k] == e;
                if k < pre.in_flight.len() {
                    assert(pre.in_flight.contains(e));
                }
            }
        }
    } else if exists|conn: u64, block: Seq<u8>|
        pre.delivers_to(conn) && post == pre.deliver(conn, block) {
        let (conn, block) = choose|conn: u64, block: Seq<u8>|
            pre.delivers_to(conn) && post == pre.deliver(conn, block);
        lemma_remove_value_no_dup(pre.in_flight, conn);
        assert(!pre.delivered_conns.contains(conn));
        assert(post.delivered_conns.no_duplicates()) by {
            assert forall|p: int, q: int|
                0 <= p < post.delivered_conns.len() && 0 <= q < post.delivered_conns.len() && p
                    != q implies post.delivered_conns[p] != post.delivered_conns[q] by {
                if p < pre.delivered_conns.len() && q < pre.delivered_conns.len() {
                } else if p < pre.delivered_conns.len() {
                    assert(pre.delivered_conns.contains(pre.delivered_conns[p]));
                } else if q < pre.delivered_conns.len() {
                    assert(pre.delivered_conns.contains(pre.delivered_conns[q]));
                }
            }
        }
        assert forall|c: u64| #[trigger] post.delivered_conns.contains(c) implies c
            < post.next_conn && !post.in_flight.contains(c) by {
            let k = choose|k: int|
                0 <= k < post.delivered_conns.len() && post.delivered_conns[k] == c;
            if k < pre.delivered_conns.len() {
                assert(pre.delivered_conns.contains(c));
            } else {
                assert(c == conn);
            }
        }
    } else if exists|conn: u64| post == pre.close(conn) {
        let conn = choose|conn: u64| post == pre.close(conn);
        lemma_remove_value_no_dup(pre.in_flight, conn);
        if pre.state == LifecycleState::Draining || pre.state == LifecycleState::Stopped {
            assert(pre.in_flight.remove_value(conn) == pre.in_flight);
        }
    }
}

/// The sequence of states is one legal run of the node: each state steps to
/// the next.
pub open spec fn valid_trace(trace: Seq<NodeView>) -> bool
    decreases trace.len(),
{
    if trace.len() <= 1 {
        true
    } else {
        trace[0].step(trace[1]) && valid_trace(trace.drop_first())
    }
}

/// A freshly created context satisfies the node invariant.
pub proof fn lemma_initial_wf(host: Seq<u8>, port: u16)
    ensures
        NodeView::initial(host, port).wf(),
{
}

/// Every state of a legal run that starts well formed is well formed.
pub proof fn lemma_wf_along_trace(trace: Seq<NodeView>, k: int)
    requires
        trace.len() > 0,
        trace[0].wf(),
        valid_trace(trace),
        0 <= k < trace.len(),
    ensures
        trace[k].wf(),
    decreases k,
{
    if k > 0 {
        lemma_step_preserves_wf(trace[0], trace[1]);
        let rest = trace.drop_first();
        assert(rest[0] == trace[1]);
        assert(rest[k - 1] == trace[k]);
        lemma_wf_along_trace(rest, k - 1);
    }
}

/// Law: never more than one header event per connection, along any legal run
/// of the node from its creation: in every state of the run, two delivery
/// ledger entries for the same connection are the same entry.
pub proof fn lemma_trace_delivers_at_most_once(
    host: Seq<u8>,
    port: u16,
    trace: Seq<NodeView>,
    k: int,
    i: int,
    j: int,
)
    requires
        trace.len() > 0,
        trace[0] == NodeView::initial(host, port),
        valid_trace(trace),
        0 <= k < trace.len(),
        0 <= i < trace[k].delivered_conns.len(),
        0 <= j < trace[k].delivered_conns.len(),
        trace[k].delivered_conns[i] == trace[k].delivered_conns[j],
    ensures
        i == j,
{
    lemma_initial_wf(host, port);
    lemma_wf_along_trace(trace, k);
}

/// Adjacent states of a legal run are related by one step.
proof fn lemma_trace_step(trace: Seq<NodeView>, idx: int)
    requires
        valid_trace(trace),
        0 <= idx < trace.len() - 1,
    ensures
        trace[idx].step(trace[idx + 1]),
    decreases idx,
{
    if idx > 0 {
        let rest = trace.drop_first();
        assert(rest[idx - 1] == trace[idx]);
        assert(rest[idx] == trace[idx + 1]);
        lemma_trace_step(rest, idx - 1);
    }
}

/// Law: a stop is final along any legal run: once some state of the run is
/// `Stopped`, every later state is `Stopped` with the same delivery ledger.
/// No late callback ever fires after a stop has completed.
pub proof fn lemma_trace_no_callback_after_stop(trace: Seq<NodeView>, k: int, m: int)
    requires
        trace.len() > 0,
        trace[0].wf(),
        valid_trace(trace),
        0 <= k <= m < trace.len(),
        trace[k].state == LifecycleState::Stopped,
    ensures
        trace[m].state == LifecycleState::Stopped,
        trace[m].delivered == trace[k].delivered,
    decreases m - k,
{
    if m > k {
        lemma_trace_no_callback_after_stop(trace, k, m - 1);
        lemma_trace_step(trace, m - 1);
        lemma_wf_along_trace(trace, m - 1);
        lemma_no_callback_after_stop(trace[m - 1], trace[m], 0);
    }
}

/// Law: a freshly started node that is stopped straight away walks the whole
/// lifecycle `Created -> Listening -> Draining -> Stopped`, one legal step at
/// a time, and delivers no header event: no connection ever occurred.
pub proof fn lemma_start_then_stop_delivers_nothing(host: Seq<u8>, port: u16)
    ensures
        ({
            let v0 = NodeView::initial(host, port);
            let v1 = v0.listen();
            let v2 = v1.drain();
            let v3 = v2.halt();
            &&& v0.state == LifecycleState::Created
            &&& v1.state == LifecycleState::Listening
            &&& v2.state == LifecycleState::Draining
            &&& v3.state == LifecycleState::Stopped
            &&& v0.state.can_step_to(v1.state)
            &&& v1.state.can_step_to(v2.state)
            &&& v2.state.can_step_to(v3.state)
            &&& v0.step(v1) && v1.step(v2) && v2.step(v3)
            &&& v3.delivered == Seq::<Seq<u8>>::empty()
            &&& v3.wf()
        }),
{
    let v0 = NodeView::initial(host, port);
    lemma_step_preserves_wf(v0, v0.listen());
    lemma_step_preserves_wf(v0.listen(), v0.listen().drain());
    lemma_step_preserves_wf(v0.listen().drain(), v0.listen().drain().halt());
}

/// Law: never more than one header event per connection. The delivery ledger
/// of a well-formed node mentions each connection at most once: two ledger
/// entries for the same connection are the same entry.
pub proof fn lemma_at_most_one_delivery_per_connection(v: NodeView, i: int, j: int)
    requires
        v.wf(),
        0 <= i < v.delivered_conns.len(),
        0 <= j < v.delivered_conns.len(),
        v.delivered_conns[i] == v.delivered_conns[j],
    ensures
        i == j,
{
}

/// Law: once a header event has been delivered for a connection, no later
/// state of the node can deliver to that connection again.
pub proof fn lemma_no_second_delivery(v: NodeView, conn: u64, block: Seq<u8>)
    requires
        v.wf(),
    ensures
        !v.deliver(conn, block).delivers_to(conn),
        !v.close(conn).delivers_to(conn),
{
    lemma_remove_value_no_dup(v.in_flight, conn);
}

/// Does `v` hold `x`?
fn vec_contains(v: &Vec<u64>, x: u64) -> (r: bool)
    ensures
        r == v@.contains(x),
{
    let n = v.len();
    let mut i: usize = 0;
    while i < n
        invariant
            i <= n,
            n == v@.len(),
            forall|k: int| 0 <= k < i ==> v@[k] != x,
        decreases n - i,
    {
        if v[i] == x {
            return true;
        }
        i = i + 1;
    }
    false
}

/// Remove the first occurrence of `x` from `v`, if any.
fn remove_first(v: &mut Vec<u64>, x: u64)
    ensures
        final(v)@ == old(v)@.remove_value(x),
{
    proof {
        old(v)@.index_of_first_ensures(x);
    }
    let n = v.len();
    let mut i: usize = 0;
    while i < n
        invariant
            i <= n,
            n == v@.len(),
            v@ == old(v)@,
            forall|k: int| 0 <= k < i ==> v@[k] != x,
        decreases n - i,
    {
        if v[i] == x {
            proof {
                old(v)@.index_of_first_ensures(x);
                let idx = old(v)@.index_of_first(x);
                assert(old(v)@.contains(x));
                assert(idx matches Some(f) && f == i);
            }
            v.remove(i);
            return ;
        }
        i = i + 1;
    }
    proof {
        assert(!old(v)@.contains(x));
    }
}

/// One running node context: the core state container. It owns the bound
/// address, the lifecycle state, the registered callback and the set of
/// in-flight connections. The surrounding shell reports events to it (a
/// connection accepted, a header block extracted, a stop requested) and obeys
/// the decisions it returns; every guarantee about lifecycle and delivery is
/// proved here, for every interleaving of those events.
///
/// Dispatch is synchronous: the callback is invoked on the accept path, right
/// where `header_extracted` decides the delivery, so a slow callback
/// throttles accept throughput — the deliberate, simple trade-off of this
/// design. With the single accept path, delivery order across connections is
/// dispatch order, and each connection gets at most one event.
pub struct Node<C: HeaderSink> {
    /// The endpoint this node is bound to.
    pub addr: Address,
    /// Where the node is in its lifecycle; the one field both the accept
    /// path and the controller consult.
    pub state: LifecycleState,
    /// The registered callback, fixed for the node's lifetime.
    pub sink: C,
    /// Identifiers of connections accepted and not yet resolved.
    pub in_flight: Vec<u64>,
    /// The identifier the next accepted connection will get.
    pub next_conn: u64,
    /// The callback's event ledger as it stood at registration; everything
    /// after it was delivered by this node.
    pub base: Ghost<Seq<Seq<u8>>>,
    /// For each event this node delivered, the connection it was for.
    pub delivered_conns: Ghost<Seq<u64>>,
}

impl<C: HeaderSink> Node<C> {
    /// The model this context realises.
    pub open spec fn view(&self) -> NodeView {
        NodeView {
            state: self.state,
            host: self.addr.host@,
            port: self.addr.port,
            in_flight: self.in_flight@,
            next_conn: self.next_conn,
            delivered: self.sink.events().skip(self.base@.len() as int),
            delivered_conns: self.delivered_conns@,
        }
    }

    /// The context is well formed: its model satisfies the node invariant
    /// and the callback's ledger extends the one seen at registration.
    pub open spec fn wf(&self) -> bool {
        &&& self@.wf()
        &&& self.base@.is_prefix_of(self.sink.events())
    }

    /// Create a context for a resolved endpoint with its callback
    /// registration. The context starts in `Created`, with no connection and
    /// nothing delivered.
    pub fn new(addr: Address, sink: C) -> (n: Node<C>)
        ensures
            n.wf(),
            n@ == NodeView::initial(addr.host@, addr.port),
            n.sink == sink,
            n.addr == addr,
    {
        let ghost ledger = sink.events();
        let n = Node {
            addr,
            state: LifecycleState::Created,
            sink,
            in_flight: Vec::new(),
            next_conn: 0,
            base: Ghost(ledger),
            delivered_conns: Ghost(Seq::empty()),
        };
        proof {
            assert(n.sink.events().skip(ledger.len() as int) =~= Seq::<Seq<u8>>::empty());
            assert(ledger.is_prefix_of(n.sink.events())) by {
                assert(n.sink.events().subrange(0, ledger.len() as int) =~= ledger);
            }
            assert(n@ =~= NodeView::initial(addr.host@, addr.port));
        }
        n
    }

    /// `Created -> Listening`: arm the accept path. Called by the controller
    /// once the endpoint is bound.
    pub fn start_listening(&mut self)
        requires
            old(self).wf(),
            old(self)@.state == LifecycleState::Created,
        ensures
            final(self).wf(),
            final(self)@ == old(self)@.listen(),
            final(self).sink == old(self).sink,
    {
        self.state = LifecycleState::Listening;
        proof {
            assert(self@ =~= old(self)@.listen());
            lemma_step_preserves_wf(old(self)@, self@);
        }
    }

    /// One inbound connection arrived. If the node is listening it is
    /// accepted and gets a fresh identifier; otherwise it is refused and
    /// `None` says so.
    pub fn accept_connection(&mut self) -> (r: Option<u64>)
        requires
            old(self).wf(),
        ensures
            final(self).wf(),
            r matches Some(c) ==> old(self)@.accepts() && c == old(self)@.next_conn && final(self)@
                == old(self)@.accept(),
            r is None ==> !old(self)@.accepts() && *final(self) == *old(self),
    {
        if !(self.state == LifecycleState::Listening) {
            return None;
        }
        if self.next_conn == u64::MAX {
            return None;
        }
        let c = self.next_conn;
        self.in_flight.push(c);
        self.next_conn = c + 1;
        proof {
            assert(self@ =~= old(self)@.accept());
            lemma_step_preserves_wf(old(self)@, self@);
        }
        Some(c)
    }

    /// The extractor produced the header block of connection `conn`: decide
    /// and perform the dispatch. The block is delivered to the callback
    /// exactly when the node still listens and `conn` is still in flight;
    /// either way the connection is resolved. Returns whether the callback
    /// was invoked.
    pub fn header_extracted(&mut self, conn: u64, block: &[u8]) -> (r: bool)
        requires
            old(self).wf(),
        ensures
            final(self).wf(),
            r == old(self)@.delivers_to(conn),
            r ==> final(self)@ == old(self)@.deliver(conn, block@),
            !r ==> final(self)@ == old(self)@.close(conn),
    {
        let deliver = self.state == LifecycleState::Listening && vec_contains(&self.in_flight, conn);
        remove_first(&mut self.in_flight, conn);
        if deliver {
            self.sink.deliver(block);
            proof {
                self.delivered_conns@ = self.delivered_conns@.push(conn);
            }
            proof {
                assert(self.base@.is_prefix_of(self.sink.events())) by {
                    assert(self.sink.events().subrange(0, self.base@.len() as int)
                        =~= old(self).sink.events().subrange(0, self.base@.len() as int));
                }
                assert(self.sink.events().skip(self.base@.len() as int) =~= old(self).sink.events().skip(
                    self.base@.len() as int,
                ).push(block@));
                assert(self@ =~= old(self)@.deliver(conn, block@));
                lemma_step_preserves_wf(old(self)@, self@);
            }
            true
        } else {
            proof {
                assert(self@ =~= old(self)@.close(conn));
                lemma_step_preserves_wf(old(self)@, self@);
            }
            false
        }
    }

    /// One connection's extraction failed: resolve it without a delivery.
    /// The node keeps listening; the failure is isolated to that connection.
    pub fn extraction_failed(&mut self, conn: u64)
        requires
            old(self).wf(),
        ensures
            final(self).wf(),
            final(self)@ == old(self)@.close(conn),
            final(self).sink == old(self).sink,
    {
        remove_first(&mut self.in_flight, conn);
        proof {
            assert(self@ =~= old(self)@.close(conn));
            lemma_step_preserves_wf(old(self)@, self@);
        }
    }

    /// `Listening -> Draining`: a stop was requested. From here on no
    /// connection is accepted and no header event is delivered; in-flight
    /// extraction is cancelled.
    pub fn request_stop(&mut self)
        requires
            old(self).wf(),
            old(self)@.state == LifecycleState::Listening,
        ensures
            final(self).wf(),
            final(self)@ == old(self)@.drain(),
            final(self).sink == old(self).sink,
    {
        self.state = LifecycleState::Draining;
        self.in_flight.clear();
        proof {
            assert(self@ =~= old(self)@.drain());
            lemma_step_preserves_wf(old(self)@, self@);
        }
    }

    /// `Draining -> Stopped`: the accept path has fully exited and no
    /// callback invocation is in progress any more. Terminal.
    pub fn finish_stop(&mut self)
        requires
            old(self).wf(),
            old(self)@.state == LifecycleState::Draining,
        ensures
            final(self).wf(),
            final(self)@ == old(self)@.halt(),
            final(self).sink == old(self).sink,
    {
        self.state = LifecycleState::Stopped;
        proof {
            assert(self@ =~= old(self)@.halt());
            lemma_step_preserves_wf(old(self)@, self@);
        }
    }

}

/// Law: a stop is final. Once the node is draining or stopped, no connection
/// is accepted and no header event is delivered, and no step out of
/// `Stopped` changes the state or the delivery ledger.
pub proof fn lemma_no_callback_after_stop(v: NodeView, post: NodeView, conn: u64)
    requires
        v.wf(),
        v.state == LifecycleState::Draining || v.state == LifecycleState::Stopped,
    ensures
        !v.accepts(),
        !v.delivers_to(conn),
        v.step(post) && v.state == LifecycleState::Stopped ==> post.state
            == LifecycleState::Stopped && post.delivered == v.delivered,
{
    if v.step(post) && v.state == LifecycleState::Stopped {
        if exists|c: u64| post == v.close(c) {
            let c = choose|c: u64| post == v.close(c);
            lemma_remove_value_no_dup(v.in_flight, c);
            assert(v.in_flight.remove_value(c) == v.in_flight);
        }
    }
}

} // verus!
