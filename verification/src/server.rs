//! Broadcast server: owns the live client registry and plans each fan-out.
//!
//! The server is the single writer to its registry. The surrounding task
//! waits on the producer's outbound queue and on new connections; it calls
//! [`BroadcastServer::on_accept`] for each accepted connection,
//! [`BroadcastServer::on_producer_message`] for each producer message (after
//! performing the staging write for a `Data` payload), performs the returned
//! fan-out sends, and reports which of them failed through
//! [`BroadcastServer::apply_send_results`], which drops exactly the dead
//! entries. Sessions never reach back into the registry.

use crate::protocol::{Message, MessageModel};
use crate::relay::{relay, spec_staging_path, StagingWriteError};
use vstd::prelude::*;

verus! {

/// Identity of a registered client inside the broadcast server.
pub type ClientId = u64;

/// Mathematical model of the broadcast server: the registered clients in
/// order, the next fresh identity, and the bytes a reader of the staging
/// path observes (`None` before the first staged payload or after a failed
/// write, when no claim holds about the path's content).
pub struct ServerModel {
    pub clients: Seq<ClientId>,
    pub next_id: ClientId,
    pub staging: Option<Seq<u8>>,
}

/// What one producer message turns into: the server afterwards, and the
/// message handed to every then-registered client — `None` when the staging
/// write failed and the whole cycle is abandoned.
pub open spec fn spec_broadcast(s: ServerModel, m: MessageModel, write_ok: bool) -> (
    ServerModel,
    Option<(MessageModel, Seq<ClientId>)>,
) {
    match m {
        MessageModel::Data(b) => if write_ok {
            (
                ServerModel { clients: s.clients, next_id: s.next_id, staging: Some(b) },
                Some((MessageModel::DataLocation(spec_staging_path()), s.clients)),
            )
        } else {
            (ServerModel { clients: s.clients, next_id: s.next_id, staging: None }, None)
        },
        _ => (s, Some((m, s.clients))),
    }
}

/// The registry that survives a fan-out pass: exactly the entries whose send
/// succeeded, in their old order.
pub open spec fn spec_prune(clients: Seq<ClientId>, results: Seq<bool>) -> Seq<ClientId>
    decreases clients.len(),
{
    if clients.len() == 0 {
        Seq::empty()
    } else {
        let rest = spec_prune(clients.skip(1), results.skip(1));
        if results[0] {
            seq![clients[0]] + rest
        } else {
            rest
        }
    }
}

/// One fan-out pass: the message to send and the clients to send it to.
#[derive(Clone, Debug)]
pub struct FanoutPlan {
    /// The message every target receives; never a raw `Data` payload.
    pub message: Message,
    /// The identities of the clients to send to, oldest first.
    pub targets: Vec<ClientId>,
}

/// The broadcast server's registry state.
pub struct BroadcastServer {
    clients: Vec<ClientId>,
    next_id: ClientId,
    staging: Ghost<Option<Seq<u8>>>,
}

impl View for BroadcastServer {
    type V = ServerModel;

    closed spec fn view(&self) -> ServerModel {
        ServerModel { clients: self.clients@, next_id: self.next_id, staging: self.staging@ }
    }
}

/// Client identities are handed out in increasing order and never reused.
pub open spec fn registry_wf(s: ServerModel) -> bool {
    &&& forall|t1: int, t2: int|
        0 <= t1 < t2 < s.clients.len() ==> #[trigger] s.clients[t1] < #[trigger] s.clients[t2]
    &&& forall|t: int| 0 <= t < s.clients.len() ==> #[trigger] s.clients[t] < s.next_id
}

/// Appending at the end extends the pruned registry by the new entry when
/// its send succeeded.
proof fn lemma_prune_push(clients: Seq<ClientId>, results: Seq<bool>, x: ClientId, b: bool)
    requires
        clients.len() == results.len(),
    ensures
        spec_prune(clients.push(x), results.push(b)) == if b {
            spec_prune(clients, results).push(x)
        } else {
            spec_prune(clients, results)
        },
    decreases clients.len(),
{
    if clients.len() == 0 {
        assert(clients.push(x) =~= seq![x]);
        assert(results.push(b) =~= seq![b]);
        assert(seq![x].skip(1) =~= Seq::<ClientId>::empty());
        assert(seq![b].skip(1) =~= Seq::<bool>::empty());
        reveal_with_fuel(spec_prune, 2);
        if b {
            assert(spec_prune(clients.push(x), results.push(b)) =~= spec_prune(
                clients,
                results,
            ).push(x));
        }
    } else {
        assert(clients.push(x).skip(1) =~= clients.skip(1).push(x));
        assert(results.push(b).skip(1) =~= results.skip(1).push(b));
        lemma_prune_push(clients.skip(1), results.skip(1), x, b);
        if b {
            if results[0] {
                assert(spec_prune(clients.push(x), results.push(b)) =~= spec_prune(
                    clients,
                    results,
                ).push(x));
            }
        }
    }
}

/// A pruned registry holds an identity exactly when some surviving entry
/// held it.
proof fn lemma_prune_membership(clients: Seq<ClientId>, results: Seq<bool>, y: ClientId)
    requires
        clients.len() == results.len(),
    ensures
        spec_prune(clients, results).contains(y) <==> exists|i: int|
            0 <= i < clients.len() && clients[i] == y && results[i],
    decreases clients.len(),
{
    if clients.len() == 0 {
    } else {
        lemma_prune_membership(clients.skip(1), results.skip(1), y);
        let pruned = spec_prune(clients, results);
        let rest = spec_prune(clients.skip(1), results.skip(1));
        if pruned.contains(y) {
            if results[0] && clients[0] == y {
                assert(clients[0] == y && results[0]);
            } else {
                if results[0] {
                    let k = choose|k: int| 0 <= k < pruned.len() && pruned[k] == y;
                    if k == 0 {
                        assert(clients[0] == y && results[0]);
                    } else {
                        assert(rest[k - 1] == y);
                        assert(rest.contains(y));
                    }
                } else {
                    assert(rest.contains(y));
                }
                if rest.contains(y) {
                    let i = choose|i: int|
                        0 <= i < clients.skip(1).len() && clients.skip(1)[i] == y && results.skip(
                            1,
                        )[i];
                    assert(clients[i + 1] == y && results[i + 1]);
                }
            }
        }
        if exists|i: int| 0 <= i < clients.len() && clients[i] == y && results[i] {
            let i = choose|i: int| 0 <= i < clients.len() && clients[i] == y && results[i];
            if i == 0 {
                assert(pruned[0] == y);
                assert(pruned.contains(y));
            } else {
                assert(clients.skip(1)[i - 1] == y && results.skip(1)[i - 1]);
                assert(rest.contains(y));
                let k = choose|k: int| 0 <= k < rest.len() && rest[k] == y;
                if results[0] {
                    assert(pruned[k + 1] == y);
                } else {
                    assert(pruned[k] == y);
                }
                assert(pruned.contains(y));
            }
        }
    }
}

/// Pruning keeps the registry well formed: the survivors stay in increasing
/// order and below the same bound.
proof fn lemma_prune_props(clients: Seq<ClientId>, results: Seq<bool>, bound: ClientId)
    requires
        clients.len() == results.len(),
        forall|t1: int, t2: int|
            0 <= t1 < t2 < clients.len() ==> #[trigger] clients[t1] < #[trigger] clients[t2],
        forall|t: int| 0 <= t < clients.len() ==> #[trigger] clients[t] < bound,
    ensures
        forall|t1: int, t2: int|
            0 <= t1 < t2 < spec_prune(clients, results).len() ==> #[trigger] spec_prune(
                clients,
                results,
            )[t1] < #[trigger] spec_prune(clients, results)[t2],
        forall|t: int|
            0 <= t < spec_prune(clients, results).len() ==> #[trigger] spec_prune(
                clients,
                results,
            )[t] < bound,
        forall|t: int|
            0 <= t < spec_prune(clients, results).len() ==> clients.contains(
                #[trigger] spec_prune(clients, results)[t],
            ),
    decreases clients.len(),
{
    if clients.len() == 0 {
    } else {
        assert(forall|t1: int, t2: int|
            0 <= t1 < t2 < clients.skip(1).len() ==> #[trigger] clients.skip(1)[t1]
                < #[trigger] clients.skip(1)[t2]);
        assert(forall|t: int| 0 <= t < clients.skip(1).len() ==> #[trigger] clients.skip(1)[t] < bound);
        lemma_prune_props(clients.skip(1), results.skip(1), bound);
        let pruned = spec_prune(clients, results);
        let rest = spec_prune(clients.skip(1), results.skip(1));
        assert forall|t: int| 0 <= t < rest.len() implies clients[0] < rest[t] by {
            assert(clients.skip(1).contains(rest[t]));
            let k = choose|k: int| 0 <= k < clients.skip(1).len() && clients.skip(1)[k] == rest[t];
            assert(clients[k + 1] == rest[t]);
        }
        assert forall|t: int| 0 <= t < pruned.len() implies clients.contains(#[trigger] pruned[t]) by {
            if results[0] && t == 0 {
                assert(pruned[0] == clients[0]);
            } else {
                let u = if results[0] {
                    t - 1
                } else {
                    t
                };
                assert(rest[u] == pruned[t]);
                assert(clients.skip(1).contains(rest[u]));
                let k = choose|k: int|
                    0 <= k < clients.skip(1).len() && clients.skip(1)[k] == rest[u];
                assert(clients[k + 1] == pruned[t]);
            }
        }
    }
}

impl BroadcastServer {
    /// Whether the registry is well formed.
    pub open spec fn wf(&self) -> bool {
        registry_wf(self@)
    }

    /// A fresh server: no clients, no staged payload.
    pub fn new() -> (s: Self)
        ensures
            s.wf(),
            s@.clients == Seq::<ClientId>::empty(),
            s@.next_id == 0,
            s@.staging is None,
    {
        BroadcastServer { clients: Vec::new(), next_id: 0, staging: Ghost(None) }
    }

    /// How many clients are registered.
    pub fn client_count(&self) -> (n: usize)
        ensures
            n == self@.clients.len(),
    {
        self.clients.len()
    }

    /// Whether a fresh client identity is still available.
    pub fn can_accept(&self) -> (r: bool)
        ensures
            r == (self@.next_id < ClientId::MAX),
    {
        self.next_id < ClientId::MAX
    }

    /// Registers one accepted connection: a fresh identity is appended to
    /// the registry and returned; the caller spawns the session for it.
    pub fn on_accept(&mut self) -> (id: ClientId)
        requires
            old(self).wf(),
            old(self)@.next_id < ClientId::MAX,
        ensures
            final(self).wf(),
            id == old(self)@.next_id,
            final(self)@.clients == old(self)@.clients.push(id),
            final(self)@.next_id == old(self)@.next_id + 1,
            final(self)@.staging == old(self)@.staging,
    {
        let id = self.next_id;
        self.clients.push(id);
        self.next_id = self.next_id + 1;
        proof {
            let oc = old(self)@.clients;
            let nc = self@.clients;
            assert(nc =~= oc.push(id));
            assert forall|t1: int, t2: int| 0 <= t1 < t2 < nc.len() implies #[trigger] nc[t1]
                < #[trigger] nc[t2] by {
                if t2 < oc.len() {
                    assert(oc[t1] < oc[t2]);
                } else {
                    assert(nc[t1] == oc[t1]);
                    assert(oc[t1] < id);
                }
            }
            assert forall|t: int| 0 <= t < nc.len() implies #[trigger] nc[t] < self@.next_id by {
                if t < oc.len() {
                    assert(oc[t] < id);
                }
            }
        }
        id
    }

    /// Handles one producer message, after the caller performed the staging
    /// write for a `Data` payload and reports its outcome in
    /// `staging_write_ok` (`true` for any other message). Returns the
    /// fan-out plan for the then-current registry, or [`StagingWriteError`]
    /// exactly when a `Data` payload's staging write failed — that cycle is
    /// abandoned for every client and the registry is untouched.
    pub fn on_producer_message(&mut self, m: Message, staging_write_ok: bool) -> (r: Result<
        FanoutPlan,
        StagingWriteError,
    >)
        requires
            old(self).wf(),
        ensures
            final(self).wf(),
            final(self)@ == spec_broadcast(old(self)@, m@, staging_write_ok).0,
            match r {
                Ok(plan) => spec_broadcast(old(self)@, m@, staging_write_ok).1 == Some(
                    (plan.message@, plan.targets@),
                ) && crate::wire_safe(plan.message@),
                Err(e) => spec_broadcast(old(self)@, m@, staging_write_ok).1 is None && e
                    == StagingWriteError,
            },
            r is Err <==> (m@ is Data && !staging_write_ok),
    {
        match m {
            Message::Data(bytes) => {
                match relay(staging_write_ok) {
                    Ok(pointer) => {
                        proof {
                            self.staging@ = Some(bytes@);
                        }
                        let targets = self.registry_copy();
                        Ok(FanoutPlan { message: pointer, targets })
                    },
                    Err(e) => {
                        proof {
                            self.staging@ = None;
                        }
                        Err(e)
                    },
                }
            },
            other => {
                let targets = self.registry_copy();
                Ok(FanoutPlan { message: other, targets })
            },
        }
    }

    /// A copy of the registry, oldest client first.
    fn registry_copy(&self) -> (r: Vec<ClientId>)
        ensures
            r@ == self@.clients,
    {
        let mut out: Vec<ClientId> = Vec::new();
        let mut i: usize = 0;
        while i < self.clients.len()
            invariant
                i <= self.clients.len(),
                out@ == self.clients@.take(i as int),
            decreases self.clients.len() - i,
        {
            out.push(self.clients[i]);
            proof {
                assert(self.clients@.take(i as int).push(self.clients@[i as int])
                    =~= self.clients@.take(i as int + 1));
            }
            i += 1;
        }
        proof {
            assert(self.clients@.take(self.clients@.len() as int) =~= self.clients@);
        }
        out
    }

    /// Records the outcome of one fan-out pass: `results[k]` says whether
    /// the send to the `k`-th planned target succeeded. Every entry whose
    /// send failed is dropped from the registry; all others stay, in order.
    pub fn apply_send_results(&mut self, results: &Vec<bool>)
        requires
            old(self).wf(),
            results@.len() == old(self)@.clients.len(),
        ensures
            final(self).wf(),
            final(self)@.clients == spec_prune(old(self)@.clients, results@),
            final(self)@.next_id == old(self)@.next_id,
            final(self)@.staging == old(self)@.staging,
    {
        let ghost old_clients = self.clients@;
        let mut kept: Vec<ClientId> = Vec::new();
        let mut i: usize = 0;
        while i < self.clients.len()
            invariant
                i <= self.clients.len(),
                self.clients@ == old_clients,
                results@.len() == old_clients.len(),
                kept@ == spec_prune(old_clients.take(i as int), results@.take(i as int)),
            decreases self.clients.len() - i,
        {
            proof {
                assert(old_clients.take(i as int).push(old_clients[i as int]) =~= old_clients.take(
                    i as int + 1,
                ));
                assert(results@.take(i as int).push(results@[i as int]) =~= results@.take(
                    i as int + 1,
                ));
                lemma_prune_push(
                    old_clients.take(i as int),
                    results@.take(i as int),
                    old_clients[i as int],
                    results@[i as int],
                );
            }
            if results[i] {
                kept.push(self.clients[i]);
            }
            i += 1;
        }
        proof {
            assert(old_clients.take(old_clients.len() as int) =~= old_clients);
            assert(results@.take(results@.len() as int) =~= results@);
        }
        self.clients = kept;
        proof {
            lemma_prune_props(old_clients, results@, old(self)@.next_id);
        }
    }
}

/// A completed `Data` broadcast reaches the whole registry: every registered
/// client is a target of the fan-out, the message each one receives is the
/// `DataLocation` pointer to the staging path, and the staging path then
/// holds exactly the payload bytes, so a client that reads the path on
/// receipt observes the frame that was broadcast.
pub proof fn lemma_data_broadcast_reaches_all(s: ServerModel, b: Seq<u8>, k: int)
    requires
        0 <= k < s.clients.len(),
    ensures
        spec_broadcast(s, MessageModel::Data(b), true).1 matches Some(out) && out.0
            == MessageModel::DataLocation(spec_staging_path()) && out.1 == s.clients
            && out.1.contains(s.clients[k]),
        spec_broadcast(s, MessageModel::Data(b), true).0.staging == Some(b),
        spec_broadcast(s, MessageModel::Data(b), true).0.clients == s.clients,
{
    assert(s.clients.contains(s.clients[k]));
}

/// A client whose send failed is gone from the registry by the next
/// broadcast cycle, and every client whose send succeeded is still there:
/// pruning after a fan-out removes exactly the failed entries.
pub proof fn lemma_failed_send_removes_client(
    clients: Seq<ClientId>,
    results: Seq<bool>,
    i: int,
)
    requires
        clients.len() == results.len(),
        forall|t1: int, t2: int|
            0 <= t1 < t2 < clients.len() ==> #[trigger] clients[t1] < #[trigger] clients[t2],
        0 <= i < clients.len(),
    ensures
        !results[i] ==> !spec_prune(clients, results).contains(clients[i]),
        results[i] ==> spec_prune(clients, results).contains(clients[i]),
{
    lemma_prune_membership(clients, results, clients[i]);
    if !results[i] {
        if spec_prune(clients, results).contains(clients[i]) {
            let j = choose|j: int| 0 <= j < clients.len() && clients[j] == clients[i] && results[j];
            assert(j != i);
            if j < i {
                assert(clients[j] < clients[i]);
            } else {
                assert(clients[i] < clients[j]);
            }
            assert(false);
        }
    }
}

} // verus!
