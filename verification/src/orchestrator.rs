//! The backup orchestrator: the long-lived controller on each node.
//!
//! It decides the client/server handshake, owns the single live transfer
//! agent slot, and keeps the backup bookkeeping.  Each handler here is a pure
//! decision: it takes the state, one inbound message or local request, and
//! the address of an agent the host stands ready to spawn, and returns the
//! actions the host must perform.  The host performs I/O only as these
//! actions say.
//!
//! The slot holds at most one live agent reference.  No handler overwrites a
//! held reference: a request that needs an agent while one is live is
//! refused as busy, and the slot is cleared only by the matching completion
//! notice.

use vstd::prelude::*;
use crate::messages::{
    Address, BackupRequestResponse, ClientRequest, NodeId, ServerResponse, UiRequest,
    WorkerRequest,
};
use crate::snapshot::join_path;
use vstd::std_specs::cmp::PartialEqSpec;

verus! {

/// The auxiliary services that mirror parts of the configuration.
#[derive(Clone, Copy, Debug, PartialEq, Eq, Hash, Structural)]
pub enum Pkg {
    LLM,
    STT,
    Telegram,
}

/// The credentials a user submits for the auxiliary services.
#[derive(Clone, Debug)]
pub struct ApiKeys {
    pub telegram_key: Option<String>,
    pub openai_key: Option<String>,
    pub groq_key: Option<String>,
}

impl Default for ApiKeys {
    fn default() -> (r: ApiKeys)
        ensures
            r.telegram_key is None,
            r.openai_key is None,
            r.groq_key is None,
    {
        ApiKeys { telegram_key: None, openai_key: None, groq_key: None }
    }
}

/// Index of the entry for `key`, searching from the end; `-1` when absent.
pub open spec fn find_key(m: Seq<(Seq<char>, i64)>, key: Seq<char>) -> int
    decreases m.len(),
{
    if m.len() == 0 {
        -1
    } else if m.last().0 == key {
        m.len() - 1
    } else {
        find_key(m.drop_last(), key)
    }
}

pub proof fn lemma_find_key(m: Seq<(Seq<char>, i64)>, key: Seq<char>)
    ensures
        -1 <= find_key(m, key) < m.len(),
        find_key(m, key) >= 0 ==> m[find_key(m, key)].0 == key,
        find_key(m, key) == -1 ==> forall|i: int|
            0 <= i < m.len() ==> (#[trigger] m[i]).0 != key,
    decreases m.len(),
{
    if m.len() == 0 {
    } else if m.last().0 == key {
    } else {
        lemma_find_key(m.drop_last(), key);
        assert(forall|i: int| 0 <= i < m.len() - 1 ==> m.drop_last()[i] == m[i]);
    }
}

/// The map after `key` is set to `t`: a present entry is updated, an absent
/// one appended.
pub open spec fn put_time(m: Seq<(Seq<char>, i64)>, key: Seq<char>, t: i64) -> Seq<
    (Seq<char>, i64),
> {
    let i = find_key(m, key);
    if i >= 0 {
        m.update(i, (key, t))
    } else {
        m.push((key, t))
    }
}

/// The backup bookkeeping a node persists.
pub struct BackupInfo {
    /// The transient secret, held only between an accepted backup request
    /// and the start of the transfer.
    pub data_password_hash: Option<String>,
    /// For each client ever served: when its backup was last accepted.
    pub backups_time_map: Vec<(String, i64)>,
    /// When this node's own notes were last backed up or retrieved from.
    pub notes_last_backed_up_at: Option<i64>,
    /// The node holding this node's backup, if any.
    pub notes_backup_provider: Option<NodeId>,
}

impl Default for BackupInfo {
    fn default() -> (r: BackupInfo)
        ensures
            r.data_password_hash is None,
            r.times_view() == Seq::<(Seq<char>, i64)>::empty(),
            r.notes_last_backed_up_at is None,
            r.notes_backup_provider is None,
            r.times_wf(),
    {
        let r = BackupInfo {
            data_password_hash: None,
            backups_time_map: Vec::new(),
            notes_last_backed_up_at: None,
            notes_backup_provider: None,
        };
        proof {
            assert(r.times_view() =~= Seq::<(Seq<char>, i64)>::empty());
        }
        r
    }
}

impl BackupInfo {
    /// The time map as the pairs the specifications speak of.
    pub open spec fn times_view(self) -> Seq<(Seq<char>, i64)> {
        self.backups_time_map@.map_values(|e: (String, i64)| (e.0@, e.1))
    }

    /// Well-formed: one entry per client.
    pub open spec fn times_wf(self) -> bool {
        forall|i: int, j: int|
            #![trigger self.times_view()[i], self.times_view()[j]]
            0 <= i < j < self.times_view().len() ==> self.times_view()[i].0
                != self.times_view()[j].0
    }

    /// Index of the entry for `node`, when there is one.
    fn find_node(&self, node: &String) -> (r: Option<usize>)
        ensures
            match r {
                Some(i) => i < self.times_view().len() && find_key(self.times_view(), node@)
                    == i,
                None => find_key(self.times_view(), node@) == -1,
            },
    {
        let n = self.backups_time_map.len();
        let mut i: usize = n;
        while i > 0
            invariant
                i <= n,
                n == self.backups_time_map@.len(),
                forall|j: int| i <= j < n ==> (#[trigger] self.times_view()[j]).0 != node@,
            decreases i,
        {
            if self.backups_time_map[i - 1].0 == *node {
                proof {
                    assert(self.times_view()[i - 1].0 == node@);
                    lemma_find_key_at(self.times_view(), node@, i - 1);
                }
                return Some(i - 1);
            }
            assert(self.times_view()[i - 1].0 != node@);
            i = i - 1;
        }
        proof {
            lemma_find_key(self.times_view(), node@);
            if find_key(self.times_view(), node@) >= 0 {
                assert(self.times_view()[find_key(self.times_view(), node@)].0 == node@);
            }
        }
        None
    }

    /// Record that `node`'s backup was accepted at `now`.
    pub fn record_backup_time(&mut self, node: &String, now: i64)
        requires
            old(self).times_wf(),
        ensures
            final(self).times_view() == put_time(old(self).times_view(), node@, now),
            final(self).times_wf(),
            final(self).data_password_hash == old(self).data_password_hash,
            final(self).notes_last_backed_up_at == old(self).notes_last_backed_up_at,
            final(self).notes_backup_provider == old(self).notes_backup_provider,
    {
        let ghost pre = self.times_view();
        proof {
            lemma_find_key(pre, node@);
        }
        match self.find_node(node) {
            Some(i) => {
                let ghost k = i as int;
                let _ = self.backups_time_map.remove(i);
                self.backups_time_map.insert(i, (node.clone(), now));
                proof {
                    assert(self.times_view() =~= pre.update(k, (node@, now)));
                    lemma_put_time_wf(pre, node@, now);
                }
            },
            None => {
                self.backups_time_map.push((node.clone(), now));
                proof {
                    assert(self.times_view() =~= pre.push((node@, now)));
                    lemma_put_time_wf(pre, node@, now);
                }
            },
        }
    }

    /// When `node`'s backup was last accepted, if ever.
    pub fn backup_time_of(&self, node: &String) -> (r: Option<i64>)
        ensures
            match r {
                Some(t) => {
                    let i = find_key(self.times_view(), node@);
                    i >= 0 && t == self.times_view()[i].1
                },
                None => find_key(self.times_view(), node@) == -1,
            },
    {
        match self.find_node(node) {
            Some(i) => Some(self.backups_time_map[i].1),
            None => None,
        }
    }
}

/// An entry with nothing after it of the same key is the one found.
pub proof fn lemma_find_key_at(m: Seq<(Seq<char>, i64)>, key: Seq<char>, k: int)
    requires
        0 <= k < m.len(),
        m[k].0 == key,
        forall|j: int| k < j < m.len() ==> (#[trigger] m[j]).0 != key,
    ensures
        find_key(m, key) == k,
    decreases m.len(),
{
    if k == m.len() - 1 {
    } else {
        assert(m.last().0 != key);
        assert(forall|i: int| 0 <= i < m.len() - 1 ==> m.drop_last()[i] == m[i]);
        lemma_find_key_at(m.drop_last(), key, k);
    }
}

/// Setting a client's time keeps one entry per client.
pub proof fn lemma_put_time_wf(m: Seq<(Seq<char>, i64)>, key: Seq<char>, t: i64)
    requires
        forall|i: int, j: int|
            #![trigger m[i], m[j]]
            0 <= i < j < m.len() ==> m[i].0 != m[j].0,
    ensures
        forall|i: int, j: int|
            #![trigger put_time(m, key, t)[i], put_time(m, key, t)[j]]
            0 <= i < j < put_time(m, key, t).len() ==> put_time(m, key, t)[i].0 != put_time(
                m,
                key,
                t,
            )[j].0,
{
    let k = find_key(m, key);
    lemma_find_key(m, key);
    let out = put_time(m, key, t);
    if k >= 0 {
        assert forall|i: int, j: int|
            0 <= i < j < out.len() implies #[trigger] out[i].0 != #[trigger] out[j].0 by {
            assert(m[i].0 != m[j].0);
            if i == k {
                assert(out[i].0 == key && key == m[k].0);
            } else if j == k {
                assert(out[j].0 == key && key == m[k].0);
            }
        }
    } else {
        assert forall|i: int, j: int|
            0 <= i < j < out.len() implies #[trigger] out[i].0 != #[trigger] out[j].0 by {
            if j == out.len() - 1 {
                assert(out[i] == m[i]);
                assert(m[i].0 != key);
            }
        }
    }
}

/// The node-wide state the orchestrator persists.
pub struct State {
    pub our: Address,
    pub api_keys: ApiKeys,
    pub backup_info: BackupInfo,
}

impl State {
    pub fn new(our: &Address, api_keys: ApiKeys, backup_info: BackupInfo) -> (s: State)
        ensures
            s.our.node@ == our.node@,
            s.our.process@ == our.process@,
            s.api_keys == api_keys,
            s.backup_info == backup_info,
    {
        State { our: our.clone(), api_keys, backup_info }
    }
}

/// The store drives a node keeps its trees under.
pub struct Paths {
    /// The live document root.
    pub our_files_path: String,
    /// The staging area a decrypted backup is built in.
    pub temp_files_path: String,
    /// The quarantine a retrieved (still encrypted) backup lands in.
    pub retrieved_encrypted_backup_path: String,
    /// Where backups accepted from other nodes are stored, one subdirectory
    /// per client.
    pub encrypted_storage_path: String,
}

/// What a handler asks the host runtime to do, in order.
#[derive(Debug)]
pub enum Action {
    /// Send this request to the named node's orchestrator.
    SendClientRequest { to: NodeId, request: ClientRequest },
    /// Answer the node whose message is being handled.
    Respond { response: ServerResponse },
    /// Hand the freshly spawned agent its job.
    ToWorker { worker: Address, request: WorkerRequest },
    /// Persist the state.
    Save,
    /// Decrypt the quarantined backup with this secret and, only if every
    /// file succeeds, replace the live document root with the result.
    Decrypt { password_hash: String },
}

/// Why a handler refused to act.
#[derive(Clone, Copy, Debug, PartialEq, Eq, Structural)]
pub enum OrchError {
    /// A transfer agent is already live; the request is rejected rather than
    /// overwriting the slot.
    Busy,
}

/// One slot transition is lawful when it never replaces a held reference by
/// a different one: the slot is kept, cleared, or filled from empty.
pub open spec fn slot_step_ok(before: Option<Address>, after: Option<Address>) -> bool {
    before is Some && after is Some ==> after == before
}

/// Single-slot invariant: along any run of handlers, each of which steps the
/// slot lawfully, a reference held at one point and still held later, with
/// the slot never cleared in between, is the same reference the whole time —
/// the orchestrator never holds a second live agent beside it.
pub proof fn lemma_single_slot(trace: Seq<Option<Address>>, a: int, b: int)
    requires
        forall|i: int| 0 <= i < trace.len() - 1 ==> slot_step_ok(#[trigger] trace[i], trace[i + 1]),
        0 <= a <= b < trace.len(),
        forall|i: int| a <= i <= b ==> (#[trigger] trace[i]) is Some,
    ensures
        trace[b] == trace[a],
    decreases b - a,
{
    if a < b {
        assert(slot_step_ok(trace[b - 1], trace[b]));
        lemma_single_slot(trace, a, b - 1);
    }
}

/// Handle a local request: begin a backup, begin a retrieval, or decrypt the
/// retrieved backup.
pub fn handle_ui_backup_request(
    state: &mut State,
    current_worker_address: &mut Option<Address>,
    paths: &Paths,
    req: UiRequest,
    fresh_worker: &Address,
) -> (r: Result<Vec<Action>, OrchError>)
    ensures
        slot_step_ok(*old(current_worker_address), *final(current_worker_address)),
        final(state).our == old(state).our,
        final(state).api_keys == old(state).api_keys,
        final(state).backup_info.backups_time_map == old(state).backup_info.backups_time_map,
        final(state).backup_info.notes_last_backed_up_at == old(
            state,
        ).backup_info.notes_last_backed_up_at,
        final(state).backup_info.notes_backup_provider == old(
            state,
        ).backup_info.notes_backup_provider,
        r matches Err(e) ==> e == OrchError::Busy && *final(state) == *old(state)
            && *final(current_worker_address) == *old(current_worker_address) && (req
            matches UiRequest::BackupRetrieve { .. }) && (*old(current_worker_address)) is Some,
        r is Ok ==> match req {
            UiRequest::BackupRequest { node_id, size, password_hash } => {
                &&& final(state).backup_info.data_password_hash == Some(password_hash)
                &&& *final(current_worker_address) == *old(current_worker_address)
                &&& r->Ok_0@.len() == 2
                &&& r->Ok_0@[0] is Save
                &&& (r->Ok_0@[1] matches Action::SendClientRequest { to, request }
                    && to == node_id && (request matches ClientRequest::BackupRequest { size }
                    && size == 0))
            },
            UiRequest::BackupRetrieve { node_id } => {
                &&& (*old(current_worker_address)) is None
                &&& *final(current_worker_address) == Some(*fresh_worker)
                &&& final(state).backup_info.data_password_hash == old(
                    state,
                ).backup_info.data_password_hash
                &&& r->Ok_0@.len() == 2
                &&& (r->Ok_0@[0] matches Action::SendClientRequest { to, request }
                    && to == node_id && (request matches ClientRequest::BackupRetrieve {
                    worker_address,
                } && worker_address == *fresh_worker))
                &&& (r->Ok_0@[1] matches Action::ToWorker { worker, request } && worker
                    == *fresh_worker && (request
                    matches WorkerRequest::InitializeReceiverWorker { receive_to_dir }
                    && receive_to_dir == paths.retrieved_encrypted_backup_path))
            },
            UiRequest::Decrypt { password_hash } => {
                &&& *final(state) == *old(state)
                &&& *final(current_worker_address) == *old(current_worker_address)
                &&& r->Ok_0@.len() == 1
                &&& (r->Ok_0@[0] matches Action::Decrypt { password_hash: ph } && ph
                    == password_hash)
            },
        },
{
    match req {
        UiRequest::BackupRequest { node_id, size: _, password_hash } => {
            state.backup_info.data_password_hash = Some(password_hash);
            let mut acts: Vec<Action> = Vec::new();
            acts.push(Action::Save);
            acts.push(
                Action::SendClientRequest {
                    to: node_id,
                    request: ClientRequest::BackupRequest { size: 0 },
                },
            );
            Ok(acts)
        },
        UiRequest::BackupRetrieve { node_id } => {
            if current_worker_address.is_some() {
                return Err(OrchError::Busy);
            }
            *current_worker_address = Some(fresh_worker.clone());
            let mut acts: Vec<Action> = Vec::new();
            acts.push(
                Action::SendClientRequest {
                    to: node_id,
                    request: ClientRequest::BackupRetrieve {
                        worker_address: fresh_worker.clone(),
                    },
                },
            );
            acts.push(
                Action::ToWorker {
                    worker: fresh_worker.clone(),
                    request: WorkerRequest::InitializeReceiverWorker {
                        receive_to_dir: paths.retrieved_encrypted_backup_path.clone(),
                    },
                },
            );
            Ok(acts)
        },
        UiRequest::Decrypt { password_hash } => {
            let mut acts: Vec<Action> = Vec::new();
            acts.push(Action::Decrypt { password_hash });
            Ok(acts)
        },
    }
}

/// Handle a request from another node (the server side of the handshake):
/// accept or refuse a backup, or start sending a stored backup back.
pub fn handle_client_request(
    state: &mut State,
    current_worker_address: &mut Option<Address>,
    paths: &Paths,
    from: &NodeId,
    req: ClientRequest,
    fresh_worker: &Address,
    now: i64,
) -> (r: Result<Vec<Action>, OrchError>)
    requires
        old(state).backup_info.times_wf(),
    ensures
        slot_step_ok(*old(current_worker_address), *final(current_worker_address)),
        final(state).backup_info.times_wf(),
        final(state).our == old(state).our,
        final(state).api_keys == old(state).api_keys,
        final(state).backup_info.data_password_hash == old(state).backup_info.data_password_hash,
        final(state).backup_info.notes_last_backed_up_at == old(
            state,
        ).backup_info.notes_last_backed_up_at,
        final(state).backup_info.notes_backup_provider == old(
            state,
        ).backup_info.notes_backup_provider,
        r matches Err(e) ==> e == OrchError::Busy && *final(state) == *old(state)
            && *final(current_worker_address) == *old(current_worker_address) && (req
            matches ClientRequest::BackupRetrieve { .. }) && (*old(current_worker_address))
            is Some,
        r is Ok ==> match req {
            ClientRequest::BackupRequest { size } => {
                if (*old(current_worker_address)) is Some {
                    &&& *final(state) == *old(state)
                    &&& *final(current_worker_address) == *old(current_worker_address)
                    &&& r->Ok_0@.len() == 1
                    &&& (r->Ok_0@[0] matches Action::Respond { response } && (response
                        matches ServerResponse::BackupRequestResponse(br) && br
                        is Decline))
                } else {
                    &&& final(state).backup_info.times_view() == put_time(
                        old(state).backup_info.times_view(),
                        from@,
                        now,
                    )
                    &&& *final(current_worker_address) == Some(*fresh_worker)
                    &&& r->Ok_0@.len() == 3
                    &&& r->Ok_0@[0] is Save
                    &&& (r->Ok_0@[1] matches Action::Respond { response } && (response
                        matches ServerResponse::BackupRequestResponse(br) && (br
                        matches BackupRequestResponse::Confirm { worker_address }
                        && worker_address == *fresh_worker)))
                    &&& (r->Ok_0@[2] matches Action::ToWorker { worker, request } && worker
                        == *fresh_worker && (request
                        matches WorkerRequest::InitializeReceiverWorker { receive_to_dir }
                        && receive_to_dir@ == paths.encrypted_storage_path@ + seq!['/']
                            + from@))
                }
            },
            ClientRequest::BackupRetrieve { worker_address } => {
                &&& (*old(current_worker_address)) is None
                &&& *final(current_worker_address) == Some(*fresh_worker)
                &&& final(state).backup_info.times_view() == old(
                    state,
                ).backup_info.times_view()
                &&& r->Ok_0@.len() == 2
                &&& (r->Ok_0@[0] matches Action::ToWorker { worker, request } && worker
                    == *fresh_worker && (request
                    matches WorkerRequest::InitializeSenderWorker {
                        target_worker,
                        password_hash,
                        sending_from_dir,
                    } && target_worker == worker_address && password_hash is None
                    && sending_from_dir@ == paths.encrypted_storage_path@ + seq!['/']
                        + worker_address.node@))
                &&& (r->Ok_0@[1] matches Action::Respond { response } && (response
                    matches ServerResponse::BackupRetrieveResponse(ts) && ts == (
                    if find_key(old(state).backup_info.times_view(), from@) >= 0 {
                        Some(
                            old(state).backup_info.times_view()[find_key(
                                old(state).backup_info.times_view(),
                                from@,
                            )].1,
                        )
                    } else {
                        None
                    })))
            },
        },
{
    match req {
        ClientRequest::BackupRequest { size: _ } => {
            if current_worker_address.is_some() {
                let mut acts: Vec<Action> = Vec::new();
                acts.push(
                    Action::Respond {
                        response: ServerResponse::BackupRequestResponse(
                            BackupRequestResponse::Decline,
                        ),
                    },
                );
                return Ok(acts);
            }
            state.backup_info.record_backup_time(from, now);
            *current_worker_address = Some(fresh_worker.clone());
            let mut acts: Vec<Action> = Vec::new();
            acts.push(Action::Save);
            acts.push(
                Action::Respond {
                    response: ServerResponse::BackupRequestResponse(
                        BackupRequestResponse::Confirm { worker_address: fresh_worker.clone() },
                    ),
                },
            );
            acts.push(
                Action::ToWorker {
                    worker: fresh_worker.clone(),
                    request: WorkerRequest::InitializeReceiverWorker {
                        receive_to_dir: join_path(paths.encrypted_storage_path.as_str(), from.as_str()),
                    },
                },
            );
            Ok(acts)
        },
        ClientRequest::BackupRetrieve { worker_address } => {
            if current_worker_address.is_some() {
                return Err(OrchError::Busy);
            }
            *current_worker_address = Some(fresh_worker.clone());
            let ts = state.backup_info.backup_time_of(from);
            let mut acts: Vec<Action> = Vec::new();
            let from_dir = join_path(
                paths.encrypted_storage_path.as_str(),
                worker_address.node.as_str(),
            );
            acts.push(
                Action::ToWorker {
                    worker: fresh_worker.clone(),
                    request: WorkerRequest::InitializeSenderWorker {
                        target_worker: worker_address,
                        password_hash: None,
                        sending_from_dir: from_dir,
                    },
                },
            );
            acts.push(
                Action::Respond { response: ServerResponse::BackupRetrieveResponse(ts) },
            );
            Ok(acts)
        },
    }
}

/// Handle a server's answer (the client side of the handshake): on a
/// confirmation, start the sending agent with the transient secret and clear
/// that secret; on a decline, clear it too; on a retrieve answer, record the
/// reported time.
pub fn handle_server_response(
    state: &mut State,
    current_worker_address: &mut Option<Address>,
    paths: &Paths,
    from: &NodeId,
    resp: ServerResponse,
    fresh_worker: &Address,
    now: i64,
) -> (r: Result<Vec<Action>, OrchError>)
    ensures
        slot_step_ok(*old(current_worker_address), *final(current_worker_address)),
        final(state).our == old(state).our,
        final(state).api_keys == old(state).api_keys,
        final(state).backup_info.backups_time_map == old(state).backup_info.backups_time_map,
        r matches Err(e) ==> e == OrchError::Busy && *final(state) == *old(state)
            && *final(current_worker_address) == *old(current_worker_address) && (resp
            matches ServerResponse::BackupRequestResponse(
            BackupRequestResponse::Confirm { .. },
        )) && (*old(current_worker_address)) is Some,
        r is Ok ==> match resp {
            ServerResponse::BackupRetrieveResponse(ts) => {
                &&& final(state).backup_info.notes_last_backed_up_at == ts
                &&& final(state).backup_info.data_password_hash == old(
                    state,
                ).backup_info.data_password_hash
                &&& final(state).backup_info.notes_backup_provider == old(
                    state,
                ).backup_info.notes_backup_provider
                &&& *final(current_worker_address) == *old(current_worker_address)
                &&& r->Ok_0@.len() == 1
                &&& r->Ok_0@[0] is Save
            },
            ServerResponse::BackupRequestResponse(br) => match br {
                BackupRequestResponse::Confirm { worker_address } => {
                    &&& (*old(current_worker_address)) is None
                    &&& *final(current_worker_address) == Some(*fresh_worker)
                    &&& final(state).backup_info.data_password_hash is None
                    &&& final(state).backup_info.notes_last_backed_up_at == Some(now)
                    &&& final(state).backup_info.notes_backup_provider == Some(*from)
                    &&& r->Ok_0@.len() == 2
                    &&& (r->Ok_0@[0] matches Action::ToWorker { worker, request } && worker
                        == *fresh_worker && (request
                        matches WorkerRequest::InitializeSenderWorker {
                            target_worker,
                            password_hash,
                            sending_from_dir,
                        } && target_worker == worker_address && password_hash == old(
                        state,
                    ).backup_info.data_password_hash && sending_from_dir
                        == paths.our_files_path))
                    &&& r->Ok_0@[1] is Save
                },
                BackupRequestResponse::Decline => {
                    &&& final(state).backup_info.data_password_hash is None
                    &&& final(state).backup_info.notes_last_backed_up_at == old(
                        state,
                    ).backup_info.notes_last_backed_up_at
                    &&& final(state).backup_info.notes_backup_provider == old(
                        state,
                    ).backup_info.notes_backup_provider
                    &&& *final(current_worker_address) == *old(current_worker_address)
                    &&& r->Ok_0@.len() == 1
                    &&& r->Ok_0@[0] is Save
                },
            },
        },
{
    match resp {
        ServerResponse::BackupRetrieveResponse(ts) => {
            state.backup_info.notes_last_backed_up_at = ts;
            let mut acts: Vec<Action> = Vec::new();
            acts.push(Action::Save);
            Ok(acts)
        },
        ServerResponse::BackupRequestResponse(br) => match br {
            BackupRequestResponse::Confirm { worker_address } => {
                if current_worker_address.is_some() {
                    return Err(OrchError::Busy);
                }
                *current_worker_address = Some(fresh_worker.clone());
                let secret = state.backup_info.data_password_hash.take();
                let mut acts: Vec<Action> = Vec::new();
                acts.push(
                    Action::ToWorker {
                        worker: fresh_worker.clone(),
                        request: WorkerRequest::InitializeSenderWorker {
                            target_worker: worker_address,
                            password_hash: secret,
                            sending_from_dir: paths.our_files_path.clone(),
                        },
                    },
                );
                acts.push(Action::Save);
                state.backup_info.notes_last_backed_up_at = Some(now);
                state.backup_info.notes_backup_provider = Some(from.clone());
                Ok(acts)
            },
            BackupRequestResponse::Decline => {
                state.backup_info.data_password_hash = None;
                let mut acts: Vec<Action> = Vec::new();
                acts.push(Action::Save);
                Ok(acts)
            },
        },
    }
}


/// Handle the absence of an answer to a backup request: the attempt is
/// reported failed and the transient secret is cleared, exactly as on an
/// explicit decline.
pub fn handle_backup_timeout(state: &mut State) -> (acts: Vec<Action>)
    ensures
        final(state).backup_info.data_password_hash is None,
        final(state).our == old(state).our,
        final(state).api_keys == old(state).api_keys,
        final(state).backup_info.backups_time_map == old(state).backup_info.backups_time_map,
        final(state).backup_info.notes_last_backed_up_at == old(
            state,
        ).backup_info.notes_last_backed_up_at,
        final(state).backup_info.notes_backup_provider == old(
            state,
        ).backup_info.notes_backup_provider,
        acts@.len() == 1,
        acts@[0] is Save,
{
    state.backup_info.data_password_hash = None;
    let mut acts: Vec<Action> = Vec::new();
    acts.push(Action::Save);
    acts
}

/// Handle an agent's completion notice: only the notice of the agent the
/// slot holds clears it; any other is ignored, defensively.
pub fn handle_agent_done(current_worker_address: &mut Option<Address>, source: &Address) -> (matched:
    bool)
    ensures
        slot_step_ok(*old(current_worker_address), *final(current_worker_address)),
        matched == ((*old(current_worker_address)) matches Some(w) && w.eq_spec(source)),
        matched ==> (*final(current_worker_address)) is None,
        !matched ==> *final(current_worker_address) == *old(current_worker_address),
{
    let matched = match &*current_worker_address {
        Some(w) => *w == *source,
        None => false,
    };
    if matched {
        *current_worker_address = None;
    }
    matched
}


} // verus!
