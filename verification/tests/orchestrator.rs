use command_center::messages::{
    Address, BackupRequestResponse, ClientRequest, ServerResponse, UiRequest, WorkerRequest,
};
use command_center::orchestrator::{
    handle_agent_done, handle_client_request, handle_server_response, handle_ui_backup_request,
    Action, ApiKeys, BackupInfo, OrchError, Paths, State,
};
use command_center::prompts::rag_instruction;

fn addr(node: &str, process: &str) -> Address {
    Address { node: node.to_string(), process: process.to_string() }
}

fn test_paths() -> Paths {
    Paths {
        our_files_path: "command_center/files".to_string(),
        temp_files_path: "command_center/files_temp".to_string(),
        retrieved_encrypted_backup_path: "command_center/retrieved_encrypted_backup".to_string(),
        encrypted_storage_path: "command_center/encrypted_storage".to_string(),
    }
}

fn fresh_state() -> State {
    State::new(&addr("us.os", "main"), ApiKeys::default(), BackupInfo::default())
}

#[test]
fn backup_request_stores_transient_secret() {
    let mut state = fresh_state();
    let mut slot: Option<Address> = None;
    let req = UiRequest::BackupRequest {
        node_id: "server.os".to_string(),
        size: 0,
        password_hash: "pw1".to_string(),
    };
    let acts =
        handle_ui_backup_request(&mut state, &mut slot, &test_paths(), req, &addr("us.os", "w1"))
            .unwrap();
    assert_eq!(state.backup_info.data_password_hash, Some("pw1".to_string()));
    assert!(slot.is_none());
    assert_eq!(acts.len(), 2);
    assert!(matches!(acts[0], Action::Save));
    match &acts[1] {
        Action::SendClientRequest { to, request } => {
            assert_eq!(to, "server.os");
            assert!(matches!(request, ClientRequest::BackupRequest { size: 0 }));
        },
        _ => panic!("expected a client request"),
    }
}

#[test]
fn retrieve_spawns_receiver_into_empty_slot() {
    let mut state = fresh_state();
    let mut slot: Option<Address> = None;
    let worker = addr("us.os", "w1");
    let req = UiRequest::BackupRetrieve { node_id: "server.os".to_string() };
    let acts =
        handle_ui_backup_request(&mut state, &mut slot, &test_paths(), req, &worker).unwrap();
    assert_eq!(slot, Some(worker.clone()));
    assert_eq!(acts.len(), 2);
    match &acts[1] {
        Action::ToWorker { worker: w, request } => {
            assert_eq!(*w, worker);
            match request {
                WorkerRequest::InitializeReceiverWorker { receive_to_dir } => {
                    assert_eq!(receive_to_dir, "command_center/retrieved_encrypted_backup");
                },
                _ => panic!("expected a receiver job"),
            }
        },
        _ => panic!("expected a worker job"),
    }
}

#[test]
fn retrieve_is_rejected_while_an_agent_is_live() {
    let mut state = fresh_state();
    let held = addr("us.os", "w0");
    let mut slot: Option<Address> = Some(held.clone());
    let req = UiRequest::BackupRetrieve { node_id: "server.os".to_string() };
    let r = handle_ui_backup_request(&mut state, &mut slot, &test_paths(), req, &addr(
        "us.os", "w1",
    ));
    assert_eq!(r.unwrap_err(), OrchError::Busy);
    assert_eq!(slot, Some(held));
}

#[test]
fn decrypt_request_becomes_a_decrypt_action() {
    let mut state = fresh_state();
    let mut slot: Option<Address> = None;
    let req = UiRequest::Decrypt { password_hash: "pw1".to_string() };
    let acts =
        handle_ui_backup_request(&mut state, &mut slot, &test_paths(), req, &addr("us.os", "w1"))
            .unwrap();
    assert_eq!(acts.len(), 1);
    match &acts[0] {
        Action::Decrypt { password_hash } => assert_eq!(password_hash, "pw1"),
        _ => panic!("expected a decrypt action"),
    }
}

#[test]
fn server_accepts_backup_and_records_time() {
    let mut state = fresh_state();
    let mut slot: Option<Address> = None;
    let worker = addr("us.os", "w1");
    let from = "alice.os".to_string();
    let acts = handle_client_request(
        &mut state,
        &mut slot,
        &test_paths(),
        &from,
        ClientRequest::BackupRequest { size: 7 },
        &worker,
        42,
    )
    .unwrap();
    assert_eq!(slot, Some(worker.clone()));
    assert_eq!(state.backup_info.backup_time_of(&from), Some(42));
    assert_eq!(acts.len(), 3);
    match &acts[1] {
        Action::Respond { response } => match response {
            ServerResponse::BackupRequestResponse(BackupRequestResponse::Confirm {
                worker_address,
            }) => assert_eq!(*worker_address, worker),
            _ => panic!("expected a confirmation"),
        },
        _ => panic!("expected a response"),
    }
    match &acts[2] {
        Action::ToWorker { request, .. } => match request {
            WorkerRequest::InitializeReceiverWorker { receive_to_dir } => {
                assert_eq!(receive_to_dir, "command_center/encrypted_storage/alice.os");
            },
            _ => panic!("expected a receiver job"),
        },
        _ => panic!("expected a worker job"),
    }
}

#[test]
fn busy_server_declines_and_records_nothing() {
    let mut state = fresh_state();
    let held = addr("us.os", "w0");
    let mut slot: Option<Address> = Some(held.clone());
    let from = "alice.os".to_string();
    let acts = handle_client_request(
        &mut state,
        &mut slot,
        &test_paths(),
        &from,
        ClientRequest::BackupRequest { size: 7 },
        &addr("us.os", "w1"),
        42,
    )
    .unwrap();
    assert_eq!(slot, Some(held));
    assert_eq!(state.backup_info.backup_time_of(&from), None);
    assert_eq!(acts.len(), 1);
    match &acts[0] {
        Action::Respond { response } => {
            assert!(matches!(
                response,
                ServerResponse::BackupRequestResponse(BackupRequestResponse::Decline)
            ));
        },
        _ => panic!("expected a decline"),
    }
}

#[test]
fn recording_the_same_client_twice_keeps_one_entry() {
    let mut info = BackupInfo::default();
    let alice = "alice.os".to_string();
    info.record_backup_time(&alice, 1);
    info.record_backup_time(&alice, 2);
    info.record_backup_time(&"bob.os".to_string(), 3);
    assert_eq!(info.backups_time_map.len(), 2);
    assert_eq!(info.backup_time_of(&alice), Some(2));
    assert_eq!(info.backup_time_of(&"bob.os".to_string()), Some(3));
}

#[test]
fn server_answers_retrieve_with_stored_time() {
    let mut state = fresh_state();
    let from = "alice.os".to_string();
    state.backup_info.record_backup_time(&from, 42);
    let mut slot: Option<Address> = None;
    let worker = addr("us.os", "w1");
    let client_worker = addr("alice.os", "w9");
    let acts = handle_client_request(
        &mut state,
        &mut slot,
        &test_paths(),
        &from,
        ClientRequest::BackupRetrieve { worker_address: client_worker.clone() },
        &worker,
        50,
    )
    .unwrap();
    assert_eq!(slot, Some(worker));
    assert_eq!(acts.len(), 2);
    match &acts[0] {
        Action::ToWorker { request, .. } => match request {
            WorkerRequest::InitializeSenderWorker {
                target_worker,
                password_hash,
                sending_from_dir,
            } => {
                assert_eq!(*target_worker, client_worker);
                assert!(password_hash.is_none());
                assert_eq!(sending_from_dir, "command_center/encrypted_storage/alice.os");
            },
            _ => panic!("expected a sender job"),
        },
        _ => panic!("expected a worker job"),
    }
    match &acts[1] {
        Action::Respond { response } => match response {
            ServerResponse::BackupRetrieveResponse(ts) => assert_eq!(*ts, Some(42)),
            _ => panic!("expected a retrieve response"),
        },
        _ => panic!("expected a response"),
    }
}

#[test]
fn confirmation_starts_sender_and_clears_secret() {
    let mut state = fresh_state();
    state.backup_info.data_password_hash = Some("pw1".to_string());
    let mut slot: Option<Address> = None;
    let worker = addr("us.os", "w1");
    let server_worker = addr("server.os", "w7");
    let from = "server.os".to_string();
    let acts = handle_server_response(
        &mut state,
        &mut slot,
        &test_paths(),
        &from,
        ServerResponse::BackupRequestResponse(BackupRequestResponse::Confirm {
            worker_address: server_worker.clone(),
        }),
        &worker,
        99,
    )
    .unwrap();
    assert_eq!(slot, Some(worker));
    assert_eq!(state.backup_info.data_password_hash, None);
    assert_eq!(state.backup_info.notes_last_backed_up_at, Some(99));
    assert_eq!(state.backup_info.notes_backup_provider, Some(from));
    assert_eq!(acts.len(), 2);
    match &acts[0] {
        Action::ToWorker { request, .. } => match request {
            WorkerRequest::InitializeSenderWorker {
                target_worker,
                password_hash,
                sending_from_dir,
            } => {
                assert_eq!(*target_worker, server_worker);
                assert_eq!(*password_hash, Some("pw1".to_string()));
                assert_eq!(sending_from_dir, "command_center/files");
            },
            _ => panic!("expected a sender job"),
        },
        _ => panic!("expected a worker job"),
    }
}

#[test]
fn decline_clears_the_transient_secret() {
    let mut state = fresh_state();
    state.backup_info.data_password_hash = Some("pw1".to_string());
    let mut slot: Option<Address> = None;
    let acts = handle_server_response(
        &mut state,
        &mut slot,
        &test_paths(),
        &"server.os".to_string(),
        ServerResponse::BackupRequestResponse(BackupRequestResponse::Decline),
        &addr("us.os", "w1"),
        99,
    )
    .unwrap();
    assert_eq!(state.backup_info.data_password_hash, None);
    assert!(slot.is_none());
    assert_eq!(acts.len(), 1);
}

#[test]
fn retrieve_response_records_reported_time() {
    let mut state = fresh_state();
    let mut slot: Option<Address> = None;
    let _ = handle_server_response(
        &mut state,
        &mut slot,
        &test_paths(),
        &"server.os".to_string(),
        ServerResponse::BackupRetrieveResponse(Some(1234)),
        &addr("us.os", "w1"),
        99,
    )
    .unwrap();
    assert_eq!(state.backup_info.notes_last_backed_up_at, Some(1234));
}

#[test]
fn matching_done_clears_the_slot() {
    let worker = addr("us.os", "w1");
    let mut slot: Option<Address> = Some(worker.clone());
    assert!(handle_agent_done(&mut slot, &worker));
    assert!(slot.is_none());
}

#[test]
fn stray_done_is_ignored() {
    let worker = addr("us.os", "w1");
    let mut slot: Option<Address> = Some(worker.clone());
    assert!(!handle_agent_done(&mut slot, &addr("us.os", "w2")));
    assert_eq!(slot, Some(worker.clone()));
    let mut empty: Option<Address> = None;
    assert!(!handle_agent_done(&mut empty, &worker));
    assert!(empty.is_none());
}

#[test]
fn rag_instruction_embeds_prompt_and_index() {
    let r = rag_instruction("What is chunking?", "https://example.test/a");
    let expected = format!(
        "\n    Given this initial prompt: \n    {}\n\n    And this context: \n    {}\n\n    Provide a list of all the links that you would like to inspect to get better knowledge and context. Pick as many as necessary, but no more. If no links are relevant, just return an empty list, it's common not to have to return any links.\n    Make sure to stricly answer in the form of a json list of strings. This list is going to get parsed, so any wrong answer, including pre or post amble will ruin it. \n    ",
        "What is chunking?", "https://example.test/a"
    );
    assert_eq!(r, expected);
}

#[test]
fn timeout_clears_the_transient_secret() {
    let mut state = fresh_state();
    state.backup_info.data_password_hash = Some("pw1".to_string());
    let acts = command_center::orchestrator::handle_backup_timeout(&mut state);
    assert_eq!(state.backup_info.data_password_hash, None);
    assert_eq!(acts.len(), 1);
    assert!(matches!(acts[0], Action::Save));
}
