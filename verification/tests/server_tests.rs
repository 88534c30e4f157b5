use std::sync::Arc;

use redis::command::Command;
use redis::frame::Frame;
use redis::server::{
    handshake_step, DispatchOutcome, HandshakeAction, HandshakeState, Role, Server,
};
use redis::store::SharedStore;

const REPL_ID: &str = "8371b4fb1155b71f4a04d3e1bc3e18c4a990aeeb";

const EMPTY_RDB_HEX: &str = "524544495330303131fa0972656469732d76657205372e322e30fa0a72656469732d62697473c040fa056374696d65c26d08bc65fa08757365642d6d656dc2b0c41000fa08616f662d62617365c000fff06e3bfec0ff5aa2";

fn master() -> Role {
    Role::Master {
        replication_id: REPL_ID.to_string(),
        replication_offset: 0,
    }
}

fn replica() -> Role {
    Role::Slave {
        master_host: "127.0.0.1".to_string(),
        master_port: 6379,
    }
}

fn reply(outcome: DispatchOutcome) -> Frame {
    match outcome {
        DispatchOutcome::Reply(f) => f,
        DispatchOutcome::FullResync { .. } => panic!("expected a single reply frame"),
    }
}

#[test]
fn ping_and_echo_replies() {
    let server = Server::new(master(), 6379);
    assert_eq!(
        reply(server.dispatch(Command::Ping, 0)),
        Frame::Bulk(b"PONG".to_vec())
    );
    assert_eq!(
        reply(server.dispatch(Command::Echo(b"hey".to_vec()), 0)),
        Frame::Bulk(b"hey".to_vec())
    );
    assert_eq!(
        reply(server.dispatch(Command::Replconf, 0)),
        Frame::Simple(b"OK".to_vec())
    );
}

#[test]
fn set_get_through_the_dispatcher() {
    let server = Server::new(master(), 6379);
    let set = Command::SetValue {
        key: "k".to_string(),
        value: b"v".to_vec(),
        px: None,
    };
    assert_eq!(reply(server.dispatch(set, 1000)), Frame::Bulk(b"OK".to_vec()));
    assert_eq!(
        reply(server.dispatch(Command::Get("k".to_string()), 1000)),
        Frame::Bulk(b"v".to_vec())
    );
    assert_eq!(
        reply(server.dispatch(Command::Get("other".to_string()), 1000)),
        Frame::Null
    );
}

#[test]
fn expired_set_reads_back_as_null() {
    let server = Server::new(master(), 6379);
    let set = Command::SetValue {
        key: "k".to_string(),
        value: b"v".to_vec(),
        px: Some(0),
    };
    server.dispatch(set, 1000);
    assert_eq!(
        reply(server.dispatch(Command::Get("k".to_string()), 1001)),
        Frame::Null
    );
}

#[test]
fn info_names_the_role() {
    let server = Server::new(master(), 6379);
    let f = reply(server.dispatch(Command::Info, 0));
    let text = match f {
        Frame::Bulk(b) => b,
        other => panic!("INFO replied {:?}", other),
    };
    let text = String::from_utf8(text).unwrap();
    assert!(text.contains("role:master"));
    assert_eq!(
        text,
        format!(
            "role:master\nmaster_replid:{}\nmaster_repl_offset:0\n",
            REPL_ID
        )
    );

    let server = Server::new(replica(), 6380);
    let f = reply(server.dispatch(Command::Info, 0));
    let text = match f {
        Frame::Bulk(b) => String::from_utf8(b).unwrap(),
        other => panic!("INFO replied {:?}", other),
    };
    assert!(text.contains("role:slave"));
    assert_eq!(text, "role:slave");
}

#[test]
fn psync_on_a_master_sends_the_snapshot() {
    let server = Server::new(master(), 6379);
    match server.dispatch(Command::Psync, 0) {
        DispatchOutcome::FullResync { header, raw } => {
            let line = format!("FULLRESYNC {} 0", REPL_ID);
            assert_eq!(header, Frame::Simple(line.into_bytes()));

            // the raw transfer is the payload length, CRLF, then the
            // payload itself, with no frame around it
            let payload = hex::decode(EMPTY_RDB_HEX).unwrap();
            let mut expected = payload.len().to_string().into_bytes();
            expected.extend_from_slice(b"\r\n");
            expected.extend_from_slice(&payload);
            assert_eq!(raw, expected);
        },
        DispatchOutcome::Reply(f) => panic!("expected a resync, got {:?}", f),
    }
}

#[test]
fn psync_on_a_replica_is_refused() {
    let server = Server::new(replica(), 6380);
    assert_eq!(
        reply(server.dispatch(Command::Psync, 0)),
        Frame::Error(b"ERR not a master".to_vec())
    );
}

fn sent_frame(action: HandshakeAction) -> Frame {
    match action {
        HandshakeAction::Send(f) => f,
        other => panic!("expected a frame to send, got {:?}", other),
    }
}

#[test]
fn handshake_sends_the_fixed_sequence() {
    let port = 6380u16;
    let mut state = HandshakeState::Connecting;

    let (action, next) = handshake_step(state, port);
    assert_eq!(sent_frame(action).serialize(), b"*1\r\n$4\r\nPING\r\n");
    assert_eq!(next, HandshakeState::SentPing);
    state = next;

    let (action, next) = handshake_step(state, port);
    assert_eq!(
        sent_frame(action).serialize(),
        b"*3\r\n$8\r\nREPLCONF\r\n$14\r\nlistening-port\r\n$4\r\n6380\r\n"
    );
    assert_eq!(next, HandshakeState::SentReplconfPort);
    state = next;

    let (action, next) = handshake_step(state, port);
    assert_eq!(
        sent_frame(action).serialize(),
        b"*3\r\n$8\r\nREPLCONF\r\n$4\r\ncapa\r\n$6\r\npsync2\r\n"
    );
    assert_eq!(next, HandshakeState::SentReplconfCapa);
    state = next;

    let (action, next) = handshake_step(state, port);
    assert_eq!(
        sent_frame(action).serialize(),
        b"*3\r\n$5\r\nPSYNC\r\n$1\r\n?\r\n$2\r\n-1\r\n"
    );
    assert_eq!(next, HandshakeState::SentPsync);
    state = next;

    let (action, next) = handshake_step(state, port);
    assert!(matches!(action, HandshakeAction::ReadSnapshot));
    assert_eq!(next, HandshakeState::ReceivingSnapshot);
    state = next;

    let (action, next) = handshake_step(state, port);
    assert!(matches!(action, HandshakeAction::Done));
    assert_eq!(next, HandshakeState::Ready);
}

#[test]
fn concurrent_sets_on_distinct_keys_all_persist() {
    let store = Arc::new(SharedStore::new());
    let runtime = tokio::runtime::Builder::new_multi_thread()
        .worker_threads(4)
        .build()
        .unwrap();

    runtime.block_on(async {
        let mut tasks = Vec::new();
        for i in 0..32u32 {
            let store = Arc::clone(&store);
            tasks.push(tokio::spawn(async move {
                let key = format!("key-{}", i);
                let value = format!("value-{}", i).into_bytes();
                store.set(key, value, None, 0);
            }));
        }
        for task in tasks {
            task.await.unwrap();
        }
    });

    for i in 0..32u32 {
        let key = format!("key-{}", i);
        let expected = format!("value-{}", i).into_bytes();
        assert_eq!(store.get(&key, 0), Some(expected));
    }
}
