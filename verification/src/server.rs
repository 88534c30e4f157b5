use vstd::prelude::*;
use vstd::string::StringSliceAdditionalSpecFns;

use crate::command::{Command, CommandModel};
use crate::digits::{dec_repr, is_digit, push_dec};
use crate::frame::{push_all, Frame, FrameModel};
use crate::store::{
    lemma_shared_inv, spec_after_get, spec_expiry, spec_lookup, EntryModel, SharedStore, Store,
};
use vstd::utf8::encode_utf8;

verus! {

/// What this server is: a master with its replication identity, or a
/// replica of the master at the given address. Fixed for the server's
/// lifetime.
#[derive(Debug)]
pub enum Role {
    Master { replication_id: String, replication_offset: u64 },
    Slave { master_host: String, master_port: u16 },
}

/// Mathematical model of a `Role`.
pub enum RoleModel {
    Master { replication_id: Seq<char>, replication_offset: u64 },
    Slave { master_host: Seq<char>, master_port: u16 },
}

impl Role {
    pub open spec fn deep(&self) -> RoleModel {
        match self {
            Role::Master { replication_id, replication_offset } => RoleModel::Master {
                replication_id: replication_id@,
                replication_offset: *replication_offset,
            },
            Role::Slave { master_host, master_port } => RoleModel::Slave {
                master_host: master_host@,
                master_port: *master_port,
            },
        }
    }
}

/// The reply to `INFO`: the master lines, or the single replica line.
pub open spec fn info_text(r: RoleModel) -> Seq<u8> {
    match r {
        RoleModel::Master { replication_id, replication_offset } => ("role:master\n").spec_bytes()
            + ("master_replid:").spec_bytes() + encode_utf8(replication_id) + (
        "\n").spec_bytes() + ("master_repl_offset:").spec_bytes() + dec_repr(
            replication_offset as int,
        ) + ("\n").spec_bytes(),
        RoleModel::Slave { .. } => ("role:slave").spec_bytes(),
    }
}

/// The status line a master answers `PSYNC` with.
pub open spec fn fullresync_text(replication_id: Seq<char>, replication_offset: u64) -> Seq<u8> {
    ("FULLRESYNC ").spec_bytes() + encode_utf8(replication_id) + (" ").spec_bytes() + dec_repr(
        replication_offset as int,
    )
}

pub open spec fn pong_text() -> Seq<u8> {
    ("PONG").spec_bytes()
}

pub open spec fn ok_text() -> Seq<u8> {
    ("OK").spec_bytes()
}

pub open spec fn not_master_text() -> Seq<u8> {
    ("ERR not a master").spec_bytes()
}

/// Value of one hexadecimal digit; any other byte counts as zero.
pub open spec fn hex_val(b: u8) -> u8 {
    if is_digit(b) {
        (b - 48) as u8
    } else if ('a' as u8) <= b <= ('f' as u8) {
        (b - 87) as u8
    } else if ('A' as u8) <= b <= ('F' as u8) {
        (b - 55) as u8
    } else {
        0
    }
}

/// The bytes that consecutive pairs of hexadecimal digits spell; a
/// trailing odd digit is dropped.
pub open spec fn spec_hex_decode(s: Seq<u8>) -> Seq<u8> {
    Seq::new((s.len() / 2) as nat, |i: int| (hex_val(s[2 * i]) * 16 + hex_val(s[2 * i + 1])) as u8)
}

/// The fixed empty snapshot a master sends after `FULLRESYNC`, as
/// hexadecimal text. It is a constant, not a dump of the store.
pub open spec fn snapshot_hex() -> Seq<u8> {
    (
    "524544495330303131fa0972656469732d76657205372e322e30fa0a72656469732d62697473c040fa056374696d65c26d08bc65fa08757365642d6d656dc2b0c41000fa08616f662d62617365c000fff06e3bfec0ff5aa2").spec_bytes()
}

/// The snapshot payload's raw bytes.
pub open spec fn snapshot_payload() -> Seq<u8> {
    spec_hex_decode(snapshot_hex())
}

/// What goes on the wire after the `FULLRESYNC` line: the payload's
/// byte length as decimal text, CRLF, then the raw payload, with no
/// frame around it and no trailing CRLF.
pub open spec fn snapshot_raw() -> Seq<u8> {
    dec_repr(snapshot_payload().len() as int) + seq![13u8, 10u8] + snapshot_payload()
}

/// Decodes hexadecimal text, two digits to a byte.
fn hex_decode_bytes(s: &[u8]) -> (r: Vec<u8>)
    ensures
        r@ == spec_hex_decode(s@),
{
    let mut out: Vec<u8> = Vec::new();
    let n = s.len() / 2;
    let mut i: usize = 0;
    while i < n
        invariant
            n == s@.len() / 2,
            s@.len() <= usize::MAX,
            i <= n,
            out@.len() == i,
            forall|j: int|
                0 <= j < i ==> #[trigger] out@[j] == (hex_val(s@[2 * j]) * 16 + hex_val(
                    s@[2 * j + 1],
                )) as u8,
        decreases n - i,
    {
        proof {
            assert(2 * i + 1 < s@.len());
        }
        let hi = hex_val_exec(s[2 * i]);
        let lo = hex_val_exec(s[2 * i + 1]);
        out.push(hi * 16 + lo);
        i = i + 1;
    }
    proof {
        assert(out@ =~= spec_hex_decode(s@));
    }
    out
}

fn hex_val_exec(b: u8) -> (r: u8)
    ensures
        r == hex_val(b),
        r < 16,
{
    if 48 <= b && b <= 57 {
        b - 48
    } else if 97 <= b && b <= 102 {
        b - 87
    } else if 65 <= b && b <= 70 {
        b - 55
    } else {
        0
    }
}

/// The raw snapshot transfer: length line, then payload.
pub fn snapshot_raw_bytes() -> (r: Vec<u8>)
    ensures
        r@ == snapshot_raw(),
{
    let hex_text =
        "524544495330303131fa0972656469732d76657205372e322e30fa0a72656469732d62697473c040fa056374696d65c26d08bc65fa08757365642d6d656dc2b0c41000fa08616f662d62617365c000fff06e3bfec0ff5aa2";
    let payload = hex_decode_bytes(hex_text.as_bytes());
    let mut out: Vec<u8> = Vec::new();
    push_dec(&mut out, payload.len() as u64);
    out.push(13);
    out.push(10);
    push_all(&mut out, payload.as_slice());
    proof {
        assert(out@ =~= snapshot_raw());
    }
    out
}

/// What the dispatcher tells its caller to put on the wire: one reply
/// frame, or the master-side resynchronization sequence, whose raw
/// part bypasses the frame codec.
#[derive(Debug)]
pub enum DispatchOutcome {
    Reply(Frame),
    FullResync { header: Frame, raw: Vec<u8> },
}

/// Mathematical model of a `DispatchOutcome`.
pub enum DispatchModel {
    Reply(FrameModel),
    FullResync { header: FrameModel, raw: Seq<u8> },
}

impl DispatchOutcome {
    pub open spec fn deep(&self) -> DispatchModel {
        match self {
            DispatchOutcome::Reply(f) => DispatchModel::Reply(f.deep()),
            DispatchOutcome::FullResync { header, raw } => DispatchModel::FullResync {
                header: header.deep(),
                raw: raw@,
            },
        }
    }
}

/// The dispatcher's whole behavior: the outcome of a command, and the
/// store mapping it leaves behind, given the moment `now` of the call.
pub open spec fn spec_dispatch(
    cmd: CommandModel,
    role: RoleModel,
    m: Map<Seq<char>, EntryModel>,
    now: u64,
) -> (DispatchModel, Map<Seq<char>, EntryModel>) {
    match cmd {
        CommandModel::Ping => (DispatchModel::Reply(FrameModel::Bulk(pong_text())), m),
        CommandModel::Echo(b) => (DispatchModel::Reply(FrameModel::Bulk(b)), m),
        CommandModel::Get(k) => (
            DispatchModel::Reply(
                match spec_lookup(m, k, now) {
                    Option::Some(v) => FrameModel::Bulk(v),
                    Option::None => FrameModel::Null,
                },
            ),
            spec_after_get(m, k, now),
        ),
        CommandModel::SetValue { key, value, px } => (
            DispatchModel::Reply(FrameModel::Bulk(ok_text())),
            m.insert(key, EntryModel { value, expiry: spec_expiry(px, now) }),
        ),
        CommandModel::Info => (DispatchModel::Reply(FrameModel::Bulk(info_text(role))), m),
        CommandModel::Replconf => (DispatchModel::Reply(FrameModel::Simple(ok_text())), m),
        CommandModel::Psync => match role {
            RoleModel::Master { replication_id, replication_offset } => (
                DispatchModel::FullResync {
                    header: FrameModel::Simple(
                        fullresync_text(replication_id, replication_offset),
                    ),
                    raw: snapshot_raw(),
                },
                m,
            ),
            RoleModel::Slave { .. } => (
                DispatchModel::Reply(FrameModel::Error(not_master_text())),
                m,
            ),
        },
    }
}

/// Maps each command to its reply and its effect on the store, as of
/// the instant `now`; `PSYNC` on a master yields the resync sequence
/// instead of a single frame.
pub fn handle_command(cmd: Command, role: &Role, store: &mut Store, now: u64) -> (r:
    DispatchOutcome)
    requires
        old(store).wf(),
    ensures
        final(store).wf(),
        r.deep() == spec_dispatch(cmd.deep(), role.deep(), old(store).view(), now).0,
        final(store).view() == spec_dispatch(cmd.deep(), role.deep(), old(store).view(), now).1,
{
    match cmd {
        Command::Ping => {
            let text = vstd::slice::slice_to_vec("PONG".as_bytes());
            DispatchOutcome::Reply(Frame::Bulk(text))
        },
        Command::Echo(b) => DispatchOutcome::Reply(Frame::Bulk(b)),
        Command::Get(key) => {
            match store.get(&key, now) {
                Option::Some(v) => DispatchOutcome::Reply(Frame::Bulk(v)),
                Option::None => DispatchOutcome::Reply(Frame::Null),
            }
        },
        Command::SetValue { key, value, px } => {
            store.set(key, value, px, now);
            let text = vstd::slice::slice_to_vec("OK".as_bytes());
            DispatchOutcome::Reply(Frame::Bulk(text))
        },
        Command::Info => DispatchOutcome::Reply(Frame::Bulk(info_bytes(role))),
        Command::Replconf => {
            let text = vstd::slice::slice_to_vec("OK".as_bytes());
            DispatchOutcome::Reply(Frame::Simple(text))
        },
        Command::Psync => {
            match role {
                Role::Master { replication_id, replication_offset } => {
                    let mut line: Vec<u8> = Vec::new();
                    push_all(&mut line, "FULLRESYNC ".as_bytes());
                    push_all(&mut line, replication_id.as_str().as_bytes());
                    push_all(&mut line, " ".as_bytes());
                    push_dec(&mut line, *replication_offset);
                    DispatchOutcome::FullResync {
                        header: Frame::Simple(line),
                        raw: snapshot_raw_bytes(),
                    }
                },
                Role::Slave { .. } => {
                    let text = vstd::slice::slice_to_vec("ERR not a master".as_bytes());
                    DispatchOutcome::Reply(Frame::Error(text))
                },
            }
        },
    }
}

/// The `INFO` reply's text for this role.
fn info_bytes(role: &Role) -> (r: Vec<u8>)
    ensures
        r@ == info_text(role.deep()),
{
    match role {
        Role::Master { replication_id, replication_offset } => {
            let mut out: Vec<u8> = Vec::new();
            push_all(&mut out, "role:master\n".as_bytes());
            push_all(&mut out, "master_replid:".as_bytes());
            push_all(&mut out, replication_id.as_str().as_bytes());
            push_all(&mut out, "\n".as_bytes());
            push_all(&mut out, "master_repl_offset:".as_bytes());
            push_dec(&mut out, *replication_offset);
            push_all(&mut out, "\n".as_bytes());
            proof {
                assert(out@ =~= info_text(role.deep()));
            }
            out
        },
        Role::Slave { .. } => vstd::slice::slice_to_vec("role:slave".as_bytes()),
    }
}

} // verus!

verus! {

/// The states a replica walks through once at startup, in order,
/// before it serves clients of its own.
#[derive(Debug, PartialEq, Eq, Structural, Clone, Copy)]
pub enum HandshakeState {
    Connecting,
    SentPing,
    SentReplconfPort,
    SentReplconfCapa,
    SentPsync,
    ReceivingSnapshot,
    Ready,
}

/// What the caller must do to advance the handshake: send one frame
/// and read one reply, read the raw snapshot transfer, or nothing.
#[derive(Debug)]
pub enum HandshakeAction {
    Send(Frame),
    ReadSnapshot,
    Done,
}

/// Mathematical model of a `HandshakeAction`.
pub enum HandshakeActionModel {
    Send(FrameModel),
    ReadSnapshot,
    Done,
}

impl HandshakeAction {
    pub open spec fn deep(&self) -> HandshakeActionModel {
        match self {
            HandshakeAction::Send(f) => HandshakeActionModel::Send(f.deep()),
            HandshakeAction::ReadSnapshot => HandshakeActionModel::ReadSnapshot,
            HandshakeAction::Done => HandshakeActionModel::Done,
        }
    }
}

/// A command frame of bulk strings, as the handshake sends.
pub open spec fn bulk_array(parts: Seq<Seq<u8>>) -> FrameModel {
    FrameModel::Array(Seq::new(parts.len(), |i: int| FrameModel::Bulk(parts[i])))
}

/// The handshake's transition function: from each state, the one
/// action to take and the state that follows it. The replica sends
/// `PING`, its listening port, its capabilities, and `PSYNC ? -1`,
/// reading one reply in between, then consumes the raw snapshot.
pub open spec fn spec_handshake_step(state: HandshakeState, port: u16) -> (
    HandshakeActionModel,
    HandshakeState,
) {
    match state {
        HandshakeState::Connecting => (
            HandshakeActionModel::Send(bulk_array(seq![("PING").spec_bytes()])),
            HandshakeState::SentPing,
        ),
        HandshakeState::SentPing => (
            HandshakeActionModel::Send(
                bulk_array(
                    seq![
                        ("REPLCONF").spec_bytes(),
                        ("listening-port").spec_bytes(),
                        dec_repr(port as int),
                    ],
                ),
            ),
            HandshakeState::SentReplconfPort,
        ),
        HandshakeState::SentReplconfPort => (
            HandshakeActionModel::Send(
                bulk_array(
                    seq![("REPLCONF").spec_bytes(), ("capa").spec_bytes(), ("psync2").spec_bytes()],
                ),
            ),
            HandshakeState::SentReplconfCapa,
        ),
        HandshakeState::SentReplconfCapa => (
            HandshakeActionModel::Send(
                bulk_array(seq![("PSYNC").spec_bytes(), ("?").spec_bytes(), ("-1").spec_bytes()]),
            ),
            HandshakeState::SentPsync,
        ),
        HandshakeState::SentPsync => (
            HandshakeActionModel::ReadSnapshot,
            HandshakeState::ReceivingSnapshot,
        ),
        HandshakeState::ReceivingSnapshot => (HandshakeActionModel::Done, HandshakeState::Ready),
        HandshakeState::Ready => (HandshakeActionModel::Done, HandshakeState::Ready),
    }
}

/// One step of the replica-side handshake. The caller performs the
/// action (writing the frame and reading one reply, or reading the
/// raw snapshot) and then calls again with the new state; any
/// transport failure aborts startup.
pub fn handshake_step(state: HandshakeState, port: u16) -> (r: (HandshakeAction, HandshakeState))
    ensures
        r.0.deep() == spec_handshake_step(state, port).0,
        r.1 == spec_handshake_step(state, port).1,
{
    match state {
        HandshakeState::Connecting => {
            let f = Frame::Array(vec![Frame::Bulk(vstd::slice::slice_to_vec("PING".as_bytes()))]);
            proof {
                reveal_deep(&f);
                assert(Seq::new(f->Array_0@.len(), |i: int| f->Array_0@[i]->Bulk_0@) =~= seq![
                    ("PING").spec_bytes(),
                ]);
            }
            (HandshakeAction::Send(f), HandshakeState::SentPing)
        },
        HandshakeState::SentPing => {
            let mut port_text: Vec<u8> = Vec::new();
            push_dec(&mut port_text, port as u64);
            let f = Frame::Array(
                vec![
                    Frame::Bulk(vstd::slice::slice_to_vec("REPLCONF".as_bytes())),
                    Frame::Bulk(vstd::slice::slice_to_vec("listening-port".as_bytes())),
                    Frame::Bulk(port_text),
                ],
            );
            proof {
                reveal_deep(&f);
                assert(Seq::new(f->Array_0@.len(), |i: int| f->Array_0@[i]->Bulk_0@) =~= seq![
                    ("REPLCONF").spec_bytes(),
                    ("listening-port").spec_bytes(),
                    dec_repr(port as int),
                ]);
            }
            (HandshakeAction::Send(f), HandshakeState::SentReplconfPort)
        },
        HandshakeState::SentReplconfPort => {
            let f = Frame::Array(
                vec![
                    Frame::Bulk(vstd::slice::slice_to_vec("REPLCONF".as_bytes())),
                    Frame::Bulk(vstd::slice::slice_to_vec("capa".as_bytes())),
                    Frame::Bulk(vstd::slice::slice_to_vec("psync2".as_bytes())),
                ],
            );
            proof {
                reveal_deep(&f);
                assert(Seq::new(f->Array_0@.len(), |i: int| f->Array_0@[i]->Bulk_0@) =~= seq![
                    ("REPLCONF").spec_bytes(),
                    ("capa").spec_bytes(),
                    ("psync2").spec_bytes(),
                ]);
            }
            (HandshakeAction::Send(f), HandshakeState::SentReplconfCapa)
        },
        HandshakeState::SentReplconfCapa => {
            let f = Frame::Array(
                vec![
                    Frame::Bulk(vstd::slice::slice_to_vec("PSYNC".as_bytes())),
                    Frame::Bulk(vstd::slice::slice_to_vec("?".as_bytes())),
                    Frame::Bulk(vstd::slice::slice_to_vec("-1".as_bytes())),
                ],
            );
            proof {
                reveal_deep(&f);
                assert(Seq::new(f->Array_0@.len(), |i: int| f->Array_0@[i]->Bulk_0@) =~= seq![
                    ("PSYNC").spec_bytes(),
                    ("?").spec_bytes(),
                    ("-1").spec_bytes(),
                ]);
            }
            (HandshakeAction::Send(f), HandshakeState::SentPsync)
        },
        HandshakeState::SentPsync => (
            HandshakeAction::ReadSnapshot,
            HandshakeState::ReceivingSnapshot,
        ),
        HandshakeState::ReceivingSnapshot => (HandshakeAction::Done, HandshakeState::Ready),
        HandshakeState::Ready => (HandshakeAction::Done, HandshakeState::Ready),
    }
}

/// Unfolds the model of a flat array of bulk frames.
proof fn reveal_deep(f: &Frame)
    requires
        f is Array,
        forall|i: int| 0 <= i < f->Array_0@.len() ==> (#[trigger] f->Array_0@[i]) is Bulk,
    ensures
        f.deep() == bulk_array(Seq::new(f->Array_0@.len(), |i: int| f->Array_0@[i]->Bulk_0@)),
{
    let fs = f->Array_0@;
    crate::frame::lemma_deep_seq_index(fs);
    assert forall|i: int| 0 <= i < fs.len() implies Frame::deep_seq(fs)[i] == Seq::new(
        fs.len(),
        |j: int| FrameModel::Bulk(fs[j]->Bulk_0@),
    )[i] by {
        assert(Frame::deep_seq(fs)[i] == fs[i].deep());
        assert(fs[i] is Bulk);
        assert(fs[i].deep() == FrameModel::Bulk(fs[i]->Bulk_0@));
    }
    assert(Frame::deep_seq(fs) =~= Seq::new(fs.len(), |i: int| FrameModel::Bulk(fs[i]->Bulk_0@)));
    let parts = Seq::new(fs.len(), |i: int| fs[i]->Bulk_0@);
    assert(Seq::new(fs.len(), |i: int| FrameModel::Bulk(fs[i]->Bulk_0@)) =~= Seq::new(
        parts.len(),
        |i: int| FrameModel::Bulk(parts[i]),
    ));
}

/// One server instance: its fixed role, its listening port, and the
/// store every connection shares.
pub struct Server {
    pub role: Role,
    pub store: SharedStore,
    pub port: u16,
}

impl Server {
    pub open spec fn wf(&self) -> bool {
        self.store.wf()
    }

    /// A server of the given role with an empty store.
    pub fn new(role: Role, port: u16) -> (s: Server)
        ensures
            s.wf(),
            s.role == role,
            s.port == port,
    {
        Server { role, store: SharedStore::new(), port }
    }

    /// Runs one command against the shared store under its exclusive
    /// boundary, at the instant `now`, and returns what to send. The
    /// outcome is the dispatcher's, for the store state the lock
    /// handed out.
    pub fn dispatch(&self, cmd: Command, now: u64) -> (r: DispatchOutcome)
        requires
            self.wf(),
        ensures
            exists|m: Map<Seq<char>, EntryModel>|
                r.deep() == spec_dispatch(cmd.deep(), self.role.deep(), m, now).0,
    {
        let (mut st, handle) = self.store.lock.acquire_write();
        proof {
            lemma_shared_inv(&self.store, st);
        }
        let ghost m0 = st.view();
        let r = handle_command(cmd, &self.role, &mut st, now);
        proof {
            lemma_shared_inv(&self.store, st);
        }
        handle.release_write(st);
        proof {
            assert(r.deep() == spec_dispatch(cmd.deep(), self.role.deep(), m0, now).0);
        }
        r
    }
}

} // verus!
