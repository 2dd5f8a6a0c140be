//! The command interpreter: turns a decoded frame into a request, and a
//! request into a reply and its effect on the keyspace.
use vstd::prelude::*;
use vstd::string::StringSliceAdditionalSpecFns;
use crate::codec::{
    all_digits, append_bytes, bulk, crlf, digits_value, encode_frame, encode_reply, encode_request,
    frame_at_start, frame_fits, frame_view, is_digit, lemma_value_prefix, null_bulk, simple_line,
    Reply,
};
use crate::identity::{fullresync_text, info_text, ServerIdentity};
use crate::store::{after_read, after_write, read_model, EntryModel, Keyspace};

verus! {

/// ASCII upper case folded to lower case.
pub open spec fn fold_byte(b: u8) -> u8 {
    if 65 <= b <= 90 {
        (b + 32) as u8
    } else {
        b
    }
}

pub open spec fn fold(s: Seq<u8>) -> Seq<u8> {
    s.map_values(|b: u8| fold_byte(b))
}

/// Whether `s` is the lower-case word `w`, ignoring ASCII case.
pub fn matches_word(s: &[u8], w: &[u8]) -> (r: bool)
    ensures
        r == (fold(s@) == w@),
{
    if s.len() != w.len() {
        return false;
    }
    let mut i: usize = 0;
    while i < s.len()
        invariant
            s@.len() == w@.len(),
            i <= s@.len(),
            forall|j: int| 0 <= j < i ==> fold_byte(s@[j]) == w@[j],
        decreases s@.len() - i,
    {
        let b = s[i];
        let f = if 65 <= b && b <= 90 {
            b + 32
        } else {
            b
        };
        if f != w[i] {
            assert(fold(s@)[i as int] != w@[i as int]);
            return false;
        }
        i = i + 1;
    }
    assert(fold(s@) =~= w@);
    true
}

/// The value of a millisecond count written as decimal digits, if it fits
/// in 64 bits.
pub open spec fn millis_of(s: Seq<u8>) -> Option<u64> {
    if s.len() >= 1 && all_digits(s) && digits_value(s) <= u64::MAX {
        Some(digits_value(s) as u64)
    } else {
        None
    }
}

/// Reads a millisecond count written as decimal digits.
pub fn parse_millis(s: &[u8]) -> (r: Option<u64>)
    ensures
        r == millis_of(s@),
{
    if s.len() == 0 {
        return None;
    }
    let mut i: usize = 0;
    let mut acc: u64 = 0;
    while i < s.len()
        invariant
            i <= s@.len(),
            all_digits(s@.subrange(0, i as int)),
            acc == digits_value(s@.subrange(0, i as int)),
        decreases s@.len() - i,
    {
        let ghost t = s@.subrange(0, i as int);
        let ghost t1 = s@.subrange(0, i + 1);
        assert(t1.drop_last() =~= t);
        let b = s[i];
        if b < 48 || b > 57 {
            assert(!is_digit(s@[i as int]));
            return None;
        }
        assert(all_digits(t1)) by {
            assert forall|k: int| 0 <= k < t1.len() implies is_digit(#[trigger] t1[k]) by {
                if k < t.len() {
                    assert(t1[k] == t[k]);
                }
            }
        }
        let d: u64 = (b - 48) as u64;
        if acc > (u64::MAX - d) / 10 {
            proof {
                assert(digits_value(t1) > u64::MAX) by (nonlinear_arith)
                    requires
                        digits_value(t1) == acc * 10 + d,
                        acc > (u64::MAX - d) / 10,
                        d <= 9,
                ;
                if all_digits(s@) {
                    lemma_value_prefix(s@, i + 1);
                }
            }
            return None;
        }
        assert(acc * 10 + d <= u64::MAX) by (nonlinear_arith)
            requires
                acc <= (u64::MAX - d) / 10,
                d <= 9,
        ;
        acc = acc * 10 + d;
        i = i + 1;
    }
    assert(s@.subrange(0, i as int) =~= s@);
    Some(acc)
}

/// A request, as the interpreter sees it.
pub enum Request {
    Ping,
    Echo(Seq<u8>),
    SetKey { key: Seq<u8>, value: Seq<u8>, px: Option<u64> },
    GetKey(Seq<u8>),
    Info,
    ReplConf,
    Psync,
}

/// Why a frame is no request.
pub enum Fault {
    /// A frame with no elements.
    Empty,
    /// A name that is no command; the name as sent.
    Unknown(Seq<u8>),
    /// A known command with the wrong number of arguments; the name as sent.
    WrongArity(Seq<u8>),
    /// SET with an option other than PX.
    Syntax,
    /// A PX argument that is no millisecond count.
    NotAnInteger,
}

pub open spec fn is_named(f: Seq<Seq<u8>>, w: &str) -> bool {
    f.len() >= 1 && fold(f[0]) == w.spec_bytes()
}

/// The request that a frame makes, or why it makes none. Command names are
/// compared without regard to ASCII case.
pub open spec fn request_of(f: Seq<Seq<u8>>) -> Result<Request, Fault> {
    if f.len() == 0 {
        Err(Fault::Empty)
    } else if is_named(f, "ping") {
        if f.len() == 1 {
            Ok(Request::Ping)
        } else {
            Err(Fault::WrongArity(f[0]))
        }
    } else if is_named(f, "echo") {
        if f.len() == 2 {
            Ok(Request::Echo(f[1]))
        } else {
            Err(Fault::WrongArity(f[0]))
        }
    } else if is_named(f, "set") {
        if f.len() == 3 {
            Ok(Request::SetKey { key: f[1], value: f[2], px: None })
        } else if f.len() == 5 {
            if fold(f[3]) != "px".spec_bytes() {
                Err(Fault::Syntax)
            } else if millis_of(f[4]) is None {
                Err(Fault::NotAnInteger)
            } else {
                Ok(Request::SetKey { key: f[1], value: f[2], px: millis_of(f[4]) })
            }
        } else {
            Err(Fault::WrongArity(f[0]))
        }
    } else if is_named(f, "get") {
        if f.len() == 2 {
            Ok(Request::GetKey(f[1]))
        } else {
            Err(Fault::WrongArity(f[0]))
        }
    } else if is_named(f, "info") {
        Ok(Request::Info)
    } else if is_named(f, "replconf") {
        Ok(Request::ReplConf)
    } else if is_named(f, "psync") {
        Ok(Request::Psync)
    } else {
        Err(Fault::Unknown(f[0]))
    }
}

/// A decoded request, ready to run.
#[derive(Debug, PartialEq, Eq)]
pub enum Command {
    Ping,
    Echo(Vec<u8>),
    SetKey { key: Vec<u8>, value: Vec<u8>, px: Option<u64> },
    GetKey(Vec<u8>),
    Info,
    ReplConf,
    Psync,
}

/// Why a frame could not be turned into a command.
#[derive(Debug, PartialEq, Eq)]
pub enum CommandError {
    Empty,
    Unknown(Vec<u8>),
    WrongArity(Vec<u8>),
    Syntax,
    NotAnInteger,
}

impl Command {
    pub open spec fn view(&self) -> Request {
        match self {
            Command::Ping => Request::Ping,
            Command::Echo(m) => Request::Echo(m@),
            Command::SetKey { key, value, px } => Request::SetKey { key: key@, value: value@, px: *px },
            Command::GetKey(k) => Request::GetKey(k@),
            Command::Info => Request::Info,
            Command::ReplConf => Request::ReplConf,
            Command::Psync => Request::Psync,
        }
    }
}

impl CommandError {
    pub open spec fn view(&self) -> Fault {
        match self {
            CommandError::Empty => Fault::Empty,
            CommandError::Unknown(n) => Fault::Unknown(n@),
            CommandError::WrongArity(n) => Fault::WrongArity(n@),
            CommandError::Syntax => Fault::Syntax,
            CommandError::NotAnInteger => Fault::NotAnInteger,
        }
    }
}

pub open spec fn parsed_view(r: Result<Command, CommandError>) -> Result<Request, Fault> {
    match r {
        Ok(c) => Ok(c@),
        Err(e) => Err(e@),
    }
}

fn clone_bytes(v: &Vec<u8>) -> (r: Vec<u8>)
    ensures
        r@ == v@,
{
    let mut out: Vec<u8> = Vec::new();
    append_bytes(&mut out, v.as_slice());
    out
}

/// Turns a decoded frame into a command.
pub fn parse_command(frame: &Vec<Vec<u8>>) -> (r: Result<Command, CommandError>)
    ensures
        parsed_view(r) == request_of(frame_view(frame@)),
{
    let ghost f = frame_view(frame@);
    if frame.len() == 0 {
        return Err(CommandError::Empty);
    }
    assert(f[0] == frame@[0]@);
    let n = frame.len();
    let name = frame[0].as_slice();
    if matches_word(name, "ping".as_bytes()) {
        if n == 1 {
            Ok(Command::Ping)
        } else {
            Err(CommandError::WrongArity(clone_bytes(&frame[0])))
        }
    } else if matches_word(name, "echo".as_bytes()) {
        if n == 2 {
            assert(f[1] == frame@[1]@);
            Ok(Command::Echo(clone_bytes(&frame[1])))
        } else {
            Err(CommandError::WrongArity(clone_bytes(&frame[0])))
        }
    } else if matches_word(name, "set".as_bytes()) {
        if n == 3 || n == 5 {
            assert(f[1] == frame@[1]@);
            assert(f[2] == frame@[2]@);
            let px = if n == 5 {
                assert(f[3] == frame@[3]@);
                assert(f[4] == frame@[4]@);
                if !matches_word(frame[3].as_slice(), "px".as_bytes()) {
                    return Err(CommandError::Syntax);
                }
                match parse_millis(frame[4].as_slice()) {
                    Some(t) => Some(t),
                    None => {
                        return Err(CommandError::NotAnInteger);
                    },
                }
            } else {
                None
            };
            Ok(Command::SetKey { key: clone_bytes(&frame[1]), value: clone_bytes(&frame[2]), px })
        } else {
            Err(CommandError::WrongArity(clone_bytes(&frame[0])))
        }
    } else if matches_word(name, "get".as_bytes()) {
        if n == 2 {
            assert(f[1] == frame@[1]@);
            Ok(Command::GetKey(clone_bytes(&frame[1])))
        } else {
            Err(CommandError::WrongArity(clone_bytes(&frame[0])))
        }
    } else if matches_word(name, "info".as_bytes()) {
        Ok(Command::Info)
    } else if matches_word(name, "replconf".as_bytes()) {
        Ok(Command::ReplConf)
    } else if matches_word(name, "psync".as_bytes()) {
        Ok(Command::Psync)
    } else {
        Err(CommandError::Unknown(clone_bytes(&frame[0])))
    }
}

/// The wire form of the reply to a request, given the keyspace, the
/// identity and the clock reading when it runs.
pub open spec fn reply_wire(req: Request, m: Map<Seq<u8>, EntryModel>, id: ServerIdentity, now: u64) -> Seq<u8> {
    match req {
        Request::Ping => simple_line("PONG".spec_bytes()),
        Request::Echo(x) => bulk(x),
        Request::SetKey { .. } => simple_line("OK".spec_bytes()),
        Request::GetKey(k) => match read_model(m, k, now) {
            Some(v) => bulk(v),
            None => null_bulk(),
        },
        Request::Info => bulk(info_text(id)),
        Request::ReplConf => simple_line("OK".spec_bytes()),
        Request::Psync => simple_line(fullresync_text(id)),
    }
}

/// The keyspace after a request runs.
pub open spec fn store_after(req: Request, m: Map<Seq<u8>, EntryModel>, now: u64) -> Map<Seq<u8>, EntryModel> {
    match req {
        Request::SetKey { key, value, px } => after_write(m, key, value, px, now),
        Request::GetKey(k) => after_read(m, k, now),
        _ => m,
    }
}

/// The text of the error reply for a fault.
pub open spec fn fault_text(f: Fault) -> Seq<u8> {
    match f {
        Fault::Empty => "ERR empty command".spec_bytes(),
        Fault::Unknown(n) => "ERR unknown command '".spec_bytes() + n + "'".spec_bytes(),
        Fault::WrongArity(n) => "ERR wrong number of arguments for '".spec_bytes() + n
            + "' command".spec_bytes(),
        Fault::Syntax => "ERR syntax error".spec_bytes(),
        Fault::NotAnInteger => "ERR value is not an integer or out of range".spec_bytes(),
    }
}

/// `-<text>\r\n`
pub open spec fn error_wire(f: Fault) -> Seq<u8> {
    seq![45u8] + fault_text(f) + crlf()
}

/// Runs a command on the keyspace at clock reading `now`.
pub fn execute(cmd: Command, store: &mut Keyspace, id: &ServerIdentity, now: u64) -> (r: Reply)
    requires
        old(store).wf(),
    ensures
        final(store).wf(),
        r.wire() == reply_wire(cmd@, old(store)@, *id, now),
        final(store)@ == store_after(cmd@, old(store)@, now),
{
    match cmd {
        Command::Ping => {
            let mut t: Vec<u8> = Vec::new();
            append_bytes(&mut t, "PONG".as_bytes());
            Reply::Simple(t)
        },
        Command::Echo(m) => Reply::Bulk(m),
        Command::SetKey { key, value, px } => {
            store.set(key, value, px, now);
            let mut t: Vec<u8> = Vec::new();
            append_bytes(&mut t, "OK".as_bytes());
            Reply::Simple(t)
        },
        Command::GetKey(k) => match store.get(k.as_slice(), now) {
            Some(v) => Reply::Bulk(v),
            None => Reply::Null,
        },
        Command::Info => Reply::Bulk(id.info()),
        Command::ReplConf => {
            let mut t: Vec<u8> = Vec::new();
            append_bytes(&mut t, "OK".as_bytes());
            Reply::Simple(t)
        },
        Command::Psync => Reply::Simple(id.fullresync()),
    }
}

/// The error reply for a frame that is no command.
pub fn error_reply(e: &CommandError) -> (r: Reply)
    ensures
        r.wire() == error_wire(e@),
{
    let mut t: Vec<u8> = Vec::new();
    match e {
        CommandError::Empty => append_bytes(&mut t, "ERR empty command".as_bytes()),
        CommandError::Unknown(n) => {
            append_bytes(&mut t, "ERR unknown command '".as_bytes());
            append_bytes(&mut t, n.as_slice());
            append_bytes(&mut t, "'".as_bytes());
        },
        CommandError::WrongArity(n) => {
            append_bytes(&mut t, "ERR wrong number of arguments for '".as_bytes());
            append_bytes(&mut t, n.as_slice());
            append_bytes(&mut t, "' command".as_bytes());
        },
        CommandError::Syntax => append_bytes(&mut t, "ERR syntax error".as_bytes()),
        CommandError::NotAnInteger => append_bytes(
            &mut t,
            "ERR value is not an integer or out of range".as_bytes(),
        ),
    }
    Reply::Error(t)
}

/// What a client connection does with one frame.
pub struct Outcome {
    /// The bytes to send back.
    pub reply: Vec<u8>,
    /// The bytes to forward to every replica, for a write.
    pub propagate: Option<Vec<u8>>,
    /// The connection asked for replication: after the reply it gets the
    /// snapshot, and from then on only forwarded writes.
    pub hand_off: bool,
}

/// The reply a client connection sends for frame `f`.
pub open spec fn session_reply(f: Seq<Seq<u8>>, m: Map<Seq<u8>, EntryModel>, id: ServerIdentity, now: u64) -> Seq<u8> {
    match request_of(f) {
        Ok(req) => reply_wire(req, m, id, now),
        Err(fault) => error_wire(fault),
    }
}

/// The keyspace after a client connection handles frame `f`.
pub open spec fn session_store(f: Seq<Seq<u8>>, m: Map<Seq<u8>, EntryModel>, now: u64) -> Map<Seq<u8>, EntryModel> {
    match request_of(f) {
        Ok(req) => store_after(req, m, now),
        Err(_) => m,
    }
}

/// Frame `f` is a write, and so is forwarded to the replicas.
pub open spec fn is_write(f: Seq<Seq<u8>>) -> bool {
    request_of(f) matches Ok(Request::SetKey { .. })
}

/// Frame `f` asks for replication.
pub open spec fn is_handoff(f: Seq<Seq<u8>>) -> bool {
    request_of(f) matches Ok(Request::Psync)
}

/// Handles one frame from a client connection at clock reading `now`. A
/// write is forwarded as the frame's own encoding; a frame that is no command
/// gets an error reply and changes nothing.
pub fn handle_frame(frame: &Vec<Vec<u8>>, store: &mut Keyspace, id: &ServerIdentity, now: u64) -> (r: Outcome)
    requires
        old(store).wf(),
    ensures
        final(store).wf(),
        r.reply@ == session_reply(frame_view(frame@), old(store)@, *id, now),
        final(store)@ == session_store(frame_view(frame@), old(store)@, now),
        r.propagate is Some <==> is_write(frame_view(frame@)),
        r.propagate matches Some(p) ==> p@ == encode_frame(frame_view(frame@)),
        r.hand_off == is_handoff(frame_view(frame@)),
{
    match parse_command(frame) {
        Ok(cmd) => {
            let write = match cmd {
                Command::SetKey { .. } => true,
                _ => false,
            };
            let hand_off = match cmd {
                Command::Psync => true,
                _ => false,
            };
            let reply = execute(cmd, store, id, now);
            let propagate = if write {
                Some(encode_request(frame))
            } else {
                None
            };
            Outcome { reply: encode_reply(&reply), propagate, hand_off }
        },
        Err(e) => Outcome { reply: encode_reply(&error_reply(&e)), propagate: None, hand_off: false },
    }
}

/// The keyspace of a follower after it applies frame `f` from its leader:
/// writes are applied, everything else is ignored.
pub open spec fn replicated_store(f: Seq<Seq<u8>>, m: Map<Seq<u8>, EntryModel>, now: u64) -> Map<Seq<u8>, EntryModel> {
    match request_of(f) {
        Ok(Request::SetKey { key, value, px }) => after_write(m, key, value, px, now),
        _ => m,
    }
}

/// Applies a frame that the leader forwarded. Nothing is sent back.
pub fn apply_from_leader(frame: &Vec<Vec<u8>>, store: &mut Keyspace, now: u64)
    requires
        old(store).wf(),
    ensures
        final(store).wf(),
        final(store)@ == replicated_store(frame_view(frame@), old(store)@, now),
{
    match parse_command(frame) {
        Ok(Command::SetKey { key, value, px }) => store.set(key, value, px, now),
        _ => {},
    }
}

/// One of the command names the interpreter knows, in any ASCII case.
pub open spec fn is_command_name(n: Seq<u8>) -> bool {
    let w = fold(n);
    ||| w == "ping".spec_bytes()
    ||| w == "echo".spec_bytes()
    ||| w == "set".spec_bytes()
    ||| w == "get".spec_bytes()
    ||| w == "info".spec_bytes()
    ||| w == "replconf".spec_bytes()
    ||| w == "psync".spec_bytes()
}

/// A frame whose name is no command gets an error reply naming it, changes
/// nothing, and leaves the connection an ordinary client: a PING that follows
/// gets PONG.
pub proof fn lemma_unknown_command(
    f: Seq<Seq<u8>>,
    ping: Seq<u8>,
    m: Map<Seq<u8>, EntryModel>,
    id: ServerIdentity,
    now: u64,
)
    requires
        f.len() >= 1,
        !is_command_name(f[0]),
        fold(ping) == "ping".spec_bytes(),
    ensures
        session_reply(f, m, id, now) == error_wire(Fault::Unknown(f[0])),
        session_store(f, m, now) == m,
        !is_handoff(f),
        !is_write(f),
        session_reply(seq![ping], session_store(f, m, now), id, now) == simple_line(
            "PONG".spec_bytes(),
        ),
{
    assert(seq![ping][0] == ping);
}

/// A write that a leader handles reaches a follower as bytes that decode to
/// the same frame, and the follower's keyspace changes as the leader's does:
/// equal keyspaces stay equal, and the value written reads back on the
/// follower.
pub proof fn lemma_replication_converges(f: Seq<Seq<u8>>, m: Map<Seq<u8>, EntryModel>, now: u64)
    requires
        frame_fits(f),
        is_write(f),
    ensures
        frame_at_start(encode_frame(f), f),
        replicated_store(f, m, now) == session_store(f, m, now),
        request_of(f) matches Ok(Request::SetKey { key, value, px }) ==> (px is None ==> read_model(
            replicated_store(f, m, now),
            key,
            now,
        ) == Some(value)),
{
    assert(encode_frame(f).subrange(0, encode_frame(f).len() as int) =~= encode_frame(f));
}

/// A request that is no SET of `k` leaves what a later read of `k` returns
/// unchanged (a GET of `k` is taken to run no later than that read): values
/// survive commands in between.
pub proof fn lemma_read_survives(
    req: Request,
    m: Map<Seq<u8>, EntryModel>,
    k: Seq<u8>,
    ran_at: u64,
    read_at: u64,
)
    requires
        !(req matches Request::SetKey { key, .. } && key == k),
        req matches Request::GetKey(key) && key == k ==> ran_at <= read_at,
    ensures
        read_model(store_after(req, m, ran_at), k, read_at) == read_model(m, k, read_at),
{
    match req {
        Request::SetKey { key, value, px } => {
            assert(key != k);
        },
        Request::GetKey(key) => {
            if key != k {
                assert(after_read(m, key, ran_at).contains_key(k) == m.contains_key(k));
            }
        },
        _ => {},
    }
}

/// The leader's keyspace after it handles the frames `fs`, the `i`th at
/// clock reading `ts[i]`.
pub open spec fn leader_run(m: Map<Seq<u8>, EntryModel>, fs: Seq<Seq<Seq<u8>>>, ts: Seq<u64>) -> Map<
    Seq<u8>,
    EntryModel,
>
    decreases fs.len(),
{
    if fs.len() == 0 || ts.len() != fs.len() {
        m
    } else {
        session_store(fs.last(), leader_run(m, fs.drop_last(), ts.drop_last()), ts.last())
    }
}

/// A follower's keyspace after it applies the forwarded frames `fs`, the
/// `i`th at clock reading `ts[i]`.
pub open spec fn follower_run(m: Map<Seq<u8>, EntryModel>, fs: Seq<Seq<Seq<u8>>>, ts: Seq<u64>) -> Map<
    Seq<u8>,
    EntryModel,
>
    decreases fs.len(),
{
    if fs.len() == 0 || ts.len() != fs.len() {
        m
    } else {
        replicated_store(fs.last(), follower_run(m, fs.drop_last(), ts.drop_last()), ts.last())
    }
}

/// A follower that starts from the leader's keyspace and applies every
/// forwarded write, in the order the leader took them and at the same clock
/// readings, ends with the leader's keyspace, so every read gets the same
/// reply on both.
pub proof fn lemma_stream_converges(
    m: Map<Seq<u8>, EntryModel>,
    fs: Seq<Seq<Seq<u8>>>,
    ts: Seq<u64>,
    k: Seq<u8>,
    read_at: u64,
)
    requires
        ts.len() == fs.len(),
        forall|i: int| 0 <= i < fs.len() ==> is_write(#[trigger] fs[i]),
    ensures
        follower_run(m, fs, ts) == leader_run(m, fs, ts),
        read_model(follower_run(m, fs, ts), k, read_at) == read_model(leader_run(m, fs, ts), k, read_at),
    decreases fs.len(),
{
    if fs.len() > 0 {
        let fs0 = fs.drop_last();
        assert forall|i: int| 0 <= i < fs0.len() implies is_write(#[trigger] fs0[i]) by {
            assert(fs0[i] == fs[i]);
        }
        lemma_stream_converges(m, fs0, ts.drop_last(), k, read_at);
        assert(is_write(fs[fs.len() - 1]));
    }
}

} // verus!
