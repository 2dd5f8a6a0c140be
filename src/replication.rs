//! Replication: the leader's registry of replicas, the follower's handshake,
//! and the snapshot handed to a new replica.
use vstd::prelude::*;
use vstd::string::StringSliceAdditionalSpecFns;
use crate::codec::{
    dec, encode_frame, encode_request, encode_snapshot, frame_view, push_decimal, snapshot_frame,
    starts_with, text_bytes,
};
use crate::store::bytes_equal;

verus! {

/// The replicas that a leader forwards writes to, each known by an id.
pub struct ReplicaRegistry {
    ids: Vec<u64>,
    next: u64,
}

/// `ids` with every id of `failed` taken out, in the order they were.
pub open spec fn without(ids: Seq<u64>, failed: Seq<u64>) -> Seq<u64>
    decreases ids.len(),
{
    if ids.len() == 0 {
        seq![]
    } else if failed.contains(ids.last()) {
        without(ids.drop_last(), failed)
    } else {
        without(ids.drop_last(), failed).push(ids.last())
    }
}

pub fn contains_id(v: &Vec<u64>, x: u64) -> (r: bool)
    ensures
        r == v@.contains(x),
{
    let mut i: usize = 0;
    while i < v.len()
        invariant
            i <= v@.len(),
            forall|j: int| 0 <= j < i ==> v@[j] != x,
        decreases v@.len() - i,
    {
        if v[i] == x {
            return true;
        }
        i = i + 1;
    }
    false
}

impl ReplicaRegistry {
    pub closed spec fn view(&self) -> Seq<u64> {
        self.ids@
    }

    /// Ids are unique, and below the next one to hand out.
    pub closed spec fn wf(&self) -> bool {
        &&& forall|i: int, j: int|
            0 <= i < j < self.ids@.len() ==> self.ids@[i] != self.ids@[j]
        &&& forall|i: int| 0 <= i < self.ids@.len() ==> self.ids@[i] < self.next
    }

    /// The id the next registered replica gets.
    pub closed spec fn next_id(&self) -> u64 {
        self.next
    }

    pub fn new() -> (r: ReplicaRegistry)
        ensures
            r.wf(),
            r@ == Seq::<u64>::empty(),
            r.next_id() == 0,
    {
        ReplicaRegistry { ids: Vec::new(), next: 0 }
    }

    /// Adds a replica and returns its id; `None` once every id is used.
    pub fn register(&mut self) -> (r: Option<u64>)
        requires
            old(self).wf(),
        ensures
            final(self).wf(),
            r is None <==> old(self).next_id() == u64::MAX,
            r matches Some(id) ==> id == old(self).next_id() && final(self).next_id() == id + 1,
            r matches Some(id) ==> !old(self)@.contains(id) && final(self)@ == old(self)@.push(id),
            r is None ==> final(self)@ == old(self)@ && final(self).next_id() == old(self).next_id(),
    {
        if self.next == u64::MAX {
            return None;
        }
        let id = self.next;
        self.ids.push(id);
        self.next = self.next + 1;
        Some(id)
    }

    /// The replicas to forward a write to.
    pub fn replicas(&self) -> (r: Vec<u64>)
        ensures
            r@ == self@,
    {
        self.ids.clone()
    }

    /// Takes out the replicas that a write could not reach; the others stay,
    /// in their order.
    pub fn remove_failed(&mut self, failed: &Vec<u64>)
        requires
            old(self).wf(),
        ensures
            final(self).wf(),
            final(self)@ == without(old(self)@, failed@),
            final(self).next_id() == old(self).next_id(),
    {
        let mut kept: Vec<u64> = Vec::new();
        let mut i: usize = 0;
        let ghost ids = self.ids@;
        while i < self.ids.len()
            invariant
                self.ids@ == ids,
                self.wf(),
                i <= ids.len(),
                kept@ == without(ids.take(i as int), failed@),
                forall|a: int, b: int| 0 <= a < b < kept@.len() ==> kept@[a] != kept@[b],
                forall|a: int|
                    0 <= a < kept@.len() ==> exists|x: int| 0 <= x < i && #[trigger] ids[x] == #[trigger] kept@[a],
            decreases ids.len() - i,
        {
            let id = self.ids[i];
            assert(ids.take(i + 1).drop_last() =~= ids.take(i as int));
            assert(ids.take(i + 1).last() == id);
            if !contains_id(failed, id) {
                let ghost before = kept@;
                proof {
                    assert forall|a: int| 0 <= a < before.len() implies before[a] != id by {
                        let x = choose|x: int| 0 <= x < i && #[trigger] ids[x] == before[a];
                    }
                }
                kept.push(id);
                proof {
                    assert forall|a: int| 0 <= a < kept@.len() implies exists|x: int|
                        0 <= x < i + 1 && #[trigger] ids[x] == #[trigger] kept@[a] by {
                        if a < before.len() {
                            assert(kept@[a] == before[a]);
                            let x = choose|x: int| 0 <= x < i && #[trigger] ids[x] == before[a];
                            assert(ids[x] == kept@[a]);
                        } else {
                            assert(ids[i as int] == kept@[a]);
                        }
                    }
                }
            }
            i = i + 1;
        }
        assert(ids.take(i as int) =~= ids);
        proof {
            assert forall|a: int| 0 <= a < kept@.len() implies kept@[a] < self.next by {
                let x = choose|x: int| 0 <= x < i && #[trigger] ids[x] == kept@[a];
            }
        }
        self.ids = kept;
    }
}

/// After the replicas that a write could not reach are taken out, every
/// other replica stays registered, so later writes still reach it; none of
/// the failed ones does.
pub proof fn lemma_failed_replicas_isolated(ids: Seq<u64>, failed: Seq<u64>, id: u64)
    ensures
        ids.contains(id) && !failed.contains(id) ==> without(ids, failed).contains(id),
        failed.contains(id) ==> !without(ids, failed).contains(id),
    decreases ids.len(),
{
    if ids.len() > 0 {
        let rest = ids.drop_last();
        let last = ids.last();
        let w = without(rest, failed);
        lemma_failed_replicas_isolated(rest, failed, id);
        if ids.contains(id) && !failed.contains(id) {
            if last == id {
                assert(w.push(last)[w.len() as int] == id);
            } else {
                let k = choose|k: int| 0 <= k < ids.len() && ids[k] == id;
                assert(rest[k] == id);
                let j = choose|j: int| 0 <= j < w.len() && w[j] == id;
                assert(w.push(last)[j] == id);
            }
        }
        if !failed.contains(last) && failed.contains(id) && w.push(last).contains(id) {
            let k = choose|k: int| 0 <= k < w.len() + 1 && w.push(last)[k] == id;
            if k < w.len() {
                assert(w[k] == id);
            }
        }
    }
}

/// Where a follower stands in its handshake with the leader.
#[derive(Debug, Clone, Copy, PartialEq, Eq, Structural)]
pub enum HandshakeState {
    Init,
    SentPing,
    SentPort,
    SentCapa,
    SentPsync,
    /// The leader granted a full resync; its snapshot comes next.
    AwaitSnapshot,
    /// The snapshot is in: forwarded writes follow.
    Streaming,
    Failed,
}

/// The follower's side of the handshake: PING, announce the listening port,
/// announce capabilities, PSYNC, then the snapshot.
pub struct Handshake {
    pub state: HandshakeState,
    /// The port this follower listens on.
    pub port: u16,
}

/// The leader answered a handshake step with something else than it should.
#[derive(Debug, PartialEq, Eq)]
pub struct HandshakeFailure {
    /// The state the step was in.
    pub state: HandshakeState,
}

/// The request that a follower sends on entering state `s`.
pub open spec fn handshake_request(s: HandshakeState, port: u16) -> Seq<Seq<u8>> {
    match s {
        HandshakeState::SentPing => seq!["PING".spec_bytes()],
        HandshakeState::SentPort => seq![
            "REPLCONF".spec_bytes(),
            "listening-port".spec_bytes(),
            dec(port as nat),
        ],
        HandshakeState::SentCapa => seq![
            "REPLCONF".spec_bytes(),
            "capa".spec_bytes(),
            "psync2".spec_bytes(),
        ],
        _ => seq!["PSYNC".spec_bytes(), "?".spec_bytes(), "-1".spec_bytes()],
    }
}

/// The leader's simple-string reply `text` is the right answer in state `s`.
pub open spec fn reply_accepted(s: HandshakeState, text: Seq<u8>) -> bool {
    match s {
        HandshakeState::SentPing => text == "PONG".spec_bytes(),
        HandshakeState::SentPort => text == "OK".spec_bytes(),
        HandshakeState::SentCapa => text == "OK".spec_bytes(),
        HandshakeState::SentPsync => starts_with(text, "FULLRESYNC ".spec_bytes()),
        _ => false,
    }
}

/// The state after an accepted reply in state `s`.
pub open spec fn state_after(s: HandshakeState) -> HandshakeState {
    match s {
        HandshakeState::SentPing => HandshakeState::SentPort,
        HandshakeState::SentPort => HandshakeState::SentCapa,
        HandshakeState::SentCapa => HandshakeState::SentPsync,
        _ => HandshakeState::AwaitSnapshot,
    }
}

fn starts_with_bytes(b: &[u8], p: &[u8]) -> (r: bool)
    ensures
        r == starts_with(b@, p@),
{
    if b.len() < p.len() {
        return false;
    }
    let mut i: usize = 0;
    while i < p.len()
        invariant
            p@.len() <= b@.len(),
            i <= p@.len(),
            forall|j: int| 0 <= j < i ==> b@[j] == p@[j],
        decreases p@.len() - i,
    {
        if b[i] != p[i] {
            assert(b@.subrange(0, p@.len() as int)[i as int] != p@[i as int]);
            return false;
        }
        i = i + 1;
    }
    assert(b@.subrange(0, p@.len() as int) =~= p@);
    true
}

/// The wire form of the request sent on entering state `s`.
fn request_bytes(s: HandshakeState, port: u16) -> (r: Vec<u8>)
    ensures
        r@ == encode_frame(handshake_request(s, port)),
{
    let mut f: Vec<Vec<u8>> = Vec::new();
    match s {
        HandshakeState::SentPing => {
            f.push(text_bytes("PING"));
        },
        HandshakeState::SentPort => {
            f.push(text_bytes("REPLCONF"));
            f.push(text_bytes("listening-port"));
            let mut p: Vec<u8> = Vec::new();
            push_decimal(&mut p, port as u64);
            assert(p@ =~= dec(port as nat));
            f.push(p);
        },
        HandshakeState::SentCapa => {
            f.push(text_bytes("REPLCONF"));
            f.push(text_bytes("capa"));
            f.push(text_bytes("psync2"));
        },
        _ => {
            f.push(text_bytes("PSYNC"));
            f.push(text_bytes("?"));
            f.push(text_bytes("-1"));
        },
    }
    assert(frame_view(f@) =~= handshake_request(s, port));
    encode_request(&f)
}

/// The outcome of a handshake step is the request `w`, to send next.
pub open spec fn sends(r: Result<Option<Vec<u8>>, HandshakeFailure>, w: Seq<u8>) -> bool {
    match r {
        Ok(Some(b)) => b@ == w,
        _ => false,
    }
}

impl Handshake {
    pub fn new(port: u16) -> (r: Handshake)
        ensures
            r.state == HandshakeState::Init,
            r.port == port,
    {
        Handshake { state: HandshakeState::Init, port }
    }

    /// Opens the handshake: the PING to send.
    pub fn start(&mut self) -> (r: Vec<u8>)
        requires
            old(self).state == HandshakeState::Init,
        ensures
            final(self).state == HandshakeState::SentPing,
            final(self).port == old(self).port,
            r@ == encode_frame(handshake_request(HandshakeState::SentPing, old(self).port)),
    {
        self.state = HandshakeState::SentPing;
        request_bytes(HandshakeState::SentPing, self.port)
    }

    /// Takes the text of the leader's simple-string reply to the last request.
    /// Returns the next request to send, or `None` once the leader granted a
    /// full resync and the snapshot is due; any other reply fails the
    /// handshake.
    pub fn on_reply(&mut self, text: &[u8]) -> (r: Result<Option<Vec<u8>>, HandshakeFailure>)
        ensures
            final(self).port == old(self).port,
            reply_accepted(old(self).state, text@) ==> final(self).state == state_after(
                old(self).state,
            ),
            reply_accepted(old(self).state, text@) && old(self).state == HandshakeState::SentPsync
                ==> r matches Ok(None),
            reply_accepted(old(self).state, text@) && old(self).state != HandshakeState::SentPsync
                ==> sends(r, encode_frame(handshake_request(final(self).state, old(self).port))),
            !reply_accepted(old(self).state, text@) ==> final(self).state == HandshakeState::Failed
                && r == Err::<Option<Vec<u8>>, HandshakeFailure>(
                HandshakeFailure { state: old(self).state },
            ),
    {
        let state = self.state;
        let accepted = match state {
            HandshakeState::SentPing => bytes_equal(text, "PONG".as_bytes()),
            HandshakeState::SentPort => bytes_equal(text, "OK".as_bytes()),
            HandshakeState::SentCapa => bytes_equal(text, "OK".as_bytes()),
            HandshakeState::SentPsync => starts_with_bytes(text, "FULLRESYNC ".as_bytes()),
            _ => false,
        };
        if !accepted {
            self.state = HandshakeState::Failed;
            return Err(HandshakeFailure { state });
        }
        let next = match state {
            HandshakeState::SentPing => HandshakeState::SentPort,
            HandshakeState::SentPort => HandshakeState::SentCapa,
            HandshakeState::SentCapa => HandshakeState::SentPsync,
            _ => HandshakeState::AwaitSnapshot,
        };
        self.state = next;
        if next == HandshakeState::AwaitSnapshot {
            Ok(None)
        } else {
            Ok(Some(request_bytes(next, self.port)))
        }
    }

    /// The snapshot has arrived: from now on the connection carries
    /// forwarded writes.
    pub fn on_snapshot(&mut self)
        requires
            old(self).state == HandshakeState::AwaitSnapshot,
        ensures
            final(self).state == HandshakeState::Streaming,
            final(self).port == old(self).port,
    {
        self.state = HandshakeState::Streaming;
    }
}

/// The bytes that a base64 text (standard alphabet, with padding) encodes,
/// or `None` where it is no such text.
pub uninterp spec fn base64_decoded(text: Seq<u8>) -> Option<Seq<u8>>;

#[verifier::external_type_specification]
#[verifier::external_body]
pub struct ExDecodeError(base64::DecodeError);

/// Relies on base64's `Engine::decode` with the `STANDARD` engine (standard
/// alphabet, padding required): the bytes the text encodes, or an error; the
/// outcome depends on the text alone.
#[verifier::external_body]
fn decode_base64(text: &[u8]) -> (r: Result<Vec<u8>, base64::DecodeError>)
    ensures
        r is Ok <==> base64_decoded(text@) is Some,
        r matches Ok(b) ==> base64_decoded(text@) == Some(b@),
{
    base64::Engine::decode(&base64::engine::general_purpose::STANDARD, text)
}

/// Why no snapshot could be handed over.
#[derive(Debug, PartialEq, Eq)]
pub enum SnapshotError {
    /// The stored snapshot is not valid base64.
    NotBase64,
}

/// The snapshot transfer for a new replica, from the snapshot stored as
/// base64 text: `$<len>\r\n` and the decoded bytes.
pub fn snapshot_transfer(stored: &[u8]) -> (r: Result<Vec<u8>, SnapshotError>)
    ensures
        r is Ok <==> base64_decoded(stored@) is Some,
        r matches Ok(b) ==> b@ == snapshot_frame(base64_decoded(stored@)->0),
{
    match decode_base64(stored) {
        Ok(blob) => Ok(encode_snapshot(blob.as_slice())),
        Err(_) => Err(SnapshotError::NotBase64),
    }
}

} // verus!
