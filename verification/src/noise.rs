//! Noise protocol sessions (XX pattern), through the `snow` crate: the
//! handshake, the switch to transport mode, and transport encryption.

use vstd::prelude::*;
use snow::params::NoiseParams;
use snow::{HandshakeState, TransportState};

verus! {

/// The Noise protocol name this library speaks.
pub const NOISE_PARAMS: &'static str = "Noise_XX_25519_ChaChaPoly_SHA256";

/// The size of the buffers handshake messages are written into and read from.
pub const HANDSHAKE_BUFFER_LEN: usize = 200;

/// The size of an authentication tag that transport encryption adds.
pub const TAG_LEN: usize = 16;

#[verifier::external_type_specification]
#[verifier::external_body]
pub struct ExNoiseParams(NoiseParams);

#[verifier::external_type_specification]
#[verifier::external_body]
pub struct ExHandshakeState(HandshakeState);

#[verifier::external_type_specification]
#[verifier::external_body]
pub struct ExTransportState(TransportState);

#[verifier::external_type_specification]
#[verifier::external_body]
pub struct ExSnowError(snow::Error);

/// Why a session operation failed.
#[derive(Debug)]
pub enum NoiseError {
    /// The session is not in the mode the operation needs.
    WrongState,
    /// The `snow` crate reported an error.
    Snow(snow::Error),
}

/// Protocol parameters, with whether they were parsed from `NOISE_PARAMS`.
pub struct Params {
    inner: NoiseParams,
    ours: Ghost<bool>,
}

impl Params {
    /// Parsed from `NOISE_PARAMS`.
    pub closed spec fn ours(&self) -> bool {
        self.ours@
    }
}

/// A handshake in progress, with whether it was built for `NOISE_PARAMS`,
/// whether it is such an initiator that has not written or read a message yet,
/// which side it is, and the handshake messages it has written or read so far.
pub struct Handshake {
    state: HandshakeState,
    ours: Ghost<bool>,
    fresh_initiator: Ghost<bool>,
    initiator: Ghost<bool>,
    transcript: Ghost<Seq<Seq<u8>>>,
}

/// A session in transport mode, with whether it came from a handshake for
/// `NOISE_PARAMS`, which side it was, the messages of that handshake, the
/// plaintexts it has encrypted (their count is the nonce of its sending key)
/// and how many messages it has decrypted (the nonce of its receiving key).
pub struct Transport {
    state: TransportState,
    ours: Ghost<bool>,
    initiator: Ghost<bool>,
    transcript: Ghost<Seq<Seq<u8>>>,
    sent: Ghost<Seq<Seq<u8>>>,
    received: Ghost<nat>,
}

/// The ciphertext that the transport session of an `XX` handshake for
/// `NOISE_PARAMS` with handshake messages `transcript` sends from the
/// initiator's side (`from_initiator`) or the responder's as its message
/// number `nonce`, for `plaintext`.
pub uninterp spec fn spec_xx_seal(
    transcript: Seq<Seq<u8>>,
    from_initiator: bool,
    nonce: nat,
    plaintext: Seq<u8>,
) -> Seq<u8>;

/// The plaintexts a write leaves recorded: `payload` appended when it
/// succeeded.
pub open spec fn after_write(sent: Seq<Seq<u8>>, payload: Seq<u8>, r: Result<usize, snow::Error>) -> Seq<Seq<u8>> {
    if r matches Ok(_) {
        sent.push(payload)
    } else {
        sent
    }
}

/// The count of messages a read adds: one when it succeeded.
pub open spec fn read_count(r: Result<usize, snow::Error>) -> nat {
    if r matches Ok(_) {
        1
    } else {
        0
    }
}

/// Trusted: `str::parse::<snow::params::NoiseParams>`. The crate's parser
/// accepts `NOISE_PARAMS` (base `Noise`, pattern `XX`, DH `25519`, cipher
/// `ChaChaPoly`, hash `SHA256`); the result records whether that was the name.
#[verifier::external_body]
pub(crate) fn parse_params(name: &str) -> (r: Result<Params, snow::Error>)
    ensures
        name@ == NOISE_PARAMS@ ==> r matches Ok(_),
        r matches Ok(p) ==> p.ours() == (name@ == NOISE_PARAMS@),
{
    match name.parse() {
        Ok(inner) => Ok(Params { inner, ours: Ghost(name@ == NOISE_PARAMS@) }),
        Err(e) => Err(e),
    }
}

/// A keypair was made, both keys `n` bytes long.
pub open spec fn keys_of_len(r: Result<(Vec<u8>, Vec<u8>), snow::Error>, n: nat) -> bool {
    r matches Ok((private, public)) && private@.len() == n && public@.len() == n
}

/// `n` bytes were written.
pub open spec fn wrote(r: Result<usize, snow::Error>, n: nat) -> bool {
    r matches Ok(k) && k == n
}

/// The X25519 public key of a 32-byte private key.
pub uninterp spec fn spec_x25519_public_key(private: Seq<u8>) -> Seq<u8>;

/// Trusted: `snow::Builder::generate_keypair` on a builder for `params`. The key
/// bytes are random; the pair is returned as (private, public). For the
/// `25519` DH of `NOISE_PARAMS` the crate's default resolver always supplies
/// the random source and the DH, so the call succeeds with 32-byte keys. The
/// default resolver has no other DH, and its `Dh25519` derives the public key
/// from the private one by X25519.
#[verifier::external_body]
pub(crate) fn generate_keypair(params: &Params) -> (r: Result<(Vec<u8>, Vec<u8>), snow::Error>)
    ensures
        params.ours() ==> keys_of_len(r, 32),
        r matches Ok((private, public)) ==> public@ == spec_x25519_public_key(private@),
{
    match snow::Builder::new(params.inner.clone()).generate_keypair() {
        Ok(k) => Ok((k.private, k.public)),
        Err(e) => Err(e),
    }
}

/// Trusted: `snow::Builder::build_initiator` on a builder for `params` with
/// `private` as the local static key. The crate copies the key into a 32-byte
/// buffer, so a longer key is left out. For `NOISE_PARAMS` and a 32-byte key
/// every resolver lookup and check in the builder passes, and the state is an
/// initiator that has not moved yet.
#[verifier::external_body]
fn build_initiator(params: &Params, private: &[u8]) -> (r: Result<Handshake, snow::Error>)
    requires
        private@.len() <= 32,
    ensures
        params.ours() && private@.len() == 32 ==> r matches Ok(_),
        r matches Ok(h) ==> h.fresh_initiator@ == params.ours() && h.ours@ == params.ours() && h.initiator@
            && h.transcript@ == Seq::<Seq<u8>>::empty(),
{
    match snow::Builder::new(params.inner.clone()).local_private_key(private).build_initiator() {
        Ok(state) => Ok(
            Handshake {
                state,
                ours: Ghost(params.ours@),
                fresh_initiator: Ghost(params.ours@),
                initiator: Ghost(true),
                transcript: Ghost(Seq::empty()),
            },
        ),
        Err(e) => Err(e),
    }
}

/// Trusted: `snow::Builder::build_responder` on a builder for `params` with
/// `private` as the local static key. A key longer than 32 bytes is left out,
/// as for the initiator. For `NOISE_PARAMS` and a 32-byte key the build
/// succeeds.
#[verifier::external_body]
fn build_responder(params: &Params, private: &[u8]) -> (r: Result<Handshake, snow::Error>)
    requires
        private@.len() <= 32,
    ensures
        params.ours() && private@.len() == 32 ==> r matches Ok(_),
        r matches Ok(h) ==> !h.fresh_initiator@ && h.ours@ == params.ours() && !h.initiator@
            && h.transcript@ == Seq::<Seq<u8>>::empty(),
{
    match snow::Builder::new(params.inner.clone()).local_private_key(private).build_responder() {
        Ok(state) => Ok(
            Handshake {
                state,
                ours: Ghost(params.ours@),
                fresh_initiator: Ghost(false),
                initiator: Ghost(false),
                transcript: Ghost(Seq::empty()),
            },
        ),
        Err(e) => Err(e),
    }
}

/// Whether an `XX` handshake for `NOISE_PARAMS` in which the reader (the
/// initiator when `reader_is_initiator`) has handled the messages
/// `transcript` accepts `message` as the next one. Accepting needs the
/// Diffie-Hellman values of the public keys the messages carry, which both
/// ends compute alike, so it is fixed by these arguments.
pub uninterp spec fn spec_xx_accepts(transcript: Seq<Seq<u8>>, reader_is_initiator: bool, message: Seq<u8>) -> bool;

/// In `XX` the initiator writes the first and third messages, the responder
/// the second.
pub open spec fn xx_turn_to_write(transcript: Seq<Seq<u8>>, initiator: bool) -> bool {
    if initiator {
        transcript.len() == 0 || transcript.len() == 2
    } else {
        transcript.len() == 1
    }
}

/// In `XX` the responder reads the first and third messages, the initiator
/// the second.
pub open spec fn xx_turn_to_read(transcript: Seq<Seq<u8>>, initiator: bool) -> bool {
    if initiator {
        transcript.len() == 1
    } else {
        transcript.len() == 0 || transcript.len() == 2
    }
}

/// Trusted: `snow::HandshakeState::write_message` into `message`. The written
/// length never exceeds the buffer, whose length stays the same; the bytes
/// depend on keys and randomness and are not stated. The first message of an
/// `XX` initiator is its 32-byte ephemeral key followed by the payload in the
/// clear (no key is set yet), so with an empty payload it writes exactly 32
/// bytes. On its turn, with an empty payload, the write succeeds (the longest
/// `XX` message with an empty payload is 96 bytes); what it writes is what the
/// other side accepts next, by the correctness of the Noise handshake.
/// `snow` checks room for a static key before encrypting it but not room for
/// its 16-byte tag, and panics on a buffer that holds the one but not the
/// other; buffers shorter than 200 bytes are therefore left out.
#[verifier::external_body]
fn handshake_write(hs: &mut Handshake, payload: &[u8], message: &mut Vec<u8>) -> (r: Result<usize, snow::Error>)
    requires
        old(message)@.len() >= 200,
    ensures
        final(message)@.len() == old(message)@.len(),
        r matches Ok(n) ==> n <= old(message)@.len(),
        old(hs).fresh_initiator@ && payload@.len() == 0 ==> wrote(r, 32),
        !final(hs).fresh_initiator@,
        final(hs).ours@ == old(hs).ours@,
        final(hs).initiator@ == old(hs).initiator@,
        r matches Ok(n) ==> final(hs).transcript@ == old(hs).transcript@.push(final(message)@.take(n as int)),
        old(hs).ours@ && xx_turn_to_write(old(hs).transcript@, old(hs).initiator@) && payload@.len() == 0
            ==> r matches Ok(_),
        old(hs).ours@ ==> (r matches Ok(n) ==> spec_xx_accepts(
            old(hs).transcript@,
            !old(hs).initiator@,
            final(message)@.take(n as int),
        )),
{
    hs.fresh_initiator = Ghost(false);
    let r = hs.state.write_message(payload, message.as_mut_slice());
    if let Ok(n) = r {
        hs.transcript = Ghost(hs.transcript@.push(message@.take(n as int)));
    }
    r
}

/// Trusted: `snow::HandshakeState::read_message` into `payload`. The read
/// length never exceeds the buffer, whose length stays the same. On its turn
/// it succeeds for a message the handshake accepts next that is no longer than
/// the buffer.
#[verifier::external_body]
fn handshake_read_message(hs: &mut Handshake, message: &[u8], payload: &mut Vec<u8>) -> (r: Result<usize, snow::Error>)
    ensures
        final(payload)@.len() == old(payload)@.len(),
        r matches Ok(n) ==> n <= old(payload)@.len(),
        !final(hs).fresh_initiator@,
        final(hs).ours@ == old(hs).ours@,
        final(hs).initiator@ == old(hs).initiator@,
        r matches Ok(_) ==> final(hs).transcript@ == old(hs).transcript@.push(message@),
        old(hs).ours@ && xx_turn_to_read(old(hs).transcript@, old(hs).initiator@) && message@.len()
            <= old(payload)@.len() && spec_xx_accepts(old(hs).transcript@, old(hs).initiator@, message@)
            ==> r matches Ok(_),
{
    hs.fresh_initiator = Ghost(false);
    let r = hs.state.read_message(message, payload.as_mut_slice());
    if r.is_ok() {
        hs.transcript = Ghost(hs.transcript@.push(message@));
    }
    r
}

/// Trusted: `snow::HandshakeState::is_handshake_finished`: whether the
/// state's position has reached the end of the pattern. The position counts
/// the messages written or read, and `XX` has three.
#[verifier::external_body]
fn handshake_finished(hs: &Handshake) -> (r: bool)
    ensures
        hs.ours@ ==> r == (hs.transcript@.len() >= 3),
{
    hs.state.is_handshake_finished()
}

/// Trusted: `snow::HandshakeState::into_transport_mode`. The crate's source sets both transport keys with nonce 0 when
/// the handshake's last message is handled, so the new state has sent and
/// received nothing. Its keys come from the handshake's chaining key. The
/// crate refuses only a handshake that is not finished.
#[verifier::external_body]
fn into_transport(hs: Handshake) -> (r: Result<Transport, snow::Error>)
    ensures
        hs.ours@ && hs.transcript@.len() == 3 ==> r matches Ok(_),
        r matches Ok(t) ==> t.ours@ == hs.ours@ && t.initiator@ == hs.initiator@ && t.transcript@
            == hs.transcript@ && t.sent@ == Seq::<Seq<u8>>::empty() && t.received@ == 0,
{
    match hs.state.into_transport_mode() {
        Ok(state) => Ok(
            Transport {
                state,
                ours: Ghost(hs.ours@),
                initiator: Ghost(hs.initiator@),
                transcript: Ghost(hs.transcript@),
                sent: Ghost(Seq::empty()),
                received: Ghost(0),
            },
        ),
        Err(e) => Err(e),
    }
}

/// Trusted: `snow::TransportState::write_message` into `message`. The crate's
/// source refuses a buffer shorter than the payload and its tag, and on
/// success writes exactly the payload and a 16-byte tag; the buffer keeps its
/// length. It fails only for a one-way pattern's responder (`XX` is two-way),
/// a message over 65535 bytes, a short buffer, or a sending nonce that reached
/// `u64::MAX`; each success moves the nonce on by one, a failure leaves it.
/// The ciphertext is ChaCha20-Poly1305 of the payload with empty associated
/// data under the sending key and nonce. The keys are those the handshake
/// split from its chaining key, which both ends of an `XX` handshake for
/// `NOISE_PARAMS` compute alike from its messages (the Diffie-Hellman values
/// are fixed by the public keys the messages carry); the ciphertext is named
/// by `spec_xx_seal`.
#[verifier::external_body]
fn transport_write(ts: &mut Transport, payload: &[u8], message: &mut Vec<u8>) -> (r: Result<usize, snow::Error>)
    ensures
        final(message)@.len() == old(message)@.len(),
        r matches Ok(n) ==> n == payload@.len() + 16 && n <= old(message)@.len(),
        old(ts).ours@ && old(ts).sent@.len() < u64::MAX && payload@.len() + 16 <= 65535
            && payload@.len() + 16 <= old(message)@.len() ==> wrote(r, payload@.len() + 16),
        old(ts).ours@ ==> (r matches Ok(n) ==> final(message)@.take(n as int) == spec_xx_seal(
            old(ts).transcript@,
            old(ts).initiator@,
            old(ts).sent@.len(),
            payload@,
        )),
        final(ts).ours@ == old(ts).ours@,
        final(ts).initiator@ == old(ts).initiator@,
        final(ts).transcript@ == old(ts).transcript@,
        final(ts).received@ == old(ts).received@,
        final(ts).sent@ == after_write(old(ts).sent@, payload@, r),
{
    let r = ts.state.write_message(payload, message.as_mut_slice());
    if r.is_ok() {
        ts.sent = Ghost(ts.sent@.push(payload@));
    }
    r
}

/// Trusted: `snow::TransportState::read_message` into `message`. On success
/// the crate's source has written the ciphertext's length less the 16-byte
/// tag; the buffer keeps its length.
/// `c` is what the other end of `t`'s handshake seals for `p` under `t`'s
/// receiving nonce.
spec fn opened_by(t: Transport, c: Seq<u8>, p: Seq<u8>) -> bool {
    c == spec_xx_seal(t.transcript@, !t.initiator@, t.received@, p)
}

/// Reading uses the receiving key, so the sending side is left as it was. A
/// ciphertext of at most 65535 bytes that the other end of the same handshake
/// sealed under the receiving nonce (not `u64::MAX`) authenticates, and its
/// plaintext is written; each success moves the receiving nonce on by one.
/// The crate refuses a message over 65535 bytes and a nonce of `u64::MAX`, and
/// succeeds only when the ChaCha20-Poly1305 tag verifies; sealing is
/// deterministic, so the ciphertext is then the sealing of the plaintext it
/// wrote.
#[verifier::external_body]
fn transport_read(ts: &mut Transport, payload: &[u8], message: &mut Vec<u8>) -> (r: Result<usize, snow::Error>)
    ensures
        final(message)@.len() == old(message)@.len(),
        r matches Ok(n) ==> n + 16 == payload@.len() && n <= old(message)@.len(),
        forall|p: Seq<u8>|
            #![trigger opened_by(*old(ts), payload@, p)]
            old(ts).ours@ && old(ts).received@ < u64::MAX && payload@.len() <= 65535 && payload@.len()
                <= old(message)@.len() && opened_by(*old(ts), payload@, p) ==> wrote(r, p.len())
                && final(message)@.take(p.len() as int) == p,
        final(ts).ours@ == old(ts).ours@,
        final(ts).initiator@ == old(ts).initiator@,
        final(ts).transcript@ == old(ts).transcript@,
        final(ts).sent@ == old(ts).sent@,
        final(ts).received@ == old(ts).received@ + read_count(r),
        r matches Ok(_) ==> payload@.len() <= 65535 && old(ts).received@ < u64::MAX,
        old(ts).ours@ ==> (r matches Ok(n) ==> opened_by(*old(ts), payload@, final(message)@.take(n as int))),
{
    let r = ts.state.read_message(payload, message.as_mut_slice());
    if r.is_ok() {
        ts.received = Ghost(ts.received@ + 1);
    }
    r
}

enum NoiseState {
    Handshake(Handshake),
    Transport(Transport),
    Transitioning,
}

/// One side of a Noise session with a peer.
pub struct NoiseSession {
    state: NoiseState,
}

fn zeroed(n: usize) -> (v: Vec<u8>)
    ensures
        v@.len() == n,
{
    let mut v: Vec<u8> = Vec::new();
    let mut i: usize = 0;
    while i < n
        invariant
            i <= n,
            v@.len() == i,
        decreases n - i,
    {
        v.push(0);
        i = i + 1;
    }
    v
}

fn truncated(mut v: Vec<u8>, n: usize) -> (w: Vec<u8>)
    requires
        n <= v@.len(),
    ensures
        w@ == v@.take(n as int),
{
    v.truncate(n);
    v
}

impl NoiseSession {
    /// Still handshaking.
    pub closed spec fn in_handshake(&self) -> bool {
        self.state is Handshake
    }

    /// The handshake is done and messages can be encrypted.
    pub closed spec fn in_transport(&self) -> bool {
        self.state is Transport
    }

    /// The session was set up for `NOISE_PARAMS`.
    pub closed spec fn ours(&self) -> bool {
        match self.state {
            NoiseState::Handshake(h) => h.ours@,
            NoiseState::Transport(t) => t.ours@,
            NoiseState::Transitioning => false,
        }
    }

    /// In transport mode for `NOISE_PARAMS`, with the sending nonce not used
    /// up: a message that fits in a Noise message can be encrypted.
    pub closed spec fn can_send(&self) -> bool {
        self.state matches NoiseState::Transport(t) && t.ours@ && t.sent@.len() < u64::MAX
    }

    /// The plaintexts encrypted so far in transport mode, in order.
    pub closed spec fn sent(&self) -> Seq<Seq<u8>> {
        match self.state {
            NoiseState::Transport(t) => t.sent@,
            _ => Seq::empty(),
        }
    }

    /// How many messages were decrypted so far in transport mode.
    pub closed spec fn received(&self) -> nat {
        match self.state {
            NoiseState::Transport(t) => t.received@,
            _ => 0,
        }
    }

    /// The handshake messages written or read so far, in order.
    pub closed spec fn transcript(&self) -> Seq<Seq<u8>> {
        match self.state {
            NoiseState::Handshake(h) => h.transcript@,
            NoiseState::Transport(t) => t.transcript@,
            NoiseState::Transitioning => Seq::empty(),
        }
    }

    /// This side started the handshake.
    pub closed spec fn is_initiator(&self) -> bool {
        match self.state {
            NoiseState::Handshake(h) => h.initiator@,
            NoiseState::Transport(t) => t.initiator@,
            NoiseState::Transitioning => false,
        }
    }

    /// A handshake step failed half-way and the session is unusable.
    pub open spec fn is_broken(&self) -> bool {
        !self.in_handshake() && !self.in_transport()
    }

    /// Starts a session as the initiator with a fresh static key and returns the
    /// first handshake message (`-> e`): the 32-byte ephemeral public key.
    pub fn new_initiator() -> (r: Result<(NoiseSession, Vec<u8>), NoiseError>)
        ensures
            r matches Ok((s, m)) && s.in_handshake() && s.ours() && m@.len() == 32,
            r matches Ok((s, m)) ==> s.is_initiator() && s.transcript() == seq![m@]
                && spec_xx_accepts(Seq::empty(), false, m@),
    {
        let params = match parse_params(NOISE_PARAMS) {
            Ok(p) => p,
            Err(e) => return Err(NoiseError::Snow(e)),
        };
        let (private, _public) = match generate_keypair(&params) {
            Ok(k) => k,
            Err(e) => return Err(NoiseError::Snow(e)),
        };
        let mut handshake = match build_initiator(&params, private.as_slice()) {
            Ok(h) => h,
            Err(e) => return Err(NoiseError::Snow(e)),
        };
        let mut first_msg = zeroed(HANDSHAKE_BUFFER_LEN);
        let empty: Vec<u8> = Vec::new();
        let len = match handshake_write(&mut handshake, empty.as_slice(), &mut first_msg) {
            Ok(n) => n,
            Err(e) => return Err(NoiseError::Snow(e)),
        };
        let first_msg = truncated(first_msg, len);
        Ok((NoiseSession { state: NoiseState::Handshake(handshake) }, first_msg))
    }

    /// Starts a session as the responder with a fresh static key.
    pub fn new_responder() -> (r: Result<NoiseSession, NoiseError>)
        ensures
            r matches Ok(s) && s.in_handshake() && s.ours(),
            r matches Ok(s) ==> !s.is_initiator() && s.transcript() == Seq::<Seq<u8>>::empty(),
    {
        let params = match parse_params(NOISE_PARAMS) {
            Ok(p) => p,
            Err(e) => return Err(NoiseError::Snow(e)),
        };
        let (private, _public) = match generate_keypair(&params) {
            Ok(k) => k,
            Err(e) => return Err(NoiseError::Snow(e)),
        };
        let handshake = match build_responder(&params, private.as_slice()) {
            Ok(h) => h,
            Err(e) => return Err(NoiseError::Snow(e)),
        };
        Ok(NoiseSession { state: NoiseState::Handshake(handshake) })
    }

    /// Reads a handshake message and, when the pattern asks for it, writes the
    /// reply. A session already in transport mode ignores the message. A
    /// failed step leaves the session broken.
    pub fn handshake_read(&mut self, input: &[u8]) -> (r: Result<Option<Vec<u8>>, NoiseError>)
        ensures
            old(self).in_transport() ==> (r matches Ok(None) && final(self).in_transport()),
            old(self).is_broken() ==> (r matches Err(NoiseError::WrongState) && final(self).is_broken()),
            old(self).in_handshake() ==> {
                &&& r matches Ok(None) ==> final(self).in_transport()
                &&& r matches Ok(Some(reply)) ==> reply@.len() <= HANDSHAKE_BUFFER_LEN
                    && !final(self).is_broken()
                &&& r matches Err(_) ==> final(self).is_broken() && r matches Err(NoiseError::Snow(_))
            },
            !final(self).is_broken() ==> final(self).ours() == old(self).ours(),
            old(self).in_transport() ==> *final(self) == *old(self),
            old(self).in_handshake() && old(self).ours() ==> read_step(
                *old(self),
                input@,
                *final(self),
                handshake_outcome(r),
            ),
    {
        let mut current = NoiseState::Transitioning;
        std::mem::swap(&mut current, &mut self.state);
        let mut handshake = match current {
            NoiseState::Handshake(h) => h,
            NoiseState::Transport(t) => {
                self.state = NoiseState::Transport(t);
                return Ok(None);
            },
            NoiseState::Transitioning => return Err(NoiseError::WrongState),
        };
        let mut reply = zeroed(HANDSHAKE_BUFFER_LEN);
        let mut read_buf = zeroed(HANDSHAKE_BUFFER_LEN);
        match handshake_read_message(&mut handshake, input, &mut read_buf) {
            Ok(_) => {},
            Err(e) => return Err(NoiseError::Snow(e)),
        }
        // The state does not change between reading and the first check, so a
        // handshake that was finished by the read is still finished when asked
        // again below; that answer is reused.
        let finished_after_read = handshake_finished(&handshake);
        let reply_opt = if !finished_after_read {
            let empty: Vec<u8> = Vec::new();
            let len = match handshake_write(&mut handshake, empty.as_slice(), &mut reply) {
                Ok(n) => n,
                Err(e) => return Err(NoiseError::Snow(e)),
            };
            Some(truncated(reply, len))
        } else {
            None
        };
        let finished = if finished_after_read {
            true
        } else {
            handshake_finished(&handshake)
        };
        if finished {
            match into_transport(handshake) {
                Ok(t) => self.state = NoiseState::Transport(t),
                Err(e) => return Err(NoiseError::Snow(e)),
            }
        } else {
            self.state = NoiseState::Handshake(handshake);
        }
        Ok(reply_opt)
    }

    /// Encrypts a transport message: the plaintext and a 16-byte tag.
    pub fn encrypt(&mut self, plaintext: &[u8]) -> (r: Result<Vec<u8>, NoiseError>)
        requires
            plaintext@.len() + 100 <= usize::MAX,
        ensures
            !old(self).in_transport() ==> (r matches Err(NoiseError::WrongState) && *final(self)
                == *old(self)),
            old(self).in_transport() ==> final(self).in_transport() && !(r matches Err(
                NoiseError::WrongState,
            )),
            r matches Ok(c) ==> c@.len() == plaintext@.len() + TAG_LEN,
            old(self).can_send() && plaintext@.len() + TAG_LEN <= 65535 ==> r matches Ok(_),
            old(self).ours() ==> (r matches Ok(c) ==> seals_next(*old(self), c@, plaintext@)),
            r matches Ok(_) ==> final(self).sent() == old(self).sent().push(plaintext@),
            !(r matches Ok(_)) ==> final(self).sent() == old(self).sent(),
            final(self).ours() == old(self).ours(),
            final(self).received() == old(self).received(),
            final(self).transcript() == old(self).transcript(),
            final(self).is_initiator() == old(self).is_initiator(),
    {
        let transport = match &mut self.state {
            NoiseState::Transport(t) => t,
            _ => return Err(NoiseError::WrongState),
        };
        let mut ciphertext = zeroed(plaintext.len() + 100);
        let len = match transport_write(transport, plaintext, &mut ciphertext) {
            Ok(n) => n,
            Err(e) => return Err(NoiseError::Snow(e)),
        };
        Ok(truncated(ciphertext, len))
    }

    /// Decrypts a transport message; the plaintext is 16 bytes shorter. A
    /// message is accepted only when the other end of the handshake sealed
    /// exactly the returned plaintext under the receiving nonce.
    pub fn decrypt(&mut self, ciphertext: &[u8]) -> (r: Result<Vec<u8>, NoiseError>)
        ensures
            !old(self).in_transport() ==> (r matches Err(NoiseError::WrongState) && *final(self)
                == *old(self)),
            old(self).in_transport() ==> final(self).in_transport() && !(r matches Err(
                NoiseError::WrongState,
            )),
            r matches Ok(p) ==> p@.len() + TAG_LEN == ciphertext@.len(),
            forall|p: Seq<u8>|
                #![trigger opens_next(*old(self), ciphertext@, p)]
                old(self).in_transport() && old(self).ours() && old(self).received() < u64::MAX
                    && ciphertext@.len() <= 65535 && opens_next(*old(self), ciphertext@, p) ==> (r matches Ok(
                    q,
                ) && q@ == p),
            r matches Ok(_) ==> final(self).received() == old(self).received() + 1,
            !(r matches Ok(_)) ==> final(self).received() == old(self).received(),
            r matches Ok(_) ==> old(self).received() < u64::MAX && ciphertext@.len() <= 65535,
            old(self).ours() ==> (r matches Ok(q) ==> opens_next(*old(self), ciphertext@, q@)),
            final(self).ours() == old(self).ours(),
            final(self).can_send() == old(self).can_send(),
            final(self).sent() == old(self).sent(),
            final(self).transcript() == old(self).transcript(),
            final(self).is_initiator() == old(self).is_initiator(),
    {
        let ghost old_self = *self;
        let transport = match &mut self.state {
            NoiseState::Transport(t) => t,
            _ => return Err(NoiseError::WrongState),
        };
        let ghost t0 = *transport;
        let mut plaintext = zeroed(ciphertext.len());
        let res = transport_read(transport, ciphertext, &mut plaintext);
        proof {
            assert forall|p: Seq<u8>| #[trigger] opens_next(old_self, ciphertext@, p) implies opened_by(
                t0,
                ciphertext@,
                p,
            ) by {}
        }
        let len = match res {
            Ok(n) => n,
            Err(e) => return Err(NoiseError::Snow(e)),
        };
        Ok(truncated(plaintext, len))
    }

    /// True once the handshake is done.
    pub fn is_transport_mode(&self) -> (r: bool)
        ensures
            r == self.in_transport(),
    {
        match self.state {
            NoiseState::Transport(_) => true,
            _ => false,
        }
    }
}

/// A handshake step's outcome as plain values: `None` for an error, else the
/// reply to send, if any.
pub open spec fn handshake_outcome(o: Result<Option<Vec<u8>>, NoiseError>) -> Option<Option<Seq<u8>>> {
    match o {
        Ok(Some(reply)) => Some(Some(reply@)),
        Ok(None) => Some(None),
        Err(_) => None,
    }
}

/// `m` is the handshake message `s` reads next: on its turn, accepted by the
/// handshake, and fitting the read buffer.
pub open spec fn reads_next(s: NoiseSession, m: Seq<u8>) -> bool {
    &&& s.in_handshake()
    &&& s.ours()
    &&& xx_turn_to_read(s.transcript(), s.is_initiator())
    &&& m.len() <= HANDSHAKE_BUFFER_LEN
    &&& spec_xx_accepts(s.transcript(), s.is_initiator(), m)
}

/// `s` has just entered transport mode: it can send, and has sent and received
/// nothing yet.
pub open spec fn fresh_transport(s: NoiseSession) -> bool {
    &&& s.can_send()
    &&& s.sent() == Seq::<Seq<u8>>::empty()
    &&& s.received() == 0
}

/// What a handshake session `old` reading `input` becomes (`new`) with
/// outcome `o`: a message it reads next is never refused; on success the
/// message is recorded, and either the handshake is done (after its third
/// message) and the session in transport mode, or the reply it writes is
/// recorded too, is what the other side accepts next, and finishes the
/// handshake exactly when it is the third message. A session that enters
/// transport mode starts with nothing sent or received.
pub open spec fn read_step(
    old: NoiseSession,
    input: Seq<u8>,
    new: NoiseSession,
    o: Option<Option<Seq<u8>>>,
) -> bool {
    let t = old.transcript();
    let role = old.is_initiator();
    &&& reads_next(old, input) ==> o is Some
    &&& match o {
        None => true,
        Some(None) => {
            &&& new.in_transport()
            &&& fresh_transport(new)
            &&& new.ours()
            &&& new.is_initiator() == role
            &&& new.transcript() == t.push(input)
            &&& t.len() + 1 >= 3
        },
        Some(Some(reply)) => {
            &&& new.ours()
            &&& new.is_initiator() == role
            &&& new.transcript() == t.push(input).push(reply)
            &&& t.len() + 1 < 3
            &&& reply.len() <= HANDSHAKE_BUFFER_LEN
            &&& spec_xx_accepts(t.push(input), !role, reply)
            &&& (new.in_transport() <==> t.len() + 2 == 3)
            &&& (new.in_transport() ==> fresh_transport(new))
            &&& (!new.in_transport() ==> new.in_handshake())
        },
    }
}

/// The `XX` exchange completes: a fresh responder reads the initiator's first
/// message and replies, the initiator reads that reply and sends the last
/// message, and the responder reads it; both ends are then in transport mode,
/// paired (so each decrypts what the other encrypts), and neither has sent or
/// received anything yet.
pub proof fn lemma_xx_exchange(
    i1: NoiseSession,
    m1: Seq<u8>,
    r0: NoiseSession,
    r1: NoiseSession,
    o1: Option<Option<Seq<u8>>>,
    i2: NoiseSession,
    o2: Option<Option<Seq<u8>>>,
    r2: NoiseSession,
    o3: Option<Option<Seq<u8>>>,
)
    requires
        i1.in_handshake(),
        i1.ours(),
        i1.is_initiator(),
        i1.transcript() == seq![m1],
        m1.len() <= HANDSHAKE_BUFFER_LEN,
        spec_xx_accepts(Seq::empty(), false, m1),
        r0.in_handshake(),
        r0.ours(),
        !r0.is_initiator(),
        r0.transcript() == Seq::<Seq<u8>>::empty(),
        read_step(r0, m1, r1, o1),
        o1 matches Some(Some(m2)) ==> read_step(i1, m2, i2, o2),
        o2 matches Some(Some(m3)) ==> read_step(r1, m3, r2, o3),
    ensures
        o1 matches Some(Some(_)),
        o2 matches Some(Some(_)),
        o3 == Some(None::<Seq<u8>>),
        paired(i2, r2),
        fresh_transport(i2),
        fresh_transport(r2),
{
    assert(reads_next(r0, m1));
    let m2 = o1->0->0;
    assert(seq![m1].push(m2) =~= Seq::<Seq<u8>>::empty().push(m1).push(m2));
    assert(reads_next(i1, m2));
    let m3 = o2->0->0;
    assert(seq![m1].push(m2).push(m3) =~= Seq::<Seq<u8>>::empty().push(m1).push(m2).push(m3));
    assert(reads_next(r1, m3));
}

/// A session can send exactly when it is in transport mode for
/// `NOISE_PARAMS` and its sending nonce is not used up.
pub proof fn lemma_can_send(s: NoiseSession)
    ensures
        s.can_send() == (s.in_transport() && s.ours() && s.sent().len() < u64::MAX),
{
}

/// `c` is what `s` sends for `pt` as its next transport message.
pub open spec fn seals_next(s: NoiseSession, c: Seq<u8>, pt: Seq<u8>) -> bool {
    c == spec_xx_seal(s.transcript(), s.is_initiator(), s.sent().len(), pt)
}

/// `c` is what the other end of `s`'s handshake sends for `pt` as the next
/// transport message `s` receives.
pub open spec fn opens_next(s: NoiseSession, c: Seq<u8>, pt: Seq<u8>) -> bool {
    c == spec_xx_seal(s.transcript(), !s.is_initiator(), s.received(), pt)
}

/// `a` and `b` are the two ends of one handshake for `NOISE_PARAMS`: both in
/// transport mode, with the same handshake messages and opposite roles.
pub open spec fn paired(a: NoiseSession, b: NoiseSession) -> bool {
    &&& a.in_transport()
    &&& b.in_transport()
    &&& a.ours()
    &&& b.ours()
    &&& a.transcript() == b.transcript()
    &&& a.is_initiator() != b.is_initiator()
}

/// What one end of a handshake encrypts, the other end decrypts: when `b` has
/// received as many messages as `a` has sent, the ciphertext `a` makes of `pt`
/// next is the one `b` opens to `pt` next (`decrypt` then returns `pt`).
pub proof fn lemma_transport_round_trip(a: NoiseSession, b: NoiseSession, c: Seq<u8>, pt: Seq<u8>)
    requires
        paired(a, b),
        a.sent().len() == b.received(),
        seals_next(a, c, pt),
    ensures
        opens_next(b, c, pt),
{
}

} // verus!
