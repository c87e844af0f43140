//! The proof transcript: a byte tape that the prover writes and the verifier reads back, together
//! with the record of the bytes absorbed by the Fiat-Shamir challenger on each side.
//!
//! The prover has three ways to send bytes:
//! - `message()` writes to the tape and absorbs the bytes into the challenger,
//! - `decommitment()` writes to the tape only (openings of data absorbed earlier),
//! - `observe()` absorbs only (the public statement, known to both sides).
//!
//! The verifier mirrors them: `message()` reads from the tape and absorbs, `decommitment()` reads
//! only, and `observe()` absorbs only. Field scalars travel as 16 bytes, least significant first.
use bytes::{Buf, BufMut, Bytes, BytesMut};
use vstd::arithmetic::power2::pow2;
use vstd::prelude::*;
use vstd::string::StringSliceAdditionalSpecFns;

verus! {

#[verifier::external_type_specification]
#[verifier::external_body]
pub struct ExBytesMut(bytes::BytesMut);

#[verifier::external_type_specification]
#[verifier::external_body]
pub struct ExBytes(bytes::Bytes);

/// The bytes held by a growable `bytes::BytesMut` buffer.
pub uninterp spec fn bytes_mut_contents(b: BytesMut) -> Seq<u8>;

/// The bytes not yet consumed from a `bytes::Bytes` buffer.
pub uninterp spec fn bytes_contents(b: Bytes) -> Seq<u8>;

/// `bytes::BytesMut::new`: an empty buffer.
#[verifier::external_body]
fn bytes_mut_new() -> (b: BytesMut)
    ensures
        bytes_mut_contents(b) == Seq::<u8>::empty(),
{
    BytesMut::new()
}

/// `<bytes::BytesMut as bytes::BufMut>::put_slice`: appends `data`. The buffer grows as needed;
/// it panics only when the total length would exceed `isize::MAX`, which `requires` excludes.
#[verifier::external_body]
fn bytes_mut_put_slice(b: &mut BytesMut, data: &[u8])
    requires
        bytes_mut_contents(*old(b)).len() + data@.len() <= isize::MAX,
    ensures
        bytes_mut_contents(*final(b)) == bytes_mut_contents(*old(b)) + data@,
{
    b.put_slice(data)
}

/// `<[u8]>::to_vec` on the bytes of a `bytes::BytesMut` (reached through its `Deref`): a copy of
/// the contents.
#[verifier::external_body]
fn bytes_mut_to_vec(b: &BytesMut) -> (v: Vec<u8>)
    ensures
        v@ == bytes_mut_contents(*b),
{
    b.to_vec()
}

/// `<bytes::Bytes as From<Vec<u8>>>::from`: a buffer holding exactly the vector's bytes.
#[verifier::external_body]
fn bytes_from_vec(v: Vec<u8>) -> (b: Bytes)
    ensures
        bytes_contents(b) == v@,
{
    Bytes::from(v)
}

/// `<bytes::Bytes as bytes::Buf>::remaining`: the number of unconsumed bytes.
#[verifier::external_body]
fn bytes_remaining(b: &Bytes) -> (n: usize)
    ensures
        n == bytes_contents(*b).len(),
{
    b.remaining()
}

/// `<bytes::Bytes as bytes::Buf>::copy_to_slice`: fills `dst` with the next `dst.len()` bytes and
/// consumes them. It panics when fewer bytes remain, which `requires` excludes.
#[verifier::external_body]
fn bytes_copy_to_slice(b: &mut Bytes, dst: &mut [u8])
    requires
        old(dst)@.len() <= bytes_contents(*old(b)).len(),
    ensures
        final(dst)@ == bytes_contents(*old(b)).take(old(dst)@.len() as int),
        bytes_contents(*final(b)) == bytes_contents(*old(b)).skip(old(dst)@.len() as int),
{
    b.copy_to_slice(dst)
}

/// The 16-byte little-endian encoding of a field scalar.
pub open spec fn scalar_le_bytes(x: u128) -> Seq<u8> {
    Seq::new(16, |i: int| ((x >> ((8 * i) as u128)) & 0xff) as u8)
}

/// The scalar whose little-endian encoding is the first 16 bytes of `s`.
pub open spec fn scalar_from_le_bytes(s: Seq<u8>) -> u128 {
    (s[0] as u128) | ((s[1] as u128) << 8u128) | ((s[2] as u128) << 16u128) | ((s[3] as u128)
        << 24u128) | ((s[4] as u128) << 32u128) | ((s[5] as u128) << 40u128) | ((s[6] as u128)
        << 48u128) | ((s[7] as u128) << 56u128) | ((s[8] as u128) << 64u128) | ((s[9] as u128)
        << 72u128) | ((s[10] as u128) << 80u128) | ((s[11] as u128) << 88u128) | ((s[12] as u128)
        << 96u128) | ((s[13] as u128) << 104u128) | ((s[14] as u128) << 112u128) | ((s[15] as u128)
        << 120u128)
}

/// The concatenated encodings of a sequence of scalars.
pub open spec fn scalars_le_bytes(xs: Seq<u128>) -> Seq<u8>
    decreases xs.len(),
{
    if xs.len() == 0 {
        Seq::empty()
    } else {
        scalars_le_bytes(xs.drop_last()) + scalar_le_bytes(xs.last())
    }
}

/// Decoding an encoded scalar gives it back.
pub proof fn lemma_scalar_round_trip(x: u128)
    ensures
        scalar_from_le_bytes(scalar_le_bytes(x)) == x,
        scalar_le_bytes(x).len() == 16,
{
    let s = scalar_le_bytes(x);
    assert(s[0] == ((x >> 0u128) & 0xff) as u8);
    assert(s[1] == ((x >> 8u128) & 0xff) as u8);
    assert(s[2] == ((x >> 16u128) & 0xff) as u8);
    assert(s[3] == ((x >> 24u128) & 0xff) as u8);
    assert(s[4] == ((x >> 32u128) & 0xff) as u8);
    assert(s[5] == ((x >> 40u128) & 0xff) as u8);
    assert(s[6] == ((x >> 48u128) & 0xff) as u8);
    assert(s[7] == ((x >> 56u128) & 0xff) as u8);
    assert(s[8] == ((x >> 64u128) & 0xff) as u8);
    assert(s[9] == ((x >> 72u128) & 0xff) as u8);
    assert(s[10] == ((x >> 80u128) & 0xff) as u8);
    assert(s[11] == ((x >> 88u128) & 0xff) as u8);
    assert(s[12] == ((x >> 96u128) & 0xff) as u8);
    assert(s[13] == ((x >> 104u128) & 0xff) as u8);
    assert(s[14] == ((x >> 112u128) & 0xff) as u8);
    assert(s[15] == ((x >> 120u128) & 0xff) as u8);
    assert(((((x >> 0u128) & 0xff) as u8) as u128) | (((((x >> 8u128) & 0xff) as u8) as u128)
        << 8u128) | (((((x >> 16u128) & 0xff) as u8) as u128) << 16u128) | (((((x >> 24u128)
        & 0xff) as u8) as u128) << 24u128) | (((((x >> 32u128) & 0xff) as u8) as u128) << 32u128)
        | (((((x >> 40u128) & 0xff) as u8) as u128) << 40u128) | (((((x >> 48u128) & 0xff) as u8)
        as u128) << 48u128) | (((((x >> 56u128) & 0xff) as u8) as u128) << 56u128) | (((((x
        >> 64u128) & 0xff) as u8) as u128) << 64u128) | (((((x >> 72u128) & 0xff) as u8) as u128)
        << 72u128) | (((((x >> 80u128) & 0xff) as u8) as u128) << 80u128) | (((((x >> 88u128)
        & 0xff) as u8) as u128) << 88u128) | (((((x >> 96u128) & 0xff) as u8) as u128) << 96u128)
        | (((((x >> 104u128) & 0xff) as u8) as u128) << 104u128) | (((((x >> 112u128) & 0xff)
        as u8) as u128) << 112u128) | (((((x >> 120u128) & 0xff) as u8) as u128) << 120u128)
        == x) by (bit_vector);
}

/// Byte `i` of a scalar's 16-byte encoding is the scalar's base-256 digit `i`,
/// `floor(x / 256^i) mod 256`: the encoding is little-endian, least significant byte first.
pub proof fn lemma_scalar_le_bytes_digits(x: u128, i: int)
    requires
        0 <= i < 16,
    ensures
        scalar_le_bytes(x).len() == 16,
        scalar_le_bytes(x)[i] as nat == (x as nat / pow2((8 * i) as nat)) % 256,
{
    let k = (8 * i) as u128;
    vstd::bits::lemma_u128_shr_is_div(x, k);
    let y = x >> k;
    assert((((y & 0xff) as u8) as u128) == y % 256) by (bit_vector);
    assert(scalar_le_bytes(x)[i] == ((x >> k) & 0xff) as u8);
}

/// Encoding the decoded first 16 bytes of `s` gives those bytes back.
pub proof fn lemma_scalar_encode_decode(s: Seq<u8>)
    requires
        s.len() >= 16,
    ensures
        scalar_le_bytes(scalar_from_le_bytes(s)) == s.take(16),
{
    let (b0, b1, b2, b3, b4, b5, b6, b7) = (s[0], s[1], s[2], s[3], s[4], s[5], s[6], s[7]);
    let (b8, b9, b10, b11, b12, b13, b14, b15) = (
        s[8],
        s[9],
        s[10],
        s[11],
        s[12],
        s[13],
        s[14],
        s[15],
    );
    let d = scalar_from_le_bytes(s);
    assert(d == (b0 as u128) | ((b1 as u128) << 8u128) | ((b2 as u128) << 16u128) | ((b3 as u128)
        << 24u128) | ((b4 as u128) << 32u128) | ((b5 as u128) << 40u128) | ((b6 as u128)
        << 48u128) | ((b7 as u128) << 56u128) | ((b8 as u128) << 64u128) | ((b9 as u128)
        << 72u128) | ((b10 as u128) << 80u128) | ((b11 as u128) << 88u128) | ((b12 as u128)
        << 96u128) | ((b13 as u128) << 104u128) | ((b14 as u128) << 112u128) | ((b15 as u128)
        << 120u128));
    assert(((d >> 0u128) & 0xff) as u8 == b0 && ((d >> 8u128) & 0xff) as u8 == b1 && ((d
        >> 16u128) & 0xff) as u8 == b2 && ((d >> 24u128) & 0xff) as u8 == b3 && ((d >> 32u128)
        & 0xff) as u8 == b4 && ((d >> 40u128) & 0xff) as u8 == b5 && ((d >> 48u128) & 0xff) as u8
        == b6 && ((d >> 56u128) & 0xff) as u8 == b7 && ((d >> 64u128) & 0xff) as u8 == b8 && ((d
        >> 72u128) & 0xff) as u8 == b9 && ((d >> 80u128) & 0xff) as u8 == b10 && ((d >> 88u128)
        & 0xff) as u8 == b11 && ((d >> 96u128) & 0xff) as u8 == b12 && ((d >> 104u128) & 0xff)
        as u8 == b13 && ((d >> 112u128) & 0xff) as u8 == b14 && ((d >> 120u128) & 0xff) as u8
        == b15) by (bit_vector)
        requires
            d == (b0 as u128) | ((b1 as u128) << 8u128) | ((b2 as u128) << 16u128) | ((
            b3 as u128) << 24u128) | ((b4 as u128) << 32u128) | ((b5 as u128) << 40u128) | ((
            b6 as u128) << 48u128) | ((b7 as u128) << 56u128) | ((b8 as u128) << 64u128) | ((
            b9 as u128) << 72u128) | ((b10 as u128) << 80u128) | ((b11 as u128) << 88u128) | ((
            b12 as u128) << 96u128) | ((b13 as u128) << 104u128) | ((b14 as u128) << 112u128)
                | ((b15 as u128) << 120u128),
    ;
    assert(scalar_le_bytes(d) =~= s.take(16));
}

/// Decoding reads the first 16 bytes least significant first: base-256 digit `i` of the decoded
/// scalar is byte `i`.
pub proof fn lemma_scalar_from_le_bytes_digits(s: Seq<u8>, i: int)
    requires
        s.len() >= 16,
        0 <= i < 16,
    ensures
        (scalar_from_le_bytes(s) as nat / pow2((8 * i) as nat)) % 256 == s[i] as nat,
{
    lemma_scalar_encode_decode(s);
    lemma_scalar_le_bytes_digits(scalar_from_le_bytes(s), i);
}

/// Encodes a scalar as 16 bytes, least significant first.
pub fn encode_scalar(x: u128) -> (v: Vec<u8>)
    ensures
        v@ == scalar_le_bytes(x),
{
    let mut v: Vec<u8> = Vec::new();
    let mut i: u128 = 0;
    while i < 16
        invariant
            i <= 16,
            v@ =~= scalar_le_bytes(x).take(i as int),
        decreases 16 - i,
    {
        v.push(((x >> (8 * i)) & 0xff) as u8);
        i = i + 1;
    }
    v
}

/// Decodes the scalar held in 16 little-endian bytes.
pub fn decode_scalar(s: &[u8]) -> (x: u128)
    requires
        s@.len() == 16,
    ensures
        x == scalar_from_le_bytes(s@),
{
    (s[0] as u128) | ((s[1] as u128) << 8u128) | ((s[2] as u128) << 16u128) | ((s[3] as u128)
        << 24u128) | ((s[4] as u128) << 32u128) | ((s[5] as u128) << 40u128) | ((s[6] as u128)
        << 48u128) | ((s[7] as u128) << 56u128) | ((s[8] as u128) << 64u128) | ((s[9] as u128)
        << 72u128) | ((s[10] as u128) << 80u128) | ((s[11] as u128) << 88u128) | ((s[12] as u128)
        << 96u128) | ((s[13] as u128) << 104u128) | ((s[14] as u128) << 112u128) | ((s[15] as u128)
        << 120u128)
}


/// Appends `data` to a byte vector.
fn append_bytes(v: &mut Vec<u8>, data: &[u8])
    ensures
        final(v)@ == old(v)@ + data@,
{
    let ghost start = v@;
    let mut i: usize = 0;
    while i < data.len()
        invariant
            i <= data@.len(),
            v@ == start + data@.take(i as int),
        decreases data@.len() - i,
    {
        v.push(data[i]);
        proof {
            assert(data@.take(i as int + 1) =~= data@.take(i as int).push(data@[i as int]));
        }
        i = i + 1;
    }
    proof {
        assert(data@.take(data@.len() as int) =~= data@);
    }
}

/// Configuration options for transcript behaviour.
#[derive(Debug, Clone, Copy)]
pub struct Options {
    /// Whether debug markers are written to and checked on the tape.
    pub debug_assertions: bool,
}

/// Errors raised while reading a transcript.
#[derive(Debug, Clone, Copy, PartialEq, Eq, Structural)]
pub enum TranscriptError {
    /// The tape holds fewer bytes than a read asked for.
    NotEnoughBytes,
    /// The verifier finished while unread bytes remained on the tape.
    TranscriptNotEmpty { remaining: usize },
}

/// Where written bytes go.
#[derive(Debug, Clone, Copy, PartialEq, Eq, Structural)]
pub enum Route {
    /// To the proof tape and into the challenger.
    Message,
    /// To the proof tape only.
    Decommitment,
    /// Into the challenger only.
    Observe,
}

impl Route {
    /// Whether bytes sent this way land on the proof tape.
    pub open spec fn writes_tape(self) -> bool {
        self != Route::Observe
    }

    /// Whether bytes sent this way are absorbed by the challenger.
    pub open spec fn observes(self) -> bool {
        self != Route::Decommitment
    }
}

/// The tape after sending `data` along `route`.
pub open spec fn tape_after(route: Route, tape: Seq<u8>, data: Seq<u8>) -> Seq<u8> {
    if route.writes_tape() {
        tape + data
    } else {
        tape
    }
}

/// The absorbed bytes after sending `data` along `route`.
pub open spec fn observed_after(route: Route, observed: Seq<u8>, data: Seq<u8>) -> Seq<u8> {
    if route.observes() {
        observed + data
    } else {
        observed
    }
}

/// The prover side of a transcript: a growable proof tape and the challenger's absorbed bytes.
pub struct ProverTranscript {
    tape: BytesMut,
    observed: Vec<u8>,
    options: Options,
}

impl ProverTranscript {
    /// The bytes written to the proof tape so far.
    pub closed spec fn tape(&self) -> Seq<u8> {
        bytes_mut_contents(self.tape)
    }

    /// The bytes absorbed by the challenger so far.
    pub closed spec fn observed(&self) -> Seq<u8> {
        self.observed@
    }

    /// Whether debug markers are written.
    pub closed spec fn debug_assertions(&self) -> bool {
        self.options.debug_assertions
    }

    /// A fresh transcript with debug markers off.
    pub fn new() -> (t: Self)
        ensures
            t.tape() == Seq::<u8>::empty(),
            t.observed() == Seq::<u8>::empty(),
            !t.debug_assertions(),
    {
        Self::with_opts(Options { debug_assertions: false })
    }

    /// A fresh transcript with the given options.
    pub fn with_opts(options: Options) -> (t: Self)
        ensures
            t.tape() == Seq::<u8>::empty(),
            t.observed() == Seq::<u8>::empty(),
            t.debug_assertions() == options.debug_assertions,
    {
        ProverTranscript { tape: bytes_mut_new(), observed: Vec::new(), options }
    }

    /// The options this transcript was made with.
    pub fn options(&self) -> (o: Options)
        ensures
            o.debug_assertions == self.debug_assertions(),
    {
        self.options
    }

    /// The bytes absorbed by the challenger so far.
    pub fn observed_bytes(&self) -> (b: &[u8])
        ensures
            b@ == self.observed(),
    {
        self.observed.as_slice()
    }

    /// The finished proof: every byte written to the tape, in order.
    pub fn finalize(self) -> (proof: Vec<u8>)
        ensures
            proof@ == self.tape(),
    {
        bytes_mut_to_vec(&self.tape)
    }

    /// Hands the finished proof to a fresh verifier transcript with the same options; its
    /// challenger starts from scratch.
    pub fn into_verifier(self) -> (v: VerifierTranscript)
        ensures
            v.tape() == self.tape(),
            v.observed() == Seq::<u8>::empty(),
            v.debug_assertions() == self.debug_assertions(),
    {
        let options = self.options;
        let proof = self.finalize();
        VerifierTranscript::with_opts(proof, options)
    }

    /// A writer whose bytes go to the tape and into the challenger.
    pub fn message(&mut self) -> (w: TranscriptWriter<'_>)
        ensures
            *w.transcript == *old(self),
            w.route == Route::Message,
            *final(self) == *final(w.transcript),
    {
        TranscriptWriter { transcript: self, route: Route::Message }
    }

    /// A writer whose bytes go to the tape only.
    pub fn decommitment(&mut self) -> (w: TranscriptWriter<'_>)
        ensures
            *w.transcript == *old(self),
            w.route == Route::Decommitment,
            *final(self) == *final(w.transcript),
    {
        TranscriptWriter { transcript: self, route: Route::Decommitment }
    }

    /// A writer whose bytes go into the challenger only.
    pub fn observe(&mut self) -> (w: TranscriptWriter<'_>)
        ensures
            *w.transcript == *old(self),
            w.route == Route::Observe,
            *final(self) == *final(w.transcript),
    {
        TranscriptWriter { transcript: self, route: Route::Observe }
    }
}

/// Writes to a prover transcript along one route.
pub struct TranscriptWriter<'a> {
    /// The transcript written to.
    pub transcript: &'a mut ProverTranscript,
    /// Where the written bytes go.
    pub route: Route,
}

impl<'a> TranscriptWriter<'a> {
    /// Sends raw bytes.
    pub fn write_bytes(&mut self, data: &[u8])
        requires
            old(self).transcript.tape().len() + data@.len() <= isize::MAX,
        ensures
            final(self).route == old(self).route,
            final(self).transcript.tape() == tape_after(
                old(self).route,
                old(self).transcript.tape(),
                data@,
            ),
            final(self).transcript.observed() == observed_after(
                old(self).route,
                old(self).transcript.observed(),
                data@,
            ),
            final(self).transcript.debug_assertions() == old(self).transcript.debug_assertions(),
            *final(old(self).transcript) == *final(final(self).transcript),
    {
        match self.route {
            Route::Message => {
                bytes_mut_put_slice(&mut self.transcript.tape, data);
                append_bytes(&mut self.transcript.observed, data);
            },
            Route::Decommitment => {
                bytes_mut_put_slice(&mut self.transcript.tape, data);
            },
            Route::Observe => {
                append_bytes(&mut self.transcript.observed, data);
            },
        }
    }

    /// Sends one scalar as 16 little-endian bytes.
    pub fn write_scalar(&mut self, x: u128)
        requires
            old(self).transcript.tape().len() + 16 <= isize::MAX,
        ensures
            final(self).route == old(self).route,
            final(self).transcript.tape() == tape_after(
                old(self).route,
                old(self).transcript.tape(),
                scalar_le_bytes(x),
            ),
            final(self).transcript.observed() == observed_after(
                old(self).route,
                old(self).transcript.observed(),
                scalar_le_bytes(x),
            ),
            final(self).transcript.debug_assertions() == old(self).transcript.debug_assertions(),
            *final(old(self).transcript) == *final(final(self).transcript),
    {
        let bytes = encode_scalar(x);
        self.write_bytes(bytes.as_slice());
    }

    /// Sends a slice of scalars, each as 16 little-endian bytes, in order.
    pub fn write_scalar_slice(&mut self, xs: &[u128])
        requires
            old(self).transcript.tape().len() + 16 * xs@.len() <= isize::MAX,
        ensures
            final(self).route == old(self).route,
            final(self).transcript.tape() == tape_after(
                old(self).route,
                old(self).transcript.tape(),
                scalars_le_bytes(xs@),
            ),
            final(self).transcript.observed() == observed_after(
                old(self).route,
                old(self).transcript.observed(),
                scalars_le_bytes(xs@),
            ),
            final(self).transcript.debug_assertions() == old(self).transcript.debug_assertions(),
            *final(old(self).transcript) == *final(final(self).transcript),
    {
        let ghost route = self.route;
        let ghost tape0 = self.transcript.tape();
        let ghost obs0 = self.transcript.observed();
        let mut i: usize = 0;
        while i < xs.len()
            invariant
                i <= xs@.len(),
                self.route == route,
                tape0.len() + 16 * xs@.len() <= isize::MAX,
                self.transcript.tape() == tape_after(route, tape0, scalars_le_bytes(xs@.take(i as int))),
                self.transcript.observed() == observed_after(
                    route,
                    obs0,
                    scalars_le_bytes(xs@.take(i as int)),
                ),
                self.transcript.debug_assertions() == old(self).transcript.debug_assertions(),
                *final(old(self).transcript) == *final(self.transcript),
            decreases xs@.len() - i,
        {
            proof {
                lemma_scalars_le_bytes_len(xs@.take(i as int));
                assert(xs@.take(i as int + 1).drop_last() =~= xs@.take(i as int));
                assert(16 * (i as int) + 16 <= 16 * xs@.len()) by (nonlinear_arith)
                    requires
                        i < xs@.len(),
                ;
            }
            self.write_scalar(xs[i]);
            proof {
                assert(scalars_le_bytes(xs@.take(i as int + 1)) == scalars_le_bytes(xs@.take(i as int))
                    + scalar_le_bytes(xs@[i as int]));
                if route.writes_tape() {
                    assert(self.transcript.tape() =~= tape0 + scalars_le_bytes(xs@.take(i as int + 1)));
                }
                if route.observes() {
                    assert(self.transcript.observed() =~= obs0 + scalars_le_bytes(xs@.take(i as int + 1)));
                }
            }
            i = i + 1;
        }
        proof {
            assert(xs@.take(xs@.len() as int) =~= xs@);
        }
    }

    /// Sends a debug marker when the transcript's debug markers are on; otherwise does nothing.
    pub fn write_debug(&mut self, msg: &str)
        requires
            old(self).transcript.tape().len() + msg.spec_bytes().len() <= isize::MAX,
        ensures
            final(self).route == old(self).route,
            final(self).transcript.tape() == if old(self).transcript.debug_assertions() {
                tape_after(old(self).route, old(self).transcript.tape(), msg.spec_bytes())
            } else {
                old(self).transcript.tape()
            },
            final(self).transcript.observed() == if old(self).transcript.debug_assertions() {
                observed_after(old(self).route, old(self).transcript.observed(), msg.spec_bytes())
            } else {
                old(self).transcript.observed()
            },
            final(self).transcript.debug_assertions() == old(self).transcript.debug_assertions(),
            *final(old(self).transcript) == *final(final(self).transcript),
    {
        if self.transcript.options.debug_assertions {
            self.write_bytes(msg.as_bytes());
        }
    }
}

/// The byte length of the encodings of `xs`.
pub proof fn lemma_scalars_le_bytes_len(xs: Seq<u128>)
    ensures
        scalars_le_bytes(xs).len() == 16 * xs.len(),
    decreases xs.len(),
{
    if xs.len() > 0 {
        lemma_scalars_le_bytes_len(xs.drop_last());
    }
}

/// The verifier side of a transcript: the proof tape still to be read and the challenger's
/// absorbed bytes.
pub struct VerifierTranscript {
    tape: Bytes,
    observed: Vec<u8>,
    options: Options,
}


impl VerifierTranscript {
    /// The bytes of the proof tape not yet read.
    pub closed spec fn tape(&self) -> Seq<u8> {
        bytes_contents(self.tape)
    }

    /// The bytes absorbed by the challenger so far.
    pub closed spec fn observed(&self) -> Seq<u8> {
        self.observed@
    }

    /// Whether debug markers are checked.
    pub closed spec fn debug_assertions(&self) -> bool {
        self.options.debug_assertions
    }

    /// A verifier transcript over the given proof, with debug markers off.
    pub fn new(proof: Vec<u8>) -> (t: Self)
        ensures
            t.tape() == proof@,
            t.observed() == Seq::<u8>::empty(),
            !t.debug_assertions(),
    {
        Self::with_opts(proof, Options { debug_assertions: false })
    }

    /// A verifier transcript over the given proof, with the given options.
    pub fn with_opts(proof: Vec<u8>, options: Options) -> (t: Self)
        ensures
            t.tape() == proof@,
            t.observed() == Seq::<u8>::empty(),
            t.debug_assertions() == options.debug_assertions,
    {
        VerifierTranscript { tape: bytes_from_vec(proof), observed: Vec::new(), options }
    }

    /// The bytes absorbed by the challenger so far.
    pub fn observed_bytes(&self) -> (b: &[u8])
        ensures
            b@ == self.observed(),
    {
        self.observed.as_slice()
    }

    /// The number of proof bytes not yet read.
    pub fn remaining(&self) -> (n: usize)
        ensures
            n == self.tape().len(),
    {
        bytes_remaining(&self.tape)
    }

    /// Checks that the whole proof was read.
    pub fn finalize(self) -> (r: Result<(), TranscriptError>)
        ensures
            self.tape().len() == 0 ==> r == Ok::<(), TranscriptError>(()),
            self.tape().len() != 0 ==> r == Err::<(), TranscriptError>(
                TranscriptError::TranscriptNotEmpty { remaining: self.tape().len() as usize },
            ),
    {
        let remaining = bytes_remaining(&self.tape);
        if remaining != 0 {
            return Err(TranscriptError::TranscriptNotEmpty { remaining });
        }
        Ok(())
    }

    /// A reader that takes bytes from the tape and absorbs them into the challenger.
    pub fn message(&mut self) -> (r: TranscriptReader<'_>)
        ensures
            *r.transcript == *old(self),
            r.observes,
            *final(self) == *final(r.transcript),
    {
        TranscriptReader { transcript: self, observes: true }
    }

    /// A reader that takes bytes from the tape only.
    pub fn decommitment(&mut self) -> (r: TranscriptReader<'_>)
        ensures
            *r.transcript == *old(self),
            !r.observes,
            *final(self) == *final(r.transcript),
    {
        TranscriptReader { transcript: self, observes: false }
    }

    /// A writer whose bytes go into the challenger only.
    pub fn observe(&mut self) -> (w: ObservationWriter<'_>)
        ensures
            *w.transcript == *old(self),
            *final(self) == *final(w.transcript),
    {
        ObservationWriter { transcript: self }
    }
}

/// Reads from a verifier transcript, absorbing what it reads when `observes` holds.
pub struct TranscriptReader<'a> {
    /// The transcript read from.
    pub transcript: &'a mut VerifierTranscript,
    /// Whether the bytes read are absorbed by the challenger.
    pub observes: bool,
}

/// The absorbed bytes after a reader took `data` from the tape.
pub open spec fn observed_after_read(observes: bool, observed: Seq<u8>, data: Seq<u8>) -> Seq<u8> {
    if observes {
        observed + data
    } else {
        observed
    }
}

impl<'a> TranscriptReader<'a> {
    /// Fills `buf` with the next bytes of the tape.
    ///
    /// Fails with `NotEnoughBytes`, reading nothing, when fewer bytes remain than `buf` holds.
    pub fn read_bytes(&mut self, buf: &mut [u8]) -> (r: Result<(), TranscriptError>)
        ensures
            final(self).observes == old(self).observes,
            final(self).transcript.debug_assertions() == old(self).transcript.debug_assertions(),
            *final(old(self).transcript) == *final(final(self).transcript),
            final(buf)@.len() == old(buf)@.len(),
            old(self).transcript.tape().len() < old(buf)@.len() ==> {
                &&& r == Err::<(), TranscriptError>(TranscriptError::NotEnoughBytes)
                &&& final(self).transcript.tape() == old(self).transcript.tape()
                &&& final(self).transcript.observed() == old(self).transcript.observed()
                &&& final(buf)@ == old(buf)@
            },
            old(self).transcript.tape().len() >= old(buf)@.len() ==> {
                &&& r == Ok::<(), TranscriptError>(())
                &&& final(buf)@ == old(self).transcript.tape().take(old(buf)@.len() as int)
                &&& final(self).transcript.tape() == old(self).transcript.tape().skip(
                    old(buf)@.len() as int,
                )
                &&& final(self).transcript.observed() == observed_after_read(
                    old(self).observes,
                    old(self).transcript.observed(),
                    final(buf)@,
                )
            },
    {
        let remaining = bytes_remaining(&self.transcript.tape);
        if remaining < buf.len() {
            return Err(TranscriptError::NotEnoughBytes);
        }
        bytes_copy_to_slice(&mut self.transcript.tape, buf);
        if self.observes {
            append_bytes(&mut self.transcript.observed, buf);
        }
        Ok(())
    }

    /// Reads one scalar from its 16 little-endian bytes.
    ///
    /// Fails with `NotEnoughBytes`, reading nothing, when fewer than 16 bytes remain.
    pub fn read_scalar(&mut self) -> (r: Result<u128, TranscriptError>)
        ensures
            final(self).observes == old(self).observes,
            final(self).transcript.debug_assertions() == old(self).transcript.debug_assertions(),
            *final(old(self).transcript) == *final(final(self).transcript),
            old(self).transcript.tape().len() < 16 ==> {
                &&& r == Err::<u128, TranscriptError>(TranscriptError::NotEnoughBytes)
                &&& final(self).transcript.tape() == old(self).transcript.tape()
                &&& final(self).transcript.observed() == old(self).transcript.observed()
            },
            old(self).transcript.tape().len() >= 16 ==> {
                &&& r == Ok::<u128, TranscriptError>(
                    scalar_from_le_bytes(old(self).transcript.tape().take(16)),
                )
                &&& final(self).transcript.tape() == old(self).transcript.tape().skip(16)
                &&& final(self).transcript.observed() == observed_after_read(
                    old(self).observes,
                    old(self).transcript.observed(),
                    old(self).transcript.tape().take(16),
                )
            },
    {
        let mut buf: Vec<u8> = vec![0u8; 16];
        let r = self.read_bytes(buf.as_mut_slice());
        match r {
            Ok(()) => Ok(decode_scalar(buf.as_slice())),
            Err(e) => Err(e),
        }
    }

    /// Reads `n` scalars, each from its 16 little-endian bytes.
    ///
    /// When fewer than `16 n` bytes remain it fails with `NotEnoughBytes`, after consuming the
    /// scalars that were complete.
    pub fn read_scalar_slice(&mut self, n: usize) -> (r: Result<Vec<u128>, TranscriptError>)
        ensures
            final(self).observes == old(self).observes,
            final(self).transcript.debug_assertions() == old(self).transcript.debug_assertions(),
            *final(old(self).transcript) == *final(final(self).transcript),
            old(self).transcript.tape().len() >= 16 * n ==> {
                &&& r matches Ok(v) && v@.len() == n && forall|i: int|
                    0 <= i < n ==> #[trigger] v@[i] == scalar_from_le_bytes(
                        old(self).transcript.tape().subrange(16 * i, 16 * i + 16),
                    )
                &&& final(self).transcript.tape() == old(self).transcript.tape().skip(16 * n)
                &&& final(self).transcript.observed() == observed_after_read(
                    old(self).observes,
                    old(self).transcript.observed(),
                    old(self).transcript.tape().take(16 * n),
                )
            },
            old(self).transcript.tape().len() < 16 * n ==> {
                let k = (old(self).transcript.tape().len() / 16) as int;
                &&& r == Err::<Vec<u128>, TranscriptError>(TranscriptError::NotEnoughBytes)
                &&& final(self).transcript.tape() == old(self).transcript.tape().skip(16 * k)
                &&& final(self).transcript.observed() == observed_after_read(
                    old(self).observes,
                    old(self).transcript.observed(),
                    old(self).transcript.tape().take(16 * k),
                )
            },
    {
        let ghost tape0 = self.transcript.tape();
        let ghost obs0 = self.transcript.observed();
        let ghost observes = self.observes;
        // The scalars that are complete on the tape are read before the shortfall is reported.
        let remaining = bytes_remaining(&self.transcript.tape);
        let complete = remaining / 16;
        let count = if complete < n {
            complete
        } else {
            n
        };
        let mut out: Vec<u128> = Vec::new();
        let mut i: usize = 0;
        while i < count
            invariant
                i <= count,
                16 * count <= tape0.len(),
                out@.len() == i,
                self.observes == observes,
                self.transcript.debug_assertions() == old(self).transcript.debug_assertions(),
                *final(old(self).transcript) == *final(self.transcript),
                self.transcript.tape() == tape0.skip(16 * i),
                self.transcript.observed() == observed_after_read(
                    observes,
                    obs0,
                    tape0.take(16 * i),
                ),
                forall|k: int|
                    0 <= k < i ==> #[trigger] out@[k] == scalar_from_le_bytes(
                        tape0.subrange(16 * k, 16 * k + 16),
                    ),
            decreases count - i,
        {
            let ghost before = self.transcript.tape();
            let x = self.read_scalar();
            match x {
                Ok(v) => {
                    proof {
                        assert(before.take(16) =~= tape0.subrange(16 * i, 16 * i + 16));
                        assert(self.transcript.tape() =~= tape0.skip(16 * (i + 1)));
                        assert(tape0.take(16 * i) + before.take(16) =~= tape0.take(16 * (i + 1)));
                    }
                    out.push(v);
                },
                Err(_) => {
                    proof {
                        assert(false);
                    }
                },
            }
            i = i + 1;
        }
        if count < n {
            return Err(TranscriptError::NotEnoughBytes);
        }
        Ok(out)
    }

    /// Checks a debug marker when the transcript's debug markers are on; otherwise does nothing.
    /// With markers on, the tape must start with the marker's bytes.
    pub fn read_debug(&mut self, msg: &str)
        requires
            old(self).transcript.debug_assertions() ==> old(self).transcript.tape().len()
                >= msg.spec_bytes().len() && old(self).transcript.tape().take(
                msg.spec_bytes().len() as int,
            ) == msg.spec_bytes(),
        ensures
            final(self).observes == old(self).observes,
            final(self).transcript.debug_assertions() == old(self).transcript.debug_assertions(),
            *final(old(self).transcript) == *final(final(self).transcript),
            old(self).transcript.debug_assertions() ==> {
                &&& final(self).transcript.tape() == old(self).transcript.tape().skip(
                    msg.spec_bytes().len() as int,
                )
                &&& final(self).transcript.observed() == observed_after_read(
                    old(self).observes,
                    old(self).transcript.observed(),
                    msg.spec_bytes(),
                )
            },
            !old(self).transcript.debug_assertions() ==> {
                &&& final(self).transcript.tape() == old(self).transcript.tape()
                &&& final(self).transcript.observed() == old(self).transcript.observed()
            },
    {
        if self.transcript.options.debug_assertions {
            let msg_bytes = msg.as_bytes();
            let mut buf: Vec<u8> = vec![0u8; msg_bytes.len()];
            let _ = self.read_bytes(buf.as_mut_slice());
        }
    }
}

/// Absorbs bytes into a verifier transcript's challenger without touching the tape.
pub struct ObservationWriter<'a> {
    /// The transcript whose challenger absorbs the bytes.
    pub transcript: &'a mut VerifierTranscript,
}

impl<'a> ObservationWriter<'a> {
    /// Absorbs raw bytes.
    pub fn write_bytes(&mut self, data: &[u8])
        ensures
            final(self).transcript.tape() == old(self).transcript.tape(),
            final(self).transcript.observed() == old(self).transcript.observed() + data@,
            final(self).transcript.debug_assertions() == old(self).transcript.debug_assertions(),
            *final(old(self).transcript) == *final(final(self).transcript),
    {
        append_bytes(&mut self.transcript.observed, data);
    }

    /// Absorbs one scalar as 16 little-endian bytes.
    pub fn write_scalar(&mut self, x: u128)
        ensures
            final(self).transcript.tape() == old(self).transcript.tape(),
            final(self).transcript.observed() == old(self).transcript.observed() + scalar_le_bytes(
                x,
            ),
            final(self).transcript.debug_assertions() == old(self).transcript.debug_assertions(),
            *final(old(self).transcript) == *final(final(self).transcript),
    {
        let bytes = encode_scalar(x);
        self.write_bytes(bytes.as_slice());
    }

    /// Absorbs a slice of scalars, each as 16 little-endian bytes, in order.
    pub fn write_scalar_slice(&mut self, xs: &[u128])
        ensures
            final(self).transcript.tape() == old(self).transcript.tape(),
            final(self).transcript.observed() == old(self).transcript.observed()
                + scalars_le_bytes(xs@),
            final(self).transcript.debug_assertions() == old(self).transcript.debug_assertions(),
            *final(old(self).transcript) == *final(final(self).transcript),
    {
        let ghost obs0 = self.transcript.observed();
        let mut i: usize = 0;
        while i < xs.len()
            invariant
                i <= xs@.len(),
                self.transcript.tape() == old(self).transcript.tape(),
                self.transcript.observed() == obs0 + scalars_le_bytes(xs@.take(i as int)),
                self.transcript.debug_assertions() == old(self).transcript.debug_assertions(),
                *final(old(self).transcript) == *final(self.transcript),
            decreases xs@.len() - i,
        {
            proof {
                assert(xs@.take(i as int + 1).drop_last() =~= xs@.take(i as int));
            }
            self.write_scalar(xs[i]);
            proof {
                assert(self.transcript.observed() =~= obs0 + scalars_le_bytes(xs@.take(i as int + 1)));
            }
            i = i + 1;
        }
        proof {
            assert(xs@.take(xs@.len() as int) =~= xs@);
        }
    }
}

/// The prover's tape after sending every `(route, bytes)` step of `steps` in order.
pub open spec fn prover_tape(steps: Seq<(Route, Seq<u8>)>) -> Seq<u8>
    decreases steps.len(),
{
    if steps.len() == 0 {
        Seq::empty()
    } else {
        tape_after(steps.last().0, prover_tape(steps.drop_last()), steps.last().1)
    }
}

/// The prover's absorbed bytes after sending every step of `steps` in order.
pub open spec fn prover_observed(steps: Seq<(Route, Seq<u8>)>) -> Seq<u8>
    decreases steps.len(),
{
    if steps.len() == 0 {
        Seq::empty()
    } else {
        observed_after(steps.last().0, prover_observed(steps.drop_last()), steps.last().1)
    }
}

/// One step of the verifier mirroring a prover step: a message is read and absorbed, a
/// decommitment is read, an observation is absorbed. The state is `(unread tape, absorbed bytes)`.
pub open spec fn verifier_step(state: (Seq<u8>, Seq<u8>), step: (Route, Seq<u8>)) -> (
    Seq<u8>,
    Seq<u8>,
) {
    let n = step.1.len() as int;
    match step.0 {
        Route::Message => (state.0.skip(n), observed_after_read(true, state.1, state.0.take(n))),
        Route::Decommitment => (state.0.skip(n), state.1),
        Route::Observe => (state.0, state.1 + step.1),
    }
}

/// The verifier's state after mirroring every step of `steps`, starting from a fresh challenger
/// and the tape `tape`.
pub open spec fn verifier_replay(tape: Seq<u8>, steps: Seq<(Route, Seq<u8>)>) -> (Seq<u8>, Seq<u8>)
    decreases steps.len(),
{
    if steps.len() == 0 {
        (tape, Seq::empty())
    } else {
        verifier_step(verifier_replay(tape, steps.drop_last()), steps.last())
    }
}

/// The prover's tape over a concatenation of step lists is the concatenation of their tapes.
pub proof fn lemma_prover_tape_concat(a: Seq<(Route, Seq<u8>)>, b: Seq<(Route, Seq<u8>)>)
    ensures
        prover_tape(a + b) == prover_tape(a) + prover_tape(b),
    decreases b.len(),
{
    if b.len() == 0 {
        assert(a + b =~= a);
        assert(prover_tape(a) + prover_tape(b) =~= prover_tape(a));
    } else {
        lemma_prover_tape_concat(a, b.drop_last());
        assert((a + b).drop_last() =~= a + b.drop_last());
        assert((a + b).last() == b.last());
        if b.last().0.writes_tape() {
            assert(prover_tape(a) + prover_tape(b.drop_last()) + b.last().1 =~= prover_tape(a) + (
            prover_tape(b.drop_last()) + b.last().1));
        }
    }
}

/// Replaying the prover's steps over the prover's tape followed by any further bytes leaves
/// exactly those further bytes unread, and the verifier absorbs exactly what the prover absorbed.
pub proof fn lemma_verifier_replay_tracks_prover(steps: Seq<(Route, Seq<u8>)>, rest: Seq<u8>)
    ensures
        verifier_replay(prover_tape(steps) + rest, steps) == (rest, prover_observed(steps)),
    decreases steps.len(),
{
    if steps.len() == 0 {
        assert(prover_tape(steps) + rest =~= rest);
    } else {
        let init = steps.drop_last();
        let step = steps.last();
        let d = step.1;
        let rest2 = if step.0.writes_tape() {
            d + rest
        } else {
            rest
        };
        lemma_verifier_replay_tracks_prover(init, rest2);
        if step.0.writes_tape() {
            assert(prover_tape(steps) + rest =~= prover_tape(init) + rest2);
            assert((d + rest).take(d.len() as int) =~= d);
            assert((d + rest).skip(d.len() as int) =~= rest);
        } else {
            assert(prover_tape(steps) + rest =~= prover_tape(init) + rest2);
        }
    }
}

/// What a read gives back of a write: when the verifier mirrors the prover's steps over the
/// finished proof, every message and decommitment it reads holds exactly the bytes the prover
/// wrote at that step; at the end the whole proof has been read (so `finalize` succeeds) and the
/// verifier's challenger has absorbed exactly the bytes the prover's absorbed.
pub proof fn lemma_transcript_round_trip(steps: Seq<(Route, Seq<u8>)>)
    ensures
        verifier_replay(prover_tape(steps), steps) == (Seq::<u8>::empty(), prover_observed(steps)),
        forall|i: int|
            0 <= i < steps.len() && (#[trigger] steps[i]).0.writes_tape() ==> verifier_replay(
                prover_tape(steps),
                steps.take(i),
            ).0.take(steps[i].1.len() as int) == steps[i].1,
{
    lemma_verifier_replay_tracks_prover(steps, Seq::empty());
    assert(prover_tape(steps) + Seq::<u8>::empty() =~= prover_tape(steps));
    assert forall|i: int|
        0 <= i < steps.len() && (#[trigger] steps[i]).0.writes_tape() implies verifier_replay(
        prover_tape(steps),
        steps.take(i),
    ).0.take(steps[i].1.len() as int) == steps[i].1 by {
        let head = steps.take(i);
        let tail = steps.skip(i);
        assert(head + tail =~= steps);
        lemma_prover_tape_concat(head, tail);
        let first = tail.take(1);
        let later = tail.skip(1);
        assert(first + later =~= tail);
        lemma_prover_tape_concat(first, later);
        assert(first.drop_last() =~= Seq::<(Route, Seq<u8>)>::empty());
        assert(first.last() == steps[i]);
        assert(prover_tape(first.drop_last()) == Seq::<u8>::empty());
        assert(prover_tape(first) =~= steps[i].1);
        lemma_verifier_replay_tracks_prover(head, prover_tape(tail));
        assert(prover_tape(tail) =~= steps[i].1 + prover_tape(later));
        assert((steps[i].1 + prover_tape(later)).take(steps[i].1.len() as int) =~= steps[i].1);
    }
}

/// Decoding what the scalar writer encoded gives back the scalar, so a scalar read back from the
/// bytes a scalar write put on the tape is the scalar written.
pub proof fn lemma_scalar_write_read(x: u128, rest: Seq<u8>)
    ensures
        (scalar_le_bytes(x) + rest).len() >= 16,
        scalar_from_le_bytes((scalar_le_bytes(x) + rest).take(16)) == x,
        (scalar_le_bytes(x) + rest).skip(16) == rest,
{
    lemma_scalar_round_trip(x);
    assert((scalar_le_bytes(x) + rest).take(16) =~= scalar_le_bytes(x));
    assert((scalar_le_bytes(x) + rest).skip(16) =~= rest);
}

} // verus!
