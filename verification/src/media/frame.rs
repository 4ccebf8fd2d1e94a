//! Sealed media frames.
//!
//! On the wire a frame is an 18-byte plaintext header, authenticated as
//! associated data, followed by the ChaCha20-Poly1305 ciphertext of the
//! payload. The nonce is `ssrc (4) | counter (8)`: unique per sender stream as
//! long as each sender uses a distinct ssrc within the call.

use vstd::prelude::*;

use chacha20poly1305::aead::{Aead, KeyInit, Payload};
use chacha20poly1305::ChaCha20Poly1305;

use crate::bytes::{
    append_bytes, big_endian, big_endian_value, bytes_between, lemma_big_endian_reads_back,
    lemma_lens, lemma_pow256_values, push_big_endian, read_big_endian,
};

verus! {

pub const HEADER_LEN: usize = 18;

/// The bytes that authentication adds to a payload.
pub const TAG_LEN: usize = 16;

/// Header flag bit 0: last frame of a video picture. Every video frame is one
/// whole picture, so the bit is always set on video.
pub const FLAG_END_OF_PICTURE: u8 = 0b0000_0001;

/// Header flag bit 1: this video frame is a keyframe, decodable with no prior
/// state. It is authenticated, so a forwarder can read it without decrypting.
pub const FLAG_KEYFRAME: u8 = 0b0000_0010;

/// What ChaCha20-Poly1305 makes of a message under a key, a nonce and
/// associated data.
pub uninterp spec fn aead_sealed(
    key: Seq<u8>,
    nonce: Seq<u8>,
    aad: Seq<u8>,
    message: Seq<u8>,
) -> Seq<u8>;

/// The message that ChaCha20-Poly1305 finds in a ciphertext, if it
/// authenticates under the key, the nonce and the associated data.
pub uninterp spec fn aead_opened(
    key: Seq<u8>,
    nonce: Seq<u8>,
    aad: Seq<u8>,
    ciphertext: Seq<u8>,
) -> Option<Seq<u8>>;

/// The longest message that the cipher takes. It counts blocks of 64 bytes in 32
/// bits; the first of them makes the key of the tag, and the last is never
/// reached.
pub const MAX_MESSAGE_LEN: u64 = 0x3f_ffff_ff80;

/// The cipher takes the message, and a buffer holds it: at most `isize::MAX`
/// bytes, the header and the tag among them.
pub open spec fn sealable(n: nat) -> bool {
    n <= MAX_MESSAGE_LEN && n + HEADER_LEN + TAG_LEN <= isize::MAX
}

/// `ChaCha20Poly1305::encrypt`: a message of a length that the cipher takes is
/// encrypted, the tag adds 16 bytes, and the result opens again under the same
/// key, nonce and associated data. Of a longer one it may panic.
#[verifier::external_body]
fn chacha_encrypt(key: &[u8; 32], nonce: &[u8; 12], aad: &[u8], message: &[u8]) -> (r: Result<
    Vec<u8>,
    chacha20poly1305::Error,
>)
    requires
        message@.len() <= MAX_MESSAGE_LEN,
        message@.len() + TAG_LEN <= isize::MAX,
    ensures
        r is Ok,
        match r {
            Ok(c) => {
                &&& c@ == aead_sealed(key@, nonce@, aad@, message@)
                &&& c@.len() == message@.len() + TAG_LEN
                &&& aead_opened(key@, nonce@, aad@, c@) == Some(message@)
            },
            Err(_) => true,
        },
{
    ChaCha20Poly1305::new(key.into()).encrypt(nonce.into(), Payload { msg: message, aad })
}

/// `ChaCha20Poly1305::decrypt`: the message if the ciphertext authenticates,
/// 16 bytes shorter than the ciphertext, and an error otherwise. It may panic on
/// a ciphertext longer than that of the longest message.
#[verifier::external_body]
fn chacha_decrypt(key: &[u8; 32], nonce: &[u8; 12], aad: &[u8], ciphertext: &[u8]) -> (r: Result<
    Vec<u8>,
    chacha20poly1305::Error,
>)
    requires
        ciphertext@.len() <= MAX_MESSAGE_LEN + TAG_LEN,
    ensures
        match r {
            Ok(m) => {
                &&& aead_opened(key@, nonce@, aad@, ciphertext@) == Some(m@)
                &&& m@.len() + TAG_LEN == ciphertext@.len()
            },
            Err(_) => aead_opened(key@, nonce@, aad@, ciphertext@) is None,
        },
{
    ChaCha20Poly1305::new(key.into()).decrypt(nonce.into(), Payload { msg: ciphertext, aad })
}

/// The error of the authenticated ciphers, which says nothing of its cause.
#[verifier::external_type_specification]
#[verifier::external_body]
pub struct ExAeadError(chacha20poly1305::Error);

#[derive(Debug, Clone, Copy, PartialEq, Eq, Structural)]
pub enum MediaKind {
    Audio,
    Video,
    /// In-band call control.
    Control,
}

pub open spec fn kind_byte(kind: MediaKind) -> u8 {
    match kind {
        MediaKind::Audio => 0,
        MediaKind::Video => 1,
        MediaKind::Control => 2,
    }
}

pub open spec fn kind_of(byte: u8) -> Option<MediaKind> {
    if byte == 0 {
        Some(MediaKind::Audio)
    } else if byte == 1 {
        Some(MediaKind::Video)
    } else if byte == 2 {
        Some(MediaKind::Control)
    } else {
        None
    }
}

impl MediaKind {
    pub fn to_byte(self) -> (r: u8)
        ensures
            r == kind_byte(self),
    {
        match self {
            MediaKind::Audio => 0,
            MediaKind::Video => 1,
            MediaKind::Control => 2,
        }
    }

    pub fn from_byte(byte: u8) -> (r: Option<Self>)
        ensures
            r == kind_of(byte),
    {
        if byte == 0 {
            Some(MediaKind::Audio)
        } else if byte == 1 {
            Some(MediaKind::Video)
        } else if byte == 2 {
            Some(MediaKind::Control)
        } else {
            None
        }
    }
}

#[derive(Debug, Clone, Copy, PartialEq, Eq, Structural)]
pub struct FrameHeader {
    /// Monotonic per-sender frame counter, also the nonce material, so it must
    /// never repeat for one key and ssrc.
    pub counter: u64,
    /// Media timestamp in 48 kHz units (audio) or 90 kHz (video).
    pub ts: u32,
    /// Sender stream id within the call.
    pub ssrc: u32,
    pub kind: MediaKind,
    pub flags: u8,
}

#[derive(Debug, Clone, Copy, PartialEq, Eq, Structural)]
pub enum FrameError {
    TooShort,
    BadKind,
    Decrypt,
    Encrypt,
}

impl FrameError {
    pub fn text(&self) -> (r: &'static str)
        ensures
            r@ == match *self {
                FrameError::TooShort => "frame too short"@,
                FrameError::BadKind => "unknown media kind"@,
                FrameError::Decrypt => "decryption failed (wrong key or tampered frame)"@,
                FrameError::Encrypt => "encryption failed"@,
            },
    {
        match self {
            FrameError::TooShort => "frame too short",
            FrameError::BadKind => "unknown media kind",
            FrameError::Decrypt => "decryption failed (wrong key or tampered frame)",
            FrameError::Encrypt => "encryption failed",
        }
    }
}

/// The symmetric key of a call's media.
#[derive(Debug, Clone)]
pub struct CallKey([u8; 32]);

impl View for CallKey {
    type V = Seq<u8>;

    closed spec fn view(&self) -> Seq<u8> {
        self.0@
    }
}

impl CallKey {
    pub fn new(bytes: [u8; 32]) -> (r: Self)
        ensures
            r@ == bytes@,
    {
        CallKey(bytes)
    }

    pub fn copied(&self) -> (r: Self)
        ensures
            r@ == self@,
    {
        CallKey(self.0)
    }
}

/// The header as it stands on the wire.
pub open spec fn header_bytes(h: FrameHeader) -> Seq<u8> {
    big_endian(h.counter as nat, 8) + big_endian(h.ts as nat, 4) + big_endian(h.ssrc as nat, 4)
        + seq![kind_byte(h.kind), h.flags]
}

/// The nonce of a frame: its stream, then its place in the stream.
pub open spec fn nonce_bytes(h: FrameHeader) -> Seq<u8> {
    big_endian(h.ssrc as nat, 4) + big_endian(h.counter as nat, 8)
}

/// The header that a frame opens with.
pub open spec fn header_of(s: Seq<u8>) -> Result<FrameHeader, FrameError> {
    if s.len() < HEADER_LEN {
        Err(FrameError::TooShort)
    } else {
        match kind_of(s[16]) {
            Some(kind) => Ok(
                FrameHeader {
                    counter: big_endian_value(s.subrange(0, 8)) as u64,
                    ts: big_endian_value(s.subrange(8, 12)) as u32,
                    ssrc: big_endian_value(s.subrange(12, 16)) as u32,
                    kind,
                    flags: s[17],
                },
            ),
            None => Err(FrameError::BadKind),
        }
    }
}

proof fn lemma_header_len(h: FrameHeader)
    ensures
        header_bytes(h).len() == HEADER_LEN,
        nonce_bytes(h).len() == 12,
{
    lemma_lens(h.counter as nat, 8);
    lemma_lens(h.ts as nat, 4);
    lemma_lens(h.ssrc as nat, 4);
}

/// A header is read back from whatever starts with its bytes.
pub proof fn law_header_reads_back(h: FrameHeader, rest: Seq<u8>)
    ensures
        header_of(header_bytes(h) + rest) == Ok::<FrameHeader, FrameError>(h),
        header_bytes(h).len() == HEADER_LEN,
{
    lemma_header_len(h);
    lemma_lens(h.counter as nat, 8);
    lemma_lens(h.ts as nat, 4);
    lemma_lens(h.ssrc as nat, 4);
    lemma_pow256_values();
    lemma_big_endian_reads_back(h.counter as nat, 8);
    lemma_big_endian_reads_back(h.ts as nat, 4);
    lemma_big_endian_reads_back(h.ssrc as nat, 4);
    let s = header_bytes(h) + rest;
    assert(s.subrange(0, 8) =~= big_endian(h.counter as nat, 8));
    assert(s.subrange(8, 12) =~= big_endian(h.ts as nat, 4));
    assert(s.subrange(12, 16) =~= big_endian(h.ssrc as nat, 4));
}

/// Two frames share a nonce only if they are the same place of the same stream.
pub proof fn law_nonces_are_distinct(a: FrameHeader, b: FrameHeader)
    requires
        nonce_bytes(a) == nonce_bytes(b),
    ensures
        a.ssrc == b.ssrc,
        a.counter == b.counter,
{
    lemma_lens(a.ssrc as nat, 4);
    lemma_lens(b.ssrc as nat, 4);
    lemma_lens(a.counter as nat, 8);
    lemma_lens(b.counter as nat, 8);
    lemma_pow256_values();
    lemma_big_endian_reads_back(a.ssrc as nat, 4);
    lemma_big_endian_reads_back(b.ssrc as nat, 4);
    lemma_big_endian_reads_back(a.counter as nat, 8);
    lemma_big_endian_reads_back(b.counter as nat, 8);
    assert(nonce_bytes(a).subrange(0, 4) =~= big_endian(a.ssrc as nat, 4));
    assert(nonce_bytes(b).subrange(0, 4) =~= big_endian(b.ssrc as nat, 4));
    assert(nonce_bytes(a).subrange(4, 12) =~= big_endian(a.counter as nat, 8));
    assert(nonce_bytes(b).subrange(4, 12) =~= big_endian(b.counter as nat, 8));
}

/// What a sealed frame is.
pub open spec fn sealed_frame(key: Seq<u8>, h: FrameHeader, payload: Seq<u8>) -> Seq<u8> {
    header_bytes(h) + aead_sealed(key, nonce_bytes(h), header_bytes(h), payload)
}

/// What opening a frame gives: the header is looked at first, then
/// authentication decides. Nothing longer than the cipher takes is authentic.
pub open spec fn opened_frame(key: Seq<u8>, s: Seq<u8>) -> Result<
    (FrameHeader, Seq<u8>),
    FrameError,
> {
    match header_of(s) {
        Err(e) => Err(e),
        Ok(h) => if s.len() > HEADER_LEN + MAX_MESSAGE_LEN + TAG_LEN {
            Err(FrameError::Decrypt)
        } else {
            match aead_opened(
                key,
                nonce_bytes(h),
                s.take(HEADER_LEN as int),
                s.skip(HEADER_LEN as int),
            ) {
                Some(payload) => Ok((h, payload)),
                None => Err(FrameError::Decrypt),
            }
        },
    }
}

impl FrameHeader {
    pub fn encode(&self) -> (r: Vec<u8>)
        ensures
            r@ == header_bytes(*self),
            r@.len() == HEADER_LEN,
    {
        let mut out: Vec<u8> = Vec::new();
        push_big_endian(&mut out, self.counter, 8);
        push_big_endian(&mut out, self.ts as u64, 4);
        push_big_endian(&mut out, self.ssrc as u64, 4);
        out.push(self.kind.to_byte());
        out.push(self.flags);
        proof {
            lemma_header_len(*self);
            assert(out@ =~= header_bytes(*self));
        }
        out
    }

    pub fn decode(bytes: &[u8]) -> (r: Result<Self, FrameError>)
        ensures
            r == header_of(bytes@),
    {
        if bytes.len() < HEADER_LEN {
            return Err(FrameError::TooShort);
        }
        proof {
            lemma_pow256_values();
        }
        let counter: u64 = read_big_endian(bytes, 0, 8);
        let ts: u64 = read_big_endian(bytes, 8, 4);
        let ssrc: u64 = read_big_endian(bytes, 12, 4);
        match MediaKind::from_byte(bytes[16]) {
            Some(kind) => Ok(
                FrameHeader { counter, ts: ts as u32, ssrc: ssrc as u32, kind, flags: bytes[17] },
            ),
            None => Err(FrameError::BadKind),
        }
    }

    pub fn nonce(&self) -> (r: [u8; 12])
        ensures
            r@ == nonce_bytes(*self),
    {
        let mut out: Vec<u8> = Vec::new();
        push_big_endian(&mut out, self.ssrc as u64, 4);
        push_big_endian(&mut out, self.counter, 8);
        proof {
            lemma_header_len(*self);
            assert(out@ =~= nonce_bytes(*self));
        }
        let mut nonce: [u8; 12] = [0;12];
        let mut i: usize = 0;
        while i < 12
            invariant
                i <= 12,
                out@.len() == 12,
                forall|j: int| 0 <= j < i ==> #[trigger] nonce@[j] == out@[j],
            decreases 12 - i,
        {
            nonce[i] = out[i];
            i = i + 1;
        }
        assert(nonce@ =~= out@);
        nonce
    }
}

/// The plaintext header of a frame, without touching the ciphertext.
pub fn peek_header(sealed: &[u8]) -> (r: Result<FrameHeader, FrameError>)
    ensures
        r == header_of(sealed@),
{
    FrameHeader::decode(sealed)
}

/// Encrypts one frame. What comes out opens under the same key to the header
/// and the payload that went in.
pub fn seal(key: &CallKey, header: FrameHeader, payload: &[u8]) -> (r: Result<Vec<u8>, FrameError>)
    ensures
        match r {
            Ok(s) => {
                &&& sealable(payload@.len())
                &&& s@ == sealed_frame(key@, header, payload@)
                &&& s@.len() == HEADER_LEN + payload@.len() + TAG_LEN
                &&& header_of(s@) == Ok::<FrameHeader, FrameError>(header)
                &&& opened_frame(key@, s@) == Ok::<(FrameHeader, Seq<u8>), FrameError>(
                    (header, payload@),
                )
            },
            Err(e) => !sealable(payload@.len()) && e == FrameError::Encrypt,
        },
{
    if payload.len() > isize::MAX as usize - HEADER_LEN - TAG_LEN || payload.len() as u64
        > MAX_MESSAGE_LEN {
        return Err(FrameError::Encrypt);
    }
    let mut out: Vec<u8> = header.encode();
    let nonce: [u8; 12] = header.nonce();
    match chacha_encrypt(&key.0, &nonce, &out, payload) {
        Ok(ciphertext) => {
            append_bytes(&mut out, &ciphertext);
            proof {
                law_header_reads_back(header, ciphertext@);
                assert(out@.take(HEADER_LEN as int) =~= header_bytes(header));
                assert(out@.skip(HEADER_LEN as int) =~= ciphertext@);
            }
            Ok(out)
        },
        Err(_) => Err(FrameError::Encrypt),
    }
}

/// Authenticates and decrypts one frame.
pub fn open(key: &CallKey, sealed: &[u8]) -> (r: Result<(FrameHeader, Vec<u8>), FrameError>)
    ensures
        match r {
            Ok((h, payload)) => opened_frame(key@, sealed@) == Ok::<
                (FrameHeader, Seq<u8>),
                FrameError,
            >((h, payload@)),
            Err(e) => opened_frame(key@, sealed@) == Err::<(FrameHeader, Seq<u8>), FrameError>(e),
        },
{
    let header = match FrameHeader::decode(sealed) {
        Ok(h) => h,
        Err(e) => {
            return Err(e);
        },
    };
    if (sealed.len() - HEADER_LEN) as u64 > MAX_MESSAGE_LEN + TAG_LEN as u64 {
        return Err(FrameError::Decrypt);
    }
    let nonce: [u8; 12] = header.nonce();
    let aad: Vec<u8> = bytes_between(sealed, 0, HEADER_LEN);
    let body: Vec<u8> = bytes_between(sealed, HEADER_LEN, sealed.len());
    proof {
        assert(aad@ =~= sealed@.take(HEADER_LEN as int));
        assert(body@ =~= sealed@.skip(HEADER_LEN as int));
    }
    match chacha_decrypt(&key.0, &nonce, &aad, &body) {
        Ok(payload) => Ok((header, payload)),
        Err(_) => Err(FrameError::Decrypt),
    }
}

/// Why bytes are no frame: they are too few for a header, or name a kind that there is
/// not. All others have one.
pub proof fn law_headers_are_read_from_any_frame(s: Seq<u8>)
    ensures
        s.len() < 18 ==> header_of(s) == Err::<FrameHeader, FrameError>(FrameError::TooShort),
        s.len() >= 18 && s[16] > 2 ==> header_of(s) == Err::<FrameHeader, FrameError>(
            FrameError::BadKind,
        ),
        s.len() >= 18 && s[16] <= 2 ==> header_of(s) is Ok && header_bytes(header_of(s)->Ok_0)
            == s.take(18),
{
    if s.len() >= 18 && s[16] <= 2 {
        let h = header_of(s)->Ok_0;
        crate::bytes::lemma_pow256_values();
        crate::bytes::lemma_big_endian_writes_back(s.subrange(0, 8));
        crate::bytes::lemma_big_endian_writes_back(s.subrange(8, 12));
        crate::bytes::lemma_big_endian_writes_back(s.subrange(12, 16));
        assert(header_bytes(h) =~= s.take(18));
    }
}

/// What is sealed under a key opens under it, if the cipher gives back what it took: with
/// its header and its payload. A frame that the cipher does not vouch for does not open.
pub proof fn law_opening_undoes_sealing(key: Seq<u8>, h: FrameHeader, payload: Seq<u8>)
    ensures
        ({
            let body = aead_sealed(key, nonce_bytes(h), header_bytes(h), payload);
            let back = aead_opened(key, nonce_bytes(h), header_bytes(h), body);
            &&& back is None && body.len() == payload.len() + 16 ==> opened_frame(
                key,
                sealed_frame(key, h, payload),
            ) is Err
            &&& back == Some(payload) && body.len() == payload.len() + 16 && payload.len()
                <= 0x3f_ffff_ff80 ==> opened_frame(key, sealed_frame(key, h, payload)) == Ok::<
                (FrameHeader, Seq<u8>),
                FrameError,
            >((h, payload))
        }),
        header_of(sealed_frame(key, h, payload)) == Ok::<FrameHeader, FrameError>(h),
{
    let body = aead_sealed(key, nonce_bytes(h), header_bytes(h), payload);
    let s = sealed_frame(key, h, payload);
    law_header_reads_back(h, body);
    assert(s.take(HEADER_LEN as int) =~= header_bytes(h));
    assert(s.skip(HEADER_LEN as int) =~= body);
}

/// Where the parts of a header stand: the counter in the first eight bytes, the time and the
/// stream in four each, the highest byte first, then the kind and the flags. The nonce is the
/// stream and then the counter.
pub proof fn law_headers_have_their_layout(h: FrameHeader)
    ensures
        header_bytes(h).len() == 18,
        big_endian_value(header_bytes(h).subrange(0, 8)) == h.counter,
        big_endian_value(header_bytes(h).subrange(8, 12)) == h.ts,
        big_endian_value(header_bytes(h).subrange(12, 16)) == h.ssrc,
        header_bytes(h)[16] == (match h.kind {
            MediaKind::Audio => 0u8,
            MediaKind::Video => 1u8,
            MediaKind::Control => 2u8,
        }),
        header_bytes(h)[17] == h.flags,
        nonce_bytes(h).len() == 12,
        big_endian_value(nonce_bytes(h).subrange(0, 4)) == h.ssrc,
        big_endian_value(nonce_bytes(h).subrange(4, 12)) == h.counter,
{
    crate::bytes::lemma_pow256_values();
    crate::bytes::lemma_lens(h.counter as nat, 8);
    crate::bytes::lemma_lens(h.ts as nat, 4);
    crate::bytes::lemma_lens(h.ssrc as nat, 4);
    crate::bytes::lemma_big_endian_reads_back(h.counter as nat, 8);
    crate::bytes::lemma_big_endian_reads_back(h.ts as nat, 4);
    crate::bytes::lemma_big_endian_reads_back(h.ssrc as nat, 4);
    let s = header_bytes(h);
    assert(s.subrange(0, 8) =~= big_endian(h.counter as nat, 8));
    assert(s.subrange(8, 12) =~= big_endian(h.ts as nat, 4));
    assert(s.subrange(12, 16) =~= big_endian(h.ssrc as nat, 4));
    let n = nonce_bytes(h);
    assert(n.subrange(0, 4) =~= big_endian(h.ssrc as nat, 4));
    assert(n.subrange(4, 12) =~= big_endian(h.counter as nat, 8));
}

/// Anything that the cipher takes and a buffer holds can be sealed.
pub proof fn law_what_fits_can_be_sealed(n: nat)
    ensures
        sealable(n) <==> n <= 0x3f_ffff_ff80 && n + 34 <= isize::MAX,
{
}

} // verus!
