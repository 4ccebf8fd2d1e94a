//! FileTransfer bounded context: content-addressed, chunked, resumable.

use vstd::prelude::*;

use crate::order::{
    bytes_before, bytes_equal, lemma_lex_irreflexive, lemma_lex_total, lemma_lex_transitive,
    lex_before, Key,
};
use crate::shared::IdentityId;
use crate::text::{
    any_control, byte_len, byte_length, has_control, hex_of, hex_text, holds_char, opens_with,
};

verus! {

/// 256 KiB chunks.
pub const CHUNK_SIZE: u64 = 262144;

/// 2 GiB ceiling.
pub const MAX_FILE_SIZE: u64 = 2147483648;

/// A file name safe to write to disk: 1..=255 bytes, no path separators, no
/// NUL/control characters, no leading dot (no hidden files, no `..`).
#[derive(Debug, PartialEq, Eq)]
pub struct FileName(String);

#[derive(Debug, Clone, Copy, PartialEq, Eq, Structural)]
pub enum FileNameError {
    Empty,
    TooLong,
    PathSeparator,
    LeadingDot,
    ControlCharacter,
}

/// What is wrong with `raw` as a file name, if anything. The first complaint
/// wins.
pub open spec fn file_name_fault(raw: Seq<char>) -> Option<FileNameError> {
    if raw.len() == 0 {
        Some(FileNameError::Empty)
    } else if byte_len(raw) > 255 {
        Some(FileNameError::TooLong)
    } else if raw.contains('/') || raw.contains('\\') {
        Some(FileNameError::PathSeparator)
    } else if raw[0] == '.' {
        Some(FileNameError::LeadingDot)
    } else if has_control(raw) {
        Some(FileNameError::ControlCharacter)
    } else {
        None
    }
}

impl View for FileName {
    type V = Seq<char>;

    closed spec fn view(&self) -> Seq<char> {
        self.0@
    }
}

impl FileName {
    pub open spec fn wf(&self) -> bool {
        file_name_fault(self@) is None
    }

    pub fn parse(raw: &str) -> (r: Result<FileName, FileNameError>)
        ensures
            match r {
                Ok(n) => file_name_fault(raw@) is None && n@ == raw@ && n.wf(),
                Err(e) => file_name_fault(raw@) == Some(e),
            },
    {
        if raw.is_empty() {
            return Err(FileNameError::Empty);
        }
        if byte_length(raw) > 255 {
            return Err(FileNameError::TooLong);
        }
        if holds_char(raw, '/') || holds_char(raw, '\\') {
            return Err(FileNameError::PathSeparator);
        }
        if opens_with(raw, '.') {
            return Err(FileNameError::LeadingDot);
        }
        if any_control(raw) {
            return Err(FileNameError::ControlCharacter);
        }
        Ok(FileName(raw.to_owned()))
    }

    pub fn as_str(&self) -> (r: &str)
        ensures
            r@ == self@,
    {
        self.0.as_str()
    }
}

impl Clone for FileName {
    fn clone(&self) -> (r: Self)
        ensures
            r == *self,
    {
        FileName(self.0.clone())
    }
}

/// BLAKE3 digest of a chunk or of the whole blob.
#[derive(Clone, Copy, PartialEq, Eq, PartialOrd, Ord, Hash, Debug)]
pub struct BlobHash([u8; 32]);

impl View for BlobHash {
    type V = Seq<u8>;

    closed spec fn view(&self) -> Seq<u8> {
        self.0@
    }
}

impl BlobHash {
    /// The bytes are all there is: equal bytes, equal values.
    pub proof fn lemma_view_injective(a: BlobHash, b: BlobHash)
        ensures
            a@.len() == 32,
            (a@ == b@) == (a == b),
    {
        if a@ == b@ {
            assert(a.0 =~= b.0);
        }
    }

    pub fn from_bytes(bytes: [u8; 32]) -> (r: BlobHash)
        ensures
            r@ == bytes@,
    {
        BlobHash(bytes)
    }

    pub fn as_bytes(&self) -> (r: &[u8; 32])
        ensures
            r@ == self@,
    {
        &self.0
    }
}

impl Key for BlobHash {
    open spec fn before(self, other: Self) -> bool {
        lex_before(self@, other@)
    }

    proof fn lemma_irreflexive(a: Self) {
        lemma_lex_irreflexive(a@);
    }

    proof fn lemma_transitive(a: Self, b: Self, c: Self) {
        lemma_lex_transitive(a@, b@, c@);
    }

    proof fn lemma_total(a: Self, b: Self) {
        lemma_lex_total(a@, b@);
        BlobHash::lemma_view_injective(a, b);
    }

    fn is_before(&self, other: &Self) -> (r: bool) {
        bytes_before(&self.0, &other.0)
    }

    fn same(&self, other: &Self) -> (r: bool) {
        proof {
            BlobHash::lemma_view_injective(*self, *other);
        }
        bytes_equal(&self.0, &other.0)
    }
}

/// How many chunks a file of `size` bytes takes: the last one may be short.
pub open spec fn chunks_of(size: u64) -> int {
    (size + CHUNK_SIZE - 1) / (CHUNK_SIZE as int)
}

/// What a manifest says.
pub struct ManifestView {
    pub name: Seq<char>,
    pub size: u64,
    pub root: BlobHash,
    pub chunk_hashes: Seq<BlobHash>,
}

impl ManifestView {
    /// A size in range and one hash for each chunk.
    pub open spec fn wf(self) -> bool {
        &&& 0 < self.size <= MAX_FILE_SIZE
        &&& self.chunk_hashes.len() == chunks_of(self.size)
        &&& file_name_fault(self.name) is None
    }
}

/// Why a manifest cannot be, if so.
pub open spec fn manifest_fault(size: u64, hashes: nat) -> Option<ManifestError> {
    if size == 0 || size > MAX_FILE_SIZE {
        Some(ManifestError::BadSize)
    } else if hashes != chunks_of(size) {
        Some(ManifestError::ChunkCountMismatch { expected: chunks_of(size) as u64 })
    } else {
        None
    }
}

/// Signed description of a file on offer. Chunk count is derived from the
/// size and must match the hash list: a manifest with a mismatched chunk
/// list cannot be constructed.
#[derive(Debug, PartialEq, Eq)]
pub struct FileManifest {
    name: FileName,
    size: u64,
    root: BlobHash,
    chunk_hashes: Vec<BlobHash>,
}

#[derive(Debug, Clone, Copy, PartialEq, Eq, Structural)]
pub enum ManifestError {
    BadSize,
    ChunkCountMismatch { expected: u64 },
}

impl View for FileManifest {
    type V = ManifestView;

    closed spec fn view(&self) -> ManifestView {
        ManifestView {
            name: self.name@,
            size: self.size,
            root: self.root,
            chunk_hashes: self.chunk_hashes@,
        }
    }
}

impl FileManifest {
    pub open spec fn wf(&self) -> bool {
        self@.wf()
    }

    pub fn new(name: FileName, size: u64, root: BlobHash, chunk_hashes: Vec<BlobHash>) -> (r: Result<
        FileManifest,
        ManifestError,
    >)
        requires
            name.wf(),
        ensures
            match r {
                Ok(m) => {
                    &&& manifest_fault(size, chunk_hashes@.len()) is None
                    &&& m.wf()
                    &&& m@ == (ManifestView { name: name@, size, root, chunk_hashes: chunk_hashes@ })
                },
                Err(e) => manifest_fault(size, chunk_hashes@.len()) == Some(e),
            },
    {
        if size == 0 || size > MAX_FILE_SIZE {
            return Err(ManifestError::BadSize);
        }
        let expected: u64 = (size + CHUNK_SIZE - 1) / CHUNK_SIZE;
        if chunk_hashes.len() as u64 != expected {
            return Err(ManifestError::ChunkCountMismatch { expected });
        }
        Ok(FileManifest { name, size, root, chunk_hashes })
    }

    pub fn name(&self) -> (r: &FileName)
        ensures
            r@ == self@.name,
            self.wf() ==> r.wf(),
    {
        &self.name
    }

    pub fn size(&self) -> (r: u64)
        ensures
            r == self@.size,
    {
        self.size
    }

    pub fn root(&self) -> (r: BlobHash)
        ensures
            r == self@.root,
    {
        self.root
    }

    pub fn chunk_count(&self) -> (r: u32)
        requires
            self.wf(),
        ensures
            r == self@.chunk_hashes.len(),
            0 < r <= 8192,
    {
        self.chunk_hashes.len() as u32
    }

    pub fn chunk_hash(&self, index: u32) -> (r: Option<BlobHash>)
        ensures
            match r {
                Some(h) => index < self@.chunk_hashes.len() && h == self@.chunk_hashes[index as int],
                None => index >= self@.chunk_hashes.len(),
            },
    {
        if (index as usize) < self.chunk_hashes.len() {
            Some(self.chunk_hashes[index as usize])
        } else {
            None
        }
    }
}

impl Clone for FileManifest {
    fn clone(&self) -> (r: Self)
        ensures
            r@ == self@,
    {
        FileManifest {
            name: self.name.clone(),
            size: self.size,
            root: self.root,
            chunk_hashes: crate::sorted::copy_keys(&self.chunk_hashes),
        }
    }
}

/// Which chunks we hold. Cannot address beyond the manifest's chunk count.
#[derive(Debug, Clone, PartialEq, Eq)]
pub struct ChunkBitmap {
    bits: Vec<u64>,
    len: u32,
    set_count: u32,
}

#[derive(Debug, Clone, Copy, PartialEq, Eq, Structural)]
pub struct ChunkOutOfRange {
    pub index: u32,
    pub len: u32,
}

/// Bit `k` of `word`.
pub open spec fn bit_of(word: u64, k: u32) -> bool {
    word & (1u64 << k) != 0
}

proof fn lemma_set_bit(word: u64, k: u32, j: u32)
    requires
        k < 64,
        j < 64,
    ensures
        bit_of(word | (1u64 << k), j) == (j == k || bit_of(word, j)),
{
    assert(((word | (1u64 << k)) & (1u64 << j) != 0) == (j == k || (word & (1u64 << j) != 0))) by (bit_vector)
        requires
            k < 64,
            j < 64,
    ;
}

proof fn lemma_zero_bit(k: u32)
    ensures
        !bit_of(0, k),
{
    assert(0u64 & (1u64 << k) == 0) by (bit_vector);
}

impl View for ChunkBitmap {
    /// The indices of the chunks held.
    type V = Set<int>;

    closed spec fn view(&self) -> Set<int> {
        Set::new(
            |i: int|
                0 <= i < self.len && bit_of(self.bits@[i / 64], (i % 64) as u32),
        )
    }
}

impl ChunkBitmap {
    /// How many chunks there are in all.
    pub closed spec fn total(&self) -> u32 {
        self.len
    }

    /// The count is that of the chunks held.
    pub closed spec fn wf(&self) -> bool {
        &&& self.bits@.len() == (self.len + 63) / 64
        &&& self@.finite()
        &&& self.set_count == self@.len()
        &&& self@.len() <= self.len
    }

    /// Only chunks that there are can be held, so that the count is that of the
    /// indices below the total that are.
    pub proof fn law_held_chunks_exist(&self)
        requires
            self.wf(),
        ensures
            forall|i: int| #[trigger] self@.contains(i) ==> 0 <= i < self.total(),
            self@.finite(),
            self@.len() <= self.total(),
            self@ == Set::new(|i: int| 0 <= i < self.total() && self@.contains(i)),
    {
        assert(self@ =~= Set::new(|i: int| 0 <= i < self.total() && self@.contains(i)));
    }

    pub fn empty(len: u32) -> (r: ChunkBitmap)
        ensures
            r.wf(),
            r.total() == len,
            r@ == Set::<int>::empty(),
    {
        let words: usize = ((len as u64 + 63) / 64) as usize;
        let mut bits: Vec<u64> = Vec::new();
        let mut i: usize = 0;
        while i < words
            invariant
                i <= words,
                bits@.len() == i,
                forall|j: int| 0 <= j < i ==> #[trigger] bits@[j] == 0,
            decreases words - i,
        {
            bits.push(0);
            i = i + 1;
        }
        let r = ChunkBitmap { bits, len, set_count: 0 };
        proof {
            assert forall|i: int| !r@.contains(i) by {
                if 0 <= i < len {
                    lemma_zero_bit((i % 64) as u32);
                    assert(bits@[i / 64] == 0);
                }
            }
            assert(r@ =~= Set::<int>::empty());
        }
        r
    }

    pub fn len(&self) -> (r: u32)
        ensures
            r == self.total(),
    {
        self.len
    }

    pub fn is_empty(&self) -> (r: bool)
        ensures
            r == (self.total() == 0),
    {
        self.len == 0
    }

    pub fn have(&self, index: u32) -> (r: bool)
        requires
            self.wf(),
        ensures
            r == self@.contains(index as int),
    {
        if index >= self.len {
            return false;
        }
        self.bits[(index / 64) as usize] & (1u64 << (index % 64)) != 0
    }

    /// Returns `true` if the bit was newly set.
    pub fn set(&mut self, index: u32) -> (r: Result<bool, ChunkOutOfRange>)
        requires
            old(self).wf(),
        ensures
            final(self).wf(),
            final(self).total() == old(self).total(),
            match r {
                Ok(newly) => {
                    &&& index < old(self).total()
                    &&& newly == !old(self)@.contains(index as int)
                    &&& final(self)@ == old(self)@.insert(index as int)
                },
                Err(e) => {
                    &&& index >= old(self).total()
                    &&& e == (ChunkOutOfRange { index, len: old(self).total() })
                    &&& *final(self) == *old(self)
                },
            },
    {
        if index >= self.len {
            return Err(ChunkOutOfRange { index, len: self.len });
        }
        let at: usize = (index / 64) as usize;
        let mask: u64 = 1u64 << (index % 64);
        let word: u64 = self.bits[at];
        if word & mask != 0 {
            assert(old(self)@.contains(index as int));
            assert(old(self)@.insert(index as int) =~= old(self)@);
            return Ok(false);
        }
        self.bits.set(at, word | mask);
        proof {
            assert(!old(self)@.contains(index as int));
            assert forall|i: int| self@.contains(i) <==> old(self)@.insert(index as int).contains(i) by {
                if 0 <= i < self.len {
                    lemma_set_bit(word, (index % 64) as u32, (i % 64) as u32);
                    if i / 64 == at && i % 64 == index % 64 {
                        assert(i == index);
                    }
                }
            }
            assert(self@ =~= old(self)@.insert(index as int));
            lemma_held_bounded(self@, self.len as int);
        }
        self.set_count = self.set_count + 1;
        proof {
            assert(self@ =~= old(self)@.insert(index as int));
        }
        Ok(true)
    }

    pub fn complete(&self) -> (r: bool)
        requires
            self.wf(),
        ensures
            r == forall|i: int| 0 <= i < self.total() ==> self@.contains(i),
    {
        proof {
            lemma_full_iff(self@, self.len as int);
        }
        self.set_count == self.len
    }

    pub fn have_count(&self) -> (r: u32)
        requires
            self.wf(),
        ensures
            r == self@.len(),
            r <= self.total(),
    {
        self.set_count
    }

    /// The indices of the chunks still missing, ascending.
    pub fn missing(&self) -> (r: Vec<u32>)
        requires
            self.wf(),
        ensures
            forall|i: int, j: int| 0 <= i < j < r@.len() ==> r@[i] < r@[j],
            forall|c: u32| #[trigger] r@.contains(c) <==> c < self.total() && !self@.contains(c as int),
    {
        let mut r: Vec<u32> = Vec::new();
        let mut i: u32 = 0;
        while i < self.len
            invariant
                i <= self.len,
                self.wf(),
                forall|a: int, b: int| 0 <= a < b < r@.len() ==> r@[a] < r@[b],
                forall|a: int| 0 <= a < r@.len() ==> #[trigger] r@[a] < i,
                forall|c: u32| #[trigger] r@.contains(c) <==> c < i && !self@.contains(c as int),
            decreases self.len - i,
        {
            let ghost before = r@;
            if !self.have(i) {
                r.push(i);
                proof {
                    assert forall|c: u32| #[trigger] r@.contains(c) <==> c < i + 1 && !self@.contains(c as int) by {
                        if before.contains(c) {
                            let k = choose|k: int| 0 <= k < before.len() && before[k] == c;
                            assert(r@[k] == c);
                        }
                        assert(r@[before.len() as int] == i);
                        if r@.contains(c) {
                            let k = choose|k: int| 0 <= k < r@.len() && r@[k] == c;
                            if k < before.len() {
                                assert(before[k] == c);
                                assert(before.contains(c));
                            }
                        }
                    }
                }
            } else {
                assert forall|c: u32| #[trigger] r@.contains(c) <==> c < i + 1 && !self@.contains(c as int) by {
                    assert(before.contains(c) <==> c < i && !self@.contains(c as int));
                }
            }
            i = i + 1;
        }
        r
    }
}

proof fn lemma_held_bounded(held: Set<int>, n: int)
    requires
        0 <= n,
        forall|i: int| #[trigger] held.contains(i) ==> 0 <= i < n,
    ensures
        held.finite(),
        held.len() <= n,
{
    let all = vstd::set_lib::set_int_range(0, n);
    vstd::set_lib::lemma_int_range(0, n);
    assert(held.subset_of(all));
    vstd::set_lib::lemma_len_subset(held, all);
}

/// As many as there are in all is all.
proof fn lemma_full_iff(held: Set<int>, n: int)
    requires
        0 <= n,
        forall|i: int| #[trigger] held.contains(i) ==> 0 <= i < n,
    ensures
        (held.len() == n) == forall|i: int| 0 <= i < n ==> held.contains(i),
{
    let all = vstd::set_lib::set_int_range(0, n);
    vstd::set_lib::lemma_int_range(0, n);
    lemma_held_bounded(held, n);
    assert(held.subset_of(all));
    if held.len() == n {
        vstd::set_lib::lemma_subset_equality(held, all);
        assert(held == all);
    }
    if forall|i: int| 0 <= i < n ==> held.contains(i) {
        assert(held =~= all);
    }
}

/// Transfer identity.
#[derive(Clone, Copy, PartialEq, Eq, PartialOrd, Ord, Hash, Debug)]
pub struct TransferId([u8; 16]);

impl View for TransferId {
    type V = Seq<u8>;

    closed spec fn view(&self) -> Seq<u8> {
        self.0@
    }
}

impl TransferId {
    /// The bytes are all there is: equal bytes, equal values.
    pub proof fn lemma_view_injective(a: TransferId, b: TransferId)
        ensures
            a@.len() == 16,
            (a@ == b@) == (a == b),
    {
        if a@ == b@ {
            assert(a.0 =~= b.0);
        }
    }

    pub fn from_bytes(bytes: [u8; 16]) -> (r: TransferId)
        ensures
            r@ == bytes@,
    {
        TransferId(bytes)
    }

    pub fn as_bytes(&self) -> (r: &[u8; 16])
        ensures
            r@ == self@,
    {
        &self.0
    }

    /// Short hex prefix: enough to disambiguate in logs, not for security
    /// decisions.
    pub fn short_hex(&self) -> (r: String)
        ensures
            r@ == hex_text(self@.take(6)),
    {
        let head: [u8; 6] = [self.0[0], self.0[1], self.0[2], self.0[3], self.0[4], self.0[5]];
        assert(head@ =~= self@.take(6));
        hex_of(&head)
    }
}

impl Key for TransferId {
    open spec fn before(self, other: Self) -> bool {
        lex_before(self@, other@)
    }

    proof fn lemma_irreflexive(a: Self) {
        lemma_lex_irreflexive(a@);
    }

    proof fn lemma_transitive(a: Self, b: Self, c: Self) {
        lemma_lex_transitive(a@, b@, c@);
    }

    proof fn lemma_total(a: Self, b: Self) {
        lemma_lex_total(a@, b@);
        TransferId::lemma_view_injective(a, b);
    }

    fn is_before(&self, other: &Self) -> (r: bool) {
        bytes_before(&self.0, &other.0)
    }

    fn same(&self, other: &Self) -> (r: bool) {
        proof {
            TransferId::lemma_view_injective(*self, *other);
        }
        bytes_equal(&self.0, &other.0)
    }
}

#[derive(Debug, Clone, Copy, PartialEq, Eq)]
pub enum Direction {
    Inbound { from: IdentityId },
    Outbound { to: IdentityId },
}

#[derive(Debug, PartialEq, Eq)]
pub enum TransferPhase {
    Offered,
    Accepted,
    Transferring,
    Complete,
    Rejected,
    Failed { reason: String },
}

/// A transfer phase and what it carries.
pub enum TransferPhaseView {
    Offered,
    Accepted,
    Transferring,
    Complete,
    Rejected,
    Failed { reason: Seq<char> },
}

impl View for TransferPhase {
    type V = TransferPhaseView;

    open spec fn view(&self) -> TransferPhaseView {
        match *self {
            TransferPhase::Offered => TransferPhaseView::Offered,
            TransferPhase::Accepted => TransferPhaseView::Accepted,
            TransferPhase::Transferring => TransferPhaseView::Transferring,
            TransferPhase::Complete => TransferPhaseView::Complete,
            TransferPhase::Rejected => TransferPhaseView::Rejected,
            TransferPhase::Failed { reason } => TransferPhaseView::Failed { reason: reason@ },
        }
    }
}

impl Clone for TransferPhase {
    fn clone(&self) -> (r: Self)
        ensures
            r@ == self@,
    {
        match self {
            TransferPhase::Offered => TransferPhase::Offered,
            TransferPhase::Accepted => TransferPhase::Accepted,
            TransferPhase::Transferring => TransferPhase::Transferring,
            TransferPhase::Complete => TransferPhase::Complete,
            TransferPhase::Rejected => TransferPhase::Rejected,
            TransferPhase::Failed { reason } => TransferPhase::Failed { reason: reason.clone() },
        }
    }
}

pub open spec fn transfer_state_name(phase: TransferPhaseView) -> Seq<char> {
    match phase {
        TransferPhaseView::Offered => "offered"@,
        TransferPhaseView::Accepted => "accepted"@,
        TransferPhaseView::Transferring => "transferring"@,
        TransferPhaseView::Complete => "complete"@,
        TransferPhaseView::Rejected => "rejected"@,
        TransferPhaseView::Failed { .. } => "failed"@,
    }
}

#[derive(Debug, Clone, PartialEq, Eq)]
pub enum TransferError {
    InvalidTransition { action: &'static str, state: &'static str },
    OutOfRange(ChunkOutOfRange),
    ChunkHashMismatch { index: u32 },
}

/// What a transfer error says.
pub enum TransferErrorView {
    /// The refused action and the phase it was refused in.
    InvalidTransition { action: Seq<char>, state: Seq<char> },
    OutOfRange(ChunkOutOfRange),
    ChunkHashMismatch { index: u32 },
}

impl View for TransferError {
    type V = TransferErrorView;

    open spec fn view(&self) -> TransferErrorView {
        match *self {
            TransferError::InvalidTransition { action, state } => TransferErrorView::InvalidTransition {
                action: action@,
                state: state@,
            },
            TransferError::OutOfRange(e) => TransferErrorView::OutOfRange(e),
            TransferError::ChunkHashMismatch { index } => TransferErrorView::ChunkHashMismatch {
                index,
            },
        }
    }
}

#[derive(Debug, Clone, PartialEq, Eq)]
pub enum TransferEvent {
    FileOffered { transfer: TransferId, name: FileName, size: u64 },
    TransferAccepted { transfer: TransferId },
    TransferRejected { transfer: TransferId },
    ChunkVerified { transfer: TransferId, index: u32, have: u32, total: u32 },
    TransferCompleted { transfer: TransferId, root: BlobHash },
    TransferFailed { transfer: TransferId, reason: String },
}

/// What a transfer event reports.
pub enum TransferEventView {
    FileOffered { transfer: TransferId, name: Seq<char>, size: u64 },
    TransferAccepted { transfer: TransferId },
    TransferRejected { transfer: TransferId },
    ChunkVerified { transfer: TransferId, index: u32, have: nat, total: u32 },
    TransferCompleted { transfer: TransferId, root: BlobHash },
    TransferFailed { transfer: TransferId, reason: Seq<char> },
}

impl View for TransferEvent {
    type V = TransferEventView;

    open spec fn view(&self) -> TransferEventView {
        match *self {
            TransferEvent::FileOffered { transfer, name, size } => TransferEventView::FileOffered {
                transfer,
                name: name@,
                size,
            },
            TransferEvent::TransferAccepted { transfer } => TransferEventView::TransferAccepted {
                transfer,
            },
            TransferEvent::TransferRejected { transfer } => TransferEventView::TransferRejected {
                transfer,
            },
            TransferEvent::ChunkVerified { transfer, index, have, total } => TransferEventView::ChunkVerified {
                transfer,
                index,
                have: have as nat,
                total,
            },
            TransferEvent::TransferCompleted { transfer, root } => TransferEventView::TransferCompleted {
                transfer,
                root,
            },
            TransferEvent::TransferFailed { transfer, reason } => TransferEventView::TransferFailed {
                transfer,
                reason: reason@,
            },
        }
    }
}

/// What a list of transfer events reports.
pub open spec fn transfer_event_views(events: Seq<TransferEvent>) -> Seq<TransferEventView> {
    Seq::new(events.len(), |i: int| events[i]@)
}

/// What a transfer holds.
pub struct TransferView {
    pub id: TransferId,
    pub manifest: ManifestView,
    pub direction: Direction,
    pub phase: TransferPhaseView,
    pub held: Set<int>,
}

impl TransferView {
    /// Every chunk of the manifest is held.
    pub open spec fn all_held(self) -> bool {
        forall|i: int| 0 <= i < self.manifest.chunk_hashes.len() ==> self.held.contains(i)
    }

    /// What holds of a transfer at all times.
    pub open spec fn wf(self) -> bool {
        &&& self.manifest.wf()
        &&& self.held.finite()
        &&& forall|i: int| #[trigger]
            self.held.contains(i) ==> 0 <= i < self.manifest.chunk_hashes.len()
        &&& self.phase is Complete ==> self.all_held()
        &&& self.phase is Offered || self.phase is Accepted || self.phase is Transferring
            ==> !self.all_held()
    }
}

/// The refusal of `action` in the transfer's present phase.
pub open spec fn refused(t: TransferView, action: Seq<char>) -> TransferErrorView {
    TransferErrorView::InvalidTransition { action, state: transfer_state_name(t.phase) }
}

/// A transfer on offer.
pub open spec fn offer_of(id: TransferId, manifest: ManifestView, direction: Direction) -> TransferView {
    TransferView {
        id,
        manifest,
        direction,
        phase: TransferPhaseView::Offered,
        held: Set::<int>::empty(),
    }
}

pub open spec fn offer_event(id: TransferId, manifest: ManifestView) -> TransferEventView {
    TransferEventView::FileOffered { transfer: id, name: manifest.name, size: manifest.size }
}

/// Why an offer cannot be answered with `action`, if so.
pub open spec fn answer_fault(t: TransferView, action: Seq<char>) -> Option<TransferErrorView> {
    if t.phase is Offered {
        None
    } else {
        Some(refused(t, action))
    }
}

/// The transfer in another phase.
pub open spec fn in_phase(t: TransferView, phase: TransferPhaseView) -> TransferView {
    TransferView { phase, ..t }
}

/// Why a chunk is not taken, if so.
pub open spec fn chunk_fault(t: TransferView, index: u32, hash_matches: bool) -> Option<
    TransferErrorView,
> {
    if !(t.phase is Accepted || t.phase is Transferring) {
        Some(refused(t, "chunk_verified"@))
    } else if !hash_matches {
        Some(TransferErrorView::ChunkHashMismatch { index })
    } else if index >= t.manifest.chunk_hashes.len() {
        Some(
            TransferErrorView::OutOfRange(
                ChunkOutOfRange { index, len: t.manifest.chunk_hashes.len() as u32 },
            ),
        )
    } else {
        None
    }
}

/// The transfer once a chunk was reported. A mismatch leaves no trace; a chunk
/// outside the manifest still shows that data flows.
pub open spec fn after_chunk(t: TransferView, index: u32, hash_matches: bool) -> TransferView {
    match chunk_fault(t, index, hash_matches) {
        None => {
            let now = TransferView { held: t.held.insert(index as int), ..t };
            in_phase(
                now,
                if now.all_held() {
                    TransferPhaseView::Complete
                } else {
                    TransferPhaseView::Transferring
                },
            )
        },
        Some(TransferErrorView::OutOfRange(_)) => in_phase(t, TransferPhaseView::Transferring),
        Some(_) => t,
    }
}

/// Why a transfer cannot fail any more, if so.
pub open spec fn fail_fault(t: TransferView) -> Option<TransferErrorView> {
    if t.phase is Offered || t.phase is Accepted || t.phase is Transferring {
        None
    } else {
        Some(refused(t, "fail"@))
    }
}

/// The `Transfer` aggregate.
#[derive(Debug, Clone, PartialEq, Eq)]
pub struct Transfer {
    id: TransferId,
    manifest: FileManifest,
    direction: Direction,
    phase: TransferPhase,
    bitmap: ChunkBitmap,
}

impl View for Transfer {
    type V = TransferView;

    closed spec fn view(&self) -> TransferView {
        TransferView {
            id: self.id,
            manifest: self.manifest@,
            direction: self.direction,
            phase: self.phase@,
            held: self.bitmap@,
        }
    }
}

impl Transfer {
    pub closed spec fn wf(&self) -> bool {
        &&& self.bitmap.wf()
        &&& self.bitmap.total() == self.manifest@.chunk_hashes.len()
        &&& self@.wf()
    }

    /// What holds of a transfer at all times, for those who cannot see inside.
    pub proof fn lemma_wf(&self)
        requires
            self.wf(),
        ensures
            self@.wf(),
    {
    }

    pub fn offered(id: TransferId, manifest: FileManifest, direction: Direction) -> (r: (
        Transfer,
        TransferEvent,
    ))
        requires
            manifest.wf(),
        ensures
            r.0.wf(),
            r.0@ == offer_of(id, manifest@, direction),
            r.1@ == offer_event(id, manifest@),
    {
        let bitmap = ChunkBitmap::empty(manifest.chunk_count());
        let event = TransferEvent::FileOffered {
            transfer: id,
            name: manifest.name().clone(),
            size: manifest.size(),
        };
        let transfer = Transfer { id, manifest, direction, phase: TransferPhase::Offered, bitmap };
        proof {
            assert(!transfer@.held.contains(0));
            assert(!transfer@.all_held());
        }
        (transfer, event)
    }

    pub fn id(&self) -> (r: TransferId)
        ensures
            r == self@.id,
    {
        self.id
    }

    pub fn manifest(&self) -> (r: &FileManifest)
        ensures
            r@ == self@.manifest,
            self.wf() ==> r.wf(),
    {
        &self.manifest
    }

    pub fn direction(&self) -> (r: Direction)
        ensures
            r == self@.direction,
    {
        self.direction
    }

    pub fn phase(&self) -> (r: &TransferPhase)
        ensures
            r@ == self@.phase,
    {
        &self.phase
    }

    pub fn bitmap(&self) -> (r: &ChunkBitmap)
        ensures
            r@ == self@.held,
            self.wf() ==> r.wf() && r.total() == self@.manifest.chunk_hashes.len(),
    {
        &self.bitmap
    }

    fn state_name(&self) -> (r: &'static str)
        ensures
            r@ == transfer_state_name(self@.phase),
    {
        match self.phase {
            TransferPhase::Offered => "offered",
            TransferPhase::Accepted => "accepted",
            TransferPhase::Transferring => "transferring",
            TransferPhase::Complete => "complete",
            TransferPhase::Rejected => "rejected",
            TransferPhase::Failed { .. } => "failed",
        }
    }

    pub fn accept(&mut self) -> (r: Result<TransferEvent, TransferError>)
        requires
            old(self).wf(),
        ensures
            final(self).wf(),
            match r {
                Ok(event) => {
                    &&& answer_fault(old(self)@, "accept"@) is None
                    &&& final(self)@ == in_phase(old(self)@, TransferPhaseView::Accepted)
                    &&& event@ == (TransferEventView::TransferAccepted { transfer: old(self)@.id })
                },
                Err(e) => {
                    &&& answer_fault(old(self)@, "accept"@) == Some(e@)
                    &&& final(self)@ == old(self)@
                },
            },
    {
        match self.phase {
            TransferPhase::Offered => {
                self.phase = TransferPhase::Accepted;
                Ok(TransferEvent::TransferAccepted { transfer: self.id })
            },
            TransferPhase::Accepted
            | TransferPhase::Transferring
            | TransferPhase::Complete
            | TransferPhase::Rejected
            | TransferPhase::Failed { .. } => Err(
                TransferError::InvalidTransition { action: "accept", state: self.state_name() },
            ),
        }
    }

    pub fn reject(&mut self) -> (r: Result<TransferEvent, TransferError>)
        requires
            old(self).wf(),
        ensures
            final(self).wf(),
            match r {
                Ok(event) => {
                    &&& answer_fault(old(self)@, "reject"@) is None
                    &&& final(self)@ == in_phase(old(self)@, TransferPhaseView::Rejected)
                    &&& event@ == (TransferEventView::TransferRejected { transfer: old(self)@.id })
                },
                Err(e) => {
                    &&& answer_fault(old(self)@, "reject"@) == Some(e@)
                    &&& final(self)@ == old(self)@
                },
            },
    {
        match self.phase {
            TransferPhase::Offered => {
                self.phase = TransferPhase::Rejected;
                Ok(TransferEvent::TransferRejected { transfer: self.id })
            },
            TransferPhase::Accepted
            | TransferPhase::Transferring
            | TransferPhase::Complete
            | TransferPhase::Rejected
            | TransferPhase::Failed { .. } => Err(
                TransferError::InvalidTransition { action: "reject", state: self.state_name() },
            ),
        }
    }

    /// Record a chunk whose hash was compared with the manifest.
    /// `hash_matches` is the result of that comparison; a mismatch fails the
    /// chunk (the caller re-fetches), never poisons the bitmap.
    pub fn chunk_verified(&mut self, index: u32, hash_matches: bool) -> (r: Result<
        Vec<TransferEvent>,
        TransferError,
    >)
        requires
            old(self).wf(),
        ensures
            final(self).wf(),
            final(self)@ == after_chunk(old(self)@, index, hash_matches),
            match r {
                Ok(events) => {
                    &&& chunk_fault(old(self)@, index, hash_matches) is None
                    &&& transfer_event_views(events@) == chunk_events(old(self)@, index)
                },
                Err(e) => chunk_fault(old(self)@, index, hash_matches) == Some(e@),
            },
    {
        match self.phase {
            TransferPhase::Accepted | TransferPhase::Transferring => {},
            TransferPhase::Offered
            | TransferPhase::Complete
            | TransferPhase::Rejected
            | TransferPhase::Failed { .. } => {
                return Err(
                    TransferError::InvalidTransition {
                        action: "chunk_verified",
                        state: self.state_name(),
                    },
                );
            },
        }
        if !hash_matches {
            return Err(TransferError::ChunkHashMismatch { index });
        }
        self.phase = TransferPhase::Transferring;
        let newly: bool = match self.bitmap.set(index) {
            Ok(n) => n,
            Err(e) => {
                return Err(TransferError::OutOfRange(e));
            },
        };
        let ghost before = old(self)@;
        let mut events: Vec<TransferEvent> = Vec::new();
        if newly {
            events.push(
                TransferEvent::ChunkVerified {
                    transfer: self.id,
                    index,
                    have: self.bitmap.have_count(),
                    total: self.bitmap.len(),
                },
            );
        }
        if self.bitmap.complete() {
            self.phase = TransferPhase::Complete;
            events.push(
                TransferEvent::TransferCompleted { transfer: self.id, root: self.manifest.root() },
            );
        }
        assert(transfer_event_views(events@) =~= chunk_events(before, index));
        Ok(events)
    }

    pub fn fail(&mut self, reason: &str) -> (r: Result<TransferEvent, TransferError>)
        requires
            old(self).wf(),
        ensures
            final(self).wf(),
            match r {
                Ok(event) => {
                    &&& fail_fault(old(self)@) is None
                    &&& final(self)@ == in_phase(
                        old(self)@,
                        TransferPhaseView::Failed { reason: reason@ },
                    )
                    &&& event@ == (TransferEventView::TransferFailed {
                        transfer: old(self)@.id,
                        reason: reason@,
                    })
                },
                Err(e) => fail_fault(old(self)@) == Some(e@) && final(self)@ == old(self)@,
            },
    {
        match self.phase {
            TransferPhase::Offered | TransferPhase::Accepted | TransferPhase::Transferring => {
                self.phase = TransferPhase::Failed { reason: reason.to_owned() };
                Ok(TransferEvent::TransferFailed { transfer: self.id, reason: reason.to_owned() })
            },
            TransferPhase::Complete | TransferPhase::Rejected | TransferPhase::Failed { .. } => Err(
                TransferError::InvalidTransition { action: "fail", state: self.state_name() },
            ),
        }
    }
}

/// The events of a verified chunk: progress if it was new, and completion
/// once all are there. A duplicate is silent.
pub open spec fn chunk_events(before: TransferView, index: u32) -> Seq<TransferEventView> {
    let held = before.held.insert(index as int);
    let progress = if before.held.contains(index as int) {
        seq![]
    } else {
        seq![
            TransferEventView::ChunkVerified {
                transfer: before.id,
                index,
                have: held.len(),
                total: before.manifest.chunk_hashes.len() as u32,
            },
        ]
    };
    if (TransferView { held, ..before }).all_held() {
        progress.push(
            TransferEventView::TransferCompleted {
                transfer: before.id,
                root: before.manifest.root,
            },
        )
    } else {
        progress
    }
}

/// A transfer is complete exactly when every chunk is held, as long as it was
/// neither rejected nor failed.
pub proof fn law_complete_means_all_held(t: Transfer)
    requires
        t.wf(),
        !(t@.phase is Rejected),
        !(t@.phase is Failed),
    ensures
        t@.phase is Complete <==> t@.all_held(),
{
}

/// A chunk whose hash does not match never poisons the bitmap: nothing changes,
/// and the chunk can be fetched again.
pub proof fn law_mismatch_leaves_no_trace(t: TransferView, index: u32)
    ensures
        after_chunk(t, index, false) == t,
        chunk_fault(t, index, false) is Some,
{
}

/// In which order two chunks are reported does not matter: the transfer ends
/// up the same.
pub proof fn law_chunk_order_does_not_matter(
    t: TransferView,
    a: u32,
    a_matches: bool,
    b: u32,
    b_matches: bool,
)
    requires
        t.wf(),
    ensures
        after_chunk(after_chunk(t, a, a_matches), b, b_matches) == after_chunk(
            after_chunk(t, b, b_matches),
            a,
            a_matches,
        ),
{
    let ha = t.held.insert(a as int);
    let hb = t.held.insert(b as int);
    assert(ha.insert(b as int) =~= hb.insert(a as int));
    if (TransferView { held: ha, ..t }).all_held() && b < t.manifest.chunk_hashes.len() {
        assert(ha.insert(b as int) =~= ha);
        if a != b {
            assert(ha.contains(b as int));
            assert(hb =~= t.held);
        }
    }
    if (TransferView { held: hb, ..t }).all_held() && a < t.manifest.chunk_hashes.len() {
        assert(hb.insert(a as int) =~= hb);
        if a != b {
            assert(hb.contains(a as int));
            assert(ha =~= t.held);
        }
    }
}

/// A chunk with a matching hash is taken by a transfer under way if and only if
/// the manifest has it, and is held from then on. Nothing else that is held
/// changes, and the transfer is complete exactly if nothing is missing any more.
pub proof fn law_every_chunk_of_the_manifest_is_taken(t: TransferView, index: u32)
    requires
        t.wf(),
        t.phase is Accepted || t.phase is Transferring,
    ensures
        chunk_fault(t, index, true) is None <==> index < t.manifest.chunk_hashes.len(),
        ({
            let after = after_chunk(t, index, true);
            &&& after.id == t.id
            &&& after.manifest == t.manifest
            &&& after.direction == t.direction
            &&& forall|i: int| #[trigger]
                after.held.contains(i) <==> t.held.contains(i) || (i == index && index
                    < t.manifest.chunk_hashes.len())
            &&& after.phase is Complete <==> forall|i: int|
                0 <= i < t.manifest.chunk_hashes.len() ==> after.held.contains(i)
            &&& after.phase is Complete || after.phase is Transferring
            &&& after.wf()
        }),
{
    let n = t.manifest.chunk_hashes.len();
    let after = after_chunk(t, index, true);
    assert(after.wf());
    assert(after.all_held() ==> after.phase is Complete);
    if forall|i: int| 0 <= i < n ==> after.held.contains(i) {
        assert(after.all_held());
    }
}

/// A chunk that is new is reported with how many are held now and how many there
/// are; one that is held already is not reported. The chunk that completes the
/// file, and no other, also reports that.
pub proof fn law_progress_is_reported(t: TransferView, index: u32)
    requires
        t.wf(),
        t.phase is Accepted || t.phase is Transferring,
        index < t.manifest.chunk_hashes.len(),
    ensures
        ({
            let events = chunk_events(t, index);
            let progress = TransferEventView::ChunkVerified {
                transfer: t.id,
                index,
                have: t.held.len() + 1,
                total: t.manifest.chunk_hashes.len() as u32,
            };
            let completion = TransferEventView::TransferCompleted {
                transfer: t.id,
                root: t.manifest.root,
            };
            let completes = forall|i: int|
                0 <= i < t.manifest.chunk_hashes.len() && i != index ==> t.held.contains(i);
            &&& t.held.contains(index as int) ==> events.len() == 0
            &&& !t.held.contains(index as int) && !completes ==> events == seq![progress]
            &&& !t.held.contains(index as int) && completes ==> events == seq![
                progress,
                completion,
            ]
        }),
{
    let held = t.held.insert(index as int);
    let now = TransferView { held, ..t };
    if t.held.contains(index as int) {
        assert(held =~= t.held);
        assert(now == t);
    } else {
        let completes = forall|i: int|
            0 <= i < t.manifest.chunk_hashes.len() && i != index ==> t.held.contains(i);
        if completes {
            assert(now.all_held());
        } else {
            let i = choose|i: int|
                0 <= i < t.manifest.chunk_hashes.len() && i != index && !t.held.contains(i);
            assert(!now.held.contains(i));
            assert(!now.all_held());
        }
    }
}

/// The transfer after the chunks named were reported, one by one, each with a
/// matching hash.
pub open spec fn after_chunks(t: TransferView, order: Seq<u32>) -> TransferView
    decreases order.len(),
{
    if order.len() == 0 {
        t
    } else {
        after_chunk(after_chunks(t, order.drop_last()), order.last(), true)
    }
}

/// A file completes: once every chunk of the manifest was reported with a matching
/// hash, in any order, however often, among whatever else, the transfer is complete
/// and holds them all; and not before.
pub proof fn law_all_chunks_make_the_file(t: TransferView, order: Seq<u32>)
    requires
        t.wf(),
        t.phase is Accepted || t.phase is Transferring,
    ensures
        ({
            let after = after_chunks(t, order);
            let reported = |i: int|
                t.held.contains(i) || (0 <= i <= u32::MAX && order.contains(i as u32));
            &&& after.wf()
            &&& after.manifest == t.manifest
            &&& after.phase is Complete <==> forall|i: int|
                0 <= i < t.manifest.chunk_hashes.len() ==> #[trigger] reported(i)
            &&& !(after.phase is Complete) ==> after.phase is Accepted || after.phase is Transferring
            &&& forall|i: int|
                0 <= i < t.manifest.chunk_hashes.len() ==> (#[trigger] after.held.contains(i)
                    <==> reported(i))
        }),
    decreases order.len(),
{
    let n = t.manifest.chunk_hashes.len();
    let after = after_chunks(t, order);
    let reported = |i: int| t.held.contains(i) || (0 <= i <= u32::MAX && order.contains(i as u32));
    if order.len() == 0 {
        assert(!t.all_held());
        let i = choose|i: int| 0 <= i < n && !t.held.contains(i);
        assert(!reported(i));
    } else {
        let front = order.drop_last();
        let index = order.last();
        let before = after_chunks(t, front);
        law_all_chunks_make_the_file(t, front);
        let earlier = |i: int|
            t.held.contains(i) || (0 <= i <= u32::MAX && front.contains(i as u32));
        assert forall|c: u32| #[trigger] order.contains(c) <==> front.contains(c) || c == index by {
            if front.contains(c) {
                let j = choose|j: int| 0 <= j < front.len() && front[j] == c;
                assert(order[j] == c);
            }
            assert(order[order.len() - 1] == index);
            if order.contains(c) {
                let j = choose|j: int| 0 <= j < order.len() && order[j] == c;
                if j < front.len() {
                    assert(front[j] == c);
                }
            }
        }
        if before.phase is Complete {
            assert(after == before);
            assert forall|i: int| 0 <= i < n implies #[trigger] reported(i) by {
                assert(earlier(i));
            }
        } else {
            law_every_chunk_of_the_manifest_is_taken(before, index);
            assert forall|i: int| 0 <= i < n implies (#[trigger] after.held.contains(i) <==> reported(i)) by {
                assert(before.held.contains(i) <==> earlier(i));
            }
            if after.phase is Complete {
                assert forall|i: int| 0 <= i < n implies #[trigger] reported(i) by {
                    assert(after.held.contains(i));
                }
            }
            if forall|i: int| 0 <= i < n ==> #[trigger] reported(i) {
                assert forall|i: int| 0 <= i < n implies after.held.contains(i) by {
                    assert(reported(i));
                }
            }
        }
    }
}

/// An offer is answered once, either way, and only an offer: accepting opens it to
/// chunks, rejecting closes it to them for good, and neither changes what is held.
pub proof fn law_offers_are_answered_once(t: TransferView, index: u32, hash_matches: bool)
    ensures
        answer_fault(t, "accept"@) is None <==> t.phase is Offered,
        answer_fault(t, "reject"@) is None <==> t.phase is Offered,
        ({
            let taken = in_phase(t, TransferPhaseView::Accepted);
            &&& taken == (TransferView { phase: TransferPhaseView::Accepted, ..t })
            &&& answer_fault(taken, "accept"@) is Some
            &&& answer_fault(taken, "reject"@) is Some
            &&& index < t.manifest.chunk_hashes.len() ==> chunk_fault(taken, index, true) is None
        }),
        ({
            let turned_down = in_phase(t, TransferPhaseView::Rejected);
            &&& turned_down == (TransferView { phase: TransferPhaseView::Rejected, ..t })
            &&& answer_fault(turned_down, "accept"@) is Some
            &&& answer_fault(turned_down, "reject"@) is Some
            &&& chunk_fault(turned_down, index, hash_matches) is Some
            &&& after_chunk(turned_down, index, hash_matches) == turned_down
            &&& fail_fault(turned_down) is Some
        }),
        t.phase is Offered ==> chunk_fault(t, index, hash_matches) is Some && after_chunk(
            t,
            index,
            hash_matches,
        ) == t,
{
}

/// A transfer can fail until it is over, and stays failed: nothing is taken, and
/// nothing answers it any more.
pub proof fn law_failure_is_final(t: TransferView, reason: Seq<char>, index: u32, hash_matches: bool)
    ensures
        fail_fault(t) is None <==> !(t.phase is Complete || t.phase is Rejected
            || t.phase is Failed),
        ({
            let failed = in_phase(t, TransferPhaseView::Failed { reason });
            &&& failed.held == t.held
            &&& failed.phase == (TransferPhaseView::Failed { reason })
            &&& after_chunk(failed, index, hash_matches) == failed
            &&& chunk_fault(failed, index, hash_matches) is Some
            &&& answer_fault(failed, "accept"@) is Some
            &&& fail_fault(failed) is Some
        }),
{
}

/// How a chunk is refused: one that no transfer under way reports, by the phase; one
/// whose hash does not match, by that; one that the manifest does not have, by how
/// many it has.
pub proof fn law_refusals_name_their_reason(t: TransferView, index: u32, hash_matches: bool)
    ensures
        match chunk_fault(t, index, hash_matches) {
            None => hash_matches && (t.phase is Accepted || t.phase is Transferring) && index
                < t.manifest.chunk_hashes.len(),
            Some(TransferErrorView::InvalidTransition { .. }) => !(t.phase is Accepted
                || t.phase is Transferring),
            Some(TransferErrorView::ChunkHashMismatch { index: at }) => !hash_matches && at == index
                && (t.phase is Accepted || t.phase is Transferring),
            Some(TransferErrorView::OutOfRange(e)) => e.index == index && e.len
                == t.manifest.chunk_hashes.len() as u32 && index >= t.manifest.chunk_hashes.len()
                && hash_matches,
        },
{
}

/// How many chunks a file takes: enough for its bytes, and not one more. With that
/// many hashes, and a size in range, a manifest can be, and with no other number.
pub proof fn law_chunks_cover_the_file(size: u64, hashes: nat)
    requires
        0 < size <= 2147483648,
    ensures
        (chunks_of(size) - 1) * 262144 < size <= chunks_of(size) * 262144,
        manifest_fault(size, hashes) is None <==> (hashes - 1) * 262144 < size <= hashes * 262144,
        manifest_fault(0, hashes) == Some(ManifestError::BadSize),
{
    assert(chunks_of(size) == (size + 262143) / 262144);
}

/// Nothing over the ceiling can be offered.
pub proof fn law_ceiling_holds(size: u64, hashes: nat)
    requires
        size > 2147483648,
    ensures
        manifest_fault(size, hashes) == Some(ManifestError::BadSize),
{
}

/// A name that can be written to disk as it is: it has one to 255 bytes, no
/// separator, no control character and no leading dot; and every such name is
/// taken.
pub proof fn law_file_names_stay_in_their_directory(raw: Seq<char>)
    ensures
        file_name_fault(raw) is None <==> {
            &&& raw.len() > 0
            &&& byte_len(raw) <= 255
            &&& !raw.contains('/')
            &&& !raw.contains('\\')
            &&& raw[0] != '.'
            &&& !has_control(raw)
        },
        raw.contains('/') || raw.contains('\\') ==> file_name_fault(raw) is Some,
        file_name_fault(seq!['.', '.']) is Some,
{
    let up = seq!['.', '.'];
    assert(up[0] == '.');
}

/// What is offered is what the manifest says, held by nobody yet, under its own id; and it
/// is told with its name and its size.
pub proof fn law_offers_say_what_they_offer(id: TransferId, manifest: ManifestView, direction: Direction)
    ensures
        offer_of(id, manifest, direction).id == id,
        offer_of(id, manifest, direction).manifest == manifest,
        offer_of(id, manifest, direction).direction == direction,
        offer_of(id, manifest, direction).phase is Offered,
        offer_of(id, manifest, direction).held == Set::<int>::empty(),
        answer_fault(offer_of(id, manifest, direction), "accept"@) is None,
        offer_event(id, manifest) == (TransferEventView::FileOffered {
            transfer: id,
            name: manifest.name,
            size: manifest.size,
        }),
{
}

/// A file offered and accepted is complete once each of its chunks came, in whatever order.
pub proof fn law_an_accepted_file_can_be_completed(
    id: TransferId,
    manifest: ManifestView,
    direction: Direction,
    order: Seq<u32>,
)
    requires
        manifest.wf(),
        forall|i: u32| i < manifest.chunk_hashes.len() ==> #[trigger] order.contains(i),
    ensures
        ({
            let accepted = in_phase(
                offer_of(id, manifest, direction),
                TransferPhaseView::Accepted,
            );
            after_chunks(accepted, order).phase is Complete
        }),
{
    let accepted = in_phase(offer_of(id, manifest, direction), TransferPhaseView::Accepted);
    assert(!accepted.held.contains(0));
    assert(!accepted.all_held());
    law_all_chunks_make_the_file(accepted, order);
    let reported = |i: int|
        accepted.held.contains(i) || (0 <= i <= u32::MAX && order.contains(i as u32));
    assert forall|i: int| 0 <= i < manifest.chunk_hashes.len() implies #[trigger] reported(i) by {
        assert(order.contains(i as u32));
    }
}

/// A refusal by the phase names what was asked and the phase it was asked in.
pub proof fn law_refusals_name_the_phase(t: TransferView, action: Seq<char>)
    ensures
        refused(t, action) == (TransferErrorView::InvalidTransition {
            action,
            state: match t.phase {
                TransferPhaseView::Offered => "offered"@,
                TransferPhaseView::Accepted => "accepted"@,
                TransferPhaseView::Transferring => "transferring"@,
                TransferPhaseView::Complete => "complete"@,
                TransferPhaseView::Rejected => "rejected"@,
                TransferPhaseView::Failed { .. } => "failed"@,
            },
        }),
{
}

/// Every event of a list is reported, in order, as what it is.
pub proof fn law_every_transfer_event_is_reported(list: Seq<TransferEvent>, i: int)
    ensures
        transfer_event_views(list).len() == list.len(),
        0 <= i < list.len() ==> transfer_event_views(list)[i] == list[i]@,
{
}

} // verus!
