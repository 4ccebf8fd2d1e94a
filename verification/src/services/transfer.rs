//! File-transfer use cases: the offer/accept/reject lifecycle, the
//! verified-chunk bitmap and completion, per transfer.

use vstd::prelude::*;

use crate::shared::IdentityId;
use crate::sorted::SortedMap;
use crate::transfer::{
    after_chunk, answer_fault, chunk_events, chunk_fault, fail_fault, in_phase, offer_event,
    offer_of, transfer_event_views, Direction, FileManifest, Transfer, TransferError,
    TransferErrorView, TransferEvent, TransferEventView, TransferId, TransferPhase,
    TransferPhaseView, TransferView,
};

use super::identity::IdentityService;

verus! {

#[derive(Debug, Clone, PartialEq, Eq)]
pub enum TransferServiceError {
    UnknownTransfer,
    Transfer(TransferError),
}

/// What a transfer-service error says.
pub enum TransferServiceErrorView {
    UnknownTransfer,
    Transfer(TransferErrorView),
}

impl View for TransferServiceError {
    type V = TransferServiceErrorView;

    open spec fn view(&self) -> TransferServiceErrorView {
        match *self {
            TransferServiceError::UnknownTransfer => TransferServiceErrorView::UnknownTransfer,
            TransferServiceError::Transfer(e) => TransferServiceErrorView::Transfer(e@),
        }
    }
}

#[derive(Debug, Clone, PartialEq, Eq)]
pub struct TransferProgress {
    pub id: TransferId,
    pub phase: TransferPhase,
    pub have_chunks: u32,
    pub total_chunks: u32,
}

/// What stored transfers hold.
pub open spec fn transfer_views(m: Map<TransferId, Transfer>) -> Map<TransferId, TransferView> {
    Map::new(|id: TransferId| m.contains_key(id), |id: TransferId| m[id]@)
}

/// The transfer under `id` came to `next` with `fault` or without, or there is
/// none.
pub open spec fn driven(
    before: Map<TransferId, TransferView>,
    after: Map<TransferId, TransferView>,
    id: TransferId,
    fault: Option<TransferErrorView>,
    next: TransferView,
    error: Option<TransferServiceErrorView>,
) -> bool {
    if !before.contains_key(id) {
        error == Some(TransferServiceErrorView::UnknownTransfer) && after == before
    } else {
        &&& after == before.insert(id, next)
        &&& error == match fault {
            Some(f) => Some(TransferServiceErrorView::Transfer(f)),
            None => None,
        }
    }
}

/// The error of a result, if any.
pub open spec fn error_of<T>(r: Result<T, TransferServiceError>) -> Option<TransferServiceErrorView> {
    match r {
        Ok(_) => None,
        Err(e) => Some(e@),
    }
}

/// The transfer moved on, unless it was refused.
pub open spec fn unless(fault: Option<TransferErrorView>, t: TransferView, next: TransferView) -> TransferView {
    if fault is None {
        next
    } else {
        t
    }
}

/// The transfers we know of.
#[derive(Debug)]
pub struct TransferService {
    transfers: SortedMap<TransferId, Transfer>,
}

impl View for TransferService {
    type V = Map<TransferId, TransferView>;

    closed spec fn view(&self) -> Map<TransferId, TransferView> {
        transfer_views(self.transfers@)
    }
}

impl TransferService {
    /// Each transfer stands under its own id.
    pub closed spec fn wf(&self) -> bool {
        &&& self.transfers.wf()
        &&& forall|id: TransferId| #[trigger]
            self.transfers@.contains_key(id) ==> self.transfers@[id].wf() && self.transfers@[id]@.id
                == id
    }

    pub fn new() -> (r: TransferService)
        ensures
            r.wf(),
            r@ == Map::<TransferId, TransferView>::empty(),
    {
        let r = TransferService { transfers: SortedMap::new() };
        assert(r@ =~= Map::<TransferId, TransferView>::empty());
        r
    }

    proof fn lemma_one_changed(&self, before: Map<TransferId, Transfer>, id: TransferId)
        requires
            self.transfers@ == before.insert(id, self.transfers@[id]),
        ensures
            transfer_views(self.transfers@) == transfer_views(before).insert(
                id,
                self.transfers@[id]@,
            ),
    {
        assert(transfer_views(self.transfers@) =~= transfer_views(before).insert(
            id,
            self.transfers@[id]@,
        ));
    }

    fn offered(&mut self, id: TransferId, manifest: FileManifest, direction: Direction) -> (event: TransferEvent)
        requires
            old(self).wf(),
            manifest.wf(),
        ensures
            final(self).wf(),
            final(self)@ == old(self)@.insert(id, offer_of(id, manifest@, direction)),
            event@ == offer_event(id, manifest@),
    {
        let ghost before = self.transfers@;
        let (transfer, event) = Transfer::offered(id, manifest, direction);
        self.transfers.insert(id, transfer);
        proof {
            self.lemma_one_changed(before, id);
        }
        event
    }

    /// Offer a file to a peer (the DCC SEND / drag-and-drop use case).
    pub fn offer_file(&mut self, id: TransferId, to: IdentityId, manifest: FileManifest) -> (event: TransferEvent)
        requires
            old(self).wf(),
            manifest.wf(),
        ensures
            final(self).wf(),
            final(self)@ == old(self)@.insert(id, offer_of(id, manifest@, Direction::Outbound { to })),
            event@ == offer_event(id, manifest@),
    {
        self.offered(id, manifest, Direction::Outbound { to })
    }

    /// An inbound offer arrived from the network. One from a blocked peer is
    /// dropped.
    pub fn offered_to_us(
        &mut self,
        profile: &IdentityService,
        id: TransferId,
        from: IdentityId,
        manifest: FileManifest,
    ) -> (event: Option<TransferEvent>)
        requires
            old(self).wf(),
            profile.wf(),
            manifest.wf(),
        ensures
            final(self).wf(),
            if profile@.blocks(from) {
                event is None && final(self)@ == old(self)@
            } else {
                &&& final(self)@ == old(self)@.insert(
                    id,
                    offer_of(id, manifest@, Direction::Inbound { from }),
                )
                &&& event matches Some(e) && e@ == offer_event(id, manifest@)
            },
    {
        if profile.is_blocked(&from) {
            return None;
        }
        Some(self.offered(id, manifest, Direction::Inbound { from }))
    }

    pub fn accept(&mut self, id: TransferId) -> (r: Result<TransferEvent, TransferServiceError>)
        requires
            old(self).wf(),
        ensures
            final(self).wf(),
            ({
                let t = old(self)@[id];
                &&& driven(
                    old(self)@,
                    final(self)@,
                    id,
                    answer_fault(t, "accept"@),
                    unless(answer_fault(t, "accept"@), t, in_phase(t, TransferPhaseView::Accepted)),
                    error_of(r),
                )
                &&& r matches Ok(event) ==> event@ == (TransferEventView::TransferAccepted { transfer: id })
            }),
    {
        let ghost before = self.transfers@;
        let r = match self.transfers.get_mut(&id) {
            None => {
                return Err(TransferServiceError::UnknownTransfer);
            },
            Some(transfer) => transfer.accept(),
        };
        proof {
            self.lemma_one_changed(before, id);
        }
        match r {
            Ok(event) => Ok(event),
            Err(e) => Err(TransferServiceError::Transfer(e)),
        }
    }

    pub fn reject(&mut self, id: TransferId) -> (r: Result<TransferEvent, TransferServiceError>)
        requires
            old(self).wf(),
        ensures
            final(self).wf(),
            ({
                let t = old(self)@[id];
                &&& driven(
                    old(self)@,
                    final(self)@,
                    id,
                    answer_fault(t, "reject"@),
                    unless(answer_fault(t, "reject"@), t, in_phase(t, TransferPhaseView::Rejected)),
                    error_of(r),
                )
                &&& r matches Ok(event) ==> event@ == (TransferEventView::TransferRejected { transfer: id })
            }),
    {
        let ghost before = self.transfers@;
        let r = match self.transfers.get_mut(&id) {
            None => {
                return Err(TransferServiceError::UnknownTransfer);
            },
            Some(transfer) => transfer.reject(),
        };
        proof {
            self.lemma_one_changed(before, id);
        }
        match r {
            Ok(event) => Ok(event),
            Err(e) => Err(TransferServiceError::Transfer(e)),
        }
    }

    /// A chunk arrived and its hash was compared against the manifest.
    pub fn chunk_verified(&mut self, id: TransferId, index: u32, hash_matches: bool) -> (r: Result<Vec<TransferEvent>, TransferServiceError>)
        requires
            old(self).wf(),
        ensures
            final(self).wf(),
            ({
                let t = old(self)@[id];
                &&& driven(
                    old(self)@,
                    final(self)@,
                    id,
                    chunk_fault(t, index, hash_matches),
                    after_chunk(t, index, hash_matches),
                    error_of(r),
                )
                &&& r matches Ok(events) ==> transfer_event_views(events@) == chunk_events(t, index)
            }),
    {
        let ghost before = self.transfers@;
        let r = match self.transfers.get_mut(&id) {
            None => {
                return Err(TransferServiceError::UnknownTransfer);
            },
            Some(transfer) => transfer.chunk_verified(index, hash_matches),
        };
        proof {
            self.lemma_one_changed(before, id);
        }
        match r {
            Ok(events) => Ok(events),
            Err(e) => Err(TransferServiceError::Transfer(e)),
        }
    }

    pub fn fail(&mut self, id: TransferId, reason: &str) -> (r: Result<TransferEvent, TransferServiceError>)
        requires
            old(self).wf(),
        ensures
            final(self).wf(),
            ({
                let t = old(self)@[id];
                &&& driven(
                    old(self)@,
                    final(self)@,
                    id,
                    fail_fault(t),
                    unless(fail_fault(t), t, in_phase(t, TransferPhaseView::Failed { reason: reason@ })),
                    error_of(r),
                )
                &&& r matches Ok(event) ==> event@ == (TransferEventView::TransferFailed { transfer: id, reason: reason@ })
            }),
    {
        let ghost before = self.transfers@;
        let r = match self.transfers.get_mut(&id) {
            None => {
                return Err(TransferServiceError::UnknownTransfer);
            },
            Some(transfer) => transfer.fail(reason),
        };
        proof {
            self.lemma_one_changed(before, id);
        }
        match r {
            Ok(event) => Ok(event),
            Err(e) => Err(TransferServiceError::Transfer(e)),
        }
    }

    pub fn progress(&self, id: TransferId) -> (r: Result<TransferProgress, TransferServiceError>)
        requires
            self.wf(),
        ensures
            match r {
                Ok(p) => {
                    &&& self@.contains_key(id)
                    &&& p.id == id
                    &&& p.phase@ == self@[id].phase
                    &&& p.have_chunks == self@[id].held.len()
                    &&& p.total_chunks == self@[id].manifest.chunk_hashes.len()
                },
                Err(e) => !self@.contains_key(id) && e == TransferServiceError::UnknownTransfer,
            },
    {
        match self.transfers.get(&id) {
            None => Err(TransferServiceError::UnknownTransfer),
            Some(transfer) => Ok(
                TransferProgress {
                    id,
                    phase: transfer.phase().clone(),
                    have_chunks: transfer.bitmap().have_count(),
                    total_chunks: transfer.bitmap().len(),
                },
            ),
        }
    }

    /// Chunk indexes still missing: what the fetcher should request next.
    pub fn missing_chunks(&self, id: TransferId) -> (r: Result<Vec<u32>, TransferServiceError>)
        requires
            self.wf(),
        ensures
            match r {
                Ok(missing) => {
                    let t = self@[id];
                    &&& self@.contains_key(id)
                    &&& forall|i: int, j: int| 0 <= i < j < missing@.len() ==> missing@[i] < missing@[j]
                    &&& forall|i: u32| #[trigger]
                        missing@.contains(i) <==> i < t.manifest.chunk_hashes.len() && !t.held.contains(
                            i as int,
                        )
                },
                Err(e) => !self@.contains_key(id) && e == TransferServiceError::UnknownTransfer,
            },
    {
        match self.transfers.get(&id) {
            None => Err(TransferServiceError::UnknownTransfer),
            Some(transfer) => Ok(transfer.bitmap().missing()),
        }
    }
}

/// A command about a transfer that we know is carried out, and answered as the transfer
/// answers it; about any other it is refused. Only the transfer concerned changes.
pub proof fn law_commands_reach_their_transfer(
    before: Map<TransferId, TransferView>,
    after: Map<TransferId, TransferView>,
    id: TransferId,
    fault: Option<TransferErrorView>,
    next: TransferView,
    error: Option<TransferServiceErrorView>,
    other: TransferId,
)
    requires
        driven(before, after, id, fault, next, error),
    ensures
        before.contains_key(id) ==> after.contains_key(id) && after[id] == next && (error is None
            <==> fault is None),
        before.contains_key(id) && fault is Some ==> error == Some(
            TransferServiceErrorView::Transfer(fault->0),
        ),
        !before.contains_key(id) ==> error == Some(TransferServiceErrorView::UnknownTransfer)
            && after == before,
        other != id ==> (after.contains_key(other) <==> before.contains_key(other)),
        other != id && before.contains_key(other) ==> after[other] == before[other],
{
}

/// What is refused changes nothing; what is not happens.
pub proof fn law_refusals_change_nothing(
    fault: Option<TransferErrorView>,
    t: TransferView,
    next: TransferView,
)
    ensures
        fault is Some ==> unless(fault, t, next) == t,
        fault is None ==> unless(fault, t, next) == next,
{
}

} // verus!
