//! Call aggregates: seats, invitations, shares and forwarders.

use mikall::calls::{
    Call, CallError, CallEvent, CallId, CallPhase, CallRoster, EndReason, ForwarderStrategy, LowestSeatedIdentity,
    RosterError,
};
use mikall::ports::CallAction;
use mikall::services::calls::{CallService, CallServiceError};
use mikall::services::identity::IdentityService;
use mikall::shared::{Fingerprint, IdentityId};

fn id(n: u8) -> IdentityId {
    IdentityId::from_bytes([n; 32])
}

fn active_call() -> Call {
    let (mut call, _) = Call::offer(CallId::from_bytes([1; 16]), id(1), vec![id(2)]);
    call.accept(id(2)).unwrap();
    call.connected().unwrap();
    call
}

#[test]
fn ninth_participant_is_unrepresentable() {
    let mut call = active_call();
    for n in 3..=8 {
        call.join(id(n)).unwrap();
    }
    assert_eq!(call.roster().len(), 8);
    assert_eq!(call.join(id(9)), Err(CallError::Roster(RosterError::Full)));
}

#[test]
fn cannot_accept_twice() {
    let (mut call, _) = Call::offer(CallId::from_bytes([1; 16]), id(1), vec![id(2)]);
    call.accept(id(2)).unwrap();
    // Neither an uninvited peer nor the already-seated callee can accept.
    assert_eq!(call.accept(id(3)), Err(CallError::NotInvited));
    assert_eq!(call.accept(id(2)), Err(CallError::NotInvited));
}

#[test]
fn solo_start_is_active_with_only_the_opener() {
    let (call, event) = Call::offer(CallId::from_bytes([2; 16]), id(1), vec![]);
    assert!(matches!(call.phase(), CallPhase::Active));
    assert_eq!(call.roster().len(), 1);
    assert!(call.roster().contains(&id(1)));
    assert!(call.is_solo_stage());
    assert!(matches!(event, CallEvent::CallOpened { by, .. } if by == id(1)));
}

#[test]
fn solo_stage_survives_its_guest_leaving() {
    let (mut call, _) = Call::open_solo(CallId::from_bytes([2; 16]), id(1));
    call.invite(id(1), &[id(2)]).unwrap();
    call.accept(id(2)).unwrap();
    assert_eq!(call.roster().len(), 2);
    let events = call.leave(id(2)).unwrap();
    assert_eq!(
        events,
        vec![CallEvent::ParticipantLeft {
            call: call.id(),
            who: id(2),
        }]
    );
    assert!(matches!(call.phase(), CallPhase::Active));
    assert_eq!(call.roster().len(), 1);
}

#[test]
fn invitee_decline_leaves_the_call_alive() {
    let (mut call, _) = Call::open_solo(CallId::from_bytes([2; 16]), id(1));
    call.invite(id(1), &[id(2)]).unwrap();
    let events = call.decline(id(2)).unwrap();
    assert_eq!(
        events,
        vec![CallEvent::CallDeclined {
            call: call.id(),
            by: id(2),
        }]
    );
    assert!(matches!(call.phase(), CallPhase::Active));
    assert_eq!(call.invited().len(), 0);
}

#[test]
fn invite_respects_the_mesh_cap() {
    let mut call = active_call();
    for n in 3..=8 {
        call.join(id(n)).unwrap();
    }
    assert_eq!(
        call.invite(id(1), &[id(9)]),
        Err(CallError::NoFreeSeat {
            seated: 8,
            pending: 0,
        })
    );
    // Outstanding invites claim seats too: 1 seated + 7 invited is full.
    let (mut solo, _) = Call::open_solo(CallId::from_bytes([3; 16]), id(1));
    let invitees: Vec<IdentityId> = (2..=8).map(id).collect();
    solo.invite(id(1), &invitees).unwrap();
    assert_eq!(
        solo.invite(id(1), &[id(9)]),
        Err(CallError::NoFreeSeat {
            seated: 1,
            pending: 7,
        })
    );
}

#[test]
fn invite_skips_the_seated_and_already_invited() {
    let mut call = active_call();
    let event = call.invite(id(1), &[id(1), id(2), id(3), id(3)]).unwrap();
    assert!(matches!(
        &event,
        CallEvent::CallInvited { to, .. } if *to == vec![id(3)]
    ));
    assert_eq!(call.invite(id(1), &[id(3)]), Err(CallError::AlreadyInvited));
}

#[test]
fn invite_is_for_ongoing_calls_only() {
    let (mut ringing, _) = Call::offer(CallId::from_bytes([4; 16]), id(1), vec![id(2)]);
    assert!(matches!(
        ringing.invite(id(1), &[id(3)]),
        Err(CallError::Transition(_))
    ));
    let mut ended = active_call();
    ended.hang_up().unwrap();
    assert_eq!(ended.invite(id(1), &[id(3)]), Err(CallError::Ended));
}

#[test]
fn second_callee_of_a_group_ring_seats_after_the_first() {
    let (mut call, _) = Call::offer(CallId::from_bytes([5; 16]), id(1), vec![id(2), id(3)]);
    call.accept(id(2)).unwrap();
    call.connected().unwrap();
    call.accept(id(3)).unwrap();
    assert_eq!(call.roster().len(), 3);
    assert!(matches!(call.phase(), CallPhase::Active));
}

#[test]
fn one_of_two_ringing_callees_declining_keeps_the_ring_alive() {
    let (mut call, _) = Call::offer(CallId::from_bytes([6; 16]), id(1), vec![id(2), id(3)]);
    let events = call.decline(id(2)).unwrap();
    assert_eq!(events.len(), 1);
    assert!(matches!(call.phase(), CallPhase::Ringing { .. }));
    // The last pending callee declining ends the ring.
    let events = call.decline(id(3)).unwrap();
    assert_eq!(events.len(), 2);
    assert!(matches!(
        call.phase(),
        CallPhase::Ended {
            reason: EndReason::Declined,
        }
    ));
}

#[test]
fn ended_call_rejects_everything() {
    let mut call = active_call();
    call.hang_up().unwrap();
    assert!(matches!(call.hang_up(), Err(CallError::Transition(_))));
    assert_eq!(call.join(id(5)), Err(CallError::Ended));
}

#[test]
fn last_leaver_ends_the_call() {
    let mut call = active_call();
    let events = call.leave(id(2)).unwrap();
    assert_eq!(events.len(), 2);
    assert!(matches!(call.phase(), CallPhase::Ended { .. }));
}

#[test]
fn screen_share_only_while_active() {
    let (mut call, _) = Call::offer(CallId::from_bytes([1; 16]), id(1), vec![id(2)]);
    assert_eq!(call.set_screen_sharing(id(1), true), Err(CallError::Ended));
    call.accept(id(2)).unwrap();
    call.connected().unwrap();
    let events = call.set_screen_sharing(id(1), true).unwrap();
    assert!(matches!(
        events.as_slice(),
        [CallEvent::ScreenShareStarted { .. }]
    ));
}

/// A 3+-party call sharing elects the lowest seated non-sharer
/// identity — deterministically, and never the sharer.
#[test]
fn election_is_deterministic_and_excludes_the_sharer() {
    let mut call = active_call();
    call.join(id(3)).unwrap();
    call.set_screen_sharing(id(2), true).unwrap();
    let candidates = call.forwarder_candidates(&id(2));
    assert_eq!(candidates, vec![id(1), id(3)]);
    let choice = LowestSeatedIdentity.pick(&candidates).unwrap();
    assert_eq!(choice, id(1), "lowest identity among non-sharer peers");
    let event = call.elect_forwarder(id(2), choice).unwrap();
    assert!(matches!(
        event,
        CallEvent::ForwarderElected { sharer, forwarder, .. }
            if sharer == id(2) && forwarder == id(1)
    ));
    assert_eq!(call.forwarder_for(&id(2)), Some(id(1)));
}

/// With fewer than two candidates a forwarder is pure overhead: the
/// strategy refuses, and direct fan-out (M16 behavior) remains.
#[test]
fn two_party_call_elects_nobody() {
    let mut call = active_call();
    call.set_screen_sharing(id(1), true).unwrap();
    let candidates = call.forwarder_candidates(&id(1));
    assert_eq!(candidates, vec![id(2)]);
    assert_eq!(LowestSeatedIdentity.pick(&candidates), None);
    assert_eq!(call.forwarder_for(&id(1)), None);
}

/// Invalid forwarders are unrepresentable: not-seated, the sharer
/// itself, a non-sharing sharer — all refused at the constructor.
#[test]
fn invalid_forwarders_are_unrepresentable() {
    let mut call = active_call();
    call.join(id(3)).unwrap();
    // Sharer not sharing yet.
    assert_eq!(
        call.elect_forwarder(id(2), id(1)),
        Err(CallError::NotSharing)
    );
    call.set_screen_sharing(id(2), true).unwrap();
    // A stranger cannot forward.
    assert_eq!(
        call.elect_forwarder(id(2), id(9)),
        Err(CallError::ForwarderNotSeated)
    );
    // The sharer cannot forward their own stream.
    assert_eq!(
        call.elect_forwarder(id(2), id(2)),
        Err(CallError::ForwarderIsSharer)
    );
    assert_eq!(call.forwarder_for(&id(2)), None);
}

/// The forwarder leaving clears the role (the share survives, direct
/// fan-out resumes until re-election); the sharer leaving clears it
/// too.
#[test]
fn leaving_clears_forwarding_both_ways() {
    let mut call = active_call();
    call.join(id(3)).unwrap();
    call.join(id(4)).unwrap();
    call.set_screen_sharing(id(2), true).unwrap();
    call.elect_forwarder(id(2), id(1)).unwrap();

    let events = call.leave(id(1)).unwrap();
    assert!(events.iter().any(|e| matches!(
        e,
        CallEvent::ForwarderCleared { sharer, .. } if *sharer == id(2)
    )));
    assert_eq!(call.forwarder_for(&id(2)), None);

    // Re-election over the survivors, then the sharer leaves.
    let candidates = call.forwarder_candidates(&id(2));
    assert_eq!(candidates, vec![id(3), id(4)]);
    call.elect_forwarder(id(2), id(3)).unwrap();
    let events = call.leave(id(2)).unwrap();
    assert!(events.iter().any(|e| matches!(
        e,
        CallEvent::ForwarderCleared { sharer, .. } if *sharer == id(2)
    )));
    assert_eq!(call.forwarder_for(&id(2)), None);
}

/// Stopping the share retires its forwarder with it.
#[test]
fn stopping_the_share_clears_the_forwarder() {
    let mut call = active_call();
    call.join(id(3)).unwrap();
    call.set_screen_sharing(id(2), true).unwrap();
    call.elect_forwarder(id(2), id(1)).unwrap();
    let events = call.set_screen_sharing(id(2), false).unwrap();
    assert!(matches!(
        events.as_slice(),
        [
            CallEvent::ScreenShareStopped { .. },
            CallEvent::ForwarderCleared { .. }
        ]
    ));
    assert_eq!(call.forwarder_for(&id(2)), None);
}

#[test]
fn mic_mute_only_while_active_and_tracks_state() {
    let (mut call, _) = Call::offer(CallId::from_bytes([1; 16]), id(1), vec![id(2)]);
    assert_eq!(call.set_mic_muted(id(1), true), Err(CallError::Ended));
    call.accept(id(2)).unwrap();
    call.connected().unwrap();
    let event = call.set_mic_muted(id(1), true).unwrap();
    assert!(matches!(event, CallEvent::MicMuted { who, .. } if who == id(1)));
    let muted = call
        .roster()
        .members()
        .into_iter()
        .find(|(who, _)| *who == id(1))
        .map(|(_, media)| media.mic_muted);
    assert_eq!(muted, Some(true));
    let event = call.set_mic_muted(id(1), false).unwrap();
    assert!(matches!(event, CallEvent::MicUnmuted { who, .. } if who == id(1)));
    // A stranger's mute is unrepresentable.
    assert_eq!(
        call.set_mic_muted(id(9), true),
        Err(CallError::Roster(RosterError::NotPresent))
    );
}

#[test]
fn a_forwarder_is_cleared_once() {
    let mut call = active_call();
    call.join(id(3)).unwrap();
    call.set_screen_sharing(id(2), true).unwrap();
    call.elect_forwarder(id(2), id(1)).unwrap();
    assert!(matches!(
        call.clear_forwarder(&id(2)),
        Some(CallEvent::ForwarderCleared { sharer, .. }) if sharer == id(2)
    ));
    assert_eq!(call.forwarder_for(&id(2)), None);
    assert_eq!(call.clear_forwarder(&id(2)), None);
}

fn profile_of(n: u8) -> IdentityService {
    IdentityService::new(id(n), Fingerprint::from_bytes([0; 32]))
}

fn ring(media_key: [u8; 32]) -> CallAction {
    CallAction::Offer {
        participants: vec![id(1), id(2)],
        media_key,
    }
}

#[test]
fn a_running_call_is_not_rung_anew() {
    let one = CallId::from_bytes([1; 16]);
    let mut calls = CallService::new();
    let heard = calls.receive_signal(&profile_of(2), id(1), one, ring([7; 32]));
    assert_eq!(heard.events.len(), 1);
    let heard = calls.receive_signal(&profile_of(2), id(1), one, ring([8; 32]));
    assert!(heard.events.is_empty());
    assert!(!heard.drop_tap);
    assert_eq!(calls.media_key(&one), Some([7; 32]));
}

#[test]
fn one_call_does_not_touch_another() {
    let (one, two) = (CallId::from_bytes([1; 16]), CallId::from_bytes([2; 16]));
    let mut calls = CallService::new();
    calls.receive_signal(&profile_of(2), id(1), one, ring([7; 32]));
    calls.receive_signal(&profile_of(2), id(3), two, ring([9; 32]));
    let heard = calls.receive_signal(&profile_of(2), id(1), one, CallAction::HangUp);
    assert!(heard.drop_tap);
    assert!(matches!(
        calls.snapshot(one).unwrap().phase,
        CallPhase::Ended { .. }
    ));
    assert!(!matches!(
        calls.snapshot(two).unwrap().phase,
        CallPhase::Ended { .. }
    ));
    assert_eq!(calls.media_key(&two), Some([9; 32]));
}

#[test]
fn a_guest_leaving_does_not_silence_the_call() {
    let one = CallId::from_bytes([1; 16]);
    let mut calls = CallService::new();
    calls.start_call(id(1), one, [7; 32], vec![]);
    calls.join(one, id(2)).unwrap();
    calls.join(one, id(3)).unwrap();
    let heard = calls.receive_signal(&profile_of(1), id(2), one, CallAction::HangUp);
    assert!(!heard.drop_tap);
    assert_eq!(calls.snapshot(one).unwrap().participants.len(), 2);
}

#[test]
fn only_a_connecting_call_connects() {
    let one = CallId::from_bytes([1; 16]);
    let mut calls = CallService::new();
    assert!(matches!(
        calls.mark_connected(one),
        Err(CallServiceError::UnknownCall)
    ));
    calls.start_call(id(1), one, [7; 32], vec![id(2)]);
    assert!(calls.mark_connected(one).is_err());
    calls.accept(one, id(2)).unwrap();
    calls.mark_connected(one).unwrap();
    assert_eq!(calls.snapshot(one).unwrap().phase, CallPhase::Active);
}

#[test]
fn a_roster_is_never_empty() {
    let mut roster = CallRoster::solo(id(1));
    assert_eq!(roster.remove(&id(2)), Err(RosterError::NotPresent));
    assert_eq!(roster.remove(&id(1)), Err(RosterError::LastOne));
    assert_eq!(roster.len(), 1);
    assert!(!roster.is_empty());
    roster.add(id(2)).unwrap();
    roster.remove(&id(1)).unwrap();
    assert!(roster.contains(&id(2)));
}

#[test]
fn a_call_ends_under_its_only_participant() {
    // The caller gives up a ring that nobody answered.
    let (mut call, _) = Call::offer(CallId::from_bytes([1; 16]), id(1), vec![id(2)]);
    let events = call.leave(id(1)).unwrap();
    assert_eq!(
        events,
        vec![
            CallEvent::ParticipantLeft {
                call: call.id(),
                who: id(1),
            },
            CallEvent::CallEnded {
                call: call.id(),
                reason: EndReason::LastParticipantLeft,
            },
        ]
    );
    assert_eq!(
        call.phase(),
        &CallPhase::Ended {
            reason: EndReason::LastParticipantLeft
        }
    );
    assert_eq!(call.roster().len(), 1);
    assert_eq!(
        call.leave(id(1)),
        Err(CallError::Roster(RosterError::LastOne))
    );
}

#[test]
fn a_blocked_caller_is_not_heard() {
    let one = CallId::from_bytes([1; 16]);
    let mut profile = profile_of(2);
    profile.block(id(1), 5);
    let mut calls = CallService::new();
    let heard = calls.receive_signal(&profile, id(1), one, ring([7; 32]));
    assert!(heard.events.is_empty());
    assert!(!heard.drop_tap);
    assert_eq!(calls.media_key(&one), None);
    assert!(matches!(
        calls.snapshot(one),
        Err(CallServiceError::UnknownCall)
    ));
    let heard = calls.receive_signal(&profile, id(1), one, CallAction::HangUp);
    assert!(!heard.drop_tap);
}
