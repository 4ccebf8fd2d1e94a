//! What the capture loop makes of the ticks of a screen.

use vstd::prelude::*;

use crate::media::picture::{CapturedFrame, PictureView};

verus! {

/// Capture rate with the software encoder.
pub const CAPTURE_FPS: u32 = 10;

/// Capture rate with hardware encoding.
pub const CAPTURE_FPS_HW: u32 = 15;

/// How often the last picture is repeated while the screen is static, so that
/// keyframe demands are never starved.
pub const HEARTBEAT_MS: u64 = 1_000;

#[derive(Debug, Clone, PartialEq, Eq)]
pub enum CaptureError {
    PermissionDenied,
    Unsupported,
    Failed(String),
}

impl CaptureError {
    pub fn text(&self) -> (r: String)
        ensures
            r@ == (match *self {
                CaptureError::PermissionDenied => "screen recording permission denied"@,
                CaptureError::Unsupported => "screen capture unsupported on this system"@,
                CaptureError::Failed(why) => "screen capture failed to start: "@ + why@,
            }),
    {
        match self {
            CaptureError::PermissionDenied => "screen recording permission denied".to_owned(),
            CaptureError::Unsupported => "screen capture unsupported on this system".to_owned(),
            CaptureError::Failed(why) => {
                let mut out: String = "screen capture failed to start: ".to_owned();
                out.append(why.as_str());
                out
            },
        }
    }
}

#[verifier::ext_equal]
pub ghost struct CaptureView {
    /// The last picture of the screen.
    pub last_full: Option<PictureView>,
    /// When a picture was last emitted.
    pub last_emit_ms: u64,
}

/// A tick of the capturer: its dimensions and pixels. No pixels mean that the
/// screen did not change.
#[derive(Debug)]
pub struct CaptureTick {
    pub width: i32,
    pub height: i32,
    pub bgra: Vec<u8>,
}

/// Whether the time since the last picture has reached the heartbeat. A clock
/// that went back has not moved.
pub open spec fn heartbeat_due(v: CaptureView, now_ms: u64) -> bool {
    now_ms - v.last_emit_ms >= HEARTBEAT_MS
}

pub open spec fn tick_picture(tick: CaptureTick) -> PictureView {
    PictureView { width: tick.width as int, height: tick.height as int, bgra: tick.bgra@ }
}

/// The picture that a tick emits. A changed screen is emitted; an idle tick
/// repeats the last picture at heartbeat pace; a picture without area is
/// nothing.
pub open spec fn emitted(v: CaptureView, now_ms: u64, tick: CaptureTick) -> Option<PictureView> {
    if tick.bgra@.len() == 0 {
        if heartbeat_due(v, now_ms) {
            v.last_full
        } else {
            None
        }
    } else if tick.width <= 0 || tick.height <= 0 {
        None
    } else {
        Some(tick_picture(tick))
    }
}

pub open spec fn after_tick(v: CaptureView, now_ms: u64, tick: CaptureTick) -> CaptureView {
    match emitted(v, now_ms, tick) {
        Some(picture) => CaptureView { last_full: Some(picture), last_emit_ms: now_ms },
        None => v,
    }
}

/// A static screen still emits its picture once the heartbeat is due.
pub proof fn law_static_screen_keeps_its_heartbeat(
    v: CaptureView,
    seen_at: u64,
    seen: CaptureTick,
    now_ms: u64,
    idle: CaptureTick,
)
    requires
        seen.bgra@.len() > 0,
        seen.width > 0,
        seen.height > 0,
        idle.bgra@.len() == 0,
        now_ms >= seen_at + HEARTBEAT_MS,
    ensures
        emitted(after_tick(v, seen_at, seen), now_ms, idle) == Some(tick_picture(seen)),
{
}

/// The capture loop between two ticks.
#[derive(Debug)]
pub struct CaptureLoop {
    last_full: Option<CapturedFrame>,
    last_emit_ms: u64,
}

impl View for CaptureLoop {
    type V = CaptureView;

    closed spec fn view(&self) -> CaptureView {
        CaptureView {
            last_full: match self.last_full {
                Some(f) => Some(f@),
                None => None,
            },
            last_emit_ms: self.last_emit_ms,
        }
    }
}

impl CaptureLoop {
    pub fn new(now_ms: u64) -> (r: Self)
        ensures
            r@ == (CaptureView { last_full: None, last_emit_ms: now_ms }),
    {
        CaptureLoop { last_full: None, last_emit_ms: now_ms }
    }

    pub fn on_tick(&mut self, now_ms: u64, tick: CaptureTick) -> (r: Option<CapturedFrame>)
        ensures
            match r {
                Some(f) => emitted(old(self)@, now_ms, tick) == Some(f@),
                None => emitted(old(self)@, now_ms, tick) is None,
            },
            final(self)@ == after_tick(old(self)@, now_ms, tick),
    {
        if tick.bgra.len() == 0 {
            if now_ms >= self.last_emit_ms && now_ms - self.last_emit_ms >= HEARTBEAT_MS {
                if let Some(last) = &self.last_full {
                    let repeat = last.copied();
                    self.last_emit_ms = now_ms;
                    return Some(repeat);
                }
            }
            return None;
        }
        if tick.width <= 0 || tick.height <= 0 {
            return None;
        }
        let captured = CapturedFrame {
            width: tick.width as u32,
            height: tick.height as u32,
            bgra: tick.bgra,
        };
        self.last_full = Some(captured.copied());
        self.last_emit_ms = now_ms;
        Some(captured)
    }
}

/// A changed screen is shown at once, whatever was shown before and whenever; an idle one
/// is shown again a second after the last time, and not before.
pub proof fn law_changes_are_shown_at_once(v: CaptureView, now_ms: u64, tick: CaptureTick)
    ensures
        tick.bgra@.len() > 0 && tick.width > 0 && tick.height > 0 ==> emitted(v, now_ms, tick)
            == Some(
            PictureView { width: tick.width as int, height: tick.height as int, bgra: tick.bgra@ },
        ),
        tick.bgra@.len() > 0 && (tick.width <= 0 || tick.height <= 0) ==> emitted(v, now_ms, tick) is None,
        tick.bgra@.len() == 0 && now_ms < v.last_emit_ms + 1000 ==> emitted(v, now_ms, tick) is None,
        tick.bgra@.len() == 0 && now_ms >= v.last_emit_ms + 1000 ==> emitted(v, now_ms, tick)
            == v.last_full,
        emitted(v, now_ms, tick) is None ==> after_tick(v, now_ms, tick) == v,
        emitted(v, now_ms, tick) is Some ==> after_tick(v, now_ms, tick).last_full == emitted(
            v,
            now_ms,
            tick,
        ) && after_tick(v, now_ms, tick).last_emit_ms == now_ms,
{
}

} // verus!
