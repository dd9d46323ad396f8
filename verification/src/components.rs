//! Plain data the engine's systems hand to each other: entity tags, fired
//! animation events, sound handles and the statistics of a frame.

use vstd::prelude::*;
use crate::batching::BatchStats3D;

verus! {

/// Generic string tag for identifying entities across scene save/load.
#[derive(Debug, Clone)]
pub struct Tag(pub String);

/// An event fired by an animation state when playback crosses its time.
#[derive(Debug, Clone)]
pub struct FiredEvent {
    /// Name of the event.
    pub name: String,
    /// Name of the state that fired it.
    pub state_name: String,
}

/// Handle to a loaded sound.
#[derive(Debug, Clone, Copy, PartialEq, Eq, Hash, Structural)]
pub struct SoundHandle(pub usize);

/// Collected engine statistics for the debug overlay.
#[derive(Debug, Clone, Copy)]
pub struct EngineStats {
    /// Total physics step time for this frame (across all ticks), in microseconds.
    pub physics_step_us: u64,
    /// Render batch statistics from the last frame.
    pub batch_stats: BatchStats3D,
    /// Number of live entities in the ECS world.
    pub entity_count: usize,
}

} // verus!
