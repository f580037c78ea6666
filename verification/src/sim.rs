//! Small simulation-side types shared between the core and its callers:
//! permission groups, per-player flags, and the plain event payloads that
//! travel through the tick's event queues.

use vstd::prelude::*;

verus! {

/// A player's permission group.
#[derive(Default, Copy, Clone, Debug, PartialEq, Eq, Structural)]
pub enum Group {
    /// Banned from the server.
    Banned,
    /// An ordinary player.
    #[default]
    Normal,
    /// A moderator.
    Moderator,
    /// An administrator.
    Admin,
}

/// How long a player must wait between chat messages, in seconds.
pub const CHAT_COOLDOWN_SECONDS: i64 = 15;

/// The chat cooldown in ticks, at twenty ticks per second.
pub const CHAT_COOLDOWN_TICKS: i64 = 300;

/// When a player may chat again.
#[derive(Copy, Clone, Debug, PartialEq, Eq, Structural)]
pub struct ChatCooldown {
    /// The tick at which the cooldown expires.
    pub expires: i64,
}

impl Default for ChatCooldown {
    /// A cooldown that has already expired.
    fn default() -> (r: ChatCooldown)
        ensures
            r.expires == 0,
    {
        ChatCooldown { expires: 0 }
    }
}

/// Whether a player is hidden from other players.
#[derive(Default, Copy, Clone, Debug, PartialEq, Eq, Structural)]
pub struct Vanished(pub bool);

impl Vanished {
    /// A flag with the given state.
    pub fn new(is_vanished: bool) -> (r: Vanished)
        ensures
            r.0 == is_vanished,
    {
        Vanished(is_vanished)
    }

    /// Whether the player is hidden.
    pub fn is_vanished(&self) -> (r: bool)
        ensures
            r == self.0,
    {
        self.0
    }
}

/// A connection flagged for removal; the entity is torn down at a defined
/// point of the tick, not immediately, so that references held during the
/// current tick stay valid.
pub struct PendingRemove {
    /// Why the connection is going away; sent to the client as the kick
    /// reason.
    pub reason: String,
}

impl PendingRemove {
    /// Flags a connection for removal for the given reason.
    pub fn new(reason: String) -> (r: PendingRemove)
        ensures
            r.reason == reason,
    {
        PendingRemove { reason }
    }
}

/// A request to complete a partially-typed command.
pub struct CommandCompletionRequest {
    /// The partial text to complete.
    pub query: String,
    /// The client's transaction id, echoed back with the completions.
    pub id: i32,
}

/// Which hand a player acted with.
#[derive(Copy, Clone, Debug, PartialEq, Eq, Structural)]
pub enum Hand {
    /// The main hand.
    Main,
    /// The off hand.
    Off,
}

/// A player interaction, recorded during the tick it happened in.
pub struct InteractEvent {
    /// The hand the player used.
    pub hand: Hand,
    /// The client's action sequence number.
    pub sequence: i32,
}

/// A player that finished login this tick.
pub struct PlayerJoinServer {
    /// The player's name.
    pub username: String,
    /// The player's entity id.
    pub entity: u64,
}

} // verus!
