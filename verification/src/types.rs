//! Identifier and time-of-day types shared by the whole crate.

use vstd::prelude::*;

verus! {

/// Identifier of a queue within a chat.  The empty string is the
/// distinguished "instant" queue; any other value is the "HH:MM" label of a
/// timed queue.
#[derive(Debug)]
pub struct QueueId(String);

impl View for QueueId {
    type V = Seq<char>;

    closed spec fn view(&self) -> Seq<char> {
        self.0@
    }
}

impl QueueId {
    pub fn new(id: String) -> (r: QueueId)
        ensures
            r@ == id@,
    {
        QueueId(id)
    }

    /// Whether this identifier denotes the instant queue.
    pub open spec fn spec_is_instant(self) -> bool {
        self@.len() == 0
    }

    pub fn is_instant_queue(&self) -> (r: bool)
        ensures
            r == self.spec_is_instant(),
    {
        self.0.as_str().is_empty()
    }

    /// The name under which the queue is shown to users.
    pub open spec fn spec_display_name(self) -> Seq<char> {
        if self.spec_is_instant() {
            "Instant"@
        } else {
            self@
        }
    }

    /// The identifier text itself.
    pub fn text(&self) -> (r: &str)
        ensures
            r@ == self@,
    {
        self.0.as_str()
    }

    /// Human-readable name: "Instant" for the instant queue, the literal
    /// identifier otherwise.
    pub fn display_name(&self) -> (r: String)
        ensures
            r@ == self.spec_display_name(),
    {
        if self.0.as_str().is_empty() {
            String::from_str("Instant")
        } else {
            self.0.clone()
        }
    }
}

impl Clone for QueueId {
    fn clone(&self) -> (r: Self)
        ensures
            r@ == self@,
    {
        QueueId(self.0.clone())
    }
}

impl PartialEq for QueueId {
    fn eq(&self, other: &QueueId) -> (r: bool) {
        self.0 == other.0
    }
}

impl vstd::std_specs::cmp::PartialEqSpecImpl for QueueId {
    open spec fn obeys_eq_spec() -> bool {
        true
    }

    open spec fn eq_spec(&self, other: &QueueId) -> bool {
        self@ == other@
    }
}

/// A player, identified by display name alone.
#[derive(Debug)]
pub struct Username(String);

impl View for Username {
    type V = Seq<char>;

    closed spec fn view(&self) -> Seq<char> {
        self.0@
    }
}

impl Username {
    pub fn new(str: String) -> (r: Username)
        ensures
            r@ == str@,
    {
        Username(str)
    }

    /// The display name as a string slice.
    pub fn name(&self) -> (r: &str)
        ensures
            r@ == self@,
    {
        self.0.as_str()
    }
}

impl Clone for Username {
    fn clone(&self) -> (r: Self)
        ensures
            r@ == self@,
    {
        Username(self.0.clone())
    }
}

impl PartialEq for Username {
    fn eq(&self, other: &Username) -> (r: bool) {
        self.0 == other.0
    }
}

impl vstd::std_specs::cmp::PartialEqSpecImpl for Username {
    open spec fn obeys_eq_spec() -> bool {
        true
    }

    open spec fn eq_spec(&self, other: &Username) -> bool {
        self@ == other@
    }
}

/// A 64-bit Steam account identifier, kept as its decimal string.
#[derive(Debug)]
pub struct SteamID(String);

impl View for SteamID {
    type V = Seq<char>;

    closed spec fn view(&self) -> Seq<char> {
        self.0@
    }
}

impl SteamID {
    pub fn new(str: String) -> (r: SteamID)
        ensures
            r@ == str@,
    {
        SteamID(str)
    }

    /// The identifier as a string slice.
    pub fn text(&self) -> (r: &str)
        ensures
            r@ == self@,
    {
        self.0.as_str()
    }
}

impl Clone for SteamID {
    fn clone(&self) -> (r: Self)
        ensures
            r@ == self@,
    {
        SteamID(self.0.clone())
    }
}

/// Identifier of a chat group, as handed over by the chat transport.
#[derive(Clone, Copy, Debug, PartialEq, Eq, Structural)]
pub struct ChatId(pub i64);

/// A wall-clock time at hour:minute resolution, used as a queue's expiry.
#[derive(Clone, Copy, Debug, PartialEq, Eq, Structural)]
pub struct QueueTime {
    pub hour: u8,
    pub minute: u8,
}

impl QueueTime {
    /// A valid time of day.
    pub open spec fn wf(self) -> bool {
        self.hour < 24 && self.minute < 60
    }

    /// Minutes since midnight; the sort key for timed queues.
    pub open spec fn spec_minutes(self) -> int {
        self.hour * 60 + self.minute
    }

    pub fn new(hour: u8, minute: u8) -> (r: QueueTime)
        requires
            hour < 24,
            minute < 60,
        ensures
            r == (QueueTime { hour, minute }),
    {
        QueueTime { hour, minute }
    }

    pub fn minutes(&self) -> (r: u16)
        requires
            self.wf(),
        ensures
            r == self.spec_minutes(),
    {
        self.hour as u16 * 60 + self.minute as u16
    }
}

} // verus!
