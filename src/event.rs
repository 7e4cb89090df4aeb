use vstd::prelude::*;

verus! {

/// Nanoseconds in one second.
pub const NANOS_PER_SEC: u32 = 1_000_000_000;

/// A point in time in UTC: whole seconds since the Unix epoch and the
/// nanoseconds past that second.
///
/// The sub-second part may reach into a second second, which is how a leap
/// second is written.
#[derive(Debug, Clone, Copy, PartialEq, Eq, Structural)]
pub struct Timestamp {
    secs: i64,
    nanos: u32,
}

impl Timestamp {
    /// Whether a sub-second part is one a timestamp can hold.
    pub open spec fn valid_nanos(nanos: u32) -> bool {
        nanos < 2 * NANOS_PER_SEC
    }

    pub closed spec fn spec_secs(self) -> i64 {
        self.secs
    }

    pub closed spec fn spec_nanos(self) -> u32 {
        self.nanos
    }

    pub open spec fn wf(self) -> bool {
        Self::valid_nanos(self.spec_nanos())
    }

    /// The timestamp `secs` seconds and `nanos` nanoseconds after the epoch,
    /// or `None` where `nanos` is out of range.
    pub fn new(secs: i64, nanos: u32) -> (r: Option<Timestamp>)
        ensures
            r is Some <==> Self::valid_nanos(nanos),
            r matches Some(t) ==> t.spec_secs() == secs && t.spec_nanos() == nanos && t.wf(),
    {
        if nanos < 2 * NANOS_PER_SEC {
            Some(Timestamp { secs, nanos })
        } else {
            None
        }
    }

    /// Whole seconds since the Unix epoch.
    pub fn secs(&self) -> (r: i64)
        ensures
            r == self.spec_secs(),
    {
        self.secs
    }

    /// Nanoseconds past the whole second.
    pub fn subsec_nanos(&self) -> (r: u32)
        ensures
            r == self.spec_nanos(),
    {
        self.nanos
    }
}

/// The human's verdict on one suggested change.
#[derive(Debug, Clone, Copy, PartialEq, Eq, Structural)]
pub enum DecisionType {
    Accept,
    Reject,
    Partial,
}

/// One review decision: what was proposed, what was decided, and why.
#[derive(Debug)]
pub struct TimelineEvent {
    pub timestamp: Timestamp,
    pub commit_hash: Option<String>,
    pub decision_type: DecisionType,
    pub files_modified: Vec<String>,
    pub llm_suggestion: String,
    pub user_feedback: String,
    pub tags: Vec<String>,
}

impl TimelineEvent {
    /// Whether one of the event's tags is exactly `tag`.
    pub open spec fn has_tag(self, tag: Seq<char>) -> bool {
        exists|i: int| 0 <= i < self.tags@.len() && (#[trigger] self.tags@[i])@ == tag
    }

    /// Whether one of the event's tags is exactly `tag`; case-sensitive, with
    /// no normalisation.
    pub fn carries_tag(&self, tag: &String) -> (r: bool)
        ensures
            r == self.has_tag(tag@),
    {
        let mut i: usize = 0;
        while i < self.tags.len()
            invariant
                0 <= i <= self.tags@.len(),
                forall|k: int| 0 <= k < i ==> (#[trigger] self.tags@[k])@ != tag@,
            decreases self.tags@.len() - i,
        {
            if self.tags[i] == *tag {
                return true;
            }
            i = i + 1;
        }
        false
    }
}

} // verus!
