use vstd::prelude::*;

verus! {

broadcast use vstd::string::to_string_from_display_ensures_for_str;

/// Failures the library reports to its callers.
///
/// The four frame-format failures mirror the decoder's validation steps;
/// `NotFound` is returned for a session id that the store does not hold.
#[derive(Clone, Copy, PartialEq, Eq, Structural, Debug)]
pub enum QsError {
    /// The declared frame length does not match the buffer, or the buffer is
    /// too short to hold a frame header.
    LengthMismatch,
    /// The frame header declares a channel count outside 1..=8.
    ChannelCountOutOfRange,
    /// The frame header declares a counter-overflow epoch of 64 or more.
    InvalidOverflow,
    /// The sample bytes are not an exact multiple of the per-sample stride.
    IncompleteChannelFrame,
    /// No session with the given id is present in the store.
    NotFound,
}

impl QsError {
    /// The human-readable message pushed onto the error queue for this error.
    pub open spec fn spec_message(self) -> Seq<char> {
        match self {
            QsError::LengthMismatch => "Bytes in payload does not match specified bytes in payload"@,
            QsError::ChannelCountOutOfRange => "Channel count specified in payload is out of range"@,
            QsError::InvalidOverflow => "Likely invalid notification counter overflow"@,
            QsError::IncompleteChannelFrame => "Not all specified channels present in payload"@,
            QsError::NotFound => "No measurement with the requested id"@,
        }
    }

    pub fn message(&self) -> (r: String)
        ensures
            r@ == self.spec_message(),
    {
        match self {
            QsError::LengthMismatch => "Bytes in payload does not match specified bytes in payload".to_string(),
            QsError::ChannelCountOutOfRange => "Channel count specified in payload is out of range".to_string(),
            QsError::InvalidOverflow => "Likely invalid notification counter overflow".to_string(),
            QsError::IncompleteChannelFrame => "Not all specified channels present in payload".to_string(),
            QsError::NotFound => "No measurement with the requested id".to_string(),
        }
    }
}

/// Depth of the bounded error queue; arrivals beyond this are dropped.
pub const ERROR_QUEUE_DEPTH: usize = 16;

/// Bounded queue of failure messages: FIFO arrival, most-recent-first
/// retrieval, and once full a new message is dropped rather than overwriting
/// an old one.
pub struct ErrorQueue {
    messages: Vec<String>,
}

impl View for ErrorQueue {
    type V = Seq<Seq<char>>;

    closed spec fn view(&self) -> Seq<Seq<char>> {
        self.messages@.map_values(|m: String| m@)
    }
}

impl ErrorQueue {
    pub open spec fn wf(self) -> bool {
        self@.len() <= ERROR_QUEUE_DEPTH
    }

    pub fn new() -> (r: ErrorQueue)
        ensures
            r@ == Seq::<Seq<char>>::empty(),
            r.wf(),
    {
        let r = ErrorQueue { messages: Vec::new() };
        assert(r@ =~= Seq::<Seq<char>>::empty());
        r
    }

    pub fn len(&self) -> (r: usize)
        ensures
            r == self@.len(),
    {
        self.messages.len()
    }

    /// Append a message at the queue's tail; a message arriving at a full
    /// queue is dropped.
    pub fn push(&mut self, message: String)
        requires
            old(self).wf(),
        ensures
            final(self).wf(),
            old(self)@.len() < ERROR_QUEUE_DEPTH ==> final(self)@ == old(self)@.push(message@),
            old(self)@.len() == ERROR_QUEUE_DEPTH ==> final(self)@ == old(self)@,
    {
        if self.messages.len() < ERROR_QUEUE_DEPTH {
            self.messages.push(message);
            assert(self@ =~= old(self)@.push(message@));
        }
    }

    /// Remove and return the most recently retained message, or `None` on an
    /// empty queue.
    pub fn pop(&mut self) -> (r: Option<String>)
        requires
            old(self).wf(),
        ensures
            final(self).wf(),
            old(self)@.len() == 0 ==> r is None && final(self)@ == old(self)@,
            old(self)@.len() > 0 ==> r is Some && r->Some_0@ == old(self)@.last()
                && final(self)@ == old(self)@.drop_last(),
    {
        let r = self.messages.pop();
        if r.is_some() {
            assert(self@ =~= old(self)@.drop_last());
        }
        r
    }
}

} // verus!
