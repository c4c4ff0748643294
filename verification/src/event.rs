//! Events: immutable payloads ordered by their position in a channel's log.

use vstd::prelude::*;

verus! {

/// One immutable event payload. Identity is positional (the index in the
/// channel's log), never content-based, so two events may carry equal data.
pub struct Event {
    pub data: String,
}

impl View for Event {
    type V = Seq<char>;

    open spec fn view(&self) -> Seq<char> {
        self.data@
    }
}

impl Clone for Event {
    fn clone(&self) -> (r: Event)
        ensures
            r == *self,
    {
        Event { data: self.data.clone() }
    }
}

impl Event {
    pub fn new(data: String) -> (r: Event)
        ensures
            r@ == data@,
    {
        Event { data }
    }

    /// The payload carried by this event.
    pub fn payload(&self) -> (r: &String)
        ensures
            r@ == self@,
    {
        &self.data
    }
}

/// The payloads of a sequence of events, in order.
pub open spec fn batch_view(s: Seq<Event>) -> Seq<Seq<char>> {
    s.map_values(|e: Event| e@)
}

} // verus!
