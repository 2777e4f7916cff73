use vstd::prelude::*;

verus! {

/// A decoded `(topic, payload)` unit extracted from the wire protocol.
///
/// An `Event` is only ever constructed after both the topic line and the
/// full payload have been read successfully; partial events never exist.
pub struct Event {
    pub(crate) topic: String,
    pub(crate) payload: Vec<u8>,
}

/// The mathematical content of an [`Event`]: the topic as a character
/// sequence and the payload as a byte sequence.
pub ghost struct EventModel {
    pub topic: Seq<char>,
    pub payload: Seq<u8>,
}

impl View for Event {
    type V = EventModel;

    closed spec fn view(&self) -> EventModel {
        EventModel { topic: self.topic@, payload: self.payload@ }
    }
}

impl Event {
    /// Assembles an event once both parts have been read in full.
    pub(crate) fn assemble(topic: String, payload: Vec<u8>) -> (r: Event)
        ensures
            r@.topic == topic@,
            r@.payload == payload@,
    {
        Event { topic, payload }
    }

    /// The topic line of the event, UTF-8 text with trailing CR/LF stripped.
    pub fn topic(&self) -> (r: &String)
        ensures
            r@ == self@.topic,
    {
        &self.topic
    }

    /// The opaque payload bytes of the event.
    pub fn payload(&self) -> (r: &Vec<u8>)
        ensures
            r@ == self@.payload,
    {
        &self.payload
    }
}

/// A server configured to listen on one address.
///
/// The accept loop itself performs network I/O and therefore lives with the
/// caller; this type only carries the configuration.
pub struct Server {
    pub address: String,
}

impl Server {
    /// Makes a server that will listen on the given `host:port` address.
    pub fn new(address: &str) -> (r: Server)
        ensures
            r.address@ == address@,
    {
        Server { address: address.to_owned() }
    }
}

} // verus!
