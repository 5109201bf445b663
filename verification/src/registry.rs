//! Dispatch registries: mappings from channel identifier to handler,
//! consulted exactly once per inbound unit of work.
//!
//! The application registers its handlers before the connection is opened
//! and the registries stay immutable for the lifetime of the session.  An
//! entry keeps a human-readable name (diagnostics only) and an opaque token
//! by which the driver finds the application's callback.  A lookup miss is
//! local and non-fatal: the inbound unit is dropped and the session goes on.

use std::collections::HashMap;

use vstd::prelude::*;

use crate::envelope::envelope_bytes;
use crate::envelope::parse_envelope;

verus! {

broadcast use vstd::std_specs::hash::group_hash_axioms;

/// One registered handler: its diagnostic name and the token by which the
/// driver finds the application's callback.
#[derive(Debug, Clone, PartialEq, Eq)]
pub struct HandlerEntry {
    pub name: String,
    pub token: u64,
}

/// A mapping from 32-bit channel identifier to registered handler.
#[derive(Debug)]
pub struct HandlerRegistry {
    entries: HashMap<u32, HandlerEntry>,
}

impl View for HandlerRegistry {
    type V = Map<u32, HandlerEntry>;

    closed spec fn view(&self) -> Map<u32, HandlerEntry> {
        self.entries@
    }
}

/// Where the registry sends one inbound datagram.
#[derive(Debug, PartialEq, Eq)]
pub enum RouteOutcome {
    /// The leading identifier is registered: hand the payload to the handler
    /// with this token.
    Deliver { token: u64, payload: Vec<u8> },
    /// The leading identifier is not registered: drop the unit, log, go on.
    UnknownChannel { id: u32 },
    /// Too short to carry an identifier: drop the unit, log, go on.
    Malformed,
}

/// Where a datagram's bytes go, given a registry's mapping: `None` when the
/// unit is dropped (malformed or unregistered), otherwise the registered
/// token and the payload behind the envelope.
pub open spec fn spec_route(m: Map<u32, HandlerEntry>, data: Seq<u8>) -> Option<(u64, Seq<u8>)> {
    match parse_envelope(data) {
        None => None,
        Some(p) => if m.contains_key(p.0) {
            Some((m[p.0].token, p.1))
        } else {
            None
        },
    }
}

impl HandlerRegistry {
    /// An empty registry.
    pub fn new() -> (r: Self)
        ensures
            r@ == Map::<u32, HandlerEntry>::empty(),
    {
        HandlerRegistry { entries: HashMap::new() }
    }

    /// Registers a handler under a channel identifier, before the connection
    /// starts.  Identifiers are unique within one registry: a second
    /// registration under the same identifier is refused and changes
    /// nothing.
    pub fn register(&mut self, id: u32, name: String, token: u64) -> (r: bool)
        ensures
            old(self)@.contains_key(id) ==> (!r && final(self)@ == old(self)@),
            !old(self)@.contains_key(id) ==> (r && final(self)@ == old(self)@.insert(
                id,
                HandlerEntry { name, token },
            )),
    {
        if self.entries.contains_key(&id) {
            return false;
        }
        self.entries.insert(id, HandlerEntry { name, token });
        true
    }

    /// How many handlers are registered.
    pub fn len(&self) -> (r: usize)
        ensures
            r == self@.dom().len(),
    {
        self.entries.len()
    }

    /// The handler registered under an identifier, if any.
    pub fn lookup(&self, id: u32) -> (r: Option<&HandlerEntry>)
        ensures
            self@.contains_key(id) ==> (r matches Some(e) && *e == self@[id]),
            !self@.contains_key(id) ==> r is None,
    {
        self.entries.get(&id)
    }

    /// Routes one inbound datagram: splits off the leading identifier and
    /// looks its handler up.  A short datagram or an unregistered identifier
    /// drops the unit without touching any handler.
    pub fn route_datagram(&self, data: &[u8]) -> (r: RouteOutcome)
        ensures
            parse_envelope(data@) is None ==> r is Malformed,
            parse_envelope(data@) matches Some(p) ==> ((!self@.contains_key(p.0) ==> (
            r matches RouteOutcome::UnknownChannel { id } && id == p.0)) && (self@.contains_key(
                p.0,
            ) ==> (r matches RouteOutcome::Deliver { token, payload } && token == self@[p.0].token
                && payload@ == p.1))),
    {
        match crate::envelope::decode_envelope(data) {
            None => RouteOutcome::Malformed,
            Some((id, payload)) => match self.lookup(id) {
                None => RouteOutcome::UnknownChannel { id },
                Some(entry) => RouteOutcome::Deliver { token: entry.token, payload },
            },
        }
    }
}

/// Dispatch routes an inbound unit by its leading identifier alone: an
/// envelope built for a registered channel is delivered to the token
/// registered for that channel with the payload intact, and never to a
/// handler that holds a different token.
pub proof fn lemma_dispatch_routes_by_leading_id(
    m: Map<u32, HandlerEntry>,
    id: u32,
    payload: Seq<u8>,
)
    requires
        m.contains_key(id),
    ensures
        spec_route(m, envelope_bytes(id, payload)) == Some((m[id].token, payload)),
        forall|other: u32|
            m.contains_key(other) && m[other].token != m[id].token ==> spec_route(
                m,
                envelope_bytes(id, payload),
            ) != Some((m[other].token, payload)),
{
    crate::envelope::lemma_envelope_round_trip(id, payload);
}

/// The three registries of one connection, one per kind of inbound unit.
#[derive(Debug)]
pub struct Registries {
    pub bi: HandlerRegistry,
    pub uni: HandlerRegistry,
    pub datagram: HandlerRegistry,
}

impl Registries {
    /// Three empty registries.
    pub fn new() -> (r: Self)
        ensures
            r.bi@ == Map::<u32, HandlerEntry>::empty(),
            r.uni@ == Map::<u32, HandlerEntry>::empty(),
            r.datagram@ == Map::<u32, HandlerEntry>::empty(),
    {
        Registries {
            bi: HandlerRegistry::new(),
            uni: HandlerRegistry::new(),
            datagram: HandlerRegistry::new(),
        }
    }
}

} // verus!
