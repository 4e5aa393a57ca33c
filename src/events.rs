//! Rows of the indexer's event table.
use vstd::prelude::*;

verus! {

/// A stored event.
#[derive(Debug, Clone, PartialEq, Eq)]
pub struct Event {
    pub id: i32,
    pub component_address: String,
    pub tx_hash: String,
    pub topic: String,
    pub payload: String,
    pub version: i32,
}

/// An event to insert.
#[derive(Debug, Clone, PartialEq, Eq)]
pub struct NewEvent {
    pub component_address: String,
    pub tx_hash: String,
    pub topic: String,
    pub payload: String,
    pub version: i32,
}

/// An event as read by a query.
#[derive(Debug, Clone, PartialEq, Eq)]
pub struct EventData {
    pub component_address: String,
    pub tx_hash: String,
    pub topic: String,
    pub payload: String,
    pub version: i32,
}

} // verus!
