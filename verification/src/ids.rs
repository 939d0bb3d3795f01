//! Identifier types used throughout the GATT server core.

use vstd::prelude::*;

verus! {

/// Opaque identity of one logical GATT server; chosen by the caller.
#[derive(Clone, Copy, Debug, PartialEq, Eq, Structural)]
pub struct ServerId(pub u8);

/// Identifies one LE link, and so one ATT bearer; unique while the link is up.
#[derive(Clone, Copy, Debug, PartialEq, Eq, Structural)]
pub struct TransportIndex(pub u8);

/// Names a (server, link) pair; handed to datastore callbacks so a datastore
/// can keep per-connection state.
///
/// The transport index lives in the high byte and the server id in the low
/// byte.
#[derive(Clone, Copy, Debug, PartialEq, Eq, Structural)]
pub struct ConnectionId(pub u16);

/// A 16-bit ATT attribute handle. The value 0 is reserved and never names a
/// live attribute; handles are totally ordered.
#[derive(Clone, Copy, Debug, PartialEq, Eq, Structural)]
pub struct AttHandle(pub u16);

/// Opaque identity of an application datastore. The core never calls a
/// datastore itself: it names the datastore in a delegation request and the
/// surrounding executor performs the call.
#[derive(Clone, Copy, Debug, PartialEq, Eq, Structural)]
pub struct DatastoreId(pub u64);

impl ConnectionId {
    /// The connection id packing `tcb_idx` in the high byte and `server_id`
    /// in the low byte.
    pub open spec fn spec_new(tcb_idx: TransportIndex, server_id: ServerId) -> ConnectionId {
        ConnectionId((tcb_idx.0 * 256 + server_id.0) as u16)
    }

    /// The transport index stored in the high byte.
    pub open spec fn spec_tcb_idx(self) -> TransportIndex {
        TransportIndex((self.0 / 256) as u8)
    }

    /// The server id stored in the low byte.
    pub open spec fn spec_server_id(self) -> ServerId {
        ServerId((self.0 % 256) as u8)
    }

    /// Packs a transport index and a server id into one connection id.
    pub fn new(tcb_idx: TransportIndex, server_id: ServerId) -> (r: ConnectionId)
        ensures
            r == ConnectionId::spec_new(tcb_idx, server_id),
    {
        ConnectionId(tcb_idx.0 as u16 * 256 + server_id.0 as u16)
    }

    /// The transport index of this connection.
    pub fn get_tcb_idx(self) -> (r: TransportIndex)
        ensures
            r == self.spec_tcb_idx(),
    {
        TransportIndex((self.0 / 256) as u8)
    }

    /// The server id of this connection.
    pub fn get_server_id(self) -> (r: ServerId)
        ensures
            r == self.spec_server_id(),
    {
        ServerId((self.0 % 256) as u8)
    }
}

/// Packing a transport index and a server id and taking them apart again
/// returns the values that went in.
pub proof fn lemma_connection_id_round_trip(tcb_idx: TransportIndex, server_id: ServerId)
    ensures
        ConnectionId::spec_new(tcb_idx, server_id).spec_tcb_idx() == tcb_idx,
        ConnectionId::spec_new(tcb_idx, server_id).spec_server_id() == server_id,
{
    let packed = tcb_idx.0 * 256 + server_id.0;
    assert(packed / 256 == tcb_idx.0) by (nonlinear_arith)
        requires
            packed == tcb_idx.0 * 256 + server_id.0,
            server_id.0 < 256,
    ;
    assert(packed % 256 == server_id.0) by (nonlinear_arith)
        requires
            packed == tcb_idx.0 * 256 + server_id.0,
            server_id.0 < 256,
    ;
}

} // verus!
