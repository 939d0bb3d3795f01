//! The GATT module: owns every open server's schema and every live ATT
//! bearer, reacts to LE link events, and serves ATT requests for a link
//! against the schema its bearer was derived from.
//!
//! A bearer's view stays usable after its server closes: every operation
//! through it then resolves to the invalid-handle error (or an empty
//! listing), exactly as a peer racing a shutdown should observe. Reopening a
//! server under the same id does not revive views derived from the old
//! schema.

use vstd::prelude::*;

use crate::att_database::AttAttribute;
use crate::att_database::AttErrorCode;
use crate::gatt_database::AttAttributeWithBackingValue;
use crate::gatt_database::AttDatabaseImpl;
use crate::gatt_database::AttReadResolution;
use crate::gatt_database::DatastoreWriteRequest;
use crate::gatt_database::GattDatabase;
use crate::gatt_database::GattDatabaseError;
use crate::gatt_database::GattServiceWithHandle;
use crate::gatt_database::spec_attributes_of;
use crate::gatt_database::spec_can_add;
use crate::gatt_database::spec_insert_all;
use crate::gatt_database::spec_lookup;
use crate::gatt_database::spec_remove_service;
use crate::gatt_database::spec_service_records;
use crate::ids::AttHandle;
use crate::ids::ConnectionId;
use crate::ids::DatastoreId;
use crate::ids::ServerId;
use crate::ids::TransportIndex;
use crate::services::register_builtin_services;
use crate::services::spec_builtin_records;
use crate::shared_box::SharedBox;

verus! {

/// What the module knows of one stored connection: the identity its bearer
/// was created with, and whether the schema it reads from is still the live
/// one.
#[derive(Clone, Copy, Debug, PartialEq, Eq, Structural)]
pub struct ConnectionState {
    /// The (server, link) pair the bearer serves.
    pub conn_id: ConnectionId,
    /// False once the server the bearer was derived from was closed or
    /// replaced; a dead connection resolves every operation to
    /// invalid-handle.
    pub live: bool,
}

/// Why a module operation was refused. These are configuration errors owed
/// to the caller; ATT-visible errors travel as [`AttErrorCode`] instead.
#[derive(Clone, Copy, Debug, PartialEq, Eq, Structural)]
pub enum GattModuleError {
    /// The named server is not open.
    ServerNotOpen,
    /// The server id was already open; its schema was replaced.
    ServerAlreadyOpen,
    /// The transport index already carries a bearer.
    TransportAlreadyConnected,
    /// The transport index carries no bearer.
    TransportNotConnected,
    /// A handle of the service being added is taken.
    DuplicateHandle,
}

/// One open server: its caller-chosen id and the box its schema lives in.
struct GattServerEntry {
    server_id: ServerId,
    db: SharedBox<GattDatabase>,
}

/// One live bearer: the link it serves, the per-connection view it reads
/// from, and whether that view's schema is still the live one.
#[derive(Clone, Copy)]
struct GattConnection {
    tcb_idx: TransportIndex,
    bearer: AttDatabaseImpl,
    live: bool,
}

/// Owns the set of open servers and the set of live per-link bearers.
pub struct GattModule {
    connections: Vec<GattConnection>,
    databases: Vec<GattServerEntry>,
}

impl GattModule {
    /// True when a server is open under `server_id`.
    pub closed spec fn spec_has_server(self, server_id: ServerId) -> bool {
        exists|i: int|
            0 <= i < self.databases@.len() && (#[trigger] self.databases@[i]).server_id
                == server_id
    }

    /// The attribute records of the server open under `server_id`.
    pub closed spec fn spec_server_records(self, server_id: ServerId) -> Seq<
        AttAttributeWithBackingValue,
    > {
        let i = choose|i: int|
            0 <= i < self.databases@.len() && (#[trigger] self.databases@[i]).server_id
                == server_id;
        self.databases@[i].db.value.records()
    }

    /// True when a bearer is stored under `tcb_idx`.
    pub closed spec fn spec_has_connection(self, tcb_idx: TransportIndex) -> bool {
        exists|k: int|
            0 <= k < self.connections@.len() && (#[trigger] self.connections@[k]).tcb_idx
                == tcb_idx
    }

    /// The identity and liveness of the bearer stored under `tcb_idx`.
    pub closed spec fn spec_connection(self, tcb_idx: TransportIndex) -> ConnectionState {
        let k = choose|k: int|
            0 <= k < self.connections@.len() && (#[trigger] self.connections@[k]).tcb_idx
                == tcb_idx;
        ConnectionState {
            conn_id: self.connections@[k].bearer.conn_id,
            live: self.connections@[k].live,
        }
    }

    /// The module's invariant: server ids and transport indices are unique,
    /// and every schema is well formed.
    pub closed spec fn wf(self) -> bool {
        &&& forall|a: int, b: int|
            0 <= a < b < self.databases@.len() ==> (#[trigger] self.databases@[a]).server_id != (
            #[trigger] self.databases@[b]).server_id
        &&& forall|i: int|
            0 <= i < self.databases@.len() ==> (#[trigger] self.databases@[i]).db.value.wf()
        &&& forall|a: int, b: int|
            0 <= a < b < self.connections@.len() ==> (#[trigger] self.connections@[a]).tcb_idx
                != (#[trigger] self.connections@[b]).tcb_idx
    }

    /// Where the module itself would stop a read on `tcb_idx`: with
    /// invalid-handle when the link carries no bearer, the bearer's schema is
    /// gone, or the handle names no attribute; with read-not-permitted when
    /// the attribute is not readable. `None` means the read resolves.
    pub open spec fn spec_read_denied(self, tcb_idx: TransportIndex, handle: AttHandle) -> Option<
        AttErrorCode,
    > {
        if !self.spec_has_connection(tcb_idx) {
            Some(AttErrorCode::InvalidHandle)
        } else if !self.spec_connection(tcb_idx).live {
            Some(AttErrorCode::InvalidHandle)
        } else if !self.spec_has_server(self.spec_connection(tcb_idx).conn_id.spec_server_id()) {
            Some(AttErrorCode::InvalidHandle)
        } else {
            match spec_lookup(
                self.spec_server_records(self.spec_connection(tcb_idx).conn_id.spec_server_id()),
                handle,
            ) {
                Option::None => Some(AttErrorCode::InvalidHandle),
                Option::Some(rec) => if !rec.attribute.permissions.spec_readable() {
                    Some(AttErrorCode::ReadNotPermitted)
                } else {
                    None
                },
            }
        }
    }

    /// Where the module itself would stop a write on `tcb_idx`; the same
    /// shape as [`Self::spec_read_denied`], with write-not-permitted both for
    /// an unwritable attribute and for a (nominally writable) static one.
    pub open spec fn spec_write_denied(self, tcb_idx: TransportIndex, handle: AttHandle) -> Option<
        AttErrorCode,
    > {
        if !self.spec_has_connection(tcb_idx) {
            Some(AttErrorCode::InvalidHandle)
        } else if !self.spec_connection(tcb_idx).live {
            Some(AttErrorCode::InvalidHandle)
        } else if !self.spec_has_server(self.spec_connection(tcb_idx).conn_id.spec_server_id()) {
            Some(AttErrorCode::InvalidHandle)
        } else {
            match spec_lookup(
                self.spec_server_records(self.spec_connection(tcb_idx).conn_id.spec_server_id()),
                handle,
            ) {
                Option::None => Some(AttErrorCode::InvalidHandle),
                Option::Some(rec) => if !rec.attribute.permissions.spec_writable() {
                    Some(AttErrorCode::WriteNotPermitted)
                } else if rec.value is Static {
                    Some(AttErrorCode::WriteNotPermitted)
                } else {
                    None
                },
            }
        }
    }

    /// Builds a module with no open servers and no connections.
    pub fn new() -> (r: GattModule)
        ensures
            r.wf(),
            forall|sid: ServerId| !r.spec_has_server(sid),
            forall|t: TransportIndex| !r.spec_has_connection(t),
    {
        GattModule { connections: Vec::new(), databases: Vec::new() }
    }

    /// Opens a GATT server under `server_id`, installing the built-in
    /// services into its fresh schema.
    ///
    /// If the id was already open, the old schema is replaced, bearers
    /// derived from it are left permanently dead, and the caller is told so
    /// by the error; the fresh schema is installed either way.
    pub fn open_gatt_server(&mut self, server_id: ServerId) -> (r: Result<(), GattModuleError>)
        requires
            old(self).wf(),
        ensures
            final(self).wf(),
            r == (if old(self).spec_has_server(server_id) {
                Err::<(), GattModuleError>(GattModuleError::ServerAlreadyOpen)
            } else {
                Ok::<(), GattModuleError>(())
            }),
            final(self).spec_has_server(server_id),
            final(self).spec_server_records(server_id) == spec_builtin_records(),
            forall|sid: ServerId|
                sid != server_id ==> final(self).spec_has_server(sid) == old(self).spec_has_server(sid),
            forall|sid: ServerId|
                sid != server_id && old(self).spec_has_server(sid) ==> final(self).spec_server_records(sid) == old(self).spec_server_records(sid),
            forall|t: TransportIndex|
                final(self).spec_has_connection(t) == old(self).spec_has_connection(t),
            forall|t: TransportIndex|
                old(self).spec_has_connection(t) ==> final(self).spec_connection(t) == (if old(self).spec_connection(t).conn_id.spec_server_id() == server_id {
                    (ConnectionState {
                        conn_id: old(self).spec_connection(t).conn_id,
                        live: false,
                    })
                } else {
                    old(self).spec_connection(t)
                }),
    {
        let mut db = GattDatabase::new();
        register_builtin_services(&mut db);
        let boxed = SharedBox::new(db);
        self.kill_connections_of(server_id);
        let ghost m_mid = *self;
        proof {
            lemma_connections_killed(*old(self), m_mid, server_id);
        }
        let found = self.find_server_index(server_id);
        let ghost dbs0 = self.databases@;
        match found {
            Some(i) => {
                let _replaced = self.databases.remove(i);
                self.databases.insert(i, GattServerEntry { server_id, db: boxed });
                proof {
                    assert(self.databases@ =~= dbs0.update(
                        i as int,
                        self.databases@[i as int],
                    ));
                    lemma_servers_updated(
                        m_mid,
                        *self,
                        server_id,
                        spec_builtin_records(),
                        i as int,
                    );
                    lemma_connections_unchanged(m_mid, *self);
                }
                Err(GattModuleError::ServerAlreadyOpen)
            },
            None => {
                self.databases.push(GattServerEntry { server_id, db: boxed });
                proof {
                    assert(self.databases@ =~= dbs0.push(
                        self.databases@[dbs0.len() as int],
                    ));
                    assert(!m_mid.spec_has_server(server_id)) by {
                        if m_mid.spec_has_server(server_id) {
                            let j = choose|j: int|
                                0 <= j < m_mid.databases@.len() && (
                                #[trigger] m_mid.databases@[j]).server_id == server_id;
                        }
                    }
                    lemma_servers_updated(
                        m_mid,
                        *self,
                        server_id,
                        spec_builtin_records(),
                        dbs0.len() as int,
                    );
                    lemma_connections_unchanged(m_mid, *self);
                }
                Ok(())
            },
        }
    }

    /// Closes the server open under `server_id`. Bearers derived from its
    /// schema stay stored but dead: every operation through them resolves to
    /// invalid-handle until their link goes down.
    pub fn close_gatt_server(&mut self, server_id: ServerId) -> (r: Result<(), GattModuleError>)
        requires
            old(self).wf(),
        ensures
            final(self).wf(),
            r == (if old(self).spec_has_server(server_id) {
                Ok::<(), GattModuleError>(())
            } else {
                Err::<(), GattModuleError>(GattModuleError::ServerNotOpen)
            }),
            !final(self).spec_has_server(server_id),
            forall|sid: ServerId|
                sid != server_id ==> final(self).spec_has_server(sid) == old(self).spec_has_server(sid),
            forall|sid: ServerId|
                sid != server_id && old(self).spec_has_server(sid) ==> final(self).spec_server_records(sid) == old(self).spec_server_records(sid),
            forall|t: TransportIndex|
                final(self).spec_has_connection(t) == old(self).spec_has_connection(t),
            r is Ok ==> forall|t: TransportIndex|
                old(self).spec_has_connection(t) ==> final(self).spec_connection(t) == (if old(self).spec_connection(t).conn_id.spec_server_id() == server_id {
                    (ConnectionState {
                        conn_id: old(self).spec_connection(t).conn_id,
                        live: false,
                    })
                } else {
                    old(self).spec_connection(t)
                }),
            r is Err ==> forall|t: TransportIndex|
                old(self).spec_has_connection(t) ==> final(self).spec_connection(t) == old(self).spec_connection(t),
    {
        let found = self.find_server_index(server_id);
        let ghost dbs0 = self.databases@;
        match found {
            Some(i) => {
                let _closed = self.databases.remove(i);
                self.kill_connections_of(server_id);
                proof {
                    let m0 = *old(self);
                    let m1 = *self;
                    lemma_servers_removed(m0, m1, server_id, i as int);
                    lemma_connections_killed(m0, m1, server_id);
                }
                Ok(())
            },
            None => {
                proof {
                    let m0 = *old(self);
                    lemma_connections_unchanged(m0, *self);
                }
                Err(GattModuleError::ServerNotOpen)
            },
        }
    }

    /// Handles an LE link coming up: stores a bearer for the link, bound to
    /// a per-connection view of the schema named by `conn_id`'s server part.
    ///
    /// Refused when that server is not open, or when the transport index
    /// already carries a bearer; either refusal leaves the module unchanged.
    pub fn on_le_connect(&mut self, conn_id: ConnectionId) -> (r: Result<(), GattModuleError>)
        requires
            old(self).wf(),
        ensures
            final(self).wf(),
            r == (if !old(self).spec_has_server(conn_id.spec_server_id()) {
                Err::<(), GattModuleError>(GattModuleError::ServerNotOpen)
            } else if old(self).spec_has_connection(conn_id.spec_tcb_idx()) {
                Err::<(), GattModuleError>(GattModuleError::TransportAlreadyConnected)
            } else {
                Ok::<(), GattModuleError>(())
            }),
            forall|sid: ServerId|
                final(self).spec_has_server(sid) == old(self).spec_has_server(sid),
            forall|sid: ServerId|
                old(self).spec_has_server(sid) ==> final(self).spec_server_records(sid) == old(self).spec_server_records(sid),
            r is Err ==> forall|t: TransportIndex|
                final(self).spec_has_connection(t) == old(self).spec_has_connection(t),
            r is Err ==> forall|t: TransportIndex|
                old(self).spec_has_connection(t) ==> final(self).spec_connection(t) == old(self).spec_connection(t),
            r is Ok ==> forall|t: TransportIndex|
                final(self).spec_has_connection(t) == (old(self).spec_has_connection(t) || t
                    == conn_id.spec_tcb_idx()),
            r is Ok ==> final(self).spec_connection(conn_id.spec_tcb_idx()) == (ConnectionState {
                conn_id,
                live: true,
            }),
            r is Ok ==> forall|t: TransportIndex|
                t != conn_id.spec_tcb_idx() && old(self).spec_has_connection(t) ==> final(self).spec_connection(t) == old(self).spec_connection(t),
    {
        let server_id = conn_id.get_server_id();
        let tcb_idx = conn_id.get_tcb_idx();
        let found = self.find_server_index(server_id);
        let Some(i) = found else {
            proof {
                lemma_connections_unchanged(*old(self), *self);
            }
            return Err(GattModuleError::ServerNotOpen);
        };
        if self.find_connection_index(tcb_idx).is_some() {
            proof {
                lemma_connections_unchanged(*old(self), *self);
            }
            return Err(GattModuleError::TransportAlreadyConnected);
        }
        let bearer = self.databases[i].db.get_att_database(conn_id);
        let ghost conns0 = self.connections@;
        self.connections.push(GattConnection { tcb_idx, bearer, live: true });
        proof {
            let m0 = *old(self);
            let m1 = *self;
            assert(m1.connections@ =~= conns0.push(m1.connections@[conns0.len() as int]));
            lemma_connection_pushed(m0, m1, tcb_idx);
            lemma_servers_unchanged(m0, m1);
            assert(m1.spec_connection(conn_id.spec_tcb_idx()) == (ConnectionState {
                conn_id,
                live: true,
            }));
        }
        Ok(())
    }

    /// Handles an LE link going down: removes and drops the link's bearer.
    /// Refused, with the module unchanged, when no bearer is stored for the
    /// link.
    pub fn on_le_disconnect(&mut self, tcb_idx: TransportIndex) -> (r: Result<
        (),
        GattModuleError,
    >)
        requires
            old(self).wf(),
        ensures
            final(self).wf(),
            r == (if old(self).spec_has_connection(tcb_idx) {
                Ok::<(), GattModuleError>(())
            } else {
                Err::<(), GattModuleError>(GattModuleError::TransportNotConnected)
            }),
            forall|sid: ServerId|
                final(self).spec_has_server(sid) == old(self).spec_has_server(sid),
            forall|sid: ServerId|
                old(self).spec_has_server(sid) ==> final(self).spec_server_records(sid) == old(self).spec_server_records(sid),
            forall|t: TransportIndex|
                final(self).spec_has_connection(t) == (old(self).spec_has_connection(t) && t
                    != tcb_idx),
            forall|t: TransportIndex|
                t != tcb_idx && old(self).spec_has_connection(t) ==> final(self).spec_connection(t) == old(self).spec_connection(t),
    {
        let found = self.find_connection_index(tcb_idx);
        let Some(k) = found else {
            proof {
                lemma_connections_unchanged(*old(self), *self);
            }
            return Err(GattModuleError::TransportNotConnected);
        };
        let ghost conns0 = self.connections@;
        let _dropped = self.connections.remove(k);
        proof {
            let m0 = *old(self);
            let m1 = *self;
            lemma_connection_removed(m0, m1, tcb_idx, k as int);
            lemma_servers_unchanged(m0, m1);
        }
        Ok(())
    }

    /// Registers a service on the server open under `server_id`; forwards to
    /// the schema's atomic add.
    pub fn register_gatt_service(
        &mut self,
        server_id: ServerId,
        service: GattServiceWithHandle,
        datastore: DatastoreId,
    ) -> (r: Result<(), GattModuleError>)
        requires
            old(self).wf(),
            forall|i: int|
                0 <= i < service.characteristics@.len()
                    ==> (#[trigger] service.characteristics@[i]).handle.0 >= 1,
        ensures
            final(self).wf(),
            r == (if !old(self).spec_has_server(server_id) {
                Err::<(), GattModuleError>(GattModuleError::ServerNotOpen)
            } else if spec_can_add(
                old(self).spec_server_records(server_id),
                spec_service_records(service, datastore),
            ) {
                Ok::<(), GattModuleError>(())
            } else {
                Err::<(), GattModuleError>(GattModuleError::DuplicateHandle)
            }),
            forall|sid: ServerId|
                final(self).spec_has_server(sid) == old(self).spec_has_server(sid),
            r is Ok ==> final(self).spec_server_records(server_id) == spec_insert_all(
                old(self).spec_server_records(server_id),
                spec_service_records(service, datastore),
            ),
            old(self).spec_has_server(server_id) && r is Err ==> final(self).spec_server_records(server_id) == old(self).spec_server_records(server_id),
            forall|sid: ServerId|
                sid != server_id && old(self).spec_has_server(sid) ==> final(self).spec_server_records(sid) == old(self).spec_server_records(sid),
            forall|t: TransportIndex|
                final(self).spec_has_connection(t) == old(self).spec_has_connection(t),
            forall|t: TransportIndex|
                old(self).spec_has_connection(t) ==> final(self).spec_connection(t) == old(self).spec_connection(t),
    {
        let found = self.find_server_index(server_id);
        let Some(i) = found else {
            proof {
                lemma_connections_unchanged(*old(self), *self);
            }
            return Err(GattModuleError::ServerNotOpen);
        };
        let ghost dbs0 = self.databases@;
        let mut entry = self.databases.remove(i);
        let res = entry.db.value.add_service_with_handles(service, datastore);
        self.databases.insert(i, entry);
        proof {
            assert(self.databases@ =~= dbs0.update(i as int, self.databases@[i as int]));
            let m0 = *old(self);
            let m1 = *self;
            lemma_server_at(m0, i as int);
            lemma_servers_updated(
                m0,
                m1,
                server_id,
                m1.databases@[i as int].db.value.records(),
                i as int,
            );
            lemma_connections_unchanged(m0, m1);
        }
        match res {
            Ok(()) => Ok(()),
            Err(GattDatabaseError::DuplicateHandle) => Err(GattModuleError::DuplicateHandle),
        }
    }

    /// Unregisters the service starting at `service_handle` on the server
    /// open under `server_id`; forwards to the schema's remove, which never
    /// errors.
    pub fn unregister_gatt_service(
        &mut self,
        server_id: ServerId,
        service_handle: AttHandle,
    ) -> (r: Result<(), GattModuleError>)
        requires
            old(self).wf(),
        ensures
            final(self).wf(),
            r == (if old(self).spec_has_server(server_id) {
                Ok::<(), GattModuleError>(())
            } else {
                Err::<(), GattModuleError>(GattModuleError::ServerNotOpen)
            }),
            forall|sid: ServerId|
                final(self).spec_has_server(sid) == old(self).spec_has_server(sid),
            r is Ok ==> final(self).spec_server_records(server_id) == spec_remove_service(
                old(self).spec_server_records(server_id),
                service_handle,
            ),
            forall|sid: ServerId|
                sid != server_id && old(self).spec_has_server(sid) ==> final(self).spec_server_records(sid) == old(self).spec_server_records(sid),
            forall|t: TransportIndex|
                final(self).spec_has_connection(t) == old(self).spec_has_connection(t),
            forall|t: TransportIndex|
                old(self).spec_has_connection(t) ==> final(self).spec_connection(t) == old(self).spec_connection(t),
    {
        let found = self.find_server_index(server_id);
        let Some(i) = found else {
            proof {
                lemma_connections_unchanged(*old(self), *self);
            }
            return Err(GattModuleError::ServerNotOpen);
        };
        let ghost dbs0 = self.databases@;
        let mut entry = self.databases.remove(i);
        let res = entry.db.value.remove_service_at_handle(service_handle);
        self.databases.insert(i, entry);
        proof {
            assert(self.databases@ =~= dbs0.update(i as int, self.databases@[i as int]));
            let m0 = *old(self);
            let m1 = *self;
            lemma_server_at(m0, i as int);
            lemma_servers_updated(
                m0,
                m1,
                server_id,
                m1.databases@[i as int].db.value.records(),
                i as int,
            );
            lemma_connections_unchanged(m0, m1);
        }
        let _ = res;
        Ok(())
    }

    /// Returns the per-connection view bound to `tcb_idx`'s bearer, for
    /// upper layers that address a specific link. Non-owning: dropping the
    /// result changes nothing.
    pub fn get_bearer(&self, tcb_idx: TransportIndex) -> (r: Option<AttDatabaseImpl>)
        requires
            self.wf(),
        ensures
            match r {
                Some(b) => self.spec_has_connection(tcb_idx) && b.conn_id == self.spec_connection(
                    tcb_idx,
                ).conn_id,
                None => !self.spec_has_connection(tcb_idx),
            },
    {
        let found = self.find_connection_index(tcb_idx);
        match found {
            Some(k) => {
                let conn = self.connections[k];
                proof {
                    lemma_connection_at(*self, k as int);
                }
                Some(conn.bearer)
            },
            None => None,
        }
    }

    /// Serves an ATT read arriving on `tcb_idx`: resolves the handle against
    /// the schema the link's bearer was derived from.
    ///
    /// A link without a bearer, a bearer whose schema is gone, or a handle
    /// that names no attribute all read as invalid-handle; an unreadable
    /// attribute as read-not-permitted. Otherwise a declaration resolves to
    /// its encoded value and a dynamic attribute to a delegation request.
    pub fn read_attribute(&self, tcb_idx: TransportIndex, handle: AttHandle) -> (r: Result<
        AttReadResolution,
        AttErrorCode,
    >)
        requires
            self.wf(),
        ensures
            self.spec_read_denied(tcb_idx, handle) matches Some(code) ==> r == Err::<
                AttReadResolution,
                AttErrorCode,
            >(code),
            self.spec_read_denied(tcb_idx, handle) is None ==> ({
                let conn = self.spec_connection(tcb_idx);
                let rec = spec_lookup(
                    self.spec_server_records(conn.conn_id.spec_server_id()),
                    handle,
                )->Some_0;
                match rec.value {
                    crate::gatt_database::AttAttributeBackingValue::Static(decl) => r matches Ok(
                        AttReadResolution::Value(bytes),
                    ) && bytes@ == decl.spec_bytes(),
                    crate::gatt_database::AttAttributeBackingValue::DynamicCharacteristic(
                        d,
                    ) => r == Ok::<AttReadResolution, AttErrorCode>(
                        AttReadResolution::Delegate(
                            (crate::gatt_database::DatastoreReadRequest {
                                datastore: d,
                                conn_id: conn.conn_id,
                                handle,
                                backing: crate::att_database::AttributeBackingType::Characteristic,
                            }),
                        ),
                    ),
                    crate::gatt_database::AttAttributeBackingValue::DynamicDescriptor(
                        d,
                    ) => r == Ok::<AttReadResolution, AttErrorCode>(
                        AttReadResolution::Delegate(
                            (crate::gatt_database::DatastoreReadRequest {
                                datastore: d,
                                conn_id: conn.conn_id,
                                handle,
                                backing: crate::att_database::AttributeBackingType::Descriptor,
                            }),
                        ),
                    ),
                }
            }),
    {
        let found = self.find_connection_index(tcb_idx);
        let Some(k) = found else {
            return Err(AttErrorCode::InvalidHandle);
        };
        let conn = self.connections[k];
        proof {
            lemma_connection_at(*self, k as int);
        }
        if !conn.live {
            return Err(AttErrorCode::InvalidHandle);
        }
        let server_id = conn.bearer.conn_id.get_server_id();
        let Some(i) = self.find_server_index(server_id) else {
            return Err(AttErrorCode::InvalidHandle);
        };
        proof {
            lemma_server_at(*self, i as int);
        }
        conn.bearer.read_attribute(&self.databases[i].db, handle)
    }

    /// Serves an ATT write arriving on `tcb_idx`; the same resolution path
    /// as [`Self::read_attribute`], with write-not-permitted for unwritable
    /// or static attributes.
    pub fn write_attribute(
        &self,
        tcb_idx: TransportIndex,
        handle: AttHandle,
        data: Vec<u8>,
    ) -> (r: Result<DatastoreWriteRequest, AttErrorCode>)
        requires
            self.wf(),
        ensures
            self.spec_write_denied(tcb_idx, handle) matches Some(code) ==> r == Err::<
                DatastoreWriteRequest,
                AttErrorCode,
            >(code),
            self.spec_write_denied(tcb_idx, handle) is None ==> ({
                let conn = self.spec_connection(tcb_idx);
                let rec = spec_lookup(
                    self.spec_server_records(conn.conn_id.spec_server_id()),
                    handle,
                )->Some_0;
                match rec.value {
                    crate::gatt_database::AttAttributeBackingValue::Static(decl) => false,
                    crate::gatt_database::AttAttributeBackingValue::DynamicCharacteristic(
                        d,
                    ) => r matches Ok(req) && req.datastore == d && req.conn_id == conn.conn_id
                        && req.handle == handle && req.backing
                        == crate::att_database::AttributeBackingType::Characteristic && req.data@
                        == data@,
                    crate::gatt_database::AttAttributeBackingValue::DynamicDescriptor(
                        d,
                    ) => r matches Ok(req) && req.datastore == d && req.conn_id == conn.conn_id
                        && req.handle == handle && req.backing
                        == crate::att_database::AttributeBackingType::Descriptor && req.data@
                        == data@,
                }
            }),
    {
        let found = self.find_connection_index(tcb_idx);
        let Some(k) = found else {
            return Err(AttErrorCode::InvalidHandle);
        };
        let conn = self.connections[k];
        proof {
            lemma_connection_at(*self, k as int);
        }
        if !conn.live {
            return Err(AttErrorCode::InvalidHandle);
        }
        let server_id = conn.bearer.conn_id.get_server_id();
        let Some(i) = self.find_server_index(server_id) else {
            return Err(AttErrorCode::InvalidHandle);
        };
        proof {
            lemma_server_at(*self, i as int);
        }
        conn.bearer.write_attribute(&self.databases[i].db, handle, data)
    }

    /// Lists the attributes visible on `tcb_idx`: the full table of the
    /// bearer's schema, or nothing when the link has no bearer or its schema
    /// is gone.
    pub fn list_attributes(&self, tcb_idx: TransportIndex) -> (r: Vec<AttAttribute>)
        requires
            self.wf(),
        ensures
            (self.spec_has_connection(tcb_idx) && self.spec_connection(tcb_idx).live
                && self.spec_has_server(self.spec_connection(tcb_idx).conn_id.spec_server_id()))
                ==> r@ == spec_attributes_of(
                self.spec_server_records(self.spec_connection(tcb_idx).conn_id.spec_server_id()),
            ),
            !(self.spec_has_connection(tcb_idx) && self.spec_connection(tcb_idx).live
                && self.spec_has_server(self.spec_connection(tcb_idx).conn_id.spec_server_id()))
                ==> r@ == Seq::<AttAttribute>::empty(),
    {
        let found = self.find_connection_index(tcb_idx);
        let Some(k) = found else {
            let empty: Vec<AttAttribute> = Vec::new();
            proof {
                assert(empty@ =~= Seq::<AttAttribute>::empty());
            }
            return empty;
        };
        let conn = self.connections[k];
        proof {
            lemma_connection_at(*self, k as int);
        }
        if !conn.live {
            let empty: Vec<AttAttribute> = Vec::new();
            proof {
                assert(empty@ =~= Seq::<AttAttribute>::empty());
            }
            return empty;
        }
        let server_id = conn.bearer.conn_id.get_server_id();
        let Some(i) = self.find_server_index(server_id) else {
            let empty: Vec<AttAttribute> = Vec::new();
            proof {
                assert(empty@ =~= Seq::<AttAttribute>::empty());
            }
            return empty;
        };
        proof {
            lemma_server_at(*self, i as int);
        }
        conn.bearer.list_attributes(&self.databases[i].db)
    }

    /// Finds the index of the server entry for `server_id`, if any.
    fn find_server_index(&self, server_id: ServerId) -> (r: Option<usize>)
        ensures
            match r {
                Some(i) => i < self.databases@.len() && self.databases@[i as int].server_id
                    == server_id,
                None => forall|i: int|
                    0 <= i < self.databases@.len() ==> (#[trigger] self.databases@[i]).server_id
                        != server_id,
            },
    {
        let n = self.databases.len();
        let mut i: usize = 0;
        while i < n
            invariant
                i <= n,
                n == self.databases@.len(),
                forall|m: int|
                    0 <= m < i ==> (#[trigger] self.databases@[m]).server_id != server_id,
            decreases n - i,
        {
            if self.databases[i].server_id.0 == server_id.0 {
                return Some(i);
            }
            i += 1;
        }
        None
    }

    /// Finds the index of the connection entry for `tcb_idx`, if any.
    fn find_connection_index(&self, tcb_idx: TransportIndex) -> (r: Option<usize>)
        ensures
            match r {
                Some(k) => k < self.connections@.len() && self.connections@[k as int].tcb_idx
                    == tcb_idx,
                None => forall|k: int|
                    0 <= k < self.connections@.len() ==> (#[trigger] self.connections@[k]).tcb_idx
                        != tcb_idx,
            },
    {
        let n = self.connections.len();
        let mut k: usize = 0;
        while k < n
            invariant
                k <= n,
                n == self.connections@.len(),
                forall|m: int|
                    0 <= m < k ==> (#[trigger] self.connections@[m]).tcb_idx != tcb_idx,
            decreases n - k,
        {
            if self.connections[k].tcb_idx.0 == tcb_idx.0 {
                return Some(k);
            }
            k += 1;
        }
        None
    }

    /// Marks every stored connection whose bearer belongs to `server_id` as
    /// dead, leaving everything else untouched.
    fn kill_connections_of(&mut self, server_id: ServerId)
        ensures
            final(self).databases@ == old(self).databases@,
            final(self).connections@.len() == old(self).connections@.len(),
            forall|k: int|
                0 <= k < old(self).connections@.len() ==> #[trigger] final(self).connections@[k]
                    == (if old(self).connections@[k].bearer.conn_id.spec_server_id() == server_id {
                    (GattConnection {
                        tcb_idx: old(self).connections@[k].tcb_idx,
                        bearer: old(self).connections@[k].bearer,
                        live: false,
                    })
                } else {
                    old(self).connections@[k]
                }),
    {
        let n = self.connections.len();
        let mut updated: Vec<GattConnection> = Vec::new();
        let mut k: usize = 0;
        while k < n
            invariant
                k <= n,
                n == self.connections@.len(),
                self.databases@ == old(self).databases@,
                self.connections@ == old(self).connections@,
                updated@.len() == k,
                forall|m: int|
                    0 <= m < k ==> #[trigger] updated@[m] == (if old(self).connections@[m].bearer.conn_id.spec_server_id() == server_id {
                        (GattConnection {
                            tcb_idx: old(self).connections@[m].tcb_idx,
                            bearer: old(self).connections@[m].bearer,
                            live: false,
                        })
                    } else {
                        old(self).connections@[m]
                    }),
            decreases n - k,
        {
            let mut conn = self.connections[k];
            if conn.bearer.conn_id.get_server_id().0 == server_id.0 {
                conn.live = false;
            }
            updated.push(conn);
            k += 1;
        }
        self.connections = updated;
    }
}

/// The connection stored at index `k` is exactly what the accessors report
/// for its transport index.
proof fn lemma_connection_at(m: GattModule, k: int)
    requires
        m.wf(),
        0 <= k < m.connections@.len(),
    ensures
        m.spec_has_connection(m.connections@[k].tcb_idx),
        m.spec_connection(m.connections@[k].tcb_idx) == (ConnectionState {
            conn_id: m.connections@[k].bearer.conn_id,
            live: m.connections@[k].live,
        }),
{
    let t = m.connections@[k].tcb_idx;
    assert(m.spec_has_connection(t));
    let k2 = choose|i: int|
        0 <= i < m.connections@.len() && (#[trigger] m.connections@[i]).tcb_idx == t;
    assert(k2 == k);
}

/// The server entry at index `i` is exactly what the accessors report for
/// its server id.
proof fn lemma_server_at(m: GattModule, i: int)
    requires
        m.wf(),
        0 <= i < m.databases@.len(),
    ensures
        m.spec_has_server(m.databases@[i].server_id),
        m.spec_server_records(m.databases@[i].server_id) == m.databases@[i].db.value.records(),
{
    let sid = m.databases@[i].server_id;
    assert(m.spec_has_server(sid));
    let i2 = choose|j: int|
        0 <= j < m.databases@.len() && (#[trigger] m.databases@[j]).server_id == sid;
    assert(i2 == i);
}

/// When the connection list is untouched, the connection accessors agree
/// between the two states.
proof fn lemma_connections_unchanged(m0: GattModule, m1: GattModule)
    requires
        m0.wf(),
        m1.connections@ == m0.connections@,
    ensures
        forall|t: TransportIndex| m1.spec_has_connection(t) == m0.spec_has_connection(t),
        forall|t: TransportIndex|
            m0.spec_has_connection(t) ==> m1.spec_connection(t) == m0.spec_connection(t),
{
    assert forall|t: TransportIndex| m1.spec_has_connection(t)
        == m0.spec_has_connection(t) by {}
    assert forall|t: TransportIndex| m0.spec_has_connection(t) implies m1.spec_connection(t)
        == m0.spec_connection(t) by {}
}

/// After `kill_connections_of(server_id)`, the accessors report the same
/// connections, with those of `server_id` dead and the rest unchanged.
proof fn lemma_connections_killed(m0: GattModule, m1: GattModule, server_id: ServerId)
    requires
        m0.wf(),
        m1.connections@.len() == m0.connections@.len(),
        forall|k: int|
            0 <= k < m0.connections@.len() ==> #[trigger] m1.connections@[k] == (if m0.connections@[k].bearer.conn_id.spec_server_id() == server_id {
                (GattConnection {
                    tcb_idx: m0.connections@[k].tcb_idx,
                    bearer: m0.connections@[k].bearer,
                    live: false,
                })
            } else {
                m0.connections@[k]
            }),
    ensures
        forall|a: int, b: int|
            0 <= a < b < m1.connections@.len() ==> (#[trigger] m1.connections@[a]).tcb_idx != (
            #[trigger] m1.connections@[b]).tcb_idx,
        forall|t: TransportIndex| m1.spec_has_connection(t) == m0.spec_has_connection(t),
        forall|t: TransportIndex|
            m0.spec_has_connection(t) ==> m1.spec_connection(t) == (if m0.spec_connection(
                t,
            ).conn_id.spec_server_id() == server_id {
                (ConnectionState { conn_id: m0.spec_connection(t).conn_id, live: false })
            } else {
                m0.spec_connection(t)
            }),
{
    assert forall|t: TransportIndex| m1.spec_has_connection(t)
        == m0.spec_has_connection(t) by {
        if m0.spec_has_connection(t) {
            let k = choose|k: int|
                0 <= k < m0.connections@.len() && (#[trigger] m0.connections@[k]).tcb_idx == t;
            assert(m1.connections@[k].tcb_idx == t);
        }
        if m1.spec_has_connection(t) {
            let k = choose|k: int|
                0 <= k < m1.connections@.len() && (#[trigger] m1.connections@[k]).tcb_idx == t;
            assert(m0.connections@[k].tcb_idx == t);
        }
    }
    assert forall|t: TransportIndex| m0.spec_has_connection(t) implies m1.spec_connection(t)
        == (if m0.spec_connection(t).conn_id.spec_server_id() == server_id {
        (ConnectionState { conn_id: m0.spec_connection(t).conn_id, live: false })
    } else {
        m0.spec_connection(t)
    }) by {
        let k0 = choose|k: int|
            0 <= k < m0.connections@.len() && (#[trigger] m0.connections@[k]).tcb_idx == t;
        assert(m1.connections@[k0].tcb_idx == t);
        let k1 = choose|k: int|
            0 <= k < m1.connections@.len() && (#[trigger] m1.connections@[k]).tcb_idx == t;
        assert(forall|a: int, b: int|
            0 <= a < b < m1.connections@.len() ==> (#[trigger] m1.connections@[a]).tcb_idx != (
            #[trigger] m1.connections@[b]).tcb_idx);
        assert(k1 == k0);
    }
}

/// After pushing a fresh connection, the accessors report the old
/// connections unchanged plus the new one.
proof fn lemma_connection_pushed(m0: GattModule, m1: GattModule, tcb_idx: TransportIndex)
    requires
        m0.wf(),
        !m0.spec_has_connection(tcb_idx),
        m1.connections@.len() == m0.connections@.len() + 1,
        forall|k: int|
            0 <= k < m0.connections@.len() ==> #[trigger] m1.connections@[k]
                == m0.connections@[k],
        m1.connections@[m0.connections@.len() as int].tcb_idx == tcb_idx,
    ensures
        forall|a: int, b: int|
            0 <= a < b < m1.connections@.len() ==> (#[trigger] m1.connections@[a]).tcb_idx != (
            #[trigger] m1.connections@[b]).tcb_idx,
        forall|t: TransportIndex|
            m1.spec_has_connection(t) == (m0.spec_has_connection(t) || t == tcb_idx),
        m1.spec_connection(tcb_idx) == (ConnectionState {
            conn_id: m1.connections@[m0.connections@.len() as int].bearer.conn_id,
            live: m1.connections@[m0.connections@.len() as int].live,
        }),
        forall|t: TransportIndex|
            t != tcb_idx && m0.spec_has_connection(t) ==> m1.spec_connection(t)
                == m0.spec_connection(t),
{
    let n = m0.connections@.len() as int;
    assert forall|a: int, b: int| 0 <= a < b < m1.connections@.len() implies (
    #[trigger] m1.connections@[a]).tcb_idx != (#[trigger] m1.connections@[b]).tcb_idx by {
        if b < n {
        } else {
            assert(m1.connections@[a] == m0.connections@[a]);
            if m0.connections@[a].tcb_idx == tcb_idx {
                assert(m0.spec_has_connection(tcb_idx));
            }
        }
    }
    assert forall|t: TransportIndex| m1.spec_has_connection(t) == (m0.spec_has_connection(t) || t
        == tcb_idx) by {
        if m0.spec_has_connection(t) {
            let k = choose|k: int|
                0 <= k < m0.connections@.len() && (#[trigger] m0.connections@[k]).tcb_idx == t;
            assert(m1.connections@[k].tcb_idx == t);
        }
        if t == tcb_idx {
            assert(m1.connections@[n].tcb_idx == t);
        }
        if m1.spec_has_connection(t) {
            let k = choose|k: int|
                0 <= k < m1.connections@.len() && (#[trigger] m1.connections@[k]).tcb_idx == t;
            if k < n {
                assert(m0.connections@[k].tcb_idx == t);
            }
        }
    }
    assert(m1.spec_has_connection(tcb_idx)) by {
        assert(m1.connections@[n].tcb_idx == tcb_idx);
    }
    let kx = choose|k: int|
        0 <= k < m1.connections@.len() && (#[trigger] m1.connections@[k]).tcb_idx == tcb_idx;
    assert(kx == n) by {
        if kx < n {
            assert(m0.connections@[kx].tcb_idx == tcb_idx);
            assert(m0.spec_has_connection(tcb_idx));
        }
    }
    assert forall|t: TransportIndex|
        t != tcb_idx && m0.spec_has_connection(t) implies m1.spec_connection(t)
        == m0.spec_connection(t) by {
        let k0 = choose|k: int|
            0 <= k < m0.connections@.len() && (#[trigger] m0.connections@[k]).tcb_idx == t;
        assert(m1.connections@[k0].tcb_idx == t);
        let k1 = choose|k: int|
            0 <= k < m1.connections@.len() && (#[trigger] m1.connections@[k]).tcb_idx == t;
        assert(k1 == k0);
    }
}

/// After removing the connection at index `k`, the accessors report every
/// other connection unchanged and that one gone.
proof fn lemma_connection_removed(m0: GattModule, m1: GattModule, tcb_idx: TransportIndex, k: int)
    requires
        m0.wf(),
        0 <= k < m0.connections@.len(),
        m0.connections@[k].tcb_idx == tcb_idx,
        m1.connections@ == m0.connections@.remove(k),
        m1.databases@ == m0.databases@,
    ensures
        m1.wf(),
        forall|t: TransportIndex|
            m1.spec_has_connection(t) == (m0.spec_has_connection(t) && t != tcb_idx),
        forall|t: TransportIndex|
            t != tcb_idx && m0.spec_has_connection(t) ==> m1.spec_connection(t)
                == m0.spec_connection(t),
{
    let n0 = m0.connections@.len() as int;
    assert(m1.connections@.len() == n0 - 1);
    assert(forall|m: int|
        0 <= m < n0 - 1 ==> #[trigger] m1.connections@[m] == (if m < k {
            m0.connections@[m]
        } else {
            m0.connections@[m + 1]
        }));
    assert forall|a: int, b: int| 0 <= a < b < m1.connections@.len() implies (
    #[trigger] m1.connections@[a]).tcb_idx != (#[trigger] m1.connections@[b]).tcb_idx by {}
    assert forall|t: TransportIndex| m1.spec_has_connection(t) == (m0.spec_has_connection(t) && t
        != tcb_idx) by {
        if m1.spec_has_connection(t) {
            let m = choose|m: int|
                0 <= m < m1.connections@.len() && (#[trigger] m1.connections@[m]).tcb_idx == t;
            if m < k {
                assert(m0.connections@[m].tcb_idx == t);
            } else {
                assert(m0.connections@[m + 1].tcb_idx == t);
            }
            if t == tcb_idx {
                assert(false);
            }
        }
        if m0.spec_has_connection(t) && t != tcb_idx {
            let m = choose|m: int|
                0 <= m < m0.connections@.len() && (#[trigger] m0.connections@[m]).tcb_idx == t;
            if m < k {
                assert(m1.connections@[m].tcb_idx == t);
            } else {
                assert(m != k);
                assert(m1.connections@[m - 1].tcb_idx == t);
            }
        }
    }
    assert forall|t: TransportIndex|
        t != tcb_idx && m0.spec_has_connection(t) implies m1.spec_connection(t)
        == m0.spec_connection(t) by {
        let m_old = choose|m: int|
            0 <= m < m0.connections@.len() && (#[trigger] m0.connections@[m]).tcb_idx == t;
        if m_old < k {
            assert(m1.connections@[m_old].tcb_idx == t);
        } else {
            assert(m_old != k);
            assert(m1.connections@[m_old - 1].tcb_idx == t);
        }
        let m_new = choose|m: int|
            0 <= m < m1.connections@.len() && (#[trigger] m1.connections@[m]).tcb_idx == t;
        if m_new < k {
            assert(m0.connections@[m_new].tcb_idx == t);
            assert(m_new == m_old);
        } else {
            assert(m0.connections@[m_new + 1].tcb_idx == t);
            assert(m_new + 1 == m_old);
        }
    }
}

/// After replacing (or appending) the entry for `server_id` with one whose
/// records are `records`, the server accessors report that server with
/// `records` and every other server unchanged.
proof fn lemma_servers_updated(
    m0: GattModule,
    m1: GattModule,
    server_id: ServerId,
    records: Seq<AttAttributeWithBackingValue>,
    i0: int,
)
    requires
        m0.wf(),
        m1.connections@ == m0.connections@,
        0 <= i0 < m1.databases@.len(),
        m1.databases@[i0].server_id == server_id,
        m1.databases@[i0].db.value.records() == records,
        m1.databases@[i0].db.value.wf(),
        (i0 < m0.databases@.len() && m0.databases@[i0].server_id == server_id
            && m1.databases@ == m0.databases@.update(i0, m1.databases@[i0])) || (i0
            == m0.databases@.len() && m1.databases@ == m0.databases@.push(m1.databases@[i0])
            && !m0.spec_has_server(server_id)),
    ensures
        forall|a: int, b: int|
            0 <= a < b < m1.databases@.len() ==> (#[trigger] m1.databases@[a]).server_id != (
            #[trigger] m1.databases@[b]).server_id,
        forall|i: int|
            0 <= i < m1.databases@.len() ==> (#[trigger] m1.databases@[i]).db.value.wf(),
        m1.spec_has_server(server_id),
        m1.spec_server_records(server_id) == records,
        forall|sid: ServerId|
            sid != server_id ==> m1.spec_has_server(sid) == m0.spec_has_server(sid),
        forall|sid: ServerId|
            sid != server_id && m0.spec_has_server(sid) ==> m1.spec_server_records(sid)
                == m0.spec_server_records(sid),
{
    if i0 < m0.databases@.len() && m0.databases@[i0].server_id == server_id {
        assert(forall|j: int|
            0 <= j < m1.databases@.len() && j != i0 ==> #[trigger] m1.databases@[j]
                == m0.databases@[j]);
    } else {
        assert(forall|j: int|
            0 <= j < m0.databases@.len() ==> #[trigger] m1.databases@[j] == m0.databases@[j]);
        assert forall|j: int| 0 <= j < m0.databases@.len() implies (
        #[trigger] m0.databases@[j]).server_id != server_id by {
            if m0.databases@[j].server_id == server_id {
                assert(m0.spec_has_server(server_id));
            }
        }
    }
    assert forall|a: int, b: int| 0 <= a < b < m1.databases@.len() implies (
    #[trigger] m1.databases@[a]).server_id != (#[trigger] m1.databases@[b]).server_id by {}
    assert(m1.spec_has_server(server_id)) by {
        assert(m1.databases@[i0].server_id == server_id);
    }
    let i1 = choose|j: int|
        0 <= j < m1.databases@.len() && (#[trigger] m1.databases@[j]).server_id == server_id;
    assert(i1 == i0);
    assert forall|sid: ServerId|
        sid != server_id implies m1.spec_has_server(sid) == m0.spec_has_server(sid) by {
        if m0.spec_has_server(sid) {
            let j = choose|j: int|
                0 <= j < m0.databases@.len() && (#[trigger] m0.databases@[j]).server_id == sid;
            assert(m1.databases@[j].server_id == sid);
        }
        if m1.spec_has_server(sid) {
            let j = choose|j: int|
                0 <= j < m1.databases@.len() && (#[trigger] m1.databases@[j]).server_id == sid;
            assert(j != i0);
            assert(m0.databases@[j].server_id == sid);
        }
    }
    assert forall|sid: ServerId|
        sid != server_id && m0.spec_has_server(sid) implies m1.spec_server_records(sid)
        == m0.spec_server_records(sid) by {
        let j0 = choose|j: int|
            0 <= j < m0.databases@.len() && (#[trigger] m0.databases@[j]).server_id == sid;
        assert(m1.databases@[j0].server_id == sid);
        let j1 = choose|j: int|
            0 <= j < m1.databases@.len() && (#[trigger] m1.databases@[j]).server_id == sid;
        assert(j1 != i0);
        assert(m0.databases@[j1].server_id == sid);
        assert(j1 == j0);
    }
}

/// After removing the entry at index `i` for `server_id`, the accessors
/// report that server gone and every other server unchanged.
proof fn lemma_servers_removed(m0: GattModule, m1: GattModule, server_id: ServerId, i: int)
    requires
        m0.wf(),
        0 <= i < m0.databases@.len(),
        m0.databases@[i].server_id == server_id,
        m1.databases@ == m0.databases@.remove(i),
    ensures
        forall|a: int, b: int|
            0 <= a < b < m1.databases@.len() ==> (#[trigger] m1.databases@[a]).server_id != (
            #[trigger] m1.databases@[b]).server_id,
        forall|j: int|
            0 <= j < m1.databases@.len() ==> (#[trigger] m1.databases@[j]).db.value.wf(),
        !m1.spec_has_server(server_id),
        forall|sid: ServerId|
            sid != server_id ==> m1.spec_has_server(sid) == m0.spec_has_server(sid),
        forall|sid: ServerId|
            sid != server_id && m0.spec_has_server(sid) ==> m1.spec_server_records(sid)
                == m0.spec_server_records(sid),
{
    let n0 = m0.databases@.len() as int;
    assert(forall|m: int|
        0 <= m < n0 - 1 ==> #[trigger] m1.databases@[m] == (if m < i {
            m0.databases@[m]
        } else {
            m0.databases@[m + 1]
        }));
    assert(!m1.spec_has_server(server_id)) by {
        if m1.spec_has_server(server_id) {
            let j = choose|j: int|
                0 <= j < m1.databases@.len() && (#[trigger] m1.databases@[j]).server_id
                    == server_id;
            if j < i {
                assert(m0.databases@[j].server_id == server_id);
            } else {
                assert(m0.databases@[j + 1].server_id == server_id);
            }
        }
    }
    assert forall|sid: ServerId|
        sid != server_id implies m1.spec_has_server(sid) == m0.spec_has_server(sid) by {
        if m0.spec_has_server(sid) {
            let j = choose|j: int|
                0 <= j < m0.databases@.len() && (#[trigger] m0.databases@[j]).server_id == sid;
            assert(j != i);
            if j < i {
                assert(m1.databases@[j].server_id == sid);
            } else {
                assert(m1.databases@[j - 1].server_id == sid);
            }
        }
        if m1.spec_has_server(sid) {
            let j = choose|j: int|
                0 <= j < m1.databases@.len() && (#[trigger] m1.databases@[j]).server_id == sid;
            if j < i {
                assert(m0.databases@[j].server_id == sid);
            } else {
                assert(m0.databases@[j + 1].server_id == sid);
            }
        }
    }
    assert forall|sid: ServerId|
        sid != server_id && m0.spec_has_server(sid) implies m1.spec_server_records(sid)
        == m0.spec_server_records(sid) by {
        let j0 = choose|j: int|
            0 <= j < m0.databases@.len() && (#[trigger] m0.databases@[j]).server_id == sid;
        assert(j0 != i);
        if j0 < i {
            assert(m1.databases@[j0].server_id == sid);
        } else {
            assert(m1.databases@[j0 - 1].server_id == sid);
        }
        let j1 = choose|j: int|
            0 <= j < m1.databases@.len() && (#[trigger] m1.databases@[j]).server_id == sid;
        if j1 < i {
            assert(m0.databases@[j1].server_id == sid);
            assert(j1 == j0);
        } else {
            assert(m0.databases@[j1 + 1].server_id == sid);
            assert(j1 + 1 == j0);
        }
    }
}

/// When the server list is untouched, the server accessors agree between the
/// two states.
proof fn lemma_servers_unchanged(m0: GattModule, m1: GattModule)
    requires
        m0.wf(),
        m1.databases@ == m0.databases@,
    ensures
        forall|sid: ServerId| m1.spec_has_server(sid) == m0.spec_has_server(sid),
        forall|sid: ServerId|
            m0.spec_has_server(sid) ==> m1.spec_server_records(sid) == m0.spec_server_records(
                sid,
            ),
{
    assert forall|sid: ServerId| m1.spec_has_server(sid) == m0.spec_has_server(sid) by {}
    assert forall|sid: ServerId| m0.spec_has_server(sid) implies m1.spec_server_records(sid)
        == m0.spec_server_records(sid) by {
        let j0 = choose|j: int|
            0 <= j < m0.databases@.len() && (#[trigger] m0.databases@[j]).server_id == sid;
        assert(m1.databases@[j0].server_id == sid);
        let j1 = choose|j: int|
            0 <= j < m1.databases@.len() && (#[trigger] m1.databases@[j]).server_id == sid;
        assert(j1 == j0);
    }
}

/// A bearer whose schema is gone serves nothing: once its server was closed
/// or replaced (which marks the connection dead, per the ensures of
/// [`GattModule::close_gatt_server`] and [`GattModule::open_gatt_server`]),
/// or the server is simply no longer open, every read and write through the
/// bearer resolves to the invalid-handle error, and its attribute listing is
/// empty.
pub proof fn lemma_dead_bearer_serves_nothing(
    m: GattModule,
    tcb_idx: TransportIndex,
    handle: AttHandle,
)
    requires
        m.spec_has_connection(tcb_idx),
        !m.spec_connection(tcb_idx).live || !m.spec_has_server(
            m.spec_connection(tcb_idx).conn_id.spec_server_id(),
        ),
    ensures
        m.spec_read_denied(tcb_idx, handle) == Some(AttErrorCode::InvalidHandle),
        m.spec_write_denied(tcb_idx, handle) == Some(AttErrorCode::InvalidHandle),
{
}

} // verus!
