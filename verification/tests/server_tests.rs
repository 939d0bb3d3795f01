use gatt_server::att_database::characteristic_uuid;
use gatt_server::att_database::primary_service_declaration_uuid;
use gatt_server::att_database::AttErrorCode;
use gatt_server::att_database::AttPermissions;
use gatt_server::att_database::AttributeBackingType;
use gatt_server::gatt_database::AttReadResolution;
use gatt_server::gatt_database::DatastoreReadRequest;
use gatt_server::gatt_database::GattCharacteristicWithHandle;
use gatt_server::gatt_database::GattServiceWithHandle;
use gatt_server::ids::AttHandle;
use gatt_server::ids::ConnectionId;
use gatt_server::ids::DatastoreId;
use gatt_server::ids::ServerId;
use gatt_server::ids::TransportIndex;
use gatt_server::server::GattModule;
use gatt_server::server::GattModuleError;
use gatt_server::uuid::Uuid;

fn app_service() -> GattServiceWithHandle {
    GattServiceWithHandle {
        handle: AttHandle(10),
        type_: Uuid::new(0x1234),
        characteristics: vec![GattCharacteristicWithHandle {
            handle: AttHandle(12),
            type_: Uuid::new(0x5678),
            permissions: AttPermissions::new(true, false, false),
            descriptors: vec![],
        }],
    }
}

fn connected_module() -> (GattModule, TransportIndex) {
    let mut module = GattModule::new();
    module.open_gatt_server(ServerId(1)).unwrap();
    let conn_id = ConnectionId::new(TransportIndex(5), ServerId(1));
    module.on_le_connect(conn_id).unwrap();
    (module, TransportIndex(5))
}

#[test]
fn test_open_server_installs_builtin_services() {
    let (module, tcb_idx) = connected_module();

    let attrs = module.list_attributes(tcb_idx);

    // GATT service (Service Changed) then GAP service (Device Name)
    assert_eq!(attrs.len(), 6);
    assert_eq!(attrs[0].handle, AttHandle(1));
    assert_eq!(attrs[0].type_, primary_service_declaration_uuid());
    assert_eq!(attrs[1].type_, characteristic_uuid());
    assert_eq!(attrs[2].handle, AttHandle(3));
    assert_eq!(attrs[2].type_, Uuid::new(0x2A05));
    assert!(attrs[2].permissions.indicate());
    assert_eq!(attrs[3].handle, AttHandle(4));
    assert_eq!(attrs[3].type_, primary_service_declaration_uuid());
    assert_eq!(attrs[4].type_, characteristic_uuid());
    assert_eq!(attrs[5].handle, AttHandle(6));
    assert_eq!(attrs[5].type_, Uuid::new(0x2A00));
    assert!(attrs[5].permissions.readable());
}

#[test]
fn test_read_unoccupied_handle() {
    let (module, tcb_idx) = connected_module();

    let resp = module.read_attribute(tcb_idx, AttHandle(100));

    assert_eq!(resp, Err(AttErrorCode::InvalidHandle));
}

#[test]
fn test_read_through_module() {
    let (mut module, tcb_idx) = connected_module();
    module.register_gatt_service(ServerId(1), app_service(), DatastoreId(7)).unwrap();

    let resp = module.read_attribute(tcb_idx, AttHandle(12));

    assert_eq!(
        resp,
        Ok(AttReadResolution::Delegate(DatastoreReadRequest {
            datastore: DatastoreId(7),
            conn_id: ConnectionId::new(TransportIndex(5), ServerId(1)),
            handle: AttHandle(12),
            backing: AttributeBackingType::Characteristic,
        }))
    );
}

#[test]
fn test_write_through_module() {
    let (mut module, tcb_idx) = connected_module();
    let service = GattServiceWithHandle {
        handle: AttHandle(10),
        type_: Uuid::new(0x1234),
        characteristics: vec![GattCharacteristicWithHandle {
            handle: AttHandle(12),
            type_: Uuid::new(0x5678),
            permissions: AttPermissions::new(false, true, false),
            descriptors: vec![],
        }],
    };
    module.register_gatt_service(ServerId(1), service, DatastoreId(7)).unwrap();

    let req = module.write_attribute(tcb_idx, AttHandle(12), vec![9, 8, 7]).unwrap();

    assert_eq!(req.datastore, DatastoreId(7));
    assert_eq!(req.conn_id, ConnectionId::new(TransportIndex(5), ServerId(1)));
    assert_eq!(req.handle, AttHandle(12));
    assert_eq!(req.backing, AttributeBackingType::Characteristic);
    assert_eq!(req.data, vec![9, 8, 7]);
}

#[test]
fn test_close_server_kills_bearer() {
    let (mut module, tcb_idx) = connected_module();
    assert!(module.read_attribute(tcb_idx, AttHandle(1)).is_ok());

    module.close_gatt_server(ServerId(1)).unwrap();

    // every operation on a view derived from the closed server degrades
    assert_eq!(module.read_attribute(tcb_idx, AttHandle(1)), Err(AttErrorCode::InvalidHandle));
    assert_eq!(
        module.write_attribute(tcb_idx, AttHandle(1), vec![1]),
        Err(AttErrorCode::InvalidHandle)
    );
    assert_eq!(module.list_attributes(tcb_idx).len(), 0);
}

#[test]
fn test_reopen_does_not_revive_bearer() {
    let (mut module, tcb_idx) = connected_module();
    module.close_gatt_server(ServerId(1)).unwrap();
    module.open_gatt_server(ServerId(1)).unwrap();

    // the old bearer still reads from the dead schema
    assert_eq!(module.read_attribute(tcb_idx, AttHandle(1)), Err(AttErrorCode::InvalidHandle));

    // a new link to the reopened server works
    let conn_id = ConnectionId::new(TransportIndex(6), ServerId(1));
    module.on_le_connect(conn_id).unwrap();
    assert!(module.read_attribute(TransportIndex(6), AttHandle(1)).is_ok());
}

#[test]
fn test_reopen_clobbers_and_reports() {
    let mut module = GattModule::new();
    module.open_gatt_server(ServerId(1)).unwrap();
    module.register_gatt_service(ServerId(1), app_service(), DatastoreId(7)).unwrap();

    // reopening replaces the schema and says so
    let reopened = module.open_gatt_server(ServerId(1));
    assert_eq!(reopened, Err(GattModuleError::ServerAlreadyOpen));

    // the replacement holds only the built-in services again
    let conn_id = ConnectionId::new(TransportIndex(5), ServerId(1));
    module.on_le_connect(conn_id).unwrap();
    assert_eq!(module.list_attributes(TransportIndex(5)).len(), 6);
}

#[test]
fn test_connect_unknown_server() {
    let mut module = GattModule::new();

    let conn_id = ConnectionId::new(TransportIndex(5), ServerId(1));
    assert_eq!(module.on_le_connect(conn_id), Err(GattModuleError::ServerNotOpen));
}

#[test]
fn test_connect_twice_is_refused() {
    let (mut module, _tcb_idx) = connected_module();

    let conn_id = ConnectionId::new(TransportIndex(5), ServerId(1));
    assert_eq!(module.on_le_connect(conn_id), Err(GattModuleError::TransportAlreadyConnected));
}

#[test]
fn test_disconnect_unknown_transport() {
    let mut module = GattModule::new();

    assert_eq!(
        module.on_le_disconnect(TransportIndex(5)),
        Err(GattModuleError::TransportNotConnected)
    );
}

#[test]
fn test_disconnect_drops_bearer() {
    let (mut module, tcb_idx) = connected_module();
    assert!(module.get_bearer(tcb_idx).is_some());

    module.on_le_disconnect(tcb_idx).unwrap();

    assert!(module.get_bearer(tcb_idx).is_none());
    assert_eq!(module.read_attribute(tcb_idx, AttHandle(1)), Err(AttErrorCode::InvalidHandle));
}

#[test]
fn test_get_bearer_identity() {
    let (module, tcb_idx) = connected_module();

    let bearer = module.get_bearer(tcb_idx).unwrap();

    assert_eq!(bearer.conn_id, ConnectionId::new(TransportIndex(5), ServerId(1)));
}

#[test]
fn test_close_unknown_server() {
    let mut module = GattModule::new();

    assert_eq!(module.close_gatt_server(ServerId(1)), Err(GattModuleError::ServerNotOpen));
}

#[test]
fn test_register_on_unknown_server() {
    let mut module = GattModule::new();

    assert_eq!(
        module.register_gatt_service(ServerId(1), app_service(), DatastoreId(7)),
        Err(GattModuleError::ServerNotOpen)
    );
}

#[test]
fn test_register_clashing_with_builtin() {
    let mut module = GattModule::new();
    module.open_gatt_server(ServerId(1)).unwrap();

    // handle 1 is taken by the built-in GATT service declaration
    let service = GattServiceWithHandle {
        handle: AttHandle(1),
        type_: Uuid::new(0x1234),
        characteristics: vec![],
    };
    assert_eq!(
        module.register_gatt_service(ServerId(1), service, DatastoreId(7)),
        Err(GattModuleError::DuplicateHandle)
    );
}

#[test]
fn test_unregister_removes_exact_count() {
    let (mut module, tcb_idx) = connected_module();
    module.register_gatt_service(ServerId(1), app_service(), DatastoreId(7)).unwrap();
    // one service declaration, one characteristic declaration, one value
    assert_eq!(module.list_attributes(tcb_idx).len(), 9);

    module.unregister_gatt_service(ServerId(1), AttHandle(10)).unwrap();

    assert_eq!(module.list_attributes(tcb_idx).len(), 6);
}

#[test]
fn test_unregister_on_unknown_server() {
    let mut module = GattModule::new();

    assert_eq!(
        module.unregister_gatt_service(ServerId(1), AttHandle(10)),
        Err(GattModuleError::ServerNotOpen)
    );
}

#[test]
fn test_servers_are_isolated() {
    let mut module = GattModule::new();
    module.open_gatt_server(ServerId(1)).unwrap();
    module.open_gatt_server(ServerId(2)).unwrap();
    module.register_gatt_service(ServerId(1), app_service(), DatastoreId(7)).unwrap();

    module.on_le_connect(ConnectionId::new(TransportIndex(5), ServerId(1))).unwrap();
    module.on_le_connect(ConnectionId::new(TransportIndex(6), ServerId(2))).unwrap();

    // the registered service is visible on server 1's link only
    assert_eq!(module.list_attributes(TransportIndex(5)).len(), 9);
    assert_eq!(module.list_attributes(TransportIndex(6)).len(), 6);

    // closing server 2 leaves server 1's link serving
    module.close_gatt_server(ServerId(2)).unwrap();
    assert_eq!(module.list_attributes(TransportIndex(6)).len(), 0);
    assert_eq!(module.list_attributes(TransportIndex(5)).len(), 9);
}

#[test]
fn test_connection_id_round_trip() {
    let conn_id = ConnectionId::new(TransportIndex(7), ServerId(9));
    assert_eq!(conn_id.get_tcb_idx(), TransportIndex(7));
    assert_eq!(conn_id.get_server_id(), ServerId(9));

    // the transport index lives in the high byte, the server id in the low
    assert_eq!(conn_id, ConnectionId(7 * 256 + 9));
    assert_eq!(ConnectionId(1).get_server_id(), ServerId(1));
    assert_eq!(ConnectionId(1).get_tcb_idx(), TransportIndex(0));
}
