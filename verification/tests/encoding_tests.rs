use gatt_server::att_database::AttErrorCode;
use gatt_server::att_database::AttPermissions;
use gatt_server::gatt_database::AttReadResolution;
use gatt_server::gatt_database::GattCharacteristicWithHandle;
use gatt_server::gatt_database::GattDatabase;
use gatt_server::gatt_database::GattServiceWithHandle;
use gatt_server::ids::AttHandle;
use gatt_server::ids::ConnectionId;
use gatt_server::ids::DatastoreId;
use gatt_server::shared_box::SharedBox;
use gatt_server::uuid::Uuid;

fn read_declaration(service_type: Uuid, value_permissions: Option<AttPermissions>, handle: u16) -> Vec<u8> {
    let mut gatt_db = SharedBox::new(GattDatabase::new());
    let characteristics = match value_permissions {
        Some(permissions) => vec![GattCharacteristicWithHandle {
            handle: AttHandle(3),
            type_: Uuid::new(0x5678),
            permissions,
            descriptors: vec![],
        }],
        None => vec![],
    };
    gatt_db
        .value
        .add_service_with_handles(
            GattServiceWithHandle { handle: AttHandle(1), type_: service_type, characteristics },
            DatastoreId(0),
        )
        .unwrap();
    let resolution = gatt_db
        .get_att_database(ConnectionId(1))
        .read_attribute(&gatt_db, AttHandle(handle))
        .unwrap();
    match resolution {
        AttReadResolution::Value(bytes) => bytes,
        AttReadResolution::Delegate(_) => panic!("expected a static declaration value"),
    }
}

#[test]
fn test_service_declaration_encodes_16_bit_uuid() {
    assert_eq!(read_declaration(Uuid::new(0x1234), None, 1), vec![0x34, 0x12]);
}

#[test]
fn test_service_declaration_encodes_32_bit_uuid() {
    assert_eq!(
        read_declaration(Uuid::new(0x1234_5678), None, 1),
        vec![0x78, 0x56, 0x34, 0x12]
    );
}

#[test]
fn test_characteristic_declaration_layout() {
    // properties byte, value handle little-endian, then the value UUID
    let perms = AttPermissions::new(true, false, false);
    assert_eq!(
        read_declaration(Uuid::new(0x1234), Some(perms), 2),
        vec![0x02, 0x03, 0x00, 0x78, 0x56]
    );
}

#[test]
fn test_characteristic_properties_bits() {
    let write_only = AttPermissions::new(false, true, false);
    assert_eq!(read_declaration(Uuid::new(0x1234), Some(write_only), 2)[0], 0x08);

    let indicate_only = AttPermissions::new(false, false, true);
    assert_eq!(read_declaration(Uuid::new(0x1234), Some(indicate_only), 2)[0], 0x20);

    let all = AttPermissions::new(true, true, true);
    assert_eq!(read_declaration(Uuid::new(0x1234), Some(all), 2)[0], 0x2A);
}

#[test]
fn test_att_error_wire_codes() {
    assert_eq!(AttErrorCode::InvalidHandle.wire_code(), 0x01);
    assert_eq!(AttErrorCode::ReadNotPermitted.wire_code(), 0x02);
    assert_eq!(AttErrorCode::WriteNotPermitted.wire_code(), 0x03);
    assert_eq!(AttErrorCode::UnlikelyError.wire_code(), 0x0E);
}

#[test]
fn test_permission_helpers() {
    let perms = AttPermissions::new(true, false, true);
    assert!(perms.readable());
    assert!(!perms.writable());
    assert!(perms.indicate());

    let empty = AttPermissions::empty();
    assert!(!empty.readable());
    assert!(!empty.writable());
    assert!(!empty.indicate());
}

#[test]
fn test_failed_add_leaves_schema_identical() {
    let mut gatt_db = SharedBox::new(GattDatabase::new());
    gatt_db
        .value
        .add_service_with_handles(
            GattServiceWithHandle {
                handle: AttHandle(1),
                type_: Uuid::new(0x1234),
                characteristics: vec![],
            },
            DatastoreId(0),
        )
        .unwrap();
    let before = gatt_db.get_att_database(ConnectionId(1)).list_attributes(&gatt_db);

    // a service colliding with handle 1 is refused atomically
    let clash = gatt_db.value.add_service_with_handles(
        GattServiceWithHandle {
            handle: AttHandle(2),
            type_: Uuid::new(0x4321),
            characteristics: vec![GattCharacteristicWithHandle {
                handle: AttHandle(1),
                type_: Uuid::new(0x5678),
                permissions: AttPermissions::new(true, false, false),
                descriptors: vec![],
            }],
        },
        DatastoreId(0),
    );
    assert!(clash.is_err());

    let after = gatt_db.get_att_database(ConnectionId(1)).list_attributes(&gatt_db);
    assert_eq!(before, after);
}

#[test]
fn test_attribute_list_stays_sorted_and_unique() {
    let mut gatt_db = SharedBox::new(GattDatabase::new());
    // add services out of handle order
    for base in [20u16, 1u16, 40u16] {
        gatt_db
            .value
            .add_service_with_handles(
                GattServiceWithHandle {
                    handle: AttHandle(base),
                    type_: Uuid::new(0x1234),
                    characteristics: vec![GattCharacteristicWithHandle {
                        handle: AttHandle(base + 2),
                        type_: Uuid::new(0x5678),
                        permissions: AttPermissions::new(true, false, false),
                        descriptors: vec![],
                    }],
                },
                DatastoreId(0),
            )
            .unwrap();
    }
    gatt_db.value.remove_service_at_handle(AttHandle(20)).unwrap();

    let attrs = gatt_db.get_att_database(ConnectionId(1)).list_attributes(&gatt_db);
    assert_eq!(attrs.len(), 6);
    for pair in attrs.windows(2) {
        assert!(pair[0].handle.0 < pair[1].handle.0);
    }
}
