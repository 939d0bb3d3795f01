use gatt_server::att_database::characteristic_uuid;
use gatt_server::att_database::primary_service_declaration_uuid;
use gatt_server::att_database::AttAttribute;
use gatt_server::att_database::AttErrorCode;
use gatt_server::att_database::AttPermissions;
use gatt_server::att_database::AttributeBackingType;
use gatt_server::gatt_database::AttReadResolution;
use gatt_server::gatt_database::DatastoreReadRequest;
use gatt_server::gatt_database::GattCharacteristicWithHandle;
use gatt_server::gatt_database::GattDatabase;
use gatt_server::gatt_database::GattDescriptorWithHandle;
use gatt_server::gatt_database::GattServiceWithHandle;
use gatt_server::ids::AttHandle;
use gatt_server::ids::ConnectionId;
use gatt_server::ids::DatastoreId;
use gatt_server::shared_box::SharedBox;
use gatt_server::uuid::Uuid;

#[allow(non_snake_case)]
fn SERVICE_HANDLE() -> AttHandle {
    AttHandle(1)
}

#[allow(non_snake_case)]
fn CHARACTERISTIC_DECLARATION_HANDLE() -> AttHandle {
    AttHandle(2)
}

#[allow(non_snake_case)]
fn CHARACTERISTIC_VALUE_HANDLE() -> AttHandle {
    AttHandle(3)
}

#[allow(non_snake_case)]
fn DESCRIPTOR_HANDLE() -> AttHandle {
    AttHandle(4)
}

#[allow(non_snake_case)]
fn CONN_ID() -> ConnectionId {
    ConnectionId(1)
}

#[allow(non_snake_case)]
fn DATASTORE() -> DatastoreId {
    DatastoreId(42)
}

fn service_type() -> Uuid {
    Uuid::new(0x1234)
}

fn characteristic_type() -> Uuid {
    Uuid::new(0x5678)
}

fn descriptor_type() -> Uuid {
    Uuid::new(0x9ABC)
}

fn readable() -> AttPermissions {
    AttPermissions::new(true, false, false)
}

fn writable() -> AttPermissions {
    AttPermissions::new(false, true, false)
}

fn simple_service(handle: u16, value_handle: u16) -> GattServiceWithHandle {
    GattServiceWithHandle {
        handle: AttHandle(handle),
        type_: service_type(),
        characteristics: vec![GattCharacteristicWithHandle {
            handle: AttHandle(value_handle),
            type_: characteristic_type(),
            permissions: readable(),
            descriptors: vec![],
        }],
    }
}

#[test]
fn test_read_empty_db() {
    let gatt_db = SharedBox::new(GattDatabase::new());
    let att_db = gatt_db.get_att_database(CONN_ID());

    let resp = att_db.read_attribute(&gatt_db, AttHandle(1));

    assert_eq!(resp, Err(AttErrorCode::InvalidHandle));
}

#[test]
fn test_single_service() {
    let mut gatt_db = SharedBox::new(GattDatabase::new());
    gatt_db
        .value
        .add_service_with_handles(
            GattServiceWithHandle {
                handle: SERVICE_HANDLE(),
                type_: service_type(),
                characteristics: vec![],
            },
            DATASTORE(),
        )
        .unwrap();
    let att_db = gatt_db.get_att_database(CONN_ID());

    let attrs = att_db.list_attributes(&gatt_db);
    let service_value = att_db.read_attribute(&gatt_db, SERVICE_HANDLE());

    assert_eq!(
        attrs,
        vec![AttAttribute {
            handle: SERVICE_HANDLE(),
            type_: primary_service_declaration_uuid(),
            permissions: readable(),
        }]
    );
    // The service declaration value is the service UUID, little-endian.
    assert_eq!(service_value, Ok(AttReadResolution::Value(vec![0x34, 0x12])));
}

#[test]
fn test_service_removal() {
    // arrange three services, each with a single characteristic
    let mut gatt_db = SharedBox::new(GattDatabase::new());
    gatt_db.value.add_service_with_handles(simple_service(1, 3), DATASTORE()).unwrap();
    gatt_db.value.add_service_with_handles(simple_service(4, 6), DATASTORE()).unwrap();
    gatt_db.value.add_service_with_handles(simple_service(7, 9), DATASTORE()).unwrap();
    let att_db = gatt_db.get_att_database(CONN_ID());
    assert_eq!(att_db.list_attributes(&gatt_db).len(), 9);

    // act: remove the middle service
    gatt_db.value.remove_service_at_handle(AttHandle(4)).unwrap();
    let attrs = att_db.list_attributes(&gatt_db);

    // assert that the middle service is gone
    assert_eq!(attrs.len(), 6, "{attrs:?}");

    // assert the other two old services are still there
    assert_eq!(
        attrs[0],
        AttAttribute {
            handle: AttHandle(1),
            type_: primary_service_declaration_uuid(),
            permissions: readable(),
        }
    );
    assert_eq!(
        attrs[3],
        AttAttribute {
            handle: AttHandle(7),
            type_: primary_service_declaration_uuid(),
            permissions: readable(),
        }
    );
}

#[test]
fn test_single_characteristic_declaration() {
    let mut gatt_db = SharedBox::new(GattDatabase::new());
    gatt_db
        .value
        .add_service_with_handles(
            GattServiceWithHandle {
                handle: SERVICE_HANDLE(),
                type_: service_type(),
                characteristics: vec![GattCharacteristicWithHandle {
                    handle: CHARACTERISTIC_VALUE_HANDLE(),
                    type_: characteristic_type(),
                    permissions: AttPermissions::new(true, true, true),
                    descriptors: vec![],
                }],
            },
            DATASTORE(),
        )
        .unwrap();
    let att_db = gatt_db.get_att_database(CONN_ID());

    let attrs = att_db.list_attributes(&gatt_db);
    let characteristic_decl = att_db.read_attribute(&gatt_db, CHARACTERISTIC_DECLARATION_HANDLE());

    assert_eq!(attrs.len(), 3, "{attrs:?}");
    assert_eq!(attrs[0].type_, primary_service_declaration_uuid());
    assert_eq!(
        attrs[1],
        AttAttribute {
            handle: CHARACTERISTIC_DECLARATION_HANDLE(),
            type_: characteristic_uuid(),
            permissions: readable(),
        }
    );
    assert_eq!(
        attrs[2],
        AttAttribute {
            handle: CHARACTERISTIC_VALUE_HANDLE(),
            type_: characteristic_type(),
            permissions: AttPermissions::new(true, true, true),
        }
    );

    // properties: read (0x02) | write (0x08) | indicate (0x20); then the
    // value handle (little-endian), then the characteristic UUID.
    assert_eq!(
        characteristic_decl,
        Ok(AttReadResolution::Value(vec![0x2A, 0x03, 0x00, 0x78, 0x56]))
    );
}

#[test]
fn test_single_characteristic_value() {
    // arrange: create a database with a single characteristic
    let mut gatt_db = SharedBox::new(GattDatabase::new());
    gatt_db.value.add_service_with_handles(simple_service(1, 3), DATASTORE()).unwrap();
    let att_db = gatt_db.get_att_database(CONN_ID());

    // act: read the characteristic value
    let characteristic_value = att_db.read_attribute(&gatt_db, CHARACTERISTIC_VALUE_HANDLE());

    // assert: the read delegates to the backing datastore with the
    // connection id, the value handle, and the characteristic backing kind;
    // the executor performs the call and returns the datastore's bytes.
    assert_eq!(
        characteristic_value,
        Ok(AttReadResolution::Delegate(DatastoreReadRequest {
            datastore: DATASTORE(),
            conn_id: CONN_ID(),
            handle: CHARACTERISTIC_VALUE_HANDLE(),
            backing: AttributeBackingType::Characteristic,
        }))
    );
}

#[test]
fn test_unreadable_characteristic() {
    let mut gatt_db = SharedBox::new(GattDatabase::new());
    gatt_db
        .value
        .add_service_with_handles(
            GattServiceWithHandle {
                handle: SERVICE_HANDLE(),
                type_: service_type(),
                characteristics: vec![GattCharacteristicWithHandle {
                    handle: CHARACTERISTIC_VALUE_HANDLE(),
                    type_: characteristic_type(),
                    permissions: AttPermissions::new(false, false, false),
                    descriptors: vec![],
                }],
            },
            DATASTORE(),
        )
        .unwrap();

    let characteristic_value = gatt_db
        .get_att_database(CONN_ID())
        .read_attribute(&gatt_db, CHARACTERISTIC_VALUE_HANDLE());

    assert_eq!(characteristic_value, Err(AttErrorCode::ReadNotPermitted));
}

#[test]
fn test_handle_clash() {
    let mut gatt_db = SharedBox::new(GattDatabase::new());

    let result = gatt_db.value.add_service_with_handles(
        GattServiceWithHandle {
            handle: SERVICE_HANDLE(),
            type_: service_type(),
            characteristics: vec![GattCharacteristicWithHandle {
                handle: SERVICE_HANDLE(),
                type_: characteristic_type(),
                permissions: writable(),
                descriptors: vec![],
            }],
        },
        DATASTORE(),
    );

    assert!(result.is_err());
}

#[test]
fn test_handle_clash_with_existing() {
    let mut gatt_db = SharedBox::new(GattDatabase::new());

    gatt_db
        .value
        .add_service_with_handles(
            GattServiceWithHandle {
                handle: SERVICE_HANDLE(),
                type_: service_type(),
                characteristics: vec![],
            },
            DATASTORE(),
        )
        .unwrap();

    let result = gatt_db.value.add_service_with_handles(
        GattServiceWithHandle {
            handle: SERVICE_HANDLE(),
            type_: service_type(),
            characteristics: vec![],
        },
        DATASTORE(),
    );

    assert!(result.is_err());
}

#[test]
fn test_write_single_characteristic_callback_invoked() {
    // arrange: create a database with a single writable characteristic
    let mut gatt_db = SharedBox::new(GattDatabase::new());
    gatt_db
        .value
        .add_service_with_handles(
            GattServiceWithHandle {
                handle: SERVICE_HANDLE(),
                type_: service_type(),
                characteristics: vec![GattCharacteristicWithHandle {
                    handle: CHARACTERISTIC_VALUE_HANDLE(),
                    type_: characteristic_type(),
                    permissions: writable(),
                    descriptors: vec![],
                }],
            },
            DATASTORE(),
        )
        .unwrap();
    let att_db = gatt_db.get_att_database(CONN_ID());
    let data = vec![1u8, 2u8];

    // act: write to the database
    let resolution = att_db
        .write_attribute(&gatt_db, CHARACTERISTIC_VALUE_HANDLE(), data.clone())
        .unwrap();

    // assert: the write is handed to the backing datastore with exactly the
    // received value and the right identifiers
    assert_eq!(resolution.datastore, DATASTORE());
    assert_eq!(resolution.conn_id, CONN_ID());
    assert_eq!(resolution.handle, CHARACTERISTIC_VALUE_HANDLE());
    assert_eq!(resolution.backing, AttributeBackingType::Characteristic);
    assert_eq!(resolution.data, data);
}

#[test]
fn test_write_single_characteristic_recv_response() {
    // arrange: create a database with a single writable characteristic
    let mut gatt_db = SharedBox::new(GattDatabase::new());
    gatt_db
        .value
        .add_service_with_handles(
            GattServiceWithHandle {
                handle: SERVICE_HANDLE(),
                type_: service_type(),
                characteristics: vec![GattCharacteristicWithHandle {
                    handle: CHARACTERISTIC_VALUE_HANDLE(),
                    type_: characteristic_type(),
                    permissions: writable(),
                    descriptors: vec![],
                }],
            },
            DATASTORE(),
        )
        .unwrap();
    let att_db = gatt_db.get_att_database(CONN_ID());

    // act: write to the database
    let resolution = att_db.write_attribute(&gatt_db, CHARACTERISTIC_VALUE_HANDLE(), vec![1, 2]);

    // assert: the core itself injects no error; the outcome of the write is
    // whatever the named datastore answers (for instance an unlikely-error),
    // which the executor propagates verbatim.
    assert!(resolution.is_ok());
    assert_eq!(resolution.unwrap().datastore, DATASTORE());
}

#[test]
fn test_unwriteable_characteristic() {
    let mut gatt_db = SharedBox::new(GattDatabase::new());
    gatt_db.value.add_service_with_handles(simple_service(1, 3), DATASTORE()).unwrap();

    let characteristic_value = gatt_db
        .get_att_database(CONN_ID())
        .write_attribute(&gatt_db, CHARACTERISTIC_VALUE_HANDLE(), vec![1, 2]);

    assert_eq!(characteristic_value, Err(AttErrorCode::WriteNotPermitted));
}

#[test]
fn test_single_descriptor_declaration() {
    let mut gatt_db = SharedBox::new(GattDatabase::new());
    gatt_db
        .value
        .add_service_with_handles(
            GattServiceWithHandle {
                handle: SERVICE_HANDLE(),
                type_: service_type(),
                characteristics: vec![GattCharacteristicWithHandle {
                    handle: CHARACTERISTIC_VALUE_HANDLE(),
                    type_: characteristic_type(),
                    permissions: readable(),
                    descriptors: vec![GattDescriptorWithHandle {
                        handle: DESCRIPTOR_HANDLE(),
                        type_: descriptor_type(),
                        permissions: readable(),
                    }],
                }],
            },
            DATASTORE(),
        )
        .unwrap();
    let att_db = gatt_db.get_att_database(CONN_ID());

    let descriptor_value = att_db.read_attribute(&gatt_db, DESCRIPTOR_HANDLE());

    // the read delegates to the datastore with the descriptor backing kind
    assert_eq!(
        descriptor_value,
        Ok(AttReadResolution::Delegate(DatastoreReadRequest {
            datastore: DATASTORE(),
            conn_id: CONN_ID(),
            handle: DESCRIPTOR_HANDLE(),
            backing: AttributeBackingType::Descriptor,
        }))
    );
}

#[test]
fn test_write_descriptor() {
    // arrange: db with a writable descriptor
    let mut gatt_db = SharedBox::new(GattDatabase::new());
    gatt_db
        .value
        .add_service_with_handles(
            GattServiceWithHandle {
                handle: SERVICE_HANDLE(),
                type_: service_type(),
                characteristics: vec![GattCharacteristicWithHandle {
                    handle: CHARACTERISTIC_VALUE_HANDLE(),
                    type_: characteristic_type(),
                    permissions: readable(),
                    descriptors: vec![GattDescriptorWithHandle {
                        handle: DESCRIPTOR_HANDLE(),
                        type_: descriptor_type(),
                        permissions: writable(),
                    }],
                }],
            },
            DATASTORE(),
        )
        .unwrap();
    let att_db = gatt_db.get_att_database(CONN_ID());

    // act: write to the descriptor
    let resolution = att_db.write_attribute(&gatt_db, DESCRIPTOR_HANDLE(), vec![1, 2]).unwrap();

    // assert: the write reaches the datastore tagged as a descriptor write
    assert_eq!(resolution.backing, AttributeBackingType::Descriptor);
    assert_eq!(resolution.handle, DESCRIPTOR_HANDLE());
    assert_eq!(resolution.data, vec![1, 2]);
}

#[test]
fn test_multiple_descriptors() {
    // arrange: a database with some characteristics and descriptors
    let mut gatt_db = SharedBox::new(GattDatabase::new());
    gatt_db
        .value
        .add_service_with_handles(
            GattServiceWithHandle {
                handle: AttHandle(1),
                type_: service_type(),
                characteristics: vec![
                    GattCharacteristicWithHandle {
                        handle: AttHandle(3),
                        type_: characteristic_type(),
                        permissions: readable(),
                        descriptors: vec![GattDescriptorWithHandle {
                            handle: AttHandle(4),
                            type_: descriptor_type(),
                            permissions: readable(),
                        }],
                    },
                    GattCharacteristicWithHandle {
                        handle: AttHandle(6),
                        type_: characteristic_type(),
                        permissions: readable(),
                        descriptors: vec![
                            GattDescriptorWithHandle {
                                handle: AttHandle(7),
                                type_: descriptor_type(),
                                permissions: writable(),
                            },
                            GattDescriptorWithHandle {
                                handle: AttHandle(8),
                                type_: descriptor_type(),
                                permissions: AttPermissions::new(true, true, false),
                            },
                        ],
                    },
                ],
            },
            DATASTORE(),
        )
        .unwrap();

    // act: get the attributes
    let attributes = gatt_db.get_att_database(CONN_ID()).list_attributes(&gatt_db);

    // assert: check the attributes are in the correct order
    assert_eq!(attributes.len(), 8);
    assert_eq!(attributes[0].type_, primary_service_declaration_uuid());
    assert_eq!(attributes[1].type_, characteristic_uuid());
    assert_eq!(attributes[2].type_, characteristic_type());
    assert_eq!(attributes[3].type_, descriptor_type());
    assert_eq!(attributes[4].type_, characteristic_uuid());
    assert_eq!(attributes[5].type_, characteristic_type());
    assert_eq!(attributes[6].type_, descriptor_type());
    assert_eq!(attributes[7].type_, descriptor_type());
    // assert: check the handles of the descriptors are correct
    assert_eq!(attributes[3].handle, AttHandle(4));
    assert_eq!(attributes[6].handle, AttHandle(7));
    assert_eq!(attributes[7].handle, AttHandle(8));
    // assert: check the permissions of the descriptors are correct
    assert_eq!(attributes[3].permissions, readable());
    assert_eq!(attributes[6].permissions, writable());
    assert_eq!(attributes[7].permissions, AttPermissions::new(true, true, false));
}

#[test]
fn test_multiple_datastores() {
    // arrange: create a database with two services backed by different
    // datastores
    let mut gatt_db = SharedBox::new(GattDatabase::new());
    let datastore_1 = DatastoreId(1);
    let datastore_2 = DatastoreId(2);
    gatt_db.value.add_service_with_handles(simple_service(1, 3), datastore_1).unwrap();
    gatt_db.value.add_service_with_handles(simple_service(4, 6), datastore_2).unwrap();
    let att_db = gatt_db.get_att_database(CONN_ID());

    // act: read from the second service's characteristic
    let characteristic_value = att_db.read_attribute(&gatt_db, AttHandle(6));

    // assert: exactly the second datastore is named; the first sees nothing
    assert_eq!(
        characteristic_value,
        Ok(AttReadResolution::Delegate(DatastoreReadRequest {
            datastore: datastore_2,
            conn_id: CONN_ID(),
            handle: AttHandle(6),
            backing: AttributeBackingType::Characteristic,
        }))
    );
}
