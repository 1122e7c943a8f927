use resource_sync::name::Name;
use resource_sync::network_shared::{CMessage, Error, SMessage};
use resource_sync::protocol::{
    expect_ready, expect_request, goodbye_message, handle_resource, handle_welcome,
    manifest_message, ready_message, request_message, resource_messages, welcome_message,
    MissingEntry, MissingMap,
};
use resource_sync::resource::{Manager, Metadata, Type};
use resource_sync::metadata::serialize_metadata;

#[test]
fn message_accessors() {
    assert_eq!(
        SMessage::Welcome(true, "hi".to_string()).as_welcome(),
        Some((true, "hi".to_string()))
    );
    assert_eq!(SMessage::Chat("x".to_string()).as_welcome(), None);
    assert_eq!(
        SMessage::Resource(3, Type::Lua, vec![1]).as_resource(),
        Some((3, Type::Lua, vec![1]))
    );
    assert_eq!(SMessage::Goodbye("x".to_string()).as_resource(), None);
    assert_eq!(
        SMessage::CheckResources(Vec::new()).as_check_resources(),
        Some(Vec::new())
    );
    assert_eq!(SMessage::Chat("x".to_string()).as_check_resources(), None);
    assert_eq!(
        CMessage::RequestResources(vec![1, 2]).as_request_resources(),
        Some(vec![1, 2])
    );
    assert_eq!(CMessage::Ready.as_request_resources(), None);
    assert!(CMessage::Ready.is_ready());
    assert!(!CMessage::Goodbye("x".to_string()).is_ready());
}

#[test]
fn server_step_messages() {
    assert_eq!(welcome_message(), SMessage::Welcome(true, "howdy".to_string()));
    assert_eq!(expect_request(CMessage::RequestResources(vec![4])), Ok(vec![4]));
    assert!(matches!(expect_request(CMessage::Ready), Err(Error::WrongMessage)));
    assert_eq!(expect_ready(CMessage::Ready), Ok(()));
    assert!(matches!(
        expect_ready(CMessage::Goodbye("bye".to_string())),
        Err(Error::Rejected)
    ));
}

#[test]
fn client_judges_welcome() {
    assert_eq!(
        handle_welcome(SMessage::Welcome(true, "hi".to_string())),
        Ok("hi".to_string())
    );
    assert!(matches!(
        handle_welcome(SMessage::Welcome(false, "full".to_string())),
        Err(Error::Rejected)
    ));
    assert!(matches!(
        handle_welcome(SMessage::Chat("hey".to_string())),
        Err(Error::WrongMessage)
    ));
}

#[test]
fn unknown_request_is_protocol_error() {
    let mut rm = Manager::new("gamedata", vec!["core".to_string()]);
    rm.load_package(0, vec![("gamedata/core/door.what".to_string(), vec![7u8])])
        .unwrap();
    assert!(matches!(
        resource_messages(&rm, &vec![9]),
        Err(Error::WrongMessage)
    ));
}

#[test]
fn missing_map_tracks_pending_ids() {
    let mut missing = MissingMap::new();
    assert!(missing.is_empty());
    missing.insert(
        1,
        MissingEntry { package: "core".to_string(), id: "door".to_string(), version: 7 },
    );
    assert_eq!(missing.len(), 1);

    // a body nobody asked for is a protocol error and changes nothing
    let r = handle_resource(SMessage::Resource(2, Type::Lua, vec![0]), &mut missing);
    assert!(matches!(r, Err(Error::WrongMessage)));
    assert_eq!(missing.len(), 1);

    // a non-resource message in the body stream is a protocol error
    let r = handle_resource(SMessage::Chat("hi".to_string()), &mut missing);
    assert!(matches!(r, Err(Error::WrongMessage)));

    // the pending body is taken once...
    let r = handle_resource(SMessage::Resource(1, Type::Unknown, vec![7]), &mut missing);
    let (id, ty, data, entry) = r.unwrap();
    assert_eq!(id, 1);
    assert_eq!(ty, Type::Unknown);
    assert_eq!(data, vec![7]);
    assert_eq!(entry.package, "core".to_string());
    assert_eq!(entry.id, "door".to_string());
    assert_eq!(entry.version, 7);
    assert!(missing.is_empty());

    // ...and a duplicate arrival is a protocol error
    let r = handle_resource(SMessage::Resource(1, Type::Unknown, vec![7]), &mut missing);
    assert!(matches!(r, Err(Error::WrongMessage)));
}

#[test]
fn sync_scenario() {
    // Server side: one package holding one resource whose bytes hash to 7,
    // loaded under session id 1.
    let mut server = Manager::new("gamedata", vec!["core".to_string()]);
    server
        .load_package(0, vec![("gamedata/core/door.what".to_string(), vec![7u8])])
        .unwrap();
    let advertised = manifest_message(&server);
    assert_eq!(
        advertised,
        SMessage::CheckResources(vec![("core".to_string(), "door".to_string(), 7, 1)])
    );

    // Client side: an empty cache, no core package at all.
    let mut client = Manager::new("cache", Vec::new());
    assert!(handle_welcome(SMessage::Welcome(true, "hi".to_string())).is_ok());

    let manifest = advertised.as_check_resources().unwrap();
    let mut missing = MissingMap::new();
    let mut wanted: Vec<u16> = Vec::new();
    for (package, id, version, session_id) in manifest.into_iter() {
        let have = match client.package_name_to_idx(&package) {
            Some(idx) => client.check_resource(&Name::new(&id, idx), version).is_ok(),
            None => false,
        };
        if !have {
            wanted.push(session_id);
            missing.insert(session_id, MissingEntry { package, id, version });
        }
    }
    let request = request_message(wanted);
    assert_eq!(request, CMessage::RequestResources(vec![1]));

    // Server streams the requested body.
    let ids = expect_request(request).unwrap();
    let bodies = resource_messages(&server, &ids).unwrap();
    assert_eq!(bodies, vec![SMessage::Resource(1, Type::Unknown, vec![7u8])]);

    // Client persists it, creating the package on demand.
    let mut received = Vec::new();
    for body in bodies.into_iter() {
        let (sesh, ty, data, entry) = handle_resource(body, &mut missing).unwrap();
        let pidx = match client.package_name_to_idx(&entry.package) {
            Some(idx) => idx,
            None => client.create_package(entry.package),
        };
        client
            .create_resource(Name::new(&entry.id, pidx), ty, entry.version, sesh, data)
            .unwrap();
        received.push(sesh);
    }
    assert!(missing.is_empty());
    assert_eq!(ready_message(), CMessage::Ready);
    assert_eq!(goodbye_message(), CMessage::Goodbye("thx".to_string()));
    assert_eq!(received, vec![1]);

    // What the first connection leaves on disk: the resource file and the
    // sidecar text recording door at version 7.
    let stored = client.get_resource(1).unwrap();
    assert_eq!(*stored.get_path(), "cache/core/door.what".to_string());
    assert_eq!(*stored.get_raw_data(), vec![7u8]);
    let sidecar = match &client.get_package(0).metadata {
        Metadata::Loaded(m) => serialize_metadata(m),
        Metadata::NotLoaded => panic!("metadata must be loaded"),
    };
    assert_eq!(sidecar, "{\"door\":7}".to_string());

    // Second connection from the same client: the package directory and the
    // sidecar now exist, so the manifest entry is already satisfied and the
    // want-list comes out empty.
    let mut client2 = Manager::new("cache", vec!["core".to_string()]);
    let manifest = manifest_message(&server).as_check_resources().unwrap();
    let mut wanted2: Vec<u16> = Vec::new();
    for (package, id, version, session_id) in manifest.into_iter() {
        let have = match client2.package_name_to_idx(&package) {
            Some(idx) => {
                if client2.needs_scan(idx) {
                    let entries = vec![
                        "cache/core/door.what".to_string(),
                        "cache/core/_metadata.json".to_string(),
                    ];
                    client2.scan_resources(idx, &sidecar, entries).unwrap();
                }
                match client2.check_resource(&Name::new(&id, idx), version) {
                    Ok(path) => {
                        // the driver would read the file here and register it
                        client2.new_resource(path, idx, version, session_id, vec![7u8]).is_ok()
                    },
                    Err(_) => false,
                }
            },
            None => false,
        };
        if !have {
            wanted2.push(session_id);
        }
    }
    assert_eq!(request_message(wanted2), CMessage::RequestResources(Vec::new()));
}
