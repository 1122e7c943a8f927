use resource_sync::metadata::{parse_metadata, serialize_metadata, u64_to_string, MetaMap};
use resource_sync::name::Name;
use resource_sync::resource::{Error, Manager, Metadata, Type};

#[test]
fn name_normalizes_on_construction() {
    let n = Name::new("Core:Door-1!", 3);
    assert_eq!(n.id, "core:door1".to_string());
    assert_eq!(n.package, 3);
    assert_eq!(n, Name::new("core:door1", 3));
}

#[test]
fn type_extensions() {
    assert_eq!(Type::Lua.get_extension(), "lua");
    assert_eq!(Type::Unknown.get_extension(), "what");
    assert_eq!(Type::from_extension("lua"), Type::Lua);
    assert_eq!(Type::from_extension("json"), Type::Unknown);
    assert_eq!(Type::from_extension(""), Type::Unknown);
}

#[test]
fn new_store_scans_packages() {
    let rm = Manager::new("gamedata", vec!["Core".to_string(), "extra".to_string()]);
    assert_eq!(rm.packages().len(), 2);
    assert_eq!(rm.get_package(0).name, "core".to_string());
    assert_eq!(rm.get_package(0).path, "gamedata/Core".to_string());
    assert_eq!(rm.get_package(1).name, "extra".to_string());
    assert_eq!(rm.package_name_to_idx("CORE"), Some(0));
    assert_eq!(rm.package_name_to_idx("extra"), Some(1));
    assert_eq!(rm.package_name_to_idx("nope"), None);
    assert_eq!(rm.resources().len(), 0);
}

#[test]
fn create_resource_round_trip() {
    let mut rm = Manager::new("cache", Vec::new());
    let pidx = rm.create_package("core".to_string());
    assert_eq!(pidx, 0);
    let name = Name::new("door", pidx);
    let bytes = vec![7u8, 1, 2];
    let r = rm.create_resource(name.clone(), Type::Unknown, 7, 1, bytes.clone());
    assert!(r.is_ok());

    let by_id = rm.get_resource(1).expect("resource by session id");
    assert_eq!(*by_id.get_raw_data(), bytes);
    assert_eq!(by_id.get_hash(), 7);
    assert_eq!(by_id.get_session_id(), 1);
    assert_eq!(by_id.get_type(), Type::Unknown);
    assert_eq!(*by_id.get_path(), "cache/core/door.what".to_string());
    assert_eq!(by_id.get_name(), &name);

    let by_name = rm.get_resource_with_name(&name).expect("resource by name");
    assert_eq!(*by_name.get_raw_data(), bytes);
    assert_eq!(by_name.get_session_id(), 1);
}

#[test]
fn duplicate_name_is_refused_without_mutation() {
    let mut rm = Manager::new("cache", Vec::new());
    let pidx = rm.create_package("core".to_string());
    let name = Name::new("door", pidx);
    rm.create_resource(name.clone(), Type::Unknown, 7, 1, vec![1]).unwrap();
    let before_len = rm.resources().len();

    let second = rm.create_resource(name.clone(), Type::Lua, 9, 2, vec![2]);
    assert!(matches!(second, Err(Error::ResourceWithNameAlreadyExists)));
    assert_eq!(rm.resources().len(), before_len);
    // the first registration is untouched
    let kept = rm.get_resource_with_name(&name).unwrap();
    assert_eq!(kept.get_hash(), 7);
    assert_eq!(*kept.get_raw_data(), vec![1]);
    assert!(rm.get_resource(2).is_none());
}

#[test]
fn explicit_id_advances_allocator() {
    let mut rm = Manager::new("cache", Vec::new());
    let pidx = rm.create_package("core".to_string());
    rm.create_resource(Name::new("a", pidx), Type::Unknown, 1, 5, vec![1]).unwrap();
    // the next automatically allocated id must be greater than 5
    rm.load_package(pidx, vec![("cache/core/b.lua".to_string(), vec![2u8])]).unwrap();
    assert!(rm.get_resource(6).is_some());
    assert_eq!(rm.get_resource(6).unwrap().get_name(), &Name::new("b", pidx));
}

#[test]
fn session_ids_unique_across_loads() {
    let mut rm = Manager::new("gamedata", vec!["core".to_string()]);
    rm.load_package(
        0,
        vec![
            ("gamedata/core/a.lua".to_string(), vec![1u8]),
            ("gamedata/core/b.lua".to_string(), vec![2u8]),
            ("gamedata/core/c.what".to_string(), vec![3u8]),
        ],
    )
    .unwrap();
    let ids: Vec<u16> = rm.resources().iter().map(|r| r.get_session_id()).collect();
    assert_eq!(ids, vec![1, 2, 3]);
}

#[test]
fn load_package_skips_reserved_files() {
    let mut rm = Manager::new("gamedata", vec!["core".to_string()]);
    let r = rm.load_package(
        0,
        vec![
            ("gamedata/core/_metadata.json".to_string(), vec![b'{', b'}']),
            ("gamedata/core/_ignore.txt".to_string(), vec![0u8]),
        ],
    );
    assert!(r.is_ok());
    assert_eq!(rm.resources().len(), 0);
}

#[test]
fn load_package_invalid_index() {
    let mut rm = Manager::new("gamedata", Vec::new());
    let r = rm.load_package(3, Vec::new());
    assert!(matches!(r, Err(Error::InvalidPackage)));
}

#[test]
fn check_resource_wrong_version_registers_nothing() {
    let mut rm = Manager::new("cache", vec!["core".to_string()]);
    assert!(rm.needs_scan(0));
    rm.scan_resources(0, "{\"door\":7}", vec!["cache/core/door.what".to_string()]).unwrap();

    let r = rm.check_resource(&Name::new("door", 0), 8);
    assert!(matches!(r, Err(Error::IncorrectVersion)));
    assert_eq!(rm.resources().len(), 0);

    // an id the sidecar does not record at all fails the same way
    let r = rm.check_resource(&Name::new("window", 0), 1);
    assert!(matches!(r, Err(Error::IncorrectVersion)));
}

#[test]
fn check_resource_matching_version_resolves_path() {
    let mut rm = Manager::new("cache", vec!["core".to_string()]);
    rm.scan_resources(0, "{\"door\":7}", vec!["cache/core/door.what".to_string()]).unwrap();
    let r = rm.check_resource(&Name::new("door", 0), 7);
    assert_eq!(r.unwrap(), "cache/core/door.what".to_string());
}

#[test]
fn check_resource_errors() {
    let mut rm = Manager::new("cache", Vec::new());
    let r = rm.check_resource(&Name::new("door", 0), 7);
    assert!(matches!(r, Err(Error::InvalidPackage)));

    // the sidecar records the version but the scan found no such file
    let mut rm2 = Manager::new("cache", vec!["core".to_string()]);
    rm2.scan_resources(0, "{\"door\":7}", Vec::new()).unwrap();
    let r = rm2.check_resource(&Name::new("door", 0), 7);
    assert!(matches!(r, Err(Error::ResourceDoesNotExist)));

    // a package created fresh starts from an empty version map, so no
    // version matches yet
    let pidx = rm.create_package("core".to_string());
    let r = rm.check_resource(&Name::new("door", pidx), 7);
    assert!(matches!(r, Err(Error::IncorrectVersion)));
}

#[test]
fn scan_rejects_malformed_sidecar() {
    let mut rm = Manager::new("cache", vec!["core".to_string()]);
    let r = rm.scan_resources(0, "{\"door\":", Vec::new());
    assert!(matches!(r, Err(Error::Json)));
    assert!(rm.needs_scan(0));
}

#[test]
fn new_resource_ignores_underscore_files() {
    let mut rm = Manager::new("gamedata", vec!["core".to_string()]);
    let r = rm.new_resource("gamedata/core/_metadata.json".to_string(), 0, 1, 1, vec![1]);
    assert!(matches!(r, Err(Error::Ignored)));
    assert_eq!(rm.resources().len(), 0);
}

#[test]
fn clean_drops_indices_keeps_records() {
    let mut rm = Manager::new("cache", Vec::new());
    let pidx = rm.create_package("core".to_string());
    let name = Name::new("door", pidx);
    rm.create_resource(name.clone(), Type::Unknown, 7, 1, vec![7]).unwrap();
    rm.clean();
    assert_eq!(rm.packages().len(), 0);
    assert!(rm.get_resource_with_name(&name).is_none());
    // lookup by session id still works on the kept records
    assert!(rm.get_resource(1).is_some());
    assert_eq!(rm.resources().len(), 1);
}

#[test]
fn metadata_codec_round_trip() {
    let mut m = MetaMap::new();
    m.set("door", 7);
    m.set("window", 12345678901234567890);
    let text = serialize_metadata(&m);
    assert_eq!(text, "{\"door\":7,\"window\":12345678901234567890}".to_string());

    let back = parse_metadata(&text).expect("round trip parses");
    assert_eq!(back.get("door"), Some(7));
    assert_eq!(back.get("window"), Some(12345678901234567890));
    assert_eq!(back.len(), 2);
}

#[test]
fn metadata_parser_accepts_whitespace_and_overwrites() {
    let m = parse_metadata(" { \"a\" : 1 , \"b\" : 2 , \"a\" : 3 } ").unwrap();
    assert_eq!(m.get("a"), Some(3));
    assert_eq!(m.get("b"), Some(2));
    assert_eq!(m.len(), 2);

    let empty = parse_metadata("{}").unwrap();
    assert_eq!(empty.len(), 0);
    assert_eq!(serialize_metadata(&empty), "{}".to_string());
}

#[test]
fn metadata_parser_rejects_malformed_documents() {
    assert!(parse_metadata("").is_none());
    assert!(parse_metadata("{").is_none());
    assert!(parse_metadata("{\"a\":}").is_none());
    assert!(parse_metadata("{\"a\" 1}").is_none());
    assert!(parse_metadata("{\"a\":1,}").is_none());
    assert!(parse_metadata("{\"a\":1} x").is_none());
    // a value past the 64-bit range is malformed
    assert!(parse_metadata("{\"a\":99999999999999999999}").is_none());
    // escapes are not part of the format
    assert!(parse_metadata("{\"a\\b\":1}").is_none());
}

#[test]
fn metadata_overwrite_updates_in_place() {
    let mut m = MetaMap::new();
    m.set("a", 1);
    m.set("b", 2);
    m.set("a", 9);
    assert_eq!(m.get("a"), Some(9));
    assert_eq!(m.len(), 2);
    assert_eq!(serialize_metadata(&m), "{\"a\":9,\"b\":2}".to_string());
}

#[test]
fn number_rendering() {
    assert_eq!(u64_to_string(0), "0".to_string());
    assert_eq!(u64_to_string(7), "7".to_string());
    assert_eq!(u64_to_string(18446744073709551615), "18446744073709551615".to_string());
}

#[test]
fn create_resource_starts_fresh_metadata_when_none_loaded() {
    let mut rm = Manager::new("cache", vec!["core".to_string()]);
    // the package was never scanned, so no sidecar map is loaded
    rm.create_resource(Name::new("door", 0), Type::Lua, 5, 2, vec![9]).unwrap();
    match &rm.get_package(0).metadata {
        Metadata::Loaded(m) => {
            assert_eq!(m.get("door"), Some(5));
            assert_eq!(m.len(), 1);
        },
        Metadata::NotLoaded => panic!("metadata must be loaded after create_resource"),
    }
    assert_eq!(*rm.get_resource(2).unwrap().get_path(), "cache/core/door.lua".to_string());
}
