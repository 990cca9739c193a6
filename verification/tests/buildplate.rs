use vienna::buildplate::{
    check_metadata_version, default_world_settings, is_world_entry, required_world_file_names, select_world_files,
    world_settings, BuildplateError, WorldSettings,
};

fn entry(name: &str, bytes: &[u8]) -> (String, Vec<u8>) {
    (name.to_owned(), bytes.to_vec())
}

fn full_world() -> Vec<(String, Vec<u8>)> {
    let mut entries: Vec<(String, Vec<u8>)> =
        required_world_file_names().iter().enumerate().map(|(i, name)| (name.clone(), vec![i as u8])).collect();
    entries.push(entry("level.dat", b"ignored"));
    entries
}

#[test]
fn eight_world_files_are_required() {
    let names = required_world_file_names();
    assert_eq!(names.len(), 8);
    assert_eq!(names[0], "region/r.0.0.mca");
    assert_eq!(names[7], "entities/r.-1.-1.mca");
}

#[test]
fn only_metadata_and_required_files_are_kept() {
    assert!(is_world_entry("buildplate_metadata.json"));
    assert!(is_world_entry("region/r.-1.0.mca"));
    assert!(!is_world_entry("level.dat"));
    assert!(!is_world_entry("region/r.1.1.mca"));
}

#[test]
fn a_complete_world_gives_its_files_in_order() {
    let mut entries = full_world();
    entries.push(entry("buildplate_metadata.json", b"{}"));
    entries.push(entry("region/r.0.0.mca", b"later"));
    let files = match select_world_files(&entries) {
        Ok(files) => files,
        Err(_) => panic!("every required file is there"),
    };
    assert_eq!(files.metadata, Some(b"{}".to_vec()));
    assert_eq!(files.required.len(), 8);
    assert_eq!(files.required[0], entry("region/r.0.0.mca", b"later"));
    assert_eq!(files.required[5], entry("entities/r.0.-1.mca", &[5]));
}

#[test]
fn the_first_missing_required_file_is_reported() {
    let entries: Vec<(String, Vec<u8>)> =
        full_world().into_iter().filter(|(name, _)| name != "region/r.-1.0.mca" && name != "entities/r.0.0.mca").collect();
    match select_world_files(&entries) {
        Err(BuildplateError::MissingRequiredEntry(name)) => assert_eq!(name, "region/r.-1.0.mca"),
        _ => panic!("a required file is missing"),
    }
}

#[test]
fn world_settings_default_and_are_checked() {
    assert_eq!(default_world_settings(), WorldSettings { size: 16, offset: 63, night: false });
    assert!(matches!(world_settings(None), Ok(WorldSettings { size: 16, offset: 63, night: false })));
    let small = WorldSettings { size: 8, offset: 1, night: true };
    assert!(matches!(world_settings(Some(small)), Ok(s) if s == small));
    assert!(matches!(world_settings(Some(WorldSettings { size: 12, offset: 0, night: false })), Err(BuildplateError::InvalidSize(12))));
    assert!(check_metadata_version(1).is_ok());
    assert!(matches!(check_metadata_version(2), Err(BuildplateError::UnsupportedMetadataVersion(2))));
}
