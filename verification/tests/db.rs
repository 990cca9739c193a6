use vienna::db::{bumped_value, record_from_row, EarthDb, Record, UNWRITTEN_VERSION};

#[test]
fn unwritten_objects_read_as_their_default() {
    assert_eq!(record_from_row::<i32>(None, 0), Record { value: 0, version: UNWRITTEN_VERSION });
    assert_eq!(record_from_row(Some((7, 3)), 0), Record { value: 7, version: 3 });
}

#[test]
fn bumps_keep_written_values() {
    assert_eq!(bumped_value(Record { value: 9, version: 1 }, 0), 0);
    assert_eq!(bumped_value(Record { value: 9, version: 2 }, 0), 9);
}

#[test]
fn the_database_remembers_its_path() {
    let path = std::path::PathBuf::from("earth.db");
    let db = EarthDb::at(path.clone());
    assert_eq!(db.connection_string(), &path);
}
