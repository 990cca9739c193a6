use vienna::ids::{new_uuid_text, validate_object_id};
use vienna::objectstore::{
    delete_command_line, delete_reply, get_command_line, get_reply, object_directory, object_path, parse_command, parse_delete_response,
    parse_get_response, parse_store_response, split_connection_string, store_command_line, store_reply, Command, DataStore,
    DataStoreError, ObjectStoreError, ObjectStoreServer, DEFAULT_PORT,
};
use vienna::text::line_content;

const ID: &str = "67e55044-10b1-426f-9247-bb680e5fe0c8";

#[test]
fn object_ids_are_lower_case_hyphenated_uuids() {
    assert!(validate_object_id(ID));
    assert!(!validate_object_id("67E55044-10B1-426F-9247-BB680E5FE0C8"));
    assert!(!validate_object_id("67e5504410b1426f9247bb680e5fe0c8"));
    assert!(!validate_object_id("not-an-id"));
    assert!(!validate_object_id(""));
    let fresh = new_uuid_text();
    assert!(validate_object_id(&fresh));
    assert_ne!(fresh, new_uuid_text());
}

#[test]
fn the_server_reads_each_request() {
    assert!(matches!(parse_command("STORE 11"), Ok(Some(Command::Store(11)))));
    assert!(matches!(parse_command("STORE +7"), Ok(Some(Command::Store(7)))));
    assert!(matches!(parse_command("STORE"), Ok(None)));
    assert!(matches!(parse_command("STORE -1"), Err(ObjectStoreError::Protocol)));
    assert!(matches!(parse_command("STORE 1x"), Err(ObjectStoreError::Protocol)));
    assert!(matches!(parse_command("STORE "), Err(ObjectStoreError::Protocol)));
    assert!(matches!(parse_command("STORE 99999999999999999999999"), Err(ObjectStoreError::Protocol)));
    assert!(matches!(parse_command(&format!("GET {ID}")), Ok(Some(Command::Get(id))) if id == ID));
    assert!(matches!(parse_command(&format!("DEL {ID}")), Ok(Some(Command::Delete(id))) if id == ID));
    assert!(matches!(parse_command("GET nope"), Ok(None)));
    assert!(matches!(parse_command(&format!("PUT {ID}")), Ok(None)));
    assert!(matches!(parse_command(&format!("get {ID}")), Ok(None)));
}

#[test]
fn requests_that_clients_send_are_read_back() {
    assert_eq!(store_command_line(42), "STORE 42");
    assert!(matches!(parse_command(&store_command_line(42)), Ok(Some(Command::Store(42)))));
    assert_eq!(get_command_line(ID), format!("GET {ID}"));
    assert!(matches!(parse_command(&get_command_line(ID)), Ok(Some(Command::Get(id))) if id == ID));
    assert!(matches!(parse_command(&delete_command_line(ID)), Ok(Some(Command::Delete(id))) if id == ID));
}

#[test]
fn clients_read_each_answer() {
    assert_eq!(store_reply(Some(ID.to_owned())), format!("OK {ID}"));
    assert_eq!(store_reply(None), "ERR");
    assert!(matches!(parse_store_response(&format!("OK {ID}")), Ok(Some(id)) if id == ID));
    assert!(matches!(parse_store_response("ERR"), Ok(None)));
    assert!(matches!(parse_store_response("OK nope"), Err(ObjectStoreError::Protocol)));
    assert!(matches!(parse_store_response(&format!("YES {ID}")), Err(ObjectStoreError::Protocol)));
    assert!(matches!(parse_store_response("OK"), Err(ObjectStoreError::Protocol)));

    assert_eq!(get_reply(Some(11)), "OK 11");
    assert_eq!(get_reply(None), "ERR");
    assert!(matches!(parse_get_response("OK 11"), Ok(Some(11))));
    assert!(matches!(parse_get_response("ERR"), Ok(None)));
    assert!(matches!(parse_get_response("OK eleven"), Err(ObjectStoreError::Protocol)));
    assert!(matches!(parse_get_response("NO 11"), Err(ObjectStoreError::Protocol)));

    assert_eq!(delete_reply(true), "OK");
    assert_eq!(delete_reply(false), "ERR");
    assert!(matches!(parse_delete_response("OK"), Ok(true)));
    assert!(matches!(parse_delete_response("ERR"), Ok(false)));
    assert!(matches!(parse_delete_response("MAYBE"), Err(ObjectStoreError::Protocol)));
}

#[test]
fn line_endings_are_stripped() {
    assert_eq!(line_content("STORE 5\r\n"), "STORE 5");
    assert_eq!(line_content("GET x\n"), "GET x");
    assert_eq!(line_content("plain"), "plain");
    assert_eq!(line_content("a\r\r\n\n"), "a");
    assert_eq!(line_content("a\n\r"), "a\n");
}

#[test]
fn connection_strings_name_a_host_and_port() {
    assert!(matches!(split_connection_string("localhost:5396", DEFAULT_PORT), Ok((h, 5396)) if h == "localhost"));
    assert!(matches!(split_connection_string("example.org", DEFAULT_PORT), Ok((h, 5396)) if h == "example.org"));
    assert!(matches!(split_connection_string("127.0.0.1:80", DEFAULT_PORT), Ok((h, 80)) if h == "127.0.0.1"));
    assert!(matches!(
        split_connection_string("host:99999", DEFAULT_PORT),
        Err(ObjectStoreError::InvalidConnectionString(s)) if s == "host:99999"
    ));
    assert!(matches!(split_connection_string("host:", DEFAULT_PORT), Err(ObjectStoreError::InvalidConnectionString(_))));
}

#[test]
fn objects_are_grouped_by_their_first_two_characters() {
    assert_eq!(object_directory(ID), "67");
}

#[test]
fn a_store_opens_only_on_a_directory() {
    let dir = std::path::PathBuf::from("objects");
    let store = match DataStore::open(dir.clone(), true) {
        Ok(store) => store,
        Err(_) => panic!("a directory holds the store"),
    };
    assert_eq!(store.root_directory(), &dir);
    let server = ObjectStoreServer::new(store);
    assert_eq!(server.data_store().root_directory(), &dir);
    assert!(matches!(DataStore::open(dir.clone(), false), Err(DataStoreError::InvalidRoot(p)) if p == dir));
}

#[test]
fn object_files_live_under_their_directory() {
    let root = std::path::PathBuf::from("objects");
    assert_eq!(object_path(&root, ID), root.join("67").join(ID));
}
