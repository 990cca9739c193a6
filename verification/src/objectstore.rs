//! The object store: where objects live under the data root, and the line
//! protocol that its server and clients speak (`STORE n`, `GET id`, `DEL id`,
//! answered by `OK ...` or `ERR`).
use crate::paths::{path_join, spec_path_join};
use crate::ids::{is_hyphenated_uuid_text, option_string_view, validate_object_id};
use crate::text::{
    decimal_digits, decimal_u64, lemma_decimal_digits, lemma_first_index, parse_unsigned, push_text,
    spec_first_index, spec_parse_unsigned, spec_split_once, split_once, string_from_chars, chars_of,
};
use vstd::prelude::*;

verus! {

/// The port a client connects to when its connection string names none.
pub const DEFAULT_PORT: u16 = 5396;

pub enum DataStoreError {
    InvalidRoot(std::path::PathBuf),
    Io(std::io::Error),
}

pub enum ObjectStoreError {
    Io(std::io::Error),
    DataStore(DataStoreError),
    Protocol,
    InvalidConnectionString(String),
}

/// The objects kept as files under one root directory.
pub struct DataStore {
    root_directory: std::path::PathBuf,
}

impl DataStore {
    pub closed spec fn root(&self) -> std::path::PathBuf {
        self.root_directory
    }

    /// Opens the store kept under `root_directory`, given whether that path
    /// names a directory: only a directory can hold the store.
    pub fn open(root_directory: std::path::PathBuf, is_dir: bool) -> (result: Result<DataStore, DataStoreError>)
        ensures
            match result {
                Ok(store) => is_dir && store.root() == root_directory,
                Err(DataStoreError::InvalidRoot(path)) => !is_dir && path == root_directory,
                Err(_) => false,
            },
    {
        if !is_dir {
            return Err(DataStoreError::InvalidRoot(root_directory));
        }
        DataStore { root_directory }.into_ok()
    }

    fn into_ok(self) -> (result: Result<DataStore, DataStoreError>)
        ensures
            result == Ok::<DataStore, DataStoreError>(self),
    {
        Ok(self)
    }

    pub fn root_directory(&self) -> (root: &std::path::PathBuf)
        ensures
            *root == self.root(),
    {
        &self.root_directory
    }
}

/// The object store server, serving one data store.
pub struct ObjectStoreServer {
    data_store: DataStore,
}

impl ObjectStoreServer {
    pub closed spec fn store(&self) -> DataStore {
        self.data_store
    }

    pub fn new(data_store: DataStore) -> (server: ObjectStoreServer)
        ensures
            server.store() == data_store,
    {
        ObjectStoreServer { data_store }
    }

    pub fn data_store(&self) -> (store: &DataStore)
        ensures
            *store == self.store(),
    {
        &self.data_store
    }
}

/// The directory under the root that holds object `id`: its first two
/// characters.
pub fn object_directory(id: &str) -> (directory: String)
    requires
        is_hyphenated_uuid_text(id@),
    ensures
        directory@ == id@.take(2),
{
    let chars = chars_of(id);
    let directory = string_from_chars(&chars, 0, 2);
    proof {
        assert(directory@ =~= id@.take(2));
    }
    directory
}

/// The file of object `id`: `root/<first two characters of id>/<id>`.
pub fn object_path(root_directory: &std::path::PathBuf, id: &str) -> (path: std::path::PathBuf)
    requires
        is_hyphenated_uuid_text(id@),
    ensures
        path == spec_path_join(spec_path_join(*root_directory, id@.take(2)), id@),
{
    let directory = object_directory(id);
    let parent = path_join(root_directory, directory.as_str());
    path_join(&parent, id)
}

pub open spec fn store_verb() -> Seq<char> {
    seq!['S', 'T', 'O', 'R', 'E']
}

pub open spec fn get_verb() -> Seq<char> {
    seq!['G', 'E', 'T']
}

pub open spec fn delete_verb() -> Seq<char> {
    seq!['D', 'E', 'L']
}

pub open spec fn ok_text() -> Seq<char> {
    seq!['O', 'K']
}

pub open spec fn err_text() -> Seq<char> {
    seq!['E', 'R', 'R']
}

/// A verb, a space, and what follows it.
pub open spec fn spaced(verb: Seq<char>, tail: Seq<char>) -> Seq<char> {
    verb + seq![' '] + tail
}

/// A request from a client, as the server reads it.
pub enum Command {
    Store(usize),
    Get(String),
    Delete(String),
}

pub enum CommandView {
    Store(int),
    Get(Seq<char>),
    Delete(Seq<char>),
}

impl View for Command {
    type V = CommandView;

    open spec fn view(&self) -> CommandView {
        match self {
            Command::Store(length) => CommandView::Store(*length as int),
            Command::Get(id) => CommandView::Get(id@),
            Command::Delete(id) => CommandView::Delete(id@),
        }
    }
}

pub open spec fn command_option_view(command: Option<Command>) -> Option<CommandView> {
    match command {
        Some(c) => Some(c@),
        None => None,
    }
}

/// The request that a line holds, if it is well formed: a verb and, after
/// one space, the length of the data that follows for `STORE`, or an object
/// id for `GET` and `DEL`.
pub open spec fn spec_parse_command(line: Seq<char>) -> Option<CommandView> {
    match spec_split_once(line, ' ') {
        Some((verb, tail)) => if verb == store_verb() {
            match spec_parse_unsigned(tail, usize::MAX as int) {
                Some(length) => Some(CommandView::Store(length)),
                None => None,
            }
        } else if verb == get_verb() {
            if is_hyphenated_uuid_text(tail) {
                Some(CommandView::Get(tail))
            } else {
                None
            }
        } else if verb == delete_verb() {
            if is_hyphenated_uuid_text(tail) {
                Some(CommandView::Delete(tail))
            } else {
                None
            }
        } else {
            None
        },
        None => None,
    }
}

/// Whether `text` is `literal`, character for character.
fn text_is(text: &String, literal: &str) -> (same: bool)
    ensures
        same == (text@ == literal@),
{
    *text == literal.to_owned()
}

/// A `STORE` request whose length is not a number that fits in `usize`: a
/// protocol error, where other malformed lines are merely refused.
pub open spec fn spec_bad_store_length(line: Seq<char>) -> bool {
    match spec_split_once(line, ' ') {
        Some((verb, tail)) => verb == store_verb() && spec_parse_unsigned(tail, usize::MAX as int) is None,
        None => false,
    }
}

/// Reads a request line: `Ok(None)` when the line is malformed, and a
/// protocol error when a `STORE` request's length is not a number; either
/// ends the connection.
pub fn parse_command(line: &str) -> (command: Result<Option<Command>, ObjectStoreError>)
    ensures
        match command {
            Ok(c) => !spec_bad_store_length(line@) && command_option_view(c) == spec_parse_command(line@),
            Err(error) => spec_bad_store_length(line@) && error is Protocol,
        },
{
    proof {
        reveal_strlit("STORE");
        assert("STORE"@ =~= store_verb());
        reveal_strlit("GET");
        assert("GET"@ =~= get_verb());
        reveal_strlit("DEL");
        assert("DEL"@ =~= delete_verb());
    }
    match split_once(line, ' ') {
        Some((verb, tail)) => {
            if text_is(&verb, "STORE") {
                match parse_unsigned(tail.as_str(), usize::MAX as u64) {
                    Some(length) => Ok(Some(Command::Store(length as usize))),
                    None => Err(ObjectStoreError::Protocol),
                }
            } else if text_is(&verb, "GET") {
                if validate_object_id(tail.as_str()) {
                    Ok(Some(Command::Get(tail)))
                } else {
                    Ok(None)
                }
            } else if text_is(&verb, "DEL") {
                if validate_object_id(tail.as_str()) {
                    Ok(Some(Command::Delete(tail)))
                } else {
                    Ok(None)
                }
            } else {
                Ok(None)
            }
        },
        None => Ok(None),
    }
}

/// The text of a status followed, after one space, by more text.
pub open spec fn ok_line(rest: Seq<char>) -> Seq<char> {
    spaced(ok_text(), rest)
}

fn ok_with(rest: &str) -> (line: String)
    ensures
        line@ == ok_line(rest@),
{
    proof {
        reveal_strlit("OK ");
    }
    let mut line = String::new();
    push_text(&mut line, "OK ");
    push_text(&mut line, rest);
    proof {
        assert(line@ =~= ok_line(rest@));
    }
    line
}

fn err_reply() -> (line: String)
    ensures
        line@ == err_text(),
{
    proof {
        reveal_strlit("ERR");
        assert("ERR"@ =~= err_text());
    }
    "ERR".to_owned()
}

/// The server's answer to `STORE`: the new object's id, or `ERR` when it
/// could not be stored.
pub fn store_reply(stored: Option<String>) -> (line: String)
    ensures
        line@ == match option_string_view(stored) {
            Some(id) => ok_line(id),
            None => err_text(),
        },
{
    match stored {
        Some(id) => ok_with(id.as_str()),
        None => err_reply(),
    }
}

/// The server's answer to `GET`: the length of the data that follows it, or
/// `ERR` when there is no such object or it could not be read.
pub fn get_reply(found_length: Option<usize>) -> (line: String)
    ensures
        line@ == match found_length {
            Some(length) => ok_line(decimal_digits(length as nat)),
            None => err_text(),
        },
{
    match found_length {
        Some(length) => {
            let digits = decimal_u64(length as u64);
            ok_with(digits.as_str())
        },
        None => err_reply(),
    }
}

/// The server's answer to `DEL`: `OK` when the delete went through, whether
/// or not the object existed, and `ERR` when it failed.
pub fn delete_reply(succeeded: bool) -> (line: String)
    ensures
        line@ == if succeeded {
            ok_text()
        } else {
            err_text()
        },
{
    if succeeded {
        proof {
            reveal_strlit("OK");
            assert("OK"@ =~= ok_text());
        }
        "OK".to_owned()
    } else {
        err_reply()
    }
}

fn verb_line(verb: &str, tail: &str) -> (line: String)
    ensures
        line@ == spaced(verb@, tail@),
{
    proof {
        reveal_strlit(" ");
    }
    let mut line = String::new();
    push_text(&mut line, verb);
    push_text(&mut line, " ");
    push_text(&mut line, tail);
    proof {
        assert(line@ =~= spaced(verb@, tail@));
    }
    line
}

/// The request a client sends to store `length` bytes, which follow it.
pub fn store_command_line(length: usize) -> (line: String)
    ensures
        line@ == spaced(store_verb(), decimal_digits(length as nat)),
{
    proof {
        reveal_strlit("STORE");
        assert("STORE"@ =~= store_verb());
    }
    let digits = decimal_u64(length as u64);
    verb_line("STORE", digits.as_str())
}

/// The request a client sends to read object `id`.
pub fn get_command_line(id: &str) -> (line: String)
    ensures
        line@ == spaced(get_verb(), id@),
{
    proof {
        reveal_strlit("GET");
        assert("GET"@ =~= get_verb());
    }
    verb_line("GET", id)
}

/// The request a client sends to delete object `id`.
pub fn delete_command_line(id: &str) -> (line: String)
    ensures
        line@ == spaced(delete_verb(), id@),
{
    proof {
        reveal_strlit("DEL");
        assert("DEL"@ =~= delete_verb());
    }
    verb_line("DEL", id)
}

/// What a client makes of the answer to `STORE`: `Some(Some(id))` for a
/// stored object, `Some(None)` for `ERR`, `None` for anything else.
pub open spec fn spec_store_response(response: Seq<char>) -> Option<Option<Seq<char>>> {
    if response == err_text() {
        Some(None)
    } else {
        match spec_split_once(response, ' ') {
            Some((status, id)) => if status == ok_text() && is_hyphenated_uuid_text(id) {
                Some(Some(id))
            } else {
                None
            },
            None => None,
        }
    }
}

/// Reads the answer to `STORE`.
pub fn parse_store_response(response: &str) -> (result: Result<Option<String>, ObjectStoreError>)
    ensures
        match result {
            Ok(stored) => spec_store_response(response@) == Some(option_string_view(stored)),
            Err(error) => spec_store_response(response@) is None && error is Protocol,
        },
{
    proof {
        reveal_strlit("ERR");
        assert("ERR"@ =~= err_text());
        reveal_strlit("OK");
        assert("OK"@ =~= ok_text());
    }
    if text_is(&response.to_owned(), "ERR") {
        return Ok(None);
    }
    match split_once(response, ' ') {
        Some((status, id)) => {
            if !text_is(&status, "OK") || !validate_object_id(id.as_str()) {
                return Err(ObjectStoreError::Protocol);
            }
            Ok(Some(id))
        },
        None => Err(ObjectStoreError::Protocol),
    }
}

/// What a client makes of the answer to `GET`: `Some(Some(n))` when `n`
/// bytes of data follow, `Some(None)` for `ERR`, `None` for anything else.
pub open spec fn spec_get_response(response: Seq<char>) -> Option<Option<int>> {
    if response == err_text() {
        Some(None)
    } else {
        match spec_split_once(response, ' ') {
            Some((status, length)) => if status == ok_text() {
                match spec_parse_unsigned(length, usize::MAX as int) {
                    Some(n) => Some(Some(n)),
                    None => None,
                }
            } else {
                None
            },
            None => None,
        }
    }
}

/// Reads the answer to `GET`: the length of the data that follows it.
pub fn parse_get_response(response: &str) -> (result: Result<Option<usize>, ObjectStoreError>)
    ensures
        match result {
            Ok(Some(length)) => spec_get_response(response@) == Some(Some(length as int)),
            Ok(None) => spec_get_response(response@) == Some(None::<int>),
            Err(error) => spec_get_response(response@) is None && error is Protocol,
        },
{
    proof {
        reveal_strlit("ERR");
        assert("ERR"@ =~= err_text());
        reveal_strlit("OK");
        assert("OK"@ =~= ok_text());
    }
    if text_is(&response.to_owned(), "ERR") {
        return Ok(None);
    }
    match split_once(response, ' ') {
        Some((status, length)) => {
            if !text_is(&status, "OK") {
                return Err(ObjectStoreError::Protocol);
            }
            match parse_unsigned(length.as_str(), usize::MAX as u64) {
                Some(n) => Ok(Some(n as usize)),
                None => Err(ObjectStoreError::Protocol),
            }
        },
        None => Err(ObjectStoreError::Protocol),
    }
}

/// What a client makes of the answer to `DEL`.
pub open spec fn spec_delete_response(response: Seq<char>) -> Option<bool> {
    if response == ok_text() {
        Some(true)
    } else if response == err_text() {
        Some(false)
    } else {
        None
    }
}

/// Reads the answer to `DEL`: whether the delete went through.
pub fn parse_delete_response(response: &str) -> (result: Result<bool, ObjectStoreError>)
    ensures
        match result {
            Ok(deleted) => spec_delete_response(response@) == Some(deleted),
            Err(error) => spec_delete_response(response@) is None && error is Protocol,
        },
{
    proof {
        reveal_strlit("ERR");
        assert("ERR"@ =~= err_text());
        reveal_strlit("OK");
        assert("OK"@ =~= ok_text());
    }
    let owned = response.to_owned();
    if text_is(&owned, "OK") {
        Ok(true)
    } else if text_is(&owned, "ERR") {
        Ok(false)
    } else {
        Err(ObjectStoreError::Protocol)
    }
}

/// The host and port that a connection string names: `host:port`, or a bare
/// host on `default_port`.
pub open spec fn spec_connection_target(connection_string: Seq<char>, default_port: u16) -> Option<(Seq<char>, int)> {
    match spec_split_once(connection_string, ':') {
        Some((host, port)) => match spec_parse_unsigned(port, u16::MAX as int) {
            Some(p) => Some((host, p)),
            None => None,
        },
        None => Some((connection_string, default_port as int)),
    }
}

/// Splits a connection string into the host and the port to connect to.
pub fn split_connection_string(connection_string: &str, default_port: u16) -> (result: Result<(String, u16), ObjectStoreError>)
    ensures
        match result {
            Ok((host, port)) => spec_connection_target(connection_string@, default_port) == Some((host@, port as int)),
            Err(error) => spec_connection_target(connection_string@, default_port) is None && (
            error matches ObjectStoreError::InvalidConnectionString(text) && text@ == connection_string@),
        },
{
    match split_once(connection_string, ':') {
        Some((host, port)) => match parse_unsigned(port.as_str(), 65535) {
            Some(p) => Ok((host, p as u16)),
            None => Err(ObjectStoreError::InvalidConnectionString(connection_string.to_owned())),
        },
        None => Ok((connection_string.to_owned(), default_port)),
    }
}

proof fn lemma_split_spaced(verb: Seq<char>, tail: Seq<char>)
    requires
        !verb.contains(' '),
    ensures
        spec_split_once(spaced(verb, tail), ' ') == Some((verb, tail)),
{
    let s = spaced(verb, tail);
    lemma_first_index(s, ' ');
    let i = spec_first_index(s, ' ');
    assert(s[verb.len() as int] == ' ');
    if i < verb.len() {
        assert(s[i] == verb[i]);
        assert(verb.contains(s[i]));
    }
    assert(i == verb.len());
    assert(s.take(i) =~= verb);
    assert(s.skip(i + 1) =~= tail);
}

proof fn lemma_verbs()
    ensures
        !store_verb().contains(' '),
        !get_verb().contains(' '),
        !delete_verb().contains(' '),
        !ok_text().contains(' '),
        store_verb() != get_verb(),
        store_verb() != delete_verb(),
        get_verb() != delete_verb(),
        err_text() != ok_text(),
{
    assert(store_verb().len() != get_verb().len());
    assert(store_verb().len() != delete_verb().len());
    assert(get_verb()[0] != delete_verb()[0]);
    assert(err_text().len() != ok_text().len());
    if store_verb().contains(' ') {
        let i = choose|i: int| 0 <= i < store_verb().len() && store_verb()[i] == ' ';
    }
    if get_verb().contains(' ') {
        let i = choose|i: int| 0 <= i < get_verb().len() && get_verb()[i] == ' ';
    }
    if delete_verb().contains(' ') {
        let i = choose|i: int| 0 <= i < delete_verb().len() && delete_verb()[i] == ' ';
    }
    if ok_text().contains(' ') {
        let i = choose|i: int| 0 <= i < ok_text().len() && ok_text()[i] == ' ';
    }
}

/// The server reads back the length that a client's `STORE` request sends.
pub proof fn law_store_command_round_trip(length: usize)
    ensures
        spec_parse_command(spaced(store_verb(), decimal_digits(length as nat))) == Some(CommandView::Store(length as int)),
{
    lemma_verbs();
    lemma_split_spaced(store_verb(), decimal_digits(length as nat));
    lemma_decimal_digits(length as nat);
}

/// The server reads back the id that a client's `GET` request names.
pub proof fn law_get_command_round_trip(id: Seq<char>)
    requires
        is_hyphenated_uuid_text(id),
    ensures
        spec_parse_command(spaced(get_verb(), id)) == Some(CommandView::Get(id)),
{
    lemma_verbs();
    lemma_split_spaced(get_verb(), id);
}

/// The server reads back the id that a client's `DEL` request names.
pub proof fn law_delete_command_round_trip(id: Seq<char>)
    requires
        is_hyphenated_uuid_text(id),
    ensures
        spec_parse_command(spaced(delete_verb(), id)) == Some(CommandView::Delete(id)),
{
    lemma_verbs();
    lemma_split_spaced(delete_verb(), id);
}

/// A client reads back the id, or the refusal, that the server answers to
/// `STORE`.
pub proof fn law_store_reply_round_trip(stored: Option<Seq<char>>)
    requires
        stored matches Some(id) ==> is_hyphenated_uuid_text(id),
    ensures
        spec_store_response(
            match stored {
                Some(id) => ok_line(id),
                None => err_text(),
            },
        ) == Some(stored),
{
    lemma_verbs();
    if let Some(id) = stored {
        lemma_split_spaced(ok_text(), id);
        assert(ok_line(id).len() > 3);
    }
}

/// A client reads back the length, or the refusal, that the server answers
/// to `GET`.
pub proof fn law_get_reply_round_trip(found_length: Option<usize>)
    ensures
        spec_get_response(
            match found_length {
                Some(length) => ok_line(decimal_digits(length as nat)),
                None => err_text(),
            },
        ) == match found_length {
            Some(length) => Some(Some(length as int)),
            None => Some(None::<int>),
        },
{
    lemma_verbs();
    if let Some(length) = found_length {
        lemma_decimal_digits(length as nat);
        lemma_split_spaced(ok_text(), decimal_digits(length as nat));
        assert(ok_line(decimal_digits(length as nat)).len() > 3);
    }
}

/// A client reads back whether the server's delete went through.
pub proof fn law_delete_reply_round_trip(succeeded: bool)
    ensures
        spec_delete_response(
            if succeeded {
                ok_text()
            } else {
                err_text()
            },
        ) == Some(succeeded),
{
    lemma_verbs();
}

} // verus!
