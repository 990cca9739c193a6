//! Buildplate world files: which archive entries a world must have, which
//! are kept, and the world settings that its metadata gives.
use crate::tappables::strings_view;
use vstd::prelude::*;

verus! {

/// The metadata entry of a world archive.
pub open spec fn metadata_entry_name() -> Seq<char> {
    "buildplate_metadata.json"@
}

/// The region and entity files that every world archive must hold, in the
/// order they are checked.
pub open spec fn required_world_files() -> Seq<Seq<char>> {
    seq![
        "region/r.0.0.mca"@,
        "region/r.0.-1.mca"@,
        "region/r.-1.0.mca"@,
        "region/r.-1.-1.mca"@,
        "entities/r.0.0.mca"@,
        "entities/r.0.-1.mca"@,
        "entities/r.-1.0.mca"@,
        "entities/r.-1.-1.mca"@,
    ]
}

/// The names of the required world files, in order.
pub fn required_world_file_names() -> (names: Vec<String>)
    ensures
        strings_view(names@) == required_world_files(),
{
    let names = vec![
        "region/r.0.0.mca".to_owned(),
        "region/r.0.-1.mca".to_owned(),
        "region/r.-1.0.mca".to_owned(),
        "region/r.-1.-1.mca".to_owned(),
        "entities/r.0.0.mca".to_owned(),
        "entities/r.0.-1.mca".to_owned(),
        "entities/r.-1.0.mca".to_owned(),
        "entities/r.-1.-1.mca".to_owned(),
    ];
    proof {
        assert(strings_view(names@) =~= required_world_files());
    }
    names
}

/// The settings of a buildplate world.
#[derive(Clone, Copy, Debug, PartialEq, Eq, Structural)]
pub struct WorldSettings {
    pub size: i32,
    pub offset: i32,
    pub night: bool,
}

pub enum BuildplateError {
    MissingRequiredEntry(String),
    UnsupportedMetadataVersion(i32),
    InvalidSize(i32),
}

/// The bytes of each archive entry, by name, in archive order.
pub open spec fn entries_view(entries: Seq<(String, Vec<u8>)>) -> Seq<(Seq<char>, Seq<u8>)> {
    entries.map_values(|e: (String, Vec<u8>)| (e.0@, e.1@))
}

/// The bytes of the last entry named `name`: a later entry of the same name
/// replaces an earlier one.
pub open spec fn last_entry(entries: Seq<(Seq<char>, Seq<u8>)>, name: Seq<char>) -> Option<Seq<u8>>
    decreases entries.len(),
{
    if entries.len() == 0 {
        None
    } else if entries.last().0 == name {
        Some(entries.last().1)
    } else {
        last_entry(entries.drop_last(), name)
    }
}

/// The files of a world that the import uses.
pub struct WorldFiles {
    pub metadata: Option<Vec<u8>>,
    pub required: Vec<(String, Vec<u8>)>,
}

/// The first required file, in order, that the archive does not hold.
pub open spec fn first_missing_at(entries: Seq<(Seq<char>, Seq<u8>)>, k: int) -> bool {
    &&& 0 <= k < required_world_files().len()
    &&& last_entry(entries, required_world_files()[k]) is None
    &&& forall|j: int| 0 <= j < k ==> last_entry(entries, #[trigger] required_world_files()[j]) is Some
}

fn copy_bytes(bytes: &Vec<u8>) -> (copy: Vec<u8>)
    ensures
        copy@ == bytes@,
{
    let mut copy: Vec<u8> = Vec::new();
    let mut i: usize = 0;
    while i < bytes.len()
        invariant
            i <= bytes@.len(),
            copy@ == bytes@.take(i as int),
        decreases bytes@.len() - i,
    {
        copy.push(bytes[i]);
        proof {
            assert(bytes@.take(i as int).push(bytes@[i as int]) =~= bytes@.take(i + 1));
        }
        i = i + 1;
    }
    proof {
        assert(bytes@.take(i as int) =~= bytes@);
    }
    copy
}

/// The bytes of the last entry named `name`.
fn find_last_entry(entries: &Vec<(String, Vec<u8>)>, name: &String) -> (found: Option<Vec<u8>>)
    ensures
        match found {
            Some(bytes) => last_entry(entries_view(entries@), name@) == Some(bytes@),
            None => last_entry(entries_view(entries@), name@) is None,
        },
{
    let ghost all = entries_view(entries@);
    let mut i = entries.len();
    proof {
        assert(all.take(i as int) =~= all);
    }
    while i > 0
        invariant
            i <= entries@.len(),
            all == entries_view(entries@),
            last_entry(all, name@) == last_entry(all.take(i as int), name@),
        decreases i,
    {
        proof {
            assert(all.take(i as int).drop_last() =~= all.take(i - 1));
            assert(all.take(i as int).last() == all[i - 1]);
        }
        if entries[i - 1].0 == *name {
            return Some(copy_bytes(&entries[i - 1].1));
        }
        i = i - 1;
    }
    None
}

/// Picks the files a world import uses out of an archive's file entries:
/// the metadata, if there is any, and every required file in order, each
/// taken from its last entry. The first required file that is missing is
/// reported.
pub fn select_world_files(entries: &Vec<(String, Vec<u8>)>) -> (result: Result<WorldFiles, BuildplateError>)
    ensures
        match result {
            Ok(files) => {
                &&& match files.metadata {
                    Some(bytes) => last_entry(entries_view(entries@), metadata_entry_name()) == Some(bytes@),
                    None => last_entry(entries_view(entries@), metadata_entry_name()) is None,
                }
                &&& files.required@.len() == required_world_files().len()
                &&& forall|k: int| 0 <= k < files.required@.len() ==> {
                    &&& (#[trigger] files.required@[k]).0@ == required_world_files()[k]
                    &&& last_entry(entries_view(entries@), required_world_files()[k]) == Some(files.required@[k].1@)
                }
            },
            Err(BuildplateError::MissingRequiredEntry(name)) => exists|k: int|
                #[trigger] first_missing_at(entries_view(entries@), k) && name@ == required_world_files()[k],
            Err(_) => false,
        },
{
    let names = required_world_file_names();
    let ghost all = entries_view(entries@);
    let mut required: Vec<(String, Vec<u8>)> = Vec::new();
    let mut k: usize = 0;
    while k < names.len()
        invariant
            k <= names@.len(),
            all == entries_view(entries@),
            strings_view(names@) == required_world_files(),
            required@.len() == k,
            forall|j: int| 0 <= j < k ==> {
                &&& (#[trigger] required@[j]).0@ == required_world_files()[j]
                &&& last_entry(all, required_world_files()[j]) == Some(required@[j].1@)
            },
        decreases names@.len() - k,
    {
        proof {
            assert(names@[k as int]@ == required_world_files()[k as int]);
        }
        match find_last_entry(entries, &names[k]) {
            Some(bytes) => {
                required.push((names[k].clone(), bytes));
            },
            None => {
                proof {
                    assert forall|j: int| 0 <= j < k implies last_entry(all, #[trigger] required_world_files()[j]) is Some by {
                        assert(required@[j].0@ == required_world_files()[j]);
                    }
                    assert(first_missing_at(all, k as int));
                }
                return Err(BuildplateError::MissingRequiredEntry(names[k].clone()));
            },
        }
        k = k + 1;
    }
    let metadata_name = "buildplate_metadata.json".to_owned();
    let metadata = find_last_entry(entries, &metadata_name);
    Ok(WorldFiles { metadata, required })
}

/// Whether an archive entry is one that a world import reads: the metadata
/// or a required file.
pub fn is_world_entry(name: &str) -> (kept: bool)
    ensures
        kept == (name@ == metadata_entry_name() || required_world_files().contains(name@)),
{
    let owned = name.to_owned();
    if owned == "buildplate_metadata.json".to_owned() {
        return true;
    }
    let names = required_world_file_names();
    let mut k: usize = 0;
    while k < names.len()
        invariant
            k <= names@.len(),
            strings_view(names@) == required_world_files(),
            owned@ == name@,
            forall|j: int| 0 <= j < k ==> #[trigger] required_world_files()[j] != name@,
        decreases names@.len() - k,
    {
        proof {
            assert(names@[k as int]@ == required_world_files()[k as int]);
        }
        if names[k] == owned {
            proof {
                assert(required_world_files()[k as int] == name@);
            }
            return true;
        }
        k = k + 1;
    }
    proof {
        if required_world_files().contains(name@) {
            let j = choose|j: int| 0 <= j < required_world_files().len() && required_world_files()[j] == name@;
            assert(required_world_files()[j] != name@);
        }
    }
    false
}

/// The settings of a world whose archive holds no metadata.
pub open spec fn spec_default_world_settings() -> WorldSettings {
    WorldSettings { size: 16, offset: 63, night: false }
}

pub fn default_world_settings() -> (settings: WorldSettings)
    ensures
        settings == spec_default_world_settings(),
{
    WorldSettings { size: 16, offset: 63, night: false }
}

/// Only metadata of version 1 is read.
pub fn check_metadata_version(version: i32) -> (result: Result<(), BuildplateError>)
    ensures
        match result {
            Ok(()) => version == 1,
            Err(BuildplateError::UnsupportedMetadataVersion(v)) => version != 1 && v == version,
            Err(_) => false,
        },
{
    if version == 1 {
        Ok(())
    } else {
        Err(BuildplateError::UnsupportedMetadataVersion(version))
    }
}

pub open spec fn valid_world_size(size: i32) -> bool {
    size == 8 || size == 16 || size == 32
}

/// The settings of a world: those its metadata gives, or the default ones
/// when it has none; a size other than 8, 16 or 32 is refused.
pub fn world_settings(metadata: Option<WorldSettings>) -> (result: Result<WorldSettings, BuildplateError>)
    ensures
        ({
            let settings = match metadata {
                Some(s) => s,
                None => spec_default_world_settings(),
            };
            match result {
                Ok(s) => valid_world_size(settings.size) && s == settings,
                Err(BuildplateError::InvalidSize(size)) => !valid_world_size(settings.size) && size == settings.size,
                Err(_) => false,
            }
        }),
{
    let settings = match metadata {
        Some(s) => s,
        None => default_world_settings(),
    };
    if settings.size == 8 || settings.size == 16 || settings.size == 32 {
        Ok(settings)
    } else {
        Err(BuildplateError::InvalidSize(settings.size))
    }
}

} // verus!
