//! Packaging a mod: the library file that a build of a package produces and
//! the name of the `.mcemod` artifact it is copied to.
use crate::text::{chars_of, push_char, push_text};
use vstd::prelude::*;

verus! {

/// A package name as a library file stem: every `-` becomes `_`.
pub open spec fn library_stem(package: Seq<char>) -> Seq<char> {
    package.map_values(|c: char| if c == '-' { '_' } else { c })
}

/// The library file that building `package` produces.
pub fn dll_file_name(package: &str) -> (name: String)
    ensures
        name@ == library_stem(package@) + ".dll"@,
{
    let chars = chars_of(package);
    let mut name = String::new();
    let mut i: usize = 0;
    while i < chars.len()
        invariant
            i <= chars@.len(),
            chars@ == package@,
            name@ == library_stem(package@.take(i as int)),
        decreases chars@.len() - i,
    {
        let c = chars[i];
        push_char(&mut name, if c == '-' { '_' } else { c });
        proof {
            assert(library_stem(package@.take(i as int)).push(if c == '-' { '_' } else { c }) =~= library_stem(
                package@.take(i + 1),
            ));
        }
        i = i + 1;
    }
    proof {
        assert(package@.take(i as int) =~= package@);
    }
    push_text(&mut name, ".dll");
    name
}

/// The artifact file: the given name, or else the package's, with the
/// `.mcemod` extension.
pub fn artifact_file_name(name: Option<&str>, package: &str) -> (file: String)
    ensures
        file@ == match name {
            Some(n) => n@,
            None => package@,
        } + ".mcemod"@,
{
    let mut file = String::new();
    match name {
        Some(n) => push_text(&mut file, n),
        None => push_text(&mut file, package),
    }
    push_text(&mut file, ".mcemod");
    proof {
        assert(Seq::<char>::empty() + package@ =~= package@);
        if let Some(n) = name {
            assert(Seq::<char>::empty() + n@ =~= n@);
        }
    }
    file
}

/// The build profile: `release` for a release build, `debug` otherwise.
pub fn build_profile(release: bool) -> (profile: &'static str)
    ensures
        profile@ == if release {
            "release"@
        } else {
            "debug"@
        },
{
    if release {
        "release"
    } else {
        "debug"
    }
}

/// The library stem keeps the package name's length and every character of it
/// except `-`, which becomes `_`; the library file name is that stem followed
/// by `.dll`.
pub proof fn law_library_stem_only_replaces_hyphens(package: Seq<char>)
    ensures
        library_stem(package).len() == package.len(),
        forall|i: int| 0 <= i < package.len() && package[i] != '-' ==> #[trigger] library_stem(package)[i] == package[i],
        forall|i: int| 0 <= i < package.len() && package[i] == '-' ==> #[trigger] library_stem(package)[i] == '_',
        (library_stem(package) + ".dll"@).take(package.len() as int) == library_stem(package),
{
    assert((library_stem(package) + ".dll"@).take(package.len() as int) =~= library_stem(package));
}

} // verus!
