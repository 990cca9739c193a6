use vienna::packager::{artifact_file_name, build_profile, dll_file_name};

#[test]
fn library_names_use_underscores() {
    assert_eq!(dll_file_name("example-hello-mcemod"), "example_hello_mcemod.dll");
    assert_eq!(dll_file_name("plain"), "plain.dll");
}

#[test]
fn artifacts_take_the_given_name_or_the_package() {
    assert_eq!(artifact_file_name(Some("hello"), "example-hello"), "hello.mcemod");
    assert_eq!(artifact_file_name(None, "example-hello"), "example-hello.mcemod");
    assert_eq!(build_profile(true), "release");
    assert_eq!(build_profile(false), "debug");
}
