use vienna::mods::{
    abi_matches, abi_mismatch_message, callback_log, invalid_argument_message, is_mod_entry, is_mod_extension, load_outcome, panic_message, sanitize_for_c, CallbackOutcome,
    VmaResultCode, VMA_ABI_VERSION,
};

#[test]
fn mod_files_are_recognised_by_extension() {
    assert!(is_mod_extension("mcemod"));
    assert!(is_mod_extension("MCEMOD"));
    assert!(is_mod_extension("Dll"));
    assert!(!is_mod_extension("so"));
    assert!(!is_mod_extension("dlls"));
    assert!(!is_mod_extension(""));
    assert!(is_mod_entry(true, Some("mcemod")));
    assert!(!is_mod_entry(false, Some("mcemod")));
    assert!(!is_mod_entry(true, None));
}

#[test]
fn text_for_c_has_no_nul() {
    assert_eq!(sanitize_for_c("a\0b\0"), "a b ");
    assert_eq!(sanitize_for_c("plain"), "plain");
}

#[test]
fn only_the_host_abi_version_loads() {
    assert_eq!(VMA_ABI_VERSION, 1);
    assert!(abi_matches(1));
    assert!(!abi_matches(2));
}

#[test]
fn callback_outcomes_become_result_codes() {
    assert!(matches!(load_outcome(CallbackOutcome::Completed(Ok(()))), (VmaResultCode::Succeeded, None)));
    assert!(matches!(
        load_outcome(CallbackOutcome::Completed(Err("bad config".to_owned()))),
        (VmaResultCode::Failed, Some(m)) if m == "bad config"
    ));
    assert!(matches!(
        load_outcome(CallbackOutcome::Panicked),
        (VmaResultCode::Failed, Some(m)) if m == "mod panicked during on_load"
    ));
    assert_eq!(panic_message("on_command"), "mod panicked during on_command");
    assert_eq!(callback_log(false, "on_server_start"), None);
    assert_eq!(callback_log(true, "on_server_stop"), Some("mod panicked during on_server_stop".to_owned()));
}

#[test]
fn refusals_name_what_went_wrong() {
    assert_eq!(abi_mismatch_message(7), "VMA ABI mismatch: host=1 mod=7");
    assert_eq!(
        invalid_argument_message("on_command", "player name", "invalid utf-8"),
        "on_command received invalid player name: invalid utf-8"
    );
}
