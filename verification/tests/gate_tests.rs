use moodjourney::gate::{
    check_password, do_delete_pin, get_is_pin_set, hash_password, is_locked, set_locked,
    set_password, PasswordData, PasswordState,
};
use moodjourney::passfile::{parse_password_data, render_password_data};

fn create_test_password_state() -> PasswordState {
    PasswordState::load_from_text(None)
}

#[test]
fn test_set_and_check_pin() {
    let mut state = create_test_password_state();

    assert!(!get_is_pin_set(&state), "Initially, PIN should not be set.");
    assert!(!is_locked(&state), "Initially, should not be locked as no PIN is set.");

    set_password(&mut state, "1234");
    assert!(get_is_pin_set(&state), "PIN should be set after calling set_password.");
    assert!(is_locked(&state), "Should be locked after setting a new PIN.");

    assert!(check_password(&mut state, "1234"), "Correct PIN should pass verification.");
    assert!(!is_locked(&state), "Should be unlocked after correct PIN check.");

    set_locked(&mut state, true);
    assert!(is_locked(&state), "Should be locked after manual lock invocation.");
    assert!(!check_password(&mut state, "0000"), "Incorrect PIN should fail verification.");
    assert!(is_locked(&state), "Should remain locked after incorrect PIN attempt.");
}

#[test]
fn test_manual_locking() {
    let mut state = create_test_password_state();

    set_password(&mut state, "5678");
    assert!(is_locked(&state), "Should be locked immediately after setting a PIN.");

    set_locked(&mut state, false);
    assert!(!is_locked(&state), "Should be unlocked after calling set_locked(false).");

    set_locked(&mut state, true);
    assert!(is_locked(&state), "Should be locked after calling set_locked(true).");
}

#[test]
fn test_delete_pin() {
    let mut state = create_test_password_state();

    set_password(&mut state, "1122");
    assert!(get_is_pin_set(&state), "PIN should be set before deletion attempt.");
    assert!(is_locked(&state), "State should be locked after PIN is set.");

    do_delete_pin(&mut state);
    assert!(!get_is_pin_set(&state), "PIN should not be set after deletion.");
    assert!(!is_locked(&state), "State should be unlocked after PIN deletion.");

    assert!(!check_password(&mut state, "1122"), "Checking a deleted PIN should fail.");
}

#[test]
fn test_empty_password_clears_pin() {
    let mut state = create_test_password_state();

    set_password(&mut state, "1234");
    assert!(get_is_pin_set(&state), "PIN should be set initially.");
    assert!(is_locked(&state), "Should be locked with initial PIN.");

    set_password(&mut state, "");
    assert!(!get_is_pin_set(&state), "PIN should be cleared when an empty password is set.");
    assert!(!is_locked(&state), "Should be unlocked when PIN is cleared.");
}

#[test]
fn test_is_locked_behavior_with_no_pin() {
    let mut state = create_test_password_state();

    assert!(!get_is_pin_set(&state));
    assert!(
        !is_locked(&state),
        "Should not be locked if no PIN is set, regardless of explicit calls to set_locked."
    );

    set_locked(&mut state, true);
    assert!(
        !is_locked(&state),
        "Calling set_locked(true) should not make it locked if no PIN is actually set."
    );
}

#[test]
fn test_hash_password_known_value() {
    // SHA-256 of the ASCII bytes of "1234", in lowercase hexadecimal.
    let digest = hash_password("1234");
    assert_eq!(digest, "03ac674216f3e15c761ee1a5e255f067953623c8b388b4459e13f978d7c846f4");
    assert_eq!(digest.len(), 64);
    assert_ne!(digest, "1234", "The raw passcode must never be stored.");
}

#[test]
fn test_passfile_round_trip_with_pin() {
    let mut state = create_test_password_state();
    set_password(&mut state, "4321");
    set_locked(&mut state, false);

    let text = render_password_data(&state.password_data);
    let parsed = parse_password_data(&text).expect("canonical file must parse");
    assert_eq!(parsed.password_hash, state.password_data.password_hash);
    assert_eq!(parsed.locked, false);

    let reloaded = PasswordState::load_from_text(Some(&text));
    assert!(get_is_pin_set(&reloaded));
    assert!(!is_locked(&reloaded));
    assert!(check_password(&mut state, "4321"));
}

#[test]
fn test_passfile_round_trip_without_pin() {
    let data = PasswordData { password_hash: None, locked: false };
    let text = render_password_data(&data);
    assert_eq!(text, "{\"password_hash\":null,\"locked\":false}");
    let parsed = parse_password_data(&text).expect("canonical file must parse");
    assert_eq!(parsed.password_hash, None);
    assert_eq!(parsed.locked, false);
}

#[test]
fn test_passfile_malformed_falls_back_to_default() {
    for bad in [
        "",
        "not json at all",
        "{\"password_hash\":null,\"locked\":maybe}",
        "{\"password_hash\":\"short\",\"locked\":true}",
        "{\"password_hash\":null,\"locked\":true} ",
    ] {
        assert!(parse_password_data(bad).is_none(), "must reject: {}", bad);
        let st = PasswordState::load_from_text(Some(bad));
        assert!(!get_is_pin_set(&st), "fallback state has no passcode for: {}", bad);
        assert!(!is_locked(&st), "fallback state is unlocked for: {}", bad);
    }
}

#[test]
fn test_passfile_locked_state_survives_reload() {
    let mut state = create_test_password_state();
    set_password(&mut state, "9876");
    assert!(is_locked(&state));

    let text = render_password_data(&state.password_data);
    let mut reloaded = PasswordState::load_from_text(Some(&text));
    assert!(get_is_pin_set(&reloaded));
    assert!(is_locked(&reloaded), "The locked state must survive a restart.");
    assert!(check_password(&mut reloaded, "9876"));
    assert!(!is_locked(&reloaded));
}
