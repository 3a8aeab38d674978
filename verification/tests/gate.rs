use rtorch::error::RtorchError;
use rtorch::trust::TrustGate;
use rtorch::whitelist::{PathStyle, Whitelist};

fn gate_with_whitelist(json: &str) -> TrustGate {
    let wl = Whitelist::load_from_text(json).expect("whitelist");
    TrustGate::from_env(Ok(wl))
}

#[test]
fn whitelisted_path_is_allowed_without_prompt() {
    // A whitelisted path is allowed without having been remembered: the
    // whitelist is checked first. The path is absolute, so it is its own
    // normalized form.
    let path = "C:\\trust_test\\allowed.rtw";
    let json = r#"{"allowed":["C:\\trust_test\\allowed.rtw"]}"#;
    let gate = gate_with_whitelist(json);
    assert!(gate.trusted_without_prompt(path, path, PathStyle::Windows));
}

#[test]
fn non_whitelisted_prompt_disabled_rejects() {
    // Off the list and never remembered: the prompt decides, and a disabled
    // prompt answers "no".
    let path = "C:\\trust_test\\other.rtw";
    let json = r#"{"allowed":["C:\\trust_test\\allowed.rtw"]}"#;
    let mut gate = gate_with_whitelist(json);
    assert!(!gate.trusted_without_prompt(path, path, PathStyle::Windows));
    assert_eq!(gate.record_answer(path, Ok(false)), Ok(false));
    assert!(!gate.is_remembered(path));
    assert!(!gate.trusted_without_prompt(path, path, PathStyle::Windows));
}

#[test]
fn empty_whitelist_is_not_full_deny_when_promptable() {
    let path = "C:\\anything.rtw";
    let mut gate = TrustGate::from_env(Ok(Whitelist::default()));
    assert!(!gate.trusted_without_prompt(path, path, PathStyle::Windows));
    assert_eq!(gate.record_answer(path, Ok(false)), Ok(false));
    // A "yes" is remembered, so the next check passes without a prompt.
    assert_eq!(gate.record_answer(path, Ok(true)), Ok(true));
    assert!(gate.trusted_without_prompt(path, path, PathStyle::Windows));
}

#[test]
fn trusted_once_then_remembered() {
    let mut gate = TrustGate::from_env(Ok(Whitelist::default()));
    assert!(!gate.is_remembered("/m/a.rtw"));
    assert_eq!(gate.record_answer("/m/a.rtw", Ok(true)), Ok(true));
    assert!(gate.is_remembered("/m/a.rtw"));
    assert!(gate.trusted_without_prompt("/m/a.rtw", "/elsewhere/a.rtw", PathStyle::Posix));
    assert!(!gate.is_remembered("/m/b.rtw"));
}

#[test]
fn failed_prompt_is_passed_on_and_not_remembered() {
    let mut gate = TrustGate::from_env(Ok(Whitelist::default()));
    let r = gate.record_answer("/m/a.rtw", Err("trust prompt only supported on Windows".to_string()));
    assert_eq!(r, Err("trust prompt only supported on Windows".to_string()));
    assert!(!gate.is_remembered("/m/a.rtw"));
}

#[test]
fn whitelist_load_error_leaves_no_whitelist() {
    let gate = TrustGate::from_env(Err(RtorchError::whitelist("read missing.json: not found")));
    assert!(!gate.trusted_without_prompt("/x.rtw", "/x.rtw", PathStyle::Posix));
}

#[test]
fn remember_is_idempotent_for_the_decision() {
    let mut gate = TrustGate::from_env(Ok(Whitelist::default()));
    gate.remember("/m/a.rtw");
    gate.remember("/m/a.rtw");
    assert!(gate.is_remembered("/m/a.rtw"));
    assert!(gate.trusted_without_prompt("/m/a.rtw", "/m/a.rtw", PathStyle::Posix));
}

#[test]
fn unlisted_unremembered_path_is_refused() {
    // The decision over given comparison answers: neither listed nor
    // remembered means no.
    let json = r#"{"allowed":["/srv/a.rtw", "/srv/b.rtw"]}"#;
    let mut gate = gate_with_whitelist(json);
    assert!(!gate.trusted_by("/srv/c.rtw", PathStyle::Posix, &[false, false], &[]));
    assert!(gate.trusted_by("/srv/b.rtw", PathStyle::Posix, &[false, true], &[]));
    gate.remember("/srv/c.rtw");
    assert!(gate.trusted_by("/srv/c.rtw", PathStyle::Posix, &[false, false], &[true]));
    assert!(!gate.trusted_by("/srv/d.rtw", PathStyle::Posix, &[false, false], &[false]));
    assert!(gate.remembered_by(&[true]));
    assert!(!gate.remembered_by(&[false]));
    assert!(!gate.remembered_by(&[]));
    // With the real comparisons.
    assert!(!gate.trusted_without_prompt("/srv/d.rtw", "/srv/d.rtw", PathStyle::Posix));
    assert!(gate.trusted_without_prompt("/srv/a.rtw", "/srv/a.rtw", PathStyle::Posix));
}
