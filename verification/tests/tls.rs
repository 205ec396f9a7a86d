use may_minihttp::error::ClientErrorKind;
use may_minihttp::tls::{select_snapshot, IdentityState};
use may_minihttp::{Error, ErrorKind, TlsConfigFailurePolicy, TlsConfigSnapshot};

#[test]
fn a_loaded_snapshot_is_used() {
    let last = TlsConfigSnapshot::new(1, "old");
    let loaded = Ok(TlsConfigSnapshot::new(2, "new"));
    let chosen = select_snapshot(TlsConfigFailurePolicy::default(), loaded, last);
    let Ok(chosen) = chosen else { panic!("loaded") };
    assert_eq!((chosen.generation(), *chosen.config()), (2, "new"));
}

#[test]
fn a_failed_load_follows_the_policy() {
    let failed = || Err(Error::new(ErrorKind::NotFound, "/secret/key.pem"));
    let last = TlsConfigSnapshot::new(1, "old");
    let kept = select_snapshot(TlsConfigFailurePolicy::UseLastKnownGood, failed(), last);
    let Ok(kept) = kept else { panic!("kept") };
    assert_eq!((kept.generation(), *kept.config()), (1, "old"));

    let last = TlsConfigSnapshot::new(1, "old");
    let refused = select_snapshot(TlsConfigFailurePolicy::FailRequest, failed(), last);
    let Err(error) = refused else { panic!("refused") };
    assert_eq!(ClientErrorKind::classify(&error), ClientErrorKind::Tls);
    assert!(!error.message().contains("secret"));
}

#[test]
fn one_request_loads_one_identity() {
    let mut state = IdentityState::new();
    assert!(!state.begin_hop(false));
    assert!(state.begin_hop(true));
    assert!(!state.begin_hop(false));
    assert!(!state.begin_hop(true));
}
