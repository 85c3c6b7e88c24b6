use xenstore_win::ioctl::StoreError;
use xenstore_win::watch::{watch_path_bytes, SignalAction, WatchSession, WatchToken};

const SHUTDOWN: &str = "/local/domain/0/control/shutdown";

fn session() -> WatchSession {
    WatchSession::register(SHUTDOWN, Ok(WatchToken::new(vec![1, 2, 3, 4, 5, 6, 7, 8]))).unwrap()
}

#[test]
fn each_signal_yields_the_path() {
    let mut s = session();
    for _ in 0..2 {
        match s.on_signal() {
            SignalAction::ResetAndYield(p) => assert_eq!(p, SHUTDOWN),
            SignalAction::Finished => panic!("session ended early"),
        }
    }
    assert!(s.is_active());
    assert_eq!(s.path(), SHUTDOWN);
}

#[test]
fn teardown_without_notifications_deregisters_once() {
    let mut s = session();
    let t = s.teardown().expect("token handed out");
    assert_eq!(t.as_bytes(), &[1, 2, 3, 4, 5, 6, 7, 8]);
    assert!(s.teardown().is_none());
    assert!(!s.is_active());
}

#[test]
fn no_items_after_teardown() {
    let mut s = session();
    assert!(matches!(s.on_signal(), SignalAction::ResetAndYield(_)));
    assert!(s.teardown().is_some());
    assert!(matches!(s.on_signal(), SignalAction::Finished));
}

#[test]
fn failed_registration_opens_no_session() {
    let r = WatchSession::register(SHUTDOWN, Err(StoreError::IoFailure(5)));
    assert!(matches!(r, Err(StoreError::IoFailure(5))));
}

#[test]
fn watch_path_is_nul_terminated() {
    assert_eq!(watch_path_bytes(SHUTDOWN).unwrap(), b"/local/domain/0/control/shutdown\0".to_vec());
    assert_eq!(watch_path_bytes("").unwrap(), vec![0u8]);
}

#[test]
fn watch_path_with_nul_is_refused() {
    assert_eq!(watch_path_bytes("a\0b"), Err(StoreError::InvalidEncoding));
}
