use relay_man::traversal::{Action, ConnectOnError, Phase, Traversal, CONFIRM, PROBE};

const MS: u128 = 1_000_000;

#[test]
fn timeout_must_exceed_resend() {
    assert!(matches!(Traversal::new(100 * MS, 100 * MS, 0), Err(ConnectOnError::TimoutIsLesTheResend)));
    assert!(matches!(Traversal::new(50 * MS, 100 * MS, 0), Err(ConnectOnError::TimoutIsLesTheResend)));
    assert!(Traversal::new(101 * MS, 100 * MS, 0).is_ok());
}

#[test]
fn silent_peer_fails_stage_one_after_the_timeout() {
    let start = 1_000 * MS;
    let mut t = Traversal::new(5_000 * MS, 100 * MS, start).unwrap();
    assert_eq!(t.step(start - 1, None, false), Action::Nothing);
    assert_eq!(t.step(start, None, false), Action::SendProbe);
    let mut now = start;
    let mut probes = 1;
    let mut failed_at = None;
    while now < start + 10_000 * MS {
        now += 10 * MS;
        match t.step(now, None, false) {
            Action::SendProbe => probes += 1,
            Action::Nothing => {}
            Action::Fail(e) => {
                assert_eq!(e, ConnectOnError::StageOneFailed);
                failed_at = Some(now);
                break;
            }
            other => panic!("unexpected {:?}", other),
        }
    }
    let failed_at = failed_at.expect("the attempt ends");
    assert!(failed_at > start + 5_000 * MS);
    assert!(failed_at <= start + 5_010 * MS);
    assert!(probes >= 45);
    assert_eq!(t.phase, Phase::Failed(ConnectOnError::StageOneFailed));
    assert_eq!(t.step(now + 1, None, false), Action::Fail(ConnectOnError::StageOneFailed));
}

#[test]
fn probe_then_confirm_connects() {
    let mut t = Traversal::new(5_000 * MS, 100 * MS, 0).unwrap();
    assert_eq!(t.step(0, None, false), Action::SendProbe);
    // A probe from a stranger changes nothing.
    assert_eq!(t.step(1, Some(PROBE.to_vec()), false), Action::Nothing);
    // A wrong datagram from the peer changes nothing.
    assert_eq!(t.step(2, Some(CONFIRM.to_vec()), true), Action::Nothing);
    assert_eq!(t.step(3, Some(PROBE.to_vec()), true), Action::ConnectAndConfirm);
    assert_eq!(t.phase, Phase::StageTwo);
    assert_eq!(t.step(50 * MS, None, true), Action::Nothing);
    assert_eq!(t.step(101 * MS, None, true), Action::SendConfirm);
    assert_eq!(t.step(102 * MS, Some(CONFIRM.to_vec()), true), Action::Connected);
    assert_eq!(t.phase, Phase::Done);
}

#[test]
fn silent_connected_socket_fails_stage_two() {
    let mut t = Traversal::new(1_000 * MS, 100 * MS, 0).unwrap();
    t.step(0, None, false);
    assert_eq!(t.step(10, Some(PROBE.to_vec()), true), Action::ConnectAndConfirm);
    assert_eq!(t.step(1_000 * MS + 10, None, true), Action::SendConfirm);
    assert_eq!(t.step(1_000 * MS + 11, None, true), Action::Fail(ConnectOnError::StageTwoFailed));
}

#[test]
fn cancelled_attempt_ends() {
    let mut t = Traversal::new(5_000 * MS, 100 * MS, 0).unwrap();
    assert_eq!(t.step(0, None, false), Action::SendProbe);
    assert_eq!(t.cancel(), Action::Fail(ConnectOnError::Cancelled));
    assert_eq!(t.step(1, Some(PROBE.to_vec()), true), Action::Fail(ConnectOnError::Cancelled));
}
