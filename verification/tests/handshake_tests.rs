use rranch::handshake::{run_handshake, Handshake, HandshakeFailure, HandshakeState, HandshakeStep};

fn strings(words: &[&str]) -> Vec<String> {
    words.iter().map(|w| w.to_string()).collect()
}

#[test]
fn full_handshake_sends_the_three_steps_in_order() {
    let replies = strings(&["AUTH_OK", "CMD_OK", "CMD_OK"]);
    let (sent, state) = run_handshake(
        "secret".to_string(),
        "CONTROLLER".to_string(),
        "box".to_string(),
        &replies,
    );
    assert_eq!(sent, strings(&["AUTH secret", "SET_MACHINE_TYPE CONTROLLER", "SET_MACHINE_NAME box"]));
    assert_eq!(state, HandshakeState::Ready);
}

#[test]
fn untrusted_mode_still_continues() {
    let replies = strings(&["UNTRUSTED_MODE", "CMD_OK", "CMD_OK"]);
    let (sent, state) = run_handshake(
        "secret".to_string(),
        "CONTROLLER".to_string(),
        "box".to_string(),
        &replies,
    );
    assert_eq!(sent.len(), 3);
    assert_eq!(state, HandshakeState::Ready);
}

#[test]
fn rejected_credential_halts_after_the_first_step() {
    let replies = strings(&["INV_AUTH_KEY", "CMD_OK", "CMD_OK"]);
    let (sent, state) = run_handshake(
        "bad".to_string(),
        "CONTROLLER".to_string(),
        "box".to_string(),
        &replies,
    );
    assert_eq!(sent, strings(&["AUTH bad"]));
    assert_eq!(state, HandshakeState::Failed(HandshakeFailure::InvalidAuthKey));
}

#[test]
fn unexpected_reply_is_terminal() {
    let replies = strings(&["AUTH_OK", "WAT", "CMD_OK"]);
    let (sent, state) = run_handshake(
        "k".to_string(),
        "CONTROLLER".to_string(),
        "box".to_string(),
        &replies,
    );
    assert_eq!(sent.len(), 2);
    assert_eq!(state, HandshakeState::Failed(HandshakeFailure::UnexpectedResponse));
}

#[test]
fn empty_credential_skips_authentication() {
    let replies = strings(&["CMD_OK", "CMD_OK"]);
    let (sent, state) = run_handshake(
        "".to_string(),
        "CONTROLLER".to_string(),
        "box".to_string(),
        &replies,
    );
    assert_eq!(sent, strings(&["SET_MACHINE_TYPE CONTROLLER", "SET_MACHINE_NAME box"]));
    assert_eq!(state, HandshakeState::Ready);
}

#[test]
fn empty_machine_type_halts_before_sending() {
    let replies = strings(&["AUTH_OK"]);
    let (sent, state) = run_handshake(
        "k".to_string(),
        "".to_string(),
        "box".to_string(),
        &replies,
    );
    assert_eq!(sent, strings(&["AUTH k"]));
    assert_eq!(state, HandshakeState::Failed(HandshakeFailure::EmptyMachineType));
}

#[test]
fn auth_required_reply_fails_the_type_step() {
    let replies = strings(&["CMD_OK"]);
    let (sent, state) = run_handshake(
        "".to_string(),
        "CONTROLLER".to_string(),
        "box".to_string(),
        &strings(&["AUTH_REQUIRED"]),
    );
    assert_eq!(sent.len(), 1);
    assert_eq!(state, HandshakeState::Failed(HandshakeFailure::AuthRequired));
    drop(replies);
}

#[test]
fn stepwise_driver_matches_the_batch_driver() {
    let mut hs = Handshake::new("k".to_string(), "T".to_string(), "N".to_string());
    let mut sent: Vec<String> = Vec::new();
    let replies = strings(&["AUTH_OK", "CMD_OK", "CMD_OK"]);
    let mut i = 0;
    loop {
        match hs.next_step() {
            HandshakeStep::Send(m) => {
                sent.push(m);
                hs.apply_reply(&replies[i]);
                i += 1;
            }
            HandshakeStep::Done => break,
            HandshakeStep::Halt(_) => panic!("handshake failed"),
        }
    }
    assert_eq!(sent, strings(&["AUTH k", "SET_MACHINE_TYPE T", "SET_MACHINE_NAME N"]));
    assert_eq!(hs.state, HandshakeState::Ready);
}
