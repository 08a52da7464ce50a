use ngram::server::{step, ServerAction, ServerEvent, ServerPhase};

#[test]
fn start_listen_stop_stopped() {
    let (phase, action) = step(ServerPhase::Created, ServerEvent::Started);
    assert_eq!(phase, ServerPhase::Listening);
    assert_eq!(action, ServerAction::StartAccepting);

    let (phase, action) = step(phase, ServerEvent::ConnectionAccepted);
    assert_eq!(phase, ServerPhase::Listening);
    assert_eq!(action, ServerAction::SubmitHandler);

    let (phase, action) = step(phase, ServerEvent::StopRequested);
    assert_eq!(phase, ServerPhase::Stopping);
    assert_eq!(action, ServerAction::DoNothing);

    let (phase, action) = step(phase, ServerEvent::AcceptLoopExited);
    assert_eq!(phase, ServerPhase::Stopped);
    assert_eq!(action, ServerAction::ShutdownPool);
}

#[test]
fn stop_request_is_idempotent() {
    let (once, _) = step(ServerPhase::Listening, ServerEvent::StopRequested);
    let (twice, action) = step(once, ServerEvent::StopRequested);
    assert_eq!(once, twice);
    assert_eq!(action, ServerAction::DoNothing);
}

#[test]
fn no_service_once_stopping() {
    let (phase, action) = step(ServerPhase::Stopping, ServerEvent::ConnectionAccepted);
    assert_eq!(phase, ServerPhase::Stopping);
    assert_eq!(action, ServerAction::DropConnection);

    let (phase, action) = step(ServerPhase::Stopped, ServerEvent::ConnectionAccepted);
    assert_eq!(phase, ServerPhase::Stopped);
    assert_eq!(action, ServerAction::DropConnection);
}

#[test]
fn stop_before_start_shuts_down() {
    let (phase, action) = step(ServerPhase::Created, ServerEvent::StopRequested);
    assert_eq!(phase, ServerPhase::Stopped);
    assert_eq!(action, ServerAction::ShutdownPool);
}

#[test]
fn stopped_is_final() {
    for event in [
        ServerEvent::Started,
        ServerEvent::StopRequested,
        ServerEvent::AcceptLoopExited,
    ] {
        let (phase, action) = step(ServerPhase::Stopped, event);
        assert_eq!(phase, ServerPhase::Stopped);
        assert_eq!(action, ServerAction::DoNothing);
    }
}
