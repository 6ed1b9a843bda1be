use chess_backend::uci::{
    contains_token, trim_line, AdapterSession, Outcome, Phase, SessionState,
};

fn ready_session() -> AdapterSession {
    let mut session = AdapterSession::new();
    session.begin_handshake();
    session.on_line("uciok");
    session.on_line("readyok");
    assert_eq!(session.state, SessionState::Ready);
    session
}

#[test]
fn test_adapter_cooperating_child_one_game() {
    // A cooperating child emits uciok, then readyok, then (after go) a line
    // containing "bestmove e2e4": the result text contains it, and the
    // observed phases run Spawned, Handshaking, Ready, Busy, Ready.
    let mut session = AdapterSession::new();
    let mut phases = vec![session.phase()];
    assert_eq!(session.state, SessionState::Spawned);

    let cmd = session.begin_handshake();
    assert_eq!(cmd, "uci");
    phases.push(session.phase());

    assert!(matches!(session.on_line("id name demo"), Outcome::Pending));
    match session.on_line("uciok") {
        Outcome::SendCommand(c) => assert_eq!(c, "isready"),
        _ => panic!("expected the readiness command after uciok"),
    }
    assert!(matches!(session.on_line("readyok"), Outcome::HandshakeDone));
    phases.push(session.phase());
    assert_eq!(session.state, SessionState::Ready);

    let cmds = session.begin_game(2);
    assert_eq!(
        cmds,
        vec![
            "ucinewgame".to_string(),
            "position startpos".to_string(),
            "go depth 2".to_string()
        ]
    );
    phases.push(session.phase());

    assert!(matches!(session.on_line("info depth 1"), Outcome::Pending));
    let result = match session.on_line("bestmove e2e4") {
        Outcome::GameResult(r) => r,
        _ => panic!("expected the game result on the bestmove line"),
    };
    phases.push(session.phase());

    assert!(result.contains("bestmove e2e4"));
    assert_eq!(result, "info depth 1\nbestmove e2e4\n");
    assert_eq!(
        phases,
        vec![Phase::Spawned, Phase::Handshaking, Phase::Ready, Phase::Busy, Phase::Ready]
    );
}

#[test]
fn test_handshake_discards_intermediate_lines() {
    let mut session = AdapterSession::new();
    session.begin_handshake();
    assert!(matches!(session.on_line("id author someone"), Outcome::Pending));
    assert!(matches!(session.on_line("option name Hash"), Outcome::Pending));
    assert_eq!(session.state, SessionState::AwaitUciok);
    assert!(matches!(session.on_line("  uciok  "), Outcome::SendCommand(_)));
    assert_eq!(session.state, SessionState::AwaitReadyok);
    assert!(matches!(session.on_line("noise"), Outcome::Pending));
    assert!(matches!(session.on_line("readyok"), Outcome::HandshakeDone));
    assert_eq!(session.state, SessionState::Ready);
}

#[test]
fn test_probe_cycle() {
    let mut session = ready_session();
    let cmd = session.begin_probe();
    assert_eq!(cmd, "isready");
    assert_eq!(session.state, SessionState::Probing);
    assert!(matches!(session.on_line("info string thinking"), Outcome::Pending));
    assert!(matches!(session.on_line("readyok"), Outcome::ProbeOk));
    assert_eq!(session.state, SessionState::Ready);
}

#[test]
fn test_stop_reaches_stopped() {
    let mut session = ready_session();
    session.stop();
    assert_eq!(session.state, SessionState::Stopped);
    assert_eq!(session.phase(), Phase::Stopped);
}

#[test]
fn test_contains_token_and_trim() {
    assert!(contains_token("info uciok tail", "uciok"));
    assert!(!contains_token("ucio k", "uciok"));
    assert!(!contains_token("best", "bestmove"));
    assert!(contains_token("anything", ""));
    assert_eq!(trim_line("  readyok \r"), "readyok");
    assert_eq!(trim_line("\t \n"), "");
    assert_eq!(trim_line("bestmove e2e4"), "bestmove e2e4");
}

#[test]
fn test_go_depth_formatting() {
    let mut session = ready_session();
    let cmds = session.begin_game(125);
    assert_eq!(cmds[2], "go depth 125");
}

#[test]
fn test_result_accumulates_all_lines() {
    let mut session = ready_session();
    session.begin_game(1);
    session.on_line("info depth 1 seldepth 1");
    session.on_line("info nodes 20");
    let result = match session.on_line(" bestmove a7a6 ponder a2a3 ") {
        Outcome::GameResult(r) => r,
        _ => panic!("expected the game result on the bestmove line"),
    };
    assert_eq!(
        result,
        "info depth 1 seldepth 1\ninfo nodes 20\n bestmove a7a6 ponder a2a3 \n"
    );
    // the session can run another game afterwards
    let cmds = session.begin_game(3);
    assert_eq!(cmds[2], "go depth 3");
}
