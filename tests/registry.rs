use score_server::registry::{ControlReply, GameSession, SessionRegistry};
use std::time::Duration;
use tokio::runtime::Runtime;

fn runtime() -> Runtime {
    Runtime::new().unwrap()
}

fn wait_until_finished(rt: &Runtime, handle: &tokio::task::JoinHandle<()>) {
    for _ in 0..500 {
        if handle.is_finished() {
            return;
        }
        rt.block_on(async { tokio::time::sleep(Duration::from_millis(2)).await });
    }
    panic!("task did not finish");
}

#[test]
fn new_pool_holds_the_range() {
    let reg = SessionRegistry::new(9001, 20);
    let expected: Vec<u16> = (9001..9021).collect();
    assert_eq!(reg.available_ports(), &expected);
    assert!(reg.live_ports().is_empty());
}

#[test]
fn create_game_hands_out_top_port() {
    let mut reg = SessionRegistry::new(9001, 20);
    assert_eq!(reg.handle_request("CreateGame"), ControlReply::Port(9020));
    assert_eq!(reg.handle_request("CreateGame"), ControlReply::Port(9019));
    assert_eq!(reg.available_ports().len(), 18);
}

#[test]
fn other_requests_are_ignored() {
    let mut reg = SessionRegistry::new(9001, 2);
    assert_eq!(reg.handle_request("createGame"), ControlReply::Ignored);
    assert_eq!(reg.handle_request(""), ControlReply::Ignored);
    assert_eq!(reg.available_ports().len(), 2);
}

#[test]
fn requests_beyond_pool_are_unavailable() {
    let rt = runtime();
    let mut reg = SessionRegistry::new(7000, 2);
    let mut ports = Vec::new();
    for _ in 0..2 {
        match reg.handle_request("CreateGame") {
            ControlReply::Port(p) => {
                let handle = rt.spawn(std::future::pending::<()>());
                assert!(reg.register(GameSession::new(p, handle)));
                ports.push(p);
            }
            other => panic!("unexpected {:?}", other),
        }
    }
    assert_ne!(ports[0], ports[1]);
    assert_eq!(reg.handle_request("CreateGame"), ControlReply::Unavailable);
    assert_eq!(reg.live_ports(), ports);
}

#[test]
fn finished_session_port_is_reused() {
    let rt = runtime();
    let mut reg = SessionRegistry::new(7000, 1);
    let port = match reg.handle_request("CreateGame") {
        ControlReply::Port(p) => p,
        other => panic!("unexpected {:?}", other),
    };
    let handle = rt.spawn(async {});
    wait_until_finished(&rt, &handle);
    assert!(reg.register(GameSession::new(port, handle)));
    assert_eq!(reg.handle_request("CreateGame"), ControlReply::Port(port));
    assert!(reg.live_ports().is_empty());
}

#[test]
fn running_session_keeps_its_port() {
    let rt = runtime();
    let mut reg = SessionRegistry::new(7000, 1);
    let port = match reg.handle_request("CreateGame") {
        ControlReply::Port(p) => p,
        other => panic!("unexpected {:?}", other),
    };
    assert!(reg.register(GameSession::new(port, rt.spawn(std::future::pending::<()>()))));
    reg.reclaim_finished();
    assert_eq!(reg.live_ports(), vec![port]);
    assert!(reg.available_ports().is_empty());
}

#[test]
fn reclaim_by_flags_keeps_order() {
    let rt = runtime();
    let mut reg = SessionRegistry::new(100, 4);
    for _ in 0..4 {
        let p = reg.take_port().unwrap();
        assert!(reg.register(GameSession::new(p, rt.spawn(std::future::pending::<()>()))));
    }
    assert_eq!(reg.live_ports(), vec![103, 102, 101, 100]);
    reg.reclaim(&vec![true, false, true, false]);
    assert_eq!(reg.available_ports(), &vec![103, 101]);
    assert_eq!(reg.live_ports(), vec![102, 100]);
    assert_eq!(reg.take_port(), Some(101));
}

#[test]
fn register_refuses_held_port() {
    let rt = runtime();
    let mut reg = SessionRegistry::new(100, 2);
    assert!(!reg.register(GameSession::new(101, rt.spawn(async {}))));
    let p = reg.take_port().unwrap();
    assert!(reg.register(GameSession::new(p, rt.spawn(std::future::pending::<()>()))));
    assert!(!reg.register(GameSession::new(p, rt.spawn(std::future::pending::<()>()))));
    assert!(reg.holds(p));
    assert!(reg.holds(100));
    assert!(!reg.holds(102));
}

#[test]
fn empty_pool_takes_nothing() {
    let mut reg = SessionRegistry::new(100, 0);
    assert_eq!(reg.take_port(), None);
    assert_eq!(reg.handle_request("CreateGame"), ControlReply::Unavailable);
}
