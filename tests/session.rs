use score_server::model::GameState;
use score_server::session::{ClientAddr, ClientMessage, SessionActor};

fn addr(port: u16) -> ClientAddr {
    ClientAddr { ip: 0x7f00_0001, ipv6: false, port }
}

fn join(port: u16, name: &str) -> ClientMessage {
    ClientMessage::PlayerJoin { client_addr: Some(addr(port)), player_name: name.to_string() }
}

fn points(name: &str, new_points: i32) -> ClientMessage {
    ClientMessage::PointEvent { player_name: name.to_string(), new_points }
}

fn leave(port: u16) -> ClientMessage {
    ClientMessage::ClientDisconnect { client_addr: addr(port) }
}

fn roster(state: &GameState) -> Vec<(String, i32)> {
    state
        .players()
        .iter()
        .map(|p| (p.name.clone(), p.points()))
        .collect()
}

fn pairs(items: &[(&str, i32)]) -> Vec<(String, i32)> {
    items.iter().map(|(n, p)| (n.to_string(), *p)).collect()
}

#[test]
fn end_to_end_scenario() {
    let mut actor = SessionActor::new(100);
    actor.handle(join(5001, "Ann"));
    actor.handle(join(5002, "Bo"));
    let snap = actor.handle(points("Ann", 42));
    assert_eq!(snap.goal(), 100);
    assert_eq!(roster(&snap), pairs(&[("Ann", 42), ("Bo", 0)]));
    let snap = actor.handle(leave(5002));
    assert_eq!(snap.goal(), 100);
    assert_eq!(roster(&snap), pairs(&[("Ann", 42)]));
}

#[test]
fn join_records_identity() {
    let mut actor = SessionActor::new(10);
    actor.handle(join(1, "A"));
    assert_eq!(actor.identity_count(), 1);
}

#[test]
fn refused_join_records_no_identity() {
    let mut actor = SessionActor::new(10);
    actor.handle(join(1, "A"));
    let snap = actor.handle(join(2, "A"));
    assert_eq!(actor.identity_count(), 1);
    assert_eq!(roster(&snap), pairs(&[("A", 0)]));
    // The second connection never joined: its close leaves A in place.
    let snap = actor.handle(leave(2));
    assert_eq!(roster(&snap), pairs(&[("A", 0)]));
    assert_eq!(actor.identity_count(), 1);
}

#[test]
fn disconnect_after_join_removes_player() {
    let mut actor = SessionActor::new(10);
    actor.handle(join(1, "A"));
    let snap = actor.handle(leave(1));
    assert!(roster(&snap).is_empty());
    assert_eq!(actor.identity_count(), 0);
}

#[test]
fn disconnect_of_unknown_connection_is_a_no_op() {
    let mut actor = SessionActor::new(10);
    actor.handle(join(1, "A"));
    let snap = actor.handle(leave(9));
    assert_eq!(roster(&snap), pairs(&[("A", 0)]));
    assert_eq!(actor.identity_count(), 1);
}

#[test]
fn duplicate_join_is_idempotent() {
    let mut once = SessionActor::new(10);
    once.handle(join(1, "A"));
    let mut twice = SessionActor::new(10);
    twice.handle(join(1, "A"));
    let snap = twice.handle(join(1, "A"));
    assert_eq!(roster(&snap), roster(once.game()));
    assert_eq!(twice.identity_count(), once.identity_count());
}

#[test]
fn last_point_event_wins() {
    let mut actor = SessionActor::new(10);
    actor.handle(join(1, "A"));
    actor.handle(points("A", 5));
    let snap = actor.handle(points("A", 3));
    assert_eq!(roster(&snap), pairs(&[("A", 3)]));
}

#[test]
fn ghost_point_event_leaves_state_unchanged() {
    let mut actor = SessionActor::new(10);
    actor.handle(join(1, "A"));
    let before = roster(actor.game());
    let snap = actor.handle(points("ghost", 10));
    assert_eq!(roster(&snap), before);
}

#[test]
fn snapshots_follow_processing_order() {
    let mut actor = SessionActor::new(7);
    let events = vec![
        join(1, "A"),
        join(2, "B"),
        points("B", 4),
        join(3, "C"),
        leave(1),
        points("C", -1),
    ];
    let snaps = actor.process_events(events);
    let got: Vec<Vec<(String, i32)>> = snaps.iter().map(roster).collect();
    assert_eq!(
        got,
        vec![
            pairs(&[("A", 0)]),
            pairs(&[("A", 0), ("B", 0)]),
            pairs(&[("A", 0), ("B", 4)]),
            pairs(&[("A", 0), ("B", 4), ("C", 0)]),
            pairs(&[("B", 4), ("C", 0)]),
            pairs(&[("B", 4), ("C", -1)]),
        ]
    );
    assert!(snaps.iter().all(|s| s.goal() == 7));
    assert_eq!(roster(actor.game()), pairs(&[("B", 4), ("C", -1)]));
}

#[test]
fn rejoin_under_new_name_moves_identity() {
    let mut actor = SessionActor::new(10);
    actor.handle(join(1, "A"));
    actor.handle(join(1, "B"));
    assert_eq!(actor.identity_count(), 1);
    let snap = actor.handle(leave(1));
    assert_eq!(roster(&snap), pairs(&[("A", 0)]));
}

#[test]
fn cloned_message_is_equal() {
    let m = join(3, "X");
    let c = m.clone();
    match c {
        ClientMessage::PlayerJoin { client_addr, player_name } => {
            assert_eq!(client_addr, Some(addr(3)));
            assert_eq!(player_name, "X");
        }
        _ => panic!("variant changed"),
    }
}
