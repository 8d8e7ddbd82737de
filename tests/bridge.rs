use score_server::bridge::{process_client_msg, InboundAction, InboundFrame};
use score_server::session::{ClientAddr, ClientMessage};

fn peer() -> ClientAddr {
    ClientAddr { ip: 0x7f00_0001, ipv6: false, port: 40000 }
}

#[test]
fn close_becomes_disconnect_and_ends() {
    match process_client_msg(InboundFrame::Closed, peer()) {
        InboundAction::ForwardAndEnd(ClientMessage::ClientDisconnect { client_addr }) => {
            assert_eq!(client_addr, peer())
        }
        other => panic!("unexpected {:?}", other),
    }
}

#[test]
fn join_is_stamped_with_peer_address() {
    let forged = ClientAddr { ip: 1, ipv6: true, port: 1 };
    let frame = InboundFrame::Message(ClientMessage::PlayerJoin {
        client_addr: Some(forged),
        player_name: "Ann".to_string(),
    });
    match process_client_msg(frame, peer()) {
        InboundAction::Forward(ClientMessage::PlayerJoin { client_addr, player_name }) => {
            assert_eq!(client_addr, Some(peer()));
            assert_eq!(player_name, "Ann");
        }
        other => panic!("unexpected {:?}", other),
    }
}

#[test]
fn join_without_address_gets_one() {
    let frame = InboundFrame::Message(ClientMessage::PlayerJoin {
        client_addr: None,
        player_name: "Bo".to_string(),
    });
    match process_client_msg(frame, peer()) {
        InboundAction::Forward(ClientMessage::PlayerJoin { client_addr, .. }) => {
            assert_eq!(client_addr, Some(peer()))
        }
        other => panic!("unexpected {:?}", other),
    }
}

#[test]
fn point_event_is_forwarded_as_is() {
    let frame = InboundFrame::Message(ClientMessage::PointEvent {
        player_name: "Ann".to_string(),
        new_points: 42,
    });
    match process_client_msg(frame, peer()) {
        InboundAction::Forward(ClientMessage::PointEvent { player_name, new_points }) => {
            assert_eq!(player_name, "Ann");
            assert_eq!(new_points, 42);
        }
        other => panic!("unexpected {:?}", other),
    }
}

#[test]
fn client_sent_disconnect_ends_connection() {
    let other = ClientAddr { ip: 2, ipv6: false, port: 2 };
    let frame = InboundFrame::Message(ClientMessage::ClientDisconnect { client_addr: other });
    assert!(matches!(process_client_msg(frame, peer()), InboundAction::End));
}

#[test]
fn malformed_frame_ends_connection() {
    assert!(matches!(
        process_client_msg(InboundFrame::Malformed, peer()),
        InboundAction::End
    ));
}
