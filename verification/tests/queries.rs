use chat_relay::query::room_from_query;
use chat_relay::server::ChatServer;

#[test]
fn no_query_string_defaults_to_general() {
    assert_eq!(room_from_query(None), "general");
}

#[test]
fn no_room_parameter_defaults_to_general() {
    assert_eq!(room_from_query(Some("")), "general");
    assert_eq!(room_from_query(Some("foo=bar")), "general");
    assert_eq!(room_from_query(Some("foo=bar&baz=1")), "general");
}

#[test]
fn room_parameter_is_read() {
    assert_eq!(room_from_query(Some("room=lobby")), "lobby");
    assert_eq!(room_from_query(Some("a=b&room=x")), "x");
    assert_eq!(room_from_query(Some("room=x&tail=1")), "x");
}

#[test]
fn first_room_parameter_wins() {
    assert_eq!(room_from_query(Some("room=x&room=y")), "x");
}

#[test]
fn room_key_without_value_does_not_match() {
    assert_eq!(room_from_query(Some("room")), "general");
    assert_eq!(room_from_query(Some("room&room=y")), "y");
}

#[test]
fn empty_room_value_is_kept() {
    assert_eq!(room_from_query(Some("room=")), "");
}

#[test]
fn only_the_piece_between_the_equals_signs_counts() {
    assert_eq!(room_from_query(Some("room=a=b")), "a");
}

#[test]
fn key_must_be_exactly_room() {
    assert_eq!(room_from_query(Some("rooms=x")), "general");
    assert_eq!(room_from_query(Some("roo=x")), "general");
    assert_eq!(room_from_query(Some("Room=x")), "general");
}

#[test]
fn default_room_flows_into_membership() {
    let room = room_from_query(None);
    let mut s: ChatServer<String> = ChatServer::new();
    let id = s.connect(String::from("h"), &room);
    assert_eq!(s.members(&String::from("general")), vec![id]);
}
