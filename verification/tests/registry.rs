use chat_relay::server::BroadcastMessage;
use chat_relay::server::ChatServer;

fn deliver(plan: Vec<(usize, BroadcastMessage)>, inboxes: &mut Vec<(usize, Vec<String>)>) {
    for (id, frame) in plan {
        for entry in inboxes.iter_mut() {
            if entry.0 == id {
                entry.1.push(frame.message.clone());
            }
        }
    }
}

#[test]
fn identifiers_are_fresh_and_monotonic() {
    let mut s: ChatServer<String> = ChatServer::new();
    let room = String::from("lobby");
    assert_eq!(s.connect(String::from("h0"), &room), 0);
    assert_eq!(s.connect(String::from("h1"), &room), 1);
    assert_eq!(s.connect(String::from("h2"), &room), 2);
    // identifiers are never reused, even after a disconnect
    s.disconnect(2, &room);
    assert_eq!(s.connect(String::from("h3"), &room), 3);
}

#[test]
fn members_track_joins_and_leaves() {
    let mut s: ChatServer<String> = ChatServer::new();
    let a = String::from("a");
    let b = String::from("b");
    let id0 = s.connect(String::from("h0"), &a);
    let id1 = s.connect(String::from("h1"), &a);
    let id2 = s.connect(String::from("h2"), &b);
    assert_eq!(s.members(&a), vec![id0, id1]);
    assert_eq!(s.members(&b), vec![id2]);
    assert_eq!(s.members(&String::from("nowhere")), Vec::<usize>::new());
    s.leave(&a, id0);
    assert_eq!(s.members(&a), vec![id1]);
    s.leave(&a, id1);
    assert_eq!(s.members(&a), Vec::<usize>::new());
    // an emptied room behaves like a nonexistent one
    let id3 = s.connect(String::from("h3"), &a);
    assert_eq!(s.members(&a), vec![id3]);
}

#[test]
fn members_hold_no_duplicates() {
    let mut s: ChatServer<String> = ChatServer::new();
    let room = String::from("r");
    for k in 0..5usize {
        let id = s.connect(format!("h{}", k), &room);
        assert_eq!(id, k);
    }
    let m = s.members(&room);
    for i in 0..m.len() {
        for j in 0..m.len() {
            if i != j {
                assert_ne!(m[i], m[j]);
            }
        }
    }
    assert_eq!(m, vec![0, 1, 2, 3, 4]);
}

#[test]
fn unregister_hides_from_lookup_and_broadcast() {
    let mut s: ChatServer<String> = ChatServer::new();
    let room = String::from("lobby");
    let id0 = s.connect(String::from("h0"), &room);
    let id1 = s.connect(String::from("h1"), &room);
    assert_eq!(s.lookup(id0), Some(&String::from("h0")));
    s.unregister(id0);
    assert_eq!(s.lookup(id0), None);
    // the room still lists id0, but a broadcast silently skips it
    assert_eq!(s.members(&room), vec![id0, id1]);
    let plan = s.broadcast(&room, &String::from("x"), None);
    let recipients: Vec<usize> = plan.iter().map(|p| p.0).collect();
    assert_eq!(recipients, vec![id1]);
}

#[test]
fn leave_and_unregister_are_idempotent() {
    let mut s: ChatServer<String> = ChatServer::new();
    let room = String::from("lobby");
    let id0 = s.connect(String::from("h0"), &room);
    let id1 = s.connect(String::from("h1"), &room);
    s.leave(&room, id0);
    let once = s.members(&room);
    s.leave(&room, id0);
    assert_eq!(s.members(&room), once);
    s.unregister(id1);
    assert_eq!(s.lookup(id1), None);
    s.unregister(id1);
    assert_eq!(s.lookup(id1), None);
    assert_eq!(s.members(&room), once);
    // leaving a room that never existed is a no-op, not an error
    s.leave(&String::from("nowhere"), id0);
    assert_eq!(s.members(&room), once);
}

#[test]
fn broadcasts_arrive_in_issue_order() {
    let mut s: ChatServer<String> = ChatServer::new();
    let room = String::from("lobby");
    let a = s.connect(String::from("ha"), &room);
    let b = s.connect(String::from("hb"), &room);
    let mut inboxes: Vec<(usize, Vec<String>)> = vec![(a, Vec::new()), (b, Vec::new())];
    deliver(s.broadcast(&room, &String::from("m1"), None), &mut inboxes);
    deliver(s.broadcast(&room, &String::from("m2"), None), &mut inboxes);
    assert_eq!(inboxes[0].1, vec![String::from("m1"), String::from("m2")]);
    assert_eq!(inboxes[1].1, vec![String::from("m1"), String::from("m2")]);
}

#[test]
fn broadcast_frames_carry_room_and_payload() {
    let mut s: ChatServer<String> = ChatServer::new();
    let room = String::from("lobby");
    let _ = s.connect(String::from("h0"), &room);
    let plan = s.broadcast(&room, &String::from("hello"), None);
    assert_eq!(plan.len(), 1);
    assert_eq!(plan[0].1.room, "lobby");
    assert_eq!(plan[0].1.message, "hello");
}

#[test]
fn lobby_scenario() {
    // connect twice to `lobby`, broadcast from 0 excluding the sender,
    // then id 1 disconnects
    let mut s: ChatServer<String> = ChatServer::new();
    let lobby = String::from("lobby");
    let id0 = s.connect(String::from("h0"), &lobby);
    assert_eq!(id0, 0);
    let id1 = s.connect(String::from("h1"), &lobby);
    assert_eq!(id1, 1);
    let mut inboxes: Vec<(usize, Vec<String>)> = vec![(0, Vec::new()), (1, Vec::new())];
    deliver(s.broadcast(&lobby, &String::from("hello"), Some(0)), &mut inboxes);
    assert_eq!(inboxes[0].1, Vec::<String>::new());
    assert_eq!(inboxes[1].1, vec![String::from("hello")]);
    s.disconnect(1, &lobby);
    assert_eq!(s.members(&lobby), vec![0]);
    assert_eq!(s.lookup(1), None);
}

#[test]
fn broadcast_never_crosses_rooms() {
    let mut s: ChatServer<String> = ChatServer::new();
    let ra = String::from("a");
    let rb = String::from("b");
    let ida = s.connect(String::from("ha"), &ra);
    let idb = s.connect(String::from("hb"), &rb);
    let plan = s.broadcast(&ra, &String::from("to a"), None);
    let recipients: Vec<usize> = plan.iter().map(|p| p.0).collect();
    assert_eq!(recipients, vec![ida]);
    assert!(!recipients.contains(&idb));
    let plan_b = s.broadcast(&rb, &String::from("to b"), None);
    let recipients_b: Vec<usize> = plan_b.iter().map(|p| p.0).collect();
    assert_eq!(recipients_b, vec![idb]);
}

#[test]
fn broadcast_to_absent_room_is_empty() {
    let s: ChatServer<String> = ChatServer::new();
    let plan = s.broadcast(&String::from("ghost"), &String::from("x"), None);
    assert!(plan.is_empty());
}

#[test]
fn registry_is_not_full_at_start() {
    let s: ChatServer<String> = ChatServer::new();
    assert!(!s.is_full());
}
