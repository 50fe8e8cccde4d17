use animstudio::room::Room;

#[test]
fn a_new_room_is_offline_and_owes_a_first_snapshot() {
    let mut r: Room<u8> = Room::new();
    assert!(r.peers.is_empty());
    assert_eq!(r.status, "offline");
    assert!(r.snapshot_due(false, 0));
    assert!(!r.snapshot_due(false, 0));
    assert_eq!(r.sent_gen, 0);
}

#[test]
fn hosting_status_names_the_port_and_resets_the_generation() {
    let mut r: Room<u8> = Room::new();
    assert!(r.snapshot_due(false, 4));
    r.hosting(41100);
    assert_eq!(r.status, "hosting on port 41100 — share the key");
    assert_eq!(r.sent_gen, u64::MAX);
    assert!(r.snapshot_due(false, 4));
}

#[test]
fn joins_and_leaves_are_told() {
    let mut r: Room<u8> = Room::new();
    let note = r.peer_joined(3, "mika".to_string(), "0.1.0".to_string(), 0);
    assert_eq!(note, "mika joined the room");
    assert_eq!(r.status, "mika joined");
    let p = &r.peers[&3];
    assert_eq!((p.name.as_str(), p.version.as_str(), p.frame, p.pen_down, p.look), ("mika", "0.1.0", 0, false, 0));
    assert_eq!(r.peer_left(3).as_deref(), Some("mika left the room"));
    assert_eq!(r.status, "mika left");
    assert!(r.peers.is_empty());
}

#[test]
fn an_unknown_peer_leaving_changes_nothing() {
    let mut r: Room<u8> = Room::new();
    r.peer_joined(1, "a".to_string(), String::new(), 0);
    assert_eq!(r.peer_left(2), None);
    assert_eq!(r.status, "a joined");
    assert_eq!(r.peers.len(), 1);
}

#[test]
fn presence_updates_a_peer_and_keeps_its_name() {
    let mut r: Room<u8> = Room::new();
    r.peer_joined(5, "ren".to_string(), "0.2".to_string(), 0);
    r.presence(5, 12, true, 7);
    let p = &r.peers[&5];
    assert_eq!((p.name.as_str(), p.version.as_str(), p.frame, p.pen_down, p.look), ("ren", "0.2", 12, true, 7));
}

#[test]
fn presence_before_a_join_uses_the_fallback_name() {
    let mut r: Room<u8> = Room::new();
    r.presence(0, 1, false, 1);
    r.presence(42, 2, true, 2);
    assert_eq!(r.peers[&0].name, "host");
    assert_eq!(r.peers[&42].name, "artist 42");
    assert_eq!(r.peers[&42].version, "");
    assert_eq!(r.status, "offline");
}

#[test]
fn the_room_ending_empties_it() {
    let mut r: Room<u8> = Room::new();
    r.peer_joined(1, "a".to_string(), String::new(), 0);
    let note = r.ended("host went away".to_string());
    assert_eq!(note, "the room closed — you are working on your own copy again");
    assert_eq!(r.status, "host went away");
    assert!(r.peers.is_empty());
}

#[test]
fn joining_or_leaving_a_room_clears_the_roster() {
    let mut r: Room<u8> = Room::new();
    r.peer_joined(1, "a".to_string(), String::new(), 0);
    r.joined();
    assert!(r.peers.is_empty());
    assert_eq!(r.status, "connected — waiting for the host's file");
    r.peer_joined(1, "a".to_string(), String::new(), 0);
    r.offline();
    assert!(r.peers.is_empty());
    assert_eq!(r.status, "offline");
}

#[test]
fn a_snapshot_is_owed_on_a_fresh_join_even_without_edits() {
    let mut r: Room<u8> = Room::new();
    assert!(r.snapshot_due(false, 9));
    assert!(!r.snapshot_due(false, 9));
    assert!(r.snapshot_due(true, 9));
    assert!(r.snapshot_due(false, 10));
}
