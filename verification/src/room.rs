//! The app's side of a session room: who is in it as the canvas draws
//! them, the line of status shown in Settings, and when the host owes its
//! guests a fresh snapshot. The network threads hand events in; these
//! decisions say what each one does to the room.

use std::collections::HashMap;
use vstd::prelude::*;
use crate::text::{decimal, decimal_spec, string_from_chars};

verus! {

broadcast use vstd::std_specs::hash::group_hash_axioms;

/// A peer as the canvas draws them. `look` is what only the canvas reads
/// (the cursor and the wet stroke), carried through untouched.
pub struct PeerView<L> {
    pub name: String,
    /// The peer's build, for the room lamp's cross-check.
    pub version: String,
    pub frame: u32,
    pub pen_down: bool,
    pub look: L,
}

/// The room as the app keeps it between frames.
pub struct Room<L> {
    pub peers: HashMap<u64, PeerView<L>>,
    pub status: String,
    /// The document generation last sent to the guests.
    pub sent_gen: u64,
}

/// The name under which a peer is drawn before its join was seen: the
/// host is peer 0, anyone else "artist <id>".
pub open spec fn fallback_name(id: u64) -> Seq<char> {
    if id == 0 {
        "host"@
    } else {
        "artist "@ + decimal_spec(id as nat)
    }
}

/// What the artist is told when the room ends under them.
pub open spec fn room_closed_note() -> Seq<char> {
    "the room closed — you are working on your own copy again"@
}

impl<L> Room<L> {
    /// Offline, with no peers; no generation has been sent.
    pub fn new() -> (r: Self)
        ensures
            r.peers@ == Map::<u64, PeerView<L>>::empty(),
            r.status@ == "offline"@,
            r.sent_gen == u64::MAX,
    {
        Room { peers: HashMap::new(), status: String::from_str("offline"), sent_gen: u64::MAX }
    }

    /// Hosting began on `port`: the next generation check always sends.
    pub fn hosting(&mut self, port: u16)
        ensures
            final(self).peers@ == old(self).peers@,
            final(self).status@ == "hosting on port "@ + decimal_spec(port as nat) + " — share the key"@,
            final(self).sent_gen == u64::MAX,
    {
        let digits = string_from_chars(&decimal(port as u64));
        self.status = String::from_str("hosting on port ").concat(digits.as_str()).concat(" — share the key");
        self.sent_gen = u64::MAX;
    }

    /// Joined someone's room: nobody is known yet.
    pub fn joined(&mut self)
        ensures
            final(self).peers@ == Map::<u64, PeerView<L>>::empty(),
            final(self).status@ == "connected — waiting for the host's file"@,
            final(self).sent_gen == old(self).sent_gen,
    {
        self.peers.clear();
        self.status = String::from_str("connected — waiting for the host's file");
    }

    /// Stopped hosting or left: offline, nobody in the room.
    pub fn offline(&mut self)
        ensures
            final(self).peers@ == Map::<u64, PeerView<L>>::empty(),
            final(self).status@ == "offline"@,
            final(self).sent_gen == old(self).sent_gen,
    {
        self.peers.clear();
        self.status = String::from_str("offline");
    }

    /// A peer joined: it is drawn at frame 0, pen up, with `blank` for its
    /// look. Returns the line shown to the artist at the pen.
    pub fn peer_joined(&mut self, id: u64, name: String, version: String, blank: L) -> (note: String)
        ensures
            final(self).peers@ == old(self).peers@.insert(
                id,
                (PeerView { name: name, version: version, frame: 0, pen_down: false, look: blank }),
            ),
            final(self).status@ == name@ + " joined"@,
            final(self).sent_gen == old(self).sent_gen,
            note@ == name@ + " joined the room"@,
    {
        self.status = name.clone().concat(" joined");
        let note = name.clone().concat(" joined the room");
        let _ = self.peers.insert(id, PeerView { name, version, frame: 0, pen_down: false, look: blank });
        note
    }

    /// A peer left. A known peer is dropped and its leaving told (to
    /// Settings and to the artist); an unknown one changes nothing.
    pub fn peer_left(&mut self, id: u64) -> (note: Option<String>)
        ensures
            old(self).peers@.contains_key(id) ==> {
                &&& final(self).peers@ == old(self).peers@.remove(id)
                &&& final(self).status@ == old(self).peers@[id].name@ + " left"@
                &&& note matches Some(n) && n@ == old(self).peers@[id].name@ + " left the room"@
            },
            !old(self).peers@.contains_key(id) ==> {
                &&& final(self).peers@ == old(self).peers@
                &&& final(self).status == old(self).status
                &&& note is None
            },
            final(self).sent_gen == old(self).sent_gen,
    {
        match self.peers.remove(&id) {
            Some(p) => {
                self.status = p.name.clone().concat(" left");
                Some(p.name.concat(" left the room"))
            },
            None => None,
        }
    }

    /// A peer's presence: its frame, pen and look are replaced; a peer not
    /// seen joining is added under its fallback name with no version.
    pub fn presence(&mut self, id: u64, frame: u32, pen_down: bool, look: L)
        ensures
            final(self).peers@ == old(self).peers@.insert(id, final(self).peers@[id]),
            final(self).peers@[id].frame == frame,
            final(self).peers@[id].pen_down == pen_down,
            final(self).peers@[id].look == look,
            old(self).peers@.contains_key(id) ==> {
                &&& final(self).peers@[id].name == old(self).peers@[id].name
                &&& final(self).peers@[id].version == old(self).peers@[id].version
            },
            !old(self).peers@.contains_key(id) ==> {
                &&& final(self).peers@[id].name@ == fallback_name(id)
                &&& final(self).peers@[id].version@ == Seq::<char>::empty()
            },
            final(self).status == old(self).status,
            final(self).sent_gen == old(self).sent_gen,
    {
        match self.peers.remove(&id) {
            Some(p) => {
                let q = PeerView { name: p.name, version: p.version, frame, pen_down, look };
                let _ = self.peers.insert(id, q);
            },
            None => {
                let name = if id == 0 {
                    String::from_str("host")
                } else {
                    let digits = string_from_chars(&decimal(id));
                    String::from_str("artist ").concat(digits.as_str())
                };
                let q = PeerView { name, version: String::new(), frame, pen_down, look };
                let _ = self.peers.insert(id, q);
            },
        }
    }

    /// The room ended: nobody is left, Settings shows why, and the artist
    /// is told they are on their own copy (the returned line).
    pub fn ended(&mut self, why: String) -> (note: String)
        ensures
            final(self).peers@ == Map::<u64, PeerView<L>>::empty(),
            final(self).status == why,
            final(self).sent_gen == old(self).sent_gen,
            note@ == room_closed_note(),
    {
        self.peers.clear();
        self.status = why;
        String::from_str("the room closed — you are working on your own copy again")
    }

    /// Whether the host sends its document now: after a fresh join, or
    /// when the document's generation moved since the last send. Either
    /// way the generation is remembered as sent.
    pub fn snapshot_due(&mut self, fresh_join: bool, generation: u64) -> (send: bool)
        ensures
            send == (fresh_join || generation != old(self).sent_gen),
            final(self).sent_gen == generation,
            final(self).peers@ == old(self).peers@,
            final(self).status == old(self).status,
    {
        if fresh_join || generation != self.sent_gen {
            self.sent_gen = generation;
            true
        } else {
            false
        }
    }
}

} // verus!

