//! The server's shared state: a registry of rooms, each room a membership
//! list whose members carry a bounded fanout inbox, plus the connection
//! counter that hands out client identities.

use vstd::prelude::*;

use crate::ids;
use crate::text;

verus! {

/// Capacity of one member's fanout inbox; a publish into a full inbox
/// drops that inbox's oldest message.
pub const FANOUT_CAP: usize = 1000;

/// Longest stored nickname, in characters.
pub const NICK_MAX: usize = 32;

/// Longest published chat message, in characters.
pub const MSG_MAX: usize = 1000;

/// One fanout item: who published, under which nickname, and the text.
pub struct Message {
    pub sender: u64,
    pub nickname: String,
    pub text: String,
}

/// A room member: client identity, stored nickname, and the inbox the
/// room's fanout fills for this member.
pub struct Member {
    pub client_id: u64,
    pub nickname: String,
    pub inbox: Vec<Message>,
}

/// A broadcast domain: an identifier and the current members.
pub struct Room {
    pub id: String,
    pub members: Vec<Member>,
}

/// The process-wide state: the room registry and the client counter.
pub struct ServerState {
    pub rooms: Vec<Room>,
    pub client_counter: u64,
}

#[verifier::ext_equal]
pub struct MessageModel {
    pub sender: u64,
    pub nickname: Seq<char>,
    pub text: Seq<char>,
}

#[verifier::ext_equal]
pub struct MemberModel {
    pub client_id: u64,
    pub nickname: Seq<char>,
    pub inbox: Seq<MessageModel>,
}

#[verifier::ext_equal]
pub struct RoomModel {
    pub id: Seq<char>,
    pub members: Seq<MemberModel>,
}

#[verifier::ext_equal]
pub struct StateModel {
    pub rooms: Seq<RoomModel>,
    pub client_counter: u64,
}

impl View for Message {
    type V = MessageModel;

    open spec fn view(&self) -> MessageModel {
        MessageModel { sender: self.sender, nickname: self.nickname@, text: self.text@ }
    }
}

impl View for Member {
    type V = MemberModel;

    open spec fn view(&self) -> MemberModel {
        MemberModel {
            client_id: self.client_id,
            nickname: self.nickname@,
            inbox: self.inbox@.map_values(|m: Message| m@),
        }
    }
}

impl View for Room {
    type V = RoomModel;

    open spec fn view(&self) -> RoomModel {
        RoomModel { id: self.id@, members: self.members@.map_values(|m: Member| m@) }
    }
}

impl View for ServerState {
    type V = StateModel;

    open spec fn view(&self) -> StateModel {
        StateModel {
            rooms: self.rooms@.map_values(|r: Room| r@),
            client_counter: self.client_counter,
        }
    }
}

/// Client `c` appears in the member list `ms`.
pub open spec fn has_member(ms: Seq<MemberModel>, c: u64) -> bool {
    exists|k: int| 0 <= k < ms.len() && (#[trigger] ms[k]).client_id == c
}

/// No client appears twice in `ms`.
pub open spec fn members_unique(ms: Seq<MemberModel>) -> bool {
    forall|k1: int, k2: int|
        #![trigger ms[k1], ms[k2]]
        0 <= k1 < k2 < ms.len() ==> ms[k1].client_id != ms[k2].client_id
}

/// Every member of `ms` carries a nickname of 1 to `NICK_MAX` characters
/// and an inbox within the fanout capacity.
pub open spec fn members_bounded(ms: Seq<MemberModel>) -> bool {
    forall|k: int|
        #![trigger ms[k]]
        0 <= k < ms.len() ==> 1 <= ms[k].nickname.len() <= NICK_MAX && ms[k].inbox.len()
            <= FANOUT_CAP
}

/// Some room of `rs` bears the identifier `id`.
pub open spec fn has_room(rs: Seq<RoomModel>, id: Seq<char>) -> bool {
    exists|i: int| 0 <= i < rs.len() && (#[trigger] rs[i]).id == id
}

/// No identifier names two rooms of `rs`.
pub open spec fn room_ids_unique(rs: Seq<RoomModel>) -> bool {
    forall|i: int, j: int|
        #![trigger rs[i], rs[j]]
        0 <= i < j < rs.len() ==> rs[i].id != rs[j].id
}

/// Client `c` is a member of some room of `rs`.
pub open spec fn in_some_room(rs: Seq<RoomModel>, c: u64) -> bool {
    exists|i: int| 0 <= i < rs.len() && has_member((#[trigger] rs[i]).members, c)
}

/// No client is a member of two distinct rooms of `rs`.
pub open spec fn rooms_disjoint(rs: Seq<RoomModel>) -> bool {
    forall|i: int, j: int, c: u64|
        #![trigger has_member(rs[i].members, c), has_member(rs[j].members, c)]
        0 <= i < rs.len() && 0 <= j < rs.len() && i != j ==> !(has_member(rs[i].members, c)
            && has_member(rs[j].members, c))
}

/// Every registered room has at least one member.
pub open spec fn no_empty_rooms(rs: Seq<RoomModel>) -> bool {
    forall|i: int| #![trigger rs[i]] 0 <= i < rs.len() ==> rs[i].members.len() > 0
}

/// `q` after a bounded push: the message enters at the back, and if the
/// queue was full its oldest entry leaves at the front.
pub open spec fn push_drop(q: Seq<MessageModel>, m: MessageModel) -> Seq<MessageModel> {
    if q.len() >= FANOUT_CAP {
        q.drop_first().push(m)
    } else {
        q.push(m)
    }
}

/// `mb` after `m` is delivered into its inbox.
pub open spec fn deliver_one(mb: MemberModel, m: MessageModel) -> MemberModel {
    MemberModel { client_id: mb.client_id, nickname: mb.nickname, inbox: push_drop(mb.inbox, m) }
}

/// `ms` after `m` is delivered into every member's inbox.
pub open spec fn publish_to(ms: Seq<MemberModel>, m: MessageModel) -> Seq<MemberModel> {
    ms.map_values(|mb: MemberModel| deliver_one(mb, m))
}

impl ServerState {
    /// Structural soundness of the shared state: identifiers are unique,
    /// no client sits in two rooms or twice in one, and every stored
    /// nickname and inbox respects its bound.
    pub open spec fn inv(self) -> bool {
        let rs = self@.rooms;
        &&& room_ids_unique(rs)
        &&& rooms_disjoint(rs)
        &&& forall|i: int|
            #![trigger rs[i]]
            0 <= i < rs.len() ==> members_unique(rs[i].members) && members_bounded(rs[i].members)
    }

    /// A fresh state: no rooms, no clients handed out.
    pub fn new() -> (s: Self)
        ensures
            s@.rooms.len() == 0,
            s@.client_counter == 0,
            s.inv(),
    {
        ServerState { rooms: Vec::new(), client_counter: 0 }
    }

    /// Hands out the next client identity; identities increase and are
    /// never reused.
    pub fn fresh_client_id(&mut self) -> (c: u64)
        requires
            old(self)@.client_counter < u64::MAX,
        ensures
            c == old(self)@.client_counter + 1,
            final(self)@.client_counter == c,
            final(self)@.rooms == old(self)@.rooms,
    {
        self.client_counter = self.client_counter + 1;
        self.client_counter
    }

    /// Looks the identifier up in the registry.
    pub fn get_room(&self, room_id: &str) -> (r: Option<usize>)
        ensures
            match r {
                Some(i) => i < self@.rooms.len() && self@.rooms[i as int].id == room_id@,
                None => !has_room(self@.rooms, room_id@),
            },
    {
        let n = self.rooms.len();
        let mut j: usize = 0;
        while j < n
            invariant
                j <= n,
                n == self@.rooms.len(),
                forall|k: int| 0 <= k < j ==> (#[trigger] self@.rooms[k]).id != room_id@,
            decreases n - j,
        {
            if text::str_eq(self.rooms[j].id.as_str(), room_id) {
                return Some(j);
            }
            j += 1;
        }
        None
    }

    /// Picks an identifier no live room bears: random seeds are drawn and
    /// checked, a colliding draw regenerated; if every draw collides, the
    /// candidate is made collision-proof by exceeding every live
    /// identifier's length.
    fn pick_fresh_id(&self) -> (id: String)
        ensures
            !has_room(self@.rooms, id@),
            id@.len() >= 10,
            id@.subrange(0, 5) == "room-"@,
    {
        let mut attempts: usize = 0;
        while attempts < 16
            invariant
                attempts <= 16,
            decreases 16 - attempts,
        {
            let seed: u64 = rand::random::<u64>();
            let id = ids::room_id_from_seed(seed);
            if self.get_room(id.as_str()).is_none() {
                proof {
                    reveal_strlit("room-");
                    assert(id@.subrange(0, 5) =~= "room-"@);
                }
                return id;
            }
            attempts += 1;
        }
        let n = self.rooms.len();
        let mut len_max: usize = 5;
        let mut j: usize = 0;
        while j < n
            invariant
                j <= n,
                n == self@.rooms.len(),
                5 <= len_max,
                forall|k: int| 0 <= k < j ==> (#[trigger] self@.rooms[k]).id.len() <= len_max,
            decreases n - j,
        {
            let l = self.rooms[j].id.as_str().unicode_len();
            if l > len_max {
                len_max = l;
            }
            j += 1;
        }
        proof {
            reveal_strlit("room-");
        }
        let mut id = String::from_str("room-");
        let mut grow: usize = 0;
        while id.as_str().unicode_len() <= len_max || grow < 5
            invariant
                5 <= len_max,
                id@.len() == 5 + grow,
                id@.subrange(0, 5) == "room-"@,
            decreases (len_max + 1) - grow,
        {
            proof {
                reveal_strlit("a");
            }
            id.append("a");
            grow += 1;
            proof {
                assert(id@.subrange(0, 5) =~= "room-"@);
            }
        }
        proof {
            assert forall|k: int| 0 <= k < self@.rooms.len() implies (#[trigger] self@.rooms[k]).id
                != id@ by {
                assert(self@.rooms[k].id.len() <= len_max);
            }
        }
        id
    }

    /// Creates an empty room under a fresh identifier and returns that
    /// identifier.
    pub fn create_room(&mut self) -> (id: String)
        requires
            old(self).inv(),
        ensures
            final(self).inv(),
            final(self)@.client_counter == old(self)@.client_counter,
            !has_room(old(self)@.rooms, id@),
            id@.len() >= 10,
            id@.subrange(0, 5) == "room-"@,
            final(self)@.rooms == old(self)@.rooms.push(
                RoomModel { id: id@, members: Seq::empty() },
            ),
    {
        let id = self.pick_fresh_id();
        let room = Room { id: id.clone(), members: Vec::new() };
        self.rooms.push(room);
        proof {
            let rs0 = old(self)@.rooms;
            let rs = self@.rooms;
            assert(rs =~~= rs0.push(RoomModel { id: id@, members: Seq::empty() }));
            assert forall|i: int, j: int|
                #![trigger rs[i], rs[j]]
                0 <= i < j < rs.len() implies rs[i].id != rs[j].id by {
                if j == rs0.len() {
                    assert(rs[i] == rs0[i]);
                }
            }
            assert forall|i: int, j: int, c: u64|
                #![trigger has_member(rs[i].members, c), has_member(rs[j].members, c)]
                0 <= i < rs.len() && 0 <= j < rs.len() && i != j implies !(has_member(
                rs[i].members,
                c,
            ) && has_member(rs[j].members, c)) by {
                if i < rs0.len() && j < rs0.len() {
                    assert(!(has_member(rs0[i].members, c) && has_member(rs0[j].members, c)));
                }
            }
        }
        id
    }

    /// Removes the room named `room_id` exactly when it is registered and
    /// currently has no members; otherwise changes nothing.
    pub fn remove_room_if_empty(&mut self, room_id: &str)
        requires
            old(self).inv(),
        ensures
            final(self).inv(),
            final(self)@.client_counter == old(self)@.client_counter,
            forall|i: int|
                0 <= i < old(self)@.rooms.len() && (#[trigger] old(self)@.rooms[i]).id == room_id@
                    && old(self)@.rooms[i].members.len() == 0 ==> final(self)@.rooms == old(self)@.rooms.remove(i),
            (!exists|i: int|
                0 <= i < old(self)@.rooms.len() && (#[trigger] old(self)@.rooms[i]).id == room_id@
                    && old(self)@.rooms[i].members.len() == 0) ==> final(self)@.rooms == old(self)@.rooms,
    {
        let found = self.get_room(room_id);
        match found {
            Some(i) => {
                if self.rooms[i].members.len() == 0 {
                    self.rooms.remove(i);
                    proof {
                        let rs0 = old(self)@.rooms;
                        let rs = self@.rooms;
                        assert(rs =~~= rs0.remove(i as int));
                        assert forall|a: int, b: int|
                            #![trigger rs[a], rs[b]]
                            0 <= a < b < rs.len() implies rs[a].id != rs[b].id by {
                            let a0 = if a < i as int {
                                a
                            } else {
                                a + 1
                            };
                            let b0 = if b < i as int {
                                b
                            } else {
                                b + 1
                            };
                            assert(rs[a] == rs0[a0] && rs[b] == rs0[b0]);
                        }
                        assert forall|a: int, b: int, c: u64|
                            #![trigger has_member(rs[a].members, c), has_member(rs[b].members, c)]
                            0 <= a < rs.len() && 0 <= b < rs.len() && a != b implies !(has_member(
                            rs[a].members,
                            c,
                        ) && has_member(rs[b].members, c)) by {
                            let a0 = if a < i as int {
                                a
                            } else {
                                a + 1
                            };
                            let b0 = if b < i as int {
                                b
                            } else {
                                b + 1
                            };
                            assert(rs[a] == rs0[a0] && rs[b] == rs0[b0]);
                            assert(!(has_member(rs0[a0].members, c) && has_member(
                                rs0[b0].members,
                                c,
                            )));
                        }
                        assert forall|i2: int|
                            0 <= i2 < rs0.len() && (#[trigger] rs0[i2]).id == room_id@
                                && rs0[i2].members.len() == 0 implies self@.rooms == rs0.remove(
                            i2,
                        ) by {
                            assert(i2 == i as int);
                        }
                    }
                }
            },
            None => {
                proof {
                    assert forall|i2: int|
                        0 <= i2 < old(self)@.rooms.len() && (#[trigger] old(self)@.rooms[i2]).id
                            == room_id@ && old(self)@.rooms[i2].members.len() == 0 implies final(self)@.rooms == old(self)@.rooms.remove(i2) by {
                        assert(has_room(old(self)@.rooms, room_id@));
                    }
                }
            },
        }
    }

    /// Adds client `client_id` to the room at index `i` under `nickname`,
    /// with an empty inbox.
    pub fn add_member(&mut self, i: usize, client_id: u64, nickname: &str)
        requires
            old(self).inv(),
            i < old(self)@.rooms.len(),
            !in_some_room(old(self)@.rooms, client_id),
            1 <= nickname@.len() <= NICK_MAX,
        ensures
            final(self).inv(),
            final(self)@.client_counter == old(self)@.client_counter,
            final(self)@.rooms == old(self)@.rooms.update(
                i as int,
                RoomModel {
                    id: old(self)@.rooms[i as int].id,
                    members: old(self)@.rooms[i as int].members.push(
                        MemberModel {
                            client_id,
                            nickname: nickname@,
                            inbox: Seq::empty(),
                        },
                    ),
                },
            ),
    {
        let mut room = self.rooms.remove(i);
        room.members.push(
            Member { client_id, nickname: String::from_str(nickname), inbox: Vec::new() },
        );
        self.rooms.insert(i, room);
        proof {
            let rs0 = old(self)@.rooms;
            let rs = self@.rooms;
            let mm = MemberModel { client_id, nickname: nickname@, inbox: Seq::empty() };
            let newroom = RoomModel { id: rs0[i as int].id, members: rs0[i as int].members.push(mm) };
            assert(rs =~~= rs0.update(i as int, newroom));
            let ms = newroom.members;
            let ms0 = rs0[i as int].members;
            assert forall|k1: int, k2: int|
                #![trigger ms[k1], ms[k2]]
                0 <= k1 < k2 < ms.len() implies ms[k1].client_id != ms[k2].client_id by {
                if k2 == ms0.len() {
                    assert(!has_member(rs0[i as int].members, client_id));
                    assert(ms[k1] == ms0[k1]);
                }
            }
            assert forall|a: int, b: int, c: u64|
                #![trigger has_member(rs[a].members, c), has_member(rs[b].members, c)]
                0 <= a < rs.len() && 0 <= b < rs.len() && a != b implies !(has_member(
                rs[a].members,
                c,
            ) && has_member(rs[b].members, c)) by {
                if has_member(rs[a].members, c) && has_member(rs[b].members, c) {
                    let ka = choose|k: int|
                        0 <= k < rs[a].members.len() && (#[trigger] rs[a].members[k]).client_id
                            == c;
                    let kb = choose|k: int|
                        0 <= k < rs[b].members.len() && (#[trigger] rs[b].members[k]).client_id
                            == c;
                    if a == i as int && ka == ms0.len() {
                        assert(c == client_id);
                        assert(rs[b] == rs0[b]);
                        assert(has_member(rs0[b].members, c));
                        assert(in_some_room(rs0, client_id));
                    } else if b == i as int && kb == ms0.len() {
                        assert(c == client_id);
                        assert(rs[a] == rs0[a]);
                        assert(has_member(rs0[a].members, c));
                        assert(in_some_room(rs0, client_id));
                    } else {
                        assert(has_member(rs0[a].members, c));
                        assert(has_member(rs0[b].members, c));
                        assert(!(has_member(rs0[a].members, c) && has_member(rs0[b].members, c)));
                    }
                }
            }
        }
    }

    /// Removes client `client_id` from the room at index `i`, if present.
    pub fn remove_member(&mut self, i: usize, client_id: u64)
        requires
            old(self).inv(),
            i < old(self)@.rooms.len(),
        ensures
            final(self).inv(),
            final(self)@.client_counter == old(self)@.client_counter,
            !has_member(old(self)@.rooms[i as int].members, client_id) ==> final(self)@ == old(self)@,
            has_member(old(self)@.rooms[i as int].members, client_id) ==> exists|k: int|
                0 <= k < old(self)@.rooms[i as int].members.len() && (#[trigger] old(self)@.rooms[i as int].members[k]).client_id == client_id && final(self)@.rooms == old(self)@.rooms.update(
                    i as int,
                    RoomModel {
                        id: old(self)@.rooms[i as int].id,
                        members: old(self)@.rooms[i as int].members.remove(k),
                    },
                ),
    {
        let idx = member_index(&self.rooms[i].members, client_id);
        match idx {
            None => {
            },
            Some(k) => {
                let mut room = self.rooms.remove(i);
                room.members.remove(k);
                self.rooms.insert(i, room);
                proof {
                    let rs0 = old(self)@.rooms;
                    let rs = self@.rooms;
                    let ms0 = rs0[i as int].members;
                    let newroom = RoomModel { id: rs0[i as int].id, members: ms0.remove(k as int) };
                    assert(rs =~~= rs0.update(i as int, newroom));
                    let ms = newroom.members;
                    assert forall|k1: int, k2: int|
                        #![trigger ms[k1], ms[k2]]
                        0 <= k1 < k2 < ms.len() implies ms[k1].client_id != ms[k2].client_id by {
                        let a0 = if k1 < k as int {
                            k1
                        } else {
                            k1 + 1
                        };
                        let b0 = if k2 < k as int {
                            k2
                        } else {
                            k2 + 1
                        };
                        assert(ms[k1] == ms0[a0] && ms[k2] == ms0[b0]);
                    }
                    assert forall|a: int, b: int, c: u64|
                        #![trigger has_member(rs[a].members, c), has_member(rs[b].members, c)]
                        0 <= a < rs.len() && 0 <= b < rs.len() && a != b implies !(has_member(
                        rs[a].members,
                        c,
                    ) && has_member(rs[b].members, c)) by {
                        if has_member(rs[a].members, c) && has_member(rs[b].members, c) {
                            assert(has_member(rs0[a].members, c)) by {
                                if a == i as int {
                                    let ka = choose|k1: int|
                                        0 <= k1 < rs[a].members.len() && (#[trigger] rs[a].members[k1]).client_id == c;
                                    let a0 = if ka < k as int {
                                        ka
                                    } else {
                                        ka + 1
                                    };
                                    assert(ms0[a0].client_id == c);
                                }
                            }
                            assert(has_member(rs0[b].members, c)) by {
                                if b == i as int {
                                    let kb = choose|k1: int|
                                        0 <= k1 < rs[b].members.len() && (#[trigger] rs[b].members[k1]).client_id == c;
                                    let b0 = if kb < k as int {
                                        kb
                                    } else {
                                        kb + 1
                                    };
                                    assert(ms0[b0].client_id == c);
                                }
                            }
                            assert(!(has_member(rs0[a].members, c) && has_member(
                                rs0[b].members,
                                c,
                            )));
                        }
                    }
                }
            },
        }
    }

    /// Publishes a message into the room at index `i`: every member's
    /// inbox receives it, the fullest inboxes dropping their oldest entry.
    #[verifier::loop_isolation(false)]
    pub fn publish(&mut self, i: usize, sender: u64, nickname: &str, text: &str)
        requires
            old(self).inv(),
            i < old(self)@.rooms.len(),
        ensures
            final(self).inv(),
            final(self)@.client_counter == old(self)@.client_counter,
            final(self)@.rooms == old(self)@.rooms.update(
                i as int,
                RoomModel {
                    id: old(self)@.rooms[i as int].id,
                    members: publish_to(
                        old(self)@.rooms[i as int].members,
                        MessageModel { sender, nickname: nickname@, text: text@ },
                    ),
                },
            ),
    {
        let ghost m = MessageModel { sender, nickname: nickname@, text: text@ };
        let mut room = self.rooms.remove(i);
        let ghost ms0 = room@.members;
        let mut k: usize = 0;
        while k < room.members.len()
            invariant
                k <= room@.members.len(),
                room@.members.len() == ms0.len(),
                room@.id == old(self)@.rooms[i as int].id,
                forall|j: int|
                    #![trigger room@.members[j]]
                    0 <= j < k ==> room@.members[j] == deliver_one(ms0[j], m),
                forall|j: int|
                    #![trigger room@.members[j]]
                    k <= j < ms0.len() ==> room@.members[j] == ms0[j],
            decreases ms0.len() - k,
        {
            let ghost v0 = room.members@;
            proof {
                assert forall|j: int| 0 <= j < k implies v0[j]@ == deliver_one(ms0[j], m) by {
                    assert(room@.members[j] == v0[j]@);
                }
                assert forall|j: int| k <= j < ms0.len() implies v0[j]@ == ms0[j] by {
                    assert(room@.members[j] == v0[j]@);
                }
                assert(room@.members[k as int] == ms0[k as int]);
            }
            let mut mb = room.members.remove(k);
            let ghost v1 = room.members@;
            proof {
                assert(mb@ =~~= ms0[k as int]);
            }
            let ghost inbox0 = mb@.inbox;
            if mb.inbox.len() >= FANOUT_CAP {
                mb.inbox.remove(0);
                proof {
                    assert(mb@.inbox =~~= inbox0.drop_first());
                }
            }
            let ghost before_push = mb.inbox@;
            let msg = Message { sender, nickname: String::from_str(nickname), text: String::from_str(text) };
            proof {
                assert(msg@ =~~= m);
            }
            mb.inbox.push(msg);
            proof {
                assert(mb.inbox@ == before_push.push(msg));
                assert forall|t: int| 0 <= t < mb.inbox@.len() implies #[trigger] mb@.inbox[t]
                    == push_drop(inbox0, m)[t] by {
                    if t < before_push.len() {
                        assert(mb@.inbox[t] == before_push[t]@);
                    } else {
                        assert(mb@.inbox[t] == msg@);
                    }
                }
                assert(mb@.inbox =~~= push_drop(inbox0, m));
                assert(mb@ =~~= deliver_one(ms0[k as int], m));
            }
            let ghost mbsnap = mb;
            room.members.insert(k, mb);
            let ghost v2 = room.members@;
            proof {
                assert forall|j: int| 0 <= j < ms0.len() && j != k implies v2[j] == v0[j] by {
                    if j < k {
                        assert(v2[j] == v1[j]);
                        assert(v1[j] == v0[j]);
                    } else {
                        assert(v2[j] == v1[j - 1]);
                        assert(v1[j - 1] == v0[j]);
                    }
                }
                assert(v2[k as int] == mbsnap);
                assert forall|j: int|
                    #![trigger room@.members[j]]
                    0 <= j < k + 1 implies room@.members[j] == deliver_one(ms0[j], m) by {
                    assert(room@.members[j] == v2[j]@);
                    if j < k {
                        assert(v0[j]@ == deliver_one(ms0[j], m));
                    } else {
                        assert(v2[j]@ == mbsnap@);
                    }
                }
                assert forall|j: int|
                    #![trigger room@.members[j]]
                    k + 1 <= j < ms0.len() implies room@.members[j] == ms0[j] by {
                    assert(room@.members[j] == v2[j]@);
                    assert(v0[j]@ == ms0[j]);
                }
            }
            k += 1;
        }
        self.rooms.insert(i, room);
        proof {
            let rs0 = old(self)@.rooms;
            let rs = self@.rooms;
            assert(room@.members =~~= publish_to(ms0, m));
            assert(rs =~~= rs0.update(
                i as int,
                RoomModel { id: rs0[i as int].id, members: publish_to(ms0, m) },
            ));
            let ms2 = publish_to(ms0, m);
            assert forall|a: int, b: int, c: u64|
                #![trigger has_member(rs[a].members, c), has_member(rs[b].members, c)]
                0 <= a < rs.len() && 0 <= b < rs.len() && a != b implies !(has_member(
                rs[a].members,
                c,
            ) && has_member(rs[b].members, c)) by {
                if has_member(rs[a].members, c) && has_member(rs[b].members, c) {
                    assert(has_member(rs0[a].members, c)) by {
                        if a == i as int {
                            let ka = choose|k1: int|
                                0 <= k1 < rs[a].members.len() && (#[trigger] rs[a].members[k1]).client_id == c;
                            assert(ms0[ka].client_id == c);
                        }
                    }
                    assert(has_member(rs0[b].members, c)) by {
                        if b == i as int {
                            let kb = choose|k1: int|
                                0 <= k1 < rs[b].members.len() && (#[trigger] rs[b].members[k1]).client_id == c;
                            assert(ms0[kb].client_id == c);
                        }
                    }
                    assert(!(has_member(rs0[a].members, c) && has_member(rs0[b].members, c)));
                }
            }
            assert forall|k1: int, k2: int|
                #![trigger ms2[k1], ms2[k2]]
                0 <= k1 < k2 < ms2.len() implies ms2[k1].client_id != ms2[k2].client_id by {
                assert(ms0[k1].client_id != ms0[k2].client_id);
            }
        }
    }
}

/// Index of client `client_id` in `members`, if present.
pub fn member_index(members: &Vec<Member>, client_id: u64) -> (r: Option<usize>)
    ensures
        match r {
            Some(k) => k < members@.len() && members@.map_values(|m: Member| m@)[k as int].client_id
                == client_id,
            None => !has_member(members@.map_values(|m: Member| m@), client_id),
        },
{
    let ghost msv = members@.map_values(|m: Member| m@);
    let n = members.len();
    let mut k: usize = 0;
    while k < n
        invariant
            k <= n,
            n == members@.len(),
            msv == members@.map_values(|m: Member| m@),
            forall|j: int| 0 <= j < k ==> (#[trigger] msv[j]).client_id != client_id,
        decreases n - k,
    {
        if members[k].client_id == client_id {
            return Some(k);
        }
        k += 1;
    }
    None
}

/// Law: under the state invariant a client is a member of at most one
/// room — membership in rooms `i` and `j` forces `i == j`.
pub proof fn lemma_member_of_at_most_one_room(s: ServerState, c: u64, i: int, j: int)
    requires
        s.inv(),
        0 <= i < s@.rooms.len(),
        0 <= j < s@.rooms.len(),
        has_member(s@.rooms[i].members, c),
        has_member(s@.rooms[j].members, c),
    ensures
        i == j,
{
    assert(rooms_disjoint(s@.rooms));
}

} // verus!
