//! The per-connection session: nickname handshake, command parsing, and
//! the dispatcher that turns one received line into registry mutations,
//! direct replies, a possible room publish, and a relay instruction.

use vstd::prelude::*;

use crate::model::{
    MSG_MAX, MemberModel, MessageModel, NICK_MAX, RoomModel, ServerState, StateModel, has_member,
    has_room, in_some_room, no_empty_rooms, publish_to, room_ids_unique,
};
use crate::text;

verus! {

/// One parsed input line.
pub enum Command {
    /// `/create`
    Create,
    /// `/join <id>` with its argument
    Join(String),
    /// `/join` without an argument
    JoinUsage,
    /// `/quit`
    Quit,
    /// `/help`
    Help,
    /// any other `/`-prefixed token
    Unknown(String),
    /// plain chat text (the trimmed line)
    Chat(String),
    /// a blank line
    Empty,
}

/// Parses one received line: trims it, classifies `/`-prefixed tokens,
/// and treats anything else as chat text.
pub fn parse(line: &str) -> (r: Command)
    ensures
        ({
            let t = text::trim_spec(line@);
            let ft = text::first_token(t);
            let arg = text::first_token(text::rest_after_token(t));
            match r {
                Command::Empty => t.len() == 0,
                Command::Chat(s) => t.len() > 0 && t[0] != '/' && s@ == t,
                Command::Create => t.len() > 0 && t[0] == '/' && ft == "/create"@,
                Command::JoinUsage => t.len() > 0 && t[0] == '/' && ft == "/join"@ && arg.len()
                    == 0,
                Command::Join(a) => t.len() > 0 && t[0] == '/' && ft == "/join"@ && a@ == arg
                    && arg.len() > 0,
                Command::Quit => t.len() > 0 && t[0] == '/' && ft == "/quit"@,
                Command::Help => t.len() > 0 && t[0] == '/' && ft == "/help"@,
                Command::Unknown(cmd) => t.len() > 0 && t[0] == '/' && cmd@ == ft && ft
                    != "/create"@ && ft != "/join"@ && ft != "/quit"@ && ft != "/help"@,
            }
        }),
{
    let t = text::trim(line);
    let n = t.as_str().unicode_len();
    if n == 0 {
        return Command::Empty;
    }
    if t.as_str().get_char(0) != '/' {
        return Command::Chat(t);
    }
    let (tok, rest) = text::split_first(t.as_str());
    if text::str_eq(tok.as_str(), "/create") {
        Command::Create
    } else if text::str_eq(tok.as_str(), "/join") {
        let (arg, _tail) = text::split_first(rest.as_str());
        if arg.as_str().unicode_len() == 0 {
            Command::JoinUsage
        } else {
            Command::Join(arg)
        }
    } else if text::str_eq(tok.as_str(), "/quit") {
        Command::Quit
    } else if text::str_eq(tok.as_str(), "/help") {
        Command::Help
    } else {
        Command::Unknown(tok)
    }
}

/// Server-side state of one connection: its identity, stored nickname,
/// and the room it currently sits in, if any.
pub struct Session {
    pub client_id: u64,
    pub nickname: String,
    pub room: Option<String>,
}

impl Session {
    /// The stored nickname respects its length bounds.
    pub open spec fn wf(self) -> bool {
        1 <= self.nickname@.len() <= NICK_MAX
    }

    /// The identifier of the current room, at the model level.
    pub open spec fn room_id(self) -> Option<Seq<char>> {
        match self.room {
            Some(id) => Some(id@),
            None => None,
        }
    }

    /// The session agrees with the shared state: its current room is
    /// registered and holds this client, or it is in no room at all.
    pub open spec fn coherent(self, st: ServerState) -> bool {
        match self.room {
            Some(id) => exists|i: int|
                0 <= i < st@.rooms.len() && (#[trigger] st@.rooms[i]).id == id@ && has_member(
                    st@.rooms[i].members,
                    self.client_id,
                ),
            None => !in_some_room(st@.rooms, self.client_id),
        }
    }
}

/// What the connection's relay task must do after a dispatched line.
pub enum RelayChange {
    /// keep the current subscription, if any
    Keep,
    /// the client left its room: stop the relay bound to it
    Cancel,
    /// the client entered the named room: stop any old relay, then relay
    /// that room
    Subscribe(String),
}

/// Everything one dispatched line asks of the surrounding connection:
/// direct replies for the outbound queue, the relay instruction, and the
/// room whose members should be woken because something was published.
pub struct Outcome {
    pub replies: Vec<String>,
    pub relay: RelayChange,
    pub notify: Option<String>,
}

/// The views of a reply list.
pub open spec fn reply_views(v: Seq<String>) -> Seq<Seq<char>> {
    v.map_values(|s: String| s@)
}

pub open spec fn created_reply(id: Seq<char>) -> Seq<char> {
    "Room created: "@ + id + "\nShare this ID with others to join.\n"@
}

pub open spec fn joined_reply(id: Seq<char>) -> Seq<char> {
    "Joined room: "@ + id + "\n"@
}

pub open spec fn not_found_reply(id: Seq<char>) -> Seq<char> {
    "Room not found: "@ + id + "\n"@
}

pub open spec fn unknown_reply(cmd: Seq<char>) -> Seq<char> {
    "Unknown command: "@ + cmd + "\n"@
}

pub open spec fn help_reply() -> Seq<char> {
    "Commands:\n  /create       - Create a new room\n  /join <id>    - Join existing room\n  /quit         - Leave room\n  /help         - Show commands\n"@
}

pub open spec fn usage_reply() -> Seq<char> {
    "Usage: /join <room-id>\n"@
}

pub open spec fn left_reply() -> Seq<char> {
    "Left the room.\n"@
}

pub open spec fn not_in_room_reply() -> Seq<char> {
    "You are not in any room.\n"@
}

pub open spec fn must_join_reply() -> Seq<char> {
    "You must join a room first. Use /create or /join <id>\n"@
}

/// The join notice published when a client enters a room.
pub open spec fn join_notice(nick: Seq<char>) -> Seq<char> {
    "["@ + nick + " joined]"@
}

/// Chat text as published: cut to the message limit.
pub open spec fn chat_text(t: Seq<char>) -> Seq<char> {
    if t.len() <= MSG_MAX {
        t
    } else {
        t.subrange(0, MSG_MAX as int)
    }
}

/// How leaving the current room transforms the registry: the client's
/// membership goes, and the room itself goes exactly when that emptied it.
pub open spec fn leave_post(
    rs0: Seq<RoomModel>,
    cur: Option<Seq<char>>,
    c: u64,
    rs1: Seq<RoomModel>,
) -> bool {
    match cur {
        None => rs1 == rs0,
        Some(id) => exists|i: int, k: int|
            #![trigger rs0[i].members[k]]
            0 <= i < rs0.len() && rs0[i].id == id && 0 <= k < rs0[i].members.len()
                && rs0[i].members[k].client_id == c && rs1 == (if rs0[i].members.len() == 1 {
                rs0.remove(i)
            } else {
                rs0.update(i, RoomModel { id: rs0[i].id, members: rs0[i].members.remove(k) })
            }),
    }
}

/// Everything one dispatched line promises, case by case over the trimmed
/// input: the registry and session transformation, the exact replies, and
/// the relay and wake-up instructions.
pub open spec fn dispatch_post(
    st0: StateModel,
    st1: StateModel,
    s0: Session,
    s1: Session,
    line: Seq<char>,
    out: Outcome,
) -> bool {
    let t = text::trim_spec(line);
    let ft = text::first_token(t);
    let arg = text::first_token(text::rest_after_token(t));
    let rs0 = st0.rooms;
    let c = s0.client_id;
    let nick = s0.nickname@;
    let rv = reply_views(out.replies@);
    if t.len() == 0 {
        st1 == st0 && s1.room == s0.room && rv == Seq::<Seq<char>>::empty() && out.relay is Keep
            && out.notify is None
    } else if t[0] != '/' {
        match s0.room {
            None => st1 == st0 && s1.room is None && rv == seq![must_join_reply()]
                && out.relay is Keep && out.notify is None,
            Some(id) => exists|i: int|
                0 <= i < rs0.len() && (#[trigger] rs0[i]).id == id@ && st1.rooms == rs0.update(
                    i,
                    RoomModel {
                        id: rs0[i].id,
                        members: publish_to(
                            rs0[i].members,
                            MessageModel { sender: c, nickname: nick, text: chat_text(t) },
                        ),
                    },
                ) && s1.room == s0.room && rv == Seq::<Seq<char>>::empty() && out.relay is Keep
                    && (match out.notify {
                    Some(r) => r@ == id@,
                    None => false,
                }),
        }
    } else if ft == "/create"@ {
        exists|nid: Seq<char>, mid: Seq<RoomModel>|
            leave_post(rs0, s0.room_id(), c, mid) && !has_room(mid, nid) && nid.len() >= 10
                && nid.subrange(0, 5) == "room-"@ && st1.rooms == mid.push(
                RoomModel {
                    id: nid,
                    members: seq![
                        MemberModel {
                            client_id: c,
                            nickname: nick,
                            inbox: seq![
                                MessageModel { sender: c, nickname: nick, text: join_notice(nick) },
                            ],
                        },
                    ],
                },
            ) && (match s1.room {
                Some(r) => r@ == nid,
                None => false,
            }) && rv == seq![created_reply(nid)] && (match out.relay {
                RelayChange::Subscribe(r) => r@ == nid,
                _ => false,
            }) && (match out.notify {
                Some(r) => r@ == nid,
                None => false,
            })
    } else if ft == "/join"@ {
        if arg.len() == 0 {
            st1 == st0 && s1.room == s0.room && rv == seq![usage_reply()] && out.relay is Keep
                && out.notify is None
        } else if !has_room(rs0, arg) {
            st1 == st0 && s1.room == s0.room && rv == seq![not_found_reply(arg)]
                && out.relay is Keep && out.notify is None
        } else {
            exists|mid: Seq<RoomModel>|
                #![trigger leave_post(rs0, s0.room_id(), c, mid)]
                leave_post(rs0, s0.room_id(), c, mid) && (if has_room(mid, arg) {
                    exists|j: int|
                        0 <= j < mid.len() && (#[trigger] mid[j]).id == arg && st1.rooms
                            == mid.update(
                            j,
                            RoomModel {
                                id: arg,
                                members: publish_to(
                                    mid[j].members.push(
                                        MemberModel {
                                            client_id: c,
                                            nickname: nick,
                                            inbox: Seq::empty(),
                                        },
                                    ),
                                    MessageModel {
                                        sender: c,
                                        nickname: nick,
                                        text: join_notice(nick),
                                    },
                                ),
                            },
                        ) && (match s1.room {
                            Some(r) => r@ == arg,
                            None => false,
                        }) && rv == seq![joined_reply(arg)] && (match out.relay {
                            RelayChange::Subscribe(r) => r@ == arg,
                            _ => false,
                        }) && (match out.notify {
                            Some(r) => r@ == arg,
                            None => false,
                        })
                } else {
                    st1.rooms == mid && s1.room is None && rv == seq![not_found_reply(arg)]
                        && out.relay is Cancel && out.notify is None
                })
        }
    } else if ft == "/quit"@ {
        match s0.room {
            None => st1 == st0 && s1.room is None && rv == seq![not_in_room_reply()]
                && out.relay is Keep && out.notify is None,
            Some(id) => leave_post(rs0, s0.room_id(), c, st1.rooms) && s1.room is None && rv
                == seq![left_reply()] && out.relay is Cancel && out.notify is None,
        }
    } else if ft == "/help"@ {
        st1 == st0 && s1.room == s0.room && rv == seq![help_reply()] && out.relay is Keep
            && out.notify is None
    } else {
        st1 == st0 && s1.room == s0.room && rv == seq![unknown_reply(ft)] && out.relay is Keep
            && out.notify is None
    }
}

proof fn lemma_cmd_literals_distinct()
    ensures
        "/create"@ != "/join"@,
        "/create"@ != "/quit"@,
        "/create"@ != "/help"@,
        "/join"@ != "/quit"@,
        "/join"@ != "/help"@,
        "/quit"@ != "/help"@,
{
    reveal_strlit("/create");
    reveal_strlit("/join");
    reveal_strlit("/quit");
    reveal_strlit("/help");
    assert("/create"@.len() == 7);
    assert("/join"@.len() == 5);
    assert("/quit"@.len() == 5);
    assert("/help"@.len() == 5);
    assert("/join"@[1] == 'j');
    assert("/quit"@[1] == 'q');
    assert("/help"@[1] == 'h');
}

/// Law: when a room's only member leaves it, the identifier no longer
/// names a registered room — the emptied room is removed synchronously.
pub proof fn lemma_sole_member_leave_removes_room(
    rs0: Seq<RoomModel>,
    id: Seq<char>,
    c: u64,
    rs1: Seq<RoomModel>,
)
    requires
        room_ids_unique(rs0),
        leave_post(rs0, Some(id), c, rs1),
        forall|i: int| 0 <= i < rs0.len() && (#[trigger] rs0[i]).id == id ==> rs0[i].members.len() == 1,
    ensures
        !has_room(rs1, id),
{
    let (i, k): (int, int) = choose|i: int, k: int|
        #![trigger rs0[i].members[k]]
        0 <= i < rs0.len() && rs0[i].id == id && 0 <= k < rs0[i].members.len()
            && rs0[i].members[k].client_id == c && rs1 == (if rs0[i].members.len() == 1 {
            rs0.remove(i)
        } else {
            rs0.update(i, RoomModel { id: rs0[i].id, members: rs0[i].members.remove(k) })
        });
    assert(rs0[i].members.len() == 1);
    assert(rs1 == rs0.remove(i));
    assert forall|j: int| 0 <= j < rs1.len() implies (#[trigger] rs1[j]).id != id by {
        let j0 = if j < i {
            j
        } else {
            j + 1
        };
        assert(rs1[j] == rs0[j0]);
        assert(j0 != i);
    }
}

/// Law: when a member leaves a room it shared with others, the room
/// stays registered under its identifier.
pub proof fn lemma_leave_keeps_shared_room(
    rs0: Seq<RoomModel>,
    id: Seq<char>,
    c: u64,
    rs1: Seq<RoomModel>,
)
    requires
        room_ids_unique(rs0),
        leave_post(rs0, Some(id), c, rs1),
        forall|i: int| 0 <= i < rs0.len() && (#[trigger] rs0[i]).id == id ==> rs0[i].members.len() > 1,
    ensures
        has_room(rs1, id),
{
    let (i, k): (int, int) = choose|i: int, k: int|
        #![trigger rs0[i].members[k]]
        0 <= i < rs0.len() && rs0[i].id == id && 0 <= k < rs0[i].members.len()
            && rs0[i].members[k].client_id == c && rs1 == (if rs0[i].members.len() == 1 {
            rs0.remove(i)
        } else {
            rs0.update(i, RoomModel { id: rs0[i].id, members: rs0[i].members.remove(k) })
        });
    assert(rs0[i].members.len() > 1);
    assert(rs1[i].id == id);
}

fn concat3(a: &str, b: &str, c: &str) -> (r: String)
    ensures
        r@ == a@ + b@ + c@,
{
    let mut s = String::from_str(a);
    s.append(b);
    s.append(c);
    s
}

fn one_reply(s: String) -> (v: Vec<String>)
    ensures
        reply_views(v@) == seq![s@],
{
    let ghost sv = s@;
    let mut v: Vec<String> = Vec::new();
    v.push(s);
    proof {
        assert(reply_views(v@) =~= seq![sv]);
    }
    v
}

/// Opens a session for a fresh connection: the first line names the
/// client.  A blank name defaults to `user-<clientId>`, a long one is cut
/// to the nickname limit; the handshake reply is `OK`.
pub fn new_session(client_id: u64, nick_line: &str) -> (r: (Session, String))
    ensures
        r.0.client_id == client_id,
        r.0.room is None,
        r.0.wf(),
        r.1@ == "OK\n"@,
        ({
            let t = text::trim_spec(nick_line@);
            r.0.nickname@ == (if t.len() == 0 {
                "user-"@ + text::dec_digits(client_id as nat)
            } else if t.len() <= NICK_MAX {
                t
            } else {
                t.subrange(0, NICK_MAX as int)
            })
        }),
{
    let t = text::trim(nick_line);
    let nickname = if t.as_str().unicode_len() == 0 {
        let digits = text::u64_to_dec(client_id);
        let mut s = String::from_str("user-");
        s.append(digits.as_str());
        proof {
            reveal_strlit("user-");
            text::lemma_dec_digits_len_u64(client_id);
        }
        s
    } else {
        text::truncate_chars(t.as_str(), NICK_MAX)
    };
    (Session { client_id, nickname, room: None }, String::from_str("OK\n"))
}

/// Removes the session's client from its current room, dropping the room
/// if that emptied it, and forgets the room on the session.  The caller
/// must also stop the relay bound to the old room.
pub fn leave_room(state: &mut ServerState, sess: &mut Session)
    requires
        old(state).inv(),
        old(sess).coherent(*old(state)),
    ensures
        final(state).inv(),
        final(sess).coherent(*final(state)),
        final(state)@.client_counter == old(state)@.client_counter,
        final(sess).client_id == old(sess).client_id,
        final(sess).nickname == old(sess).nickname,
        final(sess).room is None,
        leave_post(old(state)@.rooms, old(sess).room_id(), old(sess).client_id, final(state)@.rooms),
        !in_some_room(final(state)@.rooms, old(sess).client_id),
        no_empty_rooms(old(state)@.rooms) ==> no_empty_rooms(final(state)@.rooms),
{
    let cid = sess.client_id;
    let ghost rs0 = old(state)@.rooms;
    match &sess.room {
        None => {
            proof {
                assert(!in_some_room(rs0, cid));
            }
        },
        Some(id) => {
            match state.get_room(id.as_str()) {
                None => {
                    proof {
                        let w = choose|i: int|
                            0 <= i < rs0.len() && (#[trigger] rs0[i]).id == id@ && has_member(
                                rs0[i].members,
                                cid,
                            );
                        assert(has_room(rs0, id@));
                        assert(false);
                    }
                },
                Some(i) => {
                    proof {
                        let w = choose|i2: int|
                            0 <= i2 < rs0.len() && (#[trigger] rs0[i2]).id == id@ && has_member(
                                rs0[i2].members,
                                cid,
                            );
                        assert(w == i as int) by {
                            if w != i as int {
                                assert(rs0[w].id != rs0[i as int].id);
                            }
                        }
                        assert(has_member(rs0[i as int].members, cid));
                    }
                    state.remove_member(i, cid);
                    let ghost rs1 = state@.rooms;
                    let ghost k = choose|k: int|
                        0 <= k < rs0[i as int].members.len() && (#[trigger] rs0[i as int].members[k]).client_id
                            == cid && rs1 == rs0.update(
                            i as int,
                            RoomModel {
                                id: rs0[i as int].id,
                                members: rs0[i as int].members.remove(k),
                            },
                        );
                    state.remove_room_if_empty(id.as_str());
                    proof {
                        let rs2 = state@.rooms;
                        let ms0 = rs0[i as int].members;
                        if ms0.len() == 1 {
                            assert(rs1[i as int].members.len() == 0);
                            assert(rs1[i as int].id == id@);
                            assert(rs2 == rs1.remove(i as int));
                            assert(rs2 =~~= rs0.remove(i as int));
                        } else {
                            assert(rs1[i as int].members.len() == ms0.len() - 1);
                            assert forall|i2: int|
                                0 <= i2 < rs1.len() && (#[trigger] rs1[i2]).id == id@ implies rs1[i2].members.len()
                                != 0 by {
                                if i2 != i as int {
                                    assert(rs1[i2].id == rs0[i2].id && rs0[i2].id != rs0[i as int].id);
                                }
                            }
                            assert(rs2 == rs1);
                        }
                        assert(leave_post(rs0, old(sess).room_id(), cid, rs2)) by {
                            assert(rs0[i as int].members[k].client_id == cid);
                        }
                        assert(!in_some_room(rs2, cid)) by {
                            assert forall|j: int| 0 <= j < rs2.len() implies !has_member(
                                (#[trigger] rs2[j]).members,
                                cid,
                            ) by {
                                if ms0.len() == 1 {
                                    let j0 = if j < i as int {
                                        j
                                    } else {
                                        j + 1
                                    };
                                    assert(rs2[j] == rs0[j0]);
                                    if has_member(rs0[j0].members, cid) {
                                        assert(has_member(rs0[i as int].members, cid));
                                        assert(j0 != i as int);
                                        assert(false);
                                    }
                                } else {
                                    if j == i as int {
                                        if has_member(rs2[j].members, cid) {
                                            let kk = choose|kk: int|
                                                0 <= kk < rs2[j].members.len() && (#[trigger] rs2[j].members[kk]).client_id == cid;
                                            let kk0 = if kk < k {
                                                kk
                                            } else {
                                                kk + 1
                                            };
                                            assert(ms0[kk0].client_id == cid);
                                            assert(kk0 != k);
                                            assert(false);
                                        }
                                    } else {
                                        assert(rs2[j] == rs0[j]);
                                        if has_member(rs0[j].members, cid) {
                                            assert(has_member(rs0[i as int].members, cid));
                                            assert(false);
                                        }
                                    }
                                }
                            }
                        }
                        if no_empty_rooms(rs0) {
                            assert forall|j: int| 0 <= j < rs2.len() implies (#[trigger] rs2[j]).members.len()
                                > 0 by {
                                if ms0.len() == 1 {
                                    let j0 = if j < i as int {
                                        j
                                    } else {
                                        j + 1
                                    };
                                    assert(rs2[j] == rs0[j0]);
                                } else {
                                    if j != i as int {
                                        assert(rs2[j] == rs0[j]);
                                    }
                                }
                            }
                        }
                    }
                },
            }
        },
    }
    sess.room = None;
}

/// Dispatches one received line against the shared state: trims and
/// parses it, mutates registry and membership as the command asks,
/// publishes what must be fanned out, and returns the direct replies
/// together with the relay instruction for this connection.
pub fn handle_line(state: &mut ServerState, sess: &mut Session, line: &str) -> (out: Outcome)
    requires
        old(state).inv(),
        old(sess).wf(),
        old(sess).coherent(*old(state)),
    ensures
        final(state).inv(),
        final(sess).wf(),
        final(sess).coherent(*final(state)),
        final(state)@.client_counter == old(state)@.client_counter,
        final(sess).client_id == old(sess).client_id,
        final(sess).nickname == old(sess).nickname,
        no_empty_rooms(old(state)@.rooms) ==> no_empty_rooms(final(state)@.rooms),
        dispatch_post(old(state)@, final(state)@, *old(sess), *final(sess), line@, out),
{
    proof {
        reveal_strlit("/create");
        reveal_strlit("/join");
        reveal_strlit("/quit");
        reveal_strlit("/help");
    }
    let cmd = parse(line);
    let cid = sess.client_id;
    let ghost rs0 = old(state)@.rooms;
    match cmd {
        Command::Empty => {
            let out = Outcome { replies: Vec::new(), relay: RelayChange::Keep, notify: None };
            proof {
                assert(reply_views(out.replies@) =~= Seq::<Seq<char>>::empty());
                lemma_cmd_literals_distinct();
                assert(dispatch_post(old(state)@, state@, *old(sess), *sess, line@, out));
            }
            out
        },
        Command::Chat(chat) => {
            match &sess.room {
                None => {
                    let replies = one_reply(
                        String::from_str("You must join a room first. Use /create or /join <id>\n"),
                    );
                    let out = Outcome { replies, relay: RelayChange::Keep, notify: None };
                    proof {
                        lemma_cmd_literals_distinct();
                        assert(dispatch_post(old(state)@, state@, *old(sess), *sess, line@, out));
                    }
                    out
                },
                Some(id) => {
                    proof {
                        let w = choose|i: int|
                            0 <= i < rs0.len() && (#[trigger] rs0[i]).id == id@ && has_member(
                                rs0[i].members,
                                cid,
                            );
                        assert(has_room(rs0, id@));
                    }
                    match state.get_room(id.as_str()) {
                        None => {
                            proof {
                                assert(false);
                            }
                            Outcome { replies: Vec::new(), relay: RelayChange::Keep, notify: None }
                        },
                        Some(i) => {
                            let tmsg = text::truncate_chars(chat.as_str(), MSG_MAX);
                            state.publish(i, cid, sess.nickname.as_str(), tmsg.as_str());
                            let out = Outcome {
                                replies: Vec::new(),
                                relay: RelayChange::Keep,
                                notify: Some(id.clone()),
                            };
                            proof {
                                assert(reply_views(out.replies@) =~= Seq::<Seq<char>>::empty());
                                let ms = rs0[i as int].members;
                                let m2 = MessageModel {
                                    sender: cid,
                                    nickname: old(sess).nickname@,
                                    text: chat_text(text::trim_spec(line@)),
                                };
                                assert(has_member(rs0[i as int].members, cid)) by {
                                    let w = choose|i2: int|
                                        0 <= i2 < rs0.len() && (#[trigger] rs0[i2]).id == id@
                                            && has_member(rs0[i2].members, cid);
                                    assert(w == i as int) by {
                                        if w != i as int {
                                            assert(rs0[w].id != rs0[i as int].id);
                                        }
                                    }
                                }
                                assert(tmsg@ == chat_text(text::trim_spec(line@)));
                                assert(state@.rooms == rs0.update(
                                    i as int,
                                    RoomModel { id: rs0[i as int].id, members: publish_to(ms, m2) },
                                ));
                                assert(has_member(publish_to(ms, m2), cid)) by {
                                    let k = choose|k: int|
                                        0 <= k < ms.len() && (#[trigger] ms[k]).client_id == cid;
                                    assert(publish_to(ms, m2)[k].client_id == cid);
                                }
                                assert(state@.rooms[i as int].id == id@);
                                assert(has_member(state@.rooms[i as int].members, cid));
                                assert(no_empty_rooms(rs0) ==> no_empty_rooms(state@.rooms)) by {
                                    if no_empty_rooms(rs0) {
                                        assert forall|j: int|
                                            0 <= j < state@.rooms.len() implies (#[trigger] state@.rooms[j]).members.len() > 0 by {
                                            if j != i as int {
                                                assert(state@.rooms[j] == rs0[j]);
                                            }
                                        }
                                    }
                                }
                                lemma_cmd_literals_distinct();
                                assert(dispatch_post(old(state)@, state@, *old(sess), *sess, line@, out));
                            }
                            out
                        },
                    }
                },
            }
        },
        Command::Create => {
            leave_room(state, sess);
            let ghost mid = state@.rooms;
            let id = state.create_room();
            proof {
                assert(state@.rooms.len() == mid.len() + 1);
                assert(state.rooms@.len() == state@.rooms.len());
            }
            let i = state.rooms.len() - 1;
            proof {
                assert(state@.rooms == mid.push(RoomModel { id: id@, members: Seq::empty() }));
                assert(!in_some_room(state@.rooms, cid)) by {
                    assert forall|j: int|
                        0 <= j < state@.rooms.len() implies !has_member(
                        (#[trigger] state@.rooms[j]).members,
                        cid,
                    ) by {
                        if j < mid.len() {
                            assert(state@.rooms[j] == mid[j]);
                            if has_member(mid[j].members, cid) {
                                assert(in_some_room(mid, cid));
                            }
                        }
                    }
                }
            }
            state.add_member(i, cid, sess.nickname.as_str());
            let ghost r2 = state@.rooms;
            let ghost mm = MemberModel {
                client_id: cid,
                nickname: old(sess).nickname@,
                inbox: Seq::empty(),
            };
            let notice = concat3("[", sess.nickname.as_str(), " joined]");
            state.publish(i, cid, sess.nickname.as_str(), notice.as_str());
            sess.room = Some(id.clone());
            let reply = concat3("Room created: ", id.as_str(), "\nShare this ID with others to join.\n");
            let replies = one_reply(reply);
            let out = Outcome {
                replies,
                relay: RelayChange::Subscribe(id.clone()),
                notify: Some(id),
            };
            proof {
                let nick = old(sess).nickname@;
                let m2 = MessageModel { sender: cid, nickname: nick, text: join_notice(nick) };
                assert(r2 =~~= mid.push(RoomModel { id: out.notify->Some_0@, members: seq![mm] }));
                assert(publish_to(seq![mm], m2) =~~= seq![
                    MemberModel { client_id: cid, nickname: nick, inbox: seq![m2] },
                ]);
                assert(state@.rooms =~~= mid.push(
                    RoomModel {
                        id: out.notify->Some_0@,
                        members: seq![
                            MemberModel { client_id: cid, nickname: nick, inbox: seq![m2] },
                        ],
                    },
                ));
                assert(state@.rooms[mid.len() as int].members[0].client_id == cid);
                assert(has_member(state@.rooms[mid.len() as int].members, cid));
                assert(state@.rooms[mid.len() as int].id == out.notify->Some_0@);
                assert(leave_post(rs0, old(sess).room_id(), cid, mid));
                assert(!has_room(mid, out.notify->Some_0@));
                assert(no_empty_rooms(rs0) ==> no_empty_rooms(state@.rooms)) by {
                    if no_empty_rooms(rs0) {
                        assert forall|j: int|
                            0 <= j < state@.rooms.len() implies (#[trigger] state@.rooms[j]).members.len() > 0 by {
                            if j < mid.len() {
                                assert(state@.rooms[j] == mid[j]);
                            }
                        }
                    }
                }
                lemma_cmd_literals_distinct();
                assert(dispatch_post(old(state)@, state@, *old(sess), *sess, line@, out));
            }
            out
        },
        Command::JoinUsage => {
            let replies = one_reply(String::from_str("Usage: /join <room-id>\n"));
            let out = Outcome { replies, relay: RelayChange::Keep, notify: None };
            proof {
                lemma_cmd_literals_distinct();
                assert(dispatch_post(old(state)@, state@, *old(sess), *sess, line@, out));
            }
            out
        },
        Command::Join(arg) => {
            match state.get_room(arg.as_str()) {
                None => {
                    let replies = one_reply(concat3("Room not found: ", arg.as_str(), "\n"));
                    let out = Outcome { replies, relay: RelayChange::Keep, notify: None };
                    proof {
                        lemma_cmd_literals_distinct();
                        assert(dispatch_post(old(state)@, state@, *old(sess), *sess, line@, out));
                    }
                    out
                },
                Some(_pre) => {
                    proof {
                        assert(has_room(rs0, arg@));
                    }
                    leave_room(state, sess);
                    let ghost mid = state@.rooms;
                    // The target existed before leaving; it can be gone now
                    // only when it was this client's own room and leaving
                    // emptied it, so the id genuinely no longer names a room.
                    match state.get_room(arg.as_str()) {
                        None => {
                            let replies = one_reply(
                                concat3("Room not found: ", arg.as_str(), "\n"),
                            );
                            let out = Outcome {
                                replies,
                                relay: RelayChange::Cancel,
                                notify: None,
                            };
                            proof {
                                lemma_cmd_literals_distinct();
                                assert(dispatch_post(old(state)@, state@, *old(sess), *sess, line@, out));
                            }
                            out
                        },
                        Some(j) => {
                            state.add_member(j, cid, sess.nickname.as_str());
                            let ghost r2 = state@.rooms;
                            let ghost mm = MemberModel {
                                client_id: cid,
                                nickname: old(sess).nickname@,
                                inbox: Seq::empty(),
                            };
                            let notice = concat3("[", sess.nickname.as_str(), " joined]");
                            state.publish(j, cid, sess.nickname.as_str(), notice.as_str());
                            sess.room = Some(arg.clone());
                            let replies = one_reply(concat3("Joined room: ", arg.as_str(), "\n"));
                            let out = Outcome {
                                replies,
                                relay: RelayChange::Subscribe(arg.clone()),
                                notify: Some(arg),
                            };
                            proof {
                                let nick = old(sess).nickname@;
                                let aid = out.notify->Some_0@;
                                let m2 = MessageModel {
                                    sender: cid,
                                    nickname: nick,
                                    text: join_notice(nick),
                                };
                                assert(r2 == mid.update(
                                    j as int,
                                    RoomModel {
                                        id: mid[j as int].id,
                                        members: mid[j as int].members.push(mm),
                                    },
                                ));
                                assert(state@.rooms =~~= mid.update(
                                    j as int,
                                    RoomModel {
                                        id: aid,
                                        members: publish_to(mid[j as int].members.push(mm), m2),
                                    },
                                ));
                                assert(state@.rooms[j as int].id == aid);
                                assert(has_member(state@.rooms[j as int].members, cid)) by {
                                    let ms2 = mid[j as int].members.push(mm);
                                    assert(ms2[ms2.len() - 1].client_id == cid);
                                    assert(publish_to(ms2, m2)[ms2.len() - 1].client_id == cid);
                                }
                                assert(leave_post(rs0, old(sess).room_id(), cid, mid));
                                assert(mid[j as int].id == aid);
                                assert(no_empty_rooms(rs0) ==> no_empty_rooms(state@.rooms)) by {
                                    if no_empty_rooms(rs0) {
                                        assert forall|jj: int|
                                            0 <= jj < state@.rooms.len() implies (#[trigger] state@.rooms[jj]).members.len() > 0 by {
                                            if jj != j as int {
                                                assert(state@.rooms[jj] == mid[jj]);
                                            }
                                        }
                                    }
                                }
                                lemma_cmd_literals_distinct();
                                assert(dispatch_post(old(state)@, state@, *old(sess), *sess, line@, out));
                            }
                            out
                        },
                    }
                },
            }
        },
        Command::Quit => {
            if sess.room.is_some() {
                leave_room(state, sess);
                let replies = one_reply(String::from_str("Left the room.\n"));
                let out = Outcome { replies, relay: RelayChange::Cancel, notify: None };
                proof {
                    lemma_cmd_literals_distinct();
                    assert(dispatch_post(old(state)@, state@, *old(sess), *sess, line@, out));
                }
                out
            } else {
                let replies = one_reply(String::from_str("You are not in any room.\n"));
                let out = Outcome { replies, relay: RelayChange::Keep, notify: None };
                proof {
                    lemma_cmd_literals_distinct();
                    assert(dispatch_post(old(state)@, state@, *old(sess), *sess, line@, out));
                }
                out
            }
        },
        Command::Help => {
            let replies = one_reply(
                String::from_str(
                    "Commands:\n  /create       - Create a new room\n  /join <id>    - Join existing room\n  /quit         - Leave room\n  /help         - Show commands\n",
                ),
            );
            let out = Outcome { replies, relay: RelayChange::Keep, notify: None };
            proof {
                lemma_cmd_literals_distinct();
                assert(dispatch_post(old(state)@, state@, *old(sess), *sess, line@, out));
            }
            out
        },
        Command::Unknown(tok) => {
            let replies = one_reply(concat3("Unknown command: ", tok.as_str(), "\n"));
            let out = Outcome { replies, relay: RelayChange::Keep, notify: None };
            proof {
                lemma_cmd_literals_distinct();
                assert(dispatch_post(old(state)@, state@, *old(sess), *sess, line@, out));
            }
            out
        },
    }
}

} // verus!
