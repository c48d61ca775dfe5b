//! The relay: it moves a member's fanout inbox into printable lines for
//! that member's connection, excluding what the member itself published.
//! Bracket-bodied system notices pass verbatim; chat text is prefixed
//! with the publisher's nickname.

use vstd::prelude::*;

use crate::model::{
    FANOUT_CAP, MemberModel, Message, MessageModel, RoomModel, ServerState, deliver_one,
    has_member, has_room, member_index, publish_to, push_drop,
};

verus! {

/// The printable line for one fanout message: a bracket-bodied notice
/// verbatim, anything else as `<nickname>: <text>`, newline-terminated.
pub open spec fn line_of(m: MessageModel) -> Seq<char> {
    if m.text.len() > 0 && m.text[0] == '[' {
        m.text + "\n"@
    } else {
        m.nickname + ": "@ + m.text + "\n"@
    }
}

/// The lines an inbox `q` yields for the member `me`: every message in
/// order, formatted, except those `me` published itself.
pub open spec fn relay_lines(q: Seq<MessageModel>, me: u64) -> Seq<Seq<char>>
    decreases q.len(),
{
    if q.len() == 0 {
        Seq::empty()
    } else if q[0].sender == me {
        relay_lines(q.drop_first(), me)
    } else {
        seq![line_of(q[0])] + relay_lines(q.drop_first(), me)
    }
}

/// Formats one fanout message for the member `me`: nothing when `me`
/// published it, the printable line otherwise.
pub fn format_message(me: u64, msg: &Message) -> (r: Option<String>)
    ensures
        match r {
            Some(s) => msg@.sender != me && s@ == line_of(msg@),
            None => msg@.sender == me,
        },
{
    if msg.sender == me {
        return None;
    }
    let n = msg.text.as_str().unicode_len();
    if n > 0 && msg.text.as_str().get_char(0) == '[' {
        let mut s = String::from_str(msg.text.as_str());
        s.append("\n");
        Some(s)
    } else {
        let mut s = String::from_str(msg.nickname.as_str());
        s.append(": ");
        s.append(msg.text.as_str());
        s.append("\n");
        Some(s)
    }
}

/// Empties the inbox of member `me` in the room named `room_id` and
/// returns its formatted lines, in publish order; a missing room or
/// membership leaves the state untouched and yields nothing.
#[verifier::loop_isolation(false)]
pub fn drain_inbox(state: &mut ServerState, room_id: &str, me: u64) -> (lines: Vec<String>)
    requires
        old(state).inv(),
    ensures
        final(state).inv(),
        final(state)@.client_counter == old(state)@.client_counter,
        !has_room(old(state)@.rooms, room_id@) ==> final(state)@ == old(state)@ && lines@.len()
            == 0,
        forall|i: int|
            0 <= i < old(state)@.rooms.len() && (#[trigger] old(state)@.rooms[i]).id == room_id@
                && !has_member(old(state)@.rooms[i].members, me) ==> final(state)@ == old(state)@
                && lines@.len() == 0,
        forall|i: int, k: int|
            0 <= i < old(state)@.rooms.len() && (#[trigger] old(state)@.rooms[i]).id == room_id@
                && 0 <= k < old(state)@.rooms[i].members.len() && (#[trigger] old(
                state,
            )@.rooms[i].members[k]).client_id == me ==> final(state)@.rooms == old(
                state,
            )@.rooms.update(
                i,
                RoomModel {
                    id: old(state)@.rooms[i].id,
                    members: old(state)@.rooms[i].members.update(
                        k,
                        MemberModel {
                            client_id: me,
                            nickname: old(state)@.rooms[i].members[k].nickname,
                            inbox: Seq::empty(),
                        },
                    ),
                },
            ) && lines@.map_values(|s: String| s@) == relay_lines(
                old(state)@.rooms[i].members[k].inbox,
                me,
            ),
{
    let found = state.get_room(room_id);
    let i = match found {
        None => {
            return Vec::new();
        },
        Some(i) => i,
    };
    let ki = member_index(&state.rooms[i].members, me);
    let k = match ki {
        None => {
            proof {
                assert forall|i2: int, k2: int|
                    0 <= i2 < old(state)@.rooms.len() && (#[trigger] old(state)@.rooms[i2]).id
                        == room_id@ && 0 <= k2 < old(state)@.rooms[i2].members.len() && (#[trigger] old(
                        state,
                    )@.rooms[i2].members[k2]).client_id == me implies false by {
                    assert(i2 == i as int);
                    assert(has_member(old(state)@.rooms[i2].members, me));
                }
            }
            return Vec::new();
        },
        Some(k) => k,
    };
    let ghost rs0 = old(state)@.rooms;
    let mut room = state.rooms.remove(i);
    let mut mb = room.members.remove(k);
    proof {
        assert(mb@ =~~= rs0[i as int].members[k as int]);
    }
    let ghost q = mb@.inbox;
    let n = mb.inbox.len();
    let mut lines: Vec<String> = Vec::new();
    proof {
        assert(q.skip(0) =~= q);
        assert(lines@.map_values(|s2: String| s2@) =~= Seq::<Seq<char>>::empty());
        assert(Seq::<Seq<char>>::empty() + relay_lines(q, me) =~= relay_lines(q, me));
    }
    let mut t: usize = 0;
    while t < n
        invariant
            t <= n,
            n == mb.inbox@.len(),
            q == mb@.inbox,
            n == q.len(),
            relay_lines(q, me) == lines@.map_values(|s: String| s@) + relay_lines(
                q.skip(t as int),
                me,
            ),
        decreases n - t,
    {
        proof {
            assert(q.skip(t as int).drop_first() =~= q.skip(t as int + 1));
            assert(q.skip(t as int)[0] == q[t as int]);
            assert(q[t as int] == mb.inbox@[t as int]@);
        }
        let r = format_message(me, &mb.inbox[t]);
        match r {
            Some(s) => {
                let ghost sv = s@;
                let ghost lv = lines@.map_values(|s2: String| s2@);
                lines.push(s);
                proof {
                    assert(lines@.map_values(|s2: String| s2@) =~= lv.push(sv));
                    assert(lv.push(sv) =~= lv + seq![sv]);
                    assert((lv + seq![sv]) + relay_lines(q.skip(t as int + 1), me) =~= lv + (
                    seq![sv] + relay_lines(q.skip(t as int + 1), me)));
                }
            },
            None => {
            },
        }
        t += 1;
    }
    mb.inbox.clear();
    proof {
        assert(q.skip(n as int) =~= Seq::empty());
        assert(lines@.map_values(|s2: String| s2@) + Seq::<Seq<char>>::empty()
            =~= lines@.map_values(|s2: String| s2@));
        assert(mb@ =~~= MemberModel {
            client_id: me,
            nickname: rs0[i as int].members[k as int].nickname,
            inbox: Seq::empty(),
        });
    }
    room.members.insert(k, mb);
    state.rooms.insert(i, room);
    proof {
        let rs = state@.rooms;
        let target = RoomModel {
            id: rs0[i as int].id,
            members: rs0[i as int].members.update(
                k as int,
                MemberModel {
                    client_id: me,
                    nickname: rs0[i as int].members[k as int].nickname,
                    inbox: Seq::empty(),
                },
            ),
        };
        assert(rs =~~= rs0.update(i as int, target));
        let ms = target.members;
        let ms0 = rs0[i as int].members;
        assert forall|k1: int, k2: int|
            #![trigger ms[k1], ms[k2]]
            0 <= k1 < k2 < ms.len() implies ms[k1].client_id != ms[k2].client_id by {
            assert(ms0[k1].client_id != ms0[k2].client_id);
        }
        assert forall|a: int, b: int, c: u64|
            #![trigger has_member(rs[a].members, c), has_member(rs[b].members, c)]
            0 <= a < rs.len() && 0 <= b < rs.len() && a != b implies !(has_member(rs[a].members, c)
            && has_member(rs[b].members, c)) by {
            if has_member(rs[a].members, c) && has_member(rs[b].members, c) {
                assert(has_member(rs0[a].members, c)) by {
                    if a == i as int {
                        let ka = choose|k1: int|
                            0 <= k1 < rs[a].members.len() && (#[trigger] rs[a].members[k1]).client_id == c;
                        assert(ms0[ka].client_id == c);
                    }
                }
                assert(has_member(rs0[b].members, c)) by {
                    if b == i as int {
                        let kb = choose|k1: int|
                            0 <= k1 < rs[b].members.len() && (#[trigger] rs[b].members[k1]).client_id == c;
                        assert(ms0[kb].client_id == c);
                    }
                }
                assert(!(has_member(rs0[a].members, c) && has_member(rs0[b].members, c)));
            }
        }
        assert forall|i2: int, k2: int|
            0 <= i2 < rs0.len() && (#[trigger] rs0[i2]).id == room_id@ && 0 <= k2
                < rs0[i2].members.len() && (#[trigger] rs0[i2].members[k2]).client_id == me implies state@.rooms
            == rs0.update(i2, target) && lines@.map_values(|s2: String| s2@) == relay_lines(
            rs0[i2].members[k2].inbox,
            me,
        ) by {
            assert(i2 == i as int);
            assert(k2 == k as int) by {
                if k2 != k as int {
                    assert(rs0[i2].members[k2].client_id != rs0[i2].members[k as int].client_id);
                }
            }
        }
    }
    lines
}

pub proof fn lemma_relay_lines_push(q: Seq<MessageModel>, m: MessageModel, me: u64)
    ensures
        relay_lines(q.push(m), me) == relay_lines(q, me) + (if m.sender == me {
            Seq::<Seq<char>>::empty()
        } else {
            seq![line_of(m)]
        }),
    decreases q.len(),
{
    reveal_with_fuel(relay_lines, 3);
    if q.len() == 0 {
        assert(q.push(m).drop_first() =~= Seq::empty());
        assert(q.push(m)[0] == m);
        if m.sender == me {
            assert(relay_lines(q.push(m), me) =~= relay_lines(q, me) + Seq::<Seq<char>>::empty());
        } else {
            assert(relay_lines(q.push(m), me) =~= relay_lines(q, me) + seq![line_of(m)]);
        }
    } else {
        assert(q.push(m).drop_first() =~= q.drop_first().push(m));
        assert(q.push(m)[0] == q[0]);
        lemma_relay_lines_push(q.drop_first(), m, me);
        if q[0].sender == me {
        } else {
            assert((seq![line_of(q[0])] + relay_lines(q.drop_first(), me)) + (if m.sender == me {
                Seq::<Seq<char>>::empty()
            } else {
                seq![line_of(m)]
            }) =~= seq![line_of(q[0])] + (relay_lines(q.drop_first(), me) + (if m.sender == me {
                Seq::<Seq<char>>::empty()
            } else {
                seq![line_of(m)]
            })));
        }
        if m.sender == me {
            assert(relay_lines(q, me) + Seq::<Seq<char>>::empty() =~= relay_lines(q, me));
            assert(relay_lines(q.drop_first(), me) + Seq::<Seq<char>>::empty() =~= relay_lines(
                q.drop_first(),
                me,
            ));
        }
    }
}

/// Law: a message published to a room reaches every member other than its
/// sender exactly once — on the healthy path, where the member's inbox is
/// not at capacity, that member's relay output grows by exactly the
/// formatted line — and is never relayed back to the sender, whose relay
/// output is unchanged.
pub proof fn lemma_publish_fanout(ms: Seq<MemberModel>, m: MessageModel, k: int)
    requires
        0 <= k < ms.len(),
        ms[k].inbox.len() < FANOUT_CAP,
    ensures
        publish_to(ms, m).len() == ms.len(),
        publish_to(ms, m)[k].client_id == ms[k].client_id,
        ms[k].client_id != m.sender ==> relay_lines(publish_to(ms, m)[k].inbox, ms[k].client_id)
            == relay_lines(ms[k].inbox, ms[k].client_id) + seq![line_of(m)],
        ms[k].client_id == m.sender ==> relay_lines(publish_to(ms, m)[k].inbox, ms[k].client_id)
            == relay_lines(ms[k].inbox, ms[k].client_id),
{
    assert(publish_to(ms, m)[k] == deliver_one(ms[k], m));
    assert(push_drop(ms[k].inbox, m) == ms[k].inbox.push(m));
    lemma_relay_lines_push(ms[k].inbox, m, ms[k].client_id);
    if ms[k].client_id == m.sender {
        assert(relay_lines(ms[k].inbox, ms[k].client_id) + Seq::<Seq<char>>::empty()
            =~= relay_lines(ms[k].inbox, ms[k].client_id));
    }
}

} // verus!
