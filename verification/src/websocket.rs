//! Connection registry, broadcast router, and the per-connection session
//! state machine with its heartbeat rule.

use vstd::assert_seqs_equal;
use vstd::prelude::*;

use crate::support::contains_str;
use crate::support::distinct;
use crate::support::fresh_id;
use crate::support::index_of_str;
use crate::support::lemma_distinct_push;
use crate::support::lemma_distinct_remove;
use crate::support::lemma_distinct_remove_loses;
use crate::support::lemma_views_push;
use crate::support::lemma_views_remove;
use crate::support::now_millis;
use crate::support::views;
use vstd::string::StringExecFns;

verus! {

/// A probe is sent every five seconds.
pub const HEARTBEAT_INTERVAL_MS: i64 = 5000;

/// A connection that has answered nothing for two probe intervals is presumed
/// dead.
pub const CLIENT_TIMEOUT_MS: i64 = 10000;

/// One structured client-to-server intent, already decoded from the wire.
#[derive(Debug)]
pub enum ClientMessage {
    Chat { content: String, username: String },
    Join { room_id: String, username: String, password: Option<String> },
    Ping,
}

/// One structured server-to-client envelope. Timestamps are milliseconds
/// since the Unix epoch.
#[derive(Debug)]
pub enum ServerMessage {
    Chat { content: String, username: String, timestamp: i64, user_id: String },
    UserJoined { username: String, user_id: String, timestamp: i64 },
    UserLeft { username: String, user_id: String, timestamp: i64 },
    Error { message: String },
    Joined { room_id: String, user_id: String },
    Pong,
}

/// One room's membership: the room id and the member connection ids.
pub struct RoomEntry {
    pub room_id: String,
    pub users: Vec<String>,
}

/// The ids of the entries, in first-join order.
pub open spec fn entry_ids(rooms: Seq<RoomEntry>) -> Seq<Seq<char>> {
    rooms.map_values(|e: RoomEntry| e.room_id@)
}

/// Some entry carries this room id.
pub open spec fn entries_has(rooms: Seq<RoomEntry>, room: Seq<char>) -> bool {
    exists|k: int| 0 <= k < rooms.len() && (#[trigger] rooms[k]).room_id@ == room
}

/// The index of the entry for this room (meaningful only when `entries_has`).
pub open spec fn entries_index(rooms: Seq<RoomEntry>, room: Seq<char>) -> int {
    choose|k: int| 0 <= k < rooms.len() && (#[trigger] rooms[k]).room_id@ == room
}

/// The member snapshot of a room; a room without an entry has no members.
pub open spec fn entries_members(rooms: Seq<RoomEntry>, room: Seq<char>) -> Seq<Seq<char>> {
    if entries_has(rooms, room) {
        views(rooms[entries_index(rooms, room)].users@)
    } else {
        Seq::<Seq<char>>::empty()
    }
}

/// Room ids unique, every entry nonempty with unique members.
pub open spec fn entries_wf(rooms: Seq<RoomEntry>) -> bool {
    &&& distinct(entry_ids(rooms))
    &&& forall|k: int| 0 <= k < rooms.len() ==> distinct(views((#[trigger] rooms[k]).users@))
    &&& forall|k: int| 0 <= k < rooms.len() ==> (#[trigger] rooms[k]).users@.len() > 0
}

/// With distinct room ids, any index holding `room` is the index the spec
/// functions read.
pub proof fn lemma_entries_at(rooms: Seq<RoomEntry>, room: Seq<char>, k: int)
    requires
        distinct(entry_ids(rooms)),
        0 <= k < rooms.len(),
        rooms[k].room_id@ == room,
    ensures
        entries_has(rooms, room),
        entries_index(rooms, room) == k,
        entries_members(rooms, room) == views(rooms[k].users@),
{
    assert(entries_has(rooms, room));
    let k2 = entries_index(rooms, room);
    assert(entry_ids(rooms)[k] == room);
    assert(entry_ids(rooms)[k2] == room);
    if k < k2 {
        assert(entry_ids(rooms)[k] != entry_ids(rooms)[k2]);
    } else if k2 < k {
        assert(entry_ids(rooms)[k2] != entry_ids(rooms)[k]);
    }
}

/// When two entry sequences agree everywhere but at index `k`, whose entry
/// carries `room` in both, every other room reads the same.
pub proof fn lemma_entries_other_same(
    pre: Seq<RoomEntry>,
    post: Seq<RoomEntry>,
    room: Seq<char>,
    k: int,
    r: Seq<char>,
)
    requires
        distinct(entry_ids(pre)),
        distinct(entry_ids(post)),
        pre.len() == post.len(),
        0 <= k < pre.len(),
        pre[k].room_id@ == room,
        post[k].room_id@ == room,
        forall|j: int| 0 <= j < pre.len() && j != k ==> post[j] == pre[j],
        r != room,
    ensures
        entries_has(post, r) == entries_has(pre, r),
        entries_members(post, r) == entries_members(pre, r),
{
    if entries_has(pre, r) {
        let k2 = entries_index(pre, r);
        lemma_entries_at(pre, r, k2);
        assert(k2 != k);
        lemma_entries_at(post, r, k2);
    }
    if entries_has(post, r) {
        let k2 = entries_index(post, r);
        assert(post[k2].room_id@ == r);
        assert(k2 != k);
        assert(pre[k2].room_id@ == r);
        assert(entries_has(pre, r));
    }
}

/// The registry: which connections are live, and which connections are in
/// which room. A room with no members has no entry.
pub struct WebSocketManager {
    pub sessions: Vec<String>,
    pub rooms: Vec<RoomEntry>,
}

/// How a join moves the registry: the connection becomes live and a member
/// of `room` (both at most once), and every other room is untouched.
pub open spec fn join_transition(
    pre: WebSocketManager,
    post: WebSocketManager,
    user: Seq<char>,
    room: Seq<char>,
) -> bool {
    &&& (pre.session_ids().contains(user) ==> post.session_ids() == pre.session_ids())
    &&& (!pre.session_ids().contains(user) ==> post.session_ids() == pre.session_ids().push(user))
    &&& post.has_entry(room)
    &&& (pre.members_of(room).contains(user) ==> post.members_of(room) == pre.members_of(room))
    &&& (!pre.members_of(room).contains(user) ==> post.members_of(room) == pre.members_of(
        room,
    ).push(user))
    &&& forall|r: Seq<char>| r != room ==> #[trigger] post.has_entry(r) == pre.has_entry(r)
    &&& forall|r: Seq<char>| r != room ==> #[trigger] post.members_of(r) == pre.members_of(r)
}

/// How a leave moves the registry: the connection's live handle goes away,
/// it leaves `room` if it was a member (a non-member leave moves nothing),
/// an emptied room loses its entry, and every other room is untouched.
pub open spec fn leave_transition(
    pre: WebSocketManager,
    post: WebSocketManager,
    user: Seq<char>,
    room: Seq<char>,
) -> bool {
    &&& (!pre.session_ids().contains(user) ==> post.session_ids() == pre.session_ids())
    &&& (pre.session_ids().contains(user) ==> exists|i: int|
        {
            &&& 0 <= i < pre.session_ids().len()
            &&& pre.session_ids()[i] == user
            &&& post.session_ids() == pre.session_ids().remove(i)
        })
    &&& !post.session_ids().contains(user)
    &&& (!pre.members_of(room).contains(user) ==> forall|r: Seq<char>|
        (#[trigger] post.members_of(r)) == pre.members_of(r) && post.has_entry(r) == pre.has_entry(
            r,
        ))
    &&& (pre.members_of(room).contains(user) ==> {
        &&& exists|i: int|
            {
                &&& 0 <= i < pre.members_of(room).len()
                &&& pre.members_of(room)[i] == user
                &&& (forall|j: int| 0 <= j < i ==> pre.members_of(room)[j] != user)
                &&& post.members_of(room) == pre.members_of(room).remove(i)
            }
        &&& !post.members_of(room).contains(user)
        &&& post.has_entry(room) == (pre.members_of(room).len() > 1)
        &&& forall|r: Seq<char>| r != room ==> #[trigger] post.has_entry(r) == pre.has_entry(r)
        &&& forall|r: Seq<char>| r != room ==> #[trigger] post.members_of(r) == pre.members_of(r)
    })
}

impl WebSocketManager {
    /// The ids of the live connections.
    pub open spec fn session_ids(self) -> Seq<Seq<char>> {
        views(self.sessions@)
    }

    /// The member snapshot of a room.
    pub open spec fn members_of(self, room: Seq<char>) -> Seq<Seq<char>> {
        entries_members(self.rooms@, room)
    }

    /// Some room entry carries this id.
    pub open spec fn has_entry(self, room: Seq<char>) -> bool {
        entries_has(self.rooms@, room)
    }

    /// Room ids unique, connection ids unique, every entry nonempty with
    /// unique members.
    pub open spec fn wf(self) -> bool {
        &&& entries_wf(self.rooms@)
        &&& distinct(self.session_ids())
    }

    /// Index of the entry whose room id is `key`, by linear search.
    fn find_entry(&self, key: &String) -> (r: Option<usize>)
        requires
            entries_wf(self.rooms@),
        ensures
            match r {
                Some(k) => k < self.rooms@.len() && self.rooms@[k as int].room_id@ == key@
                    && entries_has(self.rooms@, key@) && entries_index(self.rooms@, key@) == k,
                None => !entries_has(self.rooms@, key@),
            },
    {
        let mut i: usize = 0;
        while i < self.rooms.len()
            invariant
                entries_wf(self.rooms@),
                i <= self.rooms@.len(),
                forall|j: int| 0 <= j < i ==> (#[trigger] self.rooms@[j]).room_id@ != key@,
            decreases self.rooms@.len() - i,
        {
            if self.rooms[i].room_id.eq(key) {
                proof {
                    lemma_entries_at(self.rooms@, key@, i as int);
                }
                return Some(i);
            }
            i = i + 1;
        }
        None
    }

    pub fn new() -> (r: Self)
        ensures
            r.wf(),
            r.session_ids().len() == 0,
            r.rooms@.len() == 0,
            forall|room: Seq<char>| !r.has_entry(room),
            forall|room: Seq<char>| #[trigger] r.members_of(room) == Seq::<Seq<char>>::empty(),
    {
        let r = WebSocketManager { sessions: Vec::new(), rooms: Vec::new() };
        proof {
            assert(r.session_ids() =~= Seq::<Seq<char>>::empty());
        }
        r
    }

    /// Record a live connection and put it in a room. Both the session list
    /// and the room's member set grow by at most the one id; every other room
    /// is untouched.
    pub fn add_session(&mut self, user_id: String, room_id: String)
        requires
            old(self).wf(),
        ensures
            final(self).wf(),
            join_transition(*old(self), *final(self), user_id@, room_id@),
    {
        if !contains_str(&self.sessions, &user_id) {
            proof {
                lemma_views_push(self.sessions@, user_id);
                lemma_distinct_push(self.session_ids(), user_id@);
            }
            self.sessions.push(user_id.clone());
        }
        let ghost pre = self.rooms@;
        match self.find_entry(&room_id) {
            Some(k) => {
                proof {
                    lemma_entries_at(pre, room_id@, k as int);
                }
                let entry = &mut self.rooms[k];
                match index_of_str(&entry.users, &user_id) {
                    Some(j) => {
                        proof {
                            assert(views(entry.users@)[j as int] == user_id@);
                            assert(entries_members(pre, room_id@).contains(user_id@));
                        }
                    },
                    None => {
                        proof {
                            if views(entry.users@).contains(user_id@) {
                                let j = choose|j: int|
                                    0 <= j < views(entry.users@).len() && views(entry.users@)[j]
                                        == user_id@;
                                assert(views(entry.users@)[j] != user_id@);
                            }
                            lemma_views_push(entry.users@, user_id);
                            lemma_distinct_push(views(entry.users@), user_id@);
                        }
                        entry.users.push(user_id);
                    },
                }
                proof {
                    assert_seqs_equal!(entry_ids(self.rooms@) == entry_ids(pre));
                    lemma_entries_at(self.rooms@, room_id@, k as int);
                    assert forall|r: Seq<char>| r != room_id@ implies entries_has(self.rooms@, r)
                        == entries_has(pre, r) && entries_members(self.rooms@, r)
                        == entries_members(pre, r) by {
                        lemma_entries_other_same(pre, self.rooms@, room_id@, k as int, r);
                    }
                }
            },
            None => {
                proof {
                    if entries_members(pre, room_id@).contains(user_id@) {
                        assert(entries_members(pre, room_id@).len() == 0);
                    }
                    assert forall|j: int| 0 <= j < entry_ids(pre).len() implies entry_ids(pre)[j]
                        != room_id@ by {
                        assert(pre[j].room_id@ != room_id@);
                    }
                    if entry_ids(pre).contains(room_id@) {
                        let j = choose|j: int|
                            0 <= j < entry_ids(pre).len() && entry_ids(pre)[j] == room_id@;
                        assert(entry_ids(pre)[j] != room_id@);
                    }
                    lemma_distinct_push(entry_ids(pre), room_id@);
                }
                let mut users: Vec<String> = Vec::new();
                users.push(user_id);
                let ghost n = self.rooms@.len() as int;
                self.rooms.push(RoomEntry { room_id, users });
                proof {
                    assert_seqs_equal!(entry_ids(self.rooms@) == entry_ids(pre).push(self.rooms@[n].room_id@));
                    lemma_entries_at(self.rooms@, self.rooms@[n].room_id@, n);
                    assert(views(self.rooms@[n].users@) =~= entries_members(
                        pre,
                        self.rooms@[n].room_id@,
                    ).push(self.rooms@[n].users@[0]@));
                    assert forall|r: Seq<char>|
                        r != self.rooms@[n].room_id@ implies entries_has(self.rooms@, r)
                        == entries_has(pre, r) && entries_members(self.rooms@, r)
                        == entries_members(pre, r) by {
                        if entries_has(pre, r) {
                            let k2 = entries_index(pre, r);
                            lemma_entries_at(pre, r, k2);
                            lemma_entries_at(self.rooms@, r, k2);
                        }
                        if entries_has(self.rooms@, r) {
                            let k2 = entries_index(self.rooms@, r);
                            assert(self.rooms@[k2].room_id@ == r);
                            assert(k2 != n);
                            assert(pre[k2].room_id@ == r);
                            assert(entries_has(pre, r));
                        }
                    }
                }
            },
        }
    }

    /// Drop a connection: its live handle goes away, and it leaves the given
    /// room. Removing a non-member is a no-op on membership; an emptied room
    /// loses its entry.
    pub fn remove_session(&mut self, user_id: &str, room_id: &str)
        requires
            old(self).wf(),
        ensures
            final(self).wf(),
            leave_transition(*old(self), *final(self), user_id@, room_id@),
    {
        let skey: String = user_id.to_owned();
        match index_of_str(&self.sessions, &skey) {
            Some(i) => {
                proof {
                    lemma_views_remove(self.sessions@, i as int);
                    lemma_distinct_remove(self.session_ids(), i as int);
                    lemma_distinct_remove_loses(self.session_ids(), user_id@, i as int);
                    assert(self.session_ids()[i as int] == user_id@);
                }
                self.sessions.remove(i);
            },
            None => {
                proof {
                    if self.session_ids().contains(user_id@) {
                        let j = choose|j: int|
                            0 <= j < self.session_ids().len() && self.session_ids()[j] == user_id@;
                        assert(views(self.sessions@)[j] != skey@);
                    }
                }
            },
        }
        let rkey: String = room_id.to_owned();
        let ghost pre = self.rooms@;
        match self.find_entry(&rkey) {
            Some(k) => {
                proof {
                    lemma_entries_at(pre, room_id@, k as int);
                }
                let entry = &mut self.rooms[k];
                let mut prune = false;
                match index_of_str(&entry.users, &skey) {
                    Some(j) => {
                        proof {
                            lemma_views_remove(entry.users@, j as int);
                            lemma_distinct_remove(views(entry.users@), j as int);
                            lemma_distinct_remove_loses(views(entry.users@), user_id@, j as int);
                            assert(views(entry.users@)[j as int] == user_id@);
                        }
                        entry.users.remove(j);
                        prune = entry.users.len() == 0;
                    },
                    None => {
                        proof {
                            if views(entry.users@).contains(user_id@) {
                                let jj = choose|jj: int|
                                    0 <= jj < views(entry.users@).len() && views(entry.users@)[jj]
                                        == user_id@;
                                assert(views(entry.users@)[jj] != skey@);
                            }
                        }
                    },
                }
                let ghost mid = self.rooms@;
                proof {
                    assert_seqs_equal!(entry_ids(mid) == entry_ids(pre));
                    lemma_entries_at(mid, room_id@, k as int);
                    assert forall|r: Seq<char>| r != room_id@ implies entries_has(mid, r)
                        == entries_has(pre, r) && entries_members(mid, r) == entries_members(
                        pre,
                        r,
                    ) by {
                        lemma_entries_other_same(pre, mid, room_id@, k as int, r);
                    }
                }
                if prune {
                    self.rooms.remove(k);
                    proof {
                        assert(views(mid[k as int].users@).len() == 0);
                        assert(entries_members(mid, room_id@) =~= Seq::<Seq<char>>::empty());
                        assert_seqs_equal!(entry_ids(self.rooms@) == entry_ids(mid).remove(k as int));
                        lemma_distinct_remove(entry_ids(mid), k as int);
                        assert forall|j: int| 0 <= j < self.rooms@.len() implies self.rooms@[j]
                            == (if j < k { mid[j] } else { mid[j + 1] }) by {}
                        assert(!entries_has(self.rooms@, room_id@)) by {
                            if entries_has(self.rooms@, room_id@) {
                                let k2 = entries_index(self.rooms@, room_id@);
                                assert(self.rooms@[k2].room_id@ == room_id@);
                                let ghost orig = if k2 < k as int { k2 } else { k2 + 1 };
                                assert(mid[orig].room_id@ == room_id@);
                                assert(entry_ids(mid)[orig] == room_id@);
                                assert(entry_ids(mid)[k as int] == room_id@);
                                assert(orig != k as int);
                            }
                        }
                        assert(entries_members(self.rooms@, room_id@) == entries_members(
                            mid,
                            room_id@,
                        ));
                        assert forall|r: Seq<char>| r != room_id@ implies entries_has(self.rooms@, r)
                            == entries_has(mid, r) && entries_members(self.rooms@, r)
                            == entries_members(mid, r) by {
                            if entries_has(mid, r) {
                                let k2 = entries_index(mid, r);
                                lemma_entries_at(mid, r, k2);
                                assert(k2 != k);
                                if k2 < k as int {
                                    assert(self.rooms@[k2] == mid[k2]);
                                    lemma_entries_at(self.rooms@, r, k2);
                                } else {
                                    assert(self.rooms@[k2 - 1] == mid[k2]);
                                    lemma_entries_at(self.rooms@, r, k2 - 1);
                                }
                            }
                            if entries_has(self.rooms@, r) {
                                let k2 = entries_index(self.rooms@, r);
                                assert(self.rooms@[k2].room_id@ == r);
                                let ghost orig = if k2 < k as int { k2 } else { k2 + 1 };
                                assert(mid[orig].room_id@ == r);
                                assert(entries_has(mid, r));
                            }
                        }
                    }
                }
            },
            None => {
                proof {
                    if entries_members(pre, room_id@).contains(user_id@) {
                        assert(entries_members(pre, room_id@).len() == 0);
                    }
                }
            },
        }
    }

    /// How many connections are in the room right now; zero for a room
    /// without an entry.
    pub fn member_count(&self, room_id: &str) -> (r: usize)
        requires
            self.wf(),
        ensures
            r == self.members_of(room_id@).len(),
    {
        let key: String = room_id.to_owned();
        match self.find_entry(&key) {
            Some(k) => {
                proof {
                    lemma_entries_at(self.rooms@, room_id@, k as int);
                }
                self.rooms[k].users.len()
            },
            None => 0,
        }
    }

    /// The delivery targets for a broadcast on `room_id`: the room's member
    /// snapshot, kept in join order, minus the excluded sender and minus any
    /// member whose live handle is gone (best effort, never an error).
    pub fn broadcast_to_room(&self, room_id: &str, exclude_user: Option<&str>) -> (r: Vec<String>)
        requires
            self.wf(),
        ensures
            views(r@) == recipients_of(
                self.members_of(room_id@),
                self.session_ids(),
                opt_str_view(exclude_user),
            ),
    {
        let mut out: Vec<String> = Vec::new();
        let ex: Option<String> = match exclude_user {
            Some(e) => Some(e.to_owned()),
            None => None,
        };
        let key: String = room_id.to_owned();
        let k = match self.find_entry(&key) {
            None => {
                proof {
                    assert(views(out@) =~= Seq::<Seq<char>>::empty());
                }
                return out;
            },
            Some(k) => k,
        };
        proof {
            lemma_entries_at(self.rooms@, room_id@, k as int);
        }
        let entry = &self.rooms[k];
        let ghost members = views(entry.users@);
        let ghost exv = opt_str_view(exclude_user);
        let mut i: usize = 0;
        proof {
            assert(members.take(0) =~= Seq::<Seq<char>>::empty());
            assert(views(out@) =~= Seq::<Seq<char>>::empty());
        }
        while i < entry.users.len()
            invariant
                self.wf(),
                i <= entry.users@.len(),
                members == views(entry.users@),
                (match (ex, exv) {
                    (Some(e), Some(v)) => e@ == v,
                    (None, None) => true,
                    _ => false,
                }),
                views(out@) == recipients_of(members.take(i as int), self.session_ids(), exv),
            decreases entry.users@.len() - i,
        {
            let u = &entry.users[i];
            let excluded = match &ex {
                Some(e) => u.eq(e),
                None => false,
            };
            let ghost prev = views(out@);
            if !excluded && contains_str(&self.sessions, u) {
                out.push(u.clone());
                proof {
                    assert(views(out@) =~= prev.push(u@));
                }
            }
            proof {
                assert(members.take(i + 1).drop_last() =~= members.take(i as int));
                assert(members.take(i + 1).last() == members[i as int]);
                assert(members[i as int] == u@);
            }
            i = i + 1;
        }
        proof {
            assert(members.take(members.len() as int) =~= members);
        }
        out
    }

    /// The spawned join work, run once the join intent is validated: register
    /// the connection in the room, then compute the arrival notice and who
    /// receives it (everyone now in the room except the newcomer).
    pub fn join_and_notify(
        &mut self,
        user_id: &String,
        room_id: &String,
        username: &String,
        now: i64,
    ) -> (r: (ServerMessage, Vec<String>))
        requires
            old(self).wf(),
        ensures
            final(self).wf(),
            join_transition(*old(self), *final(self), user_id@, room_id@),
            r.0 == (ServerMessage::UserJoined {
                username: *username,
                user_id: *user_id,
                timestamp: now,
            }),
            views(r.1@) == recipients_of(
                final(self).members_of(room_id@),
                final(self).session_ids(),
                Some(user_id@),
            ),
    {
        self.add_session(user_id.clone(), room_id.clone());
        let recipients = self.broadcast_to_room(room_id.as_str(), Some(user_id.as_str()));
        let msg = ServerMessage::UserJoined {
            username: username.clone(),
            user_id: user_id.clone(),
            timestamp: now,
        };
        (msg, recipients)
    }
}

/// The excluded sender, if any, as a character sequence.
pub open spec fn opt_str_view(e: Option<&str>) -> Option<Seq<char>> {
    match e {
        Some(s) => Some(s@),
        None => None,
    }
}

/// Which members of a snapshot a broadcast reaches: those that are not the
/// excluded sender and still have a live handle among `sessions`, in
/// snapshot order.
pub open spec fn recipients_of(
    members: Seq<Seq<char>>,
    sessions: Seq<Seq<char>>,
    exclude: Option<Seq<char>>,
) -> Seq<Seq<char>>
    decreases members.len(),
{
    if members.len() == 0 {
        Seq::<Seq<char>>::empty()
    } else {
        let rest = recipients_of(members.drop_last(), sessions, exclude);
        let u = members.last();
        if sessions.contains(u) && (match exclude {
            Some(e) => u != e,
            None => true,
        }) {
            rest.push(u)
        } else {
            rest
        }
    }
}

/// One transport-level event for a session, already decoded: the frame kinds
/// the transport can deliver, with an undecodable text payload marked as
/// such.
pub enum Frame {
    /// A transport ping carrying its payload.
    Ping(Vec<u8>),
    /// The reply to one of our probes.
    Pong,
    /// A well-formed client intent.
    Text(ClientMessage),
    /// A text payload that did not decode; the description of the failure.
    Malformed(String),
    /// A binary payload; rejected, the connection stays open.
    Binary(Vec<u8>),
    /// The client asked to close.
    Close,
    /// The transport failed.
    ProtocolError,
}

/// What the session asks its surroundings to do in response to one event.
pub enum Effect {
    /// Send this envelope to this session's own client.
    Reply(ServerMessage),
    /// Echo a transport-level pong with this payload.
    Pong(Vec<u8>),
    /// Spawn the join work: validate against the directory, then register
    /// and announce the connection.
    Register { room_id: String, username: String, password: Option<String> },
    /// Spawn a fan-out of this envelope to the room, with no exclusion.
    Broadcast { room_id: String, message: ServerMessage },
    /// Echo the close frame and shut the transport down.
    CloseConnection,
    /// Stop the session's task.
    Stop,
}

/// One client's live session: its identity, where it is, and when it last
/// gave a sign of life (milliseconds since the Unix epoch).
pub struct WebSocketSession {
    pub id: String,
    pub room_id: Option<String>,
    pub username: Option<String>,
    pub hb: i64,
}

impl WebSocketSession {
    pub fn new() -> (r: Self)
        ensures
            r.id@.len() == 36,
            r.room_id is None,
            r.username is None,
    {
        WebSocketSession { id: fresh_id(), room_id: None, username: None, hb: now_millis() }
    }

    /// The liveness rule the periodic probe applies: the connection is
    /// presumed dead once nothing has been heard for more than the timeout
    /// window.
    pub fn heartbeat_expired(&self, now: i64) -> (r: bool)
        ensures
            r == (now - self.hb > CLIENT_TIMEOUT_MS),
    {
        (now as i128) - (self.hb as i128) > (CLIENT_TIMEOUT_MS as i128)
    }

    /// Dispatch one inbound event against the session's state: any sign of
    /// life refreshes the heartbeat; a chat echoes to the whole room (the
    /// sender included); a join records the room and asks for the spawned
    /// registration work plus an acknowledgement to self; a malformed
    /// payload gets a non-fatal error reply; a close or transport error
    /// stops the session.
    pub fn handle_event(&mut self, frame: Frame, now: i64) -> (effects: Vec<Effect>)
        ensures
            final(self).id == old(self).id,
            final(self).hb == (match frame {
                Frame::Ping(_) | Frame::Pong | Frame::Text(_) | Frame::Malformed(_) => now,
                _ => old(self).hb,
            }),
            match frame {
                Frame::Ping(p) => final(self).room_id == old(self).room_id && final(self).username
                    == old(self).username && effects@ == seq![Effect::Pong(p)],
                Frame::Pong => final(self).room_id == old(self).room_id && final(self).username
                    == old(self).username && effects@.len() == 0,
                Frame::Text(m) => match m {
                    ClientMessage::Chat { content, username } => final(self).room_id == old(self).room_id && final(self).username == old(self).username && (match old(self).room_id {
                        Some(rid) => effects@ == seq![
                            Effect::Broadcast {
                                room_id: rid,
                                message: ServerMessage::Chat {
                                    content,
                                    username,
                                    timestamp: now,
                                    user_id: old(self).id,
                                },
                            },
                        ],
                        None => effects@.len() == 0,
                    }),
                    ClientMessage::Join { room_id, username, password } => final(self).room_id
                        == Some(room_id) && final(self).username == Some(username) && effects@
                        == seq![
                        Effect::Register { room_id, username, password },
                        Effect::Reply(ServerMessage::Joined { room_id, user_id: old(self).id }),
                    ],
                    ClientMessage::Ping => final(self).room_id == old(self).room_id && final(self).username == old(self).username && effects@ == seq![
                        Effect::Reply(ServerMessage::Pong),
                    ],
                },
                Frame::Malformed(desc) => final(self).room_id == old(self).room_id && final(self).username == old(self).username && effects@.len() == 1 && (effects@[0] matches
                Effect::Reply(ServerMessage::Error { message }) && message@
                    == "Invalid message format: "@ + desc@),
                Frame::Binary(_) => final(self).room_id == old(self).room_id && final(self).username == old(self).username && effects@.len() == 0,
                Frame::Close => final(self).room_id == old(self).room_id && final(self).username
                    == old(self).username && effects@ == seq![Effect::CloseConnection, Effect::Stop],
                Frame::ProtocolError => final(self).room_id == old(self).room_id && final(self).username == old(self).username && effects@ == seq![Effect::Stop],
            },
    {
        let mut effects: Vec<Effect> = Vec::new();
        match frame {
            Frame::Ping(p) => {
                self.hb = now;
                effects.push(Effect::Pong(p));
            },
            Frame::Pong => {
                self.hb = now;
            },
            Frame::Text(m) => {
                self.hb = now;
                match m {
                    ClientMessage::Chat { content, username } => {
                        match &self.room_id {
                            Some(rid) => {
                                let message = ServerMessage::Chat {
                                    content,
                                    username,
                                    timestamp: now,
                                    user_id: self.id.clone(),
                                };
                                effects.push(
                                    Effect::Broadcast { room_id: rid.clone(), message },
                                );
                            },
                            None => {},
                        }
                    },
                    ClientMessage::Join { room_id, username, password } => {
                        self.room_id = Some(room_id.clone());
                        self.username = Some(username.clone());
                        effects.push(
                            Effect::Register {
                                room_id: room_id.clone(),
                                username,
                                password,
                            },
                        );
                        effects.push(
                            Effect::Reply(
                                ServerMessage::Joined { room_id, user_id: self.id.clone() },
                            ),
                        );
                    },
                    ClientMessage::Ping => {
                        effects.push(Effect::Reply(ServerMessage::Pong));
                    },
                }
            },
            Frame::Malformed(desc) => {
                self.hb = now;
                let prefix: String = "Invalid message format: ".to_owned();
                let message = prefix.concat(desc.as_str());
                effects.push(Effect::Reply(ServerMessage::Error { message }));
            },
            Frame::Binary(_) => {},
            Frame::Close => {
                effects.push(Effect::CloseConnection);
                effects.push(Effect::Stop);
            },
            Frame::ProtocolError => {
                effects.push(Effect::Stop);
            },
        }
        effects
    }

    /// Leave-cleanup, run once when the connection goes away for any reason
    /// (explicit close, transport error, or heartbeat timeout): the
    /// connection leaves its room and the remaining members get the
    /// departure notice, the departed connection excluded. Single-fire: the
    /// session forgets its room, so running it again moves nothing.
    pub fn stopped(&mut self, manager: &mut WebSocketManager, now: i64) -> (r: Option<
        (ServerMessage, Vec<String>),
    >)
        requires
            old(manager).wf(),
        ensures
            final(manager).wf(),
            final(self).id == old(self).id,
            final(self).hb == old(self).hb,
            match (old(self).room_id, old(self).username) {
                (Some(rid), Some(un)) => {
                    &&& final(self).room_id is None
                    &&& final(self).username is None
                    &&& leave_transition(*old(manager), *final(manager), old(self).id@, rid@)
                    &&& match r {
                        Some(pair) => pair.0 == (ServerMessage::UserLeft {
                            username: un,
                            user_id: old(self).id,
                            timestamp: now,
                        }) && views(pair.1@) == recipients_of(
                            final(manager).members_of(rid@),
                            final(manager).session_ids(),
                            Some(old(self).id@),
                        ),
                        None => false,
                    }
                },
                _ => {
                    &&& r is None
                    &&& *final(manager) == *old(manager)
                    &&& final(self).room_id == old(self).room_id
                    &&& final(self).username == old(self).username
                },
            },
    {
        let (rid, un) = match (&self.room_id, &self.username) {
            (Some(r), Some(u)) => (r.clone(), u.clone()),
            _ => {
                return None;
            },
        };
        manager.remove_session(self.id.as_str(), rid.as_str());
        let recipients = manager.broadcast_to_room(rid.as_str(), Some(self.id.as_str()));
        let msg = ServerMessage::UserLeft {
            username: un,
            user_id: self.id.clone(),
            timestamp: now,
        };
        self.room_id = None;
        self.username = None;
        Some((msg, recipients))
    }
}

/// Law: the timeout window is two probe intervals, so a connection that has
/// answered nothing across two consecutive probes is past the window and is
/// torn down exactly like an explicit close.
pub proof fn lemma_two_missed_probes_expire(hb: int, now: int)
    requires
        now - hb > 2 * (HEARTBEAT_INTERVAL_MS as int),
    ensures
        now - hb > CLIENT_TIMEOUT_MS as int,
{
}

/// Law: leave is idempotent. After one leave the connection is no longer a
/// member and no longer live, so a second leave of the same connection and
/// room moves nothing — same membership everywhere, same live set, and (as
/// `stopped` adds) no second departure notice.
pub proof fn lemma_leave_idempotent(
    pre: WebSocketManager,
    mid: WebSocketManager,
    post: WebSocketManager,
    user: Seq<char>,
    room: Seq<char>,
)
    requires
        leave_transition(pre, mid, user, room),
        leave_transition(mid, post, user, room),
    ensures
        post.session_ids() == mid.session_ids(),
        forall|r: Seq<char>| (#[trigger] post.members_of(r)) == mid.members_of(r),
        forall|r: Seq<char>| (#[trigger] post.has_entry(r)) == mid.has_entry(r),
{
    assert(!mid.members_of(room).contains(user));
    assert(!mid.session_ids().contains(user));
    assert forall|r: Seq<char>| (#[trigger] post.has_entry(r)) == mid.has_entry(r) by {
        assert(post.members_of(r) == mid.members_of(r));
    }
}

/// Law: a join followed by a leave restores the room exactly: the member
/// snapshot is what it was before the join, so the member count is too, and
/// a room that was empty before the join carries no registry entry after the
/// leave.
pub proof fn lemma_join_then_leave(
    pre: WebSocketManager,
    mid: WebSocketManager,
    post: WebSocketManager,
    user: Seq<char>,
    room: Seq<char>,
)
    requires
        pre.wf(),
        mid.wf(),
        !pre.members_of(room).contains(user),
        join_transition(pre, mid, user, room),
        leave_transition(mid, post, user, room),
    ensures
        post.members_of(room) == pre.members_of(room),
        post.members_of(room).len() == pre.members_of(room).len(),
        post.has_entry(room) == (pre.members_of(room).len() > 0),
{
    let m0 = pre.members_of(room);
    let m1 = mid.members_of(room);
    assert(m1 == m0.push(user));
    assert(m1.contains(user)) by {
        assert(m1[m0.len() as int] == user);
    }
    let i = choose|i: int|
        {
            &&& 0 <= i < m1.len()
            &&& m1[i] == user
            &&& (forall|j: int| 0 <= j < i ==> m1[j] != user)
            &&& post.members_of(room) == m1.remove(i)
        };
    if i < m0.len() {
        assert(m0[i] == user);
        assert(m0.contains(user));
    }
    assert(i == m0.len());
    assert_seqs_equal!(m1.remove(i) == m0);
}

/// Law: when a connection is torn down — a heartbeat past its window is
/// treated exactly like an explicit close — the leave removes it from its
/// room's membership, and the departure notice computed on the new state
/// reaches every remaining member whose connection is still registered.
pub proof fn lemma_teardown_notice_reaches_survivors(
    pre: WebSocketManager,
    post: WebSocketManager,
    user: Seq<char>,
    room: Seq<char>,
)
    requires
        pre.members_of(room).contains(user),
        leave_transition(pre, post, user, room),
    ensures
        !post.members_of(room).contains(user),
        forall|u: Seq<char>|
            pre.members_of(room).contains(u) && u != user && post.session_ids().contains(u)
                ==> recipients_of(
                post.members_of(room),
                post.session_ids(),
                Some(user),
            ).contains(u),
{
    let m0 = pre.members_of(room);
    let m1 = post.members_of(room);
    let i = choose|i: int|
        {
            &&& 0 <= i < m0.len()
            &&& m0[i] == user
            &&& (forall|j: int| 0 <= j < i ==> m0[j] != user)
            &&& m1 == m0.remove(i)
        };
    assert forall|u: Seq<char>|
        m0.contains(u) && u != user && post.session_ids().contains(u) implies recipients_of(
        m1,
        post.session_ids(),
        Some(user),
    ).contains(u) by {
        let j = choose|j: int| 0 <= j < m0.len() && m0[j] == u;
        assert(j != i);
        if j < i {
            assert(m1[j] == u);
        } else {
            assert(m1[j - 1] == u);
        }
        assert(m1.contains(u));
        lemma_broadcast_delivery(m1, post.session_ids(), user);
    }
}

/// Law: a broadcast that excludes `e` never reaches `e`, and reaches every
/// other member of the snapshot whose connection is registered, whatever
/// order deliveries happen in.
pub proof fn lemma_broadcast_delivery(
    members: Seq<Seq<char>>,
    sessions: Seq<Seq<char>>,
    e: Seq<char>,
)
    ensures
        !recipients_of(members, sessions, Some(e)).contains(e),
        forall|u: Seq<char>|
            members.contains(u) && sessions.contains(u) && u != e ==> recipients_of(
                members,
                sessions,
                Some(e),
            ).contains(u),
    decreases members.len(),
{
    let r = recipients_of(members, sessions, Some(e));
    if members.len() == 0 {
        assert(!r.contains(e)) by {
            if r.contains(e) {
                let j = choose|j: int| 0 <= j < r.len() && r[j] == e;
            }
        }
    } else {
        let rest = recipients_of(members.drop_last(), sessions, Some(e));
        lemma_broadcast_delivery(members.drop_last(), sessions, e);
        assert(!r.contains(e)) by {
            if r.contains(e) {
                let j = choose|j: int| 0 <= j < r.len() && r[j] == e;
                if r != rest {
                    if j < r.len() - 1 {
                        assert(rest[j] == e);
                        assert(rest.contains(e));
                    } else {
                        assert(r[j] == members.last());
                    }
                } else {
                    assert(rest.contains(e));
                }
            }
        }
        assert forall|u: Seq<char>|
            members.contains(u) && sessions.contains(u) && u != e implies r.contains(u) by {
            let j = choose|j: int| 0 <= j < members.len() && members[j] == u;
            if j == members.len() - 1 {
                assert(r.last() == u);
                assert(r.contains(u)) by {
                    assert(r[r.len() - 1] == u);
                }
            } else {
                assert(members.drop_last()[j] == u);
                assert(members.drop_last().contains(u));
                assert(rest.contains(u));
                let j2 = choose|j2: int| 0 <= j2 < rest.len() && rest[j2] == u;
                if r != rest {
                    assert(r[j2] == u);
                }
                assert(r.contains(u));
            }
        }
    }
}

} // verus!
