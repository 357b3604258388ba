//! Room directory: room metadata (name, optional password, creation time)
//! plus the per-room member set, and the manager that owns all rooms.

use vstd::assert_seqs_equal;
use vstd::prelude::*;

use crate::support::blank;
use crate::support::distinct;
use crate::support::fresh_id;
use crate::support::index_of_str;
use crate::support::is_blank;
use crate::support::lemma_distinct_push;
use crate::support::lemma_distinct_remove;
use crate::support::lemma_views_push;
use crate::support::lemma_views_remove;
use crate::support::now_millis;
use crate::support::views;

verus! {

/// Typed reasons a directory or registry operation can be refused.
#[derive(Clone, Copy, Debug, PartialEq, Eq, Structural)]
pub enum RoomError {
    /// An empty (after trimming) name or password was supplied.
    InvalidInput,
    /// The room id names no room.
    NotFound,
    /// The room has a password and none was supplied.
    PasswordRequired,
    /// The supplied password differs from the stored one.
    WrongPassword,
}

/// The password of a room (or a request), seen as a character sequence.
pub open spec fn opt_view(p: Option<String>) -> Option<Seq<char>> {
    match p {
        Some(s) => Some(s@),
        None => None,
    }
}

/// The outcome of the password check at join time: `None` means the join is
/// allowed, `Some(e)` the typed refusal. A room without a password admits any
/// supplied password, including none.
pub open spec fn join_check(room_password: Option<Seq<char>>, supplied: Option<Seq<char>>) -> Option<
    RoomError,
> {
    match room_password {
        Some(rp) => match supplied {
            None => Some(RoomError::PasswordRequired),
            Some(p) => if p == rp {
                None
            } else {
                Some(RoomError::WrongPassword)
            },
        },
        None => None,
    }
}

/// Law: a room with a password turns away every join that carries no
/// password or the wrong one, each with its own typed failure — and
/// `join_room`'s contract adds that such a refusal moves nothing.
pub proof fn lemma_guarded_room_refuses(rp: Seq<char>, supplied: Option<Seq<char>>)
    requires
        supplied is None || supplied != Some(rp),
    ensures
        join_check(Some(rp), supplied) == (match supplied {
            None => Some(RoomError::PasswordRequired),
            Some(_) => Some(RoomError::WrongPassword),
        }),
{
}

/// Law: a room without a password admits every join, whatever password it
/// carries, including none.
pub proof fn lemma_open_room_admits_all(supplied: Option<Seq<char>>)
    ensures
        join_check(None, supplied) is None,
{
}

/// One room: immutable id, name, optional password, creation time, and the
/// set of member connection ids.
pub struct ChatRoom {
    pub id: String,
    pub name: String,
    pub password: Option<String>,
    pub created_at: i64,
    pub sessions: Vec<String>,
}

impl ChatRoom {
    /// The member connection ids, in join order.
    pub open spec fn members(self) -> Seq<Seq<char>> {
        views(self.sessions@)
    }

    /// Stored password as a character sequence.
    pub open spec fn password_view(self) -> Option<Seq<char>> {
        opt_view(self.password)
    }

    /// No connection id is recorded twice.
    pub open spec fn wf(self) -> bool {
        distinct(self.members())
    }

    /// Metadata (everything but membership) agrees with `other`.
    pub open spec fn same_meta(self, other: ChatRoom) -> bool {
        &&& self.id@ == other.id@
        &&& self.name@ == other.name@
        &&& self.password_view() == other.password_view()
        &&& self.created_at == other.created_at
    }

    pub fn new(name: String, password: Option<String>) -> (r: Self)
        ensures
            r.wf(),
            r.id@.len() == 36,
            r.name == name,
            r.password == password,
            r.members() == Seq::<Seq<char>>::empty(),
    {
        let room = ChatRoom {
            id: fresh_id(),
            name,
            password,
            created_at: now_millis(),
            sessions: Vec::new(),
        };
        proof {
            assert(room.members() =~= Seq::<Seq<char>>::empty());
        }
        room
    }

    /// Record `user_id` as a member; a connection that is already a member is
    /// left as it is, so membership stays a set.
    pub fn add_session(&mut self, user_id: String)
        requires
            old(self).wf(),
        ensures
            final(self).wf(),
            final(self).same_meta(*old(self)),
            final(self).password == old(self).password,
            old(self).members().contains(user_id@) ==> final(self).members() == old(self).members(),
            !old(self).members().contains(user_id@) ==> final(self).members() == old(self).members().push(user_id@),
    {
        match index_of_str(&self.sessions, &user_id) {
            Some(i) => {
                proof {
                    assert(self.members().contains(user_id@)) by {
                        assert(self.members()[i as int] == user_id@);
                    }
                }
            },
            None => {
                proof {
                    if self.members().contains(user_id@) {
                        let j = choose|j: int|
                            0 <= j < self.members().len() && self.members()[j] == user_id@;
                        assert(views(self.sessions@)[j] != user_id@);
                    }
                    lemma_views_push(self.sessions@, user_id);
                    lemma_distinct_push(self.members(), user_id@);
                }
                self.sessions.push(user_id);
            },
        }
    }

    /// Remove `user_id` from the member set; removing a non-member changes
    /// nothing.
    pub fn remove_session(&mut self, user_id: &str)
        requires
            old(self).wf(),
        ensures
            final(self).wf(),
            final(self).same_meta(*old(self)),
            final(self).password == old(self).password,
            !old(self).members().contains(user_id@) ==> final(self).members() == old(self).members(),
            old(self).members().contains(user_id@) ==> exists|i: int|
                {
                    &&& 0 <= i < old(self).members().len()
                    &&& old(self).members()[i] == user_id@
                    &&& (forall|j: int| 0 <= j < i ==> old(self).members()[j] != user_id@)
                    &&& final(self).members() == old(self).members().remove(i)
                },
    {
        let key: String = user_id.to_owned();
        match index_of_str(&self.sessions, &key) {
            Some(i) => {
                proof {
                    lemma_views_remove(self.sessions@, i as int);
                    lemma_distinct_remove(self.members(), i as int);
                    assert(self.members()[i as int] == user_id@);
                }
                self.sessions.remove(i);
            },
            None => {
                proof {
                    if self.members().contains(user_id@) {
                        let j = choose|j: int|
                            0 <= j < self.members().len() && self.members()[j] == user_id@;
                        assert(views(self.sessions@)[j] != key@);
                    }
                }
            },
        }
    }

    /// A room with a password is closed to unauthenticated joins.
    pub fn has_password(&self) -> (r: bool)
        ensures
            r == (self.password_view() is Some),
    {
        self.password.is_some()
    }

    /// Exact, case-sensitive comparison with the stored password; a room
    /// without one accepts anything.
    pub fn verify_password(&self, password: &str) -> (r: bool)
        ensures
            r == match self.password_view() {
                Some(rp) => rp == password@,
                None => true,
            },
    {
        match &self.password {
            Some(room_password) => {
                let supplied: String = password.to_owned();
                room_password.eq(&supplied)
            },
            None => true,
        }
    }

    /// Replace the password; a blank replacement is refused and changes
    /// nothing.
    pub fn update_password(&mut self, new_password: String) -> (r: Result<(), RoomError>)
        requires
            old(self).wf(),
        ensures
            final(self).wf(),
            blank(new_password@) ==> r == Err::<(), RoomError>(RoomError::InvalidInput) && *final(self) == *old(self),
            !blank(new_password@) ==> {
                &&& r == Ok::<(), RoomError>(())
                &&& final(self).password_view() == Some(new_password@)
                &&& final(self).id@ == old(self).id@
                &&& final(self).name@ == old(self).name@
                &&& final(self).created_at == old(self).created_at
                &&& final(self).members() == old(self).members()
            },
    {
        if is_blank(new_password.as_str()) {
            return Err(RoomError::InvalidInput);
        }
        self.password = Some(new_password);
        Ok(())
    }
}

/// What `list_rooms` reports of one room: everything a listing needs and
/// never the password itself.
pub struct RoomInfo {
    pub id: String,
    pub name: String,
    pub has_password: bool,
    pub user_count: usize,
    pub created_at: i64,
}

/// The directory of all rooms, keyed by room id.
pub struct ChatRoomManager {
    pub rooms: Vec<ChatRoom>,
}

impl ChatRoomManager {
    /// The room ids, in creation order.
    pub open spec fn ids(self) -> Seq<Seq<char>> {
        self.rooms@.map_values(|r: ChatRoom| r.id@)
    }

    /// Ids are unique and every room is well formed.
    pub open spec fn wf(self) -> bool {
        &&& distinct(self.ids())
        &&& forall|k: int| 0 <= k < self.rooms@.len() ==> (#[trigger] self.rooms@[k]).wf()
    }

    /// Some room carries this id.
    pub open spec fn has_room(self, id: Seq<char>) -> bool {
        exists|k: int| 0 <= k < self.rooms@.len() && (#[trigger] self.rooms@[k]).id@ == id
    }

    /// The index of the room with this id (meaningful only when `has_room`).
    pub open spec fn room_index(self, id: Seq<char>) -> int {
        choose|k: int| 0 <= k < self.rooms@.len() && (#[trigger] self.rooms@[k]).id@ == id
    }

    /// The room with this id (meaningful only when `has_room`).
    pub open spec fn room_at(self, id: Seq<char>) -> ChatRoom {
        self.rooms@[self.room_index(id)]
    }

    /// With distinct ids, any index holding `id` is the index `room_at` reads.
    pub proof fn lemma_room_at(self, id: Seq<char>, k: int)
        requires
            self.wf(),
            0 <= k < self.rooms@.len(),
            self.rooms@[k].id@ == id,
        ensures
            self.has_room(id),
            self.room_index(id) == k,
            self.room_at(id) == self.rooms@[k],
    {
        assert(self.has_room(id));
        let k2 = self.room_index(id);
        assert(self.ids()[k] == id);
        assert(self.ids()[k2] == id);
        if k < k2 {
            assert(self.ids()[k] != self.ids()[k2]);
        } else if k2 < k {
            assert(self.ids()[k2] != self.ids()[k]);
        }
    }

    /// Index of the room whose id is `key`, by linear search.
    fn find_room(&self, key: &String) -> (r: Option<usize>)
        requires
            self.wf(),
        ensures
            match r {
                Some(i) => i < self.rooms@.len() && self.rooms@[i as int].id@ == key@
                    && self.has_room(key@) && self.room_index(key@) == i,
                None => !self.has_room(key@),
            },
    {
        let mut i: usize = 0;
        while i < self.rooms.len()
            invariant
                self.wf(),
                i <= self.rooms@.len(),
                forall|j: int| 0 <= j < i ==> (#[trigger] self.rooms@[j]).id@ != key@,
            decreases self.rooms@.len() - i,
        {
            if self.rooms[i].id.eq(key) {
                proof {
                    self.lemma_room_at(key@, i as int);
                }
                return Some(i);
            }
            i = i + 1;
        }
        None
    }

    pub fn new() -> (r: Self)
        ensures
            r.wf(),
            r.rooms@.len() == 0,
            forall|id: Seq<char>| !r.has_room(id),
    {
        ChatRoomManager { rooms: Vec::new() }
    }

    /// Create a room under a fresh id. A blank name is refused with
    /// `InvalidInput` and nothing changes; otherwise the new room stands in
    /// the directory under the returned id, open for members, and every other
    /// room is untouched.
    pub fn create_room(&mut self, name: String, password: Option<String>) -> (r: Result<
        String,
        RoomError,
    >)
        requires
            old(self).wf(),
        ensures
            final(self).wf(),
            blank(name@) ==> r == Err::<String, RoomError>(RoomError::InvalidInput) && *final(self)
                == *old(self),
            !blank(name@) ==> match r {
                Ok(id) => {
                    &&& id@.len() == 36
                    &&& final(self).has_room(id@)
                    &&& final(self).room_at(id@).name@ == name@
                    &&& final(self).room_at(id@).password_view() == opt_view(password)
                    &&& final(self).room_at(id@).members() == Seq::<Seq<char>>::empty()
                    &&& forall|id2: Seq<char>| id2 != id@ ==> final(self).has_room(id2) == old(self).has_room(id2)
                    &&& forall|id2: Seq<char>|
                        id2 != id@ && old(self).has_room(id2) ==> final(self).room_at(id2) == old(self).room_at(id2)
                },
                Err(_) => false,
            },
    {
        if is_blank(name.as_str()) {
            return Err(RoomError::InvalidInput);
        }
        let room = ChatRoom::new(name, password);
        let room_id = room.id.clone();
        let ghost pre = *self;
        match self.find_room(&room_id) {
            Some(i) => {
                let slot = &mut self.rooms[i];
                *slot = room;
                proof {
                    assert_seqs_equal!(self.ids() == pre.ids());
                    self.lemma_room_at(room_id@, i as int);
                    assert forall|id2: Seq<char>| id2 != room_id@ implies self.has_room(id2)
                        == pre.has_room(id2) && (pre.has_room(id2) ==> self.room_at(id2)
                        == pre.room_at(id2)) by {
                        if pre.has_room(id2) {
                            let k = pre.room_index(id2);
                            pre.lemma_room_at(id2, k);
                            assert(k != i);
                            self.lemma_room_at(id2, k);
                        }
                        if self.has_room(id2) {
                            let k = self.room_index(id2);
                            assert(self.rooms@[k].id@ == id2);
                            assert(k != i);
                            assert(pre.rooms@[k].id@ == id2);
                            assert(pre.has_room(id2));
                        }
                    }
                }
            },
            None => {
                proof {
                    assert_seqs_equal!(pre.ids().push(room_id@) == (pre.rooms@.push(room)).map_values(|r: ChatRoom| r.id@));
                    assert forall|j: int| 0 <= j < pre.ids().len() implies pre.ids()[j]
                        != room_id@ by {
                        assert(pre.rooms@[j].id@ != room_id@);
                    }
                    if pre.ids().contains(room_id@) {
                        let j = choose|j: int|
                            0 <= j < pre.ids().len() && pre.ids()[j] == room_id@;
                        assert(pre.ids()[j] != room_id@);
                    }
                    lemma_distinct_push(pre.ids(), room_id@);
                }
                let ghost n = self.rooms@.len() as int;
                self.rooms.push(room);
                proof {
                    self.lemma_room_at(room_id@, n);
                    assert forall|id2: Seq<char>| id2 != room_id@ implies self.has_room(id2)
                        == pre.has_room(id2) && (pre.has_room(id2) ==> self.room_at(id2)
                        == pre.room_at(id2)) by {
                        if pre.has_room(id2) {
                            let k = pre.room_index(id2);
                            pre.lemma_room_at(id2, k);
                            self.lemma_room_at(id2, k);
                        }
                        if self.has_room(id2) {
                            let k = self.room_index(id2);
                            assert(self.rooms@[k].id@ == id2);
                            assert(k != n);
                            assert(pre.rooms@[k].id@ == id2);
                            assert(pre.has_room(id2));
                        }
                    }
                }
            },
        }
        Ok(room_id)
    }

    /// The room with this id, if any.
    pub fn get_room(&self, room_id: &str) -> (r: Option<&ChatRoom>)
        requires
            self.wf(),
        ensures
            match r {
                Some(room) => self.has_room(room_id@) && *room == self.room_at(room_id@),
                None => !self.has_room(room_id@),
            },
    {
        let key: String = room_id.to_owned();
        match self.find_room(&key) {
            Some(i) => Some(&self.rooms[i]),
            None => None,
        }
    }

    /// Mutable access to the room with this id, if any.
    pub fn get_room_mut(&mut self, room_id: &str) -> (r: Option<&mut ChatRoom>)
        requires
            old(self).wf(),
        ensures
            match r {
                Some(room) => old(self).has_room(room_id@) && *room == old(self).room_at(
                    room_id@,
                ),
                None => !old(self).has_room(room_id@) && *final(self) == *old(self),
            },
    {
        let key: String = room_id.to_owned();
        match self.find_room(&key) {
            Some(i) => Some(&mut self.rooms[i]),
            None => None,
        }
    }

    /// Join `user_id` to a room. Checked in this order: the room must exist
    /// (`NotFound`); a room with a password demands one (`PasswordRequired`)
    /// and it must match exactly (`WrongPassword`). On success the connection
    /// stands in the room's member set and nothing else moves.
    pub fn join_room(&mut self, room_id: &str, user_id: String, password: Option<String>) -> (r:
        Result<(), RoomError>)
        requires
            old(self).wf(),
        ensures
            final(self).wf(),
            !old(self).has_room(room_id@) ==> r == Err::<(), RoomError>(RoomError::NotFound)
                && *final(self) == *old(self),
            old(self).has_room(room_id@) ==> match join_check(
                old(self).room_at(room_id@).password_view(),
                opt_view(password),
            ) {
                Some(e) => r == Err::<(), RoomError>(e) && *final(self) == *old(self),
                None => {
                    &&& r == Ok::<(), RoomError>(())
                    &&& final(self).has_room(room_id@)
                    &&& final(self).room_at(room_id@).same_meta(old(self).room_at(room_id@))
                    &&& (old(self).room_at(room_id@).members().contains(user_id@) ==> final(self).room_at(room_id@).members() == old(self).room_at(room_id@).members())
                    &&& (!old(self).room_at(room_id@).members().contains(user_id@) ==> final(self).room_at(room_id@).members() == old(self).room_at(room_id@).members().push(
                        user_id@,
                    ))
                    &&& forall|id2: Seq<char>|
                        id2 != room_id@ ==> final(self).has_room(id2) == old(self).has_room(id2)
                    &&& forall|id2: Seq<char>|
                        id2 != room_id@ && old(self).has_room(id2) ==> final(self).room_at(id2)
                            == old(self).room_at(id2)
                },
            },
    {
        let key: String = room_id.to_owned();
        let i = match self.find_room(&key) {
            None => {
                return Err(RoomError::NotFound);
            },
            Some(i) => i,
        };
        match (&self.rooms[i].password, &password) {
            (Some(_), None) => {
                return Err(RoomError::PasswordRequired);
            },
            (Some(rp), Some(p)) => {
                if !rp.eq(p) {
                    return Err(RoomError::WrongPassword);
                }
            },
            (None, _) => {},
        }
        let ghost pre = *self;
        let room = &mut self.rooms[i];
        room.add_session(user_id);
        proof {
            assert_seqs_equal!(self.ids() == pre.ids());
            self.lemma_room_at(room_id@, i as int);
            assert forall|id2: Seq<char>| id2 != room_id@ implies self.has_room(id2)
                == pre.has_room(id2) && (pre.has_room(id2) ==> self.room_at(id2) == pre.room_at(
                id2,
            )) by {
                if pre.has_room(id2) {
                    let k = pre.room_index(id2);
                    pre.lemma_room_at(id2, k);
                    assert(k != i);
                    self.lemma_room_at(id2, k);
                }
                if self.has_room(id2) {
                    let k = self.room_index(id2);
                    assert(self.rooms@[k].id@ == id2);
                    assert(k != i);
                    assert(pre.rooms@[k].id@ == id2);
                    assert(pre.has_room(id2));
                }
            }
        }
        Ok(())
    }

    /// Replace a room's password. `NotFound` when the id names no room,
    /// `InvalidInput` when the replacement is blank; either way the directory
    /// is left exactly as it was.
    pub fn update_room_password(&mut self, room_id: &str, new_password: String) -> (r: Result<
        (),
        RoomError,
    >)
        requires
            old(self).wf(),
        ensures
            final(self).wf(),
            !old(self).has_room(room_id@) ==> r == Err::<(), RoomError>(RoomError::NotFound)
                && *final(self) == *old(self),
            old(self).has_room(room_id@) && blank(new_password@) ==> r == Err::<(), RoomError>(
                RoomError::InvalidInput,
            ) && *final(self) == *old(self),
            old(self).has_room(room_id@) && !blank(new_password@) ==> {
                &&& r == Ok::<(), RoomError>(())
                &&& final(self).has_room(room_id@)
                &&& final(self).room_at(room_id@).password_view() == Some(new_password@)
                &&& final(self).room_at(room_id@).id@ == old(self).room_at(room_id@).id@
                &&& final(self).room_at(room_id@).name@ == old(self).room_at(room_id@).name@
                &&& final(self).room_at(room_id@).created_at == old(self).room_at(
                    room_id@,
                ).created_at
                &&& final(self).room_at(room_id@).members() == old(self).room_at(
                    room_id@,
                ).members()
                &&& forall|id2: Seq<char>|
                    id2 != room_id@ ==> final(self).has_room(id2) == old(self).has_room(id2)
                &&& forall|id2: Seq<char>|
                    id2 != room_id@ && old(self).has_room(id2) ==> final(self).room_at(id2) == old(self).room_at(id2)
            },
    {
        let key: String = room_id.to_owned();
        let i = match self.find_room(&key) {
            None => {
                return Err(RoomError::NotFound);
            },
            Some(i) => i,
        };
        if is_blank(new_password.as_str()) {
            return Err(RoomError::InvalidInput);
        }
        let ghost pre = *self;
        let room = &mut self.rooms[i];
        let r = room.update_password(new_password);
        proof {
            assert_seqs_equal!(self.ids() == pre.ids());
            self.lemma_room_at(room_id@, i as int);
            assert forall|id2: Seq<char>| id2 != room_id@ implies self.has_room(id2)
                == pre.has_room(id2) && (pre.has_room(id2) ==> self.room_at(id2) == pre.room_at(
                id2,
            )) by {
                if pre.has_room(id2) {
                    let k = pre.room_index(id2);
                    pre.lemma_room_at(id2, k);
                    assert(k != i);
                    self.lemma_room_at(id2, k);
                }
                if self.has_room(id2) {
                    let k = self.room_index(id2);
                    assert(self.rooms@[k].id@ == id2);
                    assert(k != i);
                    assert(pre.rooms@[k].id@ == id2);
                    assert(pre.has_room(id2));
                }
            }
        }
        r
    }

    /// What each room looks like from outside: id, name, whether a password
    /// guards it, the member count read at call time, and the creation time.
    /// The password itself is never part of the listing.
    pub fn list_rooms(&self) -> (r: Vec<RoomInfo>)
        ensures
            r@.len() == self.rooms@.len(),
            forall|k: int|
                0 <= k < r@.len() ==> {
                    &&& (#[trigger] r@[k]).id@ == self.rooms@[k].id@
                    &&& r@[k].name@ == self.rooms@[k].name@
                    &&& r@[k].has_password == (self.rooms@[k].password_view() is Some)
                    &&& r@[k].user_count == self.rooms@[k].members().len()
                    &&& r@[k].created_at == self.rooms@[k].created_at
                },
    {
        let mut out: Vec<RoomInfo> = Vec::new();
        let mut i: usize = 0;
        while i < self.rooms.len()
            invariant
                i <= self.rooms@.len(),
                out@.len() == i,
                forall|k: int|
                    0 <= k < i ==> {
                        &&& (#[trigger] out@[k]).id@ == self.rooms@[k].id@
                        &&& out@[k].name@ == self.rooms@[k].name@
                        &&& out@[k].has_password == (self.rooms@[k].password_view() is Some)
                        &&& out@[k].user_count == self.rooms@[k].members().len()
                        &&& out@[k].created_at == self.rooms@[k].created_at
                    },
            decreases self.rooms@.len() - i,
        {
            let room = &self.rooms[i];
            let info = RoomInfo {
                id: room.id.clone(),
                name: room.name.clone(),
                has_password: room.has_password(),
                user_count: room.sessions.len(),
                created_at: room.created_at,
            };
            out.push(info);
            i = i + 1;
        }
        out
    }

    /// The read-only join validation the room-listing layer runs before a
    /// client connects: same order and reasons as `join_room`, no mutation;
    /// on success the room's id and name come back.
    pub fn check_join(&self, room_id: &str, password: &Option<String>) -> (r: Result<
        (String, String),
        RoomError,
    >)
        requires
            self.wf(),
        ensures
            !self.has_room(room_id@) ==> r == Err::<(String, String), RoomError>(
                RoomError::NotFound,
            ),
            self.has_room(room_id@) ==> match join_check(
                self.room_at(room_id@).password_view(),
                opt_view(*password),
            ) {
                Some(e) => r == Err::<(String, String), RoomError>(e),
                None => match r {
                    Ok(pair) => pair.0@ == self.room_at(room_id@).id@ && pair.1@ == self.room_at(
                        room_id@,
                    ).name@,
                    Err(_) => false,
                },
            },
    {
        let key: String = room_id.to_owned();
        let i = match self.find_room(&key) {
            None => {
                return Err(RoomError::NotFound);
            },
            Some(i) => i,
        };
        let room = &self.rooms[i];
        match (&room.password, password) {
            (Some(_), None) => Err(RoomError::PasswordRequired),
            (Some(rp), Some(p)) => {
                if !rp.eq(p) {
                    Err(RoomError::WrongPassword)
                } else {
                    Ok((room.id.clone(), room.name.clone()))
                }
            },
            (None, _) => Ok((room.id.clone(), room.name.clone())),
        }
    }
}

} // verus!
