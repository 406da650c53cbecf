//! The room registry: the single source of truth for room membership.
//!
//! A room is created implicitly when the first connection joins it and is
//! deleted as soon as its member set becomes empty, so a well-formed
//! registry never holds an empty room.

use vstd::prelude::*;

verus! {

/// One room: a client-chosen identifier and the connections that joined it.
pub struct RoomEntry {
    pub id: String,
    pub members: Vec<u64>,
}

impl RoomEntry {
    /// A room entry never duplicates a member and is never kept empty.
    pub open spec fn wf(self) -> bool {
        &&& self.members@.no_duplicates()
        &&& self.members@.len() > 0
    }
}

/// The members of room `rid` among the entries of `rooms`; empty if no
/// entry carries that id.
pub open spec fn members_in(rooms: Seq<RoomEntry>, rid: Seq<char>) -> Set<u64> {
    Set::new(
        |c: u64|
            exists|i: int|
                0 <= i < rooms.len() && (#[trigger] rooms[i]).id@ == rid
                    && rooms[i].members@.contains(c),
    )
}

/// Whether some entry of `rooms` carries the id `rid`.
pub open spec fn room_in(rooms: Seq<RoomEntry>, rid: Seq<char>) -> bool {
    exists|i: int| 0 <= i < rooms.len() && (#[trigger] rooms[i]).id@ == rid
}

/// Entries are individually well formed and no two share an id.
pub open spec fn rooms_wf(rooms: Seq<RoomEntry>) -> bool {
    &&& forall|i: int| 0 <= i < rooms.len() ==> (#[trigger] rooms[i]).wf()
    &&& forall|i: int, j: int|
        #![trigger rooms[i].id, rooms[j].id]
        0 <= i < j < rooms.len() ==> rooms[i].id@ != rooms[j].id@
}

/// In a well-formed sequence of rooms, the members of the room at index `i`
/// are exactly that entry's member list, seen as a set.
proof fn lemma_members_at(rooms: Seq<RoomEntry>, i: int)
    requires
        rooms_wf(rooms),
        0 <= i < rooms.len(),
    ensures
        members_in(rooms, rooms[i].id@) == rooms[i].members@.to_set(),
{
    let rid = rooms[i].id@;
    assert forall|c: u64| members_in(rooms, rid).contains(c) implies rooms[i].members@.to_set().contains(
        c,
    ) by {
        let j = choose|j: int|
            0 <= j < rooms.len() && (#[trigger] rooms[j]).id@ == rid && rooms[j].members@.contains(
                c,
            );
        assert(rooms[j].id@ == rooms[i].id@);
        assert(j == i);
    };
    assert forall|c: u64| rooms[i].members@.to_set().contains(c) implies members_in(
        rooms,
        rid,
    ).contains(c) by {
        assert(rooms[i].members@.contains(c));
    };
    assert(members_in(rooms, rid) =~= rooms[i].members@.to_set());
}

/// A room id that no entry carries has an empty member set.
proof fn lemma_absent_room_empty(rooms: Seq<RoomEntry>, rid: Seq<char>)
    requires
        !room_in(rooms, rid),
    ensures
        members_in(rooms, rid) == Set::<u64>::empty(),
{
    assert(members_in(rooms, rid) =~= Set::<u64>::empty());
}

/// Removing the entry at index `i` by a swap with the last entry keeps the
/// sequence well formed, erases exactly that entry's room, and leaves every
/// other room untouched.
proof fn lemma_swap_remove_rooms(rooms: Seq<RoomEntry>, i: int)
    requires
        rooms_wf(rooms),
        0 <= i < rooms.len(),
    ensures
        ({
            let rest = rooms.update(i, rooms.last()).drop_last();
            &&& rooms_wf(rest)
            &&& !room_in(rest, rooms[i].id@)
            &&& members_in(rest, rooms[i].id@) == Set::<u64>::empty()
            &&& forall|rid: Seq<char>|
                rid != rooms[i].id@ ==> members_in(rest, rid) == members_in(rooms, rid)
            &&& forall|rid: Seq<char>|
                rid != rooms[i].id@ ==> (room_in(rest, rid) <==> room_in(rooms, rid))
        }),
{
    let n = rooms.len() as int;
    let rest = rooms.update(i, rooms.last()).drop_last();
    assert(forall|j: int|
        0 <= j < n - 1 ==> #[trigger] rest[j] == (if j == i {
            rooms[n - 1]
        } else {
            rooms[j]
        }));
    assert forall|j1: int, j2: int|
        #![trigger rest[j1].id, rest[j2].id]
        0 <= j1 < j2 < rest.len() implies rest[j1].id@ != rest[j2].id@ by {
        let k1: int = if j1 == i {
            n - 1
        } else {
            j1
        };
        let k2: int = if j2 == i {
            n - 1
        } else {
            j2
        };
        assert(rest[j1] == rooms[k1] && rest[j2] == rooms[k2]);
        assert(k1 != k2);
    };
    assert forall|j: int| 0 <= j < rest.len() implies !(rest[j].id@ == rooms[i].id@) by {
        let k: int = if j == i {
            n - 1
        } else {
            j
        };
        assert(rest[j] == rooms[k]);
        if k != i {
            assert(rooms[k].id@ != rooms[i].id@);
        }
    };
    assert(!room_in(rest, rooms[i].id@));
    lemma_absent_room_empty(rest, rooms[i].id@);
    assert forall|rid: Seq<char>| rid != rooms[i].id@ implies members_in(rest, rid) == members_in(
        rooms,
        rid,
    ) && (room_in(rest, rid) <==> room_in(rooms, rid)) by {
        assert forall|c: u64| members_in(rest, rid).contains(c) implies members_in(
            rooms,
            rid,
        ).contains(c) by {
            let j = choose|j: int|
                0 <= j < rest.len() && (#[trigger] rest[j]).id@ == rid
                    && rest[j].members@.contains(c);
            let k: int = if j == i {
                n - 1
            } else {
                j
            };
            assert(rest[j] == rooms[k]);
        };
        assert forall|c: u64| members_in(rooms, rid).contains(c) implies members_in(
            rest,
            rid,
        ).contains(c) by {
            let k = choose|k: int|
                0 <= k < n && (#[trigger] rooms[k]).id@ == rid && rooms[k].members@.contains(c);
            let j: int = if k == n - 1 {
                i
            } else {
                k
            };
            assert(k != i);
            assert(j < n - 1);
            assert(rest[j] == rooms[k]);
            assert(rest[j].id@ == rid && rest[j].members@.contains(c));
        };
        assert(members_in(rest, rid) =~= members_in(rooms, rid));
        if room_in(rest, rid) {
            let j = choose|j: int| 0 <= j < rest.len() && (#[trigger] rest[j]).id@ == rid;
            let k: int = if j == i {
                n - 1
            } else {
                j
            };
            assert(rest[j] == rooms[k]);
            assert(room_in(rooms, rid));
        }
        if room_in(rooms, rid) {
            let k = choose|k: int| 0 <= k < n && (#[trigger] rooms[k]).id@ == rid;
            let j: int = if k == n - 1 {
                i
            } else {
                k
            };
            assert(k != i);
            assert(rest[j] == rooms[k]);
            assert(room_in(rest, rid));
        }
    };
}

/// Appending an entry for a room that is not yet present adds exactly that
/// room and leaves every other room untouched.
proof fn lemma_push_room(rooms: Seq<RoomEntry>, e: RoomEntry)
    requires
        rooms_wf(rooms),
        !room_in(rooms, e.id@),
        e.wf(),
    ensures
        ({
            let s2 = rooms.push(e);
            &&& rooms_wf(s2)
            &&& room_in(s2, e.id@)
            &&& members_in(s2, e.id@) == e.members@.to_set()
            &&& forall|rid: Seq<char>|
                rid != e.id@ ==> members_in(s2, rid) == members_in(rooms, rid)
            &&& forall|rid: Seq<char>| room_in(s2, rid) <==> (room_in(rooms, rid) || rid == e.id@)
        }),
{
    let n = rooms.len() as int;
    let s2 = rooms.push(e);
    assert(forall|j: int|
        0 <= j < n + 1 ==> #[trigger] s2[j] == (if j == n {
            e
        } else {
            rooms[j]
        }));
    assert forall|j1: int, j2: int|
        #![trigger s2[j1].id, s2[j2].id]
        0 <= j1 < j2 < s2.len() implies s2[j1].id@ != s2[j2].id@ by {
        if j2 == n {
            assert(s2[j1] == rooms[j1]);
            assert(!(rooms[j1].id@ == e.id@));
        }
    };
    assert(s2[n].id@ == e.id@);
    assert(room_in(s2, e.id@));
    assert forall|c: u64| members_in(s2, e.id@).contains(c) implies e.members@.to_set().contains(
        c,
    ) by {
        let j = choose|j: int|
            0 <= j < s2.len() && (#[trigger] s2[j]).id@ == e.id@ && s2[j].members@.contains(c);
        if j < n {
            assert(s2[j] == rooms[j]);
            assert(!(rooms[j].id@ == e.id@));
        }
    };
    assert forall|c: u64| e.members@.to_set().contains(c) implies members_in(s2, e.id@).contains(
        c,
    ) by {
        assert(s2[n].members@.contains(c));
    };
    assert(members_in(s2, e.id@) =~= e.members@.to_set());
    assert forall|rid: Seq<char>| rid != e.id@ implies members_in(s2, rid) == members_in(
        rooms,
        rid,
    ) by {
        assert forall|c: u64| members_in(s2, rid).contains(c) implies members_in(
            rooms,
            rid,
        ).contains(c) by {
            let j = choose|j: int|
                0 <= j < s2.len() && (#[trigger] s2[j]).id@ == rid && s2[j].members@.contains(c);
            assert(j != n);
            assert(s2[j] == rooms[j]);
        };
        assert forall|c: u64| members_in(rooms, rid).contains(c) implies members_in(
            s2,
            rid,
        ).contains(c) by {
            let k = choose|k: int|
                0 <= k < n && (#[trigger] rooms[k]).id@ == rid && rooms[k].members@.contains(c);
            assert(s2[k] == rooms[k]);
        };
        assert(members_in(s2, rid) =~= members_in(rooms, rid));
    };
    assert forall|rid: Seq<char>| room_in(s2, rid) <==> (room_in(rooms, rid) || rid == e.id@) by {
        if room_in(s2, rid) && rid != e.id@ {
            let j = choose|j: int| 0 <= j < s2.len() && (#[trigger] s2[j]).id@ == rid;
            assert(j != n);
            assert(s2[j] == rooms[j]);
            assert(room_in(rooms, rid));
        }
        if room_in(rooms, rid) {
            let k = choose|k: int| 0 <= k < n && (#[trigger] rooms[k]).id@ == rid;
            assert(s2[k] == rooms[k]);
            assert(room_in(s2, rid));
        }
    };
}

/// Removing the member at index `j` by a swap with the last member keeps the
/// list duplicate-free and removes exactly that connection from the set.
proof fn lemma_swap_remove_members(m: Seq<u64>, j: int)
    requires
        m.no_duplicates(),
        0 <= j < m.len(),
    ensures
        ({
            let m2 = m.update(j, m.last()).drop_last();
            &&& m2.no_duplicates()
            &&& m2.to_set() == m.to_set().remove(m[j])
            &&& !m2.contains(m[j])
        }),
{
    let n = m.len() as int;
    let m2 = m.update(j, m.last()).drop_last();
    assert(forall|k: int|
        0 <= k < n - 1 ==> #[trigger] m2[k] == (if k == j {
            m[n - 1]
        } else {
            m[k]
        }));
    assert forall|k1: int, k2: int| 0 <= k1 < k2 < m2.len() implies m2[k1] != m2[k2] by {
        let i1: int = if k1 == j {
            n - 1
        } else {
            k1
        };
        let i2: int = if k2 == j {
            n - 1
        } else {
            k2
        };
        assert(m2[k1] == m[i1] && m2[k2] == m[i2]);
        assert(i1 != i2);
    };
    assert forall|k: int| 0 <= k < m2.len() implies m2[k] != m[j] by {
        let i: int = if k == j {
            n - 1
        } else {
            k
        };
        assert(m2[k] == m[i]);
        assert(i != j);
    };
    assert(!m2.contains(m[j]));
    assert forall|c: u64| m2.contains(c) implies m.to_set().remove(m[j]).contains(c) by {
        let k = choose|k: int| 0 <= k < m2.len() && m2[k] == c;
        let i: int = if k == j {
            n - 1
        } else {
            k
        };
        assert(m2[k] == m[i]);
        assert(m.contains(c));
    };
    assert forall|c: u64| m.to_set().remove(m[j]).contains(c) implies m2.contains(c) by {
        let i = choose|i: int| 0 <= i < n && m[i] == c;
        assert(i != j);
        let k: int = if i == n - 1 {
            j
        } else {
            i
        };
        if i == n - 1 {
            assert(m2[j] == m[n - 1]);
        } else {
            assert(m2[i] == m[i]);
        }
        assert(m2[k] == c);
    };
    assert(m2.to_set() =~= m.to_set().remove(m[j]));
}

/// Appending a connection that is not yet in a member list keeps the list
/// duplicate-free and inserts exactly that connection into the set.
proof fn lemma_push_member(m: Seq<u64>, c: u64)
    requires
        m.no_duplicates(),
        !m.contains(c),
    ensures
        m.push(c).no_duplicates(),
        m.push(c).to_set() == m.to_set().insert(c),
{
    let n = m.len() as int;
    let m2 = m.push(c);
    assert forall|k1: int, k2: int| 0 <= k1 < k2 < m2.len() implies m2[k1] != m2[k2] by {
        if k2 == n {
            assert(m2[k1] == m[k1]);
            assert(m.contains(m[k1]));
        }
    };
    assert forall|x: u64| m2.contains(x) implies m.to_set().insert(c).contains(x) by {
        let k = choose|k: int| 0 <= k < m2.len() && m2[k] == x;
        if k < n {
            assert(m[k] == x);
        }
    };
    assert forall|x: u64| m.to_set().insert(c).contains(x) implies m2.contains(x) by {
        if x == c {
            assert(m2[n] == c);
        } else {
            let k = choose|k: int| 0 <= k < n && m[k] == x;
            assert(m2[k] == x);
        }
    };
    assert(m2.to_set() =~= m.to_set().insert(c));
}

/// The registry: maps room ids to the set of member connection ids.
pub struct Registry {
    pub rooms: Vec<RoomEntry>,
}

impl Registry {
    /// The member set of room `rid`; empty if the room is absent.
    pub open spec fn room_members(self, rid: Seq<char>) -> Set<u64> {
        members_in(self.rooms@, rid)
    }

    /// Whether an entry for room `rid` exists.
    pub open spec fn has_room(self, rid: Seq<char>) -> bool {
        room_in(self.rooms@, rid)
    }

    /// Whether connection `c` is a member of room `rid`.
    pub open spec fn is_member(self, rid: Seq<char>, c: u64) -> bool {
        self.room_members(rid).contains(c)
    }

    /// The set of room ids that connection `c` currently belongs to.
    pub open spec fn joined_rooms(self, c: u64) -> Set<Seq<char>> {
        Set::new(|rid: Seq<char>| self.is_member(rid, c))
    }

    /// Registry well-formedness: entries well formed, ids unique.
    pub open spec fn wf(self) -> bool {
        rooms_wf(self.rooms@)
    }

    /// A fresh registry with no rooms at all.
    pub fn new() -> (r: Registry)
        ensures
            r.wf(),
            forall|rid: Seq<char>| !r.has_room(rid),
            forall|rid: Seq<char>| r.room_members(rid) == Set::<u64>::empty(),
    {
        let r = Registry { rooms: Vec::new() };
        proof {
            assert forall|rid: Seq<char>| r.room_members(rid) == Set::<u64>::empty() by {
                assert(r.room_members(rid) =~= Set::<u64>::empty());
            }
        }
        r
    }

    /// The index of the entry for `room_id`, if one exists.
    fn find_room(rooms: &Vec<RoomEntry>, room_id: &String) -> (r: Option<usize>)
        ensures
            match r {
                Some(i) => i < rooms@.len() && rooms@[i as int].id@ == room_id@,
                None => !room_in(rooms@, room_id@),
            },
    {
        let mut i: usize = 0;
        while i < rooms.len()
            invariant
                i <= rooms@.len(),
                forall|j: int| 0 <= j < i ==> (#[trigger] rooms@[j]).id@ != room_id@,
            decreases rooms@.len() - i,
        {
            if rooms[i].id == *room_id {
                return Some(i);
            }
            i = i + 1;
        }
        None
    }

    /// The index of connection `conn` in a member list, if present.
    fn find_member(members: &Vec<u64>, conn: u64) -> (r: Option<usize>)
        ensures
            match r {
                Some(j) => j < members@.len() && members@[j as int] == conn,
                None => !members@.contains(conn),
            },
    {
        let mut j: usize = 0;
        while j < members.len()
            invariant
                j <= members@.len(),
                forall|k: int| 0 <= k < j ==> members@[k] != conn,
            decreases members@.len() - j,
        {
            if members[j] == conn {
                return Some(j);
            }
            j = j + 1;
        }
        None
    }

    /// A plain element-wise copy of a member list.
    fn copy_members(v: &Vec<u64>) -> (r: Vec<u64>)
        ensures
            r@ == v@,
    {
        let mut r: Vec<u64> = Vec::new();
        let mut i: usize = 0;
        while i < v.len()
            invariant
                i <= v@.len(),
                r@ == v@.take(i as int),
            decreases v@.len() - i,
        {
            r.push(v[i]);
            proof {
                assert(v@.take(i as int + 1) =~= v@.take(i as int).push(v@[i as int]));
            }
            i = i + 1;
        }
        proof {
            assert(v@.take(v@.len() as int) =~= v@);
        }
        r
    }

    /// Adds `conn` to room `room_id`, creating the room if it is absent.
    ///
    /// Joining a room the connection already belongs to is a no-op. The
    /// returned list holds the members that were already in the room — the
    /// peers to notify that `conn` joined; it is empty on a repeated join,
    /// so no duplicate presence notification is ever produced, and it never
    /// includes the joining connection itself.
    pub fn join(&mut self, room_id: &String, conn: u64) -> (notified: Vec<u64>)
        requires
            old(self).wf(),
        ensures
            final(self).wf(),
            final(self).room_members(room_id@) == old(self).room_members(room_id@).insert(conn),
            forall|rid: Seq<char>|
                rid != room_id@ ==> final(self).room_members(rid) == old(self).room_members(rid),
            forall|rid: Seq<char>|
                final(self).has_room(rid) <==> (old(self).has_room(rid) || rid == room_id@),
            old(self).is_member(room_id@, conn) ==> *final(self) == *old(self),
            old(self).is_member(room_id@, conn) ==> notified@.len() == 0,
            !old(self).is_member(room_id@, conn) ==> notified@.to_set() == old(self).room_members(
                room_id@,
            ),
            notified@.no_duplicates(),
            !notified@.contains(conn),
            forall|c: u64| #[trigger] notified@.contains(c) ==> old(self).is_member(room_id@, c),
            !old(self).is_member(room_id@, conn) ==> (forall|c: u64|
                old(self).is_member(room_id@, c) ==> #[trigger] notified@.contains(c)),
    {
        let ghost s0 = self.rooms@;
        match Self::find_room(&self.rooms, room_id) {
            Some(i) => {
                proof {
                    lemma_members_at(s0, i as int);
                }
                match Self::find_member(&self.rooms[i].members, conn) {
                    Some(_) => {
                        // Already a member: nothing changes, nobody is notified.
                        let notified: Vec<u64> = Vec::new();
                        proof {
                            assert(old(self).is_member(room_id@, conn));
                            assert(old(self).room_members(room_id@).insert(conn)
                                =~= old(self).room_members(room_id@));
                        }
                        notified
                    },
                    None => {
                        let notified = Self::copy_members(&self.rooms[i].members);
                        let ghost pre = self.rooms@[i as int].members@;
                        let mut room = self.rooms.swap_remove(i);
                        proof {
                            lemma_swap_remove_rooms(s0, i as int);
                            lemma_push_member(pre, conn);
                        }
                        room.members.push(conn);
                        let ghost e = room;
                        let ghost rest = self.rooms@;
                        proof {
                            lemma_push_room(rest, e);
                        }
                        self.rooms.push(room);
                        proof {
                            assert(self.rooms@ == rest.push(e));
                            assert(members_in(rest.push(e), e.id@) == e.members@.to_set());
                            assert(e.id@ == room_id@);
                            assert(e.members@ == pre.push(conn));
                            assert(e.members@.to_set() == pre.to_set().insert(conn));
                            assert(old(self).room_members(room_id@) == pre.to_set());
                            assert(self.room_members(room_id@) == old(self).room_members(
                                room_id@,
                            ).insert(conn));
                            assert forall|rid: Seq<char>|
                                self.has_room(rid) <==> (old(self).has_room(rid) || rid
                                    == room_id@) by {
                                if rid == room_id@ {
                                    assert(old(self).has_room(rid));
                                }
                            };
                        }
                        notified
                    },
                }
            },
            None => {
                proof {
                    lemma_absent_room_empty(s0, room_id@);
                }
                let mut members: Vec<u64> = Vec::new();
                members.push(conn);
                let room = RoomEntry { id: room_id.clone(), members };
                let ghost e = room;
                proof {
                    assert(e.members@.len() == 1 && e.members@[0] == conn);
                    lemma_push_room(s0, e);
                }
                self.rooms.push(room);
                proof {
                    assert(self.rooms@ == s0.push(e));
                    assert(e.members@.to_set().contains(conn));
                    assert forall|x: u64| e.members@.to_set().contains(x) implies x == conn by {
                        let k = choose|k: int| 0 <= k < e.members@.len() && e.members@[k] == x;
                    };
                    assert(e.members@.to_set() =~= Set::<u64>::empty().insert(conn));
                    assert(self.room_members(room_id@) == old(self).room_members(room_id@).insert(
                        conn,
                    ));
                }
                Vec::new()
            },
        }
    }

    /// Whether `conn` is currently a member of room `room_id`.
    pub fn contains_member(&self, room_id: &String, conn: u64) -> (b: bool)
        requires
            self.wf(),
        ensures
            b == self.is_member(room_id@, conn),
    {
        match Self::find_room(&self.rooms, room_id) {
            Some(i) => {
                proof {
                    lemma_members_at(self.rooms@, i as int);
                }
                match Self::find_member(&self.rooms[i].members, conn) {
                    Some(_) => true,
                    None => false,
                }
            },
            None => {
                proof {
                    lemma_absent_room_empty(self.rooms@, room_id@);
                }
                false
            },
        }
    }

    /// Removes `conn` from room `room_id`; deletes the room if it becomes
    /// empty. Leaving a room the connection is not in is a no-op.
    pub fn leave(&mut self, room_id: &String, conn: u64)
        requires
            old(self).wf(),
        ensures
            final(self).wf(),
            final(self).room_members(room_id@) == old(self).room_members(room_id@).remove(conn),
            forall|rid: Seq<char>|
                rid != room_id@ ==> final(self).room_members(rid) == old(self).room_members(rid),
            forall|rid: Seq<char>|
                rid != room_id@ ==> (final(self).has_room(rid) <==> old(self).has_room(rid)),
            final(self).has_room(room_id@) <==> old(self).room_members(room_id@).remove(conn)
                != Set::<u64>::empty(),
    {
        let ghost s0 = self.rooms@;
        match Self::find_room(&self.rooms, room_id) {
            Some(i) => {
                proof {
                    lemma_members_at(s0, i as int);
                }
                let ghost pre = self.rooms@[i as int].members@;
                let mut room = self.rooms.swap_remove(i);
                proof {
                    lemma_swap_remove_rooms(s0, i as int);
                }
                let ghost rest = self.rooms@;
                match Self::find_member(&room.members, conn) {
                    Some(j) => {
                        room.members.swap_remove(j);
                        proof {
                            lemma_swap_remove_members(pre, j as int);
                        }
                        if room.members.len() > 0 {
                            let ghost e = room;
                            proof {
                                lemma_push_room(rest, e);
                            }
                            self.rooms.push(room);
                            proof {
                                assert(self.rooms@ == rest.push(e));
                                assert(e.members@.to_set() == pre.to_set().remove(conn));
                                assert(self.room_members(room_id@) == old(self).room_members(
                                    room_id@,
                                ).remove(conn));
                                assert(e.members@.to_set().contains(e.members@[0]));
                                assert(old(self).room_members(room_id@).remove(conn).contains(
                                    e.members@[0],
                                ));
                            }
                        } else {
                            proof {
                                assert(room.members@.len() == 0);
                                assert(pre.to_set().remove(conn) =~= Set::<u64>::empty());
                                assert(self.room_members(room_id@) == old(self).room_members(
                                    room_id@,
                                ).remove(conn));
                            }
                        }
                    },
                    None => {
                        let ghost e = room;
                        proof {
                            lemma_push_room(rest, e);
                        }
                        self.rooms.push(room);
                        proof {
                            assert(self.rooms@ == rest.push(e));
                            assert(e.members@ == pre);
                            assert(!pre.to_set().contains(conn));
                            assert(pre.to_set().remove(conn) =~= pre.to_set());
                            assert(self.room_members(room_id@) == old(self).room_members(
                                room_id@,
                            ).remove(conn));
                            assert(pre.to_set().contains(pre[0]));
                            assert(old(self).room_members(room_id@).remove(conn).contains(pre[0]));
                        }
                    },
                }
            },
            None => {
                proof {
                    lemma_absent_room_empty(s0, room_id@);
                    assert(Set::<u64>::empty().remove(conn) =~= Set::<u64>::empty());
                    assert(self.room_members(room_id@) == old(self).room_members(room_id@).remove(
                        conn,
                    ));
                }
            },
        }
    }

    /// Removes `conn` from every room it belongs to, deleting each room
    /// that becomes empty; used exactly once, on disconnect. Afterwards the
    /// connection belongs to no room at all, so it can never again be a
    /// relay target.
    pub fn leave_all(&mut self, conn: u64)
        requires
            old(self).wf(),
        ensures
            final(self).wf(),
            forall|rid: Seq<char>|
                final(self).room_members(rid) == old(self).room_members(rid).remove(conn),
            forall|rid: Seq<char>|
                final(self).has_room(rid) <==> old(self).room_members(rid).remove(conn)
                    != Set::<u64>::empty(),
            final(self).joined_rooms(conn) == Set::<Seq<char>>::empty(),
    {
        let ghost s0 = self.rooms@;
        let mut pending: Vec<RoomEntry> = Vec::new();
        core::mem::swap(&mut pending, &mut self.rooms);
        proof {
            assert(pending@ == s0);
            assert(pending@ =~= s0.take(pending@.len() as int));
            assert forall|rid: Seq<char>| !room_in(pending@, rid) implies members_in(
                self.rooms@,
                rid,
            ) == members_in(s0, rid).remove(conn) && !(members_in(s0, rid).remove(conn)
                != Set::<u64>::empty()) by {
                lemma_absent_room_empty(self.rooms@, rid);
                lemma_absent_room_empty(s0, rid);
                assert(members_in(s0, rid).remove(conn) =~= Set::<u64>::empty());
            };
        }
        while pending.len() > 0
            invariant
                rooms_wf(s0),
                pending@.len() <= s0.len(),
                pending@ == s0.take(pending@.len() as int),
                rooms_wf(self.rooms@),
                forall|rid: Seq<char>|
                    !room_in(pending@, rid) ==> members_in(self.rooms@, rid) == members_in(
                        s0,
                        rid,
                    ).remove(conn),
                forall|rid: Seq<char>| room_in(pending@, rid) ==> !room_in(self.rooms@, rid),
                forall|rid: Seq<char>|
                    room_in(self.rooms@, rid) ==> (!room_in(pending@, rid) && members_in(
                        s0,
                        rid,
                    ).remove(conn) != Set::<u64>::empty()),
                forall|rid: Seq<char>|
                    (!room_in(pending@, rid) && members_in(s0, rid).remove(conn)
                        != Set::<u64>::empty()) ==> room_in(self.rooms@, rid),
            decreases pending@.len(),
        {
            let ghost p = pending@;
            let ghost k = p.len() as int;
            let ghost rest = self.rooms@;
            let mut room = pending.pop().unwrap();
            let ghost rid0 = room.id@;
            proof {
                assert(p[k - 1] == s0[k - 1]);
                assert(room == s0[k - 1]);
                assert(pending@ =~= s0.take(k - 1));
                lemma_members_at(s0, k - 1);
                assert(s0[k - 1].wf());
                assert forall|j: int| 0 <= j < k - 1 implies (#[trigger] s0.take(k - 1)[j]).id@
                    != rid0 by {
                    assert(s0.take(k - 1)[j] == s0[j]);
                    assert(s0[j].id@ != s0[k - 1].id@);
                };
                assert(!room_in(pending@, rid0));
                assert(room_in(p, rid0)) by {
                    assert(p[k - 1].id@ == rid0);
                };
                assert(!room_in(rest, rid0));
                // An id in the shorter prefix is in the longer one too.
                assert forall|rid: Seq<char>| room_in(pending@, rid) implies room_in(p, rid) by {
                    let j = choose|j: int|
                        0 <= j < k - 1 && (#[trigger] s0.take(k - 1)[j]).id@ == rid;
                    assert(p[j] == s0[j]);
                    assert(p[j].id@ == rid);
                };
                // An id in the longer prefix is in the shorter one or is rid0.
                assert forall|rid: Seq<char>| room_in(p, rid) && rid != rid0 implies room_in(
                    pending@,
                    rid,
                ) by {
                    let j = choose|j: int| 0 <= j < k && (#[trigger] p[j]).id@ == rid;
                    assert(p[j] == s0[j]);
                    assert(j != k - 1);
                    assert(s0.take(k - 1)[j].id@ == rid);
                };
            }
            let ghost pre = room.members@;
            match Self::find_member(&room.members, conn) {
                Some(j) => {
                    room.members.swap_remove(j);
                    proof {
                        lemma_swap_remove_members(pre, j as int);
                    }
                },
                None => {
                    proof {
                        assert(pre.to_set().remove(conn) =~= pre.to_set());
                    }
                },
            }
            proof {
                assert(room.members@.to_set() == members_in(s0, rid0).remove(conn));
                assert(room.members@.no_duplicates());
                assert(room.id@ == rid0);
            }
            if room.members.len() > 0 {
                let ghost e = room;
                proof {
                    lemma_push_room(rest, e);
                    assert(e.members@.to_set().contains(e.members@[0]));
                    assert(members_in(s0, rid0).remove(conn) != Set::<u64>::empty());
                }
                self.rooms.push(room);
                proof {
                    assert(self.rooms@ == rest.push(e));
                    assert(members_in(self.rooms@, rid0) == members_in(s0, rid0).remove(conn));
                    assert forall|rid: Seq<char>| !room_in(pending@, rid) implies members_in(
                        self.rooms@,
                        rid,
                    ) == members_in(s0, rid).remove(conn) by {
                        if rid != rid0 {
                            assert(!room_in(p, rid));
                            assert(members_in(rest, rid) == members_in(s0, rid).remove(conn));
                            assert(members_in(self.rooms@, rid) == members_in(rest, rid));
                        }
                    };
                    assert forall|rid: Seq<char>| room_in(pending@, rid) implies !room_in(
                        self.rooms@,
                        rid,
                    ) by {
                        assert(room_in(p, rid));
                        assert(rid != rid0);
                        assert(!room_in(rest, rid));
                    };
                    assert forall|rid: Seq<char>|
                        room_in(self.rooms@, rid) <==> (!room_in(pending@, rid) && members_in(
                            s0,
                            rid,
                        ).remove(conn) != Set::<u64>::empty()) by {
                        if rid == rid0 {
                            assert(room_in(self.rooms@, rid0));
                            assert(!room_in(pending@, rid0));
                        } else {
                            assert(room_in(self.rooms@, rid) <==> room_in(rest, rid));
                            if room_in(pending@, rid) {
                                assert(room_in(p, rid));
                                assert(!room_in(rest, rid));
                            } else {
                                assert(!room_in(p, rid));
                            }
                        }
                    };
                }
            } else {
                proof {
                    assert(room.members@.to_set() =~= Set::<u64>::empty());
                    assert(members_in(s0, rid0).remove(conn) == Set::<u64>::empty());
                    lemma_absent_room_empty(rest, rid0);
                    assert forall|rid: Seq<char>| !room_in(pending@, rid) implies members_in(
                        self.rooms@,
                        rid,
                    ) == members_in(s0, rid).remove(conn) by {
                        if rid != rid0 {
                            assert(!room_in(p, rid));
                            assert(members_in(rest, rid) == members_in(s0, rid).remove(conn));
                        }
                    };
                    assert forall|rid: Seq<char>| room_in(pending@, rid) implies !room_in(
                        self.rooms@,
                        rid,
                    ) by {
                        assert(room_in(p, rid));
                        assert(!room_in(rest, rid));
                    };
                    assert forall|rid: Seq<char>|
                        room_in(self.rooms@, rid) <==> (!room_in(pending@, rid) && members_in(
                            s0,
                            rid,
                        ).remove(conn) != Set::<u64>::empty()) by {
                        if rid == rid0 {
                            assert(!room_in(rest, rid0));
                        } else {
                            if room_in(pending@, rid) {
                                assert(room_in(p, rid));
                                assert(!room_in(rest, rid));
                            } else {
                                assert(!room_in(p, rid));
                            }
                        }
                    };
                }
            }
        }
        proof {
            assert(pending@.len() == 0);
            assert forall|rid: Seq<char>| members_in(self.rooms@, rid) == members_in(
                s0,
                rid,
            ).remove(conn) by {
                assert(!room_in(pending@, rid));
            };
            assert forall|rid: Seq<char>|
                room_in(self.rooms@, rid) <==> members_in(s0, rid).remove(conn)
                    != Set::<u64>::empty() by {
                assert(!room_in(pending@, rid));
            };
            assert forall|rid: Seq<char>| self.joined_rooms(conn).contains(rid) implies false by {
                assert(members_in(self.rooms@, rid) == members_in(s0, rid).remove(conn));
                assert(!members_in(s0, rid).remove(conn).contains(conn));
            };
            assert(self.joined_rooms(conn) =~= Set::<Seq<char>>::empty());
        }
    }

    /// The members of room `room_id` other than `exclude`: the fan-out set
    /// for relaying a signal sent by `exclude` to that room. The sender is
    /// never in the result, and no recipient appears twice.
    pub fn members_except(&self, room_id: &String, exclude: u64) -> (v: Vec<u64>)
        requires
            self.wf(),
        ensures
            v@.no_duplicates(),
            v@.to_set() == self.room_members(room_id@).remove(exclude),
            !v@.contains(exclude),
            forall|c: u64| #[trigger] v@.contains(c) ==> self.is_member(room_id@, c),
            forall|c: u64|
                self.is_member(room_id@, c) && c != exclude ==> #[trigger] v@.contains(c),
    {
        let mut v: Vec<u64> = Vec::new();
        match Self::find_room(&self.rooms, room_id) {
            Some(i) => {
                proof {
                    lemma_members_at(self.rooms@, i as int);
                    assert(self.rooms@[i as int].wf());
                }
                let members = &self.rooms[i].members;
                let mut j: usize = 0;
                while j < members.len()
                    invariant
                        j <= members@.len(),
                        members@.no_duplicates(),
                        v@.no_duplicates(),
                        forall|c: u64|
                            v@.contains(c) <==> (members@.take(j as int).contains(c) && c
                                != exclude),
                    decreases members@.len() - j,
                {
                    let m = members[j];
                    let ghost prefix = members@.take(j as int);
                    let ghost prefix1 = members@.take(j as int + 1);
                    proof {
                        assert(prefix1 =~= prefix.push(members@[j as int]));
                        assert forall|c: u64| prefix1.contains(c) implies (prefix.contains(c) || c
                            == m) by {
                            let k = choose|k: int| 0 <= k < prefix1.len() && prefix1[k] == c;
                            if k < j {
                                assert(prefix[k] == c);
                            }
                        };
                        assert(prefix1.contains(m)) by {
                            assert(prefix1[j as int] == m);
                        };
                        assert forall|c: u64| prefix.contains(c) implies prefix1.contains(c) by {
                            let k = choose|k: int| 0 <= k < prefix.len() && prefix[k] == c;
                            assert(prefix1[k] == c);
                        };
                    }
                    if m != exclude {
                        proof {
                            assert(!v@.contains(m)) by {
                                if prefix.contains(m) {
                                    let k = choose|k: int| 0 <= k < j && prefix[k] == m;
                                    assert(members@[k] == members@[j as int]);
                                }
                            };
                            lemma_push_member(v@, m);
                        }
                        v.push(m);
                        proof {
                            assert forall|c: u64|
                                v@.contains(c) <==> (prefix1.contains(c) && c != exclude) by {
                                assert(v@.to_set().contains(c) == v@.contains(c));
                            };
                        }
                    }
                    j = j + 1;
                }
                proof {
                    assert(members@.take(members@.len() as int) =~= members@);
                    assert(v@.to_set() =~= self.room_members(room_id@).remove(exclude));
                }
            },
            None => {
                proof {
                    lemma_absent_room_empty(self.rooms@, room_id@);
                    assert(v@.to_set() =~= self.room_members(room_id@).remove(exclude));
                }
            },
        }
        v
    }

    /// Law: a connection is in a room's member set exactly when that room's
    /// id is among the connection's joined rooms.
    pub proof fn lemma_membership_bidirectional(self, rid: Seq<char>, c: u64)
        ensures
            self.is_member(rid, c) <==> self.joined_rooms(c).contains(rid),
    {
    }

    /// Law: a well-formed registry keeps no empty room — an entry for a room
    /// id exists exactly when some connection is a member of it.
    pub proof fn lemma_no_empty_rooms(self, rid: Seq<char>)
        requires
            self.wf(),
        ensures
            self.has_room(rid) <==> self.room_members(rid) != Set::<u64>::empty(),
    {
        if self.has_room(rid) {
            let i = choose|i: int|
                0 <= i < self.rooms@.len() && (#[trigger] self.rooms@[i]).id@ == rid;
            let c = self.rooms@[i].members@[0];
            assert(self.rooms@[i].members@.contains(c));
            assert(self.room_members(rid).contains(c));
        } else {
            assert(self.room_members(rid) =~= Set::<u64>::empty());
        }
    }
}

} // verus!
