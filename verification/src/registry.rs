//! The room registry: owns every live room, hands out collision-free room
//! identifiers, creates a room on first join and destroys a room whose
//! roster empties.  An identifier is *pending* between its reservation and
//! the first join, so two near-simultaneous reservations cannot collide.

use vstd::prelude::*;

use crate::session::{
    Game, GameV, Player, PlayerV, StageV, remove_from_game, roster_has, snapshot_of,
};
use crate::trusted::{rand_str, str_eq};

verus! {

/// How many random draws are made before the registry escalates to an
/// identifier strictly longer than every identifier it knows.
pub const RESERVE_TRIES: usize = 16;

/// The registry: reserved identifiers and live rooms.
#[derive(Debug)]
pub struct Games {
    /// Reserved room ids, not yet bound to a room.
    pub pending_ids: Vec<String>,
    /// Rooms with joined players.
    pub rooms: Vec<Game>,
}

/// Mathematical value of a [`Games`].
#[verifier::ext_equal]
pub ghost struct GamesV {
    pub pending: Seq<Seq<char>>,
    pub rooms: Seq<GameV>,
}

/// The views of a sequence of rooms.
pub open spec fn room_views(rooms: Seq<Game>) -> Seq<GameV> {
    Seq::new(rooms.len(), |i: int| rooms[i]@)
}

/// The views of a sequence of pending ids.
pub open spec fn pending_views(ids: Seq<String>) -> Seq<Seq<char>> {
    Seq::new(ids.len(), |i: int| ids[i]@)
}

impl View for Games {
    type V = GamesV;

    open spec fn view(&self) -> GamesV {
        GamesV { pending: pending_views(self.pending_ids@), rooms: room_views(self.rooms@) }
    }
}

/// The predicate that keeps every id but the given one.
pub open spec fn keeps_rid(gid: Seq<char>) -> spec_fn(Seq<char>) -> bool {
    |x: Seq<char>| x != gid
}

/// Whether some room of the sequence carries the given id.
pub open spec fn rooms_have(rooms: Seq<GameV>, id: Seq<char>) -> bool {
    exists|i: int| 0 <= i < rooms.len() && rooms[i].id == id
}

/// Whether no two rooms of the sequence share an id.
pub open spec fn rooms_distinct(rooms: Seq<GameV>) -> bool {
    forall|i: int, j: int| 0 <= i < j < rooms.len() ==> rooms[i].id != rooms[j].id
}

/// The room of the given id; meaningful where [`rooms_have`] holds and the
/// ids are distinct.
pub open spec fn room_named(rooms: Seq<GameV>, id: Seq<char>) -> GameV {
    rooms[choose|k: int| 0 <= k < rooms.len() && rooms[k].id == id]
}

/// The rooms with every room of the given id replaced by `g2`.
pub open spec fn rooms_with(rooms: Seq<GameV>, id: Seq<char>, g2: GameV) -> Seq<GameV> {
    Seq::new(rooms.len(), |k: int| if rooms[k].id == id { g2 } else { rooms[k] })
}

/// With distinct ids, [`room_named`] picks exactly the matching index.
pub proof fn lemma_room_named_is(rooms: Seq<GameV>, id: Seq<char>, k: int)
    requires
        rooms_distinct(rooms),
        0 <= k < rooms.len(),
        rooms[k].id == id,
    ensures
        room_named(rooms, id) == rooms[k],
{
    let c = choose|c: int| 0 <= c < rooms.len() && rooms[c].id == id;
    if c != k {
        assert(rooms[c].id == rooms[k].id);
    }
}

/// A room after one player joined it, as [`Game::add_player`] leaves it.
pub open spec fn join_game(g: GameV, p: PlayerV) -> GameV {
    if roster_has(g.players, p.id) {
        g
    } else {
        GameV { players: g.players.push(p), ..g }
    }
}

/// A freshly created room, as [`Game::new`] builds it.
pub open spec fn fresh_game(id: Seq<char>, p: PlayerV) -> GameV {
    GameV {
        id,
        stage: StageV::PlayerChoosing { player_id: p.id },
        players: seq![p],
        history: Seq::empty(),
    }
}

/// The rooms that survive removing one player from every room: each room
/// loses the player, and a room whose roster empties is destroyed.
pub open spec fn rooms_after_remove(rooms: Seq<GameV>, pid: u128) -> Seq<GameV>
    decreases rooms.len(),
{
    if rooms.len() == 0 {
        Seq::empty()
    } else {
        let prev = rooms_after_remove(rooms.drop_last(), pid);
        let g2 = remove_from_game(rooms.last(), pid);
        if g2.players.len() == 0 {
            prev
        } else {
            prev.push(g2)
        }
    }
}

/// The broadcast snapshots of the rooms that were changed by removing one
/// player and still have members, in room order.
pub open spec fn modified_after_remove(rooms: Seq<GameV>, pid: u128) -> Seq<GameV>
    decreases rooms.len(),
{
    if rooms.len() == 0 {
        Seq::empty()
    } else {
        let prev = modified_after_remove(rooms.drop_last(), pid);
        let g = rooms.last();
        let g2 = remove_from_game(g, pid);
        if g.has_player(pid) && g2.players.len() > 0 {
            prev.push(snapshot_of(g2))
        } else {
            prev
        }
    }
}

impl GamesV {
    /// Whether the id is pending or names a live room.
    pub open spec fn id_exists(self, id: Seq<char>) -> bool {
        self.pending.contains(id) || rooms_have(self.rooms, id)
    }

    /// Well-formedness: pending ids are distinct, room ids are distinct, and
    /// every room is well-formed.
    pub open spec fn wf(self) -> bool {
        &&& (forall|i: int, j: int|
            0 <= i < j < self.pending.len() ==> self.pending[i] != self.pending[j])
        &&& rooms_distinct(self.rooms)
        &&& (forall|i: int| 0 <= i < self.rooms.len() ==> (#[trigger] self.rooms[i]).wf())
    }
}

/// Mapping room views commutes with appending one room.
proof fn lemma_room_views_push(s: Seq<Game>, g: Game)
    ensures
        room_views(s.push(g)) == room_views(s).push(g@),
{
    assert(room_views(s.push(g)) =~= room_views(s).push(g@));
}

/// Mapping pending views commutes with appending one id.
proof fn lemma_pending_views_push(s: Seq<String>, id: String)
    ensures
        pending_views(s.push(id)) == pending_views(s).push(id@),
{
    assert(pending_views(s.push(id)) =~= pending_views(s).push(id@));
}

/// Mapping room views commutes with replacing one room.
proof fn lemma_room_views_update(s: Seq<Game>, i: int, g: Game)
    requires
        0 <= i < s.len(),
    ensures
        room_views(s.update(i, g)) == room_views(s).update(i, g@),
{
    assert(room_views(s.update(i, g)) =~= room_views(s).update(i, g@));
}

/// A mutable borrow of one room of the vector.
pub(crate) fn room_at_mut(rooms: &mut Vec<Game>, i: usize) -> (g: &mut Game)
    requires
        i < old(rooms)@.len(),
    ensures
        *g == old(rooms)@[i as int],
        final(rooms)@ == old(rooms)@.update(i as int, *final(g)),
{
    &mut rooms[i]
}

impl Games {
    /// An empty registry.
    pub fn new() -> (r: Games)
        ensures
            r@.pending.len() == 0,
            r@.rooms.len() == 0,
            r@.wf(),
    {
        let r = Games { pending_ids: Vec::new(), rooms: Vec::new() };
        proof {
            assert(r@.pending =~= Seq::<Seq<char>>::empty());
            assert(r@.rooms =~= Seq::<GameV>::empty());
        }
        r
    }

    /// Whether the id is pending or names a live room.
    #[verifier::loop_isolation(false)]
    pub fn id_exists(&self, game_id: &str) -> (r: bool)
        ensures
            r == self@.id_exists(game_id@),
    {
        let mut i: usize = 0;
        let n = self.pending_ids.len();
        while i < n
            invariant
                i <= n,
                n == self.pending_ids@.len(),
                forall|k: int| 0 <= k < i ==> self@.pending[k] != game_id@,
            decreases n - i,
        {
            if str_eq(self.pending_ids[i].as_str(), game_id) {
                proof {
                    assert(self@.pending[i as int] == game_id@);
                }
                return true;
            }
            i = i + 1;
        }
        let mut j: usize = 0;
        let m = self.rooms.len();
        while j < m
            invariant
                j <= m,
                m == self.rooms@.len(),
                forall|k: int| 0 <= k < j ==> self@.rooms[k].id != game_id@,
            decreases m - j,
        {
            if str_eq(self.rooms[j].id.as_str(), game_id) {
                proof {
                    assert(self@.rooms[j as int].id == game_id@);
                }
                return true;
            }
            j = j + 1;
        }
        proof {
            if self@.pending.contains(game_id@) {
                let k = choose|k: int|
                    0 <= k < self@.pending.len() && self@.pending[k] == game_id@;
                assert(false);
            }
        }
        false
    }

    /// The longest id the registry knows, in characters.
    #[verifier::loop_isolation(false)]
    fn max_id_len(&self) -> (r: usize)
        ensures
            forall|k: int| 0 <= k < self@.pending.len() ==> self@.pending[k].len() <= r,
            forall|k: int| 0 <= k < self@.rooms.len() ==> self@.rooms[k].id.len() <= r,
    {
        let mut best: usize = 0;
        let mut i: usize = 0;
        let n = self.pending_ids.len();
        while i < n
            invariant
                i <= n,
                n == self.pending_ids@.len(),
                forall|k: int| 0 <= k < i ==> self@.pending[k].len() <= best,
            decreases n - i,
        {
            let l = self.pending_ids[i].as_str().unicode_len();
            if l > best {
                best = l;
            }
            i = i + 1;
        }
        let mut j: usize = 0;
        let m = self.rooms.len();
        while j < m
            invariant
                j <= m,
                m == self.rooms@.len(),
                forall|k: int| 0 <= k < j ==> self@.rooms[k].id.len() <= best,
                forall|k: int| 0 <= k < n ==> self@.pending[k].len() <= best,
            decreases m - j,
        {
            let l = self.rooms[j].id.as_str().unicode_len();
            if l > best {
                best = l;
            }
            j = j + 1;
        }
        best
    }

    /// Reserves a fresh room id: the result equals no pending or live id,
    /// and is recorded as pending.  A few short random draws are tried, the
    /// id growing by one character after each collision; if all collide, the
    /// registry escalates to an id strictly longer than every id it knows,
    /// which cannot collide.
    #[verifier::loop_isolation(false)]
    pub fn reserve_id(&mut self) -> (r: String)
        requires
            old(self)@.wf(),
        ensures
            !old(self)@.id_exists(r@),
            final(self)@.pending == old(self)@.pending.push(r@),
            final(self)@.rooms == old(self)@.rooms,
            final(self)@.wf(),
            r@.len() >= 6,
            forall|idq: Seq<char>|
                old(self)@.id_exists(idq) ==> #[trigger] final(self)@.id_exists(idq),
    {
        let mut len: usize = 6;
        let mut tries: usize = 0;
        let mut picked: Option<String> = Option::None;
        while tries < RESERVE_TRIES && picked.is_none()
            invariant
                *self == *old(self),
                len >= 6,
                picked matches Option::Some(id) ==> !self@.id_exists(id@) && id@.len() >= 6,
            decreases RESERVE_TRIES - tries, (if picked.is_some() { 0int } else { 1int }),
        {
            let id = rand_str(len);
            if !self.id_exists(id.as_str()) {
                picked = Option::Some(id);
            } else {
                tries = tries + 1;
                if len < 64 {
                    len = len + 1;
                }
            }
        }
        let id = match picked {
            Option::Some(id) => id,
            Option::None => {
                // Escalate: one character longer than anything known.
                let mut cap = self.max_id_len();
                if cap < 6 {
                    cap = 6;
                }
                let base = rand_str(cap);
                let id = base.concat("*");
                proof {
                    reveal_strlit("*");
                    assert(id@.len() == cap + 1);
                    assert forall|k: int|
                        0 <= k < self@.pending.len() implies self@.pending[k] != id@ by {
                        assert(self@.pending[k].len() <= cap);
                    }
                    assert forall|k: int|
                        0 <= k < self@.rooms.len() implies self@.rooms[k].id != id@ by {
                        assert(self@.rooms[k].id.len() <= cap);
                    }
                    if self@.pending.contains(id@) {
                        let k = choose|k: int|
                            0 <= k < self@.pending.len() && self@.pending[k] == id@;
                        assert(false);
                    }
                }
                id
            },
        };
        let ghost gv = self@;
        let ghost idv = id@;
        let out = id.clone();
        self.pending_ids.push(id);
        proof {
            lemma_pending_views_push(old(self).pending_ids@, self.pending_ids@.last());
            assert(self@.pending =~= gv.pending.push(idv));
            assert forall|i: int, j: int|
                0 <= i < j < self@.pending.len() implies self@.pending[i]
                != self@.pending[j] by {
                if j == gv.pending.len() as int {
                    if self@.pending[i] == idv {
                        assert(gv.pending.contains(idv));
                    }
                }
            }
            assert forall|idq: Seq<char>|
                gv.id_exists(idq) implies #[trigger] self@.id_exists(idq) by {
                if gv.pending.contains(idq) {
                    let t = choose|t: int| 0 <= t < gv.pending.len() && gv.pending[t] == idq;
                    assert(self@.pending[t] == idq);
                }
            }
        }
        out
    }

    /// The live room of the given id, if any.
    #[verifier::loop_isolation(false)]
    pub fn find(&self, id: &str) -> (r: Option<&Game>)
        ensures
            r matches Option::Some(g) ==> (exists|k: int|
                0 <= k < self@.rooms.len() && self@.rooms[k].id == id@ && g@ == self@.rooms[k]),
            r is None ==> !rooms_have(self@.rooms, id@),
    {
        let n = self.rooms.len();
        let mut i: usize = 0;
        let mut hit: bool = false;
        while i < n && !hit
            invariant
                i <= n,
                n == self.rooms@.len(),
                forall|k: int| 0 <= k < i ==> self@.rooms[k].id != id@,
                hit ==> i < n && self@.rooms[i as int].id == id@,
            decreases n - i, (if hit { 0int } else { 1int }),
        {
            if str_eq(self.rooms[i].id.as_str(), id) {
                hit = true;
            } else {
                i = i + 1;
            }
        }
        if hit {
            Option::Some(&self.rooms[i])
        } else {
            Option::None
        }
    }

    /// A mutable borrow of the live room of the given id, if any.  The
    /// caller is responsible for leaving the room well-formed; every
    /// operation of [`Game`] does.
    #[verifier::loop_isolation(false)]
    pub fn find_mut(&mut self, id: &str) -> (r: Option<&mut Game>)
        ensures
            r matches Option::Some(g) ==> (exists|k: int|
                {
                    &&& 0 <= k < old(self)@.rooms.len()
                    &&& old(self)@.rooms[k].id == id@
                    &&& (*g)@ == old(self)@.rooms[k]
                    &&& final(self).rooms@ == old(self).rooms@.update(k, *final(g))
                    &&& final(self).pending_ids@ == old(self).pending_ids@
                }),
            r is None ==> *final(self) == *old(self) && !rooms_have(old(self)@.rooms, id@),
    {
        let n = self.rooms.len();
        let mut i: usize = 0;
        let mut hit: bool = false;
        while i < n && !hit
            invariant
                i <= n,
                n == self.rooms@.len(),
                *self == *old(self),
                forall|k: int| 0 <= k < i ==> self@.rooms[k].id != id@,
                hit ==> i < n && self@.rooms[i as int].id == id@,
            decreases n - i, (if hit { 0int } else { 1int }),
        {
            if str_eq(self.rooms[i].id.as_str(), id) {
                hit = true;
            } else {
                i = i + 1;
            }
        }
        if hit {
            let g = room_at_mut(&mut self.rooms, i);
            Option::Some(g)
        } else {
            Option::None
        }
    }

    /// Adds a player to the room of the given id, creating the room if none
    /// exists, and clears the id's pending mark.  Joining is idempotent on
    /// the roster; the returned player carries the given nickname, or a
    /// fresh random one of three characters.  Returns the room's broadcast
    /// snapshot and the player.
    #[verifier::loop_isolation(false)]
    pub fn add_player(&mut self, game_id: &str, player_id: u128, nickname: Option<String>) -> (r:
        (Game, Player))
        requires
            old(self)@.wf(),
        ensures
            r.1@.id == player_id,
            (match nickname {
                Option::Some(n) => r.1@.nickname == n@,
                Option::None => r.1@.nickname.len() == 3,
            }),
            final(self)@.pending == old(self)@.pending.filter(keeps_rid(game_id@)),
            final(self)@.rooms.len() == old(self)@.rooms.len() || final(self)@.rooms.len() == old(
                self,
            )@.rooms.len() + 1,
            rooms_have(old(self)@.rooms, game_id@) ==> {
                &&& final(self)@.rooms.len() == old(self)@.rooms.len()
                &&& (forall|k: int|
                    0 <= k < old(self)@.rooms.len() ==> final(self)@.rooms[k] == (
                    if old(self)@.rooms[k].id == game_id@ {
                        join_game(old(self)@.rooms[k], r.1@)
                    } else {
                        old(self)@.rooms[k]
                    }))
                &&& (exists|k: int|
                    0 <= k < old(self)@.rooms.len() && old(self)@.rooms[k].id == game_id@
                        && r.0@ == snapshot_of(join_game(old(self)@.rooms[k], r.1@)))
            },
            !rooms_have(old(self)@.rooms, game_id@) ==> {
                &&& final(self)@.rooms == old(self)@.rooms.push(fresh_game(game_id@, r.1@))
                &&& r.0@ == snapshot_of(fresh_game(game_id@, r.1@))
            },
            final(self)@.wf(),
            forall|idq: Seq<char>|
                old(self)@.id_exists(idq) ==> #[trigger] final(self)@.id_exists(idq),
    {
        let nick = match nickname {
            Option::Some(n) => n,
            Option::None => rand_str(3),
        };
        let player = Player { id: player_id, nickname: nick };
        let ghost pv = player@;
        let ghost gv = self@;

        // Clear the pending mark for this id.
        let mut still_pending: Vec<String> = Vec::new();
        let n = self.pending_ids.len();
        let mut i: usize = 0;
        while i < n
            invariant
                i <= n,
                n == self.pending_ids@.len(),
                *self == *old(self),
                pv == player@,
                pending_views(still_pending@) == gv.pending.subrange(0, i as int).filter(
                    keeps_rid(game_id@),
                ),
            decreases n - i,
        {
            let ghost pre = gv.pending.subrange(0, i as int);
            let ghost old_kept = still_pending@;
            let keep_it = !str_eq(self.pending_ids[i].as_str(), game_id);
            if keep_it {
                still_pending.push(self.pending_ids[i].clone());
            }
            i = i + 1;
            proof {
                let cur = gv.pending.subrange(0, i as int);
                assert(cur.drop_last() =~= pre);
                assert(cur.last() == gv.pending[i - 1]);
                reveal_with_fuel(Seq::filter, 2);
                if keep_it {
                    lemma_pending_views_push(old_kept, still_pending@.last());
                }
                assert(pending_views(still_pending@) =~= cur.filter(keeps_rid(game_id@)));
            }
        }
        proof {
            assert(gv.pending.subrange(0, n as int) =~= gv.pending);
        }
        self.pending_ids = still_pending;

        // Join the existing room, or create one.
        let m = self.rooms.len();
        let mut j: usize = 0;
        let mut hit: bool = false;
        while j < m && !hit
            invariant
                j <= m,
                m == self.rooms@.len(),
                room_views(self.rooms@) == gv.rooms,
                pv == player@,
                forall|k: int| 0 <= k < j ==> gv.rooms[k].id != game_id@,
                hit ==> j < m && gv.rooms[j as int].id == game_id@,
            decreases m - j, (if hit { 0int } else { 1int }),
        {
            if str_eq(self.rooms[j].id.as_str(), game_id) {
                hit = true;
            } else {
                j = j + 1;
            }
        }
        proof {
            lemma_id_filter_distinct(gv.pending, keeps_rid(game_id@));
        }
        if hit {
            let ghost rooms_before = self.rooms@;
            let g = room_at_mut(&mut self.rooms, j);
            g.add_player(player.clone());
            let snap = g.clone();
            proof {
                lemma_room_views_update(rooms_before, j as int, self.rooms@[j as int]);
                assert(room_views(self.rooms@) =~= gv.rooms.update(j as int, join_game(
                    gv.rooms[j as int], pv)));
                assert forall|k: int|
                    0 <= k < gv.rooms.len() implies self@.rooms[k] == (
                if gv.rooms[k].id == game_id@ {
                    join_game(gv.rooms[k], pv)
                } else {
                    gv.rooms[k]
                }) by {
                    if k != j as int && gv.rooms[k].id == game_id@ {
                        assert(gv.rooms[j as int].id == game_id@);
                    }
                }
                assert forall|a: int, b: int|
                    0 <= a < b < self@.rooms.len() implies self@.rooms[a].id
                    != self@.rooms[b].id by {
                    assert(gv.rooms[a].id != gv.rooms[b].id);
                }
                assert forall|k: int|
                    0 <= k < self@.rooms.len() implies (#[trigger] self@.rooms[k]).wf() by {
                    if k != j as int {
                        assert(gv.rooms[k].wf());
                    }
                }
                assert(self@.rooms[j as int].id == game_id@);
                assert(rooms_have(self@.rooms, game_id@));
                lemma_ids_kept(gv, self@, game_id@);
            }
            (snap, player)
        } else {
            proof {
                assert(!rooms_have(gv.rooms, game_id@)) by {
                    if rooms_have(gv.rooms, game_id@) {
                        let k = choose|k: int|
                            0 <= k < gv.rooms.len() && gv.rooms[k].id == game_id@;
                    }
                }
            }
            let game = Game::new(game_id.to_owned(), player.clone());
            let snap = game.clone();
            self.rooms.push(game);
            proof {
                lemma_room_views_push(old(self).rooms@.subrange(0, m as int), self.rooms@.last());
                assert(old(self).rooms@.subrange(0, m as int) =~= old(self).rooms@);
                assert(self@.rooms =~= gv.rooms.push(fresh_game(game_id@, pv)));
                assert(snap@ =~= snapshot_of(fresh_game(game_id@, pv)));
                lemma_add_player_wf(
                    GamesV { pending: gv.pending, rooms: gv.rooms },
                    self@,
                    game_id@,
                    pv,
                );
                assert(self@.rooms[gv.rooms.len() as int].id == game_id@);
                assert(rooms_have(self@.rooms, game_id@));
                lemma_ids_kept(gv, self@, game_id@);
            }
            (snap, player)
        }
    }

    /// Removes the player from every room; a room whose roster empties is
    /// destroyed.  Returns the broadcast snapshots of the rooms that changed
    /// and survive, for the caller to broadcast.
    #[verifier::loop_isolation(false)]
    pub fn remove_player(&mut self, player_id: u128) -> (r: Vec<Game>)
        requires
            old(self)@.wf(),
        ensures
            final(self)@.rooms == rooms_after_remove(old(self)@.rooms, player_id),
            final(self)@.pending == old(self)@.pending,
            room_views(r@) == modified_after_remove(old(self)@.rooms, player_id),
            final(self)@.wf(),
    {
        let ghost orig = self@.rooms;
        let mut kept: Vec<Game> = Vec::new();
        let mut modified: Vec<Game> = Vec::new();
        let n = self.rooms.len();
        let mut i: usize = 0;
        while i < n
            invariant
                i <= n,
                n == orig.len(),
                self.pending_ids@ == old(self).pending_ids@,
                self.rooms@.len() == n - i,
                room_views(self.rooms@) == orig.subrange(i as int, n as int),
                room_views(kept@) == rooms_after_remove(orig.subrange(0, i as int), player_id),
                room_views(modified@) == modified_after_remove(
                    orig.subrange(0, i as int),
                    player_id,
                ),
                forall|k: int| 0 <= k < orig.len() ==> (#[trigger] orig[k]).wf(),
            decreases n - i,
        {
            let ghost old_kept = kept@;
            let ghost old_modified = modified@;
            let ghost old_rooms = self.rooms@;
            let mut g = self.rooms.remove(0);
            proof {
                assert(room_views(old_rooms)[0] == old_rooms[0]@);
                assert(g@ == orig[i as int]);
                assert(self.rooms@ =~= old_rooms.subrange(1, old_rooms.len() as int));
                assert forall|k: int|
                    0 <= k < self.rooms@.len() implies room_views(self.rooms@)[k] == orig.subrange(
                    i + 1,
                    n as int,
                )[k] by {
                    assert(room_views(self.rooms@)[k] == self.rooms@[k]@);
                    assert(self.rooms@[k] == old_rooms[k + 1]);
                    assert(room_views(old_rooms)[k + 1] == old_rooms[k + 1]@);
                    assert(orig.subrange(i as int, n as int)[k + 1] == orig[i + 1 + k]);
                }
                assert(room_views(self.rooms@) =~= orig.subrange(i + 1, n as int));
            }
            let present = g.remove_player(player_id);
            if g.players.is_empty() {
                // The roster emptied: the room is destroyed.
            } else {
                if present {
                    modified.push(g.clone());
                }
                kept.push(g);
            }
            i = i + 1;
            proof {
                let cur = orig.subrange(0, i as int);
                assert(cur.drop_last() =~= orig.subrange(0, i - 1));
                assert(cur.last() == orig[i - 1]);
                if kept@.len() > old_kept.len() {
                    lemma_room_views_push(old_kept, kept@.last());
                }
                if modified@.len() > old_modified.len() {
                    lemma_room_views_push(old_modified, modified@.last());
                }
                assert(room_views(kept@) =~= rooms_after_remove(cur, player_id));
                assert(room_views(modified@) =~= modified_after_remove(cur, player_id));
            }
        }
        proof {
            assert(orig.subrange(0, n as int) =~= orig);
            assert(room_views(self.rooms@) =~= Seq::<GameV>::empty());
        }
        self.rooms = kept;
        proof {
            lemma_rooms_after_remove_wf(orig, player_id);
            assert(self@.pending =~= old(self)@.pending);
        }
        modified
    }
}

/// Every element of a filtered id sequence stands somewhere in the
/// unfiltered one.
proof fn lemma_id_filter_element_from(ids: Seq<Seq<char>>, pred: spec_fn(Seq<char>) -> bool, i: int)
    requires
        0 <= i < ids.filter(pred).len(),
    ensures
        exists|k: int| 0 <= k < ids.len() && ids[k] == ids.filter(pred)[i],
    decreases ids.len(),
{
    reveal(Seq::filter);
    if ids.len() > 0 {
        let fs = ids.filter(pred);
        let prev = ids.drop_last();
        if pred(ids.last()) && i == fs.len() - 1 {
            assert(ids[ids.len() - 1] == fs[i]);
        } else {
            lemma_id_filter_element_from(prev, pred, i);
            let k = choose|k: int| 0 <= k < prev.len() && prev[k] == prev.filter(pred)[i];
            assert(ids[k] == fs[i]);
        }
    }
}

/// Filtering a sequence of distinct ids leaves distinct ids.
proof fn lemma_id_filter_distinct(ids: Seq<Seq<char>>, pred: spec_fn(Seq<char>) -> bool)
    requires
        forall|i: int, j: int| 0 <= i < j < ids.len() ==> ids[i] != ids[j],
    ensures
        forall|i: int, j: int|
            0 <= i < j < ids.filter(pred).len() ==> ids.filter(pred)[i] != ids.filter(pred)[j],
    decreases ids.len(),
{
    reveal(Seq::filter);
    if ids.len() > 0 {
        let fs = ids.filter(pred);
        let prev = ids.drop_last();
        assert(forall|k: int| 0 <= k < prev.len() ==> prev[k] == ids[k]);
        lemma_id_filter_distinct(prev, pred);
        let pfs = prev.filter(pred);
        if pred(ids.last()) {
            assert(fs == pfs.push(ids.last()));
            assert forall|i: int, j: int| 0 <= i < j < fs.len() implies fs[i] != fs[j] by {
                if j < fs.len() - 1 {
                    assert(pfs[i] == fs[i] && pfs[j] == fs[j]);
                } else {
                    assert(fs[j] == ids.last());
                    assert(pfs[i] == fs[i]);
                    lemma_id_filter_element_from(prev, pred, i);
                    let k = choose|k: int| 0 <= k < prev.len() && prev[k] == pfs[i];
                    assert(ids[k] == fs[i]);
                    assert(ids[k] != ids[ids.len() - 1]);
                }
            }
        } else {
            assert(fs == pfs);
        }
    }
}

/// After a join that created a room, the registry stays well-formed.
proof fn lemma_add_player_wf(pre: GamesV, post: GamesV, id: Seq<char>, p: PlayerV)
    requires
        pre.wf(),
        !rooms_have(pre.rooms, id),
        post.rooms == pre.rooms.push(fresh_game(id, p)),
        forall|i: int, j: int| 0 <= i < j < post.pending.len() ==> post.pending[i]
            != post.pending[j],
    ensures
        post.wf(),
{
    let fg = fresh_game(id, p);
    assert(fg.wf()) by {
        assert(fg.players[0].id == p.id);
    }
    assert forall|i: int, j: int|
        0 <= i < j < post.rooms.len() implies post.rooms[i].id != post.rooms[j].id by {
        if j == pre.rooms.len() as int {
            if post.rooms[i].id == id {
                assert(rooms_have(pre.rooms, id));
            }
        }
    }
    assert forall|i: int| 0 <= i < post.rooms.len() implies (#[trigger] post.rooms[i]).wf() by {
        if i < pre.rooms.len() {
            assert(pre.rooms[i].wf());
        }
    }
}

/// Removing one player keeps the surviving rooms well-formed, their ids
/// distinct and drawn from the original rooms.
pub proof fn lemma_rooms_after_remove_wf(rooms: Seq<GameV>, pid: u128)
    requires
        rooms_distinct(rooms),
        forall|k: int| 0 <= k < rooms.len() ==> (#[trigger] rooms[k]).wf(),
    ensures
        rooms_distinct(rooms_after_remove(rooms, pid)),
        forall|k: int|
            0 <= k < rooms_after_remove(rooms, pid).len() ==> (#[trigger] rooms_after_remove(
                rooms,
                pid,
            )[k]).wf(),
        forall|id: Seq<char>|
            rooms_have(rooms_after_remove(rooms, pid), id) ==> rooms_have(rooms, id),
    decreases rooms.len(),
{
    if rooms.len() > 0 {
        let prev = rooms.drop_last();
        assert(rooms_distinct(prev)) by {
            assert(forall|k: int| 0 <= k < prev.len() ==> prev[k] == rooms[k]);
        }
        assert(forall|k: int| 0 <= k < prev.len() ==> (#[trigger] prev[k]).wf()) by {
            assert(forall|k: int| 0 <= k < prev.len() ==> prev[k] == rooms[k]);
        }
        lemma_rooms_after_remove_wf(prev, pid);
        let pr = rooms_after_remove(prev, pid);
        let out = rooms_after_remove(rooms, pid);
        let g2 = remove_from_game(rooms.last(), pid);
        if g2.players.len() > 0 {
            assert(out == pr.push(g2));
            assert(g2.wf()) by {
                crate::session::lemma_remove_preserves_wf(rooms.last(), pid);
            }
            assert(g2.id == rooms.last().id);
            assert forall|i: int, j: int|
                0 <= i < j < out.len() implies out[i].id != out[j].id by {
                if j == pr.len() as int {
                    if out[i].id == g2.id {
                        assert(rooms_have(pr, g2.id));
                        assert(rooms_have(prev, g2.id));
                        let k = choose|k: int|
                            0 <= k < prev.len() && prev[k].id == g2.id;
                        assert(rooms[k].id == rooms[rooms.len() - 1].id);
                    }
                }
            }
            assert forall|id: Seq<char>|
                rooms_have(out, id) implies rooms_have(rooms, id) by {
                let k = choose|k: int| 0 <= k < out.len() && out[k].id == id;
                if k < pr.len() {
                    assert(pr[k].id == id);
                    assert(rooms_have(pr, id));
                    assert(rooms_have(prev, id));
                    let k2 = choose|k2: int| 0 <= k2 < prev.len() && prev[k2].id == id;
                    assert(rooms[k2].id == id);
                } else {
                    assert(out[k] == g2);
                    assert(rooms[rooms.len() - 1].id == id);
                }
            }
        } else {
            assert(out == pr);
            assert forall|id: Seq<char>|
                rooms_have(out, id) implies rooms_have(rooms, id) by {
                assert(rooms_have(pr, id));
                assert(rooms_have(prev, id));
                let k2 = choose|k2: int| 0 <= k2 < prev.len() && prev[k2].id == id;
                assert(rooms[k2].id == id);
            }
        }
    }
}

/// A join never loses an id: the joined id stays live as a room, other
/// pending ids survive the filter, and other rooms keep their ids.
proof fn lemma_ids_kept(pre: GamesV, post: GamesV, gid: Seq<char>)
    requires
        post.pending == pre.pending.filter(keeps_rid(gid)),
        rooms_have(post.rooms, gid),
        forall|k: int|
            0 <= k < pre.rooms.len() ==> k < post.rooms.len() && (#[trigger] post.rooms[k]).id
                == pre.rooms[k].id,
    ensures
        forall|idq: Seq<char>| pre.id_exists(idq) ==> #[trigger] post.id_exists(idq),
{
    broadcast use vstd::seq_lib::group_filter_ensures;

    assert forall|idq: Seq<char>| pre.id_exists(idq) implies #[trigger] post.id_exists(idq) by {
        if idq == gid {
        } else if pre.pending.contains(idq) {
            let t = choose|t: int| 0 <= t < pre.pending.len() && pre.pending[t] == idq;
            let pred = keeps_rid(gid);
            assert(pred(pre.pending[t]));
            assert(pre.pending.filter(pred).contains(pre.pending[t]));
        } else {
            let k = choose|k: int| 0 <= k < pre.rooms.len() && pre.rooms[k].id == idq;
            assert(post.rooms[k].id == idq);
        }
    }
}

/// A room after a whole sequence of joins, first to last.
pub open spec fn join_all(g: GameV, ps: Seq<PlayerV>) -> GameV
    decreases ps.len(),
{
    if ps.len() == 0 {
        g
    } else {
        join_all(join_game(g, ps[0]), ps.drop_first())
    }
}

/// Joining an identity already on the roster changes nothing.
pub proof fn lemma_rejoin_noop(g: GameV, p: PlayerV)
    requires
        g.has_player(p.id),
    ensures
        join_game(g, p) == g,
{
}

/// Joins of fresh, pairwise-distinct identities append each to the roster
/// in join order.
proof fn lemma_join_order(g: GameV, ps: Seq<PlayerV>)
    requires
        forall|j: int| 0 <= j < ps.len() ==> !g.has_player((#[trigger] ps[j]).id),
        forall|a: int, b: int| 0 <= a < b < ps.len() ==> ps[a].id != ps[b].id,
    ensures
        join_all(g, ps).players == g.players + ps,
        join_all(g, ps).stage == g.stage,
        join_all(g, ps).id == g.id,
    decreases ps.len(),
{
    if ps.len() == 0 {
        assert(join_all(g, ps).players =~= g.players + ps);
    } else {
        let g1 = join_game(g, ps[0]);
        assert(!g.has_player(ps[0].id));
        assert(g1.players == g.players.push(ps[0]));
        let rest = ps.drop_first();
        assert forall|j: int|
            0 <= j < rest.len() implies !g1.has_player((#[trigger] rest[j]).id) by {
            assert(rest[j] == ps[j + 1]);
            if g1.has_player(rest[j].id) {
                let t = choose|t: int|
                    0 <= t < g1.players.len() && g1.players[t].id == rest[j].id;
                if t < g.players.len() {
                    assert(g.has_player(ps[j + 1].id));
                } else {
                    assert(ps[0].id == ps[j + 1].id);
                }
            }
        }
        assert(forall|a: int, b: int| 0 <= a < b < rest.len() ==> rest[a].id != rest[b].id) by {
            assert(forall|a: int| 0 <= a < rest.len() ==> rest[a] == ps[a + 1]);
        }
        lemma_join_order(g1, rest);
        assert(join_all(g, ps).players =~= g.players + ps) by {
            assert(join_all(g, ps) == join_all(g1, rest));
            assert(g.players.push(ps[0]) + rest =~= g.players + ps);
        }
    }
}

/// For any sequence of joins of distinct new identities to a fresh room,
/// the roster is the founder followed by every identity in join order, so
/// its length is the number of distinct identities; the stage stays
/// anchored on the founder.  Re-joining a present identity is a no-op, by
/// [`lemma_rejoin_noop`].
pub proof fn lemma_roster_tracks_joins(id: Seq<char>, founder: PlayerV, ps: Seq<PlayerV>)
    requires
        forall|j: int| 0 <= j < ps.len() ==> (#[trigger] ps[j]).id != founder.id,
        forall|a: int, b: int| 0 <= a < b < ps.len() ==> ps[a].id != ps[b].id,
    ensures
        join_all(fresh_game(id, founder), ps).players == seq![founder] + ps,
        join_all(fresh_game(id, founder), ps).players.len() == 1 + ps.len(),
        join_all(fresh_game(id, founder), ps).stage == (StageV::PlayerChoosing {
            player_id: founder.id,
        }),
{
    let g0 = fresh_game(id, founder);
    assert forall|j: int| 0 <= j < ps.len() implies !g0.has_player((#[trigger] ps[j]).id) by {
        if g0.has_player(ps[j].id) {
            let t = choose|t: int| 0 <= t < g0.players.len() && g0.players[t].id == ps[j].id;
        }
    }
    lemma_join_order(g0, ps);
    assert(g0.players =~= seq![founder]);
}

/// Reserved identifiers never collide: an id that exists in some earlier
/// state still exists in any later state whose id set has only grown — as
/// it does across [`Games::reserve_id`] and [`Games::add_player`] — and a
/// fresh reservation returns an id that does not exist, so no two
/// reservations along such a history return the same id.  Destroying a room
/// frees its id, so growth is what the claim rests on.
pub proof fn lemma_reserved_ids_distinct(
    earlier: GamesV,
    later: GamesV,
    id_old: Seq<char>,
    id_new: Seq<char>,
)
    requires
        earlier.id_exists(id_old),
        forall|idq: Seq<char>| earlier.id_exists(idq) ==> #[trigger] later.id_exists(idq),
        !later.id_exists(id_new),
    ensures
        id_old != id_new,
{
}

} // verus!
