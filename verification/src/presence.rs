//! The concurrent-state core behind one lock: the connection directory
//! (player id to the single most-recent live connection), the exit tracker
//! (player id to disconnect time), and the shared application state that
//! ties them to the room registry.  The caller holds the lock, calls one
//! operation, and performs the returned sends outside the lock.

use vstd::prelude::*;

use crate::events::{Audience, ClientEvent, ClientEventV, Directive, DirectiveV, ServerEvent,
    ServerEventV, directive_views};
use crate::registry::{Games, GamesV, fresh_game, join_game, keeps_rid, lemma_room_named_is,
    modified_after_remove, room_at_mut, room_named, room_views, rooms_after_remove, rooms_distinct,
    rooms_have, rooms_with};
use crate::session::{DrawingV, Game, GameV, PlayerV, SegmentV, StageV, drop_segment, push_segment,
    remove_from_game, snapshot_of, tip_of};
use crate::trusted::{lower_of, trimmed_of};

verus! {

/// Seconds a disconnected player may stay away before the janitor evicts
/// them from every room.
pub const GRACE_PERIOD_SECS: u64 = 300;

/// Whether an exit recorded at `t` has outlived the grace period at `now`.
pub open spec fn is_expired(t: u64, now: u64) -> bool {
    now > t + GRACE_PERIOD_SECS
}

/// A small association table from player id to one `u64`, with distinct
/// keys; its contracts speak of the [`map_of`] it represents.
#[derive(Debug)]
pub struct IdMap {
    pub entries: Vec<(u128, u64)>,
}

/// Whether no two entries share a key.
pub open spec fn keys_distinct(es: Seq<(u128, u64)>) -> bool {
    forall|i: int, j: int| 0 <= i < j < es.len() ==> es[i].0 != es[j].0
}

/// The finite map an entry sequence represents; with distinct keys, the
/// order of the entries is irrelevant.
pub open spec fn map_of(es: Seq<(u128, u64)>) -> Map<u128, u64>
    decreases es.len(),
{
    if es.len() == 0 {
        Map::empty()
    } else {
        map_of(es.drop_last()).insert(es.last().0, es.last().1)
    }
}

impl View for IdMap {
    type V = Seq<(u128, u64)>;

    open spec fn view(&self) -> Seq<(u128, u64)> {
        self.entries@
    }
}

/// Every key of the represented map stands in some entry, and every entry
/// is faithfully represented, the latter under distinct keys.
proof fn lemma_map_of_props(es: Seq<(u128, u64)>)
    ensures
        forall|k: u128| map_of(es).dom().contains(k) ==> (exists|i: int|
            0 <= i < es.len() && es[i].0 == k),
        keys_distinct(es) ==> forall|i: int|
            0 <= i < es.len() ==> map_of(es).dom().contains(#[trigger] es[i].0) && map_of(es)[
                es[i].0
            ] == es[i].1,
    decreases es.len(),
{
    if es.len() > 0 {
        let dl = es.drop_last();
        lemma_map_of_props(dl);
        assert(forall|k: int| 0 <= k < dl.len() ==> dl[k] == es[k]);
        assert forall|k: u128| map_of(es).dom().contains(k) implies (exists|i: int|
            0 <= i < es.len() && es[i].0 == k) by {
            if k == es.last().0 {
                assert(es[es.len() - 1].0 == k);
            } else {
                assert(map_of(dl).dom().contains(k));
                let i = choose|i: int| 0 <= i < dl.len() && dl[i].0 == k;
                assert(es[i].0 == k);
            }
        }
        if keys_distinct(es) {
            assert(keys_distinct(dl));
            assert forall|i: int|
                0 <= i < es.len() implies map_of(es).dom().contains(#[trigger] es[i].0)
                && map_of(es)[es[i].0] == es[i].1 by {
                if i < es.len() - 1 {
                    assert(dl[i] == es[i]);
                    assert(map_of(dl)[es[i].0] == es[i].1);
                    assert(es[i].0 != es.last().0);
                }
            }
        }
    }
}

/// Replacing the entry of a key leaves the represented map with that key
/// re-bound.
proof fn lemma_map_of_update(es: Seq<(u128, u64)>, i: int, v: u64)
    requires
        keys_distinct(es),
        0 <= i < es.len(),
    ensures
        map_of(es.update(i, (es[i].0, v))) == map_of(es).insert(es[i].0, v),
    decreases es.len(),
{
    let k = es[i].0;
    let es2 = es.update(i, (k, v));
    if i == es.len() - 1 {
        assert(es2.drop_last() =~= es.drop_last());
        assert(map_of(es2) =~= map_of(es).insert(k, v));
    } else {
        let dl = es.drop_last();
        assert(keys_distinct(dl)) by {
            assert(forall|t: int| 0 <= t < dl.len() ==> dl[t] == es[t]);
        }
        lemma_map_of_update(dl, i, v);
        assert(es2.drop_last() =~= dl.update(i, (k, v)));
        assert(es2.last() == es.last());
        assert(k != es.last().0);
        assert(map_of(es2) =~= map_of(es).insert(k, v));
    }
}

/// Removing the entry of a key removes the key from the represented map.
proof fn lemma_map_of_remove(es: Seq<(u128, u64)>, i: int)
    requires
        keys_distinct(es),
        0 <= i < es.len(),
    ensures
        map_of(es.remove(i)) == map_of(es).remove(es[i].0),
        keys_distinct(es.remove(i)),
    decreases es.len(),
{
    let k = es[i].0;
    let es2 = es.remove(i);
    lemma_map_of_props(es);
    assert forall|a: int, b: int| 0 <= a < b < es2.len() implies es2[a].0 != es2[b].0 by {
        let a2: int = if a < i { a } else { a + 1 };
        let b2: int = if b < i { b } else { b + 1 };
        assert(es2[a] == es[a2] && es2[b] == es[b2]);
    }
    if i == es.len() - 1 {
        assert(es2 =~= es.drop_last());
        let dl = es.drop_last();
        assert(forall|t: int| 0 <= t < dl.len() ==> dl[t] == es[t]);
        lemma_map_of_props(dl);
        assert(!map_of(dl).dom().contains(k)) by {
            if map_of(dl).dom().contains(k) {
                let t = choose|t: int| 0 <= t < dl.len() && dl[t].0 == k;
                assert(es[t].0 == es[es.len() - 1].0);
            }
        }
        assert(map_of(es2) =~= map_of(es).remove(k));
    } else {
        let dl = es.drop_last();
        assert(keys_distinct(dl)) by {
            assert(forall|t: int| 0 <= t < dl.len() ==> dl[t] == es[t]);
        }
        lemma_map_of_remove(dl, i);
        assert(es2.drop_last() =~= dl.remove(i));
        assert(es2.last() == es.last());
        assert(k != es.last().0);
        assert(map_of(es2) =~= map_of(es).remove(k));
    }
}

/// Appending a fresh entry inserts its binding.
proof fn lemma_map_of_push(es: Seq<(u128, u64)>, k: u128, v: u64)
    ensures
        map_of(es.push((k, v))) == map_of(es).insert(k, v),
{
    assert(es.push((k, v)).drop_last() =~= es);
    assert(es.push((k, v)).last() == (k, v));
}

impl IdMap {
    /// An empty table.
    pub fn new() -> (r: IdMap)
        ensures
            r@ == Seq::<(u128, u64)>::empty(),
            map_of(r@) == Map::<u128, u64>::empty(),
            keys_distinct(r@),
    {
        let r = IdMap { entries: Vec::new() };
        proof {
            assert(r@ =~= Seq::<(u128, u64)>::empty());
        }
        r
    }

    /// The value bound to the key, if any.
    #[verifier::loop_isolation(false)]
    pub fn get(&self, key: u128) -> (r: Option<u64>)
        requires
            keys_distinct(self@),
        ensures
            (match r {
                Option::Some(v) => map_of(self@).dom().contains(key) && map_of(self@)[key] == v,
                Option::None => !map_of(self@).dom().contains(key),
            }),
    {
        proof {
            lemma_map_of_props(self@);
        }
        let n = self.entries.len();
        let mut i: usize = 0;
        while i < n
            invariant
                i <= n,
                n == self@.len(),
                forall|t: int| 0 <= t < i ==> self@[t].0 != key,
            decreases n - i,
        {
            if self.entries[i].0 == key {
                return Option::Some(self.entries[i].1);
            }
            i = i + 1;
        }
        proof {
            if map_of(self@).dom().contains(key) {
                let t = choose|t: int| 0 <= t < self@.len() && self@[t].0 == key;
                assert(false);
            }
        }
        Option::None
    }

    /// Binds the key to the value, overwriting any prior binding.
    #[verifier::loop_isolation(false)]
    pub fn set(&mut self, key: u128, val: u64)
        requires
            keys_distinct(old(self)@),
        ensures
            keys_distinct(final(self)@),
            map_of(final(self)@) == map_of(old(self)@).insert(key, val),
    {
        let n = self.entries.len();
        let mut i: usize = 0;
        let mut hit: bool = false;
        while i < n && !hit
            invariant
                i <= n,
                n == self@.len(),
                *self == *old(self),
                forall|t: int| 0 <= t < i ==> self@[t].0 != key,
                hit ==> i < n && self@[i as int].0 == key,
            decreases n - i, (if hit { 0int } else { 1int }),
        {
            if self.entries[i].0 == key {
                hit = true;
            } else {
                i = i + 1;
            }
        }
        if hit {
            self.entries.set(i, (key, val));
            proof {
                lemma_map_of_update(old(self)@, i as int, val);
                assert forall|a: int, b: int|
                    0 <= a < b < self@.len() implies self@[a].0 != self@[b].0 by {
                    assert(old(self)@[a].0 != old(self)@[b].0);
                }
            }
        } else {
            self.entries.push((key, val));
            proof {
                lemma_map_of_push(old(self)@, key, val);
                assert forall|a: int, b: int|
                    0 <= a < b < self@.len() implies self@[a].0 != self@[b].0 by {
                    if b == old(self)@.len() as int {
                        assert(old(self)@[a].0 != key);
                    } else {
                        assert(old(self)@[a].0 != old(self)@[b].0);
                    }
                }
            }
        }
    }

    /// Drops the binding of the key, if any.
    #[verifier::loop_isolation(false)]
    pub fn remove(&mut self, key: u128)
        requires
            keys_distinct(old(self)@),
        ensures
            keys_distinct(final(self)@),
            map_of(final(self)@) == map_of(old(self)@).remove(key),
    {
        let n = self.entries.len();
        let mut i: usize = 0;
        let mut hit: bool = false;
        while i < n && !hit
            invariant
                i <= n,
                n == self@.len(),
                *self == *old(self),
                forall|t: int| 0 <= t < i ==> self@[t].0 != key,
                hit ==> i < n && self@[i as int].0 == key,
            decreases n - i, (if hit { 0int } else { 1int }),
        {
            if self.entries[i].0 == key {
                hit = true;
            } else {
                i = i + 1;
            }
        }
        if hit {
            self.entries.remove(i);
            proof {
                lemma_map_of_remove(old(self)@, i as int);
            }
        } else {
            proof {
                lemma_map_of_props(self@);
                if map_of(self@).dom().contains(key) {
                    let t = choose|t: int| 0 <= t < self@.len() && self@[t].0 == key;
                    assert(false);
                }
                assert(map_of(self@) =~= map_of(self@).remove(key));
            }
        }
    }

    /// The keys whose recorded time has outlived the grace period, each
    /// once.
    #[verifier::loop_isolation(false)]
    pub fn expired_keys(&self, now: u64) -> (r: Vec<u128>)
        requires
            keys_distinct(self@),
        ensures
            forall|p: u128|
                #[trigger] r@.contains(p) <==> (map_of(self@).dom().contains(p) && is_expired(
                    map_of(self@)[p],
                    now,
                )),
            forall|a: int, b: int| 0 <= a < b < r@.len() ==> r@[a] != r@[b],
    {
        proof {
            lemma_map_of_props(self@);
        }
        let mut out: Vec<u128> = Vec::new();
        let n = self.entries.len();
        let mut i: usize = 0;
        while i < n
            invariant
                i <= n,
                n == self@.len(),
                forall|t: int| 0 <= t < out@.len() ==> (exists|s: int|
                    0 <= s < i && self@[s].0 == #[trigger] out@[t] && is_expired(
                        self@[s].1,
                        now,
                    )),
                forall|s: int|
                    0 <= s < i && is_expired(#[trigger] self@[s].1, now) ==> out@.contains(
                        self@[s].0,
                    ),
                forall|a: int, b: int| 0 <= a < b < out@.len() ==> out@[a] != out@[b],
            decreases n - i,
        {
            let (k, t) = self.entries[i];
            let ghost old_out = out@;
            let expired_now = now >= t && now - t > GRACE_PERIOD_SECS;
            if expired_now {
                proof {
                    if out@.contains(k) {
                        let t2 = choose|t2: int| 0 <= t2 < out@.len() && out@[t2] == k;
                        let s = choose|s: int|
                            0 <= s < i && self@[s].0 == out@[t2] && is_expired(self@[s].1, now);
                        assert(self@[s].0 == self@[i as int].0);
                        assert(false);
                    }
                }
                out.push(k);
            }
            i = i + 1;
            proof {
                assert(expired_now == is_expired(self@[i - 1].1, now));
                assert forall|t2: int| 0 <= t2 < out@.len() implies (exists|s: int|
                    0 <= s < i && self@[s].0 == #[trigger] out@[t2] && is_expired(
                        self@[s].1,
                        now,
                    )) by {
                    if t2 < old_out.len() {
                        let s = choose|s: int|
                            0 <= s < i - 1 && self@[s].0 == old_out[t2] && is_expired(
                                self@[s].1,
                                now,
                            );
                        assert(out@[t2] == old_out[t2]);
                        assert(0 <= s < i && self@[s].0 == out@[t2] && is_expired(
                            self@[s].1,
                            now,
                        ));
                    } else {
                        assert(out@[t2] == k);
                        assert(self@[i - 1].0 == out@[t2] && is_expired(self@[i - 1].1, now));
                    }
                }
                assert forall|s: int|
                    0 <= s < i && is_expired(#[trigger] self@[s].1, now) implies out@.contains(
                    self@[s].0,
                ) by {
                    if s < i - 1 {
                        assert(old_out.contains(self@[s].0));
                        let t2 = choose|t2: int|
                            0 <= t2 < old_out.len() && old_out[t2] == self@[s].0;
                        assert(out@[t2] == self@[s].0);
                    } else {
                        assert(out@[out@.len() - 1] == self@[s].0);
                    }
                }
            }
        }
        proof {
            assert forall|p: u128|
                #[trigger] out@.contains(p) implies (map_of(self@).dom().contains(p)
                && is_expired(map_of(self@)[p], now)) by {
                let t = choose|t: int| 0 <= t < out@.len() && out@[t] == p;
                let s = choose|s: int|
                    0 <= s < n && self@[s].0 == out@[t] && is_expired(self@[s].1, now);
                assert(map_of(self@)[self@[s].0] == self@[s].1);
            }
            assert forall|p: u128|
                map_of(self@).dom().contains(p) && is_expired(map_of(self@)[p], now)
                implies out@.contains(p) by {
                let s = choose|s: int| 0 <= s < self@.len() && self@[s].0 == p;
                assert(map_of(self@)[self@[s].0] == self@[s].1);
                assert(is_expired(self@[s].1, now));
            }
        }
        out
    }
}

/// Whether submitting a word succeeds: the room is choosing and the
/// submitter is the chooser.
pub open spec fn submit_ok(g: GameV, by: u128) -> bool {
    g.stage is PlayerChoosing && g.stage.holder() == by
}

/// A room after a word submission, as [`crate::session::Game::submit_word`]
/// leaves it.
pub open spec fn submit_applied(g: GameV, by: u128, word: Seq<char>, canvas: crate::session::CanvasSize) -> GameV {
    if submit_ok(g, by) {
        GameV {
            stage: StageV::PlayerDrawing {
                player_id: by,
                word: trimmed_of(word),
                drawing: DrawingV { canvas, segments: Seq::empty() },
            },
            ..g
        }
    } else {
        g
    }
}

/// Whether a guess succeeds: the room is drawing and the guess equals the
/// secret word under case folding.
pub open spec fn guess_ok(g: GameV, guess: Seq<char>) -> bool {
    g.stage is PlayerDrawing && lower_of(g.stage.word()) == lower_of(guess)
}

/// A room after a guess, as [`crate::session::Game::guess_word`] leaves it.
pub open spec fn guess_applied(g: GameV, by: u128, guess: Seq<char>) -> GameV {
    if guess_ok(g, guess) {
        GameV { stage: StageV::PlayerChoosing { player_id: by }, ..g }
    } else {
        g
    }
}

/// A room after one stroke arrived; stale input outside the drawing stage
/// changes nothing.
pub open spec fn seg_added(g: GameV, sv: SegmentV) -> GameV {
    GameV { stage: push_segment(g.stage, sv), ..g }
}

/// A room after one stroke id was erased; stale input outside the drawing
/// stage changes nothing.
pub open spec fn seg_removed(g: GameV, idv: Seq<char>) -> GameV {
    GameV { stage: drop_segment(g.stage, idv), ..g }
}

/// The strokes of a room's current drawing; empty outside the drawing
/// stage.
pub open spec fn room_segs(g: GameV) -> Seq<SegmentV> {
    match g.stage {
        StageV::PlayerDrawing { drawing, .. } => drawing.segments,
        StageV::PlayerChoosing { .. } => Seq::empty(),
    }
}

/// One stroke-replay directive to the sender for each stroke, in order.
pub open spec fn seg_directives(segs: Seq<SegmentV>) -> Seq<DirectiveV> {
    Seq::new(
        segs.len(),
        |i: int| DirectiveV {
            audience: Audience::Sender,
            event: ServerEventV::AddDrawingSegment(segs[i]),
            echo: false,
        },
    )
}

/// Whether a client event can be handled at all: a keepalive always, and
/// anything else only against a live room — a guess moreover only from a
/// roster member, as the data model requires of the stage anchor.  A failed
/// check signals a broken caller invariant, fatal to that one handler call.
pub open spec fn event_accepted(games: GamesV, pid: u128, gid: Seq<char>, ev: ClientEventV) -> bool {
    match ev {
        ClientEventV::Ping => true,
        ClientEventV::GuessWord(_) => rooms_have(games.rooms, gid) && room_named(
            games.rooms,
            gid,
        ).has_player(pid),
        ClientEventV::AddDrawingSegment(_) => rooms_have(games.rooms, gid),
        ClientEventV::RemoveDrawingSegment(_) => rooms_have(games.rooms, gid),
        ClientEventV::SubmitWord(_, _) => rooms_have(games.rooms, gid),
        ClientEventV::AskWordTip => rooms_have(games.rooms, gid),
    }
}

/// The rooms after one accepted client event.
pub open spec fn rooms_after_event(
    rooms: Seq<GameV>,
    pid: u128,
    gid: Seq<char>,
    ev: ClientEventV,
) -> Seq<GameV> {
    match ev {
        ClientEventV::Ping => rooms,
        ClientEventV::AddDrawingSegment(sv) => rooms_with(
            rooms,
            gid,
            seg_added(room_named(rooms, gid), sv),
        ),
        ClientEventV::RemoveDrawingSegment(idv) => rooms_with(
            rooms,
            gid,
            seg_removed(room_named(rooms, gid), idv),
        ),
        ClientEventV::SubmitWord(w, c) => rooms_with(
            rooms,
            gid,
            submit_applied(room_named(rooms, gid), pid, w, c),
        ),
        ClientEventV::GuessWord(w) => rooms_with(
            rooms,
            gid,
            guess_applied(room_named(rooms, gid), pid, w),
        ),
        ClientEventV::AskWordTip => rooms,
    }
}

/// The sends an accepted client event gives rise to.
pub open spec fn directives_for_event(
    rooms: Seq<GameV>,
    pid: u128,
    gid: Seq<char>,
    ev: ClientEventV,
) -> Seq<DirectiveV> {
    match ev {
        ClientEventV::Ping => seq![
            (DirectiveV { audience: Audience::Sender, event: ServerEventV::Pong, echo: false }),
        ],
        ClientEventV::AddDrawingSegment(sv) => seq![
            (DirectiveV {
                audience: Audience::Others,
                event: ServerEventV::AddDrawingSegment(sv),
                echo: false,
            }),
        ],
        ClientEventV::RemoveDrawingSegment(idv) => seq![
            (DirectiveV {
                audience: Audience::Others,
                event: ServerEventV::RemoveDrawingSegment(idv),
                echo: false,
            }),
        ],
        ClientEventV::SubmitWord(w, c) => {
            let g = room_named(rooms, gid);
            if submit_ok(g, pid) {
                seq![
                    (DirectiveV {
                        audience: Audience::All,
                        event: ServerEventV::ClearDrawing,
                        echo: false,
                    }),
                    (DirectiveV {
                        audience: Audience::All,
                        event: ServerEventV::Game(snapshot_of(submit_applied(g, pid, w, c))),
                        echo: false,
                    }),
                ]
            } else {
                Seq::empty()
            }
        },
        ClientEventV::GuessWord(w) => {
            let g = room_named(rooms, gid);
            if guess_ok(g, w) {
                seq![
                    (DirectiveV {
                        audience: Audience::All,
                        event: ServerEventV::Game(snapshot_of(guess_applied(g, pid, w))),
                        echo: false,
                    }),
                ]
            } else {
                seq![
                    (DirectiveV {
                        audience: Audience::Sender,
                        event: ServerEventV::WrongGuess,
                        echo: true,
                    }),
                ]
            }
        },
        ClientEventV::AskWordTip => {
            let g = room_named(rooms, gid);
            if g.stage is PlayerDrawing {
                seq![
                    (DirectiveV {
                        audience: Audience::Sender,
                        event: ServerEventV::WordTip(tip_of(g.stage.word())),
                        echo: true,
                    }),
                ]
            } else {
                Seq::empty()
            }
        },
    }
}

/// How a connection changes the registry: the pending mark of the room id
/// is cleared, and the player joins the room, which is created if absent.
pub open spec fn connect_games_post(pre: GamesV, post: GamesV, gid: Seq<char>, pv: PlayerV) -> bool {
    &&& post.pending == pre.pending.filter(keeps_rid(gid))
    &&& (rooms_have(pre.rooms, gid) ==> post.rooms == rooms_with(
        pre.rooms,
        gid,
        join_game(room_named(pre.rooms, gid), pv),
    ))
    &&& (!rooms_have(pre.rooms, gid) ==> post.rooms == pre.rooms.push(fresh_game(gid, pv)))
}

/// The replay a fresh connection receives: its identity if newly created,
/// the room snapshot, and every current stroke.
pub open spec fn connect_directives(
    post_rooms: Seq<GameV>,
    gid: Seq<char>,
    pv: PlayerV,
    new_player: bool,
) -> Seq<DirectiveV> {
    let jg = room_named(post_rooms, gid);
    (if new_player {
        seq![
            (DirectiveV { audience: Audience::Sender, event: ServerEventV::YouAre(pv), echo: false }),
        ]
    } else {
        Seq::empty()
    }) + seq![
        (DirectiveV {
            audience: Audience::Sender,
            event: ServerEventV::Game(snapshot_of(jg)),
            echo: false,
        }),
    ] + seg_directives(room_segs(jg))
}

/// The view of an optional nickname.
pub open spec fn nickname_view(n: Option<String>) -> Option<Seq<char>> {
    match n {
        Option::Some(s) => Option::Some(s@),
        Option::None => Option::None,
    }
}

/// Everything a connection establishes, of the one player identity it
/// concerns: the identity carries the asked-for nickname or a fresh random
/// one, the registry changes as [`connect_games_post`] says, and the
/// returned sends are exactly the replay of [`connect_directives`].
pub open spec fn connect_post(
    pre: GamesV,
    post: GamesV,
    dirs: Seq<DirectiveV>,
    gid: Seq<char>,
    player_id: u128,
    nickname: Option<Seq<char>>,
    new_player: bool,
    pv: PlayerV,
) -> bool {
    &&& pv.id == player_id
    &&& (match nickname {
        Option::Some(n) => pv.nickname == n,
        Option::None => pv.nickname.len() == 3,
    })
    &&& connect_games_post(pre, post, gid, pv)
    &&& dirs == connect_directives(post.rooms, gid, pv, new_player)
}

/// One snapshot folded into the union of modified rooms: it replaces a
/// snapshot of the same room, else it is appended.
pub open spec fn upsert_room(acc: Seq<GameV>, g: GameV) -> Seq<GameV> {
    if rooms_have(acc, g.id) {
        rooms_with(acc, g.id, g)
    } else {
        acc.push(g)
    }
}

/// A batch of snapshots folded in, first to last.
pub open spec fn upsert_all(acc: Seq<GameV>, mods: Seq<GameV>) -> Seq<GameV>
    decreases mods.len(),
{
    if mods.len() == 0 {
        acc
    } else {
        upsert_all(upsert_room(acc, mods[0]), mods.drop_first())
    }
}

/// The rooms after a list of players was evicted, first to last.
pub open spec fn evict_rooms(rooms: Seq<GameV>, ps: Seq<u128>) -> Seq<GameV>
    decreases ps.len(),
{
    if ps.len() == 0 {
        rooms
    } else {
        evict_rooms(rooms_after_remove(rooms, ps[0]), ps.drop_first())
    }
}

/// The union of modified-room snapshots an eviction list produces, each
/// room once, carrying its latest snapshot.
pub open spec fn evict_mods(rooms: Seq<GameV>, acc: Seq<GameV>, ps: Seq<u128>) -> Seq<GameV>
    decreases ps.len(),
{
    if ps.len() == 0 {
        acc
    } else {
        evict_mods(
            rooms_after_remove(rooms, ps[0]),
            upsert_all(acc, modified_after_remove(rooms, ps[0])),
            ps.drop_first(),
        )
    }
}

/// The roster members that hold a live directory entry, in roster order,
/// the excluded sender left out.
pub open spec fn recipients_of(
    players: Seq<PlayerV>,
    conns: Map<u128, u64>,
    excl: Option<u128>,
) -> Seq<u128>
    decreases players.len(),
{
    if players.len() == 0 {
        Seq::empty()
    } else {
        let prev = recipients_of(players.drop_last(), conns, excl);
        let p = players.last();
        if conns.dom().contains(p.id) && Option::Some(p.id) != excl {
            prev.push(p.id)
        } else {
            prev
        }
    }
}

/// Mapping directive views commutes with appending one directive.
proof fn lemma_directive_views_push(s: Seq<Directive>, d: Directive)
    ensures
        directive_views(s.push(d)) == directive_views(s).push(d@),
{
    assert(directive_views(s.push(d)) =~= directive_views(s).push(d@));
}

/// The index of the live room of the given id, if any.
#[verifier::loop_isolation(false)]
fn idx_of_room(games: &Games, id: &str) -> (r: Option<usize>)
    ensures
        r matches Option::Some(i) ==> i < games@.rooms.len() && games@.rooms[i as int].id == id@,
        r is None ==> !rooms_have(games@.rooms, id@),
{
    let n = games.rooms.len();
    let mut i: usize = 0;
    let mut hit: bool = false;
    while i < n && !hit
        invariant
            i <= n,
            n == games.rooms@.len(),
            forall|k: int| 0 <= k < i ==> games@.rooms[k].id != id@,
            hit ==> i < n && games@.rooms[i as int].id == id@,
        decreases n - i, (if hit { 0int } else { 1int }),
    {
        proof {
            assert(games@.rooms[i as int] == games.rooms@[i as int]@);
        }
        if crate::trusted::str_eq(games.rooms[i].id.as_str(), id) {
            hit = true;
        } else {
            i = i + 1;
        }
    }
    if hit {
        Option::Some(i)
    } else {
        proof {
            if rooms_have(games@.rooms, id@) {
                let k = choose|k: int|
                    0 <= k < games@.rooms.len() && games@.rooms[k].id == id@;
                assert(false);
            }
        }
        Option::None
    }
}

/// Replacing the room of one id with a well-formed room of the same id
/// keeps the room sequence well-formed.
proof fn lemma_rooms_with_keeps_wf(rooms: Seq<GameV>, id: Seq<char>, g2: GameV)
    requires
        rooms_distinct(rooms),
        forall|k: int| 0 <= k < rooms.len() ==> (#[trigger] rooms[k]).wf(),
        g2.wf(),
        forall|k: int| 0 <= k < rooms.len() && rooms[k].id == id ==> g2.id == rooms[k].id,
    ensures
        rooms_distinct(rooms_with(rooms, id, g2)),
        forall|k: int|
            0 <= k < rooms_with(rooms, id, g2).len() ==> (#[trigger] rooms_with(
                rooms,
                id,
                g2,
            )[k]).wf(),
{
    let out = rooms_with(rooms, id, g2);
    assert(forall|k: int| 0 <= k < out.len() ==> (#[trigger] out[k]).id == rooms[k].id);
    assert forall|a: int, b: int| 0 <= a < b < out.len() implies out[a].id != out[b].id by {
        assert(rooms[a].id != rooms[b].id);
    }
}

/// One snapshot folded into the accumulated batch.
#[verifier::loop_isolation(false)]
fn upsert_snapshot(acc: &mut Vec<Game>, g: Game)
    requires
        rooms_distinct(room_views(old(acc)@)),
    ensures
        room_views(final(acc)@) == upsert_room(room_views(old(acc)@), g@),
        rooms_distinct(room_views(final(acc)@)),
{
    let ghost av = room_views(acc@);
    let n = acc.len();
    let mut i: usize = 0;
    let mut hit: bool = false;
    while i < n && !hit
        invariant
            i <= n,
            n == acc@.len(),
            *acc == *old(acc),
            forall|t: int| 0 <= t < i ==> av[t].id != g@.id,
            hit ==> i < n && av[i as int].id == g@.id,
        decreases n - i, (if hit { 0int } else { 1int }),
    {
        if crate::trusted::str_eq(acc[i].id.as_str(), g.id.as_str()) {
            proof {
                assert(av[i as int].id == g@.id);
            }
            hit = true;
        } else {
            proof {
                assert(av[i as int].id == acc@[i as int]@.id);
            }
            i = i + 1;
        }
    }
    let ghost gv = g@;
    if hit {
        acc.set(i, g);
        proof {
            assert(rooms_have(av, gv.id));
            assert forall|t: int|
                0 <= t < acc@.len() implies room_views(acc@)[t] == rooms_with(av, gv.id, gv)[t] by {
                assert(room_views(acc@)[t] == acc@[t]@);
                if t != i as int && av[t].id == gv.id {
                    assert(av[i as int].id == av[t].id);
                    assert(false);
                }
            }
            assert(room_views(acc@) =~= rooms_with(av, gv.id, gv));
            assert forall|a: int, b: int|
                0 <= a < b < acc@.len() implies room_views(acc@)[a].id
                != room_views(acc@)[b].id by {
                assert(rooms_with(av, gv.id, gv)[a].id == av[a].id);
                assert(rooms_with(av, gv.id, gv)[b].id == av[b].id);
            }
        }
    } else {
        acc.push(g);
        proof {
            assert(!rooms_have(av, gv.id)) by {
                if rooms_have(av, gv.id) {
                    let t = choose|t: int| 0 <= t < av.len() && av[t].id == gv.id;
                }
            }
            assert(room_views(acc@) =~= av.push(gv));
            assert forall|a: int, b: int|
                0 <= a < b < acc@.len() implies room_views(acc@)[a].id
                != room_views(acc@)[b].id by {
                if b == av.len() as int {
                    if av[a].id == gv.id {
                        assert(rooms_have(av, gv.id));
                    }
                }
            }
        }
    }
}

/// The shared application state behind the one lock: the registry, the
/// connection directory, the exit tracker, and the connection-instance
/// counter.
#[derive(Debug)]
pub struct AppState {
    pub games: Games,
    /// Player id to the instance id of the single live connection.
    pub connections: IdMap,
    /// Player id to the time its connection ended.
    pub exited_players: IdMap,
    /// The next connection-instance id to hand out.
    pub next_conn_id: u64,
}

impl AppState {
    /// Well-formedness of the whole shared state.
    pub open spec fn wf(self) -> bool {
        &&& self.games@.wf()
        &&& keys_distinct(self.connections@)
        &&& keys_distinct(self.exited_players@)
    }

    /// A fresh state: no rooms, no connections, no exits recorded.
    pub fn new() -> (r: AppState)
        ensures
            r.wf(),
            r.games@.pending.len() == 0,
            r.games@.rooms.len() == 0,
            map_of(r.connections@) == Map::<u128, u64>::empty(),
            map_of(r.exited_players@) == Map::<u128, u64>::empty(),
            r.next_conn_id == 1,
    {
        AppState {
            games: Games::new(),
            connections: IdMap::new(),
            exited_players: IdMap::new(),
            next_conn_id: 1,
        }
    }

    /// A new realtime connection: the player gets a fresh connection
    /// instance id, unconditionally supersedes any prior entry in the
    /// directory, any pending eviction is voided, and the player joins the
    /// room.  Returns the instance id and the full replay to send to this
    /// connection.  The counter stops growing at its maximum rather than
    /// wrap, so instance ids never repeat.
    pub fn connect(
        &mut self,
        game_id: &str,
        player_id: u128,
        new_player: bool,
        nickname: Option<String>,
    ) -> (r: (u64, Vec<Directive>))
        requires
            old(self).wf(),
        ensures
            final(self).wf(),
            r.0 == old(self).next_conn_id,
            final(self).next_conn_id == (if old(self).next_conn_id < u64::MAX {
                old(self).next_conn_id + 1
            } else {
                u64::MAX as int
            }),
            map_of(final(self).connections@) == map_of(old(self).connections@).insert(
                player_id,
                r.0,
            ),
            map_of(final(self).exited_players@) == map_of(old(self).exited_players@).remove(
                player_id,
            ),
            exists|pv: PlayerV|
                #[trigger] connect_post(
                    old(self).games@,
                    final(self).games@,
                    directive_views(r.1@),
                    game_id@,
                    player_id,
                    nickname_view(nickname),
                    new_player,
                    pv,
                ),
    {
        let ghost nick_v: Option<Seq<char>> = nickname_view(nickname);
        let ghost pre_games = self.games@;
        let conn_id = self.next_conn_id;
        if self.next_conn_id < u64::MAX {
            self.next_conn_id = self.next_conn_id + 1;
        }
        self.connections.set(player_id, conn_id);
        self.exited_players.remove(player_id);
        proof {
            assert(self.games@ == pre_games);
        }
        let (snap, player) = self.games.add_player(game_id, player_id, nickname);
        let ghost pv = player@;
        proof {
            if rooms_have(pre_games.rooms, game_id@) {
                let k = choose|k: int|
                    0 <= k < pre_games.rooms.len() && pre_games.rooms[k].id == game_id@ && snap@
                        == snapshot_of(join_game(pre_games.rooms[k], pv));
                lemma_room_named_is(pre_games.rooms, game_id@, k);
                assert forall|t: int|
                    0 <= t < self.games@.rooms.len() implies self.games@.rooms[t] == rooms_with(
                    pre_games.rooms,
                    game_id@,
                    join_game(room_named(pre_games.rooms, game_id@), pv),
                )[t] by {
                    if t != k && pre_games.rooms[t].id == game_id@ {
                        assert(pre_games.rooms[k].id == pre_games.rooms[t].id);
                    }
                }
                assert(self.games@.rooms =~= rooms_with(
                    pre_games.rooms,
                    game_id@,
                    join_game(room_named(pre_games.rooms, game_id@), pv),
                ));
            }
        }
        let ghost snap_v = snap@;
        let mut ds: Vec<Directive> = Vec::new();
        if new_player {
            ds.push(Directive {
                audience: Audience::Sender,
                event: ServerEvent::YouAre(player),
                echo: false,
            });
        }
        ds.push(Directive { audience: Audience::Sender, event: ServerEvent::Game(snap), echo: false });
        let ghost base = directive_views(ds@);
        let ghost jg = room_named(self.games@.rooms, game_id@);
        proof {
            if new_player {
                assert(ds@.len() == 2);
                assert(ds@[0]@ == (DirectiveV {
                    audience: Audience::Sender,
                    event: ServerEventV::YouAre(pv),
                    echo: false,
                }));
                assert(ds@[1]@ == (DirectiveV {
                    audience: Audience::Sender,
                    event: ServerEventV::Game(snap_v),
                    echo: false,
                }));
            } else {
                assert(ds@.len() == 1);
                assert(ds@[0]@ == (DirectiveV {
                    audience: Audience::Sender,
                    event: ServerEventV::Game(snap_v),
                    echo: false,
                }));
            }
        }
        proof {
            // The joined room is now live under this id.
            if rooms_have(pre_games.rooms, game_id@) {
                let k = choose|k: int|
                    0 <= k < pre_games.rooms.len() && pre_games.rooms[k].id == game_id@;
                lemma_room_named_is(pre_games.rooms, game_id@, k);
                assert(self.games@.rooms[k].id == game_id@);
                assert(rooms_have(self.games@.rooms, game_id@));
                lemma_room_named_is(self.games@.rooms, game_id@, k);
                assert(jg == join_game(room_named(pre_games.rooms, game_id@), pv));
            } else {
                let k = pre_games.rooms.len() as int;
                assert(self.games@.rooms[k].id == game_id@);
                assert(rooms_have(self.games@.rooms, game_id@));
                lemma_room_named_is(self.games@.rooms, game_id@, k);
                assert(jg == fresh_game(game_id@, pv));
            }
            assert(snap@ == snapshot_of(jg));
        }
        let segs = match self.games.find(game_id) {
            Option::Some(g) => {
                let sv = g.iter_drawing();
                proof {
                    let k2 = choose|k2: int|
                        0 <= k2 < self.games@.rooms.len() && self.games@.rooms[k2].id == game_id@
                            && g@ == self.games@.rooms[k2];
                    lemma_room_named_is(self.games@.rooms, game_id@, k2);
                    assert(g@ == jg);
                    assert(crate::session::seg_views(sv@) =~= room_segs(jg));
                }
                sv
            },
            Option::None => {
                proof {
                    assert(false);
                }
                Vec::new()
            },
        };
        proof {
            assert(directive_views(ds@) =~= base + seg_directives(
                crate::session::seg_views(segs@).subrange(0, 0),
            ));
        }
        let m = segs.len();
        let mut i: usize = 0;
        while i < m
            invariant
                i <= m,
                m == segs@.len(),
                directive_views(ds@) == base + seg_directives(
                    crate::session::seg_views(segs@).subrange(0, i as int),
                ),
            decreases m - i,
        {
            let ghost old_ds = ds@;
            ds.push(Directive {
                audience: Audience::Sender,
                event: ServerEvent::AddDrawingSegment(segs[i].clone()),
                echo: false,
            });
            i = i + 1;
            proof {
                let full = crate::session::seg_views(segs@);
                lemma_directive_views_push(old_ds, ds@.last());
                assert(ds@.last()@ == (DirectiveV {
                    audience: Audience::Sender,
                    event: ServerEventV::AddDrawingSegment(full[i - 1]),
                    echo: false,
                }));
                assert(seg_directives(full.subrange(0, i as int)) =~= seg_directives(
                    full.subrange(0, i - 1),
                ).push(
                    (DirectiveV {
                        audience: Audience::Sender,
                        event: ServerEventV::AddDrawingSegment(full[i - 1]),
                        echo: false,
                    }),
                ));
                assert(directive_views(ds@) =~= base + seg_directives(
                    full.subrange(0, i as int),
                ));
            }
        }
        proof {
            let full = crate::session::seg_views(segs@);
            assert(full.subrange(0, m as int) =~= full);
            let prefix: Seq<DirectiveV> = if new_player {
                seq![
                    (DirectiveV {
                        audience: Audience::Sender,
                        event: ServerEventV::YouAre(pv),
                        echo: false,
                    }),
                ]
            } else {
                Seq::empty()
            };
            let gamed = seq![
                (DirectiveV {
                    audience: Audience::Sender,
                    event: ServerEventV::Game(snapshot_of(jg)),
                    echo: false,
                }),
            ];
            assert(snap_v == snapshot_of(jg));
            assert(base =~= prefix + gamed);
            assert(directive_views(ds@) =~= prefix + gamed + seg_directives(room_segs(jg)));
            assert(directive_views(ds@) == connect_directives(
                self.games@.rooms,
                game_id@,
                pv,
                new_player,
            ));
            assert(connect_post(
                pre_games,
                self.games@,
                directive_views(ds@),
                game_id@,
                player_id,
                nick_v,
                new_player,
                pv,
            ));
        }
        let ghost dsv = ds@;
        let r = (conn_id, ds);
        proof {
            assert(r.1@ == dsv);
            assert(connect_post(
                pre_games,
                self.games@,
                directive_views(r.1@),
                game_id@,
                player_id,
                nick_v,
                new_player,
                pv,
            ));
            assert(exists|q: PlayerV|
                #[trigger] connect_post(
                    pre_games,
                    self.games@,
                    directive_views(r.1@),
                    game_id@,
                    player_id,
                    nick_v,
                    new_player,
                    q,
                ));
        }
        r
    }

    /// A connection ended: if the directory still names this very instance,
    /// its entry is dropped and the exit time recorded; a superseded
    /// instance changes nothing, so a newer connection is never disturbed
    /// and no eviction is pending against it.
    pub fn disconnect(&mut self, player_id: u128, conn_id: u64, now: u64)
        requires
            old(self).wf(),
        ensures
            final(self).wf(),
            final(self).games@ == old(self).games@,
            final(self).next_conn_id == old(self).next_conn_id,
            (map_of(old(self).connections@).dom().contains(player_id) && map_of(
                old(self).connections@,
            )[player_id] == conn_id) ==> map_of(final(self).connections@) == map_of(
                old(self).connections@,
            ).remove(player_id) && map_of(final(self).exited_players@) == map_of(
                old(self).exited_players@,
            ).insert(player_id, now),
            !(map_of(old(self).connections@).dom().contains(player_id) && map_of(
                old(self).connections@,
            )[player_id] == conn_id) ==> final(self).connections@ == old(self).connections@
                && final(self).exited_players@ == old(self).exited_players@,
    {
        let cur = self.connections.get(player_id);
        match cur {
            Option::Some(c) => {
                if c == conn_id {
                    self.connections.remove(player_id);
                    self.exited_players.set(player_id, now);
                }
            },
            Option::None => {},
        }
    }

    /// The players whose recorded exit has outlived the grace period, each
    /// once.
    pub fn expired_players(&self, now: u64) -> (r: Vec<u128>)
        requires
            self.wf(),
        ensures
            forall|p: u128|
                #[trigger] r@.contains(p) <==> (map_of(self.exited_players@).dom().contains(p)
                    && is_expired(map_of(self.exited_players@)[p], now)),
            forall|a: int, b: int| 0 <= a < b < r@.len() ==> r@[a] != r@[b],
    {
        self.exited_players.expired_keys(now)
    }

    /// Evicts the listed players from every room, first to last: each is
    /// removed from every roster, emptied rooms are destroyed, and the exit
    /// records of the listed players are cleared.  Returns the union of the
    /// changed surviving rooms' snapshots, each room once with its latest
    /// snapshot, for the caller to broadcast.
    #[verifier::loop_isolation(false)]
    pub fn evict(&mut self, players: &Vec<u128>) -> (r: Vec<Game>)
        requires
            old(self).wf(),
        ensures
            final(self).wf(),
            final(self).games@.rooms == evict_rooms(old(self).games@.rooms, players@),
            room_views(r@) == evict_mods(old(self).games@.rooms, Seq::empty(), players@),
            map_of(final(self).exited_players@) == map_of(old(self).exited_players@).remove_keys(
                players@.to_set(),
            ),
            final(self).connections@ == old(self).connections@,
            final(self).games@.pending == old(self).games@.pending,
            final(self).next_conn_id == old(self).next_conn_id,
    {
        let ghost orig_rooms = self.games@.rooms;
        let ghost orig_exits = self.exited_players@;
        let mut result: Vec<Game> = Vec::new();
        let n = players.len();
        let mut i: usize = 0;
        proof {
            assert(players@.subrange(0, 0).to_set() =~= Set::<u128>::empty());
            assert(map_of(orig_exits) =~= map_of(orig_exits).remove_keys(
                players@.subrange(0, 0).to_set(),
            ));
            assert(room_views(result@) =~= Seq::<GameV>::empty());
            assert(players@.subrange(0, n as int) =~= players@);
        }
        while i < n
            invariant
                i <= n,
                n == players@.len(),
                self.wf(),
                evict_rooms(orig_rooms, players@) == evict_rooms(
                    self.games@.rooms,
                    players@.subrange(i as int, n as int),
                ),
                evict_mods(orig_rooms, Seq::empty(), players@) == evict_mods(
                    self.games@.rooms,
                    room_views(result@),
                    players@.subrange(i as int, n as int),
                ),
                rooms_distinct(room_views(result@)),
                map_of(self.exited_players@) == map_of(orig_exits).remove_keys(
                    players@.subrange(0, i as int).to_set(),
                ),
                self.connections@ == old(self).connections@,
                self.games@.pending == old(self).games@.pending,
                self.next_conn_id == old(self).next_conn_id,
            decreases n - i,
        {
            let p = players[i];
            let ghost rooms_before = self.games@.rooms;
            let ghost result_before = room_views(result@);
            let mut mods = self.games.remove_player(p);
            self.exited_players.remove(p);
            let ghost mods_full = room_views(mods@);
            let m_len = mods.len();
            proof {
                assert(mods_full == modified_after_remove(rooms_before, p));
                assert(mods_full.subrange(0, m_len as int) =~= mods_full);
            }
            let mut j: usize = 0;
            while mods.len() > 0
                invariant
                    j + mods@.len() == m_len,
                    room_views(mods@) == mods_full.subrange(j as int, m_len as int),
                    rooms_distinct(room_views(result@)),
                    upsert_all(result_before, mods_full) == upsert_all(
                        room_views(result@),
                        mods_full.subrange(j as int, m_len as int),
                    ),
                decreases mods@.len(),
            {
                let ghost mods_before = mods@;
                let m0 = mods.remove(0);
                proof {
                    assert(room_views(mods_before)[0] == mods_before[0]@);
                    assert(m0@ == mods_full[j as int]);
                    assert(mods@ =~= mods_before.subrange(1, mods_before.len() as int));
                    assert forall|t: int|
                        0 <= t < mods@.len() implies room_views(mods@)[t] == mods_full.subrange(
                        j + 1,
                        m_len as int,
                    )[t] by {
                        assert(room_views(mods@)[t] == mods@[t]@);
                        assert(mods@[t] == mods_before[t + 1]);
                        assert(room_views(mods_before)[t + 1] == mods_before[t + 1]@);
                    }
                    assert(room_views(mods@) =~= mods_full.subrange(j + 1, m_len as int));
                    assert(mods_full.subrange(j as int, m_len as int)[0] == mods_full[j as int]);
                    assert(mods_full.subrange(j as int, m_len as int).drop_first()
                        =~= mods_full.subrange(j + 1, m_len as int));
                }
                upsert_snapshot(&mut result, m0);
                j = j + 1;
            }
            proof {
                assert(mods_full.subrange(j as int, m_len as int) =~= Seq::<GameV>::empty());
            }
            i = i + 1;
            proof {
                let suffix = players@.subrange(i - 1, n as int);
                assert(suffix[0] == players@[i - 1]);
                assert(suffix.drop_first() =~= players@.subrange(i as int, n as int));
                assert(players@.subrange(0, i as int).to_set() =~= players@.subrange(
                    0,
                    i - 1,
                ).to_set().insert(players@[i - 1])) by {
                    assert(forall|q: u128|
                        #[trigger] players@.subrange(0, i as int).contains(q) <==> (players@.subrange(
                            0,
                            i - 1,
                        ).contains(q) || q == players@[i - 1])) by {
                        assert forall|q: u128|
                            players@.subrange(0, i as int).contains(q) implies (players@.subrange(
                            0,
                            i - 1,
                        ).contains(q) || q == players@[i - 1]) by {
                            let t = choose|t: int|
                                0 <= t < i && (#[trigger] players@.subrange(0, i as int)[t]) == q;
                            if t < i - 1 {
                                assert(players@.subrange(0, i - 1)[t] == q);
                            }
                        }
                        assert forall|q: u128|
                            players@.subrange(0, i - 1).contains(q) implies players@.subrange(
                            0,
                            i as int,
                        ).contains(q) by {
                            let t = choose|t: int|
                                0 <= t < i - 1 && (#[trigger] players@.subrange(0, i - 1)[t])
                                    == q;
                            assert(players@.subrange(0, i as int)[t] == q);
                        }
                        assert(players@.subrange(0, i as int)[i - 1] == players@[i - 1]);
                    }
                }
                assert(map_of(self.exited_players@) =~= map_of(orig_exits).remove_keys(
                    players@.subrange(0, i as int).to_set(),
                ));
            }
        }
        proof {
            assert(players@.subrange(0, n as int) =~= players@);
            assert(players@.subrange(n as int, n as int) =~= Seq::<u128>::empty());
        }
        result
    }

    /// The roster members of the room that hold a live directory entry, in
    /// roster order, the excluded sender left out; missing entries are
    /// simply skipped — delivery is fire-and-forget.
    #[verifier::loop_isolation(false)]
    pub fn recipients(&self, game: &Game, exclude: Option<u128>) -> (r: Vec<u128>)
        requires
            self.wf(),
        ensures
            r@ == recipients_of(game@.players, map_of(self.connections@), exclude),
    {
        let mut out: Vec<u128> = Vec::new();
        let n = game.players.len();
        let mut i: usize = 0;
        while i < n
            invariant
                i <= n,
                n == game.players@.len(),
                out@ == recipients_of(
                    game@.players.subrange(0, i as int),
                    map_of(self.connections@),
                    exclude,
                ),
            decreases n - i,
        {
            let pid = game.players[i].id;
            let excluded = match exclude {
                Option::Some(x) => x == pid,
                Option::None => false,
            };
            if !excluded && self.connections.get(pid).is_some() {
                out.push(pid);
            }
            i = i + 1;
            proof {
                let cur = game@.players.subrange(0, i as int);
                assert(cur.drop_last() =~= game@.players.subrange(0, i - 1));
                assert(cur.last() == game@.players[i - 1]);
                assert(out@ =~= recipients_of(cur, map_of(self.connections@), exclude));
            }
        }
        proof {
            assert(game@.players.subrange(0, n as int) =~= game@.players);
        }
        out
    }

    /// Handles one inbound client event against the named room: the room is
    /// mutated as the event demands and the resulting sends are returned.
    /// `None` means the room is gone, or the guesser is not on its roster —
    /// a broken caller invariant, fatal to this one handler call, leaving
    /// the state untouched.
    pub fn on_client_event(&mut self, player_id: u128, game_id: &str, event: ClientEvent) -> (r:
        Option<Vec<Directive>>)
        requires
            old(self).wf(),
        ensures
            final(self).wf(),
            final(self).connections@ == old(self).connections@,
            final(self).exited_players@ == old(self).exited_players@,
            final(self).next_conn_id == old(self).next_conn_id,
            final(self).games@.pending == old(self).games@.pending,
            (r is Some) <==> event_accepted(old(self).games@, player_id, game_id@, event@),
            r matches Option::Some(ds) ==> final(self).games@.rooms == rooms_after_event(
                old(self).games@.rooms,
                player_id,
                game_id@,
                event@,
            ) && directive_views(ds@) == directives_for_event(
                old(self).games@.rooms,
                player_id,
                game_id@,
                event@,
            ),
            r is None ==> final(self).games@ == old(self).games@,
    {
        let ghost rooms0 = self.games@.rooms;
        let ghost ev = event@;
        match event {
            ClientEvent::Ping => {
                let mut ds: Vec<Directive> = Vec::new();
                ds.push(Directive {
                    audience: Audience::Sender,
                    event: ServerEvent::Pong,
                    echo: false,
                });
                proof {
                    assert(directive_views(ds@) =~= directives_for_event(
                        rooms0,
                        player_id,
                        game_id@,
                        ev,
                    ));
                    assert(self.games@ =~= old(self).games@);
                }
                Option::Some(ds)
            },
            ClientEvent::AddDrawingSegment(seg) => {
                let ghost sv = seg@;
                match idx_of_room(&self.games, game_id) {
                    Option::Some(i) => {
                        let ghost g0 = self.games@.rooms[i as int];
                        let ghost rooms_vec0 = self.games.rooms@;
                        let g = room_at_mut(&mut self.games.rooms, i);
                        g.add_segment(seg.clone());
                        let mut ds: Vec<Directive> = Vec::new();
                        ds.push(Directive {
                            audience: Audience::Others,
                            event: ServerEvent::AddDrawingSegment(seg),
                            echo: false,
                        });
                        proof {
                            lemma_room_named_is(rooms0, game_id@, i as int);
                            assert(self.games.rooms@[i as int]@ == seg_added(g0, sv));
                            assert forall|t: int|
                                0 <= t < self.games@.rooms.len() implies self.games@.rooms[t]
                                == rooms_with(rooms0, game_id@, seg_added(g0, sv))[t] by {
                                assert(self.games@.rooms[t] == self.games.rooms@[t]@);
                                if t != i as int {
                                    assert(self.games.rooms@[t] == rooms_vec0[t]);
                                    if rooms0[t].id == game_id@ {
                                        assert(rooms0[i as int].id == rooms0[t].id);
                                    }
                                }
                            }
                            assert(self.games@.rooms =~= rooms_with(
                                rooms0,
                                game_id@,
                                seg_added(g0, sv),
                            ));
                            lemma_rooms_with_keeps_wf(rooms0, game_id@, seg_added(g0, sv));
                            assert(self.games@.pending =~= old(self).games@.pending);
                            assert(directive_views(ds@) =~= directives_for_event(
                                rooms0,
                                player_id,
                                game_id@,
                                ev,
                            ));
                        }
                        Option::Some(ds)
                    },
                    Option::None => Option::None,
                }
            },
            ClientEvent::RemoveDrawingSegment(seg_id) => {
                let ghost idv = seg_id@;
                match idx_of_room(&self.games, game_id) {
                    Option::Some(i) => {
                        let ghost g0 = self.games@.rooms[i as int];
                        let ghost rooms_vec0 = self.games.rooms@;
                        let g = room_at_mut(&mut self.games.rooms, i);
                        g.remove_segment(seg_id.as_str());
                        let mut ds: Vec<Directive> = Vec::new();
                        ds.push(Directive {
                            audience: Audience::Others,
                            event: ServerEvent::RemoveDrawingSegment(seg_id),
                            echo: false,
                        });
                        proof {
                            lemma_room_named_is(rooms0, game_id@, i as int);
                            assert(self.games.rooms@[i as int]@ == seg_removed(g0, idv));
                            assert forall|t: int|
                                0 <= t < self.games@.rooms.len() implies self.games@.rooms[t]
                                == rooms_with(rooms0, game_id@, seg_removed(g0, idv))[t] by {
                                assert(self.games@.rooms[t] == self.games.rooms@[t]@);
                                if t != i as int {
                                    assert(self.games.rooms@[t] == rooms_vec0[t]);
                                    if rooms0[t].id == game_id@ {
                                        assert(rooms0[i as int].id == rooms0[t].id);
                                    }
                                }
                            }
                            assert(self.games@.rooms =~= rooms_with(
                                rooms0,
                                game_id@,
                                seg_removed(g0, idv),
                            ));
                            lemma_rooms_with_keeps_wf(rooms0, game_id@, seg_removed(g0, idv));
                            assert(self.games@.pending =~= old(self).games@.pending);
                            assert(directive_views(ds@) =~= directives_for_event(
                                rooms0,
                                player_id,
                                game_id@,
                                ev,
                            ));
                        }
                        Option::Some(ds)
                    },
                    Option::None => Option::None,
                }
            },
            ClientEvent::SubmitWord(word, canvas) => {
                let ghost wv = word@;
                match idx_of_room(&self.games, game_id) {
                    Option::Some(i) => {
                        let ghost g0 = self.games@.rooms[i as int];
                        let ghost rooms_vec0 = self.games.rooms@;
                        let g = room_at_mut(&mut self.games.rooms, i);
                        let changed = g.submit_word(player_id, word, canvas);
                        let mut ds: Vec<Directive> = Vec::new();
                        if changed {
                            let snap = g.clone();
                            ds.push(Directive {
                                audience: Audience::All,
                                event: ServerEvent::ClearDrawing,
                                echo: false,
                            });
                            ds.push(Directive {
                                audience: Audience::All,
                                event: ServerEvent::Game(snap),
                                echo: false,
                            });
                        }
                        proof {
                            lemma_room_named_is(rooms0, game_id@, i as int);
                            let g2 = submit_applied(g0, player_id, wv, canvas);
                            assert(changed == submit_ok(g0, player_id));
                            assert(self.games.rooms@[i as int]@ == g2);
                            assert forall|t: int|
                                0 <= t < self.games@.rooms.len() implies self.games@.rooms[t]
                                == rooms_with(rooms0, game_id@, g2)[t] by {
                                assert(self.games@.rooms[t] == self.games.rooms@[t]@);
                                if t != i as int {
                                    assert(self.games.rooms@[t] == rooms_vec0[t]);
                                    if rooms0[t].id == game_id@ {
                                        assert(rooms0[i as int].id == rooms0[t].id);
                                    }
                                }
                            }
                            assert(self.games@.rooms =~= rooms_with(rooms0, game_id@, g2));
                            lemma_rooms_with_keeps_wf(rooms0, game_id@, g2);
                            assert(self.games@.pending =~= old(self).games@.pending);
                            if changed {
                                assert(ds@[1]@.event == ServerEventV::Game(snapshot_of(g2)));
                            }
                            assert(directive_views(ds@) =~= directives_for_event(
                                rooms0,
                                player_id,
                                game_id@,
                                ev,
                            ));
                        }
                        Option::Some(ds)
                    },
                    Option::None => Option::None,
                }
            },
            ClientEvent::GuessWord(word) => {
                let ghost wv = word@;
                match idx_of_room(&self.games, game_id) {
                    Option::Some(i) => {
                        let member = {
                            let gg = &self.games.rooms[i];
                            gg.has_member(player_id)
                        };
                        proof {
                            lemma_room_named_is(rooms0, game_id@, i as int);
                        }
                        if !member {
                            return Option::None;
                        }
                        let ghost g0 = self.games@.rooms[i as int];
                        let ghost rooms_vec0 = self.games.rooms@;
                        let g = room_at_mut(&mut self.games.rooms, i);
                        let correct = g.guess_word(player_id, word.as_str());
                        let mut ds: Vec<Directive> = Vec::new();
                        if correct {
                            let snap = g.clone();
                            ds.push(Directive {
                                audience: Audience::All,
                                event: ServerEvent::Game(snap),
                                echo: false,
                            });
                        } else {
                            ds.push(Directive {
                                audience: Audience::Sender,
                                event: ServerEvent::WrongGuess,
                                echo: true,
                            });
                        }
                        proof {
                            let g2 = guess_applied(g0, player_id, wv);
                            assert(correct == guess_ok(g0, wv));
                            assert(self.games.rooms@[i as int]@ == g2);
                            assert forall|t: int|
                                0 <= t < self.games@.rooms.len() implies self.games@.rooms[t]
                                == rooms_with(rooms0, game_id@, g2)[t] by {
                                assert(self.games@.rooms[t] == self.games.rooms@[t]@);
                                if t != i as int {
                                    assert(self.games.rooms@[t] == rooms_vec0[t]);
                                    if rooms0[t].id == game_id@ {
                                        assert(rooms0[i as int].id == rooms0[t].id);
                                    }
                                }
                            }
                            assert(self.games@.rooms =~= rooms_with(rooms0, game_id@, g2));
                            lemma_rooms_with_keeps_wf(rooms0, game_id@, g2);
                            assert(self.games@.pending =~= old(self).games@.pending);
                            if correct {
                                assert(ds@[0]@.event == ServerEventV::Game(snapshot_of(g2)));
                            }
                            assert(directive_views(ds@) =~= directives_for_event(
                                rooms0,
                                player_id,
                                game_id@,
                                ev,
                            ));
                        }
                        Option::Some(ds)
                    },
                    Option::None => Option::None,
                }
            },
            ClientEvent::AskWordTip => {
                match self.games.find(game_id) {
                    Option::Some(g) => {
                        let tip = g.ask_word_tip();
                        let ghost gv = g@;
                        let mut ds: Vec<Directive> = Vec::new();
                        match tip {
                            Option::Some(t) => {
                                ds.push(Directive {
                                    audience: Audience::Sender,
                                    event: ServerEvent::WordTip(t),
                                    echo: true,
                                });
                            },
                            Option::None => {},
                        }
                        proof {
                            let k = choose|k: int|
                                0 <= k < rooms0.len() && rooms0[k].id == game_id@ && gv
                                    == rooms0[k];
                            lemma_room_named_is(rooms0, game_id@, k);
                            assert(directive_views(ds@) =~= directives_for_event(
                                rooms0,
                                player_id,
                                game_id@,
                                ev,
                            ));
                            assert(self.games@ =~= old(self).games@);
                        }
                        Option::Some(ds)
                    },
                    Option::None => Option::None,
                }
            },
        }
    }
}

/// A departure of one player never touches another's membership: a room
/// that holds `p` still holds `p`, and survives, when `q` leaves.
proof fn lemma_remove_other_keeps_room(g: GameV, q: u128, p: u128)
    requires
        p != q,
        g.has_player(p),
    ensures
        remove_from_game(g, q).has_player(p),
        remove_from_game(g, q).players.len() > 0,
        remove_from_game(g, q).id == g.id,
{
    broadcast use vstd::seq_lib::group_filter_ensures;

    let pred = crate::session::keeps_id(q);
    let i = choose|i: int| 0 <= i < g.players.len() && g.players[i].id == p;
    assert(pred(g.players[i]));
    assert(g.players.filter(pred).contains(g.players[i]));
    let ps = crate::session::roster_remove(g.players, q);
    let t = choose|t: int| 0 <= t < ps.len() && ps[t] == g.players[i];
    assert(ps[t].id == p);
    assert(remove_from_game(g, q).players == ps);
}

/// A room that survives one player's departure stands in the surviving
/// sequence.
proof fn lemma_after_remove_contains(rooms: Seq<GameV>, q: u128, k: int)
    requires
        0 <= k < rooms.len(),
        remove_from_game(rooms[k], q).players.len() > 0,
    ensures
        exists|k2: int|
            0 <= k2 < rooms_after_remove(rooms, q).len() && #[trigger] rooms_after_remove(
                rooms,
                q,
            )[k2] == remove_from_game(rooms[k], q),
    decreases rooms.len(),
{
    let out = rooms_after_remove(rooms, q);
    if k == rooms.len() - 1 {
        assert(out[out.len() - 1] == remove_from_game(rooms[k], q));
    } else {
        let prev = rooms.drop_last();
        lemma_after_remove_contains(prev, q, k);
        let pr = rooms_after_remove(prev, q);
        let k2 = choose|k2: int|
            0 <= k2 < pr.len() && #[trigger] pr[k2] == remove_from_game(prev[k], q);
        assert(prev[k] == rooms[k]);
        assert(out[k2] == remove_from_game(rooms[k], q));
    }
}

/// One departure of `q` keeps every room membership of `p`, across the
/// whole registry.
proof fn lemma_remove_other_keeps(rooms: Seq<GameV>, q: u128, p: u128)
    requires
        p != q,
        rooms_distinct(rooms),
        forall|k: int| 0 <= k < rooms.len() ==> (#[trigger] rooms[k]).wf(),
    ensures
        rooms_distinct(rooms_after_remove(rooms, q)),
        forall|k: int|
            0 <= k < rooms_after_remove(rooms, q).len() ==> (#[trigger] rooms_after_remove(
                rooms,
                q,
            )[k]).wf(),
        forall|id: Seq<char>|
            rooms_have(rooms, id) && #[trigger] room_named(rooms, id).has_player(p)
                ==> rooms_have(rooms_after_remove(rooms, q), id) && room_named(
                rooms_after_remove(rooms, q),
                id,
            ).has_player(p),
{
    crate::registry::lemma_rooms_after_remove_wf(rooms, q);
    let out = rooms_after_remove(rooms, q);
    assert forall|id: Seq<char>|
        rooms_have(rooms, id) && #[trigger] room_named(rooms, id).has_player(p)
        implies rooms_have(out, id) && room_named(out, id).has_player(p) by {
        let k = choose|k: int| 0 <= k < rooms.len() && rooms[k].id == id;
        lemma_room_named_is(rooms, id, k);
        lemma_remove_other_keeps_room(rooms[k], q, p);
        lemma_after_remove_contains(rooms, q, k);
        let k2 = choose|k2: int|
            0 <= k2 < out.len() && #[trigger] out[k2] == remove_from_game(rooms[k], q);
        assert(out[k2].id == id);
        assert(rooms_have(out, id));
        lemma_room_named_is(out, id, k2);
    }
}

/// A player who reconnects before the grace period elapses is never
/// evicted: a reconnect clears the exit record, the expired list holds only
/// players with an exit record, so the reconnected player is on no eviction
/// list — and an eviction list without that player preserves every one of
/// their room memberships, as this lemma states.
pub proof fn lemma_reconnected_player_kept(rooms: Seq<GameV>, ps: Seq<u128>, p: u128)
    requires
        !ps.contains(p),
        rooms_distinct(rooms),
        forall|k: int| 0 <= k < rooms.len() ==> (#[trigger] rooms[k]).wf(),
    ensures
        forall|id: Seq<char>|
            rooms_have(rooms, id) && #[trigger] room_named(rooms, id).has_player(p)
                ==> rooms_have(evict_rooms(rooms, ps), id) && room_named(
                evict_rooms(rooms, ps),
                id,
            ).has_player(p),
    decreases ps.len(),
{
    if ps.len() > 0 {
        assert(ps[0] != p);
        lemma_remove_other_keeps(rooms, ps[0], p);
        let mid = rooms_after_remove(rooms, ps[0]);
        let rest = ps.drop_first();
        assert(!rest.contains(p)) by {
            if rest.contains(p) {
                let j = choose|j: int| 0 <= j < rest.len() && rest[j] == p;
                assert(ps[j + 1] == p);
            }
        }
        lemma_reconnected_player_kept(mid, rest, p);
        assert(evict_rooms(rooms, ps) == evict_rooms(mid, rest));
    }
}

/// After `p` leaves every room, no surviving room holds `p`.
proof fn lemma_remove_all_clears(rooms: Seq<GameV>, p: u128)
    ensures
        forall|k: int|
            0 <= k < rooms_after_remove(rooms, p).len() ==> !(#[trigger] rooms_after_remove(
                rooms,
                p,
            )[k]).has_player(p),
    decreases rooms.len(),
{
    broadcast use vstd::seq_lib::group_filter_ensures;

    if rooms.len() > 0 {
        lemma_remove_all_clears(rooms.drop_last(), p);
        let out = rooms_after_remove(rooms, p);
        let pr = rooms_after_remove(rooms.drop_last(), p);
        let g2 = remove_from_game(rooms.last(), p);
        assert forall|k: int| 0 <= k < out.len() implies !(#[trigger] out[k]).has_player(p) by {
            if g2.players.len() > 0 && k == out.len() - 1 {
                assert(out[k] == g2);
                if g2.has_player(p) {
                    let t = choose|t: int|
                        0 <= t < g2.players.len() && g2.players[t].id == p;
                    assert(crate::session::keeps_id(p)(g2.players[t]));
                }
            } else {
                assert(out[k] == pr[k]);
            }
        }
    }
}

/// A departure adds no member: rooms that do not hold `p` still do not
/// after `q` leaves.
proof fn lemma_remove_no_new_member(rooms: Seq<GameV>, q: u128, p: u128)
    requires
        forall|k: int| 0 <= k < rooms.len() ==> !(#[trigger] rooms[k]).has_player(p),
    ensures
        forall|k: int|
            0 <= k < rooms_after_remove(rooms, q).len() ==> !(#[trigger] rooms_after_remove(
                rooms,
                q,
            )[k]).has_player(p),
    decreases rooms.len(),
{
    if rooms.len() > 0 {
        let prev = rooms.drop_last();
        assert(forall|k: int| 0 <= k < prev.len() ==> !(#[trigger] prev[k]).has_player(p)) by {
            assert(forall|k: int| 0 <= k < prev.len() ==> prev[k] == rooms[k]);
        }
        lemma_remove_no_new_member(prev, q, p);
        let out = rooms_after_remove(rooms, q);
        let pr = rooms_after_remove(prev, q);
        let g2 = remove_from_game(rooms.last(), q);
        assert forall|k: int| 0 <= k < out.len() implies !(#[trigger] out[k]).has_player(p) by {
            if g2.players.len() > 0 && k == out.len() - 1 {
                assert(out[k] == g2);
                if g2.has_player(p) {
                    let t = choose|t: int|
                        0 <= t < g2.players.len() && g2.players[t].id == p;
                    crate::session::lemma_filter_element_from(
                        rooms.last().players,
                        crate::session::keeps_id(q),
                        t,
                    );
                    let t2 = choose|t2: int|
                        0 <= t2 < rooms.last().players.len() && rooms.last().players[t2]
                            == g2.players[t];
                    assert(rooms[rooms.len() - 1].has_player(p));
                }
            } else {
                assert(out[k] == pr[k]);
            }
        }
    }
}

/// Once gone from every room, a player stays gone through any further
/// evictions.
proof fn lemma_gone_stays(rooms: Seq<GameV>, ps: Seq<u128>, p: u128)
    requires
        forall|k: int| 0 <= k < rooms.len() ==> !(#[trigger] rooms[k]).has_player(p),
    ensures
        forall|k: int|
            0 <= k < evict_rooms(rooms, ps).len() ==> !(#[trigger] evict_rooms(
                rooms,
                ps,
            )[k]).has_player(p),
    decreases ps.len(),
{
    if ps.len() > 0 {
        lemma_remove_no_new_member(rooms, ps[0], p);
        let mid = rooms_after_remove(rooms, ps[0]);
        let rest = ps.drop_first();
        lemma_gone_stays(mid, rest, p);
        assert(evict_rooms(rooms, ps) == evict_rooms(mid, rest));
        assert forall|k: int|
            0 <= k < evict_rooms(rooms, ps).len() implies !(#[trigger] evict_rooms(
            rooms,
            ps,
        )[k]).has_player(p) by {
            assert(evict_rooms(rooms, ps)[k] == evict_rooms(mid, rest)[k]);
        }
    }
}

/// A player who never reconnects is, once the grace period elapses and the
/// eviction list names them, removed from every room: after the eviction no
/// surviving room holds them.
pub proof fn lemma_evicted_player_gone(rooms: Seq<GameV>, ps: Seq<u128>, p: u128)
    requires
        ps.contains(p),
    ensures
        forall|k: int|
            0 <= k < evict_rooms(rooms, ps).len() ==> !(#[trigger] evict_rooms(
                rooms,
                ps,
            )[k]).has_player(p),
    decreases ps.len(),
{
    let mid = rooms_after_remove(rooms, ps[0]);
    let rest = ps.drop_first();
    if ps[0] == p {
        lemma_remove_all_clears(rooms, p);
        lemma_gone_stays(mid, rest, p);
    } else {
        let j = choose|j: int| 0 <= j < ps.len() && ps[j] == p;
        assert(rest[j - 1] == p);
        assert(rest.contains(p));
        lemma_evicted_player_gone(mid, rest, p);
    }
    assert(evict_rooms(rooms, ps) == evict_rooms(mid, rest));
    assert forall|k: int|
        0 <= k < evict_rooms(rooms, ps).len() implies !(#[trigger] evict_rooms(
        rooms,
        ps,
    )[k]).has_player(p) by {
        assert(evict_rooms(rooms, ps)[k] == evict_rooms(mid, rest)[k]);
    }
}

/// Every surviving room after one departure holds at least one member.
proof fn lemma_after_remove_nonempty(rooms: Seq<GameV>, q: u128)
    ensures
        forall|k: int|
            0 <= k < rooms_after_remove(rooms, q).len() ==> (#[trigger] rooms_after_remove(
                rooms,
                q,
            )[k]).players.len() > 0,
    decreases rooms.len(),
{
    if rooms.len() > 0 {
        lemma_after_remove_nonempty(rooms.drop_last(), q);
        let out = rooms_after_remove(rooms, q);
        let pr = rooms_after_remove(rooms.drop_last(), q);
        assert forall|k: int|
            0 <= k < out.len() implies (#[trigger] out[k]).players.len() > 0 by {
            if !(out.len() > pr.len() && k == out.len() - 1) {
                assert(out[k] == pr[k]);
            }
        }
    }
}

/// Every surviving room after one departure descends from a room of the
/// original sequence.
proof fn lemma_after_remove_source(rooms: Seq<GameV>, q: u128, k2: int)
    requires
        0 <= k2 < rooms_after_remove(rooms, q).len(),
    ensures
        exists|k: int|
            0 <= k < rooms.len() && #[trigger] remove_from_game(rooms[k], q)
                == rooms_after_remove(rooms, q)[k2],
    decreases rooms.len(),
{
    let out = rooms_after_remove(rooms, q);
    let pr = rooms_after_remove(rooms.drop_last(), q);
    if out.len() > pr.len() && k2 == out.len() - 1 {
        assert(remove_from_game(rooms[rooms.len() - 1], q) == out[k2]);
    } else {
        lemma_after_remove_source(rooms.drop_last(), q, k2);
        let k = choose|k: int|
            0 <= k < rooms.drop_last().len() && #[trigger] remove_from_game(
                rooms.drop_last()[k],
                q,
            ) == pr[k2];
        assert(rooms.drop_last()[k] == rooms[k]);
        assert(remove_from_game(rooms[k], q) == out[k2]);
    }
}

/// A room that a departure changed and left inhabited is among the
/// modified-room snapshots.
proof fn lemma_modified_contains(rooms: Seq<GameV>, q: u128, k: int)
    requires
        0 <= k < rooms.len(),
        rooms[k].has_player(q),
        remove_from_game(rooms[k], q).players.len() > 0,
    ensures
        rooms_have(modified_after_remove(rooms, q), rooms[k].id),
    decreases rooms.len(),
{
    let out = modified_after_remove(rooms, q);
    if k == rooms.len() - 1 {
        assert(out[out.len() - 1].id == rooms[k].id);
    } else {
        lemma_modified_contains(rooms.drop_last(), q, k);
        let pr = modified_after_remove(rooms.drop_last(), q);
        let t = choose|t: int| 0 <= t < pr.len() && pr[t].id == rooms.drop_last()[k].id;
        assert(out[t].id == rooms[k].id);
    }
}

/// Folding snapshots in never loses an id: present ids stay, and every
/// folded snapshot's id appears.
proof fn lemma_upsert_all_ids(acc: Seq<GameV>, mods: Seq<GameV>, id: Seq<char>)
    requires
        rooms_have(acc, id) || rooms_have(mods, id),
    ensures
        rooms_have(upsert_all(acc, mods), id),
    decreases mods.len(),
{
    if mods.len() == 0 {
    } else {
        let acc2 = upsert_room(acc, mods[0]);
        assert(rooms_have(acc2, id) || rooms_have(mods.drop_first(), id)) by {
            if rooms_have(acc, id) {
                let t = choose|t: int| 0 <= t < acc.len() && acc[t].id == id;
                if rooms_have(acc, mods[0].id) {
                    assert(rooms_with(acc, mods[0].id, mods[0])[t].id == id);
                } else {
                    assert(acc.push(mods[0])[t].id == id);
                }
            } else {
                let t = choose|t: int| 0 <= t < mods.len() && mods[t].id == id;
                if t == 0 {
                    // The folded snapshot's own id appears in acc2.
                    if rooms_have(acc, mods[0].id) {
                        let w = choose|w: int| 0 <= w < acc.len() && acc[w].id == mods[0].id;
                        assert(rooms_with(acc, mods[0].id, mods[0])[w].id == id);
                    } else {
                        assert(acc.push(mods[0])[acc.len() as int].id == id);
                    }
                } else {
                    assert(mods.drop_first()[t - 1].id == id);
                }
            }
        }
        lemma_upsert_all_ids(acc2, mods.drop_first(), id);
        assert(upsert_all(acc, mods) == upsert_all(acc2, mods.drop_first()));
    }
}

/// An id once among the accumulated snapshots stays there through any
/// further evictions.
proof fn lemma_mods_ids_persist(rooms: Seq<GameV>, acc: Seq<GameV>, ps: Seq<u128>, id: Seq<char>)
    requires
        rooms_have(acc, id),
    ensures
        rooms_have(evict_mods(rooms, acc, ps), id),
    decreases ps.len(),
{
    if ps.len() > 0 {
        let mid = rooms_after_remove(rooms, ps[0]);
        let acc2 = upsert_all(acc, modified_after_remove(rooms, ps[0]));
        lemma_upsert_all_ids(acc, modified_after_remove(rooms, ps[0]), id);
        lemma_mods_ids_persist(mid, acc2, ps.drop_first(), id);
    }
}

/// A surviving id at the end of an eviction was alive at its start.
proof fn lemma_evict_ids_from(rooms: Seq<GameV>, ps: Seq<u128>, id: Seq<char>)
    requires
        rooms_distinct(rooms),
        forall|k: int| 0 <= k < rooms.len() ==> (#[trigger] rooms[k]).wf(),
        rooms_have(evict_rooms(rooms, ps), id),
    ensures
        rooms_have(rooms, id),
    decreases ps.len(),
{
    if ps.len() > 0 {
        let mid = rooms_after_remove(rooms, ps[0]);
        crate::registry::lemma_rooms_after_remove_wf(rooms, ps[0]);
        lemma_evict_ids_from(mid, ps.drop_first(), id);
    }
}

/// The survivors are notified: a room that held an evicted player and still
/// has members after the whole sweep stands, by id, among the returned
/// snapshots — so its remaining roster members receive the updated
/// room-state event the caller broadcasts for each snapshot.
pub proof fn lemma_survivors_snapshotted(
    rooms: Seq<GameV>,
    acc: Seq<GameV>,
    ps: Seq<u128>,
    p: u128,
    id: Seq<char>,
)
    requires
        ps.contains(p),
        rooms_distinct(rooms),
        forall|k: int| 0 <= k < rooms.len() ==> (#[trigger] rooms[k]).wf(),
        rooms_have(rooms, id),
        room_named(rooms, id).has_player(p),
        rooms_have(evict_rooms(rooms, ps), id),
    ensures
        rooms_have(evict_mods(rooms, acc, ps), id),
    decreases ps.len(),
{
    let q = ps[0];
    let mid = rooms_after_remove(rooms, q);
    let rest = ps.drop_first();
    let acc2 = upsert_all(acc, modified_after_remove(rooms, q));
    crate::registry::lemma_rooms_after_remove_wf(rooms, q);
    assert(evict_rooms(rooms, ps) == evict_rooms(mid, rest));
    assert(evict_mods(rooms, acc, ps) == evict_mods(mid, acc2, rest));
    if q == p {
        // This very step removes `p`; the room survives it, so its snapshot
        // is folded in and its id persists.
        lemma_evict_ids_from(mid, rest, id);
        let k2 = choose|k2: int| 0 <= k2 < mid.len() && mid[k2].id == id;
        lemma_after_remove_source(rooms, q, k2);
        let k = choose|k: int|
            0 <= k < rooms.len() && #[trigger] remove_from_game(rooms[k], q) == mid[k2];
        assert(rooms[k].id == id);
        lemma_room_named_is(rooms, id, k);
        lemma_after_remove_nonempty(rooms, q);
        lemma_modified_contains(rooms, q, k);
        lemma_upsert_all_ids(acc, modified_after_remove(rooms, q), id);
        lemma_mods_ids_persist(mid, acc2, rest, id);
    } else {
        // Another player leaves first: the membership survives the step.
        lemma_remove_other_keeps(rooms, q, p);
        assert(rest.contains(p)) by {
            let j = choose|j: int| 0 <= j < ps.len() && ps[j] == p;
            assert(rest[j - 1] == p);
        }
        lemma_survivors_snapshotted(mid, acc2, rest, p, id);
    }
}

} // verus!
