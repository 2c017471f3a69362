//! One game room: its roster, its turn-state machine and its live drawing
//! buffer.  A room is always in one of two stages: a player is choosing a
//! word (`PlayerChoosing`), or a player is drawing it while the others guess
//! (`PlayerDrawing`).  Every operation states exactly when it succeeds and
//! how it changes the room.

use vstd::prelude::*;

use crate::trusted::{lower_of, lowercase, str_eq, trim_part, trimmed_of};

verus! {

/// One participant: a stable identifier and a display nickname.
#[derive(Debug)]
pub struct Player {
    pub id: u128,
    pub nickname: String,
}

/// Mathematical value of a [`Player`].
#[verifier::ext_equal]
pub ghost struct PlayerV {
    pub id: u128,
    pub nickname: Seq<char>,
}

impl View for Player {
    type V = PlayerV;

    open spec fn view(&self) -> PlayerV {
        PlayerV { id: self.id, nickname: self.nickname@ }
    }
}

impl Clone for Player {
    fn clone(&self) -> (r: Self)
        ensures
            r@ == self@,
    {
        Player { id: self.id, nickname: self.nickname.clone() }
    }
}

/// One point of a stroke.
#[derive(Debug, Clone, Copy, PartialEq, Eq, Structural)]
pub struct Point {
    pub x: i32,
    pub y: i32,
}

/// One stroke of the drawing: immutable once appended, except for deletion
/// by id.
#[derive(Debug)]
pub struct DrawingSegment {
    pub id: String,
    pub stroke: String,
    pub line_width: i32,
    pub points: Vec<Point>,
}

/// Mathematical value of a [`DrawingSegment`].
#[verifier::ext_equal]
pub ghost struct SegmentV {
    pub id: Seq<char>,
    pub stroke: Seq<char>,
    pub line_width: i32,
    pub points: Seq<Point>,
}

impl View for DrawingSegment {
    type V = SegmentV;

    open spec fn view(&self) -> SegmentV {
        SegmentV {
            id: self.id@,
            stroke: self.stroke@,
            line_width: self.line_width,
            points: self.points@,
        }
    }
}

#[verifier::loop_isolation(false)]
fn copy_points(points: &Vec<Point>) -> (r: Vec<Point>)
    ensures
        r@ == points@,
{
    let mut out: Vec<Point> = Vec::new();
    let mut i: usize = 0;
    while i < points.len()
        invariant
            i <= points.len(),
            out@ == points@.subrange(0, i as int),
        decreases points.len() - i,
    {
        out.push(points[i]);
        i = i + 1;
        proof {
            assert(out@ =~= points@.subrange(0, i as int));
        }
    }
    proof {
        assert(out@ =~= points@);
    }
    out
}

impl Clone for DrawingSegment {
    fn clone(&self) -> (r: Self)
        ensures
            r@ == self@,
    {
        DrawingSegment {
            id: self.id.clone(),
            stroke: self.stroke.clone(),
            line_width: self.line_width,
            points: copy_points(&self.points),
        }
    }
}

/// Width and height of the shared canvas, fixed for one drawing stage.
#[derive(Debug, Clone, Copy, PartialEq, Eq, Structural)]
pub struct CanvasSize {
    pub width: u32,
    pub height: u32,
}

/// The live drawing of the current round: the canvas size and the ordered
/// log of strokes.
#[derive(Debug)]
pub struct Drawing {
    pub canvas: CanvasSize,
    pub segments: Vec<DrawingSegment>,
}

/// Mathematical value of a [`Drawing`].
#[verifier::ext_equal]
pub ghost struct DrawingV {
    pub canvas: CanvasSize,
    pub segments: Seq<SegmentV>,
}

/// The views of a sequence of segments.
pub open spec fn seg_views(segs: Seq<DrawingSegment>) -> Seq<SegmentV> {
    Seq::new(segs.len(), |i: int| segs[i]@)
}

impl View for Drawing {
    type V = DrawingV;

    open spec fn view(&self) -> DrawingV {
        DrawingV { canvas: self.canvas, segments: seg_views(self.segments@) }
    }
}

impl Clone for Drawing {
    /// A cloned drawing keeps the canvas but drops the strokes: clones are
    /// taken as broadcast snapshots, and strokes are replayed separately.
    fn clone(&self) -> (r: Self)
        ensures
            r@ == (DrawingV { canvas: self@.canvas, segments: Seq::<SegmentV>::empty() }),
    {
        let r = Drawing { canvas: self.canvas, segments: Vec::new() };
        proof {
            assert(seg_views(Seq::<DrawingSegment>::empty()) =~= Seq::<SegmentV>::empty());
        }
        r
    }
}

/// The current phase of a room.
#[derive(Debug)]
pub enum GameStage {
    /// A player is choosing a word.
    PlayerChoosing { player_id: u128 },
    /// A player is drawing the secret word while others guess it.
    PlayerDrawing { player_id: u128, word: String, drawing: Drawing },
}

/// Mathematical value of a [`GameStage`].
#[verifier::ext_equal]
pub ghost enum StageV {
    PlayerChoosing { player_id: u128 },
    PlayerDrawing { player_id: u128, word: Seq<char>, drawing: DrawingV },
}

impl View for GameStage {
    type V = StageV;

    open spec fn view(&self) -> StageV {
        match self {
            GameStage::PlayerChoosing { player_id } => (StageV::PlayerChoosing {
                player_id: *player_id,
            }),
            GameStage::PlayerDrawing { player_id, word, drawing } => (StageV::PlayerDrawing {
                player_id: *player_id,
                word: word@,
                drawing: drawing@,
            }),
        }
    }
}

impl Clone for GameStage {
    /// Cloning a stage keeps the chooser or artist and the word, and drops
    /// the strokes, as [`Drawing::clone`] does.
    fn clone(&self) -> (r: Self)
        ensures
            r@ == snapshot_stage(self@),
    {
        match self {
            GameStage::PlayerChoosing { player_id } => (GameStage::PlayerChoosing {
                player_id: *player_id,
            }),
            GameStage::PlayerDrawing { player_id, word, drawing } => (GameStage::PlayerDrawing {
                player_id: *player_id,
                word: word.clone(),
                drawing: drawing.clone(),
            }),
        }
    }
}

/// One finished turn, kept for future scoring; no operation appends to the
/// history yet.
#[derive(Debug)]
pub struct Turn {
    pub word: String,
    pub player_guessed: Option<Player>,
}

/// Mathematical value of a [`Turn`].
#[verifier::ext_equal]
pub ghost struct TurnV {
    pub word: Seq<char>,
    pub player_guessed: Option<PlayerV>,
}

impl View for Turn {
    type V = TurnV;

    open spec fn view(&self) -> TurnV {
        TurnV {
            word: self.word@,
            player_guessed: match self.player_guessed {
                Option::Some(p) => Option::Some(p@),
                Option::None => Option::None,
            },
        }
    }
}

impl Clone for Turn {
    fn clone(&self) -> (r: Self)
        ensures
            r@ == self@,
    {
        Turn {
            word: self.word.clone(),
            player_guessed: match &self.player_guessed {
                Option::Some(p) => Option::Some(p.clone()),
                Option::None => Option::None,
            },
        }
    }
}

/// One game room.
#[derive(Debug)]
pub struct Game {
    pub id: String,
    pub stage: GameStage,
    pub players: Vec<Player>,
    pub history: Vec<Turn>,
}

/// Mathematical value of a [`Game`].
#[verifier::ext_equal]
pub ghost struct GameV {
    pub id: Seq<char>,
    pub stage: StageV,
    pub players: Seq<PlayerV>,
    pub history: Seq<TurnV>,
}

/// The views of a sequence of players.
pub open spec fn player_views(players: Seq<Player>) -> Seq<PlayerV> {
    Seq::new(players.len(), |i: int| players[i]@)
}

/// The views of a sequence of turns.
pub open spec fn turn_views(turns: Seq<Turn>) -> Seq<TurnV> {
    Seq::new(turns.len(), |i: int| turns[i]@)
}

/// Mapping views commutes with appending one element.
proof fn lemma_player_views_push(s: Seq<Player>, p: Player)
    ensures
        player_views(s.push(p)) == player_views(s).push(p@),
{
    assert(player_views(s.push(p)) =~= player_views(s).push(p@));
}

/// Mapping views commutes with appending one element.
proof fn lemma_turn_views_push(s: Seq<Turn>, t: Turn)
    ensures
        turn_views(s.push(t)) == turn_views(s).push(t@),
{
    assert(turn_views(s.push(t)) =~= turn_views(s).push(t@));
}

/// Mapping views commutes with appending one element.
proof fn lemma_seg_views_push(s: Seq<DrawingSegment>, x: DrawingSegment)
    ensures
        seg_views(s.push(x)) == seg_views(s).push(x@),
{
    assert(seg_views(s.push(x)) =~= seg_views(s).push(x@));
}

impl View for Game {
    type V = GameV;

    open spec fn view(&self) -> GameV {
        GameV {
            id: self.id@,
            stage: self.stage@,
            players: player_views(self.players@),
            history: turn_views(self.history@),
        }
    }
}

/// Whether some player of the roster carries the given id.
pub open spec fn roster_has(players: Seq<PlayerV>, pid: u128) -> bool {
    exists|i: int| 0 <= i < players.len() && players[i].id == pid
}

/// Whether no two players of the roster share an id.
pub open spec fn roster_distinct(players: Seq<PlayerV>) -> bool {
    forall|i: int, j: int| 0 <= i < j < players.len() ==> players[i].id != players[j].id
}

/// The ids of the roster, in join order.
pub open spec fn roster_ids(players: Seq<PlayerV>) -> Seq<u128> {
    Seq::new(players.len(), |i: int| players[i].id)
}

/// The predicate that keeps every player but the one of the given id.
pub open spec fn keeps_id(pid: u128) -> spec_fn(PlayerV) -> bool {
    |p: PlayerV| p.id != pid
}

/// The roster with every player of the given id removed.
pub open spec fn roster_remove(players: Seq<PlayerV>, pid: u128) -> Seq<PlayerV> {
    players.filter(keeps_id(pid))
}

impl StageV {
    /// The id of the player the stage is anchored on: the chooser while
    /// choosing, the artist while drawing.
    pub open spec fn holder(self) -> u128 {
        match self {
            StageV::PlayerChoosing { player_id } => player_id,
            StageV::PlayerDrawing { player_id, .. } => player_id,
        }
    }

    /// The secret word of a drawing stage.
    pub open spec fn word(self) -> Seq<char> {
        match self {
            StageV::PlayerChoosing { .. } => Seq::empty(),
            StageV::PlayerDrawing { word, .. } => word,
        }
    }
}

/// A stage as a broadcast snapshot carries it: the strokes are dropped, all
/// else is kept.
pub open spec fn snapshot_stage(s: StageV) -> StageV {
    match s {
        StageV::PlayerChoosing { player_id } => s,
        StageV::PlayerDrawing { player_id, word, drawing } => (StageV::PlayerDrawing {
            player_id,
            word,
            drawing: DrawingV { canvas: drawing.canvas, segments: Seq::empty() },
        }),
    }
}

/// A room as a broadcast snapshot carries it: same id, roster and stage,
/// strokes dropped.
pub open spec fn snapshot_of(g: GameV) -> GameV {
    GameV { stage: snapshot_stage(g.stage), ..g }
}

/// A room after one player left: the player's entry is removed, and if the
/// leaver anchored the stage and the roster is still inhabited, the stage
/// falls back to choosing, anchored on the first remaining member; any
/// in-progress drawing is discarded.
pub open spec fn remove_from_game(g: GameV, pid: u128) -> GameV {
    let ps = roster_remove(g.players, pid);
    if ps.len() > 0 && g.stage.holder() == pid {
        GameV { players: ps, stage: StageV::PlayerChoosing { player_id: ps[0].id }, ..g }
    } else {
        GameV { players: ps, ..g }
    }
}

impl GameV {
    /// Whether the given id is on the roster.
    pub open spec fn has_player(self, pid: u128) -> bool {
        roster_has(self.players, pid)
    }

    /// Well-formedness: the roster is inhabited, ids on it are distinct, and
    /// the stage is anchored on a roster member.
    pub open spec fn wf(self) -> bool {
        &&& self.players.len() > 0
        &&& roster_distinct(self.players)
        &&& self.has_player(self.stage.holder())
    }
}

impl Clone for Game {
    /// A cloned room is its broadcast snapshot: the strokes are dropped, all
    /// else is kept.
    fn clone(&self) -> (r: Self)
        ensures
            r@ == snapshot_of(self@),
    {
        let r = Game {
            id: self.id.clone(),
            stage: self.stage.clone(),
            players: clone_players(&self.players),
            history: clone_turns(&self.history),
        };
        proof {
            assert(r@ =~= snapshot_of(self@));
        }
        r
    }
}

#[verifier::loop_isolation(false)]
fn clone_players(players: &Vec<Player>) -> (r: Vec<Player>)
    ensures
        player_views(r@) == player_views(players@),
{
    let mut out: Vec<Player> = Vec::new();
    let mut i: usize = 0;
    while i < players.len()
        invariant
            i <= players.len(),
            player_views(out@) == player_views(players@.subrange(0, i as int)),
        decreases players.len() - i,
    {
        let ghost old_out = out@;
        let ghost old_sub = players@.subrange(0, i as int);
        out.push(players[i].clone());
        i = i + 1;
        proof {
            lemma_player_views_push(old_out, out@.last());
            assert(players@.subrange(0, i as int) =~= old_sub.push(players@[i - 1]));
            lemma_player_views_push(old_sub, players@[i - 1]);
            assert(player_views(out@) =~= player_views(players@.subrange(0, i as int)));
        }
    }
    proof {
        assert(players@.subrange(0, players@.len() as int) =~= players@);
    }
    out
}

#[verifier::loop_isolation(false)]
fn clone_turns(turns: &Vec<Turn>) -> (r: Vec<Turn>)
    ensures
        turn_views(r@) == turn_views(turns@),
{
    let mut out: Vec<Turn> = Vec::new();
    let mut i: usize = 0;
    while i < turns.len()
        invariant
            i <= turns.len(),
            turn_views(out@) == turn_views(turns@.subrange(0, i as int)),
        decreases turns.len() - i,
    {
        let ghost old_out = out@;
        let ghost old_sub = turns@.subrange(0, i as int);
        out.push(turns[i].clone());
        i = i + 1;
        proof {
            lemma_turn_views_push(old_out, out@.last());
            assert(turns@.subrange(0, i as int) =~= old_sub.push(turns@[i - 1]));
            lemma_turn_views_push(old_sub, turns@[i - 1]);
            assert(turn_views(out@) =~= turn_views(turns@.subrange(0, i as int)));
        }
    }
    proof {
        assert(turns@.subrange(0, turns@.len() as int) =~= turns@);
    }
    out
}

#[verifier::loop_isolation(false)]
fn clone_segments(segs: &Vec<DrawingSegment>) -> (r: Vec<DrawingSegment>)
    ensures
        seg_views(r@) == seg_views(segs@),
{
    let mut out: Vec<DrawingSegment> = Vec::new();
    let mut i: usize = 0;
    while i < segs.len()
        invariant
            i <= segs.len(),
            seg_views(out@) == seg_views(segs@.subrange(0, i as int)),
        decreases segs.len() - i,
    {
        let ghost old_out = out@;
        let ghost old_sub = segs@.subrange(0, i as int);
        out.push(segs[i].clone());
        i = i + 1;
        proof {
            lemma_seg_views_push(old_out, out@.last());
            assert(segs@.subrange(0, i as int) =~= old_sub.push(segs@[i - 1]));
            lemma_seg_views_push(old_sub, segs@[i - 1]);
            assert(seg_views(out@) =~= seg_views(segs@.subrange(0, i as int)));
        }
    }
    proof {
        assert(segs@.subrange(0, segs@.len() as int) =~= segs@);
    }
    out
}

impl Game {
    /// A fresh room: the founding player is the whole roster and is choosing
    /// the first word.
    pub(crate) fn new(id: String, player: Player) -> (r: Game)
        ensures
            r@ == (GameV {
                id: id@,
                stage: StageV::PlayerChoosing { player_id: player@.id },
                players: seq![player@],
                history: Seq::empty(),
            }),
            r@.wf(),
    {
        let ghost pv = player@;
        let pid = player.id;
        let mut players: Vec<Player> = Vec::new();
        players.push(player);
        let r = Game {
            id,
            stage: GameStage::PlayerChoosing { player_id: pid },
            players,
            history: Vec::new(),
        };
        proof {
            assert(player_views(r.players@) =~= seq![pv]);
            assert(turn_views(r.history@) =~= Seq::<TurnV>::empty());
            assert(r@.players[0].id == pv.id);
        }
        r
    }

    /// Joining a room is idempotent: a player whose id is already on the
    /// roster leaves the room unchanged; a new player is appended in join
    /// order, the stage untouched.
    #[verifier::loop_isolation(false)]
    pub(crate) fn add_player(&mut self, player: Player)
        requires
            old(self)@.wf(),
        ensures
            old(self)@.has_player(player@.id) ==> final(self)@ == old(self)@,
            !old(self)@.has_player(player@.id) ==> final(self)@ == (GameV {
                players: old(self)@.players.push(player@),
                ..old(self)@
            }),
            final(self)@.wf(),
            final(self)@.has_player(player@.id),
    {
        let ghost gv = self@;
        let ghost pv = player@;
        let mut i: usize = 0;
        let n = self.players.len();
        while i < n
            invariant
                i <= n,
                n == self.players.len(),
                self@ == gv,
                pv == player@,
                forall|k: int| 0 <= k < i ==> gv.players[k].id != pv.id,
            decreases n - i,
        {
            if self.players[i].id == player.id {
                proof {
                    assert(gv.players[i as int].id == pv.id);
                }
                return ;
            }
            i = i + 1;
        }
        proof {
            assert(!gv.has_player(pv.id));
        }
        self.players.push(player);
        proof {
            assert(self@.players =~= gv.players.push(pv));
            assert(self@ =~= (GameV { players: gv.players.push(pv), ..gv }));
            assert(self@.players[gv.players.len() as int].id == pv.id);
            assert forall|a: int, b: int|
                0 <= a < b < self@.players.len() implies self@.players[a].id
                != self@.players[b].id by {
                if b == gv.players.len() as int {
                    assert(gv.players[a].id != pv.id);
                }
            }
            let h = gv.stage.holder();
            let k = choose|k: int| 0 <= k < gv.players.len() && gv.players[k].id == h;
            assert(self@.players[k].id == h);
        }
    }

    /// Removing a player: returns whether the id was on the roster.  The
    /// room afterwards is exactly [`remove_from_game`] of the old one; an
    /// emptied roster is the caller's signal to destroy the room.
    #[verifier::loop_isolation(false)]
    pub(crate) fn remove_player(&mut self, pid: u128) -> (was_present: bool)
        requires
            old(self)@.wf(),
        ensures
            was_present == old(self)@.has_player(pid),
            final(self)@ == remove_from_game(old(self)@, pid),
            final(self)@.players.len() > 0 ==> final(self)@.wf(),
    {
        let ghost gv = self@;
        let mut kept: Vec<Player> = Vec::new();
        let mut found = false;
        let n = self.players.len();
        let mut i: usize = 0;
        while i < n
            invariant
                i <= n,
                n == self.players.len(),
                self@ == gv,
                player_views(kept@) == gv.players.subrange(0, i as int).filter(keeps_id(pid)),
                found == roster_has(gv.players.subrange(0, i as int), pid),
            decreases n - i,
        {
            let ghost pre = gv.players.subrange(0, i as int);
            let ghost old_kept = kept@;
            let keep_it = self.players[i].id != pid;
            if keep_it {
                kept.push(self.players[i].clone());
            } else {
                found = true;
            }
            i = i + 1;
            proof {
                let cur = gv.players.subrange(0, i as int);
                assert(cur.drop_last() =~= pre);
                assert(cur.last() == gv.players[i - 1]);
                reveal_with_fuel(Seq::filter, 2);
                if keep_it {
                    lemma_player_views_push(old_kept, kept@.last());
                    assert(kept@.last()@ == gv.players[i - 1]);
                }
                assert(player_views(kept@) =~= cur.filter(keeps_id(pid)));
                if roster_has(pre, pid) {
                    let k = choose|k: int| 0 <= k < pre.len() && pre[k].id == pid;
                    assert(cur[k].id == pid);
                    assert(roster_has(cur, pid));
                } else if !keep_it {
                    assert(cur.last().id == pid);
                    assert(roster_has(cur, pid));
                } else {
                    assert(!roster_has(cur, pid)) by {
                        if roster_has(cur, pid) {
                            let k = choose|k: int| 0 <= k < cur.len() && cur[k].id == pid;
                            if k < cur.len() - 1 {
                                assert(pre[k].id == pid);
                            }
                        }
                    }
                }
            }
        }
        proof {
            assert(gv.players.subrange(0, n as int) =~= gv.players);
        }
        self.players = kept;
        if self.players.is_empty() {
            proof {
                assert(self@ =~= remove_from_game(gv, pid));
            }
            return found;
        }
        // Re-anchor the stage if the leaver was choosing or drawing.
        let holder = match &self.stage {
            GameStage::PlayerChoosing { player_id } => *player_id,
            GameStage::PlayerDrawing { player_id, .. } => *player_id,
        };
        if holder == pid {
            let anchor = self.players[0].id;
            self.stage = GameStage::PlayerChoosing { player_id: anchor };
        }
        proof {
            assert(self@ =~= remove_from_game(gv, pid));
            lemma_remove_preserves_wf(gv, pid);
        }
        found
    }

    /// Whether the given id is on the roster.
    #[verifier::loop_isolation(false)]
    pub fn has_member(&self, pid: u128) -> (r: bool)
        ensures
            r == self@.has_player(pid),
    {
        let n = self.players.len();
        let mut i: usize = 0;
        while i < n
            invariant
                i <= n,
                n == self.players@.len(),
                forall|k: int| 0 <= k < i ==> self@.players[k].id != pid,
            decreases n - i,
        {
            if self.players[i].id == pid {
                proof {
                    assert(self@.players[i as int].id == pid);
                }
                return true;
            }
            i = i + 1;
        }
        proof {
            if self@.has_player(pid) {
                let k = choose|k: int|
                    0 <= k < self@.players.len() && self@.players[k].id == pid;
                assert(false);
            }
        }
        false
    }

    /// Appends a stroke while drawing; drawing input for a stage that has
    /// already advanced is stale and dropped.
    pub fn add_segment(&mut self, segment: DrawingSegment)
        requires
            old(self)@.wf(),
        ensures
            old(self)@.stage is PlayerDrawing ==> final(self)@ == (GameV {
                stage: push_segment(old(self)@.stage, segment@),
                ..old(self)@
            }),
            !(old(self)@.stage is PlayerDrawing) ==> final(self)@ == old(self)@,
            final(self)@.wf(),
    {
        let ghost gv = self@;
        let ghost sv = segment@;
        match &mut self.stage {
            GameStage::PlayerDrawing { drawing, .. } => {
                drawing.segments.push(segment);
            },
            _ => {},
        }
        proof {
            if gv.stage is PlayerDrawing {
                assert(self@ =~= (GameV { stage: push_segment(gv.stage, sv), ..gv }));
            } else {
                assert(self@ =~= gv);
            }
        }
    }

    /// Deletes the strokes with the given id while drawing; a no-op in any
    /// other stage.
    #[verifier::loop_isolation(false)]
    pub fn remove_segment(&mut self, segment_id: &str)
        requires
            old(self)@.wf(),
        ensures
            old(self)@.stage is PlayerDrawing ==> final(self)@ == (GameV {
                stage: drop_segment(old(self)@.stage, segment_id@),
                ..old(self)@
            }),
            !(old(self)@.stage is PlayerDrawing) ==> final(self)@ == old(self)@,
            final(self)@.wf(),
    {
        let ghost gv = self@;
        match &mut self.stage {
            GameStage::PlayerDrawing { drawing, .. } => {
                let ghost orig = seg_views(drawing.segments@);
                let mut kept: Vec<DrawingSegment> = Vec::new();
                let n = drawing.segments.len();
                let mut i: usize = 0;
                while i < n
                    invariant
                        i <= n,
                        n == drawing.segments.len(),
                        seg_views(drawing.segments@) == orig,
                        seg_views(kept@) == orig.subrange(0, i as int).filter(
                            |s: SegmentV| s.id != segment_id@,
                        ),
                    decreases n - i,
                {
                    let ghost pre = orig.subrange(0, i as int);
                    let ghost old_kept = kept@;
                    let keep_it = !str_eq(drawing.segments[i].id.as_str(), segment_id);
                    if keep_it {
                        kept.push(drawing.segments[i].clone());
                    }
                    i = i + 1;
                    proof {
                        let cur = orig.subrange(0, i as int);
                        assert(cur.drop_last() =~= pre);
                        assert(cur.last() == drawing.segments@[i - 1]@);
                        reveal_with_fuel(Seq::filter, 2);
                        if keep_it {
                            lemma_seg_views_push(old_kept, kept@.last());
                            assert(kept@.last()@ == orig[i - 1]);
                        }
                        assert(seg_views(kept@) =~= cur.filter(|s: SegmentV| s.id != segment_id@));
                    }
                }
                proof {
                    assert(orig.subrange(0, n as int) =~= orig);
                }
                drawing.segments = kept;
            },
            _ => {},
        }
        proof {
            if gv.stage is PlayerDrawing {
                assert(self@ =~= (GameV { stage: drop_segment(gv.stage, segment_id@), ..gv }));
            } else {
                assert(self@ =~= gv);
            }
        }
    }

    /// Submitting a word succeeds only while the submitter is the chooser;
    /// the room then moves to drawing with the trimmed word, the given
    /// canvas and an empty stroke log.
    pub fn submit_word(&mut self, by: u128, word: String, canvas: CanvasSize) -> (changed: bool)
        requires
            old(self)@.wf(),
        ensures
            changed == (old(self)@.stage is PlayerChoosing && old(self)@.stage.holder() == by),
            changed ==> final(self)@ == (GameV {
                stage: StageV::PlayerDrawing {
                    player_id: by,
                    word: trimmed_of(word@),
                    drawing: DrawingV { canvas, segments: Seq::empty() },
                },
                ..old(self)@
            }),
            !changed ==> final(self)@ == old(self)@,
            final(self)@.wf(),
    {
        let ghost gv = self@;
        let allowed = match &self.stage {
            GameStage::PlayerChoosing { player_id } => *player_id == by,
            _ => false,
        };
        if allowed {
            let trimmed = trim_part(word.as_str()).to_owned();
            self.stage = GameStage::PlayerDrawing {
                player_id: by,
                word: trimmed,
                drawing: Drawing { canvas, segments: Vec::new() },
            };
            proof {
                assert(self@ =~= (GameV {
                    stage: StageV::PlayerDrawing {
                        player_id: by,
                        word: trimmed_of(word@),
                        drawing: DrawingV { canvas, segments: Seq::empty() },
                    },
                    ..gv
                }));
            }
            true
        } else {
            false
        }
    }

    /// Guessing succeeds only while drawing and only when the guess equals
    /// the secret word under case folding; the guesser then becomes the next
    /// chooser.  A caller hands in ids of roster members only, as the data
    /// model requires of the stage anchor.
    pub fn guess_word(&mut self, by: u128, guess: &str) -> (correct: bool)
        requires
            old(self)@.wf(),
            old(self)@.has_player(by),
        ensures
            correct == (old(self)@.stage is PlayerDrawing && lower_of(old(self)@.stage.word())
                == lower_of(guess@)),
            correct ==> final(self)@ == (GameV {
                stage: StageV::PlayerChoosing { player_id: by },
                ..old(self)@
            }),
            !correct ==> final(self)@ == old(self)@,
            final(self)@.wf(),
    {
        let ghost gv = self@;
        let hit = match &self.stage {
            GameStage::PlayerDrawing { word, .. } => {
                let w = lowercase(word.as_str());
                let g = lowercase(guess);
                w == g
            },
            _ => false,
        };
        if hit {
            self.stage = GameStage::PlayerChoosing { player_id: by };
            proof {
                assert(self@ =~= (GameV { stage: StageV::PlayerChoosing { player_id: by }, ..gv }));
            }
            true
        } else {
            false
        }
    }

    /// A partial reveal of the secret word, available only while drawing:
    /// the first character stays, the rest are masked, and a word too short
    /// to mask is hidden whole.
    pub fn ask_word_tip(&self) -> (r: Option<String>)
        ensures
            self@.stage is PlayerDrawing ==> (r matches Option::Some(t) && t@ == tip_of(
                self@.stage.word(),
            )),
            !(self@.stage is PlayerDrawing) ==> r is None,
    {
        match &self.stage {
            GameStage::PlayerDrawing { word, .. } => Option::Some(mask_word(word.as_str())),
            _ => Option::None,
        }
    }

    /// The strokes of the current drawing, in order; empty in any other
    /// stage.
    pub fn iter_drawing(&self) -> (r: Vec<DrawingSegment>)
        ensures
            self@.stage matches StageV::PlayerDrawing { drawing, .. } ==> seg_views(r@)
                == drawing.segments,
            !(self@.stage is PlayerDrawing) ==> r@.len() == 0,
    {
        match &self.stage {
            GameStage::PlayerDrawing { drawing, .. } => clone_segments(&drawing.segments),
            _ => Vec::new(),
        }
    }
}

/// A drawing stage with one stroke appended.
pub open spec fn push_segment(s: StageV, seg: SegmentV) -> StageV {
    match s {
        StageV::PlayerDrawing { player_id, word, drawing } => (StageV::PlayerDrawing {
            player_id,
            word,
            drawing: DrawingV { canvas: drawing.canvas, segments: drawing.segments.push(seg) },
        }),
        StageV::PlayerChoosing { .. } => s,
    }
}

/// A drawing stage with the strokes of the given id deleted.
pub open spec fn drop_segment(s: StageV, seg_id: Seq<char>) -> StageV {
    match s {
        StageV::PlayerDrawing { player_id, word, drawing } => (StageV::PlayerDrawing {
            player_id,
            word,
            drawing: DrawingV {
                canvas: drawing.canvas,
                segments: drawing.segments.filter(|x: SegmentV| x.id != seg_id),
            },
        }),
        StageV::PlayerChoosing { .. } => s,
    }
}

/// The masked form of a word: its first character followed by one `'*'` per
/// further character; a word of fewer than two characters is masked whole,
/// so the tip always reveals strictly less than the word.
pub open spec fn tip_of(word: Seq<char>) -> Seq<char> {
    if word.len() < 2 {
        Seq::new(word.len(), |i: int| '*')
    } else {
        word.subrange(0, 1) + Seq::new((word.len() - 1) as nat, |i: int| '*')
    }
}

#[verifier::loop_isolation(false)]
fn mask_word(word: &str) -> (r: String)
    ensures
        r@ == tip_of(word@),
{
    let n = word.unicode_len();
    let mut out: String;
    let mut done: usize;
    if n < 2 {
        out = String::new();
        done = 0;
    } else {
        out = word.substring_char(0, 1).to_owned();
        done = 1;
    }
    while done < n
        invariant
            done <= n,
            n == word@.len(),
            n >= 2 ==> done >= 1,
            n >= 2 ==> out@ == word@.subrange(0, 1) + Seq::new((done - 1) as nat, |i: int| '*'),
            n < 2 ==> out@ == Seq::new(done as nat, |i: int| '*'),
        decreases n - done,
    {
        out.append("*");
        done = done + 1;
        proof {
            reveal_strlit("*");
            if n >= 2 {
                assert(out@ =~= word@.subrange(0, 1) + Seq::new((done - 1) as nat, |i: int| '*'));
            } else {
                assert(out@ =~= Seq::new(done as nat, |i: int| '*'));
            }
        }
    }
    proof {
        assert(out@ =~= tip_of(word@));
    }
    out
}

/// Every element of a filtered roster stands somewhere in the unfiltered
/// one.
pub(crate) proof fn lemma_filter_element_from(players: Seq<PlayerV>, pred: spec_fn(PlayerV) -> bool, i: int)
    requires
        0 <= i < players.filter(pred).len(),
    ensures
        exists|k: int| 0 <= k < players.len() && players[k] == players.filter(pred)[i],
    decreases players.len(),
{
    reveal(Seq::filter);
    if players.len() > 0 {
        let fs = players.filter(pred);
        let prev = players.drop_last();
        if pred(players.last()) && i == fs.len() - 1 {
            assert(players[players.len() - 1] == fs[i]);
        } else {
            lemma_filter_element_from(prev, pred, i);
            let k = choose|k: int| 0 <= k < prev.len() && prev[k] == prev.filter(pred)[i];
            assert(players[k] == fs[i]);
        }
    }
}

/// Removing one id from a roster of distinct ids leaves distinct ids.
proof fn lemma_roster_remove_distinct(players: Seq<PlayerV>, pid: u128)
    requires
        roster_distinct(players),
    ensures
        roster_distinct(roster_remove(players, pid)),
    decreases players.len(),
{
    reveal(Seq::filter);
    let pred = keeps_id(pid);
    if players.len() > 0 {
        let fs = players.filter(pred);
        let prev = players.drop_last();
        assert(roster_distinct(prev)) by {
            assert(forall|k: int| 0 <= k < prev.len() ==> prev[k] == players[k]);
        }
        lemma_roster_remove_distinct(prev, pid);
        let pfs = prev.filter(pred);
        if pred(players.last()) {
            assert(fs == pfs.push(players.last()));
            assert forall|i: int, j: int| 0 <= i < j < fs.len() implies fs[i].id != fs[j].id by {
                if j < fs.len() - 1 {
                    assert(pfs[i] == fs[i] && pfs[j] == fs[j]);
                } else {
                    assert(fs[j] == players.last());
                    assert(pfs[i] == fs[i]);
                    lemma_filter_element_from(prev, pred, i);
                    let k = choose|k: int| 0 <= k < prev.len() && prev[k] == pfs[i];
                    assert(players[k] == fs[i]);
                    assert(players[k].id != players[players.len() - 1].id);
                }
            }
        } else {
            assert(fs == pfs);
        }
    }
}

/// Removing a player from a well-formed room leaves a well-formed room
/// whenever the roster stays inhabited.
pub proof fn lemma_remove_preserves_wf(g: GameV, pid: u128)
    requires
        g.wf(),
    ensures
        remove_from_game(g, pid).players.len() > 0 ==> remove_from_game(g, pid).wf(),
{
    broadcast use vstd::seq_lib::group_filter_ensures;

    let pred = keeps_id(pid);
    let ps = roster_remove(g.players, pid);
    let g2 = remove_from_game(g, pid);
    if ps.len() > 0 {
        lemma_roster_remove_distinct(g.players, pid);
        if g.stage.holder() == pid {
            assert(g2.has_player(ps[0].id));
        } else {
            let h = g.stage.holder();
            let i = choose|i: int| 0 <= i < g.players.len() && g.players[i].id == h;
            assert(pred(g.players[i]));
            assert(ps.contains(g.players[i]));
            let k = choose|k: int| 0 <= k < ps.len() && ps[k] == g.players[i];
            assert(ps[k].id == h);
            assert(g2.has_player(h));
        }
    }
}

/// Removing the current chooser or artist from a roster of more than one
/// player yields a choosing stage anchored on a remaining roster member —
/// never the leaver — and discards any in-progress drawing.
pub proof fn lemma_remove_anchor(g: GameV, pid: u128)
    requires
        g.wf(),
        g.players.len() > 1,
        g.stage.holder() == pid,
    ensures
        remove_from_game(g, pid).players.len() > 0,
        remove_from_game(g, pid).stage is PlayerChoosing,
        remove_from_game(g, pid).has_player(remove_from_game(g, pid).stage.holder()),
        remove_from_game(g, pid).stage.holder() != pid,
{
    broadcast use vstd::seq_lib::group_filter_ensures;

    let pred = keeps_id(pid);
    let ps = roster_remove(g.players, pid);
    // Some member other than the leaver exists and survives the filter.
    let w: int = if g.players[0].id != pid {
        0
    } else {
        1
    };
    assert(g.players[w].id != pid) by {
        if w == 1 {
            assert(g.players[0].id != g.players[1].id);
        }
    }
    assert(pred(g.players[w]));
    assert(g.players.filter(pred).contains(g.players[w]));
    assert(ps.len() > 0);
    lemma_remove_preserves_wf(g, pid);
    assert(pred(ps[0]));
}

/// Removing the only member empties the roster: the caller then destroys
/// the room.
pub proof fn lemma_remove_last_empties(g: GameV, pid: u128)
    requires
        g.wf(),
        g.players.len() == 1,
        g.has_player(pid),
    ensures
        remove_from_game(g, pid).players.len() == 0,
{
    let pred = keeps_id(pid);
    let ps = roster_remove(g.players, pid);
    assert(g.players[0].id == pid) by {
        let k = choose|k: int| 0 <= k < g.players.len() && g.players[k].id == pid;
    }
    if ps.len() > 0 {
        broadcast use vstd::seq_lib::group_filter_ensures;

        lemma_filter_element_from(g.players, pred, 0);
        let k = choose|k: int| 0 <= k < g.players.len() && g.players[k] == ps[0];
        assert(pred(ps[0]));
        assert(false);
    }
}

} // verus!
