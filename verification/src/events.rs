//! The event contract between the library and the transport: what a client
//! may ask, what the server sends back, and to whom.  The library returns
//! [`Directive`]s — decisions of what to send — and the caller performs the
//! sends; delivery is fire-and-forget.

use vstd::prelude::*;

use crate::session::{CanvasSize, DrawingSegment, Game, GameV, Player, PlayerV, SegmentV};

verus! {

/// One event a client may send.
#[derive(Debug)]
pub enum ClientEvent {
    /// Keepalive.
    Ping,
    /// A stroke was drawn.
    AddDrawingSegment(DrawingSegment),
    /// A stroke was erased, by id.
    RemoveDrawingSegment(String),
    /// The chooser submits the word to draw, with the canvas dimensions.
    SubmitWord(String, CanvasSize),
    /// A guess at the secret word.
    GuessWord(String),
    /// A request for a partial reveal of the secret word.
    AskWordTip,
}

/// Mathematical value of a [`ClientEvent`].
#[verifier::ext_equal]
pub ghost enum ClientEventV {
    Ping,
    AddDrawingSegment(SegmentV),
    RemoveDrawingSegment(Seq<char>),
    SubmitWord(Seq<char>, CanvasSize),
    GuessWord(Seq<char>),
    AskWordTip,
}

impl View for ClientEvent {
    type V = ClientEventV;

    open spec fn view(&self) -> ClientEventV {
        match self {
            ClientEvent::Ping => ClientEventV::Ping,
            ClientEvent::AddDrawingSegment(s) => ClientEventV::AddDrawingSegment(s@),
            ClientEvent::RemoveDrawingSegment(id) => ClientEventV::RemoveDrawingSegment(id@),
            ClientEvent::SubmitWord(w, c) => ClientEventV::SubmitWord(w@, *c),
            ClientEvent::GuessWord(w) => ClientEventV::GuessWord(w@),
            ClientEvent::AskWordTip => ClientEventV::AskWordTip,
        }
    }
}

/// One event the server sends to clients.
#[derive(Debug)]
pub enum ServerEvent {
    /// A room snapshot: full roster and stage, never the strokes.
    Game(Game),
    /// A stroke was drawn.
    AddDrawingSegment(DrawingSegment),
    /// A stroke was erased, by id.
    RemoveDrawingSegment(String),
    /// The identity issued to a newly created player.
    YouAre(Player),
    /// The guess was wrong.
    WrongGuess,
    /// A partial reveal of the secret word.
    WordTip(String),
    /// The canvas is to be cleared.
    ClearDrawing,
    /// Keepalive answer.
    Pong,
}

/// Mathematical value of a [`ServerEvent`].
#[verifier::ext_equal]
pub ghost enum ServerEventV {
    Game(GameV),
    AddDrawingSegment(SegmentV),
    RemoveDrawingSegment(Seq<char>),
    YouAre(PlayerV),
    WrongGuess,
    WordTip(Seq<char>),
    ClearDrawing,
    Pong,
}

impl View for ServerEvent {
    type V = ServerEventV;

    open spec fn view(&self) -> ServerEventV {
        match self {
            ServerEvent::Game(g) => ServerEventV::Game(g@),
            ServerEvent::AddDrawingSegment(s) => ServerEventV::AddDrawingSegment(s@),
            ServerEvent::RemoveDrawingSegment(id) => ServerEventV::RemoveDrawingSegment(id@),
            ServerEvent::YouAre(p) => ServerEventV::YouAre(p@),
            ServerEvent::WrongGuess => ServerEventV::WrongGuess,
            ServerEvent::WordTip(t) => ServerEventV::WordTip(t@),
            ServerEvent::ClearDrawing => ServerEventV::ClearDrawing,
            ServerEvent::Pong => ServerEventV::Pong,
        }
    }
}

/// Who an event goes to: the sender alone, the whole roster, or the roster
/// without the sender.
#[derive(Debug, Clone, Copy, PartialEq, Eq, Structural)]
pub enum Audience {
    Sender,
    All,
    Others,
}

/// One decision to send an event to an audience.  `echo` marks a direct
/// reply that carries the correlation id of the client request.
#[derive(Debug)]
pub struct Directive {
    pub audience: Audience,
    pub event: ServerEvent,
    pub echo: bool,
}

/// Mathematical value of a [`Directive`].
#[verifier::ext_equal]
pub ghost struct DirectiveV {
    pub audience: Audience,
    pub event: ServerEventV,
    pub echo: bool,
}

impl View for Directive {
    type V = DirectiveV;

    open spec fn view(&self) -> DirectiveV {
        DirectiveV { audience: self.audience, event: self.event@, echo: self.echo }
    }
}

/// The views of a sequence of directives.
pub open spec fn directive_views(ds: Seq<Directive>) -> Seq<DirectiveV> {
    Seq::new(ds.len(), |i: int| ds[i]@)
}

} // verus!
