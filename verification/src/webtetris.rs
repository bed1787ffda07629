use vstd::prelude::*;
use crate::board::rows_view;
use crate::board::Board;
use crate::grid::{all_in_bounds, in_bounds, Point, ROWS};
use crate::motion::{
    center_after_drops, center_allows_drops, cleared_rows, has_full_row, moved_board, moved_center, movable,
    settle, shifted, sweep, touches_top, valid_direction, center_step_in_range, scan_in_field, full_rows,
    lemma_settle_count, lemma_sweep_count,
};
use crate::placement::{placed_shape, shape_width};
use crate::rotation::{in_reading_order, shape_value, turn_board, turn_defined, turn_fits, turned_piece};
use crate::grid::{fill_cells, COLS};
use crate::motion::copy_points;
use crate::random::uniform_in;
use crate::tetris::{Command, Event, Tetris, Undroppable, CENTER_LIMIT};

verus! {

/// A game of one player in a session.
pub struct WebTetris {
    pub tetris: Tetris,
    pub player_id: i16,
}

/// Where a game stands, as reported to the players.
#[derive(PartialEq, Eq, Structural, Debug, Clone, Copy)]
pub enum GameStatus {
    Lost,
    Won,
    Ongoing,
    Ended,
    Start,
}

/// The state of a game as sent to the players.
#[derive(Debug)]
pub struct Data {
    pub player_id: i16,
    pub board: Vec<Vec<u8>>,
    pub status: GameStatus,
    pub piece: Vec<Point>,
    pub piece_number: u8,
    pub opponent: bool,
}

/// What the session does after a command.
#[derive(Debug)]
pub enum Outcome {
    /// Nothing is sent.
    Quiet,
    /// The state is sent to the players.
    Publish(Data),
    /// The driver of the game is told that the piece stopped falling.
    Notify(Event),
    /// The final state is sent and the session ends.
    Finish(Data),
}

/// The command named by a message of a player, if any.
pub open spec fn command_for(msg: Seq<char>) -> Option<Command> {
    if msg == "rotate"@ {
        Some(Command::Rotate)
    } else if msg == "move_down"@ {
        Some(Command::Move('D'))
    } else if msg == "move_right"@ {
        Some(Command::Move('R'))
    } else if msg == "move_left"@ {
        Some(Command::Move('L'))
    } else if msg == "end_game"@ {
        Some(Command::End)
    } else if msg == "hard_drop"@ {
        Some(Command::HardDrop)
    } else {
        None
    }
}

/// The falling piece of `t`; empty when there is none.
pub open spec fn piece_of(t: Tetris) -> Seq<Point> {
    match t.current_piece {
        Some(v) => v@,
        None => Seq::empty(),
    }
}

/// `d` reports `w` to the players with `status`, `piece` and `number`, marked
/// as coming from the opponent.
pub open spec fn reports_game(d: Data, w: WebTetris, status: GameStatus, piece: Seq<Point>, number: u8) -> bool {
    &&& d.player_id == w.player_id
    &&& rows_view(d.board@) == w.tetris.board@
    &&& d.status == status
    &&& d.piece@ == piece
    &&& d.piece_number == number
    &&& d.opponent
}

/// The clearing of full rows, as `Tetris::clear_lines` does it, can be made on
/// `t`, and the score can take a point for each full row.
pub open spec fn clearing_allowed(t: Tetris) -> bool {
    &&& t.wf()
    &&& t.score + full_rows(t.board@).len() <= u16::MAX
    &&& has_full_row(t.board@) ==> center_allows_drops(t.center, sweep(cleared_rows(t.board@), ROWS as nat).1)
}

/// `after` is `before` after `Tetris::clear_lines`, with a point added to the
/// score for each full row.
pub open spec fn cleared(before: Tetris, after: Tetris) -> bool {
    &&& after.wf()
    &&& !has_full_row(before.board@) ==> after == before
    &&& has_full_row(before.board@) ==> {
        let s = sweep(cleared_rows(before.board@), ROWS as nat);
        &&& after.board@ == s.0
        &&& after.center == center_after_drops(before.center, s.1)
    }
    &&& after.current_shape == before.current_shape
    &&& after.current_piece == before.current_piece
    &&& after.score == before.score + full_rows(before.board@).len()
}

/// The conditions under which `command` can be carried out on `t`: those of
/// the operation it calls.
pub open spec fn command_allowed(t: Tetris, command: Command) -> bool {
    let p = piece_of(t);
    match command {
        Command::HardDrop => {
            &&& t.wf()
            &&& p.len() > 0
            &&& scan_in_field(t.board@, p, 'D')
            &&& movable(t.board@, p, 'D') ==> all_in_bounds(p)
            &&& center_allows_drops(t.center, settle(t.board@, p, ROWS as nat).2)
        },
        Command::Rotate => turn_defined(t, p),
        Command::Move(c) => {
            &&& t.wf()
            &&& valid_direction(c)
            &&& scan_in_field(t.board@, p, c)
            &&& movable(t.board@, p, c) ==> (all_in_bounds(p) && (t.center matches Some(v) && center_step_in_range(v, c)))
        },
        Command::InsertPiece => clearing_allowed(t),
        Command::ClearLines => clearing_allowed(t),
        Command::Refresh => true,
        Command::End => true,
    }
}

/// `t` with its falling piece replaced by `p`.
pub open spec fn with_piece(t: Tetris, p: Option<Vec<Point>>) -> Tetris {
    Tetris { current_piece: p, ..t }
}

/// `after` and `o` are what `WebTetris::handle_command` makes of `before` and
/// `command`.
pub open spec fn handled(before: WebTetris, command: Command, after: WebTetris, o: Outcome) -> bool {
    let t = before.tetris;
    let n = after.tetris;
    let p = piece_of(t);
    let pn = shape_value(t.current_shape);
    &&& after.player_id == before.player_id
    &&& match command {
        Command::HardDrop => {
            let s = settle(t.board@, p, ROWS as nat);
            &&& n.wf()
            &&& n.board@ == s.0
            &&& n.center == center_after_drops(t.center, s.2)
            &&& n.current_shape == t.current_shape
            &&& n.score == t.score
            &&& touches_top(s.1) ==> (n.current_piece == t.current_piece && (o matches Outcome::Finish(d)
                && reports_game(d, after, GameStatus::Lost, p, pn)))
            &&& !touches_top(s.1) ==> (n.current_piece matches Some(v) && v@ == s.1 && o is Quiet)
        },
        Command::Rotate => {
            let c = t.center.unwrap();
            let q = turned_piece(p, c);
            &&& n.wf()
            &&& o is Quiet
            &&& n.center == t.center
            &&& n.current_shape == t.current_shape
            &&& n.score == t.score
            &&& turn_fits(t.board@, p, c) ==> (n.current_piece matches Some(v) && v@.to_set() == q.to_set()
                && in_reading_order(v@) && n.board@ == turn_board(
                t.board@,
                p,
                c,
                pn,
            ))
            &&& !turn_fits(t.board@, p, c) ==> n.board@ == fill_cells(t.board@, p, pn) && n.current_piece
                == t.current_piece
        },
        Command::Move(c) => {
            &&& n.wf()
            &&& movable(t.board@, p, c) ==> {
                &&& n.board@ == moved_board(t.board@, p, c)
                &&& n.center == Some(moved_center(t.center.unwrap(), c))
                &&& n.current_shape == t.current_shape
                &&& n.score == t.score
                &&& n.current_piece matches Some(v) && v@ == shifted(p, c)
                &&& o is Quiet
            }
            &&& !movable(t.board@, p, c) ==> {
                &&& after == before
                &&& (c == 'D' && touches_top(p)) ==> (o matches Outcome::Finish(d) && reports_game(
                    d,
                    after,
                    GameStatus::Lost,
                    p,
                    pn,
                ))
                &&& (c == 'D' && !touches_top(p)) ==> o == Outcome::Notify(Event::Undroppable)
                &&& c != 'D' ==> o is Quiet
            }
        },
        Command::InsertPiece => {
            &&& o is Quiet
            &&& n.current_piece is Some
            &&& n.current_shape matches Some(k) && 1 <= k <= 7
            &&& exists|mid: Tetris, col: int|
                #![trigger cleared(t, mid), placed_shape(mid, n.current_shape.unwrap(), col, with_piece(n, mid.current_piece), piece_of(n))]
                cleared(t, mid) && 0 <= col <= COLS - shape_width(n.current_shape.unwrap()) && placed_shape(
                    mid,
                    n.current_shape.unwrap(),
                    col,
                    with_piece(n, mid.current_piece),
                    piece_of(n),
                )
        },
        Command::Refresh => after == before && (o matches Outcome::Publish(d) && reports_game(
            d,
            before,
            GameStatus::Ongoing,
            p,
            pn,
        )),
        Command::ClearLines => cleared(t, n) && o is Quiet,
        Command::End => after == before && (o matches Outcome::Finish(d) && reports_game(
            d,
            before,
            GameStatus::Ended,
            p,
            0,
        )),
    }
}

/// What one command of a session can send: a state report only answers
/// `Refresh`, with the status `Ongoing`; a session ends only with `Lost` or
/// `Ended`; no report after the opening says `Start`; every report names the
/// player, whose number never changes, and is marked as the opponent's.
pub proof fn law_session_reports(before: WebTetris, command: Command, after: WebTetris, o: Outcome)
    requires
        handled(before, command, after, o),
    ensures
        after.player_id == before.player_id,
        o matches Outcome::Publish(d) ==> {
            &&& command == Command::Refresh
            &&& d.status == GameStatus::Ongoing
            &&& d.player_id == before.player_id
            &&& d.opponent
        },
        o matches Outcome::Finish(d) ==> {
            &&& d.status == GameStatus::Lost || d.status == GameStatus::Ended
            &&& d.player_id == before.player_id
            &&& d.opponent
        },
        o matches Outcome::Notify(e) ==> command == Command::Move('D') && e == Event::Undroppable,
{
}

/// A session from `start` that carried out `cmds` in turn through the games
/// `ws` (the first being `start`) and answered `os`, stopping at the first
/// `Finish`.
pub open spec fn session_run(start: WebTetris, cmds: Seq<Command>, ws: Seq<WebTetris>, os: Seq<Outcome>) -> bool {
    &&& ws.len() == cmds.len() + 1
    &&& os.len() == cmds.len()
    &&& ws[0] == start
    &&& forall|i: int| 0 <= i < cmds.len() ==> #[trigger] handled(ws[i], cmds[i], ws[i + 1], os[i])
    &&& forall|i: int| 0 <= i < os.len() - 1 ==> !(#[trigger] os[i] is Finish)
}

/// Over a whole session: every report names the session's player and is marked
/// as the opponent's; reports with the status `Ongoing` only answer `Refresh`;
/// none says `Start` (only the opening does); and a report with the status
/// `Lost` or `Ended` is the last thing the session sends.
pub proof fn law_session_run(start: WebTetris, cmds: Seq<Command>, ws: Seq<WebTetris>, os: Seq<Outcome>)
    requires
        session_run(start, cmds, ws, os),
    ensures
        forall|i: int| 0 <= i < ws.len() ==> (#[trigger] ws[i]).player_id == start.player_id,
        forall|i: int|
            0 <= i < os.len() ==> match #[trigger] os[i] {
                Outcome::Publish(d) => cmds[i] == Command::Refresh && d.status == GameStatus::Ongoing
                    && d.player_id == start.player_id && d.opponent,
                Outcome::Finish(d) => i == os.len() - 1 && (d.status == GameStatus::Lost || d.status
                    == GameStatus::Ended) && d.player_id == start.player_id && d.opponent,
                _ => true,
            },
{
    assert forall|i: int| 0 <= i < ws.len() implies (#[trigger] ws[i]).player_id == start.player_id by {
        lemma_player_kept(start, cmds, ws, os, i);
    }
    assert forall|i: int| 0 <= i < os.len() implies match #[trigger] os[i] {
        Outcome::Publish(d) => cmds[i] == Command::Refresh && d.status == GameStatus::Ongoing && d.player_id
            == start.player_id && d.opponent,
        Outcome::Finish(d) => i == os.len() - 1 && (d.status == GameStatus::Lost || d.status == GameStatus::Ended)
            && d.player_id == start.player_id && d.opponent,
        _ => true,
    } by {
        assert(handled(ws[i], cmds[i], ws[i + 1], os[i]));
        law_session_reports(ws[i], cmds[i], ws[i + 1], os[i]);
        lemma_player_kept(start, cmds, ws, os, i);
    }
}

/// The player of a session stays the same from game to game.
proof fn lemma_player_kept(start: WebTetris, cmds: Seq<Command>, ws: Seq<WebTetris>, os: Seq<Outcome>, i: int)
    requires
        session_run(start, cmds, ws, os),
        0 <= i < ws.len(),
    ensures
        ws[i].player_id == start.player_id,
    decreases i,
{
    if i > 0 {
        let j = i - 1;
        lemma_player_kept(start, cmds, ws, os, j);
        assert(handled(ws[j], cmds[j], ws[j + 1], os[j]));
    }
}

/// A number for a new player, drawn at random from 0 to 999.
pub fn draw_player_id() -> (id: i16)
    ensures
        0 <= id < 1000,
{
    uniform_in(0, 999) as i16
}

/// The field of `t` has `ROWS` rows of `COLS` cells.
fn field_ok(t: &Tetris) -> (r: bool)
    ensures
        r == t.wf(),
{
    let m = t.board.get_matrix();
    if m.len() != 22 {
        return false;
    }
    let mut i: usize = 0;
    while i < m.len()
        invariant
            m@.len() == ROWS,
            rows_view(m@) == t.board@,
            i <= ROWS,
            forall|k: int| 0 <= k < i ==> #[trigger] t.board@[k].len() == COLS,
        decreases ROWS - i,
    {
        assert(rows_view(m@)[i as int] == m@[i as int]@);
        if m[i].len() != 10 {
            return false;
        }
        i = i + 1;
    }
    true
}

/// Every point of `p` lies in the field.
fn points_in_field(p: &Vec<Point>) -> (r: bool)
    ensures
        r == all_in_bounds(p@),
{
    let mut i: usize = 0;
    while i < p.len()
        invariant
            i <= p@.len(),
            forall|k: int| 0 <= k < i ==> in_bounds(#[trigger] p@[k]),
        decreases p@.len() - i,
    {
        if p[i].0 >= 22 || p[i].1 >= 10 {
            assert(!in_bounds(p@[i as int]));
            return false;
        }
        i = i + 1;
    }
    true
}

/// The falling piece of `t`, or an empty piece when there is none.
fn piece_vec(t: &Tetris) -> (p: Vec<Point>)
    ensures
        p@ == piece_of(*t),
{
    match &t.current_piece {
        Some(p) => copy_points(p),
        None => Vec::new(),
    }
}

/// `center_allows_drops(c, n)`, computed.
fn allows_drops(c: Option<(i64, i64)>, n: u64) -> (r: bool)
    requires
        n <= 1000,
    ensures
        r == center_allows_drops(c, n as nat),
{
    if n == 0 {
        return true;
    }
    match c {
        Some(v) => v.0 <= CENTER_LIMIT - 2 * (n as i64),
        None => false,
    }
}

/// The number of full rows of the field of `t`.
fn full_row_count(t: &Tetris) -> (n: usize)
    requires
        t.wf(),
    ensures
        n == full_rows(t.board@).len(),
        n <= ROWS,
{
    let lines = t.check_filled_lines();
    proof {
        lines@.unique_seq_to_set();
        assert(lines@.to_set() =~= full_rows(t.board@));
    }
    lines.len()
}

/// A copy of `t` with no shape or piece and its centre at the origin.
fn scratch_copy(t: &Tetris) -> (s: Tetris)
    requires
        t.wf(),
    ensures
        s.wf(),
        s.board@ == t.board@,
        s.center == Some((0i64, 0i64)),
{
    Tetris {
        board: Board::from(t.board.get_matrix()),
        current_shape: None,
        center: Some((0, 0)),
        current_piece: None,
        score: 0,
    }
}

/// How many moves the hard drop of `p` on the field of `t` makes.
fn drop_count(t: &Tetris, p: &Vec<Point>) -> (n: u64)
    requires
        t.wf(),
        p@.len() > 0,
        scan_in_field(t.board@, p@, 'D'),
        movable(t.board@, p@, 'D') ==> all_in_bounds(p@),
    ensures
        n == settle(t.board@, p@, ROWS as nat).2,
        n <= ROWS,
{
    proof {
        lemma_settle_count(t.board@, p@, ROWS as nat);
    }
    let ghost k = settle(t.board@, p@, ROWS as nat).2;
    let mut s = scratch_copy(t);
    let _stop = s.hard_drop(p);
    match s.center {
        Some(c) => {
            assert(k > 0 ==> c.0 == 2 * k);
            assert(k == 0 ==> c.0 == 0);
            (c.0 / 2) as u64
        },
        None => 0,
    }
}

/// How many moves the clearing of full rows on the field of `t` makes: 0 when
/// no row is full.
fn sweep_count(t: &Tetris) -> (n: u64)
    requires
        t.wf(),
    ensures
        has_full_row(t.board@) ==> n == sweep(cleared_rows(t.board@), ROWS as nat).1,
        !has_full_row(t.board@) ==> n == 0,
        n <= ROWS * ROWS,
{
    proof {
        lemma_sweep_count(cleared_rows(t.board@), ROWS as nat);
    }
    let ghost k = sweep(cleared_rows(t.board@), ROWS as nat).1;
    let mut s = scratch_copy(t);
    let _cleared = s.clear_lines();
    match s.center {
        Some(c) => {
            assert(has_full_row(t.board@) && k > 0 ==> c.0 == 2 * k);
            assert(!has_full_row(t.board@) || k == 0 ==> c.0 == 0);
            (c.0 / 2) as u64
        },
        None => 0,
    }
}

/// `center_step_in_range(c, d)`, computed.
fn step_in_range(c: (i64, i64), d: char) -> (r: bool)
    ensures
        r == center_step_in_range(c, d),
{
    if d == 'D' {
        c.0 <= CENTER_LIMIT - 2
    } else if d == 'R' {
        c.1 <= CENTER_LIMIT - 2
    } else {
        c.1 >= 2 - CENTER_LIMIT
    }
}

/// Whether `command` can be carried out on `t` by `WebTetris::handle_command`.
pub fn command_allowed_exec(t: &Tetris, command: Command) -> (b: bool)
    ensures
        b == command_allowed(*t, command),
{
    match command {
        Command::Refresh => return true,
        Command::End => return true,
        _ => {},
    }
    if !field_ok(t) {
        return false;
    }
    let p = piece_vec(t);
    match command {
        Command::HardDrop => {
            if p.len() == 0 {
                return false;
            }
            match t.movable_scan(&p, 'D') {
                None => false,
                Some(m) => {
                    if m && !points_in_field(&p) {
                        return false;
                    }
                    let n = drop_count(t, &p);
                    allows_drops(t.center, n)
                },
            }
        },
        Command::Rotate => {
            if !points_in_field(&p) {
                return false;
            }
            match t.center {
                Some(c) => -CENTER_LIMIT <= c.0 && c.0 <= CENTER_LIMIT && -CENTER_LIMIT <= c.1 && c.1 <= CENTER_LIMIT,
                None => false,
            }
        },
        Command::Move(c) => {
            if !(c == 'D' || c == 'R' || c == 'L') {
                return false;
            }
            match t.movable_scan(&p, c) {
                None => false,
                Some(m) => {
                    if !m {
                        return true;
                    }
                    if !points_in_field(&p) {
                        return false;
                    }
                    match t.center {
                        Some(v) => step_in_range(v, c),
                        None => false,
                    }
                },
            }
        },
        _ => {
            let n = sweep_count(t);
            let rows = full_row_count(t);
            t.score as usize + rows <= 65535 && allows_drops(t.center, n)
        },
    }
}

/// `msg` reads exactly `word`.
fn text_is(msg: &String, word: &str) -> (r: bool)
    ensures
        r == (msg@ == word@),
{
    let w: String = word.to_owned();
    *msg == w
}

impl WebTetris {
    /// The command that a player's message names: `rotate`, `move_down`,
    /// `move_right`, `move_left`, `end_game` or `hard_drop`.
    pub fn get_command(msg: String) -> (c: Option<Command>)
        ensures
            c == command_for(msg@),
    {
        if text_is(&msg, "rotate") {
            Some(Command::Rotate)
        } else if text_is(&msg, "move_down") {
            Some(Command::Move('D'))
        } else if text_is(&msg, "move_right") {
            Some(Command::Move('R'))
        } else if text_is(&msg, "move_left") {
            Some(Command::Move('L'))
        } else if text_is(&msg, "end_game") {
            Some(Command::End)
        } else if text_is(&msg, "hard_drop") {
            Some(Command::HardDrop)
        } else {
            None
        }
    }

    /// The falling piece, or an empty piece when there is none.
    fn current_piece_copy(&self) -> (p: Vec<Point>)
        ensures
            p@ == piece_of(self.tetris),
    {
        match &self.tetris.current_piece {
            Some(p) => copy_points(p),
            None => Vec::new(),
        }
    }

    /// The number of the current shape, 0 when there is none.
    fn piece_number(&self) -> (n: u8)
        ensures
            n == shape_value(self.tetris.current_shape),
    {
        match self.tetris.current_shape {
            Some(n) => n,
            None => 0,
        }
    }

    /// The state of the game as sent to the players.
    pub fn report(&self, status: GameStatus, piece: Vec<Point>, piece_number: u8) -> (d: Data)
        ensures
            reports_game(d, *self, status, piece@, piece_number),
    {
        Data {
            player_id: self.player_id,
            board: self.tetris.board.get_matrix(),
            status,
            piece,
            piece_number,
            opponent: true,
        }
    }

    /// Opens the game: a random shape becomes the falling piece, and the state
    /// is reported with the status `Start`.
    pub fn open(&mut self) -> (d: Data)
        requires
            old(self).tetris.wf(),
        ensures
            final(self).player_id == old(self).player_id,
            final(self).tetris.current_shape matches Some(n) && 1 <= n <= 7,
            final(self).tetris.current_piece matches Some(v) && exists|col: int|
                0 <= col <= COLS - shape_width(final(self).tetris.current_shape.unwrap()) && #[trigger] placed_shape(
                    old(self).tetris,
                    final(self).tetris.current_shape.unwrap(),
                    col,
                    with_piece(final(self).tetris, old(self).tetris.current_piece),
                    v@,
                ),
            reports_game(d, *final(self), GameStatus::Start, piece_of(final(self).tetris), shape_value(final(self).tetris.current_shape)),
    {
        let ghost t0 = self.tetris;
        let piece = self.tetris.insert_random_shape();
        let ghost t1 = self.tetris;
        let ghost v = piece@;
        self.tetris.current_piece = Some(piece);
        assert(t1 == with_piece(self.tetris, old(self).tetris.current_piece));
        let pn = self.piece_number();
        let current_piece = self.current_piece_copy();
        self.report(GameStatus::Start, current_piece, pn)
    }

    /// Carries out one command of the session on the game and says what the
    /// session does next:
    /// - `HardDrop` drops the falling piece; when it stops touching the top row
    ///   the game is lost and its final state is reported, otherwise the stopped
    ///   piece stays the falling piece;
    /// - `Rotate` turns the falling piece when it can turn;
    /// - `Move(c)` moves the falling piece one cell; when it cannot move down it
    ///   either loses the game (touching the top row) or the driver is told;
    /// - `InsertPiece` clears the full rows and places a new random piece;
    /// - `Refresh` reports the state with the status `Ongoing`;
    /// - `ClearLines` clears the full rows;
    /// - `End` reports the state with the status `Ended` and ends the session.
    pub fn handle_command(&mut self, command: Command) -> (o: Outcome)
        requires
            command_allowed(old(self).tetris, command),
        ensures
            handled(*old(self), command, *final(self), o),
    {
        let current_piece = self.current_piece_copy();
        let o = match command {
            Command::HardDrop => {
                let piece = self.current_piece_copy();
                match self.tetris.hard_drop(&piece) {
                    Undroppable::Immovable(p) => {
                        self.tetris.current_piece = Some(p);
                        Outcome::Quiet
                    },
                    Undroppable::Lost(_) => {
                        let pn = self.piece_number();
                        Outcome::Finish(self.report(GameStatus::Lost, current_piece, pn))
                    },
                }
            },
            Command::Rotate => {
                let piece = self.current_piece_copy();
                if let Ok(p) = self.tetris.rotate(&piece) {
                    self.tetris.current_piece = Some(p);
                }
                Outcome::Quiet
            },
            Command::Move(c) => {
                let mut piece = self.current_piece_copy();
                match self.tetris.move_to(&mut piece, c) {
                    Ok(p) => {
                        self.tetris.current_piece = Some(p);
                        Outcome::Quiet
                    },
                    Err(u) => match u {
                        Undroppable::Immovable(_) => {
                            if c == 'D' {
                                Outcome::Notify(Event::Undroppable)
                            } else {
                                Outcome::Quiet
                            }
                        },
                        Undroppable::Lost(_) => {
                            let pn = self.piece_number();
                            Outcome::Finish(self.report(GameStatus::Lost, current_piece, pn))
                        },
                    },
                }
            },
            Command::InsertPiece => {
                let ghost t0 = self.tetris;
                let rows = self.tetris.clear_lines();
                self.tetris.score = self.tetris.score + rows;
                let ghost mid = self.tetris;
                let piece = self.tetris.insert_random_shape();
                let ghost t1 = self.tetris;
                self.tetris.current_piece = Some(piece);
                assert(t1 == with_piece(self.tetris, mid.current_piece));
                assert(cleared(t0, mid));
                proof {
                    let k = t1.current_shape.unwrap();
                    let col = choose|col: int|
                        0 <= col <= COLS - shape_width(k) && #[trigger] placed_shape(mid, k, col, t1, piece@);
                    assert(placed_shape(mid, self.tetris.current_shape.unwrap(), col, with_piece(self.tetris, mid.current_piece), piece@));
                    let n = self.tetris;
                    assert(piece_of(n) == piece@);
                    assert(placed_shape(mid, n.current_shape.unwrap(), col, with_piece(n, mid.current_piece), piece_of(n)));
                }
                Outcome::Quiet
            },
            Command::Refresh => {
                let pn = self.piece_number();
                Outcome::Publish(self.report(GameStatus::Ongoing, current_piece, pn))
            },
            Command::ClearLines => {
                let rows = self.tetris.clear_lines();
                self.tetris.score = self.tetris.score + rows;
                Outcome::Quiet
            },
            Command::End => Outcome::Finish(self.report(GameStatus::Ended, current_piece, 0)),
        };
        o
    }
}

} // verus!
