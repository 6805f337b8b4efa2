//! Making and unmaking moves on the board.

use vstd::prelude::*;
use crate::board::{full_hash, hash_drift, Board, BoardState};
use crate::movegen::{
    castle_def, ep_victim, lemma_castle_consts, push_dir, push_dir_exec, sq_at, try_square,
};
use crate::moves::{Move, MoveFlags, MoveUndo};
use crate::types::{next_player, pidx, player_at, valid_index, Piece, PieceType, Player, Square};

verus! {

// ─── Specification of a move's effect ───────────────────────────────────────

/// The piece type that ends up on the target square of a normal move.
pub open spec fn placed_type(m: Move) -> PieceType {
    match m.promotion_type() {
        Some(pt) => pt,
        None => m.moved(),
    }
}

/// Index of the castling variant of player `p` moving its king from `from`
/// to `to` (8 if there is none).
pub open spec fn castle_index(p: int, from: int, to: int) -> int {
    if castle_def(0).0 == p && castle_def(0).2 == from && castle_def(0).3 == to {
        0
    } else if castle_def(1).0 == p && castle_def(1).2 == from && castle_def(1).3 == to {
        1
    } else if castle_def(2).0 == p && castle_def(2).2 == from && castle_def(2).3 == to {
        2
    } else if castle_def(3).0 == p && castle_def(3).2 == from && castle_def(3).3 == to {
        3
    } else if castle_def(4).0 == p && castle_def(4).2 == from && castle_def(4).3 == to {
        4
    } else if castle_def(5).0 == p && castle_def(5).2 == from && castle_def(5).3 == to {
        5
    } else if castle_def(6).0 == p && castle_def(6).2 == from && castle_def(6).3 == to {
        6
    } else if castle_def(7).0 == p && castle_def(7).2 == from && castle_def(7).3 == to {
        7
    } else {
        8
    }
}

/// A piece of player `p`.
pub open spec fn own(pt: PieceType, p: Player) -> Option<Piece> {
    Some(Piece { piece_type: pt, player: p })
}

/// The moving player can make `m` on `st`: the squares it empties hold the
/// expected pieces and the squares it fills are free.
pub open spec fn applicable(st: BoardState, m: Move) -> bool {
    let p = st.stm;
    let from = m.from_idx();
    let to = m.to_idx();
    let sqs = st.squares;
    &&& 0 <= from < 196
    &&& 0 <= to < 196
    &&& from != to
    &&& valid_index(to)
    &&& match m.flag() {
        MoveFlags::Castle => {
            let i = castle_index(pidx(p), from, to);
            &&& i < 8
            &&& sqs[from] == own(PieceType::King, p)
            &&& sqs[to] is None
            &&& sqs[castle_def(i).4] == own(PieceType::Rook, p)
            &&& sqs[castle_def(i).5] is None
        },
        MoveFlags::EnPassant => {
            &&& st.ep == Some(Square(to as u8))
            &&& ep_victim(st) matches Some(c) && sqs[c] is Some && c != from
            &&& sqs[from] == own(PieceType::Pawn, p)
            &&& sqs[to] is None
            &&& m.moved() == PieceType::Pawn
        },
        MoveFlags::DoublePush => {
            let (dr, df) = push_dir(pidx(p));
            &&& sqs[from] == own(PieceType::Pawn, p)
            &&& sqs[to] is None
            &&& m.moved() == PieceType::Pawn
            &&& sq_at(from / 14 + dr, from % 14 + df) is Some
        },
        MoveFlags::Normal => {
            &&& sqs[from] == own(m.moved(), p)
            &&& if m.captured_type() is Some {
                sqs[to] is Some
            } else {
                sqs[to] is None
            }
        },
    }
}

/// The squares after making `m`.
pub open spec fn make_squares(st: BoardState, m: Move) -> Seq<Option<Piece>> {
    let p = st.stm;
    let from = m.from_idx();
    let to = m.to_idx();
    let sqs = st.squares;
    match m.flag() {
        MoveFlags::Castle => {
            let i = castle_index(pidx(p), from, to);
            sqs.update(from, None).update(to, own(PieceType::King, p)).update(
                castle_def(i).4,
                None,
            ).update(castle_def(i).5, own(PieceType::Rook, p))
        },
        MoveFlags::EnPassant => sqs.update(ep_victim(st)->0, None).update(from, None).update(
            to,
            own(PieceType::Pawn, p),
        ),
        MoveFlags::DoublePush => sqs.update(from, None).update(to, own(PieceType::Pawn, p)),
        MoveFlags::Normal => sqs.update(from, None).update(to, own(placed_type(m), p)),
    }
}

/// Home square of the rook for castling bit `b`.
pub open spec fn rook_home(b: int) -> int {
    castle_def(b).4
}

/// Home square of player index `p`'s king.
pub open spec fn king_home(p: int) -> int {
    castle_def(2 * p).2
}

/// Clear castling bit `b`.
pub open spec fn clear_bit(c: u8, b: int) -> u8 {
    c & !(1u8 << (b as u8))
}

/// Clear both castling bits of player index `p`.
pub open spec fn clear_player(c: u8, p: int) -> u8 {
    c & !(3u8 << ((2 * p) as u8))
}

/// The castling bit whose rook starts on square index `sq` (-1 if none).
pub open spec fn rook_bit(sq: int) -> int {
    if sq == rook_home(0) {
        0
    } else if sq == rook_home(1) {
        1
    } else if sq == rook_home(2) {
        2
    } else if sq == rook_home(3) {
        3
    } else if sq == rook_home(4) {
        4
    } else if sq == rook_home(5) {
        5
    } else if sq == rook_home(6) {
        6
    } else if sq == rook_home(7) {
        7
    } else {
        -1
    }
}

/// Rights after a capture on `sq`: a rook captured on its home square loses
/// its right.
pub open spec fn after_rook_capture(c: u8, sq: int) -> u8 {
    if rook_bit(sq) >= 0 {
        clear_bit(c, rook_bit(sq))
    } else {
        c
    }
}

/// Rights after player `p` moves a piece of type `pt` from `from`: the king
/// leaving home loses both rights, a rook leaving home loses its own.
pub open spec fn after_piece_move(c: u8, p: int, pt: PieceType, from: int) -> u8 {
    if pt == PieceType::King && from == king_home(p) {
        clear_player(c, p)
    } else if pt == PieceType::Rook && from == rook_home(2 * p) {
        clear_bit(c, 2 * p)
    } else if pt == PieceType::Rook && from == rook_home(2 * p + 1) {
        clear_bit(c, 2 * p + 1)
    } else {
        c
    }
}

/// The castling rights after making `m`.
pub open spec fn make_castling(st: BoardState, m: Move) -> u8 {
    let p = pidx(st.stm);
    match m.flag() {
        MoveFlags::Castle => clear_player(st.castling, p),
        MoveFlags::Normal => after_piece_move(
            if m.captured_type() is Some {
                after_rook_capture(st.castling, m.to_idx())
            } else {
                st.castling
            },
            p,
            m.moved(),
            m.from_idx(),
        ),
        _ => st.castling,
    }
}

/// The en passant target after making `m`: the square a double push passed.
pub open spec fn make_ep(st: BoardState, m: Move) -> Option<Square> {
    let (dr, df) = push_dir(pidx(st.stm));
    if m.flag() == MoveFlags::DoublePush {
        match sq_at(m.from_idx() / 14 + dr, m.from_idx() % 14 + df) {
            Some(e) => Some(Square(e as u8)),
            None => None,
        }
    } else {
        None
    }
}

/// The king squares after making `m`.
pub open spec fn make_kings(st: BoardState, m: Move) -> Seq<u8> {
    if m.flag() == MoveFlags::Castle || (m.flag() == MoveFlags::Normal && placed_type(m)
        == PieceType::King) {
        st.kings.update(pidx(st.stm), m.to_idx() as u8)
    } else {
        st.kings
    }
}

/// The position after making `m` (the stored hash left as it was).
pub open spec fn made(st: BoardState, m: Move) -> BoardState {
    BoardState {
        squares: make_squares(st, m),
        kings: make_kings(st, m),
        castling: make_castling(st, m),
        ep: make_ep(st, m),
        ep_player: if make_ep(st, m) is Some {
            Some(st.stm)
        } else if st.ep is Some {
            None
        } else {
            st.ep_player
        },
        stm: next_player(st.stm),
        zobrist: st.zobrist,
    }
}

/// The piece that `m` captures.
pub open spec fn captured_piece_of(st: BoardState, m: Move) -> Option<Piece> {
    match m.flag() {
        MoveFlags::EnPassant => st.squares[ep_victim(st)->0],
        MoveFlags::Normal => if m.captured_type() is Some {
            st.squares[m.to_idx()]
        } else {
            None
        },
        _ => None,
    }
}

/// The undo record of making `m` on `st`.
pub open spec fn undo_of(st: BoardState, m: Move) -> MoveUndo {
    MoveUndo {
        mv: m,
        captured_piece: captured_piece_of(st, m),
        prev_castling: st.castling,
        prev_en_passant: st.ep,
        prev_ep_player: st.ep_player,
        prev_zobrist: st.zobrist,
        prev_side_to_move: st.stm,
    }
}

// ─── Specification of undoing ───────────────────────────────────────────────

/// The square of the pawn that an en passant capture recorded in `u` took.
pub open spec fn undo_victim(u: MoveUndo) -> Option<int> {
    match (u.prev_en_passant, u.prev_ep_player) {
        (Some(e), Some(pp)) => {
            let (dr, df) = push_dir(pidx(pp));
            sq_at(e.0 / 14 + dr, e.0 % 14 + df)
        },
        _ => None,
    }
}

/// `unmake_move` can run on `cur` with record `u`.
pub open spec fn unmake_ok(cur: BoardState, u: MoveUndo) -> bool {
    let m = u.mv;
    let p = u.prev_side_to_move;
    let from = m.from_idx();
    let to = m.to_idx();
    let sqs = cur.squares;
    &&& 0 <= from < 196
    &&& 0 <= to < 196
    &&& from != to
    &&& valid_index(from)
    &&& valid_index(to)
    &&& sqs[to] is Some
    &&& sqs[from] is None
    &&& u.prev_en_passant matches Some(s) ==> s.0 < 196 && valid_index(s.0 as int)
    &&& match m.flag() {
        MoveFlags::Castle => {
            let i = castle_index(pidx(p), from, to);
            &&& i < 8
            &&& sqs[castle_def(i).5] is Some
            &&& sqs[castle_def(i).4] is None
        },
        MoveFlags::EnPassant => {
            &&& undo_victim(u) matches Some(c) && c != from && c != to && (u.captured_piece is Some
                ==> sqs[c] is None)
        },
        _ => true,
    }
}

/// The squares after undoing with record `u`.
pub open spec fn unmake_squares(cur: BoardState, u: MoveUndo) -> Seq<Option<Piece>> {
    let m = u.mv;
    let p = u.prev_side_to_move;
    let from = m.from_idx();
    let to = m.to_idx();
    let sqs = cur.squares;
    match m.flag() {
        MoveFlags::Castle => {
            let i = castle_index(pidx(p), from, to);
            sqs.update(to, None).update(from, own(PieceType::King, p)).update(
                castle_def(i).5,
                None,
            ).update(castle_def(i).4, own(PieceType::Rook, p))
        },
        MoveFlags::EnPassant => {
            let s1 = sqs.update(to, None).update(from, own(PieceType::Pawn, p));
            match u.captured_piece {
                Some(cp) => s1.update(undo_victim(u)->0, Some(cp)),
                None => s1,
            }
        },
        _ => {
            let s1 = sqs.update(to, None).update(from, own(m.moved(), p));
            match u.captured_piece {
                Some(cp) => s1.update(to, Some(cp)),
                None => s1,
            }
        },
    }
}

/// The king squares after undoing with record `u`: kings put back on the
/// board take their square.
pub open spec fn unmake_kings(cur: BoardState, u: MoveUndo) -> Seq<u8> {
    let m = u.mv;
    let p = u.prev_side_to_move;
    let k1 = if m.flag() == MoveFlags::Castle || ((m.flag() == MoveFlags::Normal || m.flag()
        == MoveFlags::DoublePush) && m.moved() == PieceType::King) {
        cur.kings.update(pidx(p), m.from_idx() as u8)
    } else {
        cur.kings
    };
    match u.captured_piece {
        Some(cp) => if cp.piece_type == PieceType::King && m.flag() != MoveFlags::Castle {
            let at = if m.flag() == MoveFlags::EnPassant {
                undo_victim(u)->0
            } else {
                m.to_idx()
            };
            k1.update(pidx(cp.player), at as u8)
        } else {
            k1
        },
        None => k1,
    }
}

/// Every king on the board is where its player's king square says.
pub open spec fn kings_consistent(st: BoardState) -> bool {
    forall|s: int, p: int|
        #![trigger st.squares[s], st.kings[p]]
        0 <= s < 196 && 0 <= p < 4 && st.squares[s] == own(PieceType::King, player_at(p))
            ==> st.kings[p] == s
}

/// The position after undoing with record `u` (the stored hash left as it
/// was).
pub open spec fn unmade(cur: BoardState, u: MoveUndo) -> BoardState {
    BoardState {
        squares: unmake_squares(cur, u),
        kings: unmake_kings(cur, u),
        castling: u.prev_castling,
        ep: u.prev_en_passant,
        ep_player: u.prev_ep_player,
        stm: u.prev_side_to_move,
        zobrist: cur.zobrist,
    }
}

/// The shape every well-formed board's state has.
pub open spec fn shape_ok(st: BoardState) -> bool {
    &&& st.squares.len() == 196
    &&& st.kings.len() == 4
    &&& forall|i: int| 0 <= i < 196 && (#[trigger] st.squares[i]) is Some ==> valid_index(i)
    &&& st.ep matches Some(s) ==> s.0 < 196 && valid_index(s.0 as int)
}

// ─── Make / unmake ──────────────────────────────────────────────────────────

fn find_castle_index(player: Player, from: Square, to: Square) -> (r: usize)
    ensures
        r == castle_index(pidx(player), from.0 as int, to.0 as int),
{
    let p = player.index();
    if p == 0 && from.0 == 7 && to.0 == 9 {
        0
    } else if p == 0 && from.0 == 7 && to.0 == 5 {
        1
    } else if p == 1 && from.0 == 84 && to.0 == 56 {
        2
    } else if p == 1 && from.0 == 84 && to.0 == 112 {
        3
    } else if p == 2 && from.0 == 188 && to.0 == 186 {
        4
    } else if p == 2 && from.0 == 188 && to.0 == 190 {
        5
    } else if p == 3 && from.0 == 111 && to.0 == 139 {
        6
    } else if p == 3 && from.0 == 111 && to.0 == 83 {
        7
    } else {
        8
    }
}

fn rook_squares(i: usize) -> (r: (u8, u8))
    requires
        i < 8,
    ensures
        r.0 == castle_def(i as int).4,
        r.1 == castle_def(i as int).5,
{
    if i == 0 {
        (10, 8)
    } else if i == 1 {
        (3, 6)
    } else if i == 2 {
        (42, 70)
    } else if i == 3 {
        (140, 98)
    } else if i == 4 {
        (185, 187)
    } else if i == 5 {
        (192, 189)
    } else if i == 6 {
        (153, 125)
    } else {
        (55, 97)
    }
}

/// Rook starting squares, by castling bit.
fn rook_home_exec(b: usize) -> (r: u8)
    requires
        b < 8,
    ensures
        r == rook_home(b as int),
{
    rook_squares(b).0
}

/// King starting square of a player.
fn king_home_exec(p: usize) -> (r: u8)
    requires
        p < 4,
    ensures
        r == king_home(p as int),
{
    if p == 0 {
        7
    } else if p == 1 {
        84
    } else if p == 2 {
        188
    } else {
        111
    }
}

/// The pawn square an en passant capture takes, from the target square and
/// the pushing player.
fn find_ep_captured_pawn_sq(ep_target: Square, pushing_player: Player) -> (r: Option<Square>)
    requires
        ep_target.0 < 196,
    ensures
        match sq_at(
            ep_target.0 / 14 + push_dir(pidx(pushing_player)).0,
            ep_target.0 % 14 + push_dir(pidx(pushing_player)).1,
        ) {
            Some(c) => r == Some(Square(c as u8)) && 0 <= c < 196 && valid_index(c),
            None => r is None,
        },
{
    let (dr, df) = push_dir_exec(pushing_player.index());
    try_square(ep_target.rank() as i8 + dr, ep_target.file() as i8 + df)
}

fn revoke_castling_for_rook_capture(board: &mut Board, capture_sq: Square)
    requires
        old(board).wf(),
    ensures
        final(board).wf(),
        final(board)@ == (BoardState {
            castling: after_rook_capture(old(board)@.castling, capture_sq.0 as int),
            zobrist: final(board)@.zobrist,
            ..old(board)@
        }),
        hash_drift(final(board)@) == hash_drift(old(board)@),
        forall|q: int| 0 <= q < 4 ==> #[trigger] final(board).pieces_view(q) == old(board).pieces_view(q),
{
    let rights = board.castling_rights();
    let mut bit: usize = 0;
    while bit < 8
        invariant
            board.wf(),
            board@ == old(board)@,
            rights == board@.castling,
            bit <= 8,
            forall|b: int| 0 <= b < bit ==> capture_sq.0 != rook_home(b),
            forall|q: int| 0 <= q < 4 ==> #[trigger] board.pieces_view(q) == old(board).pieces_view(q),
        decreases 8 - bit,
    {
        if capture_sq.0 == rook_home_exec(bit) {
            if rights & (1u8 << (bit as u8)) != 0 {
                board.set_castling_rights(rights & !(1u8 << (bit as u8)));
            } else {
                proof {
                    let c = rights;
                    let b = bit as u8;
                    assert(c & (1u8 << b) == 0 ==> c & !(1u8 << b) == c) by (bit_vector);
                }
            }
            return ;
        }
        bit += 1;
    }
}

fn revoke_castling_for_piece_move(board: &mut Board, player: Player, piece_type: PieceType, from: Square)
    requires
        old(board).wf(),
    ensures
        final(board).wf(),
        final(board)@ == (BoardState {
            castling: after_piece_move(old(board)@.castling, pidx(player), piece_type, from.0 as int),
            zobrist: final(board)@.zobrist,
            ..old(board)@
        }),
        hash_drift(final(board)@) == hash_drift(old(board)@),
        forall|q: int| 0 <= q < 4 ==> #[trigger] final(board).pieces_view(q) == old(board).pieces_view(q),
{
    let rights = board.castling_rights();
    let p = player.index();
    let base_bit = p * 2;
    if piece_type == PieceType::King && from.0 == king_home_exec(p) {
        board.set_castling_rights(rights & !(3u8 << (base_bit as u8)));
    } else if piece_type == PieceType::Rook {
        if from.0 == rook_home_exec(base_bit) {
            if rights & (1u8 << (base_bit as u8)) != 0 {
                board.set_castling_rights(rights & !(1u8 << (base_bit as u8)));
            } else {
                proof {
                    let c = rights;
                    let b = base_bit as u8;
                    assert(c & (1u8 << b) == 0 ==> c & !(1u8 << b) == c) by (bit_vector);
                }
            }
        } else if from.0 == rook_home_exec(base_bit + 1) {
            if rights & (1u8 << ((base_bit + 1) as u8)) != 0 {
                board.set_castling_rights(rights & !(1u8 << ((base_bit + 1) as u8)));
            } else {
                proof {
                    let c = rights;
                    let b = (base_bit + 1) as u8;
                    assert(c & (1u8 << b) == 0 ==> c & !(1u8 << b) == c) by (bit_vector);
                }
            }
        }
    }
}

/// The board before a move's own changes: the position `st` with its en
/// passant target cleared.
pub open spec fn ep_cleared(b: BoardState, st: BoardState) -> bool {
    b == (BoardState {
        ep: None,
        ep_player: if st.ep is Some {
            None
        } else {
            st.ep_player
        },
        zobrist: b.zobrist,
        ..st
    })
}

/// The position after the piece changes of `m`, before the turn passes.
pub open spec fn made_in_turn(st: BoardState, m: Move) -> BoardState {
    BoardState { stm: st.stm, ..made(st, m) }
}

fn make_castle(board: &mut Board, mv: Move, Ghost(st): Ghost<BoardState>)
    requires
        old(board).wf(),
        applicable(st, mv),
        mv.flag() == MoveFlags::Castle,
        ep_cleared(old(board)@, st),
    ensures
        final(board).wf(),
        final(board)@ == (BoardState { zobrist: final(board)@.zobrist, ..made_in_turn(st, mv) }),
        hash_drift(final(board)@) == hash_drift(old(board)@),
{
    proof {
        board.lemma_wf();
    }
    let player = board.side_to_move();
    let from = mv.from_sq();
    let to = mv.to_sq();
    let i = find_castle_index(player, from, to);
    proof {
        lemma_castle_consts(i as int);
    }
    let (rf, rt) = rook_squares(i);
    board.remove_piece(from);
    board.set_piece(to, Piece::new(PieceType::King, player));
    board.remove_piece(Square(rf));
    board.set_piece(Square(rt), Piece::new(PieceType::Rook, player));
    let rights = board.castling_rights();
    let base_bit = player.index() * 2;
    board.set_castling_rights(rights & !(3u8 << (base_bit as u8)));
    proof {
        let e = made_in_turn(st, mv);
        assert(board@.squares =~= e.squares);
        assert(board@.kings =~= e.kings);
    }
}

fn make_en_passant(
    board: &mut Board,
    mv: Move,
    ep_target: Square,
    pushing_player: Player,
    Ghost(st): Ghost<BoardState>,
) -> (captured: Piece)
    requires
        old(board).wf(),
        applicable(st, mv),
        mv.flag() == MoveFlags::EnPassant,
        ep_cleared(old(board)@, st),
        st.ep == Some(ep_target),
        st.ep_player == Some(pushing_player),
    ensures
        final(board).wf(),
        final(board)@ == (BoardState { zobrist: final(board)@.zobrist, ..made_in_turn(st, mv) }),
        hash_drift(final(board)@) == hash_drift(old(board)@),
        Some(captured) == captured_piece_of(st, mv),
{
    proof {
        board.lemma_wf();
    }
    let player = board.side_to_move();
    let from = mv.from_sq();
    let to = mv.to_sq();
    let captured_pawn_sq = find_ep_captured_pawn_sq(ep_target, pushing_player).unwrap();
    let captured = board.remove_piece(captured_pawn_sq);
    board.remove_piece(from);
    board.set_piece(to, Piece::new(PieceType::Pawn, player));
    proof {
        let e = made_in_turn(st, mv);
        assert(board@.squares =~= e.squares);
        assert(board@.kings =~= e.kings);
    }
    captured
}

fn make_double_push(board: &mut Board, mv: Move, Ghost(st): Ghost<BoardState>)
    requires
        old(board).wf(),
        applicable(st, mv),
        mv.flag() == MoveFlags::DoublePush,
        ep_cleared(old(board)@, st),
    ensures
        final(board).wf(),
        final(board)@ == (BoardState { zobrist: final(board)@.zobrist, ..made_in_turn(st, mv) }),
        hash_drift(final(board)@) == hash_drift(old(board)@),
{
    proof {
        board.lemma_wf();
    }
    let player = board.side_to_move();
    let from = mv.from_sq();
    let to = mv.to_sq();
    board.remove_piece(from);
    board.set_piece(to, Piece::new(PieceType::Pawn, player));
    let (dr, df) = push_dir_exec(player.index());
    match try_square(from.rank() as i8 + dr, from.file() as i8 + df) {
        Some(ep_sq) => {
            board.set_en_passant(Some(ep_sq), Some(player));
        },
        None => {},
    }
    proof {
        let e = made_in_turn(st, mv);
        assert(board@.squares =~= e.squares);
        assert(board@.kings =~= e.kings);
    }
}

fn make_normal(board: &mut Board, mv: Move, Ghost(st): Ghost<BoardState>) -> (captured: Option<Piece>)
    requires
        old(board).wf(),
        applicable(st, mv),
        mv.flag() == MoveFlags::Normal,
        ep_cleared(old(board)@, st),
    ensures
        final(board).wf(),
        final(board)@ == (BoardState { zobrist: final(board)@.zobrist, ..made_in_turn(st, mv) }),
        hash_drift(final(board)@) == hash_drift(old(board)@),
        captured == captured_piece_of(st, mv),
{
    proof {
        board.lemma_wf();
    }
    let player = board.side_to_move();
    let from = mv.from_sq();
    let to = mv.to_sq();
    let mut captured_piece: Option<Piece> = None;
    if mv.captured().is_some() {
        let captured = board.remove_piece(to);
        captured_piece = Some(captured);
        revoke_castling_for_rook_capture(board, to);
    }
    let piece_type = mv.piece_type();
    board.remove_piece(from);
    let placed_type = match mv.promotion() {
        Some(pt) => pt,
        None => piece_type,
    };
    board.set_piece(to, Piece::new(placed_type, player));
    revoke_castling_for_piece_move(board, player, piece_type, from);
    proof {
        let e = made_in_turn(st, mv);
        assert(board@.squares =~= e.squares);
        assert(board@.kings =~= e.kings);
    }
    captured_piece
}

/// Make a move on the board, returning the state needed to undo it.
pub fn make_move(board: &mut Board, mv: Move) -> (undo: MoveUndo)
    requires
        old(board).wf(),
        applicable(old(board)@, mv),
    ensures
        final(board).wf(),
        final(board)@ == (BoardState { zobrist: final(board)@.zobrist, ..made(old(board)@, mv) }),
        hash_drift(final(board)@) == hash_drift(old(board)@),
        undo == undo_of(old(board)@, mv),
{
    let ghost st = board@;
    proof {
        board.lemma_wf();
    }
    let player = board.side_to_move();
    let prev_castling = board.castling_rights();
    let prev_en_passant = board.en_passant();
    let prev_ep_player = board.en_passant_pushing_player();
    let prev_zobrist = board.zobrist_hash();
    let mut captured_piece: Option<Piece> = None;
    if board.en_passant().is_some() {
        board.set_en_passant(None, None);
    }
    match mv.flags() {
        MoveFlags::Castle => {
            make_castle(board, mv, Ghost(st));
        },
        MoveFlags::EnPassant => {
            let ep_target = prev_en_passant.unwrap();
            let pushing_player = prev_ep_player.unwrap();
            let captured = make_en_passant(board, mv, ep_target, pushing_player, Ghost(st));
            captured_piece = Some(captured);
        },
        MoveFlags::DoublePush => {
            make_double_push(board, mv, Ghost(st));
        },
        MoveFlags::Normal => {
            captured_piece = make_normal(board, mv, Ghost(st));
        },
    }
    board.set_side_to_move(player.next());
    MoveUndo {
        mv,
        captured_piece,
        prev_castling,
        prev_en_passant,
        prev_ep_player,
        prev_zobrist,
        prev_side_to_move: player,
    }
}

fn unmake_castle(board: &mut Board, undo: &MoveUndo)
    requires
        old(board).wf(),
        unmake_ok(old(board)@, *undo),
        undo.mv.flag() == MoveFlags::Castle,
    ensures
        final(board).wf(),
        final(board)@ == (BoardState {
            squares: unmake_squares(old(board)@, *undo),
            kings: unmake_kings(old(board)@, *undo),
            zobrist: final(board)@.zobrist,
            ..old(board)@
        }),
        hash_drift(final(board)@) == hash_drift(old(board)@),
{
    proof {
        board.lemma_wf();
    }
    let ghost cur = board@;
    let mv = undo.mv;
    let player = undo.prev_side_to_move;
    let from = mv.from_sq();
    let to = mv.to_sq();
    let i = find_castle_index(player, from, to);
    proof {
        lemma_castle_consts(i as int);
    }
    let (rf, rt) = rook_squares(i);
    board.remove_piece(to);
    board.set_piece(from, Piece::new(PieceType::King, player));
    board.remove_piece(Square(rt));
    board.set_piece(Square(rf), Piece::new(PieceType::Rook, player));
    proof {
        assert(board@.squares =~= unmake_squares(cur, *undo));
        assert(board@.kings =~= unmake_kings(cur, *undo));
    }
}

fn unmake_en_passant(board: &mut Board, undo: &MoveUndo)
    requires
        old(board).wf(),
        unmake_ok(old(board)@, *undo),
        undo.mv.flag() == MoveFlags::EnPassant,
    ensures
        final(board).wf(),
        final(board)@ == (BoardState {
            squares: unmake_squares(old(board)@, *undo),
            kings: unmake_kings(old(board)@, *undo),
            zobrist: final(board)@.zobrist,
            ..old(board)@
        }),
        hash_drift(final(board)@) == hash_drift(old(board)@),
{
    proof {
        board.lemma_wf();
    }
    let ghost cur = board@;
    let mv = undo.mv;
    let player = undo.prev_side_to_move;
    let from = mv.from_sq();
    let to = mv.to_sq();
    board.remove_piece(to);
    board.set_piece(from, Piece::new(PieceType::Pawn, player));
    match undo.captured_piece {
        Some(captured) => {
            let ep_target = undo.prev_en_passant.unwrap();
            let pusher = undo.prev_ep_player.unwrap();
            let pawn_sq = find_ep_captured_pawn_sq(ep_target, pusher).unwrap();
            board.set_piece(pawn_sq, captured);
        },
        None => {},
    }
    proof {
        assert(board@.squares =~= unmake_squares(cur, *undo));
        assert(board@.kings =~= unmake_kings(cur, *undo));
    }
}

fn unmake_plain(board: &mut Board, undo: &MoveUndo)
    requires
        old(board).wf(),
        unmake_ok(old(board)@, *undo),
        undo.mv.flag() == MoveFlags::Normal || undo.mv.flag() == MoveFlags::DoublePush,
    ensures
        final(board).wf(),
        final(board)@ == (BoardState {
            squares: unmake_squares(old(board)@, *undo),
            kings: unmake_kings(old(board)@, *undo),
            zobrist: final(board)@.zobrist,
            ..old(board)@
        }),
        hash_drift(final(board)@) == hash_drift(old(board)@),
{
    proof {
        board.lemma_wf();
    }
    let ghost cur = board@;
    let mv = undo.mv;
    let player = undo.prev_side_to_move;
    let from = mv.from_sq();
    let to = mv.to_sq();
    let original_piece_type = mv.piece_type();
    board.remove_piece(to);
    board.set_piece(from, Piece::new(original_piece_type, player));
    let ghost k1 = board@.kings;
    assert(k1 =~= (if mv.moved() == PieceType::King {
        cur.kings.update(pidx(player), from.0)
    } else {
        cur.kings
    }));
    match undo.captured_piece {
        Some(captured) => {
            board.set_piece(to, captured);
            assert(board@.kings =~= (if captured.piece_type == PieceType::King {
                k1.update(pidx(captured.player), to.0)
            } else {
                k1
            }));
        },
        None => {},
    }
    proof {
        let ghost u = *undo;
        assert(mv.flag() != MoveFlags::EnPassant);
        assert(mv.flag() != MoveFlags::Castle);
        assert(board@.squares =~= unmake_squares(cur, *undo));
        assert(board@.kings =~= unmake_kings(cur, *undo));
    }
}

/// Unmake a move, restoring the squares, castling rights, en passant state
/// and side to move recorded in `undo`.
pub fn unmake_move(board: &mut Board, undo: &MoveUndo)
    requires
        old(board).wf(),
        unmake_ok(old(board)@, *undo),
    ensures
        final(board).wf(),
        final(board)@ == (BoardState { zobrist: final(board)@.zobrist, ..unmade(old(board)@, *undo) }),
        hash_drift(final(board)@) == hash_drift(old(board)@),
{
    match undo.mv.flags() {
        MoveFlags::Castle => unmake_castle(board, undo),
        MoveFlags::EnPassant => unmake_en_passant(board, undo),
        _ => unmake_plain(board, undo),
    }
    board.set_side_to_move(undo.prev_side_to_move);
    board.set_castling_rights(undo.prev_castling);
    board.set_en_passant(undo.prev_en_passant, undo.prev_ep_player);
}

// ─── Laws ───────────────────────────────────────────────────────────────────

/// Two states of the same position whose stored hashes drift equally from
/// the position's hash hold the same stored hash.
pub proof fn lemma_equal_drift_same_hash(a: BoardState, b: BoardState)
    requires
        a == (BoardState { zobrist: a.zobrist, ..b }),
        hash_drift(a) == hash_drift(b),
    ensures
        a == b,
{
    let za = a.zobrist;
    let zb = b.zobrist;
    let f = full_hash(b);
    assert(full_hash(a) == f);
    assert(za == zb) by (bit_vector)
        requires
            za ^ f == zb ^ f,
    ;
}

/// A king leaving its home square by a normal move gives up both of its
/// player's castling rights; a rook leaving its home square gives up the
/// right of that rook; castling gives up both rights. The other players'
/// rights are untouched by a move that captures no rook on its home square.
pub proof fn lemma_move_revokes_castling(st: BoardState, m: Move)
    requires
        0 <= pidx(st.stm) < 4,
    ensures
        m.flag() == MoveFlags::Normal && m.moved() == PieceType::King && m.from_idx() == king_home(pidx(st.stm))
            ==> made(st, m).castling & (3u8 << (2 * pidx(st.stm)) as u8) == 0,
        m.flag() == MoveFlags::Castle ==> made(st, m).castling & (3u8 << (2 * pidx(st.stm)) as u8) == 0,
        m.flag() == MoveFlags::Normal && m.moved() == PieceType::Rook && m.from_idx() == rook_home(2 * pidx(st.stm))
            && m.from_idx() != king_home(pidx(st.stm)) ==> made(st, m).castling & (1u8 << (2 * pidx(st.stm)) as u8) == 0,
        m.flag() == MoveFlags::Normal && m.moved() == PieceType::Rook && m.from_idx() == rook_home(2 * pidx(st.stm) + 1)
            && m.from_idx() != rook_home(2 * pidx(st.stm)) && m.from_idx() != king_home(pidx(st.stm))
            ==> made(st, m).castling & (1u8 << (2 * pidx(st.stm) + 1) as u8) == 0,
        forall|b: int|
            0 <= b < 8 && m.flag() == MoveFlags::Normal && m.captured_type() is Some && rook_bit(m.to_idx()) == b
                ==> #[trigger] (made(st, m).castling & (1u8 << b as u8)) == 0,
        forall|q: int|
            0 <= q < 4 && q != pidx(st.stm) && m.captured_type() is None ==> #[trigger] (made(st, m).castling & (3u8
                << (2 * q) as u8)) == st.castling & (3u8 << (2 * q) as u8),
        m.flag() == MoveFlags::Normal && m.captured_type() is None && m.moved() != PieceType::King && m.moved()
            != PieceType::Rook ==> made(st, m).castling == st.castling,
{
    let p = pidx(st.stm);
    let c = made(st, m).castling;
    let c0 = if m.captured_type() is Some {
        after_rook_capture(st.castling, m.to_idx())
    } else {
        st.castling
    };
    let sh = (2 * p) as u8;
    let sh1 = (2 * p + 1) as u8;
    assert(sh < 8 && sh1 < 8);
    assert(forall|x: u8, k: u8| k < 8 ==> #[trigger] ((x & !(3u8 << k)) & (3u8 << k)) == 0) by (bit_vector);
    assert(forall|x: u8, k: u8| k < 8 ==> #[trigger] ((x & !(1u8 << k)) & (1u8 << k)) == 0) by (bit_vector);
    assert(forall|x: u8, y: u8, z: u8| #[trigger] (x & z) == 0 ==> #[trigger] ((x & y) & z) == 0) by (bit_vector);
    assert(forall|x: u8, k: u8, j: u8|
        k < 8 && j < 4 && k != 2 * j && k != 2 * j + 1 ==> #[trigger] ((x & !(1u8 << k)) & (3u8 << (2 * j))) == x & (3u8 << (2
            * j))) by (bit_vector);
    assert(forall|x: u8, i: u8, j: u8|
        i < 4 && j < 4 && i != j ==> #[trigger] ((x & !(3u8 << (2 * i))) & (3u8 << (2 * j))) == x & (3u8 << (2 * j)))
        by (bit_vector);
    if m.flag() == MoveFlags::Normal && m.captured_type() is Some {
        let rb = rook_bit(m.to_idx());
        if 0 <= rb < 8 {
            let k = rb as u8;
            let c1 = clear_bit(st.castling, rb);
            assert((st.castling & !(1u8 << k)) & (1u8 << k) == 0);
            assert(c1 & (1u8 << k) == 0);
            assert(c0 == c1);
            let pt = m.moved();
            let from = m.from_idx();
            assert(c == after_piece_move(c0, p, pt, from));
            if pt == PieceType::King && from == king_home(p) {
                assert((c0 & !(3u8 << sh)) & (1u8 << k) == 0);
            } else if pt == PieceType::Rook && from == rook_home(2 * p) {
                assert((c0 & !(1u8 << sh)) & (1u8 << k) == 0);
            } else if pt == PieceType::Rook && from == rook_home(2 * p + 1) {
                assert((c0 & !(1u8 << sh1)) & (1u8 << k) == 0);
            }
        }
    }
    if m.captured_type() is None {
        assert(c0 == st.castling || m.flag() != MoveFlags::Normal);
        assert forall|q: int| 0 <= q < 4 && q != p implies #[trigger] (c & (3u8 << (2 * q) as u8)) == st.castling & (3u8
            << (2 * q) as u8) by {
            let jq = q as u8;
            let ip = p as u8;
            assert((2 * q) as u8 == 2 * jq);
            assert((2 * p) as u8 == 2 * ip);
            if m.flag() == MoveFlags::Castle {
                assert((st.castling & !(3u8 << (2 * ip))) & (3u8 << (2 * jq)) == st.castling & (3u8 << (2 * jq)));
            } else if m.flag() == MoveFlags::Normal {
                let pt = m.moved();
                let from = m.from_idx();
                if pt == PieceType::King && from == king_home(p) {
                    assert((st.castling & !(3u8 << (2 * ip))) & (3u8 << (2 * jq)) == st.castling & (3u8 << (2 * jq)));
                } else if pt == PieceType::Rook && from == rook_home(2 * p) {
                    assert((st.castling & !(1u8 << (2 * ip))) & (3u8 << (2 * jq)) == st.castling & (3u8 << (2 * jq)));
                } else if pt == PieceType::Rook && from == rook_home(2 * p + 1) {
                    assert((st.castling & !(1u8 << (2 * ip + 1))) & (3u8 << (2 * jq)) == st.castling & (3u8 << (2
                        * jq)));
                }
            }
        }
    }
    if m.flag() == MoveFlags::Castle {
        assert(c == clear_player(st.castling, p));
        assert((st.castling & !(3u8 << sh)) & (3u8 << sh) == 0);
    }
    if m.flag() == MoveFlags::Normal && m.moved() == PieceType::King && m.from_idx() == king_home(p) {
        assert(c == clear_player(c0, p));
        assert((c0 & !(3u8 << sh)) & (3u8 << sh) == 0);
    }
    if m.flag() == MoveFlags::Normal && m.moved() == PieceType::Rook && m.from_idx() == rook_home(2 * p)
        && m.from_idx() != king_home(p) {
        assert(c == clear_bit(c0, 2 * p));
        assert((c0 & !(1u8 << sh)) & (1u8 << sh) == 0);
    }
    if m.flag() == MoveFlags::Normal && m.moved() == PieceType::Rook && m.from_idx() == rook_home(2 * p + 1)
        && m.from_idx() != rook_home(2 * p) && m.from_idx() != king_home(p) {
        assert(c == clear_bit(c0, 2 * p + 1));
        assert((c0 & !(1u8 << sh1)) & (1u8 << sh1) == 0);
    }
}

/// What making a move does, read off its specification: the turn passes to
/// the next player; the moving side's piece (the promoted one for a
/// promotion, the king for castling) stands on the target square; an en
/// passant target is set only by a double push; the undo record keeps the
/// move and the position's castling rights, en passant state, hash and side
/// to move.
pub proof fn lemma_made_facts(st: BoardState, m: Move)
    requires
        shape_ok(st),
        applicable(st, m),
    ensures
        made(st, m).stm == crate::types::next_player(st.stm),
        m.flag() != MoveFlags::Castle ==> made(st, m).squares[m.to_idx()] == own(
            if m.flag() == MoveFlags::Normal {
                placed_type(m)
            } else {
                PieceType::Pawn
            },
            st.stm,
        ),
        made(st, m).ep is Some ==> m.flag() == MoveFlags::DoublePush,
        undo_of(st, m).mv == m,
        undo_of(st, m).prev_castling == st.castling,
        undo_of(st, m).prev_en_passant == st.ep,
        undo_of(st, m).prev_ep_player == st.ep_player,
        undo_of(st, m).prev_zobrist == st.zobrist,
        undo_of(st, m).prev_side_to_move == st.stm,
{
    let sqs = st.squares;
    let from = m.from_idx();
    let to = m.to_idx();
    match m.flag() {
        MoveFlags::EnPassant => {
            let a = sqs.update(ep_victim(st)->0, None);
            let b = a.update(from, None);
            assert(b.len() == 196);
            assert(b.update(to, own(PieceType::Pawn, st.stm))[to] == own(PieceType::Pawn, st.stm));
        },
        MoveFlags::DoublePush => {
            let b = sqs.update(from, None);
            assert(b.update(to, own(PieceType::Pawn, st.stm))[to] == own(PieceType::Pawn, st.stm));
        },
        MoveFlags::Normal => {
            let b = sqs.update(from, None);
            assert(b.update(to, own(placed_type(m), st.stm))[to] == own(placed_type(m), st.stm));
        },
        MoveFlags::Castle => {},
    }
}

/// Undoing a made move gives back the position exactly, stored hash
/// included: the record that `make_move` returns is one that `unmake_move`
/// accepts on the board `make_move` left, and the board it leaves is the
/// board before the move. It holds for every move the side to move can make
/// on a board whose king squares agree with its kings, except a promotion to
/// a king.
pub proof fn lemma_make_unmake(st: BoardState, m: Move, post: BoardState, fin: BoardState)
    requires
        shape_ok(st),
        kings_consistent(st),
        applicable(st, m),
        m.promotion_type() != Some(PieceType::King),
        post == (BoardState { zobrist: post.zobrist, ..made(st, m) }),
        hash_drift(post) == hash_drift(st),
        fin == (BoardState { zobrist: fin.zobrist, ..unmade(post, undo_of(st, m)) }),
        hash_drift(fin) == hash_drift(post),
    ensures
        unmake_ok(post, undo_of(st, m)),
        fin == st,
{
    lemma_make_unmake_squares(st, m);
    let u = undo_of(st, m);
    assert(fin == (BoardState { zobrist: fin.zobrist, ..st }));
    lemma_equal_drift_same_hash(fin, st);
}

/// Undoing a made move restores the squares; the king squares too where
/// they agreed with the kings on the board and the move is no promotion to
/// a king.
pub proof fn lemma_make_unmake_squares(st: BoardState, m: Move)
    requires
        shape_ok(st),
        applicable(st, m),
    ensures
        unmake_ok(made(st, m), undo_of(st, m)),
        unmake_squares(made(st, m), undo_of(st, m)) == st.squares,
        kings_consistent(st) && m.promotion_type() != Some(PieceType::King) ==> unmake_kings(
            made(st, m),
            undo_of(st, m),
        ) == st.kings,
{
    let post = made(st, m);
    let u = undo_of(st, m);
    let p = st.stm;
    let from = m.from_idx();
    let to = m.to_idx();
    assert(u.mv == m);
    match m.flag() {
        MoveFlags::Castle => {
            let i = castle_index(pidx(p), from, to);
            lemma_castle_consts(i);
            assert(unmake_squares(post, u) =~= st.squares);
            if kings_consistent(st) {
                assert(st.kings[pidx(p)] == from);
                assert(unmake_kings(post, u) =~= st.kings);
            }
        },
        MoveFlags::EnPassant => {
            let c = ep_victim(st)->0;
            assert(undo_victim(u) == ep_victim(st));
            assert(unmake_squares(post, u) =~= st.squares);
            if kings_consistent(st) {
                let cp = st.squares[c]->0;
                if cp.piece_type == PieceType::King {
                    assert(st.kings[pidx(cp.player)] == c);
                }
                assert(unmake_kings(post, u) =~= st.kings);
            }
        },
        MoveFlags::DoublePush => {
            assert(unmake_squares(post, u) =~= st.squares);
            assert(unmake_kings(post, u) =~= st.kings);
        },
        MoveFlags::Normal => {
            assert(unmake_squares(post, u) =~= st.squares);
            if kings_consistent(st) && m.promotion_type() != Some(PieceType::King) {
                if m.moved() == PieceType::King {
                    assert(st.kings[pidx(p)] == from);
                }
                if m.captured_type() is Some {
                    let cp = st.squares[to]->0;
                    if cp.piece_type == PieceType::King {
                        assert(st.kings[pidx(cp.player)] == to);
                    }
                }
                assert(unmake_kings(post, u) =~= st.kings);
            }
        },
    }
}

/// In the starting position each king stands on its king square.
pub proof fn lemma_start_kings_consistent(st: BoardState)
    requires
        forall|i: int| 0 <= i < 196 ==> #[trigger] st.squares[i] == crate::board::start_piece(i),
        st.kings == seq![7u8, 84u8, 188u8, 111u8],
    ensures
        kings_consistent(st),
{
    assert forall|s: int, p: int|
        #![trigger st.squares[s], st.kings[p]]
        0 <= s < 196 && 0 <= p < 4 && st.squares[s] == own(PieceType::King, player_at(p))
            implies st.kings[p] == s by {
        assert(st.squares[s] == crate::board::start_piece(s));
        let r = s / 14;
        let f = s % 14;
        assert(s == r * 14 + f);
    }
}

} // verus!
