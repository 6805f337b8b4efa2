//! Legal move generation: pseudo-legal moves that leave the mover's king
//! out of check.

use vstd::prelude::*;
use crate::attacks::{in_check, pawn_cap, unit_dir};
use crate::board::{Board, BoardState};
use crate::makemove::{
    applicable, castle_index, kings_consistent, lemma_equal_drift_same_hash,
    lemma_make_unmake_squares, made, make_move, own, shape_ok, undo_of, unmade, unmake_move,
};
use crate::movegen::{
    castle_def, castle_empty, castle_moves, castle_ok, ep_move, ep_ready, ep_victim,
    generate_pseudo_legal, lemma_castle_consts, list_moves, pawn_capture, pawn_moves, pawn_pushes,
    piece_moves, promo_piece, promotions, pseudo_moves, push_dir, ray_moves, slider_moves,
    sq_at, step_moves, family_dir,
};
use crate::moves::{lemma_mk_fields, mk_capture, mk_castle, mk_double, mk_ep, mk_new, mk_promotion, Move};
use crate::board::list_sync;
use crate::types::{lemma_player_cycle, pidx, player_at, valid_index, valid_rf, Piece, PieceType, Player, Square};

verus! {

// ─── Which moves can be made ────────────────────────────────────────────────

/// `m` can be made on `st` and undone exactly: it is applicable and no
/// promotion to a king.
pub open spec fn makeable(st: BoardState, m: Move) -> bool {
    applicable(st, m) && m.promotion_type() != Some(PieceType::King)
}

/// Every move of `s` can be made on `st`.
pub open spec fn all_makeable(st: BoardState, s: Seq<Move>) -> bool {
    forall|i: int| 0 <= i < s.len() ==> makeable(st, #[trigger] s[i])
}

proof fn lemma_all_concat(st: BoardState, a: Seq<Move>, b: Seq<Move>)
    requires
        all_makeable(st, a),
        all_makeable(st, b),
    ensures
        all_makeable(st, a + b),
{
    assert forall|i: int| 0 <= i < (a + b).len() implies makeable(st, #[trigger] (a + b)[i]) by {
        if i < a.len() {
            assert((a + b)[i] == a[i]);
        } else {
            assert((a + b)[i] == b[i - a.len()]);
        }
    }
}

proof fn lemma_all_single(st: BoardState, m: Move)
    requires
        makeable(st, m),
    ensures
        all_makeable(st, seq![m]),
{
    assert(seq![m][0] == m);
}

proof fn lemma_sq_at(r: int, f: int)
    ensures
        sq_at(r, f) matches Some(t) ==> 0 <= t < 196 && valid_index(t) && t / 14 == r && t % 14
            == f,
{
    if valid_rf(r, f) {
        let t = r * 14 + f;
        assert(t / 14 == r && t % 14 == f);
    }
}

/// A piece of the side to move stands on `s`, and it is of type `pt`.
pub open spec fn mover_at(st: BoardState, s: int, pt: PieceType) -> bool {
    &&& shape_ok(st)
    &&& 0 <= s < 196
    &&& st.squares[s] == own(pt, st.stm)
}

proof fn lemma_step_target(st: BoardState, s: int, pt: PieceType, t: int)
    requires
        mover_at(st, s, pt),
        0 <= t < 196,
        valid_index(t),
    ensures
        st.squares[t] is None ==> makeable(st, mk_new(s, t, pt)),
        st.squares[t] is Some && pidx(st.squares[t]->0.player) != pidx(st.stm) ==> makeable(
            st,
            mk_capture(s, t, pt, st.squares[t]->0.piece_type),
        ),
{
    lemma_mk_fields(s, t);
    assert(mk_new(s, t, pt).has_fields(s, t, pt, None, None, crate::moves::MoveFlags::Normal));
    if st.squares[t] is Some {
        let q = st.squares[t]->0;
        assert(mk_capture(s, t, pt, q.piece_type).has_fields(
            s,
            t,
            pt,
            Some(q.piece_type),
            None,
            crate::moves::MoveFlags::Normal,
        ));
    }
}

proof fn lemma_promotions(st: BoardState, s: int, t: int, cap: Option<PieceType>)
    requires
        mover_at(st, s, PieceType::Pawn),
        0 <= t < 196,
        valid_index(t),
        cap is None ==> st.squares[t] is None,
        cap is Some ==> (st.squares[t] is Some && pidx(st.squares[t]->0.player) != pidx(st.stm)),
    ensures
        all_makeable(st, promotions(s, t, cap)),
{
    lemma_mk_fields(s, t);
    let ms = promotions(s, t, cap);
    assert forall|i: int| 0 <= i < ms.len() implies makeable(st, #[trigger] ms[i]) by {
        assert(ms[i] == mk_promotion(s, t, cap, promo_piece(i)));
        assert(mk_promotion(s, t, cap, promo_piece(i)).has_fields(
            s,
            t,
            PieceType::Pawn,
            cap,
            Some(promo_piece(i)),
            crate::moves::MoveFlags::Normal,
        ));
    }
}

proof fn lemma_pawn_pushes(st: BoardState, s: int)
    requires
        mover_at(st, s, PieceType::Pawn),
    ensures
        all_makeable(st, pawn_pushes(st.squares, pidx(st.stm), s)),
{
    let p = pidx(st.stm);
    let (dr, df) = push_dir(p);
    lemma_sq_at(s / 14 + dr, s % 14 + df);
    lemma_sq_at(s / 14 + 2 * dr, s % 14 + 2 * df);
    match sq_at(s / 14 + dr, s % 14 + df) {
        Some(t) => {
            if st.squares[t] is None {
                if crate::movegen::promo_square(t, p) {
                    lemma_promotions(st, s, t, None);
                } else {
                    lemma_step_target(st, s, PieceType::Pawn, t);
                    lemma_all_single(st, mk_new(s, t, PieceType::Pawn));
                    match sq_at(s / 14 + 2 * dr, s % 14 + 2 * df) {
                        Some(t2) => {
                            if crate::movegen::pawn_start(s, p) && st.squares[t2] is None {
                                lemma_mk_fields(s, t2);
                                assert(mk_double(s, t2).has_fields(
                                    s,
                                    t2,
                                    PieceType::Pawn,
                                    None,
                                    None,
                                    crate::moves::MoveFlags::DoublePush,
                                ));
                                assert(makeable(st, mk_double(s, t2)));
                                lemma_all_single(st, mk_double(s, t2));
                                lemma_all_concat(
                                    st,
                                    seq![mk_new(s, t, PieceType::Pawn)],
                                    seq![mk_double(s, t2)],
                                );
                            } else {
                                assert(seq![mk_new(s, t, PieceType::Pawn)] + Seq::<Move>::empty()
                                    =~= seq![mk_new(s, t, PieceType::Pawn)]);
                            }
                        },
                        None => {
                            assert(seq![mk_new(s, t, PieceType::Pawn)] + Seq::<Move>::empty()
                                =~= seq![mk_new(s, t, PieceType::Pawn)]);
                        },
                    }
                }
            }
        },
        None => {},
    }
}

proof fn lemma_pawn_capture(st: BoardState, s: int, k: int)
    requires
        mover_at(st, s, PieceType::Pawn),
    ensures
        all_makeable(st, pawn_capture(st.squares, pidx(st.stm), s, k)),
{
    let p = pidx(st.stm);
    let (dr, df) = pawn_cap(p, k);
    lemma_sq_at(s / 14 + dr, s % 14 + df);
    match sq_at(s / 14 + dr, s % 14 + df) {
        Some(t) => {
            match st.squares[t] {
                Some(q) => {
                    if pidx(q.player) != p {
                        if crate::movegen::promo_square(t, p) {
                            lemma_promotions(st, s, t, Some(q.piece_type));
                        } else {
                            lemma_step_target(st, s, PieceType::Pawn, t);
                            lemma_all_single(st, mk_capture(s, t, PieceType::Pawn, q.piece_type));
                        }
                    }
                },
                None => {},
            }
        },
        None => {},
    }
}

proof fn lemma_pawn_moves(st: BoardState, s: int)
    requires
        mover_at(st, s, PieceType::Pawn),
    ensures
        all_makeable(st, pawn_moves(st.squares, pidx(st.stm), s)),
{
    let p = pidx(st.stm);
    lemma_pawn_pushes(st, s);
    lemma_pawn_capture(st, s, 0);
    lemma_pawn_capture(st, s, 1);
    lemma_all_concat(st, pawn_pushes(st.squares, p, s), pawn_capture(st.squares, p, s, 0));
    lemma_all_concat(
        st,
        pawn_pushes(st.squares, p, s) + pawn_capture(st.squares, p, s, 0),
        pawn_capture(st.squares, p, s, 1),
    );
}

proof fn lemma_step_moves(st: BoardState, s: int, pt: PieceType, n: int)
    requires
        mover_at(st, s, pt),
    ensures
        all_makeable(st, step_moves(st.squares, pidx(st.stm), s, pt, n)),
    decreases n,
{
    if n > 0 {
        let p = pidx(st.stm);
        lemma_step_moves(st, s, pt, n - 1);
        let (dr, df) = if pt == PieceType::Knight {
            crate::attacks::knight_off(n - 1)
        } else {
            crate::attacks::any_dir(n - 1)
        };
        lemma_sq_at(s / 14 + dr, s % 14 + df);
        let tail: Seq<Move> = match sq_at(s / 14 + dr, s % 14 + df) {
            Some(t) => match st.squares[t] {
                None => seq![mk_new(s, t, pt)],
                Some(q) => if pidx(q.player) != p {
                    seq![mk_capture(s, t, pt, q.piece_type)]
                } else {
                    Seq::empty()
                },
            },
            None => Seq::empty(),
        };
        match sq_at(s / 14 + dr, s % 14 + df) {
            Some(t) => {
                lemma_step_target(st, s, pt, t);
                match st.squares[t] {
                    None => lemma_all_single(st, mk_new(s, t, pt)),
                    Some(q) => if pidx(q.player) != p {
                        lemma_all_single(st, mk_capture(s, t, pt, q.piece_type));
                    },
                }
            },
            None => {},
        }
        lemma_all_concat(st, step_moves(st.squares, p, s, pt, n - 1), tail);
    }
}

proof fn lemma_ray_moves(st: BoardState, s: int, pt: PieceType, r: int, f: int, dr: int, df: int)
    requires
        mover_at(st, s, pt),
    ensures
        all_makeable(st, ray_moves(st.squares, pidx(st.stm), s, pt, r, f, dr, df)),
    decreases crate::attacks::ray_measure(r, f, dr, df),
{
    let p = pidx(st.stm);
    if unit_dir(dr, df) {
        lemma_sq_at(r, f);
        match sq_at(r, f) {
            None => {},
            Some(t) => {
                lemma_step_target(st, s, pt, t);
                match st.squares[t] {
                    None => {
                        lemma_ray_moves(st, s, pt, r + dr, f + df, dr, df);
                        lemma_all_single(st, mk_new(s, t, pt));
                        lemma_all_concat(
                            st,
                            seq![mk_new(s, t, pt)],
                            ray_moves(st.squares, p, s, pt, r + dr, f + df, dr, df),
                        );
                    },
                    Some(q) => if pidx(q.player) != p {
                        lemma_all_single(st, mk_capture(s, t, pt, q.piece_type));
                    },
                }
            },
        }
    }
}

proof fn lemma_slider_moves(st: BoardState, s: int, pt: PieceType, fam: int, n: int)
    requires
        mover_at(st, s, pt),
    ensures
        all_makeable(st, slider_moves(st.squares, pidx(st.stm), s, pt, fam, n)),
    decreases n,
{
    if n > 0 {
        let p = pidx(st.stm);
        let (dr, df) = family_dir(fam, n - 1);
        lemma_slider_moves(st, s, pt, fam, n - 1);
        lemma_ray_moves(st, s, pt, s / 14 + dr, s % 14 + df, dr, df);
        lemma_all_concat(
            st,
            slider_moves(st.squares, p, s, pt, fam, n - 1),
            ray_moves(st.squares, p, s, pt, s / 14 + dr, s % 14 + df, dr, df),
        );
    }
}

proof fn lemma_piece_moves(st: BoardState, s: int, pt: PieceType)
    requires
        mover_at(st, s, pt),
    ensures
        all_makeable(st, piece_moves(st.squares, pidx(st.stm), s, pt)),
{
    match pt {
        PieceType::Pawn => lemma_pawn_moves(st, s),
        PieceType::Knight => lemma_step_moves(st, s, pt, 8),
        PieceType::Bishop => lemma_slider_moves(st, s, pt, 0, 4),
        PieceType::Rook => lemma_slider_moves(st, s, pt, 1, 4),
        PieceType::Queen => lemma_slider_moves(st, s, pt, 2, 8),
        PieceType::PromotedQueen => lemma_slider_moves(st, s, pt, 2, 8),
        PieceType::King => lemma_step_moves(st, s, pt, 8),
    }
}

proof fn lemma_list_moves(st: BoardState, l: Seq<(PieceType, crate::types::Square)>, n: int)
    requires
        shape_ok(st),
        list_sync(l, st.squares, pidx(st.stm)),
        n <= l.len(),
    ensures
        all_makeable(st, list_moves(st.squares, pidx(st.stm), l, n)),
    decreases n,
{
    if n > 0 {
        let p = pidx(st.stm);
        lemma_list_moves(st, l, n - 1);
        lemma_player_cycle(st.stm);
        let e = l[n - 1];
        assert(e.1.0 < 196);
        assert(st.squares[e.1.0 as int] == own(e.0, st.stm));
        lemma_piece_moves(st, e.1.0 as int, e.0);
        lemma_all_concat(
            st,
            list_moves(st.squares, p, l, n - 1),
            piece_moves(st.squares, p, e.1.0 as int, e.0),
        );
    }
}

proof fn lemma_castle_one(st: BoardState, i: int)
    requires
        shape_ok(st),
        0 <= i < 8,
        castle_ok(st, pidx(st.stm), i),
    ensures
        makeable(st, mk_castle(castle_def(i).2, castle_def(i).3)),
{
    lemma_castle_consts(i);
    lemma_player_cycle(st.stm);
    let (pl, bit, kf, kt, rf, rt) = castle_def(i);
    lemma_mk_fields(kf, kt);
    assert(castle_index(pl, kf, kt) == i) by {
        if i == 0 {
        } else if i == 1 {
        } else if i == 2 {
        } else if i == 3 {
        } else if i == 4 {
        } else if i == 5 {
        } else if i == 6 {
        } else {
        }
    }
    let e = castle_empty(i);
    let j3 = choose|j: int| 0 <= j < e.len() && e[j] == kt;
    let j5 = choose|j: int| 0 <= j < e.len() && e[j] == rt;
    assert(st.squares[e[j3]] is None);
    assert(st.squares[e[j5]] is None);
    assert(mk_castle(kf, kt).has_fields(kf, kt, PieceType::King, None, None, crate::moves::MoveFlags::Castle));
}

proof fn lemma_castle_moves(st: BoardState, n: int)
    requires
        shape_ok(st),
        n <= 8,
    ensures
        all_makeable(st, castle_moves(st, pidx(st.stm), n)),
    decreases n,
{
    if n > 0 {
        let p = pidx(st.stm);
        lemma_castle_moves(st, n - 1);
        let (pl, bit, kf, kt, rf, rt) = castle_def(n - 1);
        if castle_ok(st, p, n - 1) {
            lemma_castle_one(st, n - 1);
            lemma_all_single(st, mk_castle(kf, kt));
            lemma_all_concat(st, castle_moves(st, p, n - 1), seq![mk_castle(kf, kt)]);
        } else {
            assert(castle_moves(st, p, n - 1) + Seq::<Move>::empty() =~= castle_moves(st, p, n - 1));
        }
    }
}

proof fn lemma_ep_move(st: BoardState, k: int)
    requires
        shape_ok(st),
        k == 0 || k == 1,
    ensures
        all_makeable(st, ep_move(st, pidx(st.stm), k)),
{
    let p = pidx(st.stm);
    lemma_player_cycle(st.stm);
    match st.ep {
        Some(e) => {
            let (dr, df) = pawn_cap(p, k);
            lemma_sq_at(e.0 / 14 - dr, e.0 % 14 - df);
            match sq_at(e.0 / 14 - dr, e.0 % 14 - df) {
                Some(s) => {
                    if ep_ready(st) && st.squares[s] == Some(
                        Piece { piece_type: PieceType::Pawn, player: player_at(p) },
                    ) {
                        let to = e.0 as int;
                        lemma_mk_fields(s, to);
                        let m = mk_ep(s, to);
                        assert(m.has_fields(
                            s,
                            to,
                            PieceType::Pawn,
                            Some(PieceType::Pawn),
                            None,
                            crate::moves::MoveFlags::EnPassant,
                        ));
                        let pp = st.ep_player->0;
                        let (pr, pf) = push_dir(pidx(pp));
                        lemma_sq_at(e.0 / 14 + pr, e.0 % 14 + pf);
                        let c = ep_victim(st)->0;
                        assert(c != s);
                        assert(makeable(st, m));
                        lemma_all_single(st, m);
                    }
                },
                None => {},
            }
        },
        None => {},
    }
}

/// Every pseudo-legal move of a well-formed board can be made on it.
pub proof fn lemma_pseudo_makeable(b: Board)
    requires
        b.wf(),
    ensures
        all_makeable(b@, pseudo_moves(b)),
{
    b.lemma_wf();
    let st = b@;
    let p = pidx(st.stm);
    let l = b.pieces_view(p);
    lemma_list_moves(st, l, l.len() as int);
    lemma_castle_moves(st, 8);
    lemma_ep_move(st, 0);
    lemma_ep_move(st, 1);
    lemma_all_concat(st, list_moves(st.squares, p, l, l.len() as int), castle_moves(st, p, 8));
    lemma_all_concat(
        st,
        list_moves(st.squares, p, l, l.len() as int) + castle_moves(st, p, 8),
        ep_move(st, p, 0),
    );
    lemma_all_concat(
        st,
        list_moves(st.squares, p, l, l.len() as int) + castle_moves(st, p, 8) + ep_move(st, p, 0),
        ep_move(st, p, 1),
    );
}

/// A made move keeps the king squares in agreement with the kings.
pub proof fn lemma_made_consistent(st: BoardState, m: Move)
    requires
        shape_ok(st),
        kings_consistent(st),
        makeable(st, m),
    ensures
        kings_consistent(made(st, m)),
{
    let n = made(st, m);
    let p = st.stm;
    let from = m.from_idx();
    let to = m.to_idx();
    assert forall|s: int, q: int|
        0 <= s < 196 && 0 <= q < 4 && #[trigger] n.squares[s] == own(PieceType::King, player_at(q))
            implies #[trigger] n.kings[q] == s by {
        match m.flag() {
            crate::moves::MoveFlags::Castle => {
                let i = castle_index(pidx(p), from, to);
                lemma_castle_consts(i);
                lemma_player_cycle(p);
                if s != to {
                    assert(st.squares[s] == own(PieceType::King, player_at(q)));
                    assert(st.kings[q] == s);
                    if q == pidx(p) {
                        assert(st.kings[q] == from);
                    }
                }
            },
            crate::moves::MoveFlags::Normal => {
                lemma_player_cycle(p);
                if s != to {
                    assert(st.squares[s] == own(PieceType::King, player_at(q)));
                    assert(st.kings[q] == s);
                    if q == pidx(p) && crate::makemove::placed_type(m) == PieceType::King {
                        assert(st.kings[q] == from);
                    }
                }
            },
            crate::moves::MoveFlags::EnPassant => {
                assert(st.squares[s] == own(PieceType::King, player_at(q)));
            },
            crate::moves::MoveFlags::DoublePush => {
                assert(st.squares[s] == own(PieceType::King, player_at(q)));
            },
        }
    }
}

// ─── Legal moves ────────────────────────────────────────────────────────────

/// Making `m` on `st` leaves the mover's king out of check.
pub open spec fn keeps_king_safe(st: BoardState, m: Move) -> bool {
    !in_check(made(st, m), pidx(st.stm))
}

/// The test that keeps a move among the legal ones.
pub open spec fn safe_in(st: BoardState) -> spec_fn(Move) -> bool {
    |m: Move| keeps_king_safe(st, m)
}

/// The legal moves of a board: its pseudo-legal moves, in generation order,
/// that leave the mover's king out of check.
pub open spec fn legal_moves(b: Board) -> Seq<Move> {
    legal_in(b, b@)
}

/// The legal moves of position `st` with the piece lists of `b`.
pub open spec fn legal_in(b: Board, st: BoardState) -> Seq<Move> {
    crate::movegen::pseudo_in(b, st).filter(safe_in(st))
}

/// Make and unmake `m`, reporting whether the mover's king was in check in
/// between. The board comes back as it was but for the king squares, which
/// also come back where they agreed with the kings on the board.
fn leaves_king_in_check(board: &mut Board, m: Move, Ghost(st): Ghost<BoardState>) -> (r: bool)
    requires
        old(board).wf(),
        old(board)@ == (BoardState { kings: old(board)@.kings, ..st }),
        kings_consistent(st) ==> old(board)@ == st,
        makeable(st, m),
    ensures
        final(board).wf(),
        final(board)@ == (BoardState { kings: final(board)@.kings, ..st }),
        kings_consistent(st) ==> final(board)@ == st && r == !keeps_king_safe(st, m),
{
    let ghost cur = board@;
    proof {
        board.lemma_wf();
        assert(applicable(cur, m));
        lemma_make_unmake_squares(cur, m);
    }
    let player = board.side_to_move();
    let undo = make_move(board, m);
    let ghost post = board@;
    let r = board.is_in_check(player);
    proof {
        assert(crate::makemove::unmake_ok(post, undo));
    }
    unmake_move(board, &undo);
    proof {
        let fin = board@;
        let b = BoardState { kings: fin.kings, ..cur };
        assert(fin == (BoardState { zobrist: fin.zobrist, ..b }));
        assert(crate::board::full_hash(b) == crate::board::full_hash(cur));
        lemma_equal_drift_same_hash(fin, b);
        if kings_consistent(st) {
            assert(cur == st);
            assert(in_check(post, pidx(player)) == in_check(made(st, m), pidx(st.stm)));
        }
    }
    r
}

/// Generate all legal moves for the side to move.
///
/// The board is left as it was, except that a king square that disagreed
/// with the king on the board may have been corrected.
pub fn generate_legal_moves(board: &mut Board) -> (moves: Vec<Move>)
    requires
        old(board).wf(),
    ensures
        final(board).wf(),
        final(board)@ == (BoardState { kings: final(board)@.kings, ..old(board)@ }),
        all_makeable(old(board)@, moves@),
        kings_consistent(old(board)@) ==> final(board)@ == old(board)@ && moves@ == legal_moves(
            *old(board),
        ),
{
    let ghost b0 = *board;
    let ghost st = board@;
    let pseudo = generate_pseudo_legal(board);
    proof {
        lemma_pseudo_makeable(b0);
    }
    let mut legal: Vec<Move> = Vec::new();
    let mut i: usize = 0;
    while i < pseudo.len()
        invariant
            board.wf(),
            board@ == (BoardState { kings: board@.kings, ..st }),
            kings_consistent(st) ==> board@ == st,
            st == b0@,
            pseudo@ == pseudo_moves(b0),
            all_makeable(st, pseudo@),
            i <= pseudo@.len(),
            all_makeable(st, legal@),
            kings_consistent(st) ==> legal@ == pseudo@.take(i as int).filter(safe_in(st)),
        decreases pseudo@.len() - i,
    {
        let m = pseudo[i];
        proof {
            assert(makeable(st, pseudo@[i as int]));
        }
        let in_check = leaves_king_in_check(board, m, Ghost(st));
        if !in_check {
            legal.push(m);
        }
        proof {
            assert forall|j: int| 0 <= j < legal@.len() implies makeable(st, #[trigger] legal@[j]) by {
                if j < legal@.len() - 1 || in_check {
                } else {
                    assert(legal@[j] == m);
                }
            }
            assert(pseudo@.take(i + 1) =~= pseudo@.take(i as int).push(m));
            pseudo@.take(i as int).lemma_filter_push(m, safe_in(st));
        }
        i += 1;
    }
    proof {
        assert(pseudo@.take(pseudo@.len() as int) =~= pseudo@);
    }
    legal
}

/// Generate the legal moves onto the end of a buffer.
pub fn generate_legal_into(board: &mut Board, moves: &mut Vec<Move>)
    requires
        old(board).wf(),
    ensures
        final(board).wf(),
        final(board)@ == (BoardState { kings: final(board)@.kings, ..old(board)@ }),
        kings_consistent(old(board)@) ==> final(board)@ == old(board)@ && final(moves)@ == old(
            moves,
        )@ + legal_moves(*old(board)),
{
    let mut result = generate_legal_moves(board);
    moves.append(&mut result);
}

/// The move captures a piece.
pub open spec fn is_capture_move(m: Move) -> bool {
    m.captured_type() is Some
}

/// Generate the legal captures for the side to move, in the order of the
/// legal moves.
pub fn generate_captures_only(board: &mut Board) -> (captures: Vec<Move>)
    requires
        old(board).wf(),
    ensures
        final(board).wf(),
        final(board)@ == (BoardState { kings: final(board)@.kings, ..old(board)@ }),
        all_makeable(old(board)@, captures@),
        forall|i: int| 0 <= i < captures@.len() ==> is_capture_move(#[trigger] captures@[i]),
        kings_consistent(old(board)@) ==> final(board)@ == old(board)@ && captures@ == legal_moves(
            *old(board),
        ).filter(|m: Move| is_capture_move(m)),
{
    let ghost st = board@;
    let legal = generate_legal_moves(board);
    let ghost lm = legal@;
    let mut out: Vec<Move> = Vec::new();
    let mut i: usize = 0;
    while i < legal.len()
        invariant
            i <= legal@.len(),
            lm == legal@,
            all_makeable(st, lm),
            all_makeable(st, out@),
            forall|j: int| 0 <= j < out@.len() ==> is_capture_move(#[trigger] out@[j]),
            out@ == lm.take(i as int).filter(|m: Move| is_capture_move(m)),
        decreases legal@.len() - i,
    {
        let m = legal[i];
        proof {
            assert(makeable(st, lm[i as int]));
            assert(lm.take(i + 1) =~= lm.take(i as int).push(m));
            lm.take(i as int).lemma_filter_push(m, |m: Move| is_capture_move(m));
        }
        if m.is_capture() {
            out.push(m);
        }
        proof {
            assert forall|j: int| 0 <= j < out@.len() implies makeable(st, #[trigger] out@[j]) && is_capture_move(out@[j]) by {
                if j < out@.len() - 1 || !is_capture_move(m) {
                } else {
                    assert(out@[j] == m);
                }
            }
        }
        i += 1;
    }
    proof {
        assert(lm.take(lm.len() as int) =~= lm);
    }
    out
}

// ─── Counting the move tree ─────────────────────────────────────────────────

/// Sum of `f` over the elements of `s`.
pub open spec fn sum_over<A>(s: Seq<A>, f: spec_fn(A) -> nat) -> nat
    decreases s.len(),
{
    if s.len() == 0 {
        0
    } else {
        sum_over(s.drop_last(), f) + f(s.last())
    }
}

/// The pieces of player index `p` on the squares below `n`, square by square.
pub open spec fn canon_list(sqs: Seq<Option<Piece>>, p: int, n: int) -> Seq<(PieceType, Square)>
    decreases n,
{
    if n <= 0 {
        Seq::empty()
    } else {
        canon_list(sqs, p, n - 1) + if sqs[n - 1] is Some && pidx(sqs[n - 1]->0.player) == p {
            seq![(sqs[n - 1]->0.piece_type, Square((n - 1) as u8))]
        } else {
            Seq::empty()
        }
    }
}

/// The legal moves of `st`, with the mover's pieces taken square by square.
/// Whatever the order of a board's piece lists, its legal moves are these
/// moves in some order.
pub open spec fn canon_legal(st: BoardState) -> Seq<Move> {
    let p = pidx(st.stm);
    let c = canon_list(st.squares, p, 196);
    (list_moves(st.squares, p, c, c.len() as int) + castle_moves(st, p, 8) + ep_move(st, p, 0)
        + ep_move(st, p, 1)).filter(safe_in(st))
}

/// The number of leaf nodes of the legal move tree of the given depth from
/// `st`.
pub open spec fn perft_count(st: BoardState, depth: nat) -> nat
    decreases depth, 1int, 0int,
{
    if depth == 0 {
        1
    } else {
        perft_sum(st, canon_legal(st), depth)
    }
}

/// The leaf counts of the subtrees of depth `depth - 1` below the moves
/// `ms` of `st`, added up.
pub open spec fn perft_sum(st: BoardState, ms: Seq<Move>, depth: nat) -> nat
    decreases depth, 0int, ms.len(),
{
    if ms.len() == 0 || depth == 0 {
        0
    } else {
        perft_sum(st, ms.drop_last(), depth) + perft_count(made(st, ms.last()), (depth - 1) as nat)
    }
}

/// The leaf count of the subtree of depth `depth - 1` below each move of
/// `st`.
pub open spec fn subtree_count(st: BoardState, depth: nat) -> spec_fn(Move) -> nat {
    |m: Move| perft_count(made(st, m), (depth - 1) as nat)
}

proof fn lemma_perft_sum(st: BoardState, ms: Seq<Move>, depth: nat)
    requires
        depth > 0,
    ensures
        perft_sum(st, ms, depth) == sum_over(ms, subtree_count(st, depth)),
    decreases ms.len(),
{
    if ms.len() > 0 {
        lemma_perft_sum(st, ms.drop_last(), depth);
    }
}

proof fn lemma_sum_add<A>(a: Seq<A>, b: Seq<A>, f: spec_fn(A) -> nat)
    ensures
        sum_over(a + b, f) == sum_over(a, f) + sum_over(b, f),
    decreases b.len(),
{
    if b.len() == 0 {
        assert(a + b =~= a);
    } else {
        assert((a + b).drop_last() =~= a + b.drop_last());
        lemma_sum_add(a, b.drop_last(), f);
    }
}

proof fn lemma_sum_remove<A>(s: Seq<A>, k: int, f: spec_fn(A) -> nat)
    requires
        0 <= k < s.len(),
    ensures
        sum_over(s, f) == sum_over(s.remove(k), f) + f(s[k]),
    decreases s.len(),
{
    if k == s.len() - 1 {
        assert(s.remove(k) =~= s.drop_last());
    } else {
        lemma_sum_remove(s.drop_last(), k, f);
        assert(s.remove(k).drop_last() =~= s.drop_last().remove(k));
    }
}

proof fn lemma_sum_perm<A>(a: Seq<A>, b: Seq<A>, f: spec_fn(A) -> nat)
    requires
        a.no_duplicates(),
        b.no_duplicates(),
        forall|x: A| a.contains(x) <==> b.contains(x),
    ensures
        sum_over(a, f) == sum_over(b, f),
    decreases a.len(),
{
    if a.len() == 0 {
        if b.len() > 0 {
            assert(b.contains(b[0]));
        }
    } else {
        let x = a.last();
        assert(a.contains(x));
        let k = choose|k: int| 0 <= k < b.len() && b[k] == x;
        let a2 = a.drop_last();
        let b2 = b.remove(k);
        assert forall|y: A| a2.contains(y) <==> b2.contains(y) by {
            if a2.contains(y) {
                let i = choose|i: int| 0 <= i < a2.len() && a2[i] == y;
                assert(a[i] == y);
                assert(y != x);
                assert(a.contains(y));
                let j = choose|j: int| 0 <= j < b.len() && b[j] == y;
                assert(j != k);
                if j < k {
                    assert(b2[j] == y);
                } else {
                    assert(b2[j - 1] == y);
                }
            }
            if b2.contains(y) {
                let j = choose|j: int| 0 <= j < b2.len() && b2[j] == y;
                if j < k {
                    assert(b[j] == y);
                    assert(j != k);
                } else {
                    assert(b[j + 1] == y);
                }
                assert(y != x);
                assert(b.contains(y));
                let i = choose|i: int| 0 <= i < a.len() && a[i] == y;
                assert(i != a.len() - 1);
                assert(a2[i] == y);
            }
        }
        lemma_sum_remove(b, k, f);
        lemma_sum_perm(a2, b2, f);
    }
}

proof fn lemma_sum_prefix<A>(s: Seq<A>, i: int, f: spec_fn(A) -> nat)
    requires
        0 <= i < s.len(),
    ensures
        sum_over(s.take(i + 1), f) == sum_over(s.take(i), f) + f(s[i]),
        sum_over(s.take(i + 1), f) <= sum_over(s, f),
    decreases s.len() - i,
{
    assert(s.take(i + 1).drop_last() =~= s.take(i));
    if i + 1 == s.len() {
        assert(s.take(i + 1) =~= s);
    } else {
        lemma_sum_prefix(s, i + 1, f);
    }
}

proof fn lemma_sum_ones<A>(s: Seq<A>, f: spec_fn(A) -> nat)
    requires
        forall|x: A| #[trigger] f(x) == 1,
    ensures
        sum_over(s, f) == s.len(),
    decreases s.len(),
{
    if s.len() > 0 {
        lemma_sum_ones(s.drop_last(), f);
    }
}

proof fn lemma_sum_filter_add(a: Seq<Move>, b: Seq<Move>, p: spec_fn(Move) -> bool, f: spec_fn(Move) -> nat)
    ensures
        sum_over((a + b).filter(p), f) == sum_over(a.filter(p), f) + sum_over(b.filter(p), f),
{
    Seq::filter_distributes_over_add(a, b, p);
    lemma_sum_add(a.filter(p), b.filter(p), f);
}

/// What the moves of one listed piece add up to.
spec fn piece_sum(
    sqs: Seq<Option<Piece>>,
    p: int,
    keep: spec_fn(Move) -> bool,
    f: spec_fn(Move) -> nat,
) -> spec_fn((PieceType, Square)) -> nat {
    |e: (PieceType, Square)| sum_over(piece_moves(sqs, p, e.1.0 as int, e.0).filter(keep), f)
}

proof fn lemma_list_sum(
    sqs: Seq<Option<Piece>>,
    p: int,
    l: Seq<(PieceType, Square)>,
    n: int,
    keep: spec_fn(Move) -> bool,
    f: spec_fn(Move) -> nat,
)
    requires
        0 <= n <= l.len(),
    ensures
        sum_over(list_moves(sqs, p, l, n).filter(keep), f) == sum_over(l.take(n), piece_sum(sqs, p, keep, f)),
    decreases n,
{
    if n == 0 {
        assert(l.take(0) =~= Seq::<(PieceType, Square)>::empty());
        assert(list_moves(sqs, p, l, 0).filter(keep) =~= Seq::<Move>::empty());
    } else {
        lemma_list_sum(sqs, p, l, n - 1, keep, f);
        lemma_sum_filter_add(
            list_moves(sqs, p, l, n - 1),
            piece_moves(sqs, p, l[n - 1].1.0 as int, l[n - 1].0),
            keep,
            f,
        );
        assert(l.take(n).drop_last() =~= l.take(n - 1));
    }
}

proof fn lemma_canon_list(sqs: Seq<Option<Piece>>, p: int, n: int)
    requires
        0 <= n <= 196,
    ensures
        canon_list(sqs, p, n).no_duplicates(),
        forall|e: (PieceType, Square)| #[trigger] canon_list(sqs, p, n).contains(e) <==> (e.1.0 < n
            && sqs[e.1.0 as int] is Some && pidx(sqs[e.1.0 as int]->0.player) == p && e.0
            == sqs[e.1.0 as int]->0.piece_type),
    decreases n,
{
    if n > 0 {
        lemma_canon_list(sqs, p, n - 1);
        let a = canon_list(sqs, p, n - 1);
        let c = canon_list(sqs, p, n);
        assert forall|e: (PieceType, Square)| #[trigger] c.contains(e) <==> (e.1.0 < n
            && sqs[e.1.0 as int] is Some && pidx(sqs[e.1.0 as int]->0.player) == p && e.0
            == sqs[e.1.0 as int]->0.piece_type) by {
            if c.contains(e) {
                let i = choose|i: int| 0 <= i < c.len() && c[i] == e;
                if i < a.len() {
                    assert(a[i] == e);
                    assert(a.contains(e));
                }
            }
            if e.1.0 < n && sqs[e.1.0 as int] is Some && pidx(sqs[e.1.0 as int]->0.player) == p
                && e.0 == sqs[e.1.0 as int]->0.piece_type {
                if e.1.0 < n - 1 {
                    assert(a.contains(e));
                    let i = choose|i: int| 0 <= i < a.len() && a[i] == e;
                    assert(c[i] == e);
                } else {
                    assert(c[a.len() as int] == e);
                }
            }
        }
        assert forall|i: int, j: int| 0 <= i < c.len() && 0 <= j < c.len() && i != j implies c[i]
            != c[j] by {
            if i < a.len() && j < a.len() {
                assert(a[i] == c[i] && a[j] == c[j]);
            } else if i < a.len() {
                assert(a.contains(a[i]));
            } else if j < a.len() {
                assert(a.contains(a[j]));
            }
        }
    }
}

proof fn lemma_synced_list(l: Seq<(PieceType, Square)>, sqs: Seq<Option<Piece>>, p: int)
    requires
        0 <= p < 4,
        sqs.len() == 196,
        list_sync(l, sqs, p),
    ensures
        l.no_duplicates(),
        forall|e: (PieceType, Square)| #[trigger] l.contains(e) <==> canon_list(sqs, p, 196).contains(e),
{
    lemma_canon_list(sqs, p, 196);
    assert forall|e: (PieceType, Square)| #[trigger] l.contains(e) <==> canon_list(sqs, p, 196).contains(e) by {
        if l.contains(e) {
            let i = choose|i: int| 0 <= i < l.len() && l[i] == e;
            assert(sqs[l[i].1.0 as int] == Some(Piece { piece_type: l[i].0, player: player_at(p) }));
        }
        if canon_list(sqs, p, 196).contains(e) {
            let s = e.1.0 as int;
            assert(list_sync(l, sqs, p));
            assert(sqs[s] is Some && pidx(sqs[s]->0.player) == p);
            assert(crate::board::list_has(l, s));
            let i = choose|i: int| 0 <= i < l.len() && l[i].1.0 == s;
            assert(sqs[l[i].1.0 as int] == Some(Piece { piece_type: l[i].0, player: player_at(p) }));
            assert(l[i] == e);
            assert(l.contains(e));
        }
    }
}

proof fn lemma_castles_hash_free(a: BoardState, b: BoardState, p: int, n: int)
    requires
        a == (BoardState { zobrist: a.zobrist, ..b }),
    ensures
        castle_moves(a, p, n) == castle_moves(b, p, n),
    decreases n,
{
    if n > 0 {
        lemma_castles_hash_free(a, b, p, n - 1);
        assert(castle_ok(a, p, n - 1) == castle_ok(b, p, n - 1));
    }
}

/// The move tree does not depend on the stored hash.
proof fn lemma_perft_hash_free(a: BoardState, b: BoardState, d: nat)
    requires
        a == (BoardState { zobrist: a.zobrist, ..b }),
    ensures
        perft_count(a, d) == perft_count(b, d),
    decreases d,
{
    if d > 0 {
        let p = pidx(a.stm);
        assert forall|m: Move| #[trigger] made(a, m) == (BoardState { zobrist: a.zobrist, ..made(b, m) }) by {
            assert(crate::makemove::make_squares(a, m) == crate::makemove::make_squares(b, m));
        }
        lemma_castles_hash_free(a, b, p, 8);
        assert(ep_move(a, p, 0) == ep_move(b, p, 0));
        assert(ep_move(a, p, 1) == ep_move(b, p, 1));
        assert forall|m: Move| #[trigger] safe_in(a)(m) == safe_in(b)(m) by {
            let x = made(a, m);
            let y = made(b, m);
            assert(x == (BoardState { zobrist: a.zobrist, ..y }));
            assert(x.squares == y.squares && x.kings == y.kings);
            assert(in_check(x, p) == in_check(y, p));
            assert(keeps_king_safe(a, m) == keeps_king_safe(b, m));
        }
        assert(safe_in(a) =~= safe_in(b));
        assert(canon_legal(a) == canon_legal(b));
        let fa = subtree_count(a, d);
        let fb = subtree_count(b, d);
        assert forall|m: Move| #[trigger] fa(m) == fb(m) by {
            assert(made(a, m) == (BoardState { zobrist: a.zobrist, ..made(b, m) }));
            lemma_perft_hash_free(made(a, m), made(b, m), (d - 1) as nat);
        }
        assert(fa =~= fb);
        lemma_perft_sum(a, canon_legal(a), d);
        lemma_perft_sum(b, canon_legal(b), d);
    }
}

/// Summed over the legal moves of a board, `f` gives what it gives over
/// the legal moves taken square by square.
proof fn lemma_legal_sum(b: Board, f: spec_fn(Move) -> nat)
    requires
        b.wf(),
    ensures
        sum_over(legal_moves(b), f) == sum_over(canon_legal(b@), f),
{
    lemma_legal_in_sum(b, b@, f);
}

/// Summed over the legal moves of position `st` with a board's piece lists
/// (the board's squares being those of `st`), `f` gives what it gives over
/// the legal moves taken square by square.
proof fn lemma_legal_in_sum(b: Board, st: BoardState, f: spec_fn(Move) -> nat)
    requires
        b.wf(),
        st.squares == b@.squares,
    ensures
        sum_over(legal_in(b, st), f) == sum_over(canon_legal(st), f),
{
    let p = pidx(st.stm);
    let l = b.pieces_view(p);
    let c = canon_list(st.squares, p, 196);
    let keep = safe_in(st);
    let rest = castle_moves(st, p, 8) + ep_move(st, p, 0) + ep_move(st, p, 1);
    let lm = list_moves(st.squares, p, l, l.len() as int);
    let cm = list_moves(st.squares, p, c, c.len() as int);
    assert(sum_over(lm.filter(keep), f) == sum_over(cm.filter(keep), f)) by {
        b.lemma_wf();
        assert(list_sync(b.pieces_view(p), st.squares, p));
        lemma_synced_list(l, st.squares, p);
        lemma_canon_list(st.squares, p, 196);
        lemma_sum_perm(l, c, piece_sum(st.squares, p, keep, f));
        lemma_list_sum(st.squares, p, l, l.len() as int, keep, f);
        lemma_list_sum(st.squares, p, c, c.len() as int, keep, f);
        assert(l.take(l.len() as int) =~= l);
        assert(c.take(c.len() as int) =~= c);
    }
    assert(crate::movegen::pseudo_in(b, st) =~= lm + rest);
    assert(cm + castle_moves(st, p, 8) + ep_move(st, p, 0) + ep_move(st, p, 1) =~= cm + rest);
    lemma_sum_filter_add(lm, rest, keep, f);
    lemma_sum_filter_add(cm, rest, keep, f);
}

/// How many legal moves a position has, with a board's piece lists, does not
/// depend on the order of the lists.
pub proof fn lemma_legal_in_count(b: Board, st: BoardState)
    requires
        b.wf(),
        st.squares == b@.squares,
    ensures
        legal_in(b, st).len() == canon_legal(st).len(),
{
    let f = |m: Move| 1nat;
    lemma_legal_in_sum(b, st, f);
    lemma_sum_ones(legal_in(b, st), f);
    lemma_sum_ones(canon_legal(st), f);
}

/// Which moves a board lists as legal depends on its position alone: they
/// are the moves of `canon_legal`.
pub proof fn lemma_legal_contains(b: Board, m: Move)
    requires
        b.wf(),
    ensures
        legal_moves(b).contains(m) == canon_legal(b@).contains(m),
{
    let f = |x: Move| if x == m { 1nat } else { 0nat };
    lemma_legal_sum(b, f);
    lemma_sum_count(legal_moves(b), m);
    lemma_sum_count(canon_legal(b@), m);
}

proof fn lemma_sum_count(s: Seq<Move>, m: Move)
    ensures
        (sum_over(s, |x: Move| if x == m { 1nat } else { 0nat }) > 0) == s.contains(m),
    decreases s.len(),
{
    let f = |x: Move| if x == m { 1nat } else { 0nat };
    if s.len() > 0 {
        lemma_sum_count(s.drop_last(), m);
        if s.drop_last().contains(m) {
            let i = choose|i: int| 0 <= i < s.drop_last().len() && s.drop_last()[i] == m;
            assert(s[i] == m);
        }
        if s.contains(m) && s.last() != m {
            let i = choose|i: int| 0 <= i < s.len() && s[i] == m;
            assert(s.drop_last()[i] == m);
        }
        if s.last() == m {
            assert(s[s.len() - 1] == m);
        }
    }
}

/// The legal moves of a position do not depend on the stored hash.
pub proof fn lemma_canon_hash_free(a: BoardState, b: BoardState)
    requires
        a == (BoardState { zobrist: a.zobrist, ..b }),
    ensures
        canon_legal(a) == canon_legal(b),
        forall|m: Move| #[trigger] made(a, m) == (BoardState { zobrist: a.zobrist, ..made(b, m) }),
{
    let p = pidx(a.stm);
    assert forall|m: Move| #[trigger] made(a, m) == (BoardState { zobrist: a.zobrist, ..made(b, m) }) by {
        assert(crate::makemove::make_squares(a, m) == crate::makemove::make_squares(b, m));
    }
    lemma_castles_hash_free(a, b, p, 8);
    assert(ep_move(a, p, 0) == ep_move(b, p, 0));
    assert(ep_move(a, p, 1) == ep_move(b, p, 1));
    assert forall|m: Move| #[trigger] safe_in(a)(m) == safe_in(b)(m) by {
        let x = made(a, m);
        let y = made(b, m);
        assert(x == (BoardState { zobrist: a.zobrist, ..y }));
        assert(x.squares == y.squares && x.kings == y.kings);
        assert(in_check(x, p) == in_check(y, p));
        assert(keeps_king_safe(a, m) == keeps_king_safe(b, m));
    }
    assert(safe_in(a) =~= safe_in(b));
}

/// Move `m` of the side to move puts the next player in check.
pub open spec fn gives_check(st: BoardState, m: Move) -> bool {
    in_check(made(st, m), pidx(crate::types::next_player(st.stm)))
}

/// Move `m` of the side to move puts the next player in check and leaves it
/// without a legal reply.
pub open spec fn gives_mate(st: BoardState, m: Move) -> bool {
    gives_check(st, m) && canon_legal(made(st, m)).len() == 0
}

/// How many legal moves a board has depends on its position alone, not on
/// the order of its piece lists.
pub proof fn lemma_legal_count(b: Board)
    requires
        b.wf(),
    ensures
        legal_moves(b).len() == canon_legal(b@).len(),
{
    let f = |m: Move| 1nat;
    lemma_legal_sum(b, f);
    lemma_sum_ones(legal_moves(b), f);
    lemma_sum_ones(canon_legal(b@), f);
}

/// Perft: the number of leaf nodes of the legal move tree of the given
/// depth.
pub fn perft(board: &mut Board, depth: u32) -> (nodes: u64)
    requires
        old(board).wf(),
    ensures
        final(board).wf(),
        final(board)@ == (BoardState { kings: final(board)@.kings, ..old(board)@ }),
        kings_consistent(old(board)@) ==> final(board)@ == old(board)@,
        depth == 0 ==> nodes == 1,
        depth == 1 && kings_consistent(old(board)@) ==> nodes == legal_moves(*old(board)).len(),
        kings_consistent(old(board)@) && perft_count(old(board)@, depth as nat) <= u64::MAX
            ==> nodes == perft_count(old(board)@, depth as nat),
    decreases depth,
{
    if depth == 0 {
        return 1;
    }
    let ghost st = board@;
    let ghost b0 = *board;
    let ghost f = subtree_count(st, depth as nat);
    let ghost total = sum_over(legal_moves(b0), f);
    proof {
        lemma_legal_sum(b0, f);
        lemma_perft_sum(st, canon_legal(st), depth as nat);
        assert(total == perft_count(st, depth as nat));
    }
    let moves = generate_legal_moves(board);
    if depth == 1 {
        proof {
            assert forall|m: Move| #[trigger] f(m) == 1 by {}
            lemma_sum_ones(legal_moves(b0), f);
        }
        return moves.len() as u64;
    }
    let mut nodes: u64 = 0;
    let mut i: usize = 0;
    while i < moves.len()
        invariant
            board.wf(),
            board@ == (BoardState { kings: board@.kings, ..st }),
            kings_consistent(st) ==> board@ == st && moves@ == legal_moves(b0),
            all_makeable(st, moves@),
            i <= moves@.len(),
            depth >= 2,
            f == subtree_count(st, depth as nat),
            total == sum_over(legal_moves(b0), f),
            kings_consistent(st) && total <= u64::MAX ==> nodes == sum_over(moves@.take(i as int), f),
        decreases moves@.len() - i,
    {
        let m = moves[i];
        let ghost cur = board@;
        proof {
            assert(makeable(st, moves@[i as int]));
            assert(applicable(cur, m));
            board.lemma_wf();
            lemma_make_unmake_squares(cur, m);
            if kings_consistent(st) {
                lemma_made_consistent(st, m);
            }
        }
        let undo = make_move(board, m);
        let ghost post = board@;
        let sub = perft(board, depth - 1);
        proof {
            assert(crate::makemove::unmake_ok(board@, undo));
            if kings_consistent(st) && total <= u64::MAX {
                assert(post == (BoardState { zobrist: post.zobrist, ..made(st, m) }));
                lemma_perft_hash_free(post, made(st, m), (depth - 1) as nat);
                lemma_sum_prefix(moves@, i as int, f);
                assert(f(m) == perft_count(made(st, m), (depth - 1) as nat));
                assert(kings_consistent(post));
            }
        }
        unmake_move(board, &undo);
        proof {
            let fin = board@;
            let b = BoardState { kings: fin.kings, ..cur };
            assert(fin == (BoardState { zobrist: fin.zobrist, ..b }));
            assert(crate::board::full_hash(b) == crate::board::full_hash(cur));
            lemma_equal_drift_same_hash(fin, b);
        }
        nodes = nodes.wrapping_add(sub);
        i += 1;
    }
    proof {
        assert(moves@.take(moves@.len() as int) =~= moves@);
    }
    nodes
}

} // verus!
