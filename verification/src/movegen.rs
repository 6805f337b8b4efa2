//! Pseudo-legal move generation for all piece types and all four player
//! orientations, including castling (8 variants), en passant and promotion.

use vstd::prelude::*;
use crate::attacks::{
    any_dir, any_dir_exec, attacked_by, diag_dir, diag_dir_exec, knight_off, knight_off_exec,
    ortho_dir, ortho_dir_exec, pawn_cap, pawn_cap_exec, ray_measure, unit_dir,
};
use crate::board::{list_sync, Board, BoardState};
use crate::moves::{
    mk_capture, mk_castle, mk_double, mk_ep, mk_new, mk_promotion, Move,
};
use crate::types::{
    is_other_player, pidx, player_at, valid_index, valid_rf, Piece, PieceType, Player, Square,
};

verus! {

// ─── Player geometry ────────────────────────────────────────────────────────

/// Pawn push direction of player index `p`: Red north, Blue east,
/// Yellow south, Green west.
pub open spec fn push_dir(p: int) -> (int, int) {
    if p == 0 {
        (1, 0)
    } else if p == 1 {
        (0, 1)
    } else if p == 2 {
        (-1, 0)
    } else {
        (0, -1)
    }
}

pub fn push_dir_exec(p: usize) -> (r: (i8, i8))
    requires
        p < 4,
    ensures
        (r.0 as int, r.1 as int) == push_dir(p as int),
{
    if p == 0 {
        (1, 0)
    } else if p == 1 {
        (0, 1)
    } else if p == 2 {
        (-1, 0)
    } else {
        (0, -1)
    }
}

/// The playable square at (r, f), if any.
pub open spec fn sq_at(r: int, f: int) -> Option<int> {
    if valid_rf(r, f) {
        Some(r * 14 + f)
    } else {
        None
    }
}

/// Try to make a playable square from a signed rank and file.
pub fn try_square(rank: i8, file: i8) -> (r: Option<Square>)
    ensures
        match sq_at(rank as int, file as int) {
            Some(i) => r == Some(Square(i as u8)) && 0 <= i < 196 && valid_index(i),
            None => r is None,
        },
{
    if rank >= 0 && rank < 14 && file >= 0 && file < 14 {
        let r = rank as u8;
        let f = file as u8;
        if crate::types::is_valid_square(r, f) {
            proof {
                let i = r * 14 + f;
                assert(i / 14 == r && i % 14 == f);
            }
            return Some(Square::from_rank_file_unchecked(r, f));
        }
    }
    None
}

/// A pawn of player index `p` on square index `s` has not yet moved.
pub open spec fn pawn_start(s: int, p: int) -> bool {
    if p == 0 {
        s / 14 == 1
    } else if p == 1 {
        s % 14 == 1
    } else if p == 2 {
        s / 14 == 12
    } else {
        s % 14 == 12
    }
}

/// A pawn of player index `p` promotes on square index `s`
/// (Red rank 9, Blue file i, Yellow rank 6, Green file f).
pub open spec fn promo_square(s: int, p: int) -> bool {
    if p == 0 {
        s / 14 == 8
    } else if p == 1 {
        s % 14 == 8
    } else if p == 2 {
        s / 14 == 5
    } else {
        s % 14 == 5
    }
}

fn is_pawn_start(sq: Square, player: Player) -> (r: bool)
    requires
        sq.0 < 196,
    ensures
        r == pawn_start(sq.0 as int, pidx(player)),
{
    match player {
        Player::Red => sq.rank() == 1,
        Player::Blue => sq.file() == 1,
        Player::Yellow => sq.rank() == 12,
        Player::Green => sq.file() == 12,
    }
}

fn is_promotion_square(sq: Square, player: Player) -> (r: bool)
    requires
        sq.0 < 196,
    ensures
        r == promo_square(sq.0 as int, pidx(player)),
{
    match player {
        Player::Red => sq.rank() == 8,
        Player::Blue => sq.file() == 8,
        Player::Yellow => sq.rank() == 5,
        Player::Green => sq.file() == 5,
    }
}

/// Promotion piece `k` (0..4): promoted queen, rook, bishop, knight.
pub open spec fn promo_piece(k: int) -> PieceType {
    if k == 0 {
        PieceType::PromotedQueen
    } else if k == 1 {
        PieceType::Rook
    } else if k == 2 {
        PieceType::Bishop
    } else {
        PieceType::Knight
    }
}

fn promo_piece_exec(k: usize) -> (r: PieceType)
    ensures
        r == promo_piece(k as int),
{
    if k == 0 {
        PieceType::PromotedQueen
    } else if k == 1 {
        PieceType::Rook
    } else if k == 2 {
        PieceType::Bishop
    } else {
        PieceType::Knight
    }
}

// ─── Move lists as sequences ────────────────────────────────────────────────

/// The four promotions from `s` to `t` (in promotion-piece order).
pub open spec fn promotions(s: int, t: int, cap: Option<PieceType>) -> Seq<Move> {
    seq![
        mk_promotion(s, t, cap, promo_piece(0)),
        mk_promotion(s, t, cap, promo_piece(1)),
        mk_promotion(s, t, cap, promo_piece(2)),
        mk_promotion(s, t, cap, promo_piece(3)),
    ]
}

/// The pieces a pawn may promote to: the promoted queen (worth a pawn's
/// capture points), a rook, a bishop or a knight.
pub open spec fn promotion_choice(pt: PieceType) -> bool {
    pt == PieceType::PromotedQueen || pt == PieceType::Rook || pt == PieceType::Bishop || pt == PieceType::Knight
}

/// Some move of `ms` makes the step of `ms[i]`, with its capture, promoting
/// to `pt`.
pub open spec fn offered(ms: Seq<Move>, i: int, pt: PieceType) -> bool {
    exists|j: int|
        0 <= j < ms.len() && ms[j].promotion_type() == Some(pt) && ms[j].from_idx() == ms[i].from_idx()
            && ms[j].to_idx() == ms[i].to_idx() && ms[j].captured_type() == ms[i].captured_type()
}

/// Every promotion among `ms` is to one of the promotion pieces, and for
/// each promoting move every promotion piece is offered on the same step,
/// with the same capture.
pub open spec fn promotions_complete(ms: Seq<Move>) -> bool {
    &&& forall|i: int|
        0 <= i < ms.len() && (#[trigger] ms[i]).promotion_type() is Some ==> promotion_choice(
            ms[i].promotion_type()->0,
        )
    &&& forall|i: int, pt: PieceType|
        0 <= i < ms.len() && ms[i].promotion_type() is Some && promotion_choice(pt) ==> #[trigger] offered(ms, i, pt)
}

/// A promoting pawn step offers the four promotion pieces, each once, and
/// nothing else.
pub proof fn lemma_promotion_moves(s: int, t: int, cap: Option<PieceType>)
    requires
        0 <= s < 256,
        0 <= t < 256,
    ensures
        promotions(s, t, cap).len() == 4,
        forall|i: int|
            0 <= i < 4 ==> (#[trigger] promotions(s, t, cap)[i]).from_idx() == s && promotions(s, t, cap)[i].to_idx()
                == t && promotions(s, t, cap)[i].moved() == PieceType::Pawn && promotions(s, t, cap)[i].captured_type()
                == cap && promotions(s, t, cap)[i].promotion_type() is Some && promotion_choice(
                promotions(s, t, cap)[i].promotion_type()->0,
            ),
        forall|pt: PieceType|
            #[trigger] promotion_choice(pt) ==> exists|i: int|
                0 <= i < 4 && promotions(s, t, cap)[i].promotion_type() == Some(pt),
        forall|i: int, j: int|
            0 <= i < j < 4 ==> (#[trigger] promotions(s, t, cap)[i]).promotion_type() != (#[trigger] promotions(
                s,
                t,
                cap,
            )[j]).promotion_type(),
        promotions_complete(promotions(s, t, cap)),
{
    crate::moves::lemma_mk_fields(s, t);
    let ms = promotions(s, t, cap);
    let m0 = mk_promotion(s, t, cap, PieceType::PromotedQueen);
    let m1 = mk_promotion(s, t, cap, PieceType::Rook);
    let m2 = mk_promotion(s, t, cap, PieceType::Bishop);
    let m3 = mk_promotion(s, t, cap, PieceType::Knight);
    assert(m0.has_fields(s, t, PieceType::Pawn, cap, Some(PieceType::PromotedQueen), crate::moves::MoveFlags::Normal));
    assert(m1.has_fields(s, t, PieceType::Pawn, cap, Some(PieceType::Rook), crate::moves::MoveFlags::Normal));
    assert(m2.has_fields(s, t, PieceType::Pawn, cap, Some(PieceType::Bishop), crate::moves::MoveFlags::Normal));
    assert(m3.has_fields(s, t, PieceType::Pawn, cap, Some(PieceType::Knight), crate::moves::MoveFlags::Normal));
    assert(ms[0] == m0 && ms[1] == m1 && ms[2] == m2 && ms[3] == m3);
    assert forall|pt: PieceType| #[trigger] promotion_choice(pt) implies exists|i: int|
        0 <= i < 4 && ms[i].promotion_type() == Some(pt) by {
        if pt == PieceType::PromotedQueen {
            assert(ms[0].promotion_type() == Some(pt));
        } else if pt == PieceType::Rook {
            assert(ms[1].promotion_type() == Some(pt));
        } else if pt == PieceType::Bishop {
            assert(ms[2].promotion_type() == Some(pt));
        } else {
            assert(ms[3].promotion_type() == Some(pt));
        }
    }
    assert forall|i: int, pt: PieceType|
        0 <= i < ms.len() && ms[i].promotion_type() is Some && promotion_choice(pt) implies #[trigger] offered(ms, i, pt) by {
        if pt == PieceType::PromotedQueen {
            assert(ms[0].promotion_type() == Some(pt));
        } else if pt == PieceType::Rook {
            assert(ms[1].promotion_type() == Some(pt));
        } else if pt == PieceType::Bishop {
            assert(ms[2].promotion_type() == Some(pt));
        } else {
            assert(ms[3].promotion_type() == Some(pt));
        }
    }
}

proof fn lemma_complete_add(a: Seq<Move>, b: Seq<Move>)
    requires
        promotions_complete(a),
        promotions_complete(b),
    ensures
        promotions_complete(a + b),
{
    let c = a + b;
    assert forall|i: int| 0 <= i < c.len() && (#[trigger] c[i]).promotion_type() is Some implies promotion_choice(
        c[i].promotion_type()->0,
    ) by {
        if i < a.len() {
            assert(c[i] == a[i]);
        } else {
            assert(c[i] == b[i - a.len()]);
        }
    }
    assert forall|i: int, pt: PieceType|
        0 <= i < c.len() && c[i].promotion_type() is Some && promotion_choice(pt) implies #[trigger] offered(c, i, pt) by {
        if i < a.len() {
            assert(c[i] == a[i]);
            assert(offered(a, i, pt));
            let j = choose|j: int|
                0 <= j < a.len() && a[j].promotion_type() == Some(pt) && a[j].from_idx() == a[i].from_idx()
                    && a[j].to_idx() == a[i].to_idx() && a[j].captured_type() == a[i].captured_type();
            assert(c[j] == a[j]);
        } else {
            let k = i - a.len();
            assert(c[i] == b[k]);
            assert(offered(b, k, pt));
            let j = choose|j: int|
                0 <= j < b.len() && b[j].promotion_type() == Some(pt) && b[j].from_idx() == b[k].from_idx()
                    && b[j].to_idx() == b[k].to_idx() && b[j].captured_type() == b[k].captured_type();
            assert(c[a.len() + j] == b[j]);
        }
    }
}

proof fn lemma_complete_plain(ms: Seq<Move>)
    requires
        forall|i: int| 0 <= i < ms.len() ==> (#[trigger] ms[i]).promotion_type() is None,
    ensures
        promotions_complete(ms),
{
}

/// The moves of a pawn promote only to the promotion pieces, and every
/// promoting step offers all four.
pub proof fn lemma_pawn_promotions(sqs: Seq<Option<Piece>>, p: int, s: int)
    requires
        0 <= s < 196,
        0 <= p < 4,
    ensures
        promotions_complete(pawn_moves(sqs, p, s)),
{
    let (dr, df) = push_dir(p);
    let pushes = pawn_pushes(sqs, p, s);
    match sq_at(s / 14 + dr, s % 14 + df) {
        Some(t) => {
            crate::moves::lemma_mk_fields(s, t);
            if sqs[t] is None && promo_square(t, p) {
                lemma_promotion_moves(s, t, None);
            } else {
                let m = mk_new(s, t, PieceType::Pawn);
                assert(m.has_fields(s, t, PieceType::Pawn, None, None, crate::moves::MoveFlags::Normal));
                match sq_at(s / 14 + 2 * dr, s % 14 + 2 * df) {
                    Some(t2) => {
                        crate::moves::lemma_mk_fields(s, t2);
                    },
                    None => {},
                }
                lemma_complete_plain(pushes);
            }
        },
        None => {
            lemma_complete_plain(pushes);
        },
    }
    lemma_capture_complete(sqs, p, s, 0);
    lemma_capture_complete(sqs, p, s, 1);
    lemma_complete_add(pushes, pawn_capture(sqs, p, s, 0));
    lemma_complete_add(pushes + pawn_capture(sqs, p, s, 0), pawn_capture(sqs, p, s, 1));
}

proof fn lemma_capture_complete(sqs: Seq<Option<Piece>>, p: int, s: int, k: int)
    requires
        0 <= s < 196,
    ensures
        promotions_complete(pawn_capture(sqs, p, s, k)),
{
    let (dr, df) = crate::attacks::pawn_cap(p, k);
    let ms = pawn_capture(sqs, p, s, k);
    match sq_at(s / 14 + dr, s % 14 + df) {
        Some(t) => {
            crate::moves::lemma_mk_fields(s, t);
            match sqs[t] {
                Some(q) => {
                    if pidx(q.player) != p && promo_square(t, p) {
                        lemma_promotion_moves(s, t, Some(q.piece_type));
                    } else {
                        if pidx(q.player) != p {
                            let m = mk_capture(s, t, PieceType::Pawn, q.piece_type);
                            assert(m.has_fields(s, t, PieceType::Pawn, Some(q.piece_type), None, crate::moves::MoveFlags::Normal));
                        }
                        lemma_complete_plain(ms);
                    }
                },
                None => {
                    lemma_complete_plain(ms);
                },
            }
        },
        None => {
            lemma_complete_plain(ms);
        },
    }
}

/// Pawn pushes (single, then double) of the pawn of player `p` on `s`.
pub open spec fn pawn_pushes(sqs: Seq<Option<Piece>>, p: int, s: int) -> Seq<Move> {
    let (dr, df) = push_dir(p);
    match sq_at(s / 14 + dr, s % 14 + df) {
        Some(t) => if sqs[t] is None {
            if promo_square(t, p) {
                promotions(s, t, None)
            } else {
                seq![mk_new(s, t, PieceType::Pawn)] + match sq_at(s / 14 + 2 * dr, s % 14 + 2 * df) {
                    Some(t2) => if pawn_start(s, p) && sqs[t2] is None {
                        seq![mk_double(s, t2)]
                    } else {
                        Seq::empty()
                    },
                    None => Seq::empty(),
                }
            }
        } else {
            Seq::empty()
        },
        None => Seq::empty(),
    }
}

/// The pawn capture of player `p`'s pawn on `s` along capture delta `k`.
pub open spec fn pawn_capture(sqs: Seq<Option<Piece>>, p: int, s: int, k: int) -> Seq<Move> {
    let (dr, df) = pawn_cap(p, k);
    match sq_at(s / 14 + dr, s % 14 + df) {
        Some(t) => match sqs[t] {
            Some(q) => if pidx(q.player) != p {
                if promo_square(t, p) {
                    promotions(s, t, Some(q.piece_type))
                } else {
                    seq![mk_capture(s, t, PieceType::Pawn, q.piece_type)]
                }
            } else {
                Seq::empty()
            },
            None => Seq::empty(),
        },
        None => Seq::empty(),
    }
}

/// All moves of player `p`'s pawn on `s`.
pub open spec fn pawn_moves(sqs: Seq<Option<Piece>>, p: int, s: int) -> Seq<Move> {
    pawn_pushes(sqs, p, s) + pawn_capture(sqs, p, s, 0) + pawn_capture(sqs, p, s, 1)
}

/// The step moves of a knight (or king) of player `p` on `s` over the
/// first `n` offsets.
pub open spec fn step_moves(sqs: Seq<Option<Piece>>, p: int, s: int, pt: PieceType, n: int) -> Seq<
    Move,
>
    decreases n,
{
    if n <= 0 {
        Seq::empty()
    } else {
        let (dr, df) = if pt == PieceType::Knight {
            knight_off(n - 1)
        } else {
            any_dir(n - 1)
        };
        step_moves(sqs, p, s, pt, n - 1) + match sq_at(s / 14 + dr, s % 14 + df) {
            Some(t) => match sqs[t] {
                None => seq![mk_new(s, t, pt)],
                Some(q) => if pidx(q.player) != p {
                    seq![mk_capture(s, t, pt, q.piece_type)]
                } else {
                    Seq::empty()
                },
            },
            None => Seq::empty(),
        }
    }
}

/// The moves of a slider from `s` continuing at (r, f) in direction
/// (dr, df): quiet moves to empty squares, then a capture of an opponent
/// piece; the ray ends at a friendly piece, the board edge or a corner.
pub open spec fn ray_moves(
    sqs: Seq<Option<Piece>>,
    p: int,
    s: int,
    pt: PieceType,
    r: int,
    f: int,
    dr: int,
    df: int,
) -> Seq<Move>
    decreases ray_measure(r, f, dr, df),
{
    if !unit_dir(dr, df) {
        Seq::empty()
    } else {
        match sq_at(r, f) {
            None => Seq::empty(),
            Some(t) => match sqs[t] {
                None => seq![mk_new(s, t, pt)] + ray_moves(sqs, p, s, pt, r + dr, f + df, dr, df),
                Some(q) => if pidx(q.player) != p {
                    seq![mk_capture(s, t, pt, q.piece_type)]
                } else {
                    Seq::empty()
                },
            },
        }
    }
}

/// Direction `k` of a direction family: 0 diagonal, 1 orthogonal, 2 all.
pub open spec fn family_dir(fam: int, k: int) -> (int, int) {
    if fam == 0 {
        diag_dir(k)
    } else if fam == 1 {
        ortho_dir(k)
    } else {
        any_dir(k)
    }
}

/// Slider moves over the first `n` directions of a family.
pub open spec fn slider_moves(sqs: Seq<Option<Piece>>, p: int, s: int, pt: PieceType, fam: int, n: int) -> Seq<
    Move,
>
    decreases n,
{
    if n <= 0 {
        Seq::empty()
    } else {
        let (dr, df) = family_dir(fam, n - 1);
        slider_moves(sqs, p, s, pt, fam, n - 1) + ray_moves(
            sqs,
            p,
            s,
            pt,
            s / 14 + dr,
            s % 14 + df,
            dr,
            df,
        )
    }
}

/// The pseudo-legal moves of one piece (castling and en passant aside).
pub open spec fn piece_moves(sqs: Seq<Option<Piece>>, p: int, s: int, pt: PieceType) -> Seq<Move> {
    match pt {
        PieceType::Pawn => pawn_moves(sqs, p, s),
        PieceType::Knight => step_moves(sqs, p, s, pt, 8),
        PieceType::Bishop => slider_moves(sqs, p, s, pt, 0, 4),
        PieceType::Rook => slider_moves(sqs, p, s, pt, 1, 4),
        PieceType::Queen => slider_moves(sqs, p, s, pt, 2, 8),
        PieceType::PromotedQueen => slider_moves(sqs, p, s, pt, 2, 8),
        PieceType::King => step_moves(sqs, p, s, pt, 8),
    }
}

/// The moves of the first `n` pieces of a piece list.
pub open spec fn list_moves(sqs: Seq<Option<Piece>>, p: int, l: Seq<(PieceType, Square)>, n: int) -> Seq<
    Move,
>
    decreases n,
{
    if n <= 0 {
        Seq::empty()
    } else {
        list_moves(sqs, p, l, n - 1) + piece_moves(sqs, p, l[n - 1].1.0 as int, l[n - 1].0)
    }
}

// ─── Castling ───────────────────────────────────────────────────────────────

/// One castling variant.
pub struct CastleDef {
    pub player: usize,
    pub rights_bit: u8,
    pub king_from: u8,
    pub king_to: u8,
    pub rook_from: u8,
    pub rook_to: u8,
}

/// The castling variants (Red KS, Red QS, Blue KS, Blue QS, Yellow KS,
/// Yellow QS, Green KS, Green QS): player index, rights bit, king from/to,
/// rook from/to.
pub open spec fn castle_def(i: int) -> (int, int, int, int, int, int) {
    if i == 0 {
        (0, 0, 7, 9, 10, 8)
    } else if i == 1 {
        (0, 1, 7, 5, 3, 6)
    } else if i == 2 {
        (1, 2, 84, 56, 42, 70)
    } else if i == 3 {
        (1, 3, 84, 112, 140, 98)
    } else if i == 4 {
        (2, 4, 188, 186, 185, 187)
    } else if i == 5 {
        (2, 5, 188, 190, 192, 189)
    } else if i == 6 {
        (3, 6, 111, 139, 153, 125)
    } else {
        (3, 7, 111, 83, 55, 97)
    }
}

/// The squares between king and rook that must be empty, per variant.
pub open spec fn castle_empty(i: int) -> Seq<int> {
    if i == 0 {
        seq![8, 9]
    } else if i == 1 {
        seq![4, 5, 6]
    } else if i == 2 {
        seq![56, 70]
    } else if i == 3 {
        seq![98, 112, 126]
    } else if i == 4 {
        seq![186, 187]
    } else if i == 5 {
        seq![189, 190, 191]
    } else if i == 6 {
        seq![125, 139]
    } else {
        seq![69, 83, 97]
    }
}

/// The squares the king stands on or crosses, per variant.
pub open spec fn castle_path(i: int) -> Seq<int> {
    if i == 0 {
        seq![7, 8, 9]
    } else if i == 1 {
        seq![7, 6, 5]
    } else if i == 2 {
        seq![84, 70, 56]
    } else if i == 3 {
        seq![84, 98, 112]
    } else if i == 4 {
        seq![188, 187, 186]
    } else if i == 5 {
        seq![188, 189, 190]
    } else if i == 6 {
        seq![111, 125, 139]
    } else {
        seq![111, 97, 83]
    }
}

/// The castling tables name playable squares.
pub proof fn lemma_castle_consts(i: int)
    requires
        0 <= i < 8,
    ensures
        forall|j: int| 0 <= j < castle_empty(i).len() ==> 0 <= #[trigger] castle_empty(i)[j] < 196,
        forall|j: int| 0 <= j < castle_path(i).len() ==> 0 <= #[trigger] castle_path(i)[j] < 196,
        castle_def(i).0 == i / 2,
        castle_def(i).1 == i,
        valid_index(castle_def(i).2),
        valid_index(castle_def(i).3),
        valid_index(castle_def(i).4),
        valid_index(castle_def(i).5),
        castle_def(i).2 != castle_def(i).3,
        castle_def(i).2 != castle_def(i).4,
        castle_def(i).2 != castle_def(i).5,
        castle_def(i).3 != castle_def(i).4,
        castle_def(i).3 != castle_def(i).5,
        castle_def(i).4 != castle_def(i).5,
        castle_empty(i).contains(castle_def(i).3),
        castle_empty(i).contains(castle_def(i).5),
{
    let e = castle_empty(i);
    let pth = castle_path(i);
    if i == 0 {
        assert(e =~= seq![8int, 9int]);
        assert(e[1] == 9 && e[0] == 8);
    } else if i == 1 {
        assert(e[2] == 6 && e[1] == 5);
    } else if i == 2 {
        assert(e[0] == 56 && e[1] == 70);
    } else if i == 3 {
        assert(e[0] == 98 && e[1] == 112);
    } else if i == 4 {
        assert(e[0] == 186 && e[1] == 187);
    } else if i == 5 {
        assert(e[0] == 189 && e[1] == 190);
    } else if i == 6 {
        assert(e[0] == 125 && e[1] == 139);
    } else {
        assert(e[1] == 83 && e[2] == 97);
    }
}

fn castle_def_exec(i: usize) -> (r: CastleDef)
    requires
        i < 8,
    ensures
        castle_def(i as int) == (
            r.player as int,
            r.rights_bit as int,
            r.king_from as int,
            r.king_to as int,
            r.rook_from as int,
            r.rook_to as int,
        ),
{
    if i == 0 {
        CastleDef { player: 0, rights_bit: 0, king_from: 7, king_to: 9, rook_from: 10, rook_to: 8 }
    } else if i == 1 {
        CastleDef { player: 0, rights_bit: 1, king_from: 7, king_to: 5, rook_from: 3, rook_to: 6 }
    } else if i == 2 {
        CastleDef {
            player: 1,
            rights_bit: 2,
            king_from: 84,
            king_to: 56,
            rook_from: 42,
            rook_to: 70,
        }
    } else if i == 3 {
        CastleDef {
            player: 1,
            rights_bit: 3,
            king_from: 84,
            king_to: 112,
            rook_from: 140,
            rook_to: 98,
        }
    } else if i == 4 {
        CastleDef {
            player: 2,
            rights_bit: 4,
            king_from: 188,
            king_to: 186,
            rook_from: 185,
            rook_to: 187,
        }
    } else if i == 5 {
        CastleDef {
            player: 2,
            rights_bit: 5,
            king_from: 188,
            king_to: 190,
            rook_from: 192,
            rook_to: 189,
        }
    } else if i == 6 {
        CastleDef {
            player: 3,
            rights_bit: 6,
            king_from: 111,
            king_to: 139,
            rook_from: 153,
            rook_to: 125,
        }
    } else {
        CastleDef {
            player: 3,
            rights_bit: 7,
            king_from: 111,
            king_to: 83,
            rook_from: 55,
            rook_to: 97,
        }
    }
}

fn castle_empty_exec(i: usize) -> (r: Vec<u8>)
    requires
        i < 8,
    ensures
        r@.map_values(|x: u8| x as int) == castle_empty(i as int),
{
    let r: Vec<u8> = if i == 0 {
        vec![8, 9]
    } else if i == 1 {
        vec![4, 5, 6]
    } else if i == 2 {
        vec![56, 70]
    } else if i == 3 {
        vec![98, 112, 126]
    } else if i == 4 {
        vec![186, 187]
    } else if i == 5 {
        vec![189, 190, 191]
    } else if i == 6 {
        vec![125, 139]
    } else {
        vec![69, 83, 97]
    };
    assert(r@.map_values(|x: u8| x as int) =~= castle_empty(i as int));
    r
}

fn castle_path_exec(i: usize) -> (r: Vec<u8>)
    requires
        i < 8,
    ensures
        r@.map_values(|x: u8| x as int) == castle_path(i as int),
{
    let r: Vec<u8> = if i == 0 {
        vec![7, 8, 9]
    } else if i == 1 {
        vec![7, 6, 5]
    } else if i == 2 {
        vec![84, 70, 56]
    } else if i == 3 {
        vec![84, 98, 112]
    } else if i == 4 {
        vec![188, 187, 186]
    } else if i == 5 {
        vec![188, 189, 190]
    } else if i == 6 {
        vec![111, 125, 139]
    } else {
        vec![111, 97, 83]
    };
    assert(r@.map_values(|x: u8| x as int) =~= castle_path(i as int));
    r
}

/// The castling bit `b` is set in `c`.
pub open spec fn has_right(c: u8, b: int) -> bool {
    c & (1u8 << (b as u8)) != 0
}

/// Every square of a castling path is safe from every opponent of `p`.
pub open spec fn path_safe(sqs: Seq<Option<Piece>>, p: int, i: int) -> bool {
    forall|j: int, o: int|
        0 <= j < castle_path(i).len() && #[trigger] is_other_player(o, p) ==> !attacked_by(
            sqs,
            #[trigger] castle_path(i)[j],
            o,
        )
}

/// Castling variant `i` is available to player index `p`: its right is
/// held, the squares between are empty, the king's path is not attacked,
/// and the king and rook stand on their home squares.
pub open spec fn castle_ok(st: BoardState, p: int, i: int) -> bool {
    let (pl, bit, kf, kt, rf, rt) = castle_def(i);
    &&& pl == p
    &&& has_right(st.castling, bit)
    &&& forall|j: int| 0 <= j < castle_empty(i).len() ==> (#[trigger] st.squares[castle_empty(i)[j]]) is None
    &&& path_safe(st.squares, p, i)
    &&& st.squares[kf] == Some(Piece { piece_type: PieceType::King, player: player_at(p) })
    &&& st.squares[rf] == Some(Piece { piece_type: PieceType::Rook, player: player_at(p) })
}

/// Castling moves among the first `n` variants.
pub open spec fn castle_moves(st: BoardState, p: int, n: int) -> Seq<Move>
    decreases n,
{
    if n <= 0 {
        Seq::empty()
    } else {
        let (pl, bit, kf, kt, rf, rt) = castle_def(n - 1);
        castle_moves(st, p, n - 1) + if castle_ok(st, p, n - 1) {
            seq![mk_castle(kf, kt)]
        } else {
            Seq::empty()
        }
    }
}

// ─── En passant ─────────────────────────────────────────────────────────────

/// The square of the pawn that an en passant capture would take: one push
/// of the pushing player beyond the target.
pub open spec fn ep_victim(st: BoardState) -> Option<int> {
    match (st.ep, st.ep_player) {
        (Some(e), Some(pp)) => {
            let (dr, df) = push_dir(pidx(pp));
            sq_at(e.0 / 14 + dr, e.0 % 14 + df)
        },
        _ => None,
    }
}

/// The en passant state can be captured into: the target is empty and the
/// pawn to be taken is on the board.
pub open spec fn ep_ready(st: BoardState) -> bool {
    &&& st.ep matches Some(e) && st.squares[e.0 as int] is None
    &&& ep_victim(st) matches Some(c) && st.squares[c] is Some
}

/// The en passant capture of player `p` along capture delta `k`, if any.
pub open spec fn ep_move(st: BoardState, p: int, k: int) -> Seq<Move> {
    match st.ep {
        Some(e) => {
            let (dr, df) = pawn_cap(p, k);
            match sq_at(e.0 / 14 - dr, e.0 % 14 - df) {
                Some(s) => if ep_ready(st) && st.squares[s] == Some(
                    Piece { piece_type: PieceType::Pawn, player: player_at(p) },
                ) {
                    seq![mk_ep(s, e.0 as int)]
                } else {
                    Seq::empty()
                },
                None => Seq::empty(),
            }
        },
        None => Seq::empty(),
    }
}

/// All pseudo-legal moves of the side to move: piece moves in piece-list
/// order, then castling, then en passant.
pub open spec fn pseudo_moves(b: Board) -> Seq<Move> {
    pseudo_in(b, b@)
}

/// The pseudo-legal moves of position `st` with the piece lists of `b`:
/// piece moves in piece-list order, then castling, then en passant.
pub open spec fn pseudo_in(b: Board, st: BoardState) -> Seq<Move> {
    let p = pidx(st.stm);
    list_moves(st.squares, p, b.pieces_view(p), b.pieces_view(p).len() as int) + castle_moves(
        st,
        p,
        8,
    ) + ep_move(st, p, 0) + ep_move(st, p, 1)
}

// ─── Generators ─────────────────────────────────────────────────────────────

fn push_promotions(moves: &mut Vec<Move>, sq: Square, target: Square, cap: Option<PieceType>)
    ensures
        final(moves)@ == old(moves)@ + promotions(sq.0 as int, target.0 as int, cap),
{
    let ghost m0 = moves@;
    let mut k: usize = 0;
    while k < 4
        invariant
            k <= 4,
            moves@ == m0 + promotions(sq.0 as int, target.0 as int, cap).subrange(0, k as int),
        decreases 4 - k,
    {
        let promo = promo_piece_exec(k);
        moves.push(Move::new_promotion(sq, target, cap, promo));
        proof {
            assert(promotions(sq.0 as int, target.0 as int, cap).subrange(0, k + 1)
                =~= promotions(sq.0 as int, target.0 as int, cap).subrange(0, k as int).push(
                mk_promotion(sq.0 as int, target.0 as int, cap, promo_piece(k as int)),
            ));
        }
        k += 1;
    }
    assert(promotions(sq.0 as int, target.0 as int, cap).subrange(0, 4) =~= promotions(
        sq.0 as int,
        target.0 as int,
        cap,
    ));
}

fn gen_pawn_pushes(board: &Board, player: Player, sq: Square, moves: &mut Vec<Move>)
    requires
        board.wf(),
        sq.0 < 196,
    ensures
        final(moves)@ == old(moves)@ + pawn_pushes(board@.squares, pidx(player), sq.0 as int),
{
    let ghost sqs = board@.squares;
    let ghost p = pidx(player);
    let ghost s = sq.0 as int;
    let ghost m0 = moves@;
    let (dr, df) = push_dir_exec(player.index());
    let rank = sq.rank() as i8;
    let file = sq.file() as i8;
    match try_square(rank + dr, file + df) {
        Some(target) => {
            if board.piece_at(target).is_none() {
                if is_promotion_square(target, player) {
                    push_promotions(moves, sq, target, None);
                } else {
                    moves.push(Move::new(sq, target, PieceType::Pawn));
                    if is_pawn_start(sq, player) {
                        match try_square(rank + 2 * dr, file + 2 * df) {
                            Some(double_target) => {
                                if board.piece_at(double_target).is_none() {
                                    moves.push(Move::double_push(sq, double_target));
                                }
                            },
                            None => {},
                        }
                    }
                    proof {
                        assert(moves@ =~= m0 + pawn_pushes(sqs, p, s));
                    }
                }
            }
        },
        None => {},
    }
    assert(moves@ =~= m0 + pawn_pushes(sqs, p, s));
}

fn gen_pawn_capture(board: &Board, player: Player, sq: Square, k: usize, moves: &mut Vec<Move>)
    requires
        board.wf(),
        sq.0 < 196,
        k < 2,
    ensures
        final(moves)@ == old(moves)@ + pawn_capture(board@.squares, pidx(player), sq.0 as int, k as int),
{
    let ghost before = moves@;
    let rank = sq.rank() as i8;
    let file = sq.file() as i8;
    let (cr, cf) = pawn_cap_exec(player.index(), k);
    match try_square(rank + cr, file + cf) {
        Some(target) => match board.piece_at(target) {
            Some(piece) => {
                if piece.player != player {
                    if is_promotion_square(target, player) {
                        push_promotions(moves, sq, target, Some(piece.piece_type));
                    } else {
                        moves.push(Move::capture(sq, target, PieceType::Pawn, piece.piece_type));
                    }
                }
            },
            None => {},
        },
        None => {},
    }
    assert(moves@ =~= before + pawn_capture(board@.squares, pidx(player), sq.0 as int, k as int));
}

fn gen_pawn_moves(board: &Board, player: Player, sq: Square, moves: &mut Vec<Move>)
    requires
        board.wf(),
        sq.0 < 196,
    ensures
        final(moves)@ == old(moves)@ + pawn_moves(board@.squares, pidx(player), sq.0 as int),
{
    let ghost m0 = moves@;
    gen_pawn_pushes(board, player, sq, moves);
    gen_pawn_capture(board, player, sq, 0, moves);
    gen_pawn_capture(board, player, sq, 1, moves);
    assert(moves@ =~= m0 + pawn_moves(board@.squares, pidx(player), sq.0 as int));
}

fn gen_step_moves(board: &Board, player: Player, sq: Square, pt: PieceType, moves: &mut Vec<Move>)
    requires
        board.wf(),
        sq.0 < 196,
        pt == PieceType::Knight || pt == PieceType::King,
    ensures
        final(moves)@ == old(moves)@ + step_moves(board@.squares, pidx(player), sq.0 as int, pt, 8),
{
    let ghost sqs = board@.squares;
    let ghost m0 = moves@;
    let rank = sq.rank() as i8;
    let file = sq.file() as i8;
    let mut k: usize = 0;
    while k < 8
        invariant
            board.wf(),
            sqs == board@.squares,
            sq.0 < 196,
            pt == PieceType::Knight || pt == PieceType::King,
            k <= 8,
            rank == sq.0 / 14,
            file == sq.0 % 14,
            moves@ == m0 + step_moves(sqs, pidx(player), sq.0 as int, pt, k as int),
        decreases 8 - k,
    {
        let (dr, df) = if pt == PieceType::Knight {
            knight_off_exec(k)
        } else {
            any_dir_exec(k)
        };
        let ghost before = moves@;
        match try_square(rank + dr, file + df) {
            Some(target) => match board.piece_at(target) {
                None => moves.push(Move::new(sq, target, pt)),
                Some(piece) => {
                    if piece.player != player {
                        moves.push(Move::capture(sq, target, pt, piece.piece_type));
                    }
                },
            },
            None => {},
        }
        proof {
            assert(moves@ =~= m0 + step_moves(sqs, pidx(player), sq.0 as int, pt, k + 1));
        }
        k += 1;
    }
}

fn gen_ray(
    board: &Board,
    player: Player,
    sq: Square,
    pt: PieceType,
    dr: i8,
    df: i8,
    moves: &mut Vec<Move>,
)
    requires
        board.wf(),
        sq.0 < 196,
        unit_dir(dr as int, df as int),
    ensures
        final(moves)@ == old(moves)@ + ray_moves(
            board@.squares,
            pidx(player),
            sq.0 as int,
            pt,
            sq.0 / 14 + dr,
            sq.0 % 14 + df,
            dr as int,
            df as int,
        ),
{
    let ghost sqs = board@.squares;
    let ghost p = pidx(player);
    let ghost s = sq.0 as int;
    let ghost total = ray_moves(sqs, p, s, pt, s / 14 + dr, s % 14 + df, dr as int, df as int);
    let ghost m0 = moves@;
    let mut r: i8 = sq.rank() as i8 + dr;
    let mut f: i8 = sq.file() as i8 + df;
    loop
        invariant_except_break
            total == moves@.subrange(m0.len() as int, moves@.len() as int) + ray_moves(
                sqs,
                p,
                s,
                pt,
                r as int,
                f as int,
                dr as int,
                df as int,
            ),
            moves@.subrange(0, m0.len() as int) == m0,
            m0.len() <= moves@.len(),
        invariant
            board.wf(),
            sqs == board@.squares,
            unit_dir(dr as int, df as int),
            -1 <= r <= 14,
            -1 <= f <= 14,
            p == pidx(player),
            s == sq.0,
        ensures
            moves@ == m0 + total,
        decreases ray_measure(r as int, f as int, dr as int, df as int),
    {
        let ghost before = moves@;
        match try_square(r, f) {
            None => {
                assert(moves@ =~= m0 + total);
                break ;
            },
            Some(target) => match board.piece_at(target) {
                None => {
                    moves.push(Move::new(sq, target, pt));
                    proof {
                        assert(moves@.subrange(m0.len() as int, moves@.len() as int) =~= before.subrange(
                            m0.len() as int,
                            before.len() as int,
                        ).push(mk_new(s, target.0 as int, pt)));
                        assert(moves@.subrange(0, m0.len() as int) =~= before.subrange(
                            0,
                            m0.len() as int,
                        ));
                    }
                },
                Some(piece) => {
                    if piece.player != player {
                        moves.push(Move::capture(sq, target, pt, piece.piece_type));
                    }
                    proof {
                        assert(moves@.subrange(0, m0.len() as int) =~= before.subrange(
                            0,
                            m0.len() as int,
                        ));
                        assert(moves@ =~= m0 + total);
                    }
                    break ;
                },
            },
        }
        r = r + dr;
        f = f + df;
    }
}

fn gen_slider_moves(
    board: &Board,
    player: Player,
    sq: Square,
    pt: PieceType,
    fam: u8,
    moves: &mut Vec<Move>,
)
    requires
        board.wf(),
        sq.0 < 196,
        fam < 3,
    ensures
        final(moves)@ == old(moves)@ + slider_moves(
            board@.squares,
            pidx(player),
            sq.0 as int,
            pt,
            fam as int,
            if fam == 2 {
                8
            } else {
                4
            },
        ),
{
    let ghost m0 = moves@;
    let n: usize = if fam == 2 {
        8
    } else {
        4
    };
    let mut k: usize = 0;
    while k < n
        invariant
            board.wf(),
            sq.0 < 196,
            fam < 3,
            n == (if fam == 2 {
                8usize
            } else {
                4usize
            }),
            k <= n,
            moves@ == m0 + slider_moves(board@.squares, pidx(player), sq.0 as int, pt, fam as int, k as int),
        decreases n - k,
    {
        let (dr, df) = if fam == 0 {
            diag_dir_exec(k)
        } else if fam == 1 {
            ortho_dir_exec(k)
        } else {
            any_dir_exec(k)
        };
        let ghost before = moves@;
        gen_ray(board, player, sq, pt, dr, df, moves);
        proof {
            assert(moves@ =~= m0 + slider_moves(
                board@.squares,
                pidx(player),
                sq.0 as int,
                pt,
                fam as int,
                k + 1,
            ));
        }
        k += 1;
    }
}

fn gen_piece_moves(board: &Board, player: Player, pt: PieceType, sq: Square, moves: &mut Vec<Move>)
    requires
        board.wf(),
        sq.0 < 196,
    ensures
        final(moves)@ == old(moves)@ + piece_moves(board@.squares, pidx(player), sq.0 as int, pt),
{
    match pt {
        PieceType::Pawn => gen_pawn_moves(board, player, sq, moves),
        PieceType::Knight => gen_step_moves(board, player, sq, pt, moves),
        PieceType::Bishop => gen_slider_moves(board, player, sq, pt, 0, moves),
        PieceType::Rook => gen_slider_moves(board, player, sq, pt, 1, moves),
        PieceType::Queen | PieceType::PromotedQueen => gen_slider_moves(
            board,
            player,
            sq,
            pt,
            2,
            moves,
        ),
        PieceType::King => gen_step_moves(board, player, sq, pt, moves),
    }
}

fn gen_castling_moves(board: &Board, player: Player, moves: &mut Vec<Move>)
    requires
        board.wf(),
    ensures
        final(moves)@ == old(moves)@ + castle_moves(board@, pidx(player), 8),
{
    let ghost m0 = moves@;
    let ghost p = pidx(player);
    let rights = board.castling_rights();
    let opps = player.opponents();
    proof {
        board.lemma_wf();
    }
    let mut i: usize = 0;
    while i < 8
        invariant
            board.wf(),
            rights == board@.castling,
            p == pidx(player),
            i <= 8,
            forall|j: int| 0 <= j < 3 ==> opps@[j] != player,
            forall|o: int|
                #[trigger] is_other_player(o, pidx(player)) ==> pidx(opps@[0]) == o || pidx(
                    opps@[1],
                ) == o || pidx(opps@[2]) == o,
            moves@ == m0 + castle_moves(board@, p, i as int),
            board@.squares.len() == 196,
        decreases 8 - i,
    {
        let def = castle_def_exec(i);
        let ghost (pl, bit, kf, kt, rf, rt) = castle_def(i as int);
        proof {
            lemma_castle_consts(i as int);
        }
        let mut ok = def.player == player.index() && rights & (1u8 << def.rights_bit) != 0;
        if ok {
            let empties = castle_empty_exec(i);
            let mut j: usize = 0;
            while j < empties.len()
                invariant
                    board.wf(),
                    j <= empties@.len(),
                    empties@.map_values(|x: u8| x as int) == castle_empty(i as int),
                    forall|jj: int|
                        0 <= jj < castle_empty(i as int).len() ==> 0 <= #[trigger] castle_empty(
                            i as int,
                        )[jj] < 196,
                    ok ==> forall|jj: int|
                        0 <= jj < j ==> (#[trigger] board@.squares[castle_empty(i as int)[jj]]) is None,
                    !ok ==> exists|jj: int|
                        0 <= jj < castle_empty(i as int).len() && (#[trigger] board@.squares[castle_empty(
                            i as int,
                        )[jj]]) is Some,
                    i < 8,
                decreases empties@.len() - j,
            {
                proof {
                    assert(empties@.map_values(|x: u8| x as int)[j as int] == empties@[j as int]);
                }
                if ok && board.piece_at(Square(empties[j])).is_some() {
                    ok = false;
                }
                j += 1;
            }
        }
        if ok {
            let path = castle_path_exec(i);
            let mut j: usize = 0;
            while j < path.len()
                invariant
                    board.wf(),
                    j <= path@.len(),
                    path@.map_values(|x: u8| x as int) == castle_path(i as int),
                    forall|jj: int|
                        0 <= jj < castle_path(i as int).len() ==> 0 <= #[trigger] castle_path(
                            i as int,
                        )[jj] < 196,
                    forall|j: int| 0 <= j < 3 ==> opps@[j] != player,
                    forall|o: int|
                        #[trigger] is_other_player(o, pidx(player)) ==> pidx(opps@[0]) == o || pidx(
                            opps@[1],
                        ) == o || pidx(opps@[2]) == o,
                    ok ==> forall|jj: int, o: int|
                        0 <= jj < j && #[trigger] is_other_player(o, pidx(player)) ==> !attacked_by(
                            board@.squares,
                            #[trigger] castle_path(i as int)[jj],
                            o,
                        ),
                    !ok ==> !path_safe(board@.squares, pidx(player), i as int),
                    i < 8,
                decreases path@.len() - j,
            {
                proof {
                    assert(path@.map_values(|x: u8| x as int)[j as int] == path@[j as int]);
                }
                if ok {
                    let sq = Square(path[j]);
                    let mut k: usize = 0;
                    while k < 3
                        invariant
                            board.wf(),
                            k <= 3,
                            sq.0 < 196,
                            sq.0 == castle_path(i as int)[j as int],
                            ok ==> forall|kk: int|
                                0 <= kk < k ==> !attacked_by(
                                    board@.squares,
                                    sq.0 as int,
                                    pidx(#[trigger] opps@[kk]),
                                ),
                            !ok ==> exists|kk: int|
                                0 <= kk < 3 && attacked_by(
                                    board@.squares,
                                    sq.0 as int,
                                    pidx(#[trigger] opps@[kk]),
                                ),
                        decreases 3 - k,
                    {
                        if ok && board.is_square_attacked_by(sq, opps[k]) {
                            ok = false;
                        }
                        k += 1;
                    }
                    proof {
                        if !ok {
                            let kk = choose|kk: int|
                                0 <= kk < 3 && attacked_by(
                                    board@.squares,
                                    sq.0 as int,
                                    pidx(#[trigger] opps@[kk]),
                                );
                            assert(is_other_player(pidx(opps@[kk]), pidx(player)));
                        } else {
                            assert forall|jj: int, o: int|
                                0 <= jj < j + 1 && #[trigger] is_other_player(
                                    o,
                                    pidx(player),
                                ) implies !attacked_by(
                                board@.squares,
                                #[trigger] castle_path(i as int)[jj],
                                o,
                            ) by {
                                if jj == j {
                                    assert(!attacked_by(board@.squares, sq.0 as int, pidx(opps@[0])));
                                    assert(!attacked_by(board@.squares, sq.0 as int, pidx(opps@[1])));
                                    assert(!attacked_by(board@.squares, sq.0 as int, pidx(opps@[2])));
                                }
                            }
                        }
                    }
                }
                j += 1;
            }
        }
        if ok {
            ok = board.piece_at(Square(def.king_from)) == Some(Piece::new(PieceType::King, player))
                && board.piece_at(Square(def.rook_from)) == Some(Piece::new(PieceType::Rook, player));
        }
        let ghost before = moves@;
        if ok {
            moves.push(Move::castle(Square(def.king_from), Square(def.king_to)));
        }
        proof {
            assert(ok == castle_ok(board@, p, i as int));
            assert(moves@ =~= m0 + castle_moves(board@, p, i + 1));
        }
        i += 1;
    }
}

fn gen_en_passant_moves(board: &Board, player: Player, moves: &mut Vec<Move>)
    requires
        board.wf(),
    ensures
        final(moves)@ == old(moves)@ + ep_move(board@, pidx(player), 0) + ep_move(
            board@,
            pidx(player),
            1,
        ),
{
    let ghost m0 = moves@;
    proof {
        board.lemma_wf();
    }
    let ep_sq = match board.en_passant() {
        Some(sq) => sq,
        None => {
            assert(moves@ =~= m0 + ep_move(board@, pidx(player), 0) + ep_move(
                board@,
                pidx(player),
                1,
            ));
            return ;
        },
    };
    let ready = board.piece_at(ep_sq).is_none() && match board.en_passant_pushing_player() {
        Some(pp) => {
            let (dr, df) = push_dir_exec(pp.index());
            match try_square(ep_sq.rank() as i8 + dr, ep_sq.file() as i8 + df) {
                Some(c) => board.piece_at(c).is_some(),
                None => false,
            }
        },
        None => false,
    };
    assert(ready == ep_ready(board@));
    let mut k: usize = 0;
    while k < 2
        invariant
            board.wf(),
            board@.ep == Some(ep_sq),
            ep_sq.0 < 196,
            ready == ep_ready(board@),
            k <= 2,
            moves@ == m0 + (if k >= 1 {
                ep_move(board@, pidx(player), 0)
            } else {
                Seq::empty()
            }) + (if k >= 2 {
                ep_move(board@, pidx(player), 1)
            } else {
                Seq::empty()
            }),
        decreases 2 - k,
    {
        let ghost before = moves@;
        let (cr, cf) = pawn_cap_exec(player.index(), k);
        match try_square(ep_sq.rank() as i8 - cr, ep_sq.file() as i8 - cf) {
            Some(pawn_sq) => {
                if ready && board.piece_at(pawn_sq) == Some(Piece::new(PieceType::Pawn, player)) {
                    moves.push(Move::en_passant(pawn_sq, ep_sq));
                }
            },
            None => {},
        }
        proof {
            assert(moves@ =~= before + ep_move(board@, pidx(player), k as int));
            if k == 0 {
                assert(moves@ =~= m0 + ep_move(board@, pidx(player), 0) + Seq::empty());
            } else {
                assert(before =~= m0 + ep_move(board@, pidx(player), 0) + Seq::empty());
            }
        }
        k += 1;
    }
}

/// Generate all pseudo-legal moves for the side to move.
pub fn generate_pseudo_legal(board: &Board) -> (moves: Vec<Move>)
    requires
        board.wf(),
    ensures
        moves@ == pseudo_moves(*board),
{
    let player = board.side_to_move();
    let ghost p = pidx(player);
    let pieces = board.pieces(player);
    let mut moves: Vec<Move> = Vec::new();
    proof {
        board.lemma_wf();
        assert(list_sync(board.pieces_view(p), board@.squares, p));
    }
    let mut i: usize = 0;
    while i < pieces.len()
        invariant
            board.wf(),
            p == pidx(player),
            player == board@.stm,
            pieces@ == board.pieces_view(p),
            list_sync(board.pieces_view(p), board@.squares, p),
            i <= pieces@.len(),
            moves@ == list_moves(board@.squares, p, pieces@, i as int),
        decreases pieces@.len() - i,
    {
        let (pt, sq) = pieces[i];
        proof {
            assert(pieces@[i as int].1.0 < 196);
        }
        gen_piece_moves(board, player, pt, sq, &mut moves);
        i += 1;
    }
    gen_castling_moves(board, player, &mut moves);
    gen_en_passant_moves(board, player, &mut moves);
    moves
}

} // verus!
