//! Protocol response formatting.

use vstd::prelude::*;
use crate::moves::{move_text, Move};
use crate::text::{chars_to_string, dec, join, push_chars, push_dec, push_str, str_chars};
use crate::types::{player_name, Player};

verus! {

/// Decimal rendering of a signed number.
pub open spec fn sdec(x: int) -> Seq<char> {
    if x < 0 {
        seq!['-'] + dec((-x) as nat)
    } else {
        dec(x as nat)
    }
}

fn push_sdec(out: &mut Vec<char>, x: i16)
    ensures
        final(out)@ == old(out)@ + sdec(x as int),
{
    if x < 0 {
        out.push('-');
        let m = (-(x as i32)) as u32;
        push_dec(out, m as u64);
        proof {
            assert(final(out)@ =~= old(out)@ + sdec(x as int));
        }
    } else {
        push_dec(out, x as u64);
    }
}

/// The text of a `bestmove` response.
pub open spec fn bestmove_text(mv: Option<Move>) -> Seq<char> {
    match mv {
        Some(m) => "bestmove "@ + move_text(m),
        None => "bestmove (none)"@,
    }
}

/// Format a bestmove response.
pub fn format_bestmove(mv: Option<Move>) -> (s: String)
    ensures
        s@ == bestmove_text(mv),
{
    match mv {
        Some(m) => {
            let mut v: Vec<char> = Vec::new();
            push_str(&mut v, "bestmove ");
            let t = m.to_string();
            push_str(&mut v, t.as_str());
            chars_to_string(&v)
        },
        None => {
            let v = str_chars("bestmove (none)");
            chars_to_string(&v)
        },
    }
}

/// The text of the moves of a principal variation, space-separated.
pub open spec fn pv_text(pv: Seq<Move>) -> Seq<char> {
    join(pv.map_values(|m: Move| move_text(m)), seq![' '])
}

/// The depth field of an info line.
pub open spec fn depth_field(depth: Option<u32>) -> Seq<char> {
    match depth {
        Some(d) => " depth "@ + dec(d as nat),
        None => Seq::empty(),
    }
}

/// The score field of an info line.
pub open spec fn scores_field(scores: Option<[i16; 4]>) -> Seq<char> {
    match scores {
        Some(s) => " score red "@ + sdec(s[0] as int) + " blue "@ + sdec(s[1] as int)
            + " yellow "@ + sdec(s[2] as int) + " green "@ + sdec(s[3] as int),
        None => Seq::empty(),
    }
}

/// A counter field of an info line.
pub open spec fn count_field(label: Seq<char>, n: Option<u64>) -> Seq<char> {
    match n {
        Some(x) => label + dec(x as nat),
        None => Seq::empty(),
    }
}

/// The principal variation field of an info line.
pub open spec fn pv_field(pv: Option<Seq<Move>>) -> Seq<char> {
    match pv {
        Some(p) => if p.len() > 0 {
            " pv "@ + pv_text(p)
        } else {
            Seq::empty()
        },
        None => Seq::empty(),
    }
}

/// The text of an info line: each field that is present, in order.
pub open spec fn info_text(
    depth: Option<u32>,
    scores: Option<[i16; 4]>,
    nodes: Option<u64>,
    nps: Option<u64>,
    pv: Option<Seq<Move>>,
) -> Seq<char> {
    "info"@ + depth_field(depth) + scores_field(scores) + count_field(" nodes "@, nodes)
        + count_field(" nps "@, nps) + pv_field(pv)
}

fn push_pv(out: &mut Vec<char>, pv: &[Move])
    ensures
        final(out)@ == old(out)@ + pv_text(pv@),
{
    let ghost o0 = out@;
    let mut i: usize = 0;
    while i < pv.len()
        invariant
            i <= pv@.len(),
            out@ == o0 + pv_text(pv@.take(i as int)),
        decreases pv@.len() - i,
    {
        let ghost before = pv@.take(i as int);
        let ghost after = pv@.take(i + 1);
        proof {
            assert(after.drop_last() =~= before);
            assert(after.map_values(|m: Move| move_text(m)).drop_last() =~= before.map_values(
                |m: Move| move_text(m),
            ));
            assert(after.map_values(|m: Move| move_text(m)).last() == move_text(pv@[i as int]));
        }
        if i > 0 {
            out.push(' ');
        }
        let t = pv[i].to_string();
        push_str(out, t.as_str());
        proof {
            if i == 0 {
                assert(after.map_values(|m: Move| move_text(m)).len() == 1);
            }
            assert(out@ =~= o0 + pv_text(after));
        }
        i += 1;
    }
    proof {
        assert(pv@.take(pv@.len() as int) =~= pv@);
    }
}

fn push_depth(out: &mut Vec<char>, depth: Option<u32>)
    ensures
        final(out)@ == old(out)@ + depth_field(depth),
{
    match depth {
        Some(d) => {
            push_str(out, " depth ");
            push_dec(out, d as u64);
            proof {
                assert(final(out)@ =~= old(out)@ + depth_field(depth));
            }
        },
        None => {
            proof {
                assert(final(out)@ =~= old(out)@ + depth_field(depth));
            }
        },
    }
}

fn push_scores(out: &mut Vec<char>, scores: Option<[i16; 4]>)
    ensures
        final(out)@ == old(out)@ + scores_field(scores),
{
    match scores {
        Some(s) => {
            push_str(out, " score red ");
            push_sdec(out, s[0]);
            push_str(out, " blue ");
            push_sdec(out, s[1]);
            push_str(out, " yellow ");
            push_sdec(out, s[2]);
            push_str(out, " green ");
            push_sdec(out, s[3]);
            proof {
                assert(final(out)@ =~= old(out)@ + scores_field(scores));
            }
        },
        None => {
            proof {
                assert(final(out)@ =~= old(out)@ + scores_field(scores));
            }
        },
    }
}

fn push_count(out: &mut Vec<char>, label: &str, n: Option<u64>)
    ensures
        final(out)@ == old(out)@ + count_field(label@, n),
{
    match n {
        Some(x) => {
            push_str(out, label);
            push_dec(out, x);
            proof {
                assert(final(out)@ =~= old(out)@ + count_field(label@, n));
            }
        },
        None => {
            proof {
                assert(final(out)@ =~= old(out)@ + count_field(label@, n));
            }
        },
    }
}

/// Format an info line with search results; only present fields appear.
pub fn format_info(
    depth: Option<u32>,
    scores: Option<[i16; 4]>,
    nodes: Option<u64>,
    nps: Option<u64>,
    pv: Option<&[Move]>,
) -> (s: String)
    ensures
        s@ == info_text(
            depth,
            scores,
            nodes,
            nps,
            match pv {
                Some(p) => Some(p@),
                None => None,
            },
        ),
{
    let mut v: Vec<char> = Vec::new();
    push_str(&mut v, "info");
    push_depth(&mut v, depth);
    push_scores(&mut v, scores);
    push_count(&mut v, " nodes ", nodes);
    push_count(&mut v, " nps ", nps);
    let ghost e = v@;
    match pv {
        Some(p) => {
            if p.len() > 0 {
                push_str(&mut v, " pv ");
                push_pv(&mut v, p);
            }
        },
        None => {},
    }
    proof {
        let pvs = match pv {
            Some(p) => Some(p@),
            None => None::<Seq<Move>>,
        };
        assert(v@ =~= e + pv_field(pvs));
    }
    chars_to_string(&v)
}

/// Format an info string message.
pub fn format_info_string(msg: &str) -> (s: String)
    ensures
        s@ == "info string "@ + msg@,
{
    let mut v: Vec<char> = Vec::new();
    push_str(&mut v, "info string ");
    push_str(&mut v, msg);
    chars_to_string(&v)
}

/// Format an elimination event.
pub fn format_eliminated(player: Player, reason: &str) -> (s: String)
    ensures
        s@ == "info string eliminated "@ + player_name(player) + " "@ + reason@,
{
    let mut v: Vec<char> = Vec::new();
    push_str(&mut v, "info string eliminated ");
    let n = player.to_string();
    push_str(&mut v, n.as_str());
    push_str(&mut v, " ");
    push_str(&mut v, reason);
    chars_to_string(&v)
}

/// Format a turn change event.
pub fn format_nextturn(player: Player) -> (s: String)
    ensures
        s@ == "info string nextturn "@ + player_name(player),
{
    let mut v: Vec<char> = Vec::new();
    push_str(&mut v, "info string nextturn ");
    let n = player.to_string();
    push_str(&mut v, n.as_str());
    chars_to_string(&v)
}

/// Format an error message.
pub fn format_error(msg: &str) -> (s: String)
    ensures
        s@ == "info string error: "@ + msg@,
{
    let mut v: Vec<char> = Vec::new();
    push_str(&mut v, "info string error: ");
    push_str(&mut v, msg);
    chars_to_string(&v)
}

} // verus!
