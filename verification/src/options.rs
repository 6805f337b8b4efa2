//! Interpretation of `setoption` commands: which option, and its value
//! parsed and checked where that needs no floating point.

use vstd::prelude::*;
use crate::command::{parse_unsigned, parse_unsigned_text};
use crate::game_state::GameMode;
use crate::text::{chars_to_string, eq_lit, push_chars, push_str, split_char, split_on, str_chars, trim, views};
use crate::types::trim_ws;

verus! {

/// Result of applying a `setoption` command.
pub enum SetOptionResult {
    /// Option applied.
    Applied,
    /// Log to the file at this path.
    EnableLogFile(String),
    /// Stop logging.
    DisableLogFile,
    /// No option of this name.
    UnknownOption(String),
    /// The value is not valid for the option; the message says why.
    InvalidValue(String),
}

/// A checked change of an option that holds no floating-point value.
pub enum OptionChange {
    /// Game mode.
    GameMode(GameMode),
    /// Beam width (positive).
    BeamWidth(u32),
    /// Round limit; None for unlimited.
    MaxRounds(Option<u32>),
    /// Node limit (0 for none).
    MaxNodes(u64),
    /// Quiescence node limit.
    MaxQnodes(u64),
    /// Move noise, 0 to 100.
    MoveNoise(u32),
    /// Per-depth beam widths (all positive).
    BeamSchedule(Vec<usize>),
    /// Adaptive beam on or off.
    AdaptiveBeam(bool),
    /// Gumbel top-k (positive).
    GumbelK(usize),
    /// Opponent abstraction in simulations on or off.
    OpponentAbstraction(bool),
}

/// Opponent abstraction is on unless an option turns it off.
pub const DEFAULT_OPPONENT_ABSTRACTION: bool = true;

/// An option whose value is a floating-point number.
#[derive(Clone, Copy, Debug, PartialEq, Eq, Structural)]
pub enum FloatOption {
    /// Share of the time budget for the first search phase, in [0, 1].
    TimeSplitRatio,
    /// Opponent beam ratio, in [0, 1].
    OpponentBeamRatio,
    /// Prior softmax temperature, positive.
    PriorTemperature,
    /// Progressive history weight, non-negative.
    PHWeight,
    /// Prior coefficient, non-negative.
    CPrior,
}

/// What a `setoption` command asks for.
pub enum OptionAction {
    /// Apply a checked change.
    Change(OptionChange),
    /// Parse and check a floating-point value for this option.
    Float(FloatOption),
    /// Answer with this result, changing nothing.
    Reply(SetOptionResult),
}

/// The action is an invalid-value reply with message `msg`.
pub open spec fn invalid_with(a: OptionAction, msg: Seq<char>) -> bool {
    a matches OptionAction::Reply(SetOptionResult::InvalidValue(m)) && m@ == msg
}

/// A message of the form `prefix'value'`.
pub open spec fn got(prefix: Seq<char>, value: Seq<char>) -> Seq<char> {
    prefix + value + "'"@
}

/// The parsed widths of a beam schedule: comma-separated, each trimmed and
/// a positive integer; None if any part is not.
pub open spec fn schedule_of(value: Seq<char>) -> Option<Seq<usize>> {
    let parts = split_on(value, ',');
    if forall|i: int| 0 <= i < parts.len() ==> #[trigger] width_ok(parts[i]) {
        Some(Seq::new(parts.len(), |i: int| width_of(parts[i])))
    } else {
        None
    }
}

/// A schedule part is a positive integer once trimmed.
pub open spec fn width_ok(p: Seq<char>) -> bool {
    parse_unsigned(trim_ws(p), usize::MAX as int) matches Some(w) && w > 0
}

/// The width a schedule part gives.
pub open spec fn width_of(p: Seq<char>) -> usize {
    parse_unsigned(trim_ws(p), usize::MAX as int)->0 as usize
}

/// The action for option `name` with value `value`.
pub open spec fn option_action_ok(name: Seq<char>, value: Seq<char>, a: OptionAction) -> bool {
    if name == "GameMode"@ {
        if value == "FreeForAll"@ {
            a matches OptionAction::Change(OptionChange::GameMode(GameMode::FreeForAll))
        } else {
            invalid_with(a, "unknown GameMode '"@ + value + "' (available: FreeForAll)"@)
        }
    } else if name == "BeamWidth"@ {
        match parse_unsigned(value, u32::MAX as int) {
            Some(w) if w > 0 => a matches OptionAction::Change(OptionChange::BeamWidth(x)) && x == w,
            _ => invalid_with(a, got("BeamWidth must be a positive integer, got '"@, value)),
        }
    } else if name == "MaxRounds"@ {
        match parse_unsigned(value, u32::MAX as int) {
            Some(n) => a matches OptionAction::Change(OptionChange::MaxRounds(x)) && x == (if n == 0 {
                None
            } else {
                Some(n as u32)
            }),
            None => invalid_with(a, got("MaxRounds must be a non-negative integer, got '"@, value)),
        }
    } else if name == "LogFile"@ {
        if value == "none"@ {
            a matches OptionAction::Reply(SetOptionResult::DisableLogFile)
        } else {
            a matches OptionAction::Reply(SetOptionResult::EnableLogFile(p)) && p@ == value
        }
    } else if name == "TimeSplitRatio"@ {
        a matches OptionAction::Float(f) && f == FloatOption::TimeSplitRatio
    } else if name == "MaxNodes"@ {
        match parse_unsigned(value, u64::MAX as int) {
            Some(n) => a matches OptionAction::Change(OptionChange::MaxNodes(x)) && x == n,
            None => invalid_with(a, got("MaxNodes must be a non-negative integer, got '"@, value)),
        }
    } else if name == "MaxQnodes"@ {
        match parse_unsigned(value, u64::MAX as int) {
            Some(n) => a matches OptionAction::Change(OptionChange::MaxQnodes(x)) && x == n,
            None => invalid_with(a, got("MaxQnodes must be a non-negative integer, got '"@, value)),
        }
    } else if name == "MoveNoise"@ {
        match parse_unsigned(value, u32::MAX as int) {
            Some(n) if n <= 100 => a matches OptionAction::Change(OptionChange::MoveNoise(x)) && x == n,
            _ => invalid_with(a, got("MoveNoise must be an integer in [0, 100], got '"@, value)),
        }
    } else if name == "BeamSchedule"@ {
        match schedule_of(value) {
            Some(s) => a matches OptionAction::Change(OptionChange::BeamSchedule(v)) && v@ == s,
            None => invalid_with(a, got("BeamSchedule must be comma-separated positive integers, got '"@, value)),
        }
    } else if name == "AdaptiveBeam"@ {
        if value == "true"@ || value == "1"@ {
            a matches OptionAction::Change(OptionChange::AdaptiveBeam(x)) && x
        } else if value == "false"@ || value == "0"@ {
            a matches OptionAction::Change(OptionChange::AdaptiveBeam(x)) && !x
        } else {
            invalid_with(a, got("AdaptiveBeam must be true/false, got '"@, value))
        }
    } else if name == "OpponentBeamRatio"@ {
        a matches OptionAction::Float(f) && f == FloatOption::OpponentBeamRatio
    } else if name == "GumbelK"@ {
        match parse_unsigned(value, usize::MAX as int) {
            Some(k) if k > 0 => a matches OptionAction::Change(OptionChange::GumbelK(x)) && x == k,
            _ => invalid_with(a, got("GumbelK must be a positive integer, got '"@, value)),
        }
    } else if name == "OpponentAbstraction"@ {
        if value == "true"@ {
            a matches OptionAction::Change(OptionChange::OpponentAbstraction(x)) && x
        } else if value == "false"@ {
            a matches OptionAction::Change(OptionChange::OpponentAbstraction(x)) && !x
        } else {
            invalid_with(a, got("OpponentAbstraction must be true/false, got '"@, value))
        }
    } else if name == "PriorTemperature"@ {
        a matches OptionAction::Float(f) && f == FloatOption::PriorTemperature
    } else if name == "PHWeight"@ {
        a matches OptionAction::Float(f) && f == FloatOption::PHWeight
    } else if name == "CPrior"@ {
        a matches OptionAction::Float(f) && f == FloatOption::CPrior
    } else {
        a matches OptionAction::Reply(SetOptionResult::UnknownOption(n)) && n@ == name
    }
}

fn invalid(prefix: &str, value: &Vec<char>) -> (a: OptionAction)
    ensures
        invalid_with(a, got(prefix@, value@)),
{
    let mut out: Vec<char> = Vec::new();
    push_str(&mut out, prefix);
    push_chars(&mut out, value);
    push_str(&mut out, "'");
    proof {
        assert(out@ =~= got(prefix@, value@));
    }
    OptionAction::Reply(SetOptionResult::InvalidValue(chars_to_string(&out)))
}

fn parse_schedule(value: &Vec<char>) -> (r: Option<Vec<usize>>)
    ensures
        match schedule_of(value@) {
            Some(s) => r matches Some(v) && v@ == s,
            None => r is None,
        },
{
    let parts = split_char(value, ',');
    let ghost ps = split_on(value@, ',');
    let mut out: Vec<usize> = Vec::new();
    proof {
        assert(ps.len() == parts@.len());
    }
    let mut i: usize = 0;
    while i < parts.len()
        invariant
            views(parts@) == ps,
            ps.len() == parts@.len(),
            ps == split_on(value@, ','),
            i <= parts@.len(),
            out@.len() == i,
            forall|j: int| #![trigger ps[j]] 0 <= j < i ==> width_ok(ps[j]) && out@[j] == width_of(ps[j]),
        decreases parts.len() - i,
    {
        let t = trim(&parts[i]);
        proof {
            assert(parts@[i as int]@ == ps[i as int]);
        }
        match parse_unsigned_text(&t, usize::MAX as u64) {
            Some(w) if w > 0 => {
                out.push(w as usize);
            },
            _ => {
                proof {
                    assert(!width_ok(ps[i as int]));
                }
                return None;
            },
        }
        i = i + 1;
    }
    proof {
        assert(ps.len() == parts@.len());
        assert(out@ =~= Seq::new(ps.len(), |j: int| width_of(ps[j])));
    }
    Some(out)
}

/// Interpret a `setoption` command: the change it makes, the floating-point
/// option it sets, or the reply it gets.
pub fn interpret_option(name: &str, value: &str) -> (a: OptionAction)
    ensures
        option_action_ok(name@, value@, a),
{
    let n = str_chars(name);
    let v = str_chars(value);
    if eq_lit(&n, "GameMode") {
        if eq_lit(&v, "FreeForAll") {
            return OptionAction::Change(OptionChange::GameMode(GameMode::FreeForAll));
        }
        let mut out: Vec<char> = Vec::new();
        push_str(&mut out, "unknown GameMode '");
        push_chars(&mut out, &v);
        push_str(&mut out, "' (available: FreeForAll)");
        return OptionAction::Reply(SetOptionResult::InvalidValue(chars_to_string(&out)));
    }
    if eq_lit(&n, "BeamWidth") {
        return match parse_unsigned_text(&v, u32::MAX as u64) {
            Some(w) if w > 0 => OptionAction::Change(OptionChange::BeamWidth(w as u32)),
            _ => invalid("BeamWidth must be a positive integer, got '", &v),
        };
    }
    if eq_lit(&n, "MaxRounds") {
        return match parse_unsigned_text(&v, u32::MAX as u64) {
            Some(r) => OptionAction::Change(OptionChange::MaxRounds(if r == 0 { None } else { Some(r as u32) })),
            None => invalid("MaxRounds must be a non-negative integer, got '", &v),
        };
    }
    if eq_lit(&n, "LogFile") {
        if eq_lit(&v, "none") {
            return OptionAction::Reply(SetOptionResult::DisableLogFile);
        }
        return OptionAction::Reply(SetOptionResult::EnableLogFile(chars_to_string(&v)));
    }
    if eq_lit(&n, "TimeSplitRatio") {
        return OptionAction::Float(FloatOption::TimeSplitRatio);
    }
    if eq_lit(&n, "MaxNodes") {
        return match parse_unsigned_text(&v, u64::MAX) {
            Some(x) => OptionAction::Change(OptionChange::MaxNodes(x)),
            None => invalid("MaxNodes must be a non-negative integer, got '", &v),
        };
    }
    if eq_lit(&n, "MaxQnodes") {
        return match parse_unsigned_text(&v, u64::MAX) {
            Some(x) => OptionAction::Change(OptionChange::MaxQnodes(x)),
            None => invalid("MaxQnodes must be a non-negative integer, got '", &v),
        };
    }
    if eq_lit(&n, "MoveNoise") {
        return match parse_unsigned_text(&v, u32::MAX as u64) {
            Some(x) if x <= 100 => OptionAction::Change(OptionChange::MoveNoise(x as u32)),
            _ => invalid("MoveNoise must be an integer in [0, 100], got '", &v),
        };
    }
    if eq_lit(&n, "BeamSchedule") {
        return match parse_schedule(&v) {
            Some(s) => OptionAction::Change(OptionChange::BeamSchedule(s)),
            None => invalid("BeamSchedule must be comma-separated positive integers, got '", &v),
        };
    }
    if eq_lit(&n, "AdaptiveBeam") {
        if eq_lit(&v, "true") || eq_lit(&v, "1") {
            return OptionAction::Change(OptionChange::AdaptiveBeam(true));
        }
        if eq_lit(&v, "false") || eq_lit(&v, "0") {
            return OptionAction::Change(OptionChange::AdaptiveBeam(false));
        }
        return invalid("AdaptiveBeam must be true/false, got '", &v);
    }
    if eq_lit(&n, "OpponentBeamRatio") {
        return OptionAction::Float(FloatOption::OpponentBeamRatio);
    }
    if eq_lit(&n, "GumbelK") {
        return match parse_unsigned_text(&v, usize::MAX as u64) {
            Some(k) if k > 0 => OptionAction::Change(OptionChange::GumbelK(k as usize)),
            _ => invalid("GumbelK must be a positive integer, got '", &v),
        };
    }
    if eq_lit(&n, "OpponentAbstraction") {
        if eq_lit(&v, "true") {
            return OptionAction::Change(OptionChange::OpponentAbstraction(true));
        }
        if eq_lit(&v, "false") {
            return OptionAction::Change(OptionChange::OpponentAbstraction(false));
        }
        return invalid("OpponentAbstraction must be true/false, got '", &v);
    }
    if eq_lit(&n, "PriorTemperature") {
        return OptionAction::Float(FloatOption::PriorTemperature);
    }
    if eq_lit(&n, "PHWeight") {
        return OptionAction::Float(FloatOption::PHWeight);
    }
    if eq_lit(&n, "CPrior") {
        return OptionAction::Float(FloatOption::CPrior);
    }
    OptionAction::Reply(SetOptionResult::UnknownOption(chars_to_string(&n)))
}

} // verus!
