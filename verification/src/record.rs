//! The flat record describing a finished game, handed to the persistence
//! collaborator: sequence number, game kind, player names, winner name
//! (or "Draw"), and the millisecond timestamp of the terminal transition.

use vstd::prelude::*;
use vstd::string::StringExecFns;

verus! {

/// A finished game, as the excluded persistence layer consumes it.
pub struct Game {
    pub game_number: i32,
    pub game_type: String,
    pub player1_name: String,
    pub player2_name: String,
    pub winner_name: String,
    pub game_date: i64,
}

/// The character of one decimal digit.
pub open spec fn digit_char(d: int) -> char {
    if d == 0 {
        '0'
    } else if d == 1 {
        '1'
    } else if d == 2 {
        '2'
    } else if d == 3 {
        '3'
    } else if d == 4 {
        '4'
    } else if d == 5 {
        '5'
    } else if d == 6 {
        '6'
    } else if d == 7 {
        '7'
    } else if d == 8 {
        '8'
    } else {
        '9'
    }
}

/// Decimal digit sequence of a nonnegative integer, most significant
/// first.
pub open spec fn dec_digits(n: int) -> Seq<char>
    decreases n,
{
    if n < 10 {
        seq![digit_char(n)]
    } else {
        dec_digits(n / 10).push(digit_char(n % 10))
    }
}

/// Decimal representation of an integer, with a leading minus sign when
/// negative.
pub open spec fn dec_int(n: int) -> Seq<char> {
    if n < 0 {
        seq!['-'] + dec_digits(-n)
    } else {
        dec_digits(n)
    }
}

/// The JSON text of a finished-game record: the six fields in order, the
/// string fields quoted verbatim.
pub open spec fn spec_game_json(g: Game) -> Seq<char> {
    "{\"game_number\": "@ + dec_int(g.game_number as int) + ", \"game_type\": \""@
        + g.game_type@ + "\", \"player1_name\": \""@ + g.player1_name@
        + "\", \"player2_name\": \""@ + g.player2_name@ + "\", \"winner_name\": \""@
        + g.winner_name@ + "\", \"game_date\": "@ + dec_int(g.game_date as int) + " }"@
}

/// The one-character string of a decimal digit.
fn digit_str(d: u64) -> (r: &'static str)
    requires
        d < 10,
    ensures
        r@ == seq![digit_char(d as int)],
{
    if d == 0 {
        proof {
            reveal_strlit("0");
        }
        "0"
    } else if d == 1 {
        proof {
            reveal_strlit("1");
        }
        "1"
    } else if d == 2 {
        proof {
            reveal_strlit("2");
        }
        "2"
    } else if d == 3 {
        proof {
            reveal_strlit("3");
        }
        "3"
    } else if d == 4 {
        proof {
            reveal_strlit("4");
        }
        "4"
    } else if d == 5 {
        proof {
            reveal_strlit("5");
        }
        "5"
    } else if d == 6 {
        proof {
            reveal_strlit("6");
        }
        "6"
    } else if d == 7 {
        proof {
            reveal_strlit("7");
        }
        "7"
    } else if d == 8 {
        proof {
            reveal_strlit("8");
        }
        "8"
    } else {
        proof {
            reveal_strlit("9");
        }
        "9"
    }
}

/// Appends the decimal digits of `n` to `s`.
fn push_digits(s: &mut String, n: u64)
    ensures
        final(s)@ == old(s)@ + dec_digits(n as int),
    decreases n,
{
    if n < 10 {
        s.append(digit_str(n));
    } else {
        push_digits(s, n / 10);
        s.append(digit_str(n % 10));
        proof {
            assert(old(s)@ + dec_digits(n as int / 10) + seq![digit_char(n as int % 10)] =~= old(
                s,
            )@ + dec_digits(n as int));
        }
    }
}

/// Appends the decimal representation of `n`, sign included, to `s`.
fn push_dec_i64(s: &mut String, n: i64)
    ensures
        final(s)@ == old(s)@ + dec_int(n as int),
{
    if n >= 0 {
        push_digits(s, n as u64);
    } else {
        proof {
            reveal_strlit("-");
        }
        s.append("-");
        let mag: u64 = ((-(n + 1)) as u64) + 1;
        proof {
            assert(mag as int == -(n as int));
        }
        push_digits(s, mag);
        proof {
            assert(old(s)@ + "-"@ + dec_digits(mag as int) =~= old(s)@ + dec_int(n as int));
        }
    }
}

/// The JSON texts of a list of records, joined by ", ".
pub open spec fn spec_games_json(s: Seq<Game>) -> Seq<char>
    decreases s.len(),
{
    if s.len() == 0 {
        Seq::empty()
    } else if s.len() == 1 {
        spec_game_json(s[0])
    } else {
        spec_games_json(s.drop_last()) + ", "@ + spec_game_json(s.last())
    }
}

/// A list of finished games as one flat JSON array.
pub open spec fn spec_games_json_array(s: Seq<Game>) -> Seq<char> {
    "["@ + spec_games_json(s) + "]"@
}

/// Renders a list of finished games as the JSON array
/// `spec_games_json_array`: the records in order, joined by ", ", inside
/// brackets.
pub fn games_json_array(games: &Vec<Game>) -> (r: String)
    ensures
        r@ == spec_games_json_array(games@),
{
    let mut s = String::new();
    s.append("[");
    let mut k: usize = 0;
    while k < games.len()
        invariant
            k <= games@.len(),
            s@ == "["@ + spec_games_json(games@.subrange(0, k as int)),
        decreases games@.len() - k,
    {
        if k > 0 {
            s.append(", ");
        }
        let js = games[k].to_json_string();
        s.append(js.as_str());
        proof {
            let sub = games@.subrange(0, k as int + 1);
            assert(sub.drop_last() =~= games@.subrange(0, k as int));
            assert(sub.last() == games@[k as int]);
            if k == 0 {
                assert(games@.subrange(0, 0).len() == 0);
                assert(s@ =~= "["@ + spec_games_json(sub));
            } else {
                assert(s@ =~= "["@ + spec_games_json(sub));
            }
        }
        k += 1;
    }
    proof {
        assert(games@.subrange(0, games@.len() as int) =~= games@);
    }
    s.append("]");
    proof {
        assert(s@ =~= spec_games_json_array(games@));
    }
    s
}

impl Game {
    /// Renders the record as the flat JSON text `spec_game_json`; field
    /// values are interpolated verbatim.
    pub fn to_json_string(&self) -> (r: String)
        ensures
            r@ == spec_game_json(*self),
    {
        let mut s = String::new();
        s.append("{\"game_number\": ");
        push_dec_i64(&mut s, self.game_number as i64);
        s.append(", \"game_type\": \"");
        s.append(self.game_type.as_str());
        s.append("\", \"player1_name\": \"");
        s.append(self.player1_name.as_str());
        s.append("\", \"player2_name\": \"");
        s.append(self.player2_name.as_str());
        s.append("\", \"winner_name\": \"");
        s.append(self.winner_name.as_str());
        s.append("\", \"game_date\": ");
        push_dec_i64(&mut s, self.game_date as i64);
        s.append(" }");
        proof {
            assert(s@ =~= spec_game_json(*self));
        }
        s
    }
}

} // verus!
