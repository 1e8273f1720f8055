//! The move search for the letter-sequence game: minimax with alpha-beta
//! pruning, depth-limited by `max_depth` (the difficulty knob), with the
//! tie-break among equally valued moves drawn from an injected random
//! seed.
//!
//! A move is a column together with a glyph, so each node branches twice
//! per open column: the mover picks the better of its two glyph choices
//! at a maximizing node and the worse at a minimizing one.  Terminal
//! positions are checked before the depth limit; positions at the depth
//! limit with no winning pattern score 0.

use vstd::prelude::*;
use crate::board::{BoardModel, GameError, Grid, Letter, Owner, Side};
use crate::engine4::{lemma_depth_sq, mover, score_limit, val_cap, win_score};
use crate::toot::{letter_wins, scan_letter_wins, TootOttoGameBoard};

verus! {

/// The column of flattened move `m`: moves come in glyph pairs per
/// column.
pub open spec fn spec_move_col(m: int) -> int {
    m / 2
}

/// The glyph of flattened move `m`.
pub open spec fn spec_move_letter(m: int) -> Letter {
    if m % 2 == 0 {
        Letter::T
    } else {
        Letter::O
    }
}

/// Value of a letter-game search node for side `me`, `depth` plies below
/// the root; see the module doc.
pub open spec fn t_node_value(
    b: BoardModel,
    me: Side,
    depth: int,
    max_depth: int,
    alpha: int,
    beta: int,
) -> int
    decreases max_depth - depth, 1int, 0int,
{
    if letter_wins(b, me) {
        win_score() - depth * depth
    } else if letter_wins(b, me.spec_other()) {
        -win_score() + depth * depth
    } else if b.full() {
        0
    } else if depth >= max_depth {
        0
    } else if depth % 2 == 0 {
        t_scan_max(b, me, depth, max_depth, 0, alpha, beta, -score_limit())
    } else {
        t_scan_min(b, me, depth, max_depth, 0, alpha, beta, score_limit())
    }
}

/// Maximizing scan of the flattened moves from `m` on.
pub open spec fn t_scan_max(
    b: BoardModel,
    me: Side,
    depth: int,
    max_depth: int,
    m: int,
    alpha: int,
    beta: int,
    v: int,
) -> int
    decreases max_depth - depth, 0int, 2 * b.columns - m,
{
    if depth >= max_depth || m < 0 || m >= 2 * b.columns {
        v
    } else if b.col_open(spec_move_col(m)) {
        let tv = t_node_value(
            b.do_drop(spec_move_col(m), mover(me, depth), spec_move_letter(m)),
            me,
            depth + 1,
            max_depth,
            alpha,
            beta,
        );
        let v2 = if tv > v {
            tv
        } else {
            v
        };
        if v2 > beta {
            v2
        } else {
            let a2 = if v2 > alpha {
                v2
            } else {
                alpha
            };
            t_scan_max(b, me, depth, max_depth, m + 1, a2, beta, v2)
        }
    } else {
        t_scan_max(b, me, depth, max_depth, m + 1, alpha, beta, v)
    }
}

/// Minimizing scan of the flattened moves from `m` on.
pub open spec fn t_scan_min(
    b: BoardModel,
    me: Side,
    depth: int,
    max_depth: int,
    m: int,
    alpha: int,
    beta: int,
    v: int,
) -> int
    decreases max_depth - depth, 0int, 2 * b.columns - m,
{
    if depth >= max_depth || m < 0 || m >= 2 * b.columns {
        v
    } else if b.col_open(spec_move_col(m)) {
        let tv = t_node_value(
            b.do_drop(spec_move_col(m), mover(me, depth), spec_move_letter(m)),
            me,
            depth + 1,
            max_depth,
            alpha,
            beta,
        );
        let v2 = if tv < v {
            tv
        } else {
            v
        };
        if v2 < alpha {
            v2
        } else {
            let b2 = if v2 < beta {
                v2
            } else {
                beta
            };
            t_scan_min(b, me, depth, max_depth, m + 1, alpha, b2, v2)
        }
    } else {
        t_scan_min(b, me, depth, max_depth, m + 1, alpha, beta, v)
    }
}

/// Root scan: evaluates each legal (column, glyph) move at depth 1,
/// in flattened-move order under the tightening alpha bound, and
/// collects the moves whose evaluation ties the running best value.
pub open spec fn t_root_scan(
    b: BoardModel,
    me: Side,
    max_depth: int,
    m: int,
    alpha: int,
    v: int,
    cands: Seq<(int, Letter)>,
) -> (int, Seq<(int, Letter)>)
    decreases 2 * b.columns - m,
{
    if m < 0 || m >= 2 * b.columns {
        (v, cands)
    } else if b.col_open(spec_move_col(m)) {
        let tv = t_node_value(
            b.do_drop(spec_move_col(m), me, spec_move_letter(m)),
            me,
            1,
            max_depth,
            alpha,
            score_limit(),
        );
        if tv > v {
            let a2 = if tv > alpha {
                tv
            } else {
                alpha
            };
            t_root_scan(b, me, max_depth, m + 1, a2, tv, seq![(spec_move_col(m), spec_move_letter(m))])
        } else if tv == v {
            t_root_scan(
                b,
                me,
                max_depth,
                m + 1,
                alpha,
                v,
                cands.push((spec_move_col(m), spec_move_letter(m))),
            )
        } else {
            t_root_scan(b, me, max_depth, m + 1, alpha, v, cands)
        }
    } else {
        t_root_scan(b, me, max_depth, m + 1, alpha, v, cands)
    }
}

/// The tie-break set, as the pruned root scan computes it, in
/// flattened-move order.  Later moves are evaluated under the alpha
/// bound the earlier ones set, so in the boundary case where such a
/// pruned evaluation returns exactly the running best value, the move
/// joins the set even though its exact value may be lower.
pub open spec fn t_root_candidates(b: BoardModel, me: Side, max_depth: int) -> Seq<(int, Letter)> {
    t_root_scan(b, me, max_depth, 0, -score_limit(), -score_limit(), Seq::empty()).1
}

/// Every letter-game node value lies within `val_cap`.
pub proof fn lemma_t_node_value_bound(
    b: BoardModel,
    me: Side,
    depth: int,
    max_depth: int,
    alpha: int,
    beta: int,
)
    requires
        b.wf(),
        0 <= depth <= max_depth,
        max_depth <= 10000,
    ensures
        -val_cap() <= t_node_value(b, me, depth, max_depth, alpha, beta) <= val_cap(),
    decreases max_depth - depth, 1int, 0int,
{
    lemma_depth_sq(depth);
    if letter_wins(b, me) {
    } else if letter_wins(b, me.spec_other()) {
    } else if b.full() {
    } else if depth >= max_depth {
    } else {
        let c = b.lemma_not_full_has_open();
        assert(spec_move_col(2 * c) == c);
        assert(0 <= 2 * c && b.col_open(spec_move_col(2 * c)));
        if depth % 2 == 0 {
            lemma_t_scan_max_bound(b, me, depth, max_depth, 0, alpha, beta, -score_limit());
        } else {
            lemma_t_scan_min_bound(b, me, depth, max_depth, 0, alpha, beta, score_limit());
        }
    }
}

/// The maximizing scan keeps its result within `val_cap`, provided either
/// the running value is already within it, or a legal move remains.
pub proof fn lemma_t_scan_max_bound(
    b: BoardModel,
    me: Side,
    depth: int,
    max_depth: int,
    m: int,
    alpha: int,
    beta: int,
    v: int,
)
    requires
        b.wf(),
        0 <= depth < max_depth,
        max_depth <= 10000,
        0 <= m,
        (-val_cap() <= v <= val_cap()) || (v == -score_limit() && exists|m2: int|
            m <= m2 && #[trigger] b.col_open(spec_move_col(m2)) && m2 < 2 * b.columns),
    ensures
        -val_cap() <= t_scan_max(b, me, depth, max_depth, m, alpha, beta, v) <= val_cap(),
    decreases max_depth - depth, 0int, 2 * b.columns - m,
{
    if m >= 2 * b.columns {
        if v == -score_limit() {
            assert(-val_cap() <= v <= val_cap()) by {
                if exists|m2: int|
                    m <= m2 && #[trigger] b.col_open(spec_move_col(m2)) && m2 < 2 * b.columns {
                    let m2 = choose|m2: int|
                        m <= m2 && #[trigger] b.col_open(spec_move_col(m2)) && m2 < 2 * b.columns;
                    assert(false);
                }
            }
        }
    } else if b.col_open(spec_move_col(m)) {
        let child = b.do_drop(spec_move_col(m), mover(me, depth), spec_move_letter(m));
        b.lemma_do_drop_wf(spec_move_col(m), mover(me, depth), spec_move_letter(m));
        lemma_t_node_value_bound(child, me, depth + 1, max_depth, alpha, beta);
        let tv = t_node_value(child, me, depth + 1, max_depth, alpha, beta);
        let v2 = if tv > v {
            tv
        } else {
            v
        };
        if v2 > beta {
        } else {
            let a2 = if v2 > alpha {
                v2
            } else {
                alpha
            };
            lemma_t_scan_max_bound(b, me, depth, max_depth, m + 1, a2, beta, v2);
        }
    } else {
        if v == -score_limit() && exists|m2: int|
            m <= m2 && #[trigger] b.col_open(spec_move_col(m2)) && m2 < 2 * b.columns {
            let m2 = choose|m2: int|
                m <= m2 && #[trigger] b.col_open(spec_move_col(m2)) && m2 < 2 * b.columns;
            assert(m2 != m);
            assert(m + 1 <= m2 && b.col_open(spec_move_col(m2)) && m2 < 2 * b.columns);
        }
        lemma_t_scan_max_bound(b, me, depth, max_depth, m + 1, alpha, beta, v);
    }
}

/// The minimizing scan keeps its result within `val_cap`, provided either
/// the running value is already within it, or a legal move remains.
pub proof fn lemma_t_scan_min_bound(
    b: BoardModel,
    me: Side,
    depth: int,
    max_depth: int,
    m: int,
    alpha: int,
    beta: int,
    v: int,
)
    requires
        b.wf(),
        0 <= depth < max_depth,
        max_depth <= 10000,
        0 <= m,
        (-val_cap() <= v <= val_cap()) || (v == score_limit() && exists|m2: int|
            m <= m2 && #[trigger] b.col_open(spec_move_col(m2)) && m2 < 2 * b.columns),
    ensures
        -val_cap() <= t_scan_min(b, me, depth, max_depth, m, alpha, beta, v) <= val_cap(),
    decreases max_depth - depth, 0int, 2 * b.columns - m,
{
    if m >= 2 * b.columns {
        if v == score_limit() {
            assert(-val_cap() <= v <= val_cap()) by {
                if exists|m2: int|
                    m <= m2 && #[trigger] b.col_open(spec_move_col(m2)) && m2 < 2 * b.columns {
                    let m2 = choose|m2: int|
                        m <= m2 && #[trigger] b.col_open(spec_move_col(m2)) && m2 < 2 * b.columns;
                    assert(false);
                }
            }
        }
    } else if b.col_open(spec_move_col(m)) {
        let child = b.do_drop(spec_move_col(m), mover(me, depth), spec_move_letter(m));
        b.lemma_do_drop_wf(spec_move_col(m), mover(me, depth), spec_move_letter(m));
        lemma_t_node_value_bound(child, me, depth + 1, max_depth, alpha, beta);
        let tv = t_node_value(child, me, depth + 1, max_depth, alpha, beta);
        let v2 = if tv < v {
            tv
        } else {
            v
        };
        if v2 < alpha {
        } else {
            let b2 = if v2 < beta {
                v2
            } else {
                beta
            };
            lemma_t_scan_min_bound(b, me, depth, max_depth, m + 1, alpha, b2, v2);
        }
    } else {
        if v == score_limit() && exists|m2: int|
            m <= m2 && #[trigger] b.col_open(spec_move_col(m2)) && m2 < 2 * b.columns {
            let m2 = choose|m2: int|
                m <= m2 && #[trigger] b.col_open(spec_move_col(m2)) && m2 < 2 * b.columns;
            assert(m2 != m);
            assert(m + 1 <= m2 && b.col_open(spec_move_col(m2)) && m2 < 2 * b.columns);
        }
        lemma_t_scan_min_bound(b, me, depth, max_depth, m + 1, alpha, beta, v);
    }
}

/// Evaluates one letter-game search node; returns exactly the value of
/// the alpha-beta recursion `t_node_value`.
fn t_eval_node(g: &Grid, me: Side, depth: usize, max_depth: usize, alpha0: i64, beta: i64) -> (r:
    i64)
    requires
        g.wf(),
        1 <= depth <= max_depth,
        max_depth <= 10000,
    ensures
        r as int == t_node_value(
            g.model(),
            me,
            depth as int,
            max_depth as int,
            alpha0 as int,
            beta as int,
        ),
    decreases max_depth - depth,
{
    let ghost b = g.model();
    proof {
        lemma_depth_sq(depth as int);
    }
    let (fa, fb) = scan_letter_wins(g);
    let win_me = if me == Side::A {
        fa
    } else {
        fb
    };
    let win_opp = if me == Side::A {
        fb
    } else {
        fa
    };
    let dd = (depth * depth) as i64;
    if win_me {
        return 999999 - dd;
    }
    if win_opp {
        return -999999 + dd;
    }
    if g.is_full() {
        return 0;
    }
    if depth == max_depth {
        return 0;
    }
    let maximizing = depth % 2 == 0;
    let mut v: i64 = if maximizing {
        -100000000007
    } else {
        100000000007
    };
    let mut a: i64 = alpha0;
    let mut bt: i64 = beta;
    let mut m: usize = 0;
    let bound = 2 * g.columns;
    while m < bound
        invariant
            g.wf(),
            b == g.model(),
            1 <= depth < max_depth <= 10000,
            bound == 2 * g.columns,
            m <= bound,
            maximizing == (depth % 2 == 0),
            maximizing ==> t_node_value(
                b,
                me,
                depth as int,
                max_depth as int,
                alpha0 as int,
                beta as int,
            ) == t_scan_max(
                b,
                me,
                depth as int,
                max_depth as int,
                m as int,
                a as int,
                beta as int,
                v as int,
            ),
            maximizing ==> bt == beta,
            !maximizing ==> t_node_value(
                b,
                me,
                depth as int,
                max_depth as int,
                alpha0 as int,
                beta as int,
            ) == t_scan_min(
                b,
                me,
                depth as int,
                max_depth as int,
                m as int,
                alpha0 as int,
                bt as int,
                v as int,
            ),
            !maximizing ==> a == alpha0,
        decreases bound - m,
    {
        let col = m / 2;
        let glyph = if m % 2 == 0 {
            Letter::T
        } else {
            Letter::O
        };
        proof {
            assert(col as int == spec_move_col(m as int));
            assert(glyph == spec_move_letter(m as int));
        }
        let top = g.cell(0, col);
        if top.owner == Owner::Empty {
            assert(b.col_open(col as int));
            let mv = if maximizing {
                me
            } else {
                me.other()
            };
            proof {
                assert(mv == mover(me, depth as int));
            }
            let mut child = g.duplicate();
            let res = child.try_drop(col, mv, glyph);
            proof {
                assert(res is Ok);
                assert(child.model() == b.do_drop(
                    spec_move_col(m as int),
                    mover(me, depth as int),
                    spec_move_letter(m as int),
                ));
            }
            let tv = t_eval_node(&child, me, depth + 1, max_depth, a, bt);
            if maximizing {
                let v2 = if tv > v {
                    tv
                } else {
                    v
                };
                if v2 > bt {
                    return v2;
                }
                if v2 > a {
                    a = v2;
                }
                v = v2;
            } else {
                let v2 = if tv < v {
                    tv
                } else {
                    v
                };
                if v2 < a {
                    return v2;
                }
                if v2 < bt {
                    bt = v2;
                }
                v = v2;
            }
        }
        m += 1;
    }
    v
}

/// Chooses a move — a column and a glyph — for side `me` on the given
/// board by the depth-limited alpha-beta search.
///
/// Fails with `NoLegalMove` exactly when no column is open.  Otherwise
/// the returned move is a member of the tie-break set that the pruned
/// root scan computes (see `t_root_candidates`), selected by `seed`
/// modulo the size of that set, so varying seeds reach every member of
/// the set.  On a position still in play with a non-losing move
/// available, `lemma_letter_search_admissibility` shows that every
/// member of that set avoids an immediate loss.
pub fn choose_move_toot(
    board: &TootOttoGameBoard,
    me: Side,
    max_depth: usize,
    seed: u64,
) -> (r: Result<(usize, Letter), GameError>)
    requires
        board.wf(),
        1 <= max_depth <= 10000,
    ensures
        (r is Err) <==> (forall|c: int| !board.grid.model().col_open(c)),
        r is Err ==> r == Err::<(usize, Letter), GameError>(GameError::NoLegalMove),
        r matches Ok(p) ==> {
            &&& board.grid.model().col_open(p.0 as int)
            &&& p.1 != Letter::Blank
            &&& t_root_candidates(board.grid.model(), me, max_depth as int).contains(
                (p.0 as int, p.1),
            )
            &&& (p.0 as int, p.1) == t_root_candidates(board.grid.model(), me, max_depth as int)[(
            seed as int) % (t_root_candidates(board.grid.model(), me, max_depth as int).len() as int)]
        },
{
    let g = &board.grid;
    let ghost b = g.model();
    let mut v: i64 = -100000000007;
    let mut a: i64 = -100000000007;
    let mut cands: Vec<(usize, Letter)> = Vec::new();
    let ghost mut gc: Seq<(int, Letter)> = Seq::empty();
    let mut m: usize = 0;
    let bound = 2 * g.columns;
    while m < bound
        invariant
            g.wf(),
            b == g.model(),
            1 <= max_depth <= 10000,
            bound == 2 * g.columns,
            m <= bound,
            t_root_scan(b, me, max_depth as int, m as int, a as int, v as int, gc) == t_root_scan(
                b,
                me,
                max_depth as int,
                0,
                -score_limit(),
                -score_limit(),
                Seq::empty(),
            ),
            gc == cands@.map_values(|p: (usize, Letter)| (p.0 as int, p.1)),
            forall|k: int|
                0 <= k < cands@.len() ==> b.col_open((#[trigger] cands@[k]).0 as int)
                    && cands@[k].1 != Letter::Blank,
            (cands@.len() == 0) <==> (forall|m2: int|
                0 <= m2 < m ==> !(#[trigger] b.col_open(spec_move_col(m2)))),
            (cands@.len() == 0) ==> v == -100000000007,
        decreases bound - m,
    {
        let col = m / 2;
        let glyph = if m % 2 == 0 {
            Letter::T
        } else {
            Letter::O
        };
        proof {
            assert(col as int == spec_move_col(m as int));
            assert(glyph == spec_move_letter(m as int));
        }
        let top = g.cell(0, col);
        if top.owner == Owner::Empty {
            assert(b.col_open(col as int));
            let mut child = g.duplicate();
            let res = child.try_drop(col, me, glyph);
            proof {
                assert(res is Ok);
                assert(child.model() == b.do_drop(
                    spec_move_col(m as int),
                    me,
                    spec_move_letter(m as int),
                ));
                b.lemma_do_drop_wf(spec_move_col(m as int), me, spec_move_letter(m as int));
                lemma_t_node_value_bound(
                    child.model(),
                    me,
                    1,
                    max_depth as int,
                    a as int,
                    score_limit(),
                );
            }
            let tv = t_eval_node(&child, me, 1, max_depth, a, 100000000007);
            if tv > v {
                v = tv;
                if tv > a {
                    a = tv;
                }
                cands = Vec::new();
                cands.push((col, glyph));
                proof {
                    gc = seq![(col as int, glyph)];
                    assert(cands@.map_values(|p: (usize, Letter)| (p.0 as int, p.1)) =~= gc);
                    assert(cands@[0] == (col, glyph));
                    assert forall|k: int|
                        0 <= k < cands@.len() implies b.col_open(
                        (#[trigger] cands@[k]).0 as int,
                    ) && cands@[k].1 != Letter::Blank by {
                        assert(cands@[k] == (col, glyph));
                    }
                }
            } else if tv == v {
                let ghost prev = cands@;
                cands.push((col, glyph));
                proof {
                    gc = gc.push((col as int, glyph));
                    assert(cands@.map_values(|p: (usize, Letter)| (p.0 as int, p.1)) =~= gc);
                    assert forall|k: int|
                        0 <= k < cands@.len() implies b.col_open(
                        (#[trigger] cands@[k]).0 as int,
                    ) && cands@[k].1 != Letter::Blank by {
                        if k < prev.len() {
                            assert(cands@[k] == prev[k]);
                        } else {
                            assert(cands@[k] == (col, glyph));
                        }
                    }
                }
            }
        } else {
            proof {
                if cands@.len() == 0 {
                    assert forall|m2: int|
                        0 <= m2 < m + 1 implies !(#[trigger] b.col_open(spec_move_col(m2))) by {
                        if m2 == m as int {
                            assert(spec_move_col(m2) == col as int);
                        }
                    }
                }
            }
        }
        m += 1;
    }
    proof {
        assert(t_root_scan(b, me, max_depth as int, m as int, a as int, v as int, gc) == (
        v as int, gc));
    }
    if cands.len() == 0 {
        proof {
            assert forall|c: int| !(#[trigger] b.col_open(c)) by {
                if b.col_open(c) {
                    assert(0 <= c < g.columns);
                    assert(spec_move_col(2 * c) == c);
                    assert(0 <= 2 * c < m && b.col_open(spec_move_col(2 * c)));
                }
            }
        }
        Err(GameError::NoLegalMove)
    } else {
        let n = cands.len() as u64;
        let idx = (seed % n) as usize;
        proof {
            assert(idx < cands@.len());
            assert(gc == t_root_candidates(b, me, max_depth as int));
            assert(gc[idx as int] == (cands@[idx as int].0 as int, cands@[idx as int].1));
            assert(gc.contains(gc[idx as int]));
        }
        Ok(cands[idx])
    }
}

/// The drop of glyph `l` by side `me` into open column `c` is an
/// immediately losing move: it does not complete `me`'s own pattern,
/// and either it completes the opponent's pattern itself, or some reply
/// of the opponent completes the opponent's pattern without completing
/// `me`'s.  (In the letter game either mover's disc can complete either
/// pattern, so both ways of losing at once exist.)
pub open spec fn t_loses_at_once(b: BoardModel, me: Side, c: int, l: Letter) -> bool {
    &&& b.col_open(c)
    &&& !letter_wins(b.do_drop(c, me, l), me)
    &&& {
        ||| letter_wins(b.do_drop(c, me, l), me.spec_other())
        ||| exists|m2: int|
            0 <= m2 < 2 * b.columns && #[trigger] b.do_drop(c, me, l).col_open(spec_move_col(m2))
                && letter_wins(
                b.do_drop(c, me, l).do_drop(
                    spec_move_col(m2),
                    me.spec_other(),
                    spec_move_letter(m2),
                ),
                me.spec_other(),
            ) && !letter_wins(
                b.do_drop(c, me, l).do_drop(
                    spec_move_col(m2),
                    me.spec_other(),
                    spec_move_letter(m2),
                ),
                me,
            )
    }
}

/// Squares of the depths the admissibility argument meets stay within
/// the ranges its inequalities need.
#[verifier::nonlinear]
proof fn lemma_t_adm_squares(d: int)
    requires
        0 <= d <= 500,
    ensures
        0 <= d * d <= 250000,
        1 <= (d + 1) * (d + 1) <= 251001,
        (d + 2) * (d + 2) <= 252004,
        (d + 1) * (d + 1) <= (d + 2) * (d + 2),
        d * d <= (d + 1) * (d + 1),
{
}

/// Floor on the value of any letter-game node the opponent has not
/// already won: the worst case is the opponent's pattern completed on
/// the very next move, scored `-win_score() + (depth + 1)^2`.
proof fn lemma_t_node_value_floor(
    b: BoardModel,
    me: Side,
    depth: int,
    max_depth: int,
    alpha: int,
    beta: int,
)
    requires
        b.wf(),
        !letter_wins(b, me.spec_other()),
        0 <= depth <= max_depth,
        max_depth <= 500,
    ensures
        t_node_value(b, me, depth, max_depth, alpha, beta) >= -win_score() + (depth + 1) * (depth
            + 1),
    decreases max_depth - depth, 1int, 0int,
{
    lemma_t_adm_squares(depth);
    if letter_wins(b, me) {
    } else if letter_wins(b, me.spec_other()) {
    } else if b.full() {
    } else if depth >= max_depth {
    } else {
        let c = b.lemma_not_full_has_open();
        assert(spec_move_col(2 * c) == c);
        assert(0 <= 2 * c && b.col_open(spec_move_col(2 * c)) && 2 * c < 2 * b.columns);
        if depth % 2 == 0 {
            lemma_t_scan_max_floor(b, me, depth, max_depth, 0, alpha, beta, -score_limit());
        } else {
            lemma_t_scan_min_floor(b, me, depth, max_depth, 0, alpha, beta, score_limit());
        }
    }
}

/// The maximizing scan respects the value floor: a child on which the
/// opponent's pattern just appeared is worth exactly the floor, any
/// other child at least the next floor.
proof fn lemma_t_scan_max_floor(
    b: BoardModel,
    me: Side,
    depth: int,
    max_depth: int,
    m: int,
    alpha: int,
    beta: int,
    v: int,
)
    requires
        b.wf(),
        !letter_wins(b, me),
        !letter_wins(b, me.spec_other()),
        0 <= depth < max_depth,
        max_depth <= 500,
        0 <= m,
        (v >= -win_score() + (depth + 1) * (depth + 1)) || (v == -score_limit() && exists|m2: int|
            m <= m2 && #[trigger] b.col_open(spec_move_col(m2)) && m2 < 2 * b.columns),
    ensures
        t_scan_max(b, me, depth, max_depth, m, alpha, beta, v) >= -win_score() + (depth + 1) * (
        depth + 1),
    decreases max_depth - depth, 0int, 2 * b.columns - m,
{
    lemma_t_adm_squares(depth);
    if m >= 2 * b.columns {
        if v == -score_limit() {
            if exists|m2: int|
                m <= m2 && #[trigger] b.col_open(spec_move_col(m2)) && m2 < 2 * b.columns {
                let m2 = choose|m2: int|
                    m <= m2 && #[trigger] b.col_open(spec_move_col(m2)) && m2 < 2 * b.columns;
                assert(false);
            }
        }
    } else if b.col_open(spec_move_col(m)) {
        let child = b.do_drop(spec_move_col(m), mover(me, depth), spec_move_letter(m));
        b.lemma_do_drop_wf(spec_move_col(m), mover(me, depth), spec_move_letter(m));
        let tv = t_node_value(child, me, depth + 1, max_depth, alpha, beta);
        if letter_wins(child, me) {
            assert(tv == win_score() - (depth + 1) * (depth + 1));
        } else if letter_wins(child, me.spec_other()) {
            assert(tv == -win_score() + (depth + 1) * (depth + 1));
        } else {
            lemma_t_node_value_floor(child, me, depth + 1, max_depth, alpha, beta);
        }
        let v2 = if tv > v {
            tv
        } else {
            v
        };
        if v2 > beta {
        } else {
            let a2 = if v2 > alpha {
                v2
            } else {
                alpha
            };
            lemma_t_scan_max_floor(b, me, depth, max_depth, m + 1, a2, beta, v2);
        }
    } else {
        if v == -score_limit() && exists|m2: int|
            m <= m2 && #[trigger] b.col_open(spec_move_col(m2)) && m2 < 2 * b.columns {
            let m2 = choose|m2: int|
                m <= m2 && #[trigger] b.col_open(spec_move_col(m2)) && m2 < 2 * b.columns;
            assert(m2 != m);
            assert(m + 1 <= m2 && b.col_open(spec_move_col(m2)) && m2 < 2 * b.columns);
        }
        lemma_t_scan_max_floor(b, me, depth, max_depth, m + 1, alpha, beta, v);
    }
}

/// The minimizing scan respects the value floor, by the same child case
/// split as the maximizing one.
proof fn lemma_t_scan_min_floor(
    b: BoardModel,
    me: Side,
    depth: int,
    max_depth: int,
    m: int,
    alpha: int,
    beta: int,
    v: int,
)
    requires
        b.wf(),
        !letter_wins(b, me),
        !letter_wins(b, me.spec_other()),
        0 <= depth < max_depth,
        max_depth <= 500,
        0 <= m,
        v >= -win_score() + (depth + 1) * (depth + 1),
    ensures
        t_scan_min(b, me, depth, max_depth, m, alpha, beta, v) >= -win_score() + (depth + 1) * (
        depth + 1),
    decreases max_depth - depth, 0int, 2 * b.columns - m,
{
    lemma_t_adm_squares(depth);
    if m >= 2 * b.columns {
    } else if b.col_open(spec_move_col(m)) {
        let child = b.do_drop(spec_move_col(m), mover(me, depth), spec_move_letter(m));
        b.lemma_do_drop_wf(spec_move_col(m), mover(me, depth), spec_move_letter(m));
        let tv = t_node_value(child, me, depth + 1, max_depth, alpha, beta);
        if letter_wins(child, me) {
            assert(tv == win_score() - (depth + 1) * (depth + 1));
        } else if letter_wins(child, me.spec_other()) {
            assert(tv == -win_score() + (depth + 1) * (depth + 1));
        } else {
            lemma_t_node_value_floor(child, me, depth + 1, max_depth, alpha, beta);
        }
        let v2 = if tv < v {
            tv
        } else {
            v
        };
        if v2 < alpha {
        } else {
            let b2 = if v2 < beta {
                v2
            } else {
                beta
            };
            lemma_t_scan_min_floor(b, me, depth, max_depth, m + 1, alpha, b2, v2);
        }
    } else {
        lemma_t_scan_min_floor(b, me, depth, max_depth, m + 1, alpha, beta, v);
    }
}

/// The minimizing scan never returns more than its running value.
proof fn lemma_t_scan_min_le(
    b: BoardModel,
    me: Side,
    depth: int,
    max_depth: int,
    m: int,
    alpha: int,
    beta: int,
    v: int,
)
    ensures
        t_scan_min(b, me, depth, max_depth, m, alpha, beta, v) <= v,
    decreases 2 * b.columns - m,
{
    if depth >= max_depth || m < 0 || m >= 2 * b.columns {
    } else if b.col_open(spec_move_col(m)) {
        let tv = t_node_value(
            b.do_drop(spec_move_col(m), mover(me, depth), spec_move_letter(m)),
            me,
            depth + 1,
            max_depth,
            alpha,
            beta,
        );
        let v2 = if tv < v {
            tv
        } else {
            v
        };
        if v2 < alpha {
        } else {
            let b2 = if v2 < beta {
                v2
            } else {
                beta
            };
            lemma_t_scan_min_le(b, me, depth, max_depth, m + 1, alpha, b2, v2);
        }
    } else {
        lemma_t_scan_min_le(b, me, depth, max_depth, m + 1, alpha, beta, v);
    }
}

/// A minimizing scan that still has the opponent's winning reply `m2`
/// ahead of it either walks into that reply, capping its result at the
/// immediate-loss sentinel, or prunes first, returning less than its
/// inherited `alpha`.
proof fn lemma_t_scan_min_hits_loss(
    b1: BoardModel,
    me: Side,
    max_depth: int,
    m: int,
    alpha: int,
    beta: int,
    v: int,
    m2: int,
)
    requires
        b1.wf(),
        !letter_wins(b1, me),
        !letter_wins(b1, me.spec_other()),
        2 <= max_depth <= 500,
        0 <= m <= m2 < 2 * b1.columns,
        b1.col_open(spec_move_col(m2)),
        letter_wins(
            b1.do_drop(spec_move_col(m2), me.spec_other(), spec_move_letter(m2)),
            me.spec_other(),
        ),
        !letter_wins(b1.do_drop(spec_move_col(m2), me.spec_other(), spec_move_letter(m2)), me),
    ensures
        t_scan_min(b1, me, 1, max_depth, m, alpha, beta, v) <= -win_score() + 4 || t_scan_min(
            b1,
            me,
            1,
            max_depth,
            m,
            alpha,
            beta,
            v,
        ) < alpha,
    decreases m2 - m,
{
    if b1.col_open(spec_move_col(m)) {
        assert(mover(me, 1) == me.spec_other());
        let child = b1.do_drop(spec_move_col(m), me.spec_other(), spec_move_letter(m));
        let tv = t_node_value(child, me, 2, max_depth, alpha, beta);
        let v2 = if tv < v {
            tv
        } else {
            v
        };
        let b2 = if v2 < beta {
            v2
        } else {
            beta
        };
        if m == m2 {
            assert(!letter_wins(child, me));
            assert(letter_wins(child, me.spec_other()));
            assert(tv == -win_score() + 4);
            if v2 < alpha {
            } else {
                lemma_t_scan_min_le(b1, me, 1, max_depth, m + 1, alpha, b2, v2);
            }
        } else {
            if v2 < alpha {
            } else {
                lemma_t_scan_min_hits_loss(b1, me, max_depth, m + 1, alpha, b2, v2, m2);
            }
        }
    } else {
        assert(m != m2);
        lemma_t_scan_min_hits_loss(b1, me, max_depth, m + 1, alpha, beta, v, m2);
    }
}

/// A minimizing scan over a board on which no reply of the opponent
/// completes the opponent's pattern alone keeps its result at or above
/// the two-move-loss sentinel.
proof fn lemma_t_scan_min_floor_safe(
    b1: BoardModel,
    me: Side,
    max_depth: int,
    m: int,
    alpha: int,
    beta: int,
    v: int,
)
    requires
        b1.wf(),
        !letter_wins(b1, me),
        !letter_wins(b1, me.spec_other()),
        2 <= max_depth <= 500,
        0 <= m,
        v >= -win_score() + 9,
        forall|m2: int|
            0 <= m2 < 2 * b1.columns && #[trigger] b1.col_open(spec_move_col(m2)) ==> !(
            letter_wins(
                b1.do_drop(spec_move_col(m2), me.spec_other(), spec_move_letter(m2)),
                me.spec_other(),
            ) && !letter_wins(
                b1.do_drop(spec_move_col(m2), me.spec_other(), spec_move_letter(m2)),
                me,
            )),
    ensures
        t_scan_min(b1, me, 1, max_depth, m, alpha, beta, v) >= -win_score() + 9,
    decreases 2 * b1.columns - m,
{
    if m >= 2 * b1.columns {
    } else if b1.col_open(spec_move_col(m)) {
        assert(mover(me, 1) == me.spec_other());
        let child = b1.do_drop(spec_move_col(m), me.spec_other(), spec_move_letter(m));
        b1.lemma_do_drop_wf(spec_move_col(m), me.spec_other(), spec_move_letter(m));
        let tv = t_node_value(child, me, 2, max_depth, alpha, beta);
        if letter_wins(child, me) {
            assert(tv == win_score() - 4);
        } else {
            assert(!letter_wins(child, me.spec_other()));
            lemma_t_node_value_floor(child, me, 2, max_depth, alpha, beta);
        }
        assert(tv >= -win_score() + 9);
        let v2 = if tv < v {
            tv
        } else {
            v
        };
        if v2 < alpha {
        } else {
            let b2 = if v2 < beta {
                v2
            } else {
                beta
            };
            lemma_t_scan_min_floor_safe(b1, me, max_depth, m + 1, alpha, b2, v2);
        }
    } else {
        lemma_t_scan_min_floor_safe(b1, me, max_depth, m + 1, alpha, beta, v);
    }
}

/// The root evaluation of a move that is not an immediately losing one
/// is at least the two-move-loss sentinel.
proof fn lemma_t_safe_move_value(
    b: BoardModel,
    me: Side,
    max_depth: int,
    c: int,
    l: Letter,
    alpha: int,
)
    requires
        b.wf(),
        !letter_wins(b, me),
        !letter_wins(b, me.spec_other()),
        2 <= max_depth <= 500,
        b.col_open(c),
        !t_loses_at_once(b, me, c, l),
    ensures
        t_node_value(b.do_drop(c, me, l), me, 1, max_depth, alpha, score_limit()) >= -win_score()
            + 9,
{
    let child1 = b.do_drop(c, me, l);
    b.lemma_do_drop_wf(c, me, l);
    if letter_wins(child1, me) {
        assert(t_node_value(child1, me, 1, max_depth, alpha, score_limit()) == win_score() - 1);
    } else {
        assert(!letter_wins(child1, me.spec_other()));
        if child1.full() {
        } else {
            lemma_t_scan_min_floor_safe(
                child1,
                me,
                max_depth,
                0,
                alpha,
                score_limit(),
                score_limit(),
            );
        }
    }
}

/// The root scan keeps its best value at or above the two-move-loss
/// sentinel once a non-losing move exists, and then admits no
/// immediately losing move into the tie-break set.
proof fn lemma_t_root_scan_no_losing(
    b: BoardModel,
    me: Side,
    max_depth: int,
    m: int,
    alpha: int,
    v: int,
    cands: Seq<(int, Letter)>,
)
    requires
        b.wf(),
        !letter_wins(b, me),
        !letter_wins(b, me.spec_other()),
        2 <= max_depth <= 500,
        0 <= m,
        alpha == v,
        (v >= -win_score() + 9) || (exists|ms: int|
            m <= ms < 2 * b.columns && #[trigger] b.col_open(spec_move_col(ms))
                && !t_loses_at_once(b, me, spec_move_col(ms), spec_move_letter(ms))),
        v > -win_score() + 4 ==> (forall|k: int|
            0 <= k < cands.len() ==> !t_loses_at_once(
                b,
                me,
                (#[trigger] cands[k]).0,
                cands[k].1,
            )),
    ensures
        t_root_scan(b, me, max_depth, m, alpha, v, cands).0 >= -win_score() + 9,
        forall|k: int|
            0 <= k < t_root_scan(b, me, max_depth, m, alpha, v, cands).1.len()
                ==> !t_loses_at_once(
                b,
                me,
                (#[trigger] t_root_scan(b, me, max_depth, m, alpha, v, cands).1[k]).0,
                t_root_scan(b, me, max_depth, m, alpha, v, cands).1[k].1,
            ),
    decreases 2 * b.columns - m,
{
    let col = spec_move_col(m);
    let glyph = spec_move_letter(m);
    if m >= 2 * b.columns {
        if !(v >= -win_score() + 9) {
            let ms = choose|ms: int|
                m <= ms < 2 * b.columns && #[trigger] b.col_open(spec_move_col(ms))
                    && !t_loses_at_once(b, me, spec_move_col(ms), spec_move_letter(ms));
            assert(false);
        }
    } else if b.col_open(col) {
        let child1 = b.do_drop(col, me, glyph);
        let tv = t_node_value(child1, me, 1, max_depth, alpha, score_limit());
        if t_loses_at_once(b, me, col, glyph) {
            assert(!letter_wins(child1, me));
            b.lemma_do_drop_wf(col, me, glyph);
            if letter_wins(child1, me.spec_other()) {
                assert(tv == -win_score() + 1);
            } else {
                let m2 = choose|m2: int|
                    0 <= m2 < 2 * b.columns && #[trigger] child1.col_open(spec_move_col(m2))
                        && letter_wins(
                        child1.do_drop(spec_move_col(m2), me.spec_other(), spec_move_letter(m2)),
                        me.spec_other(),
                    ) && !letter_wins(
                        child1.do_drop(spec_move_col(m2), me.spec_other(), spec_move_letter(m2)),
                        me,
                    );
                if child1.full() {
                    crate::board::lemma_count_filled_full(child1.cells);
                    crate::board::lemma_idx_in_range(
                        child1.rows,
                        child1.columns,
                        0,
                        spec_move_col(m2),
                    );
                    assert(child1.occupied(0, spec_move_col(m2)));
                    assert(false);
                }
                assert(tv == t_scan_min(
                    child1,
                    me,
                    1,
                    max_depth,
                    0,
                    alpha,
                    score_limit(),
                    score_limit(),
                ));
                lemma_t_scan_min_hits_loss(
                    child1,
                    me,
                    max_depth,
                    0,
                    alpha,
                    score_limit(),
                    score_limit(),
                    m2,
                );
            }
            assert(tv <= -win_score() + 4 || tv < alpha);
        } else {
            lemma_t_safe_move_value(b, me, max_depth, col, glyph, alpha);
            assert(tv >= -win_score() + 9);
        }
        if tv > v {
            if t_loses_at_once(b, me, col, glyph) {
                assert(tv <= -win_score() + 4);
                if v >= -win_score() + 9 {
                    assert(false);
                }
                let ms = choose|ms: int|
                    m <= ms < 2 * b.columns && #[trigger] b.col_open(spec_move_col(ms))
                        && !t_loses_at_once(b, me, spec_move_col(ms), spec_move_letter(ms));
                assert(ms != m);
                assert(m + 1 <= ms < 2 * b.columns && b.col_open(spec_move_col(ms))
                    && !t_loses_at_once(b, me, spec_move_col(ms), spec_move_letter(ms)));
            }
            let cands2 = seq![(col, glyph)];
            lemma_t_root_scan_no_losing(b, me, max_depth, m + 1, tv, tv, cands2);
            assert forall|k: int| 0 <= k < cands2.len() && tv > -win_score() + 4
                implies !t_loses_at_once(b, me, (#[trigger] cands2[k]).0, cands2[k].1) by {
                assert(cands2[k] == (col, glyph));
            }
        } else if tv == v {
            let cands2 = cands.push((col, glyph));
            if v > -win_score() + 4 {
                assert(!t_loses_at_once(b, me, col, glyph));
                assert forall|k: int| 0 <= k < cands2.len() implies !t_loses_at_once(
                    b,
                    me,
                    (#[trigger] cands2[k]).0,
                    cands2[k].1,
                ) by {
                    if k < cands.len() {
                        assert(cands2[k] == cands[k]);
                    } else {
                        assert(cands2[k] == (col, glyph));
                    }
                }
            }
            if !(v >= -win_score() + 9) {
                let ms = choose|ms: int|
                    m <= ms < 2 * b.columns && #[trigger] b.col_open(spec_move_col(ms))
                        && !t_loses_at_once(b, me, spec_move_col(ms), spec_move_letter(ms));
                if ms == m {
                    assert(tv >= -win_score() + 9);
                    assert(false);
                }
                assert(m + 1 <= ms < 2 * b.columns && b.col_open(spec_move_col(ms))
                    && !t_loses_at_once(b, me, spec_move_col(ms), spec_move_letter(ms)));
            }
            lemma_t_root_scan_no_losing(b, me, max_depth, m + 1, alpha, v, cands2);
        } else {
            if !(v >= -win_score() + 9) {
                let ms = choose|ms: int|
                    m <= ms < 2 * b.columns && #[trigger] b.col_open(spec_move_col(ms))
                        && !t_loses_at_once(b, me, spec_move_col(ms), spec_move_letter(ms));
                if ms == m {
                    assert(tv >= -win_score() + 9);
                    assert(false);
                }
                assert(m + 1 <= ms < 2 * b.columns && b.col_open(spec_move_col(ms))
                    && !t_loses_at_once(b, me, spec_move_col(ms), spec_move_letter(ms)));
            }
            lemma_t_root_scan_no_losing(b, me, max_depth, m + 1, alpha, v, cands);
        }
    } else {
        if !(v >= -win_score() + 9) {
            let ms = choose|ms: int|
                m <= ms < 2 * b.columns && #[trigger] b.col_open(spec_move_col(ms))
                    && !t_loses_at_once(b, me, spec_move_col(ms), spec_move_letter(ms));
            assert(ms != m);
            assert(m + 1 <= ms < 2 * b.columns && b.col_open(spec_move_col(ms))
                && !t_loses_at_once(b, me, spec_move_col(ms), spec_move_letter(ms)));
        }
        lemma_t_root_scan_no_losing(b, me, max_depth, m + 1, alpha, v, cands);
    }
}

/// Search admissibility for the letter game: on a board still in play,
/// if some legal (column, glyph) move is not an immediately losing one,
/// then the tie-break set holds only such moves.  Together with
/// `choose_move_toot`'s contract, the search never returns an
/// immediately losing move while a non-losing one exists.  The depth cap
/// keeps the depth-adjusted sentinels apart, which the argument needs.
pub proof fn lemma_letter_search_admissibility(
    b: BoardModel,
    me: Side,
    max_depth: int,
    c: int,
    l: Letter,
)
    requires
        b.wf(),
        !letter_wins(b, Side::A),
        !letter_wins(b, Side::B),
        2 <= max_depth <= 500,
        b.col_open(c),
        l == Letter::T || l == Letter::O,
        !t_loses_at_once(b, me, c, l),
    ensures
        forall|k: int|
            0 <= k < t_root_candidates(b, me, max_depth).len() ==> !t_loses_at_once(
                b,
                me,
                (#[trigger] t_root_candidates(b, me, max_depth)[k]).0,
                t_root_candidates(b, me, max_depth)[k].1,
            ),
{
    let ms = if l == Letter::T {
        2 * c
    } else {
        2 * c + 1
    };
    assert(spec_move_col(ms) == c);
    assert(spec_move_letter(ms) == l);
    assert(0 <= ms < 2 * b.columns && b.col_open(spec_move_col(ms)) && !t_loses_at_once(
        b,
        me,
        spec_move_col(ms),
        spec_move_letter(ms),
    ));
    lemma_t_root_scan_no_losing(
        b,
        me,
        max_depth,
        0,
        -score_limit(),
        -score_limit(),
        Seq::empty(),
    );
}

} // verus!
