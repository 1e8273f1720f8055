//! The move search for the four-in-a-row game: minimax with alpha-beta
//! pruning over copied board snapshots, depth-limited by `max_depth`, with
//! the tie-break among equally valued columns drawn from an injected
//! random seed.
//!
//! Terminal positions are checked before the depth limit and score
//! `+-(win_score() - depth^2)`, so faster forced wins score strictly
//! higher and faster forced losses strictly lower.  At the depth limit the
//! cubed-run heuristic of the rule set scores the position from the
//! searching side's point of view.

use vstd::prelude::*;
use crate::board::{lemma_count_filled_full, lemma_idx_in_range, BoardModel, GameError, Grid, Letter, Owner, Side};
use crate::connect4::{board_score, heuristic, lemma_board_score_bound, lemma_drop_other_side, scan_wins, wins, Connect4GameBoard};

verus! {

/// Sentinel score of a won position, before the depth adjustment.
pub open spec fn win_score() -> int {
    999999
}

/// Initial alpha/beta bounds; outside every reachable score.
pub open spec fn score_limit() -> int {
    100000000007
}

/// A bound on every node value the search can produce: sentinel plus
/// depth adjustment plus heuristic magnitude stay below it.
pub open spec fn val_cap() -> int {
    200000000
}

/// The side that moves at `depth` plies below the searching side's turn.
pub open spec fn mover(me: Side, depth: int) -> Side {
    if depth % 2 == 0 {
        me
    } else {
        me.spec_other()
    }
}

/// Value of a search node for side `me`, `depth` plies below the root.
///
/// A terminal position (a win of either side, or a full board) is scored
/// first; at `max_depth` the heuristic scores the position; otherwise the
/// node's children, one per open column, are scored by the alpha-beta
/// scans below, maximizing on `me`'s turns and minimizing on the
/// opponent's.
pub open spec fn node_value(
    b: BoardModel,
    me: Side,
    depth: int,
    max_depth: int,
    alpha: int,
    beta: int,
) -> int
    decreases max_depth - depth, 1int, 0int,
{
    if wins(b, me) {
        win_score() - depth * depth
    } else if wins(b, me.spec_other()) {
        -win_score() + depth * depth
    } else if b.full() {
        0
    } else if depth >= max_depth {
        if me == Side::A {
            board_score(b)
        } else {
            -board_score(b)
        }
    } else if depth % 2 == 0 {
        scan_max(b, me, depth, max_depth, 0, alpha, beta, -score_limit())
    } else {
        scan_min(b, me, depth, max_depth, 0, alpha, beta, score_limit())
    }
}

/// Maximizing scan of the open columns from `j` on, with running best
/// value `v` and bound `alpha`: stops early once `v` exceeds the
/// inherited `beta`.
pub open spec fn scan_max(
    b: BoardModel,
    me: Side,
    depth: int,
    max_depth: int,
    j: int,
    alpha: int,
    beta: int,
    v: int,
) -> int
    decreases max_depth - depth, 0int, b.columns - j,
{
    if depth >= max_depth || j < 0 || j >= b.columns {
        v
    } else if b.col_open(j) {
        let tv = node_value(
            b.do_drop(j, mover(me, depth), Letter::Blank),
            me,
            depth + 1,
            max_depth,
            alpha,
            beta,
        );
        let v2 = if tv > v {
            tv
        } else {
            v
        };
        if v2 > beta {
            v2
        } else {
            let a2 = if v2 > alpha {
                v2
            } else {
                alpha
            };
            scan_max(b, me, depth, max_depth, j + 1, a2, beta, v2)
        }
    } else {
        scan_max(b, me, depth, max_depth, j + 1, alpha, beta, v)
    }
}

/// Minimizing scan of the open columns from `j` on: stops early once `v`
/// falls below the inherited `alpha`.
pub open spec fn scan_min(
    b: BoardModel,
    me: Side,
    depth: int,
    max_depth: int,
    j: int,
    alpha: int,
    beta: int,
    v: int,
) -> int
    decreases max_depth - depth, 0int, b.columns - j,
{
    if depth >= max_depth || j < 0 || j >= b.columns {
        v
    } else if b.col_open(j) {
        let tv = node_value(
            b.do_drop(j, mover(me, depth), Letter::Blank),
            me,
            depth + 1,
            max_depth,
            alpha,
            beta,
        );
        let v2 = if tv < v {
            tv
        } else {
            v
        };
        if v2 < alpha {
            v2
        } else {
            let b2 = if v2 < beta {
                v2
            } else {
                beta
            };
            scan_min(b, me, depth, max_depth, j + 1, alpha, b2, v2)
        }
    } else {
        scan_min(b, me, depth, max_depth, j + 1, alpha, beta, v)
    }
}

/// Root scan: evaluates each open column at depth 1, left to right under
/// the tightening alpha bound, and collects the columns whose evaluation
/// ties the running best value, in ascending order.
pub open spec fn root_scan(
    b: BoardModel,
    me: Side,
    max_depth: int,
    j: int,
    alpha: int,
    v: int,
    cands: Seq<int>,
) -> (int, Seq<int>)
    decreases b.columns - j,
{
    if j < 0 || j >= b.columns {
        (v, cands)
    } else if b.col_open(j) {
        let tv = node_value(
            b.do_drop(j, me, Letter::Blank),
            me,
            1,
            max_depth,
            alpha,
            score_limit(),
        );
        if tv > v {
            let a2 = if tv > alpha {
                tv
            } else {
                alpha
            };
            root_scan(b, me, max_depth, j + 1, a2, tv, seq![j])
        } else if tv == v {
            root_scan(b, me, max_depth, j + 1, alpha, v, cands.push(j))
        } else {
            root_scan(b, me, max_depth, j + 1, alpha, v, cands)
        }
    } else {
        root_scan(b, me, max_depth, j + 1, alpha, v, cands)
    }
}

/// The tie-break set, as the pruned root scan computes it.  Later
/// columns are evaluated under the alpha bound the earlier ones set, so
/// in the boundary case where such a pruned evaluation returns exactly
/// the running best value, the column joins the set even though its
/// exact value may be lower.
pub open spec fn root_candidates(b: BoardModel, me: Side, max_depth: int) -> Seq<int> {
    root_scan(b, me, max_depth, 0, -score_limit(), -score_limit(), Seq::empty()).1
}

/// `depth^2` stays small for supported depths.
#[verifier::nonlinear]
pub proof fn lemma_depth_sq(depth: int)
    requires
        0 <= depth <= 10000,
    ensures
        0 <= depth * depth <= 100000000,
{
}

/// Every node value lies within `val_cap`.
pub proof fn lemma_node_value_bound(
    b: BoardModel,
    me: Side,
    depth: int,
    max_depth: int,
    alpha: int,
    beta: int,
)
    requires
        b.wf(),
        0 <= depth <= max_depth,
        max_depth <= 10000,
    ensures
        -val_cap() <= node_value(b, me, depth, max_depth, alpha, beta) <= val_cap(),
    decreases max_depth - depth, 1int, 0int,
{
    lemma_depth_sq(depth);
    if wins(b, me) {
    } else if wins(b, me.spec_other()) {
    } else if b.full() {
    } else if depth >= max_depth {
        lemma_board_score_bound(b);
    } else {
        let c = b.lemma_not_full_has_open();
        if depth % 2 == 0 {
            lemma_scan_max_bound(b, me, depth, max_depth, 0, alpha, beta, -score_limit());
        } else {
            lemma_scan_min_bound(b, me, depth, max_depth, 0, alpha, beta, score_limit());
        }
    }
}

/// The maximizing scan keeps its result within `val_cap`, provided either
/// the running value is already within it, or an open column remains.
pub proof fn lemma_scan_max_bound(
    b: BoardModel,
    me: Side,
    depth: int,
    max_depth: int,
    j: int,
    alpha: int,
    beta: int,
    v: int,
)
    requires
        b.wf(),
        0 <= depth < max_depth,
        max_depth <= 10000,
        0 <= j,
        (-val_cap() <= v <= val_cap()) || (v == -score_limit() && exists|c: int|
            j <= c && #[trigger] b.col_open(c)),
    ensures
        -val_cap() <= scan_max(b, me, depth, max_depth, j, alpha, beta, v) <= val_cap(),
    decreases max_depth - depth, 0int, b.columns - j,
{
    if j >= b.columns {
        if v == -score_limit() {
            assert(-val_cap() <= v <= val_cap()) by {
                if exists|c: int| j <= c && #[trigger] b.col_open(c) {
                    let c = choose|c: int| j <= c && #[trigger] b.col_open(c);
                    assert(c < b.columns);
                }
            }
        }
    } else if b.col_open(j) {
        let child = b.do_drop(j, mover(me, depth), Letter::Blank);
        b.lemma_do_drop_wf(j, mover(me, depth), Letter::Blank);
        lemma_node_value_bound(child, me, depth + 1, max_depth, alpha, beta);
        let tv = node_value(child, me, depth + 1, max_depth, alpha, beta);
        let v2 = if tv > v {
            tv
        } else {
            v
        };
        if v2 > beta {
        } else {
            let a2 = if v2 > alpha {
                v2
            } else {
                alpha
            };
            lemma_scan_max_bound(b, me, depth, max_depth, j + 1, a2, beta, v2);
        }
    } else {
        if v == -score_limit() && exists|c: int| j <= c && #[trigger] b.col_open(c) {
            let c = choose|c: int| j <= c && #[trigger] b.col_open(c);
            assert(c != j);
            assert(j + 1 <= c && b.col_open(c));
        }
        lemma_scan_max_bound(b, me, depth, max_depth, j + 1, alpha, beta, v);
    }
}

/// The minimizing scan keeps its result within `val_cap`, provided either
/// the running value is already within it, or an open column remains.
pub proof fn lemma_scan_min_bound(
    b: BoardModel,
    me: Side,
    depth: int,
    max_depth: int,
    j: int,
    alpha: int,
    beta: int,
    v: int,
)
    requires
        b.wf(),
        0 <= depth < max_depth,
        max_depth <= 10000,
        0 <= j,
        (-val_cap() <= v <= val_cap()) || (v == score_limit() && exists|c: int|
            j <= c && #[trigger] b.col_open(c)),
    ensures
        -val_cap() <= scan_min(b, me, depth, max_depth, j, alpha, beta, v) <= val_cap(),
    decreases max_depth - depth, 0int, b.columns - j,
{
    if j >= b.columns {
        if v == score_limit() {
            assert(-val_cap() <= v <= val_cap()) by {
                if exists|c: int| j <= c && #[trigger] b.col_open(c) {
                    let c = choose|c: int| j <= c && #[trigger] b.col_open(c);
                    assert(c < b.columns);
                }
            }
        }
    } else if b.col_open(j) {
        let child = b.do_drop(j, mover(me, depth), Letter::Blank);
        b.lemma_do_drop_wf(j, mover(me, depth), Letter::Blank);
        lemma_node_value_bound(child, me, depth + 1, max_depth, alpha, beta);
        let tv = node_value(child, me, depth + 1, max_depth, alpha, beta);
        let v2 = if tv < v {
            tv
        } else {
            v
        };
        if v2 < alpha {
        } else {
            let b2 = if v2 < beta {
                v2
            } else {
                beta
            };
            lemma_scan_min_bound(b, me, depth, max_depth, j + 1, alpha, b2, v2);
        }
    } else {
        if v == score_limit() && exists|c: int| j <= c && #[trigger] b.col_open(c) {
            let c = choose|c: int| j <= c && #[trigger] b.col_open(c);
            assert(c != j);
            assert(j + 1 <= c && b.col_open(c));
        }
        lemma_scan_min_bound(b, me, depth, max_depth, j + 1, alpha, beta, v);
    }
}

/// Evaluates one search node; returns exactly the value of the alpha-beta
/// recursion `node_value`.
fn eval_node(g: &Grid, me: Side, depth: usize, max_depth: usize, alpha0: i64, beta: i64) -> (r:
    i64)
    requires
        g.wf(),
        1 <= depth <= max_depth,
        max_depth <= 10000,
    ensures
        r as int == node_value(
            g.model(),
            me,
            depth as int,
            max_depth as int,
            alpha0 as int,
            beta as int,
        ),
    decreases max_depth - depth,
{
    let ghost b = g.model();
    proof {
        lemma_depth_sq(depth as int);
    }
    let (fa, fb) = scan_wins(g);
    let win_me = if me == Side::A {
        fa
    } else {
        fb
    };
    let win_opp = if me == Side::A {
        fb
    } else {
        fa
    };
    let dd = (depth * depth) as i64;
    if win_me {
        return 999999 - dd;
    }
    if win_opp {
        return -999999 + dd;
    }
    if g.is_full() {
        return 0;
    }
    if depth == max_depth {
        let h = heuristic(g);
        if me == Side::A {
            return h;
        } else {
            return -h;
        }
    }
    let maximizing = depth % 2 == 0;
    let mut v: i64 = if maximizing {
        -100000000007
    } else {
        100000000007
    };
    let mut a: i64 = alpha0;
    let mut bt: i64 = beta;
    let mut j: usize = 0;
    while j < g.columns
        invariant
            g.wf(),
            b == g.model(),
            1 <= depth < max_depth <= 10000,
            j <= g.columns,
            maximizing == (depth % 2 == 0),
            maximizing ==> node_value(
                b,
                me,
                depth as int,
                max_depth as int,
                alpha0 as int,
                beta as int,
            ) == scan_max(
                b,
                me,
                depth as int,
                max_depth as int,
                j as int,
                a as int,
                beta as int,
                v as int,
            ),
            maximizing ==> bt == beta,
            !maximizing ==> node_value(
                b,
                me,
                depth as int,
                max_depth as int,
                alpha0 as int,
                beta as int,
            ) == scan_min(
                b,
                me,
                depth as int,
                max_depth as int,
                j as int,
                alpha0 as int,
                bt as int,
                v as int,
            ),
            !maximizing ==> a == alpha0,
        decreases g.columns - j,
    {
        let top = g.cell(0, j);
        if top.owner == Owner::Empty {
            assert(b.col_open(j as int));
            let mv = if maximizing {
                me
            } else {
                me.other()
            };
            proof {
                assert(mv == mover(me, depth as int));
            }
            let mut child = g.duplicate();
            let res = child.try_drop(j, mv, Letter::Blank);
            proof {
                assert(res is Ok);
                assert(child.model() == b.do_drop(j as int, mover(me, depth as int), Letter::Blank));
            }
            let tv = eval_node(&child, me, depth + 1, max_depth, a, bt);
            if maximizing {
                let v2 = if tv > v {
                    tv
                } else {
                    v
                };
                if v2 > bt {
                    return v2;
                }
                if v2 > a {
                    a = v2;
                }
                v = v2;
            } else {
                let v2 = if tv < v {
                    tv
                } else {
                    v
                };
                if v2 < a {
                    return v2;
                }
                if v2 < bt {
                    bt = v2;
                }
                v = v2;
            }
        }
        j += 1;
    }
    v
}

/// Chooses a move for side `me` on the given board by the depth-limited
/// alpha-beta search.
///
/// Fails with `NoLegalMove` exactly when no column is open (the caller
/// invoked the search on a finished position, its own contract
/// violation).  Otherwise the returned column is an open member of the
/// tie-break set that the pruned root scan computes (see
/// `root_candidates`), selected by `seed` modulo the size of that set,
/// so varying seeds reach every member of the set.  On a position still
/// in play with a non-losing column available,
/// `lemma_search_admissibility` shows that every member of that set
/// avoids an immediate loss.
pub fn choose_move(board: &Connect4GameBoard, me: Side, max_depth: usize, seed: u64) -> (r: Result<
    usize,
    GameError,
>)
    requires
        board.wf(),
        1 <= max_depth <= 10000,
    ensures
        (r is Err) <==> (forall|c: int| !board.grid.model().col_open(c)),
        r is Err ==> r == Err::<usize, GameError>(GameError::NoLegalMove),
        r matches Ok(c) ==> {
            &&& board.grid.model().col_open(c as int)
            &&& root_candidates(board.grid.model(), me, max_depth as int).contains(c as int)
            &&& c as int == root_candidates(board.grid.model(), me, max_depth as int)[(
            seed as int) % (root_candidates(board.grid.model(), me, max_depth as int).len() as int)]
        },
{
    let g = &board.grid;
    let ghost b = g.model();
    let mut v: i64 = -100000000007;
    let mut a: i64 = -100000000007;
    let mut cands: Vec<usize> = Vec::new();
    let ghost mut gc: Seq<int> = Seq::empty();
    let mut j: usize = 0;
    while j < g.columns
        invariant
            g.wf(),
            b == g.model(),
            1 <= max_depth <= 10000,
            j <= g.columns,
            root_scan(b, me, max_depth as int, j as int, a as int, v as int, gc) == root_scan(
                b,
                me,
                max_depth as int,
                0,
                -score_limit(),
                -score_limit(),
                Seq::empty(),
            ),
            gc == cands@.map_values(|x: usize| x as int),
            forall|k: int|
                0 <= k < cands@.len() ==> b.col_open(#[trigger] cands@[k] as int),
            (cands@.len() == 0) <==> (forall|c: int| 0 <= c < j ==> !(#[trigger] b.col_open(c))),
            (cands@.len() == 0) ==> v == -100000000007,
        decreases g.columns - j,
    {
        let top = g.cell(0, j);
        if top.owner == Owner::Empty {
            assert(b.col_open(j as int));
            let mut child = g.duplicate();
            let res = child.try_drop(j, me, Letter::Blank);
            proof {
                assert(res is Ok);
                assert(child.model() == b.do_drop(j as int, me, Letter::Blank));
                b.lemma_do_drop_wf(j as int, me, Letter::Blank);
                lemma_node_value_bound(
                    child.model(),
                    me,
                    1,
                    max_depth as int,
                    a as int,
                    score_limit(),
                );
            }
            let tv = eval_node(&child, me, 1, max_depth, a, 100000000007);
            if tv > v {
                v = tv;
                if tv > a {
                    a = tv;
                }
                cands = Vec::new();
                cands.push(j);
                proof {
                    gc = seq![j as int];
                    assert(cands@.map_values(|x: usize| x as int) =~= gc);
                }
            } else if tv == v {
                let ghost prev = cands@;
                cands.push(j);
                proof {
                    gc = gc.push(j as int);
                    assert(cands@.map_values(|x: usize| x as int) =~= gc);
                }
            }
        }
        j += 1;
    }
    proof {
        assert(root_scan(b, me, max_depth as int, j as int, a as int, v as int, gc) == (
        v as int, gc));
    }
    if cands.len() == 0 {
        proof {
            assert forall|c: int| !(#[trigger] b.col_open(c)) by {
                if b.col_open(c) {
                    assert(0 <= c < g.columns);
                }
            }
        }
        Err(GameError::NoLegalMove)
    } else {
        let n = cands.len() as u64;
        let idx = (seed % n) as usize;
        proof {
            assert(idx < cands@.len());
            assert(gc == root_candidates(b, me, max_depth as int));
            assert(gc[idx as int] == cands@[idx as int] as int);
            assert(gc.contains(gc[idx as int]));
        }
        Ok(cands[idx])
    }
}

/// The drop of side `me` into open column `c` is an immediately losing
/// move: it does not itself complete a four-in-a-row for `me`, and some
/// reply of the opponent completes one for the opponent.
pub open spec fn loses_at_once(b: BoardModel, me: Side, c: int) -> bool {
    &&& b.col_open(c)
    &&& !wins(b.do_drop(c, me, Letter::Blank), me)
    &&& exists|c2: int|
        #[trigger] b.do_drop(c, me, Letter::Blank).col_open(c2) && wins(
            b.do_drop(c, me, Letter::Blank).do_drop(c2, me.spec_other(), Letter::Blank),
            me.spec_other(),
        )
}

/// Squares of the depths the admissibility argument meets stay within
/// the ranges its inequalities need.
#[verifier::nonlinear]
proof fn lemma_adm_squares(d: int)
    requires
        0 <= d <= 500,
    ensures
        0 <= d * d <= 250000,
        1 <= (d + 1) * (d + 1) <= 251001,
        (d + 2) * (d + 2) <= 252004,
        (d + 1) * (d + 1) <= (d + 2) * (d + 2),
        d * d <= (d + 1) * (d + 1),
{
}

/// Floor on the value of any node the opponent has not already won: the
/// worst case is the opponent completing a run on the very next move,
/// scored `-win_score() + (depth + 1)^2`.  Needs the depth cap that
/// keeps the depth-adjusted sentinels below every heuristic value.
proof fn lemma_node_value_floor(
    b: BoardModel,
    me: Side,
    depth: int,
    max_depth: int,
    alpha: int,
    beta: int,
)
    requires
        b.wf(),
        !wins(b, me.spec_other()),
        0 <= depth <= max_depth,
        max_depth <= 500,
    ensures
        node_value(b, me, depth, max_depth, alpha, beta) >= -win_score() + (depth + 1) * (depth
            + 1),
    decreases max_depth - depth, 1int, 0int,
{
    lemma_adm_squares(depth);
    if wins(b, me) {
    } else if wins(b, me.spec_other()) {
    } else if b.full() {
    } else if depth >= max_depth {
        lemma_board_score_bound(b);
    } else {
        let c = b.lemma_not_full_has_open();
        if depth % 2 == 0 {
            lemma_scan_max_floor(b, me, depth, max_depth, 0, alpha, beta, -score_limit());
        } else {
            lemma_scan_min_floor(b, me, depth, max_depth, 0, alpha, beta, score_limit());
        }
    }
}

/// The maximizing scan respects the value floor: its children, dropped
/// by `me`, leave the opponent's runs untouched.
proof fn lemma_scan_max_floor(
    b: BoardModel,
    me: Side,
    depth: int,
    max_depth: int,
    j: int,
    alpha: int,
    beta: int,
    v: int,
)
    requires
        b.wf(),
        !wins(b, me),
        !wins(b, me.spec_other()),
        0 <= depth < max_depth,
        max_depth <= 500,
        depth % 2 == 0,
        0 <= j,
        (v >= -win_score() + (depth + 1) * (depth + 1)) || (v == -score_limit() && exists|c: int|
            j <= c && #[trigger] b.col_open(c)),
    ensures
        scan_max(b, me, depth, max_depth, j, alpha, beta, v) >= -win_score() + (depth + 1) * (
        depth + 1),
    decreases max_depth - depth, 0int, b.columns - j,
{
    lemma_adm_squares(depth);
    if j >= b.columns {
        if v == -score_limit() {
            if exists|c: int| j <= c && #[trigger] b.col_open(c) {
                let c = choose|c: int| j <= c && #[trigger] b.col_open(c);
                assert(false);
            }
        }
    } else if b.col_open(j) {
        assert(mover(me, depth) == me);
        let child = b.do_drop(j, me, Letter::Blank);
        b.lemma_do_drop_wf(j, me, Letter::Blank);
        lemma_drop_other_side(b, j, me, Letter::Blank, me.spec_other());
        lemma_node_value_floor(child, me, depth + 1, max_depth, alpha, beta);
        let tv = node_value(child, me, depth + 1, max_depth, alpha, beta);
        let v2 = if tv > v {
            tv
        } else {
            v
        };
        if v2 > beta {
        } else {
            let a2 = if v2 > alpha {
                v2
            } else {
                alpha
            };
            lemma_scan_max_floor(b, me, depth, max_depth, j + 1, a2, beta, v2);
        }
    } else {
        if v == -score_limit() && exists|c: int| j <= c && #[trigger] b.col_open(c) {
            let c = choose|c: int| j <= c && #[trigger] b.col_open(c);
            assert(c != j);
            assert(j + 1 <= c && b.col_open(c));
        }
        lemma_scan_max_floor(b, me, depth, max_depth, j + 1, alpha, beta, v);
    }
}

/// The minimizing scan respects the value floor: a reply of the
/// opponent either completes a run right now, scoring exactly the floor,
/// or leaves a board whose own floor is higher.
proof fn lemma_scan_min_floor(
    b: BoardModel,
    me: Side,
    depth: int,
    max_depth: int,
    j: int,
    alpha: int,
    beta: int,
    v: int,
)
    requires
        b.wf(),
        !wins(b, me),
        !wins(b, me.spec_other()),
        0 <= depth < max_depth,
        max_depth <= 500,
        depth % 2 == 1,
        0 <= j,
        v >= -win_score() + (depth + 1) * (depth + 1),
    ensures
        scan_min(b, me, depth, max_depth, j, alpha, beta, v) >= -win_score() + (depth + 1) * (
        depth + 1),
    decreases max_depth - depth, 0int, b.columns - j,
{
    lemma_adm_squares(depth);
    if j >= b.columns {
    } else if b.col_open(j) {
        assert(mover(me, depth) == me.spec_other());
        let child = b.do_drop(j, me.spec_other(), Letter::Blank);
        b.lemma_do_drop_wf(j, me.spec_other(), Letter::Blank);
        assert(me != me.spec_other());
        lemma_drop_other_side(b, j, me.spec_other(), Letter::Blank, me);
        assert(!wins(child, me));
        let tv = node_value(child, me, depth + 1, max_depth, alpha, beta);
        if wins(child, me.spec_other()) {
            assert(tv == -win_score() + (depth + 1) * (depth + 1));
        } else {
            lemma_node_value_floor(child, me, depth + 1, max_depth, alpha, beta);
        }
        let v2 = if tv < v {
            tv
        } else {
            v
        };
        if v2 < alpha {
        } else {
            let b2 = if v2 < beta {
                v2
            } else {
                beta
            };
            lemma_scan_min_floor(b, me, depth, max_depth, j + 1, alpha, b2, v2);
        }
    } else {
        lemma_scan_min_floor(b, me, depth, max_depth, j + 1, alpha, beta, v);
    }
}

/// The minimizing scan never returns more than its running value.
proof fn lemma_scan_min_le(
    b: BoardModel,
    me: Side,
    depth: int,
    max_depth: int,
    j: int,
    alpha: int,
    beta: int,
    v: int,
)
    ensures
        scan_min(b, me, depth, max_depth, j, alpha, beta, v) <= v,
    decreases b.columns - j,
{
    if depth >= max_depth || j < 0 || j >= b.columns {
    } else if b.col_open(j) {
        let tv = node_value(
            b.do_drop(j, mover(me, depth), Letter::Blank),
            me,
            depth + 1,
            max_depth,
            alpha,
            beta,
        );
        let v2 = if tv < v {
            tv
        } else {
            v
        };
        if v2 < alpha {
        } else {
            let b2 = if v2 < beta {
                v2
            } else {
                beta
            };
            lemma_scan_min_le(b, me, depth, max_depth, j + 1, alpha, b2, v2);
        }
    } else {
        lemma_scan_min_le(b, me, depth, max_depth, j + 1, alpha, beta, v);
    }
}

/// A minimizing scan that still has the opponent's winning reply `c2`
/// ahead of it either walks into that reply, capping its result at the
/// immediate-loss sentinel, or prunes first, returning less than its
/// inherited `alpha`.
proof fn lemma_scan_min_hits_loss(
    b1: BoardModel,
    me: Side,
    max_depth: int,
    j: int,
    alpha: int,
    beta: int,
    v: int,
    c2: int,
)
    requires
        b1.wf(),
        !wins(b1, me),
        !wins(b1, me.spec_other()),
        2 <= max_depth <= 500,
        0 <= j <= c2,
        b1.col_open(c2),
        wins(b1.do_drop(c2, me.spec_other(), Letter::Blank), me.spec_other()),
    ensures
        scan_min(b1, me, 1, max_depth, j, alpha, beta, v) <= -win_score() + 4 || scan_min(
            b1,
            me,
            1,
            max_depth,
            j,
            alpha,
            beta,
            v,
        ) < alpha,
    decreases c2 - j,
{
    assert(c2 < b1.columns);
    if b1.col_open(j) {
        assert(mover(me, 1) == me.spec_other());
        let child = b1.do_drop(j, me.spec_other(), Letter::Blank);
        let tv = node_value(child, me, 2, max_depth, alpha, beta);
        let v2 = if tv < v {
            tv
        } else {
            v
        };
        let b2 = if v2 < beta {
            v2
        } else {
            beta
        };
        if j == c2 {
            assert(me != me.spec_other());
            lemma_drop_other_side(b1, c2, me.spec_other(), Letter::Blank, me);
            assert(!wins(child, me));
            assert(wins(child, me.spec_other()));
            assert(tv == -win_score() + 4);
            if v2 < alpha {
            } else {
                lemma_scan_min_le(b1, me, 1, max_depth, j + 1, alpha, b2, v2);
            }
        } else {
            if v2 < alpha {
            } else {
                lemma_scan_min_hits_loss(b1, me, max_depth, j + 1, alpha, b2, v2, c2);
            }
        }
    } else {
        assert(j != c2);
        lemma_scan_min_hits_loss(b1, me, max_depth, j + 1, alpha, beta, v, c2);
    }
}

/// A minimizing scan over a board on which no reply of the opponent
/// completes a run keeps its result at or above the two-move-loss
/// sentinel.
proof fn lemma_scan_min_floor_safe(
    b1: BoardModel,
    me: Side,
    max_depth: int,
    j: int,
    alpha: int,
    beta: int,
    v: int,
)
    requires
        b1.wf(),
        !wins(b1, me),
        !wins(b1, me.spec_other()),
        2 <= max_depth <= 500,
        0 <= j,
        v >= -win_score() + 9,
        forall|c2: int|
            #[trigger] b1.col_open(c2) ==> !wins(
                b1.do_drop(c2, me.spec_other(), Letter::Blank),
                me.spec_other(),
            ),
    ensures
        scan_min(b1, me, 1, max_depth, j, alpha, beta, v) >= -win_score() + 9,
    decreases b1.columns - j,
{
    if j >= b1.columns {
    } else if b1.col_open(j) {
        assert(mover(me, 1) == me.spec_other());
        let child = b1.do_drop(j, me.spec_other(), Letter::Blank);
        b1.lemma_do_drop_wf(j, me.spec_other(), Letter::Blank);
        assert(!wins(child, me.spec_other()));
        lemma_node_value_floor(child, me, 2, max_depth, alpha, beta);
        let tv = node_value(child, me, 2, max_depth, alpha, beta);
        assert(tv >= -win_score() + 9);
        let v2 = if tv < v {
            tv
        } else {
            v
        };
        if v2 < alpha {
        } else {
            let b2 = if v2 < beta {
                v2
            } else {
                beta
            };
            lemma_scan_min_floor_safe(b1, me, max_depth, j + 1, alpha, b2, v2);
        }
    } else {
        lemma_scan_min_floor_safe(b1, me, max_depth, j + 1, alpha, beta, v);
    }
}

/// The root evaluation of a column that is not an immediately losing
/// move is at least the two-move-loss sentinel.
proof fn lemma_safe_column_value(b: BoardModel, me: Side, max_depth: int, c: int, alpha: int)
    requires
        b.wf(),
        !wins(b, me),
        !wins(b, me.spec_other()),
        2 <= max_depth <= 500,
        b.col_open(c),
        !loses_at_once(b, me, c),
    ensures
        node_value(b.do_drop(c, me, Letter::Blank), me, 1, max_depth, alpha, score_limit())
            >= -win_score() + 9,
{
    let child1 = b.do_drop(c, me, Letter::Blank);
    b.lemma_do_drop_wf(c, me, Letter::Blank);
    assert(me.spec_other() != me);
    lemma_drop_other_side(b, c, me, Letter::Blank, me.spec_other());
    assert(!wins(child1, me.spec_other()));
    if wins(child1, me) {
        assert(node_value(child1, me, 1, max_depth, alpha, score_limit()) == win_score() - 1);
    } else if child1.full() {
    } else {
        assert(forall|c2: int|
            #[trigger] child1.col_open(c2) ==> !wins(
                child1.do_drop(c2, me.spec_other(), Letter::Blank),
                me.spec_other(),
            ));
        lemma_scan_min_floor_safe(
            child1,
            me,
            max_depth,
            0,
            alpha,
            score_limit(),
            score_limit(),
        );
    }
}

/// The root scan keeps its best value at or above the two-move-loss
/// sentinel once a non-losing column exists, and then admits no
/// immediately losing column into the tie-break set.
proof fn lemma_root_scan_no_losing(
    b: BoardModel,
    me: Side,
    max_depth: int,
    j: int,
    alpha: int,
    v: int,
    cands: Seq<int>,
)
    requires
        b.wf(),
        !wins(b, me),
        !wins(b, me.spec_other()),
        2 <= max_depth <= 500,
        0 <= j,
        alpha == v,
        (v >= -win_score() + 9) || (exists|c: int|
            j <= c && #[trigger] b.col_open(c) && !loses_at_once(b, me, c)),
        v > -win_score() + 4 ==> (forall|k: int|
            0 <= k < cands.len() ==> !loses_at_once(b, me, #[trigger] cands[k])),
    ensures
        root_scan(b, me, max_depth, j, alpha, v, cands).0 >= -win_score() + 9,
        forall|k: int|
            0 <= k < root_scan(b, me, max_depth, j, alpha, v, cands).1.len() ==> !loses_at_once(
                b,
                me,
                #[trigger] root_scan(b, me, max_depth, j, alpha, v, cands).1[k],
            ),
    decreases b.columns - j,
{
    if j >= b.columns {
        if !(v >= -win_score() + 9) {
            let c = choose|c: int| j <= c && #[trigger] b.col_open(c) && !loses_at_once(b, me, c);
            assert(false);
        }
    } else if b.col_open(j) {
        let child1 = b.do_drop(j, me, Letter::Blank);
        let tv = node_value(child1, me, 1, max_depth, alpha, score_limit());
        if loses_at_once(b, me, j) {
            assert(!wins(child1, me));
            assert(me.spec_other() != me);
            lemma_drop_other_side(b, j, me, Letter::Blank, me.spec_other());
            assert(!wins(child1, me.spec_other()));
            b.lemma_do_drop_wf(j, me, Letter::Blank);
            let c2 = choose|c2: int|
                #[trigger] child1.col_open(c2) && wins(
                    child1.do_drop(c2, me.spec_other(), Letter::Blank),
                    me.spec_other(),
                );
            if child1.full() {
                lemma_count_filled_full(child1.cells);
                lemma_idx_in_range(child1.rows, child1.columns, 0, c2);
                assert(child1.occupied(0, c2));
                assert(false);
            }
            assert(tv == scan_min(
                child1,
                me,
                1,
                max_depth,
                0,
                alpha,
                score_limit(),
                score_limit(),
            ));
            lemma_scan_min_hits_loss(
                child1,
                me,
                max_depth,
                0,
                alpha,
                score_limit(),
                score_limit(),
                c2,
            );
            assert(tv <= -win_score() + 4 || tv < alpha);
        } else {
            lemma_safe_column_value(b, me, max_depth, j, alpha);
            assert(tv >= -win_score() + 9);
        }
        if tv > v {
            if loses_at_once(b, me, j) {
                assert(tv <= -win_score() + 4);
                if v >= -win_score() + 9 {
                    assert(false);
                }
                let cs = choose|c: int|
                    j <= c && #[trigger] b.col_open(c) && !loses_at_once(b, me, c);
                assert(cs != j);
                assert(j + 1 <= cs && b.col_open(cs) && !loses_at_once(b, me, cs));
            }
            lemma_root_scan_no_losing(b, me, max_depth, j + 1, tv, tv, seq![j as int]);
            assert forall|k: int| 0 <= k < seq![j as int].len() && tv > -win_score() + 4
                implies !loses_at_once(b, me, seq![j as int][k]) by {
                assert(seq![j as int][k] == j);
            }
        } else if tv == v {
            let cands2 = cands.push(j);
            if v > -win_score() + 4 {
                assert(!loses_at_once(b, me, j));
                assert forall|k: int| 0 <= k < cands2.len() implies !loses_at_once(
                    b,
                    me,
                    #[trigger] cands2[k],
                ) by {
                    if k < cands.len() {
                        assert(cands2[k] == cands[k]);
                    } else {
                        assert(cands2[k] == j);
                    }
                }
            }
            if !(v >= -win_score() + 9) {
                let cs = choose|c: int|
                    j <= c && #[trigger] b.col_open(c) && !loses_at_once(b, me, c);
                if cs == j {
                    assert(tv >= -win_score() + 9);
                    assert(false);
                }
                assert(j + 1 <= cs && b.col_open(cs) && !loses_at_once(b, me, cs));
            }
            lemma_root_scan_no_losing(b, me, max_depth, j + 1, alpha, v, cands2);
        } else {
            if !(v >= -win_score() + 9) {
                let cs = choose|c: int|
                    j <= c && #[trigger] b.col_open(c) && !loses_at_once(b, me, c);
                if cs == j {
                    assert(tv >= -win_score() + 9);
                    assert(false);
                }
                assert(j + 1 <= cs && b.col_open(cs) && !loses_at_once(b, me, cs));
            }
            lemma_root_scan_no_losing(b, me, max_depth, j + 1, alpha, v, cands);
        }
    } else {
        if !(v >= -win_score() + 9) {
            let cs = choose|c: int| j <= c && #[trigger] b.col_open(c) && !loses_at_once(b, me, c);
            assert(cs != j);
            assert(j + 1 <= cs && b.col_open(cs) && !loses_at_once(b, me, cs));
        }
        lemma_root_scan_no_losing(b, me, max_depth, j + 1, alpha, v, cands);
    }
}

/// Search admissibility: on a board still in play, if some open column
/// is not an immediately losing move — dropping there either completes
/// the searching side's own four-in-a-row or leaves the opponent no
/// reply that completes one — then the tie-break set holds only such
/// columns.  Together with `choose_move`'s contract, the search never
/// returns a column leading to an immediate loss while a non-losing
/// column exists.  The depth cap keeps the depth-adjusted sentinels
/// separated from every heuristic value, which the argument needs.
pub proof fn lemma_search_admissibility(b: BoardModel, me: Side, max_depth: int)
    requires
        b.wf(),
        !wins(b, Side::A),
        !wins(b, Side::B),
        2 <= max_depth <= 500,
        exists|c: int| #[trigger] b.col_open(c) && !loses_at_once(b, me, c),
    ensures
        forall|k: int|
            0 <= k < root_candidates(b, me, max_depth).len() ==> !loses_at_once(
                b,
                me,
                #[trigger] root_candidates(b, me, max_depth)[k],
            ),
{
    let c = choose|c: int| #[trigger] b.col_open(c) && !loses_at_once(b, me, c);
    assert(0 <= c && b.col_open(c) && !loses_at_once(b, me, c));
    lemma_root_scan_no_losing(
        b,
        me,
        max_depth,
        0,
        -score_limit(),
        -score_limit(),
        Seq::empty(),
    );
}

} // verus!
