//! The game session: the board, the active piece, scoring, leveling and
//! the phase state machine.
//!
//! The session owns no clock, no thread and no file: everything it wants
//! done at its edges is handed back to the caller as a queue of
//! [`Effect`] values, and gravity ticks come in as a plain count.  Every
//! state change is specified relationally over the board view and proved.

use vstd::prelude::*;

use crate::consts::{Rotation, BoardXY, ROT_LEFT, ROT_RIGHT};
use crate::minos::{
    Mino, rot_view, occ, wf_rotation, in_walls, one_of_each, next_rot_index, lemma_catalog_wf,
};
use crate::timer::TimerSignal;

verus! {

/// The phase the session is in.
#[derive(Clone, Copy, PartialEq, Eq, Structural, Debug)]
pub enum GameState {
    StartScreen,
    Playing,
    Paused,
    GameOver,
}

/// One outside action the session asks its caller to perform, in order.
#[derive(Clone, Copy, PartialEq, Eq, Structural, Debug)]
pub enum Effect {
    /// Send this control signal to the gravity timer.
    Signal(TimerSignal),
    /// Let this many milliseconds pass before going on.
    Sleep(u64),
    /// Persist this score as the new top score.
    SaveScore(u32),
}

/// The view of the board: 20 rows of 10 cell values; 0 is empty.
pub open spec fn board_view(b: Vec<Vec<u8>>) -> Seq<Seq<u8>> {
    b@.map_values(|r: Vec<u8>| r@)
}

/// A well-formed board: exactly 20 rows of exactly 10 cells.
pub open spec fn wf_board(b: Seq<Seq<u8>>) -> bool {
    &&& b.len() == 20
    &&& forall|i: int| 0 <= i < 20 ==> (#[trigger] b[i]).len() == 10
}

/// A row of 10 empty cells.
pub open spec fn empty_row() -> Seq<u8> {
    Seq::new(10, |j: int| 0u8)
}

/// The empty board.
pub open spec fn empty_board() -> Seq<Seq<u8>> {
    Seq::new(20, |i: int| empty_row())
}

/// Every cell of the row is occupied.
pub open spec fn row_full(r: Seq<u8>) -> bool {
    forall|j: int| 0 <= j < r.len() ==> r[j] != 0
}

/// The board row that sub-cell row `y` of a piece at row `py` touches.
/// Rows above the top of the board are clamped to row 0 when writing.
pub open spec fn target_row(py: int, y: int) -> int {
    if py + y - 1 >= 0 {
        py + y - 1
    } else {
        0
    }
}

/// Sub-cell `(y, x)` of rotation `r`, taken at position `(px, py)`,
/// conflicts: it is outside a side wall, below the floor, or on an
/// occupied board cell.  A sub-cell still above the top of the board never
/// conflicts with placed cells.
pub open spec fn cell_hit(b: Seq<Seq<u8>>, px: int, py: int, y: int, x: int) -> bool {
    let bx = px + 2 * x;
    let brow = py + y - 1;
    ||| bx < 0
    ||| bx > 19
    ||| brow > 19
    ||| (brow >= 0 && b[brow][bx / 2] != 0)
}

/// The piece with rotation `r` at `(px, py)` collides with a wall, the
/// floor, or the stack on board `b`.
pub open spec fn collides(b: Seq<Seq<u8>>, r: Seq<Seq<u8>>, px: int, py: int) -> bool {
    exists|y: int, x: int| occ(r, y, x) && cell_hit(b, px, py, y, x)
}

/// Some occupied sub-cell of `r` at `(px, py)` touches board cell
/// `(i, j)`.
pub open spec fn covered(r: Seq<Seq<u8>>, px: int, py: int, i: int, j: int) -> bool {
    exists|y: int, x: int| occ(r, y, x) && target_row(py, y) == i && (px + 2 * x) / 2 == j
}

/// Like [`covered`], but only by sub-cells scanned before `(cy, cx)` in
/// row-major order.
pub open spec fn covered_before(
    r: Seq<Seq<u8>>,
    px: int,
    py: int,
    i: int,
    j: int,
    cy: int,
    cx: int,
) -> bool {
    exists|y: int, x: int|
        occ(r, y, x) && (y < cy || (y == cy && x < cx)) && target_row(py, y) == i && (px + 2 * x)
            / 2 == j
}

/// The board after writing value `v` into every board cell that an
/// occupied sub-cell of `r` at `(px, py)` touches.
pub open spec fn place_spec(b: Seq<Seq<u8>>, r: Seq<Seq<u8>>, px: int, py: int, v: u8) -> Seq<
    Seq<u8>,
> {
    Seq::new(
        b.len(),
        |i: int|
            Seq::new(
                b[i].len(),
                |j: int|
                    if covered(r, px, py, i, j) {
                        v
                    } else {
                        b[i][j]
                    },
            ),
    )
}

/// A piece that does not collide is inside the walls and above the floor.
pub proof fn lemma_not_collides_in_walls(b: Seq<Seq<u8>>, r: Seq<Seq<u8>>, px: int, py: int)
    requires
        !collides(b, r, px, py),
    ensures
        in_walls(r, px, py),
{
    assert forall|y: int, x: int| occ(r, y, x) implies 0 <= px + 2 * x <= 19 && py + y - 1
        <= 19 by {
        assert(!(occ(r, y, x) && cell_hit(b, px, py, y, x)));
    }
}

/// A well-formed piece within the walls sits at a bounded position.
pub proof fn lemma_pos_bounds(r: Seq<Seq<u8>>, px: int, py: int)
    requires
        wf_rotation(r),
        in_walls(r, px, py),
    ensures
        -6 <= px <= 19,
        py <= 20,
{
    let (y, x) = choose|y: int, x: int| occ(r, y, x);
    assert(0 <= px + 2 * x <= 19 && py + y - 1 <= 19);
    assert(0 <= y < r.len() <= 4);
    assert(0 <= x < r[y].len() <= 4);
}

/// A piece whose position row is 21 or more always collides: some occupied
/// sub-cell is below the floor.
pub proof fn lemma_floor_collides(b: Seq<Seq<u8>>, r: Seq<Seq<u8>>, px: int, py: int)
    requires
        wf_rotation(r),
        py >= 21,
    ensures
        collides(b, r, px, py),
{
    let (y, x) = choose|y: int, x: int| occ(r, y, x);
    assert(occ(r, y, x) && cell_hit(b, px, py, y, x));
}

/// The base score for clearing `count` rows at once: 0, 40, 100, 300 and
/// 1200 for 0 to 4 rows.  Counts beyond 4 cannot arise from piece
/// geometry; they take the table's largest entry.
pub open spec fn base_score(count: int) -> int {
    if count <= 0 {
        0
    } else if count == 1 {
        40
    } else if count == 2 {
        100
    } else if count == 3 {
        300
    } else {
        1200
    }
}

/// `a + d`, stopping at the largest `u32`.
pub open spec fn sat_add_u32(a: u32, d: int) -> u32 {
    if a + d <= u32::MAX {
        (a + d) as u32
    } else {
        u32::MAX
    }
}

/// `a + d`, stopping at the largest `u16`.
pub open spec fn sat_add_u16(a: u16, d: int) -> u16 {
    if a + d <= u16::MAX {
        (a + d) as u16
    } else {
        u16::MAX
    }
}

/// The rows of `b` below row `i`, in order, without those whose indices
/// stand in `cl`.
pub open spec fn kept_prefix(b: Seq<Seq<u8>>, cl: Seq<usize>, i: int) -> Seq<Seq<u8>>
    decreases i,
{
    if i <= 0 {
        Seq::empty()
    } else {
        kept_prefix(b, cl, i - 1) + if cl.contains((i - 1) as usize) {
            Seq::<Seq<u8>>::empty()
        } else {
            seq![b[i - 1]]
        }
    }
}

/// The board after removing the rows listed in `cl` and inserting as many
/// fresh empty rows at the top.
pub open spec fn board_after_removal(b: Seq<Seq<u8>>, cl: Seq<usize>) -> Seq<Seq<u8>> {
    let kept = kept_prefix(b, cl, 20);
    Seq::new((20 - kept.len()) as nat, |i: int| empty_row()) + kept
}

/// The indices of the full rows of `b` below row `i`, in ascending order.
pub open spec fn full_indices(b: Seq<Seq<u8>>, i: int) -> Seq<usize>
    decreases i,
{
    if i <= 0 {
        Seq::empty()
    } else {
        full_indices(b, i - 1) + if row_full(b[i - 1]) {
            seq![(i - 1) as usize]
        } else {
            Seq::empty()
        }
    }
}

/// The board with every full row overwritten by an empty row in place.
pub open spec fn blank_full(b: Seq<Seq<u8>>) -> Seq<Seq<u8>> {
    Seq::new(
        b.len(),
        |i: int|
            if row_full(b[i]) {
                empty_row()
            } else {
                b[i]
            },
    )
}

/// `kept_prefix` keeps at most one row per scanned row.
pub proof fn lemma_kept_prefix_len(b: Seq<Seq<u8>>, cl: Seq<usize>, i: int)
    requires
        i >= 0,
    ensures
        kept_prefix(b, cl, i).len() <= i,
    decreases i,
{
    if i > 0 {
        lemma_kept_prefix_len(b, cl, i - 1);
    }
}

/// The indices collected by `full_indices` are strictly ascending, below
/// `i`, and at most `i` many.
pub proof fn lemma_full_indices_props(b: Seq<Seq<u8>>, i: int)
    requires
        0 <= i <= 20,
    ensures
        full_indices(b, i).len() <= i,
        forall|a: int|
            0 <= a < full_indices(b, i).len() ==> #[trigger] full_indices(b, i)[a] < i,
        forall|a: int, c: int|
            0 <= a < c < full_indices(b, i).len() ==> #[trigger] full_indices(b, i)[a]
                < #[trigger] full_indices(b, i)[c],
    decreases i,
{
    if i > 0 {
        lemma_full_indices_props(b, i - 1);
        let s0 = full_indices(b, i - 1);
        let s = full_indices(b, i);
        assert forall|a: int, c: int| 0 <= a < c < s.len() implies #[trigger] s[a]
            < #[trigger] s[c] by {
            if c < s0.len() {
                assert(s[a] == s0[a] && s[c] == s0[c]);
            } else {
                assert(s[c] == (i - 1) as usize);
                assert(s[a] == s0[a]);
                assert(s0[a] < i - 1);
            }
        }
    }
}

/// A row index is flagged by `full_indices` exactly when its row is
/// full: the scan reports every full row and nothing else.
pub proof fn lemma_full_indices_exact(b: Seq<Seq<u8>>, i: int)
    requires
        0 <= i <= 20,
    ensures
        forall|r: int|
            0 <= r < i ==> (full_indices(b, i).contains(r as usize) <==> row_full(b[r])),
    decreases i,
{
    if i > 0 {
        lemma_full_indices_exact(b, i - 1);
        lemma_full_indices_props(b, i - 1);
        let s0 = full_indices(b, i - 1);
        let s = full_indices(b, i);
        assert forall|r: int|
            0 <= r < i implies (s.contains(r as usize) <==> row_full(b[r])) by {
            if r < i - 1 {
                if row_full(b[r]) {
                    let k = choose|k: int| 0 <= k < s0.len() && s0[k] == r as usize;
                    assert(s[k] == r as usize);
                    assert(s.contains(r as usize));
                }
                if s.contains(r as usize) {
                    let k = choose|k: int| 0 <= k < s.len() && s[k] == r as usize;
                    if k < s0.len() {
                        assert(s0[k] == r as usize);
                        assert(s0.contains(r as usize));
                    } else {
                        assert(s[k] == (i - 1) as usize);
                        assert(false);
                    }
                }
            } else {
                if row_full(b[i - 1]) {
                    assert(s[s0.len() as int] == (i - 1) as usize);
                    assert(s.contains((i - 1) as usize));
                } else {
                    assert(s =~= s0);
                    if s.contains((i - 1) as usize) {
                        let k = choose|k: int| 0 <= k < s0.len() && s0[k] == (i - 1) as usize;
                        assert(s0[k] < i - 1);
                        assert(false);
                    }
                }
            }
        }
    }
}

/// A strictly ascending list of row indices below 20 has at most 20
/// entries.
pub proof fn lemma_pending_len(cl: Seq<usize>)
    requires
        forall|a: int, c: int| 0 <= a < c < cl.len() ==> #[trigger] cl[a] < #[trigger] cl[c],
        forall|a: int| 0 <= a < cl.len() ==> #[trigger] cl[a] < 20,
    ensures
        cl.len() <= 20,
{
    if cl.len() > 20 {
        assert forall|k: int| 0 <= k < 21 implies cl[k] >= k by {
            lemma_ascending_lower(cl, k);
        }
        assert(cl[20] >= 20);
        assert(false);
    }
}

/// In a strictly ascending list, the entry at position `k` is at least
/// `k`.
proof fn lemma_ascending_lower(cl: Seq<usize>, k: int)
    requires
        forall|a: int, c: int| 0 <= a < c < cl.len() ==> #[trigger] cl[a] < #[trigger] cl[c],
        0 <= k < cl.len(),
    ensures
        cl[k] >= k,
    decreases k,
{
    if k > 0 {
        lemma_ascending_lower(cl, k - 1);
        assert(cl[k - 1] < cl[k]);
    }
}

/// Against an empty board, a piece collides exactly when some occupied
/// sub-cell falls outside the side walls or below the floor; placed cells
/// can play no part.
pub proof fn lemma_collision_empty_board(r: Seq<Seq<u8>>, px: int, py: int)
    ensures
        collides(empty_board(), r, px, py) <==> exists|y: int, x: int|
            #[trigger] occ(r, y, x) && !(0 <= px + 2 * x <= 19 && py + y - 1 <= 19),
{
    if collides(empty_board(), r, px, py) {
        let (y, x) = choose|y: int, x: int| occ(r, y, x) && cell_hit(empty_board(), px, py, y, x);
        assert(occ(r, y, x));
        if 0 <= px + 2 * x <= 19 && py + y - 1 <= 19 {
            if py + y - 1 >= 0 {
                assert(empty_board()[py + y - 1] == empty_row());
                assert(empty_board()[py + y - 1][(px + 2 * x) / 2] == 0);
            }
            assert(!cell_hit(empty_board(), px, py, y, x));
            assert(false);
        }
    }
    if exists|y: int, x: int|
        #[trigger] occ(r, y, x) && !(0 <= px + 2 * x <= 19 && py + y - 1 <= 19) {
        let (y, x) = choose|y: int, x: int|
            #[trigger] occ(r, y, x) && !(0 <= px + 2 * x <= 19 && py + y - 1 <= 19);
        assert(cell_hit(empty_board(), px, py, y, x));
        assert(occ(r, y, x) && cell_hit(empty_board(), px, py, y, x));
    }
}

/// Once a piece is placed, its own footprint at the same position
/// collides with the updated board: placed cells block every later
/// collision test until they are cleared.  (A piece standing entirely
/// above the top row is written into row 0 but tested as above the board,
/// so at least one sub-cell on the board is required.)
pub proof fn lemma_placed_cells_block(b: Seq<Seq<u8>>, r: Seq<Seq<u8>>, px: int, py: int, v: u8)
    requires
        wf_board(b),
        in_walls(r, px, py),
        v != 0,
        exists|y: int, x: int| #[trigger] occ(r, y, x) && py + y - 1 >= 0,
    ensures
        collides(place_spec(b, r, px, py, v), r, px, py),
{
    let (y, x) = choose|y: int, x: int| #[trigger] occ(r, y, x) && py + y - 1 >= 0;
    let i = py + y - 1;
    let j = (px + 2 * x) / 2;
    let placed = place_spec(b, r, px, py, v);
    assert(occ(r, y, x) && target_row(py, y) == i && (px + 2 * x) / 2 == j);
    assert(covered(r, px, py, i, j));
    assert(0 <= px + 2 * x <= 19 && py + y - 1 <= 19);
    assert(0 <= j <= 9);
    assert(placed[i][j] == v);
    assert(cell_hit(placed, px, py, y, x));
    assert(occ(r, y, x) && cell_hit(placed, px, py, y, x));
}

/// One row-clearing pass never raises the level by more than one, even
/// when a single clear crosses several multiples of ten lines.
pub proof fn lemma_level_rises_by_at_most_one(pre: Game, post: Game)
    requires
        check_rows_rel(pre, post),
    ensures
        pre.current_level <= post.current_level <= pre.current_level + 1,
{
}

/// The score earned by one row-clearing pass is the base score of the
/// clear count times (level + 1), added to the old score.
pub proof fn lemma_score_delta(pre: Game, post: Game, count: int)
    requires
        check_rows_rel(pre, post),
        count == full_indices(
            if pre.rows_cleared@.len() > 0 {
                board_after_removal(pre.board(), pre.rows_cleared@)
            } else {
                pre.board()
            },
            20,
        ).len(),
    ensures
        post.current_score == sat_add_u32(
            pre.current_score,
            (pre.current_level + 1) * base_score(
                if count <= 4 {
                    count
                } else {
                    4
                },
            ),
        ),
{
}

/// The statistics table with the counter of piece type `t` bumped by one,
/// stopping at the counter's maximum.
pub open spec fn stat_bump(s: Seq<u16>, t: u8) -> Seq<u16> {
    s.update(
        t - 1,
        if s[t - 1] < 0xffff {
            (s[t - 1] + 1) as u16
        } else {
            s[t - 1]
        },
    )
}

/// Drawing `drawn` from the bag `pre_bag`, leaving `post_bag`: from a
/// non-empty bag the last piece is drawn; an empty bag is first refilled
/// with a fresh shuffled 7-bag, so the drawn piece and the remainder
/// together hold each type exactly once.
pub open spec fn bag_step(pre_bag: Seq<Mino>, post_bag: Seq<Mino>, drawn: Mino) -> bool {
    if pre_bag.len() > 0 {
        drawn == pre_bag.last() && post_bag == pre_bag.drop_last()
    } else {
        &&& post_bag.len() == 6
        &&& forall|i: int|
            0 <= i < 6 ==> (#[trigger] post_bag[i]).wf() && post_bag[i].current_rotation == 0
        &&& drawn.wf()
        &&& drawn.current_rotation == 0
        &&& one_of_each(post_bag.push(drawn))
    }
}

/// The effects queued at game over: reset and pause the timer, and, where
/// the run beat the stored top score, persist the new score.
pub open spec fn game_over_effects(g: Game) -> Seq<Effect> {
    seq![Effect::Signal(TimerSignal::Reset), Effect::Signal(TimerSignal::Pause)] + if g.top_score
        < g.current_score {
        seq![Effect::SaveScore(g.current_score)]
    } else {
        Seq::empty()
    }
}

/// How a landing changes the session: the piece is written to the board,
/// the next piece spawns at its offset (its statistics counter bumped, the
/// bag advanced), and if the spawned piece cannot fall one row the session
/// goes to game over: the board empties and the timer is reset and paused,
/// with the score persisted where it beat the top score.  Counters and
/// scores do not change on landing itself.
pub open spec fn landing_rel(pre: Game, post: Game) -> bool {
    let placed = place_spec(
        pre.board(),
        pre.cur_rot(),
        pre.px(),
        pre.py(),
        pre.current_mino.selected_mino,
    );
    let spawned = pre.next_mino;
    &&& post.current_mino == spawned
    &&& post.current_mino_position == spawned.start_offset
    &&& post.statistics@ == stat_bump(pre.statistics@, spawned.selected_mino)
    &&& bag_step(pre.current_bag@, post.current_bag@, post.next_mino)
    &&& post.next_mino.wf()
    &&& post.line_count == pre.line_count
    &&& post.current_score == pre.current_score
    &&& post.current_level == pre.current_level
    &&& post.top_score == pre.top_score
    &&& post.rows_cleared == pre.rows_cleared
    &&& post.slam_offset == pre.slam_offset
    &&& if collides(
        placed,
        spawned.rot(),
        spawned.start_offset.0 as int,
        spawned.start_offset.1 as int + 1,
    ) {
        &&& post.game_state == GameState::GameOver
        &&& post.board() == empty_board()
        &&& post.pending_effects@ == pre.pending_effects@ + game_over_effects(pre)
    } else {
        &&& post.game_state == pre.game_state
        &&& post.board() == placed
        &&& post.pending_effects@ == pre.pending_effects@
    }
}

/// How one movement command by `(dx, dy)` changes the session: the piece
/// moves where nothing is in the way; a blocked downward move lands the
/// piece; any other blocked move does nothing.
pub open spec fn move_rel(pre: Game, post: Game, dx: int, dy: int) -> bool {
    if !collides(pre.board(), pre.cur_rot(), pre.px() + dx, pre.py() + dy) {
        post == (Game {
            current_mino_position: (((pre.px() + dx) as i16), ((pre.py() + dy) as i16)),
            ..pre
        })
    } else if dx == 0 && dy == 1 {
        landing_rel(pre, post)
    } else {
        post == pre
    }
}

/// How one gravity tick changes the session: a downward move while
/// playing, nothing otherwise.
pub open spec fn gravity_step_rel(pre: Game, post: Game) -> bool {
    if pre.game_state == GameState::Playing {
        move_rel(pre, post, 0, 1)
    } else {
        post == pre
    }
}

/// How one rotation command changes the session: the rotation index
/// advances cyclically where the turned piece fits; a rotation that would
/// collide is rejected outright, with no kick offsets tried.
pub open spec fn rotate_rel(pre: Game, post: Game, direction: u8) -> bool {
    let n = pre.current_mino.rots().len() as int;
    let idx = next_rot_index(pre.current_mino.current_rotation as int, n, direction);
    if !collides(pre.board(), pre.current_mino.rots()[idx], pre.px(), pre.py()) {
        post == (Game {
            current_mino: (Mino { current_rotation: idx as usize, ..pre.current_mino }),
            ..pre
        })
    } else {
        post == pre
    }
}

/// The session after `n` gravity steps from `pre`: each step is one
/// [`gravity_step_rel`] transition.
pub open spec fn gravity_steps(pre: Game, post: Game, n: nat) -> bool
    decreases n,
{
    if n == 0 {
        post == pre
    } else {
        exists|mid: Game|
            gravity_steps(pre, mid, (n - 1) as nat) && #[trigger] gravity_step_rel(mid, post)
    }
}

/// Appending one gravity step to a chain of `n` steps gives a chain of
/// `n + 1` steps.
pub proof fn lemma_gravity_steps_extend(pre: Game, mid: Game, post: Game, n: nat, m: nat)
    requires
        gravity_steps(pre, mid, n),
        gravity_step_rel(mid, post),
        m == n + 1,
    ensures
        gravity_steps(pre, post, m),
{
    reveal_with_fuel(gravity_steps, 2);
    assert((m - 1) as nat == n);
    assert(gravity_steps(pre, mid, (m - 1) as nat));
}

/// How recomputing the ghost-drop offset changes the session: only the
/// slam offset changes, to the largest downward displacement at which the
/// piece still fits — one row further collides, every row up to it does
/// not.
pub open spec fn slam_probe_rel(pre: Game, post: Game) -> bool {
    &&& post == (Game { slam_offset: post.slam_offset, ..pre })
    &&& post.slam_offset.0 == 0
    &&& 0 <= post.slam_offset.1 <= 22
    &&& collides(pre.board(), pre.cur_rot(), pre.px(), pre.py() + post.slam_offset.1 + 1)
    &&& forall|j: int|
        1 <= j <= post.slam_offset.1 ==> !#[trigger] collides(
            pre.board(),
            pre.cur_rot(),
            pre.px(),
            pre.py() + j,
        )
}

/// How one frame update changes the session: one row-clearing pass, then
/// one gravity step per buffered tick, then the ghost-drop offset is
/// recomputed.
pub open spec fn update_rel(pre: Game, post: Game, n: nat) -> bool {
    exists|m1: Game, m2: Game|
        #[trigger] check_rows_rel(pre, m1) && gravity_steps(m1, m2, n)
            && #[trigger] slam_probe_rel(m2, post)
}

/// How one row-clearing pass changes the session.  Rows flagged on the
/// previous pass are removed now, with fresh empty rows inserted at the
/// top and a perceivable gravity pause queued (a base delay plus one per
/// removed row).  Then the board is re-scanned: every full row is blanked
/// in place, flagged for removal on the next pass, and counted; the score
/// grows by the base score of the clear count times (level + 1), and when
/// the cleared-line total crosses into the next bucket of ten the level
/// rises by exactly one and the timer is told to speed up.
pub open spec fn check_rows_rel(pre: Game, post: Game) -> bool {
    let had_pending = pre.rows_cleared@.len() > 0;
    let b1 = if had_pending {
        board_after_removal(pre.board(), pre.rows_cleared@)
    } else {
        pre.board()
    };
    let eff1: Seq<Effect> = if had_pending {
        seq![
            Effect::Signal(TimerSignal::Pause),
            Effect::Sleep((300 + 100 * pre.rows_cleared@.len()) as u64),
            Effect::Signal(TimerSignal::Unpause),
        ]
    } else {
        Seq::empty()
    };
    let newly = full_indices(b1, 20);
    let count = newly.len() as int;
    let lines2 = sat_add_u16(pre.line_count, count);
    let delta = (pre.current_level + 1) * base_score(
        if count <= 4 {
            count
        } else {
            4
        },
    );
    let score2 = sat_add_u32(pre.current_score, delta);
    let level_up = lines2 as int / 10 != pre.current_level as int && pre.current_level < 255;
    let level2: u8 = if level_up {
        (pre.current_level + 1) as u8
    } else {
        pre.current_level
    };
    let eff2: Seq<Effect> = if level_up {
        seq![Effect::Signal(TimerSignal::Increase)]
    } else {
        Seq::empty()
    };
    &&& post.board() == blank_full(b1)
    &&& post.rows_cleared@ == newly
    &&& post.line_count == lines2
    &&& post.current_score == score2
    &&& post.current_level == level2
    &&& post.pending_effects@ == pre.pending_effects@ + eff1 + eff2
    &&& post == (Game {
        board_state: post.board_state,
        rows_cleared: post.rows_cleared,
        line_count: lines2,
        current_score: score2,
        current_level: level2,
        pending_effects: post.pending_effects,
        ..pre
    })
}

/// The game session.  All fields are plain data; the caller performs the
/// queued [`Effect`]s after each call.
pub struct Game {
    pub line_count: u16,
    pub statistics: Vec<u16>,
    pub top_score: u32,
    pub current_score: u32,
    pub current_level: u8,
    pub board_state: Vec<Vec<u8>>,
    pub game_state: GameState,
    pub current_mino: Mino,
    pub current_mino_position: BoardXY,
    pub next_mino: Mino,
    pub slam_offset: BoardXY,
    pub current_bag: Vec<Mino>,
    pub rows_cleared: Vec<usize>,
    pub pending_effects: Vec<Effect>,
}

impl Game {
    /// The board as a sequence of rows.
    pub open spec fn board(self) -> Seq<Seq<u8>> {
        board_view(self.board_state)
    }

    /// The active piece's column, as an integer.
    pub open spec fn px(self) -> int {
        self.current_mino_position.0 as int
    }

    /// The active piece's row, as an integer.
    pub open spec fn py(self) -> int {
        self.current_mino_position.1 as int
    }

    /// The rotation matrix of the active piece.
    pub open spec fn cur_rot(self) -> Seq<Seq<u8>> {
        self.current_mino.rot()
    }

    /// The session invariant: a well-formed board, catalog pieces, the
    /// active piece inside the walls, a bounded bag, and a sorted list of
    /// pending cleared rows.
    pub open spec fn wf(self) -> bool {
        &&& wf_board(self.board())
        &&& self.statistics@.len() == 7
        &&& self.current_mino.wf()
        &&& self.next_mino.wf()
        &&& forall|i: int|
            0 <= i < self.current_bag@.len() ==> (#[trigger] self.current_bag@[i]).wf()
        &&& self.current_bag@.len() <= 7
        &&& in_walls(self.cur_rot(), self.px(), self.py())
        &&& self.py() >= -1
        &&& forall|a: int, b: int|
            0 <= a < b < self.rows_cleared@.len() ==> #[trigger] self.rows_cleared@[a]
                < #[trigger] self.rows_cleared@[b]
        &&& forall|a: int|
            0 <= a < self.rows_cleared@.len() ==> #[trigger] self.rows_cleared@[a] < 20
        &&& self.slam_offset.0 == 0
        &&& 0 <= self.slam_offset.1 <= 25
    }

    /// True iff the active piece, displaced by `direction` and using
    /// `rotation`, would hit a wall, the floor, or the stack.
    pub fn collision(&self, direction: BoardXY, rotation: &Rotation) -> (r: bool)
        requires
            wf_board(self.board()),
            wf_rotation(rot_view(*rotation)),
        ensures
            r == collides(
                self.board(),
                rot_view(*rotation),
                self.px() + direction.0 as int,
                self.py() + direction.1 as int,
            ),
    {
        let rv = Ghost(rot_view(*rotation));
        let npx: i32 = self.current_mino_position.0 as i32 + direction.0 as i32;
        let npy: i32 = self.current_mino_position.1 as i32 + direction.1 as i32;
        let n = rotation.len();
        let mut cell_y: usize = 0;
        while cell_y < n
            invariant
                wf_board(self.board()),
                wf_rotation(rv@),
                rv@ == rot_view(*rotation),
                n == rotation@.len(),
                npx == self.px() + direction.0 as int,
                npy == self.py() + direction.1 as int,
                0 <= cell_y <= n,
                forall|y: int, x: int|
                    0 <= y < cell_y && occ(rv@, y, x) ==> !cell_hit(self.board(), npx as int,
                    npy as int, y, x),
            decreases n - cell_y,
        {
            let row = &rotation[cell_y];
            proof {
                assert(rv@[cell_y as int] == rot_view(*rotation)[cell_y as int]);
                assert(row@ == rv@[cell_y as int]);
                assert(rv@[cell_y as int].len() == rv@.len());
            }
            let mut cell_x: usize = 0;
            while cell_x < row.len()
                invariant
                    wf_board(self.board()),
                    wf_rotation(rv@),
                    rv@ == rot_view(*rotation),
                    n == rotation@.len(),
                    0 <= cell_y < n,
                    row == rotation@[cell_y as int],
                    row@ == rv@[cell_y as int],
                    row@.len() == rv@.len() <= 4,
                    npx == self.px() + direction.0 as int,
                    npy == self.py() + direction.1 as int,
                    0 <= cell_x <= row@.len(),
                    forall|y: int, x: int|
                        0 <= y < cell_y && occ(rv@, y, x) ==> !cell_hit(self.board(), npx as int,
                        npy as int, y, x),
                    forall|x: int|
                        0 <= x < cell_x && occ(rv@, cell_y as int, x) ==> !cell_hit(self.board(),
                        npx as int, npy as int, cell_y as int, x),
                decreases row@.len() - cell_x,
            {
                if row[cell_x] != 0 {
                    let bx: i32 = npx + 2 * cell_x as i32;
                    let brow: i32 = npy + cell_y as i32 - 1;
                    proof {
                        assert(occ(rv@, cell_y as int, cell_x as int));
                    }
                    if bx < 0 || bx > 19 {
                        proof {
                            assert(cell_hit(self.board(), npx as int, npy as int, cell_y as int,
                            cell_x as int));
                        }
                        return true;
                    }
                    if brow > 19 {
                        proof {
                            assert(cell_hit(self.board(), npx as int, npy as int, cell_y as int,
                            cell_x as int));
                        }
                        return true;
                    }
                    if brow >= 0 {
                        let ci: usize = brow as usize;
                        let cj: usize = (bx / 2) as usize;
                        proof {
                            assert(self.board().len() == 20);
                            assert(self.board()[ci as int] == self.board_state@[ci as int]@);
                            assert(self.board()[ci as int].len() == 10);
                            assert(0 <= bx / 2 <= 9);
                        }
                        if self.board_state[ci][cj] != 0 {
                            proof {
                                assert(cell_hit(self.board(), npx as int, npy as int,
                                cell_y as int, cell_x as int));
                            }
                            return true;
                        }
                    }
                    proof {
                        assert(!cell_hit(self.board(), npx as int, npy as int, cell_y as int,
                        cell_x as int));
                    }
                }
                cell_x = cell_x + 1;
            }
            cell_y = cell_y + 1;
        }
        proof {
            assert(!collides(self.board(), rv@, npx as int, npy as int));
        }
        false
    }

    /// Convert the active piece into placed cells: write its type id into
    /// every board cell its occupied sub-cells touch.
    fn place(&mut self)
        requires
            old(self).wf(),
        ensures
            final(self).wf(),
            *final(self) == (Game { board_state: final(self).board_state, ..*old(self) }),
            final(self).board() == place_spec(
                old(self).board(),
                old(self).cur_rot(),
                old(self).px(),
                old(self).py(),
                old(self).current_mino.selected_mino,
            ),
    {
        let ghost b0 = self.board();
        let ghost rv = self.cur_rot();
        let ghost ppx = self.px();
        let ghost ppy = self.py();
        let sel = self.current_mino.selected_mino;
        proof {
            lemma_catalog_wf(sel);
        }
        let ridx = self.current_mino.current_rotation;
        let n = self.current_mino.rotations[ridx].len();
        let mut cell_y: usize = 0;
        while cell_y < n
            invariant
                old(self).wf(),
                self.current_mino == old(self).current_mino,
                self.current_mino_position == old(self).current_mino_position,
                *self == (Game { board_state: self.board_state, ..*old(self) }),
                sel == self.current_mino.selected_mino,
                ridx == self.current_mino.current_rotation,
                b0 == old(self).board(),
                rv == self.cur_rot(),
                ppx == self.px(),
                ppy == self.py(),
                wf_rotation(rv),
                in_walls(rv, ppx, ppy),
                n == rv.len(),
                0 <= cell_y <= n,
                wf_board(self.board()),
                forall|i2: int, j2: int|
                    0 <= i2 < 20 && 0 <= j2 < 10 ==> #[trigger] self.board()[i2][j2] == (
                    if covered_before(rv, ppx, ppy, i2, j2, cell_y as int, 0) {
                        sel
                    } else {
                        b0[i2][j2]
                    }),
            decreases n - cell_y,
        {
            let row_len = self.current_mino.rotations[ridx][cell_y].len();
            proof {
                assert(rv[cell_y as int] == self.current_mino.rotations@[ridx as int]@[
                    cell_y as int]@);
                assert(row_len == rv[cell_y as int].len());
                assert(row_len == n);
            }
            let mut cell_x: usize = 0;
            while cell_x < row_len
                invariant
                    old(self).wf(),
                    self.current_mino == old(self).current_mino,
                    self.current_mino_position == old(self).current_mino_position,
                    *self == (Game { board_state: self.board_state, ..*old(self) }),
                    sel == self.current_mino.selected_mino,
                    ridx == self.current_mino.current_rotation,
                    b0 == old(self).board(),
                    rv == self.cur_rot(),
                    ppx == self.px(),
                    ppy == self.py(),
                    wf_rotation(rv),
                    in_walls(rv, ppx, ppy),
                    n == rv.len(),
                    0 <= cell_y < n,
                    row_len == n,
                    row_len == rv[cell_y as int].len(),
                    0 <= cell_x <= row_len,
                    wf_board(self.board()),
                    forall|i2: int, j2: int|
                        0 <= i2 < 20 && 0 <= j2 < 10 ==> #[trigger] self.board()[i2][j2] == (
                        if covered_before(rv, ppx, ppy, i2, j2, cell_y as int, cell_x as int) {
                            sel
                        } else {
                            b0[i2][j2]
                        }),
                decreases row_len - cell_x,
            {
                let val = self.current_mino.rotations[ridx][cell_y][cell_x];
                proof {
                    assert(val == rv[cell_y as int][cell_x as int]);
                }
                if val != 0 {
                    proof {
                        assert(occ(rv, cell_y as int, cell_x as int));
                    }
                    let bx: i32 = self.current_mino_position.0 as i32 + 2 * cell_x as i32;
                    let mut brow: i32 = self.current_mino_position.1 as i32 + cell_y as i32 - 1;
                    if brow < 0 {
                        brow = 0;
                    }
                    proof {
                        assert(0 <= bx <= 19);
                        assert(brow == target_row(ppy, cell_y as int));
                        assert(0 <= brow <= 19);
                    }
                    let ci: usize = brow as usize;
                    let cj: usize = (bx / 2) as usize;
                    let ghost prev = self.board();
                    proof {
                        assert(self.board_state@.len() == self.board().len());
                        assert(self.board_state@[ci as int]@ == self.board()[ci as int]);
                        assert(0 <= bx / 2 <= 9);
                    }
                    set_cell(&mut self.board_state, ci, cj, sel);
                    proof {
                        assert(self.board()[ci as int].len() == prev[ci as int].len());
                    }
                    proof {
                        assert forall|i2: int, j2: int|
                            0 <= i2 < 20 && 0 <= j2 < 10 implies #[trigger] self.board()[i2][j2]
                            == (if covered_before(rv, ppx, ppy, i2, j2, cell_y as int,
                        cell_x as int + 1) {
                            sel
                        } else {
                            b0[i2][j2]
                        }) by {
                            if i2 == ci && j2 == cj {
                                assert(covered_before(rv, ppx, ppy, i2, j2, cell_y as int,
                                cell_x as int + 1));
                            } else {
                                assert(self.board()[i2][j2] == prev[i2][j2]);
                                if covered_before(rv, ppx, ppy, i2, j2, cell_y as int,
                                cell_x as int + 1) {
                                    let (y, x) = choose|y: int, x: int|
                                        occ(rv, y, x) && (y < cell_y as int || (y == cell_y as int
                                            && x < cell_x as int + 1)) && target_row(ppy, y) == i2
                                            && (ppx + 2 * x) / 2 == j2;
                                    if y == cell_y as int && x == cell_x as int {
                                        assert(i2 == ci && j2 == cj);
                                        assert(false);
                                    } else {
                                        assert(covered_before(rv, ppx, ppy, i2, j2, cell_y as int,
                                        cell_x as int));
                                    }
                                }
                            }
                        }
                    }
                } else {
                    proof {
                        assert forall|i2: int, j2: int|
                            0 <= i2 < 20 && 0 <= j2 < 10 implies #[trigger] self.board()[i2][j2]
                            == (if covered_before(rv, ppx, ppy, i2, j2, cell_y as int,
                        cell_x as int + 1) {
                            sel
                        } else {
                            b0[i2][j2]
                        }) by {
                            if covered_before(rv, ppx, ppy, i2, j2, cell_y as int, cell_x as int
                                + 1) {
                                let (y, x) = choose|y: int, x: int|
                                    occ(rv, y, x) && (y < cell_y as int || (y == cell_y as int && x
                                        < cell_x as int + 1)) && target_row(ppy, y) == i2 && (ppx
                                        + 2 * x) / 2 == j2;
                                assert(!(y == cell_y as int && x == cell_x as int));
                                assert(covered_before(rv, ppx, ppy, i2, j2, cell_y as int,
                                cell_x as int));
                            }
                        }
                    }
                }
                cell_x = cell_x + 1;
            }
            proof {
                assert forall|i2: int, j2: int|
                    0 <= i2 < 20 && 0 <= j2 < 10 implies #[trigger] self.board()[i2][j2] == (
                if covered_before(rv, ppx, ppy, i2, j2, cell_y as int + 1, 0) {
                    sel
                } else {
                    b0[i2][j2]
                }) by {
                    if covered_before(rv, ppx, ppy, i2, j2, cell_y as int + 1, 0) {
                        let (y, x) = choose|y: int, x: int|
                            occ(rv, y, x) && (y < cell_y as int + 1 || (y == cell_y as int + 1 && x
                                < 0)) && target_row(ppy, y) == i2 && (ppx + 2 * x) / 2 == j2;
                        if y == cell_y as int {
                            assert(x < rv[y].len());
                            assert(covered_before(rv, ppx, ppy, i2, j2, cell_y as int,
                            row_len as int));
                        } else {
                            assert(covered_before(rv, ppx, ppy, i2, j2, cell_y as int,
                            row_len as int));
                        }
                    }
                    if covered_before(rv, ppx, ppy, i2, j2, cell_y as int, row_len as int) {
                        let (y, x) = choose|y: int, x: int|
                            occ(rv, y, x) && (y < cell_y as int || (y == cell_y as int && x
                                < row_len as int)) && target_row(ppy, y) == i2 && (ppx + 2 * x) / 2
                                == j2;
                        assert(y < cell_y as int + 1);
                        assert(covered_before(rv, ppx, ppy, i2, j2, cell_y as int + 1, 0));
                    }
                }
            }
            cell_y = cell_y + 1;
        }
        proof {
            let placed = place_spec(b0, rv, ppx, ppy, sel);
            assert forall|i2: int, j2: int| 0 <= i2 < 20 && 0 <= j2 < 10 implies #[trigger] self
                .board()[i2][j2] == placed[i2][j2] by {
                if covered(rv, ppx, ppy, i2, j2) {
                    let (y, x) = choose|y: int, x: int|
                        occ(rv, y, x) && target_row(ppy, y) == i2 && (ppx + 2 * x) / 2 == j2;
                    assert(y < n);
                    assert(covered_before(rv, ppx, ppy, i2, j2, n as int, 0));
                }
                if covered_before(rv, ppx, ppy, i2, j2, n as int, 0) {
                    let (y, x) = choose|y: int, x: int|
                        occ(rv, y, x) && (y < n as int || (y == n as int && x < 0)) && target_row(
                            ppy,
                            y,
                        ) == i2 && (ppx + 2 * x) / 2 == j2;
                    assert(covered(rv, ppx, ppy, i2, j2));
                }
            }
            assert(self.board() =~~= placed);
        }
    }

    /// Count one more cleared line, stopping at the counter's maximum.
    fn increase_lines(&mut self)
        ensures
            final(self).line_count == if old(self).line_count < 0xffff {
                old(self).line_count + 1
            } else {
                old(self).line_count as int
            },
            *final(self) == (Game { line_count: final(self).line_count, ..*old(self) }),
    {
        if self.line_count < 0xffff {
            self.line_count = self.line_count + 1;
        }
    }

    /// Bump the placement counter of piece type `index` (1..=7), stopping
    /// at the counter's maximum.
    fn increase_stat(&mut self, index: usize)
        requires
            old(self).statistics@.len() == 7,
            1 <= index <= 7,
        ensures
            final(self).statistics@ == stat_bump(old(self).statistics@, index as u8),
            *final(self) == (Game { statistics: final(self).statistics, ..*old(self) }),
    {
        let old_val = self.statistics[index - 1];
        if old_val < 0xffff {
            self.statistics[index - 1] = old_val + 1;
        } else {
            proof {
                assert(old(self).statistics@ =~= stat_bump(old(self).statistics@, index as u8));
            }
        }
    }

    /// Raise the level by one and return it.
    fn increase_level(&mut self) -> (l: u8)
        requires
            old(self).current_level < 255,
        ensures
            final(self).current_level == old(self).current_level + 1,
            l == final(self).current_level,
            *final(self) == (Game { current_level: final(self).current_level, ..*old(self) }),
    {
        self.current_level = self.current_level + 1;
        self.current_level
    }

    /// Draw the next piece into play: bump its statistics counter, spawn
    /// it at its offset, and advance (or refill) the bag.
    fn new_mino(&mut self)
        requires
            old(self).wf(),
        ensures
            final(self).wf(),
            final(self).current_mino == old(self).next_mino,
            final(self).current_mino_position == old(self).next_mino.start_offset,
            final(self).statistics@ == stat_bump(
                old(self).statistics@,
                old(self).next_mino.selected_mino,
            ),
            bag_step(old(self).current_bag@, final(self).current_bag@, final(self).next_mino),
            final(self).next_mino.wf(),
            *final(self) == (Game {
                current_mino: final(self).current_mino,
                current_mino_position: final(self).current_mino_position,
                statistics: final(self).statistics,
                next_mino: final(self).next_mino,
                current_bag: final(self).current_bag,
                ..*old(self)
            }),
    {
        let idx = self.next_mino.selected_mino;
        self.increase_stat(idx as usize);
        core::mem::swap(&mut self.current_mino, &mut self.next_mino);
        let ghost pre_bag = self.current_bag@;
        if self.current_bag.is_empty() {
            self.current_bag = Mino::new_bag();
        }
        let ghost full_bag = self.current_bag@;
        let drawn = self.current_bag.pop();
        self.next_mino = drawn.unwrap();
        proof {
            if pre_bag.len() == 0 {
                assert(self.current_bag@.push(self.next_mino) =~= full_bag);
                assert(one_of_each(self.current_bag@.push(self.next_mino)));
            }
        }
        self.current_mino_position = self.current_mino.start_offset;
        proof {
            lemma_catalog_wf(self.current_mino.selected_mino);
        }
    }

    /// End the run: go to the game-over phase, reset and pause the timer,
    /// empty the board, and queue the score for persistence where it beat
    /// the stored top score.
    fn game_over(&mut self)
        requires
            old(self).wf(),
        ensures
            final(self).wf(),
            final(self).game_state == GameState::GameOver,
            final(self).board() == empty_board(),
            final(self).pending_effects@ == old(self).pending_effects@ + game_over_effects(
                *old(self),
            ),
            *final(self) == (Game {
                game_state: GameState::GameOver,
                board_state: final(self).board_state,
                pending_effects: final(self).pending_effects,
                ..*old(self)
            }),
    {
        self.game_state = GameState::GameOver;
        self.pending_effects.push(Effect::Signal(TimerSignal::Reset));
        self.pending_effects.push(Effect::Signal(TimerSignal::Pause));
        let mut nb: Vec<Vec<u8>> = Vec::new();
        let mut k: usize = 0;
        while k < 20
            invariant
                k <= 20,
                nb@.len() == k,
                forall|i: int| 0 <= i < k ==> #[trigger] nb@[i]@ == empty_row(),
            decreases 20 - k,
        {
            nb.push(make_empty_row());
            k = k + 1;
        }
        self.board_state = nb;
        proof {
            assert(self.board() =~~= empty_board());
        }
        if self.top_score < self.current_score {
            self.pending_effects.push(Effect::SaveScore(self.current_score));
            proof {
                assert(self.pending_effects@ =~= old(self).pending_effects@ + game_over_effects(
                    *old(self),
                ));
            }
        } else {
            proof {
                assert(self.pending_effects@ =~= old(self).pending_effects@ + game_over_effects(
                    *old(self),
                ));
            }
        }
    }

    /// Try to move the active piece by `change_offset`; a blocked downward
    /// move lands it instead.
    fn move_mino(&mut self, change_offset: BoardXY)
        requires
            old(self).wf(),
            change_offset.0 == -2 || change_offset.0 == 0 || change_offset.0 == 2,
            0 <= change_offset.1 <= 25,
        ensures
            final(self).wf(),
            move_rel(
                *old(self),
                *final(self),
                change_offset.0 as int,
                change_offset.1 as int,
            ),
    {
        proof {
            lemma_catalog_wf(self.current_mino.selected_mino);
            lemma_pos_bounds(self.cur_rot(), self.px(), self.py());
        }
        if !self.collision(change_offset, self.current_mino.get_rotation()) {
            proof {
                lemma_not_collides_in_walls(
                    self.board(),
                    self.cur_rot(),
                    self.px() + change_offset.0 as int,
                    self.py() + change_offset.1 as int,
                );
            }
            self.current_mino_position.0 = self.current_mino_position.0 + change_offset.0;
            self.current_mino_position.1 = self.current_mino_position.1 + change_offset.1;
        } else if change_offset.0 == 0 && change_offset.1 == 1 {
            self.place();
            self.new_mino();
            proof {
                lemma_catalog_wf(self.current_mino.selected_mino);
            }
            if self.collision((0, 1), self.current_mino.get_rotation()) {
                self.game_over();
            }
        }
    }

    /// Apply one gravity step: move the piece down one row, or land it;
    /// does nothing unless the session is playing.
    pub fn move_down(&mut self)
        requires
            old(self).wf(),
        ensures
            final(self).wf(),
            gravity_step_rel(*old(self), *final(self)),
    {
        if self.game_state != GameState::Playing {
            return ;
        }
        self.move_mino((0, 1));
    }

    /// Move the active piece one cell left where nothing is in the way;
    /// does nothing unless the session is playing.
    pub fn move_left(&mut self)
        requires
            old(self).wf(),
        ensures
            final(self).wf(),
            old(self).game_state == GameState::Playing ==> move_rel(
                *old(self),
                *final(self),
                -2,
                0,
            ),
            old(self).game_state != GameState::Playing ==> *final(self) == *old(self),
    {
        if self.game_state != GameState::Playing {
            return ;
        }
        self.move_mino((-2, 0));
    }

    /// Move the active piece one cell right where nothing is in the way;
    /// does nothing unless the session is playing.
    pub fn move_right(&mut self)
        requires
            old(self).wf(),
        ensures
            final(self).wf(),
            old(self).game_state == GameState::Playing ==> move_rel(
                *old(self),
                *final(self),
                2,
                0,
            ),
            old(self).game_state != GameState::Playing ==> *final(self) == *old(self),
    {
        if self.game_state != GameState::Playing {
            return ;
        }
        self.move_mino((2, 0));
    }

    /// Turn the active piece in `direction` where the turned piece fits.
    fn rotate_mino(&mut self, direction: u8)
        requires
            old(self).wf(),
        ensures
            final(self).wf(),
            rotate_rel(*old(self), *final(self), direction),
    {
        proof {
            lemma_catalog_wf(self.current_mino.selected_mino);
        }
        let n = self.current_mino.rotations.len();
        let idx: usize = if direction == ROT_LEFT {
            if self.current_mino.current_rotation == 0 {
                n - 1
            } else {
                self.current_mino.current_rotation - 1
            }
        } else if direction == ROT_RIGHT {
            if self.current_mino.current_rotation >= n - 1 {
                0
            } else {
                self.current_mino.current_rotation + 1
            }
        } else {
            self.current_mino.current_rotation
        };
        proof {
            assert(idx as int == next_rot_index(
                self.current_mino.current_rotation as int,
                n as int,
                direction,
            ));
            assert(rot_view(self.current_mino.rotations@[idx as int])
                == self.current_mino.rots()[idx as int]);
        }
        if !self.collision((0, 0), &self.current_mino.rotations[idx]) {
            proof {
                lemma_not_collides_in_walls(
                    self.board(),
                    self.current_mino.rots()[idx as int],
                    self.px(),
                    self.py(),
                );
            }
            self.current_mino.rotate(direction);
        }
    }

    /// Turn the active piece clockwise; does nothing unless the session is
    /// playing.
    pub fn rotate_right(&mut self)
        requires
            old(self).wf(),
        ensures
            final(self).wf(),
            old(self).game_state == GameState::Playing ==> rotate_rel(
                *old(self),
                *final(self),
                ROT_RIGHT,
            ),
            old(self).game_state != GameState::Playing ==> *final(self) == *old(self),
    {
        if self.game_state != GameState::Playing {
            return ;
        }
        self.rotate_mino(ROT_RIGHT);
    }

    /// Turn the active piece counter-clockwise; does nothing unless the
    /// session is playing.
    pub fn rotate_left(&mut self)
        requires
            old(self).wf(),
        ensures
            final(self).wf(),
            old(self).game_state == GameState::Playing ==> rotate_rel(
                *old(self),
                *final(self),
                ROT_LEFT,
            ),
            old(self).game_state != GameState::Playing ==> *final(self) == *old(self),
    {
        if self.game_state != GameState::Playing {
            return ;
        }
        self.rotate_mino(ROT_LEFT);
    }

    /// One row-clearing pass, as [`check_rows_rel`] describes: resolve the
    /// removal flagged last pass, then detect, blank and flag newly full
    /// rows, add their score, and raise the level at each bucket of ten
    /// lines.
    fn check_rows(&mut self)
        requires
            old(self).wf(),
        ensures
            final(self).wf(),
            check_rows_rel(*old(self), *final(self)),
    {
        let ghost b0 = self.board();
        let ghost cl0 = self.rows_cleared@;
        if self.rows_cleared.len() > 0 {
            proof {
                lemma_pending_len(cl0);
            }
            let pending_count = self.rows_cleared.len();
            self.pending_effects.push(Effect::Signal(TimerSignal::Pause));
            let ms: u64 = 300 + 100 * (pending_count as u64);
            self.pending_effects.push(Effect::Sleep(ms));
            self.pending_effects.push(Effect::Signal(TimerSignal::Unpause));
            let mut kept: Vec<Vec<u8>> = Vec::new();
            let mut i: usize = 0;
            while i < 20
                invariant
                    *self == (Game { pending_effects: self.pending_effects, ..*old(self) }),
                    b0 == old(self).board(),
                    cl0 == old(self).rows_cleared@,
                    wf_board(b0),
                    i <= 20,
                    board_view(kept) == kept_prefix(b0, cl0, i as int),
                    kept@.len() <= i,
                    forall|k: int| 0 <= k < kept@.len() ==> (#[trigger] kept@[k]@).len() == 10,
                decreases 20 - i,
            {
                if !contains_idx(&self.rows_cleared, i) {
                    let r = copy_row(&self.board_state[i]);
                    kept.push(r);
                    proof {
                        assert(board_view(kept) =~= kept_prefix(b0, cl0, i as int + 1));
                    }
                } else {
                    proof {
                        assert(board_view(kept) =~= kept_prefix(b0, cl0, i as int + 1));
                    }
                }
                i = i + 1;
            }
            proof {
                lemma_kept_prefix_len(b0, cl0, 20);
            }
            let ghost keptv = kept@;
            let ghost keptview = board_view(kept);
            let kept_len = kept.len();
            let empties: usize = 20 - kept_len;
            let mut nb: Vec<Vec<u8>> = Vec::new();
            let mut k: usize = 0;
            while k < empties
                invariant
                    k <= empties,
                    nb@.len() == k,
                    forall|a: int| 0 <= a < k ==> #[trigger] nb@[a]@ == empty_row(),
                decreases empties - k,
            {
                nb.push(make_empty_row());
                k = k + 1;
            }
            nb.append(&mut kept);
            self.board_state = nb;
            self.rows_cleared = Vec::new();
            proof {
                assert forall|r: int| 0 <= r < 20 implies #[trigger] self.board()[r]
                    == board_after_removal(b0, cl0)[r] by {
                    if r >= empties {
                        assert(self.board_state@[r] == keptv[r - empties]);
                        assert(self.board()[r] == keptv[r - empties]@);
                        assert(keptview[r - empties] == keptv[r - empties]@);
                        assert(kept_prefix(b0, cl0, 20)[r - empties] == keptv[r - empties]@);
                    }
                }
                assert(self.board() =~~= board_after_removal(b0, cl0));
                assert(wf_board(self.board()));
            }
        }
        let ghost g_mid = *self;
        let ghost b1 = self.board();
        let ghost lc0 = self.line_count;
        let mut count: usize = 0;
        let mut i: usize = 0;
        while i < 20
            invariant
                wf_board(b1),
                i <= 20,
                count <= i,
                *self == (Game {
                    board_state: self.board_state,
                    rows_cleared: self.rows_cleared,
                    line_count: self.line_count,
                    ..g_mid
                }),
                self.rows_cleared@ == full_indices(b1, i as int),
                count == full_indices(b1, i as int).len(),
                lc0 == g_mid.line_count,
                self.line_count == sat_add_u16(lc0, count as int),
                self.board().len() == 20,
                forall|r: int|
                    0 <= r < 20 ==> #[trigger] self.board()[r] == (if r < i && row_full(b1[r]) {
                        empty_row()
                    } else {
                        b1[r]
                    }),
            decreases 20 - i,
        {
            proof {
                assert(self.board_state@[i as int]@ == self.board()[i as int]);
                assert(self.board()[i as int] == b1[i as int]);
            }
            let full = is_full_row(&self.board_state[i]);
            if full {
                let er = make_empty_row();
                set_row(&mut self.board_state, i, er);
                self.rows_cleared.push(i);
                self.increase_lines();
                count = count + 1;
                proof {
                    assert(self.rows_cleared@ =~= full_indices(b1, i as int + 1));
                    assert(full_indices(b1, i as int + 1).len() == count);
                }
            } else {
                proof {
                    assert(self.rows_cleared@ =~= full_indices(b1, i as int + 1));
                }
            }
            i = i + 1;
        }
        proof {
            assert(self.board() =~~= blank_full(b1));
            lemma_full_indices_props(b1, 20);
        }
        let level_mult: u32 = self.current_level as u32 + 1;
        let base: u32 = if count == 0 {
            0
        } else if count == 1 {
            40
        } else if count == 2 {
            100
        } else if count == 3 {
            300
        } else {
            1200
        };
        proof {
            assert(level_mult * base <= 307200) by (nonlinear_arith)
                requires
                    level_mult <= 256,
                    base <= 1200,
            ;
        }
        let delta: u32 = level_mult * base;
        if self.current_score <= u32::MAX - delta {
            self.current_score = self.current_score + delta;
        } else {
            self.current_score = u32::MAX;
        }
        if self.line_count / 10 != self.current_level as u16 {
            if self.current_level < 255 {
                self.increase_level();
                self.pending_effects.push(Effect::Signal(TimerSignal::Increase));
            }
        }
        proof {
            if cl0.len() > 0 {
                assert(self.pending_effects@ =~= old(self).pending_effects@ + seq![
                    Effect::Signal(TimerSignal::Pause),
                    Effect::Sleep((300 + 100 * cl0.len()) as u64),
                    Effect::Signal(TimerSignal::Unpause),
                ] + if self.current_level != g_mid.current_level {
                    seq![Effect::Signal(TimerSignal::Increase)]
                } else {
                    Seq::empty()
                });
            } else {
                assert(self.pending_effects@ =~= old(self).pending_effects@ + Seq::empty() + (
                if self.current_level != g_mid.current_level {
                    seq![Effect::Signal(TimerSignal::Increase)]
                } else {
                    Seq::empty()
                }));
            }
        }
    }

    /// One frame update: resolve pending clears, apply one gravity step
    /// per buffered tick, and recompute the ghost-drop offset.
    pub fn update(&mut self, drop_count: usize)
        requires
            old(self).wf(),
        ensures
            final(self).wf(),
            update_rel(*old(self), *final(self), drop_count as nat),
    {
        self.check_rows();
        let ghost g1 = *self;
        proof {
            assert(gravity_steps(g1, g1, 0nat));
        }
        let mut k: usize = 0;
        while k < drop_count
            invariant
                self.wf(),
                k <= drop_count,
                gravity_steps(g1, *self, k as nat),
            decreases drop_count - k,
        {
            let ghost prev = *self;
            self.move_down();
            proof {
                lemma_gravity_steps_extend(g1, prev, *self, k as nat, (k + 1) as nat);
                assert(gravity_steps(g1, *self, (k + 1) as nat));
            }
            k = k + 1;
        }
        let ghost g2 = *self;
        proof {
            lemma_catalog_wf(self.current_mino.selected_mino);
            lemma_pos_bounds(self.cur_rot(), self.px(), self.py());
        }
        let mut off: i16 = 0;
        let mut hit_found = false;
        while !hit_found
            invariant
                *self == g2,
                self.wf(),
                wf_rotation(g2.cur_rot()),
                -1 <= g2.py() <= 20,
                0 <= off,
                !hit_found ==> off <= 21 - g2.py(),
                !hit_found ==> (forall|j: int|
                    1 <= j <= off ==> !#[trigger] collides(g2.board(), g2.cur_rot(), g2.px(),
                    g2.py() + j)),
                hit_found ==> 1 <= off <= 22 - g2.py() && collides(
                    g2.board(),
                    g2.cur_rot(),
                    g2.px(),
                    g2.py() + off,
                ),
                hit_found ==> (forall|j: int|
                    1 <= j < off ==> !#[trigger] collides(g2.board(), g2.cur_rot(), g2.px(),
                    g2.py() + j)),
            decreases 22 - g2.py() - off,
        {
            off = off + 1;
            hit_found = self.collision((0, off), self.current_mino.get_rotation());
            proof {
                if !hit_found && g2.py() + off >= 21 {
                    lemma_floor_collides(g2.board(), g2.cur_rot(), g2.px(), g2.py() + off);
                    assert(false);
                }
            }
        }
        self.slam_offset = (0, off - 1);
        proof {
            assert(slam_probe_rel(g2, *self));
            assert(check_rows_rel(*old(self), g1));
            assert(gravity_steps(g1, g2, drop_count as nat));
        }
    }

    /// Drop the active piece by the precomputed ghost offset and force the
    /// landing with one more gravity step; does nothing unless the session
    /// is playing.
    pub fn slam(&mut self)
        requires
            old(self).wf(),
        ensures
            final(self).wf(),
            old(self).game_state != GameState::Playing ==> *final(self) == *old(self),
            old(self).game_state == GameState::Playing ==> exists|mid: Game|
                #[trigger] move_rel(*old(self), mid, 0, old(self).slam_offset.1 as int)
                    && gravity_step_rel(mid, *final(self)),
    {
        if self.game_state != GameState::Playing {
            return ;
        }
        let off = self.slam_offset.1;
        self.move_mino((0, off));
        let ghost mid = *self;
        self.move_down();
        proof {
            assert(move_rel(*old(self), mid, 0, off as int) && gravity_step_rel(mid, *self));
        }
    }

    /// Toggle between playing and paused, telling the timer: pausing while
    /// playing, resuming while paused, nothing in any other phase.
    pub fn toggle_paused(&mut self)
        requires
            old(self).wf(),
        ensures
            final(self).wf(),
            old(self).game_state == GameState::Playing ==> final(self).game_state
                == GameState::Paused && final(self).pending_effects@ == old(
                self,
            ).pending_effects@.push(Effect::Signal(TimerSignal::Pause)),
            old(self).game_state == GameState::Paused ==> final(self).game_state
                == GameState::Playing && final(self).pending_effects@ == old(
                self,
            ).pending_effects@.push(Effect::Signal(TimerSignal::Unpause)),
            old(self).game_state != GameState::Playing && old(self).game_state
                != GameState::Paused ==> *final(self) == *old(self),
            *final(self) == (Game {
                game_state: final(self).game_state,
                pending_effects: final(self).pending_effects,
                ..*old(self)
            }),
    {
        if self.game_state == GameState::Paused {
            self.game_state = GameState::Playing;
            self.pending_effects.push(Effect::Signal(TimerSignal::Unpause));
        } else if self.game_state == GameState::Playing {
            self.game_state = GameState::Paused;
            self.pending_effects.push(Effect::Signal(TimerSignal::Pause));
        }
    }

    /// Leave the start screen (or a finished run) and play, resuming the
    /// timer.
    pub fn start_game(&mut self)
        requires
            old(self).wf(),
        ensures
            final(self).wf(),
            final(self).game_state == GameState::Playing,
            final(self).pending_effects@ == old(self).pending_effects@.push(
                Effect::Signal(TimerSignal::Unpause),
            ),
            *final(self) == (Game {
                game_state: GameState::Playing,
                pending_effects: final(self).pending_effects,
                ..*old(self)
            }),
    {
        self.game_state = GameState::Playing;
        self.pending_effects.push(Effect::Signal(TimerSignal::Unpause));
    }

    /// Begin a fresh run after game over: reset the per-run counters,
    /// carry the top score over where it was beaten, and start playing.
    pub fn new_game(&mut self)
        requires
            old(self).wf(),
        ensures
            final(self).wf(),
            final(self).current_level == 0,
            final(self).line_count == 0,
            final(self).statistics@ == Seq::new(7, |i: int| 0u16),
            final(self).top_score == if old(self).current_score > old(self).top_score {
                old(self).current_score
            } else {
                old(self).top_score
            },
            final(self).current_score == 0,
            final(self).game_state == GameState::Playing,
            final(self).pending_effects@ == old(self).pending_effects@.push(
                Effect::Signal(TimerSignal::Unpause),
            ),
            *final(self) == (Game {
                current_level: 0,
                line_count: 0,
                statistics: final(self).statistics,
                top_score: final(self).top_score,
                current_score: 0,
                game_state: GameState::Playing,
                pending_effects: final(self).pending_effects,
                ..*old(self)
            }),
    {
        self.current_level = 0;
        self.line_count = 0;
        let mut stats: Vec<u16> = Vec::new();
        let mut k: usize = 0;
        while k < 7
            invariant
                k <= 7,
                stats@.len() == k,
                forall|i: int| 0 <= i < k ==> stats@[i] == 0u16,
            decreases 7 - k,
        {
            stats.push(0);
            k = k + 1;
        }
        self.statistics = stats;
        proof {
            assert(self.statistics@ =~= Seq::new(7, |i: int| 0u16));
        }
        if self.current_score > self.top_score {
            self.top_score = self.current_score;
        }
        self.current_score = 0;
        self.start_game();
    }

    /// Hand the queued effects to the caller, in order, leaving the queue
    /// empty.
    pub fn take_effects(&mut self) -> (effects: Vec<Effect>)
        ensures
            effects@ == old(self).pending_effects@,
            final(self).pending_effects@ == Seq::<Effect>::empty(),
            *final(self) == (Game {
                pending_effects: final(self).pending_effects,
                ..*old(self)
            }),
            old(self).wf() ==> final(self).wf(),
    {
        let mut out: Vec<Effect> = Vec::new();
        core::mem::swap(&mut out, &mut self.pending_effects);
        out
    }

    /// A fresh session on the start screen: an empty board, a shuffled
    /// bag with the first two pieces drawn as current and next, zeroed
    /// counters, the given stored top score, and the timer paused.
    pub fn new(top_score: u32) -> (g: Game)
        ensures
            g.wf(),
            g.line_count == 0,
            g.current_level == 0,
            g.current_score == 0,
            g.top_score == top_score,
            g.game_state == GameState::StartScreen,
            g.board() == empty_board(),
            g.statistics@.len() == 7,
            g.statistics@[g.current_mino.selected_mino - 1] == 1,
            forall|i: int|
                0 <= i < 7 && i != g.current_mino.selected_mino - 1 ==> g.statistics@[i] == 0,
            g.current_mino.current_rotation == 0,
            g.next_mino.current_rotation == 0,
            g.current_mino_position == g.current_mino.start_offset,
            g.current_bag@.len() == 5,
            one_of_each(g.current_bag@.push(g.next_mino).push(g.current_mino)),
            g.slam_offset == (0i16, 0i16),
            g.rows_cleared@.len() == 0,
            g.pending_effects@ == seq![Effect::Signal(TimerSignal::Pause)],
    {
        let mut pending_effects: Vec<Effect> = Vec::new();
        pending_effects.push(Effect::Signal(TimerSignal::Pause));
        let mut mino_bag = Mino::new_bag();
        let ghost bag7 = mino_bag@;
        let current_mino = mino_bag.pop().unwrap();
        let ghost bag6 = mino_bag@;
        let next_mino = mino_bag.pop().unwrap();
        let mut statistics: Vec<u16> = Vec::new();
        let mut k: usize = 0;
        while k < 7
            invariant
                k <= 7,
                statistics@.len() == k,
                forall|i: int| 0 <= i < k ==> statistics@[i] == 0u16,
            decreases 7 - k,
        {
            statistics.push(0);
            k = k + 1;
        }
        statistics[(current_mino.selected_mino - 1) as usize] = 1;
        let mut board_state: Vec<Vec<u8>> = Vec::new();
        let mut r: usize = 0;
        while r < 20
            invariant
                r <= 20,
                board_state@.len() == r,
                forall|i: int| 0 <= i < r ==> #[trigger] board_state@[i]@ == empty_row(),
            decreases 20 - r,
        {
            board_state.push(make_empty_row());
            r = r + 1;
        }
        let g = Game {
            line_count: 0,
            statistics,
            top_score,
            current_score: 0,
            current_level: 0,
            board_state,
            game_state: GameState::StartScreen,
            current_mino_position: current_mino.start_offset,
            current_mino,
            next_mino,
            slam_offset: (0, 0),
            current_bag: mino_bag,
            rows_cleared: Vec::new(),
            pending_effects,
        };
        proof {
            assert(g.board() =~~= empty_board());
            assert(g.current_bag@.push(g.next_mino) =~= bag6);
            assert(bag6.push(g.current_mino) =~= bag7);
            assert(g.current_bag@.push(g.next_mino).push(g.current_mino) =~= bag7);
            lemma_catalog_wf(g.current_mino.selected_mino);
            assert(g.pending_effects@ =~= seq![Effect::Signal(TimerSignal::Pause)]);
        }
        g
    }
}

/// Overwrite one cell of the board grid.
fn set_cell(b: &mut Vec<Vec<u8>>, i: usize, j: usize, v: u8)
    requires
        i < old(b)@.len(),
        j < old(b)@[i as int]@.len(),
    ensures
        final(b)@.len() == old(b)@.len(),
        board_view(*final(b)).len() == board_view(*old(b)).len(),
        forall|i2: int|
            0 <= i2 < old(b)@.len() && i2 != i ==> board_view(*final(b))[i2] == board_view(
                *old(b),
            )[i2],
        board_view(*final(b))[i as int] == board_view(*old(b))[i as int].update(j as int, v),
{
    let row = &mut b[i];
    row[j] = v;
}

/// Overwrite one row of the board grid.
fn set_row(b: &mut Vec<Vec<u8>>, i: usize, row: Vec<u8>)
    requires
        i < old(b)@.len(),
    ensures
        final(b)@.len() == old(b)@.len(),
        forall|i2: int|
            0 <= i2 < old(b)@.len() && i2 != i ==> board_view(*final(b))[i2] == board_view(
                *old(b),
            )[i2],
        board_view(*final(b))[i as int] == row@,
{
    b[i] = row;
}

/// Whether every cell of the row is occupied.
fn is_full_row(row: &Vec<u8>) -> (r: bool)
    ensures
        r == row_full(row@),
{
    let mut j: usize = 0;
    while j < row.len()
        invariant
            j <= row@.len(),
            forall|k: int| 0 <= k < j ==> row@[k] != 0,
        decreases row@.len() - j,
    {
        if row[j] == 0 {
            return false;
        }
        j = j + 1;
    }
    true
}

/// A copy of one board row.
fn copy_row(row: &Vec<u8>) -> (r: Vec<u8>)
    ensures
        r@ == row@,
{
    let mut r: Vec<u8> = Vec::new();
    let mut j: usize = 0;
    while j < row.len()
        invariant
            j <= row@.len(),
            r@.len() == j,
            forall|k: int| 0 <= k < j ==> r@[k] == row@[k],
        decreases row@.len() - j,
    {
        r.push(row[j]);
        j = j + 1;
    }
    proof {
        assert(r@ =~= row@);
    }
    r
}

/// Whether `i` stands in the list of row indices.
fn contains_idx(list: &Vec<usize>, i: usize) -> (r: bool)
    ensures
        r == list@.contains(i),
{
    let mut k: usize = 0;
    while k < list.len()
        invariant
            k <= list@.len(),
            forall|a: int| 0 <= a < k ==> list@[a] != i,
        decreases list@.len() - k,
    {
        if list[k] == i {
            return true;
        }
        k = k + 1;
    }
    proof {
        assert(!list@.contains(i));
    }
    false
}

/// A fresh row of 10 empty cells.
fn make_empty_row() -> (r: Vec<u8>)
    ensures
        r@ == empty_row(),
{
    let mut r: Vec<u8> = Vec::new();
    let mut k: usize = 0;
    while k < 10
        invariant
            k <= 10,
            r@.len() == k,
            forall|j: int| 0 <= j < k ==> r@[j] == 0u8,
        decreases 10 - k,
    {
        r.push(0);
        k = k + 1;
    }
    proof {
        assert(r@ =~= empty_row());
    }
    r
}

} // verus!
