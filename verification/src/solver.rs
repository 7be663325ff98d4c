//! The search for the longest word that a walk over the grid can spell.
//!
//! A walk starts on any cell and goes on from a cell to one of its up to
//! eight neighbours, never to a cell it was on before. Only cells that hold a
//! letter can be walked on. The search tries every cell as a start, in the
//! order of reading (row by row, left to right), and from a cell tries the
//! neighbours in this order: up-left, left, up-right, right, up, down-left,
//! down-right, down. Of two words of the same length it keeps the one it came
//! upon first.
use vstd::prelude::*;
use crate::text::{is_letter, letter, push_char};
use crate::word_dict::Trie;
use crate::{Board, Pos};

verus! {

/// The number of rows.
pub open spec fn height(board: &Board) -> int {
    board.len() as int
}

/// The number of columns, taken from the first row.
pub open spec fn width(board: &Board) -> int {
    if board.len() > 0 {
        board@[0].len() as int
    } else {
        0
    }
}

/// The grid has a cell, and every row is as long as the first.
pub open spec fn well_formed(board: &Board) -> bool {
    &&& height(board) > 0
    &&& width(board) > 0
    &&& forall|r: int| 0 <= r < height(board) ==> (#[trigger] board@[r])@.len() == width(board)
}

/// `pos` is a cell of the grid.
pub open spec fn on_board(board: &Board, pos: Pos) -> bool {
    pos.0 < height(board) && pos.1 < width(board)
}

/// The character in the cell `pos`.
pub open spec fn cell(board: &Board, pos: Pos) -> char {
    board@[pos.0 as int]@[pos.1 as int]
}

/// Two different cells that touch, by a side or by a corner.
pub open spec fn adjacent(a: Pos, b: Pos) -> bool {
    &&& a != b
    &&& a.0 <= b.0 + 1
    &&& b.0 <= a.0 + 1
    &&& a.1 <= b.1 + 1
    &&& b.1 <= a.1 + 1
}

/// A walk: cells of the grid that hold letters, each next to the one before
/// it, none of them twice.
pub open spec fn is_walk(board: &Board, path: Seq<Pos>) -> bool {
    &&& forall|i: int|
        0 <= i < path.len() ==> on_board(board, #[trigger] path[i]) && is_letter(
            cell(board, path[i]),
        )
    &&& forall|i: int| 0 < i < path.len() ==> adjacent(path[i - 1], #[trigger] path[i])
    &&& forall|i: int, j: int| 0 <= i < j < path.len() ==> #[trigger] path[i] != #[trigger] path[j]
}

/// The characters in the cells of `path`, in its order.
pub open spec fn spelled(board: &Board, path: Seq<Pos>) -> Seq<char> {
    Seq::new(path.len(), |i: int| cell(board, path[i]))
}

/// The `k`-th direction in which a walk is continued, as a step in rows and
/// a step in columns.
pub open spec fn direction(k: int) -> (int, int) {
    if k == 0 {
        (-1, -1)
    } else if k == 1 {
        (0, -1)
    } else if k == 2 {
        (-1, 1)
    } else if k == 3 {
        (0, 1)
    } else if k == 4 {
        (-1, 0)
    } else if k == 5 {
        (1, -1)
    } else if k == 6 {
        (1, 1)
    } else {
        (1, 0)
    }
}

/// The cell one step from `pos` in the `k`-th direction, unless the step
/// leaves the grid.
pub open spec fn step(board: &Board, pos: Pos, k: int) -> Option<Pos> {
    let r = pos.0 + direction(k).0;
    let c = pos.1 + direction(k).1;
    if 0 <= r < height(board) && 0 <= c < width(board) {
        Some((r as usize, c as usize))
    } else {
        None
    }
}

/// The neighbours of `pos` in the first `k` directions.
pub open spec fn neighbors_upto(board: &Board, pos: Pos, k: int) -> Seq<Pos>
    decreases k,
{
    if k <= 0 {
        Seq::empty()
    } else {
        match step(board, pos, k - 1) {
            Some(p) => neighbors_upto(board, pos, k - 1).push(p),
            None => neighbors_upto(board, pos, k - 1),
        }
    }
}

/// The neighbours of `pos`, in the order in which the search tries them.
pub open spec fn neighbor_seq(board: &Board, pos: Pos) -> Seq<Pos> {
    neighbors_upto(board, pos, 8)
}

/// Every one of the neighbours is a cell of the grid next to `pos`.
pub proof fn lemma_neighbors_sound(board: &Board, pos: Pos, k: int)
    requires
        on_board(board, pos),
        0 <= k <= 8,
    ensures
        forall|i: int|
            0 <= i < neighbors_upto(board, pos, k).len() ==> on_board(
                board,
                #[trigger] neighbors_upto(board, pos, k)[i],
            ) && adjacent(pos, neighbors_upto(board, pos, k)[i]),
    decreases k,
{
    if k > 0 {
        lemma_neighbors_sound(board, pos, k - 1);
        let now = neighbors_upto(board, pos, k);
        let before = neighbors_upto(board, pos, k - 1);
        assert forall|i: int| 0 <= i < now.len() implies on_board(board, #[trigger] now[i])
            && adjacent(pos, now[i]) by {
            if i < before.len() {
                assert(now[i] == before[i]);
                assert(on_board(board, before[i]));
            } else {
                let d = direction(k - 1);
                assert(-1 <= d.0 <= 1 && -1 <= d.1 <= 1 && (d.0 != 0 || d.1 != 0));
                let p = step(board, pos, k - 1)->0;
                assert(now[i] == p);
                assert(p.0 == pos.0 + d.0);
                assert(p.1 == pos.1 + d.1);
                assert(on_board(board, p));
                assert(adjacent(pos, p));
            }
        }
    }
}

/// A step that stays on the grid is found among the neighbours.
pub proof fn lemma_neighbors_hold_step(board: &Board, pos: Pos, d: int, k: int)
    requires
        0 <= d < k <= 8,
        step(board, pos, d) is Some,
    ensures
        neighbors_upto(board, pos, k).contains(step(board, pos, d)->0),
    decreases k,
{
    let now = neighbors_upto(board, pos, k);
    if d == k - 1 {
        assert(now[now.len() - 1] == step(board, pos, d)->0);
    } else {
        lemma_neighbors_hold_step(board, pos, d, k - 1);
        let before = neighbors_upto(board, pos, k - 1);
        let i = choose|i: int| 0 <= i < before.len() && before[i] == step(board, pos, d)->0;
        assert(now[i] == before[i]);
    }
}

/// Every cell of the grid next to `pos` is one of the neighbours.
pub proof fn lemma_neighbors_complete(board: &Board, pos: Pos, other: Pos)
    requires
        on_board(board, pos),
        on_board(board, other),
        adjacent(pos, other),
    ensures
        neighbor_seq(board, pos).contains(other),
{
    let dr = other.0 - pos.0;
    let dc = other.1 - pos.1;
    let d: int = if dr == -1 && dc == -1 {
        0
    } else if dr == 0 && dc == -1 {
        1
    } else if dr == -1 && dc == 1 {
        2
    } else if dr == 0 && dc == 1 {
        3
    } else if dr == -1 && dc == 0 {
        4
    } else if dr == 1 && dc == -1 {
        5
    } else if dr == 1 && dc == 1 {
        6
    } else {
        7
    };
    assert(direction(d) == (dr, dc));
    assert(step(board, pos, d) == Some(other));
    lemma_neighbors_hold_step(board, pos, d, 8);
}

/// The neighbours of `pos` on the grid: the cells one step away in each of
/// the eight directions, those left out that the grid does not have.
pub fn neighbors(board: &Board, pos: Pos) -> (v: Vec<Pos>)
    requires
        well_formed(board),
        on_board(board, pos),
    ensures
        v@ == neighbor_seq(board, pos),
{
    let height = board.len();
    let width = board[0].len();
    let row = pos.0;
    let col = pos.1;
    let up = row > 0;
    let down = row + 1 < height;
    let left = col > 0;
    let right = col + 1 < width;
    let mut v: Vec<Pos> = Vec::with_capacity(8);
    assert(v@ == neighbors_upto(board, pos, 0));
    if up && left {
        v.push((row - 1, col - 1));
    }
    assert(v@ == neighbors_upto(board, pos, 1));
    if left {
        v.push((row, col - 1));
    }
    assert(v@ == neighbors_upto(board, pos, 2));
    if up && right {
        v.push((row - 1, col + 1));
    }
    assert(v@ == neighbors_upto(board, pos, 3));
    if right {
        v.push((row, col + 1));
    }
    assert(v@ == neighbors_upto(board, pos, 4));
    if up {
        v.push((row - 1, col));
    }
    assert(v@ == neighbors_upto(board, pos, 5));
    if down && left {
        v.push((row + 1, col - 1));
    }
    assert(v@ == neighbors_upto(board, pos, 6));
    if down && right {
        v.push((row + 1, col + 1));
    }
    assert(v@ == neighbors_upto(board, pos, 7));
    if down {
        v.push((row + 1, col));
    }
    assert(v@ == neighbors_upto(board, pos, 8));
    v
}

/// The number of the direction that leads from `from` to the cell `to` next
/// to it; 8 if no direction does.
pub open spec fn turn(from: Pos, to: Pos) -> int {
    let dr = to.0 - from.0;
    let dc = to.1 - from.1;
    if dr == -1 && dc == -1 {
        0
    } else if dr == 0 && dc == -1 {
        1
    } else if dr == -1 && dc == 1 {
        2
    } else if dr == 0 && dc == 1 {
        3
    } else if dr == -1 && dc == 0 {
        4
    } else if dr == 1 && dc == -1 {
        5
    } else if dr == 1 && dc == 1 {
        6
    } else if dr == 1 && dc == 0 {
        7
    } else {
        8
    }
}

/// `a` comes before `b` in the order of reading.
pub open spec fn starts_earlier(a: Pos, b: Pos) -> bool {
    a.0 < b.0 || (a.0 == b.0 && a.1 < b.1)
}

/// The walks `a` and `b` are the same up to their `k`-th cell, and there `a`
/// takes a direction that the search tries before the one that `b` takes.
pub open spec fn parts_first_at(a: Seq<Pos>, b: Seq<Pos>, k: int) -> bool {
    &&& 0 < k < a.len()
    &&& k < b.len()
    &&& forall|i: int| 0 <= i < k ==> a[i] == b[i]
    &&& turn(a[k - 1], a[k]) < turn(a[k - 1], b[k])
}

/// The search comes upon the walk `a` before the walk `b`: `a` starts on an
/// earlier cell, or they start on the same cell and, where they part, `a`
/// takes the direction that is tried first.
pub open spec fn found_before(a: Seq<Pos>, b: Seq<Pos>) -> bool {
    a.len() > 0 && b.len() > 0 && (starts_earlier(a[0], b[0]) || exists|k: int|
        parts_first_at(a, b, k))
}

/// The neighbours stand in the order of their directions.
pub proof fn lemma_neighbors_rising(board: &Board, pos: Pos, k: int)
    requires
        on_board(board, pos),
        0 <= k <= 8,
    ensures
        forall|i: int|
            0 <= i < neighbors_upto(board, pos, k).len() ==> turn(
                pos,
                #[trigger] neighbors_upto(board, pos, k)[i],
            ) < k,
        forall|i: int, j: int|
            0 <= i < j < neighbors_upto(board, pos, k).len() ==> turn(
                pos,
                #[trigger] neighbors_upto(board, pos, k)[i],
            ) < turn(pos, #[trigger] neighbors_upto(board, pos, k)[j]),
    decreases k,
{
    if k > 0 {
        lemma_neighbors_rising(board, pos, k - 1);
        let now = neighbors_upto(board, pos, k);
        let before = neighbors_upto(board, pos, k - 1);
        if step(board, pos, k - 1) is Some {
            let p = step(board, pos, k - 1)->0;
            let d = direction(k - 1);
            assert(p.0 == pos.0 + d.0 && p.1 == pos.1 + d.1);
            assert(turn(pos, p) == k - 1);
            assert(now[before.len() as int] == p);
        }
        assert forall|i: int| 0 <= i < now.len() implies turn(pos, #[trigger] now[i]) < k by {
            if i < before.len() {
                assert(now[i] == before[i]);
            }
        }
        assert forall|i: int, j: int| 0 <= i < j < now.len() implies turn(pos, #[trigger] now[i])
            < turn(pos, #[trigger] now[j]) by {
            assert(now[i] == before[i]);
            if j < before.len() {
                assert(now[j] == before[j]);
            }
        }
    }
}

/// `q` starts with the cells of `stem`, in their order.
spec fn begins_with(q: Seq<Pos>, stem: Seq<Pos>) -> bool {
    &&& stem.len() <= q.len()
    &&& forall|i: int| 0 <= i < stem.len() ==> #[trigger] q[i] == stem[i]
}

/// `q` is a walk that starts with `stem`, and the letters on it from the
/// last cell of `stem` on complete a word at `node`: the node that stands
/// for the letters on the cells of `stem` before its last.
spec fn completes<T: Trie>(node: &T, board: &Board, stem: Seq<Pos>, q: Seq<Pos>) -> bool {
    &&& stem.len() > 0
    &&& begins_with(q, stem)
    &&& is_walk(board, q)
    &&& node.has_word(spelled(board, q).skip(stem.len() - 1))
}

/// The cells of the grid that are not on `path`.
spec fn unused(board: &Board, path: Seq<Pos>) -> Set<Pos> {
    Set::new(|p: Pos| on_board(board, p) && !path.contains(p))
}

/// The cells in the rows above `r`, and those of row `r` left of column `c`,
/// on a grid that is `w` wide.
spec fn block(r: usize, c: usize, w: usize) -> Set<Pos> {
    Set::new(|p: Pos| (p.0 < r && p.1 < w) || (p.0 == r && p.1 < c))
}

/// A block has a number of cells.
proof fn lemma_block_finite(r: usize, c: usize, w: usize)
    requires
        c <= w,
    ensures
        block(r, c, w).finite(),
    decreases r, c,
{
    if c > 0 {
        let b = (c - 1) as usize;
        lemma_block_finite(r, b, w);
        assert(block(r, c, w) =~= block(r, b, w).insert((r, b)));
    } else if r > 0 {
        let a = (r - 1) as usize;
        lemma_block_finite(a, w, w);
        assert(block(r, c, w) =~= block(a, w, w));
    } else {
        assert(block(r, c, w) =~= Set::<Pos>::empty());
    }
}

/// A walk that goes on to a cell uses up one of the cells that were left.
proof fn lemma_unused_shrinks(board: &Board, path: Seq<Pos>, pos: Pos)
    requires
        on_board(board, pos),
        !path.contains(pos),
    ensures
        unused(board, path).finite(),
        unused(board, path.push(pos)).len() < unused(board, path).len(),
{
    let h = board.len();
    let w: usize = if board.len() > 0 {
        board@[0].len()
    } else {
        0
    };
    lemma_block_finite(h, 0, w);
    assert(unused(board, path).subset_of(block(h, 0, w)));
    vstd::set_lib::lemma_set_subset_finite(block(h, 0, w), unused(board, path));
    assert forall|p: Pos| #[trigger]
        unused(board, path.push(pos)).contains(p) == unused(board, path).remove(pos).contains(
            p,
        ) by {
        if p == pos {
            assert(path.push(pos)[path.len() as int] == pos);
        } else if path.push(pos).contains(p) {
            let i = choose|i: int| 0 <= i < path.push(pos).len() && path.push(pos)[i] == p;
            assert(path[i] == p);
        } else if path.contains(p) {
            let i = choose|i: int| 0 <= i < path.len() && path[i] == p;
            assert(path.push(pos)[i] == p);
        }
    }
    assert(unused(board, path.push(pos)) =~= unused(board, path).remove(pos));
    assert(unused(board, path).contains(pos));
}

/// A walk can go on to a cell with a letter that is next to its last cell
/// and not on it.
proof fn lemma_walk_push(board: &Board, path: Seq<Pos>, pos: Pos)
    requires
        is_walk(board, path),
        on_board(board, pos),
        is_letter(cell(board, pos)),
        !path.contains(pos),
        path.len() > 0 ==> adjacent(path.last(), pos),
    ensures
        is_walk(board, path.push(pos)),
{
    let next = path.push(pos);
    assert forall|i: int, j: int| 0 <= i < j < next.len() implies #[trigger] next[i]
        != #[trigger] next[j] by {
        if j == path.len() {
            assert(path[i] == next[i]);
        } else {
            assert(path[i] == next[i] && path[j] == next[j]);
        }
    }
    assert forall|i: int| 0 < i < next.len() implies adjacent(next[i - 1], #[trigger] next[i]) by {
        if i < path.len() {
            assert(adjacent(path[i - 1], path[i]));
        }
    }
    assert forall|i: int| 0 <= i < next.len() implies on_board(board, #[trigger] next[i])
        && is_letter(cell(board, next[i])) by {
        if i < path.len() {
            assert(path[i] == next[i]);
        }
    }
}

/// No word is completed through a cell that holds no letter.
proof fn lemma_blocked<T: Trie>(node: &T, board: &Board, stem: Seq<Pos>, q: Seq<Pos>)
    requires
        stem.len() > 0,
        !is_letter(cell(board, stem.last())),
    ensures
        !completes(node, board, stem, q),
{
    if completes(node, board, stem, q) {
        assert(q[stem.len() - 1] == stem[stem.len() - 1]);
    }
}

/// No word is completed through a letter that cannot be followed at `node`.
proof fn lemma_pruned<T: Trie>(node: &T, board: &Board, stem: Seq<Pos>, q: Seq<Pos>)
    requires
        node.wf(),
        stem.len() > 0,
        !node.has_path(seq![cell(board, stem.last())]),
    ensures
        !completes(node, board, stem, q),
{
    if completes(node, board, stem, q) {
        let n = stem.len() - 1;
        let w = spelled(board, q).skip(n);
        assert(q[n] == stem[n]);
        let one = seq![cell(board, stem.last())];
        assert(w =~= one + w.skip(1));
        node.lemma_word_path(w);
        node.lemma_path_prefix(one, w.skip(1));
    }
}

/// What is completed at `node` through one more cell is completed at the
/// node above it.
proof fn lemma_lift<T: Trie>(
    above: &T,
    node: &T,
    board: &Board,
    stem: Seq<Pos>,
    next: Pos,
    q: Seq<Pos>,
)
    requires
        stem.len() > 0,
        forall|s: Seq<char>| #[trigger]
            node.has_word(s) == above.has_word(seq![cell(board, stem.last())] + s),
        completes(node, board, stem.push(next), q),
    ensures
        completes(above, board, stem, q),
        q.len() > stem.len(),
{
    let n = stem.len() - 1;
    let w = spelled(board, q);
    assert forall|i: int| 0 <= i < stem.len() implies #[trigger] q[i] == stem[i] by {
        assert(q[i] == stem.push(next)[i]);
    }
    assert(q[n] == stem[n]);
    assert(seq![cell(board, stem.last())] + w.skip(n + 1) =~= w.skip(n));
    assert(node.has_word(w.skip(n + 1)));
}

/// What is completed at the node above through more cells than `stem` has
/// is completed at `node` through the cell that comes next.
proof fn lemma_lower<T: Trie>(above: &T, node: &T, board: &Board, stem: Seq<Pos>, q: Seq<Pos>)
    requires
        stem.len() > 0,
        forall|s: Seq<char>| #[trigger]
            node.has_word(s) == above.has_word(seq![cell(board, stem.last())] + s),
        completes(above, board, stem, q),
        q.len() > stem.len(),
    ensures
        completes(node, board, stem.push(q[stem.len() as int]), q),
        on_board(board, q[stem.len() as int]),
        adjacent(stem.last(), q[stem.len() as int]),
        !stem.contains(q[stem.len() as int]),
{
    let n = stem.len() - 1;
    let w = spelled(board, q);
    let next = q[n + 1];
    assert(q[n] == stem[n]);
    assert(adjacent(q[n], q[n + 1]));
    assert(seq![cell(board, stem.last())] + w.skip(n + 1) =~= w.skip(n));
    assert(node.has_word(w.skip(n + 1)));
    assert forall|i: int| 0 <= i < stem.len() + 1 implies #[trigger] q[i] == stem.push(next)[i] by {
        if i < stem.len() {
            assert(q[i] == stem[i]);
        }
    }
    if stem.contains(next) {
        let i = choose|i: int| 0 <= i < stem.len() && stem[i] == next;
        assert(q[i] == stem[i]);
        assert(q[i] != q[n + 1]);
    }
}

/// A walk with no more cells than `stem` completes a word exactly if it is
/// `stem` and `node`, one letter further down, ends a word.
proof fn lemma_stem_itself<T: Trie>(above: &T, node: &T, board: &Board, stem: Seq<Pos>, q: Seq<Pos>)
    requires
        stem.len() > 0,
        forall|s: Seq<char>| #[trigger]
            node.has_word(s) == above.has_word(seq![cell(board, stem.last())] + s),
        q.len() <= stem.len(),
    ensures
        completes(above, board, stem, q) <==> (q == stem && is_walk(board, stem) && node.has_word(
            Seq::<char>::empty(),
        )),
{
    let n = stem.len() - 1;
    let one = seq![cell(board, stem.last())];
    assert(node.has_word(Seq::<char>::empty()) == above.has_word(one + Seq::<char>::empty()));
    assert(one + Seq::<char>::empty() =~= one);
    if completes(above, board, stem, q) {
        assert(q =~= stem);
    }
    if q == stem {
        assert(spelled(board, q).skip(n) =~= one);
    }
}

/// Two walks that go on from `stem` to different neighbours part there, and
/// the one whose neighbour is tried first is found first.
proof fn lemma_parts_at_stem(
    board: &Board,
    stem: Seq<Pos>,
    a: Seq<Pos>,
    b: Seq<Pos>,
    first: Pos,
    second: Pos,
)
    requires
        stem.len() > 0,
        begins_with(a, stem.push(first)),
        begins_with(b, stem.push(second)),
        turn(stem.last(), first) < turn(stem.last(), second),
    ensures
        parts_first_at(a, b, stem.len() as int),
{
    let n = stem.len() as int;
    assert(a[n] == stem.push(first)[n]);
    assert(b[n] == stem.push(second)[n]);
    assert(a[n - 1] == stem.push(first)[n - 1]);
    assert forall|i: int| 0 <= i < n implies a[i] == b[i] by {
        assert(a[i] == stem.push(first)[i]);
        assert(b[i] == stem.push(second)[i]);
    }
}

/// Whether `pos` is one of the cells of `path`.
fn visited(path: &Vec<Pos>, pos: Pos) -> (r: bool)
    ensures
        r == path@.contains(pos),
{
    let mut i: usize = 0;
    while i < path.len()
        invariant
            i <= path.len(),
            forall|k: int| 0 <= k < i ==> path@[k] != pos,
        decreases path.len() - i,
    {
        if path[i].0 == pos.0 && path[i].1 == pos.1 {
            return true;
        }
        i += 1;
    }
    false
}

/// A copy of `path`.
fn copy_of(path: &Vec<Pos>) -> (r: Vec<Pos>)
    ensures
        r@ == path@,
{
    let mut r: Vec<Pos> = Vec::with_capacity(path.len());
    let mut i: usize = 0;
    while i < path.len()
        invariant
            i <= path.len(),
            r@ == path@.take(i as int),
        decreases path.len() - i,
    {
        r.push(path[i]);
        proof {
            assert(path@.take(i as int).push(path@[i as int]) =~= path@.take(i + 1));
        }
        i += 1;
    }
    proof {
        assert(path@.take(path.len() as int) =~= path@);
    }
    r
}

/// The longest walk that goes on from `path` to `pos` and from there
/// completes a word at `words`, the node that stands for the letters on
/// `path`. Of several longest walks it is the one found first; `None` if
/// there is no such walk. `path` is handed back as it came.
fn find_best_acc<T: Trie>(words: &T, board: &Board, pos: Pos, path: &mut Vec<Pos>) -> (r: Option<
    Vec<Pos>,
>)
    requires
        words.wf(),
        well_formed(board),
        on_board(board, pos),
        is_walk(board, old(path)@),
        !old(path)@.contains(pos),
        old(path)@.len() > 0 ==> adjacent(old(path)@.last(), pos),
    ensures
        final(path)@ == old(path)@,
        r matches Some(b) ==> completes(words, board, old(path)@.push(pos), b@),
        forall|q: Seq<Pos>| #[trigger]
            completes(words, board, old(path)@.push(pos), q) ==> r is Some && q.len()
                <= r->0@.len() && (q.len() == r->0@.len() ==> q == r->0@ || exists|k: int|
                parts_first_at(r->0@, q, k)),
    decreases unused(board, old(path)@).len(),
{
    let ghost stem = path@.push(pos);
    let ghost before = path@;
    let char_at = board[pos.0][pos.1];
    if !letter(char_at) {
        proof {
            assert forall|q: Seq<Pos>| !#[trigger] completes(words, board, stem, q) by {
                lemma_blocked(words, board, stem, q);
            }
        }
        return None;
    }
    match words.descend_one(char_at) {
        None => {
            proof {
                assert forall|q: Seq<Pos>| !#[trigger] completes(words, board, stem, q) by {
                    lemma_pruned(words, board, stem, q);
                }
            }
            None
        },
        Some(dict) => {
            path.push(pos);
            let around = neighbors(board, pos);
            let mut best: Option<Vec<Pos>> = None;
            let mut k: usize = 0;
            let ghost mut via: int = 0;
            proof {
                lemma_walk_push(board, before, pos);
                lemma_unused_shrinks(board, before, pos);
                lemma_neighbors_sound(board, pos, 8);
                lemma_neighbors_rising(board, pos, 8);
            }
            while k < around.len()
                invariant
                    k <= around.len(),
                    around@ == neighbor_seq(board, pos),
                    forall|i: int|
                        0 <= i < around@.len() ==> on_board(board, #[trigger] around@[i])
                            && adjacent(pos, around@[i]),
                    path@ == stem,
                    before == old(path)@,
                    stem == before.push(pos),
                    is_walk(board, stem),
                    well_formed(board),
                    dict.wf(),
                    unused(board, stem).len() < unused(board, before).len(),
                    forall|s: Seq<char>| #[trigger]
                        dict.has_word(s) == words.has_word(seq![cell(board, stem.last())] + s),
                    forall|i: int, j: int|
                        0 <= i < j < around@.len() ==> turn(pos, #[trigger] around@[i]) < turn(
                            pos,
                            #[trigger] around@[j],
                        ),
                    best matches Some(b) ==> completes(words, board, stem, b@) && b@.len()
                        > stem.len() && 0 <= via < k && b@[stem.len() as int] == around@[via],
                    forall|i: int, q: Seq<Pos>|
                        0 <= i < k && #[trigger] completes(dict, board, stem.push(around@[i]), q)
                            ==> best is Some && q.len() <= best->0@.len() && (q.len()
                            == best->0@.len() ==> q == best->0@ || exists|m: int|
                            parts_first_at(best->0@, q, m)),
                decreases around.len() - k,
            {
                let next = around[k];
                if !visited(path, next) {
                    let found = find_best_acc(dict, board, next, path);
                    match found {
                        Some(f) => {
                            proof {
                                lemma_lift(words, dict, board, stem, next, f@);
                                assert(f@[stem.len() as int] == stem.push(next)[stem.len() as int]);
                            }
                            let longer = match &best {
                                Some(b) => f.len() > b.len(),
                                None => true,
                            };
                            if longer {
                                best = Some(f);
                                proof {
                                    via = k as int;
                                }
                            } else {
                                proof {
                                    let b = best->0@;
                                    assert forall|q: Seq<Pos>| #[trigger]
                                        completes(dict, board, stem.push(next), q) && q.len()
                                            == b.len() implies parts_first_at(
                                        b,
                                        q,
                                        stem.len() as int,
                                    ) by {
                                        lemma_parts_at_stem(board, stem, b, q, around@[via], next);
                                    }
                                }
                            }
                        },
                        None => {},
                    }
                } else {
                    proof {
                        assert forall|q: Seq<Pos>| !#[trigger] completes(
                            dict,
                            board,
                            stem.push(next),
                            q,
                        ) by {
                            if completes(dict, board, stem.push(next), q) {
                                let i = choose|i: int| 0 <= i < stem.len() && stem[i] == next;
                                assert(q[i] == stem.push(next)[i]);
                                assert(q[stem.len() as int] == stem.push(next)[stem.len() as int]);
                            }
                        }
                    }
                }
                k += 1;
            }
            let result = match best {
                Some(b) => Some(b),
                None => {
                    if dict.is_word() {
                        Some(copy_of(path))
                    } else {
                        None
                    }
                },
            };
            path.pop();
            proof {
                assert(path@ =~= before);
                assert forall|q: Seq<Pos>| #[trigger]
                    completes(words, board, stem, q) implies result is Some && q.len()
                    <= result->0@.len() && (q.len() == result->0@.len() ==> q == result->0@
                    || exists|m: int| parts_first_at(result->0@, q, m)) by {
                    if q.len() > stem.len() {
                        lemma_lower(words, dict, board, stem, q);
                        let next = q[stem.len() as int];
                        lemma_neighbors_complete(board, pos, next);
                        let i = choose|i: int| 0 <= i < around@.len() && around@[i] == next;
                        assert(completes(dict, board, stem.push(around@[i]), q));
                    } else {
                        lemma_stem_itself(words, dict, board, stem, q);
                    }
                }
                if result is Some && best is None {
                    lemma_stem_itself(words, dict, board, stem, stem);
                }
            }
            result
        },
    }
}

/// `path` is what the search is to give: a walk, empty or spelling a word;
/// no walk that spells a word is longer; and of those that are as long, none
/// is found before it.
pub open spec fn is_answer<T: Trie>(words: &T, board: &Board, path: Seq<Pos>) -> bool {
    &&& is_walk(board, path)
    &&& path.len() > 0 ==> words.has_word(spelled(board, path))
    &&& forall|q: Seq<Pos>|
        q.len() > 0 && #[trigger] is_walk(board, q) && words.has_word(spelled(board, q))
            ==> q.len() <= path.len() && (q.len() == path.len() ==> q == path || found_before(
            path,
            q,
        ))
}

/// Of two walks, not both are found before the other.
pub proof fn lemma_found_before_one_way(a: Seq<Pos>, b: Seq<Pos>)
    requires
        found_before(a, b),
    ensures
        !found_before(b, a),
{
    if found_before(b, a) {
        if starts_earlier(a[0], b[0]) {
            if !starts_earlier(b[0], a[0]) {
                let k = choose|k: int| parts_first_at(b, a, k);
                assert(b[0] == a[0]);
            }
        } else {
            let k = choose|k: int| parts_first_at(a, b, k);
            assert(a[0] == b[0]);
            let m = choose|m: int| parts_first_at(b, a, m);
            if k < m {
                assert(b[k] == a[k]);
            } else if m < k {
                assert(a[m] == b[m]);
            } else {
                assert(a[k - 1] == b[k - 1]);
            }
        }
    }
}

/// There is one answer and no other: what `find_best` promises of the walk
/// it gives holds of that walk alone.
pub proof fn lemma_answer_is_unique<T: Trie>(words: &T, board: &Board, a: Seq<Pos>, b: Seq<Pos>)
    requires
        is_answer(words, board, a),
        is_answer(words, board, b),
    ensures
        a == b,
{
    if a.len() == 0 && b.len() == 0 {
        assert(a =~= b);
    } else if a != b {
        assert(a.len() == b.len());
        assert(found_before(a, b));
        assert(found_before(b, a));
        lemma_found_before_one_way(a, b);
    }
}

/// Where no walk spells a word, the answer is the empty walk.
pub proof fn lemma_nothing_to_find<T: Trie>(words: &T, board: &Board, path: Seq<Pos>)
    requires
        is_answer(words, board, path),
        forall|q: Seq<Pos>|
            q.len() > 0 && #[trigger] is_walk(board, q) ==> !words.has_word(spelled(board, q)),
    ensures
        path.len() == 0,
        spelled(board, path).len() == 0,
{
}

/// The characters in the cells of `path`, as a string.
fn spell(board: &Board, path: &Vec<Pos>) -> (word: String)
    requires
        forall|i: int| 0 <= i < path@.len() ==> on_board(board, #[trigger] path@[i]),
        well_formed(board),
    ensures
        word@ == spelled(board, path@),
{
    let mut word = String::new();
    let mut i: usize = 0;
    while i < path.len()
        invariant
            i <= path.len(),
            forall|i: int| 0 <= i < path@.len() ==> on_board(board, #[trigger] path@[i]),
            well_formed(board),
            word@ == spelled(board, path@.take(i as int)),
        decreases path.len() - i,
    {
        let pos = path[i];
        assert(on_board(board, path@[i as int]));
        push_char(&mut word, board[pos.0][pos.1]);
        proof {
            assert(spelled(board, path@.take(i as int)).push(cell(board, pos)) =~= spelled(
                board,
                path@.take(i + 1),
            ));
        }
        i += 1;
    }
    proof {
        assert(path@.take(path.len() as int) =~= path@);
    }
    word
}

/// The longest word of `words` that a walk over `board` spells, and the
/// walk. Where no walk spells a word, the word and the walk are empty.
/// Of several longest words the one is given that the search comes upon
/// first: it starts from the cells in the order of reading, and goes on
/// from a cell to its neighbours in the order of `neighbor_seq`.
pub fn find_best<T: Trie>(words: &T, board: &Board) -> (best: (String, Vec<Pos>))
    requires
        words.wf(),
        well_formed(board),
    ensures
        best.0@ == spelled(board, best.1@),
        is_answer(words, board, best.1@),
{
    let height = board.len();
    let width = board[0].len();
    let mut best: Vec<Pos> = Vec::new();
    let mut path: Vec<Pos> = Vec::new();
    let mut row: usize = 0;
    while row < height
        invariant
            row <= height,
            height == board.len(),
            width == board@[0].len(),
            words.wf(),
            well_formed(board),
            path@.len() == 0,
            best@.len() > 0 ==> completes(words, board, seq![best@[0]], best@) && best@[0].0
                < row,
            forall|p: Pos, q: Seq<Pos>|
                p.0 < row && #[trigger] completes(words, board, seq![p], q) ==> q.len()
                    <= best@.len() && (q.len() == best@.len() ==> q == best@ || found_before(
                    best@,
                    q,
                )),
        decreases height - row,
    {
        let mut col: usize = 0;
        while col < width
            invariant
                row < height,
                col <= width,
                height == board.len(),
                width == board@[0].len(),
                words.wf(),
                well_formed(board),
                path@.len() == 0,
                best@.len() > 0 ==> completes(words, board, seq![best@[0]], best@) && (best@[0].0
                    < row || (best@[0].0 == row && best@[0].1 < col)),
                forall|p: Pos, q: Seq<Pos>|
                    (p.0 < row || (p.0 == row && p.1 < col)) && #[trigger] completes(
                        words,
                        board,
                        seq![p],
                        q,
                    ) ==> q.len() <= best@.len() && (q.len() == best@.len() ==> q == best@
                        || found_before(best@, q)),
            decreases width - col,
        {
            let ghost start = seq![(row, col)];
            proof {
                assert(path@.push((row, col)) =~= start);
            }
            let word = find_best_acc(words, board, (row, col), &mut path);
            if let Some(w) = word {
                proof {
                    assert(w@[0] == start[0]);
                }
                if w.len() > best.len() {
                    best = w;
                } else {
                    proof {
                        assert forall|q: Seq<Pos>| #[trigger]
                            completes(words, board, start, q) implies starts_earlier(
                            best@[0],
                            q[0],
                        ) by {
                            assert(q[0] == start[0]);
                        }
                    }
                }
            }
            col += 1;
        }
        proof {
            assert forall|p: Pos, q: Seq<Pos>|
                p.0 <= row && #[trigger] completes(words, board, seq![p], q) implies q.len()
                <= best@.len() && (q.len() == best@.len() ==> q == best@ || found_before(
                best@,
                q,
            )) by {
                assert(q[0] == seq![p][0]);
                assert(on_board(board, q[0]));
            }
        }
        row += 1;
    }
    proof {
        assert forall|q: Seq<Pos>|
            q.len() > 0 && #[trigger] is_walk(board, q) && words.has_word(
                spelled(board, q),
            ) implies q.len() <= best@.len() && (q.len() == best@.len() ==> q == best@
            || found_before(best@, q)) by {
            assert(spelled(board, q).skip(0) =~= spelled(board, q));
            assert(on_board(board, q[0]));
            assert(completes(words, board, seq![q[0]], q));
        }
        if best@.len() > 0 {
            assert(spelled(board, best@).skip(0) =~= spelled(board, best@));
        }
    }
    let word = spell(board, &best);
    (word, best)
}

/// What is wrong with a grid that cannot be searched.
#[derive(Debug, Clone, Copy, PartialEq, Eq)]
pub enum BoardError {
    /// The grid has no row.
    NoRows,
    /// The first row has no cell.
    NoColumns,
    /// The row with this number is not as long as the first.
    UnevenRow(usize),
}

impl BoardError {
    /// The fault in words.
    pub fn describe(&self) -> (r: String)
        ensures
            r@ == match *self {
                BoardError::NoRows => "the board has no rows"@,
                BoardError::NoColumns => "the first row of the board is empty"@,
                BoardError::UnevenRow(_) => "a row of the board is not as long as the first"@,
            },
    {
        match self {
            BoardError::NoRows => "the board has no rows".to_owned(),
            BoardError::NoColumns => "the first row of the board is empty".to_owned(),
            BoardError::UnevenRow(_) => "a row of the board is not as long as the first".to_owned(),
        }
    }
}

/// `e` is the first fault of `board`: that it has no row; else that its
/// first row is empty; else the first row that is not as long as the first
/// of all.
pub open spec fn is_fault(board: &Board, e: BoardError) -> bool {
    match e {
        BoardError::NoRows => board.len() == 0,
        BoardError::NoColumns => board.len() > 0 && board@[0].len() == 0,
        BoardError::UnevenRow(k) => {
            &&& width(board) > 0
            &&& k < board.len()
            &&& board@[k as int].len() != width(board)
            &&& forall|j: int| 0 <= j < k ==> (#[trigger] board@[j]).len() == width(board)
        },
    }
}

/// Whether `board` can be searched, and if not, its first fault.
pub fn check_board(board: &Board) -> (r: Result<(), BoardError>)
    ensures
        r is Ok <==> well_formed(board),
        r matches Err(e) ==> is_fault(board, e),
{
    if board.len() == 0 {
        return Err(BoardError::NoRows);
    }
    let width = board[0].len();
    if width == 0 {
        return Err(BoardError::NoColumns);
    }
    let mut row: usize = 1;
    while row < board.len()
        invariant
            1 <= row <= board.len(),
            width == board@[0].len(),
            width > 0,
            forall|j: int| 0 <= j < row ==> (#[trigger] board@[j]).len() == width,
        decreases board.len() - row,
    {
        if board[row].len() != width {
            return Err(BoardError::UnevenRow(row));
        }
        row += 1;
    }
    Ok(())
}

/// As `find_best`, for any grid: one that cannot be searched is turned
/// down before the search begins.
pub fn find_longest_word<T: Trie>(trie: &T, board: &Board) -> (r: Result<
    (String, Vec<Pos>),
    BoardError,
>)
    requires
        trie.wf(),
    ensures
        r is Ok <==> well_formed(board),
        r matches Err(e) ==> is_fault(board, e),
        r matches Ok(best) ==> best.0@ == spelled(board, best.1@) && is_answer(
            trie,
            board,
            best.1@,
        ),
{
    match check_board(board) {
        Err(e) => Err(e),
        Ok(()) => Ok(find_best(trie, board)),
    }
}

} // verus!
