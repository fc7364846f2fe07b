//! The mathematical model of a grid of domains and of the wave in which a
//! change of one cell spreads to the cells around it.

use crate::direction::Direction;
use crate::rules::Rules;
use crate::symbols::{lemma_within_len, within};
use crate::tile::{lemma_propagated_intersects, propagated};
use vstd::prelude::*;

verus! {

/// `after` is `before` or what can be left of it: only symbols of `before`,
/// each once.
pub open spec fn narrows(after: Seq<char>, before: Seq<char>) -> bool {
    after == before || within(after, before)
}

/// Cell by cell, `after` holds what is left of `before`.
pub open spec fn refines(after: Seq<Seq<char>>, before: Seq<Seq<char>>) -> bool {
    &&& after.len() == before.len()
    &&& forall|i: int| 0 <= i < after.len() ==> narrows(#[trigger] after[i], before[i])
}

/// How many symbols are possible in all cells together.
pub open spec fn total_size(cells: Seq<Seq<char>>) -> nat
    decreases cells.len(),
{
    if cells.len() == 0 {
        0
    } else {
        total_size(cells.drop_last()) + cells.last().len()
    }
}

/// The cell `i` is open, no open cell has fewer symbols left, and none with
/// as few comes before it.
pub open spec fn is_most_constrained(cells: Seq<Seq<char>>, i: int) -> bool {
    &&& 0 <= i < cells.len()
    &&& cells[i].len() > 1
    &&& forall|j: int|
        0 <= j < cells.len() && (#[trigger] cells[j]).len() > 1 ==> cells[i].len() < cells[j].len()
            || (cells[i].len() == cells[j].len() && i <= j)
}

/// `pointer` names the most constrained open cell, or rightly says that no
/// cell is open.
pub open spec fn points_right(cells: Seq<Seq<char>>, pointer: Option<usize>) -> bool {
    match pointer {
        Some(i) => is_most_constrained(cells, i as int),
        None => forall|j: int| 0 <= j < cells.len() ==> (#[trigger] cells[j]).len() <= 1,
    }
}

/// The neighbours of the cell `i` in a grid of `width` columns and `height`
/// rows, kept row after row: index and direction of the cell above, to the
/// right, below and to the left, as far as the grid has them.
pub open spec fn neighbors_of(width: usize, height: usize, i: usize) -> Seq<(usize, Direction)> {
    let top: Seq<(usize, Direction)> = if i >= width {
        seq![((i - width) as usize, Direction::Top)]
    } else {
        seq![]
    };
    let right: Seq<(usize, Direction)> = if i % width != width - 1 {
        seq![((i + 1) as usize, Direction::Right)]
    } else {
        seq![]
    };
    let bottom: Seq<(usize, Direction)> = if i < (height - 1) * width {
        seq![((i + width) as usize, Direction::Bottom)]
    } else {
        seq![]
    };
    let left: Seq<(usize, Direction)> = if i % width != 0 {
        seq![((i - 1) as usize, Direction::Left)]
    } else {
        seq![]
    };
    top + right + bottom + left
}

/// A wave of propagation under way: the cells as they are, the cells that
/// wait to pass their change on, the cells that have done so in this wave,
/// and whether a contradiction has stopped it.
pub struct Wave {
    pub cells: Seq<Seq<char>>,
    pub queue: Seq<usize>,
    pub visited: Set<usize>,
    pub failed: bool,
}

/// The wave reaches the cell `n`, which lies in direction `d` from a cell
/// that holds `source`. A solved cell, one that this wave has visited and one
/// outside the grid stay as they are. Any other keeps what `source` allows
/// there: if that is nothing, the wave fails and the cell stays as it is;
/// if the cell lost symbols, it joins the queue.
pub open spec fn relax(
    rules: Rules,
    wave: Wave,
    source: Seq<char>,
    n: usize,
    d: Direction,
) -> Wave {
    if wave.failed || n >= wave.cells.len() || wave.cells[n as int].len() == 1
        || wave.visited.contains(n) {
        wave
    } else {
        let left = propagated(rules, wave.cells[n as int], source, d);
        if left.len() == 0 {
            Wave { failed: true, ..wave }
        } else if left.len() != wave.cells[n as int].len() {
            Wave { cells: wave.cells.update(n as int, left), queue: wave.queue.push(n), ..wave }
        } else {
            Wave { cells: wave.cells.update(n as int, left), ..wave }
        }
    }
}

/// The wave reaches the cells `around`, one after the other.
pub open spec fn relax_all(
    rules: Rules,
    wave: Wave,
    source: Seq<char>,
    around: Seq<(usize, Direction)>,
) -> Wave
    decreases around.len(),
{
    if around.len() == 0 {
        wave
    } else {
        relax(
            rules,
            relax_all(rules, wave, source, around.drop_last()),
            source,
            around.last().0,
            around.last().1,
        )
    }
}

/// The first cell of the queue leaves it, counts as visited, and passes its
/// domain on to its neighbours.
pub open spec fn visit(rules: Rules, width: usize, height: usize, wave: Wave) -> Wave {
    let c = wave.queue.first();
    let popped = Wave {
        queue: wave.queue.drop_first(),
        visited: wave.visited.insert(c),
        ..wave
    };
    relax_all(rules, popped, wave.cells[c as int], neighbors_of(width, height, c))
}

/// What bounds the length of a wave: every visit takes a cell off the queue,
/// and a cell joins the queue only by losing a symbol.
pub open spec fn effort(wave: Wave) -> nat {
    2 * total_size(wave.cells) + wave.queue.len()
}

/// The wave runs until its queue is empty or a contradiction stops it.
pub open spec fn run(rules: Rules, width: usize, height: usize, wave: Wave) -> Wave
    decreases effort(wave),
    via run_decreases
{
    if wave.failed || wave.queue.len() == 0 {
        wave
    } else {
        run(rules, width, height, visit(rules, width, height, wave))
    }
}

#[via_fn]
proof fn run_decreases(rules: Rules, width: usize, height: usize, wave: Wave) {
    if !wave.failed && wave.queue.len() > 0 {
        lemma_visit_effort(rules, width, height, wave);
    }
}

/// The wave that starts at the cell `start` of `cells`, run to its end.
pub open spec fn spread(
    rules: Rules,
    width: usize,
    height: usize,
    cells: Seq<Seq<char>>,
    start: usize,
) -> Wave {
    run(
        rules,
        width,
        height,
        Wave { cells, queue: seq![start], visited: Set::empty(), failed: false },
    )
}

/// Putting `domain` in place of the cell `i` changes the total size by the
/// difference of the two lengths.
pub proof fn lemma_total_size_update(cells: Seq<Seq<char>>, i: int, domain: Seq<char>)
    requires
        0 <= i < cells.len(),
    ensures
        total_size(cells.update(i, domain)) + cells[i].len() == total_size(cells) + domain.len(),
    decreases cells.len(),
{
    if i == cells.len() - 1 {
        assert(cells.update(i, domain).drop_last() =~= cells.drop_last());
    } else {
        lemma_total_size_update(cells.drop_last(), i, domain);
        assert(cells.update(i, domain).drop_last() =~= cells.drop_last().update(i, domain));
    }
}

/// Cells that only lose symbols do not gain in total size.
pub proof fn lemma_total_size_refines(after: Seq<Seq<char>>, before: Seq<Seq<char>>)
    requires
        refines(after, before),
    ensures
        total_size(after) <= total_size(before),
    decreases after.len(),
{
    if after.len() > 0 {
        let last = after.len() - 1;
        assert(narrows(after[last], before[last]));
        if after[last] != before[last] {
            lemma_within_len(after[last], before[last]);
        }
        assert forall|i: int| 0 <= i < after.drop_last().len() implies narrows(
            #[trigger] after.drop_last()[i],
            before.drop_last()[i],
        ) by {
            assert(narrows(after[i], before[i]));
        }
        lemma_total_size_refines(after.drop_last(), before.drop_last());
    }
}

/// What is left of a domain holds only symbols of that domain.
pub proof fn lemma_narrows_contains(after: Seq<char>, before: Seq<char>, x: char)
    requires
        narrows(after, before),
        after.contains(x),
    ensures
        before.contains(x),
{
    if after != before {
        let k = choose|k: int| 0 <= k < after.len() && after[k] == x;
        assert(before.contains(after[k]));
    }
}

/// What is left of what is left of a domain is left of that domain.
pub proof fn lemma_narrows_transitive(a: Seq<char>, b: Seq<char>, c: Seq<char>)
    requires
        narrows(a, b),
        narrows(b, c),
    ensures
        narrows(a, c),
{
    if a != b && b != c {
        assert forall|i: int| 0 <= i < a.len() implies c.contains(#[trigger] a[i]) by {
            assert(b.contains(a[i]));
            let j = choose|j: int| 0 <= j < b.len() && b[j] == a[i];
            assert(c.contains(b[j]));
        }
    }
}

/// Cell by cell, `after` holds what a wave can leave of `before`: every cell
/// keeps only symbols it had, each once, or stays as it is; a cell that held
/// a symbol still holds one; and a solved cell stays as it is.
pub open spec fn settles(after: Seq<Seq<char>>, before: Seq<Seq<char>>) -> bool {
    &&& refines(after, before)
    &&& forall|i: int|
        0 <= i < before.len() && (#[trigger] before[i]).len() > 0 ==> after[i].len() > 0
    &&& forall|i: int|
        0 <= i < before.len() && (#[trigger] before[i]).len() == 1 ==> after[i] == before[i]
}

/// What settles what settles a grid settles that grid.
pub proof fn lemma_settles_transitive(
    a: Seq<Seq<char>>,
    b: Seq<Seq<char>>,
    c: Seq<Seq<char>>,
)
    requires
        settles(a, b),
        settles(b, c),
    ensures
        settles(a, c),
{
    assert forall|i: int| 0 <= i < a.len() implies narrows(#[trigger] a[i], c[i]) by {
        assert(narrows(a[i], b[i]));
        assert(narrows(b[i], c[i]));
        lemma_narrows_transitive(a[i], b[i], c[i]);
    }
    assert forall|i: int| 0 <= i < c.len() && (#[trigger] c[i]).len() > 0 implies a[i].len()
        > 0 by {
        assert(b[i].len() > 0);
    }
    assert forall|i: int| 0 <= i < c.len() && (#[trigger] c[i]).len() == 1 implies a[i]
        == c[i] by {
        assert(b[i] == c[i]);
    }
}

/// Reaching one cell settles the grid, and pays for a place in the queue
/// with a symbol.
pub proof fn lemma_relax(rules: Rules, wave: Wave, source: Seq<char>, n: usize, d: Direction)
    ensures
        settles(relax(rules, wave, source, n, d).cells, wave.cells),
        effort(relax(rules, wave, source, n, d)) <= effort(wave),
{
    let next = relax(rules, wave, source, n, d);
    if next != wave {
        let left = propagated(rules, wave.cells[n as int], source, d);
        lemma_propagated_intersects(rules, wave.cells[n as int], source, d);
        if left.len() > 0 {
            lemma_total_size_update(wave.cells, n as int, left);
        }
    }
}

/// Reaching several cells does what reaching each of them does.
pub proof fn lemma_relax_all(
    rules: Rules,
    wave: Wave,
    source: Seq<char>,
    around: Seq<(usize, Direction)>,
)
    ensures
        settles(relax_all(rules, wave, source, around).cells, wave.cells),
        effort(relax_all(rules, wave, source, around)) <= effort(wave),
    decreases around.len(),
{
    if around.len() > 0 {
        let before = relax_all(rules, wave, source, around.drop_last());
        let after = relax_all(rules, wave, source, around);
        lemma_relax_all(rules, wave, source, around.drop_last());
        lemma_relax(rules, before, source, around.last().0, around.last().1);
        lemma_settles_transitive(after.cells, before.cells, wave.cells);
    }
}

/// A visit settles the grid and brings the wave nearer to its end.
pub proof fn lemma_visit_effort(rules: Rules, width: usize, height: usize, wave: Wave)
    requires
        wave.queue.len() > 0,
    ensures
        settles(visit(rules, width, height, wave).cells, wave.cells),
        effort(visit(rules, width, height, wave)) < effort(wave),
{
    let c = wave.queue.first();
    let popped = Wave {
        queue: wave.queue.drop_first(),
        visited: wave.visited.insert(c),
        ..wave
    };
    lemma_relax_all(rules, popped, wave.cells[c as int], neighbors_of(width, height, c));
}

/// Domains only shrink in a wave: whatever it reaches, the wave leaves each
/// cell with symbols it had, empties none, and changes no solved cell.
pub proof fn lemma_run_settles(rules: Rules, width: usize, height: usize, wave: Wave)
    ensures
        settles(run(rules, width, height, wave).cells, wave.cells),
    decreases effort(wave),
{
    if !wave.failed && wave.queue.len() > 0 {
        let next = visit(rules, width, height, wave);
        lemma_visit_effort(rules, width, height, wave);
        lemma_run_settles(rules, width, height, next);
        lemma_settles_transitive(run(rules, width, height, next).cells, next.cells, wave.cells);
    }
}

/// The cells themselves show a contradiction: the `k`-th neighbour of the
/// cell `c` is open, and the domain of `c` allows none of its symbols.
pub open spec fn conflict_at(
    rules: Rules,
    width: usize,
    height: usize,
    cells: Seq<Seq<char>>,
    c: usize,
    k: int,
) -> bool {
    let around = neighbors_of(width, height, c);
    &&& c < cells.len()
    &&& 0 <= k < around.len()
    &&& around[k].0 < cells.len()
    &&& cells[around[k].0 as int].len() > 1
    &&& propagated(rules, cells[around[k].0 as int], cells[c as int], around[k].1).len() == 0
}

/// Some cell and some open neighbour of it contradict each other.
pub open spec fn has_conflict(
    rules: Rules,
    width: usize,
    height: usize,
    cells: Seq<Seq<char>>,
) -> bool {
    exists|c: usize, k: int| conflict_at(rules, width, height, cells, c, k)
}

/// A wave that has failed stays as it is, whatever cells it would still
/// reach.
pub proof fn lemma_relax_all_failed(
    rules: Rules,
    wave: Wave,
    source: Seq<char>,
    around: Seq<(usize, Direction)>,
    k: int,
)
    requires
        0 <= k <= around.len(),
        relax_all(rules, wave, source, around.take(k)).failed,
    ensures
        relax_all(rules, wave, source, around) == relax_all(rules, wave, source, around.take(k)),
    decreases around.len() - k,
{
    if k < around.len() {
        assert(around.take(k + 1).drop_last() =~= around.take(k));
        lemma_relax_all_failed(rules, wave, source, around, k + 1);
    } else {
        assert(around.take(k) =~= around);
    }
}

/// Every neighbour of a cell of the grid is another cell of the grid.
pub proof fn lemma_neighbors_in_grid(width: usize, height: usize, i: usize)
    requires
        width > 0,
        height > 0,
        i < width * height <= usize::MAX,
    ensures
        forall|k: int|
            0 <= k < neighbors_of(width, height, i).len() ==> (#[trigger] neighbors_of(
                width,
                height,
                i,
            )[k]).0 < width * height && neighbors_of(width, height, i)[k].0 != i,
{
    let w = width as int;
    let h = height as int;
    assert((h - 1) * w + w == w * h) by (nonlinear_arith);
    if i == 0 {
        assert(0int % w == 0);
    }
    if i + 1 == w * h {
        vstd::arithmetic::div_mod::lemma_fundamental_div_mod_converse(i as int, w, h - 1, w - 1);
    }
    let top: Seq<(usize, Direction)> = if i >= width {
        seq![((i - width) as usize, Direction::Top)]
    } else {
        seq![]
    };
    let right: Seq<(usize, Direction)> = if i % width != width - 1 {
        seq![((i + 1) as usize, Direction::Right)]
    } else {
        seq![]
    };
    let bottom: Seq<(usize, Direction)> = if i < (height - 1) * width {
        seq![((i + width) as usize, Direction::Bottom)]
    } else {
        seq![]
    };
    let left: Seq<(usize, Direction)> = if i % width != 0 {
        seq![((i - 1) as usize, Direction::Left)]
    } else {
        seq![]
    };
    let around = neighbors_of(width, height, i);
    assert(around == top + right + bottom + left);
    assert forall|k: int| 0 <= k < around.len() implies (#[trigger] around[k]).0 < width * height
        && around[k].0 != i by {
        if k < top.len() {
            assert(around[k] == top[k]);
        } else if k < top.len() + right.len() {
            assert(around[k] == right[k - top.len()]);
        } else if k < top.len() + right.len() + bottom.len() {
            assert(around[k] == bottom[k - top.len() - right.len()]);
        } else {
            assert(around[k] == left[k - top.len() - right.len() - bottom.len()]);
        }
    }
}

/// The index of the most constrained open cell of `cells`, if one is open.
pub open spec fn target_of(cells: Seq<Seq<char>>) -> int {
    choose|t: int| is_most_constrained(cells, t)
}

/// Only one cell can be the most constrained.
pub proof fn lemma_most_constrained_unique(cells: Seq<Seq<char>>, a: int, b: int)
    requires
        is_most_constrained(cells, a),
        is_most_constrained(cells, b),
    ensures
        a == b,
        target_of(cells) == a,
{
    assert(cells[a].len() > 1 && cells[b].len() > 1);
    let t = target_of(cells);
    assert(cells[t].len() > 1);
}

/// One step of a collapse: the most constrained open cell is left with the
/// symbol that the draw `draw` picks from it, and the change spreads.
pub open spec fn step(
    rules: Rules,
    width: usize,
    height: usize,
    cells: Seq<Seq<char>>,
    draw: nat,
) -> Wave {
    let target = target_of(cells);
    spread(
        rules,
        width,
        height,
        cells.update(target, seq![rules.pick(cells[target], draw)]),
        target as usize,
    )
}

/// The cells after the steps that `draws` decide, one draw a step, and
/// whether the last of them met a contradiction.
pub open spec fn collapsed(
    rules: Rules,
    width: usize,
    height: usize,
    cells: Seq<Seq<char>>,
    draws: Seq<nat>,
) -> (Seq<Seq<char>>, bool)
    decreases draws.len(),
{
    if draws.len() == 0 {
        (cells, false)
    } else {
        let end = step(
            rules,
            width,
            height,
            collapsed(rules, width, height, cells, draws.drop_last()).0,
            draws.last(),
        );
        (end.cells, end.failed)
    }
}

/// `draws` can decide a run from `cells`: when each draw is made no
/// contradiction has been met, a cell is open, and the draw lies below the
/// total weight of the most constrained one.
pub open spec fn draws_fit(
    rules: Rules,
    width: usize,
    height: usize,
    cells: Seq<Seq<char>>,
    draws: Seq<nat>,
) -> bool
    decreases draws.len(),
{
    draws.len() == 0 || {
        let before = collapsed(rules, width, height, cells, draws.drop_last());
        &&& draws_fit(rules, width, height, cells, draws.drop_last())
        &&& !before.1
        &&& is_most_constrained(before.0, target_of(before.0))
        &&& draws.last() < rules.total_weight(before.0[target_of(before.0)])
    }
}

/// Propagation between two cells side by side. A wave from the left cell
/// leaves it untouched and reaches the right cell once: a solved right cell
/// stays as it is; an open one keeps exactly the symbols that the left
/// cell's domain allows to its right, or, if there is none, stays as it is
/// while the wave fails.
pub proof fn lemma_spread_two_cells(rules: Rules, left: Seq<char>, right: Seq<char>)
    ensures
        ({
            let end = spread(rules, 2, 1, seq![left, right], 0);
            let narrowed = propagated(rules, right, left, Direction::Right);
            if right.len() == 1 {
                end.cells == seq![left, right] && !end.failed
            } else if narrowed.len() == 0 {
                end.cells == seq![left, right] && end.failed
            } else {
                end.cells == seq![left, narrowed] && !end.failed
            }
        }),
{
    let cells = seq![left, right];
    let narrowed = propagated(rules, right, left, Direction::Right);
    let begin = Wave { cells, queue: seq![0usize], visited: Set::empty(), failed: false };
    let around0 = neighbors_of(2, 1, 0);
    assert(around0 =~= seq![(1usize, Direction::Right)]);
    let popped = Wave {
        queue: begin.queue.drop_first(),
        visited: begin.visited.insert(0usize),
        ..begin
    };
    assert(popped.queue =~= Seq::<usize>::empty());
    assert(around0.drop_last() =~= Seq::<(usize, Direction)>::empty());
    assert(relax_all(rules, popped, left, around0.drop_last()) == popped);
    let first = visit(rules, 2, 1, begin);
    assert(first == relax(rules, popped, left, 1usize, Direction::Right));
    assert(run(rules, 2, 1, begin) == run(rules, 2, 1, first));
    if right.len() == 1 || narrowed.len() == 0 {
        assert(run(rules, 2, 1, first) == first);
    } else if narrowed.len() == right.len() {
        assert(first.queue.len() == 0);
        assert(first.cells =~= seq![left, narrowed]);
        assert(run(rules, 2, 1, first) == first);
    } else {
        assert(first.cells =~= seq![left, narrowed]);
        assert(first.queue =~= seq![1usize]);
        let around1 = neighbors_of(2, 1, 1);
        assert(around1 =~= seq![(0usize, Direction::Left)]);
        let popped1 = Wave {
            queue: first.queue.drop_first(),
            visited: first.visited.insert(1usize),
            ..first
        };
        assert(popped1.queue =~= Seq::<usize>::empty());
        assert(around1.drop_last() =~= Seq::<(usize, Direction)>::empty());
        assert(relax_all(rules, popped1, narrowed, around1.drop_last()) == popped1);
        assert(popped1.visited.contains(0usize));
        let second = visit(rules, 2, 1, first);
        assert(second == relax(rules, popped1, narrowed, 0usize, Direction::Left));
        assert(second == popped1);
        assert(run(rules, 2, 1, first) == run(rules, 2, 1, second));
        assert(run(rules, 2, 1, second) == second);
    }
}

/// Neighbours are mutual: a cell lies beside each of its neighbours, in the
/// direction opposite to the one in which the neighbour lies.
pub proof fn lemma_neighbors_mutual(width: usize, height: usize, i: usize, k: int)
    requires
        width > 0,
        height > 0,
        i < width * height <= usize::MAX,
        0 <= k < neighbors_of(width, height, i).len(),
    ensures
        neighbors_of(width, height, neighbors_of(width, height, i)[k].0).contains(
            (i, neighbors_of(width, height, i)[k].1.spec_opposite()),
        ),
{
    let w = width as int;
    let h = height as int;
    let n = neighbors_of(width, height, i)[k].0;
    let d = neighbors_of(width, height, i)[k].1;
    lemma_neighbors_in_grid(width, height, i);
    assert((h - 1) * w + w == w * h) by (nonlinear_arith);
    let q = (i as int) / w;
    let r = (i as int) % w;
    vstd::arithmetic::div_mod::lemma_fundamental_div_mod(i as int, w);
    assert(w * q == q * w) by (nonlinear_arith);
    let top_i: Seq<(usize, Direction)> = if i >= width {
        seq![((i - width) as usize, Direction::Top)]
    } else {
        seq![]
    };
    let right_i: Seq<(usize, Direction)> = if i % width != width - 1 {
        seq![((i + 1) as usize, Direction::Right)]
    } else {
        seq![]
    };
    let bottom_i: Seq<(usize, Direction)> = if i < (height - 1) * width {
        seq![((i + width) as usize, Direction::Bottom)]
    } else {
        seq![]
    };
    let left_i: Seq<(usize, Direction)> = if i % width != 0 {
        seq![((i - 1) as usize, Direction::Left)]
    } else {
        seq![]
    };
    let around_i = neighbors_of(width, height, i);
    assert(around_i == top_i + right_i + bottom_i + left_i);
    if k < top_i.len() {
        assert(around_i[k] == top_i[k]);
    } else if k < top_i.len() + right_i.len() {
        assert(around_i[k] == right_i[k - top_i.len()]);
        vstd::arithmetic::div_mod::lemma_fundamental_div_mod_converse(i + 1, w, q, r + 1);
    } else if k < top_i.len() + right_i.len() + bottom_i.len() {
        assert(around_i[k] == bottom_i[k - top_i.len() - right_i.len()]);
    } else {
        assert(around_i[k] == left_i[k - top_i.len() - right_i.len() - bottom_i.len()]);
        vstd::arithmetic::div_mod::lemma_fundamental_div_mod_converse(i - 1, w, q, r - 1);
    }
    let top: Seq<(usize, Direction)> = if n >= width {
        seq![((n - width) as usize, Direction::Top)]
    } else {
        seq![]
    };
    let right: Seq<(usize, Direction)> = if n % width != width - 1 {
        seq![((n + 1) as usize, Direction::Right)]
    } else {
        seq![]
    };
    let bottom: Seq<(usize, Direction)> = if n < (height - 1) * width {
        seq![((n + width) as usize, Direction::Bottom)]
    } else {
        seq![]
    };
    let left: Seq<(usize, Direction)> = if n % width != 0 {
        seq![((n - 1) as usize, Direction::Left)]
    } else {
        seq![]
    };
    let back = (i, d.spec_opposite());
    assert(neighbors_of(width, height, n) == top + right + bottom + left);
    match d {
        Direction::Top => {
            assert(bottom[0] == back);
        },
        Direction::Right => {
            assert(left[0] == back);
        },
        Direction::Bottom => {
            assert(top[0] == back);
        },
        Direction::Left => {
            assert(right[0] == back);
        },
    }
    vstd::seq_lib::lemma_seq_concat_contains_all_elements(top, right, back);
    vstd::seq_lib::lemma_seq_concat_contains_all_elements(top + right, bottom, back);
    vstd::seq_lib::lemma_seq_concat_contains_all_elements(top + right + bottom, left, back);
}

} // verus!
