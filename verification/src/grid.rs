//! The grid of cells, and the collapse that resolves it cell by cell.

use crate::direction::Direction;
use crate::rules::{Rules, SymbolMap};
use crate::sampler::seeded;
use crate::symbols::{lemma_restrict_contains, lemma_restrict_within, restrict, within};
use crate::tile::{propagated, Contradiction, Tile};
use crate::wave::{
    collapsed, conflict_at, draws_fit, effort, has_conflict, lemma_most_constrained_unique,
    lemma_narrows_contains, lemma_neighbors_in_grid, lemma_relax_all_failed, lemma_run_settles,
    lemma_settles_transitive, lemma_total_size_refines, lemma_total_size_update,
    lemma_visit_effort, narrows, neighbors_of, points_right, relax, relax_all, run, settles,
    spread, total_size, visit, Wave,
};
use std::collections::VecDeque;
use vstd::pervasive::unreached;
use vstd::prelude::*;

verus! {

/// A rectangle of cells, kept row after row, with the index of the open cell
/// that has the fewest symbols left.
pub struct Grid {
    width: usize,
    height: usize,
    tiles: Vec<Tile>,
    min_opts_index: Option<usize>,
}

/// The domains that the tiles hold, in their order.
pub open spec fn domains(tiles: Seq<Tile>) -> Seq<Seq<char>> {
    Seq::new(tiles.len(), |i: int| tiles[i]@)
}

/// The domain with which the cell `i` of a new grid starts: every terrain
/// symbol, narrowed in turn by the mask of each border that the cell lies
/// on. A cell of the top row takes the top mask, one of the bottom row the
/// bottom mask, one of the leftmost column the left mask, one of the
/// rightmost column the right mask; a cell of a grid with a single row or a
/// single column lies on two facing borders and takes both masks.
pub open spec fn border_domain(width: usize, height: usize, i: int) -> Seq<char> {
    let row = i / (width as int);
    let col = i % (width as int);
    let all = SymbolMap::ALLPIECES@;
    let below_top = if row == 0 {
        restrict(all, SymbolMap::TOP_EDGE@)
    } else {
        all
    };
    let above_bottom = if row == height - 1 {
        restrict(below_top, SymbolMap::BOTTOM_EDGE@)
    } else {
        below_top
    };
    let right_of_left = if col == 0 {
        restrict(above_bottom, SymbolMap::LEFT_EDGE@)
    } else {
        above_bottom
    };
    if col == width - 1 {
        restrict(right_of_left, SymbolMap::RIGHT_EDGE@)
    } else {
        right_of_left
    }
}

/// A new cell holds exactly the terrain symbols that the mask of every
/// border it lies on allows. The blank is among them, so no cell starts
/// empty; and it holds each of them once.
pub proof fn lemma_border_domain(width: usize, height: usize, i: int)
    ensures
        forall|x: char|
            #[trigger] border_domain(width, height, i).contains(x) <==> {
                &&& SymbolMap::ALLPIECES@.contains(x)
                &&& i / (width as int) == 0 ==> SymbolMap::TOP_EDGE@.contains(x)
                &&& i / (width as int) == height - 1 ==> SymbolMap::BOTTOM_EDGE@.contains(x)
                &&& i % (width as int) == 0 ==> SymbolMap::LEFT_EDGE@.contains(x)
                &&& i % (width as int) == width - 1 ==> SymbolMap::RIGHT_EDGE@.contains(x)
            },
        border_domain(width, height, i).contains(' '),
        border_domain(width, height, i).len() > 0,
        within(border_domain(width, height, i), SymbolMap::ALLPIECES@),
{
    reveal_strlit(" /\\_#");
    reveal_strlit(" _");
    reveal_strlit(" \\_#");
    reveal_strlit(" /\\#");
    reveal_strlit(" /_#");
    let all = SymbolMap::ALLPIECES@;
    let top = SymbolMap::TOP_EDGE@;
    let right = SymbolMap::RIGHT_EDGE@;
    let bottom = SymbolMap::BOTTOM_EDGE@;
    let left = SymbolMap::LEFT_EDGE@;
    assert(all[0] == ' ' && top[0] == ' ' && right[0] == ' ' && bottom[0] == ' ' && left[0] == ' ');
    assert(all.no_duplicates());
    let row = i / (width as int);
    let col = i % (width as int);
    let below_top = if row == 0 {
        restrict(all, top)
    } else {
        all
    };
    let above_bottom = if row == height - 1 {
        restrict(below_top, bottom)
    } else {
        below_top
    };
    let right_of_left = if col == 0 {
        restrict(above_bottom, left)
    } else {
        above_bottom
    };
    let cell = border_domain(width, height, i);
    lemma_restrict_within(all, top);
    lemma_restrict_within(below_top, bottom);
    lemma_restrict_within(above_bottom, left);
    lemma_restrict_within(right_of_left, right);
    assert forall|x: char|
        #[trigger] cell.contains(x) <==> {
            &&& all.contains(x)
            &&& row == 0 ==> top.contains(x)
            &&& row == height - 1 ==> bottom.contains(x)
            &&& col == 0 ==> left.contains(x)
            &&& col == width - 1 ==> right.contains(x)
        } by {
        lemma_restrict_contains(all, top, x);
        lemma_restrict_contains(below_top, bottom, x);
        lemma_restrict_contains(above_bottom, left, x);
        lemma_restrict_contains(right_of_left, right, x);
    }
    assert(cell.contains(' '));
    assert forall|k: int| 0 <= k < cell.len() implies all.contains(#[trigger] cell[k]) by {
        assert(cell.contains(cell[k]));
    }
}

/// Whatever is left of a new cell keeps to the masks of the borders that the
/// cell lies on: so does the symbol it holds once the grid is solved.
pub proof fn lemma_left_of_border_domain(
    width: usize,
    height: usize,
    i: int,
    after: Seq<char>,
    x: char,
)
    requires
        narrows(after, border_domain(width, height, i)),
        after.contains(x),
    ensures
        SymbolMap::ALLPIECES@.contains(x),
        i / (width as int) == 0 ==> SymbolMap::TOP_EDGE@.contains(x),
        i / (width as int) == height - 1 ==> SymbolMap::BOTTOM_EDGE@.contains(x),
        i % (width as int) == 0 ==> SymbolMap::LEFT_EDGE@.contains(x),
        i % (width as int) == width - 1 ==> SymbolMap::RIGHT_EDGE@.contains(x),
{
    lemma_narrows_contains(after, border_domain(width, height, i), x);
    lemma_border_domain(width, height, i);
}

impl View for Grid {
    type V = Seq<Seq<char>>;

    /// The domains of the cells, row after row.
    closed spec fn view(&self) -> Seq<Seq<char>> {
        domains(self.tiles@)
    }
}

/// Narrows `tile` to the symbols of `edge`, of which it holds at least one.
fn narrow(tile: &mut Tile, edge: &str)
    requires
        restrict(old(tile)@, edge@).len() > 0,
    ensures
        final(tile)@ == restrict(old(tile)@, edge@),
{
    match tile.prune(edge) {
        Ok(()) => {},
        Err(_) => unreached(),
    }
}

impl Grid {
    /// The number of columns.
    pub closed spec fn spec_width(&self) -> usize {
        self.width
    }

    /// The number of rows.
    pub closed spec fn spec_height(&self) -> usize {
        self.height
    }

    /// The index that the grid keeps of its most constrained open cell.
    pub closed spec fn spec_most_constrained(&self) -> Option<usize> {
        self.min_opts_index
    }

    /// The grid has cells, as many as its sides say and no more than the
    /// machine can count, and none is empty.
    pub open spec fn shaped(&self) -> bool {
        &&& self.spec_width() > 0
        &&& self.spec_height() > 0
        &&& self@.len() == self.spec_width() * self.spec_height()
        &&& self@.len() <= usize::MAX
        &&& forall|i: int| 0 <= i < self@.len() ==> (#[trigger] self@[i]).len() > 0
    }

    /// The grid is shaped, and the index it keeps is that of its most
    /// constrained open cell.
    pub open spec fn wf(&self) -> bool {
        &&& self.shaped()
        &&& points_right(self@, self.spec_most_constrained())
    }

    /// The rules can make a weighted choice from every cell.
    pub open spec fn weighed_by(&self, rules: Rules) -> bool {
        forall|i: int| 0 <= i < self@.len() ==> rules.weighs(#[trigger] self@[i])
    }

    /// A grid of `width` columns and `height` rows in which every cell holds
    /// the terrain symbols that all its borders allow.
    pub fn new(width: usize, height: usize) -> (grid: Grid)
        requires
            width > 0,
            height > 0,
            width * height <= usize::MAX,
        ensures
            grid.wf(),
            grid.spec_width() == width,
            grid.spec_height() == height,
            grid@.len() == width * height,
            forall|i: int|
                0 <= i < grid@.len() ==> #[trigger] grid@[i] == border_domain(width, height, i),
            forall|rules: Rules|
                rules.weighs(SymbolMap::ALLPIECES@) ==> #[trigger] grid.weighed_by(rules),
    {
        let mut tiles: Vec<Tile> = Vec::with_capacity(width * height);
        proof {
            assert(0 * width == 0) by (nonlinear_arith);
        }
        for l in 0..height
            invariant
                width > 0,
                height > 0,
                width * height <= usize::MAX,
                tiles.len() == l * width,
                forall|k: int|
                    0 <= k < tiles.len() ==> (#[trigger] tiles[k])@ == border_domain(
                        width,
                        height,
                        k,
                    ),
        {
            for c in 0..width
                invariant
                    width > 0,
                    height > 0,
                    l < height,
                    width * height <= usize::MAX,
                    tiles.len() == l * width + c,
                    forall|k: int|
                        0 <= k < tiles.len() ==> (#[trigger] tiles[k])@ == border_domain(
                            width,
                            height,
                            k,
                        ),
            {
                let ghost k = l * width + c;
                proof {
                    vstd::arithmetic::div_mod::lemma_fundamental_div_mod_converse(
                        k,
                        width as int,
                        l as int,
                        c as int,
                    );
                    lemma_border_domain(width, height, k);
                    reveal_strlit(" /\\_#");
                    reveal_strlit(" _");
                    reveal_strlit(" \\_#");
                    reveal_strlit(" /\\#");
                    reveal_strlit(" /_#");
                }
                let mut tile = Tile::default();
                if l == 0 {
                    narrow(&mut tile, SymbolMap::TOP_EDGE);
                }
                if l == height - 1 {
                    narrow(&mut tile, SymbolMap::BOTTOM_EDGE);
                }
                if c == 0 {
                    narrow(&mut tile, SymbolMap::LEFT_EDGE);
                }
                if c == width - 1 {
                    narrow(&mut tile, SymbolMap::RIGHT_EDGE);
                }
                tiles.push(tile);
            }
            proof {
                assert(l * width + width == (l + 1) * width) by (nonlinear_arith);
            }
        }
        let mut grid = Grid { width, height, tiles, min_opts_index: None };
        proof {
            assert(height * width == width * height) by (nonlinear_arith);
            assert forall|i: int| 0 <= i < grid@.len() implies (#[trigger] grid@[i]).len()
                > 0 by {
                lemma_border_domain(width, height, i);
            }
        }
        match grid.find_min() {
            Ok(pointer) => {
                grid.min_opts_index = pointer;
            },
            Err(_) => unreached(),
        }
        proof {
            assert forall|rules: Rules| rules.weighs(SymbolMap::ALLPIECES@) implies
                #[trigger] grid.weighed_by(rules) by {
                assert forall|i: int| 0 <= i < grid@.len() implies rules.weighs(
                    #[trigger] grid@[i],
                ) by {
                    lemma_border_domain(width, height, i);
                    rules.lemma_weighs_within(grid@[i], SymbolMap::ALLPIECES@);
                }
            }
        }
        grid
    }

    /// The grid of `width` columns and `height` rows that holds `tiles`, row
    /// after row. An empty tile is a contradiction from the start.
    pub fn from_tiles(width: usize, height: usize, tiles: Vec<Tile>) -> (made: Result<
        Grid,
        Contradiction,
    >)
        requires
            width > 0,
            height > 0,
            tiles.len() == width * height,
        ensures
            made is Err <==> exists|i: int|
                0 <= i < tiles.len() && (#[trigger] tiles[i])@.len() == 0,
            made matches Ok(grid) ==> {
                &&& grid.wf()
                &&& grid.spec_width() == width
                &&& grid.spec_height() == height
                &&& grid@ == domains(tiles@)
            },
    {
        let mut grid = Grid { width, height, tiles, min_opts_index: None };
        proof {
            assert(grid@ =~= domains(tiles@));
            assert forall|i: int| 0 <= i < tiles.len() implies (#[trigger] tiles[i])@
                == grid@[i] by {}
        }
        match grid.find_min() {
            Ok(pointer) => {
                grid.min_opts_index = pointer;
                Ok(grid)
            },
            Err(e) => {
                proof {
                    let i = choose|i: int| 0 <= i < grid@.len() && (#[trigger] grid@[i]).len() == 0;
                    assert(tiles[i]@.len() == 0);
                }
                Err(e)
            },
        }
    }

    /// The number of columns.
    #[verifier::when_used_as_spec(spec_width)]
    pub fn width(&self) -> (width: usize)
        ensures
            width == self.spec_width(),
    {
        self.width
    }

    /// The number of rows.
    #[verifier::when_used_as_spec(spec_height)]
    pub fn height(&self) -> (height: usize)
        ensures
            height == self.spec_height(),
    {
        self.height
    }

    /// The index that the grid keeps of its most constrained open cell;
    /// `None` once every cell is solved.
    #[verifier::when_used_as_spec(spec_most_constrained)]
    pub fn most_constrained(&self) -> (pointer: Option<usize>)
        ensures
            pointer == self.spec_most_constrained(),
    {
        self.min_opts_index
    }

    /// The cell `index`, if the grid has it.
    pub fn tile(&self, index: usize) -> (tile: Option<&Tile>)
        ensures
            tile is Some <==> index < self@.len(),
            tile matches Some(t) ==> t@ == self@[index as int],
    {
        if index < self.tiles.len() {
            Some(&self.tiles[index])
        } else {
            None
        }
    }

    /// Finds the open cell with the fewest symbols left, the first of them
    /// where several have as few. An empty cell is a contradiction.
    pub fn find_min(&self) -> (found: Result<Option<usize>, Contradiction>)
        ensures
            found is Err <==> exists|i: int|
                0 <= i < self@.len() && (#[trigger] self@[i]).len() == 0,
            found matches Ok(pointer) ==> points_right(self@, pointer),
    {
        let mut best: Option<usize> = None;
        for i in 0..self.tiles.len()
            invariant
                self@.len() == self.tiles.len(),
                forall|j: int| 0 <= j < i ==> (#[trigger] self@[j]).len() > 0,
                points_right(self@.take(i as int), best),
        {
            let l = self.tiles[i].len();
            if l > 1 {
                match best {
                    Some(val) => {
                        if l < self.tiles[val].len() {
                            best = Some(i);
                        }
                    },
                    None => {
                        best = Some(i);
                    },
                }
            } else if l == 0 {
                proof {
                    assert(self@[i as int].len() == 0);
                }
                return Err(Contradiction);
            }
            proof {
                let before = self@.take(i as int);
                let after = self@.take(i + 1);
                assert forall|j: int| 0 <= j < before.len() implies before[j] == after[j] by {}
                assert(after[i as int] == self@[i as int]);
            }
        }
        proof {
            assert(self@.take(self@.len() as int) =~= self@);
        }
        Ok(best)
    }

    /// The neighbours of the cell `i`: the index of each and the direction in
    /// which it lies, for the cell above, to the right, below and to the
    /// left, as far as the grid has them.
    pub fn neighbors(&self, i: usize) -> (around: Vec<(usize, Direction)>)
        requires
            self.shaped(),
            i < self@.len(),
        ensures
            around@ == neighbors_of(self.spec_width(), self.spec_height(), i),
            forall|k: int|
                0 <= k < around@.len() ==> (#[trigger] around@[k]).0 < self@.len() && around@[k].0
                    != i,
    {
        let mut ret: Vec<(usize, Direction)> = Vec::new();
        proof {
            let w = self.width as int;
            let h = self.height as int;
            assert((h - 1) * w + w == w * h) by (nonlinear_arith);
            assert((h - 1) * w >= 0) by (nonlinear_arith)
                requires
                    h >= 1,
                    w >= 1,
            ;
            assert(self@.len() == w * h);
            assert(self@.len() == self.tiles.len());
            if i == 0 {
                assert(0int % w == 0);
            }
        }
        if i >= self.width {
            ret.push((i - self.width, Direction::Top));
        }
        if i % self.width != self.width - 1 {
            ret.push((i + 1, Direction::Right));
        }
        if i < (self.height - 1) * self.width {
            ret.push((i + self.width, Direction::Bottom));
        }
        if i % self.width != 0 {
            ret.push((i - 1, Direction::Left));
        }
        proof {
            assert(ret@ =~= neighbors_of(self.width, self.height, i));
            lemma_neighbors_in_grid(self.width, self.height, i);
        }
        ret
    }

    /// Whether the table can make a weighted choice from every cell.
    pub fn check_weights(&self, symmap: &SymbolMap) -> (ok: bool)
        ensures
            ok == self.weighed_by(symmap@),
    {
        for i in 0..self.tiles.len()
            invariant
                self@.len() == self.tiles.len(),
                forall|j: int| 0 <= j < i ==> symmap@.weighs(#[trigger] self@[j]),
        {
            if !symmap.check_weights(self.tiles[i].value.as_str()) {
                proof {
                    assert(!symmap@.weighs(self@[i as int]));
                }
                return false;
            }
        }
        true
    }

    /// Lets the change of the cell `start` spread: a wave runs from it, cell
    /// to neighbour, until nothing changes any more or a contradiction stops
    /// it. The index of the most constrained cell is left as it was.
    fn propagate(&mut self, start: usize, symmap: &SymbolMap) -> (outcome: Result<
        (),
        Contradiction,
    >)
        requires
            old(self).shaped(),
            start < old(self)@.len(),
        ensures
            final(self).shaped(),
            final(self).spec_width() == old(self).spec_width(),
            final(self).spec_height() == old(self).spec_height(),
            final(self).spec_most_constrained() == old(self).spec_most_constrained(),
            final(self)@ == spread(
                symmap@,
                old(self).spec_width(),
                old(self).spec_height(),
                old(self)@,
                start,
            ).cells,
            outcome is Err <==> spread(
                symmap@,
                old(self).spec_width(),
                old(self).spec_height(),
                old(self)@,
                start,
            ).failed,
            outcome is Err ==> has_conflict(
                symmap@,
                old(self).spec_width(),
                old(self).spec_height(),
                final(self)@,
            ),
            settles(final(self)@, old(self)@),
    {
        let ghost begin = Wave {
            cells: self@,
            queue: seq![start],
            visited: Set::empty(),
            failed: false,
        };
        let ghost mut wave = begin;
        let mut q: VecDeque<usize> = VecDeque::new();
        let mut visited: Vec<bool> = vec![false; self.tiles.len()];
        q.push_back(start);
        while q.len() > 0
            invariant
                self.shaped(),
                self.width == old(self).width,
                self.height == old(self).height,
                self.min_opts_index == old(self).min_opts_index,
                self@.len() == self.tiles.len(),
                wave.cells == self@,
                wave.queue == q@,
                !wave.failed,
                visited@.len() == self@.len(),
                forall|i: int|
                    0 <= i < visited@.len() ==> #[trigger] visited@[i] == wave.visited.contains(
                        i as usize,
                    ),
                forall|k: int| 0 <= k < q@.len() ==> #[trigger] q@[k] < self@.len(),
                run(symmap@, self.width, self.height, wave) == run(
                    symmap@,
                    self.width,
                    self.height,
                    begin,
                ),
                begin == (Wave {
                    cells: old(self)@,
                    queue: seq![start],
                    visited: Set::empty(),
                    failed: false,
                }),
            decreases effort(wave),
        {
            let ghost arrived = wave;
            let current = q.pop_front().unwrap();
            visited[current] = true;
            let source = Tile::new(self.tiles[current].value.clone());
            let all_n = self.neighbors(current);
            proof {
                wave = Wave {
                    queue: wave.queue.drop_first(),
                    visited: wave.visited.insert(current),
                    ..wave
                };
                assert(q@ =~= wave.queue);
            }
            let ghost popped = wave;
            for k in 0..all_n.len()
                invariant
                    self.shaped(),
                    self.width == old(self).width,
                    self.height == old(self).height,
                    self.min_opts_index == old(self).min_opts_index,
                    self@.len() == self.tiles.len(),
                    wave.cells == self@,
                    wave.queue == q@,
                    !wave.failed,
                    visited@.len() == self@.len(),
                    forall|i: int|
                        0 <= i < visited@.len() ==> #[trigger] visited@[i]
                            == wave.visited.contains(i as usize),
                    forall|j: int| 0 <= j < q@.len() ==> #[trigger] q@[j] < self@.len(),
                    current < self@.len(),
                    source@ == self@[current as int],
                    all_n@ == neighbors_of(self.width, self.height, current),
                    forall|j: int|
                        0 <= j < all_n@.len() ==> (#[trigger] all_n@[j]).0 < self@.len()
                            && all_n@[j].0 != current,
                    wave == relax_all(symmap@, popped, source@, all_n@.take(k as int)),
                    popped.cells.len() == self@.len(),
                    popped.cells[current as int] == source@,
                    arrived.queue.len() > 0,
                    arrived.queue.first() == current,
                    popped == (Wave {
                        queue: arrived.queue.drop_first(),
                        visited: arrived.visited.insert(current),
                        ..arrived
                    }),
                    run(symmap@, self.width, self.height, arrived) == run(
                        symmap@,
                        self.width,
                        self.height,
                        begin,
                    ),
                    !arrived.failed,
                    begin == (Wave {
                        cells: old(self)@,
                        queue: seq![start],
                        visited: Set::empty(),
                        failed: false,
                    }),
            {
                let n_idx = all_n[k].0;
                let dir = all_n[k].1;
                let ghost reached = wave;
                let ghost cells = self@;
                proof {
                    assert(all_n@.take(k + 1).drop_last() =~= all_n@.take(k as int));
                    assert(all_n@.take(k + 1).last() == all_n@[k as int]);
                    wave = relax(symmap@, reached, source@, n_idx, dir);
                }
                if !(self.tiles[n_idx].is_set() || visited[n_idx]) {
                    match self.tiles[n_idx].prune_with_other_in_dir(&source, &dir, symmap) {
                        Ok(changed) => {
                            if changed {
                                q.push_back(n_idx);
                            }
                            proof {
                                let left = propagated(symmap@, cells[n_idx as int], source@, dir);
                                assert(self@ =~= cells.update(n_idx as int, left));
                            }
                        },
                        Err(e) => {
                            proof {
                                assert(self@ =~= cells);
                                assert(wave.failed);
                                lemma_relax_all_failed(
                                    symmap@,
                                    popped,
                                    source@,
                                    all_n@,
                                    k + 1,
                                );
                                assert(wave == visit(symmap@, self.width, self.height, arrived));
                                assert(run(symmap@, self.width, self.height, arrived) == run(
                                    symmap@,
                                    self.width,
                                    self.height,
                                    wave,
                                ));
                                assert(run(symmap@, self.width, self.height, wave) == wave);
                                lemma_run_settles(symmap@, self.width, self.height, begin);
                                assert(conflict_at(
                                    symmap@,
                                    self.width,
                                    self.height,
                                    self@,
                                    current,
                                    k as int,
                                ));
                            }
                            return Err(e);
                        },
                    }
                }
            }
            proof {
                assert(all_n@.take(all_n@.len() as int) =~= all_n@);
                assert(wave == visit(symmap@, self.width, self.height, arrived));
                lemma_visit_effort(symmap@, self.width, self.height, arrived);
            }
        }
        proof {
            lemma_run_settles(symmap@, self.width, self.height, begin);
        }
        Ok(())
    }

    /// Lets the change of the cell `start` spread through the grid, then
    /// finds the most constrained open cell anew.
    ///
    /// The wave keeps a queue and the set of cells it has visited. It takes
    /// the first cell off the queue, marks it visited and reaches each of its
    /// neighbours in turn; a neighbour that is solved or visited is passed
    /// over, any other is narrowed to what the cell allows beside it and
    /// joins the queue if it lost a symbol. A neighbour that would lose its
    /// last symbol stops the wave: the contradiction is reported and that
    /// neighbour is left as it was.
    pub fn prune(&mut self, start: usize, symmap: &SymbolMap) -> (outcome: Result<
        (),
        Contradiction,
    >)
        requires
            old(self).shaped(),
            start < old(self)@.len(),
        ensures
            final(self).wf(),
            final(self).spec_width() == old(self).spec_width(),
            final(self).spec_height() == old(self).spec_height(),
            final(self)@ == spread(
                symmap@,
                old(self).spec_width(),
                old(self).spec_height(),
                old(self)@,
                start,
            ).cells,
            outcome is Err <==> spread(
                symmap@,
                old(self).spec_width(),
                old(self).spec_height(),
                old(self)@,
                start,
            ).failed,
            outcome is Err ==> has_conflict(
                symmap@,
                old(self).spec_width(),
                old(self).spec_height(),
                final(self)@,
            ),
            settles(final(self)@, old(self)@),
    {
        let outcome = self.propagate(start, symmap);
        match self.find_min() {
            Ok(pointer) => {
                self.min_opts_index = pointer;
            },
            Err(_) => unreached(),
        }
        outcome
    }

    /// Resolves the grid. A generator is seeded with `seed`; then, as long as
    /// a cell is open, the most constrained open cell is given one of its
    /// symbols by a weighted draw, and the change spreads. Each step takes
    /// one draw from the generator, for the symbol; which cell is next takes
    /// none. The first contradiction ends the run: nothing is taken back.
    pub fn collapse(&mut self, seed: u64, symmap: &SymbolMap) -> (outcome: Result<
        (),
        Contradiction,
    >)
        requires
            old(self).wf(),
            old(self).weighed_by(symmap@),
        ensures
            final(self).wf(),
            final(self).weighed_by(symmap@),
            final(self).spec_width() == old(self).spec_width(),
            final(self).spec_height() == old(self).spec_height(),
            settles(final(self)@, old(self)@),
            outcome is Ok <==> forall|i: int|
                0 <= i < final(self)@.len() ==> (#[trigger] final(self)@[i]).len() == 1,
            outcome is Err ==> has_conflict(
                symmap@,
                old(self).spec_width(),
                old(self).spec_height(),
                final(self)@,
            ),
            exists|draws: Seq<nat>|
                {
                    &&& draws_fit(
                        symmap@,
                        old(self).spec_width(),
                        old(self).spec_height(),
                        old(self)@,
                        draws,
                    )
                    &&& #[trigger] collapsed(
                        symmap@,
                        old(self).spec_width(),
                        old(self).spec_height(),
                        old(self)@,
                        draws,
                    ) == (final(self)@, outcome is Err)
                },
    {
        let mut rng = seeded(seed);
        let ghost mut draws: Seq<nat> = Seq::empty();
        while self.min_opts_index.is_some()
            invariant
                self.wf(),
                self.weighed_by(symmap@),
                self.width == old(self).width,
                self.height == old(self).height,
                self@.len() == self.tiles.len(),
                settles(self@, old(self)@),
                draws_fit(symmap@, self.width, self.height, old(self)@, draws),
                collapsed(symmap@, self.width, self.height, old(self)@, draws) == (self@, false),
            decreases total_size(self@),
        {
            let curri = self.min_opts_index.unwrap();
            let ghost before = self@;
            let picked = symmap.rng_pick(self.tiles[curri].value.as_str(), &mut rng);
            proof {
                let s = picked->Ok_0;
                let i = choose|i: nat|
                    i < symmap@.total_weight(before[curri as int]) && s@ == seq![
                        #[trigger] symmap@.pick(before[curri as int], i),
                    ];
                lemma_most_constrained_unique(before, curri as int, curri as int);
                assert(draws.push(i).drop_last() =~= draws);
                draws = draws.push(i);
            }
            match picked {
                Ok(symbol) => {
                    self.tiles[curri].value = symbol;
                },
                Err(_) => unreached(),
            }
            let ghost chosen = self@;
            proof {
                assert(chosen =~= before.update(curri as int, chosen[curri as int]));
                lemma_total_size_update(before, curri as int, chosen[curri as int]);
                assert(within(chosen[curri as int], before[curri as int]));
                assert(settles(chosen, before));
            }
            let spread_out = self.prune(curri, symmap);
            proof {
                lemma_total_size_refines(self@, chosen);
                lemma_settles_transitive(self@, chosen, before);
                lemma_settles_transitive(self@, before, old(self)@);
                assert forall|i: int| 0 <= i < self@.len() implies symmap@.weighs(
                    #[trigger] self@[i],
                ) by {
                    assert(narrows(self@[i], before[i]));
                    assert(symmap@.weighs(before[i]));
                    if self@[i] != before[i] {
                        symmap@.lemma_weighs_within(self@[i], before[i]);
                    }
                }
            }
            match spread_out {
                Ok(()) => {},
                Err(e) => {
                    proof {
                        let (c, k) = choose|c: usize, k: int|
                            conflict_at(symmap@, self.width, self.height, self@, c, k);
                        let around = neighbors_of(self.width, self.height, c);
                        assert(self@[around[k].0 as int].len() > 1);
                        assert(collapsed(
                            symmap@,
                            old(self).spec_width(),
                            old(self).spec_height(),
                            old(self)@,
                            draws,
                        ) == (self@, true));
                    }
                    return Err(e);
                },
            }
        }
        Ok(())
    }
}

} // verus!
