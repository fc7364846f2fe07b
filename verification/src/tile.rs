//! The domain of one cell: the symbols that are still possible there.

use crate::direction::Direction;
use crate::rules::{Rules, SymbolMap};
use crate::symbols::{
    contains_char, first_occurrences, lemma_first_occurrences,
    lemma_first_occurrences_keeps_unique, lemma_restrict_contains, lemma_restrict_within,
    restrict, within,
};
use itertools::Itertools;
use vstd::prelude::*;
use vstd::string::StringExecFns;

verus! {

/// A domain would have lost its last symbol: the constraints contradict each
/// other. The domain in question is left as it was.
#[derive(Copy, Clone, Debug, PartialEq, Eq)]
pub struct Contradiction;

/// What a cell shows to the outside: its symbol once it is solved, else how
/// many symbols are still possible.
#[derive(Copy, Clone, Debug, PartialEq, Eq)]
pub enum CellState {
    Solved(char),
    Open(usize),
}

/// The symbols still possible for one cell, in a fixed order.
#[derive(Debug, Clone, Hash)]
pub struct Tile {
    pub value: String,
}

impl View for Tile {
    type V = Seq<char>;

    open spec fn view(&self) -> Seq<char> {
        self.value@
    }
}

/// What a cell shows of the domain `domain`.
pub open spec fn shown(domain: Seq<char>) -> CellState {
    if domain.len() == 1 {
        CellState::Solved(domain[0])
    } else {
        CellState::Open(domain.len() as usize)
    }
}

/// For each symbol of `other` in turn, the symbols of `domain` that the rules
/// allow on its side `dir`, one run after the other.
pub open spec fn gathered(
    rules: Rules,
    domain: Seq<char>,
    other: Seq<char>,
    dir: Direction,
) -> Seq<char>
    decreases other.len(),
{
    if other.len() == 0 {
        Seq::empty()
    } else {
        gathered(rules, domain, other.drop_last(), dir) + restrict(
            domain,
            rules.compatible_neighbors(other.last(), dir),
        )
    }
}

/// What is left of `domain` beside a cell that holds `other` on the way
/// `dir` from that cell: the symbols of `domain` that some symbol of `other`
/// allows there, each once, in the order in which the symbols of `other`
/// first allow them.
pub open spec fn propagated(
    rules: Rules,
    domain: Seq<char>,
    other: Seq<char>,
    dir: Direction,
) -> Seq<char> {
    first_occurrences(gathered(rules, domain, other, dir))
}

/// `gathered` holds exactly the symbols of `domain` that some symbol of
/// `other` allows.
pub proof fn lemma_gathered_contains(
    rules: Rules,
    domain: Seq<char>,
    other: Seq<char>,
    dir: Direction,
    x: char,
)
    ensures
        gathered(rules, domain, other, dir).contains(x) <==> domain.contains(x) && exists|i: int|
            0 <= i < other.len() && #[trigger] rules.compatible_neighbors(other[i], dir).contains(
                x,
            ),
    decreases other.len(),
{
    if other.len() > 0 {
        let front = other.drop_last();
        let run = restrict(domain, rules.compatible_neighbors(other.last(), dir));
        let before = gathered(rules, domain, front, dir);
        lemma_gathered_contains(rules, domain, front, dir, x);
        lemma_restrict_contains(domain, rules.compatible_neighbors(other.last(), dir), x);
        vstd::seq_lib::lemma_seq_concat_contains_all_elements(before, run, x);
        if gathered(rules, domain, other, dir).contains(x) {
            if before.contains(x) {
                let i = choose|i: int|
                    0 <= i < front.len() && #[trigger] rules.compatible_neighbors(
                        front[i],
                        dir,
                    ).contains(x);
                assert(rules.compatible_neighbors(other[i], dir).contains(x));
            } else {
                assert(rules.compatible_neighbors(other[other.len() - 1], dir).contains(x));
            }
        }
        if domain.contains(x) && exists|i: int|
            0 <= i < other.len() && #[trigger] rules.compatible_neighbors(other[i], dir).contains(
                x,
            ) {
            let i = choose|i: int|
                0 <= i < other.len() && #[trigger] rules.compatible_neighbors(
                    other[i],
                    dir,
                ).contains(x);
            if i < other.len() - 1 {
                assert(rules.compatible_neighbors(front[i], dir).contains(x));
            }
        }
    }
}

/// Propagation intersects: what is left of `domain` holds exactly the symbols
/// of `domain` that some symbol of `other` allows, each once. So it is never
/// longer than `domain`.
pub proof fn lemma_propagated_intersects(
    rules: Rules,
    domain: Seq<char>,
    other: Seq<char>,
    dir: Direction,
)
    ensures
        forall|x: char|
            propagated(rules, domain, other, dir).contains(x) <==> domain.contains(x) && exists|
                i: int,
            |
                0 <= i < other.len() && #[trigger] rules.compatible_neighbors(
                    other[i],
                    dir,
                ).contains(x),
        within(propagated(rules, domain, other, dir), domain),
        propagated(rules, domain, other, dir).len() <= domain.len(),
{
    let all = gathered(rules, domain, other, dir);
    let left = propagated(rules, domain, other, dir);
    lemma_first_occurrences(all);
    assert forall|x: char|
        left.contains(x) <==> domain.contains(x) && exists|i: int|
            0 <= i < other.len() && #[trigger] rules.compatible_neighbors(other[i], dir).contains(
                x,
            ) by {
        lemma_gathered_contains(rules, domain, other, dir, x);
    }
    assert forall|i: int| 0 <= i < left.len() implies domain.contains(#[trigger] left[i]) by {
        assert(left.contains(left[i]));
    }
    crate::symbols::lemma_within_len(left, domain);
}

/// Beside a solved cell, a domain without repetitions keeps exactly its
/// symbols that the solved cell's symbol allows there, in its own order.
pub proof fn lemma_propagated_from_solved(
    rules: Rules,
    domain: Seq<char>,
    symbol: char,
    dir: Direction,
)
    requires
        domain.no_duplicates(),
    ensures
        propagated(rules, domain, seq![symbol], dir) == restrict(
            domain,
            rules.compatible_neighbors(symbol, dir),
        ),
{
    let other = seq![symbol];
    let kept = restrict(domain, rules.compatible_neighbors(symbol, dir));
    assert(other.drop_last() =~= Seq::<char>::empty());
    assert(gathered(rules, domain, other.drop_last(), dir) =~= Seq::<char>::empty());
    assert(gathered(rules, domain, other, dir) =~= kept);
    lemma_restrict_within(domain, rules.compatible_neighbors(symbol, dir));
    lemma_first_occurrences_keeps_unique(kept);
}

/// Two masks that share no symbol of `domain` cannot both be survived: the
/// first prune, or else the second, finds nothing left.
pub proof fn lemma_disjoint_masks_contradict(domain: Seq<char>, first: Seq<char>, second: Seq<char>)
    requires
        forall|x: char| !(domain.contains(x) && first.contains(x) && second.contains(x)),
    ensures
        restrict(domain, first).len() == 0 || restrict(restrict(domain, first), second).len() == 0,
{
    let once = restrict(domain, first);
    let twice = restrict(once, second);
    if twice.len() > 0 {
        let x = twice[0];
        assert(twice.contains(x));
        lemma_restrict_contains(once, second, x);
        lemma_restrict_contains(domain, first, x);
    }
}

/// Calls `Itertools::unique` on the characters of `s` and collects what it
/// yields. The contract states what that adaptor documents: it drops every
/// element that was produced before and keeps the others in their order.
#[verifier::external_body]
fn unique_chars(s: &str) -> (kept: String)
    ensures
        kept@ == first_occurrences(s@),
{
    s.chars().unique().collect()
}

impl Default for Tile {
    /// The domain that nothing constrains yet: every terrain symbol.
    fn default() -> (tile: Tile)
        ensures
            tile@ == SymbolMap::ALLPIECES@,
    {
        Tile { value: SymbolMap::ALLPIECES.to_owned() }
    }
}

impl Tile {
    /// The domain that holds the symbols of `value`.
    pub fn new(value: String) -> (tile: Tile)
        ensures
            tile@ == value@,
    {
        Tile { value }
    }

    /// How many symbols are still possible.
    pub fn len(&self) -> (n: usize)
        ensures
            n == self@.len(),
    {
        self.value.as_str().unicode_len()
    }

    /// Keeps only the symbols that occur in `options`. Where none would be
    /// left, the domain stays as it is and the contradiction is reported.
    pub fn prune(&mut self, options: &str) -> (outcome: Result<(), Contradiction>)
        ensures
            outcome is Err <==> restrict(old(self)@, options@).len() == 0,
            outcome is Ok ==> final(self)@ == restrict(old(self)@, options@),
            outcome is Err ==> final(self)@ == old(self)@,
    {
        let combo = self.pruned_opts(options);
        if combo.as_str().unicode_len() == 0 {
            return Err(Contradiction);
        }
        self.value = combo;
        Ok(())
    }

    /// The symbols of this domain that occur in `options`.
    pub fn pruned_opts(&self, options: &str) -> (combo: String)
        ensures
            combo@ == restrict(self@, options@),
    {
        let mut combo = String::new();
        for c in it: self.value.as_str().chars()
            invariant
                it.seq() == self@,
                combo@ == restrict(self@.take(it.index() as int), options@),
        {
            proof {
                let i = it.index() as int;
                assert(self@.take(i + 1) =~= self@.take(i).push(c));
                self@.take(i).lemma_filter_push(c, |x: char| options@.contains(x));
            }
            if contains_char(options, c) {
                combo.push(c);
            }
        }
        proof {
            assert(self@.take(self@.len() as int) =~= self@);
        }
        combo
    }

    /// Narrows this domain to what the cell `other` allows beside it, `dir`
    /// being the way from `other` to this cell. Tells whether the number of
    /// symbols changed. Where none would be left, the domain stays as it is
    /// and the contradiction is reported.
    pub fn prune_with_other_in_dir(
        &mut self,
        other: &Self,
        dir: &Direction,
        symmap: &SymbolMap,
    ) -> (outcome: Result<bool, Contradiction>)
        ensures
            outcome is Err <==> propagated(symmap@, old(self)@, other@, *dir).len() == 0,
            outcome matches Ok(changed) ==> {
                &&& final(self)@ == propagated(symmap@, old(self)@, other@, *dir)
                &&& changed == (final(self)@.len() != old(self)@.len())
            },
            outcome is Err ==> final(self)@ == old(self)@,
    {
        let mut combo = String::new();
        for c in it: other.value.as_str().chars()
            invariant
                it.seq() == other@,
                self@ == old(self)@,
                combo@ == gathered(symmap@, self@, other@.take(it.index() as int), *dir),
        {
            proof {
                let i = it.index() as int;
                assert(other@.take(i + 1).drop_last() =~= other@.take(i));
            }
            if let Some(opts) = symmap.get(c, dir) {
                let kept = self.pruned_opts(opts);
                combo.append(kept.as_str());
            } else {
                proof {
                    let none = symmap@.compatible_neighbors(c, *dir);
                    assert(restrict(self@, none).len() == 0) by {
                        if restrict(self@, none).len() > 0 {
                            let x = restrict(self@, none)[0];
                            assert(restrict(self@, none).contains(x));
                            lemma_restrict_contains(self@, none, x);
                        }
                    }
                    assert(combo@ + restrict(self@, none) =~= combo@);
                }
            }
        }
        proof {
            assert(other@.take(other@.len() as int) =~= other@);
        }
        let combo = unique_chars(combo.as_str());
        let left = combo.as_str().unicode_len();
        if left == 0 {
            return Err(Contradiction);
        }
        let changed = self.len() != left;
        self.value = combo;
        Ok(changed)
    }

    /// Whether exactly one symbol is left.
    pub fn is_set(&self) -> (set: bool)
        ensures
            set == (self@.len() == 1),
    {
        self.len() == 1
    }

    /// What the cell shows: its symbol if it is solved, else the number of
    /// symbols still possible.
    pub fn state(&self) -> (state: CellState)
        ensures
            state == shown(self@),
    {
        let n = self.len();
        if n == 1 {
            CellState::Solved(self.value.as_str().get_char(0))
        } else {
            CellState::Open(n)
        }
    }
}

} // verus!
