//! The rule table: which symbols may sit beside which, how much each symbol
//! weighs in a random choice, and what the borders of a map allow.

use crate::direction::Direction;
use crate::sampler::draw_below;
use crate::symbols::within;
use rand_chacha::ChaCha8Rng;
use std::collections::HashMap;
use vstd::pervasive::unreached;
use vstd::prelude::*;

verus! {

broadcast use vstd::std_specs::hash::group_hash_axioms;

/// For one symbol, the symbols allowed on each of its four sides.
pub struct Sides {
    pub top: Seq<char>,
    pub right: Seq<char>,
    pub bottom: Seq<char>,
    pub left: Seq<char>,
}

impl Sides {
    /// The symbols allowed on the side `d`.
    pub open spec fn toward(self, d: Direction) -> Seq<char> {
        match d {
            Direction::Top => self.top,
            Direction::Right => self.right,
            Direction::Bottom => self.bottom,
            Direction::Left => self.left,
        }
    }
}

/// What a rule table says: for each symbol it has rules for, the symbols
/// allowed on its four sides; and the weights of the symbols.
pub struct Rules {
    pub sides: Map<char, Sides>,
    pub weights: Map<char, nat>,
}

impl Rules {
    /// Whether there are rules for the symbol `c`.
    pub open spec fn knows(self, c: char) -> bool {
        self.sides.contains_key(c)
    }

    /// The symbols that may sit on side `d` of a cell holding `c`. A symbol
    /// without rules allows nothing; so does one whose entry is empty.
    pub open spec fn compatible_neighbors(self, c: char, d: Direction) -> Seq<char> {
        if self.sides.contains_key(c) {
            self.sides[c].toward(d)
        } else {
            Seq::empty()
        }
    }

    /// The weight of `c` in a random choice; 0 where it is given none.
    pub open spec fn weight(self, c: char) -> nat {
        if self.weights.contains_key(c) {
            self.weights[c]
        } else {
            0
        }
    }

    /// The rules are complete: every symbol with rules has a positive weight,
    /// every weighted symbol has rules, and every symbol that the rules allow
    /// beside another has rules itself.
    pub open spec fn wf(self) -> bool {
        &&& forall|c: char| self.knows(c) <==> self.weight(c) > 0
        &&& forall|c: char, d: Direction, i: int|
            0 <= i < self.compatible_neighbors(c, d).len() ==> self.knows(
                #[trigger] self.compatible_neighbors(c, d)[i],
            )
    }

    /// The sum of the weights of the symbols of `s`, each counted as often as
    /// it occurs.
    pub open spec fn total_weight(self, s: Seq<char>) -> nat
        decreases s.len(),
    {
        if s.len() == 0 {
            0
        } else {
            self.total_weight(s.drop_last()) + self.weight(s.last())
        }
    }

    /// A weighted choice from `s` is possible: each of its symbols has a
    /// positive weight, and their sum fits the machine's 64-bit integers.
    pub open spec fn weighs(self, s: Seq<char>) -> bool {
        &&& forall|i: int| 0 <= i < s.len() ==> self.weight(#[trigger] s[i]) > 0
        &&& self.total_weight(s) <= u64::MAX
    }

    /// The symbol of `s` whose share of the weights holds the draw `i`: the
    /// symbols share out the numbers from 0 in their order, each taking as
    /// many as its weight. A draw beyond all shares picks nothing; it then
    /// stands for the blank, and no contract asks for it.
    pub open spec fn pick(self, s: Seq<char>, i: nat) -> char
        decreases s.len(),
    {
        if s.len() == 0 {
            ' '
        } else if i < self.weight(s.first()) {
            s.first()
        } else {
            self.pick(s.drop_first(), (i - self.weight(s.first())) as nat)
        }
    }

    /// The total weight of a prefix is the total of the shorter prefix and
    /// the weight of the symbol that follows it, and never more than the
    /// whole.
    pub proof fn lemma_total_weight_take(self, s: Seq<char>, k: int)
        requires
            0 < k <= s.len(),
        ensures
            self.total_weight(s.take(k)) == self.total_weight(s.take(k - 1)) + self.weight(
                s[k - 1],
            ),
            self.total_weight(s.take(k)) <= self.total_weight(s),
        decreases s.len() - k,
    {
        assert(s.take(k).drop_last() =~= s.take(k - 1));
        if k < s.len() {
            self.lemma_total_weight_take(s, k + 1);
        } else {
            assert(s.take(k) =~= s);
        }
    }

    /// The total weight, taken from the front: the first symbol's weight and
    /// the total of the rest.
    pub proof fn lemma_total_weight_front(self, s: Seq<char>)
        requires
            s.len() > 0,
        ensures
            self.total_weight(s) == self.weight(s.first()) + self.total_weight(s.drop_first()),
        decreases s.len(),
    {
        if s.len() == 1 {
            assert(s.drop_last() =~= s.drop_first());
        } else {
            self.lemma_total_weight_front(s.drop_last());
            assert(s.drop_last().drop_first() =~= s.drop_first().drop_last());
        }
    }

    /// Taking one symbol out of a sequence takes its weight off the total.
    pub proof fn lemma_total_weight_remove(self, s: Seq<char>, j: int)
        requires
            0 <= j < s.len(),
        ensures
            self.total_weight(s) == self.total_weight(s.remove(j)) + self.weight(s[j]),
        decreases s.len(),
    {
        if j == s.len() - 1 {
            assert(s.remove(j) =~= s.drop_last());
        } else {
            self.lemma_total_weight_remove(s.drop_last(), j);
            assert(s.remove(j).drop_last() =~= s.drop_last().remove(j));
        }
    }

    /// A sequence that holds each of its symbols once, all of them symbols of
    /// `outer`, weighs no more than `outer`.
    pub proof fn lemma_total_weight_within(self, inner: Seq<char>, outer: Seq<char>)
        requires
            within(inner, outer),
        ensures
            self.total_weight(inner) <= self.total_weight(outer),
        decreases inner.len(),
    {
        if inner.len() > 0 {
            let x = inner.last();
            let front = inner.drop_last();
            assert(outer.contains(inner[inner.len() - 1]));
            let j = choose|j: int| 0 <= j < outer.len() && outer[j] == x;
            let rest = outer.remove(j);
            assert forall|i: int| 0 <= i < front.len() implies rest.contains(
                #[trigger] front[i],
            ) by {
                assert(front[i] == inner[i]);
                assert(outer.contains(inner[i]));
                let k = choose|k: int| 0 <= k < outer.len() && outer[k] == inner[i];
                assert(inner[i] != inner[inner.len() - 1]);
                if k < j {
                    assert(rest[k] == outer[k]);
                } else {
                    assert(rest[k - 1] == outer[k]);
                }
            }
            self.lemma_total_weight_within(front, rest);
            self.lemma_total_weight_remove(outer, j);
        }
    }

    /// Where a weighted choice from `outer` is possible, so is one from any
    /// sequence that holds only symbols of `outer`, each once.
    pub proof fn lemma_weighs_within(self, inner: Seq<char>, outer: Seq<char>)
        requires
            self.weighs(outer),
            within(inner, outer),
        ensures
            self.weighs(inner),
    {
        self.lemma_total_weight_within(inner, outer);
        assert forall|i: int| 0 <= i < inner.len() implies self.weight(#[trigger] inner[i])
            > 0 by {
            assert(outer.contains(inner[i]));
        }
    }

    /// The picked symbol stands at a place `k` of `s` where the weights
    /// before it sum to at most the draw and, with its own, to more: so it is
    /// a symbol of `s`, and the first whose share holds the draw.
    pub proof fn lemma_pick_member(self, s: Seq<char>, i: nat)
        requires
            i < self.total_weight(s),
        ensures
            s.contains(self.pick(s, i)),
            exists|k: int|
                0 <= k < s.len() && #[trigger] s[k] == self.pick(s, i) && self.total_weight(
                    s.take(k),
                ) <= i < self.total_weight(s.take(k + 1)),
        decreases s.len(),
    {
        if s.len() > 0 {
            self.lemma_total_weight_front(s);
            if i < self.weight(s.first()) {
                assert(s.take(0) =~= Seq::<char>::empty());
                self.lemma_total_weight_take(s, 1);
                assert(s[0] == self.pick(s, i));
            } else {
                let rest = s.drop_first();
                let j = (i - self.weight(s.first())) as nat;
                self.lemma_pick_member(rest, j);
                let k = choose|k: int|
                    0 <= k < rest.len() && #[trigger] rest[k] == self.pick(rest, j)
                        && self.total_weight(rest.take(k)) <= j < self.total_weight(
                        rest.take(k + 1),
                    );
                assert(s.take(k + 1).drop_first() =~= rest.take(k));
                assert(s.take(k + 2).drop_first() =~= rest.take(k + 1));
                self.lemma_total_weight_front(s.take(k + 1));
                self.lemma_total_weight_front(s.take(k + 2));
                assert(s[k + 1] == self.pick(s, i));
            }
        }
    }

    /// From a domain of a single symbol every draw picks that symbol.
    pub proof fn lemma_pick_single(self, s: Seq<char>, i: nat)
        requires
            s.len() == 1,
            i < self.total_weight(s),
        ensures
            self.pick(s, i) == s[0],
    {
        self.lemma_pick_member(s, i);
    }
}

/// Whether `c` is one of the five terrain symbols.
pub open spec fn is_terrain(c: char) -> bool {
    c == ' ' || c == '/' || c == '\\' || c == '_' || c == '#'
}

/// The terrain rules for the symbol `c`: what may sit on each of its sides.
pub open spec fn terrain_sides(c: char) -> Sides {
    if c == ' ' {
        Sides { top: " /\\#"@, right: " /_"@, bottom: " /\\_"@, left: " \\_"@ }
    } else if c == '/' {
        Sides { top: " \\"@, right: "#\\"@, bottom: " \\_#"@, left: " _"@ }
    } else if c == '\\' {
        Sides { top: " /"@, right: " _"@, bottom: " /_#"@, left: "/#"@ }
    } else if c == '_' {
        Sides { top: " /\\#"@, right: " /_"@, bottom: "#"@, left: " \\_"@ }
    } else {
        Sides { top: "/\\_#"@, right: "#\\"@, bottom: " _#"@, left: "/#"@ }
    }
}

/// The weight of each terrain symbol in a random choice.
pub open spec fn terrain_weight(c: char) -> nat {
    if c == ' ' {
        1000
    } else if c == '/' {
        10
    } else if c == '\\' {
        10
    } else if c == '_' {
        50
    } else {
        100
    }
}

/// The terrain rules: rules and weights for the five terrain symbols, and
/// for no other.
pub open spec fn terrain_rules() -> Rules {
    Rules {
        sides: Map::new(|c: char| is_terrain(c), |c: char| terrain_sides(c)),
        weights: Map::new(|c: char| is_terrain(c), |c: char| terrain_weight(c)),
    }
}

/// The symbols that a border side of the map allows.
pub open spec fn terrain_edge(side: Direction) -> Seq<char> {
    match side {
        Direction::Top => SymbolMap::TOP_EDGE@,
        Direction::Right => SymbolMap::RIGHT_EDGE@,
        Direction::Bottom => SymbolMap::BOTTOM_EDGE@,
        Direction::Left => SymbolMap::LEFT_EDGE@,
    }
}

/// The terrain rules are complete, and they can make a weighted choice from
/// the whole alphabet, whose weights sum to 1170.
pub proof fn lemma_terrain_rules()
    ensures
        terrain_rules().wf(),
        terrain_rules().total_weight(SymbolMap::ALLPIECES@) == 1170,
        terrain_rules().weighs(SymbolMap::ALLPIECES@),
{
    reveal_strlit(" /\\#");
    reveal_strlit(" /_");
    reveal_strlit(" /\\_");
    reveal_strlit(" \\_");
    reveal_strlit(" \\");
    reveal_strlit("#\\");
    reveal_strlit(" \\_#");
    reveal_strlit(" _");
    reveal_strlit(" /");
    reveal_strlit(" /_#");
    reveal_strlit("/#");
    reveal_strlit("#");
    reveal_strlit("/\\_#");
    reveal_strlit(" _#");
    reveal_strlit(" /\\_#");
    let rules = terrain_rules();
    let all = SymbolMap::ALLPIECES@;
    assert(all =~= seq![' ', '/', '\\', '_', '#']);
    rules.lemma_total_weight_take(all, 1);
    rules.lemma_total_weight_take(all, 2);
    rules.lemma_total_weight_take(all, 3);
    rules.lemma_total_weight_take(all, 4);
    rules.lemma_total_weight_take(all, 5);
    assert(all.take(0) =~= Seq::<char>::empty());
    assert(all.take(5) =~= all);
}

/// For one symbol, the symbols allowed on each of its four sides.
#[derive(Debug)]
pub struct Neighbors {
    top: String,
    right: String,
    bottom: String,
    left: String,
}

impl View for Neighbors {
    type V = Sides;

    closed spec fn view(&self) -> Sides {
        Sides { top: self.top@, right: self.right@, bottom: self.bottom@, left: self.left@ }
    }
}

impl Neighbors {
    fn new(top: &str, right: &str, bottom: &str, left: &str) -> (n: Neighbors)
        ensures
            n@ == (Sides { top: top@, right: right@, bottom: bottom@, left: left@ }),
    {
        Neighbors {
            top: top.to_owned(),
            right: right.to_owned(),
            bottom: bottom.to_owned(),
            left: left.to_owned(),
        }
    }

    fn get(&self, d: &Direction) -> (opts: &str)
        ensures
            opts@ == self@.toward(*d),
    {
        match d {
            Direction::Top => self.top.as_str(),
            Direction::Right => self.right.as_str(),
            Direction::Bottom => self.bottom.as_str(),
            Direction::Left => self.left.as_str(),
        }
    }
}

/// A weighted choice was asked from a domain that holds no symbol.
#[derive(Copy, Clone, Debug, PartialEq, Eq)]
pub struct EmptyDomain;

/// The adjacency rules and weights of the terrain symbols, each symbol kept
/// under its code.
#[derive(Debug)]
pub struct SymbolMap {
    map: HashMap<u32, Neighbors>,
    weights: HashMap<u32, u64>,
}

impl View for SymbolMap {
    type V = Rules;

    /// What the table says, symbol by symbol.
    closed spec fn view(&self) -> Rules {
        Rules {
            sides: Map::new(
                |c: char| self.map@.contains_key(c as u32),
                |c: char| self.map@[c as u32]@,
            ),
            weights: Map::new(
                |c: char| self.weights@.contains_key(c as u32),
                |c: char| self.weights@[c as u32] as nat,
            ),
        }
    }
}

/// The codes under which the table keeps the terrain symbols.
spec fn terrain_codes() -> Set<u32> {
    set![' ' as u32, '/' as u32, '\\' as u32, '_' as u32, '#' as u32]
}

impl SymbolMap {
    /// Every terrain symbol: the domain of a cell that nothing constrains yet.
    pub const ALLPIECES: &'static str = " /\\_#";

    /// The symbols a hill is made of.
    pub const HILLPIECES: &'static str = "/\\_#";

    /// What the top row of a map may hold.
    pub const TOP_EDGE: &'static str = " _";

    /// What the rightmost column of a map may hold.
    pub const RIGHT_EDGE: &'static str = " \\_#";

    /// What the bottom row of a map may hold.
    pub const BOTTOM_EDGE: &'static str = " /\\#";

    /// What the leftmost column of a map may hold.
    pub const LEFT_EDGE: &'static str = " /_#";

    /// The entries of the terrain table are in place.
    spec fn holds_terrain(&self) -> bool {
        &&& self.map@.dom() == terrain_codes()
        &&& self.weights@.dom() == terrain_codes()
        &&& self.map@[' ' as u32]@ == terrain_sides(' ')
        &&& self.map@['/' as u32]@ == terrain_sides('/')
        &&& self.map@['\\' as u32]@ == terrain_sides('\\')
        &&& self.map@['_' as u32]@ == terrain_sides('_')
        &&& self.map@['#' as u32]@ == terrain_sides('#')
        &&& self.weights@[' ' as u32] == 1000
        &&& self.weights@['/' as u32] == 10
        &&& self.weights@['\\' as u32] == 10
        &&& self.weights@['_' as u32] == 50
        &&& self.weights@['#' as u32] == 100
    }

    /// With the terrain entries in place, the table answers for `c` as the
    /// terrain rules do.
    proof fn lemma_is_terrain_table(&self, c: char)
        requires
            self.holds_terrain(),
        ensures
            self@.sides.contains_key(c) <==> is_terrain(c),
            self@.weights.contains_key(c) <==> is_terrain(c),
            is_terrain(c) ==> self@.sides[c] == terrain_sides(c),
            is_terrain(c) ==> self@.weights[c] == terrain_weight(c),
    {
    }

    fn empty() -> (entry: (char, Neighbors))
        ensures
            entry.0 == ' ',
            entry.1@ == terrain_sides(' '),
    {
        (' ', Neighbors::new(" /\\#", " /_", " /\\_", " \\_"))
    }

    fn right_slope() -> (entry: (char, Neighbors))
        ensures
            entry.0 == '/',
            entry.1@ == terrain_sides('/'),
    {
        ('/', Neighbors::new(" \\", "#\\", " \\_#", " _"))
    }

    fn left_slope() -> (entry: (char, Neighbors))
        ensures
            entry.0 == '\\',
            entry.1@ == terrain_sides('\\'),
    {
        ('\\', Neighbors::new(" /", " _", " /_#", "/#"))
    }

    fn hill_top() -> (entry: (char, Neighbors))
        ensures
            entry.0 == '_',
            entry.1@ == terrain_sides('_'),
    {
        ('_', Neighbors::new(" /\\#", " /_", "#", " \\_"))
    }

    fn hill_rock() -> (entry: (char, Neighbors))
        ensures
            entry.0 == '#',
            entry.1@ == terrain_sides('#'),
    {
        ('#', Neighbors::new(SymbolMap::HILLPIECES, "#\\", " _#", "/#"))
    }

    /// The terrain rule table.
    pub fn new() -> (table: SymbolMap)
        ensures
            table@ == terrain_rules(),
            table@.wf(),
            table@.weighs(SymbolMap::ALLPIECES@),
    {
        let mut map: HashMap<u32, Neighbors> = HashMap::new();
        let (c, n) = Self::empty();
        map.insert(c as u32, n);
        let (c, n) = Self::right_slope();
        map.insert(c as u32, n);
        let (c, n) = Self::left_slope();
        map.insert(c as u32, n);
        let (c, n) = Self::hill_top();
        map.insert(c as u32, n);
        let (c, n) = Self::hill_rock();
        map.insert(c as u32, n);
        let mut weights: HashMap<u32, u64> = HashMap::new();
        weights.insert(' ' as u32, 1000);
        weights.insert('/' as u32, 10);
        weights.insert('\\' as u32, 10);
        weights.insert('_' as u32, 50);
        weights.insert('#' as u32, 100);
        let table = SymbolMap { map, weights };
        proof {
            assert(table.map@.dom() =~= terrain_codes());
            assert(table.weights@.dom() =~= terrain_codes());
            assert(table.holds_terrain());
            let rules = terrain_rules();
            assert forall|c: char| #[trigger]
                table@.sides.contains_key(c) == rules.sides.contains_key(c) by {
                table.lemma_is_terrain_table(c);
            }
            assert forall|c: char| #[trigger] table@.sides.contains_key(c) implies table@.sides[c]
                == rules.sides[c] by {
                table.lemma_is_terrain_table(c);
            }
            assert forall|c: char| #[trigger]
                table@.weights.contains_key(c) == rules.weights.contains_key(c) by {
                table.lemma_is_terrain_table(c);
            }
            assert forall|c: char| #[trigger]
                table@.weights.contains_key(c) implies table@.weights[c] == rules.weights[c] by {
                table.lemma_is_terrain_table(c);
            }
            assert(table@.sides =~= rules.sides);
            assert(table@.weights =~= rules.weights);
            lemma_terrain_rules();
        }
        table
    }

    /// The symbols that may sit on side `d` of `c`, if the table has rules
    /// for `c`.
    pub fn get(&self, c: char, d: &Direction) -> (opts: Option<&str>)
        ensures
            opts is Some <==> self@.knows(c),
            opts matches Some(s) ==> s@ == self@.compatible_neighbors(c, *d),
    {
        match self.map.get(&(c as u32)) {
            Some(n) => Some(n.get(d)),
            None => None,
        }
    }

    /// The symbols that the border side `side` of a map allows.
    pub fn edge_constraint(side: &Direction) -> (allowed: &'static str)
        ensures
            allowed@ == terrain_edge(*side),
    {
        match side {
            Direction::Top => SymbolMap::TOP_EDGE,
            Direction::Right => SymbolMap::RIGHT_EDGE,
            Direction::Bottom => SymbolMap::BOTTOM_EDGE,
            Direction::Left => SymbolMap::LEFT_EDGE,
        }
    }

    /// The weight of `c` in a random choice; 0 where the table gives it none.
    pub fn weight_of(&self, c: char) -> (w: u64)
        ensures
            w == self@.weight(c),
    {
        match self.weights.get(&(c as u32)) {
            Some(w) => *w,
            None => 0,
        }
    }

    /// Whether a weighted choice from `s` is possible.
    pub fn check_weights(&self, s: &str) -> (ok: bool)
        ensures
            ok == self@.weighs(s@),
    {
        let mut total: u64 = 0;
        for c in it: s.chars()
            invariant
                it.seq() == s@,
                total == self@.total_weight(s@.take(it.index() as int)),
                forall|j: int| 0 <= j < it.index() ==> self@.weight(#[trigger] s@[j]) > 0,
        {
            proof {
                let i = it.index() as int;
                assert(s@.take(i + 1).drop_last() =~= s@.take(i));
                self@.lemma_total_weight_take(s@, i + 1);
            }
            let w = self.weight_of(c);
            if w == 0 {
                return false;
            }
            match total.checked_add(w) {
                Some(sum) => {
                    total = sum;
                },
                None => {
                    return false;
                },
            }
        }
        proof {
            assert(s@.take(s@.len() as int) =~= s@);
        }
        true
    }

    /// The sum of the weights of the symbols of `s`.
    pub fn string_total_weight(&self, s: &str) -> (total: u64)
        requires
            self@.weighs(s@),
        ensures
            total == self@.total_weight(s@),
    {
        let mut total: u64 = 0;
        for c in it: s.chars()
            invariant
                it.seq() == s@,
                self@.weighs(s@),
                total == self@.total_weight(s@.take(it.index() as int)),
        {
            proof {
                let i = it.index() as int;
                assert(s@.take(i + 1).drop_last() =~= s@.take(i));
                self@.lemma_total_weight_take(s@, i + 1);
            }
            total += self.weight_of(c);
        }
        proof {
            assert(s@.take(s@.len() as int) =~= s@);
        }
        total
    }

    /// The symbol of `s` whose share of the weights holds the draw `i`.
    pub fn pick_weighted_index(&self, s: &str, i: u64) -> (symbol: char)
        requires
            self@.weighs(s@),
            i < self@.total_weight(s@),
        ensures
            symbol == self@.pick(s@, i as nat),
    {
        let mut rest = i;
        proof {
            assert(s@.skip(0) =~= s@);
        }
        for ch in it: s.chars()
            invariant
                it.seq() == s@,
                rest < self@.total_weight(s@.skip(it.index() as int)),
                self@.pick(s@, i as nat) == self@.pick(s@.skip(it.index() as int), rest as nat),
        {
            proof {
                let k = it.index() as int;
                self@.lemma_total_weight_front(s@.skip(k));
                assert(s@.skip(k).drop_first() =~= s@.skip(k + 1));
            }
            let w = self.weight_of(ch);
            if rest < w {
                return ch;
            }
            rest -= w;
        }
        proof {
            assert(s@.skip(s@.len() as int) =~= Seq::<char>::empty());
        }
        unreached()
    }

    /// Draws a symbol of `value` at random, each with a chance in proportion
    /// to its weight: one draw below the total weight is taken from `rng`,
    /// and the symbol is the one that `pick_weighted_index` gives for it.
    pub fn rng_pick(&self, value: &str, rng: &mut ChaCha8Rng) -> (picked: Result<
        String,
        EmptyDomain,
    >)
        requires
            self@.weighs(value@),
        ensures
            picked is Err <==> value@.len() == 0,
            picked matches Ok(s) ==> exists|i: nat|
                i < self@.total_weight(value@) && s@ == seq![#[trigger] self@.pick(value@, i)],
            picked matches Ok(s) ==> s@.len() == 1 && value@.contains(s@[0]),
            value@.len() == 1 ==> (picked matches Ok(s) && s@ == value@),
    {
        if value.unicode_len() == 0 {
            return Err(EmptyDomain);
        }
        proof {
            self@.lemma_total_weight_front(value@);
        }
        let total = self.string_total_weight(value);
        let i: u64 = draw_below(rng, total);
        let symbol = self.pick_weighted_index(value, i);
        let mut picked = String::new();
        picked.push(symbol);
        proof {
            self@.lemma_pick_member(value@, i as nat);
            assert(picked@ =~= seq![self@.pick(value@, i as nat)]);
            if value@.len() == 1 {
                assert(value@ =~= seq![value@[0]]);
            }
        }
        Ok(picked)
    }
}

} // verus!
