//! Incremental grammar, geometry, and recipe constraints for Factorio output.
//!
//! The schema keeps game-specific facts out of the generic model while letting
//! generation mask a token before it creates malformed syntax, an overlap, an
//! out-of-zone footprint, or an illegal machine and recipe pair.

use std::collections::HashSet;

use vstd::prelude::*;

use crate::data::tokenizer::Tokenizer;
use crate::text;

verus! {

broadcast use vstd::std_specs::hash::group_hash_axioms;

/// What one kind of entity asks of a blueprint.
pub struct Rule {
    pub width: u8,
    pub height: u8,
    pub recipes: Vec<u16>,
    pub flow: bool,
}

/// A kind of entity: its token and its rule.
pub struct Entity {
    pub id: u16,
    pub rule: Rule,
}

/// A compiled schema. Token strings are resolved once, before sampling.
pub struct Grammar {
    pub entities: Vec<Entity>,
    pub entity_marker: u16,
    pub blueprint_end: u16,
    pub eos: u16,
    pub xs: Vec<(u16, u8)>,
    pub ys: Vec<(u16, u8)>,
    pub directions: Vec<(u16, u8)>,
    pub flows: Vec<u16>,
}

/// Which field of the blueprint the next token fills.
#[derive(Debug, Clone, Copy, PartialEq, Eq, Structural)]
pub enum State {
    Boundary,
    Entity,
    X,
    Y,
    Direction,
    Recipe,
    Flow,
    Done,
}

/// The cells of a rectangle.
pub open spec fn area(x: int, y: int, width: int, height: int) -> Set<(int, int)> {
    Set::new(|cell: (int, int)| x <= cell.0 < x + width && y <= cell.1 < y + height)
}

/// The footprint of a `width` by `height` entity: turned on its side when it
/// faces east or west.
pub open spec fn extent(width: int, height: int, direction: int) -> (int, int) {
    if direction == 2 || direction == 6 {
        (height, width)
    } else {
        (width, height)
    }
}

/// The value of the first pair that `token` stands for.
pub open spec fn value_of(values: Seq<(u16, u8)>, token: u16) -> Option<u8>
    decreases values.len(),
{
    if values.len() == 0 {
        None
    } else if values[0].0 == token {
        Some(values[0].1)
    } else {
        value_of(values.drop_first(), token)
    }
}

/// The tokens whose values satisfy `ok`, in order.
pub open spec fn keep(values: Seq<(u16, u8)>, ok: spec_fn(u8) -> bool) -> Seq<u16>
    decreases values.len(),
{
    if values.len() == 0 {
        Seq::empty()
    } else if ok(values.last().1) {
        keep(values.drop_last(), ok).push(values.last().0)
    } else {
        keep(values.drop_last(), ok)
    }
}

/// The rule of the entity `id`.
pub open spec fn rule_of(entities: Seq<Entity>, id: u16) -> Option<Rule>
    decreases entities.len(),
{
    if entities.len() == 0 {
        None
    } else if entities[0].id == id {
        Some(entities[0].rule)
    } else {
        rule_of(entities.drop_first(), id)
    }
}

/// How far one continuation has come.
pub struct Progress {
    pub width: int,
    pub height: int,
    pub state: State,
    pub current: Option<u16>,
    pub x: Option<u8>,
    pub y: Option<u8>,
    pub occupied: Set<(int, int)>,
    pub placed: nat,
}

impl Progress {
    /// A `width` by `height` entity at `(x, y)` stays inside the zone and
    /// touches no occupied cell.
    pub open spec fn fits(self, width: int, height: int, x: int, y: int, direction: int) -> bool {
        let e = extent(width, height, direction);
        &&& x + e.0 <= self.width
        &&& y + e.1 <= self.height
        &&& area(x, y, e.0, e.1).disjoint(self.occupied)
    }

    /// It fits at `(x, y)`, facing one way or another.
    pub open spec fn fits_at(self, width: int, height: int, x: int, y: int) -> bool {
        exists|direction: int|
            0 <= direction < 8 && #[trigger] self.fits(width, height, x, y, direction)
    }

    /// It fits somewhere in the zone.
    pub open spec fn shape_fits(self, width: int, height: int) -> bool {
        exists|x: int, y: int|
            0 <= x < self.width && 0 <= y < self.height && #[trigger] self.fits_at(
                width,
                height,
                x,
                y,
            )
    }

    /// It fits somewhere in the zone, the coordinates that are given held fixed.
    pub open spec fn position_fits(self, rule: Rule, x: Option<u8>, y: Option<u8>) -> bool {
        exists|xx: int, yy: int|
            {
                &&& if let Some(v) = x { xx == v } else { 0 <= xx < self.width }
                &&& if let Some(v) = y { yy == v } else { 0 <= yy < self.height }
                &&& #[trigger] self.fits_at(rule.width as int, rule.height as int, xx, yy)
            }
    }

    /// The entities that fit somewhere, in order.
    pub open spec fn fitting(self, entities: Seq<Entity>) -> Seq<u16>
        decreases entities.len(),
    {
        if entities.len() == 0 {
            Seq::empty()
        } else if self.position_fits(entities.last().rule, None, None) {
            self.fitting(entities.drop_last()).push(entities.last().id)
        } else {
            self.fitting(entities.drop_last())
        }
    }

    /// The rule of the entity being placed.
    pub open spec fn rule(self, grammar: Grammar) -> Rule {
        rule_of(grammar.entities@, self.current->0)->0
    }

    /// The columns in which the entity being placed fits at some row.
    pub open spec fn x_fits(self, grammar: Grammar) -> spec_fn(u8) -> bool {
        |x: u8| self.position_fits(self.rule(grammar), Some(x), None)
    }

    /// The rows in which it fits, in the column that was chosen.
    pub open spec fn y_fits(self, grammar: Grammar) -> spec_fn(u8) -> bool {
        |y: u8| self.position_fits(self.rule(grammar), self.x, Some(y))
    }

    /// The directions in which it fits, in the cell that was chosen.
    pub open spec fn direction_fits(self, grammar: Grammar) -> spec_fn(u8) -> bool {
        |direction: u8|
            self.fits(
                self.rule(grammar).width as int,
                self.rule(grammar).height as int,
                self.x->0 as int,
                self.y->0 as int,
                direction as int,
            )
    }

    /// The tokens that may follow.
    pub open spec fn allowed(self, grammar: Grammar) -> Seq<u16> {
        match self.state {
            State::Boundary => {
                let marker = if self.fitting(grammar.entities@).len() > 0 {
                    seq![grammar.entity_marker]
                } else {
                    Seq::empty()
                };
                if self.placed > 0 {
                    marker.push(grammar.blueprint_end)
                } else {
                    marker
                }
            },
            State::Entity => self.fitting(grammar.entities@),
            State::X => keep(grammar.xs@, self.x_fits(grammar)),
            State::Y => keep(grammar.ys@, self.y_fits(grammar)),
            State::Direction => keep(grammar.directions@, self.direction_fits(grammar)),
            State::Recipe => self.rule(grammar).recipes@,
            State::Flow => grammar.flows@,
            State::Done => seq![grammar.eos],
        }
    }

    /// The size of what direction `token` would place.
    pub open spec fn placing(self, grammar: Grammar, token: u16) -> (int, int) {
        extent(
            self.rule(grammar).width as int,
            self.rule(grammar).height as int,
            value_of(grammar.directions@, token)->0 as int,
        )
    }

    /// The cells that direction `token` would take up.
    pub open spec fn footprint(self, grammar: Grammar, token: u16) -> Set<(int, int)> {
        let e = self.placing(grammar, token);
        area(self.x->0 as int, self.y->0 as int, e.0, e.1)
    }

    /// The fields that follow the direction of an entity.
    pub open spec fn after_direction(self, grammar: Grammar) -> State {
        if self.rule(grammar).recipes@.len() > 0 {
            State::Recipe
        } else {
            self.after_recipe(grammar)
        }
    }

    /// The fields that follow the recipe of an entity.
    pub open spec fn after_recipe(self, grammar: Grammar) -> State {
        if self.rule(grammar).flow {
            State::Flow
        } else {
            State::Boundary
        }
    }

    /// Where `token` leads.
    pub open spec fn after(self, grammar: Grammar, token: u16) -> Progress {
        match self.state {
            State::Boundary => if token == grammar.entity_marker {
                Progress { state: State::Entity, ..self }
            } else {
                Progress { state: State::Done, ..self }
            },
            State::Entity => Progress { state: State::X, current: Some(token), ..self },
            State::X => Progress { state: State::Y, x: value_of(grammar.xs@, token), ..self },
            State::Y => Progress {
                state: State::Direction,
                y: value_of(grammar.ys@, token),
                ..self
            },
            State::Direction => Progress {
                state: self.after_direction(grammar),
                x: None,
                y: None,
                occupied: self.occupied.union(self.footprint(grammar, token)),
                placed: self.placed + 1,
                ..self
            },
            State::Recipe => Progress { state: self.after_recipe(grammar), ..self },
            State::Flow => Progress { state: State::Boundary, ..self },
            State::Done => self,
        }
    }

    /// The fields that the state reads are there.
    pub open spec fn well_formed(self, grammar: Grammar) -> bool {
        &&& 0 < self.width <= 64
        &&& 0 < self.height <= 64
        &&& (self.state is X || self.state is Y || self.state is Direction || self.state is Recipe)
            ==> (self.current is Some && rule_of(grammar.entities@, self.current->0) is Some)
        &&& (self.state is Y || self.state is Direction) ==> self.x is Some
        &&& self.state is Direction ==> self.y is Some
    }

    /// `token` may follow, and what it places can be addressed in bytes.
    pub open spec fn accepts(self, grammar: Grammar, token: u16) -> bool {
        &&& self.allowed(grammar).contains(token)
        &&& self.state is Direction ==> {
            &&& self.x->0 + self.placing(grammar, token).0 <= 255
            &&& self.y->0 + self.placing(grammar, token).1 <= 255
            &&& self.placed < usize::MAX
        }
    }
}

/// State for one continuation. Occupancy is updated as soon as direction fixes
/// the footprint, before optional recipe and flow fields are sampled.
pub struct Decoder<'a> {
    pub grammar: &'a Grammar,
    pub width: u8,
    pub height: u8,
    pub state: State,
    pub current: Option<u16>,
    pub x: Option<u8>,
    pub y: Option<u8>,
    /// The occupied cells, `256 x + y` for each.
    pub occupied: HashSet<u16>,
    pub placed: usize,
}

/// The number under which a cell is kept.
pub open spec fn cell_key(x: int, y: int) -> u16 {
    (x * 256 + y) as u16
}

/// The cells whose numbers are in `keys`.
pub open spec fn cells(keys: Set<u16>) -> Set<(int, int)> {
    Set::new(
        |cell: (int, int)|
            0 <= cell.0 < 256 && 0 <= cell.1 < 256 && keys.contains(cell_key(cell.0, cell.1)),
    )
}

impl<'a> View for Decoder<'a> {
    type V = Progress;

    open spec fn view(&self) -> Progress {
        Progress {
            width: self.width as int,
            height: self.height as int,
            state: self.state,
            current: self.current,
            x: self.x,
            y: self.y,
            occupied: cells(self.occupied@),
            placed: self.placed as nat,
        }
    }
}

/// Where `word` first stands among `words`.
pub open spec fn position(words: Seq<Seq<char>>, word: Seq<char>) -> Option<nat>
    decreases words.len(),
{
    if words.len() == 0 {
        None
    } else if words[0] == word {
        Some(0)
    } else {
        match position(words.drop_first(), word) {
            Some(at) => Some(at + 1),
            None => None,
        }
    }
}

/// The largest side a zone can have.
pub const ZONE: u8 = 64;

/// The side of a zone that a word such as `#12` gives: `ZONE` where it gives
/// none, and never more.
pub open spec fn side(word: Seq<char>) -> int {
    if word.len() > 0 && word[0] == '#' {
        match text::parsed(word.skip(1), 255) {
            Some(n) => if 0 < n < ZONE {
                n as int
            } else {
                ZONE as int
            },
            None => ZONE as int,
        }
    } else {
        ZONE as int
    }
}

/// The side of the zone that stands `offset` words behind `<spec>`.
pub open spec fn prompt_side(prompt: Seq<char>, offset: nat) -> int {
    let words = text::words(prompt);
    match position(words, "<spec>"@) {
        Some(at) => if at + offset < words.len() {
            side(words[(at + offset) as int])
        } else {
            ZONE as int
        },
        None => ZONE as int,
    }
}

/// Where a continuation of `prompt` starts.
pub open spec fn start(prompt: Seq<char>) -> Progress {
    Progress {
        width: prompt_side(prompt, 4),
        height: prompt_side(prompt, 5),
        state: State::Boundary,
        current: None,
        x: None,
        y: None,
        occupied: Set::empty(),
        placed: 0,
    }
}

fn read_side(word: &Vec<char>) -> (r: u8)
    ensures
        r == side(word@),
        0 < r <= ZONE,
{
    if word.len() > 0 && word[0] == '#' {
        match text::parse_number(word, 1, 255) {
            Some(n) => if 0 < n && n < ZONE as u64 {
                n as u8
            } else {
                ZONE
            },
            None => ZONE,
        }
    } else {
        ZONE
    }
}

impl Grammar {
    /// A continuation of `prompt`, whose specification may bound the zone.
    pub fn decoder(&self, prompt: &str) -> (r: Decoder<'_>)
        ensures
            *r.grammar == *self,
            r@ == start(prompt@),
            r@.well_formed(*self),
    {
        let tokens = text::words_of(prompt);
        let word = text::chars_of("<spec>");
        let ghost words = text::words(prompt@);
        let mut at: usize = 0;
        assert(words.skip(0) =~= words);
        while at < tokens.len() && !text::same_chars(&tokens[at], &word)
            invariant
                at <= tokens.len(),
                tokens.len() == words.len(),
                word@ == "<spec>"@,
                forall|i: int| 0 <= i < tokens.len() ==> #[trigger] tokens[i]@ == words[i],
                position(words, word@) == match position(words.skip(at as int), word@) {
                    Some(i) => Some(i + at as nat),
                    None => None,
                },
            decreases tokens.len() - at,
        {
            assert(words.skip(at as int).drop_first() =~= words.skip(at + 1));
            assert(words.skip(at as int)[0] == words[at as int]);
            at = at + 1;
        }
        assert(at < tokens.len() ==> words.skip(at as int)[0] == words[at as int]);
        let n = tokens.len();
        let width = if at < n && 4 < n - at {
            read_side(&tokens[at + 4])
        } else {
            ZONE
        };
        let height = if at < n && 5 < n - at {
            read_side(&tokens[at + 5])
        } else {
            ZONE
        };
        let decoder = Decoder {
            grammar: self,
            width,
            height,
            state: State::Boundary,
            current: None,
            x: None,
            y: None,
            occupied: HashSet::new(),
            placed: 0,
        };
        assert(decoder@.occupied =~= Set::empty());
        decoder
    }

    /// No two entities share a token.
    pub open spec fn well_formed(self) -> bool {
        forall|i: int, j: int|
            0 <= i < j < self.entities.len() ==> (#[trigger] self.entities[i]).id < (
            #[trigger] self.entities[j]).id
    }

    /// No two entities and no two coordinates share a token, and neither do the
    /// two tokens that may follow an entity.
    pub open spec fn fields_apart(self) -> bool {
        &&& self.well_formed()
        &&& self.entity_marker != self.blueprint_end
        &&& distinct(self.xs@)
        &&& distinct(self.ys@)
    }

    /// Directions that share a token lay every entity down the same way.
    pub open spec fn directions_agree(self) -> bool {
        forall|i: int, j: int, k: int|
            #![trigger self.directions@[i], self.directions@[j], self.entities@[k]]
            0 <= i < self.directions@.len() && 0 <= j < self.directions@.len() && 0 <= k
                < self.entities@.len() && self.directions@[i].0 == self.directions@[j].0
                ==> extent(
                self.entities@[k].rule.width as int,
                self.entities@[k].rule.height as int,
                self.directions@[i].1 as int,
            ) == extent(
                self.entities@[k].rule.width as int,
                self.entities@[k].rule.height as int,
                self.directions@[j].1 as int,
            )
    }

    /// Every coordinate of the largest zone, every direction and some flow has
    /// a token.
    pub open spec fn complete(self) -> bool {
        &&& forall|v: int| 0 <= v < ZONE ==> #[trigger] names(self.xs@, v)
        &&& forall|v: int| 0 <= v < ZONE ==> #[trigger] names(self.ys@, v)
        &&& forall|v: int| 0 <= v < 8 ==> #[trigger] names(self.directions@, v)
        &&& self.flows@.len() > 0
    }
}

fn are_distinct(values: &Vec<(u16, u8)>) -> (r: bool)
    ensures
        r == distinct(values@),
{
    let mut j: usize = 0;
    while j < values.len()
        invariant
            j <= values.len(),
            forall|a: int, b: int|
                0 <= a < b < j ==> (#[trigger] values@[a]).0 != (#[trigger] values@[b]).0,
        decreases values.len() - j,
    {
        let mut i: usize = 0;
        while i < j
            invariant
                i <= j < values.len(),
                forall|a: int| 0 <= a < i ==> (#[trigger] values@[a]).0 != values@[j as int].0,
            decreases j - i,
        {
            if values[i].0 == values[j].0 {
                assert(values@[i as int].0 == values@[j as int].0);
                return false;
            }
            i = i + 1;
        }
        j = j + 1;
    }
    true
}

impl Grammar {
    fn is_ordered(&self) -> (r: bool)
        ensures
            r == self.well_formed(),
    {
        let mut i: usize = 0;
        while i < self.entities.len()
            invariant
                i <= self.entities.len(),
                forall|a: int, b: int|
                    0 <= a < b < i ==> (#[trigger] self.entities[a]).id < (
                    #[trigger] self.entities[b]).id,
            decreases self.entities.len() - i,
        {
            if i > 0 && self.entities[i - 1].id >= self.entities[i].id {
                assert(self.entities[i - 1].id >= self.entities[i as int].id);
                return false;
            }
            i = i + 1;
        }
        true
    }

    /// Two directions share a token, and lay an entity down in different ways.
    pub open spec fn clash(self, i: int, j: int) -> bool {
        self.directions@[i].0 == self.directions@[j].0 && exists|k: int|
            0 <= k < self.entities@.len() && extent(
                (#[trigger] self.entities@[k]).rule.width as int,
                self.entities@[k].rule.height as int,
                self.directions@[i].1 as int,
            ) != extent(
                self.entities@[k].rule.width as int,
                self.entities@[k].rule.height as int,
                self.directions@[j].1 as int,
            )
    }

    fn do_clash(&self, i: usize, j: usize) -> (r: bool)
        requires
            i < self.directions.len(),
            j < self.directions.len(),
        ensures
            r == self.clash(i as int, j as int),
    {
        if self.directions[i].0 != self.directions[j].0 {
            return false;
        }
        let mut k: usize = 0;
        while k < self.entities.len()
            invariant
                i < self.directions.len(),
                j < self.directions.len(),
                self.directions@[i as int].0 == self.directions@[j as int].0,
                k <= self.entities.len(),
                forall|l: int|
                    0 <= l < k ==> extent(
                        (#[trigger] self.entities@[l]).rule.width as int,
                        self.entities@[l].rule.height as int,
                        self.directions@[i as int].1 as int,
                    ) == extent(
                        self.entities@[l].rule.width as int,
                        self.entities@[l].rule.height as int,
                        self.directions@[j as int].1 as int,
                    ),
            decreases self.entities.len() - k,
        {
            let rule = &self.entities[k].rule;
            let a = footprint(rule, self.directions[i].1);
            let b = footprint(rule, self.directions[j].1);
            if a.0 != b.0 || a.1 != b.1 {
                assert(self.entities@[k as int].rule == *rule);
                return true;
            }
            k = k + 1;
        }
        false
    }

    fn do_directions_agree(&self) -> (r: bool)
        ensures
            r == self.directions_agree(),
    {
        let mut i: usize = 0;
        while i < self.directions.len()
            invariant
                i <= self.directions.len(),
                forall|a: int, b: int|
                    0 <= a < i && 0 <= b < self.directions.len() ==> !#[trigger] self.clash(a, b),
            decreases self.directions.len() - i,
        {
            let mut j: usize = 0;
            while j < self.directions.len()
                invariant
                    i < self.directions.len(),
                    j <= self.directions.len(),
                    forall|b: int| 0 <= b < j ==> !#[trigger] self.clash(i as int, b),
                decreases self.directions.len() - j,
            {
                if self.do_clash(i, j) {
                    return false;
                }
                j = j + 1;
            }
            i = i + 1;
        }
        proof {
            assert forall|i: int, j: int, k: int|
                #![trigger self.directions@[i], self.directions@[j], self.entities@[k]]
                0 <= i < self.directions@.len() && 0 <= j < self.directions@.len() && 0 <= k
                    < self.entities@.len() && self.directions@[i].0
                    == self.directions@[j].0 implies extent(
                self.entities@[k].rule.width as int,
                self.entities@[k].rule.height as int,
                self.directions@[i].1 as int,
            ) == extent(
                self.entities@[k].rule.width as int,
                self.entities@[k].rule.height as int,
                self.directions@[j].1 as int,
            ) by {
                assert(!self.clash(i, j));
            }
        }
        true
    }

    /// Whether every token of a placement means one thing, which the promises on
    /// blueprints ask of a grammar.
    pub fn unambiguous(&self) -> (r: bool)
        ensures
            r == (self.fields_apart() && self.directions_agree()),
    {
        self.is_ordered() && self.entity_marker != self.blueprint_end && are_distinct(&self.xs)
            && are_distinct(&self.ys) && self.do_directions_agree()
    }
}

/// No two pairs share a token.
pub open spec fn distinct(values: Seq<(u16, u8)>) -> bool {
    forall|i: int, j: int|
        0 <= i < j < values.len() ==> (#[trigger] values[i]).0 != (#[trigger] values[j]).0
}

/// Some token stands for `value`.
pub open spec fn names(values: Seq<(u16, u8)>, value: int) -> bool {
    exists|i: int| 0 <= i < values.len() && (#[trigger] values[i]).1 == value
}

/// The footprint of an entity that faces `direction`.
pub fn footprint(rule: &Rule, direction: u8) -> (r: (u8, u8))
    ensures
        (r.0 as int, r.1 as int) == extent(
            rule.width as int,
            rule.height as int,
            direction as int,
        ),
{
    if (direction == 2 || direction == 6) && rule.width != rule.height {
        (rule.height, rule.width)
    } else {
        (rule.width, rule.height)
    }
}

proof fn fits_two_ways(p: Progress, w: int, h: int, x: int, y: int)
    ensures
        p.fits_at(w, h, x, y) == (p.fits(w, h, x, y, 0) || p.fits(w, h, x, y, 2)),
        p.fits_at(w, h, x, y) == p.fits_at(h, w, x, y),
{
    assert(p.fits(w, h, x, y, 0) == p.fits(h, w, x, y, 2));
    assert(p.fits(w, h, x, y, 2) == p.fits(h, w, x, y, 0));
    if p.fits_at(w, h, x, y) {
        let d = choose|d: int| 0 <= d < 8 && #[trigger] p.fits(w, h, x, y, d);
        assert(p.fits(w, h, x, y, if d == 2 || d == 6 { 2 } else { 0 }));
    }
    if p.fits_at(h, w, x, y) {
        let d = choose|d: int| 0 <= d < 8 && #[trigger] p.fits(h, w, x, y, d);
        assert(p.fits(h, w, x, y, if d == 2 || d == 6 { 2 } else { 0 }));
    }
}

impl<'a> Decoder<'a> {
    /// The rule of the entity being placed.
    fn rule(&self) -> (r: &Rule)
        requires
            self.current is Some,
            rule_of(self.grammar.entities@, self.current->0) is Some,
        ensures
            *r == self@.rule(*self.grammar),
    {
        let id = self.current.unwrap();
        let n = self.grammar.entities.len();
        let mut i: usize = 0;
        assert(self.grammar.entities@.skip(0) =~= self.grammar.entities@);
        while i < n
            invariant
                n == self.grammar.entities.len(),
                i <= n,
                rule_of(self.grammar.entities@, id) is Some,
                rule_of(self.grammar.entities@, id) == rule_of(
                    self.grammar.entities@.skip(i as int),
                    id,
                ),
                self.current == Some(id),
            decreases n - i,
        {
            if self.grammar.entities[i].id == id {
                return &self.grammar.entities[i].rule;
            }
            assert(self.grammar.entities@.skip(i as int).drop_first()
                =~= self.grammar.entities@.skip(i + 1));
            i = i + 1;
        }
        assert(false);
        &self.grammar.entities[0].rule
    }

    fn rule_fits(&self, rule: &Rule, x: u8, y: u8, direction: u8) -> (r: bool)
        requires
            self.width <= 64,
            self.height <= 64,
        ensures
            r == self@.fits(
                rule.width as int,
                rule.height as int,
                x as int,
                y as int,
                direction as int,
            ),
    {
        let (width, height) = footprint(rule, direction);
        if x as u32 + width as u32 > self.width as u32 || y as u32 + height as u32 > self.height as u32 {
            return false;
        }
        let mut xx: u8 = x;
        while xx < x + width
            invariant
                x <= xx <= x + width,
                x + width <= self.width <= 64,
                y + height <= self.height <= 64,
                area(x as int, y as int, xx - x, height as int).disjoint(self@.occupied),
                (width as int, height as int) == extent(
                    rule.width as int,
                    rule.height as int,
                    direction as int,
                ),
            decreases x + width - xx,
        {
            let mut yy: u8 = y;
            while yy < y + height
                invariant
                    x <= xx < x + width,
                    y <= yy <= y + height,
                    x + width <= self.width <= 64,
                    y + height <= self.height <= 64,
                    area(x as int, y as int, xx - x, height as int).disjoint(self@.occupied),
                    area(xx as int, y as int, 1, yy - y).disjoint(self@.occupied),
                    (width as int, height as int) == extent(
                        rule.width as int,
                        rule.height as int,
                        direction as int,
                    ),
                decreases y + height - yy,
            {
                let key: u16 = xx as u16 * 256 + yy as u16;
                assert(key == cell_key(xx as int, yy as int));
                assert(self@.occupied.contains((xx as int, yy as int))
                    == self.occupied@.contains(key));
                if self.occupied.contains(&key) {
                    assert(area(x as int, y as int, width as int, height as int).contains(
                        (xx as int, yy as int),
                    ));
                    return false;
                }
                yy = yy + 1;
            }
            xx = xx + 1;
        }
        true
    }

    fn any_direction_fits(&self, rule: &Rule, x: u8, y: u8) -> (r: bool)
        requires
            self.width <= 64,
            self.height <= 64,
        ensures
            r == self@.fits_at(rule.width as int, rule.height as int, x as int, y as int),
    {
        proof {
            fits_two_ways(self@, rule.width as int, rule.height as int, x as int, y as int);
            if rule.width == rule.height {
                assert(self@.fits(rule.width as int, rule.height as int, x as int, y as int, 0)
                    == self@.fits(rule.width as int, rule.height as int, x as int, y as int, 2));
            }
        }
        self.rule_fits(rule, x, y, 0) || (rule.width != rule.height && self.rule_fits(
            rule,
            x,
            y,
            2,
        ))
    }

    /// Whether an entity fits somewhere, the given coordinates held fixed.
    fn position_fits(&self, rule: &Rule, x: Option<u8>, y: Option<u8>) -> (r: bool)
        requires
            self.width <= 64,
            self.height <= 64,
        ensures
            r == self@.position_fits(*rule, x, y),
    {
        let (x0, x1): (u16, u16) = match x {
            Some(value) => (value as u16, value as u16 + 1),
            None => (0, self.width as u16),
        };
        let (y0, y1): (u16, u16) = match y {
            Some(value) => (value as u16, value as u16 + 1),
            None => (0, self.height as u16),
        };
        let mut xx: u16 = x0;
        while xx < x1
            invariant
                self.width <= 64,
                self.height <= 64,
                x1 <= 256,
                y1 <= 256,
                x0 <= xx <= x1,
                match x {
                    Some(v) => x0 == v && x1 == v + 1,
                    None => x0 == 0 && x1 == self.width,
                },
                match y {
                    Some(v) => y0 == v && y1 == v + 1,
                    None => y0 == 0 && y1 == self.height,
                },
                forall|a: int, b: int|
                    x0 <= a < xx && y0 <= b < y1 ==> !#[trigger] self@.fits_at(
                        rule.width as int,
                        rule.height as int,
                        a,
                        b,
                    ),
            decreases x1 - xx,
        {
            let mut yy: u16 = y0;
            while yy < y1
                invariant
                    self.width <= 64,
                    self.height <= 64,
                    x1 <= 256,
                    y1 <= 256,
                    x0 <= xx < x1,
                    y0 <= yy <= y1,
                    match x {
                        Some(v) => x0 == v && x1 == v + 1,
                        None => x0 == 0 && x1 == self.width,
                    },
                    match y {
                        Some(v) => y0 == v && y1 == v + 1,
                        None => y0 == 0 && y1 == self.height,
                    },
                    forall|b: int|
                        y0 <= b < yy ==> !#[trigger] self@.fits_at(
                            rule.width as int,
                            rule.height as int,
                            xx as int,
                            b,
                        ),
                decreases y1 - yy,
            {
                if self.any_direction_fits(rule, xx as u8, yy as u8) {
                    return true;
                }
                yy = yy + 1;
            }
            xx = xx + 1;
        }
        false
    }

    /// Whether an entity of this shape fits somewhere in the zone. A shape
    /// fits wherever the same shape on its side does, so `shapes` holds each
    /// of them once.
    fn shape_fits(&self, rule: &Rule, shapes: &mut Vec<(u8, u8, bool)>) -> (r: bool)
        requires
            self.width <= 64,
            self.height <= 64,
            forall|i: int|
                0 <= i < old(shapes).len() ==> #[trigger] old(shapes)[i].2 == self@.shape_fits(
                    old(shapes)[i].0 as int,
                    old(shapes)[i].1 as int,
                ),
        ensures
            r == self@.position_fits(*rule, None, None),
            forall|i: int|
                0 <= i < final(shapes).len() ==> #[trigger] final(shapes)[i].2
                    == self@.shape_fits(final(shapes)[i].0 as int, final(shapes)[i].1 as int),
    {
        let (small, large) = if rule.width <= rule.height {
            (rule.width, rule.height)
        } else {
            (rule.height, rule.width)
        };
        proof {
            shape_turns(self@, rule.width as int, rule.height as int);
            position_is_shape(self@, *rule);
        }
        let mut i: usize = 0;
        while i < shapes.len()
            invariant
                i <= shapes.len(),
                *shapes == *old(shapes),
                forall|i: int|
                    0 <= i < shapes.len() ==> #[trigger] shapes[i].2 == self@.shape_fits(
                        shapes[i].0 as int,
                        shapes[i].1 as int,
                    ),
                self@.shape_fits(small as int, large as int) == self@.position_fits(
                    *rule,
                    None,
                    None,
                ),
            decreases shapes.len() - i,
        {
            if shapes[i].0 == small && shapes[i].1 == large {
                return shapes[i].2;
            }
            i = i + 1;
        }
        let fits = self.position_fits(rule, None, None);
        shapes.push((small, large, fits));
        fits
    }

    /// The entities that fit somewhere, in the order of their tokens.
    fn fitting_entities(&self) -> (out: Vec<u16>)
        requires
            self.width <= 64,
            self.height <= 64,
        ensures
            out@ == self@.fitting(self.grammar.entities@),
    {
        // The prototype table has hundreds of names but only a handful of
        // footprints. Test each rectangular shape once per boundary token.
        let mut shapes: Vec<(u8, u8, bool)> = Vec::new();
        let mut out: Vec<u16> = Vec::new();
        let entities = &self.grammar.entities;
        let mut i: usize = 0;
        while i < entities.len()
            invariant
                self.width <= 64,
                self.height <= 64,
                *entities == self.grammar.entities,
                i <= entities.len(),
                out@ == self@.fitting(entities@.take(i as int)),
                forall|i: int|
                    0 <= i < shapes.len() ==> #[trigger] shapes[i].2 == self@.shape_fits(
                        shapes[i].0 as int,
                        shapes[i].1 as int,
                    ),
            decreases entities.len() - i,
        {
            assert(entities@.take(i + 1).drop_last() =~= entities@.take(i as int));
            if self.shape_fits(&entities[i].rule, &mut shapes) {
                out.push(entities[i].id);
            }
            i = i + 1;
        }
        assert(entities@.take(i as int) =~= entities@);
        out
    }

    /// The tokens that may follow.
    pub fn allowed(&self) -> (out: Vec<u16>)
        requires
            self@.well_formed(*self.grammar),
        ensures
            out@ == self@.allowed(*self.grammar),
    {
        match self.state {
            State::Boundary => {
                let mut out: Vec<u16> = Vec::new();
                if self.fitting_entities().len() > 0 {
                    out.push(self.grammar.entity_marker);
                }
                if self.placed > 0 {
                    out.push(self.grammar.blueprint_end);
                }
                assert(out@ =~= self@.allowed(*self.grammar));
                out
            },
            State::Entity => self.fitting_entities(),
            State::X => self.allowed_xs(),
            State::Y => self.allowed_ys(),
            State::Direction => self.allowed_directions(),
            State::Recipe => tokens(&self.rule().recipes),
            State::Flow => tokens(&self.grammar.flows),
            State::Done => {
                let out: Vec<u16> = vec![self.grammar.eos];
                assert(out@ =~= self@.allowed(*self.grammar));
                out
            },
        }
    }

    fn allowed_xs(&self) -> (out: Vec<u16>)
        requires
            self.state is X,
            self@.well_formed(*self.grammar),
        ensures
            out@ == self@.allowed(*self.grammar),
    {
        let rule = self.rule();
        let values = &self.grammar.xs;
        let mut out: Vec<u16> = Vec::new();
        let mut i: usize = 0;
        while i < values.len()
            invariant
                self@.well_formed(*self.grammar),
                *values == self.grammar.xs,
                *rule == self@.rule(*self.grammar),
                i <= values.len(),
                out@ == keep(values@.take(i as int), self@.x_fits(*self.grammar)),
            decreases values.len() - i,
        {
            assert(values@.take(i + 1).drop_last() =~= values@.take(i as int));
            if self.position_fits(rule, Some(values[i].1), None) {
                out.push(values[i].0);
            }
            i = i + 1;
        }
        assert(values@.take(i as int) =~= values@);
        out
    }

    fn allowed_ys(&self) -> (out: Vec<u16>)
        requires
            self.state is Y,
            self@.well_formed(*self.grammar),
        ensures
            out@ == self@.allowed(*self.grammar),
    {
        let rule = self.rule();
        let values = &self.grammar.ys;
        let mut out: Vec<u16> = Vec::new();
        let mut i: usize = 0;
        while i < values.len()
            invariant
                self@.well_formed(*self.grammar),
                *values == self.grammar.ys,
                *rule == self@.rule(*self.grammar),
                i <= values.len(),
                out@ == keep(values@.take(i as int), self@.y_fits(*self.grammar)),
            decreases values.len() - i,
        {
            assert(values@.take(i + 1).drop_last() =~= values@.take(i as int));
            if self.position_fits(rule, self.x, Some(values[i].1)) {
                out.push(values[i].0);
            }
            i = i + 1;
        }
        assert(values@.take(i as int) =~= values@);
        out
    }

    fn allowed_directions(&self) -> (out: Vec<u16>)
        requires
            self.state is Direction,
            self@.well_formed(*self.grammar),
        ensures
            out@ == self@.allowed(*self.grammar),
    {
        let rule = self.rule();
        let x = self.x.unwrap();
        let y = self.y.unwrap();
        let values = &self.grammar.directions;
        let mut out: Vec<u16> = Vec::new();
        let mut i: usize = 0;
        while i < values.len()
            invariant
                self@.well_formed(*self.grammar),
                self.x == Some(x),
                self.y == Some(y),
                *values == self.grammar.directions,
                *rule == self@.rule(*self.grammar),
                i <= values.len(),
                out@ == keep(values@.take(i as int), self@.direction_fits(*self.grammar)),
            decreases values.len() - i,
        {
            assert(values@.take(i + 1).drop_last() =~= values@.take(i as int));
            if self.rule_fits(rule, x, y, values[i].1) {
                out.push(values[i].0);
            }
            i = i + 1;
        }
        assert(values@.take(i as int) =~= values@);
        out
    }

    /// Whether `token` may follow, with what it places inside the reach of the
    /// coordinates.
    pub fn accepts(&self, token: u16) -> (r: bool)
        requires
            self@.well_formed(*self.grammar),
        ensures
            r == self@.accepts(*self.grammar, token),
    {
        let allowed = self.allowed();
        let mut found = false;
        let mut i: usize = 0;
        while i < allowed.len()
            invariant
                i <= allowed.len(),
                found == allowed@.take(i as int).contains(token),
            decreases allowed.len() - i,
        {
            let ghost before = allowed@.take(i as int);
            assert(allowed@.take(i + 1) =~= before.push(allowed@[i as int]));
            if allowed[i] == token {
                assert(allowed@.take(i + 1)[i as int] == token);
                found = true;
            } else {
                assert(found ==> allowed@.take(i + 1).contains(token)) by {
                    if found {
                        let k = before.index_of(token);
                        assert(allowed@.take(i + 1)[k] == token);
                    }
                }
            }
            i = i + 1;
        }
        assert(allowed@.take(i as int) =~= allowed@);
        if !found {
            return false;
        }
        if self.state == State::Direction {
            proof {
                keep_has_value(
                    self.grammar.directions@,
                    self@.direction_fits(*self.grammar),
                    token,
                );
            }
            let direction = value(&self.grammar.directions, token).unwrap();
            let (width, height) = footprint(self.rule(), direction);
            self.x.unwrap() as u32 + width as u32 <= 255 && self.y.unwrap() as u32 + height as u32
                <= 255 && self.placed < usize::MAX
        } else {
            true
        }
    }

    /// Take up the cells of the entity that faces `direction`.
    fn reserve(&mut self, direction: u8)
        requires
            old(self)@.well_formed(*old(self).grammar),
            old(self).state is Direction,
            old(self).x->0 + extent(
                old(self)@.rule(*old(self).grammar).width as int,
                old(self)@.rule(*old(self).grammar).height as int,
                direction as int,
            ).0 <= 255,
            old(self).y->0 + extent(
                old(self)@.rule(*old(self).grammar).width as int,
                old(self)@.rule(*old(self).grammar).height as int,
                direction as int,
            ).1 <= 255,
        ensures
            final(self).grammar == old(self).grammar,
            final(self)@ == ({
                let e = extent(
                    old(self)@.rule(*old(self).grammar).width as int,
                    old(self)@.rule(*old(self).grammar).height as int,
                    direction as int,
                );
                Progress {
                    x: None,
                    y: None,
                    occupied: old(self)@.occupied.union(
                        area(old(self).x->0 as int, old(self).y->0 as int, e.0, e.1),
                    ),
                    ..old(self)@
                }
            }),
    {
        let x = self.x.unwrap();
        let y = self.y.unwrap();
        let (width, height) = footprint(self.rule(), direction);
        let ghost before = *self;
        let mut xx: u8 = x;
        while xx < x + width
            invariant
                x <= xx <= x + width <= 255,
                y + height <= 255,
                *self == (Decoder { occupied: self.occupied, ..before }),
                cells(self.occupied@) =~= cells(before.occupied@).union(
                    area(x as int, y as int, xx - x, height as int),
                ),
            decreases x + width - xx,
        {
            let mut yy: u8 = y;
            while yy < y + height
                invariant
                    x <= xx < x + width <= 255,
                    y <= yy <= y + height <= 255,
                    *self == (Decoder { occupied: self.occupied, ..before }),
                    cells(self.occupied@) =~= cells(before.occupied@).union(
                        area(x as int, y as int, xx - x, height as int),
                    ).union(area(xx as int, y as int, 1, yy - y)),
                decreases y + height - yy,
            {
                let key: u16 = xx as u16 * 256 + yy as u16;
                let ghost keys = self.occupied@;
                self.occupied.insert(key);
                proof {
                    assert(key == cell_key(xx as int, yy as int));
                    assert(cells(self.occupied@) =~= cells(keys).insert((xx as int, yy as int)));
                }
                yy = yy + 1;
            }
            xx = xx + 1;
        }
        self.x = None;
        self.y = None;
        assert(self@.occupied =~= cells(before.occupied@).union(
            area(x as int, y as int, width as int, height as int),
        ));
    }

    /// Take `token` in.
    pub fn advance(&mut self, token: u16)
        requires
            old(self)@.well_formed(*old(self).grammar),
            old(self)@.accepts(*old(self).grammar, token),
        ensures
            final(self).grammar == old(self).grammar,
            final(self)@ == old(self)@.after(*old(self).grammar, token),
            final(self)@.well_formed(*final(self).grammar),
    {
        let grammar = self.grammar;
        proof {
            keep_has_value(grammar.xs@, self@.x_fits(*grammar), token);
            keep_has_value(grammar.ys@, self@.y_fits(*grammar), token);
            keep_has_value(grammar.directions@, self@.direction_fits(*grammar), token);
            fitting_has_rule(self@, grammar.entities@, token);
        }
        match self.state {
            State::Boundary => {
                if token == grammar.entity_marker {
                    self.state = State::Entity;
                } else {
                    self.state = State::Done;
                }
            },
            State::Entity => {
                self.current = Some(token);
                self.state = State::X;
            },
            State::X => {
                self.x = value(&grammar.xs, token);
                self.state = State::Y;
            },
            State::Y => {
                self.y = value(&grammar.ys, token);
                self.state = State::Direction;
            },
            State::Direction => {
                let direction = value(&grammar.directions, token).unwrap();
                let recipes = self.rule().recipes.len() > 0;
                let flow = self.rule().flow;
                self.reserve(direction);
                self.placed = self.placed + 1;
                self.state = if recipes {
                    State::Recipe
                } else if flow {
                    State::Flow
                } else {
                    State::Boundary
                };
            },
            State::Recipe => {
                self.state = if self.rule().flow {
                    State::Flow
                } else {
                    State::Boundary
                };
            },
            State::Flow => {
                self.state = State::Boundary;
            },
            State::Done => {},
        }
    }
}

impl Progress {
    /// Some token can still complete the entity that was begun.
    pub open spec fn live(self, grammar: Grammar) -> bool {
        match self.state {
            State::Entity => self.fitting(grammar.entities@).len() > 0,
            State::X => self.position_fits(self.rule(grammar), None, None),
            State::Y => self.position_fits(self.rule(grammar), self.x, None),
            State::Direction => self.fits_at(
                self.rule(grammar).width as int,
                self.rule(grammar).height as int,
                self.x->0 as int,
                self.y->0 as int,
            ),
            State::Recipe => self.rule(grammar).recipes@.len() > 0,
            _ => true,
        }
    }

    /// Every occupied cell lies in the zone.
    pub open spec fn in_zone(self) -> bool {
        self.occupied.subset_of(area(0, 0, self.width, self.height))
    }
}

proof fn rule_is_stated(entities: Seq<Entity>, id: u16)
    requires
        rule_of(entities, id) is Some,
    ensures
        exists|k: int|
            0 <= k < entities.len() && Some((#[trigger] entities[k]).rule) == rule_of(entities, id),
    decreases entities.len(),
{
    if entities[0].id != id {
        let rest = entities.drop_first();
        rule_is_stated(rest, id);
        let k = choose|k: int|
            0 <= k < rest.len() && Some((#[trigger] rest[k]).rule) == rule_of(rest, id);
        assert(entities[k + 1] == rest[k]);
    }
}

proof fn value_is_stated(values: Seq<(u16, u8)>, token: u16)
    requires
        value_of(values, token) is Some,
    ensures
        exists|i: int|
            0 <= i < values.len() && (#[trigger] values[i]).0 == token && Some(values[i].1)
                == value_of(values, token),
    decreases values.len(),
{
    if values[0].0 != token {
        let rest = values.drop_first();
        value_is_stated(rest, token);
        let i = choose|i: int|
            0 <= i < rest.len() && (#[trigger] rest[i]).0 == token && Some(rest[i].1) == value_of(
                rest,
                token,
            );
        assert(values[i + 1] == rest[i]);
    }
}

proof fn allowed_directions_fit(grammar: Grammar, p: Progress, token: u16)
    requires
        grammar.directions_agree(),
        p.well_formed(grammar),
        p.state is Direction,
        p.allowed(grammar).contains(token),
    ensures
        p.fits(
            p.rule(grammar).width as int,
            p.rule(grammar).height as int,
            p.x->0 as int,
            p.y->0 as int,
            value_of(grammar.directions@, token)->0 as int,
        ),
{
    let ok = p.direction_fits(grammar);
    let values = grammar.directions@;
    let entities = grammar.entities@;
    keep_witness(values, ok, token);
    let i = choose|i: int|
        0 <= i < values.len() && (#[trigger] values[i]).0 == token && ok(values[i].1);
    value_found(values, i);
    value_is_stated(values, token);
    let j = choose|j: int|
        0 <= j < values.len() && (#[trigger] values[j]).0 == token && Some(values[j].1) == value_of(
            values,
            token,
        );
    rule_is_stated(entities, p.current->0);
    let k = choose|k: int|
        0 <= k < entities.len() && Some((#[trigger] entities[k]).rule) == rule_of(
            entities,
            p.current->0,
        );
    assert(entities[k].rule == p.rule(grammar));
    assert(values[i].0 == values[j].0);
}

/// An allowed direction places its entity inside the zone, on cells that were
/// free; no other token changes what is occupied.
pub proof fn placements_stay_apart(grammar: Grammar, p: Progress, token: u16)
    requires
        grammar.directions_agree(),
        p.well_formed(grammar),
        p.in_zone(),
        p.allowed(grammar).contains(token),
    ensures
        p.after(grammar, token).in_zone(),
        p.state is Direction ==> {
            &&& p.footprint(grammar, token).disjoint(p.occupied)
            &&& p.footprint(grammar, token).subset_of(area(0, 0, p.width, p.height))
            &&& p.after(grammar, token).occupied == p.occupied.union(p.footprint(grammar, token))
        },
        !(p.state is Direction) ==> p.after(grammar, token).occupied == p.occupied,
{
    if p.state is Direction {
        allowed_directions_fit(grammar, p, token);
    }
}

/// While fewer entities stand than can be counted, the decoder takes in every
/// token that it allows.
pub proof fn allowed_is_accepted(grammar: Grammar, p: Progress, token: u16)
    requires
        grammar.directions_agree(),
        p.well_formed(grammar),
        p.allowed(grammar).contains(token),
        p.placed < usize::MAX,
    ensures
        p.accepts(grammar, token),
{
    if p.state is Direction {
        allowed_directions_fit(grammar, p, token);
    }
}

/// An entity that was begun can be completed: whatever token was taken in, some
/// token may follow.
pub proof fn begun_entities_complete(grammar: Grammar, p: Progress, token: u16)
    requires
        grammar.fields_apart(),
        p.well_formed(grammar),
        p.live(grammar),
        p.allowed(grammar).contains(token),
    ensures
        p.after(grammar, token).live(grammar),
{
    let after = p.after(grammar, token);
    match p.state {
        State::Entity => {
            fitting_witness(p, grammar.entities@, token);
            let i = choose|i: int|
                0 <= i < grammar.entities@.len() && (#[trigger] grammar.entities@[i]).id == token
                    && p.position_fits(grammar.entities@[i].rule, None, None);
            rule_is(grammar.entities@, i);
            same_zone(p, after, after.rule(grammar), None, None);
        },
        State::X => {
            let ok = p.x_fits(grammar);
            let values = grammar.xs@;
            keep_witness(values, ok, token);
            let i = choose|i: int|
                0 <= i < values.len() && (#[trigger] values[i]).0 == token && ok(values[i].1);
            value_is(values, i);
            same_zone(p, after, p.rule(grammar), Some(values[i].1), None);
        },
        State::Y => {
            let ok = p.y_fits(grammar);
            let values = grammar.ys@;
            keep_witness(values, ok, token);
            let i = choose|i: int|
                0 <= i < values.len() && (#[trigger] values[i]).0 == token && ok(values[i].1);
            value_is(values, i);
            same_zone(p, after, p.rule(grammar), p.x, Some(values[i].1));
        },
        State::Boundary => {
            if token == grammar.entity_marker {
                same_fitting(p, after, grammar.entities@);
            }
        },
        _ => {},
    }
}

proof fn same_zone(p: Progress, q: Progress, rule: Rule, x: Option<u8>, y: Option<u8>)
    requires
        p.width == q.width,
        p.height == q.height,
        p.occupied == q.occupied,
    ensures
        p.position_fits(rule, x, y) == q.position_fits(rule, x, y),
{
    assert forall|a: int, b: int|
        #[trigger] p.fits_at(rule.width as int, rule.height as int, a, b) == q.fits_at(
            rule.width as int,
            rule.height as int,
            a,
            b,
        ) by {
        fits_two_ways(p, rule.width as int, rule.height as int, a, b);
        fits_two_ways(q, rule.width as int, rule.height as int, a, b);
    }
    assert forall|a: int, b: int|
        #[trigger] q.fits_at(rule.width as int, rule.height as int, a, b) == p.fits_at(
            rule.width as int,
            rule.height as int,
            a,
            b,
        ) by {
        fits_two_ways(p, rule.width as int, rule.height as int, a, b);
        fits_two_ways(q, rule.width as int, rule.height as int, a, b);
    }
}

proof fn same_fitting(p: Progress, q: Progress, entities: Seq<Entity>)
    requires
        p.width == q.width,
        p.height == q.height,
        p.occupied == q.occupied,
    ensures
        p.fitting(entities) == q.fitting(entities),
    decreases entities.len(),
{
    if entities.len() > 0 {
        same_zone(p, q, entities.last().rule, None, None);
        same_fitting(p, q, entities.drop_last());
    }
}

/// Nothing but a fresh zone in which no entity fits leaves a decoder without a
/// token to go on with.
pub proof fn something_may_follow(grammar: Grammar, p: Progress)
    requires
        grammar.complete(),
        p.well_formed(grammar),
        p.live(grammar),
    ensures
        p.allowed(grammar).len() == 0 <==> p.state is Boundary && p.placed == 0 && p.fitting(
            grammar.entities@,
        ).len() == 0,
{
    match p.state {
        State::X => {
            let rule = p.rule(grammar);
            let (a, b) = choose|a: int, b: int|
                0 <= a < p.width && 0 <= b < p.height && #[trigger] p.fits_at(
                    rule.width as int,
                    rule.height as int,
                    a,
                    b,
                );
            assert(names(grammar.xs@, a));
            let i = choose|i: int| 0 <= i < grammar.xs@.len() && (#[trigger] grammar.xs@[i]).1 == a;
            assert(p.x_fits(grammar)(grammar.xs@[i].1));
            keep_witness(grammar.xs@, p.x_fits(grammar), grammar.xs@[i].0);
        },
        State::Y => {
            let rule = p.rule(grammar);
            let b = choose|b: int|
                0 <= b < p.height && #[trigger] p.fits_at(
                    rule.width as int,
                    rule.height as int,
                    p.x->0 as int,
                    b,
                );
            assert(names(grammar.ys@, b));
            let i = choose|i: int| 0 <= i < grammar.ys@.len() && (#[trigger] grammar.ys@[i]).1 == b;
            assert(p.y_fits(grammar)(grammar.ys@[i].1));
            keep_witness(grammar.ys@, p.y_fits(grammar), grammar.ys@[i].0);
        },
        State::Direction => {
            let rule = p.rule(grammar);
            let d = choose|d: int|
                0 <= d < 8 && #[trigger] p.fits(
                    rule.width as int,
                    rule.height as int,
                    p.x->0 as int,
                    p.y->0 as int,
                    d,
                );
            assert(names(grammar.directions@, d));
            let i = choose|i: int|
                0 <= i < grammar.directions@.len() && (#[trigger] grammar.directions@[i]).1 == d;
            assert(p.direction_fits(grammar)(grammar.directions@[i].1));
            keep_witness(
                grammar.directions@,
                p.direction_fits(grammar),
                grammar.directions@[i].0,
            );
        },
        _ => {},
    }
}

/// The value that `token` stands for.
fn value(values: &Vec<(u16, u8)>, token: u16) -> (r: Option<u8>)
    ensures
        r == value_of(values@, token),
{
    let mut i: usize = 0;
    assert(values@.skip(0) =~= values@);
    while i < values.len()
        invariant
            i <= values.len(),
            value_of(values@, token) == value_of(values@.skip(i as int), token),
        decreases values.len() - i,
    {
        if values[i].0 == token {
            return Some(values[i].1);
        }
        assert(values@.skip(i as int).drop_first() =~= values@.skip(i + 1));
        i = i + 1;
    }
    None
}

/// The same tokens once more.
fn tokens(values: &Vec<u16>) -> (out: Vec<u16>)
    ensures
        out@ == values@,
{
    let mut out: Vec<u16> = Vec::new();
    out.extend_from_slice(values.as_slice());
    assert(out@ =~= values@);
    out
}

proof fn position_is_shape(p: Progress, rule: Rule)
    ensures
        p.position_fits(rule, None, None) == p.shape_fits(rule.width as int, rule.height as int),
{
}

proof fn shape_turns(p: Progress, w: int, h: int)
    ensures
        p.shape_fits(w, h) == p.shape_fits(h, w),
{
    if p.shape_fits(w, h) {
        let (x, y) = choose|x: int, y: int|
            0 <= x < p.width && 0 <= y < p.height && #[trigger] p.fits_at(w, h, x, y);
        fits_two_ways(p, w, h, x, y);
    }
    if p.shape_fits(h, w) {
        let (x, y) = choose|x: int, y: int|
            0 <= x < p.width && 0 <= y < p.height && #[trigger] p.fits_at(h, w, x, y);
        fits_two_ways(p, h, w, x, y);
    }
}

proof fn value_found(values: Seq<(u16, u8)>, i: int)
    requires
        0 <= i < values.len(),
    ensures
        value_of(values, values[i].0) is Some,
    decreases values.len(),
{
    if values[0].0 != values[i].0 {
        value_found(values.drop_first(), i - 1);
    }
}

proof fn value_is(values: Seq<(u16, u8)>, i: int)
    requires
        0 <= i < values.len(),
        distinct(values),
    ensures
        value_of(values, values[i].0) == Some(values[i].1),
    decreases values.len(),
{
    if i > 0 {
        let rest = values.drop_first();
        assert forall|a: int, b: int| 0 <= a < b < rest.len() implies (#[trigger] rest[a]).0 != (
        #[trigger] rest[b]).0 by {
            assert(values[a + 1].0 != values[b + 1].0);
        }
        assert(values[0].0 != values[i].0);
        value_is(rest, i - 1);
    }
}

proof fn rule_is(entities: Seq<Entity>, i: int)
    requires
        0 <= i < entities.len(),
        forall|i: int, j: int|
            0 <= i < j < entities.len() ==> (#[trigger] entities[i]).id < (
            #[trigger] entities[j]).id,
    ensures
        rule_of(entities, entities[i].id) == Some(entities[i].rule),
    decreases entities.len(),
{
    if i > 0 {
        let rest = entities.drop_first();
        assert forall|a: int, b: int| 0 <= a < b < rest.len() implies (#[trigger] rest[a]).id < (
        #[trigger] rest[b]).id by {
            assert(entities[a + 1].id < entities[b + 1].id);
        }
        assert(entities[0].id < entities[i].id);
        rule_is(rest, i - 1);
    }
}

proof fn keep_witness(values: Seq<(u16, u8)>, ok: spec_fn(u8) -> bool, token: u16)
    ensures
        keep(values, ok).contains(token) <==> exists|i: int|
            0 <= i < values.len() && (#[trigger] values[i]).0 == token && ok(values[i].1),
    decreases values.len(),
{
    if values.len() > 0 {
        let rest = values.drop_last();
        keep_witness(rest, ok, token);
        let kept = keep(rest, ok);
        if keep(values, ok).contains(token) {
            let k = choose|k: int| 0 <= k < keep(values, ok).len() && keep(values, ok)[k] == token;
            if k < kept.len() {
                assert(kept[k] == token);
                let i = choose|i: int|
                    0 <= i < rest.len() && (#[trigger] rest[i]).0 == token && ok(rest[i].1);
                assert(values[i].0 == token);
            } else {
                assert(values[values.len() - 1].0 == token);
            }
        }
        if exists|i: int|
            0 <= i < values.len() && (#[trigger] values[i]).0 == token && ok(values[i].1) {
            let i = choose|i: int|
                0 <= i < values.len() && (#[trigger] values[i]).0 == token && ok(values[i].1);
            if i < rest.len() {
                assert(rest[i].0 == token);
                let k = choose|k: int| 0 <= k < kept.len() && kept[k] == token;
                assert(keep(values, ok)[k] == token);
            } else {
                assert(keep(values, ok)[kept.len() as int] == token);
            }
        }
    }
}

proof fn keep_has_value(values: Seq<(u16, u8)>, ok: spec_fn(u8) -> bool, token: u16)
    ensures
        keep(values, ok).contains(token) ==> value_of(values, token) is Some,
{
    if keep(values, ok).contains(token) {
        keep_witness(values, ok, token);
        let i = choose|i: int|
            0 <= i < values.len() && (#[trigger] values[i]).0 == token && ok(values[i].1);
        value_found(values, i);
    }
}

proof fn rule_found(entities: Seq<Entity>, i: int)
    requires
        0 <= i < entities.len(),
    ensures
        rule_of(entities, entities[i].id) is Some,
    decreases entities.len(),
{
    if entities[0].id != entities[i].id {
        rule_found(entities.drop_first(), i - 1);
    }
}

proof fn fitting_witness(p: Progress, entities: Seq<Entity>, token: u16)
    requires
        p.fitting(entities).contains(token),
    ensures
        exists|i: int|
            0 <= i < entities.len() && (#[trigger] entities[i]).id == token && p.position_fits(
                entities[i].rule,
                None,
                None,
            ),
    decreases entities.len(),
{
    if entities.len() > 0 {
        let rest = entities.drop_last();
        let k = choose|k: int| 0 <= k < p.fitting(entities).len() && p.fitting(entities)[k] == token;
        if k < p.fitting(rest).len() {
            assert(p.fitting(rest)[k] == token);
            fitting_witness(p, rest, token);
            let i = choose|i: int|
                0 <= i < rest.len() && (#[trigger] rest[i]).id == token && p.position_fits(
                    rest[i].rule,
                    None,
                    None,
                );
            assert(entities[i].id == token);
        } else {
            assert(entities[entities.len() - 1].id == token);
        }
    }
}

proof fn fitting_has_rule(p: Progress, entities: Seq<Entity>, token: u16)
    ensures
        p.fitting(entities).contains(token) ==> rule_of(entities, token) is Some,
{
    if p.fitting(entities).contains(token) {
        fitting_witness(p, entities, token);
        let i = choose|i: int|
            0 <= i < entities.len() && (#[trigger] entities[i]).id == token && p.position_fits(
                entities[i].rule,
                None,
                None,
            );
        rule_found(entities, i);
    }
}

/// What a schema says of one kind of entity.
pub struct EntitySchema {
    pub name: String,
    pub width: u8,
    pub height: u8,
    pub recipes: Vec<String>,
    pub flow: bool,
}

/// A constraint schema, its entities by name.
pub struct Schema {
    pub version: String,
    pub entities: Vec<EntitySchema>,
}

/// The version of the schemas that can be compiled.
pub const VERSION: &'static str = "factorio-v1";

/// Why a schema cannot be compiled.
#[derive(Debug)]
pub enum GrammarError {
    /// The schema has this version, which is another one.
    Version(String),
    /// The tokenizer has no such token.
    Absent(String),
}

impl GrammarError {
    /// The error in words.
    pub open spec fn words(self) -> Seq<char> {
        match self {
            GrammarError::Version(version) => "unsupported constraint schema "@
                + text::quotation(version@),
            GrammarError::Absent(token) => "constraint token "@ + text::quotation(token@)
                + " is absent from the tokenizer"@,
        }
    }

    /// The error in words.
    pub fn message(&self) -> (r: String)
        ensures
            r@ == self.words(),
    {
        let mut out = String::new();
        match self {
            GrammarError::Version(version) => {
                out.append("unsupported constraint schema ");
                out.append(text::quoted(version.as_str()).as_str());
            },
            GrammarError::Absent(token) => {
                out.append("constraint token ");
                out.append(text::quoted(token.as_str()).as_str());
                out.append(" is absent from the tokenizer");
            },
        }
        assert(out@ =~= self.words());
        out
    }
}

/// What a compiled rule says, by its values.
pub struct RuleModel {
    pub width: u8,
    pub height: u8,
    pub recipes: Seq<u16>,
    pub flow: bool,
}

/// What a rule says, by its values.
pub open spec fn rule_model(rule: Rule) -> RuleModel {
    RuleModel {
        width: rule.width,
        height: rule.height,
        recipes: rule.recipes@,
        flow: rule.flow,
    }
}

/// The rules of a list of entities by their tokens.
pub open spec fn rules(entities: Seq<Entity>) -> Map<u16, RuleModel> {
    Map::new(
        |id: u16| rule_of(entities, id) is Some,
        |id: u16| rule_model(rule_of(entities, id)->0),
    )
}

/// The ids of a list of token strings.
pub open spec fn resolved(tokenizer: Tokenizer, names: Seq<String>) -> Seq<u16> {
    Seq::new(names.len(), |i: int| tokenizer.id(names[i]@)->0)
}

/// The rules that a schema states, by the tokens of their entities: of two with
/// one token, the last.
pub open spec fn stated_rules(tokenizer: Tokenizer, entities: Seq<EntitySchema>) -> Map<
    u16,
    RuleModel,
>
    decreases entities.len(),
{
    if entities.len() == 0 {
        Map::empty()
    } else {
        let body = entities.last();
        stated_rules(tokenizer, entities.drop_last()).insert(
            tokenizer.id(body.name@)->0,
            RuleModel {
                width: body.width,
                height: body.height,
                recipes: resolved(tokenizer, body.recipes@),
                flow: body.flow,
            },
        )
    }
}

/// The first of `names` that the tokenizer does not know.
pub open spec fn first_missing(tokenizer: Tokenizer, names: Seq<Seq<char>>) -> Option<Seq<char>>
    decreases names.len(),
{
    if names.len() == 0 {
        None
    } else {
        match first_missing(tokenizer, names.drop_last()) {
            Some(name) => Some(name),
            None => if tokenizer.id(names.last()) is None {
                Some(names.last())
            } else {
                None
            },
        }
    }
}

/// The texts of a list of strings.
pub open spec fn texts(names: Seq<String>) -> Seq<Seq<char>> {
    names.map_values(|name: String| name@)
}

/// The tokens that the entities of a schema name: each one's own, then its
/// recipes.
pub open spec fn entity_tokens(entities: Seq<EntitySchema>) -> Seq<Seq<char>>
    decreases entities.len(),
{
    if entities.len() == 0 {
        Seq::empty()
    } else {
        entity_tokens(entities.drop_last()) + seq![entities.last().name@] + texts(
            entities.last().recipes@,
        )
    }
}

/// The token of a number: two digits behind `x` and `y`, one behind `d`.
pub open spec fn number_token(prefix: char, value: nat) -> Seq<char> {
    if prefix == 'd' {
        seq![prefix] + text::decimal(value)
    } else {
        seq![prefix] + text::padded(value, 2)
    }
}

/// The tokens of the numbers below `count`.
pub open spec fn number_tokens(prefix: char, count: nat) -> Seq<Seq<char>> {
    Seq::new(count, |i: int| number_token(prefix, i as nat))
}

/// The numbers below `count`, each with the id of its token.
pub open spec fn numbers(tokenizer: Tokenizer, prefix: char, count: nat) -> Seq<(u16, u8)> {
    Seq::new(count, |i: int| (tokenizer.id(number_token(prefix, i as nat))->0, i as u8))
}

/// Every token that compiling a schema asks for, in order.
pub open spec fn needed(schema: Schema) -> Seq<Seq<char>> {
    entity_tokens(schema.entities@) + seq!["<e>"@, "</bp>"@] + number_tokens('x', 64)
        + number_tokens('y', 64) + number_tokens('d', 8) + seq!["t:input"@, "t:output"@]
}

/// `grammar` is what `schema` compiles into.
pub open spec fn compiles(schema: Schema, tokenizer: Tokenizer, grammar: Grammar) -> bool {
    &&& grammar.well_formed()
    &&& rules(grammar.entities@) == stated_rules(tokenizer, schema.entities@)
    &&& Some(grammar.entity_marker) == tokenizer.id("<e>"@)
    &&& Some(grammar.blueprint_end) == tokenizer.id("</bp>"@)
    &&& grammar.eos == tokenizer.end()
    &&& grammar.xs@ == numbers(tokenizer, 'x', 64)
    &&& grammar.ys@ == numbers(tokenizer, 'y', 64)
    &&& grammar.directions@ == numbers(tokenizer, 'd', 8)
    &&& grammar.flows@ == seq![tokenizer.id("t:input"@)->0, tokenizer.id("t:output"@)->0]
}

proof fn first_missing_concat(tokenizer: Tokenizer, a: Seq<Seq<char>>, b: Seq<Seq<char>>)
    ensures
        first_missing(tokenizer, a + b) == match first_missing(tokenizer, a) {
            Some(name) => Some(name),
            None => first_missing(tokenizer, b),
        },
    decreases b.len(),
{
    if b.len() == 0 {
        assert(a + b =~= a);
    } else {
        first_missing_concat(tokenizer, a, b.drop_last());
        assert((a + b).drop_last() =~= a + b.drop_last());
        assert((a + b).last() == b.last());
    }
}

proof fn nothing_missing(tokenizer: Tokenizer, names: Seq<Seq<char>>, i: int)
    requires
        first_missing(tokenizer, names) is None,
        0 <= i < names.len(),
    ensures
        tokenizer.id(names[i]) is Some,
    decreases names.len(),
{
    if i < names.len() - 1 {
        nothing_missing(tokenizer, names.drop_last(), i);
    }
}

/// The id of a token that has to be there.
fn required(tokenizer: &Tokenizer, token: &str) -> (r: Result<u16, GrammarError>)
    ensures
        match first_missing(*tokenizer, seq![token@]) {
            None => r matches Ok(id) && tokenizer.id(token@) == Some(id),
            Some(name) => r matches Err(GrammarError::Absent(absent)) && absent@ == name,
        },
{
    proof {
        assert(seq![token@].drop_last() =~= Seq::<Seq<char>>::empty());
        assert(seq![token@].last() == token@);
        assert(first_missing(*tokenizer, seq![token@].drop_last()) is None);
    }
    match tokenizer.token_id(token) {
        Some(id) => Ok(id),
        None => Err(GrammarError::Absent(token.to_owned())),
    }
}

fn required_all(tokenizer: &Tokenizer, names: &Vec<String>) -> (r: Result<Vec<u16>, GrammarError>)
    ensures
        match first_missing(*tokenizer, texts(names@)) {
            None => r matches Ok(ids) && ids@ == resolved(*tokenizer, names@),
            Some(name) => r matches Err(GrammarError::Absent(absent)) && absent@ == name,
        },
{
    let mut out: Vec<u16> = Vec::new();
    let mut i: usize = 0;
    while i < names.len()
        invariant
            i <= names.len(),
            first_missing(*tokenizer, texts(names@.take(i as int))) is None,
            out@ == resolved(*tokenizer, names@.take(i as int)),
        decreases names.len() - i,
    {
        proof {
            let done = texts(names@.take(i as int));
            let rest = texts(names@.skip(i + 1));
            let one = seq![names@[i as int]@];
            first_missing_concat(*tokenizer, done, one);
            first_missing_concat(*tokenizer, done + one, rest);
            assert(texts(names@) =~= done + one + rest);
            assert(texts(names@.take(i + 1)) =~= done + one);
        }
        match required(tokenizer, names[i].as_str()) {
            Ok(id) => {
                out.push(id);
                assert(out@ =~= resolved(*tokenizer, names@.take(i + 1)));
            },
            Err(e) => {
                return Err(e);
            },
        }
        i = i + 1;
    }
    assert(names@.take(i as int) =~= names@);
    Ok(out)
}

/// The token of a number.
fn numbered_token(prefix: char, value: u8) -> (r: String)
    requires
        prefix == 'x' || prefix == 'y' || prefix == 'd',
    ensures
        r@ == number_token(prefix, value as nat),
{
    proof {
        reveal_strlit("x");
        reveal_strlit("y");
        reveal_strlit("d");
    }
    let mut out = String::new();
    if prefix == 'd' {
        out.append("d");
        text::push_decimal(&mut out, value as u64);
    } else {
        out.append(
            if prefix == 'x' {
                "x"
            } else {
                "y"
            },
        );
        text::push_padded(&mut out, value as u64, 2);
    }
    assert(out@ =~= number_token(prefix, value as nat));
    out
}

/// The numbers below `count`, each with the id of its token.
fn numbered(tokenizer: &Tokenizer, prefix: char, count: u8) -> (r: Result<
    Vec<(u16, u8)>,
    GrammarError,
>)
    requires
        prefix == 'x' || prefix == 'y' || prefix == 'd',
    ensures
        match first_missing(*tokenizer, number_tokens(prefix, count as nat)) {
            None => r matches Ok(values) && values@ == numbers(*tokenizer, prefix, count as nat),
            Some(name) => r matches Err(GrammarError::Absent(absent)) && absent@ == name,
        },
{
    let mut out: Vec<(u16, u8)> = Vec::new();
    let mut value: u8 = 0;
    while value < count
        invariant
            prefix == 'x' || prefix == 'y' || prefix == 'd',
            value <= count,
            first_missing(*tokenizer, number_tokens(prefix, value as nat)) is None,
            out@ == numbers(*tokenizer, prefix, value as nat),
        decreases count - value,
    {
        proof {
            let done = number_tokens(prefix, value as nat);
            let one = seq![number_token(prefix, value as nat)];
            let rest = Seq::new(
                (count - value - 1) as nat,
                |i: int| number_token(prefix, (value + 1 + i) as nat),
            );
            first_missing_concat(*tokenizer, done, one);
            first_missing_concat(*tokenizer, done + one, rest);
            assert(number_tokens(prefix, count as nat) =~= done + one + rest);
            assert(number_tokens(prefix, (value + 1) as nat) =~= done + one);
        }
        let token = numbered_token(prefix, value);
        match required(tokenizer, token.as_str()) {
            Ok(id) => {
                out.push((id, value));
                assert(out@ =~= numbers(*tokenizer, prefix, (value + 1) as nat));
            },
            Err(e) => {
                return Err(e);
            },
        }
        value = value + 1;
    }
    Ok(out)
}

proof fn rule_of_insert(entities: Seq<Entity>, at: int, entity: Entity, id: u16)
    requires
        0 <= at <= entities.len(),
        forall|i: int| 0 <= i < entities.len() ==> (#[trigger] entities[i]).id != entity.id,
    ensures
        rule_of(entities.insert(at, entity), id) == if id == entity.id {
            Some(entity.rule)
        } else {
            rule_of(entities, id)
        },
    decreases entities.len(),
{
    let grown = entities.insert(at, entity);
    if at == 0 {
        assert(grown.drop_first() =~= entities);
    } else {
        let rest = entities.drop_first();
        assert(grown.drop_first() =~= rest.insert(at - 1, entity));
        assert forall|i: int| 0 <= i < rest.len() implies (#[trigger] rest[i]).id != entity.id by {
            assert(entities[i + 1].id != entity.id);
        }
        assert(grown[0] == entities[0]);
        assert(entities[0].id != entity.id);
        rule_of_insert(rest, at - 1, entity, id);
    }
}

proof fn rule_of_update(entities: Seq<Entity>, at: int, entity: Entity, id: u16)
    requires
        0 <= at < entities.len(),
        entities[at].id == entity.id,
        forall|i: int| 0 <= i < at ==> (#[trigger] entities[i]).id != entity.id,
    ensures
        rule_of(entities.update(at, entity), id) == if id == entity.id {
            Some(entity.rule)
        } else {
            rule_of(entities, id)
        },
    decreases entities.len(),
{
    let changed = entities.update(at, entity);
    if at == 0 {
        assert(changed.drop_first() =~= entities.drop_first());
    } else {
        let rest = entities.drop_first();
        assert(changed.drop_first() =~= rest.update(at - 1, entity));
        assert forall|i: int| 0 <= i < at - 1 implies (#[trigger] rest[i]).id != entity.id by {
            assert(entities[i + 1].id != entity.id);
        }
        assert(changed[0] == entities[0]);
        assert(entities[0].id != entity.id);
        rule_of_update(rest, at - 1, entity, id);
    }
}

/// The ids ascend.
pub open spec fn ascending(entities: Seq<Entity>) -> bool {
    forall|i: int, j: int|
        0 <= i < j < entities.len() ==> (#[trigger] entities[i]).id < (#[trigger] entities[j]).id
}

/// Put an entity in its place, or in that of the one with its token.
fn place(entities: &mut Vec<Entity>, entity: Entity)
    requires
        ascending(old(entities)@),
    ensures
        ascending(final(entities)@),
        rules(final(entities)@) == rules(old(entities)@).insert(
            entity.id,
            rule_model(entity.rule),
        ),
{
    let mut at: usize = 0;
    while at < entities.len() && entities[at].id < entity.id
        invariant
            *entities == *old(entities),
            at <= entities.len(),
            forall|i: int| 0 <= i < at ==> (#[trigger] entities[i]).id < entity.id,
        decreases entities.len() - at,
    {
        at = at + 1;
    }
    let ghost before = entities@;
    let ghost new = entity;
    if at < entities.len() && entities[at].id == entity.id {
        proof {
            assert forall|id: u16| #[trigger]
                rule_of(before.update(at as int, new), id) == if id == new.id {
                    Some(new.rule)
                } else {
                    rule_of(before, id)
                } by {
                rule_of_update(before, at as int, new, id);
            }
        }
        entities.set(at, entity);
    } else {
        proof {
            assert forall|i: int| 0 <= i < before.len() implies (#[trigger] before[i]).id
                != new.id by {
                if i > at {
                    assert(before[at as int].id < before[i].id);
                }
            }
            assert forall|id: u16| #[trigger]
                rule_of(before.insert(at as int, new), id) == if id == new.id {
                    Some(new.rule)
                } else {
                    rule_of(before, id)
                } by {
                rule_of_insert(before, at as int, new, id);
            }
            assert forall|i: int, j: int| 0 <= i < j < before.len() + 1 implies (
            #[trigger] before.insert(at as int, new)[i]).id < (#[trigger] before.insert(
                at as int,
                new,
            )[j]).id by {
                if i < at && j > at {
                    assert(before[i].id < before[j - 1].id);
                } else if i > at {
                    assert(before[i - 1].id < before[j - 1].id);
                } else if i == at && j - 1 > at {
                    assert(before[at as int].id < before[j - 1].id);
                } else if j < at {
                    assert(before[i].id < before[j].id);
                }
            }
        }
        entities.insert(at, entity);
    }
    assert(rules(entities@) =~= rules(before).insert(new.id, rule_model(new.rule)));
}

fn compile_entities(entities: &Vec<EntitySchema>, tokenizer: &Tokenizer) -> (r: Result<
    Vec<Entity>,
    GrammarError,
>)
    ensures
        match first_missing(*tokenizer, entity_tokens(entities@)) {
            None => r matches Ok(out) && ascending(out@) && rules(out@) == stated_rules(
                *tokenizer,
                entities@,
            ),
            Some(name) => r matches Err(GrammarError::Absent(absent)) && absent@ == name,
        },
{
    let mut out: Vec<Entity> = Vec::new();
    assert(rules(out@) =~= stated_rules(*tokenizer, entities@.take(0)));
    let mut i: usize = 0;
    while i < entities.len()
        invariant
            i <= entities.len(),
            first_missing(*tokenizer, entity_tokens(entities@.take(i as int))) is None,
            ascending(out@),
            rules(out@) == stated_rules(*tokenizer, entities@.take(i as int)),
        decreases entities.len() - i,
    {
        let body = &entities[i];
        proof {
            let done = entity_tokens(entities@.take(i as int));
            assert(entities@.take(i + 1).drop_last() =~= entities@.take(i as int));
            first_missing_concat(*tokenizer, done, seq![body.name@]);
            first_missing_concat(*tokenizer, done + seq![body.name@], texts(body.recipes@));
            missing_stays(*tokenizer, entities@, i + 1);
        }
        let id = match required(tokenizer, body.name.as_str()) {
            Ok(id) => id,
            Err(e) => {
                return Err(e);
            },
        };
        let recipes = match required_all(tokenizer, &body.recipes) {
            Ok(recipes) => recipes,
            Err(e) => {
                return Err(e);
            },
        };
        let rule = Rule { width: body.width, height: body.height, recipes, flow: body.flow };
        place(&mut out, Entity { id, rule });
        i = i + 1;
    }
    assert(entities@.take(i as int) =~= entities@);
    Ok(out)
}

proof fn missing_stays(tokenizer: Tokenizer, entities: Seq<EntitySchema>, upto: int)
    requires
        0 <= upto <= entities.len(),
    ensures
        first_missing(tokenizer, entity_tokens(entities.take(upto))) is Some
            ==> first_missing(tokenizer, entity_tokens(entities)) == first_missing(
            tokenizer,
            entity_tokens(entities.take(upto)),
        ),
    decreases entities.len(),
{
    if upto == entities.len() {
        assert(entities.take(upto) =~= entities);
    } else {
        let rest = entities.drop_last();
        missing_stays(tokenizer, rest, upto);
        assert(rest.take(upto) =~= entities.take(upto));
        let name = seq![entities.last().name@];
        first_missing_concat(tokenizer, entity_tokens(rest), name);
        first_missing_concat(
            tokenizer,
            entity_tokens(rest) + name,
            texts(entities.last().recipes@),
        );
    }
}

impl Grammar {
    /// Compile a schema, every token of which the tokenizer has to know.
    pub fn load(schema: &Schema, tokenizer: &Tokenizer) -> (r: Result<Self, GrammarError>)
        ensures
            if schema.version@ != VERSION@ {
                r matches Err(GrammarError::Version(version)) && version@ == schema.version@
            } else {
                match first_missing(*tokenizer, needed(*schema)) {
                    None => r matches Ok(grammar) && compiles(*schema, *tokenizer, grammar)
                        && grammar.complete(),
                    Some(name) => r matches Err(GrammarError::Absent(absent)) && absent@ == name,
                }
            },
    {
        if !text::same(schema.version.as_str(), VERSION) {
            return Err(GrammarError::Version(schema.version.clone()));
        }
        proof {
            let t = *tokenizer;
            let a = entity_tokens(schema.entities@);
            let b = a + seq!["<e>"@, "</bp>"@];
            let c = b + number_tokens('x', 64);
            let d = c + number_tokens('y', 64);
            let e = d + number_tokens('d', 8);
            first_missing_concat(t, a, seq!["<e>"@, "</bp>"@]);
            first_missing_concat(t, b, number_tokens('x', 64));
            first_missing_concat(t, c, number_tokens('y', 64));
            first_missing_concat(t, d, number_tokens('d', 8));
            first_missing_concat(t, e, seq!["t:input"@, "t:output"@]);
            first_missing_concat(t, seq!["<e>"@], seq!["</bp>"@]);
            first_missing_concat(t, seq!["t:input"@], seq!["t:output"@]);
            assert(seq!["<e>"@] + seq!["</bp>"@] =~= seq!["<e>"@, "</bp>"@]);
            assert(seq!["t:input"@] + seq!["t:output"@] =~= seq!["t:input"@, "t:output"@]);
            assert(needed(*schema) == e + seq!["t:input"@, "t:output"@]);
        }
        let entities = match compile_entities(&schema.entities, tokenizer) {
            Ok(entities) => entities,
            Err(e) => {
                return Err(e);
            },
        };
        let entity_marker = match required(tokenizer, "<e>") {
            Ok(id) => id,
            Err(e) => {
                return Err(e);
            },
        };
        let blueprint_end = match required(tokenizer, "</bp>") {
            Ok(id) => id,
            Err(e) => {
                return Err(e);
            },
        };
        let xs = match numbered(tokenizer, 'x', 64) {
            Ok(values) => values,
            Err(e) => {
                return Err(e);
            },
        };
        let ys = match numbered(tokenizer, 'y', 64) {
            Ok(values) => values,
            Err(e) => {
                return Err(e);
            },
        };
        let directions = match numbered(tokenizer, 'd', 8) {
            Ok(values) => values,
            Err(e) => {
                return Err(e);
            },
        };
        let input = match required(tokenizer, "t:input") {
            Ok(id) => id,
            Err(e) => {
                return Err(e);
            },
        };
        let output = match required(tokenizer, "t:output") {
            Ok(id) => id,
            Err(e) => {
                return Err(e);
            },
        };
        let flows: Vec<u16> = vec![input, output];
        let grammar = Grammar {
            entities,
            entity_marker,
            blueprint_end,
            eos: tokenizer.eos(),
            xs,
            ys,
            directions,
            flows,
        };
        proof {
            assert(flows@ =~= seq![
                tokenizer.id("t:input"@)->0,
                tokenizer.id("t:output"@)->0,
            ]);
            assert forall|v: int| 0 <= v < ZONE implies #[trigger] names(grammar.xs@, v) by {
                assert(grammar.xs@[v].1 == v);
            }
            assert forall|v: int| 0 <= v < ZONE implies #[trigger] names(grammar.ys@, v) by {
                assert(grammar.ys@[v].1 == v);
            }
            assert forall|v: int| 0 <= v < 8 implies #[trigger] names(grammar.directions@, v) by {
                assert(grammar.directions@[v].1 == v);
            }
        }
        Ok(grammar)
    }
}

/// No two token strings of the vocabulary share an id.
pub open spec fn one_to_one(tokenizer: Tokenizer) -> bool {
    forall|a: Seq<char>, b: Seq<char>|
        #[trigger] tokenizer.id(a) is Some && tokenizer.id(a) == #[trigger] tokenizer.id(b) ==> a
            == b
}

proof fn number_tokens_differ(prefix: char, a: nat, b: nat)
    requires
        a < 64,
        b < 64,
        prefix == 'd' ==> a < 8 && b < 8,
        number_token(prefix, a) == number_token(prefix, b),
    ensures
        a == b,
{
    reveal_with_fuel(text::decimal, 3);
    let s = number_token(prefix, a);
    let t = number_token(prefix, b);
    assert(s.len() == t.len());
    assert(s.last() == t.last());
    assert(a % 10 == b % 10) by {
        assert(s.last() == text::digit(a % 10));
        assert(t.last() == text::digit(b % 10));
    }
    if prefix != 'd' {
        assert(s[1] == text::digit(a / 10));
        assert(t[1] == text::digit(b / 10));
    }
}

/// A vocabulary without two names for one id compiles into a grammar whose
/// tokens can be told apart and name everything that is needed.
pub proof fn loaded_grammars_are_unambiguous(
    schema: Schema,
    tokenizer: Tokenizer,
    grammar: Grammar,
)
    requires
        one_to_one(tokenizer),
        compiles(schema, tokenizer, grammar),
        first_missing(tokenizer, needed(schema)) is None,
    ensures
        grammar.fields_apart(),
        grammar.directions_agree(),
        grammar.complete(),
{
    let t = tokenizer;
    let a = entity_tokens(schema.entities@);
    let b = a + seq!["<e>"@, "</bp>"@];
    let c = b + number_tokens('x', 64);
    let d = c + number_tokens('y', 64);
    let e = d + number_tokens('d', 8);
    first_missing_concat(t, b, number_tokens('x', 64));
    first_missing_concat(t, c, number_tokens('y', 64));
    first_missing_concat(t, d, number_tokens('d', 8));
    first_missing_concat(t, e, seq!["t:input"@, "t:output"@]);
    assert(needed(schema) == e + seq!["t:input"@, "t:output"@]);
    assert("<e>"@ != "</bp>"@) by {
        reveal_strlit("<e>");
        reveal_strlit("</bp>");
        assert("<e>"@.len() != "</bp>"@.len());
    }
    numbers_distinct(t, 'x', 64);
    numbers_distinct(t, 'y', 64);
    numbers_distinct(t, 'd', 8);
    assert forall|v: int| 0 <= v < ZONE implies #[trigger] names(grammar.xs@, v) by {
        assert(grammar.xs@[v].1 == v);
    }
    assert forall|v: int| 0 <= v < ZONE implies #[trigger] names(grammar.ys@, v) by {
        assert(grammar.ys@[v].1 == v);
    }
    assert forall|v: int| 0 <= v < 8 implies #[trigger] names(grammar.directions@, v) by {
        assert(grammar.directions@[v].1 == v);
    }
}

proof fn numbers_distinct(tokenizer: Tokenizer, prefix: char, count: nat)
    requires
        one_to_one(tokenizer),
        count <= 64,
        prefix == 'd' ==> count <= 8,
        first_missing(tokenizer, number_tokens(prefix, count)) is None,
    ensures
        distinct(numbers(tokenizer, prefix, count)),
{
    let values = numbers(tokenizer, prefix, count);
    assert forall|i: int, j: int| 0 <= i < j < values.len() implies (#[trigger] values[i]).0 != (
    #[trigger] values[j]).0 by {
        nothing_missing(tokenizer, number_tokens(prefix, count), i);
        nothing_missing(tokenizer, number_tokens(prefix, count), j);
        let a = number_token(prefix, i as nat);
        let b = number_token(prefix, j as nat);
        if values[i].0 == values[j].0 {
            assert(tokenizer.id(a) == tokenizer.id(b));
            number_tokens_differ(prefix, i as nat, j as nat);
        }
    }
}

/// Where `tokens` lead, one after the other.
pub open spec fn replay(grammar: Grammar, p: Progress, tokens: Seq<u16>) -> Progress
    decreases tokens.len(),
{
    if tokens.len() == 0 {
        p
    } else {
        replay(grammar, p, tokens.drop_last()).after(grammar, tokens.last())
    }
}

/// Each of `tokens` is allowed where it comes.
pub open spec fn all_allowed(grammar: Grammar, p: Progress, tokens: Seq<u16>) -> bool {
    forall|k: int|
        0 <= k < tokens.len() ==> replay(grammar, p, tokens.take(k)).allowed(grammar).contains(
            #[trigger] tokens[k],
        )
}

proof fn stays_well_formed(grammar: Grammar, p: Progress, token: u16)
    requires
        p.well_formed(grammar),
        p.allowed(grammar).contains(token),
    ensures
        p.after(grammar, token).well_formed(grammar),
{
    keep_has_value(grammar.xs@, p.x_fits(grammar), token);
    keep_has_value(grammar.ys@, p.y_fits(grammar), token);
    keep_has_value(grammar.directions@, p.direction_fits(grammar), token);
    fitting_has_rule(p, grammar.entities@, token);
}

proof fn stays_live(grammar: Grammar, p: Progress, tokens: Seq<u16>)
    requires
        grammar.fields_apart(),
        p.well_formed(grammar),
        p.live(grammar),
        all_allowed(grammar, p, tokens),
    ensures
        replay(grammar, p, tokens).well_formed(grammar),
        replay(grammar, p, tokens).live(grammar),
    decreases tokens.len(),
{
    if tokens.len() > 0 {
        let rest = tokens.drop_last();
        allowed_prefix(grammar, p, tokens);
        stays_live(grammar, p, rest);
        let before = replay(grammar, p, rest);
        stays_well_formed(grammar, before, tokens.last());
        begun_entities_complete(grammar, before, tokens.last());
    }
}

proof fn allowed_prefix(grammar: Grammar, p: Progress, tokens: Seq<u16>)
    requires
        all_allowed(grammar, p, tokens),
        tokens.len() > 0,
    ensures
        all_allowed(grammar, p, tokens.drop_last()),
        replay(grammar, p, tokens.drop_last()).allowed(grammar).contains(tokens.last()),
{
    let rest = tokens.drop_last();
    assert forall|k: int| 0 <= k < rest.len() implies replay(grammar, p, rest.take(k)).allowed(
        grammar,
    ).contains(#[trigger] rest[k]) by {
        assert(rest.take(k) =~= tokens.take(k));
        assert(replay(grammar, p, tokens.take(k)).allowed(grammar).contains(tokens[k]));
    }
    assert(tokens.take(tokens.len() - 1) =~= rest);
    assert(replay(grammar, p, tokens.take(tokens.len() - 1)).allowed(grammar).contains(
        tokens[tokens.len() - 1],
    ));
}

/// The cells of each entity whose direction is among `tokens`, in order.
pub open spec fn footprints(grammar: Grammar, p: Progress, tokens: Seq<u16>) -> Seq<
    Set<(int, int)>,
>
    decreases tokens.len(),
{
    if tokens.len() == 0 {
        Seq::empty()
    } else {
        let rest = tokens.drop_last();
        let before = replay(grammar, p, rest);
        if before.state is Direction {
            footprints(grammar, p, rest).push(before.footprint(grammar, tokens.last()))
        } else {
            footprints(grammar, p, rest)
        }
    }
}

/// `parts` lie in `whole` and have no cell in common.
pub open spec fn packed(parts: Seq<Set<(int, int)>>, whole: Set<(int, int)>) -> bool {
    &&& forall|i: int| 0 <= i < parts.len() ==> (#[trigger] parts[i]).subset_of(whole)
    &&& forall|i: int, j: int|
        0 <= i < j < parts.len() ==> (#[trigger] parts[i]).disjoint(#[trigger] parts[j])
}

/// The cells of all of `parts`.
pub open spec fn covered(parts: Seq<Set<(int, int)>>) -> Set<(int, int)> {
    Set::new(
        |cell: (int, int)|
            exists|i: int| 0 <= i < parts.len() && (#[trigger] parts[i]).contains(cell),
    )
}

/// Whatever allowed tokens continue a prompt, the entities placed so far lie in
/// the zone and pairwise apart, the occupied cells are exactly theirs, and
/// `placed` is their number.
pub proof fn blueprints_are_packed(grammar: Grammar, prompt: Seq<char>, tokens: Seq<u16>)
    requires
        grammar.directions_agree(),
        all_allowed(grammar, start(prompt), tokens),
    ensures
        replay(grammar, start(prompt), tokens).well_formed(grammar),
        replay(grammar, start(prompt), tokens).width == start(prompt).width,
        replay(grammar, start(prompt), tokens).height == start(prompt).height,
        packed(
            footprints(grammar, start(prompt), tokens),
            area(0, 0, start(prompt).width, start(prompt).height),
        ),
        replay(grammar, start(prompt), tokens).occupied == covered(
            footprints(grammar, start(prompt), tokens),
        ),
        replay(grammar, start(prompt), tokens).placed == footprints(
            grammar,
            start(prompt),
            tokens,
        ).len(),
    decreases tokens.len(),
{
    let p = start(prompt);
    let parts = footprints(grammar, p, tokens);
    let whole = area(0, 0, p.width, p.height);
    let now = replay(grammar, p, tokens);
    if tokens.len() > 0 {
        let rest = tokens.drop_last();
        let token = tokens.last();
        let before = replay(grammar, p, rest);
        let was = footprints(grammar, p, rest);
        allowed_prefix(grammar, p, tokens);
        blueprints_are_packed(grammar, prompt, rest);
        stays_well_formed(grammar, before, token);
        if before.state is Direction {
            allowed_directions_fit(grammar, before, token);
            let new = before.footprint(grammar, token);
            assert(new.disjoint(covered(was)));
            assert(new.subset_of(whole));
            assert forall|i: int| 0 <= i < was.len() implies (#[trigger] was[i]).disjoint(new) by {
                assert forall|cell: (int, int)| was[i].contains(cell) implies !new.contains(
                    cell,
                ) by {
                    assert(covered(was).contains(cell));
                }
            }
            assert forall|i: int, j: int| 0 <= i < j < parts.len() implies (
            #[trigger] parts[i]).disjoint(#[trigger] parts[j]) by {
                assert(parts[i] == was[i]);
                if j < was.len() {
                    assert(parts[j] == was[j]);
                }
            }
            assert forall|i: int| 0 <= i < parts.len() implies (#[trigger] parts[i]).subset_of(
                whole,
            ) by {
                if i < was.len() {
                    assert(parts[i] == was[i]);
                }
            }
            assert forall|cell: (int, int)| now.occupied.contains(cell) == covered(parts).contains(
                cell,
            ) by {
                if covered(was).contains(cell) {
                    let i = choose|i: int| 0 <= i < was.len() && (#[trigger] was[i]).contains(cell);
                    assert(parts[i].contains(cell));
                }
                if new.contains(cell) {
                    assert(parts[was.len() as int].contains(cell));
                }
                if covered(parts).contains(cell) {
                    let i = choose|i: int|
                        0 <= i < parts.len() && (#[trigger] parts[i]).contains(cell);
                    if i < was.len() {
                        assert(was[i].contains(cell));
                    }
                }
            }
        }
    }
    assert(now.occupied =~= covered(parts));
}

proof fn stays_empty(grammar: Grammar, prompt: Seq<char>, tokens: Seq<u16>)
    ensures
        ({
            let now = replay(grammar, start(prompt), tokens);
            &&& now.width == start(prompt).width
            &&& now.height == start(prompt).height
            &&& now.placed == 0 ==> now.occupied == start(prompt).occupied
        }),
    decreases tokens.len(),
{
    if tokens.len() > 0 {
        stays_empty(grammar, prompt, tokens.drop_last());
    }
}

proof fn stays_done(grammar: Grammar, p: Progress, tokens: Seq<u16>, k: int)
    requires
        0 <= k <= tokens.len(),
        replay(grammar, p, tokens.take(k)).state is Done,
    ensures
        replay(grammar, p, tokens).state is Done,
    decreases tokens.len(),
{
    if k == tokens.len() {
        assert(tokens.take(k) =~= tokens);
    } else {
        assert(tokens.drop_last().take(k) =~= tokens.take(k));
        stays_done(grammar, p, tokens.drop_last(), k);
    }
}

/// Where a prompt can be continued at all, no allowed tokens lead into a dead
/// end. The end of the blueprint is offered between entities exactly when one
/// has been placed, and once it is taken nothing but the separator may follow. A
/// machine that was laid down and takes recipes is offered exactly its own.
pub proof fn decoders_never_run_dry(grammar: Grammar, prompt: Seq<char>, tokens: Seq<u16>)
    requires
        grammar.fields_apart(),
        grammar.complete(),
        start(prompt).allowed(grammar).len() > 0,
        all_allowed(grammar, start(prompt), tokens),
    ensures
        replay(grammar, start(prompt), tokens).allowed(grammar).len() > 0,
        replay(grammar, start(prompt), tokens).state is Boundary ==> (replay(
            grammar,
            start(prompt),
            tokens,
        ).allowed(grammar).contains(grammar.blueprint_end) <==> replay(
            grammar,
            start(prompt),
            tokens,
        ).placed > 0),
        forall|k: int|
            0 <= k < tokens.len() && replay(grammar, start(prompt), tokens.take(k)).state
                is Boundary && #[trigger] tokens[k] == grammar.blueprint_end ==> replay(
                grammar,
                start(prompt),
                tokens,
            ).allowed(grammar) == seq![grammar.eos],
        tokens.len() > 0 && replay(grammar, start(prompt), tokens.drop_last()).state is Direction
            && replay(grammar, start(prompt), tokens.drop_last()).rule(grammar).recipes@.len() > 0
            ==> replay(grammar, start(prompt), tokens).allowed(grammar) == replay(
            grammar,
            start(prompt),
            tokens.drop_last(),
        ).rule(grammar).recipes@,
{
    let p = start(prompt);
    let now = replay(grammar, p, tokens);
    stays_live(grammar, p, tokens);
    stays_empty(grammar, prompt, tokens);
    something_may_follow(grammar, now);
    if now.state is Boundary {
        if now.placed == 0 {
            same_fitting(p, now, grammar.entities@);
            assert(now.allowed(grammar) == p.allowed(grammar));
        } else {
            let offered = now.allowed(grammar);
            assert(offered[offered.len() - 1] == grammar.blueprint_end);
        }
    }
    assert forall|k: int|
        0 <= k < tokens.len() && replay(grammar, p, tokens.take(k)).state is Boundary
            && #[trigger] tokens[k] == grammar.blueprint_end implies now.allowed(grammar)
        == seq![grammar.eos] by {
        assert(tokens.take(k + 1).drop_last() =~= tokens.take(k));
        assert(tokens.take(k + 1).last() == tokens[k]);
        stays_done(grammar, p, tokens, k + 1);
    }
}

/// A compiled schema, over a vocabulary without two names for one id, gives
/// blueprints whose entities stay apart in the zone, and no dead ends.
pub proof fn loaded_grammars_keep_their_promises(
    schema: Schema,
    tokenizer: Tokenizer,
    grammar: Grammar,
    prompt: Seq<char>,
    tokens: Seq<u16>,
)
    requires
        one_to_one(tokenizer),
        compiles(schema, tokenizer, grammar),
        first_missing(tokenizer, needed(schema)) is None,
        start(prompt).allowed(grammar).len() > 0,
        all_allowed(grammar, start(prompt), tokens),
    ensures
        replay(grammar, start(prompt), tokens).allowed(grammar).len() > 0,
        packed(
            footprints(grammar, start(prompt), tokens),
            area(0, 0, start(prompt).width, start(prompt).height),
        ),
        replay(grammar, start(prompt), tokens).occupied == covered(
            footprints(grammar, start(prompt), tokens),
        ),
        replay(grammar, start(prompt), tokens).placed == footprints(
            grammar,
            start(prompt),
            tokens,
        ).len(),
{
    loaded_grammars_are_unambiguous(schema, tokenizer, grammar);
    decoders_never_run_dry(grammar, prompt, tokens);
    blueprints_are_packed(grammar, prompt, tokens);
}

/// A machine gets a recipe only where it takes one, and only one of its own.
pub proof fn recipes_belong_to_their_machines(grammar: Grammar, p: Progress, token: u16)
    requires
        p.well_formed(grammar),
        p.allowed(grammar).contains(token),
    ensures
        p.state is Recipe ==> p.rule(grammar).recipes@.contains(token),
        p.state is Direction ==> {
            &&& p.after(grammar, token).rule(grammar) == p.rule(grammar)
            &&& p.after(grammar, token).state is Recipe <==> p.rule(grammar).recipes@.len() > 0
        },
{
}

/// An entity that faces west lies as one that faces east, and one that faces
/// south as one that faces north. East and west exchange the sides that it has
/// facing north; no other direction turns it.
pub proof fn turning_exchanges_the_sides(
    rule: Rule,
    north: (u8, u8),
    east: (u8, u8),
    south: (u8, u8),
    west: (u8, u8),
    direction: u8,
    facing: (u8, u8),
)
    requires
        call_ensures(footprint, (&rule, 0u8), north),
        call_ensures(footprint, (&rule, 2u8), east),
        call_ensures(footprint, (&rule, 4u8), south),
        call_ensures(footprint, (&rule, 6u8), west),
        call_ensures(footprint, (&rule, direction), facing),
    ensures
        north.0 == rule.width,
        north.1 == rule.height,
        south == north,
        east.0 == north.1,
        east.1 == north.0,
        west == east,
        direction != 2 && direction != 6 ==> facing == north,
{
}

/// The cells of a rectangle with its corner at `(x, y)` lie in the zone, and
/// nothing stands on them.
pub open spec fn clear(p: Progress, x: int, y: int, width: int, height: int) -> bool {
    &&& x + width <= p.width
    &&& y + height <= p.height
    &&& forall|a: int, b: int|
        x <= a < x + width && y <= b < y + height ==> !#[trigger] p.occupied.contains((a, b))
}

/// There is room for an entity at `(x, y)`, upright or on its side.
pub open spec fn room(p: Progress, rule: Rule, x: int, y: int) -> bool {
    ||| clear(p, x, y, rule.width as int, rule.height as int)
    ||| clear(p, x, y, rule.height as int, rule.width as int)
}

proof fn fits_is_clear(p: Progress, w: int, h: int, x: int, y: int, direction: int)
    ensures
        p.fits(w, h, x, y, direction) == if direction == 2 || direction == 6 {
            clear(p, x, y, h, w)
        } else {
            clear(p, x, y, w, h)
        },
{
    let e = extent(w, h, direction);
    let cells = area(x, y, e.0, e.1);
    if p.fits(w, h, x, y, direction) {
        assert forall|a: int, b: int|
            x <= a < x + e.0 && y <= b < y + e.1 implies !#[trigger] p.occupied.contains((a, b)) by {
            assert(cells.contains((a, b)));
        }
    }
    if clear(p, x, y, e.0, e.1) {
        assert forall|cell: (int, int)| #[trigger] cells.contains(cell) implies !p.occupied.contains(
            cell,
        ) by {
            assert(!p.occupied.contains((cell.0, cell.1)));
        }
        assert(cells.disjoint(p.occupied));
    }
}

proof fn fits_at_is_room(p: Progress, rule: Rule, x: int, y: int)
    ensures
        p.fits_at(rule.width as int, rule.height as int, x, y) == room(p, rule, x, y),
{
    let (w, h) = (rule.width as int, rule.height as int);
    fits_two_ways(p, w, h, x, y);
    fits_is_clear(p, w, h, x, y, 0);
    fits_is_clear(p, w, h, x, y, 2);
}

proof fn position_is_room(p: Progress, rule: Rule, x: Option<u8>, y: Option<u8>)
    ensures
        p.position_fits(rule, x, y) <==> exists|a: int, b: int|
            {
                &&& if let Some(v) = x { a == v } else { 0 <= a < p.width }
                &&& if let Some(v) = y { b == v } else { 0 <= b < p.height }
                &&& #[trigger] room(p, rule, a, b)
            },
{
    if p.position_fits(rule, x, y) {
        let (a, b) = choose|a: int, b: int|
            {
                &&& if let Some(v) = x { a == v } else { 0 <= a < p.width }
                &&& if let Some(v) = y { b == v } else { 0 <= b < p.height }
                &&& #[trigger] p.fits_at(rule.width as int, rule.height as int, a, b)
            };
        fits_at_is_room(p, rule, a, b);
    }
    if exists|a: int, b: int|
        {
            &&& if let Some(v) = x { a == v } else { 0 <= a < p.width }
            &&& if let Some(v) = y { b == v } else { 0 <= b < p.height }
            &&& #[trigger] room(p, rule, a, b)
        } {
        let (a, b) = choose|a: int, b: int|
            {
                &&& if let Some(v) = x { a == v } else { 0 <= a < p.width }
                &&& if let Some(v) = y { b == v } else { 0 <= b < p.height }
                &&& #[trigger] room(p, rule, a, b)
            };
        fits_at_is_room(p, rule, a, b);
    }
}

/// A direction is offered where the rectangle that it lays down is clear, and
/// nowhere else.
pub proof fn directions_are_offered_where_they_fit(d: Decoder<'_>, out: Vec<u16>, token: u16)
    requires
        d@.well_formed(*d.grammar),
        d.state is Direction,
        call_ensures(Decoder::allowed, (&d,), out),
    ensures
        out@.contains(token) <==> exists|i: int|
            {
                let (width, height) = (
                    d@.rule(*d.grammar).width as int,
                    d@.rule(*d.grammar).height as int,
                );
                &&& 0 <= i < d.grammar.directions@.len()
                &&& (#[trigger] d.grammar.directions@[i]).0 == token
                &&& if d.grammar.directions@[i].1 == 2 || d.grammar.directions@[i].1 == 6 {
                    clear(d@, d.x->0 as int, d.y->0 as int, height, width)
                } else {
                    clear(d@, d.x->0 as int, d.y->0 as int, width, height)
                }
            },
{
    let grammar = *d.grammar;
    let values = grammar.directions@;
    let rule = d@.rule(grammar);
    let ok = d@.direction_fits(grammar);
    keep_witness(values, ok, token);
    assert forall|v: u8| #[trigger] ok(v) == if v == 2 || v == 6 {
        clear(d@, d.x->0 as int, d.y->0 as int, rule.height as int, rule.width as int)
    } else {
        clear(d@, d.x->0 as int, d.y->0 as int, rule.width as int, rule.height as int)
    } by {
        fits_is_clear(
            d@,
            rule.width as int,
            rule.height as int,
            d.x->0 as int,
            d.y->0 as int,
            v as int,
        );
    }
    if out@.contains(token) {
        let i = choose|i: int|
            0 <= i < values.len() && (#[trigger] values[i]).0 == token && ok(values[i].1);
        assert(ok(values[i].1));
    }
}

/// A column is offered where the entity has room in it at some row, and a row
/// where it has room at the column that was chosen.
pub proof fn coordinates_are_offered_where_there_is_room(
    d: Decoder<'_>,
    out: Vec<u16>,
    token: u16,
)
    requires
        d@.well_formed(*d.grammar),
        call_ensures(Decoder::allowed, (&d,), out),
    ensures
        d.state is X ==> (out@.contains(token) <==> exists|i: int, y: int|
            {
                &&& 0 <= i < d.grammar.xs@.len()
                &&& 0 <= y < d.height
                &&& (#[trigger] d.grammar.xs@[i]).0 == token
                &&& #[trigger] room(d@, d@.rule(*d.grammar), d.grammar.xs@[i].1 as int, y)
            }),
        d.state is Y ==> (out@.contains(token) <==> exists|i: int|
            {
                &&& 0 <= i < d.grammar.ys@.len()
                &&& (#[trigger] d.grammar.ys@[i]).0 == token
                &&& room(
                    d@,
                    d@.rule(*d.grammar),
                    d.x->0 as int,
                    d.grammar.ys@[i].1 as int,
                )
            }),
{
    let grammar = *d.grammar;
    let rule = d@.rule(grammar);
    if d.state is X {
        let values = grammar.xs@;
        let ok = d@.x_fits(grammar);
        keep_witness(values, ok, token);
        if out@.contains(token) {
            let i = choose|i: int|
                0 <= i < values.len() && (#[trigger] values[i]).0 == token && ok(values[i].1);
            position_is_room(d@, rule, Some(values[i].1), None);
            let (a, y) = choose|a: int, y: int|
                a == values[i].1 && 0 <= y < d.height && #[trigger] room(d@, rule, a, y);
            assert(room(d@, rule, values[i].1 as int, y));
        }
        if exists|i: int, y: int|
            {
                &&& 0 <= i < values.len()
                &&& 0 <= y < d.height
                &&& (#[trigger] values[i]).0 == token
                &&& #[trigger] room(d@, rule, values[i].1 as int, y)
            } {
            let (i, y) = choose|i: int, y: int|
                {
                    &&& 0 <= i < values.len()
                    &&& 0 <= y < d.height
                    &&& (#[trigger] values[i]).0 == token
                    &&& #[trigger] room(d@, rule, values[i].1 as int, y)
                };
            position_is_room(d@, rule, Some(values[i].1), None);
            assert(ok(values[i].1));
        }
    }
    if d.state is Y {
        let values = grammar.ys@;
        let ok = d@.y_fits(grammar);
        keep_witness(values, ok, token);
        assert forall|v: u8| #[trigger] ok(v) == room(d@, rule, d.x->0 as int, v as int) by {
            position_is_room(d@, rule, d.x, Some(v));
        }
        if out@.contains(token) {
            let i = choose|i: int|
                0 <= i < values.len() && (#[trigger] values[i]).0 == token && ok(values[i].1);
            assert(ok(values[i].1));
        }
    }
}

proof fn fitting_finds(p: Progress, entities: Seq<Entity>, i: int)
    requires
        0 <= i < entities.len(),
        p.position_fits(entities[i].rule, None, None),
    ensures
        p.fitting(entities).contains(entities[i].id),
    decreases entities.len(),
{
    let rest = entities.drop_last();
    if i < rest.len() {
        fitting_finds(p, rest, i);
        let k = choose|k: int| 0 <= k < p.fitting(rest).len() && p.fitting(rest)[k] == entities[i].id;
        assert(p.fitting(entities)[k] == entities[i].id);
    } else {
        assert(p.fitting(entities)[p.fitting(rest).len() as int] == entities[i].id);
    }
}

/// An entity is offered where it has room somewhere in the zone. Another entity
/// may be begun while one of them has room, and a blueprint may end once
/// something stands in it; a machine takes its own recipes, a flow is one of the
/// two, and nothing but the end of the text follows a blueprint.
pub proof fn entities_are_offered_where_there_is_room(d: Decoder<'_>, out: Vec<u16>, token: u16)
    requires
        d@.well_formed(*d.grammar),
        call_ensures(Decoder::allowed, (&d,), out),
    ensures
        d.state is Entity ==> (out@.contains(token) <==> exists|i: int, x: int, y: int|
            {
                &&& 0 <= i < d.grammar.entities@.len()
                &&& 0 <= x < d.width
                &&& 0 <= y < d.height
                &&& d.grammar.entities@[i].id == token
                &&& #[trigger] room(d@, d.grammar.entities@[i].rule, x, y)
            }),
        d.state is Boundary ==> {
            &&& out@.contains(token) ==> token == d.grammar.entity_marker || token
                == d.grammar.blueprint_end
            &&& d.grammar.entity_marker != d.grammar.blueprint_end ==> {
                &&& out@.contains(d.grammar.entity_marker) <==> exists|i: int, x: int, y: int|
                    {
                        &&& 0 <= i < d.grammar.entities@.len()
                        &&& 0 <= x < d.width
                        &&& 0 <= y < d.height
                        &&& #[trigger] room(d@, d.grammar.entities@[i].rule, x, y)
                    }
                &&& out@.contains(d.grammar.blueprint_end) <==> d.placed > 0
            }
        },
        d.state is Recipe ==> out@ == d@.rule(*d.grammar).recipes@,
        d.state is Flow ==> out@ == d.grammar.flows@,
        d.state is Done ==> out@ == seq![d.grammar.eos],
{
    let entities = d.grammar.entities@;
    let fitting = d@.fitting(entities);
    if fitting.len() > 0 {
        assert(fitting.contains(fitting[0]));
    }
    assert forall|id: u16| #[trigger] fitting.contains(id) implies exists|i: int, x: int, y: int|
        {
            &&& 0 <= i < entities.len()
            &&& 0 <= x < d.width
            &&& 0 <= y < d.height
            &&& entities[i].id == id
            &&& #[trigger] room(d@, entities[i].rule, x, y)
        } by {
        fitting_witness(d@, entities, id);
        let i = choose|i: int|
            0 <= i < entities.len() && (#[trigger] entities[i]).id == id && d@.position_fits(
                entities[i].rule,
                None,
                None,
            );
        position_is_room(d@, entities[i].rule, None, None);
        let (x, y) = choose|x: int, y: int|
            0 <= x < d.width && 0 <= y < d.height && #[trigger] room(d@, entities[i].rule, x, y);
        assert(room(d@, entities[i].rule, x, y));
    }
    assert forall|i: int, x: int, y: int|
        {
            &&& 0 <= i < entities.len()
            &&& 0 <= x < d.width
            &&& 0 <= y < d.height
            &&& #[trigger] room(d@, entities[i].rule, x, y)
        } implies fitting.contains(entities[i].id) by {
        position_is_room(d@, entities[i].rule, None, None);
        fitting_finds(d@, entities, i);
    }
    if d.state is Boundary {
        let (marker, end) = (d.grammar.entity_marker, d.grammar.blueprint_end);
        if fitting.len() > 0 {
            assert(out@[0] == marker);
            if d.placed > 0 {
                assert(out@[1] == end);
            }
        } else if d.placed > 0 {
            assert(out@[0] == end);
        }
    }
}

proof fn first_value(values: Seq<(u16, u8)>, token: u16)
    ensures
        match value_of(values, token) {
            Some(v) => exists|i: int|
                {
                    &&& 0 <= i < values.len()
                    &&& #[trigger] values[i] == (token, v)
                    &&& forall|j: int| 0 <= j < i ==> (#[trigger] values[j]).0 != token
                },
            None => forall|j: int| 0 <= j < values.len() ==> (#[trigger] values[j]).0 != token,
        },
    decreases values.len(),
{
    if values.len() > 0 {
        if values[0].0 == token {
            assert(values[0] == (token, values[0].1));
        } else {
            let rest = values.drop_first();
            first_value(rest, token);
            if let Some(v) = value_of(rest, token) {
                let i = choose|i: int|
                    {
                        &&& 0 <= i < rest.len()
                        &&& #[trigger] rest[i] == (token, v)
                        &&& forall|j: int| 0 <= j < i ==> (#[trigger] rest[j]).0 != token
                    };
                assert(values[i + 1] == (token, v));
                assert forall|j: int| 0 <= j < i + 1 implies (#[trigger] values[j]).0 != token by {
                    if j > 0 {
                        assert(rest[j - 1] == values[j]);
                    }
                }
            } else {
                assert forall|j: int| 0 <= j < values.len() implies (#[trigger] values[j]).0
                    != token by {
                    if j > 0 {
                        assert(rest[j - 1] == values[j]);
                    }
                }
            }
        }
    }
}

/// `value` is what `token` stands for: that of the first pair with the token.
pub open spec fn stands_for(values: Seq<(u16, u8)>, token: u16, value: u8) -> bool {
    exists|i: int|
        {
            &&& 0 <= i < values.len()
            &&& #[trigger] values[i] == (token, value)
            &&& forall|j: int| 0 <= j < i ==> (#[trigger] values[j]).0 != token
        }
}

/// The fields of an entity follow one another: its kind, its column, its row and
/// its direction, then a recipe where it takes one and a flow where it has one.
/// Each is kept as its token gives it, and only the direction puts the entity
/// down: on the cells of its rectangle, and on no others.
pub proof fn fields_follow_one_another(grammar: Grammar, p: Progress, token: u16)
    requires
        p.well_formed(grammar),
        p.allowed(grammar).contains(token),
    ensures
        ({
            let q = p.after(grammar, token);
            let rule = p.rule(grammar);
            &&& q.width == p.width
            &&& q.height == p.height
            &&& !(p.state is Direction) ==> q.occupied == p.occupied && q.placed == p.placed
            &&& !(p.state is Entity) ==> q.current == p.current
            &&& match p.state {
                State::Boundary => q.state == if token == grammar.entity_marker {
                    State::Entity
                } else {
                    State::Done
                },
                State::Entity => q.state is X && q.current == Some(token),
                State::X => q.state is Y && q.x is Some && stands_for(grammar.xs@, token, q.x->0),
                State::Y => {
                    &&& q.state is Direction
                    &&& q.x == p.x
                    &&& q.y is Some
                    &&& stands_for(grammar.ys@, token, q.y->0)
                },
                State::Direction => {
                    &&& q.placed == p.placed + 1
                    &&& q.x is None
                    &&& q.y is None
                    &&& q.state == if rule.recipes@.len() > 0 {
                        State::Recipe
                    } else if rule.flow {
                        State::Flow
                    } else {
                        State::Boundary
                    }
                    &&& exists|d: u8|
                        {
                            &&& #[trigger] stands_for(grammar.directions@, token, d)
                            &&& forall|a: int, b: int| #[trigger]
                                q.occupied.contains((a, b)) <==> p.occupied.contains((a, b)) || {
                                    &&& p.x->0 <= a
                                    &&& p.y->0 <= b
                                    &&& if d == 2 || d == 6 {
                                        a < p.x->0 + rule.height && b < p.y->0 + rule.width
                                    } else {
                                        a < p.x->0 + rule.width && b < p.y->0 + rule.height
                                    }
                                }
                        }
                },
                State::Recipe => q.state == if rule.flow {
                    State::Flow
                } else {
                    State::Boundary
                },
                State::Flow => q.state is Boundary,
                State::Done => q == p,
            }
        }),
{
    keep_has_value(grammar.xs@, p.x_fits(grammar), token);
    keep_has_value(grammar.ys@, p.y_fits(grammar), token);
    keep_has_value(grammar.directions@, p.direction_fits(grammar), token);
    first_value(grammar.xs@, token);
    first_value(grammar.ys@, token);
    first_value(grammar.directions@, token);
    if p.state is Direction {
        let q = p.after(grammar, token);
        let rule = p.rule(grammar);
        let d = value_of(grammar.directions@, token)->0;
        assert(stands_for(grammar.directions@, token, d));
        assert forall|a: int, b: int| #[trigger]
            q.occupied.contains((a, b)) <==> p.occupied.contains((a, b)) || {
                &&& p.x->0 <= a
                &&& p.y->0 <= b
                &&& if d == 2 || d == 6 {
                    a < p.x->0 + rule.height && b < p.y->0 + rule.width
                } else {
                    a < p.x->0 + rule.width && b < p.y->0 + rule.height
                }
            } by {
            assert(q.occupied.contains((a, b)) <==> p.occupied.contains((a, b)) || p.footprint(
                grammar,
                token,
            ).contains((a, b)));
        }
    }
}

/// The rule of a kind is that of the first entity with its token.
pub proof fn rules_are_those_of_their_entities(entities: Seq<Entity>, id: u16)
    ensures
        match rule_of(entities, id) {
            Some(rule) => exists|i: int|
                {
                    &&& 0 <= i < entities.len()
                    &&& (#[trigger] entities[i]).id == id
                    &&& entities[i].rule == rule
                    &&& forall|j: int| 0 <= j < i ==> (#[trigger] entities[j]).id != id
                },
            None => forall|j: int| 0 <= j < entities.len() ==> (#[trigger] entities[j]).id != id,
        },
    decreases entities.len(),
{
    if entities.len() > 0 {
        if entities[0].id == id {
            assert(entities[0].rule == rule_of(entities, id)->0);
        } else {
            let rest = entities.drop_first();
            rules_are_those_of_their_entities(rest, id);
            if let Some(rule) = rule_of(rest, id) {
                let i = choose|i: int|
                    {
                        &&& 0 <= i < rest.len()
                        &&& (#[trigger] rest[i]).id == id
                        &&& rest[i].rule == rule
                        &&& forall|j: int| 0 <= j < i ==> (#[trigger] rest[j]).id != id
                    };
                assert(entities[i + 1].id == id);
                assert forall|j: int| 0 <= j < i + 1 implies (#[trigger] entities[j]).id != id by {
                    if j > 0 {
                        assert(rest[j - 1] == entities[j]);
                    }
                }
            } else {
                assert forall|j: int| 0 <= j < entities.len() implies (#[trigger] entities[j]).id
                    != id by {
                    if j > 0 {
                        assert(rest[j - 1] == entities[j]);
                    }
                }
            }
        }
    }
}

proof fn position_is_first(words: Seq<Seq<char>>, word: Seq<char>, at: int)
    requires
        0 <= at < words.len(),
        words[at] == word,
        forall|j: int| 0 <= j < at ==> #[trigger] words[j] != word,
    ensures
        position(words, word) == Some(at as nat),
    decreases words.len(),
{
    if at > 0 {
        let rest = words.drop_first();
        assert(words[0] != word);
        assert forall|j: int| 0 <= j < at - 1 implies #[trigger] rest[j] != word by {
            assert(words[j + 1] == rest[j]);
        }
        position_is_first(rest, word, at - 1);
    }
}

proof fn position_is_nowhere(words: Seq<Seq<char>>, word: Seq<char>)
    requires
        forall|j: int| 0 <= j < words.len() ==> #[trigger] words[j] != word,
    ensures
        position(words, word) is None,
    decreases words.len(),
{
    if words.len() > 0 {
        let rest = words.drop_first();
        assert(words[0] != word);
        assert forall|j: int| 0 <= j < rest.len() implies #[trigger] rest[j] != word by {
            assert(words[j + 1] == rest[j]);
        }
        position_is_nowhere(rest, word);
    }
}

/// A word has something behind its first character that is no digit, nor a plus sign
/// in front of them.
pub open spec fn is_no_side(word: Seq<char>) -> bool {
    ||| word.len() <= 1
    ||| exists|i: int|
        {
            &&& 1 <= i < word.len()
            &&& !('0' <= #[trigger] word[i] <= '9')
            &&& i > 1 || word[i] != '+'
        }
}

proof fn no_side_is_the_largest(word: Seq<char>)
    requires
        is_no_side(word),
    ensures
        side(word) == 64,
{
    let rest = word.skip(1);
    let digits = text::unsigned(rest);
    if word.len() > 1 {
        let i = choose|i: int|
            {
                &&& 1 <= i < word.len()
                &&& !('0' <= #[trigger] word[i] <= '9')
                &&& i > 1 || word[i] != '+'
            };
        assert(rest[i - 1] == word[i]);
        if rest[0] == '+' {
            assert(digits[i - 2] == word[i]);
        } else {
            assert(digits[i - 1] == word[i]);
        }
        assert(!text::all_digits(digits));
    } else if word.len() == 1 {
        assert(rest.len() == 0);
    }
}

/// The sides of the zone are the fourth and the fifth word behind the first
/// `<spec>` of the prompt: a number sign and a number that a side can have. Where
/// there is no such word, or it says anything else, the side is the largest.
pub proof fn prompts_bound_the_zone(
    grammar: Grammar,
    prompt: &str,
    d: Decoder<'_>,
    at: int,
    digits: Seq<char>,
)
    requires
        call_ensures(Grammar::decoder, (&grammar, prompt), d),
        0 <= at < text::words(prompt@).len(),
        text::words(prompt@)[at] == "<spec>"@,
        forall|j: int| 0 <= j < at ==> #[trigger] text::words(prompt@)[j] != "<spec>"@,
        digits.len() > 0,
        text::all_digits(digits),
    ensures
        ({
            let words = text::words(prompt@);
            let n = text::digits_value(digits);
            &&& 1 <= d.width <= 64
            &&& 1 <= d.height <= 64
            &&& at + 4 < words.len() && words[at + 4] == seq!['#'] + digits ==> d.width == if 1 <= n
                <= 64 {
                n as int
            } else {
                64
            }
            &&& at + 5 < words.len() && words[at + 5] == seq!['#'] + digits ==> d.height == if 1
                <= n <= 64 {
                n as int
            } else {
                64
            }
            &&& at + 4 >= words.len() || words[at + 4].len() == 0 || words[at + 4][0] != '#'
                ==> d.width == 64
            &&& at + 5 >= words.len() || words[at + 5].len() == 0 || words[at + 5][0] != '#'
                ==> d.height == 64
            &&& at + 4 < words.len() && is_no_side(words[at + 4]) ==> d.width == 64
            &&& at + 5 < words.len() && is_no_side(words[at + 5]) ==> d.height == 64
        }),
{
    let words = text::words(prompt@);
    position_is_first(words, "<spec>"@, at);
    let word = seq!['#'] + digits;
    assert(word.skip(1) =~= digits);
    assert('0' <= digits[0] <= '9');
    assert(text::unsigned(digits) == digits);
    if at + 4 < words.len() && is_no_side(words[at + 4]) {
        no_side_is_the_largest(words[at + 4]);
    }
    if at + 5 < words.len() && is_no_side(words[at + 5]) {
        no_side_is_the_largest(words[at + 5]);
    }
}

/// A prompt without a specification leaves the zone as large as one can be.
/// Nothing stands in a zone yet when a continuation starts, and nothing is begun.
pub proof fn continuations_start_in_an_empty_zone(
    grammar: Grammar,
    prompt: &str,
    d: Decoder<'_>,
)
    requires
        call_ensures(Grammar::decoder, (&grammar, prompt), d),
    ensures
        *d.grammar == grammar,
        d.state is Boundary,
        d.placed == 0,
        d.current is None,
        d.x is None,
        d.y is None,
        forall|x: int, y: int| !#[trigger] d@.occupied.contains((x, y)),
        (forall|j: int|
            0 <= j < text::words(prompt@).len() ==> #[trigger] text::words(prompt@)[j]
                != "<spec>"@) ==> d.width == 64 && d.height == 64,
{
    assert(d@.occupied == Set::<(int, int)>::empty());
    if forall|j: int|
        0 <= j < text::words(prompt@).len() ==> #[trigger] text::words(prompt@)[j] != "<spec>"@ {
        position_is_nowhere(text::words(prompt@), "<spec>"@);
    }
}

proof fn first_missing_is(tokenizer: Tokenizer, names: Seq<Seq<char>>)
    ensures
        match first_missing(tokenizer, names) {
            Some(name) => names.contains(name) && tokenizer.id(name) is None,
            None => forall|i: int| 0 <= i < names.len() ==> tokenizer.id(#[trigger] names[i]) is Some,
        },
    decreases names.len(),
{
    if names.len() > 0 {
        let rest = names.drop_last();
        first_missing_is(tokenizer, rest);
        if let Some(name) = first_missing(tokenizer, rest) {
            let k = choose|k: int| 0 <= k < rest.len() && rest[k] == name;
            assert(names[k] == name);
        } else {
            assert(names[names.len() - 1] == names.last());
            assert forall|i: int| 0 <= i < names.len() && first_missing(tokenizer, names)
                is None implies tokenizer.id(#[trigger] names[i]) is Some by {
                if i < rest.len() {
                    assert(rest[i] == names[i]);
                }
            }
        }
    }
}

/// The tokenizer knows every token that the entities of a schema name.
pub open spec fn knows_entities(tokenizer: Tokenizer, entities: Seq<EntitySchema>) -> bool {
    &&& forall|i: int|
        0 <= i < entities.len() ==> tokenizer.id((#[trigger] entities[i]).name@) is Some
    &&& forall|i: int, j: int|
        0 <= i < entities.len() && 0 <= j < entities[i].recipes@.len() ==> tokenizer.id(
            (#[trigger] entities[i].recipes@[j])@,
        ) is Some
}

proof fn entity_tokens_known(tokenizer: Tokenizer, entities: Seq<EntitySchema>)
    ensures
        (forall|i: int|
            0 <= i < entity_tokens(entities).len() ==> tokenizer.id(
                #[trigger] entity_tokens(entities)[i],
            ) is Some) <==> knows_entities(tokenizer, entities),
    decreases entities.len(),
{
    if entities.len() > 0 {
        let rest = entities.drop_last();
        let body = entities.last();
        let n = entity_tokens(rest).len() as int;
        let all = entity_tokens(entities);
        let recipes = texts(body.recipes@);
        entity_tokens_known(tokenizer, rest);
        assert(entities[entities.len() - 1] == body);
        if forall|i: int| 0 <= i < all.len() ==> tokenizer.id(#[trigger] all[i]) is Some {
            assert forall|i: int| 0 <= i < n implies tokenizer.id(
                #[trigger] entity_tokens(rest)[i],
            ) is Some by {
                assert(all[i] == entity_tokens(rest)[i]);
            }
            assert(all[n] == body.name@);
            assert forall|i: int| 0 <= i < entities.len() implies tokenizer.id(
                (#[trigger] entities[i]).name@,
            ) is Some by {
                if i < rest.len() {
                    assert(rest[i] == entities[i]);
                }
            }
            assert forall|i: int, j: int|
                0 <= i < entities.len() && 0 <= j < entities[i].recipes@.len() implies tokenizer.id(
                (#[trigger] entities[i].recipes@[j])@,
            ) is Some by {
                if i < rest.len() {
                    assert(rest[i] == entities[i]);
                    assert(tokenizer.id(rest[i].recipes@[j]@) is Some);
                } else {
                    assert(all[n + 1 + j] == recipes[j]);
                }
            }
        }
        if knows_entities(tokenizer, entities) {
            assert(knows_entities(tokenizer, rest)) by {
                assert forall|i: int| 0 <= i < rest.len() implies tokenizer.id(
                    (#[trigger] rest[i]).name@,
                ) is Some by {
                    assert(rest[i] == entities[i]);
                }
                assert forall|i: int, j: int|
                    0 <= i < rest.len() && 0 <= j < rest[i].recipes@.len() implies tokenizer.id(
                    (#[trigger] rest[i].recipes@[j])@,
                ) is Some by {
                    assert(rest[i] == entities[i]);
                    assert(tokenizer.id(entities[i].recipes@[j]@) is Some);
                }
            }
            assert forall|i: int| 0 <= i < all.len() implies tokenizer.id(#[trigger] all[i])
                is Some by {
                if i < n {
                    assert(all[i] == entity_tokens(rest)[i]);
                } else if i > n {
                    assert(all[i] == recipes[i - n - 1]);
                    assert(tokenizer.id(entities[entities.len() - 1].recipes@[i - n - 1]@) is Some);
                }
            }
        }
    }
}

/// Two digits behind a letter, as the coordinates are spelled.
pub open spec fn coordinate(letter: char, value: int) -> Seq<char> {
    seq![letter, (48 + value / 10) as char, (48 + value % 10) as char]
}

/// The tokenizer knows the tokens that every blueprint is made of.
pub open spec fn knows_blueprints(tokenizer: Tokenizer) -> bool {
    &&& tokenizer.id("<e>"@) is Some
    &&& tokenizer.id("</bp>"@) is Some
    &&& tokenizer.id("t:input"@) is Some
    &&& tokenizer.id("t:output"@) is Some
    &&& forall|v: int| 0 <= v < 64 ==> tokenizer.id(#[trigger] coordinate('x', v)) is Some
    &&& forall|v: int| 0 <= v < 64 ==> tokenizer.id(#[trigger] coordinate('y', v)) is Some
    &&& forall|v: int| 0 <= v < 8 ==> tokenizer.id(seq!['d', #[trigger] text::digit(v as nat)]) is Some
}

proof fn number_tokens_are_spelled(v: int)
    ensures
        0 <= v < 64 ==> number_token('x', v as nat) == coordinate('x', v) && number_token(
            'y',
            v as nat,
        ) == coordinate('y', v),
        0 <= v < 8 ==> number_token('d', v as nat) == seq!['d', text::digit(v as nat)],
{
    reveal_with_fuel(text::decimal, 2);
    if 0 <= v < 10 {
        assert(text::decimal(v as nat) =~= seq![text::digit(v as nat)]);
        assert(number_token('x', v as nat) =~= coordinate('x', v));
        assert(number_token('y', v as nat) =~= coordinate('y', v));
        assert(number_token('d', v as nat) =~= seq!['d', text::digit(v as nat)]);
    } else if 10 <= v < 64 {
        let tens = (v / 10) as nat;
        assert(text::decimal(tens) =~= seq![text::digit(tens)]);
        assert(text::decimal(v as nat) =~= seq![text::digit(tens), text::digit((v % 10) as nat)]);
        assert(number_token('x', v as nat) =~= coordinate('x', v));
        assert(number_token('y', v as nat) =~= coordinate('y', v));
    }
}

proof fn needed_is_known(schema: Schema, tokenizer: Tokenizer)
    ensures
        first_missing(tokenizer, needed(schema)) is None <==> knows_entities(
            tokenizer,
            schema.entities@,
        ) && knows_blueprints(tokenizer),
{
    let own = entity_tokens(schema.entities@);
    let all = needed(schema);
    let n = own.len() as int;
    first_missing_is(tokenizer, all);
    entity_tokens_known(tokenizer, schema.entities@);
    assert forall|v: int| 0 <= v < 64 implies #[trigger] coordinate('x', v) == all[n + 2 + v]
        && coordinate('y', v) == all[n + 66 + v] by {
        number_tokens_are_spelled(v);
    }
    assert forall|v: int| 0 <= v < 64 implies #[trigger] coordinate('y', v) == all[n + 66 + v] by {
        number_tokens_are_spelled(v);
    }
    assert forall|v: int| 0 <= v < 8 implies seq!['d', #[trigger] text::digit(v as nat)] == all[n
        + 130 + v] by {
        number_tokens_are_spelled(v);
    }
    assert(all[n] == "<e>"@ && all[n + 1] == "</bp>"@);
    assert(all[n + 138] == "t:input"@ && all[n + 139] == "t:output"@);
    assert(all.len() == n + 140);
    if first_missing(tokenizer, all) is None {
        assert forall|i: int| 0 <= i < own.len() implies tokenizer.id(#[trigger] own[i]) is Some by {
            assert(all[i] == own[i]);
        }
    }
    if knows_entities(tokenizer, schema.entities@) && knows_blueprints(tokenizer) {
        assert forall|i: int| 0 <= i < all.len() implies tokenizer.id(#[trigger] all[i]) is Some by {
            if i < n {
                assert(all[i] == own[i]);
            } else if n + 2 <= i < n + 66 {
                assert(coordinate('x', i - n - 2) == all[i]);
            } else if n + 66 <= i < n + 130 {
                assert(coordinate('y', i - n - 66) == all[i]);
            } else if n + 130 <= i < n + 138 {
                let v = i - n - 130;
                assert(tokenizer.id(seq!['d', text::digit(v as nat)]) is Some);
                assert(seq!['d', text::digit(v as nat)] == all[n + 130 + v]);
            }
        }
        if let Some(name) = first_missing(tokenizer, all) {
            let k = choose|k: int| 0 <= k < all.len() && all[k] == name;
            assert(tokenizer.id(all[k]) is Some);
        }
    }
}

proof fn stated_rule(tokenizer: Tokenizer, entities: Seq<EntitySchema>, i: int)
    requires
        0 <= i < entities.len(),
        forall|j: int|
            i < j < entities.len() ==> tokenizer.id((#[trigger] entities[j]).name@)->0
                != tokenizer.id(entities[i].name@)->0,
    ensures
        stated_rules(tokenizer, entities).contains_key(tokenizer.id(entities[i].name@)->0),
        stated_rules(tokenizer, entities)[tokenizer.id(entities[i].name@)->0] == (RuleModel {
            width: entities[i].width,
            height: entities[i].height,
            recipes: resolved(tokenizer, entities[i].recipes@),
            flow: entities[i].flow,
        }),
    decreases entities.len(),
{
    if i < entities.len() - 1 {
        let rest = entities.drop_last();
        assert forall|j: int| i < j < rest.len() implies tokenizer.id((#[trigger] rest[j]).name@)->0
            != tokenizer.id(rest[i].name@)->0 by {
            assert(rest[j] == entities[j]);
        }
        stated_rule(tokenizer, rest, i);
        assert(entities[entities.len() - 1] == entities.last());
    }
}

/// A schema of the known version compiles where the tokenizer knows every token
/// that it and the blueprints are made of. It is refused for its version
/// otherwise, or for a token that the tokenizer does not know.
pub proof fn known_schemas_compile(
    schema: Schema,
    tokenizer: Tokenizer,
    r: Result<Grammar, GrammarError>,
)
    requires
        call_ensures(Grammar::load, (&schema, &tokenizer), r),
    ensures
        r is Ok <==> {
            &&& schema.version@ == "factorio-v1"@
            &&& knows_entities(tokenizer, schema.entities@)
            &&& knows_blueprints(tokenizer)
        },
        r matches Err(GrammarError::Version(v)) ==> v@ == schema.version@ && v@ != "factorio-v1"@,
        r matches Err(GrammarError::Absent(token)) ==> schema.version@ == "factorio-v1"@
            && tokenizer.id(token@) is None,
{
    needed_is_known(schema, tokenizer);
    first_missing_is(tokenizer, needed(schema));
}

/// A compiled grammar says of an entity what the last entry of the schema with
/// its token says, with the recipes by their tokens, and gives every coordinate
/// and direction the token that spells it.
pub proof fn grammars_say_what_their_schemas_say(
    schema: Schema,
    tokenizer: Tokenizer,
    grammar: Grammar,
    i: int,
    v: int,
)
    requires
        call_ensures(Grammar::load, (&schema, &tokenizer), Ok(grammar)),
        0 <= i < schema.entities@.len(),
        forall|j: int|
            i < j < schema.entities@.len() ==> tokenizer.id(
                (#[trigger] schema.entities@[j]).name@,
            ) != tokenizer.id(schema.entities@[i].name@),
    ensures
        ({
            let body = schema.entities@[i];
            let id = tokenizer.id(body.name@)->0;
            let rule = rule_of(grammar.entities@, id)->0;
            &&& rule_of(grammar.entities@, id) is Some
            &&& rule.width == body.width
            &&& rule.height == body.height
            &&& rule.flow == body.flow
            &&& rule.recipes@.len() == body.recipes@.len()
            &&& forall|k: int|
                0 <= k < body.recipes@.len() ==> Some(#[trigger] rule.recipes@[k]) == tokenizer.id(
                    body.recipes@[k]@,
                )
        }),
        grammar.xs@.len() == 64,
        grammar.ys@.len() == 64,
        grammar.directions@.len() == 8,
        0 <= v < 64 ==> grammar.xs@[v] == (tokenizer.id(coordinate('x', v))->0, v as u8)
            && grammar.ys@[v] == (tokenizer.id(coordinate('y', v))->0, v as u8),
        0 <= v < 8 ==> grammar.directions@[v] == (
            tokenizer.id(seq!['d', text::digit(v as nat)])->0,
            v as u8,
        ),
        Some(grammar.entity_marker) == tokenizer.id("<e>"@),
        Some(grammar.blueprint_end) == tokenizer.id("</bp>"@),
        grammar.eos == tokenizer.end(),
        grammar.flows@.len() == 2,
        Some(grammar.flows@[0]) == tokenizer.id("t:input"@),
        Some(grammar.flows@[1]) == tokenizer.id("t:output"@),
{
    let r: Result<Grammar, GrammarError> = Ok(grammar);
    known_schemas_compile(schema, tokenizer, r);
    let body = schema.entities@[i];
    assert forall|j: int| i < j < schema.entities@.len() implies tokenizer.id(
        (#[trigger] schema.entities@[j]).name@,
    )->0 != tokenizer.id(body.name@)->0 by {
        assert(tokenizer.id(schema.entities@[j].name@) is Some);
    }
    stated_rule(tokenizer, schema.entities@, i);
    let id = tokenizer.id(body.name@)->0;
    assert(rules(grammar.entities@).contains_key(id));
    let rule = rule_of(grammar.entities@, id)->0;
    assert(rule_model(rule) == rules(grammar.entities@)[id]);
    assert forall|k: int| 0 <= k < body.recipes@.len() implies Some(#[trigger] rule.recipes@[k])
        == tokenizer.id(body.recipes@[k]@) by {
        assert(rule.recipes@[k] == resolved(tokenizer, body.recipes@)[k]);
        assert(tokenizer.id(schema.entities@[i].recipes@[k]@) is Some);
    }
    number_tokens_are_spelled(v);
}

/// The decoder takes a token in where it may follow, unless what it places would
/// reach beyond the coordinates that a byte holds or can no longer be counted.
pub proof fn what_may_follow_is_taken_in(
    d: Decoder<'_>,
    token: u16,
    r: bool,
    allowed: Vec<u16>,
    direction: u8,
)
    requires
        d@.well_formed(*d.grammar),
        call_ensures(Decoder::accepts, (&d, token), r),
        call_ensures(Decoder::allowed, (&d,), allowed),
        stands_for(d.grammar.directions@, token, direction),
    ensures
        r ==> allowed@.contains(token),
        !(d.state is Direction) ==> (r <==> allowed@.contains(token)),
        d.state is Direction ==> (r <==> {
            let rule = d@.rule(*d.grammar);
            let (width, height) = if direction == 2 || direction == 6 {
                (rule.height, rule.width)
            } else {
                (rule.width, rule.height)
            };
            &&& allowed@.contains(token)
            &&& d.x->0 + width <= 255
            &&& d.y->0 + height <= 255
            &&& d.placed < usize::MAX
        }),
{
    let values = d.grammar.directions@;
    first_value(values, token);
    let i = choose|i: int|
        {
            &&& 0 <= i < values.len()
            &&& #[trigger] values[i] == (token, direction)
            &&& forall|j: int| 0 <= j < i ==> (#[trigger] values[j]).0 != token
        };
    if let Some(v) = value_of(values, token) {
        let k = choose|k: int|
            {
                &&& 0 <= k < values.len()
                &&& #[trigger] values[k] == (token, v)
                &&& forall|j: int| 0 <= j < k ==> (#[trigger] values[j]).0 != token
            };
        assert(k == i) by {
            if k < i {
                assert(values[k].0 != token);
            }
            if i < k {
                assert(values[i].0 != token);
            }
        }
    } else {
        assert(values[i].0 != token);
    }
}

/// Taking a token in leads where it leads, within the same grammar.
pub proof fn taking_in_leads_on(token: u16)
    ensures
        forall|d: &mut Decoder<'_>|
            d@.well_formed(*d.grammar) && #[trigger] call_ensures(Decoder::advance, (d, token), ())
                ==> {
                &&& final(d).grammar == d.grammar
                &&& final(d)@ == d@.after(*d.grammar, token)
            },
{
}

/// A grammar is unambiguous where no entity and no coordinate shares its token,
/// the entities stand in the order of theirs, an entity is not begun by what ends
/// a blueprint, and directions with one token turn an entity alike, if it is not
/// square.
pub proof fn unambiguous_grammars_share_no_token(g: Grammar, r: bool)
    requires
        call_ensures(Grammar::unambiguous, (&g,), r),
    ensures
        r <==> {
            &&& forall|i: int, j: int|
                0 <= i < j < g.entities@.len() ==> (#[trigger] g.entities@[i]).id < (
                #[trigger] g.entities@[j]).id
            &&& g.entity_marker != g.blueprint_end
            &&& forall|i: int, j: int|
                0 <= i < j < g.xs@.len() ==> (#[trigger] g.xs@[i]).0 != (#[trigger] g.xs@[j]).0
            &&& forall|i: int, j: int|
                0 <= i < j < g.ys@.len() ==> (#[trigger] g.ys@[i]).0 != (#[trigger] g.ys@[j]).0
            &&& forall|i: int, j: int, k: int|
                #![trigger g.directions@[i], g.directions@[j], g.entities@[k]]
                0 <= i < g.directions@.len() && 0 <= j < g.directions@.len() && 0 <= k
                    < g.entities@.len() && g.directions@[i].0 == g.directions@[j].0 ==> {
                    ||| g.entities@[k].rule.width == g.entities@[k].rule.height
                    ||| (g.directions@[i].1 == 2 || g.directions@[i].1 == 6) == (g.directions@[j].1
                        == 2 || g.directions@[j].1 == 6)
                }
        },
{
    if g.directions_agree() {
        assert forall|i: int, j: int, k: int|
            #![trigger g.directions@[i], g.directions@[j], g.entities@[k]]
            0 <= i < g.directions@.len() && 0 <= j < g.directions@.len() && 0 <= k
                < g.entities@.len() && g.directions@[i].0 == g.directions@[j].0 implies {
            ||| g.entities@[k].rule.width == g.entities@[k].rule.height
            ||| (g.directions@[i].1 == 2 || g.directions@[i].1 == 6) == (g.directions@[j].1 == 2
                || g.directions@[j].1 == 6)
        } by {}
    }
    assert(g.well_formed() <==> forall|i: int, j: int|
        0 <= i < j < g.entities@.len() ==> (#[trigger] g.entities@[i]).id < (
        #[trigger] g.entities@[j]).id);
}

proof fn first_missing_at(tokenizer: Tokenizer, names: Seq<Seq<char>>, k: int)
    requires
        0 <= k < names.len(),
        tokenizer.id(names[k]) is None,
        forall|j: int| 0 <= j < k ==> tokenizer.id(#[trigger] names[j]) is Some,
    ensures
        first_missing(tokenizer, names) == Some(names[k]),
    decreases names.len(),
{
    let rest = names.drop_last();
    if k < rest.len() {
        assert forall|j: int| 0 <= j < k implies tokenizer.id(#[trigger] rest[j]) is Some by {
            assert(names[j] == rest[j]);
        }
        assert(rest[k] == names[k]);
        first_missing_at(tokenizer, rest, k);
    } else {
        first_missing_is(tokenizer, rest);
        if let Some(name) = first_missing(tokenizer, rest) {
            let j = choose|j: int| 0 <= j < rest.len() && rest[j] == name;
            assert(names[j] == name);
        }
    }
}

proof fn entity_tokens_lead(entities: Seq<EntitySchema>, upto: int)
    requires
        0 <= upto <= entities.len(),
    ensures
        entity_tokens(entities.take(upto)).len() <= entity_tokens(entities).len(),
        entity_tokens(entities).take(entity_tokens(entities.take(upto)).len() as int)
            == entity_tokens(entities.take(upto)),
    decreases entities.len(),
{
    let lead = entity_tokens(entities.take(upto));
    if upto == entities.len() {
        assert(entities.take(upto) =~= entities);
        assert(entity_tokens(entities).take(lead.len() as int) =~= lead);
    } else {
        let rest = entities.drop_last();
        assert(rest.take(upto) =~= entities.take(upto));
        entity_tokens_lead(rest, upto);
        assert(entity_tokens(entities).take(lead.len() as int) =~= entity_tokens(rest).take(
            lead.len() as int,
        ));
    }
}

/// Of the tokens that a schema and its blueprints are made of, the first that the
/// tokenizer does not know is the one that is reported. An entity's own comes before
/// its recipes, and those before the next entity.
pub proof fn the_first_unknown_entity_token_is_reported(
    schema: Schema,
    tokenizer: Tokenizer,
    r: Result<Grammar, GrammarError>,
    i: int,
    j: int,
)
    requires
        call_ensures(Grammar::load, (&schema, &tokenizer), r),
        schema.version@ == "factorio-v1"@,
        0 <= i < schema.entities@.len(),
        knows_entities(tokenizer, schema.entities@.take(i)),
    ensures
        tokenizer.id(schema.entities@[i].name@) is None ==> (r matches Err(
            GrammarError::Absent(token),
        ) && token@ == schema.entities@[i].name@),
        tokenizer.id(schema.entities@[i].name@) is Some && 0 <= j
            < schema.entities@[i].recipes@.len() && tokenizer.id(
            schema.entities@[i].recipes@[j]@,
        ) is None && (forall|k: int|
            0 <= k < j ==> tokenizer.id((#[trigger] schema.entities@[i].recipes@[k])@) is Some)
            ==> (r matches Err(GrammarError::Absent(token)) && token@
            == schema.entities@[i].recipes@[j]@),
{
    let entities = schema.entities@;
    let body = entities[i];
    let before = entity_tokens(entities.take(i));
    let upto = entity_tokens(entities.take(i + 1));
    let own = entity_tokens(entities);
    let all = needed(schema);
    let n = before.len() as int;
    assert(entities.take(i + 1).drop_last() =~= entities.take(i));
    assert(entities.take(i + 1).last() == body);
    entity_tokens_lead(entities, i + 1);
    entity_tokens_known(tokenizer, entities.take(i));
    let recipes = texts(body.recipes@);
    assert forall|k: int| 0 <= k < upto.len() implies #[trigger] all[k] == upto[k] by {
        assert(own.take(upto.len() as int)[k] == own[k]);
        assert(all[k] == own[k]);
    }
    assert forall|k: int| 0 <= k < n implies tokenizer.id(#[trigger] all[k]) is Some by {
        assert(all[k] == upto[k]);
        assert(upto[k] == before[k]);
    }
    assert(all[n] == upto[n] && upto[n] == body.name@);
    if tokenizer.id(body.name@) is None {
        first_missing_at(tokenizer, all, n);
    } else if 0 <= j < body.recipes@.len() && tokenizer.id(body.recipes@[j]@) is None && (forall|
        k: int,
    |
        0 <= k < j ==> tokenizer.id((#[trigger] body.recipes@[k])@) is Some) {
        assert(all[n + 1 + j] == upto[n + 1 + j] && upto[n + 1 + j] == recipes[j]);
        assert forall|k: int| 0 <= k < n + 1 + j implies tokenizer.id(#[trigger] all[k]) is Some by {
            if k > n {
                assert(all[k] == upto[k] && upto[k] == recipes[k - n - 1]);
                assert(tokenizer.id(body.recipes@[k - n - 1]@) is Some);
            }
        }
        first_missing_at(tokenizer, all, n + 1 + j);
    }
}

/// Where the tokenizer knows all that the entities name, the tokens of the
/// blueprints are asked for in order: the two marks, the columns, the rows, the
/// directions and the flows.
pub proof fn the_first_unknown_blueprint_token_is_reported(
    schema: Schema,
    tokenizer: Tokenizer,
    r: Result<Grammar, GrammarError>,
    at: int,
    asked: Seq<char>,
)
    requires
        call_ensures(Grammar::load, (&schema, &tokenizer), r),
        schema.version@ == "factorio-v1"@,
        knows_entities(tokenizer, schema.entities@),
        0 <= at < 140,
        asked == blueprint_token(at),
        tokenizer.id(asked) is None,
        forall|k: int| 0 <= k < at ==> tokenizer.id(#[trigger] blueprint_token(k)) is Some,
    ensures
        r matches Err(GrammarError::Absent(token)) && token@ == asked,
{
    let own = entity_tokens(schema.entities@);
    let all = needed(schema);
    let n = own.len() as int;
    entity_tokens_known(tokenizer, schema.entities@);
    assert forall|k: int| 0 <= k < 140 implies #[trigger] all[n + k] == blueprint_token(k) by {
        if 2 <= k < 66 {
            number_tokens_are_spelled(k - 2);
        } else if 66 <= k < 130 {
            number_tokens_are_spelled(k - 66);
        } else if 130 <= k < 138 {
            number_tokens_are_spelled(k - 130);
        }
    }
    assert forall|k: int| 0 <= k < n + at implies tokenizer.id(#[trigger] all[k]) is Some by {
        if k < n {
            assert(all[k] == own[k]);
        } else {
            assert(all[n + (k - n)] == blueprint_token(k - n));
        }
    }
    assert(all[n + at] == asked);
    first_missing_at(tokenizer, all, n + at);
}

/// The tokens that every blueprint is made of, in order.
pub open spec fn blueprint_token(k: int) -> Seq<char> {
    if k == 0 {
        "<e>"@
    } else if k == 1 {
        "</bp>"@
    } else if k < 66 {
        coordinate('x', k - 2)
    } else if k < 130 {
        coordinate('y', k - 66)
    } else if k < 138 {
        seq!['d', text::digit((k - 130) as nat)]
    } else if k == 138 {
        "t:input"@
    } else {
        "t:output"@
    }
}

} // verus!
