//! Tensor-index expressions in Ricci notation.
//!
//! An upper-case letter names a tensor entity, a lower-case letter after `^`
//! is a superscript index of the entity before it, a lower-case letter after
//! `_` a subscript index. An entity without indices is a scalar. Within one
//! entity the j-th superscript and the j-th subscript that carry the same
//! letter contract with each other.
use std::collections::HashSet;
use vstd::prelude::*;

verus! {

/// A position in the index list of an entity.
pub type IndexLoc = usize;

/// One index of an entity: its letter and whether it stands above or below.
#[derive(Clone, Copy, Debug, PartialEq, Eq, Hash, Structural)]
pub enum Index {
    SuperScript(char),
    SubScript(char),
}

impl Index {
    /// The letter of the index, whichever way it points.
    pub open spec fn symbol(self) -> char {
        match self {
            Index::SuperScript(x) => x,
            Index::SubScript(x) => x,
        }
    }

    pub fn get(&self) -> (c: char)
        ensures
            c == self.symbol(),
    {
        match self {
            Index::SuperScript(x) => *x,
            Index::SubScript(x) => *x,
        }
    }
}

/// Which kind of index the reader expects next.
#[derive(Clone, Copy, Debug, PartialEq, Eq, Structural)]
pub enum StateIndex {
    SuperScript,
    SubScript,
}

/// A tensor, vector or covector with its indices and what was derived from them.
#[derive(Clone, Debug)]
pub struct Entity {
    /// Name of the entity, an upper-case letter.
    pub c: char,
    /// Superscripts and subscripts in the order they were written.
    pub indices: Vec<Index>,
    /// Letter and position of each recorded superscript, in recording order.
    pub indices_match_superscript: Vec<(char, IndexLoc)>,
    /// Letter and position of each recorded subscript, in recording order.
    pub indices_match_subscript: Vec<(char, IndexLoc)>,
    /// Indices that no contraction consumes, each with its position.
    pub indices_result: Vec<(Index, IndexLoc)>,
    /// Positions of a superscript and the subscript it contracts with.
    pub contraction_pairs_loc: Vec<(IndexLoc, IndexLoc)>,
}

/// The mathematical content of an [`Entity`].
pub struct EntityView {
    pub c: char,
    pub indices: Seq<Index>,
    pub superscripts: Seq<(char, IndexLoc)>,
    pub subscripts: Seq<(char, IndexLoc)>,
    pub result: Seq<(Index, IndexLoc)>,
    pub pairs: Seq<(IndexLoc, IndexLoc)>,
}

impl View for Entity {
    type V = EntityView;

    open spec fn view(&self) -> EntityView {
        EntityView {
            c: self.c,
            indices: self.indices@,
            superscripts: self.indices_match_superscript@,
            subscripts: self.indices_match_subscript@,
            result: self.indices_result@,
            pairs: self.contraction_pairs_loc@,
        }
    }
}

impl EntityView {
    /// An entity named `x` that has no indices yet.
    pub open spec fn bare(x: char) -> EntityView {
        EntityView {
            c: x,
            indices: Seq::empty(),
            superscripts: Seq::empty(),
            subscripts: Seq::empty(),
            result: Seq::empty(),
            pairs: Seq::empty(),
        }
    }
}

/// The positions recorded under the letter `c`, in recording order.
pub open spec fn group(table: Seq<(char, IndexLoc)>, c: char) -> Seq<IndexLoc>
    decreases table.len(),
{
    if table.len() == 0 {
        Seq::empty()
    } else if table.last().0 == c {
        group(table.drop_last(), c).push(table.last().1)
    } else {
        group(table.drop_last(), c)
    }
}

/// Letter and position of every superscript among the first `n` indices.
pub open spec fn superscripts_of(indices: Seq<Index>, n: int) -> Seq<(char, IndexLoc)>
    decreases n,
{
    if n <= 0 {
        Seq::empty()
    } else {
        match indices[n - 1] {
            Index::SuperScript(x) => superscripts_of(indices, n - 1).push((x, (n - 1) as usize)),
            Index::SubScript(_) => superscripts_of(indices, n - 1),
        }
    }
}

/// Letter and position of every subscript among the first `n` indices.
pub open spec fn subscripts_of(indices: Seq<Index>, n: int) -> Seq<(char, IndexLoc)>
    decreases n,
{
    if n <= 0 {
        Seq::empty()
    } else {
        match indices[n - 1] {
            Index::SubScript(x) => subscripts_of(indices, n - 1).push((x, (n - 1) as usize)),
            Index::SuperScript(_) => subscripts_of(indices, n - 1),
        }
    }
}

/// The first `n` members of `a` and `b`, paired member by member.
pub open spec fn zipped(a: Seq<IndexLoc>, b: Seq<IndexLoc>, n: int) -> Seq<(IndexLoc, IndexLoc)>
    decreases n,
{
    if n <= 0 {
        Seq::empty()
    } else {
        zipped(a, b, n - 1).push((a[n - 1], b[n - 1]))
    }
}

/// The shorter of two lengths.
pub open spec fn shorter(a: nat, b: nat) -> nat {
    if a <= b {
        a
    } else {
        b
    }
}

/// Entry `j` of the table is the first one with its letter.
pub open spec fn opens_group(table: Seq<(char, IndexLoc)>, j: int) -> bool {
    forall|k: int| 0 <= k < j ==> (#[trigger] table[k]).0 != table[j].0
}

/// The contraction pairs that the first `n` superscript entries give: letter
/// by letter in the order the letters were first recorded, and under one
/// letter the j-th superscript with the j-th subscript.
pub open spec fn pairs_of(
    sup: Seq<(char, IndexLoc)>,
    sub: Seq<(char, IndexLoc)>,
    n: int,
) -> Seq<(IndexLoc, IndexLoc)>
    decreases n,
{
    if n <= 0 {
        Seq::empty()
    } else if opens_group(sup, n - 1) {
        let above = group(sup, sup[n - 1].0);
        let below = group(sub, sup[n - 1].0);
        pairs_of(sup, sub, n - 1) + zipped(above, below, shorter(above.len(), below.len()) as int)
    } else {
        pairs_of(sup, sub, n - 1)
    }
}

/// Position `i` takes part in one of the pairs.
pub open spec fn contracted(pairs: Seq<(IndexLoc, IndexLoc)>, i: IndexLoc) -> bool {
    exists|k: int| 0 <= k < pairs.len() && ((#[trigger] pairs[k]).0 == i || pairs[k].1 == i)
}

/// Those of the first `n` indices that take part in no pair, with their positions.
pub open spec fn free_of(
    indices: Seq<Index>,
    pairs: Seq<(IndexLoc, IndexLoc)>,
    n: int,
) -> Seq<(Index, IndexLoc)>
    decreases n,
{
    if n <= 0 {
        Seq::empty()
    } else if contracted(pairs, (n - 1) as usize) {
        free_of(indices, pairs, n - 1)
    } else {
        free_of(indices, pairs, n - 1).push((indices[n - 1], (n - 1) as usize))
    }
}

impl EntityView {
    /// The entity after every index has been recorded in the table of its kind.
    pub open spec fn located(self) -> EntityView {
        EntityView {
            superscripts: self.superscripts + superscripts_of(self.indices, self.indices.len() as int),
            subscripts: self.subscripts + subscripts_of(self.indices, self.indices.len() as int),
            ..self
        }
    }

    /// The entity after its contractions have been settled from the two tables:
    /// the pairs are replaced, the free indices are added to the result.
    pub open spec fn settled(self) -> EntityView {
        let pairs = pairs_of(self.superscripts, self.subscripts, self.superscripts.len() as int);
        EntityView {
            pairs: pairs,
            result: self.result + free_of(self.indices, pairs, self.indices.len() as int),
            ..self
        }
    }
}

/// The positions that `table` holds under the letter `c`.
fn collect_group(table: &Vec<(char, IndexLoc)>, c: char) -> (locs: Vec<IndexLoc>)
    ensures
        locs@ == group(table@, c),
{
    let mut locs: Vec<IndexLoc> = Vec::new();
    let mut j: usize = 0;
    while j < table.len()
        invariant
            j <= table.len(),
            locs@ == group(table@.take(j as int), c),
        decreases table.len() - j,
    {
        assert(table@.take(j + 1).drop_last() == table@.take(j as int));
        if table[j].0 == c {
            locs.push(table[j].1);
        }
        j = j + 1;
    }
    assert(table@.take(j as int) == table@);
    locs
}

/// Whether entry `j` is the first entry of `table` with its letter.
fn is_first_of_group(table: &Vec<(char, IndexLoc)>, j: usize) -> (first: bool)
    requires
        j < table.len(),
    ensures
        first == opens_group(table@, j as int),
{
    let mut k: usize = 0;
    while k < j
        invariant
            k <= j,
            j < table.len(),
            forall|m: int| 0 <= m < k ==> (#[trigger] table@[m]).0 != table@[j as int].0,
        decreases j - k,
    {
        if table[k].0 == table[j].0 {
            return false;
        }
        k = k + 1;
    }
    true
}

/// A position takes part in the pairs with one more pair exactly when it
/// took part before or is a member of the new pair.
proof fn lemma_contracted_push(
    pairs: Seq<(IndexLoc, IndexLoc)>,
    a: IndexLoc,
    b: IndexLoc,
    i: IndexLoc,
)
    ensures
        contracted(pairs.push((a, b)), i) <==> contracted(pairs, i) || i == a || i == b,
{
    let more = pairs.push((a, b));
    if contracted(pairs, i) {
        let k = choose|k: int| 0 <= k < pairs.len() && ((#[trigger] pairs[k]).0 == i || pairs[k].1 == i);
        assert(more[k] == pairs[k]);
    }
    if i == a || i == b {
        assert(more[pairs.len() as int] == (a, b));
    }
    if contracted(more, i) {
        let k = choose|k: int| 0 <= k < more.len() && ((#[trigger] more[k]).0 == i || more[k].1 == i);
        if k < pairs.len() {
            assert(pairs[k] == more[k]);
        }
    }
}

impl Entity {
    pub fn new(x: char) -> (e: Entity)
        ensures
            e@ == EntityView::bare(x),
    {
        Entity {
            c: x,
            indices: Vec::new(),
            indices_match_superscript: Vec::new(),
            indices_match_subscript: Vec::new(),
            indices_result: Vec::new(),
            contraction_pairs_loc: Vec::new(),
        }
    }

    /// Records every index in the table of its kind, under its letter and
    /// with its position.
    pub fn assign_index_loc(&mut self)
        ensures
            final(self)@ == old(self)@.located(),
    {
        let n = self.indices.len();
        let mut loc: usize = 0;
        while loc < n
            invariant
                loc <= n,
                n == self.indices.len(),
                self.c == old(self).c,
                self.indices@ == old(self).indices@,
                self.indices_result@ == old(self).indices_result@,
                self.contraction_pairs_loc@ == old(self).contraction_pairs_loc@,
                self.indices_match_superscript@ == old(self).indices_match_superscript@
                    + superscripts_of(self.indices@, loc as int),
                self.indices_match_subscript@ == old(self).indices_match_subscript@
                    + subscripts_of(self.indices@, loc as int),
            decreases n - loc,
        {
            match self.indices[loc] {
                Index::SuperScript(x) => {
                    self.indices_match_superscript.push((x, loc));
                },
                Index::SubScript(x) => {
                    self.indices_match_subscript.push((x, loc));
                },
            }
            loc = loc + 1;
        }
    }

    /// Settles the contractions of this entity from its two tables: under each
    /// letter the j-th recorded superscript contracts with the j-th recorded
    /// subscript. The pairs found replace the earlier ones; every index that
    /// takes part in none is added to the result with its position.
    pub fn determine_contraction_single(&mut self)
        ensures
            final(self)@ == old(self)@.settled(),
    {
        let mut pairs: Vec<(IndexLoc, IndexLoc)> = Vec::new();
        let mut indices_contraction: HashSet<IndexLoc> = HashSet::new();
        let count = self.indices_match_superscript.len();
        let mut j: usize = 0;
        while j < count
            invariant
                j <= count,
                count == self.indices_match_superscript.len(),
                *self == *old(self),
                pairs@ == pairs_of(
                    self.indices_match_superscript@,
                    self.indices_match_subscript@,
                    j as int,
                ),
                forall|i: IndexLoc| indices_contraction@.contains(i) <==> contracted(pairs@, i),
            decreases count - j,
        {
            if is_first_of_group(&self.indices_match_superscript, j) {
                let key = self.indices_match_superscript[j].0;
                let above = collect_group(&self.indices_match_superscript, key);
                let below = collect_group(&self.indices_match_subscript, key);
                let m = if above.len() <= below.len() {
                    above.len()
                } else {
                    below.len()
                };
                let ghost before = pairs@;
                let mut k: usize = 0;
                while k < m
                    invariant
                        k <= m,
                        m <= above.len(),
                        m <= below.len(),
                        pairs@ == before + zipped(above@, below@, k as int),
                        forall|i: IndexLoc|
                            indices_contraction@.contains(i) <==> contracted(pairs@, i),
                    decreases m - k,
                {
                    let a = above[k];
                    let b = below[k];
                    proof {
                        assert forall|i: IndexLoc|
                            contracted(pairs@.push((a, b)), i) <==> contracted(pairs@, i) || i == a
                                || i == b by {
                            lemma_contracted_push(pairs@, a, b, i);
                        }
                    }
                    pairs.push((a, b));
                    indices_contraction.insert(a);
                    indices_contraction.insert(b);
                    k = k + 1;
                }
            }
            j = j + 1;
        }
        self.contraction_pairs_loc = pairs;
        let n = self.indices.len();
        let mut i: usize = 0;
        while i < n
            invariant
                i <= n,
                n == self.indices.len(),
                self.c == old(self).c,
                self.indices@ == old(self).indices@,
                self.indices_match_superscript@ == old(self).indices_match_superscript@,
                self.indices_match_subscript@ == old(self).indices_match_subscript@,
                self.contraction_pairs_loc@ == pairs_of(
                    self.indices_match_superscript@,
                    self.indices_match_subscript@,
                    self.indices_match_superscript@.len() as int,
                ),
                forall|p: IndexLoc|
                    indices_contraction@.contains(p) <==> contracted(
                        self.contraction_pairs_loc@,
                        p,
                    ),
                self.indices_result@ == old(self).indices_result@ + free_of(
                    self.indices@,
                    self.contraction_pairs_loc@,
                    i as int,
                ),
            decreases n - i,
        {
            if !indices_contraction.contains(&i) {
                let index = self.indices[i];
                self.indices_result.push((index, i));
            }
            i = i + 1;
        }
    }
}

/// A sequence of entities as read, and as simplified.
#[derive(Clone, Debug)]
pub struct Expr {
    pub original: Vec<Entity>,
    pub result: Vec<Entity>,
}

/// The mathematical content of an [`Expr`].
pub struct ExprView {
    pub original: Seq<EntityView>,
    pub result: Seq<EntityView>,
}

/// The content of each entity of a list.
pub open spec fn contents(list: Seq<Entity>) -> Seq<EntityView> {
    list.map_values(|e: Entity| e@)
}

impl View for Expr {
    type V = ExprView;

    open spec fn view(&self) -> ExprView {
        ExprView { original: contents(self.original@), result: contents(self.result@) }
    }
}

/// Why a text is no expression.
#[derive(Clone, Copy, Debug, PartialEq, Eq, Structural)]
pub enum Malformed {
    /// `^`, `_` or an index letter stands before any entity.
    EntityMissing,
    /// An index letter follows an entity with neither `^` nor `_` before it.
    IndexStateMissing,
}

impl Malformed {
    /// The words in which the reader reports the fault.
    pub open spec fn message(self) -> Seq<char> {
        match self {
            Malformed::EntityMissing => "entity missing"@,
            Malformed::IndexStateMissing => "index state missing"@,
        }
    }
}

/// What the reader holds after a part of the text.
pub struct Reading {
    /// The entities that are complete.
    pub done: Seq<EntityView>,
    /// The entity whose indices are being read.
    pub current: Option<EntityView>,
    /// The kind of the indices that follow.
    pub mode: Option<StateIndex>,
}

/// `x` names an entity.
pub open spec fn is_entity_name(x: char) -> bool {
    'A' <= x && x <= 'Z'
}

/// `x` is an index letter.
pub open spec fn is_index_letter(x: char) -> bool {
    'a' <= x && x <= 'z'
}

impl EntityView {
    /// The entity with one more index at the end of its list.
    pub open spec fn with_index(self, index: Index) -> EntityView {
        EntityView { indices: self.indices.push(index), ..self }
    }
}

impl Reading {
    /// Nothing read yet.
    pub open spec fn start() -> Reading {
        Reading { done: Seq::empty(), current: None, mode: None }
    }

    /// The reader after one more character. `^` and `_` choose the kind of the
    /// indices that follow, an upper-case letter closes the current entity and
    /// opens the next, a lower-case letter is an index of the current entity,
    /// and any other character is passed over.
    pub open spec fn read(self, x: char) -> Result<Reading, Malformed> {
        if x == '^' || x == '_' {
            if self.current is None {
                Err(Malformed::EntityMissing)
            } else if x == '^' {
                Ok(Reading { mode: Some(StateIndex::SuperScript), ..self })
            } else {
                Ok(Reading { mode: Some(StateIndex::SubScript), ..self })
            }
        } else if is_entity_name(x) {
            match self.current {
                Some(e) => Ok(
                    Reading {
                        done: self.done.push(e),
                        current: Some(EntityView::bare(x)),
                        mode: None,
                    },
                ),
                None => Ok(Reading { current: Some(EntityView::bare(x)), mode: None, ..self }),
            }
        } else if is_index_letter(x) {
            match (self.current, self.mode) {
                (None, _) => Err(Malformed::EntityMissing),
                (Some(_), None) => Err(Malformed::IndexStateMissing),
                (Some(e), Some(StateIndex::SuperScript)) => Ok(
                    Reading { current: Some(e.with_index(Index::SuperScript(x))), ..self },
                ),
                (Some(e), Some(StateIndex::SubScript)) => Ok(
                    Reading { current: Some(e.with_index(Index::SubScript(x))), ..self },
                ),
            }
        } else {
            Ok(self)
        }
    }

    /// The entities read, the current one last.
    pub open spec fn entities(self) -> Seq<EntityView> {
        match self.current {
            Some(e) => self.done.push(e),
            None => self.done,
        }
    }
}

/// The reader after the first `n` characters of `text`, or the first fault among them.
pub open spec fn read_prefix(text: Seq<char>, n: int) -> Result<Reading, Malformed>
    decreases n,
{
    if n <= 0 {
        Ok(Reading::start())
    } else {
        match read_prefix(text, n - 1) {
            Ok(r) => r.read(text[n - 1]),
            Err(e) => Err(e),
        }
    }
}

/// The entities that `text` spells, or the first fault in it.
pub open spec fn parsed(text: Seq<char>) -> Result<Seq<EntityView>, Malformed> {
    match read_prefix(text, text.len() as int) {
        Ok(r) => Ok(r.entities()),
        Err(e) => Err(e),
    }
}

/// The entities that `text` spells, each with its indices located and its
/// contractions settled.
pub open spec fn simplified(text: Seq<char>) -> Result<Seq<EntityView>, Malformed> {
    match parsed(text) {
        Ok(list) => Ok(list.map_values(|e: EntityView| e.located().settled())),
        Err(e) => Err(e),
    }
}

/// A fault among the first `n` characters is the fault of every longer prefix.
pub proof fn lemma_fault_stays(text: Seq<char>, n: int, m: int)
    requires
        0 <= n <= m,
        read_prefix(text, n) is Err,
    ensures
        read_prefix(text, m) == read_prefix(text, n),
    decreases m - n,
{
    if n < m {
        lemma_fault_stays(text, n, m - 1);
    }
}

impl Expr {
    /// Reads the entities of `s` with their indices, in the order written.
    pub fn try_parse_original(s: &str) -> (r: Result<Expr, &'static str>)
        ensures
            match parsed(s@) {
                Ok(list) => r is Ok && r->Ok_0@ == (ExprView { original: list, result: Seq::empty() }),
                Err(e) => r is Err && r->Err_0@ == e.message(),
            },
    {
        let mut original: Vec<Entity> = Vec::new();
        let mut entity: Option<Entity> = None;
        let mut state_index: Option<StateIndex> = None;
        let n = s.unicode_len();
        let mut i: usize = 0;
        assert(contents(original@) == Seq::<EntityView>::empty());
        while i < n
            invariant
                i <= n,
                n == s@.len(),
                read_prefix(s@, i as int) == Ok::<Reading, Malformed>(
                    Reading {
                        done: contents(original@),
                        current: match entity {
                            Some(e) => Some(e@),
                            None => None,
                        },
                        mode: state_index,
                    },
                ),
            decreases n - i,
        {
            let x = s.get_char(i);
            let ghost before = read_prefix(s@, i as int)->Ok_0;
            proof {
                if before.read(x) is Err {
                    lemma_fault_stays(s@, i + 1, n as int);
                }
            }
            if x == '^' || x == '_' {
                if entity.is_none() {
                    return Err("entity missing");
                }
                if x == '^' {
                    state_index = Some(StateIndex::SuperScript);
                } else {
                    state_index = Some(StateIndex::SubScript);
                }
            } else if 'A' <= x && x <= 'Z' {
                match entity {
                    Some(y) => {
                        assert(contents(original@.push(y)) == contents(original@).push(y@));
                        original.push(y);
                    },
                    None => {},
                }
                entity = Some(Entity::new(x));
                state_index = None;
            } else if 'a' <= x && x <= 'z' {
                match entity {
                    Some(mut y) => {
                        match state_index {
                            None => {
                                return Err("index state missing");
                            },
                            Some(StateIndex::SuperScript) => {
                                y.indices.push(Index::SuperScript(x));
                            },
                            Some(StateIndex::SubScript) => {
                                y.indices.push(Index::SubScript(x));
                            },
                        }
                        entity = Some(y);
                    },
                    None => {
                        return Err("entity missing");
                    },
                }
            }
            i = i + 1;
        }
        match entity {
            Some(y) => {
                assert(contents(original@.push(y)) == contents(original@).push(y@));
                original.push(y);
            },
            None => {},
        }
        let result: Vec<Entity> = Vec::new();
        assert(contents(result@) == Seq::<EntityView>::empty());
        Ok(Expr { original, result })
    }

    /// Reads the entities of `s`, then locates the indices of each and settles
    /// its contractions.
    pub fn try_from(s: &str) -> (r: Result<Expr, &'static str>)
        ensures
            match simplified(s@) {
                Ok(list) => r is Ok && r->Ok_0@ == (ExprView { original: list, result: Seq::empty() }),
                Err(e) => r is Err && r->Err_0@ == e.message(),
            },
    {
        let parsed_expr = Expr::try_parse_original(s);
        match parsed_expr {
            Err(e) => Err(e),
            Ok(expr) => {
                let Expr { original, result } = expr;
                let mut original = original;
                let ghost read = contents(original@);
                let n = original.len();
                let mut i: usize = 0;
                while i < n
                    invariant
                        i <= n,
                        n == original.len(),
                        read.len() == n,
                        forall|k: int|
                            0 <= k < i ==> (#[trigger] original@[k])@ == read[k].located().settled(),
                        forall|k: int| i <= k < n ==> (#[trigger] original@[k])@ == read[k],
                    decreases n - i,
                {
                    let e = &mut original[i];
                    e.assign_index_loc();
                    e.determine_contraction_single();
                    i = i + 1;
                }
                assert(contents(original@) == read.map_values(|e: EntityView| e.located().settled()));
                Ok(Expr { original, result })
            },
        }
    }
}

/// Reads `expr` and simplifies it. The text has to be an expression.
pub fn ricci(expr: &str)
    requires
        simplified(expr@) is Ok,
{
    let _ = Expr::try_from(expr);
}

} // verus!
