//! An adaptive model of symbol frequencies that keeps one table of counts
//! for each context, and serves the arithmetic coder from the table of the
//! context that is current.

use vstd::prelude::*;
use std::ops::Range;
use crate::codec::compressed::fenwick::{
    halved, lemma_sum_at_least_length, lemma_sum_monotonic, lemma_sum_split, lemma_sum_update,
    sum_range, FenwickTree, MAX_ENTRIES,
};

verus! {

/// The largest total that the counts of one context reach. The coder works
/// in 64 bits; a total below 2^31 leaves it the precision that it needs.
pub const MAX_DENOMINATOR: u64 = 0x4000_0000;

/// What the coder is handed, one after the other.
#[derive(Debug, Clone, Copy, PartialEq, Eq, Structural)]
pub enum Symbol {
    /// From here on, code under the context with this number. Its share is
    /// the whole of the current table, so it costs no bits.
    Context(usize),
    /// A value of the current context's alphabet.
    Value(usize),
}

/// A model as its tables of counts and the number of the current context.
/// Entry 0 of each table stands for the end of the stream, entry v + 1 for
/// the value v.
pub ghost struct ModelView {
    pub tables: Seq<Seq<u64>>,
    pub current: int,
}

/// The sum of all of `counts`.
pub open spec fn total_of(counts: Seq<u64>) -> int {
    sum_range(counts, 0, counts.len() as int)
}

/// The counts after entry `idx` was seen once more. Where the total has
/// reached its limit, every count is halved first, rounding up.
pub open spec fn observed(counts: Seq<u64>, idx: int) -> Seq<u64> {
    let base = if total_of(counts) >= MAX_DENOMINATOR {
        halved(counts)
    } else {
        counts
    };
    base.update(idx, (base[idx] + 1) as u64)
}

/// What a table must satisfy to serve the coder: it has the entry for the
/// end of the stream, no count is zero, and the total is within its limit.
pub open spec fn table_ok(counts: Seq<u64>) -> bool {
    &&& 1 <= counts.len() <= MAX_ENTRIES
    &&& forall|i: int| 0 <= i < counts.len() ==> #[trigger] counts[i] >= 1
    &&& total_of(counts) <= MAX_DENOMINATOR
}

impl ModelView {
    /// Every table can serve the coder, and the current context exists.
    pub open spec fn wf(self) -> bool {
        &&& forall|c: int| 0 <= c < self.tables.len() ==> table_ok(#[trigger] self.tables[c])
        &&& (self.tables.len() == 0 || 0 <= self.current < self.tables.len())
    }

    /// The table of the current context.
    pub open spec fn table(self) -> Seq<u64> {
        self.tables[self.current]
    }

    /// The number of values in the alphabet of context `c`.
    pub open spec fn alphabet_size(self, c: int) -> int {
        self.tables[c].len() - 1
    }

    /// Whether the model has a share for `symbol` now.
    pub open spec fn accepts(self, symbol: Option<Symbol>) -> bool {
        match symbol {
            None => true,
            Some(Symbol::Value(v)) => self.tables.len() > 0 && v < self.alphabet_size(self.current),
            Some(Symbol::Context(c)) => c < self.tables.len(),
        }
    }

    /// The sum of the counts of the current table; 1 in a model without
    /// contexts, which knows only the end of the stream.
    pub open spec fn denominator(self) -> int {
        if self.tables.len() == 0 {
            1
        } else {
            total_of(self.table())
        }
    }

    /// The share of `symbol` in the current table, as the range of
    /// cumulative counts that belongs to it.
    pub open spec fn share(self, symbol: Option<Symbol>) -> (int, int) {
        if self.tables.len() == 0 {
            (0, 1)
        } else {
            match symbol {
                None => (0, sum_range(self.table(), 0, 1)),
                Some(Symbol::Value(v)) => (
                    sum_range(self.table(), 0, v + 1),
                    sum_range(self.table(), 0, v + 2),
                ),
                Some(Symbol::Context(_)) => (0, total_of(self.table())),
            }
        }
    }

    /// The model after it has coded `symbol`: a value, or the end of the
    /// stream, is counted in the current table; a context becomes current.
    /// A symbol that the model does not accept changes nothing.
    pub open spec fn after(self, symbol: Option<Symbol>) -> ModelView {
        if !self.accepts(symbol) || self.tables.len() == 0 {
            self
        } else {
            match symbol {
                None => ModelView {
                    tables: self.tables.update(self.current, observed(self.table(), 0)),
                    current: self.current,
                },
                Some(Symbol::Value(v)) => ModelView {
                    tables: self.tables.update(self.current, observed(self.table(), v + 1)),
                    current: self.current,
                },
                Some(Symbol::Context(c)) => ModelView { tables: self.tables, current: c as int },
            }
        }
    }
}

impl ModelView {
    /// The model after it has coded each of `symbols`, in turn.
    pub open spec fn after_all(self, symbols: Seq<Symbol>) -> ModelView
        decreases symbols.len(),
    {
        if symbols.len() == 0 {
            self
        } else {
            self.after_all(symbols.drop_last()).after(Some(symbols.last()))
        }
    }
}

/// Whether `model` has a share for each of `symbols` when its turn comes:
/// for the first as the model stands, for each later one as the model
/// stands after the symbols before it. The end of the stream, which
/// follows them, always has a share.
pub open spec fn accepted_in_turn(model: ModelView, symbols: Seq<Symbol>) -> bool
    decreases symbols.len(),
{
    if symbols.len() == 0 {
        true
    } else {
        &&& accepted_in_turn(model, symbols.drop_last())
        &&& model.after_all(symbols.drop_last()).accepts(Some(symbols.last()))
    }
}

/// Coding a symbol leaves the number of tables and the size of each table
/// as they are.
pub proof fn lemma_after_keeps_sizes(model: ModelView, symbol: Option<Symbol>)
    requires
        0 <= model.current < model.tables.len(),
        model.table().len() >= 1,
    ensures
        model.after(symbol).tables.len() == model.tables.len(),
        forall|c: int|
            0 <= c < model.tables.len() ==> (#[trigger] model.after(symbol).tables[c]).len()
                == model.tables[c].len(),
        0 <= model.after(symbol).current < model.tables.len(),
        model.after(symbol).current == match symbol {
            Some(Symbol::Context(c)) => if c < model.tables.len() {
                c as int
            } else {
                model.current
            },
            _ => model.current,
        },
{
    let table = model.table();
    let base = if total_of(table) >= MAX_DENOMINATOR {
        halved(table)
    } else {
        table
    };
    assert(base.len() == table.len());
    assert forall|idx: int| 0 <= idx < table.len() implies #[trigger] observed(table, idx).len()
        == table.len() by {}
    match symbol {
        None => {
            assert(observed(table, 0).len() == table.len());
        },
        Some(Symbol::Value(v)) => {
            if model.accepts(symbol) {
                assert(observed(table, v + 1).len() == table.len());
            }
        },
        Some(Symbol::Context(_)) => {},
    }
}

/// Counting an entry keeps a table fit to serve the coder.
pub proof fn lemma_observed_ok(counts: Seq<u64>, idx: int)
    requires
        table_ok(counts),
        0 <= idx < counts.len(),
    ensures
        table_ok(observed(counts, idx)),
        observed(counts, idx).len() == counts.len(),
{
    let base = if total_of(counts) >= MAX_DENOMINATOR {
        halved(counts)
    } else {
        counts
    };
    if total_of(counts) >= MAX_DENOMINATOR {
        crate::codec::compressed::fenwick::lemma_halved_sum(counts, counts.len() as int);
    }
    lemma_sum_monotonic(base, 0, idx, base.len() as int);
    lemma_sum_monotonic(base, idx, idx + 1, base.len() as int);
    assert(sum_range(base, idx, idx + 1) == base[idx]) by {
        assert(sum_range(base, idx, idx) == 0);
    }
    lemma_sum_split(base, 0, idx, base.len() as int);
    lemma_sum_update(base, idx, (base[idx] + 1) as u64, 0, base.len() as int);
    assert forall|i: int| 0 <= i < base.len() implies #[trigger] base[i] >= 1 by {
        assert(counts[i] >= 1);
    }
}

/// Counts entry `idx` of `table` once more.
fn observe(table: &mut FenwickTree, idx: usize)
    requires
        old(table).wf(),
        table_ok(old(table)@),
        idx < old(table)@.len(),
    ensures
        final(table).wf(),
        table_ok(final(table)@),
        final(table)@ == observed(old(table)@, idx as int),
{
    proof {
        lemma_observed_ok(table@, idx as int);
    }
    if table.total() >= MAX_DENOMINATOR {
        table.halve();
    }
    proof {
        if total_of(old(table)@) >= MAX_DENOMINATOR {
            crate::codec::compressed::fenwick::lemma_halved_sum(old(table)@, old(table)@.len() as int);
        }
    }
    table.add(idx, 1);
}

/// The views of `tables`.
pub open spec fn tables_view(tables: Seq<FenwickTree>) -> Seq<Seq<u64>> {
    Seq::new(tables.len(), |c: int| tables[c]@)
}

/// The model behind the arithmetic coder: a table of adaptive counts for
/// each context. A model without contexts knows only the end of the stream.
pub struct FenwickModel {
    contexts: Vec<FenwickTree>,
    current: usize,
}

impl View for FenwickModel {
    type V = ModelView;

    closed spec fn view(&self) -> ModelView {
        ModelView { tables: tables_view(self.contexts@), current: self.current as int }
    }
}

impl FenwickModel {
    /// What holds of every model: its tables keep their sums, and its view
    /// is well-formed.
    #[verifier::type_invariant]
    pub closed spec fn serves(self) -> bool {
        &&& forall|c: int| 0 <= c < self.contexts@.len() ==> (#[trigger] self.contexts@[c]).wf()
        &&& self@.wf()
    }

    /// A model that serves has a well-formed view.
    pub proof fn lemma_serves(self)
        requires
            self.serves(),
        ensures
            self@.wf(),
    {
    }

    /// A model without contexts.
    pub fn new() -> (model: Self)
        ensures
            model@.tables.len() == 0,
            model@.current == 0,
    {
        FenwickModel { contexts: Vec::new(), current: 0 }
    }

    /// Adds a context with an alphabet of `symbols` values, each as likely
    /// as the others and as the end of the stream. Returns the number of
    /// the new context, or nothing where the alphabet is too large for a
    /// table; the model then stays as it is. The first context that is
    /// added becomes the current one.
    pub fn push_context(&mut self, symbols: usize) -> (context: Option<usize>)
        ensures
            match context {
                Some(c) => {
                    &&& symbols < MAX_ENTRIES
                    &&& c == old(self)@.tables.len()
                    &&& final(self)@.tables == old(self)@.tables.push(
                        Seq::new((symbols + 1) as nat, |i: int| 1u64),
                    )
                    &&& final(self)@.current == if c == 0 {
                        0
                    } else {
                        old(self)@.current
                    }
                },
                None => symbols >= MAX_ENTRIES && final(self)@ == old(self)@,
            },
    {
        proof {
            use_type_invariant(&*self);
        }
        if symbols >= MAX_ENTRIES {
            return None;
        }
        let table = FenwickTree::uniform(symbols + 1);
        proof {
            lemma_sum_at_least_length(table@, 0, table@.len() as int);
            assert(table@ =~= Seq::new((symbols + 1) as nat, |i: int| 1u64));
        }
        let mut tables: Vec<FenwickTree> = Vec::new();
        let ghost before = self.contexts@;
        std::mem::swap(&mut self.contexts, &mut tables);
        let context = tables.len();
        tables.push(table);
        proof {
            assert forall|c: int| 0 <= c < tables@.len() implies (#[trigger] tables@[c]).wf()
                && table_ok(tables@[c]@) by {
                if c < before.len() {
                    assert(tables@[c] == before[c]);
                    assert(table_ok(tables_view(before)[c]));
                }
            }
            // a model without contexts may point anywhere
            assert(tables_view(tables@) =~= tables_view(before).push(table@));
        }
        if context == 0 {
            self.current = 0;
        }
        std::mem::swap(&mut self.contexts, &mut tables);
        Some(context)
    }
}

/// `std::io::Error`, as the model's refusal of a symbol and as what the
/// coder's sink or source may fail with. Nothing is known of a value of it.
#[verifier::external_type_specification]
#[verifier::external_body]
pub struct ExIoError(std::io::Error);

/// Calls `std::io::Error::from` on `ErrorKind::InvalidInput`, for a symbol
/// that the model has no share for. Nothing is claimed of the result.
#[verifier::external_body]
fn invalid_symbol() -> (error: std::io::Error) {
    std::io::Error::from(std::io::ErrorKind::InvalidInput)
}

/// The symbol behind the reference, if there is one.
pub open spec fn referred(symbol: Option<&Symbol>) -> Option<Symbol> {
    match symbol {
        Some(s) => Some(*s),
        None => None,
    }
}

impl FenwickModel {
    /// The number of contexts.
    pub fn context_count(&self) -> (count: usize)
        ensures
            count == self@.tables.len(),
    {
        self.contexts.len()
    }

    /// The number of the current context.
    pub fn current_context(&self) -> (context: usize)
        ensures
            context == self@.current,
            self@.wf(),
    {
        proof {
            use_type_invariant(self);
        }
        self.current
    }

    /// The number of values in the alphabet of `context`, or nothing for a
    /// context that the model does not have.
    pub fn alphabet_size(&self, context: usize) -> (size: Option<usize>)
        ensures
            match size {
                Some(n) => context < self@.tables.len() && n == self@.alphabet_size(context as int),
                None => context >= self@.tables.len(),
            },
    {
        proof {
            use_type_invariant(self);
        }
        if context < self.contexts.len() {
            assert(table_ok(self@.tables[context as int]));
            Some(self.contexts[context].len() - 1)
        } else {
            None
        }
    }

    /// Makes `context` the current one. A context that the model does not
    /// have is refused, and the model stays as it is.
    pub fn set_context(&mut self, context: usize) -> (switched: bool)
        ensures
            switched == (context < old(self)@.tables.len()),
            final(self)@ == old(self)@.after(Some(Symbol::Context(context))),
            final(self)@.tables == old(self)@.tables,
    {
        proof {
            use_type_invariant(&*self);
        }
        if context < self.contexts.len() {
            self.current = context;
            true
        } else {
            false
        }
    }

    /// Counts `symbol` in the current table, or makes the context that it
    /// names the current one.
    fn observe_symbol(&mut self, symbol: Option<Symbol>)
        ensures
            final(self)@ == old(self)@.after(symbol),
    {
        proof {
            use_type_invariant(&*self);
        }
        let count = self.contexts.len();
        if count == 0 {
            return ;
        }
        let current = self.current;
        assert(table_ok(self@.tables[current as int]));
        let size = self.contexts[current].len();
        let entry: usize = match symbol {
            None => 0,
            Some(Symbol::Value(v)) => {
                if v >= size - 1 {
                    return ;
                }
                v + 1
            },
            Some(Symbol::Context(c)) => {
                if c < count {
                    self.current = c;
                }
                return ;
            },
        };
        let ghost before = self.contexts@;
        let mut tables: Vec<FenwickTree> = Vec::new();
        std::mem::swap(&mut self.contexts, &mut tables);
        observe(&mut tables[current], entry);
        proof {
            assert forall|c: int| 0 <= c < tables@.len() implies (#[trigger] tables@[c]).wf()
                && table_ok(tables@[c]@) by {
                if c != current {
                    assert(tables@[c] == before[c]);
                    assert(table_ok(tables_view(before)[c]));
                }
            }
            assert(tables_view(tables@) =~= tables_view(before).update(
                current as int,
                observed(before[current as int]@, entry as int),
            ));
        }
        std::mem::swap(&mut self.contexts, &mut tables);
    }
}

impl arithmetic_coding::Model for FenwickModel {
    type Symbol = Symbol;

    type ValueError = std::io::Error;

    type B = u64;

    /// The share of `symbol` in the current table. It is not empty and lies
    /// within the denominator. A value outside the current alphabet and a
    /// context that the model does not have are refused.
    fn probability(&self, symbol: Option<&Symbol>) -> (share: Result<Range<u64>, std::io::Error>)
        ensures
            share is Ok <==> self@.accepts(referred(symbol)),
            share matches Ok(range) ==> {
                &&& range.start == self@.share(referred(symbol)).0
                &&& range.end == self@.share(referred(symbol)).1
                &&& 0 <= range.start < range.end <= self@.denominator()
            },
    {
        proof {
            use_type_invariant(self);
        }
        if self.contexts.len() == 0 {
            return match symbol {
                None => Ok(Range { start: 0, end: 1 }),
                Some(_) => Err(invalid_symbol()),
            };
        }
        let table = &self.contexts[self.current];
        assert(table_ok(self@.tables[self.current as int]));
        let size = table.len();
        match symbol {
            None => {
                proof {
                    lemma_sum_monotonic(table@, 0, 1, size as int);
                    assert(sum_range(table@, 0, 1) == table@[0]) by {
                        assert(sum_range(table@, 0, 0) == 0);
                    }
                }
                Ok(Range { start: 0, end: table.count(0) })
            },
            Some(Symbol::Value(v)) => {
                if *v >= size - 1 {
                    return Err(invalid_symbol());
                }
                proof {
                    lemma_sum_monotonic(table@, 0, v + 2, size as int);
                    assert(table@[v + 1] >= 1);
                }
                let start = table.prefix_sum(*v + 1);
                let end = start + table.count(*v + 1);
                Ok(Range { start, end })
            },
            Some(Symbol::Context(c)) => {
                if *c >= self.contexts.len() {
                    return Err(invalid_symbol());
                }
                proof {
                    lemma_sum_at_least_length(table@, 0, size as int);
                }
                Ok(Range { start: 0, end: table.total() })
            },
        }
    }

    /// The sum of the counts of the current table.
    fn denominator(&self) -> (denominator: u64)
        ensures
            denominator == self@.denominator(),
            1 <= denominator <= MAX_DENOMINATOR,
    {
        proof {
            use_type_invariant(self);
        }
        if self.contexts.len() == 0 {
            return 1;
        }
        let table = &self.contexts[self.current];
        proof {
            assert(table_ok(self@.tables[self.current as int]));
            lemma_sum_at_least_length(table@, 0, table@.len() as int);
        }
        table.total()
    }

    /// The limit that no denominator exceeds.
    fn max_denominator(&self) -> (limit: u64)
        ensures
            limit == MAX_DENOMINATOR,
    {
        MAX_DENOMINATOR
    }

    /// The symbol in whose share `value` falls: the end of the stream, or a
    /// value of the current alphabet. It is never a context, and the model
    /// accepts it. A `value` that is no cumulative count of the current
    /// table gives the end of the stream.
    fn symbol(&self, value: u64) -> (symbol: Option<Symbol>)
        ensures
            self@.accepts(symbol),
            !(symbol matches Some(Symbol::Context(_))),
            value < self@.denominator() ==> self@.share(symbol).0 <= value < self@.share(symbol).1,
            value >= self@.denominator() ==> symbol is None,
    {
        proof {
            use_type_invariant(self);
        }
        if self.contexts.len() == 0 {
            return None;
        }
        let table = &self.contexts[self.current];
        assert(table_ok(self@.tables[self.current as int]));
        if value >= table.total() {
            return None;
        }
        let entry = table.find(value);
        if entry == 0 {
            None
        } else {
            Some(Symbol::Value(entry - 1))
        }
    }

    /// Counts `symbol` in the current table, or makes the context that it
    /// names the current one. A symbol that the model does not accept
    /// changes nothing.
    fn update(&mut self, symbol: Option<&Symbol>)
        ensures
            final(self)@ == old(self)@.after(referred(symbol)),
    {
        let owned: Option<Symbol> = match symbol {
            Some(s) => Some(*s),
            None => None,
        };
        self.observe_symbol(owned);
    }
}

} // verus!
