use vstd::prelude::*;
use crate::symbols::{Kind, SymbolTable, TableModel, fold, valid_name};

verus! {

/// Source text together with the symbol table that it is compiled against.
/// The table is owned exclusively and cannot be swapped.
pub struct Expression {
    string: String,
    symbols: SymbolTable,
}

/// The text of each name.
pub open spec fn name_views(names: Seq<String>) -> Seq<Seq<char>> {
    names.map_values(|s: String| s@)
}

/// The bindings that `declare_resolved` appends for `names` to a table
/// holding `n` variables.
pub open spec fn resolved_entries(names: Seq<Seq<char>>, n: nat) -> Seq<(Seq<char>, Kind)> {
    Seq::new(names.len(), |i: int| (names[i], Kind::Variable((n + i) as usize)))
}

/// Every name is valid, none is bound in `t`, and no two are equal: the
/// names that a resolving compilation reports as unknown.
pub open spec fn fresh_names(t: TableModel, names: Seq<Seq<char>>) -> bool {
    &&& forall|i: int| 0 <= i < names.len() ==> valid_name(#[trigger] names[i]) && !t.has(names[i])
    &&& forall|i: int, j: int| 0 <= i < j < names.len() ==> fold(#[trigger] names[i]) != fold(#[trigger] names[j])
}

impl Expression {
    /// Takes ownership of `symbols` for the text `string`.
    pub fn new(string: &str, symbols: SymbolTable) -> (r: Expression)
        ensures
            r.source() == string@,
            r.table() == symbols@,
    {
        Expression { string: string.to_owned(), symbols }
    }

    pub closed spec fn source(&self) -> Seq<char> {
        self.string@
    }

    pub closed spec fn table(&self) -> TableModel {
        self.symbols@
    }

    /// The source text.
    pub fn string(&self) -> (r: &str)
        ensures
            r@ == self.source(),
    {
        self.string.as_str()
    }

    /// The owned symbol table.
    pub fn symbols(&self) -> (r: &SymbolTable)
        ensures
            r@ == self.table(),
    {
        &self.symbols
    }

    /// Replaces the owned table's variable `var_id`; `false` if there is none.
    pub fn set_value(&mut self, var_id: usize, value: u64) -> (r: bool)
        requires
            old(self).table().wf(),
        ensures
            final(self).table().wf(),
            r == (var_id < old(self).table().values.len()),
            final(self).source() == old(self).source(),
            r ==> final(self).table() == (TableModel { values: old(self).table().values.update(var_id as int, value), ..old(self).table() }),
            !r ==> final(self).table() == old(self).table(),
    {
        self.symbols.set_value(var_id, value)
    }

    /// Replaces the owned table's string `var_id`; `false` if there is none.
    pub fn set_string(&mut self, var_id: usize, text: &[u8]) -> (r: bool)
        requires
            old(self).table().wf(),
        ensures
            final(self).table().wf(),
            r == (var_id < old(self).table().strings.len()),
            final(self).source() == old(self).source(),
            r ==> final(self).table() == (TableModel { strings: old(self).table().strings.update(var_id as int, text@), ..old(self).table() }),
            !r ==> final(self).table() == old(self).table(),
    {
        self.symbols.set_string(var_id, text)
    }

    /// Declares each unknown name, in the order given, as a new variable of
    /// value zero, and returns each name with its ID.
    pub fn declare_resolved(&mut self, names: Vec<String>) -> (r: Vec<(String, usize)>)
        requires
            old(self).table().wf(),
            fresh_names(old(self).table(), name_views(names@)),
            old(self).table().values.len() + names@.len() <= usize::MAX,
        ensures
            final(self).table().wf(),
            final(self).source() == old(self).source(),
            r@.len() == names@.len(),
            forall|i: int| 0 <= i < r@.len() ==> (#[trigger] r@[i]).0@ == names@[i]@
                && r@[i].1 == old(self).table().values.len() + i,
            final(self).table().values.len() == old(self).table().values.len() + names@.len(),
            forall|i: int| 0 <= i < old(self).table().values.len() ==>
                #[trigger] final(self).table().values[i] == old(self).table().values[i],
            forall|i: int| old(self).table().values.len() <= i < final(self).table().values.len() ==>
                #[trigger] final(self).table().values[i] == 0,
            forall|i: int| 0 <= i < names@.len() ==>
                final(self).table().binds(#[trigger] names@[i]@, Kind::Variable((old(self).table().values.len() + i) as usize)),
            final(self).table().syms == old(self).table().syms
                + resolved_entries(name_views(names@), old(self).table().values.len()),
            final(self).table().strings == old(self).table().strings,
            final(self).table().vectors == old(self).table().vectors,
    {
        let ghost t0 = self.symbols@;
        let ghost ns = name_views(names@);
        let mut out: Vec<(String, usize)> = Vec::new();
        let mut i: usize = 0;
        while i < names.len()
            invariant
                i <= names@.len(),
                ns == name_views(names@),
                fresh_names(t0, ns),
                t0.values.len() + names@.len() <= usize::MAX,
                self.string@ == old(self).string@,
                self.symbols@.wf(),
                t0 == old(self).symbols@,
                out@.len() == i,
                forall|k: int| 0 <= k < i ==> (#[trigger] out@[k]).0@ == names@[k]@ && out@[k].1 == t0.values.len() + k,
                self.symbols@.values.len() == t0.values.len() + i,
                forall|k: int| 0 <= k < t0.values.len() ==> #[trigger] self.symbols@.values[k] == t0.values[k],
                forall|k: int| t0.values.len() <= k < self.symbols@.values.len() ==> #[trigger] self.symbols@.values[k] == 0,
                self.symbols@.syms.len() == t0.syms.len() + i,
                forall|k: int| 0 <= k < t0.syms.len() ==> #[trigger] self.symbols@.syms[k] == t0.syms[k],
                forall|k: int| 0 <= k < i ==> #[trigger] self.symbols@.syms[t0.syms.len() + k] == (names@[k]@, Kind::Variable((t0.values.len() + k) as usize)),
                self.symbols@.strings == t0.strings,
                self.symbols@.vectors == t0.vectors,
            decreases names@.len() - i,
        {
            let name = names[i].as_str();
            proof {
                assert(ns[i as int] == names@[i as int]@);
                assert(!self.symbols@.has(name@)) by {
                    if self.symbols@.has(name@) {
                        let j = choose|j: int| 0 <= j < self.symbols@.syms.len() && fold(#[trigger] self.symbols@.syms[j].0) == fold(name@);
                        if j < t0.syms.len() {
                            assert(fold(t0.syms[j].0) == fold(name@));
                            assert(t0.has(ns[i as int]));
                        } else {
                            let k = j - t0.syms.len();
                            assert(self.symbols@.syms[t0.syms.len() + k].0 == names@[k]@);
                            if k < i {
                                assert(fold(ns[k]) != fold(ns[i as int]));
                            }
                        }
                    }
                }
            }
            let id = self.symbols.add_variable(name, 0);
            let id = match id {
                Ok(Some(id)) => id,
                _ => { assert(false); 0 },
            };
            out.push((names[i].clone(), id));
            i = i + 1;
        }
        proof {
            assert forall|k: int| 0 <= k < names@.len() implies
                self.symbols@.binds(#[trigger] names@[k]@, Kind::Variable((t0.values.len() + k) as usize)) by {
                let j = t0.syms.len() + k;
                assert(self.symbols@.syms[j] == (names@[k]@, Kind::Variable((t0.values.len() + k) as usize)));
                assert(fold(self.symbols@.syms[j].0) == fold(names@[k]@));
            }
            let extra = resolved_entries(ns, t0.values.len());
            assert forall|k: int| 0 <= k < names@.len() implies
                #[trigger] extra[k] == self.symbols@.syms[t0.syms.len() + k] by {
                assert(ns[k] == names@[k]@);
            }
            assert(self.symbols@.syms =~= t0.syms + extra) by {
                assert forall|k: int| 0 <= k < self.symbols@.syms.len() implies
                    #[trigger] self.symbols@.syms[k] == (t0.syms + extra)[k] by {
                    if k >= t0.syms.len() {
                        assert(extra[k - t0.syms.len()] == self.symbols@.syms[t0.syms.len() + (k - t0.syms.len())]);
                    }
                }
            }
        }
        out
    }

    /// A deep copy: the same text and an independent copy of the table.
    pub fn duplicate(&self) -> (r: Expression)
        ensures
            r.source() == self.source(),
            r.table() == self.table(),
    {
        Expression { string: self.string.clone(), symbols: self.symbols.duplicate() }
    }
}

impl Clone for Expression {
    fn clone(&self) -> (r: Self)
        ensures
            r.source() == self.source(),
            r.table() == self.table(),
    {
        self.duplicate()
    }
}

} // verus!
