use vstd::prelude::*;
use crate::error::InvalidName;
use crate::string_value::{StringValue, copy_slice};

verus! {

/// What a name is bound to. Scalars are IEEE-754 bit patterns; the `usize`
/// of a variable, string or vector is its ID.
#[derive(Clone, Copy, PartialEq, Eq)]
pub enum Kind {
    Variable(usize),
    StringVar(usize),
    Vector(usize),
    Constant(u64),
    Function(u8),
}

#[derive(Clone)]
pub struct Entry {
    pub name: String,
    pub kind: Kind,
}

/// The abstract state of a table: bindings in order of registration, and the
/// cells of each kind indexed by ID.
pub ghost struct TableModel {
    pub syms: Seq<(Seq<char>, Kind)>,
    pub values: Seq<u64>,
    pub strings: Seq<Seq<u8>>,
    pub vectors: Seq<Seq<u64>>,
}

impl TableModel {
    pub open spec fn has(self, n: Seq<char>) -> bool {
        exists|i: int| 0 <= i < self.syms.len() && #[trigger] fold(self.syms[i].0) == fold(n)
    }

    /// Whether `n` is bound with a binding of tag `tag`.
    pub open spec fn has_tag(self, n: Seq<char>, tag: u8) -> bool {
        exists|i: int| 0 <= i < self.syms.len() && #[trigger] fold(self.syms[i].0) == fold(n) && kind_tag(self.syms[i].1) == tag
    }

    /// Every name is an identifier bound once across all kinds; every ID
    /// names a cell of its kind; each kind has as many bindings as cells.
    pub open spec fn wf(self) -> bool {
        &&& forall|i: int| 0 <= i < self.syms.len() ==> valid_name(#[trigger] self.syms[i].0)
        &&& forall|i: int, j: int| 0 <= i < j < self.syms.len() ==> fold(#[trigger] self.syms[i].0) != fold(#[trigger] self.syms[j].0)
        &&& forall|i: int| 0 <= i < self.syms.len() ==> id_in_range(self, #[trigger] self.syms[i].1)
        &&& count_tag(self.syms, 0) == self.values.len()
        &&& count_tag(self.syms, 1) == self.strings.len()
        &&& count_tag(self.syms, 2) == self.vectors.len()
        &&& self.values.len() <= usize::MAX
        &&& self.strings.len() <= usize::MAX
        &&& self.vectors.len() <= usize::MAX
    }

    pub open spec fn binds(self, n: Seq<char>, k: Kind) -> bool {
        exists|i: int| 0 <= i < self.syms.len() && fold(#[trigger] self.syms[i].0) == fold(n) && self.syms[i].1 == k
    }
}

/// Tells the kinds of binding apart.
pub open spec fn kind_tag(k: Kind) -> u8 {
    match k {
        Kind::Variable(_) => 0,
        Kind::StringVar(_) => 1,
        Kind::Vector(_) => 2,
        Kind::Constant(_) => 3,
        Kind::Function(_) => 4,
    }
}

/// The names among `syms` whose binding has tag `tag`, in order.
pub open spec fn names_tagged(syms: Seq<(Seq<char>, Kind)>, tag: u8) -> Seq<Seq<char>> {
    syms.filter(tag_is(tag)).map_values(|e: (Seq<char>, Kind)| e.0)
}

pub open spec fn tag_is(tag: u8) -> spec_fn((Seq<char>, Kind)) -> bool {
    |e: (Seq<char>, Kind)| kind_tag(e.1) == tag
}

pub open spec fn tag_not(tag: u8) -> spec_fn((Seq<char>, Kind)) -> bool {
    |e: (Seq<char>, Kind)| kind_tag(e.1) != tag
}

/// How many of `syms` are bound with tag `tag`.
pub open spec fn count_tag(syms: Seq<(Seq<char>, Kind)>, tag: u8) -> nat {
    syms.filter(tag_is(tag)).len()
}

/// Whether the ID of a variable, string or vector binding names a cell.
pub open spec fn id_in_range(t: TableModel, k: Kind) -> bool {
    match k {
        Kind::Variable(id) => id < t.values.len(),
        Kind::StringVar(id) => id < t.strings.len(),
        Kind::Vector(id) => id < t.vectors.len(),
        _ => true,
    }
}

proof fn lemma_filter_push(s: Seq<(Seq<char>, Kind)>, p: spec_fn((Seq<char>, Kind)) -> bool, x: (Seq<char>, Kind))
    ensures
        s.push(x).filter(p) == (if p(x) { s.filter(p).push(x) } else { s.filter(p) }),
{
    reveal_with_fuel(Seq::filter, 1);
    assert(s.push(x).drop_last() =~= s);
}

/// What a filter keeps comes from the sequence, and distinct names stay distinct.
proof fn lemma_filter_sub(s: Seq<(Seq<char>, Kind)>, p: spec_fn((Seq<char>, Kind)) -> bool)
    ensures
        forall|i: int| 0 <= i < s.filter(p).len() ==> s.contains(#[trigger] s.filter(p)[i]) && p(s.filter(p)[i]),
        (forall|i: int, j: int| 0 <= i < j < s.len() ==> fold(#[trigger] s[i].0) != fold(#[trigger] s[j].0)) ==>
            (forall|i: int, j: int| 0 <= i < j < s.filter(p).len() ==> fold(#[trigger] s.filter(p)[i].0) != fold(#[trigger] s.filter(p)[j].0)),
    decreases s.len(),
{
    reveal_with_fuel(Seq::filter, 1);
    if s.len() > 0 {
        let d = s.drop_last();
        lemma_filter_sub(d, p);
        let f = d.filter(p);
        assert forall|i: int| 0 <= i < f.len() implies s.contains(#[trigger] f[i]) by {
            let j = choose|j: int| 0 <= j < d.len() && d[j] == f[i];
            assert(s[j] == f[i]);
        }
        if forall|i: int, j: int| 0 <= i < j < s.len() ==> fold(#[trigger] s[i].0) != fold(#[trigger] s[j].0) {
            assert forall|i: int, j: int| 0 <= i < j < d.len() implies fold(#[trigger] d[i].0) != fold(#[trigger] d[j].0) by {
                assert(s[i] == d[i] && s[j] == d[j]);
            }
            if p(s.last()) {
                let g = f.push(s.last());
                assert forall|i: int, j: int| 0 <= i < j < g.len() implies fold(#[trigger] g[i].0) != fold(#[trigger] g[j].0) by {
                    if j == g.len() - 1 {
                        let k = choose|k: int| 0 <= k < d.len() && d[k] == f[i];
                        assert(s[k] == d[k]);
                        assert(fold(s[k].0) != fold(s[s.len() - 1].0));
                    }
                }
            }
        }
    }
}

/// Filtering by `p` first changes nothing for a `q` that implies `p`.
proof fn lemma_filter_absorb(s: Seq<(Seq<char>, Kind)>, p: spec_fn((Seq<char>, Kind)) -> bool, q: spec_fn((Seq<char>, Kind)) -> bool)
    requires
        forall|x: (Seq<char>, Kind)| #[trigger] q(x) ==> p(x),
    ensures
        s.filter(p).filter(q) == s.filter(q),
    decreases s.len(),
{
    reveal_with_fuel(Seq::filter, 1);
    if s.len() > 0 {
        let d = s.drop_last();
        lemma_filter_absorb(d, p, q);
        if p(s.last()) {
            lemma_filter_push(d.filter(p), q, s.last());
        }
    }
}

/// Filtering by `p` first leaves nothing for a `q` that excludes `p`.
proof fn lemma_filter_disjoint(s: Seq<(Seq<char>, Kind)>, p: spec_fn((Seq<char>, Kind)) -> bool, q: spec_fn((Seq<char>, Kind)) -> bool)
    requires
        forall|x: (Seq<char>, Kind)| #[trigger] q(x) ==> !p(x),
    ensures
        s.filter(p).filter(q).len() == 0,
    decreases s.len(),
{
    reveal_with_fuel(Seq::filter, 1);
    if s.len() > 0 {
        let d = s.drop_last();
        lemma_filter_disjoint(d, p, q);
        if p(s.last()) {
            lemma_filter_push(d.filter(p), q, s.last());
        }
    }
}

/// A character's code with ASCII capitals lowered: names are compared
/// without regard to case.
pub open spec fn lower_code(c: char) -> u32 {
    if 65 <= c as u32 && c as u32 <= 90 { (c as u32 + 32) as u32 } else { c as u32 }
}

/// The key under which a name is bound.
pub open spec fn fold(n: Seq<char>) -> Seq<u32> {
    n.map_values(|c: char| lower_code(c))
}

/// Whether two names denote the same symbol.
fn same_key(a: &str, b: &str) -> (r: bool)
    ensures
        r == (fold(a@) == fold(b@)),
{
    let la = a.unicode_len();
    let lb = b.unicode_len();
    if la != lb {
        assert(fold(a@).len() != fold(b@).len());
        return false;
    }
    let mut i: usize = 0;
    while i < la
        invariant
            i <= la,
            la == a@.len(),
            lb == b@.len(),
            la == lb,
            forall|k: int| 0 <= k < i ==> #[trigger] fold(a@)[k] == fold(b@)[k],
        decreases la - i,
    {
        let ca = a.get_char(i) as u32;
        let cb = b.get_char(i) as u32;
        let ka: u32 = if 65 <= ca && ca <= 90 { ca + 32 } else { ca };
        let kb: u32 = if 65 <= cb && cb <= 90 { cb + 32 } else { cb };
        if ka != kb {
            assert(fold(a@)[i as int] != fold(b@)[i as int]);
            return false;
        }
        i = i + 1;
    }
    assert(fold(a@) =~= fold(b@));
    true
}

pub open spec fn is_letter(c: char) -> bool {
    (97 <= c as u32 && c as u32 <= 122) || (65 <= c as u32 && c as u32 <= 90)
}

pub open spec fn is_digit(c: char) -> bool {
    48 <= c as u32 && c as u32 <= 57
}

/// A name is an identifier: a letter, then letters, digits, `_`, or `.`
/// anywhere but at the end.
pub open spec fn valid_name(n: Seq<char>) -> bool {
    &&& n.len() > 0
    &&& is_letter(n[0])
    &&& forall|i: int| 1 <= i < n.len() ==> {
        let c = #[trigger] n[i];
        is_letter(c) || is_digit(c) || c == '_' || (c == '.' && i < n.len() - 1)
    }
}

/// Whether `name` is an identifier that the table accepts.
pub fn is_valid_name(name: &str) -> (r: bool)
    ensures
        r == valid_name(name@),
{
    let len = name.unicode_len();
    if len == 0 {
        return false;
    }
    let c0 = name.get_char(0);
    if !(('a' <= c0 && c0 <= 'z') || ('A' <= c0 && c0 <= 'Z')) {
        return false;
    }
    let mut i: usize = 1;
    while i < len
        invariant
            1 <= i <= len,
            len == name@.len(),
            forall|k: int| 1 <= k < i ==> {
                let c = #[trigger] name@[k];
                is_letter(c) || is_digit(c) || c == '_' || (c == '.' && k < name@.len() - 1)
            },
        decreases len - i,
    {
        let c = name.get_char(i);
        let ok = ('a' <= c && c <= 'z') || ('A' <= c && c <= 'Z') || ('0' <= c && c <= '9') || c == '_'
            || (c == '.' && i + 1 < len);
        if !ok {
            return false;
        }
        i = i + 1;
    }
    true
}

pub open spec fn entry_view(e: Entry) -> (Seq<char>, Kind) {
    (e.name@, e.kind)
}

/// Owns every named binding: variables, strings, vectors, constants and
/// function names. A name is bound at most once across all kinds.
pub struct SymbolTable {
    entries: Vec<Entry>,
    values: Vec<u64>,
    strings: Vec<StringValue>,
    vectors: Vec<Vec<u64>>,
}

impl View for SymbolTable {
    type V = TableModel;

    closed spec fn view(&self) -> TableModel {
        TableModel {
            syms: self.entries@.map_values(|e: Entry| entry_view(e)),
            values: self.values@,
            strings: self.strings@.map_values(|s: StringValue| s@),
            vectors: self.vectors@.map_values(|v: Vec<u64>| v@),
        }
    }
}

impl SymbolTable {
    pub fn new() -> (r: SymbolTable)
        ensures
            r@.wf(),
            r@.syms.len() == 0,
            r@.values.len() == 0,
            r@.strings.len() == 0,
            r@.vectors.len() == 0,
    {
        let r = SymbolTable { entries: Vec::new(), values: Vec::new(), strings: Vec::new(), vectors: Vec::new() };
        assert(r@.syms =~= Seq::<(Seq<char>, Kind)>::empty());
        assert(r@.strings =~= Seq::<Seq<u8>>::empty());
        assert(r@.vectors =~= Seq::<Seq<u64>>::empty());
        proof {
            reveal_with_fuel(Seq::filter, 1);
        }
        r
    }

    /// Position of the binding of `name`, if any.
    fn find(&self, name: &str) -> (r: Option<usize>)
        ensures
            r is None <==> !self@.has(name@),
            r matches Some(i) ==> i < self@.syms.len() && fold(self@.syms[i as int].0) == fold(name@),
    {
        let mut i: usize = 0;
        while i < self.entries.len()
            invariant
                i <= self.entries@.len(),
                forall|j: int| 0 <= j < i ==> fold(#[trigger] self@.syms[j].0) != fold(name@),
            decreases self.entries@.len() - i,
        {
            if same_key(self.entries[i].name.as_str(), name) {
                assert(fold(self@.syms[i as int].0) == fold(name@));
                return Some(i);
            }
            i = i + 1;
        }
        None
    }

    /// Registers `name` with `kind` unless it is invalid or already bound.
    fn register(&mut self, name: &str, kind: Kind) -> (r: Result<bool, InvalidName>)
        ensures
            !valid_name(name@) ==> (r matches Err(e) && e.0@ == name@),
            valid_name(name@) ==> (r matches Ok(b) && b == !old(self)@.has(name@)),
            r matches Ok(true) ==> final(self)@ == (TableModel { syms: old(self)@.syms.push((name@, kind)), ..old(self)@ }),
            !(r matches Ok(true)) ==> final(self)@ == old(self)@,
    {
        if !is_valid_name(name) {
            return Err(InvalidName(name.to_owned()));
        }
        if self.find(name).is_some() {
            return Ok(false);
        }
        let ghost before = self@;
        self.entries.push(Entry { name: name.to_owned(), kind });
        assert(self@.syms =~= before.syms.push((name@, kind)));
        assert(self@.strings =~= before.strings);
        assert(self@.vectors =~= before.vectors);
        Ok(true)
    }

    /// Registers a named constant. `Ok(false)` if the name is already bound.
    pub fn add_constant(&mut self, name: &str, value: u64) -> (r: Result<bool, InvalidName>)
        requires
            old(self)@.wf(),
        ensures
            final(self)@.wf(),
            !valid_name(name@) ==> (r matches Err(e) && e.0@ == name@),
            valid_name(name@) ==> (r matches Ok(b) && b == !old(self)@.has(name@)),
            r matches Ok(true) ==> final(self)@ == (TableModel {
                syms: old(self)@.syms.push((name@, Kind::Constant(value))),
                ..old(self)@
            }),
            !(r matches Ok(true)) ==> final(self)@ == old(self)@,
    {
        let ghost t0 = self@;
        let r = self.register(name, Kind::Constant(value));
        proof {
            if r matches Ok(true) {
                lemma_push_wf(t0, self@, name@, Kind::Constant(value));
            }
        }
        r
    }

    /// Adds a scalar variable and returns its ID, or `None` if the name is
    /// already bound.
    pub fn add_variable(&mut self, name: &str, value: u64) -> (r: Result<Option<usize>, InvalidName>)
        requires
            old(self)@.wf(),
        ensures
            final(self)@.wf(),
            !valid_name(name@) ==> (r matches Err(e) && e.0@ == name@),
            valid_name(name@) && old(self)@.has(name@) ==> r matches Ok(None),
            valid_name(name@) && !old(self)@.has(name@) ==> r == Ok::<Option<usize>, InvalidName>(Some(old(self)@.values.len() as usize)),
            r matches Ok(Some(id)) ==> final(self)@ == (TableModel {
                syms: old(self)@.syms.push((name@, Kind::Variable(id))),
                values: old(self)@.values.push(value),
                ..old(self)@
            }),
            !(r matches Ok(Some(_))) ==> final(self)@ == old(self)@,
    {
        let id = self.values.len();
        let ghost t0 = self@;
        match self.register(name, Kind::Variable(id)) {
            Err(e) => Err(e),
            Ok(false) => Ok(None),
            Ok(true) => {
                let ghost before = self@;
                self.values.push(value);
                assert(self@.strings =~= before.strings);
                assert(self@.vectors =~= before.vectors);
                // reading the length brings its bound into the proof
                let _len = self.values.len();
                proof { lemma_push_wf(t0, self@, name@, Kind::Variable(id)); }
                Ok(Some(id))
            },
        }
    }

    /// Sets the variable `var_id`; `false` if there is no such variable.
    pub fn set_value(&mut self, var_id: usize, value: u64) -> (r: bool)
        requires
            old(self)@.wf(),
        ensures
            final(self)@.wf(),
            r == (var_id < old(self)@.values.len()),
            r ==> final(self)@ == (TableModel { values: old(self)@.values.update(var_id as int, value), ..old(self)@ }),
            !r ==> final(self)@ == old(self)@,
    {
        if var_id < self.values.len() {
            let ghost before = self@;
            self.values.set(var_id, value);
            assert(self@.strings =~= before.strings);
            assert(self@.vectors =~= before.vectors);
            true
        } else {
            false
        }
    }

    /// The value of variable `var_id`, if there is one.
    pub fn value(&self, var_id: usize) -> (r: Option<u64>)
        ensures
            var_id < self@.values.len() ==> r == Some(self@.values[var_id as int]),
            var_id >= self@.values.len() ==> r is None,
    {
        if var_id < self.values.len() {
            Some(self.values[var_id])
        } else {
            None
        }
    }

    /// Adds a string variable and returns its ID, or `None` if the name is
    /// already bound.
    pub fn add_stringvar(&mut self, name: &str, text: &[u8]) -> (r: Result<Option<usize>, InvalidName>)
        requires
            old(self)@.wf(),
        ensures
            final(self)@.wf(),
            !valid_name(name@) ==> (r matches Err(e) && e.0@ == name@),
            valid_name(name@) && old(self)@.has(name@) ==> r matches Ok(None),
            valid_name(name@) && !old(self)@.has(name@) ==> r == Ok::<Option<usize>, InvalidName>(Some(old(self)@.strings.len() as usize)),
            r matches Ok(Some(id)) ==> final(self)@ == (TableModel {
                syms: old(self)@.syms.push((name@, Kind::StringVar(id))),
                strings: old(self)@.strings.push(text@),
                ..old(self)@
            }),
            !(r matches Ok(Some(_))) ==> final(self)@ == old(self)@,
    {
        let id = self.strings.len();
        let ghost t0 = self@;
        match self.register(name, Kind::StringVar(id)) {
            Err(e) => Err(e),
            Ok(false) => Ok(None),
            Ok(true) => {
                let ghost before = self@;
                self.strings.push(StringValue::new(text));
                assert(self@.strings =~= before.strings.push(text@));
                assert(self@.vectors =~= before.vectors);
                // reading the length brings its bound into the proof
                let _len = self.strings.len();
                proof { lemma_push_wf(t0, self@, name@, Kind::StringVar(id)); }
                Ok(Some(id))
            },
        }
    }

    /// Replaces the contents of string `var_id`; `false` if there is none.
    pub fn set_string(&mut self, var_id: usize, text: &[u8]) -> (r: bool)
        requires
            old(self)@.wf(),
        ensures
            final(self)@.wf(),
            r == (var_id < old(self)@.strings.len()),
            r ==> final(self)@ == (TableModel { strings: old(self)@.strings.update(var_id as int, text@), ..old(self)@ }),
            !r ==> final(self)@ == old(self)@,
    {
        if var_id < self.strings.len() {
            let ghost before = self@;
            self.strings.set(var_id, StringValue::new(text));
            assert(self@.strings =~= before.strings.update(var_id as int, text@));
            assert(self@.vectors =~= before.vectors);
            true
        } else {
            false
        }
    }

    /// The string `var_id`, if there is one.
    pub fn string(&self, var_id: usize) -> (r: Option<&StringValue>)
        ensures
            var_id < self@.strings.len() ==> (r matches Some(s) && s@ == self@.strings[var_id as int]),
            var_id >= self@.strings.len() ==> r is None,
    {
        if var_id < self.strings.len() {
            Some(&self.strings[var_id])
        } else {
            None
        }
    }

    /// Adds a fixed-length vector and returns its ID, or `None` if the name
    /// is already bound.
    pub fn add_vector(&mut self, name: &str, vec: &[u64]) -> (r: Result<Option<usize>, InvalidName>)
        requires
            old(self)@.wf(),
        ensures
            final(self)@.wf(),
            !valid_name(name@) ==> (r matches Err(e) && e.0@ == name@),
            valid_name(name@) && old(self)@.has(name@) ==> r matches Ok(None),
            valid_name(name@) && !old(self)@.has(name@) ==> r == Ok::<Option<usize>, InvalidName>(Some(old(self)@.vectors.len() as usize)),
            r matches Ok(Some(id)) ==> final(self)@ == (TableModel {
                syms: old(self)@.syms.push((name@, Kind::Vector(id))),
                vectors: old(self)@.vectors.push(vec@),
                ..old(self)@
            }),
            !(r matches Ok(Some(_))) ==> final(self)@ == old(self)@,
    {
        let id = self.vectors.len();
        let ghost t0 = self@;
        match self.register(name, Kind::Vector(id)) {
            Err(e) => Err(e),
            Ok(false) => Ok(None),
            Ok(true) => {
                let ghost before = self@;
                self.vectors.push(copy_slice(vec));
                assert(self@.strings =~= before.strings);
                assert(self@.vectors =~= before.vectors.push(vec@));
                // reading the length brings its bound into the proof
                let _len = self.vectors.len();
                proof { lemma_push_wf(t0, self@, name@, Kind::Vector(id)); }
                Ok(Some(id))
            },
        }
    }

    /// The vector `var_id`, if there is one.
    pub fn vector(&self, var_id: usize) -> (r: Option<&[u64]>)
        ensures
            var_id < self@.vectors.len() ==> (r matches Some(v) && v@ == self@.vectors[var_id as int]),
            var_id >= self@.vectors.len() ==> r is None,
    {
        if var_id < self.vectors.len() {
            Some(self.vectors[var_id].as_slice())
        } else {
            None
        }
    }

    /// The number of bindings.
    pub fn entry_count(&self) -> (r: usize)
        ensures
            r == self@.syms.len(),
    {
        self.entries.len()
    }

    /// The name and binding registered at position `i`, in order of registration.
    pub fn entry(&self, i: usize) -> (r: Option<(&str, Kind)>)
        ensures
            i < self@.syms.len() ==> (r matches Some(p) && p.0@ == self@.syms[i as int].0 && p.1 == self@.syms[i as int].1),
            i >= self@.syms.len() ==> r is None,
    {
        if i < self.entries.len() {
            Some((self.entries[i].name.as_str(), self.entries[i].kind))
        } else {
            None
        }
    }

    /// Removes every binding whose tag is `tag`, keeping the others in order.
    fn drop_kind(&mut self, tag: u8)
        ensures
            final(self)@.syms == old(self)@.syms.filter(tag_not(tag)),
            final(self)@.values == old(self)@.values,
            final(self)@.strings == old(self)@.strings,
            final(self)@.vectors == old(self)@.vectors,
    {
        let ghost s0 = self@.syms;
        let ghost pred = tag_not(tag);
        let mut kept: Vec<Entry> = Vec::new();
        let mut i: usize = 0;
        while i < self.entries.len()
            invariant
                i <= self.entries@.len(),
                s0 == self@.syms,
                self@ == old(self)@,
                pred == tag_not(tag),
                kept@.map_values(|e: Entry| entry_view(e)) == s0.subrange(0, i as int).filter(pred),
            decreases self.entries@.len() - i,
        {
            let ghost before = kept@.map_values(|e: Entry| entry_view(e));
            let k = self.entries[i].kind;
            let keep = match k {
                Kind::Variable(_) => tag != 0,
                Kind::StringVar(_) => tag != 1,
                Kind::Vector(_) => tag != 2,
                Kind::Constant(_) => tag != 3,
                Kind::Function(_) => tag != 4,
            };
            if keep {
                kept.push(Entry { name: self.entries[i].name.clone(), kind: k });
            }
            proof {
                let sub = s0.subrange(0, i as int + 1);
                assert(sub.drop_last() =~= s0.subrange(0, i as int));
                assert(sub.last() == s0[i as int]);
                reveal_with_fuel(Seq::filter, 1);
                if keep {
                    assert(kept@.map_values(|e: Entry| entry_view(e)) =~= before.push(s0[i as int]));
                } else {
                    assert(kept@.map_values(|e: Entry| entry_view(e)) =~= before);
                }
            }
            i = i + 1;
        }
        assert(s0.subrange(0, s0.len() as int) =~= s0);
        self.entries = kept;
    }

    /// Drops every scalar variable; their IDs are no longer valid.
    pub fn clear_variables(&mut self)
        requires
            old(self)@.wf(),
        ensures
            forall|n: Seq<char>| #[trigger] final(self)@.has(n) <==> (old(self)@.has(n) && !old(self)@.has_tag(n, 0)),
            final(self)@.wf(),
            final(self)@ == (TableModel {
                syms: old(self)@.syms.filter(tag_not(0)),
                values: Seq::empty(),
                ..old(self)@
            }),
    {
        let ghost t0 = self@;
        self.drop_kind(0);
        self.values = Vec::new();
        proof { lemma_clear_wf(t0, self@, 0); }
    }

    /// Drops every string variable; their IDs are no longer valid.
    pub fn clear_strings(&mut self)
        requires
            old(self)@.wf(),
        ensures
            forall|n: Seq<char>| #[trigger] final(self)@.has(n) <==> (old(self)@.has(n) && !old(self)@.has_tag(n, 1)),
            final(self)@.wf(),
            final(self)@ == (TableModel {
                syms: old(self)@.syms.filter(tag_not(1)),
                strings: Seq::empty(),
                ..old(self)@
            }),
    {
        let ghost t0 = self@;
        self.drop_kind(1);
        self.strings = Vec::new();
        assert(self@.strings =~= Seq::<Seq<u8>>::empty());
        proof { lemma_clear_wf(t0, self@, 1); }
    }

    /// Drops every vector; their IDs are no longer valid.
    pub fn clear_vectors(&mut self)
        requires
            old(self)@.wf(),
        ensures
            forall|n: Seq<char>| #[trigger] final(self)@.has(n) <==> (old(self)@.has(n) && !old(self)@.has_tag(n, 2)),
            final(self)@.wf(),
            final(self)@ == (TableModel {
                syms: old(self)@.syms.filter(tag_not(2)),
                vectors: Seq::empty(),
                ..old(self)@
            }),
    {
        let ghost t0 = self@;
        self.drop_kind(2);
        self.vectors = Vec::new();
        assert(self@.vectors =~= Seq::<Seq<u64>>::empty());
        proof { lemma_clear_wf(t0, self@, 2); }
    }

    /// The names bound with tag `tag`, in order of registration.
    fn names_of(&self, tag: u8) -> (r: Vec<String>)
        ensures
            r@.map_values(|n: String| n@) == names_tagged(self@.syms, tag),
    {
        let ghost s0 = self@.syms;
        let ghost pred = tag_not(tag);
        let ghost npred = tag_is(tag);
        let mut out: Vec<String> = Vec::new();
        let mut i: usize = 0;
        while i < self.entries.len()
            invariant
                i <= self.entries@.len(),
                s0 == self@.syms,
                npred == tag_is(tag),
                out@.map_values(|n: String| n@) == s0.subrange(0, i as int).filter(npred).map_values(|e: (Seq<char>, Kind)| e.0),
            decreases self.entries@.len() - i,
        {
            let ghost before = out@.map_values(|n: String| n@);
            let k = self.entries[i].kind;
            let take = match k {
                Kind::Variable(_) => tag == 0,
                Kind::StringVar(_) => tag == 1,
                Kind::Vector(_) => tag == 2,
                Kind::Constant(_) => tag == 3,
                Kind::Function(_) => tag == 4,
            };
            if take {
                out.push(self.entries[i].name.clone());
            }
            proof {
                let sub = s0.subrange(0, i as int + 1);
                assert(sub.drop_last() =~= s0.subrange(0, i as int));
                assert(sub.last() == s0[i as int]);
                reveal_with_fuel(Seq::filter, 1);
                let f = s0.subrange(0, i as int).filter(npred);
                if take {
                    assert(sub.filter(npred) == f.push(s0[i as int]));
                    assert(f.push(s0[i as int]).map_values(|e: (Seq<char>, Kind)| e.0)
                        =~= f.map_values(|e: (Seq<char>, Kind)| e.0).push(s0[i as int].0));
                    assert(out@.map_values(|n: String| n@) =~= before.push(s0[i as int].0));
                } else {
                    assert(out@.map_values(|n: String| n@) =~= before);
                }
            }
            i = i + 1;
        }
        assert(s0.subrange(0, s0.len() as int) =~= s0);
        out
    }

    /// The names of the scalar variables, in order of registration.
    pub fn get_variable_names(&self) -> (r: Vec<String>)
        requires
            self@.wf(),
        ensures
            r@.map_values(|n: String| n@) == names_tagged(self@.syms, 0),
            r@.len() == self@.values.len(),
            forall|i: int, j: int| 0 <= i < j < r@.len() ==> #[trigger] r@[i]@ != #[trigger] r@[j]@,
    {
        let r = self.names_of(0);
        proof { lemma_names_distinct(self@, 0, r@); }
        r
    }

    /// The names of the string variables, in order of registration.
    pub fn get_stringvar_names(&self) -> (r: Vec<String>)
        requires
            self@.wf(),
        ensures
            r@.map_values(|n: String| n@) == names_tagged(self@.syms, 1),
            r@.len() == self@.strings.len(),
            forall|i: int, j: int| 0 <= i < j < r@.len() ==> #[trigger] r@[i]@ != #[trigger] r@[j]@,
    {
        let r = self.names_of(1);
        proof { lemma_names_distinct(self@, 1, r@); }
        r
    }

    /// The names of the vectors, in order of registration.
    pub fn get_vector_names(&self) -> (r: Vec<String>)
        requires
            self@.wf(),
        ensures
            r@.map_values(|n: String| n@) == names_tagged(self@.syms, 2),
            r@.len() == self@.vectors.len(),
            forall|i: int, j: int| 0 <= i < j < r@.len() ==> #[trigger] r@[i]@ != #[trigger] r@[j]@,
    {
        let r = self.names_of(2);
        proof { lemma_names_distinct(self@, 2, r@); }
        r
    }

    /// Whether `name` is bound to anything.
    pub fn symbol_exists(&self, name: &str) -> (r: bool)
        ensures
            r == self@.has(name@),
    {
        self.find(name).is_some()
    }

    /// The ID of the variable called `name`, if there is one.
    pub fn get_var_id(&self, name: &str) -> (r: Option<usize>)
        ensures
            r matches Some(id) ==> self@.binds(name@, Kind::Variable(id)),
            r is None ==> (!self@.has(name@) || exists|i: int|
                0 <= i < self@.syms.len() && #[trigger] fold(self@.syms[i].0) == fold(name@) && !(self@.syms[i].1 is Variable)),
    {
        match self.find(name) {
            None => None,
            Some(i) => match self.entries[i].kind {
                Kind::Variable(id) => Some(id),
                _ => None,
            },
        }
    }

    /// The ID of the string variable called `name`, if there is one.
    pub fn get_string_id(&self, name: &str) -> (r: Option<usize>)
        ensures
            r matches Some(id) ==> self@.binds(name@, Kind::StringVar(id)),
            r is None ==> (!self@.has(name@) || exists|i: int|
                0 <= i < self@.syms.len() && #[trigger] fold(self@.syms[i].0) == fold(name@) && !(self@.syms[i].1 is StringVar)),
    {
        match self.find(name) {
            None => None,
            Some(i) => match self.entries[i].kind {
                Kind::StringVar(id) => Some(id),
                _ => None,
            },
        }
    }

    /// The ID of the vector called `name`, if there is one.
    pub fn get_vec_id(&self, name: &str) -> (r: Option<usize>)
        ensures
            r matches Some(id) ==> self@.binds(name@, Kind::Vector(id)),
            r is None ==> (!self@.has(name@) || exists|i: int|
                0 <= i < self@.syms.len() && #[trigger] fold(self@.syms[i].0) == fold(name@) && !(self@.syms[i].1 is Vector)),
    {
        match self.find(name) {
            None => None,
            Some(i) => match self.entries[i].kind {
                Kind::Vector(id) => Some(id),
                _ => None,
            },
        }
    }

    /// Whether `name` is bound to a constant.
    pub fn is_constant_node(&self, name: &str) -> (r: bool)
        ensures
            r ==> exists|v: u64| self@.binds(name@, Kind::Constant(v)),
            !r ==> (!self@.has(name@) || exists|i: int|
                0 <= i < self@.syms.len() && #[trigger] fold(self@.syms[i].0) == fold(name@) && !(self@.syms[i].1 is Constant)),
    {
        match self.find(name) {
            None => false,
            Some(i) => match self.entries[i].kind {
                Kind::Constant(v) => {
                    assert(fold(self@.syms[i as int].0) == fold(name@) && self@.syms[i as int].1 == Kind::Constant(v));
                    assert(self@.binds(name@, Kind::Constant(v)));
                    true
                },
                _ => false,
            },
        }
    }

    /// Registers a function name of the given arity. `Ok(false)` if the name
    /// is already bound.
    pub fn add_function(&mut self, name: &str, arity: u8) -> (r: Result<bool, InvalidName>)
        requires
            old(self)@.wf(),
            1 <= arity <= 4,
        ensures
            final(self)@.wf(),
            !valid_name(name@) ==> (r matches Err(e) && e.0@ == name@),
            valid_name(name@) ==> (r matches Ok(b) && b == !old(self)@.has(name@)),
            r matches Ok(true) ==> final(self)@ == (TableModel {
                syms: old(self)@.syms.push((name@, Kind::Function(arity))),
                ..old(self)@
            }),
            !(r matches Ok(true)) ==> final(self)@ == old(self)@,
    {
        let ghost t0 = self@;
        let r = self.register(name, Kind::Function(arity));
        proof {
            if r matches Ok(true) {
                lemma_push_wf(t0, self@, name@, Kind::Function(arity));
            }
        }
        r
    }

    pub fn variable_count(&self) -> (r: usize)
        ensures
            r == self@.values.len(),
    {
        self.values.len()
    }

    pub fn stringvar_count(&self) -> (r: usize)
        ensures
            r == self@.strings.len(),
    {
        self.strings.len()
    }

    pub fn vector_count(&self) -> (r: usize)
        ensures
            r == self@.vectors.len(),
    {
        self.vectors.len()
    }

    /// Adds the constant `pi`; `false` if the name is taken.
    pub fn add_pi(&mut self) -> (r: bool)
        requires
            old(self)@.wf(),
        ensures
            final(self)@.wf(),
            r == !old(self)@.has("pi"@),
            r ==> final(self)@ == (TableModel {
                syms: old(self)@.syms.push(("pi"@, Kind::Constant(PI_BITS))),
                ..old(self)@
            }),
            !r ==> final(self)@ == old(self)@,
    {
        proof { reveal_strlit("pi"); }
        match self.add_constant("pi", PI_BITS) {
            Ok(b) => b,
            Err(_) => false,
        }
    }

    /// Adds the constant `epsilon`; `false` if the name is taken.
    pub fn add_epsilon(&mut self) -> (r: bool)
        requires
            old(self)@.wf(),
        ensures
            final(self)@.wf(),
            r == !old(self)@.has("epsilon"@),
            r ==> final(self)@ == (TableModel {
                syms: old(self)@.syms.push(("epsilon"@, Kind::Constant(EPSILON_BITS))),
                ..old(self)@
            }),
            !r ==> final(self)@ == old(self)@,
    {
        proof { reveal_strlit("epsilon"); }
        match self.add_constant("epsilon", EPSILON_BITS) {
            Ok(b) => b,
            Err(_) => false,
        }
    }

    /// Adds the constant `inf`; `false` if the name is taken.
    pub fn add_infinity(&mut self) -> (r: bool)
        requires
            old(self)@.wf(),
        ensures
            final(self)@.wf(),
            r == !old(self)@.has("inf"@),
            r ==> final(self)@ == (TableModel {
                syms: old(self)@.syms.push(("inf"@, Kind::Constant(INFINITY_BITS))),
                ..old(self)@
            }),
            !r ==> final(self)@ == old(self)@,
    {
        proof { reveal_strlit("inf"); }
        match self.add_constant("inf", INFINITY_BITS) {
            Ok(b) => b,
            Err(_) => false,
        }
    }

    /// Adds `pi`, `epsilon` and `inf`, stopping at the first name taken.
    pub fn add_constants(&mut self) -> (r: bool)
        requires
            old(self)@.wf(),
        ensures
            final(self)@.wf(),
            r == (!old(self)@.has("pi"@) && !old(self)@.has("epsilon"@) && !old(self)@.has("inf"@)),
            old(self)@.has("pi"@) ==> final(self)@.syms == old(self)@.syms,
            !old(self)@.has("pi"@) && old(self)@.has("epsilon"@) ==> final(self)@.syms == old(self)@.syms
                .push(("pi"@, Kind::Constant(PI_BITS))),
            !old(self)@.has("pi"@) && !old(self)@.has("epsilon"@) ==> final(self)@.syms == old(self)@.syms
                .push(("pi"@, Kind::Constant(PI_BITS)))
                .push(("epsilon"@, Kind::Constant(EPSILON_BITS)))
                .add(if r { seq![("inf"@, Kind::Constant(INFINITY_BITS))] } else { Seq::empty() }),
            final(self)@.values == old(self)@.values,
            final(self)@.strings == old(self)@.strings,
            final(self)@.vectors == old(self)@.vectors,
    {
        proof {
            reveal_strlit("pi");
            reveal_strlit("epsilon");
            reveal_strlit("inf");
        }
        let ghost t0 = self@;
        if !self.add_pi() {
            return false;
        }
        let ghost t1 = self@;
        proof {
            assert(fold("pi"@)[0] != fold("epsilon"@)[0]);
            assert(fold("pi"@)[0] != fold("inf"@)[0]);
            assert(fold("epsilon"@)[0] != fold("inf"@)[0]);
            lemma_has_after_push(t0, "pi"@, Kind::Constant(PI_BITS), "epsilon"@);
        }
        if !self.add_epsilon() {
            return false;
        }
        proof {
            lemma_has_after_push(t0, "pi"@, Kind::Constant(PI_BITS), "inf"@);
            lemma_has_after_push(t1, "epsilon"@, Kind::Constant(EPSILON_BITS), "inf"@);
        }
        let r = self.add_infinity();
        proof {
            if r {
                assert(self@.syms =~= t0.syms.push(("pi"@, Kind::Constant(PI_BITS)))
                    .push(("epsilon"@, Kind::Constant(EPSILON_BITS)))
                    .add(seq![("inf"@, Kind::Constant(INFINITY_BITS))]));
            } else {
                assert(self@.syms =~= t0.syms.push(("pi"@, Kind::Constant(PI_BITS)))
                    .push(("epsilon"@, Kind::Constant(EPSILON_BITS))).add(Seq::empty()));
            }
        }
        r
    }

    /// Sets element `j` of vector `var_id`; `false` if either is out of range.
    pub fn set_vector(&mut self, var_id: usize, j: usize, value: u64) -> (r: bool)
        requires
            old(self)@.wf(),
        ensures
            final(self)@.wf(),
            r == (var_id < old(self)@.vectors.len() && j < old(self)@.vectors[var_id as int].len()),
            r ==> final(self)@ == (TableModel {
                vectors: old(self)@.vectors.update(var_id as int, old(self)@.vectors[var_id as int].update(j as int, value)),
                ..old(self)@
            }),
            !r ==> final(self)@ == old(self)@,
    {
        if var_id < self.vectors.len() && j < self.vectors[var_id].len() {
            let ghost before = self@;
            let mut v = copy_slice(self.vectors[var_id].as_slice());
            v.set(j, value);
            self.vectors.set(var_id, v);
            assert(self@.strings =~= before.strings);
            assert(self@.vectors =~= before.vectors.update(var_id as int, before.vectors[var_id as int].update(j as int, value)));
            true
        } else {
            false
        }
    }

    /// Whether `name` is a constant string. The table holds no constant
    /// strings: string variables stay mutable.
    pub fn is_constant_string(&self, name: &str) -> (r: bool)
        ensures
            !r,
    {
        false
    }

    /// A deep copy with the same bindings and cells.
    pub fn duplicate(&self) -> (r: SymbolTable)
        ensures
            r@ == self@,
    {
        let mut entries: Vec<Entry> = Vec::new();
        let mut i: usize = 0;
        while i < self.entries.len()
            invariant
                i <= self.entries@.len(),
                entries@.map_values(|e: Entry| entry_view(e)) == self@.syms.subrange(0, i as int),
            decreases self.entries@.len() - i,
        {
            let ghost before = entries@.map_values(|e: Entry| entry_view(e));
            entries.push(Entry { name: self.entries[i].name.clone(), kind: self.entries[i].kind });
            assert(entries@.map_values(|e: Entry| entry_view(e)) =~= before.push(self@.syms[i as int]));
            assert(self@.syms.subrange(0, i as int + 1) =~= self@.syms.subrange(0, i as int).push(self@.syms[i as int]));
            i = i + 1;
        }
        let mut strings: Vec<StringValue> = Vec::new();
        let mut i: usize = 0;
        while i < self.strings.len()
            invariant
                i <= self.strings@.len(),
                strings@.map_values(|s: StringValue| s@) == self@.strings.subrange(0, i as int),
            decreases self.strings@.len() - i,
        {
            let ghost before = strings@.map_values(|s: StringValue| s@);
            strings.push(self.strings[i].duplicate());
            assert(strings@.map_values(|s: StringValue| s@) =~= before.push(self@.strings[i as int]));
            assert(self@.strings.subrange(0, i as int + 1) =~= self@.strings.subrange(0, i as int).push(self@.strings[i as int]));
            i = i + 1;
        }
        let mut vectors: Vec<Vec<u64>> = Vec::new();
        let mut i: usize = 0;
        while i < self.vectors.len()
            invariant
                i <= self.vectors@.len(),
                vectors@.map_values(|v: Vec<u64>| v@) == self@.vectors.subrange(0, i as int),
            decreases self.vectors@.len() - i,
        {
            let ghost before = vectors@.map_values(|v: Vec<u64>| v@);
            vectors.push(copy_slice(self.vectors[i].as_slice()));
            assert(vectors@.map_values(|v: Vec<u64>| v@) =~= before.push(self@.vectors[i as int]));
            assert(self@.vectors.subrange(0, i as int + 1) =~= self@.vectors.subrange(0, i as int).push(self@.vectors[i as int]));
            i = i + 1;
        }
        let r = SymbolTable { entries, values: copy_slice(self.values.as_slice()), strings, vectors };
        assert(self@.syms.subrange(0, self@.syms.len() as int) =~= self@.syms);
        assert(self@.strings.subrange(0, self@.strings.len() as int) =~= self@.strings);
        assert(self@.vectors.subrange(0, self@.vectors.len() as int) =~= self@.vectors);
        r
    }
}

impl Clone for SymbolTable {
    fn clone(&self) -> (r: Self)
        ensures
            r@ == self@,
    {
        self.duplicate()
    }
}

/// Binding a fresh identifier, with a new cell where its kind has one,
/// keeps a table well formed.
proof fn lemma_push_wf(t: TableModel, t2: TableModel, n: Seq<char>, k: Kind)
    requires
        t.wf(),
        valid_name(n),
        !t.has(n),
        t2.syms == t.syms.push((n, k)),
        t2.values.len() == t.values.len() + (if kind_tag(k) == 0 { 1int } else { 0 }),
        t2.strings.len() == t.strings.len() + (if kind_tag(k) == 1 { 1int } else { 0 }),
        t2.vectors.len() == t.vectors.len() + (if kind_tag(k) == 2 { 1int } else { 0 }),
        t2.values.len() <= usize::MAX,
        t2.strings.len() <= usize::MAX,
        t2.vectors.len() <= usize::MAX,
        id_in_range(t2, k),
    ensures
        t2.wf(),
{
    lemma_filter_push(t.syms, tag_is(0), (n, k));
    lemma_filter_push(t.syms, tag_is(1), (n, k));
    lemma_filter_push(t.syms, tag_is(2), (n, k));
    assert forall|i: int| 0 <= i < t2.syms.len() implies id_in_range(t2, #[trigger] t2.syms[i].1) by {
        if i < t.syms.len() {
            assert(t2.syms[i] == t.syms[i]);
            assert(id_in_range(t, t.syms[i].1));
        }
    }
    assert forall|i: int, j: int| 0 <= i < j < t2.syms.len() implies fold(#[trigger] t2.syms[i].0) != fold(#[trigger] t2.syms[j].0) by {
        assert(t2.syms[i] == t.syms[i]);
        if j < t.syms.len() {
            assert(t2.syms[j] == t.syms[j]);
        } else if fold(t.syms[i].0) == fold(n) {
            assert(t.has(n));
        }
    }
    assert forall|i: int| 0 <= i < t2.syms.len() implies valid_name(#[trigger] t2.syms[i].0) by {
        if i < t.syms.len() {
            assert(t2.syms[i] == t.syms[i]);
        }
    }
}

proof fn lemma_count_after_clear(s: Seq<(Seq<char>, Kind)>, tag: u8, u: u8)
    ensures
        count_tag(s.filter(tag_not(tag)), u) == (if u == tag { 0 } else { count_tag(s, u) }),
{
    if u == tag {
        assert forall|x: (Seq<char>, Kind)| #[trigger] tag_is(u)(x) implies !tag_not(tag)(x) by {}
        lemma_filter_disjoint(s, tag_not(tag), tag_is(u));
    } else {
        assert forall|x: (Seq<char>, Kind)| #[trigger] tag_is(u)(x) implies tag_not(tag)(x) by {}
        lemma_filter_absorb(s, tag_not(tag), tag_is(u));
    }
}

/// In a well-formed table the names of one kind are pairwise distinct.
proof fn lemma_names_distinct(t: TableModel, tag: u8, r: Seq<String>)
    requires
        t.wf(),
        r.map_values(|n: String| n@) == names_tagged(t.syms, tag),
    ensures
        r.len() == count_tag(t.syms, tag),
        forall|i: int, j: int| 0 <= i < j < r.len() ==> #[trigger] r[i]@ != #[trigger] r[j]@,
{
    lemma_filter_sub(t.syms, tag_is(tag));
    let f = t.syms.filter(tag_is(tag));
    assert(r.map_values(|n: String| n@).len() == r.len());
    assert forall|i: int, j: int| 0 <= i < j < r.len() implies #[trigger] r[i]@ != #[trigger] r[j]@ by {
        assert(r.map_values(|n: String| n@)[i] == r[i]@);
        assert(r.map_values(|n: String| n@)[j] == r[j]@);
        assert(names_tagged(t.syms, tag)[i] == f[i].0);
        assert(names_tagged(t.syms, tag)[j] == f[j].0);
    }
}

/// Dropping every binding of one kind, with its cells, keeps a table well
/// formed, and leaves bound exactly the names of other kinds.
proof fn lemma_clear_wf(t: TableModel, t2: TableModel, tag: u8)
    requires
        t.wf(),
        tag <= 2,
        t2.syms == t.syms.filter(tag_not(tag)),
        t2.values.len() == (if tag == 0 { 0 } else { t.values.len() }),
        t2.strings.len() == (if tag == 1 { 0 } else { t.strings.len() }),
        t2.vectors.len() == (if tag == 2 { 0 } else { t.vectors.len() }),
    ensures
        t2.wf(),
        forall|n: Seq<char>| #[trigger] t2.has(n) <==> (t.has(n) && !t.has_tag(n, tag)),
{
    let f = t.syms.filter(tag_not(tag));
    lemma_filter_sub(t.syms, tag_not(tag));
    assert forall|i: int| 0 <= i < f.len() implies valid_name(#[trigger] f[i].0) && id_in_range(t2, f[i].1) by {
        let j = choose|j: int| 0 <= j < t.syms.len() && t.syms[j] == f[i];
        assert(valid_name(t.syms[j].0));
        assert(id_in_range(t, t.syms[j].1));
        assert(tag_not(tag)(f[i]));
    }
    assert forall|i: int| 0 <= i < t2.syms.len() implies id_in_range(t2, #[trigger] t2.syms[i].1) by {
        assert(id_in_range(t2, f[i].1));
    }
    assert forall|i: int| 0 <= i < t2.syms.len() implies valid_name(#[trigger] t2.syms[i].0) by {
        assert(valid_name(f[i].0));
    }
    lemma_count_after_clear(t.syms, tag, 0);
    lemma_count_after_clear(t.syms, tag, 1);
    lemma_count_after_clear(t.syms, tag, 2);
    assert(count_tag(t2.syms, 0) == (if 0 == tag { 0 } else { count_tag(t.syms, 0) }));
    assert(count_tag(t2.syms, 1) == (if 1 == tag { 0 } else { count_tag(t.syms, 1) }));
    assert(count_tag(t2.syms, 2) == (if 2 == tag { 0 } else { count_tag(t.syms, 2) }));
    assert forall|n: Seq<char>| #[trigger] t2.has(n) <==> (t.has(n) && !t.has_tag(n, tag)) by {
        if t2.has(n) {
            let i = choose|i: int| 0 <= i < t2.syms.len() && #[trigger] fold(t2.syms[i].0) == fold(n);
            let j = choose|j: int| 0 <= j < t.syms.len() && t.syms[j] == f[i];
            assert(fold(t.syms[j].0) == fold(n));
            assert(tag_not(tag)(f[i]));
            if t.has_tag(n, tag) {
                let m = choose|m: int| 0 <= m < t.syms.len() && #[trigger] fold(t.syms[m].0) == fold(n) && kind_tag(t.syms[m].1) == tag;
                if m < j {
                    assert(fold(t.syms[m].0) != fold(t.syms[j].0));
                } else if j < m {
                    assert(fold(t.syms[j].0) != fold(t.syms[m].0));
                }
            }
        }
        if t.has(n) && !t.has_tag(n, tag) {
            let j = choose|j: int| 0 <= j < t.syms.len() && #[trigger] fold(t.syms[j].0) == fold(n);
            assert(kind_tag(t.syms[j].1) != tag);
            assert(tag_not(tag)(t.syms[j]));
            assert(t.syms.filter(tag_not(tag)).contains(t.syms[j])) by {
                t.syms.filter_lemma(tag_not(tag));
            }
            let k = choose|k: int| 0 <= k < f.len() && f[k] == t.syms[j];
            assert(fold(t2.syms[k].0) == fold(n));
        }
    }
}

/// Binding one name leaves the presence of every other name as it was.
pub proof fn lemma_has_after_push(t: TableModel, n: Seq<char>, k: Kind, m: Seq<char>)
    requires
        fold(n) != fold(m),
    ensures
        (TableModel { syms: t.syms.push((n, k)), ..t }).has(m) == t.has(m),
{
    let t1 = TableModel { syms: t.syms.push((n, k)), ..t };
    if t1.has(m) {
        let i = choose|i: int| 0 <= i < t1.syms.len() && #[trigger] fold(t1.syms[i].0) == fold(m);
        assert(fold(t.syms[i].0) == fold(m));
    }
    if t.has(m) {
        let i = choose|i: int| 0 <= i < t.syms.len() && #[trigger] fold(t.syms[i].0) == fold(m);
        assert(fold(t1.syms[i].0) == fold(m));
    }
}

/// Bit pattern of the double nearest to pi.
pub const PI_BITS: u64 = 0x400921FB54442D18;
/// Bit pattern of the double nearest to 1e-10.
pub const EPSILON_BITS: u64 = 0x3DDB7CDFD9D7BDBB;
/// Bit pattern of positive infinity.
pub const INFINITY_BITS: u64 = 0x7FF0000000000000;

/// A variable added under a new name can be read back at the returned ID,
/// and every earlier ID keeps its value.
pub proof fn law_fresh_variable(t: TableModel, value: u64)
    ensures
        (TableModel { values: t.values.push(value), ..t }).values[t.values.len() as int] == value,
        forall|i: int| 0 <= i < t.values.len() ==>
            #[trigger] (TableModel { values: t.values.push(value), ..t }).values[i] == t.values[i],
{
}

/// After `set_value(i, v)` succeeds, `value(i)` is `v`; other IDs keep theirs.
pub proof fn law_set_then_value(t: TableModel, id: int, v: u64)
    requires
        0 <= id < t.values.len(),
    ensures
        t.values.update(id, v)[id] == v,
        forall|j: int| 0 <= j < t.values.len() && j != id ==> #[trigger] t.values.update(id, v)[j] == t.values[j],
{
}

/// Once a name is bound, a second registration of it is refused.
pub proof fn law_bound_name_stays_bound(t: TableModel, n: Seq<char>, k: Kind)
    ensures
        (TableModel { syms: t.syms.push((n, k)), ..t }).has(n),
{
    let t1 = TableModel { syms: t.syms.push((n, k)), ..t };
    assert(fold(t1.syms[t.syms.len() as int].0) == fold(n));
}

} // verus!
