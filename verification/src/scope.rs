//! A nested symbol table assigning renaming-independent aliases to source
//! identifiers, indexed by lexical nesting depth.
//!
//! A variable registered at depth `d` as the `n`-th distinct name of that
//! depth receives the alias `s{d}v{n}`.  Lookups search from the current
//! depth downward to the lowest depth ever reached, so an alias introduced
//! deeper shadows one of the same name further out.  Depth may go negative:
//! a diff fragment can start deeply nested and close out shallower than its
//! nominal start.

use vstd::prelude::*;

use crate::text::{dec_digits, dec_digits_u, push_char, push_i64_decimal, push_u64_decimal};

verus! {

/// One recorded binding: an original identifier and the alias standing for it.
pub struct Binding {
    pub name: String,
    pub alias: String,
}

/// All bindings introduced at one nesting depth.
pub struct DepthTable {
    pub depth: i64,
    pub entries: Vec<Binding>,
}

/// Mathematical model of a [`Scope`]: the current depth, the lowest depth
/// ever reached, and for each depth the map from identifier to alias.
#[verifier::ext_equal]
pub struct ScopeView {
    pub depth: int,
    pub smallest_depth: int,
    pub tables: Map<int, Map<Seq<char>, Seq<char>>>,
}

/// No two bindings of the sequence use the same identifier.
pub open spec fn distinct_names(s: Seq<Binding>) -> bool {
    forall|i: int, j: int| 0 <= i < j < s.len() ==> s[i].name@ != s[j].name@
}

/// No two tables of the sequence serve the same depth.
pub open spec fn distinct_depths(s: Seq<DepthTable>) -> bool {
    forall|i: int, j: int| 0 <= i < j < s.len() ==> s[i].depth != s[j].depth
}

/// The identifier-to-alias map described by a sequence of bindings; later
/// entries win, as in repeated map insertion.
pub open spec fn entries_map(s: Seq<Binding>) -> Map<Seq<char>, Seq<char>>
    decreases s.len(),
{
    if s.len() == 0 {
        Map::empty()
    } else {
        entries_map(s.drop_last()).insert(s.last().name@, s.last().alias@)
    }
}

/// The depth-to-table map described by a sequence of depth tables.
pub open spec fn tables_map(s: Seq<DepthTable>) -> Map<int, Map<Seq<char>, Seq<char>>>
    decreases s.len(),
{
    if s.len() == 0 {
        Map::empty()
    } else {
        tables_map(s.drop_last()).insert(
            s.last().depth as int,
            entries_map(s.last().entries@),
        )
    }
}

/// The alias given to the `n`-th distinct identifier registered at `depth`.
pub open spec fn alias_seq(depth: int, n: int) -> Seq<char> {
    seq!['s'] + dec_digits(depth) + seq!['v'] + dec_digits_u(n)
}

/// The table of a depth, or the empty map where none was created yet.
pub open spec fn table_at(m: ScopeView, d: int) -> Map<Seq<char>, Seq<char>> {
    if m.tables.contains_key(d) {
        m.tables[d]
    } else {
        Map::empty()
    }
}

/// One step up in depth; the counter stays put at the far end of `i64`,
/// which no real input can reach.
pub open spec fn inc_sat(d: int) -> int {
    if d < i64::MAX {
        d + 1
    } else {
        d
    }
}

/// One step down in depth, saturating like [`inc_sat`].
pub open spec fn dec_sat(d: int) -> int {
    if d > i64::MIN {
        d - 1
    } else {
        d
    }
}

/// The model of a freshly created scope.
pub open spec fn scope_empty() -> ScopeView {
    ScopeView { depth: 0, smallest_depth: 0, tables: Map::empty() }
}

/// The model of [`Scope::increase_depth`].
pub open spec fn scope_inc(m: ScopeView) -> ScopeView {
    ScopeView { depth: inc_sat(m.depth), smallest_depth: m.smallest_depth, tables: m.tables }
}

/// The model of [`Scope::decrease_depth`].
pub open spec fn scope_dec(m: ScopeView) -> ScopeView {
    let d = dec_sat(m.depth);
    ScopeView {
        depth: d,
        smallest_depth: if d < m.smallest_depth {
            d
        } else {
            m.smallest_depth
        },
        tables: m.tables,
    }
}

/// The model of [`Scope::add_variable`]: the name is bound at the current
/// depth to the alias derived from how many names that depth already holds.
pub open spec fn scope_add(m: ScopeView, name: Seq<char>) -> ScopeView {
    let t = table_at(m, m.depth);
    ScopeView {
        depth: m.depth,
        smallest_depth: m.smallest_depth,
        tables: m.tables.insert(m.depth, t.insert(name, alias_seq(m.depth, t.len() as int))),
    }
}

/// Lookup from depth `d` downward to `m.smallest_depth`; the innermost
/// enclosing binding wins.
pub open spec fn scope_get_from(m: ScopeView, d: int, name: Seq<char>) -> Option<Seq<char>>
    decreases d - m.smallest_depth + 1,
{
    if d < m.smallest_depth {
        None
    } else if m.tables.contains_key(d) && m.tables[d].contains_key(name) {
        Some(m.tables[d][name])
    } else {
        scope_get_from(m, d - 1, name)
    }
}

/// The model of [`Scope::get_variable`].
pub open spec fn scope_get(m: ScopeView, name: Seq<char>) -> Option<Seq<char>> {
    scope_get_from(m, m.depth, name)
}

proof fn lemma_entries_map_contains(s: Seq<Binding>, name: Seq<char>)
    ensures
        entries_map(s).contains_key(name) <==> exists|i: int|
            0 <= i < s.len() && s[i].name@ == name,
    decreases s.len(),
{
    if s.len() > 0 {
        lemma_entries_map_contains(s.drop_last(), name);
        if s.last().name@ == name {
            assert(s[s.len() - 1].name@ == name);
        } else {
            if entries_map(s).contains_key(name) {
                let i = choose|i: int|
                    0 <= i < s.drop_last().len() && s.drop_last()[i].name@ == name;
                assert(s[i].name@ == name);
            }
            if exists|i: int| 0 <= i < s.len() && s[i].name@ == name {
                let i = choose|i: int| 0 <= i < s.len() && s[i].name@ == name;
                assert(s.drop_last()[i].name@ == name);
            }
        }
    }
}

proof fn lemma_entries_map_value(s: Seq<Binding>, i: int)
    requires
        distinct_names(s),
        0 <= i < s.len(),
    ensures
        entries_map(s).contains_key(s[i].name@),
        entries_map(s)[s[i].name@] == s[i].alias@,
    decreases s.len(),
{
    if i < s.len() - 1 {
        assert(distinct_names(s.drop_last())) by {
            assert(forall|a: int, b: int|
                0 <= a < b < s.drop_last().len() ==> s.drop_last()[a] == s[a]
                    && s.drop_last()[b] == s[b]);
        }
        assert(s.drop_last()[i] == s[i]);
        lemma_entries_map_value(s.drop_last(), i);
        assert(s.last().name@ != s[i].name@);
    }
}

proof fn lemma_entries_map_len(s: Seq<Binding>)
    requires
        distinct_names(s),
    ensures
        entries_map(s).dom().finite(),
        entries_map(s).len() == s.len(),
    decreases s.len(),
{
    broadcast use vstd::set_lib::group_set_lib_default;

    if s.len() == 0 {
        assert(entries_map(s).dom() =~= Set::<Seq<char>>::empty());
    } else {
        assert(distinct_names(s.drop_last())) by {
            assert(forall|a: int, b: int|
                0 <= a < b < s.drop_last().len() ==> s.drop_last()[a] == s[a]
                    && s.drop_last()[b] == s[b]);
        }
        lemma_entries_map_len(s.drop_last());
        lemma_entries_map_contains(s.drop_last(), s.last().name@);
        assert(forall|i: int|
            0 <= i < s.drop_last().len() ==> s.drop_last()[i].name@ != s.last().name@);
        assert(!entries_map(s.drop_last()).contains_key(s.last().name@));
        assert(entries_map(s).dom() =~= entries_map(s.drop_last()).dom().insert(s.last().name@));
    }
}

proof fn lemma_entries_map_update(s: Seq<Binding>, i: int, b: Binding)
    requires
        distinct_names(s),
        0 <= i < s.len(),
        s[i].name@ == b.name@,
    ensures
        entries_map(s.update(i, b)) == entries_map(s).insert(b.name@, b.alias@),
    decreases s.len(),
{
    let s2 = s.update(i, b);
    if i == s.len() - 1 {
        assert(s2.drop_last() =~= s.drop_last());
        assert(s2.last() == b);
        assert(entries_map(s2) =~= entries_map(s).insert(b.name@, b.alias@));
    } else {
        assert(distinct_names(s.drop_last())) by {
            assert(forall|a: int, b2: int|
                0 <= a < b2 < s.drop_last().len() ==> s.drop_last()[a] == s[a]
                    && s.drop_last()[b2] == s[b2]);
        }
        assert(s.drop_last()[i] == s[i]);
        lemma_entries_map_update(s.drop_last(), i, b);
        assert(s2.drop_last() =~= s.drop_last().update(i, b));
        assert(s2.last() == s.last());
        assert(s.last().name@ != b.name@);
        assert(entries_map(s2) =~= entries_map(s).insert(b.name@, b.alias@));
    }
}

proof fn lemma_tables_map_contains(s: Seq<DepthTable>, d: int)
    ensures
        tables_map(s).contains_key(d) <==> exists|i: int|
            0 <= i < s.len() && s[i].depth == d,
    decreases s.len(),
{
    if s.len() > 0 {
        lemma_tables_map_contains(s.drop_last(), d);
        if s.last().depth == d {
            assert(s[s.len() - 1].depth == d);
        } else {
            if tables_map(s).contains_key(d) {
                let i = choose|i: int|
                    0 <= i < s.drop_last().len() && s.drop_last()[i].depth == d;
                assert(s[i].depth == d);
            }
            if exists|i: int| 0 <= i < s.len() && s[i].depth == d {
                let i = choose|i: int| 0 <= i < s.len() && s[i].depth == d;
                assert(s.drop_last()[i].depth == d);
            }
        }
    }
}

proof fn lemma_tables_map_value(s: Seq<DepthTable>, i: int)
    requires
        distinct_depths(s),
        0 <= i < s.len(),
    ensures
        tables_map(s).contains_key(s[i].depth as int),
        tables_map(s)[s[i].depth as int] == entries_map(s[i].entries@),
    decreases s.len(),
{
    if i < s.len() - 1 {
        assert(distinct_depths(s.drop_last())) by {
            assert(forall|a: int, b: int|
                0 <= a < b < s.drop_last().len() ==> s.drop_last()[a] == s[a]
                    && s.drop_last()[b] == s[b]);
        }
        assert(s.drop_last()[i] == s[i]);
        lemma_tables_map_value(s.drop_last(), i);
        assert(s.last().depth != s[i].depth);
    }
}

proof fn lemma_tables_map_update(s: Seq<DepthTable>, i: int, t: DepthTable)
    requires
        distinct_depths(s),
        0 <= i < s.len(),
        s[i].depth == t.depth,
    ensures
        tables_map(s.update(i, t)) == tables_map(s).insert(
            t.depth as int,
            entries_map(t.entries@),
        ),
    decreases s.len(),
{
    let s2 = s.update(i, t);
    if i == s.len() - 1 {
        assert(s2.drop_last() =~= s.drop_last());
        assert(s2.last() == t);
        assert(tables_map(s2) =~= tables_map(s).insert(t.depth as int, entries_map(t.entries@)));
    } else {
        assert(distinct_depths(s.drop_last())) by {
            assert(forall|a: int, b: int|
                0 <= a < b < s.drop_last().len() ==> s.drop_last()[a] == s[a]
                    && s.drop_last()[b] == s[b]);
        }
        assert(s.drop_last()[i] == s[i]);
        lemma_tables_map_update(s.drop_last(), i, t);
        assert(s2.drop_last() =~= s.drop_last().update(i, t));
        assert(s2.last() == s.last());
        assert(s.last().depth != t.depth);
        assert(tables_map(s2) =~= tables_map(s).insert(t.depth as int, entries_map(t.entries@)));
    }
}

fn find_table(storage: &Vec<DepthTable>, d: i64) -> (r: Option<usize>)
    ensures
        match r {
            Some(i) => i < storage@.len() && storage@[i as int].depth == d,
            None => forall|i: int| 0 <= i < storage@.len() ==> storage@[i].depth != d,
        },
{
    let mut i: usize = 0;
    while i < storage.len()
        invariant
            i <= storage@.len(),
            forall|k: int| 0 <= k < i ==> storage@[k].depth != d,
        decreases storage@.len() - i,
    {
        if storage[i].depth == d {
            return Some(i);
        }
        i = i + 1;
    }
    None
}

fn find_binding(entries: &Vec<Binding>, name: &String) -> (r: Option<usize>)
    ensures
        match r {
            Some(j) => j < entries@.len() && entries@[j as int].name@ == name@,
            None => forall|k: int| 0 <= k < entries@.len() ==> entries@[k].name@ != name@,
        },
{
    let mut j: usize = 0;
    while j < entries.len()
        invariant
            j <= entries@.len(),
            forall|k: int| 0 <= k < j ==> entries@[k].name@ != name@,
        decreases entries@.len() - j,
    {
        if entries[j].name == *name {
            return Some(j);
        }
        j = j + 1;
    }
    None
}

fn make_alias(depth: i64, n: u64) -> (r: String)
    ensures
        r@ == alias_seq(depth as int, n as int),
{
    let mut out = String::new();
    push_char(&mut out, 's');
    push_i64_decimal(&mut out, depth);
    push_char(&mut out, 'v');
    push_u64_decimal(&mut out, n);
    proof {
        assert(out@ =~= alias_seq(depth as int, n as int));
    }
    out
}

/// The symbol table.  Depth moves with `increase_depth` / `decrease_depth`;
/// `add_variable` registers an identifier at the current depth;
/// `get_variable` resolves an identifier to the innermost alias in force.
pub struct Scope {
    depth: i64,
    smallest_depth: i64,
    storage: Vec<DepthTable>,
}

impl View for Scope {
    type V = ScopeView;

    closed spec fn view(&self) -> ScopeView {
        ScopeView {
            depth: self.depth as int,
            smallest_depth: self.smallest_depth as int,
            tables: tables_map(self.storage@),
        }
    }
}

impl Scope {
    /// Well-formedness: the lowest depth never exceeds the current one, each
    /// depth has at most one table, and no table repeats a name.  `new`
    /// establishes it and every method preserves it.
    pub closed spec fn wf(self) -> bool {
        &&& self.smallest_depth <= self.depth
        &&& distinct_depths(self.storage@)
        &&& forall|i: int|
            0 <= i < self.storage@.len() ==> distinct_names(#[trigger] self.storage@[i].entries@)
    }

    /// A fresh scope: depth zero, nothing registered.
    pub fn new() -> (s: Scope)
        ensures
            s@ == scope_empty(),
            s.wf(),
    {
        let s = Scope { depth: 0, smallest_depth: 0, storage: Vec::new() };
        proof {
            assert(s@ =~= scope_empty());
        }
        s
    }

    /// Steps one nesting level deeper.
    pub fn increase_depth(&mut self)
        requires
            old(self).wf(),
        ensures
            final(self)@ == scope_inc(old(self)@),
            final(self).wf(),
    {
        if self.depth < i64::MAX {
            self.depth = self.depth + 1;
        }
        proof {
            assert(self@ =~= scope_inc(old(self)@));
        }
    }

    /// Steps one nesting level out; depth may go negative, and the lowest
    /// depth ever reached is remembered for lookups.
    pub fn decrease_depth(&mut self)
        requires
            old(self).wf(),
        ensures
            final(self)@ == scope_dec(old(self)@),
            final(self).wf(),
    {
        if self.depth > i64::MIN {
            self.depth = self.depth - 1;
        }
        if self.depth < self.smallest_depth {
            self.smallest_depth = self.depth;
        }
        proof {
            assert(self@ =~= scope_dec(old(self)@));
        }
    }

    /// Registers `original` at the current depth.  Its alias is `s{d}v{n}`,
    /// where `n` counts the identifiers already registered at depth `d`;
    /// re-adding a name that depth already holds overwrites its alias.
    pub fn add_variable(&mut self, original: String)
        requires
            old(self).wf(),
        ensures
            final(self)@ == scope_add(old(self)@, original@),
            final(self).wf(),
    {
        let found = find_table(&self.storage, self.depth);
        match found {
            Some(i) => {
                proof {
                    lemma_tables_map_value(self.storage@, i as int);
                    lemma_entries_map_len(self.storage@[i as int].entries@);
                }
                let n: u64 = self.storage[i].entries.len() as u64;
                let alias = make_alias(self.depth, n);
                let ghost old_storage = self.storage@;
                let mut tbl = self.storage.remove(i);
                let ghost old_entries = tbl.entries@;
                let jf = find_binding(&tbl.entries, &original);
                match jf {
                    Some(j) => {
                        tbl.entries[j] = Binding { name: original, alias };
                        proof {
                            lemma_entries_map_update(
                                old_entries,
                                j as int,
                                tbl.entries@[j as int],
                            );
                        }
                    },
                    None => {
                        tbl.entries.push(Binding { name: original, alias });
                        proof {
                            assert(tbl.entries@.drop_last() =~= old_entries);
                        }
                    },
                }
                proof {
                    assert(distinct_names(tbl.entries@));
                }
                self.storage.insert(i, tbl);
                proof {
                    assert(self.storage@ =~= old_storage.update(i as int, tbl));
                    lemma_tables_map_update(old_storage, i as int, tbl);
                    assert(self@ =~= scope_add(old(self)@, original@));
                }
            },
            None => {
                proof {
                    lemma_tables_map_contains(self.storage@, self.depth as int);
                }
                let ghost old_storage = self.storage@;
                let mut entries: Vec<Binding> = Vec::new();
                let alias = make_alias(self.depth, 0);
                entries.push(Binding { name: original, alias });
                self.storage.push(DepthTable { depth: self.depth, entries });
                proof {
                    broadcast use vstd::set_lib::group_set_lib_default;

                    assert(self.storage@.drop_last() =~= old_storage);
                    assert(table_at(old(self)@, old(self)@.depth) == Map::<
                        Seq<char>,
                        Seq<char>,
                    >::empty());
                    assert(Map::<Seq<char>, Seq<char>>::empty().dom()
                        =~= Set::<Seq<char>>::empty());
                    let tbl = self.storage@.last();
                    assert(tbl.entries@.drop_last() =~= Seq::<Binding>::empty());
                    assert(entries_map(Seq::<Binding>::empty()) == Map::<
                        Seq<char>,
                        Seq<char>,
                    >::empty());
                    assert(tbl.entries@.last().name@ == original@);
                    assert(tbl.entries@.last().alias@ == alias_seq(self.depth as int, 0));
                    assert(entries_map(tbl.entries@) == Map::<Seq<char>, Seq<char>>::empty()
                        .insert(original@, alias_seq(self.depth as int, 0)));
                    assert(self@ =~= scope_add(old(self)@, original@));
                }
            },
        }
    }

    /// Resolves `original` to its alias, searching from the current depth
    /// down to the lowest depth ever reached; the innermost binding wins.
    /// `None` where no visited depth holds the name.
    pub fn get_variable(&self, original: String) -> (r: Option<String>)
        requires
            self.wf(),
        ensures
            match r {
                Some(a) => scope_get(self@, original@) == Some(a@),
                None => scope_get(self@, original@) is None,
            },
    {
        let mut d = self.depth;
        loop
            invariant
                self.wf(),
                self.smallest_depth <= d <= self.depth,
                scope_get(self@, original@) == scope_get_from(self@, d as int, original@),
            decreases d - self.smallest_depth,
        {
            let ti = find_table(&self.storage, d);
            match ti {
                Some(i) => {
                    let bj = find_binding(&self.storage[i].entries, &original);
                    match bj {
                        Some(j) => {
                            proof {
                                lemma_tables_map_value(self.storage@, i as int);
                                lemma_entries_map_value(
                                    self.storage@[i as int].entries@,
                                    j as int,
                                );
                            }
                            return Some(self.storage[i].entries[j].alias.clone());
                        },
                        None => {
                            proof {
                                lemma_tables_map_value(self.storage@, i as int);
                                lemma_entries_map_contains(
                                    self.storage@[i as int].entries@,
                                    original@,
                                );
                            }
                        },
                    }
                },
                None => {
                    proof {
                        lemma_tables_map_contains(self.storage@, d as int);
                    }
                },
            }
            proof {
                assert(scope_get_from(self@, d as int, original@) == scope_get_from(
                    self@,
                    d as int - 1,
                    original@,
                ));
            }
            if d == self.smallest_depth {
                proof {
                    assert(scope_get_from(self@, d as int - 1, original@) is None);
                }
                return None;
            }
            d = d - 1;
        }
    }
}

/// The depth bounds that hold of every well-formed scope's model.
pub proof fn lemma_scope_wf_view(s: &Scope)
    requires
        s.wf(),
    ensures
        s@.smallest_depth <= s@.depth,
{
}

/// Looking a name up right after adding it finds the alias it was given.
pub proof fn lemma_scope_get_added(m: ScopeView, name: Seq<char>)
    requires
        m.smallest_depth <= m.depth,
    ensures
        scope_get(scope_add(m, name), name) == Some(
            alias_seq(m.depth, table_at(m, m.depth).len() as int),
        ),
{
    let m2 = scope_add(m, name);
    assert(m2.tables.contains_key(m2.depth));
    assert(m2.tables[m2.depth].contains_key(name));
}

/// Shadowing: a name re-introduced one level deeper takes a new alias that
/// shadows the outer one, and stepping back out brings the outer alias back
/// into force.
pub proof fn lemma_scope_shadowing(name: Seq<char>)
    ensures
        ({
            let m2 = scope_add(scope_inc(scope_add(scope_empty(), name)), name);
            &&& scope_get(m2, name) == Some(alias_seq(1, 0))
            &&& scope_get(scope_dec(m2), name) == Some(alias_seq(0, 0))
        }),
{
    broadcast use vstd::set_lib::group_set_lib_default;

    let m0 = scope_add(scope_empty(), name);
    let m1 = scope_inc(m0);
    let m2 = scope_add(m1, name);
    assert(Map::<Seq<char>, Seq<char>>::empty().dom() =~= Set::<Seq<char>>::empty());
    assert(table_at(scope_empty(), 0) == Map::<Seq<char>, Seq<char>>::empty());
    assert(m0.tables == Map::<int, Map<Seq<char>, Seq<char>>>::empty().insert(
        0,
        Map::<Seq<char>, Seq<char>>::empty().insert(name, alias_seq(0, 0)),
    ));
    assert(!m1.tables.contains_key(1));
    assert(table_at(m1, 1) == Map::<Seq<char>, Seq<char>>::empty());
    assert(m2.tables[1] == Map::<Seq<char>, Seq<char>>::empty().insert(name, alias_seq(1, 0)));
    assert(scope_get(m2, name) == Some(alias_seq(1, 0)));
    let m3 = scope_dec(m2);
    assert(m3.depth == 0 && m3.smallest_depth == 0);
    assert(m3.tables[0].contains_key(name) && m3.tables[0][name] == alias_seq(0, 0));
    assert(scope_get(m3, name) == Some(alias_seq(0, 0)));
}

} // verus!
