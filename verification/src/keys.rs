//! Canonical keys for block content.
//!
//! Two strategies produce a key from raw text.  The generic one removes
//! every run of two or more whitespace characters and trims the ends, so
//! that formatting differences disappear.  The language-aware one
//! additionally tokenizes the trimmed text, tracks `let`-binding
//! introduction, and substitutes identifiers through a [`crate::scope`]
//! symbol table, so that consistently renamed variables produce the same
//! key.  Strategy selection compares the file extensions of a diff delta.

use vstd::prelude::*;

use crate::scope::{
    alias_seq, scope_add, scope_dec, scope_empty, scope_get, scope_inc, table_at, Scope,
    ScopeView,
};
use crate::text::{push_char, str_eq, views_of};
use crate::tokenize::{tokenize_rust_variables, tokenize_spec};

verus! {

/// The whitespace characters recognized by the canonicalizer.
pub open spec fn is_ws(c: char) -> bool {
    c == ' ' || c == '\t' || c == '\n' || c == '\r' || c == '\u{b}' || c == '\u{c}'
}

fn is_ws_char(c: char) -> (r: bool)
    ensures
        r == is_ws(c),
{
    match c {
        ' ' | '\t' | '\n' | '\r' | '\u{b}' | '\u{c}' => true,
        _ => false,
    }
}

/// The length of the whitespace run at the front of `s`.
pub open spec fn ws_run_len(s: Seq<char>) -> int
    decreases s.len(),
{
    if s.len() == 0 || !is_ws(s[0]) {
        0
    } else {
        1 + ws_run_len(s.drop_first())
    }
}

/// The length of the whitespace run at the back of `s`.
pub open spec fn ws_run_len_rev(s: Seq<char>) -> int
    decreases s.len(),
{
    if s.len() == 0 || !is_ws(s.last()) {
        0
    } else {
        1 + ws_run_len_rev(s.drop_last())
    }
}

proof fn lemma_ws_run_len_bounds(s: Seq<char>)
    ensures
        0 <= ws_run_len(s) <= s.len(),
        forall|k: int| 0 <= k < ws_run_len(s) ==> is_ws(s[k]),
        ws_run_len(s) < s.len() ==> !is_ws(s[ws_run_len(s)]),
    decreases s.len(),
{
    if s.len() > 0 && is_ws(s[0]) {
        lemma_ws_run_len_bounds(s.drop_first());
        assert(forall|k: int|
            0 <= k < s.drop_first().len() ==> s.drop_first()[k] == s[k + 1]);
        assert forall|k: int| 0 <= k < ws_run_len(s) implies is_ws(s[k]) by {
            if k > 0 {
                assert(is_ws(s.drop_first()[k - 1]));
            }
        }
    }
}

proof fn lemma_ws_run_len_is(s: Seq<char>, m: int)
    requires
        0 <= m <= s.len(),
        forall|k: int| 0 <= k < m ==> is_ws(s[k]),
        m == s.len() || !is_ws(s[m]),
    ensures
        ws_run_len(s) == m,
    decreases s.len(),
{
    if s.len() > 0 && is_ws(s[0]) {
        assert(forall|k: int|
            0 <= k < s.drop_first().len() ==> s.drop_first()[k] == s[k + 1]);
        lemma_ws_run_len_is(s.drop_first(), m - 1);
    }
}

proof fn lemma_ws_run_len_rev_bounds(s: Seq<char>)
    ensures
        0 <= ws_run_len_rev(s) <= s.len(),
        forall|k: int| s.len() - ws_run_len_rev(s) <= k < s.len() ==> is_ws(s[k]),
        ws_run_len_rev(s) < s.len() ==> !is_ws(s[s.len() - ws_run_len_rev(s) - 1]),
    decreases s.len(),
{
    if s.len() > 0 && is_ws(s.last()) {
        lemma_ws_run_len_rev_bounds(s.drop_last());
        assert(forall|k: int|
            0 <= k < s.drop_last().len() ==> s.drop_last()[k] == s[k]);
    }
}

proof fn lemma_ws_run_len_rev_is(s: Seq<char>, m: int)
    requires
        0 <= m <= s.len(),
        forall|k: int| s.len() - m <= k < s.len() ==> is_ws(s[k]),
        m == s.len() || !is_ws(s[s.len() - m - 1]),
    ensures
        ws_run_len_rev(s) == m,
    decreases s.len(),
{
    if s.len() > 0 && is_ws(s.last()) {
        assert(forall|k: int|
            0 <= k < s.drop_last().len() ==> s.drop_last()[k] == s[k]);
        lemma_ws_run_len_rev_is(s.drop_last(), m - 1);
    }
}

/// `s` with every whitespace run of two or more characters removed; a lone
/// whitespace character stays.
pub open spec fn collapse_ws(s: Seq<char>) -> Seq<char>
    decreases s.len(),
    via collapse_ws_decreases
{
    if s.len() == 0 {
        s
    } else if is_ws(s[0]) {
        if ws_run_len(s) >= 2 {
            collapse_ws(s.skip(ws_run_len(s)))
        } else {
            seq![s[0]] + collapse_ws(s.drop_first())
        }
    } else {
        seq![s[0]] + collapse_ws(s.drop_first())
    }
}

#[via_fn]
proof fn collapse_ws_decreases(s: Seq<char>) {
    if s.len() > 0 && is_ws(s[0]) {
        lemma_ws_run_len_bounds(s);
    }
}

/// `s` without its leading and trailing whitespace runs.
pub open spec fn trim_ws(s: Seq<char>) -> Seq<char> {
    if ws_run_len(s) == s.len() {
        Seq::empty()
    } else {
        s.subrange(ws_run_len(s), s.len() - ws_run_len_rev(s))
    }
}

/// The generic canonical key: whitespace runs collapsed, ends trimmed.
pub open spec fn format_key_spec(s: Seq<char>) -> Seq<char> {
    trim_ws(collapse_ws(s))
}

/// No two adjacent characters of `s` are both whitespace.
pub open spec fn no_double_ws(s: Seq<char>) -> bool {
    forall|k: int| 0 <= k < s.len() - 1 ==> !(is_ws(#[trigger] s[k]) && is_ws(s[k + 1]))
}

#[verifier::rlimit(20)]
proof fn lemma_collapse_props(s: Seq<char>)
    ensures
        no_double_ws(collapse_ws(s)),
        collapse_ws(s).len() > 0 && is_ws(collapse_ws(s)[0]) ==> s.len() > 0 && collapse_ws(
            s,
        )[0] == s[0] && ws_run_len(s) == 1,
    decreases s.len(),
{
    if s.len() == 0 {
    } else if is_ws(s[0]) {
        lemma_ws_run_len_bounds(s);
        let r = ws_run_len(s);
        if r >= 2 {
            lemma_collapse_props(s.skip(r));
            if s.skip(r).len() > 0 {
                assert(s.skip(r)[0] == s[r]);
                assert(!is_ws(s.skip(r)[0]));
            }
        } else {
            let rest = s.drop_first();
            lemma_collapse_props(rest);
            let t = collapse_ws(rest);
            let w = seq![s[0]] + t;
            assert(w[0] == s[0]);
            assert(forall|k: int| 0 <= k < t.len() ==> w[k + 1] == t[k]);
            if t.len() > 0 && is_ws(t[0]) {
                assert(rest[0] == s[1]);
                assert(is_ws(s[1]));
                assert(ws_run_len(s) >= 2) by {
                    assert(ws_run_len(rest) >= 1);
                }
                assert(false);
            }
            assert(no_double_ws(w));
        }
    } else {
        let rest = s.drop_first();
        lemma_collapse_props(rest);
        let t = collapse_ws(rest);
        let w = seq![s[0]] + t;
        assert(w[0] == s[0]);
        assert(forall|k: int| 0 <= k < t.len() ==> w[k + 1] == t[k]);
        assert(no_double_ws(w));
    }
}

proof fn lemma_collapse_fixed(t: Seq<char>)
    requires
        no_double_ws(t),
    ensures
        collapse_ws(t) == t,
    decreases t.len(),
{
    if t.len() == 0 {
    } else {
        let rest = t.drop_first();
        assert(forall|k: int| 0 <= k < rest.len() ==> rest[k] == t[k + 1]);
        assert(no_double_ws(rest));
        lemma_collapse_fixed(rest);
        if is_ws(t[0]) {
            if t.len() == 1 {
                assert(ws_run_len(t) == 1) by {
                    assert(ws_run_len(t.drop_first()) == 0);
                }
            } else {
                assert(!is_ws(t[1]));
                assert(ws_run_len(t) == 1) by {
                    assert(!is_ws(rest[0]));
                    assert(ws_run_len(rest) == 0);
                }
            }
        }
        assert(collapse_ws(t) =~= t);
    }
}

/// Idempotence of the generic canonicalizer: text that has already been
/// collapsed and trimmed is a fixed point.
pub proof fn lemma_format_key_idempotent(s: Seq<char>)
    ensures
        format_key_spec(format_key_spec(s)) == format_key_spec(s),
{
    let u = collapse_ws(s);
    lemma_collapse_props(s);
    lemma_ws_run_len_bounds(u);
    lemma_ws_run_len_rev_bounds(u);
    let t = trim_ws(u);
    if t.len() == 0 {
        assert(collapse_ws(t) =~= Seq::<char>::empty());
        assert(ws_run_len(Seq::<char>::empty()) == 0);
        assert(trim_ws(collapse_ws(t)) =~= t);
    } else {
        let a = ws_run_len(u);
        let b = u.len() - ws_run_len_rev(u);
        assert(a < u.len());
        assert(!is_ws(u[a]));
        if ws_run_len_rev(u) > u.len() - a - 1 {
            assert(is_ws(u[a]));
            assert(false);
        }
        assert(a < b <= u.len());
        assert(forall|k: int| 0 <= k < t.len() ==> t[k] == u[a + k]);
        assert(no_double_ws(t));
        assert(!is_ws(t[0]));
        assert(!is_ws(t[t.len() - 1])) by {
            assert(t[t.len() - 1] == u[b - 1]);
        }
        lemma_collapse_fixed(t);
        assert(ws_run_len(t) == 0);
        assert(ws_run_len_rev(t) == 0);
        assert(trim_ws(collapse_ws(t)) =~= t);
    }
}

fn ws_run_end(s: &String, start: usize) -> (j: usize)
    requires
        start < s@.len(),
        is_ws(s@[start as int]),
    ensures
        start < j <= s@.len(),
        j - start == ws_run_len(s@.skip(start as int)),
{
    let n = s.as_str().unicode_len();
    let mut j = start + 1;
    while j < n
        invariant
            start < j <= n,
            n == s@.len(),
            forall|k: int| start <= k < j ==> is_ws(s@[k]),
        decreases n - j,
    {
        if !is_ws_char(s.as_str().get_char(j)) {
            proof {
                let suf = s@.skip(start as int);
                assert(forall|k: int| 0 <= k < suf.len() ==> suf[k] == s@[start + k]);
                lemma_ws_run_len_is(suf, j - start);
            }
            return j;
        }
        j = j + 1;
    }
    proof {
        let suf = s@.skip(start as int);
        assert(forall|k: int| 0 <= k < suf.len() ==> suf[k] == s@[start + k]);
        lemma_ws_run_len_is(suf, j - start);
    }
    j
}

fn leading_ws_len(s: &String) -> (a: usize)
    ensures
        a as int == ws_run_len(s@),
{
    let n = s.as_str().unicode_len();
    let mut a: usize = 0;
    while a < n
        invariant
            a <= n,
            n == s@.len(),
            forall|k: int| 0 <= k < a ==> is_ws(s@[k]),
        decreases n - a,
    {
        if !is_ws_char(s.as_str().get_char(a)) {
            proof {
                lemma_ws_run_len_is(s@, a as int);
            }
            return a;
        }
        a = a + 1;
    }
    proof {
        lemma_ws_run_len_is(s@, a as int);
    }
    a
}

fn trailing_ws_len(s: &String) -> (t: usize)
    ensures
        t as int == ws_run_len_rev(s@),
{
    let n = s.as_str().unicode_len();
    let mut t: usize = 0;
    while t < n
        invariant
            t <= n,
            n == s@.len(),
            forall|k: int| n - t <= k < n ==> is_ws(s@[k]),
        decreases n - t,
    {
        if !is_ws_char(s.as_str().get_char(n - 1 - t)) {
            proof {
                lemma_ws_run_len_rev_is(s@, t as int);
            }
            return t;
        }
        t = t + 1;
    }
    proof {
        lemma_ws_run_len_rev_is(s@, t as int);
    }
    t
}

/// The generic canonical key of `key`: every run of two or more whitespace
/// characters is removed, then the leading and trailing whitespace is
/// trimmed.
pub fn format_key(key: String) -> (r: String)
    ensures
        r@ == format_key_spec(key@),
{
    let n = key.as_str().unicode_len();
    let mut collapsed = String::new();
    let mut i: usize = 0;
    proof {
        assert(key@.skip(0) =~= key@);
        assert(collapsed@ + collapse_ws(key@) =~= collapse_ws(key@));
    }
    while i < n
        invariant
            i <= n,
            n == key@.len(),
            collapsed@ + collapse_ws(key@.skip(i as int)) == collapse_ws(key@),
        decreases n - i,
    {
        let c = key.as_str().get_char(i);
        let ghost suf = key@.skip(i as int);
        proof {
            assert(suf[0] == c);
        }
        if is_ws_char(c) {
            let j = ws_run_end(&key, i);
            if j - i >= 2 {
                proof {
                    assert(suf.skip(j - i) =~= key@.skip(j as int));
                    assert(collapse_ws(suf) == collapse_ws(key@.skip(j as int)));
                }
                i = j;
            } else {
                proof {
                    assert(suf.drop_first() =~= key@.skip(i + 1));
                    assert(collapse_ws(suf) == seq![c] + collapse_ws(key@.skip(i + 1)));
                }
                push_char(&mut collapsed, c);
                i = j;
                proof {
                    assert(collapsed@ + collapse_ws(key@.skip(i as int)) =~= collapse_ws(key@));
                }
            }
        } else {
            proof {
                assert(suf.drop_first() =~= key@.skip(i + 1));
                assert(collapse_ws(suf) == seq![c] + collapse_ws(key@.skip(i + 1)));
            }
            push_char(&mut collapsed, c);
            i = i + 1;
            proof {
                assert(collapsed@ + collapse_ws(key@.skip(i as int)) =~= collapse_ws(key@));
            }
        }
    }
    proof {
        assert(key@.skip(n as int) =~= Seq::<char>::empty());
        assert(collapsed@ =~= collapse_ws(key@));
    }
    let m = collapsed.as_str().unicode_len();
    let a = leading_ws_len(&collapsed);
    proof {
        lemma_ws_run_len_bounds(collapsed@);
        lemma_ws_run_len_rev_bounds(collapsed@);
    }
    if a == m {
        proof {
            assert(trim_ws(collapsed@) =~= Seq::<char>::empty());
        }
        return String::new();
    }
    let t = trailing_ws_len(&collapsed);
    proof {
        assert(!is_ws(collapsed@[a as int]));
        if t as int > m - a - 1 {
            assert(is_ws(collapsed@[a as int]));
            assert(false);
        }
    }
    let piece = collapsed.as_str().substring_char(a, m - t);
    let r = piece.to_owned();
    proof {
        assert(r@ == trim_ws(collapsed@));
    }
    r
}

/// The two states of the `let`-binding walk.
#[derive(Clone, Copy)]
pub enum BindingState {
    /// Ordinary token flow.
    Normal,
    /// Between a binding keyword and the separator that ends the binding.
    InBinding,
}

/// Tokens that may stand between `let` and the bound identifier and are
/// emitted verbatim: spacing, reference markers, grouping, and the common
/// wrapper names of destructuring patterns.
pub open spec fn is_binding_filler(t: Seq<char>) -> bool {
    t == " "@ || t == "&"@ || t == "mut"@ || t == "Some"@ || t == "Ok"@ || t == "Err"@
        || t == "("@ || t == ")"@ || t == ","@
}

/// Tokens that end a binding: the type or assignment separator.
pub open spec fn is_binding_end(t: Seq<char>) -> bool {
    t == ":"@ || t == "="@
}

/// The accumulator of the language-aware walk: the symbol table, the walk
/// state, and the key built so far.
#[verifier::ext_equal]
pub struct RustKeyAcc {
    pub scope: ScopeView,
    pub state: BindingState,
    pub key: Seq<char>,
}

/// The accumulator before any token is walked.
pub open spec fn rust_key_init() -> RustKeyAcc {
    RustKeyAcc { scope: scope_empty(), state: BindingState::Normal, key: Seq::empty() }
}

/// One token of the language-aware walk.  Braces move the scope depth; a
/// binding keyword enters the binding state, where the first bare
/// identifier is registered and emitted as its alias; outside a binding,
/// known identifiers are emitted as their aliases.
pub open spec fn rust_key_step(a: RustKeyAcc, t: Seq<char>) -> RustKeyAcc {
    match a.state {
        BindingState::Normal => {
            if t == "{"@ {
                RustKeyAcc { scope: scope_inc(a.scope), state: a.state, key: a.key + t }
            } else if t == "}"@ {
                RustKeyAcc { scope: scope_dec(a.scope), state: a.state, key: a.key + t }
            } else if t == "let"@ {
                RustKeyAcc { scope: a.scope, state: BindingState::InBinding, key: a.key + t }
            } else {
                match scope_get(a.scope, t) {
                    Option::Some(alias) => RustKeyAcc {
                        scope: a.scope,
                        state: a.state,
                        key: a.key + alias,
                    },
                    Option::None => RustKeyAcc { scope: a.scope, state: a.state, key: a.key + t },
                }
            }
        },
        BindingState::InBinding => {
            if is_binding_filler(t) {
                RustKeyAcc { scope: a.scope, state: a.state, key: a.key + t }
            } else if is_binding_end(t) {
                RustKeyAcc { scope: a.scope, state: BindingState::Normal, key: a.key + t }
            } else {
                RustKeyAcc {
                    scope: scope_add(a.scope, t),
                    state: a.state,
                    key: a.key + alias_seq(
                        a.scope.depth,
                        table_at(a.scope, a.scope.depth).len() as int,
                    ),
                }
            }
        },
    }
}

/// The accumulator after walking all of `toks`.
pub open spec fn rust_key_run(toks: Seq<Seq<char>>) -> RustKeyAcc
    decreases toks.len(),
{
    if toks.len() == 0 {
        rust_key_init()
    } else {
        rust_key_step(rust_key_run(toks.drop_last()), toks.last())
    }
}

/// The language-aware canonical key: the generic key of `s`, tokenized and
/// walked with identifier renaming.
pub open spec fn format_key_rust_spec(s: Seq<char>) -> Seq<char> {
    rust_key_run(tokenize_spec(format_key_spec(s))).key
}

/// The language-aware canonical key of `original_string`: whitespace is
/// collapsed and trimmed as in [`format_key`], then the text is tokenized
/// and walked; `{` and `}` move the nesting depth, `let` opens a binding
/// whose first bare identifier is registered in the scope, and every
/// identifier the scope knows is replaced by its alias.
pub fn format_key_rust(original_string: String) -> (r: String)
    ensures
        r@ == format_key_rust_spec(original_string@),
{
    let ghost input = original_string@;
    let trimmed = format_key(original_string);
    let tokens = tokenize_rust_variables(trimmed);
    let ghost tv = views_of(tokens@);
    let mut scope = Scope::new();
    let mut key = String::new();
    let mut state = BindingState::Normal;
    let mut i: usize = 0;
    proof {
        assert(tv.take(0) =~= Seq::<Seq<char>>::empty());
    }
    while i < tokens.len()
        invariant
            i <= tokens@.len(),
            tv == views_of(tokens@),
            tv == tokenize_spec(format_key_spec(input)),
            scope.wf(),
            scope@ == rust_key_run(tv.take(i as int)).scope,
            state == rust_key_run(tv.take(i as int)).state,
            key@ == rust_key_run(tv.take(i as int)).key,
        decreases tokens@.len() - i,
    {
        let ghost a = rust_key_run(tv.take(i as int));
        let t = &tokens[i];
        proof {
            assert(tv.take(i + 1).drop_last() =~= tv.take(i as int));
            assert(tv.take(i + 1).last() == t@);
        }
        match state {
            BindingState::Normal => {
                if str_eq(t.as_str(), "{") {
                    scope.increase_depth();
                    key.append(t.as_str());
                } else if str_eq(t.as_str(), "}") {
                    scope.decrease_depth();
                    key.append(t.as_str());
                } else if str_eq(t.as_str(), "let") {
                    key.append(t.as_str());
                    state = BindingState::InBinding;
                } else {
                    let got = scope.get_variable(t.clone());
                    match got {
                        Option::Some(alias) => key.append(alias.as_str()),
                        Option::None => key.append(t.as_str()),
                    }
                }
            },
            BindingState::InBinding => {
                if str_eq(t.as_str(), " ") || str_eq(t.as_str(), "&") || str_eq(t.as_str(), "mut")
                    || str_eq(t.as_str(), "Some") || str_eq(t.as_str(), "Ok") || str_eq(
                    t.as_str(),
                    "Err",
                ) || str_eq(t.as_str(), "(") || str_eq(t.as_str(), ")") || str_eq(t.as_str(), ",") {
                    key.append(t.as_str());
                } else if str_eq(t.as_str(), ":") || str_eq(t.as_str(), "=") {
                    key.append(t.as_str());
                    state = BindingState::Normal;
                } else {
                    proof {
                        crate::scope::lemma_scope_wf_view(&scope);
                        crate::scope::lemma_scope_get_added(scope@, t@);
                    }
                    scope.add_variable(t.clone());
                    let got = scope.get_variable(t.clone());
                    match got {
                        Option::Some(alias) => key.append(alias.as_str()),
                        Option::None => {
                            proof {
                                assert(false);
                            }
                        },
                    }
                }
            },
        }
        i = i + 1;
    }
    proof {
        assert(tv.take(tokens@.len() as int) =~= tv);
    }
    key
}

/// The two canonicalization strategies.
#[derive(Clone, Copy, Debug, PartialEq, Eq, Structural)]
pub enum KeyFormat {
    /// Whitespace collapsing and trimming only.
    Generic,
    /// Whitespace normalization plus identifier renaming for Rust sources.
    Rust,
}

/// The greatest index at which `c` occurs in `s`, or `-1` if it does not.
pub open spec fn last_pos(s: Seq<char>, c: char) -> int
    decreases s.len(),
{
    if s.len() == 0 {
        -1
    } else if s.last() == c {
        s.len() - 1
    } else {
        last_pos(s.drop_last(), c)
    }
}

proof fn lemma_last_pos_is(s: Seq<char>, c: char, p: int)
    requires
        -1 <= p < s.len(),
        p >= 0 ==> s[p] == c,
        forall|k: int| p < k < s.len() ==> s[k] != c,
    ensures
        last_pos(s, c) == p,
    decreases s.len(),
{
    if s.len() > 0 && s.last() != c {
        assert(forall|k: int| 0 <= k < s.drop_last().len() ==> s.drop_last()[k] == s[k]);
        lemma_last_pos_is(s.drop_last(), c, p);
    }
}

fn last_char_pos(s: &str, c: char) -> (r: Option<usize>)
    ensures
        match r {
            Option::Some(p) => p < s@.len() && last_pos(s@, c) == p as int,
            Option::None => last_pos(s@, c) == -1,
        },
{
    let n = s.unicode_len();
    let mut k = n;
    while k > 0
        invariant
            k <= n,
            n == s@.len(),
            forall|m: int| k <= m < n ==> s@[m] != c,
        decreases k,
    {
        k = k - 1;
        if s.get_char(k) == c {
            proof {
                lemma_last_pos_is(s@, c, k as int);
            }
            return Option::Some(k);
        }
    }
    proof {
        lemma_last_pos_is(s@, c, -1);
    }
    Option::None
}

/// The file-name part of a path: everything after the last separator.
pub open spec fn file_name_of(p: Seq<char>) -> Seq<char> {
    p.skip(last_pos(p, '/') + 1)
}

/// The extension of a path: what follows the last dot of its file name, or
/// nothing when the file name has no dot past its first character.
pub open spec fn extension_of(p: Seq<char>) -> Option<Seq<char>> {
    let f = file_name_of(p);
    let d = last_pos(f, '.');
    if d <= 0 {
        Option::None
    } else {
        Option::Some(f.skip(d + 1))
    }
}

fn extension_str<'a>(p: &'a String) -> (r: Option<&'a str>)
    ensures
        match r {
            Option::Some(e) => extension_of(p@) == Option::Some(e@),
            Option::None => extension_of(p@) is None,
        },
{
    let n = p.as_str().unicode_len();
    let slash = last_char_pos(p.as_str(), '/');
    let start: usize = match slash {
        Option::Some(k) => k + 1,
        Option::None => 0,
    };
    let fname = p.as_str().substring_char(start, n);
    proof {
        assert(fname@ =~= file_name_of(p@));
    }
    let dot = last_char_pos(fname, '.');
    match dot {
        Option::Some(d) => {
            if d == 0 {
                Option::None
            } else {
                let e = fname.substring_char(d + 1, fname.unicode_len());
                proof {
                    assert(e@ =~= file_name_of(p@).skip(d + 1));
                }
                Option::Some(e)
            }
        },
        Option::None => Option::None,
    }
}

/// The strategy for a diff delta: generic when the two extensions differ or
/// when the shared extension has no language-aware canonicalizer; the Rust
/// strategy for a shared `rs` extension.
pub open spec fn key_format_spec(old_path: Seq<char>, new_path: Seq<char>) -> KeyFormat {
    if extension_of(old_path) != extension_of(new_path) {
        KeyFormat::Generic
    } else if extension_of(old_path) == Option::Some("rs"@) {
        KeyFormat::Rust
    } else {
        KeyFormat::Generic
    }
}

/// Picks the canonicalization strategy for a delta from its two paths.
pub fn which_key_format(old_path: &String, new_path: &String) -> (r: KeyFormat)
    ensures
        r == key_format_spec(old_path@, new_path@),
{
    let oe = extension_str(old_path);
    let ne = extension_str(new_path);
    match (oe, ne) {
        (Option::Some(a), Option::Some(b)) => {
            if !str_eq(a, b) {
                KeyFormat::Generic
            } else if str_eq(a, "rs") {
                KeyFormat::Rust
            } else {
                KeyFormat::Generic
            }
        },
        (Option::None, Option::None) => KeyFormat::Generic,
        _ => KeyFormat::Generic,
    }
}

/// The canonical key that strategy `f` gives to `s`.
pub open spec fn key_of(f: KeyFormat, s: Seq<char>) -> Seq<char> {
    match f {
        KeyFormat::Generic => format_key_spec(s),
        KeyFormat::Rust => format_key_rust_spec(s),
    }
}

/// Runs the chosen canonicalization strategy on `text_in`.
pub fn apply_key_format(f: KeyFormat, text_in: String) -> (r: String)
    ensures
        r@ == key_of(f, text_in@),
{
    match f {
        KeyFormat::Generic => format_key(text_in),
        KeyFormat::Rust => format_key_rust(text_in),
    }
}

} // verus!
