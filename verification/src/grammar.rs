//! The executable parser, proved to follow the model in [`crate::model`].
//!
//! Each parser takes the whole (trimmed) input `s` and a character
//! position `i`, and returns what it parsed together with the position
//! after it.  Errors come in two tiers, as the error model asks: a
//! recoverable error lets the caller try something else or stop a
//! repetition cleanly, a fatal error aborts the whole parse.

use vstd::prelude::*;
use vstd::string::*;

use crate::model::is_ident_char;
use crate::model::is_ident_start;
use crate::model::is_inline_ws;
use crate::model::is_ws_char;
use crate::model::spec_line;
use crate::model::spec_line_end;
use crate::model::spec_scan_ident;
use crate::model::spec_scan_to_quote;
use crate::model::spec_skip_ws;
use crate::model::spec_token;
use crate::model::spec_token_end;
use crate::model::AtomModel;

verus! {

/// A parsed rule.
///
/// The parser produces, for each definition, an `ROr` of one or more
/// `RRuleList`s, each holding zero or more atoms (`RString` literals
/// and `RRule` references).  A singleton alternative stays wrapped: it
/// is a one-element `RRuleList` inside a one-element `ROr`, never a
/// bare atom.  `RRange` is an inclusive character range, reserved for a
/// future syntax: no parser path produces it.
#[derive(Debug, PartialEq)]
pub enum Rule {
    RRule(String),
    RString(String),
    RRange(char, char),
    ROr(Vec<Rule>),
    RRuleList(Vec<Rule>),
}

/// What kind of diagnostic a [`ParseError`] carries.
#[derive(Clone, Copy, Debug, PartialEq, Eq)]
pub enum ErrorKind {
    /// An atom was needed but neither a string literal nor an
    /// identifier starts here.
    ExpectedRule,
    /// No rule definition starts here: no identifier, or no `=` after
    /// it.
    ExpectedDefinition,
    /// After a rule body, neither a newline nor the end of the input
    /// follows.
    ExpectedNewlineOrEof,
    /// Unconsumed input remains after the last well-formed definition.
    UnexpectedInput,
}

/// The severity of a diagnostic: a recoverable error lets the caller
/// try another alternative or stop a repetition cleanly; a fatal error
/// aborts the whole parse.
#[derive(Clone, Copy, Debug, PartialEq, Eq)]
pub enum Severity {
    Recoverable,
    Fatal,
}

/// The severity of each kind of diagnostic.
pub open spec fn kind_severity(k: ErrorKind) -> Severity {
    match k {
        ErrorKind::ExpectedRule => Severity::Recoverable,
        ErrorKind::ExpectedDefinition => Severity::Recoverable,
        ErrorKind::ExpectedNewlineOrEof => Severity::Fatal,
        ErrorKind::UnexpectedInput => Severity::Fatal,
    }
}

/// The phrase a diagnostic of kind `k` opens with.
pub open spec fn kind_phrase(k: ErrorKind) -> Seq<char> {
    match k {
        ErrorKind::ExpectedRule => "Expected a valid rule, found "@,
        ErrorKind::ExpectedDefinition => "Expected a rule definition, found "@,
        ErrorKind::ExpectedNewlineOrEof => "Expected a newline or an EOF, found "@,
        ErrorKind::UnexpectedInput => "Unexpected "@,
    }
}

/// A diagnostic: a character offset into the trimmed input, the text
/// found there (up to the next whitespace, or the rest of the line for
/// unconsumed input), and what was expected instead.
#[derive(Debug)]
pub struct ParseError {
    pub pos: usize,
    pub found: String,
    pub kind: ErrorKind,
}

impl ParseError {
    /// Whether this diagnostic aborts the whole parse.
    pub fn is_fatal(&self) -> (b: bool)
        ensures
            b == (kind_severity(self.kind) == Severity::Fatal),
    {
        match self.kind {
            ErrorKind::ExpectedRule => false,
            ErrorKind::ExpectedDefinition => false,
            ErrorKind::ExpectedNewlineOrEof => true,
            ErrorKind::UnexpectedInput => true,
        }
    }

    /// The human-readable message: what was expected, and the text
    /// found instead.
    pub fn message(&self) -> (m: String)
        ensures
            m@ == kind_phrase(self.kind) + self.found@,
    {
        let head = match self.kind {
            ErrorKind::ExpectedRule => "Expected a valid rule, found ",
            ErrorKind::ExpectedDefinition => "Expected a rule definition, found ",
            ErrorKind::ExpectedNewlineOrEof => "Expected a newline or an EOF, found ",
            ErrorKind::UnexpectedInput => "Unexpected ",
        };
        let mut m = String::from_str(head);
        m.append(self.found.as_str());
        m
    }
}

/// Whether `c` has the Unicode `White_Space` property.
pub fn is_whitespace_char(c: char) -> (b: bool)
    ensures
        b == is_ws_char(c),
{
    let u = c as u32;
    (0x09 <= u && u <= 0x0D) || u == 0x20 || u == 0x85 || u == 0xA0 || u == 0x1680
        || (0x2000 <= u && u <= 0x200A) || u == 0x2028 || u == 0x2029 || u == 0x202F
        || u == 0x205F || u == 0x3000
}

/// Whether `c` is whitespace other than the newline.
pub fn is_inline_ws_char(c: char) -> (b: bool)
    ensures
        b == is_inline_ws(c),
{
    is_whitespace_char(c) && c != '\n'
}

fn is_ident_start_char(c: char) -> (b: bool)
    ensures
        b == is_ident_start(c),
{
    let u = c as u32;
    (0x41 <= u && u <= 0x5A) || (0x61 <= u && u <= 0x7A) || u == 0x5F
}

fn is_ident_continue_char(c: char) -> (b: bool)
    ensures
        b == is_ident_char(c),
{
    is_ident_start_char(c) || { let u = c as u32; 0x30 <= u && u <= 0x39 }
}

/// Consumes the maximal run of non-newline whitespace from `i` and
/// returns the position after it.  Never fails; consuming nothing is
/// fine.
pub fn ws_no_newline(s: &str, i: usize) -> (j: usize)
    requires
        i <= s@.len(),
    ensures
        i <= j <= s@.len(),
        j as int == spec_skip_ws(s@, i as int),
{
    let n = s.unicode_len();
    let mut j = i;
    while j < n && is_inline_ws_char(s.get_char(j))
        invariant
            i <= j <= n,
            n == s@.len(),
            spec_skip_ws(s@, i as int) == spec_skip_ws(s@, j as int),
        decreases n - j,
    {
        j = j + 1;
    }
    j
}

/// The text from `i` up to the next whitespace character: the token a
/// diagnostic reports as "found".
fn token_at(s: &str, i: usize) -> (tok: String)
    requires
        i <= s@.len(),
    ensures
        tok@ == spec_token(s@, i as int),
{
    let n = s.unicode_len();
    let mut j = i;
    while j < n && !is_whitespace_char(s.get_char(j))
        invariant
            i <= j <= n,
            n == s@.len(),
            spec_token_end(s@, i as int) == spec_token_end(s@, j as int),
        decreases n - j,
    {
        j = j + 1;
    }
    s.substring_char(i, j).to_owned()
}

/// The text from `i` up to the next newline: the first line of the
/// unconsumed input, for the trailing-input diagnostic.
fn line_at(s: &str, i: usize) -> (ln: String)
    requires
        i <= s@.len(),
    ensures
        ln@ == spec_line(s@, i as int),
{
    let n = s.unicode_len();
    let mut j = i;
    while j < n && s.get_char(j) != '\n'
        invariant
            i <= j <= n,
            n == s@.len(),
            spec_line_end(s@, i as int) == spec_line_end(s@, j as int),
        decreases n - j,
    {
        j = j + 1;
    }
    s.substring_char(i, j).to_owned()
}

/// Parses an identifier at `i`: a letter or `_`, then letters, digits
/// and `_`, maximal.  Returns the identifier and the position after it,
/// or `None` if no identifier starts at `i`.
fn identifier(s: &str, i: usize) -> (r: Option<(String, usize)>)
    requires
        i <= s@.len(),
    ensures
        match crate::model::spec_ident_at(s@, i as int) {
            Some(e) => (r matches Some(p) && p.1 as int == e && p.0@ == s@.subrange(
                i as int,
                e,
            )),
            None => r is None,
        },
{
    let n = s.unicode_len();
    if i < n && is_ident_start_char(s.get_char(i)) {
        let mut j = i + 1;
        while j < n && is_ident_continue_char(s.get_char(j))
            invariant
                i + 1 <= j <= n,
                n == s@.len(),
                spec_scan_ident(s@, i + 1 as int) == spec_scan_ident(s@, j as int),
            decreases n - j,
        {
            j = j + 1;
        }
        Some((s.substring_char(i, j).to_owned(), j))
    } else {
        None
    }
}

/// Parses a string literal at `i`: a `"`, the literal text, and a
/// closing `"`.  Returns the text between the quotes and the position
/// after the closing quote, or `None` if `i` holds no `"` or the
/// literal is unterminated.
fn string_literal(s: &str, i: usize) -> (r: Option<(String, usize)>)
    requires
        i <= s@.len(),
    ensures
        ({
            let t = s@;
            if 0 <= i < t.len() && t[i as int] == '"' {
                let close = spec_scan_to_quote(t, i + 1);
                if close < t.len() {
                    r matches Some(p) && p.1 as int == close + 1 && p.0@ == t.subrange(
                        i + 1,
                        close,
                    )
                } else {
                    r is None
                }
            } else {
                r is None
            }
        }),
{
    let n = s.unicode_len();
    if i < n && s.get_char(i) == '"' {
        let mut j = i + 1;
        while j < n && s.get_char(j) != '"'
            invariant
                i + 1 <= j <= n,
                n == s@.len(),
                spec_scan_to_quote(s@, i + 1 as int) == spec_scan_to_quote(s@, j as int),
            decreases n - j,
        {
            j = j + 1;
        }
        if j < n {
            Some((s.substring_char(i + 1, j).to_owned(), j + 1))
        } else {
            None
        }
    } else {
        None
    }
}

/// Accepts a newline (consuming it) or the end of the input (consuming
/// nothing) at `i`.  Anything else is a fatal error whose diagnostic
/// names the next whitespace-delimited token.
pub fn newline_or_eof(s: &str, i: usize) -> (r: Result<usize, ParseError>)
    requires
        i <= s@.len(),
    ensures
        i == s@.len() ==> (r matches Ok(j) && j == i),
        i < s@.len() && s@[i as int] == '\n' ==> (r matches Ok(j) && j == i + 1),
        i < s@.len() && s@[i as int] != '\n' ==> (r matches Err(e) && e.kind
            == ErrorKind::ExpectedNewlineOrEof && e.pos == i && e.found@ == spec_token(
            s@,
            i as int,
        )),
{
    let n = s.unicode_len();
    if i == n {
        Ok(i)
    } else if s.get_char(i) == '\n' {
        Ok(i + 1)
    } else {
        Err(ParseError { pos: i, found: token_at(s, i), kind: ErrorKind::ExpectedNewlineOrEof })
    }
}

/// Whether `r` has the shape of an atom: a rule reference or a string
/// literal.
pub open spec fn wf_atom(r: Rule) -> bool {
    r matches Rule::RRule(_) || r matches Rule::RString(_)
}

/// The model of an atom-shaped rule.
pub open spec fn atom_model(r: Rule) -> AtomModel {
    match r {
        Rule::RRule(name) => AtomModel::Ref(name@),
        Rule::RString(text) => AtomModel::Lit(text@),
        _ => AtomModel::Ref(Seq::empty()),
    }
}

/// Whether `r` has the shape of a sequence: an `RRuleList` of atoms.
pub open spec fn wf_seq_rule(r: Rule) -> bool {
    r matches Rule::RRuleList(v) && (forall|k: int| 0 <= k < v@.len() ==> wf_atom(#[trigger] v@[k]))
}

/// The model of a sequence-shaped rule.
pub open spec fn seq_rule_model(r: Rule) -> Seq<AtomModel> {
    match r {
        Rule::RRuleList(v) => v@.map_values(|a: Rule| atom_model(a)),
        _ => Seq::empty(),
    }
}

/// Whether `r` has the shape every parsed rule has: an `ROr` of at
/// least one `RRuleList` of atoms.  A singleton alternative stays
/// wrapped; a bare atom never stands at the alternation level.
pub open spec fn wf_alt_rule(r: Rule) -> bool {
    r matches Rule::ROr(v) && v@.len() >= 1 && (forall|k: int|
        0 <= k < v@.len() ==> wf_seq_rule(#[trigger] v@[k]))
}

/// The model of an alternation-shaped rule.
pub open spec fn alt_rule_model(r: Rule) -> Seq<Seq<AtomModel>> {
    match r {
        Rule::ROr(v) => v@.map_values(|q: Rule| seq_rule_model(q)),
        _ => Seq::empty(),
    }
}

/// Parses one atom at `i`: a string literal, or, failing that, an
/// identifier read as a rule reference.  If neither matches, fails with
/// a diagnostic naming the offending token; the callers treat that
/// failure as "no more atoms here".
pub fn rule(s: &str, i: usize) -> (r: Result<(Rule, usize), ParseError>)
    requires
        i <= s@.len(),
    ensures
        match crate::model::spec_atom(s@, i as int) {
            Some(p) => (r matches Ok(q) && wf_atom(q.0) && atom_model(q.0) == p.0 && q.1 as int
                == p.1),
            None => (r matches Err(e) && e.kind == ErrorKind::ExpectedRule && e.pos == i
                && e.found@ == spec_token(s@, i as int)),
        },
{
    match string_literal(s, i) {
        Some((text, j)) => Ok((Rule::RString(text), j)),
        None => match identifier(s, i) {
            Some((name, j)) => Ok((Rule::RRule(name), j)),
            None => Err(
                ParseError { pos: i, found: token_at(s, i), kind: ErrorKind::ExpectedRule },
            ),
        },
    }
}

/// Parses a sequence at `i`: atoms separated by optional non-newline
/// whitespace, zero or more, ending cleanly at the first failed atom
/// attempt.  Never fails; the atoms come wrapped in an `RRuleList` in
/// the order parsed.
pub fn rules(s: &str, i: usize) -> (r: (Rule, usize))
    requires
        i <= s@.len(),
    ensures
        ({
            let sp = crate::model::spec_seq_atoms(s@, i as int);
            wf_seq_rule(r.0) && seq_rule_model(r.0) == sp.0 && r.1 as int == sp.1 && i <= r.1
                <= s@.len()
        }),
{
    let n = s.unicode_len();
    let ghost t = s@;
    let mut atoms: Vec<Rule> = Vec::new();
    let mut cur = i;
    loop
        invariant
            i <= cur <= n,
            n == t.len(),
            s@ == t,
            forall|k: int| 0 <= k < atoms@.len() ==> wf_atom(#[trigger] atoms@[k]),
            crate::model::spec_seq_atoms(t, i as int).0 == atoms@.map_values(
                |a: Rule| atom_model(a),
            ) + crate::model::spec_seq_atoms(t, cur as int).0,
            crate::model::spec_seq_atoms(t, i as int).1 == crate::model::spec_seq_atoms(
                t,
                cur as int,
            ).1,
        decreases n - cur,
    {
        let j = ws_no_newline(s, cur);
        match rule(s, j) {
            Ok((a, k)) => {
                proof {
                    crate::model::lemma_atom_bounds(t, j as int);
                    assert(crate::model::spec_seq_atoms(t, cur as int).0 == seq![atom_model(a)]
                        + crate::model::spec_seq_atoms(t, k as int).0);
                    assert((atoms@ + seq![a]).map_values(|x: Rule| atom_model(x)) =~= atoms@
                        .map_values(|x: Rule| atom_model(x)) + seq![atom_model(a)]);
                    assert(atoms@.map_values(|x: Rule| atom_model(x)) + (seq![atom_model(a)]
                        + crate::model::spec_seq_atoms(t, k as int).0) =~= (atoms@.map_values(
                        |x: Rule| atom_model(x),
                    ) + seq![atom_model(a)]) + crate::model::spec_seq_atoms(t, k as int).0);
                }
                atoms.push(a);
                cur = k;
            },
            Err(_) => {
                proof {
                    assert(crate::model::spec_seq_atoms(t, cur as int).0 =~= Seq::<
                        AtomModel,
                    >::empty());
                    assert(atoms@.map_values(|x: Rule| atom_model(x)) + Seq::<AtomModel>::empty()
                        =~= atoms@.map_values(|x: Rule| atom_model(x)));
                }
                return (Rule::RRuleList(atoms), cur);
            },
        }
    }
}

/// Parses an alternation at `i`: optional whitespace, one sequence,
/// then, for each `|` (with optional whitespace around it), one more
/// sequence.  Never fails; the sequences come wrapped in an `ROr` in
/// the order encountered, the first included.
pub fn or_rules(s: &str, i: usize) -> (r: (Rule, usize))
    requires
        i <= s@.len(),
    ensures
        ({
            let sp = crate::model::spec_alts(s@, i as int);
            wf_alt_rule(r.0) && alt_rule_model(r.0) == sp.0 && r.1 as int == sp.1 && i <= r.1
                <= s@.len()
        }),
{
    let n = s.unicode_len();
    let ghost t = s@;
    let j = ws_no_newline(s, i);
    let (first, e1) = rules(s, j);
    proof {
        crate::model::lemma_seq_atoms_bounds(t, j as int);
    }
    let mut alts: Vec<Rule> = Vec::new();
    alts.push(first);
    let mut cur = e1;
    proof {
        assert(alts@.map_values(|q: Rule| seq_rule_model(q)) =~= seq![
            crate::model::spec_seq_atoms(t, j as int).0,
        ]);
    }
    loop
        invariant
            i <= cur <= n,
            n == t.len(),
            s@ == t,
            alts@.len() >= 1,
            forall|k: int| 0 <= k < alts@.len() ==> wf_seq_rule(#[trigger] alts@[k]),
            crate::model::spec_alts(t, i as int).0 == alts@.map_values(
                |q: Rule| seq_rule_model(q),
            ) + crate::model::spec_alt_tail(t, cur as int).0,
            crate::model::spec_alts(t, i as int).1 == crate::model::spec_alt_tail(
                t,
                cur as int,
            ).1,
        decreases n - cur,
    {
        let j2 = ws_no_newline(s, cur);
        if j2 < n && s.get_char(j2) == '|' {
            let k = ws_no_newline(s, j2 + 1);
            let (sq, e) = rules(s, k);
            proof {
                crate::model::lemma_seq_atoms_bounds(t, k as int);
                assert(crate::model::spec_alt_tail(t, cur as int).0 == seq![
                    crate::model::spec_seq_atoms(t, k as int).0,
                ] + crate::model::spec_alt_tail(t, e as int).0);
                assert((alts@ + seq![sq]).map_values(|x: Rule| seq_rule_model(x)) =~= alts@
                    .map_values(|x: Rule| seq_rule_model(x)) + seq![seq_rule_model(sq)]);
                assert(alts@.map_values(|x: Rule| seq_rule_model(x)) + (seq![seq_rule_model(sq)]
                    + crate::model::spec_alt_tail(t, e as int).0) =~= (alts@.map_values(
                    |x: Rule| seq_rule_model(x),
                ) + seq![seq_rule_model(sq)]) + crate::model::spec_alt_tail(t, e as int).0);
            }
            alts.push(sq);
            cur = e;
        } else {
            proof {
                assert(crate::model::spec_alt_tail(t, cur as int).0 =~= Seq::<
                    Seq<AtomModel>,
                >::empty());
                assert(alts@.map_values(|x: Rule| seq_rule_model(x)) + Seq::<
                    Seq<AtomModel>,
                >::empty() =~= alts@.map_values(|x: Rule| seq_rule_model(x)));
            }
            return (Rule::ROr(alts), cur);
        }
    }
}

/// Whether `s` holds an entry named `q`.
pub open spec fn has_key(s: Seq<(String, Rule)>, q: Seq<char>) -> bool {
    exists|k: int| 0 <= k < s.len() && s[k].0@ == q
}

/// The index of the entry named `q`, where there is exactly one.
pub open spec fn key_at(s: Seq<(String, Rule)>, q: Seq<char>) -> int {
    choose|k: int| 0 <= k < s.len() && s[k].0@ == q
}

/// The entries read as a map from rule name to the rule's model.
pub open spec fn entries_model(s: Seq<(String, Rule)>) -> Map<Seq<char>, Seq<Seq<AtomModel>>> {
    Map::new(|q: Seq<char>| has_key(s, q), |q: Seq<char>| alt_rule_model(s[key_at(s, q)].1))
}

/// Whether no two entries share a name.
pub open spec fn unique_keys(s: Seq<(String, Rule)>) -> bool {
    forall|k1: int, k2: int|
        0 <= k1 < k2 < s.len() ==> (#[trigger] s[k1].0)@ != (#[trigger] s[k2].0)@
}

/// Whether every entry's rule has the parsed shape.
pub open spec fn wf_values(s: Seq<(String, Rule)>) -> bool {
    forall|k: int| 0 <= k < s.len() ==> wf_alt_rule((#[trigger] s[k]).1)
}

/// With unique names, `key_at` finds exactly the entry at `k`.
proof fn lemma_key_at_is(s: Seq<(String, Rule)>, q: Seq<char>, k: int)
    requires
        unique_keys(s),
        0 <= k < s.len(),
        s[k].0@ == q,
    ensures
        has_key(s, q),
        key_at(s, q) == k,
{
    assert(has_key(s, q)) by {
        assert(0 <= k < s.len() && s[k].0@ == q);
    }
    let j = key_at(s, q);
    assert(0 <= j < s.len() && s[j].0@ == q);
    if j < k {
        assert(s[j].0@ != s[k].0@);
    } else if k < j {
        assert(s[k].0@ != s[j].0@);
    }
}

/// Overwriting the one entry named `name` changes the map at `name`
/// alone.
proof fn lemma_model_update(olds: Seq<(String, Rule)>, k: int, name: String, r: Rule)
    requires
        unique_keys(olds),
        0 <= k < olds.len(),
        olds[k].0@ == name@,
    ensures
        unique_keys(olds.update(k, (name, r))),
        entries_model(olds.update(k, (name, r))) == entries_model(olds).insert(
            name@,
            alt_rule_model(r),
        ),
{
    let news = olds.update(k, (name, r));
    assert(forall|j: int| 0 <= j < news.len() ==> (#[trigger] news[j]).0@ == olds[j].0@);
    assert(unique_keys(news)) by {
        assert forall|a: int, b: int| 0 <= a < b < news.len() implies (#[trigger] news[a].0)@ != (
        #[trigger] news[b].0)@ by {
            assert(news[a].0@ == olds[a].0@);
            assert(news[b].0@ == olds[b].0@);
            assert(olds[a].0@ != olds[b].0@);
        }
    }
    assert forall|q: Seq<char>| has_key(news, q) == has_key(olds, q) by {
        if has_key(news, q) {
            let w = choose|w: int| 0 <= w < news.len() && news[w].0@ == q;
            assert(olds[w].0@ == q);
            assert(has_key(olds, q));
        }
        if has_key(olds, q) {
            let w = choose|w: int| 0 <= w < olds.len() && olds[w].0@ == q;
            assert(news[w].0@ == q);
            assert(has_key(news, q));
        }
    }
    assert(has_key(olds, name@)) by {
        assert(0 <= k < olds.len() && olds[k].0@ == name@);
    }
    assert forall|q: Seq<char>| #[trigger] has_key(news, q) implies entries_model(news)[q] == (
    if q == name@ {
        alt_rule_model(r)
    } else {
        entries_model(olds)[q]
    }) by {
        if q == name@ {
            lemma_key_at_is(news, q, k);
            assert(news[k].1 == r);
        } else {
            let w = choose|w: int| 0 <= w < news.len() && news[w].0@ == q;
            assert(0 <= w < news.len() && news[w].0@ == q);
            assert(w != k);
            assert(olds[w].0@ == q);
            lemma_key_at_is(news, q, w);
            lemma_key_at_is(olds, q, w);
            assert(news[w].1 == olds[w].1);
        }
    }
    assert(entries_model(news) =~= entries_model(olds).insert(name@, alt_rule_model(r)));
}

/// Appending an entry whose name no entry holds adds one binding to
/// the map.
proof fn lemma_model_push(olds: Seq<(String, Rule)>, name: String, r: Rule)
    requires
        unique_keys(olds),
        forall|j: int| 0 <= j < olds.len() ==> (#[trigger] olds[j].0)@ != name@,
    ensures
        unique_keys(olds.push((name, r))),
        entries_model(olds.push((name, r))) == entries_model(olds).insert(
            name@,
            alt_rule_model(r),
        ),
{
    let news = olds.push((name, r));
    let m = olds.len() as int;
    assert(news[m].0@ == name@);
    assert(forall|j: int| 0 <= j < m ==> (#[trigger] news[j]).0@ == olds[j].0@);
    assert(unique_keys(news)) by {
        assert forall|a: int, b: int| 0 <= a < b < news.len() implies (#[trigger] news[a].0)@ != (
        #[trigger] news[b].0)@ by {
            assert(news[a].0@ == olds[a].0@);
            if b < m {
                assert(news[b].0@ == olds[b].0@);
                assert(olds[a].0@ != olds[b].0@);
            } else {
                assert(news[b].0@ == name@);
                assert(olds[a].0@ != name@);
            }
        }
    }
    assert forall|q: Seq<char>| has_key(news, q) == (q == name@ || has_key(olds, q)) by {
        if has_key(news, q) {
            let w = choose|w: int| 0 <= w < news.len() && news[w].0@ == q;
            if w < m {
                assert(olds[w].0@ == q);
                assert(has_key(olds, q));
            } else {
                assert(q == name@);
            }
        }
        if has_key(olds, q) {
            let w = choose|w: int| 0 <= w < olds.len() && olds[w].0@ == q;
            assert(news[w].0@ == q);
            assert(has_key(news, q));
        }
        if q == name@ {
            assert(0 <= m < news.len() && news[m].0@ == q);
            assert(has_key(news, q));
        }
    }
    assert forall|q: Seq<char>| #[trigger] has_key(news, q) implies entries_model(news)[q] == (
    if q == name@ {
        alt_rule_model(r)
    } else {
        entries_model(olds)[q]
    }) by {
        if q == name@ {
            lemma_key_at_is(news, q, m);
            assert(news[m].1 == r);
        } else {
            let w = choose|w: int| 0 <= w < news.len() && news[w].0@ == q;
            assert(0 <= w < news.len() && news[w].0@ == q);
            assert(w != m);
            assert(olds[w].0@ == q);
            lemma_key_at_is(news, q, w);
            lemma_key_at_is(olds, q, w);
            assert(news[w].1 == olds[w].1);
        }
    }
    assert(entries_model(news) =~= entries_model(olds).insert(name@, alt_rule_model(r)));
}

/// A grammar: a mapping from rule name to exactly one rule.  Lookup is
/// by exact name; a later definition of a name overwrites an earlier
/// one.
#[derive(Debug, PartialEq)]
pub struct Grammar {
    pub entries: Vec<(String, Rule)>,
}

impl Grammar {
    /// Every name has exactly one entry, and every rule has the parsed
    /// shape: an alternation of sequences of atoms.
    pub open spec fn wf(self) -> bool {
        wf_values(self.entries@) && unique_keys(self.entries@)
    }

    /// The grammar read as a map from rule name to the rule's model.
    pub open spec fn model(self) -> Map<Seq<char>, Seq<Seq<AtomModel>>> {
        entries_model(self.entries@)
    }

    /// The empty grammar.
    pub fn new() -> (g: Grammar)
        ensures
            g.wf(),
            g.model() == Map::<Seq<char>, Seq<Seq<AtomModel>>>::empty(),
            g.entries@.len() == 0,
    {
        let g = Grammar { entries: Vec::new() };
        proof {
            assert(g.model() =~= Map::<Seq<char>, Seq<Seq<AtomModel>>>::empty());
        }
        g
    }

    /// The number of rules.
    pub fn len(&self) -> (n: usize)
        ensures
            n == self.entries@.len(),
    {
        self.entries.len()
    }

    /// Binds `name` to `r`, overwriting the entry of that name if there
    /// is one.
    pub fn insert(&mut self, name: String, r: Rule)
        requires
            old(self).wf(),
            wf_alt_rule(r),
        ensures
            final(self).wf(),
            final(self).model() == old(self).model().insert(name@, alt_rule_model(r)),
    {
        let ghost olds = self.entries@;
        let n = self.entries.len();
        let mut k: usize = 0;
        while k < n
            invariant
                0 <= k <= n,
                n == self.entries@.len(),
                self.entries@ == olds,
                olds == old(self).entries@,
                unique_keys(olds),
                wf_values(olds),
                wf_alt_rule(r),
                forall|j: int| 0 <= j < k ==> (#[trigger] self.entries@[j].0)@ != name@,
            decreases n - k,
        {
            if str_eq(self.entries[k].0.as_str(), name.as_str()) {
                self.entries[k] = (name, r);
                proof {
                    lemma_model_update(olds, k as int, name, r);
                    assert(self.entries@ =~= olds.update(k as int, (name, r)));
                    assert(wf_values(self.entries@)) by {
                        assert forall|j: int|
                            0 <= j < self.entries@.len() implies wf_alt_rule(
                            (#[trigger] self.entries@[j]).1,
                        ) by {
                            if j != k {
                                assert(self.entries@[j] == olds[j]);
                            }
                        }
                    }
                }
                return ;
            }
            k = k + 1;
        }
        self.entries.push((name, r));
        proof {
            lemma_model_push(olds, name, r);
            assert(self.entries@ =~= olds.push((name, r)));
            assert(wf_values(self.entries@)) by {
                assert forall|j: int|
                    0 <= j < self.entries@.len() implies wf_alt_rule(
                    (#[trigger] self.entries@[j]).1,
                ) by {
                    if j < olds.len() {
                        assert(self.entries@[j] == olds[j]);
                    }
                }
            }
        }
    }

    /// Looks the rule of `name` up, by exact name match.
    pub fn get(&self, name: &str) -> (r: Option<&Rule>)
        requires
            self.wf(),
        ensures
            match r {
                Some(rl) => self.model().contains_key(name@) && wf_alt_rule(*rl) && alt_rule_model(
                    *rl,
                ) == self.model()[name@],
                None => !self.model().contains_key(name@),
            },
    {
        let ghost s = self.entries@;
        let n = self.entries.len();
        let mut k: usize = 0;
        while k < n
            invariant
                0 <= k <= n,
                n == s.len(),
                self.entries@ == s,
                self.wf(),
                forall|j: int| 0 <= j < k ==> (#[trigger] s[j].0)@ != name@,
            decreases n - k,
        {
            if str_eq(self.entries[k].0.as_str(), name) {
                proof {
                    lemma_key_at_is(s, name@, k as int);
                }
                return Some(&self.entries[k].1);
            }
            k = k + 1;
        }
        proof {
            if has_key(s, name@) {
                let w = choose|w: int| 0 <= w < s.len() && s[w].0@ == name@;
                assert(s[w].0@ != name@);
            }
        }
        None
    }
}

/// Whether two strings hold the same characters, compared one by one.
pub fn str_eq(a: &str, b: &str) -> (r: bool)
    ensures
        r == (a@ == b@),
{
    let na = a.unicode_len();
    let nb = b.unicode_len();
    if na != nb {
        return false;
    }
    let mut k: usize = 0;
    while k < na
        invariant
            0 <= k <= na,
            na == a@.len(),
            na == b@.len(),
            forall|j: int| 0 <= j < k ==> a@[j] == b@[j],
        decreases na - k,
    {
        if a.get_char(k) != b.get_char(k) {
            return false;
        }
        k = k + 1;
    }
    proof {
        assert(a@ =~= b@);
    }
    true
}

/// Parses one rule definition at `i`: an identifier, `=`, an
/// alternation, and a newline or the end of the input, with optional
/// non-newline whitespace between the steps.  Returns the rule name,
/// its rule, and the position after the terminator.  A missing
/// identifier or `=` is a recoverable failure; a missing terminator is
/// fatal.
pub fn rule_def(s: &str, i: usize) -> (r: Result<((String, Rule), usize), ParseError>)
    requires
        i <= s@.len(),
    ensures
        match crate::model::spec_rule_def(s@, i as int) {
            crate::model::DefOut::DefOk { name, alts, end } => (r matches Ok(p) && p.0.0@ == name
                && wf_alt_rule(p.0.1) && alt_rule_model(p.0.1) == alts && p.1 as int == end),
            crate::model::DefOut::DefMiss => (r matches Err(e) && e.kind
                == ErrorKind::ExpectedDefinition),
            crate::model::DefOut::DefFatal { pos, found } => (r matches Err(e) && e.kind
                == ErrorKind::ExpectedNewlineOrEof && e.pos as int == pos && e.found@ == found),
        },
{
    let ghost t = s@;
    match identifier(s, i) {
        None => Err(
            ParseError { pos: i, found: token_at(s, i), kind: ErrorKind::ExpectedDefinition },
        ),
        Some((name, ne)) => {
            proof {
                crate::model::lemma_scan_ident_bounds(t, i + 1 as int);
            }
            let n = s.unicode_len();
            let j1 = ws_no_newline(s, ne);
            if !(j1 < n && s.get_char(j1) == '=') {
                Err(
                    ParseError {
                        pos: j1,
                        found: token_at(s, j1),
                        kind: ErrorKind::ExpectedDefinition,
                    },
                )
            } else {
                let j2 = ws_no_newline(s, j1 + 1);
                let (alt, e) = or_rules(s, j2);
                let j3 = ws_no_newline(s, e);
                match newline_or_eof(s, j3) {
                    Ok(end) => Ok(((name, alt), end)),
                    Err(err) => Err(err),
                }
            }
        },
    }
}

/// Parses a whole grammar text: trims leading and trailing whitespace,
/// parses rule definitions until the first attempt that matches none,
/// and accepts exactly when nothing is left.  On success every rule
/// name maps to its parsed alternation, a later definition of a name
/// overwriting an earlier one.  A definition malformed past its `=`
/// aborts with the fatal diagnostic; unconsumed input fails with a
/// diagnostic carrying its offset and its first line.
pub fn grammar(input: &str) -> (r: Result<Grammar, ParseError>)
    ensures
        match crate::model::spec_grammar(input@) {
            crate::model::GrammarOut::GrammarOk(m) => (r matches Ok(g) && g.wf() && g.model()
                == m),
            crate::model::GrammarOut::GrammarFatal { pos, found } => (r matches Err(e) && e.kind
                == ErrorKind::ExpectedNewlineOrEof && e.pos as int == pos && e.found@ == found),
            crate::model::GrammarOut::GrammarTrailing { pos, found } => (r matches Err(e)
                && e.kind == ErrorKind::UnexpectedInput && e.pos as int == pos && e.found@
                == found),
        },
{
    let n0 = input.unicode_len();
    let ghost t0 = input@;
    let mut a: usize = 0;
    while a < n0 && is_whitespace_char(input.get_char(a))
        invariant
            0 <= a <= n0,
            n0 == t0.len(),
            input@ == t0,
            crate::model::spec_skip_all_ws(t0, 0) == crate::model::spec_skip_all_ws(t0, a as int),
        decreases n0 - a,
    {
        a = a + 1;
    }
    let mut b: usize = n0;
    while b > 0 && is_whitespace_char(input.get_char(b - 1))
        invariant
            0 <= b <= n0,
            n0 == t0.len(),
            input@ == t0,
            crate::model::spec_trim_back(t0, n0 as int) == crate::model::spec_trim_back(
                t0,
                b as int,
            ),
        decreases b,
    {
        b = b - 1;
    }
    let trimmed = if a <= b {
        input.substring_char(a, b)
    } else {
        input.substring_char(0, 0)
    };
    let ghost t = trimmed@;
    proof {
        if a > b {
            assert(t =~= crate::model::spec_trim(t0));
        }
        assert(t == crate::model::spec_trim(input@));
    }
    let n = trimmed.unicode_len();
    let mut g = Grammar::new();
    let ghost mut parsed: Seq<(Seq<char>, Seq<Seq<AtomModel>>)> = Seq::empty();
    let mut cur: usize = 0;
    proof {
        match crate::model::spec_defs(t, 0) {
            crate::model::DefsOut::DefsDone { defs, end } => {
                assert(Seq::empty() + defs =~= defs);
            },
            crate::model::DefsOut::DefsFatal { pos, found } => {},
        }
    }
    loop
        invariant
            0 <= cur <= n,
            n == t.len(),
            trimmed@ == t,
            t == crate::model::spec_trim(input@),
            g.wf(),
            g.model() == crate::model::fold_defs(parsed),
            match (crate::model::spec_defs(t, 0), crate::model::spec_defs(t, cur as int)) {
                (
                    crate::model::DefsOut::DefsDone { defs: d0, end: e0 },
                    crate::model::DefsOut::DefsDone { defs: d1, end: e1 },
                ) => d0 == parsed + d1 && e0 == e1,
                (
                    crate::model::DefsOut::DefsFatal { pos: p0, found: f0 },
                    crate::model::DefsOut::DefsFatal { pos: p1, found: f1 },
                ) => p0 == p1 && f0 == f1,
                _ => false,
            },
        decreases n - cur,
    {
        match rule_def(trimmed, cur) {
            Ok(((nm, rl), e)) => {
                proof {
                    crate::model::lemma_rule_def_bounds(t, cur as int);
                    let d = (nm@, alt_rule_model(rl));
                    assert(parsed.push(d).drop_last() =~= parsed);
                    assert(parsed.push(d).last() == d);
                    assert(crate::model::fold_defs(parsed.push(d)) == crate::model::fold_defs(
                        parsed,
                    ).insert(nm@, alt_rule_model(rl)));
                    match crate::model::spec_defs(t, e as int) {
                        crate::model::DefsOut::DefsDone { defs: d2, end: e2 } => {
                            assert(parsed + (seq![d] + d2) =~= parsed.push(d) + d2);
                        },
                        crate::model::DefsOut::DefsFatal { pos, found } => {},
                    }
                    parsed = parsed.push(d);
                }
                g.insert(nm, rl);
                cur = e;
            },
            Err(e) => {
                if e.is_fatal() {
                    proof {
                        assert(crate::model::spec_rule_def(t, cur as int)
                            matches crate::model::DefOut::DefFatal { pos, found });
                    }
                    return Err(e);
                } else {
                    proof {
                        assert(crate::model::spec_rule_def(t, cur as int)
                            matches crate::model::DefOut::DefMiss);
                        assert(parsed + Seq::<(Seq<char>, Seq<Seq<AtomModel>>)>::empty()
                            =~= parsed);
                    }
                    if cur == n {
                        return Ok(g);
                    } else {
                        return Err(
                            ParseError {
                                pos: cur,
                                found: line_at(trimmed, cur),
                                kind: ErrorKind::UnexpectedInput,
                            },
                        );
                    }
                }
            },
        }
    }
}

} // verus!
