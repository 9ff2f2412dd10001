//! The mathematical model of the parse.
//!
//! Everything here is specification-level: pure functions over
//! `Seq<char>` and a character position.  Each function returns what the
//! corresponding executable parser consumes and produces, so the
//! executable code in `grammar` can be proved to follow the model
//! exactly.  Positions are character offsets into the (trimmed) input.

use vstd::prelude::*;

verus! {

/// An atom of a rule body, as the model sees it: either a reference to
/// another rule by name, or a literal text.
pub enum AtomModel {
    Ref(Seq<char>),
    Lit(Seq<char>),
}

/// The characters with the Unicode `White_Space` property.
pub open spec fn is_ws_char(c: char) -> bool {
    let u = c as u32;
    (0x09 <= u && u <= 0x0D) || u == 0x20 || u == 0x85 || u == 0xA0 || u == 0x1680
        || (0x2000 <= u && u <= 0x200A) || u == 0x2028 || u == 0x2029 || u == 0x202F
        || u == 0x205F || u == 0x3000
}

/// Whitespace that may separate tokens inside one rule definition:
/// any whitespace character except the newline, which terminates a
/// definition.
pub open spec fn is_inline_ws(c: char) -> bool {
    is_ws_char(c) && c != '\n'
}

/// The characters an identifier may start with: ASCII letters and `_`.
pub open spec fn is_ident_start(c: char) -> bool {
    let u = c as u32;
    (0x41 <= u && u <= 0x5A) || (0x61 <= u && u <= 0x7A) || u == 0x5F
}

/// The characters an identifier may continue with: ASCII letters,
/// ASCII digits and `_`.
pub open spec fn is_ident_char(c: char) -> bool {
    is_ident_start(c) || (0x30 <= (c as u32) && (c as u32) <= 0x39)
}

/// The position reached from `i` by consuming the maximal run of
/// non-newline whitespace.
pub open spec fn spec_skip_ws(t: Seq<char>, i: int) -> int
    decreases t.len() - i when 0 <= i <= t.len()
{
    if i < t.len() && is_inline_ws(t[i]) {
        spec_skip_ws(t, i + 1)
    } else {
        i
    }
}

/// The position reached from `i` by consuming the maximal run of
/// identifier characters.
pub open spec fn spec_scan_ident(t: Seq<char>, i: int) -> int
    decreases t.len() - i when 0 <= i <= t.len()
{
    if i < t.len() && is_ident_char(t[i]) {
        spec_scan_ident(t, i + 1)
    } else {
        i
    }
}

/// The position of the first `"` at or after `i`, or the end of the
/// text if there is none.
pub open spec fn spec_scan_to_quote(t: Seq<char>, i: int) -> int
    decreases t.len() - i when 0 <= i <= t.len()
{
    if i < t.len() && t[i] != '"' {
        spec_scan_to_quote(t, i + 1)
    } else {
        i
    }
}

/// The position of the first whitespace character at or after `i`, or
/// the end of the text.  The text between `i` and this position is the
/// token a diagnostic reports as "found".
pub open spec fn spec_token_end(t: Seq<char>, i: int) -> int
    decreases t.len() - i when 0 <= i <= t.len()
{
    if i < t.len() && !is_ws_char(t[i]) {
        spec_token_end(t, i + 1)
    } else {
        i
    }
}

/// The position of the first newline at or after `i`, or the end of the
/// text.
pub open spec fn spec_line_end(t: Seq<char>, i: int) -> int
    decreases t.len() - i when 0 <= i <= t.len()
{
    if i < t.len() && t[i] != '\n' {
        spec_line_end(t, i + 1)
    } else {
        i
    }
}

/// The text from `i` up to the next whitespace character.
pub open spec fn spec_token(t: Seq<char>, i: int) -> Seq<char> {
    t.subrange(i, spec_token_end(t, i))
}

/// The text from `i` up to the next newline.
pub open spec fn spec_line(t: Seq<char>, i: int) -> Seq<char> {
    t.subrange(i, spec_line_end(t, i))
}

/// What an atom parse at position `i` yields: the atom and the position
/// after it.  A quoted string literal is tried first; an identifier,
/// read as a rule reference, second.  `None` means no atom starts at
/// `i` (an unterminated string literal is no atom either).
pub open spec fn spec_atom(t: Seq<char>, i: int) -> Option<(AtomModel, int)> {
    if 0 <= i < t.len() && t[i] == '"' {
        let close = spec_scan_to_quote(t, i + 1);
        if close < t.len() {
            Some((AtomModel::Lit(t.subrange(i + 1, close)), close + 1))
        } else {
            None
        }
    } else if 0 <= i < t.len() && is_ident_start(t[i]) {
        let end = spec_scan_ident(t, i + 1);
        Some((AtomModel::Ref(t.subrange(i, end)), end))
    } else {
        None
    }
}

/// What a sequence parse at position `i` yields: the atoms, in order,
/// each preceded by optional non-newline whitespace, and the position
/// after the last atom.  The first failed atom attempt ends the
/// sequence, consuming nothing: the end position then lies right after
/// the previous atom, before any whitespace the attempt had skipped.
pub open spec fn spec_seq_atoms(t: Seq<char>, i: int) -> (Seq<AtomModel>, int)
    decreases t.len() - i when 0 <= i <= t.len()
{
    let j = spec_skip_ws(t, i);
    match spec_atom(t, j) {
        Some(p) => {
            if i < p.1 <= t.len() {
                let rest = spec_seq_atoms(t, p.1);
                (seq![p.0] + rest.0, rest.1)
            } else {
                (seq![p.0], p.1)
            }
        },
        None => (Seq::empty(), i),
    }
}

/// What the repeated tail of an alternation yields from position `i`:
/// for each `|` (preceded by optional whitespace), one more sequence,
/// and the position after the last one.
pub open spec fn spec_alt_tail(t: Seq<char>, i: int) -> (Seq<Seq<AtomModel>>, int)
    decreases t.len() - i when 0 <= i <= t.len()
{
    let j = spec_skip_ws(t, i);
    if j < t.len() && t[j] == '|' {
        let k = spec_skip_ws(t, j + 1);
        if k <= t.len() {
            let sq = spec_seq_atoms(t, k);
            if i < sq.1 <= t.len() {
                let rest = spec_alt_tail(t, sq.1);
                (seq![sq.0] + rest.0, rest.1)
            } else {
                (seq![sq.0], sq.1)
            }
        } else {
            (Seq::empty(), i)
        }
    } else {
        (Seq::empty(), i)
    }
}

/// What an alternation parse at position `i` yields: the first
/// sequence, then one more sequence per `|`, in the order encountered,
/// and the position after the last of them.  An alternation always
/// holds at least one sequence and never fails.
pub open spec fn spec_alts(t: Seq<char>, i: int) -> (Seq<Seq<AtomModel>>, int) {
    let j = spec_skip_ws(t, i);
    let first = spec_seq_atoms(t, j);
    let rest = spec_alt_tail(t, first.1);
    (seq![first.0] + rest.0, rest.1)
}

/// The outcome of a rule-definition parse.
pub enum DefOut {
    /// The definition parsed: its name, its alternation, and the
    /// position after its terminator.
    DefOk { name: Seq<char>, alts: Seq<Seq<AtomModel>>, end: int },
    /// No definition starts here: there is no identifier, or no `=`
    /// after it.  The caller stops its repetition and consumes nothing.
    DefMiss,
    /// The definition is malformed past the point of commitment: after
    /// its body neither a newline nor the end of the input follows.
    /// `found` is the offending token, up to the next whitespace.
    DefFatal { pos: int, found: Seq<char> },
}

/// What a rule-definition parse at position `i` yields: an identifier,
/// optional whitespace, `=`, optional whitespace, an alternation,
/// optional whitespace, and a newline or the end of the input.
pub open spec fn spec_rule_def(t: Seq<char>, i: int) -> DefOut {
    match spec_ident_at(t, i) {
        None => DefOut::DefMiss,
        Some(ne) => {
            let j1 = spec_skip_ws(t, ne);
            if !(j1 < t.len() && t[j1] == '=') {
                DefOut::DefMiss
            } else {
                let j2 = spec_skip_ws(t, j1 + 1);
                let ar = spec_alts(t, j2);
                let j3 = spec_skip_ws(t, ar.1);
                if j3 == t.len() {
                    DefOut::DefOk { name: t.subrange(i, ne), alts: ar.0, end: j3 }
                } else if t[j3] == '\n' {
                    DefOut::DefOk { name: t.subrange(i, ne), alts: ar.0, end: j3 + 1 }
                } else {
                    DefOut::DefFatal { pos: j3, found: spec_token(t, j3) }
                }
            }
        },
    }
}

/// The position after the identifier starting at `i`, or `None` if no
/// identifier starts there.
pub open spec fn spec_ident_at(t: Seq<char>, i: int) -> Option<int> {
    if 0 <= i < t.len() && is_ident_start(t[i]) {
        Some(spec_scan_ident(t, i + 1))
    } else {
        None
    }
}

/// The outcome of the top-level repetition of rule definitions.
pub enum DefsOut {
    /// The definitions parsed, in order, and the position after the
    /// last one, where the first failed attempt stopped the repetition.
    DefsDone { defs: Seq<(Seq<char>, Seq<Seq<AtomModel>>)>, end: int },
    /// A definition failed past the point of commitment; the whole
    /// parse aborts with this diagnostic.
    DefsFatal { pos: int, found: Seq<char> },
}

/// What the repetition of rule definitions from position `i` yields.
pub open spec fn spec_defs(t: Seq<char>, i: int) -> DefsOut
    decreases t.len() - i when 0 <= i <= t.len()
{
    match spec_rule_def(t, i) {
        DefOut::DefMiss => DefsOut::DefsDone { defs: Seq::empty(), end: i },
        DefOut::DefFatal { pos, found } => DefsOut::DefsFatal { pos, found },
        DefOut::DefOk { name, alts, end } => {
            if i < end <= t.len() {
                match spec_defs(t, end) {
                    DefsOut::DefsDone { defs, end: e2 } => DefsOut::DefsDone {
                        defs: seq![(name, alts)] + defs,
                        end: e2,
                    },
                    DefsOut::DefsFatal { pos, found } => DefsOut::DefsFatal { pos, found },
                }
            } else {
                DefsOut::DefsDone { defs: seq![(name, alts)], end }
            }
        },
    }
}

/// The position of the first non-whitespace character at or after `i`.
pub open spec fn spec_skip_all_ws(t: Seq<char>, i: int) -> int
    decreases t.len() - i when 0 <= i <= t.len()
{
    if i < t.len() && is_ws_char(t[i]) {
        spec_skip_all_ws(t, i + 1)
    } else {
        i
    }
}

/// The position right after the last non-whitespace character before
/// `j`, scanning back from `j`.
pub open spec fn spec_trim_back(t: Seq<char>, j: int) -> int
    decreases j when 0 <= j <= t.len()
{
    if j > 0 && is_ws_char(t[j - 1]) {
        spec_trim_back(t, j - 1)
    } else {
        j
    }
}

/// The text with leading and trailing whitespace removed.
pub open spec fn spec_trim(t: Seq<char>) -> Seq<char> {
    let a = spec_skip_all_ws(t, 0);
    let b = spec_trim_back(t, t.len() as int);
    if a <= b {
        t.subrange(a, b)
    } else {
        Seq::empty()
    }
}

/// The outcome of a whole-grammar parse.  Positions are character
/// offsets into the trimmed input.
pub enum GrammarOut {
    /// The grammar: rule name to alternation, later definitions of the
    /// same name overwriting earlier ones.
    GrammarOk(Map<Seq<char>, Seq<Seq<AtomModel>>>),
    /// A definition was malformed past the point of commitment.
    GrammarFatal { pos: int, found: Seq<char> },
    /// Some prefix parsed as zero or more definitions, but unconsumed
    /// input remains; `found` is its first line.
    GrammarTrailing { pos: int, found: Seq<char> },
}

/// The parsed definitions folded into a map, in order: a later
/// definition of a name overwrites an earlier one.
pub open spec fn fold_defs(defs: Seq<(Seq<char>, Seq<Seq<AtomModel>>)>) -> Map<
    Seq<char>,
    Seq<Seq<AtomModel>>,
>
    decreases defs.len(),
{
    if defs.len() == 0 {
        Map::empty()
    } else {
        fold_defs(defs.drop_last()).insert(defs.last().0, defs.last().1)
    }
}

/// The rule definitions the whole-grammar parse collects from `t`, in
/// the order they stand in the text (empty when the parse aborts).
pub open spec fn spec_parsed_defs(t: Seq<char>) -> Seq<(Seq<char>, Seq<Seq<AtomModel>>)> {
    match spec_defs(spec_trim(t), 0) {
        DefsOut::DefsDone { defs, end } => defs,
        DefsOut::DefsFatal { pos, found } => Seq::empty(),
    }
}

/// What the whole-grammar parse yields: trim the input, parse rule
/// definitions until the first failed attempt, then accept exactly when
/// nothing is left.
pub open spec fn spec_grammar(t: Seq<char>) -> GrammarOut {
    let tr = spec_trim(t);
    match spec_defs(tr, 0) {
        DefsOut::DefsFatal { pos, found } => GrammarOut::GrammarFatal { pos, found },
        DefsOut::DefsDone { defs, end } => {
            if end == tr.len() {
                GrammarOut::GrammarOk(fold_defs(defs))
            } else {
                GrammarOut::GrammarTrailing { pos: end, found: spec_line(tr, end) }
            }
        },
    }
}

pub proof fn lemma_atom_bounds(t: Seq<char>, i: int)
    requires
        0 <= i <= t.len(),
    ensures
        spec_atom(t, i) matches Some(p) ==> i < p.1 <= t.len(),
{
    if i < t.len() && t[i] == '"' {
        lemma_scan_to_quote_bounds(t, i + 1);
    } else if i < t.len() && is_ident_start(t[i]) {
        lemma_scan_ident_bounds(t, i + 1);
    }
}

pub proof fn lemma_seq_atoms_bounds(t: Seq<char>, i: int)
    requires
        0 <= i <= t.len(),
    ensures
        i <= spec_seq_atoms(t, i).1 <= t.len(),
    decreases t.len() - i,
{
    let j = spec_skip_ws(t, i);
    lemma_skip_ws_bounds(t, i);
    lemma_atom_bounds(t, j);
    match spec_atom(t, j) {
        Some(p) => {
            lemma_seq_atoms_bounds(t, p.1);
        },
        None => {},
    }
}

pub proof fn lemma_alt_tail_bounds(t: Seq<char>, i: int)
    requires
        0 <= i <= t.len(),
    ensures
        i <= spec_alt_tail(t, i).1 <= t.len(),
    decreases t.len() - i,
{
    let j = spec_skip_ws(t, i);
    lemma_skip_ws_bounds(t, i);
    if j < t.len() && t[j] == '|' {
        let k = spec_skip_ws(t, j + 1);
        lemma_skip_ws_bounds(t, j + 1);
        let sq = spec_seq_atoms(t, k);
        lemma_seq_atoms_bounds(t, k);
        lemma_alt_tail_bounds(t, sq.1);
    }
}

pub proof fn lemma_alts_bounds(t: Seq<char>, i: int)
    requires
        0 <= i <= t.len(),
    ensures
        i <= spec_alts(t, i).1 <= t.len(),
{
    let j = spec_skip_ws(t, i);
    lemma_skip_ws_bounds(t, i);
    lemma_seq_atoms_bounds(t, j);
    lemma_alt_tail_bounds(t, spec_seq_atoms(t, j).1);
}

pub proof fn lemma_rule_def_bounds(t: Seq<char>, i: int)
    requires
        0 <= i <= t.len(),
    ensures
        spec_rule_def(t, i) matches DefOut::DefOk { end, .. } ==> i < end <= t.len(),
        spec_rule_def(t, i) matches DefOut::DefFatal { pos, .. } ==> 0 <= pos <= t.len(),
{
    match spec_ident_at(t, i) {
        None => {},
        Some(ne) => {
            lemma_scan_ident_bounds(t, i + 1);
            let j1 = spec_skip_ws(t, ne);
            lemma_skip_ws_bounds(t, ne);
            if j1 < t.len() && t[j1] == '=' {
                let j2 = spec_skip_ws(t, j1 + 1);
                lemma_skip_ws_bounds(t, j1 + 1);
                let ar = spec_alts(t, j2);
                lemma_alts_bounds(t, j2);
                let j3 = spec_skip_ws(t, ar.1);
                lemma_skip_ws_bounds(t, ar.1);
            }
        },
    }
}

pub proof fn lemma_skip_ws_bounds(t: Seq<char>, i: int)
    requires
        0 <= i <= t.len(),
    ensures
        i <= spec_skip_ws(t, i) <= t.len(),
    decreases t.len() - i,
{
    if i < t.len() && is_inline_ws(t[i]) {
        lemma_skip_ws_bounds(t, i + 1);
    }
}

pub proof fn lemma_scan_ident_bounds(t: Seq<char>, i: int)
    requires
        0 <= i <= t.len(),
    ensures
        i <= spec_scan_ident(t, i) <= t.len(),
    decreases t.len() - i,
{
    if i < t.len() && is_ident_char(t[i]) {
        lemma_scan_ident_bounds(t, i + 1);
    }
}

pub proof fn lemma_scan_to_quote_bounds(t: Seq<char>, i: int)
    requires
        0 <= i <= t.len(),
    ensures
        i <= spec_scan_to_quote(t, i) <= t.len(),
    decreases t.len() - i,
{
    if i < t.len() && t[i] != '"' {
        lemma_scan_to_quote_bounds(t, i + 1);
    }
}

} // verus!
