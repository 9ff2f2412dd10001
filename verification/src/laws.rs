//! General properties of the parse, stated and proved.

use vstd::prelude::*;

use crate::model::fold_defs;
use crate::model::is_inline_ws;
use crate::model::lemma_skip_ws_bounds;
use crate::model::spec_grammar;
use crate::model::spec_skip_ws;
use crate::model::AtomModel;
use crate::model::GrammarOut;

verus! {

/// A parsed grammar holds exactly one entry per distinct rule name:
/// a name is bound exactly when some definition bears it.
pub proof fn lemma_fold_defs_names(defs: Seq<(Seq<char>, Seq<Seq<AtomModel>>)>, name: Seq<char>)
    ensures
        fold_defs(defs).contains_key(name) <==> exists|k: int|
            0 <= k < defs.len() && (#[trigger] defs[k]).0 == name,
    decreases defs.len(),
{
    if defs.len() == 0 {
    } else {
        let d = defs.drop_last();
        let x = defs.last();
        lemma_fold_defs_names(d, name);
        if fold_defs(defs).contains_key(name) {
            if name == x.0 {
                assert(defs[defs.len() - 1].0 == name);
            } else {
                let k = choose|k: int| 0 <= k < d.len() && (#[trigger] d[k]).0 == name;
                assert(defs[k].0 == name);
            }
        }
        if exists|k: int| 0 <= k < defs.len() && (#[trigger] defs[k]).0 == name {
            let k = choose|k: int| 0 <= k < defs.len() && (#[trigger] defs[k]).0 == name;
            if k == defs.len() - 1 {
                assert(fold_defs(defs).contains_key(name));
            } else {
                assert(d[k].0 == name);
                assert(fold_defs(d).contains_key(name));
            }
        }
    }
}

/// The last definition of a name wins: if the definition at `k` bears
/// a name no later definition bears, the grammar maps that name to the
/// rule defined at `k`.
pub proof fn lemma_fold_defs_last_wins(defs: Seq<(Seq<char>, Seq<Seq<AtomModel>>)>, k: int)
    requires
        0 <= k < defs.len(),
        forall|j: int| k < j < defs.len() ==> (#[trigger] defs[j]).0 != defs[k].0,
    ensures
        fold_defs(defs).contains_key(defs[k].0),
        fold_defs(defs)[defs[k].0] == defs[k].1,
    decreases defs.len(),
{
    let d = defs.drop_last();
    let x = defs.last();
    if k == defs.len() - 1 {
    } else {
        assert(defs[defs.len() - 1].0 != defs[k].0);
        assert(d[k] == defs[k]);
        assert forall|j: int| k < j < d.len() implies (#[trigger] d[j]).0 != d[k].0 by {
            assert(d[j] == defs[j]);
        }
        lemma_fold_defs_last_wins(d, k);
    }
}

/// A text that parses yields a grammar with exactly one entry per
/// distinct rule name: a name is bound exactly when one of the parsed
/// definitions bears it.
pub proof fn lemma_grammar_names(
    t: Seq<char>,
    m: Map<Seq<char>, Seq<Seq<AtomModel>>>,
    name: Seq<char>,
)
    requires
        spec_grammar(t) == GrammarOut::GrammarOk(m),
    ensures
        m.contains_key(name) <==> exists|k: int|
            0 <= k < crate::model::spec_parsed_defs(t).len() && (
            #[trigger] crate::model::spec_parsed_defs(t)[k]).0 == name,
{
    lemma_fold_defs_names(crate::model::spec_parsed_defs(t), name);
}

/// In a text that parses, the last definition of a name wins: if the
/// parsed definition at `k` bears a name no later definition bears, the
/// grammar maps that name to the rule defined at `k`.
pub proof fn lemma_grammar_last_wins(t: Seq<char>, m: Map<Seq<char>, Seq<Seq<AtomModel>>>, k: int)
    requires
        spec_grammar(t) == GrammarOut::GrammarOk(m),
        0 <= k < crate::model::spec_parsed_defs(t).len(),
        forall|j: int|
            k < j < crate::model::spec_parsed_defs(t).len() ==> (
            #[trigger] crate::model::spec_parsed_defs(t)[j]).0 != crate::model::spec_parsed_defs(
                t,
            )[k].0,
    ensures
        m.contains_key(crate::model::spec_parsed_defs(t)[k].0),
        m[crate::model::spec_parsed_defs(t)[k].0] == crate::model::spec_parsed_defs(t)[k].1,
{
    lemma_fold_defs_last_wins(crate::model::spec_parsed_defs(t), k);
}

/// Parsing is a function of the text alone: one text has one parse
/// outcome, so re-parsing the same text any number of times yields
/// structurally equal grammars.
pub proof fn lemma_parse_deterministic(
    t: Seq<char>,
    m1: Map<Seq<char>, Seq<Seq<AtomModel>>>,
    m2: Map<Seq<char>, Seq<Seq<AtomModel>>>,
)
    requires
        spec_grammar(t) == GrammarOut::GrammarOk(m1),
        spec_grammar(t) == GrammarOut::GrammarOk(m2),
    ensures
        m1 == m2,
{
}

/// One more non-newline whitespace character at the cursor is absorbed
/// by the skip that follows: the cursor lands in the same place.
pub proof fn lemma_skip_ws_absorbs(t: Seq<char>, i: int)
    requires
        0 <= i < t.len(),
        is_inline_ws(t[i]),
    ensures
        spec_skip_ws(t, i) == spec_skip_ws(t, i + 1),
{
}

/// Extra whitespace before the atoms of a sequence is absorbed: the
/// same atoms are parsed whether or not one more non-newline
/// whitespace character stands at the cursor.
pub proof fn lemma_seq_atoms_ws(t: Seq<char>, i: int)
    requires
        0 <= i < t.len(),
        is_inline_ws(t[i]),
    ensures
        crate::model::spec_seq_atoms(t, i).0 == crate::model::spec_seq_atoms(t, i + 1).0,
{
    lemma_skip_ws_absorbs(t, i);
    crate::model::lemma_skip_ws_bounds(t, i + 1);
    let j = spec_skip_ws(t, i);
    crate::model::lemma_atom_bounds(t, j);
}

/// Extra whitespace before an alternation is absorbed: parsing the
/// alternation one position later, past a non-newline whitespace
/// character, yields the same sequences and ends in the same place.
/// Inserting whitespace around `=` or around `|` therefore never
/// changes the parsed rule.
pub proof fn lemma_alts_ws(t: Seq<char>, i: int)
    requires
        0 <= i < t.len(),
        is_inline_ws(t[i]),
    ensures
        crate::model::spec_alts(t, i) == crate::model::spec_alts(t, i + 1),
{
    lemma_skip_ws_absorbs(t, i);
}

/// Extra whitespace before the `|`-separated tail of an alternation is
/// absorbed in the same way: the same sequences are collected.  (The
/// end position may differ: when no `|` follows, the tail consumes
/// nothing and leaves the cursor where it began.)
pub proof fn lemma_alt_tail_ws(t: Seq<char>, i: int)
    requires
        0 <= i < t.len(),
        is_inline_ws(t[i]),
    ensures
        crate::model::spec_alt_tail(t, i).0 == crate::model::spec_alt_tail(t, i + 1).0,
{
    lemma_skip_ws_absorbs(t, i);
    lemma_skip_ws_bounds(t, i + 1);
    let j = spec_skip_ws(t, i);
    if j < t.len() && t[j] == '|' {
        lemma_skip_ws_bounds(t, j + 1);
        let k = spec_skip_ws(t, j + 1);
        crate::model::lemma_seq_atoms_bounds(t, k);
    }
}

/// Skipping whitespace is idempotent: right after a skip, another skip
/// consumes nothing.
pub proof fn lemma_skip_ws_idempotent(t: Seq<char>, i: int)
    requires
        0 <= i <= t.len(),
    ensures
        spec_skip_ws(t, spec_skip_ws(t, i)) == spec_skip_ws(t, i),
    decreases t.len() - i,
{
    if i < t.len() && is_inline_ws(t[i]) {
        lemma_skip_ws_idempotent(t, i + 1);
    }
}

} // verus!
