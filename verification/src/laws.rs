//! The laws the blackboard obeys, stated over the same spec functions its
//! operations are specified with.

use vstd::prelude::*;

use crate::board::add_eval;
use crate::board::chunk_eval;
use crate::board::chunks_fold;
use crate::board::cmp_eval;
use crate::board::cmp_known;
use crate::board::opkey_of;
use crate::board::query_eval;
use crate::board::resolve_of;
use crate::board::segment_eval;
use crate::board::set_eval;
use crate::board::sub_eval;
use crate::board::term_step;
use crate::board::terms_fold;
use crate::literal::parse_lit;
use crate::text::split3_of;
use crate::text::split_on_seq;
use crate::text::trim_of;
use crate::text::ws_tokens;
use crate::value::Diag;
use crate::value::EntryModel;
use crate::value::sat_i64;

verus! {

/// A successful `set` stores exactly the parsed literal, with no
/// diagnostic: reading the key back yields the value the literal denotes.
pub proof fn lemma_set_round_trip(m: Map<Seq<char>, EntryModel>, key: Seq<char>, lit: Seq<char>)
    requires
        !(parse_lit(lit) is Nil),
    ensures
        set_eval(m, key, lit).0.contains_key(key),
        set_eval(m, key, lit).0[key] == parse_lit(lit),
        set_eval(m, key, lit).1 == Seq::<Diag>::empty(),
{
}

/// `add` on a key that is not in the store is a no-op on the store and
/// records exactly one diagnostic.
pub proof fn lemma_add_undefined_no_op(m: Map<Seq<char>, EntryModel>, key: Seq<char>, lit: Seq<char>)
    requires
        !m.contains_key(key),
    ensures
        add_eval(m, key, lit).0 == m,
        add_eval(m, key, lit).1 == seq![Diag::UndefinedKey],
{
}

/// `sub` on a key that is not in the store is a no-op on the store and
/// records exactly one diagnostic.
pub proof fn lemma_sub_undefined_no_op(m: Map<Seq<char>, EntryModel>, key: Seq<char>, lit: Seq<char>)
    requires
        !m.contains_key(key),
    ensures
        sub_eval(m, key, lit).0 == m,
        sub_eval(m, key, lit).1 == seq![Diag::UndefinedKey],
{
}

/// `add` of a numeric literal to a stored number sums the hundredths
/// counts, saturating at the 64-bit bounds.
pub proof fn lemma_add_numbers(
    m: Map<Seq<char>, EntryModel>,
    key: Seq<char>,
    lit: Seq<char>,
    h: int,
    h2: int,
)
    requires
        m.contains_key(key),
        m[key] == EntryModel::Number(h),
        parse_lit(lit) == EntryModel::Number(h2),
    ensures
        add_eval(m, key, lit).0.contains_key(key),
        add_eval(m, key, lit).0[key] == EntryModel::Number(sat_i64(h + h2)),
        add_eval(m, key, lit).1 == Seq::<Diag>::empty(),
{
}

/// `sub` of a text literal from a stored number corrupts the entry: the
/// sentinel is stored as-is, and no diagnostic is recorded.
pub proof fn lemma_sub_text_corrupts(m: Map<Seq<char>, EntryModel>, key: Seq<char>, lit: Seq<char>)
    requires
        m.contains_key(key),
        m[key] is Number,
        parse_lit(lit) is Text,
    ensures
        sub_eval(m, key, lit).0.contains_key(key),
        sub_eval(m, key, lit).0[key] == EntryModel::Nil,
        sub_eval(m, key, lit).1 == Seq::<Diag>::empty(),
{
}

/// A non-empty action segment with the wrong token count is skipped: the
/// store is unchanged and exactly one diagnostic is recorded, so the
/// segments after it run over the same store.
pub proof fn lemma_malformed_segment_skipped(m: Map<Seq<char>, EntryModel>, raw: Seq<char>)
    requires
        trim_of(raw).len() > 0,
        split3_of(trim_of(raw)).len() != 3,
    ensures
        segment_eval(m, raw).0 == m,
        segment_eval(m, raw).1 == seq![Diag::MalformedSegment],
{
}

/// What one query term is worth on its own: well-formed, with a recognized
/// operator, and a true comparison of the two operands' keys.
pub open spec fn term_value(m: Map<Seq<char>, EntryModel>, term: Seq<char>) -> bool {
    let toks = ws_tokens(term);
    toks.len() == 3 && cmp_known(toks[1]) && cmp_eval(
        toks[1],
        opkey_of(m, toks[0]),
        opkey_of(m, toks[2]),
    )
}

proof fn lemma_terms_fold_value(m: Map<Seq<char>, EntryModel>, terms: Seq<Seq<char>>, acc: bool)
    ensures
        terms_fold(m, terms, acc).0 == (acc || exists|i: int|
            0 <= i < terms.len() && term_value(m, terms[i])),
    decreases terms.len(),
{
    if terms.len() > 0 {
        let stepped = term_step(m, terms[0], acc);
        lemma_terms_fold_value(m, terms.skip(1), stepped.0);
        assert(stepped.0 == (acc || term_value(m, terms[0])));
        if terms_fold(m, terms, acc).0 && !acc {
            if term_value(m, terms[0]) {
                assert(0 <= 0 < terms.len() && term_value(m, terms[0]));
            } else {
                let i = choose|i: int|
                    0 <= i < terms.skip(1).len() && term_value(m, terms.skip(1)[i]);
                assert(terms.skip(1)[i] == terms[i + 1]);
                assert(0 <= i + 1 < terms.len() && term_value(m, terms[i + 1]));
            }
        }
        if !terms_fold(m, terms, acc).0 {
            assert forall|i: int| 0 <= i < terms.len() implies !term_value(m, terms[i]) by {
                if i > 0 {
                    assert(terms.skip(1)[i - 1] == terms[i]);
                }
            }
        }
    }
}

/// A chunk is true exactly when one of its `or`-separated terms holds: the
/// disjunction, with malformed terms and unrecognized operators counting
/// false.
pub proof fn lemma_chunk_disjunction(m: Map<Seq<char>, EntryModel>, chunk: Seq<char>)
    ensures
        chunk_eval(m, chunk).0 == exists|i: int|
            0 <= i < split_on_seq(chunk, "or"@).len() && term_value(
                m,
                split_on_seq(chunk, "or"@)[i],
            ),
{
    lemma_terms_fold_value(m, split_on_seq(chunk, "or"@), false);
}

proof fn lemma_chunks_fold_value(m: Map<Seq<char>, EntryModel>, chunks: Seq<Seq<char>>)
    ensures
        chunks_fold(m, chunks).0 == (forall|i: int|
            0 <= i < chunks.len() ==> chunk_eval(m, chunks[i]).0),
    decreases chunks.len(),
{
    if chunks.len() > 0 {
        lemma_chunks_fold_value(m, chunks.skip(1));
        if chunks_fold(m, chunks).0 {
            assert forall|i: int| 0 <= i < chunks.len() implies chunk_eval(m, chunks[i]).0 by {
                if i > 0 {
                    assert(chunks.skip(1)[i - 1] == chunks[i]);
                }
            }
        } else {
            if chunk_eval(m, chunks[0]).0 {
                let i = choose|i: int|
                    0 <= i < chunks.skip(1).len() && !chunk_eval(m, chunks.skip(1)[i]).0;
                assert(chunks.skip(1)[i] == chunks[i + 1]);
                assert(!chunk_eval(m, chunks[i + 1]).0);
            } else {
                assert(!chunk_eval(m, chunks[0]).0);
            }
        }
    }
}

/// A query is true exactly when every one of its `and`-separated chunks is.
pub proof fn lemma_query_conjunction(m: Map<Seq<char>, EntryModel>, code: Seq<char>)
    ensures
        query_eval(m, code).0 == (forall|i: int|
            0 <= i < split_on_seq(code, "and"@).len() ==> chunk_eval(
                m,
                split_on_seq(code, "and"@)[i],
            ).0),
{
    lemma_chunks_fold_value(m, split_on_seq(code, "and"@));
}

/// Evaluation stops at the first false chunk: the query is false, and the
/// chunks after it are neither evaluated nor diagnosed.
pub proof fn lemma_query_short_circuit(m: Map<Seq<char>, EntryModel>, code: Seq<char>)
    requires
        split_on_seq(code, "and"@).len() > 0,
        !chunk_eval(m, split_on_seq(code, "and"@)[0]).0,
    ensures
        !query_eval(m, code).0,
        query_eval(m, code).1 == chunk_eval(m, split_on_seq(code, "and"@)[0]).1,
{
}

/// Two operands that resolve to the same value always compare equal under
/// `==`; in particular two identical text values do, whatever their hash.
/// The converse is not claimed: distinct texts may share a hash.
pub proof fn lemma_equal_values_compare_equal(
    m: Map<Seq<char>, EntryModel>,
    a: Seq<char>,
    b: Seq<char>,
)
    requires
        resolve_of(m, a) == resolve_of(m, b),
    ensures
        cmp_eval("=="@, opkey_of(m, a), opkey_of(m, b)),
{
}

} // verus!
