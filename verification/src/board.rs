//! The blackboard itself: a store of named values, the action interpreter
//! (`set`, `add`, `sub` on semicolon-separated segments) and the query
//! evaluator (`and`-combined chunks of `or`-combined comparisons).
//!
//! Every operation's effect is stated against a mathematical model: the
//! store as a map from names to value models, and the diagnostics as the
//! sequence of entries the operation appends.

use vstd::prelude::*;
use vstd::pervasive::VecAdditionalExecFns;
use vstd::string::StrSliceExecFns;
use vstd::string::StringExecFns;

use crate::literal::parse_lit;
use crate::literal::parse_literal_str;
use crate::text::has_quote;
use crate::text::contains_quote;
use crate::text::split3_of;
use crate::text::split3_str;
use crate::text::split_on_seq;
use crate::text::split_str;
use crate::text::split_whitespace_str;
use crate::text::str_eq;
use crate::text::trim_of;
use crate::text::trim_str;
use crate::text::views_of;
use crate::text::ws_tokens;
use crate::value::Diag;
use crate::value::Entry;
use crate::value::EntryModel;
use crate::value::key_of;
use crate::value::render_of;
use crate::value::sat_i64;

verus! {

/// The map an association list denotes; later entries would win, though a
/// well-formed blackboard never repeats a key.
pub open spec fn list_map(items: Seq<(Seq<char>, EntryModel)>) -> Map<Seq<char>, EntryModel>
    decreases items.len(),
{
    if items.len() == 0 {
        Map::<Seq<char>, EntryModel>::empty()
    } else {
        list_map(items.drop_last()).insert(items.last().0, items.last().1)
    }
}

proof fn lemma_list_map_contains(items: Seq<(Seq<char>, EntryModel)>, k: Seq<char>)
    ensures
        list_map(items).contains_key(k) <==> exists|i: int|
            0 <= i < items.len() && items[i].0 == k,
    decreases items.len(),
{
    if items.len() > 0 {
        lemma_list_map_contains(items.drop_last(), k);
        if items.last().0 == k {
            assert(items[items.len() - 1].0 == k);
        } else if list_map(items).contains_key(k) {
            let i = choose|i: int| 0 <= i < items.drop_last().len() && items.drop_last()[i].0 == k;
            assert(items[i].0 == k);
        } else {
            assert forall|i: int| 0 <= i < items.len() implies items[i].0 != k by {
                if i < items.len() - 1 {
                    assert(items.drop_last()[i].0 == items[i].0);
                }
            }
        }
    }
}

proof fn lemma_list_map_get(items: Seq<(Seq<char>, EntryModel)>, k: Seq<char>, i: int)
    requires
        0 <= i < items.len(),
        items[i].0 == k,
        forall|j: int| i < j < items.len() ==> items[j].0 != k,
    ensures
        list_map(items).contains_key(k),
        list_map(items)[k] == items[i].1,
    decreases items.len(),
{
    if i < items.len() - 1 {
        assert(items.drop_last()[i].0 == k);
        assert forall|j: int| i < j < items.drop_last().len() implies items.drop_last()[j].0 != k
            by {
            assert(items.drop_last()[j].0 == items[j].0);
        }
        lemma_list_map_get(items.drop_last(), k, i);
        assert(items.last().0 != k);
    }
}

proof fn lemma_list_map_update(items: Seq<(Seq<char>, EntryModel)>, i: int, v: EntryModel)
    requires
        0 <= i < items.len(),
        forall|p: int, q: int| 0 <= p < q < items.len() ==> items[p].0 != items[q].0,
    ensures
        list_map(items.update(i, (items[i].0, v))) == list_map(items).insert(items[i].0, v),
    decreases items.len(),
{
    let k = items[i].0;
    let upd = items.update(i, (k, v));
    if i == items.len() - 1 {
        assert(upd.drop_last() =~= items.drop_last());
        assert(upd.last() == (k, v));
        assert(list_map(upd) == list_map(items.drop_last()).insert(k, v));
        assert(list_map(items.drop_last()).insert(k, items.last().1).insert(k, v)
            =~= list_map(items.drop_last()).insert(k, v));
    } else {
        assert(upd.drop_last() =~= items.drop_last().update(i, (k, v)));
        assert(items.drop_last()[i] == items[i]);
        lemma_list_map_update(items.drop_last(), i, v);
        let kl = items.last().0;
        let vl = items.last().1;
        assert(upd.last() == items.last());
        assert(kl != k);
        assert(list_map(upd) == list_map(items.drop_last()).insert(k, v).insert(kl, vl));
        assert(list_map(items.drop_last()).insert(k, v).insert(kl, vl) =~= list_map(
            items.drop_last(),
        ).insert(kl, vl).insert(k, v));
    }
}

/// What an operand denotes: the stored value when the text names a key, the
/// literal it parses to otherwise.
pub open spec fn resolve_of(m: Map<Seq<char>, EntryModel>, t: Seq<char>) -> EntryModel {
    if m.contains_key(t) {
        m[t]
    } else {
        parse_lit(t)
    }
}

/// The comparison key an operand resolves to.
pub open spec fn opkey_of(m: Map<Seq<char>, EntryModel>, t: Seq<char>) -> int {
    key_of(resolve_of(m, t))
}

/// Whether `op` is a recognized comparison operator.
pub open spec fn cmp_known(op: Seq<char>) -> bool {
    op == "=="@ || op == "!="@ || op == ">="@ || op == "<="@ || op == ">"@ || op == "<"@
}

/// The truth of a recognized comparison between two keys.
pub open spec fn cmp_eval(op: Seq<char>, a: int, b: int) -> bool {
    if op == "=="@ {
        a == b
    } else if op == "!="@ {
        a != b
    } else if op == ">="@ {
        a >= b
    } else if op == "<="@ {
        a <= b
    } else if op == ">"@ {
        a > b
    } else {
        a < b
    }
}

/// One query term folded into a disjunction that already stands at `acc`:
/// a malformed term leaves `acc` and diagnostics behind; once `acc` is true
/// the term is not evaluated and an unrecognized operator goes unreported.
pub open spec fn term_step(m: Map<Seq<char>, EntryModel>, term: Seq<char>, acc: bool) -> (
    bool,
    Seq<Diag>,
) {
    let toks = ws_tokens(term);
    if toks.len() != 3 {
        (
            acc,
            (if has_quote(term) {
                seq![Diag::QuoteInTerm]
            } else {
                Seq::<Diag>::empty()
            }) + seq![Diag::MalformedSegment],
        )
    } else if acc {
        (true, Seq::<Diag>::empty())
    } else if !cmp_known(toks[1]) {
        (false, seq![Diag::UnknownOperator])
    } else {
        (cmp_eval(toks[1], opkey_of(m, toks[0]), opkey_of(m, toks[2])), Seq::<Diag>::empty())
    }
}

/// A disjunction of terms folded left to right from `acc`.
pub open spec fn terms_fold(
    m: Map<Seq<char>, EntryModel>,
    terms: Seq<Seq<char>>,
    acc: bool,
) -> (bool, Seq<Diag>)
    decreases terms.len(),
{
    if terms.len() == 0 {
        (acc, Seq::<Diag>::empty())
    } else {
        let stepped = term_step(m, terms[0], acc);
        let rest = terms_fold(m, terms.skip(1), stepped.0);
        (rest.0, stepped.1 + rest.1)
    }
}

/// One conjunction chunk: its terms, split on `or`, folded as a disjunction.
pub open spec fn chunk_eval(m: Map<Seq<char>, EntryModel>, chunk: Seq<char>) -> (bool, Seq<Diag>) {
    terms_fold(m, split_on_seq(chunk, "or"@), false)
}

/// A conjunction of chunks, stopping at the first false chunk: later chunks
/// are neither evaluated nor diagnosed.
pub open spec fn chunks_fold(m: Map<Seq<char>, EntryModel>, chunks: Seq<Seq<char>>) -> (
    bool,
    Seq<Diag>,
)
    decreases chunks.len(),
{
    if chunks.len() == 0 {
        (true, Seq::<Diag>::empty())
    } else {
        let head = chunk_eval(m, chunks[0]);
        if !head.0 {
            (false, head.1)
        } else {
            let rest = chunks_fold(m, chunks.skip(1));
            (rest.0, head.1 + rest.1)
        }
    }
}

/// What a whole query evaluates to over store `m`, and the diagnostics it
/// leaves: the conjunction over chunks split on the substring `and`.
pub open spec fn query_eval(m: Map<Seq<char>, EntryModel>, code: Seq<char>) -> (bool, Seq<Diag>) {
    chunks_fold(m, split_on_seq(code, "and"@))
}

/// What `set` does: a parsable literal is stored under the key, anything
/// else is rejected and leaves the store unchanged.
pub open spec fn set_eval(m: Map<Seq<char>, EntryModel>, k: Seq<char>, lit: Seq<char>) -> (
    Map<Seq<char>, EntryModel>,
    Seq<Diag>,
) {
    let e = parse_lit(lit);
    if e is Nil {
        (m, seq![Diag::UnparsableLiteral])
    } else {
        (m.insert(k, e), Seq::<Diag>::empty())
    }
}

/// How `add` combines a stored value with a parsed literal: numbers add
/// (truth values count 1), text concatenates the right operand's rendering,
/// and every other pairing corrupts the entry to `Nil`.
pub open spec fn add_combined(prev: EntryModel, e: EntryModel) -> EntryModel {
    match prev {
        EntryModel::Number(h) => match e {
            EntryModel::Number(h2) => EntryModel::Number(sat_i64(h + h2)),
            EntryModel::Text(_) => EntryModel::Nil,
            EntryModel::Boolean(b) => EntryModel::Number(
                sat_i64(
                    h + if b {
                        100int
                    } else {
                        0int
                    },
                ),
            ),
            EntryModel::Nil => EntryModel::Number(h),
        },
        EntryModel::Text(s) => match e {
            EntryModel::Nil => EntryModel::Text(s),
            _ => EntryModel::Text(s + render_of(e)),
        },
        _ => EntryModel::Nil,
    }
}

/// How `sub` combines a stored value with a parsed literal: only numbers
/// minus numbers or truth values are defined, everything else corrupts the
/// entry to `Nil`.
pub open spec fn sub_combined(prev: EntryModel, e: EntryModel) -> EntryModel {
    match prev {
        EntryModel::Number(h) => match e {
            EntryModel::Number(h2) => EntryModel::Number(sat_i64(h - h2)),
            EntryModel::Text(_) => EntryModel::Nil,
            EntryModel::Boolean(b) => EntryModel::Number(
                sat_i64(
                    h - if b {
                        100int
                    } else {
                        0int
                    },
                ),
            ),
            EntryModel::Nil => EntryModel::Number(h),
        },
        _ => EntryModel::Nil,
    }
}

/// What `add` does: an absent key or an unparsable literal is rejected with
/// a diagnostic; otherwise the combined value is stored, even when the
/// combination corrupts the entry to `Nil`.
pub open spec fn add_eval(m: Map<Seq<char>, EntryModel>, k: Seq<char>, lit: Seq<char>) -> (
    Map<Seq<char>, EntryModel>,
    Seq<Diag>,
) {
    if !m.contains_key(k) {
        (m, seq![Diag::UndefinedKey])
    } else {
        let e = parse_lit(lit);
        if e is Nil {
            (m, seq![Diag::UnparsableLiteral])
        } else {
            (m.insert(k, add_combined(m[k], e)), Seq::<Diag>::empty())
        }
    }
}

/// What `sub` does, exactly as `add` but with the subtractive combination.
pub open spec fn sub_eval(m: Map<Seq<char>, EntryModel>, k: Seq<char>, lit: Seq<char>) -> (
    Map<Seq<char>, EntryModel>,
    Seq<Diag>,
) {
    if !m.contains_key(k) {
        (m, seq![Diag::UndefinedKey])
    } else {
        let e = parse_lit(lit);
        if e is Nil {
            (m, seq![Diag::UnparsableLiteral])
        } else {
            (m.insert(k, sub_combined(m[k], e)), Seq::<Diag>::empty())
        }
    }
}

/// What one action segment does: an empty trimmed segment is skipped
/// silently; then the segment splits at its first two whitespace runs into
/// command, key and literal, and a wrong token count or an unknown command
/// is skipped with a diagnostic.
pub open spec fn segment_eval(m: Map<Seq<char>, EntryModel>, raw: Seq<char>) -> (
    Map<Seq<char>, EntryModel>,
    Seq<Diag>,
) {
    let t = trim_of(raw);
    if t.len() == 0 {
        (m, Seq::<Diag>::empty())
    } else {
        let toks = split3_of(t);
        if toks.len() != 3 {
            (m, seq![Diag::MalformedSegment])
        } else if toks[0] == "set"@ {
            set_eval(m, toks[1], toks[2])
        } else if toks[0] == "add"@ {
            add_eval(m, toks[1], toks[2])
        } else if toks[0] == "sub"@ {
            sub_eval(m, toks[1], toks[2])
        } else {
            (m, seq![Diag::UnknownCommand])
        }
    }
}

/// A run of action segments, each over the store the previous one left.
pub open spec fn segments_eval(m: Map<Seq<char>, EntryModel>, segs: Seq<Seq<char>>) -> (
    Map<Seq<char>, EntryModel>,
    Seq<Diag>,
)
    decreases segs.len(),
{
    if segs.len() == 0 {
        (m, Seq::<Diag>::empty())
    } else {
        let head = segment_eval(m, segs[0]);
        let rest = segments_eval(head.0, segs.skip(1));
        (rest.0, head.1 + rest.1)
    }
}

/// What a whole action string does: its semicolon-separated segments, run
/// left to right.
pub open spec fn actions_eval(m: Map<Seq<char>, EntryModel>, code: Seq<char>) -> (
    Map<Seq<char>, EntryModel>,
    Seq<Diag>,
) {
    segments_eval(m, split_on_seq(code, ";"@))
}

/// What retrieving a key yields: the stored value, or the `Nil` sentinel
/// together with a lookup-miss diagnostic when the key is absent.  A miss
/// is never an abort.
pub open spec fn retrieve_eval(m: Map<Seq<char>, EntryModel>, k: Seq<char>) -> (
    EntryModel,
    Seq<Diag>,
) {
    if m.contains_key(k) {
        (m[k], Seq::<Diag>::empty())
    } else {
        (EntryModel::Nil, seq![Diag::LookupMiss])
    }
}

/// The rows of the debug rendering: one `name = value, ` piece per entry,
/// each followed by a line break, in insertion order.
pub open spec fn rows_render(items: Seq<(Seq<char>, EntryModel)>) -> Seq<char>
    decreases items.len(),
{
    if items.len() == 0 {
        Seq::<char>::empty()
    } else {
        rows_render(items.drop_last()) + items.last().0 + " = "@ + render_of(items.last().1)
            + ", "@ + "\n"@
    }
}

/// The in-memory store of named values, with the diagnostics its operations
/// have left behind.
#[derive(Debug)]
pub struct Blackboard {
    entries: Vec<(String, Entry)>,
    diags: Vec<Diag>,
}

impl Blackboard {
    /// The entries, in insertion order, as pairs of name and value model.
    pub closed spec fn items(&self) -> Seq<(Seq<char>, EntryModel)> {
        self.entries@.map_values(|p: (String, Entry)| (p.0@, p.1@))
    }

    /// The store as a map from names to value models.
    pub closed spec fn store(&self) -> Map<Seq<char>, EntryModel> {
        list_map(self.items())
    }

    /// The diagnostics recorded so far, oldest first.
    pub closed spec fn log(&self) -> Seq<Diag> {
        self.diags@
    }

    /// Well-formed: no name occurs twice.
    pub closed spec fn wf(&self) -> bool {
        forall|i: int, j: int|
            0 <= i < j < self.items().len() ==> self.items()[i].0 != self.items()[j].0
    }

    /// An empty blackboard.
    pub fn new() -> (b: Blackboard)
        ensures
            b.wf(),
            b.store() == Map::<Seq<char>, EntryModel>::empty(),
            b.log() == Seq::<Diag>::empty(),
    {
        Blackboard { entries: Vec::new(), diags: Vec::new() }
    }

    /// The position of `key` among the entries, or nothing.
    fn find_index(&self, key: &str) -> (r: Option<usize>)
        ensures
            match r {
                Some(idx) => idx < self.items().len() && self.items()[idx as int].0 == key@,
                None => forall|i: int| 0 <= i < self.items().len() ==> self.items()[i].0 != key@,
            },
    {
        let mut i: usize = 0;
        while i < self.entries.len()
            invariant
                i <= self.entries@.len(),
                self.items().len() == self.entries@.len(),
                forall|k: int| 0 <= k < i ==> self.items()[k].0 != key@,
            decreases self.entries@.len() - i,
        {
            if str_eq(self.entries[i].0.as_str(), key) {
                return Some(i);
            }
            i = i + 1;
        }
        None
    }

    /// Stores `value` under `key`, overwriting any previous value.
    fn put(&mut self, key: &str, value: Entry)
        requires
            old(self).wf(),
        ensures
            final(self).wf(),
            final(self).store() == old(self).store().insert(key@, value@),
            final(self).log() == old(self).log(),
    {
        let ghost prev = self.items();
        match self.find_index(key) {
            Some(i) => {
                let pair = (String::from_str(key), value);
                self.entries.set(i, pair);
                proof {
                    assert(self.items() =~= prev.update(i as int, (key@, value@)));
                    assert(prev.update(i as int, (key@, value@)) =~= prev.update(
                        i as int,
                        (prev[i as int].0, value@),
                    ));
                    lemma_list_map_update(prev, i as int, value@);
                }
            },
            None => {
                self.entries.push((String::from_str(key), value));
                proof {
                    assert(self.items() =~= prev.push((key@, value@)));
                    assert(self.items().drop_last() =~= prev);
                    assert forall|p: int, q: int|
                        0 <= p < q < self.items().len() implies self.items()[p].0
                        != self.items()[q].0 by {
                        if q < self.items().len() - 1 {
                            assert(prev[p].0 != prev[q].0);
                        } else {
                            assert(prev[p].0 != key@);
                        }
                    }
                }
            },
        }
    }

    /// Records one diagnostic.
    fn note(&mut self, d: Diag)
        ensures
            final(self).items() == old(self).items(),
            final(self).store() == old(self).store(),
            final(self).wf() == old(self).wf(),
            final(self).log() == old(self).log() + seq![d],
    {
        self.diags.push(d);
        proof {
            assert(self.diags@ =~= old(self).diags@ + seq![d]);
        }
    }

    /// The stored value under `key`; a key that is not in the store yields
    /// `Nil` and records a lookup-miss diagnostic.
    pub fn get_raw_value(&mut self, key: &str) -> (e: Entry)
        requires
            old(self).wf(),
        ensures
            final(self).wf(),
            final(self).items() == old(self).items(),
            final(self).store() == old(self).store(),
            e@ == retrieve_eval(old(self).store(), key@).0,
            final(self).log() == old(self).log() + retrieve_eval(old(self).store(), key@).1,
    {
        match self.find_index(key) {
            Some(i) => {
                proof {
                    lemma_list_map_get(self.items(), key@, i as int);
                    assert(self.log() =~= self.log() + Seq::<Diag>::empty());
                }
                self.entries[i].1.duplicate()
            },
            None => {
                proof {
                    lemma_list_map_contains(self.items(), key@);
                }
                self.note(Diag::LookupMiss);
                Entry::Nil
            },
        }
    }

    /// The rendering of the stored value under `key`; a key that is not in
    /// the store renders as the sentinel does, `nil`, and records a
    /// lookup-miss diagnostic.
    pub fn get_display_value(&mut self, key: &str) -> (s: String)
        requires
            old(self).wf(),
        ensures
            final(self).wf(),
            final(self).items() == old(self).items(),
            final(self).store() == old(self).store(),
            s@ == render_of(retrieve_eval(old(self).store(), key@).0),
            final(self).log() == old(self).log() + retrieve_eval(old(self).store(), key@).1,
    {
        let e = self.get_raw_value(key);
        e.display_string()
    }

    /// The comparison key `operand` resolves to: the stored value's when the
    /// text names a key, the parsed literal's otherwise.
    pub fn operand_key(&self, operand: &str) -> (k: i32)
        requires
            self.wf(),
        ensures
            k as int == opkey_of(self.store(), operand@),
    {
        match self.find_index(operand) {
            Some(i) => {
                proof {
                    lemma_list_map_get(self.items(), operand@, i as int);
                }
                self.entries[i].1.comparison_key()
            },
            None => {
                proof {
                    lemma_list_map_contains(self.items(), operand@);
                }
                let e = parse_literal_str(operand);
                e.comparison_key()
            },
        }
    }

    /// Parses `value` as a literal and stores it under `key`; an unparsable
    /// literal is rejected and the store is left unchanged.
    pub fn set(&mut self, key: &str, value: &str)
        requires
            old(self).wf(),
        ensures
            final(self).wf(),
            final(self).store() == set_eval(old(self).store(), key@, value@).0,
            final(self).log() == old(self).log() + set_eval(old(self).store(), key@, value@).1,
    {
        let e = parse_literal_str(value);
        match e {
            Entry::Nil => {
                self.note(Diag::UnparsableLiteral);
            },
            _ => {
                self.put(key, e);
                proof {
                    assert(final(self).log() =~= old(self).log() + Seq::<Diag>::empty());
                }
            },
        }
    }

    /// Combines the value stored under `key` with the parsed literal by
    /// addition; an absent key or an unparsable literal is rejected, and an
    /// invalid combination corrupts the entry to `Nil`.
    pub fn add(&mut self, key: &str, value: &str)
        requires
            old(self).wf(),
        ensures
            final(self).wf(),
            final(self).store() == add_eval(old(self).store(), key@, value@).0,
            final(self).log() == old(self).log() + add_eval(old(self).store(), key@, value@).1,
    {
        match self.find_index(key) {
            None => {
                proof {
                    lemma_list_map_contains(self.items(), key@);
                }
                self.note(Diag::UndefinedKey);
            },
            Some(i) => {
                proof {
                    lemma_list_map_get(self.items(), key@, i as int);
                }
                let e = parse_literal_str(value);
                match e {
                    Entry::Nil => {
                        self.note(Diag::UnparsableLiteral);
                    },
                    _ => {
                        let combined = combine_add(&self.entries[i].1, &e);
                        self.put(key, combined);
                        proof {
                            assert(final(self).log() =~= old(self).log() + Seq::<Diag>::empty());
                        }
                    },
                }
            },
        }
    }

    /// Combines the value stored under `key` with the parsed literal by
    /// subtraction; an absent key or an unparsable literal is rejected, and
    /// an invalid combination corrupts the entry to `Nil`.
    pub fn sub(&mut self, key: &str, value: &str)
        requires
            old(self).wf(),
        ensures
            final(self).wf(),
            final(self).store() == sub_eval(old(self).store(), key@, value@).0,
            final(self).log() == old(self).log() + sub_eval(old(self).store(), key@, value@).1,
    {
        match self.find_index(key) {
            None => {
                proof {
                    lemma_list_map_contains(self.items(), key@);
                }
                self.note(Diag::UndefinedKey);
            },
            Some(i) => {
                proof {
                    lemma_list_map_get(self.items(), key@, i as int);
                }
                let e = parse_literal_str(value);
                match e {
                    Entry::Nil => {
                        self.note(Diag::UnparsableLiteral);
                    },
                    _ => {
                        let combined = combine_sub(&self.entries[i].1, &e);
                        self.put(key, combined);
                        proof {
                            assert(final(self).log() =~= old(self).log() + Seq::<Diag>::empty());
                        }
                    },
                }
            },
        }
    }

    /// Runs one trimmed action segment: empty is skipped silently, a wrong
    /// token count or an unknown command leaves a diagnostic, and otherwise
    /// the command is dispatched on the key and literal tokens.
    fn apply_segment(&mut self, seg: &str)
        requires
            old(self).wf(),
        ensures
            final(self).wf(),
            final(self).store() == segment_eval(old(self).store(), seg@).0,
            final(self).log() == old(self).log() + segment_eval(old(self).store(), seg@).1,
    {
        let t = trim_str(seg);
        if t.unicode_len() == 0 {
            proof {
                assert(self.log() =~= self.log() + Seq::<Diag>::empty());
            }
            return ;
        }
        let toks = split3_str(t);
        proof {
            assert(views_of(toks@).len() == toks@.len());
        }
        if toks.len() != 3 {
            self.note(Diag::MalformedSegment);
            return ;
        }
        proof {
            assert(views_of(toks@)[0] == toks@[0]@);
            assert(views_of(toks@)[1] == toks@[1]@);
            assert(views_of(toks@)[2] == toks@[2]@);
        }
        if str_eq(toks[0].as_str(), "set") {
            self.set(toks[1].as_str(), toks[2].as_str());
        } else if str_eq(toks[0].as_str(), "add") {
            self.add(toks[1].as_str(), toks[2].as_str());
        } else if str_eq(toks[0].as_str(), "sub") {
            self.sub(toks[1].as_str(), toks[2].as_str());
        } else {
            self.note(Diag::UnknownCommand);
        }
    }

    /// Runs a whole action string: semicolon-separated segments, each over
    /// the store the previous one left; malformed segments are skipped with
    /// a diagnostic and processing continues.
    pub fn parse_action(&mut self, code: String)
        requires
            old(self).wf(),
        ensures
            final(self).wf(),
            final(self).store() == actions_eval(old(self).store(), code@).0,
            final(self).log() == old(self).log() + actions_eval(old(self).store(), code@).1,
    {
        proof {
            reveal_strlit(";");
        }
        let segs = split_str(code.as_str(), ";");
        let ghost m0 = self.store();
        let ghost log0 = self.log();
        let ghost all = views_of(segs@);
        let n = segs.len();
        let mut i: usize = 0;
        proof {
            assert(all.skip(0) =~= all);
            assert(log0.take(log0.len() as int) =~= log0);
            assert(log0.skip(log0.len() as int) =~= Seq::<Diag>::empty());
            assert(segments_eval(m0, all).1 =~= Seq::<Diag>::empty() + segments_eval(m0, all).1);
        }
        while i < n
            invariant
                self.wf(),
                i <= n,
                n == segs@.len(),
                all == views_of(segs@),
                log0.len() <= self.log().len(),
                self.log().take(log0.len() as int) == log0,
                segments_eval(m0, all).0 == segments_eval(self.store(), all.skip(i as int)).0,
                segments_eval(m0, all).1 == self.log().skip(log0.len() as int) + segments_eval(
                    self.store(),
                    all.skip(i as int),
                ).1,
            decreases n - i,
        {
            let ghost pre_store = self.store();
            let ghost pre_log = self.log();
            self.apply_segment(segs[i].as_str());
            proof {
                let ghost head = segment_eval(pre_store, all[i as int]);
                assert(all[i as int] == segs@[i as int]@);
                assert(all.skip(i as int)[0] == all[i as int]);
                assert(all.skip(i as int).skip(1) =~= all.skip(i as int + 1));
                assert(self.log().take(log0.len() as int) =~= pre_log.take(log0.len() as int));
                assert(self.log().skip(log0.len() as int) =~= pre_log.skip(log0.len() as int)
                    + head.1);
                assert(pre_log.skip(log0.len() as int) + (head.1 + segments_eval(
                    self.store(),
                    all.skip(i as int + 1),
                ).1) =~= self.log().skip(log0.len() as int) + segments_eval(
                    self.store(),
                    all.skip(i as int + 1),
                ).1);
            }
            i = i + 1;
        }
        proof {
            assert(all.skip(n as int) =~= Seq::<Seq<char>>::empty());
            assert(self.log() =~= log0 + self.log().skip(log0.len() as int));
        }
    }

    /// Folds one query term into a disjunction that already stands at `acc`.
    fn eval_term(&mut self, term: &str, acc: bool) -> (r: bool)
        requires
            old(self).wf(),
        ensures
            final(self).wf(),
            final(self).store() == old(self).store(),
            r == term_step(old(self).store(), term@, acc).0,
            final(self).log() == old(self).log() + term_step(old(self).store(), term@, acc).1,
    {
        let toks = split_whitespace_str(term);
        proof {
            assert(views_of(toks@).len() == toks@.len());
        }
        if toks.len() != 3 {
            let ghost log0 = self.log();
            if contains_quote(term) {
                self.note(Diag::QuoteInTerm);
                self.note(Diag::MalformedSegment);
                proof {
                    assert(self.log() =~= log0 + (seq![Diag::QuoteInTerm] + seq![
                        Diag::MalformedSegment,
                    ]));
                }
            } else {
                self.note(Diag::MalformedSegment);
                proof {
                    assert(self.log() =~= log0 + (Seq::<Diag>::empty() + seq![
                        Diag::MalformedSegment,
                    ]));
                }
            }
            return acc;
        }
        proof {
            assert(views_of(toks@)[0] == toks@[0]@);
            assert(views_of(toks@)[1] == toks@[1]@);
            assert(views_of(toks@)[2] == toks@[2]@);
        }
        if acc {
            proof {
                assert(self.log() =~= self.log() + Seq::<Diag>::empty());
            }
            return true;
        }
        let op = toks[1].as_str();
        let known = str_eq(op, "==") || str_eq(op, "!=") || str_eq(op, ">=") || str_eq(op, "<=")
            || str_eq(op, ">") || str_eq(op, "<");
        if !known {
            self.note(Diag::UnknownOperator);
            return false;
        }
        let k1 = self.operand_key(toks[0].as_str());
        let k2 = self.operand_key(toks[2].as_str());
        proof {
            assert(self.log() =~= self.log() + Seq::<Diag>::empty());
        }
        if str_eq(op, "==") {
            k1 == k2
        } else if str_eq(op, "!=") {
            k1 != k2
        } else if str_eq(op, ">=") {
            k1 >= k2
        } else if str_eq(op, "<=") {
            k1 <= k2
        } else if str_eq(op, ">") {
            k1 > k2
        } else {
            k1 < k2
        }
    }

    /// Evaluates one conjunction chunk: the disjunction of its `or`-separated
    /// terms.
    fn eval_chunk(&mut self, chunk: &str) -> (r: bool)
        requires
            old(self).wf(),
        ensures
            final(self).wf(),
            final(self).store() == old(self).store(),
            r == chunk_eval(old(self).store(), chunk@).0,
            final(self).log() == old(self).log() + chunk_eval(old(self).store(), chunk@).1,
    {
        proof {
            reveal_strlit("or");
        }
        let terms = split_str(chunk, "or");
        let ghost m = self.store();
        let ghost log0 = self.log();
        let ghost all = views_of(terms@);
        let n = terms.len();
        let mut acc = false;
        let mut j: usize = 0;
        proof {
            assert(all.skip(0) =~= all);
            assert(log0.take(log0.len() as int) =~= log0);
            assert(log0.skip(log0.len() as int) =~= Seq::<Diag>::empty());
            assert(terms_fold(m, all, false).1 =~= Seq::<Diag>::empty() + terms_fold(
                m,
                all,
                false,
            ).1);
        }
        while j < n
            invariant
                self.wf(),
                self.store() == m,
                j <= n,
                n == terms@.len(),
                all == views_of(terms@),
                log0.len() <= self.log().len(),
                self.log().take(log0.len() as int) == log0,
                terms_fold(m, all, false).0 == terms_fold(m, all.skip(j as int), acc).0,
                terms_fold(m, all, false).1 == self.log().skip(log0.len() as int) + terms_fold(
                    m,
                    all.skip(j as int),
                    acc,
                ).1,
            decreases n - j,
        {
            let ghost pre_log = self.log();
            let ghost pre_acc = acc;
            acc = self.eval_term(terms[j].as_str(), acc);
            proof {
                let ghost stepped = term_step(m, all[j as int], pre_acc);
                assert(all[j as int] == terms@[j as int]@);
                assert(all.skip(j as int)[0] == all[j as int]);
                assert(all.skip(j as int).skip(1) =~= all.skip(j as int + 1));
                assert(self.log().take(log0.len() as int) =~= pre_log.take(log0.len() as int));
                assert(self.log().skip(log0.len() as int) =~= pre_log.skip(log0.len() as int)
                    + stepped.1);
                assert(pre_log.skip(log0.len() as int) + (stepped.1 + terms_fold(
                    m,
                    all.skip(j as int + 1),
                    acc,
                ).1) =~= self.log().skip(log0.len() as int) + terms_fold(
                    m,
                    all.skip(j as int + 1),
                    acc,
                ).1);
            }
            j = j + 1;
        }
        proof {
            assert(all.skip(n as int) =~= Seq::<Seq<char>>::empty());
            assert(self.log() =~= log0 + self.log().skip(log0.len() as int));
        }
        acc
    }

    /// Evaluates a whole query: the conjunction of its `and`-separated
    /// chunks, stopping at the first false chunk.  The store is never
    /// changed by a query.
    pub fn parse_query(&mut self, code: String) -> (r: bool)
        requires
            old(self).wf(),
        ensures
            final(self).wf(),
            final(self).store() == old(self).store(),
            r == query_eval(old(self).store(), code@).0,
            final(self).log() == old(self).log() + query_eval(old(self).store(), code@).1,
    {
        proof {
            reveal_strlit("and");
        }
        let chunks = split_str(code.as_str(), "and");
        let ghost m = self.store();
        let ghost log0 = self.log();
        let ghost all = views_of(chunks@);
        let n = chunks.len();
        let mut i: usize = 0;
        proof {
            assert(all.skip(0) =~= all);
            assert(log0.take(log0.len() as int) =~= log0);
            assert(log0.skip(log0.len() as int) =~= Seq::<Diag>::empty());
            assert(chunks_fold(m, all).1 =~= Seq::<Diag>::empty() + chunks_fold(m, all).1);
        }
        while i < n
            invariant
                self.wf(),
                self.store() == m,
                m == old(self).store(),
                log0 == old(self).log(),
                all == split_on_seq(code@, "and"@),
                i <= n,
                n == chunks@.len(),
                all == views_of(chunks@),
                log0.len() <= self.log().len(),
                self.log().take(log0.len() as int) == log0,
                chunks_fold(m, all).0 == chunks_fold(m, all.skip(i as int)).0,
                chunks_fold(m, all).1 == self.log().skip(log0.len() as int) + chunks_fold(
                    m,
                    all.skip(i as int),
                ).1,
            decreases n - i,
        {
            let ghost pre_log = self.log();
            let v = self.eval_chunk(chunks[i].as_str());
            proof {
                let ghost head = chunk_eval(m, all[i as int]);
                assert(all[i as int] == chunks@[i as int]@);
                assert(all.skip(i as int)[0] == all[i as int]);
                assert(all.skip(i as int).skip(1) =~= all.skip(i as int + 1));
                assert(self.log().take(log0.len() as int) =~= pre_log.take(log0.len() as int));
                assert(self.log().skip(log0.len() as int) =~= pre_log.skip(log0.len() as int)
                    + head.1);
            }
            if !v {
                proof {
                    assert(self.log() =~= log0 + self.log().skip(log0.len() as int));
                }
                return false;
            }
            proof {
                let ghost head = chunk_eval(m, all[i as int]);
                assert(pre_log.skip(log0.len() as int) + (head.1 + chunks_fold(
                    m,
                    all.skip(i as int + 1),
                ).1) =~= self.log().skip(log0.len() as int) + chunks_fold(
                    m,
                    all.skip(i as int + 1),
                ).1);
            }
            i = i + 1;
        }
        proof {
            assert(all.skip(n as int) =~= Seq::<Seq<char>>::empty());
            assert(self.log() =~= log0 + self.log().skip(log0.len() as int));
        }
        true
    }

    /// One line per entry, in insertion order, between braces.
    pub fn debug_print(&self) -> (s: String)
        ensures
            s@ == "Blackboard { "@ + rows_render(self.items()) + " }"@,
    {
        let mut s = String::from_str("Blackboard { ");
        let n = self.entries.len();
        let mut i: usize = 0;
        proof {
            assert(self.items().take(0) =~= Seq::<(Seq<char>, EntryModel)>::empty());
            assert(s@ =~= "Blackboard { "@ + rows_render(self.items().take(0)));
        }
        while i < n
            invariant
                i <= n,
                n == self.entries@.len(),
                s@ == "Blackboard { "@ + rows_render(self.items().take(i as int)),
            decreases n - i,
        {
            s.append(self.entries[i].0.as_str());
            s.append(" = ");
            let shown = self.entries[i].1.display_string();
            s.append(shown.as_str());
            s.append(", ");
            s.append("\n");
            proof {
                assert(self.items().take(i as int + 1).drop_last() =~= self.items().take(i as int));
                assert(self.items().take(i as int + 1).last() == self.items()[i as int]);
                assert(s@ =~= "Blackboard { "@ + rows_render(self.items().take(i as int + 1)));
            }
            i = i + 1;
        }
        s.append(" }");
        proof {
            assert(self.items().take(n as int) =~= self.items());
            assert(s@ =~= "Blackboard { "@ + rows_render(self.items()) + " }"@);
        }
        s
    }

    /// The diagnostics recorded so far, oldest first.
    pub fn diagnostics(&self) -> (d: &Vec<Diag>)
        ensures
            d@ == self.log(),
    {
        &self.diags
    }
}

impl Default for Blackboard {
    /// An empty blackboard.
    fn default() -> (b: Blackboard)
        ensures
            b.wf(),
            b.store() == Map::<Seq<char>, EntryModel>::empty(),
            b.log() == Seq::<Diag>::empty(),
    {
        Blackboard::new()
    }
}

/// A saturating 64-bit addition.
fn sat_add(a: i64, b: i64) -> (r: i64)
    ensures
        r as int == sat_i64(a + b),
{
    match a.checked_add(b) {
        Some(v) => v,
        None => if b >= 0 {
            i64::MAX
        } else {
            i64::MIN
        },
    }
}

/// A saturating 64-bit subtraction.
fn sat_sub(a: i64, b: i64) -> (r: i64)
    ensures
        r as int == sat_i64(a - b),
{
    match a.checked_sub(b) {
        Some(v) => v,
        None => if b >= 0 {
            i64::MIN
        } else {
            i64::MAX
        },
    }
}

/// The additive combination of a stored value and a parsed literal.
fn combine_add(prev: &Entry, e: &Entry) -> (r: Entry)
    ensures
        r@ == add_combined(prev@, e@),
{
    match prev {
        Entry::Number(h) => match e {
            Entry::Number(h2) => Entry::Number(sat_add(*h, *h2)),
            Entry::Text(_) => Entry::Nil,
            Entry::Boolean(b) => Entry::Number(
                sat_add(
                    *h,
                    if *b {
                        100
                    } else {
                        0
                    },
                ),
            ),
            Entry::Nil => Entry::Number(*h),
        },
        Entry::Text(s) => match e {
            Entry::Nil => Entry::Text(s.clone()),
            _ => {
                let mut r = s.clone();
                let shown = e.display_string();
                r.append(shown.as_str());
                Entry::Text(r)
            },
        },
        _ => Entry::Nil,
    }
}

/// The subtractive combination of a stored value and a parsed literal.
fn combine_sub(prev: &Entry, e: &Entry) -> (r: Entry)
    ensures
        r@ == sub_combined(prev@, e@),
{
    match prev {
        Entry::Number(h) => match e {
            Entry::Number(h2) => Entry::Number(sat_sub(*h, *h2)),
            Entry::Text(_) => Entry::Nil,
            Entry::Boolean(b) => Entry::Number(
                sat_sub(
                    *h,
                    if *b {
                        100
                    } else {
                        0
                    },
                ),
            ),
            Entry::Nil => Entry::Number(*h),
        },
        _ => Entry::Nil,
    }
}

} // verus!
