//! Text primitives the two mini-languages are built on: whitespace trimming,
//! splitting on a separator substring, whitespace tokenizing, and the
//! three-way split that action segments use.

use vstd::prelude::*;
use vstd::string::StrSliceExecFns;
use vstd::string::StringExecFns;

verus! {

/// The whitespace characters the tokenizers recognize.
pub open spec fn is_ws(c: char) -> bool {
    c == ' ' || c == '\t' || c == '\n' || c == '\r'
}

/// The views of a sequence of owned strings.
pub open spec fn views_of(v: Seq<String>) -> Seq<Seq<char>> {
    v.map_values(|x: String| x@)
}

fn ws_char(c: char) -> (r: bool)
    ensures
        r == is_ws(c),
{
    c == ' ' || c == '\t' || c == '\n' || c == '\r'
}

/// Character-for-character string equality.
pub fn str_eq(a: &str, b: &str) -> (r: bool)
    ensures
        r == (a@ == b@),
{
    let na = a.unicode_len();
    let nb = b.unicode_len();
    if na != nb {
        return false;
    }
    let mut i: usize = 0;
    while i < na
        invariant
            i <= na,
            na == a@.len(),
            na == b@.len(),
            forall|k: int| 0 <= k < i ==> a@[k] == b@[k],
        decreases na - i,
    {
        if a.get_char(i) != b.get_char(i) {
            return false;
        }
        i = i + 1;
    }
    proof {
        assert(a@ =~= b@);
    }
    true
}

/// `s` with leading and trailing whitespace dropped.
pub open spec fn trim_of(s: Seq<char>) -> Seq<char>
    decreases s.len(),
{
    if s.len() == 0 {
        s
    } else if is_ws(s[0]) {
        trim_of(s.skip(1))
    } else if is_ws(s.last()) {
        trim_of(s.drop_last())
    } else {
        s
    }
}

proof fn lemma_trim_all_ws(s: Seq<char>)
    requires
        forall|k: int| 0 <= k < s.len() ==> is_ws(s[k]),
    ensures
        trim_of(s).len() == 0,
    decreases s.len(),
{
    if s.len() > 0 {
        assert(forall|k: int| 0 <= k < s.skip(1).len() ==> s.skip(1)[k] == s[k + 1]);
        lemma_trim_all_ws(s.skip(1));
    }
}

proof fn lemma_trim_range(s: Seq<char>, i: int, j: int)
    requires
        0 <= i <= j < s.len(),
        forall|k: int| 0 <= k < i ==> is_ws(s[k]),
        forall|k: int| j < k < s.len() ==> is_ws(s[k]),
        !is_ws(s[i]),
        !is_ws(s[j]),
    ensures
        trim_of(s) == s.subrange(i, j + 1),
    decreases s.len(),
{
    if i > 0 {
        assert(forall|k: int| 0 <= k < s.skip(1).len() ==> s.skip(1)[k] == s[k + 1]);
        lemma_trim_range(s.skip(1), i - 1, j - 1);
        assert(s.skip(1).subrange(i - 1, j) =~= s.subrange(i, j + 1));
    } else if j < s.len() - 1 {
        assert(is_ws(s.last()));
        assert(forall|k: int| 0 <= k < s.drop_last().len() ==> s.drop_last()[k] == s[k]);
        lemma_trim_range(s.drop_last(), i, j);
        assert(s.drop_last().subrange(i, j + 1) =~= s.subrange(i, j + 1));
    } else {
        assert(s.subrange(0, s.len() as int) =~= s);
    }
}

/// `s` with leading and trailing whitespace dropped.
pub fn trim_str<'a>(s: &'a str) -> (r: &'a str)
    ensures
        r@ == trim_of(s@),
{
    let n = s.unicode_len();
    let mut i: usize = 0;
    while i < n && ws_char(s.get_char(i))
        invariant
            i <= n,
            n == s@.len(),
            forall|k: int| 0 <= k < i ==> is_ws(s@[k]),
        decreases n - i,
    {
        i = i + 1;
    }
    if i == n {
        proof {
            lemma_trim_all_ws(s@);
        }
        let r = s.substring_char(0, 0);
        proof {
            assert(r@ =~= trim_of(s@));
        }
        r
    } else {
        let mut j: usize = n - 1;
        while ws_char(s.get_char(j))
            invariant
                i <= j < n,
                n == s@.len(),
                !is_ws(s@[i as int]),
                forall|k: int| j < k < n ==> is_ws(s@[k]),
        decreases j,
        {
            j = j - 1;
        }
        let r = s.substring_char(i, j + 1);
        proof {
            lemma_trim_range(s@, i as int, j as int);
        }
        r
    }
}

/// Whether `sep` occurs in `s` starting at position `i`.
pub open spec fn match_at(s: Seq<char>, sep: Seq<char>, i: int) -> bool {
    0 <= i && i + sep.len() <= s.len() && s.subrange(i, i + sep.len() as int) == sep
}

/// The position of the leftmost occurrence of `sep` in `s`, or `s.len()`
/// when there is none (or `sep` is empty).
pub open spec fn first_match(s: Seq<char>, sep: Seq<char>) -> nat
    decreases s.len(),
{
    if sep.len() == 0 || sep.len() > s.len() {
        s.len()
    } else if s.subrange(0, sep.len() as int) == sep {
        0
    } else {
        (1 + first_match(s.skip(1), sep)) as nat
    }
}

proof fn lemma_first_match(s: Seq<char>, sep: Seq<char>)
    requires
        sep.len() >= 1,
    ensures
        first_match(s, sep) <= s.len(),
        first_match(s, sep) < s.len() ==> match_at(s, sep, first_match(s, sep) as int),
        forall|k: int| 0 <= k < first_match(s, sep) ==> !match_at(s, sep, k),
    decreases s.len(),
{
    if sep.len() > s.len() {
        assert(forall|k: int| 0 <= k < s.len() ==> !match_at(s, sep, k));
    } else if s.subrange(0, sep.len() as int) == sep {
    } else {
        lemma_first_match(s.skip(1), sep);
        let fm = first_match(s, sep);
        assert(fm == 1 + first_match(s.skip(1), sep));
        assert forall|k: int| 0 <= k < fm implies !match_at(s, sep, k) by {
            if k == 0 {
                assert(!match_at(s, sep, 0));
            } else {
                assert(!match_at(s.skip(1), sep, k - 1));
                if match_at(s, sep, k) {
                    assert(s.skip(1).subrange(k - 1, k - 1 + sep.len() as int) =~= s.subrange(
                        k,
                        k + sep.len() as int,
                    ));
                    assert(match_at(s.skip(1), sep, k - 1));
                }
            }
        }
        if fm < s.len() {
            assert(match_at(s.skip(1), sep, fm - 1));
            assert(s.skip(1).subrange(fm - 1, fm - 1 + sep.len() as int) =~= s.subrange(
                fm as int,
                fm + sep.len() as int,
            ));
        }
    }
}

/// `s` split on every occurrence of the separator substring `sep`, leftmost
/// first and without overlap, exactly as `str::split` splits.
pub open spec fn split_on_seq(s: Seq<char>, sep: Seq<char>) -> Seq<Seq<char>>
    decreases s.len(),
    via split_on_seq_dec
{
    let i = first_match(s, sep) as int;
    if i == s.len() {
        seq![s]
    } else {
        seq![s.subrange(0, i)] + split_on_seq(s.subrange(i + sep.len() as int, s.len() as int), sep)
    }
}

#[via_fn]
proof fn split_on_seq_dec(s: Seq<char>, sep: Seq<char>) {
    if sep.len() >= 1 {
        lemma_first_match(s, sep);
    }
}

/// The position of the leftmost occurrence of `sep` in `s`, scanning left to
/// right, or nothing when `sep` does not occur.
fn find_match(s: &str, sep: &str) -> (r: Option<usize>)
    requires
        sep@.len() >= 1,
    ensures
        match r {
            Some(m) => m as int == first_match(s@, sep@) && m < s@.len() && match_at(
                s@,
                sep@,
                m as int,
            ),
            None => first_match(s@, sep@) == s@.len(),
        },
{
    proof {
        lemma_first_match(s@, sep@);
    }
    let n = s.unicode_len();
    let k = sep.unicode_len();
    if k > n {
        return None;
    }
    let mut i: usize = 0;
    while i <= n - k
        invariant
            k == sep@.len(),
            n == s@.len(),
            1 <= k <= n,
            i <= n - k + 1,
            forall|j: int| 0 <= j < i ==> !match_at(s@, sep@, j),
        decreases n - i,
    {
        let piece = s.substring_char(i, i + k);
        if str_eq(piece, sep) {
            proof {
                assert(match_at(s@, sep@, i as int));
                lemma_first_match(s@, sep@);
            }
            return Some(i);
        }
        i = i + 1;
    }
    proof {
        assert(forall|j: int| 0 <= j < s@.len() ==> !match_at(s@, sep@, j));
        lemma_first_match(s@, sep@);
    }
    None
}

/// `s` split on every occurrence of `sep`.
pub fn split_str(s: &str, sep: &str) -> (out: Vec<String>)
    requires
        sep@.len() >= 1,
    ensures
        views_of(out@) == split_on_seq(s@, sep@),
{
    let mut out: Vec<String> = Vec::new();
    let mut rest: &str = s;
    proof {
        assert(views_of(out@) =~= Seq::<Seq<char>>::empty());
    }
    loop
        invariant_except_break
            sep@.len() >= 1,
            split_on_seq(s@, sep@) == views_of(out@) + split_on_seq(rest@, sep@),
        ensures
            views_of(out@) == split_on_seq(s@, sep@),
        decreases rest@.len(),
    {
        let ghost prev_out = out@;
        match find_match(rest, sep) {
            Some(m) => {
                proof {
                    assert(m + sep@.len() <= rest@.len());
                }
                let piece = rest.substring_char(0, m);
                out.push(String::from_str(piece));
                let rl = rest.unicode_len();
                let k = sep.unicode_len();
                proof {
                    assert(m + k <= rl);
                }
                let next = rest.substring_char(m + k, rl);
                proof {
                    assert(views_of(out@) =~= views_of(prev_out) + seq![piece@]);
                    assert(split_on_seq(rest@, sep@) == seq![rest@.subrange(0, m as int)]
                        + split_on_seq(next@, sep@));
                    assert(views_of(out@) + split_on_seq(next@, sep@) =~= views_of(prev_out) + (
                    seq![piece@] + split_on_seq(next@, sep@)));
                }
                rest = next;
            },
            None => {
                out.push(String::from_str(rest));
                proof {
                    assert(split_on_seq(rest@, sep@) == seq![rest@]);
                    assert(views_of(out@) =~= views_of(prev_out) + seq![rest@]);
                }
                break ;
            },
        }
    }
    out
}

/// Whitespace tokenizing continued from a token prefix `cur`: tokens are the
/// maximal whitespace-free runs, empty tokens never appear.
pub open spec fn ws_tokens_acc(s: Seq<char>, cur: Seq<char>) -> Seq<Seq<char>>
    decreases s.len(),
{
    if s.len() == 0 {
        if cur.len() == 0 {
            Seq::<Seq<char>>::empty()
        } else {
            seq![cur]
        }
    } else if is_ws(s[0]) {
        (if cur.len() == 0 {
            Seq::<Seq<char>>::empty()
        } else {
            seq![cur]
        }) + ws_tokens_acc(s.skip(1), Seq::<char>::empty())
    } else {
        ws_tokens_acc(s.skip(1), cur.push(s[0]))
    }
}

/// The whitespace-separated tokens of `s`, exactly as `str::split_whitespace`
/// yields them.
pub open spec fn ws_tokens(s: Seq<char>) -> Seq<Seq<char>> {
    ws_tokens_acc(s, Seq::<char>::empty())
}

/// The whitespace-separated tokens of `s`.
pub fn split_whitespace_str(s: &str) -> (out: Vec<String>)
    ensures
        views_of(out@) == ws_tokens(s@),
{
    let n = s.unicode_len();
    let mut out: Vec<String> = Vec::new();
    let mut start: usize = 0;
    let mut i: usize = 0;
    proof {
        assert(s@.skip(0) =~= s@);
        assert(s@.subrange(0, 0) =~= Seq::<char>::empty());
        assert(views_of(out@) =~= Seq::<Seq<char>>::empty());
    }
    while i < n
        invariant
            start <= i <= n,
            n == s@.len(),
            ws_tokens(s@) == views_of(out@) + ws_tokens_acc(
                s@.skip(i as int),
                s@.subrange(start as int, i as int),
            ),
        decreases n - i,
    {
        let ghost prev_out = out@;
        let ghost rest = s@.skip(i as int);
        let ghost cur = s@.subrange(start as int, i as int);
        let c = s.get_char(i);
        proof {
            assert(rest.len() > 0);
            assert(rest[0] == s@[i as int]);
            assert(rest.skip(1) =~= s@.skip(i as int + 1));
        }
        if ws_char(c) {
            if i > start {
                let piece = s.substring_char(start, i);
                out.push(String::from_str(piece));
                proof {
                    assert(views_of(out@) =~= views_of(prev_out) + seq![cur]);
                }
            }
            proof {
                assert(s@.subrange(i as int + 1, i as int + 1) =~= Seq::<char>::empty());
                if i > start {
                    assert(ws_tokens_acc(rest, cur) == seq![cur] + ws_tokens_acc(
                        rest.skip(1),
                        Seq::<char>::empty(),
                    ));
                    assert(views_of(out@) + ws_tokens_acc(rest.skip(1), Seq::<char>::empty())
                        =~= views_of(prev_out) + (seq![cur] + ws_tokens_acc(
                        rest.skip(1),
                        Seq::<char>::empty(),
                    )));
                } else {
                    assert(cur.len() == 0);
                    assert(ws_tokens_acc(rest, cur) == Seq::<Seq<char>>::empty() + ws_tokens_acc(
                        rest.skip(1),
                        Seq::<char>::empty(),
                    ));
                    assert(Seq::<Seq<char>>::empty() + ws_tokens_acc(
                        rest.skip(1),
                        Seq::<char>::empty(),
                    ) =~= ws_tokens_acc(rest.skip(1), Seq::<char>::empty()));
                }
            }
            start = i + 1;
        } else {
            proof {
                assert(s@.subrange(start as int, i as int + 1) =~= cur.push(s@[i as int]));
            }
        }
        i = i + 1;
    }
    if start < n {
        let piece = s.substring_char(start, n);
        let ghost prev_out = out@;
        out.push(String::from_str(piece));
        proof {
            assert(s@.skip(n as int) =~= Seq::<char>::empty());
            assert(views_of(out@) =~= views_of(prev_out) + seq![s@.subrange(
                start as int,
                n as int,
            )]);
            assert(views_of(out@) =~= ws_tokens(s@));
        }
    } else {
        proof {
            assert(s@.skip(n as int) =~= Seq::<char>::empty());
            assert(s@.subrange(start as int, start as int) =~= Seq::<char>::empty());
            assert(views_of(out@) + Seq::<Seq<char>>::empty() =~= views_of(out@));
        }
    }
    out
}

/// The three-way split of an action segment, continued from a token prefix
/// `cur` and the tokens already `found`: the first two whitespace runs
/// separate, and everything after the second run is one final token.
pub open spec fn split3_acc(s: Seq<char>, cur: Seq<char>, found: Seq<Seq<char>>) -> Seq<Seq<char>>
    decreases s.len(),
{
    if s.len() == 0 {
        if cur.len() == 0 {
            found
        } else {
            found.push(cur)
        }
    } else if found.len() >= 2 && cur.len() == 0 && !is_ws(s[0]) {
        found.push(s)
    } else if is_ws(s[0]) {
        if cur.len() == 0 {
            split3_acc(s.skip(1), cur, found)
        } else {
            split3_acc(s.skip(1), Seq::<char>::empty(), found.push(cur))
        }
    } else {
        split3_acc(s.skip(1), cur.push(s[0]), found)
    }
}

/// `s` split into at most three parts at its first two whitespace runs; the
/// third part keeps any further whitespace.
pub open spec fn split3_of(s: Seq<char>) -> Seq<Seq<char>> {
    split3_acc(s, Seq::<char>::empty(), Seq::<Seq<char>>::empty())
}

/// `s` split into at most three parts at its first two whitespace runs.
pub fn split3_str(s: &str) -> (out: Vec<String>)
    ensures
        views_of(out@) == split3_of(s@),
{
    let n = s.unicode_len();
    let mut out: Vec<String> = Vec::new();
    let mut start: usize = 0;
    let mut i: usize = 0;
    proof {
        assert(s@.skip(0) =~= s@);
        assert(s@.subrange(0, 0) =~= Seq::<char>::empty());
        assert(views_of(out@) =~= Seq::<Seq<char>>::empty());
    }
    loop
        invariant_except_break
            start <= i <= n,
            n == s@.len(),
            out@.len() <= 2,
            out@.len() == 2 ==> start == i,
            split3_of(s@) == split3_acc(
                s@.skip(i as int),
                s@.subrange(start as int, i as int),
                views_of(out@),
            ),
        ensures
            views_of(out@) == split3_of(s@),
        decreases n - i,
    {
        let ghost prev_out = out@;
        let ghost rest = s@.skip(i as int);
        let ghost cur = s@.subrange(start as int, i as int);
        if i == n {
            proof {
                assert(rest =~= Seq::<char>::empty());
            }
            if i > start {
                let piece = s.substring_char(start, n);
                out.push(String::from_str(piece));
                proof {
                    assert(views_of(out@) =~= views_of(prev_out).push(cur));
                }
            }
            break ;
        }
        let c = s.get_char(i);
        proof {
            assert(rest.len() > 0);
            assert(rest[0] == s@[i as int]);
            assert(rest.skip(1) =~= s@.skip(i as int + 1));
        }
        if out.len() == 2 && i == start && !ws_char(c) {
            let piece = s.substring_char(i, n);
            out.push(String::from_str(piece));
            proof {
                assert(views_of(out@) =~= views_of(prev_out).push(rest));
            }
            break ;
        }
        if ws_char(c) {
            if i > start {
                let piece = s.substring_char(start, i);
                out.push(String::from_str(piece));
                proof {
                    assert(views_of(out@) =~= views_of(prev_out).push(cur));
                    assert(split3_acc(rest, cur, views_of(prev_out)) == split3_acc(
                        rest.skip(1),
                        Seq::<char>::empty(),
                        views_of(prev_out).push(cur),
                    ));
                }
            } else {
                proof {
                    assert(cur =~= Seq::<char>::empty());
                    assert(split3_acc(rest, cur, views_of(prev_out)) == split3_acc(
                        rest.skip(1),
                        cur,
                        views_of(prev_out),
                    ));
                }
            }
            proof {
                assert(s@.subrange(i as int + 1, i as int + 1) =~= Seq::<char>::empty());
            }
            start = i + 1;
        } else {
            proof {
                assert(s@.subrange(start as int, i as int + 1) =~= cur.push(s@[i as int]));
            }
        }
        i = i + 1;
    }
    out
}

/// Whether `s` holds a double-quote character anywhere.
pub open spec fn has_quote(s: Seq<char>) -> bool {
    exists|k: int| 0 <= k < s.len() && s[k] == '"'
}

/// Whether `s` holds a double-quote character anywhere.
pub fn contains_quote(s: &str) -> (r: bool)
    ensures
        r == has_quote(s@),
{
    let n = s.unicode_len();
    let mut i: usize = 0;
    while i < n
        invariant
            i <= n,
            n == s@.len(),
            forall|k: int| 0 <= k < i ==> s@[k] != '"',
        decreases n - i,
    {
        if s.get_char(i) == '"' {
            return true;
        }
        i = i + 1;
    }
    false
}

} // verus!
