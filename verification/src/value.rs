//! The typed values a blackboard stores, their textual rendering, and the
//! integer comparison key that the query evaluator compares values by.
//!
//! Numbers are kept as a fixed point count of hundredths in an `i64`: the
//! store's arithmetic, rendering (always two fraction digits) and comparisons
//! (exact to a hundredth) are all defined at that precision.

use vstd::prelude::*;
use vstd::string::StrSliceExecFns;
use vstd::string::StringExecFns;

verus! {

/// A value held by the blackboard: a number (as a count of hundredths), a
/// piece of text, a truth value, or the `Nil` sentinel that marks a failed
/// parse or an invalid combination.
#[derive(Debug, PartialEq, Eq)]
pub enum Entry {
    Number(i64),
    Text(String),
    Boolean(bool),
    Nil,
}

/// The mathematical shape of an `Entry`: the number as an unbounded count of
/// hundredths, the text as a sequence of characters.
pub enum EntryModel {
    Number(int),
    Text(Seq<char>),
    Boolean(bool),
    Nil,
}

impl View for Entry {
    type V = EntryModel;

    open spec fn view(&self) -> EntryModel {
        match self {
            Entry::Number(h) => EntryModel::Number(*h as int),
            Entry::Text(s) => EntryModel::Text(s@),
            Entry::Boolean(b) => EntryModel::Boolean(*b),
            Entry::Nil => EntryModel::Nil,
        }
    }
}

/// One recorded diagnostic.  Malformed input is skipped, never fatal; each
/// skipped piece leaves one of these behind.
#[derive(Clone, Copy, Debug, PartialEq, Eq)]
pub enum Diag {
    /// An action segment or a query term whose token count is wrong.
    MalformedSegment,
    /// An action whose first token is not `set`, `add` or `sub`.
    UnknownCommand,
    /// A query term whose middle token is not a recognized operator.
    UnknownOperator,
    /// `add` or `sub` on a key that is not in the store.
    UndefinedKey,
    /// A value literal that parses to nothing.
    UnparsableLiteral,
    /// A value retrieved under a key that is not in the store.
    LookupMiss,
    /// A malformed query term that contains a quote: quoted text with
    /// embedded spaces is supported in actions only, not in queries.
    QuoteInTerm,
}

/// An addition or subtraction result clamped to the range of an `i64`.
pub open spec fn sat_i64(v: int) -> int {
    if v > i64::MAX as int {
        i64::MAX as int
    } else if v < i64::MIN as int {
        i64::MIN as int
    } else {
        v
    }
}

/// The decimal digit character for `d` in 0..=9.
pub open spec fn digit_char(d: int) -> char {
    if d == 0 {
        '0'
    } else if d == 1 {
        '1'
    } else if d == 2 {
        '2'
    } else if d == 3 {
        '3'
    } else if d == 4 {
        '4'
    } else if d == 5 {
        '5'
    } else if d == 6 {
        '6'
    } else if d == 7 {
        '7'
    } else if d == 8 {
        '8'
    } else {
        '9'
    }
}

/// The decimal digits of a non-negative integer, most significant first.
pub open spec fn dec_str(n: int) -> Seq<char>
    decreases n,
{
    if n < 10 {
        seq![digit_char(n)]
    } else {
        dec_str(n / 10).push(digit_char(n % 10))
    }
}

/// How a number renders: optional minus sign, the whole part, a point, and
/// exactly two fraction digits.
pub open spec fn num_render(h: int) -> Seq<char> {
    let a = if h < 0 {
        -h
    } else {
        h
    };
    (if h < 0 {
        seq!['-']
    } else {
        Seq::<char>::empty()
    }) + dec_str(a / 100) + seq!['.', digit_char((a / 10) % 10), digit_char(a % 10)]
}

/// How a value renders: numbers with two fraction digits, text verbatim,
/// truth values as `true`/`false`, and the sentinel as `nil`.
pub open spec fn render_of(e: EntryModel) -> Seq<char> {
    match e {
        EntryModel::Number(h) => num_render(h),
        EntryModel::Text(s) => s,
        EntryModel::Boolean(b) => if b {
            "true"@
        } else {
            "false"@
        },
        EntryModel::Nil => "nil"@,
    }
}

/// One step of the rolling text hash: multiply by 33 and absorb the next
/// character, wrapping at 32 bits.
pub open spec fn hash_step(acc: u32, c: char) -> u32 {
    vstd::wrapping::u32_specs::wrapping_add(
        vstd::wrapping::u32_specs::wrapping_mul(acc, 33),
        c as u32,
    )
}

/// The rolling hash of `s` continued from `acc`.
pub open spec fn hash_acc(acc: u32, s: Seq<char>) -> u32
    decreases s.len(),
{
    if s.len() == 0 {
        acc
    } else {
        hash_acc(hash_step(acc, s[0]), s.skip(1))
    }
}

/// The deterministic 32-bit hash of a text value.  Identical texts always
/// hash alike; distinct texts may collide.
pub open spec fn str_hash(s: Seq<char>) -> u32 {
    hash_acc(5381u32, s)
}

/// The hash reinterpreted as a signed 32-bit value.
pub open spec fn str_key(s: Seq<char>) -> int {
    if str_hash(s) < 0x8000_0000u32 {
        str_hash(s) as int
    } else {
        str_hash(s) as int - 0x1_0000_0000
    }
}

/// The signed 32-bit comparison key of a value: numbers keep their hundredths
/// count clamped to the 32-bit range, text is hashed, truth values map to 1
/// and 0, and the sentinel sits below every in-range key.
pub open spec fn key_of(e: EntryModel) -> int {
    match e {
        EntryModel::Number(h) => if h > i32::MAX as int {
            i32::MAX as int
        } else if h < i32::MIN as int {
            i32::MIN as int
        } else {
            h
        },
        EntryModel::Text(s) => str_key(s),
        EntryModel::Boolean(b) => if b {
            1
        } else {
            0
        },
        EntryModel::Nil => i32::MIN as int,
    }
}

impl Entry {
    /// An explicit deep copy; stored text is cloned.
    pub fn duplicate(&self) -> (r: Entry)
        ensures
            r@ == self@,
    {
        match self {
            Entry::Number(h) => Entry::Number(*h),
            Entry::Text(s) => Entry::Text(s.clone()),
            Entry::Boolean(b) => Entry::Boolean(*b),
            Entry::Nil => Entry::Nil,
        }
    }

    /// The textual rendering of this value.
    pub fn display_string(&self) -> (s: String)
        ensures
            s@ == render_of(self@),
    {
        match self {
            Entry::Number(h) => num_display(*h),
            Entry::Text(t) => t.clone(),
            Entry::Boolean(b) => if *b {
                String::from_str("true")
            } else {
                String::from_str("false")
            },
            Entry::Nil => String::from_str("nil"),
        }
    }

    /// The comparison key of this value.
    pub fn comparison_key(&self) -> (k: i32)
        ensures
            k as int == key_of(self@),
    {
        match self {
            Entry::Number(h) => {
                if *h > i32::MAX as i64 {
                    i32::MAX
                } else if *h < i32::MIN as i64 {
                    i32::MIN
                } else {
                    *h as i32
                }
            },
            Entry::Text(s) => hash_key(s.as_str()),
            Entry::Boolean(b) => if *b {
                1
            } else {
                0
            },
            Entry::Nil => i32::MIN,
        }
    }
}

/// The string of decimal digits of `n`, most significant first.
fn u64_dec_str(n: u64) -> (s: String)
    ensures
        s@ == dec_str(n as int),
    decreases n,
{
    if n < 10 {
        String::from_str(digit_str(n))
    } else {
        let mut s = u64_dec_str(n / 10);
        s.append(digit_str(n % 10));
        proof {
            assert(dec_str(n as int) =~= dec_str(n as int / 10) + seq![
                digit_char(n as int % 10),
            ]);
        }
        s
    }
}

/// The one-character string for a digit in 0..=9.
fn digit_str(d: u64) -> (r: &'static str)
    requires
        d < 10,
    ensures
        r@ == seq![digit_char(d as int)],
{
    proof {
        reveal_strlit("0");
        reveal_strlit("1");
        reveal_strlit("2");
        reveal_strlit("3");
        reveal_strlit("4");
        reveal_strlit("5");
        reveal_strlit("6");
        reveal_strlit("7");
        reveal_strlit("8");
        reveal_strlit("9");
    }
    match d {
        0 => "0",
        1 => "1",
        2 => "2",
        3 => "3",
        4 => "4",
        5 => "5",
        6 => "6",
        7 => "7",
        8 => "8",
        _ => "9",
    }
}

/// Renders a count of hundredths with a sign, the whole part, and exactly
/// two fraction digits.
fn num_display(h: i64) -> (s: String)
    ensures
        s@ == num_render(h as int),
{
    let a: u64 = if h == i64::MIN {
        9223372036854775808u64
    } else if h < 0 {
        (-h) as u64
    } else {
        h as u64
    };
    let mut s = String::new();
    if h < 0 {
        s.append("-");
    }
    let whole = u64_dec_str(a / 100);
    s.append(whole.as_str());
    s.append(".");
    s.append(digit_str((a / 10) % 10));
    s.append(digit_str(a % 10));
    proof {
        reveal_strlit("-");
        reveal_strlit(".");
        assert(s@ =~= num_render(h as int));
    }
    s
}

/// The deterministic 32-bit hash of `s`, as the signed key it compares by.
fn hash_key(s: &str) -> (k: i32)
    ensures
        k as int == str_key(s@),
{
    let n = s.unicode_len();
    let mut h: u32 = 5381;
    let mut i: usize = 0;
    proof {
        assert(s@.skip(0) =~= s@);
    }
    while i < n
        invariant
            i <= n,
            n == s@.len(),
            str_hash(s@) == hash_acc(h, s@.skip(i as int)),
        decreases n - i,
    {
        let c = s.get_char(i);
        proof {
            assert(s@.skip(i as int).len() > 0);
            assert(s@.skip(i as int)[0] == s@[i as int]);
            assert(s@.skip(i as int).skip(1) =~= s@.skip(i as int + 1));
        }
        h = h.wrapping_mul(33).wrapping_add(c as u32);
        i = i + 1;
    }
    proof {
        assert(s@.skip(n as int) =~= Seq::<char>::empty());
    }
    if h <= 0x7fff_ffffu32 {
        h as i32
    } else {
        let d = (0xffff_ffffu32 - h) as i32;
        -d - 1
    }
}

} // verus!
