//! The literal grammar shared by actions and queries: a scalar subset of
//! JSON.  A literal is `true`, `false`, a double-quoted piece of text, or a
//! decimal number (optional minus sign, digits, optionally a point and more
//! digits).  Anything else parses to the `Nil` sentinel.
//!
//! Numbers are read as a count of hundredths, rounding toward negative
//! infinity: fraction digits beyond the second are dropped, and a negative
//! value whose dropped digits are not all zero rounds down one hundredth.
//! A count beyond the 64-bit range saturates at the nearest bound.

use vstd::prelude::*;
use vstd::string::StrSliceExecFns;
use vstd::string::StringExecFns;

use crate::text::str_eq;
use crate::value::Entry;
use crate::value::EntryModel;
use crate::value::sat_i64;

verus! {

/// The first saturating count of whole units: any digit string reaching this
/// value yields a hundredths count past every 64-bit bound.
const DIGIT_CAP: u64 = 92233720368547759;

/// Whether `c` is a decimal digit.
pub open spec fn is_digit(c: char) -> bool {
    48 <= c as u32 <= 57
}

/// The value of a decimal digit character.
pub open spec fn digit_val(c: char) -> int {
    c as u32 - 48
}

/// Whether every character of `s` is a decimal digit.
pub open spec fn all_digits(s: Seq<char>) -> bool {
    forall|i: int| 0 <= i < s.len() ==> is_digit(s[i])
}

/// The value of a string of decimal digits, most significant first.
pub open spec fn digits_val(s: Seq<char>) -> int
    decreases s.len(),
{
    if s.len() == 0 {
        0
    } else {
        digits_val(s.drop_last()) * 10 + digit_val(s.last())
    }
}

/// The hundredths contributed by the fraction digits: only the first two
/// count.
pub open spec fn frac2(fp: Seq<char>) -> int {
    if fp.len() >= 2 {
        digit_val(fp[0]) * 10 + digit_val(fp[1])
    } else if fp.len() == 1 {
        digit_val(fp[0]) * 10
    } else {
        0
    }
}

/// The position of the first point character, or `s.len()` when none occurs.
pub open spec fn first_dot(s: Seq<char>) -> nat
    decreases s.len(),
{
    if s.len() == 0 {
        0
    } else if s[0] == '.' {
        0
    } else {
        (1 + first_dot(s.skip(1))) as nat
    }
}

pub proof fn lemma_first_dot(s: Seq<char>)
    ensures
        first_dot(s) <= s.len(),
        first_dot(s) < s.len() ==> s[first_dot(s) as int] == '.',
        forall|k: int| 0 <= k < first_dot(s) ==> s[k] != '.',
    decreases s.len(),
{
    if s.len() > 0 && s[0] != '.' {
        lemma_first_dot(s.skip(1));
        assert forall|k: int| 0 <= k < first_dot(s) implies s[k] != '.' by {
            if k > 0 {
                assert(s.skip(1)[k - 1] == s[k]);
            }
        }
    }
}

/// The unsigned count of hundredths a number body denotes, or nothing when
/// the body is not `digits` or `digits.digits`.
pub open spec fn num_mag(body: Seq<char>) -> Option<int> {
    let d = first_dot(body) as int;
    if d == body.len() {
        if body.len() >= 1 && all_digits(body) {
            Some(digits_val(body) * 100)
        } else {
            None
        }
    } else {
        let ip = body.subrange(0, d);
        let fp = body.subrange(d + 1, body.len() as int);
        if ip.len() >= 1 && fp.len() >= 1 && all_digits(ip) && all_digits(fp) {
            Some(digits_val(ip) * 100 + frac2(fp))
        } else {
            None
        }
    }
}

/// Whether a number body carries a nonzero digit beyond the second fraction
/// digit: the part the hundredths count drops.
pub open spec fn frac_rest(body: Seq<char>) -> bool {
    let d = first_dot(body) as int;
    d < body.len() && exists|i: int| d + 3 <= i < body.len() && body[i] != '0'
}

/// The signed, saturated count of hundredths a numeric literal denotes, or
/// nothing when `t` is not a numeric literal.  The count is the floor of a
/// hundred times the value: a negative literal whose dropped fraction
/// digits are not all zero rounds down one hundredth.
pub open spec fn parse_num(t: Seq<char>) -> Option<int> {
    let neg = t.len() > 0 && t[0] == '-';
    let body = if neg {
        t.skip(1)
    } else {
        t
    };
    match num_mag(body) {
        Some(m) => Some(
            if neg {
                sat_i64(
                    -(m + if frac_rest(body) {
                        1int
                    } else {
                        0int
                    }),
                )
            } else {
                sat_i64(m)
            },
        ),
        None => None,
    }
}

/// What a literal denotes: the keywords `true` and `false`, quoted text (the
/// quotes must be the only quote characters), or a number; everything else
/// is the `Nil` sentinel.
pub open spec fn parse_lit(t: Seq<char>) -> EntryModel {
    if t == "true"@ {
        EntryModel::Boolean(true)
    } else if t == "false"@ {
        EntryModel::Boolean(false)
    } else if t.len() >= 2 && t[0] == '"' && t[t.len() - 1] == '"' && (forall|k: int|
        1 <= k < t.len() - 1 ==> t[k] != '"') {
        EntryModel::Text(t.subrange(1, t.len() - 1))
    } else {
        match parse_num(t) {
            Some(h) => EntryModel::Number(h),
            None => EntryModel::Nil,
        }
    }
}

proof fn lemma_digits_val_nonneg(s: Seq<char>)
    requires
        all_digits(s),
    ensures
        digits_val(s) >= 0,
    decreases s.len(),
{
    if s.len() > 0 {
        assert(all_digits(s.drop_last()));
        lemma_digits_val_nonneg(s.drop_last());
    }
}

/// The value of a decimal digit character, or nothing.
fn digit_of(c: char) -> (r: Option<u64>)
    ensures
        (r is Some) == is_digit(c),
        r is Some ==> r->0 as int == digit_val(c),
        r is Some ==> r->0 < 10,
{
    let u = c as u32;
    if 48 <= u && u <= 57 {
        Some((u - 48) as u64)
    } else {
        None
    }
}

/// Reads a number body (digits, optionally a point and more digits) as an
/// unsigned count of hundredths, capping the whole part at `DIGIT_CAP`, and
/// tells whether a nonzero fraction digit was dropped.  Yields nothing
/// exactly when the body is malformed; an in-range count is exact, and a
/// capped one stays past every 64-bit bound, as the true count is.
fn parse_body_hundredths(b: &str) -> (r: Option<(u64, bool)>)
    ensures
        (r is Some) == (num_mag(b@) is Some),
        r is Some ==> (r->0).0 as int == num_mag(b@)->0 || ((r->0).0 >= 9223372036854775900u64
            && num_mag(b@)->0 >= 9223372036854775900),
        r is Some ==> (r->0).0 <= 9223372036854775999u64,
        r is Some ==> (r->0).1 == frac_rest(b@),
{
    proof {
        lemma_first_dot(b@);
    }
    let n = b.unicode_len();
    let mut i: usize = 0;
    let mut acc: u64 = 0;
    while i < n && digit_of(b.get_char(i)).is_some()
        invariant
            i <= n,
            n == b@.len(),
            acc <= DIGIT_CAP,
            forall|k: int| 0 <= k < i ==> is_digit(b@[k]),
            digits_val(b@.take(i as int)) < DIGIT_CAP ==> acc == digits_val(b@.take(i as int)),
            digits_val(b@.take(i as int)) >= DIGIT_CAP ==> acc == DIGIT_CAP,
        decreases n - i,
    {
        let d = digit_of(b.get_char(i)).unwrap();
        let ghost pref = b@.take(i as int);
        proof {
            assert(b@.take(i as int + 1).drop_last() =~= pref);
            assert(b@.take(i as int + 1).last() == b@[i as int]);
            assert(all_digits(pref));
            lemma_digits_val_nonneg(pref);
        }
        if acc < DIGIT_CAP {
            let t = acc * 10 + d;
            if t >= DIGIT_CAP {
                acc = DIGIT_CAP;
            } else {
                acc = t;
            }
        }
        i = i + 1;
    }
    proof {
        assert(is_digit('.') == false) by {
            assert('.' as u32 == 46);
        }
    }
    if i == n {
        // the whole body was digits: no point occurs
        if n == 0 {
            return None;
        }
        proof {
            assert(b@.take(n as int) =~= b@);
            assert(first_dot(b@) == b@.len());
        }
        Some((acc * 100, false))
    } else {
        let c = b.get_char(i);
        if digit_of(c).is_some() {
            // the scan only stops at a non-digit
            proof {
                assert(false);
            }
            None
        } else if c != '.' {
            // a stray character: both grammar branches fail on it
            proof {
                let d = first_dot(b@) as int;
                if d < b@.len() {
                    assert(d > i);
                    assert(b@.subrange(0, d)[i as int] == b@[i as int]);
                }
            }
            None
        } else if i == 0 {
            // a leading point: the whole part is empty
            proof {
                assert(first_dot(b@) == 0);
                assert(b@.subrange(0, 0).len() == 0);
            }
            None
        } else if i + 1 == n {
            // a trailing point: the fraction part is empty
            proof {
                assert(first_dot(b@) == i);
                assert(b@.subrange(i as int + 1, n as int).len() == 0);
            }
            None
        } else {
            proof {
                assert(first_dot(b@) == i);
            }
            let ghost ip = b@.subrange(0, i as int);
            let ghost fp = b@.subrange(i as int + 1, n as int);
            proof {
                assert(ip =~= b@.take(i as int));
                lemma_digits_val_nonneg(ip);
            }
            let mut j: usize = i + 1;
            let mut d1: u64 = 0;
            let mut d2: u64 = 0;
            let mut rest_nonzero = false;
            while j < n
                invariant
                    i + 1 <= j <= n,
                    1 <= i,
                    n == b@.len(),
                    first_dot(b@) == i,
                    d1 < 10,
                    d2 < 10,
                    forall|k: int| i + 1 <= k < j ==> is_digit(b@[k]),
                    j <= i + 1 ==> d1 == 0,
                    j > i + 1 ==> d1 as int == digit_val(b@[i as int + 1]),
                    j <= i + 2 ==> d2 == 0,
                    j > i + 2 ==> d2 as int == digit_val(b@[i as int + 2]),
                    rest_nonzero == exists|k: int| i + 3 <= k < j && b@[k] != '0',
                decreases n - j,
            {
                let cj = b.get_char(j);
                match digit_of(cj) {
                    Some(v) => {
                        if j == i + 1 {
                            d1 = v;
                        } else if j == i + 2 {
                            d2 = v;
                        } else if cj != '0' {
                            rest_nonzero = true;
                            proof {
                                assert(i + 3 <= j < j + 1 && b@[j as int] != '0');
                            }
                        }
                        proof {
                            assert forall|k: int|
                                i + 3 <= k < j + 1 && b@[k] != '0' implies rest_nonzero by {
                                if k < j {
                                    assert(exists|q: int| i + 3 <= q < j && b@[q] != '0');
                                }
                            }
                        }
                        j = j + 1;
                    },
                    None => {
                        // a non-digit in the fraction part
                        proof {
                            assert(b@.subrange(i as int + 1, n as int)[j - i - 1] == b@[j as int]);
                            assert(!all_digits(b@.subrange(i as int + 1, n as int)));
                        }
                        return None;
                    },
                }
            }
            proof {
                assert(forall|k: int| 0 <= k < fp.len() ==> fp[k] == b@[k + i + 1]);
                assert(all_digits(fp));
                assert(fp.len() >= 1);
                assert(fp[0] == b@[i as int + 1]);
                if fp.len() == 1 {
                    assert(frac2(fp) == d1 * 10 + d2);
                } else {
                    assert(fp[1] == b@[i as int + 2]);
                    assert(frac2(fp) == d1 * 10 + d2);
                }
            }
            Some((acc * 100 + d1 * 10 + d2, rest_nonzero))
        }
    }
}

/// Parses a literal: `true`/`false`, quoted text, or a number; anything else
/// yields `Nil`.
pub fn parse_literal_str(t: &str) -> (e: Entry)
    ensures
        e@ == parse_lit(t@),
{
    if str_eq(t, "true") {
        return Entry::Boolean(true);
    }
    if str_eq(t, "false") {
        return Entry::Boolean(false);
    }
    let n = t.unicode_len();
    if n >= 2 && t.get_char(0) == '"' && t.get_char(n - 1) == '"' {
        let mut clean = true;
        let mut k: usize = 1;
        while k < n - 1
            invariant
                1 <= k <= n - 1,
                2 <= n == t@.len(),
                clean == (forall|j: int| 1 <= j < k ==> t@[j] != '"'),
            decreases n - k,
        {
            if t.get_char(k) == '"' {
                clean = false;
            }
            k = k + 1;
        }
        if clean {
            let piece = t.substring_char(1, n - 1);
            return Entry::Text(String::from_str(piece));
        }
    }
    let neg = n >= 1 && t.get_char(0) == '-';
    let start: usize = if neg {
        1
    } else {
        0
    };
    let body = t.substring_char(start, n);
    proof {
        if neg {
            assert(body@ =~= t@.skip(1));
        } else {
            assert(body@ =~= t@);
        }
    }
    match parse_body_hundredths(body) {
        Some((m, rest_nonzero)) => {
            let h: i64 = if neg {
                let madj: u64 = if rest_nonzero {
                    m + 1
                } else {
                    m
                };
                if madj >= 9223372036854775808u64 {
                    i64::MIN
                } else {
                    -(madj as i64)
                }
            } else {
                if m > 9223372036854775807u64 {
                    i64::MAX
                } else {
                    m as i64
                }
            };
            Entry::Number(h)
        },
        None => Entry::Nil,
    }
}

} // verus!
