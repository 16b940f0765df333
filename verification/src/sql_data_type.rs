//! The SQL-type lexicon: normalizing a reported type string (possibly
//! parameterized, e.g. `varchar(64)`) into one of the closed set of
//! fourteen logical types.

use crate::errors::Errors;
use vstd::prelude::*;
use vstd::string::{StrSliceExecFns, StringExecFns};

verus! {

/// The closed set of logical SQL types the encoder understands.
#[derive(Clone, Copy, Debug, PartialEq, Eq, Structural)]
pub enum SqlDataType {
    Integer,
    Float,
    Char,
    Varchar,
    Boolean,
    Date,
    Timestamp,
    TimestampTz,
    Time,
    TimeTz,
    Varbinary,
    Binary,
    Numeric,
    Interval,
}

/// Index of the first occurrence of `c` in `s` at or after `from`.
pub open spec fn find_from(s: Seq<char>, c: char, from: int) -> Option<int>
    decreases s.len() - from,
    when 0 <= from <= s.len()
{
    if from >= s.len() {
        None
    } else if s[from] == c {
        Some(from)
    } else {
        find_from(s, c, from + 1)
    }
}

/// `s` with its first parenthesized region removed: everything from the
/// first `(` through the first `)` after it. Without such a region,
/// `s` is unchanged.
pub open spec fn strip_parens_chars(s: Seq<char>) -> Seq<char> {
    match find_from(s, '(', 0) {
        None => s,
        Some(oi) => match find_from(s, ')', oi + 1) {
            None => s,
            Some(ci) => s.subrange(0, oi) + s.subrange(ci + 1, s.len() as int),
        },
    }
}

/// Whether `s` still holds a `(` with a `)` somewhere after it,
/// i.e. whether a strip would remove anything.
pub open spec fn has_paren_pair(s: Seq<char>) -> bool {
    match find_from(s, '(', 0) {
        None => false,
        Some(oi) => find_from(s, ')', oi + 1) is Some,
    }
}

/// ASCII lowercase of one character; other characters are unchanged.
pub open spec fn lower_char(c: char) -> char {
    if 65 <= c as u32 && c as u32 <= 90 {
        (((c as u32) + 32) as u8) as char
    } else {
        c
    }
}

/// ASCII lowercase of a character string.
pub open spec fn lower_chars(s: Seq<char>) -> Seq<char> {
    s.map_values(|c: char| lower_char(c))
}

/// The logical type a reported type string stands for: strip one
/// parenthesized region, fold to lowercase, and match exactly against
/// the fourteen known tokens.
pub open spec fn classify_chars(s: Seq<char>) -> Option<SqlDataType> {
    let t = lower_chars(strip_parens_chars(s));
    if t == seq!['i', 'n', 't'] {
        Some(SqlDataType::Integer)
    } else if t == seq!['f', 'l', 'o', 'a', 't'] {
        Some(SqlDataType::Float)
    } else if t == seq!['c', 'h', 'a', 'r'] {
        Some(SqlDataType::Char)
    } else if t == seq!['v', 'a', 'r', 'c', 'h', 'a', 'r'] {
        Some(SqlDataType::Varchar)
    } else if t == seq!['b', 'o', 'o', 'l', 'e', 'a', 'n'] {
        Some(SqlDataType::Boolean)
    } else if t == seq!['d', 'a', 't', 'e'] {
        Some(SqlDataType::Date)
    } else if t == seq!['t', 'i', 'm', 'e', 's', 't', 'a', 'm', 'p'] {
        Some(SqlDataType::Timestamp)
    } else if t == seq!['t', 'i', 'm', 'e', 's', 't', 'a', 'm', 'p', 't', 'z'] {
        Some(SqlDataType::TimestampTz)
    } else if t == seq!['t', 'i', 'm', 'e'] {
        Some(SqlDataType::Time)
    } else if t == seq!['t', 'i', 'm', 'e', 't', 'z'] {
        Some(SqlDataType::TimeTz)
    } else if t == seq!['v', 'a', 'r', 'b', 'i', 'n', 'a', 'r', 'y'] {
        Some(SqlDataType::Varbinary)
    } else if t == seq!['b', 'i', 'n', 'a', 'r', 'y'] {
        Some(SqlDataType::Binary)
    } else if t == seq!['n', 'u', 'm', 'e', 'r', 'i', 'c'] {
        Some(SqlDataType::Numeric)
    } else if t == seq!['i', 'n', 't', 'e', 'r', 'v', 'a', 'l'] {
        Some(SqlDataType::Interval)
    } else {
        None
    }
}

/// What `find_from` points at: the first occurrence at or after `from`,
/// or nothing only when there is none.
proof fn lemma_find_from(s: Seq<char>, c: char, from: int)
    requires
        0 <= from <= s.len(),
    ensures
        match find_from(s, c, from) {
            Some(i) => from <= i < s.len() && s[i] == c && (forall|j: int|
                from <= j < i ==> s[j] != c),
            None => forall|j: int| from <= j < s.len() ==> s[j] != c,
        },
    decreases s.len() - from,
{
    if from < s.len() && s[from] != c {
        lemma_find_from(s, c, from + 1);
    }
}

/// A string without a complete parenthesized region strips to itself.
pub proof fn lemma_strip_without_pair(s: Seq<char>)
    requires
        !has_paren_pair(s),
    ensures
        strip_parens_chars(s) == s,
{
}

/// A string holding a `(` differs from any string without one.
proof fn lemma_differs_by_paren(u: Seq<char>, c: Seq<char>, oi: int)
    requires
        0 <= oi < u.len(),
        u[oi] == '(',
        forall|k: int| 0 <= k < c.len() ==> c[k] != '(',
    ensures
        u != c,
{
    if u == c {
        assert(c[oi] == u[oi]);
    }
}

/// Classification is stable under one more paren strip. The law fails
/// only where the once-stripped string still holds a parenthesized
/// region (so it names no type itself) while the twice-stripped string
/// names one; the requires leaves exactly those inputs out.
pub proof fn lemma_classify_after_strip(s: Seq<char>)
    requires
        has_paren_pair(strip_parens_chars(strip_parens_chars(s))) ==> classify_chars(
            strip_parens_chars(strip_parens_chars(s)),
        ) is None,
    ensures
        classify_chars(strip_parens_chars(strip_parens_chars(s))) == classify_chars(
            strip_parens_chars(s),
        ),
{
    let t2 = strip_parens_chars(strip_parens_chars(s));
    if has_paren_pair(t2) {
        // The once-stripped string classifies over `lower_chars(t2)`,
        // which still holds a `(`; no token of the lexicon does.
        lemma_find_from(t2, '(', 0);
        let oi = find_from(t2, '(', 0)->Some_0;
        let u = lower_chars(t2);
        assert(u[oi] == '(');
        assert(forall|k: int| 0 <= k < 3 ==> seq!['i', 'n', 't'][k] != '(');
        assert(forall|k: int| 0 <= k < 5 ==> seq!['f', 'l', 'o', 'a', 't'][k] != '(');
        assert(forall|k: int| 0 <= k < 4 ==> seq!['c', 'h', 'a', 'r'][k] != '(');
        assert(forall|k: int| 0 <= k < 7 ==> seq!['v', 'a', 'r', 'c', 'h', 'a', 'r'][k] != '(');
        assert(forall|k: int| 0 <= k < 7 ==> seq!['b', 'o', 'o', 'l', 'e', 'a', 'n'][k] != '(');
        assert(forall|k: int| 0 <= k < 4 ==> seq!['d', 'a', 't', 'e'][k] != '(');
        assert(forall|k: int|
            0 <= k < 9 ==> seq!['t', 'i', 'm', 'e', 's', 't', 'a', 'm', 'p'][k] != '(');
        assert(forall|k: int|
            0 <= k < 11 ==> seq!['t', 'i', 'm', 'e', 's', 't', 'a', 'm', 'p', 't', 'z'][k] != '(');
        assert(forall|k: int| 0 <= k < 4 ==> seq!['t', 'i', 'm', 'e'][k] != '(');
        assert(forall|k: int| 0 <= k < 6 ==> seq!['t', 'i', 'm', 'e', 't', 'z'][k] != '(');
        assert(forall|k: int|
            0 <= k < 9 ==> seq!['v', 'a', 'r', 'b', 'i', 'n', 'a', 'r', 'y'][k] != '(');
        assert(forall|k: int| 0 <= k < 6 ==> seq!['b', 'i', 'n', 'a', 'r', 'y'][k] != '(');
        assert(forall|k: int| 0 <= k < 7 ==> seq!['n', 'u', 'm', 'e', 'r', 'i', 'c'][k] != '(');
        assert(forall|k: int| 0 <= k < 8 ==> seq!['i', 'n', 't', 'e', 'r', 'v', 'a', 'l'][k] != '(');
        lemma_differs_by_paren(u, seq!['i', 'n', 't'], oi);
        lemma_differs_by_paren(u, seq!['f', 'l', 'o', 'a', 't'], oi);
        lemma_differs_by_paren(u, seq!['c', 'h', 'a', 'r'], oi);
        lemma_differs_by_paren(u, seq!['v', 'a', 'r', 'c', 'h', 'a', 'r'], oi);
        lemma_differs_by_paren(u, seq!['b', 'o', 'o', 'l', 'e', 'a', 'n'], oi);
        lemma_differs_by_paren(u, seq!['d', 'a', 't', 'e'], oi);
        lemma_differs_by_paren(u, seq!['t', 'i', 'm', 'e', 's', 't', 'a', 'm', 'p'], oi);
        lemma_differs_by_paren(u, seq!['t', 'i', 'm', 'e', 's', 't', 'a', 'm', 'p', 't', 'z'], oi);
        lemma_differs_by_paren(u, seq!['t', 'i', 'm', 'e'], oi);
        lemma_differs_by_paren(u, seq!['t', 'i', 'm', 'e', 't', 'z'], oi);
        lemma_differs_by_paren(u, seq!['v', 'a', 'r', 'b', 'i', 'n', 'a', 'r', 'y'], oi);
        lemma_differs_by_paren(u, seq!['b', 'i', 'n', 'a', 'r', 'y'], oi);
        lemma_differs_by_paren(u, seq!['n', 'u', 'm', 'e', 'r', 'i', 'c'], oi);
        lemma_differs_by_paren(u, seq!['i', 'n', 't', 'e', 'r', 'v', 'a', 'l'], oi);
        assert(classify_chars(strip_parens_chars(s)) is None);
    } else {
        lemma_strip_without_pair(t2);
    }
}

/// First occurrence of `c` in `s` at or after `from`, by linear search.
fn find_char(s: &str, c: char, from: usize) -> (r: Option<usize>)
    requires
        from <= s@.len(),
    ensures
        match r {
            Some(i) => find_from(s@, c, from as int) == Some(i as int) && from <= i < s@.len(),
            None => find_from(s@, c, from as int) is None,
        },
{
    let n = s.unicode_len();
    let mut i = from;
    while i < n
        invariant
            from <= i <= n,
            n == s@.len(),
            find_from(s@, c, from as int) == find_from(s@, c, i as int),
        decreases n - i,
    {
        if s.get_char(i) == c {
            return Some(i);
        }
        i = i + 1;
    }
    None
}

/// `s` with its first parenthesized region removed, as `strip_parens_chars`
/// says.
pub fn strip_parens(s: &str) -> (r: String)
    ensures
        r@ == strip_parens_chars(s@),
{
    let n = s.unicode_len();
    match find_char(s, '(', 0) {
        None => String::from_str(s),
        Some(oi) => match find_char(s, ')', oi + 1) {
            None => String::from_str(s),
            Some(ci) => {
                let head = s.substring_char(0, oi);
                let tail = s.substring_char(ci + 1, n);
                let r = String::from_str(head).concat(tail);
                proof {
                    assert(r@ =~= strip_parens_chars(s@));
                }
                r
            },
        },
    }
}

/// ASCII lowercase of one character.
fn to_lower_char(c: char) -> (r: char)
    ensures
        r == lower_char(c),
{
    let u = c as u32;
    if 65 <= u && u <= 90 {
        ((u + 32) as u8) as char
    } else {
        c
    }
}

/// The stripped, lowercased form of `s` as a character vector.
fn normalized_chars(s: &str) -> (v: Vec<char>)
    ensures
        v@ == lower_chars(strip_parens_chars(s@)),
{
    let n = s.unicode_len();
    let ghost stripped = strip_parens_chars(s@);
    let open_at = find_char(s, '(', 0);
    let bounds: Option<(usize, usize)> = match open_at {
        None => None,
        Some(oi) => match find_char(s, ')', oi + 1) {
            None => None,
            Some(ci) => Some((oi, ci)),
        },
    };
    let mut v: Vec<char> = Vec::new();
    match bounds {
        None => {
            proof {
                assert(stripped =~= s@);
            }
            let mut a: usize = 0;
            while a < n
                invariant
                    a <= n,
                    n == s@.len(),
                    v@.len() == a,
                    forall|j: int| 0 <= j < a ==> v@[j] == lower_char(s@[j]),
                decreases n - a,
            {
                v.push(to_lower_char(s.get_char(a)));
                a = a + 1;
            }
            proof {
                assert(v@ =~= lower_chars(s@));
            }
        },
        Some((oi, ci)) => {
            proof {
                assert(stripped =~= s@.subrange(0, oi as int) + s@.subrange(
                    ci + 1,
                    s@.len() as int,
                ));
            }
            let mut a: usize = 0;
            while a < oi
                invariant
                    a <= oi < n,
                    n == s@.len(),
                    v@.len() == a,
                    forall|j: int| 0 <= j < a ==> v@[j] == lower_char(s@[j]),
                decreases oi - a,
            {
                v.push(to_lower_char(s.get_char(a)));
                a = a + 1;
            }
            let mut b: usize = ci + 1;
            while b < n
                invariant
                    oi < ci < b <= n,
                    n == s@.len(),
                    v@.len() == oi + b - ci - 1,
                    forall|j: int| 0 <= j < oi ==> v@[j] == lower_char(s@[j]),
                    forall|j: int|
                        oi <= j < v@.len() ==> v@[j] == lower_char(s@[j - oi + ci + 1]),
                decreases n - b,
            {
                v.push(to_lower_char(s.get_char(b)));
                b = b + 1;
            }
            proof {
                assert(v@ =~= lower_chars(stripped));
            }
        },
    }
    v
}

/// Whether the collected characters equal a literal token.
fn chars_match(v: &Vec<char>, token: &str) -> (r: bool)
    ensures
        r == (v@ == token@),
{
    let m = token.unicode_len();
    if v.len() != m {
        return false;
    }
    let mut i: usize = 0;
    while i < m
        invariant
            i <= m,
            m == token@.len(),
            v@.len() == m,
            forall|j: int| 0 <= j < i ==> v@[j] == token@[j],
        decreases m - i,
    {
        if v[i] != token.get_char(i) {
            return false;
        }
        i = i + 1;
    }
    proof {
        assert(v@ =~= token@);
    }
    true
}

impl SqlDataType {
    /// The logical type named by a reported type string, or
    /// `Errors::UnknownDataType` for a token outside the lexicon.
    pub fn from_string(string: &str) -> (r: Result<SqlDataType, Errors>)
        ensures
            match r {
                Ok(t) => classify_chars(string@) == Some(t),
                Err(e) => classify_chars(string@) is None && e == Errors::UnknownDataType,
            },
    {
        let v = normalized_chars(string);
        proof {
            reveal_strlit("int");
            reveal_strlit("float");
            reveal_strlit("char");
            reveal_strlit("varchar");
            reveal_strlit("boolean");
            reveal_strlit("date");
            reveal_strlit("timestamp");
            reveal_strlit("timestamptz");
            reveal_strlit("time");
            reveal_strlit("timetz");
            reveal_strlit("varbinary");
            reveal_strlit("binary");
            reveal_strlit("numeric");
            reveal_strlit("interval");
            assert("int"@ =~= seq!['i', 'n', 't']);
            assert("float"@ =~= seq!['f', 'l', 'o', 'a', 't']);
            assert("char"@ =~= seq!['c', 'h', 'a', 'r']);
            assert("varchar"@ =~= seq!['v', 'a', 'r', 'c', 'h', 'a', 'r']);
            assert("boolean"@ =~= seq!['b', 'o', 'o', 'l', 'e', 'a', 'n']);
            assert("date"@ =~= seq!['d', 'a', 't', 'e']);
            assert("timestamp"@ =~= seq!['t', 'i', 'm', 'e', 's', 't', 'a', 'm', 'p']);
            assert("timestamptz"@ =~= seq!['t', 'i', 'm', 'e', 's', 't', 'a', 'm', 'p', 't', 'z']);
            assert("time"@ =~= seq!['t', 'i', 'm', 'e']);
            assert("timetz"@ =~= seq!['t', 'i', 'm', 'e', 't', 'z']);
            assert("varbinary"@ =~= seq!['v', 'a', 'r', 'b', 'i', 'n', 'a', 'r', 'y']);
            assert("binary"@ =~= seq!['b', 'i', 'n', 'a', 'r', 'y']);
            assert("numeric"@ =~= seq!['n', 'u', 'm', 'e', 'r', 'i', 'c']);
            assert("interval"@ =~= seq!['i', 'n', 't', 'e', 'r', 'v', 'a', 'l']);
        }
        if chars_match(&v, "int") {
            Ok(SqlDataType::Integer)
        } else if chars_match(&v, "float") {
            Ok(SqlDataType::Float)
        } else if chars_match(&v, "char") {
            Ok(SqlDataType::Char)
        } else if chars_match(&v, "varchar") {
            Ok(SqlDataType::Varchar)
        } else if chars_match(&v, "boolean") {
            Ok(SqlDataType::Boolean)
        } else if chars_match(&v, "date") {
            Ok(SqlDataType::Date)
        } else if chars_match(&v, "timestamp") {
            Ok(SqlDataType::Timestamp)
        } else if chars_match(&v, "timestamptz") {
            Ok(SqlDataType::TimestampTz)
        } else if chars_match(&v, "time") {
            Ok(SqlDataType::Time)
        } else if chars_match(&v, "timetz") {
            Ok(SqlDataType::TimeTz)
        } else if chars_match(&v, "varbinary") {
            Ok(SqlDataType::Varbinary)
        } else if chars_match(&v, "binary") {
            Ok(SqlDataType::Binary)
        } else if chars_match(&v, "numeric") {
            Ok(SqlDataType::Numeric)
        } else if chars_match(&v, "interval") {
            Ok(SqlDataType::Interval)
        } else {
            Err(Errors::UnknownDataType)
        }
    }
}

} // verus!
