//! Reusable cell patterns, parsed from a textual coordinate list.
//!
//! The textual format is a strict little grammar: the input is split on
//! whitespace (space, tab, carriage return or line feed) into tokens, and
//! every token must have the exact shape `(<int>,<int>)` — an opening
//! parenthesis, a first integer, a comma, a second integer, a closing
//! parenthesis, with nothing in between. An integer is one or more decimal
//! digits, optionally preceded by `-`, and must fit in an `i32`. Any token
//! of another shape fails the whole parse with [`ParseError`], and no
//! partial object is produced.

use vstd::prelude::*;

verus! {

/// The failure of [`Object::from_string`] on malformed input. No partial
/// object is ever produced alongside it.
#[derive(Clone, Copy, Debug, PartialEq, Eq, Structural)]
pub struct ParseError;

/// A reusable pattern: live cells as `(dx, dy)` offsets relative to an
/// implicit origin. Purely descriptive; an object holds no reference to any
/// grid, and one object may be loaded onto many grids. Offsets are kept in
/// the order parsed, duplicates permitted (loading a cell twice is the same
/// as loading it once).
#[derive(Clone, Debug)]
pub struct Object {
    pub offsets: Vec<(i32, i32)>,
}

/// The characters that separate tokens: space, tab, carriage return, line
/// feed.
pub open spec fn is_space(c: char) -> bool {
    c == ' ' || c == '\t' || c == '\n' || c == '\r'
}

/// The length of the leading run of non-whitespace characters of `s`.
pub open spec fn token_end(s: Seq<char>) -> int
    decreases s.len(),
{
    if s.len() == 0 || is_space(s[0]) {
        0
    } else {
        1 + token_end(s.skip(1))
    }
}

proof fn lemma_token_end_bounds(s: Seq<char>)
    ensures
        0 <= token_end(s) <= s.len(),
    decreases s.len(),
{
    if s.len() == 0 || is_space(s[0]) {
    } else {
        lemma_token_end_bounds(s.skip(1));
    }
}

/// The whitespace-separated tokens of `s`, in order.
pub open spec fn tokens(s: Seq<char>) -> Seq<Seq<char>>
    decreases s.len(),
    via tokens_decreases
{
    if s.len() == 0 {
        Seq::empty()
    } else if is_space(s[0]) {
        tokens(s.skip(1))
    } else {
        seq![s.take(token_end(s))] + tokens(s.skip(token_end(s)))
    }
}

#[via_fn]
proof fn tokens_decreases(s: Seq<char>) {
    lemma_token_end_bounds(s);
    if s.len() > 0 && !is_space(s[0]) {
        lemma_token_end_bounds(s.skip(1));
        assert(token_end(s) == 1 + token_end(s.skip(1)));
    }
}

/// A decimal digit `'0'` to `'9'`.
pub open spec fn is_digit(c: char) -> bool {
    '0' as int <= c as int && c as int <= '9' as int
}

/// The numeric value of a decimal digit.
pub open spec fn digit_val(c: char) -> int {
    c as int - '0' as int
}

/// One or more characters, all decimal digits.
pub open spec fn is_digits(s: Seq<char>) -> bool {
    s.len() > 0 && forall|m: int| 0 <= m < s.len() ==> is_digit(#[trigger] s[m])
}

/// The value of a string of decimal digits, most significant first.
pub open spec fn digits_val(s: Seq<char>) -> int
    decreases s.len(),
{
    if s.len() == 0 {
        0
    } else {
        10 * digits_val(s.drop_last()) + digit_val(s.last())
    }
}

/// Decimal digits with an optional leading minus sign.
pub open spec fn is_int_token(s: Seq<char>) -> bool {
    if s.len() > 0 && s[0] == '-' {
        is_digits(s.skip(1))
    } else {
        is_digits(s)
    }
}

/// The signed value of an integer token.
pub open spec fn int_token_val(s: Seq<char>) -> int {
    if s.len() > 0 && s[0] == '-' {
        -digits_val(s.skip(1))
    } else {
        digits_val(s)
    }
}

/// An integer token whose value fits in an `i32`.
pub open spec fn is_i32_token(s: Seq<char>) -> bool {
    is_int_token(s) && i32::MIN as int <= int_token_val(s) <= i32::MAX as int
}

/// The index of the first comma of `s`, or `s.len()` if there is none.
pub open spec fn first_comma(s: Seq<char>) -> int
    decreases s.len(),
{
    if s.len() == 0 {
        0
    } else if s[0] == ',' {
        0
    } else {
        1 + first_comma(s.skip(1))
    }
}

/// A whole token of the exact shape `(<int>,<int>)`: parentheses around two
/// integer components separated by the first comma, each fitting in `i32`.
pub open spec fn is_coord_token(t: Seq<char>) -> bool {
    t.len() >= 2 && t[0] == '(' && t[t.len() - 1] == ')' && {
        let inner = t.subrange(1, t.len() - 1);
        let j = first_comma(inner);
        j < inner.len() && is_i32_token(inner.take(j)) && is_i32_token(inner.skip(j + 1))
    }
}

/// The coordinate pair a well-shaped token denotes.
pub open spec fn token_pair(t: Seq<char>) -> (i32, i32) {
    let inner = t.subrange(1, t.len() - 1);
    let j = first_comma(inner);
    (int_token_val(inner.take(j)) as i32, int_token_val(inner.skip(j + 1)) as i32)
}

/// Every whitespace-separated token of `s` is a well-shaped coordinate.
pub open spec fn parse_valid(s: Seq<char>) -> bool {
    forall|i: int| 0 <= i < tokens(s).len() ==> is_coord_token(#[trigger] tokens(s)[i])
}

/// The coordinate pairs of `s`, token by token, in order.
pub open spec fn parse_offsets(s: Seq<char>) -> Seq<(i32, i32)> {
    Seq::new(tokens(s).len(), |i: int| token_pair(tokens(s)[i]))
}

proof fn lemma_token_end_at(t: Seq<char>, e: int)
    requires
        0 <= e <= t.len(),
        forall|m: int| 0 <= m < e ==> !is_space(#[trigger] t[m]),
        e == t.len() || is_space(t[e]),
    ensures
        token_end(t) == e,
    decreases e,
{
    if e == 0 {
    } else {
        assert(!is_space(t[0]));
        assert forall|m: int| 0 <= m < e - 1 implies !is_space(#[trigger] t.skip(1)[m]) by {
            assert(t.skip(1)[m] == t[m + 1]);
        }
        if e < t.len() {
            assert(t.skip(1)[e - 1] == t[e]);
        }
        lemma_token_end_at(t.skip(1), e - 1);
    }
}

proof fn lemma_first_comma_at(t: Seq<char>, e: int)
    requires
        0 <= e <= t.len(),
        forall|m: int| 0 <= m < e ==> (#[trigger] t[m]) != ',',
        e == t.len() || t[e] == ',',
    ensures
        first_comma(t) == e,
    decreases e,
{
    if e == 0 {
    } else {
        assert(t[0] != ',');
        assert forall|m: int| 0 <= m < e - 1 implies (#[trigger] t.skip(1)[m]) != ',' by {
            assert(t.skip(1)[m] == t[m + 1]);
        }
        if e < t.len() {
            assert(t.skip(1)[e - 1] == t[e]);
        }
        lemma_first_comma_at(t.skip(1), e - 1);
    }
}

proof fn lemma_digits_val_nonneg(t: Seq<char>)
    requires
        forall|m: int| 0 <= m < t.len() ==> is_digit(#[trigger] t[m]),
    ensures
        digits_val(t) >= 0,
    decreases t.len(),
{
    if t.len() == 0 {
    } else {
        assert forall|m: int| 0 <= m < t.len() - 1 implies is_digit(#[trigger] t.drop_last()[m]) by {
            assert(t.drop_last()[m] == t[m]);
        }
        lemma_digits_val_nonneg(t.drop_last());
        assert(is_digit(t[t.len() - 1]));
    }
}

proof fn lemma_digits_val_prefix(t: Seq<char>, m: int)
    requires
        0 <= m <= t.len(),
        forall|k: int| 0 <= k < t.len() ==> is_digit(#[trigger] t[k]),
    ensures
        digits_val(t) >= digits_val(t.take(m)),
    decreases t.len(),
{
    if m == t.len() {
        assert(t.take(m) =~= t);
    } else {
        assert forall|k: int| 0 <= k < t.len() - 1 implies is_digit(#[trigger] t.drop_last()[k]) by {
            assert(t.drop_last()[k] == t[k]);
        }
        lemma_digits_val_prefix(t.drop_last(), m);
        lemma_digits_val_nonneg(t.drop_last());
        assert(t.drop_last().take(m) =~= t.take(m));
        assert(is_digit(t[t.len() - 1]));
    }
}

/// `true` exactly for the separator characters of the format.
fn is_space_char(c: char) -> (r: bool)
    ensures
        r == is_space(c),
{
    c == ' ' || c == '\t' || c == '\n' || c == '\r'
}

/// Parse the characters `lo..hi` of `s` as one signed `i32` component.
#[verifier::loop_isolation(false)]
fn parse_int(s: &str, lo: usize, hi: usize) -> (r: Option<i32>)
    requires
        lo <= hi <= s@.len(),
    ensures
        match r {
            Some(v) => is_i32_token(s@.subrange(lo as int, hi as int)) && v as int
                == int_token_val(s@.subrange(lo as int, hi as int)),
            None => !is_i32_token(s@.subrange(lo as int, hi as int)),
        },
{
    let ghost seg = s@.subrange(lo as int, hi as int);
    if lo == hi {
        return None;
    }
    let neg = s.get_char(lo) == '-';
    let start = if neg {
        lo + 1
    } else {
        lo
    };
    proof {
        if neg {
            assert(seg.skip(1) =~= s@.subrange(start as int, hi as int));
        } else {
            assert(seg =~= s@.subrange(start as int, hi as int));
        }
    }
    if start == hi {
        return None;
    }
    let ghost dig = s@.subrange(start as int, hi as int);
    let mut acc: u64 = 0;
    let mut p = start;
    while p < hi
        invariant
            start <= p <= hi <= s@.len(),
            dig == s@.subrange(start as int, hi as int),
            acc <= 2147483648,
            acc as int == digits_val(s@.subrange(start as int, p as int)),
            forall|m: int| start <= m < p ==> is_digit(#[trigger] s@[m]),
        decreases hi - p,
    {
        let c = s.get_char(p);
        let u = c as u32;
        if u < 48 || u > 57 {
            proof {
                assert(dig[p - start] == s@[p as int]);
                assert(!is_digits(dig));
            }
            return None;
        }
        let d: u64 = (u - 48) as u64;
        acc = acc * 10 + d;
        proof {
            let pre = s@.subrange(start as int, p as int);
            let pre1 = s@.subrange(start as int, p as int + 1);
            assert(pre1.drop_last() =~= pre);
            assert(pre1.last() == s@[p as int]);
            assert(digit_val(s@[p as int]) == d as int);
            assert(digits_val(pre1) == acc as int);
        }
        if acc > 2147483648 {
            proof {
                let pre1 = s@.subrange(start as int, p as int + 1);
                if is_digits(dig) {
                    lemma_digits_val_prefix(dig, p as int + 1 - start as int);
                    assert(dig.take(p as int + 1 - start as int) =~= pre1);
                    assert(digits_val(dig) >= digits_val(pre1));
                    assert(int_token_val(seg) == if neg {
                        -digits_val(dig)
                    } else {
                        digits_val(dig)
                    });
                }
                assert(!is_i32_token(seg));
            }
            return None;
        }
        p += 1;
    }
    proof {
        assert(dig =~= s@.subrange(start as int, p as int));
        assert forall|k: int| 0 <= k < dig.len() implies is_digit(#[trigger] dig[k]) by {
            assert(dig[k] == s@[start + k]);
        }
        assert(is_digits(dig));
        lemma_digits_val_nonneg(dig);
        assert(digits_val(dig) == acc as int);
        assert(is_int_token(seg));
        assert(int_token_val(seg) == if neg {
            -(acc as int)
        } else {
            acc as int
        });
    }
    if neg {
        assert(seg[0] == '-');
        if acc == 2147483648 {
            Some(i32::MIN)
        } else {
            Some(-(acc as i32))
        }
    } else {
        if acc > 2147483647 {
            return None;
        }
        Some(acc as i32)
    }
}

/// Parse the characters `i..j` of `s` as one `(<int>,<int>)` token.
fn parse_coord(s: &str, i: usize, j: usize) -> (r: Option<(i32, i32)>)
    requires
        i < j <= s@.len(),
    ensures
        match r {
            Some(p) => is_coord_token(s@.subrange(i as int, j as int)) && p == token_pair(
                s@.subrange(i as int, j as int),
            ),
            None => !is_coord_token(s@.subrange(i as int, j as int)),
        },
{
    let ghost t = s@.subrange(i as int, j as int);
    if j - i < 2 {
        return None;
    }
    if s.get_char(i) != '(' {
        assert(t[0] == s@[i as int]);
        return None;
    }
    if s.get_char(j - 1) != ')' {
        assert(t[t.len() - 1] == s@[j as int - 1]);
        return None;
    }
    let ghost inner = t.subrange(1, t.len() - 1);
    proof {
        assert(inner =~= s@.subrange(i as int + 1, j as int - 1));
    }
    let mut p = i + 1;
    while p < j - 1 && s.get_char(p) != ','
        invariant
            i + 1 <= p <= j - 1,
            j <= s@.len(),
            forall|m: int| i + 1 <= m < p ==> (#[trigger] s@[m]) != ',',
        decreases j - p,
    {
        p += 1;
    }
    proof {
        assert forall|m: int| 0 <= m < p - (i + 1) implies (#[trigger] inner[m]) != ',' by {
            assert(inner[m] == s@[i + 1 + m]);
        }
        if p < j - 1 {
            assert(inner[p - (i + 1)] == s@[p as int]);
        }
        lemma_first_comma_at(inner, p as int - (i as int + 1));
    }
    if p == j - 1 {
        return None;
    }
    proof {
        assert(inner.take(p as int - (i as int + 1)) =~= s@.subrange(i as int + 1, p as int));
        assert(inner.skip(p as int - (i as int + 1) + 1) =~= s@.subrange(
            p as int + 1,
            j as int - 1,
        ));
    }
    let a = match parse_int(s, i + 1, p) {
        Some(v) => v,
        None => {
            return None;
        },
    };
    let b = match parse_int(s, p + 1, j - 1) {
        Some(v) => v,
        None => {
            return None;
        },
    };
    Some((a, b))
}

impl Object {
    /// Whether one of the first `n` offsets, translated to the anchor
    /// `(ax, ay)`, lands on `(x, y)`.
    pub open spec fn covers_among(self, n: int, ax: int, ay: int, x: int, y: int) -> bool
        decreases n,
    {
        if n <= 0 {
            false
        } else {
            (ax + self.offsets@[n - 1].0 == x && ay + self.offsets@[n - 1].1 == y)
                || self.covers_among(n - 1, ax, ay, x, y)
        }
    }

    /// Whether some offset of the object, translated to the anchor
    /// `(ax, ay)`, lands on `(x, y)`.
    pub open spec fn covers(self, ax: int, ay: int, x: int, y: int) -> bool {
        self.covers_among(self.offsets@.len() as int, ax, ay, x, y)
    }

    /// Parse a whitespace-separated list of `(<int>,<int>)` coordinate
    /// pairs into an object. Succeeds, with the pairs in input order, if
    /// and only if every token matches that shape; any malformed token
    /// fails the whole parse and no partial object is returned.
    pub fn from_string(s: &str) -> (r: Result<Object, ParseError>)
        ensures
            match r {
                Ok(obj) => parse_valid(s@) && obj.offsets@ == parse_offsets(s@),
                Err(_) => !parse_valid(s@),
            },
    {
        let len = s.unicode_len();
        let mut offsets: Vec<(i32, i32)> = Vec::new();
        let ghost mut done: Seq<Seq<char>> = Seq::empty();
        proof {
            assert(s@.subrange(0, len as int) =~= s@);
            assert(tokens(s@) =~= done + tokens(s@.subrange(0, len as int)));
        }
        let mut i: usize = 0;
        while i < len
            invariant
                i <= len,
                len == s@.len(),
                tokens(s@) == done + tokens(s@.subrange(i as int, len as int)),
                offsets@.len() == done.len(),
                forall|m: int| 0 <= m < done.len() ==> is_coord_token(#[trigger] done[m]),
                forall|m: int| 0 <= m < done.len() ==> offsets@[m] == token_pair(
                    #[trigger] done[m],
                ),
            decreases len - i,
        {
            let ghost rest = s@.subrange(i as int, len as int);
            let c = s.get_char(i);
            if is_space_char(c) {
                proof {
                    assert(rest[0] == s@[i as int]);
                    assert(rest.skip(1) =~= s@.subrange(i as int + 1, len as int));
                }
                i += 1;
            } else {
                let mut j = i + 1;
                while j < len && !is_space_char(s.get_char(j))
                    invariant
                        i < j <= len,
                        len == s@.len(),
                        forall|m: int| i <= m < j ==> !is_space(#[trigger] s@[m]),
                    decreases len - j,
                {
                    j += 1;
                }
                proof {
                    assert forall|m: int| 0 <= m < j - i implies !is_space(#[trigger] rest[m]) by {
                        assert(rest[m] == s@[i + m]);
                    }
                    if j < len {
                        assert(rest[j - i] == s@[j as int]);
                    }
                    lemma_token_end_at(rest, j as int - i as int);
                    assert(rest.take(j as int - i as int) =~= s@.subrange(i as int, j as int));
                    assert(rest.skip(j as int - i as int) =~= s@.subrange(j as int, len as int));
                }
                let ghost tok = s@.subrange(i as int, j as int);
                match parse_coord(s, i, j) {
                    Some(pair) => {
                        offsets.push(pair);
                        proof {
                            let tail = tokens(s@.subrange(j as int, len as int));
                            assert(tokens(rest) == seq![tok] + tail);
                            assert(done + (seq![tok] + tail) =~= done.push(tok) + tail);
                            done = done.push(tok);
                        }
                        i = j;
                    },
                    None => {
                        proof {
                            let tail = tokens(s@.subrange(j as int, len as int));
                            assert(tokens(rest) == seq![tok] + tail);
                            assert(tokens(s@)[done.len() as int] == tok);
                        }
                        return Err(ParseError);
                    },
                }
            }
        }
        proof {
            assert(s@.subrange(len as int, len as int) =~= Seq::<char>::empty());
            assert(tokens(s@) =~= done);
            assert(offsets@ =~= parse_offsets(s@));
        }
        Ok(Object { offsets })
    }
}

} // verus!
