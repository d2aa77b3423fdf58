//! The entry parser: turns one dictionary source line into a validated
//! `(key, pronunciation)` record, skips lines that are structurally not
//! entries, and rejects corrupt ones.
//!
//! A line has the shape `<key> ":" <pronunciation tokens...> ["#" comment]`.
//! A line without exactly one `:`, or whose trimmed key begins with `#`, is
//! silently skipped. The key may be a `U+<hex>` codepoint reference, which
//! is decoded; a malformed reference, an empty key or an empty pronunciation
//! is a fatal parse error.

use vstd::prelude::*;
use crate::text::{
    char_hex_digit_val,
    char_is_hex_digit,
    char_is_ws,
    count_char,
    find_char,
    hex_digit_val,
    is_hex_digit,
    is_ws,
    lemma_find_char_at,
    push_char,
    string_from_range,
    subvec,
};
use crate::text::chars_vec;

verus! {

/// Why a line was rejected as corrupt dictionary source.
#[derive(Clone, Copy, Debug, PartialEq, Eq, Structural)]
pub enum ParseError {
    /// A `U+<hex>` key with invalid hex digits or an unassignable codepoint.
    BadCodepoint,
    /// The key is empty after trimming.
    EmptyKey,
    /// The pronunciation is empty after comment stripping and trimming.
    EmptyPronunciation,
}

/// The number of leading whitespace characters of `s`.
pub open spec fn ws_prefix_len(s: Seq<char>) -> int
    decreases s.len(),
{
    if s.len() == 0 || !is_ws(s[0]) {
        0
    } else {
        1 + ws_prefix_len(s.drop_first())
    }
}

/// The number of trailing whitespace characters of `s`.
pub open spec fn ws_suffix_len(s: Seq<char>) -> int
    decreases s.len(),
{
    if s.len() == 0 || !is_ws(s.last()) {
        0
    } else {
        1 + ws_suffix_len(s.drop_last())
    }
}

/// The number of leading non-whitespace characters of `s`.
pub open spec fn non_ws_prefix_len(s: Seq<char>) -> int
    decreases s.len(),
{
    if s.len() == 0 || is_ws(s[0]) {
        0
    } else {
        1 + non_ws_prefix_len(s.drop_first())
    }
}

proof fn lemma_ws_prefix_bounds(s: Seq<char>)
    ensures
        0 <= ws_prefix_len(s) <= s.len(),
        forall|m: int| 0 <= m < ws_prefix_len(s) ==> is_ws(s[m]),
        ws_prefix_len(s) < s.len() ==> !is_ws(s[ws_prefix_len(s)]),
    decreases s.len(),
{
    if s.len() == 0 || !is_ws(s[0]) {
    } else {
        lemma_ws_prefix_bounds(s.drop_first());
        assert forall|m: int| 0 <= m < ws_prefix_len(s) implies is_ws(s[m]) by {
            if m > 0 {
                assert(is_ws(s.drop_first()[m - 1]));
            }
        }
    }
}

proof fn lemma_ws_prefix_at(s: Seq<char>, j: int)
    requires
        0 <= j <= s.len(),
        forall|m: int| 0 <= m < j ==> is_ws(s[m]),
        j < s.len() ==> !is_ws(s[j]),
    ensures
        ws_prefix_len(s) == j,
    decreases j,
{
    if j == 0 {
    } else {
        assert(is_ws(s[0]));
        assert forall|m: int| 0 <= m < j - 1 implies is_ws(s.drop_first()[m]) by {
            assert(is_ws(s[m + 1]));
        }
        lemma_ws_prefix_at(s.drop_first(), j - 1);
    }
}

proof fn lemma_ws_suffix_at(s: Seq<char>, j: int)
    requires
        0 <= j <= s.len(),
        forall|m: int| s.len() - j <= m < s.len() ==> is_ws(s[m]),
        j < s.len() ==> !is_ws(s[s.len() - j - 1]),
    ensures
        ws_suffix_len(s) == j,
    decreases j,
{
    if j == 0 {
    } else {
        assert(is_ws(s.last()));
        assert forall|m: int|
            s.drop_last().len() - (j - 1) <= m < s.drop_last().len() implies is_ws(
            s.drop_last()[m],
        ) by {
            assert(is_ws(s[m]));
        }
        lemma_ws_suffix_at(s.drop_last(), j - 1);
    }
}

proof fn lemma_non_ws_prefix_bounds(s: Seq<char>)
    ensures
        0 <= non_ws_prefix_len(s) <= s.len(),
        forall|m: int| 0 <= m < non_ws_prefix_len(s) ==> !is_ws(s[m]),
        non_ws_prefix_len(s) < s.len() ==> is_ws(s[non_ws_prefix_len(s)]),
    decreases s.len(),
{
    if s.len() == 0 || is_ws(s[0]) {
    } else {
        lemma_non_ws_prefix_bounds(s.drop_first());
        assert forall|m: int| 0 <= m < non_ws_prefix_len(s) implies !is_ws(s[m]) by {
            if m > 0 {
                assert(!is_ws(s.drop_first()[m - 1]));
            }
        }
    }
}

proof fn lemma_non_ws_prefix_at(s: Seq<char>, j: int)
    requires
        0 <= j <= s.len(),
        forall|m: int| 0 <= m < j ==> !is_ws(s[m]),
        j < s.len() ==> is_ws(s[j]),
    ensures
        non_ws_prefix_len(s) == j,
    decreases j,
{
    if j == 0 {
    } else {
        assert(!is_ws(s[0]));
        assert forall|m: int| 0 <= m < j - 1 implies !is_ws(s.drop_first()[m]) by {
            assert(!is_ws(s[m + 1]));
        }
        lemma_non_ws_prefix_at(s.drop_first(), j - 1);
    }
}

/// `s` without leading and trailing whitespace.
pub open spec fn trim_spec(s: Seq<char>) -> Seq<char> {
    let t = s.subrange(ws_prefix_len(s), s.len() as int);
    t.subrange(0, t.len() - ws_suffix_len(t))
}

/// The whitespace-separated tokens of `s`, in order.
pub open spec fn tokens_of(s: Seq<char>) -> Seq<Seq<char>>
    decreases s.len(),
    via tokens_of_decreases
{
    let a = ws_prefix_len(s);
    if a >= s.len() {
        Seq::empty()
    } else {
        let t = s.subrange(a, s.len() as int);
        let m = non_ws_prefix_len(t);
        seq![t.subrange(0, m)] + tokens_of(t.subrange(m, t.len() as int))
    }
}

#[via_fn]
proof fn tokens_of_decreases(s: Seq<char>) {
    lemma_ws_prefix_bounds(s);
    let a = ws_prefix_len(s);
    if a < s.len() {
        let t = s.subrange(a, s.len() as int);
        lemma_non_ws_prefix_bounds(t);
        assert(!is_ws(t[0]));
    }
}

/// Skipping one leading whitespace character does not change the tokens.
proof fn lemma_tokens_skip_ws(s: Seq<char>)
    requires
        s.len() > 0,
        is_ws(s[0]),
    ensures
        tokens_of(s) == tokens_of(s.drop_first()),
{
    lemma_ws_prefix_bounds(s);
    lemma_ws_prefix_bounds(s.drop_first());
    let d = s.drop_first();
    assert(ws_prefix_len(s) == 1 + ws_prefix_len(d));
    if ws_prefix_len(s) >= s.len() {
    } else {
        let t = s.subrange(ws_prefix_len(s), s.len() as int);
        let t2 = d.subrange(ws_prefix_len(d), d.len() as int);
        assert(t =~= t2);
    }
}

/// A token beginning a non-whitespace run: the tokens are that run and the
/// tokens of the rest.
proof fn lemma_tokens_step(s: Seq<char>)
    requires
        s.len() > 0,
        !is_ws(s[0]),
    ensures
        tokens_of(s) == seq![s.subrange(0, non_ws_prefix_len(s))] + tokens_of(
            s.subrange(non_ws_prefix_len(s), s.len() as int),
        ),
{
    lemma_ws_prefix_at(s, 0);
    let t = s.subrange(0, s.len() as int);
    assert(t =~= s);
}

/// A token that begins a trailing comment.
pub open spec fn is_comment_tok(t: Seq<char>) -> bool {
    t.len() > 0 && t[0] == '#'
}

/// The index of the first comment token, or the token count when none is.
pub open spec fn comment_idx(toks: Seq<Seq<char>>) -> int
    decreases toks.len(),
{
    if toks.len() == 0 {
        0
    } else if is_comment_tok(toks[0]) {
        0
    } else {
        1 + comment_idx(toks.drop_first())
    }
}

proof fn lemma_comment_idx_at(toks: Seq<Seq<char>>, j: int)
    requires
        0 <= j <= toks.len(),
        forall|m: int| 0 <= m < j ==> !is_comment_tok(toks[m]),
        j < toks.len() ==> is_comment_tok(toks[j]),
    ensures
        comment_idx(toks) == j,
    decreases j,
{
    if j == 0 {
    } else {
        assert(!is_comment_tok(toks[0]));
        assert forall|m: int| 0 <= m < j - 1 implies !is_comment_tok(toks.drop_first()[m]) by {
            assert(!is_comment_tok(toks[m + 1]));
        }
        lemma_comment_idx_at(toks.drop_first(), j - 1);
    }
}

/// The tokens joined with single spaces.
pub open spec fn join_tokens(toks: Seq<Seq<char>>) -> Seq<char>
    decreases toks.len(),
{
    if toks.len() == 0 {
        Seq::empty()
    } else if toks.len() == 1 {
        toks[0]
    } else {
        join_tokens(toks.drop_last()) + seq![' '] + toks.last()
    }
}

/// Every character of `s` is a hex digit.
pub open spec fn all_hex(s: Seq<char>) -> bool {
    forall|m: int| 0 <= m < s.len() ==> #[trigger] is_hex_digit(s[m])
}

/// The value of `s` read as a hexadecimal numeral.
pub open spec fn hex_val_of(s: Seq<char>) -> int
    decreases s.len(),
{
    if s.len() == 0 {
        0
    } else {
        16 * hex_val_of(s.drop_last()) + hex_digit_val(s.last())
    }
}

proof fn lemma_hex_val_nonneg(s: Seq<char>)
    ensures
        hex_val_of(s) >= 0,
    decreases s.len(),
{
    if s.len() > 0 {
        lemma_hex_val_nonneg(s.drop_last());
    }
}

/// A numeral is at least as large as any of its prefixes.
proof fn lemma_hex_val_prefix(s: Seq<char>, i: int)
    requires
        0 <= i <= s.len(),
    ensures
        hex_val_of(s.subrange(0, i)) <= hex_val_of(s),
    decreases s.len(),
{
    if i == s.len() {
        assert(s.subrange(0, i) =~= s);
    } else {
        lemma_hex_val_nonneg(s.drop_last());
        lemma_hex_val_prefix(s.drop_last(), i);
        assert(s.drop_last().subrange(0, i) =~= s.subrange(0, i));
    }
}

/// A Unicode scalar value: a codepoint that denotes a character.
pub open spec fn valid_scalar(v: int) -> bool {
    0 <= v && (v < 0xD800 || (0xE000 <= v && v <= 0x10FFFF))
}

/// The pronunciation of a line's right-hand side: its whitespace tokens up
/// to (and excluding) the first comment token, joined with single spaces.
pub open spec fn pron_spec(right: Seq<char>) -> Seq<char> {
    let toks = tokens_of(right);
    join_tokens(toks.subrange(0, comment_idx(toks)))
}

/// The record for a validated key and a raw right-hand side: a fatal error
/// when the pronunciation is empty, the pair otherwise.
pub open spec fn finish_spec(key: Seq<char>, right: Seq<char>) -> Result<
    Option<(Seq<char>, Seq<char>)>,
    ParseError,
> {
    let p = pron_spec(right);
    if p.len() == 0 {
        Err(ParseError::EmptyPronunciation)
    } else {
        Ok(Some((key, p)))
    }
}

/// What `parse` returns on a line: nothing for a line that is structurally
/// not an entry, a fatal error for a corrupt one, the record otherwise.
pub open spec fn parse_spec(line: Seq<char>) -> Result<
    Option<(Seq<char>, Seq<char>)>,
    ParseError,
> {
    if count_char(line, ':') != 1 {
        Ok(None)
    } else {
        let ci = find_char(line, ':');
        let left = trim_spec(line.subrange(0, ci));
        let right = line.subrange(ci + 1, line.len() as int);
        if left.len() > 0 && left[0] == '#' {
            Ok(None)
        } else if left.len() >= 2 && left[0] == 'U' && left[1] == '+' {
            let hex = left.subrange(2, left.len() as int);
            if hex.len() == 0 || !all_hex(hex) {
                Err(ParseError::BadCodepoint)
            } else if !valid_scalar(hex_val_of(hex)) {
                Err(ParseError::BadCodepoint)
            } else {
                finish_spec(seq![(hex_val_of(hex) as u32) as char], right)
            }
        } else if left.len() == 0 {
            Err(ParseError::EmptyKey)
        } else {
            finish_spec(left, right)
        }
    }
}

/// Parser skip rule: every line without exactly one `:`-split, and every
/// line whose trimmed key begins with the comment marker, parses to nothing
/// rather than to a record or an error.
pub proof fn lemma_parser_skip(line: Seq<char>)
    requires
        count_char(line, ':') != 1 || ({
            let left = trim_spec(line.subrange(0, find_char(line, ':')));
            left.len() > 0 && left[0] == '#'
        }),
    ensures
        parse_spec(line) == Ok::<Option<(Seq<char>, Seq<char>)>, ParseError>(None),
{
}

/// The view of a parse result, record strings replaced by their characters.
pub open spec fn parse_res_view(r: Result<Option<(String, String)>, ParseError>) -> Result<
    Option<(Seq<char>, Seq<char>)>,
    ParseError,
> {
    match r {
        Ok(None) => Ok(None),
        Ok(Some(p)) => Ok(Some((p.0@, p.1@))),
        Err(e) => Err(e),
    }
}

/// Relies on `char::from_u32`: it returns the character with the given
/// scalar value exactly when the value is not a surrogate and is at most
/// 0x10FFFF.
#[verifier::external_body]
fn char_from_u32(v: u32) -> (r: Option<char>)
    ensures
        r is Some <==> (v < 0xD800 || (0xE000 <= v && v <= 0x10FFFF)),
        (r matches Some(c) ==> c as u32 == v),
{
    char::from_u32(v)
}

/// The trimmed bounds of `line[from..to]`: whitespace is dropped from both
/// ends.
fn trim_range(line: &Vec<char>, from: usize, to: usize) -> (r: (usize, usize))
    requires
        from <= to <= line@.len(),
    ensures
        from <= r.0 <= r.1 <= to,
        line@.subrange(r.0 as int, r.1 as int) == trim_spec(
            line@.subrange(from as int, to as int),
        ),
{
    let mut a: usize = from;
    let mut stop: bool = false;
    while !stop && a < to
        invariant
            from <= a <= to <= line@.len(),
            forall|m: int| from <= m < a ==> is_ws(line@[m]),
            stop ==> a < to && !is_ws(line@[a as int]),
        decreases to - a + (if stop { 0int } else { 1int }),
    {
        if char_is_ws(line[a]) {
            a += 1;
        } else {
            stop = true;
        }
    }
    let mut b: usize = to;
    let mut stop2: bool = false;
    while !stop2 && b > a
        invariant
            from <= a <= b <= to <= line@.len(),
            stop ==> a < to && !is_ws(line@[a as int]),
            !stop ==> a == to,
            forall|m: int| b <= m < to ==> is_ws(line@[m]),
            stop2 ==> b > a && !is_ws(line@[b - 1]),
        decreases b + (if stop2 { 0int } else { 1int }),
    {
        if char_is_ws(line[b - 1]) {
            b -= 1;
        } else {
            stop2 = true;
        }
    }
    proof {
        let s = line@.subrange(from as int, to as int);
        assert forall|m: int| 0 <= m < a - from implies is_ws(s[m]) by {
            assert(is_ws(line@[from + m]));
        }
        assert(a - from < s.len() ==> !is_ws(s[a - from]));
        lemma_ws_prefix_at(s, a - from);
        let t = s.subrange(a - from, s.len() as int);
        assert(t =~= line@.subrange(a as int, to as int));
        assert forall|m: int| t.len() - (to - b) <= m < t.len() implies is_ws(t[m]) by {
            assert(t[m] == line@[a + m]);
            assert(a + m >= b);
        }
        if to - b < t.len() {
            assert(t[t.len() - (to - b) - 1] == line@[b - 1]);
            assert(b > a);
        }
        lemma_ws_suffix_at(t, to - b);
        assert(trim_spec(s) =~= line@.subrange(a as int, b as int));
    }
    (a, b)
}

/// The whitespace-separated tokens of `s`, as vectors of characters.
fn tokens_exec(s: &Vec<char>) -> (r: Vec<Vec<char>>)
    ensures
        r@.map_values(|t: Vec<char>| t@) == tokens_of(s@),
{
    let n: usize = s.len();
    let mut out: Vec<Vec<char>> = Vec::new();
    let mut i: usize = 0;
    proof {
        assert(s@.subrange(0, n as int) =~= s@);
        assert(out@.map_values(|t: Vec<char>| t@) + tokens_of(s@) =~= tokens_of(s@));
    }
    while i < n
        invariant
            i <= n,
            n == s@.len(),
            tokens_of(s@) == out@.map_values(|t: Vec<char>| t@) + tokens_of(
                s@.subrange(i as int, n as int),
            ),
        decreases n - i,
    {
        let ghost pre = out@.map_values(|t: Vec<char>| t@);
        if char_is_ws(s[i]) {
            proof {
                let t = s@.subrange(i as int, n as int);
                lemma_tokens_skip_ws(t);
                assert(t.drop_first() =~= s@.subrange(i + 1, n as int));
            }
            i += 1;
        } else {
            let mut j: usize = i + 1;
            let mut stop: bool = false;
            while !stop && j < n
                invariant
                    i < j <= n,
                    n == s@.len(),
                    forall|m: int| i <= m < j ==> !is_ws(s@[m]),
                    stop ==> j < n && is_ws(s@[j as int]),
                decreases n - j + (if stop { 0int } else { 1int }),
            {
                if char_is_ws(s[j]) {
                    stop = true;
                } else {
                    j += 1;
                }
            }
            let tok = subvec(s, i, j);
            out.push(tok);
            proof {
                let t = s@.subrange(i as int, n as int);
                assert forall|m: int| 0 <= m < j - i implies !is_ws(t[m]) by {
                    assert(t[m] == s@[i + m]);
                }
                assert(j - i < t.len() ==> is_ws(t[j - i]));
                lemma_non_ws_prefix_at(t, j - i);
                lemma_tokens_step(t);
                assert(t.subrange(0, j - i) =~= s@.subrange(i as int, j as int));
                assert(t.subrange(j - i, t.len() as int) =~= s@.subrange(j as int, n as int));
                assert(out@.map_values(|t2: Vec<char>| t2@) =~= pre.push(
                    s@.subrange(i as int, j as int),
                ));
                assert(pre.push(s@.subrange(i as int, j as int)) + tokens_of(
                    s@.subrange(j as int, n as int),
                ) =~= pre + (seq![s@.subrange(i as int, j as int)] + tokens_of(
                    s@.subrange(j as int, n as int),
                )));
            }
            i = j;
        }
    }
    proof {
        assert(tokens_of(s@.subrange(n as int, n as int)) =~= Seq::<Seq<char>>::empty());
        assert(out@.map_values(|t: Vec<char>| t@) + Seq::<Seq<char>>::empty() =~= out@.map_values(
            |t: Vec<char>| t@,
        ));
    }
    out
}

/// Builds the record for an already validated key from the right-hand side
/// of the line, the part after the colon.
fn finish_record(key: String, line: &Vec<char>, ci: usize) -> (r: Result<
    Option<(String, String)>,
    ParseError,
>)
    requires
        ci < line@.len(),
    ensures
        parse_res_view(r) == finish_spec(key@, line@.subrange(ci + 1, line@.len() as int)),
{
    let llen: usize = line.len();
    let rvec = subvec(line, ci + 1, llen);
    let toks = tokens_exec(&rvec);
    let ghost toksv = toks@.map_values(|t: Vec<char>| t@);
    let mut t: usize = 0;
    let mut stop: bool = false;
    while !stop && t < toks.len()
        invariant
            t <= toks@.len(),
            toksv == toks@.map_values(|t2: Vec<char>| t2@),
            forall|m: int| 0 <= m < t ==> !is_comment_tok(toksv[m]),
            stop ==> t < toks@.len() && is_comment_tok(toksv[t as int]),
        decreases toks@.len() - t + (if stop { 0int } else { 1int }),
    {
        let tk = &toks[t];
        if tk.len() > 0 && tk[0] == '#' {
            stop = true;
        } else {
            t += 1;
        }
    }
    proof {
        lemma_comment_idx_at(toksv, t as int);
    }
    let mut pron: Vec<char> = Vec::new();
    let mut m2: usize = 0;
    while m2 < t
        invariant
            m2 <= t <= toks@.len(),
            toksv == toks@.map_values(|t2: Vec<char>| t2@),
            pron@ == join_tokens(toksv.subrange(0, m2 as int)),
        decreases t - m2,
    {
        let ghost base = pron@;
        if m2 > 0 {
            pron.push(' ');
        }
        let ghost mid = pron@;
        let mut q: usize = 0;
        let tklen: usize = toks[m2].len();
        while q < tklen
            invariant
                m2 < toks@.len(),
                toksv == toks@.map_values(|t2: Vec<char>| t2@),
                tklen == toksv[m2 as int].len(),
                q <= tklen,
                pron@ == mid + toksv[m2 as int].subrange(0, q as int),
            decreases tklen - q,
        {
            pron.push(toks[m2][q]);
            proof {
                assert(toksv[m2 as int] == toks@[m2 as int]@);
                assert(mid + toksv[m2 as int].subrange(0, q as int) + seq![
                    toksv[m2 as int][q as int],
                ] =~= mid + toksv[m2 as int].subrange(0, q + 1));
            }
            q += 1;
        }
        proof {
            assert(toksv[m2 as int].subrange(0, tklen as int) =~= toksv[m2 as int]);
            let sub1 = toksv.subrange(0, m2 + 1);
            assert(sub1.drop_last() =~= toksv.subrange(0, m2 as int));
            assert(sub1.last() == toksv[m2 as int]);
            if m2 == 0 {
                assert(pron@ =~= join_tokens(sub1));
            } else {
                assert(pron@ =~= join_tokens(sub1.drop_last()) + seq![' '] + sub1.last());
            }
        }
        m2 += 1;
    }
    proof {
        assert(line@.subrange(ci + 1, line@.len() as int) == rvec@);
    }
    if pron.len() == 0 {
        Err(ParseError::EmptyPronunciation)
    } else {
        let p = string_from_range(&pron, 0, pron.len());
        proof {
            assert(pron@.subrange(0, pron@.len() as int) =~= pron@);
        }
        Ok(Some((key, p)))
    }
}

/// Parses one dictionary source line given as its character vector.
pub fn parse_chars(line: &Vec<char>) -> (r: Result<Option<(String, String)>, ParseError>)
    ensures
        parse_res_view(r) == parse_spec(line@),
{
    let n: usize = line.len();
    let mut cnt: usize = 0;
    let mut ci: usize = 0;
    let mut i: usize = 0;
    while i < n
        invariant
            i <= n,
            n == line@.len(),
            cnt <= i,
            cnt == count_char(line@.subrange(0, i as int), ':'),
            cnt > 0 ==> (ci < i && line@[ci as int] == ':' && forall|m: int|
                0 <= m < ci ==> line@[m] != ':'),
            cnt == 0 ==> forall|m: int| 0 <= m < i ==> line@[m] != ':',
        decreases n - i,
    {
        proof {
            assert(line@.subrange(0, i + 1).drop_last() =~= line@.subrange(0, i as int));
        }
        if line[i] == ':' {
            if cnt == 0 {
                ci = i;
            }
            cnt += 1;
        }
        i += 1;
    }
    proof {
        assert(line@.subrange(0, n as int) =~= line@);
    }
    if cnt != 1 {
        return Ok(None);
    }
    proof {
        lemma_find_char_at(line@, ':', ci as int);
    }
    let (a, b) = trim_range(line, 0, ci);
    let ghost left = trim_spec(line@.subrange(0, ci as int));
    if b > a && line[a] == '#' {
        return Ok(None);
    }
    if b - a >= 2 && line[a] == 'U' && line[a + 1] == '+' {
        let ghost hex = left.subrange(2, left.len() as int);
        proof {
            assert(hex =~= line@.subrange(a + 2, b as int));
        }
        if a + 2 == b {
            return Err(ParseError::BadCodepoint);
        }
        let mut acc: u32 = 0;
        let mut m: usize = a + 2;
        while m < b
            invariant
                a + 2 <= m <= b <= ci < n,
                n == line@.len(),
                count_char(line@, ':') == 1,
                find_char(line@, ':') == ci as int,
                left == trim_spec(line@.subrange(0, ci as int)),
                left == line@.subrange(a as int, b as int),
                line@[a as int] == 'U',
                line@[a + 1] == '+',
                hex == left.subrange(2, left.len() as int),
                hex == line@.subrange(a + 2, b as int),
                forall|k: int| a + 2 <= k < m ==> is_hex_digit(line@[k]),
                acc == hex_val_of(line@.subrange(a + 2, m as int)),
                acc <= 0x10FFFF,
            decreases b - m,
        {
            let c: char = line[m];
            if !char_is_hex_digit(c) {
                proof {
                    assert(hex[m - (a + 2)] == line@[m as int]);
                    assert(!all_hex(hex));
                }
                return Err(ParseError::BadCodepoint);
            }
            let d: u32 = char_hex_digit_val(c);
            let next: u32 = acc * 16 + d;
            proof {
                assert(line@.subrange(a + 2, m + 1).drop_last() =~= line@.subrange(
                    a + 2,
                    m as int,
                ));
                assert(line@.subrange(a + 2, m + 1).last() == line@[m as int]);
            }
            if next > 0x10FFFF {
                proof {
                    assert(hex.subrange(0, m + 1 - (a + 2)) =~= line@.subrange(a + 2, m + 1));
                    lemma_hex_val_prefix(hex, m + 1 - (a + 2));
                }
                return Err(ParseError::BadCodepoint);
            }
            acc = next;
            m += 1;
        }
        proof {
            assert(line@.subrange(a + 2, b as int) == hex);
            assert forall|k: int| 0 <= k < hex.len() implies #[trigger] is_hex_digit(hex[k]) by {
                assert(hex[k] == line@[a + 2 + k]);
            }
        }
        if 0xD800 <= acc && acc <= 0xDFFF {
            return Err(ParseError::BadCodepoint);
        }
        match char_from_u32(acc) {
            Some(c) => {
                let mut key = String::new();
                push_char(&mut key, c);
                proof {
                    vstd::utf8::char_u32_cast(c, acc);
                    assert(key@ =~= seq![(hex_val_of(hex) as u32) as char]);
                }
                finish_record(key, line, ci)
            },
            None => {
                proof {
                    assert(false);
                }
                Err(ParseError::BadCodepoint)
            },
        }
    } else if b == a {
        Err(ParseError::EmptyKey)
    } else {
        let key = string_from_range(line, a, b);
        finish_record(key, line, ci)
    }
}

/// Parses one dictionary source line into a validated record, if the line
/// is one: the line is split on its single `:`, the key is trimmed and a
/// `U+<hex>` key decoded, the pronunciation tokens are joined up to the
/// first comment token.
pub fn parse(line: &str) -> (r: Result<Option<(String, String)>, ParseError>)
    ensures
        parse_res_view(r) == parse_spec(line@),
{
    let chars = chars_vec(line);
    parse_chars(&chars)
}

} // verus!
