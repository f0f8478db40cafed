//! The statement front end: splitting an input line into whitespace-bounded
//! tokens, reading a `u32` id, and validating the field lengths of an
//! `insert`. What each diagnostic means is pinned down over the token
//! sequence of the input.

use vstd::prelude::*;
use vstd::utf8::encode_utf8;
use vstd::string::{StrSliceExecFns, StringExecFns};
use crate::layout::{USERNAME_MAX_BYTES, EMAIL_MAX_BYTES};
use crate::row::Row;

verus! {

pub enum Statement {
    Insert(Row),
    Select,
}

pub enum PrepareResultError {
    SyntaxError,
    NegativeID,
    StringTooLong,
    UnrecognizedStatement,
}

/// A character with the Unicode `White_Space` property, the set
/// `str::split_whitespace` splits on.
pub open spec fn is_ws_char(c: char) -> bool {
    let u = c as u32;
    ||| u == 0x20
    ||| (0x9 <= u <= 0xD)
    ||| u == 0x85
    ||| u == 0xA0
    ||| u == 0x1680
    ||| (0x2000 <= u <= 0x200A)
    ||| u == 0x2028
    ||| u == 0x2029
    ||| u == 0x202F
    ||| u == 0x205F
    ||| u == 0x3000
}

fn is_whitespace_char(c: char) -> (r: bool)
    ensures
        r == is_ws_char(c),
{
    let u = c as u32;
    u == 0x20 || (0x9 <= u && u <= 0xD) || u == 0x85 || u == 0xA0 || u == 0x1680 || (0x2000 <= u
        && u <= 0x200A) || u == 0x2028 || u == 0x2029 || u == 0x202F || u == 0x205F || u == 0x3000
}

/// Length of the whitespace-free run at the head of `s`.
pub open spec fn token_len(s: Seq<char>) -> nat
    decreases s.len(),
{
    if s.len() == 0 || is_ws_char(s[0]) {
        0
    } else {
        1 + token_len(s.drop_first())
    }
}

proof fn lemma_token_len_le(s: Seq<char>)
    ensures
        token_len(s) <= s.len(),
    decreases s.len(),
{
    if s.len() > 0 && !is_ws_char(s[0]) {
        lemma_token_len_le(s.drop_first());
    }
}

/// The whitespace-bounded tokens of `s`, in order.
pub open spec fn tokens_of(s: Seq<char>) -> Seq<Seq<char>>
    decreases s.len(),
    via tokens_of_decreases
{
    if s.len() == 0 {
        Seq::empty()
    } else if is_ws_char(s[0]) {
        tokens_of(s.drop_first())
    } else {
        seq![s.take(token_len(s) as int)] + tokens_of(s.skip(token_len(s) as int))
    }
}

#[via_fn]
proof fn tokens_of_decreases(s: Seq<char>) {
    lemma_token_len_le(s);
}

proof fn lemma_token_len_value(u: Seq<char>, e: int)
    requires
        0 <= e <= u.len(),
        forall|k: int| 0 <= k < e ==> !is_ws_char(u[k]),
        e < u.len() ==> is_ws_char(u[e]),
    ensures
        token_len(u) == e,
    decreases u.len(),
{
    if e > 0 {
        lemma_token_len_value(u.drop_first(), e - 1);
    }
}

pub open spec fn dec_digit(c: char) -> bool {
    0x30 <= c as u32 <= 0x39
}

/// The value of a string of decimal digits.
pub open spec fn digits_val(s: Seq<char>) -> int
    decreases s.len(),
{
    if s.len() == 0 {
        0
    } else {
        digits_val(s.drop_last()) * 10 + (s.last() as u32 - 0x30)
    }
}

/// The digits after an optional leading plus sign.
pub open spec fn numeral_body(s: Seq<char>) -> Seq<char> {
    if s.len() > 0 && s[0] == '+' {
        s.drop_first()
    } else {
        s
    }
}

/// What `u32::from_str` accepts: an optional plus sign, then at least one
/// decimal digit, with a value that fits.
pub open spec fn is_u32_numeral(s: Seq<char>) -> bool {
    let d = numeral_body(s);
    &&& d.len() > 0
    &&& (forall|i: int| 0 <= i < d.len() ==> dec_digit(#[trigger] d[i]))
    &&& digits_val(d) <= u32::MAX
}

pub open spec fn u32_numeral_value(s: Seq<char>) -> int {
    digits_val(numeral_body(s))
}

proof fn lemma_digits_val_nonneg(s: Seq<char>)
    requires
        forall|i: int| 0 <= i < s.len() ==> dec_digit(#[trigger] s[i]),
    ensures
        digits_val(s) >= 0,
    decreases s.len(),
{
    if s.len() > 0 {
        assert(forall|i: int|
            0 <= i < s.drop_last().len() ==> dec_digit(#[trigger] s.drop_last()[i]));
        lemma_digits_val_nonneg(s.drop_last());
    }
}

proof fn lemma_digits_val_prefix(s: Seq<char>, k: int)
    requires
        forall|i: int| 0 <= i < s.len() ==> dec_digit(#[trigger] s[i]),
        0 <= k <= s.len(),
    ensures
        digits_val(s.take(k)) <= digits_val(s),
    decreases s.len() - k,
{
    if k < s.len() {
        lemma_digits_val_prefix(s, k + 1);
        assert(s.take(k + 1).drop_last() =~= s.take(k));
        assert(forall|i: int| 0 <= i < s.take(k).len() ==> dec_digit(#[trigger] s.take(k)[i]));
        lemma_digits_val_nonneg(s.take(k));
        assert(digits_val(s.take(k + 1)) == digits_val(s.take(k)) * 10 + (s[k] as u32 - 0x30));
    } else {
        assert(s.take(k) =~= s);
    }
}

/// Reads a `u32` the way `str::parse::<u32>` does on the accepted shapes:
/// `Some` exactly on a fitting numeral, with its value.
fn parse_u32_token(tok: &str) -> (r: Option<u32>)
    ensures
        r matches Some(v) ==> is_u32_numeral(tok@) && v == u32_numeral_value(tok@),
        r is None ==> !is_u32_numeral(tok@),
{
    let n = tok.unicode_len();
    let ghost d = numeral_body(tok@);
    let mut start: usize = 0;
    if n > 0 && tok.get_char(0) == '+' {
        start = 1;
    }
    proof {
        assert(d =~= tok@.subrange(start as int, n as int));
    }
    if start >= n {
        return None;
    }
    let mut value: u64 = 0;
    let mut i: usize = start;
    while i < n
        invariant
            n == tok@.len(),
            start <= i <= n,
            start < n,
            d == numeral_body(tok@),
            d == tok@.subrange(start as int, n as int),
            value <= u32::MAX,
            forall|k: int| 0 <= k < i - start ==> dec_digit(#[trigger] d[k]),
            value == digits_val(d.take(i - start)),
        decreases n - i,
    {
        let c = tok.get_char(i);
        let u = c as u32;
        if u < 0x30 || u > 0x39 {
            proof {
                assert(d[i - start] == tok@[i as int]);
                assert(!dec_digit(d[i - start]));
            }
            return None;
        }
        let digit = (u - 0x30) as u64;
        value = value * 10 + digit;
        proof {
            assert(d.take(i - start + 1).drop_last() =~= d.take(i - start));
            assert(d.take(i - start + 1).last() == d[i - start]);
            assert(d[i - start] == tok@[i as int]);
        }
        if value > u32::MAX as u64 {
            proof {
                assert(digits_val(d.take(i - start + 1)) > u32::MAX);
                if is_u32_numeral(tok@) {
                    lemma_digits_val_prefix(d, i - start + 1);
                    assert(false);
                }
            }
            return None;
        }
        i = i + 1;
    }
    proof {
        assert(d.take(n - start) =~= d);
    }
    Some(value as u32)
}

/// Splits the input into its whitespace-bounded tokens.
fn tokenize(input: &str) -> (tokens: Vec<String>)
    ensures
        tokens@.map_values(|t: String| t@) == tokens_of(input@),
{
    let n = input.unicode_len();
    let mut tokens: Vec<String> = Vec::new();
    let mut i: usize = 0;
    proof {
        assert(input@.skip(0) =~= input@);
        assert(tokens@.map_values(|t: String| t@) =~= Seq::<Seq<char>>::empty());
    }
    while i < n
        invariant
            n == input@.len(),
            i <= n,
            tokens@.map_values(|t: String| t@) + tokens_of(input@.skip(i as int)) == tokens_of(
                input@,
            ),
        decreases n - i,
    {
        let c = input.get_char(i);
        if is_whitespace_char(c) {
            proof {
                assert(input@.skip(i as int).drop_first() =~= input@.skip(i + 1));
            }
            i = i + 1;
        } else {
            let mut j: usize = i + 1;
            while j < n
                invariant
                    n == input@.len(),
                    i < j <= n,
                    forall|k: int| i <= k < j ==> !is_ws_char(#[trigger] input@[k]),
                ensures
                    j < n ==> is_ws_char(input@[j as int]),
                decreases n - j,
            {
                if is_whitespace_char(input.get_char(j)) {
                    break;
                }
                j = j + 1;
            }
            let token = input.substring_char(i, j).to_owned();
            proof {
                let rest = input@.skip(i as int);
                assert forall|k: int| 0 <= k < j - i implies !is_ws_char(#[trigger] rest[k]) by {
                    assert(rest[k] == input@[i + k]);
                }
                if j < n {
                    assert(rest[j - i] == input@[j as int]);
                }
                lemma_token_len_value(rest, j - i);
                assert(rest.take(j - i) =~= input@.subrange(i as int, j as int));
                assert(rest.skip(j - i) =~= input@.skip(j as int));
                assert(tokens_of(rest) == seq![input@.subrange(i as int, j as int)] + tokens_of(
                    input@.skip(j as int),
                ));
                assert((tokens@.push(token)).map_values(|t: String| t@) =~= tokens@.map_values(
                    |t: String| t@,
                ).push(token@));
                assert(tokens@.map_values(|t: String| t@).push(token@) + tokens_of(
                    input@.skip(j as int),
                ) =~= tokens@.map_values(|t: String| t@) + tokens_of(rest));
            }
            tokens.push(token);
            i = j;
        }
    }
    proof {
        assert(input@.skip(n as int) =~= Seq::<char>::empty());
        assert(tokens_of(input@.skip(n as int)) =~= Seq::<Seq<char>>::empty());
        assert(tokens@.map_values(|t: String| t@) =~= tokens@.map_values(|t: String| t@)
            + tokens_of(input@.skip(n as int)));
    }
    tokens
}

/// What `prepare_insert` promises, over the tokens of the input line.
pub open spec fn prepare_insert_post(
    input: Seq<char>,
    r: Result<Statement, PrepareResultError>,
) -> bool {
    let ts = tokens_of(input);
    match r {
        Ok(stmt) => {
            &&& stmt matches Statement::Insert(row) && ts.len() >= 4 && is_u32_numeral(ts[1])
                && row.id == u32_numeral_value(ts[1]) && row.username@ == ts[2] && row.email@
                == ts[3] && encode_utf8(ts[2]).len() <= USERNAME_MAX_BYTES && encode_utf8(
                ts[3],
            ).len() <= EMAIL_MAX_BYTES
        },
        Err(e) => match e {
            PrepareResultError::SyntaxError => ts.len() < 4 || (!is_u32_numeral(ts[1]) && !(
            ts[1].len() > 0 && ts[1][0] == '-')),
            PrepareResultError::NegativeID => ts.len() >= 4 && !is_u32_numeral(ts[1])
                && ts[1].len() > 0 && ts[1][0] == '-',
            PrepareResultError::StringTooLong => ts.len() >= 4 && is_u32_numeral(ts[1]) && (
            encode_utf8(ts[2]).len() > USERNAME_MAX_BYTES || (encode_utf8(ts[2]).len()
                <= USERNAME_MAX_BYTES && encode_utf8(ts[3]).len() > EMAIL_MAX_BYTES)),
            PrepareResultError::UnrecognizedStatement => false,
        },
    }
}

/// Builds the `insert` statement from an input line: token 1 is the id,
/// token 2 the username, token 3 the email, each validated.
pub fn prepare_insert(input_buffer: &String) -> (r: Result<Statement, PrepareResultError>)
    ensures
        prepare_insert_post(input_buffer@, r),
{
    let tokens = tokenize(input_buffer.as_str());
    proof {
        assert(tokens@.map_values(|t: String| t@).len() == tokens@.len());
    }
    if tokens.len() < 4 {
        return Err(PrepareResultError::SyntaxError);
    }
    proof {
        assert(tokens@.map_values(|t: String| t@)[1] == tokens@[1]@);
        assert(tokens@.map_values(|t: String| t@)[2] == tokens@[2]@);
        assert(tokens@.map_values(|t: String| t@)[3] == tokens@[3]@);
    }
    let id = match parse_u32_token(tokens[1].as_str()) {
        Some(id) => id,
        None => {
            let t1 = &tokens[1];
            if t1.as_str().unicode_len() > 0 && t1.as_str().get_char(0) == '-' {
                return Err(PrepareResultError::NegativeID);
            }
            return Err(PrepareResultError::SyntaxError);
        },
    };
    let username = tokens[2].clone();
    let username_bytes = username.as_str().as_bytes_vec();
    if username_bytes.len() > USERNAME_MAX_BYTES {
        return Err(PrepareResultError::StringTooLong);
    }
    let email = tokens[3].clone();
    let email_bytes = email.as_str().as_bytes_vec();
    if email_bytes.len() > EMAIL_MAX_BYTES {
        return Err(PrepareResultError::StringTooLong);
    }
    Ok(Statement::Insert(Row { id, username, email }))
}

pub open spec fn starts_with_spec(s: Seq<char>, p: Seq<char>) -> bool {
    s.len() >= p.len() && s.subrange(0, p.len() as int) == p
}

fn str_starts_with(s: &str, p: &str) -> (r: bool)
    ensures
        r == starts_with_spec(s@, p@),
{
    let n = p.unicode_len();
    if s.unicode_len() < n {
        return false;
    }
    let mut i: usize = 0;
    while i < n
        invariant
            n == p@.len(),
            s@.len() >= n,
            i <= n,
            forall|k: int| 0 <= k < i ==> s@[k] == p@[k],
        decreases n - i,
    {
        if s.get_char(i) != p.get_char(i) {
            proof {
                assert(s@.subrange(0, n as int)[i as int] != p@[i as int]);
            }
            return false;
        }
        i = i + 1;
    }
    proof {
        assert(s@.subrange(0, n as int) =~= p@);
    }
    true
}

/// Classifies an input line: a `select`, an `insert` handed to
/// `prepare_insert`, or an unrecognized statement.
pub fn prepare_statement(input_buffer: &String) -> (r: Result<Statement, PrepareResultError>)
    ensures
        starts_with_spec(input_buffer@, "select"@) ==> r matches Ok(Statement::Select),
        !starts_with_spec(input_buffer@, "select"@) && starts_with_spec(input_buffer@, "insert"@)
            ==> prepare_insert_post(input_buffer@, r),
        !starts_with_spec(input_buffer@, "select"@) && !starts_with_spec(input_buffer@, "insert"@)
            ==> r matches Err(PrepareResultError::UnrecognizedStatement),
{
    if str_starts_with(input_buffer.as_str(), "select") {
        return Ok(Statement::Select);
    }
    if str_starts_with(input_buffer.as_str(), "insert") {
        return prepare_insert(input_buffer);
    }
    Err(PrepareResultError::UnrecognizedStatement)
}

} // verus!
