//! The row codec: fixed-size serialization of a `(id, username, email)` row
//! to and from a 293-byte span. The id is little-endian at offset 0; each
//! string field is its UTF-8 bytes zero-padded to the field's capacity, read
//! back by scanning to the first zero byte or the field bound.

use vstd::prelude::*;
use vstd::bytes::{spec_u32_from_le_bytes, spec_u32_to_le_bytes};
use vstd::utf8::{encode_utf8, decode_utf8, valid_utf8};
use vstd::string::StrSliceExecFns;
use crate::layout::{
    ROW_SIZE, ID_SIZE, USERNAME_OFFSET, USERNAME_SIZE, EMAIL_OFFSET, EMAIL_SIZE,
    USERNAME_MAX_BYTES, EMAIL_MAX_BYTES, lemma_subrange_frame,
};
use crate::bytes_le::{read_u32_at, write_u32_at};

verus! {

#[derive(Debug)]
pub struct Row {
    pub id: u32,
    pub username: String,
    pub email: String,
}

/// `n` zero bytes.
pub open spec fn zero_bytes(n: int) -> Seq<u8> {
    Seq::new(n as nat, |i: int| 0u8)
}

/// A byte field zero-padded to its capacity.
pub open spec fn pad_field(b: Seq<u8>, cap: int) -> Seq<u8>
    recommends
        b.len() <= cap,
{
    b + zero_bytes(cap - b.len())
}

/// Both string fields fit their on-disk capacity.
pub open spec fn row_fits(username: Seq<char>, email: Seq<char>) -> bool {
    encode_utf8(username).len() <= USERNAME_MAX_BYTES && encode_utf8(email).len()
        <= EMAIL_MAX_BYTES
}

/// The 293-byte on-disk image of a row.
pub open spec fn spec_row_bytes(id: u32, username: Seq<char>, email: Seq<char>) -> Seq<u8>
    recommends
        row_fits(username, email),
{
    spec_u32_to_le_bytes(id) + pad_field(encode_utf8(username), USERNAME_SIZE as int) + pad_field(
        encode_utf8(email),
        EMAIL_SIZE as int,
    )
}

/// The stored string fields of a 293-byte row image decode as UTF-8.
pub open spec fn row_image_valid(b: Seq<u8>) -> bool
    recommends
        b.len() == ROW_SIZE,
{
    valid_utf8(field_bytes(b, USERNAME_OFFSET as int, USERNAME_SIZE as int)) && valid_utf8(
        field_bytes(b, EMAIL_OFFSET as int, EMAIL_SIZE as int),
    )
}

/// The row a 293-byte image decodes to: id, username, email.
pub open spec fn spec_row_of(b: Seq<u8>) -> (u32, Seq<char>, Seq<char>)
    recommends
        b.len() == ROW_SIZE,
        row_image_valid(b),
{
    (
        spec_u32_from_le_bytes(b.subrange(0, ID_SIZE as int)),
        decode_utf8(field_bytes(b, USERNAME_OFFSET as int, USERNAME_SIZE as int)),
        decode_utf8(field_bytes(b, EMAIL_OFFSET as int, EMAIL_SIZE as int)),
    )
}

/// Number of bytes a field scan covers: up to the first zero byte after
/// `pos`, or `cap` if none comes earlier.
pub open spec fn scan_len(b: Seq<u8>, pos: int, cap: int) -> int
    recommends
        0 <= pos,
        pos + cap <= b.len(),
    decreases cap,
{
    if cap <= 0 {
        0
    } else if b[pos] == 0 {
        0
    } else {
        1 + scan_len(b, pos + 1, cap - 1)
    }
}

/// The bytes a field scan recovers.
pub open spec fn field_bytes(b: Seq<u8>, pos: int, cap: int) -> Seq<u8>
    recommends
        0 <= pos,
        pos + cap <= b.len(),
{
    b.subrange(pos, pos + scan_len(b, pos, cap))
}

pub proof fn lemma_scan_len_bounds(b: Seq<u8>, pos: int, cap: int)
    requires
        0 <= pos,
        0 <= cap,
        pos + cap <= b.len(),
    ensures
        0 <= scan_len(b, pos, cap) <= cap,
    decreases cap,
{
    if cap > 0 && b[pos] != 0 {
        lemma_scan_len_bounds(b, pos + 1, cap - 1);
    }
}

/// The scan stops exactly at `e` when every byte before `e` is nonzero and
/// `e` is a zero byte or the bound.
pub proof fn lemma_scan_len_value(b: Seq<u8>, pos: int, cap: int, e: int)
    requires
        0 <= pos <= e <= pos + cap,
        pos + cap <= b.len(),
        forall|j: int| pos <= j < e ==> b[j] != 0,
        e < pos + cap ==> b[e] == 0,
    ensures
        scan_len(b, pos, cap) == e - pos,
    decreases cap,
{
    if cap <= 0 {
    } else if e == pos {
    } else {
        lemma_scan_len_value(b, pos + 1, cap - 1, e);
    }
}

/// A sequence of characters none of which is the NUL character encodes to
/// bytes none of which is zero.
pub proof fn lemma_encode_utf8_no_zero_byte(s: Seq<char>)
    requires
        forall|i: int| 0 <= i < s.len() ==> (#[trigger] s[i]) as u32 != 0,
    ensures
        forall|j: int|
            0 <= j < encode_utf8(s).len() ==> (#[trigger] encode_utf8(s)[j]) != 0,
    decreases s.len(),
{
    if s.len() > 0 {
        let c = s[0] as u32;
        vstd::utf8::char_is_scalar(s[0]);
        assert(c != 0);
        assert(c <= 0x7F ==> (c & 0x7F) == c) by (bit_vector);
        assert(forall|x: u32| (0xC0u8 | (x & 0x1F) as u8) != 0) by (bit_vector);
        assert(forall|x: u32| (0xE0u8 | (x & 0x0F) as u8) != 0) by (bit_vector);
        assert(forall|x: u32| (0xF0u8 | (x & 0x7) as u8) != 0) by (bit_vector);
        assert(forall|x: u32| (0x80u8 | (x & 0x3F) as u8) != 0) by (bit_vector);
        assert(forall|j: int|
            0 <= j < vstd::utf8::encode_scalar(c).len() ==> (#[trigger] vstd::utf8::encode_scalar(
                c,
            )[j]) != 0);
        lemma_encode_utf8_no_zero_byte(s.drop_first());
        assert forall|j: int|
            0 <= j < encode_utf8(s).len() implies (#[trigger] encode_utf8(s)[j]) != 0 by {
            let head = vstd::utf8::encode_scalar(c);
            let tail = encode_utf8(s.drop_first());
            assert(encode_utf8(s) == head + tail);
            if j < head.len() {
                assert(encode_utf8(s)[j] == head[j]);
            } else {
                assert(encode_utf8(s)[j] == tail[j - head.len()]);
            }
        }
    }
}

/// Relies on `String::from_utf8`: it succeeds exactly on valid UTF-8 input,
/// and the string it returns decodes those bytes.
#[verifier::external_body]
fn string_from_utf8(bytes: Vec<u8>) -> (r: Option<String>)
    ensures
        r matches Some(s) ==> valid_utf8(bytes@) && s@ == decode_utf8(bytes@),
        r is None ==> !valid_utf8(bytes@),
{
    match String::from_utf8(bytes) {
        Ok(s) => Some(s),
        Err(_) => None,
    }
}

impl Row {
    /// Writes the UTF-8 bytes of `s` at `pos`, zero-padded to `length`.
    pub fn write_string(buf: &mut Vec<u8>, pos: usize, s: &str, length: usize)
        requires
            pos + length <= old(buf)@.len(),
            encode_utf8(s@).len() <= length,
        ensures
            final(buf)@.len() == old(buf)@.len(),
            forall|j: int|
                0 <= j < old(buf)@.len() && !(pos <= j < pos + length) ==> final(buf)@[j] == old(
                    buf,
                )@[j],
            final(buf)@.subrange(pos as int, pos + length) == pad_field(
                encode_utf8(s@),
                length as int,
            ),
    {
        let buf_len: usize = buf.len();
        let bytes = s.as_bytes_vec();
        let n = bytes.len();
        let mut i: usize = 0;
        while i < n
            invariant
                buf@.len() == buf_len,
                pos + length <= buf_len,
                buf@.len() == old(buf)@.len(),
                n == bytes@.len(),
                n <= length,
                bytes@ == encode_utf8(s@),
                i <= n,
                forall|j: int|
                    0 <= j < buf@.len() && !(pos <= j < pos + i) ==> buf@[j] == old(buf)@[j],
                forall|j: int| 0 <= j < i ==> buf@[pos + j] == bytes@[j],
            decreases n - i,
        {
            buf.set(pos + i, bytes[i]);
            i = i + 1;
        }
        while i < length
            invariant
                buf@.len() == buf_len,
                pos + length <= buf_len,
                buf@.len() == old(buf)@.len(),
                n == bytes@.len(),
                n <= length,
                bytes@ == encode_utf8(s@),
                n <= i <= length,
                forall|j: int|
                    0 <= j < buf@.len() && !(pos <= j < pos + i) ==> buf@[j] == old(buf)@[j],
                forall|j: int| 0 <= j < n ==> buf@[pos + j] == bytes@[j],
                forall|j: int| n <= j < i ==> #[trigger] buf@[pos + j] == 0,
            decreases length - i,
        {
            buf.set(pos + i, 0);
            i = i + 1;
        }
        proof {
            let padded = pad_field(encode_utf8(s@), length as int);
            assert(padded.len() == length);
            assert forall|j: int|
                0 <= j < length implies buf@.subrange(pos as int, pos + length)[j]
                == padded[j] by {
                assert(buf@.subrange(pos as int, pos + length)[j] == buf@[pos + j]);
                if j < n {
                    assert(buf@[pos + j] == bytes@[j]);
                    assert(padded[j] == bytes@[j]);
                } else {
                    assert(buf@[pos + j] == 0);
                    assert(padded[j] == zero_bytes(length - n)[j - n]);
                }
            }
            assert(buf@.subrange(pos as int, pos + length) =~= padded);
        }
    }

    /// Recovers the string stored at `pos`: bytes up to the first zero or
    /// the bound `length`, decoded as UTF-8. `None` when those bytes are
    /// not valid UTF-8.
    pub fn read_string(buf: &Vec<u8>, pos: usize, length: usize) -> (r: Option<String>)
        requires
            pos + length <= buf@.len(),
        ensures
            r matches Some(s) ==> valid_utf8(field_bytes(buf@, pos as int, length as int)) && s@
                == decode_utf8(field_bytes(buf@, pos as int, length as int)),
            r is None ==> !valid_utf8(field_bytes(buf@, pos as int, length as int)),
    {
        let buf_len: usize = buf.len();
        let mut end: usize = pos;
        while end - pos < length && buf[end] != 0
            invariant
                buf@.len() == buf_len,
                pos + length <= buf_len,
                pos <= end <= pos + length,
                forall|j: int| pos <= j < end ==> buf@[j] != 0,
            decreases pos + length - end,
        {
            end = end + 1;
        }
        proof {
            lemma_scan_len_value(buf@, pos as int, length as int, end as int);
        }
        let mut bytes: Vec<u8> = Vec::new();
        let mut i: usize = pos;
        while i < end
            invariant
                pos <= i <= end,
                end <= buf@.len(),
                bytes@.len() == i - pos,
                forall|j: int| 0 <= j < i - pos ==> bytes@[j] == buf@[pos + j],
            decreases end - i,
        {
            bytes.push(buf[i]);
            i = i + 1;
        }
        proof {
            assert(bytes@ =~= field_bytes(buf@, pos as int, length as int));
        }
        string_from_utf8(bytes)
    }

    /// The 293-byte image of a row whose fields fit their capacities.
    pub fn serialize(row: &Row) -> (buf: Vec<u8>)
        requires
            row_fits(row.username@, row.email@),
        ensures
            buf@ == spec_row_bytes(row.id, row.username@, row.email@),
            buf@.len() == ROW_SIZE,
    {
        let mut buf: Vec<u8> = vec![0u8; ROW_SIZE];
        write_u32_at(&mut buf, 0, row.id);
        let ghost after_id = buf@;
        Row::write_string(&mut buf, USERNAME_OFFSET, row.username.as_str(), USERNAME_SIZE);
        let ghost after_username = buf@;
        Row::write_string(&mut buf, EMAIL_OFFSET, row.email.as_str(), EMAIL_SIZE);
        proof {
            vstd::bytes::lemma_auto_spec_u32_to_from_le_bytes();
            lemma_subrange_frame(buf@, after_username, 0, EMAIL_OFFSET as int);
            lemma_subrange_frame(after_username, after_id, 0, ID_SIZE as int);
            assert(buf@.subrange(0, ID_SIZE as int) == spec_u32_to_le_bytes(row.id));
            assert(buf@.subrange(USERNAME_OFFSET as int, EMAIL_OFFSET as int) == pad_field(
                encode_utf8(row.username@),
                USERNAME_SIZE as int,
            ));
            assert(buf@ =~= spec_row_bytes(row.id, row.username@, row.email@));
        }
        buf
    }

    /// `serialize` behind a run-time capacity test: `None` exactly when one
    /// of the string fields is over its on-disk capacity.
    pub fn try_serialize(row: &Row) -> (r: Option<Vec<u8>>)
        ensures
            r matches Some(b) ==> row_fits(row.username@, row.email@) && b@ == spec_row_bytes(
                row.id,
                row.username@,
                row.email@,
            ),
            r is None ==> !row_fits(row.username@, row.email@),
    {
        let username_bytes = row.username.as_str().as_bytes_vec();
        let email_bytes = row.email.as_str().as_bytes_vec();
        if username_bytes.len() <= USERNAME_MAX_BYTES && email_bytes.len() <= EMAIL_MAX_BYTES {
            Some(Row::serialize(row))
        } else {
            None
        }
    }

    /// Reads the row image stored at `pos`: the id, then the two string
    /// fields. `None` when a string field holds invalid UTF-8 (the schema
    /// forbids it, but a database file can).
    pub fn deserialize(buf: &Vec<u8>, pos: usize) -> (r: Option<Row>)
        requires
            pos + ROW_SIZE <= buf@.len(),
        ensures
            r matches Some(row) ==> {
                &&& valid_utf8(field_bytes(buf@, pos + USERNAME_OFFSET, USERNAME_SIZE as int))
                &&& valid_utf8(field_bytes(buf@, pos + EMAIL_OFFSET, EMAIL_SIZE as int))
                &&& row.id == spec_u32_from_le_bytes(buf@.subrange(pos as int, pos + ID_SIZE))
                &&& row.username@ == decode_utf8(
                    field_bytes(buf@, pos + USERNAME_OFFSET, USERNAME_SIZE as int),
                )
                &&& row.email@ == decode_utf8(
                    field_bytes(buf@, pos + EMAIL_OFFSET, EMAIL_SIZE as int),
                )
            },
            r is None ==> !(valid_utf8(
                field_bytes(buf@, pos + USERNAME_OFFSET, USERNAME_SIZE as int),
            ) && valid_utf8(field_bytes(buf@, pos + EMAIL_OFFSET, EMAIL_SIZE as int))),
    {
        let buf_len: usize = buf.len();
        proof {
            assert(pos + EMAIL_OFFSET + EMAIL_SIZE <= buf_len);
        }
        let id = read_u32_at(buf, pos);
        let username_opt = Row::read_string(buf, pos + USERNAME_OFFSET, USERNAME_SIZE);
        let email_opt = Row::read_string(buf, pos + EMAIL_OFFSET, EMAIL_SIZE);
        match (username_opt, email_opt) {
            (Some(username), Some(email)) => Some(Row { id, username, email }),
            _ => None,
        }
    }
}

/// A row image written by `serialize` always scans and decodes back to the
/// row it came from, as long as neither string holds the NUL character.
pub proof fn lemma_row_bytes_round_trip(id: u32, username: Seq<char>, email: Seq<char>)
    requires
        row_fits(username, email),
        forall|i: int| 0 <= i < username.len() ==> (#[trigger] username[i]) as u32 != 0,
        forall|i: int| 0 <= i < email.len() ==> (#[trigger] email[i]) as u32 != 0,
    ensures
        ({
            let b = spec_row_bytes(id, username, email);
            &&& field_bytes(b, USERNAME_OFFSET as int, USERNAME_SIZE as int) == encode_utf8(
                username,
            )
            &&& field_bytes(b, EMAIL_OFFSET as int, EMAIL_SIZE as int) == encode_utf8(email)
            &&& valid_utf8(field_bytes(b, USERNAME_OFFSET as int, USERNAME_SIZE as int))
            &&& valid_utf8(field_bytes(b, EMAIL_OFFSET as int, EMAIL_SIZE as int))
            &&& spec_u32_from_le_bytes(b.subrange(0, ID_SIZE as int)) == id
            &&& decode_utf8(field_bytes(b, USERNAME_OFFSET as int, USERNAME_SIZE as int))
                == username
            &&& decode_utf8(field_bytes(b, EMAIL_OFFSET as int, EMAIL_SIZE as int)) == email
        }),
{
    vstd::bytes::lemma_auto_spec_u32_to_from_le_bytes();
    let b = spec_row_bytes(id, username, email);
    let u = encode_utf8(username);
    let e = encode_utf8(email);
    lemma_encode_utf8_no_zero_byte(username);
    lemma_encode_utf8_no_zero_byte(email);
    assert(b.subrange(0, ID_SIZE as int) =~= spec_u32_to_le_bytes(id));
    assert forall|j: int| USERNAME_OFFSET <= j < USERNAME_OFFSET + u.len() implies b[j] != 0 by {
        assert(b[j] == u[j - USERNAME_OFFSET]);
    }
    assert(b[USERNAME_OFFSET + u.len()] == 0);
    lemma_scan_len_value(
        b,
        USERNAME_OFFSET as int,
        USERNAME_SIZE as int,
        USERNAME_OFFSET + u.len(),
    );
    assert(field_bytes(b, USERNAME_OFFSET as int, USERNAME_SIZE as int) =~= u);
    assert forall|j: int| EMAIL_OFFSET <= j < EMAIL_OFFSET + e.len() implies b[j] != 0 by {
        assert(b[j] == e[j - EMAIL_OFFSET]);
    }
    assert(b[EMAIL_OFFSET + e.len()] == 0);
    lemma_scan_len_value(b, EMAIL_OFFSET as int, EMAIL_SIZE as int, EMAIL_OFFSET + e.len());
    assert(field_bytes(b, EMAIL_OFFSET as int, EMAIL_SIZE as int) =~= e);
    vstd::utf8::encode_utf8_valid_utf8(username);
    vstd::utf8::encode_utf8_valid_utf8(email);
    vstd::utf8::encode_utf8_decode_utf8(username);
    vstd::utf8::encode_utf8_decode_utf8(email);
}

proof fn lemma_scan_len_le_zero(b: Seq<u8>, pos: int, cap: int, e: int)
    requires
        0 <= pos <= e < pos + cap,
        pos + cap <= b.len(),
        b[e] == 0,
    ensures
        scan_len(b, pos, cap) <= e - pos,
    decreases cap,
{
    if pos < e && b[pos] != 0 {
        lemma_scan_len_le_zero(b, pos + 1, cap - 1, e);
    }
}

proof fn lemma_scan_len_nonzero(b: Seq<u8>, pos: int, cap: int)
    requires
        0 <= pos,
        0 <= cap,
        pos + cap <= b.len(),
    ensures
        forall|j: int| 0 <= j < scan_len(b, pos, cap) ==> #[trigger] b[pos + j] != 0,
    decreases cap,
{
    if cap > 0 && b[pos] != 0 {
        lemma_scan_len_nonzero(b, pos + 1, cap - 1);
        assert forall|j: int| 0 <= j < scan_len(b, pos, cap) implies #[trigger] b[pos + j]
            != 0 by {
            if j > 0 {
                assert(b[(pos + 1) + (j - 1)] != 0);
            }
        }
    }
}

proof fn lemma_scan_len_stop(b: Seq<u8>, pos: int, cap: int)
    requires
        0 <= pos,
        0 <= cap,
        pos + cap <= b.len(),
    ensures
        scan_len(b, pos, cap) == cap || b[pos + scan_len(b, pos, cap)] == 0,
    decreases cap,
{
    if cap > 0 && b[pos] != 0 {
        lemma_scan_len_stop(b, pos + 1, cap - 1);
    }
}

/// What a field scan recovers from a padded UTF-8 field is a prefix of the
/// encoding cut at a character boundary, hence valid UTF-8.
proof fn lemma_padded_field_scan_valid(b: Seq<u8>, pos: int, cap: int, s: Seq<char>)
    requires
        0 <= pos,
        0 <= cap,
        pos + cap <= b.len(),
        encode_utf8(s).len() < cap,
        b.subrange(pos, pos + cap) == pad_field(encode_utf8(s), cap),
    ensures
        valid_utf8(field_bytes(b, pos, cap)),
{
    let u = encode_utf8(s);
    let n = u.len() as int;
    assert forall|j: int| 0 <= j < cap implies b[pos + j] == pad_field(u, cap)[j] by {
        assert(b.subrange(pos, pos + cap)[j] == b[pos + j]);
    }
    assert(pad_field(u, cap)[n] == zero_bytes(cap - n)[0]);
    assert(zero_bytes(cap - n)[0] == 0u8);
    assert(b[pos + n] == 0);
    lemma_scan_len_le_zero(b, pos, cap, pos + n);
    lemma_scan_len_bounds(b, pos, cap);
    let sl = scan_len(b, pos, cap);
    assert(0 <= sl <= n);
    assert(field_bytes(b, pos, cap) =~= u.subrange(0, sl));
    vstd::utf8::encode_utf8_valid_utf8(s);
    if sl == n {
        assert(u.subrange(0, sl) =~= u);
    } else {
        lemma_scan_len_stop(b, pos, cap);
        assert(b[pos + sl] == 0);
        assert(pad_field(u, cap)[sl] == u[sl]);
        assert(u[sl] == 0);
        assert(!vstd::utf8::is_continuation_byte(u[sl]));
        vstd::utf8::is_char_boundary_iff_not_is_continuation_byte(u, sl);
        vstd::utf8::valid_utf8_split(u, sl);
    }
}

/// Every row image that `serialize` can produce scans and decodes back:
/// stored rows are always readable.
pub proof fn lemma_row_bytes_image_valid(id: u32, username: Seq<char>, email: Seq<char>)
    requires
        row_fits(username, email),
    ensures
        row_image_valid(spec_row_bytes(id, username, email)),
        spec_row_bytes(id, username, email).len() == ROW_SIZE,
{
    vstd::bytes::lemma_auto_spec_u32_to_from_le_bytes();
    let b = spec_row_bytes(id, username, email);
    assert(b.subrange(USERNAME_OFFSET as int, USERNAME_OFFSET + USERNAME_SIZE) =~= pad_field(
        encode_utf8(username),
        USERNAME_SIZE as int,
    ));
    lemma_padded_field_scan_valid(b, USERNAME_OFFSET as int, USERNAME_SIZE as int, username);
    assert(b.subrange(EMAIL_OFFSET as int, EMAIL_OFFSET + EMAIL_SIZE) =~= pad_field(
        encode_utf8(email),
        EMAIL_SIZE as int,
    ));
    lemma_padded_field_scan_valid(b, EMAIL_OFFSET as int, EMAIL_SIZE as int, email);
}

} // verus!
