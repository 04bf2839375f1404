//! The statement layer: turns a text command into a typed insert or select
//! request for the storage core.

use vstd::prelude::*;

verus! {

use vstd::slice::{slice_index_get, slice_subrange, slice_to_vec};
use vstd::string::StringSliceAdditionalSpecFns;
use vstd::utf8::encode_utf8;
use crate::storage::{pad_bytes, spec_pad, Row, EMAIL_LENGTH, USERNAME_LENGTH};

/// A typed request against the table: either a fully built row to insert,
/// or a full-table scan.
pub enum Statement {
    Insert { row_to_insert: Row },
    Select,
}

/// Why a text line could not be turned into a statement.
#[derive(Debug)]
pub enum PrepareError {
    /// The line neither starts with the insert keyword nor is the select
    /// keyword; carries the offending line.
    UnrecognizedStatement(String),
    /// An insert line with fewer than three arguments after the keyword.
    NotEnoughArguments,
    /// The id argument is not a decimal 32-bit unsigned integer.
    ParseError,
    /// The username or email argument exceeds its fixed width.
    ArgumentTooLong,
}

/// The ASCII whitespace bytes, as `split_ascii_whitespace` separates on.
pub open spec fn is_ws(b: u8) -> bool {
    b == 32 || b == 9 || b == 10 || b == 13 || b == 12
}

/// Length of the longest whitespace-free prefix of `s`.
pub open spec fn nonws_len(s: Seq<u8>) -> nat
    decreases s.len(),
{
    if s.len() == 0 || is_ws(s[0]) {
        0
    } else {
        1 + nonws_len(s.drop_first())
    }
}

/// No whitespace-free prefix is longer than the sequence itself.
proof fn lemma_nonws_len_le(s: Seq<u8>)
    ensures
        nonws_len(s) <= s.len(),
    decreases s.len(),
{
    if s.len() > 0 && !is_ws(s[0]) {
        lemma_nonws_len_le(s.drop_first());
    }
}

/// The maximal whitespace-free words of `s`, in order.
pub open spec fn spec_tokens(s: Seq<u8>) -> Seq<Seq<u8>>
    decreases s.len(),
    via spec_tokens_decreases
{
    if s.len() == 0 {
        Seq::empty()
    } else if is_ws(s[0]) {
        spec_tokens(s.drop_first())
    } else {
        let k = 1 + nonws_len(s.drop_first());
        seq![s.subrange(0, k as int)] + spec_tokens(s.subrange(k as int, s.len() as int))
    }
}

#[via_fn]
proof fn spec_tokens_decreases(s: Seq<u8>) {
    if s.len() > 0 && !is_ws(s[0]) {
        lemma_nonws_len_le(s.drop_first());
    }
}

/// The line begins with the insert keyword.
pub open spec fn spec_starts_insert(b: Seq<u8>) -> bool {
    &&& b.len() >= 6
    &&& b[0] == 105u8
    &&& b[1] == 110u8
    &&& b[2] == 115u8
    &&& b[3] == 101u8
    &&& b[4] == 114u8
    &&& b[5] == 116u8
}

/// The line is exactly the select keyword.
pub open spec fn spec_is_select(b: Seq<u8>) -> bool {
    &&& b.len() == 6
    &&& b[0] == 115u8
    &&& b[1] == 101u8
    &&& b[2] == 108u8
    &&& b[3] == 101u8
    &&& b[4] == 99u8
    &&& b[5] == 116u8
}

/// Every byte is an ASCII decimal digit.
pub open spec fn all_digits(t: Seq<u8>) -> bool {
    forall|i: int| 0 <= i < t.len() ==> 48 <= #[trigger] t[i] <= 57
}

/// The number the digit bytes spell in decimal.
pub open spec fn dec_val(t: Seq<u8>) -> int
    decreases t.len(),
{
    if t.len() == 0 {
        0
    } else {
        dec_val(t.drop_last()) * 10 + (t.last() - 48)
    }
}

/// The digit part of a u32 token: an optional leading plus sign is dropped.
pub open spec fn spec_u32_digits(t: Seq<u8>) -> Seq<u8> {
    if t.len() >= 1 && t[0] == 43 {
        t.drop_first()
    } else {
        t
    }
}

/// The token spells a u32: at least one digit after an optional plus sign,
/// nothing else, and the value fits.
pub open spec fn spec_valid_u32(t: Seq<u8>) -> bool {
    let d = spec_u32_digits(t);
    d.len() >= 1 && all_digits(d) && dec_val(d) <= u32::MAX
}

/// What `prepare_statement` answers for a line with the given bytes and
/// the given result.
pub open spec fn spec_prepare(b: Seq<u8>, result: Result<Statement, PrepareError>) -> bool {
    if spec_starts_insert(b) {
        let toks = spec_tokens(b);
        if toks.len() < 4 {
            result matches Err(PrepareError::NotEnoughArguments)
        } else if !spec_valid_u32(toks[1]) {
            result matches Err(PrepareError::ParseError)
        } else if toks[2].len() > USERNAME_LENGTH || toks[3].len() > EMAIL_LENGTH {
            result matches Err(PrepareError::ArgumentTooLong)
        } else {
            result matches Ok(Statement::Insert { row_to_insert }) && {
                &&& row_to_insert.wf()
                &&& row_to_insert.id == dec_val(spec_u32_digits(toks[1]))
                &&& row_to_insert.username@ == spec_pad(toks[2], USERNAME_LENGTH as nat)
                &&& row_to_insert.email@ == spec_pad(toks[3], EMAIL_LENGTH as nat)
            }
        }
    } else if spec_is_select(b) {
        result matches Ok(Statement::Select)
    } else {
        result matches Err(PrepareError::UnrecognizedStatement(_))
    }
}

/// Parses a text line into a typed statement: an insert line carries the
/// keyword, a decimal id, a username and an email, whitespace-separated;
/// a select line is the bare keyword.
pub fn prepare_statement(buffer: &String) -> (result: Result<Statement, PrepareError>)
    ensures
        spec_prepare(encode_utf8(buffer@), result),
        result matches Err(PrepareError::UnrecognizedStatement(line)) ==> line@ == buffer@,
{
    let bytes = buffer.as_str().as_bytes();
    if starts_with_insert(bytes) {
        let toks = tokenize(bytes);
        if toks.len() < 4 {
            return Err(PrepareError::NotEnoughArguments);
        }
        let id = match parse_u32(toks[1].as_slice()) {
            Some(v) => v,
            None => {
                return Err(PrepareError::ParseError);
            },
        };
        proof {
            if spec_valid_u32(toks@[1]@) {
                lemma_dec_val_nonneg(spec_u32_digits(toks@[1]@));
            }
        }
        let username = toks[2].as_slice();
        if username.len() > USERNAME_LENGTH {
            return Err(PrepareError::ArgumentTooLong);
        }
        let email = toks[3].as_slice();
        if email.len() > EMAIL_LENGTH {
            return Err(PrepareError::ArgumentTooLong);
        }
        let row = Row {
            id,
            username: pad_bytes(username, USERNAME_LENGTH),
            email: pad_bytes(email, EMAIL_LENGTH),
        };
        Ok(Statement::Insert { row_to_insert: row })
    } else if is_select(bytes) {
        Ok(Statement::Select)
    } else {
        Err(PrepareError::UnrecognizedStatement(buffer.clone()))
    }
}

/// Tests the insert keyword at the start of the line.
fn starts_with_insert(b: &[u8]) -> (r: bool)
    ensures
        r == spec_starts_insert(b@),
{
    b.len() >= 6 && *slice_index_get(b, 0) == 105 && *slice_index_get(b, 1) == 110
        && *slice_index_get(b, 2) == 115 && *slice_index_get(b, 3) == 101 && *slice_index_get(
        b,
        4,
    ) == 114 && *slice_index_get(b, 5) == 116
}

/// Tests whether the line is exactly the select keyword.
fn is_select(b: &[u8]) -> (r: bool)
    ensures
        r == spec_is_select(b@),
{
    b.len() == 6 && *slice_index_get(b, 0) == 115 && *slice_index_get(b, 1) == 101
        && *slice_index_get(b, 2) == 108 && *slice_index_get(b, 3) == 101 && *slice_index_get(
        b,
        4,
    ) == 99 && *slice_index_get(b, 5) == 116
}

/// The views of a sequence of byte vectors.
spec fn tokens_model(toks: Seq<Vec<u8>>) -> Seq<Seq<u8>> {
    Seq::new(toks.len(), |j: int| toks[j]@)
}

/// The whitespace-free prefix of `s` has the length up to which no byte is
/// whitespace and at which one is (or the sequence ends).
proof fn lemma_nonws_len(s: Seq<u8>, k: int)
    requires
        0 <= k <= s.len(),
        forall|j: int| 0 <= j < k ==> !is_ws(#[trigger] s[j]),
        k == s.len() || is_ws(s[k]),
    ensures
        nonws_len(s) == k,
    decreases k,
{
    if k == 0 {
    } else {
        lemma_nonws_len(s.drop_first(), k - 1);
    }
}

/// Splits `s` into its maximal whitespace-free words, in order.
fn tokenize(s: &[u8]) -> (toks: Vec<Vec<u8>>)
    ensures
        toks@.len() == spec_tokens(s@).len(),
        forall|i: int| 0 <= i < toks@.len() ==> (#[trigger] toks@[i])@ == spec_tokens(s@)[i],
{
    let ghost all = spec_tokens(s@);
    let mut toks: Vec<Vec<u8>> = Vec::new();
    let mut i: usize = 0;
    proof {
        assert(s@.subrange(0, s@.len() as int) =~= s@);
        assert(tokens_model(toks@) + spec_tokens(s@) =~= spec_tokens(s@));
    }
    while i < s.len()
        invariant
            i <= s@.len(),
            all == spec_tokens(s@),
            all == tokens_model(toks@) + spec_tokens(s@.subrange(i as int, s@.len() as int)),
        decreases s@.len() - i,
    {
        let b = *slice_index_get(s, i);
        if b == 32 || b == 9 || b == 10 || b == 13 || b == 12 {
            proof {
                let rest = s@.subrange(i as int, s@.len() as int);
                assert(rest.drop_first() =~= s@.subrange(i + 1, s@.len() as int));
            }
            i += 1;
        } else {
            let start = i;
            i += 1;
            while i < s.len() && !byte_is_ws(*slice_index_get(s, i))
                invariant
                    start < i <= s@.len(),
                    forall|j: int| start <= j < i ==> !is_ws(#[trigger] s@[j]),
                decreases s@.len() - i,
            {
                i += 1;
            }
            let token = slice_to_vec(slice_subrange(s, start, i));
            proof {
                let rest = s@.subrange(start as int, s@.len() as int);
                lemma_nonws_len(rest, i - start);
                assert(rest.subrange(0, i - start) =~= s@.subrange(start as int, i as int));
                assert(rest.subrange(i - start, rest.len() as int) =~= s@.subrange(
                    i as int,
                    s@.len() as int,
                ));
                assert(rest.drop_first() =~= s@.subrange(start + 1, s@.len() as int));
                assert(nonws_len(rest) == 1 + nonws_len(rest.drop_first()));
                assert(spec_tokens(rest) == seq![s@.subrange(start as int, i as int)]
                    + spec_tokens(s@.subrange(i as int, s@.len() as int)));
                assert(tokens_model(toks@.push(token)) =~= tokens_model(toks@).push(token@));
                assert(tokens_model(toks@).push(token@) + spec_tokens(
                    s@.subrange(i as int, s@.len() as int),
                ) =~= tokens_model(toks@) + spec_tokens(
                    s@.subrange(start as int, s@.len() as int),
                ));
            }
            toks.push(token);
        }
    }
    proof {
        assert(s@.subrange(s@.len() as int, s@.len() as int) =~= Seq::<u8>::empty());
        assert(all =~= tokens_model(toks@));
        assert forall|j: int| 0 <= j < toks@.len() implies (#[trigger] toks@[j])@ == spec_tokens(
            s@,
        )[j] by {
            assert(tokens_model(toks@)[j] == toks@[j]@);
        }
    }
    toks
}

/// Tests one byte for ASCII whitespace.
fn byte_is_ws(b: u8) -> (r: bool)
    ensures
        r == is_ws(b),
{
    b == 32 || b == 9 || b == 10 || b == 13 || b == 12
}

/// The value the digits spell never goes negative.
proof fn lemma_dec_val_nonneg(t: Seq<u8>)
    requires
        all_digits(t),
    ensures
        dec_val(t) >= 0,
    decreases t.len(),
{
    if t.len() > 0 {
        assert(all_digits(t.drop_last()));
        lemma_dec_val_nonneg(t.drop_last());
    }
}

/// Reading more digits never shrinks the value.
proof fn lemma_dec_val_mono(t: Seq<u8>, i: int)
    requires
        all_digits(t),
        0 <= i <= t.len(),
    ensures
        dec_val(t) >= dec_val(t.subrange(0, i)),
    decreases t.len() - i,
{
    if i == t.len() {
        assert(t.subrange(0, i) =~= t);
    } else {
        lemma_dec_val_mono(t, i + 1);
        let a = t.subrange(0, i);
        let b = t.subrange(0, i + 1);
        assert(b.drop_last() =~= a);
        assert(all_digits(a)) by {
            assert(forall|j: int| 0 <= j < a.len() ==> a[j] == t[j]);
        }
        lemma_dec_val_nonneg(a);
        assert(dec_val(b) == dec_val(a) * 10 + (t[i] - 48));
    }
}

/// Parses a decimal u32 token: an optional leading plus sign, then at least
/// one digit, and the value must fit; anything else gives nothing.
fn parse_u32(t: &[u8]) -> (result: Option<u32>)
    ensures
        spec_valid_u32(t@) ==> result == Some(dec_val(spec_u32_digits(t@)) as u32),
        !spec_valid_u32(t@) ==> result is None,
{
    let offset: usize = if t.len() >= 1 && *slice_index_get(t, 0) == 43 {
        1
    } else {
        0
    };
    let ghost d = spec_u32_digits(t@);
    proof {
        assert(d =~= t@.subrange(offset as int, t@.len() as int));
    }
    if t.len() == offset {
        return None;
    }
    let mut acc: u64 = 0;
    let mut i: usize = offset;
    while i < t.len()
        invariant
            offset <= i <= t@.len(),
            d == spec_u32_digits(t@),
            d == t@.subrange(offset as int, t@.len() as int),
            all_digits(d.subrange(0, i - offset)),
            acc == dec_val(d.subrange(0, i - offset)),
            acc <= u32::MAX,
        decreases t@.len() - i,
    {
        let b = *slice_index_get(t, i);
        if b < 48 || b > 57 {
            proof {
                assert(d[i - offset] == t@[i as int]);
                assert(!all_digits(d));
            }
            return None;
        }
        let digit = (b - 48) as u64;
        let next = acc * 10 + digit;
        proof {
            let pre = d.subrange(0, i - offset);
            let cur = d.subrange(0, i + 1 - offset);
            assert(cur.drop_last() =~= pre);
            assert(cur.last() == t@[i as int]);
            assert(dec_val(cur) == dec_val(pre) * 10 + (t@[i as int] - 48));
        }
        if next > u32::MAX as u64 {
            proof {
                let cur = d.subrange(0, i + 1 - offset);
                if spec_valid_u32(t@) {
                    lemma_dec_val_mono(d, i + 1 - offset);
                    assert(dec_val(d) >= dec_val(cur));
                    assert(false);
                }
            }
            return None;
        }
        acc = next;
        i += 1;
    }
    proof {
        assert(d.subrange(0, t@.len() - offset) =~= d);
    }
    Some(acc as u32)
}

} // verus!
