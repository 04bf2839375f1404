//! The storage core: the fixed-width row codec, fixed-size pages, and the
//! page-backed, fixed-capacity table.

use vstd::prelude::*;

verus! {

use vstd::arithmetic::div_mod::{lemma_fundamental_div_mod, lemma_fundamental_div_mod_converse_div,
    lemma_mod_pos_bound};
use vstd::bytes::{lemma_auto_spec_u32_to_from_le_bytes, spec_u32_from_le_bytes,
    spec_u32_to_le_bytes, u32_from_le_bytes, u32_to_le_bytes};
use vstd::pervasive::{unreached, VecAdditionalExecFns};
use vstd::string::{StringExecFns, StringSliceAdditionalSpecFns};
use vstd::slice::{slice_index_get, slice_subrange, slice_to_vec};

/// Width of the fixed username field, in bytes.
pub const USERNAME_LENGTH: usize = 32;

/// Width of the fixed email field, in bytes.
pub const EMAIL_LENGTH: usize = 256;

/// Width of the encoded id field, in bytes.
pub const ID_SIZE: usize = 4;

/// Exact size of one encoded row: id, then username, then email, no padding.
pub const ROW_SIZE: usize = ID_SIZE + USERNAME_LENGTH + EMAIL_LENGTH;

/// Size of one page of raw row storage, in bytes.
pub const PAGE_SIZE: usize = 4096;

/// Whole rows that fit in one page; the remaining bytes are unused.
pub const ROWS_PER_PAGE: usize = PAGE_SIZE / ROW_SIZE;

/// Hard ceiling on the number of pages a table may allocate.
pub const MAX_PAGES: usize = 100;

/// Hard ceiling on the number of rows a table may hold.
pub const MAX_ROWS: usize = ROWS_PER_PAGE * MAX_PAGES;

/// Error returned by `Table::insert_row` when the table is at capacity.
#[derive(Debug, PartialEq, Eq, Structural)]
pub enum InsertError {
    TableFull,
}

/// Error returned by the row codec when a buffer is too small to hold a
/// whole encoded row.
#[derive(Debug, PartialEq, Eq, Structural)]
pub enum CodecError {
    /// Fewer than `ROW_SIZE` bytes were available to read.
    ShortRead,
    /// Fewer than `ROW_SIZE` bytes of room were available to write.
    ShortWrite,
}

/// Error returned by `Row::new` when a text field exceeds its fixed width.
#[derive(Debug, PartialEq, Eq, Structural)]
pub enum RowError {
    ArgumentTooLong,
}

/// One record: a 32-bit id and two fixed-width, zero-padded byte fields.
#[derive(Debug)]
pub struct Row {
    pub id: u32,
    pub username: Vec<u8>,
    pub email: Vec<u8>,
}

/// `s` zero-padded at the end up to length `n`.
pub open spec fn spec_pad(s: Seq<u8>, n: nat) -> Seq<u8>
    recommends
        s.len() <= n,
{
    s + Seq::new((n - s.len()) as nat, |i: int| 0u8)
}

/// The fields of `r` read back from the encoded bytes `b`.
pub open spec fn row_matches_bytes(r: Row, b: Seq<u8>) -> bool {
    &&& r.id == spec_u32_from_le_bytes(b.subrange(0, ID_SIZE as int))
    &&& r.username@ == b.subrange(ID_SIZE as int, (ID_SIZE + USERNAME_LENGTH) as int)
    &&& r.email@ == b.subrange((ID_SIZE + USERNAME_LENGTH) as int, ROW_SIZE as int)
}

impl Row {
    /// Both byte fields have exactly their fixed widths.
    pub open spec fn wf(self) -> bool {
        &&& self.username@.len() == USERNAME_LENGTH
        &&& self.email@.len() == EMAIL_LENGTH
    }

    /// The exact byte encoding of this row: 4 id bytes in a fixed
    /// (little-endian) order, then the username bytes, then the email bytes.
    pub open spec fn spec_encoded(self) -> Seq<u8> {
        spec_u32_to_le_bytes(self.id) + self.username@ + self.email@
    }

    /// Builds a row from text fields, copying the UTF-8 bytes of each string
    /// into its fixed-width buffer and zero-filling the remainder; rejects a
    /// field that exceeds its width.
    pub fn new(id: u32, username: &str, email: &str) -> (result: Result<Row, RowError>)
        ensures
            username.spec_bytes().len() <= USERNAME_LENGTH && email.spec_bytes().len()
                <= EMAIL_LENGTH ==> (match result {
                Ok(r) => {
                    &&& r.wf()
                    &&& r.id == id
                    &&& r.username@ == spec_pad(username.spec_bytes(), USERNAME_LENGTH as nat)
                    &&& r.email@ == spec_pad(email.spec_bytes(), EMAIL_LENGTH as nat)
                },
                Err(_) => false,
            }),
            username.spec_bytes().len() > USERNAME_LENGTH || email.spec_bytes().len()
                > EMAIL_LENGTH ==> result == Err::<Row, RowError>(RowError::ArgumentTooLong),
    {
        let username_bytes = username.as_bytes();
        if username_bytes.len() > USERNAME_LENGTH {
            return Err(RowError::ArgumentTooLong);
        }
        let email_bytes = email.as_bytes();
        if email_bytes.len() > EMAIL_LENGTH {
            return Err(RowError::ArgumentTooLong);
        }
        let username_buf = pad_bytes(username_bytes, USERNAME_LENGTH);
        let email_buf = pad_bytes(email_bytes, EMAIL_LENGTH);
        Ok(Row { id, username: username_buf, email: email_buf })
    }

    /// The encoded form of this row as a fresh byte vector.
    pub fn to_bytes(&self) -> (out: Vec<u8>)
        requires
            self.wf(),
        ensures
            out@ == self.spec_encoded(),
            out@.len() == ROW_SIZE,
    {
        proof {
            lemma_auto_spec_u32_to_from_le_bytes();
        }
        let mut out = u32_to_le_bytes(self.id);
        append_bytes(&mut out, self.username.as_slice());
        append_bytes(&mut out, self.email.as_slice());
        out
    }

    /// Writes the encoded row over the first `ROW_SIZE` bytes of `dst`,
    /// leaving the rest of `dst` unchanged; fails, leaving `dst` untouched,
    /// when `dst` cannot accept a whole row.
    pub fn write_to_buffer(&self, dst: &mut Vec<u8>) -> (result: Result<(), CodecError>)
        requires
            self.wf(),
        ensures
            old(dst)@.len() >= ROW_SIZE ==> {
                &&& result == Ok::<(), CodecError>(())
                &&& final(dst)@ == self.spec_encoded() + old(dst)@.subrange(
                    ROW_SIZE as int,
                    old(dst)@.len() as int,
                )
                &&& final(dst)@.len() == old(dst)@.len()
            },
            old(dst)@.len() < ROW_SIZE ==> {
                &&& result == Err::<(), CodecError>(CodecError::ShortWrite)
                &&& final(dst)@ == old(dst)@
            },
    {
        if dst.len() < ROW_SIZE {
            return Err(CodecError::ShortWrite);
        }
        let bytes = self.to_bytes();
        let ghost dst0 = dst@;
        let mut k: usize = 0;
        while k < ROW_SIZE
            invariant
                k <= ROW_SIZE <= dst@.len(),
                dst@.len() == dst0.len(),
                bytes@ == self.spec_encoded(),
                bytes@.len() == ROW_SIZE,
                forall|j: int| 0 <= j < k ==> dst@[j] == bytes@[j],
                forall|j: int| k <= j < dst@.len() ==> dst@[j] == dst0[j],
            decreases ROW_SIZE - k,
        {
            let b = *slice_index_get(bytes.as_slice(), k);
            dst.set(k, b);
            k += 1;
        }
        proof {
            assert(dst@ =~= self.spec_encoded() + dst0.subrange(
                ROW_SIZE as int,
                dst0.len() as int,
            ));
        }
        Ok(())
    }

    /// The displayed form of the row as one line: the id in decimal, the
    /// username and the email, space-separated, each text field decoded
    /// lossily with its trailing zero padding stripped.
    pub fn to_display_string(&self) -> (s: String)
        requires
            self.wf(),
        ensures
            s@ == spec_display(*self),
    {
        let space = " ";
        proof {
            reveal_strlit(" ");
            assert(space@ =~= seq![' ']);
        }
        let digits = u32_to_decimal_bytes(self.id);
        let mut line = lossy_string(digits.as_slice());
        proof {
            assert(line@ == ascii_chars(dec_bytes(self.id as int)));
        }
        line.append(space);
        let username = strip_trailing_zeros(self.username.as_slice());
        let username_text = lossy_string(username.as_slice());
        line.append(username_text.as_str());
        line.append(space);
        let email = strip_trailing_zeros(self.email.as_slice());
        let email_text = lossy_string(email.as_slice());
        line.append(email_text.as_str());
        line
    }

    /// Decodes a row from the first `ROW_SIZE` bytes of `src`; fails when
    /// fewer bytes are available.
    pub fn read_from_buffer(src: &[u8]) -> (result: Result<Row, CodecError>)
        ensures
            src@.len() >= ROW_SIZE ==> (match result {
                Ok(r) => r.wf() && row_matches_bytes(r, src@.subrange(0, ROW_SIZE as int)),
                Err(_) => false,
            }),
            src@.len() < ROW_SIZE ==> result == Err::<Row, CodecError>(CodecError::ShortRead),
    {
        if src.len() < ROW_SIZE {
            return Err(CodecError::ShortRead);
        }
        Ok(decode_row(src))
    }

    /// Decodes a row from the first `ROW_SIZE` bytes of `src`; the same
    /// operation as `read_from_buffer`, under the name the statement layer
    /// uses.
    pub fn from_buffer(src: &[u8]) -> (result: Result<Row, CodecError>)
        ensures
            src@.len() >= ROW_SIZE ==> (match result {
                Ok(r) => r.wf() && row_matches_bytes(r, src@.subrange(0, ROW_SIZE as int)),
                Err(_) => false,
            }),
            src@.len() < ROW_SIZE ==> result == Err::<Row, CodecError>(CodecError::ShortRead),
    {
        Row::read_from_buffer(src)
    }
}

/// Decodes a row out of a buffer known to hold at least one whole row.
fn decode_row(src: &[u8]) -> (r: Row)
    requires
        src@.len() >= ROW_SIZE,
    ensures
        r.wf(),
        row_matches_bytes(r, src@.subrange(0, ROW_SIZE as int)),
{
    let id_bytes = slice_subrange(src, 0, ID_SIZE);
    let id = u32_from_le_bytes(id_bytes);
    let username = slice_to_vec(slice_subrange(src, ID_SIZE, ID_SIZE + USERNAME_LENGTH));
    let email = slice_to_vec(slice_subrange(src, ID_SIZE + USERNAME_LENGTH, ROW_SIZE));
    let r = Row { id, username, email };
    proof {
        let b = src@.subrange(0, ROW_SIZE as int);
        assert(b.subrange(0, ID_SIZE as int) =~= src@.subrange(0, ID_SIZE as int));
        assert(b.subrange(ID_SIZE as int, (ID_SIZE + USERNAME_LENGTH) as int) =~= src@.subrange(
            ID_SIZE as int,
            (ID_SIZE + USERNAME_LENGTH) as int,
        ));
        assert(b.subrange((ID_SIZE + USERNAME_LENGTH) as int, ROW_SIZE as int) =~= src@.subrange(
            (ID_SIZE + USERNAME_LENGTH) as int,
            ROW_SIZE as int,
        ));
    }
    r
}

/// Copies `s` into a fresh vector and zero-fills up to length `n`.
pub(crate) fn pad_bytes(s: &[u8], n: usize) -> (out: Vec<u8>)
    requires
        s@.len() <= n,
    ensures
        out@ == spec_pad(s@, n as nat),
        out@.len() == n,
{
    let mut out = slice_to_vec(s);
    while out.len() < n
        invariant
            s@.len() <= out@.len() <= n,
            out@.subrange(0, s@.len() as int) == s@,
            forall|j: int| s@.len() <= j < out@.len() ==> out@[j] == 0u8,
        decreases n - out@.len(),
    {
        out.push(0u8);
        proof {
            assert(out@.subrange(0, s@.len() as int) =~= s@);
        }
    }
    proof {
        assert(out@ =~= spec_pad(s@, n as nat));
    }
    out
}

/// A fixed-size block of raw bytes holding a whole number of encoded rows;
/// bytes past the last whole row boundary are never read.
struct Page {
    memory: Vec<u8>,
}

impl Page {
    /// The block has exactly its fixed size.
    spec fn wf(self) -> bool {
        self.memory@.len() == PAGE_SIZE
    }

    /// A fresh, zero-initialized page.
    fn new() -> (p: Page)
        ensures
            p.wf(),
            forall|j: int| 0 <= j < PAGE_SIZE ==> p.memory@[j] == 0u8,
    {
        let mut memory: Vec<u8> = Vec::new();
        while memory.len() < PAGE_SIZE
            invariant
                memory@.len() <= PAGE_SIZE,
                forall|j: int| 0 <= j < memory@.len() ==> memory@[j] == 0u8,
            decreases PAGE_SIZE - memory@.len(),
        {
            memory.push(0u8);
        }
        Page { memory }
    }

    /// Overwrites the bytes at `byte_offset..byte_offset + bytes.len()` and
    /// leaves every other byte of the page unchanged.
    fn write_row(&mut self, byte_offset: usize, bytes: &[u8])
        requires
            old(self).wf(),
            byte_offset + bytes@.len() <= PAGE_SIZE,
        ensures
            final(self).wf(),
            forall|j: int|
                0 <= j < PAGE_SIZE ==> final(self).memory@[j] == (if byte_offset <= j
                    < byte_offset + bytes@.len() {
                    bytes@[j - byte_offset]
                } else {
                    old(self).memory@[j]
                }),
    {
        let mut k: usize = 0;
        while k < bytes.len()
            invariant
                k <= bytes@.len(),
                byte_offset + bytes@.len() <= PAGE_SIZE,
                self.memory@.len() == PAGE_SIZE,
                forall|j: int|
                    0 <= j < PAGE_SIZE ==> self.memory@[j] == (if byte_offset <= j < byte_offset
                        + k {
                        bytes@[j - byte_offset]
                    } else {
                        old(self).memory@[j]
                    }),
            decreases bytes@.len() - k,
        {
            let b = *slice_index_get(bytes, k);
            self.memory.set(byte_offset + k, b);
            k += 1;
        }
    }
}

/// An ordered, fixed-capacity collection of lazily allocated pages, exposing
/// append-only insert and a full scan. Its abstract value (`self@`) is the
/// sequence of encoded rows, in insertion order.
pub struct Table {
    num_rows: usize,
    pages: Vec<Option<Page>>,
}

/// Pages needed to hold `n` rows: `n / ROWS_PER_PAGE`, rounded up.
pub open spec fn spec_page_count(n: int) -> int {
    (n + ROWS_PER_PAGE - 1) / (ROWS_PER_PAGE as int)
}

impl Table {
    /// The internal invariant: the counter is within capacity, the slot
    /// sequence has its fixed length, exactly the pages that hold at least
    /// one of the first `num_rows` row slots are allocated, and every
    /// allocated page has its fixed size.
    pub closed spec fn wf(self) -> bool {
        &&& self.num_rows <= MAX_ROWS
        &&& self.pages@.len() == MAX_PAGES
        &&& forall|p: int|
            0 <= p < MAX_PAGES ==> ((self.pages@[p] is Some) <==> p * ROWS_PER_PAGE
                < self.num_rows)
        &&& forall|p: int|
            0 <= p < MAX_PAGES && self.pages@[p] is Some ==> (#[trigger] self.pages@[p])->Some_0.wf()
    }

    /// The bytes of the row slot for logical row index `r`.
    closed spec fn spec_row_bytes(self, r: int) -> Seq<u8> {
        let page = self.pages@[r / (ROWS_PER_PAGE as int)]->Some_0;
        let off = (r % (ROWS_PER_PAGE as int)) * ROW_SIZE;
        page.memory@.subrange(off, off + ROW_SIZE)
    }

    /// A fresh table: no rows, no allocated pages.
    pub fn new() -> (t: Table)
        ensures
            t.wf(),
            t@ == Seq::<Seq<u8>>::empty(),
    {
        let mut pages: Vec<Option<Page>> = Vec::new();
        while pages.len() < MAX_PAGES
            invariant
                pages@.len() <= MAX_PAGES,
                forall|p: int| 0 <= p < pages@.len() ==> pages@[p] is None,
            decreases MAX_PAGES - pages@.len(),
        {
            pages.push(None);
        }
        let t = Table { num_rows: 0, pages };
        proof {
            assert(t@ =~= Seq::<Seq<u8>>::empty());
        }
        t
    }

    /// How many rows the table holds.
    pub fn num_rows(&self) -> (n: usize)
        ensures
            n == self@.len(),
    {
        self.num_rows
    }

    /// Counts the page slots that hold an allocated page; with the lazy
    /// allocation policy that is exactly the pages needed for the rows held.
    pub fn allocated_page_count(&self) -> (n: usize)
        requires
            self.wf(),
        ensures
            n == spec_page_count(self@.len() as int),
    {
        proof {
            lemma_page_count_bound(self.num_rows as int);
        }
        let mut n: usize = 0;
        let mut p: usize = 0;
        while p < MAX_PAGES
            invariant
                self.wf(),
                p <= MAX_PAGES,
                n <= p,
                n as int == count_allocated_below(*self, p as int),
            decreases MAX_PAGES - p,
        {
            if self.pages[p].is_some() {
                n = n + 1;
            }
            p += 1;
        }
        proof {
            lemma_count_allocated(*self, MAX_PAGES as int);
        }
        n
    }
}

impl View for Table {
    type V = Seq<Seq<u8>>;

    closed spec fn view(&self) -> Seq<Seq<u8>> {
        Seq::new(self.num_rows as nat, |i: int| self.spec_row_bytes(i))
    }
}

impl Table {
    /// Appends one row: fails with `TableFull` at capacity, leaving the
    /// table unchanged; otherwise encodes the row into the slot for the next
    /// logical row index, allocating its page on first touch.
    pub fn insert_row(&mut self, row: &Row) -> (result: Result<(), InsertError>)
        requires
            old(self).wf(),
            row.wf(),
        ensures
            final(self).wf(),
            old(self)@.len() == MAX_ROWS ==> {
                &&& result == Err::<(), InsertError>(InsertError::TableFull)
                &&& *final(self) == *old(self)
            },
            old(self)@.len() < MAX_ROWS ==> {
                &&& result == Ok::<(), InsertError>(())
                &&& final(self)@ == old(self)@.push(row.spec_encoded())
            },
    {
        if self.num_rows >= MAX_ROWS {
            return Err(InsertError::TableFull);
        }
        let r = self.num_rows;
        let (page_num, byte_offset) = row_address(r);
        proof {
            lemma_row_addr(r as int);
        }
        let bytes = row.to_bytes();
        if self.pages[page_num].is_none() {
            self.pages.set(page_num, Some(Page::new()));
        }
        let ghost mid_pages = self.pages@;
        let slot = &mut self.pages[page_num];
        match slot {
            Some(page) => {
                page.write_row(byte_offset, bytes.as_slice());
            },
            None => {
                proof {
                    assert(false);
                }
            },
        }
        self.num_rows = r + 1;
        proof {
            lemma_constants();
            let rpp = ROWS_PER_PAGE as int;
            let q = r as int / rpp;
            let m = r as int % rpp;
            // The invariant tying allocated pages to the new row count.
            assert forall|p: int| 0 <= p < MAX_PAGES implies ((self.pages@[p] is Some) <==> p
                * ROWS_PER_PAGE < self.num_rows) by {
                if p != q {
                    assert(self.pages@[p] == old(self).pages@[p]);
                    if p * ROWS_PER_PAGE == r as int {
                        lemma_fundamental_div_mod_converse_div(r as int, rpp, p, 0);
                        assert(false);
                    }
                } else {
                    assert(q * rpp + m == r as int);
                }
            }
            // Rows below the new one keep their bytes.
            assert forall|i: int| 0 <= i < r implies self.spec_row_bytes(i) == old(
                self,
            ).spec_row_bytes(i) by {
                lemma_row_addr(i);
                let qi = i / rpp;
                let mi = i % rpp;
                assert(qi * rpp <= i);
                assert(old(self).pages@[qi] is Some);
                if qi != q {
                    assert(self.pages@[qi] == old(self).pages@[qi]);
                    assert(self.spec_row_bytes(i) =~= old(self).spec_row_bytes(i));
                } else {
                    assert(mi < m);
                    assert(mid_pages[qi] == old(self).pages@[qi]);
                    assert(mi * ROW_SIZE + ROW_SIZE <= m * ROW_SIZE) by (nonlinear_arith)
                        requires
                            mi + 1 <= m,
                            ROW_SIZE == 292,
                    ;
                    assert(self.spec_row_bytes(i) =~= old(self).spec_row_bytes(i));
                }
            }
            // The new row slot holds exactly the encoded row.
            assert(self.spec_row_bytes(r as int) =~= bytes@);
            assert(self@ =~= old(self)@.push(row.spec_encoded()));
        }
        Ok(())
    }

    /// The slot for one logical row index, as a borrowed byte slice.
    fn row_slot(&self, row_num: usize) -> (s: &[u8])
        requires
            self.wf(),
            row_num < self@.len(),
        ensures
            s@ == self@[row_num as int],
            s@.len() == ROW_SIZE,
    {
        proof {
            lemma_row_addr(row_num as int);
            assert((row_num as int / (ROWS_PER_PAGE as int)) * ROWS_PER_PAGE <= row_num as int);
        }
        let (page_num, byte_offset) = row_address(row_num);
        let slot = &self.pages[page_num];
        match slot {
            Some(page) => slice_subrange(page.memory.as_slice(), byte_offset, byte_offset + ROW_SIZE),
            None => unreached(),
        }
    }

    /// Decodes the row at one logical row index.
    fn get_row(&self, row_num: usize) -> (r: Row)
        requires
            self.wf(),
            row_num < self@.len(),
        ensures
            r.wf(),
            row_matches_bytes(r, self@[row_num as int]),
    {
        let slot = self.row_slot(row_num);
        let r = decode_row(slot);
        proof {
            assert(slot@.subrange(0, ROW_SIZE as int) =~= slot@);
        }
        r
    }

    /// Decodes every row, in insertion order; a fresh vector per call.
    pub fn all_rows(&self) -> (rows: Vec<Row>)
        requires
            self.wf(),
        ensures
            rows@.len() == self@.len(),
            forall|i: int|
                0 <= i < self@.len() ==> (#[trigger] rows@[i]).wf() && row_matches_bytes(
                    rows@[i],
                    self@[i],
                ),
    {
        let mut rows: Vec<Row> = Vec::new();
        let mut i: usize = 0;
        while i < self.num_rows
            invariant
                self.wf(),
                i <= self@.len(),
                i == rows@.len(),
                forall|j: int|
                    0 <= j < i ==> (#[trigger] rows@[j]).wf() && row_matches_bytes(
                        rows@[j],
                        self@[j],
                    ),
            decreases self@.len() - i,
        {
            let row = self.get_row(i);
            rows.push(row);
            i += 1;
        }
        rows
    }

}

/// `s` with every trailing zero byte removed.
pub open spec fn strip0(s: Seq<u8>) -> Seq<u8>
    decreases s.len(),
{
    if s.len() == 0 {
        s
    } else if s.last() == 0 {
        strip0(s.drop_last())
    } else {
        s
    }
}

/// The bytes of `b` read as characters; meaningful when all are ASCII.
pub open spec fn ascii_chars(b: Seq<u8>) -> Seq<char> {
    Seq::new(b.len(), |i: int| b[i] as char)
}

/// The ASCII digits of `n` written in decimal, most significant first.
pub open spec fn dec_bytes(n: int) -> Seq<u8>
    recommends
        n >= 0,
    decreases n,
{
    if n < 10 {
        seq![(48 + (if 0 <= n { n } else { 0int })) as u8]
    } else {
        dec_bytes(n / 10) + seq![(48 + n % 10) as u8]
    }
}

/// What `String::from_utf8_lossy` decodes the bytes `b` to.
pub uninterp spec fn lossy_utf8(b: Seq<u8>) -> Seq<char>;

/// The displayed form of a row: the id in decimal, the username and the
/// email, each text field lossily decoded with its trailing zero padding
/// stripped, all space-separated.
pub open spec fn spec_display(r: Row) -> Seq<char> {
    ascii_chars(dec_bytes(r.id as int)) + seq![' '] + lossy_utf8(strip0(r.username@)) + seq![' ']
        + lossy_utf8(strip0(r.email@))
}

/// Relies on `String::from_utf8_lossy`: the decoding is a function of the
/// bytes alone (invalid sequences are replaced, never a panic), and bytes
/// that are all ASCII decode to exactly their characters.
#[verifier::external_body]
fn lossy_string(b: &[u8]) -> (s: String)
    ensures
        s@ == lossy_utf8(b@),
        (forall|i: int| 0 <= i < b@.len() ==> b@[i] < 128) ==> s@ == ascii_chars(b@),
{
    String::from_utf8_lossy(b).into_owned()
}

/// Copies `s` without its trailing zero bytes.
fn strip_trailing_zeros(s: &[u8]) -> (out: Vec<u8>)
    ensures
        out@ == strip0(s@),
{
    let mut end: usize = s.len();
    proof {
        assert(s@.subrange(0, s@.len() as int) =~= s@);
    }
    while end > 0 && *slice_index_get(s, end - 1) == 0
        invariant
            end <= s@.len(),
            strip0(s@) == strip0(s@.subrange(0, end as int)),
        decreases end,
    {
        proof {
            let cur = s@.subrange(0, end as int);
            assert(cur.drop_last() =~= s@.subrange(0, end - 1));
        }
        end -= 1;
    }
    proof {
        if end > 0 {
            assert(strip0(s@.subrange(0, end as int)) == s@.subrange(0, end as int));
        }
    }
    slice_to_vec(slice_subrange(s, 0, end))
}

/// Renders `n` in decimal as ASCII digit bytes.
fn u32_to_decimal_bytes(n: u32) -> (out: Vec<u8>)
    ensures
        out@ == dec_bytes(n as int),
        forall|i: int| 0 <= i < out@.len() ==> out@[i] < 128,
    decreases n,
{
    if n < 10 {
        let mut out: Vec<u8> = Vec::new();
        out.push(48 + n as u8);
        proof {
            assert(out@ =~= dec_bytes(n as int));
        }
        out
    } else {
        let mut out = u32_to_decimal_bytes(n / 10);
        out.push(48 + (n % 10) as u8);
        proof {
            assert(out@ =~= dec_bytes(n as int / 10) + seq![(48 + n as int % 10) as u8]);
        }
        out
    }
}

/// The capacity law: a well-formed table never holds more rows than
/// `MAX_ROWS`, so an insert at that count fails and changes nothing, as
/// `insert_row` states.
pub proof fn lemma_capacity_bound(t: Table)
    requires
        t.wf(),
    ensures
        t@.len() <= MAX_ROWS,
{
}

/// The codec round-trip law: decoding the encoding of any well-formed row
/// gives back exactly its id, username and email.
pub proof fn lemma_encode_decode_roundtrip(r: Row)
    requires
        r.wf(),
    ensures
        r.spec_encoded().len() == ROW_SIZE,
        row_matches_bytes(r, r.spec_encoded()),
{
    lemma_auto_spec_u32_to_from_le_bytes();
    let e = r.spec_encoded();
    assert(e.subrange(0, ID_SIZE as int) =~= spec_u32_to_le_bytes(r.id));
    assert(e.subrange(ID_SIZE as int, (ID_SIZE + USERNAME_LENGTH) as int) =~= r.username@);
    assert(e.subrange((ID_SIZE + USERNAME_LENGTH) as int, ROW_SIZE as int) =~= r.email@);
}

/// Translates a logical row index into its page index and the byte offset
/// of its slot within that page: pure arithmetic, no search.
pub fn row_address(row_num: usize) -> (addr: (usize, usize))
    requires
        row_num < MAX_ROWS,
    ensures
        addr.0 == row_num as int / (ROWS_PER_PAGE as int),
        addr.1 == (row_num as int % (ROWS_PER_PAGE as int)) * ROW_SIZE,
        addr.0 < MAX_PAGES,
        addr.1 + ROW_SIZE <= PAGE_SIZE,
{
    proof {
        lemma_row_addr(row_num as int);
    }
    (row_num / ROWS_PER_PAGE, (row_num % ROWS_PER_PAGE) * ROW_SIZE)
}

/// Among page slots `0..p`, how many hold an allocated page.
spec fn count_allocated_below(t: Table, p: int) -> int
    decreases p,
{
    if p <= 0 {
        0
    } else {
        count_allocated_below(t, p - 1) + (if t.pages@[p - 1] is Some {
            1int
        } else {
            0int
        })
    }
}

/// Pins down the derived size constants, which otherwise stand as an
/// unevaluated quotient and product.
pub proof fn lemma_constants()
    ensures
        ROW_SIZE == 292,
        ROWS_PER_PAGE == 14,
        MAX_ROWS == 1400,
{
    assert(ROW_SIZE == 292);
    assert(4096usize / 292usize == 14);
    assert(ROWS_PER_PAGE == 14);
    assert(MAX_ROWS == 1400);
}

/// Facts about the page index and byte offset of logical row index `r`.
proof fn lemma_row_addr(r: int)
    requires
        0 <= r < MAX_ROWS,
    ensures
        0 <= r / (ROWS_PER_PAGE as int) < MAX_PAGES,
        0 <= r % (ROWS_PER_PAGE as int) < ROWS_PER_PAGE,
        r == (r / (ROWS_PER_PAGE as int)) * (ROWS_PER_PAGE as int) + r % (ROWS_PER_PAGE as int),
        (r % (ROWS_PER_PAGE as int)) * ROW_SIZE + ROW_SIZE <= PAGE_SIZE,
{
    lemma_constants();
    let rpp = ROWS_PER_PAGE as int;
    lemma_fundamental_div_mod(r, rpp);
    lemma_mod_pos_bound(r, rpp);
    let q = r / rpp;
    let m = r % rpp;
    assert(rpp * q == q * rpp) by (nonlinear_arith);
    assert(q >= 0 && q < MAX_PAGES) by (nonlinear_arith)
        requires
            rpp == ROWS_PER_PAGE as int,
            r == rpp * q + m,
            0 <= m < rpp,
            0 <= r < MAX_ROWS,
    ;
    assert(m * ROW_SIZE + ROW_SIZE <= PAGE_SIZE) by (nonlinear_arith)
        requires
            0 <= m < ROWS_PER_PAGE as int,
    ;
}

/// A page holds one of the first `n` row slots exactly when its index is
/// below the rounded-up page count for `n` rows.
proof fn lemma_page_threshold(p: int, n: int)
    requires
        p >= 0,
        n >= 0,
    ensures
        (p * ROWS_PER_PAGE < n) <==> (p < spec_page_count(n)),
{
    lemma_constants();
    let rpp = ROWS_PER_PAGE as int;
    let x = n + rpp - 1;
    lemma_fundamental_div_mod(x, rpp);
    lemma_mod_pos_bound(x, rpp);
    let q = x / rpp;
    let m = x % rpp;
    assert(x == rpp * q + m);
    assert((p * rpp < n) <==> (p < q)) by (nonlinear_arith)
        requires
            x == n + rpp - 1,
            x == rpp * q + m,
            0 <= m < rpp,
            p >= 0,
            n >= 0,
            rpp == ROWS_PER_PAGE as int,
    ;
}

/// With the invariant, the allocated pages among the first `p` slots are
/// exactly those below the page count for the rows held.
proof fn lemma_count_allocated(t: Table, p: int)
    requires
        t.wf(),
        0 <= p <= MAX_PAGES,
    ensures
        count_allocated_below(t, p) == (if p <= spec_page_count(t.num_rows as int) {
            p
        } else {
            spec_page_count(t.num_rows as int)
        }),
    decreases p,
{
    lemma_page_count_bound(t.num_rows as int);
    if p > 0 {
        lemma_count_allocated(t, p - 1);
        lemma_page_threshold(p - 1, t.num_rows as int);
    }
}

/// The page count for any row count within capacity fits the page ceiling.
proof fn lemma_page_count_bound(n: int)
    requires
        0 <= n <= MAX_ROWS,
    ensures
        0 <= spec_page_count(n) <= MAX_PAGES,
        n == 0 ==> spec_page_count(n) == 0,
{
    lemma_constants();
    let rpp = ROWS_PER_PAGE as int;
    let x = n + rpp - 1;
    lemma_fundamental_div_mod(x, rpp);
    lemma_mod_pos_bound(x, rpp);
    let q = x / rpp;
    let m = x % rpp;
    assert(0 <= q <= MAX_PAGES && (n == 0 ==> q == 0)) by (nonlinear_arith)
        requires
            x == n + rpp - 1,
            x == rpp * q + m,
            0 <= m < rpp,
            0 <= n <= MAX_ROWS,
            rpp == ROWS_PER_PAGE as int,
    ;
}

/// Appends every byte of `s` to `out`, in order.
fn append_bytes(out: &mut Vec<u8>, s: &[u8])
    ensures
        final(out)@ == old(out)@ + s@,
{
    let mut k: usize = 0;
    while k < s.len()
        invariant
            k <= s@.len(),
            out@ == old(out)@ + s@.subrange(0, k as int),
        decreases s@.len() - k,
    {
        let b = *slice_index_get(s, k);
        out.push(b);
        proof {
            assert(old(out)@ + s@.subrange(0, (k + 1) as int) =~= (old(out)@ + s@.subrange(
                0,
                k as int,
            )).push(s@[k as int]));
        }
        k += 1;
    }
    proof {
        assert(s@.subrange(0, s@.len() as int) =~= s@);
    }
}

} // verus!
