//! The fixed-width binary layout of one record.
use crate::text::{decimal, has_word, parse_u32, parse_u32_spec, push_decimal, skip_nonspaces, skip_spaces, word};
use vstd::bytes::*;
use vstd::prelude::*;
use vstd::string::*;
use vstd::utf8::*;

verus! {

/// Bytes taken by the little-endian id.
pub const ID_SIZE: usize = 4;

/// Capacity of the NUL-padded username field.
pub const USERNAME_SIZE: usize = 32;

/// Capacity of the NUL-padded email field.
pub const EMAIL_SIZE: usize = 255;

/// Bytes taken by one encoded record.
pub const ROW_SIZE: usize = 291;

/// Mathematical value of a row: the id and both raw, padded fields.
pub ghost struct RowView {
    pub id: u32,
    pub username: Seq<u8>,
    pub email: Seq<u8>,
}

/// One fixed-schema record; `username` and `email` are NUL-padded buffers.
pub struct Row {
    pub id: u32,
    pub username: Vec<u8>,
    pub email: Vec<u8>,
}

impl View for Row {
    type V = RowView;

    open spec fn view(&self) -> RowView {
        RowView { id: self.id, username: self.username@, email: self.email@ }
    }
}

impl RowView {
    /// Both fields have their fixed capacity.
    pub open spec fn wf(self) -> bool {
        self.username.len() == USERNAME_SIZE && self.email.len() == EMAIL_SIZE
    }
}

/// The 291-byte encoding: id, then username, then email.
pub open spec fn encode_spec(r: RowView) -> Seq<u8> {
    spec_u32_to_le_bytes(r.id) + r.username + r.email
}

/// The row that a 291-byte record holds.
pub open spec fn decode_spec(b: Seq<u8>) -> RowView {
    RowView {
        id: spec_u32_from_le_bytes(b.subrange(0, 4)),
        username: b.subrange(4, 36),
        email: b.subrange(36, 291),
    }
}

/// Why a line could not become a statement.
#[derive(Debug, PartialEq, Eq, Structural)]
pub enum PrepareResult {
    SyntaxError,
    StringTooLong,
    UnrecognizedStatement,
}

/// `b` followed by zero bytes up to length `n`.
pub open spec fn padded(b: Seq<u8>, n: nat) -> Seq<u8> {
    b + Seq::new((n - b.len()) as nat, |i: int| 0u8)
}

/// What `Row::from_str` makes of the text `s`: the first three
/// whitespace-separated words are the id, the username and the email.
pub open spec fn parse_spec(s: Seq<char>) -> Result<RowView, PrepareResult> {
    if !has_word(s, 0) || parse_u32_spec(word(s, 0)) is None {
        Err(PrepareResult::SyntaxError)
    } else if !has_word(s, 1) {
        Err(PrepareResult::SyntaxError)
    } else if encode_utf8(word(s, 1)).len() > USERNAME_SIZE {
        Err(PrepareResult::StringTooLong)
    } else if !has_word(s, 2) {
        Err(PrepareResult::SyntaxError)
    } else if encode_utf8(word(s, 2)).len() > EMAIL_SIZE {
        Err(PrepareResult::StringTooLong)
    } else {
        Ok(
            RowView {
                id: parse_u32_spec(word(s, 0)).unwrap(),
                username: padded(encode_utf8(word(s, 1)), USERNAME_SIZE as nat),
                email: padded(encode_utf8(word(s, 2)), EMAIL_SIZE as nat),
            },
        )
    }
}

/// Index of the first zero byte of `b` at or after `i` (or `b.len()`).
pub open spec fn nul_index(b: Seq<u8>, i: int) -> int
    decreases b.len() - i,
{
    if i < 0 || i >= b.len() || b[i] == 0 {
        i
    } else {
        nul_index(b, i + 1)
    }
}

/// Text shown in place of a field whose bytes are not UTF-8.
pub open spec fn invalid_text() -> Seq<u8> {
    "<Invalid utf-8>".spec_bytes()
}

/// The bytes shown for a stored field: those before the first zero byte if
/// they are valid UTF-8, else the placeholder.
pub open spec fn field_text(b: Seq<u8>) -> Seq<u8> {
    let p = b.subrange(0, nul_index(b, 0));
    if valid_utf8(p) {
        p
    } else {
        invalid_text()
    }
}

/// The display form `(<id> <username> <email>)`.
pub open spec fn display_spec(r: RowView) -> Seq<u8> {
    seq![40u8] + decimal(r.id as nat) + seq![32u8] + field_text(r.username) + seq![32u8]
        + field_text(r.email) + seq![41u8]
}

/// Relies on std::str::from_utf8: it accepts exactly the valid UTF-8 byte
/// strings and then views the same bytes as text.
#[verifier::external_body]
fn utf8_text<'a>(b: &'a [u8]) -> (r: Option<&'a str>)
    ensures
        r is Some <==> valid_utf8(b@),
        r matches Some(t) ==> t.spec_bytes() == b@,
{
    std::str::from_utf8(b).ok()
}

/// Appends all of `b` to `out`.
pub fn push_all(out: &mut Vec<u8>, b: &[u8])
    ensures
        final(out)@ == old(out)@ + b@,
{
    let mut i: usize = 0;
    while i < b.len()
        invariant
            i <= b@.len(),
            out@ == old(out)@ + b@.subrange(0, i as int),
        decreases b@.len() - i,
    {
        out.push(b[i]);
        i = i + 1;
        proof {
            assert(out@ =~= old(out)@ + b@.subrange(0, i as int));
        }
    }
    proof {
        assert(b@.subrange(0, i as int) =~= b@);
    }
}

/// A buffer of `n` bytes holding `b` left-aligned, zero-padded.
fn pad_bytes(b: &[u8], n: usize) -> (r: Vec<u8>)
    requires
        b@.len() <= n,
    ensures
        r@ == padded(b@, n as nat),
{
    let mut out: Vec<u8> = Vec::new();
    push_all(&mut out, b);
    let mut i: usize = b.len();
    while i < n
        invariant
            b@.len() <= i <= n,
            out@ == b@ + Seq::new((i - b@.len()) as nat, |j: int| 0u8),
        decreases n - i,
    {
        out.push(0);
        i = i + 1;
        proof {
            assert(out@ =~= b@ + Seq::new((i - b@.len()) as nat, |j: int| 0u8));
        }
    }
    out
}

impl Row {
    pub open spec fn wf(&self) -> bool {
        self@.wf()
    }

    /// Encodes the row as its 291-byte record.
    pub fn encode(&self) -> (r: Vec<u8>)
        requires
            self.wf(),
        ensures
            r@ == encode_spec(self@),
            r@.len() == ROW_SIZE,
    {
        proof {
            lemma_auto_spec_u32_to_from_le_bytes();
        }
        let mut out = u32_to_le_bytes(self.id);
        let mut i: usize = 0;
        while i < USERNAME_SIZE
            invariant
                self.wf(),
                i <= USERNAME_SIZE,
                out@ == spec_u32_to_le_bytes(self.id) + self.username@.subrange(0, i as int),
            decreases USERNAME_SIZE - i,
        {
            out.push(self.username[i]);
            i = i + 1;
            proof {
                assert(self.username@.subrange(0, i as int) =~= self.username@.subrange(
                    0,
                    i - 1,
                ).push(self.username@[i - 1]));
            }
        }
        let mut j: usize = 0;
        while j < EMAIL_SIZE
            invariant
                self.wf(),
                j <= EMAIL_SIZE,
                out@ == spec_u32_to_le_bytes(self.id) + self.username@ + self.email@.subrange(
                    0,
                    j as int,
                ),
            decreases EMAIL_SIZE - j,
        {
            out.push(self.email[j]);
            j = j + 1;
            proof {
                assert(self.email@.subrange(0, j as int) =~= self.email@.subrange(0, j - 1).push(
                    self.email@[j - 1],
                ));
            }
        }
        proof {
            assert(self.username@.subrange(0, 32) =~= self.username@);
            assert(self.email@.subrange(0, 255) =~= self.email@);
        }
        out
    }

    /// Decodes the record that starts at `start` in `bytes`; nothing is validated.
    pub fn decode(bytes: &[u8], start: usize) -> (r: Row)
        requires
            start + ROW_SIZE <= bytes@.len(),
        ensures
            r@ == decode_spec(bytes@.subrange(start as int, start + ROW_SIZE)),
            r.wf(),
    {
        let ghost rec = bytes@.subrange(start as int, start + ROW_SIZE);
        let n = bytes.len();
        let id = u32_from_le_bytes(vstd::slice::slice_subrange(bytes, start, start + ID_SIZE));
        let mut username: Vec<u8> = Vec::new();
        let mut i: usize = 0;
        while i < USERNAME_SIZE
            invariant
                start + ROW_SIZE <= bytes@.len(),
                n == bytes@.len(),
                i <= USERNAME_SIZE,
                username@ == bytes@.subrange(start + 4, start + 4 + i),
            decreases USERNAME_SIZE - i,
        {
            username.push(bytes[start + ID_SIZE + i]);
            i = i + 1;
            proof {
                assert(username@ =~= bytes@.subrange(start + 4, start + 4 + i));
            }
        }
        let mut email: Vec<u8> = Vec::new();
        let mut j: usize = 0;
        while j < EMAIL_SIZE
            invariant
                start + ROW_SIZE <= bytes@.len(),
                n == bytes@.len(),
                j <= EMAIL_SIZE,
                email@ == bytes@.subrange(start + 36, start + 36 + j),
            decreases EMAIL_SIZE - j,
        {
            email.push(bytes[start + 36 + j]);
            j = j + 1;
            proof {
                assert(email@ =~= bytes@.subrange(start + 36, start + 36 + j));
            }
        }
        proof {
            assert(rec.subrange(0, 4) =~= bytes@.subrange(start as int, start + 4));
            assert(rec.subrange(4, 36) =~= username@);
            assert(rec.subrange(36, 291) =~= email@);
        }
        Row { id, username, email }
    }
}

impl Row {
    /// Parses `id username email` from whitespace-separated text; further
    /// words are ignored.
    pub fn from_str(s: &str) -> (r: Result<Row, PrepareResult>)
        ensures
            match r {
                Ok(row) => parse_spec(s@) == Ok::<RowView, PrepareResult>(row@) && row.wf(),
                Err(e) => parse_spec(s@) == Err::<RowView, PrepareResult>(e),
            },
    {
        let n = s.unicode_len();
        let a0 = skip_spaces(s, n, 0);
        if a0 == n {
            return Err(PrepareResult::SyntaxError);
        }
        let b0 = skip_nonspaces(s, n, a0);
        let id = match parse_u32(s, a0, b0) {
            Some(v) => v,
            None => {
                return Err(PrepareResult::SyntaxError);
            },
        };
        let a1 = skip_spaces(s, n, b0);
        if a1 == n {
            return Err(PrepareResult::SyntaxError);
        }
        let b1 = skip_nonspaces(s, n, a1);
        let username = s.substring_char(a1, b1).as_bytes();
        if username.len() > USERNAME_SIZE {
            return Err(PrepareResult::StringTooLong);
        }
        let a2 = skip_spaces(s, n, b1);
        if a2 == n {
            return Err(PrepareResult::SyntaxError);
        }
        let b2 = skip_nonspaces(s, n, a2);
        let email = s.substring_char(a2, b2).as_bytes();
        if email.len() > EMAIL_SIZE {
            return Err(PrepareResult::StringTooLong);
        }
        Ok(Row { id, username: pad_bytes(username, USERNAME_SIZE), email: pad_bytes(email, EMAIL_SIZE) })
    }

    /// The text of a stored field: the bytes before the first zero byte, or
    /// the placeholder `<Invalid utf-8>` where those are not valid UTF-8.
    pub fn bytes_to_str(bytes: &[u8]) -> (r: &str)
        ensures
            r.spec_bytes() == field_text(bytes@),
    {
        let n = bytes.len();
        let mut k: usize = 0;
        while k < n && bytes[k] != 0
            invariant
                k <= n == bytes@.len(),
                nul_index(bytes@, k as int) == nul_index(bytes@, 0),
            decreases n - k,
        {
            k = k + 1;
        }
        let prefix = vstd::slice::slice_subrange(bytes, 0, k);
        match utf8_text(prefix) {
            Some(t) => t,
            None => "<Invalid utf-8>",
        }
    }

    pub fn username_str(&self) -> (r: &str)
        ensures
            r.spec_bytes() == field_text(self.username@),
    {
        Self::bytes_to_str(self.username.as_slice())
    }

    pub fn email_str(&self) -> (r: &str)
        ensures
            r.spec_bytes() == field_text(self.email@),
    {
        Self::bytes_to_str(self.email.as_slice())
    }

    /// The display form `(<id> <username> <email>)` as UTF-8 bytes.
    pub fn display(&self) -> (r: Vec<u8>)
        ensures
            r@ == display_spec(self@),
    {
        let mut out: Vec<u8> = Vec::new();
        out.push(40);
        push_decimal(&mut out, self.id);
        out.push(32);
        push_all(&mut out, self.username_str().as_bytes());
        out.push(32);
        push_all(&mut out, self.email_str().as_bytes());
        out.push(41);
        proof {
            assert(out@ =~= display_spec(self@));
        }
        out
    }
}

/// Decoding an encoded row gives the row back.
pub proof fn lemma_decode_encode(r: RowView)
    requires
        r.wf(),
    ensures
        encode_spec(r).len() == ROW_SIZE,
        decode_spec(encode_spec(r)) == r,
{
    lemma_auto_spec_u32_to_from_le_bytes();
    let b = encode_spec(r);
    assert(b.subrange(0, 4) =~= spec_u32_to_le_bytes(r.id));
    assert(b.subrange(4, 36) =~= r.username);
    assert(b.subrange(36, 291) =~= r.email);
}

proof fn lemma_nul_index_padded(b: Seq<u8>, n: nat, i: int)
    requires
        b.len() <= n,
        0 <= i <= b.len(),
        forall|j: int| 0 <= j < b.len() ==> #[trigger] b[j] != 0,
    ensures
        nul_index(padded(b, n), i) == b.len(),
    decreases b.len() - i,
{
    if i < b.len() {
        lemma_nul_index_padded(b, n, i + 1);
    }
}

/// A field read back from its NUL-padded buffer shows the text that was
/// stored, provided that text is valid UTF-8 without zero bytes.
pub proof fn lemma_field_text_padded(b: Seq<u8>, n: nat)
    requires
        b.len() <= n,
        valid_utf8(b),
        forall|j: int| 0 <= j < b.len() ==> #[trigger] b[j] != 0,
    ensures
        field_text(padded(b, n)) == b,
{
    lemma_nul_index_padded(b, n, 0);
    assert(padded(b, n).subrange(0, b.len() as int) =~= b);
}

proof fn lemma_scalar_has_no_zero_byte(c: char)
    requires
        c != '\0',
    ensures
        forall|j: int|
            0 <= j < encode_scalar(c as u32).len() ==> #[trigger] encode_scalar(c as u32)[j] != 0,
{
    let v = c as u32;
    char_is_scalar(c);
    assert(v != 0);
    if has_width_1_encoding(v) {
        assert(0 < v <= 0x7f ==> (v & 0x7f) as u8 != 0) by (bit_vector);
    } else {
        assert(forall|x: u8| #[trigger] (0xC0u8 | x) != 0) by (bit_vector);
        assert(forall|x: u8| #[trigger] (0xE0u8 | x) != 0) by (bit_vector);
        assert(forall|x: u8| #[trigger] (0xF0u8 | x) != 0) by (bit_vector);
        assert(forall|x: u8| #[trigger] (0x80u8 | x) != 0) by (bit_vector);
    }
}

proof fn lemma_encoding_has_no_zero_byte(w: Seq<char>)
    requires
        !w.contains('\0'),
    ensures
        forall|j: int| 0 <= j < encode_utf8(w).len() ==> #[trigger] encode_utf8(w)[j] != 0,
    decreases w.len(),
{
    if w.len() > 0 {
        assert(w[0] != '\0');
        lemma_scalar_has_no_zero_byte(w[0]);
        assert(!w.drop_first().contains('\0')) by {
            if w.drop_first().contains('\0') {
                let k = choose|k: int| 0 <= k < w.drop_first().len() && w.drop_first()[k] == '\0';
                assert(w[k + 1] == '\0');
            }
        }
        lemma_encoding_has_no_zero_byte(w.drop_first());
        let e = encode_utf8(w);
        let a = encode_scalar(w[0] as u32);
        assert(e == a + encode_utf8(w.drop_first()));
        assert forall|j: int| 0 <= j < e.len() implies #[trigger] e[j] != 0 by {
            if j >= a.len() {
                assert(e[j] == encode_utf8(w.drop_first())[j - a.len()]);
            }
        }
    }
}

/// A row parsed from text and stored keeps the text: encoding and decoding it
/// gives back the id, and the username and email shown are the words as
/// typed, once their NUL padding is cut off (for words without a NUL
/// character).
pub proof fn lemma_parsed_row_round_trip(s: Seq<char>)
    requires
        parse_spec(s) is Ok,
        !word(s, 1).contains('\0'),
        !word(s, 2).contains('\0'),
    ensures
        ({
            let r = decode_spec(encode_spec(parse_spec(s)->Ok_0));
            &&& r.id == parse_u32_spec(word(s, 0))->Some_0
            &&& field_text(r.username) == encode_utf8(word(s, 1))
            &&& field_text(r.email) == encode_utf8(word(s, 2))
        }),
{
    let r = parse_spec(s)->Ok_0;
    assert(r.wf());
    lemma_decode_encode(r);
    encode_utf8_valid_utf8(word(s, 1));
    encode_utf8_valid_utf8(word(s, 2));
    lemma_encoding_has_no_zero_byte(word(s, 1));
    lemma_encoding_has_no_zero_byte(word(s, 2));
    lemma_field_text_padded(encode_utf8(word(s, 1)), USERNAME_SIZE as nat);
    lemma_field_text_padded(encode_utf8(word(s, 2)), EMAIL_SIZE as nat);
}

} // verus!
