//! The Gopher menu decoder: entity classification and record parsing.
//!
//! A menu response is a sequence of lines, each
//! `<type-byte><display>\t<selector>\t<host>\t<port>[\t<extra>]*\r\n`,
//! terminated by a line holding a single `.`. The spec functions in this
//! module define that grammar over `Seq<u8>`, and the executable parser is
//! proved to decode exactly what the grammar denotes.

use vstd::prelude::*;

verus! {

/// The sixteen entity kinds with a code assigned by RFC 1436.
#[derive(Clone, Copy, Debug, PartialEq, Eq, Structural)]
pub enum KnownDirEntity {
    File,
    Dir,
    CsoQuery,
    Error,
    MacBinHex,
    DosBin,
    Uuenc,
    SearchQuery,
    Telnet,
    Binary,
    RedundantServer,
    Tn3270,
    Gif,
    Html,
    Info,
    Image,
}

/// The kind of a directory entry: a catalogued code, or any other
/// type-indicator byte carried verbatim.
#[derive(Clone, Copy, Debug, PartialEq, Eq, Structural)]
pub enum DirEntityKind {
    Known(KnownDirEntity),
    Unknown(u8),
}

/// Why decoding a menu failed. Transport-level failures belong to the
/// embedding program; the decoder itself can fail only in these ways.
#[derive(Clone, Copy, Debug, PartialEq, Eq, Structural)]
pub enum ParseError {
    /// The buffer ran out before the current record was complete.
    UnexpectedEndOfStream,
    /// A text field (display, host or port) held a byte outside 7-bit ASCII.
    InvalidEncoding,
    /// The port field was not the decimal notation of a 16-bit integer.
    InvalidPort,
}

/// ASCII tab, the field delimiter.
pub const TAB: u8 = 9;

/// ASCII carriage return, the first byte of a line terminator.
pub const CR: u8 = 13;

/// ASCII line feed, the second byte of a line terminator.
pub const LF: u8 = 10;

/// ASCII full stop, the byte that opens the end-of-menu sentinel line.
pub const DOT: u8 = 46;

/// The type-indicator byte catalog of RFC 1436, keyed by the ASCII value
/// of the code character (`'0'` through `'9'`, `'+'`, `'T'`, `'g'`, `'h'`,
/// `'i'`, `'I'`).
pub open spec fn spec_classify(b: u8) -> DirEntityKind {
    match b {
        48u8 => DirEntityKind::Known(KnownDirEntity::File),
        49u8 => DirEntityKind::Known(KnownDirEntity::Dir),
        50u8 => DirEntityKind::Known(KnownDirEntity::CsoQuery),
        51u8 => DirEntityKind::Known(KnownDirEntity::Error),
        52u8 => DirEntityKind::Known(KnownDirEntity::MacBinHex),
        53u8 => DirEntityKind::Known(KnownDirEntity::DosBin),
        54u8 => DirEntityKind::Known(KnownDirEntity::Uuenc),
        55u8 => DirEntityKind::Known(KnownDirEntity::SearchQuery),
        56u8 => DirEntityKind::Known(KnownDirEntity::Telnet),
        57u8 => DirEntityKind::Known(KnownDirEntity::Binary),
        43u8 => DirEntityKind::Known(KnownDirEntity::RedundantServer),
        84u8 => DirEntityKind::Known(KnownDirEntity::Tn3270),
        103u8 => DirEntityKind::Known(KnownDirEntity::Gif),
        104u8 => DirEntityKind::Known(KnownDirEntity::Html),
        105u8 => DirEntityKind::Known(KnownDirEntity::Info),
        73u8 => DirEntityKind::Known(KnownDirEntity::Image),
        _ => DirEntityKind::Unknown(b),
    }
}

/// Whether `b` is one of the sixteen catalogued type-indicator bytes.
pub open spec fn is_known_code(b: u8) -> bool {
    b == 48 || b == 49 || b == 50 || b == 51 || b == 52 || b == 53 || b == 54 || b == 55
        || b == 56 || b == 57 || b == 43 || b == 84 || b == 103 || b == 104 || b == 105 || b == 73
}

impl DirEntityKind {
    /// Classify a type-indicator byte. Total: catalogued bytes give their
    /// `Known` variant, every other byte gives `Unknown` carrying it.
    pub fn from_byte(byte: u8) -> (r: DirEntityKind)
        ensures
            r == spec_classify(byte),
    {
        match byte {
            48u8 => DirEntityKind::Known(KnownDirEntity::File),
            49u8 => DirEntityKind::Known(KnownDirEntity::Dir),
            50u8 => DirEntityKind::Known(KnownDirEntity::CsoQuery),
            51u8 => DirEntityKind::Known(KnownDirEntity::Error),
            52u8 => DirEntityKind::Known(KnownDirEntity::MacBinHex),
            53u8 => DirEntityKind::Known(KnownDirEntity::DosBin),
            54u8 => DirEntityKind::Known(KnownDirEntity::Uuenc),
            55u8 => DirEntityKind::Known(KnownDirEntity::SearchQuery),
            56u8 => DirEntityKind::Known(KnownDirEntity::Telnet),
            57u8 => DirEntityKind::Known(KnownDirEntity::Binary),
            43u8 => DirEntityKind::Known(KnownDirEntity::RedundantServer),
            84u8 => DirEntityKind::Known(KnownDirEntity::Tn3270),
            103u8 => DirEntityKind::Known(KnownDirEntity::Gif),
            104u8 => DirEntityKind::Known(KnownDirEntity::Html),
            105u8 => DirEntityKind::Known(KnownDirEntity::Info),
            73u8 => DirEntityKind::Known(KnownDirEntity::Image),
            _ => DirEntityKind::Unknown(byte),
        }
    }
}

/// The byte-to-kind mapping is injective: two bytes classify alike only if
/// they are equal. In particular each of the sixteen catalogued codes has
/// its own `Known` variant, and an `Unknown` kind names its byte uniquely.
pub proof fn lemma_classify_injective(b1: u8, b2: u8)
    ensures
        spec_classify(b1) == spec_classify(b2) ==> b1 == b2,
{
}

/// The mapping is total over the catalog: a byte yields a `Known` kind
/// exactly when it is one of the sixteen codes, and any other byte yields
/// `Unknown` carrying that exact byte.
pub proof fn lemma_classify_total(b: u8)
    ensures
        is_known_code(b) <==> spec_classify(b) is Known,
        !is_known_code(b) ==> spec_classify(b) == DirEntityKind::Unknown(b),
{
}

/// Whether every byte of `s` is 7-bit ASCII, the only text this decoder
/// accepts for display, host and port fields.
pub open spec fn ascii_ok(s: Seq<u8>) -> bool {
    forall|k: int| 0 <= k < s.len() ==> s[k] < 128
}

/// The characters denoted by a sequence of ASCII bytes.
pub open spec fn ascii_chars(s: Seq<u8>) -> Seq<char> {
    s.map_values(|b: u8| b as char)
}

/// Scanning one tab-delimited field starting at position `i` of `s`:
/// `Some((content, next))` gives the field's bytes and the position of the
/// byte after the field, `None` means the buffer ran out mid-field.
///
/// A tab ends the field and is consumed; a CR followed by LF ends the field
/// and is left unconsumed for the record terminator; a lone CR is ordinary
/// field content. A CR as the very last byte is `None`: telling a line
/// terminator from field content needs one byte of lookahead.
pub open spec fn spec_field(s: Seq<u8>, i: int) -> Option<(Seq<u8>, int)>
    decreases s.len() - i,
{
    if i < 0 || i >= s.len() {
        None
    } else if s[i] == TAB {
        Some((Seq::empty(), i + 1))
    } else if s[i] == CR {
        if i + 1 >= s.len() {
            None
        } else if s[i + 1] == LF {
            Some((Seq::empty(), i))
        } else {
            match spec_field(s, i + 1) {
                None => None,
                Some((c, j)) => Some((seq![s[i]] + c, j)),
            }
        }
    } else {
        match spec_field(s, i + 1) {
            None => None,
            Some((c, j)) => Some((seq![s[i]] + c, j)),
        }
    }
}

/// An empty field — its opening position already holds the delimiting tab,
/// as between two adjacent tabs — decodes to the empty byte sequence rather
/// than failing.
pub proof fn lemma_empty_field(s: Seq<u8>, i: int)
    requires
        0 <= i < s.len(),
        s[i] == TAB,
    ensures
        spec_field(s, i) == Some::<(Seq<u8>, int)>((Seq::empty(), i + 1)),
{
}

/// A successful field scan never moves backwards and never leaves the buffer.
pub proof fn lemma_field_bounds(s: Seq<u8>, i: int)
    ensures
        spec_field(s, i) matches Some((c, j)) ==> i <= j <= s.len(),
    decreases s.len() - i,
{
    if 0 <= i < s.len() && s[i] != TAB {
        lemma_field_bounds(s, i + 1);
    }
}

/// Skipping ignored trailing fields: the position right after the first
/// CRLF at or after `i`, or `None` if the buffer ends first.
pub open spec fn spec_skip(s: Seq<u8>, i: int) -> Option<int>
    decreases s.len() - i,
{
    if i < 0 || i >= s.len() {
        None
    } else if s[i] == CR {
        if i + 1 >= s.len() {
            None
        } else if s[i + 1] == LF {
            Some(i + 2)
        } else {
            spec_skip(s, i + 1)
        }
    } else {
        spec_skip(s, i + 1)
    }
}

/// Skipping to a line terminator consumes the CRLF and stays in the buffer.
pub proof fn lemma_skip_bounds(s: Seq<u8>, i: int)
    ensures
        spec_skip(s, i) matches Some(j) ==> i + 2 <= j <= s.len(),
    decreases s.len() - i,
{
    if 0 <= i < s.len() {
        lemma_skip_bounds(s, i + 1);
    }
}

/// Whether `b` is an ASCII decimal digit.
pub open spec fn is_digit(b: u8) -> bool {
    48 <= b <= 57
}

/// Whether `s` consists of decimal digits only.
pub open spec fn all_digits(s: Seq<u8>) -> bool {
    forall|k: int| 0 <= k < s.len() ==> is_digit(s[k])
}

/// The number denoted by a sequence of decimal digits, most significant
/// digit first.
pub open spec fn digits_val(s: Seq<u8>) -> int
    decreases s.len(),
{
    if s.len() == 0 {
        0
    } else {
        digits_val(s.drop_last()) * 10 + (s.last() - 48)
    }
}

/// The port a field denotes: its decimal value, if the field is a nonempty
/// run of digits whose value fits in sixteen bits.
pub open spec fn spec_port(s: Seq<u8>) -> Option<u16> {
    if s.len() > 0 && all_digits(s) && digits_val(s) <= 0xffff {
        Some(digits_val(s) as u16)
    } else {
        None
    }
}

/// One decoded menu line.
#[derive(Debug, PartialEq, Eq)]
pub struct DirEntity {
    /// The classified type-indicator byte.
    pub kind: DirEntityKind,
    /// The human-readable label, 7-bit ASCII in this decoder.
    pub display: String,
    /// The opaque selector bytes; may be empty, never interpreted.
    pub selector: Vec<u8>,
    /// The host to fetch the entry from, 7-bit ASCII.
    pub host: String,
    /// The TCP port to fetch the entry from.
    pub port: u16,
}

/// The mathematical content of one menu line: what `spec_record` yields and
/// what a [`DirEntity`] is held against.
pub struct EntityModel {
    /// The classified type-indicator byte.
    pub kind: DirEntityKind,
    /// The display field's bytes, all ASCII.
    pub display: Seq<u8>,
    /// The selector field's bytes, unconstrained.
    pub selector: Seq<u8>,
    /// The host field's bytes, all ASCII.
    pub host: Seq<u8>,
    /// The decoded port number.
    pub port: u16,
}

impl DirEntity {
    /// Whether this entry carries exactly the content of model `m`.
    pub open spec fn models(self, m: EntityModel) -> bool {
        &&& self.kind == m.kind
        &&& self.display@ == ascii_chars(m.display)
        &&& self.selector@ == m.selector
        &&& self.host@ == ascii_chars(m.host)
        &&& self.port == m.port
    }
}

/// Parsing one record whose type-indicator byte stands at `i`: the record's
/// model and the position after its terminating CRLF, or the first failure.
///
/// The type byte is consumed unexamined (classification is total), then the
/// display, selector, host and port fields are scanned in order; display,
/// host and port must be ASCII, the port must denote a 16-bit number, and
/// any further tab-delimited fields before the CRLF are skipped unread.
pub open spec fn spec_record(s: Seq<u8>, i: int) -> Result<(EntityModel, int), ParseError> {
    if i < 0 || i >= s.len() {
        Err(ParseError::UnexpectedEndOfStream)
    } else {
        let kind_byte = s[i];
        match spec_field(s, i + 1) {
            None => Err(ParseError::UnexpectedEndOfStream),
            Some((display, j1)) => if !ascii_ok(display) {
                Err(ParseError::InvalidEncoding)
            } else {
                match spec_field(s, j1) {
                    None => Err(ParseError::UnexpectedEndOfStream),
                    Some((selector, j2)) => match spec_field(s, j2) {
                        None => Err(ParseError::UnexpectedEndOfStream),
                        Some((host, j3)) => if !ascii_ok(host) {
                            Err(ParseError::InvalidEncoding)
                        } else {
                            match spec_field(s, j3) {
                                None => Err(ParseError::UnexpectedEndOfStream),
                                Some((port_field, j4)) => if !ascii_ok(port_field) {
                                    Err(ParseError::InvalidEncoding)
                                } else {
                                    match spec_port(port_field) {
                                        None => Err(ParseError::InvalidPort),
                                        Some(port) => match spec_skip(s, j4) {
                                            None => Err(ParseError::UnexpectedEndOfStream),
                                            Some(j5) => Ok(
                                                (
                                                    EntityModel {
                                                        kind: spec_classify(kind_byte),
                                                        display,
                                                        selector,
                                                        host,
                                                        port,
                                                    },
                                                    j5,
                                                ),
                                            ),
                                        },
                                    }
                                },
                            }
                        },
                    },
                }
            },
        }
    }
}

/// A parsed record consumes its type byte and its terminating CRLF, so the
/// position strictly advances and stays in the buffer.
pub proof fn lemma_record_bounds(s: Seq<u8>, i: int)
    ensures
        spec_record(s, i) matches Ok((m, j)) ==> i + 3 <= j <= s.len(),
{
    if 0 <= i < s.len() {
        lemma_field_bounds(s, i + 1);
        if let Some((display, j1)) = spec_field(s, i + 1) {
            lemma_field_bounds(s, j1);
            if let Some((selector, j2)) = spec_field(s, j1) {
                lemma_field_bounds(s, j2);
                if let Some((host, j3)) = spec_field(s, j2) {
                    lemma_field_bounds(s, j3);
                    if let Some((port_field, j4)) = spec_field(s, j3) {
                        lemma_skip_bounds(s, j4);
                    }
                }
            }
        }
    }
}

/// Parsing the menu whose next byte stands at `i`: the models of the records
/// up to (and excluding) the sentinel line, and the sentinel's position; or
/// the first failure. The sentinel contributes no record.
pub open spec fn spec_menu(s: Seq<u8>, i: int) -> Result<(Seq<EntityModel>, int), ParseError>
    decreases s.len() - i,
        via spec_menu_decreases
{
    if i < 0 || i >= s.len() {
        Err(ParseError::UnexpectedEndOfStream)
    } else if s[i] == DOT {
        Ok((Seq::empty(), i))
    } else {
        match spec_record(s, i) {
            Err(e) => Err(e),
            Ok((m, j)) => match spec_menu(s, j) {
                Err(e) => Err(e),
                Ok((rest, k)) => Ok((seq![m] + rest, k)),
            },
        }
    }
}

#[via_fn]
proof fn spec_menu_decreases(s: Seq<u8>, i: int) {
    lemma_record_bounds(s, i);
}

/// Decodes a text field: succeeds exactly when every byte is 7-bit ASCII,
/// and then returns the string of those characters.
pub fn bytes_to_string(bytes: &[u8]) -> (r: Result<String, ParseError>)
    ensures
        match r {
            Ok(t) => ascii_ok(bytes@) && t@ == ascii_chars(bytes@),
            Err(e) => e == ParseError::InvalidEncoding && !ascii_ok(bytes@),
        },
{
    let mut i: usize = 0;
    while i < bytes.len()
        invariant
            i <= bytes@.len(),
            forall|k: int| 0 <= k < i ==> bytes@[k] < 128,
        decreases bytes@.len() - i,
    {
        if bytes[i] >= 128 {
            return Err(ParseError::InvalidEncoding);
        }
        i += 1;
    }
    Ok(ascii_to_string(bytes))
}

/// Relies on `String::from_utf8`: a buffer of bytes below 128 is valid
/// UTF-8, and decodes to exactly those bytes as code points.
#[verifier::external_body]
fn ascii_to_string(bytes: &[u8]) -> (r: String)
    requires
        ascii_ok(bytes@),
    ensures
        r@ == ascii_chars(bytes@),
{
    String::from_utf8(bytes.to_vec()).unwrap()
}

/// Every digit string denotes a number of at least zero.
proof fn lemma_digits_val_nonneg(s: Seq<u8>)
    requires
        all_digits(s),
    ensures
        digits_val(s) >= 0,
    decreases s.len(),
{
    if s.len() > 0 {
        lemma_digits_val_nonneg(s.drop_last());
    }
}

/// Extending a digit string to the right never shrinks its value.
proof fn lemma_digits_val_prefix_le(s: Seq<u8>, k: int)
    requires
        all_digits(s),
        0 <= k <= s.len(),
    ensures
        digits_val(s.subrange(0, k)) <= digits_val(s),
    decreases s.len() - k,
{
    if k < s.len() {
        lemma_digits_val_nonneg(s.subrange(0, k));
        assert(s.subrange(0, k + 1).drop_last() =~= s.subrange(0, k));
        lemma_digits_val_prefix_le(s, k + 1);
    } else {
        assert(s.subrange(0, k) =~= s);
    }
}

/// Decodes the port field: succeeds exactly when the field is a nonempty
/// run of decimal digits whose value fits in sixteen bits.
pub fn parse_port(field: &[u8]) -> (r: Result<u16, ParseError>)
    ensures
        match r {
            Ok(p) => spec_port(field@) == Some(p),
            Err(e) => e == ParseError::InvalidPort && spec_port(field@) is None,
        },
{
    if field.len() == 0 {
        return Err(ParseError::InvalidPort);
    }
    let mut val: u32 = 0;
    let mut i: usize = 0;
    while i < field.len()
        invariant
            i <= field@.len(),
            forall|k: int| 0 <= k < i ==> is_digit(field@[k]),
            val == digits_val(field@.subrange(0, i as int)),
            val <= 0xffff,
        decreases field@.len() - i,
    {
        let b = field[i];
        if b < 48 || b > 57 {
            proof {
                assert(!is_digit(field@[i as int]));
            }
            return Err(ParseError::InvalidPort);
        }
        let nv: u32 = val * 10 + (b - 48) as u32;
        proof {
            assert(field@.subrange(0, i + 1).drop_last() =~= field@.subrange(0, i as int));
            assert(digits_val(field@.subrange(0, i + 1)) == nv);
        }
        if nv > 0xffff {
            proof {
                if all_digits(field@) {
                    lemma_digits_val_prefix_le(field@, i + 1);
                }
            }
            return Err(ParseError::InvalidPort);
        }
        val = nv;
        i += 1;
    }
    proof {
        assert(field@.subrange(0, i as int) =~= field@);
    }
    Ok(val as u16)
}

/// What `Parser::parse_field` promises about a scan that started at
/// position `i` of `s` and left the cursor at `j`.
pub open spec fn field_post(s: Seq<u8>, i: int, r: Result<Vec<u8>, ParseError>, j: int) -> bool {
    match r {
        Ok(v) => spec_field(s, i) == Some::<(Seq<u8>, int)>((v@, j)) && i <= j,
        Err(e) => e == ParseError::UnexpectedEndOfStream && spec_field(s, i) is None,
    }
}

/// What `Parser::parse_direntity` promises about a record parse that
/// started at position `i` of `s` and left the cursor at `j`.
pub open spec fn record_post(s: Seq<u8>, i: int, r: Result<DirEntity, ParseError>, j: int) -> bool {
    match spec_record(s, i) {
        Ok((m, jj)) => r matches Ok(ent) && ent.models(m) && j == jj,
        Err(e) => r matches Err(e2) && e2 == e,
    }
}

/// Whether the entries of `v` carry, in order, exactly the content of the
/// models `ms`.
pub open spec fn entities_model(v: Seq<DirEntity>, ms: Seq<EntityModel>) -> bool {
    &&& v.len() == ms.len()
    &&& forall|k: int| 0 <= k < v.len() ==> #[trigger] v[k].models(ms[k])
}

/// What `Parser::parse_menu` promises about a menu parse that started at
/// position `i` of `s` and left the cursor at `j`.
pub open spec fn menu_post(
    s: Seq<u8>,
    i: int,
    r: Result<Vec<DirEntity>, ParseError>,
    j: int,
) -> bool {
    match spec_menu(s, i) {
        Ok((ms, jj)) => r matches Ok(v) && entities_model(v@, ms) && j == jj,
        Err(e) => r matches Err(e2) && e2 == e,
    }
}

/// Whether two decoded entries carry the same content, field for field.
pub open spec fn entity_eq(a: DirEntity, b: DirEntity) -> bool {
    &&& a.kind == b.kind
    &&& a.display@ == b.display@
    &&& a.selector@ == b.selector@
    &&& a.host@ == b.host@
    &&& a.port == b.port
}

/// Decoding is deterministic: any two record sequences that carry the
/// models of one menu — as two parses of the same bytes from the same
/// position must, by `menu_post` — are identical in content, record for
/// record. A parser holds no state that survives into an independent
/// invocation on an independent buffer.
pub proof fn lemma_menu_deterministic(ms: Seq<EntityModel>, v1: Seq<DirEntity>, v2: Seq<DirEntity>)
    requires
        entities_model(v1, ms),
        entities_model(v2, ms),
    ensures
        v1.len() == v2.len(),
        forall|k: int| 0 <= k < v1.len() ==> entity_eq(v1[k], v2[k]),
{
    assert forall|k: int| 0 <= k < v1.len() implies entity_eq(v1[k], v2[k]) by {
        assert(v1[k].models(ms[k]));
        assert(v2[k].models(ms[k]));
    }
}

/// The loop invariant of `parse_field`: scanning onward from `i` with the
/// bytes `acc` already collected comes to the same field as scanning from
/// the field's start `i0`.
spec fn field_frame(s: Seq<u8>, i0: int, i: int, acc: Seq<u8>) -> bool {
    match spec_field(s, i) {
        Some((c, j)) => spec_field(s, i0) == Some::<(Seq<u8>, int)>((acc + c, j)),
        None => spec_field(s, i0) is None,
    }
}

/// The loop invariant of `parse_menu`: parsing onward from `i` with the
/// models `acc` already decoded comes to the same menu as parsing from the
/// menu's start `i0`.
spec fn menu_frame(s: Seq<u8>, i0: int, i: int, acc: Seq<EntityModel>) -> bool {
    match spec_menu(s, i) {
        Ok((rest, j)) => spec_menu(s, i0) == Ok::<_, ParseError>((acc + rest, j)),
        Err(e) => spec_menu(s, i0) == Err::<(Seq<EntityModel>, int), _>(e),
    }
}

/// An incremental decoder over one menu response.
///
/// The parser owns the response bytes and a cursor; the byte under the
/// cursor is the one the grammar examines next, and `peek` supplies the one
/// byte of lookahead that telling a CRLF terminator from a lone CR inside a
/// field requires.
pub struct Parser {
    input: Vec<u8>,
    pos: usize,
}

impl Parser {
    /// The response bytes this parser decodes.
    pub closed spec fn bytes(self) -> Seq<u8> {
        self.input@
    }

    /// The cursor: the position of the next byte to examine.
    pub closed spec fn at(self) -> int {
        self.pos as int
    }

    /// The cursor never leaves the buffer.
    pub closed spec fn wf(self) -> bool {
        self.pos <= self.input@.len()
    }

    /// A fresh parser over one response buffer, cursor at the start.
    pub fn new(input: Vec<u8>) -> (p: Parser)
        ensures
            p.wf(),
            p.bytes() == input@,
            p.at() == 0,
    {
        Parser { input, pos: 0 }
    }

    /// The byte under the cursor, or `None` at the end of the buffer.
    fn current(&self) -> (r: Option<u8>)
        requires
            self.wf(),
        ensures
            match r {
                Some(b) => self.at() < self.bytes().len() && b == self.bytes()[self.at()],
                None => self.at() == self.bytes().len(),
            },
    {
        if self.pos < self.input.len() {
            Some(self.input[self.pos])
        } else {
            None
        }
    }

    /// The one-byte lookahead: the byte after the cursor, without moving
    /// the cursor.
    fn peek(&self) -> (r: Option<u8>)
        requires
            self.wf(),
        ensures
            match r {
                Some(b) => self.at() + 1 < self.bytes().len() && b == self.bytes()[self.at() + 1],
                None => self.at() + 1 >= self.bytes().len(),
            },
    {
        if self.pos < self.input.len() && self.pos + 1 < self.input.len() {
            Some(self.input[self.pos + 1])
        } else {
            None
        }
    }

    /// Moves the cursor to the next byte.
    fn bump(&mut self)
        requires
            old(self).wf(),
            old(self).at() < old(self).bytes().len(),
        ensures
            final(self).wf(),
            final(self).bytes() == old(self).bytes(),
            final(self).at() == old(self).at() + 1,
    {
        proof {
            broadcast use vstd::std_specs::vec::axiom_spec_len;

            assert(self.pos < vstd::std_specs::vec::spec_vec_len(&self.input));
        }
        self.pos += 1;
    }

    /// Scans one tab-delimited field from the cursor, per the shared field
    /// rule: a tab ends the field and is consumed, a CRLF ends the field
    /// and is left for the record terminator, a lone CR is content. Fails
    /// exactly when the buffer ends mid-field.
    #[verifier::loop_isolation(false)]
    pub fn parse_field(&mut self) -> (r: Result<Vec<u8>, ParseError>)
        requires
            old(self).wf(),
        ensures
            final(self).wf(),
            final(self).bytes() == old(self).bytes(),
            field_post(old(self).bytes(), old(self).at(), r, final(self).at()),
    {
        let ghost s = self.bytes();
        let ghost i0: int = self.at();
        let mut out: Vec<u8> = Vec::new();
        proof {
            if let Some((c, j)) = spec_field(s, i0) {
                assert(Seq::<u8>::empty() + c =~= c);
            }
        }
        loop
            invariant
                self.wf(),
                self.bytes() == s,
                i0 <= self.at(),
                field_frame(s, i0, self.at(), out@),
            decreases s.len() - self.at(),
        {
            let byte = match self.current() {
                Some(b) => b,
                None => {
                    proof {
                        assert(spec_field(s, self.at()) is None);
                    }
                    return Err(ParseError::UnexpectedEndOfStream);
                },
            };
            if byte == TAB {
                proof {
                    assert(spec_field(s, self.at()) == Some::<(Seq<u8>, int)>(
                        (Seq::empty(), self.at() + 1),
                    ));
                    assert(out@ + Seq::<u8>::empty() =~= out@);
                }
                self.bump();
                return Ok(out);
            }
            if byte == CR {
                match self.peek() {
                    None => {
                        proof {
                            assert(spec_field(s, self.at()) is None);
                        }
                        return Err(ParseError::UnexpectedEndOfStream);
                    },
                    Some(next) => if next == LF {
                        proof {
                            assert(spec_field(s, self.at()) == Some::<(Seq<u8>, int)>(
                                (Seq::empty(), self.at()),
                            ));
                            assert(out@ + Seq::<u8>::empty() =~= out@);
                        }
                        return Ok(out);
                    },
                }
            }
            let ghost prev: int = self.at();
            let ghost oacc = out@;
            out.push(byte);
            self.bump();
            proof {
                if let Some((c, j)) = spec_field(s, self.at()) {
                    assert(spec_field(s, prev) == Some::<(Seq<u8>, int)>((seq![byte] + c, j)));
                    assert(oacc + (seq![byte] + c) =~= (oacc + seq![byte]) + c);
                    assert(out@ =~= oacc + seq![byte]);
                }
            }
        }
    }

    /// Advances past any ignored trailing fields to just after the line's
    /// terminating CRLF, consuming both terminator bytes. Fails exactly
    /// when the buffer ends before a CRLF.
    #[verifier::loop_isolation(false)]
    fn skip_trailing(&mut self) -> (r: Result<(), ParseError>)
        requires
            old(self).wf(),
        ensures
            final(self).wf(),
            final(self).bytes() == old(self).bytes(),
            match r {
                Ok(_) => spec_skip(old(self).bytes(), old(self).at()) == Some(final(self).at()),
                Err(e) => e == ParseError::UnexpectedEndOfStream && spec_skip(
                    old(self).bytes(),
                    old(self).at(),
                ) is None,
            },
    {
        let ghost s = self.bytes();
        let ghost i0: int = self.at();
        loop
            invariant
                self.wf(),
                self.bytes() == s,
                spec_skip(s, i0) == spec_skip(s, self.at()),
            decreases s.len() - self.at(),
        {
            let byte = match self.current() {
                Some(b) => b,
                None => {
                    proof {
                        assert(spec_skip(s, self.at()) is None);
                    }
                    return Err(ParseError::UnexpectedEndOfStream);
                },
            };
            if byte == CR {
                match self.peek() {
                    None => {
                        proof {
                            assert(spec_skip(s, self.at()) is None);
                        }
                        return Err(ParseError::UnexpectedEndOfStream);
                    },
                    Some(next) => if next == LF {
                        proof {
                            assert(spec_skip(s, self.at()) == Some(self.at() + 2));
                        }
                        self.bump();
                        self.bump();
                        return Ok(());
                    },
                }
            }
            let ghost prev: int = self.at();
            self.bump();
            proof {
                assert(spec_skip(s, prev) == spec_skip(s, self.at()));
            }
        }
    }

    /// Parses one directory-entry record at the cursor: the type byte, the
    /// display, selector, host and port fields in order, then any ignored
    /// trailing fields up to and including the CRLF. The decoded entry
    /// carries exactly the record's model; failures are those of
    /// `spec_record`, and no partial entry is returned.
    pub fn parse_direntity(&mut self) -> (r: Result<DirEntity, ParseError>)
        requires
            old(self).wf(),
        ensures
            final(self).wf(),
            final(self).bytes() == old(self).bytes(),
            record_post(old(self).bytes(), old(self).at(), r, final(self).at()),
    {
        let kind_byte = match self.current() {
            Some(b) => b,
            None => {
                return Err(ParseError::UnexpectedEndOfStream);
            },
        };
        self.bump();
        let display_bytes = match self.parse_field() {
            Ok(v) => v,
            Err(e) => {
                return Err(e);
            },
        };
        let display = match bytes_to_string(display_bytes.as_slice()) {
            Ok(t) => t,
            Err(e) => {
                return Err(e);
            },
        };
        let selector = match self.parse_field() {
            Ok(v) => v,
            Err(e) => {
                return Err(e);
            },
        };
        let host_bytes = match self.parse_field() {
            Ok(v) => v,
            Err(e) => {
                return Err(e);
            },
        };
        let host = match bytes_to_string(host_bytes.as_slice()) {
            Ok(t) => t,
            Err(e) => {
                return Err(e);
            },
        };
        let port_bytes = match self.parse_field() {
            Ok(v) => v,
            Err(e) => {
                return Err(e);
            },
        };
        match bytes_to_string(port_bytes.as_slice()) {
            Ok(_) => {},
            Err(e) => {
                return Err(e);
            },
        }
        let port = match parse_port(port_bytes.as_slice()) {
            Ok(p) => p,
            Err(e) => {
                return Err(e);
            },
        };
        match self.skip_trailing() {
            Ok(_) => {},
            Err(e) => {
                return Err(e);
            },
        }
        Ok(
            DirEntity {
                kind: DirEntityKind::from_byte(kind_byte),
                display,
                selector,
                host,
                port,
            },
        )
    }

    /// Parses a Gopher menu listing into directory entries: records in
    /// source order up to the sentinel line, which yields no record. The
    /// cursor is left at the sentinel byte. Decoding is all-or-nothing:
    /// the first failure is returned and no partial listing escapes.
    #[verifier::loop_isolation(false)]
    pub fn parse_menu(&mut self) -> (r: Result<Vec<DirEntity>, ParseError>)
        requires
            old(self).wf(),
        ensures
            final(self).wf(),
            final(self).bytes() == old(self).bytes(),
            menu_post(old(self).bytes(), old(self).at(), r, final(self).at()),
    {
        let ghost s = self.bytes();
        let ghost i0: int = self.at();
        let mut out: Vec<DirEntity> = Vec::new();
        let ghost mut acc: Seq<EntityModel> = Seq::empty();
        loop
            invariant
                self.wf(),
                self.bytes() == s,
                entities_model(out@, acc),
                menu_frame(s, i0, self.at(), acc),
            decreases s.len() - self.at(),
        {
            let byte = match self.current() {
                Some(b) => b,
                None => {
                    proof {
                        assert(spec_menu(s, self.at()) is Err);
                    }
                    return Err(ParseError::UnexpectedEndOfStream);
                },
            };
            if byte == DOT {
                proof {
                    assert(spec_menu(s, self.at()) == Ok::<_, ParseError>(
                        (Seq::<EntityModel>::empty(), self.at()),
                    ));
                    assert(acc + Seq::<EntityModel>::empty() =~= acc);
                }
                return Ok(out);
            }
            let ghost prev: int = self.at();
            let ent = match self.parse_direntity() {
                Ok(ent) => ent,
                Err(e) => {
                    proof {
                        assert(spec_menu(s, prev) is Err);
                    }
                    return Err(e);
                },
            };
            proof {
                lemma_record_bounds(s, prev);
            }
            let ghost m = spec_record(s, prev)->Ok_0.0;
            let ghost oout = out@;
            let ghost oacc = acc;
            out.push(ent);
            proof {
                acc = oacc.push(m);
                assert(oacc.push(m) =~= oacc + seq![m]);
                assert(out@ =~= oout.push(ent));
                assert(entities_model(out@, acc)) by {
                    assert forall|k: int| 0 <= k < out@.len() implies #[trigger] out@[k].models(
                        acc[k],
                    ) by {
                        if k < oout.len() {
                            assert(oout[k].models(oacc[k]));
                        }
                    }
                }
                if let Ok((rest, j)) = spec_menu(s, self.at()) {
                    assert(spec_menu(s, prev) == Ok::<_, ParseError>((seq![m] + rest, j)));
                    assert(oacc + (seq![m] + rest) =~= (oacc + seq![m]) + rest);
                }
            }
        }
    }
}

} // verus!
