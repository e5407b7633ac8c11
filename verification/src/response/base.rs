//! The generic table: column types, the header line, the sequence number
//! line, data rows, and the decoding of single fields by their column's type.

use crate::number::decimal_digits;
use crate::number::IntErrorKind;
use crate::number::parse_decimal;
use crate::number::parse_hex16;
use crate::number::parse_hex16_bytes;
use crate::number::parse_u32;
use crate::number::parse_usize;
use crate::number::push_decimal;
use crate::text::bytes_of;
use crate::text::first_pos;
use crate::text::lines;
use crate::text::spec_lines;
use crate::text::spec_split;
use crate::text::split;
use crate::text::split_once;
use crate::text::str_eq;
use crate::text::strip_prefix;
use vstd::prelude::*;
use vstd::string::StringExecFns;
use vstd::string::StringSliceAdditionalSpecFns;
use vstd::utf8::*;

verus! {

/// `core::str::Utf8Error`: why bytes are no UTF-8. The library hands it on as
/// it came and claims nothing of what it holds.
#[verifier::external_type_specification]
#[verifier::external_body]
pub struct ExUtf8Error(core::str::Utf8Error);

/// Errors that can occur when parsing a response.
#[derive(Debug)]
pub enum Error {
    /// An unknown type name was encountered.
    UnknownTypeName(String),
    /// A type should have a colon separating the type name and length.
    ExpectedColon(String),
    /// A column should have a bang separating the name and type.
    ExpectedBang(String),
    /// A response should have exactly one seqn line.
    MultipleSeqn,
    /// A record should have exactly as many fields as the header: the count
    /// found, then the count of the header.
    MismatchedRecordLength(usize, usize),
    /// A response should have a header line.
    ExpectedHeaderLine,
    /// A response should have a seqn line.
    ExpectedSeqnLine,
    /// A record should have a field with the given name.
    ExpectedField(&'static str),
    /// A field of the given type should be non-empty.
    EmptyField(String),
    /// A field should be of the expected type: the declared type, then the
    /// expected one.
    UnexpectedType(String, String),
    /// A numeral could not be read.
    UnparseableInt(IntErrorKind),
    /// The input is not UTF-8.
    Utf8(core::str::Utf8Error),
}

/// What an `Error` says, with its texts as character sequences.
pub enum ErrorView {
    UnknownTypeName(Seq<char>),
    ExpectedColon(Seq<char>),
    ExpectedBang(Seq<char>),
    MultipleSeqn,
    MismatchedRecordLength(nat, nat),
    ExpectedHeaderLine,
    ExpectedSeqnLine,
    ExpectedField(Seq<char>),
    EmptyField(Seq<char>),
    UnexpectedType(Seq<char>, Seq<char>),
    UnparseableInt(IntErrorKind),
    Utf8,
}

impl View for Error {
    type V = ErrorView;

    open spec fn view(&self) -> ErrorView {
        match self {
            Error::UnknownTypeName(s) => ErrorView::UnknownTypeName(s@),
            Error::ExpectedColon(s) => ErrorView::ExpectedColon(s@),
            Error::ExpectedBang(s) => ErrorView::ExpectedBang(s@),
            Error::MultipleSeqn => ErrorView::MultipleSeqn,
            Error::MismatchedRecordLength(got, expected) => ErrorView::MismatchedRecordLength(
                *got as nat,
                *expected as nat,
            ),
            Error::ExpectedHeaderLine => ErrorView::ExpectedHeaderLine,
            Error::ExpectedSeqnLine => ErrorView::ExpectedSeqnLine,
            Error::ExpectedField(s) => ErrorView::ExpectedField(s@),
            Error::EmptyField(s) => ErrorView::EmptyField(s@),
            Error::UnexpectedType(found, expected) => ErrorView::UnexpectedType(
                found@,
                expected@,
            ),
            Error::UnparseableInt(kind) => ErrorView::UnparseableInt(*kind),
            Error::Utf8(_) => ErrorView::Utf8,
        }
    }
}

/// The primitive type of a column.
#[derive(Debug, PartialEq, Eq, Clone, Copy, Structural)]
pub enum TypeName {
    /// Text, e.g. "STRING:0".
    String,
    /// Bytes written as pairs of hexadecimal digits, e.g. "HEX:16".
    Hex,
    /// An unsigned decimal number, e.g. "DEC:4".
    Dec,
}

/// The ASCII letter in upper case; any other character unchanged.
pub open spec fn ascii_uppercase_char(c: char) -> char {
    if 'a' <= c <= 'z' {
        ((c as u32) - 0x20) as char
    } else {
        c
    }
}

/// An ASCII text with each of its letters in upper case.
pub open spec fn ascii_uppercase(s: Seq<char>) -> Seq<char> {
    Seq::new(s.len(), |i: int| ascii_uppercase_char(s[i]))
}

/// The upper case of a text that holds more than ASCII, as Unicode defines it.
pub uninterp spec fn unicode_uppercase(s: Seq<char>) -> Seq<char>;

/// The upper case of a text.
pub open spec fn uppercase(s: Seq<char>) -> Seq<char> {
    if is_ascii_chars(s) {
        ascii_uppercase(s)
    } else {
        unicode_uppercase(s)
    }
}

/// `str::to_uppercase`: the upper case of `s` by Unicode's rules, which on an
/// ASCII text put each of the letters a to z into upper case and change
/// nothing else.
#[verifier::external_body]
fn to_uppercase(s: &str) -> (res: String)
    ensures
        res@ == (if is_ascii_chars(s@) {
            ascii_uppercase(s@)
        } else {
            unicode_uppercase(s@)
        }),
{
    s.to_uppercase()
}

impl TypeName {
    /// The canonical name of the type.
    pub open spec fn spec_text(self) -> Seq<char> {
        match self {
            TypeName::String => "STRING"@,
            TypeName::Hex => "HEX"@,
            TypeName::Dec => "DEC"@,
        }
    }

    /// The type that a name in upper case denotes.
    pub open spec fn spec_from_uppercase(upper: Seq<char>) -> Option<TypeName> {
        if upper == "STRING"@ {
            Some(TypeName::String)
        } else if upper == "HEX"@ {
            Some(TypeName::Hex)
        } else if upper == "DEC"@ {
            Some(TypeName::Dec)
        } else {
            None
        }
    }

    /// The type that `name` denotes, in whatever case it is written.
    pub open spec fn spec_parse(name: Seq<u8>) -> Result<TypeName, ErrorView> {
        match Self::spec_from_uppercase(uppercase(decode_utf8(name))) {
            Some(t) => Ok(t),
            None => Err(ErrorView::UnknownTypeName(decode_utf8(name))),
        }
    }

    /// The canonical name of the type.
    pub fn as_str(&self) -> (res: &'static str)
        ensures
            res@ == self.spec_text(),
    {
        match self {
            TypeName::String => "STRING",
            TypeName::Hex => "HEX",
            TypeName::Dec => "DEC",
        }
    }

    /// The type that `name` denotes, in whatever case it is written.
    pub fn parse(name: &str) -> (res: Result<TypeName, Error>)
        ensures
            res matches Ok(t) ==> Self::spec_parse(name.spec_bytes()) == Ok::<TypeName, ErrorView>(
                t,
            ),
            res matches Err(e) ==> Self::spec_parse(name.spec_bytes()) == Err::<
                TypeName,
                ErrorView,
            >(e@),
    {
        proof {
            encode_utf8_decode_utf8(name@);
        }
        let upper = to_uppercase(name);
        Self::from_uppercase(upper.as_str(), name)
    }

    /// The type that the upper case `upper` of `name` denotes; `name` is what
    /// the error reports when there is none.
    pub fn from_uppercase(upper: &str, name: &str) -> (res: Result<TypeName, Error>)
        ensures
            res matches Ok(t) ==> Self::spec_from_uppercase(upper@) == Some(t),
            res matches Err(e) ==> Self::spec_from_uppercase(upper@) is None && e@
                == ErrorView::UnknownTypeName(name@),
    {
        if str_eq(upper, "STRING") {
            Ok(TypeName::String)
        } else if str_eq(upper, "HEX") {
            Ok(TypeName::Hex)
        } else if str_eq(upper, "DEC") {
            Ok(TypeName::Dec)
        } else {
            Err(Error::UnknownTypeName(name.to_owned()))
        }
    }
}

/// The byte that parts the name of a type from its length.
pub const COLON: u8 = 0x3a;

/// The byte that parts the name of a column from its type.
pub const BANG: u8 = 0x21;

/// The byte that parts the columns of a line.
pub const PIPE: u8 = 0x7c;

/// The declared type of a column: a primitive type and a length.
#[derive(Debug, PartialEq, Eq, Clone, Copy, Structural)]
pub struct Type {
    pub name: TypeName,
    pub length: usize,
}

impl Type {
    /// The type written out: the canonical name, a colon, the length.
    pub open spec fn spec_text(self) -> Seq<char> {
        self.name.spec_text() + seq![':'] + decimal_digits(self.length as nat)
    }

    /// The type that `token` declares: a type name in any case, a colon and a
    /// length. The token is cut at its first colon, and the length is read
    /// before the name.
    pub open spec fn spec_parse(token: Seq<u8>) -> Result<Type, ErrorView> {
        let i = first_pos(token, COLON);
        if i == token.len() {
            Err(ErrorView::ExpectedColon(decode_utf8(token)))
        } else {
            match parse_decimal(token.skip(i + 1), usize::MAX as nat) {
                Err(kind) => Err(ErrorView::UnparseableInt(kind)),
                Ok(length) => match TypeName::spec_parse(token.take(i)) {
                    Err(e) => Err(e),
                    Ok(name) => Ok(Type { name, length: length as usize }),
                },
            }
        }
    }

    /// Reads a declared type.
    pub fn parse(token: &str) -> (res: Result<Type, Error>)
        ensures
            res matches Ok(t) ==> Self::spec_parse(token.spec_bytes()) == Ok::<Type, ErrorView>(t),
            res matches Err(e) ==> Self::spec_parse(token.spec_bytes()) == Err::<Type, ErrorView>(
                e@,
            ),
    {
        proof {
            encode_utf8_decode_utf8(token@);
        }
        let (name, length) = match split_once(token, COLON) {
            Some(parts) => parts,
            None => {
                return Err(Error::ExpectedColon(token.to_owned()));
            },
        };
        let length = match parse_usize(length) {
            Ok(n) => n,
            Err(kind) => {
                return Err(Error::UnparseableInt(kind));
            },
        };
        match TypeName::parse(name) {
            Ok(name) => Ok(Type { name, length }),
            Err(e) => Err(e),
        }
    }

    /// Writes the type out.
    pub fn to_string(&self) -> (res: String)
        ensures
            res@ == self.spec_text(),
    {
        let mut res = String::from_str(self.name.as_str());
        proof {
            reveal_strlit(":");
        }
        res.append(":");
        push_decimal(&mut res, self.length);
        assert(res@ =~= self.spec_text());
        res
    }
}

/// One column of the header line: its name and its declared type.
#[derive(Debug, PartialEq, Eq)]
pub struct Header<'input> {
    pub name: &'input str,
    pub type_: Type,
}

/// A column, with its name as bytes.
pub struct HeaderView {
    pub name: Seq<u8>,
    pub type_: Type,
}

impl<'input> View for Header<'input> {
    type V = HeaderView;

    open spec fn view(&self) -> HeaderView {
        HeaderView { name: self.name.spec_bytes(), type_: self.type_ }
    }
}

/// The columns of a sequence of headers.
pub open spec fn headers_view(headers: Seq<Header>) -> Seq<HeaderView> {
    Seq::new(headers.len(), |i: int| headers[i]@)
}

/// The column that `token` declares: a name, a bang and a type. The token is
/// cut at its first bang.
pub open spec fn spec_parse_header(token: Seq<u8>) -> Result<HeaderView, ErrorView> {
    let i = first_pos(token, BANG);
    if i == token.len() {
        Err(ErrorView::ExpectedBang(decode_utf8(token)))
    } else {
        match Type::spec_parse(token.skip(i + 1)) {
            Err(e) => Err(e),
            Ok(type_) => Ok(HeaderView { name: token.take(i), type_ }),
        }
    }
}

/// The columns that the tokens declare, in their order; the error of the
/// first token that declares none.
pub open spec fn spec_parse_headers(tokens: Seq<Seq<u8>>) -> Result<Seq<HeaderView>, ErrorView>
    decreases tokens.len(),
{
    if tokens.len() == 0 {
        Ok(Seq::empty())
    } else {
        match spec_parse_headers(tokens.drop_last()) {
            Err(e) => Err(e),
            Ok(headers) => match spec_parse_header(tokens.last()) {
                Err(e) => Err(e),
                Ok(header) => Ok(headers.push(header)),
            },
        }
    }
}

/// The columns that a header line declares: the line is cut at every pipe.
pub open spec fn spec_parse_header_line(line: Seq<u8>) -> Result<Seq<HeaderView>, ErrorView> {
    spec_parse_headers(spec_split(line, PIPE))
}

impl<'input> Header<'input> {
    /// Reads one column of a header line.
    pub fn parse(token: &'input str) -> (res: Result<Header<'input>, Error>)
        ensures
            res matches Ok(h) ==> spec_parse_header(token.spec_bytes()) == Ok::<
                HeaderView,
                ErrorView,
            >(h@),
            res matches Err(e) ==> spec_parse_header(token.spec_bytes()) == Err::<
                HeaderView,
                ErrorView,
            >(e@),
    {
        proof {
            encode_utf8_decode_utf8(token@);
        }
        match split_once(token, BANG) {
            Some((name, tact_type)) => match Type::parse(tact_type) {
                Ok(type_) => Ok(Header { name, type_ }),
                Err(e) => Err(e),
            },
            None => Err(Error::ExpectedBang(token.to_owned())),
        }
    }

    /// Reads a header line.
    pub fn parse_header_line(s: &'input str) -> (res: Result<Vec<Header<'input>>, Error>)
        ensures
            res matches Ok(hs) ==> spec_parse_header_line(s.spec_bytes()) == Ok::<
                Seq<HeaderView>,
                ErrorView,
            >(headers_view(hs@)),
            res matches Err(e) ==> spec_parse_header_line(s.spec_bytes()) == Err::<
                Seq<HeaderView>,
                ErrorView,
            >(e@),
    {
        let tokens = split(s, PIPE);
        let ghost all = bytes_of(tokens@);
        let mut headers: Vec<Header<'input>> = Vec::new();
        let mut i: usize = 0;
        proof {
            assert(all.take(0) =~= Seq::empty());
            assert(headers_view(headers@) =~= Seq::empty());
        }
        while i < tokens.len()
            invariant
                i <= tokens@.len(),
                all == bytes_of(tokens@),
                all == spec_split(s.spec_bytes(), PIPE),
                spec_parse_headers(all.take(i as int)) == Ok::<Seq<HeaderView>, ErrorView>(
                    headers_view(headers@),
                ),
            decreases tokens@.len() - i,
        {
            let ghost before = headers_view(headers@);
            proof {
                assert(all.take(i + 1).drop_last() =~= all.take(i as int));
                assert(all.take(i + 1).last() == tokens@[i as int].spec_bytes());
            }
            match Header::parse(tokens[i]) {
                Ok(header) => {
                    headers.push(header);
                    proof {
                        assert(headers_view(headers@) =~= before.push(header@));
                    }
                },
                Err(e) => {
                    proof {
                        assert(spec_parse_headers(all.take(i + 1)) == Err::<
                            Seq<HeaderView>,
                            ErrorView,
                        >(e@));
                        lemma_parse_headers_fails(all, i + 1);
                    }
                    return Err(e);
                },
            }
            i += 1;
        }
        proof {
            assert(all.take(i as int) =~= all);
        }
        Ok(headers)
    }
}

/// Once a prefix of the tokens has failed, all of them fail in the same way.
pub proof fn lemma_parse_headers_fails(tokens: Seq<Seq<u8>>, n: int)
    requires
        0 <= n <= tokens.len(),
        spec_parse_headers(tokens.take(n)) is Err,
    ensures
        spec_parse_headers(tokens) == spec_parse_headers(tokens.take(n)),
    decreases tokens.len() - n,
{
    if n < tokens.len() {
        assert(tokens.take(n + 1).drop_last() =~= tokens.take(n));
        lemma_parse_headers_fails(tokens, n + 1);
    } else {
        assert(tokens.take(n) =~= tokens);
    }
}

/// What a line that carries the sequence number begins with.
pub const SEQN_PREFIX: &'static str = "## seqn = ";

/// A parsed response, with its texts as bytes.
pub struct TableView {
    pub seqn: u32,
    pub headers: Seq<HeaderView>,
    pub rows: Seq<Seq<Seq<u8>>>,
}

impl TableView {
    /// Every row has as many fields as there are columns.
    pub open spec fn wf(self) -> bool {
        forall|i: int| 0 <= i < self.rows.len() ==> (#[trigger] self.rows[i]).len()
            == self.headers.len()
    }
}

/// What has been read of a response after some of its lines.
pub struct ParseState {
    pub headers: Option<Seq<HeaderView>>,
    pub seqn: Option<u32>,
    pub rows: Seq<Seq<Seq<u8>>>,
}

/// Nothing read yet.
pub open spec fn initial_state() -> ParseState {
    ParseState { headers: None, seqn: None, rows: Seq::empty() }
}

/// Whether a line carries the sequence number.
pub open spec fn is_seqn_line(line: Seq<u8>) -> bool {
    SEQN_PREFIX.spec_bytes().is_prefix_of(line)
}

/// Reads one more line. A line that begins like a sequence number line is
/// one: a second one fails, a first one gives the number. The first of the
/// other lines is the header line. Every later one is a row, which must have
/// as many fields as there are columns.
pub open spec fn spec_step(state: ParseState, line: Seq<u8>) -> Result<ParseState, ErrorView> {
    if is_seqn_line(line) {
        if state.seqn is Some {
            Err(ErrorView::MultipleSeqn)
        } else {
            match parse_decimal(line.skip(SEQN_PREFIX.spec_bytes().len() as int), u32::MAX as nat) {
                Err(kind) => Err(ErrorView::UnparseableInt(kind)),
                Ok(n) => Ok(ParseState { seqn: Some(n as u32), ..state }),
            }
        }
    } else if state.headers is None {
        match spec_parse_header_line(line) {
            Err(e) => Err(e),
            Ok(headers) => Ok(ParseState { headers: Some(headers), ..state }),
        }
    } else {
        let fields = spec_split(line, PIPE);
        if fields.len() != state.headers->0.len() {
            Err(ErrorView::MismatchedRecordLength(fields.len(), state.headers->0.len()))
        } else {
            Ok(ParseState { rows: state.rows.push(fields), ..state })
        }
    }
}

/// Reads the lines in their order and stops at the first that fails.
pub open spec fn spec_run(lines: Seq<Seq<u8>>) -> Result<ParseState, ErrorView>
    decreases lines.len(),
{
    if lines.len() == 0 {
        Ok(initial_state())
    } else {
        match spec_run(lines.drop_last()) {
            Err(e) => Err(e),
            Ok(state) => spec_step(state, lines.last()),
        }
    }
}

/// What the lines read amount to: a table, if a header line and a sequence
/// number line were among them.
pub open spec fn spec_finish(state: ParseState) -> Result<TableView, ErrorView> {
    if state.headers is None {
        Err(ErrorView::ExpectedHeaderLine)
    } else if state.seqn is None {
        Err(ErrorView::ExpectedSeqnLine)
    } else {
        Ok(TableView { seqn: state.seqn->0, headers: state.headers->0, rows: state.rows })
    }
}

/// The table that a text holds.
pub open spec fn spec_parse_table(input: Seq<u8>) -> Result<TableView, ErrorView> {
    match spec_run(spec_lines(input)) {
        Err(e) => Err(e),
        Ok(state) => spec_finish(state),
    }
}

/// The table that the bytes hold, which must be UTF-8.
pub open spec fn spec_parse_table_bytes(input: Seq<u8>) -> Result<TableView, ErrorView> {
    if !valid_utf8(input) {
        Err(ErrorView::Utf8)
    } else {
        spec_parse_table(input)
    }
}

/// Once a prefix of the lines has failed, all of them fail in the same way.
pub proof fn lemma_run_fails(lines: Seq<Seq<u8>>, n: int)
    requires
        0 <= n <= lines.len(),
        spec_run(lines.take(n)) is Err,
    ensures
        spec_run(lines) == spec_run(lines.take(n)),
    decreases lines.len() - n,
{
    if n < lines.len() {
        assert(lines.take(n + 1).drop_last() =~= lines.take(n));
        lemma_run_fails(lines, n + 1);
    } else {
        assert(lines.take(n) =~= lines);
    }
}

/// The rows of a sequence of records, as bytes.
pub open spec fn rows_view(records: Seq<Vec<&str>>) -> Seq<Seq<Seq<u8>>> {
    Seq::new(records.len(), |i: int| bytes_of(records[i]@))
}

/// `core::str::from_utf8`: the bytes as a string slice if they are valid
/// UTF-8, an error if they are not.
#[verifier::external_body]
fn from_utf8<'a>(bytes: &'a [u8]) -> (res: Result<&'a str, core::str::Utf8Error>)
    ensures
        res is Ok <==> valid_utf8(bytes@),
        res matches Ok(s) ==> s.spec_bytes() == bytes@,
{
    core::str::from_utf8(bytes)
}

/// A parsed response: the sequence number, the columns, and the rows with
/// their fields as they stand in the text.
#[derive(Debug, PartialEq, Eq)]
pub struct Response<'input> {
    /// A monotonically increasing identifier. Used by caches to determine if they need to update.
    pub seqn: u32,
    pub headers: Vec<Header<'input>>,
    pub records: Vec<Vec<&'input str>>,
}

impl<'input> View for Response<'input> {
    type V = TableView;

    open spec fn view(&self) -> TableView {
        TableView {
            seqn: self.seqn,
            headers: headers_view(self.headers@),
            rows: rows_view(self.records@),
        }
    }
}

impl<'input> Response<'input> {
    /// Every row has as many fields as there are columns.
    pub open spec fn wf(&self) -> bool {
        forall|i: int| 0 <= i < self.records@.len() ==> (#[trigger] self.records@[i])@.len()
            == self.headers@.len()
    }

    /// Reads a response.
    pub fn parse(input: &'input str) -> (res: Result<Response<'input>, Error>)
        ensures
            res matches Ok(t) ==> t.wf() && spec_parse_table(input.spec_bytes()) == Ok::<
                TableView,
                ErrorView,
            >(t@),
            res matches Err(e) ==> spec_parse_table(input.spec_bytes()) == Err::<
                TableView,
                ErrorView,
            >(e@),
    {
        let all_lines = lines(input);
        let ghost all = bytes_of(all_lines@);
        let mut headers: Option<Vec<Header<'input>>> = None;
        let mut seqn: Option<u32> = None;
        let mut records: Vec<Vec<&'input str>> = Vec::new();
        let mut i: usize = 0;
        proof {
            assert(all.take(0) =~= Seq::empty());
            assert(rows_view(records@) =~= Seq::empty());
        }
        while i < all_lines.len()
            invariant
                i <= all_lines@.len(),
                all == bytes_of(all_lines@),
                all == spec_lines(input.spec_bytes()),
                spec_run(all.take(i as int)) == Ok::<ParseState, ErrorView>(
                    ParseState {
                        headers: match headers {
                            Some(hs) => Some(headers_view(hs@)),
                            None => None,
                        },
                        seqn,
                        rows: rows_view(records@),
                    },
                ),
                headers is None ==> records@.len() == 0,
                forall|j: int|
                    0 <= j < records@.len() ==> (#[trigger] records@[j])@.len()
                        == headers->0@.len(),
            decreases all_lines@.len() - i,
        {
            let line = all_lines[i];
            let ghost state = spec_run(all.take(i as int))->Ok_0;
            let ghost rows_before = rows_view(records@);
            proof {
                assert(all.take(i + 1).drop_last() =~= all.take(i as int));
                assert(all.take(i + 1).last() == line.spec_bytes());
                assert(spec_run(all.take(i + 1)) == spec_step(state, line.spec_bytes()));
            }
            if let Some(number_part) = strip_prefix(line, SEQN_PREFIX) {
                if seqn.is_some() {
                    proof {
                        lemma_run_fails(all, i + 1);
                    }
                    return Err(Error::MultipleSeqn);
                }
                match parse_u32(number_part) {
                    Ok(n) => {
                        seqn = Some(n);
                    },
                    Err(kind) => {
                        proof {
                            lemma_run_fails(all, i + 1);
                        }
                        return Err(Error::UnparseableInt(kind));
                    },
                }
            } else if headers.is_none() {
                match Header::parse_header_line(line) {
                    Ok(hs) => {
                        headers = Some(hs);
                    },
                    Err(e) => {
                        proof {
                            lemma_run_fails(all, i + 1);
                        }
                        return Err(e);
                    },
                }
            } else {
                let headers_len = match &headers {
                    Some(hs) => hs.len(),
                    None => 0,
                };
                let record = split(line, PIPE);
                if record.len() != headers_len {
                    proof {
                        lemma_run_fails(all, i + 1);
                    }
                    return Err(Error::MismatchedRecordLength(record.len(), headers_len));
                }
                records.push(record);
                proof {
                    assert(rows_view(records@) =~= rows_before.push(
                        spec_split(line.spec_bytes(), PIPE),
                    ));
                }
            }
            i += 1;
        }
        proof {
            assert(all.take(i as int) =~= all);
        }
        let headers = match headers {
            Some(hs) => hs,
            None => {
                return Err(Error::ExpectedHeaderLine);
            },
        };
        let seqn = match seqn {
            Some(n) => n,
            None => {
                return Err(Error::ExpectedSeqnLine);
            },
        };
        Ok(Response { seqn, headers, records })
    }

    /// Reads a response from bytes, which must be UTF-8.
    pub fn parse_bytes(input: &'input [u8]) -> (res: Result<Response<'input>, Error>)
        ensures
            res matches Ok(t) ==> t.wf() && spec_parse_table_bytes(input@) == Ok::<
                TableView,
                ErrorView,
            >(t@),
            res matches Err(e) ==> spec_parse_table_bytes(input@) == Err::<TableView, ErrorView>(
                e@,
            ),
    {
        match from_utf8(input) {
            Ok(text) => Self::parse(text),
            Err(e) => Err(Error::Utf8(e)),
        }
    }
}

/// A field with type "STRING:0", a String.
pub type String0 = String;

/// A field with type "HEX:16", a 16-byte value.
pub type Hex16 = [u8; 16];

/// A field with type "DEC:4", a u32.
pub type Dec4 = u32;

/// The type "STRING:0".
pub open spec fn string0_type() -> Type {
    Type { name: TypeName::String, length: 0 }
}

/// The type "HEX:16".
pub open spec fn hex16_type() -> Type {
    Type { name: TypeName::Hex, length: 16 }
}

/// The type "DEC:4".
pub open spec fn dec4_type() -> Type {
    Type { name: TypeName::Dec, length: 4 }
}

/// Sixteen bytes, or none, from a field of type "HEX:16": an empty field
/// holds none, any other must be thirty-two hexadecimal digits.
pub open spec fn spec_decode_opt_hex16(type_: Type, raw: Seq<u8>) -> Result<
    Option<Seq<u8>>,
    ErrorView,
> {
    if type_ != hex16_type() {
        Err(ErrorView::UnexpectedType(type_.spec_text(), hex16_type().spec_text()))
    } else if raw.len() == 0 {
        Ok(None)
    } else {
        match parse_hex16(raw) {
            Err(kind) => Err(ErrorView::UnparseableInt(kind)),
            Ok(bytes) => Ok(Some(bytes)),
        }
    }
}

/// Sixteen bytes from a field of type "HEX:16", which may not be empty.
pub open spec fn spec_decode_hex16(type_: Type, raw: Seq<u8>) -> Result<Seq<u8>, ErrorView> {
    match spec_decode_opt_hex16(type_, raw) {
        Err(e) => Err(e),
        Ok(None) => Err(ErrorView::EmptyField(type_.spec_text())),
        Ok(Some(bytes)) => Ok(bytes),
    }
}

/// The number in a field of type "DEC:4".
pub open spec fn spec_decode_dec4(type_: Type, raw: Seq<u8>) -> Result<u32, ErrorView> {
    if type_ != dec4_type() {
        Err(ErrorView::UnexpectedType(type_.spec_text(), dec4_type().spec_text()))
    } else {
        match parse_decimal(raw, u32::MAX as nat) {
            Err(kind) => Err(ErrorView::UnparseableInt(kind)),
            Ok(n) => Ok(n as u32),
        }
    }
}

/// The text of a field of type "STRING:0", as it stands.
pub open spec fn spec_decode_string0(type_: Type, raw: Seq<u8>) -> Result<Seq<char>, ErrorView> {
    if type_ != string0_type() {
        Err(ErrorView::UnexpectedType(type_.spec_text(), string0_type().spec_text()))
    } else {
        Ok(decode_utf8(raw))
    }
}

/// One field of a row, with the declared type of its column.
pub struct Field<'resp, 'input> {
    pub type_: &'resp Type,
    pub value: &'input str,
}

impl<'resp, 'input> Field<'resp, 'input> {
    /// Decodes a field that may be empty as sixteen bytes.
    pub fn to_opt_hex16(&self) -> (res: Result<Option<Hex16>, Error>)
        ensures
            match res {
                Ok(None) => spec_decode_opt_hex16(*self.type_, self.value.spec_bytes()) == Ok::<
                    Option<Seq<u8>>,
                    ErrorView,
                >(None),
                Ok(Some(bytes)) => spec_decode_opt_hex16(*self.type_, self.value.spec_bytes())
                    == Ok::<Option<Seq<u8>>, ErrorView>(Some(bytes@)),
                Err(e) => spec_decode_opt_hex16(*self.type_, self.value.spec_bytes()) == Err::<
                    Option<Seq<u8>>,
                    ErrorView,
                >(e@),
            },
    {
        let expected = Type { name: TypeName::Hex, length: 16 };
        if *self.type_ != expected {
            return Err(Error::UnexpectedType(self.type_.to_string(), expected.to_string()));
        }
        let raw = self.value.as_bytes();
        if raw.len() == 0 {
            Ok(None)
        } else {
            match parse_hex16_bytes(raw) {
                Ok(bytes) => Ok(Some(bytes)),
                Err(kind) => Err(Error::UnparseableInt(kind)),
            }
        }
    }

    /// Decodes a field as sixteen bytes.
    pub fn to_hex16(&self) -> (res: Result<Hex16, Error>)
        ensures
            res matches Ok(bytes) ==> spec_decode_hex16(*self.type_, self.value.spec_bytes())
                == Ok::<Seq<u8>, ErrorView>(bytes@),
            res matches Err(e) ==> spec_decode_hex16(*self.type_, self.value.spec_bytes()) == Err::<
                Seq<u8>,
                ErrorView,
            >(e@),
    {
        match self.to_opt_hex16() {
            Ok(Some(bytes)) => Ok(bytes),
            Ok(None) => Err(Error::EmptyField(self.type_.to_string())),
            Err(e) => Err(e),
        }
    }

    /// Decodes a field as a number.
    pub fn to_dec4(&self) -> (res: Result<Dec4, Error>)
        ensures
            res matches Ok(n) ==> spec_decode_dec4(*self.type_, self.value.spec_bytes()) == Ok::<
                u32,
                ErrorView,
            >(n),
            res matches Err(e) ==> spec_decode_dec4(*self.type_, self.value.spec_bytes()) == Err::<
                u32,
                ErrorView,
            >(e@),
    {
        let expected = Type { name: TypeName::Dec, length: 4 };
        if *self.type_ != expected {
            return Err(Error::UnexpectedType(self.type_.to_string(), expected.to_string()));
        }
        match parse_u32(self.value) {
            Ok(n) => Ok(n),
            Err(kind) => Err(Error::UnparseableInt(kind)),
        }
    }

    /// Decodes a field as text.
    pub fn to_string0(&self) -> (res: Result<String0, Error>)
        ensures
            res matches Ok(s) ==> spec_decode_string0(*self.type_, self.value.spec_bytes()) == Ok::<
                Seq<char>,
                ErrorView,
            >(s@),
            res matches Err(e) ==> spec_decode_string0(*self.type_, self.value.spec_bytes())
                == Err::<Seq<char>, ErrorView>(e@),
    {
        let expected = Type { name: TypeName::String, length: 0 };
        if *self.type_ != expected {
            return Err(Error::UnexpectedType(self.type_.to_string(), expected.to_string()));
        }
        proof {
            encode_utf8_decode_utf8(self.value@);
        }
        Ok(self.value.to_owned())
    }
}

/// The index of the first column named `name`, or the number of columns if
/// there is none. Names are compared byte for byte.
pub open spec fn column_of(headers: Seq<HeaderView>, name: Seq<u8>) -> int
    decreases headers.len(),
{
    if headers.len() == 0 || headers[0].name == name {
        0
    } else {
        1 + column_of(headers.drop_first(), name)
    }
}

/// `column_of` lies within the columns, none before it has the name, and it
/// points at one that has unless it is their number.
pub proof fn lemma_column_of(headers: Seq<HeaderView>, name: Seq<u8>)
    ensures
        0 <= column_of(headers, name) <= headers.len(),
        forall|j: int| 0 <= j < column_of(headers, name) ==> headers[j].name != name,
        column_of(headers, name) < headers.len() ==> headers[column_of(headers, name)].name
            == name,
    decreases headers.len(),
{
    if headers.len() == 0 || headers[0].name == name {
    } else {
        let rest = headers.drop_first();
        lemma_column_of(rest, name);
        assert forall|j: int| 0 <= j < column_of(headers, name) implies headers[j].name
            != name by {
            if j > 0 {
                assert(headers[j] == rest[j - 1]);
            }
        }
        assert(column_of(headers, name) < headers.len() ==> headers[column_of(headers, name)]
            == rest[column_of(rest, name)]);
    }
}

/// Any index of a column that has the name, with none before it that has, is
/// `column_of`; so is the number of columns when none has the name.
pub proof fn lemma_column_of_unique(headers: Seq<HeaderView>, name: Seq<u8>, i: int)
    requires
        0 <= i <= headers.len(),
        forall|j: int| 0 <= j < i ==> headers[j].name != name,
        i < headers.len() ==> headers[i].name == name,
    ensures
        column_of(headers, name) == i,
{
    lemma_column_of(headers, name);
    let p = column_of(headers, name);
    if p < i {
        assert(headers[p].name == name);
    } else if i < p {
        assert(headers[i].name == name);
    }
}

/// One row of a response together with its columns.
pub struct Record<'resp, 'input> {
    pub headers: &'resp Vec<Header<'input>>,
    pub values: &'resp Vec<&'input str>,
}

impl<'resp, 'input> Record<'resp, 'input> {
    /// The row has as many fields as there are columns.
    pub open spec fn wf(&self) -> bool {
        self.values@.len() == self.headers@.len()
    }

    /// The columns.
    pub open spec fn spec_headers(&self) -> Seq<HeaderView> {
        headers_view(self.headers@)
    }

    /// The fields of the row, as bytes.
    pub open spec fn spec_values(&self) -> Seq<Seq<u8>> {
        bytes_of(self.values@)
    }

    /// The field of the first column that is named `name`, exactly.
    pub fn get_field_by_header_name(&self, name: &str) -> (res: Option<Field<'resp, 'input>>)
        requires
            self.wf(),
        ensures
            res is Some <==> column_of(self.spec_headers(), name.spec_bytes())
                < self.spec_headers().len(),
            res matches Some(field) ==> {
                let i = column_of(self.spec_headers(), name.spec_bytes());
                &&& *field.type_ == self.spec_headers()[i].type_
                &&& field.value.spec_bytes() == self.spec_values()[i]
            },
    {
        let mut idx: usize = 0;
        while idx < self.headers.len()
            invariant
                idx <= self.headers@.len(),
                self.wf(),
                forall|j: int| 0 <= j < idx ==> self.spec_headers()[j].name != name.spec_bytes(),
            decreases self.headers@.len() - idx,
        {
            if str_eq(self.headers[idx].name, name) {
                proof {
                    lemma_column_of_unique(self.spec_headers(), name.spec_bytes(), idx as int);
                }
                return Some(Field { type_: &self.headers[idx].type_, value: self.values[idx] });
            }
            idx += 1;
        }
        proof {
            lemma_column_of_unique(self.spec_headers(), name.spec_bytes(), idx as int);
        }
        None
    }
}

/// The field of a row that stands in the first column named `name`, with the
/// declared type of that column.
pub open spec fn spec_field(headers: Seq<HeaderView>, row: Seq<Seq<u8>>, name: Seq<char>) -> Result<
    (Type, Seq<u8>),
    ErrorView,
> {
    let i = column_of(headers, encode_utf8(name));
    if i < headers.len() {
        Ok((headers[i].type_, row[i]))
    } else {
        Err(ErrorView::ExpectedField(name))
    }
}

/// The text in the column named `name`.
pub open spec fn spec_string0_field(
    headers: Seq<HeaderView>,
    row: Seq<Seq<u8>>,
    name: Seq<char>,
) -> Result<Seq<char>, ErrorView> {
    match spec_field(headers, row, name) {
        Err(e) => Err(e),
        Ok((type_, raw)) => spec_decode_string0(type_, raw),
    }
}

/// The number in the column named `name`.
pub open spec fn spec_dec4_field(
    headers: Seq<HeaderView>,
    row: Seq<Seq<u8>>,
    name: Seq<char>,
) -> Result<u32, ErrorView> {
    match spec_field(headers, row, name) {
        Err(e) => Err(e),
        Ok((type_, raw)) => spec_decode_dec4(type_, raw),
    }
}

/// The sixteen bytes in the column named `name`.
pub open spec fn spec_hex16_field(
    headers: Seq<HeaderView>,
    row: Seq<Seq<u8>>,
    name: Seq<char>,
) -> Result<Seq<u8>, ErrorView> {
    match spec_field(headers, row, name) {
        Err(e) => Err(e),
        Ok((type_, raw)) => spec_decode_hex16(type_, raw),
    }
}

/// The sixteen bytes in the column named `name`, if the field holds any.
pub open spec fn spec_opt_hex16_field(
    headers: Seq<HeaderView>,
    row: Seq<Seq<u8>>,
    name: Seq<char>,
) -> Result<Option<Seq<u8>>, ErrorView> {
    match spec_field(headers, row, name) {
        Err(e) => Err(e),
        Ok((type_, raw)) => spec_decode_opt_hex16(type_, raw),
    }
}

/// Each row through `project`, in the order of the rows; the error of the
/// first row that fails.
pub open spec fn spec_project_rows<R>(
    rows: Seq<Seq<Seq<u8>>>,
    project: spec_fn(Seq<Seq<u8>>) -> Result<R, ErrorView>,
) -> Result<Seq<R>, ErrorView>
    decreases rows.len(),
{
    if rows.len() == 0 {
        Ok(Seq::empty())
    } else {
        match spec_project_rows(rows.drop_last(), project) {
            Err(e) => Err(e),
            Ok(records) => match project(rows.last()) {
                Err(e) => Err(e),
                Ok(record) => Ok(records.push(record)),
            },
        }
    }
}

/// Once a prefix of the rows has failed, all of them fail in the same way.
pub proof fn lemma_project_rows_fails<R>(
    rows: Seq<Seq<Seq<u8>>>,
    project: spec_fn(Seq<Seq<u8>>) -> Result<R, ErrorView>,
    n: int,
)
    requires
        0 <= n <= rows.len(),
        spec_project_rows(rows.take(n), project) is Err,
    ensures
        spec_project_rows(rows, project) == spec_project_rows(rows.take(n), project),
    decreases rows.len() - n,
{
    if n < rows.len() {
        assert(rows.take(n + 1).drop_last() =~= rows.take(n));
        lemma_project_rows_fails(rows, project, n + 1);
    } else {
        assert(rows.take(n) =~= rows);
    }
}

impl<'resp, 'input> Record<'resp, 'input> {
    /// The field of the column named `name`, which must be there.
    pub fn required_field(&self, name: &'static str) -> (res: Result<Field<'resp, 'input>, Error>)
        requires
            self.wf(),
        ensures
            res matches Ok(field) ==> spec_field(self.spec_headers(), self.spec_values(), name@)
                == Ok::<(Type, Seq<u8>), ErrorView>((*field.type_, field.value.spec_bytes())),
            res matches Err(e) ==> spec_field(self.spec_headers(), self.spec_values(), name@)
                == Err::<(Type, Seq<u8>), ErrorView>(e@),
    {
        match self.get_field_by_header_name(name) {
            Some(field) => Ok(field),
            None => Err(Error::ExpectedField(name)),
        }
    }

    /// The text in the column named `name`.
    pub fn string0(&self, name: &'static str) -> (res: Result<String0, Error>)
        requires
            self.wf(),
        ensures
            res matches Ok(s) ==> spec_string0_field(self.spec_headers(), self.spec_values(), name@)
                == Ok::<Seq<char>, ErrorView>(s@),
            res matches Err(e) ==> spec_string0_field(
                self.spec_headers(),
                self.spec_values(),
                name@,
            ) == Err::<Seq<char>, ErrorView>(e@),
    {
        match self.required_field(name) {
            Ok(field) => field.to_string0(),
            Err(e) => Err(e),
        }
    }

    /// The number in the column named `name`.
    pub fn dec4(&self, name: &'static str) -> (res: Result<Dec4, Error>)
        requires
            self.wf(),
        ensures
            res matches Ok(n) ==> spec_dec4_field(self.spec_headers(), self.spec_values(), name@)
                == Ok::<u32, ErrorView>(n),
            res matches Err(e) ==> spec_dec4_field(self.spec_headers(), self.spec_values(), name@)
                == Err::<u32, ErrorView>(e@),
    {
        match self.required_field(name) {
            Ok(field) => field.to_dec4(),
            Err(e) => Err(e),
        }
    }

    /// The sixteen bytes in the column named `name`.
    pub fn hex16(&self, name: &'static str) -> (res: Result<Hex16, Error>)
        requires
            self.wf(),
        ensures
            res matches Ok(bytes) ==> spec_hex16_field(
                self.spec_headers(),
                self.spec_values(),
                name@,
            ) == Ok::<Seq<u8>, ErrorView>(bytes@),
            res matches Err(e) ==> spec_hex16_field(self.spec_headers(), self.spec_values(), name@)
                == Err::<Seq<u8>, ErrorView>(e@),
    {
        match self.required_field(name) {
            Ok(field) => field.to_hex16(),
            Err(e) => Err(e),
        }
    }

    /// The sixteen bytes in the column named `name`, if the field holds any.
    pub fn opt_hex16(&self, name: &'static str) -> (res: Result<Option<Hex16>, Error>)
        requires
            self.wf(),
        ensures
            match res {
                Ok(None) => spec_opt_hex16_field(self.spec_headers(), self.spec_values(), name@)
                    == Ok::<Option<Seq<u8>>, ErrorView>(None),
                Ok(Some(bytes)) => spec_opt_hex16_field(
                    self.spec_headers(),
                    self.spec_values(),
                    name@,
                ) == Ok::<Option<Seq<u8>>, ErrorView>(Some(bytes@)),
                Err(e) => spec_opt_hex16_field(self.spec_headers(), self.spec_values(), name@)
                    == Err::<Option<Seq<u8>>, ErrorView>(e@),
            },
    {
        match self.required_field(name) {
            Ok(field) => field.to_opt_hex16(),
            Err(e) => Err(e),
        }
    }
}

impl<'input> Response<'input> {
    /// The rows, each with the columns, in their order.
    pub fn iter_records<'resp>(&'resp self) -> (res: Vec<Record<'resp, 'input>>)
        requires
            self.wf(),
        ensures
            res@.len() == self.records@.len(),
            forall|i: int|
                0 <= i < res@.len() ==> {
                    &&& (#[trigger] res@[i]).wf()
                    &&& res@[i].spec_headers() == self@.headers
                    &&& res@[i].spec_values() == self@.rows[i]
                },
    {
        let mut res: Vec<Record<'resp, 'input>> = Vec::new();
        let mut i: usize = 0;
        while i < self.records.len()
            invariant
                i <= self.records@.len(),
                self.wf(),
                res@.len() == i,
                forall|j: int|
                    0 <= j < i ==> {
                        &&& (#[trigger] res@[j]).wf()
                        &&& res@[j].spec_headers() == self@.headers
                        &&& res@[j].spec_values() == self@.rows[j]
                    },
            decreases self.records@.len() - i,
        {
            res.push(Record { headers: &self.headers, values: &self.records[i] });
            i += 1;
        }
        res
    }
}

} // verus!
