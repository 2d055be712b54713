use vstd::prelude::*;

verus! {

/// The name could not be registered although no symbol of that name exists.
pub struct InvalidName(pub String);

/// What failed during compilation.
#[derive(Clone, Copy, Debug, PartialEq, Eq)]
pub enum ParseErrorKind {
    Unknown,
    Syntax,
    Token,
    Numeric,
    Symtab,
    Lexer,
    Helper,
    Parser,
}

/// The kind that an engine mode code stands for.
pub open spec fn kind_of_code(code: i32) -> Option<ParseErrorKind> {
    if code == 0 { Some(ParseErrorKind::Unknown) }
    else if code == 1 { Some(ParseErrorKind::Syntax) }
    else if code == 2 { Some(ParseErrorKind::Token) }
    else if code == 4 { Some(ParseErrorKind::Numeric) }
    else if code == 5 { Some(ParseErrorKind::Symtab) }
    else if code == 6 { Some(ParseErrorKind::Lexer) }
    else if code == 7 { Some(ParseErrorKind::Helper) }
    else if code == 8 { Some(ParseErrorKind::Parser) }
    else { None }
}

impl ParseErrorKind {
    /// Maps an engine mode code to its kind; `None` for an unknown code.
    pub fn from_code(code: i32) -> (r: Option<ParseErrorKind>)
        ensures
            r == kind_of_code(code),
    {
        match code {
            0 => Some(ParseErrorKind::Unknown),
            1 => Some(ParseErrorKind::Syntax),
            2 => Some(ParseErrorKind::Token),
            4 => Some(ParseErrorKind::Numeric),
            5 => Some(ParseErrorKind::Symtab),
            6 => Some(ParseErrorKind::Lexer),
            7 => Some(ParseErrorKind::Helper),
            8 => Some(ParseErrorKind::Parser),
            _ => None,
        }
    }
}

/// A compilation failure: its kind, the offending token, a diagnostic, the
/// source line, and 1-based line and column numbers.
pub struct ParseError {
    pub kind: ParseErrorKind,
    pub token_type: String,
    pub token_value: String,
    pub message: String,
    pub line: String,
    pub line_no: usize,
    pub column_no: usize,
}

impl ParseError {
    /// Builds the error from an engine diagnostic record that reports an
    /// error. `None` where it names an unknown kind, an engine fault.
    pub fn from_record(
        is_err: bool,
        mode: i32,
        token_type: String,
        token_value: String,
        message: String,
        line: String,
        line_no: usize,
        column_no: usize,
    ) -> (r: Option<ParseError>)
        requires
            is_err,
        ensures
            r.is_some() <==> kind_of_code(mode).is_some(),
            r matches Some(e) ==> {
                &&& Some(e.kind) == kind_of_code(mode)
                &&& e.token_type@ == token_type@
                &&& e.token_value@ == token_value@
                &&& e.message@ == message@
                &&& e.line@ == line@
                &&& e.line_no == line_no
                &&& e.column_no == column_no
            },
    {
        match ParseErrorKind::from_code(mode) {
            Some(kind) => Some(ParseError { kind, token_type, token_value, message, line, line_no, column_no }),
            None => None,
        }
    }
}

/// The 1-based line of position `p` of `s`.
pub open spec fn line_of(s: Seq<char>, p: int) -> nat
    decreases p,
{
    if p <= 0 { 1 } else { line_of(s, p - 1) + (if s[p - 1] == '\n' { 1nat } else { 0nat }) }
}

/// The 1-based column of position `p` of `s`.
pub open spec fn column_of(s: Seq<char>, p: int) -> nat
    decreases p,
{
    if p <= 0 { 1 } else if s[p - 1] == '\n' { 1 } else { column_of(s, p - 1) + 1 }
}

proof fn lemma_position_bounds(s: Seq<char>, p: int)
    requires
        0 <= p,
    ensures
        line_of(s, p) <= p + 1,
        column_of(s, p) <= p + 1,
    decreases p,
{
    if p > 0 {
        lemma_position_bounds(s, p - 1);
    }
}

impl ParseError {
    /// The error for text that holds a NUL character, which no expression
    /// may contain: a lexer error at the first NUL. `None` for text without one.
    pub fn nul_in_text(text: &str) -> (r: Option<ParseError>)
        requires
            text@.len() < usize::MAX,
        ensures
            r is None <==> !text@.contains('\0'),
            r matches Some(e) ==> exists|p: int| {
                &&& 0 <= p < text@.len()
                &&& text@[p] == '\0'
                &&& forall|q: int| 0 <= q < p ==> text@[q] != '\0'
                &&& e.kind == ParseErrorKind::Lexer
                &&& e.line@ == text@
                &&& e.line_no == line_of(text@, p)
                &&& e.column_no == column_of(text@, p)
            },
    {
        let len = text.unicode_len();
        let mut i: usize = 0;
        let mut line_no: usize = 1;
        let mut column_no: usize = 1;
        while i < len
            invariant
                len == text@.len(),
                len < usize::MAX,
                i <= len,
                forall|q: int| 0 <= q < i ==> text@[q] != '\0',
                line_no == line_of(text@, i as int),
                column_no == column_of(text@, i as int),
            decreases len - i,
        {
            proof { lemma_position_bounds(text@, i as int); }
            let c = text.get_char(i);
            if c == '\0' {
                let e = ParseError {
                    kind: ParseErrorKind::Lexer,
                    token_type: "ERROR".to_string(),
                    token_value: "NUL".to_string(),
                    message: "NUL character in expression text".to_string(),
                    line: text.to_string(),
                    line_no,
                    column_no,
                };
                assert(text@.contains('\0')) by { assert(text@[i as int] == '\0'); }
                return Some(e);
            }
            if c == '\n' {
                line_no = line_no + 1;
                column_no = 1;
            } else {
                column_no = column_no + 1;
            }
            i = i + 1;
        }
        assert(!text@.contains('\0'));
        None
    }
}

} // verus!
