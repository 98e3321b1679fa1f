//! The lexical tokens the parser consumes, and the cursor over them.
//!
//! An external lexer produces the tokens. Nested blocks appear inline in the
//! sequence: an opener token (`(`, `[`, `{` or a function name with `(`),
//! the block's own tokens, then its matching closer. A closer token without
//! a matching opener can also appear; re-serialization ignores it.
use vstd::prelude::*;

verus! {

/// One lexical CSS token. Text is carried as plain character sequences.
/// Numeric tokens carry the exact integer representation when the source
/// had one, plus the already-formatted text of the general (possibly
/// fractional) value, since the parser itself formats only integers.
#[derive(Clone, Debug, PartialEq)]
pub enum Token {
    /// A delimiter character.
    Delim(char),
    /// A whitespace run, preserved verbatim.
    WhiteSpace(Vec<char>),
    /// `,`
    Comma,
    /// An identifier.
    Ident(Vec<char>),
    /// An unquoted url; the text without the `url(` and `)` markers.
    UnquotedUrl(Vec<char>),
    /// A hash token; the text without the `#` marker.
    Hash(Vec<char>),
    /// A hash token that is a valid id selector; the text without the `#`.
    IdHash(Vec<char>),
    /// An at-keyword; the text without the `@` marker.
    AtKeyword(Vec<char>),
    /// A quoted string; the text without the quotes.
    QuotedString(Vec<char>),
    /// `:`
    Colon,
    /// `;`
    Semicolon,
    /// `~=`
    IncludeMatch,
    /// `|=`
    DashMatch,
    /// `^=`
    PrefixMatch,
    /// `$=`
    SuffixMatch,
    /// `*=`
    SubstringMatch,
    /// A number. `text` is the formatted value, used when `int_value` is
    /// absent.
    Number { int_value: Option<i32>, text: Vec<char> },
    /// A percentage. `int_value` is the integer percentage (not divided by
    /// 100); `text` is the formatted value multiplied by 100, used when
    /// `int_value` is absent. `%` is appended on output.
    Percentage { int_value: Option<i32>, text: Vec<char> },
    /// A dimension: a number followed by its unit text.
    Dimension { int_value: Option<i32>, text: Vec<char>, unit: Vec<char> },
    /// `(`, opening a parenthesis block.
    ParenOpen,
    /// `[`, opening a square-bracket block.
    BracketOpen,
    /// `{`, opening a curly-bracket block.
    CurlyOpen,
    /// A function name followed by `(`, opening a function block.
    Function(Vec<char>),
    /// `)`, closing a parenthesis or function block.
    CloseParen,
    /// `]`, closing a square-bracket block.
    CloseBracket,
    /// `}`, closing a curly-bracket block.
    CloseCurly,
    /// Any other token kind (comments, CDO/CDC, malformed tokens);
    /// re-serialization emits nothing for it.
    Other,
}

/// A cursor over a flat token sequence.
pub struct TokenStream {
    toks: Vec<Token>,
    pos: usize,
}

impl TokenStream {
    /// The whole token sequence.
    pub closed spec fn toks(&self) -> Seq<Token> {
        self.toks@
    }

    /// The cursor position.
    pub closed spec fn pos(&self) -> int {
        self.pos as int
    }

    /// The cursor never points past the end of the sequence.
    pub open spec fn wf(&self) -> bool {
        0 <= self.pos() <= self.toks().len()
    }

    /// A fresh cursor at the start of `toks`.
    pub fn new(toks: Vec<Token>) -> (s: TokenStream)
        ensures
            s.toks() == toks@,
            s.pos() == 0,
            s.wf(),
    {
        TokenStream { toks, pos: 0 }
    }

    /// How many tokens the stream holds.
    pub fn len(&self) -> (n: usize)
        ensures
            n as int == self.toks().len(),
    {
        self.toks.len()
    }

    /// The current cursor position.
    pub fn position(&self) -> (p: usize)
        ensures
            p as int == self.pos(),
    {
        self.pos
    }

    pub(crate) fn parts(&self) -> (r: (&Vec<Token>, usize))
        ensures
            r.0@ == self.toks(),
            r.1 as int == self.pos(),
    {
        (&self.toks, self.pos)
    }

    pub(crate) fn set_pos(&mut self, p: usize)
        requires
            p <= old(self).toks().len(),
        ensures
            final(self).toks() == old(self).toks(),
            final(self).pos() == p as int,
            final(self).wf(),
    {
        self.pos = p;
    }
}

} // verus!
