//! Splits template text into tokens.
use vstd::prelude::*;
use crate::error::{Error, ErrorKind};
use crate::text::{chars_of, span_is};

verus! {

/// The kind of a token. Identifiers and strings carry the span of their
/// characters in the source.
#[derive(Clone, Copy, Debug, PartialEq, Eq, Structural)]
pub enum Kind {
    Ident(usize, usize),
    /// The characters between the quotes, escapes left as written.
    String(usize, usize),
    Number(u64),
    Hex(u8, u8, u8),
    Colon,
    Comma,
    Fullstop,
    LBracket,
    RBracket,
    LParen,
    RParen,
    LDoubleCurly,
    RDoubleCurly,
    /// Leading spaces of a line, by count.
    Indent(usize),
    Newline,
    Comment,
    For,
    In,
    If,
    Else,
    View,
    EOF,
}

/// A token and the span `start..end` of source characters it covers.
#[derive(Clone, Copy, Debug, PartialEq, Eq, Structural)]
pub struct Token {
    pub kind: Kind,
    pub start: usize,
    pub end: usize,
}

pub open spec fn is_digit(c: char) -> bool {
    '0' <= c <= '9'
}

pub open spec fn is_hex_digit(c: char) -> bool {
    is_digit(c) || 'a' <= c <= 'f' || 'A' <= c <= 'F'
}

pub open spec fn hex_value(c: char) -> nat {
    if is_digit(c) {
        (c as nat - '0' as nat) as nat
    } else if 'a' <= c <= 'f' {
        (c as nat - 'a' as nat + 10) as nat
    } else {
        (c as nat - 'A' as nat + 10) as nat
    }
}

pub open spec fn is_ident_start(c: char) -> bool {
    'a' <= c <= 'z' || 'A' <= c <= 'Z' || c == '_'
}

pub open spec fn is_ident_char(c: char) -> bool {
    is_ident_start(c) || is_digit(c) || c == '-' || c == '|'
}

/// Blanks between tokens.
pub open spec fn is_blank(c: char) -> bool {
    c == ' ' || c == '\t' || c == '\r'
}

/// The value of a run of decimal digits.
pub open spec fn digits_value(s: Seq<char>) -> nat
    decreases s.len(),
{
    if s.len() == 0 {
        0
    } else {
        digits_value(s.drop_last()) * 10 + (s.last() as nat - '0' as nat) as nat
    }
}

pub open spec fn is_keyword(s: Seq<char>) -> bool {
    s == "for"@ || s == "in"@ || s == "if"@ || s == "else"@ || s == "view"@
}

/// Whether `s[i..e]` can stand between two quotes: every quote in it is
/// escaped, a backslash taking the character after it along.
pub open spec fn string_body(s: Seq<char>, i: int, e: int) -> bool
    decreases e - i,
{
    if i >= e {
        i == e
    } else if s[i] == '\\' {
        i + 1 < e && string_body(s, i + 2, e)
    } else {
        s[i] != '"' && string_body(s, i + 1, e)
    }
}

/// What a token of kind `kind` covering `src[start..end]` must look like.
pub open spec fn token_ok(src: Seq<char>, t: Token) -> bool {
    let (s, e) = (t.start as int, t.end as int);
    let text = src.subrange(s, e);
    &&& 0 <= s <= e <= src.len()
    &&& match t.kind {
        Kind::Ident(a, b) => {
            &&& a == s && b == e && s < e
            &&& is_ident_start(src[s])
            &&& forall|k: int| s <= k < e ==> is_ident_char(#[trigger] src[k])
            &&& (e == src.len() || !is_ident_char(src[e]))
            &&& !is_keyword(text)
        },
        Kind::String(a, b) => {
            &&& a == s + 1 && b + 1 == e && src[s] == '"' && src[b as int] == '"'
            &&& string_body(src, a as int, b as int)
        },
        Kind::Number(n) => {
            &&& s < e
            &&& forall|k: int| s <= k < e ==> is_digit(#[trigger] src[k])
            &&& (e == src.len() || !is_digit(src[e]))
            &&& n == digits_value(text)
        },
        Kind::Hex(r, g, b) => {
            &&& e == s + 7 && src[s] == '#'
            &&& forall|k: int| s < k < e ==> is_hex_digit(#[trigger] src[k])
            &&& r == hex_value(src[s + 1]) * 16 + hex_value(src[s + 2])
            &&& g == hex_value(src[s + 3]) * 16 + hex_value(src[s + 4])
            &&& b == hex_value(src[s + 5]) * 16 + hex_value(src[s + 6])
        },
        Kind::Colon => e == s + 1 && src[s] == ':',
        Kind::Comma => e == s + 1 && src[s] == ',',
        Kind::Fullstop => e == s + 1 && src[s] == '.',
        Kind::LBracket => e == s + 1 && src[s] == '[',
        Kind::RBracket => e == s + 1 && src[s] == ']',
        Kind::LParen => e == s + 1 && src[s] == '(',
        Kind::RParen => e == s + 1 && src[s] == ')',
        Kind::LDoubleCurly => e == s + 2 && src[s] == '{' && src[s + 1] == '{',
        Kind::RDoubleCurly => e == s + 2 && src[s] == '}' && src[s + 1] == '}',
        Kind::Indent(n) => {
            &&& n == e - s && s < e
            &&& (s == 0 || src[s - 1] == '\n')
            &&& forall|k: int| s <= k < e ==> #[trigger] src[k] == ' '
            &&& (e == src.len() || src[e] != ' ')
        },
        Kind::Newline => e == s + 1 && src[s] == '\n',
        Kind::Comment => {
            &&& e >= s + 2 && src[s] == '/' && src[s + 1] == '/'
            &&& forall|k: int| s <= k < e ==> #[trigger] src[k] != '\n'
            &&& (e == src.len() || src[e] == '\n')
        },
        Kind::For => text == "for"@ && (e == src.len() || !is_ident_char(src[e])),
        Kind::In => text == "in"@ && (e == src.len() || !is_ident_char(src[e])),
        Kind::If => text == "if"@ && (e == src.len() || !is_ident_char(src[e])),
        Kind::Else => text == "else"@ && (e == src.len() || !is_ident_char(src[e])),
        Kind::View => text == "view"@ && (e == src.len() || !is_ident_char(src[e])),
        Kind::EOF => s == e && e == src.len(),
    }
}

/// Whether `src[from..to]` holds blanks only.
pub open spec fn blanks(src: Seq<char>, from: int, to: int) -> bool {
    forall|k: int| from <= k < to ==> is_blank(#[trigger] src[k])
}

/// Where a lexical error points: a tab in indentation, a `#` not followed by
/// six hex digits, a quote without its closing quote, a number too large for
/// `u64`, or a character that starts no token.
pub open spec fn lex_error_at(src: Seq<char>, e: Error) -> bool {
    &&& e.pos < src.len()
    &&& match e.kind {
        ErrorKind::InvalidIndentation => src[e.pos as int] == '\t',
        ErrorKind::InvalidHexValue => src[e.pos as int] == '#' && !(e.pos + 7 <= src.len() && forall|k: int|
            e.pos < k < e.pos + 7 ==> is_hex_digit(#[trigger] src[k])),
        ErrorKind::UnterminatedString => src[e.pos as int] == '"',
        ErrorKind::InvalidNumber => is_digit(src[e.pos as int]) && digits_value(
            src.subrange(e.pos as int, digit_run_end(src, e.pos as int)),
        ) > u64::MAX,
        ErrorKind::InvalidToken { expected } => expected@.len() == 0 && !starts_token(src, e.pos as int),
    }
}

/// Whether a token can start at `i`: a blank, a punctuation mark or
/// newline, a doubled `{`, `}` or `/`, a quote, `#`, a digit or an identifier.
pub open spec fn starts_token(src: Seq<char>, i: int) -> bool {
    let c = src[i];
    ||| is_blank(c)
    ||| c == ':' || c == ',' || c == '.' || c == '[' || c == ']' || c == '(' || c == ')' || c == '\n'
    ||| ((c == '{' || c == '}' || c == '/') && i + 1 < src.len() && src[i + 1] == c)
    ||| c == '"' || c == '#' || is_digit(c) || is_ident_start(c)
}

/// The end of the run of digits that starts at `k`.
pub open spec fn digit_run_end(src: Seq<char>, k: int) -> int
    decreases src.len() - k,
{
    if 0 <= k < src.len() && is_digit(src[k]) {
        digit_run_end(src, k + 1)
    } else {
        k
    }
}

proof fn lemma_digit_run(src: Seq<char>, k: int)
    requires
        0 <= k <= src.len(),
    ensures
        k <= digit_run_end(src, k) <= src.len(),
        forall|m: int| k <= m < digit_run_end(src, k) ==> is_digit(#[trigger] src[m]),
    decreases src.len() - k,
{
    if k < src.len() && is_digit(src[k]) {
        lemma_digit_run(src, k + 1);
    }
}

/// A cursor over template text that hands out one token per call.
pub struct Lexer {
    src: Vec<char>,
    pos: usize,
    line_start: bool,
}

impl Lexer {
    /// The source characters.
    pub closed spec fn source(&self) -> Seq<char> {
        self.src@
    }

    /// The position of the next character to read.
    pub closed spec fn position(&self) -> nat {
        self.pos as nat
    }

    /// Whether the cursor stands at the start of a line, before its indentation.
    pub closed spec fn at_line_start(&self) -> bool {
        self.line_start
    }

    pub closed spec fn wf(&self) -> bool {
        &&& self.pos <= self.src@.len()
        &&& self.line_start ==> (self.pos == 0 || self.src@[self.pos - 1] == '\n')
    }

    /// A lexer at the start of `src`.
    pub fn new(src: &str) -> (r: Lexer)
        ensures
            r.wf(),
            r.source() == src@,
            r.position() == 0,
            r.at_line_start(),
    {
        Lexer { src: chars_of(src), pos: 0, line_start: true }
    }

    /// The source characters.
    pub fn chars(&self) -> (r: &Vec<char>)
        ensures
            r@ == self.source(),
    {
        &self.src
    }

    /// The next token. Blanks before it are skipped; at the start of a line
    /// its spaces give an `Indent` token.
    pub fn next(&mut self) -> (r: Result<Token, Error>)
        requires
            old(self).wf(),
        ensures
            final(self).wf(),
            final(self).source() == old(self).source(),
            match r {
                Ok(t) => {
                    &&& token_ok(old(self).source(), t)
                    &&& old(self).position() <= t.start
                    &&& blanks(old(self).source(), old(self).position() as int, t.start as int)
                    &&& final(self).position() == t.end
                    &&& final(self).at_line_start() == (t.kind == Kind::Newline)
                    &&& (t.kind is Indent ==> old(self).at_line_start())
                    &&& (old(self).at_line_start() && old(self).position() < old(self).source().len()
                        && old(self).source()[old(self).position() as int] == ' ' ==> t.kind is Indent
                        && t.start == old(self).position())
                    &&& (t.kind != Kind::EOF ==> t.start < t.end)
                },
                Err(e) => lex_error_at(old(self).source(), e),
            },
    {
        let n = self.src.len();
        if self.line_start {
            self.line_start = false;
            let start = self.pos;
            let mut i = self.pos;
            while i < n && self.src[i] == ' '
                invariant
                    start <= i <= n,
                    n == self.src@.len(),
                    self.src@ == old(self).src@,
                    self.pos == old(self).pos,
                    start == self.pos,
                    !self.line_start,
                    forall|k: int| start <= k < i ==> self.src@[k] == ' ',
                decreases n - i,
            {
                i += 1;
            }
            if i < n && self.src[i] == '\t' {
                return Err(Error { kind: ErrorKind::InvalidIndentation, pos: i });
            }
            if i > start {
                self.pos = i;
                return Ok(Token { kind: Kind::Indent(i - start), start, end: i });
            }
        }
        let mut i = self.pos;
        while i < n && (self.src[i] == ' ' || self.src[i] == '\t' || self.src[i] == '\r')
            invariant
                self.pos <= i <= n,
                n == self.src@.len(),
                self.src@ == old(self).src@,
                !self.line_start,
                blanks(self.src@, self.pos as int, i as int),
            decreases n - i,
        {
            i += 1;
        }
        self.pos = i;
        if i == n {
            return Ok(Token { kind: Kind::EOF, start: i, end: i });
        }
        let c = self.src[i];
        let single = if c == ':' {
            Some(Kind::Colon)
        } else if c == ',' {
            Some(Kind::Comma)
        } else if c == '.' {
            Some(Kind::Fullstop)
        } else if c == '[' {
            Some(Kind::LBracket)
        } else if c == ']' {
            Some(Kind::RBracket)
        } else if c == '(' {
            Some(Kind::LParen)
        } else if c == ')' {
            Some(Kind::RParen)
        } else if c == '\n' {
            Some(Kind::Newline)
        } else {
            None
        };
        if let Some(kind) = single {
            self.pos = i + 1;
            if c == '\n' {
                self.line_start = true;
            }
            return Ok(Token { kind, start: i, end: i + 1 });
        }
        if (c == '{' || c == '}' || c == '/') && i + 1 < n && self.src[i + 1] == c {
            if c == '/' {
                let mut j = i + 2;
                while j < n && self.src[j] != '\n'
                    invariant
                        i + 2 <= j <= n,
                        n == self.src@.len(),
                        self.src@ == old(self).src@,
                        !self.line_start,
                        forall|k: int| i + 2 <= k < j ==> self.src@[k] != '\n',
                    decreases n - j,
                {
                    j += 1;
                }
                self.pos = j;
                return Ok(Token { kind: Kind::Comment, start: i, end: j });
            }
            self.pos = i + 2;
            let kind = if c == '{' {
                Kind::LDoubleCurly
            } else {
                Kind::RDoubleCurly
            };
            return Ok(Token { kind, start: i, end: i + 2 });
        }
        if c == '"' {
            return self.string(i);
        }
        if c == '#' {
            return self.hex(i);
        }
        if '0' <= c && c <= '9' {
            return self.number(i);
        }
        if ('a' <= c && c <= 'z') || ('A' <= c && c <= 'Z') || c == '_' {
            return Ok(self.ident(i));
        }
        proof {
            reveal_strlit("");
        }
        Err(Error { kind: ErrorKind::InvalidToken { expected: "" }, pos: i })
    }

    fn string(&mut self, i: usize) -> (r: Result<Token, Error>)
        requires
            old(self).wf(),
            old(self).pos == i < old(self).src@.len(),
            old(self).src@[i as int] == '"',
            !old(self).line_start,
        ensures
            final(self).wf(),
            final(self).src@ == old(self).src@,
            !final(self).line_start,
            match r {
                Ok(t) => token_ok(old(self).src@, t) && t.start == i && final(self).pos == t.end
                    && t.kind is String && t.start < t.end,
                Err(e) => lex_error_at(old(self).src@, e),
            },
    {
        let n = self.src.len();
        let mut j = i + 1;
        while j < n && self.src[j] != '"'
            invariant
                i + 1 <= j <= n,
                n == self.src@.len(),
                self.src@[i as int] == '"',
                self.src@ == old(self).src@,
                self.pos == old(self).pos,
                self.line_start == old(self).line_start,
                self.wf(),
                !self.line_start,
                forall|e: int|
                    j <= e <= n ==> (#[trigger] string_body(self.src@, j as int, e) ==> string_body(
                        self.src@,
                        i + 1,
                        e,
                    )),
            decreases n - j,
        {
            if self.src[j] == '\\' {
                if j + 1 >= n {
                    return Err(Error { kind: ErrorKind::UnterminatedString, pos: i });
                }
                proof {
                    assert forall|e: int|
                        j + 2 <= e <= n && #[trigger] string_body(self.src@, j + 2, e) implies string_body(
                        self.src@,
                        i + 1,
                        e,
                    ) by {
                        assert(string_body(self.src@, j as int, e));
                    }
                }
                j += 2;
            } else {
                proof {
                    assert forall|e: int|
                        j + 1 <= e <= n && #[trigger] string_body(self.src@, j + 1, e) implies string_body(
                        self.src@,
                        i + 1,
                        e,
                    ) by {
                        assert(string_body(self.src@, j as int, e));
                    }
                }
                j += 1;
            }
        }
        if j >= n {
            return Err(Error { kind: ErrorKind::UnterminatedString, pos: i });
        }
        assert(string_body(self.src@, j as int, j as int));
        self.pos = j + 1;
        Ok(Token { kind: Kind::String(i + 1, j), start: i, end: j + 1 })
    }

    fn hex(&mut self, i: usize) -> (r: Result<Token, Error>)
        requires
            old(self).wf(),
            old(self).pos == i < old(self).src@.len(),
            old(self).src@[i as int] == '#',
            !old(self).line_start,
        ensures
            final(self).wf(),
            final(self).src@ == old(self).src@,
            !final(self).line_start,
            match r {
                Ok(t) => token_ok(old(self).src@, t) && t.start == i && final(self).pos == t.end
                    && t.start < t.end,
                Err(e) => lex_error_at(old(self).src@, e),
            },
    {
        let n = self.src.len();
        if n - i < 7 {
            return Err(Error { kind: ErrorKind::InvalidHexValue, pos: i });
        }
        let mut k = i + 1;
        while k < i + 7
            invariant
                i + 1 <= k <= i + 7 <= n,
                n == self.src@.len(),
                self.src@[i as int] == '#',
                self.src@ == old(self).src@,
                self.pos == old(self).pos,
                self.line_start == old(self).line_start,
                self.wf(),
                !self.line_start,
                forall|m: int| i < m < k ==> is_hex_digit(#[trigger] self.src@[m]),
            decreases i + 7 - k,
        {
            if hex_digit(self.src[k]).is_none() {
                return Err(Error { kind: ErrorKind::InvalidHexValue, pos: i });
            }
            k += 1;
        }
        let r = byte_of(self.src[i + 1], self.src[i + 2]);
        let g = byte_of(self.src[i + 3], self.src[i + 4]);
        let b = byte_of(self.src[i + 5], self.src[i + 6]);
        self.pos = i + 7;
        Ok(Token { kind: Kind::Hex(r, g, b), start: i, end: i + 7 })
    }

    fn number(&mut self, i: usize) -> (r: Result<Token, Error>)
        requires
            old(self).wf(),
            old(self).pos == i < old(self).src@.len(),
            is_digit(old(self).src@[i as int]),
            !old(self).line_start,
        ensures
            final(self).wf(),
            final(self).src@ == old(self).src@,
            !final(self).line_start,
            match r {
                Ok(t) => token_ok(old(self).src@, t) && t.start == i && final(self).pos == t.end
                    && t.start < t.end,
                Err(e) => lex_error_at(old(self).src@, e),
            },
    {
        let n = self.src.len();
        let mut j = i;
        let mut value: u64 = 0;
        while j < n && '0' <= self.src[j] && self.src[j] <= '9'
            invariant
                i <= j <= n,
                n == self.src@.len(),
                self.src@ == old(self).src@,
                self.pos == old(self).pos,
                self.line_start == old(self).line_start,
                self.wf(),
                !self.line_start,
                forall|k: int| i <= k < j ==> is_digit(#[trigger] self.src@[k]),
                value == digits_value(self.src@.subrange(i as int, j as int)),
                digit_run_end(self.src@, i as int) == digit_run_end(self.src@, j as int),
            decreases n - j,
        {
            let d = (self.src[j] as u32 - '0' as u32) as u64;
            let next = match value.checked_mul(10) {
                Some(m) => m.checked_add(d),
                None => None,
            };
            match next {
                Some(v) => {
                    assert(self.src@.subrange(i as int, j + 1).drop_last() =~= self.src@.subrange(
                        i as int,
                        j as int,
                    ));
                    value = v;
                },
                None => {
                    proof {
                        assert(digit_run_end(self.src@, i as int) == digit_run_end(self.src@, j as int));
                        lemma_digit_run(self.src@, j + 1);
                        assert(digit_run_end(self.src@, j as int) == digit_run_end(self.src@, j + 1));
                        let e = digit_run_end(self.src@, i as int);
                        lemma_digit_run(self.src@, i as int);
                        let full = self.src@.subrange(i as int, e);
                        assert(self.src@.subrange(i as int, j + 1).drop_last() =~= self.src@.subrange(
                            i as int,
                            j as int,
                        ));
                        assert(digits_value(self.src@.subrange(i as int, j + 1)) == value * 10 + d);
                        assert(full.subrange(0, j + 1 - i) =~= self.src@.subrange(i as int, j + 1));
                        crate::attribute::lemma_digits_prefix_bound(full, j + 1 - i);
                    }
                    return Err(Error { kind: ErrorKind::InvalidNumber, pos: i });
                },
            }
            j += 1;
        }
        self.pos = j;
        Ok(Token { kind: Kind::Number(value), start: i, end: j })
    }

    fn ident(&mut self, i: usize) -> (t: Token)
        requires
            old(self).wf(),
            old(self).pos == i < old(self).src@.len(),
            is_ident_start(old(self).src@[i as int]),
            !old(self).line_start,
        ensures
            final(self).wf(),
            final(self).src@ == old(self).src@,
            !final(self).line_start,
            token_ok(old(self).src@, t),
            t.start == i,
            final(self).pos == t.end,
            t.start < t.end,
    {
        let n = self.src.len();
        let mut j = i + 1;
        while j < n && is_ident_char_exec(self.src[j])
            invariant
                i < j <= n,
                n == self.src@.len(),
                self.src@ == old(self).src@,
                self.pos == old(self).pos,
                self.line_start == old(self).line_start,
                self.wf(),
                !self.line_start,
                forall|k: int| i <= k < j ==> is_ident_char(#[trigger] self.src@[k]),
            decreases n - j,
        {
            j += 1;
        }
        self.pos = j;
        let src = self.src.as_slice();
        let kind = if span_is(src, i, j, "for") {
            Kind::For
        } else if span_is(src, i, j, "in") {
            Kind::In
        } else if span_is(src, i, j, "if") {
            Kind::If
        } else if span_is(src, i, j, "else") {
            Kind::Else
        } else if span_is(src, i, j, "view") {
            Kind::View
        } else {
            Kind::Ident(i, j)
        };
        Token { kind, start: i, end: j }
    }
}

pub(crate) fn is_ident_char_exec(c: char) -> (r: bool)
    ensures
        r == is_ident_char(c),
{
    ('a' <= c && c <= 'z') || ('A' <= c && c <= 'Z') || c == '_' || ('0' <= c && c <= '9') || c
        == '-' || c == '|'
}

fn hex_digit(c: char) -> (r: Option<u8>)
    ensures
        r is Some <==> is_hex_digit(c),
        r is Some ==> r->0 == hex_value(c),
{
    if '0' <= c && c <= '9' {
        Some((c as u32 - '0' as u32) as u8)
    } else if 'a' <= c && c <= 'f' {
        Some((c as u32 - 'a' as u32 + 10) as u8)
    } else if 'A' <= c && c <= 'F' {
        Some((c as u32 - 'A' as u32 + 10) as u8)
    } else {
        None
    }
}

fn byte_of(hi: char, lo: char) -> (r: u8)
    requires
        is_hex_digit(hi),
        is_hex_digit(lo),
    ensures
        r == hex_value(hi) * 16 + hex_value(lo),
{
    let h = hex_digit(hi).unwrap();
    let l = hex_digit(lo).unwrap();
    h * 16 + l
}

/// The tokens of `src`, in order: each well formed, only blanks between
/// them, and `EOF` last and only last.
pub open spec fn tokenization(src: Seq<char>, tokens: Seq<Token>) -> bool {
    &&& tokens.len() > 0
    &&& tokens.last().kind == Kind::EOF
    &&& forall|k: int| 0 <= k < tokens.len() ==> token_ok(src, #[trigger] tokens[k])
    &&& forall|k: int| 0 <= k < tokens.len() - 1 ==> tokens[k].kind != Kind::EOF
    &&& forall|k: int|
        0 < k < tokens.len() ==> blanks(src, tokens[k - 1].end as int, #[trigger] tokens[k].start as int)
            && tokens[k - 1].end <= tokens[k].start
    &&& blanks(src, 0, tokens[0].start as int)
    &&& indents_kept(src, tokens)
}

/// Whether the spaces that open a line always come as an `Indent` token:
/// at the start of the text, and after each newline.
pub open spec fn indents_kept(src: Seq<char>, tokens: Seq<Token>) -> bool {
    &&& (src.len() > 0 && src[0] == ' ' ==> tokens[0].kind is Indent && tokens[0].start == 0)
    &&& forall|k: int|
        0 <= k < tokens.len() - 1 && (#[trigger] tokens[k]).kind == Kind::Newline && tokens[k].end
            < src.len() && src[tokens[k].end as int] == ' ' ==> tokens[k + 1].kind is Indent
            && tokens[k + 1].start == tokens[k].end
}

/// All tokens of `src`, ending with `EOF`, or the first error.
pub fn tokenize(src: &str) -> (r: Result<(Vec<char>, Vec<Token>), Error>)
    ensures
        match r {
            Ok((chars, tokens)) => chars@ == src@ && tokenization(src@, tokens@),
            Err(e) => lex_error_at(src@, e),
        },
{
    let mut lexer = Lexer::new(src);
    let mut tokens: Vec<Token> = Vec::new();
    loop
        invariant
            lexer.wf(),
            lexer.source() == src@,
            forall|k: int| 0 <= k < tokens@.len() ==> token_ok(src@, #[trigger] tokens@[k]),
            forall|k: int| 0 <= k < tokens@.len() ==> tokens@[k].kind != Kind::EOF,
            forall|k: int|
                0 < k < tokens@.len() ==> blanks(
                    src@,
                    tokens@[k - 1].end as int,
                    #[trigger] tokens@[k].start as int,
                ) && tokens@[k - 1].end <= tokens@[k].start,
            tokens@.len() > 0 ==> lexer.position() == tokens@.last().end,
            tokens@.len() == 0 ==> lexer.position() == 0,
            tokens@.len() > 0 ==> blanks(src@, 0, tokens@[0].start as int),
            lexer.position() <= src@.len(),
            tokens@.len() == 0 ==> lexer.at_line_start(),
            tokens@.len() > 0 ==> (lexer.at_line_start() == (tokens@.last().kind == Kind::Newline)),
            tokens@.len() > 0 && src@.len() > 0 && src@[0] == ' ' ==> tokens@[0].kind is Indent
                && tokens@[0].start == 0,
            forall|k: int|
                0 <= k < tokens@.len() - 1 && (#[trigger] tokens@[k]).kind == Kind::Newline
                    && tokens@[k].end < src@.len() && src@[tokens@[k].end as int] == ' '
                    ==> tokens@[k + 1].kind is Indent && tokens@[k + 1].start == tokens@[k].end,
        decreases src@.len() - lexer.position(),
    {
        let ghost before = tokens@;
        let t = lexer.next()?;
        tokens.push(t);
        proof {
            assert forall|k: int|
                0 <= k < tokens@.len() - 1 && (#[trigger] tokens@[k]).kind == Kind::Newline
                    && tokens@[k].end < src@.len() && src@[tokens@[k].end as int] == ' '
                    implies tokens@[k + 1].kind is Indent && tokens@[k + 1].start == tokens@[k].end by {
                assert(tokens@[k] == before[k]);
                if k < before.len() - 1 {
                    assert(tokens@[k + 1] == before[k + 1]);
                }
            }
        }
        if t.kind == Kind::EOF {
            let chars = lexer.chars().clone();
            assert(indents_kept(src@, tokens@));
            return Ok((chars, tokens));
        }
    }
}

} // verus!
