//! The grammar of attribute values: literals, colours, layout keywords,
//! data bindings and quoted text.
use std::rc::Rc;
use vstd::prelude::*;
use crate::constants::Constants;
use crate::error::{Error, ErrorKind};
use crate::lexer::{Kind, Token, is_digit, token_ok};
use crate::text::{span_is, string_from_chars, push_char};
use crate::values::{
    Align, Axis, Color, Direction, Display, ExpressionValue, Fragment, Number, Path, TextPath,
    Value,
};

verus! {

/// The text of a token.
pub open spec fn text_of(src: Seq<char>, t: Token) -> Seq<char> {
    src.subrange(t.start as int, t.end as int)
}

pub open spec fn alignment_of(s: Seq<char>) -> Option<Align> {
    if s == "top"@ {
        Some(Align::Top)
    } else if s == "top-right"@ {
        Some(Align::TopRight)
    } else if s == "right"@ {
        Some(Align::Right)
    } else if s == "bottom-right"@ {
        Some(Align::BottomRight)
    } else if s == "bottom"@ {
        Some(Align::Bottom)
    } else if s == "bottom-left"@ {
        Some(Align::BottomLeft)
    } else if s == "left"@ {
        Some(Align::Left)
    } else if s == "top-left"@ {
        Some(Align::TopLeft)
    } else if s == "centre"@ || s == "center"@ {
        Some(Align::Centre)
    } else {
        None
    }
}

pub open spec fn axis_of(s: Seq<char>) -> Option<Axis> {
    if s == "horizontal"@ || s == "horz"@ {
        Some(Axis::Horizontal)
    } else if s == "vertical"@ || s == "vert"@ {
        Some(Axis::Vertical)
    } else {
        None
    }
}

pub open spec fn display_of(s: Seq<char>) -> Option<Display> {
    if s == "show"@ {
        Some(Display::Show)
    } else if s == "hide"@ {
        Some(Display::Hide)
    } else if s == "exclude"@ {
        Some(Display::Exclude)
    } else {
        None
    }
}

pub open spec fn direction_of(s: Seq<char>) -> Option<Direction> {
    if s == "forward"@ {
        Some(Direction::Forward)
    } else if s == "backward"@ {
        Some(Direction::Backward)
    } else {
        None
    }
}

pub open spec fn color_of(s: Seq<char>) -> Option<Color> {
    if s == "black"@ {
        Some(Color::Black)
    } else if s == "blue"@ {
        Some(Color::Blue)
    } else if s == "cyan"@ {
        Some(Color::Cyan)
    } else if s == "dark-blue"@ {
        Some(Color::DarkBlue)
    } else if s == "dark-cyan"@ {
        Some(Color::DarkCyan)
    } else if s == "dark-green"@ {
        Some(Color::DarkGreen)
    } else if s == "dark-grey"@ {
        Some(Color::DarkGrey)
    } else if s == "dark-magenta"@ {
        Some(Color::DarkMagenta)
    } else if s == "dark-red"@ {
        Some(Color::DarkRed)
    } else if s == "dark-yellow"@ {
        Some(Color::DarkYellow)
    } else if s == "green"@ {
        Some(Color::Green)
    } else if s == "grey"@ {
        Some(Color::Grey)
    } else if s == "magenta"@ {
        Some(Color::Magenta)
    } else if s == "red"@ {
        Some(Color::Red)
    } else if s == "reset"@ {
        Some(Color::Reset)
    } else if s == "white"@ {
        Some(Color::White)
    } else if s == "yellow"@ {
        Some(Color::Yellow)
    } else {
        None
    }
}

/// `u8`'s reading of decimal text: an optional `+`, then one or more digits
/// whose value is at most 255.
pub open spec fn u8_of(s: Seq<char>) -> Option<u8> {
    let digits = unsigned_digits(s);
    if digits.len() > 0 && all_digits(digits) && crate::lexer::digits_value(digits) <= 255 {
        Some(crate::lexer::digits_value(digits) as u8)
    } else {
        None
    }
}

/// The text after an optional leading `+`.
pub open spec fn unsigned_digits(s: Seq<char>) -> Seq<char> {
    if s.len() > 0 && s[0] == '+' {
        s.drop_first()
    } else {
        s
    }
}

pub open spec fn all_digits(s: Seq<char>) -> bool {
    forall|k: int| 0 <= k < s.len() ==> is_digit(#[trigger] s[k])
}

/// Whether `s` begins with `ansi`.
pub open spec fn is_ansi(s: Seq<char>) -> bool {
    s.len() >= 4 && s.subrange(0, 4) == "ansi"@
}

/// What a bare identifier `s` means as the value of attribute `key`.
pub open spec fn ident_value(key: Seq<char>, s: Seq<char>) -> Result<Value, ErrorKind> {
    if s == "true"@ {
        Ok(Value::Bool(true))
    } else if s == "false"@ {
        Ok(Value::Bool(false))
    } else if is_ansi(s) {
        match u8_of(s.skip(4)) {
            Some(n) => Ok(Value::Color(Color::AnsiValue(n))),
            None => Err(ErrorKind::InvalidNumber),
        }
    } else if key == "align"@ {
        match alignment_of(s) {
            Some(a) => Ok(Value::Alignment(a)),
            None => Err(ErrorKind::InvalidToken { expected: "alignment" }),
        }
    } else if key == "axis"@ {
        match axis_of(s) {
            Some(a) => Ok(Value::Axis(a)),
            None => Err(ErrorKind::InvalidToken { expected: "axis" }),
        }
    } else if key == "display"@ {
        match display_of(s) {
            Some(d) => Ok(Value::Display(d)),
            None => Err(ErrorKind::InvalidToken { expected: "display" }),
        }
    } else if key == "direction"@ {
        match direction_of(s) {
            Some(d) => Ok(Value::Direction(d)),
            None => Err(ErrorKind::InvalidToken { expected: "direction" }),
        }
    } else {
        // `id` and unknown keys: a colour name, or else the text itself
        match color_of(s) {
            Some(c) if key != "id"@ => Ok(Value::Color(c)),
            _ => Err(ErrorKind::InvalidToken { expected: "" }),
        }
    }
}

/// Whether identifier `s` is taken as plain text for attribute `key`.
pub open spec fn ident_is_text(key: Seq<char>, s: Seq<char>) -> bool {
    &&& s != "true"@ && s != "false"@ && !is_ansi(s)
    &&& key != "align"@ && key != "axis"@ && key != "display"@ && key != "direction"@
    &&& (key == "id"@ || color_of(s) is None)
}

fn alignment(src: &[char], s: usize, e: usize) -> (r: Option<Align>)
    requires
        s <= e <= src@.len(),
    ensures
        r == alignment_of(src@.subrange(s as int, e as int)),
{
    if span_is(src, s, e, "top") {
        Some(Align::Top)
    } else if span_is(src, s, e, "top-right") {
        Some(Align::TopRight)
    } else if span_is(src, s, e, "right") {
        Some(Align::Right)
    } else if span_is(src, s, e, "bottom-right") {
        Some(Align::BottomRight)
    } else if span_is(src, s, e, "bottom") {
        Some(Align::Bottom)
    } else if span_is(src, s, e, "bottom-left") {
        Some(Align::BottomLeft)
    } else if span_is(src, s, e, "left") {
        Some(Align::Left)
    } else if span_is(src, s, e, "top-left") {
        Some(Align::TopLeft)
    } else if span_is(src, s, e, "centre") || span_is(src, s, e, "center") {
        Some(Align::Centre)
    } else {
        None
    }
}

fn axis(src: &[char], s: usize, e: usize) -> (r: Option<Axis>)
    requires
        s <= e <= src@.len(),
    ensures
        r == axis_of(src@.subrange(s as int, e as int)),
{
    if span_is(src, s, e, "horizontal") || span_is(src, s, e, "horz") {
        Some(Axis::Horizontal)
    } else if span_is(src, s, e, "vertical") || span_is(src, s, e, "vert") {
        Some(Axis::Vertical)
    } else {
        None
    }
}

fn display(src: &[char], s: usize, e: usize) -> (r: Option<Display>)
    requires
        s <= e <= src@.len(),
    ensures
        r == display_of(src@.subrange(s as int, e as int)),
{
    if span_is(src, s, e, "show") {
        Some(Display::Show)
    } else if span_is(src, s, e, "hide") {
        Some(Display::Hide)
    } else if span_is(src, s, e, "exclude") {
        Some(Display::Exclude)
    } else {
        None
    }
}

fn direction(src: &[char], s: usize, e: usize) -> (r: Option<Direction>)
    requires
        s <= e <= src@.len(),
    ensures
        r == direction_of(src@.subrange(s as int, e as int)),
{
    if span_is(src, s, e, "forward") {
        Some(Direction::Forward)
    } else if span_is(src, s, e, "backward") {
        Some(Direction::Backward)
    } else {
        None
    }
}

/// The named colour spelled by `src[s..e]`, if any.
pub fn try_parse_color(src: &[char], s: usize, e: usize) -> (r: Option<Color>)
    requires
        s <= e <= src@.len(),
    ensures
        r == color_of(src@.subrange(s as int, e as int)),
{
    if span_is(src, s, e, "black") {
        Some(Color::Black)
    } else if span_is(src, s, e, "blue") {
        Some(Color::Blue)
    } else if span_is(src, s, e, "cyan") {
        Some(Color::Cyan)
    } else if span_is(src, s, e, "dark-blue") {
        Some(Color::DarkBlue)
    } else if span_is(src, s, e, "dark-cyan") {
        Some(Color::DarkCyan)
    } else if span_is(src, s, e, "dark-green") {
        Some(Color::DarkGreen)
    } else if span_is(src, s, e, "dark-grey") {
        Some(Color::DarkGrey)
    } else if span_is(src, s, e, "dark-magenta") {
        Some(Color::DarkMagenta)
    } else if span_is(src, s, e, "dark-red") {
        Some(Color::DarkRed)
    } else if span_is(src, s, e, "dark-yellow") {
        Some(Color::DarkYellow)
    } else if span_is(src, s, e, "green") {
        Some(Color::Green)
    } else if span_is(src, s, e, "grey") {
        Some(Color::Grey)
    } else if span_is(src, s, e, "magenta") {
        Some(Color::Magenta)
    } else if span_is(src, s, e, "red") {
        Some(Color::Red)
    } else if span_is(src, s, e, "reset") {
        Some(Color::Reset)
    } else if span_is(src, s, e, "white") {
        Some(Color::White)
    } else if span_is(src, s, e, "yellow") {
        Some(Color::Yellow)
    } else {
        None
    }
}

/// Reads `src[s..e]` as a `u8` the way `str::parse::<u8>` does.
pub fn parse_u8(src: &[char], s: usize, e: usize) -> (r: Option<u8>)
    requires
        s <= e <= src@.len(),
    ensures
        r == u8_of(src@.subrange(s as int, e as int)),
{
    let ghost text = src@.subrange(s as int, e as int);
    let mut i = s;
    if i < e && src[i] == '+' {
        i += 1;
    }
    let ghost digits = unsigned_digits(text);
    assert(digits =~= src@.subrange(i as int, e as int));
    if i == e {
        return None;
    }
    let start = i;
    let mut value: u32 = 0;
    while i < e
        invariant
            s <= start <= i <= e <= src@.len(),
            digits == src@.subrange(start as int, e as int),
            text == src@.subrange(s as int, e as int),
            digits == unsigned_digits(text),
            digits.len() > 0,
            forall|k: int| start <= k < i ==> is_digit(#[trigger] src@[k]),
            value == crate::lexer::digits_value(src@.subrange(start as int, i as int)),
            value <= 255,
        decreases e - i,
    {
        let c = src[i];
        if !('0' <= c && c <= '9') {
            assert(!is_digit(digits[i - start]));
            assert(!all_digits(digits));
            assert(u8_of(text) is None);
            return None;
        }
        assert(src@.subrange(start as int, i + 1).drop_last() =~= src@.subrange(
            start as int,
            i as int,
        ));
        value = value * 10 + (c as u32 - '0' as u32);
        if value > 255 {
            proof {
                assert(digits.subrange(0, i + 1 - start) =~= src@.subrange(start as int, i + 1));
                if all_digits(digits) {
                    lemma_digits_prefix_bound(digits, (i + 1 - start) as int);
                }
            }
            return None;
        }
        i += 1;
    }
    assert(src@.subrange(start as int, e as int) =~= src@.subrange(start as int, i as int));
    Some(value as u8)
}

/// A value only grows as digits are added.
pub(crate) proof fn lemma_digits_prefix_bound(d: Seq<char>, n: int)
    requires
        0 <= n <= d.len(),
        forall|k: int| 0 <= k < d.len() ==> is_digit(#[trigger] d[k]),
    ensures
        crate::lexer::digits_value(d.subrange(0, n)) <= crate::lexer::digits_value(d),
    decreases d.len(),
{
    if n < d.len() {
        assert(d.drop_last().subrange(0, n) =~= d.subrange(0, n));
        lemma_digits_prefix_bound(d.drop_last(), n);
    } else {
        assert(d.subrange(0, n) =~= d);
    }
}

/// Where a path continuation that starts at token `i` ends: `.name` and
/// `[number]` steps (the number fitting `usize`) are taken while they follow.
pub open spec fn path_end(toks: Seq<Token>, i: int) -> int
    decreases toks.len() - i,
{
    if 0 <= i && i + 1 < toks.len() && toks[i].kind == Kind::Fullstop && toks[i + 1].kind is Ident {
        path_end(toks, i + 2)
    } else if 0 <= i && i + 2 < toks.len() && toks[i].kind == Kind::LBracket && toks[i
        + 1].kind is Number && toks[i + 2].kind == Kind::RBracket && toks[i + 1].kind->Number_0
        <= usize::MAX {
        path_end(toks, i + 3)
    } else {
        i
    }
}

proof fn lemma_path_end_after(toks: Seq<Token>, i: int)
    requires
        0 <= i,
    ensures
        path_end(toks, i) >= i,
    decreases toks.len() - i,
{
    if i + 1 < toks.len() && toks[i].kind == Kind::Fullstop && toks[i + 1].kind is Ident {
        lemma_path_end_after(toks, i + 2);
    } else if i + 2 < toks.len() && toks[i].kind == Kind::LBracket && toks[i + 1].kind is Number
        && toks[i + 2].kind == Kind::RBracket && toks[i + 1].kind->Number_0 <= usize::MAX {
        lemma_path_end_after(toks, i + 3);
    }
}

/// The steps that the tokens `i..path_end(i)` add to a path.
pub open spec fn path_steps(src: Seq<char>, toks: Seq<Token>, i: int) -> Seq<
    crate::values::Segment,
>
    decreases toks.len() - i,
{
    if 0 <= i && i + 1 < toks.len() && toks[i].kind == Kind::Fullstop && toks[i + 1].kind is Ident {
        seq![crate::values::Segment::Key(text_of(src, toks[i + 1]))] + path_steps(src, toks, i + 2)
    } else if 0 <= i && i + 2 < toks.len() && toks[i].kind == Kind::LBracket && toks[i
        + 1].kind is Number && toks[i + 2].kind == Kind::RBracket && toks[i + 1].kind->Number_0
        <= usize::MAX {
        seq![crate::values::Segment::Index(toks[i + 1].kind->Number_0 as nat)] + path_steps(
            src,
            toks,
            i + 3,
        )
    } else {
        seq![]
    }
}

/// Tokens that are well formed over `src`.
pub open spec fn tokens_ok(src: Seq<char>, toks: Seq<Token>) -> bool {
    forall|k: int| 0 <= k < toks.len() ==> token_ok(src, #[trigger] toks[k])
}

/// Reads the rest of a path whose first key is `first`, from token `i` on.
pub fn parse_path(src: &[char], toks: &[Token], i: usize, first: Path) -> (r: (Path, usize))
    requires
        tokens_ok(src@, toks@),
        i <= toks@.len(),
    ensures
        r.1 == path_end(toks@, i as int),
        r.0.segments() == first.segments() + path_steps(src@, toks@, i as int),
    decreases toks@.len() - i,
{
    let n = toks.len();
    if n - i > 1 && toks[i].kind == Kind::Fullstop {
        if let Kind::Ident(s, e) = toks[i + 1].kind {
            assert(token_ok(src@, toks@[i + 1]));
            let key = Path::Key(string_from_chars(&src[s..e]));
            assert(src@.subrange(s as int, e as int) == text_of(src@, toks@[i + 1]));
            let (p, j) = parse_path(src, toks, i + 2, first.compose(key));
            assert(first.segments() + seq![crate::values::Segment::Key(text_of(src@, toks@[i + 1]))]
                + path_steps(src@, toks@, i + 2) =~= first.segments() + path_steps(
                src@,
                toks@,
                i as int,
            ));
            return (p, j);
        }
    }
    if n - i > 2 && toks[i].kind == Kind::LBracket && toks[i + 2].kind == Kind::RBracket {
        if let Kind::Number(num) = toks[i + 1].kind {
            if num <= usize::MAX as u64 {
            let (p, j) = parse_path(src, toks, i + 3, first.compose(Path::Index(num as usize)));
            assert(first.segments() + seq![crate::values::Segment::Index(num as nat)]
                + path_steps(src@, toks@, i + 3) =~= first.segments() + path_steps(
                src@,
                toks@,
                i as int,
            ));
            return (p, j);
            }
        }
    }
    assert(first.segments() + path_steps(src@, toks@, i as int) =~= first.segments());
    (first, i)
}

/// Quoted text with each backslash escape replaced by the character it escapes.
pub open spec fn unescape(s: Seq<char>) -> Seq<char>
    decreases s.len(),
{
    if s.len() == 0 {
        seq![]
    } else if s[0] == '\\' && s.len() > 1 {
        seq![s[1]] + unescape(s.skip(2))
    } else {
        seq![s[0]] + unescape(s.skip(1))
    }
}

proof fn lemma_unescape_step(src: Seq<char>, i: int, b: int)
    requires
        0 <= i < b <= src.len(),
    ensures
        src[i] == '\\' && i + 1 < b ==> unescape(src.subrange(i, b)) == seq![src[i + 1]]
            + unescape(src.subrange(i + 2, b)),
        !(src[i] == '\\' && i + 1 < b) ==> unescape(src.subrange(i, b)) == seq![src[i]]
            + unescape(src.subrange(i + 1, b)),
{
    let t = src.subrange(i, b);
    assert(t.skip(2) =~= src.subrange(i + 2, b) || t.len() < 2);
    assert(t.skip(1) =~= src.subrange(i + 1, b));
    if t.len() >= 2 {
        assert(t.skip(2) =~= src.subrange(i + 2, b));
    }
}

/// The first position at or after `a` (before `b`) that is not a space.
pub open spec fn trim_start(s: Seq<char>, a: int, b: int) -> int
    decreases b - a,
{
    if a < b && s[a] == ' ' {
        trim_start(s, a + 1, b)
    } else {
        a
    }
}

/// The end of `s[lo..b]` with trailing spaces left out.
pub open spec fn trim_end(s: Seq<char>, lo: int, b: int) -> int
    decreases b - lo,
{
    if b > lo && s[b - 1] == ' ' {
        trim_end(s, lo, b - 1)
    } else {
        b
    }
}

/// The end of the run of decimal digits that starts at `k`.
pub open spec fn digit_end(s: Seq<char>, k: int, hi: int) -> int
    decreases hi - k,
{
    if k < hi && is_digit(s[k]) {
        digit_end(s, k + 1, hi)
    } else {
        k
    }
}

/// The end of the run of identifier characters that starts at `k`.
pub open spec fn ident_end(s: Seq<char>, k: int, hi: int) -> int
    decreases hi - k,
{
    if k < hi && crate::lexer::is_ident_char(s[k]) {
        ident_end(s, k + 1, hi)
    } else {
        k
    }
}

/// The steps of a path written in `s[i..hi]` after the steps `acc` already
/// read: a first name, then `.name` and `[digits]` steps; none if anything
/// else stands there.
pub open spec fn inline_from(
    s: Seq<char>,
    i: int,
    hi: int,
    acc: Option<Seq<crate::values::Segment>>,
) -> Option<Seq<crate::values::Segment>>
    decreases hi - i,
{
    if i >= hi {
        acc
    } else if s[i] == '[' {
        let j = digit_end(s, i + 1, hi);
        if acc is None || j <= i + 1 || j >= hi || s[j] != ']' || crate::lexer::digits_value(
            s.subrange(i + 1, j),
        ) > usize::MAX {
            None
        } else {
            inline_from(
                s,
                j + 1,
                hi,
                Some(
                    acc->0.push(
                        crate::values::Segment::Index(
                            crate::lexer::digits_value(s.subrange(i + 1, j)),
                        ),
                    ),
                ),
            )
        }
    } else {
        let dot = s[i] == '.';
        let st = if dot {
            i + 1
        } else {
            i
        };
        let e = ident_end(s, st, hi);
        if dot != (acc is Some) || e <= st || e <= i || e > hi {
            None
        } else {
            let before = match acc {
                Some(v) => v,
                None => seq![],
            };
            inline_from(
                s,
                e,
                hi,
                Some(before.push(crate::values::Segment::Key(s.subrange(st, e)))),
            )
        }
    }
}

/// The steps of the path written, between optional spaces, in `s[a..b]`.
pub open spec fn inline_of(s: Seq<char>, a: int, b: int) -> Option<Seq<crate::values::Segment>> {
    let lo = trim_start(s, a, b);
    inline_from(s, lo, trim_end(s, lo, b), None)
}

/// The value of the digits `src[s..e]`, if it fits a `usize`.
fn decimal_usize(src: &[char], s: usize, e: usize) -> (r: Option<usize>)
    requires
        s <= e <= src@.len(),
        forall|k: int| s <= k < e ==> is_digit(#[trigger] src@[k]),
    ensures
        r matches Some(n) ==> n == crate::lexer::digits_value(src@.subrange(s as int, e as int)),
        r is None ==> crate::lexer::digits_value(src@.subrange(s as int, e as int)) > usize::MAX,
{
    let mut n: usize = 0;
    let mut k = s;
    while k < e
        invariant
            s <= k <= e <= src@.len(),
            forall|m: int| s <= m < e ==> is_digit(#[trigger] src@[m]),
            n == crate::lexer::digits_value(src@.subrange(s as int, k as int)),
        decreases e - k,
    {
        assert(src@.subrange(s as int, k + 1).drop_last() =~= src@.subrange(s as int, k as int));
        let d = (src[k] as u32 - '0' as u32) as usize;
        let next = match n.checked_mul(10) {
            Some(m) => m.checked_add(d),
            None => None,
        };
        match next {
            Some(v) => {
                n = v;
            },
            None => {
                proof {
                    let full = src@.subrange(s as int, e as int);
                    assert(full.subrange(0, k + 1 - s) =~= src@.subrange(s as int, k + 1));
                    lemma_digits_prefix_bound(full, k + 1 - s);
                }
                return None;
            },
        }
        k += 1;
    }
    Some(n)
}

/// The steps of a path, if any.
pub open spec fn steps_of(p: Option<Path>) -> Option<Seq<crate::values::Segment>> {
    match p {
        Some(q) => Some(q.segments()),
        None => None,
    }
}

/// Reads a path such as `a.b[2]` from `src[a..b]`, blanks around it allowed.
fn inline_path(src: &[char], a: usize, b: usize) -> (r: Option<Path>)
    requires
        a <= b <= src@.len(),
    ensures
        steps_of(r) == inline_of(src@, a as int, b as int),
{
    let mut lo = a;
    while lo < b && src[lo] == ' '
        invariant
            a <= lo <= b <= src@.len(),
            trim_start(src@, a as int, b as int) == trim_start(src@, lo as int, b as int),
        decreases b - lo,
    {
        lo += 1;
    }
    let mut hi = b;
    while hi > lo && src[hi - 1] == ' '
        invariant
            lo <= hi <= b <= src@.len(),
            trim_end(src@, lo as int, b as int) == trim_end(src@, lo as int, hi as int),
        decreases hi,
    {
        hi -= 1;
    }
    let mut i = lo;
    let mut path: Option<Path> = None;
    while i < hi
        invariant
            lo <= i <= hi <= b <= src@.len(),
            inline_of(src@, a as int, b as int) == inline_from(src@, i as int, hi as int, steps_of(path)),
        decreases hi - i,
    {
        let c = src[i];
        if c == '[' {
            let mut j = i + 1;
            while j < hi && '0' <= src[j] && src[j] <= '9'
                invariant
                    i < j <= hi <= src@.len(),
                    digit_end(src@, i + 1, hi as int) == digit_end(src@, j as int, hi as int),
                    forall|m: int| i + 1 <= m < j ==> is_digit(#[trigger] src@[m]),
                decreases hi - j,
            {
                j += 1;
            }
            if path.is_none() || j == i + 1 || j >= hi || src[j] != ']' {
                return None;
            }
            let n = match decimal_usize(src, i + 1, j) {
                Some(n) => n,
                None => {
                    return None;
                },
            };
            let p = path.unwrap();
            let ghost ps = p.segments();
            assert(digit_end(src@, j as int, hi as int) == j);
            path = Some(p.compose(Path::Index(n)));
            assert(steps_of(path)->0 =~= ps.push(crate::values::Segment::Index(n as nat)));
            i = j + 1;
        } else {
            let dot = c == '.';
            if dot != path.is_some() {
                return None;
            }
            if dot {
                i += 1;
            }
            let start = i;
            while i < hi && crate::lexer::is_ident_char_exec(src[i])
                invariant
                    start <= i <= hi <= src@.len(),
                    ident_end(src@, start as int, hi as int) == ident_end(src@, i as int, hi as int),
                decreases hi - i,
            {
                i += 1;
            }
            if i == start {
                return None;
            }
            assert(ident_end(src@, i as int, hi as int) == i);
            assert(ident_end(src@, start as int, hi as int) == i);
            let ghost before = match steps_of(path) {
                Some(v) => v,
                None => seq![],
            };
            let key = Path::Key(string_from_chars(&src[start..i]));
            path = match path {
                Some(p) => Some(p.compose(key)),
                None => Some(key),
            };
            assert(steps_of(path)->0 =~= before.push(
                crate::values::Segment::Key(src@.subrange(start as int, i as int)),
            ));
        }
    }
    path
}

/// The first `}}` at or after `j` in `s[..b]`; a position with fewer than
/// two characters before `b` when there is none.
pub open spec fn close_at(s: Seq<char>, j: int, b: int) -> int
    decreases b - j,
{
    if b - j > 1 && !(s[j] == '}' && s[j + 1] == '}') {
        close_at(s, j + 1, b)
    } else {
        j
    }
}

/// A piece of quoted text: one literal character, or a binding's path steps.
pub ghost enum Piece {
    Lit(char),
    Bind(Seq<crate::values::Segment>),
}

/// The pieces of quoted text `s[i..b]`: a backslash gives the character
/// after it; `{{ path }}` with a readable path gives a binding; any other
/// character is itself.
pub open spec fn text_from(s: Seq<char>, i: int, b: int) -> Seq<Piece>
    decreases b - i,
{
    if i >= b || step_end(s, i, b) <= i {
        seq![]
    } else {
        seq![step_piece(s, i, b)] + text_from(s, step_end(s, i, b), b)
    }
}

/// Where the piece that starts at `i` ends.
pub open spec fn step_end(s: Seq<char>, i: int, b: int) -> int {
    if s[i] == '\\' && i + 1 < b {
        i + 2
    } else if binds_at(s, i, b) {
        close_at(s, i + 2, b) + 2
    } else {
        i + 1
    }
}

/// The piece that starts at `i`.
pub open spec fn step_piece(s: Seq<char>, i: int, b: int) -> Piece {
    if s[i] == '\\' && i + 1 < b {
        Piece::Lit(s[i + 1])
    } else if binds_at(s, i, b) {
        Piece::Bind(inline_of(s, i + 2, close_at(s, i + 2, b))->0)
    } else {
        Piece::Lit(s[i])
    }
}

/// Whether `{{ path }}` at `i` is read as a binding.
pub open spec fn binds_at(s: Seq<char>, i: int, b: int) -> bool {
    s[i] == '{' && i + 1 < b && s[i + 1] == '{' && b - close_at(s, i + 2, b) > 1 && close_at(
        s,
        i + 2,
        b,
    ) >= i + 2 && inline_of(s, i + 2, close_at(s, i + 2, b)) is Some
}

proof fn lemma_text_step(s: Seq<char>, i: int, b: int)
    requires
        0 <= i < b,
    ensures
        step_end(s, i, b) > i,
        text_from(s, i, b).len() > 0,
        text_from(s, i, b)[0] == step_piece(s, i, b),
        text_from(s, i, b).drop_first() == text_from(s, step_end(s, i, b), b),
{
    let r = text_from(s, i, b);
    assert(r.drop_first() =~= text_from(s, step_end(s, i, b), b));
}

pub open spec fn has_bind(ps: Seq<Piece>) -> bool {
    exists|k: int| 0 <= k < ps.len() && #[trigger] ps[k] is Bind
}

/// A fragment as plain values.
pub ghost enum FragView {
    Str(Seq<char>),
    Data(Seq<crate::values::Segment>),
}

pub open spec fn frag_view(f: Fragment) -> FragView {
    match f {
        Fragment::String(s) => FragView::Str(s@),
        Fragment::Data(p) => FragView::Data(p.segments()),
    }
}

/// `acc`, then the literal run `cur` if it is not empty.
pub open spec fn flush(acc: Seq<FragView>, cur: Seq<char>) -> Seq<FragView> {
    if cur.len() > 0 {
        acc.push(FragView::Str(cur))
    } else {
        acc
    }
}

/// Fragments from pieces: runs of characters become one literal fragment,
/// each binding a fragment of its own, in order.
pub open spec fn group_from(acc: Seq<FragView>, cur: Seq<char>, ps: Seq<Piece>) -> Seq<FragView>
    decreases ps.len(),
{
    if ps.len() == 0 {
        flush(acc, cur)
    } else {
        match ps[0] {
            Piece::Lit(c) => group_from(acc, cur.push(c), ps.drop_first()),
            Piece::Bind(p) => group_from(flush(acc, cur).push(FragView::Data(p)), seq![], ps.drop_first()),
        }
    }
}

/// Quoted text as plain values.
pub ghost enum TextView {
    Plain(Seq<char>),
    Split(Seq<FragView>),
}

pub open spec fn text_view(t: TextPath) -> TextView {
    match t {
        TextPath::String(s) => TextView::Plain(s@),
        TextPath::Fragments(f) => TextView::Split(f@.map_values(|x: Fragment| frag_view(x))),
    }
}

/// What quoted text `s[a..b]` reads as: its unescaped characters when no
/// binding is read, else its fragments in source order.
pub open spec fn text_path_of(s: Seq<char>, a: int, b: int) -> TextView {
    let ps = text_from(s, a, b);
    if has_bind(ps) {
        TextView::Split(group_from(seq![], seq![], ps))
    } else {
        TextView::Plain(unescape(s.subrange(a, b)))
    }
}

/// Whether pieces hold a binding: the first one, or one after it.
proof fn lemma_bind_tail(ps: Seq<Piece>)
    requires
        ps.len() > 0,
    ensures
        has_bind(ps) == (ps[0] is Bind || has_bind(ps.drop_first())),
{
    if has_bind(ps) && !(ps[0] is Bind) {
        let k = choose|k: int| 0 <= k < ps.len() && #[trigger] ps[k] is Bind;
        assert(ps.drop_first()[k - 1] is Bind);
    }
    if has_bind(ps.drop_first()) {
        let k = choose|k: int| 0 <= k < ps.drop_first().len() && #[trigger] ps.drop_first()[k] is Bind;
        assert(ps[k + 1] is Bind);
    }
}

/// Splits quoted text `src[a..b]` into literal text and `{{ path }}`
/// interpolations. Escapes are resolved; a `{{` without a readable path and
/// closing `}}` is kept as text.
pub fn parse_text(src: &[char], a: usize, b: usize) -> (r: TextPath)
    requires
        a <= b <= src@.len(),
    ensures
        text_view(r) == text_path_of(src@, a as int, b as int),
{
    let mut frags: Vec<Fragment> = Vec::new();
    let mut cur = String::new();
    let mut i = a;
    let ghost all = text_from(src@, a as int, b as int);
    assert(frags@.map_values(|x: Fragment| frag_view(x)) =~= Seq::<FragView>::empty());
    while i < b
        invariant
            a <= i <= b <= src@.len(),
            all == text_from(src@, a as int, b as int),
            frags@.len() == 0 ==> cur@ + unescape(src@.subrange(i as int, b as int)) == unescape(
                src@.subrange(a as int, b as int),
            ),
            frags@.len() == 0 ==> (has_bind(text_from(src@, i as int, b as int)) == has_bind(all)),
            frags@.len() > 0 ==> has_bind(all),
            group_from(
                frags@.map_values(|x: Fragment| frag_view(x)),
                cur@,
                text_from(src@, i as int, b as int),
            ) == group_from(seq![], seq![], all),
        decreases b - i,
    {
        let c = src[i];
        let ghost rest = text_from(src@, i as int, b as int);
        let ghost fv = frags@.map_values(|x: Fragment| frag_view(x));
        proof {
            lemma_unescape_step(src@, i as int, b as int);
            lemma_text_step(src@, i as int, b as int);
        }
        if c == '\\' && i + 1 < b {
            let ghost cur0 = cur@;
            push_char(&mut cur, src[i + 1]);
            proof {
                let t = text_from(src@, i + 2, b as int);
                lemma_bind_tail(rest);
                assert(group_from(fv, cur0, rest) == group_from(fv, cur@, t));
            }
            i += 2;
        } else {
            let mut matched = false;
            if c == '{' && i + 1 < b && src[i + 1] == '{' {
                let mut j = i + 2;
                while b - j > 1 && !(src[j] == '}' && src[j + 1] == '}')
                    invariant
                        i + 2 <= j <= b <= src@.len(),
                        close_at(src@, i + 2, b as int) == close_at(src@, j as int, b as int),
                    decreases b - j,
                {
                    j += 1;
                }
                if b - j > 1 {
                    if let Some(path) = inline_path(src, i + 2, j) {
                        let ghost cur0 = cur@;
                        if cur.unicode_len() > 0 {
                            frags.push(Fragment::String(cur));
                        }
                        frags.push(Fragment::Data(path));
                        proof {
                            assert(frags@.map_values(|x: Fragment| frag_view(x)) =~= flush(fv, cur0).push(
                                FragView::Data(path.segments()),
                            ));
                            assert(close_at(src@, j as int, b as int) == j);
                            assert(binds_at(src@, i as int, b as int));
                            assert(step_end(src@, i as int, b as int) == j + 2);
                            lemma_bind_tail(rest);
                        }
                        cur = String::new();
                        i = j + 2;
                        matched = true;
                    }
                }
            }
            if !matched {
                let ghost cur0 = cur@;
                push_char(&mut cur, c);
                proof {
                    let t = text_from(src@, i + 1, b as int);
                    lemma_bind_tail(rest);
                    assert(group_from(fv, cur0, rest) == group_from(fv, cur@, t));
                }
                i += 1;
            }
        }
    }
    let ghost fv = frags@.map_values(|x: Fragment| frag_view(x));
    assert(text_from(src@, b as int, b as int) =~= Seq::<Piece>::empty());
    if frags.len() == 0 {
        assert(src@.subrange(b as int, b as int) =~= Seq::<char>::empty());
        assert(cur@ + seq![] =~= cur@);
        assert(!has_bind(Seq::<Piece>::empty()));
        TextPath::String(cur)
    } else {
        let ghost cur0 = cur@;
        if cur.unicode_len() > 0 {
            frags.push(Fragment::String(cur));
        }
        assert(frags@.map_values(|x: Fragment| frag_view(x)) =~= flush(fv, cur0));
        TextPath::Fragments(frags)
    }
}

/// What a quoted text becomes as a value.
pub fn text_value(t: TextPath) -> (r: Value)
    ensures
        match t {
            TextPath::String(s) => r == Value::String(s),
            TextPath::Fragments(f) => r == Value::Fragments(f),
        },
{
    match t {
        TextPath::String(s) => Value::String(s),
        TextPath::Fragments(f) => Value::Fragments(f),
    }
}

/// Whether `v` is what the token at `i` reads as, for attribute `key`, when
/// the token is a literal (not a binding).
pub open spec fn literal_value(src: Seq<char>, t: Token, key: Seq<char>, v: Value) -> bool {
    match t.kind {
        Kind::String(a, b) => match v {
            Value::String(s) => text_path_of(src, a as int, b as int) == TextView::Plain(s@),
            Value::Fragments(f) => text_path_of(src, a as int, b as int) == TextView::Split(
                f@.map_values(|x: Fragment| frag_view(x)),
            ),
            _ => false,
        },
        Kind::Hex(r, g, b) => v == Value::Color(Color::Rgb { r, g, b }),
        Kind::Number(n) => v == Value::Number(Number::Unsigned(n)),
        Kind::Ident(a, b) => {
            let s = src.subrange(a as int, b as int);
            if ident_is_text(key, s) {
                v is String && v->String_0@ == s
            } else {
                ident_value(key, s) == Ok::<Value, ErrorKind>(v)
            }
        },
        _ => false,
    }
}

/// The error, if any, that the token `t` gives as a value of `key`, when it
/// is not `{{`.
pub open spec fn literal_error(src: Seq<char>, t: Token, key: Seq<char>) -> Option<ErrorKind> {
    match t.kind {
        Kind::String(_, _) | Kind::Hex(_, _, _) | Kind::Number(_) => None,
        Kind::Ident(a, b) => {
            let s = src.subrange(a as int, b as int);
            if ident_is_text(key, s) {
                None
            } else {
                match ident_value(key, s) {
                    Ok(_) => None,
                    Err(e) => Some(e),
                }
            }
        },
        _ => Some(ErrorKind::InvalidToken { expected: "" }),
    }
}

/// Whether the value that starts at token `i` cannot be read, for attribute `key`.
pub open spec fn value_fails(src: Seq<char>, toks: Seq<Token>, i: int, key: Seq<char>) -> bool {
    if toks[i].kind == Kind::LDoubleCurly {
        !(i + 1 < toks.len() && toks[i + 1].kind is Ident && path_end(toks, i + 2) < toks.len()
            && toks[path_end(toks, i + 2)].kind == Kind::RDoubleCurly)
    } else {
        literal_error(src, toks[i], key) is Some
    }
}

/// The token after the value that starts at token `i`.
pub open spec fn value_next(toks: Seq<Token>, i: int) -> int {
    if toks[i].kind == Kind::LDoubleCurly {
        path_end(toks, i + 2) + 1
    } else {
        i + 1
    }
}

/// Reads the value that starts at token `i`, for attribute `key`.
///
/// `{{ path }}` gives a binding: the path is stored in the pool and its
/// handle returned. Every other token is read as a literal.
pub fn parse_value(
    src: &[char],
    toks: &[Token],
    i: usize,
    key: &[char],
    consts: &mut Constants,
) -> (r: Result<(ExpressionValue, usize), Error>)
    requires
        tokens_ok(src@, toks@),
        i < toks@.len(),
    ensures
        final(consts).strings() == old(consts).strings(),
        final(consts).texts() == old(consts).texts(),
        final(consts).values() == old(consts).values(),
        r is Ok ==> i < r->Ok_0.1 <= toks@.len(),
        r is Ok == !value_fails(src@, toks@, i as int, key@),
        r is Ok ==> r->Ok_0.1 == value_next(toks@, i as int),
        r is Err ==> final(consts).paths_view() == old(consts).paths_view(),
        old(consts).paths_view().len() <= final(consts).paths_view().len(),
        forall|k: int|
            0 <= k < old(consts).paths_view().len() ==> #[trigger] final(consts).paths_view()[k]
                == old(consts).paths_view()[k],
        toks@[i as int].kind == Kind::LDoubleCurly ==> {
            let e = path_end(toks@, i + 2);
            if i + 1 < toks@.len() && toks@[i + 1].kind is Ident {
                if e < toks@.len() && toks@[e].kind == Kind::RDoubleCurly {
                    &&& r is Ok
                    &&& r->Ok_0.0 is Dyn
                    &&& r->Ok_0.0->Dyn_0.0 == old(consts).paths_view().len()
                    &&& r->Ok_0.1 == e + 1
                    &&& final(consts).paths_view().len() == old(consts).paths_view().len() + 1
                    &&& final(consts).paths_view().drop_last() == old(consts).paths_view()
                    &&& final(consts).paths_view().last().segments() == seq![
                        crate::values::Segment::Key(text_of(src@, toks@[i + 1])),
                    ] + path_steps(src@, toks@, i + 2)
                } else {
                    &&& r is Err
                    &&& r->Err_0.kind == ErrorKind::InvalidToken { expected: "}" }
                }
            } else {
                &&& r is Err
                &&& r->Err_0.kind == ErrorKind::InvalidToken { expected: "identifier" }
            }
        },
        toks@[i as int].kind != Kind::LDoubleCurly ==> {
            &&& final(consts).paths_view() == old(consts).paths_view()
            &&& match literal_error(src@, toks@[i as int], key@) {
                Some(e) => r is Err && r->Err_0.kind == e,
                None => {
                    &&& r is Ok
                    &&& r->Ok_0.1 == i + 1
                    &&& r->Ok_0.0 is Static
                    &&& literal_value(src@, toks@[i as int], key@, *r->Ok_0.0->Static_0)
                },
            }
        },
{
    let t = toks[i];
    assert(token_ok(src@, toks@[i as int]));
    let value = match t.kind {
        Kind::String(a, b) => text_value(parse_text(src, a, b)),
        Kind::Hex(r, g, b) => Value::Color(Color::Rgb { r, g, b }),
        Kind::Number(n) => Value::Number(Number::Unsigned(n)),
        Kind::Ident(a, b) => {
            match ident(src, a, b, key) {
                Ok(v) => v,
                Err(kind) => {
                    return Err(Error { kind, pos: t.start });
                },
            }
        },
        Kind::LDoubleCurly => {
            if i + 1 < toks.len() {
                if let Kind::Ident(a, b) = toks[i + 1].kind {
                    assert(token_ok(src@, toks@[i + 1]));
                    let first = Path::Key(string_from_chars(&src[a..b]));
                    let (path, e) = parse_path(src, toks, i + 2, first);
                    proof {
                        lemma_path_end_after(toks@, i + 2);
                    }
                    if e < toks.len() && toks[e].kind == Kind::RDoubleCurly {
                        let id = consts.store_path(path);
                        proof {
                            assert(final(consts).paths_view().drop_last() =~= old(
                                consts,
                            ).paths_view());
                        }
                        return Ok((ExpressionValue::Dyn(id), e + 1));
                    }
                    let pos = if e < toks.len() {
                        toks[e].start
                    } else {
                        t.end
                    };
                    return Err(Error { kind: ErrorKind::InvalidToken { expected: "}" }, pos });
                }
            }
            return Err(Error { kind: ErrorKind::InvalidToken { expected: "identifier" }, pos: t.end });
        },
        _ => {
            return Err(Error { kind: ErrorKind::InvalidToken { expected: "" }, pos: t.start });
        },
    };
    Ok((ExpressionValue::Static(Rc::new(value)), i + 1))
}

/// Reads identifier `src[a..b]` as a value of attribute `key`.
fn ident(src: &[char], a: usize, b: usize, key: &[char]) -> (r: Result<Value, ErrorKind>)
    requires
        a <= b <= src@.len(),
    ensures
        ({
            let s = src@.subrange(a as int, b as int);
            if ident_is_text(key@, s) {
                r is Ok && r->Ok_0 is String && r->Ok_0->String_0@ == s
            } else {
                r == ident_value(key@, s)
            }
        }),
{
    let ghost s = src@.subrange(a as int, b as int);
    let k = key.len();
    if span_is(src, a, b, "true") {
        return Ok(Value::Bool(true));
    }
    if span_is(src, a, b, "false") {
        return Ok(Value::Bool(false));
    }
    let ansi = b - a >= 4 && span_is(src, a, a + 4, "ansi");
    proof {
        if b - a >= 4 {
            assert(s.subrange(0, 4) =~= src@.subrange(a as int, a + 4));
        }
    }
    if ansi {
        assert(s.skip(4) =~= src@.subrange(a + 4, b as int));
        return match parse_u8(src, a + 4, b) {
            Some(n) => Ok(Value::Color(Color::AnsiValue(n))),
            None => Err(ErrorKind::InvalidNumber),
        };
    }
    assert(key@.subrange(0, k as int) =~= key@);
    if span_is(key, 0, k, "align") {
        return match alignment(src, a, b) {
            Some(v) => Ok(Value::Alignment(v)),
            None => Err(ErrorKind::InvalidToken { expected: "alignment" }),
        };
    }
    if span_is(key, 0, k, "axis") {
        return match axis(src, a, b) {
            Some(v) => Ok(Value::Axis(v)),
            None => Err(ErrorKind::InvalidToken { expected: "axis" }),
        };
    }
    if span_is(key, 0, k, "display") {
        return match display(src, a, b) {
            Some(v) => Ok(Value::Display(v)),
            None => Err(ErrorKind::InvalidToken { expected: "display" }),
        };
    }
    if span_is(key, 0, k, "direction") {
        return match direction(src, a, b) {
            Some(v) => Ok(Value::Direction(v)),
            None => Err(ErrorKind::InvalidToken { expected: "direction" }),
        };
    }
    if !span_is(key, 0, k, "id") {
        if let Some(c) = try_parse_color(src, a, b) {
            return Ok(Value::Color(c));
        }
    }
    Ok(Value::String(string_from_chars(&src[a..b])))
}

} // verus!
