//! Reads statements from the token stream and emits the flat instruction stream.
use vstd::prelude::*;
use crate::attribute::{literal_value, parse_value, path_steps, tokens_ok, value_fails, value_next};
use crate::constants::Constants;
use crate::error::{Error, ErrorKind};
use crate::expression::{build, lemma_build_len, lemma_views_len, views, Expression};
use crate::instruction::{
    flatten, flatten_elses, flatten_one, header_ok, lemma_flatten_append, lemma_flatten_elses_push,
    lemma_valid_append, lemma_valid_elses_push, lemma_valid_grow, lemma_valid_one_grow,
    lemma_valid_split, valid, valid_elses, valid_one, well_formed, Block, Instruction,
};
use crate::lexer::{lex_error_at, tokenization, tokenize, Kind, Token, token_ok};
use crate::text::string_from_chars;
use crate::values::{ExpressionValue, Segment, StringId, ValueId};
use crate::vm::build_range;

verus! {

/// The statement tokens `start..end` of one non-empty line, and its indentation.
#[derive(Clone, Copy, Debug)]
pub struct Line {
    pub indent: usize,
    pub start: usize,
    pub end: usize,
}

/// Whether a line's span lies within the tokens, before a last token.
pub open spec fn line_ok(l: Line, n: nat) -> bool {
    l.start < l.end < n
}

/// The statement lines of the tokens from `i` on, given the indentation and
/// first statement token of the line under way. A newline or a comment ends
/// a line; the indentation token is not part of it; lines without a
/// statement token are left out.
pub open spec fn lines_from(toks: Seq<Token>, i: int, indent: usize, start: Option<usize>) -> Seq<
    Line,
>
    decreases toks.len() - i,
{
    if i < 0 || i >= toks.len() - 1 {
        match start {
            Some(s) => seq![Line { indent, start: s, end: (toks.len() - 1) as usize }],
            None => seq![],
        }
    } else {
        match toks[i].kind {
            Kind::Newline | Kind::Comment => closed_line(indent, start, i) + lines_from(
                toks,
                i + 1,
                0,
                None,
            ),
            Kind::Indent(w) if start is None => lines_from(toks, i + 1, w, None),
            _ => lines_from(
                toks,
                i + 1,
                indent,
                if start is None {
                    Some(i as usize)
                } else {
                    start
                },
            ),
        }
    }
}

/// The line under way, ended at token `end`, if it has a statement token.
pub open spec fn closed_line(indent: usize, start: Option<usize>, end: int) -> Seq<Line> {
    match start {
        Some(s) => seq![Line { indent, start: s, end: end as usize }],
        None => seq![],
    }
}

/// The statement lines of a token stream.
pub open spec fn lines_spec(toks: Seq<Token>) -> Seq<Line> {
    lines_from(toks, 0, 0, None)
}

/// The lines of a token stream that hold a statement; blank lines and
/// comments are left out.
pub fn lines_of(toks: &[Token]) -> (r: Vec<Line>)
    requires
        toks@.len() > 0,
        toks@.last().kind == Kind::EOF,
    ensures
        r@ == lines_spec(toks@),
        forall|k: int| 0 <= k < r@.len() ==> line_ok(#[trigger] r@[k], toks@.len()),
{
    let n = toks.len();
    let mut lines: Vec<Line> = Vec::new();
    let mut indent: usize = 0;
    let mut start: Option<usize> = None;
    let mut i: usize = 0;
    while i < n - 1
        invariant
            n == toks@.len(),
            n > 0,
            i <= n - 1,
            lines@ + lines_from(toks@, i as int, indent, start) == lines_spec(toks@),
            start matches Some(s) ==> s < i,
            forall|k: int| 0 <= k < lines@.len() ==> line_ok(#[trigger] lines@[k], n as nat),
        decreases n - i,
    {
        let ghost before = lines@;
        match toks[i].kind {
            Kind::Newline | Kind::Comment => {
                if let Some(s) = start {
                    lines.push(Line { indent, start: s, end: i });
                }
                proof {
                    assert(lines@ + lines_from(toks@, i + 1, 0, None) =~= before + lines_from(
                        toks@,
                        i as int,
                        indent,
                        start,
                    ));
                }
                indent = 0;
                start = None;
            },
            Kind::Indent(w) => {
                if start.is_none() {
                    indent = w;
                } else {
                    assert(lines_from(toks@, i as int, indent, start) == lines_from(
                        toks@,
                        i + 1,
                        indent,
                        start,
                    ));
                }
            },
            _ => {
                if start.is_none() {
                    start = Some(i);
                }
            },
        }
        i += 1;
    }
    if let Some(s) = start {
        lines.push(Line { indent, start: s, end: n - 1 });
    }
    assert(lines@ =~= lines_spec(toks@));
    lines
}

/// Whether a line opens a statement at indentation `level`; an `else` line
/// continues the `if` before it instead.
pub open spec fn opens_statement(toks: Seq<Token>, l: Line, level: usize) -> bool {
    l.indent == level && toks[l.start as int].kind != Kind::Else
}

/// The number of lines in `lo..hi` that open a statement at `level`.
pub open spec fn statement_count(toks: Seq<Token>, lines: Seq<Line>, lo: int, hi: int, level: usize) -> nat
    decreases hi - lo,
{
    if hi <= lo {
        0
    } else {
        statement_count(toks, lines, lo, hi - 1, level) + if opens_statement(
            toks,
            lines[hi - 1],
            level,
        ) {
            1nat
        } else {
            0nat
        }
    }
}

/// The number of top-level statements of a token stream: the lines that
/// open a statement at the indentation of the first line.
pub open spec fn top_level_count(toks: Seq<Token>) -> nat {
    let ls = lines_spec(toks);
    if ls.len() == 0 {
        0
    } else {
        statement_count(toks, ls, 0, ls.len() as int, ls[0].indent)
    }
}

proof fn lemma_count_deeper(toks: Seq<Token>, lines: Seq<Line>, lo: int, i: int, j: int, level: usize)
    requires
        lo <= i <= j <= lines.len(),
        forall|k: int| i <= k < j ==> #[trigger] lines[k].indent > level,
    ensures
        statement_count(toks, lines, lo, j, level) == statement_count(toks, lines, lo, i, level),
    decreases j - i,
{
    if j > i {
        lemma_count_deeper(toks, lines, lo, i, j - 1, level);
    }
}

/// The head of a statement: what comes before its indented block.
pub enum Head {
    Node { ident: StringId, header: Vec<Instruction> },
    For { binding: StringId, data: ValueId },
    If { cond: ValueId },
    Else { cond: Option<ValueId> },
}

/// Whether the pool `d` holds at least what `c` holds.
pub open spec fn grown(c: Constants, d: Constants) -> bool {
    &&& c.strings().len() <= d.strings().len()
    &&& c.values().len() <= d.values().len()
    &&& c.paths_view().len() <= d.paths_view().len()
    &&& forall|k: int| 0 <= k < c.strings().len() ==> #[trigger] d.strings()[k] == c.strings()[k]
    &&& forall|k: int| 0 <= k < c.values().len() ==> #[trigger] d.values()[k] == c.values()[k]
    &&& forall|k: int|
        0 <= k < c.paths_view().len() ==> #[trigger] d.paths_view()[k] == c.paths_view()[k]
}

/// Whether `v` is the value that the tokens from `i` read as, for attribute
/// `key`: a binding whose stored path is the one written, or a literal.
pub open spec fn value_read(
    src: Seq<char>,
    toks: Seq<Token>,
    i: int,
    key: Seq<char>,
    v: ExpressionValue,
    c: Constants,
) -> bool {
    if toks[i].kind == Kind::LDoubleCurly {
        &&& v is Dyn
        &&& v->Dyn_0.0 < c.paths_view().len()
        &&& i + 1 < toks.len()
        &&& c.paths_view()[v->Dyn_0.0 as int].segments() == seq![
            Segment::Key(crate::attribute::text_of(src, toks[i + 1])),
        ] + path_steps(src, toks, i + 2)
    } else {
        v is Static && literal_value(src, toks[i], key, *v->Static_0)
    }
}

/// Whether the load `LoadAttribute { key, value }` was read from the pair
/// `name: value` whose name is token `t` of line `l`.
pub open spec fn attribute_from(
    src: Seq<char>,
    toks: Seq<Token>,
    l: Line,
    t: int,
    key: StringId,
    value: ValueId,
    c: Constants,
) -> bool {
    &&& l.start < t && t + 2 < l.end
    &&& toks[t].kind is Ident
    &&& toks[t + 1].kind == Kind::Colon
    &&& key.0 < c.strings().len()
    &&& value.0 < c.values().len()
    &&& c.strings()[key.0 as int]@ == crate::attribute::text_of(src, toks[t])
    &&& value_read(src, toks, t + 2, crate::attribute::text_of(src, toks[t]), c.values()[value.0 as int], c)
}

/// Whether load `ins` of a node was read from line `l`: an attribute from
/// a `name: value` pair, a text (only as the `last` load) from a value.
pub open spec fn load_from(
    src: Seq<char>,
    toks: Seq<Token>,
    l: Line,
    ins: Instruction,
    last: bool,
    c: Constants,
) -> bool {
    if ins is LoadAttribute {
        exists|t: int|
            attribute_from(src, toks, l, t, ins->LoadAttribute_key, ins->LoadAttribute_value, c)
    } else if ins is LoadText {
        &&& last
        &&& ins->LoadText_0.0 < c.values().len()
        &&& exists|t: int|
            #![trigger toks[t]]
            l.start < t < l.end && value_read(
                src,
                toks,
                t,
                "text"@,
                c.values()[ins->LoadText_0.0 as int],
                c,
            )
    } else {
        false
    }
}

/// Whether the loads of a node were read from its line.
pub open spec fn loads_from(src: Seq<char>, toks: Seq<Token>, l: Line, h: Seq<Instruction>, c: Constants) -> bool {
    forall|m: int| 0 <= m < h.len() ==> load_from(src, toks, l, #[trigger] h[m], m == h.len() - 1, c)
}

proof fn lemma_value_read_grow(
    src: Seq<char>,
    toks: Seq<Token>,
    i: int,
    key: Seq<char>,
    v: ExpressionValue,
    c: Constants,
    d: Constants,
)
    requires
        value_read(src, toks, i, key, v, c),
        grown(c, d),
    ensures
        value_read(src, toks, i, key, v, d),
{
    if toks[i].kind == Kind::LDoubleCurly {
        assert(d.paths_view()[v->Dyn_0.0 as int] == c.paths_view()[v->Dyn_0.0 as int]);
    }
}

proof fn lemma_loads_grow(
    src: Seq<char>,
    toks: Seq<Token>,
    l: Line,
    h: Seq<Instruction>,
    c: Constants,
    d: Constants,
)
    requires
        loads_from(src, toks, l, h, c),
        grown(c, d),
    ensures
        loads_from(src, toks, l, h, d),
{
    assert forall|m: int| 0 <= m < h.len() implies load_from(
        src,
        toks,
        l,
        #[trigger] h[m],
        m == h.len() - 1,
        d,
    ) by {
        match h[m] {
            Instruction::LoadAttribute { key, value } => {
                let t = choose|t: int| attribute_from(src, toks, l, t, key, value, c);
                assert(d.values()[value.0 as int] == c.values()[value.0 as int]);
                assert(d.strings()[key.0 as int] == c.strings()[key.0 as int]);
                lemma_value_read_grow(
                    src,
                    toks,
                    t + 2,
                    crate::attribute::text_of(src, toks[t]),
                    c.values()[value.0 as int],
                    c,
                    d,
                );
                assert(attribute_from(src, toks, l, t, key, value, d));
            },
            Instruction::LoadText(v) => {
                let t = choose|t: int|
                    #![trigger toks[t]]
                    l.start < t < l.end && value_read(src, toks, t, "text"@, c.values()[v.0 as int], c);
                assert(d.values()[v.0 as int] == c.values()[v.0 as int]);
                lemma_value_read_grow(src, toks, t, "text"@, c.values()[v.0 as int], c, d);
                assert(toks[t] == toks[t]);
            },
            _ => {},
        }
    }
}

proof fn lemma_loads_push_attribute(
    src: Seq<char>,
    toks: Seq<Token>,
    l: Line,
    h: Seq<Instruction>,
    t0: int,
    k0: StringId,
    v0: ValueId,
    c: Constants,
)
    requires
        loads_from(src, toks, l, h, c),
        forall|k: int| 0 <= k < h.len() ==> (#[trigger] h[k]) is LoadAttribute,
        attribute_from(src, toks, l, t0, k0, v0, c),
    ensures
        loads_from(src, toks, l, h.push(Instruction::LoadAttribute { key: k0, value: v0 }), c),
{
    let h2 = h.push(Instruction::LoadAttribute { key: k0, value: v0 });
    let n = h.len() as int;
    assert(h2[n] == Instruction::LoadAttribute { key: k0, value: v0 });
    assert(attribute_from(src, toks, l, t0, h2[n]->LoadAttribute_key, h2[n]->LoadAttribute_value, c));
    assert(load_from(src, toks, l, h2[n], n == h2.len() - 1, c));
    assert forall|m: int| 0 <= m < h.len() implies load_from(
        src,
        toks,
        l,
        #[trigger] h2[m],
        m == h2.len() - 1,
        c,
    ) by {
        assert(h2[m] == h[m]);
        assert(h[m] is LoadAttribute);
        assert(load_from(src, toks, l, h[m], m == h.len() - 1, c));
    }
    assert forall|m: int| 0 <= m < h2.len() implies load_from(
        src,
        toks,
        l,
        #[trigger] h2[m],
        m == h2.len() - 1,
        c,
    ) by {
        if m == n {
        }
    }
}

proof fn lemma_head_matches_grow(
    src: Seq<char>,
    toks: Seq<Token>,
    l: Line,
    b: Block,
    c: Constants,
    d: Constants,
)
    requires
        head_matches(src, toks, l, b, c),
        grown(c, d),
    ensures
        head_matches(src, toks, l, b, d),
{
    if toks[l.start as int].kind is Ident {
        lemma_loads_grow(src, toks, l, b->Node_header, c, d);
        lemma_loads_at_grow(
            src,
            toks,
            l,
            b->Node_header,
            load_keys(toks, l.start + 1, l.end as int),
            text_start(toks, l.start + 1, l.end as int),
            c,
            d,
        );
    } else if toks[l.start as int].kind == Kind::For {
        lemma_value_read_grow(src, toks, l.start + 3, seq![], c.values()[b->Loop_data.0 as int], c, d);
    } else if toks[l.start as int].kind == Kind::If {
        lemma_value_read_grow(src, toks, l.start + 1, seq![], c.values()[b->If_cond.0 as int], c, d);
    }
}

/// Whether statement `b` is what line `l` opens: a node named by its first
/// token, a loop binding the name after `for`, or an `if`.
pub open spec fn head_matches(src: Seq<char>, toks: Seq<Token>, l: Line, b: Block, c: Constants) -> bool {
    match toks[l.start as int].kind {
        Kind::Ident(a, e) => b is Node && b->Node_ident.0 < c.strings().len() && c.strings()[b->Node_ident.0 as int]@
            == src.subrange(a as int, e as int) && loads_from(src, toks, l, b->Node_header, c)
            && node_loads(src, toks, l, b->Node_header, c),
        Kind::For => b is Loop && l.start + 3 < toks.len() && b->Loop_binding.0 < c.strings().len()
            && c.strings()[b->Loop_binding.0 as int]@ == crate::attribute::text_of(
            src,
            toks[l.start + 1],
        ) && b->Loop_data.0 < c.values().len() && value_read(
            src,
            toks,
            l.start + 3,
            seq![],
            c.values()[b->Loop_data.0 as int],
            c,
        ),
        Kind::If => b is If && l.start + 1 < toks.len() && b->If_cond.0 < c.values().len()
            && value_read(src, toks, l.start + 1, seq![], c.values()[b->If_cond.0 as int], c),
        _ => false,
    }
}

/// Each line in `lo..hi` that opens a statement at `level` opens the
/// statement of `f` whose position is the number of such lines before it.
pub open spec fn statements_match(
    src: Seq<char>,
    toks: Seq<Token>,
    lines: Seq<Line>,
    lo: int,
    hi: int,
    level: usize,
    f: Seq<Block>,
    c: Constants,
) -> bool {
    forall|k: int|
        lo <= k < hi && #[trigger] opens_statement(toks, lines[k], level) ==> {
            let n = statement_count(toks, lines, lo, k, level);
            n < f.len() && head_matches(src, toks, lines[k], f[n as int], c)
        }
}

/// Whether the handles of a head are in the pool.
pub open spec fn head_ok(h: Head, c: Constants) -> bool {
    match h {
        Head::Node { ident, header } => {
            &&& ident.0 < c.strings().len()
            &&& forall|k: int| 0 <= k < header@.len() ==> header_ok(#[trigger] header@[k], c)
        },
        Head::For { binding, data } => binding.0 < c.strings().len() && data.0 < c.values().len(),
        Head::If { cond } => cond.0 < c.values().len(),
        Head::Else { cond } => cond matches Some(v) ==> v.0 < c.values().len(),
    }
}

/// An `InvalidToken` error at token `p`.
fn unexpected(expected: &'static str, toks: &[Token], p: usize) -> (r: Error)
    ensures
        r.kind == (ErrorKind::InvalidToken { expected }),
{
    let pos = if p < toks.len() {
        toks[p].start
    } else {
        0
    };
    Error { kind: ErrorKind::InvalidToken { expected }, pos }
}

/// Whether the tokens `p..e` end a node line: nothing, or one value.
pub open spec fn rest_ok(src: Seq<char>, toks: Seq<Token>, p: int, e: int) -> bool {
    p == e || (p < e && !value_fails(src, toks, p, "text"@) && value_next(toks, p) == e)
}

/// Whether token `p` starts a `name: value` pair that ends before `e`.
pub open spec fn pair_ok(src: Seq<char>, toks: Seq<Token>, p: int, e: int) -> bool {
    &&& e - p > 2
    &&& toks[p].kind is Ident
    &&& toks[p + 1].kind == Kind::Colon
    &&& !value_fails(src, toks, p + 2, crate::attribute::text_of(src, toks[p]))
    &&& p < value_next(toks, p + 2) < e
}

/// The token after the pair that starts at `p`.
pub open spec fn pair_end(toks: Seq<Token>, p: int) -> int {
    value_next(toks, p + 2)
}

/// Whether the tokens from `p` on hold `name: value` pairs separated by
/// commas, closed by `]`, and then a valid end of the line at `e`.
pub open spec fn pairs_ok(src: Seq<char>, toks: Seq<Token>, p: int, e: int) -> bool
    decreases e - p,
{
    if !pair_ok(src, toks, p, e) || pair_end(toks, p) <= p || pair_end(toks, p) >= e {
        false
    } else if toks[pair_end(toks, p)].kind == Kind::RBracket {
        rest_ok(src, toks, pair_end(toks, p) + 1, e)
    } else if toks[pair_end(toks, p)].kind == Kind::Comma {
        pairs_ok(src, toks, pair_end(toks, p) + 1, e)
    } else {
        false
    }
}

/// The name tokens of the pairs from `p` on, in order, up to the closing `]`.
pub open spec fn pair_keys(toks: Seq<Token>, p: int, e: int) -> Seq<int>
    decreases e - p,
{
    if pair_end(toks, p) <= p || pair_end(toks, p) >= e {
        seq![]
    } else if toks[pair_end(toks, p)].kind == Kind::RBracket {
        seq![p]
    } else if toks[pair_end(toks, p)].kind == Kind::Comma {
        seq![p] + pair_keys(toks, pair_end(toks, p) + 1, e)
    } else {
        seq![]
    }
}

/// The token after the `]` that closes the pairs from `p` on.
pub open spec fn pairs_stop(toks: Seq<Token>, p: int, e: int) -> int
    decreases e - p,
{
    if pair_end(toks, p) <= p || pair_end(toks, p) >= e {
        p
    } else if toks[pair_end(toks, p)].kind == Kind::RBracket {
        pair_end(toks, p) + 1
    } else if toks[pair_end(toks, p)].kind == Kind::Comma {
        pairs_stop(toks, pair_end(toks, p) + 1, e)
    } else {
        p
    }
}

/// The name tokens of a node's pairs, for loads starting at token `p`.
pub open spec fn load_keys(toks: Seq<Token>, p: int, e: int) -> Seq<int> {
    if p < e && toks[p].kind == Kind::LBracket {
        if p + 1 < e && toks[p + 1].kind == Kind::RBracket {
            seq![]
        } else {
            pair_keys(toks, p + 1, e)
        }
    } else {
        seq![]
    }
}

/// Where a node's text value would start, for loads starting at token `p`.
pub open spec fn text_start(toks: Seq<Token>, p: int, e: int) -> int {
    if p < e && toks[p].kind == Kind::LBracket {
        if p + 1 < e && toks[p + 1].kind == Kind::RBracket {
            p + 2
        } else {
            pairs_stop(toks, p + 1, e)
        }
    } else {
        p
    }
}

/// Whether the loads `h` are exactly, in order, one attribute for each pair
/// whose name is at `ks`, then a text read at `text_start` when that lies
/// before the end of the line.
pub open spec fn loads_at(
    src: Seq<char>,
    toks: Seq<Token>,
    l: Line,
    h: Seq<Instruction>,
    ks: Seq<int>,
    t: int,
    c: Constants,
) -> bool {
    &&& h.len() == ks.len() + (if t < l.end {
        1int
    } else {
        0int
    })
    &&& forall|m: int|
        0 <= m < ks.len() ==> (#[trigger] h[m]) is LoadAttribute && attribute_from(
            src,
            toks,
            l,
            ks[m],
            h[m]->LoadAttribute_key,
            h[m]->LoadAttribute_value,
            c,
        )
    &&& t < l.end ==> h.last() is LoadText && h.last()->LoadText_0.0 < c.values().len()
        && value_read(src, toks, t, "text"@, c.values()[h.last()->LoadText_0.0 as int], c)
}

/// The loads of the node that line `l` opens.
pub open spec fn node_loads(src: Seq<char>, toks: Seq<Token>, l: Line, h: Seq<Instruction>, c: Constants) -> bool {
    loads_at(
        src,
        toks,
        l,
        h,
        load_keys(toks, l.start + 1, l.end as int),
        text_start(toks, l.start + 1, l.end as int),
        c,
    )
}

proof fn lemma_loads_at_grow(
    src: Seq<char>,
    toks: Seq<Token>,
    l: Line,
    h: Seq<Instruction>,
    ks: Seq<int>,
    t: int,
    c: Constants,
    d: Constants,
)
    requires
        loads_at(src, toks, l, h, ks, t, c),
        grown(c, d),
    ensures
        loads_at(src, toks, l, h, ks, t, d),
{
    assert forall|m: int| 0 <= m < ks.len() implies (#[trigger] h[m]) is LoadAttribute && attribute_from(
        src,
        toks,
        l,
        ks[m],
        h[m]->LoadAttribute_key,
        h[m]->LoadAttribute_value,
        d,
    ) by {
        let key = h[m]->LoadAttribute_key;
        let value = h[m]->LoadAttribute_value;
        assert(attribute_from(src, toks, l, ks[m], key, value, c));
        assert(d.values()[value.0 as int] == c.values()[value.0 as int]);
        assert(d.strings()[key.0 as int] == c.strings()[key.0 as int]);
        lemma_value_read_grow(
            src,
            toks,
            ks[m] + 2,
            crate::attribute::text_of(src, toks[ks[m]]),
            c.values()[value.0 as int],
            c,
            d,
        );
    }
    if t < l.end {
        let v = h.last()->LoadText_0;
        assert(d.values()[v.0 as int] == c.values()[v.0 as int]);
        lemma_value_read_grow(src, toks, t, "text"@, c.values()[v.0 as int], c, d);
    }
}

/// Whether the tokens `p..e` after a node's name read as its loads: an
/// optional `[...]` list, then an optional text value.
pub open spec fn loads_ok(src: Seq<char>, toks: Seq<Token>, p: int, e: int) -> bool {
    if p < e && toks[p].kind == Kind::LBracket {
        if p + 1 < e && toks[p + 1].kind == Kind::RBracket {
            rest_ok(src, toks, p + 2, e)
        } else {
            pairs_ok(src, toks, p + 1, e)
        }
    } else {
        rest_ok(src, toks, p, e)
    }
}

/// Whether line `l` holds a statement: `for name in value`, `if value`,
/// `else`, `else if value`, or a node name followed by its loads.
pub open spec fn statement_ok(src: Seq<char>, toks: Seq<Token>, l: Line) -> bool {
    let s = l.start as int;
    let e = l.end as int;
    match toks[s].kind {
        Kind::For => e - s > 3 && toks[s + 1].kind is Ident && toks[s + 2].kind == Kind::In
            && !value_fails(src, toks, s + 3, seq![]) && value_next(toks, s + 3) == e,
        Kind::If => e - s > 1 && !value_fails(src, toks, s + 1, seq![]) && value_next(toks, s + 1)
            == e,
        Kind::Else => e - s == 1 || (toks[s + 1].kind == Kind::If && e - s > 2 && !value_fails(
            src,
            toks,
            s + 2,
            seq![],
        ) && value_next(toks, s + 2) == e),
        Kind::Ident(_, _) => loads_ok(src, toks, s + 1, e),
        _ => false,
    }
}

/// Reads the statement on one line: `for name in value`, or a node name with
/// an optional `[key: value, ...]` list and an optional text value.
pub fn parse_statement(src: &[char], toks: &[Token], line: Line, consts: &mut Constants) -> (r:
    Result<Head, Error>)
    requires
        tokens_ok(src@, toks@),
        line_ok(line, toks@.len()),
    ensures
        grown(*old(consts), *final(consts)),
        r is Ok ==> head_ok(r->Ok_0, *final(consts)),
        r is Ok ==> ((r->Ok_0 is Else) == (toks@[line.start as int].kind == Kind::Else)),
        r matches Ok(Head::Node { ident, header }) ==> toks@[line.start as int].kind is Ident
            && final(consts).strings()[ident.0 as int]@ == crate::attribute::text_of(
            src@,
            toks@[line.start as int],
        ) && loads_from(src@, toks@, line, header@, *final(consts)) && node_loads(
            src@,
            toks@,
            line,
            header@,
            *final(consts),
        ),
        r matches Ok(Head::For { binding, data }) ==> toks@[line.start as int].kind == Kind::For
            && line.start + 3 < toks@.len() && final(consts).strings()[binding.0 as int]@
            == crate::attribute::text_of(src@, toks@[line.start + 1]) && value_read(
            src@,
            toks@,
            line.start + 3,
            seq![],
            final(consts).values()[data.0 as int],
            *final(consts),
        ),
        r is Ok == statement_ok(src@, toks@, line),
        r is Ok ==> ((r->Ok_0 is If) == (toks@[line.start as int].kind == Kind::If)),
        r matches Ok(Head::Else { cond }) ==> else_head(src@, toks@, line, cond, *final(consts)),
        r matches Ok(Head::If { cond }) ==> toks@[line.start as int].kind == Kind::If
            && line.start + 1 < toks@.len() && value_read(
            src@,
            toks@,
            line.start + 1,
            seq![],
            final(consts).values()[cond.0 as int],
            *final(consts),
        ),
{
    let end = line.end;
    let mut p = line.start;
    match toks[p].kind {
        Kind::For => {
            if end - p <= 3 {
                return Err(unexpected("", toks, end));
            }
            let (a, b) = match toks[p + 1].kind {
                Kind::Ident(a, b) => (a, b),
                _ => {
                    return Err(unexpected("identifier", toks, p + 1));
                },
            };
            if toks[p + 2].kind != Kind::In {
                return Err(unexpected("in", toks, p + 2));
            }
            assert(token_ok(src@, toks@[p + 1]));
            let ghost c0 = *consts;
            let no_key: [char; 0] = [];
            assert(no_key@ =~= Seq::<char>::empty());
            let (value, q) = parse_value(src, toks, p + 3, no_key.as_slice(), consts)?;
            let ghost c1 = *consts;
            proof {
                assert(no_key@ =~= Seq::<char>::empty());
                if toks@[p + 3].kind == Kind::LDoubleCurly {
                    assert(c1.paths_view()[c0.paths_view().len() as int] == c1.paths_view().last());
                }
                assert(value_read(src@, toks@, p + 3, seq![], value, c1));
            }
            if q != end {
                return Err(unexpected("newline", toks, q));
            }
            let binding = consts.store_string(string_from_chars(&src[a..b]));
            let data = consts.store_value(value);
            proof {
                lemma_value_read_grow(src@, toks@, p + 3, seq![], value, c1, *consts);
            }
            Ok(Head::For { binding, data })
        },
        Kind::If => {
            if end - p <= 1 {
                return Err(unexpected("", toks, end));
            }
            let ghost c0 = *consts;
            let no_key: [char; 0] = [];
            assert(no_key@ =~= Seq::<char>::empty());
            let (value, q) = parse_value(src, toks, p + 1, no_key.as_slice(), consts)?;
            let ghost c1 = *consts;
            proof {
                assert(no_key@ =~= Seq::<char>::empty());
                if toks@[p + 1].kind == Kind::LDoubleCurly {
                    assert(c1.paths_view()[c0.paths_view().len() as int] == c1.paths_view().last());
                }
                assert(value_read(src@, toks@, p + 1, seq![], value, c1));
            }
            if q != end {
                return Err(unexpected("newline", toks, q));
            }
            let cond = consts.store_value(value);
            proof {
                lemma_value_read_grow(src@, toks@, p + 1, seq![], value, c1, *consts);
            }
            Ok(Head::If { cond })
        },
        Kind::Else => {
            if end - p == 1 {
                return Ok(Head::Else { cond: None });
            }
            if toks[p + 1].kind != Kind::If || end - p <= 2 {
                return Err(unexpected("if", toks, p + 1));
            }
            let no_key: [char; 0] = [];
            assert(no_key@ =~= Seq::<char>::empty());
            let ghost c0 = *consts;
            let (value, q) = parse_value(src, toks, p + 2, no_key.as_slice(), consts)?;
            let ghost c1 = *consts;
            proof {
                if toks@[p + 2].kind == Kind::LDoubleCurly {
                    assert(c1.paths_view()[c0.paths_view().len() as int] == c1.paths_view().last());
                }
                assert(value_read(src@, toks@, p + 2, seq![], value, c1));
            }
            if q != end {
                return Err(unexpected("newline", toks, q));
            }
            let cond = consts.store_value(value);
            proof {
                lemma_value_read_grow(src@, toks@, p + 2, seq![], value, c1, *consts);
            }
            Ok(Head::Else { cond: Some(cond) })
        },
        Kind::Ident(a, b) => {
            assert(token_ok(src@, toks@[p as int]));
            let ident = consts.store_string(string_from_chars(&src[a..b]));
            assert(consts.strings()[ident.0 as int]@ == crate::attribute::text_of(
                src@,
                toks@[line.start as int],
            ));
            let ghost c_ident = *consts;
            let (header, _) = parse_loads(src, toks, line, p + 1, consts)?;
            proof {
                lemma_grown_trans(*old(consts), c_ident, *consts);
            }
            Ok(Head::Node { ident, header })
        },
        _ => Err(unexpected("", toks, p)),
    }
}

proof fn lemma_grown_trans(a: Constants, b: Constants, c: Constants)
    requires
        grown(a, b),
        grown(b, c),
    ensures
        grown(a, c),
{
    assert forall|k: int| 0 <= k < a.strings().len() implies #[trigger] c.strings()[k]
        == a.strings()[k] by {
        assert(c.strings()[k] == b.strings()[k]);
    }
    assert forall|k: int| 0 <= k < a.values().len() implies #[trigger] c.values()[k]
        == a.values()[k] by {
        assert(c.values()[k] == b.values()[k]);
    }
    assert forall|k: int| 0 <= k < a.paths_view().len() implies #[trigger] c.paths_view()[k]
        == a.paths_view()[k] by {
        assert(c.paths_view()[k] == b.paths_view()[k]);
    }
}

/// Reads the loads of a node from token `p` of its line: an optional
/// `[name: value, ...]` list, then an optional text value ending the line.
fn parse_loads(src: &[char], toks: &[Token], line: Line, from: usize, consts: &mut Constants) -> (r:
    Result<(Vec<Instruction>, usize), Error>)
    requires
        tokens_ok(src@, toks@),
        line_ok(line, toks@.len()),
        line.start < from <= line.end,
    ensures
        grown(*old(consts), *final(consts)),
        r is Ok == loads_ok(src@, toks@, from as int, line.end as int),
        r matches Ok((header, q)) ==> loads_at(
            src@,
            toks@,
            line,
            header@,
            load_keys(toks@, from as int, line.end as int),
            text_start(toks@, from as int, line.end as int),
            *final(consts),
        ),
        r matches Ok((header, q)) ==> q == line.end && loads_from(src@, toks@, line, header@, *final(consts))
            && forall|k: int| 0 <= k < header@.len() ==> header_ok(#[trigger] header@[k], *final(consts)),
{
    let end = line.end;
    let ghost p0 = from as int;
    let mut p = from;
    let mut header: Vec<Instruction> = Vec::new();
    let ghost mut ks: Seq<int> = seq![];
    if p < end && toks[p].kind == Kind::LBracket {
        p += 1;
        if p < end && toks[p].kind == Kind::RBracket {
            p += 1;
        } else {
            let ghost p1 = p as int;
            loop
                invariant_except_break
                    loads_ok(src@, toks@, p0, end as int) == pairs_ok(src@, toks@, p as int, end as int),
                    ks + pair_keys(toks@, p as int, end as int) == pair_keys(toks@, p1, end as int),
                    pairs_stop(toks@, p as int, end as int) == pairs_stop(toks@, p1, end as int),
                invariant
                    tokens_ok(src@, toks@),
                    line_ok(line, toks@.len()),
                    end == line.end,
                    line.start < p <= end,
                    grown(*old(consts), *consts),
                    loads_from(src@, toks@, line, header@, *consts),
                    forall|k: int| 0 <= k < header@.len() ==> (#[trigger] header@[k]) is LoadAttribute,
                    forall|k: int| 0 <= k < header@.len() ==> header_ok(#[trigger] header@[k], *consts),
                    p0 < p,
                    p0 == from as int,
                    p1 == p0 + 1,
                    toks@[p0].kind == Kind::LBracket,
                    !(p1 < end && toks@[p1].kind == Kind::RBracket),
                    header@.len() == ks.len(),
                    forall|m: int|
                        0 <= m < ks.len() ==> attribute_from(
                            src@,
                            toks@,
                            line,
                            ks[m],
                            (#[trigger] header@[m])->LoadAttribute_key,
                            header@[m]->LoadAttribute_value,
                            *consts,
                        ),
                ensures
                    loads_ok(src@, toks@, p0, end as int) == rest_ok(src@, toks@, p as int, end as int),
                    ks == pair_keys(toks@, p1, end as int),
                    p == pairs_stop(toks@, p1, end as int),
                decreases end - p,
            {
                if end - p <= 2 {
                    return Err(unexpected("]", toks, end));
                }
                let (ka, kb) = match toks[p].kind {
                    Kind::Ident(ka, kb) => (ka, kb),
                    _ => {
                        return Err(unexpected("identifier", toks, p));
                    },
                };
                if toks[p + 1].kind != Kind::Colon {
                    return Err(unexpected(":", toks, p + 1));
                }
                assert(token_ok(src@, toks@[p as int]));
                let ghost c0 = *consts;
                let name_chars = &src[ka..kb];
                assert(name_chars@ == src@.subrange(ka as int, kb as int));
                let (value, q) = parse_value(src, toks, p + 2, name_chars, consts)?;
                let ghost c1 = *consts;
                proof {
                    let name = crate::attribute::text_of(src@, toks@[p as int]);
                    assert(name == src@.subrange(ka as int, kb as int));
                    if toks@[p + 2].kind == Kind::LDoubleCurly {
                        assert(c1.paths_view()[c0.paths_view().len() as int] == c1.paths_view().last());
                    }
                    assert(value_read(src@, toks@, p + 2, name, value, c1));
                }
                if q >= end {
                    return Err(unexpected("]", toks, end));
                }
                let key = consts.store_string(string_from_chars(&src[ka..kb]));
                let value_id = consts.store_value(value);
                let ghost c2 = *consts;
                proof {
                    assert(grown(c0, c1));
                    assert(grown(c1, c2));
                    lemma_grown_trans(c0, c1, c2);
                    lemma_grown_trans(*old(consts), c0, c2);
                    lemma_loads_grow(src@, toks@, line, header@, c0, c2);
                    assert forall|k: int| 0 <= k < header@.len() implies header_ok(
                        #[trigger] header@[k],
                        c2,
                    ) by {
                        assert(header_ok(header@[k], c0));
                    }
                    let name = crate::attribute::text_of(src@, toks@[p as int]);
                    assert(name == src@.subrange(ka as int, kb as int));
                    lemma_value_read_grow(src@, toks@, p + 2, name, value, c1, c2);
                    assert(c2.values()[value_id.0 as int] == value);
                    assert(attribute_from(src@, toks@, line, p as int, key, value_id, c2));
                }
                proof {
                    lemma_loads_push_attribute(src@, toks@, line, header@, p as int, key, value_id, c2);
                }
                let ghost before = header@;
                let ghost ks0 = ks;
                header.push(Instruction::LoadAttribute { key, value: value_id });
                proof {
                    ks = ks.push(p as int);
                    assert forall|m: int| 0 <= m < ks.len() implies attribute_from(
                        src@,
                        toks@,
                        line,
                        ks[m],
                        (#[trigger] header@[m])->LoadAttribute_key,
                        header@[m]->LoadAttribute_value,
                        c2,
                    ) by {
                        if m < ks0.len() {
                            assert(header@[m] == before[m]);
                            let kk = before[m]->LoadAttribute_key;
                            let vv = before[m]->LoadAttribute_value;
                            assert(attribute_from(src@, toks@, line, ks0[m], kk, vv, c0));
                            assert(c2.values()[vv.0 as int] == c0.values()[vv.0 as int]);
                            assert(c2.strings()[kk.0 as int] == c0.strings()[kk.0 as int]);
                            lemma_value_read_grow(
                                src@,
                                toks@,
                                ks0[m] + 2,
                                crate::attribute::text_of(src@, toks@[ks0[m]]),
                                c0.values()[vv.0 as int],
                                c0,
                                c2,
                            );
                        }
                    }
                    assert forall|k: int| 0 <= k < header@.len() implies (#[trigger] header@[k]) is LoadAttribute by {
                        if k < before.len() {
                            assert(header@[k] == before[k]);
                        }
                    }
                    assert forall|k: int| 0 <= k < header@.len() implies header_ok(#[trigger] header@[k], c2) by {
                        if k < before.len() {
                            assert(header@[k] == before[k]);
                        }
                    }
                }
                let ghost pp = p as int;
                assert(pair_end(toks@, pp) == q);
                p = q;
                if toks[p].kind == Kind::Comma {
                    p += 1;
                    proof {
                        assert(pair_keys(toks@, pp, end as int) == seq![pp] + pair_keys(toks@, p as int, end as int));
                        assert(ks0 + pair_keys(toks@, pp, end as int) =~= ks + pair_keys(toks@, p as int, end as int));
                    }
                } else if toks[p].kind == Kind::RBracket {
                    p += 1;
                    proof {
                        assert(pair_keys(toks@, pp, end as int) == seq![pp]);
                        assert(ks0 + pair_keys(toks@, pp, end as int) =~= ks);
                    }
                    break ;
                } else {
                    return Err(unexpected("]", toks, p));
                }
            }
        }
    }
    if p < end {
        let ghost c0 = *consts;
        let text_key = crate::text::chars_of("text");
        let (value, q) = parse_value(src, toks, p, text_key.as_slice(), consts)?;
        let ghost c1 = *consts;
        proof {
            if toks@[p as int].kind == Kind::LDoubleCurly {
                assert(c1.paths_view()[c0.paths_view().len() as int] == c1.paths_view().last());
            }
            assert(value_read(src@, toks@, p as int, "text"@, value, c1));
        }
        if q != end {
            return Err(unexpected("newline", toks, q));
        }
        let ghost tp = p as int;
        p = q;
        let value_id = consts.store_value(value);
        let ghost c2 = *consts;
        proof {
            lemma_grown_trans(c0, c1, c2);
            lemma_grown_trans(*old(consts), c0, c2);
            lemma_loads_grow(src@, toks@, line, header@, c0, c2);
            assert forall|k: int| 0 <= k < header@.len() implies header_ok(#[trigger] header@[k], c2) by {
                assert(header_ok(header@[k], c0));
            }
            lemma_value_read_grow(src@, toks@, tp, "text"@, value, c1, c2);
            assert(c2.values()[value_id.0 as int] == value);
            assert(toks@[tp] == toks@[tp]);
        }
        let ghost before = header@;
        header.push(Instruction::LoadText(value_id));
        proof {
            assert forall|k: int| 0 <= k < header@.len() implies header_ok(#[trigger] header@[k], c2) by {
                if k < before.len() {
                    assert(header@[k] == before[k]);
                }
            }
            assert forall|m: int| 0 <= m < header@.len() implies load_from(
                src@,
                toks@,
                line,
                #[trigger] header@[m],
                m == header@.len() - 1,
                c2,
            ) by {
                if m < before.len() {
                    assert(header@[m] == before[m]);
                    assert(before[m] is LoadAttribute);
                    assert(load_from(src@, toks@, line, before[m], m == before.len() - 1, c2));
                }
            }
        }
    }
    if p != end {
        return Err(unexpected("newline", toks, p));
    }
    Ok((header, p))
}

/// Whether the lines `lo..hi` form a block: statements at the indentation
/// of the first line, each with a valid block of the deeper lines under it.
pub open spec fn block_ok(src: Seq<char>, toks: Seq<Token>, lines: Seq<Line>, lo: int, hi: int) -> bool
    decreases hi - lo, hi - lo + 1,
{
    if lo < 0 || hi > lines.len() || lo >= hi {
        true
    } else {
        lines_ok_from(src, toks, lines, lo, lo, hi, lines[lo].indent, false)
    }
}

/// Whether the lines from `i` on, up to `hi`, continue a block of
/// indentation `level` that starts at `lo`: each statement line sits at
/// `level` and is a statement, the lines under it form a block, and an
/// `else` line follows an `if` or `else` statement (`after_if`).
pub open spec fn lines_ok_from(
    src: Seq<char>,
    toks: Seq<Token>,
    lines: Seq<Line>,
    lo: int,
    i: int,
    hi: int,
    level: usize,
    after_if: bool,
) -> bool
    decreases hi - lo, hi - i,
{
    if i < lo || i >= hi || hi > lines.len() {
        true
    } else {
        let l = lines[i];
        let j = block_end(lines, lo, i, hi, level);
        let is_else = toks[l.start as int].kind == Kind::Else;
        &&& l.indent == level
        &&& statement_ok(src, toks, l)
        &&& block_ok(src, toks, lines, i + 1, j)
        &&& (is_else ==> after_if)
        &&& lines_ok_from(
            src,
            toks,
            lines,
            lo,
            j,
            hi,
            level,
            if is_else {
                after_if
            } else {
                toks[l.start as int].kind == Kind::If
            },
        )
    }
}

/// Parses the lines `lo..hi` as a sequence of statements at the indentation
/// of the first, each followed by the more deeply indented lines below it.
#[verifier::rlimit(100)]
#[verifier::spinoff_prover]
fn parse_block(
    src: &[char],
    toks: &[Token],
    lines: &[Line],
    lo: usize,
    hi: usize,
    consts: &mut Constants,
) -> (r: Result<(Vec<Instruction>, Ghost<Seq<Block>>), Error>)
    requires
        tokens_ok(src@, toks@),
        lo <= hi <= lines@.len(),
        forall|k: int| 0 <= k < lines@.len() ==> line_ok(#[trigger] lines@[k], toks@.len()),
    ensures
        grown(*old(consts), *final(consts)),
        r is Ok ==> valid(r->Ok_0.1@, *final(consts)) && flatten(r->Ok_0.1@) == r->Ok_0.0@,
        r is Ok && lo < hi ==> statements_match(
            src@,
            toks@,
            lines@,
            lo as int,
            hi as int,
            lines@[lo as int].indent,
            r->Ok_0.1@,
            *final(consts),
        ),
        r is Ok && lo < hi ==> r->Ok_0.1@.len() == statement_count(
            toks@,
            lines@,
            lo as int,
            hi as int,
            lines@[lo as int].indent,
        ),
        r is Ok && lo == hi ==> r->Ok_0.1@.len() == 0,
        r is Ok ==> tree_match(src@, toks@, lines@, lo as int, hi as int, r->Ok_0.1@, *final(consts)),
        r is Ok == block_ok(src@, toks@, lines@, lo as int, hi as int),
    decreases hi - lo,
{
    let mut out: Vec<Instruction> = Vec::new();
    let ghost mut forest: Seq<Block> = seq![];
    if lo == hi {
        return Ok((out, Ghost(forest)));
    }
    let level = lines[lo].indent;
    let mut i = lo;
    let mut after_if = false;
    let ghost mut if_line: int = lo as int;
    let ghost mut seen: Seq<int> = seq![];
    proof {
        reveal(elses_inv);
    }
    while i < hi
        invariant
            tokens_ok(src@, toks@),
            lo <= i <= hi <= lines@.len(),
            forall|k: int| 0 <= k < lines@.len() ==> line_ok(#[trigger] lines@[k], toks@.len()),
            grown(*old(consts), *consts),
            valid(forest, *consts),
            flatten(forest) == out@,
            after_if ==> forest.len() > 0 && forest.last() is If,
            level == lines@[lo as int].indent,
            lo < hi,
            forest.len() == statement_count(toks@, lines@, lo as int, i as int, level),
            statements_match(src@, toks@, lines@, lo as int, i as int, level, forest, *consts),
            block_ok(src@, toks@, lines@, lo as int, hi as int) == lines_ok_from(
                src@,
                toks@,
                lines@,
                lo as int,
                i as int,
                hi as int,
                level,
                after_if,
            ),
            forall|k: int|
                lo <= k < i && #[trigger] opens_statement(toks@, lines@[k], level) ==> tree_match(
                    src@,
                    toks@,
                    lines@,
                    block_start(lo as int, k, hi as int),
                    block_end(lines@, lo as int, k, hi as int, level),
                    nested(forest[statement_count(toks@, lines@, lo as int, k, level) as int]),
                    *consts,
                ),
            elses_inv(src@, toks@, lines@, lo as int, i as int, hi as int, level, after_if, if_line, seen, forest, *consts),
        decreases hi - i,
    {
        let ghost forest_before = forest;
        let ghost was_after_if = after_if;
        let line = lines[i];
        if line.indent != level {
            return Err(Error { kind: ErrorKind::InvalidIndentation, pos: toks[line.start].start });
        }
        let mut j = i + 1;
        while j < hi && lines[j].indent > level
            invariant
                i < j <= hi <= lines@.len(),
                forall|k: int| i + 1 <= k < j ==> #[trigger] lines@[k].indent > level,
                child_end(lines@, i + 1, hi as int, level) == child_end(lines@, j as int, hi as int, level),
            decreases hi - j,
        {
            j += 1;
        }
        proof {
            lemma_child_end_bound(lines@, i + 1, hi as int, level);
            assert(block_end(lines@, lo as int, i as int, hi as int, level) == j);
        }
        proof {
            lemma_count_deeper(toks@, lines@, lo as int, i + 1, j as int, level);
        }
        let ghost c0 = *consts;
        let head = parse_statement(src, toks, line, consts)?;
        let ghost c1 = *consts;
        let (mut children, Ghost(cf)) = parse_block(src, toks, lines, i + 1, j, consts)?;
        let ghost c2 = *consts;
        let mut stmt: Vec<Instruction> = Vec::new();
        if let Head::Else { cond } = head {
            assert(!opens_statement(toks@, lines@[i as int], level));
            if !after_if {
                return Err(unexpected("if", toks, line.start));
            }
            stmt.push(Instruction::Else { cond, size: children.len() });
            stmt.append(&mut children);
            proof {
                lemma_valid_split(forest, c0);
                let last = forest.last();
                let front = forest.drop_last();
                let (ic, ib, ies) = match last {
                    Block::If { cond, body, elses } => (cond, body, elses),
                    _ => arbitrary(),
                };
                let e = (cond, cf);
                let nb = Block::If { cond: ic, body: ib, elses: ies.push(e) };
                lemma_flatten_elses_push(ies, e);
                assert(flatten_one(nb) =~= flatten_one(last) + stmt@);
                lemma_valid_grow(front, c0, c2);
                lemma_valid_one_grow(last, c0, c2);
                lemma_valid_elses_push(ies, e, c2);
                assert(valid_one(nb, c2));
                lemma_valid_append(front, nb, c2);
                lemma_flatten_append(front, nb);
                lemma_flatten_append(front, last);
                let old_forest = forest;
                forest = front.push(nb);
                assert(flatten(forest) =~= out@ + stmt@);
                assert forall|k: int|
                    lo <= k < j && #[trigger] opens_statement(toks@, lines@[k], level) implies {
                        let n = statement_count(toks@, lines@, lo as int, k, level);
                        n < forest.len() && head_matches(src@, toks@, lines@[k], forest[n as int], c2)
                    } by {
                    if k < i {
                        let n = statement_count(toks@, lines@, lo as int, k, level);
                        assert(head_matches(src@, toks@, lines@[k], old_forest[n as int], c0));
                        lemma_head_matches_grow(src@, toks@, lines@[k], old_forest[n as int], c0, c2);
                        if n < old_forest.len() - 1 {
                            assert(forest[n as int] == old_forest[n as int]);
                        } else {
                            assert(forest[n as int] == nb);
                            assert(old_forest[n as int] == last);
                        }
                    } else if k == i {
                    } else {
                        assert(lines@[k].indent > level);
                    }
                }
                assert forall|k: int|
                    lo <= k < j && #[trigger] opens_statement(toks@, lines@[k], level) implies tree_match(
                        src@,
                        toks@,
                        lines@,
                        block_start(lo as int, k, hi as int),
                        block_end(lines@, lo as int, k, hi as int, level),
                        nested(forest[statement_count(toks@, lines@, lo as int, k, level) as int]),
                        c2,
                    ) by {
                    if k < i {
                        let n = statement_count(toks@, lines@, lo as int, k, level);
                        assert(nested(forest[n as int]) == nested(old_forest[n as int]));
                        lemma_tree_match_grow(
                            src@,
                            toks@,
                            lines@,
                            block_start(lo as int, k, hi as int),
                            block_end(lines@, lo as int, k, hi as int, level),
                            nested(old_forest[n as int]),
                            c0,
                            c2,
                        );
                    } else {
                        assert(lines@[k].indent > level);
                    }
                }
            }
            proof {
                lemma_elses_else_step(
                    src@, toks@, lines@, lo as int, i as int, j as int, hi as int, level, if_line, seen,
                    forest_before, forest, cond, cf, c0, c1, c2,
                );
                seen = seen.push(i as int);
            }
            out.append(&mut stmt);
            i = j;
            continue;
        }
        let ghost b: Block;
        after_if = false;
        let ghost is_if = head is If;
        match head {
            Head::Node { ident, mut header } => {
                let ghost h = header@;
                stmt.push(Instruction::Node { ident, scope_size: children.len() });
                stmt.append(&mut header);
                stmt.append(&mut children);
                proof {
                    b = Block::Node { ident, header: h, children: cf };
                    assert(stmt@ =~= flatten_one(b));
                    assert forall|k: int| 0 <= k < h.len() implies header_ok(#[trigger] h[k], c2) by {
                        assert(header_ok(h[k], c1));
                    }
                    assert(valid_one(b, c2));
                }
            },
            Head::For { binding, data } => {
                stmt.push(Instruction::For { binding, data, size: children.len() });
                stmt.append(&mut children);
                proof {
                    b = Block::Loop { binding, data, body: cf };
                    assert(stmt@ =~= flatten_one(b));
                    assert(valid_one(b, c2));
                }
            },
            Head::If { cond } => {
                stmt.push(Instruction::If { cond, size: children.len() });
                stmt.append(&mut children);
                after_if = true;
                proof {
                    b = Block::If { cond, body: cf, elses: seq![] };
                    assert(flatten_elses(seq![]) =~= seq![]);
                    assert(stmt@ =~= flatten_one(b));
                    assert(valid_elses(seq![], c2));
                    assert(valid_one(b, c2));
                }
            },
            Head::Else { .. } => vstd::pervasive::unreached(),
        }
        assert(opens_statement(toks@, lines@[i as int], level));
        proof {
            lemma_valid_grow(forest, c0, c2);
            lemma_valid_append(forest, b, c2);
            lemma_flatten_append(forest, b);
            let old_forest = forest;
            forest = forest.push(b);
            assert(forest.last() == b);
            assert forall|k: int|
                lo <= k < j && #[trigger] opens_statement(toks@, lines@[k], level) implies {
                    let n = statement_count(toks@, lines@, lo as int, k, level);
                    n < forest.len() && head_matches(src@, toks@, lines@[k], forest[n as int], c2)
                } by {
                if k < i {
                    let n = statement_count(toks@, lines@, lo as int, k, level);
                    assert(head_matches(src@, toks@, lines@[k], old_forest[n as int], c0));
                    lemma_head_matches_grow(src@, toks@, lines@[k], old_forest[n as int], c0, c2);
                    assert(forest[n as int] == old_forest[n as int]);
                } else if k == i {
                    assert(statement_count(toks@, lines@, lo as int, k, level) == old_forest.len());
                    assert(forest[old_forest.len() as int] == b);
                    if toks@[lines@[k].start as int].kind is Ident {
                        lemma_loads_grow(src@, toks@, lines@[k], b->Node_header, c1, c2);
                        lemma_loads_at_grow(
                            src@,
                            toks@,
                            lines@[k],
                            b->Node_header,
                            load_keys(toks@, lines@[k].start + 1, lines@[k].end as int),
                            text_start(toks@, lines@[k].start + 1, lines@[k].end as int),
                            c1,
                            c2,
                        );
                    }
                } else {
                    assert(lines@[k].indent > level);
                }
            }
            assert forall|k: int|
                lo <= k < j && #[trigger] opens_statement(toks@, lines@[k], level) implies tree_match(
                    src@,
                    toks@,
                    lines@,
                    block_start(lo as int, k, hi as int),
                    block_end(lines@, lo as int, k, hi as int, level),
                    nested(forest[statement_count(toks@, lines@, lo as int, k, level) as int]),
                    c2,
                ) by {
                if k < i {
                    let n = statement_count(toks@, lines@, lo as int, k, level);
                    assert(forest[n as int] == old_forest[n as int]);
                    lemma_tree_match_grow(
                        src@,
                        toks@,
                        lines@,
                        block_start(lo as int, k, hi as int),
                        block_end(lines@, lo as int, k, hi as int, level),
                        nested(old_forest[n as int]),
                        c0,
                        c2,
                    );
                } else if k == i {
                    assert(statement_count(toks@, lines@, lo as int, k, level) == old_forest.len());
                    assert(nested(b) == cf);
                } else {
                    assert(lines@[k].indent > level);
                }
            }
        }
        proof {
            lemma_elses_other_step(
                src@, toks@, lines@, lo as int, i as int, j as int, hi as int, level, was_after_if,
                if_line, seen, forest_before, b, c0, c2,
            );
            if after_if {
                if_line = i as int;
                seen = seq![];
            }
        }
        out.append(&mut stmt);
        i = j;
    }
    proof {
        lemma_elses_close(src@, toks@, lines@, lo as int, hi as int, level, after_if, if_line, seen, forest, *consts);
    }
    Ok((out, Ghost(forest)))
}

/// The first line at or after `k` (before `hi`) indented no deeper than
/// `level`: the end of the block under the line before `k`.
pub open spec fn child_end(lines: Seq<Line>, k: int, hi: int, level: usize) -> int
    decreases hi - k,
{
    if k < hi && lines[k].indent > level {
        child_end(lines, k + 1, hi, level)
    } else {
        k
    }
}

/// The statements nested under a statement: a node's children, a loop's
/// body, an `if`'s first branch.
pub open spec fn nested(b: Block) -> Seq<Block> {
    match b {
        Block::Node { children, .. } => children,
        Block::Loop { body, .. } => body,
        Block::If { body, .. } => body,
    }
}

/// The position of a value handle.
pub open spec fn slot(v: ValueId) -> int {
    v.0 as int
}

/// Whether the condition of an `else` branch is what line `l` holds: none
/// for a plain `else`, the value after `else if` otherwise.
pub open spec fn else_head(src: Seq<char>, toks: Seq<Token>, l: Line, cond: Option<ValueId>, c: Constants) -> bool {
    if l.end == l.start + 1 {
        cond is None
    } else {
        &&& cond is Some
        &&& slot(cond->0) < c.values().len()
        &&& l.start + 2 < toks.len()
        &&& value_read(src, toks, l.start + 2, seq![], c.values()[slot(cond->0)], c)
    }
}

/// The `else` lines, at indentation `level`, from line `j` of the block
/// `lo..hi` on: each followed by the lines of its own block.
pub open spec fn else_chain(toks: Seq<Token>, lines: Seq<Line>, lo: int, j: int, hi: int, level: usize) -> Seq<int>
    decreases hi - j,
{
    if j < lo || j >= hi || hi > lines.len() || lines[j].indent != level || toks[lines[j].start as int].kind
        != Kind::Else {
        seq![]
    } else {
        seq![j] + else_chain(toks, lines, lo, block_end(lines, lo, j, hi, level), hi, level)
    }
}

/// Whether the `else` branches `es` are, in order, those of the `else`
/// lines `ch`: the same condition, and a body matching the lines under it.
pub open spec fn elses_match(
    src: Seq<char>,
    toks: Seq<Token>,
    lines: Seq<Line>,
    lo: int,
    hi: int,
    level: usize,
    ch: Seq<int>,
    es: Seq<(Option<ValueId>, Seq<Block>)>,
    c: Constants,
) -> bool
    decreases hi - lo, hi - lo,
{
    if lo < 0 || hi > lines.len() || lo >= hi {
        true
    } else {
        &&& es.len() == ch.len()
        &&& forall|m: int|
            0 <= m < ch.len() ==> else_head(src, toks, lines[#[trigger] ch[m]], es[m].0, c) && tree_match(
                src,
                toks,
                lines,
                block_start(lo, ch[m], hi),
                block_end(lines, lo, ch[m], hi, level),
                es[m].1,
                c,
            )
    }
}

/// While the lines `lo..i` of a block are read: every `if` before `i` has
/// the `else` branches of its `else` lines, except that the last `if`, when
/// `else` lines may still follow (`after_if`), has those of the lines `seen`.
#[verifier::opaque]
pub open spec fn elses_inv(
    src: Seq<char>,
    toks: Seq<Token>,
    lines: Seq<Line>,
    lo: int,
    i: int,
    hi: int,
    level: usize,
    after_if: bool,
    if_line: int,
    seen: Seq<int>,
    forest: Seq<Block>,
    c: Constants,
) -> bool {
    &&& forall|k: int|
        lo <= k < i && #[trigger] opens_statement(toks, lines[k], level) && toks[lines[k].start as int].kind
            == Kind::If && !(after_if && k == if_line) ==> else_done(src, toks, lines, lo, hi, level, k, forest, c)
    &&& after_if ==> {
        &&& lo <= if_line < i
        &&& opens_statement(toks, lines[if_line], level)
        &&& toks[lines[if_line].start as int].kind == Kind::If
        &&& statement_count(toks, lines, lo, if_line, level) == forest.len() - 1
        &&& else_chain(toks, lines, lo, block_end(lines, lo, if_line, hi, level), hi, level) == seen
            + else_chain(toks, lines, lo, i, hi, level)
        &&& elses_match(src, toks, lines, lo, hi, level, seen, forest.last()->If_elses, c)
    }
}

proof fn lemma_elses_else_step(
    src: Seq<char>,
    toks: Seq<Token>,
    lines: Seq<Line>,
    lo: int,
    i: int,
    j: int,
    hi: int,
    level: usize,
    if_line: int,
    seen: Seq<int>,
    fb: Seq<Block>,
    f: Seq<Block>,
    cond: Option<ValueId>,
    cf: Seq<Block>,
    c0: Constants,
    c1: Constants,
    c2: Constants,
)
    requires
        elses_inv(src, toks, lines, lo, i, hi, level, true, if_line, seen, fb, c0),
        0 <= lo <= i < j <= hi <= lines.len(),
        lines[i].indent == level,
        toks[lines[i].start as int].kind == Kind::Else,
        block_end(lines, lo, i, hi, level) == j,
        forall|k: int| i + 1 <= k < j ==> #[trigger] lines[k].indent > level,
        fb.len() > 0,
        fb.last() is If,
        fb.len() == statement_count(toks, lines, lo, i, level),
        f == fb.drop_last().push(
            Block::If {
                cond: fb.last()->If_cond,
                body: fb.last()->If_body,
                elses: fb.last()->If_elses.push((cond, cf)),
            },
        ),
        grown(c0, c1),
        grown(c1, c2),
        else_head(src, toks, lines[i], cond, c1),
        tree_match(src, toks, lines, i + 1, j, cf, c2),
    ensures
        elses_inv(src, toks, lines, lo, j, hi, level, true, if_line, seen.push(i), f, c2),
{
    reveal(elses_inv);
    let n = fb.len() - 1;
    let ies = fb.last()->If_elses;
    assert(f.last()->If_elses == ies.push((cond, cf)));
    assert forall|m: int| 0 <= m < n implies f[m] == fb[m] by {}
    assert(else_chain(toks, lines, lo, i, hi, level) == seq![i] + else_chain(toks, lines, lo, j, hi, level));
    assert(seen + (seq![i] + else_chain(toks, lines, lo, j, hi, level)) =~= seen.push(i) + else_chain(
        toks,
        lines,
        lo,
        j,
        hi,
        level,
    ));
    lemma_grown_trans(c0, c1, c2);
    lemma_elses_match_grow(src, toks, lines, lo, hi, level, seen, ies, c0, c2);
    lemma_else_head_grow(src, toks, lines[i], cond, c1, c2);
    lemma_elses_match_push(src, toks, lines, lo, hi, level, seen, ies, i, (cond, cf), c2);
    assert forall|k: int|
        lo <= k < j && #[trigger] opens_statement(toks, lines[k], level) && toks[lines[k].start as int].kind
            == Kind::If && !(k == if_line) implies else_done(src, toks, lines, lo, hi, level, k, f, c2) by {
        if k < i {
            lemma_count_mono(toks, lines, lo, k, i, level);
            if k < if_line {
                lemma_count_mono(toks, lines, lo, k, if_line, level);
            }
            if k > if_line {
                lemma_count_mono(toks, lines, lo, if_line, k, level);
            }
            let m = statement_count(toks, lines, lo, k, level) as int;
            assert(f[m] == fb[m]);
            lemma_elses_match_grow(
                src,
                toks,
                lines,
                lo,
                hi,
                level,
                else_chain(toks, lines, lo, block_end(lines, lo, k, hi, level), hi, level),
                fb[m]->If_elses,
                c0,
                c2,
            );
        } else if k > i {
            assert(lines[k].indent > level);
        }
    }
}

proof fn lemma_elses_other_step(
    src: Seq<char>,
    toks: Seq<Token>,
    lines: Seq<Line>,
    lo: int,
    i: int,
    j: int,
    hi: int,
    level: usize,
    after_if: bool,
    if_line: int,
    seen: Seq<int>,
    fb: Seq<Block>,
    b: Block,
    c0: Constants,
    c2: Constants,
)
    requires
        elses_inv(src, toks, lines, lo, i, hi, level, after_if, if_line, seen, fb, c0),
        0 <= lo <= i < j <= hi <= lines.len(),
        lines[i].indent == level,
        toks[lines[i].start as int].kind != Kind::Else,
        block_end(lines, lo, i, hi, level) == j,
        forall|k: int| i + 1 <= k < j ==> #[trigger] lines[k].indent > level,
        fb.len() == statement_count(toks, lines, lo, i, level),
        (b is If) == (toks[lines[i].start as int].kind == Kind::If),
        b is If ==> b->If_elses == Seq::<(Option<ValueId>, Seq<Block>)>::empty(),
        grown(c0, c2),
    ensures
        elses_inv(
            src,
            toks,
            lines,
            lo,
            j,
            hi,
            level,
            b is If,
            if b is If {
                i
            } else {
                if_line
            },
            if b is If {
                seq![]
            } else {
                seen
            },
            fb.push(b),
            c2,
        ),
{
    reveal(elses_inv);
    let f = fb.push(b);
    assert(else_chain(toks, lines, lo, i, hi, level) =~= Seq::<int>::empty());
    assert forall|k: int|
        lo <= k < j && #[trigger] opens_statement(toks, lines[k], level) && toks[lines[k].start as int].kind
            == Kind::If && !(b is If && k == i) implies else_done(src, toks, lines, lo, hi, level, k, f, c2) by {
        if k < i {
            lemma_count_mono(toks, lines, lo, k, i, level);
            let m = statement_count(toks, lines, lo, k, level) as int;
            assert(f[m] == fb[m]);
            if after_if && k == if_line {
                assert(seen + Seq::<int>::empty() =~= seen);
                assert(fb.last() == fb[m]);
                lemma_elses_match_grow(src, toks, lines, lo, hi, level, seen, fb[m]->If_elses, c0, c2);
            } else {
                lemma_elses_match_grow(
                    src,
                    toks,
                    lines,
                    lo,
                    hi,
                    level,
                    else_chain(toks, lines, lo, block_end(lines, lo, k, hi, level), hi, level),
                    fb[m]->If_elses,
                    c0,
                    c2,
                );
            }
        } else if k > i {
            assert(lines[k].indent > level);
        }
    }
    if b is If {
        assert(f.last() == b);
        assert(Seq::<int>::empty() + else_chain(toks, lines, lo, j, hi, level) =~= else_chain(
            toks,
            lines,
            lo,
            j,
            hi,
            level,
        ));
    }
}

proof fn lemma_elses_close(
    src: Seq<char>,
    toks: Seq<Token>,
    lines: Seq<Line>,
    lo: int,
    hi: int,
    level: usize,
    after_if: bool,
    if_line: int,
    seen: Seq<int>,
    f: Seq<Block>,
    c: Constants,
)
    requires
        elses_inv(src, toks, lines, lo, hi, hi, level, after_if, if_line, seen, f, c),
    ensures
        forall|k: int|
            lo <= k < hi && #[trigger] opens_statement(toks, lines[k], level) && toks[lines[k].start as int].kind
                == Kind::If ==> else_done(src, toks, lines, lo, hi, level, k, f, c),
{
    reveal(elses_inv);
    assert(else_chain(toks, lines, lo, hi, hi, level) =~= Seq::<int>::empty());
    if after_if {
        assert(seen + Seq::<int>::empty() =~= seen);
    }
}

/// Whether the `else` branches of the `if` on line `k` match its `else` lines.
pub open spec fn else_done(
    src: Seq<char>,
    toks: Seq<Token>,
    lines: Seq<Line>,
    lo: int,
    hi: int,
    level: usize,
    k: int,
    f: Seq<Block>,
    c: Constants,
) -> bool {
    elses_match(
        src,
        toks,
        lines,
        lo,
        hi,
        level,
        else_chain(toks, lines, lo, block_end(lines, lo, k, hi, level), hi, level),
        f[statement_count(toks, lines, lo, k, level) as int]->If_elses,
        c,
    )
}

proof fn lemma_count_mono(toks: Seq<Token>, lines: Seq<Line>, lo: int, a: int, b: int, level: usize)
    requires
        lo <= a <= b,
    ensures
        statement_count(toks, lines, lo, a, level) <= statement_count(toks, lines, lo, b, level),
        a < b && opens_statement(toks, lines[a], level) ==> statement_count(toks, lines, lo, a, level)
            < statement_count(toks, lines, lo, b, level),
    decreases b - a,
{
    if a < b {
        lemma_count_mono(toks, lines, lo, a, b - 1, level);
    }
}

proof fn lemma_else_head_grow(src: Seq<char>, toks: Seq<Token>, l: Line, cond: Option<ValueId>, c: Constants, d: Constants)
    requires
        else_head(src, toks, l, cond, c),
        grown(c, d),
    ensures
        else_head(src, toks, l, cond, d),
{
    if l.end != l.start + 1 {
        let v = slot(cond->0);
        assert(d.values()[v] == c.values()[v]);
        lemma_value_read_grow(src, toks, l.start + 2, seq![], c.values()[v], c, d);
    }
}

proof fn lemma_elses_match_push(
    src: Seq<char>,
    toks: Seq<Token>,
    lines: Seq<Line>,
    lo: int,
    hi: int,
    level: usize,
    ch: Seq<int>,
    es: Seq<(Option<ValueId>, Seq<Block>)>,
    k: int,
    e: (Option<ValueId>, Seq<Block>),
    c: Constants,
)
    requires
        0 <= lo <= k < hi <= lines.len(),
        elses_match(src, toks, lines, lo, hi, level, ch, es, c),
        else_head(src, toks, lines[k], e.0, c),
        tree_match(src, toks, lines, block_start(lo, k, hi), block_end(lines, lo, k, hi, level), e.1, c),
    ensures
        elses_match(src, toks, lines, lo, hi, level, ch.push(k), es.push(e), c),
{
    let ch2 = ch.push(k);
    let es2 = es.push(e);
    assert forall|m: int| 0 <= m < ch2.len() implies else_head(src, toks, lines[#[trigger] ch2[m]], es2[m].0, c)
        && tree_match(
        src,
        toks,
        lines,
        block_start(lo, ch2[m], hi),
        block_end(lines, lo, ch2[m], hi, level),
        es2[m].1,
        c,
    ) by {
        if m < ch.len() {
            assert(ch2[m] == ch[m]);
            assert(es2[m] == es[m]);
        } else {
            assert(ch2[m] == k);
            assert(es2[m] == e);
        }
    }
}

/// `statements_match` for the lines `lo..hi`, and, for each statement they
/// open, the same for the lines indented under it and its nested statements.
pub open spec fn tree_match(
    src: Seq<char>,
    toks: Seq<Token>,
    lines: Seq<Line>,
    lo: int,
    hi: int,
    f: Seq<Block>,
    c: Constants,
) -> bool
    decreases hi - lo, hi - lo + 1,
{
    if lo < 0 || hi > lines.len() || lo >= hi {
        true
    } else {
        let level = lines[lo].indent;
        &&& forall|k: int|
            lo <= k < hi && #[trigger] opens_statement(toks, lines[k], level) && toks[lines[k].start as int].kind
                == Kind::If ==> elses_match(
                src,
                toks,
                lines,
                lo,
                hi,
                level,
                else_chain(toks, lines, lo, block_end(lines, lo, k, hi, level), hi, level),
                f[statement_count(toks, lines, lo, k, level) as int]->If_elses,
                c,
            )
        &&& f.len() == statement_count(toks, lines, lo, hi, level)
        &&& statements_match(src, toks, lines, lo, hi, level, f, c)
        &&& forall|k: int|
            lo <= k < hi && #[trigger] opens_statement(toks, lines[k], level) ==> tree_match(
                src,
                toks,
                lines,
                block_start(lo, k, hi),
                block_end(lines, lo, k, hi, level),
                nested(f[statement_count(toks, lines, lo, k, level) as int]),
                c,
            )
    }
}

/// The first line of the block under line `k` of `lo..hi`.
pub open spec fn block_start(lo: int, k: int, hi: int) -> int {
    if lo <= k < hi {
        k + 1
    } else {
        hi
    }
}

/// The end of the block under line `k` of `lo..hi`, at indentation `level`.
pub open spec fn block_end(lines: Seq<Line>, lo: int, k: int, hi: int, level: usize) -> int {
    let s = block_start(lo, k, hi);
    let e = child_end(lines, s, hi, level);
    if s <= e <= hi {
        e
    } else {
        s
    }
}

proof fn lemma_child_end_bound(lines: Seq<Line>, k: int, hi: int, level: usize)
    requires
        k <= hi,
    ensures
        k <= child_end(lines, k, hi, level) <= hi,
    decreases hi - k,
{
    if k < hi && lines[k].indent > level {
        lemma_child_end_bound(lines, k + 1, hi, level);
    }
}

/// What the statements say of names stays true as the pool grows.
proof fn lemma_tree_match_grow(
    src: Seq<char>,
    toks: Seq<Token>,
    lines: Seq<Line>,
    lo: int,
    hi: int,
    f: Seq<Block>,
    c: Constants,
    d: Constants,
)
    requires
        tree_match(src, toks, lines, lo, hi, f, c),
        grown(c, d),
    ensures
        tree_match(src, toks, lines, lo, hi, f, d),
    decreases hi - lo, hi - lo + 1,
{
    if !(lo < 0 || hi > lines.len() || lo >= hi) {
        let level = lines[lo].indent;
        assert forall|k: int|
            lo <= k < hi && #[trigger] opens_statement(toks, lines[k], level) && toks[lines[k].start as int].kind
                == Kind::If implies elses_match(
                src,
                toks,
                lines,
                lo,
                hi,
                level,
                else_chain(toks, lines, lo, block_end(lines, lo, k, hi, level), hi, level),
                f[statement_count(toks, lines, lo, k, level) as int]->If_elses,
                d,
            ) by {
            lemma_elses_match_grow(
                src,
                toks,
                lines,
                lo,
                hi,
                level,
                else_chain(toks, lines, lo, block_end(lines, lo, k, hi, level), hi, level),
                f[statement_count(toks, lines, lo, k, level) as int]->If_elses,
                c,
                d,
            );
        }
        assert forall|k: int|
            lo <= k < hi && #[trigger] opens_statement(toks, lines[k], level) implies {
                let n = statement_count(toks, lines, lo, k, level);
                n < f.len() && head_matches(src, toks, lines[k], f[n as int], d)
            } by {
            let n = statement_count(toks, lines, lo, k, level);
            lemma_head_matches_grow(src, toks, lines[k], f[n as int], c, d);
        }
        assert forall|k: int|
            lo <= k < hi && #[trigger] opens_statement(toks, lines[k], level) implies tree_match(
                src,
                toks,
                lines,
                block_start(lo, k, hi),
                block_end(lines, lo, k, hi, level),
                nested(f[statement_count(toks, lines, lo, k, level) as int]),
                d,
            ) by {
            lemma_tree_match_grow(
                src,
                toks,
                lines,
                block_start(lo, k, hi),
                block_end(lines, lo, k, hi, level),
                nested(f[statement_count(toks, lines, lo, k, level) as int]),
                c,
                d,
            );
        }
    }
}

proof fn lemma_elses_match_grow(
    src: Seq<char>,
    toks: Seq<Token>,
    lines: Seq<Line>,
    lo: int,
    hi: int,
    level: usize,
    ch: Seq<int>,
    es: Seq<(Option<ValueId>, Seq<Block>)>,
    c: Constants,
    d: Constants,
)
    requires
        elses_match(src, toks, lines, lo, hi, level, ch, es, c),
        grown(c, d),
    ensures
        elses_match(src, toks, lines, lo, hi, level, ch, es, d),
    decreases hi - lo, hi - lo,
{
    if !(lo < 0 || hi > lines.len() || lo >= hi) {
        assert forall|m: int| 0 <= m < ch.len() implies else_head(src, toks, lines[#[trigger] ch[m]], es[m].0, d)
            && tree_match(
            src,
            toks,
            lines,
            block_start(lo, ch[m], hi),
            block_end(lines, lo, ch[m], hi, level),
            es[m].1,
            d,
        ) by {
            let l = lines[ch[m]];
            if l.end != l.start + 1 {
                let v = slot(es[m].0->0);
                assert(d.values()[v] == c.values()[v]);
                lemma_value_read_grow(src, toks, l.start + 2, seq![], c.values()[v], c, d);
            }
            lemma_tree_match_grow(
                src,
                toks,
                lines,
                block_start(lo, ch[m], hi),
                block_end(lines, lo, ch[m], hi, level),
                es[m].1,
                c,
                d,
            );
        }
    }
}

/// Each statement is what its line opens, in line order, at every depth.
pub open spec fn matches_lines(src: Seq<char>, toks: Seq<Token>, f: Seq<Block>, c: Constants) -> bool {
    let ls = lines_spec(toks);
    tree_match(src, toks, ls, 0, ls.len() as int, f, c)
}

/// Whether the lines of the tokens form a template: one block at the
/// indentation of the first line, with a valid block under each statement.
pub open spec fn template_ok(src: Seq<char>, toks: Seq<Token>) -> bool {
    block_ok(src, toks, lines_spec(toks), 0, lines_spec(toks).len() as int)
}

/// Compiles template text, along with the statements that the stream
/// flattens and the tokens that were read.
fn compile_with_statements(src: &str) -> (r: Result<
    (Vec<Instruction>, Constants, Ghost<Seq<Block>>, Ghost<Seq<Token>>),
    Error,
>)
    ensures
        r matches Ok((instructions, consts, f, toks)) ==> {
            &&& tokenization(src@, toks@)
            &&& valid(f@, consts)
            &&& flatten(f@) == instructions@
            &&& f@.len() == top_level_count(toks@)
            &&& matches_lines(src@, toks@, f@, consts)
            &&& template_ok(src@, toks@)
        },
        r matches Err(e) ==> lex_error_at(src@, e) || exists|toks: Seq<Token>|
            #[trigger] tokenization(src@, toks) && !template_ok(src@, toks),
{
    let (chars, toks) = tokenize(src)?;
    let lines = lines_of(toks.as_slice());
    let mut consts = Constants::new();
    let parsed = parse_block(
        chars.as_slice(),
        toks.as_slice(),
        lines.as_slice(),
        0,
        lines.len(),
        &mut consts,
    );
    match parsed {
        Ok((instructions, f)) => Ok((instructions, consts, f, Ghost(toks@))),
        Err(e) => {
            assert(tokenization(src@, toks@) && !template_ok(src@, toks@));
            Err(e)
        },
    }
}

/// Compiles template text into its instruction stream and constants pool.
///
/// The stream flattens one statement per line that opens a statement at the
/// indentation of the first line; an `else` line joins the `if` before it.
pub fn compile(src: &str) -> (r: Result<(Vec<Instruction>, Constants), Error>)
    ensures
        r matches Ok((instructions, consts)) ==> exists|toks: Seq<Token>, f: Seq<Block>|
            #![trigger tokenization(src@, toks), flatten(f)]
            tokenization(src@, toks) && valid(f, consts) && flatten(f) == instructions@ && f.len()
                == top_level_count(toks) && matches_lines(src@, toks, f, consts),
        r is Ok ==> well_formed(r->Ok_0.0@, r->Ok_0.1),
        r matches Ok(_) ==> exists|toks: Seq<Token>| #[trigger] tokenization(src@, toks) && template_ok(src@, toks),
        r matches Err(e) ==> lex_error_at(src@, e) || exists|toks: Seq<Token>|
            #[trigger] tokenization(src@, toks) && !template_ok(src@, toks),
{
    let (instructions, consts, Ghost(f), Ghost(toks)) = compile_with_statements(src)?;
    assert(tokenization(src@, toks) && valid(f, consts) && flatten(f) == instructions@
        && matches_lines(src@, toks, f, consts) && template_ok(src@, toks));
    Ok((instructions, consts))
}

/// Compiles template text and builds its expression tree: one expression per
/// top-level statement, in source order.
pub fn templates(src: &str) -> (r: Result<Vec<Expression>, Error>)
    ensures
        r matches Ok(exprs) ==> exists|toks: Seq<Token>, f: Seq<Block>, c: Constants|
            #![trigger tokenization(src@, toks), build(f, c)]
            tokenization(src@, toks) && valid(f, c) && views(exprs@) == build(f, c) && exprs@.len()
                == top_level_count(toks) && matches_lines(src@, toks, f, c),
        r matches Ok(_) ==> exists|toks: Seq<Token>| #[trigger] tokenization(src@, toks) && template_ok(src@, toks),
        r matches Err(e) ==> lex_error_at(src@, e) || exists|toks: Seq<Token>|
            #[trigger] tokenization(src@, toks) && !template_ok(src@, toks),
{
    let (instructions, consts, Ghost(f), Ghost(toks)) = compile_with_statements(src)?;
    assert(template_ok(src@, toks) && tokenization(src@, toks));
    assert(instructions@.subrange(0, instructions@.len() as int) =~= instructions@);
    let r = build_range(&instructions, 0, instructions.len(), &consts, Ghost(f));
    proof {
        lemma_build_len(f, consts);
        lemma_views_len(r@);
        assert(tokenization(src@, toks) && valid(f, consts) && views(r@) == build(f, consts)
            && matches_lines(src@, toks, f, consts));
    }
    Ok(r)
}

} // verus!
