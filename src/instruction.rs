//! The flat instruction stream and the nested structure it encodes.
use vstd::prelude::*;
use crate::constants::Constants;
use crate::values::{ExpressionValue, StringId, ValueId};

verus! {

/// One record of the flat stream. A block instruction is followed by the
/// instructions of its flattened subtree, and carries their number.
#[derive(Clone, Copy, Debug, PartialEq, Eq, Structural)]
pub enum Instruction {
    View(ValueId),
    /// A node; `scope_size` counts the instructions of its children, which
    /// follow its attribute and text loads.
    Node { ident: StringId, scope_size: usize },
    /// A loop over `data`; `size` counts the instructions of its body.
    For { binding: StringId, data: ValueId, size: usize },
    If { cond: ValueId, size: usize },
    Else { cond: Option<ValueId>, size: usize },
    LoadAttribute { key: StringId, value: ValueId },
    LoadText(ValueId),
}

/// A statement as the parser read it: the structure the stream flattens.
pub ghost enum Block {
    Node { ident: StringId, header: Seq<Instruction>, children: Seq<Block> },
    Loop { binding: StringId, data: ValueId, body: Seq<Block> },
    /// An `if` and the `else` branches that follow it, each with an optional condition.
    If { cond: ValueId, body: Seq<Block>, elses: Seq<(Option<ValueId>, Seq<Block>)> },
}

pub open spec fn is_header(i: Instruction) -> bool {
    i is LoadAttribute || i is LoadText
}

/// The stream of a sequence of statements.
pub open spec fn flatten(f: Seq<Block>) -> Seq<Instruction>
    decreases f,
{
    if f.len() == 0 {
        seq![]
    } else {
        flatten_one(f[0]) + flatten(f.drop_first())
    }
}

/// The stream of one statement: its block instruction, its loads, its children.
pub open spec fn flatten_one(b: Block) -> Seq<Instruction>
    decreases b,
{
    match b {
        Block::Node { ident, header, children } => seq![
            Instruction::Node { ident, scope_size: flatten(children).len() as usize },
        ] + header + flatten(children),
        Block::Loop { binding, data, body } => seq![
            Instruction::For { binding, data, size: flatten(body).len() as usize },
        ] + flatten(body),
        Block::If { cond, body, elses } => seq![
            Instruction::If { cond, size: flatten(body).len() as usize },
        ] + flatten(body) + flatten_elses(elses),
    }
}

/// The stream of the `else` branches of an `if`.
pub open spec fn flatten_elses(es: Seq<(Option<ValueId>, Seq<Block>)>) -> Seq<Instruction>
    decreases es,
{
    if es.len() == 0 {
        seq![]
    } else {
        seq![Instruction::Else { cond: es[0].0, size: flatten(es[0].1).len() as usize }] + flatten(
            es[0].1,
        ) + flatten_elses(es.drop_first())
    }
}

/// A load instruction whose handles are in the pool.
pub open spec fn header_ok(i: Instruction, c: Constants) -> bool {
    match i {
        Instruction::LoadAttribute { key, value } => key.0 < c.strings().len() && value.0
            < c.values().len(),
        Instruction::LoadText(v) => v.0 < c.values().len(),
        _ => false,
    }
}

/// Handles in the pool, loads only in node headers, sizes that fit `usize`.
pub open spec fn valid(f: Seq<Block>, c: Constants) -> bool
    decreases f,
{
    if f.len() == 0 {
        true
    } else {
        valid_one(f[0], c) && valid(f.drop_first(), c)
    }
}

pub open spec fn valid_one(b: Block, c: Constants) -> bool
    decreases b,
{
    match b {
        Block::Node { ident, header, children } => {
            &&& ident.0 < c.strings().len()
            &&& forall|k: int| 0 <= k < header.len() ==> header_ok(#[trigger] header[k], c)
            &&& flatten(children).len() <= usize::MAX
            &&& valid(children, c)
        },
        Block::Loop { binding, data, body } => {
            &&& binding.0 < c.strings().len()
            &&& data.0 < c.values().len()
            &&& flatten(body).len() <= usize::MAX
            &&& valid(body, c)
        },
        Block::If { cond, body, elses } => {
            &&& cond.0 < c.values().len()
            &&& flatten(body).len() <= usize::MAX
            &&& valid(body, c)
            &&& valid_elses(elses, c)
        },
    }
}

pub open spec fn valid_elses(es: Seq<(Option<ValueId>, Seq<Block>)>, c: Constants) -> bool
    decreases es,
{
    if es.len() == 0 {
        true
    } else {
        &&& (es[0].0 matches Some(v) ==> v.0 < c.values().len())
        &&& flatten(es[0].1).len() <= usize::MAX
        &&& valid(es[0].1, c)
        &&& valid_elses(es.drop_first(), c)
    }
}

/// Whether `s` is the stream of some valid statements over `c`.
pub open spec fn well_formed(s: Seq<Instruction>, c: Constants) -> bool {
    exists|f: Seq<Block>| valid(f, c) && flatten(f) == s
}

pub proof fn lemma_flatten_cons(f: Seq<Block>, k: int)
    requires
        0 <= k < f.len(),
    ensures
        flatten(f.skip(k)) == flatten_one(f[k]) + flatten(f.skip(k + 1)),
{
    assert(f.skip(k).drop_first() =~= f.skip(k + 1));
    assert(f.skip(k)[0] == f[k]);
}

pub proof fn lemma_valid_skip(f: Seq<Block>, k: int, c: Constants)
    requires
        0 <= k <= f.len(),
        valid(f, c),
    ensures
        valid(f.skip(k), c),
        k < f.len() ==> valid_one(f[k], c),
    decreases k,
{
    if k > 0 {
        assert(f.drop_first().skip(k - 1) =~= f.skip(k));
        lemma_valid_skip(f.drop_first(), k - 1, c);
    } else {
        assert(f.skip(0) =~= f);
    }
}

pub proof fn lemma_flatten_append(f: Seq<Block>, b: Block)
    ensures
        flatten(f.push(b)) == flatten(f) + flatten_one(b),
    decreases f.len(),
{
    if f.len() == 0 {
        assert(f.push(b).drop_first() =~= Seq::<Block>::empty());
        assert(f.push(b)[0] == b);
        assert(flatten(Seq::<Block>::empty()) =~= Seq::<Instruction>::empty());
        assert(flatten(f.push(b)) =~= flatten_one(b) + seq![]);
        assert(flatten(f) =~= seq![]);
        assert(flatten(f) + flatten_one(b) =~= flatten_one(b));
    } else {
        assert(f.push(b).drop_first() =~= f.drop_first().push(b));
        lemma_flatten_append(f.drop_first(), b);
        assert(flatten(f.push(b)) =~= flatten(f) + flatten_one(b));
    }
}

pub proof fn lemma_valid_append(f: Seq<Block>, b: Block, c: Constants)
    requires
        valid(f, c),
        valid_one(b, c),
    ensures
        valid(f.push(b), c),
    decreases f.len(),
{
    if f.len() == 0 {
        assert(f.push(b).drop_first() =~= Seq::<Block>::empty());
        assert(f.push(b)[0] == b);
        assert(valid(Seq::<Block>::empty(), c));
    } else {
        assert(f.push(b).drop_first() =~= f.drop_first().push(b));
        assert(f.push(b)[0] == f[0]);
        lemma_valid_append(f.drop_first(), b, c);
    }
}

/// Validity survives the pool growing.
pub proof fn lemma_valid_grow(f: Seq<Block>, c: Constants, d: Constants)
    requires
        valid(f, c),
        c.strings().len() <= d.strings().len(),
        c.values().len() <= d.values().len(),
    ensures
        valid(f, d),
    decreases f,
{
    if f.len() > 0 {
        lemma_valid_one_grow(f[0], c, d);
        lemma_valid_grow(f.drop_first(), c, d);
    }
}

pub proof fn lemma_valid_one_grow(b: Block, c: Constants, d: Constants)
    requires
        valid_one(b, c),
        c.strings().len() <= d.strings().len(),
        c.values().len() <= d.values().len(),
    ensures
        valid_one(b, d),
    decreases b,
{
    match b {
        Block::Node { ident, header, children } => {
            assert forall|k: int| 0 <= k < header.len() implies header_ok(#[trigger] header[k], d) by {
                assert(header_ok(header[k], c));
            }
            lemma_valid_grow(children, c, d);
        },
        Block::Loop { binding, data, body } => {
            lemma_valid_grow(body, c, d);
        },
        Block::If { cond, body, elses } => {
            lemma_valid_grow(body, c, d);
            lemma_valid_elses_grow(elses, c, d);
        },
    }
}

pub proof fn lemma_valid_elses_grow(es: Seq<(Option<ValueId>, Seq<Block>)>, c: Constants, d: Constants)
    requires
        valid_elses(es, c),
        c.strings().len() <= d.strings().len(),
        c.values().len() <= d.values().len(),
    ensures
        valid_elses(es, d),
    decreases es,
{
    if es.len() > 0 {
        lemma_valid_grow(es[0].1, c, d);
        lemma_valid_elses_grow(es.drop_first(), c, d);
    }
}

/// An `else` branch added to an `if` adds its stream at the end.
pub proof fn lemma_flatten_elses_push(es: Seq<(Option<ValueId>, Seq<Block>)>, e: (
    Option<ValueId>,
    Seq<Block>,
))
    ensures
        flatten_elses(es.push(e)) == flatten_elses(es) + seq![
            Instruction::Else { cond: e.0, size: flatten(e.1).len() as usize },
        ] + flatten(e.1),
    decreases es.len(),
{
    if es.len() == 0 {
        assert(es.push(e).drop_first() =~= es);
        assert(es.push(e)[0] == e);
        assert(flatten_elses(es) =~= seq![]);
        assert(flatten_elses(es.push(e)) =~= flatten_elses(es) + seq![
            Instruction::Else { cond: e.0, size: flatten(e.1).len() as usize },
        ] + flatten(e.1));
    } else {
        assert(es.push(e).drop_first() =~= es.drop_first().push(e));
        assert(es.push(e)[0] == es[0]);
        lemma_flatten_elses_push(es.drop_first(), e);
        assert(flatten_elses(es.push(e)) =~= flatten_elses(es) + seq![
            Instruction::Else { cond: e.0, size: flatten(e.1).len() as usize },
        ] + flatten(e.1));
    }
}

pub proof fn lemma_valid_elses_push(
    es: Seq<(Option<ValueId>, Seq<Block>)>,
    e: (Option<ValueId>, Seq<Block>),
    c: Constants,
)
    requires
        valid_elses(es, c),
        e.0 matches Some(v) ==> v.0 < c.values().len(),
        flatten(e.1).len() <= usize::MAX,
        valid(e.1, c),
    ensures
        valid_elses(es.push(e), c),
    decreases es.len(),
{
    if es.len() == 0 {
        assert(es.push(e).drop_first() =~= es);
        assert(es.push(e)[0] == e);
    } else {
        assert(es.push(e).drop_first() =~= es.drop_first().push(e));
        assert(es.push(e)[0] == es[0]);
        lemma_valid_elses_push(es.drop_first(), e, c);
    }
}

/// Validity of a sequence of statements splits into its front and its last.
pub proof fn lemma_valid_split(f: Seq<Block>, c: Constants)
    requires
        valid(f, c),
        f.len() > 0,
    ensures
        valid(f.drop_last(), c),
        valid_one(f.last(), c),
        f.drop_last().push(f.last()) == f,
    decreases f.len(),
{
    assert(f.drop_last().push(f.last()) =~= f);
    if f.len() == 1 {
        assert(f.last() == f[0]);
        assert(valid(f.drop_last(), c));
    } else {
        lemma_valid_split(f.drop_first(), c);
        assert(f.drop_first().drop_last() =~= f.drop_last().drop_first());
        assert(f.drop_first().last() == f.last());
        assert(f.drop_last()[0] == f[0]);
    }
}

/// The stream of statements, when not empty, starts with a block instruction.
pub proof fn lemma_flatten_head(f: Seq<Block>)
    ensures
        flatten(f).len() > 0 ==> !is_header(flatten(f)[0]),
        flatten(f).len() > 0 ==> !(flatten(f)[0] is Else),
        flatten(f).len() > 0 ==> f.len() > 0,
        f.len() > 0 ==> flatten(f).len() > 0,
{
    if f.len() > 0 {
        let b = f[0];
        assert(flatten(f) == flatten_one(b) + flatten(f.drop_first()));
        match b {
            Block::Node { ident, header, children } => {
                assert(flatten(f)[0] == flatten_one(b)[0]);
            },
            Block::Loop { binding, data, body } => {
                assert(flatten(f)[0] == flatten_one(b)[0]);
            },
            Block::If { cond, body, elses } => {
                assert(flatten(f)[0] == flatten_one(b)[0]);
            },
        }
    }
}

/// In the stream of a statement, its block instruction carries the number of
/// instructions of its children (or body); those follow its loads and end
/// the statement's stream.
pub proof fn lemma_block_size(b: Block)
    ensures
        match b {
            Block::Node { ident, header, children } => {
                &&& flatten_one(b)[0] == Instruction::Node {
                    ident,
                    scope_size: flatten(children).len() as usize,
                }
                &&& flatten_one(b).len() == 1 + header.len() as int + flatten(children).len()
                &&& flatten_one(b).subrange(1, 1 + header.len() as int) == header
                &&& flatten_one(b).subrange(1 + header.len() as int, flatten_one(b).len() as int)
                    == flatten(children)
            },
            Block::Loop { binding, data, body } => {
                &&& flatten_one(b)[0] == Instruction::For {
                    binding,
                    data,
                    size: flatten(body).len() as usize,
                }
                &&& flatten_one(b).len() == 1 + flatten(body).len()
                &&& flatten_one(b).subrange(1, flatten_one(b).len() as int) == flatten(body)
            },
            Block::If { cond, body, elses } => {
                &&& flatten_one(b)[0] == Instruction::If {
                    cond,
                    size: flatten(body).len() as usize,
                }
                &&& flatten_one(b).subrange(1, 1 + flatten(body).len() as int) == flatten(body)
            },
        },
{
    match b {
        Block::Node { ident, header, children } => {
            let s = flatten_one(b);
            assert(s.subrange(1, 1 + header.len() as int) =~= header);
            assert(s.subrange(1 + header.len() as int, s.len() as int) =~= flatten(children));
        },
        Block::Loop { binding, data, body } => {
            let s = flatten_one(b);
            assert(s.subrange(1, s.len() as int) =~= flatten(body));
        },
        Block::If { cond, body, elses } => {
            let s = flatten_one(b);
            assert(s.subrange(1, 1 + flatten(body).len() as int) =~= flatten(body));
        },
    }
}

pub proof fn lemma_flatten_elses_skip(es: Seq<(Option<ValueId>, Seq<Block>)>, m: int)
    requires
        0 <= m < es.len(),
    ensures
        flatten_elses(es.skip(m)) == seq![
            Instruction::Else { cond: es[m].0, size: flatten(es[m].1).len() as usize },
        ] + flatten(es[m].1) + flatten_elses(es.skip(m + 1)),
{
    assert(es.skip(m).drop_first() =~= es.skip(m + 1));
    assert(es.skip(m)[0] == es[m]);
}

pub proof fn lemma_valid_elses_at(es: Seq<(Option<ValueId>, Seq<Block>)>, m: int, c: Constants)
    requires
        0 <= m < es.len(),
        valid_elses(es, c),
    ensures
        es[m].0 matches Some(v) ==> v.0 < c.values().len(),
        flatten(es[m].1).len() <= usize::MAX,
        valid(es[m].1, c),
    decreases m,
{
    if m > 0 {
        lemma_valid_elses_at(es.drop_first(), m - 1, c);
        assert(es.drop_first()[m - 1] == es[m]);
    }
}

proof fn lemma_split_eq(a1: Seq<Instruction>, r1: Seq<Instruction>, a2: Seq<Instruction>, r2: Seq<Instruction>)
    requires
        a1 + r1 == a2 + r2,
        a1.len() == a2.len(),
    ensures
        a1 == a2,
        r1 == r2,
{
    assert((a1 + r1).len() == a1.len() + r1.len());
    assert((a2 + r2).len() == a2.len() + r2.len());
    assert(r1.len() == r2.len());
    assert forall|k: int| 0 <= k < a1.len() implies a1[k] == a2[k] by {
        assert((a1 + r1)[k] == a1[k]);
        assert((a2 + r2)[k] == a2[k]);
    }
    assert forall|k: int| 0 <= k < r1.len() implies r1[k] == r2[k] by {
        assert((a1 + r1)[a1.len() + k] == r1[k]);
        assert((a2 + r2)[a2.len() + k] == r2[k]);
    }
    assert(a1 =~= a2);
    assert(r1 =~= r2);
}

/// The loads that open a stream `h + t`, where `t` starts with no load, are `h`.
proof fn lemma_header_len(
    h1: Seq<Instruction>,
    t1: Seq<Instruction>,
    h2: Seq<Instruction>,
    t2: Seq<Instruction>,
    c: Constants,
)
    requires
        h1 + t1 == h2 + t2,
        forall|k: int| 0 <= k < h1.len() ==> header_ok(#[trigger] h1[k], c),
        forall|k: int| 0 <= k < h2.len() ==> header_ok(#[trigger] h2[k], c),
        t1.len() > 0 ==> !is_header(t1[0]),
        t2.len() > 0 ==> !is_header(t2[0]),
    ensures
        h1.len() == h2.len(),
{
    if h1.len() < h2.len() {
        let k = h1.len() as int;
        assert(header_ok(h2[k], c));
        assert((h2 + t2)[k] == h2[k]);
        assert((h1 + t1).len() == (h2 + t2).len());
        assert((h1 + t1)[k] == t1[0]);
    } else if h2.len() < h1.len() {
        let k = h2.len() as int;
        assert(header_ok(h1[k], c));
        assert((h1 + t1)[k] == h1[k]);
        assert((h1 + t1).len() == (h2 + t2).len());
        assert((h2 + t2)[k] == t2[0]);
    }
}

/// A stream decodes into one valid sequence of statements only.
#[verifier::rlimit(100)]
pub proof fn lemma_flatten_unique(f1: Seq<Block>, f2: Seq<Block>, c: Constants)
    requires
        valid(f1, c),
        valid(f2, c),
        flatten(f1) == flatten(f2),
    ensures
        f1 == f2,
    decreases f1,
{
    lemma_flatten_head(f1);
    lemma_flatten_head(f2);
    if f1.len() > 0 {
        lemma_valid_skip(f1, 0, c);
    }
    if f2.len() > 0 {
        lemma_valid_skip(f2, 0, c);
    }
    if f1.len() == 0 {
        assert(f2.len() == 0);
        assert(f1 =~= f2);
    } else {
        let b1 = f1[0];
        let b2 = f2[0];
        let r1 = f1.drop_first();
        let r2 = f2.drop_first();
        lemma_flatten_head(r1);
        lemma_flatten_head(r2);
        let s = flatten(f1);
        assert(s == flatten_one(b1) + flatten(r1));
        assert(s == flatten_one(b2) + flatten(r2));
        assert(s[0] == flatten_one(b1)[0]);
        assert(s[0] == flatten_one(b2)[0]);
        match b1 {
            Block::Node { ident, header, children } => {
                let (h2, ch2) = match b2 {
                    Block::Node { header, children, .. } => (header, children),
                    _ => (arbitrary(), arbitrary()),
                };
                assert(b2 is Node);
                lemma_flatten_head(children);
                lemma_flatten_head(ch2);
                let t1 = flatten(children) + flatten(r1);
                let t2 = flatten(ch2) + flatten(r2);
                assert(t1.len() > 0 ==> t1[0] == (if flatten(children).len() > 0 { flatten(children)[0] } else { flatten(r1)[0] }));
                assert(t2.len() > 0 ==> t2[0] == (if flatten(ch2).len() > 0 { flatten(ch2)[0] } else { flatten(r2)[0] }));
                assert(s.drop_first() =~= header + t1);
                assert(s.drop_first() =~= h2 + t2);
                lemma_header_len(header, t1, h2, t2, c);
                lemma_split_eq(header, t1, h2, t2);
                assert(flatten(children).len() == flatten(ch2).len());
                lemma_split_eq(flatten(children), flatten(r1), flatten(ch2), flatten(r2));
                lemma_flatten_unique(children, ch2, c);
                lemma_valid_skip(f1, 1, c);
                lemma_valid_skip(f2, 1, c);
                assert(f1.skip(1) =~= r1);
                assert(f2.skip(1) =~= r2);
                lemma_flatten_unique(r1, r2, c);
                assert(b1 == b2);
                assert forall|k: int| 0 <= k < f1.len() implies f1[k] == f2[k] by {
                    if k > 0 {
                        assert(f1[k] == r1[k - 1]);
                        assert(f2[k] == r2[k - 1]);
                    }
                }
                assert(f1 =~= f2);
            },
            Block::Loop { binding, data, body } => {
                let bd2 = match b2 {
                    Block::Loop { body, .. } => body,
                    _ => arbitrary(),
                };
                assert(b2 is Loop);
                assert(flatten(body).len() == flatten(bd2).len());
                assert(s.drop_first() =~= flatten(body) + flatten(r1));
                assert(s.drop_first() =~= flatten(bd2) + flatten(r2));
                lemma_split_eq(flatten(body), flatten(r1), flatten(bd2), flatten(r2));
                lemma_flatten_unique(body, bd2, c);
                lemma_valid_skip(f1, 1, c);
                lemma_valid_skip(f2, 1, c);
                assert(f1.skip(1) =~= r1);
                assert(f2.skip(1) =~= r2);
                lemma_flatten_unique(r1, r2, c);
                assert(b1 == b2);
                assert forall|k: int| 0 <= k < f1.len() implies f1[k] == f2[k] by {
                    if k > 0 {
                        assert(f1[k] == r1[k - 1]);
                        assert(f2[k] == r2[k - 1]);
                    }
                }
                assert(f1 =~= f2);
            },
            Block::If { cond, body, elses } => {
                let (bd2, es2) = match b2 {
                    Block::If { body, elses, .. } => (body, elses),
                    _ => (arbitrary(), arbitrary()),
                };
                assert(b2 is If);
                assert(flatten(body).len() == flatten(bd2).len());
                assert(s.drop_first() =~= flatten(body) + (flatten_elses(elses) + flatten(r1)));
                assert(s.drop_first() =~= flatten(bd2) + (flatten_elses(es2) + flatten(r2)));
                lemma_split_eq(
                    flatten(body),
                    flatten_elses(elses) + flatten(r1),
                    flatten(bd2),
                    flatten_elses(es2) + flatten(r2),
                );
                lemma_flatten_unique(body, bd2, c);
                lemma_elses_unique(elses, es2, flatten(r1), flatten(r2), c);
                lemma_split_eq(flatten_elses(elses), flatten(r1), flatten_elses(es2), flatten(r2));
                lemma_valid_skip(f1, 1, c);
                lemma_valid_skip(f2, 1, c);
                assert(f1.skip(1) =~= r1);
                assert(f2.skip(1) =~= r2);
                lemma_flatten_unique(r1, r2, c);
                assert(b1 == b2);
                assert forall|k: int| 0 <= k < f1.len() implies f1[k] == f2[k] by {
                    if k > 0 {
                        assert(f1[k] == r1[k - 1]);
                        assert(f2[k] == r2[k - 1]);
                    }
                }
                assert(f1 =~= f2);
            },
        }
    }
}

#[verifier::rlimit(100)]
proof fn lemma_elses_unique(
    e1: Seq<(Option<ValueId>, Seq<Block>)>,
    e2: Seq<(Option<ValueId>, Seq<Block>)>,
    t1: Seq<Instruction>,
    t2: Seq<Instruction>,
    c: Constants,
)
    requires
        valid_elses(e1, c),
        valid_elses(e2, c),
        flatten_elses(e1) + t1 == flatten_elses(e2) + t2,
        t1.len() > 0 ==> !(t1[0] is Else),
        t2.len() > 0 ==> !(t2[0] is Else),
    ensures
        e1 == e2,
        flatten_elses(e1).len() == flatten_elses(e2).len(),
    decreases e1,
{
    let s = flatten_elses(e1) + t1;
    if e1.len() == 0 {
        assert(flatten_elses(e1) =~= Seq::<Instruction>::empty());
        if e2.len() > 0 {
            assert((flatten_elses(e2) + t2)[0] == flatten_elses(e2)[0]);
            assert(s =~= t1);
        }
        assert(e1 =~= e2);
    } else {
        if e2.len() == 0 {
            assert(flatten_elses(e2) =~= Seq::<Instruction>::empty());
            assert(s[0] == flatten_elses(e1)[0]);
            assert(flatten_elses(e2) + t2 =~= t2);
        }
        assert(e2.len() > 0);
        let x1 = e1[0];
        let x2 = e2[0];
        let rest1 = flatten_elses(e1.drop_first()) + t1;
        let rest2 = flatten_elses(e2.drop_first()) + t2;
        assert(s[0] == flatten_elses(e1)[0]);
        assert((flatten_elses(e2) + t2)[0] == flatten_elses(e2)[0]);
        assert(flatten(x1.1).len() == flatten(x2.1).len());
        assert(s.drop_first() =~= flatten(x1.1) + rest1);
        assert((flatten_elses(e2) + t2).drop_first() =~= flatten(x2.1) + rest2);
        lemma_split_eq(flatten(x1.1), rest1, flatten(x2.1), rest2);
        lemma_flatten_unique(x1.1, x2.1, c);
        lemma_elses_unique(e1.drop_first(), e2.drop_first(), t1, t2, c);
        assert(x1.0 == x2.0);
        assert(x1 == x2);
        assert forall|k: int| 0 <= k < e1.len() implies e1[k] == e2[k] by {
            if k > 0 {
                assert(e1[k] == e1.drop_first()[k - 1]);
                assert(e2[k] == e2.drop_first()[k - 1]);
            }
        }
        assert(e1 =~= e2);
    }
}

} // verus!
