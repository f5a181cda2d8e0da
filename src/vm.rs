//! The tree builder: expands the flat instruction stream into nested expressions.
use vstd::prelude::*;
use crate::constants::Constants;
use crate::expression::{
    branch_views, build, build_elses, build_one, cond_value, header_attributes, header_text,
    lemma_branch_views_push, lemma_build_elses_take, lemma_build_len, lemma_build_push,
    lemma_views_push, views, Attributes, Branch, Expression, Loop, SingleNode,
};
use crate::instruction::{
    flatten, flatten_elses, flatten_one, is_header, lemma_flatten_cons, lemma_flatten_elses_skip,
    lemma_flatten_head, lemma_flatten_unique, lemma_valid_elses_at, lemma_valid_skip, valid, valid_elses, valid_one,
    well_formed, Block, Instruction,
};
use crate::values::ExpressionValue;

verus! {

/// A compiled template: its instruction stream and the pool its handles point into.
pub struct VirtualMachine {
    instructions: Vec<Instruction>,
    consts: Constants,
}

/// The statements that a well-formed stream was flattened from.
pub open spec fn statements(s: Seq<Instruction>, c: Constants) -> Seq<Block> {
    choose|f: Seq<Block>| valid(f, c) && flatten(f) == s
}

impl VirtualMachine {
    pub closed spec fn instructions(&self) -> Seq<Instruction> {
        self.instructions@
    }

    pub closed spec fn constants(&self) -> Constants {
        self.consts
    }

    /// A machine over a stream and its pool.
    pub fn new(instructions: Vec<Instruction>, consts: Constants) -> (r: VirtualMachine)
        ensures
            r.instructions() == instructions@,
            r.constants() == consts,
    {
        VirtualMachine { instructions, consts }
    }

    /// The expressions of the top-level statements, in order.
    pub fn exec(self) -> (r: Vec<Expression>)
        requires
            well_formed(self.instructions(), self.constants()),
        ensures
            views(r@) == build(statements(self.instructions(), self.constants()), self.constants()),
            forall|f: Seq<Block>|
                valid(f, self.constants()) && flatten(f) == self.instructions() ==> #[trigger] build(
                    f,
                    self.constants(),
                ) == views(r@),
    {
        let ghost f = statements(self.instructions@, self.consts);
        assert(self.instructions@.subrange(0, self.instructions@.len() as int)
            =~= self.instructions@);
        let r = build_range(&self.instructions, 0, self.instructions.len(), &self.consts, Ghost(f));
        proof {
            assert forall|g: Seq<Block>|
                valid(g, self.consts) && flatten(g) == self.instructions@ implies #[trigger] build(
                    g,
                    self.consts,
                ) == views(r@) by {
                lemma_flatten_unique(f, g, self.consts);
            }
        }
        r
    }
}

fn is_else(i: &Instruction) -> (r: bool)
    ensures
        r == (*i is Else),
{
    match i {
        Instruction::Else { .. } => true,
        _ => false,
    }
}

fn is_load(i: &Instruction) -> (r: bool)
    ensures
        r == is_header(*i),
{
    match i {
        Instruction::LoadAttribute { .. } | Instruction::LoadText(_) => true,
        _ => false,
    }
}

/// Builds the statements whose stream is `instrs[lo..hi]`.
pub(crate) fn build_range(
    instrs: &Vec<Instruction>,
    lo: usize,
    hi: usize,
    consts: &Constants,
    Ghost(f): Ghost<Seq<Block>>,
) -> (r: Vec<Expression>)
    requires
        lo <= hi <= instrs@.len(),
        instrs@.subrange(lo as int, hi as int) == flatten(f),
        valid(f, *consts),
    ensures
        views(r@) == build(f, *consts),
    decreases hi - lo,
{
    let ghost c = *consts;
    let mut out: Vec<Expression> = Vec::new();
    let mut i = lo;
    let ghost mut k: int = 0;
    assert(f.skip(0) =~= f);
    assert(f.take(0) =~= Seq::<Block>::empty());
    assert(views(out@) =~= build(f.take(0), c));
    while i < hi
        invariant
            lo <= i <= hi <= instrs@.len(),
            0 <= k <= f.len(),
            instrs@.subrange(i as int, hi as int) == flatten(f.skip(k)),
            valid(f, c),
            c == *consts,
            views(out@) == build(f.take(k), c),
        decreases hi - i,
    {
        proof {
            lemma_flatten_head(f.skip(k));
            assert(instrs@.subrange(i as int, hi as int).len() > 0);
            assert(f.skip(k).len() > 0);
            lemma_flatten_cons(f, k);
            lemma_valid_skip(f, k, c);
            lemma_valid_skip(f, k + 1, c);
            lemma_flatten_head(f.skip(k + 1));
        }
        let ghost b = f[k];
        let ghost rest = flatten(f.skip(k + 1));
        let ghost s = instrs@.subrange(i as int, hi as int);
        assert(s == flatten_one(b) + rest);
        let ins = instrs[i];
        assert(ins == s[0]);
        let expr = match ins {
            Instruction::Node { ident, scope_size } => {
                let ghost (header, children) = match b {
                    Block::Node { ident, header, children } => (header, children),
                    _ => (arbitrary(), arbitrary()),
                };
                assert(b is Node);
                let ghost h: int = header.len() as int;
                let ghost fc = flatten(children);
                proof {
                    lemma_flatten_head(children);
                    assert(s == seq![flatten_one(b)[0]] + header + fc + rest);
                    assert(scope_size == fc.len());
                    assert forall|m: int| 0 <= m < h implies #[trigger] instrs@[i + 1 + m]
                        == header[m] by {
                        assert(s[1 + m] == header[m]);
                    }
                    if i + 1 + h < hi {
                        assert(instrs@[i + 1 + h] == s[1 + h]);
                        if fc.len() > 0 {
                            assert(s[1 + h] == fc[0]);
                        } else {
                            assert(s[1 + h] == rest[0]);
                        }
                    }
                }
                let ident_text = consts.lookup_string(ident).unwrap().to_owned();
                let mut attributes = Attributes::empty();
                let mut text: Option<ExpressionValue> = None;
                let mut j = i + 1;
                assert(header.take(0) =~= Seq::<Instruction>::empty());
                while j < hi && is_load(&instrs[j])
                    invariant
                        h == header.len(),
                        i + 1 <= j <= i + 1 + h,
                        i + 1 + h <= hi <= instrs@.len(),
                        forall|m: int| 0 <= m < h ==> #[trigger] instrs@[i + 1 + m] == header[m],
                        i + 1 + h < hi ==> !is_header(instrs@[i + 1 + h]),
                        forall|m: int| 0 <= m < h ==> #[trigger] crate::instruction::header_ok(header[m], c),
                        c == *consts,
                        attributes.view() == header_attributes(header.take(j - i - 1), c),
                        text == header_text(header.take(j - i - 1), c),
                    decreases hi - j,
                {
                    let ghost m = j - i - 1;
                    assert(instrs@[i + 1 + m] == header[m]);
                    assert(crate::instruction::header_ok(header[m], c));
                    assert(header.take(m + 1).drop_last() =~= header.take(m));
                    assert(header.take(m + 1).last() == header[m]);
                    match &instrs[j] {
                        Instruction::LoadAttribute { key, value } => {
                            let name = consts.lookup_string(*key).unwrap().to_owned();
                            let v = consts.lookup_value(*value).unwrap().duplicate();
                            attributes.set(name, v);
                        },
                        Instruction::LoadText(v) => {
                            text = Some(consts.lookup_value(*v).unwrap().duplicate());
                        },
                        _ => {},
                    }
                    j += 1;
                }
                proof {
                    if j < i + 1 + h {
                        let m = j - i - 1;
                        assert(instrs@[i + 1 + m] == header[m]);
                        assert(crate::instruction::header_ok(header[m], c));
                    }
                }
                assert(j == i + 1 + h);
                assert(header.take(h as int) =~= header);
                proof {
                    lemma_split3(instrs@, i as int, hi as int, seq![flatten_one(b)[0]] + header, fc, rest);
                }
                let children_exprs = build_range(instrs, j, j + scope_size, consts, Ghost(children));
                i = j + scope_size;
                Expression::Node(
                    SingleNode { ident: ident_text, text, attributes, children: children_exprs },
                )
            },
            Instruction::For { binding, data, size } => {
                let ghost body = match b {
                    Block::Loop { body, .. } => body,
                    _ => arbitrary(),
                };
                assert(b is Loop);
                let ghost fb = flatten(body);
                assert(s == seq![flatten_one(b)[0]] + fb + rest);
                assert(size == fb.len());
                let binding_text = consts.lookup_string(binding).unwrap().to_owned();
                let collection = consts.lookup_value(data).unwrap().duplicate();
                proof {
                    lemma_split3(instrs@, i as int, hi as int, seq![flatten_one(b)[0]], fb, rest);
                }
                let body_exprs = build_range(instrs, i + 1, i + 1 + size, consts, Ghost(body));
                i = i + 1 + size;
                Expression::Loop(Loop { binding: binding_text, collection, body: body_exprs })
            },
            Instruction::If { cond, size } => {
                let ghost (body, elses) = match b {
                    Block::If { body, elses, .. } => (body, elses),
                    _ => (arbitrary(), arbitrary()),
                };
                assert(b is If);
                let ghost fb = flatten(body);
                assert(s =~= seq![flatten_one(b)[0]] + fb + (flatten_elses(elses) + rest));
                assert(size == fb.len());
                let cond_val = consts.lookup_value(cond).unwrap().duplicate();
                proof {
                    lemma_split3(
                        instrs@,
                        i as int,
                        hi as int,
                        seq![flatten_one(b)[0]],
                        fb,
                        flatten_elses(elses) + rest,
                    );
                }
                let body_exprs = build_range(instrs, i + 1, i + 1 + size, consts, Ghost(body));
                let mut branches: Vec<Branch> = Vec::new();
                let ghost first = (Some(c.values()[cond.0 as int]), build(body, c));
                branches.push(Branch { cond: Some(cond_val), body: body_exprs });
                let mut j = i + 1 + size;
                let ghost mut m: int = 0;
                assert(elses.skip(0) =~= elses);
                assert(elses.take(0) =~= Seq::<(Option<crate::values::ValueId>, Seq<Block>)>::empty());
                assert(branch_views(branches@) =~= seq![first] + build_elses(elses.take(0), c)) by {
                    assert(branches@ =~= seq![branches@[0]]);
                    assert(branches@.drop_first() =~= Seq::<Branch>::empty());
                    assert(build_elses(elses.take(0), c) =~= seq![]);
                    assert(branch_views(Seq::<Branch>::empty()) =~= seq![]);
                }
                while j < hi && is_else(&instrs[j])
                    invariant
                        lo <= i,
                        i + 1 <= j <= hi <= instrs@.len(),
                        0 <= m <= elses.len(),
                        instrs@.subrange(j as int, hi as int) == flatten_elses(elses.skip(m)) + rest,
                        valid_elses(elses, c),
                        rest.len() > 0 ==> !(rest[0] is Else),
                        c == *consts,
                        branch_views(branches@) == seq![first] + build_elses(elses.take(m), c),
                    decreases hi - j,
                {
                    proof {
                        if m == elses.len() {
                            assert(elses.skip(m) =~= Seq::<(Option<crate::values::ValueId>, Seq<Block>)>::empty());
                            assert(flatten_elses(elses.skip(m)) =~= seq![]);
                            assert(instrs@[j as int] == instrs@.subrange(j as int, hi as int)[0]);
                            assert(instrs@.subrange(j as int, hi as int) =~= rest);
                        }
                    }
                    assert(m < elses.len());
                    let ghost e = elses[m];
                    proof {
                        lemma_flatten_elses_skip(elses, m);
                        lemma_valid_elses_at(elses, m, c);
                    }
                    let ghost fe = flatten(e.1);
                    let ghost after = flatten_elses(elses.skip(m + 1)) + rest;
                    let ghost sub = instrs@.subrange(j as int, hi as int);
                    assert(sub =~= seq![Instruction::Else { cond: e.0, size: fe.len() as usize }] + fe
                        + after);
                    let (econd, esize) = match instrs[j] {
                        Instruction::Else { cond, size } => (cond, size),
                        _ => (None, 0),
                    };
                    assert(instrs@[j as int] == sub[0]);
                    assert(esize == fe.len());
                    assert(sub.len() == hi - j);
                    assert(j + 1 + esize <= hi);
                    let cv = match econd {
                        Some(v) => Some(consts.lookup_value(v).unwrap().duplicate()),
                        None => None,
                    };
                    assert(cv == cond_value(e.0, c));
                    proof {
                        lemma_split3(
                            instrs@,
                            j as int,
                            hi as int,
                            seq![Instruction::Else { cond: e.0, size: fe.len() as usize }],
                            fe,
                            after,
                        );
                    }
                    let else_body = build_range(instrs, j + 1, j + 1 + esize, consts, Ghost(e.1));
                    let branch = Branch { cond: cv, body: else_body };
                    proof {
                        lemma_branch_views_push(branches@, branch);
                        lemma_build_elses_take(elses, m, c);
                    }
                    branches.push(branch);
                    j = j + 1 + esize;
                    proof {
                        m = m + 1;
                    }
                }
                proof {
                    if m < elses.len() {
                        lemma_flatten_elses_skip(elses, m);
                        let sub = instrs@.subrange(j as int, hi as int);
                        assert(sub[0] is Else);
                        assert(instrs@[j as int] == sub[0]);
                    }
                    assert(elses.skip(m) =~= Seq::<(Option<crate::values::ValueId>, Seq<Block>)>::empty());
                    assert(flatten_elses(elses.skip(m)) =~= seq![]);
                    assert(instrs@.subrange(j as int, hi as int) =~= rest);
                    assert(elses.take(m) =~= elses);
                }
                i = j;
                Expression::ControlFlow(branches)
            },
            _ => {
                proof {
                    match b {
                        Block::Node { .. } => {},
                        Block::Loop { .. } => {},
                        Block::If { .. } => {},
                    }
                }
                vstd::pervasive::unreached()
            },
        };
        assert(expr.view() == build_one(b, c));
        proof {
            lemma_views_push(out@, expr);
            lemma_build_push(f.take(k), b, c);
            assert(f.take(k).push(b) =~= f.take(k + 1));
        }
        out.push(expr);
        proof {
            k = k + 1;
        }
    }
    proof {
        lemma_flatten_head(f.skip(k));
        assert(f.skip(k).len() == 0);
        assert(f.take(k) =~= f);
    }
    out
}

proof fn lemma_split3(
    x: Seq<Instruction>,
    i: int,
    hi: int,
    a: Seq<Instruction>,
    b: Seq<Instruction>,
    c: Seq<Instruction>,
)
    requires
        0 <= i <= hi <= x.len(),
        x.subrange(i, hi) == a + b + c,
    ensures
        x.subrange(i + a.len(), i + a.len() + b.len()) == b,
        x.subrange(i + a.len() + b.len(), hi) == c,
{
    let s = x.subrange(i, hi);
    assert(s.len() == a.len() + b.len() + c.len());
    assert forall|m: int| 0 <= m < b.len() implies x.subrange(i + a.len(), i + a.len() + b.len())[m]
        == b[m] by {
        assert(s[a.len() + m] == b[m]);
        assert(x[i + a.len() + m] == s[a.len() + m]);
    }
    assert forall|m: int| 0 <= m < c.len() implies x.subrange(i + a.len() + b.len(), hi)[m]
        == c[m] by {
        assert(s[a.len() + b.len() + m] == c[m]);
        assert(x[i + a.len() + b.len() + m] == s[a.len() + b.len() + m]);
    }
    assert(x.subrange(i + a.len(), i + a.len() + b.len()) =~= b);
    assert(x.subrange(i + a.len() + b.len(), hi) =~= c);
}

/// The tree builder gives one expression per top-level statement, in
/// statement order.
pub proof fn lemma_one_expression_per_statement(f: Seq<Block>, c: Constants)
    ensures
        build(f, c).len() == f.len(),
        forall|k: int| 0 <= k < f.len() ==> #[trigger] build(f, c)[k] == build_one(f[k], c),
{
    lemma_build_len(f, c);
}

/// Rebuilding a statement gives one child expression per child statement,
/// and the child statements take exactly the instructions that the block
/// instruction's size counts.
pub proof fn lemma_rebuilt_children_match_size(b: Block, c: Constants)
    requires
        valid_one(b, c),
    ensures
        match b {
            Block::Node { children, .. } => {
                &&& build_one(b, c)->Node_children.len() == children.len()
                &&& flatten_one(b)[0]->Node_scope_size == flatten(children).len()
            },
            Block::Loop { body, .. } => {
                &&& build_one(b, c)->Loop_body.len() == body.len()
                &&& flatten_one(b)[0]->For_size == flatten(body).len()
            },
            Block::If { body, elses, .. } => {
                &&& build_one(b, c)->ControlFlow_branches[0].1.len() == body.len()
                &&& flatten_one(b)[0]->If_size == flatten(body).len()
            },
        },
{
    crate::instruction::lemma_block_size(b);
    match b {
        Block::Node { children, .. } => {
            lemma_build_len(children, c);
        },
        Block::Loop { body, .. } => {
            lemma_build_len(body, c);
        },
        Block::If { body, .. } => {
            lemma_build_len(body, c);
        },
    }
}

} // verus!
