//! The expression tree that the tree builder produces.
use vstd::prelude::*;
use crate::constants::Constants;
use crate::instruction::{Block, Instruction};
use crate::text::str_eq;
use crate::values::{ExpressionValue, ValueId};

verus! {

/// Attribute values by name. A later `set` of a name replaces the earlier value.
#[derive(Debug)]
pub struct Attributes {
    entries: Vec<(String, ExpressionValue)>,
}

/// The map that a list of settings leaves behind, later settings winning.
pub open spec fn settings_map(s: Seq<(String, ExpressionValue)>) -> Map<Seq<char>, ExpressionValue>
    decreases s.len(),
{
    if s.len() == 0 {
        Map::empty()
    } else {
        settings_map(s.drop_last()).insert(s.last().0@, s.last().1)
    }
}

impl Attributes {
    /// The attributes as a map from name to value.
    pub closed spec fn view(&self) -> Map<Seq<char>, ExpressionValue> {
        settings_map(self.entries@)
    }

    /// No attributes.
    pub fn empty() -> (r: Attributes)
        ensures
            r.view() == Map::<Seq<char>, ExpressionValue>::empty(),
    {
        Attributes { entries: Vec::new() }
    }

    /// Sets `key` to `value`.
    pub fn set(&mut self, key: String, value: ExpressionValue)
        ensures
            final(self).view() == old(self).view().insert(key@, value),
    {
        let ghost before = self.entries@;
        self.entries.push((key, value));
        assert(self.entries@.drop_last() =~= before);
    }

    /// Whether no attribute is set.
    pub fn is_empty(&self) -> (r: bool)
        ensures
            r == (self.view() == Map::<Seq<char>, ExpressionValue>::empty()),
    {
        proof {
            lemma_settings_empty(self.entries@);
        }
        self.entries.len() == 0
    }

    /// The value of `key`, if set.
    pub fn get(&self, key: &str) -> (r: Option<&ExpressionValue>)
        ensures
            self.view().contains_key(key@) ==> r == Some(&self.view()[key@]),
            !self.view().contains_key(key@) ==> r is None,
    {
        let ghost m = settings_map(self.entries@);
        let mut i = self.entries.len();
        assert(self.entries@.subrange(0, i as int) =~= self.entries@);
        while i > 0
            invariant
                i <= self.entries@.len(),
                m == settings_map(self.entries@),
                m.contains_key(key@) == settings_map(self.entries@.subrange(0, i as int)).contains_key(
                    key@,
                ),
                m.contains_key(key@) ==> m[key@] == settings_map(
                    self.entries@.subrange(0, i as int),
                )[key@],
            decreases i,
        {
            let ghost pre = self.entries@.subrange(0, i as int);
            assert(pre.drop_last() =~= self.entries@.subrange(0, i - 1));
            assert(pre.last() == self.entries@[i - 1]);
            if str_eq(self.entries[i - 1].0.as_str(), key) {
                return Some(&self.entries[i - 1].1);
            }
            i -= 1;
        }
        assert(self.entries@.subrange(0, 0) =~= Seq::<(String, ExpressionValue)>::empty());
        None
    }
}

proof fn lemma_settings_empty(s: Seq<(String, ExpressionValue)>)
    ensures
        (settings_map(s) == Map::<Seq<char>, ExpressionValue>::empty()) == (s.len() == 0),
{
    if s.len() > 0 {
        assert(settings_map(s).contains_key(s.last().0@));
        assert(!Map::<Seq<char>, ExpressionValue>::empty().contains_key(s.last().0@));
    }
}

/// A node of the template.
#[derive(Debug)]
pub struct SingleNode {
    pub ident: String,
    pub text: Option<ExpressionValue>,
    pub attributes: Attributes,
    pub children: Vec<Expression>,
}

/// A loop that repeats its body for each item of a collection.
#[derive(Debug)]
pub struct Loop {
    pub binding: String,
    pub collection: ExpressionValue,
    pub body: Vec<Expression>,
}

/// One branch of a conditional: its condition (none for a plain `else`) and body.
#[derive(Debug)]
pub struct Branch {
    pub cond: Option<ExpressionValue>,
    pub body: Vec<Expression>,
}

/// One statement of the template, with its nested statements.
#[derive(Debug)]
pub enum Expression {
    Node(SingleNode),
    Loop(Loop),
    /// An `if` branch followed by its `else` branches, in order.
    ControlFlow(Vec<Branch>),
}

/// An expression as plain values.
pub ghost enum ExprView {
    Node {
        ident: Seq<char>,
        text: Option<ExpressionValue>,
        attributes: Map<Seq<char>, ExpressionValue>,
        children: Seq<ExprView>,
    },
    Loop { binding: Seq<char>, collection: ExpressionValue, body: Seq<ExprView> },
    ControlFlow { branches: Seq<(Option<ExpressionValue>, Seq<ExprView>)> },
}

impl Expression {
    pub open spec fn view(&self) -> ExprView
        decreases self,
    {
        match self {
            Expression::Node(n) => ExprView::Node {
                ident: n.ident@,
                text: n.text,
                attributes: n.attributes.view(),
                children: views(n.children@),
            },
            Expression::Loop(l) => ExprView::Loop {
                binding: l.binding@,
                collection: l.collection,
                body: views(l.body@),
            },
            Expression::ControlFlow(bs) => ExprView::ControlFlow { branches: branch_views(bs@) },
        }
    }
}

/// The views of a list of branches.
pub open spec fn branch_views(s: Seq<Branch>) -> Seq<(Option<ExpressionValue>, Seq<ExprView>)>
    decreases s,
{
    if s.len() == 0 {
        seq![]
    } else {
        seq![(s[0].cond, views(s[0].body@))] + branch_views(s.drop_first())
    }
}

pub proof fn lemma_branch_views_push(s: Seq<Branch>, b: Branch)
    ensures
        branch_views(s.push(b)) == branch_views(s).push((b.cond, views(b.body@))),
    decreases s.len(),
{
    if s.len() == 0 {
        assert(s.push(b).drop_first() =~= s);
        assert(s.push(b)[0] == b);
        assert(branch_views(s) =~= seq![]);
        assert(branch_views(s.push(b)) =~= branch_views(s).push((b.cond, views(b.body@))));
    } else {
        assert(s.push(b).drop_first() =~= s.drop_first().push(b));
        assert(s.push(b)[0] == s[0]);
        lemma_branch_views_push(s.drop_first(), b);
        assert(branch_views(s.push(b)) =~= branch_views(s).push((b.cond, views(b.body@))));
    }
}

/// The views of a list of expressions.
pub open spec fn views(s: Seq<Expression>) -> Seq<ExprView>
    decreases s,
{
    if s.len() == 0 {
        seq![]
    } else {
        seq![s[0].view()] + views(s.drop_first())
    }
}

/// The attributes that a node's loads set, later loads winning.
pub open spec fn header_attributes(h: Seq<Instruction>, c: Constants) -> Map<
    Seq<char>,
    ExpressionValue,
>
    decreases h.len(),
{
    if h.len() == 0 {
        Map::empty()
    } else {
        let m = header_attributes(h.drop_last(), c);
        match h.last() {
            Instruction::LoadAttribute { key, value } => m.insert(
                c.strings()[key.0 as int]@,
                c.values()[value.0 as int],
            ),
            _ => m,
        }
    }
}

/// The text that a node's loads set: the last one.
pub open spec fn header_text(h: Seq<Instruction>, c: Constants) -> Option<ExpressionValue>
    decreases h.len(),
{
    if h.len() == 0 {
        None
    } else {
        match h.last() {
            Instruction::LoadText(v) => Some(c.values()[v.0 as int]),
            _ => header_text(h.drop_last(), c),
        }
    }
}

/// The expressions that statements stand for, handles resolved through `c`.
pub open spec fn build(f: Seq<Block>, c: Constants) -> Seq<ExprView>
    decreases f,
{
    if f.len() == 0 {
        seq![]
    } else {
        seq![build_one(f[0], c)] + build(f.drop_first(), c)
    }
}

pub open spec fn build_one(b: Block, c: Constants) -> ExprView
    decreases b,
{
    match b {
        Block::Node { ident, header, children } => ExprView::Node {
            ident: c.strings()[ident.0 as int]@,
            text: header_text(header, c),
            attributes: header_attributes(header, c),
            children: build(children, c),
        },
        Block::Loop { binding, data, body } => ExprView::Loop {
            binding: c.strings()[binding.0 as int]@,
            collection: c.values()[data.0 as int],
            body: build(body, c),
        },
        Block::If { cond, body, elses } => ExprView::ControlFlow {
            branches: seq![(Some(c.values()[cond.0 as int]), build(body, c))] + build_elses(
                elses,
                c,
            ),
        },
    }
}

/// The branches that `else` parts stand for.
pub open spec fn build_elses(es: Seq<(Option<ValueId>, Seq<Block>)>, c: Constants) -> Seq<
    (Option<ExpressionValue>, Seq<ExprView>),
>
    decreases es,
{
    if es.len() == 0 {
        seq![]
    } else {
        seq![(cond_value(es[0].0, c), build(es[0].1, c))] + build_elses(es.drop_first(), c)
    }
}

/// The value of an optional condition.
pub open spec fn cond_value(cond: Option<ValueId>, c: Constants) -> Option<ExpressionValue> {
    match cond {
        Some(v) => Some(c.values()[v.0 as int]),
        None => None,
    }
}

pub proof fn lemma_build_elses_take(es: Seq<(Option<ValueId>, Seq<Block>)>, m: int, c: Constants)
    requires
        0 <= m < es.len(),
    ensures
        build_elses(es.take(m + 1), c) == build_elses(es.take(m), c).push(
            (cond_value(es[m].0, c), build(es[m].1, c)),
        ),
    decreases m,
{
    let e = (cond_value(es[m].0, c), build(es[m].1, c));
    if m == 0 {
        assert(es.take(1).drop_first() =~= es.take(0));
        assert(build_elses(es.take(0), c) =~= seq![]);
        assert(build_elses(es.take(1), c) =~= build_elses(es.take(0), c).push(e));
    } else {
        lemma_build_elses_take(es.drop_first(), m - 1, c);
        assert(es.take(m + 1).drop_first() =~= es.drop_first().take(m));
        assert(es.take(m).drop_first() =~= es.drop_first().take(m - 1));
        assert(es.drop_first()[m - 1] == es[m]);
        assert(build_elses(es.take(m + 1), c) =~= build_elses(es.take(m), c).push(e));
    }
}

pub proof fn lemma_build_len(f: Seq<Block>, c: Constants)
    ensures
        build(f, c).len() == f.len(),
        forall|k: int| 0 <= k < f.len() ==> #[trigger] build(f, c)[k] == build_one(f[k], c),
    decreases f.len(),
{
    if f.len() > 0 {
        lemma_build_len(f.drop_first(), c);
        assert forall|k: int| 0 <= k < f.len() implies #[trigger] build(f, c)[k] == build_one(
            f[k],
            c,
        ) by {
            if k > 0 {
                assert(build(f.drop_first(), c)[k - 1] == build_one(f.drop_first()[k - 1], c));
            }
        }
    }
}

pub proof fn lemma_views_len(s: Seq<Expression>)
    ensures
        views(s).len() == s.len(),
    decreases s.len(),
{
    if s.len() > 0 {
        lemma_views_len(s.drop_first());
    }
}

pub proof fn lemma_views_push(s: Seq<Expression>, e: Expression)
    ensures
        views(s.push(e)) == views(s).push(e.view()),
    decreases s.len(),
{
    if s.len() == 0 {
        assert(s.push(e).drop_first() =~= Seq::<Expression>::empty());
        assert(s.push(e)[0] == e);
        assert(views(Seq::<Expression>::empty()) =~= Seq::<ExprView>::empty());
        assert(views(s.push(e)) =~= views(s).push(e.view()));
    } else {
        assert(s.push(e).drop_first() =~= s.drop_first().push(e));
        assert(s.push(e)[0] == s[0]);
        lemma_views_push(s.drop_first(), e);
        assert(views(s.push(e)) =~= views(s).push(e.view()));
    }
}

pub proof fn lemma_build_push(f: Seq<Block>, b: Block, c: Constants)
    ensures
        build(f.push(b), c) == build(f, c).push(build_one(b, c)),
    decreases f.len(),
{
    if f.len() == 0 {
        assert(f.push(b).drop_first() =~= Seq::<Block>::empty());
        assert(f.push(b)[0] == b);
        assert(build(Seq::<Block>::empty(), c) =~= Seq::<ExprView>::empty());
        assert(build(f.push(b), c) =~= build(f, c).push(build_one(b, c)));
    } else {
        assert(f.push(b).drop_first() =~= f.drop_first().push(b));
        assert(f.push(b)[0] == f[0]);
        lemma_build_push(f.drop_first(), b, c);
        assert(build(f.push(b), c) =~= build(f, c).push(build_one(b, c)));
    }
}

} // verus!
