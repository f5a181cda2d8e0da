//! The values that a template can hold: literals, colours, layout keywords,
//! data-binding paths and interpolated text.
use std::rc::Rc;
use vstd::prelude::*;
use crate::text::push_char;

verus! {

/// Handle of an interned string.
#[derive(Clone, Copy, Debug, PartialEq, Eq, Structural, Hash)]
pub struct StringId(pub usize);

/// Handle of an interned text.
#[derive(Clone, Copy, Debug, PartialEq, Eq, Structural, Hash)]
pub struct TextId(pub usize);

/// Handle of an interned attribute value.
#[derive(Clone, Copy, Debug, PartialEq, Eq, Structural, Hash)]
pub struct ValueId(pub usize);

/// Handle of an interned data-binding path.
#[derive(Clone, Copy, Debug, PartialEq, Eq, Structural, Hash)]
pub struct PathId(pub usize);

/// Where a widget places its child.
#[derive(Clone, Copy, Debug, PartialEq, Eq, Structural, Hash)]
pub enum Align {
    Top,
    TopRight,
    Right,
    BottomRight,
    Bottom,
    BottomLeft,
    Left,
    TopLeft,
    Centre,
}

/// The axis along which a layout runs.
#[derive(Clone, Copy, Debug, PartialEq, Eq, Structural, Hash)]
pub enum Axis {
    Horizontal,
    Vertical,
}

/// The order in which a layout visits its children.
#[derive(Clone, Copy, Debug, PartialEq, Eq, Structural, Hash)]
pub enum Direction {
    Forward,
    Backward,
}

/// How a widget takes part in layout and painting.
#[derive(Clone, Copy, Debug, PartialEq, Eq, Structural, Hash)]
pub enum Display {
    /// Laid out and painted.
    Show,
    /// Laid out, not painted.
    Hide,
    /// Neither laid out nor painted.
    Exclude,
}

/// A terminal colour.
#[derive(Clone, Copy, Debug, PartialEq, Eq, Structural, Hash)]
pub enum Color {
    Reset,
    Black,
    DarkGrey,
    Red,
    DarkRed,
    Green,
    DarkGreen,
    Yellow,
    DarkYellow,
    Blue,
    DarkBlue,
    Magenta,
    DarkMagenta,
    Cyan,
    DarkCyan,
    White,
    Grey,
    Rgb { r: u8, g: u8, b: u8 },
    AnsiValue(u8),
}

/// An integer.
#[derive(Clone, Copy, Debug, PartialEq, Eq, Structural, Hash)]
pub enum Number {
    Signed(i64),
    Unsigned(u64),
}

/// A dotted or indexed data-binding expression such as `a.b[3]`.
#[derive(Debug, PartialEq, Eq, Hash)]
pub enum Path {
    Key(String),
    Index(usize),
    /// The left path followed by the right one.
    Composite(Box<Path>, Box<Path>),
}

impl Clone for Path {
    fn clone(&self) -> (r: Path)
        ensures
            r == *self,
    {
        self.duplicate()
    }
}

/// One step of a path.
pub ghost enum Segment {
    Key(Seq<char>),
    Index(nat),
}

impl Path {
    /// The steps of the path, left to right.
    pub open spec fn segments(&self) -> Seq<Segment>
        decreases self,
    {
        match self {
            Path::Key(k) => seq![Segment::Key(k@)],
            Path::Index(i) => seq![Segment::Index(*i as nat)],
            Path::Composite(l, r) => l.segments() + r.segments(),
        }
    }

    /// A copy of the path.
    pub fn duplicate(&self) -> (r: Path)
        ensures
            r == *self,
        decreases self,
    {
        match self {
            Path::Key(k) => Path::Key(k.clone()),
            Path::Index(i) => Path::Index(*i),
            Path::Composite(l, r) => {
                let l2 = l.duplicate();
                let r2 = r.duplicate();
                Path::Composite(Box::new(l2), Box::new(r2))
            },
        }
    }

    /// Whether two paths have the same shape and the same keys and indices.
    pub open spec fn same_as(&self, other: &Path) -> bool
        decreases self,
    {
        match (self, other) {
            (Path::Key(a), Path::Key(b)) => a@ == b@,
            (Path::Index(a), Path::Index(b)) => a == b,
            (Path::Composite(a1, a2), Path::Composite(b1, b2)) => a1.same_as(b1) && a2.same_as(b2),
            _ => false,
        }
    }

    /// Whether two paths have the same shape and the same keys and indices.
    pub fn same(&self, other: &Path) -> (r: bool)
        ensures
            r == self.same_as(other),
        decreases self,
    {
        match (self, other) {
            (Path::Key(a), Path::Key(b)) => crate::text::str_eq(a.as_str(), b.as_str()),
            (Path::Index(a), Path::Index(b)) => *a == *b,
            (Path::Composite(a1, a2), Path::Composite(b1, b2)) => a1.same(b1) && a2.same(b2),
            _ => false,
        }
    }

    /// Appends `other` after the last step of this path.
    pub fn compose(self, other: Path) -> (r: Path)
        ensures
            r.segments() == self.segments() + other.segments(),
        decreases self,
    {
        match self {
            Path::Composite(l, r) => {
                let rest = (*r).compose(other);
                assert(l.segments() + (r.segments() + other.segments()) =~= (l.segments()
                    + r.segments()) + other.segments());
                Path::Composite(l, Box::new(rest))
            },
            p => Path::Composite(Box::new(p), Box::new(other)),
        }
    }

    /// The text form of the path: `K(name)` for a key and `I(n)` for an index, joined by ` -> `.
    pub fn to_string(&self) -> (r: String)
        ensures
            r@ == path_text(self.segments()),
    {
        let mut s = String::new();
        self.write_to(&mut s, true);
        assert(s@ =~= seq![] + path_text(self.segments()));
        s
    }

    fn write_to(&self, s: &mut String, first: bool)
        ensures
            final(s)@ == old(s)@ + (if first {
                path_text(self.segments())
            } else {
                path_tail_text(self.segments())
            }),
        decreases self,
    {
        match self {
            Path::Composite(l, r) => {
                l.write_to(s, first);
                r.write_to(s, false);
                proof {
                    lemma_segments_nonempty(l);
                    lemma_path_text_concat(l.segments(), r.segments(), first);
                }
            },
            _ => {
                let ghost before = s@;
                if !first {
                    push_str(s, " -> ");
                }
                match self {
                    Path::Key(k) => {
                        push_str(s, "K(");
                        push_str(s, k.as_str());
                        push_str(s, ")");
                    },
                    Path::Index(i) => {
                        push_str(s, "I(");
                        push_decimal(s, *i);
                        push_str(s, ")");
                    },
                    _ => {},
                }
                proof {
                    reveal_strlit(" -> ");
                    let seg = self.segments()[0];
                    assert(self.segments() =~= seq![seg]);
                    assert(self.segments().drop_first() =~= Seq::<Segment>::empty());
                    assert(path_tail_text(self.segments().drop_first()) =~= seq![]);
                    assert(path_tail_text(self.segments()) =~= " -> "@ + segment_text(seg));
                    assert(path_text(self.segments()) =~= segment_text(seg));
                    if first {
                        assert(s@ =~= before + path_text(self.segments()));
                    } else {
                        assert(s@ =~= before + path_tail_text(self.segments()));
                    }
                }
            },
        }
    }
}

/// The text of one path step.
pub open spec fn segment_text(seg: Segment) -> Seq<char> {
    match seg {
        Segment::Key(k) => "K("@ + k + ")"@,
        Segment::Index(i) => "I("@ + decimal(i) + ")"@,
    }
}

/// Each step, preceded by ` -> `.
pub open spec fn path_tail_text(segs: Seq<Segment>) -> Seq<char>
    decreases segs.len(),
{
    if segs.len() == 0 {
        seq![]
    } else {
        " -> "@ + segment_text(segs[0]) + path_tail_text(segs.drop_first())
    }
}

/// The steps joined by ` -> `.
pub open spec fn path_text(segs: Seq<Segment>) -> Seq<char> {
    if segs.len() == 0 {
        seq![]
    } else {
        segment_text(segs[0]) + path_tail_text(segs.drop_first())
    }
}

proof fn lemma_segments_nonempty(p: &Path)
    ensures
        p.segments().len() > 0,
    decreases p,
{
    if let Path::Composite(l, r) = p {
        lemma_segments_nonempty(l);
    }
}

proof fn lemma_tail_concat(a: Seq<Segment>, b: Seq<Segment>)
    ensures
        path_tail_text(a + b) == path_tail_text(a) + path_tail_text(b),
    decreases a.len(),
{
    if a.len() == 0 {
        assert(a + b =~= b);
        assert(path_tail_text(a) =~= seq![]);
        assert(path_tail_text(b) =~= seq![] + path_tail_text(b));
    } else {
        assert((a + b).drop_first() =~= a.drop_first() + b);
        lemma_tail_concat(a.drop_first(), b);
        assert(path_tail_text(a + b) =~= path_tail_text(a) + path_tail_text(b));
    }
}

proof fn lemma_path_text_concat(a: Seq<Segment>, b: Seq<Segment>, first: bool)
    requires
        a.len() > 0,
    ensures
        (if first { path_text(a + b) } else { path_tail_text(a + b) }) == (if first {
            path_text(a)
        } else {
            path_tail_text(a)
        }) + path_tail_text(b),
{
    lemma_tail_concat(a, b);
    if first {
        assert((a + b).drop_first() =~= a.drop_first() + b);
        lemma_tail_concat(a.drop_first(), b);
        assert(path_text(a + b) =~= path_text(a) + path_tail_text(b));
    }
}

/// The decimal digits of `n`, most significant first.
pub open spec fn decimal(n: nat) -> Seq<char>
    decreases n,
{
    if n < 10 {
        seq![digit_char(n)]
    } else {
        decimal(n / 10) + seq![digit_char(n % 10)]
    }
}

/// The character of a decimal digit.
pub open spec fn digit_char(d: nat) -> char {
    ((d + 48) as u8) as char
}

/// Appends the characters of `t`.
pub(crate) fn push_str(s: &mut String, t: &str)
    ensures
        final(s)@ == old(s)@ + t@,
{
    let n = t.unicode_len();
    let ghost start = s@;
    let mut i: usize = 0;
    while i < n
        invariant
            n == t@.len(),
            i <= n,
            s@ == start + t@.subrange(0, i as int),
        decreases n - i,
    {
        push_char(s, t.get_char(i));
        i += 1;
        assert(s@ =~= start + t@.subrange(0, i as int));
    }
    assert(t@.subrange(0, n as int) =~= t@);
}

/// Appends the decimal digits of `n`.
pub(crate) fn push_decimal(s: &mut String, n: usize)
    ensures
        final(s)@ == old(s)@ + decimal(n as nat),
    decreases n,
{
    if n >= 10 {
        push_decimal(s, n / 10);
    }
    let d = (n % 10) as u8;
    push_char(s, (d + 48) as char);
    proof {
        assert(digit_char((n % 10) as nat) == (d + 48) as char);
    }
    assert(s@ =~= old(s)@ + decimal(n as nat));
}

/// A piece of interpolated text.
#[derive(Clone, Debug, PartialEq, Eq)]
pub enum Fragment {
    /// Literal text.
    String(String),
    /// A value looked up when the text is shown.
    Data(Path),
}

/// A quoted string after interpolation has been split out.
#[derive(Clone, Debug, PartialEq, Eq)]
pub enum TextPath {
    /// Text without interpolation.
    String(String),
    /// Literal text and looked-up values, in source order.
    Fragments(Vec<Fragment>),
}

/// A literal value.
#[derive(Clone, Debug, PartialEq, Eq)]
pub enum Value {
    Alignment(Align),
    Axis(Axis),
    Bool(bool),
    Color(Color),
    Display(Display),
    Direction(Direction),
    Number(Number),
    String(String),
    /// Interpolated text.
    Fragments(Vec<Fragment>),
}

impl Number {
    /// Whether the number counts as true: it is not zero.
    pub fn is_true(&self) -> (r: bool)
        ensures
            r == (match self {
                Number::Signed(n) => *n != 0,
                Number::Unsigned(n) => *n != 0,
            }),
    {
        match self {
            Number::Signed(n) => *n != 0,
            Number::Unsigned(n) => *n != 0,
        }
    }
}

impl Value {
    /// Whether the value counts as true: a bool is itself, an empty string is
    /// false, and anything else is true.
    pub fn is_true(&self) -> (r: bool)
        ensures
            r == (match self {
                Value::Bool(b) => *b,
                Value::String(s) => s@.len() > 0,
                _ => true,
            }),
    {
        match self {
            Value::Bool(b) => *b,
            Value::String(s) => s.as_str().unicode_len() > 0,
            _ => true,
        }
    }

    /// The value as a bool.
    pub fn to_bool(&self) -> (r: Option<bool>)
        ensures
            r == (match self {
                Value::Bool(b) => Some(*b),
                _ => None,
            }),
    {
        match self {
            Value::Bool(b) => Some(*b),
            _ => None,
        }
    }

    /// The value as a string slice.
    pub fn to_str(&self) -> (r: Option<&str>)
        ensures
            match self {
                Value::String(s) => r is Some && r->0@ == s@,
                _ => r is None,
            },
    {
        match self {
            Value::String(s) => Some(s.as_str()),
            _ => None,
        }
    }

    /// The value as a signed integer; an unsigned one above `i64::MAX` gives none.
    pub fn to_signed_int(&self) -> (r: Option<i64>)
        ensures
            r == (match self {
                Value::Number(Number::Signed(n)) => Some(*n),
                Value::Number(Number::Unsigned(n)) => if *n <= i64::MAX {
                    Some(*n as i64)
                } else {
                    None
                },
                _ => None,
            }),
    {
        match self {
            Value::Number(Number::Signed(n)) => Some(*n),
            Value::Number(Number::Unsigned(n)) => if *n <= i64::MAX as u64 {
                Some(*n as i64)
            } else {
                None
            },
            _ => None,
        }
    }

    /// The value as an unsigned integer; a negative one gives none.
    pub fn to_int(&self) -> (r: Option<u64>)
        ensures
            r == (match self {
                Value::Number(Number::Signed(n)) => if *n >= 0 {
                    Some(*n as u64)
                } else {
                    None
                },
                Value::Number(Number::Unsigned(n)) => Some(*n),
                _ => None,
            }),
    {
        match self {
            Value::Number(Number::Signed(n)) => if *n >= 0 {
                Some(*n as u64)
            } else {
                None
            },
            Value::Number(Number::Unsigned(n)) => Some(*n),
            _ => None,
        }
    }

    /// The value as an alignment.
    pub fn to_alignment(&self) -> (r: Option<Align>)
        ensures
            r == (match self {
                Value::Alignment(a) => Some(*a),
                _ => None,
            }),
    {
        match self {
            Value::Alignment(a) => Some(*a),
            _ => None,
        }
    }

    /// The value as a colour.
    pub fn to_color(&self) -> (r: Option<Color>)
        ensures
            r == (match self {
                Value::Color(c) => Some(*c),
                _ => None,
            }),
    {
        match self {
            Value::Color(c) => Some(*c),
            _ => None,
        }
    }

    /// The value as an axis.
    pub fn to_axis(&self) -> (r: Option<Axis>)
        ensures
            r == (match self {
                Value::Axis(a) => Some(*a),
                _ => None,
            }),
    {
        match self {
            Value::Axis(a) => Some(*a),
            _ => None,
        }
    }

    /// The value as a display mode.
    pub fn to_display(&self) -> (r: Option<Display>)
        ensures
            r == (match self {
                Value::Display(d) => Some(*d),
                _ => None,
            }),
    {
        match self {
            Value::Display(d) => Some(*d),
            _ => None,
        }
    }

    /// The value as a direction.
    pub fn to_direction(&self) -> (r: Option<Direction>)
        ensures
            r == (match self {
                Value::Direction(d) => Some(*d),
                _ => None,
            }),
    {
        match self {
            Value::Direction(d) => Some(*d),
            _ => None,
        }
    }

    /// The value as an owned string.
    pub fn into_string(self) -> (r: Option<String>)
        ensures
            r == (match self {
                Value::String(s) => Some(s),
                _ => None,
            }),
    {
        match self {
            Value::String(s) => Some(s),
            _ => None,
        }
    }
}

/// The value of an attribute or a text slot: a literal, or a path looked up later.
#[derive(Clone, Debug, PartialEq, Eq)]
pub enum ExpressionValue {
    /// A literal, shared between the instructions that use it.
    Static(Rc<Value>),
    /// A path, resolved against the data when the template is evaluated.
    Dyn(PathId),
}

/// Relies on `Rc::clone`: the result points at the same value.
#[verifier::external_body]
pub(crate) fn share(v: &Rc<Value>) -> (r: Rc<Value>)
    ensures
        r == *v,
{
    Rc::clone(v)
}

impl ExpressionValue {
    /// Another handle on the same value.
    pub fn duplicate(&self) -> (r: ExpressionValue)
        ensures
            r == *self,
    {
        match self {
            ExpressionValue::Static(v) => ExpressionValue::Static(share(v)),
            ExpressionValue::Dyn(p) => ExpressionValue::Dyn(*p),
        }
    }
}

} // verus!
