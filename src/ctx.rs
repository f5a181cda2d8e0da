//! Contexts handed to widgets while they lay out, position and paint.
use vstd::prelude::*;
use unicode_width::UnicodeWidthChar;
use crate::display::{lemma_cell_index, LocalPos, Pos, Region, Screen, ScreenPos, Size, Style};
use crate::text::chars_of;
use crate::values::Align;

verus! {

/// The columns that `c` takes on a terminal, or none for a control character.
pub uninterp spec fn char_width(c: char) -> Option<usize>;

/// Relies on `UnicodeWidthChar::width` of unicode-width: the display width
/// of `c`; control characters have none and printable ASCII takes one column.
#[verifier::external_body]
fn width_of(c: char) -> (r: Option<usize>)
    ensures
        r == char_width(c),
        ' ' <= c < '\u{7F}' ==> r == Some(1usize),
        c < ' ' || ('\u{7F}' <= c < '\u{A0}') ==> r is None,
{
    c.width()
}

/// A paint context that has no size yet.
#[derive(Debug, Copy, Clone)]
pub struct Unsized;

/// The size of a paint context and where its top left lies on the screen.
#[derive(Debug, Copy, Clone)]
pub struct WithSize {
    pub local_size: Size,
    pub global_pos: Pos,
}

impl WithSize {
    /// A new size and position.
    pub fn new(local_size: Size, global_pos: Pos) -> (r: WithSize)
        ensures
            r.local_size == local_size,
            r.global_pos == global_pos,
    {
        WithSize { local_size, global_pos }
    }
}

/// Paints in local coordinates, which are mapped to screen cells and clipped.
pub struct PaintCtx<'screen, S> {
    screen: &'screen mut Screen,
    pub clip: Option<&'screen Region>,
    pub state: S,
}

/// The screen cell that local position `l` maps to from global position `g`,
/// if it lies on a screen of size `sw` by `sh`.
pub open spec fn screen_cell(g: Pos, l: LocalPos, sw: usize, sh: usize) -> Option<ScreenPos> {
    let sx = g.x + l.x;
    let sy = g.y + l.y;
    if 0 <= sx < sw && 0 <= sy < sh && sx <= u16::MAX && sy <= u16::MAX {
        Some(ScreenPos { x: sx as u16, y: sy as u16 })
    } else {
        None
    }
}

/// The start of the line below `p`, if it lies within height `h`.
pub open spec fn next_line(p: LocalPos, h: usize) -> Option<LocalPos> {
    if p.y + 1 >= h {
        None
    } else {
        Some(LocalPos { x: 0, y: (p.y + 1) as usize })
    }
}

/// `a + b`, or the largest `usize` if that does not fit.
pub open spec fn sat_add(a: usize, b: usize) -> usize {
    if a + b > usize::MAX {
        usize::MAX
    } else {
        (a + b) as usize
    }
}

impl<'screen, S> PaintCtx<'screen, S> {
    /// The screen as it stands.
    pub closed spec fn screen_view(&self) -> Screen {
        *self.screen
    }

    /// The clip region.
    pub closed spec fn clip_view(&self) -> Option<&'screen Region> {
        self.clip
    }

    /// The size state.
    pub closed spec fn state_view(&self) -> S {
        self.state
    }
}

/// The cells after `put` places `c` at local position `p`, and the position
/// that it returns.
pub open spec fn put_outcome<'a>(
    clip: Option<&'a Region>,
    st: WithSize,
    sw: usize,
    sh: usize,
    cells: Seq<Option<(char, Style)>>,
    c: char,
    style: Style,
    p: LocalPos,
) -> (Seq<Option<(char, Style)>>, Option<LocalPos>) {
    let g = st.global_pos;
    let size = st.local_size;
    let width = match char_width(c) {
        Some(w) => w,
        None => 0usize,
    };
    let next = LocalPos { x: sat_add(p.x, width), y: p.y };
    let clipped = match clip {
        Some(region) => !region.spec_contains(g.x + p.x, g.y + p.y),
        None => false,
    };
    let cell = screen_cell(g, p, sw, sh);
    if clipped {
        (cells, Some(next))
    } else if c == '\n' {
        (cells, next_line(p, size.height))
    } else if p.x < size.width && p.y < size.height && cell is Some {
        (cells.update(cell->0.y * sw + cell->0.x, Some((c, style))), Some(next))
    } else {
        (cells, None)
    }
}

/// The cells after `print` places the characters `cs` one after another
/// from `p`; a character that gives no next position leaves it where it was.
pub open spec fn print_outcome<'a>(
    clip: Option<&'a Region>,
    st: WithSize,
    sw: usize,
    sh: usize,
    cells: Seq<Option<(char, Style)>>,
    cs: Seq<char>,
    style: Style,
    p: LocalPos,
) -> Seq<Option<(char, Style)>>
    decreases cs.len(),
{
    if cs.len() == 0 {
        cells
    } else {
        let (after, r) = put_outcome(clip, st, sw, sh, cells, cs[0], style, p);
        print_outcome(
            clip,
            st,
            sw,
            sh,
            after,
            cs.drop_first(),
            style,
            match r {
                Some(q) => q,
                None => p,
            },
        )
    }
}

impl<'screen> PaintCtx<'screen, Unsized> {
    /// A context over `screen`, clipped to `clip` if given.
    pub fn new(screen: &'screen mut Screen, clip: Option<&'screen Region>) -> (r: PaintCtx<
        'screen,
        Unsized,
    >)
        ensures
            r.screen_view() == *old(screen),
            r.clip_view() == clip,
    {
        PaintCtx { screen, clip, state: Unsized }
    }

    /// A sized context at `global_pos`.
    pub fn into_sized(self, size: Size, global_pos: Pos) -> (r: PaintCtx<'screen, WithSize>)
        ensures
            r.screen_view() == self.screen_view(),
            r.clip_view() == self.clip_view(),
            r.state_view().local_size == size,
            r.state_view().global_pos == global_pos,
    {
        PaintCtx { screen: self.screen, clip: self.clip, state: WithSize::new(size, global_pos) }
    }
}

impl<'screen> PaintCtx<'screen, WithSize> {
    /// An unsized context over the same screen and clip.
    pub fn to_unsized(&mut self) -> (r: PaintCtx<'_, Unsized>)
        ensures
            r.screen_view() == old(self).screen_view(),
            r.clip_view() == old(self).clip_view(),
    {
        PaintCtx::new(self.screen, self.clip)
    }

    /// An unsized context over the same screen, clipped to `clip`.
    pub fn sub_context<'a>(&'a mut self, clip: Option<&'a Region>) -> (r: PaintCtx<'a, Unsized>)
        ensures
            r.screen_view() == old(self).screen_view(),
            r.clip_view() == clip,
    {
        PaintCtx { screen: self.screen, clip, state: Unsized }
    }

    /// The screen region that the context covers.
    pub fn create_region(&self) -> (r: Region)
        requires
            self.state_view().local_size.width <= i32::MAX,
            self.state_view().local_size.height <= i32::MAX,
            self.state_view().global_pos.x + self.state_view().local_size.width <= i32::MAX,
            self.state_view().global_pos.y + self.state_view().local_size.height <= i32::MAX,
        ensures
            r.from == self.state_view().global_pos,
            r.to.x == self.state_view().global_pos.x + self.state_view().local_size.width,
            r.to.y == self.state_view().global_pos.y + self.state_view().local_size.height,
    {
        let g = self.state.global_pos;
        let s = self.state.local_size;
        Region::new(g, Pos::new(g.x + s.width as i32, g.y + s.height as i32))
    }

    /// Whether local position `l`, moved to global coordinates, lies inside `clip`.
    fn clip(&self, l: LocalPos, clip: &Region) -> (r: bool)
        ensures
            r == clip.spec_contains(self.state_view().global_pos.x + l.x, self.state_view().global_pos.y + l.y),
    {
        let g = self.state.global_pos;
        let x = add_offset(g.x, l.x);
        let y = add_offset(g.y, l.y);
        match (x, y) {
            (Some(x), Some(y)) => clip.from.x as i64 <= x && x < clip.to.x as i64
                && clip.from.y as i64 <= y && y < clip.to.y as i64,
            _ => false,
        }
    }

    fn pos_inside_local_region(&self, pos: LocalPos) -> (r: bool)
        ensures
            r == (pos.x < self.state_view().local_size.width && pos.y < self.state_view().local_size.height),
    {
        pos.x < self.state.local_size.width && pos.y < self.state.local_size.height
    }

    /// The screen cell of a local position, if it lies on the screen.
    fn screen_pos_of(&self, local: LocalPos) -> (r: Option<ScreenPos>)
        requires
            self.screen_view().wf(),
        ensures
            r == screen_cell(
                self.state_view().global_pos,
                local,
                self.screen_view().size_view().width,
                self.screen_view().size_view().height,
            ),
    {
        let size = self.screen.size();
        let g = self.state.global_pos;
        let x = add_offset(g.x, local.x);
        let y = add_offset(g.y, local.y);
        match (x, y) {
            (Some(x), Some(y)) => {
                if x < 0 || y < 0 || x as u64 >= size.width as u64 || y as u64 >= size.height as u64
                    || x > u16::MAX as i64 || y > u16::MAX as i64 {
                    None
                } else {
                    Some(ScreenPos { x: x as u16, y: y as u16 })
                }
            },
            _ => None,
        }
    }

    fn newline(&self, pos: LocalPos) -> (r: Option<LocalPos>)
        ensures
            r == next_line(pos, self.state_view().local_size.height),
    {
        if pos.y >= self.state.local_size.height || self.state.local_size.height - pos.y <= 1 {
            None
        } else {
            Some(LocalPos { x: 0, y: pos.y + 1 })
        }
    }

    /// Places `c` at local position `input_pos` and returns where the next
    /// character goes. Outside the clip nothing is placed and the cursor
    /// moves on; a newline moves to the next line; outside the context or
    /// the screen nothing is placed and there is no next position.
    pub fn put(&mut self, c: char, style: Style, input_pos: LocalPos) -> (r: Option<LocalPos>)
        requires
            old(self).screen_view().wf(),
        ensures
            final(self).screen_view().wf(),
            final(self).state_view() == old(self).state_view(),
            final(self).clip_view() == old(self).clip_view(),
            final(self).screen_view().size_view() == old(self).screen_view().size_view(),
            ({
                let g = old(self).state_view().global_pos;
                let size = old(self).state_view().local_size;
                let sw = old(self).screen_view().size_view().width;
                let sh = old(self).screen_view().size_view().height;
                let width = match char_width(c) {
                    Some(w) => w,
                    None => 0usize,
                };
                let next = LocalPos { x: sat_add(input_pos.x, width), y: input_pos.y };
                let clipped = match old(self).clip_view() {
                    Some(region) => !region.spec_contains(g.x + input_pos.x, g.y + input_pos.y),
                    None => false,
                };
                let cell = screen_cell(g, input_pos, sw, sh);
                let placed = !clipped && c != '\n' && input_pos.x < size.width && input_pos.y
                    < size.height && cell is Some;
                &&& placed ==> r == Some(next) && final(self).screen_view().buffer_view().cells()
                    == old(self).screen_view().buffer_view().cells().update(
                    cell->0.y * sw + cell->0.x,
                    Some((c, style)),
                )
                &&& !placed ==> final(self).screen_view().buffer_view().cells()
                    == old(self).screen_view().buffer_view().cells()
                &&& clipped ==> r == Some(next)
                &&& !clipped && c == '\n' ==> r == next_line(input_pos, size.height)
                &&& !clipped && c != '\n' && !placed ==> r is None
            }),
            (final(self).screen_view().buffer_view().cells(), r) == put_outcome(
                old(self).clip_view(),
                old(self).state_view(),
                old(self).screen_view().size_view().width,
                old(self).screen_view().size_view().height,
                old(self).screen_view().buffer_view().cells(),
                c,
                style,
                input_pos,
            ),
    {
        let width = match width_of(c) {
            Some(w) => w,
            None => 0,
        };
        let next = LocalPos { x: input_pos.x.saturating_add(width), y: input_pos.y };
        if let Some(clip) = self.clip {
            if !self.clip(input_pos, clip) {
                return Some(next);
            }
        }
        if c == '\n' {
            return self.newline(input_pos);
        }
        if !self.pos_inside_local_region(input_pos) {
            return None;
        }
        let screen_pos = match self.screen_pos_of(input_pos) {
            Some(p) => p,
            None => {
                return None;
            },
        };
        self.screen.put(c, style, screen_pos);
        Some(next)
    }

    /// Places the characters of `s` one after another from `pos`.
    pub fn print(&mut self, s: &str, style: Style, pos: LocalPos) -> (r: Option<()>)
        requires
            old(self).screen_view().wf(),
        ensures
            final(self).screen_view().wf(),
            final(self).state_view() == old(self).state_view(),
            final(self).clip_view() == old(self).clip_view(),
            final(self).screen_view().size_view() == old(self).screen_view().size_view(),
            r == Some(()),
            final(self).screen_view().buffer_view().cells() == print_outcome(
                old(self).clip_view(),
                old(self).state_view(),
                old(self).screen_view().size_view().width,
                old(self).screen_view().size_view().height,
                old(self).screen_view().buffer_view().cells(),
                s@,
                style,
                pos,
            ),
    {
        let chars = chars_of(s);
        let ghost p0 = pos;
        let mut pos = pos;
        let mut i: usize = 0;
        let ghost clip = old(self).clip_view();
        let ghost st = old(self).state_view();
        let ghost sw = old(self).screen_view().size_view().width;
        let ghost sh = old(self).screen_view().size_view().height;
        let ghost total = print_outcome(clip, st, sw, sh, old(self).screen_view().buffer_view().cells(), s@, style, p0);
        assert(chars@.skip(0) =~= chars@);
        while i < chars.len()
            invariant
                self.screen_view().wf(),
                self.state_view() == old(self).state_view(),
                self.clip_view() == old(self).clip_view(),
                self.screen_view().size_view() == old(self).screen_view().size_view(),
                clip == old(self).clip_view(),
                st == old(self).state_view(),
                sw == old(self).screen_view().size_view().width,
                sh == old(self).screen_view().size_view().height,
                chars@ == s@,
                i <= chars@.len(),
                total == print_outcome(clip, st, sw, sh, self.screen_view().buffer_view().cells(), chars@.skip(i as int), style, pos),
            decreases chars@.len() - i,
        {
            let ghost before = self.screen_view().buffer_view().cells();
            let ghost cs = chars@.skip(i as int);
            assert(cs[0] == chars@[i as int]);
            assert(cs.drop_first() =~= chars@.skip(i + 1));
            if let Some(p) = self.put(chars[i], style, pos) {
                pos = p;
            }
            i += 1;
        }
        assert(chars@.skip(i as int) =~= Seq::<char>::empty());
        Some(())
    }
}

/// `base + offset` as an `i64`, if the offset fits one.
fn add_offset(base: i32, offset: usize) -> (r: Option<i64>)
    ensures
        offset <= i64::MAX - i32::MAX ==> r == Some((base + offset) as i64),
        r is Some ==> r->0 == base + offset,
        r is None ==> base + offset > i32::MAX,
{
    if offset as u64 > (i64::MAX - i32::MAX as i64) as u64 {
        None
    } else {
        Some(base as i64 + offset as i64)
    }
}

/// Bounds on the size that a widget may take.
#[derive(Debug, Copy, Clone, PartialEq, Eq, Structural)]
pub struct Constraints {
    pub min_width: usize,
    pub min_height: usize,
    pub max_width: usize,
    pub max_height: usize,
}

impl Constraints {
    /// At most `max_width` by `max_height`, no minimum.
    pub fn new(max_width: usize, max_height: usize) -> (r: Constraints)
        ensures
            r == (Constraints { min_width: 0, min_height: 0, max_width, max_height }),
    {
        Constraints { min_width: 0, min_height: 0, max_width, max_height }
    }
}

/// Space kept free inside a widget's edges.
#[derive(Debug, Copy, Clone, PartialEq, Eq, Structural)]
pub struct Padding {
    pub top: usize,
    pub right: usize,
    pub bottom: usize,
    pub left: usize,
}

impl Padding {
    /// The same padding on every side.
    pub fn new(padding: usize) -> (r: Padding)
        ensures
            r == (Padding { top: padding, right: padding, bottom: padding, left: padding }),
    {
        Padding { top: padding, right: padding, bottom: padding, left: padding }
    }

    /// No padding.
    pub fn zero() -> (r: Padding)
        ensures
            r == (Padding { top: 0, right: 0, bottom: 0, left: 0 }),
    {
        Padding { top: 0, right: 0, bottom: 0, left: 0 }
    }

    /// Whether every side is zero.
    pub fn no_padding(&self) -> (r: bool)
        ensures
            r == (self.top == 0 && self.right == 0 && self.bottom == 0 && self.left == 0),
    {
        self.top == 0 && self.right == 0 && self.bottom == 0 && self.left == 0
    }

    /// Returns the padding and leaves none behind.
    pub fn take(&mut self) -> (r: Padding)
        ensures
            r == *old(self),
            *final(self) == Padding::spec_zero(),
    {
        let p = *self;
        *self = Padding::zero();
        p
    }

    pub open spec fn no_padding_spec(&self) -> bool {
        self.top == 0 && self.right == 0 && self.bottom == 0 && self.left == 0
    }

    pub open spec fn spec_zero() -> Padding {
        Padding { top: 0, right: 0, bottom: 0, left: 0 }
    }
}

/// What a widget is given to lay itself out.
#[derive(Debug, Copy, Clone)]
pub struct LayoutCtx {
    pub constraints: Constraints,
    pub force_layout: bool,
    pub padding: Padding,
}

impl LayoutCtx {
    /// A new layout context.
    pub fn new(constraints: Constraints, force_layout: bool, padding: Padding) -> (r: LayoutCtx)
        ensures
            r.constraints == constraints,
            r.force_layout == force_layout,
            r.padding == padding,
    {
        LayoutCtx { constraints, force_layout, padding }
    }

    /// Takes the padding, leaving none.
    pub fn padding(&mut self) -> (r: Padding)
        ensures
            r == old(self).padding,
            final(self).padding == Padding::spec_zero(),
            final(self).constraints == old(self).constraints,
            final(self).force_layout == old(self).force_layout,
    {
        self.padding.take()
    }

    /// The constraints with the padding taken off the maxima (never below
    /// zero), and the minima lowered to fit under them.
    pub fn padded_constraints(&self) -> (r: Constraints)
        requires
            self.padding.left + self.padding.right <= usize::MAX,
            self.padding.top + self.padding.bottom <= usize::MAX,
        ensures
            self.padding.no_padding_spec() ==> r == self.constraints,
            !self.padding.no_padding_spec() ==> ({
                let c = self.constraints;
                let p = self.padding;
                let max_w = if c.max_width >= p.left + p.right {
                    c.max_width - (p.left + p.right)
                } else {
                    0
                };
                let max_h = if c.max_height >= p.top + p.bottom {
                    c.max_height - (p.top + p.bottom)
                } else {
                    0
                };
                r == (Constraints {
                    min_width: if c.min_width <= max_w {
                        c.min_width
                    } else {
                        max_w as usize
                    },
                    min_height: if c.min_height <= max_h {
                        c.min_height
                    } else {
                        max_h as usize
                    },
                    max_width: max_w as usize,
                    max_height: max_h as usize,
                })
            }),
    {
        if !self.padding.no_padding() {
            let padding = self.padding;
            let mut constraints = self.constraints;
            constraints.max_width = constraints.max_width.saturating_sub(padding.left + padding.right);
            constraints.min_width = if constraints.min_width <= constraints.max_width {
                constraints.min_width
            } else {
                constraints.max_width
            };
            constraints.max_height = constraints.max_height.saturating_sub(
                padding.top + padding.bottom,
            );
            constraints.min_height = if constraints.min_height <= constraints.max_height {
                constraints.min_height
            } else {
                constraints.max_height
            };
            constraints
        } else {
            self.constraints
        }
    }

    /// The room that the padding takes.
    pub fn padding_size(&self) -> (r: Size)
        requires
            self.padding.left + self.padding.right <= usize::MAX,
            self.padding.top + self.padding.bottom <= usize::MAX,
        ensures
            r.width == self.padding.left + self.padding.right,
            r.height == self.padding.top + self.padding.bottom,
    {
        if !self.padding.no_padding() {
            let padding = self.padding;
            Size::new(padding.left + padding.right, padding.top + padding.bottom)
        } else {
            Size::zero()
        }
    }
}

/// What a widget is given to position its children.
#[derive(Debug, Copy, Clone)]
pub struct PositionCtx {
    pub pos: Pos,
    pub size: Size,
    pub alignment: Option<Align>,
    pub padding: Padding,
}

impl PositionCtx {
    /// A new position context, without alignment.
    pub fn new(pos: Pos, size: Size, padding: Padding) -> (r: PositionCtx)
        ensures
            r.pos == pos,
            r.size == size,
            r.alignment is None,
            r.padding == padding,
    {
        PositionCtx { pos, size, alignment: None, padding }
    }

    /// The position moved in by the left and top padding.
    pub fn padded_position(&self) -> (r: Pos)
        requires
            self.pos.x + self.padding.left <= i32::MAX,
            self.pos.y + self.padding.top <= i32::MAX,
        ensures
            r.x == self.pos.x + self.padding.left,
            r.y == self.pos.y + self.padding.top,
    {
        if self.padding.no_padding() {
            self.pos
        } else {
            let padding = self.padding;
            let x = self.pos.x as i64 + padding.left as i64;
            let y = self.pos.y as i64 + padding.top as i64;
            Pos::new(x as i32, y as i32)
        }
    }
}

} // verus!
