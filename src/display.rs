//! Sizes, positions, regions and the character grid that widgets paint on.
use vstd::prelude::*;
use crate::values::Color;

verus! {

/// A width and a height.
#[derive(Debug, Copy, Clone, PartialEq, Eq, Structural)]
pub struct Size {
    pub width: usize,
    pub height: usize,
}

impl Size {
    /// A new size.
    pub fn new(width: usize, height: usize) -> (r: Size)
        ensures
            r.width == width,
            r.height == height,
    {
        Size { width, height }
    }

    /// No width, no height.
    pub fn zero() -> (r: Size)
        ensures
            r.width == 0,
            r.height == 0,
    {
        Size { width: 0, height: 0 }
    }
}

/// A cell of the screen; the top left is `0, 0`.
#[derive(Debug, Copy, Clone, PartialEq, Eq, Structural, Hash)]
pub struct ScreenPos {
    pub x: u16,
    pub y: u16,
}

impl ScreenPos {
    /// A new screen position.
    pub fn new(x: u16, y: u16) -> (r: ScreenPos)
        ensures
            r.x == x,
            r.y == y,
    {
        ScreenPos { x, y }
    }
}

/// A position in global coordinates, which may lie off the screen.
#[derive(Debug, Copy, Clone, PartialEq, Eq, Structural, Hash)]
pub struct Pos {
    pub x: i32,
    pub y: i32,
}

impl Pos {
    /// A new position.
    pub fn new(x: i32, y: i32) -> (r: Pos)
        ensures
            r.x == x,
            r.y == y,
    {
        Pos { x, y }
    }

    /// The origin.
    pub fn zero() -> (r: Pos)
        ensures
            r.x == 0,
            r.y == 0,
    {
        Pos { x: 0, y: 0 }
    }
}

/// A position relative to the top left of a widget.
#[derive(Debug, Copy, Clone, PartialEq, Eq, Structural, Hash)]
pub struct LocalPos {
    pub x: usize,
    pub y: usize,
}

impl LocalPos {
    /// A new local position.
    pub fn new(x: usize, y: usize) -> (r: LocalPos)
        ensures
            r.x == x,
            r.y == y,
    {
        LocalPos { x, y }
    }
}

/// The cells from `from` (inclusive) to `to` (exclusive) on each axis.
#[derive(Debug, Copy, Clone, PartialEq, Eq, Structural)]
pub struct Region {
    pub from: Pos,
    pub to: Pos,
}

impl Region {
    /// A new region.
    pub fn new(from: Pos, to: Pos) -> (r: Region)
        ensures
            r.from == from,
            r.to == to,
    {
        Region { from, to }
    }

    pub open spec fn spec_contains(&self, x: int, y: int) -> bool {
        self.from.x <= x < self.to.x && self.from.y <= y < self.to.y
    }

    /// Whether the region holds `pos`.
    pub fn contains(&self, pos: Pos) -> (r: bool)
        ensures
            r == self.spec_contains(pos.x as int, pos.y as int),
    {
        self.from.x <= pos.x && pos.x < self.to.x && self.from.y <= pos.y && pos.y < self.to.y
    }
}

/// Colours and text attributes of a cell.
#[derive(Debug, Copy, Clone, PartialEq, Eq, Structural)]
pub struct Style {
    pub fg: Option<Color>,
    pub bg: Option<Color>,
    /// Attribute bits: bold, dim, italic and so on.
    pub attributes: u16,
}

impl Style {
    /// No colours and no attributes.
    pub fn new() -> (r: Style)
        ensures
            r.fg is None,
            r.bg is None,
            r.attributes == 0,
    {
        Style { fg: None, bg: None, attributes: 0 }
    }

    /// The terminal's own colours, attributes off.
    pub fn reset() -> (r: Style)
        ensures
            r.fg == Some(Color::Reset),
            r.bg == Some(Color::Reset),
            r.attributes == 0,
    {
        Style { fg: Some(Color::Reset), bg: Some(Color::Reset), attributes: 0 }
    }
}

/// A grid of cells, row by row; an empty cell holds nothing.
pub struct Buffer {
    size: Size,
    cells: Vec<Option<(char, Style)>>,
}

impl Buffer {
    pub closed spec fn size_view(&self) -> Size {
        self.size
    }

    /// The cells, row by row.
    pub closed spec fn cells(&self) -> Seq<Option<(char, Style)>> {
        self.cells@
    }

    pub closed spec fn wf(&self) -> bool {
        &&& self.cells@.len() == self.size.width * self.size.height
        &&& self.size.width * self.size.height <= usize::MAX
    }

    /// The size of the grid.
    pub fn size(&self) -> (r: Size)
        ensures
            r == self.size_view(),
    {
        self.size
    }

    /// The cell at `pos`, if it lies in the grid and holds a character.
    pub fn get(&self, pos: ScreenPos) -> (r: Option<(char, Style)>)
        requires
            self.wf(),
        ensures
            (pos.x as int) < self.size_view().width && (pos.y as int) < self.size_view().height
                ==> r == self.cells()[pos.y * self.size_view().width + pos.x],
            !((pos.x as int) < self.size_view().width && (pos.y as int) < self.size_view().height)
                ==> r is None,
    {
        let x = pos.x as usize;
        let y = pos.y as usize;
        if x >= self.size.width || y >= self.size.height {
            return None;
        }
        proof {
            lemma_cell_index(x as int, y as int, self.size.width as int, self.size.height as int);
        }
        self.cells[y * self.size.width + x]
    }
}

pub proof fn lemma_cell_index(x: int, y: int, w: int, h: int)
    requires
        0 <= x < w,
        0 <= y < h,
    ensures
        0 <= y * w + x < w * h,
{
    assert(y * w + x < w * h) by (nonlinear_arith)
        requires
            0 <= x < w,
            0 <= y < h,
    ;
    assert(0 <= y * w) by (nonlinear_arith)
        requires
            0 <= y,
            0 <= w,
    ;
}

/// The screen: a buffer of its size.
pub struct Screen {
    size: Size,
    buffer: Buffer,
}

impl Screen {
    pub closed spec fn size_view(&self) -> Size {
        self.size
    }

    pub closed spec fn buffer_view(&self) -> Buffer {
        self.buffer
    }

    pub closed spec fn wf(&self) -> bool {
        self.buffer.wf() && self.buffer.size == self.size
    }

    /// An empty screen of the given size.
    pub fn new(size: Size) -> (r: Screen)
        requires
            size.width * size.height <= usize::MAX,
        ensures
            r.wf(),
            r.size_view() == size,
            r.buffer_view().cells() == Seq::new(
                (size.width * size.height) as nat,
                |i: int| None::<(char, Style)>,
            ),
    {
        let n = size.width * size.height;
        let mut cells: Vec<Option<(char, Style)>> = Vec::new();
        let mut i: usize = 0;
        while i < n
            invariant
                i <= n,
                cells@ == Seq::new(i as nat, |k: int| None::<(char, Style)>),
            decreases n - i,
        {
            cells.push(None);
            i += 1;
            assert(cells@ =~= Seq::new(i as nat, |k: int| None::<(char, Style)>));
        }
        Screen { size, buffer: Buffer { size, cells } }
    }

    /// The size of the screen.
    pub fn size(&self) -> (r: Size)
        ensures
            r == self.size_view(),
    {
        self.size
    }

    /// The cells.
    pub fn buffer(&self) -> (r: &Buffer)
        ensures
            *r == self.buffer_view(),
            self.wf() ==> r.wf(),
            self.wf() ==> r.size_view() == self.size_view(),
    {
        &self.buffer
    }

    /// Puts `c` in the cell at `pos`.
    pub fn put(&mut self, c: char, style: Style, pos: ScreenPos)
        requires
            old(self).wf(),
            (pos.x as int) < old(self).size_view().width,
            (pos.y as int) < old(self).size_view().height,
        ensures
            final(self).wf(),
            final(self).size_view() == old(self).size_view(),
            final(self).buffer_view().size_view() == old(self).buffer_view().size_view(),
            final(self).buffer_view().cells() == old(self).buffer_view().cells().update(
                pos.y * old(self).size_view().width + pos.x,
                Some((c, style)),
            ),
    {
        let x = pos.x as usize;
        let y = pos.y as usize;
        proof {
            lemma_cell_index(x as int, y as int, self.size.width as int, self.size.height as int);
        }
        let i = y * self.size.width + x;
        self.buffer.cells.set(i, Some((c, style)));
    }
}

} // verus!
