//! Compiles indentation-structured widget templates into expression trees.
//!
//! Text is split into tokens, tokens are parsed into a flat instruction stream
//! whose block instructions carry the length of their flattened subtree, and
//! the tree builder expands that stream back into nested expressions.
mod text;
pub mod error;
pub mod lexer;
pub mod attribute;
pub mod instruction;
pub mod expression;
pub mod vm;
pub mod parser;
pub mod slab;
pub mod display;
pub mod ctx;
pub mod scope;
pub mod widgets;
pub mod values;
pub mod constants;

pub use constants::Constants;
pub use ctx::{Constraints, LayoutCtx, Padding, PaintCtx, PositionCtx, Unsized, WithSize};
pub use display::{Buffer, LocalPos, Pos, Region, Screen, ScreenPos, Size, Style};
pub use error::{Error, ErrorKind};
pub use expression::{Attributes, Branch, Expression, Loop, SingleNode};
pub use instruction::Instruction;
pub use parser::{compile, templates};
pub use slab::Slab;
pub use vm::VirtualMachine;
pub use values::{
    Align, Axis, Color, Direction, Display, ExpressionValue, Fragment, Number, Path, PathId,
    StringId, TextId, TextPath, Value, ValueId,
};
