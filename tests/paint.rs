use anathema::{
    Constraints, LayoutCtx, LocalPos, Padding, PaintCtx, Pos, PositionCtx, Region, Screen,
    ScreenPos, Size, Style,
};

#[test]
fn put() {
    // Put a character on screen
    let size = Size::new(10, 5);
    let mut screen = Screen::new(size);
    let global_pos = Pos::new(3, 2);
    let mut ctx = PaintCtx::new(&mut screen, None).into_sized(Size::new(2, 2), global_pos);

    ctx.put('x', Style::reset(), LocalPos::new(1, 1));

    let (actual, _) = screen.buffer().get(ScreenPos::new(4, 3)).unwrap();
    assert_eq!('x', actual);
}

#[test]
fn clip() {
    // Put a character on screen
    let size = Size::new(25, 25);
    let mut screen = Screen::new(size);
    let global_pos = Pos::new(1, 1);
    let clipping_region = Region::new(global_pos, Pos::new(3, 3));
    let mut ctx =
        PaintCtx::new(&mut screen, Some(&clipping_region)).into_sized(Size::new(20, 20), global_pos);

    // Inside clipping space
    let first = LocalPos::new(1, 1);
    ctx.put('y', Style::reset(), first);

    // Outside clipping space
    let second = LocalPos::new(15, 15);
    ctx.put('z', Style::reset(), second);

    let index = ScreenPos::new(2, 2);
    let (actual, _) = screen.buffer().get(index).unwrap();
    assert_eq!('y', actual);

    let index = ScreenPos::new(16, 16);
    assert!(screen.buffer().get(index).is_none());
}

#[test]
fn put_outside_of_screen() {
    // Drawing outside of the context or the screen is ignored.
    let size = Size::new(1, 1);
    let mut screen = Screen::new(size);
    let mut ctx = PaintCtx::new(&mut screen, None).into_sized(Size::new(2, 2), Pos::zero());

    // Inside context, outside screen
    ctx.put('a', Style::reset(), LocalPos::new(2, 2));

    // Outside context
    ctx.put('b', Style::reset(), LocalPos::new(100, 100));

    assert!(screen.buffer().get(ScreenPos::new(2, 2)).is_none());
    assert!(screen.buffer().get(ScreenPos::new(100, 100)).is_none());
}

#[test]
fn put_advances_by_display_width() {
    let mut screen = Screen::new(Size::new(10, 2));
    let mut ctx = PaintCtx::new(&mut screen, None).into_sized(Size::new(10, 2), Pos::zero());
    assert_eq!(ctx.put('a', Style::new(), LocalPos::new(0, 0)), Some(LocalPos::new(1, 0)));
    assert_eq!(ctx.put('界', Style::new(), LocalPos::new(1, 0)), Some(LocalPos::new(3, 0)));
    assert_eq!(ctx.put('\n', Style::new(), LocalPos::new(3, 0)), Some(LocalPos::new(0, 1)));
    assert_eq!(ctx.put('\n', Style::new(), LocalPos::new(0, 1)), None);
}

#[test]
fn print_writes_each_character() {
    let mut screen = Screen::new(Size::new(5, 1));
    let mut ctx = PaintCtx::new(&mut screen, None).into_sized(Size::new(5, 1), Pos::new(1, 0));
    assert_eq!(ctx.print("hey", Style::new(), LocalPos::new(0, 0)), Some(()));
    let region = ctx.create_region();
    assert_eq!(region, Region::new(Pos::new(1, 0), Pos::new(6, 1)));
    assert_eq!(screen.buffer().get(ScreenPos::new(1, 0)).unwrap().0, 'h');
    assert_eq!(screen.buffer().get(ScreenPos::new(3, 0)).unwrap().0, 'y');
    assert!(screen.buffer().get(ScreenPos::new(0, 0)).is_none());
}

#[test]
fn padded_layout() {
    let mut constraints = Constraints::new(10, 4);
    constraints.min_width = 9;
    let mut ctx = LayoutCtx::new(constraints, false, Padding::new(2));
    let padded = ctx.padded_constraints();
    assert_eq!(padded.max_width, 6);
    assert_eq!(padded.min_width, 6);
    assert_eq!(padded.max_height, 0);
    assert_eq!(ctx.padding_size(), Size::new(4, 4));
    assert_eq!(ctx.padding(), Padding::new(2));
    assert_eq!(ctx.padding, Padding::zero());
    assert_eq!(ctx.padding_size(), Size::new(0, 0));
}

#[test]
fn padded_position() {
    let mut padding = Padding::zero();
    padding.left = 3;
    padding.top = 1;
    let ctx = PositionCtx::new(Pos::new(-2, 5), Size::new(1, 1), padding);
    assert_eq!(ctx.padded_position(), Pos::new(1, 6));
    let plain = PositionCtx::new(Pos::new(-2, 5), Size::new(1, 1), Padding::zero());
    assert_eq!(plain.padded_position(), Pos::new(-2, 5));
}
