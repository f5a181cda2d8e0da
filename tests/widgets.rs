use anathema::widgets::{Factory, FactoryError, Many};
use anathema::{Axis, Direction};

#[test]
fn register_and_find_factories() {
    let mut factory: Factory<u32> = Factory::new();
    assert_eq!(factory.register("border".to_string(), 1), Ok(()));
    assert_eq!(factory.register("text".to_string(), 2), Ok(()));
    assert_eq!(factory.exec("text"), Ok(&2));
    assert_eq!(factory.exec("border"), Ok(&1));
    assert_eq!(
        factory.exec("vstack"),
        Err(FactoryError::UnregisteredWidget("vstack".to_string()))
    );
}

#[test]
fn reserved_and_existing_names_are_refused() {
    let mut factory: Factory<u32> = Factory::new();
    assert_eq!(
        factory.register("for".to_string(), 1),
        Err(FactoryError::ReservedName("for".to_string()))
    );
    assert_eq!(
        factory.register("with".to_string(), 1),
        Err(FactoryError::ReservedName("with".to_string()))
    );
    assert_eq!(factory.register("text".to_string(), 1), Ok(()));
    assert_eq!(
        factory.register("text".to_string(), 3),
        Err(FactoryError::ExistingName("text".to_string()))
    );
    assert_eq!(factory.exec("text"), Ok(&1));
}

#[test]
fn many_keeps_its_settings() {
    let many = Many::new(Direction::Backward, Axis::Horizontal, 7, false);
    assert_eq!(many.offset(), 7);
    assert_eq!(many.direction, Direction::Backward);
    assert_eq!(many.axis, Axis::Horizontal);
}
