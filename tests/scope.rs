use std::rc::Rc;

use anathema::scope::{Context, NodeId, Scope, ScopeValue, State};
use anathema::{Path, Value};

struct TestState;

impl State for TestState {
    fn get(&self, path: &Path, _node_id: Option<&NodeId>) -> Option<Rc<Value>> {
        let inner_name = Path::Key("inner".into()).compose(Path::Key("name".into()));
        if *path == inner_name {
            Some(Rc::new(Value::String("Fiddle McStick".into())))
        } else if *path == Path::Key("name".into()) {
            Some(Rc::new(Value::String("Dirk Gently".into())))
        } else {
            None
        }
    }
}

fn key(s: &str) -> Path {
    Path::Key(s.to_string())
}

#[test]
fn scope_value() {
    let mut scope = Scope::new(None);
    scope.scope(key("value"), ScopeValue::Static(Rc::new(Value::String("hello world".into()))));

    let mut inner = scope.reparent();

    inner.scope(key("value"), ScopeValue::Static(Rc::new(Value::String("inner hello".into()))));
    let lhs = inner.lookup(&key("value")).unwrap();
    assert_eq!(*lhs, Value::String("inner hello".into()));

    let lhs = scope.lookup(&key("value")).unwrap();
    assert_eq!(*lhs, Value::String("hello world".into()));
}

#[test]
fn dynamic_attribute() {
    let state = TestState;
    let root = Scope::new(None);
    let ctx = Context::new(&state, &root);
    let id = NodeId(vec![123]);
    let name = ctx.lookup(&key("name"), Some(&id)).unwrap();
    assert_eq!(*name, Value::String("Dirk Gently".into()));
}

#[test]
fn context_lookup() {
    let state = TestState;
    let scope = Scope::new(None);
    let context = Context::new(&state, &scope);

    let path = key("inner").compose(key("name"));
    let value = context.lookup(&path, None).unwrap();
    assert!(matches!(&*value, Value::String(s) if s == "Fiddle McStick"));
}

#[test]
fn dynamic_binding_follows_path_and_stops_on_cycles() {
    let mut scope = Scope::new(None);
    scope.scope(key("a"), ScopeValue::Dyn(key("b")));
    scope.scope(key("b"), ScopeValue::Static(Rc::new(Value::Bool(true))));
    assert_eq!(*scope.lookup(&key("a")).unwrap(), Value::Bool(true));

    scope.scope(key("c"), ScopeValue::Dyn(key("d")));
    scope.scope(key("d"), ScopeValue::Dyn(key("c")));
    assert!(scope.lookup(&key("c")).is_none());
    assert!(scope.lookup(&key("missing")).is_none());
}

#[test]
fn scope_shadows_state() {
    let state = TestState;
    let mut scope = Scope::new(None);
    scope.scope(key("name"), ScopeValue::Static(Rc::new(Value::String("local".into()))));
    let ctx = Context::new(&state, &scope);
    assert_eq!(*ctx.lookup(&key("name"), None).unwrap(), Value::String("local".into()));
}
