use ogma::hir::{Block, Context, Environment, Type, Value};
use ogma::node::Node;

#[test]
fn done_always_returns_ok() {
    let cx = Context {
        env: Environment {},
        root: ".".to_string(),
        wd: ".".to_string(),
    };
    let (v, _env) = cx.done(Value::Bool(true)).unwrap();
    assert!(matches!(v, Value::Bool(true)));

    let cx = Context {
        env: Environment {},
        root: ".".to_string(),
        wd: ".".to_string(),
    };
    let (v, _env) = cx.done_o(42u8).unwrap();
    assert_eq!(v, 42u8);
}

#[test]
fn block_queries() {
    let mut blk = Block {
        in_ty: Type::Str,
        args: Vec::new(),
        flags: vec!["a".to_string(), "b".to_string(), "a".to_string()],
    };
    assert_eq!(*blk.in_ty(), Type::Str);
    assert_eq!(blk.args_len(), 0);

    // a named flag: the first match is removed from the stack
    assert_eq!(blk.get_flag(Some("a")), Some("a".to_string()));
    assert_eq!(blk.flags, vec!["b".to_string(), "a".to_string()]);

    // no name: the top of the stack is popped
    assert_eq!(blk.get_flag(None), Some("a".to_string()));
    assert_eq!(blk.get_flag(Some("zzz")), None);
    assert_eq!(blk.get_flag(None), Some("b".to_string()));
    assert_eq!(blk.get_flag(None), None);
}

#[test]
fn node_accessors() {
    let n = Node::Type {
        name: "TypeA".to_string(),
        imports: vec![7],
    };
    assert!(n.is_type());
    assert!(!n.is_boundary());
    assert!(!n.is_impl());
    assert_eq!(n.name(), "TypeA");
    assert!(n.eq_type("TypeA"));
    assert!(!n.eq_type("TypeB"));
    assert!(!n.eq_boundary("TypeA"));
    assert!(!n.eq_impl("TypeA"));
    assert_eq!(n.imports().unwrap(), &vec![7usize]);
    assert!(n.exports().is_none());

    let b = Node::Boundary {
        name: "foo".to_string(),
        exports: vec![1, 2],
    };
    assert!(b.is_boundary());
    assert!(b.eq_boundary("foo"));
    assert!(!b.eq_boundary("bar"));
    assert_eq!(b.exports().unwrap(), &vec![1usize, 2usize]);
    assert!(b.imports().is_none());
}
