use lin_lambda::ast::{PrimType, Qual, TypeExpr};
use lin_lambda::env::{first_unconsumed, TypeEnv};

fn lin_bool() -> TypeExpr {
    TypeExpr { qual: Qual::Lin, prim: PrimType::Bool }
}

fn un_bool() -> TypeExpr {
    TypeExpr { qual: Qual::Un, prim: PrimType::Bool }
}

#[test]
fn new_environment_binds_nothing() {
    let mut env = TypeEnv::new();
    assert!(env.get_mut("x").is_none());
    assert_eq!(env.pop(0).0.map(|f| f.len()), None);
    assert!(env == TypeEnv::new());
}

#[test]
fn insert_without_a_frame_does_nothing() {
    let mut env = TypeEnv::new();
    env.insert("x".to_string(), lin_bool());
    env.insert("y".to_string(), un_bool());
    assert!(env.get_mut("x").is_none());
    assert!(env.get_mut("y").is_none());
    assert!(env == TypeEnv::new());
}

#[test]
fn push_insert_lookup_pop() {
    let mut env = TypeEnv::new();
    env.push(1);
    env.insert("x".to_string(), lin_bool());
    env.insert("y".to_string(), un_bool());
    assert_eq!(env.get_mut("x").map(|c| c.clone()), Some(Some(lin_bool())));
    assert_eq!(env.get_mut("y").map(|c| c.clone()), Some(Some(un_bool())));
    assert!(env.get_mut("z").is_none());
    let (lin, un) = env.pop(1);
    let lin = lin.expect("the linear frame");
    let un = un.expect("the unrestricted frame");
    assert_eq!(lin.len(), 1);
    assert_eq!(lin[0].name, "x");
    assert_eq!(lin[0].cell, Some(lin_bool()));
    assert_eq!(un.len(), 1);
    assert_eq!(un[0].name, "y");
    assert_eq!(un[0].cell, Some(un_bool()));
    assert!(env == TypeEnv::new());
    let (lin, un) = env.pop(1);
    assert!(lin.is_none() && un.is_none());
}

#[test]
fn cell_can_be_emptied_through_the_reference() {
    let mut env = TypeEnv::new();
    env.push(1);
    env.insert("x".to_string(), lin_bool());
    *env.get_mut("x").unwrap() = None;
    assert_eq!(env.get_mut("x").map(|c| c.clone()), Some(None));
    let (lin, _) = env.pop(1);
    assert_eq!(first_unconsumed(&lin.unwrap()), None);
}

#[test]
fn first_unconsumed_goes_by_the_order_of_binding() {
    let mut env = TypeEnv::new();
    env.push(1);
    env.insert("b".to_string(), lin_bool());
    env.insert("a".to_string(), lin_bool());
    let mut probe = env.clone();
    let (lin, _) = probe.pop(1);
    assert_eq!(first_unconsumed(&lin.unwrap()), Some("b".to_string()));
    *env.get_mut("b").unwrap() = None;
    let (lin, _) = env.pop(1);
    assert_eq!(first_unconsumed(&lin.unwrap()), Some("a".to_string()));
}

#[test]
fn binding_a_name_again_overwrites_it() {
    let mut env = TypeEnv::new();
    env.push(1);
    env.insert("x".to_string(), lin_bool());
    *env.get_mut("x").unwrap() = None;
    env.insert("x".to_string(), lin_bool());
    assert_eq!(env.get_mut("x").map(|c| c.clone()), Some(Some(lin_bool())));
    let (lin, _) = env.pop(1);
    assert_eq!(lin.unwrap().len(), 1);
}

#[test]
fn deeper_frame_shadows_across_the_stacks() {
    let mut env = TypeEnv::new();
    env.push(1);
    env.insert("x".to_string(), lin_bool());
    env.push(2);
    env.insert("x".to_string(), un_bool());
    assert_eq!(env.get_mut("x").map(|c| c.clone()), Some(Some(un_bool())));
    env.pop(2);
    assert_eq!(env.get_mut("x").map(|c| c.clone()), Some(Some(lin_bool())));

    let mut env = TypeEnv::new();
    env.push(1);
    env.insert("x".to_string(), un_bool());
    env.push(2);
    env.insert("x".to_string(), lin_bool());
    assert_eq!(env.get_mut("x").map(|c| c.clone()), Some(Some(lin_bool())));
    env.pop(2);
    assert_eq!(env.get_mut("x").map(|c| c.clone()), Some(Some(un_bool())));
}

#[test]
fn insert_goes_to_the_topmost_frame() {
    let mut env = TypeEnv::new();
    env.push(1);
    env.push(5);
    env.push(3);
    env.insert("x".to_string(), lin_bool());
    let (lin, _) = env.pop(3);
    assert_eq!(lin.unwrap().len(), 0);
    let (lin, _) = env.pop(5);
    assert_eq!(lin.unwrap().len(), 1);
}

#[test]
fn push_at_a_depth_in_use_replaces_the_frame() {
    let mut env = TypeEnv::new();
    env.push(1);
    env.insert("x".to_string(), lin_bool());
    env.push(1);
    assert!(env.get_mut("x").is_none());
    let (lin, un) = env.pop(1);
    assert_eq!(lin.unwrap().len(), 0);
    assert_eq!(un.unwrap().len(), 0);
}

#[test]
fn pop_removes_the_frame_of_the_given_depth_only() {
    let mut env = TypeEnv::new();
    env.push(1);
    env.insert("a".to_string(), un_bool());
    env.push(2);
    env.insert("b".to_string(), un_bool());
    env.push(3);
    env.insert("c".to_string(), un_bool());
    let (_, un) = env.pop(2);
    assert_eq!(un.unwrap()[0].name, "b");
    assert!(env.get_mut("a").is_some());
    assert!(env.get_mut("b").is_none());
    assert!(env.get_mut("c").is_some());
    assert!(env.pop(7).0.is_none());
}

#[test]
fn linear_stack_can_be_taken_and_restored() {
    let mut env = TypeEnv::new();
    env.push(1);
    env.insert("x".to_string(), lin_bool());
    env.insert("y".to_string(), un_bool());
    let before = env.clone();
    let saved = env.take_linear_stack();
    assert!(env.get_mut("x").is_none());
    assert!(env.get_mut("y").is_some());
    assert!(env != before);
    env.restore_linear_stack(saved);
    assert!(env.get_mut("x").is_some());
    assert!(env == before);
}

#[test]
fn equality_sees_consumption() {
    let mut a = TypeEnv::new();
    a.push(1);
    a.insert("x".to_string(), lin_bool());
    let mut b = a.clone();
    assert!(a == b);
    *b.get_mut("x").unwrap() = None;
    assert!(a != b);
    *a.get_mut("x").unwrap() = None;
    assert!(a == b);
    b.push(2);
    assert!(a != b);
}
