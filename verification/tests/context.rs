use gdlex::ast::{BinOp, BinOpKind, Expr, ExprKind, Lit, LitKind};
use gdlex::context::Ctx;
use gdlex::ident::{IdentCache, IdentName};
use gdlex::token::{Span, TokenStorage};

#[test]
fn interning_equal_strings_gives_equal_handles() {
    let mut cache = IdentCache::new();
    let a = cache.new_ident_name("foo");
    let b = cache.new_ident_name("foo");
    let c = cache.new_ident_name("bar");
    assert_eq!(a, b);
    assert_ne!(a, c);
    // A handle stays stable while the store grows.
    let _ = cache.new_ident_name("baz");
    let a_again = cache.new_ident_name("foo");
    assert_eq!(a, a_again);
}

#[test]
fn interning_distinguishes_close_spellings() {
    let mut cache = IdentCache::new();
    let a = cache.new_ident_name("value");
    let b = cache.new_ident_name("value_");
    let c = cache.new_ident_name("Value");
    assert_ne!(a, b);
    assert_ne!(a, c);
    assert_ne!(b, c);
}

#[test]
fn ctx_interns_through_owned_cache() {
    let mut ctx = Ctx::new();
    let a = ctx.new_ident_name("hello");
    let b = ctx.new_ident_name("world");
    let a2 = ctx.new_ident_name("hello");
    assert_eq!(a, a2);
    assert_ne!(a, b);
}

#[test]
fn arena_alloc_preserves_values() {
    let ctx = Ctx::new();
    let x = ctx.alloc_value(41i64);
    assert_eq!(*x, 41);
    // Further allocations leave earlier references valid and unchanged.
    let y = ctx.alloc_value(42i64);
    let z = ctx.alloc_value(43i64);
    assert_eq!(*x, 41);
    assert_eq!(*y, 42);
    assert_eq!(*z, 43);
}

#[test]
fn arena_alloc_slice_copy_preserves_elements() {
    let ctx = Ctx::new();
    let s = ctx.alloc_slice_copy(&[1u32, 2, 3]);
    assert_eq!(s, &[1u32, 2, 3]);
    let t = ctx.alloc_slice_copy(&[9u32]);
    assert_eq!(s, &[1u32, 2, 3]);
    assert_eq!(t, &[9u32]);
}

#[test]
fn ast_nodes_build_bottom_up_in_arena() {
    let ctx = Ctx::new();
    let one = ctx.alloc_value(Expr {
        span: Span::new(0, 1),
        kind: ExprKind::Lit(ctx.alloc_value(Lit { span: Span::new(0, 1), kind: LitKind::Int(1) })),
    });
    let two = ctx.alloc_value(Expr {
        span: Span::new(4, 5),
        kind: ExprKind::Lit(ctx.alloc_value(Lit { span: Span::new(4, 5), kind: LitKind::Int(2) })),
    });
    let sum = ctx.alloc_value(BinOp {
        span: Span::new(0, 5),
        kind: BinOpKind::Add,
        lhs: one,
        rhs: two,
    });
    assert_eq!(sum.kind, BinOpKind::Add);
    assert_eq!(sum.lhs.span, Span::new(0, 1));
    assert_eq!(sum.rhs.span, Span::new(4, 5));
    match sum.lhs.kind {
        ExprKind::Lit(l) => assert_eq!(l.kind, LitKind::Int(1)),
        _ => panic!("expected a literal"),
    }
}

#[test]
fn token_storage_default_is_empty() {
    let storage = TokenStorage::default();
    assert_eq!(storage.tokens, vec![]);
    assert_eq!(storage.errors, vec![]);
}

#[test]
fn ident_name_is_plain_data() {
    let h = IdentName { id: 7 };
    assert_eq!(h.id, 7);
}
