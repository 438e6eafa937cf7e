use std::cell::Cell;
use tintbox::context::{find_parametric_plugin, parametric_param_count, parametric_param_count_in, Context, Logger};

#[test]
fn default_has_no_logger() {
    Context::new().log(0, "ignored 1");
}

#[test]
fn logger_receives_lazy_message() {
    struct Cap(Cell<u32>);
    impl Logger for Cap {
        fn log(&self, code: u32, _msg: &str) {
            self.0.set(code);
        }
    }
    let cap = Cap(Cell::new(0));
    Context::with_logger(&cap).log(42, "x=7");
    assert_eq!(cap.0.get(), 42);
}

fn ctx_with_pow200() -> Context<'static> {
    let mut ctx = Context::new();
    ctx.register_parametric_curve(vec![(200, 1)]);
    ctx
}

#[test]
fn custom_type_param_count_resolves_via_plugin() {
    let ctx = ctx_with_pow200();
    assert_eq!(parametric_param_count(200), None);
    assert_eq!(parametric_param_count_in(&ctx, 200), Some(1));
    assert_eq!(parametric_param_count_in(&Context::new(), 200), None);
}

#[test]
fn builtin_counts() {
    let expected = [(1, 1), (2, 3), (3, 4), (4, 5), (5, 7), (6, 4), (7, 5), (8, 5), (108, 1), (109, 1)];
    for (ty, n) in expected {
        assert_eq!(parametric_param_count(ty), Some(n));
        assert_eq!(parametric_param_count(-ty), Some(n));
    }
    assert_eq!(parametric_param_count(0), None);
    assert_eq!(parametric_param_count(9), None);
    assert_eq!(parametric_param_count(i32::MIN), None);
}

#[test]
fn builtins_win_over_plugins() {
    let mut ctx = Context::new();
    ctx.register_parametric_curve(vec![(1, 9), (300, 2)]);
    assert_eq!(parametric_param_count_in(&ctx, 1), Some(1));
    assert!(find_parametric_plugin(&ctx, 1).is_none());
    assert_eq!(parametric_param_count_in(&ctx, 300), Some(2));
}

#[test]
fn first_registration_wins() {
    let mut ctx = Context::new();
    ctx.register_parametric_curve(vec![(300, 2)]).register_parametric_curve(vec![(300, 6), (301, 3)]);
    assert_eq!(parametric_param_count_in(&ctx, 300), Some(2));
    assert_eq!(parametric_param_count_in(&ctx, 301), Some(3));
    assert_eq!(parametric_param_count_in(&ctx, -300), None);
    assert_eq!(ctx.plugins().parametric_curves.len(), 2);
}

#[test]
fn registries_record_in_order() {
    let mut ctx = Context::new();
    ctx.register_intent(300).register_intent(301);
    ctx.register_tag_type(tintbox::sig::Signature::from_raw(0x7465_7374));
    assert_eq!(ctx.plugins().intents, vec![300, 301]);
    assert_eq!(ctx.plugins().tag_types.len(), 1);
    ctx.plugins_mut().intents.clear();
    assert!(ctx.plugins().intents.is_empty());
}
