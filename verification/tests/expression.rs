use vue_oxlint_parser::expression::{v_for_alias_wrap, v_slot_params_wrap, ParamsWrap};
use vue_oxlint_parser::span::Span;

fn wrap(w: ParamsWrap) -> Option<(&'static str, &'static str)> {
    match w {
        ParamsWrap::Wrap(a, b) => Some((a, b)),
        _ => None,
    }
}

#[test]
fn v_for_alias_is_wrapped_as_arrow_parameters() {
    assert_eq!(wrap(v_for_alias_wrap("__(a, i) in xs", Span::new(2, 8))), Some(("(", ")=>0)")));
    assert_eq!(wrap(v_for_alias_wrap("__ item in xs", Span::new(2, 7))), Some(("((", ")=>0)")));
    assert!(matches!(v_for_alias_wrap("(a) in x", Span::new(0, 3)), ParamsWrap::OutOfRange));
    assert!(matches!(v_for_alias_wrap("_a in x", Span::new(1, 2)), ParamsWrap::OutOfRange));
    assert_eq!(wrap(v_for_alias_wrap("_(a in x", Span::new(1, 3))), None);
}

#[test]
fn v_slot_value_is_wrapped_as_arrow_parameters() {
    assert!(matches!(v_slot_params_wrap("__  ", Span::new(2, 4)), ParamsWrap::NoParams));
    assert_eq!(wrap(v_slot_params_wrap("__{ a }", Span::new(2, 7))), Some(("((", ")=>0)")));
    assert_eq!(wrap(v_slot_params_wrap("_(p)", Span::new(1, 4))), Some(("(", "=>0)")));
    assert!(matches!(v_slot_params_wrap("{a}", Span::new(0, 3)), ParamsWrap::OutOfRange));
}
