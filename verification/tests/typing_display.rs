use obzenflow_topology::typing::strip_path_qualifiers_trimmed;
use obzenflow_topology::TypeHintInfo;

#[test]
fn display_name_strips_path_qualifiers() {
    let hint = TypeHintInfo::exact("product_catalog::domain::EnrichedOrder");
    assert_eq!(hint.display_name().as_deref(), Some("EnrichedOrder"));
}

#[test]
fn display_name_preserves_pascal_case() {
    let hint = TypeHintInfo::exact("EnrichedOrderWithPromo");
    assert_eq!(hint.display_name().as_deref(), Some("EnrichedOrderWithPromo"));
}

#[test]
fn display_name_preserves_generics() {
    let hint = TypeHintInfo::exact("Vec<OrderEvent>");
    assert_eq!(hint.display_name().as_deref(), Some("Vec<OrderEvent>"));
}

#[test]
fn display_name_preserves_acronyms() {
    let hint = TypeHintInfo::exact("HTTPRequest");
    assert_eq!(hint.display_name().as_deref(), Some("HTTPRequest"));
}

#[test]
fn display_name_strips_paths_inside_generics() {
    let hint = TypeHintInfo::exact("Vec<product_catalog::domain::OrderEvent>");
    assert_eq!(hint.display_name().as_deref(), Some("Vec<OrderEvent>"));
}

#[test]
fn unspecified_and_mixed_render_to_none() {
    assert_eq!(TypeHintInfo::Unspecified.display_name(), None);
    assert_eq!(TypeHintInfo::Mixed.display_name(), None);
}

#[test]
fn display_name_trims_whitespace_before_stripping() {
    let hint = TypeHintInfo::exact("  std::collections::HashMap<alloc::string::String, u8>  ");
    assert_eq!(hint.display_name().as_deref(), Some("HashMap<String, u8>"));
}

#[test]
fn display_name_of_blank_name_is_empty() {
    let hint = TypeHintInfo::exact("   ");
    assert_eq!(hint.display_name().as_deref(), Some(""));
}

#[test]
fn strip_handles_nested_generics_and_tuples() {
    assert_eq!(
        strip_path_qualifiers_trimmed("Result<a::B, (c::D, e::f::G)>"),
        "Result<B, (D, G)>"
    );
    assert_eq!(strip_path_qualifiers_trimmed("::leading::Path"), "Path");
}

#[test]
fn display_name_trims_unicode_white_space() {
    let hint = TypeHintInfo::exact("\u{3000}\tcrate::Foo\u{a0}\n");
    assert_eq!(hint.display_name(), Some("Foo".to_string()));
}
