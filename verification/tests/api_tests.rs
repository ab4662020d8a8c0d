use cell_codec::api::{Method, Type, TypeDoc, TypeInfo};

#[test]
fn method_from_scalar_types() {
    let m = Method::from_types::<bool, u32>("run");
    assert_eq!(m.name, "run");
    assert!(m.summary.is_none());
    assert!(m.description.is_none());
    assert_eq!(m.params.len(), 1);
    assert_eq!(m.params[0].name, "param");
    assert!(matches!(m.params[0].value, Type::Boolean));
    assert!(matches!(m.result, Type::Number));
    assert!(m.errors.is_none());
}

#[test]
fn method_from_string_result() {
    let m = Method::from_types::<u32, String>("fetch_name");
    assert_eq!(m.name, "fetch_name");
    assert!(matches!(m.params[0].value, Type::Number));
    assert!(matches!(m.result, Type::Text));
}

#[test]
fn type_info_reports_its_type() {
    let d: TypeDoc = <bool as TypeInfo>::type_info();
    assert!(matches!(d.value, Type::Boolean));
    assert!(d.summary.is_none());
}
