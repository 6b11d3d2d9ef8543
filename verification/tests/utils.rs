use proto_ecs::utils::{to_camel_case, to_snake_case};

#[test]
fn test_to_snake_case() {
    assert_eq!(to_snake_case("A"), "a".to_string());
    assert_eq!(to_snake_case(""), "".to_string());
    assert_eq!(to_snake_case("DataGroup"), "data_group".to_string());
    assert_eq!(to_snake_case("aaa"), "aaa".to_string());
    assert_eq!(to_snake_case("A123Sa456"), "a_123_sa_456".to_string());
    assert_eq!(to_snake_case("AA"), "a_a".to_string());
}

#[test]
fn to_camel_case_splits_before_upper_case_and_digit_runs() {
    assert_eq!(to_camel_case("DataGroup"), "data_group".to_string());
    assert_eq!(to_camel_case("A123Sa456"), "a_123_sa_456".to_string());
    assert_eq!(to_camel_case("TransformDataGroup"), "transform_data_group".to_string());
    assert_eq!(to_camel_case(""), "".to_string());
}

#[test]
fn snake_case_leaves_digit_runs_together() {
    assert_eq!(to_snake_case("Mesh2D"), "mesh_2_d".to_string());
    assert_eq!(to_snake_case("v12"), "v_12".to_string());
    assert_eq!(to_snake_case("12ab"), "12ab".to_string());
}

#[test]
fn converting_a_converted_name_of_letters_changes_nothing() {
    let once = to_camel_case("TransformDataGroup");
    assert!(!once.bytes().any(|b| b.is_ascii_uppercase()));
    assert_eq!(once.len(), "TransformDataGroup".len() + 2);
    assert_eq!(to_camel_case(&once), once);
}
