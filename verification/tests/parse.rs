use conlife::Object;

#[test]
fn parse_block_offsets() {
    let obj = Object::from_string("(0,0) (0,1) (1,0) (1,1)").unwrap();
    assert_eq!(obj.offsets, vec![(0, 0), (0, 1), (1, 0), (1, 1)]);
}

#[test]
fn parse_pentomino_offsets() {
    let obj = Object::from_string("(1,0) (1,1) (1,2) (0,1) (2,0)").unwrap();
    assert_eq!(obj.offsets, vec![(1, 0), (1, 1), (1, 2), (0, 1), (2, 0)]);
}

#[test]
fn parse_malformed_token_fails() {
    assert!(Object::from_string("(1,0) bad (2,2)").is_err());
}

#[test]
fn parse_empty_string_is_empty_object() {
    let obj = Object::from_string("").unwrap();
    assert!(obj.offsets.is_empty());
}

#[test]
fn parse_whitespace_only_is_empty_object() {
    let obj = Object::from_string("  \t \n\r ").unwrap();
    assert!(obj.offsets.is_empty());
}

#[test]
fn parse_negative_components() {
    let obj = Object::from_string("(-3,-4) (5,-6)").unwrap();
    assert_eq!(obj.offsets, vec![(-3, -4), (5, -6)]);
}

#[test]
fn parse_extra_whitespace_between_tokens() {
    let obj = Object::from_string(" (0,0)\t(2,3)\n(4,5) ").unwrap();
    assert_eq!(obj.offsets, vec![(0, 0), (2, 3), (4, 5)]);
}

#[test]
fn parse_missing_open_paren_fails() {
    assert!(Object::from_string("1,2)").is_err());
}

#[test]
fn parse_missing_close_paren_fails() {
    assert!(Object::from_string("(1,2").is_err());
}

#[test]
fn parse_missing_comma_fails() {
    assert!(Object::from_string("(12)").is_err());
}

#[test]
fn parse_space_inside_token_fails() {
    assert!(Object::from_string("(1, 2)").is_err());
}

#[test]
fn parse_non_integer_component_fails() {
    assert!(Object::from_string("(a,1)").is_err());
    assert!(Object::from_string("(1,b)").is_err());
}

#[test]
fn parse_three_components_fails() {
    assert!(Object::from_string("(1,2,3)").is_err());
}

#[test]
fn parse_empty_component_fails() {
    assert!(Object::from_string("(,1)").is_err());
    assert!(Object::from_string("(1,)").is_err());
    assert!(Object::from_string("(,)").is_err());
}

#[test]
fn parse_bare_minus_fails() {
    assert!(Object::from_string("(-,1)").is_err());
}

#[test]
fn parse_plus_sign_fails() {
    assert!(Object::from_string("(+1,2)").is_err());
}

#[test]
fn parse_out_of_range_fails() {
    assert!(Object::from_string("(2147483648,0)").is_err());
    assert!(Object::from_string("(0,-2147483649)").is_err());
    assert!(Object::from_string("(99999999999999999999,0)").is_err());
}

#[test]
fn parse_extreme_values_succeed() {
    let obj = Object::from_string("(2147483647,-2147483648)").unwrap();
    assert_eq!(obj.offsets, vec![(2147483647, -2147483648)]);
}

#[test]
fn parse_duplicates_are_kept_in_order() {
    let obj = Object::from_string("(1,1) (1,1) (0,0)").unwrap();
    assert_eq!(obj.offsets, vec![(1, 1), (1, 1), (0, 0)]);
}

#[test]
fn parse_failure_before_and_after_valid_tokens() {
    assert!(Object::from_string("x (0,0)").is_err());
    assert!(Object::from_string("(0,0) x").is_err());
}
