use kernel_core::lens::{Fields, LensComplement, LensError, LensExpr, SemanticId, Value};

const LEFT: SemanticId = 1;
const NESTED: SemanticId = 2;
const RIGHT: SemanticId = 3;
const NAME: SemanticId = 4;
const FLAG: SemanticId = 5;

fn text(s: &str) -> Value {
    Value::Text(s.to_string())
}

fn source() -> Value {
    Value::product(vec![
        (LEFT, Value::I64(10)),
        (NESTED, Value::product(vec![(NAME, text("name")), (FLAG, Value::Bool(true))])),
        (RIGHT, Value::I64(30)),
    ])
}

#[test]
fn product_field_lens_preserves_explicit_complement_and_laws() {
    let lens = LensExpr::ProductField(NESTED);
    let source = source();
    let new_view = Value::product(vec![(NAME, text("new")), (FLAG, Value::Bool(false))]);
    assert_eq!(lens.check_complement_round_trip(&source), Ok(true));
    assert_eq!(lens.check_get_put(&source), Ok(true));
    assert_eq!(lens.check_put_get(&source, &new_view), Ok(true));
    assert_eq!(
        lens.check_put_put(
            &source,
            &Value::product(vec![(NAME, text("first")), (FLAG, Value::Bool(true))]),
            &new_view,
        ),
        Ok(true)
    );
    let updated = lens.put(&source, &new_view).unwrap();
    let Value::Product(fields) = updated else {
        unreachable!();
    };
    assert_eq!(fields.get(LEFT), Some(&Value::I64(10)));
    assert_eq!(fields.get(RIGHT), Some(&Value::I64(30)));
}

#[test]
fn composed_lens_composes_dependent_complements() {
    let lens = LensExpr::Compose(
        Box::new(LensExpr::ProductField(NESTED)),
        Box::new(LensExpr::ProductField(NAME)),
    );
    let source = source();
    let new_name = text("renamed");
    assert_eq!(lens.check_complement_round_trip(&source), Ok(true));
    assert_eq!(lens.check_get_put(&source), Ok(true));
    assert_eq!(lens.check_put_get(&source, &new_name), Ok(true));
    let (_, complement) = lens.split(&source).unwrap();
    assert!(matches!(complement, LensComplement::Compose { .. }));
}

#[test]
fn complement_from_another_lens_is_rejected() {
    let source = source();
    let lens = LensExpr::ProductField(NESTED);
    let wrong = LensExpr::ProductField(LEFT).complement(&source).unwrap();
    assert_eq!(lens.restore(&Value::I64(9), &wrong), Err(LensError::ComplementMismatch));
}

#[test]
fn composed_put_rewrites_only_the_nested_field() {
    let lens = LensExpr::Compose(
        Box::new(LensExpr::ProductField(NESTED)),
        Box::new(LensExpr::ProductField(NAME)),
    );
    let updated = lens.put(&source(), &text("renamed")).unwrap();
    let expected = Value::product(vec![
        (LEFT, Value::I64(10)),
        (NESTED, Value::product(vec![(NAME, text("renamed")), (FLAG, Value::Bool(true))])),
        (RIGHT, Value::I64(30)),
    ]);
    assert_eq!(updated, expected);
    assert_eq!(lens.get(&updated), Ok(text("renamed")));
    assert!(updated.same_as(&expected));
    assert!(!updated.same_as(&source()));
}

#[test]
fn lens_refuses_scalars_and_missing_fields() {
    let lens = LensExpr::ProductField(NAME);
    assert_eq!(lens.get(&Value::I64(3)), Err(LensError::TypeMismatch));
    assert_eq!(lens.get(&source()), Err(LensError::FieldMissing(NAME)));
    assert_eq!(lens.check_get_put(&source()), Err(LensError::FieldMissing(NAME)));
    assert_eq!(lens.put(&text("scalar"), &Value::I64(1)), Err(LensError::TypeMismatch));
    assert_eq!(
        LensExpr::Identity.restore(&Value::I64(1), &LensExpr::ProductField(LEFT).complement(&source()).unwrap()),
        Err(LensError::ComplementMismatch)
    );
}

#[test]
fn identity_lens_views_and_replaces_the_whole_value() {
    let lens = LensExpr::Identity;
    assert_eq!(lens.get(&source()), Ok(source()));
    assert_eq!(lens.put(&source(), &Value::Bool(false)), Ok(Value::Bool(false)));
    assert_eq!(lens.check_put_put(&source(), &Value::I64(1), &Value::I64(2)), Ok(true));
}

#[test]
fn product_fields_keep_one_value_per_field_in_order() {
    let fields = Fields::from_pairs(vec![(7, Value::I64(1)), (3, Value::I64(2)), (7, Value::I64(3))]);
    assert_eq!(fields.get(7), Some(&Value::I64(3)));
    assert_eq!(fields.get(3), Some(&Value::I64(2)));
    assert_eq!(fields.get(5), None);
    let widened = fields.with_field(5, Value::Bool(true));
    assert_eq!(widened.get(5), Some(&Value::Bool(true)));
    let narrowed = widened.without(7);
    assert_eq!(narrowed.get(7), None);
    assert!(narrowed.same_as(&Fields::from_pairs(vec![(5, Value::Bool(true)), (3, Value::I64(2))])));
    assert_eq!(narrowed, Fields::from_pairs(vec![(3, Value::I64(2)), (5, Value::Bool(true))]));
}
