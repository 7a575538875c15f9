use rsgbasm::AssemblerError;
use rsgbasm::expression::Expression;

#[test]
fn bitor_of_known_values_folds() {
    assert_eq!(
        Expression::Known(1).bitor(Expression::Known(2)),
        Expression::Known(3)
    );
    assert_eq!(
        Expression::Known(0xF0).bitor(Expression::Known(0x0F)),
        Expression::Known(0xFF)
    );
}

#[test]
fn bitor_with_unknown_defers() {
    assert_eq!(
        Expression::Unknown.bitor(Expression::Known(1)),
        Expression::Unknown
    );
    assert_eq!(
        Expression::Known(1).bitor(Expression::Unknown),
        Expression::Unknown
    );
    assert_eq!(
        Expression::Unknown.bitor(Expression::Unknown),
        Expression::Unknown
    );
}

#[test]
fn neg_of_known_negates() {
    assert_eq!(Expression::Known(4).neg(), Expression::Known(-4));
    assert_eq!(Expression::Known(-7).neg(), Expression::Known(7));
    assert_eq!(Expression::Known(0).neg(), Expression::Known(0));
}

#[test]
fn neg_of_unknown_defers() {
    assert_eq!(Expression::Unknown.neg(), Expression::Unknown);
}

#[test]
fn shl_of_known_values_folds() {
    assert_eq!(
        Expression::Known(1).shl(Expression::Known(3)),
        Expression::Known(8)
    );
    assert_eq!(
        Expression::Known(3).shl(Expression::Known(0)),
        Expression::Known(3)
    );
}

#[test]
fn shl_with_unknown_defers() {
    assert_eq!(
        Expression::Unknown.shl(Expression::Known(1)),
        Expression::Unknown
    );
    assert_eq!(
        Expression::Known(1).shl(Expression::Unknown),
        Expression::Unknown
    );
}

#[test]
fn unknown_is_never_a_constant() {
    assert_eq!(
        Expression::Unknown.try_to_i32(),
        Err(AssemblerError::ExprNotConstant)
    );
}

#[test]
fn known_converts_to_its_value() {
    assert_eq!(Expression::Known(5).try_to_i32(), Ok(5));
    assert_eq!(Expression::Known(-5).try_to_i32(), Ok(-5));
}

#[test]
fn from_wraps_an_integer() {
    assert_eq!(Expression::from(17), Expression::Known(17));
}

#[test]
fn check_hram_passes_the_value_through() {
    assert_eq!(Expression::Known(0xFF80).check_hram(), Expression::Known(0xFF80));
    assert_eq!(Expression::Unknown.check_hram(), Expression::Unknown);
}

#[test]
fn not_constant_message_text() {
    assert_eq!(
        AssemblerError::ExprNotConstant.message(),
        "Expression is not constant"
    );
}
