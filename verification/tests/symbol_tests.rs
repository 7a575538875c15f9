use rsgbasm::AssemblerError;
use rsgbasm::symbol::Symbol;

#[test]
fn constructors_and_getters() {
    let s = Symbol::new_equ(String::from("K"), 42);
    assert_eq!(s.get_name(), "K");
    assert_eq!(s.get_value(), Some(42));
    assert_eq!(s.get_str(), None);

    let s = Symbol::new_equs(String::from("S"), String::from("text"));
    assert_eq!(s.get_value(), None);
    assert_eq!(s.get_str().map(|x| x.as_str()), Some("text"));

    let s = Symbol::new_label(String::from("L"), 0x150);
    assert_eq!(s.get_value(), Some(0x150));

    let s = Symbol::new_set(String::from("V"), 7);
    assert_eq!(s.get_value(), Some(7));
}

#[test]
fn set_value_keeps_the_kind() {
    let mut e = Symbol::new_equ(String::from("K"), 1);
    e.set_value(9);
    assert_eq!(e.get_value(), Some(9));

    let mut v = Symbol::new_set(String::from("V"), 1);
    v.set_value(5);
    assert_eq!(v.get_value(), Some(5));
}

#[test]
fn redefine_immutable_constant() {
    let mut s = Symbol::new_equ(String::from("K"), 1);
    assert_eq!(s.redefine(Symbol::new_equ(String::from("K"), 1)), Ok(()));
    assert_eq!(s.get_value(), Some(1));
    assert_eq!(
        s.redefine(Symbol::new_equ(String::from("K"), 2)),
        Err(AssemblerError::SymbolRedef)
    );
    assert_eq!(s.get_value(), Some(1));
}

#[test]
fn redefine_mutable_constant_takes_new_value() {
    let mut s = Symbol::new_set(String::from("V"), 1);
    assert_eq!(s.redefine(Symbol::new_set(String::from("V"), 2)), Ok(()));
    assert_eq!(s.get_value(), Some(2));
    assert_eq!(s.redefine(Symbol::new_set(String::from("V"), 3)), Ok(()));
    assert_eq!(s.get_value(), Some(3));
}

#[test]
fn redefine_label_and_string_need_identical_values() {
    let mut l = Symbol::new_label(String::from("L"), 8);
    assert_eq!(l.redefine(Symbol::new_label(String::from("L"), 8)), Ok(()));
    assert_eq!(
        l.redefine(Symbol::new_label(String::from("L"), 9)),
        Err(AssemblerError::SymbolRedef)
    );

    let mut s = Symbol::new_equs(String::from("S"), String::from("x"));
    assert_eq!(
        s.redefine(Symbol::new_equs(String::from("S"), String::from("x"))),
        Ok(())
    );
    assert_eq!(
        s.redefine(Symbol::new_equs(String::from("S"), String::from("y"))),
        Err(AssemblerError::SymbolRedef)
    );
}

#[test]
fn redefine_with_a_different_kind_fails() {
    let mut s = Symbol::new_equ(String::from("K"), 1);
    assert_eq!(
        s.redefine(Symbol::new_set(String::from("K"), 1)),
        Err(AssemblerError::SymbolRedef)
    );
    assert_eq!(
        s.redefine(Symbol::new_label(String::from("K"), 1)),
        Err(AssemblerError::SymbolRedef)
    );
    assert_eq!(
        s.redefine(Symbol::new_equs(String::from("K"), String::from("1"))),
        Err(AssemblerError::SymbolRedef)
    );
    assert_eq!(s.get_value(), Some(1));
}

#[test]
fn export_marks_without_touching_the_value() {
    let mut s = Symbol::new_equ(String::from("K"), 3);
    s.export();
    assert_eq!(s.get_value(), Some(3));
    assert_eq!(s.get_name(), "K");
}
