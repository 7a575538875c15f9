use rsgbasm::AssemblerError;
use rsgbasm::AssertType;
use rsgbasm::Assembler;
use rsgbasm::symbol::Symbol;

#[test]
fn mutable_constant_redefinition_keeps_latest_value() {
    let mut session = Assembler::new();
    assert_eq!(session.add_symbol(Symbol::new_set(String::from("V"), 1)), Ok(()));
    assert_eq!(session.add_symbol(Symbol::new_set(String::from("V"), 2)), Ok(()));
    let v = session.find_symbol(&String::from("V")).unwrap().get_value();
    assert_eq!(v, Some(2));
}

#[test]
fn immutable_constant_redefinition_policy() {
    let mut session = Assembler::new();
    assert_eq!(session.add_symbol(Symbol::new_equ(String::from("K"), 1)), Ok(()));
    assert_eq!(session.add_symbol(Symbol::new_equ(String::from("K"), 1)), Ok(()));
    assert_eq!(
        session.add_symbol(Symbol::new_equ(String::from("K"), 2)),
        Err(AssemblerError::SymbolRedef)
    );
    let v = session.find_symbol(&String::from("K")).unwrap().get_value();
    assert_eq!(v, Some(1));
}

#[test]
fn expand_local_name_without_scope_fails() {
    let session = Assembler::new();
    assert_eq!(
        session.expand_sym_name(String::from(".foo")),
        Err(AssemblerError::LocalInMainScope(String::from(".foo")))
    );
}

#[test]
fn expand_local_name_with_active_scope_qualifies() {
    let mut session = Assembler::new();
    session.add_symbol(Symbol::new_label(String::from("Main"), 0x150)).unwrap();
    session.set_symbol_scope(String::from("Main"));
    assert_eq!(session.expand_sym_name(String::from(".foo")), Ok(String::from("Main.foo")));
}

#[test]
fn expand_non_local_name_passes_through() {
    let session = Assembler::new();
    assert_eq!(session.expand_sym_name(String::from("bar")), Ok(String::from("bar")));
    assert_eq!(session.expand_sym_name(String::from("")), Ok(String::from("")));
}

#[test]
fn scope_reference_is_revalidated_against_the_table() {
    let mut session = Assembler::new();
    session.set_symbol_scope(String::from("Ghostly"));
    assert!(session.get_symbol_scope().is_none());
    assert_eq!(
        session.expand_sym_name(String::from(".foo")),
        Err(AssemblerError::LocalInMainScope(String::from(".foo")))
    );
}

#[test]
fn allocation_pointer_returns_pre_increment_values() {
    let mut session = Assembler::new();
    assert_eq!(session.advance_rs(1), 0);
    assert_eq!(session.advance_rs(2), 1);
    assert_eq!(session.advance_rs(4), 3);
    assert_eq!(session.advance_rs(0), 7);
}

#[test]
fn allocation_pointer_is_the_rs_symbol() {
    let mut session = Assembler::new();
    session.advance_rs(5);
    let v = session.find_symbol(&String::from("_RS")).unwrap().get_value();
    assert_eq!(v, Some(5));
}

#[test]
fn passed_assertion_is_ok() {
    let session = Assembler::new();
    assert_eq!(session.check_assertion(AssertType::Fatal, 0, None), Ok(()));
}

#[test]
fn failed_fatal_assertion_reports() {
    let session = Assembler::new();
    assert_eq!(
        session.check_assertion(AssertType::Fatal, 1, Some(String::from("boom"))),
        Err(AssemblerError::AssertFailure(Some(String::from("boom"))))
    );
    assert_eq!(
        session.check_assertion(AssertType::Fatal, -3, None),
        Err(AssemblerError::AssertFailure(None))
    );
}

#[test]
fn find_symbol_misses_unknown_names() {
    let session = Assembler::new();
    assert!(session.find_symbol(&String::from("nothing")).is_none());
}
