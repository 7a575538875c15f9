//! Named symbol entities: immutable constants (`EQU`), string constants
//! (`EQUS`), labels, and mutable constants (`SET`). A symbol's kind never
//! changes across redefinition; only constants may be overwritten, and only
//! under the redefinition policy in `Symbol::redefine`.
use vstd::prelude::*;

verus! {

/// Abstract value of a symbol, used by contracts.
pub enum SymbolValue {
    /// Immutable integer constant, fixed at definition.
    Equ(int),
    /// String constant, substituted at expansion time.
    Equs(Seq<char>),
    /// Integer address (eventually a section plus offset).
    Label(int),
    /// Mutable integer constant that may be reassigned.
    Var(int),
}

/// Abstract state of a symbol, used by contracts.
pub struct SymbolView {
    pub name: Seq<char>,
    pub value: SymbolValue,
    pub exported: bool,
}

enum Val {
    Equ(i32),
    Equs(String),
    Label(i32),
    Var(i32),
}

/// A named entity held by the symbol table.
pub struct Symbol {
    name: String,
    val: Val,
    exported: bool,
}

impl View for Symbol {
    type V = SymbolView;

    closed spec fn view(&self) -> SymbolView {
        SymbolView {
            name: self.name@,
            value: match self.val {
                Val::Equ(v) => SymbolValue::Equ(v as int),
                Val::Equs(ref s) => SymbolValue::Equs(s@),
                Val::Label(v) => SymbolValue::Label(v as int),
                Val::Var(v) => SymbolValue::Var(v as int),
            },
            exported: self.exported,
        }
    }
}

/// The redefinition policy: what value a symbol holds after re-declaring it
/// with `new`, or `None` when the re-declaration is a redefinition error.
/// The kind must match; a mutable constant takes any new value; the other
/// kinds accept a re-declaration only with an identical value.
pub open spec fn redefined(cur: SymbolValue, new: SymbolValue) -> Option<SymbolValue> {
    match (cur, new) {
        (SymbolValue::Equ(a), SymbolValue::Equ(b)) => if a == b {
            Some(SymbolValue::Equ(a))
        } else {
            None
        },
        (SymbolValue::Equs(a), SymbolValue::Equs(b)) => if a == b {
            Some(SymbolValue::Equs(a))
        } else {
            None
        },
        (SymbolValue::Label(a), SymbolValue::Label(b)) => if a == b {
            Some(SymbolValue::Label(a))
        } else {
            None
        },
        (SymbolValue::Var(_), SymbolValue::Var(b)) => Some(SymbolValue::Var(b)),
        _ => None,
    }
}

impl Symbol {
    /// New immutable integer constant, not exported.
    pub fn new_equ(name: String, val: i32) -> (r: Self)
        ensures
            r@ == (SymbolView {
                name: name@,
                value: SymbolValue::Equ(val as int),
                exported: false,
            }),
    {
        Symbol { name, val: Val::Equ(val), exported: false }
    }

    /// New string constant, not exported.
    pub fn new_equs(name: String, val: String) -> (r: Self)
        ensures
            r@ == (SymbolView { name: name@, value: SymbolValue::Equs(val@), exported: false }),
    {
        Symbol { name, val: Val::Equs(val), exported: false }
    }

    /// New label at the given address, not exported.
    pub fn new_label(name: String, val: i32) -> (r: Self)
        ensures
            r@ == (SymbolView {
                name: name@,
                value: SymbolValue::Label(val as int),
                exported: false,
            }),
    {
        Symbol { name, val: Val::Label(val), exported: false }
    }

    /// New mutable integer constant, not exported.
    pub fn new_set(name: String, val: i32) -> (r: Self)
        ensures
            r@ == (SymbolView {
                name: name@,
                value: SymbolValue::Var(val as int),
                exported: false,
            }),
    {
        Symbol { name, val: Val::Var(val), exported: false }
    }

    /// The symbol's name.
    pub fn get_name(&self) -> (r: &String)
        ensures
            r@ == self@.name,
    {
        &self.name
    }

    /// The text of a string constant; `None` for every other kind.
    pub fn get_str<'a>(&'a self) -> (r: Option<&'a String>)
        ensures
            match r {
                Some(s) => self@.value == SymbolValue::Equs(s@),
                None => !(self@.value is Equs),
            },
    {
        match &self.val {
            Val::Equs(string) => Some(string),
            _ => None,
        }
    }

    /// The integer of a numeric symbol (constant, label, or mutable
    /// constant); `None` for a string constant.
    pub fn get_value(&self) -> (r: Option<i32>)
        ensures
            match r {
                Some(v) => self@.value == SymbolValue::Equ(v as int) || self@.value
                    == SymbolValue::Label(v as int) || self@.value == SymbolValue::Var(v as int),
                None => self@.value is Equs,
            },
    {
        match self.val {
            Val::Equ(v) => Some(v),
            Val::Label(v) => Some(v),
            Val::Var(v) => Some(v),
            Val::Equs(_) => None,
        }
    }

    /// Overwrites the integer of a numeric constant, keeping its kind.
    /// Only immutable and mutable constants may be written through here.
    pub fn set_value(&mut self, val: i32)
        requires
            old(self)@.value is Equ || old(self)@.value is Var,
        ensures
            final(self)@.name == old(self)@.name,
            final(self)@.exported == old(self)@.exported,
            old(self)@.value is Equ ==> final(self)@.value == SymbolValue::Equ(val as int),
            old(self)@.value is Var ==> final(self)@.value == SymbolValue::Var(val as int),
    {
        self.val = match self.val {
            Val::Equ(_) => Val::Equ(val),
            Val::Var(_) => Val::Var(val),
            _ => Val::Equ(val),
        };
    }

    /// Applies the redefinition policy (`redefined`): on success the symbol
    /// takes the surviving value, on conflict it is left untouched and the
    /// redefinition diagnostic comes back.
    pub fn redefine(&mut self, other: Self) -> (r: Result<(), crate::AssemblerError>)
        requires
            old(self)@.name == other@.name,
        ensures
            final(self)@.name == old(self)@.name,
            final(self)@.exported == old(self)@.exported,
            match redefined(old(self)@.value, other@.value) {
                Some(v) => r is Ok && final(self)@.value == v,
                None => r == Err::<(), crate::AssemblerError>(crate::AssemblerError::SymbolRedef)
                    && final(self)@.value == old(self)@.value,
            },
    {
        match (&self.val, other.val) {
            (Val::Equ(a), Val::Equ(b)) => {
                if *a == b {
                    Ok(())
                } else {
                    Err(crate::AssemblerError::SymbolRedef)
                }
            },
            (Val::Equs(a), Val::Equs(b)) => {
                if *a == b {
                    Ok(())
                } else {
                    Err(crate::AssemblerError::SymbolRedef)
                }
            },
            (Val::Label(a), Val::Label(b)) => {
                if *a == b {
                    Ok(())
                } else {
                    Err(crate::AssemblerError::SymbolRedef)
                }
            },
            (Val::Var(_), Val::Var(b)) => {
                self.val = Val::Var(b);
                Ok(())
            },
            _ => Err(crate::AssemblerError::SymbolRedef),
        }
    }

    /// Marks the symbol as exported; everything else is untouched.
    pub fn export(&mut self)
        ensures
            final(self)@ == (SymbolView { exported: true, ..old(self)@ }),
    {
        self.exported = true;
    }
}

} // verus!
