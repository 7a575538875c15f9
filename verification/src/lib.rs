//! Front end of a Game-Boy-style assembler: keyword recognition via a trie,
//! a symbol table with lexical scoping and a rolling allocation pointer, and
//! a partial-evaluation algebra over integers that may not be known yet.
//!
//! Every failure surfaces as a structured diagnostic instead of aborting the
//! whole run; rendering to text happens through `message` methods, so callers
//! can route diagnostics to whatever sink they use.
use vstd::prelude::*;

pub mod expression;
pub mod instruction;
pub mod lexer;
pub mod section;
pub mod symbol;
pub mod trie;

verus! {

/// A warning diagnostic. No warning conditions are defined, so no public
/// constructor exists and no value of this type can be made by callers.
#[derive(Debug)]
pub struct Warning {
    reserved: bool,
}

/// The flat taxonomy of assembler diagnostics: lexical malformations,
/// logic errors raised by semantic actions, expression-constness errors,
/// and symbol redefinition conflicts.
#[derive(Debug, Clone, PartialEq, Eq)]
pub enum AssemblerError {
    // Lexer errors
    BadInterpFmt(String),
    CharAfterLineCont(char),
    GarbageChar(char),
    EmptyFract,
    EmptyGfx,
    EmptyHex,
    EmptyInterpFmt,
    EmptyInterpName,
    EmptyOct,
    IllegalEscape(char),
    IllegalEscapeEOF,
    IllegalInterpChar(char),
    LineContEOF,
    MultipleInterpFmt,
    UntermInterp,
    UntermString,
    // Logic errors
    AssertFailure(Option<String>),
    LdHLHL,
    LocalInMainScope(String),
    // Expression errors
    ExprNotConstant,
    // Symbol errors
    SymbolRedef,
}

/// Relies on `String::push`: appends exactly the one character.
#[verifier::external_body]
pub(crate) fn push_char(s: &mut String, c: char)
    ensures
        final(s)@ == old(s)@.push(c),
{
    s.push(c);
}

/// The human-readable disjunction of acceptable token names: one name
/// alone; two joined by `or`; more with commas and a final `or`.
pub open spec fn comma_list(es: Seq<Seq<char>>) -> Seq<char>
    decreases es.len(),
{
    if es.len() == 0 {
        Seq::empty()
    } else if es.len() == 1 {
        es[0]
    } else {
        comma_list(es.drop_last()) + ", "@ + es.last()
    }
}

/// What `write_expected_tokens` appends for a non-empty list of names.
pub open spec fn expected_text(es: Seq<Seq<char>>) -> Seq<char> {
    if es.len() <= 1 {
        comma_list(es)
    } else {
        comma_list(es.drop_last()) + " or "@ + es.last()
    }
}

/// Appends the acceptable-token disjunction to `out`: `a`, `a or b`,
/// `a, b or c`, and so on.
pub fn write_expected_tokens(out: &mut String, expected: &Vec<String>)
    requires
        expected@.len() > 0,
    ensures
        final(out)@ == old(out)@ + expected_text(expected@.map_values(|s: String| s@)),
{
    let ghost es = expected@.map_values(|s: String| s@);
    out.append(expected[0].as_str());
    let mut i: usize = 1;
    while i < expected.len()
        invariant
            1 <= i <= expected@.len(),
            es == expected@.map_values(|s: String| s@),
            es.len() == expected@.len(),
            i < expected@.len() ==> out@ == old(out)@ + comma_list(es.take(i as int)),
            i == expected@.len() ==> out@ == old(out)@ + expected_text(es),
        decreases expected@.len() - i,
    {
        if i + 1 == expected.len() {
            out.append(" or ");
        } else {
            out.append(", ");
        }
        out.append(expected[i].as_str());
        proof {
            assert(es.take(i as int + 1).drop_last() =~= es.take(i as int));
            assert(es.take(i as int + 1).last() == es[i as int]);
            if i + 1 == expected@.len() {
                assert(es.take(i as int + 1) =~= es);
                assert(es.drop_last() =~= es.take(i as int));
            }
        }
        i += 1;
    }
    proof {
        if expected@.len() == 1 {
            assert(es.take(1) =~= es);
            assert(out@ == old(out)@ + es[0]);
            assert(expected_text(es) == es[0]);
        }
    }
}

/// A syntactic diagnostic surfaced from the external parser: each variant
/// carries the offending place and, where the grammar knows them, the
/// token names that would have been acceptable.
#[derive(Debug, Clone, PartialEq, Eq)]
pub enum SyntaxError {
    /// A token no rule recognizes.
    InvalidToken { location: lexer::Location },
    /// Input ended where the grammar still expected something.
    UnrecognizedEof { location: lexer::Location, expected: Vec<String> },
    /// A well-formed token in a place the grammar does not allow it.
    UnrecognizedToken {
        begin: lexer::Location,
        end: lexer::Location,
        tok: String,
        expected: Vec<String>,
    },
    /// A token after the point where the input should have ended.
    ExtraToken { begin: lexer::Location, end: lexer::Location, tok: String },
    /// An assembler error raised from a semantic action during the parse.
    User { error: AssemblerError },
}

/// A diagnostic as handed to the sink: a syntactic or semantic failure.
#[derive(Debug, Clone, PartialEq, Eq)]
pub struct Error {
    err: SyntaxError,
}

/// What `Error::message` renders for each syntactic diagnostic. Callers
/// that want the source position prefix it from the carried locations.
pub open spec fn spec_error_message(e: SyntaxError) -> Seq<char> {
    match e {
        SyntaxError::InvalidToken { location } => "Invalid token"@,
        SyntaxError::UnrecognizedEof { location, expected } => "Unexpected EOF; expected "@
            + expected_text(expected@.map_values(|s: String| s@)),
        SyntaxError::UnrecognizedToken { begin, end, tok, expected } => "Unexpected "@ + tok@
            + "; expected "@ + expected_text(expected@.map_values(|s: String| s@)),
        SyntaxError::ExtraToken { begin, end, tok } => "Unexpected "@ + tok@
            + "; expected no more tokens"@,
        SyntaxError::User { error } => spec_assembler_message(error),
    }
}

/// What `Error::located_message` renders: the position-bearing variants
/// get an `at <offset>: ` prefix from their earliest carried location.
pub open spec fn spec_located_message(e: SyntaxError) -> Seq<char> {
    match e {
        SyntaxError::InvalidToken { location } => "at "@ + lexer::dec_digits(
            location.offset as nat,
        ) + ": "@ + spec_error_message(e),
        SyntaxError::UnrecognizedEof { location, expected } => "at "@ + lexer::dec_digits(
            location.offset as nat,
        ) + ": "@ + spec_error_message(e),
        SyntaxError::UnrecognizedToken { begin, end, tok, expected } => "at "@
            + lexer::dec_digits(begin.offset as nat) + ": "@ + spec_error_message(e),
        SyntaxError::ExtraToken { begin, end, tok } => "at "@ + lexer::dec_digits(
            begin.offset as nat,
        ) + ": "@ + spec_error_message(e),
        SyntaxError::User { error } => spec_error_message(e),
    }
}

impl Error {
    /// The wrapped diagnostic, as contracts see it.
    pub closed spec fn spec_syntax(&self) -> SyntaxError {
        self.err
    }

    /// Wraps a syntactic diagnostic.
    pub fn from_syntax(err: SyntaxError) -> (r: Self)
        ensures
            r.spec_syntax() == err,
    {
        Error { err }
    }

    /// Wraps an assembler error raised during the parse.
    pub fn from_assembler(err: AssemblerError) -> (r: Self)
        ensures
            r.spec_syntax() == (SyntaxError::User { error: err }),
    {
        Error { err: SyntaxError::User { error: err } }
    }

    /// The wrapped diagnostic.
    pub fn syntax(&self) -> (r: &SyntaxError)
        ensures
            r == self.spec_syntax(),
    {
        &self.err
    }

    /// The diagnostic's text prefixed with its source position, for the
    /// variants that carry one; a semantic-action error renders bare.
    pub fn located_message(&self) -> (r: String)
        requires
            match self.spec_syntax() {
                SyntaxError::UnrecognizedEof { expected, .. } => expected@.len() > 0,
                SyntaxError::UnrecognizedToken { expected, .. } => expected@.len() > 0,
                _ => true,
            },
        ensures
            r@ == spec_located_message(self.spec_syntax()),
    {
        let loc_opt: Option<usize> = match &self.err {
            SyntaxError::InvalidToken { location } => Some(location.offset),
            SyntaxError::UnrecognizedEof { location, .. } => Some(location.offset),
            SyntaxError::UnrecognizedToken { begin, .. } => Some(begin.offset),
            SyntaxError::ExtraToken { begin, .. } => Some(begin.offset),
            SyntaxError::User { .. } => None,
        };
        let msg = self.message();
        match loc_opt {
            None => msg,
            Some(off) => {
                let mut out = String::from_str("at ");
                let rendered = lexer::offset_string(off);
                out.append(rendered.as_str());
                out.append(": ");
                out.append(msg.as_str());
                out
            },
        }
    }

    /// The diagnostic's text, per `spec_error_message`. An empty expected
    /// list would make the disjunction unrenderable, so it is ruled out,
    /// as the grammar always offers at least one continuation.
    pub fn message(&self) -> (r: String)
        requires
            match self.spec_syntax() {
                SyntaxError::UnrecognizedEof { expected, .. } => expected@.len() > 0,
                SyntaxError::UnrecognizedToken { expected, .. } => expected@.len() > 0,
                _ => true,
            },
        ensures
            r@ == spec_error_message(self.spec_syntax()),
    {
        match &self.err {
            SyntaxError::InvalidToken { location } => String::from_str("Invalid token"),
            SyntaxError::UnrecognizedEof { location, expected } => {
                let mut out = String::from_str("Unexpected EOF; expected ");
                write_expected_tokens(&mut out, expected);
                out
            },
            SyntaxError::UnrecognizedToken { begin, end, tok, expected } => {
                let mut out = String::from_str("Unexpected ");
                out.append(tok.as_str());
                out.append("; expected ");
                write_expected_tokens(&mut out, expected);
                out
            },
            SyntaxError::ExtraToken { begin, end, tok } => {
                let mut out = String::from_str("Unexpected ");
                out.append(tok.as_str());
                out.append("; expected no more tokens");
                out
            },
            SyntaxError::User { error } => error.message(),
        }
    }
}

/// What `AssemblerError::message` renders for each assembler diagnostic.
pub open spec fn spec_assembler_message(e: AssemblerError) -> Seq<char> {
    match e {
        AssemblerError::BadInterpFmt(s) => "Bad interpolation format \""@ + s@ + "\""@,
        AssemblerError::CharAfterLineCont(c) =>
            "Begun line continuation, but encountered character '"@.push(c) + "'"@,
        AssemblerError::GarbageChar(c) => "Garbage char '"@.push(c) + "'"@,
        AssemblerError::EmptyFract => "Invalid fixed-point constant, no digits after '.'"@,
        AssemblerError::EmptyGfx => "Invalid gfx constant, no digits after '`'"@,
        AssemblerError::EmptyHex => "Invalid hex constant, no digits after '$'"@,
        AssemblerError::EmptyInterpFmt => "Empty interpolation format"@,
        AssemblerError::EmptyInterpName => "Empty interpolation name"@,
        AssemblerError::EmptyOct => "Invalid octal constant, no digits after '&'"@,
        AssemblerError::IllegalEscape(c) => "Illegal character escape '"@.push(c) + "'"@,
        AssemblerError::IllegalEscapeEOF => "Illegal character escape at end of input"@,
        AssemblerError::IllegalInterpChar(c) => "Illegal character '"@.push(c)
            + "' in interpolation"@,
        AssemblerError::LineContEOF => "Line continuation at end of file"@,
        AssemblerError::MultipleInterpFmt => "Multiple interpolation formats"@,
        AssemblerError::UntermInterp => "Unterminated interpolation"@,
        AssemblerError::UntermString => "Unterminated string"@,
        AssemblerError::AssertFailure(m) => match m {
            Some(s) => "Assertion failure: "@ + s@,
            None => "Assertion failure"@,
        },
        AssemblerError::LdHLHL => "ld [hl], [hl] is not a valid instruction"@,
        AssemblerError::LocalInMainScope(n) => "Local symbol \""@ + n@ + "\" in main scope"@,
        AssemblerError::ExprNotConstant => "Expression is not constant"@,
        AssemblerError::SymbolRedef => "Redefined symbol"@,
    }
}

impl AssemblerError {
    /// The diagnostic's text, per `spec_assembler_message`.
    pub fn message(&self) -> (r: String)
        ensures
            r@ == spec_assembler_message(*self),
    {
        match self {
            AssemblerError::BadInterpFmt(s) => {
                let mut out = String::from_str("Bad interpolation format \"");
                out.append(s.as_str());
                out.append("\"");
                out
            },
            AssemblerError::CharAfterLineCont(c) => {
                let mut out = String::from_str(
                    "Begun line continuation, but encountered character '",
                );
                push_char(&mut out, *c);
                out.append("'");
                out
            },
            AssemblerError::GarbageChar(c) => {
                let mut out = String::from_str("Garbage char '");
                push_char(&mut out, *c);
                out.append("'");
                out
            },
            AssemblerError::EmptyFract => String::from_str(
                "Invalid fixed-point constant, no digits after '.'",
            ),
            AssemblerError::EmptyGfx => String::from_str(
                "Invalid gfx constant, no digits after '`'",
            ),
            AssemblerError::EmptyHex => String::from_str(
                "Invalid hex constant, no digits after '$'",
            ),
            AssemblerError::EmptyInterpFmt => String::from_str("Empty interpolation format"),
            AssemblerError::EmptyInterpName => String::from_str("Empty interpolation name"),
            AssemblerError::EmptyOct => String::from_str(
                "Invalid octal constant, no digits after '&'",
            ),
            AssemblerError::IllegalEscape(c) => {
                let mut out = String::from_str("Illegal character escape '");
                push_char(&mut out, *c);
                out.append("'");
                out
            },
            AssemblerError::IllegalEscapeEOF => String::from_str(
                "Illegal character escape at end of input",
            ),
            AssemblerError::IllegalInterpChar(c) => {
                let mut out = String::from_str("Illegal character '");
                push_char(&mut out, *c);
                out.append("' in interpolation");
                out
            },
            AssemblerError::LineContEOF => String::from_str("Line continuation at end of file"),
            AssemblerError::MultipleInterpFmt => String::from_str(
                "Multiple interpolation formats",
            ),
            AssemblerError::UntermInterp => String::from_str("Unterminated interpolation"),
            AssemblerError::UntermString => String::from_str("Unterminated string"),
            AssemblerError::AssertFailure(m) => match m {
                Some(s) => {
                    let mut out = String::from_str("Assertion failure: ");
                    out.append(s.as_str());
                    out
                },
                None => String::from_str("Assertion failure"),
            },
            AssemblerError::LdHLHL => String::from_str(
                "ld [hl], [hl] is not a valid instruction",
            ),
            AssemblerError::LocalInMainScope(n) => {
                let mut out = String::from_str("Local symbol \"");
                out.append(n.as_str());
                out.append("\" in main scope");
                out
            },
            AssemblerError::ExprNotConstant => String::from_str("Expression is not constant"),
            AssemblerError::SymbolRedef => String::from_str("Redefined symbol"),
        }
    }
}

/// A diagnostic as handed to the sink: a warning or an error.
#[derive(Debug)]
pub enum Diagnostic {
    Warning(Warning),
    Error(Error),
}

/// Severity of a user assertion directive.
#[derive(Debug, Clone, Copy, PartialEq, Eq, Structural)]
pub enum AssertType {
    Warn,
    Error,
    Fatal,
}

/// One compilation session: the symbol table, the active scope, and the
/// rolling allocation pointer (the `_RS` symbol). There is exactly one table
/// per compilation run, created already seeded with the allocation pointer.
pub struct Assembler {
    symbols: Vec<symbol::Symbol>,
    sym_scope: Option<String>,
}

impl Assembler {
    /// Abstract contents of the table: symbol name to symbol state.
    pub closed spec fn sym_map(&self) -> Map<Seq<char>, symbol::SymbolView> {
        Map::new(
            |n: Seq<char>|
                exists|i: int| 0 <= i < self.symbols.len() && self.symbols[i]@.name == n,
            |n: Seq<char>|
                self.symbols[choose|i: int|
                    0 <= i < self.symbols.len() && self.symbols[i]@.name == n]@,
        )
    }

    /// The name the active scope was set to, if any. Local names resolve
    /// against it only while a symbol of that name is in the table.
    pub closed spec fn scope_name(&self) -> Option<Seq<char>> {
        match self.sym_scope {
            Some(ref s) => Some(s@),
            None => None,
        }
    }

    /// The active scope after revalidation: the scope reference counts only
    /// while the symbol it names still exists in the table.
    pub open spec fn active_scope(&self) -> Option<Seq<char>> {
        match self.scope_name() {
            Some(n) => if self.sym_map().contains_key(n) {
                Some(n)
            } else {
                None
            },
            None => None,
        }
    }

    /// Internal well-formedness: names are unique, and the allocation
    /// pointer `_RS` is present as an integer constant.
    pub closed spec fn wf(&self) -> bool {
        &&& forall|i: int, j: int|
            0 <= i < j < self.symbols.len() ==> self.symbols[i]@.name != self.symbols[j]@.name
        &&& exists|i: int|
            0 <= i < self.symbols.len() && self.symbols[i]@.name == "_RS"@
                && self.symbols[i]@.value is Equ
    }

    /// The current value of the allocation pointer.
    pub open spec fn rs_value(&self) -> int
        recommends
            self.wf(),
    {
        self.sym_map()["_RS"@].value->Equ_0
    }

    proof fn lemma_map_index(&self, i: int)
        requires
            self.wf(),
            0 <= i < self.symbols@.len(),
        ensures
            self.sym_map().contains_key(self.symbols@[i]@.name),
            self.sym_map()[self.symbols@[i]@.name] == self.symbols@[i]@,
    {
        let n = self.symbols@[i]@.name;
        assert(self.sym_map().contains_key(n));
        let j = choose|j: int| 0 <= j < self.symbols.len() && self.symbols[j]@.name == n;
        assert(j == i);
    }

    proof fn lemma_map_update(pre: Self, post: Self, i: int)
        requires
            pre.wf(),
            post.wf(),
            pre.symbols@.len() == post.symbols@.len(),
            0 <= i < pre.symbols@.len(),
            forall|k: int|
                0 <= k < pre.symbols@.len() && k != i ==> post.symbols@[k]@ == pre.symbols@[k]@,
            post.symbols@[i]@.name == pre.symbols@[i]@.name,
        ensures
            post.sym_map() == pre.sym_map().insert(pre.symbols@[i]@.name, post.symbols@[i]@),
    {
        let name = pre.symbols@[i]@.name;
        let target = pre.sym_map().insert(name, post.symbols@[i]@);
        assert forall|n: Seq<char>| #[trigger]
            post.sym_map().contains_key(n) implies target.contains_key(n) && post.sym_map()[n]
            == target[n] by {
            let k = choose|k: int|
                0 <= k < post.symbols.len() && post.symbols[k]@.name == n;
            post.lemma_map_index(k);
            if k != i {
                pre.lemma_map_index(k);
                assert(pre.symbols@[k]@.name == n);
                assert(n != name);
            }
        }
        assert forall|n: Seq<char>| #[trigger]
            target.contains_key(n) implies post.sym_map().contains_key(n) by {
            if n == name {
                post.lemma_map_index(i);
            } else {
                let k = choose|k: int|
                    0 <= k < pre.symbols.len() && pre.symbols[k]@.name == n;
                assert(k != i);
                post.lemma_map_index(k);
            }
        }
        assert(post.sym_map() =~= target);
    }

    proof fn lemma_map_push(pre: Self, post: Self)
        requires
            pre.wf(),
            post.wf(),
            post.symbols@.len() == pre.symbols@.len() + 1,
            forall|k: int| 0 <= k < pre.symbols@.len() ==> post.symbols@[k]@ == pre.symbols@[k]@,
        ensures
            post.sym_map() == pre.sym_map().insert(
                post.symbols@[pre.symbols@.len() as int]@.name,
                post.symbols@[pre.symbols@.len() as int]@,
            ),
    {
        let newi = pre.symbols@.len() as int;
        let name = post.symbols@[newi]@.name;
        let target = pre.sym_map().insert(name, post.symbols@[newi]@);
        assert forall|n: Seq<char>| #[trigger]
            post.sym_map().contains_key(n) implies target.contains_key(n) && post.sym_map()[n]
            == target[n] by {
            let k = choose|k: int|
                0 <= k < post.symbols.len() && post.symbols[k]@.name == n;
            post.lemma_map_index(k);
            if k != newi {
                pre.lemma_map_index(k);
                assert(pre.symbols@[k]@.name == n);
                assert(n != name);
            }
        }
        assert forall|n: Seq<char>| #[trigger]
            target.contains_key(n) implies post.sym_map().contains_key(n) by {
            if n == name {
                post.lemma_map_index(newi);
            } else {
                let k = choose|k: int|
                    0 <= k < pre.symbols.len() && pre.symbols[k]@.name == n;
                post.lemma_map_index(k);
            }
        }
        assert(post.sym_map() =~= target);
    }

    /// Fresh session: an otherwise empty table whose only entry is the
    /// allocation pointer `_RS`, seeded to zero, and no active scope.
    pub fn new() -> (r: Self)
        ensures
            r.wf(),
            r.sym_map() == Map::<Seq<char>, symbol::SymbolView>::empty().insert(
                "_RS"@,
                symbol::SymbolView {
                    name: "_RS"@,
                    value: symbol::SymbolValue::Equ(0),
                    exported: false,
                },
            ),
            r.scope_name() is None,
            r.rs_value() == 0,
    {
        let mut symbols: Vec<symbol::Symbol> = Vec::new();
        symbols.push(symbol::Symbol::new_equ(String::from_str("_RS"), 0));
        let r = Assembler { symbols, sym_scope: None };
        proof {
            assert(r.symbols@[0]@.name == "_RS"@);
            assert(r.sym_map() =~= Map::<Seq<char>, symbol::SymbolView>::empty().insert(
                "_RS"@,
                symbol::SymbolView {
                    name: "_RS"@,
                    value: symbol::SymbolValue::Equ(0),
                    exported: false,
                },
            ));
            r.lemma_map_index(0);
        }
        r
    }

    /// Index of the symbol with this name, if present.
    fn find_index(&self, name: &String) -> (r: Option<usize>)
        requires
            self.wf(),
        ensures
            match r {
                Some(i) => i < self.symbols@.len() && self.symbols@[i as int]@.name == name@
                    && self.sym_map().contains_key(name@) && self.sym_map()[name@]
                    == self.symbols@[i as int]@,
                None => !self.sym_map().contains_key(name@),
            },
    {
        let mut i: usize = 0;
        while i < self.symbols.len()
            invariant
                self.wf(),
                i <= self.symbols@.len(),
                forall|j: int| 0 <= j < i ==> self.symbols@[j]@.name != name@,
            decreases self.symbols@.len() - i,
        {
            if *self.symbols[i].get_name() == *name {
                proof {
                    self.lemma_map_index(i as int);
                }
                return Some(i);
            }
            i += 1;
        }
        None
    }

    /// Read-only lookup of a symbol by (already expanded) name.
    pub fn find_symbol(&self, name: &String) -> (r: Option<&symbol::Symbol>)
        requires
            self.wf(),
        ensures
            match r {
                Some(s) => self.sym_map().contains_key(name@) && s@ == self.sym_map()[name@],
                None => !self.sym_map().contains_key(name@),
            },
    {
        match self.find_index(name) {
            Some(i) => Some(&self.symbols[i]),
            None => None,
        }
    }

    /// Defines a symbol, or re-defines an existing one under the
    /// redefinition policy (`symbol::redefined`): an unknown name is
    /// inserted; a known name keeps its kind and exported flag, succeeds
    /// exactly when the policy allows the new value, and is left untouched
    /// on conflict.
    pub fn add_symbol(&mut self, sym: symbol::Symbol) -> (r: Result<(), AssemblerError>)
        requires
            old(self).wf(),
        ensures
            final(self).wf(),
            final(self).scope_name() == old(self).scope_name(),
            !old(self).sym_map().contains_key(sym@.name) ==> r is Ok && final(self).sym_map()
                == old(self).sym_map().insert(sym@.name, sym@),
            old(self).sym_map().contains_key(sym@.name) ==> match symbol::redefined(
                old(self).sym_map()[sym@.name].value,
                sym@.value,
            ) {
                Some(v) => r is Ok && final(self).sym_map() == old(self).sym_map().insert(
                    sym@.name,
                    symbol::SymbolView {
                        name: sym@.name,
                        value: v,
                        exported: old(self).sym_map()[sym@.name].exported,
                    },
                ),
                None => r == Err::<(), AssemblerError>(AssemblerError::SymbolRedef)
                    && final(self).sym_map() == old(self).sym_map(),
            },
    {
        let ghost pre = *self;
        match self.find_index(sym.get_name()) {
            Some(i) => {
                let ghost prev = self.symbols@[i as int]@;
                let res = self.symbols[i].redefine(sym);
                proof {
                    assert forall|k: int, l: int|
                        0 <= k < l < self.symbols.len() implies self.symbols[k]@.name
                        != self.symbols[l]@.name by {
                        assert(pre.symbols[k]@.name != pre.symbols[l]@.name);
                    }
                    assert(self.symbols@[i as int]@.name == prev.name);
                    assert(self.wf()) by {
                        let w = choose|w: int|
                            0 <= w < pre.symbols.len() && pre.symbols[w]@.name == "_RS"@
                                && pre.symbols[w]@.value is Equ;
                        if w != i {
                            assert(self.symbols@[w]@ == pre.symbols@[w]@);
                        } else {
                            assert(self.symbols@[w]@.name == "_RS"@);
                            assert(self.symbols@[w]@.value is Equ);
                        }
                    }
                    Self::lemma_map_update(pre, *self, i as int);
                    if res is Err {
                        assert(self.symbols@[i as int]@ == prev);
                        assert(pre.sym_map().insert(prev.name, prev) =~= pre.sym_map());
                    }
                }
                res
            },
            None => {
                self.symbols.push(sym);
                proof {
                    let ghost newi = self.symbols@.len() - 1;
                    assert forall|k: int, l: int|
                        0 <= k < l < self.symbols.len() implies self.symbols[k]@.name
                        != self.symbols[l]@.name by {
                        if l < newi {
                            assert(pre.symbols[k]@.name != pre.symbols[l]@.name);
                        } else {
                            pre.lemma_map_index(k);
                        }
                    }
                    assert(self.wf()) by {
                        let w = choose|w: int|
                            0 <= w < pre.symbols.len() && pre.symbols[w]@.name == "_RS"@
                                && pre.symbols[w]@.value is Equ;
                        assert(self.symbols@[w]@ == pre.symbols@[w]@);
                    }
                    Self::lemma_map_push(pre, *self);
                }
                Ok(())
            },
        }
    }

    /// The symbol the active scope refers to, revalidated against the
    /// table: absent whenever no scope was set or its symbol is gone.
    pub fn get_symbol_scope(&self) -> (r: Option<&symbol::Symbol>)
        requires
            self.wf(),
        ensures
            match r {
                Some(s) => self.active_scope() matches Some(n) && s@ == self.sym_map()[n],
                None => self.active_scope() is None,
            },
    {
        match &self.sym_scope {
            Some(n) => self.find_symbol(n),
            None => None,
        }
    }

    /// Makes the symbol of this name the active scope for local names.
    pub fn set_symbol_scope(&mut self, scope: String)
        requires
            old(self).wf(),
        ensures
            final(self).wf(),
            final(self).scope_name() == Some(scope@),
            final(self).sym_map() == old(self).sym_map(),
    {
        let ghost pre = *self;
        self.sym_scope = Some(scope);
        proof {
            assert(self.sym_map() =~= pre.sym_map());
        }
    }

    /// Qualifies a local name (one starting with `.`) with the active
    /// scope's name; any other name passes through unchanged. A local name
    /// outside any scope is the main-scope diagnostic.
    pub fn expand_sym_name(&self, name: String) -> (r: Result<String, AssemblerError>)
        requires
            self.wf(),
        ensures
            name@.len() == 0 || name@[0] != '.' ==> (r matches Ok(s) && s@ == name@),
            name@.len() > 0 && name@[0] == '.' ==> match self.active_scope() {
                Some(sc) => (r matches Ok(s) && s@ == sc + name@),
                None => (r matches Err(e) && e matches AssemblerError::LocalInMainScope(m) && m@
                    == name@),
            },
    {
        let len = name.as_str().unicode_len();
        if len == 0 || name.as_str().get_char(0) != '.' {
            return Ok(name);
        }
        match self.get_symbol_scope() {
            Some(scope) => {
                let mut out = scope.get_name().clone();
                out.append(name.as_str());
                Ok(out)
            },
            None => Err(AssemblerError::LocalInMainScope(name)),
        }
    }

    /// Reads the allocation pointer, advances it by `offset` for next time,
    /// and returns the value as it was before the increment, so the first
    /// field in a sequence sees the fresh pointer's value.
    pub fn advance_rs(&mut self, offset: i32) -> (r: i32)
        requires
            old(self).wf(),
            i32::MIN <= old(self).rs_value() + offset <= i32::MAX,
        ensures
            final(self).wf(),
            r as int == old(self).rs_value(),
            final(self).scope_name() == old(self).scope_name(),
            final(self).sym_map() == old(self).sym_map().insert(
                "_RS"@,
                symbol::SymbolView {
                    name: "_RS"@,
                    value: symbol::SymbolValue::Equ(old(self).rs_value() + offset),
                    exported: old(self).sym_map()["_RS"@].exported,
                },
            ),
            final(self).rs_value() == old(self).rs_value() + offset,
    {
        let rs_name = String::from_str("_RS");
        let idx_opt = self.find_index(&rs_name);
        proof {
            let w = choose|w: int|
                0 <= w < self.symbols.len() && self.symbols[w]@.name == "_RS"@
                    && self.symbols[w]@.value is Equ;
            self.lemma_map_index(w);
        }
        let i = idx_opt.unwrap();
        let ghost pre = *self;
        let val = self.symbols[i].get_value().unwrap();
        self.symbols[i].set_value(val + offset);
        proof {
            assert forall|k: int, l: int|
                0 <= k < l < self.symbols.len() implies self.symbols[k]@.name
                != self.symbols[l]@.name by {
                assert(pre.symbols[k]@.name != pre.symbols[l]@.name);
            }
            assert(self.symbols@[i as int]@.name == "_RS"@);
            assert(self.symbols@[i as int]@.value is Equ);
            Self::lemma_map_update(pre, *self, i as int);
        }
        val
    }

    /// Evaluates a user assertion: a zero condition passes. A non-zero
    /// condition must carry the fatal severity (the softer severities are
    /// not implemented) and yields the assertion-failure diagnostic with
    /// the optional message.
    pub fn check_assertion(&self, assert_type: AssertType, expr: i32, msg: Option<String>) -> (r:
        Result<(), AssemblerError>)
        requires
            expr != 0 ==> assert_type is Fatal,
        ensures
            expr == 0 ==> r == Ok::<(), AssemblerError>(()),
            expr != 0 ==> (r matches Err(e) && e matches AssemblerError::AssertFailure(m)
                && (match (m, msg) {
                    (Some(a), Some(b)) => a@ == b@,
                    (None, None) => true,
                    _ => false,
                })),
    {
        if expr == 0 {
            return Ok(());
        }
        match assert_type {
            AssertType::Fatal => Err(AssemblerError::AssertFailure(msg)),
            _ => Err(AssemblerError::AssertFailure(msg)),
        }
    }
}

} // verus!
