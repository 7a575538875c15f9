//! Token classifications and the character-stream tokenizer that consults
//! the keyword trie for every identifier-shaped run of characters.
use vstd::prelude::*;

use crate::AssemblerError;
use crate::trie::KeywordTrie;
use crate::trie::folded;
use crate::trie::is_ident_char;
use crate::trie::is_ident_char_exec;
use crate::trie::starts_ident;
use crate::trie::starts_ident_exec;

verus! {

/// A reserved word: an instruction mnemonic, a register name, or an
/// assembler directive. These are the classifications the keyword trie
/// stores; none of them carries a payload.
#[derive(Debug, Clone, Copy, PartialEq, Eq, Structural)]
pub enum Keyword {
    // Instruction mnemonics
    Adc,
    Add,
    And,
    Bit,
    Call,
    Cp,
    Dec,
    Di,
    Ei,
    Halt,
    Inc,
    Jp,
    Jr,
    Ld,
    Ldh,
    Nop,
    Or,
    Pop,
    Push,
    Res,
    Ret,
    Rst,
    Sbc,
    Sub,
    Xor,
    // Register names
    A,
    B,
    C,
    D,
    E,
    H,
    L,
    Af,
    Bc,
    De,
    Hl,
    Sp,
    // Directives
    Db,
    Ds,
    Dw,
    Equ,
    Equs,
    Export,
    Section,
    SetDir,
}

/// A position in the source text, as a character offset from its start.
#[derive(Debug, Clone, Copy, PartialEq, Eq, Structural)]
pub struct Location {
    pub offset: usize,
}

/// A begin/end pair of positions delimiting one lexical unit.
#[derive(Debug, Clone, Copy, PartialEq, Eq, Structural)]
pub struct LocationSpan {
    pub begin: Location,
    pub end: Location,
}

/// The closed set of token classifications handed to the parser. Literal
/// forms carry their decoded payload.
#[derive(Debug, Clone, PartialEq, Eq)]
pub enum TokType {
    /// A reserved word recognized by the keyword trie.
    Keyword(Keyword),
    /// An identifier-shaped run that is not a reserved word.
    Ident(String),
    /// A numeric literal.
    Number(i32),
    /// A string literal, with its quotes removed.
    StringLit(String),
    Comma,
    Colon,
    LBracket,
    RBracket,
    LParen,
    RParen,
    Plus,
    Minus,
    Star,
    Slash,
    Pipe,
    Ampersand,
    Caret,
    ShiftLeft,
    ShiftRight,
    Newline,
}

/// One lexical unit: its classification plus the span it came from.
#[derive(Debug, Clone, PartialEq, Eq)]
pub struct Token {
    pub begin: Location,
    pub tok: TokType,
    pub end: Location,
}

/// Is this a decimal digit?
pub open spec fn is_digit(c: char) -> bool {
    48 <= c as u32 <= 57
}

/// Is this a hexadecimal digit?
pub open spec fn is_hex_digit(c: char) -> bool {
    is_digit(c) || (65 <= c as u32 <= 70) || (97 <= c as u32 <= 102)
}

/// The numeric value of one hexadecimal digit.
pub open spec fn hex_digit_value(c: char) -> int {
    if is_digit(c) {
        c as u32 - 48
    } else if 65 <= c as u32 <= 70 {
        c as u32 - 55
    } else {
        c as u32 - 87
    }
}

/// The value of a run of decimal digits.
pub open spec fn dec_value(s: Seq<char>) -> int
    decreases s.len(),
{
    if s.len() == 0 {
        0
    } else {
        dec_value(s.drop_last()) * 10 + (s.last() as u32 - 48)
    }
}

/// The value of a run of hexadecimal digits.
pub open spec fn hex_value(s: Seq<char>) -> int
    decreases s.len(),
{
    if s.len() == 0 {
        0
    } else {
        hex_value(s.drop_last()) * 16 + hex_digit_value(s.last())
    }
}

/// The classification of a one-character punctuation token, if the
/// character is one.
pub open spec fn punct_token(c: char) -> Option<TokType> {
    match c {
        ',' => Some(TokType::Comma),
        ':' => Some(TokType::Colon),
        '[' => Some(TokType::LBracket),
        ']' => Some(TokType::RBracket),
        '(' => Some(TokType::LParen),
        ')' => Some(TokType::RParen),
        '+' => Some(TokType::Plus),
        '-' => Some(TokType::Minus),
        '*' => Some(TokType::Star),
        '/' => Some(TokType::Slash),
        '|' => Some(TokType::Pipe),
        '&' => Some(TokType::Ampersand),
        '^' => Some(TokType::Caret),
        _ => None,
    }
}

/// What one escape character denotes, if it is a legal escape.
pub open spec fn escape_char(c: char) -> Option<char> {
    match c {
        '\\' => Some('\\'),
        '"' => Some('"'),
        'n' => Some('\n'),
        't' => Some('\t'),
        _ => None,
    }
}

/// The decoded content of the raw span `[i, j)` inside a string literal:
/// a backslash and its follower decode as one escape (an illegal escape
/// contributes nothing), every other character stands for itself.
pub open spec fn string_content(src: Seq<char>, i: int, j: int) -> Seq<char>
    decreases j - i,
{
    if i >= j {
        Seq::empty()
    } else if src[i] == '\\' {
        if i + 2 <= j {
            match escape_char(src[i + 1]) {
                Some(c) => seq![c] + string_content(src, i + 2, j),
                None => string_content(src, i + 2, j),
            }
        } else {
            Seq::empty()
        }
    } else {
        seq![src[i]] + string_content(src, i + 1, j)
    }
}

/// Does decoding the span `[i, j)` consume it exactly, no escape reaching
/// past `j`?
pub open spec fn escapes_aligned(src: Seq<char>, i: int, j: int) -> bool
    decreases j - i,
{
    if i >= j {
        i == j
    } else if src[i] == '\\' {
        i + 2 <= j && escapes_aligned(src, i + 2, j)
    } else {
        escapes_aligned(src, i + 1, j)
    }
}

proof fn lemma_aligned_extend(src: Seq<char>, i: int, m: int, step: int)
    requires
        escapes_aligned(src, i, m),
        step == 1 || step == 2,
        step == 1 ==> src[m] != '\\',
        step == 2 ==> src[m] == '\\',
    ensures
        escapes_aligned(src, i, m + step),
    decreases m - i,
{
    if i < m {
        if src[i] == '\\' {
            lemma_aligned_extend(src, i + 2, m, step);
        } else {
            lemma_aligned_extend(src, i + 1, m, step);
        }
    } else {
        if step == 1 {
            assert(escapes_aligned(src, m + 1, m + 1));
        } else {
            assert(escapes_aligned(src, m + 2, m + 2));
        }
    }
}

proof fn lemma_content_append(src: Seq<char>, i: int, m: int, j: int)
    requires
        escapes_aligned(src, i, m),
        i <= m <= j,
    ensures
        string_content(src, i, j) == string_content(src, i, m) + string_content(src, m, j),
    decreases m - i,
{
    if i == m {
        assert(string_content(src, i, m) =~= Seq::<char>::empty());
        assert(string_content(src, i, m) + string_content(src, m, j) =~= string_content(
            src,
            m,
            j,
        ));
    } else if src[i] == '\\' {
        lemma_content_append(src, i + 2, m, j);
        assert(string_content(src, i, j) =~= string_content(src, i, m) + string_content(
            src,
            m,
            j,
        ));
    } else {
        lemma_content_append(src, i + 1, m, j);
        assert(string_content(src, i, j) =~= string_content(src, i, m) + string_content(
            src,
            m,
            j,
        ));
    }
}

/// Blank characters the tokenizer skips without a token.
pub open spec fn is_blank(c: char) -> bool {
    c == ' ' || c == '\t' || c == '\r'
}

/// Is position `p` half of a successful line continuation, a backslash
/// directly followed by a newline? Both halves are consumed silently.
pub open spec fn is_line_cont(src: Seq<char>, p: int) -> bool {
    (src[p] == '\\' && p + 1 < src.len() && src[p + 1] == '\n') || (src[p] == '\n' && p >= 1
        && src[p - 1] == '\\')
}

/// Is position `p` inside the span of some emitted token?
pub open spec fn covered(toks: Seq<Token>, p: int) -> bool {
    exists|j: int|
        0 <= j < toks.len() && toks[j].begin.offset <= p && p < (#[trigger] toks[j]).end.offset
}

/// How far a diagnostic's responsibility reaches: the unrecoverable kinds
/// (an unterminated string, a trailing backslash) cover the rest of the
/// input; the recoverable kinds cover exactly the characters their rule
/// consumed, so a diagnostic never excuses the scan from what follows.
pub open spec fn diag_extent(src: Seq<char>, d: (Location, AssemblerError)) -> int {
    let off = d.0.offset as int;
    match d.1 {
        AssemblerError::UntermString => src.len() as int,
        AssemblerError::IllegalEscapeEOF => src.len() as int,
        AssemblerError::LineContEOF => src.len() as int,
        AssemblerError::IllegalEscape(ch) => off + 2,
        AssemblerError::CharAfterLineCont(ch) => off + 2,
        _ => off + 1,
    }
}

/// Does some diagnostic's extent contain position `p`?
pub open spec fn flagged(
    src: Seq<char>,
    diags: Seq<(Location, AssemblerError)>,
    p: int,
) -> bool {
    exists|j: int|
        0 <= j < diags.len() && (#[trigger] diags[j]).0.offset <= p && p < diag_extent(
            src,
            diags[j],
        )
}

/// Position `p` of the source is accounted for: blank, half of a line
/// continuation, inside a token, or at/after a reported malformation.
pub open spec fn accounted(
    src: Seq<char>,
    toks: Seq<Token>,
    diags: Seq<(Location, AssemblerError)>,
    p: int,
) -> bool {
    is_blank(src[p]) || is_line_cont(src, p) || covered(toks, p) || flagged(src, diags, p)
}

/// Does the string-literal scan opening after a quote run off the end of
/// the input without meeting an unescaped closing quote? A backslash and
/// its follower are consumed as one unit; a trailing backslash leaves the
/// string unterminated too.
pub open spec fn unterminated_from(src: Seq<char>, i: int) -> bool
    decreases src.len() - i,
{
    if i >= src.len() {
        true
    } else if src[i] == '"' {
        false
    } else if src[i] == '\\' {
        if i + 1 >= src.len() {
            true
        } else {
            unterminated_from(src, i + 2)
        }
    } else {
        unterminated_from(src, i + 1)
    }
}

/// Is this a character no scanning rule consumes? Only such a character
/// may be reported as garbage (`<` and `>` are special: they are consumed
/// only as a doubled shift operator).
pub open spec fn is_garbage_at(src: Seq<char>, off: int, ch: char) -> bool {
    &&& src[off] == ch
    &&& (if ch == '<' || ch == '>' {
        off + 1 == src.len() || src[off + 1] != ch
    } else {
        &&& !is_blank(ch)
        &&& ch != '\n'
        &&& !starts_ident(ch)
        &&& !is_digit(ch)
        &&& ch != '$'
        &&& ch != '"'
        &&& ch != '\\'
        &&& punct_token(ch) is None
    })
}

/// The evidence each emitted diagnostic must carry: its location points at
/// a genuine malformation of the kind it names — a garbage character is
/// one no rule consumes, an unterminated string really scans off the end,
/// and the escape and continuation kinds sit on their backslash. Only
/// these lexical kinds are ever produced; the octal, gfx, fixed-point, and
/// interpolation malformations of the taxonomy have no producing rule in
/// this scanner (see the note on `tokenize`).
pub open spec fn diag_ok(src: Seq<char>, d: (Location, AssemblerError)) -> bool {
    let off = d.0.offset as int;
    match d.1 {
        AssemblerError::GarbageChar(ch) => off < src.len() && is_garbage_at(src, off, ch),
        AssemblerError::EmptyHex => off < src.len() && src[off] == '$' && (off + 1 == src.len()
            || !is_hex_digit(src[off + 1])),
        AssemblerError::UntermString => off < src.len() && src[off] == '"' && unterminated_from(
            src,
            off + 1,
        ),
        AssemblerError::IllegalEscape(ch) => off + 1 < src.len() && src[off] == '\\' && src[off
            + 1] == ch && escape_char(ch) is None,
        AssemblerError::IllegalEscapeEOF => off + 1 == src.len() && src[off] == '\\',
        AssemblerError::LineContEOF => off + 1 == src.len() && src[off] == '\\',
        AssemblerError::CharAfterLineCont(ch) => off + 1 < src.len() && src[off] == '\\'
            && src[off + 1] == ch && ch != '\n',
        _ => false,
    }
}

/// Accounting survives appending tokens and diagnostics: the witnesses for
/// already-accounted positions keep their indices.
proof fn lemma_account_grow(
    src: Seq<char>,
    toks1: Seq<Token>,
    diags1: Seq<(Location, AssemblerError)>,
    toks2: Seq<Token>,
    diags2: Seq<(Location, AssemblerError)>,
    bound: int,
)
    requires
        forall|p: int| 0 <= p < bound ==> accounted(src, toks1, diags1, p),
        toks1.len() <= toks2.len(),
        forall|j: int| 0 <= j < toks1.len() ==> toks2[j] == toks1[j],
        diags1.len() <= diags2.len(),
        forall|j: int| 0 <= j < diags1.len() ==> diags2[j] == diags1[j],
    ensures
        forall|p: int| 0 <= p < bound ==> accounted(src, toks2, diags2, p),
{
    assert forall|p: int| 0 <= p < bound implies accounted(src, toks2, diags2, p) by {
        assert(accounted(src, toks1, diags1, p));
        if covered(toks1, p) {
            let j = choose|j: int|
                0 <= j < toks1.len() && toks1[j].begin.offset <= p && p < toks1[j].end.offset;
            assert(toks2[j] == toks1[j]);
            assert(covered(toks2, p));
        } else if flagged(src, diags1, p) {
            let j = choose|j: int|
                0 <= j < diags1.len() && diags1[j].0.offset <= p && p < diag_extent(
                    src,
                    diags1[j],
                );
            assert(diags2[j] == diags1[j]);
            assert(flagged(src, diags2, p));
        }
    }
}

/// Appending one well-evidenced diagnostic keeps every diagnostic
/// well-evidenced.
proof fn lemma_diag_ok_push(
    src: Seq<char>,
    diags: Seq<(Location, AssemblerError)>,
    d: (Location, AssemblerError),
)
    requires
        forall|j: int| 0 <= j < diags.len() ==> diag_ok(src, #[trigger] diags[j]),
        diag_ok(src, d),
    ensures
        forall|j: int| 0 <= j < diags.push(d).len() ==> diag_ok(src, #[trigger] diags.push(d)[j]),
{
    assert forall|j: int| 0 <= j < diags.push(d).len() implies diag_ok(
        src,
        #[trigger] diags.push(d)[j],
    ) by {
        if j < diags.len() {
            assert(diags.push(d)[j] == diags[j]);
        } else {
            assert(diags.push(d)[j] == d);
        }
    }
}

/// Appends a diagnostic, carrying the tokenizer's bookkeeping along: the
/// new diagnostic is well-evidenced, all previously accounted positions
/// stay accounted, and every position at or after the diagnostic's own is
/// now flagged.
fn push_diag(
    diags: &mut Vec<(Location, AssemblerError)>,
    loc: Location,
    err: AssemblerError,
    Ghost(src): Ghost<Seq<char>>,
    Ghost(toks): Ghost<Seq<Token>>,
    Ghost(bound): Ghost<int>,
)
    requires
        diag_ok(src, (loc, err)),
        forall|j: int| 0 <= j < old(diags)@.len() ==> diag_ok(src, #[trigger] old(diags)@[j]),
        forall|p: int| 0 <= p < bound ==> accounted(src, toks, old(diags)@, p),
    ensures
        forall|j: int| 0 <= j < final(diags)@.len() ==> diag_ok(src, #[trigger] final(diags)@[j]),
        forall|p: int| 0 <= p < bound ==> accounted(src, toks, final(diags)@, p),
        forall|p: int|
            loc.offset <= p < diag_extent(src, (loc, err)) ==> flagged(src, final(diags)@, p),
{
    let ghost dpre = diags@;
    let ghost d = (loc, err);
    diags.push((loc, err));
    proof {
        lemma_diag_ok_push(src, dpre, d);
        lemma_account_grow(src, toks, dpre, toks, diags@, bound);
        assert forall|p: int|
            loc.offset <= p < diag_extent(src, d) implies flagged(src, diags@, p) by {
            assert(diags@[diags@.len() - 1] == d);
        }
    }
}

/// What the tokenizer promises of each token it emits, keyed on the first
/// character of the token's span. An identifier-shaped run is maximal and
/// classified by the trie, a digit run is its decimal value, a `$` run its
/// hexadecimal value, and the fixed characters map to their fixed tokens.
pub open spec fn token_ok(trie: &KeywordTrie, src: Seq<char>, t: Token) -> bool {
    let b = t.begin.offset as int;
    let e = t.end.offset as int;
    &&& 0 <= b < e <= src.len()
    &&& (starts_ident(src[b]) ==> {
        &&& forall|j: int| b <= j < e ==> is_ident_char(#[trigger] src[j])
        &&& (e == src.len() || !is_ident_char(src[e]))
        &&& (match trie.spec_lookup(folded(src.subrange(b, e))) {
            Some(kw) => t.tok == TokType::Keyword(kw),
            None => t.tok matches TokType::Ident(s) && s@ == src.subrange(b, e),
        })
    })
    &&& (is_digit(src[b]) ==> {
        &&& forall|j: int| b <= j < e ==> is_digit(#[trigger] src[j])
        &&& (e == src.len() || !is_digit(src[e]))
        &&& (t.tok matches TokType::Number(v) && v as int == (if dec_value(src.subrange(b, e))
            <= i32::MAX {
            dec_value(src.subrange(b, e))
        } else {
            i32::MAX as int
        }))
    })
    &&& (src[b] == '$' ==> {
        &&& e > b + 1
        &&& forall|j: int| b + 1 <= j < e ==> is_hex_digit(#[trigger] src[j])
        &&& (e == src.len() || !is_hex_digit(src[e]))
        &&& (t.tok matches TokType::Number(v) && v as int == (if hex_value(src.subrange(b + 1, e))
            <= i32::MAX {
            hex_value(src.subrange(b + 1, e))
        } else {
            i32::MAX as int
        }))
    })
    &&& (src[b] == '"' ==> (t.tok matches TokType::StringLit(s) && src[e - 1] == '"' && s@
        == string_content(src, b + 1, e - 1)))
    &&& (src[b] == '\n' ==> t.tok == TokType::Newline && e == b + 1)
    &&& (match punct_token(src[b]) {
        Some(pt) => t.tok == pt && e == b + 1,
        None => true,
    })
    &&& (src[b] == '<' ==> t.tok == TokType::ShiftLeft && e == b + 2)
    &&& (src[b] == '>' ==> t.tok == TokType::ShiftRight && e == b + 2)
}

/// The bundle the tokenizer's loop maintains: every emitted token is well
/// formed, ends at or before the scan position, and tokens do not overlap.
pub open spec fn tokens_ok(trie: &KeywordTrie, src: Seq<char>, toks: Seq<Token>, pos: int) -> bool {
    &&& forall|j: int| 0 <= j < toks.len() ==> token_ok(trie, src, #[trigger] toks[j])
    &&& forall|j: int| 0 <= j < toks.len() ==> (#[trigger] toks[j]).end.offset <= pos
    &&& forall|j: int|
        0 <= j < toks.len() - 1 ==> (#[trigger] toks[j]).end.offset <= toks[j + 1].begin.offset
}

proof fn lemma_tokens_push(
    trie: &KeywordTrie,
    src: Seq<char>,
    toks: Seq<Token>,
    pos: int,
    t: Token,
    pos2: int,
)
    requires
        tokens_ok(trie, src, toks, pos),
        token_ok(trie, src, t),
        pos <= t.begin.offset as int,
        t.end.offset as int <= pos2,
        pos <= pos2,
    ensures
        tokens_ok(trie, src, toks.push(t), pos2),
{
    let n = toks.len() as int;
    assert forall|j: int| 0 <= j < n + 1 implies token_ok(trie, src, #[trigger] toks.push(t)[j])
        && (toks.push(t)[j]).end.offset <= pos2 by {
        if j < n {
            assert(toks.push(t)[j] == toks[j]);
        } else {
            assert(toks.push(t)[j] == t);
        }
    }
    assert forall|j: int| 0 <= j < n implies (#[trigger] toks.push(t)[j]).end.offset <= toks.push(
        t,
    )[j + 1].begin.offset by {
        assert(toks.push(t)[j] == toks[j]);
        if j + 1 < n {
            assert(toks.push(t)[j + 1] == toks[j + 1]);
        } else {
            assert(toks.push(t)[j + 1] == t);
        }
    }
}

/// The characters of a span, in order.
fn subrange_chars(src: &Vec<char>, a: usize, b: usize) -> (r: Vec<char>)
    requires
        a <= b <= src@.len(),
    ensures
        r@ == src@.subrange(a as int, b as int),
{
    let mut v: Vec<char> = Vec::new();
    let mut i: usize = a;
    while i < b
        invariant
            a <= i <= b <= src@.len(),
            v@ =~= src@.subrange(a as int, i as int),
        decreases b - i,
    {
        v.push(src[i]);
        i += 1;
    }
    proof {
        assert(v@ =~= src@.subrange(a as int, b as int));
    }
    v
}

/// A `String` with exactly these characters.
fn chars_to_string(v: &Vec<char>) -> (r: String)
    ensures
        r@ == v@,
{
    let mut out = String::new();
    let mut i: usize = 0;
    while i < v.len()
        invariant
            i <= v@.len(),
            out@ =~= v@.subrange(0, i as int),
        decreases v@.len() - i,
    {
        crate::push_char(&mut out, v[i]);
        i += 1;
    }
    proof {
        assert(out@ =~= v@);
    }
    out
}

/// The end of the maximal identifier-shaped run opening at `start`.
fn scan_ident(src: &Vec<char>, start: usize) -> (end: usize)
    requires
        start < src@.len(),
        starts_ident(src@[start as int]),
    ensures
        start < end <= src@.len(),
        forall|j: int| start <= j < end ==> is_ident_char(#[trigger] src@[j]),
        end == src@.len() || !is_ident_char(src@[end as int]),
{
    let n = src.len();
    let mut end = start + 1;
    while end < n && is_ident_char_exec(src[end])
        invariant
            n == src@.len(),
            start < end <= src@.len(),
            forall|j: int| start <= j < end ==> is_ident_char(#[trigger] src@[j]),
        decreases src@.len() - end,
    {
        end += 1;
    }
    end
}

/// The trie consultation at the identifier boundary: a run the trie knows
/// becomes its keyword token; any other run becomes a generic identifier
/// carrying its own spelling. Unrecognized runs are not an error.
pub fn classify_ident(trie: &KeywordTrie, run: Vec<char>) -> (r: TokType)
    requires
        trie.wf(),
    ensures
        trie.spec_lookup(folded(run@)) matches Some(kw) ==> r == TokType::Keyword(kw),
        trie.spec_lookup(folded(run@)) is None ==> (r matches TokType::Ident(s) && s@ == run@),
{
    match trie.lookup(&run) {
        Some(kw) => TokType::Keyword(kw),
        None => TokType::Ident(chars_to_string(&run)),
    }
}

/// One pass over a compilation unit's characters: identifier-shaped runs
/// go through the trie, literals are decoded, fixed characters become
/// their fixed tokens, backslash-newline joins lines, and every lexical
/// malformation becomes a located diagnostic without stopping the scan —
/// except an unterminated string, which ends it. Every token satisfies
/// `token_ok`, tokens come back in source order without overlaps, every
/// non-blank position outside a successful line continuation is inside a
/// token or within some diagnostic's extent (`diag_extent`: exactly the
/// characters the failing rule consumed, or the rest of the input for the
/// unrecoverable kinds), and every diagnostic carries the evidence
/// `diag_ok` demands of a genuine malformation. Together these force the
/// token stream: where no malformation evidence exists, no diagnostic can
/// stand, so the tokens alone must cover the input. Over-long numeric
/// literals saturate to the largest representable value.
///
/// Of the taxonomy's lexical malformations, the octal, gfx, and
/// fixed-point literal forms and string interpolation have no producing
/// rule here, deliberately: `&` always reads as the and-operator (so no
/// octal literal can be left empty), a backtick is a garbage character
/// rather than a gfx literal, a `.` after digits opens a local-symbol
/// identifier rather than a fraction, and interpolation belongs to the
/// string-expansion layer built on `EQUS` substitution, outside the three
/// core engines. `diag_ok`'s final arm records this closed set in the
/// contract itself.
#[verifier::rlimit(100)]
pub fn tokenize(trie: &KeywordTrie, src: &Vec<char>) -> (r: (
    Vec<Token>,
    Vec<(Location, AssemblerError)>,
))
    requires
        trie.wf(),
    ensures
        forall|j: int| 0 <= j < r.0@.len() ==> token_ok(trie, src@, #[trigger] r.0@[j]),
        forall|j: int|
            0 <= j < r.0@.len() - 1 ==> (#[trigger] r.0@[j]).end.offset <= r.0@[j
                + 1].begin.offset,
        forall|p: int| 0 <= p < src@.len() ==> accounted(src@, r.0@, r.1@, p),
        forall|j: int| 0 <= j < r.1@.len() ==> diag_ok(src@, #[trigger] r.1@[j]),
{
    let mut toks: Vec<Token> = Vec::new();
    let mut diags: Vec<(Location, AssemblerError)> = Vec::new();
    let mut pos: usize = 0;
    let n = src.len();
    while pos < n
        invariant
            trie.wf(),
            pos <= n,
            n == src@.len(),
            tokens_ok(trie, src@, toks@, pos as int),
            forall|p: int| 0 <= p < pos ==> accounted(src@, toks@, diags@, p),
            forall|j: int| 0 <= j < diags@.len() ==> diag_ok(src@, #[trigger] diags@[j]),
        decreases n - pos,
    {
        let ghost toks0 = toks@;
        let ghost diags0 = diags@;
        let c = src[pos];
        if c == '\n' {
            let t = Token {
                begin: Location { offset: pos },
                tok: TokType::Newline,
                end: Location { offset: pos + 1 },
            };
            proof {
                assert(token_ok(trie, src@, t));
                lemma_tokens_push(trie, src@, toks@, pos as int, t, pos as int + 1);
            }
            toks.push(t);
            proof {
                lemma_account_grow(src@, toks0, diags0, toks@, diags@, pos as int);
                assert(toks@[toks@.len() - 1] == t);
                assert(covered(toks@, pos as int));
            }
            pos += 1;
        } else if c == ' ' || c == '\t' || c == '\r' {
            proof {
                assert(is_blank(src@[pos as int]));
            }
            pos += 1;
        } else if starts_ident_exec(c) {
            let end = scan_ident(src, pos);
            let run = subrange_chars(src, pos, end);
            let tok = classify_ident(trie, run);
            let t = Token {
                begin: Location { offset: pos },
                tok,
                end: Location { offset: end },
            };
            proof {
                assert(token_ok(trie, src@, t));
                lemma_tokens_push(trie, src@, toks@, pos as int, t, end as int);
            }
            toks.push(t);
            proof {
                lemma_account_grow(src@, toks0, diags0, toks@, diags@, pos as int);
                assert forall|p: int| pos <= p < end implies covered(toks@, p) by {
                    assert(toks@[toks@.len() - 1] == t);
                }
            }
            pos = end;
        } else if ('0' as u32 <= c as u32) && (c as u32 <= '9' as u32) {
            let start = pos;
            let mut value: i32 = 0;
            let mut too_big = false;
            while pos < n && is_digit_exec(src[pos])
                invariant
                    n == src@.len(),
                    start <= pos <= n,
                    forall|j: int| start <= j < pos ==> is_digit(#[trigger] src@[j]),
                    0 <= value,
                    !too_big ==> value as int == dec_value(
                        src@.subrange(start as int, pos as int),
                    ),
                    too_big ==> value == i32::MAX && dec_value(
                        src@.subrange(start as int, pos as int),
                    ) > i32::MAX,
                decreases n - pos,
            {
                let d = (src[pos] as u32) - 48;
                let ghost pre = src@.subrange(start as int, pos as int);
                proof {
                    assert(src@.subrange(start as int, pos as int + 1).drop_last() =~= pre);
                    assert(src@.subrange(start as int, pos as int + 1).last()
                        == src@[pos as int]);
                }
                if !too_big && (value < 214748364 || (value == 214748364 && d <= 7)) {
                    value = value * 10 + (d as i32);
                } else {
                    value = i32::MAX;
                    too_big = true;
                }
                pos += 1;
            }
            let t = Token {
                begin: Location { offset: start },
                tok: TokType::Number(value),
                end: Location { offset: pos },
            };
            proof {
                assert(token_ok(trie, src@, t));
                lemma_tokens_push(trie, src@, toks@, start as int, t, pos as int);
            }
            toks.push(t);
            proof {
                lemma_account_grow(src@, toks0, diags0, toks@, diags@, start as int);
                assert forall|p: int| start <= p < pos implies covered(toks@, p) by {
                    assert(toks@[toks@.len() - 1] == t);
                }
            }
        } else if c == '$' {
            let start = pos;
            pos += 1;
            if pos == n || !is_hex_digit_exec(src[pos]) {
                proof {
                    assert(diag_ok(src@, (Location { offset: start }, AssemblerError::EmptyHex)));
                }
                push_diag(
                    &mut diags,
                    Location { offset: start },
                    AssemblerError::EmptyHex,
                    Ghost(src@),
                    Ghost(toks@),
                    Ghost(start as int),
                );
            } else {
                let mut value: i32 = 0;
                let mut too_big = false;
                while pos < n && is_hex_digit_exec(src[pos])
                    invariant
                        n == src@.len(),
                        start + 1 <= pos <= n,
                        forall|j: int| start + 1 <= j < pos ==> is_hex_digit(#[trigger] src@[j]),
                        0 <= value,
                        !too_big ==> value as int == hex_value(
                            src@.subrange(start as int + 1, pos as int),
                        ),
                        too_big ==> value == i32::MAX && hex_value(
                            src@.subrange(start as int + 1, pos as int),
                        ) > i32::MAX,
                    decreases n - pos,
                {
                    let d = hex_digit_value_exec(src[pos]);
                    let ghost pre = src@.subrange(start as int + 1, pos as int);
                    proof {
                        assert(src@.subrange(start as int + 1, pos as int + 1).drop_last()
                            =~= pre);
                        assert(src@.subrange(start as int + 1, pos as int + 1).last()
                            == src@[pos as int]);
                    }
                    if !too_big && value <= 134217727 {
                        value = value * 16 + (d as i32);
                    } else {
                        value = i32::MAX;
                        too_big = true;
                    }
                    pos += 1;
                }
                let t = Token {
                    begin: Location { offset: start },
                    tok: TokType::Number(value),
                    end: Location { offset: pos },
                };
                proof {
                    assert(token_ok(trie, src@, t));
                    lemma_tokens_push(trie, src@, toks@, start as int, t, pos as int);
                }
                toks.push(t);
                proof {
                    lemma_account_grow(src@, toks0, diags0, toks@, diags@, start as int);
                    assert forall|p: int| start <= p < pos implies covered(toks@, p) by {
                        assert(toks@[toks@.len() - 1] == t);
                    }
                }
            }
        } else if c == '"' {
            let start = pos;
            pos += 1;
            let mut buf = String::new();
            let mut closed = false;
            while pos < n && !closed
                invariant
                    trie.wf(),
                    n == src@.len(),
                    start < pos <= n,
                    tokens_ok(trie, src@, toks@, start as int),
                    src@[start as int] == '"',
                    forall|p: int| 0 <= p < start ==> accounted(src@, toks@, diags@, p),
                    forall|j: int| 0 <= j < diags@.len() ==> diag_ok(src@, #[trigger] diags@[j]),
                    !closed ==> escapes_aligned(src@, start as int + 1, pos as int),
                    !closed ==> unterminated_from(src@, start as int + 1) == unterminated_from(
                        src@,
                        pos as int,
                    ),
                    !closed ==> buf@ == string_content(src@, start as int + 1, pos as int),
                    closed ==> start + 2 <= pos && src@[pos as int - 1] == '"' && buf@
                        == string_content(src@, start as int + 1, pos as int - 1),
                decreases n - pos,
            {
                let c2 = src[pos];
                if c2 == '"' {
                    pos += 1;
                    closed = true;
                } else if c2 == '\\' {
                    if pos + 1 == n {
                        proof {
                            assert(unterminated_from(src@, pos as int));
                            assert(unterminated_from(src@, start as int + 1));
                            assert(diag_ok(
                                src@,
                                (Location { offset: pos }, AssemblerError::IllegalEscapeEOF),
                            ));
                        }
                        push_diag(
                            &mut diags,
                            Location { offset: pos },
                            AssemblerError::IllegalEscapeEOF,
                            Ghost(src@),
                            Ghost(toks@),
                            Ghost(start as int),
                        );
                        proof {
                            assert(diag_ok(
                                src@,
                                (Location { offset: start }, AssemblerError::UntermString),
                            ));
                        }
                        push_diag(
                            &mut diags,
                            Location { offset: start },
                            AssemblerError::UntermString,
                            Ghost(src@),
                            Ghost(toks@),
                            Ghost(start as int),
                        );
                        return (toks, diags);
                    } else {
                        let e2 = src[pos + 1];
                        proof {
                            lemma_content_append(
                                src@,
                                start as int + 1,
                                pos as int,
                                pos as int + 2,
                            );
                            lemma_aligned_extend(src@, start as int + 1, pos as int, 2);
                            assert(unterminated_from(src@, pos as int) == unterminated_from(
                                src@,
                                pos as int + 2,
                            ));
                        }
                        if e2 == '\\' {
                            crate::push_char(&mut buf, '\\');
                            proof {
                                assert(src@[pos as int] == '\\');
                                assert(src@[pos as int + 1] == '\\');
                                assert(escape_char(src@[pos as int + 1]) == Some('\\'));
                                assert(string_content(src@, pos as int + 2, pos as int + 2)
                                    =~= Seq::<char>::empty());
                                assert(string_content(src@, pos as int, pos as int + 2)
                                    =~= seq!['\\']);
                                assert(buf@ =~= string_content(
                                    src@,
                                    start as int + 1,
                                    pos as int + 2,
                                ));
                            }
                        } else if e2 == '"' {
                            crate::push_char(&mut buf, '"');
                            proof {
                                assert(src@[pos as int] == '\\');
                                assert(src@[pos as int + 1] == '"');
                                assert(escape_char(src@[pos as int + 1]) == Some('"'));
                                assert(string_content(src@, pos as int + 2, pos as int + 2)
                                    =~= Seq::<char>::empty());
                                assert(string_content(src@, pos as int, pos as int + 2)
                                    =~= seq!['"']);
                                assert(buf@ =~= string_content(
                                    src@,
                                    start as int + 1,
                                    pos as int + 2,
                                ));
                            }
                        } else if e2 == 'n' {
                            crate::push_char(&mut buf, '\n');
                            proof {
                                assert(src@[pos as int] == '\\');
                                assert(src@[pos as int + 1] == 'n');
                                assert(escape_char(src@[pos as int + 1]) == Some('\n'));
                                assert(string_content(src@, pos as int + 2, pos as int + 2)
                                    =~= Seq::<char>::empty());
                                assert(string_content(src@, pos as int, pos as int + 2)
                                    =~= seq!['\n']);
                                assert(buf@ =~= string_content(
                                    src@,
                                    start as int + 1,
                                    pos as int + 2,
                                ));
                            }
                        } else if e2 == 't' {
                            crate::push_char(&mut buf, '\t');
                            proof {
                                assert(src@[pos as int] == '\\');
                                assert(src@[pos as int + 1] == 't');
                                assert(escape_char(src@[pos as int + 1]) == Some('\t'));
                                assert(string_content(src@, pos as int + 2, pos as int + 2)
                                    =~= Seq::<char>::empty());
                                assert(string_content(src@, pos as int, pos as int + 2)
                                    =~= seq!['\t']);
                                assert(buf@ =~= string_content(
                                    src@,
                                    start as int + 1,
                                    pos as int + 2,
                                ));
                            }
                        } else {
                            proof {
                                assert(src@[pos as int] == '\\');
                                assert(escape_char(src@[pos as int + 1]) is None);
                                assert(diag_ok(
                                    src@,
                                    (Location { offset: pos }, AssemblerError::IllegalEscape(e2)),
                                ));
                            }
                            push_diag(
                                &mut diags,
                                Location { offset: pos },
                                AssemblerError::IllegalEscape(e2),
                                Ghost(src@),
                                Ghost(toks@),
                                Ghost(start as int),
                            );
                            proof {
                                assert(string_content(src@, pos as int, pos as int + 2)
                                    =~= string_content(src@, pos as int + 2, pos as int + 2));
                                assert(string_content(src@, pos as int, pos as int + 2)
                                    =~= Seq::<char>::empty());
                                assert(buf@ =~= string_content(
                                    src@,
                                    start as int + 1,
                                    pos as int + 2,
                                ));
                            }
                        }
                        pos += 2;
                    }
                } else {
                    proof {
                        lemma_content_append(src@, start as int + 1, pos as int, pos as int + 1);
                        lemma_aligned_extend(src@, start as int + 1, pos as int, 1);
                        assert(unterminated_from(src@, pos as int) == unterminated_from(
                            src@,
                            pos as int + 1,
                        ));
                    }
                    crate::push_char(&mut buf, c2);
                    proof {
                        assert(src@[pos as int] == c2);
                        assert(c2 != '\\');
                        assert(string_content(src@, pos as int + 1, pos as int + 1)
                            =~= Seq::<char>::empty());
                        assert(string_content(src@, pos as int, pos as int + 1) =~= seq![c2]);
                        assert(buf@ =~= string_content(src@, start as int + 1, pos as int + 1));
                    }
                    pos += 1;
                }
            }
            if closed {
                let t = Token {
                    begin: Location { offset: start },
                    tok: TokType::StringLit(buf),
                    end: Location { offset: pos },
                };
                proof {
                    assert(token_ok(trie, src@, t));
                    lemma_tokens_push(trie, src@, toks@, start as int, t, pos as int);
                }
                toks.push(t);
                proof {
                    lemma_account_grow(src@, toks0, diags@, toks@, diags@, start as int);
                    assert forall|p: int| start <= p < pos implies covered(toks@, p) by {
                        assert(toks@[toks@.len() - 1] == t);
                    }
                }
            } else {
                proof {
                    assert(pos == n);
                    assert(unterminated_from(src@, pos as int));
                    assert(unterminated_from(src@, start as int + 1));
                    assert(diag_ok(src@, (Location { offset: start }, AssemblerError::UntermString)));
                }
                push_diag(
                    &mut diags,
                    Location { offset: start },
                    AssemblerError::UntermString,
                    Ghost(src@),
                    Ghost(toks@),
                    Ghost(start as int),
                );
                return (toks, diags);
            }
        } else if c == '\\' {
            if pos + 1 == n {
                proof {
                    assert(diag_ok(src@, (Location { offset: pos }, AssemblerError::LineContEOF)));
                }
                push_diag(
                    &mut diags,
                    Location { offset: pos },
                    AssemblerError::LineContEOF,
                    Ghost(src@),
                    Ghost(toks@),
                    Ghost(pos as int),
                );
                pos += 1;
            } else {
                let c2 = src[pos + 1];
                if c2 == '\n' {
                    proof {
                        assert(is_line_cont(src@, pos as int));
                        assert(is_line_cont(src@, pos as int + 1));
                    }
                    pos += 2;
                } else {
                    proof {
                        assert(diag_ok(
                            src@,
                            (Location { offset: pos }, AssemblerError::CharAfterLineCont(c2)),
                        ));
                    }
                    push_diag(
                        &mut diags,
                        Location { offset: pos },
                        AssemblerError::CharAfterLineCont(c2),
                        Ghost(src@),
                        Ghost(toks@),
                        Ghost(pos as int),
                    );
                    pos += 2;
                }
            }
        } else if c == '<' || c == '>' {
            if pos + 1 < n && src[pos + 1] == c {
                let t = Token {
                    begin: Location { offset: pos },
                    tok: if c == '<' {
                        TokType::ShiftLeft
                    } else {
                        TokType::ShiftRight
                    },
                    end: Location { offset: pos + 2 },
                };
                proof {
                    assert(token_ok(trie, src@, t));
                    lemma_tokens_push(trie, src@, toks@, pos as int, t, pos as int + 2);
                }
                toks.push(t);
                proof {
                    lemma_account_grow(src@, toks0, diags0, toks@, diags@, pos as int);
                    assert forall|p: int| pos <= p < pos + 2 implies covered(toks@, p) by {
                        assert(toks@[toks@.len() - 1] == t);
                    }
                }
                pos += 2;
            } else {
                proof {
                    assert(diag_ok(src@, (Location { offset: pos }, AssemblerError::GarbageChar(c))));
                }
                push_diag(
                    &mut diags,
                    Location { offset: pos },
                    AssemblerError::GarbageChar(c),
                    Ghost(src@),
                    Ghost(toks@),
                    Ghost(pos as int),
                );
                pos += 1;
            }
        } else {
            let p = match c {
                ',' => Some(TokType::Comma),
                ':' => Some(TokType::Colon),
                '[' => Some(TokType::LBracket),
                ']' => Some(TokType::RBracket),
                '(' => Some(TokType::LParen),
                ')' => Some(TokType::RParen),
                '+' => Some(TokType::Plus),
                '-' => Some(TokType::Minus),
                '*' => Some(TokType::Star),
                '/' => Some(TokType::Slash),
                '|' => Some(TokType::Pipe),
                '&' => Some(TokType::Ampersand),
                '^' => Some(TokType::Caret),
                _ => None,
            };
            match p {
                Some(pt) => {
                    let t = Token {
                        begin: Location { offset: pos },
                        tok: pt,
                        end: Location { offset: pos + 1 },
                    };
                    proof {
                        assert(token_ok(trie, src@, t));
                        lemma_tokens_push(trie, src@, toks@, pos as int, t, pos as int + 1);
                    }
                    toks.push(t);
                    proof {
                        lemma_account_grow(src@, toks0, diags0, toks@, diags@, pos as int);
                        assert(toks@[toks@.len() - 1] == t);
                        assert(covered(toks@, pos as int));
                    }
                    pos += 1;
                },
                None => {
                    proof {
                        assert(punct_token(c) is None);
                        assert(is_garbage_at(src@, pos as int, c));
                        assert(diag_ok(
                            src@,
                            (Location { offset: pos }, AssemblerError::GarbageChar(c)),
                        ));
                    }
                    push_diag(
                        &mut diags,
                        Location { offset: pos },
                        AssemblerError::GarbageChar(c),
                        Ghost(src@),
                        Ghost(toks@),
                        Ghost(pos as int),
                    );
                    pos += 1;
                },
            }
        }
    }
    (toks, diags)
}

/// Exec mirror of `is_digit`.
pub fn is_digit_exec(c: char) -> (r: bool)
    ensures
        r == is_digit(c),
{
    let u = c as u32;
    48 <= u && u <= 57
}

/// Exec mirror of `is_hex_digit`.
pub fn is_hex_digit_exec(c: char) -> (r: bool)
    ensures
        r == is_hex_digit(c),
{
    let u = c as u32;
    (48 <= u && u <= 57) || (65 <= u && u <= 70) || (97 <= u && u <= 102)
}

/// Exec mirror of `hex_digit_value`.
fn hex_digit_value_exec(c: char) -> (r: u32)
    requires
        is_hex_digit(c),
    ensures
        r as int == hex_digit_value(c),
        r <= 15,
{
    let u = c as u32;
    if 48 <= u && u <= 57 {
        u - 48
    } else if 65 <= u && u <= 70 {
        u - 55
    } else {
        u - 87
    }
}


/// The display name of each token classification, as the grammar's error
/// messages use it.
pub open spec fn spec_token_name(t: TokType) -> Seq<char> {
    match t {
        TokType::Keyword(k) => match k {
            Keyword::Adc => "adc"@,
            Keyword::Add => "add"@,
            Keyword::And => "and"@,
            Keyword::Bit => "bit"@,
            Keyword::Call => "call"@,
            Keyword::Cp => "cp"@,
            Keyword::Dec => "dec"@,
            Keyword::Di => "di"@,
            Keyword::Ei => "ei"@,
            Keyword::Halt => "halt"@,
            Keyword::Inc => "inc"@,
            Keyword::Jp => "jp"@,
            Keyword::Jr => "jr"@,
            Keyword::Ld => "ld"@,
            Keyword::Ldh => "ldh"@,
            Keyword::Nop => "nop"@,
            Keyword::Or => "or"@,
            Keyword::Pop => "pop"@,
            Keyword::Push => "push"@,
            Keyword::Res => "res"@,
            Keyword::Ret => "ret"@,
            Keyword::Rst => "rst"@,
            Keyword::Sbc => "sbc"@,
            Keyword::Sub => "sub"@,
            Keyword::Xor => "xor"@,
            Keyword::A => "a"@,
            Keyword::B => "b"@,
            Keyword::C => "c"@,
            Keyword::D => "d"@,
            Keyword::E => "e"@,
            Keyword::H => "h"@,
            Keyword::L => "l"@,
            Keyword::Af => "af"@,
            Keyword::Bc => "bc"@,
            Keyword::De => "de"@,
            Keyword::Hl => "hl"@,
            Keyword::Sp => "sp"@,
            Keyword::Db => "db"@,
            Keyword::Ds => "ds"@,
            Keyword::Dw => "dw"@,
            Keyword::Equ => "equ"@,
            Keyword::Equs => "equs"@,
            Keyword::Export => "export"@,
            Keyword::Section => "section"@,
            Keyword::SetDir => "set"@,
        },
        TokType::Ident(s) => "identifier"@,
        TokType::Number(v) => "number"@,
        TokType::StringLit(s) => "string"@,
        TokType::Comma => "','"@,
        TokType::Colon => "':'"@,
        TokType::LBracket => "'['"@,
        TokType::RBracket => "']'"@,
        TokType::LParen => "'('"@,
        TokType::RParen => "')'"@,
        TokType::Plus => "'+'"@,
        TokType::Minus => "'-'"@,
        TokType::Star => "'*'"@,
        TokType::Slash => "'/'"@,
        TokType::Pipe => "'|'"@,
        TokType::Ampersand => "'&'"@,
        TokType::Caret => "'^'"@,
        TokType::ShiftLeft => "'<<'"@,
        TokType::ShiftRight => "'>>'"@,
        TokType::Newline => "newline"@,
    }
}

impl TokType {
    /// The token's display name, per `spec_token_name`.
    pub fn name(&self) -> (r: String)
        ensures
            r@ == spec_token_name(*self),
    {
        match self {
            TokType::Keyword(k) => match k {
                Keyword::Adc => String::from_str("adc"),
                Keyword::Add => String::from_str("add"),
                Keyword::And => String::from_str("and"),
                Keyword::Bit => String::from_str("bit"),
                Keyword::Call => String::from_str("call"),
                Keyword::Cp => String::from_str("cp"),
                Keyword::Dec => String::from_str("dec"),
                Keyword::Di => String::from_str("di"),
                Keyword::Ei => String::from_str("ei"),
                Keyword::Halt => String::from_str("halt"),
                Keyword::Inc => String::from_str("inc"),
                Keyword::Jp => String::from_str("jp"),
                Keyword::Jr => String::from_str("jr"),
                Keyword::Ld => String::from_str("ld"),
                Keyword::Ldh => String::from_str("ldh"),
                Keyword::Nop => String::from_str("nop"),
                Keyword::Or => String::from_str("or"),
                Keyword::Pop => String::from_str("pop"),
                Keyword::Push => String::from_str("push"),
                Keyword::Res => String::from_str("res"),
                Keyword::Ret => String::from_str("ret"),
                Keyword::Rst => String::from_str("rst"),
                Keyword::Sbc => String::from_str("sbc"),
                Keyword::Sub => String::from_str("sub"),
                Keyword::Xor => String::from_str("xor"),
                Keyword::A => String::from_str("a"),
                Keyword::B => String::from_str("b"),
                Keyword::C => String::from_str("c"),
                Keyword::D => String::from_str("d"),
                Keyword::E => String::from_str("e"),
                Keyword::H => String::from_str("h"),
                Keyword::L => String::from_str("l"),
                Keyword::Af => String::from_str("af"),
                Keyword::Bc => String::from_str("bc"),
                Keyword::De => String::from_str("de"),
                Keyword::Hl => String::from_str("hl"),
                Keyword::Sp => String::from_str("sp"),
                Keyword::Db => String::from_str("db"),
                Keyword::Ds => String::from_str("ds"),
                Keyword::Dw => String::from_str("dw"),
                Keyword::Equ => String::from_str("equ"),
                Keyword::Equs => String::from_str("equs"),
                Keyword::Export => String::from_str("export"),
                Keyword::Section => String::from_str("section"),
                Keyword::SetDir => String::from_str("set"),
            },
            TokType::Ident(s) => String::from_str("identifier"),
            TokType::Number(v) => String::from_str("number"),
            TokType::StringLit(s) => String::from_str("string"),
            TokType::Comma => String::from_str("','"),
            TokType::Colon => String::from_str("':'"),
            TokType::LBracket => String::from_str("'['"),
            TokType::RBracket => String::from_str("']'"),
            TokType::LParen => String::from_str("'('"),
            TokType::RParen => String::from_str("')'"),
            TokType::Plus => String::from_str("'+'"),
            TokType::Minus => String::from_str("'-'"),
            TokType::Star => String::from_str("'*'"),
            TokType::Slash => String::from_str("'/'"),
            TokType::Pipe => String::from_str("'|'"),
            TokType::Ampersand => String::from_str("'&'"),
            TokType::Caret => String::from_str("'^'"),
            TokType::ShiftLeft => String::from_str("'<<'"),
            TokType::ShiftRight => String::from_str("'>>'"),
            TokType::Newline => String::from_str("newline"),
        }
    }
}


/// The decimal digit character for one digit value.
pub open spec fn digit_char(d: nat) -> char {
    ((48 + d) as u8) as char
}

/// The decimal rendering of a number, most significant digit first.
pub open spec fn dec_digits(n: nat) -> Seq<char>
    decreases n,
{
    if n < 10 {
        seq![digit_char(n)]
    } else {
        dec_digits((n / 10) as nat).push(digit_char((n % 10) as nat))
    }
}

/// Renders a position as decimal text, so diagnostics can carry their
/// place without the caller formatting numbers itself.
pub fn offset_string(v: usize) -> (r: String)
    ensures
        r@ == dec_digits(v as nat),
{
    let mut digits: Vec<char> = Vec::new();
    let mut x = v;
    let ghost mut collected: Seq<char> = Seq::empty();
    proof {
        assert(dec_digits(v as nat) + collected =~= dec_digits(v as nat));
    }
    loop
        invariant_except_break
            dec_digits(v as nat) == dec_digits(x as nat) + collected,
        invariant
            collected.len() == digits@.len(),
            forall|j: int|
                0 <= j < collected.len() ==> collected[j] == digits@[digits@.len() - 1 - j],
        ensures
            dec_digits(v as nat) == collected,
        decreases x,
    {
        let d = ((48 + (x % 10) as u32) as u8) as char;
        let ghost pre = collected;
        digits.push(d);
        proof {
            collected = seq![d] + pre;
            assert(collected.len() == digits@.len());
            assert forall|j: int|
                0 <= j < collected.len() implies collected[j] == digits@[digits@.len() - 1
                - j] by {
                if j > 0 {
                    assert(collected[j] == pre[j - 1]);
                }
            }
        }
        if x < 10 {
            proof {
                assert(dec_digits(x as nat) =~= seq![d]);
                assert(dec_digits(x as nat) + pre =~= collected);
            }
            break ;
        }
        proof {
            assert(dec_digits(x as nat) == dec_digits((x / 10) as nat).push(d));
            assert(dec_digits((x / 10) as nat).push(d) + pre =~= dec_digits((x / 10) as nat)
                + collected);
        }
        x = x / 10;
    }
    let mut out = String::new();
    let mut k: usize = 0;
    let n = digits.len();
    while k < n
        invariant
            n == digits@.len(),
            collected.len() == n,
            k <= n,
            forall|j: int|
                0 <= j < collected.len() ==> collected[j] == digits@[digits@.len() - 1 - j],
            out@ =~= collected.take(k as int),
        decreases n - k,
    {
        crate::push_char(&mut out, digits[n - 1 - k]);
        proof {
            assert(collected.take(k as int + 1).drop_last() =~= collected.take(k as int));
            assert(collected.take(k as int + 1).last() == collected[k as int]);
        }
        k += 1;
    }
    proof {
        assert(out@ =~= collected);
    }
    out
}

} // verus!
