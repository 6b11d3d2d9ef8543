//! The arguments of the registration macros, read from the text of the
//! macro input.
//!
//! A datagroup is registered as `Name, factory` optionally followed by
//! `, init_style = Style`; a local system as `Name, key = value, ...` with the
//! keys `dependencies`, `stages`, `before` and `after`; a global system in the
//! same way with the keys `dependencies`, `stages`, `before`, `after`,
//! `init_arg` and the required `factory`. A dependency list is written
//! `(A, Optional(B))`, a stage list `(0, 1)`, a list of systems `(A, B)`, and
//! an init style is one of `NoInit`, `NoArg`, `Arg(Type)` and
//! `OptionalArg(Type)`. The `=` after a key may be left out.
//!
//! The text is first split into tokens: identifiers (a letter or `_` followed
//! by letters, digits and `_`; the bytes of a non-ASCII character count as
//! letters, whether or not Unicode lets that character stand in an
//! identifier), raw identifiers (`r#` and an identifier), number literals (an
//! ASCII digit followed by the same characters, so that a suffix such as `u8`
//! belongs to the literal), the punctuation `,`, `=`, `(` and `)`, and any
//! other byte on its own; ASCII whitespace separates tokens. A word that Rust
//! reserves (`fn`, `self`, `_` and the like) is a token of its own kind and is
//! no identifier; so is a raw identifier that Rust refuses (`r#self`). A
//! number literal is an integer literal unless it ends in `f32` or `f64`, has
//! an exponent (`1e3`), or has a digit that its base refuses (`0b12`).
//! Names in the results are spans of the input.
//!
//! Lists not given are empty; a global system's init style is `NoArg` unless
//! given, a datagroup's `NoInit`.
use vstd::string::StringSliceAdditionalSpecFns;
use vstd::prelude::*;

verus! {

/// A range of bytes of the input.
#[derive(Clone, Copy, PartialEq, Eq, Structural, Debug)]
pub struct Span {
    pub start: usize,
    pub end: usize,
}

#[derive(Clone, Copy, PartialEq, Eq, Structural, Debug)]
pub enum TokenKind {
    Ident,
    /// A word that Rust reserves.
    Keyword,
    /// A number literal that is no integer literal (`1e3`, `2f32`).
    Float,
    Int,
    Comma,
    Eq,
    Open,
    Close,
    Other,
}

/// A token: its kind and the bytes it covers.
#[derive(Clone, Copy, PartialEq, Eq, Structural, Debug)]
pub struct Token {
    pub kind: TokenKind,
    pub span: Span,
}

pub open spec fn is_space(b: u8) -> bool {
    b == 32 || (9 <= b && b <= 13)
}

pub open spec fn is_ident_start(b: u8) -> bool {
    (65 <= b && b <= 90) || (97 <= b && b <= 122) || b == 95 || b >= 128
}

pub open spec fn is_digit(b: u8) -> bool {
    48 <= b && b <= 57
}

/// A byte that continues an identifier or a literal.
pub open spec fn is_word(b: u8) -> bool {
    is_ident_start(b) || is_digit(b)
}

/// The end of the run of word bytes that starts at `i`.
pub open spec fn word_end(s: Seq<u8>, i: int) -> int
    decreases s.len() - i,
{
    if 0 <= i < s.len() && is_word(s[i]) {
        word_end(s, i + 1)
    } else {
        i
    }
}

/// Whether `w` is a word that Rust reserves, which cannot name anything.
#[verifier::opaque]
pub open spec fn is_reserved(w: Seq<u8>) -> bool {
        w == "_".spec_bytes() ||
        w == "abstract".spec_bytes() ||
        w == "as".spec_bytes() ||
        w == "async".spec_bytes() ||
        w == "await".spec_bytes() ||
        w == "become".spec_bytes() ||
        w == "box".spec_bytes() ||
        w == "break".spec_bytes() ||
        w == "const".spec_bytes() ||
        w == "continue".spec_bytes() ||
        w == "crate".spec_bytes() ||
        w == "do".spec_bytes() ||
        w == "dyn".spec_bytes() ||
        w == "else".spec_bytes() ||
        w == "enum".spec_bytes() ||
        w == "extern".spec_bytes() ||
        w == "false".spec_bytes() ||
        w == "final".spec_bytes() ||
        w == "fn".spec_bytes() ||
        w == "for".spec_bytes() ||
        w == "if".spec_bytes() ||
        w == "impl".spec_bytes() ||
        w == "in".spec_bytes() ||
        w == "let".spec_bytes() ||
        w == "loop".spec_bytes() ||
        w == "macro".spec_bytes() ||
        w == "match".spec_bytes() ||
        w == "mod".spec_bytes() ||
        w == "move".spec_bytes() ||
        w == "mut".spec_bytes() ||
        w == "override".spec_bytes() ||
        w == "priv".spec_bytes() ||
        w == "pub".spec_bytes() ||
        w == "ref".spec_bytes() ||
        w == "return".spec_bytes() ||
        w == "Self".spec_bytes() ||
        w == "self".spec_bytes() ||
        w == "static".spec_bytes() ||
        w == "struct".spec_bytes() ||
        w == "super".spec_bytes() ||
        w == "trait".spec_bytes() ||
        w == "true".spec_bytes() ||
        w == "try".spec_bytes() ||
        w == "type".spec_bytes() ||
        w == "typeof".spec_bytes() ||
        w == "unsafe".spec_bytes() ||
        w == "unsized".spec_bytes() ||
        w == "use".spec_bytes() ||
        w == "virtual".spec_bytes() ||
        w == "where".spec_bytes() ||
        w == "while".spec_bytes() ||
        w == "yield".spec_bytes()
}

/// An ASCII letter from `a` to `f`, in either case.
pub open spec fn is_hex_letter(b: u8) -> bool {
    (97 <= b && b <= 102) || (65 <= b && b <= 70)
}

/// The value of an ASCII digit or hexadecimal letter.
pub open spec fn digit_value(b: u8) -> int {
    if is_digit(b) {
        b - 48
    } else if 97 <= b && b <= 102 {
        b - 87
    } else {
        b - 55
    }
}

/// The base of the number literal `w`: given by a prefix `0x`, `0o` or
/// `0b`, else ten.
pub open spec fn literal_base(w: Seq<u8>) -> int {
    if w.len() >= 2 && w[0] == 48 && w[1] == 120 {
        16
    } else if w.len() >= 2 && w[0] == 48 && w[1] == 111 {
        8
    } else if w.len() >= 2 && w[0] == 48 && w[1] == 98 {
        2
    } else {
        10
    }
}

/// From byte `k` of `w` on, the digits (and `_`) are those of `base` up to
/// the suffix, if any, and there is no exponent.
pub open spec fn digits_ok(w: Seq<u8>, k: int, base: int) -> bool
    decreases w.len() - k,
{
    if k < 0 || k >= w.len() {
        true
    } else if w[k] == 95 {
        digits_ok(w, k + 1, base)
    } else if base == 10 && (w[k] == 101 || w[k] == 69) {
        false
    } else if is_digit(w[k]) || (base == 16 && is_hex_letter(w[k])) {
        digit_value(w[k]) < base && digits_ok(w, k + 1, base)
    } else {
        true
    }
}

/// `w` ends with `f32` or `f64`.
pub open spec fn has_float_suffix(w: Seq<u8>) -> bool {
    &&& w.len() >= 3
    &&& w[w.len() - 3] == 102
    &&& (w[w.len() - 2] == 51 && w[w.len() - 1] == 50) || (w[w.len() - 2] == 54 && w[w.len() - 1] == 52)
}

/// The number literal `w` is an integer literal.
#[verifier::opaque]
pub open spec fn is_int_literal(w: Seq<u8>) -> bool {
    let base = literal_base(w);
    let start: int = if base == 10 { 0 } else { 2 };
    &&& !has_float_suffix(w)
    &&& base != 10 ==> start < w.len() && (w[start] == 95 || is_digit(w[start]) || (base == 16 && is_hex_letter(w[start])))
    &&& digits_ok(w, start, base)
}

/// Identifiers that cannot be written raw.
pub open spec fn is_raw_forbidden(w: Seq<u8>) -> bool {
    w == "_".spec_bytes() || w == "crate".spec_bytes() || w == "self".spec_bytes() || w == "super".spec_bytes()
        || w == "Self".spec_bytes()
}

/// A raw identifier starts at `i`: `r#` and the start of an identifier.
pub open spec fn raw_prefix_at(s: Seq<u8>, i: int) -> bool {
    &&& 0 <= i && i + 2 < s.len()
    &&& s[i] == 114
    &&& s[i + 1] == 35
    &&& is_ident_start(s[i + 2])
}

/// The kind of the raw identifier that starts at `i` and ends at `j`.
pub open spec fn raw_kind(s: Seq<u8>, i: int, j: int) -> TokenKind {
    if is_raw_forbidden(s.subrange(i + 2, j)) {
        TokenKind::Keyword
    } else {
        TokenKind::Ident
    }
}

/// The kind of the word token that starts at `i` and ends at `j`.
pub open spec fn word_kind(s: Seq<u8>, i: int, j: int) -> TokenKind {
    if is_digit(s[i]) {
        if is_int_literal(s.subrange(i, j)) {
            TokenKind::Int
        } else {
            TokenKind::Float
        }
    } else if is_reserved(s.subrange(i, j)) {
        TokenKind::Keyword
    } else {
        TokenKind::Ident
    }
}

/// The kind of the one-byte token `b`.
pub open spec fn punct_kind(b: u8) -> TokenKind {
    if b == 44 {
        TokenKind::Comma
    } else if b == 61 {
        TokenKind::Eq
    } else if b == 40 {
        TokenKind::Open
    } else if b == 41 {
        TokenKind::Close
    } else {
        TokenKind::Other
    }
}

/// The tokens of `s` from byte `i` on.
pub open spec fn lex_from(s: Seq<u8>, i: int) -> Seq<Token>
    decreases s.len() - i, 0int,
{
    if i < 0 || i >= s.len() {
        Seq::empty()
    } else if is_space(s[i]) {
        lex_from(s, i + 1)
    } else if raw_prefix_at(s, i) {
        let j = word_end(s, i + 2);
        proof {
            lemma_word_end(s, i + 2);
        }
        seq![Token { kind: raw_kind(s, i, j), span: Span { start: i as usize, end: j as usize } }] + lex_from(s, j)
    } else if is_word(s[i]) {
        let j = word_end(s, i + 1);
        let kind = word_kind(s, i, j);
        proof {
            lemma_word_end(s, i + 1);
        }
        seq![Token { kind, span: Span { start: i as usize, end: j as usize } }] + lex_from(s, j)
    } else {
        seq![Token { kind: punct_kind(s[i]), span: Span { start: i as usize, end: (i + 1) as usize } }] + lex_from(s, i + 1)
    }
}

/// The tokens of `s`.
pub open spec fn lex(s: Seq<u8>) -> Seq<Token> {
    lex_from(s, 0)
}

/// A run of word bytes ends within the input, after its start.
pub proof fn lemma_word_end(s: Seq<u8>, i: int)
    requires
        0 <= i <= s.len(),
    ensures
        i <= word_end(s, i) <= s.len(),
        forall|k: int| i <= k < word_end(s, i) ==> is_word(#[trigger] s[k]),
        word_end(s, i) < s.len() ==> !is_word(s[word_end(s, i)]),
    decreases s.len() - i,
{
    if i < s.len() && is_word(s[i]) {
        lemma_word_end(s, i + 1);
    }
}

fn byte_is_space(b: u8) -> (r: bool)
    ensures
        r == is_space(b),
{
    b == 32 || (9 <= b && b <= 13)
}

fn byte_is_ident_start(b: u8) -> (r: bool)
    ensures
        r == is_ident_start(b),
{
    (65 <= b && b <= 90) || (97 <= b && b <= 122) || b == 95 || b >= 128
}

fn byte_is_word(b: u8) -> (r: bool)
    ensures
        r == is_word(b),
{
    byte_is_ident_start(b) || (48 <= b && b <= 57)
}

fn byte_punct_kind(b: u8) -> (r: TokenKind)
    ensures
        r == punct_kind(b),
{
    if b == 44 {
        TokenKind::Comma
    } else if b == 61 {
        TokenKind::Eq
    } else if b == 40 {
        TokenKind::Open
    } else if b == 41 {
        TokenKind::Close
    } else {
        TokenKind::Other
    }
}

/// Split `input` into tokens.
#[verifier::rlimit(40)]
pub fn lex_bytes(input: &[u8]) -> (r: Vec<Token>)
    ensures
        r@ == lex(input@),
{
    let ghost s = input@;
    let mut toks: Vec<Token> = Vec::new();
    let mut i: usize = 0;
    while i < input.len()
        invariant
            s == input@,
            i <= s.len(),
            toks@ + lex_from(s, i as int) == lex(s),
        decreases s.len() - i,
    {
        let b = input[i];
        if byte_is_space(b) {
            i = i + 1;
        } else if b == 114 && input.len() - i > 2 && input[i + 1] == 35 && byte_is_ident_start(input[i + 2]) {
            let mut j: usize = i + 3;
            proof {
                lemma_word_end(s, i + 3);
                assert(word_end(s, i + 2) == word_end(s, i + 3));
            }
            while j < input.len() && byte_is_word(input[j])
                invariant
                    s == input@,
                    i + 3 <= j <= s.len(),
                    word_end(s, j as int) == word_end(s, i + 3),
                decreases s.len() - j,
            {
                j = j + 1;
            }
            let kind = if raw_forbidden_at(input, Span { start: i + 2, end: j }) {
                TokenKind::Keyword
            } else {
                TokenKind::Ident
            };
            let ghost before = toks@;
            toks.push(Token { kind, span: Span { start: i, end: j } });
            proof {
                assert(raw_prefix_at(s, i as int));
                assert(toks@ + lex_from(s, j as int) =~= before + lex_from(s, i as int));
            }
            i = j;
        } else if byte_is_word(b) {
            let mut j: usize = i + 1;
            proof {
                lemma_word_end(s, i + 1);
            }
            while j < input.len() && byte_is_word(input[j])
                invariant
                    s == input@,
                    i < j <= s.len(),
                    word_end(s, j as int) == word_end(s, i + 1),
                decreases s.len() - j,
            {
                j = j + 1;
            }
            let kind = if 48 <= b && b <= 57 {
                if int_literal_at(input, i, j) {
                    TokenKind::Int
                } else {
                    TokenKind::Float
                }
            } else if byte_text_is_reserved(input, Span { start: i, end: j }) {
                TokenKind::Keyword
            } else {
                TokenKind::Ident
            };
            let ghost before = toks@;
            toks.push(Token { kind, span: Span { start: i, end: j } });
            proof {
                assert(!raw_prefix_at(s, i as int));
                assert(toks@ + lex_from(s, j as int) =~= before + lex_from(s, i as int));
            }
            i = j;
        } else {
            let ghost before = toks@;
            toks.push(Token { kind: byte_punct_kind(b), span: Span { start: i, end: i + 1 } });
            proof {
                assert(!raw_prefix_at(s, i as int));
                assert(toks@ + lex_from(s, i + 1) =~= before + lex_from(s, i as int));
            }
            i = i + 1;
        }
    }
    proof {
        assert(toks@ + Seq::<Token>::empty() =~= toks@);
    }
    toks
}


/// Why the arguments of a macro cannot be read; the position is that of the
/// offending token, counted from 0.
#[derive(Clone, Copy, PartialEq, Eq, Structural, Debug)]
pub enum MacroArgsError {
    ExpectedIdent(usize),
    ExpectedInt(usize),
    ExpectedComma(usize),
    ExpectedOpen(usize),
    ExpectedClose(usize),
    /// A key given twice.
    DuplicatedKeyword(usize),
    /// A key that the macro does not take.
    UnexpectedKeyword(usize),
    /// An init style other than `NoInit`, `NoArg`, `Arg` and `OptionalArg`.
    UnknownInitStyle(usize),
    /// Tokens left after the arguments.
    UnexpectedToken(usize),
    /// A global system without `factory`.
    MissingFactory,
}

/// An element of a parenthesized list: a name or a stage, and whether it was
/// written `Optional(..)`.
#[derive(Clone, Copy, PartialEq, Eq, Structural, Debug)]
pub struct ListItem {
    pub optional: bool,
    pub name: Span,
}

/// How a datagroup or global system is initialized.
#[derive(Clone, Copy, PartialEq, Eq, Structural, Debug)]
pub enum InitArgStyle {
    NoInit,
    NoArg,
    Arg(Span),
    OptionalArg(Span),
}

/// The kinds of parenthesized lists.
#[derive(Clone, Copy, PartialEq, Eq, Structural, Debug)]
pub enum ListKind {
    /// Datagroups, each a name or `Optional(name)`.
    Dependencies,
    /// Integer literals.
    Stages,
    /// Names.
    Names,
}

pub open spec fn kind_at(t: Seq<Token>, p: int, k: TokenKind) -> bool {
    0 <= p < t.len() && t[p].kind == k
}

/// The bytes of a span.
pub open spec fn text(s: Seq<u8>, sp: Span) -> Seq<u8> {
    s.subrange(sp.start as int, sp.end as int)
}

/// Token `p` is the identifier `w`.
pub open spec fn word_at(s: Seq<u8>, t: Seq<Token>, p: int, w: &str) -> bool {
    kind_at(t, p, TokenKind::Ident) && text(s, t[p].span) == w.spec_bytes()
}

/// The position after an optional `=` at `p`.
pub open spec fn skip_eq(t: Seq<Token>, p: int) -> int {
    if kind_at(t, p, TokenKind::Eq) {
        p + 1
    } else {
        p
    }
}

/// One element of a list of kind `kind` at `p`, and the position after it.
pub open spec fn parse_item(s: Seq<u8>, t: Seq<Token>, p: int, kind: ListKind) -> Result<(ListItem, int), MacroArgsError> {
    match kind {
        ListKind::Stages => if kind_at(t, p, TokenKind::Int) {
            Ok((ListItem { optional: false, name: t[p].span }, p + 1))
        } else {
            Err(MacroArgsError::ExpectedInt(p as usize))
        },
        ListKind::Names => if kind_at(t, p, TokenKind::Ident) {
            Ok((ListItem { optional: false, name: t[p].span }, p + 1))
        } else {
            Err(MacroArgsError::ExpectedIdent(p as usize))
        },
        ListKind::Dependencies => if !kind_at(t, p, TokenKind::Ident) {
            Err(MacroArgsError::ExpectedIdent(p as usize))
        } else if word_at(s, t, p, "Optional") {
            if !kind_at(t, p + 1, TokenKind::Open) {
                Err(MacroArgsError::ExpectedOpen((p + 1) as usize))
            } else if !kind_at(t, p + 2, TokenKind::Ident) {
                Err(MacroArgsError::ExpectedIdent((p + 2) as usize))
            } else if !kind_at(t, p + 3, TokenKind::Close) {
                Err(MacroArgsError::ExpectedClose((p + 3) as usize))
            } else {
                Ok((ListItem { optional: true, name: t[p + 2].span }, p + 4))
            }
        } else {
            Ok((ListItem { optional: false, name: t[p].span }, p + 1))
        },
    }
}

/// An element takes at least one token.
pub proof fn lemma_parse_item(s: Seq<u8>, t: Seq<Token>, p: int, kind: ListKind)
    ensures
        parse_item(s, t, p, kind) matches Ok((_, q)) ==> p < q <= t.len(),
{
}

/// The elements of a list from `p` up to its closing `)`, which must follow
/// an element or a `,`; and the position of that `)`.
pub open spec fn parse_items(s: Seq<u8>, t: Seq<Token>, p: int, kind: ListKind) -> Result<(Seq<ListItem>, int), MacroArgsError>
    decreases t.len() - p,
{
    if kind_at(t, p, TokenKind::Close) {
        Ok((Seq::empty(), p))
    } else {
        match parse_item(s, t, p, kind) {
            Err(e) => Err(e),
            Ok((item, q)) => if kind_at(t, q, TokenKind::Close) {
                Ok((seq![item], q))
            } else if kind_at(t, q, TokenKind::Comma) {
                proof {
                    lemma_parse_item(s, t, p, kind);
                }
                match parse_items(s, t, q + 1, kind) {
                    Err(e) => Err(e),
                    Ok((rest, r)) => Ok((seq![item] + rest, r)),
                }
            } else {
                Err(MacroArgsError::ExpectedComma(q as usize))
            },
        }
    }
}

/// The elements of a list end at a `)` of the input.
pub proof fn lemma_parse_items(s: Seq<u8>, t: Seq<Token>, p: int, kind: ListKind)
    requires
        0 <= p,
    ensures
        parse_items(s, t, p, kind) matches Ok((_, r)) ==> p <= r < t.len() && kind_at(t, r, TokenKind::Close),
    decreases t.len() - p,
{
    lemma_parse_item(s, t, p, kind);
    if !kind_at(t, p, TokenKind::Close) {
        if let Ok((_, q)) = parse_item(s, t, p, kind) {
            if !kind_at(t, q, TokenKind::Close) && kind_at(t, q, TokenKind::Comma) {
                lemma_parse_items(s, t, q + 1, kind);
            }
        }
    }
}

/// A parenthesized list at `p`, and the position after its `)`.
pub open spec fn parse_list(s: Seq<u8>, t: Seq<Token>, p: int, kind: ListKind) -> Result<(Seq<ListItem>, int), MacroArgsError> {
    if !kind_at(t, p, TokenKind::Open) {
        Err(MacroArgsError::ExpectedOpen(p as usize))
    } else {
        match parse_items(s, t, p + 1, kind) {
            Err(e) => Err(e),
            Ok((items, r)) => Ok((items, r + 1)),
        }
    }
}

/// A list takes at least one token and ends within the input.
pub proof fn lemma_parse_list(s: Seq<u8>, t: Seq<Token>, p: int, kind: ListKind)
    requires
        0 <= p,
    ensures
        parse_list(s, t, p, kind) matches Ok((_, r)) ==> p < r <= t.len(),
{
    lemma_parse_items(s, t, p + 1, kind);
}

/// An init style at `p`, and the position after it.
pub open spec fn parse_init_style(s: Seq<u8>, t: Seq<Token>, p: int) -> Result<(InitArgStyle, int), MacroArgsError> {
    if !kind_at(t, p, TokenKind::Ident) {
        Err(MacroArgsError::ExpectedIdent(p as usize))
    } else if word_at(s, t, p, "NoInit") {
        Ok((InitArgStyle::NoInit, p + 1))
    } else if word_at(s, t, p, "NoArg") {
        Ok((InitArgStyle::NoArg, p + 1))
    } else if word_at(s, t, p, "Arg") || word_at(s, t, p, "OptionalArg") {
        if !kind_at(t, p + 1, TokenKind::Open) {
            Err(MacroArgsError::ExpectedOpen((p + 1) as usize))
        } else if !kind_at(t, p + 2, TokenKind::Ident) {
            Err(MacroArgsError::ExpectedIdent((p + 2) as usize))
        } else if !kind_at(t, p + 3, TokenKind::Close) {
            Err(MacroArgsError::ExpectedClose((p + 3) as usize))
        } else if word_at(s, t, p, "Arg") {
            Ok((InitArgStyle::Arg(t[p + 2].span), p + 4))
        } else {
            Ok((InitArgStyle::OptionalArg(t[p + 2].span), p + 4))
        }
    } else {
        Err(MacroArgsError::UnknownInitStyle(p as usize))
    }
}

/// An init style takes at least one token and ends within the input.
pub proof fn lemma_parse_init_style(s: Seq<u8>, t: Seq<Token>, p: int)
    ensures
        parse_init_style(s, t, p) matches Ok((_, r)) ==> p < r <= t.len(),
{
}

/// The words that name init styles are different byte strings.
proof fn lemma_style_words_distinct()
    ensures
        "NoInit".spec_bytes().len() == 6,
        "NoArg".spec_bytes().len() == 5,
        "Arg".spec_bytes().len() == 3,
        "OptionalArg".spec_bytes().len() == 11,
{
    broadcast use vstd::string::is_ascii_spec_bytes;
    reveal_strlit("NoInit");
    reveal_strlit("NoArg");
    reveal_strlit("Arg");
    reveal_strlit("OptionalArg");
    assert(vstd::string::is_ascii("NoInit"));
    assert(vstd::string::is_ascii("NoArg"));
    assert(vstd::string::is_ascii("Arg"));
    assert(vstd::string::is_ascii("OptionalArg"));
}

/// The init style read at `p` is the one its word names: `NoInit`, `NoArg`,
/// or `Arg(T)` / `OptionalArg(T)` with the span of `T`; each word gives its
/// own style, and a style is read only from its own word.
pub proof fn law_init_style_follows_its_word(s: Seq<u8>, t: Seq<Token>, p: int)
    ensures
        word_at(s, t, p, "NoInit") ==> parse_init_style(s, t, p) == Ok::<(InitArgStyle, int), MacroArgsError>((InitArgStyle::NoInit, p + 1)),
        word_at(s, t, p, "NoArg") ==> parse_init_style(s, t, p) == Ok::<(InitArgStyle, int), MacroArgsError>((InitArgStyle::NoArg, p + 1)),
        word_at(s, t, p, "Arg") && kind_at(t, p + 1, TokenKind::Open) && kind_at(t, p + 2, TokenKind::Ident)
            && kind_at(t, p + 3, TokenKind::Close) ==> parse_init_style(s, t, p)
            == Ok::<(InitArgStyle, int), MacroArgsError>((InitArgStyle::Arg(t[p + 2].span), p + 4)),
        word_at(s, t, p, "OptionalArg") && kind_at(t, p + 1, TokenKind::Open) && kind_at(t, p + 2, TokenKind::Ident)
            && kind_at(t, p + 3, TokenKind::Close) ==> parse_init_style(s, t, p)
            == Ok::<(InitArgStyle, int), MacroArgsError>((InitArgStyle::OptionalArg(t[p + 2].span), p + 4)),
        parse_init_style(s, t, p) matches Ok((style, _)) ==> {
            &&& style is NoInit <==> word_at(s, t, p, "NoInit")
            &&& style is NoArg <==> word_at(s, t, p, "NoArg")
            &&& style is Arg <==> word_at(s, t, p, "Arg")
            &&& style is OptionalArg <==> word_at(s, t, p, "OptionalArg")
        },
{
    lemma_style_words_distinct();
}

/// The keys read so far.
pub struct KeywordState {
    pub dependencies: Option<Seq<ListItem>>,
    pub stages: Option<Seq<ListItem>>,
    pub before: Option<Seq<ListItem>>,
    pub after: Option<Seq<ListItem>>,
    pub factory: Option<Span>,
    pub init_style: Option<InitArgStyle>,
}

pub open spec fn no_keywords() -> KeywordState {
    KeywordState { dependencies: None, stages: None, before: None, after: None, factory: None, init_style: None }
}

/// The key at `p` and its value; `global` admits the keys of global systems.
pub open spec fn parse_keyword(s: Seq<u8>, t: Seq<Token>, p: int, st: KeywordState, global: bool) -> Result<(KeywordState, int), MacroArgsError> {
    let q = skip_eq(t, p + 1);
    if word_at(s, t, p, "dependencies") {
        if st.dependencies is Some {
            Err(MacroArgsError::DuplicatedKeyword(p as usize))
        } else {
            match parse_list(s, t, q, ListKind::Dependencies) {
                Err(e) => Err(e),
                Ok((v, r)) => Ok((KeywordState { dependencies: Some(v), ..st }, r)),
            }
        }
    } else if word_at(s, t, p, "stages") {
        if st.stages is Some {
            Err(MacroArgsError::DuplicatedKeyword(p as usize))
        } else {
            match parse_list(s, t, q, ListKind::Stages) {
                Err(e) => Err(e),
                Ok((v, r)) => Ok((KeywordState { stages: Some(v), ..st }, r)),
            }
        }
    } else if word_at(s, t, p, "before") {
        if st.before is Some {
            Err(MacroArgsError::DuplicatedKeyword(p as usize))
        } else {
            match parse_list(s, t, q, ListKind::Names) {
                Err(e) => Err(e),
                Ok((v, r)) => Ok((KeywordState { before: Some(v), ..st }, r)),
            }
        }
    } else if word_at(s, t, p, "after") {
        if st.after is Some {
            Err(MacroArgsError::DuplicatedKeyword(p as usize))
        } else {
            match parse_list(s, t, q, ListKind::Names) {
                Err(e) => Err(e),
                Ok((v, r)) => Ok((KeywordState { after: Some(v), ..st }, r)),
            }
        }
    } else if global && word_at(s, t, p, "init_arg") {
        if st.init_style is Some {
            Err(MacroArgsError::DuplicatedKeyword(p as usize))
        } else {
            match parse_init_style(s, t, q) {
                Err(e) => Err(e),
                Ok((v, r)) => Ok((KeywordState { init_style: Some(v), ..st }, r)),
            }
        }
    } else if global && word_at(s, t, p, "factory") {
        if st.factory is Some {
            Err(MacroArgsError::DuplicatedKeyword(p as usize))
        } else if kind_at(t, q, TokenKind::Ident) {
            Ok((KeywordState { factory: Some(t[q].span), ..st }, q + 1))
        } else {
            Err(MacroArgsError::ExpectedIdent(q as usize))
        }
    } else {
        Err(MacroArgsError::UnexpectedKeyword(p as usize))
    }
}

/// A key and its value take at least one token and end within the input.
pub proof fn lemma_parse_keyword(s: Seq<u8>, t: Seq<Token>, p: int, st: KeywordState, global: bool)
    requires
        0 <= p,
    ensures
        parse_keyword(s, t, p, st, global) matches Ok((_, r)) ==> p < r <= t.len(),
{
    let q = skip_eq(t, p + 1);
    lemma_parse_list(s, t, q, ListKind::Dependencies);
    lemma_parse_list(s, t, q, ListKind::Stages);
    lemma_parse_list(s, t, q, ListKind::Names);
}

/// The keys from `p` on, separated by commas. For a global system the keys
/// end at the first token that is not an identifier; for a local system a
/// key must follow every comma.
pub open spec fn parse_keywords(s: Seq<u8>, t: Seq<Token>, p: int, st: KeywordState, global: bool) -> Result<(KeywordState, int), MacroArgsError>
    decreases t.len() - p,
{
    if !kind_at(t, p, TokenKind::Ident) {
        if global {
            Ok((st, p))
        } else {
            Err(MacroArgsError::ExpectedIdent(p as usize))
        }
    } else {
        match parse_keyword(s, t, p, st, global) {
            Err(e) => Err(e),
            Ok((st2, r)) => if kind_at(t, r, TokenKind::Comma) {
                proof {
                    lemma_parse_keyword(s, t, p, st, global);
                }
                parse_keywords(s, t, r + 1, st2, global)
            } else {
                Ok((st2, r))
            },
        }
    }
}

/// What a local system is registered with.
pub struct LocalSystemArgsSpec {
    pub struct_id: Span,
    pub dependencies: Seq<ListItem>,
    pub stages: Seq<ListItem>,
    pub before: Seq<ListItem>,
    pub after: Seq<ListItem>,
}

/// What a global system is registered with.
pub struct GlobalSystemArgsSpec {
    pub struct_id: Span,
    pub dependencies: Seq<ListItem>,
    pub stages: Seq<ListItem>,
    pub before: Seq<ListItem>,
    pub after: Seq<ListItem>,
    pub factory: Span,
    pub init_style: InitArgStyle,
}

pub open spec fn or_empty(v: Option<Seq<ListItem>>) -> Seq<ListItem> {
    match v {
        Some(v) => v,
        None => Seq::empty(),
    }
}

/// The arguments of a local system: its name, a comma, and its keys; the
/// lists that are not given are empty.
pub open spec fn local_system_args(s: Seq<u8>) -> Result<LocalSystemArgsSpec, MacroArgsError> {
    let t = lex(s);
    if !kind_at(t, 0, TokenKind::Ident) {
        Err(MacroArgsError::ExpectedIdent(0))
    } else if !kind_at(t, 1, TokenKind::Comma) {
        Err(MacroArgsError::ExpectedComma(1))
    } else {
        match parse_keywords(s, t, 2, no_keywords(), false) {
            Err(e) => Err(e),
            Ok((st, r)) => if r != t.len() {
                Err(MacroArgsError::UnexpectedToken(r as usize))
            } else {
                Ok(LocalSystemArgsSpec {
                    struct_id: t[0].span,
                    dependencies: or_empty(st.dependencies),
                    stages: or_empty(st.stages),
                    before: or_empty(st.before),
                    after: or_empty(st.after),
                })
            },
        }
    }
}

/// The arguments of a global system: its name, a comma, and its keys, among
/// which `factory` is required; the lists that are not given are empty and
/// the init style is `NoArg` unless given.
pub open spec fn global_system_args(s: Seq<u8>) -> Result<GlobalSystemArgsSpec, MacroArgsError> {
    let t = lex(s);
    if !kind_at(t, 0, TokenKind::Ident) {
        Err(MacroArgsError::ExpectedIdent(0))
    } else if !kind_at(t, 1, TokenKind::Comma) {
        Err(MacroArgsError::ExpectedComma(1))
    } else {
        match parse_keywords(s, t, 2, no_keywords(), true) {
            Err(e) => Err(e),
            Ok((st, r)) => if r != t.len() {
                Err(MacroArgsError::UnexpectedToken(r as usize))
            } else if st.factory is None {
                Err(MacroArgsError::MissingFactory)
            } else {
                Ok(GlobalSystemArgsSpec {
                    struct_id: t[0].span,
                    dependencies: or_empty(st.dependencies),
                    stages: or_empty(st.stages),
                    before: or_empty(st.before),
                    after: or_empty(st.after),
                    factory: st.factory->Some_0,
                    init_style: match st.init_style {
                        Some(i) => i,
                        None => InitArgStyle::NoArg,
                    },
                })
            },
        }
    }
}

/// What a datagroup is registered with.
#[derive(Clone, Copy, PartialEq, Eq, Structural, Debug)]
pub struct DatagroupInput {
    pub datagroup: Span,
    pub factory: Span,
    pub init_style: InitArgStyle,
}

/// The `init_style` keys from `p` on, one after the other.
pub open spec fn parse_datagroup_keywords(s: Seq<u8>, t: Seq<Token>, p: int, init: Option<InitArgStyle>) -> Result<(Option<InitArgStyle>, int), MacroArgsError>
    decreases t.len() - p,
{
    if !kind_at(t, p, TokenKind::Ident) {
        Ok((init, p))
    } else if word_at(s, t, p, "init_style") {
        if init is Some {
            Err(MacroArgsError::DuplicatedKeyword(p as usize))
        } else {
            match parse_init_style(s, t, skip_eq(t, p + 1)) {
                Err(e) => Err(e),
                Ok((style, r)) => {
                    proof {
                        lemma_parse_init_style(s, t, skip_eq(t, p + 1));
                    }
                    parse_datagroup_keywords(s, t, r, Some(style))
                },
            }
        }
    } else {
        Err(MacroArgsError::UnexpectedKeyword(p as usize))
    }
}

/// The arguments of a datagroup: its name, a comma and its factory,
/// optionally followed by a comma and `init_style` keys; the init style is
/// `NoInit` unless given.
pub open spec fn datagroup_args(s: Seq<u8>) -> Result<DatagroupInput, MacroArgsError> {
    let t = lex(s);
    if !kind_at(t, 0, TokenKind::Ident) {
        Err(MacroArgsError::ExpectedIdent(0))
    } else if !kind_at(t, 1, TokenKind::Comma) {
        Err(MacroArgsError::ExpectedComma(1))
    } else if !kind_at(t, 2, TokenKind::Ident) {
        Err(MacroArgsError::ExpectedIdent(2))
    } else if t.len() == 3 {
        Ok(DatagroupInput { datagroup: t[0].span, factory: t[2].span, init_style: InitArgStyle::NoInit })
    } else if !kind_at(t, 3, TokenKind::Comma) {
        Err(MacroArgsError::ExpectedComma(3))
    } else {
        match parse_datagroup_keywords(s, t, 4, None) {
            Err(e) => Err(e),
            Ok((init, r)) => if r != t.len() {
                Err(MacroArgsError::UnexpectedToken(r as usize))
            } else {
                Ok(DatagroupInput {
                    datagroup: t[0].span,
                    factory: t[2].span,
                    init_style: match init {
                        Some(i) => i,
                        None => InitArgStyle::NoInit,
                    },
                })
            },
        }
    }
}

/// Every token covers bytes of the input.
pub open spec fn spans_within(s: Seq<u8>, t: Seq<Token>) -> bool {
    forall|k: int| 0 <= k < t.len() ==> (#[trigger] t[k]).span.start <= t[k].span.end <= s.len()
}

/// Tokens cover bytes of the input, and there are no more tokens than bytes.
pub proof fn lemma_lex_from(s: Seq<u8>, i: int)
    requires
        0 <= i <= s.len(),
        s.len() <= usize::MAX,
    ensures
        spans_within(s, lex_from(s, i)),
        lex_from(s, i).len() <= s.len() - i,
    decreases s.len() - i, 0int,
{
    if i < s.len() {
        if is_space(s[i]) {
            lemma_lex_from(s, i + 1);
        } else if raw_prefix_at(s, i) {
            let j = word_end(s, i + 2);
            lemma_word_end(s, i + 2);
            lemma_lex_from(s, j);
            let head = seq![Token { kind: raw_kind(s, i, j), span: Span { start: i as usize, end: j as usize } }];
            assert(lex_from(s, i) == head + lex_from(s, j));
            assert forall|k: int| 0 <= k < lex_from(s, i).len() implies (#[trigger] lex_from(s, i)[k]).span.start <= lex_from(s, i)[k].span.end <= s.len() by {
                if k > 0 {
                    assert(lex_from(s, i)[k] == lex_from(s, j)[k - 1]);
                }
            }
        } else if is_word(s[i]) {
            let j = word_end(s, i + 1);
            lemma_word_end(s, i + 1);
            lemma_lex_from(s, j);
            let head = seq![Token { kind: word_kind(s, i, j), span: Span { start: i as usize, end: j as usize } }];
            assert(lex_from(s, i) == head + lex_from(s, j));
            assert forall|k: int| 0 <= k < lex_from(s, i).len() implies (#[trigger] lex_from(s, i)[k]).span.start <= lex_from(s, i)[k].span.end <= s.len() by {
                if k > 0 {
                    assert(lex_from(s, i)[k] == lex_from(s, j)[k - 1]);
                }
            }
        } else {
            lemma_lex_from(s, i + 1);
            let head = seq![Token { kind: punct_kind(s[i]), span: Span { start: i as usize, end: (i + 1) as usize } }];
            assert(lex_from(s, i) == head + lex_from(s, i + 1));
            assert forall|k: int| 0 <= k < lex_from(s, i).len() implies (#[trigger] lex_from(s, i)[k]).span.start <= lex_from(s, i)[k].span.end <= s.len() by {
                if k > 0 {
                    assert(lex_from(s, i)[k] == lex_from(s, i + 1)[k - 1]);
                }
            }
        }
    }
}

/// An exec result agrees with the spec result.
pub open spec fn agrees<X>(r: Result<(X, usize), MacroArgsError>, sr: Result<(X, int), MacroArgsError>) -> bool {
    match (r, sr) {
        (Ok((x, q)), Ok((y, q2))) => x == y && q == q2,
        (Err(e), Err(f)) => e == f,
        _ => false,
    }
}

/// An exec list result agrees with the spec result.
pub open spec fn list_agrees(r: Result<(Vec<ListItem>, usize), MacroArgsError>, sr: Result<(Seq<ListItem>, int), MacroArgsError>) -> bool {
    match (r, sr) {
        (Ok((x, q)), Ok((y, q2))) => x@ == y && q == q2,
        (Err(e), Err(f)) => e == f,
        _ => false,
    }
}

fn is_kind(t: &Vec<Token>, p: usize, k: TokenKind) -> (r: bool)
    ensures
        r == kind_at(t@, p as int, k),
{
    p < t.len() && t[p].kind == k
}

/// Whether the bytes of `sp` are those of `word`.
fn text_is(input: &[u8], sp: Span, word: &str) -> (r: bool)
    requires
        sp.start <= sp.end <= input@.len(),
    ensures
        r == (text(input@, sp) == word.spec_bytes()),
{
    let w = word.as_bytes();
    if sp.end - sp.start != w.len() {
        proof {
            assert(text(input@, sp).len() != word.spec_bytes().len());
        }
        return false;
    }
    let mut k: usize = 0;
    while k < w.len()
        invariant
            w@ == word.spec_bytes(),
            sp.start <= sp.end <= input@.len(),
            sp.end - sp.start == w@.len(),
            k <= w@.len(),
            forall|j: int| 0 <= j < k ==> input@[sp.start + j] == w@[j],
        decreases w@.len() - k,
    {
        if input[sp.start + k] != w[k] {
            proof {
                assert(text(input@, sp)[k as int] != word.spec_bytes()[k as int]);
            }
            return false;
        }
        k = k + 1;
    }
    proof {
        assert(text(input@, sp) =~= word.spec_bytes());
    }
    true
}

/// Whether the bytes of `sp` are a word that Rust reserves.
fn byte_text_is_reserved(input: &[u8], sp: Span) -> (r: bool)
    requires
        sp.start <= sp.end <= input@.len(),
    ensures
        r == is_reserved(text(input@, sp)),
{
    reveal(is_reserved);
    text_is(input, sp, "_") ||
    text_is(input, sp, "abstract") ||
    text_is(input, sp, "as") ||
    text_is(input, sp, "async") ||
    text_is(input, sp, "await") ||
    text_is(input, sp, "become") ||
    text_is(input, sp, "box") ||
    text_is(input, sp, "break") ||
    text_is(input, sp, "const") ||
    text_is(input, sp, "continue") ||
    text_is(input, sp, "crate") ||
    text_is(input, sp, "do") ||
    text_is(input, sp, "dyn") ||
    text_is(input, sp, "else") ||
    text_is(input, sp, "enum") ||
    text_is(input, sp, "extern") ||
    text_is(input, sp, "false") ||
    text_is(input, sp, "final") ||
    text_is(input, sp, "fn") ||
    text_is(input, sp, "for") ||
    text_is(input, sp, "if") ||
    text_is(input, sp, "impl") ||
    text_is(input, sp, "in") ||
    text_is(input, sp, "let") ||
    text_is(input, sp, "loop") ||
    text_is(input, sp, "macro") ||
    text_is(input, sp, "match") ||
    text_is(input, sp, "mod") ||
    text_is(input, sp, "move") ||
    text_is(input, sp, "mut") ||
    text_is(input, sp, "override") ||
    text_is(input, sp, "priv") ||
    text_is(input, sp, "pub") ||
    text_is(input, sp, "ref") ||
    text_is(input, sp, "return") ||
    text_is(input, sp, "Self") ||
    text_is(input, sp, "self") ||
    text_is(input, sp, "static") ||
    text_is(input, sp, "struct") ||
    text_is(input, sp, "super") ||
    text_is(input, sp, "trait") ||
    text_is(input, sp, "true") ||
    text_is(input, sp, "try") ||
    text_is(input, sp, "type") ||
    text_is(input, sp, "typeof") ||
    text_is(input, sp, "unsafe") ||
    text_is(input, sp, "unsized") ||
    text_is(input, sp, "use") ||
    text_is(input, sp, "virtual") ||
    text_is(input, sp, "where") ||
    text_is(input, sp, "while") ||
    text_is(input, sp, "yield")
}

/// Whether the bytes of `sp` are an identifier that cannot be written raw.
fn raw_forbidden_at(input: &[u8], sp: Span) -> (r: bool)
    requires
        sp.start <= sp.end <= input@.len(),
    ensures
        r == is_raw_forbidden(text(input@, sp)),
{
    text_is(input, sp, "_") || text_is(input, sp, "crate") || text_is(input, sp, "self") || text_is(input, sp, "super")
        || text_is(input, sp, "Self")
}

fn byte_digit_value(b: u8) -> (r: u8)
    requires
        is_digit(b) || is_hex_letter(b),
    ensures
        r == digit_value(b),
{
    if 48 <= b && b <= 57 {
        b - 48
    } else if 97 <= b && b <= 102 {
        b - 87
    } else {
        b - 55
    }
}

/// Whether the number literal at bytes `i..j` is an integer literal.
fn int_literal_at(input: &[u8], i: usize, j: usize) -> (r: bool)
    requires
        i < j <= input@.len(),
    ensures
        r == is_int_literal(input@.subrange(i as int, j as int)),
{
    reveal(is_int_literal);
    let ghost w = input@.subrange(i as int, j as int);
    let n = j - i;
    if n >= 3 && input[j - 3] == 102 && ((input[j - 2] == 51 && input[j - 1] == 50) || (input[j - 2] == 54 && input[j - 1] == 52)) {
        return false;
    }
    let mut base: u8 = 10;
    let mut k: usize = 0;
    if n >= 2 && input[i] == 48 {
        if input[i + 1] == 120 {
            base = 16;
            k = 2;
        } else if input[i + 1] == 111 {
            base = 8;
            k = 2;
        } else if input[i + 1] == 98 {
            base = 2;
            k = 2;
        }
    }
    proof {
        assert(base == literal_base(w));
        assert(k == if base == 10 { 0int } else { 2int });
    }
    if base != 10 {
        if k >= n {
            return false;
        }
        let c = input[i + k];
        if !(c == 95 || (48 <= c && c <= 57) || (base == 16 && ((97 <= c && c <= 102) || (65 <= c && c <= 70)))) {
            return false;
        }
    }
    let ghost start = k as int;
    while k < n
        invariant
            n == j - i,
            i < j <= input@.len(),
            w == input@.subrange(i as int, j as int),
            start <= k <= n,
            base == literal_base(w),
            start == if base == 10 { 0int } else { 2int },
            !has_float_suffix(w),
            base != 10 ==> start < w.len() && (w[start] == 95 || is_digit(w[start]) || (base == 16 && is_hex_letter(w[start]))),
            digits_ok(w, k as int, base as int) == digits_ok(w, start, base as int),
        decreases n - k,
    {
        let c = input[i + k];
        proof {
            reveal(is_int_literal);
            assert(c == w[k as int]);
        }
        if c == 95 {
            k = k + 1;
        } else if base == 10 && (c == 101 || c == 69) {
            return false;
        } else if (48 <= c && c <= 57) || (base == 16 && ((97 <= c && c <= 102) || (65 <= c && c <= 70))) {
            if byte_digit_value(c) >= base {
                return false;
            }
            k = k + 1;
        } else {
            return true;
        }
    }
    true
}

fn word_is(input: &[u8], t: &Vec<Token>, p: usize, word: &str) -> (r: bool)
    requires
        spans_within(input@, t@),
    ensures
        r == word_at(input@, t@, p as int, word),
{
    if p < t.len() && t[p].kind == TokenKind::Ident {
        text_is(input, t[p].span, word)
    } else {
        false
    }
}

fn skip_eq_at(t: &Vec<Token>, p: usize) -> (r: usize)
    requires
        p <= t@.len(),
        t@.len() + 4 <= usize::MAX,
    ensures
        r == skip_eq(t@, p as int),
        r <= t@.len(),
{
    if is_kind(t, p, TokenKind::Eq) {
        p + 1
    } else {
        p
    }
}

fn item_at(input: &[u8], t: &Vec<Token>, p: usize, kind: ListKind) -> (r: Result<(ListItem, usize), MacroArgsError>)
    requires
        spans_within(input@, t@),
        p <= t@.len(),
        t@.len() + 4 <= usize::MAX,
    ensures
        agrees(r, parse_item(input@, t@, p as int, kind)),
{
    match kind {
        ListKind::Stages => if is_kind(t, p, TokenKind::Int) {
            Ok((ListItem { optional: false, name: t[p].span }, p + 1))
        } else {
            Err(MacroArgsError::ExpectedInt(p))
        },
        ListKind::Names => if is_kind(t, p, TokenKind::Ident) {
            Ok((ListItem { optional: false, name: t[p].span }, p + 1))
        } else {
            Err(MacroArgsError::ExpectedIdent(p))
        },
        ListKind::Dependencies => if !is_kind(t, p, TokenKind::Ident) {
            Err(MacroArgsError::ExpectedIdent(p))
        } else if word_is(input, t, p, "Optional") {
            if !is_kind(t, p + 1, TokenKind::Open) {
                Err(MacroArgsError::ExpectedOpen(p + 1))
            } else if !is_kind(t, p + 2, TokenKind::Ident) {
                Err(MacroArgsError::ExpectedIdent(p + 2))
            } else if !is_kind(t, p + 3, TokenKind::Close) {
                Err(MacroArgsError::ExpectedClose(p + 3))
            } else {
                Ok((ListItem { optional: true, name: t[p + 2].span }, p + 4))
            }
        } else {
            Ok((ListItem { optional: false, name: t[p].span }, p + 1))
        },
    }
}

fn items_at(input: &[u8], t: &Vec<Token>, p: usize, kind: ListKind) -> (r: Result<(Vec<ListItem>, usize), MacroArgsError>)
    requires
        spans_within(input@, t@),
        p <= t@.len(),
        t@.len() + 4 <= usize::MAX,
    ensures
        list_agrees(r, parse_items(input@, t@, p as int, kind)),
    decreases t@.len() - p,
{
    if is_kind(t, p, TokenKind::Close) {
        return Ok((Vec::new(), p));
    }
    let (item, q) = match item_at(input, t, p, kind) {
        Ok(x) => x,
        Err(e) => return Err(e),
    };
    proof {
        lemma_parse_item(input@, t@, p as int, kind);
    }
    if is_kind(t, q, TokenKind::Close) {
        let mut v: Vec<ListItem> = Vec::new();
        v.push(item);
        proof {
            assert(v@ =~= seq![item]);
        }
        Ok((v, q))
    } else if is_kind(t, q, TokenKind::Comma) {
        match items_at(input, t, q + 1, kind) {
            Ok((mut rest, r)) => {
                let ghost tail = rest@;
                rest.insert(0, item);
                proof {
                    assert(rest@ =~= seq![item] + tail);
                }
                Ok((rest, r))
            },
            Err(e) => Err(e),
        }
    } else {
        Err(MacroArgsError::ExpectedComma(q))
    }
}

fn list_at(input: &[u8], t: &Vec<Token>, p: usize, kind: ListKind) -> (r: Result<(Vec<ListItem>, usize), MacroArgsError>)
    requires
        spans_within(input@, t@),
        p <= t@.len(),
        t@.len() + 4 <= usize::MAX,
    ensures
        list_agrees(r, parse_list(input@, t@, p as int, kind)),
{
    if !is_kind(t, p, TokenKind::Open) {
        return Err(MacroArgsError::ExpectedOpen(p));
    }
    match items_at(input, t, p + 1, kind) {
        Ok((items, r)) => {
            proof {
                lemma_parse_items(input@, t@, p + 1, kind);
            }
            Ok((items, r + 1))
        },
        Err(e) => Err(e),
    }
}

fn init_style_at(input: &[u8], t: &Vec<Token>, p: usize) -> (r: Result<(InitArgStyle, usize), MacroArgsError>)
    requires
        spans_within(input@, t@),
        p <= t@.len(),
        t@.len() + 4 <= usize::MAX,
    ensures
        agrees(r, parse_init_style(input@, t@, p as int)),
{
    if !is_kind(t, p, TokenKind::Ident) {
        Err(MacroArgsError::ExpectedIdent(p))
    } else if word_is(input, t, p, "NoInit") {
        Ok((InitArgStyle::NoInit, p + 1))
    } else if word_is(input, t, p, "NoArg") {
        Ok((InitArgStyle::NoArg, p + 1))
    } else {
        let is_arg = word_is(input, t, p, "Arg");
        if is_arg || word_is(input, t, p, "OptionalArg") {
            if !is_kind(t, p + 1, TokenKind::Open) {
                Err(MacroArgsError::ExpectedOpen(p + 1))
            } else if !is_kind(t, p + 2, TokenKind::Ident) {
                Err(MacroArgsError::ExpectedIdent(p + 2))
            } else if !is_kind(t, p + 3, TokenKind::Close) {
                Err(MacroArgsError::ExpectedClose(p + 3))
            } else if is_arg {
                Ok((InitArgStyle::Arg(t[p + 2].span), p + 4))
            } else {
                Ok((InitArgStyle::OptionalArg(t[p + 2].span), p + 4))
            }
        } else {
            Err(MacroArgsError::UnknownInitStyle(p))
        }
    }
}

/// The keys read so far.
struct Keywords {
    dependencies: Option<Vec<ListItem>>,
    stages: Option<Vec<ListItem>>,
    before: Option<Vec<ListItem>>,
    after: Option<Vec<ListItem>>,
    factory: Option<Span>,
    init_style: Option<InitArgStyle>,
}

spec fn list_view(v: Option<Vec<ListItem>>) -> Option<Seq<ListItem>> {
    match v {
        Some(v) => Some(v@),
        None => None,
    }
}

impl Keywords {
    spec fn view(&self) -> KeywordState {
        KeywordState {
            dependencies: list_view(self.dependencies),
            stages: list_view(self.stages),
            before: list_view(self.before),
            after: list_view(self.after),
            factory: self.factory,
            init_style: self.init_style,
        }
    }
}

/// Read the key at `p` into `st`; on success, the position after its value.
fn keyword_at(input: &[u8], t: &Vec<Token>, p: usize, st: &mut Keywords, global: bool) -> (r: Result<usize, MacroArgsError>)
    requires
        spans_within(input@, t@),
        p < t@.len(),
        t@.len() + 4 <= usize::MAX,
    ensures
        match (r, parse_keyword(input@, t@, p as int, old(st).view(), global)) {
            (Ok(q), Ok((sst, q2))) => final(st).view() == sst && q == q2,
            (Err(e), Err(f)) => e == f,
            _ => false,
        },
{
    let q = skip_eq_at(t, p + 1);
    if word_is(input, t, p, "dependencies") {
        if st.dependencies.is_some() {
            return Err(MacroArgsError::DuplicatedKeyword(p));
        }
        match list_at(input, t, q, ListKind::Dependencies) {
            Ok((v, r)) => {
                st.dependencies = Some(v);
                Ok(r)
            },
            Err(e) => Err(e),
        }
    } else if word_is(input, t, p, "stages") {
        if st.stages.is_some() {
            return Err(MacroArgsError::DuplicatedKeyword(p));
        }
        match list_at(input, t, q, ListKind::Stages) {
            Ok((v, r)) => {
                st.stages = Some(v);
                Ok(r)
            },
            Err(e) => Err(e),
        }
    } else if word_is(input, t, p, "before") {
        if st.before.is_some() {
            return Err(MacroArgsError::DuplicatedKeyword(p));
        }
        match list_at(input, t, q, ListKind::Names) {
            Ok((v, r)) => {
                st.before = Some(v);
                Ok(r)
            },
            Err(e) => Err(e),
        }
    } else if word_is(input, t, p, "after") {
        if st.after.is_some() {
            return Err(MacroArgsError::DuplicatedKeyword(p));
        }
        match list_at(input, t, q, ListKind::Names) {
            Ok((v, r)) => {
                st.after = Some(v);
                Ok(r)
            },
            Err(e) => Err(e),
        }
    } else if global && word_is(input, t, p, "init_arg") {
        if st.init_style.is_some() {
            return Err(MacroArgsError::DuplicatedKeyword(p));
        }
        match init_style_at(input, t, q) {
            Ok((v, r)) => {
                st.init_style = Some(v);
                Ok(r)
            },
            Err(e) => Err(e),
        }
    } else if global && word_is(input, t, p, "factory") {
        if st.factory.is_some() {
            Err(MacroArgsError::DuplicatedKeyword(p))
        } else if is_kind(t, q, TokenKind::Ident) {
            st.factory = Some(t[q].span);
            Ok(q + 1)
        } else {
            Err(MacroArgsError::ExpectedIdent(q))
        }
    } else {
        Err(MacroArgsError::UnexpectedKeyword(p))
    }
}

/// Read the keys from `p` on into `st`; on success, the position after them.
fn keywords_at(input: &[u8], t: &Vec<Token>, p: usize, st: &mut Keywords, global: bool) -> (r: Result<usize, MacroArgsError>)
    requires
        spans_within(input@, t@),
        p <= t@.len(),
        t@.len() + 4 <= usize::MAX,
    ensures
        match (r, parse_keywords(input@, t@, p as int, old(st).view(), global)) {
            (Ok(q), Ok((sst, q2))) => final(st).view() == sst && q == q2,
            (Err(e), Err(f)) => e == f,
            _ => false,
        },
    decreases t@.len() - p,
{
    if !is_kind(t, p, TokenKind::Ident) {
        if global {
            return Ok(p);
        } else {
            return Err(MacroArgsError::ExpectedIdent(p));
        }
    }
    let ghost st0 = st.view();
    match keyword_at(input, t, p, st, global) {
        Ok(r) => {
            proof {
                lemma_parse_keyword(input@, t@, p as int, st0, global);
            }
            if is_kind(t, r, TokenKind::Comma) {
                keywords_at(input, t, r + 1, st, global)
            } else {
                Ok(r)
            }
        },
        Err(e) => Err(e),
    }
}

/// What a local system is registered with.
#[derive(Debug)]
pub struct LocalSystemArgs {
    pub struct_id: Span,
    pub dependencies: Vec<ListItem>,
    pub stages: Vec<ListItem>,
    pub before: Vec<ListItem>,
    pub after: Vec<ListItem>,
}

impl LocalSystemArgs {
    pub open spec fn view(&self) -> LocalSystemArgsSpec {
        LocalSystemArgsSpec {
            struct_id: self.struct_id,
            dependencies: self.dependencies@,
            stages: self.stages@,
            before: self.before@,
            after: self.after@,
        }
    }
}

/// What a global system is registered with.
#[derive(Debug)]
pub struct GlobalSystemArgs {
    pub struct_id: Span,
    pub dependencies: Vec<ListItem>,
    pub stages: Vec<ListItem>,
    pub before: Vec<ListItem>,
    pub after: Vec<ListItem>,
    pub factory: Span,
    pub init_style: InitArgStyle,
}

impl GlobalSystemArgs {
    pub open spec fn view(&self) -> GlobalSystemArgsSpec {
        GlobalSystemArgsSpec {
            struct_id: self.struct_id,
            dependencies: self.dependencies@,
            stages: self.stages@,
            before: self.before@,
            after: self.after@,
            factory: self.factory,
            init_style: self.init_style,
        }
    }
}

fn unwrap_list(v: Option<Vec<ListItem>>) -> (r: Vec<ListItem>)
    ensures
        r@ == or_empty(list_view(v)),
{
    match v {
        Some(v) => v,
        None => Vec::new(),
    }
}

fn no_keywords_exec() -> (k: Keywords)
    ensures
        k.view() == no_keywords(),
{
    Keywords { dependencies: None, stages: None, before: None, after: None, factory: None, init_style: None }
}

fn lex_checked(input: &[u8]) -> (t: Vec<Token>)
    requires
        input@.len() <= isize::MAX,
    ensures
        t@ == lex(input@),
        spans_within(input@, t@),
        t@.len() + 4 <= usize::MAX,
{
    let t = lex_bytes(input);
    proof {
        lemma_lex_from(input@, 0);
    }
    t
}

impl LocalSystemArgs {
    /// Read the arguments of a local system from the text of the macro input.
    pub fn parse(input: &[u8]) -> (r: Result<LocalSystemArgs, MacroArgsError>)
        requires
            input@.len() <= isize::MAX,
        ensures
            match (r, local_system_args(input@)) {
                (Ok(a), Ok(b)) => a.view() == b,
                (Err(e), Err(f)) => e == f,
                _ => false,
            },
    {
        let t = lex_checked(input);
        if !is_kind(&t, 0, TokenKind::Ident) {
            return Err(MacroArgsError::ExpectedIdent(0));
        }
        if !is_kind(&t, 1, TokenKind::Comma) {
            return Err(MacroArgsError::ExpectedComma(1));
        }
        let mut st = no_keywords_exec();
        let r = match keywords_at(input, &t, 2, &mut st, false) {
            Ok(r) => r,
            Err(e) => return Err(e),
        };
        if r != t.len() {
            return Err(MacroArgsError::UnexpectedToken(r));
        }
        let Keywords { dependencies, stages, before, after, .. } = st;
        Ok(LocalSystemArgs {
            struct_id: t[0].span,
            dependencies: unwrap_list(dependencies),
            stages: unwrap_list(stages),
            before: unwrap_list(before),
            after: unwrap_list(after),
        })
    }
}

impl GlobalSystemArgs {
    /// Read the arguments of a global system from the text of the macro input.
    pub fn parse(input: &[u8]) -> (r: Result<GlobalSystemArgs, MacroArgsError>)
        requires
            input@.len() <= isize::MAX,
        ensures
            match (r, global_system_args(input@)) {
                (Ok(a), Ok(b)) => a.view() == b,
                (Err(e), Err(f)) => e == f,
                _ => false,
            },
    {
        let t = lex_checked(input);
        if !is_kind(&t, 0, TokenKind::Ident) {
            return Err(MacroArgsError::ExpectedIdent(0));
        }
        if !is_kind(&t, 1, TokenKind::Comma) {
            return Err(MacroArgsError::ExpectedComma(1));
        }
        let mut st = no_keywords_exec();
        let r = match keywords_at(input, &t, 2, &mut st, true) {
            Ok(r) => r,
            Err(e) => return Err(e),
        };
        if r != t.len() {
            return Err(MacroArgsError::UnexpectedToken(r));
        }
        let Keywords { dependencies, stages, before, after, factory, init_style } = st;
        let factory = match factory {
            Some(f) => f,
            None => return Err(MacroArgsError::MissingFactory),
        };
        let init_style = match init_style {
            Some(i) => i,
            None => InitArgStyle::NoArg,
        };
        Ok(GlobalSystemArgs {
            struct_id: t[0].span,
            dependencies: unwrap_list(dependencies),
            stages: unwrap_list(stages),
            before: unwrap_list(before),
            after: unwrap_list(after),
            factory,
            init_style,
        })
    }
}

fn datagroup_keywords_at(input: &[u8], t: &Vec<Token>, p: usize, init: Option<InitArgStyle>) -> (r: Result<(Option<InitArgStyle>, usize), MacroArgsError>)
    requires
        spans_within(input@, t@),
        p <= t@.len(),
        t@.len() + 4 <= usize::MAX,
    ensures
        agrees(r, parse_datagroup_keywords(input@, t@, p as int, init)),
    decreases t@.len() - p,
{
    if !is_kind(t, p, TokenKind::Ident) {
        return Ok((init, p));
    }
    if word_is(input, t, p, "init_style") {
        if init.is_some() {
            return Err(MacroArgsError::DuplicatedKeyword(p));
        }
        let q = skip_eq_at(t, p + 1);
        match init_style_at(input, t, q) {
            Ok((style, r)) => {
                proof {
                    lemma_parse_init_style(input@, t@, q as int);
                }
                datagroup_keywords_at(input, t, r, Some(style))
            },
            Err(e) => Err(e),
        }
    } else {
        Err(MacroArgsError::UnexpectedKeyword(p))
    }
}

impl DatagroupInput {
    /// Read the arguments of a datagroup from the text of the macro input.
    pub fn parse(input: &[u8]) -> (r: Result<DatagroupInput, MacroArgsError>)
        requires
            input@.len() <= isize::MAX,
        ensures
            match (r, datagroup_args(input@)) {
                (Ok(a), Ok(b)) => a == b,
                (Err(e), Err(f)) => e == f,
                _ => false,
            },
    {
        let t = lex_checked(input);
        if !is_kind(&t, 0, TokenKind::Ident) {
            return Err(MacroArgsError::ExpectedIdent(0));
        }
        if !is_kind(&t, 1, TokenKind::Comma) {
            return Err(MacroArgsError::ExpectedComma(1));
        }
        if !is_kind(&t, 2, TokenKind::Ident) {
            return Err(MacroArgsError::ExpectedIdent(2));
        }
        if t.len() == 3 {
            return Ok(DatagroupInput { datagroup: t[0].span, factory: t[2].span, init_style: InitArgStyle::NoInit });
        }
        if !is_kind(&t, 3, TokenKind::Comma) {
            return Err(MacroArgsError::ExpectedComma(3));
        }
        let (init, r) = match datagroup_keywords_at(input, &t, 4, None) {
            Ok(x) => x,
            Err(e) => return Err(e),
        };
        if r != t.len() {
            return Err(MacroArgsError::UnexpectedToken(r));
        }
        let init_style = match init {
            Some(i) => i,
            None => InitArgStyle::NoInit,
        };
        Ok(DatagroupInput { datagroup: t[0].span, factory: t[2].span, init_style })
    }
}

} // verus!
