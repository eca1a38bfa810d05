//! The reader: source text to one expression in a region. Text is a sequence
//! of parentheses and atoms, separated by blanks; a semicolon starts a comment
//! that runs to the end of its line. An atom is an integer, `#t`, `#f`, or a
//! symbol.

use vstd::prelude::*;
use vstd::string::*;
use crate::queue::{Tree, extends, lemma_tree_ignores_younger, tree_of};
use crate::region::{Cell, Region};
use crate::symbol::{SymbolTable, id_after_intern, lemma_intern_idempotent, table_after_intern};
use crate::value::{Datum, Value};

verus! {

/// A lexical token. An atom is given by the positions of its first byte and
/// of the byte after its last.
#[derive(Clone, Copy, PartialEq, Eq, Debug, Structural)]
pub enum Token {
    Open,
    Close,
    Atom(usize, usize),
}

/// What an atom is.
#[derive(Clone, Copy, PartialEq, Eq, Debug, Structural)]
pub enum AtomKind {
    Int(i64),
    Bool(bool),
    Sym,
    /// Digits whose value does not fit 64 bits.
    BadNumber,
}

/// Blank, tab, line feed and carriage return.
pub open spec fn is_space(b: u8) -> bool {
    b == 32 || b == 9 || b == 10 || b == 13
}

/// The bytes that end an atom: blanks, parentheses and the semicolon.
pub open spec fn is_delim(b: u8) -> bool {
    is_space(b) || b == 40 || b == 41 || b == 59
}

/// The position of the first delimiter at or after `i`, or the text's length.
pub open spec fn atom_end(t: Seq<u8>, i: int) -> int
    decreases t.len() - i,
{
    if i < 0 || i >= t.len() || is_delim(t[i]) {
        i
    } else {
        atom_end(t, i + 1)
    }
}

/// The position of the first line feed at or after `i`, or the text's length.
pub open spec fn line_end(t: Seq<u8>, i: int) -> int
    decreases t.len() - i,
{
    if i < 0 || i >= t.len() || t[i] == 10 {
        i
    } else {
        line_end(t, i + 1)
    }
}

/// An atom ends at or after its start, inside the text.
pub proof fn lemma_atom_end_bounds(t: Seq<u8>, i: int)
    requires
        0 <= i <= t.len(),
    ensures
        i <= atom_end(t, i) <= t.len(),
        i < t.len() && !is_delim(t[i]) ==> i < atom_end(t, i),
        forall|j: int| i <= j < atom_end(t, i) ==> !is_delim(#[trigger] t[j]),
        atom_end(t, i) < t.len() ==> is_delim(t[atom_end(t, i)]),
    decreases t.len() - i,
{
    if i < t.len() && !is_delim(t[i]) {
        lemma_atom_end_bounds(t, i + 1);
    }
}

/// A line ends at or after its start, inside the text.
pub proof fn lemma_line_end_bounds(t: Seq<u8>, i: int)
    requires
        0 <= i <= t.len(),
    ensures
        i <= line_end(t, i) <= t.len(),
    decreases t.len() - i,
{
    if i < t.len() && t[i] != 10 {
        lemma_line_end_bounds(t, i + 1);
    }
}

/// The tokens of the text from position `i` on.
pub open spec fn lex(t: Seq<u8>, i: int) -> Seq<Token>
    decreases t.len() - i,
{
    if i < 0 || i >= t.len() {
        Seq::empty()
    } else if is_space(t[i]) {
        lex(t, i + 1)
    } else if t[i] == 59 {
        proof {
            lemma_line_end_bounds(t, i + 1);
        }
        lex(t, line_end(t, i + 1))
    } else if t[i] == 40 {
        seq![Token::Open] + lex(t, i + 1)
    } else if t[i] == 41 {
        seq![Token::Close] + lex(t, i + 1)
    } else {
        proof {
            lemma_atom_end_bounds(t, i);
        }
        seq![Token::Atom(i as usize, atom_end(t, i) as usize)] + lex(t, atom_end(t, i))
    }
}

/// Whether the bytes from `a` to `b` are decimal digits.
pub open spec fn all_digits(t: Seq<u8>, a: int, b: int) -> bool {
    forall|j: int| a <= j < b ==> 48 <= #[trigger] t[j] <= 57
}

/// The number that the decimal digits from `a` to `b` stand for.
pub open spec fn digits_value(t: Seq<u8>, a: int, b: int) -> int
    decreases b - a,
{
    if b <= a {
        0
    } else {
        digits_value(t, a, b - 1) * 10 + (t[b - 1] - 48)
    }
}

/// What the atom from `a` to `b` is: `#t` and `#f` are the booleans; digits,
/// with or without a minus sign before them, are an integer where their value
/// fits 64 bits; everything else is a symbol.
pub open spec fn atom_kind(t: Seq<u8>, a: int, b: int) -> AtomKind {
    if b - a == 2 && t[a] == 35 && t[a + 1] == 116 {
        AtomKind::Bool(true)
    } else if b - a == 2 && t[a] == 35 && t[a + 1] == 102 {
        AtomKind::Bool(false)
    } else if b - a >= 1 && all_digits(t, a, b) {
        if digits_value(t, a, b) <= i64::MAX {
            AtomKind::Int(digits_value(t, a, b) as i64)
        } else {
            AtomKind::BadNumber
        }
    } else if b - a >= 2 && t[a] == 45 && all_digits(t, a + 1, b) {
        if -digits_value(t, a + 1, b) >= i64::MIN {
            AtomKind::Int((-digits_value(t, a + 1, b)) as i64)
        } else {
            AtomKind::BadNumber
        }
    } else {
        AtomKind::Sym
    }
}

/// Whether `b` ends an atom.
fn delimits(b: u8) -> (r: bool)
    ensures
        r == is_delim(b),
{
    b == 32 || b == 9 || b == 10 || b == 13 || b == 40 || b == 41 || b == 59
}

/// The tokens of `text`.
pub fn tokenise(text: &[u8]) -> (out: Vec<Token>)
    ensures
        out@ == lex(text@, 0),
{
    let n: usize = text.len();
    let mut out: Vec<Token> = Vec::new();
    let mut i: usize = 0;
    while i < n
        invariant
            n == text@.len(),
            i <= n,
            lex(text@, 0) == out@ + lex(text@, i as int),
        decreases n - i,
    {
        let b: u8 = text[i];
        if b == 32 || b == 9 || b == 10 || b == 13 {
            i = i + 1;
        } else if b == 59 {
            let mut j: usize = i + 1;
            while j < n && text[j] != 10
                invariant
                    n == text@.len(),
                    i < j <= n,
                    line_end(text@, i + 1) == line_end(text@, j as int),
                decreases n - j,
            {
                j = j + 1;
            }
            i = j;
        } else if b == 40 {
            proof {
                assert(out@.push(Token::Open) + lex(text@, i + 1) =~= out@ + (seq![Token::Open]
                    + lex(text@, i + 1)));
            }
            out.push(Token::Open);
            i = i + 1;
        } else if b == 41 {
            proof {
                assert(out@.push(Token::Close) + lex(text@, i + 1) =~= out@ + (seq![Token::Close]
                    + lex(text@, i + 1)));
            }
            out.push(Token::Close);
            i = i + 1;
        } else {
            let mut j: usize = i + 1;
            while j < n && !delimits(text[j])
                invariant
                    n == text@.len(),
                    i < j <= n,
                    atom_end(text@, i as int) == atom_end(text@, j as int),
                decreases n - j,
            {
                j = j + 1;
            }
            proof {
                let tok = Token::Atom(i, j);
                assert(out@.push(tok) + lex(text@, j as int) =~= out@ + (seq![tok] + lex(
                    text@,
                    j as int,
                )));
            }
            out.push(Token::Atom(i, j));
            i = j;
        }
    }
    proof {
        assert(out@ + Seq::<Token>::empty() =~= out@);
    }
    out
}

/// Adding a digit to the digits before it.
proof fn lemma_digits_value_step(t: Seq<u8>, a: int, b: int)
    requires
        a <= b,
    ensures
        digits_value(t, a, b + 1) == digits_value(t, a, b) * 10 + (t[b] - 48),
{
}

/// The value of digits grows with their number.
proof fn lemma_digits_value_grows(t: Seq<u8>, a: int, b: int, c: int)
    requires
        a <= b <= c,
        all_digits(t, a, c),
    ensures
        0 <= digits_value(t, a, b) <= digits_value(t, a, c),
    decreases c - a,
{
    if a < c {
        if b == c {
            lemma_digits_value_grows(t, a, b - 1, c - 1);
        } else {
            lemma_digits_value_grows(t, a, b, c - 1);
            assert(48 <= t[c - 1] <= 57);
        }
    }
}

/// Whether the bytes from `a` to `b` are decimal digits.
fn digits_only(text: &[u8], a: usize, b: usize) -> (r: bool)
    requires
        a <= b <= text@.len(),
    ensures
        r == all_digits(text@, a as int, b as int),
{
    let mut j: usize = a;
    while j < b
        invariant
            a <= j <= b,
            b <= text@.len(),
            all_digits(text@, a as int, j as int),
        decreases b - j,
    {
        if text[j] < 48 || text[j] > 57 {
            return false;
        }
        j = j + 1;
    }
    true
}

/// The value of the digits from `a` to `b`, where it is at most `limit`.
fn digits_number(text: &[u8], a: usize, b: usize, limit: u64) -> (r: Option<u64>)
    requires
        a <= b <= text@.len(),
        all_digits(text@, a as int, b as int),
        9 <= limit <= 0x8000_0000_0000_0000,
    ensures
        match r {
            Some(v) => v == digits_value(text@, a as int, b as int) && v <= limit,
            None => digits_value(text@, a as int, b as int) > limit,
        },
{
    let mut acc: u64 = 0;
    let mut j: usize = a;
    while j < b
        invariant
            a <= j <= b,
            b <= text@.len(),
            all_digits(text@, a as int, b as int),
            9 <= limit <= 0x8000_0000_0000_0000,
            acc == digits_value(text@, a as int, j as int),
            acc <= limit,
        decreases b - j,
    {
        let d: u64 = (text[j] - 48) as u64;
        proof {
            assert(48 <= text@[j as int] <= 57);
            lemma_digits_value_step(text@, a as int, j as int);
            lemma_digits_value_grows(text@, a as int, j + 1, b as int);
        }
        if acc > (limit - d) / 10 {
            return None;
        }
        acc = acc * 10 + d;
        j = j + 1;
    }
    Some(acc)
}

/// What the atom from `a` to `b` is.
fn classify(text: &[u8], a: usize, b: usize) -> (k: AtomKind)
    requires
        a < b <= text@.len(),
    ensures
        k == atom_kind(text@, a as int, b as int),
{
    if b - a == 2 && text[a] == 35 && text[a + 1] == 116 {
        return AtomKind::Bool(true);
    }
    if b - a == 2 && text[a] == 35 && text[a + 1] == 102 {
        return AtomKind::Bool(false);
    }
    if digits_only(text, a, b) {
        return match digits_number(text, a, b, 0x7FFF_FFFF_FFFF_FFFF) {
            Some(v) => AtomKind::Int(v as i64),
            None => AtomKind::BadNumber,
        };
    }
    if b - a >= 2 && text[a] == 45 && digits_only(text, a + 1, b) {
        return match digits_number(text, a + 1, b, 0x8000_0000_0000_0000) {
            Some(v) => {
                if v == 0x8000_0000_0000_0000 {
                    AtomKind::Int(i64::MIN)
                } else {
                    AtomKind::Int(-(v as i64))
                }
            },
            None => AtomKind::BadNumber,
        };
    }
    AtomKind::Sym
}

/// Why a text was not read.
#[derive(Clone, Copy, PartialEq, Eq, Debug, Structural)]
pub enum ParseError {
    /// The text holds a byte beyond the ASCII range.
    NotAscii,
    /// The text holds no expression.
    Empty,
    /// A closing parenthesis stands where an expression must begin.
    UnexpectedClose,
    /// The text ends inside a list.
    Unclosed,
    /// Something follows the expression.
    Trailing,
    /// An integer does not fit 64 bits.
    BadNumber,
    /// The region has too few bytes left for the expression.
    RegionExhausted,
    /// The symbol table may not have an identifier for every symbol.
    SymbolsExhausted,
}

/// How far the reading of one expression has come.
pub enum Progress {
    /// Nothing was read.
    Start,
    /// This many lists are open.
    Inside(int),
    /// The expression is complete.
    Done,
    /// The text is not an expression.
    Failed(ParseError),
}

/// Whether the token is an atom that stands for no value.
pub open spec fn bad_atom(t: Seq<u8>, tok: Token) -> bool {
    tok matches Token::Atom(a, b) && atom_kind(t, a as int, b as int) is BadNumber
}

/// The progress after one more token.
pub open spec fn advance(p: Progress, t: Seq<u8>, tok: Token) -> Progress {
    match p {
        Progress::Failed(_) => p,
        Progress::Done => Progress::Failed(ParseError::Trailing),
        Progress::Start => match tok {
            Token::Open => Progress::Inside(1),
            Token::Close => Progress::Failed(ParseError::UnexpectedClose),
            Token::Atom(_, _) => if bad_atom(t, tok) {
                Progress::Failed(ParseError::BadNumber)
            } else {
                Progress::Done
            },
        },
        Progress::Inside(d) => match tok {
            Token::Open => Progress::Inside(d + 1),
            Token::Close => if d <= 1 {
                Progress::Done
            } else {
                Progress::Inside(d - 1)
            },
            Token::Atom(_, _) => if bad_atom(t, tok) {
                Progress::Failed(ParseError::BadNumber)
            } else {
                p
            },
        },
    }
}

/// The progress after the tokens `ts`.
pub open spec fn progress(t: Seq<u8>, ts: Seq<Token>) -> Progress
    decreases ts.len(),
{
    if ts.len() == 0 {
        Progress::Start
    } else {
        advance(progress(t, ts.drop_last()), t, ts.last())
    }
}

/// The verdict at the end of the text: one complete expression and nothing
/// else is accepted.
pub open spec fn verdict(p: Progress) -> Result<(), ParseError> {
    match p {
        Progress::Start => Err(ParseError::Empty),
        Progress::Inside(_) => Err(ParseError::Unclosed),
        Progress::Done => Ok(()),
        Progress::Failed(e) => Err(e),
    }
}

/// Bytes that the value of an atom occupies.
pub open spec fn atom_bytes(k: AtomKind) -> int {
    match k {
        AtomKind::Int(_) => 16,
        AtomKind::Bool(_) => 8,
        AtomKind::Sym => 12,
        AtomKind::BadNumber => 0,
    }
}

/// Bytes that one token adds to the expression: an atom its value, a closing
/// parenthesis the empty list that ends its list, and either of them, inside
/// a list, the pair that holds it there.
pub open spec fn token_bytes(p: Progress, t: Seq<u8>, tok: Token) -> int {
    match (p, tok) {
        (Progress::Start, Token::Atom(a, b)) => atom_bytes(atom_kind(t, a as int, b as int)),
        (Progress::Inside(_), Token::Atom(a, b)) => atom_bytes(atom_kind(t, a as int, b as int))
            + 24,
        (Progress::Inside(d), Token::Close) => if d <= 1 {
            8
        } else {
            32
        },
        _ => 0,
    }
}

/// Bytes that the expression of the tokens `ts` occupies.
pub open spec fn bytes_for(t: Seq<u8>, ts: Seq<Token>) -> int
    decreases ts.len(),
{
    if ts.len() == 0 {
        0
    } else {
        bytes_for(t, ts.drop_last()) + token_bytes(progress(t, ts.drop_last()), t, ts.last())
    }
}

/// Number of symbols among the tokens `ts`.
pub open spec fn symbols_in(t: Seq<u8>, ts: Seq<Token>) -> int
    decreases ts.len(),
{
    if ts.len() == 0 {
        0
    } else {
        symbols_in(t, ts.drop_last()) + if ts.last() matches Token::Atom(a, b) && atom_kind(
            t,
            a as int,
            b as int,
        ) is Sym {
            1int
        } else {
            0int
        }
    }
}

/// Whether every atom among `ts` is a range of the text that is not empty.
pub open spec fn atoms_in_range(t: Seq<u8>, ts: Seq<Token>) -> bool {
    forall|k: int|
        0 <= k < ts.len() ==> ((#[trigger] ts[k]) matches Token::Atom(a, b) ==> a < b <= t.len())
}

/// The atoms that `lex` finds are ranges of the text that are not empty.
pub proof fn lemma_lex_atoms_in_range(t: Seq<u8>, i: int)
    requires
        0 <= i <= t.len(),
        t.len() <= usize::MAX,
    ensures
        atoms_in_range(t, lex(t, i)),
    decreases t.len() - i,
{
    if i < t.len() {
        if is_space(t[i]) {
            lemma_lex_atoms_in_range(t, i + 1);
        } else if t[i] == 59 {
            lemma_line_end_bounds(t, i + 1);
            lemma_lex_atoms_in_range(t, line_end(t, i + 1));
        } else if t[i] == 40 || t[i] == 41 {
            lemma_lex_atoms_in_range(t, i + 1);
            let rest = lex(t, i + 1);
            assert forall|k: int| 0 <= k < lex(t, i).len() implies ((#[trigger] lex(
                t,
                i,
            )[k]) matches Token::Atom(
                a,
                b,
            ) ==> a < b <= t.len()) by {
                if k > 0 {
                    assert(lex(t, i)[k] == rest[k - 1]);
                }
            }
        } else {
            lemma_atom_end_bounds(t, i);
            lemma_lex_atoms_in_range(t, atom_end(t, i));
            let rest = lex(t, atom_end(t, i));
            assert forall|k: int| 0 <= k < lex(t, i).len() implies ((#[trigger] lex(
                t,
                i,
            )[k]) matches Token::Atom(
                a,
                b,
            ) ==> a < b <= t.len()) by {
                if k > 0 {
                    assert(lex(t, i)[k] == rest[k - 1]);
                }
            }
        }
    }
}

/// Once the reading has failed, it stays failed.
pub proof fn lemma_failure_stays(t: Seq<u8>, ts: Seq<Token>, k: int)
    requires
        0 <= k <= ts.len(),
        progress(t, ts.take(k)) is Failed,
    ensures
        progress(t, ts) == progress(t, ts.take(k)),
    decreases ts.len() - k,
{
    if k < ts.len() {
        assert(ts.take(k + 1).drop_last() =~= ts.take(k));
        assert(ts.take(k + 1).last() == ts[k]);
        lemma_failure_stays(t, ts, k + 1);
    } else {
        assert(ts.take(k) =~= ts);
    }
}

/// The state of the reading, as the check keeps it.
#[derive(Clone, Copy, PartialEq, Eq, Debug, Structural)]
enum Phase {
    Start,
    Inside(usize),
    Done,
}

/// Runs the tokens through the reading and adds up what the expression needs:
/// its bytes, and the number of its symbols.
fn check(text: &[u8], tokens: &Vec<Token>) -> (res: Result<(u128, usize), ParseError>)
    requires
        atoms_in_range(text@, tokens@),
    ensures
        match res {
            Ok((bytes, syms)) => {
                &&& progress(text@, tokens@) is Done
                &&& bytes == bytes_for(text@, tokens@)
                &&& syms == symbols_in(text@, tokens@)
            },
            Err(e) => verdict(progress(text@, tokens@)) == Err::<(), ParseError>(e),
        },
{
    let n: usize = tokens.len();
    let mut phase: Phase = Phase::Start;
    let mut bytes: u128 = 0;
    let mut syms: usize = 0;
    let mut k: usize = 0;
    proof {
        assert(tokens@.take(0) =~= Seq::<Token>::empty());
    }
    while k < n
        invariant
            n == tokens@.len(),
            k <= n,
            atoms_in_range(text@, tokens@),
            match phase {
                Phase::Start => progress(text@, tokens@.take(k as int)) is Start,
                Phase::Inside(d) => 1 <= d <= k && progress(text@, tokens@.take(k as int))
                    == Progress::Inside(d as int),
                Phase::Done => progress(text@, tokens@.take(k as int)) is Done,
            },
            bytes == bytes_for(text@, tokens@.take(k as int)),
            bytes <= 48 * k,
            syms == symbols_in(text@, tokens@.take(k as int)),
            syms <= k,
        decreases n - k,
    {
        let tok: Token = tokens[k];
        proof {
            assert(tokens@.take(k + 1).drop_last() =~= tokens@.take(k as int));
            assert(tokens@.take(k + 1).last() == tok);
        }
        let kind: Option<AtomKind> = match tok {
            Token::Atom(a, b) => Some(classify(text, a, b)),
            _ => None,
        };
        let failure: Option<ParseError> = match phase {
            Phase::Done => Some(ParseError::Trailing),
            Phase::Start => match tok {
                Token::Close => Some(ParseError::UnexpectedClose),
                _ => None,
            },
            Phase::Inside(_) => None,
        };
        let failure: Option<ParseError> = match failure {
            Some(e) => Some(e),
            None => match kind {
                Some(AtomKind::BadNumber) => Some(ParseError::BadNumber),
                _ => None,
            },
        };
        match failure {
            Some(e) => {
                proof {
                    lemma_failure_stays(text@, tokens@, k + 1);
                }
                return Err(e);
            },
            None => {},
        }
        let inside: bool = match phase {
            Phase::Inside(_) => true,
            _ => false,
        };
        match kind {
            Some(AtomKind::Int(_)) => {
                bytes = bytes + 16;
            },
            Some(AtomKind::Bool(_)) => {
                bytes = bytes + 8;
            },
            Some(AtomKind::Sym) => {
                bytes = bytes + 12;
                syms = syms + 1;
            },
            _ => {},
        }
        match tok {
            Token::Atom(_, _) => {
                if inside {
                    bytes = bytes + 24;
                }
            },
            Token::Open => {
                phase = match phase {
                    Phase::Inside(d) => Phase::Inside(d + 1),
                    _ => Phase::Inside(1),
                };
            },
            Token::Close => {
                match phase {
                    Phase::Inside(d) => {
                        if d <= 1 {
                            bytes = bytes + 8;
                            phase = Phase::Done;
                        } else {
                            bytes = bytes + 32;
                            phase = Phase::Inside(d - 1);
                        }
                    },
                    _ => {},
                }
            },
        }
        match tok {
            Token::Atom(_, _) => {
                if !inside {
                    phase = Phase::Done;
                }
            },
            _ => {},
        }
        k = k + 1;
    }
    proof {
        assert(tokens@.take(n as int) =~= tokens@);
    }
    match phase {
        Phase::Start => Err(ParseError::Empty),
        Phase::Inside(_) => Err(ParseError::Unclosed),
        Phase::Done => Ok((bytes, syms)),
    }
}

/// A token with its meaning: an atom as the value it stands for, a symbol as
/// its name.
pub enum Word {
    Open,
    Close,
    Int(i64),
    Bool(bool),
    Sym(Seq<char>),
}

/// An expression as the text gives it: atoms, the empty list, and pairs.
pub enum Syntax {
    Int(i64),
    Bool(bool),
    Sym(Seq<char>),
    Nil,
    Cons(Box<Syntax>, Box<Syntax>),
}

/// The words that an expression is written with: an atom is one word, a list
/// its elements between parentheses.
pub open spec fn flatten(x: Syntax) -> Seq<Word>
    decreases x, 1int,
{
    match x {
        Syntax::Int(n) => seq![Word::Int(n)],
        Syntax::Bool(b) => seq![Word::Bool(b)],
        Syntax::Sym(name) => seq![Word::Sym(name)],
        _ => seq![Word::Open] + items(x) + seq![Word::Close],
    }
}

/// The words of the elements of a list, one element after the other.
pub open spec fn items(x: Syntax) -> Seq<Word>
    decreases x, 0int,
{
    match x {
        Syntax::Cons(a, b) => flatten(*a) + items(*b),
        _ => Seq::empty(),
    }
}

/// Whether `x` is a list whose elements are well formed: it ends in the empty
/// list.
pub open spec fn is_list(x: Syntax) -> bool
    decreases x,
{
    match x {
        Syntax::Nil => true,
        Syntax::Cons(a, b) => proper(*a) && is_list(*b),
        _ => false,
    }
}

/// Whether `x` is well formed: every pair in it belongs to a list that ends
/// in the empty list.
pub open spec fn proper(x: Syntax) -> bool
    decreases x,
{
    match x {
        Syntax::Cons(a, b) => proper(*a) && is_list(*b),
        _ => true,
    }
}

/// The expression that a structure stands for, with the names of its
/// symbols, or `None` where it holds what no text gives.
pub open spec fn syntax_of(tree: Tree, names: Seq<Seq<char>>) -> Option<Syntax>
    decreases tree,
{
    match tree {
        Tree::I64(n) => Some(Syntax::Int(n)),
        Tree::Bool(b) => Some(Syntax::Bool(b)),
        Tree::Symbol(k) => if k < names.len() {
            Some(Syntax::Sym(names[k as int]))
        } else {
            None
        },
        Tree::Nil => Some(Syntax::Nil),
        Tree::Pair(a, b) => match (syntax_of(*a, names), syntax_of(*b, names)) {
            (Some(x), Some(y)) => Some(Syntax::Cons(Box::new(x), Box::new(y))),
            _ => None,
        },
        _ => None,
    }
}

/// The expression that the value `v` stands for.
pub open spec fn reads_as(cells: Seq<Cell>, names: Seq<Seq<char>>, v: Value) -> Option<Syntax> {
    match tree_of(cells, v.idx as int) {
        Some(tree) => syntax_of(tree, names),
        None => None,
    }
}

/// The meaning of a token of the text with the characters `s` and the bytes
/// `t`.
pub open spec fn word_of(s: Seq<char>, t: Seq<u8>, tok: Token) -> Word {
    match tok {
        Token::Open => Word::Open,
        Token::Close => Word::Close,
        Token::Atom(a, b) => match atom_kind(t, a as int, b as int) {
            AtomKind::Int(n) => Word::Int(n),
            AtomKind::Bool(x) => Word::Bool(x),
            _ => Word::Sym(s.subrange(a as int, b as int)),
        },
    }
}

/// The meanings of the tokens `ts`.
pub open spec fn words(s: Seq<char>, t: Seq<u8>, ts: Seq<Token>) -> Seq<Word> {
    Seq::new(ts.len(), |k: int| word_of(s, t, ts[k]))
}

/// The names of the symbols among the tokens `ts`, in order.
pub open spec fn symbol_names(s: Seq<char>, t: Seq<u8>, ts: Seq<Token>) -> Seq<Seq<char>>
    decreases ts.len(),
{
    if ts.len() == 0 {
        Seq::empty()
    } else {
        let before = symbol_names(s, t, ts.drop_last());
        match ts.last() {
            Token::Atom(a, b) => if atom_kind(t, a as int, b as int) is Sym {
                before.push(s.subrange(a as int, b as int))
            } else {
                before
            },
            _ => before,
        }
    }
}

/// The table after interning `syms`, one after the other.
pub open spec fn intern_all(names: Seq<Seq<char>>, syms: Seq<Seq<char>>) -> Seq<Seq<char>>
    decreases syms.len(),
{
    if syms.len() == 0 {
        names
    } else {
        table_after_intern(intern_all(names, syms.drop_last()), syms.last())
    }
}

/// `b` holds the names of `a` at their positions, and perhaps more.
pub open spec fn names_extend(a: Seq<Seq<char>>, b: Seq<Seq<char>>) -> bool {
    a.len() <= b.len() && forall|i: int| 0 <= i < a.len() ==> a[i] == b[i]
}

/// The list of `xs`.
pub open spec fn list_of(xs: Seq<Syntax>) -> Syntax
    decreases xs.len(),
{
    if xs.len() == 0 {
        Syntax::Nil
    } else {
        Syntax::Cons(Box::new(xs[0]), Box::new(list_of(xs.drop_first())))
    }
}

/// The words of `xs`, one expression after the other.
pub open spec fn flat_all(xs: Seq<Syntax>) -> Seq<Word>
    decreases xs.len(),
{
    if xs.len() == 0 {
        Seq::empty()
    } else {
        flatten(xs[0]) + flat_all(xs.drop_first())
    }
}

/// The words read so far where lists are open: for each open list, from the
/// outermost, its opening parenthesis and the elements it has so far.
pub open spec fn assembled(levels: Seq<Seq<Syntax>>) -> Seq<Word>
    decreases levels.len(),
{
    if levels.len() == 0 {
        Seq::empty()
    } else {
        assembled(levels.drop_last()) + seq![Word::Open] + flat_all(levels.last())
    }
}

/// Number of elements in all open lists.
pub open spec fn pending(levels: Seq<Seq<Syntax>>) -> int
    decreases levels.len(),
{
    if levels.len() == 0 {
        0
    } else {
        pending(levels.drop_last()) + levels.last().len()
    }
}

/// The elements of a list are its words.
proof fn lemma_items_of_list(xs: Seq<Syntax>)
    requires
        forall|i: int| 0 <= i < xs.len() ==> proper(#[trigger] xs[i]),
    ensures
        items(list_of(xs)) == flat_all(xs),
        is_list(list_of(xs)),
        proper(list_of(xs)),
        flatten(list_of(xs)) == seq![Word::Open] + flat_all(xs) + seq![Word::Close],
    decreases xs.len(),
{
    if xs.len() > 0 {
        let rest = xs.drop_first();
        assert forall|i: int| 0 <= i < rest.len() implies proper(#[trigger] rest[i]) by {
            assert(rest[i] == xs[i + 1]);
        }
        lemma_items_of_list(rest);
        assert(proper(xs[0]));
    }
}

/// One more expression adds its words at the end.
proof fn lemma_flat_all_push(xs: Seq<Syntax>, x: Syntax)
    ensures
        flat_all(xs.push(x)) == flat_all(xs) + flatten(x),
    decreases xs.len(),
{
    if xs.len() == 0 {
        assert(xs.push(x).drop_first() =~= Seq::<Syntax>::empty());
        assert(xs.push(x)[0] == x);
        assert(flat_all(xs.push(x).drop_first()) =~= Seq::<Word>::empty());
        assert(flat_all(xs.push(x)) =~= flatten(x) + Seq::<Word>::empty());
        assert(flat_all(xs) + flatten(x) =~= flatten(x));
        assert(flatten(x) + Seq::<Word>::empty() =~= flatten(x));
    } else {
        assert(xs.push(x).drop_first() =~= xs.drop_first().push(x));
        lemma_flat_all_push(xs.drop_first(), x);
        assert(xs.push(x)[0] == xs[0]);
        assert(flatten(xs[0]) + (flat_all(xs.drop_first()) + flatten(x)) =~= (flatten(xs[0])
            + flat_all(xs.drop_first())) + flatten(x));
    }
}

/// An element placed in the innermost open list adds its words to those read
/// so far, and is one more element that waits for its pair.
proof fn lemma_assembled_place(levels: Seq<Seq<Syntax>>, x: Syntax)
    requires
        levels.len() > 0,
    ensures
        assembled(levels.drop_last().push(levels.last().push(x))) == assembled(levels) + flatten(
            x,
        ),
        pending(levels.drop_last().push(levels.last().push(x))) == pending(levels) + 1,
{
    let next = levels.drop_last().push(levels.last().push(x));
    assert(next.drop_last() =~= levels.drop_last());
    assert(next.last() == levels.last().push(x));
    lemma_flat_all_push(levels.last(), x);
    assert(assembled(levels.drop_last()) + seq![Word::Open] + (flat_all(levels.last()) + flatten(
        x,
    )) =~= (assembled(levels.drop_last()) + seq![Word::Open] + flat_all(levels.last()))
        + flatten(x));
}

/// What the names of a longer table make of a structure is what the names of
/// the shorter one made of it.
proof fn lemma_syntax_keeps(tree: Tree, a: Seq<Seq<char>>, b: Seq<Seq<char>>)
    requires
        names_extend(a, b),
        syntax_of(tree, a) is Some,
    ensures
        syntax_of(tree, b) == syntax_of(tree, a),
    decreases tree,
{
    match tree {
        Tree::Pair(x, y) => {
            lemma_syntax_keeps(*x, a, b);
            lemma_syntax_keeps(*y, a, b);
        },
        _ => {},
    }
}

/// What a value stands for stays as it is when cells and names are added.
proof fn lemma_reads_as_keeps(
    cells: Seq<Cell>,
    names: Seq<Seq<char>>,
    more_cells: Seq<Cell>,
    more_names: Seq<Seq<char>>,
    v: Value,
)
    requires
        extends(cells, more_cells),
        names_extend(names, more_names),
        v.idx < cells.len(),
        reads_as(cells, names, v) is Some,
    ensures
        reads_as(more_cells, more_names, v) == reads_as(cells, names, v),
{
    lemma_tree_ignores_younger(cells, more_cells, v.idx as int);
    lemma_syntax_keeps(tree_of(cells, v.idx as int)->0, names, more_names);
}

/// Whether the values `elems` are in the region and stand for the well-formed
/// expressions `xs`, position by position.
pub open spec fn elems_ok(
    cells: Seq<Cell>,
    names: Seq<Seq<char>>,
    elems: Seq<Value>,
    xs: Seq<Syntax>,
) -> bool {
    &&& elems.len() == xs.len()
    &&& forall|e: int|
        0 <= e < elems.len() ==> {
            &&& (#[trigger] elems[e]).idx < cells.len()
            &&& reads_as(cells, names, elems[e]) == Some(xs[e])
            &&& proper(xs[e])
        }
}

/// Whether the open lists `levels` hold values that stand for `lxs`.
pub open spec fn levels_ok(
    cells: Seq<Cell>,
    names: Seq<Seq<char>>,
    levels: Seq<Vec<Value>>,
    lxs: Seq<Seq<Syntax>>,
) -> bool {
    &&& levels.len() == lxs.len()
    &&& forall|j: int|
        0 <= j < levels.len() ==> elems_ok(cells, names, (#[trigger] levels[j])@, lxs[j])
}

/// Elements stay in order when cells and names are added.
proof fn lemma_elems_keep(
    cells: Seq<Cell>,
    names: Seq<Seq<char>>,
    more_cells: Seq<Cell>,
    more_names: Seq<Seq<char>>,
    elems: Seq<Value>,
    xs: Seq<Syntax>,
)
    requires
        extends(cells, more_cells),
        names_extend(names, more_names),
        elems_ok(cells, names, elems, xs),
    ensures
        elems_ok(more_cells, more_names, elems, xs),
{
    assert forall|e: int| 0 <= e < elems.len() implies {
        &&& (#[trigger] elems[e]).idx < more_cells.len()
        &&& reads_as(more_cells, more_names, elems[e]) == Some(xs[e])
        &&& proper(xs[e])
    } by {
        lemma_reads_as_keeps(cells, names, more_cells, more_names, elems[e]);
    }
}

/// Open lists stay in order when cells and names are added.
proof fn lemma_levels_keep(
    cells: Seq<Cell>,
    names: Seq<Seq<char>>,
    more_cells: Seq<Cell>,
    more_names: Seq<Seq<char>>,
    levels: Seq<Vec<Value>>,
    lxs: Seq<Seq<Syntax>>,
)
    requires
        extends(cells, more_cells),
        names_extend(names, more_names),
        levels_ok(cells, names, levels, lxs),
    ensures
        levels_ok(more_cells, more_names, levels, lxs),
{
    assert forall|j: int| 0 <= j < levels.len() implies elems_ok(
        more_cells,
        more_names,
        (#[trigger] levels[j])@,
        lxs[j],
    ) by {
        lemma_elems_keep(cells, names, more_cells, more_names, levels[j]@, lxs[j]);
    }
}

/// Allocates the list of `elems`: the empty list, then one pair for each
/// element, the last element first.
fn make_list(
    region: &mut Region,
    elems: &Vec<Value>,
    Ghost(names): Ghost<Seq<Seq<char>>>,
    Ghost(xs): Ghost<Seq<Syntax>>,
) -> (v: Value)
    requires
        old(region).wf(),
        elems_ok(old(region).cells@, names, elems@, xs),
        old(region).cursor + 8 + 24 * elems@.len() <= old(region).capacity,
    ensures
        final(region).wf(),
        final(region).capacity == old(region).capacity,
        final(region).cursor == old(region).cursor + 8 + 24 * elems@.len(),
        extends(old(region).cells@, final(region).cells@),
        final(region).holds(v),
        reads_as(final(region).cells@, names, v) == Some(list_of(xs)),
{
    let n: usize = elems.len();
    let mut tail: Value = match region.allocate(Datum::Nil) {
        Ok(v) => v,
        Err(_) => {
            proof {
                assert(false);
            }
            Value { idx: 0 }
        },
    };
    let mut j: usize = n;
    proof {
        assert(xs.skip(n as int) =~= Seq::<Syntax>::empty());
        lemma_elems_keep(old(region).cells@, names, region.cells@, names, elems@, xs);
    }
    while j > 0
        invariant
            region.wf(),
            region.capacity == old(region).capacity,
            n == elems@.len(),
            j <= n,
            region.cursor == old(region).cursor + 8 + 24 * (n - j),
            old(region).cursor + 8 + 24 * n <= old(region).capacity,
            extends(old(region).cells@, region.cells@),
            elems_ok(region.cells@, names, elems@, xs),
            region.holds(tail),
            reads_as(region.cells@, names, tail) == Some(list_of(xs.skip(j as int))),
        decreases j,
    {
        j = j - 1;
        let head: Value = elems[j];
        let ghost before = region.cells@;
        let next: Value = match region.allocate(Datum::Pair(head, tail)) {
            Ok(v) => v,
            Err(_) => {
                proof {
                    assert(false);
                }
                Value { idx: 0 }
            },
        };
        proof {
            lemma_elems_keep(before, names, region.cells@, names, elems@, xs);
            lemma_reads_as_keeps(before, names, region.cells@, names, tail);
            lemma_reads_as_keeps(before, names, region.cells@, names, head);
            assert(xs.skip(j as int).drop_first() =~= xs.skip(j + 1));
            assert(xs.skip(j as int)[0] == xs[j as int]);
        }
        tail = next;
    }
    proof {
        assert(xs.skip(0) =~= xs);
    }
    tail
}

/// What the tokens read so far need is no more than what all of them need.
proof fn lemma_prefix_costs(t: Seq<u8>, ts: Seq<Token>, k: int)
    requires
        0 <= k <= ts.len(),
    ensures
        0 <= bytes_for(t, ts.take(k)) <= bytes_for(t, ts),
        0 <= symbols_in(t, ts.take(k)) <= symbols_in(t, ts),
    decreases ts.len() - k,
{
    if k < ts.len() {
        assert(ts.take(k + 1).drop_last() =~= ts.take(k));
        lemma_prefix_costs(t, ts, k + 1);
        lemma_costs_not_negative(t, ts.take(k));
    } else {
        assert(ts.take(k) =~= ts);
        lemma_costs_not_negative(t, ts);
    }
}

/// Bytes and symbols are counted from zero upwards.
proof fn lemma_costs_not_negative(t: Seq<u8>, ts: Seq<Token>)
    ensures
        0 <= bytes_for(t, ts),
        0 <= symbols_in(t, ts),
    decreases ts.len(),
{
    if ts.len() > 0 {
        lemma_costs_not_negative(t, ts.drop_last());
    }
}

/// Open lists hold no negative number of elements.
proof fn lemma_pending_not_negative(levels: Seq<Seq<Syntax>>)
    ensures
        0 <= pending(levels),
    decreases levels.len(),
{
    if levels.len() > 0 {
        lemma_pending_not_negative(levels.drop_last());
    }
}

/// Allocates the value of the atom from `a` to `b`, interning its name where
/// it is a symbol.
fn make_atom(
    region: &mut Region,
    table: &mut SymbolTable,
    source: &str,
    text: &[u8],
    a: usize,
    b: usize,
) -> (v: Value)
    requires
        old(region).wf(),
        old(table).wf(),
        is_ascii(source),
        text@ == source.spec_bytes(),
        a < b <= text@.len(),
        !(atom_kind(text@, a as int, b as int) is BadNumber),
        old(region).cursor + atom_bytes(atom_kind(text@, a as int, b as int)) <= old(
            region,
        ).capacity,
        atom_kind(text@, a as int, b as int) is Sym ==> old(table)@.len() < u32::MAX,
    ensures
        final(region).wf(),
        final(table).wf(),
        final(region).capacity == old(region).capacity,
        final(region).cursor == old(region).cursor + atom_bytes(
            atom_kind(text@, a as int, b as int),
        ),
        extends(old(region).cells@, final(region).cells@),
        final(region).holds(v),
        final(table)@ == if atom_kind(text@, a as int, b as int) is Sym {
            table_after_intern(old(table)@, source@.subrange(a as int, b as int))
        } else {
            old(table)@
        },
        names_extend(old(table)@, final(table)@),
        final(table)@.len() <= old(table)@.len() + if atom_kind(text@, a as int, b as int) is Sym {
            1int
        } else {
            0int
        },
        reads_as(final(region).cells@, final(table)@, v) is Some,
        proper(reads_as(final(region).cells@, final(table)@, v)->0),
        flatten(reads_as(final(region).cells@, final(table)@, v)->0) == seq![
            word_of(source@, text@, Token::Atom(a, b)),
        ],
{
    proof {
        is_ascii_spec_bytes(source);
    }
    let datum: Datum = match classify(text, a, b) {
        AtomKind::Int(n) => Datum::I64(n),
        AtomKind::Bool(x) => Datum::Bool(x),
        _ => {
            let name: &str = source.substring_ascii(a, b);
            proof {
                lemma_intern_idempotent(table@, name@);
            }
            match table.intern(name) {
                Some(id) => Datum::Symbol(id),
                None => {
                    proof {
                        assert(false);
                    }
                    Datum::Nil
                },
            }
        },
    };
    match region.allocate(datum) {
        Ok(v) => v,
        Err(_) => {
            proof {
                assert(false);
            }
            Value { idx: 0 }
        },
    }
}

/// Builds the expression of `tokens` in the region: each atom becomes a
/// value, and each list, when it closes, the pairs that hold its elements.
fn build(
    region: &mut Region,
    table: &mut SymbolTable,
    source: &str,
    text: &[u8],
    tokens: &Vec<Token>,
) -> (v: Value)
    requires
        old(region).wf(),
        old(table).wf(),
        is_ascii(source),
        text@ == source.spec_bytes(),
        atoms_in_range(text@, tokens@),
        progress(text@, tokens@) is Done,
        old(region).cursor + bytes_for(text@, tokens@) <= old(region).capacity,
        old(table)@.len() + symbols_in(text@, tokens@) <= u32::MAX,
    ensures
        final(region).wf(),
        final(table).wf(),
        final(region).capacity == old(region).capacity,
        final(region).cursor == old(region).cursor + bytes_for(text@, tokens@),
        extends(old(region).cells@, final(region).cells@),
        final(region).holds(v),
        final(table)@ == intern_all(old(table)@, symbol_names(source@, text@, tokens@)),
        reads_as(final(region).cells@, final(table)@, v) is Some,
        proper(reads_as(final(region).cells@, final(table)@, v)->0),
        flatten(reads_as(final(region).cells@, final(table)@, v)->0) == words(
            source@,
            text@,
            tokens@,
        ),
{
    let n: usize = tokens.len();
    let mut levels: Vec<Vec<Value>> = Vec::new();
    let mut result: Option<Value> = None;
    let ghost mut lxs: Seq<Seq<Syntax>> = Seq::empty();
    let ghost mut rx: Syntax = Syntax::Nil;
    let mut k: usize = 0;
    proof {
        assert(tokens@.take(0) =~= Seq::<Token>::empty());
        assert(words(source@, text@, tokens@.take(0)) =~= Seq::<Word>::empty());
    }
    while k < n
        invariant
            n == tokens@.len(),
            k <= n,
            region.wf(),
            table.wf(),
            is_ascii(source),
            text@ == source.spec_bytes(),
            atoms_in_range(text@, tokens@),
            progress(text@, tokens@) is Done,
            old(region).cursor + bytes_for(text@, tokens@) <= old(region).capacity,
            old(table)@.len() + symbols_in(text@, tokens@) <= u32::MAX,
            region.capacity == old(region).capacity,
            extends(old(region).cells@, region.cells@),
            levels_ok(region.cells@, table@, levels@, lxs),
            region.cursor == old(region).cursor + bytes_for(text@, tokens@.take(k as int)) - 24
                * pending(lxs),
            table@ == intern_all(old(table)@, symbol_names(source@, text@, tokens@.take(k as int))),
            table@.len() <= old(table)@.len() + symbols_in(text@, tokens@.take(k as int)),
            match result {
                Some(r) => {
                    &&& levels@.len() == 0
                    &&& progress(text@, tokens@.take(k as int)) is Done
                    &&& region.holds(r)
                    &&& reads_as(region.cells@, table@, r) == Some(rx)
                    &&& proper(rx)
                    &&& flatten(rx) == words(source@, text@, tokens@.take(k as int))
                },
                None => {
                    &&& progress(text@, tokens@.take(k as int)) == if levels@.len() == 0 {
                        Progress::Start
                    } else {
                        Progress::Inside(levels@.len() as int)
                    }
                    &&& assembled(lxs) == words(source@, text@, tokens@.take(k as int))
                },
            },
        decreases n - k,
    {
        let tok: Token = tokens[k];
        let ghost before_words = words(source@, text@, tokens@.take(k as int));
        let ghost word = word_of(source@, text@, tok);
        proof {
            assert(tokens@.take(k + 1).drop_last() =~= tokens@.take(k as int));
            assert(tokens@.take(k + 1).last() == tok);
            assert(words(source@, text@, tokens@.take(k + 1)) =~= before_words.push(word));
            lemma_prefix_costs(text@, tokens@, k + 1);
            lemma_pending_not_negative(lxs);
            if progress(text@, tokens@.take(k + 1)) is Failed {
                lemma_failure_stays(text@, tokens@, k + 1);
            }
        }
        let placed: Option<Value>;
        let ghost px: Syntax;
        match tok {
            Token::Open => {
                let ghost before_levels = levels@;
                levels.push(Vec::new());
                proof {
                    let next = lxs.push(Seq::<Syntax>::empty());
                    assert(next.drop_last() =~= lxs);
                    assert(flat_all(next.last()) =~= Seq::<Word>::empty());
                    assert(assembled(next) =~= assembled(lxs).push(Word::Open));
                    assert forall|j: int| 0 <= j < levels@.len() implies elems_ok(
                        region.cells@,
                        table@,
                        (#[trigger] levels@[j])@,
                        next[j],
                    ) by {
                        if j < lxs.len() {
                            assert(levels@[j] == before_levels[j]);
                        }
                    }
                    lxs = next;
                    px = Syntax::Nil;
                }
                placed = None;
            },
            Token::Atom(a, b) => {
                let ghost cells0 = region.cells@;
                let ghost names0 = table@;
                let ghost syms0 = symbol_names(source@, text@, tokens@.take(k as int));
                let v = make_atom(region, table, source, text, a, b);
                proof {
                    lemma_levels_keep(cells0, names0, region.cells@, table@, levels@, lxs);
                    px = reads_as(region.cells@, table@, v)->0;
                    if atom_kind(text@, a as int, b as int) is Sym {
                        let name = source@.subrange(a as int, b as int);
                        assert(syms0.push(name).drop_last() =~= syms0);
                    }
                }
                placed = Some(v);
            },
            Token::Close => {
                let elems: Vec<Value> = match levels.pop() {
                    Some(e) => e,
                    None => {
                        proof {
                            assert(false);
                        }
                        Vec::new()
                    },
                };
                let ghost xs = lxs.last();
                let ghost rest = lxs.drop_last();
                let ghost cells0 = region.cells@;
                proof {
                    lemma_pending_not_negative(rest);
                    assert(elems_ok(cells0, table@, elems@, xs));
                }
                let v = make_list(region, &elems, Ghost(table@), Ghost(xs));
                proof {
                    assert forall|i: int| 0 <= i < xs.len() implies proper(#[trigger] xs[i]) by {
                        assert(elems@[i].idx < cells0.len());
                    }
                    lemma_items_of_list(xs);
                    assert forall|j: int| 0 <= j < levels@.len() implies elems_ok(
                        cells0,
                        table@,
                        (#[trigger] levels@[j])@,
                        rest[j],
                    ) by {}
                    lemma_levels_keep(cells0, table@, region.cells@, table@, levels@, rest);
                    px = list_of(xs);
                    assert(assembled(lxs).push(Word::Close) =~= assembled(rest) + flatten(px));
                    lxs = rest;
                }
                placed = Some(v);
            },
        }
        match placed {
            Some(v) => {
                let d: usize = levels.len();
                if d == 0 {
                    result = Some(v);
                    proof {
                        rx = px;
                        assert(assembled(lxs) =~= Seq::<Word>::empty());
                        assert(Seq::<Word>::empty() + flatten(px) =~= flatten(px));
                    }
                } else {
                    let ghost before_levels = levels@;
                    levels[d - 1].push(v);
                    proof {
                        lemma_assembled_place(lxs, px);
                        let next = lxs.drop_last().push(lxs.last().push(px));
                        assert forall|j: int| 0 <= j < levels@.len() implies elems_ok(
                            region.cells@,
                            table@,
                            (#[trigger] levels@[j])@,
                            next[j],
                        ) by {
                            if j < d - 1 {
                                assert(levels@[j] == before_levels[j]);
                                assert(elems_ok(region.cells@, table@, before_levels[j]@, lxs[j]));
                            } else {
                                assert(elems_ok(
                                    region.cells@,
                                    table@,
                                    before_levels[d - 1]@,
                                    lxs[d - 1],
                                ));
                            }
                        }
                        lxs = next;
                    }
                }
            },
            None => {},
        }
        k = k + 1;
    }
    proof {
        assert(tokens@.take(n as int) =~= tokens@);
    }
    match result {
        Some(v) => v,
        None => {
            proof {
                assert(false);
            }
            Value { idx: 0 }
        },
    }
}

/// Reads the one expression that `source` holds into the region, interning
/// its symbols in the order in which they occur.
///
/// The value that is returned stands for a well-formed expression whose words
/// are the tokens of the text. In order, fails with `NotAscii`; with `Empty`,
/// `UnexpectedClose`, `Unclosed`, `Trailing` or `BadNumber`, as the tokens
/// decide; with `RegionExhausted` where the region has too few bytes left for
/// the whole expression; and with `SymbolsExhausted` where the table has
/// fewer identifiers left than the text has symbols. Where none of these
/// holds the call succeeds. A failed call changes neither the region nor the
/// table.
pub fn parse(region: &mut Region, table: &mut SymbolTable, source: &str) -> (res: Result<
    Value,
    ParseError,
>)
    requires
        old(region).wf(),
        old(table).wf(),
    ensures
        final(region).wf(),
        final(table).wf(),
        final(region).capacity == old(region).capacity,
        match res {
            Ok(v) => {
                let tokens = lex(source.spec_bytes(), 0);
                &&& is_ascii(source)
                &&& progress(source.spec_bytes(), tokens) is Done
                &&& final(region).cursor == old(region).cursor + bytes_for(
                    source.spec_bytes(),
                    tokens,
                )
                &&& extends(old(region).cells@, final(region).cells@)
                &&& final(region).holds(v)
                &&& final(table)@ == intern_all(
                    old(table)@,
                    symbol_names(source@, source.spec_bytes(), tokens),
                )
                &&& reads_as(final(region).cells@, final(table)@, v) is Some
                &&& proper(reads_as(final(region).cells@, final(table)@, v)->0)
                &&& flatten(reads_as(final(region).cells@, final(table)@, v)->0) == words(
                    source@,
                    source.spec_bytes(),
                    tokens,
                )
            },
            Err(e) => {
                let tokens = lex(source.spec_bytes(), 0);
                let syntax = verdict(progress(source.spec_bytes(), tokens));
                let fits = old(region).cursor + bytes_for(source.spec_bytes(), tokens) <= old(
                    region,
                ).capacity;
                &&& *final(region) == *old(region)
                &&& final(table)@ == old(table)@
                &&& e == ParseError::NotAscii <==> !is_ascii(source)
                &&& is_ascii(source) && syntax is Err ==> syntax == Err::<(), ParseError>(e)
                &&& (e == ParseError::Empty || e == ParseError::UnexpectedClose || e
                    == ParseError::Unclosed || e == ParseError::Trailing || e
                    == ParseError::BadNumber) ==> is_ascii(source) && syntax == Err::<
                    (),
                    ParseError,
                >(e)
                &&& e == ParseError::RegionExhausted <==> is_ascii(source) && syntax is Ok && !fits
                &&& e == ParseError::SymbolsExhausted <==> is_ascii(source) && syntax is Ok && fits
                    && old(table)@.len() + symbols_in(source.spec_bytes(), tokens) > u32::MAX
            },
        },
{
    if !source.is_ascii() {
        return Err(ParseError::NotAscii);
    }
    let text: &[u8] = source.as_bytes();
    let total: usize = text.len();
    let tokens: Vec<Token> = tokenise(text);
    proof {
        lemma_lex_atoms_in_range(text@, 0);
        lemma_failures_of_syntax(text@, tokens@);
    }
    let (bytes, syms) = match check(text, &tokens) {
        Ok(x) => x,
        Err(e) => {
            return Err(e);
        },
    };
    let free: usize = region.capacity - region.cursor;
    if bytes > free as u128 {
        return Err(ParseError::RegionExhausted);
    }
    let left: usize = u32::MAX as usize - table.len();
    if syms > left {
        return Err(ParseError::SymbolsExhausted);
    }
    Ok(build(region, table, source, text, &tokens))
}

/// The tokens decide on three failures only.
proof fn lemma_failures_of_syntax(t: Seq<u8>, ts: Seq<Token>)
    ensures
        progress(t, ts) matches Progress::Failed(e) ==> e == ParseError::UnexpectedClose || e
            == ParseError::Trailing || e == ParseError::BadNumber,
    decreases ts.len(),
{
    if ts.len() > 0 {
        lemma_failures_of_syntax(t, ts.drop_last());
    }
}

/// The words of an expression begin with its own first word, which is never
/// a closing parenthesis, and is an opening one for lists alone.
proof fn lemma_flatten_head(x: Syntax)
    ensures
        flatten(x).len() > 0,
        !(flatten(x)[0] is Close),
        flatten(x)[0] is Open <==> x is Nil || x is Cons,
        x is Int ==> flatten(x) == seq![Word::Int(x->Int_0)],
        x is Bool ==> flatten(x) == seq![Word::Bool(x->Bool_0)],
        x is Sym ==> flatten(x) == seq![Word::Sym(x->Sym_0)],
        x is Nil || x is Cons ==> flatten(x).drop_first() == items(x) + seq![Word::Close],
{
    if x is Nil || x is Cons {
        assert(flatten(x).drop_first() =~= items(x) + seq![Word::Close]);
    }
}

/// The words of a well-formed expression determine it: where the words of
/// two such expressions, each followed by anything, are the same, the
/// expressions are the same, and so is what follows them. A text is therefore
/// read in one way only.
pub proof fn lemma_flatten_unique(x: Syntax, y: Syntax, r: Seq<Word>, s: Seq<Word>)
    requires
        proper(x),
        proper(y),
        flatten(x) + r == flatten(y) + s,
    ensures
        x == y,
        r == s,
    decreases x, 1int,
{
    lemma_flatten_head(x);
    lemma_flatten_head(y);
    let fx = flatten(x);
    let fy = flatten(y);
    assert((fx + r)[0] == fx[0]);
    assert((fy + s)[0] == fy[0]);
    if x is Nil || x is Cons {
        assert((fx + r).drop_first() =~= fx.drop_first() + r);
        assert((fy + s).drop_first() =~= fy.drop_first() + s);
        lemma_items_unique(x, y, r, s);
    } else {
        assert(fx.len() == 1);
        assert(fy.len() == 1);
        assert((fx + r).drop_first() =~= r);
        assert((fy + s).drop_first() =~= s);
    }
}

/// A list is a well-formed expression.
proof fn lemma_list_is_proper(x: Syntax)
    requires
        is_list(x),
    ensures
        proper(x),
        x is Nil || x is Cons,
{
}

/// The words of the elements of a list, with the parenthesis that closes it,
/// determine the list.
pub proof fn lemma_items_unique(x: Syntax, y: Syntax, r: Seq<Word>, s: Seq<Word>)
    requires
        x is Nil || x is Cons,
        y is Nil || y is Cons,
        proper(x),
        proper(y),
        items(x) + seq![Word::Close] + r == items(y) + seq![Word::Close] + s,
    ensures
        x == y,
        r == s,
    decreases x, 0int,
{
    let close = seq![Word::Close];
    let left = items(x) + close + r;
    let right = items(y) + close + s;
    match x {
        Syntax::Cons(a, b) => {
            lemma_flatten_head(*a);
            assert(left[0] == flatten(*a)[0]);
            match y {
                Syntax::Cons(c, d) => {
                    let more_left = items(*b) + close + r;
                    let more_right = items(*d) + close + s;
                    assert(left =~= flatten(*a) + more_left);
                    assert(right =~= flatten(*c) + more_right);
                    lemma_flatten_unique(*a, *c, more_left, more_right);
                    lemma_list_is_proper(*b);
                    lemma_list_is_proper(*d);
                    lemma_items_unique(*b, *d, r, s);
                },
                _ => {
                    assert(right[0] == Word::Close);
                },
            }
        },
        _ => {
            assert(left[0] == Word::Close);
            match y {
                Syntax::Cons(c, d) => {
                    lemma_flatten_head(*c);
                    assert(right[0] == flatten(*c)[0]);
                },
                _ => {
                    assert(left.drop_first() =~= r);
                    assert(right.drop_first() =~= s);
                },
            }
        },
    }
}

} // verus!
