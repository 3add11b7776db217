//! Recursive-descent parser for the pattern language.
//!
//! Grammar (alternation < concatenation < quantification < base):
//!
//! ```text
//! regex  := term '|' regex | term
//! term   := factor term | factor
//! factor := base quantifier?
//! base   := char | '\' esc | '(' regex ')' | '[' class ']'
//! class  := item (item)*
//! item   := char | char '-' char | '\' esc
//! ```
use std::collections::VecDeque;
use vstd::prelude::*;

verus! {

#[derive(Debug, Clone, Copy, PartialEq, Eq, Structural)]
pub enum Quantifier {
    Star,
    Question,
    Plus,
}

#[derive(Debug)]
pub enum Base {
    Character(char),
    EscapeCharacter(char),
    Exp(Box<RegEx>),
    /// The characters of a class, each listed once.
    CharSet(Vec<char>),
}

#[derive(Debug)]
pub enum Factor {
    SimpleFactor(Base, Option<Quantifier>),
}

/// A concatenation. `ConcatTerm(f, t)` is the term `t` followed by the factor `f`.
#[derive(Debug)]
pub enum Term {
    SimpleTerm(Factor),
    ConcatTerm(Factor, Box<Term>),
}

/// An alternation, nested to the right.
#[derive(Debug)]
pub enum RegEx {
    SimpleRegex(Term),
    AlterRegex(Term, Box<RegEx>),
}

#[derive(Debug)]
pub enum RegExError {
    MalformedMicrosyntaxError(String),
    InvalidRegexError(String),
    UnbalancedParenthesisError(String),
    FileOpenError(String),
    FileReadError(String),
    InvalidCharacterRange(char, char),
    InvalidEscapeCharacter(char),
}

// ---------------------------------------------------------------------------
// Mathematical model of syntax trees and errors
// ---------------------------------------------------------------------------

pub enum BaseV {
    Character(char),
    EscapeCharacter(char),
    Exp(Box<RegExV>),
    CharSet(Set<char>),
}

pub enum FactorV {
    SimpleFactor(BaseV, Option<Quantifier>),
}

pub enum TermV {
    SimpleTerm(FactorV),
    ConcatTerm(FactorV, Box<TermV>),
}

pub enum RegExV {
    SimpleRegex(TermV),
    AlterRegex(TermV, Box<RegExV>),
}

pub enum ErrorV {
    Malformed(Seq<char>),
    Invalid(Seq<char>),
    Unbalanced(Seq<char>),
    FileOpen(Seq<char>),
    FileRead(Seq<char>),
    Range(char, char),
    Escape(char),
}

impl Base {
    pub open spec fn view(&self) -> BaseV
        decreases self,
    {
        match self {
            Base::Character(c) => BaseV::Character(*c),
            Base::EscapeCharacter(c) => BaseV::EscapeCharacter(*c),
            Base::Exp(r) => BaseV::Exp(Box::new((**r).view())),
            Base::CharSet(v) => BaseV::CharSet(v@.to_set()),
        }
    }
}

impl Factor {
    pub open spec fn view(&self) -> FactorV
        decreases self,
    {
        match self {
            Factor::SimpleFactor(b, q) => FactorV::SimpleFactor(b.view(), *q),
        }
    }
}

impl Term {
    pub open spec fn view(&self) -> TermV
        decreases self,
    {
        match self {
            Term::SimpleTerm(f) => TermV::SimpleTerm(f.view()),
            Term::ConcatTerm(f, t) => TermV::ConcatTerm(f.view(), Box::new((**t).view())),
        }
    }
}

impl RegEx {
    pub open spec fn view(&self) -> RegExV
        decreases self,
    {
        match self {
            RegEx::SimpleRegex(t) => RegExV::SimpleRegex(t.view()),
            RegEx::AlterRegex(t, r) => RegExV::AlterRegex(t.view(), Box::new((**r).view())),
        }
    }
}

impl Base {
    /// Each class in the base lists every character once.
    pub open spec fn classes_distinct(&self) -> bool
        decreases self,
    {
        match self {
            Base::CharSet(v) => v@.no_duplicates(),
            Base::Exp(r) => (**r).classes_distinct(),
            _ => true,
        }
    }
}

impl Factor {
    pub open spec fn classes_distinct(&self) -> bool
        decreases self,
    {
        match self {
            Factor::SimpleFactor(b, _) => b.classes_distinct(),
        }
    }
}

impl Term {
    pub open spec fn classes_distinct(&self) -> bool
        decreases self,
    {
        match self {
            Term::SimpleTerm(f) => f.classes_distinct(),
            Term::ConcatTerm(f, t) => f.classes_distinct() && (**t).classes_distinct(),
        }
    }
}

impl RegEx {
    /// Each class in the tree lists every character once.
    pub open spec fn classes_distinct(&self) -> bool
        decreases self,
    {
        match self {
            RegEx::SimpleRegex(t) => t.classes_distinct(),
            RegEx::AlterRegex(t, r) => t.classes_distinct() && (**r).classes_distinct(),
        }
    }
}

impl RegExError {
    pub open spec fn view(&self) -> ErrorV {
        match self {
            RegExError::MalformedMicrosyntaxError(s) => ErrorV::Malformed(s@),
            RegExError::InvalidRegexError(s) => ErrorV::Invalid(s@),
            RegExError::UnbalancedParenthesisError(s) => ErrorV::Unbalanced(s@),
            RegExError::FileOpenError(s) => ErrorV::FileOpen(s@),
            RegExError::FileReadError(s) => ErrorV::FileRead(s@),
            RegExError::InvalidCharacterRange(a, b) => ErrorV::Range(*a, *b),
            RegExError::InvalidEscapeCharacter(c) => ErrorV::Escape(*c),
        }
    }
}

// ---------------------------------------------------------------------------
// Character classes of the pattern language
// ---------------------------------------------------------------------------

/// The characters that may follow a backslash.
pub open spec fn spec_is_escape_char(c: char) -> bool {
    c == 'n' || c == 't' || c == 'r' || c == '\\' || c == '(' || c == ')' || c == '['
        || c == ']' || c == '|' || c == '*' || c == '+' || c == '?'
}

/// The characters that cannot begin a base as a literal.
pub open spec fn spec_nchar_is_valid(c: char) -> bool {
    !(c == '*' || c == '|' || c == '?' || c == ')' || c == ']')
}

/// The character that an escape stands for inside a class.
pub open spec fn unescape(c: char) -> char {
    if c == 'n' {
        '\n'
    } else if c == 't' {
        '\t'
    } else if c == 'r' {
        '\r'
    } else {
        c
    }
}

/// The code point of `c`.
pub open spec fn code(c: char) -> u32 {
    c as u32
}

/// The characters from `a` to `b`, both included.
pub open spec fn char_range(a: char, b: char) -> Set<char> {
    Set::new(|c: char| code(a) <= code(c) && code(c) <= code(b))
}

pub fn is_escape_char(escape_ch: char) -> (r: bool)
    ensures
        r == spec_is_escape_char(escape_ch),
{
    match escape_ch {
        'n' | 't' | 'r' | '\\' | '(' | ')' | '[' | ']' | '|' | '*' | '+' | '?' => true,
        _ => false,
    }
}

pub fn nchar_is_valid(nchar: char) -> (r: bool)
    ensures
        r == spec_nchar_is_valid(nchar),
{
    match nchar {
        '*' | '|' | '?' | ')' | ']' => false,
        _ => true,
    }
}

fn unescape_char(c: char) -> (r: char)
    ensures
        r == unescape(c),
{
    if c == 'n' {
        '\n'
    } else if c == 't' {
        '\t'
    } else if c == 'r' {
        '\r'
    } else {
        c
    }
}

/// The characters of `s`, in order.
pub fn chars_of(s: &str) -> (r: Vec<char>)
    ensures
        r@ == s@,
{
    let n = s.unicode_len();
    let mut r: Vec<char> = Vec::new();
    let mut i: usize = 0;
    while i < n
        invariant
            n == s@.len(),
            i <= n,
            r@ == s@.subrange(0, i as int),
        decreases n - i,
    {
        r.push(s.get_char(i));
        i = i + 1;
    }
    assert(r@ =~= s@);
    r
}


// ---------------------------------------------------------------------------
// Bracket balance
// ---------------------------------------------------------------------------

/// Scans `s` from `i` with the open brackets `stack`; a backslash hides the
/// character after it.
pub open spec fn balanced_from(s: Seq<char>, i: int, stack: Seq<char>) -> bool
    decreases rest(s, i),
{
    if i < 0 || i >= s.len() {
        stack.len() == 0
    } else if s[i] == '\\' {
        balanced_from(s, i + 2, stack)
    } else if s[i] == '(' || s[i] == '[' {
        balanced_from(s, i + 1, stack.push(s[i]))
    } else if s[i] == ')' {
        stack.len() > 0 && stack.last() == '(' && balanced_from(s, i + 1, stack.drop_last())
    } else if s[i] == ']' {
        stack.len() > 0 && stack.last() == '[' && balanced_from(s, i + 1, stack.drop_last())
    } else {
        balanced_from(s, i + 1, stack)
    }
}

/// Every `(` and `[` of `s` is closed, in order, by `)` and `]`.
pub open spec fn spec_balanced(s: Seq<char>) -> bool {
    balanced_from(s, 0, Seq::empty())
}

fn balanced_chars(s: &Vec<char>) -> (r: bool)
    ensures
        r == spec_balanced(s@),
{
    let mut stack: Vec<char> = Vec::new();
    let mut i: usize = 0;
    while i < s.len()
        invariant
            balanced_from(s@, i as int, stack@) == spec_balanced(s@),
        decreases s.len() - i,
    {
        let ch = s[i];
        if ch == '\\' {
            if i + 1 >= s.len() {
                assert(balanced_from(s@, i as int, stack@) == balanced_from(s@, i + 2, stack@));
                return stack.len() == 0;
            }
            i = i + 2;
        } else if ch == '(' || ch == '[' {
            stack.push(ch);
            i = i + 1;
        } else if ch == ')' || ch == ']' {
            let want = if ch == ')' {
                '('
            } else {
                '['
            };
            if stack.len() == 0 {
                return false;
            }
            let top = stack.pop().unwrap();
            if top != want {
                return false;
            }
            i = i + 1;
        } else {
            i = i + 1;
        }
    }
    stack.len() == 0
}

pub fn balanced_brackets(regex: &str) -> (r: bool)
    ensures
        r == spec_balanced(regex@),
{
    let s = chars_of(regex);
    balanced_chars(&s)
}

// ---------------------------------------------------------------------------
// The grammar, as the parser reads it
// ---------------------------------------------------------------------------

/// What a production returns: a node and the index after it, or an error.
pub type Parsed<T> = Result<(T, int), ErrorV>;

/// How much of `s` lies at or after `i`.
pub open spec fn rest(s: Seq<char>, i: int) -> nat {
    if i < s.len() {
        (s.len() - i) as nat
    } else {
        0
    }
}

/// The items of a class from `i` up to its `]`, added to `acc`.
pub open spec fn spec_class(s: Seq<char>, i: int, acc: Set<char>) -> Parsed<Set<char>>
    decreases rest(s, i),
{
    if i < 0 || i >= s.len() || s[i] == ']' {
        Ok((acc, i))
    } else if i + 2 < s.len() && s[i + 1] == '-' {
        if code(s[i + 2]) < code(s[i]) {
            Err(ErrorV::Range(s[i], s[i + 2]))
        } else {
            spec_class(s, i + 3, acc.union(char_range(s[i], s[i + 2])))
        }
    } else if s[i] == '\\' {
        if i + 1 >= s.len() {
            Err(ErrorV::Invalid(s))
        } else if !spec_is_escape_char(s[i + 1]) {
            Err(ErrorV::Escape(s[i + 1]))
        } else {
            spec_class(s, i + 2, acc.insert(unescape(s[i + 1])))
        }
    } else {
        spec_class(s, i + 1, acc.insert(s[i]))
    }
}

pub open spec fn spec_base(s: Seq<char>, i: int) -> Parsed<BaseV>
    decreases rest(s, i), 0nat,
{
    if i < 0 || i >= s.len() {
        Err(ErrorV::Invalid(s))
    } else if s[i] == '(' {
        match spec_regex(s, i + 1) {
            Err(e) => Err(e),
            Ok((r, k)) => if 0 <= k < s.len() && s[k] == ')' {
                Ok((BaseV::Exp(Box::new(r)), k + 1))
            } else {
                Err(ErrorV::Invalid(s))
            },
        }
    } else if s[i] == '[' {
        match spec_class(s, i + 1, Set::empty()) {
            Err(e) => Err(e),
            Ok((set, k)) => if 0 <= k < s.len() && s[k] == ']' {
                Ok((BaseV::CharSet(set), k + 1))
            } else {
                Err(ErrorV::Invalid(s))
            },
        }
    } else if s[i] == '\\' {
        if i + 1 >= s.len() {
            Err(ErrorV::Invalid(s))
        } else if !spec_is_escape_char(s[i + 1]) {
            Err(ErrorV::Escape(s[i + 1]))
        } else {
            Ok((BaseV::EscapeCharacter(s[i + 1]), i + 2))
        }
    } else if spec_nchar_is_valid(s[i]) {
        Ok((BaseV::Character(s[i]), i + 1))
    } else {
        Err(ErrorV::Invalid(s))
    }
}

/// The quantifier written at `k`, if any.
pub open spec fn quantifier_at(s: Seq<char>, k: int) -> Option<Quantifier> {
    if 0 <= k < s.len() && s[k] == '*' {
        Some(Quantifier::Star)
    } else if 0 <= k < s.len() && s[k] == '?' {
        Some(Quantifier::Question)
    } else if 0 <= k < s.len() && s[k] == '+' {
        Some(Quantifier::Plus)
    } else {
        None
    }
}

pub open spec fn spec_factor(s: Seq<char>, i: int) -> Parsed<FactorV>
    decreases rest(s, i), 1nat,
{
    match spec_base(s, i) {
        Err(e) => Err(e),
        Ok((b, k)) => {
            let q = quantifier_at(s, k);
            Ok((FactorV::SimpleFactor(b, q), if q is Some { k + 1 } else { k }))
        },
    }
}

/// A term stops at the end of the input, at `|` and at `)`.
pub open spec fn ends_term(s: Seq<char>, j: int) -> bool {
    j < 0 || j >= s.len() || s[j] == '|' || s[j] == ')'
}

/// Appends the factors from `j` on to the term `acc`.
pub open spec fn spec_term_rest(s: Seq<char>, j: int, acc: TermV) -> Parsed<TermV>
    decreases rest(s, j), 2nat,
{
    if ends_term(s, j) {
        Ok((acc, j))
    } else {
        match spec_factor(s, j) {
            Err(e) => Err(e),
            Ok((f, k)) => if k <= j {
                Err(ErrorV::Invalid(s))
            } else {
                spec_term_rest(s, k, TermV::ConcatTerm(f, Box::new(acc)))
            },
        }
    }
}

pub open spec fn spec_term(s: Seq<char>, i: int) -> Parsed<TermV>
    decreases rest(s, i), 3nat,
{
    match spec_factor(s, i) {
        Err(e) => Err(e),
        Ok((f, k)) => if k < i {
            Err(ErrorV::Invalid(s))
        } else {
            spec_term_rest(s, k, TermV::SimpleTerm(f))
        },
    }
}

pub open spec fn spec_regex(s: Seq<char>, i: int) -> Parsed<RegExV>
    decreases rest(s, i), 4nat,
{
    match spec_term(s, i) {
        Err(e) => Err(e),
        Ok((t, k)) => if 0 <= k < s.len() && s[k] == '|' && k >= i {
            match spec_regex(s, k + 1) {
                Err(e) => Err(e),
                Ok((r, k2)) => Ok((RegExV::AlterRegex(t, Box::new(r)), k2)),
            }
        } else {
            Ok((RegExV::SimpleRegex(t), k))
        },
    }
}

/// The whole parse of `s` from `i`: the balance pre-pass, which alone raises
/// `Unbalanced`, then the grammar. A parse that stops before the end of the
/// input (at a `)` that closes no group) is an invalid pattern.
pub open spec fn spec_parse(s: Seq<char>, i: int) -> Parsed<RegExV> {
    if !spec_balanced(s) {
        Err(ErrorV::Unbalanced(s))
    } else if s.len() == 0 {
        Err(ErrorV::Invalid(s))
    } else {
        match spec_regex(s, i) {
            Err(e) => Err(e),
            Ok((r, k)) => if k == s.len() {
                Ok((r, k))
            } else {
                Err(ErrorV::Invalid(s))
            },
        }
    }
}

// ---------------------------------------------------------------------------
// The parser
// ---------------------------------------------------------------------------

/// Relies on `char::from_u32`: it returns the one character whose code is `x`,
/// and `None` where no character has that code.
#[verifier::external_body]
fn char_from_code(x: u32) -> (r: Option<char>)
    ensures
        match r {
            Some(c) => code(c) == x && forall|d: char| #[trigger] code(d) == x ==> d == c,
            None => forall|c: char| #[trigger] code(c) != x,
        },
{
    char::from_u32(x)
}

fn invalid_regex(pat: &str) -> (e: RegExError)
    ensures
        e.view() == ErrorV::Invalid(pat@),
{
    RegExError::InvalidRegexError(pat.to_owned())
}

fn unbalanced(pat: &str) -> (e: RegExError)
    ensures
        e.view() == ErrorV::Unbalanced(pat@),
{
    RegExError::UnbalancedParenthesisError(pat.to_owned())
}

/// Adds `c` to the character list `set`, unless it is there already.
fn insert_unique(set: &mut Vec<char>, c: char)
    requires
        old(set)@.no_duplicates(),
    ensures
        final(set)@.no_duplicates(),
        final(set)@.to_set() == old(set)@.to_set().insert(c),
{
    let mut j: usize = 0;
    while j < set.len()
        invariant
            j <= set@.len(),
            set@ == old(set)@,
            old(set)@.no_duplicates(),
            forall|k: int| 0 <= k < j ==> set@[k] != c,
        decreases set.len() - j,
    {
        if set[j] == c {
            assert(set@.to_set().insert(c) =~= set@.to_set());
            assert(set@.no_duplicates());
            return;
        }
        j = j + 1;
    }
    let ghost before = set@;
    set.push(c);
    assert(set@.to_set() =~= before.to_set().insert(c)) by {
        assert forall|x: char| set@.contains(x) implies #[trigger] before.contains(x) || x == c by {
            let k = choose|k: int| 0 <= k < set@.len() && set@[k] == x;
            if k < before.len() {
                assert(before[k] == x);
            }
        }
        assert forall|x: char| before.contains(x) implies #[trigger] set@.contains(x) by {
            let k = choose|k: int| 0 <= k < before.len() && before[k] == x;
            assert(set@[k] == x);
        }
        assert(set@[before.len() as int] == c);
    }
}

/// Adds the characters from `a` to `b` to the character list `set`.
fn insert_range(set: &mut Vec<char>, a: char, b: char)
    requires
        old(set)@.no_duplicates(),
        (a as u32) <= (b as u32),
    ensures
        final(set)@.no_duplicates(),
        final(set)@.to_set() == old(set)@.to_set().union(char_range(a, b)),
{
    let hi: u64 = b as u32 as u64;
    let mut x: u64 = a as u32 as u64;
    while x <= hi
        invariant
            a as u32 <= x <= hi + 1,
            hi == b as u32,
            set@.no_duplicates(),
            set@.to_set() == old(set)@.to_set().union(
                Set::new(|c: char| code(a) <= code(c) && code(c) < x),
            ),
        decreases hi + 1 - x,
    {
        let ghost below = Set::new(|c: char| code(a) <= code(c) && code(c) < x);
        let ghost next = Set::new(|c: char| code(a) <= code(c) && code(c) < x + 1);
        match char_from_code(x as u32) {
            Some(c) => {
                insert_unique(set, c);
                assert(next =~= below.insert(c));
            },
            None => {
                assert(next =~= below);
            },
        }
        x = x + 1;
    }
    assert(Set::new(|c: char| code(a) <= code(c) && code(c) < x) =~= char_range(a, b));
}

fn parse_char_class(s: &Vec<char>, pat: &str, start: usize) -> (r: Result<
    (Vec<char>, usize),
    RegExError,
>)
    requires
        s@ == pat@,
        start <= s@.len(),
    ensures
        match r {
            Ok((set, k)) => {
                &&& spec_class(s@, start as int, Set::empty()) == Parsed::<Set<char>>::Ok(
                    (set@.to_set(), k as int),
                )
                &&& set@.no_duplicates()
                &&& start <= k <= s@.len()
            },
            Err(e) => spec_class(s@, start as int, Set::empty()) == Parsed::<Set<char>>::Err(
                e.view(),
            ),
        },
        r is Err ==> !(r->Err_0.view() is Unbalanced),
{
    let mut i: usize = start;
    let mut set: Vec<char> = Vec::new();
    assert(set@.to_set() =~= Set::empty());
    while i < s.len() && s[i] != ']'
        invariant
            start <= i <= s@.len(),
            s@ == pat@,
            set@.no_duplicates(),
            spec_class(s@, i as int, set@.to_set()) == spec_class(s@, start as int, Set::empty()),
        decreases s.len() - i,
    {
        if s.len() - i > 2 && s[i + 1] == '-' {
            let a = s[i];
            let b = s[i + 2];
            if (b as u32) < (a as u32) {
                return Err(RegExError::InvalidCharacterRange(a, b));
            }
            insert_range(&mut set, a, b);
            i = i + 3;
        } else if s[i] == '\\' {
            if i + 1 >= s.len() {
                return Err(invalid_regex(pat));
            }
            let e = s[i + 1];
            if !is_escape_char(e) {
                return Err(RegExError::InvalidEscapeCharacter(e));
            }
            insert_unique(&mut set, unescape_char(e));
            i = i + 2;
        } else {
            insert_unique(&mut set, s[i]);
            i = i + 1;
        }
    }
    Ok((set, i))
}

/// The base that is the literal character `c`.
fn literal_base(c: char) -> (b: Base)
    ensures
        b.view() == BaseV::Character(c),
{
    Base::Character(c)
}

fn parse_base(s: &Vec<char>, pat: &str, start: usize) -> (r: Result<(Base, usize), RegExError>)
    requires
        s@ == pat@,
    ensures
        match r {
            Ok((b, k)) => {
                &&& spec_base(s@, start as int) == Parsed::<BaseV>::Ok((b.view(), k as int))
                &&& start < k <= s@.len()
            },
            Err(e) => spec_base(s@, start as int) == Parsed::<BaseV>::Err(e.view()),
        },
        r is Err ==> !(r->Err_0.view() is Unbalanced),
        r is Ok ==> r->Ok_0.0.classes_distinct(),
    decreases rest(s@, start as int), 0nat,
{
    if start >= s.len() {
        return Err(invalid_regex(pat));
    }
    let nchar = s[start];
    if nchar == '(' {
        match parse_regex_at(s, pat, start + 1) {
            Err(e) => Err(e),
            Ok((inner, k)) => {
                if k < s.len() && s[k] == ')' {
                    let b = Base::Exp(Box::new(inner));
                    Ok((b, k + 1))
                } else {
                    Err(invalid_regex(pat))
                }
            },
        }
    } else if nchar == '[' {
        match parse_char_class(s, pat, start + 1) {
            Err(e) => Err(e),
            Ok((set, k)) => {
                if k < s.len() && s[k] == ']' {
                    let b = Base::CharSet(set);
                    Ok((b, k + 1))
                } else {
                    Err(invalid_regex(pat))
                }
            },
        }
    } else if nchar == '\\' {
        if start + 1 >= s.len() {
            return Err(invalid_regex(pat));
        }
        let e = s[start + 1];
        if !is_escape_char(e) {
            return Err(RegExError::InvalidEscapeCharacter(e));
        }
        let b = Base::EscapeCharacter(e);
        Ok((b, start + 2))
    } else if nchar_is_valid(nchar) {
        let b = literal_base(nchar);
        Ok((b, start + 1))
    } else {
        Err(invalid_regex(pat))
    }
}

fn parse_factor(s: &Vec<char>, pat: &str, start: usize) -> (r: Result<(Factor, usize), RegExError>)
    requires
        s@ == pat@,
    ensures
        match r {
            Ok((f, k)) => {
                &&& spec_factor(s@, start as int) == Parsed::<FactorV>::Ok((f.view(), k as int))
                &&& start < k <= s@.len()
            },
            Err(e) => spec_factor(s@, start as int) == Parsed::<FactorV>::Err(e.view()),
        },
        r is Err ==> !(r->Err_0.view() is Unbalanced),
        r is Ok ==> r->Ok_0.0.classes_distinct(),
    decreases rest(s@, start as int), 1nat,
{
    match parse_base(s, pat, start) {
        Err(e) => Err(e),
        Ok((base, k)) => {
            let quantifier = if k >= s.len() {
                None
            } else if s[k] == '*' {
                Some(Quantifier::Star)
            } else if s[k] == '?' {
                Some(Quantifier::Question)
            } else if s[k] == '+' {
                Some(Quantifier::Plus)
            } else {
                None
            };
            let next = if quantifier.is_some() {
                k + 1
            } else {
                k
            };
            Ok((Factor::SimpleFactor(base, quantifier), next))
        },
    }
}

fn parse_term(s: &Vec<char>, pat: &str, start: usize) -> (r: Result<(Term, usize), RegExError>)
    requires
        s@ == pat@,
    ensures
        match r {
            Ok((t, k)) => {
                &&& spec_term(s@, start as int) == Parsed::<TermV>::Ok((t.view(), k as int))
                &&& start < k <= s@.len()
            },
            Err(e) => spec_term(s@, start as int) == Parsed::<TermV>::Err(e.view()),
        },
        r is Err ==> !(r->Err_0.view() is Unbalanced),
        r is Ok ==> r->Ok_0.0.classes_distinct(),
    decreases rest(s@, start as int), 3nat,
{
    let (factor, k) = match parse_factor(s, pat, start) {
        Err(e) => return Err(e),
        Ok(p) => p,
    };
    let mut term = Term::SimpleTerm(factor);
    let mut j: usize = k;
    while j < s.len() && s[j] != '|' && s[j] != ')'
        invariant
            start < j <= s@.len(),
            s@ == pat@,
            spec_term_rest(s@, j as int, term.view()) == spec_term(s@, start as int),
            term.classes_distinct(),
        decreases s.len() - j,
    {
        match parse_factor(s, pat, j) {
            Err(e) => return Err(e),
            Ok((next, k2)) => {
                term = Term::ConcatTerm(next, Box::new(term));
                j = k2;
            },
        }
    }
    Ok((term, j))
}

fn parse_regex_at(s: &Vec<char>, pat: &str, start: usize) -> (r: Result<(RegEx, usize), RegExError>)
    requires
        s@ == pat@,
    ensures
        match r {
            Ok((t, k)) => {
                &&& spec_regex(s@, start as int) == Parsed::<RegExV>::Ok((t.view(), k as int))
                &&& start < k <= s@.len()
            },
            Err(e) => spec_regex(s@, start as int) == Parsed::<RegExV>::Err(e.view()),
        },
        r is Err ==> !(r->Err_0.view() is Unbalanced),
        r is Ok ==> r->Ok_0.0.classes_distinct(),
    decreases rest(s@, start as int), 4nat,
{
    match parse_term(s, pat, start) {
        Err(e) => Err(e),
        Ok((term, k)) => {
            if k < s.len() && s[k] == '|' {
                match parse_regex_at(s, pat, k + 1) {
                    Err(e) => Err(e),
                    Ok((tail, k2)) => Ok((RegEx::AlterRegex(term, Box::new(tail)), k2)),
                }
            } else {
                Ok((RegEx::SimpleRegex(term), k))
            }
        },
    }
}

/// Parses `regex` from the index `start` to its end.
pub fn parse_regex(regex: &str, start: usize) -> (r: Result<(RegEx, usize), RegExError>)
    ensures
        match r {
            Ok((t, k)) => spec_parse(regex@, start as int) == Parsed::<RegExV>::Ok(
                (t.view(), k as int),
            ),
            Err(e) => spec_parse(regex@, start as int) == Parsed::<RegExV>::Err(e.view()),
        },
        r is Ok ==> r->Ok_0.1 == regex@.len(),
        (r is Err && r->Err_0.view() is Unbalanced) <==> !spec_balanced(regex@),
        r is Err && r->Err_0.view() is Unbalanced ==> r->Err_0.view() == ErrorV::Unbalanced(regex@),
        r is Ok ==> r->Ok_0.0.classes_distinct(),
{
    let s = chars_of(regex);
    if !balanced_chars(&s) {
        return Err(unbalanced(regex));
    }
    if s.len() == 0 {
        return Err(invalid_regex(regex));
    }
    match parse_regex_at(&s, regex, start) {
        Err(e) => Err(e),
        Ok((tree, k)) => {
            if k == s.len() {
                Ok((tree, k))
            } else {
                Err(invalid_regex(regex))
            }
        },
    }
}

/// The syntax tree of a whole pattern.
pub fn build_syntax_tree(regex: &str) -> (r: Result<RegEx, RegExError>)
    ensures
        match r {
            Ok(t) => parses_to(regex@, t.view()),
            Err(e) => spec_parse(regex@, 0) == Parsed::<RegExV>::Err(e.view()),
        },
        r is Ok ==> r->Ok_0.classes_distinct(),
{
    match parse_regex(regex, 0) {
        Ok((tree, _)) => Ok(tree),
        Err(e) => Err(e),
    }
}

/// The pattern parses to a tree whose model is `t`.
pub open spec fn parses_to(pattern: Seq<char>, t: RegExV) -> bool {
    exists|k: int| spec_parse(pattern, 0) == Parsed::<RegExV>::Ok((t, k))
}

/// Parses each (pattern, category) entry in order; stops at the first pattern
/// that does not parse and returns its error.
pub fn parse_microsyntax_list(regex_list: Vec<(String, String)>) -> (r: Result<
    VecDeque<(String, RegEx, String)>,
    RegExError,
>)
    ensures
        match r {
            Ok(out) => {
                &&& out@.len() == regex_list@.len()
                &&& forall|i: int|
                    0 <= i < out@.len() ==> {
                        &&& (#[trigger] out@[i]).0@ == regex_list@[i].0@
                        &&& out@[i].2@ == regex_list@[i].1@
                        &&& parses_to(regex_list@[i].0@, out@[i].1.view())
                    }
            },
            Err(e) => exists|j: int|
                0 <= j < regex_list@.len() && (forall|i: int|
                    0 <= i < j ==> !(#[trigger] spec_parse(regex_list@[i].0@, 0) is Err))
                    && spec_parse(regex_list@[j].0@, 0) == Parsed::<RegExV>::Err(e.view()),
        },
{
    let mut out: VecDeque<(String, RegEx, String)> = VecDeque::new();
    let mut i: usize = 0;
    while i < regex_list.len()
        invariant
            i <= regex_list@.len(),
            out@.len() == i,
            forall|j: int|
                0 <= j < i ==> {
                    &&& (#[trigger] out@[j]).0@ == regex_list@[j].0@
                    &&& out@[j].2@ == regex_list@[j].1@
                    &&& parses_to(regex_list@[j].0@, out@[j].1.view())
                },
        decreases regex_list.len() - i,
    {
        let pattern = regex_list[i].0.clone();
        let category = regex_list[i].1.clone();
        match build_syntax_tree(pattern.as_str()) {
            Err(e) => {
                assert forall|j: int| 0 <= j < i implies !(#[trigger] spec_parse(
                    regex_list@[j].0@,
                    0,
                ) is Err) by {
                    assert(parses_to(regex_list@[j].0@, out@[j].1.view()));
                }
                return Err(e);
            },
            Ok(tree) => {
                let ghost before = out@;
                out.push_back((pattern, tree, category));
                assert forall|j: int| 0 <= j < i + 1 implies {
                    &&& (#[trigger] out@[j]).0@ == regex_list@[j].0@
                    &&& out@[j].2@ == regex_list@[j].1@
                    &&& parses_to(regex_list@[j].0@, out@[j].1.view())
                } by {
                    if j < i {
                        assert(out@[j] == before[j]);
                    }
                }
            },
        }
        i = i + 1;
    }
    Ok(out)
}

// ---------------------------------------------------------------------------
// Microsyntax definition lines
// ---------------------------------------------------------------------------

/// A `::` separator starts at `i`.
pub open spec fn is_sep_at(s: Seq<char>, i: int) -> bool {
    0 <= i && i + 1 < s.len() && s[i] == ':' && s[i + 1] == ':'
}

/// The first separator at or after `i`, or -1 if there is none.
pub open spec fn first_sep_from(s: Seq<char>, i: int) -> int
    decreases rest(s, i),
{
    if i < 0 || i + 1 >= s.len() {
        -1
    } else if is_sep_at(s, i) {
        i
    } else {
        first_sep_from(s, i + 1)
    }
}

/// `s` with each `\:\:` read left to right replaced by `::`.
pub open spec fn unescape_colons(s: Seq<char>) -> Seq<char>
    decreases s.len(),
{
    if s.len() >= 4 && s[0] == '\\' && s[1] == ':' && s[2] == '\\' && s[3] == ':' {
        seq![':', ':'] + unescape_colons(s.skip(4))
    } else if s.len() == 0 {
        s
    } else {
        seq![s[0]] + unescape_colons(s.skip(1))
    }
}

/// A definition line `LHS::RHS`: exactly one separator, the escaped colons of
/// the left side unescaped. Otherwise the line is malformed, and the error
/// holds the text before the first separator.
pub open spec fn spec_microsyntax_line(s: Seq<char>) -> Result<(Seq<char>, Seq<char>), ErrorV> {
    let f = first_sep_from(s, 0);
    if f < 0 {
        Err(ErrorV::Malformed(s))
    } else if first_sep_from(s, f + 2) >= 0 {
        Err(ErrorV::Malformed(s.subrange(0, f)))
    } else {
        Ok((unescape_colons(s.subrange(0, f)), s.subrange(f + 2, s.len() as int)))
    }
}

fn find_sep(s: &Vec<char>, from: usize) -> (r: Option<usize>)
    requires
        from <= s@.len(),
    ensures
        match r {
            Some(j) => j as int == first_sep_from(s@, from as int) && j + 1 < s@.len(),
            None => first_sep_from(s@, from as int) == -1,
        },
{
    let mut i: usize = from;
    while s.len() - i > 1
        invariant
            from <= i <= s@.len(),
            first_sep_from(s@, i as int) == first_sep_from(s@, from as int),
        decreases s.len() - i,
    {
        if s[i] == ':' && s[i + 1] == ':' {
            return Some(i);
        }
        i = i + 1;
    }
    None
}

/// Splits a definition line into its pattern and its category.
pub fn parse_microsyntax_line(line: &str) -> (r: Result<(String, String), RegExError>)
    ensures
        match r {
            Ok((lhs, rhs)) => spec_microsyntax_line(line@) == Ok::<(Seq<char>, Seq<char>), ErrorV>(
                (lhs@, rhs@),
            ),
            Err(e) => spec_microsyntax_line(line@) == Err::<(Seq<char>, Seq<char>), ErrorV>(e.view()),
        },
{
    let s = chars_of(line);
    let n = s.len();
    let f = match find_sep(&s, 0) {
        None => return Err(RegExError::MalformedMicrosyntaxError(line.to_owned())),
        Some(f) => f,
    };
    let head = line.substring_char(0, f);
    if find_sep(&s, f + 2).is_some() {
        return Err(RegExError::MalformedMicrosyntaxError(head.to_owned()));
    }
    let rhs = line.substring_char(f + 2, n).to_owned();
    let mut lhs = String::new();
    let mut i: usize = 0;
    while i < f
        invariant
            s@ == line@,
            f < s@.len(),
            i <= f,
            lhs@ + unescape_colons(s@.subrange(i as int, f as int)) == unescape_colons(
                s@.subrange(0, f as int),
            ),
        decreases f - i,
    {
        let ghost tail = s@.subrange(i as int, f as int);
        let ghost before = lhs@;
        if f - i >= 4 && s[i] == '\\' && s[i + 1] == ':' && s[i + 2] == '\\' && s[i + 3] == ':' {
            assert(tail.skip(4) =~= s@.subrange(i + 4, f as int));
            proof {
                reveal_strlit("::");
            }
            assert("::"@.len() == 2);
            assert("::"@ =~= seq![':', ':']);
            assert(unescape_colons(tail) == seq![':', ':'] + unescape_colons(tail.skip(4)));
            lhs.append("::");
            assert(lhs@ + unescape_colons(tail.skip(4)) =~= before + unescape_colons(tail));
            i = i + 4;
        } else {
            assert(tail.skip(1) =~= s@.subrange(i + 1, f as int));
            assert(unescape_colons(tail) == seq![tail[0]] + unescape_colons(tail.skip(1)));
            let one = line.substring_char(i, i + 1);
            assert(one@ =~= seq![tail[0]]);
            lhs.append(one);
            assert(lhs@ + unescape_colons(tail.skip(1)) =~= before + unescape_colons(tail));
            i = i + 1;
        }
    }
    assert(s@.subrange(f as int, f as int) =~= Seq::<char>::empty());
    assert(lhs@ + Seq::<char>::empty() =~= lhs@);
    Ok((lhs, rhs))
}

// ---------------------------------------------------------------------------
// Error messages
// ---------------------------------------------------------------------------

/// The text of an error, as a user reads it.
pub open spec fn message_of(e: ErrorV) -> Seq<char> {
    match e {
        ErrorV::Unbalanced(p) => "Error: "@ + p + " has unbalanced parenthesis!"@,
        ErrorV::Invalid(p) => "Error: Invalid regex provided: "@ + p,
        ErrorV::Malformed(p) => "Error: Malformed microsyntax entry detected: "@ + p,
        ErrorV::FileOpen(m) => m,
        ErrorV::FileRead(m) => m,
        ErrorV::Range(a, b) => "Error: Invalid character range provided: "@ + seq![a] + " - "@ + seq![b],
        ErrorV::Escape(c) => "Error: Invalid escape character "@ + seq![c] + "  provided!"@,
    }
}

/// Relies on `char::to_string`: the string of the one character `c`.
#[verifier::external_body]
fn char_text(c: char) -> (r: String)
    ensures
        r@ == seq![c],
{
    c.to_string()
}

impl RegExError {
    /// The text of the error, as a user reads it.
    pub fn message(&self) -> (r: String)
        ensures
            r@ == message_of(self.view()),
    {
        match self {
            RegExError::UnbalancedParenthesisError(regex) => {
                let mut m = String::from_str("Error: ");
                m.append(regex.as_str());
                m.append(" has unbalanced parenthesis!");
                m
            },
            RegExError::InvalidRegexError(regex) => {
                let mut m = String::from_str("Error: Invalid regex provided: ");
                m.append(regex.as_str());
                m
            },
            RegExError::MalformedMicrosyntaxError(regex) => {
                let mut m = String::from_str("Error: Malformed microsyntax entry detected: ");
                m.append(regex.as_str());
                m
            },
            RegExError::FileOpenError(err_line) => err_line.clone(),
            RegExError::FileReadError(err_line) => err_line.clone(),
            RegExError::InvalidCharacterRange(start, end) => {
                let mut m = String::from_str("Error: Invalid character range provided: ");
                m.append(char_text(*start).as_str());
                m.append(" - ");
                m.append(char_text(*end).as_str());
                m
            },
            RegExError::InvalidEscapeCharacter(ch) => {
                let mut m = String::from_str("Error: Invalid escape character ");
                m.append(char_text(*ch).as_str());
                m.append("  provided!");
                m
            },
        }
    }
}

} // verus!
