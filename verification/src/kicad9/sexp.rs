//! Minimal s-expression reader for KiCad `.kicad_mod` files.
//!
//! The grammar is given by the spec functions `spec_parse_sexp`, `spec_parse_list`,
//! `spec_list_items`, `spec_parse_quoted`, `spec_parse_number` and `spec_parse_atom` over the
//! characters of the input; `parse` is proved to produce exactly what they describe, errors and
//! their byte offsets included.

use vstd::prelude::*;
use crate::kicad9::error::Error;
use crate::text::{byte_len, char_is_alphanumeric, char_is_whitespace, chars_of, is_alphanumeric_char, is_ascii_digit, is_digit, is_whitespace_char, lemma_byte_len_prefix, lemma_byte_len_push, push_char, str_eq, utf8_width, utf8_width_of};

verus! {

/// S-expression node: list or atom.
#[derive(Debug)]
pub enum Sexp {
    List(String, Vec<Sexp>),
    Atom(String),
}

/// Mathematical form of an s-expression.
pub enum SexpV {
    List(Seq<char>, Seq<SexpV>),
    Atom(Seq<char>),
}

impl Sexp {
    pub open spec fn model(self) -> SexpV
        decreases self,
    {
        match self {
            Sexp::Atom(s) => SexpV::Atom(s@),
            Sexp::List(n, rest) => SexpV::List(n@, Sexp::models(rest@)),
        }
    }

    pub open spec fn models(s: Seq<Sexp>) -> Seq<SexpV>
        decreases s,
    {
        if s.len() == 0 {
            seq![]
        } else {
            Sexp::models(s.drop_last()).push(s.last().model())
        }
    }
}


/// `e` is a list named `name`.
pub open spec fn has_name(e: Sexp, name: Seq<char>) -> bool {
    match e {
        Sexp::List(n, _) => n@ == name,
        Sexp::Atom(_) => false,
    }
}

/// The elements of `s` that are lists named `name`, in order.
pub open spec fn named(s: Seq<Sexp>, name: Seq<char>) -> Seq<Sexp>
    decreases s.len(),
{
    if s.len() == 0 {
        seq![]
    } else if has_name(s.last(), name) {
        named(s.drop_last(), name).push(s.last())
    } else {
        named(s.drop_last(), name)
    }
}

/// Index of the first element of `s` that is a list named `name`.
pub open spec fn is_first_named(s: Seq<Sexp>, name: Seq<char>, i: int) -> bool {
    &&& 0 <= i < s.len()
    &&& has_name(s[i], name)
    &&& forall|j: int| 0 <= j < i ==> !has_name(#[trigger] s[j], name)
}

/// The first element of `s` that is a list named `name`.
pub open spec fn first_named(s: Seq<Sexp>, name: Seq<char>) -> Option<Sexp> {
    if exists|i: int| #[trigger] is_first_named(s, name, i) {
        Some(s[choose|i: int| #[trigger] is_first_named(s, name, i)])
    } else {
        None
    }
}

/// The first child of a list named `name`; nothing for an atom.
pub open spec fn child_named(e: Sexp, name: Seq<char>) -> Option<Sexp> {
    match e {
        Sexp::List(_, rest) => first_named(rest@, name),
        Sexp::Atom(_) => None,
    }
}

proof fn lemma_named_filter(s: Seq<Sexp>, name: Seq<char>)
    ensures
        named(s, name) == s.filter(|x: Sexp| has_name(x, name)),
    decreases s.len(),
{
    reveal(Seq::filter);
    if s.len() > 0 {
        lemma_named_filter(s.drop_last(), name);
    }
}

proof fn lemma_named_empty(s: Seq<Sexp>, name: Seq<char>)
    ensures
        named(s, name).len() == 0 <==> forall|j: int| 0 <= j < s.len() ==> !has_name(#[trigger] s[j], name),
    decreases s.len(),
{
    if s.len() > 0 {
        let d = s.drop_last();
        lemma_named_empty(d, name);
        if named(s, name).len() == 0 {
            assert forall|j: int| 0 <= j < s.len() implies !has_name(#[trigger] s[j], name) by {
                if j < d.len() {
                    assert(s[j] == d[j]);
                }
            }
        }
        if forall|j: int| 0 <= j < s.len() ==> !has_name(#[trigger] s[j], name) {
            assert(!has_name(s[s.len() - 1], name));
            assert forall|j: int| 0 <= j < d.len() implies !has_name(#[trigger] d[j], name) by {
                assert(s[j] == d[j]);
            }
        }
    }
}

proof fn lemma_first_named_unique(s: Seq<Sexp>, name: Seq<char>, i: int)
    requires
        is_first_named(s, name, i),
    ensures
        first_named(s, name) == Some(s[i]),
{
    let c = choose|c: int| #[trigger] is_first_named(s, name, c);
    if c < i {
        assert(!has_name(s[c], name));
    } else if c > i {
        assert(!has_name(s[i], name));
    }
}

proof fn lemma_first_named_first(s: Seq<Sexp>, name: Seq<char>)
    ensures
        first_named(s, name) == (if named(s, name).len() > 0 {
            Some(named(s, name)[0])
        } else {
            None::<Sexp>
        }),
        named(s, name).len() > 0 ==> exists|i: int| #[trigger] is_first_named(s, name, i) && s[i] == named(s, name)[0],
    decreases s.len(),
{
    lemma_named_empty(s, name);
    if s.len() > 0 {
        let d = s.drop_last();
        lemma_first_named_first(d, name);
        lemma_named_empty(d, name);
        if named(d, name).len() > 0 {
            let i = choose|i: int| #[trigger] is_first_named(d, name, i) && d[i] == named(d, name)[0];
            assert forall|j: int| 0 <= j < i implies !has_name(#[trigger] s[j], name) by {
                assert(s[j] == d[j]);
                assert(!has_name(d[j], name));
            }
            assert(s[i] == d[i]);
            assert(is_first_named(s, name, i));
            assert(named(s, name)[0] == named(d, name)[0]);
            lemma_first_named_unique(s, name, i);
        } else if has_name(s.last(), name) {
            let i = s.len() - 1;
            assert forall|j: int| 0 <= j < i implies !has_name(#[trigger] s[j], name) by {
                assert(s[j] == d[j]);
            }
            assert(is_first_named(s, name, i));
            assert(named(s, name)[0] == s.last());
            lemma_first_named_unique(s, name, i);
        }
    }
    if named(s, name).len() == 0 {
        assert(!exists|i: int| #[trigger] is_first_named(s, name, i));
    }
}

/// `find` gives the first of what `find_all` gives: the children that are lists named `name`,
/// in order, are what filtering the children by that name keeps, and the first child named
/// `name`, if any, is the first of them.
pub proof fn lemma_find_first_of_find_all(e: Sexp, name: Seq<char>)
    ensures
        match e {
            Sexp::List(_, rest) => {
                &&& named(rest@, name) == rest@.filter(|x: Sexp| has_name(x, name))
                &&& child_named(e, name) == (if named(rest@, name).len() > 0 {
                    Some(named(rest@, name)[0])
                } else {
                    None::<Sexp>
                })
            },
            Sexp::Atom(_) => child_named(e, name) is None,
        },
{
    match e {
        Sexp::List(_, rest) => {
            lemma_named_filter(rest@, name);
            lemma_first_named_first(rest@, name);
        },
        Sexp::Atom(_) => {},
    }
}

impl Sexp {
    pub fn list_name(&self) -> (r: Option<&str>)
        ensures
            match self {
                Sexp::List(n, _) => r matches Some(x) && x@ == n@,
                Sexp::Atom(_) => r is None,
            },
    {
        match self {
            Sexp::List(name, _) => Some(name.as_str()),
            Sexp::Atom(_) => None,
        }
    }

    pub fn list_rest(&self) -> (r: Option<&[Sexp]>)
        ensures
            match self {
                Sexp::List(_, rest) => r matches Some(x) && x@ == rest@,
                Sexp::Atom(_) => r is None,
            },
    {
        match self {
            Sexp::List(_, rest) => Some(rest.as_slice()),
            Sexp::Atom(_) => None,
        }
    }

    /// First child that is a list named `name`.
    pub fn find(&self, name: &str) -> (r: Option<&Sexp>)
        ensures
            match self {
                Sexp::List(_, rest) => match r {
                    Some(e) => exists|i: int| #[trigger] is_first_named(rest@, name@, i) && rest@[i] == *e,
                    None => forall|i: int| 0 <= i < rest@.len() ==> !has_name(#[trigger] rest@[i], name@),
                },
                Sexp::Atom(_) => r is None,
            },
            match r {
                Some(e) => child_named(*self, name@) == Some(*e),
                None => child_named(*self, name@) is None,
            },
    {
        match self {
            Sexp::List(_, rest) => {
                let mut i: usize = 0;
                while i < rest.len()
                    invariant
                        i <= rest@.len(),
                        self matches Sexp::List(_, r2) && r2@ == rest@,
                        forall|j: int| 0 <= j < i ==> !has_name(#[trigger] rest@[j], name@),
                    decreases rest.len() - i,
                {
                    let e = &rest[i];
                    match e {
                        Sexp::List(n, _) => {
                            if str_eq(n.as_str(), name) {
                                assert(is_first_named(rest@, name@, i as int));
                                proof {
                                    let c = choose|c: int| #[trigger] is_first_named(rest@, name@, c);
                                    if c < i {
                                        assert(!has_name(rest@[c], name@));
                                    } else if c > i {
                                        assert(!has_name(rest@[i as int], name@));
                                    }
                                }
                                return Some(e);
                            }
                        },
                        Sexp::Atom(_) => {},
                    }
                    i = i + 1;
                }
                assert(!exists|c: int| #[trigger] is_first_named(rest@, name@, c));
                None
            },
            Sexp::Atom(_) => None,
        }
    }

    /// All children that are lists named `name`, in order.
    pub fn find_all(&self, name: &str) -> (r: Vec<&Sexp>)
        ensures
            match self {
                Sexp::List(_, rest) => r@.len() == named(rest@, name@).len() && forall|i: int|
                    0 <= i < r@.len() ==> *#[trigger] r@[i] == named(rest@, name@)[i],
                Sexp::Atom(_) => r@.len() == 0,
            },
    {
        let mut out: Vec<&Sexp> = Vec::new();
        match self {
            Sexp::List(_, rest) => {
                let mut i: usize = 0;
                while i < rest.len()
                    invariant
                        i <= rest@.len(),
                        self matches Sexp::List(_, r2) && r2@ == rest@,
                        out@.len() == named(rest@.take(i as int), name@).len(),
                        forall|k: int|
                            0 <= k < out@.len() ==> *#[trigger] out@[k] == named(
                                rest@.take(i as int),
                                name@,
                            )[k],
                    decreases rest.len() - i,
                {
                    let e = &rest[i];
                    assert(rest@.take(i + 1).drop_last() =~= rest@.take(i as int));
                    match e {
                        Sexp::List(n, _) => {
                            if str_eq(n.as_str(), name) {
                                out.push(e);
                            }
                        },
                        Sexp::Atom(_) => {},
                    }
                    i = i + 1;
                }
                assert(rest@.take(rest@.len() as int) =~= rest@);
            },
            Sexp::Atom(_) => {},
        }
        out
    }

    pub fn string(&self) -> (r: Option<&str>)
        ensures
            match self {
                Sexp::Atom(t) => r matches Some(x) && x@ == t@,
                Sexp::List(_, _) => r is None,
            },
    {
        match self {
            Sexp::Atom(s) => Some(s.as_str()),
            Sexp::List(_, _) => None,
        }
    }

    pub fn as_list(&self) -> (r: Option<&[Sexp]>)
        ensures
            match self {
                Sexp::List(_, rest) => r matches Some(x) && x@ == rest@,
                Sexp::Atom(_) => r is None,
            },
    {
        self.list_rest()
    }
}

/// Whitespace as the reader skips it.
pub open spec fn is_ws(c: char) -> bool {
    char_is_whitespace(c) || c == '\n' || c == '\r'
}

/// Characters that continue a number.
pub open spec fn is_number_char(c: char) -> bool {
    is_digit(c) || c == '.'
}

/// Characters that continue a bare atom, for a character `c` that is alphanumeric or not.
pub open spec fn atom_char_given(c: char, alphanumeric: bool) -> bool {
    alphanumeric || c == '_' || c == '*' || c == '.' || c == ':' || c == '-'
}

/// Characters that continue a bare atom.
pub open spec fn is_atom_char(c: char) -> bool {
    atom_char_given(c, char_is_alphanumeric(c))
}

/// Characters that start a number.
pub open spec fn starts_number(c: char) -> bool {
    is_digit(c) || c == '-' || c == '.'
}

/// Characters that start a bare atom (when they do not start a number), for a character `c`
/// that is alphanumeric or not.
pub open spec fn atom_start_given(c: char, alphanumeric: bool) -> bool {
    alphanumeric || c == '_' || c == '*' || c == '.'
}

/// Characters that start a bare atom (when they do not start a number).
pub open spec fn starts_atom(c: char) -> bool {
    atom_start_given(c, char_is_alphanumeric(c))
}

/// Whether `c` continues a bare atom, given whether `char::is_alphanumeric` holds of it.
pub fn continues_atom(c: char, alphanumeric: bool) -> (r: bool)
    ensures
        r == atom_char_given(c, alphanumeric),
{
    alphanumeric || c == '_' || c == '*' || c == '.' || c == ':' || c == '-'
}

/// Whether `c` starts a bare atom (when it does not start a number), given whether
/// `char::is_alphanumeric` holds of it.
pub fn begins_atom(c: char, alphanumeric: bool) -> (r: bool)
    ensures
        r == atom_start_given(c, alphanumeric),
{
    alphanumeric || c == '_' || c == '*' || c == '.'
}

/// Result of reading from position `i`: the value and the position after it, or an error
/// message and the position (in characters) where it arose.
pub type PRes<T> = Result<(T, int), (Seq<char>, int)>;

/// First position at or after `i` that is not whitespace.
pub open spec fn skip_ws(s: Seq<char>, i: int) -> int
    decreases s.len() - i,
{
    if 0 <= i < s.len() && is_ws(s[i]) {
        skip_ws(s, i + 1)
    } else {
        i
    }
}

/// End of the run of number characters starting at `i`.
pub open spec fn number_end(s: Seq<char>, i: int) -> int
    decreases s.len() - i,
{
    if 0 <= i < s.len() && is_number_char(s[i]) {
        number_end(s, i + 1)
    } else {
        i
    }
}

/// End of the run of atom characters starting at `i`.
pub open spec fn atom_end(s: Seq<char>, i: int) -> int
    decreases s.len() - i,
{
    if 0 <= i < s.len() && is_atom_char(s[i]) {
        atom_end(s, i + 1)
    } else {
        i
    }
}

/// Body of a quoted string starting after the opening quote at `p`: the unescaped text and the
/// position after the closing quote, or the position where the input ran out.
pub open spec fn spec_quoted_body(s: Seq<char>, p: int) -> Result<(Seq<char>, int), int>
    decreases s.len() - p,
{
    if p < 0 || p >= s.len() {
        Err(s.len() as int)
    } else if s[p] == '"' {
        Ok((seq![], p + 1))
    } else if s[p] == '\\' {
        if p + 1 < s.len() {
            match spec_quoted_body(s, p + 2) {
                Ok((t, e)) => Ok((seq![s[p + 1]] + t, e)),
                Err(q) => Err(q),
            }
        } else {
            Err(s.len() as int)
        }
    } else {
        match spec_quoted_body(s, p + 1) {
            Ok((t, e)) => Ok((seq![s[p]] + t, e)),
            Err(q) => Err(q),
        }
    }
}

/// A quoted string whose opening quote is at `j`.
pub open spec fn spec_parse_quoted(s: Seq<char>, j: int) -> PRes<SexpV> {
    match spec_quoted_body(s, j + 1) {
        Ok((t, e)) => Ok((SexpV::Atom(t), e)),
        Err(q) => Err(("Unclosed string"@, q)),
    }
}

/// A number starting at `j`: an optional `-`, then digits and dots.
pub open spec fn spec_parse_number(s: Seq<char>, j: int) -> PRes<SexpV> {
    let k = if 0 <= j < s.len() && s[j] == '-' { j + 1 } else { j };
    let e = number_end(s, k);
    if e == j {
        Err(("Expected number"@, e))
    } else {
        Ok((SexpV::Atom(s.subrange(j, e)), e))
    }
}

/// A bare atom starting at `j`.
pub open spec fn spec_parse_atom(s: Seq<char>, j: int) -> PRes<SexpV> {
    let e = atom_end(s, j);
    if e == j {
        Err(("Expected atom"@, j))
    } else {
        Ok((SexpV::Atom(s.subrange(j, e)), e))
    }
}

/// Text of an atom (empty for a list).
pub open spec fn atom_text(v: SexpV) -> Seq<char> {
    match v {
        SexpV::Atom(t) => t,
        SexpV::List(_, _) => seq![],
    }
}

/// A list with the given name around the result of reading its items.
pub open spec fn wrap_list(name: Seq<char>, items: PRes<Seq<SexpV>>) -> PRes<SexpV> {
    match items {
        Ok((vs, f)) => Ok((SexpV::List(name, vs), f)),
        Err(x) => Err(x),
    }
}

/// Message for a character that starts no s-expression.
pub open spec fn unexpected_char_message(c: char) -> Seq<char> {
    "Unexpected character '"@.push(c) + "'"@
}

/// One s-expression starting at or after `i` (leading whitespace is skipped).
pub open spec fn spec_parse_sexp(s: Seq<char>, i: int) -> PRes<SexpV>
    decreases s.len() - i, 2int,
{
    if i < 0 || i > s.len() {
        Err(("Unexpected end of input"@, i))
    } else {
        let j = skip_ws(s, i);
        proof {
            lemma_skip_ws(s, i);
        }
        if j >= s.len() {
            Err(("Unexpected end of input"@, j))
        } else if s[j] == '(' {
            spec_parse_list(s, j)
        } else if s[j] == '"' {
            spec_parse_quoted(s, j)
        } else if starts_number(s[j]) {
            spec_parse_number(s, j)
        } else if starts_atom(s[j]) {
            spec_parse_atom(s, j)
        } else {
            Err((unexpected_char_message(s[j]), j))
        }
    }
}

/// A list whose opening parenthesis is at `j`: a name (quoted or bare), then items up to `)`.
pub open spec fn spec_parse_list(s: Seq<char>, j: int) -> PRes<SexpV>
    decreases s.len() - j, 1int,
{
    if j < 0 || j >= s.len() {
        Err(("Expected '('"@, j))
    } else {
        let k = skip_ws(s, j + 1);
        proof {
            lemma_skip_ws(s, j + 1);
        }
        if k >= s.len() || s[k] == '(' {
            Err(("Empty list or nested list as list name"@, k))
        } else {
            let name = if s[k] == '"' {
                spec_parse_quoted(s, k)
            } else {
                spec_parse_atom(s, k)
            };
            match name {
                Err(x) => Err(x),
                Ok((v, e)) => if j < e <= s.len() {
                    wrap_list(atom_text(v), spec_list_items(s, e))
                } else {
                    Err(("Expected atom"@, e))
                },
            }
        }
    }
}

/// Items of a list from position `p` up to and including the closing `)`.
pub open spec fn spec_list_items(s: Seq<char>, p: int) -> PRes<Seq<SexpV>>
    decreases s.len() - p, 3int,
{
    if p < 0 || p > s.len() {
        Err(("Unclosed list"@, p))
    } else {
        let k = skip_ws(s, p);
        proof {
            lemma_skip_ws(s, p);
        }
        if k >= s.len() {
            Err(("Unclosed list"@, k))
        } else if s[k] == ')' {
            Ok((seq![], k + 1))
        } else {
            match spec_parse_sexp(s, k) {
                Err(x) => Err(x),
                Ok((v, e)) => if k < e <= s.len() {
                    match spec_list_items(s, e) {
                        Ok((vs, f)) => Ok((seq![v] + vs, f)),
                        Err(x) => Err(x),
                    }
                } else {
                    Err(("Unclosed list"@, e))
                },
            }
        }
    }
}

/// The whole input: one s-expression, then only whitespace.
pub open spec fn spec_parse(s: Seq<char>) -> Result<SexpV, (Seq<char>, int)> {
    match spec_parse_sexp(s, 0) {
        Err(x) => Err(x),
        Ok((v, e)) => {
            let k = skip_ws(s, e);
            if k == s.len() {
                Ok(v)
            } else {
                Err(("Trailing content after s-expression"@, k))
            }
        },
    }
}

pub proof fn lemma_skip_ws(s: Seq<char>, i: int)
    requires
        0 <= i <= s.len(),
    ensures
        i <= skip_ws(s, i) <= s.len(),
        skip_ws(s, i) < s.len() ==> !is_ws(s[skip_ws(s, i)]),
        forall|m: int| i <= m < skip_ws(s, i) ==> is_ws(#[trigger] s[m]),
    decreases s.len() - i,
{
    if i < s.len() && is_ws(s[i]) {
        lemma_skip_ws(s, i + 1);
    }
}


/// `s` stands in `t` from position `n` on.
pub open spec fn embeds(t: Seq<char>, s: Seq<char>, n: int) -> bool {
    0 <= n && n + s.len() <= t.len() && forall|k: int| 0 <= k < s.len() ==> t[n + k] == #[trigger] s[k]
}

/// A run of atom or number characters that reaches the end of `s` ends there in `t` too.
pub open spec fn runs_stop(t: Seq<char>, s: Seq<char>, n: int) -> bool {
    n + s.len() < t.len() ==> !is_atom_char(t[n + s.len()]) && !is_number_char(t[n + s.len()])
}

/// A read result moved `n` positions on.
pub open spec fn shifted<T>(r: PRes<T>, n: int) -> PRes<T> {
    match r {
        Ok((v, e)) => Ok((v, e + n)),
        Err((m, p)) => Err((m, p + n)),
    }
}

proof fn lemma_skip_shift(t: Seq<char>, s: Seq<char>, n: int, i: int)
    requires
        embeds(t, s, n),
        0 <= i <= s.len(),
        skip_ws(s, i) < s.len(),
    ensures
        skip_ws(t, n + i) == n + skip_ws(s, i),
    decreases s.len() - i,
{
    assert(t[n + i] == s[i]);
    if is_ws(s[i]) {
        lemma_skip_shift(t, s, n, i + 1);
    }
}

proof fn lemma_skip_to_end(t: Seq<char>, i: int)
    requires
        0 <= i <= t.len(),
        forall|m: int| i <= m < t.len() ==> is_ws(#[trigger] t[m]),
    ensures
        skip_ws(t, i) == t.len(),
    decreases t.len() - i,
{
    if i < t.len() {
        assert(is_ws(t[i]));
        lemma_skip_to_end(t, i + 1);
    }
}

proof fn lemma_number_shift(t: Seq<char>, s: Seq<char>, n: int, i: int)
    requires
        embeds(t, s, n),
        runs_stop(t, s, n),
        0 <= i <= s.len(),
    ensures
        number_end(t, n + i) == n + number_end(s, i),
        i <= number_end(s, i) <= s.len(),
    decreases s.len() - i,
{
    if i < s.len() {
        assert(t[n + i] == s[i]);
        if is_number_char(s[i]) {
            lemma_number_shift(t, s, n, i + 1);
        }
    }
}

proof fn lemma_atom_shift(t: Seq<char>, s: Seq<char>, n: int, i: int)
    requires
        embeds(t, s, n),
        runs_stop(t, s, n),
        0 <= i <= s.len(),
    ensures
        atom_end(t, n + i) == n + atom_end(s, i),
        i <= atom_end(s, i) <= s.len(),
    decreases s.len() - i,
{
    if i < s.len() {
        assert(t[n + i] == s[i]);
        if is_atom_char(s[i]) {
            lemma_atom_shift(t, s, n, i + 1);
        }
    }
}

proof fn lemma_quoted_shift(t: Seq<char>, s: Seq<char>, n: int, p: int)
    requires
        embeds(t, s, n),
        spec_quoted_body(s, p) is Ok,
    ensures
        spec_quoted_body(t, n + p) == shifted_body(spec_quoted_body(s, p), n),
        p < spec_quoted_body(s, p)->Ok_0.1 <= s.len(),
    decreases s.len() - p,
{
    assert(t[n + p] == s[p]);
    if s[p] == '"' {
    } else if s[p] == '\\' {
        assert(t[n + p + 1] == s[p + 1]);
        lemma_quoted_shift(t, s, n, p + 2);
    } else {
        lemma_quoted_shift(t, s, n, p + 1);
    }
}

/// A quoted body's result moved `n` positions on.
pub open spec fn shifted_body(r: Result<(Seq<char>, int), int>, n: int) -> Result<(Seq<char>, int), int> {
    match r {
        Ok((x, e)) => Ok((x, e + n)),
        Err(q) => Err(q + n),
    }
}

proof fn lemma_sexp_shift(t: Seq<char>, s: Seq<char>, n: int, i: int)
    requires
        embeds(t, s, n),
        runs_stop(t, s, n),
        spec_parse_sexp(s, i) is Ok,
    ensures
        spec_parse_sexp(t, n + i) == shifted(spec_parse_sexp(s, i), n),
        i < spec_parse_sexp(s, i)->Ok_0.1 <= s.len(),
    decreases s.len() - i, 2int,
{
    lemma_skip_ws(s, i);
    let j = skip_ws(s, i);
    lemma_skip_shift(t, s, n, i);
    assert(t[n + j] == s[j]);
    if s[j] == '(' {
        lemma_list_shift(t, s, n, j);
    } else if s[j] == '"' {
        lemma_quoted_shift(t, s, n, j + 1);
    } else if starts_number(s[j]) {
        let k = if s[j] == '-' { j + 1 } else { j };
        lemma_number_shift(t, s, n, k);
        let e = number_end(s, k);
        assert(t.subrange(n + j, n + e) =~= s.subrange(j, e));
    } else {
        lemma_atom_shift(t, s, n, j);
        let e = atom_end(s, j);
        assert(t.subrange(n + j, n + e) =~= s.subrange(j, e));
    }
}

proof fn lemma_list_shift(t: Seq<char>, s: Seq<char>, n: int, j: int)
    requires
        embeds(t, s, n),
        runs_stop(t, s, n),
        spec_parse_list(s, j) is Ok,
    ensures
        spec_parse_list(t, n + j) == shifted(spec_parse_list(s, j), n),
        j < spec_parse_list(s, j)->Ok_0.1 <= s.len(),
    decreases s.len() - j, 1int,
{
    lemma_skip_ws(s, j + 1);
    let k = skip_ws(s, j + 1);
    lemma_skip_shift(t, s, n, j + 1);
    assert(t[n + j] == s[j]);
    assert(t[n + k] == s[k]);
    if s[k] == '"' {
        lemma_quoted_shift(t, s, n, k + 1);
    } else {
        lemma_atom_shift(t, s, n, k);
        let e = atom_end(s, k);
        assert(t.subrange(n + k, n + e) =~= s.subrange(k, e));
    }
    let name = if s[k] == '"' { spec_parse_quoted(s, k) } else { spec_parse_atom(s, k) };
    let e = name->Ok_0.1;
    lemma_items_shift(t, s, n, e);
}

proof fn lemma_items_shift(t: Seq<char>, s: Seq<char>, n: int, p: int)
    requires
        embeds(t, s, n),
        runs_stop(t, s, n),
        spec_list_items(s, p) is Ok,
    ensures
        spec_list_items(t, n + p) == shifted(spec_list_items(s, p), n),
        p < spec_list_items(s, p)->Ok_0.1 <= s.len(),
    decreases s.len() - p, 3int,
{
    lemma_skip_ws(s, p);
    let k = skip_ws(s, p);
    lemma_skip_shift(t, s, n, p);
    assert(t[n + k] == s[k]);
    if s[k] != ')' {
        lemma_sexp_shift(t, s, n, k);
        let e = spec_parse_sexp(s, k)->Ok_0.1;
        lemma_items_shift(t, s, n, e);
    }
}

/// Whitespace around an input leaves what it reads as unchanged: for `w1` and `w2` made of
/// whitespace, `w1 + s + w2` reads as `s` does whenever `s` reads without error.
pub proof fn lemma_parse_surrounding_ws(w1: Seq<char>, s: Seq<char>, w2: Seq<char>)
    requires
        forall|k: int| 0 <= k < w1.len() ==> is_ws(#[trigger] w1[k]),
        forall|k: int| 0 <= k < w2.len() ==> is_ws(#[trigger] w2[k]),
        spec_parse(s) is Ok,
    ensures
        spec_parse(w1 + s + w2) == spec_parse(s),
{
    let t = w1 + s + w2;
    let n = w1.len() as int;
    assert(embeds(t, s, n)) by {
        assert forall|k: int| 0 <= k < s.len() implies t[n + k] == #[trigger] s[k] by {
            assert((w1 + s)[n + k] == s[k]);
        }
    }
    assert(runs_stop(t, s, n)) by {
        if n + s.len() < t.len() {
            assert(t[n + s.len()] == w2[0]);
            assert(is_ws(w2[0]));
        }
    }
    assert forall|m: int| 0 <= m < n implies is_ws(#[trigger] t[m]) by {
        assert((w1 + s)[m] == w1[m]);
        assert(w1[m] == t[m]);
    }
    lemma_skip_ws(t, 0);
    lemma_skip_ws(t, n);
    lemma_skip_same(t, 0, n);
    lemma_sexp_shift(t, s, n, 0);
    let e = spec_parse_sexp(s, 0)->Ok_0.1;
    lemma_skip_ws(s, e);
    assert forall|m: int| n + e <= m < t.len() implies is_ws(#[trigger] t[m]) by {
        if m < n + s.len() {
            assert(t[m] == s[m - n]);
        } else {
            assert(t[m] == w2[m - n - s.len()]);
        }
    }
    lemma_skip_to_end(t, n + e);
}

/// Skipping from anywhere in a whitespace prefix ends where skipping from its end does.
proof fn lemma_skip_same(t: Seq<char>, i: int, n: int)
    requires
        0 <= i <= n <= t.len(),
        forall|m: int| 0 <= m < n ==> is_ws(#[trigger] t[m]),
    ensures
        skip_ws(t, i) == skip_ws(t, n),
    decreases n - i,
{
    if i < n {
        assert(is_ws(t[i]));
        lemma_skip_same(t, i + 1, n);
    }
}

/// `e` is a parse error with message `m` at character position `p` of `s`, its offset being the
/// number of UTF-8 bytes before `p`.
pub open spec fn is_parse_error(e: Error, m: Seq<char>, s: Seq<char>, p: int) -> bool {
    e matches Error::Parse { message, offset } && message@ == m && offset == Some(
        byte_len(s.take(p)) as usize,
    )
}

/// `r` is what a reader at a position yields when the grammar gives `g` there, `s` being the
/// input and `end` the position after reading.
pub open spec fn yields(r: Result<Sexp, Error>, g: PRes<SexpV>, s: Seq<char>, end: int) -> bool {
    match g {
        Ok((v, e)) => r matches Ok(x) && x.model() == v && end == e,
        Err((m, p)) => r matches Err(er) && is_parse_error(er, m, s, p),
    }
}

struct Parser {
    chars: Vec<char>,
    pos: usize,
    offset: usize,
}

impl Parser {
    spec fn wf(&self) -> bool {
        &&& self.pos <= self.chars@.len()
        &&& self.offset == byte_len(self.chars@.take(self.pos as int))
        &&& byte_len(self.chars@) <= usize::MAX
    }

    fn new(input: &str) -> (p: Parser)
        requires
            byte_len(input@) <= usize::MAX,
        ensures
            p.wf(),
            p.chars@ == input@,
            p.pos == 0,
    {
        let chars = chars_of(input);
        assert(chars@.take(0) =~= Seq::<char>::empty());
        Parser { chars, pos: 0, offset: 0 }
    }

    fn offset(&self) -> (r: usize)
        ensures
            r == self.offset,
    {
        self.offset
    }

    fn peek(&self) -> (r: Option<char>)
        requires
            self.wf(),
        ensures
            r == (if self.pos < self.chars@.len() {
                Some(self.chars@[self.pos as int])
            } else {
                None::<char>
            }),
    {
        if self.pos < self.chars.len() {
            Some(self.chars[self.pos])
        } else {
            None
        }
    }

    fn advance(&mut self) -> (r: Option<char>)
        requires
            old(self).wf(),
        ensures
            final(self).wf(),
            final(self).chars@ == old(self).chars@,
            old(self).pos < old(self).chars@.len() ==> r == Some(old(self).chars@[old(self).pos as int])
                && final(self).pos == old(self).pos + 1,
            old(self).pos >= old(self).chars@.len() ==> r is None && final(self).pos == old(self).pos,
    {
        if self.pos < self.chars.len() {
            let c = self.chars[self.pos];
            proof {
                let s = self.chars@;
                let p = self.pos as int;
                assert(s.take(p + 1) =~= s.take(p).push(c));
                lemma_byte_len_push(s.take(p), c);
                lemma_byte_len_prefix(s, p + 1, s.len() as int);
                assert(s.take(s.len() as int) =~= s);
            }
            self.pos = self.pos + 1;
            self.offset = self.offset + utf8_width_of(c);
            Some(c)
        } else {
            None
        }
    }

    fn error_at(&self, message: String) -> (e: Error)
        requires
            self.wf(),
        ensures
            is_parse_error(e, message@, self.chars@, self.pos as int),
    {
        Error::Parse { message, offset: Some(self.offset) }
    }

    fn skip_whitespace(&mut self)
        requires
            old(self).wf(),
        ensures
            final(self).wf(),
            final(self).chars@ == old(self).chars@,
            final(self).pos == skip_ws(old(self).chars@, old(self).pos as int),
    {
        let ghost s = self.chars@;
        let ghost p0 = self.pos as int;
        loop
            invariant
                self.wf(),
                self.chars@ == s,
                p0 <= self.pos,
                skip_ws(s, self.pos as int) == skip_ws(s, p0),
            ensures
                self.wf(),
                self.chars@ == s,
                skip_ws(s, self.pos as int) == self.pos,
                skip_ws(s, self.pos as int) == skip_ws(s, p0),
            decreases s.len() - self.pos,
        {
            match self.peek() {
                Some(c) => {
                    if is_whitespace_char(c) || c == '\n' || c == '\r' {
                        self.advance();
                    } else {
                        break;
                    }
                },
                None => {
                    break;
                },
            }
        }
    }

    fn parse_atom(&mut self) -> (r: Result<Sexp, Error>)
        requires
            old(self).wf(),
        ensures
            final(self).wf(),
            final(self).chars@ == old(self).chars@,
            yields(r, spec_parse_atom(old(self).chars@, old(self).pos as int), old(self).chars@,
                final(self).pos as int),
            r is Ok ==> old(self).pos < final(self).pos,
    {
        let ghost s = self.chars@;
        let start = self.pos;
        let mut t = String::new();
        loop
            invariant
                self.wf(),
                self.chars@ == s,
                start <= self.pos,
                t@ == s.subrange(start as int, self.pos as int),
                atom_end(s, self.pos as int) == atom_end(s, start as int),
            ensures
                self.wf(),
                self.chars@ == s,
                start <= self.pos,
                t@ == s.subrange(start as int, self.pos as int),
                atom_end(s, self.pos as int) == atom_end(s, start as int),
                atom_end(s, self.pos as int) == self.pos,
            decreases s.len() - self.pos,
        {
            match self.peek() {
                Some(c) => {
                    if continues_atom(c, is_alphanumeric_char(c)) {
                        self.advance();
                        push_char(&mut t, c);
                        assert(t@ =~= s.subrange(start as int, self.pos as int));
                    } else {
                        break;
                    }
                },
                None => {
                    break;
                },
            }
        }
        if self.pos == start {
            return Err(self.error_at(String::from_str("Expected atom")));
        }
        Ok(Sexp::Atom(t))
    }

    fn parse_number(&mut self) -> (r: Result<Sexp, Error>)
        requires
            old(self).wf(),
        ensures
            final(self).wf(),
            final(self).chars@ == old(self).chars@,
            yields(r, spec_parse_number(old(self).chars@, old(self).pos as int), old(self).chars@,
                final(self).pos as int),
            r is Ok ==> old(self).pos < final(self).pos,
    {
        let ghost s = self.chars@;
        let start = self.pos;
        let mut t = String::new();
        if self.peek() == Some('-') {
            self.advance();
            push_char(&mut t, '-');
        }
        let ghost k = self.pos as int;
        assert(t@ =~= s.subrange(start as int, self.pos as int));
        loop
            invariant
                self.wf(),
                self.chars@ == s,
                start <= k <= self.pos,
                k == (if start < s.len() && s[start as int] == '-' { start + 1 } else { start as int }),
                t@ == s.subrange(start as int, self.pos as int),
                number_end(s, self.pos as int) == number_end(s, k),
            ensures
                self.wf(),
                self.chars@ == s,
                start <= k <= self.pos,
                k == (if start < s.len() && s[start as int] == '-' { start + 1 } else { start as int }),
                t@ == s.subrange(start as int, self.pos as int),
                number_end(s, self.pos as int) == number_end(s, k),
                number_end(s, self.pos as int) == self.pos,
            decreases s.len() - self.pos,
        {
            match self.peek() {
                Some(c) => {
                    if is_ascii_digit(c) || c == '.' {
                        self.advance();
                        push_char(&mut t, c);
                        assert(t@ =~= s.subrange(start as int, self.pos as int));
                    } else {
                        break;
                    }
                },
                None => {
                    break;
                },
            }
        }
        if self.pos == start {
            return Err(self.error_at(String::from_str("Expected number")));
        }
        Ok(Sexp::Atom(t))
    }

    fn parse_quoted_string(&mut self) -> (r: Result<Sexp, Error>)
        requires
            old(self).wf(),
            old(self).pos < old(self).chars@.len(),
            old(self).chars@[old(self).pos as int] == '"',
        ensures
            final(self).wf(),
            final(self).chars@ == old(self).chars@,
            yields(r, spec_parse_quoted(old(self).chars@, old(self).pos as int), old(self).chars@,
                final(self).pos as int),
            r is Ok ==> old(self).pos < final(self).pos,
    {
        let ghost s = self.chars@;
        let ghost j = self.pos as int;
        let _quote = self.advance();
        let mut t = String::new();
        loop
            invariant_except_break
                self.wf(),
                self.chars@ == s,
                s == old(self).chars@,
                j == old(self).pos,
                j + 1 <= self.pos,
                match spec_quoted_body(s, self.pos as int) {
                    Ok((u, e)) => spec_quoted_body(s, j + 1) == Ok::<(Seq<char>, int), int>((t@ + u, e)),
                    Err(q) => spec_quoted_body(s, j + 1) == Err::<(Seq<char>, int), int>(q),
                },
            ensures
                self.wf(),
                self.chars@ == s,
                j + 1 < self.pos,
                spec_quoted_body(s, j + 1) == Ok::<(Seq<char>, int), int>((t@, self.pos as int)),
            decreases s.len() - self.pos,
        {
            let ghost t0 = t@;
            let ghost pb = self.pos as int;
            match self.advance() {
                None => {
                    return Err(self.error_at(String::from_str("Unclosed string")));
                },
                Some(c) => {
                    if c == '"' {
                        assert(t0 + Seq::<char>::empty() =~= t0);
                        break;
                    } else if c == '\\' {
                        match self.advance() {
                            Some(d) => {
                                push_char(&mut t, d);
                                proof {
                                    match spec_quoted_body(s, self.pos as int) {
                                        Ok((u, e)) => {
                                            assert(t0 + (seq![d] + u) =~= t@ + u);
                                        },
                                        Err(q) => {},
                                    }
                                }
                            },
                            None => {},
                        }
                    } else {
                        push_char(&mut t, c);
                        proof {
                            match spec_quoted_body(s, self.pos as int) {
                                Ok((u, e)) => {
                                    assert(t0 + (seq![c] + u) =~= t@ + u);
                                },
                                Err(q) => {},
                            }
                        }
                    }
                },
            }
        }
        Ok(Sexp::Atom(t))
    }

    fn parse_sexp(&mut self) -> (r: Result<Sexp, Error>)
        requires
            old(self).wf(),
        ensures
            final(self).wf(),
            final(self).chars@ == old(self).chars@,
            yields(r, spec_parse_sexp(old(self).chars@, old(self).pos as int), old(self).chars@,
                final(self).pos as int),
            r is Ok ==> old(self).pos < final(self).pos,
        decreases old(self).chars@.len() - old(self).pos, 2int,
    {
        let ghost s = self.chars@;
        let ghost i = self.pos as int;
        proof {
            lemma_skip_ws(s, i);
        }
        self.skip_whitespace();
        match self.peek() {
            Some(c) => {
                if c == '(' {
                    self.parse_list()
                } else if c == '"' {
                    self.parse_quoted_string()
                } else if is_ascii_digit(c) || c == '-' || c == '.' {
                    self.parse_number()
                } else if begins_atom(c, is_alphanumeric_char(c)) {
                    self.parse_atom()
                } else {
                    let mut m = String::from_str("Unexpected character '");
                    push_char(&mut m, c);
                    m.append("'");
                    Err(self.error_at(m))
                }
            },
            None => Err(self.error_at(String::from_str("Unexpected end of input"))),
        }
    }

    fn parse_list(&mut self) -> (r: Result<Sexp, Error>)
        requires
            old(self).wf(),
            old(self).pos < old(self).chars@.len(),
            old(self).chars@[old(self).pos as int] == '(',
        ensures
            final(self).wf(),
            final(self).chars@ == old(self).chars@,
            yields(r, spec_parse_list(old(self).chars@, old(self).pos as int), old(self).chars@,
                final(self).pos as int),
            r is Ok ==> old(self).pos < final(self).pos,
        decreases old(self).chars@.len() - old(self).pos, 1int,
    {
        let ghost s = self.chars@;
        let ghost j = self.pos as int;
        let _open = self.advance();
        proof {
            lemma_skip_ws(s, j + 1);
        }
        self.skip_whitespace();
        let name: String;
        match self.peek() {
            None => {
                return Err(
                    self.error_at(String::from_str("Empty list or nested list as list name")),
                );
            },
            Some(c) => {
                if c == '(' {
                    return Err(
                        self.error_at(String::from_str("Empty list or nested list as list name")),
                    );
                } else if c == '"' {
                    match self.parse_quoted_string() {
                        Ok(v) => {
                            name = match v {
                                Sexp::Atom(t) => t,
                                Sexp::List(_, _) => String::new(),
                            };
                        },
                        Err(e) => {
                            return Err(e);
                        },
                    }
                } else {
                    match self.parse_atom() {
                        Ok(v) => {
                            name = match v {
                                Sexp::Atom(t) => t,
                                Sexp::List(_, _) => String::new(),
                            };
                        },
                        Err(e) => {
                            return Err(e);
                        },
                    }
                }
            },
        }
        let ghost e0 = self.pos as int;
        assert(spec_parse_list(s, j) == wrap_list(name@, spec_list_items(s, e0)));
        let mut rest: Vec<Sexp> = Vec::new();
        loop
            invariant_except_break
                self.wf(),
                self.chars@ == s,
                s == old(self).chars@,
                j == old(self).pos,
                j < e0 <= self.pos,
                spec_parse_list(s, j) == wrap_list(name@, spec_list_items(s, e0)),
                match spec_list_items(s, self.pos as int) {
                    Ok((vs, f)) => spec_list_items(s, e0) == Ok::<(Seq<SexpV>, int), (Seq<char>, int)>(
                        (Sexp::models(rest@) + vs, f),
                    ),
                    Err(x) => spec_list_items(s, e0) == Err::<(Seq<SexpV>, int), (Seq<char>, int)>(x),
                },
            ensures
                self.wf(),
                self.chars@ == s,
                j < self.pos,
                spec_parse_list(s, j) == wrap_list(name@, spec_list_items(s, e0)),
                spec_list_items(s, e0) == Ok::<(Seq<SexpV>, int), (Seq<char>, int)>(
                    (Sexp::models(rest@), self.pos as int),
                ),
            decreases s.len() - self.pos,
        {
            let ghost p = self.pos as int;
            proof {
                lemma_skip_ws(s, p);
            }
            self.skip_whitespace();
            let ghost k = self.pos as int;
            match self.peek() {
                None => {
                    return Err(self.error_at(String::from_str("Unclosed list")));
                },
                Some(c) => {
                    if c == ')' {
                        self.advance();
                        assert(Sexp::models(rest@) + Seq::<SexpV>::empty() =~= Sexp::models(rest@));
                        break;
                    } else {
                        match self.parse_sexp() {
                            Ok(v) => {
                                let ghost m0 = Sexp::models(rest@);
                                let ghost vm = v.model();
                                let ghost r0 = rest@;
                                rest.push(v);
                                proof {
                                    assert(Sexp::models(rest@) == m0.push(vm)) by {
                                        assert(rest@.drop_last() =~= r0);
                                    }
                                    match spec_list_items(s, self.pos as int) {
                                        Ok((vs, f)) => {
                                            assert(m0 + (seq![vm] + vs) =~= m0.push(vm) + vs);
                                        },
                                        Err(x) => {},
                                    }
                                }
                            },
                            Err(e) => {
                                return Err(e);
                            },
                        }
                    }
                },
            }
        }
        Ok(Sexp::List(name, rest))
    }
}

/// Parse an s-expression from a string: one s-expression, optionally surrounded by whitespace.
/// Errors carry a message and the byte offset where reading stopped.
pub fn parse(input: &str) -> (r: Result<Sexp, Error>)
    requires
        byte_len(input@) <= usize::MAX,
    ensures
        match spec_parse(input@) {
            Ok(v) => r matches Ok(x) && x.model() == v,
            Err((m, p)) => r matches Err(e) && is_parse_error(e, m, input@, p),
        },
{
    let mut p = Parser::new(input);
    match p.parse_sexp() {
        Ok(s) => {
            p.skip_whitespace();
            if p.peek().is_none() {
                Ok(s)
            } else {
                Err(p.error_at(String::from_str("Trailing content after s-expression")))
            }
        },
        Err(e) => Err(e),
    }
}

} // verus!
