//! Selection expressions: a small language to pick mesh elements by index,
//! by index range, or by named group.
//!
//! Syntax examples:
//! ```text
//! 0, 1, 2               select elements 0, 1 and 2
//! *                     select all elements
//! 0..5                  select a range of elements
//! 0..5, 7..10, 13, @top multiple ranges, single elements and a named group
//!                       (empty string) selects nothing
//! ```
use vstd::prelude::*;

use crate::text::{all_white_space, decimal, digits_value, is_ascii_alnum, is_ascii_digit, is_white_space, lowercase_char};

verus! {

/// One element of an explicit selection.
#[derive(Debug, PartialEq, Eq)]
pub enum SelectionFragment {
    /// All elements that belong to the named group.
    Group(String),
    /// The elements whose index lies in the half-open range.
    Range(core::ops::Range<u32>),
    /// The element with the given index.
    Single(u32),
}

impl Clone for SelectionFragment {
    fn clone(&self) -> (r: Self)
        ensures
            r@ == self@,
    {
        match self {
            SelectionFragment::Group(name) => SelectionFragment::Group(name.clone()),
            SelectionFragment::Range(r) => SelectionFragment::Range(r.start..r.end),
            SelectionFragment::Single(i) => SelectionFragment::Single(*i),
        }
    }
}

/// A selection of mesh elements.
#[derive(Clone, Debug, PartialEq, Eq)]
pub enum SelectionExpression {
    All,
    /// Selects nothing.
    Empty,
    Explicit(Vec<SelectionFragment>),
}

/// The kind of mesh element a selection refers to.
pub enum SelectionKind {
    Vertices,
    Faces,
    Edges,
    HalfEdges,
}

/// Mathematical model of a [`SelectionFragment`].
pub enum FragmentView {
    Group(Seq<char>),
    Range(u32, u32),
    Single(u32),
}

/// Mathematical model of a [`SelectionExpression`].
pub enum SelectionView {
    All,
    Empty,
    Explicit(Seq<FragmentView>),
}

impl View for SelectionFragment {
    type V = FragmentView;

    open spec fn view(&self) -> FragmentView {
        match self {
            SelectionFragment::Group(name) => FragmentView::Group(name@),
            SelectionFragment::Range(r) => FragmentView::Range(r.start, r.end),
            SelectionFragment::Single(i) => FragmentView::Single(*i),
        }
    }
}

pub open spec fn fragments_view(v: Seq<SelectionFragment>) -> Seq<FragmentView> {
    v.map_values(|f: SelectionFragment| f@)
}

impl View for SelectionExpression {
    type V = SelectionView;

    open spec fn view(&self) -> SelectionView {
        match self {
            SelectionExpression::All => SelectionView::All,
            SelectionExpression::Empty => SelectionView::Empty,
            SelectionExpression::Explicit(v) => SelectionView::Explicit(fragments_view(v@)),
        }
    }
}

/// The outcome of running one rule of the selection grammar at a position.
pub enum Step<T> {
    /// The rule matched; the value and the position right after the match.
    Matched(T, nat),
    /// The rule did not match.
    Fail,
    /// A number too large for `u32` was met; the parser gives up on the input.
    Overflow,
}

/// The outcome of parsing a whole selection string.
pub enum ParseOutcome {
    Parsed(SelectionView),
    /// The text does not start with a selection.
    SyntaxError,
    /// A selection was read, but the given non-blank text follows it.
    ExtraInput(Seq<char>),
    /// The text holds a number that does not fit in `u32`.
    Overflow,
}

// ---------------------------------------------------------------------------
// The grammar, as spec functions over the characters of the input.
// ---------------------------------------------------------------------------

/// End of the run of spaces starting at `i`.
pub open spec fn ws_end(s: Seq<char>, i: nat) -> nat
    decreases s.len() - i,
{
    if i < s.len() && s[i as int] == ' ' {
        ws_end(s, i + 1)
    } else {
        i
    }
}

/// End of the run of ASCII digits starting at `i`.
pub open spec fn digits_end(s: Seq<char>, i: nat) -> nat
    decreases s.len() - i,
{
    if i < s.len() && is_ascii_digit(s[i as int]) {
        digits_end(s, i + 1)
    } else {
        i
    }
}

/// End of the run of ASCII letters and digits starting at `i`.
pub open spec fn alnum_end(s: Seq<char>, i: nat) -> nat
    decreases s.len() - i,
{
    if i < s.len() && is_ascii_alnum(s[i as int]) {
        alnum_end(s, i + 1)
    } else {
        i
    }
}

/// A decimal number: one or more digits.
pub open spec fn spec_number(s: Seq<char>, i: nat) -> Step<u32> {
    let j = digits_end(s, i);
    if j == i {
        Step::Fail
    } else if digits_value(s, i as int, j as int) > u32::MAX {
        Step::Overflow
    } else {
        Step::Matched(digits_value(s, i as int, j as int) as u32, j)
    }
}

/// The tail of an identifier: any number of `_? [a-zA-Z0-9]+` groups.
pub open spec fn ident_rest_end(s: Seq<char>, p: nat) -> nat
    decreases s.len() - p,
{
    let q: nat = if p < s.len() && s[p as int] == '_' {
        p + 1
    } else {
        p
    };
    let e = alnum_end(s, q);
    if e > q && e <= s.len() && p < e {
        ident_rest_end(s, e)
    } else {
        p
    }
}

/// An identifier: a lowercase character followed by an identifier tail.
/// Returns the end position.
pub open spec fn spec_identifier(s: Seq<char>, i: nat) -> Option<nat> {
    if i < s.len() && lowercase_char(s[i as int]) {
        Some(ident_rest_end(s, i + 1))
    } else {
        None
    }
}

/// `@name`
pub open spec fn spec_group(s: Seq<char>, i: nat) -> Option<(Seq<char>, nat)> {
    if i < s.len() && s[i as int] == '@' {
        match spec_identifier(s, i + 1) {
            Some(e) => Some((s.subrange((i + 1) as int, e as int), e)),
            None => None,
        }
    } else {
        None
    }
}

/// `a..b`
pub open spec fn spec_range(s: Seq<char>, i: nat) -> Step<(u32, u32)> {
    match spec_number(s, i) {
        Step::Matched(a, j) => {
            if j + 1 < s.len() && s[j as int] == '.' && s[(j + 1) as int] == '.' {
                match spec_number(s, j + 2) {
                    Step::Matched(b, k) => Step::Matched((a, b), k),
                    Step::Fail => Step::Fail,
                    Step::Overflow => Step::Overflow,
                }
            } else {
                Step::Fail
            }
        },
        Step::Fail => Step::Fail,
        Step::Overflow => Step::Overflow,
    }
}

/// A fragment: a group, else a range, else a single number.
pub open spec fn spec_fragment(s: Seq<char>, i: nat) -> Step<FragmentView> {
    match spec_group(s, i) {
        Some((name, e)) => Step::Matched(FragmentView::Group(name), e),
        None => match spec_range(s, i) {
            Step::Matched((a, b), k) => Step::Matched(FragmentView::Range(a, b), k),
            Step::Overflow => Step::Overflow,
            Step::Fail => match spec_number(s, i) {
                Step::Matched(n, j) => Step::Matched(FragmentView::Single(n), j),
                Step::Fail => Step::Fail,
                Step::Overflow => Step::Overflow,
            },
        },
    }
}

/// A separator: spaces, a comma, spaces. Returns the end position.
pub open spec fn spec_separator(s: Seq<char>, p: nat) -> Option<nat> {
    let a = ws_end(s, p);
    if a < s.len() && s[a as int] == ',' {
        Some(ws_end(s, a + 1))
    } else {
        None
    }
}

/// The rest of a comma separated list, after the fragments `acc` ending at
/// `p`.
pub open spec fn spec_list_rest(s: Seq<char>, p: nat, acc: Seq<FragmentView>) -> Step<
    Seq<FragmentView>,
>
    decreases s.len() - p,
{
    match spec_separator(s, p) {
        None => Step::Matched(acc, p),
        Some(q) => match spec_fragment(s, q) {
            Step::Fail => Step::Matched(acc, p),
            Step::Overflow => Step::Overflow,
            Step::Matched(f, r) => if p < r <= s.len() {
                spec_list_rest(s, r, acc.push(f))
            } else {
                Step::Fail
            },
        },
    }
}

/// `*`, or a non-empty comma separated list of fragments, after optional
/// leading spaces.
pub open spec fn spec_fragments(s: Seq<char>) -> Step<SelectionView> {
    let i = ws_end(s, 0);
    if i < s.len() && s[i as int] == '*' {
        Step::Matched(SelectionView::All, i + 1)
    } else {
        match spec_fragment(s, i) {
            Step::Matched(f, p) => match spec_list_rest(s, p, seq![f]) {
                Step::Matched(list, q) => Step::Matched(SelectionView::Explicit(list), q),
                Step::Fail => Step::Fail,
                Step::Overflow => Step::Overflow,
            },
            Step::Fail => Step::Fail,
            Step::Overflow => Step::Overflow,
        }
    }
}

/// What parsing the text `s` gives: a blank text is the empty selection;
/// otherwise a selection must be read, followed by nothing but white space.
pub open spec fn spec_parse(s: Seq<char>) -> ParseOutcome {
    if all_white_space(s) {
        ParseOutcome::Parsed(SelectionView::Empty)
    } else {
        match spec_fragments(s) {
            Step::Matched(e, p) => if all_white_space(s.subrange(p as int, s.len() as int)) {
                ParseOutcome::Parsed(e)
            } else {
                ParseOutcome::ExtraInput(s.subrange(p as int, s.len() as int))
            },
            Step::Fail => ParseOutcome::SyntaxError,
            Step::Overflow => ParseOutcome::Overflow,
        }
    }
}

} // verus!

verus! {

// ---------------------------------------------------------------------------
// Facts about the grammar.
// ---------------------------------------------------------------------------

pub proof fn lemma_ws_end_bounds(s: Seq<char>, i: nat)
    requires
        i <= s.len(),
    ensures
        i <= ws_end(s, i) <= s.len(),
    decreases s.len() - i,
{
    if i < s.len() && s[i as int] == ' ' {
        lemma_ws_end_bounds(s, i + 1);
    }
}

pub proof fn lemma_digits_end_bounds(s: Seq<char>, i: nat)
    requires
        i <= s.len(),
    ensures
        i <= digits_end(s, i) <= s.len(),
    decreases s.len() - i,
{
    if i < s.len() && is_ascii_digit(s[i as int]) {
        lemma_digits_end_bounds(s, i + 1);
    }
}

pub proof fn lemma_alnum_end_bounds(s: Seq<char>, i: nat)
    requires
        i <= s.len(),
    ensures
        i <= alnum_end(s, i) <= s.len(),
    decreases s.len() - i,
{
    if i < s.len() && is_ascii_alnum(s[i as int]) {
        lemma_alnum_end_bounds(s, i + 1);
    }
}

pub proof fn lemma_ident_rest_end_bounds(s: Seq<char>, p: nat)
    requires
        p <= s.len(),
    ensures
        p <= ident_rest_end(s, p) <= s.len(),
    decreases s.len() - p,
{
    let q: nat = if p < s.len() && s[p as int] == '_' {
        p + 1
    } else {
        p
    };
    lemma_alnum_end_bounds(s, q);
    let e = alnum_end(s, q);
    if e > q && e <= s.len() && p < e {
        lemma_ident_rest_end_bounds(s, e);
    }
}

pub proof fn lemma_fragment_bounds(s: Seq<char>, i: nat)
    requires
        i <= s.len(),
    ensures
        spec_fragment(s, i) matches Step::Matched(_, r) ==> i < r <= s.len(),
{
    lemma_digits_end_bounds(s, i);
    let j = digits_end(s, i);
    if j + 2 <= s.len() {
        lemma_digits_end_bounds(s, j + 2);
    }
    if i + 2 <= s.len() {
        lemma_ident_rest_end_bounds(s, i + 2);
    }
}

// ---------------------------------------------------------------------------
// The executable parser.
// ---------------------------------------------------------------------------

/// The result of an executable grammar rule.
pub enum Parsed<T> {
    Matched(T, usize),
    Fail,
    Overflow,
}

pub open spec fn same_step<T>(e: Parsed<T>, s: Step<T>) -> bool {
    match s {
        Step::Matched(v, p) => e matches Parsed::Matched(w, q) && w == v && q as nat == p,
        Step::Fail => e is Fail,
        Step::Overflow => e is Overflow,
    }
}

pub open spec fn same_fragment_step(e: Parsed<SelectionFragment>, s: Step<FragmentView>) -> bool {
    match s {
        Step::Matched(v, p) => e matches Parsed::Matched(f, q) && f@ == v && q as nat == p,
        Step::Fail => e is Fail,
        Step::Overflow => e is Overflow,
    }
}

fn ws_end_exec(s: &Vec<char>, i: usize) -> (r: usize)
    requires
        i <= s@.len(),
    ensures
        r == ws_end(s@, i as nat),
        i <= r <= s@.len(),
{
    let mut j = i;
    while j < s.len() && s[j] == ' '
        invariant
            i <= j <= s@.len(),
            ws_end(s@, i as nat) == ws_end(s@, j as nat),
        decreases s@.len() - j,
    {
        j += 1;
    }
    j
}

fn alnum_end_exec(s: &Vec<char>, i: usize) -> (r: usize)
    requires
        i <= s@.len(),
    ensures
        r == alnum_end(s@, i as nat),
        i <= r <= s@.len(),
{
    let mut j = i;
    while j < s.len() && crate::text::ascii_alnum(s[j])
        invariant
            i <= j <= s@.len(),
            alnum_end(s@, i as nat) == alnum_end(s@, j as nat),
        decreases s@.len() - j,
    {
        j += 1;
    }
    j
}

fn number_exec(s: &Vec<char>, i: usize) -> (r: Parsed<u32>)
    requires
        i <= s@.len(),
    ensures
        same_step(r, spec_number(s@, i as nat)),
{
    let mut j = i;
    let mut val: u64 = 0;
    while j < s.len() && crate::text::ascii_digit(s[j])
        invariant
            i <= j <= s@.len(),
            val == digits_value(s@, i as int, j as int),
            val <= u32::MAX,
            digits_end(s@, i as nat) == digits_end(s@, j as nat),
        decreases s@.len() - j,
    {
        let d: u64 = ((s[j] as u32) - 48) as u64;
        val = val * 10 + d;
        j += 1;
        if val > 0xFFFF_FFFFu64 {
            proof {
                lemma_digits_end_bounds(s@, j as nat);
                crate::text::lemma_digits_value_mono(
                    s@,
                    i as int,
                    j as int,
                    digits_end(s@, i as nat) as int,
                );
            }
            return Parsed::Overflow;
        }
    }
    if j == i {
        Parsed::Fail
    } else {
        Parsed::Matched(val as u32, j)
    }
}

fn ident_rest_exec(s: &Vec<char>, p0: usize) -> (r: usize)
    requires
        p0 <= s@.len(),
    ensures
        r == ident_rest_end(s@, p0 as nat),
        p0 <= r <= s@.len(),
{
    let mut p = p0;
    loop
        invariant
            p0 <= p <= s@.len(),
            ident_rest_end(s@, p0 as nat) == ident_rest_end(s@, p as nat),
        decreases s@.len() - p,
    {
        let q = if p < s.len() && s[p] == '_' {
            p + 1
        } else {
            p
        };
        let e = alnum_end_exec(s, q);
        if e > q {
            p = e;
        } else {
            return p;
        }
    }
}

fn group_exec(s: &Vec<char>, i: usize) -> (r: Option<(String, usize)>)
    requires
        i <= s@.len(),
    ensures
        match spec_group(s@, i as nat) {
            Some((name, e)) => r matches Some((n, f)) && n@ == name && f == e,
            None => r is None,
        },
{
    if i < s.len() && s[i] == '@' {
        if i + 1 < s.len() && crate::text::char_is_lowercase(s[i + 1]) {
            let e = ident_rest_exec(s, i + 2);
            let name = crate::text::string_from_chars(s, i + 1, e);
            Some((name, e))
        } else {
            None
        }
    } else {
        None
    }
}

fn range_exec(s: &Vec<char>, i: usize) -> (r: Parsed<(u32, u32)>)
    requires
        i <= s@.len(),
    ensures
        same_step(r, spec_range(s@, i as nat)),
{
    match number_exec(s, i) {
        Parsed::Matched(a, j) => {
            proof {
                lemma_digits_end_bounds(s@, i as nat);
            }
            if j < s.len() && j + 1 < s.len() && s[j] == '.' && s[j + 1] == '.' {
                match number_exec(s, j + 2) {
                    Parsed::Matched(b, k) => Parsed::Matched((a, b), k),
                    Parsed::Fail => Parsed::Fail,
                    Parsed::Overflow => Parsed::Overflow,
                }
            } else {
                Parsed::Fail
            }
        },
        Parsed::Fail => Parsed::Fail,
        Parsed::Overflow => Parsed::Overflow,
    }
}

fn fragment_exec(s: &Vec<char>, i: usize) -> (r: Parsed<SelectionFragment>)
    requires
        i <= s@.len(),
    ensures
        same_fragment_step(r, spec_fragment(s@, i as nat)),
{
    match group_exec(s, i) {
        Some((name, e)) => Parsed::Matched(SelectionFragment::Group(name), e),
        None => match range_exec(s, i) {
            Parsed::Matched((a, b), k) => Parsed::Matched(
                SelectionFragment::Range(core::ops::Range { start: a, end: b }),
                k,
            ),
            Parsed::Overflow => Parsed::Overflow,
            Parsed::Fail => match number_exec(s, i) {
                Parsed::Matched(n, j) => Parsed::Matched(SelectionFragment::Single(n), j),
                Parsed::Fail => Parsed::Fail,
                Parsed::Overflow => Parsed::Overflow,
            },
        },
    }
}

fn separator_exec(s: &Vec<char>, p: usize) -> (r: Option<usize>)
    requires
        p <= s@.len(),
    ensures
        r matches Some(q) ==> spec_separator(s@, p as nat) == Some(q as nat),
        r is None ==> spec_separator(s@, p as nat) is None,
        r matches Some(q) ==> p < q <= s@.len(),
{
    let a = ws_end_exec(s, p);
    if a < s.len() && s[a] == ',' {
        Some(ws_end_exec(s, a + 1))
    } else {
        None
    }
}

proof fn lemma_fragments_view_push(v: Seq<SelectionFragment>, f: SelectionFragment)
    ensures
        fragments_view(v.push(f)) == fragments_view(v).push(f@),
{
    assert(fragments_view(v.push(f)) =~= fragments_view(v).push(f@));
}

fn explicit_exec(s: &Vec<char>, i: usize) -> (r: Parsed<Vec<SelectionFragment>>)
    requires
        i <= s@.len(),
    ensures
        match spec_fragment(s@, i as nat) {
            Step::Matched(f, p) => match spec_list_rest(s@, p, seq![f]) {
                Step::Matched(list, q) => r matches Parsed::Matched(v, k) && fragments_view(v@)
                    == list && k as nat == q,
                Step::Fail => r is Fail,
                Step::Overflow => r is Overflow,
            },
            Step::Fail => r is Fail,
            Step::Overflow => r is Overflow,
        },
        r matches Parsed::Matched(_, k) ==> k <= s@.len(),
{
    match fragment_exec(s, i) {
        Parsed::Matched(f0, p0) => {
            proof {
                lemma_fragment_bounds(s@, i as nat);
            }
            let ghost first = f0@;
            let mut acc: Vec<SelectionFragment> = Vec::new();
            acc.push(f0);
            assert(fragments_view(acc@) =~= seq![first]);
            let mut p = p0;
            loop
                invariant
                    p <= s@.len(),
                    i <= s@.len(),
                    spec_fragment(s@, i as nat) == Step::Matched(first, p0 as nat),
                    spec_list_rest(s@, p0 as nat, seq![first]) == spec_list_rest(
                        s@,
                        p as nat,
                        fragments_view(acc@),
                    ),
                decreases s@.len() - p,
            {
                match separator_exec(s, p) {
                    None => {
                        return Parsed::Matched(acc, p);
                    },
                    Some(q) => {
                        proof {
                            lemma_fragment_bounds(s@, q as nat);
                        }
                        match fragment_exec(s, q) {
                            Parsed::Fail => {
                                return Parsed::Matched(acc, p);
                            },
                            Parsed::Overflow => {
                                return Parsed::Overflow;
                            },
                            Parsed::Matched(f, r) => {
                                proof {
                                    lemma_fragments_view_push(acc@, f);
                                }
                                acc.push(f);
                                p = r;
                            },
                        }
                    },
                }
            }
        },
        Parsed::Fail => Parsed::Fail,
        Parsed::Overflow => Parsed::Overflow,
    }
}

} // verus!

verus! {

/// Why a selection string was refused.
#[derive(Debug, PartialEq, Eq)]
pub enum SelectionParseError {
    /// The text does not start with a selection.
    Syntax,
    /// A selection was read, but this non-blank text follows it.
    ExtraInput(String),
}

impl SelectionExpression {
    /// Parses a selection expression from a string.
    ///
    /// A blank string is the empty selection; otherwise the string must hold
    /// `*` or a comma separated list of fragments (`3`, `1..5`, `@group`),
    /// with optional spaces around the commas, and nothing but white space
    /// after it. A number too large for 32 bits is a syntax error.
    pub fn parse(input: &str) -> (r: Result<SelectionExpression, SelectionParseError>)
        ensures
            match spec_parse(input@) {
                ParseOutcome::Parsed(e) => r matches Ok(x) && x@ == e,
                ParseOutcome::SyntaxError => r == Err::<SelectionExpression, SelectionParseError>(
                    SelectionParseError::Syntax,
                ),
                ParseOutcome::ExtraInput(rest) => r matches Err(
                    SelectionParseError::ExtraInput(x),
                ) && x@ == rest,
                ParseOutcome::Overflow => r == Err::<SelectionExpression, SelectionParseError>(
                    SelectionParseError::Syntax,
                ),
            },
    {
        let s = crate::text::str_chars(input);
        if crate::text::all_whitespace_from(&s, 0) {
            assert(s@.subrange(0, s@.len() as int) =~= s@);
            return Ok(SelectionExpression::Empty);
        }
        assert(s@.subrange(0, s@.len() as int) =~= s@);
        let i = ws_end_exec(&s, 0);
        let (expr, p) = if i < s.len() && s[i] == '*' {
            (SelectionExpression::All, i + 1)
        } else {
            match explicit_exec(&s, i) {
                Parsed::Matched(list, p) => (SelectionExpression::Explicit(list), p),
                Parsed::Fail => {
                    return Err(SelectionParseError::Syntax);
                },
                Parsed::Overflow => {
                    return Err(SelectionParseError::Syntax);
                },
            }
        };
        assert(spec_fragments(s@) == Step::Matched(expr@, p as nat));
        if crate::text::all_whitespace_from(&s, p) {
            Ok(expr)
        } else {
            Err(SelectionParseError::ExtraInput(crate::text::string_from_chars(&s, p, s.len())))
        }
    }
}

/// The canonical text of a fragment.
pub open spec fn unparse_fragment(f: FragmentView) -> Seq<char> {
    match f {
        FragmentView::Group(name) => seq!['@'] + name,
        FragmentView::Range(a, b) => decimal(a as nat) + seq!['.', '.'] + decimal(b as nat),
        FragmentView::Single(i) => decimal(i as nat),
    }
}

/// The fragments' texts, joined by `", "`.
pub open spec fn unparse_fragments(v: Seq<FragmentView>) -> Seq<char>
    decreases v.len(),
{
    if v.len() == 0 {
        seq![]
    } else if v.len() == 1 {
        unparse_fragment(v[0])
    } else {
        unparse_fragments(v.drop_last()) + seq![',', ' '] + unparse_fragment(v.last())
    }
}

/// The canonical text of a selection.
pub open spec fn unparse_view(e: SelectionView) -> Seq<char> {
    match e {
        SelectionView::All => seq!['*'],
        SelectionView::Empty => seq![],
        SelectionView::Explicit(v) => unparse_fragments(v),
    }
}

fn push_fragment(out: &mut String, f: &SelectionFragment)
    ensures
        final(out)@ == old(out)@ + unparse_fragment(f@),
{
    match f {
        SelectionFragment::Group(name) => {
            crate::text::push_char(out, '@');
            out.append(name.as_str());
        },
        SelectionFragment::Range(r) => {
            crate::text::push_decimal(out, r.start);
            crate::text::push_char(out, '.');
            crate::text::push_char(out, '.');
            crate::text::push_decimal(out, r.end);
        },
        SelectionFragment::Single(i) => {
            crate::text::push_decimal(out, *i);
        },
    }
    assert(final(out)@ =~= old(out)@ + unparse_fragment(f@));
}

impl SelectionExpression {
    /// Returns the canonical string representation of this selection
    /// expression: `*`, the empty string, or the fragments joined by `", "`.
    pub fn unparse(&self) -> (r: String)
        ensures
            r@ == unparse_view(self@),
    {
        match self {
            SelectionExpression::All => {
                let mut out = String::new();
                crate::text::push_char(&mut out, '*');
                assert(out@ =~= seq!['*']);
                out
            },
            SelectionExpression::Empty => String::new(),
            SelectionExpression::Explicit(segments) => {
                let mut out = String::new();
                let mut i: usize = 0;
                while i < segments.len()
                    invariant
                        i <= segments@.len(),
                        out@ == unparse_fragments(fragments_view(segments@.take(i as int))),
                    decreases segments@.len() - i,
                {
                    let ghost before = out@;
                    if i > 0 {
                        crate::text::push_char(&mut out, ',');
                        crate::text::push_char(&mut out, ' ');
                    }
                    push_fragment(&mut out, &segments[i]);
                    proof {
                        let v = fragments_view(segments@.take(i + 1));
                        assert(v.drop_last() =~= fragments_view(segments@.take(i as int)));
                        assert(v.last() == segments@[i as int]@);
                        if i == 0 {
                            assert(out@ =~= unparse_fragments(v));
                        } else {
                            assert(out@ =~= unparse_fragments(v));
                        }
                    }
                    i += 1;
                }
                assert(segments@.take(segments@.len() as int) =~= segments@);
                out
            },
        }
    }
}

} // verus!

verus! {

// ---------------------------------------------------------------------------
// Round trip: parsing the canonical text of a selection gives it back.
// ---------------------------------------------------------------------------

/// A group name the grammar reads back whole: a lowercase character, then
/// ASCII letters and digits, where each `_` is followed by a letter or digit.
pub open spec fn is_identifier(name: Seq<char>) -> bool {
    &&& name.len() >= 1
    &&& lowercase_char(name[0])
    &&& forall|k: int|
        1 <= k < name.len() ==> (is_ascii_alnum(#[trigger] name[k]) || (name[k] == '_' && k + 1
            < name.len() && is_ascii_alnum(name[k + 1])))
}

pub open spec fn fragment_well_formed(f: FragmentView) -> bool {
    match f {
        FragmentView::Group(name) => is_identifier(name),
        _ => true,
    }
}

/// A selection that its canonical text describes exactly: explicit lists are
/// non-empty and their group names are identifiers.
pub open spec fn selection_well_formed(e: SelectionView) -> bool {
    match e {
        SelectionView::Explicit(v) => v.len() > 0 && forall|i: int|
            0 <= i < v.len() ==> fragment_well_formed(#[trigger] v[i]),
        _ => true,
    }
}

proof fn lemma_digits_end_of_run(s: Seq<char>, p: nat, q: nat)
    requires
        p <= q <= s.len(),
        forall|k: int| p <= k < q ==> is_ascii_digit(#[trigger] s[k]),
        q == s.len() || !is_ascii_digit(s[q as int]),
    ensures
        digits_end(s, p) == q,
    decreases q - p,
{
    if p < q {
        lemma_digits_end_of_run(s, p + 1, q);
    }
}

proof fn lemma_alnum_end_first_non_alnum(s: Seq<char>, x: nat)
    requires
        x <= s.len(),
    ensures
        x <= alnum_end(s, x) <= s.len(),
        forall|k: int| x <= k < alnum_end(s, x) ==> is_ascii_alnum(#[trigger] s[k]),
        alnum_end(s, x) == s.len() || !is_ascii_alnum(s[alnum_end(s, x) as int]),
    decreases s.len() - x,
{
    if x < s.len() && is_ascii_alnum(s[x as int]) {
        lemma_alnum_end_first_non_alnum(s, x + 1);
    }
}

/// The name `s[a..z]` is an identifier followed by a comma or the end: the
/// identifier tail from any position `x` in it where a segment starts ends
/// at `z`.
proof fn lemma_ident_rest_whole(s: Seq<char>, a: nat, z: nat, x: nat)
    requires
        a < x <= z <= s.len(),
        forall|k: int|
            a + 1 <= k < z ==> (is_ascii_alnum(#[trigger] s[k]) || (s[k] == '_' && k + 1 < z
                && is_ascii_alnum(s[k + 1]))),
        z == s.len() || s[z as int] == ',',
        x == z || is_ascii_alnum(s[x as int]) || (s[x as int] == '_' && x + 1 < z
            && is_ascii_alnum(s[(x + 1) as int])),
    ensures
        ident_rest_end(s, x) == z,
    decreases z - x,
{
    let q: nat = if x < s.len() && s[x as int] == '_' {
        x + 1
    } else {
        x
    };
    lemma_alnum_end_first_non_alnum(s, q);
    let e = alnum_end(s, q);
    if x == z {
        assert(q == x);
        if e > q {
            assert(is_ascii_alnum(s[q as int]));
        }
    } else {
        assert(e > q) by {
            assert(is_ascii_alnum(s[q as int]));
        }
        if e > z {
            assert(is_ascii_alnum(s[z as int]));
        }
        if e < z {
            assert(!is_ascii_alnum(s[e as int]));
        }
        lemma_ident_rest_whole(s, a, z, e);
    }
}

proof fn lemma_decimal_not_special(n: nat)
    ensures
        decimal(n).len() >= 1,
        is_ascii_digit(decimal(n)[0]),
        forall|k: int| 0 <= k < decimal(n).len() ==> is_ascii_digit(#[trigger] decimal(n)[k]),
        digits_value(decimal(n), 0, decimal(n).len() as int) == n,
{
    crate::text::lemma_decimal_digits(n);
}

/// Reads the decimal number `d` placed at `s[p..]` and followed by a
/// non-digit or the end.
proof fn lemma_number_at(s: Seq<char>, p: nat, d: nat)
    requires
        p + decimal(d).len() <= s.len(),
        s.subrange(p as int, (p + decimal(d).len()) as int) == decimal(d),
        d <= u32::MAX,
        p + decimal(d).len() == s.len() || !is_ascii_digit(s[(p + decimal(d).len()) as int]),
    ensures
        spec_number(s, p) == Step::Matched(d as u32, p + decimal(d).len()),
{
    let t = decimal(d);
    let q = p + t.len();
    lemma_decimal_not_special(d);
    assert forall|k: int| p <= k < q implies is_ascii_digit(#[trigger] s[k]) by {
        assert(s[k] == s.subrange(p as int, q as int)[k - p]);
    }
    lemma_digits_end_of_run(s, p, q);
    crate::text::lemma_digits_value_shift(t, s, 0, t.len() as int, p as int);
}

/// Reads the canonical text of a well formed fragment, placed at `s[p..]`
/// and followed by a comma or the end.
proof fn lemma_fragment_at(s: Seq<char>, p: nat, f: FragmentView)
    requires
        fragment_well_formed(f),
        p + unparse_fragment(f).len() <= s.len(),
        s.subrange(p as int, (p + unparse_fragment(f).len()) as int) == unparse_fragment(f),
        p + unparse_fragment(f).len() == s.len() || s[(p + unparse_fragment(f).len()) as int] == ',',
    ensures
        spec_fragment(s, p) == Step::Matched(f, p + unparse_fragment(f).len()),
{
    let u = unparse_fragment(f);
    let z = p + u.len();
    assert forall|k: int| 0 <= k < u.len() implies s[(p + k) as int] == #[trigger] u[k] by {
        assert(s.subrange(p as int, z as int)[k] == s[(p + k) as int]);
    }
    match f {
        FragmentView::Group(name) => {
            assert(u[0] == '@');
            assert(s[p as int] == '@');
            assert(s[(p + 1) as int] == u[1]);
            assert(u[1] == name[0]);
            assert forall|k: int|
                p + 2 <= k < z implies (is_ascii_alnum(#[trigger] s[k]) || (s[k] == '_' && k + 1
                < z && is_ascii_alnum(s[k + 1]))) by {
                assert(s[k] == u[k - p]);
                assert(u[k - p] == name[k - p - 1]);
                if k + 1 < z {
                    assert(s[k + 1] == u[k + 1 - p]);
                    assert(u[k + 1 - p] == name[k - p]);
                }
            }
            if p + 2 < z {
                assert(s[(p + 2) as int] == u[2]);
                assert(u[2] == name[1]);
            }
            if p + 2 < z && !is_ascii_alnum(s[(p + 2) as int]) {
                assert(name[1] == '_');
                assert(is_ascii_alnum(name[2]));
                assert(s[(p + 3) as int] == u[3]);
                assert(u[3] == name[2]);
            }
            lemma_ident_rest_whole(s, p + 1, z, p + 2);
            assert(s.subrange((p + 1) as int, z as int) =~= name) by {
                assert forall|k: int| 0 <= k < name.len() implies s.subrange(
                    (p + 1) as int,
                    z as int,
                )[k] == name[k] by {
                    assert(u[k + 1] == name[k]);
                    assert(s[(p + 1 + k) as int] == u[k + 1]);
                }
            }
        },
        FragmentView::Range(a, b) => {
            let da = decimal(a as nat);
            let db = decimal(b as nat);
            lemma_decimal_not_special(a as nat);
            lemma_decimal_not_special(b as nat);
            let j = p + da.len();
            assert(s[p as int] == u[0]);
            assert(u[0] == da[0]);
            assert(s.subrange(p as int, j as int) =~= da) by {
                assert forall|k: int| 0 <= k < da.len() implies s.subrange(p as int, j as int)[k]
                    == da[k] by {
                    assert(u[k] == da[k]);
                }
            }
            assert(s[j as int] == u[da.len() as int]);
            assert(s[(j + 1) as int] == u[(da.len() + 1) as int]);
            lemma_number_at(s, p, a as nat);
            assert(s.subrange((j + 2) as int, z as int) =~= db) by {
                assert forall|k: int| 0 <= k < db.len() implies s.subrange((j + 2) as int, z as int)[k]
                    == db[k] by {
                    assert(u[da.len() + 2 + k] == db[k]);
                    assert(s[(j + 2 + k) as int] == u[da.len() + 2 + k]);
                }
            }
            lemma_number_at(s, j + 2, b as nat);
        },
        FragmentView::Single(n) => {
            let d = decimal(n as nat);
            lemma_decimal_not_special(n as nat);
            assert(s[p as int] == d[0]);
            lemma_number_at(s, p, n as nat);
        },
    }
}

/// The canonical text of the first `k` fragments ends the text of the first
/// `j`, and a comma follows it when `k < j`.
proof fn lemma_unparse_prefix(v: Seq<FragmentView>, k: int, j: int)
    requires
        1 <= k <= j <= v.len(),
    ensures
        unparse_fragments(v.take(k)).len() <= unparse_fragments(v.take(j)).len(),
        unparse_fragments(v.take(j)).subrange(0, unparse_fragments(v.take(k)).len() as int)
            == unparse_fragments(v.take(k)),
        k < j ==> unparse_fragments(v.take(j))[unparse_fragments(v.take(k)).len() as int] == ',',
    decreases j - k,
{
    let tk = unparse_fragments(v.take(k));
    let tj = unparse_fragments(v.take(j));
    if k == j {
        assert(tj.subrange(0, tk.len() as int) =~= tk);
    } else {
        lemma_unparse_prefix(v, k, j - 1);
        let tj1 = unparse_fragments(v.take(j - 1));
        assert(v.take(j).drop_last() =~= v.take(j - 1));
        assert(tj == tj1 + seq![',', ' '] + unparse_fragment(v.take(j).last()));
        assert(tj.subrange(0, tk.len() as int) =~= tk) by {
            assert forall|i: int| 0 <= i < tk.len() implies tj[i] == tk[i] by {
                assert(tj[i] == tj1[i]);
                assert(tj1.subrange(0, tk.len() as int)[i] == tj1[i]);
            }
        }
        if k < j - 1 {
            assert(tj[tk.len() as int] == tj1[tk.len() as int]);
        } else {
            assert(tj[tj1.len() as int] == ',');
        }
    }
}

proof fn lemma_unparse_step(v: Seq<FragmentView>, k: int)
    requires
        1 <= k < v.len(),
    ensures
        unparse_fragments(v.take(k + 1)) == unparse_fragments(v.take(k)) + seq![',', ' ']
            + unparse_fragment(v[k]),
{
    assert(v.take(k + 1).drop_last() =~= v.take(k));
    assert(v.take(k + 1).last() == v[k]);
}

proof fn lemma_fragment_first_char(f: FragmentView)
    ensures
        unparse_fragment(f).len() >= 1,
        unparse_fragment(f)[0] == '@' || is_ascii_digit(unparse_fragment(f)[0]),
{
    match f {
        FragmentView::Group(name) => {},
        FragmentView::Range(a, b) => {
            lemma_decimal_not_special(a as nat);
        },
        FragmentView::Single(n) => {
            lemma_decimal_not_special(n as nat);
        },
    }
}

/// Parsing the rest of the list from the end of the `k`-th fragment reads all
/// remaining fragments.
proof fn lemma_list_rest_whole(v: Seq<FragmentView>, k: int)
    requires
        1 <= k <= v.len(),
        forall|i: int| 0 <= i < v.len() ==> fragment_well_formed(#[trigger] v[i]),
    ensures
        spec_list_rest(
            unparse_fragments(v),
            unparse_fragments(v.take(k)).len(),
            v.take(k),
        ) == Step::Matched(v, unparse_fragments(v).len()),
    decreases v.len() - k,
{
    let t = unparse_fragments(v);
    let n = v.len() as int;
    assert(v.take(n) =~= v);
    let tk = unparse_fragments(v.take(k));
    let p = tk.len();
    lemma_unparse_prefix(v, k, n);
    if k == n {
        assert(p == t.len());
        assert(ws_end(t, p) == p);
    } else {
        lemma_unparse_step(v, k);
        let tk1 = unparse_fragments(v.take(k + 1));
        let u = unparse_fragment(v[k]);
        lemma_unparse_prefix(v, k + 1, n);
        assert(t[p as int] == tk1[p as int]);
        assert(tk1[p as int] == ',');
        assert(t[(p + 1) as int] == tk1[(p + 1) as int]);
        assert(tk1[(p + 1) as int] == ' ');
        lemma_fragment_first_char(v[k]);
        assert(t[(p + 2) as int] == tk1[(p + 2) as int]);
        assert(tk1[(p + 2) as int] == u[0]);
        assert(ws_end(t, p) == p);
        assert(ws_end(t, p + 2) == p + 2);
        assert(ws_end(t, p + 1) == p + 2);
        assert(spec_separator(t, p) == Some((p + 2) as nat));
        assert(t.subrange((p + 2) as int, (p + 2 + u.len()) as int) =~= u) by {
            assert forall|i: int| 0 <= i < u.len() implies t.subrange((p + 2) as int, (p + 2 + u.len()) as int)[i]
                == u[i] by {
                assert(t[(p + 2 + i) as int] == tk1[(p + 2 + i) as int]);
            }
        }
        if k + 1 < n {
            assert(t[tk1.len() as int] == ',');
        }
        lemma_fragment_at(t, (p + 2) as nat, v[k]);
        assert(v.take(k).push(v[k]) =~= v.take(k + 1));
        lemma_list_rest_whole(v, k + 1);
    }
}

/// Parsing the canonical text of a well formed selection gives the same
/// selection back.
pub proof fn lemma_parse_unparse(e: SelectionView)
    requires
        selection_well_formed(e),
    ensures
        spec_parse(unparse_view(e)) == ParseOutcome::Parsed(e),
{
    let t = unparse_view(e);
    match e {
        SelectionView::All => {
            assert(!is_white_space(t[0]));
            assert(ws_end(t, 0) == 0);
            assert(t.subrange(1, 1) =~= Seq::<char>::empty());
        },
        SelectionView::Empty => {},
        SelectionView::Explicit(v) => {
            let n = v.len() as int;
            let t1 = unparse_fragments(v.take(1));
            let u = unparse_fragment(v[0]);
            assert(v.take(1).len() == 1);
            assert(t1 == u);
            lemma_unparse_prefix(v, 1, n);
            assert(v.take(n) =~= v);
            lemma_fragment_first_char(v[0]);
            assert(t[0] == t1[0]);
            assert(!is_white_space(t[0]));
            assert(ws_end(t, 0) == 0);
            assert(t.subrange(0, u.len() as int) =~= u);
            if 1 < n {
                assert(t[t1.len() as int] == ',');
            }
            lemma_fragment_at(t, 0, v[0]);
            assert(seq![v[0]] =~= v.take(1));
            lemma_list_rest_whole(v, 1);
            assert(t.subrange(t.len() as int, t.len() as int) =~= Seq::<char>::empty());
        },
    }
}

} // verus!
