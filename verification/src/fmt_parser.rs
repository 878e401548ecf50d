//! The format specifications of real numbers in `$display` and friends (LRM 9.4), which
//! follow C's `printf`: flags, then a width, then a precision, then the conversion.
use vstd::prelude::*;

verus! {

/// Where the parser is within a real format specification.
#[derive(PartialEq, Eq, Structural, Copy, Clone, Debug)]
pub enum ParserState {
    Flags,
    FixedWidth,
    DynamicWidth,
    AnyPrecision,
    FixedPrecision,
    DynamicPrecsion,
}

pub open spec fn spec_start_precision(s: ParserState) -> bool {
    s is Flags || s is FixedWidth || s is DynamicWidth
}

pub open spec fn spec_eat_number(s: ParserState) -> bool {
    s is FixedPrecision || s is FixedWidth
}

/// The characters that may come next in each state.
pub open spec fn spec_candidates(s: ParserState) -> Seq<char> {
    match s {
        ParserState::Flags => seq![
            '-', '+', ' ', '#', '0', '1', '2', '3', '4', '5', '6', '7', '8', '9', '*', '.',
            'e', 'E', 'f', 'F', 'g', 'G', 'r', 'R', '%', 'd', 'D', 'h', 'H', 'o', 'O', 'b',
            'B', 'c', 'C', 'm', 'M', 'l', 'L', 's', 'S',
        ],
        ParserState::FixedWidth => seq![
            '0', '1', '2', '3', '4', '5', '6', '7', '8', '9', '.', 'e', 'E', 'f', 'F', 'g',
            'G', 'r', 'R',
        ],
        ParserState::DynamicWidth => seq!['.', 'e', 'E', 'f', 'F', 'g', 'G', 'r', 'R'],
        ParserState::AnyPrecision => seq!['0', '1', '2', '3', '4', '5', '6', '7', '8', '9', '*'],
        ParserState::FixedPrecision => seq![
            '0', '1', '2', '3', '4', '5', '6', '7', '8', '9', 'e', 'E', 'f', 'F', 'g', 'G',
            'r', 'R',
        ],
        ParserState::DynamicPrecsion => seq!['e', 'E', 'f', 'F', 'g', 'G', 'r', 'R'],
    }
}

impl ParserState {
    /// A `.` may still start the precision: no precision has been seen yet.
    pub fn start_precision(self) -> (r: bool)
        ensures
            r == spec_start_precision(self),
    {
        matches!(self, ParserState::Flags | ParserState::FixedWidth | ParserState::DynamicWidth)
    }

    /// Further digits extend the number being read.
    pub fn eat_number(self) -> (r: bool)
        ensures
            r == spec_eat_number(self),
    {
        matches!(self, ParserState::FixedPrecision | ParserState::FixedWidth)
    }

    /// The characters that are valid in this state, for error messages.
    pub fn candidates(self) -> (r: Vec<char>)
        ensures
            r@ == spec_candidates(self),
    {
        let r = match self {
            ParserState::Flags => vec![
                '-', '+', ' ', '#', '0', '1', '2', '3', '4', '5', '6', '7', '8', '9', '*', '.',
                'e', 'E', 'f', 'F', 'g', 'G', 'r', 'R', '%', 'd', 'D', 'h', 'H', 'o', 'O', 'b',
                'B', 'c', 'C', 'm', 'M', 'l', 'L', 's', 'S',
            ],
            ParserState::FixedWidth => vec![
                '0', '1', '2', '3', '4', '5', '6', '7', '8', '9', '.', 'e', 'E', 'f', 'F', 'g',
                'G', 'r', 'R',
            ],
            ParserState::DynamicWidth => vec!['.', 'e', 'E', 'f', 'F', 'g', 'G', 'r', 'R'],
            ParserState::AnyPrecision => vec!['0', '1', '2', '3', '4', '5', '6', '7', '8', '9', '*'],
            ParserState::FixedPrecision => vec![
                '0', '1', '2', '3', '4', '5', '6', '7', '8', '9', 'e', 'E', 'f', 'F', 'g', 'G',
                'r', 'R',
            ],
            ParserState::DynamicPrecsion => vec!['e', 'E', 'f', 'F', 'g', 'G', 'r', 'R'],
        };
        proof {
            assert(r@ =~= spec_candidates(self));
        }
        r
    }
}

/// A byte range `start..end` of a literal.
#[derive(PartialEq, Eq, Structural, Clone, Copy, Debug)]
pub struct TextRange {
    pub start: u32,
    pub end: u32,
}

/// A malformed real format specification.
#[derive(PartialEq, Eq, Clone, Debug)]
pub enum FmtSpecError {
    /// `err_char`, at byte range `lit_range` of literal `fmt_lit`, cannot come here;
    /// `candidates` could.
    InvalidFmtSpecifierChar { fmt_lit: u32, lit_range: TextRange, err_char: char, candidates: Vec<char> },
    /// The literal ends inside the specification, which spans `lit_range`.
    InvalidFmtSpecifierEnd { fmt_lit: u32, lit_range: TextRange },
}

/// A format specification error as a value.
pub enum FmtSpecErrorView {
    InvalidFmtSpecifierChar { fmt_lit: u32, lit_range: TextRange, err_char: char, candidates: Seq<char> },
    InvalidFmtSpecifierEnd { fmt_lit: u32, lit_range: TextRange },
}

impl View for FmtSpecError {
    type V = FmtSpecErrorView;

    open spec fn view(&self) -> FmtSpecErrorView {
        match self {
            FmtSpecError::InvalidFmtSpecifierChar { fmt_lit, lit_range, err_char, candidates } =>
                FmtSpecErrorView::InvalidFmtSpecifierChar {
                fmt_lit: *fmt_lit,
                lit_range: *lit_range,
                err_char: *err_char,
                candidates: candidates@,
            },
            FmtSpecError::InvalidFmtSpecifierEnd { fmt_lit, lit_range } =>
                FmtSpecErrorView::InvalidFmtSpecifierEnd { fmt_lit: *fmt_lit, lit_range: *lit_range },
        }
    }
}

/// The view of an optional error.
pub open spec fn err_view(e: Option<FmtSpecError>) -> Option<FmtSpecErrorView> {
    match e {
        Some(x) => Some(x@),
        None => None,
    }
}

/// The result of parsing one specification: the offsets of the `*` that take an integer
/// argument, the error if any, and the end offset of what was read.
pub struct ParseResult {
    pub dynamic_args: Vec<u32>,
    pub err: Option<FmtSpecError>,
    pub end: u32,
}

/// The number of bytes of `c` in UTF-8.
pub open spec fn spec_len_utf8(c: char) -> int {
    let v = c as u32;
    if v < 0x80 {
        1
    } else if v < 0x800 {
        2
    } else if v < 0x10000 {
        3
    } else {
        4
    }
}

fn len_utf8(c: char) -> (r: usize)
    ensures
        r == spec_len_utf8(c),
{
    let v = c as u32;
    if v < 0x80 {
        1
    } else if v < 0x800 {
        2
    } else if v < 0x10000 {
        3
    } else {
        4
    }
}

pub open spec fn is_digit(c: char) -> bool {
    '0' <= c <= '9'
}

/// The conversion characters that end a real specification.
pub open spec fn is_conversion(c: char) -> bool {
    ('e' <= c <= 'g') || ('E' <= c <= 'G') || c == 'r' || c == 'R'
}

/// What one character does in a given state.
pub enum Step {
    /// Go on in the given state; the flag tells whether the character was a `*`
    /// that takes an argument.
    Next(ParserState, bool),
    /// The conversion character: the specification is complete.
    Finish,
    /// The character is not allowed here.
    Invalid,
}

pub open spec fn step(state: ParserState, c: char) -> Step {
    if state is Flags && (c == '-' || c == '+' || c == ' ' || c == '#') {
        Step::Next(state, false)
    } else if state is Flags && is_digit(c) {
        Step::Next(ParserState::FixedWidth, false)
    } else if state is Flags && c == '*' {
        Step::Next(ParserState::DynamicWidth, true)
    } else if c == '.' && spec_start_precision(state) {
        Step::Next(ParserState::AnyPrecision, false)
    } else if is_digit(c) && state is AnyPrecision {
        Step::Next(ParserState::FixedPrecision, false)
    } else if c == '*' && state is AnyPrecision {
        Step::Next(ParserState::DynamicPrecsion, true)
    } else if is_digit(c) && spec_eat_number(state) {
        Step::Next(state, false)
    } else if is_conversion(c) && !(state is AnyPrecision) {
        Step::Finish
    } else {
        Step::Invalid
    }
}

/// The outcome of a parse, as values: dynamic argument offsets, the error, the end
/// offset and the position in the character list after the parse.
pub struct Outcome {
    pub dynamic_args: Seq<u32>,
    pub err: Option<FmtSpecErrorView>,
    pub end: u32,
    pub cursor: int,
}

/// The offsets of the characters leave room for a character after them in a `u32`.
pub open spec fn offsets_fit(chars: Seq<(usize, char)>) -> bool {
    forall|i: int| 0 <= i < chars.len() ==> (#[trigger] chars[i]).0 + 4 <= u32::MAX
}

/// The parse of a real specification whose current character is `pos` (already taken
/// from the characters), the next characters being those of `chars` from `cursor` on.
pub open spec fn run(
    fmt_lit: u32,
    start: u32,
    chars: Seq<(usize, char)>,
    pos: Option<(usize, char)>,
    cursor: int,
    state: ParserState,
    end: u32,
    dynamic_args: Seq<u32>,
) -> Outcome
    decreases chars.len() - cursor + (if pos is Some { 1int } else { 0int }),
{
    match pos {
        None => Outcome {
            dynamic_args,
            err: Some(FmtSpecErrorView::InvalidFmtSpecifierEnd { fmt_lit, lit_range: TextRange { start, end } }),
            end,
            cursor,
        },
        Some((off, c)) => {
            let new_end = (off + spec_len_utf8(c)) as u32;
            match step(state, c) {
                Step::Next(next, dynamic) => {
                    let args = if dynamic { dynamic_args.push(off as u32) } else { dynamic_args };
                    if cursor < 0 || cursor >= chars.len() {
                        Outcome {
                            dynamic_args: args,
                            err: Some(FmtSpecErrorView::InvalidFmtSpecifierEnd { fmt_lit, lit_range: TextRange { start, end: new_end } }),
                            end: new_end,
                            cursor,
                        }
                    } else {
                        run(fmt_lit, start, chars, Some(chars[cursor]), cursor + 1, next, new_end, args)
                    }
                },
                Step::Finish => Outcome { dynamic_args, err: None, end: new_end, cursor },
                Step::Invalid => Outcome {
                    dynamic_args,
                    err: Some(
                        FmtSpecErrorView::InvalidFmtSpecifierChar {
                            fmt_lit,
                            lit_range: TextRange { start: off as u32, end: new_end },
                            err_char: c,
                            candidates: spec_candidates(state),
                        },
                    ),
                    end: new_end,
                    cursor,
                },
            }
        },
    }
}

/// A flag character of a specification.
pub open spec fn is_flag(c: char) -> bool {
    c == '-' || c == '+' || c == ' ' || c == '#'
}

/// The characters of `w` before `i` are flags.
pub open spec fn flags_before(w: Seq<char>, i: int) -> bool {
    forall|k: int| 0 <= k < i ==> is_flag(#[trigger] w[k])
}

/// The characters of `w` from `a` to `b` are digits.
pub open spec fn digits_between(w: Seq<char>, a: int, b: int) -> bool {
    forall|k: int| a <= k < b ==> is_digit(#[trigger] w[k])
}

/// The characters of `w` from `i` to `j` are a width: nothing, digits or a `*`.
pub open spec fn width_at(w: Seq<char>, i: int, j: int) -> bool {
    i == j || (j == i + 1 && w[i] == '*') || (i < j && digits_between(w, i, j))
}

/// The characters of `w` from `j` to `e` are a precision: nothing, or a `.` followed by
/// digits or a `*`.
pub open spec fn precision_at(w: Seq<char>, j: int, e: int) -> bool {
    j == e || (j + 2 <= e && w[j] == '.' && ((e == j + 2 && w[j + 1] == '*') || digits_between(w, j + 1, e)))
}

/// The first `m` characters of `w` are a real specification split at `i` and `j`: flags
/// before `i`, a width from `i` to `j`, a precision from `j` on, and the conversion last.
pub open spec fn spec_shape(w: Seq<char>, m: int, i: int, j: int) -> bool {
    &&& 0 <= i <= j < m <= w.len()
    &&& flags_before(w, i)
    &&& width_at(w, i, j)
    &&& precision_at(w, j, m - 1)
    &&& is_conversion(w[m - 1])
}

/// The first `m` characters of `w` are a real format specification, that is a word of
/// `[-+ #]* ([0-9]+ | '*')? ('.' ([0-9]+ | '*'))? [efgEFGrR]`.
pub open spec fn real_spec_prefix(w: Seq<char>, m: int) -> bool {
    exists|i: int, j: int| #[trigger] spec_shape(w, m, i, j)
}

/// The characters of a specification after the `%`: the one of `pos`, then those of
/// `chars` from `cursor` on.
pub open spec fn spec_text(pos: Option<(usize, char)>, chars: Seq<(usize, char)>, cursor: int) -> Seq<char> {
    match pos {
        None => Seq::empty(),
        Some(p) => seq![p.1] + chars.subrange(cursor, chars.len() as int).map_values(|q: (usize, char)| q.1),
    }
}

/// Reading the first `n` characters of `w` leaves the parser in state `st`.
pub open spec fn read_as(w: Seq<char>, n: int, st: ParserState) -> bool {
    &&& 0 <= n <= w.len()
    &&& match st {
        ParserState::Flags => flags_before(w, n),
        ParserState::FixedWidth => exists|i: int| 0 <= i < n && #[trigger] flags_before(w, i) && digits_between(w, i, n),
        ParserState::DynamicWidth => n >= 1 && flags_before(w, n - 1) && w[n - 1] == '*',
        ParserState::AnyPrecision => exists|i: int|
            0 <= i <= n - 1 && #[trigger] flags_before(w, i) && width_at(w, i, n - 1) && w[n - 1] == '.',
        ParserState::FixedPrecision => exists|i: int, j: int|
            0 <= i <= j && j + 1 < n && #[trigger] width_at(w, i, j) && flags_before(w, i) && w[j] == '.'
                && digits_between(w, j + 1, n),
        ParserState::DynamicPrecsion => exists|i: int, j: int|
            0 <= i <= j && j + 2 == n && #[trigger] width_at(w, i, j) && flags_before(w, i) && w[j] == '.'
                && w[j + 1] == '*',
    }
}

/// A step that goes on keeps the characters read in the grammar's prefix for the new
/// state; a step that finishes completes a specification.
proof fn lemma_step_sound(w: Seq<char>, n: int, st: ParserState)
    requires
        read_as(w, n, st),
        n < w.len(),
    ensures
        step(st, w[n]) matches Step::Next(nx, _) ==> read_as(w, n + 1, nx),
        step(st, w[n]) is Finish ==> real_spec_prefix(w, n + 1),
{
    let c = w[n];
    match st {
        ParserState::Flags => {
            if is_digit(c) && !is_flag(c) {
                assert(digits_between(w, n, n + 1));
            }
            if c == '.' {
                assert(width_at(w, n, n));
            }
            if is_conversion(c) {
                assert(spec_shape(w, n + 1, n, n));
            }
        },
        ParserState::FixedWidth => {
            let i = choose|i: int| 0 <= i < n && #[trigger] flags_before(w, i) && digits_between(w, i, n);
            if is_digit(c) {
                assert(digits_between(w, i, n + 1));
            }
            if c == '.' {
                assert(width_at(w, i, n));
            }
            if is_conversion(c) {
                assert(spec_shape(w, n + 1, i, n));
            }
        },
        ParserState::DynamicWidth => {
            if c == '.' {
                assert(width_at(w, n - 1, n));
                assert(flags_before(w, n - 1));
            }
            if is_conversion(c) {
                assert(spec_shape(w, n + 1, n - 1, n));
            }
        },
        ParserState::AnyPrecision => {
            let i = choose|i: int| 0 <= i <= n - 1 && #[trigger] flags_before(w, i) && width_at(w, i, n - 1) && w[n - 1] == '.';
            if is_digit(c) {
                assert(digits_between(w, n, n + 1));
                assert(width_at(w, i, n - 1));
            }
            if c == '*' {
                assert(width_at(w, i, n - 1));
            }
        },
        ParserState::FixedPrecision => {
            let (i, j) = choose|i: int, j: int|
                0 <= i <= j && j + 1 < n && #[trigger] width_at(w, i, j) && flags_before(w, i) && w[j] == '.'
                    && digits_between(w, j + 1, n);
            if is_digit(c) {
                assert(digits_between(w, j + 1, n + 1));
                assert(width_at(w, i, j));
            }
            if is_conversion(c) {
                assert(spec_shape(w, n + 1, i, j));
            }
        },
        ParserState::DynamicPrecsion => {
            let (i, j) = choose|i: int, j: int|
                0 <= i <= j && j + 2 == n && #[trigger] width_at(w, i, j) && flags_before(w, i) && w[j] == '.'
                    && w[j + 1] == '*';
            if is_conversion(c) {
                assert(spec_shape(w, n + 1, i, j));
            }
        },
    }
}

/// What each character of a specification split at `i` and `j` is.
proof fn lemma_shape_chars(w: Seq<char>, m: int, i: int, j: int, k: int)
    requires
        spec_shape(w, m, i, j),
        0 <= k < m,
    ensures
        k < i ==> is_flag(w[k]),
        i <= k < j ==> is_digit(w[k]) || w[k] == '*',
        i <= k < j && w[i] == '*' ==> k == i,
        k == j && j < m - 1 ==> w[k] == '.',
        j < k < m - 1 ==> is_digit(w[k]) || w[k] == '*',
        j < k < m - 1 && w[j + 1] == '*' ==> k == j + 1,
        k == m - 1 ==> is_conversion(w[k]),
{
    if i <= k < j && !(j == i + 1 && w[i] == '*') {
        assert(digits_between(w, i, j));
    }
    if j < k < m - 1 && !(m - 1 == j + 2 && w[j + 1] == '*') {
        assert(digits_between(w, j + 1, m - 1));
        assert(is_digit(w[j + 1]));
    }
}

/// Reading on in a specification: after a prefix of the specification read in state `st`,
/// the next character goes on unless it is the last, which finishes.
proof fn lemma_step_complete(w: Seq<char>, n: int, st: ParserState, m: int, i: int, j: int)
    requires
        read_as(w, n, st),
        spec_shape(w, m, i, j),
        n < m,
    ensures
        m == n + 1 ==> step(st, w[n]) is Finish,
        m > n + 1 ==> step(st, w[n]) is Next,
{
    lemma_shape_chars(w, m, i, j, n);
    match st {
        ParserState::Flags => {
            if i < n {
                lemma_shape_chars(w, m, i, j, i);
            }
        },
        ParserState::FixedWidth => {
            let i0 = choose|i0: int| 0 <= i0 < n && #[trigger] flags_before(w, i0) && digits_between(w, i0, n);
            lemma_shape_chars(w, m, i, j, i0);
            assert(is_digit(w[i0]));
            if i < i0 {
                assert(is_flag(w[i]));
                lemma_shape_chars(w, m, i, j, i);
            }
            assert(i == i0);
            if j < n {
                assert(is_digit(w[j]));
                lemma_shape_chars(w, m, i, j, j);
            }
        },
        ParserState::DynamicWidth => {
            lemma_shape_chars(w, m, i, j, n - 1);
            if i < n - 1 {
                assert(is_flag(w[i]));
                lemma_shape_chars(w, m, i, j, i);
            }
            assert(i == n - 1);
            if j > n {
                lemma_shape_chars(w, m, i, j, n);
            }
        },
        ParserState::AnyPrecision => {
            let i0 = choose|i0: int| 0 <= i0 <= n - 1 && #[trigger] flags_before(w, i0) && width_at(w, i0, n - 1) && w[n - 1] == '.';
            lemma_shape_chars(w, m, i, j, n - 1);
        },
        ParserState::FixedPrecision => {
            let (i0, j0) = choose|i0: int, j0: int|
                0 <= i0 <= j0 && j0 + 1 < n && #[trigger] width_at(w, i0, j0) && flags_before(w, i0) && w[j0] == '.'
                    && digits_between(w, j0 + 1, n);
            lemma_shape_chars(w, m, i, j, j0);
            assert(j0 == j);
            lemma_shape_chars(w, m, i, j, j0 + 1);
            assert(is_digit(w[j0 + 1]));
            lemma_shape_chars(w, m, i, j, n - 1);
            assert(is_digit(w[n - 1]));
        },
        ParserState::DynamicPrecsion => {
            let (i0, j0) = choose|i0: int, j0: int|
                0 <= i0 <= j0 && j0 + 2 == n && #[trigger] width_at(w, i0, j0) && flags_before(w, i0) && w[j0] == '.'
                    && w[j0 + 1] == '*';
            lemma_shape_chars(w, m, i, j, j0);
            assert(j0 == j);
            lemma_shape_chars(w, m, i, j, j0 + 1);
        },
    }
}

/// The parse from the `k`-th character of `w` on, in state `st`, succeeds exactly when a
/// longer prefix of `w` is a specification, and then stops right after it.
proof fn lemma_run_grammar(
    fmt_lit: u32,
    start: u32,
    chars: Seq<(usize, char)>,
    p: (usize, char),
    ck: int,
    st: ParserState,
    end: u32,
    args: Seq<u32>,
    w: Seq<char>,
    k: int,
)
    requires
        0 <= ck <= chars.len(),
        0 <= k,
        w.len() == k + 1 + chars.len() - ck,
        p.1 == w[k],
        forall|t: int| ck <= t < chars.len() ==> (#[trigger] chars[t]).1 == w[k + 1 + t - ck],
        read_as(w, k, st),
    ensures
        ({
            let o = run(fmt_lit, start, chars, Some(p), ck, st, end, args);
            &&& o.err is None <==> exists|m: int| k < m <= w.len() && #[trigger] real_spec_prefix(w, m)
            &&& forall|m: int| k < m <= w.len() && #[trigger] real_spec_prefix(w, m) ==> o.cursor == ck + m - k - 1
        }),
    decreases chars.len() - ck,
{
    let c = p.1;
    lemma_step_sound(w, k, st);
    let o = run(fmt_lit, start, chars, Some(p), ck, st, end, args);
    match step(st, c) {
        Step::Next(nx, dynamic) => {
            assert forall|m: int| k < m <= w.len() && #[trigger] real_spec_prefix(w, m) implies m > k + 1 by {
                let (i, j) = choose|i: int, j: int| #[trigger] spec_shape(w, m, i, j);
                lemma_step_complete(w, k, st, m, i, j);
            }
            if ck < chars.len() {
                let new_end = (p.0 + spec_len_utf8(c)) as u32;
                let args2 = if dynamic { args.push(p.0 as u32) } else { args };
                lemma_run_grammar(fmt_lit, start, chars, chars[ck], ck + 1, nx, new_end, args2, w, k + 1);
            }
        },
        Step::Finish => {
            assert forall|m: int| k < m <= w.len() && #[trigger] real_spec_prefix(w, m) implies m == k + 1 by {
                let (i, j) = choose|i: int, j: int| #[trigger] spec_shape(w, m, i, j);
                lemma_step_complete(w, k, st, m, i, j);
            }
            assert(real_spec_prefix(w, k + 1));
        },
        Step::Invalid => {
            assert forall|m: int| k < m <= w.len() implies !#[trigger] real_spec_prefix(w, m) by {
                if real_spec_prefix(w, m) {
                    let (i, j) = choose|i: int, j: int| #[trigger] spec_shape(w, m, i, j);
                    lemma_step_complete(w, k, st, m, i, j);
                }
            }
        },
    }
}

/// The parse of a real specification succeeds exactly when the characters after the `%`
/// begin with a specification (a word of `[-+ #]* ([0-9]+ | '*')? ('.' ([0-9]+ | '*'))?
/// [efgEFGrR]`), and it then reads exactly that specification: it leaves the cursor after
/// its last character.
pub proof fn lemma_parse_grammar(
    fmt_expr: u32,
    start: u32,
    pos: Option<(usize, char)>,
    chars: Seq<(usize, char)>,
    cursor: int,
)
    requires
        0 <= cursor <= chars.len(),
    ensures
        ({
            let o = run(fmt_expr, start, chars, pos, cursor, ParserState::Flags, (start + 1) as u32, Seq::empty());
            let w = spec_text(pos, chars, cursor);
            &&& o.err is None <==> exists|m: int| 0 < m <= w.len() && #[trigger] real_spec_prefix(w, m)
            &&& forall|m: int| 0 < m <= w.len() && #[trigger] real_spec_prefix(w, m) ==> o.cursor == cursor + m - 1
        }),
{
    if let Some(p) = pos {
        let w = spec_text(pos, chars, cursor);
        let rest = chars.subrange(cursor, chars.len() as int).map_values(|q: (usize, char)| q.1);
        assert(w == seq![p.1] + rest);
        assert forall|t: int| cursor <= t < chars.len() implies (#[trigger] chars[t]).1 == w[1 + t - cursor] by {
            assert(rest[t - cursor] == chars[t].1);
        }
        lemma_run_grammar(fmt_expr, start, chars, p, cursor, ParserState::Flags, (start + 1) as u32, Seq::empty(), w, 0);
    }
}

fn digit(c: char) -> (r: bool)
    ensures
        r == is_digit(c),
{
    '0' <= c && c <= '9'
}

/// Parse the rest of a real format specification. `start` is the offset of the `%`,
/// `pos` the character after it (already taken), and the characters after that are
/// `chars` from `*cursor` on; the parse advances `*cursor` past what it reads. It stops
/// at the conversion character, at the first character that cannot come next, or at the
/// end of the literal (both errors).
pub fn parse_real_fmt_spec(
    start: u32,
    fmt_expr: u32,
    pos: Option<(usize, char)>,
    chars: &Vec<(usize, char)>,
    cursor: &mut usize,
) -> (r: ParseResult)
    requires
        start < u32::MAX,
        offsets_fit(chars@),
        pos matches Some((off, _)) ==> off + 4 <= u32::MAX,
        *old(cursor) <= chars@.len(),
    ensures
        ({
            let o = run(fmt_expr, start, chars@, pos, *old(cursor) as int, ParserState::Flags, (start + 1) as u32, Seq::empty());
            &&& r.dynamic_args@ == o.dynamic_args
            &&& err_view(r.err) == o.err
            &&& r.end == o.end
            &&& *final(cursor) == o.cursor
        }),
{
    let ghost target = run(fmt_expr, start, chars@, pos, *cursor as int, ParserState::Flags, (start + 1) as u32, Seq::empty());
    let mut state = ParserState::Flags;
    let mut end: u32 = start + 1;
    let mut dynamic_args: Vec<u32> = Vec::new();
    let mut cur = pos;
    loop
        invariant
            offsets_fit(chars@),
            *cursor <= chars@.len(),
            cur matches Some((off, _)) ==> off + 4 <= u32::MAX,
            run(fmt_expr, start, chars@, cur, *cursor as int, state, end, dynamic_args@) == target,
            target == run(fmt_expr, start, chars@, pos, *old(cursor) as int, ParserState::Flags, (start + 1) as u32, Seq::empty()),
        decreases chars@.len() - *cursor + (if cur is Some { 1int } else { 0int }),
    {
        match cur {
            None => {
                return ParseResult {
                    dynamic_args,
                    err: Some(FmtSpecError::InvalidFmtSpecifierEnd { fmt_lit: fmt_expr, lit_range: TextRange { start, end } }),
                    end,
                };
            },
            Some((off, c)) => {
                let new_end = (off + len_utf8(c)) as u32;
                end = new_end;
                let mut next = state;
                let mut dynamic = false;
                let mut finish = false;
                let mut invalid = false;
                if state == ParserState::Flags && (c == '-' || c == '+' || c == ' ' || c == '#') {
                } else if state == ParserState::Flags && digit(c) {
                    next = ParserState::FixedWidth;
                } else if state == ParserState::Flags && c == '*' {
                    next = ParserState::DynamicWidth;
                    dynamic = true;
                } else if c == '.' && state.start_precision() {
                    next = ParserState::AnyPrecision;
                } else if digit(c) && state == ParserState::AnyPrecision {
                    next = ParserState::FixedPrecision;
                } else if c == '*' && state == ParserState::AnyPrecision {
                    next = ParserState::DynamicPrecsion;
                    dynamic = true;
                } else if digit(c) && state.eat_number() {
                } else if (('e' <= c && c <= 'g') || ('E' <= c && c <= 'G') || c == 'r' || c == 'R')
                    && state != ParserState::AnyPrecision {
                    finish = true;
                } else {
                    invalid = true;
                }
                if finish {
                    proof {
                        assert(step(state, c) is Finish);
                    }
                    return ParseResult { dynamic_args, err: None, end };
                }
                if invalid {
                    let candidates = state.candidates();
                    return ParseResult {
                        dynamic_args,
                        err: Some(
                            FmtSpecError::InvalidFmtSpecifierChar {
                                fmt_lit: fmt_expr,
                                lit_range: TextRange { start: off as u32, end },
                                err_char: c,
                                candidates,
                            },
                        ),
                        end,
                    };
                }
                if dynamic {
                    dynamic_args.push(off as u32);
                }
                state = next;
                if *cursor < chars.len() {
                    cur = Some(chars[*cursor]);
                    *cursor = *cursor + 1;
                } else {
                    cur = None;
                }
            },
        }
    }
}

/// How many more `*` the specification may still take in each state: one for the width
/// and one for the precision.
pub open spec fn star_budget(s: ParserState) -> int {
    match s {
        ParserState::Flags => 2,
        ParserState::FixedWidth | ParserState::DynamicWidth | ParserState::AnyPrecision => 1,
        ParserState::FixedPrecision | ParserState::DynamicPrecsion => 0,
    }
}

/// `p` is a character of the specification: the first one, `pos0`, or one of `chars`.
pub open spec fn in_input(pos0: Option<(usize, char)>, chars: Seq<(usize, char)>, p: (usize, char)) -> bool {
    pos0 == Some(p) || chars.contains(p)
}

/// The offsets of `chars` increase.
pub open spec fn offsets_increase(chars: Seq<(usize, char)>) -> bool {
    forall|i: int, j: int| 0 <= i < j < chars.len() ==> (#[trigger] chars[i]).0 < (#[trigger] chars[j]).0
}

/// The argument offsets increase and each is the offset of a `*` of the specification.
pub open spec fn stars_ok(pos0: Option<(usize, char)>, chars: Seq<(usize, char)>, args: Seq<u32>) -> bool {
    &&& forall|i: int, j: int| 0 <= i < j < args.len() ==> (#[trigger] args[i]) < (#[trigger] args[j])
    &&& forall|i: int|
        #![trigger args[i]]
        0 <= i < args.len() ==> exists|p: (usize, char)| #[trigger] in_input(pos0, chars, p) && p.1 == '*' && p.0 == args[i]
}

/// The shape of every parse, step by step.
proof fn lemma_run_shape(
    fmt_lit: u32,
    start: u32,
    pos0: Option<(usize, char)>,
    chars: Seq<(usize, char)>,
    pos: Option<(usize, char)>,
    cursor: int,
    state: ParserState,
    end: u32,
    args: Seq<u32>,
)
    requires
        offsets_increase(chars),
        offsets_fit(chars),
        0 <= cursor <= chars.len(),
        pos matches Some(p) ==> {
            &&& in_input(pos0, chars, p)
            &&& p.0 + 4 <= u32::MAX
            &&& p.0 > start
            &&& forall|k: int| cursor <= k < chars.len() ==> p.0 < (#[trigger] chars[k]).0
            &&& forall|i: int| 0 <= i < args.len() ==> (#[trigger] args[i]) < p.0
        },
        stars_ok(pos0, chars, args),
        args.len() + star_budget(state) <= 2,
        end > start,
    ensures
        ({
            let o = run(fmt_lit, start, chars, pos, cursor, state, end, args);
            &&& o.dynamic_args.len() <= 2
            &&& stars_ok(pos0, chars, o.dynamic_args)
            &&& o.end > start
            &&& o.err is None ==> exists|p: (usize, char)|
                #[trigger] in_input(pos0, chars, p) && is_conversion(p.1) && p.0 + spec_len_utf8(p.1) == o.end
        }),
    decreases chars.len() - cursor + (if pos is Some { 1int } else { 0int }),
{
    match pos {
        None => {},
        Some((off, c)) => {
            let new_end = (off + spec_len_utf8(c)) as u32;
            assert(new_end == off + spec_len_utf8(c));
            match step(state, c) {
                Step::Next(next, dynamic) => {
                    let args2 = if dynamic { args.push(off as u32) } else { args };
                    assert(star_budget(next) + (if dynamic { 1int } else { 0int }) <= star_budget(state));
                    assert(stars_ok(pos0, chars, args2)) by {
                        if dynamic {
                            assert(c == '*');
                            assert forall|i: int| #![trigger args2[i]] 0 <= i < args2.len() implies exists|p: (usize, char)|
                                #[trigger] in_input(pos0, chars, p) && p.1 == '*' && p.0 == args2[i] by {
                                if i == args.len() {
                                    assert(in_input(pos0, chars, (off, c)));
                                } else {
                                    assert(args2[i] == args[i]);
                                }
                            }
                        }
                    }
                    if 0 <= cursor < chars.len() {
                        let q = chars[cursor];
                        assert(chars.contains(q));
                        assert forall|k: int| cursor + 1 <= k < chars.len() implies q.0 < (#[trigger] chars[k]).0 by {}
                        lemma_run_shape(fmt_lit, start, pos0, chars, Some(q), cursor + 1, next, new_end, args2);
                    }
                },
                Step::Finish => {
                    assert(is_conversion(c));
                    assert(in_input(pos0, chars, (off, c)));
                },
                Step::Invalid => {},
            }
        },
    }
}

/// Every parse of a real specification reads at most two `*` arguments, whose offsets
/// increase and lie at `*` characters of the specification; it ends past the `%`; and a
/// parse without error ends right after a conversion character (`e f g E F G r R`).
pub proof fn lemma_parse_shape(
    fmt_expr: u32,
    start: u32,
    pos: Option<(usize, char)>,
    chars: Seq<(usize, char)>,
    cursor: int,
)
    requires
        start < u32::MAX,
        offsets_increase(chars),
        offsets_fit(chars),
        0 <= cursor <= chars.len(),
        pos matches Some(p) ==> p.0 > start && p.0 + 4 <= u32::MAX && forall|k: int|
            cursor <= k < chars.len() ==> p.0 < (#[trigger] chars[k]).0,
    ensures
        ({
            let o = run(fmt_expr, start, chars, pos, cursor, ParserState::Flags, (start + 1) as u32, Seq::empty());
            &&& o.dynamic_args.len() <= 2
            &&& stars_ok(pos, chars, o.dynamic_args)
            &&& o.end > start
            &&& o.err is None ==> exists|p: (usize, char)|
                #[trigger] in_input(pos, chars, p) && is_conversion(p.1) && p.0 + spec_len_utf8(p.1) == o.end
        }),
{
    lemma_run_shape(fmt_expr, start, pos, chars, pos, cursor, ParserState::Flags, (start + 1) as u32, Seq::empty());
}

} // verus!
