//! The front end of the infix calculator: splitting an expression into tokens and
//! reordering the tokens into reverse Polish notation by the shunting-yard algorithm.
//! Evaluating the reverse Polish notation is floating-point work and lies outside.
use vstd::prelude::*;
use crate::text::{is_ascii_digit, pop_char, push_char};
use vstd::multiset::Multiset;

verus! {

/// Error of `tokenize`: a character that belongs to no token.
pub const ERR_INVALID_CHARACTER: &'static str = "Nieprawidłowy znak w wyrażeniu";

/// Error of `shunting_yard`: a `)` with no `(` before it.
pub const ERR_MISSING_OPENING: &'static str = "Brakujący nawias otwierający";

/// Error of `shunting_yard`: a token that is no number, operator or parenthesis.
pub const ERR_UNKNOWN_TOKEN: &'static str = "Nieznany token";

/// Error of `shunting_yard`: a `(` that is never closed.
pub const ERR_MISSING_CLOSING: &'static str = "Brakujący nawias zamykający";

// ---------------------------------------------------------------------------
// Tokenizing
// ---------------------------------------------------------------------------

/// Characters that make up numbers: ASCII digits, `.`, and `,` (read as `.`).
pub open spec fn is_number_char(c: char) -> bool {
    is_ascii_digit(c) || c == '.' || c == ','
}

/// Characters that form a token of their own.
pub open spec fn is_operator_char(c: char) -> bool {
    c == '+' || c == '-' || c == '*' || c == '/' || c == '(' || c == ')'
}

/// Characters that `tokenize` accepts: number characters, operators and the space.
pub open spec fn is_expression_char(c: char) -> bool {
    is_number_char(c) || is_operator_char(c) || c == ' '
}

/// A number character as it is stored in a token: `,` becomes `.`.
pub open spec fn normalized(c: char) -> char {
    if c == ',' {
        '.'
    } else {
        c
    }
}

/// The tokens so far, with the pending number appended if there is one.
pub open spec fn flush(tokens: Seq<Seq<char>>, pending: Seq<char>) -> Seq<Seq<char>> {
    if pending.len() > 0 {
        tokens.push(pending)
    } else {
        tokens
    }
}

/// One character of input read by the tokenizer, whose state is the list of finished
/// tokens and the number being read; `None` for a character outside the expression alphabet.
pub open spec fn lex_step(state: (Seq<Seq<char>>, Seq<char>), c: char) -> Option<
    (Seq<Seq<char>>, Seq<char>),
> {
    if is_number_char(c) {
        Some((state.0, state.1.push(normalized(c))))
    } else if c == ' ' {
        Some((flush(state.0, state.1), Seq::empty()))
    } else if is_operator_char(c) {
        Some((flush(state.0, state.1).push(seq![c]), Seq::empty()))
    } else {
        None
    }
}

/// The tokenizer's state after reading all of `s` from the left.
pub open spec fn lex_prefix(s: Seq<char>) -> Option<(Seq<Seq<char>>, Seq<char>)>
    decreases s.len(),
{
    if s.len() == 0 {
        Some((Seq::empty(), Seq::empty()))
    } else {
        match lex_prefix(s.drop_last()) {
            Some(state) => lex_step(state, s.last()),
            None => None,
        }
    }
}

/// The tokens of `s`: maximal runs of number characters (with `,` read as `.`) and
/// single operator characters, in order, spaces dropped; `None` where `s` holds a
/// character outside the expression alphabet.
pub open spec fn tokens_of(s: Seq<char>) -> Option<Seq<Seq<char>>> {
    match lex_prefix(s) {
        Some(state) => Some(flush(state.0, state.1)),
        None => None,
    }
}

/// The character sequences that a list of strings holds.
pub open spec fn token_views(v: Seq<String>) -> Seq<Seq<char>> {
    v.map_values(|t: String| t@)
}

fn is_number_char_exec(c: char) -> (b: bool)
    ensures
        b == is_number_char(c),
{
    let u = c as u32;
    (48 <= u && u <= 57) || c == '.' || c == ','
}

fn is_operator_char_exec(c: char) -> (b: bool)
    ensures
        b == is_operator_char(c),
{
    c == '+' || c == '-' || c == '*' || c == '/' || c == '(' || c == ')'
}

proof fn lemma_lex_none_extends(s: Seq<char>, i: int)
    requires
        0 <= i <= s.len(),
        lex_prefix(s.take(i)) is None,
    ensures
        lex_prefix(s) is None,
    decreases s.len() - i,
{
    if i < s.len() {
        assert(s.take(i + 1).drop_last() =~= s.take(i));
        lemma_lex_none_extends(s, i + 1);
    } else {
        assert(s.take(i) =~= s);
    }
}

proof fn lemma_views_push(v: Seq<String>, t: String)
    ensures
        token_views(v.push(t)) == token_views(v).push(t@),
{
    assert(token_views(v.push(t)) =~= token_views(v).push(t@));
}

/// Splits an expression into number and operator tokens.
///
/// Numbers are runs of digits, `.` and `,` (a `,` is stored as `.`); each of `+ - * / ( )`
/// is a token of its own; spaces only separate. Any other character is an error.
pub fn tokenize(expr: &str) -> (r: Result<Vec<String>, &'static str>)
    ensures
        match r {
            Ok(tokens) => tokens_of(expr@) == Some(token_views(tokens@)),
            Err(e) => tokens_of(expr@) is None && e == ERR_INVALID_CHARACTER,
        },
{
    let n = expr.unicode_len();
    let mut tokens: Vec<String> = Vec::new();
    let mut num = String::new();
    let mut i: usize = 0;
    assert(expr@.take(0) =~= Seq::<char>::empty());
    while i < n
        invariant
            i <= n,
            n == expr@.len(),
            lex_prefix(expr@.take(i as int)) == Some((token_views(tokens@), num@)),
        decreases n - i,
    {
        let c = expr.get_char(i);
        let ghost before = (token_views(tokens@), num@);
        proof {
            assert(expr@.take(i + 1).drop_last() =~= expr@.take(i as int));
            assert(expr@.take(i + 1).last() == c);
        }
        if is_number_char_exec(c) {
            if c == ',' {
                push_char(&mut num, '.');
            } else {
                push_char(&mut num, c);
            }
        } else if c == ' ' {
            if num.as_str().unicode_len() > 0 {
                proof {
                    lemma_views_push(tokens@, num);
                }
                tokens.push(num);
                num = String::new();
            }
        } else if is_operator_char_exec(c) {
            if num.as_str().unicode_len() > 0 {
                proof {
                    lemma_views_push(tokens@, num);
                }
                tokens.push(num);
                num = String::new();
            }
            let mut op = String::new();
            push_char(&mut op, c);
            assert(op@ =~= seq![c]);
            proof {
                lemma_views_push(tokens@, op);
            }
            tokens.push(op);
        } else {
            proof {
                lemma_lex_none_extends(expr@, i + 1);
            }
            return Err(ERR_INVALID_CHARACTER);
        }
        assert(num@.len() == 0 ==> num@ =~= Seq::<char>::empty());
        i += 1;
    }
    assert(expr@.take(n as int) =~= expr@);
    if num.as_str().unicode_len() > 0 {
        proof {
            lemma_views_push(tokens@, num);
        }
        tokens.push(num);
    }
    Ok(tokens)
}

/// A number token as `tokenize` produces it: one or more ASCII digits and dots.
pub open spec fn is_number_token(t: Seq<char>) -> bool {
    t.len() > 0 && forall|k: int| 0 <= k < t.len() ==> (is_ascii_digit(#[trigger] t[k]) || t[k]
        == '.')
}

/// An operator token: a single operator character.
pub open spec fn is_operator_token(t: Seq<char>) -> bool {
    t.len() == 1 && is_operator_char(t[0])
}

/// The characters of `s` that end up in tokens: spaces dropped, `,` read as `.`.
pub open spec fn compacted(s: Seq<char>) -> Seq<char> {
    s.filter(|c: char| c != ' ').map_values(|c: char| normalized(c))
}

proof fn lemma_lex_some_iff(s: Seq<char>)
    ensures
        (lex_prefix(s) is Some) == (forall|i: int| 0 <= i < s.len() ==> is_expression_char(
            #[trigger] s[i],
        )),
    decreases s.len(),
{
    if s.len() > 0 {
        let p = s.drop_last();
        lemma_lex_some_iff(p);
        if lex_prefix(s) is Some {
            assert forall|i: int| 0 <= i < s.len() implies is_expression_char(#[trigger] s[i]) by {
                if i < p.len() {
                    assert(s[i] == p[i]);
                }
            }
        }
        if forall|i: int| 0 <= i < s.len() ==> is_expression_char(#[trigger] s[i]) {
            assert forall|i: int| 0 <= i < p.len() implies is_expression_char(#[trigger] p[i]) by {
                assert(s[i] == p[i]);
            }
            assert(is_expression_char(s[s.len() - 1]));
        }
    }
}

/// `tokenize` fails exactly on the expressions that hold a character other than a digit,
/// `.`, `,`, a space, or one of `+ - * / ( )`.
pub proof fn law_tokenize_fails_iff_foreign_char(s: Seq<char>)
    ensures
        (tokens_of(s) is None) == (exists|i: int| 0 <= i < s.len() && !is_expression_char(s[i])),
{
    lemma_lex_some_iff(s);
}

proof fn lemma_lex_shape(s: Seq<char>)
    requires
        lex_prefix(s) is Some,
    ensures
        ({
            let st = lex_prefix(s)->0;
            &&& forall|i: int| 0 <= i < st.0.len() ==> is_number_token(#[trigger] st.0[i])
                || is_operator_token(st.0[i])
            &&& forall|k: int| 0 <= k < st.1.len() ==> (is_ascii_digit(#[trigger] st.1[k])
                || st.1[k] == '.')
            &&& st.0.flatten() + st.1 == compacted(s)
        }),
    decreases s.len(),
{
    if s.len() == 0 {
        assert(compacted(s) =~= Seq::<char>::empty());
        assert(Seq::<Seq<char>>::empty().flatten() =~= Seq::<char>::empty());
    } else {
        let p = s.drop_last();
        let c = s.last();
        lemma_lex_shape(p);
        let old_st = lex_prefix(p)->0;
        let st = lex_prefix(s)->0;
        let nospace = |x: char| x != ' ';
        let norm = |x: char| normalized(x);
        assert(s =~= p.push(c));
        p.lemma_filter_push(c, nospace);
        assert(compacted(s) == p.push(c).filter(nospace).map_values(norm));
        if c == ' ' {
            assert(compacted(s) == compacted(p));
        } else {
            p.filter(nospace).lemma_push_map_commute(norm, c);
            assert(compacted(s) == compacted(p).push(normalized(c)));
        }
        let flushed = flush(old_st.0, old_st.1);
        if old_st.1.len() > 0 {
            old_st.0.lemma_flatten_push(old_st.1);
        }
        assert(flushed.flatten() == old_st.0.flatten() + old_st.1);
        if is_number_char(c) {
            assert(st.0.flatten() + st.1 =~= compacted(s));
        } else if c == ' ' {
            assert(st.0.flatten() + st.1 =~= compacted(s));
        } else {
            flushed.lemma_flatten_push(seq![c]);
            assert(st.0.flatten() + st.1 =~= compacted(s));
        }
    }
}

/// What `tokenize` returns keeps every input character but spaces, in order (with `,` read
/// as `.`), and each token is either a number (digits and dots) or a single operator.
pub proof fn law_tokens_cover_input(s: Seq<char>)
    requires
        tokens_of(s) is Some,
    ensures
        tokens_of(s)->0.flatten() == compacted(s),
        forall|i: int|
            0 <= i < tokens_of(s)->0.len() ==> is_number_token(#[trigger] tokens_of(s)->0[i])
                || is_operator_token(tokens_of(s)->0[i]),
{
    lemma_lex_shape(s);
    let st = lex_prefix(s)->0;
    if st.1.len() > 0 {
        st.0.lemma_flatten_push(st.1);
    } else {
        assert(st.1 =~= Seq::<char>::empty());
        assert(st.0.flatten() + st.1 =~= st.0.flatten());
    }
}

/// The tokenizer's state after reading `s` from the given starting state.
pub open spec fn lex_from(state: (Seq<Seq<char>>, Seq<char>), s: Seq<char>) -> Option<
    (Seq<Seq<char>>, Seq<char>),
>
    decreases s.len(),
{
    if s.len() == 0 {
        Some(state)
    } else {
        match lex_from(state, s.drop_last()) {
            Some(x) => lex_step(x, s.last()),
            None => None,
        }
    }
}

proof fn lemma_lex_prefix_is_lex_from(s: Seq<char>)
    ensures
        lex_prefix(s) == lex_from((Seq::empty(), Seq::empty()), s),
    decreases s.len(),
{
    if s.len() > 0 {
        lemma_lex_prefix_is_lex_from(s.drop_last());
    }
}

proof fn lemma_lex_from_concat(
    state: (Seq<Seq<char>>, Seq<char>),
    a: Seq<char>,
    b: Seq<char>,
)
    ensures
        lex_from(state, a + b) == match lex_from(state, a) {
            Some(x) => lex_from(x, b),
            None => None,
        },
    decreases b.len(),
{
    if b.len() == 0 {
        assert(a + b =~= a);
    } else {
        lemma_lex_from_concat(state, a, b.drop_last());
        assert((a + b).drop_last() =~= a + b.drop_last());
        assert((a + b).last() == b.last());
    }
}

proof fn lemma_lex_from_shift(prior: Seq<Seq<char>>, b: Seq<char>)
    ensures
        lex_from((prior, Seq::empty()), b) == match lex_from((Seq::empty(), Seq::empty()), b) {
            Some(x) => Some((prior + x.0, x.1)),
            None => None,
        },
    decreases b.len(),
{
    if b.len() == 0 {
        assert(prior + Seq::<Seq<char>>::empty() =~= prior);
    } else {
        lemma_lex_from_shift(prior, b.drop_last());
        match lex_from((Seq::empty(), Seq::empty()), b.drop_last()) {
            Some(x) => {
                let c = b.last();
                assert((prior + x.0).push(x.1) =~= prior + x.0.push(x.1));
                assert(flush(prior + x.0, x.1) =~= prior + flush(x.0, x.1));
                assert(flush(prior + x.0, x.1).push(seq![c]) =~= prior + flush(x.0, x.1).push(
                    seq![c],
                ));
            },
            None => {},
        }
    }
}

/// A run of number characters is one token: its characters with `,` read as `.`; numbers
/// are never cut into pieces.
pub proof fn law_number_run_is_one_token(s: Seq<char>)
    requires
        s.len() > 0,
        forall|i: int| 0 <= i < s.len() ==> is_number_char(#[trigger] s[i]),
    ensures
        tokens_of(s) == Some(seq![s.map_values(|c: char| normalized(c))]),
{
    lemma_number_run_pending(s);
}

proof fn lemma_number_run_pending(s: Seq<char>)
    requires
        forall|i: int| 0 <= i < s.len() ==> is_number_char(#[trigger] s[i]),
    ensures
        lex_prefix(s) == Some((Seq::<Seq<char>>::empty(), s.map_values(|c: char| normalized(c)))),
    decreases s.len(),
{
    let norm = |c: char| normalized(c);
    if s.len() == 0 {
        assert(s.map_values(norm) =~= Seq::<char>::empty());
    } else {
        let p = s.drop_last();
        assert forall|i: int| 0 <= i < p.len() implies is_number_char(#[trigger] p[i]) by {
            assert(p[i] == s[i]);
        }
        lemma_number_run_pending(p);
        assert(is_number_char(s[s.len() - 1]));
        assert(s =~= p.push(s.last()));
        p.lemma_push_map_commute(norm, s.last());
    }
}

/// A space only separates: the tokens of `a`, a space, then `b` are the tokens of `a`
/// followed by the tokens of `b` (and there are none if either part has none).
pub proof fn law_space_separates(a: Seq<char>, b: Seq<char>)
    ensures
        tokens_of(a + seq![' '] + b) == match (tokens_of(a), tokens_of(b)) {
            (Some(x), Some(y)) => Some(x + y),
            _ => None,
        },
{
    let init = (Seq::<Seq<char>>::empty(), Seq::<char>::empty());
    let a1 = a + seq![' '];
    lemma_lex_prefix_is_lex_from(a + seq![' '] + b);
    lemma_lex_prefix_is_lex_from(a);
    lemma_lex_prefix_is_lex_from(b);
    lemma_lex_from_concat(init, a1, b);
    assert(a1.drop_last() =~= a);
    assert(a1.last() == ' ');
    match lex_from(init, a) {
        Some(x) => {
            let f = flush(x.0, x.1);
            lemma_lex_from_shift(f, b);
            match lex_from(init, b) {
                Some(y) => {
                    assert((f + y.0).push(y.1) =~= f + y.0.push(y.1));
                },
                None => {},
            }
        },
        None => {},
    }
}

/// An operator stands alone: the tokens of `a`, an operator character, then `b` are the
/// tokens of `a`, the operator, then the tokens of `b` (none if either part has none).
pub proof fn law_operator_separates(a: Seq<char>, op: char, b: Seq<char>)
    requires
        is_operator_char(op),
    ensures
        tokens_of(a + seq![op] + b) == match (tokens_of(a), tokens_of(b)) {
            (Some(x), Some(y)) => Some(x + seq![seq![op]] + y),
            _ => None,
        },
{
    let init = (Seq::<Seq<char>>::empty(), Seq::<char>::empty());
    let a1 = a + seq![op];
    lemma_lex_prefix_is_lex_from(a + seq![op] + b);
    lemma_lex_prefix_is_lex_from(a);
    lemma_lex_prefix_is_lex_from(b);
    lemma_lex_from_concat(init, a1, b);
    assert(a1.drop_last() =~= a);
    assert(a1.last() == op);
    match lex_from(init, a) {
        Some(x) => {
            let f = flush(x.0, x.1).push(seq![op]);
            lemma_lex_from_shift(f, b);
            match lex_from(init, b) {
                Some(y) => {
                    assert((f + y.0).push(y.1) =~= f + y.0.push(y.1));
                    assert(f + y.0 =~= flush(x.0, x.1) + seq![seq![op]] + y.0);
                    assert(f + flush(y.0, y.1) =~= flush(x.0, x.1) + seq![seq![op]] + flush(
                        y.0,
                        y.1,
                    ));
                },
                None => {},
            }
        },
        None => {},
    }
}

// ---------------------------------------------------------------------------
// Number tokens
// ---------------------------------------------------------------------------

/// The length of the run of ASCII digits in `s` that starts at position `i`.
pub open spec fn digit_run(s: Seq<char>, i: int) -> nat
    decreases s.len() - i,
{
    if 0 <= i < s.len() && is_ascii_digit(s[i]) {
        1 + digit_run(s, i + 1)
    } else {
        0
    }
}

/// A sign character.
pub open spec fn is_sign_char(c: char) -> bool {
    c == '+' || c == '-'
}

/// The length (0 or 1) of the optional sign at the start of `s`.
pub open spec fn sign_len(s: Seq<char>) -> int {
    if s.len() > 0 && is_sign_char(s[0]) {
        1
    } else {
        0
    }
}

/// Whether the rest of `s` from position `i` is `Sign? Digit+`: the part of an exponent
/// after its `e`.
pub open spec fn exponent_tail_from(s: Seq<char>, i: int) -> bool {
    let j = if 0 <= i < s.len() && is_sign_char(s[i]) {
        i + 1
    } else {
        i
    };
    digit_run(s, j) > 0 && j + digit_run(s, j) == s.len()
}

/// Whether the rest of `s` from position `i` is a decimal number:
/// `( Digit+ | Digit+ '.' Digit* | Digit* '.' Digit+ ) ( ('e' | 'E') Sign? Digit+ )?`.
/// Digit runs are read greedily, which the grammar allows as no digit may follow a run.
pub open spec fn number_from(s: Seq<char>, i: int) -> bool {
    let a = digit_run(s, i);
    let dot = i + a;
    let has_dot = dot < s.len() && s[dot] == '.';
    let b = if has_dot {
        digit_run(s, dot + 1)
    } else {
        0
    };
    let end = if has_dot {
        dot + 1 + b
    } else {
        dot
    };
    a + b > 0 && (end == s.len() || ((s[end] == 'e' || s[end] == 'E') && exponent_tail_from(
        s,
        end + 1,
    )))
}

/// `c` equals the lower-case ASCII letter `lower`, ignoring ASCII case.
pub open spec fn ascii_ci_eq(c: char, lower: char) -> bool {
    c == lower || c as u32 + 32 == lower as u32
}

/// Whether the rest of `s` from position `i` is the lower-case word `w`, ignoring ASCII case.
pub open spec fn word_from(s: Seq<char>, i: int, w: Seq<char>) -> bool {
    s.len() - i == w.len() && forall|k: int| 0 <= k < w.len() ==> ascii_ci_eq(s[i + k], w[k])
}

/// Whether `s` is accepted by `str::parse::<f64>`, whose documented grammar is
/// `Sign? ( 'inf' | 'infinity' | 'nan' | Number )`, the words in any ASCII case, with
/// `Number` as in `number_from`.
pub open spec fn is_float_literal(s: Seq<char>) -> bool {
    let i = sign_len(s);
    ||| word_from(s, i, seq!['i', 'n', 'f'])
    ||| word_from(s, i, seq!['i', 'n', 'f', 'i', 'n', 'i', 't', 'y'])
    ||| word_from(s, i, seq!['n', 'a', 'n'])
    ||| number_from(s, i)
}

proof fn lemma_digit_run_split(s: Seq<char>, i: int, j: int)
    requires
        0 <= i <= j <= s.len(),
        forall|k: int| i <= k < j ==> is_ascii_digit(#[trigger] s[k]),
    ensures
        digit_run(s, i) == (j - i) + digit_run(s, j),
    decreases j - i,
{
    if i < j {
        lemma_digit_run_split(s, i + 1, j);
    }
}

fn is_digit_exec(c: char) -> (b: bool)
    ensures
        b == is_ascii_digit(c),
{
    let u = c as u32;
    48 <= u && u <= 57
}

fn digit_run_exec(s: &str, n: usize, i: usize) -> (r: usize)
    requires
        n == s@.len(),
        i <= n,
    ensures
        r == digit_run(s@, i as int),
        i + r <= n,
{
    let mut j = i;
    while j < n && is_digit_exec(s.get_char(j))
        invariant
            i <= j <= n,
            n == s@.len(),
            forall|k: int| i <= k < j ==> is_ascii_digit(#[trigger] s@[k]),
        decreases n - j,
    {
        j += 1;
    }
    proof {
        lemma_digit_run_split(s@, i as int, j as int);
    }
    j - i
}

fn ascii_ci_eq_exec(c: char, lower: char) -> (b: bool)
    requires
        lower as u32 >= 32,
    ensures
        b == ascii_ci_eq(c, lower),
{
    c == lower || c as u32 + 32 == lower as u32
}

fn word_at(s: &str, n: usize, i: usize, w: &[char]) -> (b: bool)
    requires
        n == s@.len(),
        i <= n,
        forall|k: int| 0 <= k < w@.len() ==> w@[k] as u32 >= 32,
    ensures
        b == word_from(s@, i as int, w@),
{
    if n - i != w.len() {
        return false;
    }
    let mut k: usize = 0;
    while k < w.len()
        invariant
            k <= w@.len(),
            n - i == w@.len(),
            n == s@.len(),
            forall|k: int| 0 <= k < w@.len() ==> w@[k] as u32 >= 32,
            forall|m: int| 0 <= m < k ==> ascii_ci_eq(s@[i + m], w@[m]),
        decreases w@.len() - k,
    {
        if !ascii_ci_eq_exec(s.get_char(i + k), w[k]) {
            return false;
        }
        k += 1;
    }
    true
}

fn exponent_tail_exec(s: &str, n: usize, i: usize) -> (b: bool)
    requires
        n == s@.len(),
        i <= n,
    ensures
        b == exponent_tail_from(s@, i as int),
{
    let j = if i < n && (s.get_char(i) == '+' || s.get_char(i) == '-') {
        i + 1
    } else {
        i
    };
    let d = digit_run_exec(s, n, j);
    d > 0 && j + d == n
}

fn number_exec(s: &str, n: usize, i: usize) -> (b: bool)
    requires
        n == s@.len(),
        i <= n,
    ensures
        b == number_from(s@, i as int),
{
    let a = digit_run_exec(s, n, i);
    let dot = i + a;
    let has_dot = dot < n && s.get_char(dot) == '.';
    let b = if has_dot {
        digit_run_exec(s, n, dot + 1)
    } else {
        0
    };
    let end = if has_dot {
        dot + 1 + b
    } else {
        dot
    };
    if a + b == 0 {
        return false;
    }
    if end == n {
        return true;
    }
    let c = s.get_char(end);
    (c == 'e' || c == 'E') && exponent_tail_exec(s, n, end + 1)
}

/// Whether `s` parses as an `f64`, as `s.parse::<f64>().is_ok()` tells.
pub fn is_float_literal_exec(s: &str) -> (b: bool)
    ensures
        b == is_float_literal(s@),
{
    let n = s.unicode_len();
    let i: usize = if n > 0 && (s.get_char(0) == '+' || s.get_char(0) == '-') {
        1
    } else {
        0
    };
    let inf = ['i', 'n', 'f'];
    let infinity = ['i', 'n', 'f', 'i', 'n', 'i', 't', 'y'];
    let nan = ['n', 'a', 'n'];
    assert(inf@ =~= seq!['i', 'n', 'f']);
    assert(infinity@ =~= seq!['i', 'n', 'f', 'i', 'n', 'i', 't', 'y']);
    assert(nan@ =~= seq!['n', 'a', 'n']);
    word_at(s, n, i, inf.as_slice()) || word_at(s, n, i, infinity.as_slice()) || word_at(
        s,
        n,
        i,
        nan.as_slice(),
    ) || number_exec(s, n, i)
}

// ---------------------------------------------------------------------------
// Shunting yard
// ---------------------------------------------------------------------------

/// The tokens `+ - * /`.
pub open spec fn is_binary_operator(t: Seq<char>) -> bool {
    t == seq!['+'] || t == seq!['-'] || t == seq!['*'] || t == seq!['/']
}

/// Binding strength: 1 for `+ -`, 2 for `* /`, 0 for any other token.
pub open spec fn precedence(t: Seq<char>) -> int {
    if t == seq!['+'] || t == seq!['-'] {
        1
    } else if t == seq!['*'] || t == seq!['/'] {
        2
    } else {
        0
    }
}

/// Moves operators from the top of the stack `ops` to the output while they bind at least
/// as strongly as `p`.
pub open spec fn pop_binding(out: Seq<Seq<char>>, ops: Seq<Seq<char>>, p: int) -> (
    Seq<Seq<char>>,
    Seq<Seq<char>>,
)
    decreases ops.len(),
{
    if ops.len() > 0 && is_binary_operator(ops.last()) && precedence(ops.last()) >= p {
        pop_binding(out.push(ops.last()), ops.drop_last(), p)
    } else {
        (out, ops)
    }
}

/// Moves entries from the top of the stack `ops` to the output until a `(` is on top or
/// the stack is empty.
pub open spec fn pop_to_open(out: Seq<Seq<char>>, ops: Seq<Seq<char>>) -> (
    Seq<Seq<char>>,
    Seq<Seq<char>>,
)
    decreases ops.len(),
{
    if ops.len() > 0 && ops.last() != seq!['('] {
        pop_to_open(out.push(ops.last()), ops.drop_last())
    } else {
        (out, ops)
    }
}

/// One token read by the shunting-yard algorithm, whose state is the output so far and
/// the operator stack.
pub open spec fn yard_step(state: (Seq<Seq<char>>, Seq<Seq<char>>), t: Seq<char>) -> Result<
    (Seq<Seq<char>>, Seq<Seq<char>>),
    &'static str,
> {
    if is_float_literal(t) {
        Ok((state.0.push(t), state.1))
    } else if is_binary_operator(t) {
        let popped = pop_binding(state.0, state.1, precedence(t));
        Ok((popped.0, popped.1.push(t)))
    } else if t == seq!['('] {
        Ok((state.0, state.1.push(t)))
    } else if t == seq![')'] {
        let popped = pop_to_open(state.0, state.1);
        if popped.1.len() > 0 && popped.1.last() == seq!['('] {
            Ok((popped.0, popped.1.drop_last()))
        } else {
            Err(ERR_MISSING_OPENING)
        }
    } else {
        Err(ERR_UNKNOWN_TOKEN)
    }
}

/// The state after reading all of `tokens` from the left, or the first error.
pub open spec fn yard_prefix(tokens: Seq<Seq<char>>) -> Result<
    (Seq<Seq<char>>, Seq<Seq<char>>),
    &'static str,
>
    decreases tokens.len(),
{
    if tokens.len() == 0 {
        Ok((Seq::empty(), Seq::empty()))
    } else {
        match yard_prefix(tokens.drop_last()) {
            Ok(state) => yard_step(state, tokens.last()),
            Err(e) => Err(e),
        }
    }
}

/// Moves the rest of the operator stack, from its top, to the output; a parenthesis left
/// on the stack is an unclosed `(`.
pub open spec fn drain_ops(out: Seq<Seq<char>>, ops: Seq<Seq<char>>) -> Result<
    Seq<Seq<char>>,
    &'static str,
>
    decreases ops.len(),
{
    if ops.len() == 0 {
        Ok(out)
    } else if ops.last() == seq!['('] || ops.last() == seq![')'] {
        Err(ERR_MISSING_CLOSING)
    } else {
        drain_ops(out.push(ops.last()), ops.drop_last())
    }
}

/// The reverse Polish notation of an infix token list, or the first error met.
pub open spec fn rpn_of(tokens: Seq<Seq<char>>) -> Result<Seq<Seq<char>>, &'static str> {
    match yard_prefix(tokens) {
        Ok(state) => drain_ops(state.0, state.1),
        Err(e) => Err(e),
    }
}

proof fn lemma_single_char_seq(t: Seq<char>, c: char)
    ensures
        (t == seq![c]) == (t.len() == 1 && t[0] == c),
{
    if t.len() == 1 && t[0] == c {
        assert(t =~= seq![c]);
    }
}

/// The single character of `t`, if `t` is one character long.
fn single_char(t: &str) -> (r: Option<char>)
    ensures
        r == (if t@.len() == 1 {
            Some(t@[0])
        } else {
            None::<char>
        }),
{
    if t.unicode_len() == 1 {
        Some(t.get_char(0))
    } else {
        None
    }
}

fn is_token(t: &String, c: char) -> (b: bool)
    ensures
        b == (t@ == seq![c]),
{
    proof {
        lemma_single_char_seq(t@, c);
    }
    single_char(t.as_str()) == Some(c)
}

fn precedence_exec(t: &String) -> (p: u8)
    ensures
        p == precedence(t@),
        p > 0 <==> is_binary_operator(t@),
{
    proof {
        lemma_single_char_seq(t@, '+');
        lemma_single_char_seq(t@, '-');
        lemma_single_char_seq(t@, '*');
        lemma_single_char_seq(t@, '/');
    }
    match single_char(t.as_str()) {
        Some(c) => if c == '+' || c == '-' {
            1
        } else if c == '*' || c == '/' {
            2
        } else {
            0
        },
        None => 0,
    }
}

/// The binding strength of the top of the stack: 0 when it is empty or holds no operator.
fn top_precedence(ops: &Vec<String>) -> (p: u8)
    ensures
        ops@.len() == 0 ==> p == 0,
        ops@.len() > 0 ==> p == precedence(token_views(ops@).last()),
{
    if ops.len() == 0 {
        0
    } else {
        precedence_exec(&ops[ops.len() - 1])
    }
}

fn top_is(ops: &Vec<String>, c: char) -> (b: bool)
    ensures
        b == (ops@.len() > 0 && token_views(ops@).last() == seq![c]),
{
    if ops.len() == 0 {
        false
    } else {
        is_token(&ops[ops.len() - 1], c)
    }
}

proof fn lemma_views_pop(v: Seq<String>)
    requires
        v.len() > 0,
    ensures
        token_views(v.subrange(0, v.len() - 1)) == token_views(v).drop_last(),
        token_views(v).last() == v.last()@,
{
    assert(token_views(v.subrange(0, v.len() - 1)) =~= token_views(v).drop_last());
}

proof fn lemma_yard_err_extends(tokens: Seq<Seq<char>>, i: int)
    requires
        0 <= i <= tokens.len(),
        yard_prefix(tokens.take(i)) is Err,
    ensures
        yard_prefix(tokens) == yard_prefix(tokens.take(i)),
    decreases tokens.len() - i,
{
    if i < tokens.len() {
        assert(tokens.take(i + 1).drop_last() =~= tokens.take(i));
        lemma_yard_err_extends(tokens, i + 1);
    } else {
        assert(tokens.take(i) =~= tokens);
    }
}

/// Reorders infix tokens into reverse Polish notation by Dijkstra's shunting-yard
/// algorithm: numbers go straight to the output, `+ - * /` wait on a stack until an
/// operator of no greater binding strength arrives (so both levels associate to the left),
/// and parentheses group.
pub fn shunting_yard(tokens: &[String]) -> (r: Result<Vec<String>, &'static str>)
    ensures
        match r {
            Ok(out) => rpn_of(token_views(tokens@)) == Ok::<Seq<Seq<char>>, &'static str>(
                token_views(out@),
            ),
            Err(e) => rpn_of(token_views(tokens@)) == Err::<Seq<Seq<char>>, &'static str>(e),
        },
{
    let ghost all = token_views(tokens@);
    let mut output: Vec<String> = Vec::new();
    let mut ops: Vec<String> = Vec::new();
    let mut i: usize = 0;
    assert(all.take(0) =~= Seq::<Seq<char>>::empty());
    assert(token_views(output@) =~= Seq::<Seq<char>>::empty());
    assert(token_views(ops@) =~= Seq::<Seq<char>>::empty());
    while i < tokens.len()
        invariant
            i <= tokens@.len(),
            all == token_views(tokens@),
            yard_prefix(all.take(i as int)) == Ok::<
                (Seq<Seq<char>>, Seq<Seq<char>>),
                &'static str,
            >((token_views(output@), token_views(ops@))),
        decreases tokens@.len() - i,
    {
        let token = &tokens[i];
        proof {
            assert(all.take(i + 1).drop_last() =~= all.take(i as int));
            assert(all.take(i + 1).last() == token@);
        }
        let p = precedence_exec(token);
        if is_float_literal_exec(token.as_str()) {
            let copy = token.clone();
            proof {
                lemma_views_push(output@, copy);
            }
            output.push(copy);
        } else if p > 0 {
            let ghost goal = pop_binding(token_views(output@), token_views(ops@), p as int);
            while top_precedence(&ops) >= p
                invariant
                    p > 0,
                    pop_binding(token_views(output@), token_views(ops@), p as int) == goal,
                decreases ops@.len(),
            {
                proof {
                    lemma_views_pop(ops@);
                }
                let top = ops.pop().unwrap();
                proof {
                    lemma_views_push(output@, top);
                }
                output.push(top);
            }
            let copy = token.clone();
            proof {
                lemma_views_push(ops@, copy);
            }
            ops.push(copy);
        } else if is_token(token, '(') {
            let copy = token.clone();
            proof {
                lemma_views_push(ops@, copy);
            }
            ops.push(copy);
        } else if is_token(token, ')') {
            let ghost goal = pop_to_open(token_views(output@), token_views(ops@));
            while ops.len() > 0 && !top_is(&ops, '(')
                invariant
                    pop_to_open(token_views(output@), token_views(ops@)) == goal,
                decreases ops@.len(),
            {
                proof {
                    lemma_views_pop(ops@);
                }
                let top = ops.pop().unwrap();
                proof {
                    lemma_views_push(output@, top);
                }
                output.push(top);
            }
            if top_is(&ops, '(') {
                proof {
                    lemma_views_pop(ops@);
                }
                ops.pop();
            } else {
                proof {
                    lemma_yard_err_extends(all, i + 1);
                }
                return Err(ERR_MISSING_OPENING);
            }
        } else {
            proof {
                lemma_yard_err_extends(all, i + 1);
            }
            return Err(ERR_UNKNOWN_TOKEN);
        }
        i += 1;
    }
    assert(all.take(tokens@.len() as int) =~= all);
    let ghost goal = drain_ops(token_views(output@), token_views(ops@));
    while ops.len() > 0
        invariant
            drain_ops(token_views(output@), token_views(ops@)) == goal,
            rpn_of(all) == goal,
            all == token_views(tokens@),
        decreases ops@.len(),
    {
        proof {
            lemma_views_pop(ops@);
        }
        let op = ops.pop().unwrap();
        if is_token(&op, '(') || is_token(&op, ')') {
            return Err(ERR_MISSING_CLOSING);
        }
        proof {
            lemma_views_push(output@, op);
        }
        output.push(op);
    }
    Ok(output)
}

// ---------------------------------------------------------------------------
// What the shunting yard keeps
// ---------------------------------------------------------------------------

/// The number tokens of `s`, in order.
pub open spec fn number_tokens(s: Seq<Seq<char>>) -> Seq<Seq<char>> {
    s.filter(|t: Seq<char>| is_float_literal(t))
}

/// The operator tokens `+ - * /` of `s`, in order.
pub open spec fn operator_tokens(s: Seq<Seq<char>>) -> Seq<Seq<char>> {
    s.filter(|t: Seq<char>| is_binary_operator(t))
}

/// What the algorithm keeps true while it reads `processed`: the output holds numbers and
/// operators, the stack operators and `(`; the output's numbers are the input's numbers in
/// order; and the operators read are in the output or on the stack.
pub open spec fn yard_invariant(
    state: (Seq<Seq<char>>, Seq<Seq<char>>),
    processed: Seq<Seq<char>>,
) -> bool {
    &&& forall|i: int|
        0 <= i < state.0.len() ==> is_float_literal(#[trigger] state.0[i]) || is_binary_operator(
            state.0[i],
        )
    &&& forall|i: int|
        0 <= i < state.1.len() ==> is_binary_operator(#[trigger] state.1[i]) || state.1[i]
            == seq!['(']
    &&& number_tokens(state.0) == number_tokens(processed)
    &&& operator_tokens(state.0).to_multiset().add(operator_tokens(state.1).to_multiset())
        == operator_tokens(processed).to_multiset()
}

proof fn lemma_operators_are_no_numbers(t: Seq<char>)
    ensures
        is_binary_operator(t) ==> !is_float_literal(t),
        t == seq!['('] ==> !is_float_literal(t) && !is_binary_operator(t),
        t == seq![')'] ==> !is_float_literal(t) && !is_binary_operator(t),
{
    if is_binary_operator(t) || t == seq!['('] || t == seq![')'] {
        assert(t.len() == 1);
        assert(digit_run(t, 1) == 0);
        assert(!is_ascii_digit(t[0]));
        assert(digit_run(t, 0) == 0);
    }
}

proof fn lemma_move_top(out: Seq<Seq<char>>, ops: Seq<Seq<char>>, processed: Seq<Seq<char>>)
    requires
        yard_invariant((out, ops), processed),
        ops.len() > 0,
        is_binary_operator(ops.last()),
    ensures
        yard_invariant((out.push(ops.last()), ops.drop_last()), processed),
{
    broadcast use vstd::multiset::group_multiset_axioms;

    let x = ops.last();
    let rest = ops.drop_last();
    let isnum = |t: Seq<char>| is_float_literal(t);
    let isop = |t: Seq<char>| is_binary_operator(t);
    lemma_operators_are_no_numbers(x);
    out.lemma_filter_push(x, isnum);
    out.lemma_filter_push(x, isop);
    assert(ops =~= rest.push(x));
    rest.lemma_filter_push(x, isop);
    operator_tokens(out).to_multiset_ensures();
    operator_tokens(rest).to_multiset_ensures();
    let new_out = out.push(x);
    assert forall|i: int| 0 <= i < new_out.len() implies is_float_literal(#[trigger] new_out[i])
        || is_binary_operator(new_out[i]) by {
        if i < out.len() {
            assert(new_out[i] == out[i]);
        }
    }
    assert forall|i: int| 0 <= i < rest.len() implies is_binary_operator(#[trigger] rest[i])
        || rest[i] == seq!['('] by {
        assert(rest[i] == ops[i]);
    }
    assert(operator_tokens(new_out).to_multiset().add(operator_tokens(rest).to_multiset())
        =~= operator_tokens(out).to_multiset().add(operator_tokens(ops).to_multiset()));
}

proof fn lemma_pop_binding_keeps(
    out: Seq<Seq<char>>,
    ops: Seq<Seq<char>>,
    p: int,
    processed: Seq<Seq<char>>,
)
    requires
        yard_invariant((out, ops), processed),
    ensures
        yard_invariant(pop_binding(out, ops, p), processed),
        pop_binding(out, ops, p).1.len() <= ops.len(),
    decreases ops.len(),
{
    if ops.len() > 0 && is_binary_operator(ops.last()) && precedence(ops.last()) >= p {
        lemma_move_top(out, ops, processed);
        lemma_pop_binding_keeps(out.push(ops.last()), ops.drop_last(), p, processed);
    }
}

proof fn lemma_pop_to_open_keeps(out: Seq<Seq<char>>, ops: Seq<Seq<char>>, processed: Seq<Seq<char>>)
    requires
        yard_invariant((out, ops), processed),
    ensures
        yard_invariant(pop_to_open(out, ops), processed),
    decreases ops.len(),
{
    if ops.len() > 0 && ops.last() != seq!['('] {
        assert(is_binary_operator(ops[ops.len() - 1]) || ops[ops.len() - 1] == seq!['(']);
        lemma_move_top(out, ops, processed);
        lemma_pop_to_open_keeps(out.push(ops.last()), ops.drop_last(), processed);
    }
}

proof fn lemma_yard_prefix_keeps(tokens: Seq<Seq<char>>)
    requires
        yard_prefix(tokens) is Ok,
    ensures
        yard_invariant(yard_prefix(tokens)->Ok_0, tokens),
    decreases tokens.len(),
{
    broadcast use vstd::multiset::group_multiset_axioms;

    let isnum = |t: Seq<char>| is_float_literal(t);
    let isop = |t: Seq<char>| is_binary_operator(t);
    if tokens.len() == 0 {
        assert(tokens =~= Seq::<Seq<char>>::empty());
        assert(number_tokens(Seq::<Seq<char>>::empty()) =~= Seq::<Seq<char>>::empty());
        assert(operator_tokens(Seq::<Seq<char>>::empty()) =~= Seq::<Seq<char>>::empty());
        Seq::<Seq<char>>::empty().to_multiset_ensures();
        vstd::multiset::lemma_multiset_empty_len(Seq::<Seq<char>>::empty().to_multiset());
        let m = Seq::<Seq<char>>::empty().to_multiset();
        assert(m.add(m) =~= m);
    } else {
        let p = tokens.drop_last();
        let t = tokens.last();
        assert(tokens =~= p.push(t));
        lemma_yard_prefix_keeps(p);
        let st = yard_prefix(p)->Ok_0;
        let next = yard_prefix(tokens)->Ok_0;
        p.lemma_filter_push(t, isnum);
        p.lemma_filter_push(t, isop);
        lemma_operators_are_no_numbers(t);
        operator_tokens(p).to_multiset_ensures();
        if is_float_literal(t) {
            st.0.lemma_filter_push(t, isnum);
            st.0.lemma_filter_push(t, isop);
            assert forall|i: int| 0 <= i < next.0.len() implies is_float_literal(
                #[trigger] next.0[i],
            ) || is_binary_operator(next.0[i]) by {
                if i < st.0.len() {
                    assert(next.0[i] == st.0[i]);
                }
            }
            assert(yard_invariant(next, tokens));
        } else if is_binary_operator(t) {
            lemma_pop_binding_keeps(st.0, st.1, precedence(t), p);
            let popped = pop_binding(st.0, st.1, precedence(t));
            popped.1.lemma_filter_push(t, isop);
            popped.1.lemma_filter_push(t, isnum);
            operator_tokens(popped.1).to_multiset_ensures();
            assert forall|i: int| 0 <= i < next.1.len() implies is_binary_operator(
                #[trigger] next.1[i],
            ) || next.1[i] == seq!['('] by {
                if i < popped.1.len() {
                    assert(next.1[i] == popped.1[i]);
                }
            }
            assert(operator_tokens(next.0).to_multiset().add(operator_tokens(next.1).to_multiset())
                =~= operator_tokens(tokens).to_multiset());
            assert(yard_invariant(next, tokens));
        } else if t == seq!['('] {
            st.1.lemma_filter_push(t, isop);
            assert forall|i: int| 0 <= i < next.1.len() implies is_binary_operator(
                #[trigger] next.1[i],
            ) || next.1[i] == seq!['('] by {
                if i < st.1.len() {
                    assert(next.1[i] == st.1[i]);
                }
            }
            assert(yard_invariant(next, tokens));
        } else {
            lemma_pop_to_open_keeps(st.0, st.1, p);
            let popped = pop_to_open(st.0, st.1);
            let rest = popped.1.drop_last();
            assert(popped.1 =~= rest.push(seq!['(']));
            lemma_operators_are_no_numbers(seq!['(']);
            rest.lemma_filter_push(seq!['('], isop);
            assert forall|i: int| 0 <= i < rest.len() implies is_binary_operator(#[trigger] rest[i])
                || rest[i] == seq!['('] by {
                assert(rest[i] == popped.1[i]);
            }
            assert(yard_invariant(next, tokens));
        }
    }
}

proof fn lemma_drain_keeps(out: Seq<Seq<char>>, ops: Seq<Seq<char>>, processed: Seq<Seq<char>>)
    requires
        yard_invariant((out, ops), processed),
        drain_ops(out, ops) is Ok,
    ensures
        yard_invariant((drain_ops(out, ops)->Ok_0, Seq::empty()), processed),
    decreases ops.len(),
{
    broadcast use vstd::multiset::group_multiset_axioms;

    if ops.len() == 0 {
        assert(ops =~= Seq::<Seq<char>>::empty());
    } else {
        assert(is_binary_operator(ops[ops.len() - 1]) || ops[ops.len() - 1] == seq!['(']);
        lemma_move_top(out, ops, processed);
        lemma_drain_keeps(out.push(ops.last()), ops.drop_last(), processed);
    }
}

/// A successful conversion to reverse Polish notation holds only numbers and the operators
/// `+ - * /`; its numbers are those of the input in the same order; and it holds exactly the
/// input's operators, as a multiset. Parentheses are the only tokens dropped.
pub proof fn law_rpn_keeps_numbers_and_operators(tokens: Seq<Seq<char>>)
    requires
        rpn_of(tokens) is Ok,
    ensures
        forall|i: int|
            0 <= i < rpn_of(tokens)->Ok_0.len() ==> is_float_literal(
                #[trigger] rpn_of(tokens)->Ok_0[i],
            ) || is_binary_operator(rpn_of(tokens)->Ok_0[i]),
        number_tokens(rpn_of(tokens)->Ok_0) == number_tokens(tokens),
        operator_tokens(rpn_of(tokens)->Ok_0).to_multiset() == operator_tokens(
            tokens,
        ).to_multiset(),
{
    broadcast use vstd::multiset::group_multiset_axioms;

    lemma_yard_prefix_keeps(tokens);
    let st = yard_prefix(tokens)->Ok_0;
    lemma_drain_keeps(st.0, st.1, tokens);
    let e = Seq::<Seq<char>>::empty();
    assert(operator_tokens(e) =~= e);
    e.to_multiset_ensures();
    vstd::multiset::lemma_multiset_empty_len(e.to_multiset());
    let out = rpn_of(tokens)->Ok_0;
    assert(operator_tokens(out).to_multiset().add(Multiset::empty()) =~= operator_tokens(
        out,
    ).to_multiset());
}

proof fn lemma_pop_binding_prefix(out: Seq<Seq<char>>, ops: Seq<Seq<char>>, p: int)
    ensures
        pop_binding(out, ops, p).1.len() <= ops.len(),
        forall|i: int|
            0 <= i < pop_binding(out, ops, p).1.len() ==> #[trigger] pop_binding(out, ops, p).1[i]
                == ops[i],
    decreases ops.len(),
{
    if ops.len() > 0 && is_binary_operator(ops.last()) && precedence(ops.last()) >= p {
        lemma_pop_binding_prefix(out.push(ops.last()), ops.drop_last(), p);
    }
}

proof fn lemma_yard_without_parentheses(tokens: Seq<Seq<char>>)
    requires
        forall|i: int|
            0 <= i < tokens.len() ==> is_float_literal(#[trigger] tokens[i]) || is_binary_operator(
                tokens[i],
            ),
    ensures
        yard_prefix(tokens) is Ok,
        forall|i: int|
            0 <= i < yard_prefix(tokens)->Ok_0.1.len() ==> is_binary_operator(
                #[trigger] yard_prefix(tokens)->Ok_0.1[i],
            ),
    decreases tokens.len(),
{
    if tokens.len() > 0 {
        let p = tokens.drop_last();
        let t = tokens.last();
        assert forall|i: int| 0 <= i < p.len() implies is_float_literal(#[trigger] p[i])
            || is_binary_operator(p[i]) by {
            assert(p[i] == tokens[i]);
        }
        lemma_yard_without_parentheses(p);
        assert(is_float_literal(tokens[tokens.len() - 1]) || is_binary_operator(
            tokens[tokens.len() - 1],
        ));
        let st = yard_prefix(p)->Ok_0;
        if !is_float_literal(t) {
            lemma_pop_binding_prefix(st.0, st.1, precedence(t));
            let popped = pop_binding(st.0, st.1, precedence(t));
            let next = popped.1.push(t);
            assert forall|i: int| 0 <= i < next.len() implies is_binary_operator(
                #[trigger] next[i],
            ) by {
                if i < popped.1.len() {
                    assert(next[i] == popped.1[i]);
                    assert(popped.1[i] == st.1[i]);
                }
            }
        }
    }
}

proof fn lemma_drain_operators(out: Seq<Seq<char>>, ops: Seq<Seq<char>>)
    requires
        forall|i: int| 0 <= i < ops.len() ==> is_binary_operator(#[trigger] ops[i]),
    ensures
        drain_ops(out, ops) is Ok,
    decreases ops.len(),
{
    if ops.len() > 0 {
        let rest = ops.drop_last();
        assert(is_binary_operator(ops[ops.len() - 1]));
        lemma_operators_are_no_numbers(ops.last());
        assert(ops.last() != seq!['(']);
        assert(ops.last() != seq![')']);
        assert forall|i: int| 0 <= i < rest.len() implies is_binary_operator(#[trigger] rest[i]) by {
            assert(rest[i] == ops[i]);
        }
        lemma_drain_operators(out.push(ops.last()), rest);
    }
}

/// A token list with no parentheses, whose every token is a number or one of `+ - * /`,
/// always converts to reverse Polish notation without error.
pub proof fn law_rpn_total_without_parentheses(tokens: Seq<Seq<char>>)
    requires
        forall|i: int|
            0 <= i < tokens.len() ==> is_float_literal(#[trigger] tokens[i]) || is_binary_operator(
                tokens[i],
            ),
    ensures
        rpn_of(tokens) is Ok,
{
    lemma_yard_without_parentheses(tokens);
    let st = yard_prefix(tokens)->Ok_0;
    lemma_drain_operators(st.0, st.1);
}

/// Up the operator stack, between parentheses, binding strength strictly rises: an operator
/// never sits directly on one that binds at least as strongly.
pub open spec fn operators_rise(ops: Seq<Seq<char>>) -> bool {
    forall|i: int, j: int|
        0 <= i && j == i + 1 && j < ops.len() && is_binary_operator(#[trigger] ops[i])
            && is_binary_operator(#[trigger] ops[j]) ==> precedence(ops[i]) < precedence(ops[j])
}

proof fn lemma_pop_binding_stops(out: Seq<Seq<char>>, ops: Seq<Seq<char>>, p: int)
    ensures
        ({
            let r = pop_binding(out, ops, p).1;
            r.len() == 0 || !is_binary_operator(r.last()) || precedence(r.last()) < p
        }),
    decreases ops.len(),
{
    if ops.len() > 0 && is_binary_operator(ops.last()) && precedence(ops.last()) >= p {
        lemma_pop_binding_stops(out.push(ops.last()), ops.drop_last(), p);
    }
}

proof fn lemma_pop_to_open_prefix(out: Seq<Seq<char>>, ops: Seq<Seq<char>>)
    ensures
        pop_to_open(out, ops).1.len() <= ops.len(),
        forall|i: int|
            0 <= i < pop_to_open(out, ops).1.len() ==> #[trigger] pop_to_open(out, ops).1[i]
                == ops[i],
    decreases ops.len(),
{
    if ops.len() > 0 && ops.last() != seq!['('] {
        lemma_pop_to_open_prefix(out.push(ops.last()), ops.drop_last());
    }
}

proof fn lemma_rise_prefix(ops: Seq<Seq<char>>, r: Seq<Seq<char>>)
    requires
        operators_rise(ops),
        r.len() <= ops.len(),
        forall|i: int| 0 <= i < r.len() ==> #[trigger] r[i] == ops[i],
    ensures
        operators_rise(r),
{
    assert forall|i: int, j: int|
        0 <= i && j == i + 1 && j < r.len() && is_binary_operator(#[trigger] r[i])
            && is_binary_operator(#[trigger] r[j]) implies precedence(r[i]) < precedence(r[j]) by {
        assert(r[i] == ops[i] && r[j] == ops[j]);
    }
}

/// The shunting yard keeps binding strength strictly rising up its operator stack (between
/// parentheses), for any input: so when an operator arrives, every operator above the
/// nearest `(` that binds at least as strongly has gone to the output before it is stacked,
/// and the operator just read sits on top of the stack.
pub proof fn law_operator_stack_rises(tokens: Seq<Seq<char>>)
    requires
        yard_prefix(tokens) is Ok,
    ensures
        operators_rise(yard_prefix(tokens)->Ok_0.1),
        tokens.len() > 0 && is_binary_operator(tokens.last()) ==> yard_prefix(tokens)->Ok_0.1.len()
            > 0 && yard_prefix(tokens)->Ok_0.1.last() == tokens.last(),
    decreases tokens.len(),
{
    if tokens.len() == 0 {
        assert(yard_prefix(tokens)->Ok_0.1 =~= Seq::<Seq<char>>::empty());
    } else {
        let p = tokens.drop_last();
        let t = tokens.last();
        law_operator_stack_rises(p);
        let st = yard_prefix(p)->Ok_0;
        let ops = st.1;
        let next = yard_prefix(tokens)->Ok_0.1;
        lemma_operators_are_no_numbers(t);
        if is_float_literal(t) {
        } else if is_binary_operator(t) {
            let pr = precedence(t);
            lemma_pop_binding_prefix(st.0, ops, pr);
            lemma_pop_binding_stops(st.0, ops, pr);
            let r = pop_binding(st.0, ops, pr).1;
            lemma_rise_prefix(ops, r);
            assert(next == r.push(t));
            assert forall|i: int, j: int|
                0 <= i && j == i + 1 && j < next.len() && is_binary_operator(#[trigger] next[i])
                    && is_binary_operator(#[trigger] next[j]) implies precedence(next[i])
                < precedence(next[j]) by {
                if j < r.len() {
                    assert(next[i] == r[i] && next[j] == r[j]);
                } else {
                    assert(next[i] == r.last());
                    assert(next[j] == t);
                }
            }
        } else if t == seq!['('] {
            assert forall|i: int, j: int|
                0 <= i && j == i + 1 && j < next.len() && is_binary_operator(#[trigger] next[i])
                    && is_binary_operator(#[trigger] next[j]) implies precedence(next[i])
                < precedence(next[j]) by {
                assert(next[i] == ops[i]);
                if j < ops.len() {
                    assert(next[j] == ops[j]);
                }
            }
        } else {
            lemma_pop_to_open_prefix(st.0, ops);
            let r = pop_to_open(st.0, ops).1;
            lemma_rise_prefix(ops, r);
            let r2 = r.drop_last();
            assert forall|i: int| 0 <= i < r2.len() implies #[trigger] r2[i] == ops[i] by {
                assert(r2[i] == r[i]);
            }
            lemma_rise_prefix(ops, r2);
        }
    }
}

/// The shunting-yard state after reading `tokens` from the given starting state.
pub open spec fn yard_from(
    state: (Seq<Seq<char>>, Seq<Seq<char>>),
    tokens: Seq<Seq<char>>,
) -> Result<(Seq<Seq<char>>, Seq<Seq<char>>), &'static str>
    decreases tokens.len(),
{
    if tokens.len() == 0 {
        Ok(state)
    } else {
        match yard_from(state, tokens.drop_last()) {
            Ok(x) => yard_step(x, tokens.last()),
            Err(e) => Err(e),
        }
    }
}

proof fn lemma_yard_prefix_is_yard_from(t: Seq<Seq<char>>)
    ensures
        yard_prefix(t) == yard_from((Seq::empty(), Seq::empty()), t),
    decreases t.len(),
{
    if t.len() > 0 {
        lemma_yard_prefix_is_yard_from(t.drop_last());
    }
}

proof fn lemma_yard_from_concat(
    state: (Seq<Seq<char>>, Seq<Seq<char>>),
    a: Seq<Seq<char>>,
    b: Seq<Seq<char>>,
)
    ensures
        yard_from(state, a + b) == match yard_from(state, a) {
            Ok(x) => yard_from(x, b),
            Err(e) => Err(e),
        },
    decreases b.len(),
{
    if b.len() == 0 {
        assert(a + b =~= a);
    } else {
        lemma_yard_from_concat(state, a, b.drop_last());
        assert((a + b).drop_last() =~= a + b.drop_last());
        assert((a + b).last() == b.last());
    }
}

proof fn lemma_pop_binding_shift(
    pre_out: Seq<Seq<char>>,
    below: Seq<Seq<char>>,
    out: Seq<Seq<char>>,
    ops: Seq<Seq<char>>,
    p: int,
)
    requires
        below.len() > 0,
        below.last() == seq!['('],
    ensures
        pop_binding(pre_out + out, below + ops, p) == (
            pre_out + pop_binding(out, ops, p).0,
            below + pop_binding(out, ops, p).1,
        ),
    decreases ops.len(),
{
    lemma_operators_are_no_numbers(seq!['(']);
    if ops.len() > 0 {
        assert((below + ops).last() == ops.last());
        assert((below + ops).drop_last() =~= below + ops.drop_last());
        assert((pre_out + out).push(ops.last()) =~= pre_out + out.push(ops.last()));
        lemma_pop_binding_shift(pre_out, below, out.push(ops.last()), ops.drop_last(), p);
    } else {
        assert(below + ops =~= below);
    }
}

proof fn lemma_pop_to_open_shift(
    pre_out: Seq<Seq<char>>,
    below: Seq<Seq<char>>,
    out: Seq<Seq<char>>,
    ops: Seq<Seq<char>>,
)
    requires
        below.len() > 0,
        below.last() == seq!['('],
    ensures
        pop_to_open(pre_out + out, below + ops) == (
            pre_out + pop_to_open(out, ops).0,
            below + pop_to_open(out, ops).1,
        ),
    decreases ops.len(),
{
    if ops.len() > 0 {
        assert((below + ops).last() == ops.last());
        assert((below + ops).drop_last() =~= below + ops.drop_last());
        assert((pre_out + out).push(ops.last()) =~= pre_out + out.push(ops.last()));
        lemma_pop_to_open_shift(pre_out, below, out.push(ops.last()), ops.drop_last());
    } else {
        assert(below + ops =~= below);
    }
}

proof fn lemma_yard_shift(
    pre_out: Seq<Seq<char>>,
    below: Seq<Seq<char>>,
    t: Seq<Seq<char>>,
)
    requires
        below.len() > 0,
        below.last() == seq!['('],
        yard_from((Seq::empty(), Seq::empty()), t) is Ok,
    ensures
        ({
            let x = yard_from((Seq::empty(), Seq::empty()), t)->Ok_0;
            yard_from((pre_out, below), t) == Ok::<
                (Seq<Seq<char>>, Seq<Seq<char>>),
                &'static str,
            >((pre_out + x.0, below + x.1))
        }),
    decreases t.len(),
{
    let init = (Seq::<Seq<char>>::empty(), Seq::<Seq<char>>::empty());
    if t.len() == 0 {
        assert(pre_out + Seq::<Seq<char>>::empty() =~= pre_out);
        assert(below + Seq::<Seq<char>>::empty() =~= below);
    } else {
        let p = t.drop_last();
        let tok = t.last();
        lemma_yard_shift(pre_out, below, p);
        let x = yard_from(init, p)->Ok_0;
        lemma_operators_are_no_numbers(tok);
        if is_float_literal(tok) {
            assert((pre_out + x.0).push(tok) =~= pre_out + x.0.push(tok));
        } else if is_binary_operator(tok) {
            lemma_pop_binding_shift(pre_out, below, x.0, x.1, precedence(tok));
            let pp = pop_binding(x.0, x.1, precedence(tok));
            assert((below + pp.1).push(tok) =~= below + pp.1.push(tok));
        } else if tok == seq!['('] {
            assert((below + x.1).push(tok) =~= below + x.1.push(tok));
        } else {
            lemma_pop_to_open_shift(pre_out, below, x.0, x.1);
            let pp = pop_to_open(x.0, x.1);
            assert((below + pp.1).last() == pp.1.last());
            assert((below + pp.1).drop_last() =~= below + pp.1.drop_last());
        }
    }
}

proof fn lemma_drain_is_pop_to_open(out: Seq<Seq<char>>, ops: Seq<Seq<char>>)
    requires
        drain_ops(out, ops) is Ok,
    ensures
        pop_to_open(out, seq![seq!['(']] + ops) == (drain_ops(out, ops)->Ok_0, seq![seq!['(']]),
    decreases ops.len(),
{
    let b = seq![seq!['(']];
    if ops.len() > 0 {
        assert((b + ops).last() == ops.last());
        assert((b + ops).drop_last() =~= b + ops.drop_last());
        lemma_drain_is_pop_to_open(out.push(ops.last()), ops.drop_last());
    } else {
        assert(b + ops =~= b);
    }
}

/// Parentheses around a whole expression change nothing: wrapping any token list that
/// converts without error in `(` and `)` gives the same reverse Polish notation.
pub proof fn law_parentheses_around_expression(t: Seq<Seq<char>>)
    requires
        rpn_of(t) is Ok,
    ensures
        rpn_of(seq![seq!['(']] + t + seq![seq![')']]) == rpn_of(t),
{
    let init = (Seq::<Seq<char>>::empty(), Seq::<Seq<char>>::empty());
    let open = seq![seq!['(']];
    let close = seq![seq![')']];
    let e = Seq::<Seq<char>>::empty();
    lemma_operators_are_no_numbers(seq!['(']);
    lemma_operators_are_no_numbers(seq![')']);
    lemma_yard_prefix_is_yard_from(t);
    lemma_yard_prefix_is_yard_from(open + t + close);
    lemma_yard_from_concat(init, open + t, close);
    lemma_yard_from_concat(init, open, t);
    assert(open.drop_last() =~= e);
    assert(yard_from(init, e) == Ok::<(Seq<Seq<char>>, Seq<Seq<char>>), &'static str>(init));
    assert(e.push(seq!['(']) =~= open);
    assert(yard_from(init, open) == Ok::<(Seq<Seq<char>>, Seq<Seq<char>>), &'static str>(
        (e, open),
    ));
    lemma_yard_shift(e, open, t);
    let x = yard_from(init, t)->Ok_0;
    assert(e + x.0 =~= x.0);
    lemma_drain_is_pop_to_open(x.0, x.1);
    let r = drain_ops(x.0, x.1)->Ok_0;
    assert(close.drop_last() =~= e);
    assert(close.last() == seq![')']);
    let st = (x.0, open + x.1);
    assert(yard_from(st, e) == Ok::<(Seq<Seq<char>>, Seq<Seq<char>>), &'static str>(st));
    assert(seq![')'][0] != seq!['('][0]);
    assert(seq![')'] != seq!['(']);
    assert(pop_to_open(x.0, open + x.1) == (r, open));
    assert(open.last() == seq!['(']);
    assert(yard_step(st, seq![')']) == Ok::<(Seq<Seq<char>>, Seq<Seq<char>>), &'static str>(
        (r, e),
    ));
    assert(yard_from((x.0, open + x.1), close) == Ok::<
        (Seq<Seq<char>>, Seq<Seq<char>>),
        &'static str,
    >((r, e)));
    assert(open.drop_last() =~= e);
}

// ---------------------------------------------------------------------------
// What the reverse Polish notation means
// ---------------------------------------------------------------------------

/// The value of the binary operator `op` applied to `a` and `b` (integer division for `/`).
pub open spec fn apply_op(op: Seq<char>, a: int, b: int) -> int {
    if op == seq!['+'] {
        a + b
    } else if op == seq!['-'] {
        a - b
    } else if op == seq!['*'] {
        a * b
    } else {
        a / b
    }
}

/// One token of reverse Polish notation evaluated on the value stack `st`: a number pushes its
/// value, an operator replaces the top two values `a`, `b` (in that order) with `a op b`;
/// `None` for a missing argument or any other token.
pub open spec fn rpn_eval_step(st: Seq<int>, t: Seq<char>, val: spec_fn(Seq<char>) -> int) -> Option<
    Seq<int>,
> {
    if is_float_literal(t) {
        Some(st.push(val(t)))
    } else if is_binary_operator(t) && st.len() >= 2 {
        Some(
            st.subrange(0, st.len() - 2).push(
                apply_op(t, st[st.len() - 2], st[st.len() - 1]),
            ),
        )
    } else {
        None
    }
}

/// The value stack after evaluating `rpn` from the left, each number token valued by `val`.
pub open spec fn rpn_eval_stack(rpn: Seq<Seq<char>>, val: spec_fn(Seq<char>) -> int) -> Option<
    Seq<int>,
>
    decreases rpn.len(),
{
    if rpn.len() == 0 {
        Some(Seq::empty())
    } else {
        match rpn_eval_stack(rpn.drop_last(), val) {
            Some(st) => rpn_eval_step(st, rpn.last(), val),
            None => None,
        }
    }
}

/// An infix expression without parentheses: numbers at the even positions, operators
/// `+ - * /` between them.
pub open spec fn is_flat_expression(t: Seq<Seq<char>>) -> bool {
    &&& t.len() % 2 == 1
    &&& forall|i: int| 0 <= i < t.len() && i % 2 == 0 ==> is_float_literal(#[trigger] t[i])
    &&& forall|i: int| 0 <= i < t.len() && i % 2 == 1 ==> is_binary_operator(#[trigger] t[i])
}

/// `acc aop term` when an additive operator is pending, else `term`.
pub open spec fn combine_pending(acc: int, aop: Option<Seq<char>>, term: int) -> int {
    match aop {
        Some(o) => apply_op(o, acc, term),
        None => term,
    }
}

/// One operator and number read by `infix_state`: `* /` fold into the current term; `+ -`
/// settle the pending sum and start a new term.
pub open spec fn infix_step(prev: (int, Option<Seq<char>>, int), o: Seq<char>, n: int) -> (
    int,
    Option<Seq<char>>,
    int,
) {
    if precedence(o) == 2 {
        (prev.0, prev.1, apply_op(o, prev.2, n))
    } else {
        (combine_pending(prev.0, prev.1, prev.2), Some(o), n)
    }
}

/// Reading a flat infix expression from the left with `* /` binding tighter than `+ -` and
/// both levels associating to the left: the sum so far, the additive operator waiting for the
/// current term, and the current term (the product of the numbers since that operator).
pub open spec fn infix_state(t: Seq<Seq<char>>, val: spec_fn(Seq<char>) -> int) -> (
    int,
    Option<Seq<char>>,
    int,
)
    decreases t.len(),
{
    if t.len() < 3 {
        (0, None, val(t[0]))
    } else {
        infix_step(
            infix_state(t.subrange(0, t.len() - 2), val),
            t[t.len() - 2],
            val(t[t.len() - 1]),
        )
    }
}

/// The value of a flat infix expression, `* /` binding tighter than `+ -`, both levels
/// associating to the left.
pub open spec fn infix_value(t: Seq<Seq<char>>, val: spec_fn(Seq<char>) -> int) -> int {
    let st = infix_state(t, val);
    combine_pending(st.0, st.1, st.2)
}

/// How the shunting-yard state after a flat prefix relates to its value: the value stack of
/// the output, together with the operators still on the stack, holds the pending sum and term.
spec fn yard_tracks(
    state: (Seq<Seq<char>>, Seq<Seq<char>>),
    sem: (int, Option<Seq<char>>, int),
    val: spec_fn(Seq<char>) -> int,
) -> bool {
    let ops = state.1;
    match rpn_eval_stack(state.0, val) {
        None => false,
        Some(e) => if ops.len() == 0 {
            e == seq![sem.2] && sem.1 is None
        } else if ops.len() == 1 && precedence(ops[0]) == 2 {
            e.len() == 2 && sem.1 is None && sem.2 == apply_op(ops[0], e[0], e[1])
        } else if ops.len() == 1 && precedence(ops[0]) == 1 {
            e == seq![sem.0, sem.2] && sem.1 == Some(ops[0])
        } else {
            &&& ops.len() == 2
            &&& precedence(ops[0]) == 1
            &&& precedence(ops[1]) == 2
            &&& e.len() == 3
            &&& e[0] == sem.0
            &&& sem.1 == Some(ops[0])
            &&& sem.2 == apply_op(ops[1], e[1], e[2])
        },
    }
}

proof fn lemma_eval_push(out: Seq<Seq<char>>, x: Seq<char>, val: spec_fn(Seq<char>) -> int)
    ensures
        rpn_eval_stack(out.push(x), val) == match rpn_eval_stack(out, val) {
            Some(st) => rpn_eval_step(st, x, val),
            None => None,
        },
{
    assert(out.push(x).drop_last() =~= out);
}

proof fn lemma_precedence_cases(t: Seq<char>)
    ensures
        is_binary_operator(t) ==> precedence(t) == 1 || precedence(t) == 2,
        precedence(t) == 1 || precedence(t) == 2 ==> is_binary_operator(t) && !is_float_literal(t)
            && t != seq!['('] && t != seq![')'],
{
    lemma_operators_are_no_numbers(t);
    lemma_operators_are_no_numbers(seq!['(']);
    lemma_operators_are_no_numbers(seq![')']);
}

proof fn lemma_flat_prefix(t: Seq<Seq<char>>)
    requires
        is_flat_expression(t),
        t.len() >= 3,
    ensures
        is_flat_expression(t.subrange(0, t.len() - 2)),
        t.drop_last().drop_last() == t.subrange(0, t.len() - 2),
        is_binary_operator(t[t.len() - 2]),
        is_float_literal(t[t.len() - 1]),
{
    let p = t.subrange(0, t.len() - 2);
    assert(t.drop_last().drop_last() =~= p);
    assert forall|i: int| 0 <= i < p.len() && i % 2 == 0 implies is_float_literal(#[trigger] p[i]) by {
        assert(p[i] == t[i]);
    }
    assert forall|i: int| 0 <= i < p.len() && i % 2 == 1 implies is_binary_operator(
        #[trigger] p[i],
    ) by {
        assert(p[i] == t[i]);
    }
    assert((t.len() - 2) % 2 == 1);
    assert((t.len() - 1) % 2 == 0);
}

proof fn lemma_yard_two_steps(t: Seq<Seq<char>>)
    requires
        is_flat_expression(t),
        t.len() >= 3,
    ensures
        yard_prefix(t) == match yard_prefix(t.subrange(0, t.len() - 2)) {
            Ok(st) => {
                let pp = pop_binding(st.0, st.1, precedence(t[t.len() - 2]));
                Ok((pp.0.push(t[t.len() - 1]), pp.1.push(t[t.len() - 2])))
            },
            Err(e) => Err(e),
        },
{
    lemma_flat_prefix(t);
    let o = t[t.len() - 2];
    let n = t[t.len() - 1];
    let p = t.subrange(0, t.len() - 2);
    lemma_operators_are_no_numbers(o);
    let d = t.drop_last();
    assert(d.last() == o);
    assert(t.last() == n);
    assert(d.drop_last() == p);
    assert(yard_prefix(d) == match yard_prefix(p) {
        Ok(st) => yard_step(st, o),
        Err(e) => Err(e),
    });
    assert(yard_prefix(t) == match yard_prefix(d) {
        Ok(st) => yard_step(st, n),
        Err(e) => Err(e),
    });
}

proof fn lemma_track_step(
    out: Seq<Seq<char>>,
    ops: Seq<Seq<char>>,
    sem: (int, Option<Seq<char>>, int),
    o: Seq<char>,
    n: Seq<char>,
    val: spec_fn(Seq<char>) -> int,
)
    requires
        yard_tracks((out, ops), sem, val),
        is_binary_operator(o),
        is_float_literal(n),
    ensures
        ({
            let pp = pop_binding(out, ops, precedence(o));
            yard_tracks((pp.0.push(n), pp.1.push(o)), infix_step(sem, o, val(n)), val)
        }),
{
    reveal_with_fuel(pop_binding, 3);
    let vn = val(n);
    let e = rpn_eval_stack(out, val)->0;
    lemma_precedence_cases(o);
    lemma_operators_are_no_numbers(n);
    let pr = precedence(o);
    if ops.len() > 0 {
        lemma_precedence_cases(ops[0]);
    }
    if ops.len() > 1 {
        lemma_precedence_cases(ops[1]);
    }
    if ops.len() == 0 {
        lemma_eval_push(out, n, val);
        assert(pop_binding(out, ops, pr) == (out, ops));
        assert(ops.push(o) =~= seq![o]);
        assert(rpn_eval_stack(out.push(n), val)->0 =~= seq![sem.2, vn]);
    } else if ops.len() == 1 && precedence(ops[0]) == 2 {
        let m = ops[0];
        let out1 = out.push(m);
        lemma_eval_push(out, m, val);
        lemma_eval_push(out1, n, val);
        assert(ops.drop_last() =~= Seq::<Seq<char>>::empty());
        assert(pop_binding(out, ops, pr) == (out1, Seq::<Seq<char>>::empty()));
        assert(Seq::<Seq<char>>::empty().push(o) =~= seq![o]);
        assert(e.subrange(0, 0).push(apply_op(m, e[0], e[1])) =~= seq![sem.2]);
        assert(rpn_eval_stack(out1.push(n), val)->0 =~= seq![sem.2, vn]);
    } else if ops.len() == 1 {
        let a = ops[0];
        if pr == 2 {
            lemma_eval_push(out, n, val);
            assert(pop_binding(out, ops, pr) == (out, ops));
            assert(ops.push(o) =~= seq![a, o]);
            assert(rpn_eval_stack(out.push(n), val)->0 =~= seq![sem.0, sem.2, vn]);
        } else {
            let out1 = out.push(a);
            lemma_eval_push(out, a, val);
            lemma_eval_push(out1, n, val);
            assert(ops.drop_last() =~= Seq::<Seq<char>>::empty());
            assert(pop_binding(out, ops, pr) == (out1, Seq::<Seq<char>>::empty()));
            assert(Seq::<Seq<char>>::empty().push(o) =~= seq![o]);
            assert(e.subrange(0, 0).push(apply_op(a, e[0], e[1])) =~= seq![
                apply_op(a, sem.0, sem.2),
            ]);
            assert(rpn_eval_stack(out1.push(n), val)->0 =~= seq![apply_op(a, sem.0, sem.2), vn]);
        }
    } else {
        lemma_track_step_two(out, ops, sem, o, n, val);
    }
}

proof fn lemma_track_step_two(
    out: Seq<Seq<char>>,
    ops: Seq<Seq<char>>,
    sem: (int, Option<Seq<char>>, int),
    o: Seq<char>,
    n: Seq<char>,
    val: spec_fn(Seq<char>) -> int,
)
    requires
        yard_tracks((out, ops), sem, val),
        ops.len() == 2,
        precedence(ops[0]) == 1,
        precedence(ops[1]) == 2,
        is_binary_operator(o),
        is_float_literal(n),
    ensures
        ({
            let pp = pop_binding(out, ops, precedence(o));
            yard_tracks((pp.0.push(n), pp.1.push(o)), infix_step(sem, o, val(n)), val)
        }),
{
    reveal_with_fuel(pop_binding, 3);
    let vn = val(n);
    let e = rpn_eval_stack(out, val)->0;
    lemma_precedence_cases(o);
    lemma_precedence_cases(ops[0]);
    lemma_precedence_cases(ops[1]);
    lemma_operators_are_no_numbers(n);
    let pr = precedence(o);
    let a = ops[0];
    let m = ops[1];
    let out1 = out.push(m);
    lemma_eval_push(out, m, val);
    let e1 = e.subrange(0, 1).push(apply_op(m, e[1], e[2]));
    assert(e1 =~= seq![sem.0, sem.2]);
    assert(ops.drop_last() =~= seq![a]);
    if pr == 2 {
        lemma_eval_push(out1, n, val);
        assert(pop_binding(out1, seq![a], pr) == (out1, seq![a]));
        assert(pop_binding(out, ops, pr) == (out1, seq![a]));
        assert(seq![a].push(o) =~= seq![a, o]);
        assert(rpn_eval_stack(out1.push(n), val)->0 =~= seq![sem.0, sem.2, vn]);
    } else {
        let out2 = out1.push(a);
        lemma_eval_push(out1, a, val);
        lemma_eval_push(out2, n, val);
        assert(seq![a].drop_last() =~= Seq::<Seq<char>>::empty());
        assert(pop_binding(out2, Seq::<Seq<char>>::empty(), pr) == (
            out2,
            Seq::<Seq<char>>::empty(),
        ));
        assert(pop_binding(out1, seq![a], pr) == (out2, Seq::<Seq<char>>::empty()));
        assert(pop_binding(out, ops, pr) == (out2, Seq::<Seq<char>>::empty()));
        assert(Seq::<Seq<char>>::empty().push(o) =~= seq![o]);
        assert(e1.subrange(0, 0).push(apply_op(a, e1[0], e1[1])) =~= seq![
            apply_op(a, sem.0, sem.2),
        ]);
        assert(rpn_eval_stack(out2.push(n), val)->0 =~= seq![apply_op(a, sem.0, sem.2), vn]);
    }
}

proof fn lemma_yard_tracks_flat(t: Seq<Seq<char>>, val: spec_fn(Seq<char>) -> int)
    requires
        is_flat_expression(t),
    ensures
        yard_prefix(t) is Ok,
        yard_tracks(yard_prefix(t)->Ok_0, infix_state(t, val), val),
    decreases t.len(),
{
    if t.len() < 3 {
        assert(t.len() == 1);
        assert(is_float_literal(t[0]));
        let e = Seq::<Seq<char>>::empty();
        assert(t.drop_last() =~= e);
        assert(yard_prefix(e) == Ok::<(Seq<Seq<char>>, Seq<Seq<char>>), &'static str>((e, e)));
        assert(t.last() == t[0]);
        lemma_eval_push(e, t[0], val);
        assert(rpn_eval_stack(e, val) == Some(Seq::<int>::empty()));
        assert(Seq::<int>::empty().push(val(t[0])) =~= seq![val(t[0])]);
    } else {
        let p = t.subrange(0, t.len() - 2);
        lemma_flat_prefix(t);
        lemma_yard_two_steps(t);
        lemma_yard_tracks_flat(p, val);
        let st = yard_prefix(p)->Ok_0;
        lemma_track_step(st.0, st.1, infix_state(p, val), t[t.len() - 2], t[t.len() - 1], val);
    }
}

/// Reverse Polish notation computes what the infix expression means: for every expression
/// without parentheses (numbers separated by `+ - * /`) and every valuation of its numbers,
/// the conversion succeeds and evaluating its output on a stack leaves exactly the infix
/// value, with `* /` binding tighter than `+ -` and both levels associating to the left.
pub proof fn law_rpn_evaluates_like_infix(tokens: Seq<Seq<char>>, val: spec_fn(Seq<char>) -> int)
    requires
        is_flat_expression(tokens),
    ensures
        rpn_of(tokens) is Ok,
        rpn_eval_stack(rpn_of(tokens)->Ok_0, val) == Some(seq![infix_value(tokens, val)]),
{
    reveal_with_fuel(drain_ops, 3);
    lemma_yard_tracks_flat(tokens, val);
    let st = yard_prefix(tokens)->Ok_0;
    let out = st.0;
    let ops = st.1;
    let sem = infix_state(tokens, val);
    let e = rpn_eval_stack(out, val)->0;
    if ops.len() > 0 {
        lemma_precedence_cases(ops[0]);
    }
    if ops.len() > 1 {
        lemma_precedence_cases(ops[1]);
    }
    if ops.len() == 0 {
        assert(drain_ops(out, ops) == Ok::<Seq<Seq<char>>, &'static str>(out));
    } else if ops.len() == 1 {
        let x = ops[0];
        lemma_eval_push(out, x, val);
        assert(ops.drop_last() =~= Seq::<Seq<char>>::empty());
        assert(drain_ops(out, ops) == Ok::<Seq<Seq<char>>, &'static str>(out.push(x)));
        assert(e.subrange(0, 0).push(apply_op(x, e[0], e[1])) =~= seq![infix_value(tokens, val)]);
    } else {
        let a = ops[0];
        let m = ops[1];
        let out1 = out.push(m);
        lemma_eval_push(out, m, val);
        lemma_eval_push(out1, a, val);
        assert(ops.drop_last() =~= seq![a]);
        assert(seq![a].drop_last() =~= Seq::<Seq<char>>::empty());
        assert(drain_ops(out, ops) == Ok::<Seq<Seq<char>>, &'static str>(out1.push(a)));
        let e1 = e.subrange(0, 1).push(apply_op(m, e[1], e[2]));
        assert(e1 =~= seq![sem.0, sem.2]);
        assert(e1.subrange(0, 0).push(apply_op(a, e1[0], e1[1])) =~= seq![
            infix_value(tokens, val),
        ]);
    }
}

// ---------------------------------------------------------------------------
// Keypad
// ---------------------------------------------------------------------------

/// What pressing a keypad button does.
#[derive(Clone, Copy, Debug, PartialEq, Eq, Structural)]
pub enum ButtonAction {
    /// `C`: clear the input and the result.
    Clear,
    /// `<-`: delete the last character of the input.
    Backspace,
    /// `=`: evaluate the input.
    Evaluate,
    /// Any other button: append its label to the input.
    Append,
}

/// The action of the button labelled `label`.
pub open spec fn action_of(label: Seq<char>) -> ButtonAction {
    if label == seq!['C'] {
        ButtonAction::Clear
    } else if label == seq!['<', '-'] {
        ButtonAction::Backspace
    } else if label == seq!['='] {
        ButtonAction::Evaluate
    } else {
        ButtonAction::Append
    }
}

/// The action of a keypad button.
pub fn button_action(label: &str) -> (a: ButtonAction)
    ensures
        a == action_of(label@),
{
    let n = label.unicode_len();
    proof {
        lemma_single_char_seq(label@, 'C');
        lemma_single_char_seq(label@, '=');
    }
    if n == 1 {
        let c = label.get_char(0);
        if c == 'C' {
            return ButtonAction::Clear;
        } else if c == '=' {
            return ButtonAction::Evaluate;
        }
    } else if n == 2 {
        if label.get_char(0) == '<' && label.get_char(1) == '-' {
            assert(label@ =~= seq!['<', '-']);
            return ButtonAction::Backspace;
        }
    }
    proof {
        if label@ == seq!['<', '-'] {
            assert(label@[0] == '<' && label@[1] == '-');
        }
    }
    ButtonAction::Append
}

/// The calculator's text fields: what the user typed and the last result shown.
pub struct Calculator {
    pub input: String,
    pub result: String,
}

impl Calculator {
    /// A calculator with nothing typed and nothing shown.
    pub fn new() -> (c: Calculator)
        ensures
            c.input@ == Seq::<char>::empty(),
            c.result@ == Seq::<char>::empty(),
    {
        Calculator { input: String::new(), result: String::new() }
    }

    /// Handles a button press. Returns whether the input is to be evaluated now (the `=`
    /// button); the evaluation and the result text are the caller's.
    pub fn press(&mut self, label: &str) -> (evaluate: bool)
        ensures
            evaluate == (action_of(label@) == ButtonAction::Evaluate),
            action_of(label@) == ButtonAction::Clear ==> final(self).input@ == Seq::<
                char,
            >::empty() && final(self).result@ == Seq::<char>::empty(),
            action_of(label@) == ButtonAction::Backspace ==> final(self).result@ == old(
                self,
            ).result@ && (if old(self).input@.len() > 0 {
                final(self).input@ == old(self).input@.drop_last()
            } else {
                final(self).input@ == old(self).input@
            }),
            action_of(label@) == ButtonAction::Evaluate ==> final(self).input@ == old(
                self,
            ).input@ && final(self).result@ == old(self).result@,
            action_of(label@) == ButtonAction::Append ==> final(self).input@ == old(
                self,
            ).input@ + label@ && final(self).result@ == old(self).result@,
    {
        match button_action(label) {
            ButtonAction::Clear => {
                self.input = String::new();
                self.result = String::new();
                false
            },
            ButtonAction::Backspace => {
                pop_char(&mut self.input);
                false
            },
            ButtonAction::Evaluate => true,
            ButtonAction::Append => {
                self.input.append(label);
                false
            },
        }
    }
}

} // verus!
