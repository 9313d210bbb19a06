use vstd::prelude::*;

use crate::lexer::{
    digit_value, digits_value, is_bpm_word, is_digit, is_letter, is_word_char, lex, lex_from,
    push_newline, run_end, tokens_view, word_token, no_adjacent_newlines, Token, TokenV,
};

verus! {

pub open spec fn digit_char(d: int) -> char {
    seq!['0', '1', '2', '3', '4', '5', '6', '7', '8', '9'][d]
}

/// The base-ten digits of `n`, without leading zeros.
pub open spec fn decimal(n: nat) -> Seq<char>
    decreases n,
{
    if n < 10 {
        seq![digit_char(n as int)]
    } else {
        decimal(n / 10).push(digit_char((n % 10) as int))
    }
}

/// The text of a token in canonical form.
pub open spec fn token_text(t: TokenV) -> Seq<char> {
    match t {
        TokenV::Identifier(w) => w,
        TokenV::Number(v) => if v < 0 {
            seq!['-'] + decimal((-v) as nat)
        } else {
            decimal(v as nat)
        },
        TokenV::BpmKeyword => seq!['B', 'P', 'M'],
        TokenV::Solidus => seq!['/'],
        TokenV::LeftAngle => seq!['<'],
        TokenV::RightAngle => seq!['>'],
        TokenV::LeftParen => seq!['('],
        TokenV::RightParen => seq![')'],
        TokenV::Comma => seq![','],
        TokenV::Colon => seq![':'],
        TokenV::Newline => seq!['\n'],
    }
}

/// Tokens written back as text: each token's text followed by one space.
pub open spec fn print_tokens(ts: Seq<TokenV>) -> Seq<char>
    decreases ts.len(),
{
    if ts.len() == 0 {
        Seq::empty()
    } else {
        print_tokens(ts.drop_last()) + token_text(ts.last()) + seq![' ']
    }
}

/// Relies on `String::push`: the character is appended.
#[verifier::external_body]
fn push_char(s: &mut String, c: char)
    ensures
        final(s)@ == old(s)@.push(c),
{
    s.push(c);
}

fn digit_char_exec(d: usize) -> (c: char)
    requires
        d < 10,
    ensures
        c == digit_char(d as int),
{
    let digits: [char; 10] = ['0', '1', '2', '3', '4', '5', '6', '7', '8', '9'];
    proof {
        assert(digits@ =~= seq!['0', '1', '2', '3', '4', '5', '6', '7', '8', '9']);
    }
    digits[d]
}

fn push_decimal(s: &mut String, n: usize)
    ensures
        final(s)@ == old(s)@ + decimal(n as nat),
    decreases n,
{
    if n >= 10 {
        push_decimal(s, n / 10);
    }
    push_char(s, digit_char_exec(n % 10));
    assert(s@ =~= old(s)@ + decimal(n as nat));
}

fn push_str(s: &mut String, w: &String)
    ensures
        final(s)@ == old(s)@ + w@,
{
    let t = w.as_str();
    let n = t.unicode_len();
    let mut i: usize = 0;
    while i < n
        invariant
            n == t@.len(),
            t@ == w@,
            i <= n,
            s@ == old(s)@ + t@.subrange(0, i as int),
        decreases n - i,
    {
        push_char(s, t.get_char(i));
        assert(s@ =~= old(s)@ + t@.subrange(0, i + 1));
        i += 1;
    }
    assert(t@.subrange(0, n as int) =~= t@);
}

fn push_token(s: &mut String, t: &Token)
    ensures
        final(s)@ == old(s)@ + token_text(t@),
{
    match t {
        Token::Identifier(w) => push_str(s, w),
        Token::Number(v) => {
            let v = *v;
            if v < 0 {
                push_char(s, '-');
                let magnitude = (-(v + 1)) as usize + 1;
                push_decimal(s, magnitude);
                assert(s@ =~= old(s)@ + token_text(t@));
            } else {
                push_decimal(s, v as usize);
            }
        },
        Token::BpmKeyword => {
            push_char(s, 'B');
            push_char(s, 'P');
            push_char(s, 'M');
            assert(s@ =~= old(s)@ + token_text(t@));
        },
        Token::Solidus => push_char(s, '/'),
        Token::LeftAngle => push_char(s, '<'),
        Token::RightAngle => push_char(s, '>'),
        Token::LeftParen => push_char(s, '('),
        Token::RightParen => push_char(s, ')'),
        Token::Comma => push_char(s, ','),
        Token::Colon => push_char(s, ':'),
        Token::Newline => push_char(s, '\n'),
    }
    assert(s@ =~= old(s)@ + token_text(t@));
}

/// Writes tokens back as source text, each followed by one space.
pub fn pretty_print(tokens: &Vec<Token>) -> (r: String)
    ensures
        r@ == print_tokens(tokens_view(tokens@)),
{
    let ghost tv = tokens_view(tokens@);
    let mut s = String::new();
    let mut i: usize = 0;
    assert(tv.subrange(0, 0) =~= Seq::<TokenV>::empty());
    while i < tokens.len()
        invariant
            i <= tokens@.len(),
            tv == tokens_view(tokens@),
            s@ == print_tokens(tv.subrange(0, i as int)),
        decreases tokens@.len() - i,
    {
        assert(tv.subrange(0, i + 1).drop_last() =~= tv.subrange(0, i as int));
        assert(tv.subrange(0, i + 1).last() == tokens@[i as int]@);
        push_token(&mut s, &tokens[i]);
        push_char(&mut s, ' ');
        i += 1;
    }
    assert(tv.subrange(0, tokens@.len() as int) =~= tv);
    s
}


/// A token as the lexer can produce it.
pub open spec fn valid_token(t: TokenV) -> bool {
    match t {
        TokenV::Identifier(w) => w.len() > 0 && is_letter(w[0]) && (forall|k: int|
            0 <= k < w.len() ==> is_word_char(#[trigger] w[k])) && !is_bpm_word(w),
        TokenV::Number(v) => 0 <= v <= isize::MAX,
        _ => true,
    }
}

pub open spec fn valid_tokens(ts: Seq<TokenV>) -> bool {
    &&& forall|k: int| 0 <= k < ts.len() ==> valid_token(#[trigger] ts[k])
    &&& no_adjacent_newlines(ts)
}

proof fn lemma_digit_char(d: int)
    requires
        0 <= d < 10,
    ensures
        is_digit(digit_char(d)),
        digit_value(digit_char(d)) == d,
        d > 0 ==> digit_char(d) != '0',
{
    if d == 0 {
    } else if d == 1 {
    } else if d == 2 {
    } else if d == 3 {
    } else if d == 4 {
    } else if d == 5 {
    } else if d == 6 {
    } else if d == 7 {
    } else if d == 8 {
    } else {
    }
}

proof fn lemma_decimal(n: nat)
    ensures
        decimal(n).len() >= 1,
        forall|k: int| 0 <= k < decimal(n).len() ==> is_digit(#[trigger] decimal(n)[k]),
        digits_value(decimal(n)) == n,
        n >= 10 ==> decimal(n)[0] != '0',
        n >= 1 ==> decimal(n)[0] != '0',
        n < 10 ==> decimal(n).len() == 1,
    decreases n,
{
    if n < 10 {
        lemma_digit_char(n as int);
        assert(decimal(n).drop_last() =~= Seq::<char>::empty());
        assert(digits_value(Seq::<char>::empty()) == 0);
        assert(decimal(n).last() == digit_char(n as int));
    } else {
        lemma_decimal(n / 10);
        lemma_digit_char((n % 10) as int);
        assert(decimal(n).drop_last() =~= decimal(n / 10));
        assert(decimal(n).last() == digit_char((n % 10) as int));
        assert(decimal(n)[0] == decimal(n / 10)[0]);
        assert(digits_value(decimal(n)) == 10 * (n / 10) + n % 10);
    }
}

proof fn lemma_run_end_exact(s: Seq<char>, i: int, m: int, word: bool)
    requires
        0 <= i <= m < s.len(),
        forall|k: int|
            i <= k < m ==> (if word { is_word_char(#[trigger] s[k]) } else { is_digit(s[k]) }),
        !(if word { is_word_char(s[m]) } else { is_digit(s[m]) }),
    ensures
        run_end(s, i, word) == m,
    decreases m - i,
{
    if i < m {
        lemma_run_end_exact(s, i + 1, m, word);
    }
}

proof fn lemma_run_end_shift(s: Seq<char>, i: int, j: int, word: bool)
    requires
        0 <= i <= j <= s.len(),
    ensures
        run_end(s, j, word) == run_end(s.subrange(i, s.len() as int), j - i, word) + i,
    decreases s.len() - j,
{
    if j < s.len() {
        lemma_run_end_shift(s, i, j + 1, word);
    }
}

/// Tokenizing from `j` depends on the text from `j` on only.
proof fn lemma_lex_suffix(s: Seq<char>, i: int, j: int, acc: Seq<TokenV>)
    requires
        0 <= i <= j <= s.len(),
    ensures
        lex_from(s, j, acc) == lex_from(s.subrange(i, s.len() as int), j - i, acc),
    decreases s.len() - j,
{
    let t = s.subrange(i, s.len() as int);
    if j < s.len() {
        let c = s[j];
        assert(t[j - i] == c);
        crate::lexer::lemma_run_end(s, j, true);
        crate::lexer::lemma_run_end(s, j, false);
        lemma_run_end_shift(s, i, j, true);
        lemma_run_end_shift(s, i, j, false);
        let kw = run_end(s, j, true);
        let kd = run_end(s, j, false);
        assert(s.subrange(j, kw) =~= t.subrange(j - i, kw - i));
        assert(s.subrange(j, kd) =~= t.subrange(j - i, kd - i));
        if c == '\n' {
            lemma_lex_suffix(s, i, j + 1, push_newline(acc));
        } else if crate::lexer::is_blank(c) {
            lemma_lex_suffix(s, i, j + 1, acc);
        } else if crate::lexer::single_char_token(c) is Some {
            lemma_lex_suffix(s, i, j + 1, acc.push(crate::lexer::single_char_token(c)->0));
        } else if is_letter(c) {
            lemma_lex_suffix(s, i, kw, acc.push(word_token(s.subrange(j, kw))));
        } else if is_digit(c) {
            lemma_lex_suffix(s, i, kd, acc.push(TokenV::Number(digits_value(s.subrange(j, kd)))));
        }
    }
}

/// The tokens after `acc` once `t` is read.
pub open spec fn step(acc: Seq<TokenV>, t: TokenV) -> Seq<TokenV> {
    if t == TokenV::Newline {
        push_newline(acc)
    } else {
        acc.push(t)
    }
}

/// Reading a token's text and a space gives the token back.
proof fn lemma_lex_token(t: TokenV, r: Seq<char>, acc: Seq<TokenV>)
    requires
        valid_token(t),
    ensures
        lex_from(token_text(t) + seq![' '] + r, 0, acc) == lex_from(r, 0, step(acc, t)),
{
    let text = token_text(t);
    let u = text + seq![' '] + r;
    let m = text.len() as int;
    let after = step(acc, t);
    assert(u[m] == ' ');
    assert(u.subrange(m + 1, u.len() as int) =~= r);
    lemma_lex_suffix(u, m + 1, m + 1, after);
    assert(lex_from(u, m, after) == lex_from(u, m + 1, after));
    match t {
        TokenV::Identifier(w) => {
            assert forall|k: int| 0 <= k < m implies is_word_char(#[trigger] u[k]) by {
                assert(u[k] == w[k]);
            }
            lemma_run_end_exact(u, 0, m, true);
            assert(u.subrange(0, m) =~= w);
            assert(u[0] == w[0]);
        },
        TokenV::Number(v) => {
            lemma_decimal(v as nat);
            assert forall|k: int| 0 <= k < m implies is_digit(#[trigger] u[k]) by {
                assert(u[k] == text[k]);
            }
            lemma_run_end_exact(u, 0, m, false);
            assert(u.subrange(0, m) =~= text);
            assert(u[0] == text[0]);
        },
        TokenV::BpmKeyword => {
            assert(u[0] == 'B' && u[1] == 'P' && u[2] == 'M');
            lemma_run_end_exact(u, 0, 3, true);
            assert(u.subrange(0, 3) =~= text);
        },
        _ => {
            assert(u[0] == text[0]);
        },
    }
}

proof fn lemma_print_front(ts: Seq<TokenV>)
    requires
        ts.len() > 0,
    ensures
        print_tokens(ts) == token_text(ts[0]) + seq![' '] + print_tokens(ts.drop_first()),
    decreases ts.len(),
{
    if ts.len() == 1 {
        assert(ts.drop_last() =~= Seq::<TokenV>::empty());
        assert(ts.drop_first() =~= Seq::<TokenV>::empty());
        assert(print_tokens(ts.drop_first()) == Seq::<char>::empty());
        assert(print_tokens(ts) =~= token_text(ts[0]) + seq![' '] + print_tokens(
            ts.drop_first(),
        ));
    } else {
        lemma_print_front(ts.drop_last());
        assert(ts.drop_last().drop_first() =~= ts.drop_first().drop_last());
        assert(ts.drop_first().last() == ts.last());
        assert(print_tokens(ts) =~= token_text(ts[0]) + seq![' '] + print_tokens(
            ts.drop_first(),
        ));
    }
}

proof fn lemma_lex_print(ts: Seq<TokenV>, acc: Seq<TokenV>)
    requires
        valid_tokens(ts),
        ts.len() > 0 && ts[0] == TokenV::Newline ==> !(acc.len() > 0 && acc.last()
            == TokenV::Newline),
    ensures
        lex_from(print_tokens(ts), 0, acc) == Ok::<Seq<TokenV>, crate::lexer::LexError>(acc + ts),
    decreases ts.len(),
{
    if ts.len() == 0 {
        assert(acc + ts =~= acc);
    } else {
        let rest = ts.drop_first();
        lemma_print_front(ts);
        lemma_lex_token(ts[0], print_tokens(rest), acc);
        assert(step(acc, ts[0]) == acc.push(ts[0]));
        assert forall|k: int| 0 <= k < rest.len() implies valid_token(#[trigger] rest[k]) by {
            assert(rest[k] == ts[k + 1]);
        }
        assert forall|k: int| 0 <= k < rest.len() - 1 implies !(#[trigger] rest[k]
            == TokenV::Newline && rest[k + 1] == TokenV::Newline) by {
            assert(rest[k] == ts[k + 1]);
            assert(rest[k + 1] == ts[k + 2]);
        }
        if rest.len() > 0 {
            assert(rest[0] == ts[1]);
        }
        lemma_lex_print(rest, acc.push(ts[0]));
        assert(acc.push(ts[0]) + rest =~= acc + ts);
    }
}

proof fn lemma_lex_valid(s: Seq<char>, i: int, acc: Seq<TokenV>)
    requires
        forall|k: int| 0 <= k < acc.len() ==> valid_token(#[trigger] acc[k]),
    ensures
        lex_from(s, i, acc) is Ok ==> forall|k: int|
            0 <= k < lex_from(s, i, acc)->Ok_0.len() ==> valid_token(
                #[trigger] lex_from(s, i, acc)->Ok_0[k],
            ),
    decreases s.len() - i,
{
    if 0 <= i < s.len() && lex_from(s, i, acc) is Ok {
        let c = s[i];
        crate::lexer::lemma_run_end(s, i, true);
        crate::lexer::lemma_run_end(s, i, false);
        if c == '\n' {
            let a2 = push_newline(acc);
            assert forall|k: int| 0 <= k < a2.len() implies valid_token(#[trigger] a2[k]) by {
                if k < acc.len() {
                    assert(a2[k] == acc[k]);
                }
            }
            lemma_lex_valid(s, i + 1, a2);
        } else if crate::lexer::is_blank(c) {
            lemma_lex_valid(s, i + 1, acc);
        } else {
            let j = if is_letter(c) {
                run_end(s, i, true)
            } else {
                run_end(s, i, false)
            };
            let t = if crate::lexer::single_char_token(c) is Some {
                crate::lexer::single_char_token(c)->0
            } else if is_letter(c) {
                word_token(s.subrange(i, j))
            } else {
                TokenV::Number(digits_value(s.subrange(i, j)))
            };
            if is_letter(c) {
                let w = s.subrange(i, j);
                assert(w[0] == c);
                assert forall|k: int| 0 <= k < w.len() implies is_word_char(#[trigger] w[k]) by {
                    assert(w[k] == s[i + k]);
                }
            }
            if is_digit(c) && crate::lexer::single_char_token(c) is None {
                let d = s.subrange(i, j);
                assert forall|k: int| 0 <= k < d.len() implies is_digit(#[trigger] d[k]) by {
                    assert(d[k] == s[i + k]);
                }
                crate::lexer::lemma_digits_nonneg(d);
            }
            let a2 = acc.push(t);
            assert forall|k: int| 0 <= k < a2.len() implies valid_token(#[trigger] a2[k]) by {
                if k < acc.len() {
                    assert(a2[k] == acc[k]);
                }
            }
            if crate::lexer::single_char_token(c) is Some {
                lemma_lex_valid(s, i + 1, a2);
            } else if is_letter(c) || is_digit(c) {
                lemma_lex_valid(s, j, a2);
            }
        }
    }
}

/// Tokenizing a source, writing its tokens back with one space after each,
/// and tokenizing that text gives the same tokens.
pub proof fn lemma_lex_print_stable(s: Seq<char>)
    ensures
        lex(s) is Ok ==> lex(print_tokens(lex(s)->Ok_0)) == lex(s),
{
    if lex(s) is Ok {
        let ts = lex(s)->Ok_0;
        lemma_lex_valid(s, 0, Seq::empty());
        crate::lexer::lemma_newlines_coalesce(s);
        lemma_lex_print(ts, Seq::empty());
        assert(Seq::<TokenV>::empty() + ts =~= ts);
    }
}

} // verus!
