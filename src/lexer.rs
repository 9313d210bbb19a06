use vstd::prelude::*;
use vstd::string::*;

verus! {

/// A lexical unit of the bar notation.
#[derive(Debug, PartialEq, Eq)]
pub enum Token {
    Identifier(String),
    Number(isize),
    BpmKeyword,
    Solidus,
    LeftAngle,
    RightAngle,
    LeftParen,
    RightParen,
    Comma,
    Colon,
    Newline,
}

/// The mathematical value of a token.
pub enum TokenV {
    Identifier(Seq<char>),
    Number(int),
    BpmKeyword,
    Solidus,
    LeftAngle,
    RightAngle,
    LeftParen,
    RightParen,
    Comma,
    Colon,
    Newline,
}

impl View for Token {
    type V = TokenV;

    open spec fn view(&self) -> TokenV {
        match self {
            Token::Identifier(s) => TokenV::Identifier(s@),
            Token::Number(n) => TokenV::Number(*n as int),
            Token::BpmKeyword => TokenV::BpmKeyword,
            Token::Solidus => TokenV::Solidus,
            Token::LeftAngle => TokenV::LeftAngle,
            Token::RightAngle => TokenV::RightAngle,
            Token::LeftParen => TokenV::LeftParen,
            Token::RightParen => TokenV::RightParen,
            Token::Comma => TokenV::Comma,
            Token::Colon => TokenV::Colon,
            Token::Newline => TokenV::Newline,
        }
    }
}

/// Why a source could not be tokenized.
#[derive(PartialEq, Eq, Structural, Clone, Copy, Debug)]
pub enum LexError {
    /// A character that starts no token.
    UnexpectedChar(char),
    /// A number written with a leading zero, such as `07`.
    LeadingZero,
    /// A number too large for an `isize`.
    NumberTooLarge,
}

pub open spec fn tokens_view(ts: Seq<Token>) -> Seq<TokenV> {
    ts.map_values(|t: Token| t@)
}

pub open spec fn is_letter(c: char) -> bool {
    ('a' <= c && c <= 'z') || ('A' <= c && c <= 'Z')
}

pub open spec fn is_word_char(c: char) -> bool {
    is_letter(c) || c == '_'
}

pub open spec fn is_digit(c: char) -> bool {
    '0' <= c && c <= '9'
}

pub open spec fn digit_value(c: char) -> int {
    (c as int) - ('0' as int)
}

pub open spec fn is_blank(c: char) -> bool {
    c == ' ' || c == '\r' || c == '\t'
}

/// The token of a character that stands alone, if it is one.
pub open spec fn single_char_token(c: char) -> Option<TokenV> {
    if c == '<' {
        Some(TokenV::LeftAngle)
    } else if c == '>' {
        Some(TokenV::RightAngle)
    } else if c == '(' {
        Some(TokenV::LeftParen)
    } else if c == ')' {
        Some(TokenV::RightParen)
    } else if c == ',' {
        Some(TokenV::Comma)
    } else if c == ':' {
        Some(TokenV::Colon)
    } else if c == '/' {
        Some(TokenV::Solidus)
    } else {
        None
    }
}

/// End (exclusive) of the run of characters satisfying `word` (letters and
/// underscores) or else digits, starting at `i`.
pub open spec fn run_end(s: Seq<char>, i: int, word: bool) -> int
    decreases s.len() - i,
{
    if 0 <= i < s.len() && (if word { is_word_char(s[i]) } else { is_digit(s[i]) }) {
        run_end(s, i + 1, word)
    } else {
        i
    }
}

/// Base-ten value of a run of digits.
pub open spec fn digits_value(d: Seq<char>) -> int
    decreases d.len(),
{
    if d.len() == 0 {
        0
    } else {
        10 * digits_value(d.drop_last()) + digit_value(d.last())
    }
}

/// The word `bpm` in any mix of upper and lower case.
pub open spec fn is_bpm_word(w: Seq<char>) -> bool {
    &&& w.len() == 3
    &&& (w[0] == 'b' || w[0] == 'B')
    &&& (w[1] == 'p' || w[1] == 'P')
    &&& (w[2] == 'm' || w[2] == 'M')
}

pub open spec fn word_token(w: Seq<char>) -> TokenV {
    if is_bpm_word(w) {
        TokenV::BpmKeyword
    } else {
        TokenV::Identifier(w)
    }
}

/// `acc` with a newline appended, unless it already ends with one.
pub open spec fn push_newline(acc: Seq<TokenV>) -> Seq<TokenV> {
    if acc.len() > 0 && acc.last() == TokenV::Newline {
        acc
    } else {
        acc.push(TokenV::Newline)
    }
}

/// Tokenizes `s` from position `i` on, after the tokens `acc`.
pub open spec fn lex_from(s: Seq<char>, i: int, acc: Seq<TokenV>) -> Result<Seq<TokenV>, LexError>
    decreases s.len() - i,
    via lex_from_decreases
{
    if i < 0 || i >= s.len() {
        Ok(acc)
    } else {
        let c = s[i];
        if c == '\n' {
            lex_from(s, i + 1, push_newline(acc))
        } else if is_blank(c) {
            lex_from(s, i + 1, acc)
        } else if single_char_token(c) is Some {
            lex_from(s, i + 1, acc.push(single_char_token(c)->0))
        } else if is_letter(c) {
            let j = run_end(s, i, true);
            lex_from(s, j, acc.push(word_token(s.subrange(i, j))))
        } else if is_digit(c) {
            let j = run_end(s, i, false);
            let v = digits_value(s.subrange(i, j));
            if c == '0' && j > i + 1 {
                Err(LexError::LeadingZero)
            } else if v > isize::MAX {
                Err(LexError::NumberTooLarge)
            } else {
                lex_from(s, j, acc.push(TokenV::Number(v)))
            }
        } else {
            Err(LexError::UnexpectedChar(c))
        }
    }
}

pub proof fn lemma_run_end(s: Seq<char>, i: int, word: bool)
    requires
        0 <= i <= s.len(),
    ensures
        i <= run_end(s, i, word) <= s.len(),
        i < s.len() && (if word { is_word_char(s[i]) } else { is_digit(s[i]) }) ==> i < run_end(
            s,
            i,
            word,
        ),
        forall|k: int|
            i <= k < run_end(s, i, word) ==> (if word { is_word_char(s[k]) } else { is_digit(s[k]) }),
        run_end(s, i, word) < s.len() ==> !(if word { is_word_char(s[run_end(s, i, word)]) } else {
            is_digit(s[run_end(s, i, word)])
        }),
    decreases s.len() - i,
{
    if i < s.len() && (if word { is_word_char(s[i]) } else { is_digit(s[i]) }) {
        lemma_run_end(s, i + 1, word);
    }
}

#[via_fn]
proof fn lex_from_decreases(s: Seq<char>, i: int, acc: Seq<TokenV>) {
    if 0 <= i < s.len() {
        lemma_run_end(s, i, true);
        lemma_run_end(s, i, false);
    }
}

/// The tokens of a whole source.
pub open spec fn lex(s: Seq<char>) -> Result<Seq<TokenV>, LexError> {
    lex_from(s, 0, Seq::empty())
}


/// How the tokenizer's result stands to the tokens of `s`.
pub open spec fn lex_matches(s: Seq<char>, r: Result<Vec<Token>, LexError>) -> bool {
    match r {
        Ok(ts) => lex(s) == Ok::<Seq<TokenV>, LexError>(tokens_view(ts@)),
        Err(e) => lex(s) == Err::<Seq<TokenV>, LexError>(e),
    }
}

pub proof fn lemma_digits_nonneg(d: Seq<char>)
    requires
        forall|k: int| 0 <= k < d.len() ==> is_digit(d[k]),
    ensures
        digits_value(d) >= 0,
    decreases d.len(),
{
    if d.len() > 0 {
        lemma_digits_nonneg(d.drop_last());
    }
}

proof fn lemma_digits_prefix(d: Seq<char>, m: int)
    requires
        0 <= m <= d.len(),
        forall|k: int| 0 <= k < d.len() ==> is_digit(d[k]),
    ensures
        digits_value(d.subrange(0, m)) <= digits_value(d),
    decreases d.len(),
{
    if m < d.len() {
        lemma_digits_nonneg(d.drop_last());
        lemma_digits_prefix(d.drop_last(), m);
        assert(d.drop_last().subrange(0, m) =~= d.subrange(0, m));
    } else {
        assert(d.subrange(0, m) =~= d);
    }
}

fn chars_of(code: &str) -> (r: Vec<char>)
    ensures
        r@ == code@,
{
    let n = code.unicode_len();
    let mut r: Vec<char> = Vec::new();
    let mut i: usize = 0;
    while i < n
        invariant
            n == code@.len(),
            i <= n,
            r@ == code@.subrange(0, i as int),
        decreases n - i,
    {
        r.push(code.get_char(i));
        i += 1;
    }
    assert(r@ =~= code@);
    r
}

fn scan_run(cs: &Vec<char>, i: usize, word: bool) -> (j: usize)
    requires
        i <= cs@.len(),
    ensures
        j == run_end(cs@, i as int, word),
{
    let mut j = i;
    while j < cs.len() && in_run(cs[j], word)
        invariant
            i <= j <= cs@.len(),
            run_end(cs@, i as int, word) == run_end(cs@, j as int, word),
        decreases cs@.len() - j,
    {
        j += 1;
    }
    j
}

fn in_run(c: char, word: bool) -> (r: bool)
    ensures
        r == (if word { is_word_char(c) } else { is_digit(c) }),
{
    if word {
        is_word_char_exec(c)
    } else {
        is_digit_exec(c)
    }
}

fn is_word_char_exec(c: char) -> (r: bool)
    ensures
        r == is_word_char(c),
{
    ('a' <= c && c <= 'z') || ('A' <= c && c <= 'Z') || c == '_'
}

fn is_digit_exec(c: char) -> (r: bool)
    ensures
        r == is_digit(c),
{
    '0' <= c && c <= '9'
}

fn single_char_token_exec(c: char) -> (r: Option<Token>)
    ensures
        r is Some == single_char_token(c) is Some,
        r is Some ==> r->0@ == single_char_token(c)->0,
{
    if c == '<' {
        Some(Token::LeftAngle)
    } else if c == '>' {
        Some(Token::RightAngle)
    } else if c == '(' {
        Some(Token::LeftParen)
    } else if c == ')' {
        Some(Token::RightParen)
    } else if c == ',' {
        Some(Token::Comma)
    } else if c == ':' {
        Some(Token::Colon)
    } else if c == '/' {
        Some(Token::Solidus)
    } else {
        None
    }
}

/// Reads the number whose digits start at `i`.
fn scan_number(cs: &Vec<char>, i: usize) -> (r: Result<(isize, usize), LexError>)
    requires
        i < cs@.len(),
        is_digit(cs@[i as int]),
    ensures
        ({
            let j = run_end(cs@, i as int, false);
            let v = digits_value(cs@.subrange(i as int, j));
            match r {
                Ok((n, k)) => k == j && n == v && !(cs@[i as int] == '0' && j > i + 1) && v
                    <= isize::MAX,
                Err(e) => (cs@[i as int] == '0' && j > i + 1 && e == LexError::LeadingZero) || (!(
                cs@[i as int] == '0' && j > i + 1) && v > isize::MAX && e
                    == LexError::NumberTooLarge),
            }
        }),
{
    let j = scan_run(cs, i, false);
    proof {
        lemma_run_end(cs@, i as int, false);
    }
    if cs[i] == '0' && j > i + 1 {
        return Err(LexError::LeadingZero);
    }
    let ghost run = cs@.subrange(i as int, j as int);
    let mut value: isize = 0;
    let mut k: usize = i;
    while k < j
        invariant
            i <= k <= j,
            i < cs@.len(),
            !(cs@[i as int] == '0' && j > i + 1),
            j == run_end(cs@, i as int, false),
            j <= cs@.len(),
            run == cs@.subrange(i as int, j as int),
            forall|m: int| i <= m < j ==> is_digit(#[trigger] cs@[m]),
            value == digits_value(cs@.subrange(i as int, k as int)),
            value >= 0,
        decreases j - k,
    {
        let d = (cs[k] as u32 - '0' as u32) as isize;
        assert(cs@.subrange(i as int, k + 1).drop_last() =~= cs@.subrange(i as int, k as int));
        if value > (isize::MAX - d) / 10 {
            proof {
                assert(10 * value + d > isize::MAX) by (nonlinear_arith)
                    requires
                        value > (isize::MAX - d) / 10,
                        0 <= d <= 9,
                ;
                assert forall|m: int| 0 <= m < run.len() implies is_digit(run[m]) by {
                    assert(cs@[i + m] == run[m]);
                }
                lemma_digits_prefix(run, k + 1 - i);
                assert(run.subrange(0, k + 1 - i) =~= cs@.subrange(i as int, k + 1));
                assert(digits_value(cs@.subrange(i as int, k + 1)) == 10 * value + d);
                assert(digits_value(run) > isize::MAX);
            }
            return Err(LexError::NumberTooLarge);
        }
        proof {
            assert(10 * value + d <= isize::MAX) by (nonlinear_arith)
                requires
                    value <= (isize::MAX - d) / 10,
                    0 <= d <= 9,
            ;
        }
        value = 10 * value + d;
        k += 1;
    }
    Ok((value, j))
}


fn is_bpm_word_exec(cs: &Vec<char>, i: usize, j: usize) -> (r: bool)
    requires
        i <= j <= cs@.len(),
    ensures
        r == is_bpm_word(cs@.subrange(i as int, j as int)),
{
    j - i == 3 && (cs[i] == 'b' || cs[i] == 'B') && (cs[i + 1] == 'p' || cs[i + 1] == 'P') && (
    cs[i + 2] == 'm' || cs[i + 2] == 'M')
}

fn ends_with_newline(tokens: &Vec<Token>) -> (r: bool)
    ensures
        r == (tokens@.len() > 0 && tokens@.last()@ == TokenV::Newline),
{
    if tokens.len() == 0 {
        return false;
    }
    match &tokens[tokens.len() - 1] {
        Token::Newline => true,
        _ => false,
    }
}

/// Splits a source into tokens. Newlines in a row give one `Newline`;
/// spaces, tabs and carriage returns give none.
pub fn tokenizer(code: String) -> (r: Result<Vec<Token>, LexError>)
    ensures
        lex_matches(code@, r),
{
    let s = code.as_str();
    let cs = chars_of(s);
    let n = cs.len();
    let mut tokens: Vec<Token> = Vec::new();
    let mut i: usize = 0;
    assert(tokens_view(tokens@) =~= Seq::<TokenV>::empty());
    while i < n
        invariant
            n == cs@.len(),
            cs@ == code@,
            s@ == code@,
            i <= n,
            lex(code@) == lex_from(code@, i as int, tokens_view(tokens@)),
        decreases n - i,
    {
        let c = cs[i];
        let ghost acc = tokens_view(tokens@);
        if c == '\n' {
            if !ends_with_newline(&tokens) {
                tokens.push(Token::Newline);
            }
            assert(tokens_view(tokens@) =~= push_newline(acc));
            i += 1;
        } else if c == ' ' || c == '\r' || c == '\t' {
            i += 1;
        } else if let Some(t) = single_char_token_exec(c) {
            tokens.push(t);
            assert(tokens_view(tokens@) =~= acc.push(single_char_token(c)->0));
            i += 1;
        } else if ('a' <= c && c <= 'z') || ('A' <= c && c <= 'Z') {
            let j = scan_run(&cs, i, true);
            proof {
                lemma_run_end(cs@, i as int, true);
            }
            let t = if is_bpm_word_exec(&cs, i, j) {
                Token::BpmKeyword
            } else {
                Token::Identifier(s.substring_char(i, j).to_owned())
            };
            tokens.push(t);
            assert(tokens_view(tokens@) =~= acc.push(word_token(code@.subrange(i as int, j as int))));
            i = j;
        } else if is_digit_exec(c) {
            match scan_number(&cs, i) {
                Ok((v, j)) => {
                    tokens.push(Token::Number(v));
                    assert(tokens_view(tokens@) =~= acc.push(TokenV::Number(v as int)));
                    proof {
                        lemma_run_end(cs@, i as int, false);
                    }
                    i = j;
                },
                Err(e) => {
                    return Err(e);
                },
            }
        } else {
            return Err(LexError::UnexpectedChar(c));
        }
    }
    Ok(tokens)
}


/// No two `Newline` tokens stand side by side.
pub open spec fn no_adjacent_newlines(ts: Seq<TokenV>) -> bool {
    forall|k: int|
        0 <= k < ts.len() - 1 ==> !(#[trigger] ts[k] == TokenV::Newline && ts[k + 1]
            == TokenV::Newline)
}

proof fn lemma_push_keeps_no_adjacent(acc: Seq<TokenV>, t: TokenV)
    requires
        no_adjacent_newlines(acc),
        t != TokenV::Newline,
    ensures
        no_adjacent_newlines(acc.push(t)),
{
    assert forall|k: int| 0 <= k < acc.push(t).len() - 1 implies !(#[trigger] acc.push(t)[k]
        == TokenV::Newline && acc.push(t)[k + 1] == TokenV::Newline) by {
        if k + 1 < acc.len() {
            assert(acc.push(t)[k] == acc[k]);
            assert(acc.push(t)[k + 1] == acc[k + 1]);
        }
    }
}

proof fn lemma_lex_from_no_adjacent(s: Seq<char>, i: int, acc: Seq<TokenV>)
    requires
        no_adjacent_newlines(acc),
    ensures
        lex_from(s, i, acc) is Ok ==> no_adjacent_newlines(lex_from(s, i, acc)->Ok_0),
    decreases s.len() - i,
{
    if 0 <= i < s.len() {
        let c = s[i];
        lemma_run_end(s, i, true);
        lemma_run_end(s, i, false);
        if c == '\n' {
            let acc2 = push_newline(acc);
            if !(acc.len() > 0 && acc.last() == TokenV::Newline) {
                assert forall|k: int| 0 <= k < acc2.len() - 1 implies !(#[trigger] acc2[k]
                    == TokenV::Newline && acc2[k + 1] == TokenV::Newline) by {
                    if k + 1 < acc.len() {
                        assert(acc2[k] == acc[k]);
                        assert(acc2[k + 1] == acc[k + 1]);
                    } else {
                        assert(acc2[k] == acc[acc.len() - 1]);
                    }
                }
            }
            lemma_lex_from_no_adjacent(s, i + 1, acc2);
        } else if is_blank(c) {
            lemma_lex_from_no_adjacent(s, i + 1, acc);
        } else if single_char_token(c) is Some {
            lemma_push_keeps_no_adjacent(acc, single_char_token(c)->0);
            lemma_lex_from_no_adjacent(s, i + 1, acc.push(single_char_token(c)->0));
        } else if is_letter(c) {
            let j = run_end(s, i, true);
            lemma_push_keeps_no_adjacent(acc, word_token(s.subrange(i, j)));
            lemma_lex_from_no_adjacent(s, j, acc.push(word_token(s.subrange(i, j))));
        } else if is_digit(c) {
            let j = run_end(s, i, false);
            let v = digits_value(s.subrange(i, j));
            lemma_push_keeps_no_adjacent(acc, TokenV::Number(v));
            lemma_lex_from_no_adjacent(s, j, acc.push(TokenV::Number(v)));
        }
    }
}

/// Newline coalescing: whatever the source, the tokens that it gives hold
/// no two `Newline` tokens in a row.
pub proof fn lemma_newlines_coalesce(s: Seq<char>)
    ensures
        lex(s) is Ok ==> no_adjacent_newlines(lex(s)->Ok_0),
{
    lemma_lex_from_no_adjacent(s, 0, Seq::empty());
}

/// The keyword is read in any case: `bpm`, `Bpm`, `BPM` (and every other mix
/// of cases of those three letters) each give the single token `BpmKeyword`.
pub proof fn lemma_bpm_any_case(s: Seq<char>)
    requires
        is_bpm_word(s),
    ensures
        lex(s) == Ok::<Seq<TokenV>, LexError>(seq![TokenV::BpmKeyword]),
{
    assert(run_end(s, 3, true) == 3);
    assert(run_end(s, 2, true) == 3);
    assert(run_end(s, 1, true) == 3);
    assert(run_end(s, 0, true) == 3);
    assert(s.subrange(0, 3) =~= s);
    assert(Seq::<TokenV>::empty().push(TokenV::BpmKeyword) =~= seq![TokenV::BpmKeyword]);
    assert(lex_from(s, 3, seq![TokenV::BpmKeyword]) == Ok::<Seq<TokenV>, LexError>(
        seq![TokenV::BpmKeyword],
    ));
}

} // verus!
