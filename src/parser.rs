use vstd::prelude::*;

use crate::lexer::{lex, tokenizer, tokens_view, LexError, Token, TokenV};

verus! {

/// A named effect with an integer setting, as in `lp:2000`.
#[derive(Debug)]
pub struct Filter {
    pub name: String,
    pub value: isize,
}

/// One beat's note, in semitones above the reference pitch.
#[derive(Debug)]
pub struct Note {
    pub pitch: usize,
}

/// A group of blocks that share a stack of filters.
#[derive(Debug)]
pub struct RecBlock {
    pub filters: Vec<Filter>,
    pub blocks: Vec<Block>,
}

/// A voice playing one note per beat.
#[derive(Debug)]
pub struct Instrument {
    pub instrument: String,
    pub filters: Vec<Filter>,
    pub notes: Vec<Note>,
}

#[derive(Debug)]
pub enum Block {
    Recursive(RecBlock),
    Instrument(Instrument),
}

/// The root of a program: tempo, time signature `(beats, beat unit)` and
/// blocks.
#[derive(Debug)]
pub struct Axiom {
    pub bpm: u8,
    pub signature: (u8, u8),
    pub blocks: Vec<Block>,
}

pub struct FilterV {
    pub name: Seq<char>,
    pub value: int,
}

pub enum BlockV {
    Recursive { filters: Seq<FilterV>, blocks: Seq<BlockV> },
    Instrument { name: Seq<char>, filters: Seq<FilterV>, notes: Seq<nat> },
}

pub struct AxiomV {
    pub bpm: nat,
    pub beats: nat,
    pub beat_unit: nat,
    pub blocks: Seq<BlockV>,
}

impl View for Filter {
    type V = FilterV;

    open spec fn view(&self) -> FilterV {
        FilterV { name: self.name@, value: self.value as int }
    }
}

pub open spec fn filters_view(fs: Seq<Filter>) -> Seq<FilterV> {
    fs.map_values(|f: Filter| f@)
}

pub open spec fn notes_view(ns: Seq<Note>) -> Seq<nat> {
    ns.map_values(|n: Note| n.pitch as nat)
}

pub open spec fn block_view(b: Block) -> BlockV
    decreases b,
{
    match b {
        Block::Recursive(r) => BlockV::Recursive {
            filters: filters_view(r.filters@),
            blocks: blocks_view(r.blocks@),
        },
        Block::Instrument(i) => BlockV::Instrument {
            name: i.instrument@,
            filters: filters_view(i.filters@),
            notes: notes_view(i.notes@),
        },
    }
}

pub open spec fn blocks_view(bs: Seq<Block>) -> Seq<BlockV>
    decreases bs,
{
    if bs.len() == 0 {
        Seq::empty()
    } else {
        blocks_view(bs.drop_last()).push(block_view(bs.last()))
    }
}

impl View for Block {
    type V = BlockV;

    open spec fn view(&self) -> BlockV {
        block_view(*self)
    }
}

impl View for Axiom {
    type V = AxiomV;

    open spec fn view(&self) -> AxiomV {
        AxiomV {
            bpm: self.bpm as nat,
            beats: self.signature.0 as nat,
            beat_unit: self.signature.1 as nat,
            blocks: blocks_view(self.blocks@),
        }
    }
}


/// What the parser was looking for when it stopped.
#[derive(PartialEq, Eq, Structural, Clone, Copy, Debug)]
pub enum Expected {
    BpmKeyword,
    Number,
    Newline,
    Solidus,
    LeftParen,
    RightParen,
    Comma,
    Colon,
    Identifier,
    Note,
    CommaOrRightAngle,
    BlockOrEnd,
}

/// Why a source could not be parsed.
#[derive(Debug)]
pub enum ParseError {
    Lex(LexError),
    /// The token found (or the end of input) where another was expected.
    Unexpected(Expected, Option<Token>),
    /// A header number that does not fit in eight bits.
    OutOfRange(isize),
}

pub open spec fn opt_token_view(t: Option<Token>) -> Option<TokenV> {
    match t {
        Some(t) => Some(t@),
        None => None,
    }
}

pub enum ParseErrorV {
    Lex(LexError),
    Unexpected(Expected, Option<TokenV>),
    OutOfRange(int),
}

impl View for ParseError {
    type V = ParseErrorV;

    open spec fn view(&self) -> ParseErrorV {
        match self {
            ParseError::Lex(e) => ParseErrorV::Lex(*e),
            ParseError::Unexpected(x, t) => ParseErrorV::Unexpected(*x, opt_token_view(*t)),
            ParseError::OutOfRange(v) => ParseErrorV::OutOfRange(*v as int),
        }
    }
}

pub open spec fn tok(ts: Seq<TokenV>, p: int) -> Option<TokenV> {
    if 0 <= p < ts.len() {
        Some(ts[p])
    } else {
        None
    }
}

pub open spec fn unexpected(ts: Seq<TokenV>, p: int, x: Expected) -> ParseErrorV {
    ParseErrorV::Unexpected(x, tok(ts, p))
}

/// The token that `x` stands for, where it stands for a single one.
pub open spec fn expected_token(x: Expected) -> TokenV {
    match x {
        Expected::BpmKeyword => TokenV::BpmKeyword,
        Expected::Newline => TokenV::Newline,
        Expected::Solidus => TokenV::Solidus,
        Expected::LeftParen => TokenV::LeftParen,
        Expected::RightParen => TokenV::RightParen,
        Expected::Comma => TokenV::Comma,
        _ => TokenV::Colon,
    }
}

pub open spec fn is_single(x: Expected) -> bool {
    x is BpmKeyword || x is Newline || x is Solidus || x is LeftParen || x is RightParen
        || x is Comma || x is Colon
}

/// Position after the token that `x` stands for, expected at `p`.
pub open spec fn expect_at(ts: Seq<TokenV>, p: int, x: Expected) -> Result<int, ParseErrorV> {
    if tok(ts, p) == Some(expected_token(x)) {
        Ok(p + 1)
    } else {
        Err(unexpected(ts, p, x))
    }
}

/// A header number, which must fit in eight bits.
pub open spec fn byte_at(ts: Seq<TokenV>, p: int) -> Result<int, ParseErrorV> {
    match tok(ts, p) {
        Some(TokenV::Number(v)) => if 0 <= v <= 255 {
            Ok(v)
        } else {
            Err(ParseErrorV::OutOfRange(v))
        },
        _ => Err(unexpected(ts, p, Expected::Number)),
    }
}

/// `name : value` at `p`: three tokens.
pub open spec fn filter_at(ts: Seq<TokenV>, p: int) -> Result<FilterV, ParseErrorV> {
    match tok(ts, p) {
        Some(TokenV::Identifier(name)) => if tok(ts, p + 1) == Some(TokenV::Colon) {
            match tok(ts, p + 2) {
                Some(TokenV::Number(v)) => Ok(FilterV { name, value: v }),
                _ => Err(unexpected(ts, p + 2, Expected::Number)),
            }
        } else {
            Err(unexpected(ts, p + 1, Expected::Colon))
        },
        _ => Err(unexpected(ts, p, Expected::Identifier)),
    }
}

/// The filters of a list from `p` on, after its `<` or a `,`, up to and
/// past its `>`.
pub open spec fn filters_from(ts: Seq<TokenV>, p: int) -> Result<(Seq<FilterV>, int), ParseErrorV>
    decreases ts.len() - p,
{
    match filter_at(ts, p) {
        Err(e) => Err(e),
        Ok(f) => if tok(ts, p + 3) == Some(TokenV::Comma) && p + 4 <= ts.len() {
            match filters_from(ts, p + 4) {
                Ok((fs, q)) => Ok((seq![f] + fs, q)),
                Err(e) => Err(e),
            }
        } else if tok(ts, p + 3) == Some(TokenV::RightAngle) {
            Ok((seq![f], p + 4))
        } else {
            Err(unexpected(ts, p + 3, Expected::CommaOrRightAngle))
        },
    }
}

/// An optional filter list at `p`: empty when no `<` stands there.
pub open spec fn filter_list_at(ts: Seq<TokenV>, p: int) -> Result<(Seq<FilterV>, int), ParseErrorV> {
    if tok(ts, p) == Some(TokenV::LeftAngle) {
        filters_from(ts, p + 1)
    } else {
        Ok((Seq::empty(), p))
    }
}

/// The notes from `p` on, after the `(` or a `,`, up to and past the `)`.
pub open spec fn notes_from(ts: Seq<TokenV>, p: int) -> Result<(Seq<nat>, int), ParseErrorV>
    decreases ts.len() - p,
{
    match tok(ts, p) {
        Some(TokenV::Number(v)) => if v < 0 {
            Err(unexpected(ts, p, Expected::Note))
        } else if tok(ts, p + 1) == Some(TokenV::RightParen) {
            Ok((seq![v as nat], p + 2))
        } else if tok(ts, p + 1) == Some(TokenV::Comma) && p + 2 <= ts.len() {
            match notes_from(ts, p + 2) {
                Ok((ns, q)) => Ok((seq![v as nat] + ns, q)),
                Err(e) => Err(e),
            }
        } else {
            Err(unexpected(ts, p + 1, Expected::Comma))
        },
        _ => Err(unexpected(ts, p, Expected::Note)),
    }
}


/// An instrument line at `p`: name, optional filters, notes, and then a
/// newline, the `)` that closes the enclosing group, or the end of input.
pub open spec fn instrument_at(ts: Seq<TokenV>, p: int) -> Result<(BlockV, int), ParseErrorV> {
    match tok(ts, p) {
        Some(TokenV::Identifier(name)) => match filter_list_at(ts, p + 1) {
            Err(e) => Err(e),
            Ok((fs, q)) => match expect_at(ts, q, Expected::LeftParen) {
                Err(e) => Err(e),
                Ok(r) => match notes_from(ts, r) {
                    Err(e) => Err(e),
                    Ok((ns, u)) => {
                        let b = BlockV::Instrument { name, filters: fs, notes: ns };
                        if tok(ts, u) == Some(TokenV::Newline) {
                            Ok((b, u + 1))
                        } else if tok(ts, u) == Some(TokenV::RightParen) || tok(ts, u) is None {
                            Ok((b, u))
                        } else {
                            Err(unexpected(ts, u, Expected::Newline))
                        }
                    },
                },
            },
        },
        _ => Err(unexpected(ts, p, Expected::Identifier)),
    }
}

/// Blocks from `p` on. Inside a group (`nested`) they end before a `)`;
/// at the top level, at the end of input. Newlines between them are skipped.
pub open spec fn blocks_from(ts: Seq<TokenV>, p: int, nested: bool) -> Result<
    (Seq<BlockV>, int),
    ParseErrorV,
>
    decreases ts.len() - p, 2int,
{
    if p < 0 || p >= ts.len() {
        Ok((Seq::empty(), p))
    } else {
        match ts[p] {
            TokenV::RightParen => if nested {
                Ok((Seq::empty(), p))
            } else {
                Err(unexpected(ts, p, Expected::BlockOrEnd))
            },
            TokenV::Newline => blocks_from(ts, p + 1, nested),
            TokenV::LeftAngle | TokenV::LeftParen | TokenV::Identifier(_) => match block_at(ts, p) {
                Err(e) => Err(e),
                Ok((b, q)) => if p < q <= ts.len() {
                    match blocks_from(ts, q, nested) {
                        Ok((bs, r)) => Ok((seq![b] + bs, r)),
                        Err(e) => Err(e),
                    }
                } else {
                    // never taken: a block spans at least one token
                    Err(unexpected(ts, q, Expected::BlockOrEnd))
                },
            },
            _ => Err(unexpected(ts, p, Expected::BlockOrEnd)),
        }
    }
}

/// The block at `p`: an instrument line when a name stands there, else a
/// group.
pub open spec fn block_at(ts: Seq<TokenV>, p: int) -> Result<(BlockV, int), ParseErrorV>
    decreases ts.len() - p, 1int,
{
    match tok(ts, p) {
        Some(TokenV::Identifier(_)) => instrument_at(ts, p),
        _ => group_at(ts, p),
    }
}

/// A group at `p`: optional filters, then `(`, blocks, `)`.
pub open spec fn group_at(ts: Seq<TokenV>, p: int) -> Result<(BlockV, int), ParseErrorV>
    decreases ts.len() - p, 0int,
{
    match filter_list_at(ts, p) {
        Err(e) => Err(e),
        Ok((fs, q)) => match expect_at(ts, q, Expected::LeftParen) {
            Err(e) => Err(e),
            Ok(r) => if p < r {
                match blocks_from(ts, r, true) {
                    Err(e) => Err(e),
                    Ok((bs, u)) => match expect_at(ts, u, Expected::RightParen) {
                        Err(e) => Err(e),
                        Ok(w) => Ok((BlockV::Recursive { filters: fs, blocks: bs }, w)),
                    },
                }
            } else {
                // never taken: a filter list never moves back
                Err(unexpected(ts, r, Expected::LeftParen))
            },
        },
    }
}

/// The program that the tokens `ts` spell: `BPM n`, newline, `beats /
/// unit`, newline, then blocks up to the end of input.
pub open spec fn axiom_of(ts: Seq<TokenV>) -> Result<AxiomV, ParseErrorV> {
    match expect_at(ts, 0, Expected::BpmKeyword) {
        Err(e) => Err(e),
        Ok(_) => match byte_at(ts, 1) {
            Err(e) => Err(e),
            Ok(bpm) => match expect_at(ts, 2, Expected::Newline) {
                Err(e) => Err(e),
                Ok(_) => match byte_at(ts, 3) {
                    Err(e) => Err(e),
                    Ok(beats) => match expect_at(ts, 4, Expected::Solidus) {
                        Err(e) => Err(e),
                        Ok(_) => match byte_at(ts, 5) {
                            Err(e) => Err(e),
                            Ok(unit) => match expect_at(ts, 6, Expected::Newline) {
                                Err(e) => Err(e),
                                Ok(_) => match blocks_from(ts, 7, false) {
                                    Err(e) => Err(e),
                                    Ok((bs, _)) => Ok(
                                        AxiomV {
                                            bpm: bpm as nat,
                                            beats: beats as nat,
                                            beat_unit: unit as nat,
                                            blocks: bs,
                                        },
                                    ),
                                },
                            },
                        },
                    },
                },
            },
        },
    }
}

/// The program that the source `s` spells.
pub open spec fn parse_spec(s: Seq<char>) -> Result<AxiomV, ParseErrorV> {
    match lex(s) {
        Err(e) => Err(ParseErrorV::Lex(e)),
        Ok(ts) => axiom_of(ts),
    }
}


pub open spec fn pos_view(r: Result<usize, ParseError>) -> Result<int, ParseErrorV> {
    match r {
        Ok(q) => Ok(q as int),
        Err(e) => Err(e@),
    }
}

pub open spec fn byte_view(r: Result<u8, ParseError>) -> Result<int, ParseErrorV> {
    match r {
        Ok(b) => Ok(b as int),
        Err(e) => Err(e@),
    }
}

pub open spec fn filter_res(r: Result<Filter, ParseError>) -> Result<FilterV, ParseErrorV> {
    match r {
        Ok(f) => Ok(f@),
        Err(e) => Err(e@),
    }
}

pub open spec fn filters_res(r: Result<(Vec<Filter>, usize), ParseError>) -> Result<
    (Seq<FilterV>, int),
    ParseErrorV,
> {
    match r {
        Ok((fs, q)) => Ok((filters_view(fs@), q as int)),
        Err(e) => Err(e@),
    }
}

pub open spec fn notes_res(r: Result<(Vec<Note>, usize), ParseError>) -> Result<
    (Seq<nat>, int),
    ParseErrorV,
> {
    match r {
        Ok((ns, q)) => Ok((notes_view(ns@), q as int)),
        Err(e) => Err(e@),
    }
}

pub open spec fn block_res(r: Result<(Block, usize), ParseError>) -> Result<
    (BlockV, int),
    ParseErrorV,
> {
    match r {
        Ok((b, q)) => Ok((b@, q as int)),
        Err(e) => Err(e@),
    }
}

pub open spec fn blocks_res(r: Result<(Vec<Block>, usize), ParseError>) -> Result<
    (Seq<BlockV>, int),
    ParseErrorV,
> {
    match r {
        Ok((bs, q)) => Ok((blocks_view(bs@), q as int)),
        Err(e) => Err(e@),
    }
}

pub open spec fn axiom_res(r: Result<Axiom, ParseError>) -> Result<AxiomV, ParseErrorV> {
    match r {
        Ok(a) => Ok(a@),
        Err(e) => Err(e@),
    }
}

/// The position held by a successful result.
pub open spec fn ok_pos<A>(r: Result<(A, usize), ParseError>) -> int {
    match r {
        Ok((_, q)) => q as int,
        Err(_) => 0,
    }
}

proof fn lemma_blocks_view_prepend(b: Block, s: Seq<Block>)
    ensures
        blocks_view(seq![b] + s) == seq![block_view(b)] + blocks_view(s),
    decreases s.len(),
{
    if s.len() == 0 {
        assert(seq![b] + s =~= seq![b]);
        assert(seq![b].drop_last() =~= Seq::<Block>::empty());
        assert(seq![block_view(b)] + blocks_view(s) =~= seq![block_view(b)]);
        assert(blocks_view(Seq::<Block>::empty()) == Seq::<BlockV>::empty());
        assert(seq![b].last() == b);
        assert(blocks_view(seq![b]) =~= Seq::<BlockV>::empty().push(block_view(b)));
    } else {
        lemma_blocks_view_prepend(b, s.drop_last());
        assert((seq![b] + s).drop_last() =~= seq![b] + s.drop_last());
        assert((seq![b] + s).last() == s.last());
        assert(seq![block_view(b)] + blocks_view(s) =~= (seq![block_view(b)] + blocks_view(
            s.drop_last(),
        )).push(block_view(s.last())));
    }
}

fn copy_token(t: &Token) -> (r: Token)
    ensures
        r@ == t@,
{
    match t {
        Token::Identifier(s) => Token::Identifier(s.clone()),
        Token::Number(n) => Token::Number(*n),
        Token::BpmKeyword => Token::BpmKeyword,
        Token::Solidus => Token::Solidus,
        Token::LeftAngle => Token::LeftAngle,
        Token::RightAngle => Token::RightAngle,
        Token::LeftParen => Token::LeftParen,
        Token::RightParen => Token::RightParen,
        Token::Comma => Token::Comma,
        Token::Colon => Token::Colon,
        Token::Newline => Token::Newline,
    }
}

/// The token at `p`, for an error report.
fn found(ts: &Vec<Token>, p: usize) -> (r: Option<Token>)
    ensures
        opt_token_view(r) == tok(tokens_view(ts@), p as int),
{
    if p < ts.len() {
        Some(copy_token(&ts[p]))
    } else {
        None
    }
}

fn is_expected(t: &Token, x: Expected) -> (r: bool)
    requires
        is_single(x),
    ensures
        r == (t@ == expected_token(x)),
{
    match x {
        Expected::BpmKeyword => matches!(t, Token::BpmKeyword),
        Expected::Newline => matches!(t, Token::Newline),
        Expected::Solidus => matches!(t, Token::Solidus),
        Expected::LeftParen => matches!(t, Token::LeftParen),
        Expected::RightParen => matches!(t, Token::RightParen),
        Expected::Comma => matches!(t, Token::Comma),
        _ => matches!(t, Token::Colon),
    }
}

fn expect(ts: &Vec<Token>, p: usize, x: Expected) -> (r: Result<usize, ParseError>)
    requires
        is_single(x),
    ensures
        pos_view(r) == expect_at(tokens_view(ts@), p as int, x),
        r is Ok ==> r->Ok_0 == p + 1 && p < ts@.len(),
{
    if p < ts.len() && is_expected(&ts[p], x) {
        Ok(p + 1)
    } else {
        Err(ParseError::Unexpected(x, found(ts, p)))
    }
}

fn expect_byte(ts: &Vec<Token>, p: usize) -> (r: Result<u8, ParseError>)
    ensures
        byte_view(r) == byte_at(tokens_view(ts@), p as int),
{
    if p < ts.len() {
        match &ts[p] {
            Token::Number(v) => {
                let v = *v;
                if 0 <= v && v <= 255 {
                    Ok(v as u8)
                } else {
                    Err(ParseError::OutOfRange(v))
                }
            },
            _ => Err(ParseError::Unexpected(Expected::Number, found(ts, p))),
        }
    } else {
        Err(ParseError::Unexpected(Expected::Number, None))
    }
}

fn parse_filter(ts: &Vec<Token>, p: usize) -> (r: Result<Filter, ParseError>)
    ensures
        filter_res(r) == filter_at(tokens_view(ts@), p as int),
        r is Ok ==> p + 2 < ts@.len(),
{
    if p >= ts.len() {
        return Err(ParseError::Unexpected(Expected::Identifier, None));
    }
    match &ts[p] {
        Token::Identifier(name) => {
            if p + 1 < ts.len() && matches!(ts[p + 1], Token::Colon) {
                if p + 2 < ts.len() {
                    match &ts[p + 2] {
                        Token::Number(v) => {
                            return Ok(Filter { name: name.clone(), value: *v });
                        },
                        _ => {},
                    }
                }
                Err(ParseError::Unexpected(Expected::Number, found(ts, p + 2)))
            } else {
                Err(ParseError::Unexpected(Expected::Colon, found(ts, p + 1)))
            }
        },
        _ => Err(ParseError::Unexpected(Expected::Identifier, found(ts, p))),
    }
}

fn parse_filters(ts: &Vec<Token>, p: usize) -> (r: Result<(Vec<Filter>, usize), ParseError>)
    ensures
        filters_res(r) == filters_from(tokens_view(ts@), p as int),
        r is Ok ==> p < ok_pos(r) <= ts@.len(),
    decreases ts@.len() - p,
{
    let first = parse_filter(ts, p);
    match first {
        Err(e) => Err(e),
        Ok(f) => {
            let ghost fv = f@;
            let n = ts.len();
            if p + 3 < ts.len() && matches!(ts[p + 3], Token::Comma) {
                match parse_filters(ts, p + 4) {
                    Ok((fs, q)) => {
                        let mut fs = fs;
                        let ghost old_fs = fs@;
                        fs.insert(0, f);
                        assert(filters_view(fs@) =~= seq![fv] + filters_view(old_fs));
                        Ok((fs, q))
                    },
                    Err(e) => Err(e),
                }
            } else if p + 3 < ts.len() && matches!(ts[p + 3], Token::RightAngle) {
                let mut fs: Vec<Filter> = Vec::new();
                fs.push(f);
                assert(filters_view(fs@) =~= seq![fv]);
                Ok((fs, p + 4))
            } else {
                Err(ParseError::Unexpected(Expected::CommaOrRightAngle, found(ts, p + 3)))
            }
        },
    }
}

fn parse_filter_list(ts: &Vec<Token>, p: usize) -> (r: Result<(Vec<Filter>, usize), ParseError>)
    ensures
        filters_res(r) == filter_list_at(tokens_view(ts@), p as int),
        r is Ok ==> p <= ok_pos(r),
{
    if p < ts.len() && matches!(ts[p], Token::LeftAngle) {
        parse_filters(ts, p + 1)
    } else {
        let fs: Vec<Filter> = Vec::new();
        assert(filters_view(fs@) =~= Seq::<FilterV>::empty());
        Ok((fs, p))
    }
}

fn parse_notes(ts: &Vec<Token>, p: usize) -> (r: Result<(Vec<Note>, usize), ParseError>)
    ensures
        notes_res(r) == notes_from(tokens_view(ts@), p as int),
        r is Ok ==> p < ok_pos(r) <= ts@.len(),
    decreases ts@.len() - p,
{
    if p >= ts.len() {
        return Err(ParseError::Unexpected(Expected::Note, None));
    }
    match &ts[p] {
        Token::Number(v) => {
            let v = *v;
            if v < 0 {
                Err(ParseError::Unexpected(Expected::Note, found(ts, p)))
            } else if p + 1 < ts.len() && matches!(ts[p + 1], Token::RightParen) {
                let mut ns: Vec<Note> = Vec::new();
                ns.push(Note { pitch: v as usize });
                assert(notes_view(ns@) =~= seq![v as nat]);
                Ok((ns, p + 2))
            } else if p + 1 < ts.len() && matches!(ts[p + 1], Token::Comma) {
                match parse_notes(ts, p + 2) {
                    Ok((ns, q)) => {
                        let mut ns = ns;
                        let ghost old_ns = ns@;
                        ns.insert(0, Note { pitch: v as usize });
                        assert(notes_view(ns@) =~= seq![v as nat] + notes_view(old_ns));
                        Ok((ns, q))
                    },
                    Err(e) => Err(e),
                }
            } else {
                Err(ParseError::Unexpected(Expected::Comma, found(ts, p + 1)))
            }
        },
        _ => Err(ParseError::Unexpected(Expected::Note, found(ts, p))),
    }
}


fn parse_instrument(ts: &Vec<Token>, p: usize) -> (r: Result<(Block, usize), ParseError>)
    requires
        p < ts@.len(),
        ts@[p as int] is Identifier,
    ensures
        block_res(r) == instrument_at(tokens_view(ts@), p as int),
        r is Ok ==> p < ok_pos(r) <= ts@.len(),
{
    let n = ts.len();
    let instrument = match &ts[p] {
        Token::Identifier(name) => name.clone(),
        _ => String::new(),
    };
    let (filters, q) = match parse_filter_list(ts, p + 1) {
        Ok(x) => x,
        Err(e) => {
            return Err(e);
        },
    };
    let r = match expect(ts, q, Expected::LeftParen) {
        Ok(r) => r,
        Err(e) => {
            return Err(e);
        },
    };
    let (notes, u) = match parse_notes(ts, r) {
        Ok(x) => x,
        Err(e) => {
            return Err(e);
        },
    };
    let end = if u < n && matches!(ts[u], Token::Newline) {
        u + 1
    } else if u >= n || matches!(ts[u], Token::RightParen) {
        u
    } else {
        return Err(ParseError::Unexpected(Expected::Newline, found(ts, u)));
    };
    Ok((Block::Instrument(Instrument { instrument, filters, notes }), end))
}

fn parse_blocks(ts: &Vec<Token>, p: usize, nested: bool) -> (r: Result<
    (Vec<Block>, usize),
    ParseError,
>)
    ensures
        blocks_res(r) == blocks_from(tokens_view(ts@), p as int, nested),
        r is Ok ==> p <= ok_pos(r),
    decreases ts@.len() - p, 2int,
{
    if p >= ts.len() {
        let bs: Vec<Block> = Vec::new();
        assert(blocks_view(bs@) =~= Seq::<BlockV>::empty());
        return Ok((bs, p));
    }
    match &ts[p] {
        Token::RightParen => {
            if nested {
                let bs: Vec<Block> = Vec::new();
                assert(blocks_view(bs@) =~= Seq::<BlockV>::empty());
                Ok((bs, p))
            } else {
                Err(ParseError::Unexpected(Expected::BlockOrEnd, found(ts, p)))
            }
        },
        Token::Newline => parse_blocks(ts, p + 1, nested),
        Token::LeftAngle | Token::LeftParen | Token::Identifier(_) => {
            let first = parse_block(ts, p);
            match first {
                Err(e) => Err(e),
                Ok((b, q)) => {
                    match parse_blocks(ts, q, nested) {
                        Ok((bs, r)) => {
                            let mut bs = bs;
                            let ghost old_bs = bs@;
                            proof {
                                lemma_blocks_view_prepend(b, old_bs);
                            }
                            bs.insert(0, b);
                            assert(bs@ =~= seq![b] + old_bs);
                            Ok((bs, r))
                        },
                        Err(e) => Err(e),
                    }
                },
            }
        },
        _ => Err(ParseError::Unexpected(Expected::BlockOrEnd, found(ts, p))),
    }
}

fn parse_block(ts: &Vec<Token>, p: usize) -> (r: Result<(Block, usize), ParseError>)
    requires
        p < ts@.len(),
    ensures
        block_res(r) == block_at(tokens_view(ts@), p as int),
        r is Ok ==> p < ok_pos(r) <= ts@.len(),
    decreases ts@.len() - p, 1int,
{
    match &ts[p] {
        Token::Identifier(_) => parse_instrument(ts, p),
        _ => parse_group(ts, p),
    }
}

fn parse_group(ts: &Vec<Token>, p: usize) -> (r: Result<(Block, usize), ParseError>)
    requires
        p < ts@.len(),
    ensures
        block_res(r) == group_at(tokens_view(ts@), p as int),
        r is Ok ==> p < ok_pos(r) <= ts@.len(),
    decreases ts@.len() - p, 0int,
{
    let (filters, q) = match parse_filter_list(ts, p) {
        Ok(x) => x,
        Err(e) => {
            return Err(e);
        },
    };
    let r = match expect(ts, q, Expected::LeftParen) {
        Ok(r) => r,
        Err(e) => {
            return Err(e);
        },
    };
    let (blocks, u) = match parse_blocks(ts, r, true) {
        Ok(x) => x,
        Err(e) => {
            return Err(e);
        },
    };
    let w = match expect(ts, u, Expected::RightParen) {
        Ok(w) => w,
        Err(e) => {
            return Err(e);
        },
    };
    Ok((Block::Recursive(RecBlock { filters, blocks }), w))
}

fn syntactical_analysis(ts: &Vec<Token>) -> (r: Result<Axiom, ParseError>)
    ensures
        axiom_res(r) == axiom_of(tokens_view(ts@)),
{
    if let Err(e) = expect(ts, 0, Expected::BpmKeyword) {
        return Err(e);
    }
    let bpm = match expect_byte(ts, 1) {
        Ok(b) => b,
        Err(e) => {
            return Err(e);
        },
    };
    if let Err(e) = expect(ts, 2, Expected::Newline) {
        return Err(e);
    }
    let beats = match expect_byte(ts, 3) {
        Ok(b) => b,
        Err(e) => {
            return Err(e);
        },
    };
    if let Err(e) = expect(ts, 4, Expected::Solidus) {
        return Err(e);
    }
    let unit = match expect_byte(ts, 5) {
        Ok(b) => b,
        Err(e) => {
            return Err(e);
        },
    };
    if let Err(e) = expect(ts, 6, Expected::Newline) {
        return Err(e);
    }
    match parse_blocks(ts, 7, false) {
        Ok((blocks, _)) => Ok(Axiom { bpm, signature: (beats, unit), blocks }),
        Err(e) => Err(e),
    }
}

/// Reads a program: its tokens, then the tempo line, the time signature
/// line and the blocks. The first error stops the reading.
pub fn parse(code: String) -> (r: Result<Axiom, ParseError>)
    ensures
        axiom_res(r) == parse_spec(code@),
{
    match tokenizer(code) {
        Err(e) => Err(ParseError::Lex(e)),
        Ok(ts) => syntactical_analysis(&ts),
    }
}


/// Every program that parses has a tempo, a beat count and a beat unit
/// between 0 and 255.
pub proof fn lemma_header_fits_in_a_byte(s: Seq<char>)
    ensures
        parse_spec(s) is Ok ==> {
            let a = parse_spec(s)->Ok_0;
            a.bpm <= 255 && a.beats <= 255 && a.beat_unit <= 255
        },
{
}

} // verus!
