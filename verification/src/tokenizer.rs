//! Translates the raw contents of a Scott Adams adventure file into a
//! sequence of tokens.
//!
//! Such a file consists of ASCII-formatted integers (possibly signed, with
//! surrounding whitespace) and quote-delimited strings (possibly with
//! internal newlines). The format predates Unicode, so the tokenizer works
//! on raw bytes throughout.

use vstd::prelude::*;

verus! {

/// Identifies a line number and column within the original game file,
/// both 1-based.
#[derive(Clone, Copy, Debug, PartialEq, Eq, Structural)]
pub struct Location {
    pub line: usize,
    pub col: usize,
}

/// There are only two kinds of token: integers and strings.
#[derive(Debug)]
pub enum Token {
    Int(i32, Location),
    Str(Vec<u8>, Location),
}

/// The mathematical value of a `Token`.
pub ghost enum TokenV {
    Int(i32, Location),
    Str(Seq<u8>, Location),
}

impl View for Token {
    type V = TokenV;

    open spec fn view(&self) -> TokenV {
        match self {
            Token::Int(v, l) => TokenV::Int(*v, *l),
            Token::Str(s, l) => TokenV::Str(s@, *l),
        }
    }
}

/// A token stripped of its location: what the file stores. The writer
/// produces tokens from a game without locations, so round-trip statements
/// compare tokens at this level.
pub ghost enum TokenData {
    Int(i32),
    Str(Seq<u8>),
}

/// Strips the location from a token.
pub open spec fn tok_data(t: TokenV) -> TokenData {
    match t {
        TokenV::Int(v, _) => TokenData::Int(v),
        TokenV::Str(s, _) => TokenData::Str(s),
    }
}

/// Strips the locations from a token sequence.
pub open spec fn datas(ts: Seq<TokenV>) -> Seq<TokenData> {
    ts.map_values(|t: TokenV| tok_data(t))
}

/// The kinds of error the tokenizer and the token stream report.
#[derive(Clone, Copy, Debug, PartialEq, Eq, Structural)]
pub enum TokenErrorKind {
    /// A character outside any token that starts no token.
    UnexpectedChar,
    /// A character other than a digit inside an integer.
    UnexpectedCharInInt,
    /// An integer that does not fit in 32 bits.
    MalformedInt,
    /// The input ended inside an integer.
    UnterminatedInt,
    /// The input ended inside a quoted string.
    UnterminatedString,
    /// The stream held a string where an integer was expected.
    ExpectedInt,
    /// The stream held an integer where a string was expected.
    ExpectedStr,
    /// The stream was exhausted.
    UnexpectedEnd,
}

/// Represents an error encountered during tokenization or while pulling
/// tokens from a stream, carrying the line and column it arose at.
#[derive(Clone, Copy, Debug, PartialEq, Eq, Structural)]
pub struct TokenError {
    pub loc: Location,
    pub kind: TokenErrorKind,
}

pub const TAB: u8 = 0x09;
pub const LF: u8 = 0x0A;
pub const FF: u8 = 0x0C;
pub const CR: u8 = 0x0D;
pub const SPACE: u8 = 0x20;
pub const QUOTE: u8 = 0x22;
pub const STAR: u8 = 0x2A;
pub const MINUS: u8 = 0x2D;
pub const SLASH: u8 = 0x2F;
pub const DIGIT0: u8 = 0x30;
pub const DIGIT9: u8 = 0x39;
pub const BACKSLASH: u8 = 0x5C;

/// The ASCII whitespace bytes that separate tokens.
pub open spec fn is_ascii_space(b: u8) -> bool {
    b == SPACE || b == TAB || b == LF || b == FF || b == CR
}

/// The ASCII decimal digits.
pub open spec fn is_digit_byte(b: u8) -> bool {
    DIGIT0 <= b <= DIGIT9
}

/// These states are used by the finite state machine that turns bytes into
/// tokens. `Init` stands between tokens; `Sign` has just consumed a leading
/// `-`; `Num` is inside an integer literal; `Quote` is inside a string
/// literal; `Escape` has just consumed a `\` inside a string literal.
#[derive(Clone, Copy, Debug)]
pub enum State {
    Init,
    Sign,
    Num,
    Quote,
    Escape,
}

/// The full state of the tokenizer between two bytes: the machine state,
/// the accumulators, the location bookkeeping, and the tokens emitted so
/// far.
pub ghost struct LexState {
    pub state: State,
    /// Whether the integer being read began with `-`.
    pub neg: bool,
    /// The digits of the integer being read.
    pub digits: Seq<u8>,
    /// The content of the string being read.
    pub text: Seq<u8>,
    /// The location of the first character of the token being read.
    pub token_loc: Location,
    /// The location of the next byte to be read.
    pub cur: Location,
    /// The tokens emitted so far.
    pub tokens: Seq<TokenV>,
}

/// The tokenizer's state before any byte is read.
pub open spec fn lex_init() -> LexState {
    LexState {
        state: State::Init,
        neg: false,
        digits: Seq::empty(),
        text: Seq::empty(),
        token_loc: Location { line: 1, col: 1 },
        cur: Location { line: 1, col: 1 },
        tokens: Seq::empty(),
    }
}

/// Where the byte after `b` stands: a newline starts the next line at
/// column 1, any other byte moves one column right.
pub open spec fn loc_after(loc: Location, b: u8) -> Location {
    if b == LF {
        Location { line: (loc.line + 1) as usize, col: 1 }
    } else {
        Location { line: loc.line, col: (loc.col + 1) as usize }
    }
}

/// The value of a sequence of ASCII digit bytes, most significant first.
pub open spec fn digits_val(s: Seq<u8>) -> int
    decreases s.len(),
{
    if s.len() == 0 {
        0
    } else {
        digits_val(s.drop_last()) * 10 + (s.last() - DIGIT0)
    }
}

/// The value of an integer literal: the digits' value, negated when the
/// literal began with `-`.
pub open spec fn int_val(neg: bool, digits: Seq<u8>) -> int {
    if neg {
        -digits_val(digits)
    } else {
        digits_val(digits)
    }
}

/// One step of the tokenizer: the state after reading byte `b`, or the
/// lexical error that `b` provokes.
pub open spec fn lex_step(st: LexState, b: u8) -> Result<LexState, TokenError> {
    let next = loc_after(st.cur, b);
    match st.state {
        State::Init => {
            if is_ascii_space(b) {
                Ok(LexState { cur: next, ..st })
            } else if b == MINUS {
                Ok(
                    LexState {
                        state: State::Sign,
                        neg: true,
                        digits: Seq::empty(),
                        token_loc: st.cur,
                        cur: next,
                        ..st
                    },
                )
            } else if is_digit_byte(b) {
                Ok(
                    LexState {
                        state: State::Num,
                        neg: false,
                        digits: seq![b],
                        token_loc: st.cur,
                        cur: next,
                        ..st
                    },
                )
            } else if b == QUOTE {
                Ok(
                    LexState {
                        state: State::Quote,
                        text: Seq::empty(),
                        token_loc: st.cur,
                        cur: next,
                        ..st
                    },
                )
            } else {
                Err(TokenError { loc: st.cur, kind: TokenErrorKind::UnexpectedChar })
            }
        },
        State::Sign => {
            if is_digit_byte(b) {
                Ok(LexState { state: State::Num, digits: seq![b], cur: next, ..st })
            } else {
                Err(TokenError { loc: st.cur, kind: TokenErrorKind::UnexpectedCharInInt })
            }
        },
        State::Num => {
            if is_ascii_space(b) {
                let n = int_val(st.neg, st.digits);
                if i32::MIN <= n <= i32::MAX {
                    Ok(
                        LexState {
                            state: State::Init,
                            tokens: st.tokens.push(TokenV::Int(n as i32, st.token_loc)),
                            cur: next,
                            ..st
                        },
                    )
                } else {
                    Err(TokenError { loc: st.cur, kind: TokenErrorKind::MalformedInt })
                }
            } else if is_digit_byte(b) {
                Ok(LexState { digits: st.digits.push(b), cur: next, ..st })
            } else {
                Err(TokenError { loc: st.cur, kind: TokenErrorKind::UnexpectedCharInInt })
            }
        },
        State::Quote => {
            if b == BACKSLASH {
                Ok(LexState { state: State::Escape, cur: next, ..st })
            } else if b == QUOTE {
                Ok(
                    LexState {
                        state: State::Init,
                        text: Seq::empty(),
                        tokens: st.tokens.push(TokenV::Str(st.text, st.token_loc)),
                        cur: next,
                        ..st
                    },
                )
            } else {
                Ok(LexState { text: st.text.push(b), cur: next, ..st })
            }
        },
        State::Escape => Ok(LexState { state: State::Quote, text: st.text.push(b), cur: next, ..st }),
    }
}

/// Runs the tokenizer from a given state over a byte sequence, first byte
/// first, threading errors.
pub open spec fn lex_run(st: LexState, data: Seq<u8>) -> Result<LexState, TokenError>
    decreases data.len(),
{
    if data.len() == 0 {
        Ok(st)
    } else {
        match lex_step(st, data[0]) {
            Ok(st2) => lex_run(st2, data.drop_first()),
            Err(e) => Err(e),
        }
    }
}

/// Running over a sequence extended by one byte takes that byte as the
/// last step.
pub proof fn lemma_lex_run_push(st: LexState, a: Seq<u8>, b: u8)
    ensures
        lex_run(st, a.push(b)) == (match lex_run(st, a) {
            Ok(s) => lex_step(s, b),
            Err(e) => Err(e),
        }),
    decreases a.len(),
{
    if a.len() == 0 {
        assert(a.push(b)[0] == b);
        assert(a.push(b).drop_first() =~= Seq::<u8>::empty());
        assert(lex_run(st, a) == Ok::<LexState, TokenError>(st));
        if let Ok(s2) = lex_step(st, b) {
            assert(lex_run(st, a.push(b)) == lex_run(s2, a.push(b).drop_first()));
            assert(lex_run(s2, a.push(b).drop_first()) == Ok::<LexState, TokenError>(s2));
        }
    } else {
        assert(a.push(b)[0] == a[0]);
        assert(a.push(b).drop_first() =~= a.drop_first().push(b));
        if let Ok(s1) = lex_step(st, a[0]) {
            lemma_lex_run_push(s1, a.drop_first(), b);
        }
    }
}

/// Tokenizing a whole sequence is running the tokenizer over it from the
/// initial state.
pub proof fn lemma_spec_lex_is_run(data: Seq<u8>)
    ensures
        spec_lex(data) == lex_run(lex_init(), data),
    decreases data.len(),
{
    if data.len() > 0 {
        lemma_spec_lex_is_run(data.drop_last());
        lemma_lex_run_push(lex_init(), data.drop_last(), data.last());
        assert(data.drop_last().push(data.last()) =~= data);
    }
}

/// Running over a concatenation runs over each part in turn.
pub proof fn lemma_lex_run_concat(st: LexState, a: Seq<u8>, b: Seq<u8>)
    ensures
        lex_run(st, a + b) == (match lex_run(st, a) {
            Ok(s) => lex_run(s, b),
            Err(e) => Err(e),
        }),
    decreases a.len(),
{
    if a.len() == 0 {
        assert(a + b =~= b);
    } else {
        assert((a + b)[0] == a[0]);
        assert((a + b).drop_first() =~= a.drop_first() + b);
        if let Ok(s1) = lex_step(st, a[0]) {
            lemma_lex_run_concat(s1, a.drop_first(), b);
        }
    }
}

/// Runs the tokenizer over a whole byte sequence, threading errors.
pub open spec fn spec_lex(data: Seq<u8>) -> Result<LexState, TokenError>
    decreases data.len(),
{
    if data.len() == 0 {
        Ok(lex_init())
    } else {
        match spec_lex(data.drop_last()) {
            Ok(st) => lex_step(st, data.last()),
            Err(e) => Err(e),
        }
    }
}

/// What tokenizing a byte sequence yields: the emitted tokens, or the first
/// lexical error. Input that ends in the middle of a token is rejected (at
/// the token's start location) rather than silently dropping the partial
/// token.
pub open spec fn spec_tokenize(data: Seq<u8>) -> Result<Seq<TokenV>, TokenError> {
    match spec_lex(data) {
        Ok(st) => match st.state {
            State::Init => Ok(st.tokens),
            State::Sign => Err(TokenError { loc: st.token_loc, kind: TokenErrorKind::UnterminatedInt }),
            State::Num => Err(TokenError { loc: st.token_loc, kind: TokenErrorKind::UnterminatedInt }),
            State::Quote => Err(
                TokenError { loc: st.token_loc, kind: TokenErrorKind::UnterminatedString },
            ),
            State::Escape => Err(
                TokenError { loc: st.token_loc, kind: TokenErrorKind::UnterminatedString },
            ),
        },
        Err(e) => Err(e),
    }
}

/// Once a prefix of the input provokes a lexical error, the whole input
/// tokenizes to that same error.
proof fn lemma_spec_lex_err_prefix(data: Seq<u8>, k: int)
    requires
        0 <= k <= data.len(),
        spec_lex(data.take(k)) is Err,
    ensures
        spec_lex(data) == spec_lex(data.take(k)),
    decreases data.len() - k,
{
    if k < data.len() {
        assert(data.take(k + 1).drop_last() =~= data.take(k));
        assert(spec_lex(data.take(k + 1)) == spec_lex(data.take(k)));
        lemma_spec_lex_err_prefix(data, k + 1);
    } else {
        assert(data.take(k) =~= data);
    }
}

/// Parses an accumulated digit sequence as a signed 32-bit integer,
/// returning `None` exactly when the value does not fit.
fn parse_digits_i32(neg: bool, digits: &Vec<u8>) -> (r: Option<i32>)
    requires
        forall|j: int| 0 <= j < digits@.len() ==> is_digit_byte(#[trigger] digits@[j]),
    ensures
        match r {
            Some(v) => v == int_val(neg, digits@),
            None => !(i32::MIN <= int_val(neg, digits@) <= i32::MAX),
        },
{
    let mut val: u64 = 0;
    let mut over: bool = false;
    let mut j: usize = 0;
    while j < digits.len()
        invariant
            j <= digits@.len(),
            forall|k: int| 0 <= k < digits@.len() ==> is_digit_byte(#[trigger] digits@[k]),
            !over ==> val == digits_val(digits@.take(j as int)) && val <= 0x8000_0000,
            over ==> digits_val(digits@.take(j as int)) > 0x8000_0000,
        decreases digits@.len() - j,
    {
        let d: u8 = digits[j] - DIGIT0;
        proof {
            assert(digits@.take(j + 1).drop_last() =~= digits@.take(j as int));
            assert(digits@.take(j + 1).last() == digits@[j as int]);
        }
        if !over {
            let nv: u64 = val * 10 + (d as u64);
            if nv > 0x8000_0000 {
                over = true;
            } else {
                val = nv;
            }
        }
        j += 1;
    }
    proof {
        assert(digits@.take(digits@.len() as int) =~= digits@);
    }
    if over {
        None
    } else if neg {
        Some((-(val as i64)) as i32)
    } else {
        if val <= 0x7fff_ffff {
            Some(val as i32)
        } else {
            None
        }
    }
}

/// A `Stream` contains a fully tokenized file and yields its tokens in
/// order. Its view is the sequence of tokens not yet consumed.
#[derive(Debug)]
pub struct Stream {
    tokens: Vec<Token>,
}

impl View for Stream {
    type V = Seq<TokenV>;

    closed spec fn view(&self) -> Seq<TokenV> {
        self.tokens@.map_values(|t: Token| t@)
    }
}

impl Stream {
    /// Initializes a new `Stream` from the given game data. Because the
    /// game files are small and never read partially, all of the
    /// tokenizing happens up front: the result holds exactly the tokens
    /// that `spec_tokenize` assigns to the data, or its error.
    pub fn new(data: Vec<u8>) -> (r: Result<Stream, TokenError>)
        requires
            data@.len() < usize::MAX,
        ensures
            match r {
                Ok(s) => spec_tokenize(data@) == Ok::<Seq<TokenV>, TokenError>(s@),
                Err(e) => spec_tokenize(data@) == Err::<Seq<TokenV>, TokenError>(e),
            },
    {
        let mut tokens: Vec<Token> = Vec::new();
        let mut state: State = State::Init;
        let mut neg: bool = false;
        let mut digits: Vec<u8> = Vec::new();
        let mut text: Vec<u8> = Vec::new();
        let mut token_loc = Location { line: 1, col: 1 };
        let mut cur = Location { line: 1, col: 1 };

        proof {
            assert(data@.take(0) =~= Seq::<u8>::empty());
            assert(tokens@.map_values(|t: Token| t@) =~= Seq::<TokenV>::empty());
            assert(digits@ =~= Seq::<u8>::empty());
            assert(text@ =~= Seq::<u8>::empty());
        }
        let mut i: usize = 0;
        while i < data.len()
            invariant
                i <= data@.len(),
                data@.len() < usize::MAX,
                cur.line <= 1 + i,
                cur.col <= 1 + i,
                forall|k: int| 0 <= k < digits@.len() ==> is_digit_byte(#[trigger] digits@[k]),
                spec_lex(data@.take(i as int)) == Ok::<LexState, TokenError>(
                    LexState {
                        state,
                        neg,
                        digits: digits@,
                        text: text@,
                        token_loc,
                        cur,
                        tokens: tokens@.map_values(|t: Token| t@),
                    },
                ),
            decreases data@.len() - i,
        {
            let ghost st = LexState {
                state,
                neg,
                digits: digits@,
                text: text@,
                token_loc,
                cur,
                tokens: tokens@.map_values(|t: Token| t@),
            };
            let b = data[i];
            proof {
                assert(data@.take(i + 1).drop_last() =~= data@.take(i as int));
                assert(data@.take(i + 1).last() == data@[i as int]);
                assert(spec_lex(data@.take(i + 1)) == lex_step(st, b));
            }
            let nxt = if b == LF {
                Location { line: cur.line + 1, col: 1 }
            } else {
                Location { line: cur.line, col: cur.col + 1 }
            };
            match state {
                // Init state: not currently reading any token.
                State::Init => {
                    if b == SPACE || b == TAB || b == LF || b == FF || b == CR {
                        // whitespace between tokens: nothing to do
                    } else if b == MINUS {
                        token_loc = cur;
                        neg = true;
                        digits.clear();
                        state = State::Sign;
                    } else if DIGIT0 <= b && b <= DIGIT9 {
                        token_loc = cur;
                        neg = false;
                        digits.clear();
                        digits.push(b);
                        state = State::Num;
                        proof {
                            assert(digits@ =~= seq![b]);
                        }
                    } else if b == QUOTE {
                        token_loc = cur;
                        text.clear();
                        state = State::Quote;
                    } else {
                        proof {
                            lemma_spec_lex_err_prefix(data@, i + 1);
                        }
                        return Err(TokenError { loc: cur, kind: TokenErrorKind::UnexpectedChar });
                    }
                },
                // Sign state: read the initial '-' of a negative integer.
                State::Sign => {
                    if DIGIT0 <= b && b <= DIGIT9 {
                        digits.clear();
                        digits.push(b);
                        state = State::Num;
                        proof {
                            assert(digits@ =~= seq![b]);
                        }
                    } else {
                        proof {
                            lemma_spec_lex_err_prefix(data@, i + 1);
                        }
                        return Err(
                            TokenError { loc: cur, kind: TokenErrorKind::UnexpectedCharInInt },
                        );
                    }
                },
                // Num state: now reading an integer.
                State::Num => {
                    if b == SPACE || b == TAB || b == LF || b == FF || b == CR {
                        match parse_digits_i32(neg, &digits) {
                            Some(v) => {
                                tokens.push(Token::Int(v, token_loc));
                                state = State::Init;
                                proof {
                                    assert(tokens@.map_values(|t: Token| t@) =~= st.tokens.push(
                                        TokenV::Int(v, token_loc),
                                    ));
                                }
                            },
                            None => {
                                proof {
                                    lemma_spec_lex_err_prefix(data@, i + 1);
                                }
                                return Err(
                                    TokenError { loc: cur, kind: TokenErrorKind::MalformedInt },
                                );
                            },
                        }
                    } else if DIGIT0 <= b && b <= DIGIT9 {
                        digits.push(b);
                    } else {
                        proof {
                            lemma_spec_lex_err_prefix(data@, i + 1);
                        }
                        return Err(
                            TokenError { loc: cur, kind: TokenErrorKind::UnexpectedCharInInt },
                        );
                    }
                },
                // Quote state: inside a quoted string.
                State::Quote => {
                    if b == BACKSLASH {
                        state = State::Escape;
                    } else if b == QUOTE {
                        tokens.push(Token::Str(text, token_loc));
                        text = Vec::new();
                        state = State::Init;
                        proof {
                            assert(tokens@.map_values(|t: Token| t@) =~= st.tokens.push(
                                TokenV::Str(st.text, token_loc),
                            ));
                        }
                    } else {
                        text.push(b);
                    }
                },
                // Escape state: append the next character unconditionally.
                State::Escape => {
                    text.push(b);
                    state = State::Quote;
                },
            }
            cur = nxt;
            i += 1;
        }
        proof {
            assert(data@.take(data@.len() as int) =~= data@);
        }
        match state {
            State::Init => Ok(Stream { tokens }),
            State::Sign => Err(TokenError { loc: token_loc, kind: TokenErrorKind::UnterminatedInt }),
            State::Num => Err(TokenError { loc: token_loc, kind: TokenErrorKind::UnterminatedInt }),
            State::Quote => Err(
                TokenError { loc: token_loc, kind: TokenErrorKind::UnterminatedString },
            ),
            State::Escape => Err(
                TokenError { loc: token_loc, kind: TokenErrorKind::UnterminatedString },
            ),
        }
    }

    /// Checks whether the end of the stream has been reached.
    pub fn done(&self) -> (r: bool)
        ensures
            r == (self@.len() == 0),
    {
        self.tokens.len() == 0
    }

    /// Returns the next token, whatever its kind, advancing past it; `None`
    /// once the stream is exhausted.
    pub fn next_token(&mut self) -> (r: Option<Token>)
        ensures
            match r {
                Some(t) => old(self)@.len() > 0 && t@ == old(self)@[0] && final(self)@ == old(
                    self,
                )@.drop_first(),
                None => old(self)@.len() == 0 && final(self)@ == old(self)@,
            },
    {
        if self.tokens.len() == 0 {
            None
        } else {
            let t = self.tokens.remove(0);
            proof {
                assert(self.tokens@.map_values(|t: Token| t@) =~= old(
                    self,
                )@.drop_first());
            }
            Some(t)
        }
    }

    /// Returns the next integer in the stream. The token is consumed even
    /// when it is not an integer: a failed pull is not retryable.
    pub fn next_int(&mut self) -> (r: Result<i32, TokenError>)
        ensures
            old(self)@.len() == 0 ==> r == Err::<i32, TokenError>(
                TokenError { loc: Location { line: 0, col: 0 }, kind: TokenErrorKind::UnexpectedEnd },
            ) && final(self)@ == old(self)@,
            old(self)@.len() > 0 ==> final(self)@ == old(self)@.drop_first() && (match old(
                self,
            )@[0] {
                TokenV::Int(v, _) => r == Ok::<i32, TokenError>(v),
                TokenV::Str(_, loc) => r == Err::<i32, TokenError>(
                    TokenError { loc, kind: TokenErrorKind::ExpectedInt },
                ),
            }),
    {
        match self.next_token() {
            Some(Token::Int(v, _)) => Ok(v),
            Some(Token::Str(_, loc)) => Err(TokenError { loc, kind: TokenErrorKind::ExpectedInt }),
            None => Err(
                TokenError { loc: Location { line: 0, col: 0 }, kind: TokenErrorKind::UnexpectedEnd },
            ),
        }
    }

    /// Returns the next string in the stream. The token is consumed even
    /// when it is not a string: a failed pull is not retryable.
    pub fn next_str(&mut self) -> (r: Result<Vec<u8>, TokenError>)
        ensures
            old(self)@.len() == 0 ==> (r matches Err(e) && e == TokenError {
                loc: Location { line: 0, col: 0 },
                kind: TokenErrorKind::UnexpectedEnd,
            }) && final(self)@ == old(self)@,
            old(self)@.len() > 0 ==> final(self)@ == old(self)@.drop_first() && (match old(
                self,
            )@[0] {
                TokenV::Str(s, _) => r matches Ok(v) && v@ == s,
                TokenV::Int(_, loc) => r matches Err(e) && e == TokenError {
                    loc,
                    kind: TokenErrorKind::ExpectedStr,
                },
            }),
    {
        match self.next_token() {
            Some(Token::Str(s, _)) => Ok(s),
            Some(Token::Int(_, loc)) => Err(TokenError { loc, kind: TokenErrorKind::ExpectedStr }),
            None => Err(
                TokenError { loc: Location { line: 0, col: 0 }, kind: TokenErrorKind::UnexpectedEnd },
            ),
        }
    }
}

} // verus!
