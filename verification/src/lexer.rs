//! The lexer: a single left-to-right scan over the source characters that
//! emits a flat token sequence. It never fails; malformed quoting (an
//! unterminated string literal) is absorbed to end of input and the pending
//! literal is dropped, a known limitation of the language.

use vstd::prelude::*;
use vstd::string::StrSliceExecFns;

use crate::ast::{LocView, Location, Quote, Token, TokenView, tokens_view};

verus! {

/// The full state of the scan between two characters: the tokens emitted so
/// far, the accumulator of the token being built, the running line/column
/// counters, and the latched start position of the current token.
pub struct LexState {
    pub tokens: Seq<TokenView>,
    pub in_symbol: bool,
    pub current_symbol: Seq<char>,
    pub in_string: bool,
    pub current_string: Seq<char>,
    pub delim: Quote,
    pub line: nat,
    pub column: nat,
    pub this_line: nat,
    pub this_column: nat,
    pub mark_pos: bool,
}

/// The scan state before any character is consumed.
pub open spec fn lex_init() -> LexState {
    LexState {
        tokens: Seq::empty(),
        in_symbol: false,
        current_symbol: Seq::empty(),
        in_string: false,
        current_string: Seq::empty(),
        delim: Quote::Single,
        line: 1,
        column: 0,
        this_line: 1,
        this_column: 0,
        mark_pos: true,
    }
}

/// One step of the scan: consume character `c` in state `st`.
///
/// The position counters move first (a newline opens a new line; any other
/// character advances the column), and while `mark_pos` holds, the start
/// position of the next token is latched. Inside a string, the matching
/// close delimiter emits the literal at the latched position and the other
/// quote kind is ordinary content. Outside, a parenthesis flushes any
/// symbol in progress and is emitted at the current position; a quote opens
/// a string; whitespace flushes a nonempty symbol; anything else extends
/// the symbol accumulator.
pub open spec fn lex_step(st: LexState, c: char) -> LexState {
    let line = if c == '\n' { st.line + 1 } else { st.line };
    let column = if c == '\n' { 0nat } else { st.column + 1 };
    let this_line = if st.mark_pos { line } else { st.this_line };
    let this_column = if st.mark_pos { column } else { st.this_column };
    if st.in_string {
        if (c == '\'' && st.delim == Quote::Single) || (c == '"' && st.delim == Quote::Double) {
            LexState {
                tokens: st.tokens.push(
                    TokenView::StrLit {
                        content: st.current_string,
                        location: LocView { line: this_line, column: this_column },
                    },
                ),
                in_string: false,
                current_string: Seq::empty(),
                mark_pos: false,
                line,
                column,
                this_line,
                this_column,
                ..st
            }
        } else {
            LexState {
                current_string: st.current_string.push(c),
                mark_pos: if c == '\'' || c == '"' {
                    st.mark_pos
                } else {
                    false
                },
                line,
                column,
                this_line,
                this_column,
                ..st
            }
        }
    } else if c == '(' || c == ')' {
        LexState {
            tokens: flush_symbol(st, this_line, this_column).push(
                if c == '(' {
                    TokenView::LParen { location: LocView { line, column } }
                } else {
                    TokenView::RParen { location: LocView { line, column } }
                },
            ),
            in_symbol: false,
            current_symbol: if st.in_symbol {
                Seq::empty()
            } else {
                st.current_symbol
            },
            mark_pos: true,
            line,
            column,
            this_line,
            this_column,
            ..st
        }
    } else if c == '\'' {
        LexState {
            in_string: true,
            delim: Quote::Single,
            mark_pos: false,
            line,
            column,
            this_line,
            this_column,
            ..st
        }
    } else if c == '"' {
        LexState {
            in_string: true,
            delim: Quote::Double,
            mark_pos: false,
            line,
            column,
            this_line,
            this_column,
            ..st
        }
    } else if c == ' ' || c == '\n' {
        if st.in_symbol && st.current_symbol.len() > 0 {
            LexState {
                tokens: st.tokens.push(
                    TokenView::Symbol {
                        content: st.current_symbol,
                        location: LocView { line: this_line, column: this_column },
                    },
                ),
                in_symbol: false,
                current_symbol: Seq::empty(),
                mark_pos: true,
                line,
                column,
                this_line,
                this_column,
                ..st
            }
        } else {
            LexState { mark_pos: true, line, column, this_line, this_column, ..st }
        }
    } else {
        LexState {
            in_symbol: true,
            current_symbol: st.current_symbol.push(c),
            mark_pos: false,
            line,
            column,
            this_line,
            this_column,
            ..st
        }
    }
}

/// The token sequence after a symbol in progress is flushed at the latched
/// position; without one in progress, the tokens emitted so far.
pub open spec fn flush_symbol(st: LexState, this_line: nat, this_column: nat) -> Seq<TokenView> {
    if st.in_symbol {
        st.tokens.push(
            TokenView::Symbol {
                content: st.current_symbol,
                location: LocView { line: this_line, column: this_column },
            },
        )
    } else {
        st.tokens
    }
}

/// The scan state after the first `n` characters of `s`.
pub open spec fn lex_scan(s: Seq<char>, n: int) -> LexState
    decreases n,
{
    if n <= 0 {
        lex_init()
    } else {
        lex_step(lex_scan(s, n - 1), s[n - 1])
    }
}

/// At end of input, a symbol still in progress is flushed as a final token,
/// whatever its accumulator holds; an unterminated string is dropped.
pub open spec fn lex_finalize(st: LexState) -> Seq<TokenView> {
    if st.in_symbol {
        st.tokens.push(
            TokenView::Symbol {
                content: st.current_symbol,
                location: LocView { line: st.this_line, column: st.this_column },
            },
        )
    } else {
        st.tokens
    }
}

/// The token sequence of a whole source text.
pub open spec fn spec_tokenize(s: Seq<char>) -> Seq<TokenView> {
    lex_finalize(lex_scan(s, s.len() as int))
}

/// Relies on String::push: appends the given character to the end.
#[verifier::external_body]
fn push_char(s: &mut String, c: char)
    ensures
        final(s)@ == old(s)@.push(c),
{
    s.push(c);
}

proof fn lemma_tokens_view_push(ts: Seq<Token>, t: Token)
    ensures
        tokens_view(ts.push(t)) == tokens_view(ts).push(t@),
{
    assert(tokens_view(ts.push(t)) =~= tokens_view(ts).push(t@));
}

/// Lex the whole source text into an ordered token sequence. Never fails.
pub fn tokenize(source: &str) -> (r: Vec<Token>)
    requires
        source@.len() < usize::MAX,
    ensures
        tokens_view(r@) == spec_tokenize(source@),
{
    let n: usize = source.unicode_len();
    let mut tokens: Vec<Token> = Vec::new();
    let mut in_symbol: bool = false;
    let mut current_symbol: String = String::new();
    let mut in_string: bool = false;
    let mut current_string: String = String::new();
    let mut string_delim: Quote = Quote::Single;
    let mut line: usize = 1;
    let mut this_line: usize = 1;
    let mut column: usize = 0;
    let mut this_column: usize = 0;
    let mut mark_pos: bool = true;
    let mut i: usize = 0;
    while i < n
        invariant
            n == source@.len(),
            n < usize::MAX,
            i <= n,
            line <= 1 + i,
            column <= i,
            ({
                let st = lex_scan(source@, i as int);
                &&& tokens_view(tokens@) == st.tokens
                &&& in_symbol == st.in_symbol
                &&& current_symbol@ == st.current_symbol
                &&& in_string == st.in_string
                &&& current_string@ == st.current_string
                &&& string_delim == st.delim
                &&& line as nat == st.line
                &&& column as nat == st.column
                &&& this_line as nat == st.this_line
                &&& this_column as nat == st.this_column
                &&& mark_pos == st.mark_pos
            }),
        decreases n - i,
    {
        let ghost st = lex_scan(source@, i as int);
        let c = source.get_char(i);
        if c == '\n' {
            line = line + 1;
            column = 0;
        } else {
            column = column + 1;
        }
        if mark_pos {
            this_line = line;
            this_column = column;
        }
        if in_string {
            let close = match string_delim {
                Quote::Single => c == '\'',
                Quote::Double => c == '"',
            };
            if close {
                proof {
                    lemma_tokens_view_push(
                        tokens@,
                        Token::StrLit {
                            content: current_string,
                            location: Location { line: this_line, column: this_column },
                        },
                    );
                }
                tokens.push(
                    Token::StrLit {
                        content: current_string,
                        location: Location::new(this_line, this_column),
                    },
                );
                current_string = String::new();
                in_string = false;
                mark_pos = false;
            } else {
                push_char(&mut current_string, c);
                if c != '\'' && c != '"' {
                    mark_pos = false;
                }
            }
        } else if c == '(' || c == ')' {
            if in_symbol {
                proof {
                    lemma_tokens_view_push(
                        tokens@,
                        Token::Symbol {
                            content: current_symbol,
                            location: Location { line: this_line, column: this_column },
                        },
                    );
                }
                tokens.push(
                    Token::Symbol {
                        content: current_symbol,
                        location: Location::new(this_line, this_column),
                    },
                );
                current_symbol = String::new();
                in_symbol = false;
            }
            let paren = if c == '(' {
                Token::LParen { location: Location::new(line, column) }
            } else {
                Token::RParen { location: Location::new(line, column) }
            };
            proof {
                lemma_tokens_view_push(tokens@, paren);
            }
            tokens.push(paren);
            mark_pos = true;
        } else if c == '\'' || c == '"' {
            in_string = true;
            string_delim = if c == '\'' {
                Quote::Single
            } else {
                Quote::Double
            };
            mark_pos = false;
        } else if c == ' ' || c == '\n' {
            if in_symbol && current_symbol.as_str().unicode_len() > 0 {
                proof {
                    lemma_tokens_view_push(
                        tokens@,
                        Token::Symbol {
                            content: current_symbol,
                            location: Location { line: this_line, column: this_column },
                        },
                    );
                }
                tokens.push(
                    Token::Symbol {
                        content: current_symbol,
                        location: Location::new(this_line, this_column),
                    },
                );
                current_symbol = String::new();
                in_symbol = false;
            }
            mark_pos = true;
        } else {
            in_symbol = true;
            push_char(&mut current_symbol, c);
            mark_pos = false;
        }
        i = i + 1;
        proof {
            assert(lex_scan(source@, i as int) == lex_step(st, c));
        }
    }
    if in_symbol {
        proof {
            lemma_tokens_view_push(
                tokens@,
                Token::Symbol {
                    content: current_symbol,
                    location: Location { line: this_line, column: this_column },
                },
            );
        }
        tokens.push(
            Token::Symbol {
                content: current_symbol,
                location: Location::new(this_line, this_column),
            },
        );
    }
    tokens
}

/// The scan state in the middle of a double-quoted string literal that
/// opened the input: the first `k` body characters sit in the accumulator,
/// nothing has been emitted, and the start position stays latched at the
/// opening quote.
proof fn lemma_string_scan(s: Seq<char>, k: int)
    requires
        0 <= k <= s.len(),
        forall|i: int| 0 <= i < s.len() ==> s[i] != '"',
    ensures
        ({
            let st = lex_scan(seq!['"'] + s + seq!['"'], 1 + k);
            &&& st.tokens == Seq::<TokenView>::empty()
            &&& !st.in_symbol
            &&& st.in_string
            &&& st.delim == Quote::Double
            &&& st.current_string == s.take(k)
            &&& !st.mark_pos
            &&& st.this_line == 1
            &&& st.this_column == 1
        }),
    decreases k,
{
    let full = seq!['"'] + s + seq!['"'];
    if k == 0 {
        assert(full[0] == '"');
        assert(lex_scan(full, 0) == lex_init());
        assert(lex_scan(full, 1) == lex_step(lex_init(), full[0]));
        assert(s.take(0) =~= Seq::<char>::empty());
    } else {
        lemma_string_scan(s, k - 1);
        assert(full[k] == s[k - 1]);
        assert(lex_scan(full, 1 + k) == lex_step(lex_scan(full, k), full[k]));
        assert(s.take(k) =~= s.take(k - 1).push(s[k - 1]));
    }
}

/// String literal round-trip: a double-quoted literal whose body holds no
/// double quote — characters of the other quote kind included — lexes to
/// exactly one string-literal token that carries the body verbatim, at the
/// position of the opening quote.
pub proof fn lemma_string_literal_round_trip(s: Seq<char>)
    requires
        forall|i: int| 0 <= i < s.len() ==> s[i] != '"',
    ensures
        spec_tokenize(seq!['"'] + s + seq!['"']) == seq![
            TokenView::StrLit { content: s, location: LocView { line: 1, column: 1 } },
        ],
{
    let full = seq!['"'] + s + seq!['"'];
    let n = s.len() as int;
    lemma_string_scan(s, n);
    let st = lex_scan(full, 1 + n);
    assert(full[1 + n] == '"');
    assert(full.len() == 2 + n);
    assert(lex_scan(full, 2 + n) == lex_step(st, '"'));
    assert(s.take(n) =~= s);
    assert(Seq::<TokenView>::empty().push(
        TokenView::StrLit { content: s, location: LocView { line: 1, column: 1 } },
    ) =~= seq![TokenView::StrLit { content: s, location: LocView { line: 1, column: 1 } }]);
}

/// Re-lexing the same source yields token sequences that are element-wise
/// equal: the token sequence is a function of the characters alone.
pub proof fn lemma_tokenize_deterministic(s: Seq<char>, t1: Seq<TokenView>, t2: Seq<TokenView>)
    requires
        t1 == spec_tokenize(s),
        t2 == spec_tokenize(s),
    ensures
        t1.len() == t2.len(),
        forall|i: int| 0 <= i < t1.len() ==> t1[i] == t2[i],
{
}

} // verus!
