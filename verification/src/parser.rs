//! The parser: rebuilds nested list structure from a range of the token
//! sequence, in a single forward pass with one delimiter-matching lookahead
//! per nested group. Structural errors are reported as [`ParseError`]s.

use vstd::prelude::*;

use crate::ast::{
    Exp, ExpView, LocView, Location, ParseErrView, ParseError, Token, TokenView, exps_view,
    lemma_exps_view_push, tokens_view,
};

verus! {

/// Message of the error raised by a closing parenthesis with no open group.
pub open spec fn msg_unexpected_close() -> Seq<char> {
    "Unexpected closing parentheses"@
}

/// Message of the error raised when a range ends while a group is open.
pub open spec fn msg_missing_close() -> Seq<char> {
    "Missing closing parentheses"@
}

/// Message of the error raised by several bare atoms in one range.
pub open spec fn msg_invalid_expression() -> Seq<char> {
    "Invalid expression"@
}

/// The location reported when a scan runs off the end of the sequence: the
/// last token's own location, or line 0, column 0 on an empty sequence.
pub open spec fn end_loc(tokens: Seq<TokenView>) -> LocView {
    if tokens.len() > 0 {
        tokens[tokens.len() - 1].loc()
    } else {
        LocView { line: 0, column: 0 }
    }
}

/// What the delimiter-matching scan yields from position `i` with `nesting`
/// groups already open: the index of the closing parenthesis that brings the
/// nesting back to zero, or the structural error met first.
pub open spec fn spec_find_end(tokens: Seq<TokenView>, i: int, nesting: nat) -> Result<
    int,
    ParseErrView,
>
    decreases tokens.len() - i,
{
    if i < 0 || i >= tokens.len() {
        Err(ParseErrView { message: msg_missing_close(), location: end_loc(tokens) })
    } else {
        match tokens[i] {
            TokenView::LParen { .. } => spec_find_end(tokens, i + 1, nesting + 1),
            TokenView::RParen { location } => {
                if nesting == 0 {
                    Err(ParseErrView { message: msg_unexpected_close(), location })
                } else if nesting == 1 {
                    Ok(i)
                } else {
                    spec_find_end(tokens, i + 1, (nesting - 1) as nat)
                }
            },
            _ => spec_find_end(tokens, i + 1, nesting),
        }
    }
}

/// A successful delimiter-matching scan stays within the sequence and ends
/// on a closing parenthesis at or after its starting point.
pub proof fn lemma_find_end_ok(tokens: Seq<TokenView>, i: int, nesting: nat, j: int)
    requires
        spec_find_end(tokens, i, nesting) == Ok::<int, ParseErrView>(j),
    ensures
        i <= j < tokens.len(),
        tokens[j] is RParen,
    decreases tokens.len() - i,
{
    if 0 <= i < tokens.len() {
        match tokens[i] {
            TokenView::LParen { .. } => {
                lemma_find_end_ok(tokens, i + 1, nesting + 1, j);
            },
            TokenView::RParen { .. } => {
                if nesting == 0 {
                } else if nesting == 1 {
                } else {
                    lemma_find_end_ok(tokens, i + 1, (nesting - 1) as nat, j);
                }
            },
            _ => {
                lemma_find_end_ok(tokens, i + 1, nesting, j);
            },
        }
    }
}

/// What one parse over the range `[start, end]` yields, seen from the middle
/// of its scan: `i` is the cursor, `nested` whether the group this call is
/// responsible for has been opened, `contents` the children collected so
/// far, and `loc` the location of the last token examined.
pub open spec fn spec_parse_loop(
    tokens: Seq<TokenView>,
    start: int,
    end: int,
    i: int,
    nested: bool,
    contents: Seq<ExpView>,
    loc: LocView,
) -> Result<ExpView, ParseErrView>
    decreases
            tokens.len() - i,
            (if nested {
                1int
            } else {
                0int
            }),
{
    if i > end || i >= tokens.len() {
        if nested {
            Err(ParseErrView { message: msg_missing_close(), location: loc })
        } else if contents.len() == 0 {
            Ok(ExpView::Nil)
        } else {
            Ok(ExpView::List { contents })
        }
    } else {
        let t = tokens[i];
        let tloc = t.loc();
        match t {
            TokenView::LParen { .. } => {
                if nested {
                    match spec_find_end(tokens, i, 0) {
                        Ok(j) => {
                            proof {
                                lemma_find_end_ok(tokens, i, 0, j);
                            }
                            match spec_parse_loop(
                                tokens,
                                i,
                                j,
                                i,
                                false,
                                Seq::empty(),
                                LocView { line: 0, column: 0 },
                            ) {
                                Ok(e) => spec_parse_loop(
                                    tokens,
                                    start,
                                    end,
                                    j + 1,
                                    true,
                                    contents.push(e),
                                    tloc,
                                ),
                                Err(e) => Err(e),
                            }
                        },
                        Err(e) => Err(e),
                    }
                } else {
                    spec_parse_loop(tokens, start, end, i + 1, true, contents, tloc)
                }
            },
            TokenView::RParen { .. } => {
                if nested {
                    spec_parse_loop(tokens, start, end, i + 1, false, contents, tloc)
                } else {
                    Err(ParseErrView { message: msg_unexpected_close(), location: tloc })
                }
            },
            _ => {
                if nested {
                    spec_parse_loop(
                        tokens,
                        start,
                        end,
                        i + 1,
                        true,
                        contents.push(ExpView::Atom { token: t }),
                        tloc,
                    )
                } else if end - start > 1 {
                    Err(ParseErrView { message: msg_invalid_expression(), location: tloc })
                } else {
                    Ok(ExpView::Atom { token: t })
                }
            },
        }
    }
}

/// What parsing the range `[start, end]` of a token sequence yields.
pub open spec fn spec_parse(tokens: Seq<TokenView>, start: int, end: int) -> Result<
    ExpView,
    ParseErrView,
> {
    spec_parse_loop(tokens, start, end, start, false, Seq::empty(), LocView { line: 0, column: 0 })
}

/// The view of a delimiter-matching result.
pub open spec fn find_result_view(r: Result<usize, ParseError>) -> Result<int, ParseErrView> {
    match r {
        Ok(i) => Ok(i as int),
        Err(e) => Err(e@),
    }
}

/// The view of a parse result.
pub open spec fn parse_result_view(r: Result<Exp, ParseError>) -> Result<ExpView, ParseErrView> {
    match r {
        Ok(e) => Ok(e@),
        Err(e) => Err(e@),
    }
}

/// The view of a multi-form parse result.
pub open spec fn parse_top_result_view(r: Result<Vec<Exp>, ParseError>) -> Result<
    Seq<ExpView>,
    ParseErrView,
> {
    match r {
        Ok(es) => Ok(exps_view(es@)),
        Err(e) => Err(e@),
    }
}

/// Given the index of an opening parenthesis, scan forward for the matching
/// closing parenthesis: each further opener deepens the nesting, each closer
/// lifts it, and the index where it returns to zero is the match. A closer
/// met with no open group, or a scan that runs off the end while groups
/// stay open, is reported as a [`ParseError`].
pub fn find_exp_end(tokens: &Vec<Token>, start: usize) -> (r: Result<usize, ParseError>)
    ensures
        find_result_view(r) == spec_find_end(tokens_view(tokens@), start as int, 0),
{
    let ghost toks = tokens_view(tokens@);
    let mut nesting: usize = 0;
    let mut i: usize = start;
    while i < tokens.len()
        invariant
            toks == tokens_view(tokens@),
            start <= i,
            nesting <= i - start,
            spec_find_end(toks, start as int, 0nat) == spec_find_end(toks, i as int, nesting as nat),
        decreases tokens.len() - i,
    {
        let t = &tokens[i];
        match t {
            Token::LParen { .. } => {
                nesting = nesting + 1;
            },
            Token::RParen { .. } => {
                if nesting == 0 {
                    return Err(
                        ParseError::new("Unexpected closing parentheses".to_owned(), t.get_location()),
                    );
                } else if nesting == 1 {
                    return Ok(i);
                } else {
                    nesting = nesting - 1;
                }
            },
            _ => {},
        }
        i = i + 1;
    }
    let location = if tokens.len() > 0 {
        tokens[tokens.len() - 1].get_location()
    } else {
        Location::new(0, 0)
    };
    Err(ParseError::new("Missing closing parentheses".to_owned(), location))
}

/// Parse the tokens in the range `[start, end]`, where `end` is either the
/// sequence length (whole-input call) or the index of the closing
/// parenthesis that matches the group being parsed (recursive call).
///
/// Fails with `Unexpected closing parentheses` on a closer with no open
/// group at this level, `Invalid expression` when several bare atoms share
/// the range without enclosing parentheses, and `Missing closing
/// parentheses` when the range ends while the group is still open.
pub fn parse_expression(tokens: &Vec<Token>, start: usize, end: usize) -> (r: Result<
    Exp,
    ParseError,
>)
    ensures
        parse_result_view(r) == spec_parse(tokens_view(tokens@), start as int, end as int),
    decreases tokens@.len() - start,
{
    let ghost toks = tokens_view(tokens@);
    let mut contents: Vec<Exp> = Vec::new();
    let mut nested: bool = false;
    let mut i: usize = start;
    let mut location: Location = Location::new(0, 0);
    proof {
        assert(exps_view(contents@) =~= Seq::<ExpView>::empty());
    }
    while i <= end && i < tokens.len()
        invariant
            toks == tokens_view(tokens@),
            start <= i,
            nested ==> start < i,
            spec_parse(toks, start as int, end as int) == spec_parse_loop(
                toks,
                start as int,
                end as int,
                i as int,
                nested,
                exps_view(contents@),
                location@,
            ),
        decreases tokens@.len() - i,
    {
        let t = &tokens[i];
        location = t.get_location();
        match t {
            Token::LParen { .. } => {
                if nested {
                    let inner_end = match find_exp_end(tokens, i) {
                        Ok(j) => j,
                        Err(e) => {
                            return Err(e);
                        },
                    };
                    proof {
                        lemma_find_end_ok(toks, i as int, 0, inner_end as int);
                    }
                    let child = match parse_expression(tokens, i, inner_end) {
                        Ok(e) => e,
                        Err(e) => {
                            return Err(e);
                        },
                    };
                    proof {
                        lemma_exps_view_push(contents@, child);
                    }
                    contents.push(child);
                    i = inner_end;
                } else {
                    nested = true;
                }
            },
            Token::RParen { .. } => {
                if nested {
                    nested = false;
                } else {
                    return Err(
                        ParseError::new("Unexpected closing parentheses".to_owned(), location),
                    );
                }
            },
            _ => {
                if nested {
                    let child = Exp::Atom { token: t.clone() };
                    proof {
                        lemma_exps_view_push(contents@, child);
                    }
                    contents.push(child);
                } else if end - start > 1 {
                    return Err(ParseError::new("Invalid expression".to_owned(), location));
                } else {
                    return Ok(Exp::Atom { token: t.clone() });
                }
            },
        }
        i = i + 1;
    }
    if nested {
        Err(ParseError::new("Missing closing parentheses".to_owned(), location))
    } else if contents.len() == 0 {
        Ok(Exp::Nil)
    } else {
        Ok(Exp::List { contents })
    }
}

/// What the multi-form walk yields from cursor `i` with `depth` groups open,
/// the current top-level group having opened at `span_start`, and the forms
/// finished so far in `acc`.
pub open spec fn spec_parse_top_loop(
    tokens: Seq<TokenView>,
    i: int,
    depth: nat,
    span_start: int,
    acc: Seq<ExpView>,
) -> Result<Seq<ExpView>, ParseErrView>
    decreases tokens.len() - i,
{
    if i < 0 || i >= tokens.len() {
        if depth == 0 {
            Ok(acc)
        } else {
            Err(ParseErrView { message: msg_missing_close(), location: end_loc(tokens) })
        }
    } else {
        match tokens[i] {
            TokenView::LParen { .. } => spec_parse_top_loop(
                tokens,
                i + 1,
                depth + 1,
                if depth == 0 {
                    i
                } else {
                    span_start
                },
                acc,
            ),
            TokenView::RParen { location } => {
                if depth == 0 {
                    Err(ParseErrView { message: msg_unexpected_close(), location })
                } else if depth == 1 {
                    match spec_parse(tokens, span_start, i) {
                        Ok(e) => spec_parse_top_loop(tokens, i + 1, 0, span_start, acc.push(e)),
                        Err(e) => Err(e),
                    }
                } else {
                    spec_parse_top_loop(tokens, i + 1, (depth - 1) as nat, span_start, acc)
                }
            },
            _ => {
                if depth == 0 {
                    match spec_parse(tokens, i, i) {
                        Ok(e) => spec_parse_top_loop(tokens, i + 1, 0, span_start, acc.push(e)),
                        Err(e) => Err(e),
                    }
                } else {
                    spec_parse_top_loop(tokens, i + 1, depth, span_start, acc)
                }
            },
        }
    }
}

/// What splitting a whole token sequence into independent top-level forms
/// yields: one parsed expression per maximal balanced group and per bare
/// atom met at nesting depth zero.
pub open spec fn spec_parse_top(tokens: Seq<TokenView>) -> Result<Seq<ExpView>, ParseErrView> {
    spec_parse_top_loop(tokens, 0, 0, 0, Seq::empty())
}

/// Split a whole token sequence into independent top-level forms, tracking
/// the nesting depth across the sequence, and parse each maximal
/// zero-to-positive-back-to-zero span and each bare depth-zero atom on its
/// own. Yields the ordered sequence of top-level expressions.
pub fn parse_top_level(tokens: &Vec<Token>) -> (r: Result<Vec<Exp>, ParseError>)
    ensures
        parse_top_result_view(r) == spec_parse_top(tokens_view(tokens@)),
{
    let ghost toks = tokens_view(tokens@);
    let mut results: Vec<Exp> = Vec::new();
    let mut depth: usize = 0;
    let mut span_start: usize = 0;
    let mut i: usize = 0;
    proof {
        assert(exps_view(results@) =~= Seq::<ExpView>::empty());
    }
    while i < tokens.len()
        invariant
            toks == tokens_view(tokens@),
            i <= tokens.len(),
            depth <= i,
            span_start <= i,
            spec_parse_top(toks) == spec_parse_top_loop(
                toks,
                i as int,
                depth as nat,
                span_start as int,
                exps_view(results@),
            ),
        decreases tokens.len() - i,
    {
        let t = &tokens[i];
        match t {
            Token::LParen { .. } => {
                if depth == 0 {
                    span_start = i;
                }
                depth = depth + 1;
            },
            Token::RParen { .. } => {
                if depth == 0 {
                    return Err(
                        ParseError::new("Unexpected closing parentheses".to_owned(), t.get_location()),
                    );
                } else if depth == 1 {
                    match parse_expression(tokens, span_start, i) {
                        Ok(e) => {
                            proof {
                                lemma_exps_view_push(results@, e);
                            }
                            results.push(e);
                            depth = 0;
                        },
                        Err(e) => {
                            return Err(e);
                        },
                    }
                } else {
                    depth = depth - 1;
                }
            },
            _ => {
                if depth == 0 {
                    match parse_expression(tokens, i, i) {
                        Ok(e) => {
                            proof {
                                lemma_exps_view_push(results@, e);
                            }
                            results.push(e);
                        },
                        Err(e) => {
                            return Err(e);
                        },
                    }
                }
            },
        }
        i = i + 1;
    }
    if depth == 0 {
        Ok(results)
    } else {
        let location = if tokens.len() > 0 {
            tokens[tokens.len() - 1].get_location()
        } else {
            Location::new(0, 0)
        };
        Err(ParseError::new("Missing closing parentheses".to_owned(), location))
    }
}

} // verus!
