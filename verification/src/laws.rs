//! Theorems about the parser, proved once for all inputs: a balanced token
//! sequence always parses, and the tree built from a parenthesized group
//! nests exactly as deep as its parentheses.

use vstd::prelude::*;

use crate::ast::{ExpView, LocView, ParseErrView, TokenView};
use crate::lexer::spec_tokenize;
use crate::parser::{spec_find_end, spec_parse, spec_parse_loop, spec_parse_top, spec_parse_top_loop};

verus! {

/// How one token changes the parenthesis nesting.
pub open spec fn token_delta(t: TokenView) -> int {
    match t {
        TokenView::LParen { .. } => 1,
        TokenView::RParen { .. } => -1,
        _ => 0,
    }
}

/// The net parenthesis nesting contributed by the tokens in `[a, b)`.
pub open spec fn net(tokens: Seq<TokenView>, a: int, b: int) -> int
    decreases b - a,
{
    if b <= a {
        0
    } else {
        net(tokens, a, b - 1) + token_delta(tokens[b - 1])
    }
}

/// Nesting over adjacent ranges adds up.
pub proof fn lemma_net_add(tokens: Seq<TokenView>, a: int, b: int, c: int)
    requires
        a <= b <= c,
    ensures
        net(tokens, a, c) == net(tokens, a, b) + net(tokens, b, c),
    decreases c - b,
{
    if c > b {
        lemma_net_add(tokens, a, b, c - 1);
    }
}

/// The larger of two integers.
pub open spec fn int_max(a: int, b: int) -> int {
    if a >= b {
        a
    } else {
        b
    }
}

/// The larger of two naturals.
pub open spec fn nat_max(a: nat, b: nat) -> nat {
    if a >= b {
        a
    } else {
        b
    }
}

/// The largest nesting reached from base `i` at any point of `[a, b]`.
pub open spec fn max_net(tokens: Seq<TokenView>, i: int, a: int, b: int) -> int
    decreases b - a,
{
    if b <= a {
        net(tokens, i, a)
    } else {
        int_max(max_net(tokens, i, a, b - 1), net(tokens, i, b))
    }
}

/// Every point of the range is below the range's largest nesting.
pub proof fn lemma_max_net_contains(tokens: Seq<TokenView>, i: int, a: int, k: int, b: int)
    requires
        a <= k <= b,
    ensures
        net(tokens, i, k) <= max_net(tokens, i, a, b),
    decreases b - a,
{
    if k < b {
        lemma_max_net_contains(tokens, i, a, k, b - 1);
    }
}

/// The largest nesting of a range, peeled at its lower end.
pub proof fn lemma_max_net_lo(tokens: Seq<TokenView>, i: int, a: int, b: int)
    requires
        a < b,
    ensures
        max_net(tokens, i, a, b) == int_max(net(tokens, i, a), max_net(tokens, i, a + 1, b)),
    decreases b - a,
{
    if b > a + 1 {
        lemma_max_net_lo(tokens, i, a, b - 1);
    } else {
        assert(max_net(tokens, i, a, a) == net(tokens, i, a));
        assert(max_net(tokens, i, a + 1, b) == net(tokens, i, b));
    }
}

/// The largest nesting of a range, split at an interior point.
pub proof fn lemma_max_net_split(tokens: Seq<TokenView>, i: int, a: int, m: int, b: int)
    requires
        a <= m <= b,
    ensures
        max_net(tokens, i, a, b) == int_max(
            max_net(tokens, i, a, m),
            max_net(tokens, i, m, b),
        ),
    decreases b - m,
{
    if b == m {
        lemma_max_net_contains(tokens, i, a, m, m);
    } else {
        lemma_max_net_split(tokens, i, a, m, b - 1);
    }
}

/// Rebasing the largest nesting of a range shifts it by the nesting between
/// the two bases.
pub proof fn lemma_max_net_shift(tokens: Seq<TokenView>, b0: int, b1: int, a: int, b: int)
    requires
        b0 <= b1 <= a <= b,
    ensures
        max_net(tokens, b0, a, b) == net(tokens, b0, b1) + max_net(tokens, b1, a, b),
    decreases b - a,
{
    lemma_net_add(tokens, b0, b1, b);
    if b > a {
        lemma_max_net_shift(tokens, b0, b1, a, b - 1);
    }
}

/// The tokens in `[i, j]` form one balanced parenthesized group: an opener
/// at `i`, its matching closer at `j`, and nesting that stays positive
/// strictly inside.
pub open spec fn is_group(tokens: Seq<TokenView>, i: int, j: int) -> bool {
    &&& 0 <= i < j < tokens.len()
    &&& tokens[i] is LParen
    &&& tokens[j] is RParen
    &&& net(tokens, i, j + 1) == 0
    &&& forall|k: int| i < k <= j ==> net(tokens, i, k) >= 1
}

/// The whole sequence is balanced: every prefix has at least as many
/// openers as closers, and the two counts agree at the end.
pub open spec fn balanced(tokens: Seq<TokenView>) -> bool {
    &&& net(tokens, 0, tokens.len() as int) == 0
    &&& forall|k: int| 0 <= k <= tokens.len() ==> net(tokens, 0, k) >= 0
}

/// No symbol or string literal stands at nesting depth zero.
pub open spec fn no_top_atoms(tokens: Seq<TokenView>) -> bool {
    forall|k: int|
        0 <= k < tokens.len() && tokens[k].is_atom() ==> net(tokens, 0, k) >= 1
}

/// The maximum list nesting depth of an expression tree: a leaf has none,
/// the empty list one, and a list one more than its deepest child.
pub open spec fn exp_depth(e: ExpView) -> nat
    decreases e, 1int,
{
    match e {
        ExpView::Nil => 1,
        ExpView::Atom { .. } => 0,
        ExpView::List { contents } => 1 + list_depth(contents),
    }
}

/// The deepest nesting among a sequence of expressions; zero if empty.
pub open spec fn list_depth(cs: Seq<ExpView>) -> nat
    decreases cs, 0int,
{
    if cs.len() == 0 {
        0
    } else {
        nat_max(exp_depth(cs[0]), list_depth(cs.subrange(1, cs.len() as int)))
    }
}

/// The deepest nesting of a nonempty sequence combines its head and tail.
pub proof fn lemma_list_depth_cons(x: ExpView, rest: Seq<ExpView>)
    ensures
        list_depth(seq![x] + rest) == nat_max(exp_depth(x), list_depth(rest)),
{
    let s = seq![x] + rest;
    assert(s.len() == 1 + rest.len());
    assert(s[0] == x);
    assert(s.subrange(1, s.len() as int) =~= rest);
}

/// The expression a parse finalizes from collected children: the empty
/// list when there are none, else the list of them.
pub open spec fn group_exp(contents: Seq<ExpView>) -> ExpView {
    if contents.len() == 0 {
        ExpView::Nil
    } else {
        ExpView::List { contents }
    }
}

/// From an opener at `p` whose nesting stays positive up to `m`, and which
/// must fall back to zero by `stop`, the matching closer exists: the first
/// index after `p` where the nesting returns to zero closes a group.
pub proof fn lemma_group_extent(tokens: Seq<TokenView>, p: int, stop: int, m: int) -> (q: int)
    requires
        0 <= p < m <= stop <= tokens.len(),
        tokens[p] is LParen,
        net(tokens, p, stop) <= 0,
        forall|k: int| p < k <= m ==> net(tokens, p, k) >= 1,
    ensures
        p < q < stop,
        is_group(tokens, p, q),
        net(tokens, p, q + 1) == 0,
    decreases stop - m,
{
    if m == stop {
        assert(net(tokens, p, stop) >= 1);
        assert(false);
        m
    } else {
        assert(net(tokens, p, m + 1) == net(tokens, p, m) + token_delta(tokens[m]));
        assert(net(tokens, p, m) >= 1);
        if net(tokens, p, m + 1) == 0 {
            assert(tokens[m] is RParen);
            m
        } else {
            assert(net(tokens, p, m + 1) >= 1);
            lemma_group_extent(tokens, p, stop, m + 1)
        }
    }
}

/// Inside a group, the delimiter-matching scan that has reached `p` with
/// the nesting it has seen so far ends exactly at the group's closer.
pub proof fn lemma_find_in_group(tokens: Seq<TokenView>, i: int, j: int, p: int)
    requires
        is_group(tokens, i, j),
        i < p <= j,
    ensures
        spec_find_end(tokens, p, net(tokens, i, p) as nat) == Ok::<int, ParseErrView>(j),
    decreases j - p,
{
    assert(net(tokens, i, p + 1) == net(tokens, i, p) + token_delta(tokens[p]));
    assert(net(tokens, i, j + 1) == net(tokens, i, j) + token_delta(tokens[j]));
    if p == j {
        assert(net(tokens, i, j) == 1);
    } else {
        assert(net(tokens, i, p + 1) >= 1);
        match tokens[p] {
            TokenView::LParen { .. } => {
                lemma_find_in_group(tokens, i, j, p + 1);
            },
            TokenView::RParen { .. } => {
                assert(net(tokens, i, p) >= 2);
                lemma_find_in_group(tokens, i, j, p + 1);
            },
            _ => {
                lemma_find_in_group(tokens, i, j, p + 1);
            },
        }
    }
}

/// The delimiter-matching scan started at a group's opener finds its closer.
pub proof fn lemma_find_group_start(tokens: Seq<TokenView>, i: int, j: int)
    requires
        is_group(tokens, i, j),
    ensures
        spec_find_end(tokens, i, 0) == Ok::<int, ParseErrView>(j),
{
    assert(net(tokens, i, i + 1) == net(tokens, i, i) + token_delta(tokens[i]));
    lemma_find_in_group(tokens, i, j, i + 1);
}

/// Walking the body of the group `[i, j]` from position `p`, with its
/// opener already seen and `contents` collected, the parse finishes the
/// group: it returns the collected children extended by those still ahead,
/// and what lies ahead nests exactly as deep as the nesting profile says.
pub proof fn lemma_walk_in_group(
    tokens: Seq<TokenView>,
    i: int,
    j: int,
    endp: int,
    start0: int,
    p: int,
    contents: Seq<ExpView>,
    loc: LocView,
)
    requires
        is_group(tokens, i, j),
        i < p <= j,
        net(tokens, i, p) == 1,
        j <= endp,
        endp == j || j + 1 >= tokens.len(),
    ensures
        exists|rest: Seq<ExpView>|
            {
                &&& spec_parse_loop(tokens, start0, endp, p, true, contents, loc) == Ok::<
                    ExpView,
                    ParseErrView,
                >(group_exp(contents + rest))
                &&& 1 + list_depth(rest) == max_net(tokens, i, p, j)
            },
    decreases j - i, 0int, j - p,
{
    let len = tokens.len() as int;
    let r = spec_parse_loop(tokens, start0, endp, p, true, contents, loc);
    assert(net(tokens, i, p + 1) == net(tokens, i, p) + token_delta(tokens[p]));
    assert(net(tokens, i, j + 1) == net(tokens, i, j) + token_delta(tokens[j]));
    if p == j {
        let rest = Seq::<ExpView>::empty();
        assert(contents + rest =~= contents);
        assert(spec_parse_loop(tokens, start0, endp, j + 1, false, contents, tokens[j].loc())
            == Ok::<ExpView, ParseErrView>(group_exp(contents)));
        assert(r == Ok::<ExpView, ParseErrView>(group_exp(contents + rest)));
        assert(max_net(tokens, i, j, j) == net(tokens, i, j));
        assert(1 + list_depth(rest) == max_net(tokens, i, p, j));
    } else {
        assert(net(tokens, i, p + 1) >= 1);
        match tokens[p] {
            TokenView::RParen { .. } => {
                assert(false);
            },
            TokenView::LParen { .. } => {
                lemma_net_add(tokens, i, p, j + 1);
                assert(net(tokens, p, p + 1) == net(tokens, p, p) + token_delta(tokens[p]));
                let q = lemma_group_extent(tokens, p, j + 1, p + 1);
                lemma_net_add(tokens, i, p, q + 1);
                assert(q != j);
                lemma_find_group_start(tokens, p, q);
                lemma_parse_group(tokens, p, q, q, p);
                let rc = spec_parse_loop(
                    tokens,
                    p,
                    q,
                    p,
                    false,
                    Seq::empty(),
                    LocView { line: 0, column: 0 },
                );
                let ec = rc->Ok_0;
                let cd = exp_depth(ec) as int;
                lemma_walk_in_group(
                    tokens,
                    i,
                    j,
                    endp,
                    start0,
                    q + 1,
                    contents.push(ec),
                    tokens[p].loc(),
                );
                let rest_tail = choose|rt: Seq<ExpView>|
                    {
                        &&& spec_parse_loop(
                            tokens,
                            start0,
                            endp,
                            q + 1,
                            true,
                            contents.push(ec),
                            tokens[p].loc(),
                        ) == Ok::<ExpView, ParseErrView>(group_exp(contents.push(ec) + rt))
                        &&& 1 + list_depth(rt) == max_net(tokens, i, q + 1, j)
                    };
                let rest = seq![ec] + rest_tail;
                assert(contents.push(ec) + rest_tail =~= contents + rest);
                assert(r == Ok::<ExpView, ParseErrView>(group_exp(contents + rest)));
                lemma_list_depth_cons(ec, rest_tail);
                // The nesting profile of [p, j] splits at the child group.
                lemma_max_net_lo(tokens, i, p, j);
                lemma_max_net_split(tokens, i, p + 1, q, j);
                lemma_max_net_lo(tokens, i, q, j);
                lemma_max_net_contains(tokens, i, p + 1, q, q);
                lemma_max_net_shift(tokens, i, p, p + 1, q);
                lemma_max_net_contains(tokens, p, p + 1, p + 1, q);
                assert(net(tokens, p, p + 1) == 1);
                assert(max_net(tokens, i, p + 1, q) == 1 + cd);
                assert(max_net(tokens, i, q + 1, j) == 1 + list_depth(rest_tail));
                assert(max_net(tokens, i, p, j) == int_max(1 + cd, 1 + list_depth(rest_tail) as int));
                assert(1 + list_depth(rest) == max_net(tokens, i, p, j));
            },
            _ => {
                let ec = ExpView::Atom { token: tokens[p] };
                lemma_walk_in_group(
                    tokens,
                    i,
                    j,
                    endp,
                    start0,
                    p + 1,
                    contents.push(ec),
                    tokens[p].loc(),
                );
                let rest_tail = choose|rt: Seq<ExpView>|
                    {
                        &&& spec_parse_loop(
                            tokens,
                            start0,
                            endp,
                            p + 1,
                            true,
                            contents.push(ec),
                            tokens[p].loc(),
                        ) == Ok::<ExpView, ParseErrView>(group_exp(contents.push(ec) + rt))
                        &&& 1 + list_depth(rt) == max_net(tokens, i, p + 1, j)
                    };
                let rest = seq![ec] + rest_tail;
                assert(contents.push(ec) + rest_tail =~= contents + rest);
                assert(r == Ok::<ExpView, ParseErrView>(group_exp(contents + rest)));
                lemma_list_depth_cons(ec, rest_tail);
                lemma_max_net_lo(tokens, i, p, j);
                assert(1 + list_depth(rest) == max_net(tokens, i, p, j));
            },
        }
    }
}

/// Parsing one parenthesized group from its opener succeeds, yields the
/// empty list or a list (never a bare leaf), and the tree nests exactly as
/// deep as the group's parentheses.
pub proof fn lemma_parse_group(tokens: Seq<TokenView>, i: int, j: int, endp: int, start0: int)
    requires
        is_group(tokens, i, j),
        j <= endp,
        endp == j || j + 1 >= tokens.len(),
    ensures
        ({
            let r = spec_parse_loop(
                tokens,
                start0,
                endp,
                i,
                false,
                Seq::empty(),
                LocView { line: 0, column: 0 },
            );
            &&& r is Ok
            &&& exp_depth(r->Ok_0) == max_net(tokens, i, i + 1, j)
            &&& !(r->Ok_0 is Atom)
        }),
    decreases j - i, 1int, 0int,
{
    assert(net(tokens, i, i + 1) == net(tokens, i, i) + token_delta(tokens[i]));
    lemma_walk_in_group(tokens, i, j, endp, start0, i + 1, Seq::empty(), tokens[i].loc());
    let rest = choose|rt: Seq<ExpView>|
        {
            &&& spec_parse_loop(tokens, start0, endp, i + 1, true, Seq::empty(), tokens[i].loc())
                == Ok::<ExpView, ParseErrView>(group_exp(Seq::<ExpView>::empty() + rt))
            &&& 1 + list_depth(rt) == max_net(tokens, i, i + 1, j)
        };
    assert(Seq::<ExpView>::empty() + rest =~= rest);
    assert(exp_depth(group_exp(rest)) == 1 + list_depth(rest));
}

/// Walking a balanced whole-range parse from position `p`: with no atom at
/// nesting depth zero, the scan always finishes with a result.
proof fn lemma_walk_whole_range(
    tokens: Seq<TokenView>,
    p: int,
    nested: bool,
    contents: Seq<ExpView>,
    loc: LocView,
)
    requires
        balanced(tokens),
        no_top_atoms(tokens),
        0 <= p <= tokens.len(),
        net(tokens, 0, p) <= 1,
        nested == (net(tokens, 0, p) == 1),
    ensures
        spec_parse_loop(tokens, 0, tokens.len() as int, p, nested, contents, loc) is Ok,
    decreases tokens.len() - p,
{
    let len = tokens.len() as int;
    if p < len {
        assert(net(tokens, 0, p + 1) == net(tokens, 0, p) + token_delta(tokens[p]));
        match tokens[p] {
            TokenView::LParen { .. } => {
                if nested {
                    lemma_net_add(tokens, 0, p, len);
                    assert(net(tokens, p, p + 1) == net(tokens, p, p) + token_delta(tokens[p]));
                    let q = lemma_group_extent(tokens, p, len, p + 1);
                    lemma_net_add(tokens, 0, p, q + 1);
                    lemma_find_group_start(tokens, p, q);
                    lemma_parse_group(tokens, p, q, q, p);
                    let rc = spec_parse_loop(
                        tokens,
                        p,
                        q,
                        p,
                        false,
                        Seq::empty(),
                        LocView { line: 0, column: 0 },
                    );
                    lemma_walk_whole_range(
                        tokens,
                        q + 1,
                        true,
                        contents.push(rc->Ok_0),
                        tokens[p].loc(),
                    );
                } else {
                    lemma_walk_whole_range(tokens, p + 1, true, contents, tokens[p].loc());
                }
            },
            TokenView::RParen { .. } => {
                if nested {
                    lemma_walk_whole_range(tokens, p + 1, false, contents, tokens[p].loc());
                } else {
                    assert(net(tokens, 0, p + 1) >= 0);
                    assert(false);
                }
            },
            _ => {
                if nested {
                    lemma_walk_whole_range(
                        tokens,
                        p + 1,
                        true,
                        contents.push(ExpView::Atom { token: tokens[p] }),
                        tokens[p].loc(),
                    );
                } else {
                    assert(tokens[p].is_atom() && net(tokens, 0, p) == 0);
                    assert(false);
                }
            },
        }
    }
}

/// For all well-formed balanced inputs, parsing the whole token range never
/// fails: a balanced sequence with no bare atom outside all parentheses —
/// or a single bare atom on its own — always yields an expression.
pub proof fn lemma_parse_balanced_never_fails(tokens: Seq<TokenView>)
    requires
        balanced(tokens),
        tokens.len() == 1 || no_top_atoms(tokens),
    ensures
        spec_parse(tokens, 0, tokens.len() as int) is Ok,
{
    if tokens.len() == 1 {
        assert(net(tokens, 0, 1) == net(tokens, 0, 0) + token_delta(tokens[0]));
        assert(tokens[0].is_atom());
        assert(spec_parse_loop(
            tokens,
            0,
            1,
            0,
            false,
            Seq::<ExpView>::empty(),
            LocView { line: 0, column: 0 },
        ) == Ok::<ExpView, ParseErrView>(ExpView::Atom { token: tokens[0] }));
    } else {
        lemma_walk_whole_range(
            tokens,
            0,
            false,
            Seq::empty(),
            LocView { line: 0, column: 0 },
        );
    }
}

/// Round-trip nesting: the tree parsed from one balanced parenthesized
/// group nests exactly as deep as the group's parentheses — the maximum
/// list nesting depth of the result equals the maximum parenthesis nesting
/// depth of the input, counting the empty list as one level.
pub proof fn lemma_parse_depth_round_trip(tokens: Seq<TokenView>)
    requires
        is_group(tokens, 0, tokens.len() - 1),
    ensures
        spec_parse(tokens, 0, tokens.len() as int) is Ok,
        exp_depth(spec_parse(tokens, 0, tokens.len() as int)->Ok_0) == max_net(
            tokens,
            0,
            1,
            tokens.len() - 1,
        ),
{
    lemma_parse_group(tokens, 0, tokens.len() - 1, tokens.len() as int, 0);
}

/// Walking the multi-form split of a balanced sequence: the nesting depth
/// tracked by the walk is the prefix nesting, and while a top-level group
/// is open, `span_start` marks its opener.
proof fn lemma_walk_top_forms(
    tokens: Seq<TokenView>,
    i: int,
    depth: nat,
    span_start: int,
    acc: Seq<ExpView>,
)
    requires
        balanced(tokens),
        0 <= i <= tokens.len(),
        depth == net(tokens, 0, i),
        depth >= 1 ==> {
            &&& 0 <= span_start < i
            &&& tokens[span_start] is LParen
            &&& net(tokens, 0, span_start) == 0
            &&& forall|k: int| span_start < k <= i ==> net(tokens, 0, k) >= 1
        },
    ensures
        spec_parse_top_loop(tokens, i, depth, span_start, acc) is Ok,
    decreases tokens.len() - i,
{
    let len = tokens.len() as int;
    if i < len {
        assert(net(tokens, 0, i + 1) == net(tokens, 0, i) + token_delta(tokens[i]));
        match tokens[i] {
            TokenView::LParen { .. } => {
                if depth == 0 {
                    assert(net(tokens, 0, i + 1) >= 1);
                    lemma_walk_top_forms(tokens, i + 1, depth + 1, i, acc);
                } else {
                    lemma_walk_top_forms(tokens, i + 1, depth + 1, span_start, acc);
                }
            },
            TokenView::RParen { .. } => {
                if depth == 0 {
                    assert(net(tokens, 0, i + 1) >= 0);
                    assert(false);
                } else if depth == 1 {
                    assert forall|k: int| span_start < k <= i implies net(
                        tokens,
                        span_start,
                        k,
                    ) >= 1 by {
                        lemma_net_add(tokens, 0, span_start, k);
                    }
                    lemma_net_add(tokens, 0, span_start, i + 1);
                    assert(is_group(tokens, span_start, i));
                    lemma_parse_group(tokens, span_start, i, i, span_start);
                    let rc = spec_parse(tokens, span_start, i);
                    lemma_walk_top_forms(tokens, i + 1, 0, span_start, acc.push(rc->Ok_0));
                } else {
                    lemma_walk_top_forms(tokens, i + 1, (depth - 1) as nat, span_start, acc);
                }
            },
            _ => {
                if depth == 0 {
                    assert(spec_parse_loop(
                        tokens,
                        i,
                        i,
                        i,
                        false,
                        Seq::<ExpView>::empty(),
                        LocView { line: 0, column: 0 },
                    ) == Ok::<ExpView, ParseErrView>(ExpView::Atom { token: tokens[i] }));
                    let rc = spec_parse(tokens, i, i);
                    lemma_walk_top_forms(tokens, i + 1, 0, span_start, acc.push(rc->Ok_0));
                } else {
                    lemma_walk_top_forms(tokens, i + 1, depth, span_start, acc);
                }
            },
        }
    }
}

/// For all well-formed balanced inputs, the multi-form entry point never
/// fails: splitting a balanced token sequence into top-level forms and
/// parsing each yields a sequence of expressions.
pub proof fn lemma_parse_top_never_fails(tokens: Seq<TokenView>)
    requires
        balanced(tokens),
    ensures
        spec_parse_top(tokens) is Ok,
{
    lemma_walk_top_forms(tokens, 0, 0, 0, Seq::empty());
}

/// Walking the multi-form split over bare atoms alone: each atom becomes
/// one top-level leaf, in order.
proof fn lemma_walk_bare_atoms(tokens: Seq<TokenView>, i: int, span_start: int, acc: Seq<ExpView>)
    requires
        forall|k: int| 0 <= k < tokens.len() ==> tokens[k].is_atom(),
        0 <= i <= tokens.len(),
    ensures
        spec_parse_top_loop(tokens, i, 0, span_start, acc) == Ok::<Seq<ExpView>, ParseErrView>(
            acc + Seq::new((tokens.len() - i) as nat, |k: int| ExpView::Atom { token: tokens[i + k] }),
        ),
    decreases tokens.len() - i,
{
    let len = tokens.len() as int;
    if i == len {
        assert(acc + Seq::new(0, |k: int| ExpView::Atom { token: tokens[i + k] }) =~= acc);
    } else {
        assert(spec_parse_loop(
            tokens,
            i,
            i,
            i,
            false,
            Seq::<ExpView>::empty(),
            LocView { line: 0, column: 0 },
        ) == Ok::<ExpView, ParseErrView>(ExpView::Atom { token: tokens[i] }));
        let a = ExpView::Atom { token: tokens[i] };
        lemma_walk_bare_atoms(tokens, i + 1, span_start, acc.push(a));
        assert(acc.push(a) + Seq::new(
            (len - i - 1) as nat,
            |k: int| ExpView::Atom { token: tokens[i + 1 + k] },
        ) =~= acc + Seq::new((len - i) as nat, |k: int| ExpView::Atom { token: tokens[i + k] }));
    }
}

/// Bare atoms with no parentheses at all are each their own top-level form:
/// the multi-form entry point yields exactly one leaf per token, in order.
pub proof fn lemma_parse_top_bare_atoms(tokens: Seq<TokenView>)
    requires
        forall|k: int| 0 <= k < tokens.len() ==> tokens[k].is_atom(),
    ensures
        spec_parse_top(tokens) == Ok::<Seq<ExpView>, ParseErrView>(
            Seq::new(tokens.len(), |k: int| ExpView::Atom { token: tokens[k] }),
        ),
{
    lemma_walk_bare_atoms(tokens, 0, 0, Seq::empty());
    assert(Seq::<ExpView>::empty() + Seq::new(
        tokens.len(),
        |k: int| ExpView::Atom { token: tokens[0 + k] },
    ) =~= Seq::new(tokens.len(), |k: int| ExpView::Atom { token: tokens[k] }));
}

/// For any source text whose freshly produced token sequence is balanced,
/// parsing that sequence into top-level forms never fails.
pub proof fn lemma_lex_then_parse_never_fails(s: Seq<char>)
    requires
        balanced(spec_tokenize(s)),
    ensures
        spec_parse_top(spec_tokenize(s)) is Ok,
{
    lemma_parse_top_never_fails(spec_tokenize(s));
}

} // verus!
