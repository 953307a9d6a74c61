//! Front end: lexical filtering, run-length compression, and jump resolution.
//!
//! Source text is filtered down to the eight instruction characters, maximal
//! runs of move/increment/decrement characters are folded into counted
//! instructions, and every loop marker is resolved to the index of its
//! partner, failing deterministically on an unmatched bracket.

use vstd::prelude::*;
use vstd::string::StrSliceExecFns;

verus! {

/// One instruction of the stream. `Break` is a loop entry (`[`), a
/// conditional forward branch; `Loop` is a loop exit (`]`), a conditional
/// backward branch. After resolution each carries the index of its partner.
#[derive(Debug, Clone, Copy, PartialEq, Eq, Structural)]
pub enum Token {
    Right(usize),
    Left(usize),
    Add(u8),
    Sub(u8),
    Read,
    Write,
    Loop(usize),
    Break(usize),
    Comment,
}

/// Resolution failure: the character form of the bracket that has no partner,
/// `'['` for a loop entry without a later exit, `']'` for a loop exit without
/// an earlier entry.
#[derive(Debug, Clone, Copy, PartialEq, Eq, Structural)]
pub enum ParserError {
    UnmatchedBracket(char),
}

/// The eight-character instruction alphabet; everything else is commentary.
pub open spec fn is_instr_char(c: char) -> bool {
    c == '<' || c == '>' || c == '+' || c == '-' || c == '.' || c == ',' || c == '[' || c == ']'
}

/// The unit token a single instruction character stands for.
pub open spec fn token_of_char(c: char) -> Token {
    if c == '>' {
        Token::Right(1)
    } else if c == '<' {
        Token::Left(1)
    } else if c == '+' {
        Token::Add(1)
    } else if c == '-' {
        Token::Sub(1)
    } else if c == '.' {
        Token::Write
    } else if c == ',' {
        Token::Read
    } else if c == '[' {
        Token::Break(0)
    } else if c == ']' {
        Token::Loop(0)
    } else {
        Token::Comment
    }
}

/// The ordered subsequence of instruction characters, as unit tokens.
pub open spec fn lex_spec(s: Seq<char>) -> Seq<Token>
    decreases s.len(),
{
    if s.len() == 0 {
        Seq::empty()
    } else if is_instr_char(s.last()) {
        lex_spec(s.drop_last()).push(token_of_char(s.last()))
    } else {
        lex_spec(s.drop_last())
    }
}

/// Filters source text down to the instruction alphabet and hands each
/// retained character back as a unit token, in source order.
pub fn lex(source: &str) -> (toks: Vec<Token>)
    ensures
        toks@ == lex_spec(source@),
{
    let n = source.unicode_len();
    let mut toks: Vec<Token> = Vec::new();
    let mut i: usize = 0;
    while i < n
        invariant
            n == source@.len(),
            i <= n,
            toks@ == lex_spec(source@.take(i as int)),
        decreases n - i,
    {
        let c = source.get_char(i);
        proof {
            assert(source@.take(i + 1).drop_last() =~= source@.take(i as int));
            assert(source@.take(i + 1).last() == source@[i as int]);
        }
        if c == '>' {
            toks.push(Token::Right(1));
        } else if c == '<' {
            toks.push(Token::Left(1));
        } else if c == '+' {
            toks.push(Token::Add(1));
        } else if c == '-' {
            toks.push(Token::Sub(1));
        } else if c == '.' {
            toks.push(Token::Write);
        } else if c == ',' {
            toks.push(Token::Read);
        } else if c == '[' {
            toks.push(Token::Break(0));
        } else if c == ']' {
            toks.push(Token::Loop(0));
        }
        i = i + 1;
    }
    proof {
        assert(source@.take(n as int) =~= source@);
    }
    toks
}

/// Whether two adjacent tokens belong to the same countable run.
pub open spec fn mergeable(a: Token, b: Token) -> bool {
    ||| (a is Right && b is Right)
    ||| (a is Left && b is Left)
    ||| (a is Add && b is Add)
    ||| (a is Sub && b is Sub)
}

/// Count addition for pointer moves. A sum beyond the machine word is clamped;
/// counts that arise from source text are bounded by its length, so the clamp
/// is never reached there.
pub open spec fn add_counts(x: usize, y: usize) -> usize {
    if x + y > usize::MAX {
        usize::MAX
    } else {
        (x + y) as usize
    }
}

/// The single token standing for two merged run fragments. Increment and
/// decrement counts live in a byte and are reduced modulo 256.
pub open spec fn merged(a: Token, b: Token) -> Token {
    match (a, b) {
        (Token::Right(x), Token::Right(y)) => Token::Right(add_counts(x, y)),
        (Token::Left(x), Token::Left(y)) => Token::Left(add_counts(x, y)),
        (Token::Add(x), Token::Add(y)) => Token::Add(((x + y) % 256) as u8),
        (Token::Sub(x), Token::Sub(y)) => Token::Sub(((x + y) % 256) as u8),
        _ => a,
    }
}

/// Run-length compression: each maximal run of countable tokens of one kind
/// folds into a single counted token; loop markers, reads and writes pass
/// through unchanged.
pub open spec fn compress_spec(s: Seq<Token>) -> Seq<Token>
    decreases s.len(),
{
    if s.len() == 0 {
        Seq::empty()
    } else {
        let rest = compress_spec(s.drop_last());
        let t = s.last();
        if rest.len() > 0 && mergeable(rest.last(), t) {
            rest.drop_last().push(merged(rest.last(), t))
        } else {
            rest.push(t)
        }
    }
}

/// A stream with no two adjacent tokens of one countable kind: the shape
/// compression always produces.
pub open spec fn run_folded(s: Seq<Token>) -> bool {
    forall|i: int| 0 <= i < s.len() - 1 ==> !mergeable(#[trigger] s[i], s[i + 1])
}

/// Merging keeps the kind of the run.
proof fn lemma_merged_kind(a: Token, b: Token, c: Token)
    requires
        mergeable(a, b),
    ensures
        mergeable(merged(a, b), c) == mergeable(a, c),
        mergeable(c, merged(a, b)) == mergeable(c, a),
{
}

/// Compression output never holds two adjacent tokens of one countable kind.
proof fn lemma_compress_folded(s: Seq<Token>)
    ensures
        run_folded(compress_spec(s)),
    decreases s.len(),
{
    if s.len() > 0 {
        lemma_compress_folded(s.drop_last());
        let rest = compress_spec(s.drop_last());
        let t = s.last();
        if rest.len() > 0 && mergeable(rest.last(), t) {
            let out = rest.drop_last().push(merged(rest.last(), t));
            assert forall|i: int| 0 <= i < out.len() - 1 implies !mergeable(#[trigger] out[i], out[i + 1]) by {
                if i < out.len() - 2 {
                    assert(!mergeable(rest[i], rest[i + 1]));
                } else {
                    assert(!mergeable(rest[i], rest[i + 1]));
                    lemma_merged_kind(rest.last(), t, rest[i]);
                }
            }
        } else {
            let out = rest.push(t);
            assert forall|i: int| 0 <= i < out.len() - 1 implies !mergeable(#[trigger] out[i], out[i + 1]) by {
                if i < out.len() - 2 {
                    assert(!mergeable(rest[i], rest[i + 1]));
                }
            }
        }
    }
}

/// On a stream already in compressed shape, compression is the identity.
proof fn lemma_compress_fixed(s: Seq<Token>)
    requires
        run_folded(s),
    ensures
        compress_spec(s) == s,
    decreases s.len(),
{
    if s.len() > 0 {
        assert(run_folded(s.drop_last())) by {
            assert forall|i: int| 0 <= i < s.drop_last().len() - 1 implies !mergeable(
                #[trigger] s.drop_last()[i],
                s.drop_last()[i + 1],
            ) by {
                assert(!mergeable(s[i], s[i + 1]));
            }
        }
        lemma_compress_fixed(s.drop_last());
        if s.len() >= 2 {
            assert(!mergeable(s[s.len() - 2], s[s.len() - 1]));
        }
        assert(compress_spec(s) =~= s);
    } else {
        assert(compress_spec(s) =~= s);
    }
}

/// Compressing is idempotent: re-running compression on an already-compressed
/// stream yields the same stream.
pub proof fn lemma_compress_idempotent(s: Seq<Token>)
    ensures
        compress_spec(compress_spec(s)) == compress_spec(s),
{
    lemma_compress_folded(s);
    lemma_compress_fixed(compress_spec(s));
}

/// The filtered and compressed form of a piece of source text.
pub open spec fn compressed_of(s: Seq<char>) -> Seq<Token> {
    compress_spec(lex_spec(s))
}

/// Lexing a uniform run of one instruction character yields a uniform run of
/// its unit token.
proof fn lemma_lex_uniform_run(c: char, n: nat)
    requires
        is_instr_char(c),
    ensures
        lex_spec(Seq::new(n, |i: int| c)) =~= Seq::new(n, |i: int| token_of_char(c)),
    decreases n,
{
    if n > 0 {
        lemma_lex_uniform_run(c, (n - 1) as nat);
        assert(Seq::new(n, |i: int| c).drop_last() =~= Seq::new((n - 1) as nat, |i: int| c));
    }
}

/// A run of identical unit increment or decrement tokens folds to one token
/// whose count is the run length modulo 256.
proof fn lemma_compress_uniform_run(t: Token, n: nat)
    requires
        n >= 1,
        t == Token::Add(1u8) || t == Token::Sub(1u8),
    ensures
        compress_spec(Seq::new(n, |i: int| t)) =~= seq![merged_run(t, n)],
    decreases n,
{
    let s = Seq::new(n, |i: int| t);
    if n == 1 {
        assert(s.drop_last().len() == 0);
        assert(compress_spec(s.drop_last()) == Seq::<Token>::empty());
        assert(compress_spec(s) =~= seq![t]);
        assert(1int % 256 == 1);
    } else {
        lemma_compress_uniform_run(t, (n - 1) as nat);
        assert(s.drop_last() =~= Seq::new((n - 1) as nat, |i: int| t));
        let prev = merged_run(t, (n - 1) as nat);
        assert(compress_spec(s.drop_last()) == seq![prev]);
        assert(mergeable(prev, t));
        assert(compress_spec(s) =~= seq![merged(prev, t)]);
        assert(0 <= (n - 1) as int % 256 < 256) by {
            vstd::arithmetic::div_mod::lemma_mod_bound((n - 1) as int, 256);
        }
        assert(((n - 1) as int % 256 + 1) % 256 == n as int % 256) by {
            assert(1int % 256 == 1);
            vstd::arithmetic::div_mod::lemma_add_mod_noop((n - 1) as int, 1, 256);
        }
        assert(merged(prev, t) == merged_run(t, n));
    }
}

/// The one token that a uniform increment or decrement run of length `n`
/// folds into.
pub open spec fn merged_run(t: Token, n: nat) -> Token {
    match t {
        Token::Add(_) => Token::Add((n % 256) as u8),
        Token::Sub(_) => Token::Sub((n % 256) as u8),
        _ => t,
    }
}

/// A source run of `n` increment (or decrement) characters compresses to a
/// single instruction whose count is `n` modulo 256; two runs whose lengths
/// differ by exactly 256 produce identical instructions.
pub proof fn lemma_run_length_mod_256(n: nat)
    requires
        n >= 1,
    ensures
        compressed_of(Seq::new(n, |i: int| '+')) == seq![Token::Add((n % 256) as u8)],
        compressed_of(Seq::new(n, |i: int| '-')) == seq![Token::Sub((n % 256) as u8)],
        compressed_of(Seq::new(n + 256, |i: int| '+')) == compressed_of(Seq::new(n, |i: int| '+')),
        compressed_of(Seq::new(n + 256, |i: int| '-')) == compressed_of(Seq::new(n, |i: int| '-')),
{
    lemma_lex_uniform_run('+', n);
    lemma_lex_uniform_run('-', n);
    lemma_lex_uniform_run('+', n + 256);
    lemma_lex_uniform_run('-', n + 256);
    lemma_compress_uniform_run(Token::Add(1u8), n);
    lemma_compress_uniform_run(Token::Sub(1u8), n);
    lemma_compress_uniform_run(Token::Add(1u8), n + 256);
    lemma_compress_uniform_run(Token::Sub(1u8), n + 256);
    vstd::arithmetic::div_mod::lemma_mod_add_multiples_vanish(n as int, 256);
}

/// Folds maximal runs of countable tokens, summing their counts; increment
/// and decrement counts are reduced modulo 256 at construction.
pub fn compress(toks: &Vec<Token>) -> (out: Vec<Token>)
    ensures
        out@ == compress_spec(toks@),
{
    let mut out: Vec<Token> = Vec::new();
    let mut i: usize = 0;
    let n = toks.len();
    while i < n
        invariant
            n == toks@.len(),
            i <= n,
            out@ == compress_spec(toks@.take(i as int)),
        decreases n - i,
    {
        let t = toks[i];
        proof {
            assert(toks@.take(i + 1).drop_last() =~= toks@.take(i as int));
            assert(toks@.take(i + 1).last() == toks@[i as int]);
        }
        let len = out.len();
        let mut did_merge = false;
        if len > 0 {
            let last = out[len - 1];
            match (last, t) {
                (Token::Right(x), Token::Right(y)) => {
                    out[len - 1] = Token::Right(x.saturating_add(y));
                    did_merge = true;
                }
                (Token::Left(x), Token::Left(y)) => {
                    out[len - 1] = Token::Left(x.saturating_add(y));
                    did_merge = true;
                }
                (Token::Add(x), Token::Add(y)) => {
                    out[len - 1] = Token::Add((((x as u16) + (y as u16)) % 256) as u8);
                    did_merge = true;
                }
                (Token::Sub(x), Token::Sub(y)) => {
                    out[len - 1] = Token::Sub((((x as u16) + (y as u16)) % 256) as u8);
                    did_merge = true;
                }
                _ => {}
            }
            if did_merge {
                proof {
                    let prev = compress_spec(toks@.take(i as int));
                    assert(out@ =~= prev.drop_last().push(merged(prev.last(), toks@[i as int])));
                }
            }
        }
        if !did_merge {
            out.push(t);
        }
        i = i + 1;
    }
    proof {
        assert(toks@.take(n as int) =~= toks@);
    }
    out
}

/// The contribution of one token to the bracket balance: loop entries open,
/// loop exits close, everything else is neutral.
pub open spec fn bal_delta(t: Token) -> int {
    if t is Break {
        1
    } else if t is Loop {
        -1
    } else {
        0
    }
}

/// Bracket balance of a stream: loop entries minus loop exits.
pub open spec fn bal(s: Seq<Token>) -> int
    decreases s.len(),
{
    if s.len() == 0 {
        0
    } else {
        bal(s.drop_last()) + bal_delta(s.last())
    }
}

/// Well-formed bracket structure: no prefix closes more loops than it has
/// opened, and every opened loop is closed.
pub open spec fn balanced(s: Seq<Token>) -> bool {
    bal(s) == 0 && forall|k: int| 0 <= k <= s.len() ==> bal(#[trigger] s.subrange(0, k)) >= 0
}

/// The loop entry at `i` and the loop exit at `j` are partners: the stream
/// strictly between them is itself well bracketed.
pub open spec fn is_match(s: Seq<Token>, i: int, j: int) -> bool {
    &&& 0 <= i < j < s.len()
    &&& s[i] is Break
    &&& s[j] is Loop
    &&& balanced(s.subrange(i + 1, j))
}

/// The marker at `i`, if it is one, has a partner somewhere in the stream.
pub open spec fn marker_matched(s: Seq<Token>, i: int) -> bool {
    &&& (s[i] is Break ==> exists|j: int| is_match(s, i, j))
    &&& (s[i] is Loop ==> exists|j: int| is_match(s, j, i))
}

/// Every loop marker in the stream has a partner.
pub open spec fn all_matched(s: Seq<Token>) -> bool {
    forall|i: int| 0 <= i < s.len() ==> marker_matched(s, i)
}

/// `r` is `s` with every loop marker's payload replaced by the index of its
/// partner and everything else untouched.
pub open spec fn resolved_view(s: Seq<Token>, r: Seq<Token>) -> bool {
    &&& r.len() == s.len()
    &&& forall|i: int|
        0 <= i < s.len() && !(#[trigger] s[i] is Break) && !(s[i] is Loop) ==> r[i] == s[i]
    &&& forall|i: int|
        0 <= i < s.len() && #[trigger] s[i] is Break ==> exists|j: usize|
            r[i] == Token::Break(j) && is_match(s, i, j as int)
    &&& forall|i: int|
        0 <= i < s.len() && #[trigger] s[i] is Loop ==> exists|j: usize|
            r[i] == Token::Loop(j) && is_match(s, j as int, i)
}

/// Index of the first marker without a partner, scanning from `i`; the length
/// of the stream when every marker from `i` on has one.
pub open spec fn first_unmatched_from(s: Seq<Token>, i: int) -> int
    decreases s.len() - i,
{
    if i < 0 || i >= s.len() {
        s.len() as int
    } else if !marker_matched(s, i) {
        i
    } else {
        first_unmatched_from(s, i + 1)
    }
}

/// The error resolution reports: named after the first marker, in stream
/// order, that has no partner.
pub open spec fn resolve_err(s: Seq<Token>) -> ParserError {
    if s[first_unmatched_from(s, 0)] is Break {
        ParserError::UnmatchedBracket('[')
    } else {
        ParserError::UnmatchedBracket(']')
    }
}

proof fn lemma_bal_concat(a: Seq<Token>, b: Seq<Token>)
    ensures
        bal(a + b) == bal(a) + bal(b),
    decreases b.len(),
{
    if b.len() == 0 {
        assert(a + b =~= a);
    } else {
        lemma_bal_concat(a, b.drop_last());
        assert((a + b).drop_last() =~= a + b.drop_last());
        assert((a + b).last() == b.last());
    }
}

proof fn lemma_bal_split(s: Seq<Token>, a: int, b: int, c: int)
    requires
        0 <= a <= b <= c <= s.len(),
    ensures
        bal(s.subrange(a, c)) == bal(s.subrange(a, b)) + bal(s.subrange(b, c)),
{
    assert(s.subrange(a, c) =~= s.subrange(a, b) + s.subrange(b, c));
    lemma_bal_concat(s.subrange(a, b), s.subrange(b, c));
}

proof fn lemma_bal_one(s: Seq<Token>, b: int)
    requires
        0 <= b < s.len(),
    ensures
        bal(s.subrange(b, b + 1)) == bal_delta(s[b]),
{
    let u = s.subrange(b, b + 1);
    assert(u.drop_last() =~= Seq::<Token>::empty());
    assert(bal(u.drop_last()) == 0);
    assert(u.last() == s[b]);
}

proof fn lemma_bal_extend(s: Seq<Token>, a: int, b: int)
    requires
        0 <= a <= b < s.len(),
    ensures
        bal(s.subrange(a, b + 1)) == bal(s.subrange(a, b)) + bal_delta(s[b]),
{
    lemma_bal_split(s, a, b, b + 1);
    lemma_bal_one(s, b);
}

/// The balance of a stream is bounded by its length.
pub proof fn lemma_bal_bounds(s: Seq<Token>)
    ensures
        -s.len() <= bal(s) <= s.len(),
    decreases s.len(),
{
    if s.len() > 0 {
        lemma_bal_bounds(s.drop_last());
    }
}

/// Forward depth-counting scan for the exit matching the entry at `i`: the
/// partner is the first later position where the running balance returns
/// to zero.
fn scan_forward(toks: &Vec<Token>, i: usize) -> (r: Option<usize>)
    requires
        i < toks@.len(),
        toks@[i as int] is Break,
    ensures
        r matches Some(j) ==> is_match(toks@, i as int, j as int),
        r is None ==> forall|j: int| !is_match(toks@, i as int, j),
{
    let n = toks.len();
    let ghost sq = toks@;
    let mut k = i + 1;
    let mut depth: usize = 1;
    proof {
        assert(sq.subrange(i + 1, i + 1) =~= Seq::<Token>::empty());
    }
    while k < n
        invariant
            i < k <= n,
            n == sq.len(),
            sq == toks@,
            sq[i as int] is Break,
            depth == 1 + bal(sq.subrange(i + 1, k as int)),
            forall|m: int| i + 1 <= m <= k ==> 1 + bal(#[trigger] sq.subrange(i + 1, m)) >= 1,
        decreases n - k,
    {
        let t = toks[k];
        proof {
            assert(t == sq[k as int]);
            lemma_bal_extend(sq, i + 1, k as int);
            lemma_bal_bounds(sq.subrange(i + 1, k as int));
        }
        match t {
            Token::Break(_) => {
                depth = depth + 1;
            }
            Token::Loop(_) => {
                depth = depth - 1;
                if depth == 0 {
                    proof {
                        let inner = sq.subrange(i + 1, k as int);
                        assert(bal(inner) == 0);
                        assert forall|kk: int| 0 <= kk <= inner.len() implies bal(
                            #[trigger] inner.subrange(0, kk),
                        ) >= 0 by {
                            assert(inner.subrange(0, kk) =~= sq.subrange(i + 1, i + 1 + kk));
                        }
                        assert(is_match(sq, i as int, k as int));
                    }
                    return Some(k);
                }
            }
            _ => {}
        }
        k = k + 1;
    }
    proof {
        assert forall|j: int| !is_match(sq, i as int, j) by {
            if is_match(sq, i as int, j) {
                let inner = sq.subrange(i + 1, j);
                assert(inner.subrange(0, j - i - 1) =~= inner);
                assert(bal(inner) == 0);
                lemma_bal_extend(sq, i + 1, j);
                assert(1 + bal(sq.subrange(i + 1, j + 1)) >= 1);
            }
        }
    }
    None
}

/// Backward depth-counting scan for the entry matching the exit at `i`,
/// symmetric to the forward scan.
fn scan_backward(toks: &Vec<Token>, i: usize) -> (r: Option<usize>)
    requires
        i < toks@.len(),
        toks@[i as int] is Loop,
    ensures
        r matches Some(j) ==> is_match(toks@, j as int, i as int),
        r is None ==> forall|j: int| !is_match(toks@, j, i as int),
{
    let n = toks.len();
    let ghost sq = toks@;
    let mut k = i;
    let mut depth: usize = 1;
    proof {
        assert(sq.subrange(i as int, i as int) =~= Seq::<Token>::empty());
    }
    while k > 0
        invariant
            k <= i < sq.len(),
            n == sq.len(),
            sq == toks@,
            sq[i as int] is Loop,
            depth == 1 - bal(sq.subrange(k as int, i as int)),
            forall|m: int| k <= m <= i ==> 1 - bal(#[trigger] sq.subrange(m, i as int)) >= 1,
        decreases k,
    {
        k = k - 1;
        let t = toks[k];
        proof {
            assert(t == sq[k as int]);
            lemma_bal_split(sq, k as int, k + 1, i as int);
            lemma_bal_one(sq, k as int);
            lemma_bal_bounds(sq.subrange(k + 1, i as int));
        }
        match t {
            Token::Break(_) => {
                depth = depth - 1;
                if depth == 0 {
                    proof {
                        let inner = sq.subrange(k + 1, i as int);
                        assert(bal(inner) == 0);
                        assert forall|kk: int| 0 <= kk <= inner.len() implies bal(
                            #[trigger] inner.subrange(0, kk),
                        ) >= 0 by {
                            lemma_bal_split(sq, k + 1, k + 1 + kk, i as int);
                            assert(inner.subrange(0, kk) =~= sq.subrange(k + 1, k + 1 + kk));
                            assert(1 - bal(sq.subrange(k + 1 + kk, i as int)) >= 1);
                        }
                        assert(is_match(sq, k as int, i as int));
                    }
                    return Some(k);
                }
            }
            Token::Loop(_) => {
                depth = depth + 1;
            }
            _ => {}
        }
    }
    proof {
        assert forall|j: int| !is_match(sq, j, i as int) by {
            if is_match(sq, j, i as int) {
                let inner = sq.subrange(j + 1, i as int);
                assert(bal(inner) == 0);
                lemma_bal_split(sq, j, j + 1, i as int);
                lemma_bal_one(sq, j);
                assert(1 - bal(sq.subrange(j, i as int)) >= 1);
            }
        }
    }
    None
}

proof fn lemma_first_unmatched_at(s: Seq<Token>, m: int, i: int)
    requires
        0 <= m <= i < s.len(),
        forall|k: int| m <= k < i ==> marker_matched(s, k),
        !marker_matched(s, i),
    ensures
        first_unmatched_from(s, m) == i,
    decreases i - m,
{
    if m < i {
        lemma_first_unmatched_at(s, m + 1, i);
    }
}

/// Resolves every loop marker of a compressed stream to the index of its
/// partner; fails on the first marker, in stream order, that has none, naming
/// the bracket direction that is unmatched.
pub fn resolve(toks: &Vec<Token>) -> (r: Result<Vec<Token>, ParserError>)
    ensures
        (r is Ok) == all_matched(toks@),
        r matches Ok(v) ==> resolved_view(toks@, v@),
        r matches Err(e) ==> e == resolve_err(toks@),
{
    let n = toks.len();
    let mut out: Vec<Token> = Vec::new();
    let mut i: usize = 0;
    while i < n
        invariant
            i <= n,
            n == toks@.len(),
            out@.len() == i,
            forall|k: int| 0 <= k < i ==> marker_matched(toks@, k),
            forall|k: int|
                0 <= k < i && !(#[trigger] toks@[k] is Break) && !(toks@[k] is Loop) ==> out@[k]
                    == toks@[k],
            forall|k: int|
                0 <= k < i && #[trigger] toks@[k] is Break ==> exists|j: usize|
                    out@[k] == Token::Break(j) && is_match(toks@, k, j as int),
            forall|k: int|
                0 <= k < i && #[trigger] toks@[k] is Loop ==> exists|j: usize|
                    out@[k] == Token::Loop(j) && is_match(toks@, j as int, k),
        decreases n - i,
    {
        let t = toks[i];
        match t {
            Token::Break(_) => {
                match scan_forward(toks, i) {
                    Some(j) => {
                        out.push(Token::Break(j));
                    }
                    None => {
                        proof {
                            assert(!marker_matched(toks@, i as int));
                            assert(!all_matched(toks@));
                            lemma_first_unmatched_at(toks@, 0, i as int);
                        }
                        return Err(ParserError::UnmatchedBracket('['));
                    }
                }
            }
            Token::Loop(_) => {
                match scan_backward(toks, i) {
                    Some(j) => {
                        out.push(Token::Loop(j));
                    }
                    None => {
                        proof {
                            assert(!marker_matched(toks@, i as int));
                            assert(!all_matched(toks@));
                            lemma_first_unmatched_at(toks@, 0, i as int);
                        }
                        return Err(ParserError::UnmatchedBracket(']'));
                    }
                }
            }
            _ => {
                out.push(t);
            }
        }
        i = i + 1;
    }
    Ok(out)
}

proof fn lemma_match_unique_exit(s: Seq<Token>, i: int, j1: int, j2: int)
    requires
        is_match(s, i, j1),
        is_match(s, i, j2),
    ensures
        j1 == j2,
{
    if j1 != j2 {
        let ja = if j1 < j2 { j1 } else { j2 };
        let jb = if j1 < j2 { j2 } else { j1 };
        let outer = s.subrange(i + 1, jb);
        assert(outer.subrange(0, ja - i) =~= s.subrange(i + 1, ja + 1));
        lemma_bal_extend(s, i + 1, ja);
        assert(bal(s.subrange(i + 1, ja + 1)) == -1);
        assert(bal(outer.subrange(0, ja - i)) >= 0);
    }
}

proof fn lemma_match_unique_entry(s: Seq<Token>, i1: int, i2: int, j: int)
    requires
        is_match(s, i1, j),
        is_match(s, i2, j),
    ensures
        i1 == i2,
{
    if i1 != i2 {
        let ia = if i1 < i2 { i1 } else { i2 };
        let ib = if i1 < i2 { i2 } else { i1 };
        let outer = s.subrange(ia + 1, j);
        lemma_bal_split(s, ia + 1, ib, j);
        lemma_bal_split(s, ib, ib + 1, j);
        lemma_bal_one(s, ib);
        assert(bal(s.subrange(ib + 1, j)) == 0);
        assert(bal(s.subrange(ia + 1, ib)) == -1);
        assert(outer.subrange(0, ib - ia - 1) =~= s.subrange(ia + 1, ib));
        assert(bal(outer.subrange(0, ib - ia - 1)) >= 0);
    }
}

/// Bidirectional consistency of a resolved stream: the target of every loop
/// entry is a later loop exit whose own target points back at the entry, and
/// symmetrically for exits, at every nesting depth.
pub proof fn lemma_resolved_targets_consistent(s: Seq<Token>, r: Seq<Token>)
    requires
        resolved_view(s, r),
    ensures
        forall|i: int|
            0 <= i < r.len() ==> (#[trigger] r[i] matches Token::Break(j) ==> i < j as int && (j
                as int) < r.len() && r[j as int] == Token::Loop(i as usize)),
        forall|i: int|
            0 <= i < r.len() ==> (#[trigger] r[i] matches Token::Loop(j) ==> (j as int) < i && r[j
                as int] == Token::Break(i as usize)),
{
    assert forall|i: int| 0 <= i < r.len() implies (#[trigger] r[i] matches Token::Break(j) ==> i
        < j as int && (j as int) < r.len() && r[j as int] == Token::Loop(i as usize)) by {
        if r[i] is Break {
            let j = r[i]->Break_0;
            assert(s[i] is Break);
            let jw = choose|jw: usize| r[i] == Token::Break(jw) && is_match(s, i, jw as int);
            assert(jw == j);
            assert(is_match(s, i, j as int));
            assert(s[j as int] is Loop);
            let iw = choose|iw: usize|
                r[j as int] == Token::Loop(iw) && is_match(s, iw as int, j as int);
            lemma_match_unique_entry(s, i, iw as int, j as int);
        }
    }
    assert forall|i: int| 0 <= i < r.len() implies (#[trigger] r[i] matches Token::Loop(j) ==> (j
        as int) < i && r[j as int] == Token::Break(i as usize)) by {
        if r[i] is Loop {
            let j = r[i]->Loop_0;
            assert(s[i] is Loop);
            let jw = choose|jw: usize| r[i] == Token::Loop(jw) && is_match(s, jw as int, i);
            assert(jw == j);
            assert(is_match(s, j as int, i));
            assert(s[j as int] is Break);
            let iw = choose|iw: usize|
                r[j as int] == Token::Break(iw) && is_match(s, j as int, iw as int);
            lemma_match_unique_exit(s, j as int, iw as int, i);
        }
    }
}

/// A stream whose markers are all matched never closes a loop it has not
/// opened: every prefix balance is nonnegative.
pub proof fn lemma_matched_prefixes_nonneg(s: Seq<Token>, k: int)
    requires
        all_matched(s),
        0 <= k <= s.len(),
    ensures
        bal(s.subrange(0, k)) >= 0,
    decreases k,
{
    if k > 0 {
        assert(s.subrange(0, k).drop_last() =~= s.subrange(0, k - 1));
        assert(s.subrange(0, k).last() == s[k - 1]);
        if s[k - 1] is Loop {
            assert(marker_matched(s, k - 1));
            let i = choose|i: int| #[trigger] is_match(s, i, k - 1);
            assert(is_match(s, i, k - 1));
            let inner = s.subrange(i + 1, k - 1);
            assert(inner.subrange(0, inner.len() as int) =~= inner);
            assert(bal(inner) == 0);
            lemma_bal_split(s, 0, i, k);
            lemma_bal_split(s, i, i + 1, k);
            lemma_bal_split(s, i + 1, k - 1, k);
            lemma_bal_one(s, i);
            lemma_bal_one(s, k - 1);
            lemma_matched_prefixes_nonneg(s, i);
        } else {
            lemma_matched_prefixes_nonneg(s, k - 1);
        }
    } else {
        assert(s.subrange(0, 0) =~= Seq::<Token>::empty());
    }
}

/// Resolution replaces marker payloads but never changes what is a marker:
/// every prefix of the resolved stream balances like the unresolved one's.
pub proof fn lemma_resolved_same_balance(s: Seq<Token>, r: Seq<Token>, k: int)
    requires
        resolved_view(s, r),
        0 <= k <= s.len(),
    ensures
        bal(r.subrange(0, k)) == bal(s.subrange(0, k)),
    decreases k,
{
    if k > 0 {
        lemma_resolved_same_balance(s, r, k - 1);
        assert(s.subrange(0, k).drop_last() =~= s.subrange(0, k - 1));
        assert(r.subrange(0, k).drop_last() =~= r.subrange(0, k - 1));
        assert(s.subrange(0, k).last() == s[k - 1]);
        assert(r.subrange(0, k).last() == r[k - 1]);
        assert(bal_delta(r[k - 1]) == bal_delta(s[k - 1]));
    } else {
        assert(s.subrange(0, 0) =~= Seq::<Token>::empty());
        assert(r.subrange(0, 0) =~= Seq::<Token>::empty());
    }
}

/// The whole front end: filter the source text, fold runs, resolve jumps.
/// Succeeds exactly when every loop marker of the compressed stream has a
/// partner.
pub fn ast(source: &str) -> (r: Result<Vec<Token>, ParserError>)
    ensures
        (r is Ok) == all_matched(compressed_of(source@)),
        r matches Ok(v) ==> resolved_view(compressed_of(source@), v@),
        r matches Err(e) ==> e == resolve_err(compressed_of(source@)),
{
    let toks = lex(source);
    let folded = compress(&toks);
    resolve(&folded)
}

} // verus!
