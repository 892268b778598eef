//! The scanner: an ordered list of token recognizers drives maximal-munch
//! tokenization. At every position each recognizer is run on the remaining
//! input; the strictly longest match wins, ties go to the earliest
//! recognizer, and the winner's token record carries the line and column of
//! the lexeme's first byte.

use vstd::prelude::*;
use crate::codec::{encode, encode_bytes};
use crate::dfa::{copy_vec, DFA};

verus! {

/// One token recognizer: an automaton, the token id it emits, and an
/// optional fixed token value that replaces the encoded lexeme.
#[derive(Debug)]
pub struct TokenRecognizer {
    pub dfa: DFA,
    pub token_id: Vec<u8>,
    pub token_value: Option<Vec<u8>>,
}

/// One emitted token record.
#[derive(Debug, Clone, PartialEq, Eq)]
pub struct Token {
    pub token_id: Vec<u8>,
    pub token_value: Vec<u8>,
    pub line: usize,
    pub column: usize,
}

/// Where tokenization stopped: no recognizer matched at this position.
#[derive(Debug, Clone, Copy, PartialEq, Eq, Structural)]
pub struct LexError {
    pub line: usize,
    pub column: usize,
}

/// The length of the longest non-empty prefix of `suffix` that one
/// recognizer accepts.
pub open spec fn rec_match_len(r: TokenRecognizer, suffix: Seq<u8>) -> nat {
    r.dfa.table().best_match_len(suffix, suffix.len())
}

/// The longest match length over a whole scanner; 0 where nothing matches.
pub open spec fn max_match_len(s: Seq<TokenRecognizer>, suffix: Seq<u8>) -> nat
    decreases s.len(),
{
    if s.len() == 0 {
        0
    } else {
        let prev = max_match_len(s.drop_last(), suffix);
        if rec_match_len(s.last(), suffix) > prev {
            rec_match_len(s.last(), suffix)
        } else {
            prev
        }
    }
}

/// The recognizer that wins: the earliest one whose match has the maximal
/// length, since a later recognizer only displaces it with a strictly
/// longer match.
pub open spec fn winner_index(s: Seq<TokenRecognizer>, suffix: Seq<u8>) -> int
    decreases s.len(),
{
    if s.len() == 0 {
        0
    } else {
        let prev = max_match_len(s.drop_last(), suffix);
        if rec_match_len(s.last(), suffix) > prev {
            s.len() - 1
        } else {
            winner_index(s.drop_last(), suffix)
        }
    }
}

/// The line and column after reading `lex`: a line feed moves to the start
/// of the next line, every other byte moves one column on.
pub open spec fn advance_position(line: nat, col: nat, lex: Seq<u8>) -> (nat, nat)
    decreases lex.len(),
{
    if lex.len() == 0 {
        (line, col)
    } else if lex[0] == 0x0a {
        advance_position(line + 1, 1, lex.drop_first())
    } else {
        advance_position(line, col + 1, lex.drop_first())
    }
}

/// The mathematical content of one emitted token.
#[verifier::ext_equal]
pub ghost struct TokenModel {
    pub rec_index: int,
    pub lexeme: Seq<u8>,
    pub token_id: Seq<u8>,
    pub token_value: Seq<u8>,
    pub line: nat,
    pub column: nat,
}

/// What a scan yields: the token records, or the position of the first
/// byte no recognizer could start a lexeme at.
#[verifier::ext_equal]
pub ghost enum ScanOutcome {
    Tokens(Seq<TokenModel>),
    Fail { line: nat, column: nat },
}

/// Every recognizer's match length is bounded by the remaining input.
pub proof fn lemma_max_match_le(s: Seq<TokenRecognizer>, suffix: Seq<u8>)
    ensures
        max_match_len(s, suffix) <= suffix.len(),
    decreases s.len(),
{
    if s.len() != 0 {
        lemma_max_match_le(s.drop_last(), suffix);
        crate::dfa::lemma_best_match_is_longest(s.last().dfa.table(), suffix, suffix.len());
    }
}

/// The maximal-munch scan itself: at each position the strictly longest
/// match across the scanner is emitted, ties broken by the lowest
/// recognizer index; a position where nothing matches is the error.
pub open spec fn scan_spec(
    s: Seq<TokenRecognizer>,
    input: Seq<u8>,
    pos: nat,
    line: nat,
    col: nat,
) -> ScanOutcome
    decreases input.len() - pos
        when pos <= input.len()
    via scan_spec_decreases
{
    if pos >= input.len() {
        ScanOutcome::Tokens(Seq::empty())
    } else {
        let suffix = input.skip(pos as int);
        let m = max_match_len(s, suffix);
        if m == 0 {
            ScanOutcome::Fail { line, column: col }
        } else {
            let w = winner_index(s, suffix);
            let lex = suffix.take(m as int);
            let val = match s[w].token_value {
                Some(v) => v@,
                None => encode_bytes(lex),
            };
            let adv = advance_position(line, col, lex);
            match scan_spec(s, input, pos + m, adv.0, adv.1) {
                ScanOutcome::Tokens(rest) => ScanOutcome::Tokens(
                    seq![
                        TokenModel {
                            rec_index: w,
                            lexeme: lex,
                            token_id: s[w].token_id@,
                            token_value: val,
                            line,
                            column: col,
                        },
                    ] + rest,
                ),
                ScanOutcome::Fail { line: l2, column: c2 } => ScanOutcome::Fail {
                    line: l2,
                    column: c2,
                },
            }
        }
    }
}

#[via_fn]
proof fn scan_spec_decreases(s: Seq<TokenRecognizer>, input: Seq<u8>, pos: nat, line: nat, col: nat) {
    if pos < input.len() {
        lemma_max_match_le(s, input.skip(pos as int));
    }
}

/// Whether two recognizers hold the same table, token id and token value;
/// a scan only reads these, so they pin its outcome.
pub open spec fn recs_agree(a: TokenRecognizer, b: TokenRecognizer) -> bool {
    &&& a.dfa.table() == b.dfa.table()
    &&& a.token_id@ == b.token_id@
    &&& (match (a.token_value, b.token_value) {
        (Some(x), Some(y)) => x@ == y@,
        (None, None) => true,
        _ => false,
    })
}

/// Whether a scanner still holds, recognizer by recognizer, what another
/// held: simulation scratch state aside.
pub open spec fn same_recognizers(cur: Seq<TokenRecognizer>, orig: Seq<TokenRecognizer>) -> bool {
    &&& cur.len() == orig.len()
    &&& forall|i: int| 0 <= i < cur.len() ==> #[trigger] recs_agree(cur[i], orig[i])
}

/// Whether every recognizer's automaton is well-formed.
pub open spec fn scanner_wf(s: Seq<TokenRecognizer>) -> bool {
    forall|i: int| 0 <= i < s.len() ==> (#[trigger] s[i]).dfa.wf()
}

/// Whether emitted records carry what their models hold.
pub open spec fn tokens_match(ts: Seq<Token>, ms: Seq<TokenModel>) -> bool {
    &&& ts.len() == ms.len()
    &&& forall|i: int|
        0 <= i < ts.len() ==> {
            &&& (#[trigger] ts[i]).token_id@ == ms[i].token_id
            &&& ts[i].token_value@ == ms[i].token_value
            &&& ts[i].line == ms[i].line
            &&& ts[i].column == ms[i].column
        }
}


/// Tokenize `input` with the scanner. While input remains, every
/// recognizer simulates the rest of it; the strictly longest match is
/// emitted as a record carrying the recognizer's token id, its fixed value
/// or the codec-encoded lexeme, and the line and column of the lexeme's
/// first byte; then the position advances over the lexeme. A position
/// where no recognizer matches is a lex error. The recognizers'
/// simulation scratch state is overwritten; their tables and token data
/// are not.
pub fn tokenize(input: &Vec<u8>, scanner: &mut Vec<TokenRecognizer>) -> (r: Result<
    Vec<Token>,
    LexError,
>)
    requires
        scanner_wf(old(scanner)@),
        input@.len() + 2 <= usize::MAX,
    ensures
        scanner_wf(final(scanner)@),
        same_recognizers(final(scanner)@, old(scanner)@),
        (match scan_spec(old(scanner)@, input@, 0, 1, 1) {
            ScanOutcome::Tokens(ms) => r is Ok && tokens_match(r->Ok_0@, ms),
            ScanOutcome::Fail { line, column } => r is Err && r->Err_0.line == line
                && r->Err_0.column == column,
        }),
{
    let ghost s0 = old(scanner)@;
    let mut tokens: Vec<Token> = Vec::new();
    let ghost mut done: Seq<TokenModel> = Seq::empty();
    let mut position: usize = 0;
    let mut current_line: usize = 1;
    let mut current_column: usize = 1;
    proof {
        assert(same_recognizers(scanner@, s0));
        if scan_spec(s0, input@, 0, 1, 1) is Tokens {
            assert(done + scan_spec(s0, input@, 0, 1, 1)->Tokens_0 =~= scan_spec(
                s0,
                input@,
                0,
                1,
                1,
            )->Tokens_0);
        }
    }
    while position < input.len()
        invariant
            s0 == old(scanner)@,
            scanner_wf(scanner@),
            same_recognizers(scanner@, s0),
            input@.len() + 2 <= usize::MAX,
            position <= input@.len(),
            1 <= current_line,
            1 <= current_column,
            current_line + current_column <= 2 + position,
            tokens_match(tokens@, done),
            scan_spec(s0, input@, 0, 1, 1) == (match scan_spec(
                s0,
                input@,
                position as nat,
                current_line as nat,
                current_column as nat,
            ) {
                ScanOutcome::Tokens(rest) => ScanOutcome::Tokens(done + rest),
                ScanOutcome::Fail { line, column } => ScanOutcome::Fail { line, column },
            }),
        decreases input@.len() - position,
    {
        let ghost suffix = input@.skip(position as int);
        let mut longest_token_length: usize = 0;
        let mut longest_token: Vec<u8> = Vec::new();
        let mut longest_token_index: Option<usize> = None;
        proof {
            assert(s0.take(0) =~= Seq::<TokenRecognizer>::empty());
            assert(longest_token@ =~= suffix.take(0));
        }
        let mut i: usize = 0;
        while i < scanner.len()
            invariant
                scanner_wf(scanner@),
                same_recognizers(scanner@, s0),
                suffix == input@.skip(position as int),
                position < input@.len(),
                i <= scanner@.len(),
                longest_token_length == max_match_len(s0.take(i as int), suffix),
                longest_token_length <= suffix.len(),
                (match longest_token_index {
                    Some(w) => longest_token_length > 0 && w < i && w == winner_index(
                        s0.take(i as int),
                        suffix,
                    ),
                    None => longest_token_length == 0,
                }),
                longest_token@ == suffix.take(longest_token_length as int),
            decreases scanner@.len() - i,
        {
            let ghost pre_scanner = scanner@;
            let mut rec = scanner.remove(i);
            let sub = vstd::slice::slice_subrange(input.as_slice(), position, input.len());
            proof {
                assert(sub@ =~= suffix);
                assert(recs_agree(pre_scanner[i as int], s0[i as int]));
            }
            rec.dfa.simulate(sub);
            proof {
                assert(rec.dfa.table() == s0[i as int].dfa.table());
                crate::dfa::lemma_best_match_is_longest(
                    s0[i as int].dfa.table(),
                    suffix,
                    suffix.len(),
                );
            }
            if rec.dfa.self_is_accepting() {
                let longest_seq = rec.dfa.get_longest_accepting_match();
                if longest_seq.len() > longest_token_length {
                    longest_token_length = longest_seq.len();
                    longest_token = longest_seq;
                    longest_token_index = Some(i);
                }
            }
            scanner.insert(i, rec);
            proof {
                assert forall|j: int| 0 <= j < scanner@.len() implies #[trigger] recs_agree(
                    scanner@[j],
                    s0[j],
                ) by {
                    if j != i {
                        assert(scanner@[j] == pre_scanner[j]);
                        assert(recs_agree(pre_scanner[j], s0[j]));
                    }
                }
                assert forall|j: int| 0 <= j < scanner@.len() implies (
                #[trigger] scanner@[j]).dfa.wf() by {
                    if j != i {
                        assert(scanner@[j] == pre_scanner[j]);
                        assert(pre_scanner[j].dfa.wf());
                    }
                }
                assert(s0.take(i + 1).drop_last() =~= s0.take(i as int));
                assert(s0.take(i + 1).last() == s0[i as int]);
                assert(rec_match_len(s0[i as int], suffix) == s0[i as int].dfa.table()
                    .best_match_len(suffix, suffix.len()));
            }
            i = i + 1;
        }
        proof {
            assert(s0.take(i as int) =~= s0);
        }
        let idx = match longest_token_index {
            Some(w) => w,
            None => {
                return Err(LexError { line: current_line, column: current_column });
            },
        };
        let ghost m = longest_token_length as nat;
        let ghost w = idx as int;
        let ghost lex = suffix.take(m as int);
        let token_val: Vec<u8> = match &scanner[idx].token_value {
            Some(v) => copy_vec(v),
            None => encode(&longest_token).unwrap(),
        };
        proof {
            assert(recs_agree(scanner@[w], s0[w]));
            assert(token_val@ == (match s0[w].token_value {
                Some(v) => v@,
                None => encode_bytes(lex),
            }));
        }
        let token_id_copy = copy_vec(&scanner[idx].token_id);
        let tok = Token {
            token_id: token_id_copy,
            token_value: token_val,
            line: current_line,
            column: current_column,
        };
        let ghost model = TokenModel {
            rec_index: w,
            lexeme: lex,
            token_id: s0[w].token_id@,
            token_value: (match s0[w].token_value {
                Some(v) => v@,
                None => encode_bytes(lex),
            }),
            line: current_line as nat,
            column: current_column as nat,
        };
        let ghost done_pre = done;
        tokens.push(tok);
        proof {
            done = done + seq![model];
            assert(tokens_match(tokens@, done));
        }
        let ghost line0 = current_line as nat;
        let ghost col0 = current_column as nat;
        let ghost pos0 = position as nat;
        proof {
            assert(lex.skip(0) =~= lex);
        }
        let mut j: usize = 0;
        while j < longest_token.len()
            invariant
                j <= longest_token@.len(),
                longest_token@ == lex,
                pos0 + lex.len() <= input@.len(),
                input@.len() + 2 <= usize::MAX,
                current_line + current_column <= 2 + pos0 + j,
                1 <= current_line,
                1 <= current_column,
                advance_position(line0, col0, lex) == advance_position(
                    current_line as nat,
                    current_column as nat,
                    lex.skip(j as int),
                ),
            decreases longest_token@.len() - j,
        {
            proof {
                assert(lex.skip(j as int)[0] == lex[j as int]);
                assert(lex.skip(j as int).drop_first() =~= lex.skip(j as int + 1));
            }
            if longest_token[j] == 0x0a {
                current_line = current_line + 1;
                current_column = 1;
            } else {
                current_column = current_column + 1;
            }
            j = j + 1;
        }
        proof {
            assert(lex.skip(j as int) =~= Seq::<u8>::empty());
            assert(advance_position(line0, col0, lex) == (
                current_line as nat,
                current_column as nat,
            ));
        }
        position = position + longest_token_length;
        proof {
            let old_scan = scan_spec(s0, input@, pos0, line0, col0);
            let new_scan = scan_spec(
                s0,
                input@,
                position as nat,
                current_line as nat,
                current_column as nat,
            );
            assert(pos0 + m == position as nat);
            match new_scan {
                ScanOutcome::Tokens(rest) => {
                    assert(old_scan == ScanOutcome::Tokens(seq![model] + rest));
                    assert(done_pre + (seq![model] + rest) =~= done + rest);
                },
                ScanOutcome::Fail { line, column } => {
                    assert(old_scan == ScanOutcome::Fail { line, column });
                },
            }
        }
    }
    proof {
        assert(scan_spec(
            s0,
            input@,
            position as nat,
            current_line as nat,
            current_column as nat,
        ) == ScanOutcome::Tokens(Seq::<TokenModel>::empty()));
        assert(done + Seq::<TokenModel>::empty() =~= done);
    }
    Ok(tokens)
}


/// Maximal munch: no single recognizer accepts a longer prefix than the
/// scan emits at a position.
pub proof fn lemma_max_match_dominates(s: Seq<TokenRecognizer>, suffix: Seq<u8>, i: int)
    requires
        0 <= i < s.len(),
    ensures
        rec_match_len(s[i], suffix) <= max_match_len(s, suffix),
    decreases s.len(),
{
    if i == s.len() - 1 {
        assert(s.last() == s[i]);
    } else {
        lemma_max_match_dominates(s.drop_last(), suffix, i);
        assert(s.drop_last()[i] == s[i]);
    }
}

/// Tie-break by priority: the winner attains the maximal match length,
/// and every recognizer declared before it matches strictly less.
pub proof fn lemma_winner_is_first_maximal(s: Seq<TokenRecognizer>, suffix: Seq<u8>)
    requires
        max_match_len(s, suffix) > 0,
    ensures
        0 <= winner_index(s, suffix) < s.len(),
        rec_match_len(s[winner_index(s, suffix)], suffix) == max_match_len(s, suffix),
        forall|j: int|
            0 <= j < winner_index(s, suffix) ==> rec_match_len(#[trigger] s[j], suffix)
                < max_match_len(s, suffix),
    decreases s.len(),
{
    let prev = max_match_len(s.drop_last(), suffix);
    if rec_match_len(s.last(), suffix) > prev {
        assert(winner_index(s, suffix) == s.len() - 1);
        assert(s[s.len() - 1] == s.last());
        assert forall|j: int| 0 <= j < s.len() - 1 implies rec_match_len(#[trigger] s[j], suffix)
            < max_match_len(s, suffix) by {
            lemma_max_match_dominates(s.drop_last(), suffix, j);
            assert(s.drop_last()[j] == s[j]);
        }
    } else {
        lemma_winner_is_first_maximal(s.drop_last(), suffix);
        let w = winner_index(s.drop_last(), suffix);
        assert(s.drop_last()[w] == s[w]);
        assert forall|j: int| 0 <= j < w implies rec_match_len(#[trigger] s[j], suffix)
            < max_match_len(s, suffix) by {
            assert(s.drop_last()[j] == s[j]);
            assert(rec_match_len(s.drop_last()[j], suffix) < max_match_len(
                s.drop_last(),
                suffix,
            ));
        }
    }
}

/// The lexeme lengths of a token sequence, summed.
pub open spec fn lexeme_len_sum(ms: Seq<TokenModel>) -> nat
    decreases ms.len(),
{
    if ms.len() == 0 {
        0
    } else {
        ms[0].lexeme.len() + lexeme_len_sum(ms.drop_first())
    }
}

/// Position accounting, first half: on success the emitted lexemes cover
/// the input exactly, so their lengths sum to the input length.
pub proof fn lemma_scan_consumes_input(
    s: Seq<TokenRecognizer>,
    input: Seq<u8>,
    pos: nat,
    line: nat,
    col: nat,
)
    requires
        pos <= input.len(),
    ensures
        (scan_spec(s, input, pos, line, col) matches ScanOutcome::Tokens(ms) ==> lexeme_len_sum(
            ms,
        ) == input.len() - pos),
    decreases input.len() - pos,
{
    if pos < input.len() {
        let suffix = input.skip(pos as int);
        let m = max_match_len(s, suffix);
        if m != 0 {
            lemma_max_match_le(s, suffix);
            let lex = suffix.take(m as int);
            let adv = advance_position(line, col, lex);
            lemma_scan_consumes_input(s, input, pos + m, adv.0, adv.1);
            match scan_spec(s, input, pos + m, adv.0, adv.1) {
                ScanOutcome::Tokens(rest) => {
                    let ms = scan_spec(s, input, pos, line, col)->Tokens_0;
                    assert(ms.drop_first() =~= rest);
                    assert(ms[0].lexeme.len() == m);
                },
                ScanOutcome::Fail { .. } => {},
            }
        }
    }
}

/// Position accounting, second half: the first record carries the starting
/// line and column, and each later record's position is the previous one's
/// advanced over the previous lexeme, line feeds starting new lines.
pub proof fn lemma_scan_positions(
    s: Seq<TokenRecognizer>,
    input: Seq<u8>,
    pos: nat,
    line: nat,
    col: nat,
)
    requires
        pos <= input.len(),
    ensures
        (scan_spec(s, input, pos, line, col) matches ScanOutcome::Tokens(ms) ==> {
            &&& (ms.len() > 0 ==> ms[0].line == line && ms[0].column == col)
            &&& forall|k: int|
                1 <= k < ms.len() ==> (#[trigger] ms[k]).line == advance_position(
                    ms[k - 1].line,
                    ms[k - 1].column,
                    ms[k - 1].lexeme,
                ).0 && ms[k].column == advance_position(
                    ms[k - 1].line,
                    ms[k - 1].column,
                    ms[k - 1].lexeme,
                ).1
        }),
    decreases input.len() - pos,
{
    if pos < input.len() {
        let suffix = input.skip(pos as int);
        let m = max_match_len(s, suffix);
        if m != 0 {
            lemma_max_match_le(s, suffix);
            let lex = suffix.take(m as int);
            let adv = advance_position(line, col, lex);
            lemma_scan_positions(s, input, pos + m, adv.0, adv.1);
            match scan_spec(s, input, pos + m, adv.0, adv.1) {
                ScanOutcome::Tokens(rest) => {
                    let ms = scan_spec(s, input, pos, line, col)->Tokens_0;
                    assert(ms[0].lexeme == lex);
                    assert forall|k: int| 1 <= k < ms.len() implies (#[trigger] ms[k]).line
                        == advance_position(
                        ms[k - 1].line,
                        ms[k - 1].column,
                        ms[k - 1].lexeme,
                    ).0 && ms[k].column == advance_position(
                        ms[k - 1].line,
                        ms[k - 1].column,
                        ms[k - 1].lexeme,
                    ).1 by {
                        if k == 1 {
                            assert(rest.len() > 0);
                            assert(ms[1] == rest[0]);
                            assert(ms[0].line == line && ms[0].column == col);
                        } else {
                            assert(ms[k] == rest[k - 1]);
                            assert(ms[k - 1] == rest[k - 2]);
                        }
                    }
                },
                ScanOutcome::Fail { .. } => {},
            }
        }
    }
}


/// What one record prints to: token id, token value, line and column,
/// space-separated under a line feed.
pub open spec fn render_record(id: Seq<u8>, value: Seq<u8>, line: nat, col: nat) -> Seq<u8> {
    id + seq![0x20u8] + value + seq![0x20u8] + crate::textfmt::dec_digits(line) + seq![0x20u8]
        + crate::textfmt::dec_digits(col) + seq![0x0au8]
}

/// What a token stream prints to: its records in order.
pub open spec fn render_tokens_spec(ts: Seq<Token>) -> Seq<u8>
    decreases ts.len(),
{
    if ts.len() == 0 {
        Seq::empty()
    } else {
        render_record(
            ts[0].token_id@,
            ts[0].token_value@,
            ts[0].line as nat,
            ts[0].column as nat,
        ) + render_tokens_spec(ts.drop_first())
    }
}

proof fn lemma_render_tokens_push(ts: Seq<Token>, i: int)
    requires
        0 <= i < ts.len(),
    ensures
        render_tokens_spec(ts.take(i + 1)) == render_tokens_spec(ts.take(i)) + render_record(
            ts[i].token_id@,
            ts[i].token_value@,
            ts[i].line as nat,
            ts[i].column as nat,
        ),
    decreases i,
{
    let a = ts.take(i + 1);
    let b = ts.take(i);
    if i == 0 {
        assert(a.drop_first() =~= Seq::<Token>::empty());
        assert(b =~= Seq::<Token>::empty());
        assert(render_tokens_spec(a) =~= render_tokens_spec(b) + render_record(
            ts[0].token_id@,
            ts[0].token_value@,
            ts[0].line as nat,
            ts[0].column as nat,
        ));
    } else {
        lemma_render_tokens_push(ts.drop_first(), i - 1);
        assert(a.drop_first() =~= ts.drop_first().take(i));
        assert(b.drop_first() =~= ts.drop_first().take(i - 1));
        assert(render_tokens_spec(a) =~= render_tokens_spec(b) + render_record(
            ts[i].token_id@,
            ts[i].token_value@,
            ts[i].line as nat,
            ts[i].column as nat,
        ));
    }
}

/// Print a token stream, one record per line: token id, token value, line
/// and column, space-separated.
pub fn render_tokens(tokens: &Vec<Token>) -> (r: Vec<u8>)
    ensures
        r@ == render_tokens_spec(tokens@),
{
    let mut output: Vec<u8> = Vec::new();
    let mut i: usize = 0;
    proof {
        assert(tokens@.take(0) =~= Seq::<Token>::empty());
        assert(output@ =~= render_tokens_spec(tokens@.take(0)));
    }
    while i < tokens.len()
        invariant
            i <= tokens@.len(),
            output@ == render_tokens_spec(tokens@.take(i as int)),
        decreases tokens@.len() - i,
    {
        let tok = &tokens[i];
        crate::table::append_bytes(&mut output, &tok.token_id);
        output.push(0x20);
        crate::table::append_bytes(&mut output, &tok.token_value);
        output.push(0x20);
        let line_text = crate::textfmt::usize_to_decimal(tok.line);
        crate::table::append_bytes(&mut output, &line_text);
        output.push(0x20);
        let col_text = crate::textfmt::usize_to_decimal(tok.column);
        crate::table::append_bytes(&mut output, &col_text);
        output.push(0x0a);
        proof {
            lemma_render_tokens_push(tokens@, i as int);
            assert(output@ =~= render_tokens_spec(tokens@.take(i + 1)));
        }
        i = i + 1;
    }
    proof {
        assert(tokens@.take(i as int) =~= tokens@);
    }
    output
}

} // verus!
