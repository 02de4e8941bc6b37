//! Scoring of candidates by a language model server.
//!
//! The server itself is asked elsewhere; here is what it is asked and what its
//! answers mean. Log-probabilities and scores are in billionths.
use vstd::prelude::*;

use crate::json;
use crate::text::{char_count, chars_of};

verus! {

/// The score of a candidate of which nothing is known.
pub const NEUTRAL_SCORE: i64 = 500_000_000;

/// The lowest score a candidate can get.
pub const LOWEST_SCORE: i64 = 300_000_000;

/// Minus the mean log-probability at and below which a candidate gets the
/// lowest score.
pub const LOGPROB_DEPTH: i64 = 13_000_000_000;

/// How far above that the best score is reached.
pub const LOGPROB_SPAN: i64 = 11_000_000_000;

/// Upper bound on the number of tokens the server is asked for.
pub const PREDICT_LIMIT: u32 = 48;

/// The text with backslashes and quotes escaped.
pub open spec fn escaped(s: Seq<char>) -> Seq<char>
    decreases s.len(),
{
    if s.len() == 0 {
        Seq::empty()
    } else if s.last() == '\\' || s.last() == '"' {
        escaped(s.drop_last()).push('\\').push(s.last())
    } else {
        escaped(s.drop_last()).push(s.last())
    }
}

/// A grammar with one rule, which admits exactly the text `s`.
pub open spec fn literal_grammar(s: Seq<char>) -> Seq<char> {
    "root ::= \""@ + escaped(s) + "\""@
}

/// A grammar that makes the model produce exactly the text `s`.
pub fn gbnf_string_literal(s: &str) -> (out: String)
    ensures
        out@ == literal_grammar(s@),
{
    let chars: Vec<char> = chars_of(s);
    let ghost head = "root ::= \""@;
    let mut out: String = "root ::= \"".to_owned();
    let mut i: usize = 0;
    assert(head + escaped(s@.take(0)) =~= head);
    while i < chars.len()
        invariant
            i <= chars@.len(),
            chars@ == s@,
            out@ == head + escaped(s@.take(i as int)),
        decreases chars@.len() - i,
    {
        let c: char = chars[i];
        proof {
            assert(s@.take(i + 1).drop_last() =~= s@.take(i as int));
            assert(s@.take(i + 1).last() == c);
        }
        if c == '\\' || c == '"' {
            out.push('\\');
        }
        out.push(c);
        i = i + 1;
        assert(out@ =~= head + escaped(s@.take(i as int)));
    }
    assert(s@.take(i as int) =~= s@);
    out.append("\"");
    out
}

/// Whatever the text, the literal in its grammar ends at the last character:
/// up to there one is inside the quotes.
pub proof fn law_literal_is_closed(s: Seq<char>)
    ensures
        json::mode_after(seq!['"'] + escaped(s)) == json::Mode::Quoted,
        json::mode_after((seq!['"'] + escaped(s)).push('"')) == json::Mode::Plain,
    decreases s.len(),
{
    let open = seq!['"'] + escaped(s);
    if s.len() == 0 {
        reveal_with_fuel(json::mode_after, 2);
        assert(open =~= seq!['"']);
        assert(open.drop_last() =~= Seq::empty());
        assert(json::mode_after(open) == json::step(json::Mode::Plain, '"'));
    } else {
        law_literal_is_closed(s.drop_last());
        let before = seq!['"'] + escaped(s.drop_last());
        let c = s.last();
        if c == '\\' || c == '"' {
            let mid = before.push('\\');
            assert(open =~= mid.push(c));
            assert(open.drop_last() =~= mid);
            assert(mid.drop_last() =~= before);
            assert(json::mode_after(mid) == json::Mode::Escaped);
            assert(json::mode_after(open) == json::step(json::mode_after(mid), c));
        } else {
            assert(open =~= before.push(c));
            assert(open.drop_last() =~= before);
            assert(json::mode_after(open) == json::step(json::mode_after(before), c));
        }
    }
    assert(open.push('"').drop_last() =~= open);
    assert(json::mode_after(open.push('"')) == json::step(json::mode_after(open), '"'));
}

/// A request to the server.
pub struct CompletionRequest {
    /// The text to go on from.
    pub prompt: String,
    /// How many tokens to produce at most.
    pub n_predict: u32,
    /// Whether the server keeps the prompt for the next request.
    pub cache_prompt: bool,
    /// Grammar that the continuation has to follow; empty for none.
    pub grammar: String,
    /// How many token probabilities to report.
    pub n_probs: u32,
}

/// A produced token with the logarithm of its probability.
pub struct TokenLogprob {
    pub token: String,
    pub logprob: i64,
}

/// What came of a request.
pub enum ScoreReply {
    /// The server could not be asked.
    Unreachable,
    /// The answer could not be read.
    Unreadable,
    /// The tokens of the answer.
    Tokens(Vec<TokenLogprob>),
}

/// The sum of the log-probabilities of the tokens that have text.
pub open spec fn content_sum(tokens: Seq<TokenLogprob>) -> int
    decreases tokens.len(),
{
    if tokens.len() == 0 {
        0
    } else {
        content_sum(tokens.drop_last()) + (if tokens.last().token@.len() > 0 {
            tokens.last().logprob as int
        } else {
            0
        })
    }
}

/// The number of tokens that have text.
pub open spec fn content_count(tokens: Seq<TokenLogprob>) -> int
    decreases tokens.len(),
{
    if tokens.len() == 0 {
        0
    } else {
        content_count(tokens.drop_last()) + (if tokens.last().token@.len() > 0 {
            1int
        } else {
            0int
        })
    }
}

/// The score of `count` tokens whose log-probabilities add up to `sum`: linear
/// in their mean, from the lowest score to three times that.
pub open spec fn band_score(sum: int, count: int) -> int {
    let height = sum + LOGPROB_DEPTH * count;
    let full = LOGPROB_SPAN * count;
    if height <= 0 {
        LOWEST_SCORE as int
    } else if height >= full {
        3 * LOWEST_SCORE as int
    } else {
        LOWEST_SCORE + (3 * height) / (55 * count)
    }
}

/// The score of a candidate after the reply to its request.
pub open spec fn reply_score(reply: ScoreReply) -> int {
    match reply {
        ScoreReply::Tokens(tokens) => if content_count(tokens@) == 0 {
            NEUTRAL_SCORE as int
        } else {
            band_score(content_sum(tokens@), content_count(tokens@))
        },
        _ => NEUTRAL_SCORE as int,
    }
}

fn band(sum: i128, count: u64) -> (score: i64)
    requires
        1 <= count <= 0x1_0000_0000,
        -0x1_0000_0000_0000_0000_0000_0000 <= sum <= 0x1_0000_0000_0000_0000_0000_0000,
    ensures
        score == band_score(sum as int, count as int),
        LOWEST_SCORE <= score <= 3 * LOWEST_SCORE,
{
    let n: i128 = count as i128;
    assert(0 <= LOGPROB_DEPTH * n <= 13_000_000_000 * 0x1_0000_0000) by (nonlinear_arith)
        requires
            1 <= n <= 0x1_0000_0000,
            LOGPROB_DEPTH == 13_000_000_000,
    ;
    let height: i128 = sum + (LOGPROB_DEPTH as i128) * n;
    let full: i128 = (LOGPROB_SPAN as i128) * n;
    if height <= 0 {
        LOWEST_SCORE
    } else if height >= full {
        3 * LOWEST_SCORE
    } else {
        proof {
            assert((3 * height) / (55 * n as int) <= 600_000_000) by (nonlinear_arith)
                requires
                    0 < height < 11_000_000_000 * n,
                    n >= 1,
            ;
            assert(0 <= (3 * height) / (55 * n as int)) by (nonlinear_arith)
                requires
                    0 < height,
                    n >= 1,
            ;
        }
        let above: u128 = (3 * (height as u128)) / (55 * (count as u128));
        LOWEST_SCORE + (above as i64)
    }
}

/// The score of a candidate whose tokens have this mean log-probability.
pub fn logprob_to_score(avg_logprob: i64) -> (score: i64)
    ensures
        score == band_score(avg_logprob as int, 1),
        LOWEST_SCORE <= score <= 3 * LOWEST_SCORE,
{
    band(avg_logprob as i128, 1)
}

/// A higher mean log-probability never gives a lower score.
pub proof fn law_score_is_monotonic(a: int, b: int)
    requires
        a <= b,
    ensures
        band_score(a, 1) <= band_score(b, 1),
        LOWEST_SCORE <= band_score(a, 1) <= 3 * LOWEST_SCORE,
{
    let x = 3 * (a + LOGPROB_DEPTH);
    let y = 3 * (b + LOGPROB_DEPTH);
    assert(x / 55 <= y / 55);
}

/// How a scorer stands with its server.
pub struct ScorerLatch {
    /// Set once the server was found unreachable; no request is made from then
    /// on.
    pub warned: bool,
}

impl ScorerLatch {
    /// A scorer that has not failed yet.
    pub fn new() -> (latch: ScorerLatch)
        ensures
            !latch.warned,
    {
        ScorerLatch { warned: false }
    }

    /// The request that scores `candidate` after `context`. There is none for
    /// an empty candidate or once the server was found unreachable: the score
    /// is then neutral.
    pub fn score_request(&self, context: &str, candidate: &str) -> (req: Option<CompletionRequest>)
        ensures
            req is None <==> self.warned || candidate@.len() == 0,
            req matches Some(r) ==> {
                &&& r.prompt@ == context@
                &&& r.n_predict == (if 3 * candidate@.len() + 4 < 48 {
                    3 * candidate@.len() + 4
                } else {
                    48
                })
                &&& r.cache_prompt
                &&& r.grammar@ == literal_grammar(candidate@)
                &&& r.n_probs == 1
            },
    {
        if self.warned || candidate.is_empty() {
            return None;
        }
        let n: usize = char_count(candidate);
        let n_predict: u32 = if n >= 15 {
            PREDICT_LIMIT
        } else {
            (n as u32) * 3 + 4
        };
        Some(
            CompletionRequest {
                prompt: context.to_owned(),
                n_predict,
                cache_prompt: true,
                grammar: gbnf_string_literal(candidate),
                n_probs: 1,
            },
        )
    }

    /// The request that lets the server prepare `context`. There is none for an
    /// empty context or once the server was found unreachable.
    pub fn warm_request(&self, context: &str) -> (req: Option<CompletionRequest>)
        ensures
            req is None <==> self.warned || context@.len() == 0,
            req matches Some(r) ==> {
                &&& r.prompt@ == context@
                &&& r.n_predict == 0
                &&& r.cache_prompt
                &&& r.grammar@.len() == 0
                &&& r.n_probs == 0
            },
    {
        if self.warned || context.is_empty() {
            return None;
        }
        Some(
            CompletionRequest {
                prompt: context.to_owned(),
                n_predict: 0,
                cache_prompt: true,
                grammar: String::new(),
                n_probs: 0,
            },
        )
    }

    /// Takes note of the reply to a request and gives the candidate's score.
    pub fn settle(&mut self, reply: &ScoreReply) -> (score: i64)
        requires
            reply matches ScoreReply::Tokens(tokens) ==> tokens@.len() <= 0x1_0000_0000,
        ensures
            score == reply_score(*reply),
            final(self).warned == (old(self).warned || reply is Unreachable),
    {
        match reply {
            ScoreReply::Unreachable => {
                self.warned = true;
                NEUTRAL_SCORE
            },
            ScoreReply::Unreadable => NEUTRAL_SCORE,
            ScoreReply::Tokens(tokens) => {
                let mut sum: i128 = 0;
                let mut count: u64 = 0;
                let mut i: usize = 0;
                assert(tokens@.take(0) =~= Seq::empty());
                while i < tokens.len()
                    invariant
                        i <= tokens@.len() <= 0x1_0000_0000,
                        count <= i,
                        -(i * 0x8000_0000_0000_0000) <= sum <= i * 0x8000_0000_0000_0000,
                        sum == content_sum(tokens@.take(i as int)),
                        count == content_count(tokens@.take(i as int)),
                    decreases tokens@.len() - i,
                {
                    proof {
                        assert(tokens@.take(i + 1).drop_last() =~= tokens@.take(i as int));
                        assert(tokens@.take(i + 1).last() == tokens@[i as int]);
                    }
                    if !tokens[i].token.as_str().is_empty() {
                        sum = sum + (tokens[i].logprob as i128);
                        count = count + 1;
                    }
                    i = i + 1;
                }
                assert(tokens@.take(i as int) =~= tokens@);
                if count == 0 {
                    NEUTRAL_SCORE
                } else {
                    band(sum, count)
                }
            },
        }
    }
}

/// How sure the model is, in billionths: on average over the tokens that have text, a
/// log-probability of -13 or less gives 0.3, one of -2 or more gives 0.9, and between
/// them the score grows evenly.
pub proof fn law_score_grows_evenly(sum: int, count: int)
    requires
        count > 0,
    ensures
        sum <= -13_000_000_000 * count ==> band_score(sum, count) == 300_000_000,
        sum >= -2_000_000_000 * count ==> band_score(sum, count) == 900_000_000,
        -13_000_000_000 * count < sum < -2_000_000_000 * count ==> band_score(sum, count)
            == 300_000_000 + (3 * (sum + 13_000_000_000 * count)) / (55 * count),
{
}

/// Tokens without text count for nothing; the others add their log-probability.
pub proof fn law_empty_tokens_do_not_count(tokens: Seq<TokenLogprob>, t: TokenLogprob)
    ensures
        t.token@.len() == 0 ==> content_sum(tokens.push(t)) == content_sum(tokens)
            && content_count(tokens.push(t)) == content_count(tokens),
        t.token@.len() > 0 ==> content_sum(tokens.push(t)) == content_sum(tokens) + t.logprob
            && content_count(tokens.push(t)) == content_count(tokens) + 1,
        content_sum(Seq::<TokenLogprob>::empty()) == 0,
        content_count(Seq::<TokenLogprob>::empty()) == 0,
{
    assert(tokens.push(t).drop_last() =~= tokens);
}

/// No answer, an answer that cannot be read and one without text score 0.5; any other
/// scores by the average of its tokens.
pub proof fn law_no_answer_is_neutral(reply: ScoreReply)
    ensures
        !(reply is Tokens) ==> reply_score(reply) == 500_000_000,
        reply matches ScoreReply::Tokens(tokens) ==> reply_score(reply) == (if content_count(
            tokens@,
        ) == 0 {
            500_000_000
        } else {
            band_score(content_sum(tokens@), content_count(tokens@))
        }),
{
}

/// The grammar allows one text only: the text in quotes, its quotation marks and
/// backslashes behind a backslash.
pub proof fn law_grammar_quotes_text(s: Seq<char>, c: char)
    ensures
        literal_grammar(s) == "root ::= \""@ + escaped(s) + seq!['"'],
        escaped(Seq::<char>::empty()).len() == 0,
        escaped(s.push(c)) == (if c == '\\' || c == '"' {
            escaped(s) + seq!['\\', c]
        } else {
            escaped(s) + seq![c]
        }),
{
    reveal_strlit("\"");
    assert("\""@ =~= seq!['"']);
    assert(s.push(c).drop_last() =~= s);
}

} // verus!
