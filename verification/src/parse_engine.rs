//! The core pipeline: splitting a raw line into tokens, capturing values
//! (with the single quote-pair convention), and driving the grammar over
//! the token sequence to produce parsed elements; plus the behaviour
//! enrichment pass.

use vstd::prelude::*;

use crate::chars_util;
use crate::classify::spec_classify;
use crate::parser_config::{
    msg_unknown_char_option, msg_unknown_string_option, spec_best_split, spec_behaviours,
    spec_char_option, spec_is_separator, spec_string_option, ParserConfig,
};
use crate::parser_structs::{CLArgument, CLElement, CLElementView};

verus! {

// ---------------------------------------------------------------------------
// Value capture
// ---------------------------------------------------------------------------

pub open spec fn starts_with_quote(t: Seq<char>) -> bool {
    t.len() > 0 && t[0] == '"'
}

pub open spec fn ends_with_quote(t: Seq<char>) -> bool {
    t.len() > 0 && t.last() == '"'
}

/// Accumulates token texts from `j` on, verbatim, until one ends with a
/// closing quote; that token joins without its last character.  `None`
/// when the input ends first.
pub open spec fn spec_quote_scan(tokens: Seq<Seq<char>>, j: int) -> Option<(Seq<char>, int)>
    decreases tokens.len() - j,
{
    if j < 0 || j >= tokens.len() {
        None
    } else if ends_with_quote(tokens[j]) {
        Some((tokens[j].take(tokens[j].len() - 1), j + 1))
    } else {
        match spec_quote_scan(tokens, j + 1) {
            None => None,
            Some(p) => Some((tokens[j] + p.0, p.1)),
        }
    }
}

/// Captures a value at token `idx`: the token text verbatim, or — when
/// quoting is enabled and the token opens with a quote — the concatenation
/// of token texts up to the closing quote, both quotes stripped.  Returns
/// the value and the index after the consumed tokens; `None` when there is
/// no token at `idx` or a quote is never closed.
pub open spec fn spec_capture(quotes: bool, tokens: Seq<Seq<char>>, idx: int) -> Option<
    (Seq<char>, int),
> {
    if idx < 0 || idx >= tokens.len() {
        None
    } else if !quotes || !starts_with_quote(tokens[idx]) {
        Some((tokens[idx], idx + 1))
    } else {
        match spec_quote_scan(tokens, idx + 1) {
            None => None,
            Some(p) => Some((tokens[idx].skip(1) + p.0, p.1)),
        }
    }
}

pub open spec fn msg_no_token_for_value() -> Seq<char> {
    "no token available for an expected value"@
}

pub open spec fn msg_unterminated_quote() -> Seq<char> {
    "unterminated quoted value"@
}

/// The message a failed capture reports: either the input ended before the
/// value's first token, or a quote was never closed.
pub open spec fn spec_capture_err(tokens: Seq<Seq<char>>, idx: int) -> Seq<char> {
    if idx >= tokens.len() {
        msg_no_token_for_value()
    } else {
        msg_unterminated_quote()
    }
}

pub proof fn lemma_quote_scan_range(tokens: Seq<Seq<char>>, j: int)
    ensures
        spec_quote_scan(tokens, j) matches Some(p) ==> j < p.1 <= tokens.len(),
    decreases tokens.len() - j,
{
    if 0 <= j < tokens.len() && !ends_with_quote(tokens[j]) {
        lemma_quote_scan_range(tokens, j + 1);
    }
}

/// A successful capture consumes at least one token and never runs past
/// the end of the input.
pub proof fn lemma_capture_range(quotes: bool, tokens: Seq<Seq<char>>, idx: int)
    ensures
        spec_capture(quotes, tokens, idx) matches Some(p) ==> idx < p.1 <= tokens.len(),
{
    lemma_quote_scan_range(tokens, idx + 1);
}

/// Captures the argument value that starts at token `idx`, following the
/// grammar's quote handling; on failure the caller is expected to move its
/// cursor to the end of the input.
pub fn get_argument_string(
    parser_config: &ParserConfig,
    split_vec: &Vec<String>,
    idx: usize,
) -> (r: Result<(String, usize), String>)
    ensures
        match r {
            Ok(p) => spec_capture(parser_config.handle_quotes, split_vec.deep_view(), idx as int)
                == Some((p.0@, p.1 as int)),
            Err(m) => spec_capture(
                parser_config.handle_quotes,
                split_vec.deep_view(),
                idx as int,
            ) is None && m@ == spec_capture_err(split_vec.deep_view(), idx as int),
        },
{
    let ghost tokens = split_vec.deep_view();
    let n = split_vec.len();
    if idx >= n {
        let mut m = String::new();
        m.append("no token available for an expected value");
        proof {
            assert(Seq::<char>::empty() + msg_no_token_for_value() =~= msg_no_token_for_value());
        }
        return Err(m);
    }
    let t = &split_vec[idx];
    proof {
        assert(tokens[idx as int] == t@);
    }
    let t_len = t.as_str().unicode_len();
    let opens = t_len > 0 && t.as_str().get_char(0) == '"';
    if !parser_config.handle_quotes || !opens {
        return Ok((t.clone(), idx + 1));
    }
    let mut buf = String::new();
    buf.append(t.as_str().substring_char(1, t_len));
    proof {
        assert(Seq::<char>::empty() + t@.subrange(1, t@.len() as int) =~= tokens[idx as int].skip(
            1,
        ));
    }
    let mut j = idx + 1;
    while j < n
        invariant
            idx < j <= n,
            n == tokens.len(),
            tokens == split_vec.deep_view(),
            parser_config.handle_quotes,
            starts_with_quote(tokens[idx as int]),
            idx < n,
            spec_capture(true, tokens, idx as int) == match spec_quote_scan(tokens, j as int) {
                None => None::<(Seq<char>, int)>,
                Some(p) => Some((buf@ + p.0, p.1)),
            },
        decreases n - j,
    {
        let tok = &split_vec[j];
        proof {
            assert(tokens[j as int] == tok@);
        }
        let tok_len = tok.as_str().unicode_len();
        let closes = tok_len > 0 && tok.as_str().get_char(tok_len - 1) == '"';
        if closes {
            buf.append(tok.as_str().substring_char(0, tok_len - 1));
            proof {
                assert(tokens[j as int].take(tokens[j as int].len() - 1) =~= tok@.subrange(
                    0,
                    tok@.len() - 1,
                ));
            }
            return Ok((buf, j + 1));
        }
        buf.append(tok.as_str());
        j = j + 1;
        proof {
            match spec_quote_scan(tokens, j as int) {
                None => {},
                Some(p) => {
                    assert((buf@.subrange(0, buf@.len() - tok@.len() as int) + (tok@ + p.0))
                        =~= (buf@ + p.0));
                    assert(buf@.subrange(0, buf@.len() - tok@.len() as int) + tok@ =~= buf@);
                },
            }
        }
    }
    let mut m = String::new();
    m.append("unterminated quoted value");
    proof {
        assert(Seq::<char>::empty() + msg_unterminated_quote() =~= msg_unterminated_quote());
    }
    Err(m)
}

// ---------------------------------------------------------------------------
// The tokenizer
// ---------------------------------------------------------------------------

/// One left-to-right pass with an open literal buffer: a configured
/// separator closes the buffer (even empty) and stands as its own token; a
/// plain space closes the buffer but leaves no token of its own; at the end
/// a non-empty buffer is flushed.
pub open spec fn spec_tokenize_loop(cfg: ParserConfig, line: Seq<char>, buf: Seq<char>) -> Seq<
    Seq<char>,
>
    decreases line.len(),
{
    if line.len() == 0 {
        if buf.len() > 0 {
            seq![buf]
        } else {
            seq![]
        }
    } else {
        let c = line[0];
        if spec_is_separator(cfg, c) {
            seq![buf, seq![c]] + spec_tokenize_loop(cfg, line.skip(1), seq![])
        } else if c == ' ' {
            seq![buf] + spec_tokenize_loop(cfg, line.skip(1), seq![])
        } else {
            spec_tokenize_loop(cfg, line.skip(1), buf.push(c))
        }
    }
}

/// The token sequence of a raw command line under a grammar's separators.
pub open spec fn spec_tokenize(cfg: ParserConfig, line: Seq<char>) -> Seq<Seq<char>> {
    spec_tokenize_loop(cfg, line, seq![])
}

/// Splits a raw command line into tokens.
pub fn get_split_vec(cmd_line: &str, parser_config: &ParserConfig) -> (r: Vec<String>)
    ensures
        r.deep_view() == spec_tokenize(*parser_config, cmd_line@),
{
    let line = chars_util::str_to_chars(cmd_line);
    let n = line.len();
    let mut split_vec: Vec<String> = Vec::new();
    let mut buf: Vec<char> = Vec::new();
    let mut i: usize = 0;
    proof {
        assert(line@.skip(0) =~= cmd_line@);
        assert(Seq::<Seq<char>>::empty() + spec_tokenize_loop(
            *parser_config,
            cmd_line@,
            Seq::<char>::empty(),
        ) =~= spec_tokenize(*parser_config, cmd_line@));
    }
    while i < n
        invariant
            i <= n,
            n == line@.len(),
            line@ == cmd_line@,
            spec_tokenize(*parser_config, cmd_line@) == split_vec.deep_view()
                + spec_tokenize_loop(*parser_config, line@.skip(i as int), buf@),
        decreases n - i,
    {
        let c = line[i];
        proof {
            assert(line@.skip(i as int)[0] == line@[i as int]);
            assert(line@.skip(i as int).skip(1) =~= line@.skip(i + 1));
        }
        if parser_config.is_separator(c) {
            let ghost old_out = split_vec.deep_view();
            let ghost old_buf = buf@;
            split_vec.push(chars_util::chars_to_string(buf.as_slice()));
            let mut sep_tok = String::new();
            chars_util::push_char(&mut sep_tok, c);
            proof {
                assert(sep_tok@ =~= seq![c]);
            }
            split_vec.push(sep_tok);
            buf = Vec::new();
            proof {
                assert(split_vec.deep_view() =~= old_out + seq![old_buf, seq![c]]);
                assert((old_out + seq![old_buf, seq![c]]) + spec_tokenize_loop(
                    *parser_config,
                    line@.skip(i + 1),
                    Seq::<char>::empty(),
                ) =~= old_out + (seq![old_buf, seq![c]] + spec_tokenize_loop(
                    *parser_config,
                    line@.skip(i + 1),
                    Seq::<char>::empty(),
                )));
            }
        } else if c == ' ' {
            let ghost old_out = split_vec.deep_view();
            let ghost old_buf = buf@;
            split_vec.push(chars_util::chars_to_string(buf.as_slice()));
            buf = Vec::new();
            proof {
                assert(split_vec.deep_view() =~= old_out + seq![old_buf]);
                assert((old_out + seq![old_buf]) + spec_tokenize_loop(
                    *parser_config,
                    line@.skip(i + 1),
                    Seq::<char>::empty(),
                ) =~= old_out + (seq![old_buf] + spec_tokenize_loop(
                    *parser_config,
                    line@.skip(i + 1),
                    Seq::<char>::empty(),
                )));
            }
        } else {
            buf.push(c);
        }
        i = i + 1;
    }
    proof {
        assert(line@.skip(n as int) =~= Seq::<char>::empty());
    }
    if buf.len() > 0 {
        let ghost old_out = split_vec.deep_view();
        let ghost old_buf = buf@;
        split_vec.push(chars_util::chars_to_string(buf.as_slice()));
        proof {
            assert(split_vec.deep_view() =~= old_out + seq![old_buf]);
        }
    } else {
        proof {
            assert(split_vec.deep_view() + Seq::<Seq<char>>::empty() =~= split_vec.deep_view());
        }
    }
    split_vec
}

// ---------------------------------------------------------------------------
// The parse step
// ---------------------------------------------------------------------------

pub open spec fn msg_arg_not_last() -> Seq<char> {
    "char option taking a value must be last in its bundle"@
}

/// Processes the characters of a short-option bundle (the token at
/// `tok_idx`, minus its dash) from `opts[0]` on: each character resolves
/// against the short table; a value is captured from the following tokens
/// only for an argument-taking character in last position, or glued from
/// the bundle's remainder when the grammar allows glued values.  Returns
/// the elements produced and the index of the next unconsumed token.
pub open spec fn spec_bundle(
    cfg: ParserConfig,
    opts: Seq<char>,
    tokens: Seq<Seq<char>>,
    tok_idx: int,
) -> (Seq<CLElementView>, int)
    decreases opts.len(),
{
    if opts.len() == 0 {
        (seq![], tok_idx + 1)
    } else {
        let c = opts[0];
        let tail = spec_bundle(cfg, opts.skip(1), tokens, tok_idx);
        match spec_char_option(cfg, c) {
            None => (
                seq![
                    CLElementView::ParsingError(Some(msg_unknown_char_option(c))),
                    CLElementView::CLOption(seq![c], None),
                ] + tail.0,
                tail.1,
            ),
            Some(false) => (seq![CLElementView::CLOption(seq![c], None)] + tail.0, tail.1),
            Some(true) => {
                if opts.len() > 1 {
                    if cfg.has_separatorless_args_for_char_options {
                        (
                            seq![
                                CLElementView::CLOption(
                                    seq![c],
                                    Some(spec_classify(opts.skip(1))),
                                ),
                            ],
                            tok_idx + 1,
                        )
                    } else {
                        (
                            seq![
                                CLElementView::ParsingError(Some(msg_arg_not_last())),
                                CLElementView::CLOption(seq![c], None),
                            ] + tail.0,
                            tail.1,
                        )
                    }
                } else {
                    match spec_capture(cfg.handle_quotes, tokens, tok_idx + 1) {
                        Some(p) => (
                            seq![CLElementView::CLOption(seq![c], Some(spec_classify(p.0)))],
                            p.1,
                        ),
                        None => (
                            seq![
                                CLElementView::ParsingError(
                                    Some(spec_capture_err(tokens, tok_idx + 1)),
                                ),
                                CLElementView::CLOption(seq![c], None),
                            ],
                            tokens.len() as int,
                        ),
                    }
                }
            },
        }
    }
}

/// One step of the engine at the token under the cursor: a short-option
/// bundle, the bare `--` marker, a long option (with embedded-split
/// recovery when unknown), a lone separator, or a free-standing argument.
/// Returns the elements produced and the next cursor position; after a
/// failed value capture the cursor moves to the end of the input.
pub open spec fn spec_step(cfg: ParserConfig, tokens: Seq<Seq<char>>, idx: int) -> (
    Seq<CLElementView>,
    int,
) {
    let t = tokens[idx];
    if t.len() >= 1 && t[0] == '-' && !(t.len() >= 2 && t[1] == '-') {
        spec_bundle(cfg, t.skip(1), tokens, idx)
    } else if t.len() == 2 && t[0] == '-' && t[1] == '-' {
        (seq![CLElementView::CLDoubleDash], idx + 1)
    } else if t.len() > 2 && t[0] == '-' && t[1] == '-' {
        let name = t.skip(2);
        match spec_string_option(cfg, name) {
            Some(true) => match spec_capture(cfg.handle_quotes, tokens, idx + 1) {
                Some(p) => (
                    seq![CLElementView::CLOption(name, Some(spec_classify(p.0)))],
                    p.1,
                ),
                None => (
                    seq![
                        CLElementView::ParsingError(Some(spec_capture_err(tokens, idx + 1))),
                        CLElementView::CLOption(name, None),
                    ],
                    tokens.len() as int,
                ),
            },
            Some(false) => (seq![CLElementView::CLOption(name, None)], idx + 1),
            None => match spec_best_split(cfg, name) {
                Some(p) => (
                    seq![
                        CLElementView::CLOption(
                            name.take(p),
                            Some(spec_classify(name.skip(p + 1))),
                        ),
                    ],
                    idx + 1,
                ),
                None => (
                    seq![
                        CLElementView::ParsingError(Some(msg_unknown_string_option(name))),
                        CLElementView::CLOption(name, None),
                    ],
                    idx + 1,
                ),
            },
        }
    } else if t.len() == 1 && spec_is_separator(cfg, t[0]) {
        (seq![CLElementView::CLSep(t[0])], idx + 1)
    } else {
        match spec_capture(cfg.handle_quotes, tokens, idx) {
            Some(p) => (seq![CLElementView::CLArgument(spec_classify(p.0))], p.1),
            None => (
                seq![CLElementView::ParsingError(Some(spec_capture_err(tokens, idx)))],
                tokens.len() as int,
            ),
        }
    }
}

pub proof fn lemma_bundle_range(
    cfg: ParserConfig,
    opts: Seq<char>,
    tokens: Seq<Seq<char>>,
    tok_idx: int,
)
    requires
        0 <= tok_idx < tokens.len(),
    ensures
        tok_idx < spec_bundle(cfg, opts, tokens, tok_idx).1 <= tokens.len(),
    decreases opts.len(),
{
    if opts.len() > 0 {
        lemma_bundle_range(cfg, opts.skip(1), tokens, tok_idx);
        lemma_capture_range(cfg.handle_quotes, tokens, tok_idx + 1);
    }
}

/// Every step of the engine moves the cursor strictly forward and never
/// past the end of the input: the source of both termination and the
/// linear output bound.
pub proof fn lemma_step_range(cfg: ParserConfig, tokens: Seq<Seq<char>>, idx: int)
    requires
        0 <= idx < tokens.len(),
    ensures
        idx < spec_step(cfg, tokens, idx).1 <= tokens.len(),
{
    let t = tokens[idx];
    lemma_bundle_range(cfg, t.skip(1), tokens, idx);
    lemma_capture_range(cfg.handle_quotes, tokens, idx + 1);
    lemma_capture_range(cfg.handle_quotes, tokens, idx);
}

/// The whole parse from cursor position `idx` on.
pub open spec fn spec_parse_from(cfg: ParserConfig, tokens: Seq<Seq<char>>, idx: int) -> Seq<
    CLElementView,
>
    decreases tokens.len() - idx,
{
    if idx < 0 || idx >= tokens.len() {
        seq![]
    } else {
        let step = spec_step(cfg, tokens, idx);
        let next = if step.1 <= idx {
            idx + 1
        } else if step.1 > tokens.len() {
            tokens.len() as int
        } else {
            step.1
        };
        step.0 + spec_parse_from(cfg, tokens, next)
    }
}

/// The element sequence a token sequence parses to under a grammar.
pub open spec fn spec_parse(cfg: ParserConfig, tokens: Seq<Seq<char>>) -> Seq<CLElementView> {
    spec_parse_from(cfg, tokens, 0)
}

// ---------------------------------------------------------------------------
// The executable engine
// ---------------------------------------------------------------------------

proof fn lemma_seq1_len(x: CLElementView)
    ensures
        seq![x].len() == 1,
{
}

proof fn lemma_seq2_len(x: CLElementView, y: CLElementView)
    ensures
        seq![x, y].len() == 2,
{
}

proof fn lemma_push_is_add1(s: Seq<CLElementView>, x: CLElementView)
    ensures
        s + seq![x] == s.push(x),
{
    assert(s + seq![x] =~= s.push(x));
}

/// Appends a parsed element, tracking the sequence of element views.
fn push_elem(out: &mut Vec<CLElement>, e: CLElement)
    ensures
        final(out).deep_view() == old(out).deep_view().push(e@),
{
    let ghost ev = e@;
    out.push(e);
    proof {
        assert(out.deep_view() =~= old(out).deep_view().push(ev));
    }
}

/// Builds a one-character string.
fn char_to_string(c: char) -> (s: String)
    ensures
        s@ == seq![c],
{
    let mut s = String::new();
    chars_util::push_char(&mut s, c);
    proof {
        assert(Seq::<char>::empty().push(c) =~= seq![c]);
    }
    s
}

/// Processes the bundle token's characters from `opts[oi]` on, pushing the
/// produced elements; returns the next unconsumed token index.
fn exec_bundle(
    parser_config: &ParserConfig,
    opts: &Vec<char>,
    oi: usize,
    split_vec: &Vec<String>,
    tok_idx: usize,
    out: &mut Vec<CLElement>,
) -> (new_idx: usize)
    requires
        oi <= opts@.len(),
        tok_idx < split_vec.deep_view().len(),
    ensures
        ({
            let sb = spec_bundle(
                *parser_config,
                opts@.skip(oi as int),
                split_vec.deep_view(),
                tok_idx as int,
            );
            final(out).deep_view() == old(out).deep_view() + sb.0 && new_idx as int == sb.1
        }),
    decreases opts@.len() - oi,
{
    let ghost tokens = split_vec.deep_view();
    let ghost rest = opts@.skip(oi as int);
    let n = split_vec.len();
    if oi >= opts.len() {
        proof {
            assert(old(out).deep_view() + Seq::<CLElementView>::empty() =~= old(
                out,
            ).deep_view());
        }
        return tok_idx + 1;
    }
    let c = opts[oi];
    proof {
        assert(rest[0] == c);
        assert(rest.skip(1) =~= opts@.skip(oi + 1));
    }
    match parser_config.does_char_option_have_arg(&c) {
        Err(m) => {
            let ghost out0 = out.deep_view();
            out.push(CLElement::ParsingError(Some(m)));
            out.push(CLElement::CLOption(char_to_string(c), None));
            proof {
                assert(out.deep_view() =~= out0 + seq![
                    CLElementView::ParsingError(Some(msg_unknown_char_option(c))),
                    CLElementView::CLOption(seq![c], None),
                ]);
            }
            let r = exec_bundle(parser_config, opts, oi + 1, split_vec, tok_idx, out);
            proof {
                let sbt = spec_bundle(*parser_config, rest.skip(1), tokens, tok_idx as int);
                assert(out.deep_view() =~= old(out).deep_view() + (seq![
                    CLElementView::ParsingError(Some(msg_unknown_char_option(c))),
                    CLElementView::CLOption(seq![c], None),
                ] + sbt.0));
            }
            r
        },
        Ok(false) => {
            let ghost out0 = out.deep_view();
            out.push(CLElement::CLOption(char_to_string(c), None));
            proof {
                assert(out.deep_view() =~= out0 + seq![CLElementView::CLOption(seq![c], None)]);
            }
            let r = exec_bundle(parser_config, opts, oi + 1, split_vec, tok_idx, out);
            proof {
                let sbt = spec_bundle(*parser_config, rest.skip(1), tokens, tok_idx as int);
                assert(out.deep_view() =~= old(out).deep_view() + (seq![
                    CLElementView::CLOption(seq![c], None),
                ] + sbt.0));
            }
            r
        },
        Ok(true) => {
            if oi + 1 < opts.len() {
                if parser_config.has_separatorless_args_for_char_options {
                    let glued = vstd::slice::slice_subrange(opts.as_slice(), oi + 1, opts.len());
                    let argument = crate::classify::classify_chars(glued);
                    let ghost out0 = out.deep_view();
                    out.push(CLElement::CLOption(char_to_string(c), Some(argument)));
                    proof {
                        assert(glued@ =~= rest.skip(1));
                        assert(out.deep_view() =~= out0 + seq![
                            CLElementView::CLOption(seq![c], Some(spec_classify(rest.skip(1)))),
                        ]);
                    }
                    tok_idx + 1
                } else {
                    let mut m = String::new();
                    m.append("char option taking a value must be last in its bundle");
                    proof {
                        assert(Seq::<char>::empty() + msg_arg_not_last() =~= msg_arg_not_last());
                    }
                    let ghost out0 = out.deep_view();
                    out.push(CLElement::ParsingError(Some(m)));
                    out.push(CLElement::CLOption(char_to_string(c), None));
                    proof {
                        assert(out.deep_view() =~= out0 + seq![
                            CLElementView::ParsingError(Some(msg_arg_not_last())),
                            CLElementView::CLOption(seq![c], None),
                        ]);
                    }
                    let r = exec_bundle(parser_config, opts, oi + 1, split_vec, tok_idx, out);
                    proof {
                        let sbt = spec_bundle(
                            *parser_config,
                            rest.skip(1),
                            tokens,
                            tok_idx as int,
                        );
                        assert(out.deep_view() =~= old(out).deep_view() + (seq![
                            CLElementView::ParsingError(Some(msg_arg_not_last())),
                            CLElementView::CLOption(seq![c], None),
                        ] + sbt.0));
                    }
                    r
                }
            } else {
                match get_argument_string(parser_config, split_vec, tok_idx + 1) {
                    Ok((s, ni)) => {
                        let mut argument = CLArgument::RawString(s);
                        argument.identify_type();
                        let ghost out0 = out.deep_view();
                        out.push(CLElement::CLOption(char_to_string(c), Some(argument)));
                        proof {
                            assert(out.deep_view() =~= old(out).deep_view() + spec_bundle(
                                *parser_config,
                                rest,
                                tokens,
                                tok_idx as int,
                            ).0);
                        }
                        ni
                    },
                    Err(m) => {
                        let ghost out0 = out.deep_view();
                        out.push(CLElement::ParsingError(Some(m)));
                        out.push(CLElement::CLOption(char_to_string(c), None));
                        proof {
                            assert(out.deep_view() =~= old(out).deep_view() + spec_bundle(
                                *parser_config,
                                rest,
                                tokens,
                                tok_idx as int,
                            ).0);
                        }
                        n
                    },
                }
            }
        },
    }
}

/// Parses a token sequence against a grammar.  Never fails as a whole:
/// every recoverable problem stands inline as a `ParsingError` element.
#[verifier::rlimit(100)]
#[verifier::spinoff_prover]
pub fn parse_the_split(split_vec: Vec<String>, parser_config: &ParserConfig) -> (parsed: Vec<
    CLElement,
>)
    ensures
        parsed.deep_view() == spec_parse(*parser_config, split_vec.deep_view()),
        parsed@.len() <= 2 * total_chars_from(split_vec.deep_view(), 0) + 2 * split_vec@.len(),
{
    let ghost tokens = split_vec.deep_view();
    let n = split_vec.len();
    let mut parsed: Vec<CLElement> = Vec::new();
    let mut idx: usize = 0;
    proof {
        assert(Seq::<CLElementView>::empty() + spec_parse_from(*parser_config, tokens, 0)
            =~= spec_parse(*parser_config, tokens));
    }
    while idx < n
        invariant
            idx <= n,
            n == tokens.len(),
            tokens == split_vec.deep_view(),
            spec_parse(*parser_config, tokens) == parsed.deep_view() + spec_parse_from(
                *parser_config,
                tokens,
                idx as int,
            ),
        decreases n - idx,
    {
        let ghost step = spec_step(*parser_config, tokens, idx as int);
        proof {
            lemma_step_range(*parser_config, tokens, idx as int);
            assert(spec_parse_from(*parser_config, tokens, idx as int) == step.0
                + spec_parse_from(*parser_config, tokens, step.1));
        }
        let ghost out0 = parsed.deep_view();
        let t = &split_vec[idx];
        proof {
            assert(tokens[idx as int] == t@);
        }
        let tv = chars_util::str_to_chars(t.as_str());
        let t_len = tv.len();
        let is_dash = t_len >= 1 && tv[0] == '-';
        let is_ddash = t_len >= 2 && tv[0] == '-' && tv[1] == '-';
        if is_dash && !is_ddash {
            let ghost idx0 = idx as int;
            idx = exec_bundle(parser_config, &tv, 1, &split_vec, idx, &mut parsed);
            proof {
                assert(tv@.skip(1) == tokens[idx0].skip(1));
            }
        } else if t_len == 2 && is_ddash {
            parsed.push(CLElement::CLDoubleDash);
            proof {
                assert(parsed.deep_view() =~= out0 + seq![CLElementView::CLDoubleDash]);
            }
            idx = idx + 1;
        } else if t_len > 2 && is_ddash {
            let ghost name_v = tokens[idx as int].skip(2);
            let name = chars_util::chars_to_string(vstd::slice::slice_subrange(
                tv.as_slice(),
                2,
                t_len,
            ));
            proof {
                assert(name@ =~= name_v);
            }
            match parser_config.does_string_option_have_arg(&name) {
                Ok(true) => {
                    match get_argument_string(parser_config, &split_vec, idx + 1) {
                        Ok((s, ni)) => {
                            let mut argument = CLArgument::RawString(s);
                            argument.identify_type();
                            parsed.push(CLElement::CLOption(name, Some(argument)));
                            proof {
                                assert(parsed.deep_view() =~= out0 + step.0);
                            }
                            idx = ni;
                        },
                        Err(m) => {
                            parsed.push(CLElement::ParsingError(Some(m)));
                            parsed.push(CLElement::CLOption(name, None));
                            proof {
                                assert(parsed.deep_view() =~= out0 + step.0);
                            }
                            idx = n;
                        },
                    }
                },
                Ok(false) => {
                    parsed.push(CLElement::CLOption(name, None));
                    proof {
                        assert(parsed.deep_view() =~= out0 + step.0);
                    }
                    idx = idx + 1;
                },
                Err(m) => {
                    match parser_config.try_split_embedded_option(name.as_str()) {
                        Some((on, val)) => {
                            let mut argument = CLArgument::RawString(val);
                            argument.identify_type();
                            parsed.push(CLElement::CLOption(on, Some(argument)));
                            proof {
                                assert(parsed.deep_view() =~= out0 + step.0);
                            }
                            idx = idx + 1;
                        },
                        None => {
                            parsed.push(CLElement::ParsingError(Some(m)));
                            parsed.push(CLElement::CLOption(name, None));
                            proof {
                                assert(parsed.deep_view() =~= out0 + step.0);
                            }
                            idx = idx + 1;
                        },
                    }
                },
            }
        } else {
            let is_sep = t_len == 1 && parser_config.is_separator(tv[0]);
            if is_sep {
                push_elem(&mut parsed, CLElement::CLSep(tv[0]));
                proof {
                    lemma_push_is_add1(out0, CLElementView::CLSep(tv@[0]));
                    assert(step.0 == seq![CLElementView::CLSep(tv@[0])]);
                    assert(parsed.deep_view() == out0 + step.0);
                }
                idx = idx + 1;
            } else {
                match get_argument_string(parser_config, &split_vec, idx) {
                    Ok((s, ni)) => {
                        let mut argument = CLArgument::RawString(s);
                        argument.identify_type();
                        parsed.push(CLElement::CLArgument(argument));
                        proof {
                            assert(parsed.deep_view() =~= out0 + step.0);
                        }
                        idx = ni;
                    },
                    Err(m) => {
                        parsed.push(CLElement::ParsingError(Some(m)));
                        proof {
                            assert(parsed.deep_view() =~= out0 + step.0);
                        }
                        idx = n;
                    },
                }
            }
        }
        proof {
            assert((out0 + step.0) + spec_parse_from(*parser_config, tokens, idx as int) =~= out0
                + (step.0 + spec_parse_from(*parser_config, tokens, idx as int)));
        }
    }
    proof {
        lemma_parse_output_linear(*parser_config, tokens);
    }
    parsed
}

// ---------------------------------------------------------------------------
// Output is linear in the input
// ---------------------------------------------------------------------------

/// Total number of characters in the tokens from `idx` on.
pub open spec fn total_chars_from(tokens: Seq<Seq<char>>, idx: int) -> int
    decreases tokens.len() - idx,
{
    if idx < 0 || idx >= tokens.len() {
        0
    } else {
        tokens[idx].len() + total_chars_from(tokens, idx + 1)
    }
}

proof fn lemma_total_chars_nonneg(tokens: Seq<Seq<char>>, idx: int)
    ensures
        total_chars_from(tokens, idx) >= 0,
    decreases tokens.len() - idx,
{
    if 0 <= idx < tokens.len() {
        lemma_total_chars_nonneg(tokens, idx + 1);
    }
}

proof fn lemma_total_chars_monotone(tokens: Seq<Seq<char>>, a: int, b: int)
    requires
        0 <= a <= b,
    ensures
        total_chars_from(tokens, b) <= total_chars_from(tokens, a),
    decreases b - a,
{
    if a < b {
        lemma_total_chars_monotone(tokens, a + 1, b);
        lemma_total_chars_nonneg(tokens, a + 1);
    }
}

proof fn lemma_bundle_len(cfg: ParserConfig, opts: Seq<char>, tokens: Seq<Seq<char>>, tok_idx: int)
    ensures
        spec_bundle(cfg, opts, tokens, tok_idx).0.len() <= 2 * opts.len(),
    decreases opts.len(),
{
    if opts.len() > 0 {
        lemma_bundle_len(cfg, opts.skip(1), tokens, tok_idx);
    }
}

#[verifier::rlimit(100)]
#[verifier::spinoff_prover]
proof fn lemma_step_len(cfg: ParserConfig, tokens: Seq<Seq<char>>, idx: int)
    requires
        0 <= idx < tokens.len(),
    ensures
        spec_step(cfg, tokens, idx).0.len() <= 2 * tokens[idx].len() + 2,
{
    let t = tokens[idx];
    lemma_bundle_len(cfg, t.skip(1), tokens, idx);
    if t.len() >= 1 && t[0] == '-' && !(t.len() >= 2 && t[1] == '-') {
        assert(spec_step(cfg, tokens, idx).0.len() <= 2 * t.skip(1).len());
        assert(t.skip(1).len() == t.len() - 1);
    } else if t.len() == 2 && t[0] == '-' && t[1] == '-' {
        assert(spec_step(cfg, tokens, idx).0.len() == 1);
    } else if t.len() > 2 && t[0] == '-' && t[1] == '-' {
        let name = t.skip(2);
        match spec_string_option(cfg, name) {
            Some(true) => {
                match spec_capture(cfg.handle_quotes, tokens, idx + 1) {
                    Some(p) => {
                        lemma_seq1_len(CLElementView::CLOption(name, Some(spec_classify(p.0))));
                    },
                    None => {
                        lemma_seq2_len(
                            CLElementView::ParsingError(Some(spec_capture_err(tokens, idx + 1))),
                            CLElementView::CLOption(name, None),
                        );
                    },
                }
            },
            Some(false) => {
                lemma_seq1_len(CLElementView::CLOption(name, None));
            },
            None => {
                match spec_best_split(cfg, name) {
                    Some(p) => {
                        lemma_seq1_len(
                            CLElementView::CLOption(
                                name.take(p),
                                Some(spec_classify(name.skip(p + 1))),
                            ),
                        );
                    },
                    None => {
                        lemma_seq2_len(
                            CLElementView::ParsingError(Some(msg_unknown_string_option(name))),
                            CLElementView::CLOption(name, None),
                        );
                    },
                }
            },
        }
        assert(spec_step(cfg, tokens, idx).0.len() <= 2);
    } else if t.len() == 1 && spec_is_separator(cfg, t[0]) {
        lemma_seq1_len(CLElementView::CLSep(t[0]));
        assert(spec_step(cfg, tokens, idx).0.len() == 1);
    } else {
        match spec_capture(cfg.handle_quotes, tokens, idx) {
            Some(p) => {
                lemma_seq1_len(CLElementView::CLArgument(spec_classify(p.0)));
            },
            None => {
                lemma_seq1_len(CLElementView::ParsingError(Some(spec_capture_err(tokens, idx))));
            },
        }
        assert(spec_step(cfg, tokens, idx).0.len() <= 2);
    }
}

proof fn lemma_parse_from_linear(cfg: ParserConfig, tokens: Seq<Seq<char>>, idx: int)
    requires
        0 <= idx <= tokens.len(),
    ensures
        spec_parse_from(cfg, tokens, idx).len() <= 2 * total_chars_from(tokens, idx) + 2 * (
        tokens.len() - idx),
    decreases tokens.len() - idx,
{
    if idx < tokens.len() {
        let step = spec_step(cfg, tokens, idx);
        lemma_step_range(cfg, tokens, idx);
        lemma_step_len(cfg, tokens, idx);
        let next = step.1;
        lemma_parse_from_linear(cfg, tokens, next);
        lemma_total_chars_monotone(tokens, idx + 1, next);
        lemma_total_chars_nonneg(tokens, next);
        assert(total_chars_from(tokens, idx) == tokens[idx].len() + total_chars_from(
            tokens,
            idx + 1,
        ));
    }
}

/// The parse of any finite token sequence terminates — `spec_parse` is a
/// total function and the engine's cursor advances strictly — and its
/// output length is linear in the input: at most twice the total character
/// count plus twice the token count.
pub proof fn lemma_parse_output_linear(cfg: ParserConfig, tokens: Seq<Seq<char>>)
    ensures
        spec_parse(cfg, tokens).len() <= 2 * total_chars_from(tokens, 0) + 2 * tokens.len(),
{
    lemma_parse_from_linear(cfg, tokens, 0);
}

// ---------------------------------------------------------------------------
// Behaviour enrichment
// ---------------------------------------------------------------------------

/// The message enrichment reports for the first option whose behaviours
/// cannot be resolved.
pub open spec fn spec_behaviours_err(name: Seq<char>) -> Seq<char> {
    if name.len() == 1 {
        msg_unknown_char_option(name[0])
    } else {
        msg_unknown_string_option(name)
    }
}

/// The name of the first recognized option in `elems` whose behaviours the
/// grammar cannot resolve, if any.
pub open spec fn spec_first_unresolved(cfg: ParserConfig, elems: Seq<CLElementView>) -> Option<
    Seq<char>,
>
    decreases elems.len(),
{
    if elems.len() == 0 {
        None
    } else {
        match elems[0] {
            CLElementView::CLOption(name, _) => if spec_behaviours(cfg, name) is None {
                Some(name)
            } else {
                spec_first_unresolved(cfg, elems.skip(1))
            },
            _ => spec_first_unresolved(cfg, elems.skip(1)),
        }
    }
}

/// What enrichment makes of one element: a recognized option gains its
/// behaviour tags; everything else passes through unchanged.
pub open spec fn spec_enrich_elem(cfg: ParserConfig, e: CLElementView) -> CLElementView {
    match e {
        CLElementView::CLOption(name, arg) => match spec_behaviours(cfg, name) {
            Some(tags) => CLElementView::CLBehaviouredOption(name, tags, arg),
            None => e,
        },
        _ => e,
    }
}

/// Enrichment of a whole sequence: fails as a whole as soon as any one
/// option's behaviours cannot be resolved; on success, the program's
/// inherent behaviour tags (if declared) are prepended and every option is
/// replaced by its behavioured form.
pub open spec fn spec_enrich(cfg: ParserConfig, elems: Seq<CLElementView>) -> Result<
    Seq<CLElementView>,
    Seq<char>,
> {
    match spec_first_unresolved(cfg, elems) {
        Some(name) => Err(spec_behaviours_err(name)),
        None => Ok(
            (if cfg.config_file.behaviours@.len() > 0 {
                seq![CLElementView::CLInherentBehaviours(cfg.config_file.behaviours.deep_view())]
            } else {
                seq![]
            }) + elems.map_values(|e| spec_enrich_elem(cfg, e)),
        ),
    }
}

/// Enrichment never patches around a bad option: one unresolvable option
/// name fails the whole call, however many others would have resolved.
pub proof fn lemma_enrich_fail_fast(cfg: ParserConfig, elems: Seq<CLElementView>, i: int)
    requires
        0 <= i < elems.len(),
        elems[i] matches CLElementView::CLOption(name, _) && spec_behaviours(cfg, name) is None,
    ensures
        spec_enrich(cfg, elems) is Err,
    decreases elems.len(),
{
    if i > 0 {
        match elems[0] {
            CLElementView::CLOption(name, _) => {
                if spec_behaviours(cfg, name) is Some {
                    lemma_enrich_fail_fast(cfg, elems.skip(1), i - 1);
                }
            },
            _ => {
                lemma_enrich_fail_fast(cfg, elems.skip(1), i - 1);
            },
        }
    }
}

/// Attaches behaviour tags to a parsed sequence: prepends the program's
/// inherent tags when declared, and replaces every recognized option by
/// its behavioured form; fails as a whole on the first option whose
/// behaviours the grammar does not declare.
pub fn enrich(elements: &Vec<CLElement>, parser_config: &ParserConfig) -> (r: Result<
    Vec<CLElement>,
    String,
>)
    ensures
        match r {
            Ok(out) => spec_enrich(*parser_config, elements.deep_view()) == Ok::<_, Seq<char>>(
                out.deep_view(),
            ),
            Err(m) => spec_enrich(*parser_config, elements.deep_view()) == Err::<Seq<CLElementView>,
                _,
            >(m@),
        },
{
    let ghost whole = elements.deep_view();
    let ghost mapped = whole.map_values(|e| spec_enrich_elem(*parser_config, e));
    let ghost prefix: Seq<CLElementView> = if parser_config.config_file.behaviours@.len() > 0 {
        seq![
            CLElementView::CLInherentBehaviours(parser_config.config_file.behaviours.deep_view()),
        ]
    } else {
        seq![]
    };
    let mut out: Vec<CLElement> = Vec::new();
    if parser_config.config_file.behaviours.len() > 0 {
        push_elem(
            &mut out,
            CLElement::CLInherentBehaviours(
                crate::parser_config::clone_string_vec(&parser_config.config_file.behaviours),
            ),
        );
    }
    proof {
        assert(out.deep_view() =~= prefix);
        assert(whole.skip(0) =~= whole);
        assert(mapped.take(0) =~= Seq::<CLElementView>::empty());
        assert(prefix + Seq::<CLElementView>::empty() =~= prefix);
    }
    let n = elements.len();
    let mut i: usize = 0;
    while i < n
        invariant
            i <= n,
            n == whole.len(),
            whole == elements.deep_view(),
            mapped == whole.map_values(|e| spec_enrich_elem(*parser_config, e)),
            prefix == (if parser_config.config_file.behaviours@.len() > 0 {
                seq![
                    CLElementView::CLInherentBehaviours(
                        parser_config.config_file.behaviours.deep_view(),
                    ),
                ]
            } else {
                Seq::<CLElementView>::empty()
            }),
            spec_first_unresolved(*parser_config, whole) == spec_first_unresolved(
                *parser_config,
                whole.skip(i as int),
            ),
            out.deep_view() == prefix + mapped.take(i as int),
        decreases n - i,
    {
        let ghost out0 = out.deep_view();
        proof {
            assert(whole.skip(i as int)[0] == whole[i as int]);
            assert(whole.skip(i as int).skip(1) =~= whole.skip(i + 1));
            assert(mapped[i as int] == spec_enrich_elem(*parser_config, whole[i as int]));
        }
        let e = &elements[i];
        proof {
            assert(e@ == whole[i as int]);
        }
        match e {
            CLElement::CLOption(name, arg) => {
                match parser_config.get_behaviours(name) {
                    Ok(tags) => {
                        push_elem(
                            &mut out,
                            CLElement::CLBehaviouredOption(
                                name.clone(),
                                tags,
                                crate::parser_structs::clone_opt_argument(arg),
                            ),
                        );
                    },
                    Err(m) => {
                        return Err(m);
                    },
                }
            },
            _ => {
                push_elem(&mut out, crate::parser_structs::clone_element(e));
            },
        }
        i = i + 1;
        proof {
            assert(mapped.take(i as int) =~= mapped.take(i - 1).push(mapped[i - 1]));
            lemma_push_is_add1(prefix + mapped.take(i - 1), mapped[i - 1]);
            assert((prefix + mapped.take(i - 1)) + seq![mapped[i - 1]] =~= prefix + mapped.take(
                i as int,
            ));
            assert(out.deep_view() == prefix + mapped.take(i as int));
        }
    }
    proof {
        assert(mapped.take(n as int) =~= mapped);
    }
    Ok(out)
}

} // verus!
