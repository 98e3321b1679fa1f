//! General properties of the parser, stated and proved over the
//! specification functions that the executable parsers are verified
//! against.
use vstd::prelude::*;

use crate::nodes::DeclV;
use crate::parser::{
    decl_value_opts, selector_opts, spec_declaration, spec_selectors, spec_value, ParsingError,
};
use crate::scan::{
    block_closer, closer_char, emit_tok, opener_text, pending_closers, scan, scan_end, scan_stop,
    scan_text, skip_ws, ScanOpts, Stop,
};
use crate::text::{dec_digits, dec_int, digit_char, is_css_ws, ltrim, rtrim, trim};
use crate::token::Token;

verus! {

/// A scan reads only the tokens of its region: scanning `big` over the
/// window at `off` equals scanning `small` over the same tokens.
pub proof fn lemma_scan_shift(big: Seq<Token>, small: Seq<Token>, off: int, pos: int, end: int, stack: Seq<char>, dead: nat, o: ScanOpts, max: nat)
    requires
        0 <= off,
        0 <= pos <= end,
        end <= small.len(),
        off + end <= big.len(),
        forall|k: int| pos <= k < end ==> big[off + k] == small[k],
    ensures
        ({
            let sb = scan(big, off + pos, off + end, stack, dead, o, max);
            let ss = scan(small, pos, end, stack, dead, o, max);
            &&& sb.text == ss.text
            &&& sb.end == off + ss.end
            &&& sb.stop == ss.stop
            &&& sb.stack == ss.stack
            &&& sb.dead == ss.dead
        }),
    decreases end - pos,
{
    if pos < end {
        let t = small[pos];
        assert(big[off + pos] == t);
        match t {
            Token::Semicolon => {
                if o.stop_semi && dead == 0 {
                    if stack.len() > 0 {
                        lemma_scan_shift(big, small, off, pos + 1, end, stack, 1, o, max);
                    }
                } else {
                    lemma_scan_shift(big, small, off, pos + 1, end, stack, dead, o, max);
                }
            },
            Token::CurlyOpen => {
                if dead == 0 && stack.len() == 0 {
                } else if stack.len() >= max {
                } else if dead == 0 {
                    lemma_scan_shift(big, small, off, pos + 1, end, stack.push('}'), 2, o, max);
                } else {
                    lemma_scan_shift(big, small, off, pos + 1, end, stack.push('}'), dead + 1, o, max);
                }
            },
            Token::Comma => {
                if !(o.stop_comma && dead == 0 && stack.len() == 0) {
                    lemma_scan_shift(big, small, off, pos + 1, end, stack, dead, o, max);
                }
            },
            Token::Colon => {
                if !(o.stop_colon && dead == 0 && stack.len() == 0) {
                    lemma_scan_shift(big, small, off, pos + 1, end, stack, dead, o, max);
                }
            },
            Token::ParenOpen | Token::BracketOpen | Token::Function(_) => {
                if stack.len() < max {
                    if dead == 0 {
                        lemma_scan_shift(big, small, off, pos + 1, end, stack.push(block_closer(t)), 0, o, max);
                    } else {
                        lemma_scan_shift(big, small, off, pos + 1, end, stack.push(block_closer(t)), dead + 1, o, max);
                    }
                }
            },
            Token::CloseParen | Token::CloseBracket | Token::CloseCurly => {
                if stack.len() > 0 && stack.last() == closer_char(t) {
                    lemma_scan_shift(
                        big,
                        small,
                        off,
                        pos + 1,
                        end,
                        stack.drop_last(),
                        if dead > 0 { (dead - 1) as nat } else { 0 },
                        o,
                        max,
                    );
                } else {
                    lemma_scan_shift(big, small, off, pos + 1, end, stack, dead, o, max);
                }
            },
            _ => {
                lemma_scan_shift(big, small, off, pos + 1, end, stack, dead, o, max);
            },
        }
    }
}

/// A scan that exhausts `[pos, mid)` continues seamlessly into
/// `[mid, end)`: the wider scan is the two scans in sequence.
#[verifier::rlimit(100)]
#[verifier::spinoff_prover]
pub proof fn lemma_scan_extend(toks: Seq<Token>, pos: int, mid: int, end: int, stack: Seq<char>, dead: nat, o: ScanOpts, max: nat)
    requires
        0 <= pos <= mid <= end,
        end <= toks.len(),
        scan(toks, pos, mid, stack, dead, o, max).stop is End,
    ensures
        ({
            let s1 = scan(toks, pos, mid, stack, dead, o, max);
            let s2 = scan(toks, mid, end, s1.stack, s1.dead, o, max);
            let sw = scan(toks, pos, end, stack, dead, o, max);
            &&& sw.text == s1.text + s2.text
            &&& sw.end == s2.end
            &&& sw.stop == s2.stop
            &&& sw.stack == s2.stack
            &&& sw.dead == s2.dead
        }),
    decreases mid - pos,
{
    if pos == mid {
        let s1 = scan(toks, pos, mid, stack, dead, o, max);
        let s2 = scan(toks, mid, end, s1.stack, s1.dead, o, max);
        assert(s1.text + s2.text =~= s2.text);
    } else {
        let t = toks[pos];
        match t {
            Token::Semicolon => {
                if o.stop_semi && dead == 0 {
                    if stack.len() > 0 {
                        lemma_scan_extend(toks, pos + 1, mid, end, stack, 1, o, max);
                        let r1 = scan(toks, pos + 1, mid, stack, 1, o, max);
                        let r2 = scan(toks, mid, end, r1.stack, r1.dead, o, max);
                        assert((seq![stack.last()] + r1.text) + r2.text =~= seq![stack.last()] + (r1.text + r2.text));
                    }
                } else {
                    lemma_scan_extend(toks, pos + 1, mid, end, stack, dead, o, max);
                }
            },
            Token::CurlyOpen => {
                if dead == 0 && stack.len() == 0 {
                } else if stack.len() >= max {
                } else if dead == 0 {
                    lemma_scan_extend(toks, pos + 1, mid, end, stack.push('}'), 2, o, max);
                    let r1 = scan(toks, pos + 1, mid, stack.push('}'), 2, o, max);
                    let r2 = scan(toks, mid, end, r1.stack, r1.dead, o, max);
                    assert((seq![stack.last()] + r1.text) + r2.text =~= seq![stack.last()] + (r1.text + r2.text));
                } else {
                    lemma_scan_extend(toks, pos + 1, mid, end, stack.push('}'), dead + 1, o, max);
                }
            },
            Token::Comma => {
                if !(o.stop_comma && dead == 0 && stack.len() == 0) {
                    lemma_scan_extend(toks, pos + 1, mid, end, stack, dead, o, max);
                    if dead == 0 {
                        let r1 = scan(toks, pos + 1, mid, stack, dead, o, max);
                        let r2 = scan(toks, mid, end, r1.stack, r1.dead, o, max);
                        assert((seq![','] + r1.text) + r2.text =~= seq![','] + (r1.text + r2.text));
                    }
                }
            },
            Token::Colon => {
                if !(o.stop_colon && dead == 0 && stack.len() == 0) {
                    lemma_scan_extend(toks, pos + 1, mid, end, stack, dead, o, max);
                    if dead == 0 {
                        let r1 = scan(toks, pos + 1, mid, stack, dead, o, max);
                        let r2 = scan(toks, mid, end, r1.stack, r1.dead, o, max);
                        assert((seq![':'] + r1.text) + r2.text =~= seq![':'] + (r1.text + r2.text));
                    }
                }
            },
            Token::ParenOpen | Token::BracketOpen | Token::Function(_) => {
                if stack.len() < max {
                    if dead == 0 {
                        lemma_scan_extend(toks, pos + 1, mid, end, stack.push(block_closer(t)), 0, o, max);
                        let r1 = scan(toks, pos + 1, mid, stack.push(block_closer(t)), 0, o, max);
                        let r2 = scan(toks, mid, end, r1.stack, r1.dead, o, max);
                        assert((crate::scan::opener_text(t) + r1.text) + r2.text
                            =~= crate::scan::opener_text(t) + (r1.text + r2.text));
                    } else {
                        lemma_scan_extend(toks, pos + 1, mid, end, stack.push(block_closer(t)), dead + 1, o, max);
                    }
                }
            },
            Token::CloseParen | Token::CloseBracket | Token::CloseCurly => {
                if stack.len() > 0 && stack.last() == closer_char(t) {
                    let dead2: nat = if dead > 0 { (dead - 1) as nat } else { 0 };
                    lemma_scan_extend(toks, pos + 1, mid, end, stack.drop_last(), dead2, o, max);
                    if dead == 0 {
                        let r1 = scan(toks, pos + 1, mid, stack.drop_last(), dead2, o, max);
                        let r2 = scan(toks, mid, end, r1.stack, r1.dead, o, max);
                        assert((seq![closer_char(t)] + r1.text) + r2.text
                            =~= seq![closer_char(t)] + (r1.text + r2.text));
                    }
                } else {
                    lemma_scan_extend(toks, pos + 1, mid, end, stack, dead, o, max);
                }
            },
            _ => {
                lemma_scan_extend(toks, pos + 1, mid, end, stack, dead, o, max);
                if dead == 0 {
                    let r1 = scan(toks, pos + 1, mid, stack, dead, o, max);
                    let r2 = scan(toks, mid, end, r1.stack, r1.dead, o, max);
                    assert((emit_tok(t) + r1.text) + r2.text =~= emit_tok(t) + (r1.text + r2.text));
                }
            },
        }
    }
}

/// For every well-formed single declaration — an identifier, a colon, a
/// value run whose scan reaches the end of its region with every block
/// closed, and a terminating semicolon — parsing yields a declaration
/// whose property is the identifier's text and whose value is the
/// re-serialized run trimmed of surrounding whitespace, consuming the
/// whole input.
pub proof fn lemma_single_declaration(name: Vec<char>, vt: Seq<Token>, max: nat)
    requires
        ({
            let sv = scan(vt, 0, vt.len() as int, Seq::empty(), 0, decl_value_opts(), max);
            &&& sv.stop is End
            &&& sv.stack == Seq::<char>::empty()
            &&& sv.dead == 0
        }),
    ensures
        ({
            let toks = seq![Token::Ident(name), Token::Colon] + vt + seq![Token::Semicolon];
            spec_declaration(toks, 0, toks.len() as int, max) == Ok::<(DeclV, int), ParsingError>((
                DeclV {
                    property: name@,
                    value: trim(scan_text(vt, 0, vt.len() as int, decl_value_opts(), max)),
                },
                toks.len() as int,
            ))
        }),
{
    let toks = seq![Token::Ident(name), Token::Colon] + vt + seq![Token::Semicolon];
    let len = toks.len() as int;
    let mid = 2 + vt.len() as int;
    assert(toks[0] == Token::Ident(name));
    assert(toks[1] == Token::Colon);
    assert(toks[len - 1] == Token::Semicolon);
    assert(skip_ws(toks, 0, len) == 0);
    assert(skip_ws(toks, 1, len) == 1);
    let o = decl_value_opts();
    lemma_scan_shift(toks, vt, 2, 0, vt.len() as int, Seq::empty(), 0, o, max);
    let s1 = scan(toks, 2, mid, Seq::empty(), 0, o, max);
    let sv = scan(vt, 0, vt.len() as int, Seq::empty(), 0, o, max);
    assert(s1.text == sv.text && s1.stop is End && s1.stack == Seq::<char>::empty() && s1.dead == 0);
    lemma_scan_extend(toks, 2, mid, len, Seq::empty(), 0, o, max);
    let s2 = scan(toks, mid, len, s1.stack, s1.dead, o, max);
    assert(s2.stop == Stop::Semi && s2.end == len && s2.text == Seq::<char>::empty());
    let sw = scan(toks, 2, len, Seq::empty(), 0, o, max);
    assert(sw.text =~= sv.text);
    assert(sw.stop == Stop::Semi && sw.end == len);
    assert(scan_text(vt, 0, vt.len() as int, o, max) == sv.text);
    assert(scan_text(toks, 2, len, o, max) == sw.text);
}

/// Splitting a selector list treats only top-level commas as separators:
/// a run whose scan reaches a top-level curly opener or the region's end
/// without stopping at a comma — however many commas sit inside nested
/// blocks — is one single selector.
pub proof fn lemma_selectors_single_segment(toks: Seq<Token>, pos: int, end: int, max: nat)
    requires
        0 <= pos <= end,
        end <= toks.len(),
        scan_stop(toks, pos, end, selector_opts(), max) is Curly
            || scan_stop(toks, pos, end, selector_opts(), max) is End,
    ensures
        spec_selectors(toks, pos, end, max) == Ok::<(Seq<Seq<char>>, int), ParsingError>((
            seq![trim(scan_text(toks, pos, end, selector_opts(), max))],
            scan_end(toks, pos, end, selector_opts(), max),
        )),
{
}

/// Splitting a selector list at a top-level comma: when the first
/// segment's scan stops at a comma, the selector list is that segment,
/// trimmed, followed by the selectors parsed after the comma.
pub proof fn lemma_selectors_split_at_comma(toks: Seq<Token>, pos: int, end: int, max: nat)
    requires
        0 <= pos <= end,
        end <= toks.len(),
        scan_stop(toks, pos, end, selector_opts(), max) is Comma,
    ensures
        spec_selectors(toks, pos, end, max) == (match spec_selectors(
            toks,
            scan_end(toks, pos, end, selector_opts(), max) + 1,
            end,
            max,
        ) {
            Ok(rest) => Ok::<(Seq<Seq<char>>, int), ParsingError>((
                seq![trim(scan_text(toks, pos, end, selector_opts(), max))] + rest.0,
                rest.1,
            )),
            Err(e) => Err::<(Seq<Seq<char>>, int), ParsingError>(e),
        }),
{
}

/// A sequence of `n` parenthesis openers.
pub open spec fn parens(n: nat) -> Seq<Token>
    decreases n,
{
    if n == 0 {
        Seq::empty()
    } else {
        seq![Token::ParenOpen] + parens((n - 1) as nat)
    }
}

proof fn lemma_parens_all_openers(n: nat)
    ensures
        parens(n).len() == n,
        forall|k: int| 0 <= k < n ==> parens(n)[k] == Token::ParenOpen,
    decreases n,
{
    if n > 0 {
        lemma_parens_all_openers((n - 1) as nat);
    }
}

proof fn lemma_all_openers_too_deep(toks: Seq<Token>, pos: int, end: int, stack: Seq<char>, o: ScanOpts, max: nat)
    requires
        0 <= pos <= end,
        end <= toks.len(),
        forall|k: int| pos <= k < end ==> toks[k] == Token::ParenOpen,
        stack.len() <= max,
        end - pos > max - stack.len(),
    ensures
        scan(toks, pos, end, stack, 0, o, max).stop is TooDeep,
    decreases end - pos,
{
    assert(pos < end);
    assert(toks[pos] == Token::ParenOpen);
    if stack.len() < max {
        lemma_all_openers_too_deep(toks, pos + 1, end, stack.push(')'), o, max);
    }
}

/// The nesting-depth guard: an input that opens more nested blocks than
/// the configured maximum — here, any run of more than `max` openers —
/// fails with the dedicated nesting error rather than descending further.
pub proof fn lemma_nesting_guard(n: nat, max: nat)
    requires
        n > max,
    ensures
        spec_value(parens(n), 0, n as int, max) == Err::<(Seq<char>, int), ParsingError>(ParsingError::NestingTooDeep),
{
    lemma_parens_all_openers(n);
    lemma_all_openers_too_deep(parens(n), 0, n as int, Seq::empty(), crate::parser::value_opts(), max);
}

/// The bracket characters of the re-serializer's block structure.
pub open spec fn is_bracket(c: char) -> bool {
    c == '(' || c == ')' || c == '[' || c == ']' || c == '{' || c == '}'
}

/// Text that carries no bracket characters.
pub open spec fn clean_text(s: Seq<char>) -> bool {
    forall|i: int| 0 <= i < s.len() ==> !is_bracket(#[trigger] s[i])
}

/// A token whose own text carries no bracket characters, so that the
/// only brackets in re-serialized output are the ones block tokens
/// produce. An untokenized bracket (say, escaped inside an identifier)
/// is outside the nesting structure this module reasons about.
pub open spec fn tok_clean(t: Token) -> bool {
    match t {
        Token::Delim(c) => !is_bracket(c),
        Token::WhiteSpace(s) => clean_text(s@),
        Token::Ident(s) => clean_text(s@),
        Token::UnquotedUrl(s) => clean_text(s@),
        Token::Hash(s) => clean_text(s@),
        Token::IdHash(s) => clean_text(s@),
        Token::AtKeyword(s) => clean_text(s@),
        Token::QuotedString(s) => clean_text(s@),
        Token::Number { text, .. } => clean_text(text@),
        Token::Percentage { text, .. } => clean_text(text@),
        Token::Dimension { text, unit, .. } => clean_text(text@) && clean_text(unit@),
        Token::Function(name) => clean_text(name@),
        _ => true,
    }
}

/// Whether `s`, read left to right, closes exactly the pending closers
/// `stack` (innermost last) plus whatever blocks `s` itself opens, with
/// every closer matching the innermost open bracket.
pub open spec fn bal(s: Seq<char>, stack: Seq<char>) -> bool
    decreases s.len(),
{
    if s.len() == 0 {
        stack.len() == 0
    } else {
        let c = s[0];
        if c == '(' {
            bal(s.drop_first(), stack.push(')'))
        } else if c == '[' {
            bal(s.drop_first(), stack.push(']'))
        } else if c == '{' {
            bal(s.drop_first(), stack.push('}'))
        } else if c == ')' || c == ']' || c == '}' {
            stack.len() > 0 && stack.last() == c && bal(s.drop_first(), stack.drop_last())
        } else {
            bal(s.drop_first(), stack)
        }
    }
}

/// Balanced text: every opener has its matching closer, properly nested,
/// and no closer is unmatched.
pub open spec fn balanced(s: Seq<char>) -> bool {
    bal(s, Seq::empty())
}

proof fn lemma_bal_cons(c: char, s: Seq<char>, stack: Seq<char>)
    ensures
        c == '(' ==> bal(seq![c] + s, stack) == bal(s, stack.push(')')),
        c == '[' ==> bal(seq![c] + s, stack) == bal(s, stack.push(']')),
        c == '{' ==> bal(seq![c] + s, stack) == bal(s, stack.push('}')),
        (c == ')' || c == ']' || c == '}') ==> bal(seq![c] + s, stack)
            == (stack.len() > 0 && stack.last() == c && bal(s, stack.drop_last())),
        !is_bracket(c) ==> bal(seq![c] + s, stack) == bal(s, stack),
{
    assert((seq![c] + s)[0] == c);
    assert((seq![c] + s).drop_first() =~= s);
}

proof fn lemma_bal_clean_prefix(u: Seq<char>, s: Seq<char>, stack: Seq<char>)
    requires
        clean_text(u),
    ensures
        bal(u + s, stack) == bal(s, stack),
    decreases u.len(),
{
    if u.len() == 0 {
        assert(u + s =~= s);
    } else {
        assert(!is_bracket(u[0]));
        assert((u + s)[0] == u[0]);
        assert((u + s).drop_first() =~= u.drop_first() + s);
        assert(clean_text(u.drop_first())) by {
            assert forall|i: int| 0 <= i < u.drop_first().len() implies !is_bracket(#[trigger] u.drop_first()[i]) by {
                assert(u.drop_first()[i] == u[i + 1]);
            }
        }
        lemma_bal_clean_prefix(u.drop_first(), s, stack);
    }
}

proof fn lemma_bal_close_all(live: Seq<char>)
    requires
        forall|i: int| 0 <= i < live.len() ==> (#[trigger] live[i] == ')' || live[i] == ']' || live[i] == '}'),
    ensures
        bal(live.reverse(), live),
    decreases live.len(),
{
    if live.len() == 0 {
        assert(live.reverse().len() == 0);
    } else {
        let c = live.last();
        assert(live.reverse()[0] == c);
        assert(live.reverse().drop_first() =~= live.drop_last().reverse()) by {
            assert forall|i: int| 0 <= i < live.len() - 1 implies live.reverse().drop_first()[i]
                == live.drop_last().reverse()[i] by {
                assert(live.reverse().drop_first()[i] == live.reverse()[i + 1]);
                assert(live.reverse()[i + 1] == live[live.len() - 2 - i]);
                assert(live.drop_last().reverse()[i] == live.drop_last()[live.len() - 2 - i]);
            }
        }
        assert(forall|i: int| 0 <= i < live.drop_last().len()
            ==> (#[trigger] live.drop_last()[i] == ')' || live.drop_last()[i] == ']' || live.drop_last()[i] == '}'));
        lemma_bal_close_all(live.drop_last());
        assert(is_bracket(c));
        assert(bal(live.reverse(), live) == (live.len() > 0 && live.last() == c
            && bal(live.reverse().drop_first(), live.drop_last())));
    }
}

proof fn lemma_clean_concat(a: Seq<char>, b: Seq<char>)
    requires
        clean_text(a),
        clean_text(b),
    ensures
        clean_text(a + b),
{
    assert forall|i: int| 0 <= i < (a + b).len() implies !is_bracket(#[trigger] (a + b)[i]) by {
        if i < a.len() {
            assert((a + b)[i] == a[i]);
        } else {
            assert((a + b)[i] == b[i - a.len()]);
        }
    }
}

proof fn lemma_dec_digits_clean(n: nat)
    ensures
        clean_text(dec_digits(n)),
    decreases n,
{
    if n < 10 {
        assert(!is_bracket(digit_char(n)));
        assert forall|i: int| 0 <= i < dec_digits(n).len() implies !is_bracket(#[trigger] dec_digits(n)[i]) by {
            assert(dec_digits(n)[i] == digit_char(n));
        }
    } else {
        lemma_dec_digits_clean(n / 10);
        assert(clean_text(seq![digit_char(n % 10)])) by {
            assert(n % 10 < 10);
            assert(!is_bracket(digit_char(n % 10)));
            assert(seq![digit_char(n % 10)][0] == digit_char(n % 10));
        }
        lemma_clean_concat(dec_digits(n / 10), seq![digit_char(n % 10)]);
    }
}

proof fn lemma_dec_int_clean(n: int)
    ensures
        clean_text(dec_int(n)),
{
    if n < 0 {
        lemma_dec_digits_clean((-n) as nat);
        assert(clean_text(seq!['-'])) by {
            assert(seq!['-'][0] == '-');
        }
        lemma_clean_concat(seq!['-'], dec_digits((-n) as nat));
    } else {
        lemma_dec_digits_clean(n as nat);
    }
}

proof fn lemma_emit_clean(t: Token)
    requires
        tok_clean(t),
    ensures
        clean_text(emit_tok(t)),
{
    match t {
        Token::Delim(c) => {
            assert(emit_tok(t)[0] == c);
        },
        Token::Hash(s) => {
            lemma_clean_concat(seq!['#'], s@);
            assert(seq!['#'][0] == '#');
        },
        Token::IdHash(s) => {
            lemma_clean_concat(seq!['#'], s@);
            assert(seq!['#'][0] == '#');
        },
        Token::AtKeyword(s) => {
            lemma_clean_concat(seq!['@'], s@);
            assert(seq!['@'][0] == '@');
        },
        Token::QuotedString(s) => {
            lemma_clean_concat(seq!['\''], s@);
            lemma_clean_concat(seq!['\''] + s@, seq!['\'']);
        },
        Token::Number { int_value, text } => {
            match int_value {
                Some(n) => lemma_dec_int_clean(n as int),
                None => {},
            }
        },
        Token::Percentage { int_value, text } => {
            match int_value {
                Some(n) => {
                    lemma_dec_int_clean(n as int);
                    lemma_clean_concat(dec_int(n as int), seq!['%']);
                },
                None => {
                    lemma_clean_concat(text@, seq!['%']);
                },
            }
        },
        Token::Dimension { int_value, text, unit } => {
            match int_value {
                Some(n) => {
                    lemma_dec_int_clean(n as int);
                    lemma_clean_concat(dec_int(n as int), unit@);
                },
                None => {
                    lemma_clean_concat(text@, unit@);
                },
            }
        },
        _ => {},
    }
}

/// The heart of the balance law: from any block state whose pending
/// closers are bracket closers, a scan over bracket-free tokens emits
/// text that closes exactly the live pending closers — together with the
/// closers appended at exhaustion — with proper nesting throughout.
#[verifier::rlimit(100)]
#[verifier::spinoff_prover]
proof fn lemma_scan_bal(toks: Seq<Token>, pos: int, end: int, stack: Seq<char>, dead: nat, o: ScanOpts, max: nat)
    requires
        0 <= pos,
        dead <= stack.len(),
        forall|k: int| pos <= k < end ==> tok_clean(#[trigger] toks[k]),
        forall|i: int| 0 <= i < stack.len() ==> (#[trigger] stack[i] == ')' || stack[i] == ']' || stack[i] == '}'),
    ensures
        ({
            let s = scan(toks, pos, end, stack, dead, o, max);
            let live = stack.take(stack.len() - dead);
            &&& (s.stop is End ==> bal(s.text + pending_closers(s.stack, s.dead), live))
            &&& ((s.stop is Semi || s.stop is Curly || s.stop is Comma || s.stop is Colon) ==> bal(s.text, live))
        }),
    decreases end - pos,
{
    let s = scan(toks, pos, end, stack, dead, o, max);
    let live = stack.take(stack.len() - dead);
    assert(forall|i: int| 0 <= i < live.len()
        ==> (#[trigger] live[i] == ')' || live[i] == ']' || live[i] == '}'));
    if !(0 <= pos < end && end <= toks.len()) {
        lemma_bal_close_all(live);
        assert(s.text + pending_closers(s.stack, s.dead) =~= live.reverse());
    } else {
        let t = toks[pos];
        assert(tok_clean(t));
        match t {
            Token::Semicolon => {
                if o.stop_semi && dead == 0 {
                    if stack.len() == 0 {
                        assert(live.len() == 0);
                        assert(bal(s.text, live));
                    } else {
                        let c = stack.last();
                        lemma_scan_bal(toks, pos + 1, end, stack, 1, o, max);
                        let r = scan(toks, pos + 1, end, stack, 1, o, max);
                        let live1 = stack.take(stack.len() - 1);
                        assert(live =~= stack);
                        assert(live1 =~= stack.drop_last());
                        lemma_bal_cons(c, r.text + pending_closers(r.stack, r.dead), live);
                        lemma_bal_cons(c, r.text, live);
                        if r.stop is End {
                            assert(s.text + pending_closers(s.stack, s.dead)
                                =~= seq![c] + (r.text + pending_closers(r.stack, r.dead)));
                        }
                    }
                } else {
                    lemma_scan_bal(toks, pos + 1, end, stack, dead, o, max);
                }
            },
            Token::CurlyOpen => {
                if dead == 0 && stack.len() == 0 {
                    assert(live.len() == 0);
                    assert(bal(s.text, live));
                } else if stack.len() >= max {
                } else if dead == 0 {
                    let c = stack.last();
                    lemma_scan_bal(toks, pos + 1, end, stack.push('}'), 2, o, max);
                    let r = scan(toks, pos + 1, end, stack.push('}'), 2, o, max);
                    let live1 = stack.push('}').take(stack.push('}').len() - 2);
                    assert(live =~= stack);
                    assert(live1 =~= stack.drop_last());
                    lemma_bal_cons(c, r.text + pending_closers(r.stack, r.dead), live);
                    lemma_bal_cons(c, r.text, live);
                    if r.stop is End {
                        assert(s.text + pending_closers(s.stack, s.dead)
                            =~= seq![c] + (r.text + pending_closers(r.stack, r.dead)));
                    }
                } else {
                    lemma_scan_bal(toks, pos + 1, end, stack.push('}'), dead + 1, o, max);
                    let live1 = stack.push('}').take(stack.push('}').len() - (dead + 1));
                    assert(live1 =~= live);
                }
            },
            Token::Comma => {
                if o.stop_comma && dead == 0 && stack.len() == 0 {
                    assert(live.len() == 0);
                    assert(bal(s.text, live));
                } else {
                    lemma_scan_bal(toks, pos + 1, end, stack, dead, o, max);
                    if dead == 0 {
                        let r = scan(toks, pos + 1, end, stack, dead, o, max);
                        lemma_bal_cons(',', r.text + pending_closers(r.stack, r.dead), live);
                        lemma_bal_cons(',', r.text, live);
                        if r.stop is End {
                            assert(s.text + pending_closers(s.stack, s.dead)
                                =~= seq![','] + (r.text + pending_closers(r.stack, r.dead)));
                        }
                    }
                }
            },
            Token::Colon => {
                if o.stop_colon && dead == 0 && stack.len() == 0 {
                    assert(live.len() == 0);
                    assert(bal(s.text, live));
                } else {
                    lemma_scan_bal(toks, pos + 1, end, stack, dead, o, max);
                    if dead == 0 {
                        let r = scan(toks, pos + 1, end, stack, dead, o, max);
                        lemma_bal_cons(':', r.text + pending_closers(r.stack, r.dead), live);
                        lemma_bal_cons(':', r.text, live);
                        if r.stop is End {
                            assert(s.text + pending_closers(s.stack, s.dead)
                                =~= seq![':'] + (r.text + pending_closers(r.stack, r.dead)));
                        }
                    }
                }
            },
            Token::ParenOpen | Token::BracketOpen | Token::Function(_) => {
                if stack.len() >= max {
                } else {
                    let cc = block_closer(t);
                    lemma_scan_bal(toks, pos + 1, end, stack.push(cc), if dead == 0 { 0 } else { dead + 1 }, o, max);
                    let r = scan(toks, pos + 1, end, stack.push(cc), if dead == 0 { 0 } else { dead + 1 }, o, max);
                    if dead == 0 {
                        let live1 = stack.push(cc).take(stack.push(cc).len() - 0);
                        assert(live =~= stack);
                        assert(live1 =~= stack.push(cc));
                        assert(live1 =~= live.push(cc));
                        let oc: char = if t is BracketOpen { '[' } else { '(' };
                        let name: Seq<char> = match t {
                            Token::Function(nm) => nm@,
                            _ => Seq::empty(),
                        };
                        assert(clean_text(name));
                        assert(opener_text(t) =~= name + seq![oc]);
                        lemma_bal_cons(oc, r.text + pending_closers(r.stack, r.dead), live);
                        lemma_bal_cons(oc, r.text, live);
                        lemma_bal_clean_prefix(name, seq![oc] + (r.text + pending_closers(r.stack, r.dead)), live);
                        lemma_bal_clean_prefix(name, seq![oc] + r.text, live);
                        if r.stop is End {
                            assert(s.text + pending_closers(s.stack, s.dead)
                                =~= name + (seq![oc] + (r.text + pending_closers(r.stack, r.dead))));
                        } else {
                            assert(s.text =~= name + (seq![oc] + r.text));
                        }
                    } else {
                        let live1 = stack.push(cc).take(stack.push(cc).len() - (dead + 1));
                        assert(live1 =~= live);
                    }
                }
            },
            Token::CloseParen | Token::CloseBracket | Token::CloseCurly => {
                let c = closer_char(t);
                if stack.len() > 0 && stack.last() == c {
                    let dead2: nat = if dead > 0 { (dead - 1) as nat } else { 0 };
                    lemma_scan_bal(toks, pos + 1, end, stack.drop_last(), dead2, o, max);
                    let r = scan(toks, pos + 1, end, stack.drop_last(), dead2, o, max);
                    let live1 = stack.drop_last().take(stack.drop_last().len() - dead2);
                    if dead == 0 {
                        assert(live =~= stack);
                        assert(live1 =~= stack.drop_last());
                        lemma_bal_cons(c, r.text + pending_closers(r.stack, r.dead), live);
                        lemma_bal_cons(c, r.text, live);
                        if r.stop is End {
                            assert(s.text + pending_closers(s.stack, s.dead)
                                =~= seq![c] + (r.text + pending_closers(r.stack, r.dead)));
                        }
                    } else {
                        assert(live1 =~= live);
                    }
                } else {
                    lemma_scan_bal(toks, pos + 1, end, stack, dead, o, max);
                }
            },
            _ => {
                lemma_scan_bal(toks, pos + 1, end, stack, dead, o, max);
                if dead == 0 {
                    let r = scan(toks, pos + 1, end, stack, dead, o, max);
                    lemma_emit_clean(t);
                    lemma_bal_clean_prefix(emit_tok(t), r.text + pending_closers(r.stack, r.dead), live);
                    lemma_bal_clean_prefix(emit_tok(t), r.text, live);
                    if r.stop is End {
                        assert(s.text + pending_closers(s.stack, s.dead)
                            =~= emit_tok(t) + (r.text + pending_closers(r.stack, r.dead)));
                    }
                }
            },
        }
    }
}

/// For every token run whose own text is bracket-free — so the only
/// brackets come from block tokens — a re-serialization that did not hit
/// the depth guard yields text whose parentheses, brackets and braces
/// are balanced: every opener the re-serializer emitted is closed, in
/// order, and no closer is unmatched.
pub proof fn lemma_scan_text_balanced(toks: Seq<Token>, pos: int, end: int, o: ScanOpts, max: nat)
    requires
        0 <= pos,
        forall|k: int| pos <= k < end ==> tok_clean(#[trigger] toks[k]),
        !(scan_stop(toks, pos, end, o, max) is TooDeep),
    ensures
        balanced(scan_text(toks, pos, end, o, max)),
{
    lemma_scan_bal(toks, pos, end, Seq::empty(), 0, o, max);
    assert(Seq::<char>::empty().take(0) =~= Seq::<char>::empty());
}

proof fn lemma_bal_drop_last_clean(s: Seq<char>, stack: Seq<char>)
    requires
        s.len() > 0,
        !is_bracket(s.last()),
    ensures
        bal(s, stack) == bal(s.drop_last(), stack),
    decreases s.len(),
{
    if s.len() == 1 {
        assert(s.drop_last().len() == 0);
        assert(!is_bracket(s[0]));
        assert(s.drop_first().len() == 0);
        assert(bal(s.drop_first(), stack) == (stack.len() == 0));
        assert(bal(s, stack) == (stack.len() == 0));
        assert(bal(s.drop_last(), stack) == (stack.len() == 0));
    } else {
        assert(s.drop_last()[0] == s[0]);
        assert(s.drop_first().drop_last() =~= s.drop_last().drop_first());
        assert(s.drop_first().last() == s.last());
        assert(s.drop_first().len() > 0);
        assert(s.drop_last().len() > 0);
        let c = s[0];
        if c == '(' {
            lemma_bal_drop_last_clean(s.drop_first(), stack.push(')'));
            assert(bal(s, stack) == bal(s.drop_first(), stack.push(')')));
            assert(bal(s.drop_last(), stack) == bal(s.drop_last().drop_first(), stack.push(')')));
        } else if c == '[' {
            lemma_bal_drop_last_clean(s.drop_first(), stack.push(']'));
            assert(bal(s, stack) == bal(s.drop_first(), stack.push(']')));
            assert(bal(s.drop_last(), stack) == bal(s.drop_last().drop_first(), stack.push(']')));
        } else if c == '{' {
            lemma_bal_drop_last_clean(s.drop_first(), stack.push('}'));
            assert(bal(s, stack) == bal(s.drop_first(), stack.push('}')));
            assert(bal(s.drop_last(), stack) == bal(s.drop_last().drop_first(), stack.push('}')));
        } else if c == ')' || c == ']' || c == '}' {
            if stack.len() > 0 && stack.last() == c {
                lemma_bal_drop_last_clean(s.drop_first(), stack.drop_last());
                assert(bal(s, stack) == bal(s.drop_first(), stack.drop_last()));
                assert(bal(s.drop_last(), stack) == bal(s.drop_last().drop_first(), stack.drop_last()));
            } else {
                assert(!bal(s, stack));
                assert(!bal(s.drop_last(), stack));
            }
        } else {
            lemma_bal_drop_last_clean(s.drop_first(), stack);
            assert(bal(s, stack) == bal(s.drop_first(), stack));
            assert(bal(s.drop_last(), stack) == bal(s.drop_last().drop_first(), stack));
        }
    }
}

/// Trimming whitespace neither makes nor breaks balance.
pub proof fn lemma_balanced_trim(s: Seq<char>)
    ensures
        balanced(trim(s)) == balanced(s),
{
    lemma_balanced_ltrim(s);
    lemma_balanced_rtrim(ltrim(s));
}

proof fn lemma_balanced_ltrim(s: Seq<char>)
    ensures
        balanced(ltrim(s)) == balanced(s),
    decreases s.len(),
{
    if s.len() > 0 && is_css_ws(s[0]) {
        assert(!is_bracket(s[0]));
        lemma_balanced_ltrim(s.drop_first());
    }
}

proof fn lemma_balanced_rtrim(s: Seq<char>)
    ensures
        balanced(rtrim(s)) == balanced(s),
    decreases s.len(),
{
    if s.len() > 0 && is_css_ws(s.last()) {
        assert(!is_bracket(s.last()));
        lemma_bal_drop_last_clean(s, Seq::empty());
        lemma_balanced_rtrim(s.drop_last());
    }
}

/// For every input of bracket-free tokens on which value parsing
/// succeeds, the reconstructed value text has balanced openers and
/// closers: the round trip through block tokens keeps the nesting
/// structure intact.
pub proof fn lemma_value_balanced(toks: Seq<Token>, pos: int, end: int, max: nat)
    requires
        0 <= pos,
        forall|k: int| pos <= k < end ==> tok_clean(#[trigger] toks[k]),
    ensures
        (match spec_value(toks, pos, end, max) {
            Ok(r) => balanced(r.0),
            Err(_) => true,
        }),
{
    if !(scan_stop(toks, pos, end, crate::parser::value_opts(), max) is TooDeep) {
        lemma_scan_text_balanced(toks, pos, end, crate::parser::value_opts(), max);
        lemma_balanced_trim(scan_text(toks, pos, end, crate::parser::value_opts(), max));
    }
}

} // verus!
