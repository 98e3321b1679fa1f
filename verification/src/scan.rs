//! The token re-serializer: a single scan over a flat token sequence that
//! rebuilds the literal text the tokens spell, descending into nested
//! blocks and re-emitting their matching closers.
//!
//! The scan keeps a stack of the closers of the blocks it has opened. A
//! semicolon or curly opener met inside a nested block cuts that block's
//! text short: the block's closer is emitted at once and the block's
//! remaining tokens are skipped. While skipping, the innermost `dead`
//! frames of the stack belong to blocks whose tokens are being discarded.
use vstd::prelude::*;

use crate::text::{dec_int, push_dec_i32};
use crate::token::Token;

verus! {

/// Why a scan stopped.
#[derive(Clone, Copy, Debug, PartialEq, Eq)]
pub enum Stop {
    /// A top-level semicolon (consumed).
    Semi,
    /// A top-level curly-bracket block opener.
    Curly,
    /// A top-level comma (left in place), when commas delimit the scan.
    Comma,
    /// A top-level colon (left in place), when colons delimit the scan.
    Colon,
    /// The scanned region was exhausted.
    End,
    /// Entering one more nested block would exceed the depth limit.
    TooDeep,
}

/// Which tokens end a scan at nesting depth zero.
#[derive(Clone, Copy, Debug)]
pub struct ScanOpts {
    /// Stop at a top-level semicolon, consuming it.
    pub stop_semi: bool,
    /// Stop before a top-level comma.
    pub stop_comma: bool,
    /// Stop before a top-level colon.
    pub stop_colon: bool,
    /// Whether a stopping curly opener is consumed (a value run) or left
    /// for the caller to reparse (a selector run).
    pub curly_consume: bool,
}

/// The matching closer of a non-curly block opener.
pub open spec fn block_closer(t: Token) -> char {
    match t {
        Token::BracketOpen => ']',
        _ => ')',
    }
}

/// The text a block opener emits.
pub open spec fn opener_text(t: Token) -> Seq<char> {
    match t {
        Token::ParenOpen => seq!['('],
        Token::BracketOpen => seq!['['],
        Token::Function(name) => name@ + seq!['('],
        _ => Seq::empty(),
    }
}

/// The character a closer token spells.
pub open spec fn closer_char(t: Token) -> char {
    match t {
        Token::CloseParen => ')',
        Token::CloseBracket => ']',
        _ => '}',
    }
}

/// The text one plain (non-block, non-stopping) token emits: the literal
/// form each recognized token kind spells. Unrecognized kinds emit nothing.
pub open spec fn emit_tok(t: Token) -> Seq<char> {
    match t {
        Token::Delim(c) => seq![c],
        Token::WhiteSpace(s) => s@,
        Token::Comma => seq![','],
        Token::Ident(s) => s@,
        Token::UnquotedUrl(s) => s@,
        Token::Hash(s) => seq!['#'] + s@,
        Token::IdHash(s) => seq!['#'] + s@,
        Token::AtKeyword(s) => seq!['@'] + s@,
        Token::QuotedString(s) => seq!['\''] + s@ + seq!['\''],
        Token::Colon => seq![':'],
        Token::IncludeMatch => seq!['~', '='],
        Token::DashMatch => seq!['|', '='],
        Token::PrefixMatch => seq!['^', '='],
        Token::SuffixMatch => seq!['$', '='],
        Token::SubstringMatch => seq!['*', '='],
        Token::Number { int_value, text } => match int_value {
            Some(n) => dec_int(n as int),
            None => text@,
        },
        Token::Percentage { int_value, text } => (match int_value {
            Some(n) => dec_int(n as int),
            None => text@,
        }) + seq!['%'],
        Token::Dimension { int_value, text, unit } => (match int_value {
            Some(n) => dec_int(n as int),
            None => text@,
        }) + unit@,
        _ => Seq::empty(),
    }
}

/// The state and output of a scan: the text emitted from the scanned
/// region, the position and reason of the stop, and the closers of blocks
/// still open (innermost last), of which the innermost `dead` belong to
/// blocks being skipped.
pub ghost struct Scan {
    pub text: Seq<char>,
    pub end: int,
    pub stop: Stop,
    pub stack: Seq<char>,
    pub dead: nat,
}

/// Re-serializes `toks[pos..end)` starting with the given block state.
/// Stopping tokens act only at depth zero; inside a block they either cut
/// the block short (semicolon, curly opener) or count as plain text.
pub open spec fn scan(toks: Seq<Token>, pos: int, end: int, stack: Seq<char>, dead: nat, o: ScanOpts, max: nat) -> Scan
    decreases end - pos,
{
    if !(0 <= pos < end && end <= toks.len()) {
        Scan { text: Seq::empty(), end: pos, stop: Stop::End, stack, dead }
    } else {
        let t = toks[pos];
        match t {
            Token::Semicolon => {
                if o.stop_semi && dead == 0 {
                    if stack.len() == 0 {
                        Scan { text: Seq::empty(), end: pos + 1, stop: Stop::Semi, stack, dead }
                    } else {
                        let r = scan(toks, pos + 1, end, stack, 1, o, max);
                        Scan { text: seq![stack.last()] + r.text, end: r.end, stop: r.stop, stack: r.stack, dead: r.dead }
                    }
                } else {
                    scan(toks, pos + 1, end, stack, dead, o, max)
                }
            },
            Token::CurlyOpen => {
                if dead == 0 && stack.len() == 0 {
                    Scan {
                        text: Seq::empty(),
                        end: if o.curly_consume { pos + 1 } else { pos },
                        stop: Stop::Curly,
                        stack,
                        dead,
                    }
                } else if stack.len() >= max {
                    Scan { text: Seq::empty(), end: pos, stop: Stop::TooDeep, stack, dead }
                } else if dead == 0 {
                    let r = scan(toks, pos + 1, end, stack.push('}'), 2, o, max);
                    Scan { text: seq![stack.last()] + r.text, end: r.end, stop: r.stop, stack: r.stack, dead: r.dead }
                } else {
                    scan(toks, pos + 1, end, stack.push('}'), dead + 1, o, max)
                }
            },
            Token::Comma => {
                if o.stop_comma && dead == 0 && stack.len() == 0 {
                    Scan { text: Seq::empty(), end: pos, stop: Stop::Comma, stack, dead }
                } else if dead == 0 {
                    let r = scan(toks, pos + 1, end, stack, dead, o, max);
                    Scan { text: seq![','] + r.text, end: r.end, stop: r.stop, stack: r.stack, dead: r.dead }
                } else {
                    scan(toks, pos + 1, end, stack, dead, o, max)
                }
            },
            Token::Colon => {
                if o.stop_colon && dead == 0 && stack.len() == 0 {
                    Scan { text: Seq::empty(), end: pos, stop: Stop::Colon, stack, dead }
                } else if dead == 0 {
                    let r = scan(toks, pos + 1, end, stack, dead, o, max);
                    Scan { text: seq![':'] + r.text, end: r.end, stop: r.stop, stack: r.stack, dead: r.dead }
                } else {
                    scan(toks, pos + 1, end, stack, dead, o, max)
                }
            },
            Token::ParenOpen | Token::BracketOpen | Token::Function(_) => {
                if stack.len() >= max {
                    Scan { text: Seq::empty(), end: pos, stop: Stop::TooDeep, stack, dead }
                } else if dead == 0 {
                    let r = scan(toks, pos + 1, end, stack.push(block_closer(t)), 0, o, max);
                    Scan { text: opener_text(t) + r.text, end: r.end, stop: r.stop, stack: r.stack, dead: r.dead }
                } else {
                    scan(toks, pos + 1, end, stack.push(block_closer(t)), dead + 1, o, max)
                }
            },
            Token::CloseParen | Token::CloseBracket | Token::CloseCurly => {
                if stack.len() > 0 && stack.last() == closer_char(t) {
                    let r = scan(
                        toks,
                        pos + 1,
                        end,
                        stack.drop_last(),
                        if dead > 0 { (dead - 1) as nat } else { 0 },
                        o,
                        max,
                    );
                    if dead == 0 {
                        Scan { text: seq![closer_char(t)] + r.text, end: r.end, stop: r.stop, stack: r.stack, dead: r.dead }
                    } else {
                        r
                    }
                } else {
                    scan(toks, pos + 1, end, stack, dead, o, max)
                }
            },
            _ => {
                if dead == 0 {
                    let r = scan(toks, pos + 1, end, stack, dead, o, max);
                    Scan { text: emit_tok(t) + r.text, end: r.end, stop: r.stop, stack: r.stack, dead: r.dead }
                } else {
                    scan(toks, pos + 1, end, stack, dead, o, max)
                }
            },
        }
    }
}

/// The closers still owed when a scope is exhausted: those of the live
/// (not skipped) open blocks, innermost first.
pub open spec fn pending_closers(stack: Seq<char>, dead: nat) -> Seq<char> {
    if dead <= stack.len() {
        stack.take(stack.len() - dead).reverse()
    } else {
        Seq::empty()
    }
}

/// The full text of a value run from `pos` in `toks[pos..end)`: the
/// emitted text, with the closers of still-open blocks appended when the
/// region was exhausted with blocks open.
pub open spec fn scan_text(toks: Seq<Token>, pos: int, end: int, o: ScanOpts, max: nat) -> Seq<char> {
    let s = scan(toks, pos, end, Seq::empty(), 0, o, max);
    if s.stop is End {
        s.text + pending_closers(s.stack, s.dead)
    } else {
        s.text
    }
}

/// The position where a value run from `pos` stops.
pub open spec fn scan_end(toks: Seq<Token>, pos: int, end: int, o: ScanOpts, max: nat) -> int {
    scan(toks, pos, end, Seq::empty(), 0, o, max).end
}

/// The reason a value run from `pos` stops.
pub open spec fn scan_stop(toks: Seq<Token>, pos: int, end: int, o: ScanOpts, max: nat) -> Stop {
    scan(toks, pos, end, Seq::empty(), 0, o, max).stop
}

/// A scan never moves the cursor backwards, nor past the region's end.
pub proof fn lemma_scan_end_bounds(toks: Seq<Token>, pos: int, end: int, stack: Seq<char>, dead: nat, o: ScanOpts, max: nat)
    requires
        0 <= pos,
    ensures
        pos <= scan(toks, pos, end, stack, dead, o, max).end,
        scan(toks, pos, end, stack, dead, o, max).end <= (if end <= toks.len() && pos <= end { end } else { pos }),
    decreases end - pos,
{
    if 0 <= pos < end && end <= toks.len() {
        let t = toks[pos];
        match t {
            Token::Semicolon => {
                if o.stop_semi && dead == 0 {
                    if stack.len() > 0 {
                        lemma_scan_end_bounds(toks, pos + 1, end, stack, 1, o, max);
                    }
                } else {
                    lemma_scan_end_bounds(toks, pos + 1, end, stack, dead, o, max);
                }
            },
            Token::CurlyOpen => {
                if dead == 0 && stack.len() == 0 {
                } else if stack.len() >= max {
                } else if dead == 0 {
                    lemma_scan_end_bounds(toks, pos + 1, end, stack.push('}'), 2, o, max);
                } else {
                    lemma_scan_end_bounds(toks, pos + 1, end, stack.push('}'), dead + 1, o, max);
                }
            },
            Token::Comma => {
                if !(o.stop_comma && dead == 0 && stack.len() == 0) {
                    lemma_scan_end_bounds(toks, pos + 1, end, stack, dead, o, max);
                }
            },
            Token::Colon => {
                if !(o.stop_colon && dead == 0 && stack.len() == 0) {
                    lemma_scan_end_bounds(toks, pos + 1, end, stack, dead, o, max);
                }
            },
            Token::ParenOpen | Token::BracketOpen | Token::Function(_) => {
                if stack.len() < max {
                    if dead == 0 {
                        lemma_scan_end_bounds(toks, pos + 1, end, stack.push(block_closer(t)), 0, o, max);
                    } else {
                        lemma_scan_end_bounds(toks, pos + 1, end, stack.push(block_closer(t)), dead + 1, o, max);
                    }
                }
            },
            Token::CloseParen | Token::CloseBracket | Token::CloseCurly => {
                if stack.len() > 0 && stack.last() == closer_char(t) {
                    lemma_scan_end_bounds(
                        toks,
                        pos + 1,
                        end,
                        stack.drop_last(),
                        if dead > 0 { (dead - 1) as nat } else { 0 },
                        o,
                        max,
                    );
                } else {
                    lemma_scan_end_bounds(toks, pos + 1, end, stack, dead, o, max);
                }
            },
            _ => {
                lemma_scan_end_bounds(toks, pos + 1, end, stack, dead, o, max);
            },
        }
    }
}

/// Appends all of `s` to `acc`.
pub(crate) fn push_all(acc: &mut Vec<char>, s: &Vec<char>)
    ensures
        final(acc)@ == old(acc)@ + s@,
{
    let mut k: usize = 0;
    while k < s.len()
        invariant
            k <= s@.len(),
            acc@ == old(acc)@ + s@.take(k as int),
        decreases s@.len() - k,
    {
        acc.push(s[k]);
        k = k + 1;
        proof {
            assert(acc@ =~= old(acc)@ + s@.take(k as int));
        }
    }
    proof {
        assert(old(acc)@ + s@.take(s@.len() as int) =~= old(acc)@ + s@);
    }
}


/// The tokens that can end a scan at depth zero or cut a block short.
pub open spec fn is_stopper(t: Token) -> bool {
    t is Semicolon || t is CurlyOpen || t is Comma || t is Colon
}

/// The non-curly block openers.
pub open spec fn is_opener(t: Token) -> bool {
    t is ParenOpen || t is BracketOpen || t is Function
}

/// The block closers.
pub open spec fn is_closer(t: Token) -> bool {
    t is CloseParen || t is CloseBracket || t is CloseCurly
}

/// What one scan step guarantees when it did not stop: the cursor moved
/// one token, and text moved from the spec scan to the accumulator.
pub(crate) open spec fn step_go(
    toks: Seq<Token>, end: int, o: ScanOpts, max: nat,
    i0: int, acc0: Seq<char>, st0: Seq<char>, dd0: nat,
    i1: int, acc1: Seq<char>, st1: Seq<char>, dd1: nat,
) -> bool {
    let sc0 = scan(toks, i0, end, st0, dd0, o, max);
    let sc1 = scan(toks, i1, end, st1, dd1, o, max);
    &&& i1 == i0 + 1
    &&& acc0 + sc0.text == acc1 + sc1.text
    &&& sc0.end == sc1.end
    &&& sc0.stop == sc1.stop
    &&& sc0.stack == sc1.stack
    &&& sc0.dead == sc1.dead
}

/// What one scan step guarantees when it stopped with reason `st`.
pub(crate) open spec fn step_halt(
    toks: Seq<Token>, end: int, o: ScanOpts, max: nat,
    i0: int, st0: Seq<char>, dd0: nat, i1: int, st: Stop,
) -> bool {
    let sc0 = scan(toks, i0, end, st0, dd0, o, max);
    &&& sc0.text == Seq::<char>::empty()
    &&& sc0.stop == st
    &&& sc0.end == i1
    &&& sc0.stack == st0
    &&& sc0.dead == dd0
}

/// One scan step for a semicolon, curly opener, comma or colon.
fn step_stop(toks: &Vec<Token>, i: &mut usize, end: usize, acc: &mut Vec<char>, stack: &mut Vec<char>, dead: &mut usize, o: ScanOpts, max: usize) -> (br: Option<Stop>)
    requires
        *old(i) < end,
        end <= toks@.len(),
        *old(dead) as nat <= old(stack)@.len(),
        is_stopper(toks@[*old(i) as int]),
    ensures
        *final(dead) as nat <= final(stack)@.len(),
        *old(i) <= *final(i) <= end,
        match br {
            None => step_go(
                toks@, end as int, o, max as nat,
                *old(i) as int, old(acc)@, old(stack)@, *old(dead) as nat,
                *final(i) as int, final(acc)@, final(stack)@, *final(dead) as nat,
            ),
            Some(st) => {
                &&& final(acc)@ == old(acc)@
                &&& final(stack)@ == old(stack)@
                &&& *final(dead) == *old(dead)
                &&& step_halt(toks@, end as int, o, max as nat, *old(i) as int, old(stack)@, *old(dead) as nat, *final(i) as int, st)
            },
        },
{
    let ghost i0 = *i as int;
    let ghost st0 = stack@;
    let ghost dd0 = *dead as nat;
    let ghost acc0 = acc@;
    let ghost sc0 = scan(toks@, i0, end as int, st0, dd0, o, max as nat);
    match &toks[*i] {
        Token::Semicolon => {
            if o.stop_semi && *dead == 0 {
                if stack.len() == 0 {
                    *i = *i + 1;
                    Some(Stop::Semi)
                } else {
                    let c = stack[stack.len() - 1];
                    acc.push(c);
                    *dead = 1;
                    *i = *i + 1;
                    proof {
                        let sc1 = scan(toks@, *i as int, end as int, stack@, *dead as nat, o, max as nat);
                        assert(sc0.text == seq![st0.last()] + sc1.text);
                        assert(acc@ =~= acc0 + seq![st0.last()]);
                        assert(acc@ + sc1.text =~= acc0 + sc0.text);
                    }
                    None
                }
            } else {
                *i = *i + 1;
                proof {
                    let sc1 = scan(toks@, *i as int, end as int, stack@, *dead as nat, o, max as nat);
                    assert(sc0 == sc1);
                    assert(acc0 + sc0.text =~= acc@ + sc1.text);
                }
                None
            }
        },
        Token::CurlyOpen => {
            if *dead == 0 && stack.len() == 0 {
                if o.curly_consume {
                    *i = *i + 1;
                }
                Some(Stop::Curly)
            } else if stack.len() >= max {
                Some(Stop::TooDeep)
            } else if *dead == 0 {
                let c = stack[stack.len() - 1];
                acc.push(c);
                stack.push('}');
                *dead = 2;
                *i = *i + 1;
                proof {
                    let sc1 = scan(toks@, *i as int, end as int, stack@, *dead as nat, o, max as nat);
                    assert(sc0.text == seq![st0.last()] + sc1.text);
                    assert(acc@ =~= acc0 + seq![st0.last()]);
                    assert(acc@ + sc1.text =~= acc0 + sc0.text);
                }
                None
            } else {
                stack.push('}');
                *dead = *dead + 1;
                *i = *i + 1;
                proof {
                    let sc1 = scan(toks@, *i as int, end as int, stack@, *dead as nat, o, max as nat);
                    assert(sc0 == sc1);
                    assert(acc0 + sc0.text =~= acc@ + sc1.text);
                }
                None
            }
        },
        Token::Comma => {
            if o.stop_comma && *dead == 0 && stack.len() == 0 {
                Some(Stop::Comma)
            } else {
                if *dead == 0 {
                    acc.push(',');
                }
                *i = *i + 1;
                proof {
                    let sc1 = scan(toks@, *i as int, end as int, stack@, *dead as nat, o, max as nat);
                    if dd0 == 0 {
                        assert(sc0.text == seq![','] + sc1.text);
                        assert(acc@ =~= acc0 + seq![',']);
                        assert(acc@ + sc1.text =~= acc0 + sc0.text);
                    } else {
                        assert(sc0 == sc1);
                        assert(acc0 + sc0.text =~= acc@ + sc1.text);
                    }
                }
                None
            }
        },
        Token::Colon => {
            if o.stop_colon && *dead == 0 && stack.len() == 0 {
                Some(Stop::Colon)
            } else {
                if *dead == 0 {
                    acc.push(':');
                }
                *i = *i + 1;
                proof {
                    let sc1 = scan(toks@, *i as int, end as int, stack@, *dead as nat, o, max as nat);
                    if dd0 == 0 {
                        assert(sc0.text == seq![':'] + sc1.text);
                        assert(acc@ =~= acc0 + seq![':']);
                        assert(acc@ + sc1.text =~= acc0 + sc0.text);
                    } else {
                        assert(sc0 == sc1);
                        assert(acc0 + sc0.text =~= acc@ + sc1.text);
                    }
                }
                None
            }
        },
        _ => {
            proof {
                assert(false);
            }
            None
        },
    }
}

/// One scan step for a parenthesis, bracket or function opener.
fn step_open(toks: &Vec<Token>, i: &mut usize, end: usize, acc: &mut Vec<char>, stack: &mut Vec<char>, dead: &mut usize, o: ScanOpts, max: usize) -> (br: Option<Stop>)
    requires
        *old(i) < end,
        end <= toks@.len(),
        *old(dead) as nat <= old(stack)@.len(),
        is_opener(toks@[*old(i) as int]),
    ensures
        *final(dead) as nat <= final(stack)@.len(),
        *old(i) <= *final(i) <= end,
        match br {
            None => step_go(
                toks@, end as int, o, max as nat,
                *old(i) as int, old(acc)@, old(stack)@, *old(dead) as nat,
                *final(i) as int, final(acc)@, final(stack)@, *final(dead) as nat,
            ),
            Some(st) => {
                &&& final(acc)@ == old(acc)@
                &&& final(stack)@ == old(stack)@
                &&& *final(dead) == *old(dead)
                &&& step_halt(toks@, end as int, o, max as nat, *old(i) as int, old(stack)@, *old(dead) as nat, *final(i) as int, st)
            },
        },
{
    let ghost i0 = *i as int;
    let ghost st0 = stack@;
    let ghost dd0 = *dead as nat;
    let ghost acc0 = acc@;
    let ghost sc0 = scan(toks@, i0, end as int, st0, dd0, o, max as nat);
    if stack.len() >= max {
        return Some(Stop::TooDeep);
    }
    match &toks[*i] {
        Token::ParenOpen => {
            if *dead == 0 {
                acc.push('(');
            } else {
                *dead = *dead + 1;
            }
            stack.push(')');
            *i = *i + 1;
            proof {
                let sc1 = scan(toks@, *i as int, end as int, stack@, *dead as nat, o, max as nat);
                if dd0 == 0 {
                    assert(sc0.text == seq!['('] + sc1.text);
                    assert(acc@ =~= acc0 + seq!['(']);
                    assert(acc@ + sc1.text =~= acc0 + sc0.text);
                } else {
                    assert(sc0 == sc1);
                    assert(acc0 + sc0.text =~= acc@ + sc1.text);
                }
            }
            None
        },
        Token::BracketOpen => {
            if *dead == 0 {
                acc.push('[');
            } else {
                *dead = *dead + 1;
            }
            stack.push(']');
            *i = *i + 1;
            proof {
                let sc1 = scan(toks@, *i as int, end as int, stack@, *dead as nat, o, max as nat);
                if dd0 == 0 {
                    assert(sc0.text == seq!['['] + sc1.text);
                    assert(acc@ =~= acc0 + seq!['[']);
                    assert(acc@ + sc1.text =~= acc0 + sc0.text);
                } else {
                    assert(sc0 == sc1);
                    assert(acc0 + sc0.text =~= acc@ + sc1.text);
                }
            }
            None
        },
        Token::Function(name) => {
            if *dead == 0 {
                push_all(acc, name);
                acc.push('(');
            } else {
                *dead = *dead + 1;
            }
            stack.push(')');
            *i = *i + 1;
            proof {
                let sc1 = scan(toks@, *i as int, end as int, stack@, *dead as nat, o, max as nat);
                if dd0 == 0 {
                    assert(sc0.text == (name@ + seq!['(']) + sc1.text);
                    assert(acc@ =~= acc0 + (name@ + seq!['(']));
                    assert(acc@ + sc1.text =~= acc0 + sc0.text);
                } else {
                    assert(sc0 == sc1);
                    assert(acc0 + sc0.text =~= acc@ + sc1.text);
                }
            }
            None
        },
        _ => {
            proof {
                assert(false);
            }
            None
        },
    }
}

/// One scan step for a closer token: it closes the innermost open block
/// when it matches, and is ignored otherwise.
fn step_close(toks: &Vec<Token>, i: &mut usize, end: usize, acc: &mut Vec<char>, stack: &mut Vec<char>, dead: &mut usize, o: ScanOpts, max: usize)
    requires
        *old(i) < end,
        end <= toks@.len(),
        *old(dead) as nat <= old(stack)@.len(),
        is_closer(toks@[*old(i) as int]),
    ensures
        *final(dead) as nat <= final(stack)@.len(),
        *old(i) <= *final(i) <= end,
        step_go(
            toks@, end as int, o, max as nat,
            *old(i) as int, old(acc)@, old(stack)@, *old(dead) as nat,
            *final(i) as int, final(acc)@, final(stack)@, *final(dead) as nat,
        ),
{
    let ghost i0 = *i as int;
    let ghost st0 = stack@;
    let ghost dd0 = *dead as nat;
    let ghost acc0 = acc@;
    let ghost sc0 = scan(toks@, i0, end as int, st0, dd0, o, max as nat);
    let c: char = match &toks[*i] {
        Token::CloseParen => ')',
        Token::CloseBracket => ']',
        _ => '}',
    };
    proof {
        assert(c == closer_char(toks@[i0]));
    }
    if stack.len() > 0 && stack[stack.len() - 1] == c {
        let _ = stack.pop();
        if *dead == 0 {
            acc.push(c);
        } else {
            *dead = *dead - 1;
        }
        *i = *i + 1;
        proof {
            assert(stack@ =~= st0.drop_last());
            let sc1 = scan(toks@, *i as int, end as int, stack@, *dead as nat, o, max as nat);
            if dd0 == 0 {
                assert(sc0.text == seq![c] + sc1.text);
                assert(acc@ =~= acc0 + seq![c]);
                assert(acc@ + sc1.text =~= acc0 + sc0.text);
            } else {
                assert(sc0 == sc1);
                assert(acc0 + sc0.text =~= acc@ + sc1.text);
            }
        }
    } else {
        *i = *i + 1;
        proof {
            let sc1 = scan(toks@, *i as int, end as int, stack@, *dead as nat, o, max as nat);
            assert(sc0 == sc1);
            assert(acc0 + sc0.text =~= acc@ + sc1.text);
        }
    }
}

/// One scan step for a plain token: emits its literal text when not
/// inside a skipped region.
#[verifier::rlimit(50)]
fn step_plain(toks: &Vec<Token>, i: &mut usize, end: usize, acc: &mut Vec<char>, stack: &mut Vec<char>, dead: &mut usize, o: ScanOpts, max: usize)
    requires
        *old(i) < end,
        end <= toks@.len(),
        *old(dead) as nat <= old(stack)@.len(),
        !is_stopper(toks@[*old(i) as int]),
        !is_opener(toks@[*old(i) as int]),
        !is_closer(toks@[*old(i) as int]),
    ensures
        *final(dead) as nat <= final(stack)@.len(),
        *old(i) <= *final(i) <= end,
        final(stack)@ == old(stack)@,
        step_go(
            toks@, end as int, o, max as nat,
            *old(i) as int, old(acc)@, old(stack)@, *old(dead) as nat,
            *final(i) as int, final(acc)@, final(stack)@, *final(dead) as nat,
        ),
{
    let ghost i0 = *i as int;
    let ghost st0 = stack@;
    let ghost dd0 = *dead as nat;
    let ghost acc0 = acc@;
    let ghost sc0 = scan(toks@, i0, end as int, st0, dd0, o, max as nat);
    if *dead == 0 {
        match &toks[*i] {
            Token::Delim(ch) => {
                acc.push(*ch);
            },
            Token::WhiteSpace(s) => {
                push_all(acc, s);
            },
            Token::Ident(s) => {
                push_all(acc, s);
            },
            Token::UnquotedUrl(s) => {
                push_all(acc, s);
            },
            Token::Hash(s) => {
                acc.push('#');
                push_all(acc, s);
            },
            Token::IdHash(s) => {
                acc.push('#');
                push_all(acc, s);
            },
            Token::AtKeyword(s) => {
                acc.push('@');
                push_all(acc, s);
            },
            Token::QuotedString(s) => {
                acc.push('\'');
                push_all(acc, s);
                acc.push('\'');
            },
            Token::IncludeMatch => {
                acc.push('~');
                acc.push('=');
            },
            Token::DashMatch => {
                acc.push('|');
                acc.push('=');
            },
            Token::PrefixMatch => {
                acc.push('^');
                acc.push('=');
            },
            Token::SuffixMatch => {
                acc.push('$');
                acc.push('=');
            },
            Token::SubstringMatch => {
                acc.push('*');
                acc.push('=');
            },
            Token::Number { int_value, text } => {
                match int_value {
                    Some(n) => push_dec_i32(acc, *n),
                    None => push_all(acc, text),
                }
            },
            Token::Percentage { int_value, text } => {
                match int_value {
                    Some(n) => push_dec_i32(acc, *n),
                    None => push_all(acc, text),
                }
                acc.push('%');
            },
            Token::Dimension { int_value, text, unit } => {
                match int_value {
                    Some(n) => push_dec_i32(acc, *n),
                    None => push_all(acc, text),
                }
                push_all(acc, unit);
            },
            _ => {},
        }
        proof {
            assert(acc@ =~= acc0 + emit_tok(toks@[i0]));
        }
    }
    *i = *i + 1;
    proof {
        let sc1 = scan(toks@, *i as int, end as int, stack@, *dead as nat, o, max as nat);
        if dd0 == 0 {
            assert(sc0.text == emit_tok(toks@[i0]) + sc1.text);
            assert(acc@ + sc1.text =~= acc0 + sc0.text);
        } else {
            assert(sc0 == sc1);
            assert(acc0 + sc0.text =~= acc@ + sc1.text);
        }
    }
}

/// Re-serializes `toks[start..end)` with an empty block state: returns the
/// reconstructed text, the position where the scan stopped, and why.
pub(crate) fn eat_scan(toks: &Vec<Token>, start: usize, end: usize, o: ScanOpts, max: usize) -> (r: (Vec<char>, usize, Stop))
    requires
        start <= end,
        end <= toks@.len(),
    ensures
        ({
            let s = scan(toks@, start as int, end as int, Seq::empty(), 0, o, max as nat);
            &&& r.0@ == (if s.stop is End {
                s.text + pending_closers(s.stack, s.dead)
            } else {
                s.text
            })
            &&& r.1 as int == s.end
            &&& r.2 == s.stop
        }),
{
    let mut acc: Vec<char> = Vec::new();
    let mut stack: Vec<char> = Vec::new();
    let mut dead: usize = 0;
    let mut i: usize = start;
    let mut stop = Stop::End;
    proof {
        let sf = scan(toks@, start as int, end as int, Seq::empty(), 0, o, max as nat);
        assert(sf.text =~= acc@ + sf.text);
    }
    loop
        invariant_except_break
            start <= i <= end,
            end <= toks@.len(),
            dead as nat <= stack@.len(),
            stop == Stop::End,
            ({
                let sf = scan(toks@, start as int, end as int, Seq::empty(), 0, o, max as nat);
                let sc = scan(toks@, i as int, end as int, stack@, dead as nat, o, max as nat);
                &&& sf.text == acc@ + sc.text
                &&& sf.end == sc.end
                &&& sf.stop == sc.stop
                &&& sf.stack == sc.stack
                &&& sf.dead == sc.dead
            }),
        ensures
            dead as nat <= stack@.len(),
            ({
                let sf = scan(toks@, start as int, end as int, Seq::empty(), 0, o, max as nat);
                &&& acc@ == sf.text
                &&& i as int == sf.end
                &&& stop == sf.stop
                &&& stack@ == sf.stack
                &&& dead as nat == sf.dead
            }),
        decreases end - i,
    {
        let ghost sf = scan(toks@, start as int, end as int, Seq::empty(), 0, o, max as nat);
        let ghost sc0 = scan(toks@, i as int, end as int, stack@, dead as nat, o, max as nat);
        let ghost acc0 = acc@;
        if i >= end {
            proof {
                assert(sc0.text == Seq::<char>::empty());
                assert(sf.text =~= acc@);
            }
            break;
        }
        let br: Option<Stop> = match &toks[i] {
            Token::Semicolon | Token::CurlyOpen | Token::Comma | Token::Colon => {
                step_stop(toks, &mut i, end, &mut acc, &mut stack, &mut dead, o, max)
            },
            Token::ParenOpen | Token::BracketOpen | Token::Function(_) => {
                step_open(toks, &mut i, end, &mut acc, &mut stack, &mut dead, o, max)
            },
            Token::CloseParen | Token::CloseBracket | Token::CloseCurly => {
                step_close(toks, &mut i, end, &mut acc, &mut stack, &mut dead, o, max);
                None
            },
            _ => {
                step_plain(toks, &mut i, end, &mut acc, &mut stack, &mut dead, o, max);
                None
            },
        };
        match br {
            Some(st) => {
                stop = st;
                proof {
                    assert(sf.text =~= acc@ + sc0.text);
                    assert(sf.text =~= acc@);
                }
                break;
            },
            None => {},
        }
    }
    let ghost sf = scan(toks@, start as int, end as int, Seq::empty(), 0, o, max as nat);
    if matches!(stop, Stop::End) {
        let ghost live = sf.stack.take(sf.stack.len() - sf.dead);
        proof {
            assert(sf.stack.take(sf.stack.len() as int) =~= sf.stack);
        }
        while dead > 0
            invariant
                dead as nat <= stack@.len(),
                dead as nat <= sf.dead,
                sf.dead <= sf.stack.len(),
                stack@ == sf.stack.take(sf.stack.len() - (sf.dead - dead)),
            decreases dead,
        {
            let ghost stk0 = stack@;
            let ghost d0 = dead as nat;
            let _ = stack.pop();
            dead = dead - 1;
            proof {
                assert(stack@ == stk0.subrange(0, stk0.len() - 1));
                assert(stk0 == sf.stack.take(sf.stack.len() - (sf.dead - d0)));
                assert forall|j: int| 0 <= j < stack@.len() implies stack@[j] == sf.stack[j] by {
                    assert(stack@[j] == stk0[j]);
                }
                assert(stack@ =~= sf.stack.take(sf.stack.len() - (sf.dead - dead)));
            }
        }
        proof {
            assert(stack@ == live);
            assert(stack@ =~= live.take(stack@.len() as int));
            assert(acc@ =~= sf.text + live.reverse().take(live.len() - stack@.len()));
        }
        let ghost nlive = live.len();
        while stack.len() > 0
            invariant
                stack@.len() <= nlive == live.len(),
                stack@ == live.take(stack@.len() as int),
                acc@ == sf.text + live.reverse().take(live.len() - stack@.len()),
            decreases stack@.len(),
        {
            let ghost k = stack@.len();
            let c = stack[stack.len() - 1];
            let _ = stack.pop();
            acc.push(c);
            proof {
                assert(stack@ =~= live.take(stack@.len() as int));
                assert(live.reverse()[live.len() - k] == live[k - 1]);
                assert(acc@ =~= sf.text + live.reverse().take(live.len() - stack@.len()));
            }
        }
        proof {
            assert(live.reverse().take(live.len() as int) =~= live.reverse());
            assert(acc@ == sf.text + pending_closers(sf.stack, sf.dead));
        }
    }
    (acc, i, stop)
}

/// The index of the closer that ends the block whose pending closers are
/// `stack` (innermost last), or `end` when the region runs out first.
/// Openers push their closer, matching closers pop, strays are skipped.
pub open spec fn find_close(toks: Seq<Token>, pos: int, end: int, stack: Seq<char>) -> int
    decreases end - pos,
{
    if !(0 <= pos < end && end <= toks.len()) {
        end
    } else {
        let t = toks[pos];
        if is_opener(t) {
            find_close(toks, pos + 1, end, stack.push(block_closer(t)))
        } else if t is CurlyOpen {
            find_close(toks, pos + 1, end, stack.push('}'))
        } else if is_closer(t) && stack.len() > 0 && stack.last() == closer_char(t) {
            if stack.len() == 1 {
                pos
            } else {
                find_close(toks, pos + 1, end, stack.drop_last())
            }
        } else {
            find_close(toks, pos + 1, end, stack)
        }
    }
}

/// Finds the closer of a curly block entered at `start` (the index just
/// after the opener), or `end` when the block is unterminated.
pub(crate) fn find_close_curly(toks: &Vec<Token>, start: usize, end: usize) -> (r: usize)
    requires
        start <= end,
        end <= toks@.len(),
    ensures
        r as int == find_close(toks@, start as int, end as int, seq!['}']),
        start <= r <= end,
{
    let mut stack: Vec<char> = Vec::new();
    stack.push('}');
    let mut i: usize = start;
    proof {
        assert(stack@ =~= seq!['}']);
    }
    loop
        invariant_except_break
            start <= i <= end,
            end <= toks@.len(),
            stack@.len() >= 1,
            find_close(toks@, start as int, end as int, seq!['}']) == find_close(toks@, i as int, end as int, stack@),
        ensures
            i as int == find_close(toks@, start as int, end as int, seq!['}']),
            start <= i <= end,
        decreases end - i,
    {
        if i >= end {
            break;
        }
        match &toks[i] {
            Token::ParenOpen | Token::Function(_) => {
                stack.push(')');
                i = i + 1;
            },
            Token::BracketOpen => {
                stack.push(']');
                i = i + 1;
            },
            Token::CurlyOpen => {
                stack.push('}');
                i = i + 1;
            },
            Token::CloseParen => {
                if stack[stack.len() - 1] == ')' {
                    if stack.len() == 1 {
                        break;
                    }
                    let _ = stack.pop();
                }
                i = i + 1;
            },
            Token::CloseBracket => {
                if stack[stack.len() - 1] == ']' {
                    if stack.len() == 1 {
                        break;
                    }
                    let _ = stack.pop();
                }
                i = i + 1;
            },
            Token::CloseCurly => {
                if stack[stack.len() - 1] == '}' {
                    if stack.len() == 1 {
                        break;
                    }
                    let _ = stack.pop();
                }
                i = i + 1;
            },
            _ => {
                i = i + 1;
            },
        }
    }
    i
}

/// The first index in `[pos, end)` whose token is not whitespace, or `end`.
pub open spec fn skip_ws(toks: Seq<Token>, pos: int, end: int) -> int
    decreases end - pos,
{
    if 0 <= pos < end && pos < toks.len() && toks[pos] is WhiteSpace {
        skip_ws(toks, pos + 1, end)
    } else {
        pos
    }
}

/// `skip_ws` stays within the region it searches.
pub proof fn lemma_skip_ws_bounds(toks: Seq<Token>, pos: int, end: int)
    requires
        0 <= pos <= end,
    ensures
        pos <= skip_ws(toks, pos, end) <= end,
        skip_ws(toks, pos, end) < end ==> !(toks[skip_ws(toks, pos, end)] is WhiteSpace) || skip_ws(toks, pos, end) >= toks.len(),
    decreases end - pos,
{
    if 0 <= pos < end && pos < toks.len() && toks[pos] is WhiteSpace {
        lemma_skip_ws_bounds(toks, pos + 1, end);
    }
}

/// Advances past whitespace tokens within `[start, end)`.
pub(crate) fn skip_ws_at(toks: &Vec<Token>, start: usize, end: usize) -> (r: usize)
    requires
        start <= end,
        end <= toks@.len(),
    ensures
        r as int == skip_ws(toks@, start as int, end as int),
        start <= r <= end,
{
    let mut i: usize = start;
    loop
        invariant_except_break
            start <= i <= end,
            end <= toks@.len(),
            skip_ws(toks@, start as int, end as int) == skip_ws(toks@, i as int, end as int),
        ensures
            i as int == skip_ws(toks@, start as int, end as int),
            start <= i <= end,
        decreases end - i,
    {
        if i >= end {
            break;
        }
        match &toks[i] {
            Token::WhiteSpace(_) => {
                i = i + 1;
            },
            _ => {
                break;
            },
        }
    }
    i
}

} // verus!
