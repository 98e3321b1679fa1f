//! The parser components: the value, declaration, declaration-block,
//! selector-list and rule parsers over a token stream, together with the
//! specification functions their contracts are stated against.
use vstd::prelude::*;

use crate::nodes::{DeclV, Declaration, Property, Rule, RuleV, Selector, Value};
use crate::scan::{
    eat_scan, find_close, find_close_curly, lemma_scan_end_bounds, lemma_skip_ws_bounds,
    push_all, scan, scan_end, scan_stop, scan_text, skip_ws, skip_ws_at, ScanOpts, Stop,
};
use crate::text::{chars_to_string, trim, trim_chars};
use crate::token::{Token, TokenStream};

verus! {

/// The default maximum nesting depth.
pub const DEFAULT_MAX_DEPTH: usize = 256;

/// The token kind a failed expectation was looking for.
#[derive(Clone, Copy, Debug, PartialEq, Eq, Structural)]
pub enum Expected {
    Identifier,
    Colon,
    Semicolon,
    CurlyBlock,
}

/// A structured parse error. Parsing is fail-fast: the first error met
/// anywhere in the descent aborts the whole parse.
#[derive(Clone, Copy, Debug, PartialEq, Eq, Structural)]
pub enum ParsingError {
    /// The token at index `pos` was not what the grammar expected.
    UnexpectedToken { pos: usize, expected: Expected },
    /// The stream ended where a token was expected.
    EndOfInput { expected: Expected },
    /// Recursive descent into nested blocks exceeded the configured
    /// maximum nesting depth.
    NestingTooDeep,
}

/// Scan options for a standalone value run: stop at a top-level
/// semicolon (consumed) or curly opener (consumed), commas, colons and
/// nested commas are content.
pub open spec fn value_opts() -> ScanOpts {
    ScanOpts { stop_semi: true, stop_comma: false, stop_colon: false, curly_consume: true }
}

/// Scan options for a declaration's value run: as a standalone value,
/// but a top-level colon also ends the run (left in place), signalling a
/// missing semicolon between declarations; a stopping curly opener is
/// left in place so the error can name its position.
pub open spec fn decl_value_opts() -> ScanOpts {
    ScanOpts { stop_semi: true, stop_comma: false, stop_colon: true, curly_consume: false }
}

/// Scan options for one selector segment: a top-level comma or curly
/// opener ends the segment and is left in place.
pub open spec fn selector_opts() -> ScanOpts {
    ScanOpts { stop_semi: true, stop_comma: true, stop_colon: false, curly_consume: false }
}

/// Scan options for skipping the remainder of a selector segment after a
/// semicolon: only a top-level comma or curly opener stops the skip.
pub open spec fn selector_skip_opts() -> ScanOpts {
    ScanOpts { stop_semi: false, stop_comma: true, stop_colon: false, curly_consume: false }
}

fn mk_opts(stop_semi: bool, stop_comma: bool, stop_colon: bool, curly_consume: bool) -> (o: ScanOpts)
    ensures
        o == (ScanOpts { stop_semi, stop_comma, stop_colon, curly_consume }),
{
    ScanOpts { stop_semi, stop_comma, stop_colon, curly_consume }
}

/// A scan that stopped before a comma, colon or curly opener points at a
/// token of that kind, strictly inside the region.
pub proof fn lemma_scan_stop_at(toks: Seq<Token>, pos: int, end: int, stack: Seq<char>, dead: nat, o: ScanOpts, max: nat)
    requires
        0 <= pos,
    ensures
        ({
            let s = scan(toks, pos, end, stack, dead, o, max);
            &&& (s.stop is Comma ==> s.end < end && toks[s.end] is Comma)
            &&& (s.stop is Colon ==> s.end < end && toks[s.end] is Colon)
            &&& (s.stop is Curly && !o.curly_consume ==> s.end < end && toks[s.end] is CurlyOpen)
        }),
    decreases end - pos,
{
    if 0 <= pos < end && end <= toks.len() {
        let t = toks[pos];
        match t {
            Token::Semicolon => {
                if o.stop_semi && dead == 0 {
                    if stack.len() > 0 {
                        lemma_scan_stop_at(toks, pos + 1, end, stack, 1, o, max);
                    }
                } else {
                    lemma_scan_stop_at(toks, pos + 1, end, stack, dead, o, max);
                }
            },
            Token::CurlyOpen => {
                if dead == 0 && stack.len() == 0 {
                } else if stack.len() >= max {
                } else if dead == 0 {
                    lemma_scan_stop_at(toks, pos + 1, end, stack.push('}'), 2, o, max);
                } else {
                    lemma_scan_stop_at(toks, pos + 1, end, stack.push('}'), dead + 1, o, max);
                }
            },
            Token::Comma => {
                if !(o.stop_comma && dead == 0 && stack.len() == 0) {
                    lemma_scan_stop_at(toks, pos + 1, end, stack, dead, o, max);
                }
            },
            Token::Colon => {
                if !(o.stop_colon && dead == 0 && stack.len() == 0) {
                    lemma_scan_stop_at(toks, pos + 1, end, stack, dead, o, max);
                }
            },
            Token::ParenOpen | Token::BracketOpen | Token::Function(_) => {
                if stack.len() < max {
                    if dead == 0 {
                        lemma_scan_stop_at(toks, pos + 1, end, stack.push(crate::scan::block_closer(t)), 0, o, max);
                    } else {
                        lemma_scan_stop_at(toks, pos + 1, end, stack.push(crate::scan::block_closer(t)), dead + 1, o, max);
                    }
                }
            },
            Token::CloseParen | Token::CloseBracket | Token::CloseCurly => {
                if stack.len() > 0 && stack.last() == crate::scan::closer_char(t) {
                    lemma_scan_stop_at(
                        toks,
                        pos + 1,
                        end,
                        stack.drop_last(),
                        if dead > 0 { (dead - 1) as nat } else { 0 },
                        o,
                        max,
                    );
                } else {
                    lemma_scan_stop_at(toks, pos + 1, end, stack, dead, o, max);
                }
            },
            _ => {
                lemma_scan_stop_at(toks, pos + 1, end, stack, dead, o, max);
            },
        }
    }
}

/// What re-serializing a token run from `pos` within `toks[pos..end)`
/// yields: the untrimmed text and the position after the run.
pub open spec fn spec_eat(toks: Seq<Token>, pos: int, end: int, max: nat) -> Result<(Seq<char>, int), ParsingError> {
    if scan_stop(toks, pos, end, value_opts(), max) is TooDeep {
        Err(ParsingError::NestingTooDeep)
    } else {
        Ok((scan_text(toks, pos, end, value_opts(), max), scan_end(toks, pos, end, value_opts(), max)))
    }
}

/// What parsing a value yields: the re-serialized run, trimmed.
pub open spec fn spec_value(toks: Seq<Token>, pos: int, end: int, max: nat) -> Result<(Seq<char>, int), ParsingError> {
    if scan_stop(toks, pos, end, value_opts(), max) is TooDeep {
        Err(ParsingError::NestingTooDeep)
    } else {
        Ok((trim(scan_text(toks, pos, end, value_opts(), max)), scan_end(toks, pos, end, value_opts(), max)))
    }
}

/// What parsing one declaration yields: an identifier (the property), a
/// colon, then a value run ending at a semicolon (consumed) or at the
/// region's end. A run that stops anywhere else fails: the next token is
/// not the expected semicolon.
pub open spec fn spec_declaration(toks: Seq<Token>, pos: int, end: int, max: nat) -> Result<(DeclV, int), ParsingError> {
    let p1 = skip_ws(toks, pos, end);
    if p1 >= end {
        Err(ParsingError::EndOfInput { expected: Expected::Identifier })
    } else if !(toks[p1] is Ident) {
        Err(ParsingError::UnexpectedToken { pos: p1 as usize, expected: Expected::Identifier })
    } else {
        let p2 = skip_ws(toks, p1 + 1, end);
        if p2 >= end {
            Err(ParsingError::EndOfInput { expected: Expected::Colon })
        } else if !(toks[p2] is Colon) {
            Err(ParsingError::UnexpectedToken { pos: p2 as usize, expected: Expected::Colon })
        } else {
            let stop = scan_stop(toks, p2 + 1, end, decl_value_opts(), max);
            let vend = scan_end(toks, p2 + 1, end, decl_value_opts(), max);
            if stop is TooDeep {
                Err(ParsingError::NestingTooDeep)
            } else if stop is Semi || stop is End {
                Ok((
                    DeclV {
                        property: match toks[p1] {
                            Token::Ident(name) => name@,
                            _ => Seq::empty(),
                        },
                        value: trim(scan_text(toks, p2 + 1, end, decl_value_opts(), max)),
                    },
                    vend,
                ))
            } else {
                Err(ParsingError::UnexpectedToken { pos: vend as usize, expected: Expected::Semicolon })
            }
        }
    }
}

/// A successfully parsed declaration moves the cursor forward, and not
/// past the region's end.
pub proof fn lemma_spec_declaration_advances(toks: Seq<Token>, pos: int, end: int, max: nat)
    requires
        0 <= pos <= end,
        end <= toks.len(),
    ensures
        spec_declaration(toks, pos, end, max) matches Ok(r) ==> pos < r.1 <= end,
{
    lemma_skip_ws_bounds(toks, pos, end);
    let p1 = skip_ws(toks, pos, end);
    if 0 <= p1 < end {
        lemma_skip_ws_bounds(toks, p1 + 1, end);
        let p2 = skip_ws(toks, p1 + 1, end);
        if 0 <= p2 < end {
            lemma_scan_end_bounds(toks, p2 + 1, end, Seq::empty(), 0, decl_value_opts(), max);
        }
    }
}

/// What parsing the inside of a declaration block yields: declarations
/// parsed one after the other until only whitespace remains.
pub open spec fn spec_decls(toks: Seq<Token>, pos: int, end: int, max: nat) -> Result<(Seq<DeclV>, int), ParsingError>
    decreases end - pos,
{
    if !(0 <= pos <= end && end <= toks.len()) {
        Ok((Seq::empty(), pos))
    } else if skip_ws(toks, pos, end) >= end {
        Ok((Seq::empty(), end))
    } else {
        match spec_declaration(toks, pos, end, max) {
            Err(e) => Err(e),
            Ok((d, q)) => {
                proof {
                    lemma_spec_declaration_advances(toks, pos, end, max);
                }
                match spec_decls(toks, q, end, max) {
                    Err(e) => Err(e),
                    Ok((ds, r)) => Ok((seq![d] + ds, r)),
                }
            },
        }
    }
}

/// What parsing a declaration block yields: a curly opener, its inner
/// token run parsed as declarations, and the cursor moved past the
/// block's closer (or to the region's end when the block never closes).
pub open spec fn spec_declaration_block(toks: Seq<Token>, pos: int, end: int, max: nat) -> Result<(Seq<DeclV>, int), ParsingError> {
    let p = skip_ws(toks, pos, end);
    if p >= end {
        Err(ParsingError::EndOfInput { expected: Expected::CurlyBlock })
    } else if !(toks[p] is CurlyOpen) {
        Err(ParsingError::UnexpectedToken { pos: p as usize, expected: Expected::CurlyBlock })
    } else {
        let close = find_close(toks, p + 1, end, seq!['}']);
        match spec_decls(toks, p + 1, close, max) {
            Err(e) => Err(e),
            Ok((ds, _)) => Ok((ds, if close < end { close + 1 } else { end })),
        }
    }
}

/// What parsing a selector list yields: token runs re-serialized and
/// trimmed, split on top-level commas only, up to (not including) the
/// next top-level curly opener or the region's end. A semicolon ends a
/// segment's text; the rest of that segment is skipped.
pub open spec fn spec_selectors(toks: Seq<Token>, pos: int, end: int, max: nat) -> Result<(Seq<Seq<char>>, int), ParsingError>
    decreases end - pos,
{
    if !(0 <= pos <= end && end <= toks.len()) {
        Ok((Seq::empty(), pos))
    } else {
        let stop1 = scan_stop(toks, pos, end, selector_opts(), max);
        let end1 = scan_end(toks, pos, end, selector_opts(), max);
        let sel = trim(scan_text(toks, pos, end, selector_opts(), max));
        if stop1 is TooDeep {
            Err(ParsingError::NestingTooDeep)
        } else {
            let stop2 = if stop1 is Semi {
                scan_stop(toks, end1, end, selector_skip_opts(), max)
            } else {
                stop1
            };
            let p2 = if stop1 is Semi {
                scan_end(toks, end1, end, selector_skip_opts(), max)
            } else {
                end1
            };
            if stop2 is TooDeep {
                Err(ParsingError::NestingTooDeep)
            } else if stop2 is Comma {
                proof {
                    lemma_scan_end_bounds(toks, pos, end, Seq::empty(), 0, selector_opts(), max);
                    lemma_scan_end_bounds(toks, end1, end, Seq::empty(), 0, selector_skip_opts(), max);
                    lemma_scan_stop_at(toks, pos, end, Seq::empty(), 0, selector_opts(), max);
                    lemma_scan_stop_at(toks, end1, end, Seq::empty(), 0, selector_skip_opts(), max);
                }
                match spec_selectors(toks, p2 + 1, end, max) {
                    Err(e) => Err(e),
                    Ok((rest, r)) => Ok((seq![sel] + rest, r)),
                }
            } else {
                Ok((seq![sel], p2))
            }
        }
    }
}

/// What parsing a rule yields: a selector list, then the declaration
/// block that begins at the curly opener the selector list stopped at.
pub open spec fn spec_rule(toks: Seq<Token>, pos: int, end: int, max: nat) -> Result<(RuleV, int), ParsingError> {
    match spec_selectors(toks, pos, end, max) {
        Err(e) => Err(e),
        Ok((sels, p)) => match spec_declaration_block(toks, p, end, max) {
            Err(e) => Err(e),
            Ok((ds, q)) => Ok((RuleV { selectors: sels, declaration_block: ds }, q)),
        },
    }
}

/// The parser. It holds the configured maximum nesting depth: descending
/// into more deeply nested blocks than that fails with
/// [`ParsingError::NestingTooDeep`] instead of exhausting resources.
#[derive(Clone, Copy, Debug)]
pub struct Parser {
    max_depth: usize,
}

impl Parser {
    /// The configured maximum nesting depth.
    pub closed spec fn max_depth(&self) -> nat {
        self.max_depth as nat
    }

    /// A parser with the default maximum nesting depth.
    pub fn new() -> (p: Parser)
        ensures
            p.max_depth() == DEFAULT_MAX_DEPTH as nat,
    {
        Parser { max_depth: DEFAULT_MAX_DEPTH }
    }

    /// A parser with the given maximum nesting depth.
    pub fn with_max_depth(max_depth: usize) -> (p: Parser)
        ensures
            p.max_depth() == max_depth as nat,
    {
        Parser { max_depth }
    }

    /// Re-serializes tokens from the cursor into their literal text form,
    /// descending into nested blocks and re-emitting their closers. The
    /// run ends at a top-level semicolon (consumed, not part of the
    /// text), at a top-level curly opener (consumed as a stop signal), or
    /// when the stream is exhausted.
    pub fn eat(&self, s: &mut TokenStream) -> (r: Result<String, ParsingError>)
        requires
            old(s).wf(),
        ensures
            final(s).wf(),
            final(s).toks() == old(s).toks(),
            match r {
                Ok(text) => spec_eat(old(s).toks(), old(s).pos(), old(s).toks().len() as int, self.max_depth())
                    == Ok::<(Seq<char>, int), ParsingError>((text@, final(s).pos())),
                Err(e) => spec_eat(old(s).toks(), old(s).pos(), old(s).toks().len() as int, self.max_depth())
                    == Err::<(Seq<char>, int), ParsingError>(e) && final(s).pos() == old(s).pos(),
            },
    {
        let (toks, pos) = s.parts();
        let len = toks.len();
        let o = mk_opts(true, false, false, true);
        let (text, newpos, stop) = eat_scan(toks, pos, len, o, self.max_depth);
        proof {
            lemma_scan_end_bounds(s.toks(), s.pos(), len as int, Seq::empty(), 0, value_opts(), self.max_depth());
        }
        match stop {
            Stop::TooDeep => Err(ParsingError::NestingTooDeep),
            _ => {
                let out = chars_to_string(&text);
                s.set_pos(newpos);
                Ok(out)
            },
        }
    }

    /// Parses a value: the re-serialized run from the cursor, trimmed of
    /// surrounding whitespace.
    pub fn parse_value(&self, s: &mut TokenStream) -> (r: Result<Value, ParsingError>)
        requires
            old(s).wf(),
        ensures
            final(s).wf(),
            final(s).toks() == old(s).toks(),
            match r {
                Ok(v) => spec_value(old(s).toks(), old(s).pos(), old(s).toks().len() as int, self.max_depth())
                    == Ok::<(Seq<char>, int), ParsingError>((v@, final(s).pos())),
                Err(e) => spec_value(old(s).toks(), old(s).pos(), old(s).toks().len() as int, self.max_depth())
                    == Err::<(Seq<char>, int), ParsingError>(e) && final(s).pos() == old(s).pos(),
            },
    {
        let (toks, pos) = s.parts();
        let len = toks.len();
        let o = mk_opts(true, false, false, true);
        let (text, newpos, stop) = eat_scan(toks, pos, len, o, self.max_depth);
        proof {
            lemma_scan_end_bounds(s.toks(), s.pos(), len as int, Seq::empty(), 0, value_opts(), self.max_depth());
        }
        match stop {
            Stop::TooDeep => Err(ParsingError::NestingTooDeep),
            _ => {
                let trimmed = trim_chars(&text);
                let out = chars_to_string(&trimmed);
                s.set_pos(newpos);
                Ok(Value(out))
            },
        }
    }

    /// Parses one declaration within `toks[..end)`: an identifier, a
    /// colon, then the value run.
    fn parse_declaration_in(&self, s: &mut TokenStream, end: usize) -> (r: Result<Declaration, ParsingError>)
        requires
            old(s).wf(),
            old(s).pos() <= end as int,
            end as int <= old(s).toks().len(),
        ensures
            final(s).wf(),
            final(s).toks() == old(s).toks(),
            old(s).pos() <= final(s).pos() <= end as int,
            match r {
                Ok(d) => spec_declaration(old(s).toks(), old(s).pos(), end as int, self.max_depth())
                    == Ok::<(DeclV, int), ParsingError>((d@, final(s).pos())),
                Err(e) => spec_declaration(old(s).toks(), old(s).pos(), end as int, self.max_depth())
                    == Err::<(DeclV, int), ParsingError>(e) && final(s).pos() == old(s).pos(),
            },
    {
        let (toks, pos) = s.parts();
        let p1 = skip_ws_at(toks, pos, end);
        if p1 >= end {
            return Err(ParsingError::EndOfInput { expected: Expected::Identifier });
        }
        let mut prop: Vec<char> = Vec::new();
        match &toks[p1] {
            Token::Ident(name) => {
                push_all(&mut prop, name);
                proof {
                    assert(prop@ =~= name@);
                }
            },
            _ => {
                return Err(ParsingError::UnexpectedToken { pos: p1, expected: Expected::Identifier });
            },
        }
        let p2 = skip_ws_at(toks, p1 + 1, end);
        if p2 >= end {
            return Err(ParsingError::EndOfInput { expected: Expected::Colon });
        }
        match &toks[p2] {
            Token::Colon => {},
            _ => {
                return Err(ParsingError::UnexpectedToken { pos: p2, expected: Expected::Colon });
            },
        }
        let o = mk_opts(true, false, true, false);
        let (text, vend, stop) = eat_scan(toks, p2 + 1, end, o, self.max_depth);
        proof {
            lemma_scan_end_bounds(s.toks(), p2 + 1, end as int, Seq::empty(), 0, decl_value_opts(), self.max_depth());
        }
        match stop {
            Stop::TooDeep => Err(ParsingError::NestingTooDeep),
            Stop::Semi | Stop::End => {
                let trimmed = trim_chars(&text);
                let value = chars_to_string(&trimmed);
                let property = chars_to_string(&prop);
                s.set_pos(vend);
                Ok(Declaration(Property(property), Value(value)))
            },
            _ => Err(ParsingError::UnexpectedToken { pos: vend, expected: Expected::Semicolon }),
        }
    }

    /// Parses one declaration: an identifier naming the property, a
    /// colon, then the value run up to a semicolon (consumed) or the end
    /// of the stream. If the run stops at any other token — a top-level
    /// colon, which signals a missing semicolon between declarations, or
    /// a curly opener — that position is reported as unexpected where
    /// the semicolon was owed.
    pub fn parse_declaration(&self, s: &mut TokenStream) -> (r: Result<Declaration, ParsingError>)
        requires
            old(s).wf(),
        ensures
            final(s).wf(),
            final(s).toks() == old(s).toks(),
            match r {
                Ok(d) => spec_declaration(old(s).toks(), old(s).pos(), old(s).toks().len() as int, self.max_depth())
                    == Ok::<(DeclV, int), ParsingError>((d@, final(s).pos())),
                Err(e) => spec_declaration(old(s).toks(), old(s).pos(), old(s).toks().len() as int, self.max_depth())
                    == Err::<(DeclV, int), ParsingError>(e) && final(s).pos() == old(s).pos(),
            },
    {
        let end = s.len();
        self.parse_declaration_in(s, end)
    }

    /// Parses a declaration block: a curly opener, then declarations one
    /// after the other until the block's inner token run is exhausted.
    /// The last declaration may omit its semicolon only when the block
    /// ends right after it. The first failure aborts the whole block.
    pub fn parse_declaration_block(&self, s: &mut TokenStream) -> (r: Result<Vec<Declaration>, ParsingError>)
        requires
            old(s).wf(),
        ensures
            final(s).wf(),
            final(s).toks() == old(s).toks(),
            old(s).pos() <= final(s).pos(),
            match r {
                Ok(ds) => spec_declaration_block(old(s).toks(), old(s).pos(), old(s).toks().len() as int, self.max_depth())
                    == Ok::<(Seq<DeclV>, int), ParsingError>((ds@.map_values(|d: Declaration| d@), final(s).pos())),
                Err(e) => spec_declaration_block(old(s).toks(), old(s).pos(), old(s).toks().len() as int, self.max_depth())
                    == Err::<(Seq<DeclV>, int), ParsingError>(e),
            },
    {
        let ghost toks0 = s.toks();
        let ghost pos0 = s.pos();
        let len = s.len();
        let (toks, pos) = s.parts();
        let p = skip_ws_at(toks, pos, len);
        if p >= len {
            return Err(ParsingError::EndOfInput { expected: Expected::CurlyBlock });
        }
        match &toks[p] {
            Token::CurlyOpen => {},
            _ => {
                return Err(ParsingError::UnexpectedToken { pos: p, expected: Expected::CurlyBlock });
            },
        }
        let close = find_close_curly(toks, p + 1, len);
        s.set_pos(p + 1);
        let ghost inner0 = (p + 1) as int;
        let ghost maxd = self.max_depth();
        let mut ds: Vec<Declaration> = Vec::new();
        proof {
            assert(ds@.map_values(|d: Declaration| d@) =~= Seq::<DeclV>::empty());
            assert(Seq::<DeclV>::empty() + spec_decls(toks0, inner0, close as int, maxd)->Ok_0.0
                =~= spec_decls(toks0, inner0, close as int, maxd)->Ok_0.0);
        }
        loop
            invariant_except_break
                s.wf(),
                toks0 == old(s).toks(),
                pos0 == old(s).pos(),
                s.toks() == toks0,
                len as int == toks0.len(),
                0 <= pos0 <= inner0,
                inner0 <= s.pos() <= close as int,
                close <= len,
                maxd == self.max_depth(),
                ({
                    let full = spec_decls(toks0, inner0, close as int, maxd);
                    let rem = spec_decls(toks0, s.pos(), close as int, maxd);
                    match rem {
                        Ok(rr) => full == Ok::<(Seq<DeclV>, int), ParsingError>((ds@.map_values(|d: Declaration| d@) + rr.0, rr.1)),
                        Err(e) => full == Err::<(Seq<DeclV>, int), ParsingError>(e),
                    }
                }),
                spec_declaration_block(toks0, pos0, len as int, maxd) == (match spec_decls(toks0, inner0, close as int, maxd) {
                    Err(e) => Err::<(Seq<DeclV>, int), ParsingError>(e),
                    Ok(dsv) => Ok::<(Seq<DeclV>, int), ParsingError>((dsv.0, if (close as int) < len as int { close + 1 } else { len as int })),
                }),
            ensures
                s.wf(),
                toks0 == old(s).toks(),
                pos0 == old(s).pos(),
                s.toks() == toks0,
                close <= len,
                len as int == toks0.len(),
                maxd == self.max_depth(),
                spec_declaration_block(toks0, pos0, len as int, maxd)
                    == Ok::<(Seq<DeclV>, int), ParsingError>((
                        ds@.map_values(|d: Declaration| d@),
                        if (close as int) < len as int { close + 1 } else { len as int },
                    )),
            decreases close as int - s.pos(),
        {
            let pos2 = s.position();
            let (toks2, _unused) = s.parts();
            let pw = skip_ws_at(toks2, pos2, close);
            if pw >= close {
                proof {
                    assert(spec_decls(toks0, pos2 as int, close as int, maxd)
                        == Ok::<(Seq<DeclV>, int), ParsingError>((Seq::<DeclV>::empty(), close as int)));
                    assert(ds@.map_values(|d: Declaration| d@) + Seq::<DeclV>::empty()
                        =~= ds@.map_values(|d: Declaration| d@));
                }
                break;
            }
            let ghost dsv0 = ds@.map_values(|d: Declaration| d@);
            let d = match self.parse_declaration_in(s, close) {
                Ok(d) => d,
                Err(e) => {
                    proof {
                        assert(spec_decls(toks0, pos2 as int, close as int, maxd)
                            == Err::<(Seq<DeclV>, int), ParsingError>(e));
                    }
                    return Err(e);
                },
            };
            proof {
                lemma_spec_declaration_advances(toks0, pos2 as int, close as int, maxd);
            }
            ds.push(d);
            proof {
                assert(ds@.map_values(|dd: Declaration| dd@) =~= dsv0 + seq![d@]);
                let rem0 = spec_decls(toks0, pos2 as int, close as int, maxd);
                let rem1 = spec_decls(toks0, s.pos(), close as int, maxd);
                match rem1 {
                    Ok(rr) => {
                        assert(rem0 == Ok::<(Seq<DeclV>, int), ParsingError>((seq![d@] + rr.0, rr.1)));
                        assert(dsv0 + (seq![d@] + rr.0) =~= (dsv0 + seq![d@]) + rr.0);
                    },
                    Err(_) => {},
                }
            }
        }
        if close < len {
            s.set_pos(close + 1);
        } else {
            s.set_pos(len);
        }
        Ok(ds)
    }

    /// Parses a selector list: token runs up to (not including) the next
    /// top-level curly opener, split on top-level commas only — commas
    /// nested inside parenthesis, bracket or function blocks are absorbed
    /// into the segment's text. Each segment is re-serialized and trimmed.
    pub fn parse_selectors(&self, s: &mut TokenStream) -> (r: Result<Vec<Selector>, ParsingError>)
        requires
            old(s).wf(),
        ensures
            final(s).wf(),
            final(s).toks() == old(s).toks(),
            old(s).pos() <= final(s).pos(),
            match r {
                Ok(sels) => spec_selectors(old(s).toks(), old(s).pos(), old(s).toks().len() as int, self.max_depth())
                    == Ok::<(Seq<Seq<char>>, int), ParsingError>((sels@.map_values(|x: Selector| x@), final(s).pos())),
                Err(e) => spec_selectors(old(s).toks(), old(s).pos(), old(s).toks().len() as int, self.max_depth())
                    == Err::<(Seq<Seq<char>>, int), ParsingError>(e),
            },
    {
        let ghost toks0 = s.toks();
        let ghost pos0 = s.pos();
        let ghost maxd = self.max_depth();
        let len = s.len();
        let mut sels: Vec<Selector> = Vec::new();
        proof {
            assert(sels@.map_values(|x: Selector| x@) =~= Seq::<Seq<char>>::empty());
        }
        loop
            invariant
                s.wf(),
                toks0 == old(s).toks(),
                pos0 == old(s).pos(),
                s.toks() == toks0,
                len as int == toks0.len(),
                maxd == self.max_depth(),
                0 <= pos0 <= s.pos(),
                s.pos() <= len as int,
                ({
                    let full = spec_selectors(toks0, pos0, len as int, maxd);
                    let rem = spec_selectors(toks0, s.pos(), len as int, maxd);
                    match rem {
                        Ok(rr) => full == Ok::<(Seq<Seq<char>>, int), ParsingError>((sels@.map_values(|x: Selector| x@) + rr.0, rr.1)),
                        Err(e) => full == Err::<(Seq<Seq<char>>, int), ParsingError>(e),
                    }
                }),
            decreases len as int - s.pos(),
        {
            let pos2 = s.position();
            let (toks2, _unused) = s.parts();
            let o1 = mk_opts(true, true, false, false);
            let (text, end1, stop1) = eat_scan(toks2, pos2, len, o1, self.max_depth);
            proof {
                lemma_scan_end_bounds(toks0, pos2 as int, len as int, Seq::empty(), 0, selector_opts(), maxd);
            }
            if matches!(stop1, Stop::TooDeep) {
                return Err(ParsingError::NestingTooDeep);
            }
            let trimmed = trim_chars(&text);
            let sel = Selector(chars_to_string(&trimmed));
            let ghost selv = sel@;
            let mut p2 = end1;
            let mut stop2 = stop1;
            if matches!(stop1, Stop::Semi) {
                let o2 = mk_opts(false, true, false, false);
                let (_junk, end2, st2) = eat_scan(toks2, end1, len, o2, self.max_depth);
                proof {
                    lemma_scan_end_bounds(toks0, end1 as int, len as int, Seq::empty(), 0, selector_skip_opts(), maxd);
                }
                p2 = end2;
                stop2 = st2;
            }
            if matches!(stop2, Stop::TooDeep) {
                return Err(ParsingError::NestingTooDeep);
            }
            let ghost selsv0 = sels@.map_values(|x: Selector| x@);
            sels.push(sel);
            proof {
                assert(sels@.map_values(|x: Selector| x@) =~= selsv0 + seq![selv]);
            }
            match stop2 {
                Stop::Comma => {
                    proof {
                        lemma_scan_stop_at(toks0, pos2 as int, len as int, Seq::empty(), 0, selector_opts(), maxd);
                        lemma_scan_stop_at(toks0, end1 as int, len as int, Seq::empty(), 0, selector_skip_opts(), maxd);
                    }
                    s.set_pos(p2 + 1);
                    proof {
                        let rem0 = spec_selectors(toks0, pos2 as int, len as int, maxd);
                        let rem1 = spec_selectors(toks0, s.pos(), len as int, maxd);
                        match rem1 {
                            Ok(rr) => {
                                assert(rem0 == Ok::<(Seq<Seq<char>>, int), ParsingError>((seq![selv] + rr.0, rr.1)));
                                assert(selsv0 + (seq![selv] + rr.0) =~= (selsv0 + seq![selv]) + rr.0);
                            },
                            Err(_) => {},
                        }
                    }
                },
                _ => {
                    s.set_pos(p2);
                    proof {
                        assert(spec_selectors(toks0, pos2 as int, len as int, maxd)
                            == Ok::<(Seq<Seq<char>>, int), ParsingError>((seq![selv], p2 as int)));
                        assert(selsv0 + seq![selv] =~= sels@.map_values(|x: Selector| x@));
                    }
                    return Ok(sels);
                },
            }
        }
    }

    /// Parses one rule: a selector list, then the declaration block that
    /// begins at the curly opener the selector list stopped before.
    /// Failure in either phase aborts the rule.
    pub fn parse_rule(&self, s: &mut TokenStream) -> (r: Result<Rule, ParsingError>)
        requires
            old(s).wf(),
        ensures
            final(s).wf(),
            final(s).toks() == old(s).toks(),
            old(s).pos() <= final(s).pos(),
            match r {
                Ok(rule) => spec_rule(old(s).toks(), old(s).pos(), old(s).toks().len() as int, self.max_depth())
                    == Ok::<(RuleV, int), ParsingError>((rule@, final(s).pos())),
                Err(e) => spec_rule(old(s).toks(), old(s).pos(), old(s).toks().len() as int, self.max_depth())
                    == Err::<(RuleV, int), ParsingError>(e),
            },
    {
        let selectors = match self.parse_selectors(s) {
            Ok(v) => v,
            Err(e) => {
                return Err(e);
            },
        };
        let declaration_block = match self.parse_declaration_block(s) {
            Ok(v) => v,
            Err(e) => {
                return Err(e);
            },
        };
        Ok(Rule { selectors, declaration_block })
    }
}

} // verus!
