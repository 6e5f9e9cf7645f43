//! Scanning: splitting the input into lines, and tokenizing one line
//! into literal text runs and decoded escape sequences.
//!
//! The supported escape grammar is the SGR subset the renderer accepts:
//! `ESC [ p1 ; p2 ; ... m` (graphics mode, decimal parameters 0..=255)
//! and `ESC [ = n l` (reset mode).  Any other escape family is an
//! unsupported escape; a truncated or unparsable sequence is malformed
//! input.

use vstd::prelude::*;
use crate::style::RenderError;

verus! {

/// The escape character that introduces every control sequence.
pub open spec fn esc_char() -> char {
    '\u{1b}'
}

/// Whether `c` is a decimal digit.
pub open spec fn is_sgr_digit(c: char) -> bool {
    48 <= c as u32 && c as u32 <= 57
}

/// The value of a decimal digit.
pub open spec fn digit_val(c: char) -> int {
    c as u32 - 48
}

/// One token of a scanned line.
pub enum Token {
    /// A maximal run of characters containing no escape character.
    Text(Vec<char>),
    /// A graphics-mode escape with its parameter list.
    SetGraphics(Vec<u8>),
    /// A reset-mode escape; its mode value is carried but ignored.
    Reset(u8),
}

/// Mathematical counterpart of `Token`.
pub enum SpecToken {
    Text(Seq<char>),
    SetGraphics(Seq<u8>),
    Reset(u8),
}

impl View for Token {
    type V = SpecToken;

    open spec fn view(&self) -> SpecToken {
        match self {
            Token::Text(t) => SpecToken::Text(t@),
            Token::SetGraphics(p) => SpecToken::SetGraphics(p@),
            Token::Reset(m) => SpecToken::Reset(*m),
        }
    }
}

/// The token views of a token sequence.
pub open spec fn tokens_view(ts: Seq<Token>) -> Seq<SpecToken> {
    ts.map_values(|t: Token| t@)
}

/// Scans the literal text run starting at `i`: every character up to
/// the next escape character or the end of the line, appended to
/// `acc`, together with the index just after the run.
pub open spec fn scan_text(s: Seq<char>, i: int, acc: Seq<char>) -> (Seq<char>, int)
    decreases s.len() - i,
{
    if i < 0 || i >= s.len() || s[i] == esc_char() {
        (acc, i)
    } else {
        scan_text(s, i + 1, acc.push(s[i]))
    }
}

/// Scans the parameter list of a graphics-mode escape, starting just
/// after `ESC [`: decimal parameters separated by `;`, terminated by
/// `m`.  `cur` is the parameter being read, once a digit of it has
/// been seen.  A parameter over 255 or a missing digit is malformed;
/// any other terminator is an unsupported escape.
pub open spec fn scan_params(s: Seq<char>, i: int, cur: Option<int>, acc: Seq<u8>) -> Result<
    (Seq<u8>, int),
    RenderError,
>
    decreases s.len() - i,
{
    if i < 0 || i >= s.len() {
        Err(RenderError::MalformedInput)
    } else if is_sgr_digit(s[i]) {
        let v = (match cur {
            Some(v) => v,
            None => 0,
        }) * 10 + digit_val(s[i]);
        if v > 255 {
            Err(RenderError::MalformedInput)
        } else {
            scan_params(s, i + 1, Some(v), acc)
        }
    } else if s[i] == ';' {
        match cur {
            Some(v) => scan_params(s, i + 1, None, acc.push(v as u8)),
            None => Err(RenderError::MalformedInput),
        }
    } else if s[i] == 'm' {
        match cur {
            Some(v) => Ok((acc.push(v as u8), i + 1)),
            None => Err(RenderError::MalformedInput),
        }
    } else {
        Err(RenderError::UnsupportedEscapeSequence)
    }
}

/// Scans the body of a reset-mode escape, starting just after
/// `ESC [ =`: a decimal mode terminated by `l`.
pub open spec fn scan_reset(s: Seq<char>, i: int, cur: Option<int>) -> Result<
    (u8, int),
    RenderError,
>
    decreases s.len() - i,
{
    if i < 0 || i >= s.len() {
        Err(RenderError::MalformedInput)
    } else if is_sgr_digit(s[i]) {
        let v = (match cur {
            Some(v) => v,
            None => 0,
        }) * 10 + digit_val(s[i]);
        if v > 255 {
            Err(RenderError::MalformedInput)
        } else {
            scan_reset(s, i + 1, Some(v))
        }
    } else if s[i] == 'l' {
        match cur {
            Some(v) => Ok((v as u8, i + 1)),
            None => Err(RenderError::MalformedInput),
        }
    } else {
        Err(RenderError::UnsupportedEscapeSequence)
    }
}

/// Decodes the escape sequence starting at `i`, which holds the escape
/// character: the token and the index just after the sequence.  An
/// escape not followed by `[` belongs to another escape family.
pub open spec fn scan_escape(s: Seq<char>, i: int) -> Result<(SpecToken, int), RenderError> {
    if i + 1 >= s.len() {
        Err(RenderError::MalformedInput)
    } else if s[i + 1] != '[' {
        Err(RenderError::UnsupportedEscapeSequence)
    } else if i + 2 < s.len() && s[i + 2] == '=' {
        match scan_reset(s, i + 3, None) {
            Ok((m, n)) => Ok((SpecToken::Reset(m), n)),
            Err(e) => Err(e),
        }
    } else {
        match scan_params(s, i + 2, None, Seq::empty()) {
            Ok((ps, n)) => Ok((SpecToken::SetGraphics(ps), n)),
            Err(e) => Err(e),
        }
    }
}

pub proof fn lemma_scan_text_bounds(s: Seq<char>, i: int, acc: Seq<char>)
    requires
        0 <= i <= s.len(),
    ensures
        ({
            let (t, n) = scan_text(s, i, acc);
            &&& i <= n <= s.len()
            &&& (n < s.len() ==> s[n] == esc_char())
            &&& (i < s.len() && s[i] != esc_char() ==> n > i)
            &&& t == acc + s.subrange(i, n)
        }),
    decreases s.len() - i,
{
    let (t, n) = scan_text(s, i, acc);
    if i < s.len() && s[i] != esc_char() {
        lemma_scan_text_bounds(s, i + 1, acc.push(s[i]));
        assert(acc.push(s[i]) + s.subrange(i + 1, n) =~= acc + s.subrange(i, n));
    } else {
        assert(t =~= acc + s.subrange(i, n));
    }
}

pub proof fn lemma_scan_params_bounds(s: Seq<char>, i: int, cur: Option<int>, acc: Seq<u8>)
    requires
        0 <= i,
    ensures
        ({
            match scan_params(s, i, cur, acc) {
                Ok((ps, n)) => i < n <= s.len(),
                Err(_) => true,
            }
        }),
    decreases s.len() - i,
{
    if i < s.len() {
        if is_sgr_digit(s[i]) {
            let v = (match cur {
                Some(v) => v,
                None => 0,
            }) * 10 + digit_val(s[i]);
            if v <= 255 {
                lemma_scan_params_bounds(s, i + 1, Some(v), acc);
            }
        } else if s[i] == ';' {
            match cur {
                Some(v) => lemma_scan_params_bounds(s, i + 1, None, acc.push(v as u8)),
                None => {},
            }
        }
    }
}

pub proof fn lemma_scan_reset_bounds(s: Seq<char>, i: int, cur: Option<int>)
    requires
        0 <= i,
    ensures
        ({
            match scan_reset(s, i, cur) {
                Ok((m, n)) => i < n <= s.len(),
                Err(_) => true,
            }
        }),
    decreases s.len() - i,
{
    if i < s.len() {
        if is_sgr_digit(s[i]) {
            let v = (match cur {
                Some(v) => v,
                None => 0,
            }) * 10 + digit_val(s[i]);
            if v <= 255 {
                lemma_scan_reset_bounds(s, i + 1, Some(v));
            }
        }
    }
}

pub proof fn lemma_scan_escape_bounds(s: Seq<char>, i: int)
    requires
        0 <= i,
    ensures
        ({
            match scan_escape(s, i) {
                Ok((t, n)) => i < n <= s.len(),
                Err(_) => true,
            }
        }),
{
    if i + 1 < s.len() && s[i + 1] == '[' {
        if i + 2 < s.len() && s[i + 2] == '=' {
            lemma_scan_reset_bounds(s, i + 3, None);
        } else {
            lemma_scan_params_bounds(s, i + 2, None, Seq::empty());
        }
    }
}

/// Tokenizes one line (which holds no line break) from index `i` on.
pub open spec fn tokenize_from(s: Seq<char>, i: int) -> Result<Seq<SpecToken>, RenderError>
    decreases s.len() - i,
    via tokenize_from_dec
{
    if i < 0 || i >= s.len() {
        Ok(Seq::empty())
    } else if s[i] == esc_char() {
        match scan_escape(s, i) {
            Ok((t, n)) => match tokenize_from(s, n) {
                Ok(ts) => Ok(seq![t] + ts),
                Err(e) => Err(e),
            },
            Err(e) => Err(e),
        }
    } else {
        let (t, n) = scan_text(s, i, Seq::empty());
        match tokenize_from(s, n) {
            Ok(ts) => Ok(seq![SpecToken::Text(t)] + ts),
            Err(e) => Err(e),
        }
    }
}

#[via_fn]
proof fn tokenize_from_dec(s: Seq<char>, i: int) {
    if 0 <= i && i < s.len() {
        lemma_scan_escape_bounds(s, i);
        lemma_scan_text_bounds(s, i, Seq::empty());
    }
}

fn scan_text_exec(line: &Vec<char>, start: usize) -> (r: (Vec<char>, usize))
    requires
        start <= line@.len(),
    ensures
        ({
            let (t, n) = scan_text(line@, start as int, Seq::empty());
            &&& r.0@ == t
            &&& r.1 == n
            &&& start <= n <= line@.len()
        }),
{
    let mut acc: Vec<char> = Vec::new();
    let mut i = start;
    while i < line.len() && line[i] != '\u{1b}'
        invariant
            start <= i <= line@.len(),
            scan_text(line@, start as int, Seq::empty()) == scan_text(line@, i as int, acc@),
        decreases line@.len() - i,
    {
        acc.push(line[i]);
        i = i + 1;
    }
    proof {
        lemma_scan_text_bounds(line@, start as int, Seq::empty());
    }
    (acc, i)
}

fn scan_params_exec(line: &Vec<char>, start: usize) -> (r: Result<(Vec<u8>, usize), RenderError>)
    requires
        start <= line@.len(),
    ensures
        ({
            match (r, scan_params(line@, start as int, None, Seq::empty())) {
                (Ok((ps, n)), Ok((sps, sn))) => ps@ == sps && n == sn && start < n <= line@.len(),
                (Err(a), Err(b)) => a == b,
                _ => false,
            }
        }),
{
    let mut acc: Vec<u8> = Vec::new();
    let mut cur: Option<u32> = None;
    let mut i = start;
    loop
        invariant
            start <= i <= line@.len(),
            match cur {
                Some(v) => v <= 255,
                None => true,
            },
            scan_params(line@, start as int, None, Seq::empty()) == scan_params(
                line@,
                i as int,
                match cur {
                    Some(v) => Some(v as int),
                    None => None,
                },
                acc@,
            ),
        decreases line@.len() - i,
    {
        if i >= line.len() {
            return Err(RenderError::MalformedInput);
        }
        let c = line[i];
        let u = c as u32;
        if 48 <= u && u <= 57 {
            let v = (match cur {
                Some(v) => v,
                None => 0,
            }) * 10 + (u - 48);
            if v > 255 {
                return Err(RenderError::MalformedInput);
            }
            cur = Some(v);
            i = i + 1;
        } else if c == ';' {
            match cur {
                Some(v) => {
                    acc.push(v as u8);
                    cur = None;
                    i = i + 1;
                },
                None => {
                    return Err(RenderError::MalformedInput);
                },
            }
        } else if c == 'm' {
            match cur {
                Some(v) => {
                    acc.push(v as u8);
                    return Ok((acc, i + 1));
                },
                None => {
                    return Err(RenderError::MalformedInput);
                },
            }
        } else {
            return Err(RenderError::UnsupportedEscapeSequence);
        }
    }
}

fn scan_reset_exec(line: &Vec<char>, start: usize) -> (r: Result<(u8, usize), RenderError>)
    requires
        start <= line@.len(),
    ensures
        ({
            match (r, scan_reset(line@, start as int, None)) {
                (Ok((m, n)), Ok((sm, sn))) => m == sm && n == sn && start < n <= line@.len(),
                (Err(a), Err(b)) => a == b,
                _ => false,
            }
        }),
{
    let mut cur: Option<u32> = None;
    let mut i = start;
    loop
        invariant
            start <= i <= line@.len(),
            match cur {
                Some(v) => v <= 255,
                None => true,
            },
            scan_reset(line@, start as int, None) == scan_reset(
                line@,
                i as int,
                match cur {
                    Some(v) => Some(v as int),
                    None => None,
                },
            ),
        decreases line@.len() - i,
    {
        if i >= line.len() {
            return Err(RenderError::MalformedInput);
        }
        let c = line[i];
        let u = c as u32;
        if 48 <= u && u <= 57 {
            let v = (match cur {
                Some(v) => v,
                None => 0,
            }) * 10 + (u - 48);
            if v > 255 {
                return Err(RenderError::MalformedInput);
            }
            cur = Some(v);
            i = i + 1;
        } else if c == 'l' {
            match cur {
                Some(v) => {
                    return Ok((v as u8, i + 1));
                },
                None => {
                    return Err(RenderError::MalformedInput);
                },
            }
        } else {
            return Err(RenderError::UnsupportedEscapeSequence);
        }
    }
}

fn scan_escape_exec(line: &Vec<char>, i: usize) -> (r: Result<(Token, usize), RenderError>)
    requires
        i < line@.len(),
        line@[i as int] == esc_char(),
    ensures
        ({
            match (r, scan_escape(line@, i as int)) {
                (Ok((t, n)), Ok((st, sn))) => t@ == st && n == sn && i < n <= line@.len(),
                (Err(a), Err(b)) => a == b,
                _ => false,
            }
        }),
{
    let n = line.len();
    if i + 1 >= n {
        Err(RenderError::MalformedInput)
    } else if line[i + 1] != '[' {
        Err(RenderError::UnsupportedEscapeSequence)
    } else if i + 2 < line.len() && line[i + 2] == '=' {
        match scan_reset_exec(line, i + 3) {
            Ok((m, n)) => Ok((Token::Reset(m), n)),
            Err(e) => Err(e),
        }
    } else {
        match scan_params_exec(line, i + 2) {
            Ok((ps, n)) => Ok((Token::SetGraphics(ps), n)),
            Err(e) => Err(e),
        }
    }
}

/// Whether the executable token result matches the mathematical one.
pub open spec fn matches_tokens(
    r: Result<Vec<Token>, RenderError>,
    m: Result<Seq<SpecToken>, RenderError>,
) -> bool {
    match (r, m) {
        (Ok(v), Ok(ts)) => tokens_view(v@) == ts,
        (Err(a), Err(b)) => a == b,
        _ => false,
    }
}

fn tokenize_rec(line: &Vec<char>, i: usize) -> (r: Result<Vec<Token>, RenderError>)
    requires
        i <= line@.len(),
    ensures
        matches_tokens(r, tokenize_from(line@, i as int)),
    decreases line@.len() - i,
{
    if i >= line.len() {
        let v: Vec<Token> = Vec::new();
        proof {
            assert(tokens_view(v@) =~= Seq::<SpecToken>::empty());
        }
        Ok(v)
    } else if line[i] == '\u{1b}' {
        match scan_escape_exec(line, i) {
            Err(e) => Err(e),
            Ok((t, n)) => match tokenize_rec(line, n) {
                Err(e) => Err(e),
                Ok(mut rest) => {
                    let ghost old_rest = rest@;
                    rest.insert(0, t);
                    proof {
                        assert(rest@ =~= seq![t] + old_rest);
                        assert(tokens_view(seq![t] + old_rest) =~= seq![t@] + tokens_view(
                            old_rest,
                        ));
                    }
                    Ok(rest)
                },
            },
        }
    } else {
        let (t, n) = scan_text_exec(line, i);
        proof {
            lemma_scan_text_bounds(line@, i as int, Seq::empty());
        }
        match tokenize_rec(line, n) {
            Err(e) => Err(e),
            Ok(mut rest) => {
                let ghost old_rest = rest@;
                let tok = Token::Text(t);
                rest.insert(0, tok);
                proof {
                    assert(rest@ =~= seq![tok] + old_rest);
                    assert(tokens_view(seq![tok] + old_rest) =~= seq![tok@] + tokens_view(
                        old_rest,
                    ));
                }
                Ok(rest)
            },
        }
    }
}

/// Tokenizes one line into text runs and escapes, or reports why it
/// cannot be.
pub fn tokenize(line: &Vec<char>) -> (r: Result<Vec<Token>, RenderError>)
    ensures
        matches_tokens(r, tokenize_from(line@, 0)),
{
    tokenize_rec(line, 0)
}

/// A line with its trailing carriage return dropped, as happens just
/// before a line feed.
pub open spec fn strip_cr(l: Seq<char>) -> Seq<char> {
    if l.len() > 0 && l[l.len() - 1] == '\r' {
        l.drop_last()
    } else {
        l
    }
}

/// Splits the input into lines: lines end at a line feed, a carriage
/// return just before the line feed is dropped, and the final line
/// ending is optional.  `cur` is the part of the current line read so
/// far.
pub open spec fn split_rec(s: Seq<char>, i: int, cur: Seq<char>) -> Seq<Seq<char>>
    decreases s.len() - i,
{
    if i < 0 || i >= s.len() {
        if cur.len() == 0 {
            Seq::empty()
        } else {
            seq![cur]
        }
    } else if s[i] == '\n' {
        seq![strip_cr(cur)] + split_rec(s, i + 1, Seq::empty())
    } else {
        split_rec(s, i + 1, cur.push(s[i]))
    }
}

/// The lines of the input.
pub open spec fn split_lines_spec(s: Seq<char>) -> Seq<Seq<char>> {
    split_rec(s, 0, Seq::empty())
}

/// The line views of a split result.
pub open spec fn lines_view(ls: Seq<Vec<char>>) -> Seq<Seq<char>> {
    ls.map_values(|l: Vec<char>| l@)
}

/// Splits the input into lines.
pub fn split_lines(s: &Vec<char>) -> (r: Vec<Vec<char>>)
    ensures
        lines_view(r@) == split_lines_spec(s@),
{
    let mut acc: Vec<Vec<char>> = Vec::new();
    let mut cur: Vec<char> = Vec::new();
    let mut i: usize = 0;
    proof {
        assert(lines_view(acc@) =~= Seq::<Seq<char>>::empty());
        assert(Seq::<Seq<char>>::empty() + split_rec(s@, 0, cur@) =~= split_rec(s@, 0, cur@));
    }
    while i < s.len()
        invariant
            i <= s@.len(),
            split_lines_spec(s@) == lines_view(acc@) + split_rec(s@, i as int, cur@),
        decreases s@.len() - i,
    {
        let c = s[i];
        if c == '\n' {
            let ghost pre = cur@;
            if cur.len() > 0 && cur[cur.len() - 1] == '\r' {
                cur.pop();
                proof {
                    assert(cur@ =~= strip_cr(pre));
                }
            }
            let ghost before = acc@;
            acc.push(cur);
            cur = Vec::new();
            proof {
                assert(lines_view(acc@) =~= lines_view(before) + seq![strip_cr(pre)]);
                assert(lines_view(acc@) + split_rec(s@, i as int + 1, cur@) =~= lines_view(before)
                    + (seq![strip_cr(pre)] + split_rec(s@, i as int + 1, cur@)));
            }
        } else {
            cur.push(c);
        }
        i = i + 1;
    }
    if cur.len() > 0 {
        let ghost before = acc@;
        acc.push(cur);
        proof {
            assert(lines_view(acc@) =~= lines_view(before) + seq![acc@[acc@.len() - 1]@]);
            assert(lines_view(acc@) =~= split_lines_spec(s@));
        }
    } else {
        proof {
            assert(lines_view(acc@) + split_rec(s@, s@.len() as int, cur@) =~= lines_view(acc@));
        }
    }
    acc
}

} // verus!
