//! A reader of text in small pieces: marks, numbers and words.

use crate::resp::RespError;
use crate::text::{
    byte_seqs, copy_range, i64_value, parse_i64, ASTERISK, COLON, CR, DOLLAR, LF, PLUS,
};
use vstd::prelude::*;

verus! {

/// A piece of text.
#[derive(Debug, PartialEq)]
pub enum Token {
    Asterisk,
    CRLF,
    Dollar,
    Plus,
    Minus,
    Colon,
    Underscore,
    Comma,
    PercentSign,
    BracketOpen,
    Exclamation,
    EqualSign,
    Tilde,
    GreaterThan,
    Question,
    Num(i64),
    Word(Vec<u8>),
    NewLine,
    CarriageReturn,
}

/// What a `Token` stands for.
pub enum TokenView {
    Asterisk,
    CRLF,
    Dollar,
    Plus,
    Minus,
    Colon,
    Underscore,
    Comma,
    PercentSign,
    BracketOpen,
    Exclamation,
    EqualSign,
    Tilde,
    GreaterThan,
    Question,
    Num(i64),
    Word(Seq<u8>),
    NewLine,
    CarriageReturn,
}

impl View for Token {
    type V = TokenView;

    open spec fn view(&self) -> TokenView {
        match self {
            Token::Asterisk => TokenView::Asterisk,
            Token::CRLF => TokenView::CRLF,
            Token::Dollar => TokenView::Dollar,
            Token::Plus => TokenView::Plus,
            Token::Minus => TokenView::Minus,
            Token::Colon => TokenView::Colon,
            Token::Underscore => TokenView::Underscore,
            Token::Comma => TokenView::Comma,
            Token::PercentSign => TokenView::PercentSign,
            Token::BracketOpen => TokenView::BracketOpen,
            Token::Exclamation => TokenView::Exclamation,
            Token::EqualSign => TokenView::EqualSign,
            Token::Tilde => TokenView::Tilde,
            Token::GreaterThan => TokenView::GreaterThan,
            Token::Question => TokenView::Question,
            Token::Num(n) => TokenView::Num(*n),
            Token::Word(w) => TokenView::Word(w@),
            Token::NewLine => TokenView::NewLine,
            Token::CarriageReturn => TokenView::CarriageReturn,
        }
    }
}

/// The index of the first CR of `s` at or after `from`, or the length of
/// `s`.
pub open spec fn run_end(s: Seq<u8>, from: int) -> int
    decreases s.len() - from,
{
    if from < 0 || from >= s.len() || s[from] == CR {
        from
    } else {
        run_end(s, from + 1)
    }
}

/// A run ends inside the text.
pub proof fn lemma_run_end(s: Seq<u8>, from: int)
    requires
        0 <= from <= s.len(),
    ensures
        from <= run_end(s, from) <= s.len(),
    decreases s.len() - from,
{
    if from < s.len() && s[from] != CR {
        lemma_run_end(s, from + 1);
    }
}

/// Where reading goes on after a run that ends at `end`: behind the CR and
/// the byte after it, as far as `s` goes.
pub open spec fn after_run(s: Seq<u8>, end: int) -> int {
    if end + 2 <= s.len() {
        end + 2
    } else {
        s.len() as int
    }
}

/// The mark that a byte is, where it is one.
pub open spec fn mark(b: u8) -> Option<TokenView> {
    if b == CR || b == LF {
        Some(TokenView::CRLF)
    } else if b == COLON {
        Some(TokenView::Colon)
    } else if b == 95 {
        Some(TokenView::Underscore)
    } else if b == PLUS {
        Some(TokenView::Plus)
    } else if b == ASTERISK {
        Some(TokenView::Asterisk)
    } else if b == DOLLAR {
        Some(TokenView::Dollar)
    } else if b == 44 {
        Some(TokenView::Comma)
    } else if b == 37 {
        Some(TokenView::PercentSign)
    } else if b == 40 {
        Some(TokenView::BracketOpen)
    } else if b == 33 {
        Some(TokenView::Exclamation)
    } else if b == 61 {
        Some(TokenView::EqualSign)
    } else if b == 126 {
        Some(TokenView::Tilde)
    } else if b == 62 {
        Some(TokenView::GreaterThan)
    } else if b == 63 {
        Some(TokenView::Question)
    } else {
        None
    }
}

/// The token that starts at `pos`, and where reading goes on: a mark is one
/// byte; anything else runs up to the next CR and is a number where it reads
/// as one, else a word.
pub open spec fn token_at(s: Seq<u8>, pos: int) -> Option<(TokenView, int)> {
    if pos < 0 || pos >= s.len() {
        None
    } else {
        match mark(s[pos]) {
            Some(t) => Some((t, pos + 1)),
            None => {
                let end = run_end(s, pos + 1);
                let run = s.subrange(pos, end);
                match i64_value(run) {
                    Some(n) => Some((TokenView::Num(n), after_run(s, end))),
                    None => Some((TokenView::Word(run), after_run(s, end))),
                }
            },
        }
    }
}

/// A reader of tokens over a text.
#[derive(Debug)]
pub struct Tokenizer {
    input: Vec<u8>,
    pos: usize,
}

/// Reads the run that starts at `start`, whose first byte was taken already;
/// hands back the run and where reading goes on.
pub fn utf8_token(input: &[u8], start: usize) -> (r: (Vec<u8>, usize))
    ensures
        start < input@.len() ==> r.0@ == input@.subrange(start as int, run_end(input@, start + 1))
            && r.1 == after_run(input@, run_end(input@, start + 1)) && start < r.1
            <= input@.len(),
        start >= input@.len() ==> r.0@.len() == 0 && r.1 == input@.len(),
{
    if start >= input.len() {
        return (Vec::new(), input.len());
    }
    let mut end: usize = start + 1;
    while end < input.len() && input[end] != CR
        invariant
            start < end <= input@.len(),
            run_end(input@, start + 1) == run_end(input@, end as int),
        decreases input@.len() - end,
    {
        end += 1;
    }
    let next = if input.len() - end >= 2 {
        end + 2
    } else {
        input.len()
    };
    (copy_range(input, start, end), next)
}

fn mark_of(b: u8) -> (r: Option<Token>)
    ensures
        match r {
            Some(t) => mark(b) == Some(t@),
            None => mark(b) is None,
        },
{
    if b == CR || b == LF {
        Some(Token::CRLF)
    } else if b == COLON {
        Some(Token::Colon)
    } else if b == 95 {
        Some(Token::Underscore)
    } else if b == PLUS {
        Some(Token::Plus)
    } else if b == ASTERISK {
        Some(Token::Asterisk)
    } else if b == DOLLAR {
        Some(Token::Dollar)
    } else if b == 44 {
        Some(Token::Comma)
    } else if b == 37 {
        Some(Token::PercentSign)
    } else if b == 40 {
        Some(Token::BracketOpen)
    } else if b == 33 {
        Some(Token::Exclamation)
    } else if b == 61 {
        Some(Token::EqualSign)
    } else if b == 126 {
        Some(Token::Tilde)
    } else if b == 62 {
        Some(Token::GreaterThan)
    } else if b == 63 {
        Some(Token::Question)
    } else {
        None
    }
}

impl Tokenizer {
    /// The text that is read.
    pub closed spec fn text(&self) -> Seq<u8> {
        self.input@
    }

    /// How far the text was read.
    pub closed spec fn position(&self) -> int {
        self.pos as int
    }

    /// The reader stands inside its text.
    pub closed spec fn wf(&self) -> bool {
        self.pos <= self.input@.len()
    }

    /// A reader at the start of `s`.
    pub fn new(s: &[u8]) -> (r: Result<Tokenizer, RespError>)
        ensures
            r matches Ok(t) && t.wf() && t.text() == s@ && t.position() == 0,
    {
        Ok(Tokenizer { input: crate::text::copy_bytes(s), pos: 0 })
    }

    /// The next token; `None` at the end of the text.
    pub fn next(&mut self) -> (r: Option<Token>)
        requires
            old(self).wf(),
        ensures
            final(self).wf(),
            final(self).text() == old(self).text(),
            match r {
                Some(t) => token_at(old(self).text(), old(self).position()) == Some(
                    (t@, final(self).position()),
                ) && old(self).position() < final(self).position(),
                None => {
                    &&& token_at(old(self).text(), old(self).position()) is None
                    &&& final(self).position() == old(self).position()
                },
            },
    {
        if self.pos >= self.input.len() {
            return None;
        }
        let b = self.input[self.pos];
        match mark_of(b) {
            Some(t) => {
                self.pos = self.pos + 1;
                Some(t)
            },
            None => {
                let (run, next) = utf8_token(self.input.as_slice(), self.pos);
                self.pos = next;
                match parse_i64(run.as_slice()) {
                    Some(n) => Some(Token::Num(n)),
                    None => Some(Token::Word(run)),
                }
            },
        }
    }
}

/// The words of the line that starts at `pos`: the words among the tokens up
/// to the next line end, and where reading goes on.
pub open spec fn line_words(s: Seq<u8>, pos: int) -> (Seq<Seq<u8>>, int)
    decreases s.len() - pos,
{
    match token_at(s, pos) {
        None => (Seq::<Seq<u8>>::empty(), pos),
        Some((t, next)) => if next <= pos || next > s.len() {
            (Seq::<Seq<u8>>::empty(), pos)
        } else {
            match t {
                TokenView::CRLF => (Seq::<Seq<u8>>::empty(), next),
                TokenView::Word(w) => {
                    let rest = line_words(s, next);
                    (seq![w] + rest.0, rest.1)
                },
                _ => line_words(s, next),
            }
        },
    }
}

/// The lines of simple strings from `pos` on, each as its words. `None`
/// where something else than a simple string, an array header mark or a
/// line end starts a line.
pub open spec fn handshake_lines(s: Seq<u8>, pos: int) -> Option<Seq<Seq<Seq<u8>>>>
    decreases s.len() - pos,
{
    match token_at(s, pos) {
        None => Some(Seq::<Seq<Seq<u8>>>::empty()),
        Some((t, next)) => if next <= pos || next > s.len() {
            None
        } else {
            match t {
                TokenView::Asterisk => handshake_lines(s, next),
                TokenView::CRLF => handshake_lines(s, next),
                TokenView::Plus => {
                    let line = line_words(s, next);
                    if line.1 < next || line.1 > s.len() {
                        None
                    } else {
                        match handshake_lines(s, line.1) {
                            Some(rest) => Some(seq![line.0] + rest),
                            None => None,
                        }
                    }
                },
                _ => None,
            }
        },
    }
}

/// The words of a list of lines.
pub open spec fn line_seqs(v: Seq<Vec<Vec<u8>>>) -> Seq<Seq<Seq<u8>>> {
    Seq::new(v.len(), |i: int| byte_seqs(v[i]@))
}

/// Reading a line ends inside the text.
pub proof fn lemma_line_words(s: Seq<u8>, pos: int)
    requires
        0 <= pos <= s.len(),
    ensures
        pos <= line_words(s, pos).1 <= s.len(),
    decreases s.len() - pos,
{
    match token_at(s, pos) {
        None => {},
        Some((t, next)) => {
            if !(next <= pos || next > s.len()) {
                match t {
                    TokenView::CRLF => {},
                    _ => {
                        lemma_line_words(s, next);
                    },
                }
            }
        },
    }
}

fn read_line_words(tk: &mut Tokenizer) -> (r: Vec<Vec<u8>>)
    requires
        old(tk).wf(),
    ensures
        final(tk).wf(),
        final(tk).text() == old(tk).text(),
        (byte_seqs(r@), final(tk).position()) == line_words(old(tk).text(), old(tk).position()),
{
    let mut res: Vec<Vec<u8>> = Vec::new();
    let ghost s = tk.text();
    let ghost start = tk.position();
    assert(byte_seqs(res@) =~= Seq::<Seq<u8>>::empty());
    loop
        invariant
            tk.wf(),
            tk.text() == s,
            s == old(tk).text(),
            start == old(tk).position(),
            line_words(s, start) == (
                byte_seqs(res@) + line_words(s, tk.position()).0,
                line_words(s, tk.position()).1,
            ),
        decreases s.len() - tk.position(),
    {
        let ghost before = byte_seqs(res@);
        match tk.next() {
            Some(Token::Word(w)) => {
                res.push(w);
                assert(byte_seqs(res@) =~= before.push(w@));
                assert(byte_seqs(res@) + line_words(s, tk.position()).0 =~= before + (seq![w@]
                    + line_words(s, tk.position()).0));
            },
            Some(Token::CRLF) => {
                assert(before + Seq::<Seq<u8>>::empty() =~= before);
                return res;
            },
            Some(_) => {},
            None => {
                assert(before + Seq::<Seq<u8>>::empty() =~= before);
                return res;
            },
        }
    }
}

/// Reads replies that are simple strings, each as its words; see
/// `handshake_lines`.
pub fn parse_handshake_response(resp_str: &[u8]) -> (r: Result<Vec<Vec<Vec<u8>>>, RespError>)
    ensures
        match r {
            Ok(lines) => handshake_lines(resp_str@, 0) == Some(line_seqs(lines@)),
            Err(e) => handshake_lines(resp_str@, 0) is None && e == RespError::Invalid,
        },
{
    let mut tk = match Tokenizer::new(resp_str) {
        Ok(tk) => tk,
        Err(e) => {
            return Err(e);
        },
    };
    let ghost s = resp_str@;
    let mut result: Vec<Vec<Vec<u8>>> = Vec::new();
    assert(line_seqs(result@) =~= Seq::<Seq<Seq<u8>>>::empty());
    loop
        invariant
            tk.wf(),
            tk.text() == s,
            s == resp_str@,
            handshake_lines(s, 0) == (match handshake_lines(s, tk.position()) {
                Some(rest) => Some(line_seqs(result@) + rest),
                None => None,
            }),
        decreases s.len() - tk.position(),
    {
        let ghost before = line_seqs(result@);
        match tk.next() {
            Some(Token::Asterisk) => {},
            Some(Token::CRLF) => {},
            Some(Token::Plus) => {
                proof {
                    lemma_line_words(s, tk.position());
                }
                let res = read_line_words(&mut tk);
                proof {
                    assert forall|rest: Seq<Seq<Seq<u8>>>|
                        before + (seq![byte_seqs(res@)] + rest) == #[trigger] (before.push(
                            byte_seqs(res@),
                        ) + rest) by {
                        assert(before + (seq![byte_seqs(res@)] + rest) =~= before.push(
                            byte_seqs(res@),
                        ) + rest);
                    }
                }
                result.push(res);
                assert(line_seqs(result@) =~= before.push(byte_seqs(res@)));
            },
            Some(_) => {
                return Err(RespError::Invalid);
            },
            None => {
                assert(before + Seq::<Seq<Seq<u8>>>::empty() =~= before);
                return Ok(result);
            },
        }
    }
}

} // verus!
