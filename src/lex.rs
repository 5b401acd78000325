//! The scanner: turns text into tokens, each with the byte offsets where it starts and ends.
use vstd::prelude::*;
use crate::table::is_special;
use crate::text::{chars_of, char_width, lemma_encode_concat, substring, utf8_len};

verus! {

/// One lexical unit of a CSV document. `TEXTDATA` is a maximal run of characters that are
/// none of comma, CR, LF and double quote. The `_BEFORE_EOF` kinds end the input.
#[derive(Debug, Clone)]
#[allow(non_camel_case_types)]
pub enum Token<S> {
    COMMA,
    CR,
    DQUOTE,
    LF,
    CRLF,
    TEXTDATA(S),
    LF_BEFORE_EOF,
    CRLF_BEFORE_EOF,
}

impl<S: View> View for Token<S> {
    type V = Token<S::V>;

    open spec fn view(&self) -> Token<S::V> {
        match self {
            Token::COMMA => Token::COMMA,
            Token::CR => Token::CR,
            Token::DQUOTE => Token::DQUOTE,
            Token::LF => Token::LF,
            Token::CRLF => Token::CRLF,
            Token::TEXTDATA(s) => Token::TEXTDATA(s@),
            Token::LF_BEFORE_EOF => Token::LF_BEFORE_EOF,
            Token::CRLF_BEFORE_EOF => Token::CRLF_BEFORE_EOF,
        }
    }
}

/// The characters a token stands for.
pub open spec fn token_text(t: Token<Seq<char>>) -> Seq<char> {
    match t {
        Token::COMMA => seq![','],
        Token::CR => seq!['\r'],
        Token::DQUOTE => seq!['"'],
        Token::LF => seq!['\n'],
        Token::CRLF => seq!['\r', '\n'],
        Token::TEXTDATA(s) => s,
        Token::LF_BEFORE_EOF => seq!['\n'],
        Token::CRLF_BEFORE_EOF => seq!['\r', '\n'],
    }
}

/// The number of leading characters of `s` that are not special.
pub open spec fn plain_len(s: Seq<char>) -> nat
    decreases s.len(),
{
    if s.len() == 0 || is_special(s[0]) {
        0
    } else {
        1 + plain_len(s.drop_first())
    }
}

/// The token at the start of non-empty `s`, and how many characters it covers. CR and LF
/// together make one CRLF; a line end that is the last of the input is of a `_BEFORE_EOF` kind.
pub open spec fn first_token(s: Seq<char>) -> (Token<Seq<char>>, nat)
    recommends
        s.len() > 0,
{
    let c = s[0];
    if c == ',' {
        (Token::COMMA, 1)
    } else if c == '"' {
        (Token::DQUOTE, 1)
    } else if c == '\r' {
        if s.len() > 1 && s[1] == '\n' {
            if s.len() == 2 {
                (Token::CRLF_BEFORE_EOF, 2)
            } else {
                (Token::CRLF, 2)
            }
        } else {
            (Token::CR, 1)
        }
    } else if c == '\n' {
        if s.len() == 1 {
            (Token::LF_BEFORE_EOF, 1)
        } else {
            (Token::LF, 1)
        }
    } else {
        (Token::TEXTDATA(s.take(plain_len(s) as int)), plain_len(s))
    }
}

/// A token covers its own text at the start of `s`, and at least one character.
pub proof fn lemma_first_token_text(s: Seq<char>)
    requires
        s.len() > 0,
    ensures
        0 < first_token(s).1 <= s.len(),
        token_text(first_token(s).0) == s.take(first_token(s).1 as int),
{
    let c = s[0];
    if c == ',' || c == '"' || c == '\r' || c == '\n' {
        if c == '\r' && s.len() > 1 && s[1] == '\n' {
            assert(s.take(2) =~= seq!['\r', '\n']);
        } else {
            assert(s.take(1) =~= seq![c]);
        }
    } else {
        assert(s.drop_first().len() >= 0);
        assert(plain_len(s) >= 1);
        lemma_plain_len_bound(s);
    }
}

proof fn lemma_plain_len_bound(s: Seq<char>)
    ensures
        plain_len(s) <= s.len(),
    decreases s.len(),
{
    if s.len() > 0 && !is_special(s[0]) {
        lemma_plain_len_bound(s.drop_first());
    }
}

proof fn lemma_plain_len(s: Seq<char>, k: int)
    requires
        0 <= k <= s.len(),
        forall|i: int| 0 <= i < k ==> !is_special(#[trigger] s[i]),
        k == s.len() || is_special(s[k]),
    ensures
        plain_len(s) == k,
    decreases k,
{
    if k > 0 {
        let t = s.drop_first();
        assert forall|i: int| 0 <= i < k - 1 implies !is_special(#[trigger] t[i]) by {
            assert(t[i] == s[i + 1]);
        }
        if k < s.len() {
            assert(t[k - 1] == s[k]);
        }
        lemma_plain_len(t, k - 1);
    }
}

impl<'a> Token<&'a str> {
    /// The same token, with its text copied out of the input.
    pub fn to_owned(self) -> (r: Token<String>)
        ensures
            r@ == self@,
    {
        match self {
            Token::COMMA => Token::COMMA,
            Token::CR => Token::CR,
            Token::DQUOTE => Token::DQUOTE,
            Token::LF => Token::LF,
            Token::CRLF => Token::CRLF,
            Token::TEXTDATA(s) => Token::TEXTDATA(s.to_string()),
            Token::LF_BEFORE_EOF => Token::LF_BEFORE_EOF,
            Token::CRLF_BEFORE_EOF => Token::CRLF_BEFORE_EOF,
        }
    }
}

/// What `{:?}` writes for a string: the string in double quotes, with special characters
/// escaped.
pub uninterp spec fn debug_quoted(s: Seq<char>) -> Seq<char>;

/// Relies on the `Debug` impl of `str`, through `format!("{:?}")`: its output depends on the
/// string alone.
#[verifier::external_body]
fn debug_str(s: &str) -> (r: String)
    ensures
        r@ == debug_quoted(s@),
{
    format!("{:?}", s)
}

/// The name of a token kind, with the text of a `TEXTDATA` token as `{:?}` writes it.
pub open spec fn token_name(t: Token<Seq<char>>) -> Seq<char> {
    match t {
        Token::COMMA => seq!['C', 'O', 'M', 'M', 'A'],
        Token::CR => seq!['C', 'R'],
        Token::DQUOTE => seq!['D', 'Q', 'U', 'O', 'T', 'E'],
        Token::LF => seq!['L', 'F'],
        Token::CRLF => seq!['C', 'R', 'L', 'F'],
        Token::TEXTDATA(s) => seq!['T', 'E', 'X', 'T', 'D', 'A', 'T', 'A', '('] + debug_quoted(s)
            + seq![')'],
        Token::LF_BEFORE_EOF => seq![
            'L', 'F', '_', 'B', 'E', 'F', 'O', 'R', 'E', '_', 'E', 'O', 'F',
        ],
        Token::CRLF_BEFORE_EOF => seq![
            'C', 'R', 'L', 'F', '_', 'B', 'E', 'F', 'O', 'R', 'E', '_', 'E', 'O', 'F',
        ],
    }
}

/// The name of a `TEXTDATA` token whose text `{:?}` writes as `debug`.
pub fn text_token_name(debug: &str) -> (r: String)
    ensures
        r@ == seq!['T', 'E', 'X', 'T', 'D', 'A', 'T', 'A', '('] + debug@ + seq![')'],
{
    let mut out = String::new();
    out.append("TEXTDATA(");
    out.append(debug);
    out.append(")");
    proof {
        reveal_strlit("TEXTDATA(");
        reveal_strlit(")");
        assert(out@ =~= seq!['T', 'E', 'X', 'T', 'D', 'A', 'T', 'A', '('] + debug@ + seq![')']);
    }
    out
}

impl Token<String> {
    /// The token as it appears in messages, such as `COMMA` or `TEXTDATA("abc")`.
    pub fn to_string(&self) -> (r: String)
        ensures
            r@ == token_name(self@),
    {
        let name = match self {
            Token::COMMA => "COMMA",
            Token::CR => "CR",
            Token::DQUOTE => "DQUOTE",
            Token::LF => "LF",
            Token::CRLF => "CRLF",
            Token::TEXTDATA(s) => {
                let d = debug_str(s.as_str());
                return text_token_name(d.as_str());
            },
            Token::LF_BEFORE_EOF => "LF_BEFORE_EOF",
            Token::CRLF_BEFORE_EOF => "CRLF_BEFORE_EOF",
        };
        proof {
            reveal_strlit("COMMA");
            reveal_strlit("CR");
            reveal_strlit("DQUOTE");
            reveal_strlit("LF");
            reveal_strlit("CRLF");
            reveal_strlit("LF_BEFORE_EOF");
            reveal_strlit("CRLF_BEFORE_EOF");
        }
        name.to_string()
    }
}

/// Scans a text from front to back, one token per call of [`Lexer::next`]. Text tokens
/// borrow from the input.
pub struct Lexer<'a> {
    input: &'a str,
    chars: Vec<char>,
    pos: usize,
    offset: usize,
    len_bytes: usize,
}

impl<'a> Lexer<'a> {
    /// The text being scanned.
    pub closed spec fn source(&self) -> Seq<char> {
        self.input@
    }

    /// How many characters have been scanned.
    pub closed spec fn pos(&self) -> nat {
        self.pos as nat
    }

    /// The scanner's state agrees with its text: `pos` characters read, `offset` bytes.
    pub closed spec fn wf(&self) -> bool {
        &&& self.chars@ == self.input@
        &&& self.pos <= self.chars@.len()
        &&& self.offset == utf8_len(self.input@.take(self.pos as int))
        &&& self.len_bytes == utf8_len(self.input@)
    }

    /// The scanner never runs past the end of its text.
    pub proof fn lemma_pos_bound(&self)
        requires
            self.wf(),
        ensures
            self.pos() <= self.source().len(),
    {
    }

    /// The characters not scanned yet.
    pub open spec fn rest(&self) -> Seq<char> {
        self.source().skip(self.pos() as int)
    }

    pub fn new(input: &'a str) -> (r: Lexer<'a>)
        ensures
            r.wf(),
            r.source() == input@,
            r.pos() == 0,
    {
        let chars = chars_of(input);
        let len_bytes = input.as_bytes().len();
        proof {
            assert(input@.take(0) =~= Seq::<char>::empty());
            assert(vstd::utf8::encode_utf8(Seq::<char>::empty()) =~= Seq::<u8>::empty());
        }
        Lexer { input, chars, pos: 0, offset: 0, len_bytes }
    }

    fn advance(&mut self)
        requires
            old(self).wf(),
            old(self).pos() < old(self).source().len(),
        ensures
            final(self).wf(),
            final(self).source() == old(self).source(),
            final(self).input == old(self).input,
            final(self).pos() == old(self).pos() + 1,
    {
        let n = self.chars.len();
        let c = self.chars[self.pos];
        let w = char_width(c);
        assert(self.pos < n);
        proof {
            let s = self.input@;
            let p = self.pos as int;
            assert(s.take(p + 1) =~= s.take(p) + seq![c]);
            lemma_encode_concat(s.take(p), seq![c]);
            assert(s =~= s.take(p + 1) + s.skip(p + 1));
            lemma_encode_concat(s.take(p + 1), s.skip(p + 1));
        }
        self.offset = self.offset + w;
        self.pos = self.pos + 1;
    }

    /// The next token with the byte offsets where it starts and ends; none at the end of the
    /// input.
    pub fn next(&mut self) -> (r: Option<(usize, Token<&'a str>, usize)>)
        requires
            old(self).wf(),
        ensures
            final(self).wf(),
            final(self).source() == old(self).source(),
            old(self).rest().len() == 0 ==> r is None && final(self).pos() == old(self).pos(),
            old(self).rest().len() > 0 ==> {
                let (t, n) = first_token(old(self).rest());
                let (start, tok, end) = r->0;
                &&& r is Some
                &&& tok@ == t
                &&& final(self).pos() == old(self).pos() + n
                &&& start == utf8_len(old(self).source().take(old(self).pos() as int))
                &&& end == utf8_len(final(self).source().take(final(self).pos() as int))
            },
    {
        if self.pos >= self.chars.len() {
            return None;
        }
        let ghost rest = self.rest();
        let start = self.offset;
        let i = self.pos;
        let c = self.chars[i];
        proof {
            assert(rest[0] == c);
            assert(rest.len() == self.chars@.len() - i);
        }
        if c == ',' {
            self.advance();
            return Some((start, Token::COMMA, self.offset));
        }
        if c == '"' {
            self.advance();
            return Some((start, Token::DQUOTE, self.offset));
        }
        if c == '\r' {
            self.advance();
            if self.pos < self.chars.len() && self.chars[self.pos] == '\n' {
                proof {
                    assert(rest[1] == self.chars@[i + 1]);
                }
                self.advance();
                if self.pos == self.chars.len() {
                    return Some((start, Token::CRLF_BEFORE_EOF, self.offset));
                }
                return Some((start, Token::CRLF, self.offset));
            }
            proof {
                if rest.len() > 1 {
                    assert(rest[1] == self.chars@[i + 1]);
                }
            }
            return Some((start, Token::CR, self.offset));
        }
        if c == '\n' {
            self.advance();
            if self.pos == self.chars.len() {
                return Some((start, Token::LF_BEFORE_EOF, self.offset));
            }
            return Some((start, Token::LF, self.offset));
        }
        self.advance();
        let mut more = true;
        while more && self.pos < self.chars.len()
            invariant
                self.wf(),
                self.input == old(self).input,
                rest == self.chars@.skip(i as int),
                i < self.pos <= self.chars@.len(),
                forall|k: int| 0 <= k < self.pos - i ==> !is_special(#[trigger] rest[k]),
                !more ==> self.pos < self.chars@.len() && is_special(self.chars@[self.pos as int]),
            decreases self.chars@.len() - self.pos + if more {
                1int
            } else {
                0int
            },
        {
            let d = self.chars[self.pos];
            proof {
                assert(rest[self.pos - i] == d);
            }
            if d == ',' || d == '"' || d == '\r' || d == '\n' {
                more = false;
            } else {
                self.advance();
            }
        }
        proof {
            let k = self.pos - i;
            if self.pos < self.chars@.len() {
                assert(rest[k] == self.chars@[self.pos as int]);
            }
            lemma_plain_len(rest, k);
            assert(rest.take(k) =~= self.input@.subrange(i as int, self.pos as int));
        }
        let text = substring(self.input, Ghost(i as int), Ghost(self.pos as int), start, self.offset);
        Some((start, Token::TEXTDATA(text), self.offset))
    }
}

} // verus!
