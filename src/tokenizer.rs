//! The tokenizer: from the bytes of an ACF document to a stream of tokens.

use vstd::prelude::*;
use vstd::utf8::{decode_first_scalar, length_of_first_scalar, valid_first_scalar};

use crate::chars::{char_from_u32, is_white_space, push_char, white_space};
use crate::source::TokenSource;
use crate::token::{AcfToken, ErrorView, ItemView, ParseError, TokenView};

verus! {

/// The outcome of decoding one character at a byte position.
pub enum CharStep {
    /// No byte is left.
    End,
    /// A character, and the position just after its encoding.
    Char(char, nat),
    /// The bytes there encode no character; the position where the decoder
    /// stops, after at most four bytes.
    Invalid(nat),
}

/// Decodes the UTF-8 character that starts at byte `i` of `b`.
pub open spec fn char_step(b: Seq<u8>, i: nat) -> CharStep {
    let rest = b.skip(i as int);
    if i >= b.len() {
        CharStep::End
    } else if valid_first_scalar(rest) {
        CharStep::Char(decode_first_scalar(rest) as char, (i + length_of_first_scalar(rest)) as nat)
    } else if i + 4 <= b.len() {
        CharStep::Invalid((i + 4) as nat)
    } else {
        CharStep::Invalid(b.len())
    }
}

/// Decodes characters from byte `i` on and returns the first step that is not
/// a whitespace character.
pub open spec fn skip_white_space(b: Seq<u8>, i: nat) -> CharStep
    decreases b.len() - i,
{
    match char_step(b, i) {
        CharStep::Char(c, j) => if white_space(c) && i < j <= b.len() {
            skip_white_space(b, j)
        } else {
            CharStep::Char(c, j)
        },
        s => s,
    }
}

/// Scans the rest of a quoted literal from byte `i`, where `acc` holds the
/// characters already read after the opening quote. Gives the item and the
/// position after it.
pub open spec fn scan_string(b: Seq<u8>, i: nat, acc: Seq<char>) -> (ItemView, nat)
    decreases b.len() - i,
{
    match char_step(b, i) {
        CharStep::End => (Err(ErrorView::UnterminatedString), i),
        CharStep::Invalid(j) => (Err(ErrorView::InvalidEncoding), j),
        CharStep::Char(c, j) => if c == '"' {
            (Ok(TokenView::Str(acc)), j)
        } else if i < j <= b.len() {
            scan_string(b, j, acc.push(c))
        } else {
            (Ok(TokenView::Str(acc)), j)
        },
    }
}

/// The next item of the stream at byte `i` (`None` at the end of the input),
/// and the position after it.
pub open spec fn token_step(b: Seq<u8>, i: nat) -> (Option<ItemView>, nat) {
    match skip_white_space(b, i) {
        CharStep::End => (None, b.len()),
        CharStep::Invalid(j) => (Some(Err(ErrorView::InvalidEncoding)), j),
        CharStep::Char(c, j) => if c == '{' {
            (Some(Ok(TokenView::DictStart)), j)
        } else if c == '}' {
            (Some(Ok(TokenView::DictEnd)), j)
        } else if c == '"' {
            let (r, k) = scan_string(b, j, Seq::empty());
            (Some(r), k)
        } else {
            (Some(Err(ErrorView::UnexpectedCharacter(c))), j)
        },
    }
}

/// Every item that the stream yields from byte `i` on, in order.
pub open spec fn tokenize(b: Seq<u8>, i: nat) -> Seq<ItemView>
    decreases b.len() - i,
{
    let (r, j) = token_step(b, i);
    match r {
        None => Seq::empty(),
        Some(item) => if i < j <= b.len() {
            seq![item] + tokenize(b, j)
        } else {
            seq![item]
        },
    }
}

/// The model of what `try_next` returns.
pub open spec fn step_view(r: Result<Option<AcfToken>, ParseError>) -> Option<ItemView> {
    match r {
        Ok(None) => None,
        Ok(Some(t)) => Some(Ok(t@)),
        Err(e) => Some(Err(e@)),
    }
}

pub proof fn lemma_char_step_advances(b: Seq<u8>, i: nat)
    ensures
        char_step(b, i) matches CharStep::Char(_, j) ==> i < j <= b.len(),
        char_step(b, i) matches CharStep::Invalid(j) ==> i < j <= b.len(),
        char_step(b, i) is End ==> i >= b.len(),
{
}

pub proof fn lemma_skip_white_space_advances(b: Seq<u8>, i: nat)
    ensures
        skip_white_space(b, i) matches CharStep::Char(_, j) ==> i < j <= b.len(),
        skip_white_space(b, i) matches CharStep::Invalid(j) ==> i < j <= b.len(),
    decreases b.len() - i,
{
    lemma_char_step_advances(b, i);
    if let CharStep::Char(c, j) = char_step(b, i) {
        if white_space(c) {
            lemma_skip_white_space_advances(b, j);
        }
    }
}

pub proof fn lemma_scan_string_advances(b: Seq<u8>, i: nat, acc: Seq<char>)
    requires
        i <= b.len(),
    ensures
        i <= scan_string(b, i, acc).1 <= b.len(),
    decreases b.len() - i,
{
    lemma_char_step_advances(b, i);
    if let CharStep::Char(c, j) = char_step(b, i) {
        if c != '"' {
            lemma_scan_string_advances(b, j, acc.push(c));
        }
    }
}

/// Each item that the stream yields consumes at least one byte.
pub proof fn lemma_token_step_advances(b: Seq<u8>, i: nat)
    requires
        i <= b.len(),
    ensures
        token_step(b, i).0 is Some ==> i < token_step(b, i).1 <= b.len(),
        token_step(b, i).0 is None ==> token_step(b, i).1 == b.len(),
{
    lemma_skip_white_space_advances(b, i);
    if let CharStep::Char(c, j) = skip_white_space(b, i) {
        if c == '"' {
            lemma_scan_string_advances(b, j, Seq::empty());
        }
    }
}

/// The stream yields no more items than the input has bytes left.
pub proof fn lemma_tokenize_len(b: Seq<u8>, i: nat)
    requires
        i <= b.len(),
    ensures
        tokenize(b, i).len() <= b.len() - i,
    decreases b.len() - i,
{
    lemma_token_step_advances(b, i);
    let (r, j) = token_step(b, i);
    if r is Some {
        lemma_tokenize_len(b, j);
    }
}

/// The items of the stream are the item of its first step, then the rest.
pub proof fn lemma_tokenize_unfold(b: Seq<u8>, i: nat)
    requires
        i <= b.len(),
    ensures
        token_step(b, i).0 matches Some(item) ==> tokenize(b, i) == seq![item] + tokenize(
            b,
            token_step(b, i).1,
        ),
        token_step(b, i).0 is None ==> tokenize(b, i).len() == 0 && token_step(b, i).1 == b.len()
            && tokenize(b, b.len()).len() == 0,
{
    lemma_token_step_advances(b, i);
    lemma_token_step_advances(b, b.len());
}

/// A lazy stream of the tokens of an ACF document held in memory.
pub struct AcfTokenStream {
    bytes: Vec<u8>,
    pos: usize,
}

impl AcfTokenStream {
    /// The whole input.
    pub closed spec fn input(&self) -> Seq<u8> {
        self.bytes@
    }

    /// How many bytes of the input have been consumed.
    pub closed spec fn position(&self) -> nat {
        self.pos as nat
    }

    pub open spec fn wf(&self) -> bool {
        &&& self.position() <= self.input().len()
        &&& self.input().len() <= usize::MAX
    }

    /// The items that the stream has still to yield.
    pub open spec fn remaining(&self) -> Seq<ItemView> {
        tokenize(self.input(), self.position())
    }

    /// A stream over `read`, positioned at its first byte.
    pub fn new(read: Vec<u8>) -> (r: Self)
        ensures
            r.wf(),
            r.input() == read@,
            r.position() == 0,
    {
        // the length of a `Vec` fits in a `usize`
        let _len = read.len();
        AcfTokenStream { bytes: read, pos: 0 }
    }

    /// Reads the next token: `Ok(None)` once the input is exhausted.
    pub fn try_next(&mut self) -> (r: Result<Option<AcfToken>, ParseError>)
        requires
            old(self).wf(),
        ensures
            final(self).wf(),
            final(self).input() == old(self).input(),
            (step_view(r), final(self).position()) == token_step(
                old(self).input(),
                old(self).position(),
            ),
    {
        match self.next_non_whitespace_char() {
            Err(e) => Err(e),
            Ok(None) => Ok(None),
            Ok(Some(c)) => {
                if c == '{' {
                    Ok(Some(AcfToken::DictStart))
                } else if c == '}' {
                    Ok(Some(AcfToken::DictEnd))
                } else if c == '"' {
                    self.parse_str()
                } else {
                    Err(ParseError::UnexpectedCharacter(c))
                }
            },
        }
    }

    /// Decodes the character at the current position.
    fn next_char(&mut self) -> (r: Result<Option<char>, ParseError>)
        requires
            old(self).wf(),
        ensures
            final(self).wf(),
            final(self).input() == old(self).input(),
            match char_step(old(self).input(), old(self).position()) {
                CharStep::End => r == Ok::<Option<char>, ParseError>(None)
                    && final(self).position() == old(self).position(),
                CharStep::Char(c, j) => r == Ok::<Option<char>, ParseError>(Some(c))
                    && final(self).position() == j,
                CharStep::Invalid(j) => r == Err::<Option<char>, ParseError>(
                    ParseError::InvalidEncoding,
                ) && final(self).position() == j,
            },
    {
        if self.pos >= self.bytes.len() {
            return Ok(None);
        }
        match decode_at(&self.bytes, self.pos) {
            Some((c, j)) => {
                self.pos = j;
                Ok(Some(c))
            },
            None => {
                if self.bytes.len() - self.pos >= 4 {
                    self.pos = self.pos + 4;
                } else {
                    self.pos = self.bytes.len();
                }
                Err(ParseError::InvalidEncoding)
            },
        }
    }

    /// Decodes characters until one is not whitespace.
    fn next_non_whitespace_char(&mut self) -> (r: Result<Option<char>, ParseError>)
        requires
            old(self).wf(),
        ensures
            final(self).wf(),
            final(self).input() == old(self).input(),
            match skip_white_space(old(self).input(), old(self).position()) {
                CharStep::End => r == Ok::<Option<char>, ParseError>(None)
                    && final(self).position() == old(self).input().len(),
                CharStep::Char(c, j) => r == Ok::<Option<char>, ParseError>(Some(c))
                    && final(self).position() == j,
                CharStep::Invalid(j) => r == Err::<Option<char>, ParseError>(
                    ParseError::InvalidEncoding,
                ) && final(self).position() == j,
            },
    {
        loop
            invariant
                self.wf(),
                self.input() == old(self).input(),
                skip_white_space(self.input(), self.position()) == skip_white_space(
                    old(self).input(),
                    old(self).position(),
                ),
            decreases self.input().len() - self.position(),
        {
            proof {
                lemma_char_step_advances(self.input(), self.position());
            }
            match self.next_char() {
                Err(e) => return Err(e),
                Ok(None) => return Ok(None),
                Ok(Some(c)) => {
                    if !is_white_space(c) {
                        return Ok(Some(c));
                    }
                },
            }
        }
    }

    /// Reads the rest of a quoted literal, after its opening quote.
    fn parse_str(&mut self) -> (r: Result<Option<AcfToken>, ParseError>)
        requires
            old(self).wf(),
        ensures
            final(self).wf(),
            final(self).input() == old(self).input(),
            (step_view(r), final(self).position()) == ({
                let (item, k) = scan_string(old(self).input(), old(self).position(), Seq::empty());
                (Some(item), k)
            }),
    {
        let mut buf = String::new();
        loop
            invariant
                self.wf(),
                self.input() == old(self).input(),
                scan_string(self.input(), self.position(), buf@) == scan_string(
                    old(self).input(),
                    old(self).position(),
                    Seq::empty(),
                ),
            decreases self.input().len() - self.position(),
        {
            proof {
                lemma_char_step_advances(self.input(), self.position());
            }
            match self.next_char() {
                Err(e) => return Err(e),
                Ok(None) => return Err(ParseError::UnterminatedString),
                Ok(Some(c)) => {
                    if c == '"' {
                        return Ok(Some(AcfToken::String(buf)));
                    }
                    push_char(&mut buf, c);
                },
            }
        }
    }
}

/// Decodes the UTF-8 character that starts at byte `i`: `None` where the
/// bytes there are no valid encoding of a character.
fn decode_at(b: &Vec<u8>, i: usize) -> (r: Option<(char, usize)>)
    requires
        i < b@.len(),
    ensures
        match r {
            Some((c, j)) => valid_first_scalar(b@.skip(i as int)) && c == decode_first_scalar(
                b@.skip(i as int),
            ) as char && j == i + length_of_first_scalar(b@.skip(i as int)),
            None => !valid_first_scalar(b@.skip(i as int)),
        },
{
    let n = b.len() - i;
    let b0 = b[i];
    let cp: u32;
    let w: usize;
    if b0 <= 0x7f {
        cp = (b0 & 0x7f) as u32;
        w = 1;
        assert(cp <= 0x7f) by (bit_vector)
            requires
                cp == (b0 & 0x7f) as u32,
        ;
    } else if 0xc0 <= b0 && b0 <= 0xdf {
        if n < 2 {
            return None;
        }
        let b1 = b[i + 1];
        if !(0x80 <= b1 && b1 <= 0xbf) {
            return None;
        }
        cp = (((b0 & 0x1f) as u32) << 6) | ((b1 & 0x3f) as u32);
        w = 2;
        assert(cp <= 0x7ff) by (bit_vector)
            requires
                cp == (((b0 & 0x1f) as u32) << 6) | ((b1 & 0x3f) as u32),
        ;
    } else if 0xe0 <= b0 && b0 <= 0xef {
        if n < 3 {
            return None;
        }
        let b1 = b[i + 1];
        let b2 = b[i + 2];
        if !(0x80 <= b1 && b1 <= 0xbf && 0x80 <= b2 && b2 <= 0xbf) {
            return None;
        }
        cp = (((b0 & 0x0f) as u32) << 12) | (((b1 & 0x3f) as u32) << 6) | ((b2 & 0x3f) as u32);
        w = 3;
        assert(cp <= 0xffff) by (bit_vector)
            requires
                cp == (((b0 & 0x0f) as u32) << 12) | (((b1 & 0x3f) as u32) << 6) | ((b2
                    & 0x3f) as u32),
        ;
    } else if 0xf0 <= b0 && b0 <= 0xf7 {
        if n < 4 {
            return None;
        }
        let b1 = b[i + 1];
        let b2 = b[i + 2];
        let b3 = b[i + 3];
        if !(0x80 <= b1 && b1 <= 0xbf && 0x80 <= b2 && b2 <= 0xbf && 0x80 <= b3 && b3 <= 0xbf) {
            return None;
        }
        cp = (((b0 & 0x07) as u32) << 18) | (((b1 & 0x3f) as u32) << 12) | (((b2 & 0x3f) as u32)
            << 6) | ((b3 & 0x3f) as u32);
        w = 4;
    } else {
        return None;
    }
    if (w == 2 && cp < 0x80) || (w == 3 && cp < 0x800) || (w == 4 && (cp < 0x10000 || cp
        > 0x10ffff)) {
        return None;
    }
    if 0xd800 <= cp && cp <= 0xdfff {
        return None;
    }
    match char_from_u32(cp) {
        Some(c) => {
            proof {
                vstd::utf8::char_u32_cast(c, cp);
            }
            Some((c, i + w))
        },
        None => None,
    }
}

impl TokenSource for AcfTokenStream {
    open spec fn pending(&self) -> Seq<ItemView> {
        self.remaining()
    }

    open spec fn valid(&self) -> bool {
        self.wf()
    }

    proof fn lemma_pending_bound(&self) {
        lemma_tokenize_len(self.input(), self.position());
    }

    /// The next token, or the error met in reading it.
    fn next(&mut self) -> (r: Option<Result<AcfToken, ParseError>>) {
        proof {
            lemma_tokenize_unfold(self.input(), self.position());
        }
        let ghost before = self.remaining();
        let r = match self.try_next() {
            Ok(None) => None,
            Ok(Some(t)) => Some(Ok(t)),
            Err(e) => Some(Err(e)),
        };
        proof {
            if before.len() > 0 {
                assert(before.drop_first() =~= self.remaining());
            }
        }
        r
    }
}

} // verus!
