//! The JSON writer: pulls tokens by recursive descent and writes JSON text.

use vstd::prelude::*;
use vstd::std_specs::iter::IteratorSpec;

use crate::chars::{char_from_u32, push_char};
use crate::source::TokenSource;
use crate::token::{AcfToken, ErrorView, ItemView, ParseError, TokenView};

verus! {

broadcast use vstd::string::group_string_axioms;

/// Formatting options of the JSON output.
#[derive(Clone, Copy)]
pub struct JsonWriter {
    /// Writes no newline, indentation or space between tokens.
    pub compact: bool,
    /// Spaces per nesting level; ignored when `compact` is set.
    pub indent: u32,
}

/// What writing does with a list of pending items: the text written, the
/// items left unread, and the outcome.
pub struct Written {
    pub out: Seq<char>,
    pub rest: Seq<ItemView>,
    pub res: Result<(), ErrorView>,
}

/// `n` spaces.
pub open spec fn spaces(n: nat) -> Seq<char> {
    Seq::new(n, |i: int| ' ')
}

/// The hexadecimal digit of `d` (below 16), in lower case.
pub open spec fn hex_digit(d: u32) -> char {
    if d < 10 {
        (0x30 + d) as u32 as char
    } else {
        (0x57 + d) as u32 as char
    }
}

/// How one character of a string stands inside a JSON string literal.
pub open spec fn escape_char(c: char) -> Seq<char> {
    if c == '"' {
        seq!['\\', '"']
    } else if c == '\\' {
        seq!['\\', '\\']
    } else if c == '\n' {
        seq!['\\', 'n']
    } else if c == '\r' {
        seq!['\\', 'r']
    } else if c == '\t' {
        seq!['\\', 't']
    } else if c == '\u{8}' {
        seq!['\\', 'b']
    } else if c == '\u{c}' {
        seq!['\\', 'f']
    } else if (c as u32) < 0x20 {
        seq!['\\', 'u', '0', '0', hex_digit((c as u32) / 16), hex_digit((c as u32) % 16)]
    } else {
        seq![c]
    }
}

/// The characters of `s`, each escaped.
pub open spec fn escaped(s: Seq<char>) -> Seq<char>
    decreases s.len(),
{
    if s.len() == 0 {
        Seq::empty()
    } else {
        escaped(s.drop_last()) + escape_char(s.last())
    }
}

/// `s` as a JSON string literal.
pub open spec fn quoted(s: Seq<char>) -> Seq<char> {
    seq!['"'] + escaped(s) + seq!['"']
}

impl JsonWriter {
    /// A line break and the indentation of nesting level `depth`.
    pub open spec fn newline_text(self, depth: nat) -> Seq<char> {
        if self.compact {
            Seq::empty()
        } else {
            seq!['\n'] + spaces(depth * self.indent as nat)
        }
    }

    /// What stands before the value of a member with key `key` at nesting
    /// level `depth`.
    pub open spec fn field_head(self, depth: nat, key: Seq<char>, first: bool) -> Seq<char> {
        (if first {
            Seq::empty()
        } else {
            seq![',']
        }) + self.newline_text(depth) + quoted(key) + seq![':'] + (if self.compact {
            Seq::empty()
        } else {
            seq![' ']
        })
    }

    /// The end of an object at nesting level `depth`.
    pub open spec fn close_text(self, depth: nat) -> Seq<char> {
        self.newline_text(depth) + seq!['}']
    }

    /// Writing an object at nesting level `depth` whose `{` token has been
    /// read, with `items` pending.
    pub open spec fn write_obj(self, items: Seq<ItemView>, depth: nat) -> Written
        decreases items.len(), 1nat,
    {
        let m = self.write_members(items, depth, true);
        Written { out: seq!['{'] + m.out, rest: m.rest, res: m.res }
    }

    /// Writing the members of an object at nesting level `depth`, up to and
    /// including its end; `first` tells whether no member has been written.
    /// An object ends at a `}` token or where the items run out.
    pub open spec fn write_members(self, items: Seq<ItemView>, depth: nat, first: bool) -> Written
        decreases items.len(), 0nat,
    {
        if items.len() == 0 {
            Written { out: self.close_text(depth), rest: items, res: Ok(()) }
        } else {
            match items[0] {
                Err(e) => Written { out: Seq::empty(), rest: items.drop_first(), res: Err(e) },
                Ok(TokenView::DictEnd) => Written {
                    out: self.close_text(depth),
                    rest: items.drop_first(),
                    res: Ok(()),
                },
                Ok(TokenView::DictStart) => Written {
                    out: Seq::empty(),
                    rest: items.drop_first(),
                    res: Err(ErrorView::UnexpectedToken(TokenView::DictStart)),
                },
                Ok(TokenView::Str(key)) => {
                    let head = self.field_head(depth + 1, key, first);
                    let v = self.write_value(items.drop_first(), depth + 1);
                    if v.res is Err || v.rest.len() >= items.len() {
                        Written { out: head + v.out, rest: v.rest, res: v.res }
                    } else {
                        let m = self.write_members(v.rest, depth, false);
                        Written { out: head + v.out + m.out, rest: m.rest, res: m.res }
                    }
                },
            }
        }
    }

    /// Writing the value of a member at nesting level `depth`: a string, or
    /// an object that opens at the first pending item.
    pub open spec fn write_value(self, items: Seq<ItemView>, depth: nat) -> Written
        decreases items.len(), 2nat,
    {
        if items.len() == 0 {
            Written { out: Seq::empty(), rest: items, res: Err(ErrorView::UnexpectedEof) }
        } else {
            match items[0] {
                Err(e) => Written { out: Seq::empty(), rest: items.drop_first(), res: Err(e) },
                Ok(TokenView::Str(s)) => Written {
                    out: quoted(s),
                    rest: items.drop_first(),
                    res: Ok(()),
                },
                Ok(TokenView::DictStart) => self.write_obj(items.drop_first(), depth),
                Ok(TokenView::DictEnd) => Written {
                    out: Seq::empty(),
                    rest: items.drop_first(),
                    res: Err(ErrorView::UnexpectedToken(TokenView::DictEnd)),
                },
            }
        }
    }

    /// Writing a whole document: a `{` token, then the object it opens.
    pub open spec fn write_document(self, items: Seq<ItemView>) -> Written {
        if items.len() == 0 {
            Written { out: Seq::empty(), rest: items, res: Err(ErrorView::UnexpectedEof) }
        } else {
            match items[0] {
                Ok(TokenView::DictStart) => self.write_obj(items.drop_first(), 0),
                Ok(t) => Written {
                    out: Seq::empty(),
                    rest: items.drop_first(),
                    res: Err(ErrorView::UnexpectedToken(t)),
                },
                Err(e) => Written { out: Seq::empty(), rest: items.drop_first(), res: Err(e) },
            }
        }
    }

    /// Writes the JSON object that `tokens` start with at the end of `out`.
    ///
    /// The first token must be `{`; the object then ends at its matching `}`,
    /// or where the tokens run out. No token after it is read. On an error
    /// the text written so far stays in `out`.
    pub fn write<S: TokenSource>(&self, tokens: &mut S, out: &mut String) -> (r: Result<
        (),
        ParseError,
    >)
        requires
            old(tokens).valid(),
        ensures
            final(tokens).valid(),
            ({
                let w = self.write_document(old(tokens).pending());
                &&& final(out)@ == old(out)@ + w.out
                &&& final(tokens).pending() == w.rest
                &&& result_view(r) == w.res
            }),
    {
        proof {
            tokens.lemma_pending_bound();
        }
        match tokens.next() {
            None => Err(ParseError::UnexpectedEof),
            Some(Err(e)) => Err(e),
            Some(Ok(AcfToken::DictStart)) => {
                let mut ctx = JsonWriterCtx { cfg: *self, depth: 0 };
                ctx.write_object(tokens, out)
            },
            Some(Ok(t)) => Err(ParseError::UnexpectedToken(t)),
        }
    }
}

/// The state of one conversion: the options and the current nesting level.
struct JsonWriterCtx {
    cfg: JsonWriter,
    depth: usize,
}

/// The hexadecimal digit of `d`.
fn hex_char(d: u32) -> (r: char)
    requires
        d < 16,
    ensures
        r == hex_digit(d),
{
    let v: u32 = if d < 10 {
        0x30 + d
    } else {
        0x57 + d
    };
    match char_from_u32(v) {
        Some(c) => {
            proof {
                vstd::utf8::char_u32_cast(c, v);
            }
            c
        },
        // not reached: every digit is a scalar value
        None => '0',
    }
}

/// Appends `c` as it stands inside a JSON string literal.
fn write_escaped(c: char, out: &mut String)
    ensures
        final(out)@ == old(out)@ + escape_char(c),
{
    if c == '"' {
        push_char(out, '\\');
        push_char(out, '"');
    } else if c == '\\' {
        push_char(out, '\\');
        push_char(out, '\\');
    } else if c == '\n' {
        push_char(out, '\\');
        push_char(out, 'n');
    } else if c == '\r' {
        push_char(out, '\\');
        push_char(out, 'r');
    } else if c == '\t' {
        push_char(out, '\\');
        push_char(out, 't');
    } else if c == '\u{8}' {
        push_char(out, '\\');
        push_char(out, 'b');
    } else if c == '\u{c}' {
        push_char(out, '\\');
        push_char(out, 'f');
    } else if (c as u32) < 0x20 {
        let v = c as u32;
        push_char(out, '\\');
        push_char(out, 'u');
        push_char(out, '0');
        push_char(out, '0');
        push_char(out, hex_char(v / 16));
        push_char(out, hex_char(v % 16));
    } else {
        push_char(out, c);
    }
    assert(out@ =~= old(out)@ + escape_char(c));
}

impl JsonWriterCtx {
    /// Appends `s` as a JSON string literal.
    fn write_string(&self, s: &String, out: &mut String)
        ensures
            final(out)@ == old(out)@ + quoted(s@),
    {
        push_char(out, '"');
        let mut it = s.as_str().chars();
        let ghost mut done: Seq<char> = Seq::empty();
        loop
            invariant
                done + it.remaining() == s@,
                out@ == old(out)@ + seq!['"'] + escaped(done),
                it.decrease() is Some,
            decreases it.decrease()->0,
        {
            let ghost rem = it.remaining();
            match it.next() {
                Some(c) => {
                    write_escaped(c, out);
                    proof {
                        assert(done.push(c).drop_last() =~= done);
                        assert(done.push(c) + it.remaining() =~= done + rem);
                        done = done.push(c);
                    }
                },
                None => {
                    assert(done =~= s@);
                    push_char(out, '"');
                    assert(out@ =~= old(out)@ + quoted(s@));
                    return ;
                },
            }
        }
    }

    /// Starts a new line, indented to the current nesting level.
    fn newline(&self, out: &mut String)
        ensures
            final(out)@ == old(out)@ + self.cfg.newline_text(self.depth as nat),
    {
        if !self.cfg.compact {
            push_char(out, '\n');
            let mut k: usize = 0;
            while k < self.depth
                invariant
                    k <= self.depth,
                    out@ == old(out)@ + seq!['\n'] + spaces(k as nat * self.cfg.indent as nat),
                decreases self.depth - k,
            {
                let mut j: u32 = 0;
                while j < self.cfg.indent
                    invariant
                        k < self.depth,
                        j <= self.cfg.indent,
                        out@ == old(out)@ + seq!['\n'] + spaces(
                            k as nat * self.cfg.indent as nat + j as nat,
                        ),
                    decreases self.cfg.indent - j,
                {
                    push_char(out, ' ');
                    assert(spaces(k as nat * self.cfg.indent as nat + j as nat).push(' ') =~= spaces(
                        k as nat * self.cfg.indent as nat + j as nat + 1,
                    ));
                    j = j + 1;
                }
                assert((k + 1) as nat * self.cfg.indent as nat == k as nat * self.cfg.indent as nat
                    + self.cfg.indent as nat) by (nonlinear_arith);
                k = k + 1;
            }
        }
        assert(out@ =~= old(out)@ + self.cfg.newline_text(self.depth as nat));
    }

    /// Opens an object one level deeper.
    fn begin_obj(&mut self, out: &mut String)
        requires
            old(self).depth < usize::MAX,
        ensures
            final(self).cfg == old(self).cfg,
            final(self).depth == old(self).depth + 1,
            final(out)@ == old(out)@ + seq!['{'],
    {
        self.depth = self.depth + 1;
        push_char(out, '{');
    }

    /// Closes the current object, back at the level around it.
    fn end_obj(&mut self, out: &mut String)
        requires
            old(self).depth > 0,
        ensures
            final(self).cfg == old(self).cfg,
            final(self).depth == old(self).depth - 1,
            final(out)@ == old(out)@ + old(self).cfg.close_text(final(self).depth as nat),
    {
        self.depth = self.depth - 1;
        self.newline(out);
        push_char(out, '}');
        assert(out@ =~= old(out)@ + old(self).cfg.close_text(final(self).depth as nat));
    }

    /// Writes a member's key and what separates it from the value.
    fn begin_field(&self, name: &String, out: &mut String)
        ensures
            final(out)@ == old(out)@ + self.cfg.field_head(self.depth as nat, name@, true),
    {
        self.newline(out);
        self.write_string(name, out);
        push_char(out, ':');
        if !self.cfg.compact {
            push_char(out, ' ');
        }
        assert(out@ =~= old(out)@ + self.cfg.field_head(self.depth as nat, name@, true));
    }

    /// Writes the separator after a member.
    fn end_field(&self, out: &mut String)
        ensures
            final(out)@ == old(out)@ + seq![','],
    {
        push_char(out, ',');
    }

    /// Writes an object whose `{` token has just been read.
    #[verifier::rlimit(30)]
    fn write_object<S: TokenSource>(&mut self, tokens: &mut S, out: &mut String) -> (r: Result<
        (),
        ParseError,
    >)
        requires
            old(tokens).valid(),
            old(self).depth + old(tokens).pending().len() < usize::MAX,
        ensures
            final(tokens).valid(),
            final(self).cfg == old(self).cfg,
            r is Ok ==> final(self).depth == old(self).depth,
            ({
                let w = old(self).cfg.write_obj(old(tokens).pending(), old(self).depth as nat);
                &&& final(out)@ == old(out)@ + w.out
                &&& final(tokens).pending() == w.rest
                &&& result_view(r) == w.res
            }),
        decreases old(tokens).pending().len(), 1nat,
    {
        let ghost d = self.depth as nat;
        let ghost cfg = self.cfg;
        let ghost goal = cfg.write_members(tokens.pending(), d, true);
        let ghost target = old(out)@ + cfg.write_obj(tokens.pending(), d).out;
        self.begin_obj(out);
        assert(out@ + goal.out =~= target);
        let mut is_not_first = false;
        loop
            invariant
                tokens.valid(),
                self.cfg == cfg,
                cfg == old(self).cfg,
                d == old(self).depth,
                self.depth == d + 1,
                d + tokens.pending().len() < usize::MAX,
                tokens.pending().len() <= old(tokens).pending().len(),
                target == old(out)@ + cfg.write_obj(old(tokens).pending(), d).out,
                goal == cfg.write_members(old(tokens).pending(), d, true),
                ({
                    let cur = cfg.write_members(tokens.pending(), d, !is_not_first);
                    &&& out@ + cur.out == target
                    &&& cur.rest == goal.rest
                    &&& cur.res == goal.res
                }),
            decreases tokens.pending().len(),
        {
            let ghost p = tokens.pending();
            let ghost out0 = out@;
            let ghost cur = cfg.write_members(p, d, !is_not_first);
            let t = match tokens.next() {
                None => {
                    self.end_obj(out);
                    return Ok(());
                },
                Some(t) => t,
            };
            let t = match t {
                Err(e) => {
                    assert(out0 + cur.out =~= out0);
                    return Err(e);
                },
                Ok(t) => t,
            };
            let n = match t {
                AcfToken::DictEnd => {
                    self.end_obj(out);
                    return Ok(());
                },
                AcfToken::String(n) => n,
                t => {
                    assert(out0 + cur.out =~= out0);
                    return Err(ParseError::UnexpectedToken(t));
                },
            };
            self.write_member(&n, is_not_first, out);
            let ghost head = cfg.field_head(d + 1, n@, !is_not_first);
            let ghost val = cfg.write_value(p.drop_first(), d + 1);
            is_not_first = true;
            proof {
                lemma_written_rest(cfg, p.drop_first(), d + 1, true);
            }
            match self.write_value(tokens, out) {
                Err(e) => {
                    assert(out0 + head + val.out =~= out0 + (head + val.out));
                    return Err(e);
                },
                Ok(()) => {},
            }
            let ghost next = cfg.write_members(tokens.pending(), d, false);
            assert(out0 + head + val.out + next.out =~= out0 + (head + val.out + next.out));
        }
    }

    /// Writes what stands before the value of a member named `n`: the
    /// separator after the previous member, if any, and the key.
    fn write_member(&self, n: &String, is_not_first: bool, out: &mut String)
        ensures
            final(out)@ == old(out)@ + self.cfg.field_head(self.depth as nat, n@, !is_not_first),
    {
        if is_not_first {
            self.end_field(out);
        }
        self.begin_field(n, out);
        assert(out@ =~= old(out)@ + self.cfg.field_head(self.depth as nat, n@, !is_not_first));
    }

    /// Reads and writes the value of a member.
    fn write_value<S: TokenSource>(&mut self, tokens: &mut S, out: &mut String) -> (r: Result<
        (),
        ParseError,
    >)
        requires
            old(tokens).valid(),
            old(self).depth + old(tokens).pending().len() <= usize::MAX,
        ensures
            final(tokens).valid(),
            final(self).cfg == old(self).cfg,
            r is Ok ==> final(self).depth == old(self).depth,
            ({
                let w = old(self).cfg.write_value(old(tokens).pending(), old(self).depth as nat);
                &&& final(out)@ == old(out)@ + w.out
                &&& final(tokens).pending() == w.rest
                &&& result_view(r) == w.res
            }),
        decreases old(tokens).pending().len(), 0nat,
    {
        let v = match tokens.next() {
            None => {
                assert(out@ =~= old(out)@ + Seq::empty());
                return Err(ParseError::UnexpectedEof);
            },
            Some(v) => v,
        };
        match v {
            Err(e) => {
                assert(out@ =~= old(out)@ + Seq::empty());
                Err(e)
            },
            Ok(AcfToken::String(s)) => {
                self.write_string(&s, out);
                Ok(())
            },
            Ok(AcfToken::DictStart) => self.write_object(tokens, out),
            Ok(t) => {
                assert(out@ =~= old(out)@ + Seq::empty());
                Err(ParseError::UnexpectedToken(t))
            },
        }
    }
}

/// The model of a writer's outcome.
pub open spec fn result_view(r: Result<(), ParseError>) -> Result<(), ErrorView> {
    match r {
        Ok(()) => Ok(()),
        Err(e) => Err(e@),
    }
}

proof fn lemma_written_rest(cfg: JsonWriter, items: Seq<ItemView>, depth: nat, first: bool)
    ensures
        cfg.write_value(items, depth).rest.len() <= items.len(),
        cfg.write_obj(items, depth).rest.len() <= items.len(),
        cfg.write_members(items, depth, first).rest.len() <= items.len(),
    decreases items.len(),
{
    if items.len() > 0 {
        lemma_written_rest(cfg, items.drop_first(), depth, true);
    }
    lemma_members_rest(cfg, items, depth, true);
    lemma_members_rest(cfg, items, depth, first);
}

proof fn lemma_members_rest(cfg: JsonWriter, items: Seq<ItemView>, depth: nat, first: bool)
    ensures
        cfg.write_members(items, depth, first).rest.len() <= items.len(),
    decreases items.len(), 0nat,
{
    if items.len() >= 1 {
        if let Ok(TokenView::Str(_)) = items[0] {
            lemma_written_rest(cfg, items.drop_first(), depth + 1, true);
            let v = cfg.write_value(items.drop_first(), depth + 1);
            if v.rest.len() < items.len() {
                lemma_members_rest(cfg, v.rest, depth, false);
            }
        }
    }
}

} // verus!
