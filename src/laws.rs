//! What holds of the conversion as a whole.

use vstd::prelude::*;

use crate::json::{escape_char, escaped, hex_digit, quoted, spaces, JsonWriter};
use vstd::utf8::is_scalar;
use crate::json::Written;
use crate::token::{ErrorView, ItemView, TokenView};
use crate::source::TokenSource;
use crate::tokenizer::AcfTokenStream;

verus! {

/// A well-formed ACF value: a quoted string, or an object whose members each
/// pair a key with a value.
pub enum AcfValue {
    Str(Seq<char>),
    Obj(Seq<(Seq<char>, AcfValue)>),
}

/// How many members an object has; zero for a string.
pub open spec fn member_count(v: AcfValue) -> nat {
    match v {
        AcfValue::Obj(ms) => ms.len(),
        AcfValue::Str(_) => 0,
    }
}

/// The tokens of the members of object `v` from the `i`-th on, then its `}`.
pub open spec fn member_tokens(v: AcfValue, i: nat) -> Seq<ItemView>
    decreases v, member_count(v) - i,
{
    match v {
        AcfValue::Str(_) => Seq::empty(),
        AcfValue::Obj(ms) => if i >= ms.len() {
            seq![Ok(TokenView::DictEnd)]
        } else {
            let value = match ms[i as int].1 {
                AcfValue::Str(s) => seq![Ok(TokenView::Str(s))],
                AcfValue::Obj(_) => seq![Ok(TokenView::DictStart)] + member_tokens(
                    ms[i as int].1,
                    0,
                ),
            };
            seq![Ok(TokenView::Str(ms[i as int].0))] + value + member_tokens(v, i + 1)
        },
    }
}

/// The JSON text of the members of object `v` from the `i`-th on, then its
/// end, for an object at nesting level `depth`.
pub open spec fn member_json(cfg: JsonWriter, v: AcfValue, i: nat, depth: nat) -> Seq<char>
    decreases v, member_count(v) - i,
{
    match v {
        AcfValue::Str(_) => Seq::empty(),
        AcfValue::Obj(ms) => if i >= ms.len() {
            cfg.close_text(depth)
        } else {
            let value = match ms[i as int].1 {
                AcfValue::Str(s) => crate::json::quoted(s),
                AcfValue::Obj(_) => seq!['{'] + member_json(cfg, ms[i as int].1, 0, depth + 1),
            };
            cfg.field_head(depth + 1, ms[i as int].0, i == 0) + value + member_json(
                cfg,
                v,
                i + 1,
                depth,
            )
        },
    }
}

/// The tokens of a whole document holding object `v`.
pub open spec fn document_tokens(v: AcfValue) -> Seq<ItemView> {
    seq![Ok(TokenView::DictStart)] + member_tokens(v, 0)
}

/// The JSON text of a whole document holding object `v`.
pub open spec fn document_json(cfg: JsonWriter, v: AcfValue) -> Seq<char> {
    seq!['{'] + member_json(cfg, v, 0, 0)
}

/// Whitespace that JSON allows between tokens.
pub open spec fn json_space(c: char) -> bool {
    c == ' ' || c == '\n' || c == '\t' || c == '\r'
}

/// `t` without its leading JSON whitespace.
pub open spec fn skip_json_space(t: Seq<char>) -> Seq<char>
    decreases t.len(),
{
    if t.len() > 0 && json_space(t[0]) {
        skip_json_space(t.drop_first())
    } else {
        t
    }
}

/// The value of a hexadecimal digit.
pub open spec fn hex_value(c: char) -> Option<u32> {
    let v = c as u32;
    if 0x30 <= v <= 0x39 {
        Some((v - 0x30) as u32)
    } else if 0x61 <= v <= 0x66 {
        Some((v - 0x57) as u32)
    } else if 0x41 <= v <= 0x46 {
        Some((v - 0x37) as u32)
    } else {
        None
    }
}

/// Reads the escape sequence that `t` starts with (after its backslash
/// check): the character it stands for and its length.
pub open spec fn read_escape(t: Seq<char>) -> Option<(char, nat)> {
    if t.len() < 2 {
        None
    } else if t[1] == '"' {
        Some(('"', 2))
    } else if t[1] == '\\' {
        Some(('\\', 2))
    } else if t[1] == '/' {
        Some(('/', 2))
    } else if t[1] == 'n' {
        Some(('\n', 2))
    } else if t[1] == 'r' {
        Some(('\r', 2))
    } else if t[1] == 't' {
        Some(('\t', 2))
    } else if t[1] == 'b' {
        Some(('\u{8}', 2))
    } else if t[1] == 'f' {
        Some(('\u{c}', 2))
    } else if t[1] == 'u' && t.len() >= 6 {
        match (hex_value(t[2]), hex_value(t[3]), hex_value(t[4]), hex_value(t[5])) {
            (Some(a), Some(b), Some(c), Some(d)) => {
                let v = (a * 4096 + b * 256 + c * 16 + d) as u32;
                if is_scalar(v) {
                    Some((v as char, 6))
                } else {
                    None
                }
            },
            _ => None,
        }
    } else {
        None
    }
}

/// Reads the rest of a JSON string literal after its opening quote: its
/// characters, and the text after its closing quote.
pub open spec fn read_string_body(t: Seq<char>) -> Option<(Seq<char>, Seq<char>)>
    decreases t.len(),
{
    if t.len() == 0 {
        None
    } else if t[0] == '"' {
        Some((Seq::empty(), t.drop_first()))
    } else if t[0] == '\\' {
        match read_escape(t) {
            Some((c, n)) => if 0 < n <= t.len() {
                match read_string_body(t.skip(n as int)) {
                    Some((s, r)) => Some((seq![c] + s, r)),
                    None => None,
                }
            } else {
                None
            },
            None => None,
        }
    } else if (t[0] as u32) < 0x20 {
        None
    } else {
        match read_string_body(t.drop_first()) {
            Some((s, r)) => Some((seq![t[0]] + s, r)),
            None => None,
        }
    }
}

/// Reads a JSON string or object from the start of `t`, after any
/// whitespace: the value, and the text after it.
pub open spec fn read_value(t: Seq<char>) -> Option<(AcfValue, Seq<char>)>
    decreases t.len(), 1nat,
{
    let u = skip_json_space(t);
    if u.len() == 0 || u.len() > t.len() {
        None
    } else if u[0] == '"' {
        match read_string_body(u.drop_first()) {
            Some((s, r)) => Some((AcfValue::Str(s), r)),
            None => None,
        }
    } else if u[0] == '{' {
        read_members(u.drop_first(), Seq::empty(), true)
    } else {
        None
    }
}

/// Reads the members of a JSON object after its `{`, up to and including
/// its `}`, where `acc` holds the members already read and `first` tells
/// whether there are none.
pub open spec fn read_members(t: Seq<char>, acc: Seq<(Seq<char>, AcfValue)>, first: bool) -> Option<
    (AcfValue, Seq<char>),
>
    decreases t.len(), 0nat,
{
    let u = skip_json_space(t);
    if u.len() == 0 || u.len() > t.len() {
        None
    } else if u[0] == '}' {
        Some((AcfValue::Obj(acc), u.drop_first()))
    } else {
        let k = if first {
            u
        } else if u[0] == ',' {
            skip_json_space(u.drop_first())
        } else {
            Seq::empty()
        };
        if k.len() == 0 || k.len() > t.len() || k[0] != '"' {
            None
        } else {
            match read_string_body(k.drop_first()) {
                Some((key, r)) => if r.len() == 0 || r.len() > t.len() || r[0] != ':' {
                    None
                } else {
                    match read_value(r.drop_first()) {
                        Some((v, r2)) => if r2.len() < t.len() {
                            read_members(r2, acc.push((key, v)), false)
                        } else {
                            None
                        },
                        None => None,
                    }
                },
                None => None,
            }
        }
    }
}

proof fn lemma_skip_space_prefix(w: Seq<char>, t: Seq<char>)
    requires
        forall|j: int| 0 <= j < w.len() ==> json_space(#[trigger] w[j]),
    ensures
        skip_json_space(w + t) == skip_json_space(t),
    decreases w.len(),
{
    if w.len() > 0 {
        assert((w + t).drop_first() =~= w.drop_first() + t);
        lemma_skip_space_prefix(w.drop_first(), t);
    } else {
        assert(w + t =~= t);
    }
}

proof fn lemma_newline_is_space(cfg: JsonWriter, depth: nat, t: Seq<char>)
    ensures
        skip_json_space(cfg.newline_text(depth) + t) == skip_json_space(t),
{
    let w = cfg.newline_text(depth);
    assert forall|j: int| 0 <= j < w.len() implies json_space(#[trigger] w[j]) by {
        if !cfg.compact && j > 0 {
            assert(w[j] == spaces(depth * cfg.indent as nat)[j - 1]);
        }
    }
    lemma_skip_space_prefix(w, t);
}

proof fn lemma_escaped_front(s: Seq<char>)
    requires
        s.len() > 0,
    ensures
        escaped(s) == escape_char(s[0]) + escaped(s.drop_first()),
    decreases s.len(),
{
    if s.len() == 1 {
        assert(s.drop_last().len() == 0);
        assert(s.drop_first().len() == 0);
        assert(escaped(s.drop_first()) == Seq::<char>::empty());
        assert(escaped(s.drop_last()) == Seq::<char>::empty());
        assert(escaped(s) == escaped(s.drop_last()) + escape_char(s.last()));
        assert(escaped(s) =~= escape_char(s[0]) + escaped(s.drop_first()));
    } else {
        lemma_escaped_front(s.drop_last());
        assert(s.drop_last().drop_first() =~= s.drop_first().drop_last());
        assert(s.drop_first().last() == s.last());
        assert(s.drop_last()[0] == s[0]);
        assert(escaped(s) == escaped(s.drop_last()) + escape_char(s.last()));
        assert(escaped(s.drop_first()) == escaped(s.drop_first().drop_last()) + escape_char(
            s.drop_first().last(),
        ));
        assert(escaped(s) =~= escape_char(s[0]) + escaped(s.drop_first()));
    }
}

proof fn lemma_hex_round_trip(d: u32)
    requires
        d < 16,
    ensures
        hex_value(hex_digit(d)) == Some(d),
{
}

proof fn lemma_read_escaped_char(c: char, t: Seq<char>)
    ensures
        read_string_body(escape_char(c) + t) == (match read_string_body(t) {
            Some((s, r)) => Some((seq![c] + s, r)),
            None => None::<(Seq<char>, Seq<char>)>,
        }),
{
    let e = escape_char(c);
    let text = e + t;
    if e.len() == 1 {
        assert(text.drop_first() =~= t);
    } else if e.len() == 2 {
        assert(text.skip(2) =~= t);
    } else {
        let v = c as u32;
        lemma_hex_round_trip(v / 16);
        lemma_hex_round_trip(v % 16);
        vstd::utf8::char_u32_cast(c, v);
        assert(text.skip(6) =~= t);
    }
}

proof fn lemma_read_quoted(s: Seq<char>, rest: Seq<char>)
    ensures
        read_string_body(escaped(s) + seq!['"'] + rest) == Some((s, rest)),
    decreases s.len(),
{
    if s.len() == 0 {
        assert(escaped(s) + seq!['"'] + rest =~= seq!['"'] + rest);
        assert((seq!['"'] + rest).drop_first() =~= rest);
    } else {
        lemma_escaped_front(s);
        lemma_read_quoted(s.drop_first(), rest);
        assert(escaped(s) + seq!['"'] + rest =~= escape_char(s[0]) + (escaped(s.drop_first())
            + seq!['"'] + rest));
        lemma_read_escaped_char(s[0], escaped(s.drop_first()) + seq!['"'] + rest);
        assert(seq![s[0]] + s.drop_first() =~= s);
    }
}

proof fn lemma_skip_space_len(t: Seq<char>)
    ensures
        skip_json_space(t).len() <= t.len(),
    decreases t.len(),
{
    if t.len() > 0 && json_space(t[0]) {
        lemma_skip_space_len(t.drop_first());
    }
}

/// The text that separates the `:` of a member from its value.
pub open spec fn colon_space(cfg: JsonWriter) -> Seq<char> {
    if cfg.compact {
        Seq::empty()
    } else {
        seq![' ']
    }
}

/// Reading what stands before a member's value gives its key, and leaves
/// the text from the `:` on.
#[verifier::rlimit(30)]
proof fn lemma_read_member_head(cfg: JsonWriter, key: Seq<char>, first: bool, depth: nat, x: Seq<char>)
    ensures
        ({
            let t = cfg.field_head(depth, key, first) + x;
            let u = skip_json_space(t);
            let k = if first {
                u
            } else if u[0] == ',' {
                skip_json_space(u.drop_first())
            } else {
                Seq::empty()
            };
            &&& 0 < u.len() <= t.len()
            &&& u[0] != '}'
            &&& 0 < k.len() <= t.len()
            &&& k[0] == '"'
            &&& read_string_body(k.drop_first()) == Some((key, seq![':'] + (colon_space(cfg) + x)))
        }),
{
    let t = cfg.field_head(depth, key, first) + x;
    let after_key = seq![':'] + (colon_space(cfg) + x);
    let body = escaped(key) + seq!['"'] + after_key;
    let k = seq!['"'] + body;
    let nl = cfg.newline_text(depth);
    lemma_newline_is_space(cfg, depth, k);
    assert(skip_json_space(k) == k);
    lemma_skip_space_len(t);
    lemma_skip_space_len(nl + k);
    if first {
        assert(t =~= nl + k);
    } else {
        assert(t =~= seq![','] + (nl + k));
        assert(t.drop_first() =~= nl + k);
    }
    assert(k.drop_first() == body);
    lemma_read_quoted(key, after_key);
}

/// Reading the JSON text of value `c` at nesting level `depth`, whatever
/// follows it, gives back `c` and the text after it.
proof fn lemma_read_value_of_tree(cfg: JsonWriter, c: AcfValue, depth: nat, tail: Seq<char>)
    ensures
        read_value(
            match c {
                AcfValue::Str(s) => quoted(s),
                AcfValue::Obj(_) => seq!['{'] + member_json(cfg, c, 0, depth),
            } + tail,
        ) == Some((c, tail)),
    decreases c, member_count(c) + 1,
{
    let x = match c {
        AcfValue::Str(s) => quoted(s),
        AcfValue::Obj(_) => seq!['{'] + member_json(cfg, c, 0, depth),
    } + tail;
    lemma_skip_space_len(x);
    assert(skip_json_space(x) == x);
    match c {
        AcfValue::Str(s) => {
            assert(x.drop_first() =~= escaped(s) + seq!['"'] + tail);
            lemma_read_quoted(s, tail);
        },
        AcfValue::Obj(ms) => {
            assert(x.drop_first() =~= member_json(cfg, c, 0, depth) + tail);
            lemma_read_members_of_tree(cfg, c, 0, depth, tail);
            assert(ms.take(0) =~= Seq::<(Seq<char>, AcfValue)>::empty());
        },
    }
}

/// Reading the end of an object gives the text after it.
proof fn lemma_read_close(cfg: JsonWriter, depth: nat, rest: Seq<char>)
    ensures
        ({
            let u = skip_json_space(cfg.close_text(depth) + rest);
            &&& 0 < u.len() <= cfg.close_text(depth).len() + rest.len()
            &&& u[0] == '}'
            &&& u.drop_first() == rest
        }),
{
    let close = seq!['}'] + rest;
    assert(cfg.close_text(depth) + rest =~= cfg.newline_text(depth) + close);
    lemma_newline_is_space(cfg, depth, close);
    assert(skip_json_space(close) == close);
    assert(close.drop_first() =~= rest);
    lemma_skip_space_len(cfg.close_text(depth) + rest);
}

/// Reading the JSON text of the members of object `v` from the `i`-th on,
/// whatever follows it, gives back `v` and the text after it.
#[verifier::rlimit(40)]
proof fn lemma_read_members_of_tree(
    cfg: JsonWriter,
    v: AcfValue,
    i: nat,
    depth: nat,
    rest: Seq<char>,
)
    requires
        v is Obj,
        i <= member_count(v),
    ensures
        read_members(member_json(cfg, v, i, depth) + rest, v->Obj_0.take(i as int), i == 0) == Some(
            (v, rest),
        ),
    decreases v, member_count(v) - i,
{
    let ms = v->Obj_0;
    let text = member_json(cfg, v, i, depth) + rest;
    lemma_skip_space_len(text);
    if i >= ms.len() {
        assert(text =~= cfg.close_text(depth) + rest);
        lemma_read_close(cfg, depth, rest);
        assert(ms.take(i as int) =~= ms);
    } else {
        let key = ms[i as int].0;
        let child = ms[i as int].1;
        let value_json = match child {
            AcfValue::Str(s) => quoted(s),
            AcfValue::Obj(_) => seq!['{'] + member_json(cfg, child, 0, depth + 1),
        };
        let tail = member_json(cfg, v, i + 1, depth) + rest;
        let x = value_json + tail;
        assert(text =~= cfg.field_head(depth + 1, key, i == 0) + x);
        lemma_read_member_head(cfg, key, i == 0, depth + 1, x);
        let after_key = seq![':'] + (colon_space(cfg) + x);
        assert(after_key.drop_first() =~= colon_space(cfg) + x);
        lemma_skip_space_prefix(colon_space(cfg), x);
        lemma_skip_space_len(colon_space(cfg) + x);
        lemma_read_value_of_tree(cfg, child, depth + 1, tail);
        assert(read_value(colon_space(cfg) + x) == Some((child, tail)));
        lemma_read_members_of_tree(cfg, v, i + 1, depth, rest);
        assert(ms.take(i as int).push((key, child)) =~= ms.take(i + 1 as int));
    }
}

/// Reading back the JSON text of a document gives the tree it was written
/// from.
proof fn lemma_read_document_json(cfg: JsonWriter, v: AcfValue, rest: Seq<char>)
    requires
        v is Obj,
    ensures
        read_value(document_json(cfg, v) + rest) == Some((v, rest)),
{
    let text = document_json(cfg, v) + rest;
    lemma_skip_space_len(text);
    assert(text.drop_first() =~= member_json(cfg, v, 0, 0) + rest);
    lemma_read_members_of_tree(cfg, v, 0, 0, rest);
    assert(v->Obj_0.take(0) =~= Seq::<(Seq<char>, AcfValue)>::empty());
}

/// Writing the tokens of the members of an object, whatever follows them,
/// writes their JSON text and reads no token past the object's end.
#[verifier::rlimit(30)]
proof fn lemma_write_members_of_tree(
    cfg: JsonWriter,
    v: AcfValue,
    i: nat,
    depth: nat,
    rest: Seq<ItemView>,
)
    requires
        v is Obj,
        i <= member_count(v),
    ensures
        cfg.write_members(member_tokens(v, i) + rest, depth, i == 0) == (Written {
            out: member_json(cfg, v, i, depth),
            rest: rest,
            res: Ok(()),
        }),
    decreases v, member_count(v) - i,
{
    let ms = v->Obj_0;
    let items = member_tokens(v, i) + rest;
    if i >= ms.len() {
        assert(items.drop_first() =~= rest);
    } else {
        let key = ms[i as int].0;
        let child = ms[i as int].1;
        let tail = member_tokens(v, i + 1) + rest;
        lemma_write_members_of_tree(cfg, v, i + 1, depth, rest);
        match child {
            AcfValue::Str(s) => {
                assert(items.drop_first() =~= seq![Ok(TokenView::Str(s))] + tail);
                assert(items.drop_first().drop_first() =~= tail);
            },
            AcfValue::Obj(_) => {
                assert(items.drop_first() =~= seq![Ok(TokenView::DictStart)] + (member_tokens(
                    child,
                    0,
                ) + tail));
                assert(items.drop_first().drop_first() =~= member_tokens(child, 0) + tail);
                lemma_write_members_of_tree(cfg, child, 0, depth + 1, tail);
            },
        }
        assert(items[0] == Ok::<TokenView, ErrorView>(TokenView::Str(key)));
        let val = cfg.write_value(items.drop_first(), depth + 1);
        let value_json = match child {
            AcfValue::Str(s) => crate::json::quoted(s),
            AcfValue::Obj(_) => seq!['{'] + member_json(cfg, child, 0, depth + 1),
        };
        assert(val.res is Ok && val.rest == tail && val.out == value_json);
        assert(tail.len() < items.len());
        let head = cfg.field_head(depth + 1, key, i == 0);
        assert(member_json(cfg, v, i, depth) == head + value_json + member_json(
            cfg,
            v,
            i + 1,
            depth,
        ));
    }
}

/// Writing the tokens of a well-formed document succeeds, reads exactly
/// those tokens, and writes JSON text that reads back as the same tree of
/// keys and values.
pub proof fn lemma_write_then_read_back(cfg: JsonWriter, v: AcfValue, rest: Seq<ItemView>)
    requires
        v is Obj,
    ensures
        cfg.write_document(document_tokens(v) + rest) == (Written {
            out: document_json(cfg, v),
            rest: rest,
            res: Ok(()),
        }),
        read_value(document_json(cfg, v)) == Some((v, Seq::<char>::empty())),
{
    let items = document_tokens(v) + rest;
    assert(items.drop_first() =~= member_tokens(v, 0) + rest);
    lemma_write_members_of_tree(cfg, v, 0, 0, rest);
    lemma_read_document_json(cfg, v, Seq::empty());
    assert(document_json(cfg, v) + Seq::<char>::empty() =~= document_json(cfg, v));
}

/// Converting the same bytes twice, each time through a fresh tokenizer,
/// writes the same text, leaves the same tokens unread and ends the same way.
pub proof fn lemma_conversion_repeatable(cfg: JsonWriter, a: AcfTokenStream, b: AcfTokenStream)
    requires
        a.input() == b.input(),
        a.position() == 0,
        b.position() == 0,
    ensures
        cfg.write_document(a.pending()) == cfg.write_document(b.pending()),
{
}

} // verus!
