//! A JSON document tree read from the [`Tokenizer`]'s token stream by
//! recursive descent.
//!
//! Numbers are kept as their text (an integer without fraction or exponent
//! must fit in an `i64`), strings as their decoded text. Errors are those of
//! the tokenizer, or `UnexpectedByte` / `UnexpectedEof` / `BadNumber` at the
//! tokenizer's position after the token that does not fit.
use vstd::prelude::*;
use crate::json::{
    chunk_scan, digits_from, lex, lex_number, next_boundary, raw_scan, skip_ws_from, string_item,
    ChunkEnd, Item, JsonError, Lexed, RawEnd, TokenView,
};
use crate::json::{json_escaped, quote_string, Token, Tokenizer};
use crate::numstr::{parse_int, parsed};
use crate::text::{string_from_bytes_or_empty, string_push, string_push_str, text_of};

verus! {

/// A tokenizer state: the byte offset and the escaped string being decoded.
pub type LexState = (int, Option<(usize, usize)>);

/// The token read in state `st`, with the result and the state after it.
#[verifier::opaque]
pub open spec fn step(src: Seq<u8>, st: LexState) -> Lexed {
    lex(src, st.0, st.1)
}

/// The state a tokenizer step leaves.
pub open spec fn after(l: Lexed) -> LexState {
    (l.1, l.2)
}

/// A state the tokenizer can be in: the offset and the decoding position lie
/// within the input.
pub open spec fn state_ok(src: Seq<u8>, st: LexState) -> bool {
    &&& src.len() <= usize::MAX
    &&& 0 <= st.0 <= src.len()
    &&& st.1 matches Some((b, s)) ==> s <= src.len()
}

/// A measure that every token other than `Eof` lowers.
pub open spec fn potential(src: Seq<u8>, st: LexState) -> nat {
    let q = match st.1 {
        None => 2 * (src.len() - st.0) + 1,
        Some((b, s)) => 2 * (src.len() - s),
    };
    if q < 0 {
        0
    } else {
        q as nat
    }
}

/// Whether moving from `st` to `st2` lowers the measure.
pub open spec fn progress(src: Seq<u8>, st: LexState, st2: LexState) -> bool {
    potential(src, st2) < potential(src, st)
}

/// A JSON value, with numbers as their text and strings as their text.
pub enum NodeView {
    Null,
    Bool(bool),
    Number(Seq<u8>),
    Str(Seq<char>),
    Array(Seq<NodeView>),
    Object(Seq<(Seq<char>, NodeView)>),
}

/// Whether a number token's text is accepted: one without `.`, `e` or `E`
/// must be an integer that fits in an `i64`.
pub open spec fn number_ok(b: Seq<u8>) -> bool {
    (forall|k: int| 0 <= k < b.len() ==> !(b[k] == 0x2E || b[k] == 0x65 || b[k] == 0x45)) ==> (
    parsed(b, 10) matches Some(v) && i64::MIN <= v <= i64::MAX)
}

/// What parsing a piece of the document gives: the value and the state
/// after it, or the error.
pub type Parse<T> = Result<(T, LexState), JsonError>;

/// The rest of an escaped string whose text so far is `acc`, from state
/// `st` on.
pub open spec fn string_rest(src: Seq<u8>, acc: Seq<char>, st: LexState) -> Parse<Seq<char>>
    decreases potential(src, st), 0nat,
{
    let l = step(src, st);
    let st1 = after(l);
    match l.0 {
        Err(e) => Err(e),
        Ok(TokenView::StringChunk(b, last)) => if last {
            Ok((acc + text_of(b), st1))
        } else if progress(src, st, st1) {
            string_rest(src, acc + text_of(b), st1)
        } else {
            Err(JsonError::UnexpectedEof)
        },
        Ok(_) => Err(JsonError::UnexpectedByte(st1.0 as usize)),
    }
}

/// The value that begins with token `t`; `st` is the state after `t`.
pub open spec fn value_from(src: Seq<u8>, t: TokenView, st: LexState) -> Parse<NodeView>
    decreases potential(src, st), 2nat,
{
    match t {
        TokenView::ObjectStart => object_start(src, st),
        TokenView::ArrayStart => array_start(src, st),
        TokenView::True => Ok((NodeView::Bool(true), st)),
        TokenView::False => Ok((NodeView::Bool(false), st)),
        TokenView::Null => Ok((NodeView::Null, st)),
        TokenView::Number(b, _) => if number_ok(b) {
            Ok((NodeView::Number(b), st))
        } else {
            Err(JsonError::BadNumber(st.0 as usize))
        },
        TokenView::StringRaw(b) => Ok((NodeView::Str(text_of(b)), st)),
        TokenView::StringChunk(b, last) => if last {
            Ok((NodeView::Str(text_of(b)), st))
        } else {
            match string_rest(src, text_of(b), st) {
                Ok((s, st2)) => Ok((NodeView::Str(s), st2)),
                Err(e) => Err(e),
            }
        },
        TokenView::Eof => Err(JsonError::UnexpectedEof),
        _ => Err(JsonError::UnexpectedByte(st.0 as usize)),
    }
}

/// The value read from state `st`.
pub open spec fn parse_value(src: Seq<u8>, st: LexState) -> Parse<NodeView>
    decreases potential(src, st), 3nat,
{
    let l = step(src, st);
    let st1 = after(l);
    match l.0 {
        Err(e) => Err(e),
        Ok(TokenView::Eof) => Err(JsonError::UnexpectedEof),
        Ok(t) => if progress(src, st, st1) {
            value_from(src, t, st1)
        } else {
            Err(JsonError::UnexpectedEof)
        },
    }
}

/// An array whose `[` has been read; `st` is the state after it.
pub open spec fn array_start(src: Seq<u8>, st: LexState) -> Parse<NodeView>
    decreases potential(src, st), 1nat,
{
    let l = step(src, st);
    let st1 = after(l);
    match l.0 {
        Err(e) => Err(e),
        Ok(TokenView::ArrayEnd) => Ok((NodeView::Array(Seq::empty()), st1)),
        Ok(TokenView::Eof) => Err(JsonError::UnexpectedEof),
        Ok(t) => if progress(src, st, st1) {
            match value_from(src, t, st1) {
                Ok((v, st2)) => if progress(src, st, st2) {
                    array_after(src, seq![v], st2)
                } else {
                    Err(JsonError::UnexpectedEof)
                },
                Err(e) => Err(e),
            }
        } else {
            Err(JsonError::UnexpectedEof)
        },
    }
}

/// The rest of an array whose items so far are `acc`, after an item.
pub open spec fn array_after(src: Seq<u8>, acc: Seq<NodeView>, st: LexState) -> Parse<NodeView>
    decreases potential(src, st), 1nat,
{
    let l = step(src, st);
    let st1 = after(l);
    match l.0 {
        Err(e) => Err(e),
        Ok(TokenView::ArrayEnd) => Ok((NodeView::Array(acc), st1)),
        Ok(TokenView::Comma) => if progress(src, st, st1) {
            match parse_value(src, st1) {
                Ok((v, st2)) => if progress(src, st, st2) {
                    array_after(src, acc.push(v), st2)
                } else {
                    Err(JsonError::UnexpectedEof)
                },
                Err(e) => Err(e),
            }
        } else {
            Err(JsonError::UnexpectedEof)
        },
        Ok(_) => Err(JsonError::UnexpectedByte(st1.0 as usize)),
    }
}

/// An object whose `{` has been read; `st` is the state after it.
pub open spec fn object_start(src: Seq<u8>, st: LexState) -> Parse<NodeView>
    decreases potential(src, st), 1nat,
{
    let l = step(src, st);
    let st1 = after(l);
    match l.0 {
        Err(e) => Err(e),
        Ok(TokenView::ObjectEnd) => Ok((NodeView::Object(Seq::empty()), st1)),
        Ok(TokenView::Eof) => Err(JsonError::UnexpectedByte(st1.0 as usize)),
        Ok(t) => if progress(src, st, st1) {
            object_entry(src, Seq::empty(), t, st1)
        } else {
            Err(JsonError::UnexpectedEof)
        },
    }
}

/// The key a token begins, read from state `st` after the token.
pub open spec fn key_from(src: Seq<u8>, t: TokenView, st: LexState) -> Parse<Seq<char>>
    decreases potential(src, st), 1nat,
{
    match t {
        TokenView::StringRaw(b) => Ok((text_of(b), st)),
        TokenView::StringChunk(b, last) => if last {
            Ok((text_of(b), st))
        } else {
            string_rest(src, text_of(b), st)
        },
        _ => Err(JsonError::UnexpectedByte(st.0 as usize)),
    }
}

/// The rest of an object whose entries so far are `acc`, from the entry
/// whose key begins with token `t`; `st` is the state after `t`.
pub open spec fn object_entry(
    src: Seq<u8>,
    acc: Seq<(Seq<char>, NodeView)>,
    t: TokenView,
    st: LexState,
) -> Parse<NodeView>
    decreases potential(src, st), 2nat,
{
    match key_from(src, t, st) {
        Err(e) => Err(e),
        Ok((key, stk)) => {
            let lc = step(src, stk);
            let stc = after(lc);
            match lc.0 {
                Err(e) => Err(e),
                Ok(TokenView::Colon) => if progress(src, st, stc) {
                    match parse_value(src, stc) {
                        Err(e) => Err(e),
                        Ok((v, stv)) => {
                            let ln = step(src, stv);
                            let stn = after(ln);
                            match ln.0 {
                                Err(e) => Err(e),
                                Ok(TokenView::ObjectEnd) => Ok(
                                    (NodeView::Object(acc.push((key, v))), stn),
                                ),
                                Ok(TokenView::Comma) => {
                                    let lk = step(src, stn);
                                    let stk2 = after(lk);
                                    match lk.0 {
                                        Err(e) => Err(e),
                                        Ok(TokenView::Eof) => Err(
                                            JsonError::UnexpectedByte(stk2.0 as usize),
                                        ),
                                        Ok(t2) => if progress(src, st, stk2) {
                                            object_entry(src, acc.push((key, v)), t2, stk2)
                                        } else {
                                            Err(JsonError::UnexpectedEof)
                                        },
                                    }
                                },
                                Ok(_) => Err(JsonError::UnexpectedByte(stn.0 as usize)),
                            }
                        },
                    }
                } else {
                    Err(JsonError::UnexpectedEof)
                },
                Ok(_) => Err(JsonError::UnexpectedByte(stc.0 as usize)),
            }
        },
    }
}

/// The document in `src`: one value, then the end of input.
pub open spec fn parse_document(src: Seq<u8>) -> Result<NodeView, JsonError> {
    match parse_value(src, (0, None)) {
        Err(e) => Err(e),
        Ok((v, st)) => {
            let l = step(src, st);
            match l.0 {
                Err(e) => Err(e),
                Ok(TokenView::Eof) => Ok(v),
                Ok(_) => Err(JsonError::UnexpectedByte(l.1 as usize)),
            }
        },
    }
}

proof fn lemma_skip_ws(src: Seq<u8>, i: int)
    requires
        0 <= i <= src.len(),
    ensures
        i <= skip_ws_from(src, i) <= src.len(),
    decreases src.len() - i,
{
    if i < src.len() {
        lemma_skip_ws(src, i + 1);
    }
}

proof fn lemma_digits_from(src: Seq<u8>, i: int)
    requires
        0 <= i <= src.len(),
    ensures
        i <= digits_from(src, i) <= src.len(),
    decreases src.len() - i,
{
    if i < src.len() {
        lemma_digits_from(src, i + 1);
    }
}

proof fn lemma_raw_scan(src: Seq<u8>, i: int)
    requires
        0 <= i,
    ensures
        raw_scan(src, i) matches RawEnd::Quote(j) ==> i <= j < src.len(),
    decreases src.len() - i,
{
    if 0 <= i < src.len() && src[i] != 0x22 && src[i] != 0x5C && src[i] >= 0x20 {
        lemma_raw_scan(src, next_boundary(src, i));
    }
}

proof fn lemma_string_item(src: Seq<u8>, s: int)
    requires
        0 <= s < src.len(),
    ensures
        string_item(src, s) matches Item::Bytes(bs, next) ==> bs.len() <= 4 && s < next
            <= src.len(),
{
}

/// A chunk ends past where it started, within the input; a chunk cut short
/// where it started carries the bytes it was given.
proof fn lemma_chunk_scan(src: Seq<u8>, s: int, acc: Seq<u8>)
    requires
        0 <= s,
    ensures
        chunk_scan(src, s, acc) matches ChunkEnd::Final(n, _) ==> s < n <= src.len(),
        chunk_scan(src, s, acc) matches ChunkEnd::Partial(r, _) ==> s <= r < src.len() && (r == s
            ==> acc.len() > 0),
    decreases src.len() - s,
{
    if 0 <= s < src.len() && acc.len() < 64 {
        lemma_string_item(src, s);
        match string_item(src, s) {
            Item::Bytes(bs, next) => {
                if acc.len() + bs.len() <= 64 && next > s {
                    lemma_chunk_scan(src, next, acc + bs);
                }
            },
            _ => {},
        }
    }
}

proof fn lemma_lex_number(src: Seq<u8>, start: int)
    requires
        0 <= start < src.len(),
    ensures
        lex_number(src, start).0 is Ok ==> start < lex_number(src, start).1 <= src.len(),
{
    let negative = src[start] == 0x2D;
    let int_start = if negative { start + 1 } else { start };
    lemma_digits_from(src, int_start);
    let int_end = digits_from(src, int_start);
    if int_end < src.len() {
        lemma_digits_from(src, int_end + 1);
        let has_frac = src[int_end] == 0x2E;
        let frac_end = if has_frac { digits_from(src, int_end + 1) } else { int_end };
        if frac_end + 1 <= src.len() {
            lemma_digits_from(src, frac_end + 1);
            if frac_end + 2 <= src.len() {
                lemma_digits_from(src, frac_end + 2);
            }
        }
    }
}

/// Each token but `Eof` moves the tokenizer forward, and every token leaves
/// it in a state within the input.
pub(crate) proof fn lemma_step_progress(src: Seq<u8>, st: LexState)
    requires
        state_ok(src, st),
    ensures
        step(src, st).0 is Ok ==> state_ok(src, after(step(src, st))),
        step(src, st).0 matches Ok(t) && t !is Eof ==> progress(src, st, after(step(src, st))),
{
    reveal(step);
    let len = src.len();
    match st.1 {
        Some((b, s)) => {
            lemma_chunk_scan(src, s as int, Seq::empty());
        },
        None => {
            let pos = st.0;
            lemma_skip_ws(src, pos);
            let p = skip_ws_from(src, pos);
            if p < len {
                let c = src[p];
                if c == 0x22 {
                    let body = p + 1;
                    lemma_raw_scan(src, body);
                    lemma_chunk_scan(src, body, Seq::empty());
                } else if c == 0x2D || (0x30 <= c <= 0x39) {
                    lemma_lex_number(src, p);
                }
            }
        },
    }
}

/// `s` as a JSON string literal.
pub open spec fn quoted(s: Seq<char>) -> Seq<char> {
    seq!['"'] + json_escaped(s) + seq!['"']
}

/// The JSON text of `v`, without whitespace: numbers as their text, strings
/// quoted and escaped, items and entries separated by commas.
pub open spec fn tree_text(v: NodeView) -> Seq<char>
    decreases v,
{
    match v {
        NodeView::Null => seq!['n', 'u', 'l', 'l'],
        NodeView::Bool(b) => if b {
            seq!['t', 'r', 'u', 'e']
        } else {
            seq!['f', 'a', 'l', 's', 'e']
        },
        NodeView::Number(b) => text_of(b),
        NodeView::Str(x) => quoted(x),
        NodeView::Array(items) => seq!['['] + items_text(items) + seq![']'],
        NodeView::Object(es) => seq!['{'] + entries_text(es) + seq!['}'],
    }
}

/// The texts of `items`, separated by commas.
pub open spec fn items_text(items: Seq<NodeView>) -> Seq<char>
    decreases items,
{
    if items.len() == 0 {
        Seq::empty()
    } else if items.len() == 1 {
        tree_text(items[0])
    } else {
        items_text(items.drop_last()) + seq![','] + tree_text(items[items.len() - 1])
    }
}

/// The texts of the entries `es` (`"key":value`), separated by commas.
pub open spec fn entries_text(es: Seq<(Seq<char>, NodeView)>) -> Seq<char>
    decreases es,
{
    if es.len() == 0 {
        Seq::empty()
    } else if es.len() == 1 {
        quoted(es[0].0) + seq![':'] + tree_text(es[0].1)
    } else {
        entries_text(es.drop_last()) + seq![','] + quoted(es[es.len() - 1].0) + seq![':']
            + tree_text(es[es.len() - 1].1)
    }
}

/// A JSON value: numbers as their text, strings decoded, object entries in
/// document order.
#[derive(Debug, PartialEq)]
pub enum Node {
    Null,
    Bool(bool),
    /// A number's text, as the tokenizer read it.
    Number(Vec<u8>),
    String(String),
    Array(Vec<Node>),
    Object(Vec<(String, Node)>),
}

impl Node {
    /// The value this node holds.
    pub open spec fn tree(&self) -> NodeView
        decreases self,
    {
        match self {
            Node::Null => NodeView::Null,
            Node::Bool(b) => NodeView::Bool(*b),
            Node::Number(b) => NodeView::Number(b@),
            Node::String(s) => NodeView::Str(s@),
            Node::Array(items) => NodeView::Array(
                Seq::new(
                    items@.len(),
                    |i: int|
                        if 0 <= i < items@.len() {
                            items@[i].tree()
                        } else {
                            NodeView::Null
                        },
                ),
            ),
            Node::Object(entries) => NodeView::Object(
                Seq::new(
                    entries@.len(),
                    |i: int|
                        if 0 <= i < entries@.len() {
                            (entries@[i].0@, entries@[i].1.tree())
                        } else {
                            (Seq::empty(), NodeView::Null)
                        },
                ),
            ),
        }
    }
}

/// A token copied out of the tokenizer: numbers as their bytes, strings as
/// their text.
enum Tok {
    ObjectStart,
    ObjectEnd,
    ArrayStart,
    ArrayEnd,
    Comma,
    Colon,
    True,
    False,
    Null,
    Number(Vec<u8>),
    Raw(String),
    Chunk(String, bool),
    Eof,
}

/// Whether `o` is a copy of token `t`.
spec fn owns(o: Tok, t: TokenView) -> bool {
    match t {
        TokenView::ObjectStart => o is ObjectStart,
        TokenView::ObjectEnd => o is ObjectEnd,
        TokenView::ArrayStart => o is ArrayStart,
        TokenView::ArrayEnd => o is ArrayEnd,
        TokenView::Comma => o is Comma,
        TokenView::Colon => o is Colon,
        TokenView::True => o is True,
        TokenView::False => o is False,
        TokenView::Null => o is Null,
        TokenView::Number(b, _) => o matches Tok::Number(v) && v@ == b,
        TokenView::StringRaw(b) => o matches Tok::Raw(x) && x@ == text_of(b),
        TokenView::StringChunk(b, last) => o matches Tok::Chunk(x, l) && x@ == text_of(b) && l
            == last,
        TokenView::Eof => o is Eof,
    }
}

/// The tokenizer's state.
spec fn at(t: Tokenizer) -> LexState {
    (t.pos() as int, t.decode())
}

/// Read the next token and copy it out.
fn next(tok: &mut Tokenizer) -> (r: Result<Tok, JsonError>)
    ensures
        final(tok).src() == old(tok).src(),
        at(*final(tok)) == after(step(old(tok).src(), at(*old(tok)))),
        match step(old(tok).src(), at(*old(tok))).0 {
            Ok(tv) => r matches Ok(o) && owns(o, tv),
            Err(e) => r == Err::<Tok, JsonError>(e),
        },
{
    reveal(step);
    let r = tok.next_token();
    match r {
        Ok(t) => {
            let o = match t {
                Token::ObjectStart => Tok::ObjectStart,
                Token::ObjectEnd => Tok::ObjectEnd,
                Token::ArrayStart => Tok::ArrayStart,
                Token::ArrayEnd => Tok::ArrayEnd,
                Token::Comma => Tok::Comma,
                Token::Colon => Tok::Colon,
                Token::True => Tok::True,
                Token::False => Tok::False,
                Token::Null => Tok::Null,
                Token::Number { bytes, negative: _ } => Tok::Number(vstd::slice::slice_to_vec(bytes)),
                Token::StringRaw(b) => Tok::Raw(string_from_bytes_or_empty(b)),
                Token::StringChunk { bytes, last } => Tok::Chunk(
                    string_from_bytes_or_empty(bytes),
                    last,
                ),
                Token::Eof => Tok::Eof,
            };
            Ok(o)
        },
        Err(e) => Err(e),
    }
}

/// Whether a number's text is accepted ([`number_ok`]).
fn number_accepted(b: &[u8]) -> (r: bool)
    ensures
        r == number_ok(b@),
{
    let mut k: usize = 0;
    while k < b.len()
        invariant
            k <= b@.len(),
            forall|j: int| 0 <= j < k ==> !(b@[j] == 0x2E || b@[j] == 0x65 || b@[j] == 0x45),
        decreases b@.len() - k,
    {
        if b[k] == 0x2E || b[k] == 0x65 || b[k] == 0x45 {
            return true;
        }
        k += 1;
    }
    parse_int::<i64>(b, 10).is_some()
}

/// Append the text of `x` to `s`.
fn append(s: &mut String, x: &String)
    ensures
        final(s)@ == old(s)@ + x@,
{
    string_push_str(s, x.as_str());
}

/// The rest of an escaped string whose text so far is `acc`.
fn read_string_rest(tok: &mut Tokenizer, acc: String) -> (r: Result<String, JsonError>)
    requires
        state_ok(old(tok).src(), at(*old(tok))),
    ensures
        final(tok).src() == old(tok).src(),
        match string_rest(old(tok).src(), acc@, at(*old(tok))) {
            Ok((x, st2)) => r matches Ok(o) && o@ == x && at(*final(tok)) == st2 && state_ok(
                old(tok).src(),
                st2,
            ) && progress(old(tok).src(), at(*old(tok)), st2),
            Err(e) => r == Err::<String, JsonError>(e),
        },
{
    let ghost src = tok.src();
    let ghost st0 = at(*tok);
    let mut s = acc;
    loop
        invariant
            tok.src() == src,
            src == old(tok).src(),
            st0 == at(*old(tok)),
            state_ok(src, at(*tok)),
            potential(src, at(*tok)) <= potential(src, st0),
            string_rest(src, s@, at(*tok)) == string_rest(src, acc@, st0),
        decreases potential(src, at(*tok)),
    {
        let ghost st1 = at(*tok);
        proof {
            lemma_step_progress(src, st1);
        }
        match next(tok) {
            Ok(Tok::Chunk(x, last)) => {
                append(&mut s, &x);
                if last {
                    return Ok(s);
                }
            },
            Ok(_) => {
                return Err(JsonError::UnexpectedByte(tok.position()));
            },
            Err(e) => {
                return Err(e);
            },
        }
    }
}

proof fn lemma_array_tree(n: Node, acc: Seq<NodeView>)
    requires
        n matches Node::Array(items) && items@.len() == acc.len() && forall|i: int|
            0 <= i < acc.len() ==> #[trigger] items@[i].tree() == acc[i],
    ensures
        n.tree() == NodeView::Array(acc),
{
    if let Node::Array(items) = n {
        let t = n.tree()->Array_0;
        assert(t.len() == acc.len());
        assert forall|i: int| 0 <= i < acc.len() implies t[i] == acc[i] by {
            assert(items@[i].tree() == acc[i]);
        }
        assert(t =~= acc);
    }
}

proof fn lemma_object_tree(n: Node, acc: Seq<(Seq<char>, NodeView)>)
    requires
        n matches Node::Object(entries) && entries@.len() == acc.len() && forall|i: int|
            0 <= i < acc.len() ==> #[trigger] entries@[i].0@ == acc[i].0 && entries@[i].1.tree()
                == acc[i].1,
    ensures
        n.tree() == NodeView::Object(acc),
{
    if let Node::Object(entries) = n {
        assert(n.tree()->Object_0 =~= acc);
    }
}

/// The token a successful step reads.
spec fn token_of(l: Lexed) -> TokenView {
    match l.0 {
        Ok(t) => t,
        Err(_) => TokenView::Eof,
    }
}

/// The value that begins with the copied token `t`.
fn read_value_from(tok: &mut Tokenizer, t: Tok, Ghost(tv): Ghost<TokenView>) -> (r: Result<
    Node,
    JsonError,
>)
    requires
        state_ok(old(tok).src(), at(*old(tok))),
        owns(t, tv),
    ensures
        final(tok).src() == old(tok).src(),
        match value_from(old(tok).src(), tv, at(*old(tok))) {
            Ok((v, st2)) => r matches Ok(n) && n.tree() == v && at(*final(tok)) == st2 && state_ok(
                old(tok).src(),
                st2,
            ) && potential(old(tok).src(), st2) <= potential(old(tok).src(), at(*old(tok))),
            Err(e) => r == Err::<Node, JsonError>(e),
        },
    decreases potential(old(tok).src(), at(*old(tok))), 2nat,
{
    match t {
        Tok::ObjectStart => read_object(tok),
        Tok::ArrayStart => read_array(tok),
        Tok::True => Ok(Node::Bool(true)),
        Tok::False => Ok(Node::Bool(false)),
        Tok::Null => Ok(Node::Null),
        Tok::Number(b) => {
            if number_accepted(b.as_slice()) {
                Ok(Node::Number(b))
            } else {
                Err(JsonError::BadNumber(tok.position()))
            }
        },
        Tok::Raw(x) => Ok(Node::String(x)),
        Tok::Chunk(x, last) => {
            if last {
                Ok(Node::String(x))
            } else {
                let s = read_string_rest(tok, x)?;
                Ok(Node::String(s))
            }
        },
        Tok::Eof => Err(JsonError::UnexpectedEof),
        _ => Err(JsonError::UnexpectedByte(tok.position())),
    }
}

/// The value that starts at the tokenizer's position.
fn read_value(tok: &mut Tokenizer) -> (r: Result<Node, JsonError>)
    requires
        state_ok(old(tok).src(), at(*old(tok))),
    ensures
        final(tok).src() == old(tok).src(),
        match parse_value(old(tok).src(), at(*old(tok))) {
            Ok((v, st2)) => r matches Ok(n) && n.tree() == v && at(*final(tok)) == st2 && state_ok(
                old(tok).src(),
                st2,
            ) && progress(old(tok).src(), at(*old(tok)), st2),
            Err(e) => r == Err::<Node, JsonError>(e),
        },
    decreases potential(old(tok).src(), at(*old(tok))), 3nat,
{
    let ghost src = tok.src();
    let ghost st0 = at(*tok);
    let ghost tv = token_of(step(src, st0));
    proof {
        lemma_step_progress(src, st0);
    }
    let t = next(tok)?;
    if let Tok::Eof = t {
        return Err(JsonError::UnexpectedEof);
    }
    read_value_from(tok, t, Ghost(tv))
}

/// The items of an array whose `[` has been read.
fn read_array(tok: &mut Tokenizer) -> (r: Result<Node, JsonError>)
    requires
        state_ok(old(tok).src(), at(*old(tok))),
    ensures
        final(tok).src() == old(tok).src(),
        match array_start(old(tok).src(), at(*old(tok))) {
            Ok((v, st2)) => r matches Ok(n) && n.tree() == v && at(*final(tok)) == st2 && state_ok(
                old(tok).src(),
                st2,
            ) && progress(old(tok).src(), at(*old(tok)), st2),
            Err(e) => r == Err::<Node, JsonError>(e),
        },
    decreases potential(old(tok).src(), at(*old(tok))), 1nat,
{
    let ghost src = tok.src();
    let ghost st0 = at(*tok);
    let ghost tv = token_of(step(src, st0));
    proof {
        lemma_step_progress(src, st0);
    }
    let first = next(tok)?;
    match first {
        Tok::ArrayEnd => {
            let items: Vec<Node> = Vec::new();
            let n = Node::Array(items);
            assert(n.tree()->Array_0 =~= Seq::<NodeView>::empty());
            return Ok(n);
        },
        Tok::Eof => {
            return Err(JsonError::UnexpectedEof);
        },
        _ => {},
    }
    let v = read_value_from(tok, first, Ghost(tv))?;
    let ghost mut acc: Seq<NodeView> = seq![v.tree()];
    let mut items: Vec<Node> = Vec::new();
    items.push(v);
    loop
        invariant
            tok.src() == src,
            src == old(tok).src(),
            st0 == at(*old(tok)),
            state_ok(src, at(*tok)),
            progress(src, st0, at(*tok)),
            items@.len() == acc.len(),
            forall|i: int| 0 <= i < acc.len() ==> #[trigger] items@[i].tree() == acc[i],
            array_after(src, acc, at(*tok)) == array_start(src, st0),
        decreases potential(src, at(*tok)),
    {
        let ghost st1 = at(*tok);
        proof {
            lemma_step_progress(src, st1);
        }
        match next(tok)? {
            Tok::Comma => {
                let v = read_value(tok)?;
                proof {
                    acc = acc.push(v.tree());
                }
                items.push(v);
            },
            Tok::ArrayEnd => {
                let n = Node::Array(items);
                proof {
                    lemma_array_tree(n, acc);
                }
                return Ok(n);
            },
            _ => {
                return Err(JsonError::UnexpectedByte(tok.position()));
            },
        }
    }
}

/// The key that the copied token `t` begins.
fn read_key(tok: &mut Tokenizer, t: Tok, Ghost(tv): Ghost<TokenView>) -> (r: Result<
    String,
    JsonError,
>)
    requires
        state_ok(old(tok).src(), at(*old(tok))),
        owns(t, tv),
    ensures
        final(tok).src() == old(tok).src(),
        match key_from(old(tok).src(), tv, at(*old(tok))) {
            Ok((k, st2)) => r matches Ok(x) && x@ == k && at(*final(tok)) == st2 && state_ok(
                old(tok).src(),
                st2,
            ) && potential(old(tok).src(), st2) <= potential(old(tok).src(), at(*old(tok))),
            Err(e) => r == Err::<String, JsonError>(e),
        },
{
    match t {
        Tok::Raw(x) => Ok(x),
        Tok::Chunk(x, last) => {
            if last {
                Ok(x)
            } else {
                read_string_rest(tok, x)
            }
        },
        _ => Err(JsonError::UnexpectedByte(tok.position())),
    }
}

/// The entries of an object whose `{` has been read.
fn read_object(tok: &mut Tokenizer) -> (r: Result<Node, JsonError>)
    requires
        state_ok(old(tok).src(), at(*old(tok))),
    ensures
        final(tok).src() == old(tok).src(),
        match object_start(old(tok).src(), at(*old(tok))) {
            Ok((v, st2)) => r matches Ok(n) && n.tree() == v && at(*final(tok)) == st2 && state_ok(
                old(tok).src(),
                st2,
            ) && progress(old(tok).src(), at(*old(tok)), st2),
            Err(e) => r == Err::<Node, JsonError>(e),
        },
    decreases potential(old(tok).src(), at(*old(tok))), 1nat,
{
    let ghost src = tok.src();
    let ghost st0 = at(*tok);
    let ghost mut tv = token_of(step(src, st0));
    proof {
        lemma_step_progress(src, st0);
    }
    let mut t = next(tok)?;
    match t {
        Tok::ObjectEnd => {
            let entries: Vec<(String, Node)> = Vec::new();
            let n = Node::Object(entries);
            assert(n.tree()->Object_0 =~= Seq::<(Seq<char>, NodeView)>::empty());
            return Ok(n);
        },
        Tok::Eof => {
            return Err(JsonError::UnexpectedByte(tok.position()));
        },
        _ => {},
    }
    let ghost mut acc: Seq<(Seq<char>, NodeView)> = Seq::empty();
    let mut entries: Vec<(String, Node)> = Vec::new();
    loop
        invariant
            tok.src() == src,
            src == old(tok).src(),
            st0 == at(*old(tok)),
            state_ok(src, at(*tok)),
            progress(src, st0, at(*tok)),
            owns(t, tv),
            entries@.len() == acc.len(),
            forall|i: int|
                0 <= i < acc.len() ==> #[trigger] entries@[i].0@ == acc[i].0 && entries@[i].1.tree()
                    == acc[i].1,
            object_entry(src, acc, tv, at(*tok)) == object_start(src, st0),
        decreases potential(src, at(*tok)),
    {
        let ghost stk = at(*tok);
        let key = read_key(tok, t, Ghost(tv))?;
        let ghost stc = at(*tok);
        proof {
            lemma_step_progress(src, stc);
        }
        match next(tok)? {
            Tok::Colon => {},
            _ => {
                return Err(JsonError::UnexpectedByte(tok.position()));
            },
        }
        let v = read_value(tok)?;
        let ghost stv = at(*tok);
        proof {
            lemma_step_progress(src, stv);
        }
        match next(tok)? {
            Tok::ObjectEnd => {
                let ghost kv = (key@, v.tree());
                let ghost before = entries@;
                entries.push((key, v));
                proof {
                    let acc2 = acc.push(kv);
                    assert forall|i: int| 0 <= i < acc2.len() implies #[trigger] entries@[i].0@
                        == acc2[i].0 && entries@[i].1.tree() == acc2[i].1 by {
                        if i < acc.len() {
                            assert(entries@[i] == before[i]);
                        }
                    }
                }
                let n = Node::Object(entries);
                proof {
                    lemma_object_tree(n, acc.push(kv));
                }
                return Ok(n);
            },
            Tok::Comma => {
                let ghost stn = at(*tok);
                proof {
                    lemma_step_progress(src, stn);
                    tv = token_of(step(src, stn));
                }
                let t2 = next(tok)?;
                if let Tok::Eof = t2 {
                    return Err(JsonError::UnexpectedByte(tok.position()));
                }
                let ghost before = entries@;
                let ghost acc0 = acc;
                proof {
                    acc = acc.push((key@, v.tree()));
                }
                entries.push((key, v));
                proof {
                    assert forall|i: int| 0 <= i < acc.len() implies #[trigger] entries@[i].0@
                        == acc[i].0 && entries@[i].1.tree() == acc[i].1 by {
                        if i < acc0.len() {
                            assert(entries@[i] == before[i]);
                        }
                    }
                }
                t = t2;
            },
            _ => {
                return Err(JsonError::UnexpectedByte(tok.position()));
            },
        }
    }
}

/// Parse `input` as one JSON value followed by the end of input.
pub fn parse_tree(input: &[u8]) -> (r: Result<Node, JsonError>)
    ensures
        match parse_document(input@) {
            Ok(v) => r matches Ok(n) && n.tree() == v,
            Err(e) => r == Err::<Node, JsonError>(e),
        },
{
    let len = input.len();
    assert(input@.len() <= usize::MAX);
    let mut tok = Tokenizer::new(input);
    let v = read_value(&mut tok)?;
    match next(&mut tok)? {
        Tok::Eof => Ok(v),
        _ => Err(JsonError::UnexpectedByte(tok.position())),
    }
}

/// The views of `items`, in order.
spec fn trees(items: Seq<Node>) -> Seq<NodeView> {
    Seq::new(items.len(), |i: int| items[i].tree())
}

/// The views of the entries `es`, in order.
spec fn entry_trees(es: Seq<(String, Node)>) -> Seq<(Seq<char>, NodeView)> {
    Seq::new(es.len(), |i: int| (es[i].0@, es[i].1.tree()))
}

/// Append the JSON text of `n` to `out`.
fn write_node(n: &Node, out: &mut String)
    ensures
        final(out)@ == old(out)@ + tree_text(n.tree()),
    decreases n,
{
    match n {
        Node::Null => {
            string_push(out, 'n');
            string_push(out, 'u');
            string_push(out, 'l');
            string_push(out, 'l');
            assert(out@ =~= old(out)@ + tree_text(n.tree()));
        },
        Node::Bool(b) => {
            if *b {
                string_push(out, 't');
                string_push(out, 'r');
                string_push(out, 'u');
                string_push(out, 'e');
            } else {
                string_push(out, 'f');
                string_push(out, 'a');
                string_push(out, 'l');
                string_push(out, 's');
                string_push(out, 'e');
            }
            assert(out@ =~= old(out)@ + tree_text(n.tree()));
        },
        Node::Number(b) => {
            let t = string_from_bytes_or_empty(b.as_slice());
            append(out, &t);
        },
        Node::String(x) => {
            let q = quote_string(x.as_str());
            append(out, &q);
        },
        Node::Array(items) => {
            let ghost views = trees(items@);
            assert(n.tree()->Array_0 =~= views);
            string_push(out, '[');
            let mut i: usize = 0;
            while i < items.len()
                invariant
                    i <= items@.len(),
                    views == trees(items@),
                    *n == Node::Array(*items),
                    n.tree() == NodeView::Array(views),
                    out@ == old(out)@ + seq!['['] + items_text(views.take(i as int)),
                decreases items@.len() - i,
            {
                if i > 0 {
                    string_push(out, ',');
                }
                proof {
                    vstd::std_specs::vec::axiom_vec_index_decreases(*items, i as int);
                    assert(decreases_to!(*n => *items));
                    assert(decreases_to!(*items => items@[i as int]));
                }
                write_node(&items[i], out);
                proof {
                    let tk = views.take(i + 1);
                    assert(tk.drop_last() =~= views.take(i as int));
                    assert(tk[tk.len() - 1] == items@[i as int].tree());
                    if i == 0 {
                        assert(views.take(0) =~= Seq::<NodeView>::empty());
                    }
                }
                i += 1;
            }
            string_push(out, ']');
            assert(views.take(items@.len() as int) =~= views);
        },
        Node::Object(entries) => {
            let ghost views = entry_trees(entries@);
            assert(n.tree()->Object_0 =~= views);
            string_push(out, '{');
            let mut i: usize = 0;
            while i < entries.len()
                invariant
                    i <= entries@.len(),
                    views == entry_trees(entries@),
                    *n == Node::Object(*entries),
                    n.tree() == NodeView::Object(views),
                    out@ == old(out)@ + seq!['{'] + entries_text(views.take(i as int)),
                decreases entries@.len() - i,
            {
                if i > 0 {
                    string_push(out, ',');
                }
                let q = quote_string(entries[i].0.as_str());
                append(out, &q);
                string_push(out, ':');
                proof {
                    vstd::std_specs::vec::axiom_vec_index_decreases(*entries, i as int);
                    assert(decreases_to!(*n => *entries));
                    assert(decreases_to!(*entries => entries@[i as int]));
                    assert(decreases_to!(entries@[i as int] => entries@[i as int].1));
                }
                write_node(&entries[i].1, out);
                proof {
                    let tk = views.take(i + 1);
                    assert(tk.drop_last() =~= views.take(i as int));
                    assert(tk[tk.len() - 1] == (entries@[i as int].0@, entries@[i as int].1.tree()));
                    if i == 0 {
                        assert(views.take(0) =~= Seq::<(Seq<char>, NodeView)>::empty());
                    }
                }
                i += 1;
            }
            string_push(out, '}');
            assert(views.take(entries@.len() as int) =~= views);
        },
    }
}

/// The JSON text of `n`: compact, with strings escaped as
/// [`quote_string`] does.
pub fn to_json_string(n: &Node) -> (r: String)
    ensures
        r@ == tree_text(n.tree()),
{
    let mut out = String::new();
    write_node(n, &mut out);
    assert(out@ =~= tree_text(n.tree()));
    out
}

} // verus!
