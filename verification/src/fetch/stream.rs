//! Decoding of a server-sent-event chat completion stream: the bytes of the
//! response body are cut into lines, each `data: ` line carries a JSON chunk
//! whose `choices[0].delta.content` is the next piece of the answer, and a
//! `data: [DONE]` line ends the stream.

use vstd::prelude::*;
use vstd::utf8::{valid_utf8, decode_utf8};
use crate::fetch::json::{
    delta_content_of, items_renderable, lemma_member_last, lemma_parse_document_rendered,
    members_renderable, parse_document, quoted, read_delta_content, read_document, render,
    renderable, Json,
};
use crate::text::{
    all_white_space, is_white_space, trim_end, trim_start, chars_of, lemma_trim_ignores_trailing_white_space, string_from_chars,
    string_views, trim, trimmed,
};

verus! {

// ---------------------------------------------------------------------------
// The JSON chunk of a line, and UTF-8 text
// ---------------------------------------------------------------------------

/// The string at `choices[0].delta.content` of the JSON document `data`:
/// `None` when `data` is not a JSON document, or when that path does not lead
/// to a string.
pub open spec fn json_delta_content(data: Seq<char>) -> Option<Seq<char>> {
    match parse_document(data) {
        Some(v) => delta_content_of(v),
        None => None,
    }
}

/// Reads the JSON chunk `data` and returns the string at
/// `choices[0].delta.content`, if there is one.
fn delta_content(data: &str) -> (r: Option<String>)
    ensures
        r.deep_view() == json_delta_content(data@),
{
    let chars = chars_of(data);
    match read_document(chars.as_slice()) {
        None => None,
        Some(doc) => match read_delta_content(&doc) {
            Some(content) => Some(string_from_chars(content.as_slice(), 0, content.len())),
            None => None,
        },
    }
}

/// `std::str::from_utf8`: the text that `bytes` encode, or `None` when they
/// are not valid UTF-8 (validity and decoding as vstd's `utf8` module states
/// them).
#[verifier::external_body]
pub(crate) fn utf8_text(bytes: &[u8]) -> (r: Option<String>)
    ensures
        r is Some <==> valid_utf8(bytes@),
        r matches Some(s) ==> s@ == decode_utf8(bytes@),
{
    match std::str::from_utf8(bytes) {
        Ok(s) => Some(s.to_string()),
        Err(_) => None,
    }
}

// ---------------------------------------------------------------------------
// One line of the stream
// ---------------------------------------------------------------------------

/// What one line of the stream means.
pub ghost enum LineMeaning {
    /// Nothing to show: not a `data: ` line, or no content in it.
    Ignored,
    /// A piece of the answer.
    Token(Seq<char>),
    /// The end-of-stream marker.
    Done,
}

/// What one line of the stream means, as an executable value.
pub enum StreamLine {
    Ignored,
    Token(String),
    Done,
}

impl View for StreamLine {
    type V = LineMeaning;

    open spec fn view(&self) -> LineMeaning {
        match self {
            StreamLine::Ignored => LineMeaning::Ignored,
            StreamLine::Token(t) => LineMeaning::Token(t@),
            StreamLine::Done => LineMeaning::Done,
        }
    }
}

/// The prefix of a line that carries data.
pub open spec fn data_prefix() -> Seq<char> {
    seq!['d', 'a', 't', 'a', ':', ' ']
}

/// The data that ends the stream.
pub open spec fn done_marker() -> Seq<char> {
    seq!['[', 'D', 'O', 'N', 'E', ']']
}

/// The meaning of the line `line`: it is trimmed; it must then begin with
/// `data: `; the rest is either `[DONE]` or a JSON chunk.
pub open spec fn line_meaning(line: Seq<char>) -> LineMeaning {
    let t = trimmed(line);
    if t.len() >= data_prefix().len() && t.take(data_prefix().len() as int) == data_prefix() {
        let data = t.skip(data_prefix().len() as int);
        if data == done_marker() {
            LineMeaning::Done
        } else {
            match json_delta_content(data) {
                Some(c) => LineMeaning::Token(c),
                None => LineMeaning::Ignored,
            }
        }
    } else {
        LineMeaning::Ignored
    }
}

/// Whether `v[from..]` starts with `p`.
fn has_prefix_at(v: &[char], from: usize, p: &[char]) -> (b: bool)
    requires
        from <= v@.len(),
    ensures
        b == (v@.len() - from >= p@.len() && v@.subrange(from as int, from + p@.len()) == p@),
{
    if v.len() - from < p.len() {
        return false;
    }
    let mut i: usize = 0;
    while i < p.len()
        invariant
            i <= p@.len(),
            from + p.len() <= v.len(),
            forall|k: int| 0 <= k < i ==> v@[from + k] == p@[k],
        decreases p@.len() - i,
    {
        if v[from + i] != p[i] {
            assert(v@.subrange(from as int, from + p@.len())[i as int] != p@[i as int]);
            return false;
        }
        i = i + 1;
    }
    assert(v@.subrange(from as int, from + p@.len()) =~= p@);
    true
}

/// Reads one line of the stream (`parse_stream_line`): `Done` for the
/// end-of-stream marker, `Token` for a `data: ` line whose JSON carries a
/// content string, `Ignored` for anything else.
pub fn parse_stream_line(line: &str) -> (r: StreamLine)
    ensures
        r@ == line_meaning(line@),
{
    let t = trim(line);
    let v = chars_of(t.as_str());
    let prefix = vec!['d', 'a', 't', 'a', ':', ' '];
    assert(prefix@ =~= data_prefix());
    if !has_prefix_at(v.as_slice(), 0, prefix.as_slice()) {
        return StreamLine::Ignored;
    }
    assert(v@.subrange(0, 6) =~= v@.take(6));
    let marker = vec!['[', 'D', 'O', 'N', 'E', ']'];
    assert(marker@ =~= done_marker());
    let ghost data = v@.skip(6);
    if v.len() == 12 && has_prefix_at(v.as_slice(), 6, marker.as_slice()) {
        assert(data =~= v@.subrange(6, 12));
        return StreamLine::Done;
    }
    assert(data != done_marker()) by {
        if data == done_marker() {
            assert(v@.subrange(6, 12) =~= data);
        }
    }
    let d = string_from_chars(v.as_slice(), 6, v.len());
    assert(d@ =~= data);
    match delta_content(d.as_str()) {
        Some(c) => StreamLine::Token(c),
        None => StreamLine::Ignored,
    }
}


// ---------------------------------------------------------------------------
// Cutting the byte stream into lines
// ---------------------------------------------------------------------------

/// The line feed byte that ends each line.
pub open spec fn newline() -> u8 {
    10u8
}

/// `i` is the position of the first line feed in `buf`.
pub open spec fn is_first_newline(buf: Seq<u8>, i: int) -> bool {
    &&& 0 <= i < buf.len()
    &&& buf[i] == newline()
    &&& forall|k: int| 0 <= k < i ==> buf[k] != newline()
}

/// The meaning of a line given as bytes: one that is not valid UTF-8 is
/// skipped.
pub open spec fn bytes_meaning(line: Seq<u8>) -> LineMeaning {
    if valid_utf8(line) {
        line_meaning(decode_utf8(line))
    } else {
        LineMeaning::Ignored
    }
}

/// What reading the complete lines of a buffer yields: the tokens in order,
/// whether the end marker was met, and the bytes left in the buffer.
pub ghost struct Drained {
    pub tokens: Seq<Seq<char>>,
    pub done: bool,
    pub rest: Seq<u8>,
}

/// `d` with the tokens `ts` in front of its own.
pub open spec fn after_tokens(ts: Seq<Seq<char>>, d: Drained) -> Drained {
    Drained { tokens: ts + d.tokens, done: d.done, rest: d.rest }
}

/// Reads the complete (line-feed terminated) lines of `buf` in order, until
/// none is left or one is the end marker; the bytes after that line stay in
/// the buffer.
pub open spec fn drain(buf: Seq<u8>) -> Drained
    decreases buf.len(),
{
    if exists|i: int| is_first_newline(buf, i) {
        let i = choose|i: int| is_first_newline(buf, i);
        let rest = buf.skip(i + 1);
        match bytes_meaning(buf.take(i + 1)) {
            LineMeaning::Done => Drained { tokens: Seq::empty(), done: true, rest },
            LineMeaning::Token(t) => after_tokens(seq![t], drain(rest)),
            LineMeaning::Ignored => drain(rest),
        }
    } else {
        Drained { tokens: Seq::empty(), done: false, rest: buf }
    }
}

/// The token that the bytes left at the end of the stream give, read as a
/// last line.
pub open spec fn trailing_token(buf: Seq<u8>) -> Option<Seq<char>> {
    if buf.len() > 0 {
        match bytes_meaning(buf) {
            LineMeaning::Token(t) => Some(t),
            _ => None,
        }
    } else {
        None
    }
}

proof fn lemma_first_newline_unique(buf: Seq<u8>, i: int)
    requires
        is_first_newline(buf, i),
    ensures
        (choose|j: int| is_first_newline(buf, j)) == i,
{
    let j = choose|j: int| is_first_newline(buf, j);
    assert(is_first_newline(buf, j));
    if j < i {
        assert(buf[j] != newline());
    }
    if i < j {
        assert(buf[i] != newline());
    }
}

/// `v[from..to]` as a vector.
fn copy_bytes(v: &[u8], from: usize, to: usize) -> (r: Vec<u8>)
    requires
        from <= to <= v@.len(),
    ensures
        r@ == v@.subrange(from as int, to as int),
{
    let mut r: Vec<u8> = Vec::new();
    let mut i = from;
    while i < to
        invariant
            from <= i <= to <= v@.len(),
            r@ == v@.subrange(from as int, i as int),
        decreases to - i,
    {
        r.push(v[i]);
        assert(r@ =~= v@.subrange(from as int, i + 1));
        i = i + 1;
    }
    r
}

/// The position of the first line feed in `v`, if there is one.
fn find_newline(v: &[u8]) -> (r: Option<usize>)
    ensures
        match r {
            Some(i) => is_first_newline(v@, i as int),
            None => forall|k: int| 0 <= k < v@.len() ==> v@[k] != newline(),
        },
{
    let mut i: usize = 0;
    while i < v.len()
        invariant
            i <= v@.len(),
            forall|k: int| 0 <= k < i ==> v@[k] != newline(),
        decreases v@.len() - i,
    {
        if v[i] == 10u8 {
            return Some(i);
        }
        i = i + 1;
    }
    None
}

/// The reading state of a chat completion stream: the bytes received after
/// the last complete line.
pub struct StreamDecoder {
    pub buffer: Vec<u8>,
}

impl StreamDecoder {
    /// A decoder that has received nothing yet.
    pub fn new() -> (d: StreamDecoder)
        ensures
            d.buffer@ == Seq::<u8>::empty(),
    {
        StreamDecoder { buffer: Vec::new() }
    }

    /// Takes the next chunk of the response body and reads every line that is
    /// now complete. Returns the tokens in order and whether the end marker was
    /// met; the bytes after the last complete line (after the end marker, when
    /// it was met) stay in the buffer.
    pub fn push_chunk(&mut self, chunk: &[u8]) -> (r: (Vec<String>, bool))
        ensures
            drain(old(self).buffer@ + chunk@) == (Drained {
                tokens: string_views(r.0@),
                done: r.1,
                rest: final(self).buffer@,
            }),
    {
        let ghost total = old(self).buffer@ + chunk@;
        let mut buf: Vec<u8> = Vec::new();
        std::mem::swap(&mut buf, &mut self.buffer);
        let mut i: usize = 0;
        while i < chunk.len()
            invariant
                i <= chunk@.len(),
                buf@ == old(self).buffer@ + chunk@.subrange(0, i as int),
            decreases chunk@.len() - i,
        {
            buf.push(chunk[i]);
            assert(buf@ =~= old(self).buffer@ + chunk@.subrange(0, i + 1));
            i = i + 1;
        }
        assert(chunk@.subrange(0, chunk@.len() as int) =~= chunk@);
        let mut tokens: Vec<String> = Vec::new();
        assert(after_tokens(string_views(tokens@), drain(buf@)) =~= drain(buf@));
        loop
            invariant
                total == old(self).buffer@ + chunk@,
                drain(total) == after_tokens(string_views(tokens@), drain(buf@)),
            decreases buf@.len(),
        {
            match find_newline(buf.as_slice()) {
                None => {
                    assert(!exists|i: int| is_first_newline(buf@, i));
                    assert(string_views(tokens@) + Seq::<Seq<char>>::empty() =~= string_views(
                        tokens@,
                    ));
                    self.buffer = buf;
                    return (tokens, false);
                },
                Some(j) => {
                    proof {
                        lemma_first_newline_unique(buf@, j as int);
                    }
                    let n = buf.len();
                    let line = copy_bytes(buf.as_slice(), 0, j + 1);
                    let rest = copy_bytes(buf.as_slice(), j + 1, n);
                    assert(line@ =~= buf@.take(j + 1));
                    assert(rest@ =~= buf@.skip(j + 1));
                    let meaning = match utf8_text(line.as_slice()) {
                        Some(text) => parse_stream_line(text.as_str()),
                        None => StreamLine::Ignored,
                    };
                    assert(meaning@ == bytes_meaning(line@));
                    match meaning {
                        StreamLine::Done => {
                            assert(string_views(tokens@) + Seq::<Seq<char>>::empty()
                                =~= string_views(tokens@));
                            self.buffer = rest;
                            return (tokens, true);
                        },
                        StreamLine::Token(t) => {
                            let ghost before = string_views(tokens@);
                            let ghost tv = t@;
                            tokens.push(t);
                            assert(string_views(tokens@) =~= before.push(tv));
                            assert(before + (seq![tv] + drain(rest@).tokens) =~= before.push(tv)
                                + drain(rest@).tokens);
                        },
                        StreamLine::Ignored => {},
                    }
                    buf = rest;
                },
            }
        }
    }

    /// At the end of the body, reads the bytes left in the buffer as a last
    /// line and returns its token, if it has one.
    pub fn finish(&self) -> (r: Option<String>)
        ensures
            r.deep_view() == trailing_token(self.buffer@),
    {
        if self.buffer.len() == 0 {
            return None;
        }
        match utf8_text(self.buffer.as_slice()) {
            Some(text) => match parse_stream_line(text.as_str()) {
                StreamLine::Token(t) => Some(t),
                _ => None,
            },
            None => None,
        }
    }
}


/// Reading does not depend on how the body is cut into chunks: reading `x`
/// and then the bytes left over followed by `y` gives the same tokens, end
/// and leftover bytes as reading `x + y` at once; once the end marker is met
/// in `x`, nothing of `y` is read.
pub proof fn lemma_drain_append(x: Seq<u8>, y: Seq<u8>)
    ensures
        drain(x).done ==> drain(x + y) == (Drained {
            tokens: drain(x).tokens,
            done: true,
            rest: drain(x).rest + y,
        }),
        !drain(x).done ==> drain(x + y) == after_tokens(drain(x).tokens, drain(drain(x).rest + y)),
    decreases x.len(),
{
    if exists|i: int| is_first_newline(x, i) {
        let i = choose|i: int| is_first_newline(x, i);
        assert(is_first_newline(x + y, i));
        lemma_first_newline_unique(x + y, i);
        assert((x + y).take(i + 1) =~= x.take(i + 1));
        let rest = x.skip(i + 1);
        assert((x + y).skip(i + 1) =~= rest + y);
        lemma_drain_append(rest, y);
        match bytes_meaning(x.take(i + 1)) {
            LineMeaning::Done => {
                assert(drain(x).rest + y =~= rest + y);
            },
            LineMeaning::Token(t) => {
                let d = drain(rest);
                if !d.done {
                    assert(seq![t] + (d.tokens + drain(d.rest + y).tokens) =~= (seq![t]
                        + d.tokens) + drain(d.rest + y).tokens);
                }
            },
            LineMeaning::Ignored => {},
        }
    } else {
        assert(Seq::<Seq<char>>::empty() + drain(x + y).tokens =~= drain(x + y).tokens);
    }
}


/// A line means the same with or without trailing white space, so `\r\n`
/// and `\n` line endings read alike.
pub proof fn lemma_line_ending_ignored(line: Seq<char>, ending: Seq<char>)
    requires
        all_white_space(ending),
    ensures
        line_meaning(line + ending) == line_meaning(line),
{
    lemma_trim_ignores_trailing_white_space(line, ending);
}

/// A complete line that is the end marker ends the reading: no token comes
/// from it, and everything after it is left unread.
pub proof fn lemma_end_marker_stops(line: Seq<u8>, after: Seq<u8>)
    requires
        forall|k: int| 0 <= k < line.len() ==> line[k] != newline(),
        bytes_meaning(line.push(newline())) == LineMeaning::Done,
    ensures
        drain(line.push(newline()) + after) == (Drained {
            tokens: Seq::empty(),
            done: true,
            rest: after,
        }),
{
    let buf = line.push(newline()) + after;
    assert(is_first_newline(buf, line.len() as int));
    lemma_first_newline_unique(buf, line.len() as int);
    assert(buf.take(line.len() as int + 1) =~= line.push(newline()));
    assert(buf.skip(line.len() as int + 1) =~= after);
}


/// A `data: ` line whose JSON chunk holds the string `s` at
/// `choices[0].delta.content` means exactly the token `s`, whatever other
/// members the chunk, its first choice and its delta hold (a `role` beside the
/// content, say), and whatever further choices follow. Members after the
/// path's own are required to have other names, since a later member of the
/// same name is the one an object lookup finds.
pub proof fn lemma_token_is_delta_content(
    s: Seq<char>,
    top_before: Seq<(Seq<char>, Json)>,
    top_after: Seq<(Seq<char>, Json)>,
    choice_before: Seq<(Seq<char>, Json)>,
    choice_after: Seq<(Seq<char>, Json)>,
    delta_before: Seq<(Seq<char>, Json)>,
    delta_after: Seq<(Seq<char>, Json)>,
    more_choices: Seq<Json>,
)
    requires
        members_renderable(top_before, 127),
        members_renderable(top_after, 127),
        items_renderable(more_choices, 126),
        members_renderable(choice_before, 125),
        members_renderable(choice_after, 125),
        members_renderable(delta_before, 124),
        members_renderable(delta_after, 124),
        forall|i: int|
            0 <= i < top_after.len() ==> (#[trigger] top_after[i]).0 != seq![
                'c',
                'h',
                'o',
                'i',
                'c',
                'e',
                's',
            ],
        forall|i: int|
            0 <= i < choice_after.len() ==> (#[trigger] choice_after[i]).0 != seq![
                'd',
                'e',
                'l',
                't',
                'a',
            ],
        forall|i: int|
            0 <= i < delta_after.len() ==> (#[trigger] delta_after[i]).0 != seq![
                'c',
                'o',
                'n',
                't',
                'e',
                'n',
                't',
            ],
    ensures
        line_meaning(
            seq!['d', 'a', 't', 'a', ':', ' '] + render(
                Json::Object(
                    top_before.push(
                        (
                            seq!['c', 'h', 'o', 'i', 'c', 'e', 's'],
                            Json::Array(
                                seq![
                                    Json::Object(
                                        choice_before.push(
                                            (
                                                seq!['d', 'e', 'l', 't', 'a'],
                                                Json::Object(
                                                    delta_before.push(
                                                        (
                                                            seq!['c', 'o', 'n', 't', 'e', 'n', 't'],
                                                            Json::Str(s),
                                                        ),
                                                    ) + delta_after,
                                                ),
                                            ),
                                        ) + choice_after,
                                    ),
                                ] + more_choices,
                            ),
                        ),
                    ) + top_after,
                ),
            ),
        ) == LineMeaning::Token(s),
{
    let content_key = seq!['c', 'o', 'n', 't', 'e', 'n', 't'];
    let delta_key = seq!['d', 'e', 'l', 't', 'a'];
    let choices_key = seq!['c', 'h', 'o', 'i', 'c', 'e', 's'];
    assert(content_key =~= crate::fetch::json::content_key());
    assert(delta_key =~= crate::fetch::json::delta_key());
    assert(choices_key =~= crate::fetch::json::choices_key());
    let delta_members = delta_before.push((content_key, Json::Str(s))) + delta_after;
    let delta = Json::Object(delta_members);
    let choice_members = choice_before.push((delta_key, delta)) + choice_after;
    let choice = Json::Object(choice_members);
    let choices = Json::Array(seq![choice] + more_choices);
    let top_members = top_before.push((choices_key, choices)) + top_after;
    let doc = Json::Object(top_members);

    crate::fetch::json::lemma_members_renderable_around(delta_before, content_key, Json::Str(s), delta_after, 124);
    assert(renderable(delta, 125));
    crate::fetch::json::lemma_members_renderable_around(choice_before, delta_key, delta, choice_after, 125);
    assert(renderable(choice, 126));
    assert((seq![choice] + more_choices).drop_first() =~= more_choices);
    assert(items_renderable(seq![choice] + more_choices, 126));
    assert(renderable(choices, 127));
    crate::fetch::json::lemma_members_renderable_around(top_before, choices_key, choices, top_after, 127);
    assert(renderable(doc, 128));
    lemma_parse_document_rendered(doc);

    lemma_member_last(top_before, choices_key, choices, top_after);
    lemma_member_last(choice_before, delta_key, delta, choice_after);
    lemma_member_last(delta_before, content_key, Json::Str(s), delta_after);
    assert((seq![choice] + more_choices)[0] == choice);
    assert(delta_content_of(doc) == Some(s));

    let data = render(doc);
    let line = seq!['d', 'a', 't', 'a', ':', ' '] + data;
    assert(data[0] == '{');
    assert(data.last() == '}');
    assert(line[0] == 'd');
    assert(line.last() == data.last());
    assert(trim_start(line) == line);
    assert(trim_end(line) == line);
    assert(line.take(6) =~= data_prefix());
    assert(line.skip(6) =~= data);
    assert(data != done_marker()) by {
        if data == done_marker() {
            assert(data[0] == done_marker()[0]);
        }
    }
}

/// The chunk `{"choices":[{"delta":{"content":S}}]}`, for any JSON string `S`
/// holding the text `s`, means exactly the token `s`: nothing of it is
/// trimmed, added or dropped.
pub proof fn lemma_token_is_content_verbatim(s: Seq<char>)
    ensures
        line_meaning(
            seq![
                'd', 'a', 't', 'a', ':', ' ', '{', '"', 'c', 'h', 'o', 'i', 'c', 'e', 's', '"', ':',
                '[', '{', '"', 'd', 'e', 'l', 't', 'a', '"', ':', '{', '"', 'c', 'o', 'n', 't', 'e',
                'n', 't', '"', ':',
            ] + quoted(s) + seq!['}', '}', ']', '}'],
        ) == LineMeaning::Token(s),
{
    let none = Seq::<(Seq<char>, Json)>::empty();
    let content_key = seq!['c', 'o', 'n', 't', 'e', 'n', 't'];
    let delta_key = seq!['d', 'e', 'l', 't', 'a'];
    let choices_key = seq!['c', 'h', 'o', 'i', 'c', 'e', 's'];
    lemma_token_is_delta_content(s, none, none, none, none, none, none, Seq::empty());
    let q = quoted(s);
    let delta = Json::Object(none.push((content_key, Json::Str(s))) + none);
    let choice = Json::Object(none.push((delta_key, delta)) + none);
    let choices = Json::Array(seq![choice] + Seq::<Json>::empty());
    let doc = Json::Object(none.push((choices_key, choices)) + none);
    crate::fetch::json::lemma_quoted_plain_key(content_key);
    crate::fetch::json::lemma_quoted_plain_key(delta_key);
    crate::fetch::json::lemma_quoted_plain_key(choices_key);

    let p_delta = seq!['{', '"', 'c', 'o', 'n', 't', 'e', 'n', 't', '"', ':'];
    crate::fetch::json::lemma_render_single_member(content_key, Json::Str(s));
    assert(seq!['{'] + quoted(content_key) + seq![':'] =~= p_delta);
    lemma_wrapped(seq!['{'] + quoted(content_key) + seq![':'], seq![], q, seq![], seq!['}']);
    assert(render(delta) == p_delta + q + seq!['}']);

    let p_choice = seq!['{', '"', 'd', 'e', 'l', 't', 'a', '"', ':'] + p_delta;
    let s_choice = seq!['}', '}'];
    crate::fetch::json::lemma_render_single_member(delta_key, delta);
    assert(seq!['{'] + quoted(delta_key) + seq![':'] =~= seq![
        '{', '"', 'd', 'e', 'l', 't', 'a', '"', ':',
    ]);
    lemma_wrapped(
        seq!['{', '"', 'd', 'e', 'l', 't', 'a', '"', ':'],
        p_delta,
        q,
        seq!['}'],
        seq!['}'],
    );
    assert(seq!['}'] + seq!['}'] =~= s_choice);
    assert(render(choice) == p_choice + q + s_choice);

    let p_choices = seq!['['] + p_choice;
    let s_choices = s_choice + seq![']'];
    crate::fetch::json::lemma_render_single_item(choice);
    lemma_wrapped(seq!['['], p_choice, q, s_choice, seq![']']);
    assert(render(choices) == p_choices + q + s_choices);

    let p_doc = seq!['{', '"', 'c', 'h', 'o', 'i', 'c', 'e', 's', '"', ':'] + p_choices;
    let s_doc = s_choices + seq!['}'];
    crate::fetch::json::lemma_render_single_member(choices_key, choices);
    assert(seq!['{'] + quoted(choices_key) + seq![':'] =~= seq![
        '{', '"', 'c', 'h', 'o', 'i', 'c', 'e', 's', '"', ':',
    ]);
    lemma_wrapped(
        seq!['{', '"', 'c', 'h', 'o', 'i', 'c', 'e', 's', '"', ':'],
        p_choices,
        q,
        s_choices,
        seq!['}'],
    );
    assert(render(doc) == p_doc + q + s_doc);

    let prefix = seq![
        'd', 'a', 't', 'a', ':', ' ', '{', '"', 'c', 'h', 'o', 'i', 'c', 'e', 's', '"', ':',
        '[', '{', '"', 'd', 'e', 'l', 't', 'a', '"', ':', '{', '"', 'c', 'o', 'n', 't', 'e',
        'n', 't', '"', ':',
    ];
    assert(seq!['d', 'a', 't', 'a', ':', ' '] + p_doc =~= prefix);
    assert(s_doc =~= seq!['}', '}', ']', '}']);
    lemma_wrapped(seq!['d', 'a', 't', 'a', ':', ' '], p_doc, q, s_doc, seq![]);
    assert(s_doc + Seq::<char>::empty() =~= s_doc);
}

/// Text wrapped around a middle part, regrouped.
proof fn lemma_wrapped(
    outer_pre: Seq<char>,
    inner_pre: Seq<char>,
    mid: Seq<char>,
    inner_suf: Seq<char>,
    outer_suf: Seq<char>,
)
    ensures
        outer_pre + (inner_pre + mid + inner_suf) + outer_suf == (outer_pre + inner_pre) + mid + (
        inner_suf + outer_suf),
{
    assert(outer_pre + (inner_pre + mid + inner_suf) + outer_suf =~= (outer_pre + inner_pre) + mid
        + (inner_suf + outer_suf));
}

} // verus!
