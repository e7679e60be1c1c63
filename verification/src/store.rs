//! The log as the bytes of a file: how they are read, when they are mended,
//! and what comes back of what was written.

use crate::event;
use crate::event::{Event, LogLine, Replay};
use crate::text;
use vstd::prelude::*;

verus! {

// ---- reading ------------------------------------------------------------
/// Trusted: `String::from_utf8` gives the string whose UTF-8 form the bytes
/// are, and fails exactly if they are not valid UTF-8.
#[verifier::external_body]
fn decoded_text(bytes: Vec<u8>) -> (res: Option<String>)
    ensures
        match res {
            Some(s) => vstd::utf8::valid_utf8(bytes@) && s@ == vstd::utf8::decode_utf8(bytes@),
            None => !vstd::utf8::valid_utf8(bytes@),
        },
{
    String::from_utf8(bytes).ok()
}

/// The lines of a log's bytes, which end as those of its text do.
pub open spec fn byte_lines(log: Seq<u8>) -> Seq<Seq<u8>> {
    text::lines(log, 10u8, 13u8)
}

/// Every line but the last one is text.
pub open spec fn readable(log: Seq<u8>) -> bool {
    forall|i: int|
        0 <= i < byte_lines(log).len() - 1 ==> vstd::utf8::valid_utf8(
            #[trigger] byte_lines(log)[i],
        )
}

/// The last line is not text: a write was cut short inside a character.
pub open spec fn cut(log: Seq<u8>) -> bool {
    byte_lines(log).len() > 0 && !vstd::utf8::valid_utf8(byte_lines(log).last())
}

/// The lines of a readable log, but for a last one that is not text.
pub open spec fn text_lines(log: Seq<u8>) -> Seq<Seq<char>> {
    Seq::new(
        (byte_lines(log).len() - (if cut(log) {
            1int
        } else {
            0int
        })) as nat,
        |i: int| vstd::utf8::decode_utf8(byte_lines(log)[i]),
    )
}

/// The lines of a log, each to be parsed, and whether a last line follows that
/// is not text.
#[derive(Debug)]
pub struct LogText {
    pub lines: Vec<String>,
    pub cut: bool,
}

/// The views of a list of byte strings.
spec fn pieces_of(v: Seq<Vec<u8>>) -> Seq<Seq<u8>> {
    Seq::new(v.len(), |i: int| v[i]@)
}

/// The pieces of a log between line feeds.
fn split_bytes(log: &[u8]) -> (res: Vec<Vec<u8>>)
    ensures
        pieces_of(res@) == text::split(log@, 10u8),
{
    let mut res: Vec<Vec<u8>> = Vec::new();
    let mut cur: Vec<u8> = Vec::new();
    let mut i: usize = 0;
    assert(pieces_of(res@).push(cur@) =~= text::split(log@.take(0), 10u8));
    while i < log.len()
        invariant
            i <= log@.len(),
            pieces_of(res@).push(cur@) == text::split(log@.take(i as int), 10u8),
        decreases log@.len() - i,
    {
        let b = log[i];
        let ghost before = pieces_of(res@).push(cur@);
        assert(log@.take(i + 1).drop_last() =~= log@.take(i as int));
        if b == 10u8 {
            res.push(cur);
            cur = Vec::new();
            assert(pieces_of(res@) =~= before);
        } else {
            cur.push(b);
            assert(before.drop_last() =~= pieces_of(res@));
        }
        i += 1;
    }
    assert(log@.take(i as int) =~= log@);
    let ghost all = pieces_of(res@).push(cur@);
    res.push(cur);
    assert(pieces_of(res@) =~= all);
    res
}

/// Executable form of [`byte_lines`].
fn split_lines(log: &[u8]) -> (res: Vec<Vec<u8>>)
    ensures
        pieces_of(res@) == byte_lines(log@),
{
    let mut res = split_bytes(log);
    let ghost all = text::split(log@, 10u8);
    proof {
        text::lemma_split_nonempty(log@, 10u8);
    }
    assert(all.len() == res@.len());
    let last = match res.pop() {
        Some(last) => last,
        None => Vec::new(),
    };
    assert(last@ == all.last());
    assert(pieces_of(res@) =~= all.drop_last());
    let ghost given = res@;
    let total: usize = res.len();
    let mut ended: Vec<Vec<u8>> = Vec::new();
    let mut i: usize = 0;
    for piece in iter: res.into_iter()
        invariant
            iter.seq() == given,
            total == given.len(),
            all.len() == given.len() + 1,
            pieces_of(given) == all.drop_last(),
            i == iter.index(),
            pieces_of(ended@) == Seq::new(i as nat, |k: int| text::without_last(all[k], 13u8)),
    {
        let ghost before = pieces_of(ended@);
        assert(i < total);
        assert(piece@ == pieces_of(given)[i as int]);
        assert(piece@ == all[i as int]);
        let mut line = piece;
        if line.len() > 0 && line[line.len() - 1] == 13u8 {
            line.pop();
            assert(line@ =~= piece@.drop_last());
        }
        assert(line@ == text::without_last(all[i as int], 13u8));
        ended.push(line);
        assert(pieces_of(ended@) =~= before.push(line@));
        i += 1;
        assert(pieces_of(ended@) =~= Seq::new(
            i as nat,
            |k: int| text::without_last(all[k], 13u8),
        ));
    }
    if last.len() > 0 {
        let ghost before = pieces_of(ended@);
        ended.push(last);
        assert(pieces_of(ended@) =~= before.push(last@));
    }
    ended
}

/// The lines of a log's bytes as texts; nothing if a line other than the last
/// one is not text. The last one may have been cut short inside a character,
/// and is then only reported.
pub fn read_log(log: &[u8]) -> (res: Option<LogText>)
    ensures
        match res {
            Some(t) => {
                &&& readable(log@)
                &&& text::texts(t.lines@) == text_lines(log@)
                &&& t.cut == cut(log@)
            },
            None => !readable(log@),
        },
        res is Some <==> forall|i: int|
            0 <= i < byte_lines(log@).len() - 1 ==> vstd::utf8::valid_utf8(
                #[trigger] byte_lines(log@)[i],
            ),
        res matches Some(t) ==> {
            &&& t.cut <==> byte_lines(log@).len() > 0 && !vstd::utf8::valid_utf8(
                byte_lines(log@).last(),
            )
            &&& t.lines@.len() == byte_lines(log@).len() - (if t.cut {
                1int
            } else {
                0int
            })
            &&& forall|i: int|
                0 <= i < t.lines@.len() ==> vstd::utf8::encode_utf8((#[trigger] t.lines@[i])@)
                    == byte_lines(log@)[i]
        },
{
    let pieces = split_lines(log);
    let ghost all = byte_lines(log@);
    let ghost given = pieces@;
    let total: usize = pieces.len();
    assert(all.len() == total);
    let mut lines: Vec<String> = Vec::new();
    let mut cut = false;
    let mut i: usize = 0;
    for piece in iter: pieces.into_iter()
        invariant
            iter.seq() == given,
            total == given.len(),
            all == byte_lines(log@),
            pieces_of(given) == all,
            all.len() == total,
            i == iter.index(),
            cut == (i == total && self::cut(log@)),
            text::texts(lines@) == Seq::new(
                (if cut {
                    i - 1
                } else {
                    i as int
                }) as nat,
                |k: int| vstd::utf8::decode_utf8(all[k]),
            ),
            forall|k: int|
                0 <= k < i && k < total - 1 ==> vstd::utf8::valid_utf8(#[trigger] all[k]),
    {
        assert(i < total);
        assert(piece@ == pieces_of(given)[i as int]);
        let ghost before = text::texts(lines@);
        match decoded_text(piece) {
            Some(line) => {
                lines.push(line);
                assert(text::texts(lines@) =~= before.push(line@));
            },
            None => {
                if i + 1 == total {
                    cut = true;
                } else {
                    assert(!vstd::utf8::valid_utf8(byte_lines(log@)[i as int]));
                    return None;
                }
            },
        }
        i += 1;
        assert(text::texts(lines@) =~= Seq::new(
            (if cut {
                i - 1
            } else {
                i as int
            }) as nat,
            |k: int| vstd::utf8::decode_utf8(all[k]),
        ));
    }
    assert(text::texts(lines@) =~= text_lines(log@));
    proof {
        assert(readable(log@));
        law_lines_are_read_as_text(log@);
        assert forall|k: int| 0 <= k < lines@.len() implies vstd::utf8::encode_utf8(
            (#[trigger] lines@[k])@,
        ) == all[k] by {
            assert(text_lines(log@)[k] == lines@[k]@);
        }
    }
    Some(LogText { lines, cut })
}

/// What stands for a line that is not text: the replacement character, and why
/// it holds no event.
pub open spec fn unreadable_line() -> event::LineView {
    event::LineView { text: "\u{fffd}"@, parsed: Err("stream did not contain valid UTF-8"@) }
}

/// What a parser made of a line.
pub open spec fn parsed_view(parsed: Result<Event, String>) -> Result<Event, Seq<char>> {
    match parsed {
        Ok(ev) => Ok(ev),
        Err(detail) => Err(detail@),
    }
}

/// Lines with what a parser made of each, and a last one that is not text if
/// the log was cut inside a character.
pub open spec fn assembled(
    lines: Seq<Seq<char>>,
    parsed: Seq<Result<Event, Seq<char>>>,
    cut: bool,
) -> Seq<event::LineView> {
    Seq::new(lines.len(), |i: int| event::LineView { text: lines[i], parsed: parsed[i] }) + (
    if cut {
        seq![unreadable_line()]
    } else {
        Seq::<event::LineView>::empty()
    })
}

impl LogText {
    /// The lines to replay, given what the parser made of each text.
    pub fn parsed(self, parsed: Vec<Result<Event, String>>) -> (res: Vec<LogLine>)
        requires
            parsed@.len() == self.lines@.len(),
        ensures
            event::line_views(res@) == assembled(
                text::texts(self.lines@),
                Seq::new(parsed@.len(), |i: int| parsed_view(parsed@[i])),
                self.cut,
            ),
            res@.len() == self.lines@.len() + (if self.cut {
                1int
            } else {
                0int
            }),
            forall|i: int|
                0 <= i < self.lines@.len() ==> (#[trigger] res@[i]).text@ == self.lines@[i]@ && (
                match (res@[i].parsed, parsed@[i]) {
                    (Ok(ev), Ok(given)) => ev == given,
                    (Err(detail), Err(given)) => detail@ == given@,
                    _ => false,
                }),
            self.cut ==> {
                let last = res@[self.lines@.len() as int];
                &&& last.text@ == "\u{fffd}"@
                &&& last.parsed matches Err(detail) && detail@
                    == "stream did not contain valid UTF-8"@
            },
    {
        let ghost texts = text::texts(self.lines@);
        let ghost views = Seq::new(parsed@.len(), |i: int| parsed_view(parsed@[i]));
        let ghost given = parsed@;
        let lines = self.lines;
        let mut res: Vec<LogLine> = Vec::new();
        let mut i: usize = 0;
        for outcome in iter: parsed.into_iter()
            invariant
                iter.seq() == given,
                given.len() == lines@.len(),
                texts == text::texts(lines@),
                views == Seq::new(given.len(), |i: int| parsed_view(given[i])),
                i == iter.index(),
                event::line_views(res@) == Seq::new(
                    i as nat,
                    |k: int| event::LineView { text: texts[k], parsed: views[k] },
                ),
        {
            let ghost before = event::line_views(res@);
            assert(outcome == given[i as int]);
            assert(i < lines.len());
            let line = LogLine { text: lines[i].clone(), parsed: outcome };
            assert(line@ == (event::LineView { text: texts[i as int], parsed: views[i as int] }));
            res.push(line);
            assert(event::line_views(res@) =~= before.push(line@));
            i += 1;
            assert(event::line_views(res@) =~= Seq::new(
                i as nat,
                |k: int| event::LineView { text: texts[k], parsed: views[k] },
            ));
        }
        if self.cut {
            let ghost before = event::line_views(res@);
            let line = LogLine {
                text: "\u{fffd}".to_owned(),
                parsed: Err("stream did not contain valid UTF-8".to_owned()),
            };
            assert(line@ == unreadable_line());
            res.push(line);
            assert(event::line_views(res@) =~= before.push(line@));
        }
        assert(event::line_views(res@) =~= assembled(texts, views, self.cut));
        assert forall|i: int| 0 <= i < texts.len() implies (#[trigger] res@[i]).text@
            == self.lines@[i]@ && (match (res@[i].parsed, given[i]) {
            (Ok(ev), Ok(first)) => ev == first,
            (Err(detail), Err(first)) => detail@ == first@,
            _ => false,
        }) by {
            assert(event::line_views(res@)[i] == res@[i]@);
            assert(views[i] == parsed_view(given[i]));
        }
        assert(event::line_views(res@).len() == res@.len());
        if self.cut {
            assert(event::line_views(res@)[texts.len() as int] == res@[texts.len() as int]@);
        }
        res
    }
}

// ---- mending ------------------------------------------------------------
/// What follows the last line feed of a log.
pub open spec fn tail_of(log: Seq<u8>) -> Seq<u8> {
    text::split(log, 10u8).last()
}

/// White space between JSON texts: a space, a tab or a carriage return.
pub open spec fn space_byte(b: u8) -> bool {
    b == 32 || b == 9 || b == 13
}

/// The last line has no end and holds more than white space: the next append
/// would run into what stands there.
pub open spec fn unended_text(log: Seq<u8>) -> bool {
    exists|k: int| 0 <= k < tail_of(log).len() && !space_byte(#[trigger] tail_of(log)[k])
}

/// What a log needs before it can be appended to.
#[derive(Debug, PartialEq, Eq)]
pub enum Mend {
    /// The line end that the last line lost.
    LineEnd,
    /// A text in place of the whole log.
    Whole(String),
}

/// The log as it stands once it has been opened, given the JSON of each of its
/// events: written anew if its tail was torn, with a line end added if its last
/// line lost it, and otherwise as it was.
pub open spec fn opened(log: Seq<u8>, torn: bool, jsons: Seq<Seq<char>>) -> Seq<u8> {
    if torn {
        vstd::utf8::encode_utf8(event::framed(jsons))
    } else if unended_text(log) {
        log.push(10u8)
    } else {
        log
    }
}

/// What a mend makes of a log.
pub open spec fn mended(log: Seq<u8>, mend: Option<Mend>) -> Seq<u8> {
    match mend {
        None => log,
        Some(Mend::LineEnd) => log.push(10u8),
        Some(Mend::Whole(t)) => vstd::utf8::encode_utf8(t@),
    }
}

/// Executable form of [`unended_text`].
fn ends_in_text(log: &[u8]) -> (res: bool)
    ensures
        res == unended_text(log@),
{
    let mut res = false;
    let mut i: usize = 0;
    assert(tail_of(log@.take(0)) =~= Seq::<u8>::empty());
    while i < log.len()
        invariant
            i <= log@.len(),
            res == unended_text(log@.take(i as int)),
        decreases log@.len() - i,
    {
        let b = log[i];
        let ghost before = tail_of(log@.take(i as int));
        let ghost after = tail_of(log@.take(i + 1));
        assert(log@.take(i + 1).drop_last() =~= log@.take(i as int));
        proof {
            text::lemma_split_nonempty(log@.take(i as int), 10u8);
        }
        if b == 10u8 {
            res = false;
            assert(after =~= Seq::<u8>::empty());
        } else {
            assert(after =~= before.push(b));
            assert(forall|k: int| 0 <= k < before.len() ==> #[trigger] after[k] == before[k]);
            assert(after[before.len() as int] == b);
            if res {
                proof {
                    let k = choose|k: int| 0 <= k < before.len() && !space_byte(
                        #[trigger] before[k],
                    );
                    assert(!space_byte(after[k]));
                }
            } else if !(b == 32u8 || b == 9u8 || b == 13u8) {
                res = true;
            } else {
                assert forall|k: int| 0 <= k < after.len() implies space_byte(
                    #[trigger] after[k],
                ) by {
                    if k < before.len() {
                        assert(space_byte(before[k]));
                    }
                }
            }
        }
        i += 1;
    }
    assert(log@.take(i as int) =~= log@);
    res
}

impl Replay {
    /// What the log that was replayed needs before the next append, given the
    /// JSON of each of its events. A partial tail is rewritten away, so that the
    /// next append does not land after half a record; a last line that lost
    /// only its end gets it back. Any other log stays as it is, byte for byte.
    pub fn rewrite(&self, log: &[u8], jsons: &Vec<String>) -> (res: Option<Mend>)
        requires
            self.dropped_partial_tail ==> jsons@.len() == self.events@.len(),
        ensures
            res is Some <==> self.dropped_partial_tail || unended_text(log@),
            mended(log@, res) == opened(
                log@,
                self.dropped_partial_tail,
                text::texts(jsons@),
            ),
            self.dropped_partial_tail ==> (res matches Some(Mend::Whole(t)) && t@ == event::framed(
                text::texts(jsons@),
            )),
            !self.dropped_partial_tail && res is Some ==> res == Some(Mend::LineEnd),
    {
        if self.dropped_partial_tail {
            Some(Mend::Whole(event::frame_all(jsons)))
        } else if ends_in_text(log) {
            Some(Mend::LineEnd)
        } else {
            None
        }
    }
}

// ---- text and bytes -----------------------------------------------------
proof fn lemma_encode_concat(a: Seq<char>, b: Seq<char>)
    ensures
        vstd::utf8::encode_utf8(a + b) == vstd::utf8::encode_utf8(a) + vstd::utf8::encode_utf8(b),
    decreases a.len(),
{
    if a.len() == 0 {
        assert(a + b =~= b);
        assert(vstd::utf8::encode_utf8(a) + vstd::utf8::encode_utf8(b)
            =~= vstd::utf8::encode_utf8(b));
    } else {
        lemma_encode_concat(a.drop_first(), b);
        assert((a + b).drop_first() =~= a.drop_first() + b);
        assert(vstd::utf8::encode_utf8(a + b) =~= vstd::utf8::encode_utf8(a)
            + vstd::utf8::encode_utf8(b));
    }
}

proof fn lemma_encode_push(s: Seq<char>, c: char)
    ensures
        vstd::utf8::encode_utf8(s.push(c)) == vstd::utf8::encode_utf8(s)
            + vstd::utf8::encode_scalar(c as u32),
{
    let one = seq![c];
    lemma_encode_concat(s, one);
    reveal_with_fuel(vstd::utf8::encode_utf8, 2);
    assert(one.drop_first() =~= Seq::<char>::empty());
    assert(vstd::utf8::encode_utf8(one) =~= vstd::utf8::encode_scalar(c as u32));
    assert(s + one =~= s.push(c));
}

/// The bytes of one character: a line feed and a carriage return are
/// themselves, and stand in no other character.
proof fn lemma_scalar_bytes(c: char)
    ensures
        ({
            let e = vstd::utf8::encode_scalar(c as u32);
            &&& e.len() > 0
            &&& c == '\n' ==> e == seq![10u8]
            &&& c != '\n' ==> !e.contains(10u8)
            &&& e.last() == 13u8 <==> c == '\r'
            &&& c == '\r' ==> e == seq![13u8]
        }),
{
    let u = c as u32;
    let e = vstd::utf8::encode_scalar(u);
    if vstd::utf8::has_width_1_encoding(u) {
        assert(u <= 0x7f ==> (u & 0x7f) as u8 == u as u8 && (u as u8) as u32 == u) by (bit_vector);
        assert(e[0] as u32 == u);
        assert(e =~= seq![u as u8]);
    } else {
        assert(0x80u8 | ((u & 0x3f) as u8) >= 0x80u8) by (bit_vector);
        assert(0x80u8 | (((u >> 6) & 0x3f) as u8) >= 0x80u8) by (bit_vector);
        assert(0x80u8 | (((u >> 12) & 0x3f) as u8) >= 0x80u8) by (bit_vector);
        assert(0xC0u8 | (((u >> 6) & 0x1f) as u8) >= 0x80u8) by (bit_vector);
        assert(0xE0u8 | (((u >> 12) & 0x0f) as u8) >= 0x80u8) by (bit_vector);
        assert(0xF0u8 | (((u >> 18) & 0x07) as u8) >= 0x80u8) by (bit_vector);
        assert(forall|i: int| 0 <= i < e.len() ==> #[trigger] e[i] >= 0x80u8);
    }
}

/// Each text of a list as bytes.
spec fn encoded(texts: Seq<Seq<char>>) -> Seq<Seq<u8>> {
    Seq::new(texts.len(), |i: int| vstd::utf8::encode_utf8(texts[i]))
}

/// The bytes of a text split as the text does.
proof fn lemma_encoded_pieces(t: Seq<char>)
    ensures
        text::split(vstd::utf8::encode_utf8(t), 10u8) == encoded(text::split(t, '\n')),
    decreases t.len(),
{
    if t.len() == 0 {
        assert(vstd::utf8::encode_utf8(t) =~= Seq::<u8>::empty());
        assert(encoded(text::split(t, '\n')) =~= seq![Seq::<u8>::empty()]);
    } else {
        let init = t.drop_last();
        let c = t.last();
        let e = vstd::utf8::encode_scalar(c as u32);
        let x = vstd::utf8::encode_utf8(init);
        let before = text::split(init, '\n');
        lemma_encoded_pieces(init);
        text::lemma_split_nonempty(init, '\n');
        lemma_encode_push(init, c);
        assert(init.push(c) =~= t);
        lemma_scalar_bytes(c);
        if c == '\n' {
            assert(x + e =~= x.push(10u8));
            assert(x.push(10u8).drop_last() =~= x);
            assert(vstd::utf8::encode_utf8(Seq::<char>::empty()) =~= Seq::<u8>::empty());
            assert(encoded(before.push(Seq::<char>::empty())) =~= encoded(before).push(
                Seq::<u8>::empty(),
            ));
        } else {
            text::lemma_split_extend(x, e, 10u8);
            lemma_encode_push(before.last(), c);
            let longer = before.last().push(c);
            assert(encoded(before).last() == vstd::utf8::encode_utf8(before.last()));
            assert(encoded(before.drop_last().push(longer)) =~= encoded(before).drop_last().push(
                vstd::utf8::encode_utf8(longer),
            ));
        }
    }
}

proof fn lemma_encoded_end(s: Seq<char>)
    ensures
        vstd::utf8::encode_utf8(s).len() == 0 <==> s.len() == 0,
        vstd::utf8::encode_utf8(text::without_last(s, '\r')) == text::without_last(
            vstd::utf8::encode_utf8(s),
            13u8,
        ),
{
    if s.len() > 0 {
        let init = s.drop_last();
        let e = vstd::utf8::encode_scalar(s.last() as u32);
        let x = vstd::utf8::encode_utf8(init);
        lemma_encode_push(init, s.last());
        assert(init.push(s.last()) =~= s);
        lemma_scalar_bytes(s.last());
        assert((x + e).last() == e.last());
        if s.last() == '\r' {
            assert((x + e).drop_last() =~= x);
        }
    }
}

/// The lines of a text's bytes are the bytes of its lines.
proof fn lemma_encoded_lines(t: Seq<char>)
    ensures
        byte_lines(vstd::utf8::encode_utf8(t)) == encoded(event::lines_of(t)),
{
    let pieces = text::split(t, '\n');
    let bytes = encoded(pieces);
    lemma_encoded_pieces(t);
    text::lemma_split_nonempty(t, '\n');
    assert forall|i: int| 0 <= i < pieces.len() implies {
        &&& vstd::utf8::encode_utf8(text::without_last(pieces[i], '\r')) == text::without_last(
            #[trigger] bytes[i],
            13u8,
        )
        &&& bytes[i].len() == 0 <==> pieces[i].len() == 0
    } by {
        lemma_encoded_end(pieces[i]);
    }
    assert(bytes.last() == bytes[pieces.len() - 1]);
    assert(byte_lines(vstd::utf8::encode_utf8(t)) =~= encoded(event::lines_of(t)));
}

// ---- what comes back ----------------------------------------------------
/// A line of bytes as a parser of texts leaves it.
pub open spec fn read_line(
    line: Seq<u8>,
    parse: spec_fn(Seq<char>) -> Result<Event, Seq<char>>,
) -> event::LineView {
    if vstd::utf8::valid_utf8(line) {
        let t = vstd::utf8::decode_utf8(line);
        event::LineView { text: t, parsed: parse(t) }
    } else {
        unreadable_line()
    }
}

/// The lines of a log as a parser of texts leaves them.
pub open spec fn read(
    log: Seq<u8>,
    parse: spec_fn(Seq<char>) -> Result<Event, Seq<char>>,
) -> Seq<event::LineView> {
    Seq::new(byte_lines(log).len(), |i: int| read_line(byte_lines(log)[i], parse))
}

/// What replaying a log's bytes gives.
pub open spec fn recovered(
    log: Seq<u8>,
    parse: spec_fn(Seq<char>) -> Result<Event, Seq<char>>,
) -> Result<(Seq<Event>, bool), event::Fault> {
    event::replayed(read(log, parse))
}

/// The JSON of each event.
pub open spec fn jsons(events: Seq<Event>, write: spec_fn(Event) -> Seq<char>) -> Seq<Seq<char>> {
    Seq::new(events.len(), |i: int| write(events[i]))
}

/// An event is written on one line that is not blank and parses back to it.
pub open spec fn faithful(
    ev: Event,
    parse: spec_fn(Seq<char>) -> Result<Event, Seq<char>>,
    write: spec_fn(Event) -> Seq<char>,
) -> bool {
    &&& event::single_line(write(ev))
    &&& !event::blank(write(ev))
    &&& parse(write(ev)) == Ok::<Event, Seq<char>>(ev)
}

/// The bytes that appending events adds to a log.
pub open spec fn appended(events: Seq<Event>, write: spec_fn(Event) -> Seq<char>) -> Seq<u8> {
    vstd::utf8::encode_utf8(event::framed(jsons(events, write)))
}

/// The law of reading: the lines that [`LogText::parsed`] assembles for a
/// readable log are the lines of the log as the parser leaves them.
pub proof fn law_assembled_lines_are_the_log(
    log: Seq<u8>,
    parse: spec_fn(Seq<char>) -> Result<Event, Seq<char>>,
)
    requires
        readable(log),
    ensures
        assembled(
            text_lines(log),
            Seq::new(text_lines(log).len(), |i: int| parse(text_lines(log)[i])),
            cut(log),
        ) == read(log, parse),
{
    let all = byte_lines(log);
    let lines = text_lines(log);
    let made = assembled(lines, Seq::new(lines.len(), |i: int| parse(lines[i])), cut(log));
    let wanted = read(log, parse);
    assert forall|i: int| 0 <= i < wanted.len() implies made[i] == wanted[i] by {
        if i < lines.len() {
            assert(vstd::utf8::valid_utf8(all[i])) by {
                if i == all.len() - 1 {
                    assert(all[i] == all.last());
                }
            }
        } else {
            assert(all[i] == all.last());
        }
    }
    assert(made =~= wanted);
}

/// The law of texts: each line of a readable log is the UTF-8 form of the text
/// that is read for it, and only a last line that is not text has none.
pub proof fn law_lines_are_read_as_text(log: Seq<u8>)
    requires
        readable(log),
    ensures
        forall|i: int|
            0 <= i < text_lines(log).len() ==> vstd::utf8::encode_utf8(
                #[trigger] text_lines(log)[i],
            ) == byte_lines(log)[i],
        byte_lines(log).len() == 0 || vstd::utf8::valid_utf8(byte_lines(log).last())
            ==> text_lines(log).len() == byte_lines(log).len(),
        byte_lines(log).len() > 0 && !vstd::utf8::valid_utf8(byte_lines(log).last())
            ==> text_lines(log).len() == byte_lines(log).len() - 1 && cut(log),
        cut(log) ==> text_lines(log).len() < byte_lines(log).len(),
{
    let all = byte_lines(log);
    assert forall|i: int| 0 <= i < text_lines(log).len() implies vstd::utf8::encode_utf8(
        #[trigger] text_lines(log)[i],
    ) == all[i] by {
        if i == all.len() - 1 {
            assert(all[i] == all.last());
        }
        assert(vstd::utf8::valid_utf8(all[i]));
        vstd::utf8::decode_utf8_encode_utf8(all[i]);
    }
}

/// The law of lines of bytes: a line ends at a line feed, with the carriage
/// return before that if there is one, and what follows the last line feed is a
/// line unless it is empty.
pub proof fn law_lines_of_bytes(a: Seq<u8>, b: Seq<u8>)
    requires
        !a.contains(10u8),
    ensures
        byte_lines(a + seq![10u8] + b) == seq![
            if a.len() > 0 && a.last() == 13u8 {
                a.drop_last()
            } else {
                a
            },
        ] + byte_lines(b),
        a.len() > 0 ==> byte_lines(a) == seq![a],
        byte_lines(Seq::empty()) == Seq::<Seq<u8>>::empty(),
{
    text::law_lines_end_at_line_ends(a, b, 10u8, 13u8);
    text::law_lines_end_at_line_ends(Seq::<u8>::empty(), b, 10u8, 13u8);
    assert(a + seq![10u8] + b =~= a.push(10u8) + b);
}

/// The law of appending bytes: one more event adds the UTF-8 form of its JSON
/// and a line feed to what was appended before.
pub proof fn law_appending_adds_one_line(
    events: Seq<Event>,
    ev: Event,
    write: spec_fn(Event) -> Seq<char>,
)
    ensures
        appended(Seq::empty(), write) == Seq::<u8>::empty(),
        appended(events.push(ev), write) == appended(events, write) + vstd::utf8::encode_utf8(
            write(ev),
        ) + seq![10u8],
{
    let none = Seq::<Event>::empty();
    assert(jsons(none, write) =~= Seq::<Seq<char>>::empty());
    assert(appended(none, write) =~= Seq::<u8>::empty());
    assert(jsons(events.push(ev), write) =~= jsons(events, write).push(write(ev)));
    event::law_frame_appends(jsons(events, write), write(ev));
    let before = event::framed(jsons(events, write));
    lemma_encode_concat(before, write(ev).push('\n'));
    lemma_encode_push(write(ev), '\n');
    lemma_scalar_bytes('\n');
    assert(appended(events.push(ev), write) =~= appended(events, write) + vstd::utf8::encode_utf8(
        write(ev),
    ) + seq![10u8]);
}

/// The law of mending: a log whose tail was torn is written anew as the lines
/// of its events; otherwise a log whose last line, without an end, holds more
/// than spaces, tabs and carriage returns gets a line feed, and any other is
/// left as it is.
pub proof fn law_mending_goes_by_the_last_line(
    front: Seq<u8>,
    tail: Seq<u8>,
    jsons: Seq<Seq<char>>,
)
    requires
        front.len() == 0 || front.last() == 10u8,
        !tail.contains(10u8),
    ensures
        opened(front + tail, true, jsons) == vstd::utf8::encode_utf8(event::framed(jsons)),
        opened(front + tail, false, jsons) == (if exists|i: int|
            0 <= i < tail.len() && #[trigger] tail[i] != ' ' as u8 && tail[i] != '\t' as u8
                && tail[i] != '\r' as u8 {
            front + tail + seq![10u8]
        } else {
            front + tail
        }),
{
    let log = front + tail;
    assert(tail_of(log) == tail) by {
        text::lemma_split_whole(tail, 10u8);
        if front.len() > 0 {
            text::lemma_split_concat(front.drop_last(), tail, 10u8);
            assert(front.drop_last().push(10u8) =~= front);
        } else {
            assert(log =~= tail);
        }
    }
    assert(log.push(10u8) =~= log + seq![10u8]);
    if unended_text(log) {
        let k = choose|k: int| 0 <= k < tail_of(log).len() && !space_byte(
            #[trigger] tail_of(log)[k],
        );
        assert(!space_byte(tail[k]));
    } else {
        assert forall|i: int| 0 <= i < tail.len() implies #[trigger] tail[i] == ' ' as u8
            || tail[i] == '\t' as u8 || tail[i] == '\r' as u8 by {
            assert(space_byte(tail_of(log)[i]));
        }
    }
}

/// A log that is empty or ends at the end of a line.
spec fn ended(log: Seq<u8>) -> bool {
    log.len() == 0 || log.last() == 10u8
}

/// Framed texts that parse to events are lines that hold those events.
proof fn lemma_framed_lines(
    texts: Seq<Seq<char>>,
    events: Seq<Event>,
    parse: spec_fn(Seq<char>) -> Result<Event, Seq<char>>,
)
    requires
        texts.len() == events.len(),
        forall|i: int|
            0 <= i < texts.len() ==> {
                &&& event::single_line(#[trigger] texts[i])
                &&& !event::blank(texts[i])
                &&& parse(texts[i]) == Ok::<Event, Seq<char>>(events[i])
            },
    ensures
        event::hold(read(vstd::utf8::encode_utf8(event::framed(texts)), parse), events),
        ended(vstd::utf8::encode_utf8(event::framed(texts))),
{
    let t = event::framed(texts);
    let log = vstd::utf8::encode_utf8(t);
    let none = Seq::<char>::empty();
    event::law_framed_lines_come_back(texts, none);
    assert(t + none =~= t);
    lemma_encoded_lines(t);
    let lines = read(log, parse);
    assert forall|i: int| 0 <= i < lines.len() implies event::event_of(#[trigger] lines[i]) == Some(
        events[i],
    ) by {
        let b = byte_lines(log)[i];
        assert(b == vstd::utf8::encode_utf8(texts[i]));
        vstd::utf8::encode_utf8_valid_utf8(texts[i]);
        vstd::utf8::encode_utf8_decode_utf8(texts[i]);
    }
    if events.len() > 0 {
        let init = t.drop_last();
        assert(t.last() == '\n');
        lemma_encode_push(init, '\n');
        assert(init.push('\n') =~= t);
        lemma_scalar_bytes('\n');
    } else {
        assert(t =~= none);
    }
}

/// The texts of faithful events are fit to be framed.
proof fn lemma_faithful_texts(
    events: Seq<Event>,
    parse: spec_fn(Seq<char>) -> Result<Event, Seq<char>>,
    write: spec_fn(Event) -> Seq<char>,
)
    requires
        forall|i: int| 0 <= i < events.len() ==> faithful(#[trigger] events[i], parse, write),
    ensures
        forall|i: int|
            0 <= i < events.len() ==> {
                &&& event::single_line(#[trigger] jsons(events, write)[i])
                &&& !event::blank(jsons(events, write)[i])
                &&& parse(jsons(events, write)[i]) == Ok::<Event, Seq<char>>(events[i])
            },
{
    assert forall|i: int| 0 <= i < events.len() implies {
        &&& event::single_line(#[trigger] jsons(events, write)[i])
        &&& !event::blank(jsons(events, write)[i])
        &&& parse(jsons(events, write)[i]) == Ok::<Event, Seq<char>>(events[i])
    } by {
        assert(faithful(events[i], parse, write));
    }
}

/// Lines that hold events with the next numbers, after lines that replay
/// whole, replay to the events of both.
proof fn lemma_more_lines(
    lines: Seq<event::LineView>,
    more: Seq<event::LineView>,
    events: Seq<Event>,
    new: Seq<Event>,
)
    requires
        event::replayed(lines) == Ok::<(Seq<Event>, bool), event::Fault>((events, false)),
        event::hold(more, new),
        forall|i: int|
            0 <= i < new.len() ==> (#[trigger] new[i]).seq == events.len() + i + 1,
    ensures
        event::replayed(lines + more) == Ok::<(Seq<Event>, bool), event::Fault>(
            (events + new, false),
        ),
    decreases new.len(),
{
    if new.len() == 0 {
        assert(lines + more =~= lines);
        assert(events + new =~= events);
    } else {
        let m = more.drop_last();
        let n = new.drop_last();
        assert forall|i: int| 0 <= i < m.len() implies event::event_of(#[trigger] m[i]) == Some(
            n[i],
        ) by {
            assert(m[i] == more[i]);
        }
        assert forall|i: int| 0 <= i < n.len() implies (#[trigger] n[i]).seq == events.len() + i
            + 1 by {
            assert(n[i] == new[i]);
        }
        lemma_more_lines(lines, m, events, n);
        assert(event::event_of(more[more.len() - 1]) == Some(new.last()));
        assert(new[new.len() - 1].seq == events.len() + new.len());
        event::law_appended_event_replays(lines + m, more.last(), new.last());
        assert((lines + m).push(more.last()) =~= lines + more);
        assert((events + n).push(new.last()) =~= events + new);
    }
}

proof fn lemma_read_concat(
    a: Seq<u8>,
    b: Seq<u8>,
    parse: spec_fn(Seq<char>) -> Result<Event, Seq<char>>,
)
    requires
        ended(a),
    ensures
        read(a + b, parse) == read(a, parse) + read(b, parse),
{
    text::lemma_lines_concat(a, b, 10u8, 13u8);
    assert(read(a + b, parse) =~= read(a, parse) + read(b, parse));
}

/// One line without an end is read as itself.
proof fn lemma_read_one(line: Seq<u8>, parse: spec_fn(Seq<char>) -> Result<Event, Seq<char>>)
    requires
        line.len() > 0,
        !line.contains(10u8),
    ensures
        read(line, parse) == seq![read_line(line, parse)],
{
    text::lemma_lines_whole(line, 10u8, 13u8);
    assert(read(line, parse) =~= seq![read_line(line, parse)]);
}

/// One line with its end is read without a carriage return before it.
proof fn lemma_read_ended(line: Seq<u8>, parse: spec_fn(Seq<char>) -> Result<Event, Seq<char>>)
    requires
        !line.contains(10u8),
    ensures
        read(line.push(10u8), parse) == seq![
            read_line(text::without_last(line, 13u8), parse),
        ],
{
    let none = Seq::<u8>::empty();
    text::lemma_split_concat(line, none, 10u8);
    text::lemma_split_whole(line, 10u8);
    text::lemma_split_whole(none, 10u8);
    assert(line.push(10u8) + none =~= line.push(10u8));
    assert(text::split(line.push(10u8), 10u8) =~= seq![line, none]);
    assert(byte_lines(line.push(10u8)) =~= seq![text::without_last(line, 13u8)]);
    assert(read(line.push(10u8), parse) =~= seq![
        read_line(text::without_last(line, 13u8), parse),
    ]);
}

/// The part of a log before its tail.
spec fn front_of(log: Seq<u8>) -> Seq<u8> {
    log.take(log.len() - tail_of(log).len())
}

/// A log is an ended part and a tail without a line feed.
proof fn lemma_parts(log: Seq<u8>)
    ensures
        tail_of(log).len() <= log.len(),
        log == front_of(log) + tail_of(log),
        ended(front_of(log)),
        !tail_of(log).contains(10u8),
    decreases log.len(),
{
    if log.len() > 0 {
        let init = log.drop_last();
        let b = log.last();
        lemma_parts(init);
        text::lemma_split_nonempty(init, 10u8);
        if b == 10u8 {
            assert(front_of(log) =~= log);
            assert(log =~= front_of(log) + tail_of(log));
        } else {
            let before = tail_of(init);
            let after = tail_of(log);
            assert(after == before.push(b));
            assert(front_of(log) =~= front_of(init));
            assert(log =~= (front_of(init) + before).push(b));
            assert((front_of(init) + before).push(b) =~= front_of(init) + after);
            if after.contains(10u8) {
                let k = choose|k: int| 0 <= k < after.len() && after[k] == 10u8;
                assert(before[k] == 10u8);
            }
        }
    } else {
        assert(log =~= front_of(log) + tail_of(log));
    }
}

/// Bytes of white space as characters.
spec fn space_chars(w: Seq<u8>) -> Seq<char> {
    Seq::new(w.len(), |i: int| w[i] as char)
}

/// White space before a JSON text.
pub open spec fn space_text(s: Seq<char>) -> bool {
    forall|i: int|
        0 <= i < s.len() ==> {
            let c = #[trigger] s[i];
            c == ' ' || c == '\t' || c == '\r'
        }
}

/// What a parser makes of a text stays the same with white space around it: the
/// same event, or an error where it was one.
pub open spec fn skips(
    parse: spec_fn(Seq<char>) -> Result<Event, Seq<char>>,
    before: Seq<char>,
    t: Seq<char>,
    after: Seq<char>,
) -> bool {
    space_text(before) && space_text(after) ==> match parse(t) {
        Ok(ev) => parse(before + t + after) == Ok::<Event, Seq<char>>(ev),
        Err(_) => parse(before + t + after) is Err,
    }
}

/// A parser that skips white space around every text, as JSON asks.
pub open spec fn skips_space(parse: spec_fn(Seq<char>) -> Result<Event, Seq<char>>) -> bool {
    forall|before: Seq<char>, t: Seq<char>, after: Seq<char>| #[trigger]
        skips(parse, before, t, after)
}

/// Only white space, as bytes.
spec fn all_space(w: Seq<u8>) -> bool {
    forall|k: int| 0 <= k < w.len() ==> space_byte(#[trigger] w[k])
}

/// White space before bytes decodes to itself.
proof fn lemma_decode_after_space(w: Seq<u8>, b: Seq<u8>)
    requires
        all_space(w),
    ensures
        vstd::utf8::valid_utf8(w + b) <==> vstd::utf8::valid_utf8(b),
        vstd::utf8::valid_utf8(b) ==> vstd::utf8::decode_utf8(w + b) == space_chars(w)
            + vstd::utf8::decode_utf8(b),
        space_text(space_chars(w)),
        event::blank(space_chars(w)),
    decreases w.len(),
{
    if w.len() == 0 {
        assert(w + b =~= b);
        assert(space_chars(w) + vstd::utf8::decode_utf8(b) =~= vstd::utf8::decode_utf8(b));
    } else {
        let rest = w.drop_first();
        let x = w[0];
        let all = w + b;
        assert(space_byte(x));
        assert forall|k: int| 0 <= k < rest.len() implies space_byte(#[trigger] rest[k]) by {
            assert(rest[k] == w[k + 1]);
        }
        lemma_decode_after_space(rest, b);
        assert(x <= 0x7f ==> (x & 0x7f) as u32 == x as u32) by (bit_vector);
        assert(vstd::utf8::decode_first_scalar(all) == x as u32);
        assert(vstd::utf8::pop_first_scalar(all) =~= rest + b);
        assert(vstd::utf8::valid_first_scalar(all));
        assert(space_chars(w) =~= seq![x as char] + space_chars(rest));
        if vstd::utf8::valid_utf8(b) {
            assert(vstd::utf8::decode_utf8(all) =~= space_chars(w) + vstd::utf8::decode_utf8(b));
        }
        assert forall|k: int| 0 <= k < w.len() implies {
            let c = #[trigger] space_chars(w)[k];
            c == ' ' || c == '\t' || c == '\r'
        } by {
            assert(space_byte(w[k]));
        }
        assert forall|k: int| 0 <= k < w.len() implies text::is_space(
            #[trigger] space_chars(w)[k],
        ) by {
            assert(space_byte(w[k]));
        }
    }
}

/// A carriage return after bytes decodes to itself.
proof fn lemma_decode_before_return(b: Seq<u8>)
    requires
        vstd::utf8::valid_utf8(b.push(13u8)),
    ensures
        vstd::utf8::valid_utf8(b),
        vstd::utf8::decode_utf8(b.push(13u8)) == vstd::utf8::decode_utf8(b).push('\r'),
{
    let w = b.push(13u8);
    let t = vstd::utf8::decode_utf8(w);
    vstd::utf8::decode_utf8_encode_utf8(w);
    lemma_encoded_end(t);
    let u = t.drop_last();
    lemma_encode_push(u, t.last());
    assert(u.push(t.last()) =~= t);
    lemma_scalar_bytes(t.last());
    let e = vstd::utf8::encode_scalar(t.last() as u32);
    assert((vstd::utf8::encode_utf8(u) + e).last() == e.last());
    assert(t.last() == '\r');
    assert(vstd::utf8::encode_utf8(u) =~= w.drop_last());
    assert(w.drop_last() =~= b);
    vstd::utf8::encode_utf8_valid_utf8(u);
    vstd::utf8::encode_utf8_decode_utf8(u);
}

/// A line that is not text is malformed.
proof fn lemma_unreadable()
    ensures
        event::malformed(unreadable_line()),
{
    reveal_strlit("\u{fffd}");
    assert(!text::is_space(unreadable_line().text[0]));
}

/// The end of its line changes nothing about a line that holds an event or
/// nothing.
proof fn lemma_ended_line(w: Seq<u8>, parse: spec_fn(Seq<char>) -> Result<Event, Seq<char>>)
    requires
        skips_space(parse),
        !event::malformed(read_line(w, parse)),
    ensures
        ({
            let x = read_line(w, parse);
            let y = read_line(text::without_last(w, 13u8), parse);
            event::event_of(x) == event::event_of(y) && !event::malformed(y)
        }),
{
    lemma_unreadable();
    if w.len() > 0 && w.last() == 13u8 {
        let b = w.drop_last();
        assert(b.push(13u8) =~= w);
        lemma_decode_before_return(b);
        let u = vstd::utf8::decode_utf8(b);
        let t = u.push('\r');
        let none = Seq::<char>::empty();
        let back = seq!['\r'];
        assert(skips(parse, none, u, back));
        assert(none + u + back =~= t);
        if event::blank(u) {
            assert forall|i: int| 0 <= i < t.len() implies text::is_space(#[trigger] t[i]) by {
                if i < u.len() {
                    assert(text::is_space(u[i]));
                }
            }
        } else {
            let i = choose|i: int| 0 <= i < u.len() && !text::is_space(#[trigger] u[i]);
            assert(!text::is_space(t[i]));
        }
    }
}

/// A last line that is whole may stand for another with the same event.
proof fn lemma_same_last(
    lines: Seq<event::LineView>,
    x: event::LineView,
    y: event::LineView,
)
    requires
        event::event_of(x) == event::event_of(y),
        !event::malformed(x),
        !event::malformed(y),
        event::replayed(lines.push(x)) is Ok,
    ensures
        event::replayed(lines.push(y)) == event::replayed(lines.push(x)),
{
    let a = lines.push(x);
    let b = lines.push(y);
    event::lemma_no_fault(a, 0);
    event::lemma_no_fault(b, 0);
    assert(a.drop_last() =~= lines);
    assert(b.drop_last() =~= lines);
    assert forall|i: int| 0 <= i < b.len() implies #[trigger] event::fault_at(b, i) is None by {
        assert(event::fault_at(a, i) is None);
        assert(a.take(i) =~= b.take(i));
        if i < lines.len() {
            assert(a[i] == b[i]);
        }
    }
}

/// A last line that holds nothing may go.
proof fn lemma_blank_last(lines: Seq<event::LineView>, x: event::LineView)
    requires
        event::event_of(x) is None,
        !event::malformed(x),
        event::replayed(lines.push(x)) is Ok,
    ensures
        event::replayed(lines) == Ok::<(Seq<Event>, bool), event::Fault>(
            (event::replayed(lines.push(x))->Ok_0.0, false),
        ),
{
    let a = lines.push(x);
    event::lemma_no_fault(a, 0);
    event::lemma_no_fault(lines, 0);
    assert(a.drop_last() =~= lines);
    assert forall|i: int| 0 <= i < lines.len() implies {
        &&& #[trigger] event::fault_at(lines, i) is None
        &&& !event::malformed(lines[i])
    } by {
        assert(event::fault_at(a, i) is None);
        assert(a.take(i) =~= lines.take(i));
        assert(a[i] == lines[i]);
    }
    if lines.len() > 0 {
        assert(event::fault_at(lines, lines.len() - 1) is None);
        assert(!event::malformed(lines[lines.len() - 1]));
    }
}

/// A log that needs no mend replays as its ended part does, and its tail is
/// white space.
proof fn lemma_unmended(log: Seq<u8>, parse: spec_fn(Seq<char>) -> Result<Event, Seq<char>>)
    requires
        !unended_text(log),
        recovered(log, parse) matches Ok((_, torn)) && !torn,
    ensures
        all_space(tail_of(log)),
        recovered(front_of(log), parse) == recovered(log, parse),
{
    let w = tail_of(log);
    let p = front_of(log);
    let none = Seq::<u8>::empty();
    lemma_parts(log);
    assert forall|k: int| 0 <= k < w.len() implies space_byte(#[trigger] w[k]) by {
        assert(space_byte(tail_of(log)[k]));
    }
    if w.len() == 0 {
        assert(p + w =~= p);
    } else {
        let x = read_line(w, parse);
        lemma_read_concat(p, w, parse);
        lemma_read_one(w, parse);
        assert(read(p, parse) + seq![x] =~= read(p, parse).push(x));
        lemma_decode_after_space(w, none);
        assert(w + none =~= w);
        assert(vstd::utf8::valid_utf8(none));
        assert(space_chars(w) + vstd::utf8::decode_utf8(none) =~= space_chars(w));
        lemma_blank_last(read(p, parse), x);
    }
}

/// The law of opening: whatever a log held, once it has been opened it needs no
/// mend and replays to the same events with no tail to drop, so that opening it
/// again changes nothing.
pub proof fn law_opened_log_is_whole(
    log: Seq<u8>,
    parse: spec_fn(Seq<char>) -> Result<Event, Seq<char>>,
    write: spec_fn(Event) -> Seq<char>,
)
    requires
        skips_space(parse),
        recovered(log, parse) matches Ok((events, _)) && forall|i: int|
            0 <= i < events.len() ==> faithful(#[trigger] events[i], parse, write),
    ensures
        ({
            let (events, torn) = recovered(log, parse)->Ok_0;
            let whole = opened(log, torn, jsons(events, write));
            &&& !unended_text(whole)
            &&& recovered(whole, parse) == Ok::<(Seq<Event>, bool), event::Fault>((events, false))
            &&& opened(whole, false, jsons(events, write)) == whole
        }),
{
    let (events, torn) = recovered(log, parse)->Ok_0;
    let whole = opened(log, torn, jsons(events, write));
    if torn {
        lemma_faithful_texts(events, parse, write);
        lemma_framed_lines(jsons(events, write), events, parse);
        event::law_replayed_is_numbered(read(log, parse));
        event::law_written_events_replay(read(whole, parse), events);
        if whole.len() > 0 {
            assert(tail_of(whole) =~= Seq::<u8>::empty());
        }
    } else if unended_text(log) {
        let p = front_of(log);
        let w = tail_of(log);
        lemma_parts(log);
        lemma_read_concat(p, w, parse);
        lemma_read_one(w, parse);
        lemma_read_ended(w, parse);
        lemma_read_concat(p, w.push(10u8), parse);
        assert(p + w.push(10u8) =~= whole);
        let x = read_line(w, parse);
        let y = read_line(text::without_last(w, 13u8), parse);
        assert(read(p, parse) + seq![x] =~= read(p, parse).push(x));
        assert(read(p, parse) + seq![y] =~= read(p, parse).push(y));
        assert(read(log, parse).last() == x);
        lemma_ended_line(w, parse);
        lemma_same_last(read(p, parse), x, y);
        assert(tail_of(whole) =~= Seq::<u8>::empty());
    }
}

/// Text in front of framed texts belongs to the first of them.
proof fn lemma_framed_after(front: Seq<char>, texts: Seq<Seq<char>>)
    requires
        texts.len() > 0,
    ensures
        event::framed(texts.update(0, front + texts[0])) == front + event::framed(texts),
    decreases texts.len(),
{
    let moved = texts.update(0, front + texts[0]);
    let init = texts.drop_last();
    if texts.len() == 1 {
        assert(init =~= Seq::<Seq<char>>::empty());
        assert(moved.drop_last() =~= Seq::<Seq<char>>::empty());
        assert(event::framed(moved) =~= front + event::framed(texts));
    } else {
        lemma_framed_after(front, init);
        assert(moved.drop_last() =~= init.update(0, front + init[0]));
        assert(event::framed(moved) =~= front + event::framed(texts));
    }
}

/// The law of the log: events that are appended to a log once it has been
/// opened, numbered on from those it held, come back after those, in order and
/// equal to what was appended, with no tail to drop.
pub proof fn law_appended_events_come_back(
    log: Seq<u8>,
    new: Seq<Event>,
    parse: spec_fn(Seq<char>) -> Result<Event, Seq<char>>,
    write: spec_fn(Event) -> Seq<char>,
)
    requires
        skips_space(parse),
        recovered(log, parse) matches Ok((events, _)) && {
            &&& forall|i: int|
                0 <= i < events.len() ==> faithful(#[trigger] events[i], parse, write)
            &&& forall|i: int|
                0 <= i < new.len() ==> (#[trigger] new[i]).seq == events.len() + i + 1
        },
        forall|i: int| 0 <= i < new.len() ==> faithful(#[trigger] new[i], parse, write),
    ensures
        ({
            let (events, torn) = recovered(log, parse)->Ok_0;
            let whole = opened(log, torn, jsons(events, write));
            recovered(whole + appended(new, write), parse) == Ok::<
                (Seq<Event>, bool),
                event::Fault,
            >((events + new, false))
        }),
{
    let (events, torn) = recovered(log, parse)->Ok_0;
    let whole = opened(log, torn, jsons(events, write));
    law_opened_log_is_whole(log, parse, write);
    if new.len() == 0 {
        assert(appended(new, write) =~= Seq::<u8>::empty());
        assert(whole + appended(new, write) =~= whole);
        assert(events + new =~= events);
    } else {
        let p = front_of(whole);
        let w = tail_of(whole);
        let none = Seq::<u8>::empty();
        lemma_parts(whole);
        lemma_unmended(whole, parse);
        lemma_decode_after_space(w, none);
        assert(w + none =~= w);
        let front = space_chars(w);
        let texts = jsons(new, write);
        let moved = texts.update(0, front + texts[0]);
        lemma_faithful_texts(new, parse, write);
        assert(vstd::utf8::valid_utf8(none));
        assert(vstd::utf8::decode_utf8(w) =~= front);
        vstd::utf8::decode_utf8_encode_utf8(w);
        assert forall|i: int| 0 <= i < moved.len() implies {
            &&& event::single_line(#[trigger] moved[i])
            &&& !event::blank(moved[i])
            &&& parse(moved[i]) == Ok::<Event, Seq<char>>(new[i])
        } by {
            assert(event::single_line(texts[i]));
            if i == 0 {
                let t = texts[0];
                let ends = Seq::<char>::empty();
                assert(skips(parse, front, t, ends));
                assert(front + t + ends =~= front + t);
                let k = choose|k: int| 0 <= k < t.len() && !text::is_space(#[trigger] t[k]);
                assert(!text::is_space(moved[0][front.len() + k]));
                if moved[0].contains('\n') {
                    let m = choose|m: int| 0 <= m < moved[0].len() && moved[0][m] == '\n';
                    if m < front.len() {
                        assert(front[m] == '\n');
                    } else {
                        assert(t[m - front.len()] == '\n');
                    }
                }
                assert(moved[0].last() == t.last());
            }
        }
        lemma_framed_lines(moved, new, parse);
        lemma_framed_after(front, texts);
        lemma_encode_concat(front, event::framed(texts));
        let more = w + appended(new, write);
        assert(more == vstd::utf8::encode_utf8(event::framed(moved)));
        lemma_read_concat(p, more, parse);
        assert(p + more =~= whole + appended(new, write));
        lemma_more_lines(read(p, parse), read(more, parse), events, new);
    }
}

/// The law of the cut tail: what a write that was cut short leaves behind in a
/// log that needed no mend, be it half an object or half a character, is
/// dropped and reported, and the events before it stay.
pub proof fn law_cut_tail_is_dropped(
    log: Seq<u8>,
    tail: Seq<u8>,
    parse: spec_fn(Seq<char>) -> Result<Event, Seq<char>>,
)
    requires
        skips_space(parse),
        !unended_text(log),
        recovered(log, parse) matches Ok((_, torn)) && !torn,
        tail.len() > 0,
        !tail.contains(10u8),
        vstd::utf8::valid_utf8(tail) ==> {
            let t = vstd::utf8::decode_utf8(tail);
            !event::blank(t) && parse(t) is Err
        },
    ensures
        recovered(log + tail, parse) == Ok::<(Seq<Event>, bool), event::Fault>(
            (recovered(log, parse)->Ok_0.0, true),
        ),
{
    let p = front_of(log);
    let w = tail_of(log);
    let line = w + tail;
    let x = read_line(line, parse);
    lemma_parts(log);
    lemma_unmended(log, parse);
    lemma_decode_after_space(w, tail);
    lemma_unreadable();
    if line.contains(10u8) {
        let k = choose|k: int| 0 <= k < line.len() && line[k] == 10u8;
        if k < w.len() {
            assert(w[k] == 10u8);
        } else {
            assert(tail[k - w.len()] == 10u8);
        }
    }
    lemma_read_concat(p, line, parse);
    lemma_read_one(line, parse);
    assert(p + line =~= log + tail);
    assert(read(p, parse) + seq![x] =~= read(p, parse).push(x));
    if vstd::utf8::valid_utf8(tail) {
        let t = vstd::utf8::decode_utf8(tail);
        let front = space_chars(w);
        let ends = Seq::<char>::empty();
        assert(skips(parse, front, t, ends));
        assert(front + t + ends =~= front + t);
        let k = choose|k: int| 0 <= k < t.len() && !text::is_space(#[trigger] t[k]);
        assert(!text::is_space((front + t)[front.len() + k]));
    }
    assert(event::malformed(x));
    event::law_torn_tail_is_dropped(read(p, parse), x);
}

} // verus!
