//! ASCII armor: the text form of a container. A block opens with a BEGIN
//! line and closes with an END line that both name the kind of content.
//! Between them stand header lines, a blank line and the payload, wrapped to
//! lines of 64 characters. A reader takes the whitespace around the two
//! marker lines off before it looks at them.
//!
//! Text is handled as its UTF-8 bytes. Every byte of the structure is ASCII,
//! and a line feed never occurs inside a longer UTF-8 sequence, so splitting
//! the bytes at line feeds splits the text at its line ends.

use vstd::prelude::*;
use vstd::slice::slice_subrange;
use vstd::slice::slice_to_vec;
use vstd::string::is_ascii_spec_bytes;
use vstd::string::StringSliceAdditionalSpecFns;
use vstd::utf8::is_ascii_chars;

verus! {

/// The line feed that ends a line.
pub const LF: u8 = 10;

/// The carriage return that may precede a line feed.
pub const CR: u8 = 13;

/// The number of payload characters on a full line.
pub const LINE_WIDTH: usize = 64;

/// The bytes of a text that holds ASCII characters only.
pub open spec fn ascii(s: Seq<char>) -> Seq<u8> {
    Seq::new(s.len(), |i: int| s[i] as u8)
}

/// Whether a text holds ASCII only.
pub open spec fn is_ascii_text(text: Seq<u8>) -> bool {
    forall|i: int| 0 <= i < text.len() ==> #[trigger] text[i] < 128
}

/// Whether a text holds printable ASCII characters and spaces only, and so
/// no line end.
pub open spec fn printable(text: Seq<u8>) -> bool {
    forall|i: int| 0 <= i < text.len() ==> 32 <= #[trigger] text[i] <= 126
}

/// Makes a string of ASCII bytes with `String::from_utf8`: the string holds
/// the characters that the bytes stand for.
#[verifier::external_body]
pub(crate) fn ascii_string(bytes: Vec<u8>) -> (text: String)
    requires
        is_ascii_text(bytes@),
    ensures
        is_ascii_chars(text@),
        ascii(text@) == bytes@,
{
    match String::from_utf8(bytes) {
        Ok(text) => text,
        Err(_) => String::new(),
    }
}

/// The offset of the first line feed in `text`, or the length of `text` if
/// it holds none.
pub open spec fn first_newline(text: Seq<u8>) -> int
    decreases text.len(),
{
    if text.len() == 0 || text[0] == LF {
        0
    } else {
        1 + first_newline(text.skip(1))
    }
}

/// A line without the carriage return that preceded its line feed.
pub open spec fn strip_cr(line: Seq<u8>) -> Seq<u8> {
    if line.len() > 0 && line.last() == CR {
        line.drop_last()
    } else {
        line
    }
}

/// The lines of a text. A line ends at a line feed or at a carriage return
/// followed by one; the last line need not be ended, and a text that ends
/// with a line end has no empty line after it.
pub open spec fn split_lines(text: Seq<u8>) -> Seq<Seq<u8>>
    decreases text.len(),
    via split_lines_decreases
{
    if text.len() == 0 {
        Seq::<Seq<u8>>::empty()
    } else {
        let k = first_newline(text);
        if k >= text.len() {
            seq![text]
        } else {
            seq![strip_cr(text.subrange(0, k))] + split_lines(text.skip(k + 1))
        }
    }
}

#[via_fn]
proof fn split_lines_decreases(text: Seq<u8>) {
    lemma_first_newline(text);
}

/// `first_newline` points at the first line feed, and at the end of a text
/// that has none.
pub proof fn lemma_first_newline(text: Seq<u8>)
    ensures
        0 <= first_newline(text) <= text.len(),
        forall|j: int| 0 <= j < first_newline(text) ==> text[j] != LF,
        first_newline(text) < text.len() ==> text[first_newline(text)] == LF,
    decreases text.len(),
{
    if text.len() == 0 || text[0] == LF {
    } else {
        lemma_first_newline(text.skip(1));
        assert forall|j: int| 0 <= j < first_newline(text) implies text[j] != LF by {
            if j > 0 {
                assert(text[j] == text.skip(1)[j - 1]);
            }
        }
        if first_newline(text) < text.len() {
            assert(text[first_newline(text)] == text.skip(1)[first_newline(text) - 1]);
        }
    }
}

/// An offset before which no line feed stands, and which is the end of the
/// text or holds a line feed, is the one that `first_newline` gives.
pub proof fn lemma_first_newline_at(text: Seq<u8>, k: int)
    requires
        0 <= k <= text.len(),
        forall|j: int| 0 <= j < k ==> text[j] != LF,
        k < text.len() ==> text[k] == LF,
    ensures
        first_newline(text) == k,
    decreases text.len(),
{
    if text.len() == 0 || text[0] == LF {
    } else {
        let rest = text.skip(1);
        assert forall|j: int| 0 <= j < k - 1 implies rest[j] != LF by {
            assert(rest[j] == text[j + 1]);
        }
        lemma_first_newline_at(rest, k - 1);
    }
}

/// Whether splitting a text gives this line back unchanged: it holds no line
/// feed and does not end with a carriage return.
pub open spec fn is_line(line: Seq<u8>) -> bool {
    &&& forall|j: int| 0 <= j < line.len() ==> line[j] != LF
    &&& line.len() > 0 ==> line.last() != CR
}

/// The text made of the given lines, each ended by a line feed.
pub open spec fn join_lines(lines: Seq<Seq<u8>>) -> Seq<u8>
    decreases lines.len(),
{
    if lines.len() == 0 {
        Seq::<u8>::empty()
    } else {
        join_lines(lines.drop_last()) + lines.last() + seq![LF]
    }
}

/// A joined text starts with its first line.
pub proof fn lemma_join_lines_front(lines: Seq<Seq<u8>>)
    requires
        lines.len() > 0,
    ensures
        join_lines(lines) == lines[0] + seq![LF] + join_lines(lines.skip(1)),
    decreases lines.len(),
{
    if lines.len() == 1 {
        assert(lines.drop_last() =~= Seq::<Seq<u8>>::empty());
        assert(lines.skip(1) =~= Seq::<Seq<u8>>::empty());
        assert(join_lines(lines) =~= lines[0] + seq![LF] + join_lines(lines.skip(1)));
    } else {
        lemma_join_lines_front(lines.drop_last());
        assert(lines.drop_last().skip(1) =~= lines.skip(1).drop_last());
        assert(lines.skip(1).last() == lines.last());
        assert(join_lines(lines) =~= lines[0] + seq![LF] + join_lines(lines.skip(1)));
    }
}

/// Splitting what was joined gives the lines back.
pub proof fn lemma_split_join(lines: Seq<Seq<u8>>)
    requires
        forall|i: int| 0 <= i < lines.len() ==> is_line(#[trigger] lines[i]),
    ensures
        split_lines(join_lines(lines)) == lines,
    decreases lines.len(),
{
    if lines.len() == 0 {
    } else {
        let text = join_lines(lines);
        let head = lines[0];
        let rest = join_lines(lines.skip(1));
        lemma_join_lines_front(lines);
        assert(text =~= head + seq![LF] + rest);
        assert(is_line(head));
        lemma_first_newline_at(text, head.len() as int);
        assert(text.subrange(0, head.len() as int) =~= head);
        assert(text.skip(head.len() as int + 1) =~= rest);
        lemma_split_join(lines.skip(1));
        assert(split_lines(text) =~= lines);
    }
}

/// The byte strings that a vector of byte vectors holds.
pub open spec fn views(v: Seq<Vec<u8>>) -> Seq<Seq<u8>> {
    Seq::new(v.len(), |i: int| v[i]@)
}

/// Splits a text into its lines.
pub fn lines(text: &[u8]) -> (r: Vec<Vec<u8>>)
    ensures
        views(r@) == split_lines(text@),
{
    let n: usize = text.len();
    let mut lines: Vec<Vec<u8>> = Vec::new();
    let mut start: usize = 0;
    let mut i: usize = 0;
    proof {
        assert(text@.skip(0) =~= text@);
        assert(views(lines@) + split_lines(text@.skip(0)) =~= split_lines(text@));
    }
    while i < n
        invariant
            n == text@.len(),
            start <= i <= n,
            forall|j: int| start <= j < i ==> text@[j] != LF,
            split_lines(text@) == views(lines@) + split_lines(text@.skip(start as int)),
        decreases n - i,
    {
        if text[i] == LF {
            let mut end: usize = i;
            if end > start && text[end - 1] == CR {
                end = end - 1;
            }
            let line: Vec<u8> = slice_to_vec(slice_subrange(text, start, end));
            proof {
                let tail = text@.skip(start as int);
                assert forall|j: int| 0 <= j < i - start implies tail[j] != LF by {
                    assert(tail[j] == text@[start + j]);
                }
                lemma_first_newline_at(tail, i - start);
                assert(tail.skip(i - start + 1) =~= text@.skip(i + 1));
                assert(strip_cr(tail.subrange(0, i - start)) =~= line@);
                assert(views(lines@.push(line)) =~= views(lines@) + seq![line@]);
                assert(split_lines(text@) =~= views(lines@.push(line)) + split_lines(
                    text@.skip(i + 1),
                ));
            }
            lines.push(line);
            start = i + 1;
        }
        i += 1;
    }
    if start < n {
        let line: Vec<u8> = slice_to_vec(slice_subrange(text, start, n));
        proof {
            let tail = text@.skip(start as int);
            assert forall|j: int| 0 <= j < n - start implies tail[j] != LF by {
                assert(tail[j] == text@[start + j]);
            }
            lemma_first_newline_at(tail, n - start);
            assert(tail =~= line@);
            assert(views(lines@.push(line)) =~= views(lines@) + seq![line@]);
        }
        lines.push(line);
    } else {
        proof {
            assert(text@.skip(start as int) =~= Seq::<u8>::empty());
            assert(views(lines@) + Seq::<Seq<u8>>::empty() =~= views(lines@));
        }
    }
    lines
}

/// Whether a byte is ASCII whitespace: a space, a tab, a line feed, a form
/// feed or a carriage return.
pub open spec fn is_space(byte: u8) -> bool {
    byte == 32 || byte == 9 || byte == LF || byte == 12 || byte == CR
}

/// A line without the ASCII whitespace that it starts with.
pub open spec fn trim_start(line: Seq<u8>) -> Seq<u8>
    decreases line.len(),
{
    if line.len() > 0 && is_space(line[0]) {
        trim_start(line.skip(1))
    } else {
        line
    }
}

/// A line without the ASCII whitespace that it ends with.
pub open spec fn trim_end(line: Seq<u8>) -> Seq<u8>
    decreases line.len(),
{
    if line.len() > 0 && is_space(line.last()) {
        trim_end(line.drop_last())
    } else {
        line
    }
}

/// A line without the ASCII whitespace around it.
pub open spec fn trimmed(line: Seq<u8>) -> Seq<u8> {
    trim_end(trim_start(line))
}

/// A line that neither starts nor ends with whitespace is what trimming
/// leaves of it.
pub proof fn lemma_trimmed_same(line: Seq<u8>)
    requires
        line.len() > 0 ==> !is_space(line[0]) && !is_space(line.last()),
    ensures
        trimmed(line) == line,
{
}

/// The line that opens a block with the given title.
pub open spec fn begin_marker(title: Seq<u8>) -> Seq<u8> {
    ascii("-----BEGIN "@) + title + ascii("-----"@)
}

/// The line that closes a block with the given title.
pub open spec fn end_marker(title: Seq<u8>) -> Seq<u8> {
    ascii("-----END "@) + title + ascii("-----"@)
}

/// What an `Id` header line starts with.
pub open spec fn id_prefix() -> Seq<u8> {
    ascii("Id: "@)
}

/// Whether `line` starts with `prefix`.
pub open spec fn starts_with(line: Seq<u8>, prefix: Seq<u8>) -> bool {
    line.len() >= prefix.len() && line.subrange(0, prefix.len() as int) == prefix
}

/// The number of lines that stand before the first empty one.
pub open spec fn header_count(lines: Seq<Seq<u8>>) -> int
    decreases lines.len(),
{
    if lines.len() == 0 || lines[0].len() == 0 {
        0
    } else {
        1 + header_count(lines.skip(1))
    }
}

/// The values of the `Id` headers among the given header lines, in order.
pub open spec fn id_values(headers: Seq<Seq<u8>>) -> Seq<Seq<u8>>
    decreases headers.len(),
{
    if headers.len() == 0 {
        Seq::<Seq<u8>>::empty()
    } else if starts_with(headers.last(), id_prefix()) {
        id_values(headers.drop_last()).push(headers.last().skip(id_prefix().len() as int))
    } else {
        id_values(headers.drop_last())
    }
}

/// The given lines one after another, with nothing between them.
pub open spec fn joined(lines: Seq<Seq<u8>>) -> Seq<u8>
    decreases lines.len(),
{
    if lines.len() == 0 {
        Seq::<u8>::empty()
    } else {
        joined(lines.drop_last()) + lines.last()
    }
}

/// The payload cut into full lines, followed by the line that holds what is
/// left, which is empty where the payload fills its lines exactly.
pub open spec fn wrapped(payload: Seq<u8>) -> Seq<Seq<u8>>
    decreases payload.len(),
{
    if payload.len() >= LINE_WIDTH {
        seq![payload.subrange(0, LINE_WIDTH as int)] + wrapped(payload.skip(LINE_WIDTH as int))
    } else {
        seq![payload]
    }
}

/// The lines of a block: the opening line, the headers, a blank line, the
/// wrapped payload, a blank line and the closing line.
pub open spec fn armor_lines(title: Seq<u8>, headers: Seq<Seq<u8>>, payload: Seq<u8>) -> Seq<
    Seq<u8>,
> {
    seq![begin_marker(title)] + headers + seq![Seq::<u8>::empty()] + wrapped(payload) + seq![
        Seq::<u8>::empty(),
        end_marker(title),
    ]
}

/// The text of a block.
pub open spec fn armored(title: Seq<u8>, headers: Seq<Seq<u8>>, payload: Seq<u8>) -> Seq<u8> {
    join_lines(armor_lines(title, headers, payload))
}

/// What a block holds for its reader: the values of its `Id` headers in the
/// order in which they stand, and its payload with the line ends taken out.
pub struct Armor {
    pub id_values: Vec<Vec<u8>>,
    pub payload: Vec<u8>,
}

/// The mathematical content of an [`Armor`].
pub struct ArmorView {
    pub id_values: Seq<Seq<u8>>,
    pub payload: Seq<u8>,
}

impl View for Armor {
    type V = ArmorView;

    open spec fn view(&self) -> ArmorView {
        ArmorView { id_values: views(self.id_values@), payload: self.payload@ }
    }
}

/// What a text holds when read as a block with the given title, or `None`
/// where its first and last lines, with the whitespace around them taken
/// off, are not the markers of that title.
///
/// The header lines run up to the first empty line. Everything after it, up
/// to the closing line, is payload.
pub open spec fn parsed(text: Seq<u8>, title: Seq<u8>) -> Option<ArmorView> {
    let lines = split_lines(text);
    if lines.len() >= 2 && trimmed(lines[0]) == begin_marker(title) && trimmed(lines.last())
        == end_marker(title) {
        let inner = lines.subrange(1, lines.len() - 1);
        let h = header_count(inner);
        Some(
            ArmorView {
                id_values: id_values(inner.subrange(0, h)),
                payload: joined(inner.skip(h)),
            },
        )
    } else {
        None
    }
}

/// `header_count` stops at the first empty line, or at the end.
pub proof fn lemma_header_count_at(lines: Seq<Seq<u8>>, h: int)
    requires
        0 <= h <= lines.len(),
        forall|j: int| 0 <= j < h ==> (#[trigger] lines[j]).len() > 0,
        h < lines.len() ==> lines[h].len() == 0,
    ensures
        header_count(lines) == h,
    decreases lines.len(),
{
    if lines.len() == 0 || lines[0].len() == 0 {
    } else {
        let rest = lines.skip(1);
        assert forall|j: int| 0 <= j < h - 1 implies (#[trigger] rest[j]).len() > 0 by {
            assert(rest[j] == lines[j + 1]);
        }
        lemma_header_count_at(rest, h - 1);
    }
}

/// A single line joined is that line.
pub proof fn lemma_joined_one(line: Seq<u8>)
    ensures
        joined(seq![line]) == line,
{
    let one = seq![line];
    assert(one.drop_last() =~= Seq::<Seq<u8>>::empty());
    assert(joined(one.drop_last()) =~= Seq::<u8>::empty());
    assert(joined(one) =~= line);
}

/// Joining two runs of lines joins what each of them gives.
pub proof fn lemma_joined_concat(a: Seq<Seq<u8>>, b: Seq<Seq<u8>>)
    ensures
        joined(a + b) == joined(a) + joined(b),
    decreases b.len(),
{
    if b.len() == 0 {
        assert(a + b =~= a);
        assert(joined(a) + joined(b) =~= joined(a));
    } else {
        lemma_joined_concat(a, b.drop_last());
        assert((a + b).drop_last() =~= a + b.drop_last());
        assert((a + b).last() == b.last());
        assert(joined(a + b) =~= joined(a) + joined(b));
    }
}

/// Wrapping loses nothing, and puts on no line a byte that the payload lacks.
pub proof fn lemma_wrapped(payload: Seq<u8>)
    ensures
        joined(wrapped(payload)) == payload,
        wrapped(payload).len() >= 1,
        forall|i: int, j: int|
            0 <= i < wrapped(payload).len() && 0 <= j < wrapped(payload)[i].len()
                ==> payload.contains(#[trigger] wrapped(payload)[i][j]),
    decreases payload.len(),
{
    if payload.len() >= LINE_WIDTH {
        let head = payload.subrange(0, LINE_WIDTH as int);
        let tail = payload.skip(LINE_WIDTH as int);
        lemma_wrapped(tail);
        lemma_joined_concat(seq![head], wrapped(tail));
        lemma_joined_one(head);
        assert(head + tail =~= payload);
        assert forall|i: int, j: int|
            0 <= i < wrapped(payload).len() && 0 <= j < wrapped(payload)[i].len()
                implies payload.contains(#[trigger] wrapped(payload)[i][j]) by {
            if i == 0 {
                assert(wrapped(payload)[i][j] == payload[j]);
            } else {
                let b = wrapped(tail)[i - 1][j];
                assert(wrapped(payload)[i] == wrapped(tail)[i - 1]);
                assert(tail.contains(b));
                let k = choose|k: int| 0 <= k < tail.len() && tail[k] == b;
                assert(payload[k + LINE_WIDTH] == b);
            }
        }
    } else {
        lemma_joined_one(payload);
    }
}

/// Lines of ASCII make a text of ASCII.
pub proof fn lemma_join_lines_ascii(lines: Seq<Seq<u8>>)
    requires
        forall|i: int| 0 <= i < lines.len() ==> is_ascii_text(#[trigger] lines[i]),
    ensures
        is_ascii_text(join_lines(lines)),
    decreases lines.len(),
{
    if lines.len() > 0 {
        lemma_join_lines_ascii(lines.drop_last());
        assert(is_ascii_text(lines.last()));
    }
}

/// A block whose title, header lines and payload are ASCII is ASCII.
pub proof fn lemma_armored_ascii(title: Seq<u8>, headers: Seq<Seq<u8>>, payload: Seq<u8>)
    requires
        is_ascii_text(title),
        forall|i: int| 0 <= i < headers.len() ==> is_ascii_text(#[trigger] headers[i]),
        is_ascii_text(payload),
    ensures
        is_ascii_text(armored(title, headers, payload)),
{
    reveal_strlit("-----BEGIN ");
    reveal_strlit("-----END ");
    reveal_strlit("-----");
    let all = armor_lines(title, headers, payload);
    let body = wrapped(payload);
    lemma_wrapped(payload);
    assert forall|i: int| 0 <= i < all.len() implies is_ascii_text(#[trigger] all[i]) by {
        let h = headers.len() as int;
        if i == 0 {
        } else if i <= h {
            assert(all[i] == headers[i - 1]);
        } else if i == h + 1 {
        } else if i < h + 2 + body.len() {
            let line = body[i - h - 2];
            assert(all[i] == line);
            assert forall|j: int| 0 <= j < line.len() implies #[trigger] line[j] < 128 by {
                assert(payload.contains(body[i - h - 2][j]));
            }
        } else if i == h + 2 + body.len() {
        } else {
        }
    }
    lemma_join_lines_ascii(all);
}

/// Whether a block with this title, these header lines and this payload can
/// be read back: no part holds a line end, and no header line is empty.
pub open spec fn armorable(title: Seq<u8>, headers: Seq<Seq<u8>>, payload: Seq<u8>) -> bool {
    &&& forall|j: int| 0 <= j < title.len() ==> title[j] != LF
    &&& forall|i: int|
        0 <= i < headers.len() ==> is_line(#[trigger] headers[i]) && headers[i].len() > 0
    &&& forall|j: int| 0 <= j < payload.len() ==> payload[j] != LF && payload[j] != CR
}

/// Reading a block that was written gives back the values of its `Id`
/// headers and its payload.
pub proof fn lemma_parsed_armored(title: Seq<u8>, headers: Seq<Seq<u8>>, payload: Seq<u8>)
    requires
        armorable(title, headers, payload),
    ensures
        parsed(armored(title, headers, payload), title) == Some(
            ArmorView { id_values: id_values(headers), payload },
        ),
{
    reveal_strlit("-----BEGIN ");
    reveal_strlit("-----END ");
    reveal_strlit("-----");
    let empty = Seq::<u8>::empty();
    let all = armor_lines(title, headers, payload);
    let body = wrapped(payload);
    lemma_wrapped(payload);
    assert forall|i: int| 0 <= i < all.len() implies is_line(#[trigger] all[i]) by {
        let h = headers.len() as int;
        if i == 0 {
        } else if i <= h {
            assert(all[i] == headers[i - 1]);
        } else if i == h + 1 {
        } else if i < h + 2 + body.len() {
            let line = body[i - h - 2];
            assert(all[i] == line);
            assert forall|j: int| 0 <= j < line.len() implies line[j] != LF && line[j] != CR by {
                assert(payload.contains(body[i - h - 2][j]));
            }
        } else if i == h + 2 + body.len() {
        } else {
        }
    }
    lemma_split_join(all);
    assert(all[0] == begin_marker(title));
    assert(all.last() == end_marker(title));
    lemma_trimmed_same(begin_marker(title));
    lemma_trimmed_same(end_marker(title));
    let inner = all.subrange(1, all.len() - 1);
    assert(inner =~= headers + seq![empty] + body + seq![empty]);
    lemma_header_count_at(inner, headers.len() as int);
    assert(inner.subrange(0, headers.len() as int) =~= headers);
    assert(inner.skip(headers.len() as int) =~= seq![empty] + body + seq![empty]);
    lemma_joined_concat(seq![empty] + body, seq![empty]);
    lemma_joined_concat(seq![empty], body);
    lemma_joined_one(empty);
    assert(joined(seq![empty] + body + seq![empty]) =~= payload);
}

/// The bytes of an ASCII text.
pub fn ascii_bytes(s: &str) -> (r: &[u8])
    requires
        s.is_ascii(),
    ensures
        r@ == ascii(s@),
{
    proof {
        is_ascii_spec_bytes(s);
        assert(s.spec_bytes() =~= ascii(s@));
    }
    s.as_bytes()
}

/// Appends `bytes` to `out`.
pub fn append(out: &mut Vec<u8>, bytes: &[u8])
    ensures
        final(out)@ == old(out)@ + bytes@,
{
    let mut i: usize = 0;
    proof {
        assert(out@ =~= old(out)@ + bytes@.subrange(0, 0));
    }
    while i < bytes.len()
        invariant
            i <= bytes@.len(),
            out@ == old(out)@ + bytes@.subrange(0, i as int),
        decreases bytes@.len() - i,
    {
        out.push(bytes[i]);
        i += 1;
        proof {
            assert(out@ =~= old(out)@ + bytes@.subrange(0, i as int));
        }
    }
    proof {
        assert(bytes@.subrange(0, i as int) =~= bytes@);
    }
}

/// Whether two byte strings are the same.
pub fn same_bytes(a: &[u8], b: &[u8]) -> (same: bool)
    ensures
        same == (a@ == b@),
{
    if a.len() != b.len() {
        return false;
    }
    let mut i: usize = 0;
    while i < a.len()
        invariant
            i <= a@.len(),
            a@.len() == b@.len(),
            forall|j: int| 0 <= j < i ==> a@[j] == b@[j],
        decreases a@.len() - i,
    {
        if a[i] != b[i] {
            return false;
        }
        i += 1;
    }
    proof {
        assert(a@ =~= b@);
    }
    true
}

/// Whether `line` starts with `prefix`.
pub fn has_prefix(line: &[u8], prefix: &[u8]) -> (yes: bool)
    ensures
        yes == starts_with(line@, prefix@),
{
    if line.len() < prefix.len() {
        return false;
    }
    same_bytes(slice_subrange(line, 0, prefix.len()), prefix)
}

/// Whether a byte is ASCII whitespace.
pub fn is_space_byte(byte: u8) -> (yes: bool)
    ensures
        yes == is_space(byte),
{
    byte == 32 || byte == 9 || byte == LF || byte == 12 || byte == CR
}

/// A line without the ASCII whitespace around it.
pub fn trim(line: &[u8]) -> (r: &[u8])
    ensures
        r@ == trimmed(line@),
{
    let n: usize = line.len();
    let mut start: usize = 0;
    proof {
        assert(line@.skip(0) =~= line@);
    }
    while start < n && is_space_byte(line[start])
        invariant
            n == line@.len(),
            start <= n,
            trim_start(line@) == trim_start(line@.skip(start as int)),
        decreases n - start,
    {
        proof {
            assert(line@.skip(start as int).skip(1) =~= line@.skip(start + 1));
        }
        start += 1;
    }
    let ghost rest = line@.skip(start as int);
    proof {
        assert(trim_start(line@) == rest);
        assert(rest =~= line@.subrange(start as int, n as int));
    }
    let mut end: usize = n;
    while end > start && is_space_byte(line[end - 1])
        invariant
            start <= end <= n,
            n == line@.len(),
            trim_end(rest) == trim_end(line@.subrange(start as int, end as int)),
        decreases end - start,
    {
        proof {
            assert(line@.subrange(start as int, end as int).drop_last() =~= line@.subrange(
                start as int,
                end - 1,
            ));
        }
        end -= 1;
    }
    slice_subrange(line, start, end)
}

/// The line that opens a block with the given title.
pub fn begin_line(title: &[u8]) -> (line: Vec<u8>)
    ensures
        line@ == begin_marker(title@),
{
    proof {
        reveal_strlit("-----BEGIN ");
        reveal_strlit("-----");
    }
    let mut line: Vec<u8> = Vec::new();
    append(&mut line, ascii_bytes("-----BEGIN "));
    append(&mut line, title);
    append(&mut line, ascii_bytes("-----"));
    proof {
        assert(line@ =~= begin_marker(title@));
    }
    line
}

/// The line that closes a block with the given title.
pub fn end_line(title: &[u8]) -> (line: Vec<u8>)
    ensures
        line@ == end_marker(title@),
{
    proof {
        reveal_strlit("-----END ");
        reveal_strlit("-----");
    }
    let mut line: Vec<u8> = Vec::new();
    append(&mut line, ascii_bytes("-----END "));
    append(&mut line, title);
    append(&mut line, ascii_bytes("-----"));
    proof {
        assert(line@ =~= end_marker(title@));
    }
    line
}

impl Armor {
    /// Reads a text as a block with the given title.
    ///
    /// Returns `None` where the first and the last line of the text, with the
    /// whitespace around them taken off, are not the markers of that title,
    /// and otherwise what the block holds. No other input is refused here:
    /// what the headers and the payload are worth is for the caller to
    /// judge.
    pub fn parse(text: &[u8], title: &[u8]) -> (r: Option<Armor>)
        ensures
            match r {
                Some(armor) => parsed(text@, title@) == Some(armor@),
                None => parsed(text@, title@) is None,
            },
    {
        let all: Vec<Vec<u8>> = lines(text);
        let n: usize = all.len();
        if n < 2 {
            return None;
        }
        let first: Vec<u8> = begin_line(title);
        let last: Vec<u8> = end_line(title);
        proof {
            assert(views(all@)[0] == all@[0]@);
            assert(views(all@)[n - 1] == all@[n - 1]@);
        }
        if !same_bytes(trim(all[0].as_slice()), first.as_slice()) {
            return None;
        }
        if !same_bytes(trim(all[n - 1].as_slice()), last.as_slice()) {
            return None;
        }
        let ghost inner = split_lines(text@).subrange(1, n - 1);
        proof {
            reveal_strlit("Id: ");
        }
        let prefix: &[u8] = ascii_bytes("Id: ");
        let mut ids: Vec<Vec<u8>> = Vec::new();
        let mut h: usize = 1;
        proof {
            assert(inner.subrange(0, 0) =~= Seq::<Seq<u8>>::empty());
            assert(views(ids@) =~= id_values(inner.subrange(0, 0)));
        }
        while h < n - 1 && all[h].len() > 0
            invariant
                n == all@.len(),
                n >= 2,
                1 <= h <= n - 1,
                views(all@) == split_lines(text@),
                inner == split_lines(text@).subrange(1, n - 1),
                prefix@ == id_prefix(),
                forall|j: int| 0 <= j < h - 1 ==> (#[trigger] inner[j]).len() > 0,
                views(ids@) == id_values(inner.subrange(0, h - 1)),
            decreases n - h,
        {
            let line: &Vec<u8> = &all[h];
            proof {
                assert(inner[h - 1] == views(all@)[h as int]);
                assert(inner.subrange(0, h as int).drop_last() =~= inner.subrange(0, h - 1));
                assert(inner.subrange(0, h as int).last() == line@);
            }
            if has_prefix(line.as_slice(), prefix) {
                let value: Vec<u8> = slice_to_vec(
                    slice_subrange(line.as_slice(), prefix.len(), line.len()),
                );
                proof {
                    assert(value@ =~= line@.skip(id_prefix().len() as int));
                    assert(views(ids@.push(value)) =~= views(ids@).push(value@));
                }
                ids.push(value);
            }
            h += 1;
        }
        proof {
            if h < n - 1 {
                assert(inner[h - 1] == views(all@)[h as int]);
            }
            lemma_header_count_at(inner, h - 1);
        }
        let mut payload: Vec<u8> = Vec::new();
        let mut j: usize = h;
        proof {
            assert(inner.subrange(h - 1, j - 1) =~= Seq::<Seq<u8>>::empty());
        }
        while j < n - 1
            invariant
                n == all@.len(),
                1 <= h <= j <= n - 1,
                views(all@) == split_lines(text@),
                inner == split_lines(text@).subrange(1, n - 1),
                payload@ == joined(inner.subrange(h - 1, j - 1)),
            decreases n - j,
        {
            proof {
                assert(inner[j - 1] == views(all@)[j as int]);
                assert(inner.subrange(h - 1, j as int).drop_last() =~= inner.subrange(
                    h - 1,
                    j - 1,
                ));
                assert(inner.subrange(h - 1, j as int).last() == all@[j as int]@);
            }
            append(&mut payload, all[j].as_slice());
            j += 1;
        }
        proof {
            assert(inner.subrange(h - 1, j - 1) =~= inner.skip(h - 1));
            assert(views(all@)[0] == all@[0]@);
            assert(views(all@)[n - 1] == all@[n - 1]@);
        }
        Some(Armor { id_values: ids, payload })
    }

    /// Writes a block with the given title, header lines and payload.
    pub fn render(title: &[u8], headers: &Vec<Vec<u8>>, payload: &[u8]) -> (text: Vec<u8>)
        ensures
            text@ == armored(title@, views(headers@), payload@),
    {
        let ghost empty = Seq::<u8>::empty();
        let mut text: Vec<u8> = Vec::new();
        let first: Vec<u8> = begin_line(title);
        append(&mut text, first.as_slice());
        text.push(LF);
        let ghost mut done: Seq<Seq<u8>> = seq![begin_marker(title@)];
        proof {
            assert(done.drop_last() =~= Seq::<Seq<u8>>::empty());
            assert(join_lines(done.drop_last()) =~= empty);
            assert(text@ =~= join_lines(done));
        }
        let mut i: usize = 0;
        while i < headers.len()
            invariant
                i <= headers@.len(),
                text@ == join_lines(done),
                done == seq![begin_marker(title@)] + views(headers@).subrange(0, i as int),
            decreases headers@.len() - i,
        {
            append(&mut text, headers[i].as_slice());
            text.push(LF);
            proof {
                let next = done.push(headers@[i as int]@);
                assert(next.drop_last() =~= done);
                assert(text@ =~= join_lines(next));
                assert(next =~= seq![begin_marker(title@)] + views(headers@).subrange(0, i + 1));
                done = next;
            }
            i += 1;
        }
        text.push(LF);
        proof {
            assert(views(headers@).subrange(0, i as int) =~= views(headers@));
            let next = done.push(empty);
            assert(next.drop_last() =~= done);
            assert(text@ =~= join_lines(next));
            done = next;
        }
        let ghost lead = done;
        let mut pos: usize = 0;
        proof {
            assert(payload@.skip(0) =~= payload@);
            assert(done =~= lead + Seq::<Seq<u8>>::empty());
        }
        let ghost mut cut: Seq<Seq<u8>> = Seq::empty();
        while payload.len() - pos >= LINE_WIDTH
            invariant
                pos <= payload@.len(),
                text@ == join_lines(done),
                done == lead + cut,
                wrapped(payload@) == cut + wrapped(payload@.skip(pos as int)),
            decreases payload@.len() - pos,
        {
            let chunk: &[u8] = slice_subrange(payload, pos, pos + LINE_WIDTH);
            append(&mut text, chunk);
            text.push(LF);
            proof {
                let rest = payload@.skip(pos as int);
                assert(rest.subrange(0, LINE_WIDTH as int) =~= chunk@);
                assert(rest.skip(LINE_WIDTH as int) =~= payload@.skip(pos + LINE_WIDTH));
                let next = done.push(chunk@);
                assert(next.drop_last() =~= done);
                assert(text@ =~= join_lines(next));
                assert(next =~= lead + cut.push(chunk@));
                assert(wrapped(payload@) =~= cut.push(chunk@) + wrapped(
                    payload@.skip(pos + LINE_WIDTH),
                ));
                done = next;
                cut = cut.push(chunk@);
            }
            pos += LINE_WIDTH;
        }
        let rest: &[u8] = slice_subrange(payload, pos, payload.len());
        append(&mut text, rest);
        text.push(LF);
        proof {
            assert(rest@ =~= payload@.skip(pos as int));
            let next = done.push(rest@);
            assert(next.drop_last() =~= done);
            assert(text@ =~= join_lines(next));
            assert(next =~= lead + wrapped(payload@));
            done = next;
        }
        text.push(LF);
        proof {
            let next = done.push(empty);
            assert(next.drop_last() =~= done);
            assert(text@ =~= join_lines(next));
            done = next;
        }
        let last: Vec<u8> = end_line(title);
        append(&mut text, last.as_slice());
        text.push(LF);
        proof {
            let next = done.push(end_marker(title@));
            assert(next.drop_last() =~= done);
            assert(text@ =~= join_lines(next));
            assert(next =~= armor_lines(title@, views(headers@), payload@));
        }
        text
    }
}

} // verus!
