//! The package manifest as lines of text: loading it from bytes, adding the
//! cover declaration after the line that opens the manifest, and writing it
//! back.

use vstd::prelude::*;
use vstd::slice::{slice_subrange, slice_to_vec};
use vstd::utf8::{decode_utf8, encode_scalar, encode_utf8, has_width_1_encoding, valid_utf8};
use crate::error::EpubError;
use crate::text::{contains_text, occurs_in, text_of};

verus! {

/// The text that marks the line after which the declaration is added.
pub const MARKER: &'static str = "<manifest>";

/// The declaration up to the first place of the media subtype.
pub const DECLARATION_HEAD: &'static str =
    "<item properties=\"cover-image\" id=\"my-cover-image\" href=\"cover.";

/// The declaration between the two places of the media subtype.
pub const DECLARATION_MIDDLE: &'static str = "\" media-type=\"image/";

/// The declaration after the second place of the media subtype.
pub const DECLARATION_TAIL: &'static str = "\"/>";

/// The file name of the cover image up to the media subtype.
pub const COVER_STEM: &'static str = "cover.";

/// The texts of a list of lines.
pub open spec fn texts(lines: Seq<String>) -> Seq<Seq<char>> {
    lines.map_values(|l: String| l@)
}

/// The line that declares a cover image of the given media subtype.
pub open spec fn declaration_text(subtype: Seq<char>) -> Seq<char> {
    DECLARATION_HEAD@ + subtype + DECLARATION_MIDDLE@ + subtype + DECLARATION_TAIL@
}

/// The name of the cover image inside the package: `cover.` and the subtype.
pub open spec fn cover_name(subtype: Seq<char>) -> Seq<char> {
    COVER_STEM@ + subtype
}

/// Builds the line that declares a cover image of the given media subtype.
pub fn cover_declaration(subtype: &str) -> (line: String)
    ensures
        line@ == declaration_text(subtype@),
{
    let mut line = String::from_str(DECLARATION_HEAD);
    line.append(subtype);
    line.append(DECLARATION_MIDDLE);
    line.append(subtype);
    line.append(DECLARATION_TAIL);
    line
}

/// Builds the name of the cover image inside the package.
pub fn cover_file_name(subtype: &str) -> (name: String)
    ensures
        name@ == cover_name(subtype@),
{
    let mut name = String::from_str(COVER_STEM);
    name.append(subtype);
    name
}

/// Index of the first line that holds `marker`, if there is one.
pub open spec fn first_marked(lines: Seq<Seq<char>>, marker: Seq<char>) -> Option<int>
    decreases lines.len(),
{
    if lines.len() == 0 {
        None
    } else if occurs_in(marker, lines[0]) {
        Some(0)
    } else {
        match first_marked(lines.skip(1), marker) {
            Some(i) => Some(i + 1),
            None => None,
        }
    }
}

/// The lines with `new_line` added directly after the first line that holds
/// `marker`; nothing where no line holds it.
pub open spec fn with_line_after_marker(
    lines: Seq<Seq<char>>,
    marker: Seq<char>,
    new_line: Seq<char>,
) -> Option<Seq<Seq<char>>> {
    match first_marked(lines, marker) {
        Some(i) => Some(lines.insert(i + 1, new_line)),
        None => None,
    }
}

/// `first_marked` is the lowest index of a line that holds the marker, and
/// is `None` exactly when no line holds it.
pub proof fn lemma_first_marked(lines: Seq<Seq<char>>, marker: Seq<char>)
    ensures
        match first_marked(lines, marker) {
            Some(i) => 0 <= i < lines.len() && occurs_in(marker, lines[i]) && forall|j: int|
                0 <= j < i ==> !occurs_in(marker, #[trigger] lines[j]),
            None => forall|j: int| 0 <= j < lines.len() ==> !occurs_in(marker, #[trigger] lines[j]),
        },
    decreases lines.len(),
{
    if lines.len() > 0 && !occurs_in(marker, lines[0]) {
        let rest = lines.skip(1);
        lemma_first_marked(rest, marker);
        match first_marked(rest, marker) {
            Some(i) => {
                assert(lines[i + 1] == rest[i]);
                assert forall|j: int| 0 <= j < i + 1 implies !occurs_in(
                    marker,
                    #[trigger] lines[j],
                ) by {
                    if j > 0 {
                        assert(lines[j] == rest[j - 1]);
                    }
                }
            },
            None => {
                assert forall|j: int| 0 <= j < lines.len() implies !occurs_in(
                    marker,
                    #[trigger] lines[j],
                ) by {
                    if j > 0 {
                        assert(lines[j] == rest[j - 1]);
                    }
                }
            },
        }
    }
}

/// Finds the first line that holds `marker`.
pub fn find_marker(lines: &Vec<String>, marker: &str) -> (at: Option<usize>)
    ensures
        match at {
            Some(i) => i < lines.len() && first_marked(texts(lines@), marker@) == Some(i as int),
            None => first_marked(texts(lines@), marker@) is None,
        },
{
    let ghost all = texts(lines@);
    let mut i: usize = 0;
    while i < lines.len()
        invariant
            i <= lines.len(),
            all == texts(lines@),
            forall|j: int| 0 <= j < i ==> !occurs_in(marker@, #[trigger] all[j]),
        decreases lines.len() - i,
    {
        if contains_text(lines[i].as_str(), marker) {
            proof {
                assert(all[i as int] == lines@[i as int]@);
                lemma_first_marked(all, marker@);
            }
            return Some(i);
        }
        assert(all[i as int] == lines@[i as int]@);
        i += 1;
    }
    proof {
        lemma_first_marked(all, marker@);
    }
    None
}

/// Adds `new_line` directly after the first line that holds `marker`.
///
/// Where no line holds the marker the lines are left as they were and the
/// error is [`EpubError::MarkerNotFound`].
pub fn insert_after_marker(lines: &mut Vec<String>, marker: &str, new_line: String) -> (res: Result<
    (),
    EpubError,
>)
    ensures
        match with_line_after_marker(texts(old(lines)@), marker@, new_line@) {
            Some(edited) => res is Ok && texts(final(lines)@) == edited,
            None => res == Err::<(), EpubError>(EpubError::MarkerNotFound) && final(lines)@ == old(
                lines,
            )@,
        },
        res is Ok ==> final(lines)@.len() == old(lines)@.len() + 1,
{
    match find_marker(lines, marker) {
        None => Err(EpubError::MarkerNotFound),
        Some(i) => {
            let ghost before = lines@;
            lines.insert(i + 1, new_line);
            assert(texts(lines@) =~= texts(before).insert(i + 1, new_line@));
            Ok(())
        },
    }
}

/// With exactly one line that holds the marker, at index `i`, the edit
/// gives one line more, the new line at index `i + 1`, and every other line
/// where it was relative to the others.
pub proof fn lemma_insert_after_single_marker(
    lines: Seq<Seq<char>>,
    marker: Seq<char>,
    new_line: Seq<char>,
    i: int,
)
    requires
        0 <= i < lines.len(),
        occurs_in(marker, lines[i]),
        forall|j: int| 0 <= j < lines.len() && j != i ==> !occurs_in(marker, #[trigger] lines[j]),
    ensures
        with_line_after_marker(lines, marker, new_line) matches Some(edited) && {
            &&& edited.len() == lines.len() + 1
            &&& edited[i + 1] == new_line
            &&& edited.remove(i + 1) == lines
            &&& forall|j: int| 0 <= j <= i ==> edited[j] == lines[j]
            &&& forall|j: int| i < j < lines.len() ==> edited[j + 1] == lines[j]
        },
{
    lemma_first_marked(lines, marker);
    let edited = lines.insert(i + 1, new_line);
    assert(edited.remove(i + 1) =~= lines);
}

/// Without a line that holds the marker there is no edited manifest.
pub proof fn lemma_no_marker_no_edit(lines: Seq<Seq<char>>, marker: Seq<char>, new_line: Seq<char>)
    requires
        forall|j: int| 0 <= j < lines.len() ==> !occurs_in(marker, #[trigger] lines[j]),
    ensures
        with_line_after_marker(lines, marker, new_line) is None,
{
    lemma_first_marked(lines, marker);
}

/// Length of the part of `bytes` that precedes its first line feed (all of
/// it when it has none).
pub open spec fn line_len(bytes: Seq<u8>) -> int
    decreases bytes.len(),
{
    if bytes.len() == 0 || bytes[0] == 0x0Au8 {
        0
    } else {
        1 + line_len(bytes.skip(1))
    }
}

/// A line without the carriage return that closes it, if it has one.
pub open spec fn without_return(line: Seq<u8>) -> Seq<u8> {
    if line.len() > 0 && line.last() == 0x0Du8 {
        line.drop_last()
    } else {
        line
    }
}

/// The lines of `bytes`: each ends at a line feed, which is left out
/// together with a carriage return before it; what follows the last line
/// feed is a line too, unless it is empty.
pub open spec fn raw_lines(bytes: Seq<u8>) -> Seq<Seq<u8>>
    decreases bytes.len(),
{
    let k = line_len(bytes);
    if bytes.len() == 0 {
        Seq::empty()
    } else if 0 <= k < bytes.len() {
        seq![without_return(bytes.take(k))] + raw_lines(bytes.skip(k + 1))
    } else {
        seq![bytes]
    }
}

/// The lines that are valid UTF-8, as text and in their order; the others
/// are left out.
pub open spec fn text_lines(raw: Seq<Seq<u8>>) -> Seq<Seq<char>>
    decreases raw.len(),
{
    if raw.len() == 0 {
        Seq::empty()
    } else if valid_utf8(raw.last()) {
        text_lines(raw.drop_last()).push(decode_utf8(raw.last()))
    } else {
        text_lines(raw.drop_last())
    }
}

/// The bytes of the lines, each followed by a line feed.
pub open spec fn rendered(lines: Seq<Seq<char>>) -> Seq<u8>
    decreases lines.len(),
{
    if lines.len() == 0 {
        Seq::empty()
    } else {
        rendered(lines.drop_last()) + encode_utf8(lines.last()) + seq![0x0Au8]
    }
}

/// The byte sequences of a list of byte vectors.
pub open spec fn byte_lines(lines: Seq<Vec<u8>>) -> Seq<Seq<u8>> {
    lines.map_values(|l: Vec<u8>| l@)
}

/// A position with no line feed before it that is the end of the bytes or a
/// line feed is where the first line ends.
proof fn lemma_line_len(bytes: Seq<u8>, k: int)
    requires
        0 <= k <= bytes.len(),
        forall|j: int| 0 <= j < k ==> bytes[j] != 0x0Au8,
        k < bytes.len() ==> bytes[k] == 0x0Au8,
    ensures
        line_len(bytes) == k,
    decreases bytes.len(),
{
    if k > 0 {
        let rest = bytes.skip(1);
        assert forall|j: int| 0 <= j < k - 1 implies rest[j] != 0x0Au8 by {
            assert(rest[j] == bytes[j + 1]);
        }
        lemma_line_len(rest, k - 1);
    }
}

/// Splits bytes into lines at line feeds.
pub fn split_lines(bytes: &[u8]) -> (lines: Vec<Vec<u8>>)
    ensures
        byte_lines(lines@) == raw_lines(bytes@),
{
    let mut lines: Vec<Vec<u8>> = Vec::new();
    let mut start: usize = 0;
    assert(bytes@.skip(0) =~= bytes@);
    assert(byte_lines(lines@) =~= Seq::<Seq<u8>>::empty());
    while start < bytes.len()
        invariant
            start <= bytes.len(),
            raw_lines(bytes@) == byte_lines(lines@) + raw_lines(bytes@.skip(start as int)),
        decreases bytes.len() - start,
    {
        let ghost rest = bytes@.skip(start as int);
        let ghost before = lines@;
        let mut end: usize = start;
        while end < bytes.len() && bytes[end] != 0x0Au8
            invariant
                start <= end <= bytes.len(),
                forall|j: int| start <= j < end ==> bytes@[j] != 0x0Au8,
            decreases bytes.len() - end,
        {
            end += 1;
        }
        proof {
            assert forall|j: int| 0 <= j < end - start implies rest[j] != 0x0Au8 by {
                assert(rest[j] == bytes@[start + j]);
            }
            lemma_line_len(rest, end - start);
        }
        if end == bytes.len() {
            lines.push(slice_to_vec(slice_subrange(bytes, start, end)));
            proof {
                assert(bytes@.subrange(start as int, end as int) =~= rest);
                assert(bytes@.skip(end as int).len() == 0);
                assert(byte_lines(lines@) =~= byte_lines(before).push(rest));
                assert(byte_lines(before) + seq![rest] + raw_lines(bytes@.skip(end as int))
                    =~= byte_lines(lines@));
            }
            start = end;
        } else {
            let stop = if end > start && bytes[end - 1] == 0x0Du8 {
                end - 1
            } else {
                end
            };
            lines.push(slice_to_vec(slice_subrange(bytes, start, stop)));
            proof {
                let line = rest.take(end - start);
                assert(bytes@.subrange(start as int, end as int) =~= line);
                if end > start {
                    assert(line.last() == bytes@[end - 1]);
                }
                assert(bytes@.subrange(start as int, stop as int) =~= without_return(line));
                assert(rest.skip(end - start + 1) =~= bytes@.skip(end + 1));
                assert(byte_lines(lines@) =~= byte_lines(before).push(without_return(line)));
                assert(byte_lines(before) + (seq![without_return(line)] + raw_lines(
                    bytes@.skip(end + 1),
                )) =~= byte_lines(lines@) + raw_lines(bytes@.skip(end + 1)));
            }
            start = end + 1;
        }
    }
    assert(byte_lines(lines@) + raw_lines(bytes@.skip(start as int)) =~= byte_lines(lines@));
    lines
}

/// Loads a manifest: its lines as text, in their order. A line that is not
/// valid UTF-8 is left out.
pub fn load_lines(bytes: &[u8]) -> (lines: Vec<String>)
    ensures
        texts(lines@) == text_lines(raw_lines(bytes@)),
{
    let mut raw = split_lines(bytes);
    let ghost all = byte_lines(raw@);
    let count = raw.len();
    let mut lines: Vec<String> = Vec::new();
    let mut index: usize = 0;
    assert(all.take(0) =~= Seq::<Seq<u8>>::empty());
    assert(texts(lines@) =~= Seq::<Seq<char>>::empty());
    while index < count
        invariant
            index <= count,
            count == raw.len(),
            all.len() == count,
            forall|j: int| index <= j < count ==> (#[trigger] raw@[j])@ == all[j],
            texts(lines@) == text_lines(all.take(index as int)),
        decreases count - index,
    {
        let ghost before = lines@;
        let mut line: Vec<u8> = Vec::new();
        std::mem::swap(&mut line, &mut raw[index]);
        proof {
            assert(all.take(index + 1).drop_last() =~= all.take(index as int));
            assert(all.take(index + 1).last() == line@);
        }
        match text_of(line) {
            Some(text) => {
                proof {
                    vstd::utf8::encode_utf8_decode_utf8(text@);
                }
                lines.push(text);
                assert(texts(lines@) =~= texts(before).push(text@));
            },
            None => {},
        }
        index += 1;
    }
    assert(all.take(count as int) =~= all);
    lines
}

/// Writes a manifest: the bytes of its lines, each followed by a line feed.
pub fn render_lines(lines: &Vec<String>) -> (bytes: Vec<u8>)
    ensures
        bytes@ == rendered(texts(lines@)),
{
    let ghost all = texts(lines@);
    let mut bytes: Vec<u8> = Vec::new();
    let mut index: usize = 0;
    assert(all.take(0) =~= Seq::<Seq<char>>::empty());
    while index < lines.len()
        invariant
            index <= lines.len(),
            all == texts(lines@),
            bytes@ == rendered(all.take(index as int)),
        decreases lines.len() - index,
    {
        proof {
            assert(all.take(index + 1).drop_last() =~= all.take(index as int));
            assert(all.take(index + 1).last() == lines@[index as int]@);
        }
        let mut piece = slice_to_vec(lines[index].as_str().as_bytes());
        bytes.append(&mut piece);
        bytes.push(0x0Au8);
        index += 1;
    }
    assert(all.take(index as int) =~= all);
    bytes
}

/// The manifest in `bytes` with the declaration of a cover image of the
/// given media subtype added after the line that opens the manifest; nothing
/// where no line opens it.
pub open spec fn edited_manifest(bytes: Seq<u8>, subtype: Seq<char>) -> Option<Seq<u8>> {
    match with_line_after_marker(
        text_lines(raw_lines(bytes)),
        MARKER@,
        declaration_text(subtype),
    ) {
        Some(lines) => Some(rendered(lines)),
        None => None,
    }
}

/// Edits a manifest: loads its lines, adds the cover declaration after the
/// first line that holds `<manifest>`, and writes the lines back.
///
/// Where no line holds the marker nothing is produced and the error is
/// [`EpubError::MarkerNotFound`].
pub fn edit_manifest(bytes: &[u8], subtype: &str) -> (res: Result<Vec<u8>, EpubError>)
    ensures
        match edited_manifest(bytes@, subtype@) {
            Some(edited) => res matches Ok(out) && out@ == edited,
            None => res matches Err(e) && e == EpubError::MarkerNotFound,
        },
{
    let mut lines = load_lines(bytes);
    match insert_after_marker(&mut lines, MARKER, cover_declaration(subtype)) {
        Ok(()) => Ok(render_lines(&lines)),
        Err(e) => Err(e),
    }
}

/// A line that comes back as it is when it is written and loaded again: it
/// holds no line feed and does not end in a carriage return.
pub open spec fn plain_line(line: Seq<char>) -> bool {
    !line.contains('\n') && !(line.len() > 0 && line.last() == '\r')
}

/// The encodings of a list of lines.
pub open spec fn encoded(lines: Seq<Seq<char>>) -> Seq<Seq<u8>> {
    lines.map_values(|l: Seq<char>| encode_utf8(l))
}

/// The encoding of a character is the character itself where it is a line
/// feed or a carriage return, and holds neither of the two bytes otherwise.
proof fn lemma_encoded_scalar(c: char)
    ensures
        encode_scalar(c as u32).len() >= 1,
        forall|j: int|
            0 <= j < encode_scalar(c as u32).len() ==> (#[trigger] encode_scalar(c as u32)[j]
                == 0x0Au8 ==> c == '\n'),
        encode_scalar(c as u32).last() == 0x0Du8 ==> c == '\r',
{
    let u = c as u32;
    let e = encode_scalar(u);
    if has_width_1_encoding(u) {
        assert((u & 0x7F) as u8 == 0x0Au8 ==> u == 0x0Au32) by (bit_vector)
            requires
                u <= 0x7Fu32,
        ;
        assert((u & 0x7F) as u8 == 0x0Du8 ==> u == 0x0Du32) by (bit_vector)
            requires
                u <= 0x7Fu32,
        ;
        assert(e[0] == (u & 0x7F) as u8);
    } else {
        assert((0xC0u8 | ((u >> 6) & 0x1F) as u8) >= 0x80u8) by (bit_vector);
        assert((0xE0u8 | ((u >> 12) & 0x0F) as u8) >= 0x80u8) by (bit_vector);
        assert((0xF0u8 | ((u >> 18) & 0x7) as u8) >= 0x80u8) by (bit_vector);
        assert((0x80u8 | (u & 0x3F) as u8) >= 0x80u8) by (bit_vector);
        assert((0x80u8 | ((u >> 6) & 0x3F) as u8) >= 0x80u8) by (bit_vector);
        assert((0x80u8 | ((u >> 12) & 0x3F) as u8) >= 0x80u8) by (bit_vector);
        assert forall|j: int| 0 <= j < e.len() implies #[trigger] e[j] >= 0x80u8 by {}
    }
}

/// The encoding of a line holds a line feed only where the line does, and
/// ends in a carriage return only where the line does.
pub proof fn lemma_encoded_line(line: Seq<char>)
    ensures
        line.len() == 0 ==> encode_utf8(line).len() == 0,
        line.len() > 0 ==> encode_utf8(line).len() > 0,
        !line.contains('\n') ==> !encode_utf8(line).contains(0x0Au8),
        line.len() > 0 && encode_utf8(line).last() == 0x0Du8 ==> line.last() == '\r',
    decreases line.len(),
{
    if line.len() > 0 {
        let c = line[0];
        let rest = line.drop_first();
        let head = encode_scalar(c as u32);
        let bytes = encode_utf8(line);
        lemma_encoded_scalar(c);
        lemma_encoded_line(rest);
        assert(bytes == head + encode_utf8(rest));
        if !line.contains('\n') {
            assert(c != '\n');
            assert(!rest.contains('\n')) by {
                if rest.contains('\n') {
                    let i = choose|i: int| 0 <= i < rest.len() && rest[i] == '\n';
                    assert(line[i + 1] == '\n');
                }
            }
            assert forall|j: int| 0 <= j < bytes.len() implies bytes[j] != 0x0Au8 by {
                if j < head.len() {
                    assert(bytes[j] == head[j]);
                } else {
                    assert(bytes[j] == encode_utf8(rest)[j - head.len()]);
                }
            }
        }
        if rest.len() > 0 {
            assert(bytes.last() == encode_utf8(rest).last());
            assert(line.last() == rest.last());
        } else {
            assert(bytes =~= head);
        }
    }
}

/// What is rendered of a list of lines is the first line with its line feed,
/// then what is rendered of the others.
proof fn lemma_rendered_from_the_front(line: Seq<char>, others: Seq<Seq<char>>)
    ensures
        rendered(seq![line] + others) == encode_utf8(line) + seq![0x0Au8] + rendered(others),
    decreases others.len(),
{
    let all = seq![line] + others;
    if others.len() == 0 {
        assert(all.drop_last() =~= others);
        assert(all.last() == line);
        assert(rendered(others) =~= Seq::<u8>::empty());
        assert(rendered(all) == rendered(all.drop_last()) + encode_utf8(all.last()) + seq![0x0Au8]);
        assert(rendered(all) =~= encode_utf8(line) + seq![0x0Au8] + rendered(others));
    } else {
        assert(all.drop_last() =~= seq![line] + others.drop_last());
        assert(all.last() == others.last());
        lemma_rendered_from_the_front(line, others.drop_last());
        assert(rendered(all) =~= encode_utf8(line) + seq![0x0Au8] + rendered(others));
    }
}

/// Splitting what was rendered of plain lines gives the encodings of the
/// lines.
proof fn lemma_split_of_rendered(lines: Seq<Seq<char>>)
    requires
        forall|i: int| 0 <= i < lines.len() ==> plain_line(#[trigger] lines[i]),
    ensures
        raw_lines(rendered(lines)) == encoded(lines),
    decreases lines.len(),
{
    if lines.len() == 0 {
        assert(encoded(lines) =~= Seq::<Seq<u8>>::empty());
    } else {
        let line = lines[0];
        let others = lines.skip(1);
        let head = encode_utf8(line);
        let bytes = rendered(lines);
        assert(lines =~= seq![line] + others);
        lemma_rendered_from_the_front(line, others);
        assert(plain_line(line));
        lemma_encoded_line(line);
        assert forall|i: int| 0 <= i < others.len() implies plain_line(#[trigger] others[i]) by {
            assert(others[i] == lines[i + 1]);
        }
        lemma_split_of_rendered(others);
        let k = head.len() as int;
        assert forall|j: int| 0 <= j < k implies bytes[j] != 0x0Au8 by {
            assert(bytes[j] == head[j]);
        }
        assert(bytes[k] == 0x0Au8);
        lemma_line_len(bytes, k);
        assert(bytes.take(k) =~= head);
        assert(bytes.skip(k + 1) =~= rendered(others));
        assert(without_return(head) == head);
        assert(encoded(lines) =~= seq![head] + encoded(others));
    }
}

/// The text of the encodings of lines is the lines.
proof fn lemma_text_of_encoded(lines: Seq<Seq<char>>)
    ensures
        text_lines(encoded(lines)) == lines,
    decreases lines.len(),
{
    if lines.len() == 0 {
        assert(encoded(lines) =~= Seq::<Seq<u8>>::empty());
        assert(text_lines(encoded(lines)) =~= lines);
    } else {
        let raw = encoded(lines);
        assert(raw.drop_last() =~= encoded(lines.drop_last()));
        assert(raw.last() == encode_utf8(lines.last()));
        lemma_text_of_encoded(lines.drop_last());
        vstd::utf8::encode_utf8_valid_utf8(lines.last());
        vstd::utf8::encode_utf8_decode_utf8(lines.last());
        assert(text_lines(raw) =~= lines);
    }
}

/// A manifest that is written and loaded again is the manifest that was
/// written: loading what [`render_lines`] makes of plain lines gives the
/// lines back, each in its place.
pub proof fn lemma_load_gives_back_what_was_rendered(lines: Seq<Seq<char>>)
    requires
        forall|i: int| 0 <= i < lines.len() ==> plain_line(#[trigger] lines[i]),
    ensures
        text_lines(raw_lines(rendered(lines))) == lines,
{
    lemma_split_of_rendered(lines);
    lemma_text_of_encoded(lines);
}

/// The declaration of a cover image is a plain line where the media
/// subtype holds no line feed.
pub proof fn lemma_declaration_is_plain(subtype: Seq<char>)
    requires
        !subtype.contains('\n'),
    ensures
        plain_line(declaration_text(subtype)),
{
    reveal_strlit("<item properties=\"cover-image\" id=\"my-cover-image\" href=\"cover.");
    reveal_strlit("\" media-type=\"image/");
    reveal_strlit("\"/>");
    let head = DECLARATION_HEAD@;
    let middle = DECLARATION_MIDDLE@;
    let tail = DECLARATION_TAIL@;
    let line = declaration_text(subtype);
    assert(line.last() == tail[2]);
    assert forall|i: int| 0 <= i < line.len() implies line[i] != '\n' by {
        if i < head.len() {
            assert(line[i] == head[i]);
        } else if i < head.len() + subtype.len() {
            assert(line[i] == subtype[i - head.len()]);
        } else if i < head.len() + subtype.len() + middle.len() {
            assert(line[i] == middle[i - head.len() - subtype.len()]);
        } else if i < head.len() + subtype.len() + middle.len() + subtype.len() {
            assert(line[i] == subtype[i - head.len() - subtype.len() - middle.len()]);
        } else {
            assert(line[i] == tail[i - head.len() - subtype.len() - middle.len() - subtype.len()]);
        }
    }
}

/// The encoding of a line that holds a line feed holds the byte of one.
proof fn lemma_line_feed_is_encoded(line: Seq<char>)
    requires
        line.contains('\n'),
    ensures
        encode_utf8(line).contains(0x0Au8),
    decreases line.len(),
{
    let c = line[0];
    let rest = line.drop_first();
    let head = encode_scalar(c as u32);
    let bytes = encode_utf8(line);
    assert(bytes == head + encode_utf8(rest));
    lemma_encoded_scalar(c);
    if c == '\n' {
        let u = c as u32;
        assert((u & 0x7F) as u8 == 0x0Au8) by (bit_vector)
            requires
                u == 0x0Au32,
        ;
        assert(head[0] == 0x0Au8);
        assert(bytes[0] == head[0]);
    } else {
        let i = choose|i: int| 0 <= i < line.len() && line[i] == '\n';
        assert(rest[i - 1] == '\n');
        lemma_line_feed_is_encoded(rest);
        let j = choose|j: int| 0 <= j < encode_utf8(rest).len() && encode_utf8(rest)[j] == 0x0Au8;
        assert(bytes[head.len() + j] == 0x0Au8);
    }
}

/// `line_len` lies within the bytes, crosses no line feed and stops at one.
proof fn lemma_line_len_stops(bytes: Seq<u8>)
    ensures
        0 <= line_len(bytes) <= bytes.len(),
        forall|j: int| 0 <= j < line_len(bytes) ==> bytes[j] != 0x0Au8,
        line_len(bytes) < bytes.len() ==> bytes[line_len(bytes)] == 0x0Au8,
    decreases bytes.len(),
{
    if bytes.len() > 0 && bytes[0] != 0x0Au8 {
        let rest = bytes.skip(1);
        lemma_line_len_stops(rest);
        assert forall|j: int| 0 <= j < line_len(bytes) implies bytes[j] != 0x0Au8 by {
            if j > 0 {
                assert(bytes[j] == rest[j - 1]);
            }
        }
        if line_len(bytes) < bytes.len() {
            assert(bytes[line_len(bytes)] == rest[line_len(rest)]);
        }
    }
}

/// No line that bytes are split into holds a line feed.
proof fn lemma_raw_lines_hold_no_line_feed(bytes: Seq<u8>)
    ensures
        forall|k: int|
            0 <= k < raw_lines(bytes).len() ==> !(#[trigger] raw_lines(bytes)[k]).contains(0x0Au8),
    decreases bytes.len(),
{
    lemma_line_len_stops(bytes);
    let n = line_len(bytes);
    if bytes.len() == 0 {
    } else if n < bytes.len() {
        let first = without_return(bytes.take(n));
        let others = raw_lines(bytes.skip(n + 1));
        lemma_raw_lines_hold_no_line_feed(bytes.skip(n + 1));
        assert(raw_lines(bytes) == seq![first] + others);
        assert forall|j: int| 0 <= j < first.len() implies first[j] != 0x0Au8 by {
            assert(first[j] == bytes[j]);
        }
        assert forall|k: int| 0 <= k < raw_lines(bytes).len() implies !(#[trigger] raw_lines(
            bytes,
        )[k]).contains(0x0Au8) by {
            if k > 0 {
                assert(raw_lines(bytes)[k] == others[k - 1]);
            }
        }
    } else {
        assert(raw_lines(bytes) == seq![bytes]);
    }
}

/// Every line of text comes from one of the lines of bytes, which is valid
/// UTF-8 and of which it is the text.
proof fn lemma_text_line_has_a_source(raw: Seq<Seq<u8>>, i: int) -> (j: int)
    requires
        0 <= i < text_lines(raw).len(),
    ensures
        0 <= j < raw.len(),
        valid_utf8(raw[j]),
        text_lines(raw)[i] == decode_utf8(raw[j]),
    decreases raw.len(),
{
    let front = raw.drop_last();
    if valid_utf8(raw.last()) && i == text_lines(front).len() {
        raw.len() - 1
    } else {
        let j = lemma_text_line_has_a_source(front, i);
        assert(front[j] == raw[j]);
        j
    }
}

/// No line that is loaded from bytes holds a line feed.
pub proof fn lemma_loaded_lines_hold_no_line_feed(bytes: Seq<u8>)
    ensures
        forall|i: int|
            0 <= i < text_lines(raw_lines(bytes)).len() ==> !(#[trigger] text_lines(
                raw_lines(bytes),
            )[i]).contains('\n'),
{
    let raw = raw_lines(bytes);
    lemma_raw_lines_hold_no_line_feed(bytes);
    assert forall|i: int| 0 <= i < text_lines(raw).len() implies !(#[trigger] text_lines(
        raw,
    )[i]).contains('\n') by {
        let j = lemma_text_line_has_a_source(raw, i);
        let line = text_lines(raw)[i];
        if line.contains('\n') {
            lemma_line_feed_is_encoded(line);
            vstd::utf8::decode_utf8_encode_utf8(raw[j]);
            assert(encode_utf8(line) == raw[j]);
        }
    }
}

/// A line does not end in a carriage return.
pub open spec fn ends_plainly(line: Seq<char>) -> bool {
    !(line.len() > 0 && line.last() == '\r')
}

/// Loading a manifest that [`edit_manifest`] has written gives the lines of
/// the manifest it was given with the declaration in its place, directly
/// after the first line that holds the marker, where none of those lines
/// ends in a carriage return and the media subtype holds no line feed.
pub proof fn lemma_saved_manifest_holds_the_declaration(bytes: Seq<u8>, subtype: Seq<char>)
    requires
        forall|i: int|
            0 <= i < text_lines(raw_lines(bytes)).len() ==> ends_plainly(
                #[trigger] text_lines(raw_lines(bytes))[i],
            ),
        !subtype.contains('\n'),
    ensures
        match with_line_after_marker(
            text_lines(raw_lines(bytes)),
            MARKER@,
            declaration_text(subtype),
        ) {
            Some(lines) => edited_manifest(bytes, subtype) matches Some(saved) && text_lines(
                raw_lines(saved),
            ) == lines,
            None => edited_manifest(bytes, subtype) is None,
        },
{
    let loaded = text_lines(raw_lines(bytes));
    let added = declaration_text(subtype);
    lemma_first_marked(loaded, MARKER@);
    lemma_declaration_is_plain(subtype);
    lemma_loaded_lines_hold_no_line_feed(bytes);
    match first_marked(loaded, MARKER@) {
        Some(i) => {
            let lines = loaded.insert(i + 1, added);
            assert forall|j: int| 0 <= j < lines.len() implies plain_line(#[trigger] lines[j]) by {
                if j <= i {
                    assert(lines[j] == loaded[j]);
                    assert(ends_plainly(loaded[j]));
                } else if j > i + 1 {
                    assert(lines[j] == loaded[j - 1]);
                    assert(ends_plainly(loaded[j - 1]));
                }
            }
            lemma_load_gives_back_what_was_rendered(lines);
        },
        None => {},
    }
}

} // verus!
