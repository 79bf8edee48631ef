//! One file held in an archive: its name, its declared size and its content,
//! and what can be shown of it before extraction.

use vstd::prelude::*;
use vstd::utf8::*;

verus! {

/// A file held in an archive: its name (without a directory part), the size
/// declared for it, and its content.
///
/// The name is kept as raw bytes, as it is stored in the archive: a run of
/// bytes ended by a NUL.
#[derive(Debug, Default)]
pub struct FileRecord {
    /// The name of the file, without the terminating NUL.
    pub filename: Vec<u8>,
    /// The size of the file as it was recorded (the length of its content,
    /// when the record was made from a file that did not change meanwhile).
    pub size: u64,
    /// The bytes of the file.
    pub content: Vec<u8>,
}

/// What a [`FileRecord`] holds, as plain values.
pub struct RecordView {
    pub filename: Seq<u8>,
    pub size: u64,
    pub content: Seq<u8>,
}

impl View for FileRecord {
    type V = RecordView;

    open spec fn view(&self) -> RecordView {
        RecordView { filename: self.filename@, size: self.size, content: self.content@ }
    }
}

/// Preview of a [`FileRecord`]'s contents.
pub enum Preview {
    /// The contents (or the previewed part of them) are text. `truncated`
    /// tells whether the preview leaves part of the contents out.
    String { preview: String, truncated: bool },
    /// The contents are not text.
    Data,
}

/// What a [`Preview`] holds, as plain values.
pub enum PreviewView {
    Text { text: Seq<char>, truncated: bool },
    Data,
}

impl View for Preview {
    type V = PreviewView;

    open spec fn view(&self) -> PreviewView {
        match self {
            Preview::String { preview, truncated } => PreviewView::Text {
                text: preview@,
                truncated: *truncated,
            },
            Preview::Data => PreviewView::Data,
        }
    }
}

/// The number of bytes a `char` occupies, which is also the longest UTF-8
/// encoding of one character: the preview backs off at most this many bytes
/// while looking for a text prefix.
pub open spec fn char_width() -> int {
    4
}

/// The preview found by trying the prefixes of `content` of length `n - i`,
/// `n - i - 1`, ... while fewer than [`char_width`] bytes were cut off.
/// `truncated` says whether what was tried so far already leaves bytes out.
/// When the part looked at is not empty, its empty prefix does not count as
/// text: contents none of whose non-empty prefixes tried is text are `Data`.
pub open spec fn preview_from(content: Seq<u8>, n: int, i: int, truncated: bool) -> PreviewView
    decreases char_width() - i,
{
    if i >= char_width() || i > n || (i == n && n > 0) {
        PreviewView::Data
    } else if valid_utf8(content.take(n - i)) {
        PreviewView::Text { text: decode_utf8(content.take(n - i)), truncated }
    } else {
        preview_from(content, n, i + 1, true)
    }
}

/// How many bytes of a record of `record_size` bytes a preview of at most
/// `size` bytes looks at.
pub open spec fn preview_len(record_size: u64, size: u64) -> u64 {
    if record_size > size {
        size
    } else {
        record_size
    }
}

/// The preview of a record of at most `size` bytes: none for an empty
/// record; otherwise the longest text prefix of the first `min(size,
/// record.size)` bytes that cuts off fewer than [`char_width`] of them and is
/// not empty (unless nothing at all is looked at), or `Data` where there is no
/// such prefix.
pub open spec fn preview_spec(record: RecordView, size: u64) -> Option<PreviewView> {
    if record.size == 0 {
        None
    } else {
        Some(preview_from(record.content, preview_len(record.size, size) as int, 0, record.size > size))
    }
}

/// The text that shows a preview in a listing: the preview text, followed by
/// `...` where it is truncated; `<data>` for contents that are not text, and
/// `<empty>` for an empty record.
pub open spec fn preview_label_spec(preview: Option<PreviewView>) -> Seq<char> {
    match preview {
        Some(PreviewView::Text { text, truncated }) => if truncated {
            text + "..."@
        } else {
            text
        },
        Some(PreviewView::Data) => "<data>"@,
        None => "<empty>"@,
    }
}

/// Decodes `bytes` as UTF-8, calling `std::str::from_utf8`.
///
/// Trusted: the result is `Some` exactly when the bytes are well-formed UTF-8
/// (as `vstd::utf8::valid_utf8` defines it), and then holds the characters
/// they encode.
#[verifier::external_body]
fn decode_text(bytes: &[u8]) -> (text: Option<String>)
    ensures
        text is Some <==> valid_utf8(bytes@),
        text matches Some(s) ==> s@ == decode_utf8(bytes@),
{
    match std::str::from_utf8(bytes) {
        Ok(s) => Some(String::from(s)),
        Err(_) => None,
    }
}

/// The text that `binrw::NullString`'s `Display` shows for a name made of
/// `bytes`.
pub uninterp spec fn null_string_text(bytes: Seq<u8>) -> Seq<char>;

/// The text of a record's name: the characters it encodes where it is
/// well-formed UTF-8, otherwise what `binrw::NullString`'s `Display` shows.
pub open spec fn record_name_text(bytes: Seq<u8>) -> Seq<char> {
    if valid_utf8(bytes) {
        decode_utf8(bytes)
    } else {
        null_string_text(bytes)
    }
}

/// The name of a record as text, through `binrw::NullString`'s `Display`.
///
/// Trusted: the text depends on the bytes alone; for well-formed UTF-8 it is
/// exactly the characters the bytes encode. What it is for other bytes (each
/// ill-formed sequence shown as U+FFFD) is left unsaid.
#[verifier::external_body]
pub(crate) fn name_text(bytes: &[u8]) -> (text: String)
    ensures
        text@ == null_string_text(bytes@),
        valid_utf8(bytes@) ==> text@ == decode_utf8(bytes@),
{
    binrw::NullString(bytes.to_vec()).to_string()
}

impl FileRecord {
    /// Whether the record's name is well-formed UTF-8.
    pub fn filename_is_text(&self) -> (is_text: bool)
        ensures
            is_text == valid_utf8(self.filename@),
    {
        decode_text(self.filename.as_slice()).is_some()
    }

    /// The record's name as text.
    pub fn filename_text(&self) -> (text: String)
        ensures
            text@ == record_name_text(self.filename@),
            text@ == null_string_text(self.filename@),
    {
        name_text(self.filename.as_slice())
    }

    /// Preview the contents of a [`FileRecord`]. If the record's contents
    /// are empty, [`None`] is returned. Otherwise, a [`Preview`] is returned.
    ///
    /// A text preview holds the first `size` bytes of the contents (all of
    /// them if there are fewer), cut back by up to three bytes where that is
    /// needed to end on a whole UTF-8 character. Where no non-empty part of
    /// those bytes is text, the contents are not textual: [`Preview::Data`].
    pub fn preview(&self, size: u64) -> (preview: Option<Preview>)
        requires
            self.size != 0 ==> preview_len(self.size, size) <= self.content@.len(),
        ensures
            preview is None <==> preview_spec(self@, size) is None,
            preview matches Some(p) ==> preview_spec(self@, size) == Some(p@),
    {
        if self.size == 0 {
            return None;
        }
        let mut truncated = self.size > size;
        let n: u64 = if truncated {
            size
        } else {
            self.size
        };
        assert(n == preview_len(self.size, size));
        let available = self.content.len();
        assert(n <= available);
        let n: usize = n as usize;
        let ghost first_truncated = truncated;
        let content = self.content.as_slice();
        let width: usize = core::mem::size_of::<char>();
        proof {
            broadcast use vstd::layout::layout_of_primitives;

            assert(vstd::layout::size_of::<char>() == 4);
        }
        let mut i: usize = 0;
        while i < width
            invariant
                width == char_width(),
                i <= n,
                i <= width,
                n <= content@.len(),
                content@ == self.content@,
                self.size != 0,
                n == preview_len(self.size, size),
                i > 0 ==> truncated,
                i == 0 ==> truncated == first_truncated,
                first_truncated == (self.size > size),
                preview_from(content@, n as int, 0, first_truncated) == preview_from(
                    content@,
                    n as int,
                    i as int,
                    truncated,
                ),
            ensures
                preview_from(content@, n as int, 0, first_truncated) == PreviewView::Data,
            decreases width - i,
        {
            if i == n && n > 0 {
                // Only the empty prefix is left: the contents are not text.
                break;
            }
            let prefix = &content[0..n - i];
            assert(prefix@ == content@.take(n - i));
            match decode_text(prefix) {
                Some(text) => {
                    return Some(Preview::String { preview: text, truncated });
                },
                None => {},
            }
            assert(n - i != 0) by {
                if n - i == 0 {
                    assert(content@.take(0) =~= Seq::<u8>::empty());
                }
            }
            truncated = true;
            i = i + 1;
        }
        Some(Preview::Data)
    }

    /// The text that a listing of the archive shows as this record's
    /// preview: see [`preview_label_spec`].
    pub fn preview_label(&self, size: u64) -> (label: String)
        requires
            self.size != 0 ==> preview_len(self.size, size) <= self.content@.len(),
        ensures
            label@ == preview_label_spec(preview_spec(self@, size)),
    {
        match self.preview(size) {
            Some(Preview::String { preview, truncated }) => {
                if truncated {
                    let mut text = preview;
                    text.append("...");
                    text
                } else {
                    preview
                }
            },
            Some(Preview::Data) => String::from_str("<data>"),
            None => String::from_str("<empty>"),
        }
    }
}

/// A step of the search for a text prefix: a text result is the decoding of
/// the longest well-formed prefix of at most `n - i` bytes that cuts off fewer
/// than [`char_width`] of the `n`, and is empty only when `n` is 0.
proof fn lemma_preview_from_text(content: Seq<u8>, n: int, i: int, truncated: bool) -> (m: int)
    requires
        0 <= i,
        n <= content.len(),
        preview_from(content, n, i, truncated) is Text,
    ensures
        n - char_width() < m <= n - i,
        0 <= m,
        m > 0 || n == 0,
        valid_utf8(content.take(m)),
        preview_from(content, n, i, truncated) == (PreviewView::Text {
            text: decode_utf8(content.take(m)),
            truncated: truncated || m < n - i,
        }),
        forall|k: int| m < k <= n - i ==> !valid_utf8(#[trigger] content.take(k)),
    decreases char_width() - i,
{
    if valid_utf8(content.take(n - i)) {
        n - i
    } else {
        let m = lemma_preview_from_text(content, n, i + 1, true);
        m
    }
}

/// A `Data` result means that the part looked at is not empty and none of
/// its non-empty prefixes that cut off fewer than [`char_width`] bytes, from
/// `n - i` down, is well-formed UTF-8.
proof fn lemma_preview_from_data(content: Seq<u8>, n: int, i: int, truncated: bool)
    requires
        0 <= i,
        i <= n,
        n <= content.len(),
        preview_from(content, n, i, truncated) is Data,
    ensures
        n > 0,
        forall|k: int|
            n - char_width() < k <= n - i && 0 < k ==> !valid_utf8(#[trigger] content.take(k)),
    decreases char_width() - i,
{
    if i < char_width() && i < n {
        assert(!valid_utf8(content.take(n - i)));
        lemma_preview_from_data(content, n, i + 1, true);
    } else if i == n && i < char_width() {
        if n == 0 {
            assert(content.take(0) =~= Seq::<u8>::empty());
        }
    }
}

/// A preview is `None` exactly for an empty record.
pub proof fn theorem_preview_none_iff_empty(record: RecordView, size: u64)
    ensures
        preview_spec(record, size) is None <==> record.size == 0,
{
}

/// A text preview is the decoding of the longest well-formed UTF-8 prefix of
/// the contents that is at most `size` bytes long and cuts off fewer than
/// [`char_width`] bytes of the part looked at; it is truncated exactly when
/// that prefix is shorter than the record.
pub proof fn theorem_preview_text(record: RecordView, size: u64, text: Seq<char>, truncated: bool)
    requires
        preview_len(record.size, size) <= record.content.len(),
        preview_spec(record, size) == Some(PreviewView::Text { text, truncated }),
    ensures
        exists|m: int|
            #![trigger record.content.take(m)]
            {
                &&& preview_len(record.size, size) - char_width() < m <= preview_len(
                    record.size,
                    size,
                )
                &&& 0 <= m <= size
                &&& (m > 0 || preview_len(record.size, size) == 0)
                &&& valid_utf8(record.content.take(m))
                &&& text == decode_utf8(record.content.take(m))
                &&& truncated == (m < record.size)
                &&& forall|k: int|
                    m < k <= preview_len(record.size, size) ==> !valid_utf8(
                        #[trigger] record.content.take(k),
                    )
            },
{
    let n = preview_len(record.size, size) as int;
    let m = lemma_preview_from_text(record.content, n, 0, record.size > size);
    assert(record.content.take(m) == record.content.take(m));
}

/// A preview is `Data` only when something is looked at and none of the
/// non-empty prefixes it tries, the part looked at and the three next shorter
/// ones, is well-formed UTF-8.
pub proof fn theorem_preview_data(record: RecordView, size: u64)
    requires
        preview_len(record.size, size) <= record.content.len(),
        preview_spec(record, size) == Some(PreviewView::Data),
    ensures
        preview_len(record.size, size) > 0,
        forall|k: int|
            preview_len(record.size, size) - char_width() < k <= preview_len(record.size, size)
                && 0 < k ==> !valid_utf8(#[trigger] record.content.take(k)),
{
    let n = preview_len(record.size, size) as int;
    lemma_preview_from_data(record.content, n, 0, record.size > size);
}

/// The contents of a record that is well-formed UTF-8 and fits the preview
/// size are previewed whole and untruncated.
pub proof fn theorem_preview_whole_text(record: RecordView, size: u64)
    requires
        0 < record.size <= size,
        record.size == record.content.len(),
        valid_utf8(record.content),
    ensures
        preview_spec(record, size) == Some(
            PreviewView::Text { text: decode_utf8(record.content), truncated: false },
        ),
{
    assert(record.content.take(record.size as int) =~= record.content);
}

/// Of two well-formed UTF-8 byte strings, one a prefix of the other, the
/// text of the shorter is a prefix of the text of the longer.
proof fn lemma_decode_prefix(a: Seq<u8>, c: Seq<u8>)
    requires
        valid_utf8(a),
        valid_utf8(c),
        a.len() <= c.len(),
        a == c.take(a.len() as int),
    ensures
        decode_utf8(a).len() <= decode_utf8(c).len(),
        decode_utf8(c).take(decode_utf8(a).len() as int) == decode_utf8(a),
    decreases a.len(),
{
    if a.len() == 0 {
        assert(decode_utf8(c).take(0) =~= decode_utf8(a));
    } else {
        assert forall|k: int| 0 <= k < a.len() implies a[k] == c[k] by {
            assert(c.take(a.len() as int)[k] == c[k]);
        }
        let l = length_of_first_scalar(a);
        assert(valid_first_scalar(c));
        assert(length_of_first_scalar(c) == l);
        assert(decode_first_scalar(c) == decode_first_scalar(a));
        let pa = pop_first_scalar(a);
        let pc = pop_first_scalar(c);
        assert(pa =~= pc.take(pa.len() as int));
        lemma_decode_prefix(pa, pc);
        let x = seq![decode_first_scalar(a) as char];
        assert(decode_utf8(a) == x + decode_utf8(pa));
        assert(decode_utf8(c) == x + decode_utf8(pc));
        assert(decode_utf8(c).take(decode_utf8(a).len() as int) =~= x + decode_utf8(pc).take(
            decode_utf8(pa).len() as int,
        ));
    }
}

/// Asking for a larger preview never shortens or changes a text preview: the
/// smaller text preview is a prefix of the larger one.
pub proof fn theorem_preview_grows(
    record: RecordView,
    s1: u64,
    s2: u64,
    t1: Seq<char>,
    tr1: bool,
    t2: Seq<char>,
    tr2: bool,
)
    requires
        s1 <= s2,
        preview_len(record.size, s2) <= record.content.len(),
        preview_spec(record, s1) == Some(PreviewView::Text { text: t1, truncated: tr1 }),
        preview_spec(record, s2) == Some(PreviewView::Text { text: t2, truncated: tr2 }),
    ensures
        t1.len() <= t2.len(),
        t2.take(t1.len() as int) == t1,
{
    let n1 = preview_len(record.size, s1) as int;
    let n2 = preview_len(record.size, s2) as int;
    let m1 = lemma_preview_from_text(record.content, n1, 0, record.size > s1);
    let m2 = lemma_preview_from_text(record.content, n2, 0, record.size > s2);
    assert(m1 <= m2) by {
        if m1 > m2 {
            assert(valid_utf8(record.content.take(m1)));
        }
    }
    assert(record.content.take(m1) =~= record.content.take(m2).take(m1));
    lemma_decode_prefix(record.content.take(m1), record.content.take(m2));
}

/// The label of a text preview shows the text itself, followed by `...`
/// exactly when the preview is truncated; the label of contents that are not
/// text is `<data>` and that of an empty record is `<empty>`.
pub proof fn theorem_preview_label_shows_preview(record: RecordView, size: u64)
    ensures
        preview_spec(record, size) matches Some(PreviewView::Text { text, truncated }) ==> {
            let label = preview_label_spec(preview_spec(record, size));
            &&& label.len() == text.len() + (if truncated {
                3int
            } else {
                0int
            })
            &&& label.take(text.len() as int) == text
            &&& forall|k: int|
                text.len() <= k < label.len() ==> #[trigger] label[k] == '.'
        },
        preview_spec(record, size) matches Some(PreviewView::Data) ==> preview_label_spec(
            preview_spec(record, size),
        ) == seq!['<', 'd', 'a', 't', 'a', '>'],
        preview_spec(record, size) is None ==> preview_label_spec(preview_spec(record, size))
            == seq!['<', 'e', 'm', 'p', 't', 'y', '>'],
{
    reveal_strlit("...");
    reveal_strlit("<data>");
    reveal_strlit("<empty>");
    match preview_spec(record, size) {
        Some(PreviewView::Text { text, truncated }) => {
            let label = preview_label_spec(preview_spec(record, size));
            if truncated {
                assert(label == text + "..."@);
                assert(label.take(text.len() as int) =~= text);
                assert forall|k: int| text.len() <= k < label.len() implies #[trigger] label[k]
                    == '.' by {
                    assert(label[k] == "..."@[k - text.len()]);
                }
            } else {
                assert(label.take(text.len() as int) =~= text);
            }
        },
        Some(PreviewView::Data) => {
            assert("<data>"@ =~= seq!['<', 'd', 'a', 't', 'a', '>']);
        },
        None => {
            assert("<empty>"@ =~= seq!['<', 'e', 'm', 'p', 't', 'y', '>']);
        },
    }
}

} // verus!
