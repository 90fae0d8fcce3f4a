//! A streaming parser for a line-oriented geometry description format:
//! vertices (`v`), texture coordinates (`vt`), faces (`f`) and `#` comments,
//! one record per line, handed to an [`Importer`].
use vstd::prelude::*;

pub mod index;
pub mod lex;
pub mod tag;
pub mod text;

pub use crate::index::FaceIndex;
use crate::tag::Tag;
use crate::text::{chars_of, push_char, split_words};

verus! {

/// What an importer asks of the reader after a callback.
#[derive(Clone, Copy, Debug, PartialEq, Eq, Structural)]
pub enum CallbackResult {
    Continue,
    Stop,
}

/// What is wrong with a line.
#[derive(Clone, Copy, Debug, PartialEq, Eq, Structural)]
pub enum ErrorType {
    InvalidName,
    TooManyVertexComponents,
    NotEnoughVertexComponents,
}

/// One line of the input, without its line ending, and its one-based number.
#[derive(Clone, Debug, PartialEq)]
pub struct Line {
    pub text: String,
    pub number: usize,
}

/// A line that could not be read as a record, and why.
#[derive(Clone, Debug, PartialEq)]
pub struct Error {
    pub line: Line,
    pub error: ErrorType,
}

impl Error {
    /// The error `error` on `line`.
    pub fn new(line: Line, error: ErrorType) -> (r: Error)
        ensures
            r.line == line,
            r.error == error,
    {
        Error { line, error }
    }
}

/// The zero-based indices that the words `ws` name, up to the first word
/// that does not read as a one-based index.
pub open spec fn indices_of<I: FaceIndex>(ws: Seq<Seq<char>>) -> Seq<I>
    decreases ws.len(),
{
    if ws.len() == 0 {
        seq![]
    } else {
        match I::index_of(ws[0]) {
            Some(i) => seq![i] + indices_of::<I>(ws.drop_first()),
            None => seq![],
        }
    }
}

/// The vertex indices of a face, decoded one at a time from the words of
/// its line. Decoding ends, silently, at the first word that is not a
/// one-based index.
pub struct ElementIterator<I> {
    words: Vec<String>,
    pos: usize,
    index: std::marker::PhantomData<I>,
}

impl<I: FaceIndex> View for ElementIterator<I> {
    type V = Seq<I>;

    /// The indices still to come.
    closed spec fn view(&self) -> Seq<I> {
        indices_of::<I>(crate::text::texts(self.words@).skip(self.pos as int))
    }
}

impl<I> ElementIterator<I> {
    #[verifier::type_invariant]
    spec fn inv(&self) -> bool {
        self.pos <= self.words.len()
    }
}

impl<I: FaceIndex> ElementIterator<I> {
    /// The next index, or `None` once the indices are exhausted.
    pub fn next(&mut self) -> (r: Option<I>)
        ensures
            old(self)@.len() > 0 ==> r == Some(old(self)@[0]) && final(self)@ == old(self)@.drop_first(),
            old(self)@.len() == 0 ==> r is None && final(self)@.len() == 0,
    {
        proof {
            use_type_invariant(&*self);
        }
        if self.pos < self.words.len() {
            let ghost ws = crate::text::texts(self.words@).skip(self.pos as int);
            assert(ws[0] == self.words@[self.pos as int]@);
            assert(ws.drop_first() =~= crate::text::texts(self.words@).skip(self.pos + 1));
            match I::decode(self.words[self.pos].as_str()) {
                Some(i) => {
                    self.pos = self.pos + 1;
                    Some(i)
                },
                None => {
                    self.pos = self.words.len();
                    assert(crate::text::texts(self.words@).skip(self.pos as int) =~= Seq::<
                        Seq<char>,
                    >::empty());
                    None
                },
            }
        } else {
            assert(crate::text::texts(self.words@).skip(self.pos as int) =~= Seq::<
                Seq<char>,
            >::empty());
            None
        }
    }
}

/// The receiver of the records of the input. Every callback does nothing
/// and asks to continue unless the implementation says otherwise; reading
/// numbers is the implementation's to provide.
pub trait Importer<Real, Index> {
    /// Reads a word as a real number, or `None` when it is malformed.
    fn parse_real(&self, word: &str) -> Option<Real>;

    /// A comment line, with the text after its `#`.
    fn comment(&mut self, _line: &str) -> CallbackResult {
        CallbackResult::Continue
    }

    /// A line that is not a valid record.
    fn error(&mut self, _error: Error) -> CallbackResult {
        CallbackResult::Continue
    }

    /// A vertex.
    fn v(&mut self, _x: Real, _y: Real, _z: Real, _w: Option<Real>) -> CallbackResult {
        CallbackResult::Continue
    }

    /// A texture coordinate.
    fn vt(&mut self, _u: Real, _v: Real, _w: Option<Real>) -> CallbackResult {
        CallbackResult::Continue
    }

    /// A face, with its vertex indices still to be decoded.
    fn f(&mut self, _iter: ElementIterator<Index>) -> CallbackResult {
        CallbackResult::Continue
    }
}

/// The decoded outcome of one line.
pub enum Record<Real, Index> {
    Comment(String),
    Error(Error),
    V(Real, Real, Real, Option<Real>),
    Vt(Real, Real, Option<Real>),
    F(ElementIterator<Index>),
}

/// The mathematical value of a [`Record`]: an error keeps the text and the
/// number of its line, a face the indices it will yield.
pub enum RecordView<Real, Index> {
    Comment(Seq<char>),
    Error(ErrorType, Seq<char>, nat),
    V(Real, Real, Real, Option<Real>),
    Vt(Real, Real, Option<Real>),
    F(Seq<Index>),
}

impl<Real, Index: FaceIndex> View for Record<Real, Index> {
    type V = RecordView<Real, Index>;

    open spec fn view(&self) -> RecordView<Real, Index> {
        match self {
            Record::Comment(s) => RecordView::Comment(s@),
            Record::Error(e) => RecordView::Error(e.error, e.line.text@, e.line.number as nat),
            Record::V(x, y, z, w) => RecordView::V(*x, *y, *z, *w),
            Record::Vt(u, v, w) => RecordView::Vt(*u, *v, *w),
            Record::F(it) => RecordView::F(it@),
        }
    }
}

/// The value of an optional record.
pub open spec fn record_view<Real, Index: FaceIndex>(r: Option<Record<Real, Index>>) -> Option<
    RecordView<Real, Index>,
> {
    match r {
        Some(rec) => Some(rec@),
        None => None,
    }
}

/// Whether the importer `imp`, asked to read the word `word` as a number,
/// may answer `r`.
pub open spec fn reads_as<Real, Index, Imp: Importer<Real, Index>>(
    imp: &Imp,
    word: Seq<char>,
    r: Option<Real>,
) -> bool {
    exists|s: &str| s@ == word && #[trigger] call_ensures(Imp::parse_real, (imp, s), r)
}

/// The `i`-th number read, `None` past the end.
pub open spec fn parsed_at<Real>(parsed: Seq<Option<Real>>, i: int) -> Option<Real> {
    if 0 <= i < parsed.len() {
        parsed[i]
    } else {
        None
    }
}

/// The outcome of a vertex line of text `text` and number `number` with `n`
/// components, the first four of which read as `x`, `y`, `z` and `w`.
pub open spec fn vertex_outcome<Real, Index>(
    text: Seq<char>,
    number: nat,
    n: nat,
    x: Option<Real>,
    y: Option<Real>,
    z: Option<Real>,
    w: Option<Real>,
) -> RecordView<Real, Index> {
    if n < 3 || x is None || y is None || z is None {
        RecordView::Error(ErrorType::NotEnoughVertexComponents, text, number)
    } else if n > 4 {
        RecordView::Error(ErrorType::TooManyVertexComponents, text, number)
    } else {
        RecordView::V(
            x->0,
            y->0,
            z->0,
            if n == 4 {
                w
            } else {
                None
            },
        )
    }
}

/// The outcome of a texture coordinate line with `n` components, the first
/// three of which read as `u`, `v` and `w`.
pub open spec fn tex_coord_outcome<Real, Index>(
    text: Seq<char>,
    number: nat,
    n: nat,
    u: Option<Real>,
    v: Option<Real>,
    w: Option<Real>,
) -> RecordView<Real, Index> {
    if n < 2 || u is None || v is None {
        RecordView::Error(ErrorType::NotEnoughVertexComponents, text, number)
    } else if n > 3 {
        RecordView::Error(ErrorType::TooManyVertexComponents, text, number)
    } else {
        RecordView::Vt(
            u->0,
            v->0,
            if n == 3 {
                w
            } else {
                None
            },
        )
    }
}

/// Whether a line yields a record: it is a comment or holds a word.
pub open spec fn has_record(text: Seq<char>) -> bool {
    (text.len() > 0 && text[0] == '#') || crate::text::words_of(text).len() > 0
}

/// The record of the line `text` numbered `number`, where `parsed[i]` is
/// the number read from the `i`-th word after the tag. A comment line yields
/// its text after the `#`; a blank line yields nothing; any other line is
/// decided by its first word.
pub open spec fn line_outcome<Real, Index: FaceIndex>(
    text: Seq<char>,
    number: nat,
    parsed: Seq<Option<Real>>,
) -> Option<RecordView<Real, Index>> {
    if text.len() > 0 && text[0] == '#' {
        Some(RecordView::Comment(text.drop_first()))
    } else {
        let words = crate::text::words_of(text);
        if words.len() == 0 {
            None
        } else {
            let n = (words.len() - 1) as nat;
            match crate::tag::tag_of(words[0]) {
                crate::tag::TagView::V => Some(
                    vertex_outcome(
                        text,
                        number,
                        n,
                        parsed_at(parsed, 0),
                        parsed_at(parsed, 1),
                        parsed_at(parsed, 2),
                        parsed_at(parsed, 3),
                    ),
                ),
                crate::tag::TagView::Vt => Some(
                    tex_coord_outcome(
                        text,
                        number,
                        n,
                        parsed_at(parsed, 0),
                        parsed_at(parsed, 1),
                        parsed_at(parsed, 2),
                    ),
                ),
                crate::tag::TagView::F => Some(RecordView::F(indices_of::<Index>(words.drop_first()))),
                _ => Some(RecordView::Error(ErrorType::InvalidName, text, number)),
            }
        }
    }
}

/// How many words after the tag a line has read as numbers: up to four
/// for a vertex, up to three for a texture coordinate, none otherwise.
pub open spec fn components_read(text: Seq<char>) -> nat {
    let words = crate::text::words_of(text);
    if (text.len() > 0 && text[0] == '#') || words.len() == 0 {
        0
    } else {
        let n = (words.len() - 1) as nat;
        match crate::tag::tag_of(words[0]) {
            crate::tag::TagView::V => if n < 4 {
                n
            } else {
                4
            },
            crate::tag::TagView::Vt => if n < 3 {
                n
            } else {
                3
            },
            _ => 0,
        }
    }
}

/// Whether `parsed` holds answers that the importer `imp` may give for the
/// first `k` words after the tag of `words`, in order.
pub open spec fn readings<Real, Index, Imp: Importer<Real, Index>>(
    imp: &Imp,
    words: Seq<Seq<char>>,
    k: nat,
    parsed: Seq<Option<Real>>,
) -> bool {
    &&& parsed.len() == k
    &&& k < words.len()
    &&& forall|i: int| 0 <= i < k ==> reads_as(imp, words[i + 1], #[trigger] parsed[i])
}

/// Whether `rec` is the record of the line `text` numbered `number` when
/// the importer `imp` reads its numbers: the record that [`line_outcome`]
/// gives for answers of `imp` on the words that the line reads.
pub open spec fn line_read_by<Real, Index: FaceIndex, Imp: Importer<Real, Index>>(
    imp: &Imp,
    text: Seq<char>,
    number: nat,
    rec: Option<RecordView<Real, Index>>,
) -> bool {
    exists|parsed: Seq<Option<Real>>|
        (components_read(text) == 0 || readings(
            imp,
            crate::text::words_of(text),
            components_read(text),
            parsed,
        )) && parsed.len() == components_read(text) && rec == #[trigger] line_outcome::<Real, Index>(
            text,
            number,
            parsed,
        )
}

/// Reads an optional word as a real number through the importer; no word
/// reads as nothing.
pub fn read_real<Real, Index, Imp: Importer<Real, Index>>(importer: &Imp, word: Option<&str>) -> (r:
    Option<Real>)
    ensures
        word is None ==> r is None,
        word matches Some(w) ==> call_ensures(Imp::parse_real, (importer, w), r),
{
    match word {
        Some(w) => importer.parse_real(w),
        None => None,
    }
}

/// The `i`-th word, if there is one.
fn word_at(words: &Vec<String>, i: usize) -> (r: Option<&str>)
    ensures
        i < words.len() ==> r is Some && r->0@ == words@[i as int]@,
        i >= words.len() ==> r is None,
{
    if i < words.len() {
        Some(words[i].as_str())
    } else {
        None
    }
}

/// The record of a vertex line of `n` components, the first four of which
/// read as `x`, `y`, `z` and `w`: fewer than three components, or one of
/// them unreadable, is not enough; more than four is too many.
pub fn vertex_record<Real, Index: FaceIndex>(
    line: Line,
    n: usize,
    x: Option<Real>,
    y: Option<Real>,
    z: Option<Real>,
    w: Option<Real>,
) -> (r: Record<Real, Index>)
    ensures
        r@ == vertex_outcome::<Real, Index>(line.text@, line.number as nat, n as nat, x, y, z, w),
{
    if n < 3 || x.is_none() || y.is_none() || z.is_none() {
        return Record::Error(Error::new(line, ErrorType::NotEnoughVertexComponents));
    }
    if n > 4 {
        return Record::Error(Error::new(line, ErrorType::TooManyVertexComponents));
    }
    let w = if n == 4 {
        w
    } else {
        None
    };
    match (x, y, z) {
        (Some(x), Some(y), Some(z)) => Record::V(x, y, z, w),
        _ => Record::Error(Error::new(line, ErrorType::NotEnoughVertexComponents)),
    }
}

/// The record of a texture coordinate line of `n` components, the first
/// three of which read as `u`, `v` and `w`: fewer than two components, or
/// one of them unreadable, is not enough; more than three is too many.
pub fn tex_coord_record<Real, Index: FaceIndex>(
    line: Line,
    n: usize,
    u: Option<Real>,
    v: Option<Real>,
    w: Option<Real>,
) -> (r: Record<Real, Index>)
    ensures
        r@ == tex_coord_outcome::<Real, Index>(line.text@, line.number as nat, n as nat, u, v, w),
{
    if n < 2 || u.is_none() || v.is_none() {
        return Record::Error(Error::new(line, ErrorType::NotEnoughVertexComponents));
    }
    if n > 3 {
        return Record::Error(Error::new(line, ErrorType::TooManyVertexComponents));
    }
    let w = if n == 3 {
        w
    } else {
        None
    };
    match (u, v) {
        (Some(u), Some(v)) => Record::Vt(u, v, w),
        _ => Record::Error(Error::new(line, ErrorType::NotEnoughVertexComponents)),
    }
}

/// Reads the `i`-th word through the importer: the word, if there is one,
/// and the answer.
fn read_word<'a, Real, Index, Imp: Importer<Real, Index>>(
    importer: &Imp,
    words: &'a Vec<String>,
    i: usize,
) -> (r: (Option<&'a str>, Option<Real>))
    ensures
        i < words.len() ==> r.0 is Some && r.0->0@ == words@[i as int]@ && call_ensures(
            Imp::parse_real,
            (importer, r.0->0),
            r.1,
        ),
        i >= words.len() ==> r.0 is None && r.1 is None,
{
    let w = word_at(words, i);
    (w, read_real(importer, w))
}

/// Reads the vertex line `line`, whose words are `words` (the tag first):
/// its record, for answers of the importer on its first four components.
pub fn read_obj_v<Real, Index: FaceIndex, Imp: Importer<Real, Index>>(
    words: &Vec<String>,
    importer: &Imp,
    line: Line,
) -> (r: Record<Real, Index>)
    requires
        words.len() >= 1,
    ensures
        exists|parsed: Seq<Option<Real>>|
            readings(
                importer,
                crate::text::texts(words@),
                if words.len() - 1 < 4 {
                    (words.len() - 1) as nat
                } else {
                    4
                },
                parsed,
            ) && r@ == #[trigger] vertex_outcome::<Real, Index>(
                line.text@,
                line.number as nat,
                (words.len() - 1) as nat,
                parsed_at(parsed, 0),
                parsed_at(parsed, 1),
                parsed_at(parsed, 2),
                parsed_at(parsed, 3),
            ),
{
    let (_, ox) = read_word(importer, words, 1);
    let (_, oy) = read_word(importer, words, 2);
    let (_, oz) = read_word(importer, words, 3);
    let (_, ow) = read_word(importer, words, 4);
    let ghost ws = crate::text::texts(words@);
    let ghost k: nat = if words.len() - 1 < 4 {
        (words.len() - 1) as nat
    } else {
        4
    };
    let ghost parsed = seq![ox, oy, oz, ow].take(k as int);
    proof {
        if k > 0 {
            assert(reads_as(importer, ws[1], ox));
        }
        if k > 1 {
            assert(reads_as(importer, ws[2], oy));
        }
        if k > 2 {
            assert(reads_as(importer, ws[3], oz));
        }
        if k > 3 {
            assert(reads_as(importer, ws[4], ow));
        }
        assert forall|i: int| 0 <= i < k implies reads_as(importer, ws[i + 1], #[trigger] parsed[i]) by {
            if i == 0 {
                assert(parsed[i] == ox);
            } else if i == 1 {
                assert(parsed[i] == oy);
            } else if i == 2 {
                assert(parsed[i] == oz);
            } else {
                assert(parsed[i] == ow);
            }
        }
        assert(parsed_at(parsed, 0) == ox);
        assert(parsed_at(parsed, 1) == oy);
        assert(parsed_at(parsed, 2) == oz);
        assert(parsed_at(parsed, 3) == ow);
        assert(readings(importer, ws, k, parsed));
    }
    let r = vertex_record(line, words.len() - 1, ox, oy, oz, ow);
    assert(r@ == vertex_outcome::<Real, Index>(
        line.text@,
        line.number as nat,
        (words.len() - 1) as nat,
        parsed_at(parsed, 0),
        parsed_at(parsed, 1),
        parsed_at(parsed, 2),
        parsed_at(parsed, 3),
    ));
    r
}

/// Reads the texture coordinate line `line`, whose words are `words` (the
/// tag first): its record, for answers of the importer on its first three
/// components.
pub fn read_obj_vt<Real, Index: FaceIndex, Imp: Importer<Real, Index>>(
    words: &Vec<String>,
    importer: &Imp,
    line: Line,
) -> (r: Record<Real, Index>)
    requires
        words.len() >= 1,
    ensures
        exists|parsed: Seq<Option<Real>>|
            readings(
                importer,
                crate::text::texts(words@),
                if words.len() - 1 < 3 {
                    (words.len() - 1) as nat
                } else {
                    3
                },
                parsed,
            ) && r@ == #[trigger] tex_coord_outcome::<Real, Index>(
                line.text@,
                line.number as nat,
                (words.len() - 1) as nat,
                parsed_at(parsed, 0),
                parsed_at(parsed, 1),
                parsed_at(parsed, 2),
            ),
{
    let (_, ou) = read_word(importer, words, 1);
    let (_, ov) = read_word(importer, words, 2);
    let (_, ow) = read_word(importer, words, 3);
    let ghost ws = crate::text::texts(words@);
    let ghost k: nat = if words.len() - 1 < 3 {
        (words.len() - 1) as nat
    } else {
        3
    };
    let ghost parsed = seq![ou, ov, ow].take(k as int);
    proof {
        if k > 0 {
            assert(reads_as(importer, ws[1], ou));
        }
        if k > 1 {
            assert(reads_as(importer, ws[2], ov));
        }
        if k > 2 {
            assert(reads_as(importer, ws[3], ow));
        }
        assert forall|i: int| 0 <= i < k implies reads_as(importer, ws[i + 1], #[trigger] parsed[i]) by {
            if i == 0 {
                assert(parsed[i] == ou);
            } else if i == 1 {
                assert(parsed[i] == ov);
            } else {
                assert(parsed[i] == ow);
            }
        }
        assert(parsed_at(parsed, 0) == ou);
        assert(parsed_at(parsed, 1) == ov);
        assert(parsed_at(parsed, 2) == ow);
        assert(readings(importer, ws, k, parsed));
    }
    let r = tex_coord_record(line, words.len() - 1, ou, ov, ow);
    assert(r@ == tex_coord_outcome::<Real, Index>(
        line.text@,
        line.number as nat,
        (words.len() - 1) as nat,
        parsed_at(parsed, 0),
        parsed_at(parsed, 1),
        parsed_at(parsed, 2),
    ));
    r
}

/// Decides the record of one line, reading numbers through the importer:
/// the record that [`line_outcome`] gives for the importer's answers on the
/// words that the line reads.
pub fn line_record<Real, Index: FaceIndex, Imp: Importer<Real, Index>>(
    importer: &Imp,
    line: Line,
) -> (r: Option<Record<Real, Index>>)
    ensures
        line_read_by(importer, line.text@, line.number as nat, record_view(r)),
        r is None <==> !has_record(line.text@),
{
    let ghost text = line.text@;
    let ghost number = line.number as nat;
    let ghost none: Seq<Option<Real>> = seq![];
    let cs = chars_of(line.text.as_str());
    if cs.len() > 0 && cs[0] == '#' {
        let body = line.text.as_str().substring_char(1, cs.len());
        assert(body@ =~= line.text@.drop_first());
        let r = Some(Record::Comment(String::from_str(body)));
        assert(record_view(r) == line_outcome::<Real, Index>(text, number, none));
        return r;
    }
    let words = split_words(&cs);
    if words.len() == 0 {
        assert(record_view::<Real, Index>(None) == line_outcome::<Real, Index>(text, number, none));
        return None;
    }
    assert(crate::text::texts(words@)[0] == words@[0]@);
    let tag = Tag::from_str(words[0].as_str());
    match tag {
        Tag::V => {
            let rec = read_obj_v(&words, importer, line);
            let ghost k: nat = if words.len() - 1 < 4 {
                (words.len() - 1) as nat
            } else {
                4
            };
            let ghost parsed = choose|parsed: Seq<Option<Real>>|
                readings(importer, crate::text::texts(words@), k, parsed) && rec@
                    == #[trigger] vertex_outcome::<Real, Index>(
                    text,
                    number,
                    (words.len() - 1) as nat,
                    parsed_at(parsed, 0),
                    parsed_at(parsed, 1),
                    parsed_at(parsed, 2),
                    parsed_at(parsed, 3),
                );
            assert(record_view(Some(rec)) == line_outcome::<Real, Index>(text, number, parsed));
            Some(rec)
        },
        Tag::Vt => {
            let rec = read_obj_vt(&words, importer, line);
            let ghost k: nat = if words.len() - 1 < 3 {
                (words.len() - 1) as nat
            } else {
                3
            };
            let ghost parsed = choose|parsed: Seq<Option<Real>>|
                readings(importer, crate::text::texts(words@), k, parsed) && rec@
                    == #[trigger] tex_coord_outcome::<Real, Index>(
                    text,
                    number,
                    (words.len() - 1) as nat,
                    parsed_at(parsed, 0),
                    parsed_at(parsed, 1),
                    parsed_at(parsed, 2),
                );
            assert(record_view(Some(rec)) == line_outcome::<Real, Index>(text, number, parsed));
            Some(rec)
        },
        Tag::F => {
            let it = ElementIterator { words, pos: 1, index: std::marker::PhantomData };
            assert(crate::text::texts(it.words@).skip(1) =~= crate::text::words_of(text).drop_first());
            let r = Some(Record::F(it));
            assert(record_view(r) == line_outcome::<Real, Index>(text, number, none));
            r
        },
        _ => {
            let r = Some(Record::Error(Error::new(line, ErrorType::InvalidName)));
            assert(record_view(r) == line_outcome::<Real, Index>(text, number, none));
            r
        },
    }
}

/// Hands a record to the callback of its kind.
fn dispatch<Real, Index, Imp: Importer<Real, Index>>(
    importer: &mut Imp,
    record: Record<Real, Index>,
) -> CallbackResult {
    match record {
        Record::Comment(text) => importer.comment(text.as_str()),
        Record::Error(e) => importer.error(e),
        Record::V(x, y, z, w) => importer.v(x, y, z, w),
        Record::Vt(u, v, w) => importer.vt(u, v, w),
        Record::F(it) => importer.f(it),
    }
}

/// Reads one line and hands its record, if it has one, to the one callback
/// of its kind. Returns the callback's answer and, as a ghost, the record
/// handed on: the record of the line for the importer as it was called. A
/// line without a record calls nothing, leaves the importer as it was and
/// continues.
pub fn read_obj_line<Real, Index: FaceIndex, Imp: Importer<Real, Index>>(
    importer: &mut Imp,
    line: Line,
) -> (r: (CallbackResult, Ghost<Option<RecordView<Real, Index>>>))
    ensures
        line_read_by(&*old(importer), line.text@, line.number as nat, r.1@),
        r.1@ is None <==> !has_record(line.text@),
        r.1@ is None ==> r.0 == CallbackResult::Continue && *final(importer) == *old(importer),
{
    match line_record(&*importer, line) {
        Some(record) => {
            let ghost handed = Some(record@);
            let answer = dispatch(importer, record);
            (answer, Ghost(handed))
        },
        None => (CallbackResult::Continue, Ghost(None)),
    }
}

/// The text of a line being read, with a carriage return still held back.
pub open spec fn held_text(cur: Seq<char>, cr: bool) -> Seq<char> {
    if cr {
        cur.push('\r')
    } else {
        cur
    }
}

/// Splits an input held in memory into numbered lines.
pub struct LineReader {
    source: Vec<char>,
    pos: usize,
    number: usize,
}

impl LineReader {
    #[verifier::type_invariant]
    spec fn inv(&self) -> bool {
        self.pos <= self.source.len() && self.number <= self.pos
    }

    /// The lines not yet read.
    pub closed spec fn pending(&self) -> Seq<Seq<char>> {
        crate::text::lines_of(self.source@.skip(self.pos as int))
    }

    /// How many lines have been read.
    pub closed spec fn lines_read(&self) -> nat {
        self.number as nat
    }

    /// A reader of the lines of `text`.
    pub fn new(text: &str) -> (r: LineReader)
        ensures
            r.pending() == crate::text::lines_of(text@),
            r.lines_read() == 0,
    {
        let source = chars_of(text);
        assert(source@.skip(0) =~= text@);
        LineReader { source, pos: 0, number: 0 }
    }

    /// The next line, numbered from one, or `None` after the last.
    pub fn next_line(&mut self) -> (r: Option<Line>)
        ensures
            old(self).pending().len() > 0 ==> {
                &&& r is Some
                &&& r->0.text@ == old(self).pending()[0]
                &&& r->0.number == old(self).lines_read() + 1
                &&& final(self).lines_read() == r->0.number
                &&& final(self).pending() == old(self).pending().drop_first()
            },
            old(self).pending().len() == 0 ==> r is None && final(self).pending().len() == 0
                && final(self).lines_read() == old(self).lines_read(),
    {
        proof {
            use_type_invariant(&*self);
        }
        let start = self.pos;
        let mut cur = String::new();
        let mut cr = false;
        while self.pos < self.source.len()
            invariant
                start <= self.pos <= self.source.len(),
                self.number <= start,
                self.source == old(self).source,
                self.number == old(self).number,
                start == old(self).pos,
                crate::text::lines_of(self.source@.skip(start as int)) == crate::text::lines_from(
                    held_text(cur@, cr),
                    self.source@.skip(self.pos as int),
                ),
                !cr ==> (cur@.len() == 0 || cur@.last() != '\r'),
                held_text(cur@, cr).len() == self.pos - start,
            decreases self.source.len() - self.pos,
        {
            let c = self.source[self.pos];
            let ghost rest = self.source@.skip(self.pos as int);
            assert(rest[0] == c);
            assert(rest.drop_first() =~= self.source@.skip(self.pos + 1));
            self.pos = self.pos + 1;
            if c == '\n' {
                assert(crate::text::strip_cr(held_text(cur@, cr)) =~= cur@);
                self.number = self.number + 1;
                return Some(Line { text: cur, number: self.number });
            } else if c == '\r' {
                if cr {
                    push_char(&mut cur, '\r');
                }
                cr = true;
            } else {
                if cr {
                    push_char(&mut cur, '\r');
                    cr = false;
                }
                push_char(&mut cur, c);
            }
        }
        assert(self.source@.skip(self.pos as int) =~= Seq::<char>::empty());
        if cr {
            push_char(&mut cur, '\r');
        }
        if self.pos > start {
            self.number = self.number + 1;
            Some(Line { text: cur, number: self.number })
        } else {
            None
        }
    }
}

/// Whether `handed` is what the lines `lines`, numbered from `first`, hand
/// on in order when `states[k]` is the importer as it was while line `k`
/// was read: for each line with a record, one entry, paired with the number
/// of the line, holding the record of the line for that importer; nothing
/// for the other lines, which leave the importer as it was.
pub open spec fn handed_for<Real, Index: FaceIndex, Imp: Importer<Real, Index>>(
    lines: Seq<Seq<char>>,
    first: nat,
    states: Seq<Imp>,
    handed: Seq<(nat, RecordView<Real, Index>)>,
) -> bool
    decreases lines.len(),
{
    if lines.len() == 0 {
        handed.len() == 0 && states.len() == 0
    } else {
        &&& states.len() == lines.len()
        &&& if !has_record(lines[0]) {
            &&& (lines.len() > 1 ==> states[1] == states[0])
            &&& handed_for::<Real, Index, Imp>(
                lines.drop_first(),
                first + 1,
                states.drop_first(),
                handed,
            )
        } else {
            &&& handed.len() > 0
            &&& handed[0].0 == first
            &&& line_read_by(&states[0], lines[0], first, Some(handed[0].1))
            &&& handed_for::<Real, Index, Imp>(
                lines.drop_first(),
                first + 1,
                states.drop_first(),
                handed.drop_first(),
            )
        }
    }
}

/// The entries that one more line adds, read with the importer `s`: its
/// record, if it has one, after the entries of the lines before it.
proof fn lemma_handed_push<Real, Index: FaceIndex, Imp: Importer<Real, Index>>(
    lines: Seq<Seq<char>>,
    first: nat,
    states: Seq<Imp>,
    handed: Seq<(nat, RecordView<Real, Index>)>,
    l: Seq<char>,
    s: Imp,
    extra: Seq<(nat, RecordView<Real, Index>)>,
)
    requires
        handed_for::<Real, Index, Imp>(lines, first, states, handed),
        lines.len() > 0 && !has_record(lines.last()) ==> s == states.last(),
        !has_record(l) ==> extra.len() == 0,
        has_record(l) ==> extra.len() == 1 && extra[0].0 == first + lines.len() && line_read_by(
            &s,
            l,
            first + lines.len(),
            Some(extra[0].1),
        ),
    ensures
        handed_for::<Real, Index, Imp>(lines.push(l), first, states.push(s), handed + extra),
    decreases lines.len(),
{
    let none_lines = Seq::<Seq<char>>::empty();
    let none_states = Seq::<Imp>::empty();
    assert(lines.push(l)[0] == if lines.len() == 0 { l } else { lines[0] });
    assert(states.push(s)[0] == if lines.len() == 0 { s } else { states[0] });
    if lines.len() == 0 {
        assert(lines.push(l).drop_first() =~= none_lines);
        assert(states.push(s).drop_first() =~= none_states);
        assert(handed =~= Seq::<(nat, RecordView<Real, Index>)>::empty());
        assert(handed + extra =~= extra);
        if has_record(l) {
            assert(extra.drop_first() =~= Seq::<(nat, RecordView<Real, Index>)>::empty());
            assert(handed_for::<Real, Index, Imp>(none_lines, first + 1, none_states, extra.drop_first()));
        } else {
            assert(handed_for::<Real, Index, Imp>(none_lines, first + 1, none_states, extra));
        }
    } else {
        assert(lines.push(l).drop_first() =~= lines.drop_first().push(l));
        assert(states.push(s).drop_first() =~= states.drop_first().push(s));
        assert(lines.drop_first().len() > 0 ==> lines.drop_first().last() == lines.last());
        assert(states.drop_first().len() > 0 ==> states.drop_first().last() == states.last());
        if lines.len() == 1 {
            assert(lines.last() == lines[0]);
            assert(states.last() == states[0]);
        } else {
            assert(states.push(s)[1] == states[1]);
        }
        if !has_record(lines[0]) {
            lemma_handed_push::<Real, Index, Imp>(
                lines.drop_first(),
                first + 1,
                states.drop_first(),
                handed,
                l,
                s,
                extra,
            );
        } else {
            lemma_handed_push::<Real, Index, Imp>(
                lines.drop_first(),
                first + 1,
                states.drop_first(),
                handed.drop_first(),
                l,
                s,
                extra,
            );
            assert((handed + extra).drop_first() =~= handed.drop_first() + extra);
            assert((handed + extra)[0] == handed[0]);
        }
    }
}

/// What [`read_obj`] did: how many lines it read and whether a callback's
/// answer stopped it; as ghosts, the records it handed on, the callbacks'
/// answers to them, and the importer as it was while each line was read.
pub struct ReadReport<Real, Index, Imp> {
    pub lines: usize,
    pub stopped: bool,
    /// The records handed to the importer, in the order of the calls, each
    /// paired with the number of its line.
    pub handed: Ghost<Seq<(nat, RecordView<Real, Index>)>>,
    /// The answer of the callback to each record handed on.
    pub answers: Ghost<Seq<CallbackResult>>,
    /// The importer as it was while each line read was read.
    pub states: Ghost<Seq<Imp>>,
}

/// Reads every line of `text` in order and hands the record of each line,
/// if it has one, to the one callback of its kind. Reading stops exactly
/// when a callback answers `Stop`, right after that line; otherwise every
/// line is read. The records handed on are exactly those of the lines read,
/// in order, each decided with the importer as it was at its line.
pub fn read_obj<Real, Index: FaceIndex, Imp: Importer<Real, Index>>(
    text: &str,
    importer: &mut Imp,
) -> (r: ReadReport<Real, Index, Imp>)
    ensures
        r.lines <= crate::text::lines_of(text@).len(),
        handed_for::<Real, Index, Imp>(
            crate::text::lines_of(text@).take(r.lines as int),
            1,
            r.states@,
            r.handed@,
        ),
        r.lines > 0 ==> r.states@[0] == *old(importer),
        r.answers@.len() == r.handed@.len(),
        forall|i: int| 0 <= i < r.answers@.len() - 1 ==> r.answers@[i] == CallbackResult::Continue,
        r.stopped <==> (r.answers@.len() > 0 && r.answers@.last() == CallbackResult::Stop),
        !r.stopped ==> r.lines == crate::text::lines_of(text@).len(),
        r.stopped ==> r.handed@.last().0 == r.lines,
{
    let ghost all = crate::text::lines_of(text@);
    let ghost init = *importer;
    let mut lines = LineReader::new(text);
    let mut read: usize = 0;
    let ghost mut handed: Seq<(nat, RecordView<Real, Index>)> = seq![];
    let ghost mut answers: Seq<CallbackResult> = seq![];
    let ghost mut states: Seq<Imp> = seq![];
    assert(all.skip(0) =~= all);
    assert(all.take(0) =~= Seq::<Seq<char>>::empty());
    loop
        invariant
            all == crate::text::lines_of(text@),
            init == *old(importer),
            read == lines.lines_read(),
            read <= all.len(),
            lines.pending() == all.skip(read as int),
            handed_for::<Real, Index, Imp>(all.take(read as int), 1, states, handed),
            states.len() == read,
            read > 0 ==> states[0] == init,
            read == 0 ==> *importer == init,
            read > 0 && !has_record(all[read - 1]) ==> *importer == states[read - 1],
            answers.len() == handed.len(),
            forall|i: int| 0 <= i < answers.len() ==> answers[i] == CallbackResult::Continue,
        decreases lines.pending().len(),
    {
        let ghost before = read;
        match lines.next_line() {
            None => {
                return ReadReport {
                    lines: read,
                    stopped: false,
                    handed: Ghost(handed),
                    answers: Ghost(answers),
                    states: Ghost(states),
                };
            },
            Some(line) => {
                read = line.number;
                assert(line.text@ == all[read - 1]);
                assert(all.skip(before as int).drop_first() =~= all.skip(read as int));
                assert(all.take(before as int).push(all[before as int]) =~= all.take(read as int));
                let ghost number = line.number as nat;
                let ghost line_text = line.text@;
                let ghost s = *importer;
                let ghost prev = all.take(before as int);
                assert(prev.len() == before);
                assert(before > 0 ==> prev.last() == all[before - 1]);
                let (answer, rec) = read_obj_line(importer, line);
                let ghost extra = match rec@ {
                    Some(v) => seq![(number, v)],
                    None => Seq::<(nat, RecordView<Real, Index>)>::empty(),
                };
                proof {
                    lemma_handed_push::<Real, Index, Imp>(prev, 1, states, handed, line_text, s, extra);
                    if rec@ is None {
                        assert(handed + extra =~= handed);
                    } else {
                        answers = answers.push(answer);
                    }
                    handed = handed + extra;
                    states = states.push(s);
                }
                match answer {
                    CallbackResult::Stop => {
                        return ReadReport {
                            lines: read,
                            stopped: true,
                            handed: Ghost(handed),
                            answers: Ghost(answers),
                            states: Ghost(states),
                        };
                    },
                    CallbackResult::Continue => {},
                }
            },
        }
    }
}

proof fn lemma_handed_ordered<Real, Index: FaceIndex, Imp: Importer<Real, Index>>(
    lines: Seq<Seq<char>>,
    first: nat,
    states: Seq<Imp>,
    handed: Seq<(nat, RecordView<Real, Index>)>,
)
    requires
        handed_for::<Real, Index, Imp>(lines, first, states, handed),
    ensures
        handed.len() <= lines.len(),
        forall|i: int| 0 <= i < handed.len() ==> first <= #[trigger] handed[i].0 < first + lines.len(),
        forall|i: int, j: int| 0 <= i < j < handed.len() ==> #[trigger] handed[i].0 < #[trigger] handed[j].0,
    decreases lines.len(),
{
    if lines.len() > 0 {
        if !has_record(lines[0]) {
            lemma_handed_ordered::<Real, Index, Imp>(lines.drop_first(), first + 1, states.drop_first(), handed);
        } else {
            let rest = handed.drop_first();
            lemma_handed_ordered::<Real, Index, Imp>(lines.drop_first(), first + 1, states.drop_first(), rest);
            assert forall|i: int| 0 <= i < handed.len() implies first <= #[trigger] handed[i].0 < first
                + lines.len() by {
                if i > 0 {
                    assert(handed[i] == rest[i - 1]);
                }
            }
            assert forall|i: int, j: int| 0 <= i < j < handed.len() implies #[trigger] handed[i].0
                < #[trigger] handed[j].0 by {
                assert(handed[j] == rest[j - 1]);
                if i > 0 {
                    assert(handed[i] == rest[i - 1]);
                }
            }
        }
    }
}

/// No line yields more than one record: whatever the importer answers,
/// what a sequence of lines hands on comes from distinct lines, in the order
/// of the lines, and holds no more entries than there are lines.
pub proof fn lemma_one_record_per_line<Real, Index: FaceIndex, Imp: Importer<Real, Index>>(
    lines: Seq<Seq<char>>,
    states: Seq<Imp>,
    handed: Seq<(nat, RecordView<Real, Index>)>,
)
    requires
        handed_for::<Real, Index, Imp>(lines, 1, states, handed),
    ensures
        handed.len() <= lines.len(),
        forall|i: int| 0 <= i < handed.len() ==> 1 <= #[trigger] handed[i].0 <= lines.len(),
        forall|i: int, j: int| 0 <= i < j < handed.len() ==> #[trigger] handed[i].0 < #[trigger] handed[j].0,
{
    lemma_handed_ordered::<Real, Index, Imp>(lines, 1, states, handed);
}

/// A record with the text of its line left out: what the line's words
/// decide.
pub open spec fn without_text<Real, Index>(r: Option<RecordView<Real, Index>>) -> Option<
    RecordView<Real, Index>,
> {
    match r {
        Some(RecordView::Error(kind, _text, number)) => Some(
            RecordView::Error(kind, Seq::empty(), number),
        ),
        _ => r,
    }
}

/// Two lines that are not comments and hold the same words, whatever the
/// whitespace between them, read the same words as numbers and, for the
/// same answers, yield the same record with the same numbers, indices and
/// errors; only the line text an error keeps differs.
pub proof fn lemma_same_words_same_record<Real, Index: FaceIndex>(
    t1: Seq<char>,
    t2: Seq<char>,
    number: nat,
    parsed: Seq<Option<Real>>,
)
    requires
        !(t1.len() > 0 && t1[0] == '#'),
        !(t2.len() > 0 && t2[0] == '#'),
        crate::text::words_of(t1) == crate::text::words_of(t2),
    ensures
        components_read(t1) == components_read(t2),
        without_text(line_outcome::<Real, Index>(t1, number, parsed)) == without_text(
            line_outcome::<Real, Index>(t2, number, parsed),
        ),
{
}

} // verus!
