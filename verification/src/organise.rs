//! Where a track belongs: a naming layout, read from its template and
//! written back, rendered for a track into a path a volume will take; and
//! the order in which planned moves can be made.
use vstd::prelude::*;
use vstd::string::StrSliceExecFns;

use std::cmp::Ordering;

use crate::error::{Error, FieldName, LayoutFault};
use crate::model::{file_name, file_name_start};
use crate::progress::{OrganiseProgress, OrganiseStats};
use crate::text::{
    append_chars, chars_of, decimal, decimal_of, is_space, same_chars, slice_of, space,
    start_of_text, string_of, trim_start, utf8_bytes, utf8_len, utf8_len_of, zero_padded,
    zero_padded_exec,
};

verus! {

broadcast use vstd::string::group_string_axioms;

/// The layout a library is filed under until it is told otherwise.
pub const DEFAULT_LAYOUT: &'static str = "{albumartist}/{album}/{disc}{track} {title}";

/// The most bytes a filesystem holds in one component of a path.
pub const COMPONENT_BYTES: usize = 255;

/// What a track is known by, that a layout may name.
#[derive(Clone, Copy, Debug, PartialEq, Eq, Structural, Hash)]
pub enum Field {
    AlbumArtist,
    Artist,
    Album,
    Title,
    Year,
    Disc,
    Track,
    Extension,
}

/// The name a layout writes a field under, between braces.
pub open spec fn field_name(f: Field) -> Seq<char> {
    match f {
        Field::AlbumArtist => seq!['a', 'l', 'b', 'u', 'm', 'a', 'r', 't', 'i', 's', 't'],
        Field::Artist => seq!['a', 'r', 't', 'i', 's', 't'],
        Field::Album => seq!['a', 'l', 'b', 'u', 'm'],
        Field::Title => seq!['t', 'i', 't', 'l', 'e'],
        Field::Year => seq!['y', 'e', 'a', 'r'],
        Field::Disc => seq!['d', 'i', 's', 'c'],
        Field::Track => seq!['t', 'r', 'a', 'c', 'k'],
        Field::Extension => seq!['e', 'x', 't'],
    }
}

/// The field written under a name, where one is.
pub open spec fn field_of(name: Seq<char>) -> Option<Field> {
    if name == field_name(Field::AlbumArtist) {
        Some(Field::AlbumArtist)
    } else if name == field_name(Field::Artist) {
        Some(Field::Artist)
    } else if name == field_name(Field::Album) {
        Some(Field::Album)
    } else if name == field_name(Field::Title) {
        Some(Field::Title)
    } else if name == field_name(Field::Year) {
        Some(Field::Year)
    } else if name == field_name(Field::Disc) {
        Some(Field::Disc)
    } else if name == field_name(Field::Track) {
        Some(Field::Track)
    } else if name == field_name(Field::Extension) {
        Some(Field::Extension)
    } else {
        None
    }
}

/// Every field is read back from the name it is written under, and no
/// other field is written under that name.
pub proof fn a_field_is_read_from_its_own_name(f: Field)
    ensures
        field_of(field_name(f)) == Some(f),
        forall|g: Field| field_name(g) == field_name(f) ==> g == f,
{
    assert forall|g: Field| field_name(g) == field_name(f) implies g == f by {
        if g != f {
            assert(field_name(g).len() != field_name(f).len() || exists|k: int|
                0 <= k < field_name(f).len() && field_name(g)[k] != field_name(f)[k]) by {
                match (g, f) {
                    (Field::Artist, Field::AlbumArtist) | (Field::AlbumArtist, Field::Artist) => {
                        assert(field_name(g).len() != field_name(f).len());
                    },
                    (Field::Album, Field::Title) | (Field::Title, Field::Album) => {
                        assert(field_name(g)[0] != field_name(f)[0]);
                    },
                    (Field::Album, Field::Track) | (Field::Track, Field::Album) => {
                        assert(field_name(g)[0] != field_name(f)[0]);
                    },
                    (Field::Title, Field::Track) | (Field::Track, Field::Title) => {
                        assert(field_name(g)[1] != field_name(f)[1]);
                    },
                    (Field::Year, Field::Disc) | (Field::Disc, Field::Year) => {
                        assert(field_name(g)[0] != field_name(f)[0]);
                    },
                    _ => {
                        assert(field_name(g).len() != field_name(f).len() || field_name(g)[0]
                            != field_name(f)[0]);
                    },
                }
            }
        }
    }
}

impl Field {
    /// Every field, in the order the reader tries them.
    pub fn all() -> (r: [Field; 8])
        ensures
            r@ == seq![
                Field::AlbumArtist,
                Field::Artist,
                Field::Album,
                Field::Title,
                Field::Year,
                Field::Disc,
                Field::Track,
                Field::Extension,
            ],
    {
        [
            Field::AlbumArtist,
            Field::Artist,
            Field::Album,
            Field::Title,
            Field::Year,
            Field::Disc,
            Field::Track,
            Field::Extension,
        ]
    }

    /// The name a layout writes the field under.
    pub fn as_str(self) -> (r: &'static str)
        ensures
            r@ == field_name(self),
    {
        match self {
            Field::AlbumArtist => {
                proof {
                    reveal_strlit("albumartist");
                }
                "albumartist"
            },
            Field::Artist => {
                proof {
                    reveal_strlit("artist");
                }
                "artist"
            },
            Field::Album => {
                proof {
                    reveal_strlit("album");
                }
                "album"
            },
            Field::Title => {
                proof {
                    reveal_strlit("title");
                }
                "title"
            },
            Field::Year => {
                proof {
                    reveal_strlit("year");
                }
                "year"
            },
            Field::Disc => {
                proof {
                    reveal_strlit("disc");
                }
                "disc"
            },
            Field::Track => {
                proof {
                    reveal_strlit("track");
                }
                "track"
            },
            Field::Extension => {
                proof {
                    reveal_strlit("ext");
                }
                "ext"
            },
        }
    }

    /// The field written under a name, where one is.
    pub fn read(text: &str) -> (r: Option<Field>)
        ensures
            r == field_of(text@),
    {
        let v = chars_of(text);
        field_named(&v)
    }
}

/// The field written under a name, where one is.
fn field_named(name: &[char]) -> (r: Option<Field>)
    ensures
        r == field_of(name@),
{
    let fields = Field::all();
    let mut k: usize = 0;
    while k < 8
        invariant
            k <= 8,
            fields@ == seq![
                Field::AlbumArtist,
                Field::Artist,
                Field::Album,
                Field::Title,
                Field::Year,
                Field::Disc,
                Field::Track,
                Field::Extension,
            ],
            forall|j: int| 0 <= j < k ==> name@ != field_name(#[trigger] fields@[j]),
        decreases 8 - k,
    {
        let f = fields[k];
        let written = chars_of(f.as_str());
        if same_chars(name, &written) {
            return Some(f);
        }
        k = k + 1;
    }
    assert(name@ != field_name(fields@[0]));
    assert(name@ != field_name(fields@[1]));
    assert(name@ != field_name(fields@[2]));
    assert(name@ != field_name(fields@[3]));
    assert(name@ != field_name(fields@[4]));
    assert(name@ != field_name(fields@[5]));
    assert(name@ != field_name(fields@[6]));
    assert(name@ != field_name(fields@[7]));
    None
}


/// A part of a segment of a layout: text kept as it is written, or a field.
#[derive(Clone, Debug, PartialEq, Eq)]
pub enum Piece {
    Literal(String),
    Named(Field),
}

/// One component of the path a layout writes: the pieces between two
/// separators.
#[derive(Clone, Debug, PartialEq, Eq)]
pub struct Segment {
    pieces: Vec<Piece>,
}

/// A naming layout: the segments of the path a track is filed under, and
/// whether any of them names the file's extension.
#[derive(Clone, Debug, PartialEq, Eq)]
pub struct Layout {
    segments: Vec<Segment>,
    names_the_extension: bool,
}

/// A character as a template writes it: a brace doubled, anything else as
/// it is.
pub open spec fn escape_char(c: char) -> Seq<char> {
    if c == '{' {
        seq!['{', '{']
    } else if c == '}' {
        seq!['}', '}']
    } else {
        seq![c]
    }
}

/// Text as a template writes it: every brace doubled.
pub open spec fn escape(s: Seq<char>) -> Seq<char>
    decreases s.len(),
{
    if s.len() == 0 {
        seq![]
    } else {
        escape(s.drop_last()) + escape_char(s.last())
    }
}

/// A piece as a template writes it: a literal escaped, a field by its name
/// between braces.
pub open spec fn piece_template(p: Piece) -> Seq<char> {
    match p {
        Piece::Literal(t) => escape(t@),
        Piece::Named(f) => seq!['{'] + field_name(f) + seq!['}'],
    }
}

/// The pieces of a segment as a template writes them, one after another.
pub open spec fn pieces_template(ps: Seq<Piece>) -> Seq<char>
    decreases ps.len(),
{
    if ps.len() == 0 {
        seq![]
    } else {
        pieces_template(ps.drop_last()) + piece_template(ps.last())
    }
}

/// Segments as a template writes them: each written, with a separator
/// between one and the next.
pub open spec fn segments_template(ss: Seq<Seq<Piece>>) -> Seq<char>
    decreases ss.len(),
{
    if ss.len() == 0 {
        seq![]
    } else if ss.len() == 1 {
        pieces_template(ss[0])
    } else {
        segments_template(ss.drop_last()) + seq!['/'] + pieces_template(ss.last())
    }
}

/// Whether a piece is a literal a reader could have read: some text, with
/// no separator in it.
pub open spec fn literal_ok(p: Piece) -> bool {
    p matches Piece::Literal(t) ==> t@.len() > 0 && no_separator(t@)
}

/// Whether the text holds no separator.
pub open spec fn no_separator(s: Seq<char>) -> bool {
    forall|k: int| 0 <= k < s.len() ==> s[k] != '/'
}

/// Whether the pieces of a segment are as a reader leaves them: every
/// literal some text without a separator, and no two literals side by side.
pub open spec fn normal_pieces(ps: Seq<Piece>) -> bool {
    &&& forall|k: int| 0 <= k < ps.len() ==> #[trigger] literal_ok(ps[k])
    &&& forall|k: int|
        #![trigger ps[k]]
        0 <= k < ps.len() - 1 ==> !(ps[k] is Literal && ps[k + 1] is Literal)
}

/// Whether a piece names the file's extension.
pub open spec fn pieces_name_ext(ps: Seq<Piece>) -> bool {
    exists|k: int| 0 <= k < ps.len() && ps[k] == Piece::Named(Field::Extension)
}

/// Whether any segment names the file's extension.
pub open spec fn parts_name_ext(ss: Seq<Seq<Piece>>) -> bool
    decreases ss.len(),
{
    ss.len() > 0 && (parts_name_ext(ss.drop_last()) || pieces_name_ext(ss.last()))
}

/// Whether a segment's text is a step of the path itself: `.` or `..`.
pub open spec fn is_step(s: Seq<char>) -> bool {
    s == seq!['.'] || s == seq!['.', '.']
}

/// The first segment that is a step of the path itself, where one is.
pub open spec fn first_step(ss: Seq<Seq<char>>) -> Option<int>
    decreases ss.len(),
{
    if ss.len() == 0 {
        None
    } else {
        match first_step(ss.drop_last()) {
            Some(k) => Some(k),
            None => if is_step(ss.last()) {
                Some(ss.len() - 1)
            } else {
                None
            },
        }
    }
}

/// The pieces of each segment, in order.
pub closed spec fn parts_of(segments: Seq<Segment>) -> Seq<Seq<Piece>> {
    segments.map_values(|s: Segment| s.pieces@)
}

impl Layout {
    /// The pieces of each segment, in order.
    pub closed spec fn parts(self) -> Seq<Seq<Piece>> {
        parts_of(self.segments@)
    }

    /// The template the layout writes itself as.
    pub closed spec fn template(self) -> Seq<char> {
        segments_template(self.parts())
    }

    /// Whether the layout is one a reader could have read: some segments,
    /// each of some pieces as a reader leaves them, none a step of the path
    /// itself, and the extension noted where a segment names it.
    pub closed spec fn well_formed(self) -> bool {
        &&& self.parts().len() > 0
        &&& forall|k: int|
            0 <= k < self.parts().len() ==> #[trigger] self.parts()[k].len() > 0
                && normal_pieces(self.parts()[k]) && !is_step(pieces_template(self.parts()[k]))
        &&& self.names_the_extension == parts_name_ext(self.parts())
    }
}

/// Text with its braces doubled, as a template writes it.
pub fn escaped(literal: &[char]) -> (r: Vec<char>)
    ensures
        r@ == escape(literal@),
{
    let mut written: Vec<char> = Vec::new();
    let mut i: usize = 0;
    while i < literal.len()
        invariant
            i <= literal@.len(),
            written@ == escape(literal@.subrange(0, i as int)),
        decreases literal@.len() - i,
    {
        assert(literal@.subrange(0, i + 1).drop_last() =~= literal@.subrange(0, i as int));
        let c = literal[i];
        if c == '{' {
            written.push('{');
            written.push('{');
        } else if c == '}' {
            written.push('}');
            written.push('}');
        } else {
            written.push(c);
        }
        i = i + 1;
        assert(written@ =~= escape(literal@.subrange(0, i as int)));
    }
    assert(literal@.subrange(0, literal@.len() as int) =~= literal@);
    written
}

/// Appends a piece as a template writes it.
fn write_piece(piece: &Piece, into: &mut Vec<char>)
    ensures
        final(into)@ == old(into)@ + piece_template(*piece),
{
    match piece {
        Piece::Literal(text) => {
            let v = chars_of(text.as_str());
            let e = escaped(&v);
            append_chars(into, &e);
        },
        Piece::Named(field) => {
            into.push('{');
            let name = chars_of(field.as_str());
            append_chars(into, &name);
            into.push('}');
            assert(into@ =~= old(into)@ + piece_template(*piece));
        },
    }
}

/// Appends the pieces of a segment as a template writes them.
fn write_pieces(pieces: &Vec<Piece>, into: &mut Vec<char>)
    ensures
        final(into)@ == old(into)@ + pieces_template(pieces@),
{
    let mut k: usize = 0;
    let ghost start = into@;
    while k < pieces.len()
        invariant
            k <= pieces@.len(),
            into@ == start + pieces_template(pieces@.subrange(0, k as int)),
        decreases pieces@.len() - k,
    {
        assert(pieces@.subrange(0, k + 1).drop_last() =~= pieces@.subrange(0, k as int));
        write_piece(&pieces[k], into);
        k = k + 1;
        assert(into@ =~= start + pieces_template(pieces@.subrange(0, k as int)));
    }
    assert(pieces@.subrange(0, pieces@.len() as int) =~= pieces@);
}

impl Layout {
    /// The template the layout writes itself as: its segments, separated,
    /// each with its braces doubled and its fields named between braces.
    pub fn to_string(&self) -> (r: String)
        ensures
            r@ == self.template(),
    {
        let mut written: Vec<char> = Vec::new();
        let mut k: usize = 0;
        while k < self.segments.len()
            invariant
                k <= self.segments@.len(),
                written@ == segments_template(self.parts().subrange(0, k as int)),
            decreases self.segments@.len() - k,
        {
            let ghost before = self.parts().subrange(0, k as int);
            assert(self.parts().subrange(0, k + 1).drop_last() =~= before);
            if k > 0 {
                written.push('/');
            }
            write_pieces(&self.segments[k].pieces, &mut written);
            k = k + 1;
            assert(written@ =~= segments_template(self.parts().subrange(0, k as int)));
        }
        assert(self.parts().subrange(0, self.segments@.len() as int) =~= self.parts());
        string_of(&written)
    }
}


/// Where `c` next stands in `s` at or after `from`; the length of `s` where
/// it stands nowhere after.
pub open spec fn next_of(s: Seq<char>, c: char, from: int) -> int
    decreases s.len() - from,
{
    if from < 0 || from >= s.len() {
        s.len() as int
    } else if s[from] == c {
        from
    } else {
        next_of(s, c, from + 1)
    }
}

pub proof fn lemma_next_of(s: Seq<char>, c: char, from: int)
    requires
        0 <= from <= s.len(),
    ensures
        from <= next_of(s, c, from) <= s.len(),
        next_of(s, c, from) < s.len() ==> s[next_of(s, c, from)] == c,
        forall|k: int| from <= k < next_of(s, c, from) ==> s[k] != c,
    decreases s.len() - from,
{
    if from < s.len() && s[from] != c {
        lemma_next_of(s, c, from + 1);
    }
}

/// What is wrong where a layout cannot be read: a fault of its syntax, or
/// a field no track is known by.
#[derive(Clone, Copy, Debug, PartialEq, Eq, Structural)]
pub enum Misread {
    Syntax(LayoutFault),
    Unknown,
}

/// The first thing wrong in a segment's text from character `i` on: where
/// it stands, what it is, and, for a field no track is known by, its name.
pub open spec fn segment_misread(s: Seq<char>, i: int) -> Option<(int, Misread, Seq<char>)>
    decreases s.len() - i,
{
    if i < 0 || i >= s.len() {
        None
    } else if s[i] == '{' && i + 1 < s.len() && s[i + 1] == '{' {
        segment_misread(s, i + 2)
    } else if s[i] == '}' && i + 1 < s.len() && s[i + 1] == '}' {
        segment_misread(s, i + 2)
    } else if s[i] == '{' {
        let j = next_of(s, '}', i + 1);
        if j >= s.len() {
            Some((i, Misread::Syntax(LayoutFault::Unclosed), seq![]))
        } else if j == i + 1 {
            Some((i, Misread::Syntax(LayoutFault::EmptyField), seq![]))
        } else if field_of(s.subrange(i + 1, j)) is None {
            Some((i, Misread::Unknown, s.subrange(i + 1, j)))
        } else {
            proof {
                lemma_next_of(s, '}', i + 1);
            }
            segment_misread(s, j + 1)
        }
    } else if s[i] == '}' {
        Some((i, Misread::Syntax(LayoutFault::Unopened), seq![]))
    } else {
        segment_misread(s, i + 1)
    }
}

/// The first thing wrong in a template's segments from the one starting
/// at character `from` on; where it stands is counted in characters of the
/// whole template.
#[verifier::opaque]
pub open spec fn misread_from(t: Seq<char>, from: int) -> Option<(int, Misread, Seq<char>)>
    decreases t.len() - from,
{
    if from < 0 || from > t.len() {
        None
    } else {
        let end = next_of(t, '/', from);
        if end == from {
            Some((from, Misread::Syntax(LayoutFault::EmptySegment), seq![]))
        } else {
            match segment_misread(t.subrange(from, end), 0) {
                Some((i, m, n)) => Some((from + i, m, n)),
                None => if end >= t.len() {
                    None
                } else {
                    proof {
                        lemma_next_of(t, '/', from);
                    }
                    misread_from(t, end + 1)
                },
            }
        }
    }
}

/// The first thing wrong in a template, where anything is.
pub open spec fn layout_misread(t: Seq<char>) -> Option<(int, Misread, Seq<char>)> {
    if t.len() == 0 {
        Some((0, Misread::Syntax(LayoutFault::Empty), seq![]))
    } else {
        misread_from(t, 0)
    }
}

/// A template's segments from the one starting at character `from` on: the
/// text between one separator and the next.
#[verifier::opaque]
pub open spec fn split_from(t: Seq<char>, from: int) -> Seq<Seq<char>>
    decreases t.len() - from,
{
    if from < 0 || from > t.len() {
        seq![]
    } else {
        let end = next_of(t, '/', from);
        if end >= t.len() {
            seq![t.subrange(from, t.len() as int)]
        } else {
            proof {
                lemma_next_of(t, '/', from);
            }
            seq![t.subrange(from, end)] + split_from(t, end + 1)
        }
    }
}

/// Where `c` next stands in `s` at or after `from`, or the length of `s`.
fn next_of_exec(s: &[char], c: char, from: usize) -> (r: usize)
    requires
        from <= s@.len(),
    ensures
        r == next_of(s@, c, from as int),
{
    let mut k = from;
    while k < s.len()
        invariant
            from <= k <= s@.len(),
            next_of(s@, c, from as int) == next_of(s@, c, k as int),
        decreases s@.len() - k,
    {
        if s[k] == c {
            return k;
        }
        k = k + 1;
    }
    k
}

/// Sets the text gathered so far down as a literal piece, where there is
/// any, and starts gathering afresh.
pub fn flush(literal: &mut Vec<char>, pieces: &mut Vec<Piece>)
    ensures
        final(literal)@ == Seq::<char>::empty(),
        old(literal)@.len() == 0 ==> final(pieces)@ == old(pieces)@,
        old(literal)@.len() > 0 ==> final(pieces)@.len() == old(pieces)@.len() + 1
            && final(pieces)@.drop_last() == old(pieces)@ && (final(pieces)@.last() matches Piece::Literal(t)
            && t@ == old(literal)@),
{
    if literal.len() > 0 {
        let text = string_of(literal);
        pieces.push(Piece::Literal(text));
        *literal = Vec::new();
        assert(pieces@.drop_last() =~= old(pieces)@);
    } else {
        *literal = Vec::new();
    }
}

proof fn lemma_escape_push(s: Seq<char>, c: char)
    ensures
        escape(s.push(c)) == escape(s) + escape_char(c),
{
    assert(s.push(c).drop_last() =~= s);
}

/// Reads the pieces of one segment of a template: text with its doubled
/// braces read as one, and fields named between braces.
fn read_segment(s: &[char]) -> (r: Result<Vec<Piece>, (usize, Misread, Vec<char>)>)
    requires
        no_separator(s@),
    ensures
        match segment_misread(s@, 0) {
            Some((i, m, n)) => r matches Err((ri, rm, rn)) && ri == i && rm == m && rn@ == n,
            None => r matches Ok(ps) && pieces_template(ps@) == s@ && normal_pieces(ps@),
        },
{
    let mut pieces: Vec<Piece> = Vec::new();
    let mut literal: Vec<char> = Vec::new();
    let mut at: usize = 0;
    while at < s.len()
        invariant
            at <= s@.len(),
            no_separator(s@),
            segment_misread(s@, 0) == segment_misread(s@, at as int),
            pieces_template(pieces@) + escape(literal@) == s@.subrange(0, at as int),
            normal_pieces(pieces@),
            pieces@.len() == 0 || pieces@.last() is Named,
            no_separator(literal@),
        decreases s@.len() - at,
    {
        let c = s[at];
        if c == '{' && at + 1 < s.len() && s[at + 1] == '{' {
            proof {
                lemma_escape_push(literal@, '{');
                assert(s@.subrange(0, at + 2) =~= s@.subrange(0, at as int) + seq!['{', '{']);
            }
            literal.push('{');
            at = at + 2;
        } else if c == '}' && at + 1 < s.len() && s[at + 1] == '}' {
            proof {
                lemma_escape_push(literal@, '}');
                assert(s@.subrange(0, at + 2) =~= s@.subrange(0, at as int) + seq!['}', '}']);
            }
            literal.push('}');
            at = at + 2;
        } else if c == '{' {
            let j = next_of_exec(s, '}', at + 1);
            proof {
                lemma_next_of(s@, '}', at + 1);
            }
            if j >= s.len() {
                return Err((at, Misread::Syntax(LayoutFault::Unclosed), Vec::new()));
            }
            if j == at + 1 {
                return Err((at, Misread::Syntax(LayoutFault::EmptyField), Vec::new()));
            }
            let name = slice_of(s, at + 1, j);
            match field_named(&name) {
                None => {
                    return Err((at, Misread::Unknown, name));
                },
                Some(field) => {
                    let ghost before = pieces@;
                    let ghost lit = literal@;
                    flush(&mut literal, &mut pieces);
                    let ghost flushed = pieces@;
                    pieces.push(Piece::Named(field));
                    proof {
                        assert(pieces@.drop_last() =~= flushed);
                        assert(name@ == field_name(field));
                        if lit.len() > 0 {
                            assert(flushed.drop_last() == before);
                            assert(pieces_template(flushed) == pieces_template(before) + escape(
                                lit,
                            ));
                        } else {
                            assert(escape(lit) =~= Seq::<char>::empty());
                            assert(flushed == before);
                        }
                        assert(s@.subrange(0, j + 1) =~= s@.subrange(0, at as int) + seq!['{']
                            + name@ + seq!['}']);
                        assert(pieces_template(pieces@) =~= s@.subrange(0, j + 1));
                        assert forall|k: int| 0 <= k < pieces@.len() implies #[trigger] literal_ok(
                            pieces@[k],
                        ) by {
                            if k < flushed.len() as int && lit.len() > 0 && k == flushed.len()
                                - 1 {
                                assert(flushed[k] == flushed.last());
                            } else if k < flushed.len() as int && lit.len() > 0 {
                                assert(flushed[k] == before[k]);
                            }
                        }
                        assert forall|k: int|
                            #![trigger pieces@[k]]
                            0 <= k < pieces@.len() - 1 implies !(pieces@[k] is Literal
                                && pieces@[k + 1] is Literal) by {
                            if lit.len() > 0 && k < before.len() {
                                assert(pieces@[k] == before[k]);
                                if k + 1 < before.len() {
                                    assert(pieces@[k + 1] == before[k + 1]);
                                } else {
                                    assert(before[k] == before.last());
                                }
                            }
                        }
                        assert(segment_misread(s@, at as int) == segment_misread(s@, j + 1));
                    }
                    at = j + 1;
                    assert(escape(literal@) =~= Seq::<char>::empty());
                    assert(pieces_template(pieces@) + escape(literal@) =~= s@.subrange(
                        0,
                        at as int,
                    ));
                },
            }
        } else if c == '}' {
            return Err((at, Misread::Syntax(LayoutFault::Unopened), Vec::new()));
        } else {
            proof {
                lemma_escape_push(literal@, c);
                assert(s@.subrange(0, at + 1) =~= s@.subrange(0, at as int) + seq![c]);
                assert(s@[at as int] != '/');
            }
            literal.push(c);
            at = at + 1;
        }
    }
    let ghost before = pieces@;
    let ghost lit = literal@;
    flush(&mut literal, &mut pieces);
    proof {
        assert(s@.subrange(0, s@.len() as int) =~= s@);
        if lit.len() > 0 {
            assert(pieces@.drop_last() == before);
            assert(pieces_template(pieces@) == pieces_template(before) + escape(lit));
            assert forall|k: int| 0 <= k < pieces@.len() implies #[trigger] literal_ok(
                pieces@[k],
            ) by {
                if k < before.len() {
                    assert(pieces@[k] == before[k]);
                }
            }
            assert forall|k: int|
                #![trigger pieces@[k]]
                0 <= k < pieces@.len() - 1 implies !(pieces@[k] is Literal && pieces@[k
                    + 1] is Literal) by {
                assert(pieces@[k] == before[k]);
                if k + 1 < before.len() {
                    assert(pieces@[k + 1] == before[k + 1]);
                } else {
                    assert(before[k] == before.last());
                }
            }
        } else {
            assert(escape(lit) =~= Seq::<char>::empty());
            assert(pieces_template(before) =~= s@);
        }
    }
    Ok(pieces)
}


proof fn lemma_segment_misread_bounds(s: Seq<char>, i: int)
    requires
        0 <= i,
    ensures
        segment_misread(s, i) matches Some((k, _, _)) ==> i <= k < s.len(),
    decreases s.len() - i,
{
    if i < 0 || i >= s.len() {
    } else if s[i] == '{' && i + 1 < s.len() && s[i + 1] == '{' {
        lemma_segment_misread_bounds(s, i + 2);
    } else if s[i] == '}' && i + 1 < s.len() && s[i + 1] == '}' {
        lemma_segment_misread_bounds(s, i + 2);
    } else if s[i] == '{' {
        let j = next_of(s, '}', i + 1);
        lemma_next_of(s, '}', i + 1);
        if j < s.len() && j != i + 1 && field_of(s.subrange(i + 1, j)) is Some {
            lemma_segment_misread_bounds(s, j + 1);
        }
    } else if s[i] == '}' {
    } else {
        lemma_segment_misread_bounds(s, i + 1);
    }
}

proof fn lemma_utf8_prefix(s: Seq<char>, i: int, j: int)
    requires
        0 <= i <= j <= s.len(),
    ensures
        utf8_bytes(s.subrange(0, i)) <= utf8_bytes(s.subrange(0, j)),
    decreases j - i,
{
    if i < j {
        lemma_utf8_prefix(s, i, j - 1);
        assert(s.subrange(0, j).drop_last() =~= s.subrange(0, j - 1));
    }
}

/// How many bytes UTF-8 spends on the first `k` characters.
fn bytes_before(t: &[char], k: usize) -> (r: usize)
    requires
        k <= t@.len(),
        utf8_bytes(t@) <= usize::MAX,
    ensures
        r == utf8_bytes(t@.subrange(0, k as int)),
{
    let mut n: usize = 0;
    let mut i: usize = 0;
    proof {
        assert(t@.subrange(0, 0) =~= Seq::<char>::empty());
    }
    while i < k
        invariant
            i <= k <= t@.len(),
            utf8_bytes(t@) <= usize::MAX,
            n == utf8_bytes(t@.subrange(0, i as int)),
        decreases k - i,
    {
        proof {
            lemma_utf8_prefix(t@, i + 1, t@.len() as int);
            assert(t@.subrange(0, t@.len() as int) =~= t@);
            assert(t@.subrange(0, i + 1).drop_last() =~= t@.subrange(0, i as int));
        }
        n = n + utf8_len_of(t[i]);
        i = i + 1;
    }
    n
}

/// The error for what is wrong at the `k`th character of a template.
fn misread_error(t: &[char], k: usize, m: Misread, name: &[char]) -> (e: Error)
    requires
        k <= t@.len(),
        utf8_bytes(t@) <= usize::MAX,
    ensures
        match m {
            Misread::Syntax(f) => e == Error::LayoutSyntax {
                at: utf8_bytes(t@.subrange(0, k as int)) as usize,
                fault: f,
            },
            Misread::Unknown => e matches Error::UnknownLayoutField { field } && field@ == name@,
        },
{
    match m {
        Misread::Syntax(f) => Error::LayoutSyntax { at: bytes_before(t, k), fault: f },
        Misread::Unknown => {
            let written = string_of(name);
            Error::UnknownLayoutField { field: FieldName::new(written.as_str()) }
        },
    }
}

/// Whether a segment's text is a step of the path itself.
fn step_text(s: &[char]) -> (r: bool)
    ensures
        r == is_step(s@),
{
    if s.len() == 1 && s[0] == '.' {
        assert(s@ =~= seq!['.']);
        true
    } else if s.len() == 2 && s[0] == '.' && s[1] == '.' {
        assert(s@ =~= seq!['.', '.']);
        true
    } else {
        false
    }
}

/// Whether a segment's pieces name the file's extension.
fn names_extension(pieces: &Vec<Piece>) -> (r: bool)
    ensures
        r == pieces_name_ext(pieces@),
{
    let mut k: usize = 0;
    while k < pieces.len()
        invariant
            k <= pieces@.len(),
            forall|j: int| 0 <= j < k ==> pieces@[j] != Piece::Named(Field::Extension),
        decreases pieces@.len() - k,
    {
        match &pieces[k] {
            Piece::Named(Field::Extension) => {
                return true;
            },
            _ => {},
        }
        k = k + 1;
    }
    false
}

proof fn lemma_no_step(ss: Seq<Seq<char>>)
    requires
        first_step(ss) is None,
    ensures
        forall|k: int| 0 <= k < ss.len() ==> !is_step(#[trigger] ss[k]),
    decreases ss.len(),
{
    if ss.len() > 0 {
        lemma_no_step(ss.drop_last());
        assert forall|k: int| 0 <= k < ss.len() implies !is_step(#[trigger] ss[k]) by {
            if k < ss.len() - 1 {
                assert(ss[k] == ss.drop_last()[k]);
            }
        }
    }
}

proof fn lemma_unfold_from(t: Seq<char>, from: int)
    requires
        0 <= from <= t.len(),
    ensures
        ({
            let end = next_of(t, '/', from);
            let s = t.subrange(from, end);
            &&& from <= end <= t.len()
            &&& end < t.len() ==> t[end] == '/'
            &&& no_separator(s)
            &&& misread_from(t, from) == if end == from {
                Some((from, Misread::Syntax(LayoutFault::EmptySegment), Seq::<char>::empty()))
            } else {
                match segment_misread(s, 0) {
                    Some((i, m, n)) => Some((from + i, m, n)),
                    None => if end >= t.len() {
                        None
                    } else {
                        misread_from(t, end + 1)
                    },
                }
            }
            &&& end >= t.len() ==> split_from(t, from) == seq![s]
            &&& end < t.len() ==> split_from(t, from) == seq![s] + split_from(t, end + 1)
        }),
{
    lemma_next_of(t, '/', from);
    reveal(misread_from);
    reveal(split_from);
}

impl Layout {
    /// Reads a layout from its template: segments separated by `/`, each of
    /// text and of fields named between braces, a brace in the text doubled.
    /// A fault is reported at the byte where it stands; a field no track is
    /// known by, by its name; a segment that is a step of the path itself,
    /// by its place.
    #[verifier::rlimit(30)]
    pub fn read(template: &str) -> (r: Result<Layout, Error>)
        requires
            utf8_bytes(template@) <= usize::MAX,
        ensures
            match layout_misread(template@) {
                Some((k, Misread::Syntax(f), _)) => r == Err::<Layout, Error>(
                    Error::LayoutSyntax { at: utf8_bytes(template@.subrange(0, k)) as usize, fault: f },
                ),
                Some((k, Misread::Unknown, name)) => r matches Err(
                    Error::UnknownLayoutField { field },
                ) && field@ == name,
                None => match first_step(split_from(template@, 0)) {
                    Some(k) => r == Err::<Layout, Error>(Error::LayoutEscapes { segment: k as usize }),
                    None => r matches Ok(l) && l.template() == template@ && l.well_formed(),
                },
            },
    {
        let t = chars_of(template);
        if t.len() == 0 {
            return Err(Error::LayoutSyntax { at: 0, fault: LayoutFault::Empty });
        }
        let mut segments: Vec<Segment> = Vec::new();
        let mut names_ext = false;
        let mut step: Option<usize> = None;
        let mut from: usize = 0;
        let ghost mut texts: Seq<Seq<char>> = seq![];
        loop
            invariant_except_break
                layout_misread(t@) == misread_from(t@, from as int),
                split_from(t@, 0) == texts + split_from(t@, from as int),
                texts.len() == 0 ==> from == 0,
                texts.len() > 0 ==> t@.subrange(0, from as int) == segments_template(
                    parts_of(segments@),
                ) + seq!['/'],
            invariant
                from <= t@.len(),
                t@ == template@,
                t@.len() > 0,
                utf8_bytes(t@) <= usize::MAX,
                segments@.len() == texts.len(),
                forall|k: int|
                    0 <= k < texts.len() ==> pieces_template(#[trigger] segments@[k].pieces@)
                        == texts[k] && segments@[k].pieces@.len() > 0 && normal_pieces(
                        segments@[k].pieces@,
                    ),
                match step {
                    Some(k) => first_step(texts) == Some(k as int),
                    None => first_step(texts) is None,
                },
                names_ext == parts_name_ext(parts_of(segments@)),
            ensures
                layout_misread(t@) is None,
                split_from(t@, 0) == texts,
                segments@.len() == texts.len(),
                texts.len() > 0,
                forall|k: int|
                    0 <= k < texts.len() ==> pieces_template(#[trigger] segments@[k].pieces@)
                        == texts[k] && segments@[k].pieces@.len() > 0 && normal_pieces(
                        segments@[k].pieces@,
                    ),
                segments_template(parts_of(segments@)) == t@,
                match step {
                    Some(k) => first_step(texts) == Some(k as int),
                    None => first_step(texts) is None,
                },
                names_ext == parts_name_ext(parts_of(segments@)),
            decreases t@.len() - from,
        {
            let end = next_of_exec(&t, '/', from);
            proof {
                lemma_unfold_from(t@, from as int);
            }
            if end == from {
                let at = bytes_before(&t, from);
                return Err(Error::LayoutSyntax { at, fault: LayoutFault::EmptySegment });
            }
            let s = slice_of(&t, from, end);
            assert(no_separator(s@));

            match read_segment(&s) {
                Err((i, m, name)) => {
                    proof {
                        lemma_segment_misread_bounds(s@, 0);
                    }
                    return Err(misread_error(&t, from + i, m, &name));
                },
                Ok(pieces) => {
                    let is_a_step = step_text(&s);
                    if step.is_none() && is_a_step {
                        step = Some(segments.len());
                    }
                    let named_ext = names_extension(&pieces);
                    let ghost old_segments = segments@;
                    let ghost old_texts = texts;
                    proof {
                        texts = texts.push(s@);
                        assert(texts.drop_last() =~= old_texts);
                    }
                    names_ext = names_ext || named_ext;
                    segments.push(Segment { pieces });
                    proof {
                        assert(parts_of(segments@) =~= parts_of(old_segments).push(s_pieces(segments@.last())));
                        assert(parts_of(segments@).drop_last() =~= parts_of(old_segments));
                        assert forall|k: int|
                            0 <= k < texts.len() implies pieces_template(
                            #[trigger] segments@[k].pieces@,
                        ) == texts[k] && segments@[k].pieces@.len() > 0 && normal_pieces(
                            segments@[k].pieces@,
                        ) by {
                            if k < old_texts.len() {
                                assert(segments@[k] == old_segments[k]);
                            } else {
                                assert(s@.len() > 0);
                            }
                        }
                    }
                    if end == t.len() {
                        proof {
                            assert(t@.subrange(from as int, t@.len() as int) =~= s@);
                            assert(split_from(t@, 0) =~= texts);
                            if old_texts.len() == 0 {
                                assert(t@ =~= s@);
                            } else {
                                assert(t@ =~= t@.subrange(0, from as int) + s@);
                            }
                        }
                        break ;
                    }
                    proof {
                        assert(split_from(t@, 0) =~= texts + split_from(t@, end + 1));
                        assert(t@.subrange(0, end + 1) =~= t@.subrange(0, from as int) + s@ + seq!['/']);
                    }
                    from = end + 1;
                },
            }
        }
        if let Some(k) = step {
            return Err(Error::LayoutEscapes { segment: k });
        }
        let layout = Layout { segments, names_the_extension: names_ext };
        proof {
            lemma_no_step(texts);
            assert forall|k: int| 0 <= k < layout.parts().len() implies #[trigger] layout.parts()[k].len() > 0
                && normal_pieces(layout.parts()[k]) && !is_step(pieces_template(layout.parts()[k])) by {
                assert(layout.parts()[k] == layout.segments@[k].pieces@);
                assert(!is_step(texts[k]));
            }
        }
        Ok(layout)
    }
}

/// The pieces of a segment.
pub closed spec fn s_pieces(s: Segment) -> Seq<Piece> {
    s.pieces@
}


/// What a track is known by when a layout is rendered for it. A disc is
/// never zero.
#[derive(Clone, Copy, Debug)]
pub struct Named<'a> {
    pub album_artist: Option<&'a str>,
    pub artist: Option<&'a str>,
    pub album: Option<&'a str>,
    pub title: &'a str,
    pub year: Option<i32>,
    pub disc: Option<u32>,
    pub discs: u32,
    pub track: Option<u32>,
    pub extension: Option<&'a str>,
}

/// Text that may be missing, missing text being none.
pub open spec fn opt_text(o: Option<&str>) -> Seq<char> {
    match o {
        Some(t) => t@,
        None => seq![],
    }
}

/// A year written in at least four characters, zeros in front and a sign
/// before them where it is negative.
pub open spec fn year_text(y: i32) -> Seq<char> {
    if y >= 0 {
        zero_padded(decimal(y as nat), 4)
    } else {
        seq!['-'] + zero_padded(decimal((-y) as nat), 3)
    }
}

/// What a field writes for a track: a year in four digits; a disc and a
/// dash, only where the release has more than one disc; a track number in
/// two digits; the rest as the track is known, or nothing.
pub open spec fn field_text(f: Field, named: Named) -> Seq<char> {
    match f {
        Field::AlbumArtist => opt_text(named.album_artist),
        Field::Artist => opt_text(named.artist),
        Field::Album => opt_text(named.album),
        Field::Title => named.title@,
        Field::Year => match named.year {
            Some(y) => year_text(y),
            None => seq![],
        },
        Field::Disc => match named.disc {
            Some(d) => if named.discs > 1 {
                decimal(d as nat) + seq!['-']
            } else {
                seq![]
            },
            None => seq![],
        },
        Field::Track => match named.track {
            Some(t) => zero_padded(decimal(t as nat), 2),
            None => seq![],
        },
        Field::Extension => opt_text(named.extension),
    }
}

/// What a segment's pieces write for a track, one after another: a literal
/// as it is, a field as the track is known by it.
pub open spec fn segment_written(ps: Seq<Piece>, named: Named) -> Seq<char>
    decreases ps.len(),
{
    if ps.len() == 0 {
        seq![]
    } else {
        segment_written(ps.drop_last(), named) + match ps.last() {
            Piece::Literal(t) => t@,
            Piece::Named(f) => field_text(f, named),
        }
    }
}

/// Appends what a field writes for a track.
pub fn write_field(field: Field, named: &Named, into: &mut Vec<char>)
    ensures
        final(into)@ == old(into)@ + field_text(field, *named),
{
    match field {
        Field::AlbumArtist => {
            if let Some(t) = named.album_artist {
                append_chars(into, &chars_of(t));
            }
        },
        Field::Artist => {
            if let Some(t) = named.artist {
                append_chars(into, &chars_of(t));
            }
        },
        Field::Album => {
            if let Some(t) = named.album {
                append_chars(into, &chars_of(t));
            }
        },
        Field::Title => {
            append_chars(into, &chars_of(named.title));
        },
        Field::Year => {
            if let Some(y) = named.year {
                if y >= 0 {
                    let digits = zero_padded_exec(decimal_of(y as u64), 4);
                    append_chars(into, &digits);
                } else {
                    let magnitude: i64 = -(y as i64);
                    let digits = zero_padded_exec(decimal_of(magnitude as u64), 3);
                    into.push('-');
                    append_chars(into, &digits);
                    assert(into@ =~= old(into)@ + field_text(field, *named));
                }
            }
        },
        Field::Disc => {
            if let Some(d) = named.disc {
                if named.discs > 1 {
                    let digits = decimal_of(d as u64);
                    append_chars(into, &digits);
                    into.push('-');
                    assert(into@ =~= old(into)@ + field_text(field, *named));
                }
            }
        },
        Field::Track => {
            if let Some(t) = named.track {
                let digits = zero_padded_exec(decimal_of(t as u64), 2);
                append_chars(into, &digits);
            }
        },
        Field::Extension => {
            if let Some(t) = named.extension {
                append_chars(into, &chars_of(t));
            }
        },
    }
}

impl Segment {
    /// The pieces of the segment.
    pub fn pieces(&self) -> (r: &[Piece])
        ensures
            r@ == s_pieces(*self),
    {
        self.pieces.as_slice()
    }

    /// What the segment writes for a track.
    pub fn write(&self, named: &Named) -> (r: String)
        ensures
            r@ == segment_written(s_pieces(*self), *named),
    {
        let written = self.written(named);
        string_of(&written)
    }

    fn written(&self, named: &Named) -> (r: Vec<char>)
        ensures
            r@ == segment_written(self.pieces@, *named),
    {
        let mut written: Vec<char> = Vec::new();
        let mut k: usize = 0;
        while k < self.pieces.len()
            invariant
                k <= self.pieces@.len(),
                written@ == segment_written(self.pieces@.subrange(0, k as int), *named),
            decreases self.pieces@.len() - k,
        {
            assert(self.pieces@.subrange(0, k + 1).drop_last() =~= self.pieces@.subrange(
                0,
                k as int,
            ));
            match &self.pieces[k] {
                Piece::Literal(t) => append_chars(&mut written, &chars_of(t.as_str())),
                Piece::Named(f) => write_field(*f, named, &mut written),
            }
            k = k + 1;
        }
        assert(self.pieces@.subrange(0, self.pieces@.len() as int) =~= self.pieces@);
        written
    }
}

/// What a volume will take in a name: anything, or only what a portable
/// volume such as FAT or NTFS takes.
#[derive(Clone, Copy, Debug, Default, PartialEq, Eq, Structural, Hash)]
pub enum Naming {
    #[default]
    Anything,
    Portable,
}

/// The characters a portable volume refuses in a name.
pub open spec fn refused_by_portable(c: char) -> bool {
    c == '\\' || c == ':' || c == '*' || c == '?' || c == '"' || c == '<' || c == '>' || c == '|'
}

/// Whether a volume named so refuses a character.
pub open spec fn refuses_char(naming: Naming, c: char) -> bool {
    naming == Naming::Portable && refused_by_portable(c)
}

impl Naming {
    /// Whether a volume named so refuses a character.
    pub fn refuses(self, character: char) -> (r: bool)
        ensures
            r == refuses_char(self, character),
    {
        match self {
            Naming::Portable => character == '\\' || character == ':' || character == '*'
                || character == '?' || character == '"' || character == '<' || character == '>'
                || character == '|',
            Naming::Anything => false,
        }
    }
}

/// What a character becomes in a component of a path: a separator, or a
/// character the volume refuses, a dash; a control character, nothing;
/// anything else, itself.
pub open spec fn component_char(c: char, naming: Naming) -> Seq<char> {
    if c == '/' || refuses_char(naming, c) {
        seq!['-']
    } else if c < ' ' || c == '\u{7f}' {
        seq![]
    } else {
        seq![c]
    }
}

/// Text with every character made what a component of a path holds.
pub open spec fn component_chars(s: Seq<char>, naming: Naming) -> Seq<char>
    decreases s.len(),
{
    if s.len() == 0 {
        seq![]
    } else {
        component_chars(s.drop_last(), naming) + component_char(s.last(), naming)
    }
}

/// Whether a character pads the end of a name: white space or a dot.
pub open spec fn is_padding(c: char) -> bool {
    is_space(c) || c == '.'
}

/// Text with its trailing white space and dots taken off.
pub open spec fn trim_end_padding(s: Seq<char>) -> Seq<char>
    decreases s.len(),
{
    if s.len() > 0 && is_padding(s.last()) {
        trim_end_padding(s.drop_last())
    } else {
        s
    }
}

/// Text without its padding: its leading white space, and its trailing
/// white space and dots, taken off.
pub open spec fn unpadded(s: Seq<char>) -> Seq<char> {
    trim_end_padding(trim_start(s))
}

/// The longest start of the text that UTF-8 writes in at most `budget`
/// bytes.
pub open spec fn within(s: Seq<char>, budget: int) -> Seq<char>
    decreases s.len(),
{
    if s.len() == 0 || utf8_len(s[0]) > budget {
        seq![]
    } else {
        seq![s[0]] + within(s.drop_first(), budget - utf8_len(s[0]))
    }
}

/// A name made one component of a path: its characters made what a
/// component holds, its padding taken off, cut to the bytes the budget
/// allows, and its padding taken off again.
pub open spec fn component(s: Seq<char>, budget: int, naming: Naming) -> Seq<char> {
    unpadded(within(unpadded(component_chars(s, naming)), budget))
}

proof fn lemma_utf8_front(s: Seq<char>)
    requires
        s.len() > 0,
    ensures
        utf8_bytes(s) == utf8_len(s[0]) + utf8_bytes(s.drop_first()),
    decreases s.len(),
{
    if s.len() > 1 {
        lemma_utf8_front(s.drop_last());
        assert(s.drop_last().drop_first() =~= s.drop_first().drop_last());
        assert(s.drop_last()[0] == s[0]);
    } else {
        assert(s.drop_first() =~= Seq::<char>::empty());
        assert(s.drop_last() =~= Seq::<char>::empty());
    }
}

/// What `within` keeps is a start of the text that fits the budget, and
/// the next character would not fit.
pub proof fn the_longest_start_within_the_budget(s: Seq<char>, budget: int)
    requires
        budget >= 0,
    ensures
        within(s, budget).len() <= s.len(),
        within(s, budget) == s.subrange(0, within(s, budget).len() as int),
        utf8_bytes(within(s, budget)) <= budget,
        within(s, budget).len() < s.len() ==> utf8_bytes(within(s, budget)) + utf8_len(
            s[within(s, budget).len() as int],
        ) > budget,
    decreases s.len(),
{
    if s.len() == 0 || utf8_len(s[0]) > budget {
        assert(s.subrange(0, 0) =~= Seq::<char>::empty());
    } else {
        let rest = s.drop_first();
        the_longest_start_within_the_budget(rest, budget - utf8_len(s[0]));
        let w = within(s, budget);
        let wr = within(rest, budget - utf8_len(s[0]));
        assert(w == seq![s[0]] + wr);
        assert(w =~= s.subrange(0, w.len() as int)) by {
            assert forall|k: int| 0 <= k < w.len() implies w[k] == s[k] by {
                if k > 0 {
                    assert(wr[k - 1] == rest.subrange(0, wr.len() as int)[k - 1]);
                    assert(w[k] == wr[k - 1]);
                    assert(wr[k - 1] == rest[k - 1]);
                }
            }
        }
        lemma_utf8_front(w);
        assert(w.drop_first() =~= wr);
        if w.len() < s.len() {
            assert(s[w.len() as int] == rest[wr.len() as int]);
        }
    }
}

/// The longest start of a text that UTF-8 writes in at most `budget` bytes:
/// the text itself where it fits, and never a part of a character.
pub fn largest_prefix_within(text: &str, budget: usize) -> (r: String)
    ensures
        r@ == within(text@, budget as int),
        r@ == text@.subrange(0, r@.len() as int),
        utf8_bytes(r@) <= budget,
        r@.len() < text@.len() ==> utf8_bytes(r@) + utf8_len(text@[r@.len() as int]) > budget,
{
    let v = chars_of(text);
    let kept = within_exec(&v, budget);
    proof {
        the_longest_start_within_the_budget(text@, budget as int);
    }
    string_of(&kept)
}

fn within_exec(s: &[char], budget: usize) -> (r: Vec<char>)
    ensures
        r@ == within(s@, budget as int),
{
    let mut used: usize = 0;
    let mut k: usize = 0;
    assert(s@.subrange(0, s@.len() as int) =~= s@);
    while k < s.len() && utf8_len_of(s[k]) <= budget - used
        invariant
            k <= s@.len(),
            used <= budget,
            within(s@, budget as int) == s@.subrange(0, k as int) + within(
                s@.subrange(k as int, s@.len() as int),
                budget - used,
            ),
        decreases s@.len() - k,
    {
        let ghost rest = s@.subrange(k as int, s@.len() as int);
        assert(rest.drop_first() =~= s@.subrange(k + 1, s@.len() as int));
        assert(s@.subrange(0, k + 1) =~= s@.subrange(0, k as int) + seq![s@[k as int]]);
        used = used + utf8_len_of(s[k]);
        k = k + 1;
    }
    proof {
        let rest = s@.subrange(k as int, s@.len() as int);
        assert(within(rest, budget - used) =~= Seq::<char>::empty());
    }
    slice_of(s, 0, k)
}

fn unpadded_chars(s: &[char]) -> (r: Vec<char>)
    ensures
        r@ == unpadded(s@),
{
    let start = start_of_text(s);
    let mut end = s.len();
    let ghost t = s@.subrange(start as int, s@.len() as int);
    assert(s@.subrange(start as int, end as int) == t);
    while end > start && (space(s[end - 1]) || s[end - 1] == '.')
        invariant
            start <= end <= s@.len(),
            t == s@.subrange(start as int, s@.len() as int),
            trim_end_padding(t) == trim_end_padding(s@.subrange(start as int, end as int)),
        decreases end,
    {
        assert(s@.subrange(start as int, end as int).drop_last() =~= s@.subrange(
            start as int,
            end - 1,
        ));
        end = end - 1;
    }
    slice_of(s, start, end)
}

/// Text without its padding: leading white space, and trailing white space
/// and dots.
pub fn without_padding(text: &str) -> (r: String)
    ensures
        r@ == unpadded(text@),
{
    let v = chars_of(text);
    string_of(&unpadded_chars(&v))
}

fn component_chars_exec(s: &[char], naming: Naming) -> (r: Vec<char>)
    ensures
        r@ == component_chars(s@, naming),
{
    let mut written: Vec<char> = Vec::new();
    let mut i: usize = 0;
    while i < s.len()
        invariant
            i <= s@.len(),
            written@ == component_chars(s@.subrange(0, i as int), naming),
        decreases s@.len() - i,
    {
        assert(s@.subrange(0, i + 1).drop_last() =~= s@.subrange(0, i as int));
        let c = s[i];
        if c == '/' || naming.refuses(c) {
            written.push('-');
        } else if c < ' ' || c == '\u{7f}' {
        } else {
            written.push(c);
        }
        i = i + 1;
        assert(written@ =~= component_chars(s@.subrange(0, i as int), naming));
    }
    assert(s@.subrange(0, s@.len() as int) =~= s@);
    written
}

fn component_exec(s: &[char], budget: usize, naming: Naming) -> (r: Vec<char>)
    ensures
        r@ == component(s@, budget as int, naming),
{
    let mapped = component_chars_exec(s, naming);
    let trimmed = unpadded_chars(&mapped);
    let cut = within_exec(&trimmed, budget);
    unpadded_chars(&cut)
}

/// A name made one component of a path a volume named so will take: a
/// separator, or a character the volume refuses, written as a dash, a
/// control character dropped, the padding taken off, and the rest cut to
/// the bytes the budget allows.
pub fn as_one_component(text: &str, budget: usize, naming: Naming) -> (r: String)
    ensures
        r@ == component(text@, budget as int, naming),
{
    let v = chars_of(text);
    string_of(&component_exec(&v, budget, naming))
}


/// The extension a rendering appends: the track's, where it has one, and
/// only where the layout does not name it.
pub open spec fn appended_ext(names_ext: bool, named: Named) -> Option<Seq<char>> {
    if names_ext {
        None
    } else {
        match named.extension {
            Some(e) => if e@.len() > 0 {
                Some(e@)
            } else {
                None
            },
            None => None,
        }
    }
}

/// The bytes the file's own name may spend, once the extension and its dot
/// are set aside.
pub open spec fn last_budget(appended: Option<Seq<char>>) -> int {
    match appended {
        Some(e) => if utf8_bytes(e) + 1 >= COMPONENT_BYTES {
            0
        } else {
            COMPONENT_BYTES - utf8_bytes(e) - 1
        },
        None => COMPONENT_BYTES as int,
    }
}

/// The folders a rendering writes for segments before the last: each that
/// resolves to something, followed by a separator; each that resolves to
/// nothing, dropped.
pub open spec fn folders_written(ps: Seq<Seq<Piece>>, named: Named, naming: Naming) -> Seq<char>
    decreases ps.len(),
{
    if ps.len() == 0 {
        seq![]
    } else {
        let c = component(segment_written(ps.last(), named), COMPONENT_BYTES as int, naming);
        folders_written(ps.drop_last(), named, naming) + if c.len() == 0 {
            seq![]
        } else {
            c + seq!['/']
        }
    }
}

/// Where a layout files a track, relative to its root: the folders its
/// segments resolve to, then the file's own name with the extension
/// appended where the layout does not name it; nothing where the file's own
/// name resolves to nothing.
pub open spec fn rendered(ps: Seq<Seq<Piece>>, names_ext: bool, named: Named, naming: Naming) -> Option<
    Seq<char>,
> {
    if ps.len() == 0 {
        None
    } else {
        let app = appended_ext(names_ext, named);
        let file = component(segment_written(ps.last(), named), last_budget(app), naming);
        if file.len() == 0 {
            None
        } else {
            Some(
                folders_written(ps.drop_last(), named, naming) + match app {
                    Some(e) => file + seq!['.'] + e,
                    None => file,
                },
            )
        }
    }
}

/// Whether a component of a path may hold a character where the volume is
/// named so: no separator, no control character, none the volume refuses.
pub open spec fn fits_a_component(c: char, naming: Naming) -> bool {
    &&& c != '/'
    &&& !(c < ' ' || c == '\u{7f}')
    &&& !refuses_char(naming, c)
}

/// Whether every character of a text fits a component of a path.
pub open spec fn all_fit(s: Seq<char>, naming: Naming) -> bool {
    forall|i: int| 0 <= i < s.len() ==> fits_a_component(#[trigger] s[i], naming)
}

/// A sound component of a path: something, neither `.` nor `..`, holding
/// only characters that fit, and no more bytes than a filesystem holds.
pub open spec fn sound_component(c: Seq<char>, naming: Naming) -> bool {
    &&& c.len() > 0
    &&& c != seq!['.']
    &&& c != seq!['.', '.']
    &&& all_fit(c, naming)
    &&& utf8_bytes(c) <= COMPONENT_BYTES
}

/// Whether the track's extension, where it has one, holds only characters
/// that fit a component of a path.
pub open spec fn plain_extension(named: Named, naming: Naming) -> bool {
    match named.extension {
        Some(e) => all_fit(e@, naming),
        None => true,
    }
}

/// The folders a rendering writes for segments before the last, each that
/// resolves to something.
pub open spec fn folder_components(ps: Seq<Seq<Piece>>, named: Named, naming: Naming) -> Seq<
    Seq<char>,
>
    decreases ps.len(),
{
    if ps.len() == 0 {
        seq![]
    } else {
        let c = component(segment_written(ps.last(), named), COMPONENT_BYTES as int, naming);
        folder_components(ps.drop_last(), named, naming) + if c.len() == 0 {
            seq![]
        } else {
            seq![c]
        }
    }
}

/// The last component a rendering writes: the file's own name, and the
/// extension appended where the layout does not name it.
pub open spec fn file_component(ps: Seq<Seq<Piece>>, names_ext: bool, named: Named, naming: Naming) -> Seq<
    char,
> {
    let app = appended_ext(names_ext, named);
    let file = component(segment_written(ps.last(), named), last_budget(app), naming);
    match app {
        Some(e) => file + seq!['.'] + e,
        None => file,
    }
}

/// The components of the path a rendering writes, in order.
pub open spec fn rendered_components(
    ps: Seq<Seq<Piece>>,
    names_ext: bool,
    named: Named,
    naming: Naming,
) -> Seq<Seq<char>> {
    folder_components(ps.drop_last(), named, naming).push(file_component(ps, names_ext, named, naming))
}

proof fn lemma_component_chars_fit(s: Seq<char>, naming: Naming)
    ensures
        all_fit(component_chars(s, naming), naming),
    decreases s.len(),
{
    if s.len() > 0 {
        lemma_component_chars_fit(s.drop_last(), naming);
        let a = component_chars(s.drop_last(), naming);
        let b = component_char(s.last(), naming);
        assert forall|i: int| 0 <= i < (a + b).len() implies fits_a_component(
            #[trigger] (a + b)[i],
            naming,
        ) by {
            if i >= a.len() {
                assert((a + b)[i] == b[i - a.len()]);
            } else {
                assert((a + b)[i] == a[i]);
            }
        }
    }
}

proof fn lemma_trim_start_keeps(s: Seq<char>, naming: Naming)
    ensures
        all_fit(s, naming) ==> all_fit(trim_start(s), naming),
        utf8_bytes(trim_start(s)) <= utf8_bytes(s),
    decreases s.len(),
{
    if s.len() > 0 && is_space(s[0]) {
        lemma_trim_start_keeps(s.drop_first(), naming);
        lemma_utf8_front(s);
        if all_fit(s, naming) {
            assert forall|i: int| 0 <= i < s.drop_first().len() implies fits_a_component(
                #[trigger] s.drop_first()[i],
                naming,
            ) by {
                assert(s.drop_first()[i] == s[i + 1]);
            }
        }
    }
}

proof fn lemma_trim_end_padding_keeps(s: Seq<char>, naming: Naming)
    ensures
        all_fit(s, naming) ==> all_fit(trim_end_padding(s), naming),
        utf8_bytes(trim_end_padding(s)) <= utf8_bytes(s),
        trim_end_padding(s).len() > 0 ==> trim_end_padding(s).last() != '.',
    decreases s.len(),
{
    if s.len() > 0 && is_padding(s.last()) {
        lemma_trim_end_padding_keeps(s.drop_last(), naming);
        if all_fit(s, naming) {
            assert forall|i: int| 0 <= i < s.drop_last().len() implies fits_a_component(
                #[trigger] s.drop_last()[i],
                naming,
            ) by {
                assert(s.drop_last()[i] == s[i]);
            }
        }
    }
}

proof fn lemma_utf8_concat(a: Seq<char>, b: Seq<char>)
    ensures
        utf8_bytes(a + b) == utf8_bytes(a) + utf8_bytes(b),
    decreases b.len(),
{
    if b.len() == 0 {
        assert(a + b =~= a);
    } else {
        lemma_utf8_concat(a, b.drop_last());
        assert((a + b).drop_last() =~= a + b.drop_last());
    }
}

/// A component holds only characters that fit, spends no more bytes than
/// its budget, and does not end with a dot.
proof fn lemma_component_sound(s: Seq<char>, budget: int, naming: Naming)
    requires
        budget >= 0,
    ensures
        all_fit(component(s, budget, naming), naming),
        utf8_bytes(component(s, budget, naming)) <= budget,
        component(s, budget, naming).len() > 0 ==> component(s, budget, naming).last() != '.',
        budget == 0 ==> component(s, budget, naming).len() == 0,
{
    let a = component_chars(s, naming);
    lemma_component_chars_fit(s, naming);
    lemma_trim_start_keeps(a, naming);
    lemma_trim_end_padding_keeps(trim_start(a), naming);
    let u = unpadded(a);
    the_longest_start_within_the_budget(u, budget);
    let w = within(u, budget);
    assert(all_fit(w, naming)) by {
        assert forall|i: int| 0 <= i < w.len() implies fits_a_component(#[trigger] w[i], naming) by {
            assert(w[i] == u.subrange(0, w.len() as int)[i]);
        }
    }
    lemma_trim_start_keeps(w, naming);
    lemma_trim_end_padding_keeps(trim_start(w), naming);
    if budget == 0 && u.len() > 0 {
        assert(utf8_len(u[0]) >= 1);
    }
}

proof fn lemma_sound_of_no_dot_end(c: Seq<char>, naming: Naming)
    requires
        c.len() > 0,
        c.last() != '.',
        all_fit(c, naming),
        utf8_bytes(c) <= COMPONENT_BYTES,
    ensures
        sound_component(c, naming),
{
    if c == seq!['.'] {
        assert(c.last() == '.');
    }
    if c == seq!['.', '.'] {
        assert(c.last() == '.');
    }
}

proof fn lemma_folders_sound(ps: Seq<Seq<Piece>>, named: Named, naming: Naming, x: Seq<char>)
    ensures
        folders_written(ps, named, naming) + x == crate::db::joined(
            folder_components(ps, named, naming).push(x),
            seq!['/'],
        ),
        forall|i: int|
            0 <= i < folder_components(ps, named, naming).len() ==> sound_component(
                #[trigger] folder_components(ps, named, naming)[i],
                naming,
            ),
    decreases ps.len(),
{
    if ps.len() == 0 {
        assert(folder_components(ps, named, naming).push(x) =~= seq![x]);
        assert(seq![] + x =~= x);
    } else {
        let init = ps.drop_last();
        let c = component(segment_written(ps.last(), named), COMPONENT_BYTES as int, naming);
        lemma_component_sound(segment_written(ps.last(), named), COMPONENT_BYTES as int, naming);
        let fc = folder_components(init, named, naming);
        if c.len() == 0 {
            lemma_folders_sound(init, named, naming, x);
            assert(folder_components(ps, named, naming) =~= fc);
            assert(folders_written(ps, named, naming) =~= folders_written(init, named, naming));
        } else {
            lemma_folders_sound(init, named, naming, c);
            lemma_sound_of_no_dot_end(c, naming);
            assert(folder_components(ps, named, naming) =~= fc.push(c));
            let whole = fc.push(c).push(x);
            assert(whole.drop_last() =~= fc.push(c));
            assert(crate::db::joined(whole, seq!['/']) == crate::db::joined(fc.push(c), seq!['/'])
                + seq!['/'] + x);
            assert(folders_written(ps, named, naming) + x =~= (folders_written(init, named, naming)
                + c) + seq!['/'] + x);
            assert forall|i: int|
                0 <= i < fc.push(c).len() implies sound_component(
                #[trigger] fc.push(c)[i],
                naming,
            ) by {
                if i < fc.len() {
                    assert(fc.push(c)[i] == fc[i]);
                }
            }
        }
    }
}

/// Every component of a path a layout renders is sound: something, neither
/// `.` nor `..`, holding no separator, no control character and none the
/// volume refuses, and no more bytes than a filesystem holds; the path is
/// those components with a separator between each and the next. It asks
/// of the track only that its extension hold characters that fit.
pub proof fn a_rendered_path_is_made_of_sound_components(
    ps: Seq<Seq<Piece>>,
    names_ext: bool,
    named: Named,
    naming: Naming,
)
    requires
        plain_extension(named, naming),
    ensures
        rendered(ps, names_ext, named, naming) matches Some(p) ==> {
            &&& p == crate::db::joined(
                rendered_components(ps, names_ext, named, naming),
                seq!['/'],
            )
            &&& forall|i: int|
                0 <= i < rendered_components(ps, names_ext, named, naming).len() ==> sound_component(
                    #[trigger] rendered_components(ps, names_ext, named, naming)[i],
                    naming,
                )
        },
{
    if ps.len() > 0 {
        let app = appended_ext(names_ext, named);
        let budget = last_budget(app);
        let file = component(segment_written(ps.last(), named), budget, naming);
        lemma_component_sound(segment_written(ps.last(), named), budget, naming);
        if file.len() > 0 {
            let last = file_component(ps, names_ext, named, naming);
            lemma_folders_sound(ps.drop_last(), named, naming, last);
            match app {
                Some(e) => {
                    lemma_utf8_concat(file, seq!['.']);
                    lemma_utf8_concat(file + seq!['.'], e);
                    assert(utf8_bytes(seq!['.']) == 1) by {
                        assert(seq!['.'].drop_last() =~= Seq::<char>::empty());
                        assert(utf8_bytes(Seq::<char>::empty()) == 0);
                        assert(('.' as u32) == 46);
                        assert(utf8_len('.') == 1);
                    }
                    assert(all_fit(e, naming)) by {
                        assert(named.extension matches Some(x) && x@ == e);
                    }
                    assert(all_fit(last, naming)) by {
                        assert forall|i: int| 0 <= i < last.len() implies fits_a_component(
                            #[trigger] last[i],
                            naming,
                        ) by {
                            if i < file.len() {
                                assert(last[i] == file[i]);
                            } else if i == file.len() {
                                assert(last[i] == '.');
                            } else {
                                assert(last[i] == e[i - file.len() - 1]);
                            }
                        }
                    }
                    assert(last.len() >= 3);
                    assert(last != seq!['.']);
                    assert(last != seq!['.', '.']);
                },
                None => {
                    lemma_sound_of_no_dot_end(file, naming);
                },
            }
            let rc = rendered_components(ps, names_ext, named, naming);
            let fc = folder_components(ps.drop_last(), named, naming);
            assert forall|i: int| 0 <= i < rc.len() implies sound_component(#[trigger] rc[i], naming) by {
                if i < fc.len() {
                    assert(rc[i] == fc[i]);
                } else {
                    assert(rc[i] == last);
                }
            }
        }
    }
}

/// How many bytes UTF-8 spends on the text, or `cap` where it spends more.
fn bytes_capped(s: &[char], cap: usize) -> (r: usize)
    requires
        cap <= 4096,
    ensures
        r == if utf8_bytes(s@) < cap {
            utf8_bytes(s@)
        } else {
            cap as nat
        },
{
    let mut n: usize = 0;
    let mut i: usize = 0;
    assert(s@.subrange(0, 0) =~= Seq::<char>::empty());
    while i < s.len()
        invariant
            i <= s@.len(),
            cap <= 4096,
            n == utf8_bytes(s@.subrange(0, i as int)),
            n < cap || (i == 0 && cap == 0),
        decreases s@.len() - i,
    {
        if n >= cap {
            proof {
                lemma_utf8_prefix(s@, i as int, s@.len() as int);
                assert(s@.subrange(0, s@.len() as int) =~= s@);
            }
            return cap;
        }
        assert(s@.subrange(0, i + 1).drop_last() =~= s@.subrange(0, i as int));
        n = n + utf8_len_of(s[i]);
        i = i + 1;
        if n >= cap {
            proof {
                lemma_utf8_prefix(s@, i as int, s@.len() as int);
                assert(s@.subrange(0, s@.len() as int) =~= s@);
            }
            return cap;
        }
    }
    assert(s@.subrange(0, s@.len() as int) =~= s@);
    if n >= cap {
        return cap;
    }
    n
}

impl Layout {
    /// Whether the layout names the file's extension.
    pub closed spec fn names_ext(self) -> bool {
        self.names_the_extension
    }

    /// The segments of the layout.
    pub fn segments(&self) -> (r: &[Segment])
        ensures
            r@.map_values(|s: Segment| s_pieces(s)) == self.parts(),
    {
        self.segments.as_slice()
    }

    /// The extension a rendering appends: the track's, where it has one,
    /// and only where the layout does not name it.
    pub fn appended_extension<'a>(&self, named: &Named<'a>) -> (r: Option<&'a str>)
        ensures
            match appended_ext(self.names_ext(), *named) {
                Some(e) => r matches Some(x) && x@ == e,
                None => r is None,
            },
    {
        if self.names_the_extension {
            return None;
        }
        match named.extension {
            Some(e) => {
                if !e.is_empty() {
                    Some(e)
                } else {
                    None
                }
            },
            None => None,
        }
    }
}


impl Layout {
    /// Where the layout files a track, relative to its root, on a volume
    /// named so: the folders its segments resolve to, a segment that
    /// resolves to nothing dropped, then the file's own name with the
    /// extension appended where the layout does not name it; each component
    /// cut to the bytes a filesystem holds. Nothing where the file's own
    /// name resolves to nothing.
    pub fn render(&self, named: &Named, naming: Naming) -> (r: Option<String>)
        ensures
            match rendered(self.parts(), self.names_ext(), *named, naming) {
                Some(p) => r matches Some(x) && x@ == p,
                None => r is None,
            },
    {
        let n = self.segments.len();
        if n == 0 {
            return None;
        }
        let last = n - 1;
        let appended = self.appended_extension(named);
        let budget: usize = match appended {
            Some(e) => {
                let ev = chars_of(e);
                let spent = bytes_capped(&ev, COMPONENT_BYTES);
                if spent + 1 >= COMPONENT_BYTES {
                    0
                } else {
                    COMPONENT_BYTES - spent - 1
                }
            },
            None => COMPONENT_BYTES,
        };
        assert(budget == last_budget(appended_ext(self.names_ext(), *named)));
        let mut path: Vec<char> = Vec::new();
        let mut k: usize = 0;
        while k < last
            invariant
                k <= last,
                last + 1 == self.segments@.len(),
                self.parts().len() == self.segments@.len(),
                path@ == folders_written(self.parts().subrange(0, k as int), *named, naming),
            decreases last - k,
        {
            assert(self.parts().subrange(0, k + 1).drop_last() =~= self.parts().subrange(
                0,
                k as int,
            ));
            assert(self.parts()[k as int] == self.segments@[k as int].pieces@);
            let written = self.segments[k].written(named);
            let c = component_exec(&written, COMPONENT_BYTES, naming);
            if c.len() > 0 {
                append_chars(&mut path, &c);
                path.push('/');
            }
            k = k + 1;
            assert(path@ =~= folders_written(self.parts().subrange(0, k as int), *named, naming));
        }
        assert(self.parts().subrange(0, last as int) =~= self.parts().drop_last());
        assert(self.parts().last() == self.segments@[last as int].pieces@);
        let written = self.segments[last].written(named);
        let file = component_exec(&written, budget, naming);
        if file.len() == 0 {
            return None;
        }
        append_chars(&mut path, &file);
        match appended {
            Some(e) => {
                path.push('.');
                append_chars(&mut path, &chars_of(e));
            },
            None => {},
        }
        Some(string_of(&path))
    }
}


/// The template of the layout a library is filed under until it is told
/// otherwise.
pub open spec fn default_template() -> Seq<char> {
    seq!['{'] + field_name(Field::AlbumArtist) + seq!['}', '/', '{'] + field_name(Field::Album)
        + seq!['}', '/', '{'] + field_name(Field::Disc) + seq!['}', '{'] + field_name(Field::Track)
        + seq!['}', ' ', '{'] + field_name(Field::Title) + seq!['}']
}

proof fn lemma_default_template()
    ensures
        DEFAULT_LAYOUT@ == default_template(),
{
    reveal_strlit("{albumartist}/{album}/{disc}{track} {title}");
    assert(DEFAULT_LAYOUT@ =~= default_template());
}

impl Default for Layout {
    /// The layout a library is filed under until it is told otherwise:
    /// the album's artist, the album, then the disc, the track number and
    /// the title.
    #[verifier::rlimit(80)]
    #[verifier::spinoff_prover]
    fn default() -> (r: Layout)
        ensures
            r.template() == DEFAULT_LAYOUT@,
            r.well_formed(),
    {
        let mut first: Vec<Piece> = Vec::new();
        first.push(Piece::Named(Field::AlbumArtist));
        let mut second: Vec<Piece> = Vec::new();
        second.push(Piece::Named(Field::Album));
        let mut third: Vec<Piece> = Vec::new();
        third.push(Piece::Named(Field::Disc));
        third.push(Piece::Named(Field::Track));
        third.push(Piece::Literal(string_of(&[' '])));
        third.push(Piece::Named(Field::Title));
        let mut segments: Vec<Segment> = Vec::new();
        segments.push(Segment { pieces: first });
        segments.push(Segment { pieces: second });
        segments.push(Segment { pieces: third });
        let layout = Layout { segments, names_the_extension: false };
        proof {
            lemma_default_template();
            let ps = layout.parts();
            assert(ps.len() == 3);
            assert(ps[0] == seq![Piece::Named(Field::AlbumArtist)]);
            assert(ps[1] == seq![Piece::Named(Field::Album)]);
            let third = ps[2];
            assert(third.len() == 4);
            assert(pieces_template(Seq::<Piece>::empty()) == Seq::<char>::empty());
            assert(pieces_template(ps[0]) =~= seq!['{'] + field_name(Field::AlbumArtist) + seq!['}']) by {
                assert(ps[0].drop_last() =~= Seq::<Piece>::empty());
                assert(ps[0].last() == Piece::Named(Field::AlbumArtist));
            }
            assert(pieces_template(ps[1]) =~= seq!['{'] + field_name(Field::Album) + seq!['}']) by {
                assert(ps[1].drop_last() =~= Seq::<Piece>::empty());
                assert(ps[1].last() == Piece::Named(Field::Album));
            }
            let p2 = third.drop_last();
            let p1 = p2.drop_last();
            let p0 = p1.drop_last();
            assert(p0.drop_last() =~= Seq::<Piece>::empty());
            assert(p0.last() == Piece::Named(Field::Disc));
            assert(p1.last() == Piece::Named(Field::Track));
            assert(third.last() == Piece::Named(Field::Title));
            assert(pieces_template(p0) =~= seq!['{'] + field_name(Field::Disc) + seq!['}']);
            match p2.last() {
                Piece::Literal(t) => {
                    assert(t@ == seq![' ']);
                    assert(escape(Seq::<char>::empty()) == Seq::<char>::empty());
                    assert(t@.drop_last() =~= Seq::<char>::empty());
                    assert(escape(t@) =~= seq![' ']);
                },
                _ => {},
            }
            assert(piece_template(p2.last()) =~= seq![' ']);
            assert(pieces_template(p1) == pieces_template(p0) + piece_template(p1.last()));
            assert(pieces_template(p2) == pieces_template(p1) + piece_template(p2.last()));
            assert(pieces_template(third) == pieces_template(p2) + piece_template(third.last()));
            assert(pieces_template(third) =~= seq!['{'] + field_name(Field::Disc) + seq!['}']
                + seq!['{'] + field_name(Field::Track) + seq!['}'] + seq![' '] + seq!['{']
                + field_name(Field::Title) + seq!['}']);
            assert(ps.drop_last().drop_last() =~= seq![ps[0]]);
            assert(ps.drop_last() =~= seq![ps[0], ps[1]]);
            assert(segments_template(ps.drop_last().drop_last()) == pieces_template(ps[0]));
            assert(segments_template(ps.drop_last()) == pieces_template(ps[0]) + seq!['/']
                + pieces_template(ps[1]));
            assert(layout.template() == segments_template(ps.drop_last()) + seq!['/']
                + pieces_template(ps[2]));
            assert(layout.template() =~= default_template());
            assert(!parts_name_ext(ps)) by {
                assert forall|k: int| 0 <= k < third.len() implies third[k] != Piece::Named(
                    Field::Extension,
                ) by {
                    if k == 0 {
                        assert(third[k] == p0.last());
                    } else if k == 1 {
                        assert(third[k] == p1.last());
                    } else if k == 2 {
                        assert(third[k] == p2.last());
                    } else {
                        assert(third[k] == third.last());
                    }
                }
                assert(!pieces_name_ext(third));
                assert(!pieces_name_ext(ps[0]));
                assert(!pieces_name_ext(ps[1]));
                let q0 = ps.drop_last().drop_last();
                assert(q0.drop_last() =~= Seq::<Seq<Piece>>::empty());
                assert(!parts_name_ext(q0.drop_last()));
                assert(q0.last() == ps[0]);
                assert(!parts_name_ext(q0));
                assert(ps.drop_last().last() == ps[1]);
                assert(!parts_name_ext(ps.drop_last()));
            }
        }
        layout
    }
}


/// How far the ordering of a planned move has got.
#[derive(Clone, Copy, Debug, PartialEq, Eq, Structural)]
pub enum Step {
    Unwalked,
    Walking,
    Ordered,
    Doomed,
}

/// Whether the move at `i` can be made within `fuel` steps of its chain:
/// it is not doomed, and it waits on nothing, or on a move that can be made
/// within one step fewer.
pub open spec fn goes(waits: Seq<Option<usize>>, doomed: Seq<bool>, i: int, fuel: nat) -> bool
    decreases fuel,
{
    if fuel == 0 || !(0 <= i < waits.len()) || doomed[i] {
        false
    } else {
        match waits[i] {
            None => true,
            Some(j) => goes(waits, doomed, j as int, (fuel - 1) as nat),
        }
    }
}

/// Whether the move at `i` can be made: its chain of waits ends, and
/// passes no doomed move on the way.
pub open spec fn settles(waits: Seq<Option<usize>>, doomed: Seq<bool>, i: int) -> bool {
    exists|fuel: nat| goes(waits, doomed, i, fuel)
}

proof fn lemma_goes_more_fuel(
    waits: Seq<Option<usize>>,
    doomed: Seq<bool>,
    i: int,
    fuel: nat,
    more: nat,
)
    requires
        goes(waits, doomed, i, fuel),
        fuel <= more,
    ensures
        goes(waits, doomed, i, more),
    decreases fuel,
{
    if let Some(j) = waits[i] {
        lemma_goes_more_fuel(waits, doomed, j as int, (fuel - 1) as nat, (more - 1) as nat);
    }
}

/// A move that waits on another settles exactly where that other does,
/// unless it is doomed itself.
proof fn lemma_settles_step(waits: Seq<Option<usize>>, doomed: Seq<bool>, i: int, j: usize)
    requires
        0 <= i < waits.len(),
        i < doomed.len(),
        waits[i] == Some(j),
        !doomed[i],
    ensures
        settles(waits, doomed, i) == settles(waits, doomed, j as int),
{
    if settles(waits, doomed, i) {
        let f = choose|f: nat| goes(waits, doomed, i, f);
        assert(f > 0);
        assert(goes(waits, doomed, j as int, (f - 1) as nat));
    }
    if settles(waits, doomed, j as int) {
        let f = choose|f: nat| goes(waits, doomed, j as int, f);
        assert((f + 1 - 1) as nat == f);
        assert(goes(waits, doomed, i, f + 1));
    }
}

/// Moves waiting on each other round a cycle never settle.
proof fn lemma_cycle_never_goes(
    waits: Seq<Option<usize>>,
    doomed: Seq<bool>,
    chain: Seq<usize>,
    from: int,
    fuel: nat,
)
    requires
        0 <= from < chain.len(),
        forall|k: int| 0 <= k < chain.len() - 1 ==> waits[#[trigger] chain[k] as int] == Some(
            chain[k + 1],
        ),
        waits[chain.last() as int] == Some(chain[from]),
        forall|k: int| 0 <= k < chain.len() ==> 0 <= #[trigger] chain[k] < waits.len(),
    ensures
        forall|k: int| from <= k < chain.len() ==> !goes(waits, doomed, #[trigger] chain[k] as int, fuel),
    decreases fuel,
{
    if fuel > 0 {
        lemma_cycle_never_goes(waits, doomed, chain, from, (fuel - 1) as nat);
        assert forall|k: int| from <= k < chain.len() implies !goes(
            waits,
            doomed,
            #[trigger] chain[k] as int,
            fuel,
        ) by {
            if k < chain.len() - 1 {
                assert(!goes(waits, doomed, chain[k + 1] as int, (fuel - 1) as nat));
            } else {
                assert(!goes(waits, doomed, chain[from] as int, (fuel - 1) as nat));
            }
        }
    }
}

proof fn lemma_distinct_bounded(s: Seq<usize>, n: nat)
    requires
        s.no_duplicates(),
        forall|k: int| 0 <= k < s.len() ==> s[k] < n,
    ensures
        s.len() <= n,
{
    let t = s.map_values(|x: usize| x as int);
    assert(t.no_duplicates()) by {
        assert forall|i: int, j: int| 0 <= i < t.len() && 0 <= j < t.len() && i != j implies t[i]
            != t[j] by {
            assert(s[i] != s[j]);
        }
    }
    t.unique_seq_to_set();
    assert(t.to_set().subset_of(vstd::set_lib::set_int_range(0, n as int))) by {
        assert forall|x: int| t.to_set().contains(x) implies vstd::set_lib::set_int_range(
            0,
            n as int,
        ).contains(x) by {
            let k = choose|k: int| 0 <= k < t.len() && t[k] == x;
            assert(s[k] < n);
        }
    }
    vstd::set_lib::lemma_int_range(0, n as int);
    vstd::set_lib::lemma_len_subset(t.to_set(), vstd::set_lib::set_int_range(0, n as int));
}


/// Where a move waits on another: the moves it waits on are each placed
/// before it in the order.
pub open spec fn waits_come_first(waits: Seq<Option<usize>>, order: Seq<usize>) -> bool {
    forall|p: int|
        0 <= p < order.len() ==> (waits[#[trigger] order[p] as int] matches Some(b) ==> exists|q: int|
            0 <= q < p && order[q] == b)
}

/// What holds of the steps between one chain of waits and the next: no
/// move is half walked, a move is ordered exactly where it stands in the
/// order and exactly where it settles, a move is doomed only where it never
/// settles, a doomed move stays so, and the order places each move once,
/// after the move it waits on.
#[verifier::opaque]
pub open spec fn walk_holds(
    waits: Seq<Option<usize>>,
    doomed: Seq<bool>,
    state: Seq<Step>,
    order: Seq<usize>,
) -> bool {
    &&& state.len() == waits.len()
    &&& forall|i: int| 0 <= i < state.len() ==> #[trigger] state[i] != Step::Walking
    &&& forall|i: int|
        0 <= i < state.len() ==> (#[trigger] state[i] == Step::Ordered) == order.contains(
            i as usize,
        )
    &&& forall|i: int|
        0 <= i < state.len() ==> (#[trigger] state[i] == Step::Ordered ==> settles(
            waits,
            doomed,
            i,
        )) && (state[i] == Step::Doomed ==> !settles(waits, doomed, i))
    &&& forall|i: int| 0 <= i < state.len() ==> #[trigger] doomed[i] ==> state[i] == Step::Doomed
    &&& order.no_duplicates()
    &&& forall|p: int| 0 <= p < order.len() ==> #[trigger] order[p] < waits.len()
    &&& waits_come_first(waits, order)
}


/// Along a chain of waits, every move settles exactly where the last does.
proof fn lemma_chain_same(waits: Seq<Option<usize>>, doomed: Seq<bool>, chain: Seq<usize>, k: int)
    requires
        0 <= k < chain.len(),
        doomed.len() == waits.len(),
        forall|j: int| 0 <= j < chain.len() ==> #[trigger] chain[j] < waits.len(),
        forall|j: int| 0 <= j < chain.len() ==> !doomed[#[trigger] chain[j] as int],
        forall|j: int|
            0 <= j < chain.len() - 1 ==> waits[#[trigger] chain[j] as int] == Some(chain[j + 1]),
    ensures
        settles(waits, doomed, chain[k] as int) == settles(waits, doomed, chain.last() as int),
    decreases chain.len() - k,
{
    if k < chain.len() - 1 {
        lemma_chain_same(waits, doomed, chain, k + 1);
        lemma_settles_step(waits, doomed, chain[k] as int, chain[k + 1]);
    }
}

proof fn lemma_chain_all(waits: Seq<Option<usize>>, doomed: Seq<bool>, chain: Seq<usize>)
    requires
        chain.len() > 0,
        doomed.len() == waits.len(),
        forall|j: int| 0 <= j < chain.len() ==> #[trigger] chain[j] < waits.len(),
        forall|j: int| 0 <= j < chain.len() ==> !doomed[#[trigger] chain[j] as int],
        forall|j: int|
            0 <= j < chain.len() - 1 ==> waits[#[trigger] chain[j] as int] == Some(chain[j + 1]),
    ensures
        forall|k: int|
            0 <= k < chain.len() ==> settles(waits, doomed, #[trigger] chain[k] as int) == settles(
                waits,
                doomed,
                chain.last() as int,
            ),
{
    assert forall|k: int| 0 <= k < chain.len() implies settles(
        waits,
        doomed,
        #[trigger] chain[k] as int,
    ) == settles(waits, doomed, chain.last() as int) by {
        lemma_chain_same(waits, doomed, chain, k);
    }
}


/// What a walk of a chain keeps: the chain is some distinct moves, each
/// marked as being walked and unwalked before the walk, each waiting on
/// the next; every other move is as it was.
#[verifier::opaque]
pub open spec fn chain_holds(
    waits: Seq<Option<usize>>,
    s0: Seq<Step>,
    state: Seq<Step>,
    chain: Seq<usize>,
) -> bool {
    &&& state.len() == waits.len()
    &&& s0.len() == waits.len()
    &&& chain.no_duplicates()
    &&& chain.len() <= waits.len()
    &&& forall|k: int| 0 <= k < chain.len() ==> #[trigger] chain[k] < waits.len()
    &&& forall|k: int|
        0 <= k < chain.len() ==> #[trigger] state[chain[k] as int] == Step::Walking && s0[chain[k] as int]
            == Step::Unwalked
    &&& forall|i: int| 0 <= i < waits.len() && !chain.contains(i as usize) ==> #[trigger] state[i] == s0[i]
    &&& forall|k: int|
        0 <= k < chain.len() - 1 ==> waits[#[trigger] chain[k] as int] == Some(chain[k + 1])
}

proof fn lemma_walk_holds_at(
    waits: Seq<Option<usize>>,
    doomed: Seq<bool>,
    state: Seq<Step>,
    order: Seq<usize>,
    i: int,
)
    requires
        walk_holds(waits, doomed, state, order),
        0 <= i < state.len(),
    ensures
        state.len() == waits.len(),
        state[i] != Step::Walking,
        (state[i] == Step::Ordered) == order.contains(i as usize),
        state[i] == Step::Ordered ==> settles(waits, doomed, i),
        state[i] == Step::Doomed ==> !settles(waits, doomed, i),
        doomed[i] ==> state[i] == Step::Doomed,
{
    reveal(walk_holds);
}

proof fn lemma_chain_start(waits: Seq<Option<usize>>, s0: Seq<Step>)
    requires
        s0.len() == waits.len(),
    ensures
        chain_holds(waits, s0, s0, Seq::<usize>::empty()),
{
    reveal(chain_holds);
}

proof fn lemma_chain_push(
    waits: Seq<Option<usize>>,
    s0: Seq<Step>,
    state: Seq<Step>,
    chain: Seq<usize>,
    at: usize,
)
    requires
        chain_holds(waits, s0, state, chain),
        at < waits.len(),
        state[at as int] == Step::Unwalked,
        chain.len() > 0 ==> waits[chain.last() as int] == Some(at),
    ensures
        chain_holds(waits, s0, state.update(at as int, Step::Walking), chain.push(at)),
        !chain.contains(at),
        s0[at as int] == Step::Unwalked,
{
    reveal(chain_holds);
    if chain.contains(at) {
        let k = choose|k: int| 0 <= k < chain.len() && chain[k] == at;
        assert(state[chain[k] as int] == Step::Walking);
    }
    let c = chain.push(at);
    let st = state.update(at as int, Step::Walking);
    assert(c.drop_last() =~= chain);
    assert forall|i: int, j: int| 0 <= i < c.len() && 0 <= j < c.len() && i != j implies c[i]
        != c[j] by {
        if i < chain.len() && j < chain.len() {
            assert(chain[i] != chain[j]);
        } else if i < chain.len() {
            assert(chain.contains(chain[i]));
        } else if j < chain.len() {
            assert(chain.contains(chain[j]));
        }
    }
    assert forall|k: int| 0 <= k < c.len() implies #[trigger] c[k] < waits.len() by {
        if k < chain.len() {
            assert(c[k] == chain[k]);
        }
    }
    lemma_distinct_bounded(c, waits.len());
    assert(s0[at as int] == state[at as int]);
    assert forall|k: int| 0 <= k < c.len() implies #[trigger] st[c[k] as int] == Step::Walking
        && s0[c[k] as int] == Step::Unwalked by {
        if k < chain.len() {
            assert(c[k] == chain[k]);
            assert(state[chain[k] as int] == Step::Walking);
        }
    }
    assert forall|i: int| 0 <= i < waits.len() && !c.contains(i as usize) implies #[trigger] st[i]
        == s0[i] by {
        assert(!chain.contains(i as usize)) by {
            if chain.contains(i as usize) {
                let k = choose|k: int| 0 <= k < chain.len() && chain[k] == i as usize;
                assert(c[k] == chain[k]);
            }
        }
        assert(c[chain.len() as int] == at);
        assert(i != at);
        assert(state[i] == s0[i]);
    }
    assert forall|k: int| 0 <= k < c.len() - 1 implies waits[#[trigger] c[k] as int] == Some(
        c[k + 1],
    ) by {
        assert(c[k] == chain[k]);
        if k + 1 < chain.len() {
            assert(c[k + 1] == chain[k + 1]);
        }
    }
}

proof fn lemma_chain_facts(
    waits: Seq<Option<usize>>,
    s0: Seq<Step>,
    state: Seq<Step>,
    chain: Seq<usize>,
    at: usize,
)
    requires
        chain_holds(waits, s0, state, chain),
        at < waits.len(),
    ensures
        chain.contains(at) ==> state[at as int] == Step::Walking,
        !chain.contains(at) ==> state[at as int] == s0[at as int],
        chain.len() <= waits.len(),
        chain.no_duplicates(),
        forall|k: int| 0 <= k < chain.len() ==> #[trigger] chain[k] < waits.len(),
        forall|k: int| 0 <= k < chain.len() ==> #[trigger] s0[chain[k] as int] == Step::Unwalked,
        forall|k: int|
            0 <= k < chain.len() - 1 ==> waits[#[trigger] chain[k] as int] == Some(chain[k + 1]),
        forall|i: int| 0 <= i < waits.len() && !chain.contains(i as usize) ==> #[trigger] state[i] == s0[i],
        state.len() == waits.len(),
{
    reveal(chain_holds);
    if chain.contains(at) {
        let k = choose|k: int| 0 <= k < chain.len() && chain[k] == at;
        assert(state[chain[k] as int] == Step::Walking);
    }
    assert forall|k: int| 0 <= k < chain.len() implies #[trigger] s0[chain[k] as int] == Step::Unwalked by {
        assert(state[chain[k] as int] == Step::Walking);
    }
}

/// How a chain of walked moves ends, given what it reached.
proof fn lemma_chain_outcome(
    waits: Seq<Option<usize>>,
    doomed: Seq<bool>,
    s0: Seq<Step>,
    order: Seq<usize>,
    chain: Seq<usize>,
    at: usize,
    outcome: Step,
)
    requires
        walk_holds(waits, doomed, s0, order),
        doomed.len() == waits.len(),
        s0.len() == waits.len(),
        chain.len() > 0,
        at < waits.len(),
        forall|k: int| 0 <= k < chain.len() ==> #[trigger] chain[k] < waits.len(),
        forall|k: int| 0 <= k < chain.len() ==> #[trigger] s0[chain[k] as int] == Step::Unwalked,
        forall|k: int|
            0 <= k < chain.len() - 1 ==> waits[#[trigger] chain[k] as int] == Some(chain[k + 1]),
        outcome == Step::Ordered ==> (waits[chain.last() as int] is None || (waits[chain.last() as int]
            == Some(at) && s0[at as int] == Step::Ordered)),
        outcome == Step::Doomed ==> waits[chain.last() as int] == Some(at) && (chain.contains(at)
            || s0[at as int] == Step::Doomed),
        outcome == Step::Ordered || outcome == Step::Doomed,
    ensures
        outcome == Step::Ordered ==> forall|k: int|
            0 <= k < chain.len() ==> settles(waits, doomed, #[trigger] chain[k] as int),
        outcome == Step::Doomed ==> forall|k: int|
            0 <= k < chain.len() ==> !settles(waits, doomed, #[trigger] chain[k] as int),
        outcome == Step::Ordered ==> (waits[chain.last() as int] matches Some(b) ==> order.contains(b)),
{
    assert forall|j: int| 0 <= j < chain.len() implies !doomed[#[trigger] chain[j] as int] by {
        lemma_walk_holds_at(waits, doomed, s0, order, chain[j] as int);
    }
    lemma_chain_all(waits, doomed, chain);
    let last = chain.last();
    if outcome == Step::Ordered {
        match waits[last as int] {
            None => {
                assert(goes(waits, doomed, last as int, 1));
            },
            Some(b) => {
                lemma_walk_holds_at(waits, doomed, s0, order, at as int);
                lemma_settles_step(waits, doomed, last as int, at);
            },
        }
    } else {
        if chain.contains(at) {
            let j = choose|j: int| 0 <= j < chain.len() && chain[j] == at;
            if settles(waits, doomed, chain[j] as int) {
                let f = choose|f: nat| goes(waits, doomed, chain[j] as int, f);
                lemma_cycle_never_goes(waits, doomed, chain, j, f);
            }
        } else {
            lemma_walk_holds_at(waits, doomed, s0, order, at as int);
            lemma_settles_step(waits, doomed, last as int, at);
        }
    }
}

/// Walks one chain of waits from `start`, marking each move on it as being
/// walked, and answers how the chain ends: ordered where it reaches a move
/// that waits on nothing or one already ordered, doomed where it comes back
/// on itself or reaches a doomed move.
fn walk_chain(waits: &[Option<usize>], state: &mut Vec<Step>, start: usize, Ghost(doomed): Ghost<
    Seq<bool>,
>, Ghost(order): Ghost<Seq<usize>>) -> (r: (Vec<usize>, Step))
    requires
        start < waits@.len(),
        doomed.len() == waits@.len(),
        forall|i: int| 0 <= i < waits@.len() ==> (#[trigger] waits@[i] matches Some(j) ==> j
            < waits@.len()),
        walk_holds(waits@, doomed, old(state)@, order),
        old(state)@.len() == waits@.len(),
        old(state)@[start as int] == Step::Unwalked,
    ensures
        r.0@.len() > 0,
        r.0@[0] == start,
        chain_holds(waits@, old(state)@, final(state)@, r.0@),
        r.1 == Step::Ordered || r.1 == Step::Doomed,
        r.1 == Step::Ordered ==> forall|k: int|
            0 <= k < r.0@.len() ==> settles(waits@, doomed, #[trigger] r.0@[k] as int),
        r.1 == Step::Doomed ==> forall|k: int|
            0 <= k < r.0@.len() ==> !settles(waits@, doomed, #[trigger] r.0@[k] as int),
        r.1 == Step::Ordered ==> (waits@[r.0@.last() as int] matches Some(b) ==> order.contains(
            b,
        )),
{
    let n = waits.len();
    let ghost s0 = state@;
    let mut chain: Vec<usize> = Vec::new();
    let mut at: usize = start;
    let outcome: Step;
    proof {
        lemma_chain_start(waits@, s0);
    }
    loop
        invariant_except_break
            chain@.len() > 0 ==> waits@[chain@.last() as int] == Some(at),
            chain@.len() == 0 ==> at == start,
        invariant
            n == waits@.len(),
            s0.len() == n,
            start < n,
            doomed.len() == n,
            forall|i: int| 0 <= i < n ==> (#[trigger] waits@[i] matches Some(j) ==> j < n),
            walk_holds(waits@, doomed, s0, order),
            s0[start as int] == Step::Unwalked,
            at < n,
            chain_holds(waits@, s0, state@, chain@),
            chain@.len() > 0 ==> chain@[0] == start,
        ensures
            chain@.len() > 0,
            chain@[0] == start,
            chain_holds(waits@, s0, state@, chain@),
            outcome == Step::Ordered || outcome == Step::Doomed,
            outcome == Step::Ordered ==> (waits@[chain@.last() as int] is None || (waits@[chain@.last() as int]
                == Some(at) && s0[at as int] == Step::Ordered)),
            outcome == Step::Doomed ==> waits@[chain@.last() as int] == Some(at) && (chain@.contains(at)
                || s0[at as int] == Step::Doomed),
        decreases n - chain@.len(),
    {
        proof {
            lemma_chain_facts(waits@, s0, state@, chain@, at);
        }
        let here = state[at];
        match here {
            Step::Unwalked => {
                proof {
                    lemma_chain_push(waits@, s0, state@, chain@, at);
                    lemma_chain_facts(waits@, s0, state@.update(at as int, Step::Walking), chain@.push(at), at);
                }
                state.set(at, Step::Walking);
                chain.push(at);
                match waits[at] {
                    Some(next) => {
                        at = next;
                    },
                    None => {
                        outcome = Step::Ordered;
                        break ;
                    },
                }
            },
            Step::Ordered => {
                proof {
                    lemma_walk_holds_at(waits@, doomed, s0, order, at as int);
                }
                outcome = Step::Ordered;
                break ;
            },
            _ => {
                proof {
                    lemma_walk_holds_at(waits@, doomed, s0, order, at as int);
                }
                outcome = Step::Doomed;
                break ;
            },
        }
    }
    proof {
        lemma_chain_facts(waits@, s0, state@, chain@, at);
        lemma_chain_outcome(waits@, doomed, s0, order, chain@, at, outcome);
    }
    (chain, outcome)
}


/// Which moves are doomed before any chain is walked.
pub open spec fn doomed_at_first(state: Seq<Step>) -> Seq<bool> {
    Seq::new(state.len(), |i: int| state[i] == Step::Doomed)
}

/// A chain, last first.
pub open spec fn last_first(chain: Seq<usize>) -> Seq<usize> {
    Seq::new(chain.len(), |p: int| chain[chain.len() - 1 - p])
}

proof fn lemma_walk_begins(waits: Seq<Option<usize>>, state: Seq<Step>)
    requires
        state.len() == waits.len(),
        forall|i: int|
            0 <= i < state.len() ==> #[trigger] state[i] == Step::Unwalked || state[i] == Step::Doomed,
    ensures
        walk_holds(waits, doomed_at_first(state), state, Seq::<usize>::empty()),
{
    reveal(walk_holds);
    let doomed = doomed_at_first(state);
    assert forall|i: int| 0 <= i < state.len() implies (#[trigger] state[i] == Step::Ordered
        ==> settles(waits, doomed, i)) && (state[i] == Step::Doomed ==> !settles(
        waits,
        doomed,
        i,
    )) by {
        if state[i] == Step::Doomed && settles(waits, doomed, i) {
            let f = choose|f: nat| goes(waits, doomed, i, f);
            assert(doomed[i]);
        }
    }
}

proof fn lemma_chain_settled(
    waits: Seq<Option<usize>>,
    doomed: Seq<bool>,
    s0: Seq<Step>,
    order0: Seq<usize>,
    chain: Seq<usize>,
    outcome: Step,
    state: Seq<Step>,
    order: Seq<usize>,
)
    requires
        walk_holds(waits, doomed, s0, order0),
        waits.len() <= usize::MAX,
        doomed.len() == waits.len(),
        s0.len() == waits.len(),
        state.len() == waits.len(),
        chain.len() > 0,
        chain.no_duplicates(),
        forall|k: int| 0 <= k < chain.len() ==> #[trigger] chain[k] < waits.len(),
        forall|k: int| 0 <= k < chain.len() ==> #[trigger] s0[chain[k] as int] == Step::Unwalked,
        forall|k: int|
            0 <= k < chain.len() - 1 ==> waits[#[trigger] chain[k] as int] == Some(chain[k + 1]),
        outcome == Step::Ordered || outcome == Step::Doomed,
        outcome == Step::Ordered ==> forall|k: int|
            0 <= k < chain.len() ==> settles(waits, doomed, #[trigger] chain[k] as int),
        outcome == Step::Doomed ==> forall|k: int|
            0 <= k < chain.len() ==> !settles(waits, doomed, #[trigger] chain[k] as int),
        outcome == Step::Ordered ==> (waits[chain.last() as int] matches Some(b) ==> order0.contains(b)),
        forall|i: int|
            0 <= i < waits.len() ==> #[trigger] state[i] == if chain.contains(i as usize) {
                outcome
            } else {
                s0[i]
            },
        order == if outcome == Step::Ordered {
            order0 + last_first(chain)
        } else {
            order0
        },
    ensures
        walk_holds(waits, doomed, state, order),
{
    reveal(walk_holds);
    let n = waits.len();
    let tail = last_first(chain);
    assert forall|i: int| 0 <= i < n implies (#[trigger] state[i] == Step::Ordered) == order.contains(
        i as usize,
    ) by {
        if chain.contains(i as usize) {
            let k = choose|k: int| 0 <= k < chain.len() && chain[k] == i as usize;
            if outcome == Step::Ordered {
                assert(order[order0.len() + (chain.len() - 1 - k)] == i as usize);
            }
            assert(s0[chain[k] as int] == Step::Unwalked);
            assert(chain[k] as int == i);
            assert(s0[i] == Step::Unwalked);
            assert(!order0.contains(i as usize));
            if outcome == Step::Doomed {
                assert(order == order0);
            }
        } else {
            if outcome == Step::Ordered && order.contains(i as usize) {
                let p = choose|p: int| 0 <= p < order.len() && order[p] == i as usize;
                if p >= order0.len() {
                    assert(tail[p - order0.len()] == chain[chain.len() - 1 - (p - order0.len())]);
                    assert(chain.contains(i as usize));
                } else {
                    assert(order0.contains(i as usize));
                }
            }
            if order0.contains(i as usize) && outcome == Step::Ordered {
                let p = choose|p: int| 0 <= p < order0.len() && order0[p] == i as usize;
                assert(order[p] == i as usize);
            }
        }
    }
    assert forall|i: int| 0 <= i < n implies (#[trigger] state[i] == Step::Ordered ==> settles(
        waits,
        doomed,
        i,
    )) && (state[i] == Step::Doomed ==> !settles(waits, doomed, i)) by {
        if chain.contains(i as usize) {
            let k = choose|k: int| 0 <= k < chain.len() && chain[k] == i as usize;
            assert(chain[k] as int == i);
            if outcome == Step::Ordered {
                assert(settles(waits, doomed, chain[k] as int));
            } else {
                assert(!settles(waits, doomed, chain[k] as int));
            }
        }
    }
    assert forall|i: int| 0 <= i < n implies #[trigger] doomed[i] ==> state[i] == Step::Doomed by {
        if chain.contains(i as usize) && doomed[i] {
            let k = choose|k: int| 0 <= k < chain.len() && chain[k] == i as usize;
            assert(s0[i] == Step::Doomed);
        }
    }
    assert forall|i: int| 0 <= i < n implies #[trigger] state[i] != Step::Walking by {
    }
    if outcome == Step::Ordered {
        assert forall|i: int, j: int|
            0 <= i < order.len() && 0 <= j < order.len() && i != j implies order[i] != order[j] by {
            if i >= order0.len() && j >= order0.len() {
                assert(chain[chain.len() - 1 - (i - order0.len())] != chain[chain.len() - 1 - (j
                    - order0.len())]);
            } else if i >= order0.len() {
                let k = chain.len() - 1 - (i - order0.len());
                assert(order[i] == chain[k]);
                assert(s0[chain[k] as int] == Step::Unwalked);
                assert(order0.contains(order0[j]));
                assert(s0[order0[j] as int] == Step::Ordered);
            } else if j >= order0.len() {
                let k = chain.len() - 1 - (j - order0.len());
                assert(order[j] == chain[k]);
                assert(s0[chain[k] as int] == Step::Unwalked);
                assert(order0.contains(order0[i]));
                assert(s0[order0[i] as int] == Step::Ordered);
            }
        }
        assert forall|p: int| 0 <= p < order.len() implies #[trigger] order[p] < n by {
            if p >= order0.len() {
                assert(order[p] == chain[chain.len() - 1 - (p - order0.len())]);
            }
        }
        assert forall|p: int|
            0 <= p < order.len() implies (waits[#[trigger] order[p] as int] matches Some(b)
            ==> exists|q: int| 0 <= q < p && order[q] == b) by {
            if p < order0.len() {
                if let Some(b) = waits[order[p] as int] {
                    assert(waits[order0[p] as int] == Some(b));
                    let q = choose|q: int| 0 <= q < p && order0[q] == b;
                    assert(order[q] == b);
                }
            } else {
                let k = chain.len() - 1 - (p - order0.len());
                assert(order[p] == chain[k]);
                if let Some(b) = waits[order[p] as int] {
                    if k == chain.len() - 1 {
                        assert(order0.contains(b));
                        let q = choose|q: int| 0 <= q < order0.len() && order0[q] == b;
                        assert(order[q] == b);
                    } else {
                        assert(waits[chain[k] as int] == Some(chain[k + 1]));
                        assert(order[p - 1] == chain[k + 1]);
                    }
                }
            }
        }
    }
}

/// The order in which planned moves can be made, each given by the move it
/// waits on, if any, and its state: a move is placed after the move it
/// waits on, once; a move is placed exactly where its chain of waits ends
/// without coming back on itself and without reaching a doomed move. Every
/// move is left ordered or doomed accordingly.
pub fn walked(waits: &[Option<usize>], state: &mut Vec<Step>) -> (order: Vec<usize>)
    requires
        old(state)@.len() == waits@.len(),
        forall|i: int| 0 <= i < waits@.len() ==> (#[trigger] waits@[i] matches Some(j) ==> j
            < waits@.len()),
        forall|i: int|
            0 <= i < old(state)@.len() ==> #[trigger] old(state)@[i] == Step::Unwalked || old(
                state,
            )@[i] == Step::Doomed,
    ensures
        order@.no_duplicates(),
        forall|p: int| 0 <= p < order@.len() ==> #[trigger] order@[p] < waits@.len(),
        waits_come_first(waits@, order@),
        forall|i: int|
            0 <= i < waits@.len() ==> (order@.contains(i as usize) <==> settles(
                waits@,
                doomed_at_first(old(state)@),
                i,
            )),
        final(state)@.len() == waits@.len(),
        forall|i: int|
            0 <= i < waits@.len() ==> #[trigger] final(state)@[i] == if settles(
                waits@,
                doomed_at_first(old(state)@),
                i,
            ) {
                Step::Ordered
            } else {
                Step::Doomed
            },
{
    let n = waits.len();
    let ghost doomed = doomed_at_first(state@);
    let mut order: Vec<usize> = Vec::new();
    proof {
        lemma_walk_begins(waits@, state@);
    }
    let mut start: usize = 0;
    while start < n
        invariant
            n == waits@.len(),
            state@.len() == n,
            doomed.len() == n,
            start <= n,
            forall|i: int| 0 <= i < n ==> (#[trigger] waits@[i] matches Some(j) ==> j < n),
            walk_holds(waits@, doomed, state@, order@),
            forall|i: int| 0 <= i < start ==> #[trigger] state@[i] != Step::Unwalked,
        decreases n - start,
    {
        if state[start] != Step::Unwalked {
            start = start + 1;
            continue ;
        }
        let ghost s0 = state@;
        let ghost order0 = order@;
        let (chain, outcome) = walk_chain(waits, state, start, Ghost(doomed), Ghost(order@));
        let ghost walked_state = state@;
        proof {
            lemma_chain_facts(waits@, s0, walked_state, chain@, start);
        }
        let mut k = chain.len();
        while k > 0
            invariant
                k <= chain@.len(),
                n == waits@.len(),
                state@.len() == n,
                chain@.len() <= n,
                forall|j: int| 0 <= j < chain@.len() ==> #[trigger] chain@[j] < n,
                chain@.no_duplicates(),
                forall|i: int|
                    0 <= i < n ==> #[trigger] state@[i] == if chain@.subrange(
                        k as int,
                        chain@.len() as int,
                    ).contains(i as usize) {
                        outcome
                    } else {
                        walked_state[i]
                    },
                order@ == if outcome == Step::Ordered {
                    order0 + last_first(chain@.subrange(k as int, chain@.len() as int))
                } else {
                    order0
                },
            decreases k,
        {
            k = k - 1;
            let step = chain[k];
            let ghost before = state@;
            let ghost before_order = order@;
            state.set(step, outcome);
            if outcome == Step::Ordered {
                order.push(step);
            }
            proof {
                let done = chain@.subrange(k as int, chain@.len() as int);
                let was = chain@.subrange(k + 1, chain@.len() as int);
                assert(done =~= seq![step] + was);
                assert forall|i: int| 0 <= i < n implies #[trigger] state@[i] == if done.contains(
                    i as usize,
                ) {
                    outcome
                } else {
                    walked_state[i]
                } by {
                    if i == step as int {
                        assert(done[0] == step);
                    } else {
                        assert(state@[i] == before[i]);
                        if was.contains(i as usize) {
                            let p = choose|p: int| 0 <= p < was.len() && was[p] == i as usize;
                            assert(done[p + 1] == i as usize);
                        }
                        if done.contains(i as usize) {
                            let p = choose|p: int| 0 <= p < done.len() && done[p] == i as usize;
                            assert(p > 0);
                            assert(was[p - 1] == i as usize);
                        }
                    }
                }
                if outcome == Step::Ordered {
                    assert(last_first(done) =~= last_first(was).push(step));
                    assert(order@ =~= order0 + last_first(done));
                }
            }
        }
        proof {
            assert(chain@.subrange(0, chain@.len() as int) =~= chain@);
            assert forall|i: int| 0 <= i < n implies #[trigger] state@[i] == if chain@.contains(
                i as usize,
            ) {
                outcome
            } else {
                s0[i]
            } by {
                if !chain@.contains(i as usize) {
                    assert(walked_state[i] == s0[i]);
                }
            }
            lemma_chain_settled(waits@, doomed, s0, order0, chain@, outcome, state@, order@);
            assert forall|i: int| 0 <= i < start + 1 implies #[trigger] state@[i] != Step::Unwalked by {
                if i == start as int {
                    assert(chain@[0] == start);
                    assert(chain@.contains(start));
                } else {
                    assert(s0[i] != Step::Unwalked);
                    if chain@.contains(i as usize) {
                    } else {
                        assert(state@[i] == s0[i]);
                    }
                }
            }
        }
        start = start + 1;
    }
    proof {
        reveal(walk_holds);
        assert forall|i: int| 0 <= i < n implies (order@.contains(i as usize) <==> settles(
            waits@,
            doomed,
            i,
        )) by {
            assert(state@[i] != Step::Unwalked);
            assert(state@[i] != Step::Walking);
        }
    }
    order
}


/// A file that travels with a track: a sheet or a file named after it.
#[derive(Clone, Debug, PartialEq, Eq)]
pub struct Sidecar {
    pub from: String,
    pub to: String,
}

/// Another file cut out of the same sheet, moving with the first.
#[derive(Clone, Debug, PartialEq, Eq)]
pub struct Companion {
    pub from: String,
    pub to: String,
    pub rows: u32,
}

/// A planned move of a file, the rows cut out of it, the files moving with
/// it and those that travel with it.
#[derive(Clone, Debug, PartialEq, Eq)]
pub struct Move {
    pub from: String,
    pub to: String,
    pub rows: u32,
    pub companions: Vec<Companion>,
    pub sidecars: Vec<Sidecar>,
}

/// The files a move takes: its own, then each companion's, as where each
/// is and where it goes.
pub open spec fn move_files(m: Move) -> Seq<(Seq<char>, Seq<char>)> {
    seq![(m.from@, m.to@)] + Seq::new(
        m.companions@.len(),
        |k: int| (m.companions@[k].from@, m.companions@[k].to@),
    )
}

impl Move {
    /// The files the move takes: its own first, then each companion's.
    pub fn files(&self) -> (r: Vec<(&str, &str)>)
        ensures
            r@.map_values(|p: (&str, &str)| (p.0@, p.1@)) == move_files(*self),
    {
        let mut files: Vec<(&str, &str)> = Vec::new();
        files.push((self.from.as_str(), self.to.as_str()));
        let mut k: usize = 0;
        while k < self.companions.len()
            invariant
                k <= self.companions@.len(),
                files@.map_values(|p: (&str, &str)| (p.0@, p.1@)) == seq![(self.from@, self.to@)]
                    + Seq::new(
                    k as nat,
                    |j: int| (self.companions@[j].from@, self.companions@[j].to@),
                ),
            decreases self.companions@.len() - k,
        {
            let companion = &self.companions[k];
            let ghost before = files@;
            files.push((companion.from.as_str(), companion.to.as_str()));
            assert(files@.map_values(|p: (&str, &str)| (p.0@, p.1@)) =~= before.map_values(
                |p: (&str, &str)| (p.0@, p.1@),
            ).push((self.companions@[k as int].from@, self.companions@[k as int].to@)));
            k = k + 1;
            assert(files@.map_values(|p: (&str, &str)| (p.0@, p.1@)) =~= seq![
                (self.from@, self.to@),
            ] + Seq::new(k as nat, |j: int| (self.companions@[j].from@, self.companions@[j].to@)));
        }
        assert(Seq::new(
            k as nat,
            |j: int| (self.companions@[j].from@, self.companions@[j].to@),
        ) =~= Seq::new(
            self.companions@.len(),
            |j: int| (self.companions@[j].from@, self.companions@[j].to@),
        ));
        files
    }
}

/// Why a track was left where it stands. A move that failed carries the
/// name of the kind of input or output error that stopped it.
#[derive(Clone, Debug, PartialEq, Eq)]
pub enum Refusal {
    Unidentified,
    Loose,
    Collided { with: String },
    SharesASheet { sheet: String },
    SourceGone,
    Unmoved { kind: String },
}

/// A track left where it stands, and why.
#[derive(Clone, Debug, PartialEq, Eq)]
pub struct Refused {
    pub from: String,
    pub refusal: Refusal,
}

/// What an organising pass plans: the moves in the order they can be made,
/// the tracks it leaves, how many stand where they belong already, and the
/// folders the moves would empty, deepest first.
#[derive(Clone, Debug, Default, PartialEq, Eq)]
pub struct Plan {
    pub moves: Vec<Move>,
    pub refused: Vec<Refused>,
    pub unchanged: u64,
    pub folders: Vec<String>,
}

/// How many files the moves take, one for each and one for each companion.
pub open spec fn files_in(moves: Seq<Move>) -> nat
    decreases moves.len(),
{
    if moves.len() == 0 {
        0
    } else {
        files_in(moves.drop_last()) + 1 + moves.last().companions@.len()
    }
}

impl Plan {
    /// How many files the plan moves: each move's own, and its
    /// companions'.
    pub fn files_moving(&self) -> (r: usize)
        requires
            files_in(self.moves@) <= usize::MAX,
        ensures
            r == files_in(self.moves@),
    {
        let mut total: usize = 0;
        let mut k: usize = 0;
        while k < self.moves.len()
            invariant
                k <= self.moves@.len(),
                files_in(self.moves@) <= usize::MAX,
                total == files_in(self.moves@.subrange(0, k as int)),
            decreases self.moves@.len() - k,
        {
            assert(self.moves@.subrange(0, k + 1).drop_last() =~= self.moves@.subrange(0, k as int));
            proof {
                lemma_files_in_prefix(self.moves@, k + 1);
            }
            total = total + 1 + self.moves[k].companions.len();
            k = k + 1;
        }
        assert(self.moves@.subrange(0, self.moves@.len() as int) =~= self.moves@);
        total
    }
}

proof fn lemma_files_in_prefix(moves: Seq<Move>, k: int)
    requires
        0 <= k <= moves.len(),
    ensures
        files_in(moves.subrange(0, k)) <= files_in(moves),
    decreases moves.len() - k,
{
    if k < moves.len() {
        lemma_files_in_prefix(moves, k + 1);
        assert(moves.subrange(0, k + 1).drop_last() =~= moves.subrange(0, k));
    } else {
        assert(moves.subrange(0, k) =~= moves);
    }
}

/// What an organising pass is asked to do: file the tracks under these
/// roots by this layout, and make the moves or only plan them.
#[derive(Clone, Debug, Default, PartialEq, Eq)]
pub struct OrganiseOptions {
    pub layout: Layout,
    pub roots: Vec<String>,
    pub apply: bool,
}

/// How an organising pass ended.
#[derive(Clone, Debug, Default, PartialEq, Eq)]
pub struct OrganiseSummary {
    pub stats: OrganiseStats,
    pub plan: Plan,
    pub cancelled: bool,
}

/// The counter a track left where it stands is counted under.
#[derive(Clone, Copy, Debug, PartialEq, Eq, Structural)]
pub enum Tally {
    Unidentified,
    Collided,
    Failed,
}

/// The counter a refusal is counted under: a track not known well enough
/// to be filed is unidentified; one something else stands in the way of
/// collided; one the move could not be made for failed.
pub open spec fn tally_of(refusal: Refusal) -> Tally {
    match refusal {
        Refusal::Unidentified | Refusal::Loose => Tally::Unidentified,
        Refusal::Collided { .. } | Refusal::SharesASheet { .. } => Tally::Collided,
        Refusal::SourceGone | Refusal::Unmoved { .. } => Tally::Failed,
    }
}

/// The counter a refusal is counted under, as [`tally_of`] reads.
pub fn tally(refusal: &Refusal) -> (r: Tally)
    ensures
        r == tally_of(*refusal),
{
    match refusal {
        Refusal::Unidentified | Refusal::Loose => Tally::Unidentified,
        Refusal::Collided { .. } | Refusal::SharesASheet { .. } => Tally::Collided,
        Refusal::SourceGone | Refusal::Unmoved { .. } => Tally::Failed,
    }
}

/// Counts a track left where it stands under the counter [`tally`] names
/// for its refusal. The counters are shared atomics, of which nothing is
/// stated.
pub fn counted(progress: &OrganiseProgress, refusal: &Refusal) {
    match tally(refusal) {
        Tally::Unidentified => progress.count_unidentified(1),
        Tally::Collided => progress.count_collided(1),
        Tally::Failed => progress.count_failed(1),
    }
}

/// A planned move refused at the moment it was to be made: counted, and
/// noted as the track left where it stands.
pub fn refused_now(progress: &OrganiseProgress, planned: &Move, refusal: Refusal) -> (r: Refused)
    ensures
        r.from@ == planned.from@,
        r.refusal == refusal,
{
    counted(progress, &refusal);
    Refused { from: planned.from.clone(), refusal }
}

/// What follows a file's stem in the name of a file beside it, where the
/// name starts with the stem and goes on with a dot.
pub open spec fn trailing_spec(file: Seq<char>, stem: Seq<char>) -> Option<Seq<char>> {
    let name = file_name(file);
    if name.len() > stem.len() && name.subrange(0, stem.len() as int) == stem && name[stem.len() as int] == '.' {
        Some(name.subrange(stem.len() as int, name.len() as int))
    } else {
        None
    }
}


/// What follows a file's stem in the name of a file beside it, where the
/// name starts with the stem and goes on with a dot: `.cue` of `album.cue`
/// for the stem `album`.
pub fn trailing<'f>(file: &'f str, stem: &str) -> (r: Option<&'f str>)
    ensures
        match trailing_spec(file@, stem@) {
            Some(t) => r matches Some(x) && x@ == t,
            None => r is None,
        },
{
    let v = chars_of(file);
    let start = file_name_start(&v);
    let name = file.substring_char(start, v.len());
    let nv = chars_of(name);
    let sv = chars_of(stem);
    if nv.len() <= sv.len() {
        return None;
    }
    let head = slice_of(&nv, 0, sv.len());
    if !same_chars(&head, &sv) || nv[sv.len()] != '.' {
        return None;
    }
    let rest = name.substring_char(sv.len(), nv.len());
    Some(rest)
}


/// A path joined under a folder: the folder, a `/` where it does not end
/// with one, and the path; the path alone under no folder.
pub open spec fn joined_path(folder: Seq<char>, path: Seq<char>) -> Seq<char> {
    if folder.len() == 0 {
        path
    } else if folder.last() == '/' {
        folder + path
    } else {
        folder + seq!['/'] + path
    }
}

/// The folder a path names a file in: what comes before its final part,
/// without the `/` that ends it, unless that `/` is the root.
pub open spec fn folder_of(p: Seq<char>) -> Seq<char> {
    let start = p.len() - file_name(p).len();
    if start <= 0 {
        Seq::<char>::empty()
    } else if start == 1 {
        seq!['/']
    } else {
        p.take(start - 1)
    }
}

fn folder_of_exec(p: &[char]) -> (r: Vec<char>)
    ensures
        r@ == folder_of(p@),
{
    let start = file_name_start(p);
    if start == 0 {
        Vec::new()
    } else if start == 1 {
        let mut root: Vec<char> = Vec::new();
        root.push('/');
        assert(root@ =~= seq!['/']);
        root
    } else {
        let r = slice_of(p, 0, start - 1);
        assert(r@ =~= p@.take(start - 1));
        r
    }
}

fn joined_exec(folder: &[char], path: &[char]) -> (r: Vec<char>)
    ensures
        r@ == joined_path(folder@, path@),
{
    let mut r: Vec<char> = Vec::new();
    append_chars(&mut r, folder);
    if folder.len() > 0 && folder[folder.len() - 1] != '/' {
        r.push('/');
    }
    append_chars(&mut r, path);
    assert(r@ =~= joined_path(folder@, path@));
    r
}

/// Where a rendered path lands under a root.
pub fn destination_of(root: &str, rendered: &str) -> (r: String)
    ensures
        r@ == joined_path(root@, rendered@),
{
    string_of(&joined_exec(&chars_of(root), &chars_of(rendered)))
}

/// Where the rows cut out of one file are filed: where the layout puts
/// the only row; for several, the file keeps its name in the one folder
/// all the rows are rendered into, and none where they name two or where
/// any names nothing.
pub open spec fn rendered_for(renders: Seq<Option<String>>, path: Seq<char>) -> Option<Seq<char>> {
    if renders.len() == 1 {
        match renders[0] {
            Some(r) => Some(r@),
            None => None,
        }
    } else if renders.len() > 1 && (forall|i: int| 0 <= i < renders.len() ==> #[trigger] renders[i] is Some)
        && (forall|i: int|
        0 <= i < renders.len() ==> folder_of((#[trigger] renders[i])->0@) == folder_of(renders[0]->0@)) {
        Some(joined_path(folder_of(renders[0]->0@), file_name(path)))
    } else {
        None
    }
}

/// Where the rows cut out of one file are filed, as [`rendered_for`]
/// reads: `renders` holds what the layout renders for each row.
pub fn rendered_of(renders: &[Option<String>], path: &str) -> (r: Option<String>)
    ensures
        match rendered_for(renders@, path@) {
            Some(p) => r matches Some(s) && s@ == p,
            None => r is None,
        },
{
    if renders.len() == 0 {
        return None;
    }
    if renders.len() == 1 {
        return match &renders[0] {
            Some(r) => Some(r.clone()),
            None => None,
        };
    }
    let first = match &renders[0] {
        Some(r) => folder_of_exec(&chars_of(r.as_str())),
        None => return None,
    };
    let mut i: usize = 1;
    while i < renders.len()
        invariant
            1 <= i <= renders@.len(),
            renders@[0] is Some,
            first@ == folder_of(renders@[0]->0@),
            forall|k: int| 0 <= k < i ==> #[trigger] renders@[k] is Some,
            forall|k: int| 0 <= k < i ==> folder_of((#[trigger] renders@[k])->0@) == first@,
        decreases renders@.len() - i,
    {
        match &renders[i] {
            Some(r) => {
                let folder = folder_of_exec(&chars_of(r.as_str()));
                if !same_chars(&folder, &first) {
                    return None;
                }
            },
            None => return None,
        }
        i = i + 1;
    }
    let v = chars_of(path);
    let start = file_name_start(&v);
    let name = slice_of(&v, start, v.len());
    Some(string_of(&joined_exec(&first, &name)))
}

/// What stands where a file would land: a refusal, or a file that is
/// itself to move, which the move can wait for.
#[derive(Clone, Debug, PartialEq, Eq)]
pub enum Standing {
    Stands(Refusal),
    MayGo(String),
}

/// What stands where a file would land, from what the plan so far and
/// the file system say: a destination another move claims collides with
/// it; nothing stands where nothing is held; a source that is gone is
/// refused; the file itself, or a copy of it already made, is no
/// obstacle; a file that is itself to move may go first; any other
/// collides.
pub open spec fn standing_spec(
    to: Seq<char>,
    claimed_by: Option<String>,
    held: bool,
    source_held: bool,
    same_file: bool,
    copied: bool,
    moving: bool,
) -> Option<(bool, Seq<char>, Option<Refusal>)> {
    match claimed_by {
        Some(winner) => Some((false, winner@, None)),
        None => if !held || (source_held && (same_file || copied)) {
            None
        } else if !source_held {
            Some((false, Seq::<char>::empty(), Some(Refusal::SourceGone)))
        } else if moving {
            Some((true, to, None))
        } else {
            Some((false, to, None))
        },
    }
}

/// What stands where a file would land, as [`standing_spec`] reads it:
/// `claimed_by` is the file another move already sends there; `held`
/// whether anything is there on disk; `source_held` whether the file
/// itself still is; `same_file` whether the two are one file; `copied`
/// whether what is there is a whole copy of it; `moving` whether what is
/// there is itself to move.
pub fn standing_at(
    to: &str,
    claimed_by: Option<String>,
    held: bool,
    source_held: bool,
    same_file: bool,
    copied: bool,
    moving: bool,
) -> (r: Option<Standing>)
    ensures
        match standing_spec(to@, claimed_by, held, source_held, same_file, copied, moving) {
            None => r is None,
            Some((true, path, _)) => r matches Some(Standing::MayGo(p)) && p@ == path,
            Some((false, _, Some(refusal))) => r == Some(Standing::Stands(refusal)),
            Some((false, path, None)) => r matches Some(Standing::Stands(Refusal::Collided { with }))
                && with@ == path,
        },
{
    match claimed_by {
        Some(winner) => Some(Standing::Stands(Refusal::Collided { with: winner })),
        None => {
            if !held || (source_held && (same_file || copied)) {
                None
            } else if !source_held {
                Some(Standing::Stands(Refusal::SourceGone))
            } else if moving {
                Some(Standing::MayGo(to.to_owned()))
            } else {
                Some(Standing::Stands(Refusal::Collided { with: to.to_owned() }))
            }
        },
    }
}

/// A file the plan considers: where it is, the root it is filed under,
/// how many rows are cut out of it, and where the layout puts it under
/// the root, where it names anywhere.
#[derive(Clone, Debug, PartialEq, Eq)]
pub struct Member {
    pub from: String,
    pub root: String,
    pub rows: u32,
    pub rendered: Option<String>,
}

/// Where a member lands.
pub open spec fn landing_spec(m: Member) -> Seq<char> {
    joined_path(m.root@, m.rendered->0@)
}

/// Whether a member names nowhere, or nowhere with a folder in it.
pub open spec fn unplaced(m: Member) -> Option<Refusal> {
    match m.rendered {
        None => Some(Refusal::Unidentified),
        Some(r) => if crate::mounts::components(r@).len() < 2 {
            Some(Refusal::Loose)
        } else {
            None
        },
    }
}

/// Whether the `k`th member of files filed together keeps them from being
/// filed: it names nowhere, nowhere with a folder in it, or a folder other
/// than the first member's.
pub open spec fn faulty(ms: Seq<Member>, k: int) -> bool {
    unplaced(ms[k]) is Some || (k > 0 && folder_of(landing_spec(ms[k])) != folder_of(
        landing_spec(ms[0]),
    ))
}

/// The first member, from `from` on, that keeps the files from being
/// filed.
pub open spec fn first_faulty(ms: Seq<Member>, from: int) -> Option<int>
    decreases ms.len() - from,
{
    if from < 0 || from >= ms.len() {
        None
    } else if faulty(ms, from) {
        Some(from)
    } else {
        first_faulty(ms, from + 1)
    }
}

proof fn lemma_first_faulty(ms: Seq<Member>, from: int)
    requires
        0 <= from,
    ensures
        match first_faulty(ms, from) {
            Some(k) => from <= k < ms.len() && faulty(ms, k) && forall|j: int|
                from <= j < k ==> !faulty(ms, j),
            None => forall|j: int| from <= j < ms.len() ==> !faulty(ms, j),
        },
    decreases ms.len() - from,
{
    if from < ms.len() {
        lemma_first_faulty(ms, from + 1);
    }
}

/// What a refusal says, by the texts it holds.
pub open spec fn refusal_view(r: Refusal) -> (u8, Seq<char>) {
    match r {
        Refusal::Unidentified => (0, Seq::<char>::empty()),
        Refusal::Loose => (1, Seq::<char>::empty()),
        Refusal::Collided { with } => (2, with@),
        Refusal::SharesASheet { sheet } => (3, sheet@),
        Refusal::SourceGone => (4, Seq::<char>::empty()),
        Refusal::Unmoved { kind } => (5, kind@),
    }
}

/// The first sheet of files filed together, or no name at all.
pub open spec fn first_sheet(sheets: Seq<String>) -> Seq<char> {
    if sheets.len() > 0 {
        sheets[0]@
    } else {
        Seq::<char>::empty()
    }
}

/// Every member refused: the one at `owner`, where there is one, for its
/// own refusal; every other for sharing the first sheet.
pub open spec fn all_refused(
    ms: Seq<Member>,
    sheets: Seq<String>,
    owner: Option<(Seq<char>, (u8, Seq<char>))>,
) -> Seq<(Seq<char>, (u8, Seq<char>))> {
    Seq::new(
        ms.len(),
        |i: int|
            (
                ms[i].from@,
                match owner {
                    Some((path, refusal)) => if ms[i].from@ == path {
                        refusal
                    } else {
                        (3u8, first_sheet(sheets))
                    },
                    None => (3u8, first_sheet(sheets)),
                },
            ),
    )
}

/// The members that move: those whose landing is not where they are, in
/// order, by their places.
pub open spec fn moving_in(ms: Seq<Member>, upto: int) -> Seq<int>
    decreases upto,
{
    if upto <= 0 {
        seq![]
    } else {
        moving_in(ms, upto - 1) + if landing_spec(ms[upto - 1]) != ms[upto - 1].from@ {
            seq![upto - 1]
        } else {
            seq![]
        }
    }
}

/// The first moving member, among the first `upto` moving, that something
/// stands in the way of.
pub open spec fn first_standing(mv: Seq<int>, standing: Seq<Option<Standing>>, upto: int) -> Option<
    int,
>
    decreases upto,
{
    if upto <= 0 {
        None
    } else {
        match first_standing(mv, standing, upto - 1) {
            Some(k) => Some(k),
            None => if standing[mv[upto - 1]] is Some {
                Some(mv[upto - 1])
            } else {
                None
            },
        }
    }
}

/// The refusal a standing gives the member it stands in the way of: its
/// own, or a collision with the file that may go.
pub open spec fn standing_refusal(s: Standing) -> (u8, Seq<char>) {
    match s {
        Standing::Stands(r) => refusal_view(r),
        Standing::MayGo(p) => (2, p@),
    }
}

/// What filing files tied together by sheets comes to, by the texts it
/// holds.
pub enum TogetherView {
    /// Nothing to do: no members, or none that moves.
    Nothing,
    /// Every member refused, each with its refusal.
    Refused(Seq<(Seq<char>, (u8, Seq<char>))>),
    /// One move: the first moving member's file and landing and its rows;
    /// each other moving member's, as companions; the sheets, each into
    /// the landing folder.
    Moved {
        from: Seq<char>,
        to: Seq<char>,
        rows: u32,
        companions: Seq<(Seq<char>, Seq<char>, u32)>,
        sheets: Seq<(Seq<char>, Seq<char>)>,
    },
}

/// What filing files tied together by sheets comes to, and how many of
/// them stand where they belong already.
pub open spec fn together_of(
    ms: Seq<Member>,
    standing: Seq<Option<Standing>>,
    sheets: Seq<String>,
    sheet_taken: Seq<bool>,
) -> (TogetherView, nat) {
    match first_faulty(ms, 0) {
        Some(k) => (
            TogetherView::Refused(
                all_refused(
                    ms,
                    sheets,
                    match unplaced(ms[k]) {
                        Some(r) => Some((ms[k].from@, refusal_view(r))),
                        None => None,
                    },
                ),
            ),
            0,
        ),
        None => if ms.len() == 0 {
            (TogetherView::Nothing, 0)
        } else {
            let mv = moving_in(ms, ms.len() as int);
            let unchanged = (ms.len() - mv.len()) as nat;
            let landing = folder_of(landing_spec(ms[0]));
            if mv.len() == 0 {
                (TogetherView::Nothing, unchanged)
            } else {
                match first_standing(mv, standing, mv.len() as int) {
                    Some(k) => (
                        TogetherView::Refused(
                            all_refused(
                                ms,
                                sheets,
                                Some((ms[k].from@, standing_refusal(standing[k]->0))),
                            ),
                        ),
                        unchanged,
                    ),
                    None => if exists|j: int| 0 <= j < sheet_taken.len() && #[trigger] sheet_taken[j] {
                        (TogetherView::Refused(all_refused(ms, sheets, None)), unchanged)
                    } else {
                        (
                            TogetherView::Moved {
                                from: ms[mv[0]].from@,
                                to: landing_spec(ms[mv[0]]),
                                rows: ms[mv[0]].rows,
                                companions: companions_of(ms, mv, (mv.len() - 1) as nat),
                                sheets: sheets_into(sheets, landing, sheets.len()),
                            },
                            unchanged,
                        )
                    }
                }
            }
        },
    }
}

/// What filing files tied together by sheets comes to.
#[derive(Clone, Debug, PartialEq, Eq)]
pub enum Filed {
    /// Nothing to do: no members, or none that moves.
    Nothing,
    /// Every member left where it stands, each with its refusal.
    Refused(Vec<Refused>),
    /// The one move that takes them all.
    Moved(Move),
}

/// What filing files tied together comes to, and how many of them stand
/// where they belong already.
#[derive(Clone, Debug, PartialEq, Eq)]
pub struct Together {
    pub filed: Filed,
    pub unchanged: u64,
}

/// Refusals by the texts they hold.
pub open spec fn refusals_view(rs: Seq<Refused>) -> Seq<(Seq<char>, (u8, Seq<char>))> {
    rs.map_values(|r: Refused| (r.from@, refusal_view(r.refusal)))
}

/// Companions by the texts they hold.
pub open spec fn companions_view(cs: Seq<Companion>) -> Seq<(Seq<char>, Seq<char>, u32)> {
    cs.map_values(|c: Companion| (c.from@, c.to@, c.rows))
}

/// Sidecars by the texts they hold.
pub open spec fn sidecars_view(ss: Seq<Sidecar>) -> Seq<(Seq<char>, Seq<char>)> {
    ss.map_values(|s: Sidecar| (s.from@, s.to@))
}

/// Places as integers.
pub open spec fn places_view(v: Seq<usize>) -> Seq<int> {
    v.map_values(|x: usize| x as int)
}

/// The moving members after the first, as companions by the texts they
/// hold.
pub open spec fn companions_of(ms: Seq<Member>, mv: Seq<int>, count: nat) -> Seq<
    (Seq<char>, Seq<char>, u32),
> {
    Seq::new(count, |i: int| (ms[mv[i + 1]].from@, landing_spec(ms[mv[i + 1]]), ms[mv[i + 1]].rows))
}

/// Sheets moved into a landing folder, each by where it is and where it
/// goes.
pub open spec fn sheets_into(sheets: Seq<String>, landing: Seq<char>, count: nat) -> Seq<
    (Seq<char>, Seq<char>),
> {
    Seq::new(count, |i: int| (sheets[i]@, joined_path(landing, file_name(sheets[i]@))))
}

/// A filing by the texts it holds.
pub open spec fn filed_view(f: Filed) -> TogetherView {
    match f {
        Filed::Nothing => TogetherView::Nothing,
        Filed::Refused(rs) => TogetherView::Refused(refusals_view(rs@)),
        Filed::Moved(m) => TogetherView::Moved {
            from: m.from@,
            to: m.to@,
            rows: m.rows,
            companions: companions_view(m.companions@),
            sheets: sidecars_view(m.sidecars@),
        },
    }
}

/// The owner of the refusal a faulty member gives: itself, where it names
/// nowhere or nowhere with a folder; no one, where it names another folder.
pub open spec fn fault_owner(m: Member) -> Option<(Seq<char>, (u8, Seq<char>))> {
    match unplaced(m) {
        Some(r) => Some((m.from@, refusal_view(r))),
        None => None,
    }
}

proof fn lemma_together_faulty(
    ms: Seq<Member>,
    standing: Seq<Option<Standing>>,
    sheets: Seq<String>,
    sheet_taken: Seq<bool>,
    k: int,
)
    requires
        first_faulty(ms, 0) == Some(k),
    ensures
        together_of(ms, standing, sheets, sheet_taken).0 == TogetherView::Refused(
            all_refused(ms, sheets, fault_owner(ms[k])),
        ),
        together_of(ms, standing, sheets, sheet_taken).1 == 0,
{
}

proof fn lemma_moving_in(ms: Seq<Member>, upto: int)
    requires
        0 <= upto <= ms.len(),
    ensures
        moving_in(ms, upto).len() <= upto,
        forall|i: int| 0 <= i < moving_in(ms, upto).len() ==> 0 <= #[trigger] moving_in(ms, upto)[i] < upto,
    decreases upto,
{
    if upto > 0 {
        lemma_moving_in(ms, upto - 1);
    }
}

proof fn lemma_together_standing(
    ms: Seq<Member>,
    standing: Seq<Option<Standing>>,
    sheets: Seq<String>,
    sheet_taken: Seq<bool>,
    k: int,
)
    requires
        first_faulty(ms, 0) is None,
        ms.len() > 0,
        moving_in(ms, ms.len() as int).len() > 0,
        first_standing(moving_in(ms, ms.len() as int), standing, moving_in(ms, ms.len() as int).len() as int) == Some(k),
    ensures
        together_of(ms, standing, sheets, sheet_taken).0 == TogetherView::Refused(
            all_refused(ms, sheets, Some((ms[k].from@, standing_refusal(standing[k]->0)))),
        ),
        together_of(ms, standing, sheets, sheet_taken).1 == ms.len() - moving_in(ms, ms.len() as int).len(),
{
    lemma_moving_in(ms, ms.len() as int);
}

proof fn lemma_together_sheet(
    ms: Seq<Member>,
    standing: Seq<Option<Standing>>,
    sheets: Seq<String>,
    sheet_taken: Seq<bool>,
    j: int,
)
    requires
        first_faulty(ms, 0) is None,
        ms.len() > 0,
        moving_in(ms, ms.len() as int).len() > 0,
        first_standing(moving_in(ms, ms.len() as int), standing, moving_in(ms, ms.len() as int).len() as int) is None,
        0 <= j < sheet_taken.len(),
        sheet_taken[j],
    ensures
        together_of(ms, standing, sheets, sheet_taken).0 == TogetherView::Refused(
            all_refused(ms, sheets, None),
        ),
        together_of(ms, standing, sheets, sheet_taken).1 == ms.len() - moving_in(ms, ms.len() as int).len(),
{
    lemma_moving_in(ms, ms.len() as int);
}

fn refusal_copy(r: &Refusal) -> (c: Refusal)
    ensures
        c == *r,
{
    match r {
        Refusal::Unidentified => Refusal::Unidentified,
        Refusal::Loose => Refusal::Loose,
        Refusal::Collided { with } => Refusal::Collided { with: with.clone() },
        Refusal::SharesASheet { sheet } => Refusal::SharesASheet { sheet: sheet.clone() },
        Refusal::SourceGone => Refusal::SourceGone,
        Refusal::Unmoved { kind } => Refusal::Unmoved { kind: kind.clone() },
    }
}

fn refused_all(ms: &[Member], sheets: &[String], owner: Option<(&String, Refusal)>) -> (r: Vec<Refused>)
    ensures
        refusals_view(r@) == all_refused(
            ms@,
            sheets@,
            match owner {
                Some((path, refusal)) => Some((path@, refusal_view(refusal))),
                None => None,
            },
        ),
{
    let ghost owned = match &owner {
        Some((path, refusal)) => Some((path@, refusal_view(*refusal))),
        None => None,
    };
    let ghost want = all_refused(ms@, sheets@, owned);
    let sheet = if sheets.len() > 0 {
        sheets[0].clone()
    } else {
        String::new()
    };
    assert(sheet@ == first_sheet(sheets@));
    let mut r: Vec<Refused> = Vec::new();
    let mut i: usize = 0;
    while i < ms.len()
        invariant
            i <= ms@.len(),
            sheet@ == first_sheet(sheets@),
            want == all_refused(ms@, sheets@, owned),
            owned == match owner {
                Some((path, refusal)) => Some((path@, refusal_view(refusal))),
                None => None,
            },
            refusals_view(r@) == want.take(i as int),
        decreases ms@.len() - i,
    {
        let refusal = match &owner {
            Some((path, refusal)) => {
                if ms[i].from == **path {
                    refusal_copy(refusal)
                } else {
                    Refusal::SharesASheet { sheet: sheet.clone() }
                }
            },
            None => Refusal::SharesASheet { sheet: sheet.clone() },
        };
        let ghost was = r@;
        r.push(Refused { from: ms[i].from.clone(), refusal });
        assert(want.take(i + 1) =~= want.take(i as int).push(want[i as int]));
        assert(refusals_view(r@) =~= refusals_view(was).push(want[i as int]));
        i = i + 1;
    }
    assert(want.take(i as int) =~= want);
    r
}

/// Files a group tied together by sheets, as [`together_of`] reads:
/// `standing` says, for each member, what stands where it would land;
/// `sheet_taken`, for each sheet, whether anything stands where it would
/// land in the landing folder.
pub fn filed_together(
    members: &[Member],
    standing: &[Option<Standing>],
    sheets: &[String],
    sheet_taken: &[bool],
) -> (r: Together)
    requires
        members@.len() == standing@.len(),
        sheets@.len() == sheet_taken@.len(),
    ensures
        filed_view(r.filed) == together_of(members@, standing@, sheets@, sheet_taken@).0,
        r.unchanged as nat == together_of(members@, standing@, sheets@, sheet_taken@).1,
{
    let ms = members;
    proof {
        lemma_first_faulty(ms@, 0);
    }
    let n = ms.len();
    let mut landings: Vec<String> = Vec::new();
    let mut first_folder: Vec<char> = Vec::new();
    let mut k: usize = 0;
    while k < n
        invariant
            ms@ == members@,
            n == ms@.len(),
            k <= n,
            landings@.len() == k,
            forall|j: int| 0 <= j < k ==> !faulty(ms@, j),
            forall|j: int| 0 <= j < k ==> (#[trigger] landings@[j])@ == landing_spec(ms@[j]),
            k > 0 ==> first_folder@ == folder_of(landing_spec(ms@[0])),
            first_faulty(ms@, 0) == first_faulty(ms@, k as int),
        decreases n - k,
    {
        let owner: Option<Refusal> = match &ms[k].rendered {
            None => Some(Refusal::Unidentified),
            Some(rendered) => {
                if crate::mounts::components_of(&chars_of(rendered.as_str())).len() < 2 {
                    Some(Refusal::Loose)
                } else {
                    None
                }
            },
        };
        assert(owner == unplaced(ms@[k as int]));
        if let Some(refusal) = owner {
            assert(faulty(ms@, k as int));
            assert(first_faulty(ms@, k as int) == Some(k as int));
            assert(fault_owner(ms@[k as int]) == Some((ms@[k as int].from@, refusal_view(refusal))));
            let ghost want = all_refused(ms@, sheets@, fault_owner(ms@[k as int]));
            let refused = refused_all(ms, sheets, Some((&ms[k].from, refusal)));
            assert(refusals_view(refused@) == want);
            proof {
                lemma_together_faulty(ms@, standing@, sheets@, sheet_taken@, k as int);
            }
            let r = Together { filed: Filed::Refused(refused), unchanged: 0 };
            assert(filed_view(r.filed) == TogetherView::Refused(want));
            assert(filed_view(r.filed) == together_of(members@, standing@, sheets@, sheet_taken@).0);
            return r;
        }
        let rendered = match &ms[k].rendered {
            Some(r) => r,
            None => {
                return Together { filed: Filed::Nothing, unchanged: 0 };
            },
        };
        let landing = destination_of(ms[k].root.as_str(), rendered.as_str());
        let folder = folder_of_exec(&chars_of(landing.as_str()));
        if k == 0 {
            first_folder = folder;
        } else if !same_chars(&folder, &first_folder) {
            assert(faulty(ms@, k as int));
            assert(first_faulty(ms@, k as int) == Some(k as int));
            let ghost want = all_refused(ms@, sheets@, None);
            let refused = refused_all(ms, sheets, None);
            assert(refusals_view(refused@) == want);
            assert(unplaced(ms@[k as int]) is None);
            assert(fault_owner(ms@[k as int]) is None);
            proof {
                lemma_together_faulty(ms@, standing@, sheets@, sheet_taken@, k as int);
            }
            let r = Together { filed: Filed::Refused(refused), unchanged: 0 };
            assert(filed_view(r.filed) == TogetherView::Refused(want));
            assert(filed_view(r.filed) == together_of(members@, standing@, sheets@, sheet_taken@).0);
            return r;
        }
        assert(!faulty(ms@, k as int));
        landings.push(landing);
        k = k + 1;
    }
    assert(first_faulty(ms@, n as int) is None);
    if n == 0 {
        return Together { filed: Filed::Nothing, unchanged: 0 };
    }
    let mut moving: Vec<usize> = Vec::new();
    let mut j: usize = 0;
    while j < n
        invariant
            ms@ == members@,
            n == ms@.len(),
            j <= n,
            landings@.len() == n,
            forall|i: int| 0 <= i < n ==> (#[trigger] landings@[i])@ == landing_spec(ms@[i]),
            places_view(moving@) == moving_in(ms@, j as int),
            moving@.len() <= j,
            forall|i: int| 0 <= i < moving@.len() ==> (#[trigger] moving@[i]) < j,
        decreases n - j,
    {
        let ghost was = moving@;
        if landings[j] != ms[j].from {
            moving.push(j);
            assert(places_view(moving@) =~= places_view(was).push(j as int));
        } else {
            assert(places_view(moving@) =~= places_view(was));
        }
        j = j + 1;
    }
    let ghost mv = moving_in(ms@, n as int);
    assert(mv.len() == moving@.len());
    assert(first_faulty(ms@, 0) is None);
    let unchanged = (n - moving.len()) as u64;
    proof {
        lemma_moving_in(ms@, n as int);
    }
    if moving.len() == 0 {
        return Together { filed: Filed::Nothing, unchanged };
    }
    let mut t: usize = 0;
    while t < moving.len()
        invariant
            ms@ == members@,
            t <= moving@.len(),
            places_view(moving@) == mv,
            forall|i: int| 0 <= i < moving@.len() ==> (#[trigger] moving@[i]) < n,
            n == ms@.len() == standing@.len(),
            first_standing(mv, standing@, t as int) is None,
            mv.len() == moving@.len(),
            mv == moving_in(ms@, ms@.len() as int),
            first_faulty(ms@, 0) is None,
            ms@.len() > 0,
            unchanged as nat == ms@.len() - mv.len(),
        decreases moving@.len() - t,
    {
        let at = moving[t];
        assert(mv[t as int] == at as int);
        if let Some(s) = &standing[at] {
            let refusal = match s {
                Standing::Stands(r) => refusal_copy(r),
                Standing::MayGo(p) => Refusal::Collided { with: p.clone() },
            };
            assert(first_standing(mv, standing@, t + 1) == Some(at as int));
            proof {
                lemma_first_standing_stays(mv, standing@, t + 1, mv.len() as int);
            }
            assert(refusal_view(refusal) == standing_refusal(standing@[at as int]->0));
            let ghost want = all_refused(
                ms@,
                sheets@,
                Some((ms@[at as int].from@, standing_refusal(standing@[at as int]->0))),
            );
            let refused = refused_all(ms, sheets, Some((&ms[at].from, refusal)));
            assert(refusals_view(refused@) == want);
            assert(first_standing(mv, standing@, mv.len() as int) == Some(at as int));
            proof {
                lemma_together_standing(ms@, standing@, sheets@, sheet_taken@, at as int);
            }
            let r = Together { filed: Filed::Refused(refused), unchanged };
            assert(filed_view(r.filed) == TogetherView::Refused(want));
            assert(filed_view(r.filed) == together_of(members@, standing@, sheets@, sheet_taken@).0);
            return r;
        }
        t = t + 1;
    }
    assert(first_standing(mv, standing@, mv.len() as int) is None);
    let mut s: usize = 0;
    while s < sheet_taken.len()
        invariant
            ms@ == members@,
            s <= sheet_taken@.len(),
            first_standing(mv, standing@, mv.len() as int) is None,
            first_faulty(ms@, 0) is None,
            mv == moving_in(ms@, ms@.len() as int),
            mv.len() > 0,
            ms@.len() > 0,
            unchanged as nat == ms@.len() - mv.len(),
            forall|i: int| 0 <= i < s ==> !sheet_taken@[i],
        decreases sheet_taken@.len() - s,
    {
        if sheet_taken[s] {
            assert(sheet_taken@[s as int]);
            let ghost want = all_refused(ms@, sheets@, None);
            let refused = refused_all(ms, sheets, None);
            assert(refusals_view(refused@) == want);
            proof {
                lemma_together_sheet(ms@, standing@, sheets@, sheet_taken@, s as int);
            }
            let r = Together { filed: Filed::Refused(refused), unchanged };
            assert(filed_view(r.filed) == TogetherView::Refused(want));
            assert(filed_view(r.filed) == together_of(members@, standing@, sheets@, sheet_taken@).0);
            return r;
        }
        s = s + 1;
    }
    let first = moving[0];
    let mut companions: Vec<Companion> = Vec::new();
    let mut c: usize = 1;
    while c < moving.len()
        invariant
            ms@ == members@,
            1 <= c <= moving@.len(),
            places_view(moving@) == mv,
            forall|i: int| 0 <= i < moving@.len() ==> (#[trigger] moving@[i]) < n,
            n == ms@.len(),
            landings@.len() == n,
            forall|i: int| 0 <= i < n ==> (#[trigger] landings@[i])@ == landing_spec(ms@[i]),
            companions_view(companions@) == companions_of(ms@, mv, (c - 1) as nat),
        decreases moving@.len() - c,
    {
        let at = moving[c];
        assert(mv[c as int] == at as int);
        let ghost was = companions@;
        let from = ms[at].from.clone();
        let to = landings[at].clone();
        assert(to@ == landing_spec(ms@[at as int]));
        companions.push(Companion { from, to, rows: ms[at].rows });
        assert(companions_view(companions@) =~= companions_view(was).push(
            (ms@[mv[c as int]].from@, landing_spec(ms@[mv[c as int]]), ms@[mv[c as int]].rows),
        ));
        assert(companions_view(companions@) =~= companions_of(ms@, mv, c as nat));
        c = c + 1;
    }
    let mut sidecars: Vec<Sidecar> = Vec::new();
    let mut q: usize = 0;
    while q < sheets.len()
        invariant
            ms@ == members@,
            q <= sheets@.len(),
            ms@.len() > 0,
            first_folder@ == folder_of(landing_spec(ms@[0])),
            sidecars_view(sidecars@) == sheets_into(sheets@, first_folder@, q as nat),
        decreases sheets@.len() - q,
    {
        let v = chars_of(sheets[q].as_str());
        let start = file_name_start(&v);
        let name = slice_of(&v, start, v.len());
        let to = string_of(&joined_exec(&first_folder, &name));
        let ghost was = sidecars@;
        assert(name@ == file_name(sheets@[q as int]@));
        sidecars.push(Sidecar { from: sheets[q].clone(), to });
        assert(sidecars_view(sidecars@) =~= sidecars_view(was).push(
            (sheets@[q as int]@, joined_path(first_folder@, file_name(sheets@[q as int]@))),
        ));
        assert(sidecars_view(sidecars@) =~= sheets_into(sheets@, first_folder@, (q + 1) as nat));
        q = q + 1;
    }
    assert(mv[0] == first as int);
    assert(!(exists|j: int| 0 <= j < sheet_taken@.len() && #[trigger] sheet_taken@[j]));
    let planned = Move {
        from: ms[first].from.clone(),
        to: landings[first].clone(),
        rows: ms[first].rows,
        companions,
        sidecars,
    };
    let r = Together { filed: Filed::Moved(planned), unchanged };
    assert(companions_view(r.filed->Moved_0.companions@) == companions_of(ms@, mv, (mv.len() - 1) as nat));
    assert(filed_view(r.filed) == together_of(members@, standing@, sheets@, sheet_taken@).0);
    r
}

proof fn lemma_first_standing_stays(mv: Seq<int>, standing: Seq<Option<Standing>>, t: int, upto: int)
    requires
        0 < t <= upto,
        first_standing(mv, standing, t) is Some,
    ensures
        first_standing(mv, standing, upto) == first_standing(mv, standing, t),
    decreases upto - t,
{
    if upto > t {
        lemma_first_standing_stays(mv, standing, t, upto - 1);
    }
}

/// What filing one file comes to.
#[derive(Clone, Debug, PartialEq, Eq)]
pub enum Filing {
    /// It stands where the layout puts it already.
    Unchanged,
    /// It is left where it stands, and why.
    Refused(Refusal),
    /// It moves, once the file that stands where it goes has gone, where
    /// one does.
    Planned { planned: Move, waits_for: Option<String> },
}

/// Files one file that no sheet ties to another: one the layout names no
/// place for is unidentified; one already where it belongs is unchanged;
/// one whose place has no folder is loose; one whose landing something
/// stands in is refused as that standing says, unless what stands there
/// is itself to move, which the move then waits for; one whose sheets
/// cannot travel with it is refused as `travelling` says; any other moves,
/// its sheets with it. `standing` says what stands where it would land.
pub fn filed(member: &Member, standing: Option<Standing>, travelling: Result<Vec<Sidecar>, Refusal>) -> (r:
    Filing)
    ensures
        member.rendered is None ==> r == Filing::Refused(Refusal::Unidentified),
        member.rendered is Some && landing_spec(*member) == member.from@ ==> r == Filing::Unchanged,
        member.rendered is Some && landing_spec(*member) != member.from@ ==> {
            if crate::mounts::components(member.rendered->0@).len() < 2 {
                r == Filing::Refused(Refusal::Loose)
            } else if standing is Some && standing->Some_0 is Stands {
                r == Filing::Refused(standing->Some_0->Stands_0)
            } else if travelling is Err {
                r == Filing::Refused(travelling->Err_0)
            } else {
                r matches Filing::Planned { planned, waits_for } && planned.from@ == member.from@
                    && planned.to@ == landing_spec(*member) && planned.rows == member.rows
                    && planned.companions@.len() == 0 && planned.sidecars@ == travelling->Ok_0@
                    && match standing {
                    Some(Standing::MayGo(p)) => waits_for matches Some(w) && w@ == p@,
                    _ => waits_for is None,
                }
            }
        },
{
    let rendered = match &member.rendered {
        Some(r) => r,
        None => return Filing::Refused(Refusal::Unidentified),
    };
    let destination = destination_of(member.root.as_str(), rendered.as_str());
    if destination == member.from {
        return Filing::Unchanged;
    }
    if crate::mounts::components_of(&chars_of(rendered.as_str())).len() < 2 {
        return Filing::Refused(Refusal::Loose);
    }
    let waits_for = match standing {
        Some(Standing::Stands(why)) => return Filing::Refused(why),
        Some(Standing::MayGo(p)) => Some(p),
        None => None,
    };
    let sidecars = match travelling {
        Err(why) => return Filing::Refused(why),
        Ok(sheets) => sheets,
    };
    Filing::Planned {
        planned: Move {
            from: member.from.clone(),
            to: destination,
            rows: member.rows,
            companions: Vec::new(),
            sidecars,
        },
        waits_for,
    }
}

/// Whether one path's components come before another's: component by
/// component, each compared character by character, a path before any
/// path it begins.
pub open spec fn steps_before(a: Seq<Seq<char>>, b: Seq<Seq<char>>) -> bool
    decreases a.len(),
{
    if a.len() == 0 {
        b.len() > 0
    } else if b.len() == 0 {
        false
    } else if a[0] != b[0] {
        crate::enrich::text_before(a[0], b[0])
    } else {
        steps_before(a.drop_first(), b.drop_first())
    }
}

/// The order folders are emptied in: the one with more components first,
/// and among those of one depth, by their components in order. A path's
/// root counts as a component named `/`.
pub open spec fn deeper_first(one: Seq<char>, other: Seq<char>) -> Ordering {
    let a = crate::mounts::components(one);
    let b = crate::mounts::components(other);
    if a.len() > b.len() {
        Ordering::Less
    } else if a.len() < b.len() {
        Ordering::Greater
    } else if steps_before(a, b) {
        Ordering::Less
    } else if a == b {
        Ordering::Equal
    } else {
        Ordering::Greater
    }
}

proof fn lemma_steps_before_self(a: Seq<Seq<char>>)
    ensures
        !steps_before(a, a),
    decreases a.len(),
{
    if a.len() > 0 {
        lemma_steps_before_self(a.drop_first());
    }
}

fn steps_before_exec(a: &[Vec<char>], b: &[Vec<char>]) -> (r: bool)
    ensures
        r == steps_before(a@.map_values(|w: Vec<char>| w@), b@.map_values(|w: Vec<char>| w@)),
{
    let ghost av = a@.map_values(|w: Vec<char>| w@);
    let ghost bv = b@.map_values(|w: Vec<char>| w@);
    assert(av.skip(0) =~= av);
    assert(bv.skip(0) =~= bv);
    let mut i: usize = 0;
    while i < a.len() && i < b.len()
        invariant
            i <= a@.len(),
            i <= b@.len(),
            av == a@.map_values(|w: Vec<char>| w@),
            bv == b@.map_values(|w: Vec<char>| w@),
            forall|k: int| 0 <= k < i ==> av[k] == bv[k],
            steps_before(av, bv) == steps_before(av.skip(i as int), bv.skip(i as int)),
        decreases a@.len() - i,
    {
        assert(av.skip(i as int)[0] == av[i as int]);
        assert(bv.skip(i as int)[0] == bv[i as int]);
        assert(av.skip(i as int).drop_first() =~= av.skip(i + 1));
        assert(bv.skip(i as int).drop_first() =~= bv.skip(i + 1));
        if !same_chars(&a[i], &b[i]) {
            return crate::enrich::text_before_exec(&a[i], &b[i]);
        }
        i = i + 1;
    }
    i < b.len()
}

fn same_steps(a: &[Vec<char>], b: &[Vec<char>]) -> (r: bool)
    ensures
        r == (a@.map_values(|w: Vec<char>| w@) == b@.map_values(|w: Vec<char>| w@)),
{
    let ghost av = a@.map_values(|w: Vec<char>| w@);
    let ghost bv = b@.map_values(|w: Vec<char>| w@);
    if a.len() != b.len() {
        assert(av.len() != bv.len());
        return false;
    }
    let mut i: usize = 0;
    while i < a.len()
        invariant
            a@.len() == b@.len(),
            i <= a@.len(),
            av == a@.map_values(|w: Vec<char>| w@),
            bv == b@.map_values(|w: Vec<char>| w@),
            forall|k: int| 0 <= k < i ==> av[k] == bv[k],
        decreases a@.len() - i,
    {
        if !same_chars(&a[i], &b[i]) {
            assert(av[i as int] != bv[i as int]);
            return false;
        }
        i = i + 1;
    }
    assert(av =~= bv);
    true
}

/// The order folders are emptied in, as [`deeper_first`] reads: a folder
/// always before any folder it sits in.
pub fn deepest_first(one: &str, other: &str) -> (r: Ordering)
    ensures
        r == deeper_first(one@, other@),
{
    let a = crate::mounts::components_of(&chars_of(one));
    let b = crate::mounts::components_of(&chars_of(other));
    if a.len() > b.len() {
        return Ordering::Less;
    }
    if a.len() < b.len() {
        return Ordering::Greater;
    }
    if steps_before_exec(&a, &b) {
        return Ordering::Less;
    }
    if same_steps(&a, &b) {
        Ordering::Equal
    } else {
        Ordering::Greater
    }
}


/// Whether two pieces hold the same: two literals of one text, or one
/// field twice.
pub open spec fn same_piece(p: Piece, q: Piece) -> bool {
    match (p, q) {
        (Piece::Literal(t), Piece::Literal(u)) => t@ == u@,
        (Piece::Named(f), Piece::Named(g)) => f == g,
        _ => false,
    }
}

/// Whether text is empty, or opens a field: a brace, then a character
/// that is not one.
spec fn opens_a_field(x: Seq<char>) -> bool {
    x.len() == 0 || (x.len() >= 2 && x[0] == '{' && x[1] != '{')
}

proof fn lemma_field_name_letters(f: Field)
    ensures
        field_name(f).len() > 0,
        forall|i: int| 0 <= i < field_name(f).len() ==> 'a' <= #[trigger] field_name(f)[i] <= 'z',
{
}

proof fn lemma_escape_front(c: char, rest: Seq<char>)
    ensures
        escape(seq![c] + rest) == escape_char(c) + escape(rest),
    decreases rest.len(),
{
    if rest.len() == 0 {
        assert(seq![c] + rest =~= seq![c]);
        assert(seq![c].drop_last() =~= Seq::<char>::empty());
        assert(escape(Seq::<char>::empty()) =~= Seq::<char>::empty());
        assert(seq![c].last() == c);
        assert(escape(seq![c]) =~= escape_char(c));
        assert(escape_char(c) + escape(rest) =~= escape_char(c));
    } else {
        lemma_escape_front(c, rest.drop_last());
        assert((seq![c] + rest).drop_last() =~= seq![c] + rest.drop_last());
        assert((seq![c] + rest).last() == rest.last());
        assert(escape(rest) == escape(rest.drop_last()) + escape_char(rest.last()));
        assert(escape(seq![c] + rest) =~= escape_char(c) + escape(rest));
    }
}

proof fn lemma_escape_keeps(t: Seq<char>)
    ensures
        escape(t).len() >= t.len(),
        no_separator(t) ==> no_separator(escape(t)),
    decreases t.len(),
{
    if t.len() > 0 {
        lemma_escape_keeps(t.drop_last());
        let e = escape(t.drop_last());
        let c = escape_char(t.last());
        if no_separator(t) {
            assert(no_separator(t.drop_last())) by {
                assert forall|k: int| 0 <= k < t.drop_last().len() implies t.drop_last()[k] != '/' by {
                    assert(t.drop_last()[k] == t[k]);
                }
            }
            assert(t[t.len() - 1] != '/');
            assert forall|k: int| 0 <= k < (e + c).len() implies (e + c)[k] != '/' by {
                if k < e.len() {
                    assert((e + c)[k] == e[k]);
                } else {
                    assert((e + c)[k] == c[k - e.len()]);
                }
            }
        }
    }
}

/// Two escaped texts, each followed by nothing or by an opening field, are
/// one text followed by one rest.
proof fn lemma_escaped_front(t: Seq<char>, u: Seq<char>, x: Seq<char>, y: Seq<char>)
    requires
        escape(t) + x == escape(u) + y,
        opens_a_field(x),
        opens_a_field(y),
    ensures
        t == u,
        x == y,
    decreases t.len() + u.len(),
{
    let whole = escape(t) + x;
    if t.len() == 0 && u.len() == 0 {
        assert(escape(t) =~= Seq::<char>::empty());
        assert(escape(u) =~= Seq::<char>::empty());
        assert(x =~= whole);
        assert(y =~= whole);
        assert(t =~= u);
    } else if t.len() == 0 {
        lemma_escape_front(u[0], u.drop_first());
        assert(seq![u[0]] + u.drop_first() =~= u);
        assert(escape(t) =~= Seq::<char>::empty());
        assert(whole[0] == u[0]);
        assert(x =~= whole);
        if u[0] == '{' {
            assert(whole[1] == '{');
        }
    } else if u.len() == 0 {
        lemma_escape_front(t[0], t.drop_first());
        assert(seq![t[0]] + t.drop_first() =~= t);
        assert(escape(u) =~= Seq::<char>::empty());
        assert(whole[0] == t[0]);
        assert(y =~= whole);
        if t[0] == '{' {
            assert(whole[1] == '{');
        }
    } else {
        lemma_escape_front(t[0], t.drop_first());
        lemma_escape_front(u[0], u.drop_first());
        assert(seq![t[0]] + t.drop_first() =~= t);
        assert(seq![u[0]] + u.drop_first() =~= u);
        assert(whole[0] == t[0]);
        assert((escape(u) + y)[0] == u[0]);
        assert(t[0] == u[0]);
        let n = escape_char(t[0]).len() as int;
        let x2 = escape(t.drop_first()) + x;
        let y2 = escape(u.drop_first()) + y;
        assert(whole == escape_char(t[0]) + x2);
        assert(escape(u) + y == escape_char(u[0]) + y2);
        assert(x2 =~= whole.subrange(n, whole.len() as int));
        assert(y2 =~= (escape(u) + y).subrange(n, whole.len() as int));
        lemma_escaped_front(t.drop_first(), u.drop_first(), x, y);
    }
}

proof fn lemma_pieces_template_front(p: Piece, rest: Seq<Piece>)
    ensures
        pieces_template(seq![p] + rest) == piece_template(p) + pieces_template(rest),
    decreases rest.len(),
{
    if rest.len() == 0 {
        assert(seq![p] + rest =~= seq![p]);
        assert(seq![p].drop_last() =~= Seq::<Piece>::empty());
        assert(pieces_template(Seq::<Piece>::empty()) =~= Seq::<char>::empty());
        assert(seq![p].last() == p);
        assert(pieces_template(seq![p]) =~= piece_template(p));
        assert(piece_template(p) + pieces_template(rest) =~= piece_template(p));
    } else {
        lemma_pieces_template_front(p, rest.drop_last());
        assert((seq![p] + rest).drop_last() =~= seq![p] + rest.drop_last());
        assert((seq![p] + rest).last() == rest.last());
        assert(pieces_template(rest) == pieces_template(rest.drop_last()) + piece_template(
            rest.last(),
        ));
        assert(pieces_template(seq![p] + rest) =~= piece_template(p) + pieces_template(rest));
    }
}

proof fn lemma_piece_template_shape(p: Piece)
    requires
        literal_ok(p),
    ensures
        piece_template(p).len() > 0,
        no_separator(piece_template(p)),
        p is Named ==> piece_template(p).len() >= 2 && piece_template(p)[0] == '{'
            && piece_template(p)[1] != '{',
        p is Literal ==> (piece_template(p)[0] == '{' ==> piece_template(p).len() >= 2
            && piece_template(p)[1] == '{'),
{
    match p {
        Piece::Literal(t) => {
            lemma_escape_keeps(t@);
            lemma_escape_front(t@[0], t@.drop_first());
            assert(seq![t@[0]] + t@.drop_first() =~= t@);
        },
        Piece::Named(f) => {
            lemma_field_name_letters(f);
            let w = seq!['{'] + field_name(f) + seq!['}'];
            assert forall|k: int| 0 <= k < w.len() implies w[k] != '/' by {
                if k > 0 && k < w.len() - 1 {
                    assert(w[k] == field_name(f)[k - 1]);
                }
            }
            assert(w[1] == field_name(f)[0]);
        },
    }
}

proof fn lemma_normal_rest(a: Seq<Piece>)
    requires
        normal_pieces(a),
        a.len() > 0,
    ensures
        normal_pieces(a.drop_first()),
        a[0] is Literal ==> opens_a_field(pieces_template(a.drop_first())),
{
    let r = a.drop_first();
    assert forall|k: int| 0 <= k < r.len() implies #[trigger] literal_ok(r[k]) by {
        assert(r[k] == a[k + 1]);
        assert(literal_ok(a[k + 1]));
    }
    assert forall|k: int| #![trigger r[k]] 0 <= k < r.len() - 1 implies !(r[k] is Literal
        && r[k + 1] is Literal) by {
        assert(r[k] == a[k + 1]);
        assert(r[k + 1] == a[k + 2]);
        assert(a[k + 1] == a[k + 1]);
    }
    if a[0] is Literal && r.len() > 0 {
        assert(a[0] == a[0]);
        assert(r[0] == a[1]);
        assert(!(r[0] is Literal));
        lemma_pieces_template_front(r[0], r.drop_first());
        assert(seq![r[0]] + r.drop_first() =~= r);
        assert(literal_ok(r[0]));
        lemma_piece_template_shape(r[0]);
        let w = pieces_template(r);
        assert(w[0] == piece_template(r[0])[0]);
        assert(w[1] == piece_template(r[0])[1]);
    }
}

/// Two runs of pieces as a reader leaves them that write one template are
/// the same pieces.
proof fn lemma_one_pieces_template(a: Seq<Piece>, b: Seq<Piece>)
    requires
        normal_pieces(a),
        normal_pieces(b),
        pieces_template(a) == pieces_template(b),
    ensures
        a.len() == b.len(),
        forall|j: int| 0 <= j < a.len() ==> same_piece(#[trigger] a[j], b[j]),
    decreases a.len() + b.len(),
{
    let w = pieces_template(a);
    if a.len() == 0 && b.len() == 0 {
    } else if a.len() == 0 || b.len() == 0 {
        let c = if a.len() == 0 { b } else { a };
        assert(literal_ok(c[0]));
        lemma_piece_template_shape(c[0]);
        lemma_pieces_template_front(c[0], c.drop_first());
        assert(seq![c[0]] + c.drop_first() =~= c);
        assert(pieces_template(c).len() > 0);
        assert(pieces_template(Seq::<Piece>::empty()).len() == 0);
    } else {
        let (p, q) = (a[0], b[0]);
        let (ra, rb) = (a.drop_first(), b.drop_first());
        assert(literal_ok(p));
        assert(literal_ok(q));
        lemma_piece_template_shape(p);
        lemma_piece_template_shape(q);
        lemma_pieces_template_front(p, ra);
        lemma_pieces_template_front(q, rb);
        assert(seq![p] + ra =~= a);
        assert(seq![q] + rb =~= b);
        lemma_normal_rest(a);
        lemma_normal_rest(b);
        let (x, y) = (pieces_template(ra), pieces_template(rb));
        assert(w == piece_template(p) + x);
        assert(w == piece_template(q) + y);
        match (p, q) {
            (Piece::Named(f), Piece::Named(g)) => {
                lemma_field_name_letters(f);
                lemma_field_name_letters(g);
                let (nf, ng) = (field_name(f), field_name(g));
                assert(piece_template(p) == seq!['{'] + nf + seq!['}']);
                assert(piece_template(q) == seq!['{'] + ng + seq!['}']);
                if nf.len() < ng.len() {
                    assert(w[nf.len() as int + 1] == '}');
                    assert(w[nf.len() as int + 1] == ng[nf.len() as int]);
                } else if ng.len() < nf.len() {
                    assert(w[ng.len() as int + 1] == '}');
                    assert(w[ng.len() as int + 1] == nf[ng.len() as int]);
                } else {
                    assert forall|k: int| 0 <= k < nf.len() implies nf[k] == ng[k] by {
                        assert(w[k + 1] == nf[k]);
                        assert(w[k + 1] == ng[k]);
                    }
                    assert(nf =~= ng);
                    a_field_is_read_from_its_own_name(f);
                    let n = nf.len() + 2;
                    assert(x =~= w.subrange(n as int, w.len() as int));
                    assert(y =~= w.subrange(n as int, w.len() as int));
                    lemma_one_pieces_template(ra, rb);
                }
            },
            (Piece::Named(f), Piece::Literal(u)) => {
                assert(w[0] == '{');
                assert(w[1] != '{');
            },
            (Piece::Literal(t), Piece::Named(g)) => {
                assert(w[0] == '{');
                assert(w[1] != '{');
            },
            (Piece::Literal(t), Piece::Literal(u)) => {
                lemma_escaped_front(t@, u@, x, y);
                lemma_one_pieces_template(ra, rb);
            },
        }
        if a.len() == b.len() {
            assert forall|j: int| 0 <= j < a.len() implies same_piece(#[trigger] a[j], b[j]) by {
                if j > 0 {
                    assert(a[j] == ra[j - 1]);
                    assert(b[j] == rb[j - 1]);
                }
            }
        }
    }
}


proof fn lemma_pieces_no_separator(ps: Seq<Piece>)
    requires
        forall|k: int| 0 <= k < ps.len() ==> #[trigger] literal_ok(ps[k]),
    ensures
        no_separator(pieces_template(ps)),
    decreases ps.len(),
{
    if ps.len() > 0 {
        let init = ps.drop_last();
        assert forall|k: int| 0 <= k < init.len() implies #[trigger] literal_ok(init[k]) by {
            assert(init[k] == ps[k]);
        }
        lemma_pieces_no_separator(init);
        assert(literal_ok(ps[ps.len() - 1]));
        lemma_piece_template_shape(ps.last());
        let (x, y) = (pieces_template(init), piece_template(ps.last()));
        assert forall|k: int| 0 <= k < (x + y).len() implies (x + y)[k] != '/' by {
            if k < x.len() {
                assert((x + y)[k] == x[k]);
            } else {
                assert((x + y)[k] == y[k - x.len()]);
            }
        }
    }
}

/// Two runs of segments, none writing a separator, that write one template
/// are as many segments, each writing the same.
proof fn lemma_one_segments_template(a: Seq<Seq<Piece>>, b: Seq<Seq<Piece>>)
    requires
        a.len() > 0,
        b.len() > 0,
        forall|k: int| 0 <= k < a.len() ==> no_separator(#[trigger] pieces_template(a[k])),
        forall|k: int| 0 <= k < b.len() ==> no_separator(#[trigger] pieces_template(b[k])),
        segments_template(a) == segments_template(b),
    ensures
        a.len() == b.len(),
        forall|k: int| 0 <= k < a.len() ==> #[trigger] pieces_template(a[k]) == pieces_template(b[k]),
    decreases a.len() + b.len(),
{
    let w = segments_template(a);
    if a.len() == 1 && b.len() == 1 {
    } else if a.len() == 1 {
        let at = segments_template(b.drop_last()).len() as int;
        assert(w[at] == '/');
        assert(no_separator(pieces_template(a[0])));
    } else if b.len() == 1 {
        let at = segments_template(a.drop_last()).len() as int;
        assert(w[at] == '/');
        assert(no_separator(pieces_template(b[0])));
    } else {
        let (p, q) = (pieces_template(a.last()), pieces_template(b.last()));
        let (x, y) = (segments_template(a.drop_last()), segments_template(b.drop_last()));
        assert(w == x + seq!['/'] + p);
        assert(w == y + seq!['/'] + q);
        assert(no_separator(pieces_template(a[a.len() - 1])));
        assert(no_separator(pieces_template(b[b.len() - 1])));
        if p.len() < q.len() {
            let at = w.len() - p.len() - 1;
            assert(w[at] == '/');
            assert(w[at] == q[at - (w.len() - q.len())]);
        } else if q.len() < p.len() {
            let at = w.len() - q.len() - 1;
            assert(w[at] == '/');
            assert(w[at] == p[at - (w.len() - p.len())]);
        } else {
            assert(p =~= w.subrange(w.len() - p.len(), w.len() as int));
            assert(q =~= w.subrange(w.len() - q.len(), w.len() as int));
            assert(x =~= w.subrange(0, x.len() as int));
            assert(y =~= w.subrange(0, y.len() as int));
            let (ia, ib) = (a.drop_last(), b.drop_last());
            assert forall|k: int| 0 <= k < ia.len() implies no_separator(
                #[trigger] pieces_template(ia[k]),
            ) by {
                assert(ia[k] == a[k]);
            }
            assert forall|k: int| 0 <= k < ib.len() implies no_separator(
                #[trigger] pieces_template(ib[k]),
            ) by {
                assert(ib[k] == b[k]);
            }
            lemma_one_segments_template(ia, ib);
            assert forall|k: int| 0 <= k < a.len() implies #[trigger] pieces_template(a[k])
                == pieces_template(b[k]) by {
                if k < ia.len() {
                    assert(a[k] == ia[k]);
                    assert(b[k] == ib[k]);
                    assert(pieces_template(ia[k]) == pieces_template(ib[k]));
                }
            }
        }
    }
}

proof fn lemma_same_name_ext(a: Seq<Seq<Piece>>, b: Seq<Seq<Piece>>)
    requires
        a.len() == b.len(),
        forall|k: int| 0 <= k < a.len() ==> (#[trigger] a[k]).len() == b[k].len(),
        forall|k: int, j: int|
            0 <= k < a.len() && 0 <= j < a[k].len() ==> same_piece(#[trigger] a[k][j], b[k][j]),
    ensures
        parts_name_ext(a) == parts_name_ext(b),
    decreases a.len(),
{
    if a.len() > 0 {
        let (ia, ib) = (a.drop_last(), b.drop_last());
        assert forall|k: int| 0 <= k < ia.len() implies (#[trigger] ia[k]).len() == ib[k].len() by {
            assert(ia[k] == a[k]);
            assert(ib[k] == b[k]);
        }
        assert forall|k: int, j: int|
            0 <= k < ia.len() && 0 <= j < ia[k].len() implies same_piece(
            #[trigger] ia[k][j],
            ib[k][j],
        ) by {
            assert(ia[k] == a[k]);
            assert(ib[k] == b[k]);
            assert(same_piece(a[k][j], b[k][j]));
        }
        lemma_same_name_ext(ia, ib);
        let (la, lb) = (a.last(), b.last());
        let n = a.len() - 1;
        assert(la.len() == lb.len()) by {
            assert(a[n].len() == b[n].len());
        }
        if pieces_name_ext(la) {
            let j = choose|j: int| 0 <= j < la.len() && la[j] == Piece::Named(Field::Extension);
            assert(same_piece(a[n][j], b[n][j]));
            assert(lb[j] == Piece::Named(Field::Extension));
        }
        if pieces_name_ext(lb) {
            let j = choose|j: int| 0 <= j < lb.len() && lb[j] == Piece::Named(Field::Extension);
            assert(same_piece(a[n][j], b[n][j]));
            assert(la[j] == Piece::Named(Field::Extension));
        }
    }
}

/// One template is read as one layout: two layouts a reader could have
/// read that write the same template hold as many segments, the same
/// pieces in each, and name the file's extension alike.
pub proof fn one_template_is_one_layout(a: Layout, b: Layout)
    requires
        a.well_formed(),
        b.well_formed(),
        a.template() == b.template(),
    ensures
        a.parts().len() == b.parts().len(),
        forall|k: int| 0 <= k < a.parts().len() ==> (#[trigger] a.parts()[k]).len() == b.parts()[k].len(),
        forall|k: int, j: int|
            0 <= k < a.parts().len() && 0 <= j < a.parts()[k].len() ==> same_piece(
                #[trigger] a.parts()[k][j],
                b.parts()[k][j],
            ),
        a.names_ext() == b.names_ext(),
{
    let (pa, pb) = (a.parts(), b.parts());
    assert forall|k: int| 0 <= k < pa.len() implies no_separator(#[trigger] pieces_template(pa[k])) by {
        assert(normal_pieces(pa[k]));
        lemma_pieces_no_separator(pa[k]);
    }
    assert forall|k: int| 0 <= k < pb.len() implies no_separator(#[trigger] pieces_template(pb[k])) by {
        assert(normal_pieces(pb[k]));
        lemma_pieces_no_separator(pb[k]);
    }
    lemma_one_segments_template(pa, pb);
    assert forall|k: int| 0 <= k < pa.len() implies (#[trigger] pa[k]).len() == pb[k].len()
        && forall|j: int| 0 <= j < pa[k].len() ==> same_piece(#[trigger] pa[k][j], pb[k][j]) by {
        assert(normal_pieces(pa[k]));
        assert(normal_pieces(pb[k]));
        assert(pieces_template(pa[k]) == pieces_template(pb[k]));
        lemma_one_pieces_template(pa[k], pb[k]);
    }
    assert forall|k: int, j: int|
        0 <= k < pa.len() && 0 <= j < pa[k].len() implies same_piece(#[trigger] pa[k][j], pb[k][j]) by {
        assert(pa[k].len() == pb[k].len());
    }
    lemma_same_name_ext(pa, pb);
}


proof fn lemma_next_of_at(s: Seq<char>, c: char, from: int, k: int)
    requires
        0 <= from <= k <= s.len(),
        forall|m: int| from <= m < k ==> s[m] != c,
        k < s.len() ==> s[k] == c,
    ensures
        next_of(s, c, from) == k,
    decreases k - from,
{
    if from < k {
        lemma_next_of_at(s, c, from + 1, k);
    }
}

proof fn lemma_segments_template_front(s0: Seq<Piece>, rest: Seq<Seq<Piece>>)
    requires
        rest.len() > 0,
    ensures
        segments_template(seq![s0] + rest) == pieces_template(s0) + seq!['/'] + segments_template(
            rest,
        ),
    decreases rest.len(),
{
    let whole = seq![s0] + rest;
    if rest.len() == 1 {
        assert(whole.drop_last() =~= seq![s0]);
        assert(whole.last() == rest[0]);
        assert(seq![s0][0] == s0);
        assert(segments_template(seq![s0]) == pieces_template(s0));
        assert(segments_template(rest) == pieces_template(rest[0]));
        assert(segments_template(whole) == segments_template(whole.drop_last()) + seq!['/']
            + pieces_template(whole.last()));
    } else {
        lemma_segments_template_front(s0, rest.drop_last());
        assert(whole.drop_last() =~= seq![s0] + rest.drop_last());
        assert(whole.last() == rest.last());
        assert(segments_template(whole) =~= pieces_template(s0) + seq!['/'] + segments_template(
            rest,
        ));
    }
}

/// Reading a segment finds nothing wrong in an escaped text, where nothing
/// is wrong after it.
proof fn lemma_escape_read_cleanly(w: Seq<char>, i: int, t: Seq<char>)
    requires
        0 <= i,
        i + escape(t).len() <= w.len(),
        w.subrange(i, i + escape(t).len()) == escape(t),
        segment_misread(w, i + escape(t).len()) is None,
    ensures
        segment_misread(w, i) is None,
    decreases t.len(),
{
    if t.len() > 0 {
        lemma_escape_front(t[0], t.drop_first());
        assert(seq![t[0]] + t.drop_first() =~= t);
        let u = escape_char(t[0]);
        let m = u.len() as int;
        let e = escape(t);
        assert(e == u + escape(t.drop_first()));
        assert(w.subrange(i + m, i + m + escape(t.drop_first()).len()) =~= escape(t.drop_first()))
            by {
            assert forall|k: int| 0 <= k < escape(t.drop_first()).len() implies w[i + m + k]
                == escape(t.drop_first())[k] by {
                assert(w.subrange(i, i + e.len())[m + k] == e[m + k]);
            }
        }
        lemma_escape_read_cleanly(w, i + m, t.drop_first());
        assert(w.subrange(i, i + e.len())[0] == e[0]);
        assert(w[i] == t[0]);
        if t[0] == '{' || t[0] == '}' {
            assert(w.subrange(i, i + e.len())[1] == e[1]);
            assert(w[i + 1] == t[0]);
        }
    }
}

/// Reading a segment finds nothing wrong from `i` on where what stands
/// there is pieces as a template writes them.
proof fn lemma_pieces_read_cleanly(w: Seq<char>, i: int, ps: Seq<Piece>)
    requires
        0 <= i <= w.len(),
        w.subrange(i, w.len() as int) == pieces_template(ps),
    ensures
        segment_misread(w, i) is None,
    decreases ps.len(),
{
    if ps.len() > 0 {
        let (p, rest) = (ps[0], ps.drop_first());
        lemma_pieces_template_front(p, rest);
        assert(seq![p] + rest =~= ps);
        let pt = piece_template(p);
        let n = pt.len() as int;
        let tail = w.subrange(i, w.len() as int);
        assert(tail == pt + pieces_template(rest));
        assert(tail.len() == w.len() - i);
        assert((pt + pieces_template(rest)).len() == n + pieces_template(rest).len());
        assert(w.len() - i == n + pieces_template(rest).len());
        assert(w.subrange(i + n, w.len() as int) =~= pieces_template(rest)) by {
            assert forall|k: int| 0 <= k < w.len() - (i + n) implies w[i + n + k] == pieces_template(
                rest,
            )[k] by {
                assert(tail[n + k] == w[i + n + k]);
            }
        }
        lemma_pieces_read_cleanly(w, i + n, rest);
        assert forall|k: int| 0 <= k < n implies w[i + k] == pt[k] by {
            assert(tail[k] == w[i + k]);
        }
        match p {
            Piece::Literal(t) => {
                assert(w.subrange(i, i + n) =~= escape(t@));
                lemma_escape_read_cleanly(w, i, t@);
            },
            Piece::Named(f) => {
                lemma_field_name_letters(f);
                let name = field_name(f);
                let j = i + 1 + name.len();
                assert(tail[0] == w[i] && tail[0] == pt[0]);
                assert(tail[1] == w[i + 1] && tail[1] == pt[1]);
                assert(w[i] == '{');
                assert(w[i + 1] == name[0]);
                assert forall|m: int| i + 1 <= m < j implies w[m] != '}' by {
                    assert(w[m] == pt[m - i]);
                    assert(pt[m - i] == name[m - i - 1]);
                }
                assert(w[j] == pt[j - i]);
                lemma_next_of_at(w, '}', i + 1, j);
                assert(w.subrange(i + 1, j) =~= name) by {
                    assert forall|m: int| 0 <= m < name.len() implies w.subrange(i + 1, j)[m]
                        == name[m] by {
                        assert(tail[m + 1] == w[i + 1 + m]);
                        assert(pt[m + 1] == name[m]);
                    }
                }
                assert(j < w.len());
                assert(j != i + 1);
                assert(w[i + 1] != '{');
                assert(field_of(w.subrange(i + 1, j)) == Some(f));
                assert(j + 1 == i + n);
                assert(segment_misread(w, i) == segment_misread(w, j + 1));
                a_field_is_read_from_its_own_name(f);
            },
        }
    } else {
        assert(pieces_template(ps).len() == 0);
        assert(w.subrange(i, w.len() as int).len() == 0);
    }
}

/// Reading a template finds nothing wrong in segments as a template writes
/// them, none empty and none holding a separator, and splits it into them.
proof fn lemma_segments_read_cleanly(t: Seq<char>, from: int, ss: Seq<Seq<Piece>>)
    requires
        ss.len() > 0,
        0 <= from <= t.len(),
        t.subrange(from, t.len() as int) == segments_template(ss),
        forall|k: int|
            0 <= k < ss.len() ==> (#[trigger] pieces_template(ss[k])).len() > 0 && no_separator(
                pieces_template(ss[k]),
            ),
    ensures
        misread_from(t, from) is None,
        split_from(t, from) == ss.map_values(|s: Seq<Piece>| pieces_template(s)),
    decreases ss.len(),
{
    reveal(misread_from);
    reveal(split_from);
    let p = pieces_template(ss[0]);
    assert(p.len() > 0 && no_separator(p));
    let end = from + p.len();
    let tail = t.subrange(from, t.len() as int);
    let rest = ss.drop_first();
    assert(seq![ss[0]] + rest =~= ss);
    if ss.len() > 1 {
        lemma_segments_template_front(ss[0], rest);
        assert(tail == p + seq!['/'] + segments_template(rest));
    } else {
        assert(tail == p);
    }
    assert(tail.len() == t.len() - from);
    assert forall|k: int| 0 <= k < p.len() implies t[from + k] == p[k] by {
        assert(tail[k] == t[from + k]);
    }
    if ss.len() > 1 {
        assert(tail[p.len() as int] == '/');
        assert(t[end] == '/');
    } else {
        assert(tail.len() == p.len());
    }
    assert forall|m: int| from <= m < end implies t[m] != '/' by {
        assert(t[from + (m - from)] == p[m - from]);
    }
    lemma_next_of_at(t, '/', from, end);
    assert(t.subrange(from, end) =~= p);
    assert(p.subrange(0, p.len() as int) =~= p);
    lemma_pieces_read_cleanly(p, 0, ss[0]);
    if ss.len() > 1 {
        let st = segments_template(rest);
        assert(t.subrange(end + 1, t.len() as int) =~= st) by {
            assert forall|k: int| 0 <= k < t.len() - (end + 1) implies t[end + 1 + k] == st[k] by {
                assert(tail[p.len() + 1 + k] == t[end + 1 + k]);
            }
        }
        assert forall|k: int|
            0 <= k < rest.len() implies (#[trigger] pieces_template(rest[k])).len() > 0
            && no_separator(pieces_template(rest[k])) by {
            assert(rest[k] == ss[k + 1]);
            assert(pieces_template(ss[k + 1]).len() > 0);
        }
        lemma_segments_read_cleanly(t, end + 1, rest);
        assert(split_from(t, from) =~= ss.map_values(|s: Seq<Piece>| pieces_template(s)));
    } else {
        assert(split_from(t, from) =~= ss.map_values(|s: Seq<Piece>| pieces_template(s)));
    }
}

proof fn lemma_no_first_step(xs: Seq<Seq<char>>)
    requires
        forall|k: int| 0 <= k < xs.len() ==> !is_step(#[trigger] xs[k]),
    ensures
        first_step(xs) is None,
    decreases xs.len(),
{
    if xs.len() > 0 {
        assert forall|k: int| 0 <= k < xs.drop_last().len() implies !is_step(
            #[trigger] xs.drop_last()[k],
        ) by {
            assert(xs.drop_last()[k] == xs[k]);
        }
        lemma_no_first_step(xs.drop_last());
        assert(!is_step(xs[xs.len() - 1]));
    }
}

/// A layout a reader could have read is read back from the template it
/// writes: nothing in that template is misread and no segment of it is a
/// step of the path, so [`Layout::read`] gives a layout that writes the
/// same template, which [`one_template_is_one_layout`] shows holds the
/// same segments, the same pieces in each, and names the extension alike.
pub proof fn a_layout_reads_back_from_its_template(l: Layout)
    requires
        l.well_formed(),
    ensures
        layout_misread(l.template()) is None,
        first_step(split_from(l.template(), 0)) is None,
{
    let ps = l.parts();
    let t = l.template();
    assert forall|k: int|
        0 <= k < ps.len() implies (#[trigger] pieces_template(ps[k])).len() > 0 && no_separator(
        pieces_template(ps[k]),
    ) by {
        assert(ps[k].len() > 0 && normal_pieces(ps[k]));
        lemma_pieces_no_separator(ps[k]);
        assert(literal_ok(ps[k][0]));
        lemma_piece_template_shape(ps[k][0]);
        lemma_pieces_template_front(ps[k][0], ps[k].drop_first());
        assert(seq![ps[k][0]] + ps[k].drop_first() =~= ps[k]);
    }
    assert(t.subrange(0, t.len() as int) =~= t);
    lemma_segments_read_cleanly(t, 0, ps);
    let texts = ps.map_values(|s: Seq<Piece>| pieces_template(s));
    assert forall|k: int| 0 <= k < texts.len() implies !is_step(#[trigger] texts[k]) by {
        assert(ps[k].len() > 0);
        assert(!is_step(pieces_template(ps[k])));
    }
    lemma_no_first_step(texts);
    if t.len() == 0 {
        assert(pieces_template(ps[0]).len() > 0);
        if ps.len() > 1 {
            lemma_segments_template_front(ps[0], ps.drop_first());
            assert(seq![ps[0]] + ps.drop_first() =~= ps);
        }
    }
}

} // verus!
