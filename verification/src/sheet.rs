//! How an entry of a playlist sheet is described, how the numbered keys of
//! a PLS sheet are read, and what an M3U or a PLS sheet lists: its name,
//! its rows in order, and the count it promises.
use vstd::prelude::*;

use crate::text::{
    append_chars, ascii_lower, chars_of, decimal, decimal_of, find, find_exec, lower_ascii,
    string_of, trim, trimmed, lemma_find_bounds, find_from,
};

verus! {

broadcast use vstd::string::group_string_axioms;

/// What a sheet says of an entry: its title, its artist where it has one,
/// and its length in whole seconds where it is known.
#[derive(Clone, Debug, PartialEq, Eq)]
pub struct Described {
    pub title: String,
    pub artist: Option<String>,
    pub seconds: Option<u64>,
}

/// The line an entry's title is written as: the artist, a dash and the
/// title, or the title alone.
pub open spec fn title_line(d: Described) -> Seq<char> {
    match d.artist {
        Some(artist) => artist@ + " - "@ + d.title@,
        None => d.title@,
    }
}

/// The length an M3U sheet writes: the seconds in decimal, or `-1` where
/// the length is not known.
pub open spec fn length_text(seconds: Option<u64>) -> Seq<char> {
    match seconds {
        Some(s) => decimal(s as nat),
        None => "-1"@,
    }
}

/// The line an M3U sheet writes after `#EXTINF:`: the length, a comma, and
/// the title line.
pub open spec fn extinf_line(d: Described) -> Seq<char> {
    length_text(d.seconds) + ","@ + title_line(d)
}

/// The title line of an entry, as [`title_line`] reads.
pub fn titled(described: &Described) -> (r: String)
    ensures
        r@ == title_line(*described),
{
    proof {
        reveal_strlit(" - ");
    }
    match &described.artist {
        Some(artist) => {
            let mut v = chars_of(artist.as_str());
            let dash = chars_of(" - ");
            append_chars(&mut v, &dash);
            let title = chars_of(described.title.as_str());
            append_chars(&mut v, &title);
            string_of(&v)
        },
        None => described.title.clone(),
    }
}

/// The `#EXTINF:` line of an entry, as [`extinf_line`] reads.
pub fn extinf(described: &Described) -> (r: String)
    ensures
        r@ == extinf_line(*described),
{
    proof {
        reveal_strlit("-1");
        reveal_strlit(",");
    }
    let mut v = match described.seconds {
        Some(seconds) => decimal_of(seconds),
        None => chars_of("-1"),
    };
    let comma = chars_of(",");
    append_chars(&mut v, &comma);
    let titled_line = titled(described);
    let title = chars_of(titled_line.as_str());
    append_chars(&mut v, &title);
    string_of(&v)
}

/// Whether a character is an ASCII digit.
pub open spec fn is_digit(c: char) -> bool {
    '0' <= c && c <= '9'
}

/// The number a run of digits writes.
pub open spec fn digits_value(s: Seq<char>) -> nat
    decreases s.len(),
{
    if s.len() == 0 {
        0
    } else {
        digits_value(s.drop_last()) * 10 + ((s.last() as u32) - ('0' as u32)) as nat
    }
}

/// The digits of an unsigned decimal: the text after a leading plus sign.
pub open spec fn unsigned_digits(s: Seq<char>) -> Seq<char> {
    if s.len() > 0 && s[0] == '+' {
        s.drop_first()
    } else {
        s
    }
}

/// The number a text writes as an unsigned 32-bit decimal: an optional
/// plus sign, then one digit or more, of a value that fits.
pub open spec fn parsed_u32(s: Seq<char>) -> Option<u32> {
    let body = unsigned_digits(s);
    if body.len() > 0 && (forall|i: int| 0 <= i < body.len() ==> is_digit(#[trigger] body[i]))
        && digits_value(body) <= u32::MAX {
        Some(digits_value(body) as u32)
    } else {
        None
    }
}

/// The number a numbered key holds after its name, the name matched
/// without regard to ASCII case: `File3` for `File` holds 3.
pub open spec fn numbered(key: Seq<char>, named: Seq<char>) -> Option<u32> {
    if key.len() >= named.len() && (forall|i: int|
        0 <= i < named.len() ==> ascii_lower(#[trigger] key[i]) == ascii_lower(named[i])) {
        parsed_u32(key.skip(named.len() as int))
    } else {
        None
    }
}

proof fn lemma_digits_value_grows(s: Seq<char>)
    requires
        forall|i: int| 0 <= i < s.len() ==> is_digit(#[trigger] s[i]),
    ensures
        forall|k: int| 0 <= k <= s.len() ==> digits_value(#[trigger] s.subrange(0, k)) <= digits_value(s),
    decreases s.len(),
{
    if s.len() > 0 {
        lemma_digits_value_grows(s.drop_last());
        assert forall|k: int| 0 <= k <= s.len() implies digits_value(#[trigger] s.subrange(0, k))
            <= digits_value(s) by {
            if k < s.len() {
                assert(s.subrange(0, k) =~= s.drop_last().subrange(0, k));
            } else {
                assert(s.subrange(0, k) =~= s);
            }
        }
    }
}

fn parse_u32(v: &[char]) -> (r: Option<u32>)
    ensures
        r == parsed_u32(v@),
{
    let start: usize = if v.len() > 0 && v[0] == '+' {
        1
    } else {
        0
    };
    let ghost body = v@.subrange(start as int, v@.len() as int);
    proof {
        if v@.len() > 0 && v@[0] == '+' {
            assert(body =~= v@.drop_first());
        } else {
            assert(body =~= v@);
        }
    }
    if start >= v.len() {
        return None;
    }
    let mut value: u64 = 0;
    let mut i: usize = start;
    while i < v.len()
        invariant
            start <= i <= v@.len(),
            body == v@.subrange(start as int, v@.len() as int),
            body == unsigned_digits(v@),
            forall|j: int| start <= j < i ==> is_digit(#[trigger] v@[j]),
            value == digits_value(v@.subrange(start as int, i as int)),
            value <= u32::MAX,
        decreases v@.len() - i,
    {
        let c = v[i];
        if !('0' <= c && c <= '9') {
            proof {
                assert(!is_digit(body[i - start]));
            }
            return None;
        }
        let d: u64 = (c as u32 - '0' as u32) as u64;
        assert(v@.subrange(start as int, i + 1).drop_last() =~= v@.subrange(start as int, i as int));
        let next = value * 10 + d;
        if next > 4294967295u64 {
            proof {
                if forall|j: int| 0 <= j < body.len() ==> is_digit(#[trigger] body[j]) {
                    lemma_digits_value_grows(body);
                    assert(body.subrange(0, i + 1 - start) =~= v@.subrange(start as int, i + 1));
                    assert(digits_value(body.subrange(0, i + 1 - start)) <= digits_value(body));
                }
            }
            return None;
        }
        value = next;
        i = i + 1;
    }
    assert(v@.subrange(start as int, i as int) =~= body);
    Some(value as u32)
}

/// The number a numbered key holds after its name, as [`numbered`]
/// reads. Matching the name character by character, ASCII letters either
/// case, is matching its bytes so: folding ASCII case changes no byte
/// outside ASCII, nor how many bytes a character takes.
pub fn numbering(key: &str, named: &str) -> (r: Option<u32>)
    ensures
        r == numbered(key@, named@),
{
    let k = chars_of(key);
    let n = chars_of(named);
    if k.len() < n.len() {
        return None;
    }
    let mut i: usize = 0;
    while i < n.len()
        invariant
            k@ == key@,
            n@ == named@,
            n@.len() <= k@.len(),
            i <= n@.len(),
            forall|j: int| 0 <= j < i ==> ascii_lower(#[trigger] k@[j]) == ascii_lower(n@[j]),
        decreases n@.len() - i,
    {
        if lower_ascii(k[i]) != lower_ascii(n[i]) {
            return None;
        }
        i = i + 1;
    }
    let mut rest: Vec<char> = Vec::new();
    let mut j: usize = n.len();
    while j < k.len()
        invariant
            n@.len() <= j <= k@.len(),
            rest@ == k@.subrange(n@.len() as int, j as int),
        decreases k@.len() - j,
    {
        rest.push(k[j]);
        j = j + 1;
        assert(rest@ =~= k@.subrange(n@.len() as int, j as int));
    }
    assert(rest@ =~= key@.skip(named@.len() as int));
    parse_u32(&rest)
}

/// The pieces of a text between its line feeds; a text with no line feed
/// is one piece.
pub open spec fn pieces_of(t: Seq<char>) -> Seq<Seq<char>>
    decreases t.len(),
{
    if t.len() == 0 {
        seq![Seq::<char>::empty()]
    } else {
        let before = pieces_of(t.drop_last());
        if t.last() == '\n' {
            before.push(Seq::<char>::empty())
        } else {
            before.update(before.len() - 1, before.last().push(t.last()))
        }
    }
}

proof fn lemma_pieces_len(t: Seq<char>)
    ensures
        pieces_of(t).len() >= 1,
    decreases t.len(),
{
    if t.len() > 0 {
        lemma_pieces_len(t.drop_last());
    }
}

/// Of the given lines, each trimmed, those left with anything in them.
pub open spec fn kept_lines(ls: Seq<Seq<char>>) -> Seq<Seq<char>>
    decreases ls.len(),
{
    if ls.len() == 0 {
        seq![]
    } else {
        kept_lines(ls.drop_last()) + if trim(ls.last()).len() > 0 {
            seq![trim(ls.last())]
        } else {
            seq![]
        }
    }
}

/// The lines a sheet is read as: each line trimmed, the blank ones left
/// out. A carriage return before a line feed is white space, and goes with
/// the trimming.
pub open spec fn sheet_lines(t: Seq<char>) -> Seq<Seq<char>> {
    kept_lines(pieces_of(t))
}

/// The lines of a sheet as characters, as [`sheet_lines`] reads.
pub fn sheet_lines_of(text: &str) -> (r: Vec<Vec<char>>)
    ensures
        r@.map_values(|l: Vec<char>| l@) == sheet_lines(text@),
{
    let t = chars_of(text);
    let mut kept: Vec<Vec<char>> = Vec::new();
    let mut current: Vec<char> = Vec::new();
    let mut i: usize = 0;
    while i < t.len()
        invariant
            i <= t@.len(),
            t@ == text@,
            pieces_of(t@.take(i as int)).len() >= 1,
            pieces_of(t@.take(i as int)).last() == current@,
            kept@.map_values(|l: Vec<char>| l@) == kept_lines(pieces_of(t@.take(i as int)).drop_last()),
        decreases t@.len() - i,
    {
        let c = t[i];
        let ghost before = pieces_of(t@.take(i as int));
        assert(t@.take(i + 1).drop_last() =~= t@.take(i as int));
        assert(t@.take(i + 1).last() == c);
        if c == '\n' {
            let line = trimmed(&current);
            let ghost was = kept@.map_values(|l: Vec<char>| l@);
            if line.len() > 0 {
                kept.push(line);
                assert(kept@.map_values(|l: Vec<char>| l@) =~= was.push(trim(current@)));
            }
            assert(pieces_of(t@.take(i + 1)).drop_last() =~= before);
            assert(before.drop_last().push(before.last()) =~= before);
            assert(kept_lines(before) == kept_lines(before.drop_last()) + if trim(before.last()).len() > 0 {
                seq![trim(before.last())]
            } else {
                seq![]
            });
            current = Vec::new();
            assert(kept@.map_values(|l: Vec<char>| l@) =~= kept_lines(before));
        } else {
            current.push(c);
            assert(pieces_of(t@.take(i + 1)).drop_last() =~= before.drop_last());
        }
        i = i + 1;
    }
    assert(t@.take(i as int) =~= text@);
    let ghost all = pieces_of(text@);
    let line = trimmed(&current);
    let ghost was = kept@.map_values(|l: Vec<char>| l@);
    if line.len() > 0 {
        kept.push(line);
        assert(kept@.map_values(|l: Vec<char>| l@) =~= was.push(trim(current@)));
    }
    assert(all.drop_last().push(all.last()) =~= all);
    assert(kept_lines(all) == kept_lines(all.drop_last()) + if trim(all.last()).len() > 0 {
        seq![trim(all.last())]
    } else {
        seq![]
    });
    assert(kept@.map_values(|l: Vec<char>| l@) =~= kept_lines(all));
    kept
}

/// What a playlist sheet lists: the name it declares, its rows in order,
/// each as it is written, and the count of rows it promises.
#[derive(Clone, Debug, Default, PartialEq, Eq)]
pub struct SheetRows {
    pub declared: Option<String>,
    pub rows: Vec<String>,
    pub promised: Option<u32>,
}

/// A text by its characters, where there is one.
pub open spec fn text_view(t: Option<String>) -> Option<Seq<char>> {
    match t {
        Some(s) => Some(s@),
        None => None,
    }
}

/// The tag an M3U sheet declares its name under.
pub open spec fn name_tag() -> Seq<char> {
    seq!['#', 'P', 'L', 'A', 'Y', 'L', 'I', 'S', 'T', ':']
}

/// The name an M3U line declares: what follows the name tag, trimmed,
/// where anything does.
pub open spec fn m3u_name_on(line: Seq<char>) -> Option<Seq<char>> {
    if line.len() >= name_tag().len() && line.take(name_tag().len() as int) == name_tag() && trim(
        line.skip(name_tag().len() as int),
    ).len() > 0 {
        Some(trim(line.skip(name_tag().len() as int)))
    } else {
        None
    }
}

/// The name the lines of an M3U sheet declare: the last declaration that
/// names anything.
pub open spec fn m3u_declared_in(ls: Seq<Seq<char>>) -> Option<Seq<char>>
    decreases ls.len(),
{
    if ls.len() == 0 {
        None
    } else {
        match m3u_name_on(ls.last()) {
            Some(name) => Some(name),
            None => m3u_declared_in(ls.drop_last()),
        }
    }
}

/// The rows of an M3U sheet: every line that is not a comment, in order.
pub open spec fn m3u_rows_in(ls: Seq<Seq<char>>) -> Seq<Seq<char>>
    decreases ls.len(),
{
    if ls.len() == 0 {
        seq![]
    } else {
        m3u_rows_in(ls.drop_last()) + if ls.last().len() > 0 && ls.last()[0] != '#' {
            seq![ls.last()]
        } else {
            seq![]
        }
    }
}

pub open spec fn m3u_declared(t: Seq<char>) -> Option<Seq<char>> {
    m3u_declared_in(sheet_lines(t))
}

pub open spec fn m3u_rows(t: Seq<char>) -> Seq<Seq<char>> {
    m3u_rows_in(sheet_lines(t))
}

fn prefixed(line: &[char], tag: &[char]) -> (r: bool)
    ensures
        r == (line@.len() >= tag@.len() && line@.take(tag@.len() as int) == tag@),
{
    if line.len() < tag.len() {
        return false;
    }
    let mut i: usize = 0;
    while i < tag.len()
        invariant
            i <= tag@.len() <= line@.len(),
            forall|k: int| 0 <= k < i ==> line@[k] == tag@[k],
        decreases tag@.len() - i,
    {
        if line[i] != tag[i] {
            return false;
        }
        i = i + 1;
    }
    assert(line@.take(tag@.len() as int) =~= tag@);
    true
}

fn skipped(line: &[char], n: usize) -> (r: Vec<char>)
    requires
        n <= line@.len(),
    ensures
        r@ == line@.skip(n as int),
{
    let mut r: Vec<char> = Vec::new();
    let mut i: usize = n;
    while i < line.len()
        invariant
            n <= i <= line@.len(),
            r@ == line@.subrange(n as int, i as int),
        decreases line@.len() - i,
    {
        r.push(line[i]);
        i = i + 1;
        assert(r@ =~= line@.subrange(n as int, i as int));
    }
    assert(r@ =~= line@.skip(n as int));
    r
}

/// Reads an M3U sheet: the name its last name tag declares, and every line
/// that is not a comment as a row, in order. An M3U sheet promises no
/// count.
pub fn m3u_read(text: &str) -> (r: SheetRows)
    ensures
        text_view(r.declared) == m3u_declared(text@),
        r.rows@.map_values(|s: String| s@) == m3u_rows(text@),
        r.promised is None,
{
    let lines = sheet_lines_of(text);
    let ghost ls = lines@.map_values(|l: Vec<char>| l@);
    let tag: Vec<char> = vec!['#', 'P', 'L', 'A', 'Y', 'L', 'I', 'S', 'T', ':'];
    assert(tag@ =~= name_tag());
    let mut declared: Option<String> = None;
    let mut rows: Vec<String> = Vec::new();
    let mut i: usize = 0;
    while i < lines.len()
        invariant
            i <= lines@.len(),
            ls == lines@.map_values(|l: Vec<char>| l@),
            tag@ == name_tag(),
            text_view(declared) == m3u_declared_in(ls.take(i as int)),
            rows@.map_values(|s: String| s@) == m3u_rows_in(ls.take(i as int)),
        decreases lines@.len() - i,
    {
        let line = &lines[i];
        assert(ls.take(i + 1).drop_last() =~= ls.take(i as int));
        assert(ls.take(i + 1).last() == line@);
        let ghost was = rows@.map_values(|s: String| s@);
        if prefixed(line, &tag) {
            let rest = trimmed(&skipped(line, tag.len()));
            if rest.len() > 0 {
                declared = Some(string_of(&rest));
            }
        } else if line.len() > 0 && line[0] != '#' {
            rows.push(string_of(line));
            assert(rows@.map_values(|s: String| s@) =~= was.push(line@));
        }
        proof {
            if line@.len() >= name_tag().len() && line@.take(name_tag().len() as int) == name_tag() {
                assert(line@[0] == '#');
            }
        }
        i = i + 1;
    }
    assert(ls.take(i as int) =~= ls);
    SheetRows { declared, rows, promised: None }
}

/// Whether two texts are one, ASCII letters compared without regard to
/// case.
pub open spec fn same_ascii(a: Seq<char>, b: Seq<char>) -> bool {
    a.len() == b.len() && forall|i: int| 0 <= i < a.len() ==> ascii_lower(#[trigger] a[i]) == ascii_lower(b[i])
}

fn same_ascii_exec(a: &[char], b: &[char]) -> (r: bool)
    ensures
        r == same_ascii(a@, b@),
{
    if a.len() != b.len() {
        return false;
    }
    let mut i: usize = 0;
    while i < a.len()
        invariant
            a@.len() == b@.len(),
            i <= a@.len(),
            forall|k: int| 0 <= k < i ==> ascii_lower(#[trigger] a@[k]) == ascii_lower(b@[k]),
        decreases a@.len() - i,
    {
        if lower_ascii(a[i]) != lower_ascii(b[i]) {
            return false;
        }
        i = i + 1;
    }
    true
}

/// The key a PLS sheet declares its name under.
pub open spec fn pls_name_key() -> Seq<char> {
    seq!['X', '-', 'G', 'N', 'O', 'M', 'E', '-', 'T', 'i', 't', 'l', 'e']
}

/// The key a PLS sheet promises its count under.
pub open spec fn pls_count_key() -> Seq<char> {
    seq!['N', 'u', 'm', 'b', 'e', 'r', 'O', 'f', 'E', 'n', 't', 'r', 'i', 'e', 's']
}

/// The key a PLS sheet names its rows under, each followed by its number.
pub open spec fn pls_file_key() -> Seq<char> {
    seq!['F', 'i', 'l', 'e']
}

/// A PLS line as its key and its value, each trimmed, split at its first
/// equals sign; none where it has none.
pub open spec fn pls_pair(line: Seq<char>) -> Option<(Seq<char>, Seq<char>)> {
    match find(line, seq!['=']) {
        Some(at) => Some((trim(line.take(at)), trim(line.skip(at + 1)))),
        None => None,
    }
}

/// The name the lines of a PLS sheet declare: the last declaration that
/// names anything.
pub open spec fn pls_declared_in(ls: Seq<Seq<char>>) -> Option<Seq<char>>
    decreases ls.len(),
{
    if ls.len() == 0 {
        None
    } else {
        match pls_pair(ls.last()) {
            Some((key, value)) => if same_ascii(key, pls_name_key()) && value.len() > 0 {
                Some(value)
            } else {
                pls_declared_in(ls.drop_last())
            },
            None => pls_declared_in(ls.drop_last()),
        }
    }
}

/// The count the lines of a PLS sheet promise: what the last count line
/// reads as, where it reads as a number; none where there is no count line.
pub open spec fn pls_promised_in(ls: Seq<Seq<char>>) -> Option<u32>
    decreases ls.len(),
{
    if ls.len() == 0 {
        None
    } else {
        match pls_pair(ls.last()) {
            Some((key, value)) => if same_ascii(key, pls_count_key()) {
                parsed_u32(value)
            } else {
                pls_promised_in(ls.drop_last())
            },
            None => pls_promised_in(ls.drop_last()),
        }
    }
}

/// The numbered rows of a PLS sheet, in the order its lines give them:
/// each `File` key's number and its value.
pub open spec fn pls_numbered_in(ls: Seq<Seq<char>>) -> Seq<(u32, Seq<char>)>
    decreases ls.len(),
{
    if ls.len() == 0 {
        seq![]
    } else {
        pls_numbered_in(ls.drop_last()) + match pls_pair(ls.last()) {
            Some((key, value)) => if same_ascii(key, pls_name_key()) || same_ascii(
                key,
                pls_count_key(),
            ) {
                seq![]
            } else {
                match numbered(key, pls_file_key()) {
                    Some(at) => seq![(at, value)],
                    None => seq![],
                }
            },
            None => seq![],
        }
    }
}

/// A numbered row set into rows already in order by number: after every
/// row numbered as low or lower, before the rest.
pub open spec fn placed_by_number(s: Seq<(u32, Seq<char>)>, x: (u32, Seq<char>)) -> Seq<
    (u32, Seq<char>),
>
    decreases s.len(),
{
    if s.len() == 0 || s.last().0 <= x.0 {
        s.push(x)
    } else {
        placed_by_number(s.drop_last(), x).push(s.last())
    }
}

/// Numbered rows in order by number, rows of one number in the order they
/// came.
pub open spec fn by_number(s: Seq<(u32, Seq<char>)>) -> Seq<(u32, Seq<char>)>
    decreases s.len(),
{
    if s.len() == 0 {
        seq![]
    } else {
        placed_by_number(by_number(s.drop_last()), s.last())
    }
}

pub open spec fn pls_declared(t: Seq<char>) -> Option<Seq<char>> {
    pls_declared_in(sheet_lines(t))
}

pub open spec fn pls_promised(t: Seq<char>) -> Option<u32> {
    pls_promised_in(sheet_lines(t))
}

/// The rows of a PLS sheet, in order by their numbers.
pub open spec fn pls_rows_by_number(t: Seq<char>) -> Seq<Seq<char>> {
    by_number(pls_numbered_in(sheet_lines(t))).map_values(|e: (u32, Seq<char>)| e.1)
}

proof fn lemma_placed_at(s: Seq<(u32, Seq<char>)>, x: (u32, Seq<char>), p: int)
    requires
        0 <= p <= s.len(),
        forall|j: int| p <= j < s.len() ==> (#[trigger] s[j]).0 > x.0,
        p == 0 || s[p - 1].0 <= x.0,
    ensures
        placed_by_number(s, x) == s.take(p) + seq![x] + s.skip(p),
    decreases s.len(),
{
    if p == s.len() {
        assert(s.take(p) =~= s);
        assert(s.skip(p) =~= Seq::<(u32, Seq<char>)>::empty());
        assert(s.take(p) + seq![x] + s.skip(p) =~= s.push(x));
    } else {
        assert(s.last().0 > x.0);
        lemma_placed_at(s.drop_last(), x, p);
        assert(s.drop_last().take(p) =~= s.take(p));
        assert(s.take(p) + seq![x] + s.skip(p) =~= (s.drop_last().take(p) + seq![x]
            + s.drop_last().skip(p)).push(s.last()));
    }
}

fn place_by_number(sorted: &mut Vec<(u32, String)>, x: (u32, String))
    ensures
        final(sorted)@.map_values(|e: (u32, String)| (e.0, e.1@)) == placed_by_number(
            old(sorted)@.map_values(|e: (u32, String)| (e.0, e.1@)),
            (x.0, x.1@),
        ),
{
    let ghost s = sorted@.map_values(|e: (u32, String)| (e.0, e.1@));
    let mut p: usize = sorted.len();
    while p > 0 && sorted[p - 1].0 > x.0
        invariant
            p <= sorted@.len(),
            s == sorted@.map_values(|e: (u32, String)| (e.0, e.1@)),
            forall|j: int| p <= j < s.len() ==> (#[trigger] s[j]).0 > x.0,
        decreases p,
    {
        p = p - 1;
    }
    proof {
        lemma_placed_at(s, (x.0, x.1@), p as int);
    }
    let ghost xv = (x.0, x.1@);
    sorted.insert(p, x);
    assert(sorted@.map_values(|e: (u32, String)| (e.0, e.1@)) =~= s.take(p as int) + seq![xv]
        + s.skip(p as int));
}

/// Reads a PLS sheet: the name its last title key declares, the count its
/// last count key promises, and the rows its `File` keys name, in order by
/// their numbers, rows of one number in the order they came. Lines with no
/// equals sign, and keys of any other kind, are passed over.
pub fn pls_read(text: &str) -> (r: SheetRows)
    ensures
        text_view(r.declared) == pls_declared(text@),
        r.promised == pls_promised(text@),
        r.rows@.map_values(|s: String| s@) == pls_rows_by_number(text@),
{
    let lines = sheet_lines_of(text);
    let ghost ls = lines@.map_values(|l: Vec<char>| l@);
    let name_key: Vec<char> = vec!['X', '-', 'G', 'N', 'O', 'M', 'E', '-', 'T', 'i', 't', 'l', 'e'];
    let count_key: Vec<char> = vec![
        'N', 'u', 'm', 'b', 'e', 'r', 'O', 'f', 'E', 'n', 't', 'r', 'i', 'e', 's',
    ];
    let equals: Vec<char> = vec!['='];
    assert(name_key@ =~= pls_name_key());
    assert(count_key@ =~= pls_count_key());
    assert(equals@ =~= seq!['=']);
    proof {
        reveal_strlit("File");
        assert("File"@ =~= pls_file_key());
    }
    let mut declared: Option<String> = None;
    let mut promised: Option<u32> = None;
    let mut sorted: Vec<(u32, String)> = Vec::new();
    let mut i: usize = 0;
    while i < lines.len()
        invariant
            i <= lines@.len(),
            ls == lines@.map_values(|l: Vec<char>| l@),
            name_key@ == pls_name_key(),
            count_key@ == pls_count_key(),
            equals@ == seq!['='],
            "File"@ == pls_file_key(),
            text_view(declared) == pls_declared_in(ls.take(i as int)),
            promised == pls_promised_in(ls.take(i as int)),
            sorted@.map_values(|e: (u32, String)| (e.0, e.1@)) == by_number(
                pls_numbered_in(ls.take(i as int)),
            ),
        decreases lines@.len() - i,
    {
        let line = &lines[i];
        assert(ls.take(i + 1).drop_last() =~= ls.take(i as int));
        assert(ls.take(i + 1).last() == line@);
        let ghost before = pls_numbered_in(ls.take(i as int));
        match find_exec(line, &equals) {
            None => {
                assert(pls_numbered_in(ls.take(i + 1)) =~= before);
            },
            Some(at) => {
                proof {
                    lemma_find_bounds(line@, seq!['='], 0);
                    assert(find(line@, equals@) == find_from(line@, equals@, 0));
                    assert(at + 1 <= line@.len());
                    assert(at < line.len());
                }
                let key = trimmed(&crate::text::slice_of(line, 0, at));
                let value = trimmed(&skipped(line, at + 1));
                if same_ascii_exec(&key, &name_key) {
                    if value.len() > 0 {
                        declared = Some(string_of(&value));
                    }
                    assert(pls_numbered_in(ls.take(i + 1)) =~= before);
                } else if same_ascii_exec(&key, &count_key) {
                    promised = parse_u32(&value);
                    assert(pls_numbered_in(ls.take(i + 1)) =~= before);
                } else {
                    let key_text = string_of(&key);
                    match numbering(key_text.as_str(), "File") {
                        Some(n) => {
                            let ghost was = sorted@.map_values(|e: (u32, String)| (e.0, e.1@));
                            place_by_number(&mut sorted, (n, string_of(&value)));
                            assert(pls_numbered_in(ls.take(i + 1)) =~= before.push((n, value@)));
                            assert(before.push((n, value@)).drop_last() =~= before);
                        },
                        None => {
                            assert(pls_numbered_in(ls.take(i + 1)) =~= before);
                        },
                    }
                }
            },
        }
        i = i + 1;
    }
    assert(ls.take(i as int) =~= ls);
    let ghost all = by_number(pls_numbered_in(ls));
    let mut rows: Vec<String> = Vec::new();
    let mut k: usize = 0;
    while k < sorted.len()
        invariant
            k <= sorted@.len(),
            all == sorted@.map_values(|e: (u32, String)| (e.0, e.1@)),
            rows@.map_values(|s: String| s@) == all.take(k as int).map_values(
                |e: (u32, Seq<char>)| e.1,
            ),
        decreases sorted@.len() - k,
    {
        let ghost was = rows@.map_values(|s: String| s@);
        let row = sorted[k].1.clone();
        assert(all[k as int] == (sorted@[k as int].0, sorted@[k as int].1@));
        rows.push(row);
        assert(rows@.map_values(|s: String| s@) =~= was.push(all[k as int].1));
        assert(all.take(k + 1).map_values(|e: (u32, Seq<char>)| e.1) =~= all.take(k as int).map_values(
            |e: (u32, Seq<char>)| e.1,
        ).push(all[k as int].1));
        k = k + 1;
        assert(rows@.map_values(|s: String| s@) =~= all.take(k as int).map_values(
            |e: (u32, Seq<char>)| e.1,
        ));
    }
    assert(all.take(k as int) =~= all);
    SheetRows { declared, rows, promised }
}

} // verus!
