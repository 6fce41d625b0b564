//! Which volume a root sits on, read from a mount table: each line names
//! a device, the folder it is mounted at, and the kind of volume it is.
use vstd::prelude::*;

use crate::organise::Naming;
use crate::text::{chars_of, is_space, slice_of, space, string_of};

verus! {

broadcast use vstd::string::group_string_axioms;

/// Where the first white space in a text stands, or its length where it
/// holds none.
pub open spec fn word_end(s: Seq<char>) -> int
    decreases s.len(),
{
    if s.len() == 0 || is_space(s[0]) {
        0
    } else {
        1 + word_end(s.drop_first())
    }
}

/// The words of a text: the runs of characters between white space.
pub open spec fn words(s: Seq<char>) -> Seq<Seq<char>>
    decreases s.len(),
{
    if s.len() == 0 {
        seq![]
    } else if is_space(s[0]) {
        words(s.drop_first())
    } else {
        let end = word_end(s);
        if 0 < end <= s.len() {
            seq![s.take(end)] + words(s.skip(end))
        } else {
            seq![]
        }
    }
}

proof fn lemma_word_end_of_run(s: Seq<char>, k: int)
    requires
        0 <= k <= s.len(),
        forall|i: int| 0 <= i < k ==> !is_space(#[trigger] s[i]),
        k == s.len() || is_space(s[k]),
    ensures
        word_end(s) == k,
    decreases s.len(),
{
    if s.len() > 0 && !is_space(s[0]) {
        assert forall|i: int| 0 <= i < k - 1 implies !is_space(#[trigger] s.drop_first()[i]) by {
            assert(s.drop_first()[i] == s[i + 1]);
        }
        if k - 1 < s.drop_first().len() {
            assert(s.drop_first()[k - 1] == s[k]);
        }
        lemma_word_end_of_run(s.drop_first(), k - 1);
    }
}

/// The words of `v` from `from` on.
fn words_from(v: &[char], from: usize) -> (r: Vec<Vec<char>>)
    requires
        from <= v@.len(),
    ensures
        r@.map_values(|w: Vec<char>| w@) == words(v@.skip(from as int)),
    decreases v@.len() - from,
{
    let mut at = from;
    while at < v.len() && space(v[at])
        invariant
            from <= at <= v@.len(),
            words(v@.skip(from as int)) == words(v@.skip(at as int)),
        decreases v@.len() - at,
    {
        assert(v@.skip(at as int).drop_first() =~= v@.skip(at + 1));
        at = at + 1;
    }
    if at >= v.len() {
        let r: Vec<Vec<char>> = Vec::new();
        assert(v@.skip(at as int) =~= Seq::<char>::empty());
        assert(r@.map_values(|w: Vec<char>| w@) =~= Seq::<Seq<char>>::empty());
        return r;
    }
    let mut end = at;
    let mut word: Vec<char> = Vec::new();
    while end < v.len() && !space(v[end])
        invariant
            at <= end <= v@.len(),
            word@ == v@.subrange(at as int, end as int),
            forall|i: int| at <= i < end ==> !is_space(#[trigger] v@[i]),
        decreases v@.len() - end,
    {
        word.push(v[end]);
        end = end + 1;
        assert(word@ =~= v@.subrange(at as int, end as int));
    }
    let ghost rest = v@.skip(at as int);
    proof {
        assert forall|i: int| 0 <= i < end - at implies !is_space(#[trigger] rest[i]) by {
            assert(rest[i] == v@[at + i]);
        }
        if end < v@.len() {
            assert(rest[end - at] == v@[end as int]);
        }
        lemma_word_end_of_run(rest, end - at);
        assert(rest.take(end - at) =~= word@);
        assert(rest.skip(end - at) =~= v@.skip(end as int));
    }
    let more = words_from(v, end);
    let mut r: Vec<Vec<char>> = Vec::new();
    r.push(word);
    let ghost first = r@.map_values(|w: Vec<char>| w@);
    let mut more = more;
    let ghost tail = more@.map_values(|w: Vec<char>| w@);
    r.append(&mut more);
    assert(r@.map_values(|w: Vec<char>| w@) =~= first + tail);
    r
}

/// The words of a text.
pub fn words_of(v: &[char]) -> (r: Vec<Vec<char>>)
    ensures
        r@.map_values(|w: Vec<char>| w@) == words(v@),
{
    assert(v@.skip(0) =~= v@);
    words_from(v, 0)
}


/// Where the first `sep` in a text stands, or its length where it holds
/// none.
pub open spec fn piece_end(s: Seq<char>, sep: char) -> int
    decreases s.len(),
{
    if s.len() == 0 || s[0] == sep {
        0
    } else {
        1 + piece_end(s.drop_first(), sep)
    }
}

/// A text cut at each `sep`: the runs between them, a final `sep` ending
/// the last run rather than starting an empty one.
pub open spec fn pieces(s: Seq<char>, sep: char) -> Seq<Seq<char>>
    decreases s.len(),
{
    if s.len() == 0 {
        seq![]
    } else {
        let end = piece_end(s, sep);
        if 0 <= end < s.len() {
            seq![s.take(end)] + pieces(s.skip(end + 1), sep)
        } else {
            seq![s]
        }
    }
}

proof fn lemma_piece_end_of_run(s: Seq<char>, sep: char, k: int)
    requires
        0 <= k <= s.len(),
        forall|i: int| 0 <= i < k ==> #[trigger] s[i] != sep,
        k == s.len() || s[k] == sep,
    ensures
        piece_end(s, sep) == k,
    decreases s.len(),
{
    if s.len() > 0 && s[0] != sep {
        assert forall|i: int| 0 <= i < k - 1 implies #[trigger] s.drop_first()[i] != sep by {
            assert(s.drop_first()[i] == s[i + 1]);
        }
        if k - 1 < s.drop_first().len() {
            assert(s.drop_first()[k - 1] == s[k]);
        }
        lemma_piece_end_of_run(s.drop_first(), sep, k - 1);
    }
}

/// The pieces of `v` from `from` on.
fn pieces_from(v: &[char], from: usize, sep: char) -> (r: Vec<Vec<char>>)
    requires
        from <= v@.len(),
    ensures
        r@.map_values(|w: Vec<char>| w@) == pieces(v@.skip(from as int), sep),
    decreases v@.len() - from,
{
    if from >= v.len() {
        let r: Vec<Vec<char>> = Vec::new();
        assert(v@.skip(from as int) =~= Seq::<char>::empty());
        assert(r@.map_values(|w: Vec<char>| w@) =~= Seq::<Seq<char>>::empty());
        return r;
    }
    let mut end = from;
    let mut piece: Vec<char> = Vec::new();
    while end < v.len() && v[end] != sep
        invariant
            from <= end <= v@.len(),
            piece@ == v@.subrange(from as int, end as int),
            forall|i: int| from <= i < end ==> #[trigger] v@[i] != sep,
        decreases v@.len() - end,
    {
        piece.push(v[end]);
        end = end + 1;
        assert(piece@ =~= v@.subrange(from as int, end as int));
    }
    let ghost rest = v@.skip(from as int);
    proof {
        assert forall|i: int| 0 <= i < end - from implies #[trigger] rest[i] != sep by {
            assert(rest[i] == v@[from + i]);
        }
        if end < v@.len() {
            assert(rest[end - from] == v@[end as int]);
        }
        lemma_piece_end_of_run(rest, sep, end - from);
        assert(rest.take(end - from) =~= piece@);
    }
    let mut r: Vec<Vec<char>> = Vec::new();
    if end >= v.len() {
        assert(rest =~= piece@);
        r.push(piece);
        assert(r@.map_values(|w: Vec<char>| w@) =~= seq![rest]);
        return r;
    }
    assert(rest.skip(end - from + 1) =~= v@.skip(end + 1));
    let mut more = pieces_from(v, end + 1, sep);
    r.push(piece);
    let ghost first = r@.map_values(|w: Vec<char>| w@);
    let ghost tail = more@.map_values(|w: Vec<char>| w@);
    r.append(&mut more);
    assert(r@.map_values(|w: Vec<char>| w@) =~= first + tail);
    r
}

/// The pieces of a text cut at each `sep`.
pub fn pieces_of(v: &[char], sep: char) -> (r: Vec<Vec<char>>)
    ensures
        r@.map_values(|w: Vec<char>| w@) == pieces(v@, sep),
{
    assert(v@.skip(0) =~= v@);
    pieces_from(v, 0, sep)
}

/// The named steps of a path, in order: its parts between slashes that
/// are neither empty nor `.`.
pub open spec fn named_steps(parts: Seq<Seq<char>>) -> Seq<Seq<char>>
    decreases parts.len(),
{
    if parts.len() == 0 {
        seq![]
    } else {
        named_steps(parts.drop_last()) + if parts.last().len() == 0 || parts.last() == seq!['.'] {
            Seq::<Seq<char>>::empty()
        } else {
            seq![parts.last()]
        }
    }
}

/// The components of a path on a Unix system: the root where it starts at
/// one, a leading `.` where a relative path starts with one, and its
/// named steps, repeated separators, a trailing one and any other `.` left
/// out.
pub open spec fn components(p: Seq<char>) -> Seq<Seq<char>> {
    let parts = pieces(p, '/');
    (if p.len() > 0 && p[0] == '/' {
        seq![seq!['/']]
    } else if parts.len() > 0 && parts[0] == seq!['.'] {
        seq![seq!['.']]
    } else {
        Seq::<Seq<char>>::empty()
    }) + named_steps(parts)
}

fn same_chars(a: &[char], b: &[char]) -> (r: bool)
    ensures
        r == (a@ == b@),
{
    if a.len() != b.len() {
        return false;
    }
    let mut i: usize = 0;
    while i < a.len()
        invariant
            i <= a@.len(),
            a@.len() == b@.len(),
            forall|k: int| 0 <= k < i ==> a@[k] == b@[k],
        decreases a@.len() - i,
    {
        if a[i] != b[i] {
            return false;
        }
        i = i + 1;
    }
    assert(a@ =~= b@);
    true
}

fn is_dot(v: &[char]) -> (r: bool)
    ensures
        r == (v@ == seq!['.']),
{
    if v.len() == 1 && v[0] == '.' {
        assert(v@ =~= seq!['.']);
        true
    } else {
        false
    }
}

/// The components of a path, as [`components`] reads.
pub fn components_of(p: &[char]) -> (r: Vec<Vec<char>>)
    ensures
        r@.map_values(|w: Vec<char>| w@) == components(p@),
{
    let parts = pieces_of(p, '/');
    let ghost ps = parts@.map_values(|w: Vec<char>| w@);
    let mut r: Vec<Vec<char>> = Vec::new();
    if p.len() > 0 && p[0] == '/' {
        let mut root: Vec<char> = Vec::new();
        root.push('/');
        r.push(root);
    } else if parts.len() > 0 && is_dot(&parts[0]) {
        let mut dot: Vec<char> = Vec::new();
        dot.push('.');
        r.push(dot);
    }
    let ghost head = r@.map_values(|w: Vec<char>| w@);
    proof {
        if p@.len() > 0 && p@[0] == '/' {
            assert(head =~= seq![seq!['/']]);
        } else if ps.len() > 0 && ps[0] == seq!['.'] {
            assert(head =~= seq![seq!['.']]);
        } else {
            assert(head =~= Seq::<Seq<char>>::empty());
        }
    }
    let mut i: usize = 0;
    while i < parts.len()
        invariant
            i <= parts@.len(),
            ps == parts@.map_values(|w: Vec<char>| w@),
            r@.map_values(|w: Vec<char>| w@) == head + named_steps(ps.subrange(0, i as int)),
        decreases parts@.len() - i,
    {
        assert(ps.subrange(0, i + 1).drop_last() =~= ps.subrange(0, i as int));
        assert(ps.subrange(0, i + 1).last() == ps[i as int]);
        assert(ps[i as int] == parts@[i as int]@);
        let ghost before = r@.map_values(|w: Vec<char>| w@);
        let ghost nb = named_steps(ps.subrange(0, i as int));
        assert(named_steps(ps.subrange(0, i + 1)) == nb + if ps[i as int].len() == 0 || ps[i as int]
            == seq!['.'] {
            Seq::<Seq<char>>::empty()
        } else {
            seq![ps[i as int]]
        });
        if parts[i].len() > 0 && !is_dot(&parts[i]) {
            let step = slice_of(&parts[i], 0, parts[i].len());
            assert(step@ =~= ps[i as int]);
            r.push(step);
            assert(r@.map_values(|w: Vec<char>| w@) =~= before.push(ps[i as int]));
            assert(head + nb + seq![ps[i as int]] =~= head + (nb + seq![ps[i as int]]));
        } else {
            assert(r@.map_values(|w: Vec<char>| w@) =~= before);
            assert(nb + Seq::<Seq<char>>::empty() =~= nb);
        }
        assert(r@.map_values(|w: Vec<char>| w@) =~= head + named_steps(ps.subrange(0, i + 1)));
        i = i + 1;
    }
    assert(ps.subrange(0, i as int) =~= ps);
    r
}

/// Eight to the power `k`.
pub open spec fn pow8(k: nat) -> nat
    decreases k,
{
    if k == 0 {
        1
    } else {
        8 * pow8((k - 1) as nat)
    }
}

/// The number an octal run of digits writes.
pub open spec fn octal_value(d: Seq<char>) -> nat
    decreases d.len(),
{
    if d.len() == 0 {
        0
    } else {
        octal_value(d.drop_last()) * 8 + ((d.last() as u32) - ('0' as u32)) as nat
    }
}

/// The byte a run of characters writes in octal, as `u8::from_str_radix`
/// reads it with radix eight: an optional plus sign before one octal
/// digit or more, of a value that fits a byte.
pub open spec fn octal_byte(d: Seq<char>) -> Option<u8> {
    if octal_body(d).len() > 0 && (forall|i: int|
        0 <= i < octal_body(d).len() ==> '0' <= #[trigger] octal_body(d)[i] && octal_body(d)[i] <= '7')
        && octal_value(octal_body(d)) <= 255 {
        Some(octal_value(octal_body(d)) as u8)
    } else {
        None
    }
}

/// The digits of an octal byte: the text after a leading plus sign, where
/// more follows it.
pub open spec fn octal_body(d: Seq<char>) -> Seq<char> {
    if d.len() > 1 && d[0] == '+' {
        d.drop_first()
    } else {
        d
    }
}

/// A mount point as a table writes it, with each backslash and the three
/// characters after it read as an octal byte where they are one; a run
/// that is not one is left as it stands.
pub open spec fn unescape(s: Seq<char>) -> Seq<char>
    decreases s.len(),
{
    if s.len() == 0 {
        seq![]
    } else if s[0] != '\\' {
        seq![s[0]] + unescape(s.drop_first())
    } else {
        let n = if s.len() - 1 < 3 {
            s.len() - 1
        } else {
            3
        };
        let d = s.subrange(1, 1 + n);
        (match octal_byte(d) {
            Some(b) => seq![b as char],
            None => seq!['\\'] + d,
        }) + unescape(s.skip(1 + n))
    }
}

fn octal_byte_of(d: &[char]) -> (r: Option<u8>)
    requires
        d@.len() <= 3,
    ensures
        r == octal_byte(d@),
{
    let start: usize = if d.len() > 1 && d[0] == '+' {
        1
    } else {
        0
    };
    let ghost body = d@.subrange(start as int, d@.len() as int);
    proof {
        if d@.len() > 1 && d@[0] == '+' {
            assert(body =~= d@.drop_first());
        } else {
            assert(body =~= d@);
        }
    }
    if start >= d.len() {
        return None;
    }
    let mut value: u32 = 0;
    let mut i: usize = start;
    while i < d.len()
        invariant
            start <= i <= d@.len(),
            d@.len() <= 3,
            body == d@.subrange(start as int, d@.len() as int),
            body == octal_body(d@),
            forall|j: int| start <= j < i ==> '0' <= #[trigger] d@[j] && d@[j] <= '7',
            value == octal_value(d@.subrange(start as int, i as int)),
            value < pow8((i - start) as nat),
            i - start <= 3,
        decreases d@.len() - i,
    {
        let c = d[i];
        if !('0' <= c && c <= '7') {
            proof {
                assert(body[i - start] == d@[i as int]);
                assert(!('0' <= body[i - start] <= '7'));
                assert(!(forall|j: int| 0 <= j < body.len() ==> '0' <= #[trigger] body[j] && body[j] <= '7'));
            }
            return None;
        }
        assert(d@.subrange(start as int, i + 1).drop_last() =~= d@.subrange(start as int, i as int));
        proof {
            assert(pow8((i - start + 1) as nat) == 8 * pow8((i - start) as nat));
            reveal_with_fuel(pow8, 4);
            assert(pow8(3) == 512);
        }
        value = value * 8 + (c as u32 - '0' as u32);
        i = i + 1;
    }
    assert(d@.subrange(start as int, i as int) =~= body);
    if value <= 255 {
        Some(value as u8)
    } else {
        None
    }
}


/// A mount point unescaped, as [`unescape`] reads.
pub fn unescaped_mount(field: &str) -> (r: String)
    ensures
        r@ == unescape(field@),
{
    let v = chars_of(field);
    let mut out: Vec<char> = Vec::new();
    let mut i: usize = 0;
    assert(v@.skip(0) =~= v@);
    assert(out@ + unescape(v@) =~= unescape(v@));
    while i < v.len()
        invariant
            i <= v@.len(),
            v@ == field@,
            out@ + unescape(v@.skip(i as int)) == unescape(v@),
        decreases v@.len() - i,
    {
        let ghost rest = v@.skip(i as int);
        let ghost before = out@;
        if v[i] != '\\' {
            out.push(v[i]);
            proof {
                assert(rest.drop_first() =~= v@.skip(i + 1));
                assert(out@ + unescape(v@.skip(i + 1)) =~= before + unescape(rest));
            }
            i = i + 1;
        } else {
            let n: usize = if v.len() - 1 - i < 3 {
                v.len() - 1 - i
            } else {
                3
            };
            let d = slice_of(&v, i + 1, i + 1 + n);
            proof {
                assert(rest.subrange(1, 1 + n as int) =~= d@);
                assert(rest.skip(1 + n as int) =~= v@.skip(i + 1 + n));
            }
            match octal_byte_of(&d) {
                Some(b) => {
                    out.push(b as char);
                    proof {
                        assert(out@ + unescape(v@.skip(i + 1 + n)) =~= before + unescape(rest));
                    }
                },
                None => {
                    out.push('\\');
                    let mut k: usize = 0;
                    while k < d.len()
                        invariant
                            k <= d@.len(),
                            out@ == before + seq!['\\'] + d@.take(k as int),
                        decreases d@.len() - k,
                    {
                        out.push(d[k]);
                        k = k + 1;
                        assert(out@ =~= before + seq!['\\'] + d@.take(k as int));
                    }
                    proof {
                        assert(d@.take(k as int) =~= d@);
                        assert(out@ + unescape(v@.skip(i + 1 + n)) =~= before + unescape(rest));
                    }
                },
            }
            i = i + 1 + n;
        }
    }
    assert(v@.skip(i as int) =~= Seq::<char>::empty());
    assert(out@ + Seq::<char>::empty() =~= out@);
    string_of(&out)
}

/// Whether one run of components starts another.
pub open spec fn starts(a: Seq<Seq<char>>, b: Seq<Seq<char>>) -> bool {
    a.len() <= b.len() && b.take(a.len() as int) == a
}

/// The kinds of volume that take only what Windows takes in a name.
pub open spec fn portable_kind(k: Seq<char>) -> bool {
    ||| k == "vfat"@
    ||| k == "msdos"@
    ||| k == "exfat"@
    ||| k == "ntfs"@
    ||| k == "ntfs3"@
    ||| k == "fuseblk"@
    ||| k == "fat"@
}

/// The volume a root sits on, as the table's lines from the first up to
/// `lines.len()` say: of the mounts whose folder starts the root, the one
/// with the most components, and the last of any tied; with how many
/// components its folder has and its kind.
pub open spec fn mounted_at(lines: Seq<Seq<char>>, root: Seq<Seq<char>>) -> Option<(nat, Seq<char>)>
    decreases lines.len(),
{
    if lines.len() == 0 {
        None
    } else {
        let held = mounted_at(lines.drop_last(), root);
        let ws = words(lines.last());
        if ws.len() >= 3 && starts(components(unescape(ws[1])), root) {
            let count = components(unescape(ws[1])).len();
            match held {
                Some(best) => if best.0 > count {
                    held
                } else {
                    Some((count, ws[2]))
                },
                None => Some((count, ws[2])),
            }
        } else {
            held
        }
    }
}

/// What a root's volume will take in a name, as a mount table says: only
/// what a portable volume takes where the mount it sits on is of such a
/// kind, anything otherwise.
pub open spec fn naming_in(table: Seq<char>, root: Seq<char>) -> Naming {
    match mounted_at(pieces(table, '\n'), components(root)) {
        Some(best) => if portable_kind(best.1) {
            Naming::Portable
        } else {
            Naming::Anything
        },
        None => Naming::Anything,
    }
}

fn starts_exec(a: &Vec<Vec<char>>, b: &Vec<Vec<char>>) -> (r: bool)
    ensures
        r == starts(a@.map_values(|w: Vec<char>| w@), b@.map_values(|w: Vec<char>| w@)),
{
    let ghost av = a@.map_values(|w: Vec<char>| w@);
    let ghost bv = b@.map_values(|w: Vec<char>| w@);
    if a.len() > b.len() {
        return false;
    }
    let mut i: usize = 0;
    while i < a.len()
        invariant
            i <= a@.len(),
            a@.len() <= b@.len(),
            av == a@.map_values(|w: Vec<char>| w@),
            bv == b@.map_values(|w: Vec<char>| w@),
            forall|k: int| 0 <= k < i ==> av[k] == bv[k],
        decreases a@.len() - i,
    {
        if !same_chars(&a[i], &b[i]) {
            proof {
                assert(av[i as int] != bv[i as int]);
                assert(bv.take(av.len() as int)[i as int] != av[i as int]);
            }
            return false;
        }
        i = i + 1;
    }
    assert(bv.take(av.len() as int) =~= av);
    true
}

fn is_portable_kind(k: &[char]) -> (r: bool)
    ensures
        r == portable_kind(k@),
{
    same_chars(k, &chars_of("vfat")) || same_chars(k, &chars_of("msdos")) || same_chars(
        k,
        &chars_of("exfat"),
    ) || same_chars(k, &chars_of("ntfs")) || same_chars(k, &chars_of("ntfs3")) || same_chars(
        k,
        &chars_of("fuseblk"),
    ) || same_chars(k, &chars_of("fat"))
}

impl Naming {
    /// What a root's volume will take in a name, as a mount table such as
    /// `/proc/self/mounts` says; see [`naming_in`]. A carriage return
    /// before a line feed is white space to the words of a line, so the
    /// table reads as its lines do.
    pub fn in_table(table: &str, root: &str) -> (r: Naming)
        ensures
            r == naming_in(table@, root@),
    {
        let t = chars_of(table);
        let rc = components_of(&chars_of(root));
        let ghost rv = rc@.map_values(|w: Vec<char>| w@);
        let lines = pieces_of(&t, '\n');
        let ghost ls = lines@.map_values(|w: Vec<char>| w@);
        let mut best_count: usize = 0;
        let mut best_kind: Option<Vec<char>> = None;
        let mut i: usize = 0;
        while i < lines.len()
            invariant
                i <= lines@.len(),
                ls == lines@.map_values(|w: Vec<char>| w@),
                rv == rc@.map_values(|w: Vec<char>| w@),
                match mounted_at(ls.subrange(0, i as int), rv) {
                    None => best_kind is None,
                    Some(best) => best_kind matches Some(k) && k@ == best.1 && best_count == best.0,
                },
            decreases lines@.len() - i,
        {
            assert(ls.subrange(0, i + 1).drop_last() =~= ls.subrange(0, i as int));
            assert(ls.subrange(0, i + 1).last() == ls[i as int]);
            assert(ls[i as int] == lines@[i as int]@);
            let ws = words_of(&lines[i]);
            let ghost wv = ws@.map_values(|w: Vec<char>| w@);
            if ws.len() >= 3 {
                let point = unescaped_mount_chars(&ws[1]);
                assert(point@ == unescape(wv[1]));
                let pc = components_of(&point);
                if starts_exec(&pc, &rc) {
                    let count = pc.len();
                    let take = match &best_kind {
                        None => true,
                        Some(_) => !(best_count > count),
                    };
                    if take {
                        best_count = count;
                        best_kind = Some(slice_of(&ws[2], 0, ws[2].len()));
                        proof {
                            assert(pc@.map_values(|w: Vec<char>| w@).len() == pc@.len());
                        }
                    }
                    proof {
                        assert(pc@.map_values(|w: Vec<char>| w@).len() == pc@.len());
                        assert(wv[2] == ws@[2]@);
                        if take {
                            assert(best_kind->0@ =~= wv[2]);
                        }
                    }
                }
            }
            i = i + 1;
        }
        assert(ls.subrange(0, i as int) =~= ls);
        match best_kind {
            Some(k) => if is_portable_kind(&k) {
                Naming::Portable
            } else {
                Naming::Anything
            },
            None => Naming::Anything,
        }
    }
}

fn unescaped_mount_chars(v: &Vec<char>) -> (r: Vec<char>)
    ensures
        r@ == unescape(v@),
{
    let s = string_of(v);
    let u = unescaped_mount(s.as_str());
    chars_of(u.as_str())
}


/// What a root's volume takes in a name goes by the kind of the mount it
/// sits on: where the table's mounts that hold the root leave it on one of
/// kind `k`, the root takes only what a portable volume takes exactly when
/// `k` is vfat, msdos, exfat, ntfs, ntfs3, fuseblk or fat; where no mount
/// holds it, it takes anything.
pub proof fn a_root_is_portable_exactly_on_the_windows_kinds(table: Seq<char>, root: Seq<char>)
    ensures
        mounted_at(pieces(table, '\n'), components(root)) matches Some((_, k)) ==> (naming_in(
            table,
            root,
        ) == Naming::Portable <==> (k == "vfat"@
            || k == "msdos"@
            || k == "exfat"@
            || k == "ntfs"@
            || k == "ntfs3"@
            || k == "fuseblk"@
            || k == "fat"@)),
        mounted_at(pieces(table, '\n'), components(root)) is None ==> naming_in(table, root)
            == Naming::Anything,
{
}

} // verus!
