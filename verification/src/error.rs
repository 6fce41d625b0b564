//! The names an error carries, and the faults the library's own logic
//! reports.
use vstd::prelude::*;

use crate::ids::PlaylistId;
use crate::text::string_of;

verus! {

broadcast use vstd::string::group_string_axioms;

/// The name of a tag, as a file carries it.
#[derive(Clone, Debug, PartialEq, Eq, Hash)]
pub struct TagName {
    name: String,
}

impl View for TagName {
    type V = Seq<char>;

    closed spec fn view(&self) -> Seq<char> {
        self.name@
    }
}

impl TagName {
    /// A tag named so.
    pub fn new(name: &str) -> (r: TagName)
        ensures
            r@ == name@,
    {
        TagName { name: name.to_string() }
    }

    /// The name as it is written.
    pub fn as_str(&self) -> (r: &str)
        ensures
            r@ == self@,
    {
        self.name.as_str()
    }
}

/// The name of a playlist.
#[derive(Clone, Debug, PartialEq, Eq, Hash)]
pub struct PlaylistName {
    name: String,
}

impl View for PlaylistName {
    type V = Seq<char>;

    closed spec fn view(&self) -> Seq<char> {
        self.name@
    }
}

impl PlaylistName {
    /// A playlist named so.
    pub fn new(name: &str) -> (r: PlaylistName)
        ensures
            r@ == name@,
    {
        PlaylistName { name: name.to_string() }
    }

    /// The name as it is written.
    pub fn as_str(&self) -> (r: &str)
        ensures
            r@ == self@,
    {
        self.name.as_str()
    }
}

/// The name of a field a naming layout asks for.
#[derive(Clone, Debug, PartialEq, Eq, Hash)]
pub struct FieldName {
    name: String,
}

impl View for FieldName {
    type V = Seq<char>;

    closed spec fn view(&self) -> Seq<char> {
        self.name@
    }
}

impl FieldName {
    /// A field named so.
    pub fn new(name: &str) -> (r: FieldName)
        ensures
            r@ == name@,
    {
        FieldName { name: name.to_string() }
    }

    /// The name as it is written.
    pub fn as_str(&self) -> (r: &str)
        ensures
            r@ == self@,
    {
        self.name.as_str()
    }
}

/// What is wrong with a naming layout at the place it is found.
#[derive(Clone, Copy, Debug, PartialEq, Eq, Structural, Hash)]
pub enum LayoutFault {
    Empty,
    EmptySegment,
    Unclosed,
    Unopened,
    EmptyField,
}

/// A stored column that records an order.
#[derive(Clone, Copy, Debug, PartialEq, Eq, Structural, Hash)]
pub enum OrderedColumn {
    Sort,
    KeptOrder,
    KeptReading,
}

/// A stored column that records a code.
#[derive(Clone, Copy, Debug, PartialEq, Eq, Structural, Hash)]
pub enum EncodedColumn {
    SampleFormat,
    Codec,
    Relation,
    Service,
}

/// What a move of files was doing when it failed.
#[derive(Clone, Copy, Debug, PartialEq, Eq, Structural, Hash)]
pub enum MoveOp {
    MakeFolder,
    Rename,
    Copy,
    Stamp,
    Discard,
    Rewrite,
    Settle,
    Prune,
}

/// What the catalog's store was doing when it failed.
#[derive(Clone, Copy, Debug, PartialEq, Eq, Structural, Hash)]
pub enum StoreOp {
    Open,
    LayOut,
    Migrate,
    Analyse,
    Prepare,
    Insert,
    Update,
    Delete,
    Query,
    Transaction,
}

/// The fingerprint of the schema a catalog was written to.
#[derive(Clone, Copy, Debug, PartialEq, Eq, Structural, PartialOrd, Ord, Hash)]
pub struct SchemaFingerprint(pub u32);

/// The hexadecimal digit of a number under sixteen, in lower case.
pub open spec fn hex_digit(n: nat) -> char {
    if n < 10 {
        (n + 48) as char
    } else {
        (n + 87) as char
    }
}

/// A number written as `width` hexadecimal digits, the most significant
/// first, zeros in front.
pub open spec fn hex_of(n: nat, width: nat) -> Seq<char>
    decreases width,
{
    if width == 0 {
        seq![]
    } else {
        hex_of(n / 16, (width - 1) as nat).push(hex_digit(n % 16))
    }
}

impl SchemaFingerprint {
    /// The fingerprint as it is shown: eight hexadecimal digits, in lower
    /// case, zeros in front.
    pub fn written(&self) -> (r: String)
        ensures
            r@ == hex_of(self.0 as nat, 8),
    {
        let mut digits: Vec<char> = Vec::new();
        let mut rest: u32 = self.0;
        let mut k: usize = 0;
        proof {
            assert(pow16(0) == 1);
            vstd::arithmetic::div_mod::lemma_div_basics(self.0 as int);
        }
        while k < 8
            invariant
                k <= 8,
                digits@.len() == k,
                forall|j: int|
                    0 <= j < k ==> #[trigger] digits@[j] == hex_digit(
                        ((self.0 as nat) / pow16(j as nat)) % 16,
                    ),
                rest as nat == (self.0 as nat) / pow16(k as nat),
            decreases 8 - k,
        {
            let d: u32 = rest % 16;
            let c: char = if d < 10 {
                ((d + 48) as u8) as char
            } else {
                ((d + 87) as u8) as char
            };
            proof {
                lemma_pow16_step(k as nat);
                lemma_div_div(self.0 as nat, pow16(k as nat));
            }
            digits.push(c);
            rest = rest / 16;
            k = k + 1;
        }
        let mut written: Vec<char> = Vec::new();
        let mut i: usize = 8;
        while i > 0
            invariant
                i <= 8,
                digits@.len() == 8,
                forall|j: int|
                    0 <= j < 8 ==> #[trigger] digits@[j] == hex_digit(
                        ((self.0 as nat) / pow16(j as nat)) % 16,
                    ),
                written@ == hex_of((self.0 as nat) / pow16(i as nat), (8 - i) as nat),
            decreases i,
        {
            proof {
                lemma_pow16_step((i - 1) as nat);
                lemma_div_div(self.0 as nat, pow16((i - 1) as nat));
            }
            written.push(digits[i - 1]);
            i = i - 1;
        }
        string_of(&written)
    }
}

/// Sixteen to the power `k`.
pub open spec fn pow16(k: nat) -> nat
    decreases k,
{
    if k == 0 {
        1
    } else {
        16 * pow16((k - 1) as nat)
    }
}

proof fn lemma_pow16_step(k: nat)
    ensures
        pow16(k + 1) == 16 * pow16(k),
        pow16(k) > 0,
    decreases k,
{
    if k > 0 {
        lemma_pow16_step((k - 1) as nat);
    }
}

proof fn lemma_div_div(n: nat, p: nat)
    requires
        p > 0,
    ensures
        n / (16 * p) == (n / p) / 16,
{
    vstd::arithmetic::div_mod::lemma_div_denominator(n as int, p as int, 16);
    vstd::arithmetic::mul::lemma_mul_is_commutative(p as int, 16);
}

/// The faults the library's own logic reports.
#[derive(Clone, Debug, PartialEq, Eq)]
pub enum Error {
    /// A naming layout could not be read: the fault, at a byte offset.
    LayoutSyntax { at: usize, fault: LayoutFault },
    /// A naming layout asked for a field no track is known by.
    UnknownLayoutField { field: FieldName },
    /// Part of a naming layout steps out of the folder it is written under.
    LayoutEscapes { segment: usize },
    /// A playlist stores a code for its order that names no order.
    UnknownOrder { playlist: PlaylistId, column: OrderedColumn, code: i64 },
    /// A playlist file holds more bytes than a playlist file may.
    PlaylistFileTooLarge { path: String, held: u64, limit: u64 },
    /// A playlist is already named so.
    DuplicatePlaylist { name: PlaylistName },
    /// A playlist was given no name.
    UnnamedPlaylist,
    /// A stored text is not a MusicBrainz identifier.
    NotAnMbid { text: String },
}

} // verus!
