//! The content snapshot: file names with their contents, kept in ascending
//! order of the names.

use crate::digest::{fits_hash_input, hashable};
use vstd::prelude::*;
use vstd::string::StringSliceAdditionalSpecFns;
use vstd::utf8::{encode_utf8, encode_utf8_decode_utf8};

verus! {

/// Most files that a snapshot holds: the leaves of its tree, once padded to a
/// power of two, are still counted in 32 bits.
pub const MAX_FILES: usize = 0x8000_0000;

/// How one name stands to another in the order of the snapshot.
#[derive(Clone, Copy, Debug, PartialEq, Eq, Structural)]
pub enum Rank {
    Before,
    Same,
    After,
}

/// Why a snapshot did not take an entry.
#[derive(Clone, Copy, Debug, PartialEq, Eq, Structural)]
pub enum FileMapError {
    /// The content is longer than the digest function accepts.
    ContentTooLarge,
    /// The snapshot already holds `MAX_FILES` other names.
    TooManyFiles,
}

/// Lexicographic order on byte strings: `a` comes strictly before `b`.
pub open spec fn bytes_before(a: Seq<u8>, b: Seq<u8>) -> bool
    decreases a.len(),
{
    if b.len() == 0 {
        false
    } else if a.len() == 0 {
        true
    } else if a[0] != b[0] {
        a[0] < b[0]
    } else {
        bytes_before(a.drop_first(), b.drop_first())
    }
}

/// The order of names: that of their UTF-8 encodings, byte by byte.
pub open spec fn name_before(a: Seq<char>, b: Seq<char>) -> bool {
    bytes_before(encode_utf8(a), encode_utf8(b))
}

/// How `a` stands to `b` in the order of names.
pub open spec fn rank_of(a: Seq<char>, b: Seq<char>) -> Rank {
    if a == b {
        Rank::Same
    } else if name_before(a, b) {
        Rank::Before
    } else {
        Rank::After
    }
}

/// No byte string comes before itself.
pub proof fn lemma_bytes_before_irreflexive(a: Seq<u8>)
    ensures
        !bytes_before(a, a),
    decreases a.len(),
{
    if a.len() > 0 {
        lemma_bytes_before_irreflexive(a.drop_first());
    }
}

/// The order on byte strings is transitive.
pub proof fn lemma_bytes_before_transitive(a: Seq<u8>, b: Seq<u8>, c: Seq<u8>)
    requires
        bytes_before(a, b),
        bytes_before(b, c),
    ensures
        bytes_before(a, c),
    decreases a.len(),
{
    if a.len() > 0 && a[0] == b[0] && b[0] == c[0] {
        lemma_bytes_before_transitive(a.drop_first(), b.drop_first(), c.drop_first());
    }
}

/// Of two different byte strings one comes before the other.
pub proof fn lemma_bytes_before_total(a: Seq<u8>, b: Seq<u8>)
    ensures
        a == b || bytes_before(a, b) || bytes_before(b, a),
    decreases a.len(),
{
    if a.len() > 0 && b.len() > 0 && a[0] == b[0] {
        lemma_bytes_before_total(a.drop_first(), b.drop_first());
        if a.drop_first() == b.drop_first() {
            assert(a =~= seq![a[0]] + a.drop_first());
            assert(b =~= seq![b[0]] + b.drop_first());
        }
    } else if a.len() == 0 && b.len() == 0 {
        assert(a =~= b);
    }
}

/// Two names with the same encoding are the same name.
pub proof fn lemma_encoding_is_injective(a: Seq<char>, b: Seq<char>)
    requires
        encode_utf8(a) == encode_utf8(b),
    ensures
        a == b,
{
    encode_utf8_decode_utf8(a);
    encode_utf8_decode_utf8(b);
}

/// Dropping a common prefix changes neither the order nor the equality of two
/// byte strings.
proof fn lemma_skip_common_prefix(a: Seq<u8>, b: Seq<u8>, i: int)
    requires
        0 <= i <= a.len(),
        i <= b.len(),
        a.take(i) == b.take(i),
    ensures
        bytes_before(a, b) == bytes_before(a.skip(i), b.skip(i)),
        bytes_before(b, a) == bytes_before(b.skip(i), a.skip(i)),
        (a == b) == (a.skip(i) == b.skip(i)),
    decreases i,
{
    if i == 0 {
        assert(a.skip(0) =~= a);
        assert(b.skip(0) =~= b);
    } else {
        assert(a[0] == a.take(i)[0]);
        assert(b[0] == b.take(i)[0]);
        assert(a.drop_first().take(i - 1) =~= a.take(i).drop_first());
        assert(b.drop_first().take(i - 1) =~= b.take(i).drop_first());
        lemma_skip_common_prefix(a.drop_first(), b.drop_first(), i - 1);
        assert(a.drop_first().skip(i - 1) =~= a.skip(i));
        assert(b.drop_first().skip(i - 1) =~= b.skip(i));
        if a.skip(i) == b.skip(i) {
            assert(a =~= a.take(i) + a.skip(i));
            assert(b =~= b.take(i) + b.skip(i));
        }
    }
}

/// Compares two names by the bytes of their encodings.
pub fn rank_names(a: &str, b: &str) -> (rank: Rank)
    ensures
        rank == rank_of(a@, b@),
{
    let x = a.as_bytes();
    let y = b.as_bytes();
    let mut i: usize = 0;
    while i < x.len() && i < y.len() && x[i] == y[i]
        invariant
            i <= x.len(),
            i <= y.len(),
            x@.take(i as int) == y@.take(i as int),
        decreases x.len() - i,
    {
        assert(x@.take(i + 1) =~= x@.take(i as int).push(x@[i as int]));
        assert(y@.take(i + 1) =~= y@.take(i as int).push(y@[i as int]));
        i += 1;
    }
    proof {
        lemma_skip_common_prefix(x@, y@, i as int);
        lemma_bytes_before_irreflexive(x@);
        if x@ == y@ {
            lemma_encoding_is_injective(a@, b@);
        }
        let p = x@.skip(i as int);
        let q = y@.skip(i as int);
        if i < x.len() && i < y.len() {
            assert(p[0] == x@[i as int]);
            assert(q[0] == y@[i as int]);
        }
        if i == x.len() && i == y.len() {
            assert(p =~= q);
        }
    }
    if i == x.len() {
        if i == y.len() {
            Rank::Same
        } else {
            Rank::Before
        }
    } else if i == y.len() {
        Rank::After
    } else if x[i] < y[i] {
        Rank::Before
    } else {
        Rank::After
    }
}


/// One file of a snapshot.
struct FileEntry {
    name: String,
    content: Vec<u8>,
}

/// A snapshot of named file contents, in ascending order of the names, each
/// name once.
pub struct FileMap {
    entries: Vec<FileEntry>,
}

/// The entries of a snapshot as contracts see them: name and content.
pub type Entries = Seq<(Seq<char>, Seq<u8>)>;

/// What every snapshot satisfies: names strictly ascending, every content
/// short enough to hash, no more than `MAX_FILES` entries.
pub open spec fn well_formed(entries: Entries) -> bool {
    &&& entries.len() <= MAX_FILES
    &&& forall|i: int| 0 <= i < entries.len() ==> hashable(#[trigger] entries[i].1)
    &&& forall|i: int, j: int|
        0 <= i < j < entries.len() ==> name_before(#[trigger] entries[i].0, #[trigger] entries[j].0)
}

/// Whether some entry carries `name`.
pub open spec fn has_name(entries: Entries, name: Seq<char>) -> bool {
    exists|i: int| 0 <= i < entries.len() && #[trigger] entries[i].0 == name
}

/// The content stored under `name`, where `has_name` holds.
pub open spec fn content_of(entries: Entries, name: Seq<char>) -> Seq<u8> {
    entries[choose|i: int| 0 <= i < entries.len() && #[trigger] entries[i].0 == name].1
}

/// The number of entries whose name comes before `name`: the place at which
/// `name` stands, or would stand, in a well-formed snapshot.
pub open spec fn place_of(entries: Entries, name: Seq<char>) -> int
    decreases entries.len(),
{
    if entries.len() == 0 {
        0
    } else {
        place_of(entries.drop_last(), name) + if name_before(entries.last().0, name) {
            1int
        } else {
            0int
        }
    }
}

/// The snapshot after `name` was set to `content`: the entry at the place of
/// `name` is replaced when it carries that name, and a new entry is put there
/// when it does not.
pub open spec fn with_entry(entries: Entries, name: Seq<char>, content: Seq<u8>) -> Entries {
    let at = place_of(entries, name);
    if has_name(entries, name) {
        entries.update(at, (name, content))
    } else {
        entries.insert(at, (name, content))
    }
}

/// In a well-formed snapshot the names before `name` are exactly those of the
/// first `at` entries, for any `at` that parts the names in this way.
pub proof fn lemma_place_of(entries: Entries, name: Seq<char>, at: int)
    requires
        well_formed(entries),
        0 <= at <= entries.len(),
        forall|i: int| 0 <= i < at ==> name_before(#[trigger] entries[i].0, name),
        forall|i: int| at <= i < entries.len() ==> !name_before(#[trigger] entries[i].0, name),
    ensures
        place_of(entries, name) == at,
    decreases entries.len(),
{
    if entries.len() > 0 {
        let rest = entries.drop_last();
        if at == entries.len() {
            lemma_place_of(rest, name, at - 1);
        } else {
            lemma_place_of(rest, name, at);
        }
    }
}

/// A name stands once in a well-formed snapshot: the entry that carries it is
/// the one that `content_of` reads.
pub proof fn lemma_content_of(entries: Entries, name: Seq<char>, at: int)
    requires
        well_formed(entries),
        0 <= at < entries.len(),
        entries[at].0 == name,
    ensures
        has_name(entries, name),
        content_of(entries, name) == entries[at].1,
        place_of(entries, name) == at,
{
    let found = choose|i: int| 0 <= i < entries.len() && #[trigger] entries[i].0 == name;
    lemma_bytes_before_irreflexive(encode_utf8(name));
    if found < at {
        assert(name_before(entries[found].0, entries[at].0));
    } else if at < found {
        assert(name_before(entries[at].0, entries[found].0));
    }
    assert forall|i: int| 0 <= i < at implies name_before(#[trigger] entries[i].0, name) by {
        assert(name_before(entries[i].0, entries[at].0));
    }
    assert forall|i: int| at <= i < entries.len() implies !name_before(
        #[trigger] entries[i].0,
        name,
    ) by {
        if at < i {
            assert(name_before(entries[at].0, entries[i].0));
            if name_before(entries[i].0, name) {
                lemma_bytes_before_transitive(
                    encode_utf8(name),
                    encode_utf8(entries[i].0),
                    encode_utf8(name),
                );
            }
        }
    }
    lemma_place_of(entries, name, at);
}

/// Setting an entry keeps a snapshot in order, provided that the content can
/// be hashed and that there is room for a new name.
pub proof fn lemma_with_entry_well_formed(entries: Entries, name: Seq<char>, content: Seq<u8>)
    requires
        well_formed(entries),
        hashable(content),
        has_name(entries, name) || entries.len() < MAX_FILES,
    ensures
        well_formed(with_entry(entries, name, content)),
        has_name(with_entry(entries, name, content), name),
        content_of(with_entry(entries, name, content), name) == content,
{
    let at = place_of(entries, name);
    let after = with_entry(entries, name, content);
    lemma_place_split(entries, name);
    if has_name(entries, name) {
        let found = choose|i: int| 0 <= i < entries.len() && #[trigger] entries[i].0 == name;
        lemma_content_of(entries, name, found);
        assert forall|i: int, j: int| 0 <= i < j < after.len() implies name_before(
            #[trigger] after[i].0,
            #[trigger] after[j].0,
        ) by {
            assert(after[i].0 == entries[i].0);
            assert(after[j].0 == entries[j].0);
        }
        assert(after[at].0 == name);
        lemma_content_of(after, name, at);
    } else {
        assert forall|i: int, j: int| 0 <= i < j < after.len() implies name_before(
            #[trigger] after[i].0,
            #[trigger] after[j].0,
        ) by {
            if j < at {
                assert(after[i] == entries[i] && after[j] == entries[j]);
            } else if j == at {
                assert(after[i] == entries[i]);
            } else if i < at {
                assert(after[i] == entries[i] && after[j] == entries[j - 1]);
                if j - 1 == i {
                } else {
                    assert(name_before(entries[i].0, entries[j - 1].0));
                }
                lemma_bytes_before_total(encode_utf8(entries[j - 1].0), encode_utf8(name));
                if encode_utf8(entries[j - 1].0) == encode_utf8(name) {
                    lemma_encoding_is_injective(entries[j - 1].0, name);
                }
                lemma_bytes_before_transitive(
                    encode_utf8(entries[i].0),
                    encode_utf8(name),
                    encode_utf8(entries[j - 1].0),
                );
            } else if i == at {
                assert(after[j] == entries[j - 1]);
                lemma_bytes_before_total(encode_utf8(entries[j - 1].0), encode_utf8(name));
                if encode_utf8(entries[j - 1].0) == encode_utf8(name) {
                    lemma_encoding_is_injective(entries[j - 1].0, name);
                }
            } else {
                assert(after[i] == entries[i - 1] && after[j] == entries[j - 1]);
            }
        }
        assert forall|i: int| 0 <= i < after.len() implies hashable(#[trigger] after[i].1) by {
            if i < at {
                assert(after[i] == entries[i]);
            } else if i > at {
                assert(after[i] == entries[i - 1]);
            }
        }
        assert(after[at].0 == name);
        lemma_content_of(after, name, at);
    }
}

/// In a well-formed snapshot the entries before the place of `name` carry
/// names before it, and the others do not.
pub proof fn lemma_place_split(entries: Entries, name: Seq<char>)
    requires
        well_formed(entries),
    ensures
        0 <= place_of(entries, name) <= entries.len(),
        forall|i: int|
            0 <= i < place_of(entries, name) ==> name_before(#[trigger] entries[i].0, name),
        forall|i: int|
            place_of(entries, name) <= i < entries.len() ==> !name_before(
                #[trigger] entries[i].0,
                name,
            ),
    decreases entries.len(),
{
    if entries.len() > 0 {
        let rest = entries.drop_last();
        let last = entries.len() - 1;
        lemma_place_split(rest, name);
        let at = place_of(rest, name);
        assert forall|i: int| 0 <= i < at implies name_before(#[trigger] entries[i].0, name) by {
            assert(rest[i] == entries[i]);
        }
        if name_before(entries[last].0, name) {
            assert forall|i: int| 0 <= i < last implies name_before(
                #[trigger] entries[i].0,
                name,
            ) by {
                assert(name_before(entries[i].0, entries[last].0));
                lemma_bytes_before_transitive(
                    encode_utf8(entries[i].0),
                    encode_utf8(entries[last].0),
                    encode_utf8(name),
                );
            }
            if at < last {
                assert(rest[at] == entries[at]);
                assert(!name_before(rest[at].0, name));
            }
        } else {
            assert forall|i: int| at <= i < entries.len() implies !name_before(
                #[trigger] entries[i].0,
                name,
            ) by {
                if i < last {
                    assert(rest[i] == entries[i]);
                }
            }
        }
    }
}

/// Setting an entry leaves every other name as it was: in the snapshot or
/// not, and with its content.
pub proof fn lemma_with_entry_keeps_others(
    entries: Entries,
    name: Seq<char>,
    content: Seq<u8>,
    other: Seq<char>,
)
    requires
        well_formed(entries),
        hashable(content),
        has_name(entries, name) || entries.len() < MAX_FILES,
        other != name,
    ensures
        has_name(with_entry(entries, name, content), other) == has_name(entries, other),
        has_name(entries, other) ==> content_of(with_entry(entries, name, content), other)
            == content_of(entries, other),
{
    let at = place_of(entries, name);
    let after = with_entry(entries, name, content);
    let inserted = !has_name(entries, name);
    lemma_with_entry_well_formed(entries, name, content);
    lemma_place_split(entries, name);
    if !inserted {
        let found = choose|i: int| 0 <= i < entries.len() && #[trigger] entries[i].0 == name;
        lemma_content_of(entries, name, found);
    }
    if has_name(entries, other) {
        let k = choose|i: int| 0 <= i < entries.len() && #[trigger] entries[i].0 == other;
        lemma_content_of(entries, other, k);
        let moved = if inserted && k >= at {
            k + 1
        } else {
            k
        };
        assert(after[moved] == entries[k]);
        lemma_content_of(after, other, moved);
    }
    if has_name(after, other) {
        let k = choose|i: int| 0 <= i < after.len() && #[trigger] after[i].0 == other;
        assert(after[at].0 == name);
        let back = if inserted && k > at {
            k - 1
        } else {
            k
        };
        assert(entries[back] == after[k]);
    }
}

impl View for FileMap {
    type V = Entries;

    closed spec fn view(&self) -> Entries {
        Seq::new(self.entries@.len(), |i: int| (self.entries@[i].name@, self.entries@[i].content@))
    }
}

impl FileMap {
    #[verifier::type_invariant]
    spec fn inv(self) -> bool {
        well_formed(self@)
    }

    /// A snapshot without files.
    pub fn new() -> (files: FileMap)
        ensures
            files@ == Entries::empty(),
    {
        let files = FileMap { entries: Vec::new() };
        assert(files@ =~= Entries::empty());
        files
    }

    /// The number of files.
    pub fn len(&self) -> (count: usize)
        ensures
            count == self@.len(),
            well_formed(self@),
    {
        proof {
            use_type_invariant(self);
        }
        self.entries.len()
    }

    /// Whether the snapshot holds no file.
    pub fn is_empty(&self) -> (empty: bool)
        ensures
            empty == (self@.len() == 0),
    {
        self.entries.len() == 0
    }

    /// The name of the file at `index`, counted in ascending order of names.
    pub fn name_at(&self, index: usize) -> (name: &String)
        requires
            index < self@.len(),
        ensures
            name@ == self@[index as int].0,
    {
        &self.entries[index].name
    }

    /// The content of the file at `index`, counted in ascending order of names.
    pub fn content_at(&self, index: usize) -> (content: &Vec<u8>)
        requires
            index < self@.len(),
        ensures
            content@ == self@[index as int].1,
            hashable(content@),
    {
        proof {
            use_type_invariant(self);
        }
        &self.entries[index].content
    }

    /// The index of the first entry whose name does not come before `name`.
    fn place(&self, name: &str) -> (at: usize)
        ensures
            at == place_of(self@, name@),
            at <= self@.len(),
            well_formed(self@),
            at < self@.len() && self@[at as int].0 == name@ || !has_name(self@, name@),
    {
        proof {
            use_type_invariant(self);
        }
        let mut at: usize = 0;
        while at < self.entries.len() && matches!(
            rank_names(self.entries[at].name.as_str(), name),
            Rank::Before
        )
            invariant
                at <= self.entries@.len(),
                self@.len() == self.entries@.len(),
                forall|i: int| 0 <= i < at ==> name_before(#[trigger] self@[i].0, name@),
            ensures
                at <= self.entries@.len(),
                forall|i: int| 0 <= i < at ==> name_before(#[trigger] self@[i].0, name@),
                at < self.entries@.len() ==> rank_of(self@[at as int].0, name@) != Rank::Before,
            decreases self.entries@.len() - at,
        {
            at += 1;
        }
        proof {
            let entries = self@;
            let key = name@;
            lemma_bytes_before_irreflexive(encode_utf8(key));
            assert forall|i: int| at <= i < entries.len() implies !name_before(
                #[trigger] entries[i].0,
                key,
            ) by {
                if at < i && name_before(entries[i].0, key) {
                    assert(name_before(entries[at as int].0, entries[i].0));
                    lemma_bytes_before_transitive(
                        encode_utf8(entries[at as int].0),
                        encode_utf8(entries[i].0),
                        encode_utf8(key),
                    );
                }
            }
            lemma_place_of(entries, key, at as int);
            if has_name(entries, key) {
                let found = choose|i: int| 0 <= i < entries.len() && #[trigger] entries[i].0 == key;
                lemma_content_of(entries, key, found);
            }
        }
        at
    }

    /// The content stored under `name`, if any.
    pub fn get(&self, name: &str) -> (content: Option<&Vec<u8>>)
        ensures
            content is Some == has_name(self@, name@),
            content matches Some(c) ==> c@ == content_of(self@, name@) && hashable(c@),
    {
        let at = self.place(name);
        if at < self.entries.len() && matches!(
            rank_names(self.entries[at].name.as_str(), name),
            Rank::Same
        ) {
            proof {
                lemma_content_of(self@, name@, at as int);
            }
            Some(&self.entries[at].content)
        } else {
            None
        }
    }

    /// Sets the content stored under `name`, keeping the names in order.
    ///
    /// The snapshot is left as it was when it cannot take the entry: when the
    /// content is too long to hash, or when the name is new and the snapshot
    /// is full.
    pub fn insert(&mut self, name: String, content: Vec<u8>) -> (outcome: Result<(), FileMapError>)
        ensures
            well_formed(final(self)@),
            !hashable(content@) ==> outcome == Err::<(), _>(FileMapError::ContentTooLarge),
            hashable(content@) && !has_name(old(self)@, name@) && old(self)@.len() == MAX_FILES
                ==> outcome == Err::<(), _>(FileMapError::TooManyFiles),
            hashable(content@) && (has_name(old(self)@, name@) || old(self)@.len() < MAX_FILES)
                ==> outcome is Ok,
            outcome is Ok ==> final(self)@ == with_entry(old(self)@, name@, content@),
            outcome is Err ==> final(self)@ == old(self)@,
    {
        proof {
            use_type_invariant(&*self);
        }
        if !fits_hash_input(content.len()) {
            return Err(FileMapError::ContentTooLarge);
        }
        let at = self.place(name.as_str());
        let ghost before = self@;
        let same = at < self.entries.len() && matches!(
            rank_names(self.entries[at].name.as_str(), name.as_str()),
            Rank::Same
        );
        proof {
            if same {
                assert(before[at as int].0 == name@);
            } else if at < before.len() {
                assert(before[at as int].0 != name@);
            }
        }
        if !same && self.entries.len() >= MAX_FILES {
            return Err(FileMapError::TooManyFiles);
        }
        let mut entries: Vec<FileEntry> = Vec::new();
        core::mem::swap(&mut entries, &mut self.entries);
        if same {
            entries[at] = FileEntry { name, content };
        } else {
            entries.insert(at, FileEntry { name, content });
        }
        proof {
            let after = Seq::new(entries@.len(), |i: int| (entries@[i].name@, entries@[i].content@));
            if same {
                assert(after =~= before.update(at as int, (name@, content@)));
            } else {
                assert(after =~= before.insert(at as int, (name@, content@)));
            }
            lemma_with_entry_well_formed(before, name@, content@);
        }
        self.entries = entries;
        Ok(())
    }
}

} // verus!
