//! The ledger of content hashes, and the hash that it records.

use crate::path::{lemma_push_to_set, lemma_views_push, views};
use vstd::hash_map::StringHashMap;
use vstd::prelude::*;

verus! {

/// The BLAKE3 digest of `data`, written as lowercase hexadecimal digits.
pub uninterp spec fn blake3_hex(data: Seq<u8>) -> Seq<char>;

/// A lowercase hexadecimal digit.
pub open spec fn is_lower_hex(c: char) -> bool {
    ('0' <= c && c <= '9') || ('a' <= c && c <= 'f')
}

/// A 256-bit digest written as 64 lowercase hexadecimal digits.
pub open spec fn is_hex_digest(text: Seq<char>) -> bool {
    &&& text.len() == 64
    &&& forall|i: int| 0 <= i < text.len() ==> is_lower_hex(#[trigger] text[i])
}

/// Calls `blake3::hash` and writes the digest with `blake3::Hash::to_hex`.
/// Trusted: the result is the digest of exactly the bytes given, and `to_hex`
/// writes its 32 bytes as 64 characters out of `0123456789abcdef`.
#[verifier::external_body]
fn blake3_digest(data: &[u8]) -> (hex: String)
    ensures
        hex@ == blake3_hex(data@),
        is_hex_digest(hex@),
{
    blake3::hash(data).to_hex().to_string()
}

/// The content hash of a file whose bytes are `content`.
pub fn hash_file(content: &[u8]) -> (hex: String)
    ensures
        hex@ == blake3_hex(content@),
        is_hex_digest(hex@),
{
    blake3_digest(content)
}

/// The views of a sequence of (path, hash) pairs.
pub open spec fn entry_views(entries: Seq<(String, String)>) -> Seq<(Seq<char>, Seq<char>)> {
    entries.map_values(|e: (String, String)| (e.0@, e.1@))
}

/// The paths of a sequence of (path, hash) pairs.
pub open spec fn entry_paths(entries: Seq<(Seq<char>, Seq<char>)>) -> Seq<Seq<char>> {
    entries.map_values(|e: (Seq<char>, Seq<char>)| e.0)
}

/// The map that a sequence of (path, hash) pairs stands for: where a path
/// occurs more than once, its last hash counts.
pub open spec fn map_of(entries: Seq<(Seq<char>, Seq<char>)>) -> Map<Seq<char>, Seq<char>>
    decreases entries.len(),
{
    if entries.len() == 0 {
        Map::empty()
    } else {
        map_of(entries.drop_last()).insert(entries.last().0, entries.last().1)
    }
}

/// `map_of` holds exactly the paths of its entries, and for each of them the
/// hash of one of its entries.
pub proof fn lemma_map_of(entries: Seq<(Seq<char>, Seq<char>)>)
    ensures
        map_of(entries).dom() == entry_paths(entries).to_set(),
        map_of(entries).dom().finite(),
        forall|path: Seq<char>| #[trigger]
            map_of(entries).contains_key(path) ==> exists|i: int|
                0 <= i < entries.len() && entries[i] == (path, map_of(entries)[path]),
    decreases entries.len(),
{
    if entries.len() == 0 {
        assert(map_of(entries).dom() =~= entry_paths(entries).to_set());
    } else {
        let before = entries.drop_last();
        let last = entries.last();
        lemma_map_of(before);
        assert(entry_paths(entries) =~= entry_paths(before).push(last.0));
        lemma_push_to_set(entry_paths(before), last.0);
        assert(map_of(entries).dom() =~= entry_paths(entries).to_set());
        assert forall|path: Seq<char>| #[trigger]
            map_of(entries).contains_key(path) implies exists|i: int|
            0 <= i < entries.len() && entries[i] == (path, map_of(entries)[path]) by {
            if path == last.0 {
                assert(entries[entries.len() - 1] == (path, map_of(entries)[path]));
            } else {
                let i = choose|i: int|
                    0 <= i < before.len() && before[i] == (path, map_of(before)[path]);
                assert(entries[i] == (path, map_of(entries)[path]));
            }
        }
    }
}

/// Entries with distinct paths that agree with `ledger` on every path, and
/// whose paths are all of `ledger`'s, stand for `ledger`.
pub proof fn lemma_map_of_listing(
    entries: Seq<(Seq<char>, Seq<char>)>,
    ledger: Map<Seq<char>, Seq<char>>,
)
    requires
        entry_paths(entries).to_set() == ledger.dom(),
        forall|i: int| 0 <= i < entries.len() ==> ledger[(#[trigger] entries[i]).0] == entries[i].1,
    ensures
        map_of(entries) == ledger,
{
    lemma_map_of(entries);
    assert forall|path: Seq<char>| map_of(entries).contains_key(path) implies map_of(
        entries,
    )[path] == ledger[path] by {
        let i = choose|i: int|
            0 <= i < entries.len() && entries[i] == (path, map_of(entries)[path]);
        assert(ledger[entries[i].0] == entries[i].1);
    }
    assert(map_of(entries) =~= ledger);
}

/// What was found where the ledger is kept.
#[derive(Debug)]
pub enum LedgerFile {
    /// There is no file.
    Missing,
    /// The file holds these (path, hash) pairs.
    Parsed(Vec<(String, String)>),
    /// The file is there, but no ledger could be read from it; the text says
    /// why.
    Malformed(String),
}

/// The ledger file is there but does not hold a ledger.
#[derive(Debug)]
pub struct LoadError {
    /// Why the file was not accepted.
    pub message: String,
}

/// The paths of `entries`, each once, in the order in which they first occur.
pub open spec fn first_paths(entries: Seq<(Seq<char>, Seq<char>)>) -> Seq<Seq<char>>
    decreases entries.len(),
{
    if entries.len() == 0 {
        Seq::<Seq<char>>::empty()
    } else {
        let before = first_paths(entries.drop_last());
        if map_of(entries.drop_last()).contains_key(entries.last().0) {
            before
        } else {
            before.push(entries.last().0)
        }
    }
}

/// The ledger: for each source file that has been backed up, the hash of its
/// content. There is at most one entry per path.
pub struct HashRegistry {
    hashes: StringHashMap<String>,
    order: Vec<String>,
}

impl View for HashRegistry {
    type V = Map<Seq<char>, Seq<char>>;

    closed spec fn view(&self) -> Map<Seq<char>, Seq<char>> {
        self.hashes@.map_values(|hash: String| hash@)
    }
}

impl HashRegistry {
    /// The paths that have an entry, in the order in which they were first
    /// recorded.
    pub closed spec fn paths(&self) -> Seq<Seq<char>> {
        views(self.order@)
    }

    #[verifier::type_invariant]
    spec fn listed_once(self) -> bool {
        &&& views(self.order@).no_duplicates()
        &&& views(self.order@).to_set() == self.hashes@.dom()
    }

    /// The empty ledger.
    pub fn new() -> (registry: Self)
        ensures
            registry@ == Map::<Seq<char>, Seq<char>>::empty(),
            registry.paths() == Seq::<Seq<char>>::empty(),
    {
        let hashes: StringHashMap<String> = StringHashMap::new();
        let order: Vec<String> = Vec::new();
        assert(views(order@).to_set() =~= hashes@.dom());
        let registry = HashRegistry { hashes, order };
        assert(registry@ =~= Map::<Seq<char>, Seq<char>>::empty());
        assert(registry.paths() =~= Seq::<Seq<char>>::empty());
        registry
    }

    /// Whether `path` has an entry.
    pub fn has_hash(&self, path: &str) -> (found: bool)
        ensures
            found == self@.contains_key(path@),
    {
        self.hashes.contains_key(path)
    }

    /// The hash recorded for `path`.
    pub fn get_hash(&self, path: &str) -> (hash: Option<String>)
        ensures
            match hash {
                Some(h) => self@.contains_key(path@) && self@[path@] == h@,
                None => !self@.contains_key(path@),
            },
    {
        match self.hashes.get(path) {
            Some(h) => Some(h.clone()),
            None => None,
        }
    }

    /// Records `hash` for `path`, in place of what was recorded for it before.
    pub fn set_hash(&mut self, path: String, hash: String)
        ensures
            final(self)@ == old(self)@.insert(path@, hash@),
            final(self).paths() == if old(self)@.contains_key(path@) {
                old(self).paths()
            } else {
                old(self).paths().push(path@)
            },
    {
        let mut taken = HashRegistry::new();
        core::mem::swap(self, &mut taken);
        proof {
            use_type_invariant(&taken);
        }
        let HashRegistry { mut hashes, mut order } = taken;
        let ghost before = hashes@;
        if !hashes.contains_key(path.as_str()) {
            let key = path.clone();
            proof {
                lemma_views_push(order@, key);
                lemma_push_to_set(views(order@), key@);
            }
            order.push(key);
        }
        hashes.insert(path, hash);
        proof {
            assert(views(order@).to_set() =~= hashes@.dom());
            assert(hashes@.map_values(|h: String| h@) =~= before.map_values(|h: String| h@).insert(
                path@,
                hash@,
            ));
        }
        *self = HashRegistry { hashes, order };
    }

    /// The number of entries.
    pub fn len(&self) -> (count: usize)
        ensures
            count == self@.len(),
            self@.dom().finite(),
    {
        proof {
            use_type_invariant(self);
            views(self.order@).unique_seq_to_set();
            assert(self@.dom() =~= self.hashes@.dom());
        }
        self.order.len()
    }

    /// The ledger that the given (path, hash) pairs stand for.
    pub fn from_entries(entries: Vec<(String, String)>) -> (registry: Self)
        ensures
            registry@ == map_of(entry_views(entries@)),
            registry.paths() == first_paths(entry_views(entries@)),
    {
        let mut registry = HashRegistry::new();
        let n = entries.len();
        let mut i: usize = 0;
        assert(entry_views(entries@).take(0) =~= Seq::<(Seq<char>, Seq<char>)>::empty());
        while i < n
            invariant
                i <= n,
                n == entries@.len(),
                registry@ == map_of(entry_views(entries@).take(i as int)),
                registry.paths() == first_paths(entry_views(entries@).take(i as int)),
            decreases n - i,
        {
            let path = entries[i].0.clone();
            let hash = entries[i].1.clone();
            proof {
                let grown = entry_views(entries@).take(i + 1);
                assert(grown.drop_last() =~= entry_views(entries@).take(i as int));
                assert(grown.last() == (path@, hash@));
            }
            registry.set_hash(path, hash);
            i = i + 1;
        }
        proof {
            assert(entry_views(entries@).take(n as int) =~= entry_views(entries@));
        }
        registry
    }

    /// Every entry once, in the order in which the paths were first recorded.
    pub fn entries(&self) -> (entries: Vec<(String, String)>)
        ensures
            entry_paths(entry_views(entries@)) == self.paths(),
            entry_paths(entry_views(entries@)).no_duplicates(),
            map_of(entry_views(entries@)) == self@,
            entries@.len() == self@.len(),
    {
        proof {
            use_type_invariant(self);
            views(self.order@).unique_seq_to_set();
            assert(self@.dom() =~= self.hashes@.dom());
        }
        let n = self.order.len();
        let mut entries: Vec<(String, String)> = Vec::new();
        let mut i: usize = 0;
        assert(entry_paths(entry_views(entries@)) =~= views(self.order@).take(0));
        while i < n
            invariant
                i <= n,
                n == self.order@.len(),
                views(self.order@).to_set() == self.hashes@.dom(),
                entries@.len() == i,
                entry_paths(entry_views(entries@)) == views(self.order@).take(i as int),
                forall|j: int|
                    0 <= j < i ==> self@[(#[trigger] entry_views(entries@)[j]).0] == entry_views(
                        entries@,
                    )[j].1,
            decreases n - i,
        {
            let path = self.order[i].clone();
            proof {
                assert(views(self.order@)[i as int] == path@);
                assert(views(self.order@).to_set().contains(path@));
            }
            match self.hashes.get(path.as_str()) {
                Some(found) => {
                    let hash = found.clone();
                    let ghost before = entry_views(entries@);
                    entries.push((path, hash));
                    proof {
                        assert(entry_views(entries@) =~= before.push((path@, hash@)));
                        assert(entry_paths(entry_views(entries@)) =~= views(self.order@).take(
                            i + 1,
                        ));
                    }
                },
                None => {
                    assert(false);
                },
            }
            i = i + 1;
        }
        proof {
            assert(views(self.order@).take(n as int) =~= views(self.order@));
            lemma_map_of_listing(entry_views(entries@), self@);
        }
        entries
    }

    /// What is to be written where the ledger is kept: every entry once, in
    /// the order in which the paths were first recorded.
    pub fn save_to_file(&self) -> (file: LedgerFile)
        ensures
            file matches LedgerFile::Parsed(entries) && map_of(entry_views(entries@)) == self@
                && entry_paths(entry_views(entries@)) == self.paths() && entry_paths(
                entry_views(entries@),
            ).no_duplicates() && entries@.len() == self@.len(),
    {
        LedgerFile::Parsed(self.entries())
    }

    /// The ledger to start from, by what was found where it is kept: the
    /// empty ledger where there is no file, the file's entries where it holds
    /// a ledger, and an error where it holds something else.
    pub fn load_from_file(found: LedgerFile) -> (loaded: Result<Self, LoadError>)
        ensures
            match found {
                LedgerFile::Missing => loaded matches Ok(registry) && registry@ == Map::<
                    Seq<char>,
                    Seq<char>,
                >::empty() && registry.paths() == Seq::<Seq<char>>::empty(),
                LedgerFile::Parsed(entries) => loaded matches Ok(registry) && registry@ == map_of(
                    entry_views(entries@),
                ) && registry.paths() == first_paths(entry_views(entries@)),
                LedgerFile::Malformed(message) => loaded matches Err(error) && error.message
                    == message,
            },
    {
        match found {
            LedgerFile::Missing => Ok(HashRegistry::new()),
            LedgerFile::Parsed(entries) => Ok(HashRegistry::from_entries(entries)),
            LedgerFile::Malformed(message) => Err(LoadError { message }),
        }
    }
}

impl Default for HashRegistry {
    /// The empty ledger.
    fn default() -> (registry: Self)
        ensures
            registry@ == Map::<Seq<char>, Seq<char>>::empty(),
            registry.paths() == Seq::<Seq<char>>::empty(),
    {
        HashRegistry::new()
    }
}

} // verus!
