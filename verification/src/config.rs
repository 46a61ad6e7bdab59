//! What a backup is configured with, and the filter that decides which paths
//! are left out of it.

use crate::path::{
    body, body_parts, extension, extension_of_name, file_name, lemma_push_to_set, lemma_views_push,
    parent_marker, to_chars, views,
};
use vstd::prelude::*;
use vstd::string::*;

verus! {

/// A set of names, kept in the order in which they were added.
pub struct NameSet {
    names: Vec<String>,
}

impl View for NameSet {
    type V = Set<Seq<char>>;

    open spec fn view(&self) -> Set<Seq<char>> {
        self.names().to_set()
    }
}

impl NameSet {
    /// The names of the set in the order in which they were added.
    pub closed spec fn names(&self) -> Seq<Seq<char>> {
        views(self.names@)
    }

    #[verifier::type_invariant]
    spec fn distinct(self) -> bool {
        views(self.names@).no_duplicates()
    }

    /// The empty set.
    pub fn new() -> (set: Self)
        ensures
            set.names() == Seq::<Seq<char>>::empty(),
            set@ == Set::<Seq<char>>::empty(),
    {
        let set = NameSet { names: Vec::new() };
        assert(set.names() =~= Seq::<Seq<char>>::empty());
        assert(set@ =~= Set::<Seq<char>>::empty());
        set
    }

    /// Whether `name` is in the set.
    pub fn contains(&self, name: &str) -> (found: bool)
        ensures
            found == self@.contains(name@),
    {
        let wanted = name.to_owned();
        let n = self.names.len();
        let mut i: usize = 0;
        while i < n
            invariant
                i <= n,
                n == self.names@.len(),
                wanted@ == name@,
                forall|j: int| 0 <= j < i ==> views(self.names@)[j] != name@,
            decreases n - i,
        {
            if self.names[i] == wanted {
                assert(views(self.names@)[i as int] == name@);
                return true;
            }
            i = i + 1;
        }
        false
    }

    /// Adds `name` behind the names that are there, unless it is one of
    /// them; returns whether it was new to the set.
    pub fn insert(&mut self, name: String) -> (added: bool)
        ensures
            final(self)@ == old(self)@.insert(name@),
            added == !old(self)@.contains(name@),
            final(self).names() == if added {
                old(self).names().push(name@)
            } else {
                old(self).names()
            },
    {
        if self.contains(name.as_str()) {
            assert(self@.insert(name@) =~= self@);
            false
        } else {
            proof {
                use_type_invariant(&*self);
                lemma_views_push(self.names@, name);
                lemma_push_to_set(views(self.names@), name@);
            }
            let mut names: Vec<String> = Vec::new();
            core::mem::swap(&mut self.names, &mut names);
            names.push(name);
            core::mem::swap(&mut self.names, &mut names);
            true
        }
    }

    /// The number of names in the set.
    pub fn len(&self) -> (count: usize)
        ensures
            count == self@.len(),
            self@.finite(),
    {
        proof {
            use_type_invariant(self);
            views(self.names@).unique_seq_to_set();
        }
        self.names.len()
    }

    /// Whether the set holds no name.
    pub fn is_empty(&self) -> (empty: bool)
        ensures
            empty == (self@.len() == 0),
    {
        self.len() == 0
    }

    /// The names of the set, each once, in the order in which they were added.
    pub fn to_vec(&self) -> (names: Vec<String>)
        ensures
            views(names@) == self.names(),
            views(names@).no_duplicates(),
            views(names@).to_set() == self@,
    {
        proof {
            use_type_invariant(self);
        }
        let n = self.names.len();
        let mut names: Vec<String> = Vec::new();
        let mut i: usize = 0;
        while i < n
            invariant
                i <= n,
                n == self.names@.len(),
                views(names@) == views(self.names@).take(i as int),
            decreases n - i,
        {
            let name = self.names[i].clone();
            proof {
                lemma_views_push(names@, name);
                assert(name@ == views(self.names@)[i as int]);
                assert(views(self.names@).take(i as int).push(name@) =~= views(self.names@).take(
                    i + 1,
                ));
            }
            names.push(name);
            i = i + 1;
        }
        proof {
            assert(views(self.names@).take(n as int) =~= views(self.names@));
        }
        names
    }
}

/// Whether a blacklist item names an extension: it begins with a dot.
pub open spec fn names_extension(item: Seq<char>) -> bool {
    item.len() > 0 && item[0] == '.'
}

/// How many dots `item` begins with.
pub open spec fn leading_dots(item: Seq<char>) -> nat
    decreases item.len(),
{
    if item.len() > 0 && item[0] == '.' {
        1 + leading_dots(item.drop_first())
    } else {
        0
    }
}

/// `leading_dots` counts the dots before the first other character.
proof fn lemma_leading_dots(item: Seq<char>, dots: int)
    requires
        0 <= dots <= item.len(),
        forall|j: int| 0 <= j < dots ==> item[j] == '.',
        dots < item.len() ==> item[dots] != '.',
    ensures
        leading_dots(item) == dots,
    decreases item.len(),
{
    if dots > 0 {
        lemma_leading_dots(item.drop_first(), dots - 1);
    }
}

/// What a backup is configured with. The three paths are optional here; a
/// backup asks for the first two when it starts.
pub struct Config {
    /// Names of directories and files that are left out, wherever they occur.
    pub blacklist_dirs: NameSet,
    /// Extensions of files that are left out, without the leading dot.
    pub blacklist_extensions: NameSet,
    /// The root of the tree to back up.
    pub source_path: Option<String>,
    /// The root of the tree of artifacts.
    pub destination_path: Option<String>,
    /// Where the ledger is kept between runs.
    pub hash_file_path: Option<String>,
}

/// The directory and file names that a default configuration leaves out.
pub open spec fn default_blacklist_dirs() -> Set<Seq<char>> {
    set!["node_modules"@, "target"@, "dist"@, ".git"@]
}

/// The extensions that a default configuration leaves out.
pub open spec fn default_blacklist_extensions() -> Set<Seq<char>> {
    set!["exe"@, "dll"@, "obj"@]
}

impl Default for Config {
    /// The default blacklists and no paths.
    fn default() -> (config: Self)
        ensures
            config.blacklist_dirs@ == default_blacklist_dirs(),
            config.blacklist_extensions@ == default_blacklist_extensions(),
            config.source_path is None,
            config.destination_path is None,
            config.hash_file_path is None,
    {
        let mut blacklist_dirs = NameSet::new();
        blacklist_dirs.insert("node_modules".to_owned());
        blacklist_dirs.insert("target".to_owned());
        blacklist_dirs.insert("dist".to_owned());
        blacklist_dirs.insert(".git".to_owned());
        let mut blacklist_extensions = NameSet::new();
        blacklist_extensions.insert("exe".to_owned());
        blacklist_extensions.insert("dll".to_owned());
        blacklist_extensions.insert("obj".to_owned());
        assert(blacklist_dirs@ =~= default_blacklist_dirs());
        assert(blacklist_extensions@ =~= default_blacklist_extensions());
        Config {
            blacklist_dirs,
            blacklist_extensions,
            source_path: None,
            destination_path: None,
            hash_file_path: None,
        }
    }
}

impl Config {
    /// Whether one of the components of `path` before the last is a name on
    /// the directory blacklist.
    pub open spec fn excludes_ancestor(&self, path: Seq<char>) -> bool {
        exists|i: int|
            0 <= i < body(path).len() - 1 && body(path)[i] != parent_marker()
                && self.blacklist_dirs@.contains(#[trigger] body(path)[i])
    }

    /// Whether `path` is left out of the backup: its file name or the name of
    /// one of its ancestors is on the directory blacklist, or its extension is
    /// on the extension blacklist.
    pub open spec fn excludes(&self, path: Seq<char>) -> bool {
        ||| file_name(path) matches Some(name) && self.blacklist_dirs@.contains(name)
        ||| extension(path) matches Some(ext) && self.blacklist_extensions@.contains(ext)
        ||| self.excludes_ancestor(path)
    }

    /// Whether `path` is left out of the backup.
    pub fn is_blacklisted(&self, path: &str) -> (excluded: bool)
        ensures
            excluded == self.excludes(path@),
    {
        let parts = body_parts(path);
        let n = parts.len();
        if n == 0 {
            return false;
        }
        let parent = "..".to_owned();
        proof {
            reveal_strlit("..");
            assert(".."@ =~= parent_marker());
        }
        let mut i: usize = 0;
        while i < n - 1
            invariant
                0 < n == parts@.len(),
                i <= n - 1,
                views(parts@) == body(path@),
                parent@ == parent_marker(),
                forall|j: int|
                    0 <= j < i ==> !(body(path@)[j] != parent_marker()
                        && self.blacklist_dirs@.contains(#[trigger] body(path@)[j])),
            decreases n - i,
        {
            assert(parts@[i as int]@ == body(path@)[i as int]);
            if parts[i] != parent && self.blacklist_dirs.contains(parts[i].as_str()) {
                return true;
            }
            i = i + 1;
        }
        assert(parts@[n - 1]@ == body(path@).last());
        if parts[n - 1] == parent {
            return false;
        }
        if self.blacklist_dirs.contains(parts[n - 1].as_str()) {
            return true;
        }
        match extension_of_name(parts[n - 1].as_str()) {
            Some(ext) => self.blacklist_extensions.contains(ext.as_str()),
            None => false,
        }
    }

    /// Puts one item on a blacklist: an item that begins with a dot names an
    /// extension, which is what follows its leading dots; any other item names
    /// a directory or file.
    pub fn add_blacklist_item(&mut self, item: &str)
        ensures
            final(self).source_path == old(self).source_path,
            final(self).destination_path == old(self).destination_path,
            final(self).hash_file_path == old(self).hash_file_path,
            names_extension(item@) ==> final(self).blacklist_dirs@ == old(self).blacklist_dirs@
                && final(self).blacklist_extensions@ == old(self).blacklist_extensions@.insert(
                item@.skip(leading_dots(item@) as int),
            ),
            !names_extension(item@) ==> final(self).blacklist_extensions@ == old(
                self,
            ).blacklist_extensions@ && final(self).blacklist_dirs@ == old(
                self,
            ).blacklist_dirs@.insert(item@),
    {
        let chars = to_chars(item);
        let n = chars.len();
        let mut dots: usize = 0;
        while dots < n && chars[dots] == '.'
            invariant
                dots <= n,
                n == chars@.len(),
                chars@ == item@,
                forall|j: int| 0 <= j < dots ==> item@[j] == '.',
            decreases n - dots,
        {
            dots = dots + 1;
        }
        proof {
            lemma_leading_dots(item@, dots as int);
        }
        if dots > 0 {
            self.blacklist_extensions.insert(item.substring_char(dots, n).to_owned());
        } else {
            self.blacklist_dirs.insert(item.to_owned());
        }
    }
}

} // verus!
