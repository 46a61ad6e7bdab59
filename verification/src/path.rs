//! A lexical model of Unix paths over strings.
//!
//! A path is read as a sequence of components separated by `/`. Empty segments
//! and `.` segments are skipped, a leading `/` is the root, a leading `.` the
//! current directory, and `..` is kept as it stands: nothing is resolved
//! against a file system. Paths are compared by their components; what is cut
//! out of a path or built from one keeps the characters as they were written.

use vstd::prelude::*;
use vstd::string::*;

verus! {

/// The component that stands for the root directory.
pub open spec fn root_marker() -> Seq<char> {
    seq!['/']
}

/// The component that stands for the current directory.
pub open spec fn cur_dir_marker() -> Seq<char> {
    seq!['.']
}

/// The component that stands for the parent directory.
pub open spec fn parent_marker() -> Seq<char> {
    seq!['.', '.']
}

/// The pieces of `path` between its separators; there is always at least one.
pub open spec fn segments(path: Seq<char>) -> Seq<Seq<char>>
    decreases path.len(),
{
    if path.len() == 0 {
        seq![Seq::<char>::empty()]
    } else {
        let before = segments(path.drop_last());
        if path.last() == '/' {
            before.push(Seq::<char>::empty())
        } else {
            before.drop_last().push(before.last().push(path.last()))
        }
    }
}

/// A segment that names nothing: the empty one and `.`.
pub open spec fn is_blank(segment: Seq<char>) -> bool {
    segment.len() == 0 || segment == cur_dir_marker()
}

/// `segments` without the blank ones, in order.
pub open spec fn without_blanks(segments: Seq<Seq<char>>) -> Seq<Seq<char>>
    decreases segments.len(),
{
    if segments.len() == 0 {
        Seq::<Seq<char>>::empty()
    } else {
        let before = without_blanks(segments.drop_last());
        if is_blank(segments.last()) {
            before
        } else {
            before.push(segments.last())
        }
    }
}

/// The names and `..` entries of `path`, in order.
pub open spec fn body(path: Seq<char>) -> Seq<Seq<char>> {
    without_blanks(segments(path))
}

/// Whether `path` begins at the root directory.
pub open spec fn has_root(path: Seq<char>) -> bool {
    path.len() > 0 && path[0] == '/'
}

/// Whether `path` begins with a `.` segment and so starts in the current
/// directory.
pub open spec fn starts_in_cur_dir(path: Seq<char>) -> bool {
    path.len() > 0 && path[0] == '.' && (path.len() == 1 || path[1] == '/')
}

/// What `path` starts from: the root, the current directory, or nothing.
pub open spec fn anchor(path: Seq<char>) -> Seq<Seq<char>> {
    if has_root(path) {
        seq![root_marker()]
    } else if starts_in_cur_dir(path) {
        seq![cur_dir_marker()]
    } else {
        Seq::<Seq<char>>::empty()
    }
}

/// The components of `path`: its anchor, then its names and `..` entries.
pub open spec fn components(path: Seq<char>) -> Seq<Seq<char>> {
    anchor(path) + body(path)
}

/// The views of a vector of strings.
pub open spec fn views(strings: Seq<String>) -> Seq<Seq<char>> {
    strings.map_values(|s: String| s@)
}

/// The characters of a string, in order.
pub fn to_chars(text: &str) -> (chars: Vec<char>)
    ensures
        chars@ == text@,
{
    let mut chars: Vec<char> = Vec::new();
    for c in it: text.chars()
        invariant
            chars@ == it.seq().take(it.index() as int),
            it.seq() == text@,
    {
        chars.push(c);
    }
    chars
}

/// `segments` always holds at least one piece.
pub proof fn lemma_segments_nonempty(path: Seq<char>)
    ensures
        segments(path).len() >= 1,
    decreases path.len(),
{
    if path.len() > 0 {
        lemma_segments_nonempty(path.drop_last());
    }
}

/// How `segments` grows when one character is added to the path.
pub proof fn lemma_segments_push(path: Seq<char>, c: char)
    ensures
        segments(path).len() >= 1,
        c == '/' ==> segments(path.push(c)) == segments(path).push(Seq::<char>::empty()),
        c != '/' ==> segments(path.push(c)) == segments(path).drop_last().push(
            segments(path).last().push(c),
        ),
{
    lemma_segments_nonempty(path);
    assert(path.push(c).drop_last() =~= path);
}

/// How `without_blanks` grows when one segment is added.
pub proof fn lemma_without_blanks_push(segments: Seq<Seq<char>>, segment: Seq<char>)
    ensures
        without_blanks(segments.push(segment)) == if is_blank(segment) {
            without_blanks(segments)
        } else {
            without_blanks(segments).push(segment)
        },
{
    assert(segments.push(segment).drop_last() =~= segments);
}

/// The views of a sequence grown by one string.
pub proof fn lemma_views_push(strings: Seq<String>, last: String)
    ensures
        views(strings.push(last)) == views(strings).push(last@),
{
    assert(views(strings.push(last)) =~= views(strings).push(last@));
}

/// The set of a sequence grown by one element.
pub proof fn lemma_push_to_set<A>(items: Seq<A>, last: A)
    ensures
        items.push(last).to_set() == items.to_set().insert(last),
{
    let grown = items.push(last);
    assert forall|x: A| grown.to_set().contains(x) <==> items.to_set().insert(last).contains(
        x,
    ) by {
        if grown.contains(x) {
            let j = choose|j: int| 0 <= j < grown.len() && grown[j] == x;
            if j < items.len() {
                assert(items[j] == x);
            }
        }
        if items.contains(x) {
            let j = choose|j: int| 0 <= j < items.len() && items[j] == x;
            assert(grown[j] == x);
        }
        if x == last {
            assert(grown[items.len() as int] == x);
        }
    }
    assert(grown.to_set() =~= items.to_set().insert(last));
}

/// A piece of a path is blank exactly when it is empty or the single
/// character `.`.
proof fn lemma_blank_piece(path: Seq<char>, start: int, end: int)
    requires
        0 <= start <= end <= path.len(),
    ensures
        is_blank(path.subrange(start, end)) <==> (start == end || (start + 1 == end
            && path[start] == '.')),
{
    let piece = path.subrange(start, end);
    assert(cur_dir_marker().len() == 1 && cur_dir_marker()[0] == '.');
    if start + 1 == end && path[start] == '.' {
        assert(piece =~= cur_dir_marker());
    }
    if piece == cur_dir_marker() {
        assert(piece[0] == path[start]);
    }
}

/// The names and `..` entries of `path`, in order.
pub fn body_parts(path: &str) -> (parts: Vec<String>)
    ensures
        views(parts@) == body(path@),
{
    let chars = to_chars(path);
    let n = chars.len();
    let mut parts: Vec<String> = Vec::new();
    assert(views(parts@) =~= Seq::<Seq<char>>::empty());
    assert(path@.take(0) =~= Seq::<char>::empty());
    assert(segments(path@.take(0)).drop_last() =~= Seq::<Seq<char>>::empty());
    assert(path@.subrange(0, 0) =~= Seq::<char>::empty());
    let mut start: usize = 0;
    let mut i: usize = 0;
    while i < n
        invariant
            n == chars@.len(),
            chars@ == path@,
            start <= i <= n,
            segments(path@.take(i as int)).len() >= 1,
            segments(path@.take(i as int)).last() == path@.subrange(start as int, i as int),
            views(parts@) == without_blanks(segments(path@.take(i as int)).drop_last()),
        decreases n - i,
    {
        let ghost before = segments(path@.take(i as int));
        proof {
            assert(path@.take(i + 1) =~= path@.take(i as int).push(path@[i as int]));
            lemma_segments_push(path@.take(i as int), path@[i as int]);
            lemma_segments_nonempty(path@.take(i + 1));
        }
        if chars[i] == '/' {
            let blank = start == i || (start + 1 == i && chars[start] == '.');
            proof {
                lemma_blank_piece(path@, start as int, i as int);
                assert(before.push(Seq::<char>::empty()).drop_last() =~= before);
                assert(before.drop_last().push(before.last()) =~= before);
                lemma_without_blanks_push(before.drop_last(), before.last());
                assert(path@.subrange(i + 1, i + 1) =~= Seq::<char>::empty());
            }
            if !blank {
                let piece = path.substring_char(start, i).to_owned();
                proof {
                    lemma_views_push(parts@, piece);
                }
                parts.push(piece);
            }
            start = i + 1;
        } else {
            proof {
                let grown = before.drop_last().push(before.last().push(path@[i as int]));
                assert(grown.drop_last() =~= before.drop_last());
                assert(path@.subrange(start as int, i + 1) =~= before.last().push(
                    path@[i as int],
                ));
            }
        }
        i = i + 1;
    }
    let ghost all = segments(path@);
    let blank = start == n || (start + 1 == n && chars[start] == '.');
    proof {
        assert(path@.take(n as int) =~= path@);
        lemma_blank_piece(path@, start as int, n as int);
        assert(all.drop_last().push(all.last()) =~= all);
        lemma_without_blanks_push(all.drop_last(), all.last());
    }
    if !blank {
        let piece = path.substring_char(start, n).to_owned();
        proof {
            lemma_views_push(parts@, piece);
        }
        parts.push(piece);
    }
    parts
}

/// Splits `path` into its components.
pub fn split_components(path: &str) -> (parts: Vec<String>)
    ensures
        views(parts@) == components(path@),
{
    let chars = to_chars(path);
    let n = chars.len();
    let mut parts: Vec<String> = Vec::new();
    if n > 0 && chars[0] == '/' {
        parts.push("/".to_owned());
        proof {
            reveal_strlit("/");
            assert("/"@ =~= root_marker());
        }
    } else if n > 0 && chars[0] == '.' && (n == 1 || chars[1] == '/') {
        parts.push(".".to_owned());
        proof {
            reveal_strlit(".");
            assert("."@ =~= cur_dir_marker());
        }
    }
    assert(views(parts@) =~= anchor(path@));
    let mut rest = body_parts(path);
    let ghost anchor_parts = parts@;
    let ghost rest_parts = rest@;
    parts.append(&mut rest);
    proof {
        assert(views(anchor_parts + rest_parts) =~= views(anchor_parts) + views(rest_parts));
    }
    parts
}

/// The final component of `path` when it is a name: not `..`, and not the
/// anchor alone.
pub open spec fn file_name(path: Seq<char>) -> Option<Seq<char>> {
    let names = body(path);
    if names.len() > 0 && names.last() != parent_marker() {
        Some(names.last())
    } else {
        None
    }
}

/// The index of the last `.` in `name`, or -1 where it has none.
pub open spec fn last_dot(name: Seq<char>) -> int
    decreases name.len(),
{
    if name.len() == 0 {
        -1
    } else if name.last() == '.' {
        name.len() - 1
    } else {
        last_dot(name.drop_last())
    }
}

/// Whether `name` splits into a stem and an extension: it has a `.` that is
/// not its first character, and it is not `..`.
pub open spec fn has_extension(name: Seq<char>) -> bool {
    last_dot(name) > 0 && name != parent_marker()
}

/// What follows the last `.` of `name`, where `name` has an extension.
pub open spec fn extension_of(name: Seq<char>) -> Option<Seq<char>> {
    if has_extension(name) {
        Some(name.skip(last_dot(name) + 1))
    } else {
        None
    }
}

/// `name` without its extension and the `.` before it.
pub open spec fn stem_of(name: Seq<char>) -> Seq<char> {
    if has_extension(name) {
        name.take(last_dot(name))
    } else {
        name
    }
}

/// The extension of the final component of `path`.
pub open spec fn extension(path: Seq<char>) -> Option<Seq<char>> {
    match file_name(path) {
        Some(name) => extension_of(name),
        None => None,
    }
}

/// `last_dot` is -1 or the index of a `.` in `name`.
proof fn lemma_last_dot_bounds(name: Seq<char>)
    ensures
        -1 <= last_dot(name) < name.len(),
        last_dot(name) >= 0 ==> name[last_dot(name)] == '.',
    decreases name.len(),
{
    if name.len() > 0 && name.last() != '.' {
        lemma_last_dot_bounds(name.drop_last());
    }
}

/// The final component of `path` when it is a name.
pub fn file_name_of(path: &str) -> (name: Option<String>)
    ensures
        match name {
            Some(n) => file_name(path@) == Some(n@),
            None => file_name(path@) is None,
        },
{
    let parts = body_parts(path);
    let n = parts.len();
    if n == 0 {
        return None;
    }
    let last = parts[n - 1].clone();
    assert(views(parts@).last() == last@);
    let parent = "..".to_owned();
    proof {
        reveal_strlit("..");
        assert(".."@ =~= parent_marker());
    }
    if last == parent {
        None
    } else {
        Some(last)
    }
}

/// What follows the last `.` of `name`, where `name` has an extension.
pub fn extension_of_name(name: &str) -> (ext: Option<String>)
    ensures
        match ext {
            Some(e) => extension_of(name@) == Some(e@),
            None => extension_of(name@) is None,
        },
{
    let chars = to_chars(name);
    let n = chars.len();
    let mut i: usize = n;
    proof {
        assert(name@.take(n as int) =~= name@);
    }
    while i > 0 && chars[i - 1] != '.'
        invariant
            i <= n,
            n == chars@.len(),
            chars@ == name@,
            last_dot(name@) == last_dot(name@.take(i as int)),
        decreases i,
    {
        proof {
            assert(name@.take(i as int).drop_last() =~= name@.take(i - 1));
        }
        i = i - 1;
    }
    proof {
        if i > 0 {
            assert(name@.take(i as int).last() == '.');
        }
    }
    let is_parent = n == 2 && chars[0] == '.' && chars[1] == '.';
    proof {
        if is_parent {
            assert(name@ =~= parent_marker());
        }
        if name@ == parent_marker() {
            assert(parent_marker().len() == 2);
            assert(parent_marker()[0] == '.' && parent_marker()[1] == '.');
        }
    }
    if i <= 1 || is_parent {
        None
    } else {
        Some(name.substring_char(i, n).to_owned())
    }
}

/// The extension of the final component of `path`.
pub fn extension_of_path(path: &str) -> (ext: Option<String>)
    ensures
        match ext {
            Some(e) => extension(path@) == Some(e@),
            None => extension(path@) is None,
        },
{
    match file_name_of(path) {
        Some(name) => extension_of_name(name.as_str()),
        None => None,
    }
}

/// `rel` appended to `base`: a rooted `rel` stands alone, otherwise the two
/// are concatenated with exactly one separator where `base` does not end in one.
pub open spec fn join(base: Seq<char>, rel: Seq<char>) -> Seq<char> {
    if has_root(rel) {
        rel
    } else if base.len() == 0 || base.last() == '/' {
        base + rel
    } else {
        base + seq!['/'] + rel
    }
}

/// Appends `rel` to `base`.
pub fn join_paths(base: &str, rel: &str) -> (path: String)
    ensures
        path@ == join(base@, rel@),
{
    let rel_chars = to_chars(rel);
    if rel_chars.len() > 0 && rel_chars[0] == '/' {
        return rel.to_owned();
    }
    let base_chars = to_chars(base);
    let mut path = base.to_owned();
    let k = base_chars.len();
    if k > 0 && base_chars[k - 1] != '/' {
        proof {
            reveal_strlit("/");
            assert("/"@ =~= seq!['/']);
        }
        path.append("/");
    }
    path.append(rel);
    path
}

/// The index at which the separators and `.` segments that begin at `from`
/// end; `from` is where a segment of `path` begins.
pub open spec fn blanks_end(path: Seq<char>, from: int) -> int
    decreases path.len() - from,
{
    if from < 0 || from >= path.len() {
        from
    } else if path[from] == '/' {
        blanks_end(path, from + 1)
    } else if path[from] == '.' && (from + 1 == path.len() || path[from + 1] == '/') {
        blanks_end(path, from + 1)
    } else {
        from
    }
}

/// The index at which the segment of `path` that holds index `from` ends.
pub open spec fn segment_end(path: Seq<char>, from: int) -> int
    decreases path.len() - from,
{
    if from < 0 || from >= path.len() || path[from] == '/' {
        from
    } else {
        segment_end(path, from + 1)
    }
}

/// The index at which the name or `..` entry of `path` with the given number
/// begins, counted from 0; the length of `path` where it has no such entry.
pub open spec fn entry_start(path: Seq<char>, number: nat) -> int
    decreases number,
{
    if number == 0 {
        blanks_end(path, 0)
    } else {
        blanks_end(path, segment_end(path, entry_start(path, (number - 1) as nat)))
    }
}

/// `path` as it is written from its entry with the given number up to the end
/// of its last entry; empty where it has no such entry.
pub open spec fn rest_from(path: Seq<char>, number: nat) -> Seq<char> {
    let start = entry_start(path, number);
    let end = trimmed_len(path) as int;
    if 0 <= start < end {
        path.subrange(start, end)
    } else {
        Seq::<char>::empty()
    }
}

/// `path` cut behind its last entry, or behind its root where it has no entry.
pub open spec fn trimmed(path: Seq<char>) -> Seq<char> {
    if has_root(path) && trimmed_len(path) == 0 {
        path.take(1)
    } else {
        path.take(trimmed_len(path) as int)
    }
}

/// `path` relative to `base`, where `path` starts with all components of
/// `base`: what is written in `path` behind them, from the next name on and
/// cut behind the last. Relative to the empty path, `path` is only cut.
pub open spec fn relative_to(path: Seq<char>, base: Seq<char>) -> Option<Seq<char>> {
    if !components(base).is_prefix_of(components(path)) {
        None
    } else if components(base).len() == 0 {
        Some(trimmed(path))
    } else {
        Some(rest_from(path, body(base).len()))
    }
}

/// The index at which the separators and `.` segments that begin at `from`
/// end.
fn blanks_end_of(chars: &Vec<char>, from: usize) -> (end: usize)
    requires
        from <= chars@.len(),
    ensures
        end == blanks_end(chars@, from as int),
        from <= end <= chars@.len(),
{
    let n = chars.len();
    let mut i = from;
    while i < n && (chars[i] == '/' || (chars[i] == '.' && (i + 1 == n || chars[i + 1] == '/')))
        invariant
            from <= i <= n,
            n == chars@.len(),
            blanks_end(chars@, from as int) == blanks_end(chars@, i as int),
        decreases n - i,
    {
        i = i + 1;
    }
    i
}

/// The index at which the segment that holds index `from` ends.
fn segment_end_of(chars: &Vec<char>, from: usize) -> (end: usize)
    requires
        from <= chars@.len(),
    ensures
        end == segment_end(chars@, from as int),
        from <= end <= chars@.len(),
{
    let n = chars.len();
    let mut i = from;
    while i < n && chars[i] != '/'
        invariant
            from <= i <= n,
            n == chars@.len(),
            segment_end(chars@, from as int) == segment_end(chars@, i as int),
        decreases n - i,
    {
        i = i + 1;
    }
    i
}

/// The index at which the entry with the given number begins.
fn entry_start_of(chars: &Vec<char>, number: usize) -> (start: usize)
    ensures
        start == entry_start(chars@, number as nat),
        start <= chars@.len(),
{
    let mut start = blanks_end_of(chars, 0);
    let mut done: usize = 0;
    while done < number
        invariant
            done <= number,
            start <= chars@.len(),
            start == entry_start(chars@, done as nat),
        decreases number - done,
    {
        let end = segment_end_of(chars, start);
        start = blanks_end_of(chars, end);
        done = done + 1;
    }
    start
}

/// The length without the separators and `.` segments at the end.
fn trimmed_len_of(chars: &Vec<char>) -> (end: usize)
    ensures
        end == trimmed_len(chars@),
        end <= chars@.len(),
{
    let n = chars.len();
    let mut end: usize = n;
    proof {
        assert(chars@.take(n as int) =~= chars@);
    }
    while end > 0 && (chars[end - 1] == '/' || (chars[end - 1] == '.' && end >= 2 && chars[end
        - 2] == '/'))
        invariant
            end <= n,
            n == chars@.len(),
            trimmed_len(chars@) == trimmed_len(chars@.take(end as int)),
        decreases end,
    {
        proof {
            assert(chars@.take(end as int).drop_last() =~= chars@.take(end - 1));
        }
        end = end - 1;
    }
    proof {
        if end > 0 {
            assert(chars@.take(end as int).last() == chars@[end - 1]);
            if end >= 2 {
                assert(chars@.take(end as int)[end - 2] == chars@[end - 2]);
            }
        }
    }
    end
}

/// The part of `path` below `base`, or `None` where `path` is not under `base`.
pub fn strip_prefix(path: &str, base: &str) -> (rel: Option<String>)
    ensures
        match rel {
            Some(r) => relative_to(path@, base@) == Some(r@),
            None => relative_to(path@, base@) is None,
        },
{
    let whole = split_components(path);
    let prefix = split_components(base);
    let k = prefix.len();
    if k > whole.len() {
        return None;
    }
    let mut i: usize = 0;
    while i < k
        invariant
            i <= k,
            k == prefix@.len(),
            k <= whole@.len(),
            views(whole@) == components(path@),
            views(prefix@) == components(base@),
            forall|j: int| 0 <= j < i ==> views(prefix@)[j] == views(whole@)[j],
        decreases k - i,
    {
        if prefix[i] != whole[i] {
            proof {
                assert(views(whole@).subrange(0, k as int)[i as int] != views(prefix@)[i as int]);
            }
            return None;
        }
        i = i + 1;
    }
    proof {
        assert(views(prefix@) =~= views(whole@).subrange(0, k as int));
    }
    let chars = to_chars(path);
    let end = trimmed_len_of(&chars);
    if k == 0 {
        if end == 0 && chars.len() > 0 && chars[0] == '/' {
            return Some(path.substring_char(0, 1).to_owned());
        }
        return Some(path.substring_char(0, end).to_owned());
    }
    let names = body_parts(base);
    let start = entry_start_of(&chars, names.len());
    if start < end {
        Some(path.substring_char(start, end).to_owned())
    } else {
        Some(String::new())
    }
}

/// The suffix that names the codec.
pub open spec fn codec_suffix() -> Seq<char> {
    seq!['z', 's', 't']
}

/// `name` with its extension replaced by `ext`: the stem, a `.`, and `ext`.
pub open spec fn with_extension(name: Seq<char>, ext: Seq<char>) -> Seq<char> {
    if ext.len() == 0 {
        stem_of(name)
    } else {
        stem_of(name) + seq!['.'] + ext
    }
}

/// The extension of the artifact made from a file called `name`: the file's
/// own extension, or nothing where it has none, then `.` and the codec suffix.
pub open spec fn artifact_extension(name: Seq<char>) -> Seq<char> {
    let own = match extension_of(name) {
        Some(e) => e,
        None => Seq::<char>::empty(),
    };
    own + seq!['.'] + codec_suffix()
}

/// The name of the artifact made from a file called `name`.
pub open spec fn artifact_name(name: Seq<char>) -> Seq<char> {
    with_extension(name, artifact_extension(name))
}

/// What the name of an artifact has more than the name of its file: `.zst`
/// behind an extension, `..zst` where there is none.
pub open spec fn artifact_tail(name: Seq<char>) -> Seq<char> {
    artifact_name(name).skip(name.len() as int)
}

/// The length of `path` without the separators and `.` segments that it ends
/// in: where `path` has a file name, that name ends here.
pub open spec fn trimmed_len(path: Seq<char>) -> nat
    decreases path.len(),
{
    if path.len() == 0 {
        0
    } else if path.last() == '/' {
        trimmed_len(path.drop_last())
    } else if path.last() == '.' && path.len() >= 2 && path[path.len() - 2] == '/' {
        trimmed_len(path.drop_last())
    } else {
        path.len()
    }
}

/// `path` with its file name changed to the name of the file's artifact, and
/// cut behind it; a path without a file name is left as it is.
pub open spec fn artifact_path(path: Seq<char>) -> Seq<char> {
    match file_name(path) {
        Some(name) => path.take(trimmed_len(path) as int) + artifact_tail(name),
        None => path,
    }
}

/// The last segment of `path` is what `path` ends in, and it is empty exactly
/// when `path` is empty or ends in a separator.
pub proof fn lemma_last_segment(path: Seq<char>)
    ensures
        segments(path).len() >= 1,
        segments(path).last().len() <= path.len(),
        path.subrange(path.len() - segments(path).last().len(), path.len() as int) == segments(
            path,
        ).last(),
        segments(path).last().len() == 0 <==> path.len() == 0 || path.last() == '/',
    decreases path.len(),
{
    lemma_segments_nonempty(path);
    if path.len() > 0 {
        let before = path.drop_last();
        lemma_last_segment(before);
        let piece = segments(before).last();
        if path.last() == '/' {
            assert(path.subrange(path.len() as int, path.len() as int) =~= Seq::<char>::empty());
        } else {
            assert(segments(path).last() == piece.push(path.last()));
            assert(path.subrange(path.len() - piece.len() - 1, path.len() as int)
                =~= before.subrange(before.len() - piece.len(), before.len() as int).push(
                path.last(),
            ));
        }
    } else {
        assert(path.subrange(0, 0) =~= Seq::<char>::empty());
    }
}

/// Where a path has a file name, the name is what the path ends in once it is
/// cut at `trimmed_len`.
pub proof fn lemma_file_name_ends_trimmed(path: Seq<char>)
    ensures
        trimmed_len(path) <= path.len(),
        file_name(path) matches Some(name) ==> name.len() <= trimmed_len(path) && path.subrange(
            trimmed_len(path) - name.len(),
            trimmed_len(path) as int,
        ) == name,
    decreases path.len(),
{
    if path.len() == 0 {
        let none = Seq::<Seq<char>>::empty();
        lemma_without_blanks_push(none, Seq::<char>::empty());
        assert(segments(path) =~= none.push(Seq::<char>::empty()));
        assert(body(path) =~= none);
    } else {
        let before = path.drop_last();
        let pieces = segments(before);
        let c = path.last();
        lemma_file_name_ends_trimmed(before);
        lemma_last_segment(before);
        lemma_last_segment(path);
        lemma_segments_push(before, c);
        assert(before.push(c) =~= path);
        assert(pieces.drop_last().push(pieces.last()) =~= pieces);
        lemma_without_blanks_push(pieces.drop_last(), pieces.last());
        if c == '/' {
            lemma_without_blanks_push(pieces, Seq::<char>::empty());
            assert(body(path) == body(before));
            if file_name(before) is Some {
                let name = file_name(before)->0;
                let end = trimmed_len(before) as int;
                assert(path.subrange(end - name.len(), end) =~= before.subrange(
                    end - name.len(),
                    end,
                ));
            }
        } else if c == '.' && path.len() >= 2 && path[path.len() - 2] == '/' {
            assert(before.last() == '/');
            assert(pieces.last() =~= Seq::<char>::empty());
            assert(pieces.last().push(c) =~= cur_dir_marker());
            lemma_without_blanks_push(pieces.drop_last(), pieces.last().push(c));
            assert(body(path) == body(before));
            if file_name(before) is Some {
                let name = file_name(before)->0;
                let end = trimmed_len(before) as int;
                assert(path.subrange(end - name.len(), end) =~= before.subrange(
                    end - name.len(),
                    end,
                ));
            }
        } else {
            let piece = pieces.last().push(c);
            lemma_without_blanks_push(pieces.drop_last(), piece);
            assert(cur_dir_marker().len() == 1 && cur_dir_marker()[0] == '.');
            if is_blank(piece) {
                assert(piece[0] == '.');
                assert(pieces.last().len() == 0);
                assert(before.len() == 0);
                assert(pieces.drop_last() =~= Seq::<Seq<char>>::empty());
                assert(body(path) =~= Seq::<Seq<char>>::empty());
            } else {
                assert(body(path).last() == piece);
            }
        }
    }
}

/// An artifact's name is the file's name followed by `.zst` where the file has
/// an extension and by `..zst` where it has none.
pub proof fn lemma_artifact_name(name: Seq<char>)
    ensures
        has_extension(name) ==> artifact_name(name) == name + seq!['.', 'z', 's', 't'],
        !has_extension(name) ==> artifact_name(name) == name + seq!['.', '.', 'z', 's', 't'],
{
    lemma_last_dot_bounds(name);
    if has_extension(name) {
        let i = last_dot(name);
        assert(name.take(i) + seq!['.'] + (name.skip(i + 1) + seq!['.'] + codec_suffix())
            =~= name + seq!['.', 'z', 's', 't']);
    } else {
        assert(name + seq!['.'] + (Seq::<char>::empty() + seq!['.'] + codec_suffix()) =~= name
            + seq!['.', '.', 'z', 's', 't']);
        assert((Seq::<char>::empty() + seq!['.'] + codec_suffix()).len() > 0);
    }
}

/// The path of an artifact is the path of its file with the file's name
/// changed to the artifact's name, and nothing behind it.
pub proof fn lemma_artifact_path_renames(path: Seq<char>)
    ensures
        file_name(path) matches Some(name) ==> name.len() <= trimmed_len(path) <= path.len()
            && artifact_path(path) == path.take(trimmed_len(path) - name.len()) + artifact_name(
            name,
        ),
{
    if file_name(path) is Some {
        let name = file_name(path)->0;
        let end = trimmed_len(path) as int;
        lemma_file_name_ends_trimmed(path);
        lemma_artifact_name(name);
        assert(path.take(end) =~= path.take(end - name.len()) + path.subrange(
            end - name.len(),
            end,
        ));
        assert(artifact_name(name) =~= name + artifact_tail(name));
        assert(path.take(end) + artifact_tail(name) =~= path.take(end - name.len()) + (name
            + artifact_tail(name)));
    }
}

/// The name of the artifact made from a file called `name`.
pub fn artifact_name_of(name: &str) -> (artifact: String)
    ensures
        artifact@ == artifact_name(name@),
{
    let ext = extension_of_name(name);
    let mut artifact = name.to_owned();
    proof {
        lemma_artifact_name(name@);
        reveal_strlit(".zst");
        reveal_strlit("..zst");
        assert(".zst"@ =~= seq!['.', 'z', 's', 't']);
        assert("..zst"@ =~= seq!['.', '.', 'z', 's', 't']);
    }
    if ext.is_some() {
        artifact.append(".zst");
    } else {
        artifact.append("..zst");
    }
    artifact
}

/// `path` with its file name changed to the name of the file's artifact.
pub fn artifact_path_of(path: &str) -> (artifact: String)
    ensures
        artifact@ == artifact_path(path@),
{
    match file_name_of(path) {
        None => path.to_owned(),
        Some(name) => {
            let chars = to_chars(path);
            let end = trimmed_len_of(&chars);
            proof {
                lemma_artifact_name(name@);
                reveal_strlit(".zst");
                reveal_strlit("..zst");
                assert((name@ + seq!['.', 'z', 's', 't']).skip(name@.len() as int) =~= ".zst"@);
                assert((name@ + seq!['.', '.', 'z', 's', 't']).skip(name@.len() as int)
                    =~= "..zst"@);
            }
            let mut artifact = path.substring_char(0, end).to_owned();
            if extension_of_name(name.as_str()).is_some() {
                artifact.append(".zst");
            } else {
                artifact.append("..zst");
            }
            artifact
        },
    }
}

/// Where the artifact of `source_file` is kept: the part of `source_file`
/// below `source_root`, appended to `destination_root`, with the file renamed
/// to its artifact's name. `None` where `source_file` is not under
/// `source_root`.
pub open spec fn destination_of(
    source_file: Seq<char>,
    source_root: Seq<char>,
    destination_root: Seq<char>,
) -> Option<Seq<char>> {
    match relative_to(source_file, source_root) {
        Some(rel) => Some(artifact_path(join(destination_root, rel))),
        None => None,
    }
}

/// Where the artifact of `source_file` is kept.
pub fn destination_path(source_file: &str, source_root: &str, destination_root: &str) -> (dest:
    Option<String>)
    ensures
        match dest {
            Some(d) => destination_of(source_file@, source_root@, destination_root@) == Some(d@),
            None => destination_of(source_file@, source_root@, destination_root@) is None,
        },
{
    match strip_prefix(source_file, source_root) {
        None => None,
        Some(rel) => {
            let whole = join_paths(destination_root, rel.as_str());
            Some(artifact_path_of(whole.as_str()))
        },
    }
}

} // verus!
