//! How the two readings of a path agree: the one by components, which says
//! what a path means, and the one by positions, which says what is cut out of
//! it.

use crate::path::{
    anchor, artifact_name, artifact_path, blanks_end, body, components, cur_dir_marker,
    destination_of, entry_start, file_name, has_root, is_blank, join, lemma_artifact_name,
    lemma_artifact_path_renames, lemma_file_name_ends_trimmed, lemma_last_segment,
    lemma_segments_nonempty, lemma_segments_push, lemma_without_blanks_push, parent_marker,
    relative_to, rest_from, root_marker, segment_end, segments, starts_in_cur_dir, trimmed,
    trimmed_len, without_blanks,
};
use vstd::prelude::*;

verus! {

/// Whether `index` is where a segment of `path` begins.
pub open spec fn segment_starts_at(path: Seq<char>, index: int) -> bool {
    index == 0 || (0 < index <= path.len() && path[index - 1] == '/')
}

/// Whether a name or a `..` entry of `path` begins at `index`.
pub open spec fn entry_starts_at(path: Seq<char>, index: int) -> bool {
    &&& 0 <= index < path.len()
    &&& segment_starts_at(path, index)
    &&& path[index] != '/'
    &&& !(path[index] == '.' && (index + 1 == path.len() || path[index + 1] == '/'))
}

/// The segments of two paths put together with a separator are the segments
/// of the first followed by those of the second.
pub proof fn lemma_segments_concat(first: Seq<char>, second: Seq<char>)
    ensures
        segments(first + seq!['/'] + second) == segments(first) + segments(second),
    decreases second.len(),
{
    let whole = first + seq!['/'] + second;
    lemma_segments_nonempty(first);
    lemma_segments_nonempty(second);
    if second.len() == 0 {
        assert(whole =~= first.push('/'));
        lemma_segments_push(first, '/');
        assert(segments(second) =~= seq![Seq::<char>::empty()]);
        assert(segments(first).push(Seq::<char>::empty()) =~= segments(first) + segments(second));
    } else {
        let shorter = second.drop_last();
        let c = second.last();
        lemma_segments_concat(first, shorter);
        lemma_segments_nonempty(shorter);
        let before = first + seq!['/'] + shorter;
        assert(whole =~= before.push(c));
        assert(second =~= shorter.push(c));
        lemma_segments_push(before, c);
        lemma_segments_push(shorter, c);
        let left = segments(first);
        let right = segments(shorter);
        if c == '/' {
            assert((left + right).push(Seq::<char>::empty()) =~= left + right.push(
                Seq::<char>::empty(),
            ));
        } else {
            assert((left + right).last() == right.last());
            assert((left + right).drop_last() =~= left + right.drop_last());
            assert((left + right.drop_last()).push(right.last().push(c)) =~= left
                + right.drop_last().push(right.last().push(c)));
        }
    }
}

/// Dropping the blank segments of two sequences put together is the same as
/// dropping them from each.
pub proof fn lemma_without_blanks_concat(first: Seq<Seq<char>>, second: Seq<Seq<char>>)
    ensures
        without_blanks(first + second) == without_blanks(first) + without_blanks(second),
    decreases second.len(),
{
    if second.len() == 0 {
        assert(first + second =~= first);
        assert(without_blanks(first) + without_blanks(second) =~= without_blanks(first));
    } else {
        let shorter = second.drop_last();
        lemma_without_blanks_concat(first, shorter);
        assert(first + second =~= (first + shorter).push(second.last()));
        assert(second =~= shorter.push(second.last()));
        lemma_without_blanks_push(first + shorter, second.last());
        lemma_without_blanks_push(shorter, second.last());
        if !is_blank(second.last()) {
            assert((without_blanks(first) + without_blanks(shorter)).push(second.last())
                =~= without_blanks(first) + without_blanks(shorter).push(second.last()));
        }
    }
}

/// The entries of two paths put together with a separator are the entries of
/// the first followed by those of the second.
pub proof fn lemma_body_concat(first: Seq<char>, second: Seq<char>)
    ensures
        body(first + seq!['/'] + second) == body(first) + body(second),
{
    lemma_segments_concat(first, second);
    lemma_without_blanks_concat(segments(first), segments(second));
}

/// A piece without a separator is its own single segment.
pub proof fn lemma_single_segment(piece: Seq<char>)
    requires
        forall|i: int| 0 <= i < piece.len() ==> piece[i] != '/',
    ensures
        segments(piece) == seq![piece],
    decreases piece.len(),
{
    if piece.len() == 0 {
        assert(piece =~= Seq::<char>::empty());
        assert(segments(piece) =~= seq![piece]);
    } else {
        let shorter = piece.drop_last();
        lemma_single_segment(shorter);
        assert(piece =~= shorter.push(piece.last()));
        lemma_segments_push(shorter, piece.last());
        assert(seq![shorter].drop_last().push(shorter.push(piece.last())) =~= seq![piece]);
    }
}

/// The entries of the empty path and of `.`: none.
proof fn lemma_body_of_blank(piece: Seq<char>)
    requires
        is_blank(piece),
    ensures
        body(piece) == Seq::<Seq<char>>::empty(),
{
    assert(cur_dir_marker().len() == 1 && cur_dir_marker()[0] == '.');
    lemma_single_segment(piece);
    let none = Seq::<Seq<char>>::empty();
    assert(seq![piece] =~= none.push(piece));
    lemma_without_blanks_push(none, piece);
}

/// The entries of a single name: the name.
proof fn lemma_body_of_name(piece: Seq<char>)
    requires
        !is_blank(piece),
        forall|i: int| 0 <= i < piece.len() ==> piece[i] != '/',
    ensures
        body(piece) == seq![piece],
{
    lemma_single_segment(piece);
    let none = Seq::<Seq<char>>::empty();
    assert(seq![piece] =~= none.push(piece));
    lemma_without_blanks_push(none, piece);
    assert(none.push(piece) =~= seq![piece]);
}

/// A separator or a `.` segment at the start of a path adds no entry.
proof fn lemma_body_skips_blank_start(path: Seq<char>)
    requires
        path.len() > 0,
        path[0] == '/' || (path[0] == '.' && (path.len() == 1 || path[1] == '/')),
    ensures
        body(path) == body(path.skip(1)),
{
    let none = Seq::<char>::empty();
    lemma_body_of_blank(none);
    if path[0] == '/' {
        assert(path =~= none + seq!['/'] + path.skip(1));
        lemma_body_concat(none, path.skip(1));
        assert(body(none) + body(path.skip(1)) =~= body(path.skip(1)));
    } else if path.len() == 1 {
        assert(path =~= cur_dir_marker());
        lemma_body_of_blank(path);
        assert(path.skip(1) =~= none);
    } else {
        let dot = cur_dir_marker();
        lemma_body_of_blank(dot);
        assert(path =~= dot + seq!['/'] + path.skip(2));
        lemma_body_concat(dot, path.skip(2));
        assert(path.skip(1) =~= none + seq!['/'] + path.skip(2));
        lemma_body_concat(none, path.skip(2));
        assert(body(dot) + body(path.skip(2)) =~= body(path.skip(2)));
        assert(body(none) + body(path.skip(2)) =~= body(path.skip(2)));
    }
}

/// Skipping separators and `.` segments loses no entry, and stops at the end
/// of the path or where an entry begins.
pub proof fn lemma_blanks_end(path: Seq<char>, from: int)
    requires
        0 <= from <= path.len(),
        segment_starts_at(path, from) || from == path.len() || path[from] == '/',
    ensures
        from <= blanks_end(path, from) <= path.len(),
        body(path.skip(blanks_end(path, from))) == body(path.skip(from)),
        blanks_end(path, from) == path.len() || entry_starts_at(path, blanks_end(path, from)),
    decreases path.len() - from,
{
    if from < path.len() {
        let rest = path.skip(from);
        if path[from] == '/' || (path[from] == '.' && (from + 1 == path.len() || path[from + 1]
            == '/')) {
            assert(rest[0] == path[from]);
            if rest.len() > 1 {
                assert(rest[1] == path[from + 1]);
            }
            lemma_body_skips_blank_start(rest);
            assert(rest.skip(1) =~= path.skip(from + 1));
            lemma_blanks_end(path, from + 1);
        }
    }
}

/// What `segment_end` finds: the end of the path or the next separator, with
/// no separator before it.
proof fn lemma_segment_end_bounds(path: Seq<char>, from: int)
    requires
        0 <= from <= path.len(),
    ensures
        from <= segment_end(path, from) <= path.len(),
        segment_end(path, from) == path.len() || path[segment_end(path, from)] == '/',
        forall|i: int| from <= i < segment_end(path, from) ==> path[i] != '/',
    decreases path.len() - from,
{
    if from < path.len() && path[from] != '/' {
        lemma_segment_end_bounds(path, from + 1);
    }
}

/// Where an entry begins, the entries from there on are that entry, which
/// reaches to the end of its segment, and the entries behind it.
pub proof fn lemma_entry_then_rest(path: Seq<char>, from: int)
    requires
        entry_starts_at(path, from),
    ensures
        from < segment_end(path, from) <= path.len(),
        segment_end(path, from) == path.len() || path[segment_end(path, from)] == '/',
        body(path.skip(from)) == seq![path.subrange(from, segment_end(path, from))] + body(
            path.skip(segment_end(path, from)),
        ),
{
    lemma_segment_end_bounds(path, from);
    let end = segment_end(path, from);
    assert(end > from) by {
        lemma_segment_end_bounds(path, from + 1);
    }
    let piece = path.subrange(from, end);
    assert(cur_dir_marker().len() == 1 && cur_dir_marker()[0] == '.');
    assert(!is_blank(piece)) by {
        if piece == cur_dir_marker() {
            assert(piece[0] == path[from]);
            assert(end == from + 1);
        }
    }
    assert forall|i: int| 0 <= i < piece.len() implies piece[i] != '/' by {
        assert(piece[i] == path[from + i]);
    }
    lemma_body_of_name(piece);
    let none = Seq::<char>::empty();
    if end == path.len() {
        assert(path.skip(from) =~= piece);
        assert(path.skip(end) =~= none);
        lemma_body_of_blank(none);
        assert(seq![piece] + body(none) =~= seq![piece]);
    } else {
        let behind = path.skip(end + 1);
        assert(path.skip(from) =~= piece + seq!['/'] + behind);
        lemma_body_concat(piece, behind);
        assert(path.skip(end) =~= none + seq!['/'] + behind);
        lemma_body_concat(none, behind);
        lemma_body_of_blank(none);
        assert(body(none) + body(behind) =~= body(behind));
    }
}

/// The entry of `path` with the given number begins at `entry_start`, and the
/// entries from there on are those from that number on.
pub proof fn lemma_entry_start(path: Seq<char>, number: nat)
    requires
        number <= body(path).len(),
    ensures
        0 <= entry_start(path, number) <= path.len(),
        body(path.skip(entry_start(path, number))) == body(path).skip(number as int),
        entry_start(path, number) == path.len() || entry_starts_at(
            path,
            entry_start(path, number),
        ),
        number < body(path).len() ==> entry_starts_at(path, entry_start(path, number)),
    decreases number,
{
    let none = Seq::<char>::empty();
    lemma_body_of_blank(none);
    if number == 0 {
        lemma_blanks_end(path, 0);
        assert(path.skip(0) =~= path);
        assert(body(path).skip(0) =~= body(path));
    } else {
        let fewer = (number - 1) as nat;
        lemma_entry_start(path, fewer);
        let from = entry_start(path, fewer);
        lemma_entry_then_rest(path, from);
        let end = segment_end(path, from);
        assert(body(path.skip(end)) =~= body(path).skip(number as int)) by {
            let entries = body(path.skip(from));
            assert(entries.skip(1) =~= body(path.skip(end)));
            assert(body(path).skip(fewer as int).skip(1) =~= body(path).skip(number as int));
        }
        lemma_blanks_end(path, end);
    }
    let start = entry_start(path, number);
    if start == path.len() {
        assert(path.skip(start) =~= none);
    }
}

/// A path is cut at `trimmed_len` in front of a separator, unless nothing is
/// cut off, and what is cut off holds no entry.
pub proof fn lemma_trimmed_off(path: Seq<char>)
    ensures
        trimmed_len(path) <= path.len(),
        trimmed_len(path) == path.len() || path[trimmed_len(path) as int] == '/',
        body(path.skip(trimmed_len(path) as int)) == Seq::<Seq<char>>::empty(),
    decreases path.len(),
{
    let none = Seq::<char>::empty();
    lemma_body_of_blank(none);
    let end = trimmed_len(path) as int;
    if path.len() == 0 {
        assert(path.skip(0) =~= none);
    } else {
        let before = path.drop_last();
        lemma_trimmed_off(before);
        if path.last() == '/' || (path.last() == '.' && path.len() >= 2 && path[path.len() - 2]
            == '/') {
            assert(end == trimmed_len(before));
            assert(end < before.len() ==> path[end] == before[end]);
            if end == before.len() && path.last() != '/' {
                assert(before.last() == '/');
                lemma_trimmed_off(before.drop_last());
            }
            let off = before.skip(end);
            assert(path.skip(end) =~= off.push(path.last()));
            lemma_segments_push(off, path.last());
            lemma_last_segment(off);
            let pieces = segments(off);
            assert(pieces.drop_last().push(pieces.last()) =~= pieces);
            lemma_without_blanks_push(pieces.drop_last(), pieces.last());
            if path.last() == '/' {
                lemma_without_blanks_push(pieces, none);
            } else {
                assert(before.last() == '/');
                assert(end < before.len());
                assert(off.last() == '/');
                assert(pieces.last() =~= none);
                assert(pieces.last().push('.') =~= cur_dir_marker());
                lemma_without_blanks_push(pieces.drop_last(), pieces.last().push('.'));
            }
        } else {
            assert(path.skip(end) =~= none);
        }
    }
}

/// What `rest_from` cuts out of a path holds exactly the entries from the
/// given number on, and starts from neither the root nor the current
/// directory.
pub proof fn lemma_rest_has_remaining_entries(path: Seq<char>, number: nat)
    requires
        number <= body(path).len(),
    ensures
        body(rest_from(path, number)) == body(path).skip(number as int),
        anchor(rest_from(path, number)) == Seq::<Seq<char>>::empty(),
        components(rest_from(path, number)) == body(path).skip(number as int),
{
    let none = Seq::<char>::empty();
    lemma_body_of_blank(none);
    lemma_entry_start(path, number);
    lemma_trimmed_off(path);
    let start = entry_start(path, number);
    let end = trimmed_len(path) as int;
    let rest = rest_from(path, number);
    let off = path.skip(end);
    if start < end {
        assert(entry_starts_at(path, start));
        assert(rest == path.subrange(start, end));
        assert(rest[0] == path[start]);
        if end == path.len() {
            assert(path.skip(start) =~= rest);
        } else {
            let behind = path.skip(end + 1);
            assert(path.skip(start) =~= rest + seq!['/'] + behind);
            lemma_body_concat(rest, behind);
            assert(off =~= none + seq!['/'] + behind);
            lemma_body_concat(none, behind);
            assert(body(none) + body(behind) =~= body(behind));
            assert(body(rest) + body(behind) =~= body(rest));
        }
        if rest.len() > 1 {
            assert(rest[1] == path[start + 1]);
        }
        assert(!has_root(rest));
        assert(!starts_in_cur_dir(rest)) by {
            if rest[0] == '.' && rest.len() == 1 {
                assert(end == start + 1);
            }
        }
    } else {
        assert(rest == none);
        if start < path.len() {
            // an entry would begin in what is cut off, which holds none
            assert(entry_starts_at(path, start));
            assert(start > end) by {
                if start == end {
                    assert(path[end] == '/');
                }
            }
            lemma_entry_then_rest(path, start);
            let cut = path.subrange(end, start - 1);
            assert(off =~= cut + seq!['/'] + path.skip(start));
            lemma_body_concat(cut, path.skip(start));
            assert((body(cut) + body(path.skip(start))).len() > 0);
        }
        assert(path.skip(start) =~= none || body(path.skip(start)).len() == 0);
        assert(body(path).skip(number as int) =~= Seq::<Seq<char>>::empty());
    }
    assert(components(rest) =~= body(rest));
}

/// No segment holds a separator.
pub proof fn lemma_segments_hold_no_separator(path: Seq<char>, index: int, at: int)
    requires
        0 <= index < segments(path).len(),
        0 <= at < segments(path)[index].len(),
    ensures
        segments(path)[index][at] != '/',
    decreases path.len(),
{
    if path.len() > 0 {
        let before = path.drop_last();
        lemma_segments_nonempty(before);
        if path.last() == '/' {
            if index < segments(before).len() {
                lemma_segments_hold_no_separator(before, index, at);
            }
        } else {
            if index < segments(before).len() - 1 {
                lemma_segments_hold_no_separator(before, index, at);
            } else if at < segments(before).last().len() {
                lemma_segments_hold_no_separator(before, index, at);
            }
        }
    }
}

/// Whatever is left once the blanks are dropped was there before, and is not
/// blank.
proof fn lemma_without_blanks_entries(pieces: Seq<Seq<char>>, index: int)
    requires
        0 <= index < without_blanks(pieces).len(),
    ensures
        !is_blank(without_blanks(pieces)[index]),
        pieces.contains(without_blanks(pieces)[index]),
    decreases pieces.len(),
{
    if pieces.len() > 0 {
        let before = pieces.drop_last();
        if index < without_blanks(before).len() {
            lemma_without_blanks_entries(before, index);
            let found = without_blanks(before)[index];
            let j = choose|j: int| 0 <= j < before.len() && before[j] == found;
            assert(pieces[j] == found);
        } else {
            assert(pieces[pieces.len() - 1] == pieces.last());
        }
    }
}

/// An entry of a path is a name or `..`: it is not blank, holds no separator,
/// and so is neither the root nor the current directory.
pub proof fn lemma_body_entries(path: Seq<char>, index: int)
    requires
        0 <= index < body(path).len(),
    ensures
        !is_blank(body(path)[index]),
        forall|at: int| 0 <= at < body(path)[index].len() ==> body(path)[index][at] != '/',
        body(path)[index] != root_marker(),
        body(path)[index] != cur_dir_marker(),
{
    let entry = body(path)[index];
    lemma_without_blanks_entries(segments(path), index);
    let j = choose|j: int| 0 <= j < segments(path).len() && segments(path)[j] == entry;
    assert forall|at: int| 0 <= at < entry.len() implies entry[at] != '/' by {
        lemma_segments_hold_no_separator(path, j, at);
    }
    assert(root_marker().len() == 1 && root_marker()[0] == '/');
}

/// A path that is not rooted keeps at least its first character when it is
/// trimmed.
proof fn lemma_trimmed_keeps_start(path: Seq<char>)
    requires
        path.len() > 0,
        path[0] != '/',
    ensures
        trimmed_len(path) >= 1,
    decreases path.len(),
{
    if path.len() > 1 {
        lemma_trimmed_keeps_start(path.drop_last());
    }
}

/// Trimming a path changes none of its components.
pub proof fn lemma_trimmed_components(path: Seq<char>)
    ensures
        anchor(trimmed(path)) == anchor(path),
        body(trimmed(path)) == body(path),
        components(trimmed(path)) == components(path),
{
    let none = Seq::<char>::empty();
    lemma_body_of_blank(none);
    lemma_trimmed_off(path);
    let end = trimmed_len(path) as int;
    let kept = path.take(end);
    let off = path.skip(end);
    // what is kept has the entries of the whole
    if end == path.len() {
        assert(kept =~= path);
    } else {
        let behind = path.skip(end + 1);
        assert(path =~= kept + seq!['/'] + behind);
        lemma_body_concat(kept, behind);
        assert(off =~= none + seq!['/'] + behind);
        lemma_body_concat(none, behind);
        assert(body(none) + body(behind) =~= body(behind));
        assert(body(kept) + body(behind) =~= body(kept));
    }
    assert(body(kept) == body(path));
    if has_root(path) && end == 0 {
        let root = path.take(1);
        assert(kept =~= none);
        assert(root =~= none + seq!['/'] + none);
        lemma_body_concat(none, none);
        assert(body(none) + body(none) =~= body(none));
        assert(root[0] == '/');
    } else if path.len() > 0 {
        if path[0] != '/' {
            lemma_trimmed_keeps_start(path);
        }
        assert(kept[0] == path[0]);
        if starts_in_cur_dir(path) && kept.len() > 1 {
            assert(kept[1] == path[1]);
        }
        if starts_in_cur_dir(kept) {
            if kept.len() > 1 {
                assert(kept[1] == path[1]);
            } else if path.len() > 1 {
                assert(end == 1);
                assert(path[1] == '/');
            }
        }
    } else {
        assert(kept =~= path);
    }
}

/// Two paths of which the one starts with all components of the other, which
/// has some, start from the same place, and the entries of the one start with
/// the entries of the other.
proof fn lemma_prefix_shares_anchor(path: Seq<char>, base: Seq<char>)
    requires
        components(base).len() > 0,
        components(base).is_prefix_of(components(path)),
    ensures
        anchor(base) == anchor(path),
        body(base).len() <= body(path).len(),
        components(path).skip(components(base).len() as int) == body(path).skip(
            body(base).len() as int,
        ),
{
    let whole = components(path);
    let prefix = components(base);
    assert(prefix[0] == whole.subrange(0, prefix.len() as int)[0]);
    assert(prefix[0] == whole[0]);
    assert(root_marker().len() == 1 && root_marker()[0] == '/');
    assert(cur_dir_marker().len() == 1 && cur_dir_marker()[0] == '.');
    if anchor(base).len() > 0 {
        assert(prefix[0] == anchor(base)[0]);
        if anchor(path).len() == 0 {
            assert(whole[0] == body(path)[0]);
            lemma_body_entries(path, 0);
        }
        assert(whole[0] == anchor(path)[0]);
        assert(anchor(base) =~= anchor(path));
    } else {
        assert(prefix[0] == body(base)[0]);
        lemma_body_entries(base, 0);
        if anchor(path).len() > 0 {
            assert(whole[0] == anchor(path)[0]);
        }
        assert(anchor(base) =~= anchor(path));
    }
    assert(whole.skip(prefix.len() as int) =~= body(path).skip(body(base).len() as int));
}

/// What is left of a path relative to a base has exactly the components of
/// the path that follow those of the base.
pub proof fn lemma_relative_components(path: Seq<char>, base: Seq<char>)
    requires
        components(base).is_prefix_of(components(path)),
    ensures
        relative_to(path, base) matches Some(rel) && components(rel) == components(path).skip(
            components(base).len() as int,
        ) && (components(base).len() > 0 ==> anchor(rel) == Seq::<Seq<char>>::empty()),
{
    if components(base).len() == 0 {
        lemma_trimmed_components(path);
        assert(components(path).skip(0) =~= components(path));
    } else {
        lemma_prefix_shares_anchor(path, base);
        lemma_rest_has_remaining_entries(path, body(base).len());
    }
}

/// A path and what is appended to it: the components of the path, then the
/// entries of what is appended, where that starts from neither the root nor
/// the current directory.
pub proof fn lemma_join_components(base: Seq<char>, rel: Seq<char>)
    requires
        anchor(rel) == Seq::<Seq<char>>::empty(),
    ensures
        components(join(base, rel)) == components(base) + body(rel),
{
    let none = Seq::<char>::empty();
    lemma_body_of_blank(none);
    let whole = join(base, rel);
    assert(!has_root(rel)) by {
        if has_root(rel) {
            assert(anchor(rel).len() == 1);
        }
    }
    assert(!starts_in_cur_dir(rel)) by {
        if starts_in_cur_dir(rel) {
            assert(anchor(rel).len() == 1);
        }
    }
    if base.len() == 0 {
        assert(whole =~= rel);
        assert(body(base) =~= Seq::<Seq<char>>::empty());
        assert(components(base) + body(rel) =~= components(rel));
    } else if base.last() == '/' {
        let front = base.drop_last();
        assert(whole =~= front + seq!['/'] + rel);
        lemma_body_concat(front, rel);
        assert(base =~= front + seq!['/'] + none);
        lemma_body_concat(front, none);
        assert(body(front) + body(none) =~= body(front));
        assert(whole[0] == base[0]);
        if base.len() >= 2 {
            assert(whole[1] == base[1]);
        }
        assert(anchor(whole) == anchor(base));
        assert(components(whole) =~= components(base) + body(rel));
    } else {
        assert(whole =~= base + seq!['/'] + rel);
        lemma_body_concat(base, rel);
        assert(whole[0] == base[0]);
        if base.len() >= 2 {
            assert(whole[1] == base[1]);
        } else {
            assert(whole[1] == '/');
        }
        assert(anchor(whole) == anchor(base));
        assert(components(whole) =~= components(base) + body(rel));
    }
}

/// A piece without a separator that is put behind a path lengthens the last
/// segment of the path.
proof fn lemma_segments_append_piece(path: Seq<char>, piece: Seq<char>)
    requires
        forall|i: int| 0 <= i < piece.len() ==> piece[i] != '/',
    ensures
        segments(path).len() >= 1,
        segments(path + piece) == segments(path).drop_last().push(segments(path).last() + piece),
    decreases piece.len(),
{
    lemma_segments_nonempty(path);
    let pieces = segments(path);
    if piece.len() == 0 {
        assert(path + piece =~= path);
        assert(pieces.last() + piece =~= pieces.last());
        assert(pieces.drop_last().push(pieces.last()) =~= pieces);
    } else {
        let shorter = piece.drop_last();
        let c = piece.last();
        lemma_segments_append_piece(path, shorter);
        assert(path + piece =~= (path + shorter).push(c));
        lemma_segments_push(path + shorter, c);
        let grown = pieces.drop_last().push(pieces.last() + shorter);
        assert(grown.drop_last() =~= pieces.drop_last());
        assert((pieces.last() + shorter).push(c) =~= pieces.last() + piece);
    }
}

/// The file name of a path begins where a segment begins: what stands in
/// front of it is empty or ends in a separator.
proof fn lemma_file_name_starts_segment(path: Seq<char>)
    requires
        file_name(path) is Some,
    ensures
        file_name(path)->0.len() <= trimmed_len(path) <= path.len(),
        trimmed_len(path) - file_name(path)->0.len() == 0 || path[trimmed_len(path)
            - file_name(path)->0.len() - 1] == '/',
{
    let name = file_name(path)->0;
    let end = trimmed_len(path) as int;
    lemma_file_name_ends_trimmed(path);
    lemma_trimmed_body(path);
    lemma_body_entries(path, body(path).len() - 1);
    let kept = path.take(end);
    let front = path.take(end - name.len());
    assert(kept =~= front + name);
    if front.len() > 0 && front.last() != '/' {
        lemma_segments_append_piece(front, name);
        lemma_last_segment(front);
        let last = segments(front).last() + name;
        assert(segments(kept).last() == last);
        assert(last.len() >= 2);
        assert(cur_dir_marker().len() == 1);
        let pieces = segments(kept);
        assert(pieces.drop_last().push(pieces.last()) =~= pieces);
        lemma_without_blanks_push(pieces.drop_last(), pieces.last());
        assert(body(kept).last() == last);
        assert(front[front.len() - 1] == path[end - name.len() - 1]);
    }
    if front.len() > 0 {
        assert(front.last() == path[end - name.len() - 1]);
    }
}

/// What is cut off a path at `trimmed_len` holds none of its entries.
proof fn lemma_trimmed_body(path: Seq<char>)
    ensures
        trimmed_len(path) <= path.len(),
        body(path.take(trimmed_len(path) as int)) == body(path),
{
    let none = Seq::<char>::empty();
    lemma_body_of_blank(none);
    lemma_trimmed_off(path);
    let end = trimmed_len(path) as int;
    let kept = path.take(end);
    if end == path.len() {
        assert(kept =~= path);
    } else {
        let behind = path.skip(end + 1);
        assert(path =~= kept + seq!['/'] + behind);
        lemma_body_concat(kept, behind);
        assert(path.skip(end) =~= none + seq!['/'] + behind);
        lemma_body_concat(none, behind);
        assert(body(none) + body(behind) =~= body(behind));
        assert(body(kept) + body(behind) =~= body(kept));
    }
}

/// The components of a name that stands alone, or behind a path that ends in
/// a separator: those of the path, then the name.
proof fn lemma_name_behind(front: Seq<char>, name: Seq<char>)
    requires
        front.len() == 0 || front.last() == '/',
        !is_blank(name),
        forall|i: int| 0 <= i < name.len() ==> name[i] != '/',
    ensures
        components(front + name) == components(front) + seq![name],
{
    let none = Seq::<char>::empty();
    lemma_body_of_blank(none);
    lemma_body_of_name(name);
    assert(cur_dir_marker().len() == 1 && cur_dir_marker()[0] == '.');
    let whole = front + name;
    if front.len() == 0 {
        assert(whole =~= name);
        assert(body(front) =~= Seq::<Seq<char>>::empty());
        assert(!starts_in_cur_dir(name)) by {
            if starts_in_cur_dir(name) && name.len() == 1 {
                assert(name =~= cur_dir_marker());
            }
        }
        assert(components(name) =~= seq![name]);
        assert(components(front) + seq![name] =~= seq![name]);
    } else {
        let start = front.drop_last();
        assert(whole =~= start + seq!['/'] + name);
        lemma_body_concat(start, name);
        assert(front =~= start + seq!['/'] + none);
        lemma_body_concat(start, none);
        assert(body(start) + body(none) =~= body(start));
        assert(whole[0] == front[0]);
        if front.len() >= 2 {
            assert(whole[1] == front[1]);
        }
        assert(anchor(whole) == anchor(front));
        assert(components(whole) =~= components(front) + seq![name]);
    }
}

/// The components of the path of an artifact are those of the path of its
/// file, with the file's name changed to the artifact's name.
pub proof fn lemma_artifact_components(path: Seq<char>)
    requires
        file_name(path) is Some,
    ensures
        components(path).len() > 0,
        components(path).last() == file_name(path)->0,
        components(artifact_path(path)) == components(path).drop_last().push(
            artifact_name(file_name(path)->0),
        ),
{
    let name = file_name(path)->0;
    let end = trimmed_len(path) as int;
    let front = path.take(end - name.len());
    let renamed = artifact_name(name);
    lemma_file_name_ends_trimmed(path);
    lemma_file_name_starts_segment(path);
    lemma_artifact_path_renames(path);
    lemma_artifact_name(name);
    lemma_body_entries(path, body(path).len() - 1);
    lemma_trimmed_components(path);
    assert(trimmed(path) == path.take(end));
    assert(path.take(end) =~= front + name);
    if front.len() > 0 {
        assert(front.last() == path[end - name.len() - 1]);
    }
    lemma_name_behind(front, name);
    assert(cur_dir_marker().len() == 1);
    assert(!is_blank(renamed));
    assert forall|i: int| 0 <= i < renamed.len() implies renamed[i] != '/' by {
        if i < name.len() {
            assert(renamed[i] == name[i]);
        }
    }
    lemma_name_behind(front, renamed);
    let kept = components(front);
    assert((kept + seq![name]).drop_last().push(renamed) =~= kept + seq![renamed]);
}

/// Where an artifact is kept: under the destination root, at the place that
/// its file has under the source root, under the artifact's name. The
/// components of the destination are those of the destination root, then
/// those that the source file has behind the source root, the last of them
/// changed to the artifact's name.
pub proof fn lemma_destination_under_root(
    source_file: Seq<char>,
    source_root: Seq<char>,
    destination_root: Seq<char>,
)
    requires
        components(source_root).len() > 0,
        components(source_root).is_prefix_of(components(source_file)),
        components(source_root).len() < components(source_file).len(),
        components(source_file).last() != parent_marker(),
    ensures
        destination_of(source_file, source_root, destination_root) matches Some(destination)
            && components(destination) == components(destination_root) + components(
            source_file,
        ).skip(components(source_root).len() as int).drop_last().push(
            artifact_name(components(source_file).last()),
        ),
{
    let below = components(source_file).skip(components(source_root).len() as int);
    lemma_relative_components(source_file, source_root);
    let rel = relative_to(source_file, source_root)->0;
    assert(components(rel) =~= body(rel));
    lemma_join_components(destination_root, rel);
    let whole = join(destination_root, rel);
    let name = below.last();
    assert(name == components(source_file).last());
    assert(body(whole) =~= body(destination_root) + below) by {
        assert(!has_root(rel)) by {
            if has_root(rel) {
                assert(anchor(rel).len() == 1);
            }
        }
        lemma_join_body(destination_root, rel);
    }
    assert(body(whole).last() == name);
    assert(file_name(whole) == Some(name));
    lemma_artifact_components(whole);
    assert((components(destination_root) + below).drop_last() =~= components(destination_root)
        + below.drop_last());
    assert((components(destination_root) + below.drop_last()).push(artifact_name(name))
        =~= components(destination_root) + below.drop_last().push(artifact_name(name)));
}

/// The entries of a path and what is appended to it: those of the path, then
/// those of what is appended.
proof fn lemma_join_body(base: Seq<char>, rel: Seq<char>)
    requires
        !has_root(rel),
    ensures
        body(join(base, rel)) == body(base) + body(rel),
{
    let none = Seq::<char>::empty();
    lemma_body_of_blank(none);
    let whole = join(base, rel);
    if base.len() == 0 {
        assert(whole =~= rel);
        assert(body(base) =~= Seq::<Seq<char>>::empty());
        assert(body(base) + body(rel) =~= body(rel));
    } else if base.last() == '/' {
        let front = base.drop_last();
        assert(whole =~= front + seq!['/'] + rel);
        lemma_body_concat(front, rel);
        assert(base =~= front + seq!['/'] + none);
        lemma_body_concat(front, none);
        assert(body(front) + body(none) =~= body(front));
    } else {
        assert(whole =~= base + seq!['/'] + rel);
        lemma_body_concat(base, rel);
    }
}

/// The components of a path and of what is appended to it, by the components
/// of the two: what is appended stands alone where it is rooted or the path
/// is empty, and otherwise follows the path, without the `.` that it may
/// start with.
pub open spec fn joined_components(base: Seq<Seq<char>>, rel: Seq<Seq<char>>) -> Seq<Seq<char>> {
    if rel.len() > 0 && rel[0] == root_marker() {
        rel
    } else if base.len() == 0 {
        rel
    } else if rel.len() > 0 && rel[0] == cur_dir_marker() {
        base + rel.skip(1)
    } else {
        base + rel
    }
}

/// Only the empty path has no component.
pub proof fn lemma_no_components(path: Seq<char>)
    ensures
        components(path).len() == 0 <==> path.len() == 0,
{
    let none = Seq::<char>::empty();
    lemma_body_of_blank(none);
    if path.len() == 0 {
        assert(path =~= none);
    } else if !has_root(path) && !starts_in_cur_dir(path) {
        assert(entry_starts_at(path, 0));
        lemma_entry_then_rest(path, 0);
        assert(path.skip(0) =~= path);
    }
}

/// The first component of a path tells what the path starts from.
pub proof fn lemma_anchor_is_first(path: Seq<char>)
    ensures
        has_root(path) <==> components(path).len() > 0 && components(path)[0] == root_marker(),
        starts_in_cur_dir(path) <==> components(path).len() > 0 && components(path)[0]
            == cur_dir_marker(),
{
    assert(root_marker().len() == 1 && root_marker()[0] == '/');
    assert(cur_dir_marker().len() == 1 && cur_dir_marker()[0] == '.');
    if anchor(path).len() == 0 {
        if body(path).len() > 0 {
            assert(components(path)[0] == body(path)[0]);
            lemma_body_entries(path, 0);
        }
    } else {
        assert(components(path)[0] == anchor(path)[0]);
    }
}

/// The components of a path and what is appended to it, whatever the two
/// are.
pub proof fn lemma_join_components_of_any(base: Seq<char>, rel: Seq<char>)
    ensures
        components(join(base, rel)) == joined_components(components(base), components(rel)),
        !has_root(rel) ==> body(join(base, rel)) == body(base) + body(rel),
        has_root(rel) ==> join(base, rel) == rel,
{
    let whole = join(base, rel);
    lemma_anchor_is_first(rel);
    lemma_no_components(base);
    if has_root(rel) {
    } else {
        lemma_join_body(base, rel);
        if base.len() == 0 {
            assert(whole =~= rel);
        } else {
            assert(whole[0] == base[0]);
            if base.len() >= 2 {
                assert(whole[1] == base[1]);
            } else if base.last() != '/' {
                assert(whole =~= base + seq!['/'] + rel);
                assert(whole[1] == '/');
            }
            assert(anchor(whole) == anchor(base));
            if starts_in_cur_dir(rel) {
                assert(components(rel).skip(1) =~= body(rel));
                assert(components(whole) =~= components(base) + components(rel).skip(1));
            } else {
                assert(components(rel) =~= body(rel));
                assert(components(whole) =~= components(base) + components(rel));
            }
        }
    }
}

/// Where an artifact is kept, whatever the source root is, the empty path
/// too: the components of the destination are those of the destination root
/// joined with those that the source file has behind the source root, the
/// last of them changed to the artifact's name.
pub proof fn lemma_destination_components(
    source_file: Seq<char>,
    source_root: Seq<char>,
    destination_root: Seq<char>,
)
    requires
        components(source_root).is_prefix_of(components(source_file)),
        file_name(source_file) is Some,
        body(source_root).len() < body(source_file).len(),
    ensures
        destination_of(source_file, source_root, destination_root) matches Some(destination)
            && components(destination) == joined_components(
            components(destination_root),
            components(source_file).skip(components(source_root).len() as int),
        ).drop_last().push(artifact_name(file_name(source_file)->0)),
{
    let name = file_name(source_file)->0;
    lemma_relative_components(source_file, source_root);
    let rel = relative_to(source_file, source_root)->0;
    // the entries of what is left end in the file's name
    if components(source_root).len() == 0 {
        lemma_trimmed_components(source_file);
        assert(body(rel) == body(source_file));
    } else {
        lemma_prefix_shares_anchor(source_file, source_root);
        assert(components(rel) =~= body(rel));
        assert(body(rel) == body(source_file).skip(body(source_root).len() as int));
    }
    assert(body(rel).len() > 0);
    assert(body(rel).last() == name);
    let whole = join(destination_root, rel);
    lemma_join_components_of_any(destination_root, rel);
    assert(body(whole).len() > 0 && body(whole).last() == name) by {
        if !has_root(rel) {
            assert((body(destination_root) + body(rel)).last() == body(rel).last());
        }
    }
    assert(file_name(whole) == Some(name));
    lemma_artifact_components(whole);
}

} // verus!
