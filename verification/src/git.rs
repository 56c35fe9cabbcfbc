//! File discovery from what the `git` command line prints.

use vstd::prelude::*;

use crate::paths::{bytes_in, strip_prefix};
use crate::text::{read_lossy, trim_text};

#[allow(unused_imports)]
use crate::paths::{name_views, parts, stripped, stripped_path_has_the_other_parts};
#[allow(unused_imports)]
use crate::text::{lemma_span_is, lossy_text, span, trim};
#[allow(unused_imports)]
use vstd::utf8::{decode_utf8, encode_utf8, valid_utf8};

verus! {

/// The runs of bytes between the zero bytes of `s`, from the first on.
pub open spec fn nul_split(s: Seq<u8>) -> Seq<Seq<u8>>
    decreases s.len(),
{
    let n = span(s, 0u8) as int;
    if n >= s.len() {
        seq![s]
    } else {
        seq![s.take(n)] + nul_split(s.skip(n + 1))
    }
}

/// The pieces that are not empty.
pub open spec fn not_empty(pieces: Seq<Seq<u8>>) -> Seq<Seq<u8>>
    decreases pieces.len(),
{
    if pieces.len() == 0 {
        Seq::empty()
    } else if pieces.last().len() > 0 {
        not_empty(pieces.drop_last()).push(pieces.last())
    } else {
        not_empty(pieces.drop_last())
    }
}

/// The state that a status entry begins with says that the file is deleted, in
/// the index or in the worktree.
pub open spec fn deleted(entry: Seq<u8>) -> bool {
    entry[0] == 0x44 || entry[1] == 0x44
}

/// The state that a status entry begins with says that the file is ignored.
pub open spec fn ignored(entry: Seq<u8>) -> bool {
    entry[0] == 0x21 && entry[1] == 0x21
}

/// Whether a status entry names a file that is there and not ignored: two
/// letters of state, a space, and a path.
pub open spec fn names_file(entry: Seq<u8>) -> bool {
    entry.len() >= 4 && !deleted(entry) && !ignored(entry)
}

/// The paths of the entries that name a file.
pub open spec fn paths_in(entries: Seq<Seq<u8>>) -> Seq<Seq<u8>>
    decreases entries.len(),
{
    if entries.len() == 0 {
        Seq::empty()
    } else if names_file(entries.last()) {
        paths_in(entries.drop_last()).push(entries.last().skip(3))
    } else {
        paths_in(entries.drop_last())
    }
}

/// The path that bytes printed by Git stand for: the text they are read as.
pub open spec fn path_of(printed: Seq<u8>) -> Seq<u8> {
    encode_utf8(lossy_text(printed))
}

/// The paths that pieces of what Git printed stand for.
pub open spec fn paths_of(printed: Seq<Seq<u8>>) -> Seq<Seq<u8>> {
    Seq::new(printed.len(), |i: int| path_of(printed[i]))
}

/// Whether every piece is valid UTF-8.
pub open spec fn all_valid(pieces: Seq<Seq<u8>>) -> bool {
    forall|i: int| 0 <= i < pieces.len() ==> valid_utf8(#[trigger] pieces[i])
}

/// What is left of the paths that begin with `prefix`, behind it.
pub open spec fn below(files: Seq<Seq<u8>>, prefix: Seq<u8>) -> Seq<Seq<u8>>
    decreases files.len(),
{
    if files.len() == 0 {
        Seq::empty()
    } else {
        let outer = below(files.drop_last(), prefix);
        match stripped(files.last(), prefix) {
            Some(rest) => outer.push(rest),
            None => outer,
        }
    }
}

/// Paths from the root of the repository as paths from the working directory,
/// which lies at `prefix` in it; those of files elsewhere are left out.
pub open spec fn relative_to(files: Seq<Seq<u8>>, prefix: Seq<char>) -> Seq<Seq<u8>> {
    if prefix.len() == 0 {
        files
    } else {
        below(files, encode_utf8(prefix))
    }
}

/// The runs of bytes between zero bytes.
fn split_all(bytes: &[u8]) -> (r: Vec<Vec<u8>>)
    ensures
        name_views(r@) == nul_split(bytes@),
{
    let mut r: Vec<Vec<u8>> = Vec::new();
    let mut lo: usize = 0;
    assert(bytes@.skip(0) =~= bytes@);
    assert(name_views(r@) + nul_split(bytes@) =~= nul_split(bytes@));
    loop
        invariant
            lo <= bytes@.len(),
            name_views(r@) + nul_split(bytes@.skip(lo as int)) == nul_split(bytes@),
        decreases bytes@.len() - lo,
    {
        let mut end: usize = lo;
        while end < bytes.len() && bytes[end] != 0
            invariant
                lo <= end <= bytes@.len(),
                forall|j: int| lo <= j < end ==> bytes@[j] != 0,
            decreases bytes@.len() - end,
        {
            end += 1;
        }
        let ghost rest = bytes@.skip(lo as int);
        let ghost before = name_views(r@);
        let piece = bytes_in(bytes, lo, end);
        proof {
            lemma_span_is(rest, 0u8, (end - lo) as nat);
            assert(rest.take(end - lo) =~= piece@);
        }
        r.push(piece);
        assert(name_views(r@) =~= before.push(piece@));
        if end == bytes.len() {
            proof {
                assert(rest.take(end - lo) =~= rest);
                assert(before + seq![rest] =~= name_views(r@));
            }
            return r;
        }
        proof {
            assert(rest.skip(end - lo + 1) =~= bytes@.skip(end + 1));
            assert(before + nul_split(rest) =~= name_views(r@) + nul_split(bytes@.skip(end + 1)));
        }
        lo = end + 1;
    }
}

/// The pieces between zero bytes that are not empty.
pub fn nul_pieces(bytes: &[u8]) -> (r: Vec<Vec<u8>>)
    ensures
        name_views(r@) == not_empty(nul_split(bytes@)),
{
    let pieces = split_all(bytes);
    let ghost all = name_views(pieces@);
    let mut r: Vec<Vec<u8>> = Vec::new();
    assert(name_views(r@) =~= not_empty(all.take(0)));
    let mut i: usize = 0;
    while i < pieces.len()
        invariant
            all == name_views(pieces@),
            i <= pieces@.len(),
            name_views(r@) == not_empty(all.take(i as int)),
        decreases pieces.len() - i,
    {
        let ghost before = name_views(r@);
        proof {
            assert(all.take(i + 1).drop_last() =~= all.take(i as int));
            assert(all.take(i + 1).last() == pieces@[i as int]@);
        }
        if pieces[i].len() > 0 {
            let piece = bytes_in(pieces[i].as_slice(), 0, pieces[i].len());
            assert(piece@ =~= pieces@[i as int]@);
            r.push(piece);
            assert(name_views(r@) =~= before.push(piece@));
        }
        i += 1;
    }
    assert(all.take(pieces@.len() as int) =~= all);
    r
}

/// The paths, as they are printed, of the files that `git status` reports as
/// changed.
pub fn changed_entries(status: &[u8]) -> (r: Vec<Vec<u8>>)
    ensures
        name_views(r@) == paths_in(nul_split(status@)),
{
    let entries = split_all(status);
    let ghost all = name_views(entries@);
    let mut r: Vec<Vec<u8>> = Vec::new();
    assert(name_views(r@) =~= paths_in(all.take(0)));
    let mut i: usize = 0;
    while i < entries.len()
        invariant
            all == name_views(entries@),
            i <= entries@.len(),
            name_views(r@) == paths_in(all.take(i as int)),
        decreases entries.len() - i,
    {
        let ghost before = name_views(r@);
        let entry = entries[i].as_slice();
        proof {
            assert(all.take(i + 1).drop_last() =~= all.take(i as int));
            assert(all.take(i + 1).last() == entry@);
        }
        if entry.len() >= 4 && !(entry[0] == 0x44 || entry[1] == 0x44) && !(entry[0] == 0x21 && entry[1] == 0x21) {
            let path = bytes_in(entry, 3, entry.len());
            assert(path@ =~= entry@.skip(3));
            r.push(path);
            assert(name_views(r@) =~= before.push(path@));
        }
        i += 1;
    }
    assert(all.take(entries@.len() as int) =~= all);
    r
}

/// The paths that pieces of what Git printed stand for.
fn read_paths(printed: &Vec<Vec<u8>>) -> (r: Vec<Vec<u8>>)
    ensures
        name_views(r@) == paths_of(name_views(printed@)),
        forall|i: int| 0 <= i < printed@.len() && valid_utf8(printed@[i]@) ==> (#[trigger] r@[i])@ == printed@[i]@,
{
    let mut r: Vec<Vec<u8>> = Vec::new();
    let mut i: usize = 0;
    while i < printed.len()
        invariant
            i <= printed@.len(),
            r@.len() == i,
            forall|j: int| 0 <= j < i ==> (#[trigger] r@[j])@ == path_of(printed@[j]@),
            forall|j: int| 0 <= j < i && valid_utf8(printed@[j]@) ==> (#[trigger] r@[j])@ == printed@[j]@,
        decreases printed.len() - i,
    {
        let text = read_lossy(printed[i].as_slice());
        let bytes = text.as_str().as_bytes();
        let path = bytes_in(bytes, 0, bytes.len());
        proof {
            assert(path@ =~= bytes@);
            if valid_utf8(printed@[i as int]@) {
                vstd::utf8::decode_utf8_encode_utf8(printed@[i as int]@);
            }
        }
        r.push(path);
        i += 1;
    }
    assert(name_views(r@) =~= paths_of(name_views(printed@)));
    r
}

/// Paths from the root of the repository as paths from the working directory,
/// which lies at `prefix` in it; those of files elsewhere are left out.
pub fn relative_files(files: Vec<Vec<u8>>, prefix: &str) -> (r: Vec<Vec<u8>>)
    ensures
        name_views(r@) == relative_to(name_views(files@), prefix@),
{
    let base = prefix.as_bytes();
    proof {
        vstd::utf8::encode_utf8_decode_utf8(prefix@);
    }
    if base.len() == 0 {
        return files;
    }
    let ghost all = name_views(files@);
    let mut r: Vec<Vec<u8>> = Vec::new();
    assert(name_views(r@) =~= below(all.take(0), base@));
    let mut i: usize = 0;
    while i < files.len()
        invariant
            all == name_views(files@),
            base@.len() > 0,
            i <= files@.len(),
            name_views(r@) == below(all.take(i as int), base@),
        decreases files.len() - i,
    {
        let ghost before = name_views(r@);
        proof {
            assert(all.take(i + 1).drop_last() =~= all.take(i as int));
            assert(all.take(i + 1).last() == files@[i as int]@);
        }
        if let Some(rest) = strip_prefix(files[i].as_slice(), base) {
            r.push(rest);
            assert(name_views(r@) =~= before.push(rest@));
        }
        i += 1;
    }
    assert(all.take(files@.len() as int) =~= all);
    r
}

/// The paths between zero bytes, empty ones left out.
pub fn split_nul(bytes: &[u8]) -> (r: Vec<Vec<u8>>)
    ensures
        name_views(r@) == paths_of(not_empty(nul_split(bytes@))),
        forall|i: int|
            0 <= i < r@.len() && valid_utf8(not_empty(nul_split(bytes@))[i]) ==> (#[trigger] r@[i])@ == not_empty(
                nul_split(bytes@),
            )[i],
{
    let pieces = nul_pieces(bytes);
    let r = read_paths(&pieces);
    proof {
        assert(name_views(r@).len() == name_views(pieces@).len());
        assert forall|i: int| 0 <= i < r@.len() && valid_utf8(not_empty(nul_split(bytes@))[i]) implies (
        #[trigger] r@[i])@ == not_empty(nul_split(bytes@))[i] by {
            assert(name_views(pieces@)[i] == pieces@[i]@);
        }
    }
    r
}

/// Files tracked by Git under the current directory, from the output of
/// `git ls-files -z`.
pub fn tracked_files(out: &[u8]) -> (r: Vec<Vec<u8>>)
    ensures
        name_views(r@) == paths_of(not_empty(nul_split(out@))),
        forall|i: int|
            0 <= i < r@.len() && valid_utf8(not_empty(nul_split(out@))[i]) ==> (#[trigger] r@[i])@ == not_empty(
                nul_split(out@),
            )[i],
{
    split_nul(out)
}

/// Files that Git reports as modified, added, renamed, or untracked, relative
/// to the current directory, from the outputs of `git status` (as
/// `--porcelain=v1 -z`) and `git rev-parse --show-prefix`. Deleted files are
/// omitted.
pub fn changed_files(status: &[u8], prefix: &[u8]) -> (r: Vec<Vec<u8>>)
    ensures
        name_views(r@) == relative_to(paths_of(paths_in(nul_split(status@))), trim(lossy_text(prefix@))),
        all_valid(paths_in(nul_split(status@))) && valid_utf8(prefix@) ==> name_views(r@) == relative_to(
            paths_in(nul_split(status@)),
            trim(decode_utf8(prefix@)),
        ),
{
    let printed = changed_entries(status);
    let files = read_paths(&printed);
    let text = read_lossy(prefix);
    let place = trim_text(text.as_str());
    proof {
        let paths = paths_in(nul_split(status@));
        assert(name_views(files@).len() == paths.len());
        if all_valid(paths) {
            assert forall|i: int| 0 <= i < paths.len() implies #[trigger] name_views(files@)[i] == paths[i] by {
                assert(name_views(printed@)[i] == printed@[i]@);
                assert(valid_utf8(paths[i]));
                assert(files@[i]@ == printed@[i]@);
            }
            assert(name_views(files@) =~= paths);
        }
    }
    relative_files(files, place.as_str())
}

/// Every path that stands for a changed file comes from an entry of the status
/// that neither deletes the file nor ignores it.
pub proof fn changed_paths_are_neither_deleted_nor_ignored(entries: Seq<Seq<u8>>, i: int)
    requires
        0 <= i < paths_in(entries).len(),
    ensures
        exists|j: int|
            {
                &&& 0 <= j < entries.len()
                &&& !deleted(#[trigger] entries[j]) && !ignored(entries[j])
                &&& entries[j].len() >= 4
                &&& paths_in(entries)[i] == entries[j].skip(3)
            },
    decreases entries.len(),
{
    let outer = entries.drop_last();
    let n = entries.len() - 1;
    if names_file(entries.last()) && i == paths_in(outer).len() {
        assert(entries[n] == entries.last());
        assert(!deleted(entries[n]));
    } else {
        changed_paths_are_neither_deleted_nor_ignored(outer, i);
        let j = choose|j: int|
            {
                &&& 0 <= j < outer.len()
                &&& !deleted(#[trigger] outer[j]) && !ignored(outer[j])
                &&& outer[j].len() >= 4
                &&& paths_in(outer)[i] == outer[j].skip(3)
            };
        assert(entries[j] == outer[j]);
        assert(!deleted(entries[j]));
    }
}

/// Every path relative to the working directory is that of one of the files,
/// without the way from the root of the repository to the working directory.
pub proof fn relative_paths_lie_below_the_prefix(files: Seq<Seq<u8>>, prefix: Seq<u8>, i: int)
    requires
        prefix.len() > 0,
        0 <= i < below(files, prefix).len(),
    ensures
        exists|j: int|
            0 <= j < files.len() && parts(#[trigger] files[j]) == parts(prefix) + parts(below(files, prefix)[i]),
    decreases files.len(),
{
    let outer = files.drop_last();
    let n = files.len() - 1;
    if stripped(files.last(), prefix) is Some && i == below(outer, prefix).len() {
        stripped_path_has_the_other_parts(files.last(), prefix);
        assert(parts(files[n]) == parts(prefix) + parts(below(files, prefix)[i]));
    } else {
        relative_paths_lie_below_the_prefix(outer, prefix, i);
        let j = choose|j: int|
            0 <= j < outer.len() && parts(#[trigger] outer[j]) == parts(prefix) + parts(below(outer, prefix)[i]);
        assert(files[j] == outer[j]);
        assert(parts(files[j]) == parts(prefix) + parts(below(files, prefix)[i]));
    }
}

/// What one entry of the status adds to the changed paths, wherever it stands,
/// rests on its bytes alone: its path, from the fourth byte on, unless one of
/// its first two bytes is a `D`, or both are `!`, or it is too short to have
/// one. The others keep their paths, in their order.
pub proof fn every_other_entry_gives_its_path(a: Seq<Seq<u8>>, entry: Seq<u8>, b: Seq<Seq<u8>>)
    ensures
        entry.len() >= 4 && entry[0] != 0x44 && entry[1] != 0x44 && !(entry[0] == 0x21 && entry[1] == 0x21)
            ==> paths_in(a.push(entry) + b) == paths_in(a).push(entry.subrange(3, entry.len() as int)) + paths_in(b),
        entry.len() < 4 || entry[0] == 0x44 || entry[1] == 0x44 || (entry[0] == 0x21 && entry[1] == 0x21)
            ==> paths_in(a.push(entry) + b) == paths_in(a) + paths_in(b),
        paths_in(Seq::empty()) == Seq::<Seq<u8>>::empty(),
{
    lemma_paths_joined(a.push(entry), b);
    assert(a.push(entry).drop_last() =~= a);
    if entry.len() >= 4 {
        assert(entry.skip(3) =~= entry.subrange(3, entry.len() as int));
    }
}

proof fn lemma_paths_joined(a: Seq<Seq<u8>>, b: Seq<Seq<u8>>)
    ensures
        paths_in(a + b) == paths_in(a) + paths_in(b),
    decreases b.len(),
{
    if b.len() == 0 {
        assert(a + b =~= a);
        assert(paths_in(a) + paths_in(b) =~= paths_in(a));
    } else {
        assert((a + b).drop_last() =~= a + b.drop_last());
        assert((a + b).last() == b.last());
        lemma_paths_joined(a, b.drop_last());
        assert(paths_in(a + b) =~= paths_in(a) + paths_in(b));
    }
}

/// Every entry with a path, whatever its state but for a deletion or an
/// ignored file, has its path among the changed ones.
pub proof fn no_changed_file_is_left_out(entries: Seq<Seq<u8>>, j: int)
    requires
        0 <= j < entries.len(),
        entries[j].len() >= 4,
        entries[j][0] != 0x44,
        entries[j][1] != 0x44,
        !(entries[j][0] == 0x21 && entries[j][1] == 0x21),
    ensures
        paths_in(entries).contains(entries[j].subrange(3, entries[j].len() as int)),
{
    let a = entries.take(j);
    let b = entries.skip(j + 1);
    assert(entries =~= a.push(entries[j]) + b);
    every_other_entry_gives_its_path(a, entries[j], b);
    assert(paths_in(entries)[paths_in(a).len() as int] == entries[j].subrange(3, entries[j].len() as int));
}

/// A zero byte ends a piece, nothing else does, and nothing is lost.
pub proof fn zero_bytes_part_the_pieces(a: Seq<u8>, rest: Seq<u8>)
    requires
        forall|i: int| 0 <= i < a.len() ==> #[trigger] a[i] != 0,
    ensures
        nul_split(a) == seq![a],
        nul_split(a.push(0) + rest) == seq![a] + nul_split(rest),
{
    let whole = a.push(0) + rest;
    assert(whole[a.len() as int] == 0);
    assert forall|i: int| 0 <= i < a.len() implies whole[i] != 0 by {
        assert(whole[i] == a[i]);
    }
    lemma_span_is(whole, 0u8, a.len());
    lemma_span_is(a, 0u8, a.len());
    assert(whole.take(a.len() as int) =~= a);
    assert(whole.skip(a.len() as int + 1) =~= rest);
}

/// A listing of paths, each ended by a zero byte, gives the paths back.
pub proof fn listing_gives_its_paths(paths: Seq<Seq<u8>>, path: Seq<u8>)
    ensures
        path.len() > 0 ==> not_empty(paths.push(path)) == not_empty(paths).push(path),
        path.len() == 0 ==> not_empty(paths.push(path)) == not_empty(paths),
        not_empty(Seq::empty()) == Seq::<Seq<u8>>::empty(),
{
    assert(paths.push(path).drop_last() =~= paths);
}

/// Each piece stands for the text that its bytes are read as, one path for
/// each piece.
pub proof fn pieces_are_read_as_text(pieces: Seq<Seq<u8>>)
    ensures
        paths_of(pieces).len() == pieces.len(),
        forall|i: int| 0 <= i < pieces.len() ==> #[trigger] paths_of(pieces)[i] == encode_utf8(lossy_text(pieces[i])),
        (forall|i: int| 0 <= i < pieces.len() ==> valid_utf8(#[trigger] pieces[i])) ==> all_valid(pieces),
{
}

/// A file that lies below the working directory keeps its place among the
/// others, with the rest of its path; a file elsewhere is left out; at the root
/// of the repository every path stays as it is.
pub proof fn files_below_are_kept(files: Seq<Seq<u8>>, file: Seq<u8>, prefix: Seq<char>)
    ensures
        prefix.len() == 0 ==> relative_to(files, prefix) == files,
        prefix.len() > 0 && !parts(encode_utf8(prefix)).is_prefix_of(parts(file)) ==> relative_to(
            files.push(file),
            prefix,
        ) == relative_to(files, prefix),
        prefix.len() > 0 && parts(encode_utf8(prefix)).is_prefix_of(parts(file)) ==> {
            let before = relative_to(files, prefix);
            let after = relative_to(files.push(file), prefix);
            &&& after.len() == before.len() + 1
            &&& after.drop_last() == before
            &&& parts(file) == parts(encode_utf8(prefix)) + parts(after.last())
        },
        prefix.len() > 0 ==> relative_to(Seq::empty(), prefix) == Seq::<Seq<u8>>::empty(),
{
    let base = encode_utf8(prefix);
    assert(files.push(file).drop_last() =~= files);
    if prefix.len() > 0 && parts(base).is_prefix_of(parts(file)) {
        vstd::utf8::encode_utf8_decode_utf8(prefix);
        stripped_path_has_the_other_parts(file, base);
        if let Some(rest) = stripped(file, base) {
            assert(below(files, base).push(rest).drop_last() =~= below(files, base));
            assert((parts(base) + parts(rest)).take(parts(base).len() as int) =~= parts(base));
        }
    }
}

} // verus!
