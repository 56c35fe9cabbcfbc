//! Which files to parse, from the command line and from Git.

use vstd::prelude::*;

use crate::paths::{bytes_in, normalize, path_precedes, same_path};
use crate::sort::{sort, Ranked};

#[allow(unused_imports)]
use crate::paths::{
    dotted, name_views, normalized, normalized_path_has_no_leading_dot, parts, path_before, path_order,
    same_parts,
};
#[allow(unused_imports)]
use crate::sort::{in_order, lemma_first_tie, lemma_some_tie, sorted_from, tied, ties, value_views};

verus! {

/// Paths rank by their order; the same path may be written in several ways.
impl Ranked for Vec<u8> {
    open spec fn ranks_before(a: Seq<u8>, b: Seq<u8>) -> bool {
        path_before(a, b)
    }

    proof fn one_line(a: Seq<u8>, b: Seq<u8>, c: Seq<u8>) {
        path_order(a, b, c);
        path_order(b, a, c);
        path_order(a, c, b);
        path_order(c, b, a);
        path_order(b, c, a);
        path_order(c, a, b);
    }

    fn precedes(&self, other: &Self) -> (r: bool) {
        path_precedes(self.as_slice(), other.as_slice())
    }
}

/// Where the files to parse come from.
#[derive(Clone, Copy, Debug, PartialEq, Eq, Structural)]
pub enum Source {
    /// All files that Git tracks.
    Listed,
    /// All files that Git reports as changed.
    Changed,
    /// The paths of the command line.
    Given,
    /// The paths of the command line, as far as Git reports them as changed.
    GivenChanged,
}

/// Works out where the files come from: from Git where the command line has no
/// paths.
pub fn file_source(any_paths: bool, only_changed: bool) -> (r: Source)
    ensures
        r == match (any_paths, only_changed) {
            (false, false) => Source::Listed,
            (false, true) => Source::Changed,
            (true, false) => Source::Given,
            (true, true) => Source::GivenChanged,
        },
{
    if any_paths {
        if only_changed {
            Source::GivenChanged
        } else {
            Source::Given
        }
    } else if only_changed {
        Source::Changed
    } else {
        Source::Listed
    }
}

/// What a path of the command line stands for.
#[derive(Debug)]
pub enum Given {
    /// A path that is no directory, taken as a file.
    File(Vec<u8>),
    /// A directory, by the files in it.
    Dir(Vec<Vec<u8>>),
}

/// The files that a path of the command line stands for.
pub open spec fn files_of(given: Given) -> Seq<Seq<u8>> {
    match given {
        Given::File(path) => seq![path@],
        Given::Dir(files) => name_views(files@),
    }
}

/// The files that the paths of the command line stand for, in order.
pub open spec fn all_files_of(given: Seq<Given>) -> Seq<Seq<u8>>
    decreases given.len(),
{
    if given.len() == 0 {
        Seq::empty()
    } else {
        all_files_of(given.drop_last()) + files_of(given.last())
    }
}

/// Whether `path` is among `files`, however either is written.
pub open spec fn has(files: Seq<Seq<u8>>, path: Seq<u8>) -> bool {
    exists|i: int| 0 <= i < files.len() && same_parts(#[trigger] files[i], path)
}

/// Whether `path` is among `files`, in the way that it is written there first.
pub open spec fn has_first(files: Seq<Seq<u8>>, path: Seq<u8>) -> bool {
    exists|k: int|
        {
            &&& 0 <= k < files.len()
            &&& #[trigger] files[k] == path
            &&& forall|m: int| 0 <= m < k ==> !same_parts(#[trigger] files[m], path)
        }
}

/// Whether `path` is among `changed`, with or without a leading `./`.
pub open spec fn is_changed(changed: Seq<Seq<u8>>, path: Seq<u8>) -> bool {
    has(all_normalized(changed), normalized(path))
}

/// The files that are among `changed`, in order.
pub open spec fn only_changed(files: Seq<Seq<u8>>, changed: Seq<Seq<u8>>) -> Seq<Seq<u8>>
    decreases files.len(),
{
    if files.len() == 0 {
        Seq::empty()
    } else if is_changed(changed, files.last()) {
        only_changed(files.drop_last(), changed).push(files.last())
    } else {
        only_changed(files.drop_last(), changed)
    }
}

/// Each path without a leading `./`.
pub open spec fn all_normalized(files: Seq<Seq<u8>>) -> Seq<Seq<u8>> {
    Seq::new(files.len(), |i: int| normalized(files[i]))
}

/// Whether `r` lists `files` in the order of paths, each once, in the way it is
/// written first.
pub open spec fn lists(r: Seq<Seq<u8>>, files: Seq<Seq<u8>>) -> bool {
    &&& forall|i: int, j: int| #![trigger r[i], r[j]] 0 <= i < j < r.len() ==> path_before(r[i], r[j])
    &&& forall|k: int| 0 <= k < files.len() ==> #[trigger] has(r, files[k])
    &&& forall|i: int| 0 <= i < r.len() ==> #[trigger] has_first(files, r[i])
}

/// The files that were found.
#[derive(Debug)]
pub enum Found {
    /// Those that Git lists.
    Listed(Vec<Vec<u8>>),
    /// Those of the command line.
    Given(Vec<Given>),
    /// Those of the command line, and those that Git reports as changed.
    GivenChanged(Vec<Given>, Vec<Vec<u8>>),
}

/// The files to parse among those found.
pub open spec fn candidates(found: Found) -> Seq<Seq<u8>> {
    match found {
        Found::Listed(files) => name_views(files@),
        Found::Given(given) => all_files_of(given@),
        Found::GivenChanged(given, changed) => only_changed(all_files_of(given@), name_views(changed@)),
    }
}

/// The files that the paths of the command line stand for, in order.
fn list_given(given: Vec<Given>) -> (r: Vec<Vec<u8>>)
    ensures
        name_views(r@) == all_files_of(given@),
{
    let mut r: Vec<Vec<u8>> = Vec::new();
    assert(name_views(r@) =~= all_files_of(given@.take(0)));
    let mut i: usize = 0;
    while i < given.len()
        invariant
            i <= given@.len(),
            name_views(r@) == all_files_of(given@.take(i as int)),
        decreases given.len() - i,
    {
        let ghost before = name_views(r@);
        proof {
            assert(given@.take(i + 1).drop_last() =~= given@.take(i as int));
            assert(given@.take(i + 1).last() == given@[i as int]);
        }
        match &given[i] {
            Given::File(path) => {
                let file = bytes_in(path.as_slice(), 0, path.len());
                assert(file@ =~= path@);
                r.push(file);
                assert(name_views(r@) =~= before + seq![path@]);
            },
            Given::Dir(files) => {
                let mut j: usize = 0;
                assert(name_views(r@) =~= before + name_views(files@).take(0));
                while j < files.len()
                    invariant
                        j <= files@.len(),
                        name_views(r@) == before + name_views(files@).take(j as int),
                    decreases files.len() - j,
                {
                    let ghost so_far = name_views(r@);
                    let file = bytes_in(files[j].as_slice(), 0, files[j].len());
                    assert(file@ =~= files@[j as int]@);
                    r.push(file);
                    assert(name_views(r@) =~= so_far.push(file@));
                    assert(name_views(r@) =~= before + name_views(files@).take(j + 1));
                    j += 1;
                }
                assert(name_views(files@).take(files@.len() as int) =~= name_views(files@));
            },
        }
        i += 1;
    }
    assert(given@.take(given@.len() as int) =~= given@);
    r
}

/// Each path without a leading `./`.
fn normalize_all(files: &Vec<Vec<u8>>) -> (r: Vec<Vec<u8>>)
    ensures
        name_views(r@) == all_normalized(name_views(files@)),
{
    let mut r: Vec<Vec<u8>> = Vec::new();
    let mut i: usize = 0;
    while i < files.len()
        invariant
            i <= files@.len(),
            r@.len() == i,
            forall|j: int| 0 <= j < i ==> (#[trigger] r@[j])@ == normalized(files@[j]@),
        decreases files.len() - i,
    {
        r.push(normalize(files[i].as_slice()));
        i += 1;
    }
    assert(name_views(r@) =~= all_normalized(name_views(files@)));
    r
}

/// Whether a sorted list has a path.
fn has_path(sorted: &Vec<Vec<u8>>, path: &[u8]) -> (r: bool)
    requires
        in_order::<Vec<u8>>(name_views(sorted@)),
    ensures
        r == has(name_views(sorted@), path@),
{
    let ghost all = name_views(sorted@);
    let mut lo: usize = 0;
    let mut hi: usize = sorted.len();
    while lo < hi
        invariant
            all == name_views(sorted@),
            in_order::<Vec<u8>>(all),
            lo <= hi <= sorted@.len(),
            forall|i: int| 0 <= i < lo ==> path_before(#[trigger] all[i], path@),
            forall|i: int| hi <= i < all.len() ==> !path_before(#[trigger] all[i], path@),
        decreases hi - lo,
    {
        let mid: usize = lo + (hi - lo) / 2;
        assert(all[mid as int] == sorted@[mid as int]@);
        if path_precedes(sorted[mid].as_slice(), path) {
            assert forall|i: int| 0 <= i < mid + 1 implies path_before(#[trigger] all[i], path@) by {
                if lo <= i < mid {
                    let m = all[mid as int];
                    assert(!path_before(m, all[i]));
                    path_order(all[i], m, path@);
                    lemma_same_before(all[i], m, path@);
                }
            }
            lo = mid + 1;
        } else {
            assert forall|i: int| mid <= i < all.len() implies !path_before(#[trigger] all[i], path@) by {
                if mid < i < hi {
                    let m = all[mid as int];
                    assert(!path_before(all[i], m));
                    if path_before(all[i], path@) {
                        path_order(m, all[i], path@);
                        lemma_same_before(m, all[i], path@);
                    }
                }
            }
            hi = mid;
        }
    }
    if lo == sorted.len() {
        proof {
            assert forall|i: int| 0 <= i < all.len() implies !same_parts(#[trigger] all[i], path@) by {
                path_order(all[i], path@, path@);
            }
        }
        return false;
    }
    assert(all[lo as int] == sorted@[lo as int]@);
    let r = same_path(sorted[lo].as_slice(), path);
    proof {
        if !r {
            assert forall|i: int| 0 <= i < all.len() implies !same_parts(#[trigger] all[i], path@) by {
                path_order(all[i], path@, path@);
                if i > lo && same_parts(all[i], path@) {
                    let m = all[lo as int];
                    assert(!path_before(all[i], m));
                    path_order(m, path@, path@);
                    assert(path_before(path@, m));
                    lemma_same_before(all[i], path@, m);
                }
            }
        }
    }
    r
}

/// The same path comes before the same paths.
proof fn lemma_same_before(a: Seq<u8>, b: Seq<u8>, c: Seq<u8>)
    ensures
        same_parts(a, b) ==> path_before(a, c) == path_before(b, c),
{
}

/// The files that are among `changed`, in order.
fn keep_changed(files: Vec<Vec<u8>>, changed: &Vec<Vec<u8>>) -> (r: Vec<Vec<u8>>)
    ensures
        name_views(r@) == only_changed(name_views(files@), name_views(changed@)),
{
    let ghost all = name_views(files@);
    let ghost marks = name_views(changed@);
    let known = normalize_all(changed);
    let ghost given = name_views(known@);
    let sorted = sort(known);
    proof {
        assert(value_views(sorted@) =~= name_views(sorted@));
        assert(value_views(known@) =~= given);
        assert forall|p: Seq<u8>| has(name_views(sorted@), normalized(p)) == #[trigger] is_changed(marks, p) by {
            lemma_in_sorted(name_views(sorted@), given, normalized(p));
        }
    }
    let mut r: Vec<Vec<u8>> = Vec::new();
    assert(name_views(r@) =~= only_changed(all.take(0), marks));
    let mut i: usize = 0;
    while i < files.len()
        invariant
            all == name_views(files@),
            in_order::<Vec<u8>>(name_views(sorted@)),
            forall|p: Seq<u8>| has(name_views(sorted@), normalized(p)) == #[trigger] is_changed(marks, p),
            i <= files@.len(),
            name_views(r@) == only_changed(all.take(i as int), marks),
        decreases files.len() - i,
    {
        let ghost before = name_views(r@);
        let file = files[i].as_slice();
        proof {
            assert(all.take(i + 1).drop_last() =~= all.take(i as int));
            assert(all.take(i + 1).last() == file@);
            assert(has(name_views(sorted@), normalized(file@)) == is_changed(marks, file@));
        }
        let name = normalize(file);
        if has_path(&sorted, name.as_slice()) {
            let kept = bytes_in(file, 0, file.len());
            assert(kept@ =~= file@);
            r.push(kept);
            assert(name_views(r@) =~= before.push(kept@));
        }
        i += 1;
    }
    assert(all.take(files@.len() as int) =~= all);
    r
}

/// A sorted list has the paths that the list has.
proof fn lemma_in_sorted(r: Seq<Seq<u8>>, s: Seq<Seq<u8>>, p: Seq<u8>)
    requires
        sorted_from::<Vec<u8>>(r, s),
    ensures
        has(r, p) == has(s, p),
{
    lemma_has_ties(r, p);
    lemma_has_ties(s, p);
    assert(ties::<Vec<u8>>(r, p) == ties::<Vec<u8>>(s, p));
}

proof fn lemma_has_ties(s: Seq<Seq<u8>>, p: Seq<u8>)
    ensures
        has(s, p) == (ties::<Vec<u8>>(s, p).len() > 0),
{
    lemma_some_tie::<Vec<u8>>(s, p);
    lemma_tied_is_same();
    if has(s, p) {
        let i = choose|i: int| 0 <= i < s.len() && same_parts(#[trigger] s[i], p);
        assert(tied::<Vec<u8>>(s[i], p));
    }
    if ties::<Vec<u8>>(s, p).len() > 0 {
        let k = choose|k: int| 0 <= k < s.len() && tied::<Vec<u8>>(#[trigger] s[k], p);
        assert(same_parts(s[k], p));
    }
}

/// Paths have the same rank where they are the same.
proof fn lemma_tied_is_same()
    ensures
        forall|a: Seq<u8>, b: Seq<u8>| #[trigger] tied::<Vec<u8>>(a, b) == same_parts(a, b),
{
    assert forall|a: Seq<u8>, b: Seq<u8>| #[trigger] tied::<Vec<u8>>(a, b) == same_parts(a, b) by {
        path_order(a, b, a);
        path_order(b, a, b);
    }
}

/// The paths of a sorted list that differ from the one before them.
spec fn once(s: Seq<Seq<u8>>) -> Seq<Seq<u8>>
    decreases s.len(),
{
    if s.len() == 0 {
        Seq::empty()
    } else if s.len() > 1 && same_parts(s[s.len() - 2], s.last()) {
        once(s.drop_last())
    } else {
        once(s.drop_last()).push(s.last())
    }
}

/// The paths of a list that differ from the one before them.
fn each_once(sorted: &Vec<Vec<u8>>) -> (r: Vec<Vec<u8>>)
    ensures
        name_views(r@) == once(name_views(sorted@)),
{
    let ghost all = name_views(sorted@);
    let mut r: Vec<Vec<u8>> = Vec::new();
    assert(name_views(r@) =~= once(all.take(0)));
    let mut i: usize = 0;
    while i < sorted.len()
        invariant
            all == name_views(sorted@),
            i <= sorted@.len(),
            name_views(r@) == once(all.take(i as int)),
        decreases sorted.len() - i,
    {
        let ghost before = name_views(r@);
        proof {
            let next = all.take(i + 1);
            assert(next.drop_last() =~= all.take(i as int));
            assert(next.last() == sorted@[i as int]@);
            if i > 0 {
                assert(next[next.len() - 2] == sorted@[i - 1]@);
            }
        }
        let again = i > 0 && same_path(sorted[i - 1].as_slice(), sorted[i].as_slice());
        if !again {
            let file = bytes_in(sorted[i].as_slice(), 0, sorted[i].len());
            assert(file@ =~= sorted@[i as int]@);
            r.push(file);
            assert(name_views(r@) =~= before.push(file@));
        }
        i += 1;
    }
    assert(all.take(sorted@.len() as int) =~= all);
    r
}

proof fn lemma_shorter(s: Seq<Seq<u8>>)
    requires
        in_order::<Vec<u8>>(s),
        s.len() > 0,
    ensures
        in_order::<Vec<u8>>(s.drop_last()),
{
    let t = s.drop_last();
    assert forall|i: int, j: int| #![trigger t[i], t[j]] 0 <= i < j < t.len() implies !Vec::<u8>::ranks_before(
        t[j],
        t[i],
    ) by {
        assert(t[i] == s[i] && t[j] == s[j]);
    }
}

/// The last path of a sorted list is behind all others, where it is not the
/// same as the one before it.
proof fn lemma_new_last(s: Seq<Seq<u8>>, k: int)
    requires
        in_order::<Vec<u8>>(s),
        0 <= k < s.len() - 1,
        !same_parts(s[s.len() - 2], s.last()),
    ensures
        path_before(s[k], s.last()),
{
    let n = s.len() - 1;
    let e = s[n];
    let before = s[n - 1];
    path_order(before, e, e);
    assert(!Vec::<u8>::ranks_before(e, before));
    if k < n - 1 {
        assert(!Vec::<u8>::ranks_before(before, s[k]));
        path_order(s[k], before, e);
        lemma_same_before(s[k], before, e);
    }
}

proof fn lemma_has_more(s: Seq<Seq<u8>>, e: Seq<u8>, p: Seq<u8>)
    ensures
        has(s, p) ==> has(s.push(e), p),
        has_first(s, p) ==> has_first(s.push(e), p),
        same_parts(e, p) ==> has(s.push(e), p),
{
    let all = s.push(e);
    assert(all[s.len() as int] == e);
    if has(s, p) {
        let i = choose|i: int| 0 <= i < s.len() && same_parts(#[trigger] s[i], p);
        assert(all[i] == s[i]);
    }
    if has_first(s, p) {
        let k = choose|k: int|
            {
                &&& 0 <= k < s.len()
                &&& #[trigger] s[k] == p
                &&& forall|m: int| 0 <= m < k ==> !same_parts(#[trigger] s[m], p)
            };
        assert(all[k] == p);
        assert forall|m: int| 0 <= m < k implies !same_parts(#[trigger] all[m], p) by {
            assert(all[m] == s[m]);
        }
    }
}

/// What `once` keeps of a sorted list: its paths in strict order, each that is
/// there, in the way that it is written there first.
proof fn lemma_once(s: Seq<Seq<u8>>)
    requires
        in_order::<Vec<u8>>(s),
    ensures
        lists(once(s), s),
        s.len() > 0 ==> once(s).len() > 0 && same_parts(once(s).last(), s.last()),
    decreases s.len(),
{
    if s.len() > 0 {
        let t = s.drop_last();
        lemma_shorter(s);
        lemma_once(t);
        assert(s =~= t.push(s.last()));
        if s.len() > 1 && same_parts(s[s.len() - 2], s.last()) {
            assert(t.last() == s[s.len() - 2]);
            lemma_once_again(t, s.last());
        } else {
            assert forall|k: int| 0 <= k < t.len() implies path_before(#[trigger] t[k], s.last()) by {
                lemma_new_last(s, k);
            }
            lemma_once_new(t, s.last());
        }
    }
}

proof fn lemma_once_again(t: Seq<Seq<u8>>, e: Seq<u8>)
    requires
        t.len() > 0,
        lists(once(t), t),
        once(t).len() > 0,
        same_parts(once(t).last(), t.last()),
        same_parts(t.last(), e),
    ensures
        lists(once(t), t.push(e)),
{
    let r = once(t);
    let s = t.push(e);
    assert forall|i: int| 0 <= i < r.len() implies #[trigger] has_first(s, r[i]) by {
        lemma_has_more(t, e, r[i]);
    }
    assert forall|k: int| 0 <= k < s.len() implies #[trigger] has(r, s[k]) by {
        if k < t.len() {
            assert(t[k] == s[k]);
        } else {
            assert(same_parts(r[r.len() - 1], s[k]));
        }
    }
}

proof fn lemma_once_new(t: Seq<Seq<u8>>, e: Seq<u8>)
    requires
        lists(once(t), t),
        forall|k: int| 0 <= k < t.len() ==> path_before(#[trigger] t[k], e),
    ensures
        lists(once(t).push(e), t.push(e)),
{
    let r = once(t);
    let s = t.push(e);
    let all = r.push(e);
    assert forall|k: int| 0 <= k < s.len() implies #[trigger] has(all, s[k]) by {
        lemma_has_more(r, e, s[k]);
        if k < t.len() {
            assert(t[k] == s[k]);
        }
    }
    assert forall|i: int| 0 <= i < all.len() implies #[trigger] has_first(s, all[i]) by {
        if i < r.len() {
            assert(has_first(t, r[i]));
            lemma_has_more(t, e, r[i]);
        } else {
            assert(s[t.len() as int] == e);
            assert forall|m: int| 0 <= m < t.len() implies !same_parts(#[trigger] s[m], e) by {
                assert(path_before(t[m], e));
                path_order(t[m], e, e);
            }
        }
    }
    assert forall|i: int, j: int| #![trigger all[i], all[j]] 0 <= i < j < all.len() implies path_before(
        all[i],
        all[j],
    ) by {
        assert(all[i] == r[i]);
        if j < r.len() {
            assert(all[j] == r[j]);
        } else {
            assert(has_first(t, r[i]));
            let k = choose|k: int|
                {
                    &&& 0 <= k < t.len()
                    &&& #[trigger] t[k] == r[i]
                    &&& forall|m: int| 0 <= m < k ==> !same_parts(#[trigger] t[m], r[i])
                };
            assert(path_before(t[k], e));
        }
    }
}

/// A list of a sorted list is a list of what was sorted.
proof fn lemma_lists_sorted(r: Seq<Seq<u8>>, sorted: Seq<Seq<u8>>, files: Seq<Seq<u8>>)
    requires
        lists(r, sorted),
        sorted_from::<Vec<u8>>(sorted, files),
    ensures
        lists(r, files),
{
    assert forall|k: int| 0 <= k < files.len() implies #[trigger] has(r, files[k]) by {
        let p = files[k];
        assert(same_parts(files[k], p));
        assert(has(files, p));
        lemma_in_sorted(sorted, files, p);
        let m = choose|m: int| 0 <= m < sorted.len() && same_parts(#[trigger] sorted[m], p);
        assert(has(r, sorted[m]));
        let i = choose|i: int| 0 <= i < r.len() && same_parts(#[trigger] r[i], sorted[m]);
        assert(same_parts(r[i], p));
    }
    assert forall|i: int| 0 <= i < r.len() implies #[trigger] has_first(files, r[i]) by {
        let x = r[i];
        lemma_tied_is_same();
        assert(has_first(sorted, x));
        let at = choose|k: int|
            {
                &&& 0 <= k < sorted.len()
                &&& #[trigger] sorted[k] == x
                &&& forall|m: int| 0 <= m < k ==> !same_parts(#[trigger] sorted[m], x)
            };
        assert forall|m: int| 0 <= m < at implies !tied::<Vec<u8>>(#[trigger] sorted[m], x) by {}
        assert(tied::<Vec<u8>>(sorted[at], x));
        lemma_first_tie::<Vec<u8>>(sorted, x, at);
        assert(ties::<Vec<u8>>(sorted, x) == ties::<Vec<u8>>(files, x));
        let k = lemma_first_of(files, x);
        lemma_first_tie::<Vec<u8>>(files, x, k);
        assert(files[k] == x);
        assert forall|m: int| 0 <= m < k implies !same_parts(#[trigger] files[m], x) by {
            assert(!tied::<Vec<u8>>(files[m], x));
        }
    }
}

/// The first value of a rank that is there.
proof fn lemma_first_of(files: Seq<Seq<u8>>, x: Seq<u8>) -> (k: int)
    requires
        ties::<Vec<u8>>(files, x).len() > 0,
    ensures
        0 <= k < files.len(),
        tied::<Vec<u8>>(files[k], x),
        forall|m: int| 0 <= m < k ==> !tied::<Vec<u8>>(#[trigger] files[m], x),
    decreases files.len(),
{
    lemma_some_tie::<Vec<u8>>(files, x);
    let n = choose|n: int| 0 <= n < files.len() && tied::<Vec<u8>>(#[trigger] files[n], x);
    let front = files.take(n);
    if ties::<Vec<u8>>(front, x).len() > 0 {
        let k = lemma_first_of(front, x);
        assert forall|m: int| 0 <= m < k implies !tied::<Vec<u8>>(#[trigger] files[m], x) by {
            assert(front[m] == files[m]);
        }
        assert(front[k] == files[k]);
        k
    } else {
        lemma_some_tie::<Vec<u8>>(front, x);
        assert forall|m: int| 0 <= m < n implies !tied::<Vec<u8>>(#[trigger] files[m], x) by {
            assert(front[m] == files[m]);
        }
        n
    }
}

/// Works out which files to parse: those found, without a leading `./`, in
/// order and each once.
pub fn discover_files(found: Found) -> (r: Vec<Vec<u8>>)
    ensures
        lists(name_views(r@), all_normalized(candidates(found))),
{
    let ghost wanted = candidates(found);
    let files = match found {
        Found::Listed(files) => files,
        Found::Given(given) => list_given(given),
        Found::GivenChanged(given, changed) => keep_changed(list_given(given), &changed),
    };
    let names = normalize_all(&files);
    let sorted = sort(names);
    assert(value_views(sorted@) =~= name_views(sorted@));
    assert(value_views(names@) =~= name_views(names@));
    let r = each_once(&sorted);
    proof {
        lemma_once(name_views(sorted@));
        lemma_lists_sorted(name_views(r@), name_views(sorted@), all_normalized(wanted));
    }
    r
}

proof fn lemma_listed_in_other(r: Seq<Seq<u8>>, t: Seq<Seq<u8>>, files: Seq<Seq<u8>>, i: int) -> (j: int)
    requires
        lists(r, files),
        lists(t, files),
        0 <= i < r.len(),
    ensures
        0 <= j < t.len(),
        t[j] == r[i],
{
    let x = r[i];
    assert(has_first(files, r[i]));
    let k = choose|k: int|
        {
            &&& 0 <= k < files.len()
            &&& #[trigger] files[k] == x
            &&& forall|m: int| 0 <= m < k ==> !same_parts(#[trigger] files[m], x)
        };
    assert(has(t, files[k]));
    let j = choose|j: int| 0 <= j < t.len() && same_parts(#[trigger] t[j], files[k]);
    let y = t[j];
    assert(has_first(files, t[j]));
    let l = choose|l: int|
        {
            &&& 0 <= l < files.len()
            &&& #[trigger] files[l] == y
            &&& forall|m: int| 0 <= m < l ==> !same_parts(#[trigger] files[m], y)
        };
    if l < k {
        assert(!same_parts(files[l], x));
    }
    if k < l {
        assert(!same_parts(files[k], y));
    }
    j
}

proof fn lemma_listed_alike(r: Seq<Seq<u8>>, t: Seq<Seq<u8>>, files: Seq<Seq<u8>>, n: int)
    requires
        lists(r, files),
        lists(t, files),
        0 <= n <= r.len(),
    ensures
        n <= t.len(),
        forall|i: int| 0 <= i < n ==> r[i] == t[i],
    decreases n,
{
    if n > 0 {
        let i = n - 1;
        lemma_listed_alike(r, t, files, i);
        let j = lemma_listed_in_other(r, t, files, i);
        path_order(r[i], r[i], r[i]);
        if j < i {
            assert(path_before(r[j], r[i]));
        } else if j > i {
            let k = lemma_listed_in_other(t, r, files, i);
            assert(path_before(t[i], t[j]));
            path_order(t[i], t[j], t[i]);
            if k < i {
                assert(t[k] == r[k]);
                assert(path_before(t[k], t[i]));
            } else if k > i {
                assert(path_before(r[i], r[k]));
            }
        }
    }
}

/// Files have one list: the outcome does not depend on how it is made.
pub proof fn listing_has_one_outcome(files: Seq<Seq<u8>>, r: Seq<Seq<u8>>, t: Seq<Seq<u8>>)
    requires
        lists(r, files),
        lists(t, files),
    ensures
        r == t,
{
    lemma_listed_alike(r, t, files, r.len() as int);
    lemma_listed_alike(t, r, files, t.len() as int);
    assert(r =~= t);
}

proof fn lemma_only_changed(files: Seq<Seq<u8>>, changed: Seq<Seq<u8>>, i: int)
    requires
        0 <= i < only_changed(files, changed).len(),
    ensures
        is_changed(changed, only_changed(files, changed)[i]),
    decreases files.len(),
{
    if files.len() > 0 {
        let rest = only_changed(files.drop_last(), changed);
        if i < rest.len() {
            lemma_only_changed(files.drop_last(), changed, i);
        }
    }
}

/// Every file listed is written without a leading `./`, and where only changed
/// files are wanted, Git reports it as changed.
pub proof fn listed_files_are_wanted(
    files: Seq<Seq<u8>>,
    changed: Seq<Seq<u8>>,
    r: Seq<Seq<u8>>,
    i: int,
)
    requires
        lists(r, all_normalized(only_changed(files, changed))),
        0 <= i < r.len(),
    ensures
        !dotted(r[i]),
        is_changed(changed, r[i]),
{
    let kept = only_changed(files, changed);
    assert(has_first(all_normalized(kept), r[i]));
    let k = choose|k: int| 0 <= k < all_normalized(kept).len() && #[trigger] all_normalized(kept)[k] == r[i];
    lemma_only_changed(files, changed, k);
    normalized_path_has_no_leading_dot(kept[k]);
}

/// A file of the command line stands for itself and a directory for all the
/// files in it, in the order in which they were given.
pub proof fn given_paths_stand_for_their_files(given: Seq<Given>, next: Given)
    ensures
        all_files_of(Seq::empty()) == Seq::<Seq<u8>>::empty(),
        next matches Given::File(path) ==> all_files_of(given.push(next)) == all_files_of(given).push(path@),
        next matches Given::Dir(files) ==> all_files_of(given.push(next)) == all_files_of(given) + name_views(files@),
{
    assert(given.push(next).drop_last() =~= given);
    if let Given::File(path) = next {
        assert(all_files_of(given) + seq![path@] =~= all_files_of(given).push(path@));
    }
}

/// A file of the command line is kept, in its place, exactly when one of the
/// changed files is the same path, with or without a leading `./`.
pub proof fn changed_files_are_kept(files: Seq<Seq<u8>>, file: Seq<u8>, changed: Seq<Seq<u8>>)
    ensures
        only_changed(Seq::empty(), changed) == Seq::<Seq<u8>>::empty(),
        (exists|i: int|
            0 <= i < changed.len() && parts(normalized(#[trigger] changed[i])) == parts(normalized(file)))
            ==> only_changed(files.push(file), changed) == only_changed(files, changed).push(file),
        !(exists|i: int|
            0 <= i < changed.len() && parts(normalized(#[trigger] changed[i])) == parts(normalized(file)))
            ==> only_changed(files.push(file), changed) == only_changed(files, changed),
{
    assert(files.push(file).drop_last() =~= files);
    let all = all_normalized(changed);
    if exists|i: int| 0 <= i < changed.len() && parts(normalized(#[trigger] changed[i])) == parts(normalized(file)) {
        let i = choose|i: int|
            0 <= i < changed.len() && parts(normalized(#[trigger] changed[i])) == parts(normalized(file));
        assert(same_parts(all[i], normalized(file)));
    }
    if is_changed(changed, file) {
        let i = choose|i: int| 0 <= i < all.len() && same_parts(#[trigger] all[i], normalized(file));
        assert(parts(normalized(changed[i])) == parts(normalized(file)));
    }
}

/// Every file that is wanted is listed, once, and no other.
pub proof fn every_wanted_file_is_listed_once(files: Seq<Seq<u8>>, r: Seq<Seq<u8>>, k: int)
    requires
        lists(r, all_normalized(files)),
        0 <= k < files.len(),
    ensures
        exists|i: int| 0 <= i < r.len() && parts(#[trigger] r[i]) == parts(normalized(files[k])),
        forall|i: int, j: int|
            #![trigger r[i], r[j]]
            0 <= i < r.len() && 0 <= j < r.len() && parts(r[i]) == parts(r[j]) ==> i == j,
        forall|i: int|
            #![trigger r[i]]
            0 <= i < r.len() ==> exists|m: int| 0 <= m < files.len() && r[i] == normalized(#[trigger] files[m]),
{
    let all = all_normalized(files);
    assert(has(r, all[k]));
    let i = choose|i: int| 0 <= i < r.len() && same_parts(#[trigger] r[i], all[k]);
    assert(parts(r[i]) == parts(normalized(files[k])));
    assert forall|i: int, j: int|
        #![trigger r[i], r[j]]
        0 <= i < r.len() && 0 <= j < r.len() && parts(r[i]) == parts(r[j]) implies i == j by {
        path_order(r[i], r[j], r[i]);
        path_order(r[j], r[i], r[j]);
        if i < j {
            assert(path_before(r[i], r[j]));
        } else if j < i {
            assert(path_before(r[j], r[i]));
        }
    }
    assert forall|i: int| #![trigger r[i]] 0 <= i < r.len() implies exists|m: int|
        0 <= m < files.len() && r[i] == normalized(#[trigger] files[m]) by {
        assert(has_first(all, r[i]));
        let m = choose|m: int|
            {
                &&& 0 <= m < all.len()
                &&& #[trigger] all[m] == r[i]
                &&& forall|n: int| 0 <= n < m ==> !same_parts(#[trigger] all[n], r[i])
            };
        assert(normalized(files[m]) == r[i]);
    }
}

/// The files to parse are those that Git lists, or those that the command line
/// stands for, or of these the changed ones.
pub proof fn candidates_are_what_was_found(files: Vec<Vec<u8>>, given: Vec<Given>)
    ensures
        candidates(Found::Listed(files)) == name_views(files@),
        candidates(Found::Given(given)) == all_files_of(given@),
        candidates(Found::GivenChanged(given, files)) == only_changed(all_files_of(given@), name_views(files@)),
{
}

} // verus!
