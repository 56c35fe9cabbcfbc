//! The layered configuration of directories: which files it comes from, which
//! of them are still to be read, and what it resolves to.
//!
//! The loader reads no files itself. Asked for the configuration of a
//! directory, it either has it or names the directory whose configuration file
//! it needs first; what was found there is then handed back to it.

use vstd::prelude::*;

use crate::config::{resolve, ConfigFile, Resolved, CONFIG_FILE_NAME};
use crate::paths::{
    absolute, bytes_in, copy_names, locate, names_begin_with, parts_of, render, same_names, PathPart,
};

#[allow(unused_imports)]
use crate::config::{layer_views, resolved, ConfigView, ResolvedView};
#[allow(unused_imports)]
use crate::paths::{
    absolute_names, is_name, joined_path_has_the_name_last, located, name_views, part_views, parts, path_joined,
    rendered, rooted, Part,
};
#[allow(unused_imports)]
use crate::sort::value_views;
#[allow(unused_imports)]
use crate::text::{lemma_span, lemma_span_is, span};

verus! {

/// What was found in the place of a configuration file.
pub open spec fn config_view(found: Option<ConfigFile>) -> Option<ConfigView> {
    match found {
        Some(config) => Some(config@),
        None => None,
    }
}

/// Each directory's way by its names.
pub open spec fn dir_views(dirs: Seq<Vec<Vec<u8>>>) -> Seq<Seq<Seq<u8>>> {
    Seq::new(dirs.len(), |i: int| name_views(dirs[i]@))
}

/// The first value listed for each directory.
pub open spec fn first_listed<W>(dirs: Seq<Seq<Seq<u8>>>, values: Seq<W>) -> Map<Seq<Seq<u8>>, W> {
    Map::new(
        |dir: Seq<Seq<u8>>| span(dirs, dir) < dirs.len(),
        |dir: Seq<Seq<u8>>| values[span(dirs, dir) as int],
    )
}

/// The directories whose configuration files apply in `dir`, outermost first:
/// from `root` down to `dir`, or `dir` alone where it does not lie in `root`.
pub open spec fn chain(root: Seq<Seq<u8>>, dir: Seq<Seq<u8>>) -> Seq<Seq<Seq<u8>>> {
    if root.is_prefix_of(dir) {
        Seq::new((dir.len() - root.len() + 1) as nat, |i: int| dir.take(root.len() + i))
    } else {
        seq![dir]
    }
}

/// How many of the directories `dirs` have been read before the first that has
/// not.
pub open spec fn read_ahead(
    files: Map<Seq<Seq<u8>>, Option<ConfigView>>,
    dirs: Seq<Seq<Seq<u8>>>,
) -> nat
    decreases dirs.len(),
{
    if dirs.len() == 0 || !files.dom().contains(dirs[0]) {
        0
    } else {
        1 + read_ahead(files, dirs.skip(1))
    }
}

/// The configurations found in `dirs`, in order.
pub open spec fn found_in(
    files: Map<Seq<Seq<u8>>, Option<ConfigView>>,
    dirs: Seq<Seq<Seq<u8>>>,
) -> Seq<ConfigView>
    decreases dirs.len(),
{
    if dirs.len() == 0 {
        Seq::empty()
    } else {
        let outer = found_in(files, dirs.drop_last());
        match files[dirs.last()] {
            Some(config) => outer.push(config),
            None => outer,
        }
    }
}

/// What a [`Loader`] knows.
pub struct LoaderView {
    /// The working directory.
    pub cwd: Seq<Seq<u8>>,
    /// Where the search upward stops; none where no path was given for it.
    pub root: Option<Seq<Seq<u8>>>,
    /// The base layer.
    pub defaults: ConfigView,
    /// What was found in the directories read so far.
    pub files: Map<Seq<Seq<u8>>, Option<ConfigView>>,
}

impl LoaderView {
    /// The directories whose configuration files apply in `dir`.
    pub open spec fn chain(self, dir: Seq<Seq<u8>>) -> Seq<Seq<Seq<u8>>> {
        chain(self.root->0, dir)
    }

    /// The layers that apply in `dir`: the defaults, and what was found, outermost
    /// first.
    pub open spec fn layers(self, dir: Seq<Seq<u8>>) -> Seq<ConfigView> {
        seq![self.defaults] + found_in(self.files, self.chain(dir))
    }

    /// Whether every file that applies in `dir` has been read.
    pub open spec fn complete(self, dir: Seq<Seq<u8>>) -> bool {
        read_ahead(self.files, self.chain(dir)) == self.chain(dir).len()
    }

    /// The directory that is to be read next for `dir`.
    pub open spec fn next_read(self, dir: Seq<Seq<u8>>) -> Seq<Seq<u8>> {
        self.chain(dir)[read_ahead(self.files, self.chain(dir)) as int]
    }

    /// The directory that contains `file`.
    pub open spec fn dir_of(self, file: Seq<u8>) -> Seq<Seq<u8>> {
        let path = parts(file);
        if path.len() == 0 || path.last() is Root {
            self.cwd
        } else {
            located(self.cwd, path.drop_last())
        }
    }

    /// Whether the files that apply in `dir` have all been read and give it the
    /// configuration `config`.
    pub open spec fn gives(self, dir: Seq<Seq<u8>>, config: ResolvedView) -> bool {
        &&& self.root is Some
        &&& self.complete(dir)
        &&& config == resolved(self.layers(dir))
    }

    /// Whether `r` answers the question for the configuration of `dir`.
    pub open spec fn answers(self, dir: Seq<Seq<u8>>, r: Lookup) -> bool {
        match r {
            Lookup::NoPath => self.root is None,
            Lookup::Read(next) => {
                &&& self.root is Some
                &&& !self.complete(dir)
                &&& name_views(next@) == self.next_read(dir)
            },
            Lookup::Ready(config) => self.gives(dir, config@),
        }
    }
}

/// The answer to a question for the configuration of a directory.
#[derive(Debug)]
pub enum Lookup {
    /// The configuration.
    Ready(Resolved),
    /// The directory whose configuration file is to be read first.
    Read(Vec<Vec<u8>>),
    /// An empty path leads to no directory.
    NoPath,
}

/// What is cached after a directory was asked about: an answer with its
/// configuration is kept.
pub open spec fn kept_answer(
    cached: Map<Seq<Seq<u8>>, ResolvedView>,
    dir: Seq<Seq<u8>>,
    r: Lookup,
) -> Map<Seq<Seq<u8>>, ResolvedView> {
    match r {
        Lookup::Ready(config) => cached.insert(dir, config@),
        _ => cached,
    }
}

/// Loads and caches the layered configuration for directories.
#[derive(Debug)]
pub struct Loader {
    cwd: Vec<Vec<u8>>,
    root: Option<Vec<Vec<u8>>>,
    defaults: ConfigFile,
    read_dirs: Vec<Vec<Vec<u8>>>,
    read_configs: Vec<Option<ConfigFile>>,
    resolved_dirs: Vec<Vec<Vec<u8>>>,
    resolved_configs: Vec<Resolved>,
}

impl View for Loader {
    type V = LoaderView;

    closed spec fn view(&self) -> LoaderView {
        LoaderView {
            cwd: name_views(self.cwd@),
            root: match self.root {
                Some(root) => Some(name_views(root@)),
                None => None,
            },
            defaults: self.defaults@,
            files: first_listed(dir_views(self.read_dirs@), found_views(self.read_configs@)),
        }
    }
}

/// What was found in each place.
spec fn found_views(found: Seq<Option<ConfigFile>>) -> Seq<Option<ConfigView>> {
    Seq::new(found.len(), |i: int| config_view(found[i]))
}

proof fn lemma_listed_push<W>(dirs: Seq<Seq<Seq<u8>>>, values: Seq<W>, dir: Seq<Seq<u8>>, value: W)
    requires
        dirs.len() == values.len(),
    ensures
        first_listed(dirs.push(dir), values.push(value)) == if first_listed(dirs, values).dom().contains(dir) {
            first_listed(dirs, values)
        } else {
            first_listed(dirs, values).insert(dir, value)
        },
{
    let before = first_listed(dirs, values);
    let after = first_listed(dirs.push(dir), values.push(value));
    let want = if before.dom().contains(dir) {
        before
    } else {
        before.insert(dir, value)
    };
    assert forall|d: Seq<Seq<u8>>| #![trigger after.dom().contains(d)]
        after.dom().contains(d) == want.dom().contains(d) && (after.dom().contains(d) ==> after[d] == want[d]) by {
        lemma_span(dirs, d);
        let n = span(dirs, d);
        if n < dirs.len() {
            lemma_span_is(dirs.push(dir), d, n);
        } else if d == dir {
            lemma_span_is(dirs.push(dir), d, n);
        } else {
            lemma_span_is(dirs.push(dir), d, n + 1);
        }
    }
    assert(after =~= want);
}

proof fn lemma_read_ahead(files: Map<Seq<Seq<u8>>, Option<ConfigView>>, dirs: Seq<Seq<Seq<u8>>>)
    ensures
        read_ahead(files, dirs) <= dirs.len(),
        forall|i: int| 0 <= i < read_ahead(files, dirs) ==> files.dom().contains(#[trigger] dirs[i]),
        read_ahead(files, dirs) < dirs.len() ==> !files.dom().contains(dirs[read_ahead(files, dirs) as int]),
    decreases dirs.len(),
{
    if dirs.len() > 0 && files.dom().contains(dirs[0]) {
        lemma_read_ahead(files, dirs.skip(1));
        assert forall|i: int| 0 <= i < read_ahead(files, dirs) implies files.dom().contains(#[trigger] dirs[i]) by {
            if i > 0 {
                assert(dirs.skip(1)[i - 1] == dirs[i]);
            }
        }
    }
}

proof fn lemma_read_ahead_is(files: Map<Seq<Seq<u8>>, Option<ConfigView>>, dirs: Seq<Seq<Seq<u8>>>, n: nat)
    requires
        n <= dirs.len(),
        forall|i: int| 0 <= i < n ==> files.dom().contains(#[trigger] dirs[i]),
        n < dirs.len() ==> !files.dom().contains(dirs[n as int]),
    ensures
        read_ahead(files, dirs) == n,
{
    lemma_read_ahead(files, dirs);
}

/// More readings change nothing where all was read.
proof fn lemma_found_in(
    files: Map<Seq<Seq<u8>>, Option<ConfigView>>,
    more: Map<Seq<Seq<u8>>, Option<ConfigView>>,
    dirs: Seq<Seq<Seq<u8>>>,
)
    requires
        forall|i: int| 0 <= i < dirs.len() ==> more[#[trigger] dirs[i]] == files[dirs[i]],
    ensures
        found_in(more, dirs) == found_in(files, dirs),
    decreases dirs.len(),
{
    if dirs.len() > 0 {
        let outer = dirs.drop_last();
        assert forall|i: int| 0 <= i < outer.len() implies more[#[trigger] outer[i]] == files[outer[i]] by {
            assert(outer[i] == dirs[i]);
        }
        lemma_found_in(files, more, outer);
        assert(dirs[dirs.len() - 1] == dirs.last());
    }
}

/// The position of the first `dir` in `dirs`, or their number.
fn place_of(dirs: &Vec<Vec<Vec<u8>>>, dir: &Vec<Vec<u8>>) -> (r: usize)
    ensures
        r <= dirs@.len(),
        r == span(dir_views(dirs@), name_views(dir@)),
{
    let mut i: usize = 0;
    while i < dirs.len() && !same_names(&dirs[i], dir)
        invariant
            i <= dirs@.len(),
            forall|j: int| 0 <= j < i ==> dir_views(dirs@)[j] != name_views(dir@),
        decreases dirs.len() - i,
    {
        i += 1;
    }
    proof {
        lemma_span_is(dir_views(dirs@), name_views(dir@), i as nat);
    }
    i
}

/// A copy of what was found in the place of a configuration file.
fn copy_found(found: &Option<ConfigFile>) -> (r: Option<ConfigFile>)
    ensures
        config_view(r) == config_view(*found),
{
    match found {
        Some(config) => Some(config.clone()),
        None => None,
    }
}

/// The first `n` names of a way.
fn take_names(names: &Vec<Vec<u8>>, n: usize) -> (r: Vec<Vec<u8>>)
    requires
        n <= names@.len(),
    ensures
        name_views(r@) == name_views(names@).take(n as int),
{
    let mut r: Vec<Vec<u8>> = Vec::new();
    let mut i: usize = 0;
    while i < n
        invariant
            i <= n <= names@.len(),
            r@.len() == i,
            forall|j: int| 0 <= j < i ==> (#[trigger] r@[j])@ == names@[j]@,
        decreases n - i,
    {
        let name = bytes_in(names[i].as_slice(), 0, names[i].len());
        assert(name@ =~= names@[i as int]@);
        r.push(name);
        i += 1;
    }
    assert(name_views(r@) =~= name_views(names@).take(n as int));
    r
}

/// The directories whose configuration files apply in `dir`, outermost first.
fn chain_of(root: &Vec<Vec<u8>>, dir: &Vec<Vec<u8>>) -> (r: Vec<Vec<Vec<u8>>>)
    ensures
        dir_views(r@) == chain(name_views(root@), name_views(dir@)),
{
    let mut r: Vec<Vec<Vec<u8>>> = Vec::new();
    if !names_begin_with(dir, root) {
        r.push(copy_names(dir));
        assert(dir_views(r@) =~= seq![name_views(dir@)]);
        return r;
    }
    let mut n: usize = root.len();
    while n < dir.len()
        invariant
            root@.len() <= n <= dir@.len(),
            r@.len() == n - root@.len(),
            forall|j: int|
                0 <= j < r@.len() ==> #[trigger] name_views(r@[j]@) == name_views(dir@).take(root@.len() + j),
        decreases dir@.len() - n,
    {
        r.push(take_names(dir, n));
        n += 1;
    }
    r.push(take_names(dir, n));
    assert(dir_views(r@) =~= chain(name_views(root@), name_views(dir@)));
    r
}

impl Loader {
    /// Every cached configuration is the one that the readings give.
    pub closed spec fn wf(&self) -> bool {
        &&& self.read_dirs@.len() == self.read_configs@.len()
        &&& self.resolved_dirs@.len() == self.resolved_configs@.len()
        &&& forall|i: int|
            0 <= i < self.resolved_dirs@.len() ==> self@.gives(
                name_views((#[trigger] self.resolved_dirs@[i])@),
                self.resolved_configs@[i]@,
            )
    }

    /// The configurations cached so far, by their directories.
    pub closed spec fn cached(&self) -> Map<Seq<Seq<u8>>, ResolvedView> {
        first_listed(dir_views(self.resolved_dirs@), value_views(self.resolved_configs@))
    }

    /// Creates a loader that applies `defaults` first and stops searching
    /// upward for `.commentlint.toml` files at `root` (normally the working
    /// directory `cwd`, whose absolute path is given).
    pub fn new(cwd: &[u8], root: &[u8], defaults: ConfigFile) -> (r: Self)
        requires
            rooted(cwd@),
        ensures
            r.wf(),
            r@ == (LoaderView {
                cwd: absolute_names(cwd@),
                root: if root@.len() == 0 {
                    None
                } else {
                    Some(located(absolute_names(cwd@), parts(root@)))
                },
                defaults: defaults@,
                files: Map::empty(),
            }),
            r.cached() == Map::<Seq<Seq<u8>>, ResolvedView>::empty(),
    {
        let base = absolute(cwd);
        let path = parts_of(root);
        assert(part_views(path@).take(path@.len() as int) =~= part_views(path@));
        let top = if root.len() == 0 {
            None
        } else {
            Some(locate(&base, &path, path.len()))
        };
        let r = Loader {
            cwd: base,
            root: top,
            defaults,
            read_dirs: Vec::new(),
            read_configs: Vec::new(),
            resolved_dirs: Vec::new(),
            resolved_configs: Vec::new(),
        };
        assert(r@.files =~= Map::<Seq<Seq<u8>>, Option<ConfigView>>::empty());
        assert(r.cached() =~= Map::<Seq<Seq<u8>>, ResolvedView>::empty());
        r
    }

    /// Resolves the configuration for the directory containing `file`.
    pub fn for_file(&mut self, file: &[u8]) -> (r: Lookup)
        requires
            old(self).wf(),
        ensures
            final(self).wf(),
            final(self)@ == old(self)@,
            old(self)@.answers(old(self)@.dir_of(file@), r),
            final(self).cached() == kept_answer(old(self).cached(), old(self)@.dir_of(file@), r),
    {
        let path = parts_of(file);
        let n: usize = if path.len() == 0 {
            0
        } else {
            path.len() - 1
        };
        let rootless = match path.last() {
            Some(PathPart::Root) => false,
            _ => true,
        };
        proof {
            if path@.len() > 0 {
                assert(part_views(path@).last() == path@.last()@);
                assert(part_views(path@).take(n as int) =~= part_views(path@).drop_last());
            } else {
                assert(part_views(path@).take(0) =~= Seq::<Part>::empty());
            }
        }
        let dir = if rootless {
            locate(&self.cwd, &path, n)
        } else {
            copy_names(&self.cwd)
        };
        self.look_up(dir)
    }

    /// Resolves the configuration for a directory.
    pub fn for_dir(&mut self, dir: &[u8]) -> (r: Lookup)
        requires
            old(self).wf(),
        ensures
            final(self).wf(),
            final(self)@ == old(self)@,
            if dir@.len() == 0 {
                r is NoPath
            } else {
                old(self)@.answers(located(old(self)@.cwd, parts(dir@)), r)
            },
            final(self).cached() == kept_answer(old(self).cached(), located(old(self)@.cwd, parts(dir@)), r),
    {
        if dir.len() == 0 {
            return Lookup::NoPath;
        }
        let path = parts_of(dir);
        assert(part_views(path@).take(path@.len() as int) =~= part_views(path@));
        let names = locate(&self.cwd, &path, path.len());
        self.look_up(names)
    }

    /// Resolves the configuration for the directory at the end of a way.
    fn look_up(&mut self, dir: Vec<Vec<u8>>) -> (r: Lookup)
        requires
            old(self).wf(),
        ensures
            final(self).wf(),
            final(self)@ == old(self)@,
            old(self)@.answers(name_views(dir@), r),
            final(self).cached() == kept_answer(old(self).cached(), name_views(dir@), r),
    {
        let root = match &self.root {
            Some(root) => copy_names(root),
            None => {
                return Lookup::NoPath;
            },
        };
        let ghost names = name_views(dir@);
        let cached: usize = place_of(&self.resolved_dirs, &dir);
        proof {
            lemma_span(dir_views(self.resolved_dirs@), names);
        }
        if cached < self.resolved_dirs.len() {
            assert(dir_views(self.resolved_dirs@)[cached as int] == names);
            assert(name_views(self.resolved_dirs@[cached as int]@) == names);
            let config = self.resolved_configs[cached].clone();
            assert(self.cached().insert(names, config@) =~= self.cached());
            return Lookup::Ready(config);
        }
        let dirs = chain_of(&root, &dir);
        assert(dir_views(dirs@) == self@.chain(names));
        let read: usize = self.count_read(&dirs);
        if read < dirs.len() {
            assert(dir_views(dirs@)[read as int] == name_views(dirs@[read as int]@));
            return Lookup::Read(copy_names(&dirs[read]));
        }
        let layers = self.gather(&dirs);
        let config = resolve(layers.as_slice());
        self.keep(dir, config.clone());
        Lookup::Ready(config)
    }

    /// How many of the directories have been read before the first that has not.
    fn count_read(&self, dirs: &Vec<Vec<Vec<u8>>>) -> (r: usize)
        requires
            self.wf(),
        ensures
            r == read_ahead(self@.files, dir_views(dirs@)),
            r <= dirs@.len(),
    {
        let ghost all = dir_views(dirs@);
        let mut i: usize = 0;
        while i < dirs.len()
            invariant
                self.wf(),
                all == dir_views(dirs@),
                i <= dirs@.len(),
                forall|j: int| 0 <= j < i ==> self@.files.dom().contains(#[trigger] all[j]),
            decreases dirs.len() - i,
        {
            let at: usize = place_of(&self.read_dirs, &dirs[i]);
            assert(all[i as int] == name_views(dirs@[i as int]@));
            if at >= self.read_dirs.len() {
                proof {
                    lemma_read_ahead_is(self@.files, all, i as nat);
                }
                return i;
            }
            i += 1;
        }
        proof {
            lemma_read_ahead_is(self@.files, all, all.len());
        }
        i
    }

    /// The layers that the directories give, which have all been read.
    fn gather(&self, dirs: &Vec<Vec<Vec<u8>>>) -> (r: Vec<ConfigFile>)
        requires
            self.wf(),
            read_ahead(self@.files, dir_views(dirs@)) == dirs@.len(),
        ensures
            layer_views(r@) == seq![self@.defaults] + found_in(self@.files, dir_views(dirs@)),
    {
        let ghost all = dir_views(dirs@);
        let ghost files = self@.files;
        let mut r: Vec<ConfigFile> = Vec::new();
        r.push(self.defaults.clone());
        proof {
            lemma_read_ahead(files, all);
            assert(layer_views(r@) =~= seq![self@.defaults] + found_in(files, all.take(0)));
        }
        let mut i: usize = 0;
        while i < dirs.len()
            invariant
                self.wf(),
                all == dir_views(dirs@),
                files == self@.files,
                forall|j: int| 0 <= j < all.len() ==> files.dom().contains(#[trigger] all[j]),
                i <= dirs@.len(),
                layer_views(r@) == seq![self@.defaults] + found_in(files, all.take(i as int)),
            decreases dirs.len() - i,
        {
            let at: usize = place_of(&self.read_dirs, &dirs[i]);
            assert(all[i as int] == name_views(dirs@[i as int]@));
            let found = copy_found(&self.read_configs[at]);
            let ghost before = layer_views(r@);
            proof {
                let next = all.take(i + 1);
                assert(next.drop_last() =~= all.take(i as int));
                assert(next.last() == all[i as int]);
                assert(files[all[i as int]] == config_view(found));
            }
            if let Some(config) = found {
                r.push(config);
                assert(layer_views(r@) =~= before.push(config@));
                assert(before.push(config@) =~= seq![self@.defaults] + found_in(files, all.take(i + 1)));
            }
            i += 1;
        }
        assert(all.take(dirs@.len() as int) =~= all);
        r
    }

    /// Caches the configuration of a directory.
    fn keep(&mut self, dir: Vec<Vec<u8>>, config: Resolved)
        requires
            old(self).wf(),
            old(self)@.gives(name_views(dir@), config@),
        ensures
            final(self).wf(),
            final(self)@ == old(self)@,
            final(self).cached() == old(self).cached().insert(name_views(dir@), config@),
    {
        let ghost before = *self;
        let ghost d = name_views(dir@);
        let ghost c = config@;
        self.resolved_dirs.push(dir);
        self.resolved_configs.push(config);
        proof {
            let dirs = dir_views(before.resolved_dirs@);
            assert(dir_views(self.resolved_dirs@) =~= dirs.push(d));
            assert(value_views(self.resolved_configs@) =~= value_views(before.resolved_configs@).push(c));
            lemma_listed_push(dirs, value_views(before.resolved_configs@), d, c);
            if before.cached().dom().contains(d) {
                lemma_span(dirs, d);
                let i = span(dirs, d) as int;
                assert(name_views(before.resolved_dirs@[i]@) == d);
                assert(before@.gives(d, before.resolved_configs@[i]@));
                assert(before.cached().insert(d, c) =~= before.cached());
            }
        }
    }

    /// Takes down what was found in a directory: a configuration, or no file. A
    /// directory that was read before keeps its first reading.
    pub fn record(&mut self, dir: Vec<Vec<u8>>, found: Option<ConfigFile>)
        requires
            old(self).wf(),
        ensures
            final(self).wf(),
            final(self)@ == (LoaderView {
                files: if old(self)@.files.dom().contains(name_views(dir@)) {
                    old(self)@.files
                } else {
                    old(self)@.files.insert(name_views(dir@), config_view(found))
                },
                ..old(self)@
            }),
            final(self).cached() == old(self).cached(),
    {
        let ghost before = *self;
        let ghost d = name_views(dir@);
        let ghost f = config_view(found);
        self.read_dirs.push(dir);
        self.read_configs.push(found);
        proof {
            assert(dir_views(self.read_dirs@) =~= dir_views(before.read_dirs@).push(d));
            assert(found_views(self.read_configs@) =~= found_views(before.read_configs@).push(f));
            lemma_listed_push(dir_views(before.read_dirs@), found_views(before.read_configs@), d, f);
            assert forall|j: int| 0 <= j < self.resolved_dirs@.len() implies self@.gives(
                name_views((#[trigger] self.resolved_dirs@[j])@),
                self.resolved_configs@[j]@,
            ) by {
                let x = name_views(before.resolved_dirs@[j]@);
                let dirs = before@.chain(x);
                assert(before@.gives(x, before.resolved_configs@[j]@));
                lemma_read_ahead(before@.files, dirs);
                lemma_read_ahead_is(self@.files, dirs, dirs.len());
                lemma_found_in(before@.files, self@.files, dirs);
            }
        }
    }
}

/// The path of the configuration file of a directory.
pub open spec fn config_file(dir: Seq<Seq<u8>>) -> Seq<u8> {
    rendered(dir.push(vstd::utf8::encode_utf8(CONFIG_FILE_NAME@)))
}

/// The path of the configuration file of a directory.
pub fn config_path(dir: &Vec<Vec<u8>>) -> (r: Vec<u8>)
    ensures
        r@ == config_file(name_views(dir@)),
{
    let mut names = copy_names(dir);
    let ghost before = name_views(names@);
    let bytes = CONFIG_FILE_NAME.as_bytes();
    let name = bytes_in(bytes, 0, bytes.len());
    assert(name@ =~= bytes@);
    names.push(name);
    assert(name_views(names@) =~= before.push(name@));
    render(&names)
}

/// The files that apply in a directory run from the root down to it: the first
/// is that of the root, the last its own, and each lies one name below the one
/// before it. Outside the root its own file alone applies.
pub proof fn chain_runs_from_root_to_dir(root: Seq<Seq<u8>>, dir: Seq<Seq<u8>>)
    ensures
        chain(root, dir).len() > 0,
        chain(root, dir).last() == dir,
        root.is_prefix_of(dir) ==> {
            &&& chain(root, dir)[0] == root
            &&& chain(root, dir).len() == dir.len() - root.len() + 1
            &&& forall|i: int|
                0 <= i < chain(root, dir).len() - 1 ==> (#[trigger] chain(root, dir)[i]) == chain(root, dir)[i
                    + 1].drop_last()
        },
        !root.is_prefix_of(dir) ==> chain(root, dir) == seq![dir],
{
    if root.is_prefix_of(dir) {
        let all = chain(root, dir);
        assert(dir.take(dir.len() as int) =~= dir);
        assert(all[0] =~= root);
        assert forall|i: int| 0 <= i < all.len() - 1 implies (#[trigger] all[i]) == all[i + 1].drop_last() by {
            assert(dir.take(root.len() + i + 1).drop_last() =~= dir.take(root.len() + i));
        }
    }
}

/// In a directory below another one inside the root, the layers of the upper
/// one apply, and after them its own.
pub proof fn subdirectory_adds_its_own_layer(loader: LoaderView, dir: Seq<Seq<u8>>, name: Seq<u8>)
    requires
        loader.root is Some,
        loader.root->0.is_prefix_of(dir),
    ensures
        loader.chain(dir.push(name)) == loader.chain(dir).push(dir.push(name)),
        loader.layers(dir.push(name)) == match loader.files[dir.push(name)] {
            Some(config) => loader.layers(dir).push(config),
            None => loader.layers(dir),
        },
{
    let root = loader.root->0;
    let sub = dir.push(name);
    assert(root =~= sub.subrange(0, root.len() as int));
    let upper = chain(root, dir);
    let lower = chain(root, sub);
    assert forall|i: int| 0 <= i < lower.len() implies lower[i] == upper.push(sub)[i] by {
        if i < upper.len() {
            assert(sub.take(root.len() + i) =~= dir.take(root.len() + i));
        } else {
            assert(sub.take(root.len() + i) =~= sub);
        }
    }
    assert(lower =~= upper.push(sub));
    assert(lower.drop_last() =~= upper);
    if let Some(config) = loader.files[sub] {
        assert(loader.layers(sub) =~= loader.layers(dir).push(config));
    }
}

/// Each reading brings an answer nearer: once the directory asked for has been
/// read, more of the files that apply have been read than before, so that no
/// more readings are asked for than there are directories.
pub proof fn reading_makes_progress(loader: LoaderView, dir: Seq<Seq<u8>>, found: Option<ConfigView>)
    requires
        !loader.complete(dir),
    ensures
        !loader.files.dom().contains(loader.next_read(dir)),
        read_ahead(loader.files.insert(loader.next_read(dir), found), loader.chain(dir)) > read_ahead(
            loader.files,
            loader.chain(dir),
        ),
        read_ahead(loader.files, loader.chain(dir)) < loader.chain(dir).len(),
{
    let dirs = loader.chain(dir);
    let n = read_ahead(loader.files, dirs);
    let next = loader.next_read(dir);
    let more = loader.files.insert(next, found);
    lemma_read_ahead(loader.files, dirs);
    lemma_read_ahead(more, dirs);
    let m = read_ahead(more, dirs);
    if m <= n {
        assert(!more.dom().contains(dirs[m as int]));
        if m < n {
            assert(loader.files.dom().contains(dirs[m as int]));
        }
    }
}

/// Only the files from the root down to a directory matter to it: readings
/// elsewhere leave its configuration as it is.
pub proof fn other_directories_do_not_matter(
    loader: LoaderView,
    dir: Seq<Seq<u8>>,
    other: Seq<Seq<u8>>,
    found: Option<ConfigView>,
)
    requires
        !loader.chain(dir).contains(other),
    ensures
        ({
            let later = LoaderView { files: loader.files.insert(other, found), ..loader };
            &&& later.complete(dir) == loader.complete(dir)
            &&& later.layers(dir) == loader.layers(dir)
        }),
{
    let later = LoaderView { files: loader.files.insert(other, found), ..loader };
    let dirs = loader.chain(dir);
    assert(later.chain(dir) == dirs);
    assert forall|i: int| 0 <= i < dirs.len() implies later.files[#[trigger] dirs[i]] == loader.files[dirs[i]]
        && later.files.dom().contains(dirs[i]) == loader.files.dom().contains(dirs[i]) by {
        assert(dirs.contains(dirs[i]));
    }
    lemma_found_in(loader.files, later.files, dirs);
    lemma_read_ahead(loader.files, dirs);
    lemma_read_ahead_is(later.files, dirs, read_ahead(loader.files, dirs));
}

/// The configuration for a file is that of the directory it lies in.
pub proof fn file_has_the_configuration_of_its_directory(loader: LoaderView, dir: Seq<u8>, name: Seq<u8>)
    requires
        dir.len() > 0,
        is_name(name),
    ensures
        loader.dir_of(path_joined(dir, name)) == located(loader.cwd, parts(dir)),
{
    joined_path_has_the_name_last(dir, name);
    assert(parts(dir).push(Part::Name(name)).drop_last() =~= parts(dir));
}

/// All has been read for a directory exactly when what is found in each
/// directory from the root down to it is known; until then the outermost that
/// is not known is the next to read.
pub proof fn all_is_read_when_every_directory_is(loader: LoaderView, dir: Seq<Seq<u8>>)
    ensures
        loader.complete(dir) <==> forall|i: int|
            0 <= i < loader.chain(dir).len() ==> loader.files.dom().contains(#[trigger] loader.chain(dir)[i]),
        !loader.complete(dir) ==> exists|n: int|
            {
                &&& 0 <= n < loader.chain(dir).len()
                &&& #[trigger] loader.chain(dir)[n] == loader.next_read(dir)
                &&& !loader.files.dom().contains(loader.chain(dir)[n])
                &&& forall|i: int| 0 <= i < n ==> loader.files.dom().contains(#[trigger] loader.chain(dir)[i])
            },
{
    let dirs = loader.chain(dir);
    let n = read_ahead(loader.files, dirs);
    lemma_read_ahead(loader.files, dirs);
    if n < dirs.len() {
        assert(dirs[n as int] == loader.next_read(dir));
    }
}

/// The layers of a directory are the defaults and what was found in each
/// directory from the root down to it, in that order. Outside the root only the
/// directory itself is looked at.
pub proof fn layers_are_what_was_found(
    loader: LoaderView,
    dirs: Seq<Seq<Seq<u8>>>,
    dir: Seq<Seq<u8>>,
    config: ConfigView,
)
    ensures
        loader.layers(dir) == seq![loader.defaults] + found_in(loader.files, loader.chain(dir)),
        loader.root is Some ==> loader.chain(dir) == chain(loader.root->0, dir),
        found_in(loader.files, Seq::empty()) == Seq::<ConfigView>::empty(),
        loader.files[dir] == Some(config) ==> found_in(loader.files, dirs.push(dir)) == found_in(
            loader.files,
            dirs,
        ).push(config),
        loader.files[dir] is None ==> found_in(loader.files, dirs.push(dir)) == found_in(loader.files, dirs),
        loader.root is Some && (loader.root->0 == dir || !loader.root->0.is_prefix_of(dir)) ==> {
            &&& loader.files[dir] == Some(config) ==> loader.layers(dir) == seq![loader.defaults, config]
            &&& loader.files[dir] is None ==> loader.layers(dir) == seq![loader.defaults]
        },
{
    assert(dirs.push(dir).drop_last() =~= dirs);
    if loader.root is Some && (loader.root->0 == dir || !loader.root->0.is_prefix_of(dir)) {
        let own = loader.chain(dir);
        assert(own =~= seq![dir]) by {
            assert(dir.take(dir.len() as int) =~= dir);
        }
        assert(own.drop_last() =~= Seq::<Seq<Seq<u8>>>::empty());
        assert(found_in(loader.files, own.drop_last()) =~= Seq::<ConfigView>::empty());
        if loader.files[dir] == Some(config) {
            assert(found_in(loader.files, own) =~= seq![config]);
            assert(loader.layers(dir) =~= seq![loader.defaults, config]);
        }
        if loader.files[dir] is None {
            assert(found_in(loader.files, own) =~= Seq::<ConfigView>::empty());
            assert(loader.layers(dir) =~= seq![loader.defaults]);
        }
    }
}

/// An answer with a configuration is what the layers of the directory resolve
/// to, once all of them are known; an answer with a directory names one that is
/// not known yet.
pub proof fn answers_go_by_the_layers(loader: LoaderView, dir: Seq<Seq<u8>>, r: Lookup)
    requires
        loader.answers(dir, r),
    ensures
        r matches Lookup::Ready(config) ==> config@ == resolved(loader.layers(dir)) && forall|i: int|
            0 <= i < loader.chain(dir).len() ==> loader.files.dom().contains(#[trigger] loader.chain(dir)[i]),
        r matches Lookup::Read(next) ==> loader.chain(dir).contains(name_views(next@)) && !loader.files.dom().contains(
            name_views(next@),
        ),
        r is NoPath <==> loader.root is None,
{
    all_is_read_when_every_directory_is(loader, dir);
}

/// A file named without a directory has the configuration of the working
/// directory.
pub proof fn bare_name_lies_in_the_working_directory(loader: LoaderView, name: Seq<u8>)
    requires
        is_name(name),
    ensures
        loader.dir_of(name) == loader.cwd,
        loader.dir_of(Seq::empty()) == loader.cwd,
{
    crate::paths::all_other_pieces_are_names(name);
    crate::paths::slashes_part_a_path(seq![0x2eu8], name);
    let none = Seq::<u8>::empty();
    crate::paths::slashes_part_a_path(seq![0x2eu8], none);
    assert(seq![Part::Name(name)].drop_last() =~= Seq::<Part>::empty());
}

/// An answer is kept for the directory that it was given for, and where there is
/// none to keep, nothing changes.
pub proof fn answers_are_kept(kept: Map<Seq<Seq<u8>>, ResolvedView>, dir: Seq<Seq<u8>>, r: Lookup)
    ensures
        r matches Lookup::Ready(config) ==> kept_answer(kept, dir, r) == kept.insert(dir, config@),
        !(r is Ready) ==> kept_answer(kept, dir, r) == kept,
{
}

/// What was found in a directory is what was listed for it first.
pub proof fn first_listing_counts<W>(dirs: Seq<Seq<Seq<u8>>>, values: Seq<W>, i: int)
    requires
        dirs.len() == values.len(),
        0 <= i < dirs.len(),
        forall|k: int| 0 <= k < i ==> #[trigger] dirs[k] != dirs[i],
    ensures
        first_listed(dirs, values).dom().contains(dirs[i]),
        first_listed(dirs, values)[dirs[i]] == values[i],
        forall|dir: Seq<Seq<u8>>| #[trigger] first_listed(dirs, values).dom().contains(dir) ==> dirs.contains(dir),
{
    lemma_span_is(dirs, dirs[i], i as nat);
    assert forall|dir: Seq<Seq<u8>>| #[trigger] first_listed(dirs, values).dom().contains(dir) implies dirs.contains(
        dir,
    ) by {
        lemma_span(dirs, dir);
        assert(dirs[span(dirs, dir) as int] == dir);
    }
}

/// What was found in a place, and the ways to directories, are seen by what they
/// say.
pub proof fn views_are_what_was_found(config: ConfigFile, dirs: Seq<Vec<Vec<u8>>>)
    ensures
        config_view(Some(config)) == Some(config@),
        config_view(None) is None,
        dir_views(dirs).len() == dirs.len(),
        forall|i: int| 0 <= i < dirs.len() ==> #[trigger] dir_views(dirs)[i] == name_views(dirs[i]@),
{
}

/// The directory of a file is where all parts of its path but the last lead,
/// from the working directory.
pub proof fn all_parts_but_the_last_lead_to_the_directory(
    loader: LoaderView,
    file: Seq<u8>,
    path: Seq<Part>,
    last: Part,
)
    requires
        parts(file) == path.push(last),
        !(last is Root),
    ensures
        loader.dir_of(file) == located(loader.cwd, path),
{
    assert(path.push(last).drop_last() =~= path);
}

} // verus!
