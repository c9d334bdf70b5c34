//! What a folder holds: every file by its relative path, and by its name and size.
use vstd::hash_map::StringHashMap;
use vstd::prelude::*;

use crate::paths::{base_name, base_name_of, in_trash, relative_path, relative_to};
use crate::text::{decimal, decimal_is_digits, decimal_is_injective, push_decimal, texts};

verus! {

/// The key that files with the given name and size share.
pub open spec fn name_size_key(name: Seq<char>, size: u64) -> Seq<char> {
    name.push(':') + decimal(size as nat)
}

/// The key of the file at `path` with the given size.
pub open spec fn path_key(path: Seq<char>, size: u64) -> Seq<char> {
    name_size_key(base_name_of(path), size)
}

/// The key of the file at `path` with the given size.
pub fn file_key(path: &str, size: u64) -> (key: String)
    ensures
        key@ == path_key(path@, size),
{
    let mut key = base_name(path);
    key.push(':');
    push_decimal(&mut key, size);
    key
}

/// The contents of a file index.
#[verifier::ext_equal]
pub struct IndexModel {
    /// The size of the file at each relative path.
    pub sizes: Map<Seq<char>, u64>,
    /// The paths entered under each name-and-size key, in the order of their entry.
    pub pools: Map<Seq<char>, Seq<Seq<char>>>,
}

impl IndexModel {
    /// The index of an empty folder.
    pub open spec fn empty() -> IndexModel {
        IndexModel { sizes: Map::empty(), pools: Map::empty() }
    }

    /// The paths entered under `key`.
    pub open spec fn pool(self, key: Seq<char>) -> Seq<Seq<char>> {
        if self.pools.contains_key(key) {
            self.pools[key]
        } else {
            Seq::empty()
        }
    }

    /// The index after the file at `path` is entered with the given size.
    pub open spec fn insert(self, path: Seq<char>, size: u64) -> IndexModel {
        let key = path_key(path, size);
        IndexModel {
            sizes: self.sizes.insert(path, size),
            pools: self.pools.insert(key, self.pool(key).push(path)),
        }
    }

    /// There are finitely many files, every pooled path is that of a file, and every
    /// file stands in the pool of its name and size.
    pub open spec fn valid(self) -> bool {
        &&& self.sizes.dom().finite()
        &&& forall|key: Seq<char>, i: int|
            0 <= i < self.pool(key).len() ==> self.sizes.contains_key(#[trigger] self.pool(key)[i])
        &&& forall|path: Seq<char>| #[trigger]
            self.sizes.contains_key(path) ==> self.pool(path_key(path, self.sizes[path])).contains(
                path,
            )
    }

    /// Every pooled path stands under the key of its own name and size. This holds
    /// unless a path was entered twice, with different sizes.
    pub open spec fn consistent(self) -> bool {
        forall|key: Seq<char>, i: int|
            0 <= i < self.pool(key).len() ==> key == path_key(
                #[trigger] self.pool(key)[i],
                self.sizes[self.pool(key)[i]],
            )
    }
}

/// The files of a folder.
pub struct FileIndex {
    /// The relative paths, each once, in the order of their first entry.
    paths: Vec<String>,
    /// Relative path to file size.
    by_path: StringHashMap<u64>,
    /// Name-and-size key to the position of its pool.
    by_name_size: StringHashMap<usize>,
    /// The relative paths entered under one key.
    pools: Vec<Vec<String>>,
}

impl View for FileIndex {
    type V = IndexModel;

    closed spec fn view(&self) -> IndexModel {
        IndexModel {
            sizes: self.by_path@,
            pools: Map::new(
                |key: Seq<char>| self.by_name_size@.contains_key(key),
                |key: Seq<char>| texts(self.pools@[self.by_name_size@[key] as int]@),
            ),
        }
    }
}

impl FileIndex {
    /// The relative paths, each once, in the order of their first entry.
    pub closed spec fn order(&self) -> Seq<Seq<char>> {
        texts(self.paths@)
    }

    /// Every key leads to a pool of its own.
    pub closed spec fn inv(&self) -> bool {
        &&& forall|key: Seq<char>| #[trigger]
            self.by_name_size@.contains_key(key) ==> self.by_name_size@[key] < self.pools.len()
        &&& forall|k1: Seq<char>, k2: Seq<char>|
            #![trigger self.by_name_size@[k1], self.by_name_size@[k2]]
            self.by_name_size@.contains_key(k1) && self.by_name_size@.contains_key(k2) && k1 != k2
                ==> self.by_name_size@[k1] != self.by_name_size@[k2]
    }

    /// The index is well formed.
    pub open spec fn wf(&self) -> bool {
        &&& self@.valid()
        &&& self.order().no_duplicates()
        &&& self.order().to_set() == self@.sizes.dom()
        &&& self.inv()
    }

    /// An empty index.
    pub fn new() -> (index: FileIndex)
        ensures
            index.wf(),
            index@ == IndexModel::empty(),
    {
        let index = FileIndex {
            paths: Vec::new(),
            by_path: StringHashMap::new(),
            by_name_size: StringHashMap::new(),
            pools: Vec::new(),
        };
        assert(index@ =~= IndexModel::empty());
        assert(index.order().to_set() =~= index@.sizes.dom());
        index
    }

    /// Enters the file at `rel_path` with the given size.
    pub fn insert(&mut self, rel_path: String, size: u64)
        requires
            old(self).wf(),
        ensures
            final(self).wf(),
            final(self)@ == old(self)@.insert(rel_path@, size),
    {
        let ghost before = *self;
        let key = file_key(rel_path.as_str(), size);
        let ghost k = path_key(rel_path@, size);
        match self.by_name_size.get(key.as_str()) {
            Some(at) => {
                let at: usize = *at;
                self.pools[at].push(rel_path.clone());
                assert(texts(self.pools@[at as int]@) =~= before@.pool(k).push(rel_path@));
            },
            None => {
                let mut pool: Vec<String> = Vec::new();
                pool.push(rel_path.clone());
                self.by_name_size.insert(key, self.pools.len());
                self.pools.push(pool);
                assert(texts(pool@) =~= before@.pool(k).push(rel_path@));
            },
        }
        if !self.by_path.contains_key(rel_path.as_str()) {
            self.paths.push(rel_path.clone());
        }
        self.by_path.insert(rel_path, size);
        proof {
            let after = before@.insert(rel_path@, size);
            assert(self@.pools =~= after.pools);
            assert(self@ =~= after);
            insert_keeps_valid(before@, rel_path@, size);
            if before@.sizes.contains_key(rel_path@) {
                assert(self.order() =~= before.order());
                assert(self@.sizes.dom() =~= before@.sizes.dom());
            } else {
                assert(self.order() =~= before.order().push(rel_path@));
                assert(!before.order().contains(rel_path@)) by {
                    assert(!before.order().to_set().contains(rel_path@));
                }
                assert(self.order().no_duplicates());
                assert(self.order().to_set() =~= before.order().to_set().insert(rel_path@)) by {
                    assert(self.order()[before.order().len() as int] == rel_path@);
                    assert forall|p: Seq<char>| before.order().contains(p) implies
                        self.order().contains(p) by {
                        let i = choose|i: int| 0 <= i < before.order().len() && before.order()[i] == p;
                        assert(self.order()[i] == p);
                    }
                }
            }
        }
    }

    /// The number of files.
    pub fn len(&self) -> (count: usize)
        requires
            self.wf(),
        ensures
            count == self@.sizes.dom().len(),
            count == self.order().len(),
    {
        proof {
            self.order().unique_seq_to_set();
        }
        self.paths.len()
    }

    /// The `i`-th path in the order of first entry.
    pub fn path_at(&self, i: usize) -> (path: &String)
        requires
            self.wf(),
            i < self.order().len(),
        ensures
            path@ == self.order()[i as int],
    {
        &self.paths[i]
    }

    /// The size of the file at `path`, if there is one.
    pub fn size_of(&self, path: &str) -> (size: Option<u64>)
        ensures
            size == if self@.sizes.contains_key(path@) {
                Some(self@.sizes[path@])
            } else {
                None
            },
    {
        match self.by_path.get(path) {
            Some(size) => Some(*size),
            None => None,
        }
    }

    /// The paths entered under `key`, if there are any.
    pub fn pool(&self, key: &str) -> (pool: Option<&Vec<String>>)
        requires
            self.wf(),
        ensures
            match pool {
                Some(pool) => texts(pool@) == self@.pool(key@),
                None => self@.pool(key@).len() == 0,
            },
    {
        match self.by_name_size.get(key) {
            Some(at) => Some(&self.pools[*at]),
            None => None,
        }
    }
}

proof fn insert_keeps_valid(model: IndexModel, path: Seq<char>, size: u64)
    requires
        model.valid(),
    ensures
        model.insert(path, size).valid(),
{
    let after = model.insert(path, size);
    let key = path_key(path, size);
    assert forall|k: Seq<char>, i: int| 0 <= i < after.pool(k).len() implies after.sizes.contains_key(
        #[trigger] after.pool(k)[i],
    ) by {
        if k != key {
            assert(after.pool(k) == model.pool(k));
            assert(model.sizes.contains_key(model.pool(k)[i]));
        } else if i < model.pool(k).len() {
            assert(model.sizes.contains_key(model.pool(k)[i]));
        }
    }
    assert forall|p: Seq<char>| #[trigger] after.sizes.contains_key(p) implies after.pool(
        path_key(p, after.sizes[p]),
    ).contains(p) by {
        if p == path {
            assert(after.pool(key)[model.pool(key).len() as int] == p);
        } else {
            let k = path_key(p, model.sizes[p]);
            assert(model.pool(k).contains(p));
            let i = choose|i: int| 0 <= i < model.pool(k).len() && model.pool(k)[i] == p;
            assert(after.pool(k)[i] == p);
        }
    }
}

/// Two files share a key exactly if they have the same name and the same size.
pub proof fn keys_tell_name_and_size_apart(n1: Seq<char>, s1: u64, n2: Seq<char>, s2: u64)
    ensures
        name_size_key(n1, s1) == name_size_key(n2, s2) <==> n1 == n2 && s1 == s2,
{
    let k1 = name_size_key(n1, s1);
    let k2 = name_size_key(n2, s2);
    if k1 == k2 {
        decimal_is_digits(s1 as nat);
        decimal_is_digits(s2 as nat);
        let d1 = decimal(s1 as nat);
        let d2 = decimal(s2 as nat);
        assert(k1.len() == n1.len() + 1 + d1.len());
        assert(k2.len() == n2.len() + 1 + d2.len());
        assert(k1[n1.len() as int] == ':');
        assert(k2[n2.len() as int] == ':');
        if n1.len() < n2.len() {
            assert(k1[n2.len() as int] == d1[n2.len() - (n1.len() + 1)]);
        }
        if n2.len() < n1.len() {
            assert(k2[n1.len() as int] == d2[n1.len() - (n2.len() + 1)]);
        }
        assert(n1 =~= k1.take(n1.len() as int));
        assert(n2 =~= k2.take(n2.len() as int));
        assert(d1 =~= k1.skip(n1.len() as int + 1));
        assert(d2 =~= k2.skip(n2.len() as int + 1));
        decimal_is_injective(s1 as nat, s2 as nat);
    }
}

/// Entering a path that the index does not hold yet keeps the index consistent.
pub proof fn fresh_insert_keeps_consistent(model: IndexModel, path: Seq<char>, size: u64)
    requires
        model.valid(),
        model.consistent(),
        !model.sizes.contains_key(path),
    ensures
        model.insert(path, size).consistent(),
{
    let after = model.insert(path, size);
    let key = path_key(path, size);
    assert forall|k: Seq<char>, i: int| 0 <= i < after.pool(k).len() implies k == path_key(
        #[trigger] after.pool(k)[i],
        after.sizes[after.pool(k)[i]],
    ) by {
        if k != key {
            assert(after.pool(k) == model.pool(k));
            assert(model.sizes.contains_key(model.pool(k)[i]));
        } else if i < model.pool(k).len() {
            assert(after.pool(k)[i] == model.pool(k)[i]);
            assert(model.sizes.contains_key(model.pool(k)[i]));
        }
    }
}

/// A file met on a walk through a folder: its path and, if it could be read, its size.
pub open spec fn found_files(found: Seq<(String, Option<u64>)>) -> Seq<(Seq<char>, Option<u64>)> {
    found.map_values(|file: (String, Option<u64>)| (file.0@, file.1))
}

/// Whether a found file can be passed over or entered: it lies in a trash folder, or
/// its size is known.
pub open spec fn can_enter(file: (Seq<char>, Option<u64>)) -> bool {
    in_trash(file.0) || file.1 is Some
}

/// The index of the files found below `root`: those outside every trash folder, under
/// their relative names.
pub open spec fn scan_model(root: Seq<char>, found: Seq<(Seq<char>, Option<u64>)>) -> IndexModel
    decreases found.len(),
{
    if found.len() == 0 {
        IndexModel::empty()
    } else {
        let before = scan_model(root, found.drop_last());
        let file = found.last();
        if in_trash(file.0) || file.1 is None {
            before
        } else {
            before.insert(relative_to(root, file.0), file.1->0)
        }
    }
}

/// Indexes the files found on a walk through the folder `root`. Fails at the first
/// file outside the trash folders whose size could not be read.
pub fn scan_dir(root: &str, found: &Vec<(String, Option<u64>)>) -> (out: Result<FileIndex, usize>)
    ensures
        match out {
            Ok(index) => {
                &&& forall|i: int| 0 <= i < found.len() ==> can_enter(
                    #[trigger] found_files(found@)[i],
                )
                &&& index.wf()
                &&& index@ == scan_model(root@, found_files(found@))
            },
            Err(at) => {
                &&& at < found.len()
                &&& !can_enter(found_files(found@)[at as int])
                &&& forall|i: int| 0 <= i < at ==> can_enter(#[trigger] found_files(found@)[i])
            },
        },
{
    let mut index = FileIndex::new();
    let ghost files = found_files(found@);
    let mut i: usize = 0;
    while i < found.len()
        invariant
            i <= found.len(),
            files == found_files(found@),
            index.wf(),
            forall|k: int| 0 <= k < i ==> can_enter(#[trigger] files[k]),
            index@ == scan_model(root@, files.take(i as int)),
        decreases found.len() - i,
    {
        assert(files.take(i + 1).drop_last() =~= files.take(i as int));
        assert(files[i as int] == (found@[i as int].0@, found@[i as int].1));
        match relative_path(root, found[i].0.as_str()) {
            None => {},
            Some(rel) => match found[i].1 {
                Some(size) => index.insert(rel, size),
                None => return Err(i),
            },
        }
        i += 1;
    }
    assert(files.take(i as int) =~= files);
    Ok(index)
}

/// A scan that meets every relative name at most once outside the trash folders gives
/// a consistent index.
pub proof fn scan_is_consistent(root: Seq<char>, found: Seq<(Seq<char>, Option<u64>)>)
    requires
        forall|i: int, j: int|
            0 <= i < j < found.len() && !in_trash(found[i].0) && !in_trash(found[j].0)
                ==> relative_to(root, #[trigger] found[i].0) != relative_to(
                root,
                #[trigger] found[j].0,
            ),
    ensures
        scan_model(root, found).valid(),
        scan_model(root, found).consistent(),
        forall|path: Seq<char>| #[trigger]
            scan_model(root, found).sizes.contains_key(path) ==> exists|i: int|
                0 <= i < found.len() && !in_trash(#[trigger] found[i].0) && path == relative_to(
                    root,
                    found[i].0,
                ),
    decreases found.len(),
{
    if found.len() > 0 {
        let shorter = found.drop_last();
        scan_is_consistent(root, shorter);
        let before = scan_model(root, shorter);
        let after = scan_model(root, found);
        let file = found.last();
        let last = found.len() - 1;
        if !(in_trash(file.0) || file.1 is None) {
            let path = relative_to(root, file.0);
            if before.sizes.contains_key(path) {
                let i = choose|i: int|
                    0 <= i < shorter.len() && !in_trash(#[trigger] shorter[i].0) && path
                        == relative_to(root, shorter[i].0);
                assert(found[i].0 == shorter[i].0);
                assert(found[last].0 == file.0);
                assert(false);
            }
            insert_keeps_valid(before, path, file.1->0);
            fresh_insert_keeps_consistent(before, path, file.1->0);
        }
        assert forall|path: Seq<char>| #[trigger] after.sizes.contains_key(path) implies exists|i: int|
            0 <= i < found.len() && !in_trash(#[trigger] found[i].0) && path == relative_to(
                root,
                found[i].0,
            ) by {
            if before.sizes.contains_key(path) {
                let i = choose|i: int|
                    0 <= i < shorter.len() && !in_trash(#[trigger] shorter[i].0) && path
                        == relative_to(root, shorter[i].0);
                assert(!in_trash(found[i].0));
            } else {
                assert(!in_trash(found[last].0));
            }
        }
    }
}

/// The key of a file is its name, a colon and its size, and nothing else of its path counts.
pub proof fn key_is_name_and_size(path: Seq<char>, size: u64)
    ensures
        path_key(path, size) == base_name_of(path) + seq![':'] + decimal(size as nat),
{
    assert(path_key(path, size) =~= base_name_of(path) + seq![':'] + decimal(size as nat));
}

/// An empty index has no files; entering one gives it its size, puts it behind those of its
/// name and size, and leaves all others as they were.
pub proof fn entering_adds_one_file(model: IndexModel, path: Seq<char>, size: u64, key: Seq<char>)
    ensures
        IndexModel::empty().sizes == Map::<Seq<char>, u64>::empty(),
        IndexModel::empty().pool(key) == Seq::<Seq<char>>::empty(),
        model.insert(path, size).sizes == model.sizes.insert(path, size),
        model.insert(path, size).pool(key) == if key == base_name_of(path) + seq![':'] + decimal(
            size as nat,
        ) {
            model.pool(key).push(path)
        } else {
            model.pool(key)
        },
{
    key_is_name_and_size(path, size);
}

/// A valid index has the files of every key at hand: those with its name and size, and among
/// them no path without a file.
pub proof fn valid_index_pools_its_files(model: IndexModel, path: Seq<char>)
    requires
        model.valid(),
    ensures
        model.sizes.dom().finite(),
        model.sizes.contains_key(path) ==> model.pool(
            base_name_of(path) + seq![':'] + decimal(model.sizes[path] as nat),
        ).contains(path),
        forall|key: Seq<char>| #[trigger]
            model.pool(key).contains(path) ==> model.sizes.contains_key(path),
{
    if model.sizes.contains_key(path) {
        key_is_name_and_size(path, model.sizes[path]);
    }
    assert forall|key: Seq<char>| #[trigger] model.pool(key).contains(path) implies
        model.sizes.contains_key(path) by {
        let i = choose|i: int| 0 <= i < model.pool(key).len() && model.pool(key)[i] == path;
        assert(model.sizes.contains_key(model.pool(key)[i]));
    }
}

/// A scan misses nothing: every found file outside the trash folders whose size is known is
/// indexed under its relative name, and with exactly the size found where no later file has
/// the same name.
pub proof fn scan_misses_nothing(root: Seq<char>, found: Seq<(Seq<char>, Option<u64>)>, i: int)
    requires
        0 <= i < found.len(),
        !in_trash(found[i].0),
        found[i].1 is Some,
    ensures
        scan_model(root, found).sizes.contains_key(relative_to(root, found[i].0)),
        (forall|j: int|
            i < j < found.len() && !in_trash((#[trigger] found[j]).0) ==> relative_to(
                root,
                found[j].0,
            ) != relative_to(root, found[i].0)) ==> scan_model(root, found).sizes[relative_to(
            root,
            found[i].0,
        )] == found[i].1->0,
    decreases found.len(),
{
    let shorter = found.drop_last();
    let last = found.len() - 1;
    if i < last {
        assert(shorter[i] == found[i]);
        scan_misses_nothing(root, shorter, i);
        if forall|j: int|
            i < j < found.len() && !in_trash((#[trigger] found[j]).0) ==> relative_to(
                root,
                found[j].0,
            ) != relative_to(root, found[i].0) {
            assert forall|j: int|
                i < j < shorter.len() && !in_trash((#[trigger] shorter[j]).0) implies relative_to(
                root,
                shorter[j].0,
            ) != relative_to(root, shorter[i].0) by {
                assert(shorter[j] == found[j]);
            }
            assert(!in_trash(found[last].0) ==> relative_to(root, found[last].0) != relative_to(
                root,
                found[i].0,
            ));
        }
    }
}

/// A scan makes nothing up: every indexed path is the relative name of a found file outside
/// the trash folders, and is indexed with the size of such a file.
pub proof fn scan_makes_nothing_up(
    root: Seq<char>,
    found: Seq<(Seq<char>, Option<u64>)>,
    path: Seq<char>,
) -> (i: int)
    requires
        scan_model(root, found).sizes.contains_key(path),
    ensures
        0 <= i < found.len(),
        !in_trash(found[i].0),
        relative_to(root, found[i].0) == path,
        found[i].1 == Some(scan_model(root, found).sizes[path]),
    decreases found.len(),
{
    let shorter = found.drop_last();
    let last = found.len() - 1;
    let file = found.last();
    if !in_trash(file.0) && file.1 is Some && relative_to(root, file.0) == path {
        last
    } else {
        let i = scan_makes_nothing_up(root, shorter, path);
        assert(shorter[i] == found[i]);
        i
    }
}

/// The files of one name and size stand in the order in which the scan found them, each as
/// often as it was found.
pub proof fn pools_follow_the_scan(
    root: Seq<char>,
    found: Seq<(Seq<char>, Option<u64>)>,
    key: Seq<char>,
)
    ensures
        scan_model(root, found).pool(key) == found.filter(
            |file: (Seq<char>, Option<u64>)|
                !in_trash(file.0) && file.1 is Some && key == base_name_of(
                    relative_to(root, file.0),
                ) + seq![':'] + decimal(file.1->0 as nat),
        ).map_values(|file: (Seq<char>, Option<u64>)| relative_to(root, file.0)),
{
    let pick = |file: (Seq<char>, Option<u64>)|
        !in_trash(file.0) && file.1 is Some && key == base_name_of(relative_to(root, file.0)) + seq![
            ':',
        ] + decimal(file.1->0 as nat);
    let name = |file: (Seq<char>, Option<u64>)| relative_to(root, file.0);
    pools_follow(root, found, key, pick, name);
}

proof fn pools_follow(
    root: Seq<char>,
    found: Seq<(Seq<char>, Option<u64>)>,
    key: Seq<char>,
    pick: spec_fn((Seq<char>, Option<u64>)) -> bool,
    name: spec_fn((Seq<char>, Option<u64>)) -> Seq<char>,
)
    requires
        forall|file: (Seq<char>, Option<u64>)| #[trigger]
            pick(file) <==> !in_trash(file.0) && file.1 is Some && key == base_name_of(
                relative_to(root, file.0),
            ) + seq![':'] + decimal(file.1->0 as nat),
        forall|file: (Seq<char>, Option<u64>)| #[trigger] name(file) == relative_to(root, file.0),
    ensures
        scan_model(root, found).pool(key) == found.filter(pick).map_values(name),
    decreases found.len(),
{
    reveal(Seq::filter);
    if found.len() > 0 {
        let file = found.last();
        let shorter = found.drop_last();
        pools_follow(root, shorter, key, pick, name);
        if !(in_trash(file.0) || file.1 is None) {
            entering_adds_one_file(
                scan_model(root, shorter),
                relative_to(root, file.0),
                file.1->0,
                key,
            );
        }
        assert(shorter.filter(pick).push(file).map_values(name) =~= shorter.filter(pick).map_values(
            name,
        ).push(name(file)));
    } else {
        assert(found.filter(pick).map_values(name) =~= Seq::empty());
    }
}

/// The found files are those of the walk, one for each and in its order.
pub proof fn found_files_follow_the_walk(found: Seq<(String, Option<u64>)>)
    ensures
        found_files(found).len() == found.len(),
        forall|i: int|
            0 <= i < found.len() ==> #[trigger] found_files(found)[i] == (found[i].0@, found[i].1),
{
}

/// A scan goes through exactly if every file outside the trash folders has a known size.
pub proof fn scan_needs_sizes(file: (Seq<char>, Option<u64>))
    ensures
        can_enter(file) <==> in_trash(file.0) || file.1 != None::<u64>,
{
}

} // verus!
