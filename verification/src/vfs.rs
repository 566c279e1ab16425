//! Directory entries of the easy file system's root directory: lookup,
//! creation, listing, hard links and their removal.
//!
//! A directory is the sequence of its entries, each a name and the id of
//! the inode it names; several entries may name the same inode (hard
//! links).  Lookups find the first entry of a name.
use vstd::prelude::*;

verus! {

/// A directory entry: a name and the inode it names.
pub struct DirEntry {
    /// The entry's name.
    pub name: String,
    /// The id of the inode the entry names.
    pub inode_id: u32,
}

/// The view of a directory: its entries, in order, as names and ids.
pub type Entries = Seq<(Seq<char>, u32)>;

/// The name of entry `i`.
pub open spec fn name_at(entries: Entries, i: int) -> Seq<char> {
    entries[i].0
}

/// Index of the first entry called `name`.
pub open spec fn first_index(entries: Entries, name: Seq<char>) -> Option<int> {
    if exists|i: int|
        0 <= i < entries.len() && #[trigger] name_at(entries, i) == name && forall|j: int|
            0 <= j < i ==> #[trigger] name_at(entries, j) != name {
        Some(
            choose|i: int|
                0 <= i < entries.len() && #[trigger] name_at(entries, i) == name && forall|j: int|
                    0 <= j < i ==> #[trigger] name_at(entries, j) != name,
        )
    } else {
        None
    }
}

/// The inode the first entry called `name` names.
pub open spec fn lookup(entries: Entries, name: Seq<char>) -> Option<u32> {
    match first_index(entries, name) {
        Some(i) => Some(entries[i].1),
        None => None,
    }
}

/// Number of entries among the first `k` whose name looks up to inode
/// `id`: the hard links of `id` among them.
pub open spec fn links_in(entries: Entries, k: int, id: u32) -> nat
    decreases k,
{
    if k <= 0 {
        0
    } else {
        links_in(entries, k - 1, id) + if lookup(entries, entries[k - 1].0) == Some(id) {
            1nat
        } else {
            0nat
        }
    }
}

/// Number of entries whose name looks up to inode `id`.
pub open spec fn links(entries: Entries, id: u32) -> nat {
    links_in(entries, entries.len() as int, id)
}

/// Any entry of a name makes the first one of that name well defined.
pub proof fn lemma_first_index_exists(entries: Entries, name: Seq<char>, i: int)
    requires
        0 <= i < entries.len(),
        name_at(entries, i) == name,
    ensures
        first_index(entries, name) is Some,
        first_index(entries, name)->0 <= i,
        name_at(entries, first_index(entries, name)->0) == name,
    decreases i,
{
    if exists|j: int| 0 <= j < i && #[trigger] name_at(entries, j) == name {
        let j = choose|j: int| 0 <= j < i && #[trigger] name_at(entries, j) == name;
        lemma_first_index_exists(entries, name, j);
    } else {
        assert(forall|j: int| 0 <= j < i ==> #[trigger] name_at(entries, j) != name);
    }
}

/// The first entry of a name is the one any minimal witness names.
proof fn lemma_first_index_is(entries: Entries, name: Seq<char>, i: int)
    requires
        0 <= i < entries.len(),
        name_at(entries, i) == name,
        forall|j: int| 0 <= j < i ==> #[trigger] name_at(entries, j) != name,
    ensures
        first_index(entries, name) == Some(i),
{
    let c = first_index(entries, name)->0;
    if c < i {
        assert(name_at(entries, c) != name);
    }
    if i < c {
        assert(name_at(entries, i) != name);
    }
}

/// Appending an entry leaves the lookup of other names unchanged, and the
/// lookup of its own name finds it when no earlier entry had that name.
pub proof fn lemma_lookup_after_push(entries: Entries, name: Seq<char>, id: u32, other: Seq<char>)
    requires
        lookup(entries, name) is None,
    ensures
        lookup(entries.push((name, id)), name) == Some(id),
        first_index(entries.push((name, id)), name) == Some(entries.len() as int),
        other != name ==> lookup(entries.push((name, id)), other) == lookup(entries, other),
        other != name ==> first_index(entries.push((name, id)), other) == first_index(entries, other),
{
    let es2 = entries.push((name, id));
    assert forall|j: int| 0 <= j < entries.len() implies #[trigger] name_at(es2, j) == name_at(entries, j) by {}
    assert forall|j: int| 0 <= j < entries.len() implies #[trigger] name_at(entries, j) != name by {
        if name_at(entries, j) == name {
            lemma_first_index_exists(entries, name, j);
        }
    }
    assert(forall|j: int| 0 <= j < entries.len() ==> #[trigger] name_at(es2, j) != name);
    assert(name_at(es2, entries.len() as int) == name);
    lemma_first_index_is(es2, name, entries.len() as int);
    if other != name {
        match first_index(entries, other) {
            Some(i) => {
                assert(name_at(entries, i) == other);
                assert forall|j: int| 0 <= j < i implies #[trigger] name_at(es2, j) != other by {
                    assert(name_at(entries, j) != other);
                }
                lemma_first_index_is(es2, other, i);
            },
            None => {
                if first_index(es2, other) is Some {
                    let i = first_index(es2, other)->0;
                    assert(name_at(es2, i) == other);
                    assert(i < entries.len());
                    lemma_first_index_exists(entries, other, i);
                }
            },
        }
    }
}

/// More entries count at least as many links.
proof fn lemma_links_monotone(entries: Entries, a: int, b: int, id: u32)
    requires
        0 <= a <= b,
    ensures
        links_in(entries, a, id) <= links_in(entries, b, id),
    decreases b - a,
{
    if a < b {
        lemma_links_monotone(entries, a, b - 1, id);
    }
}

/// Among the first `k` entries, the links of `id` are counted one by one.
proof fn lemma_links_in_counts(entries: Entries, k: int, id: u32)
    requires
        0 <= k <= entries.len(),
    ensures
        Set::new(|j: int| 0 <= j < k && lookup(entries, entries[j].0) == Some(id)).finite(),
        links_in(entries, k, id) == Set::new(
            |j: int| 0 <= j < k && lookup(entries, entries[j].0) == Some(id),
        ).len(),
    decreases k,
{
    let now = Set::new(|j: int| 0 <= j < k && lookup(entries, entries[j].0) == Some(id));
    if k == 0 {
        assert(now =~= Set::<int>::empty());
    } else {
        lemma_links_in_counts(entries, k - 1, id);
        let before = Set::new(|j: int| 0 <= j < k - 1 && lookup(entries, entries[j].0) == Some(id));
        if lookup(entries, entries[k - 1].0) == Some(id) {
            assert(now =~= before.insert(k - 1));
            assert(!before.contains(k - 1));
        } else {
            assert(now =~= before);
        }
    }
}

/// The links of inode `id` are exactly the entries whose name looks up to
/// `id`: `links` is the number of such entries, whichever entries the
/// directory holds and in whatever order.
pub proof fn lemma_links_is_count(entries: Entries, id: u32)
    ensures
        Set::new(|k: int| 0 <= k < entries.len() && lookup(entries, entries[k].0) == Some(id)).finite(),
        links(entries, id) == Set::new(
            |k: int| 0 <= k < entries.len() && lookup(entries, entries[k].0) == Some(id),
        ).len(),
{
    lemma_links_in_counts(entries, entries.len() as int, id);
}

/// An entry whose name looks up to inode `id` is its last link exactly when
/// no other entry's name looks up to `id`.
pub proof fn lemma_last_link(entries: Entries, i: int, id: u32)
    requires
        0 <= i < entries.len(),
        lookup(entries, entries[i].0) == Some(id),
    ensures
        links(entries, id) >= 1,
        links(entries, id) == 1 <==> forall|k: int|
            0 <= k < entries.len() && k != i ==> lookup(entries, #[trigger] entries[k].0) != Some(id),
{
    lemma_links_is_count(entries, id);
    let all = Set::new(|k: int| 0 <= k < entries.len() && lookup(entries, entries[k].0) == Some(id));
    assert(all.contains(i));
    assert(Set::<int>::empty().insert(i).subset_of(all));
    vstd::set_lib::lemma_len_subset(Set::<int>::empty().insert(i), all);
    if forall|k: int| 0 <= k < entries.len() && k != i ==> lookup(entries, #[trigger] entries[k].0) != Some(id) {
        assert(all =~= Set::<int>::empty().insert(i));
    } else {
        let k = choose|k: int|
            0 <= k < entries.len() && k != i && lookup(entries, #[trigger] entries[k].0) == Some(id);
        let two = Set::<int>::empty().insert(i).insert(k);
        assert(two.subset_of(all));
        vstd::set_lib::lemma_len_subset(two, all);
        assert(two.len() == 2);
    }
}

/// A hard link made by `linkat` is undone by `unlinkat` of the new name:
/// the link is the first entry of that name, removing it restores the
/// directory, and since the inode keeps its old name the inode is not
/// freed.
pub proof fn lemma_unlink_undoes_link(entries: Entries, old_name: Seq<char>, new_name: Seq<char>)
    requires
        lookup(entries, new_name) is None,
        lookup(entries, old_name) is Some,
    ensures
        ({
            let id = lookup(entries, old_name)->0;
            let linked = entries.push((new_name, id));
            &&& lookup(linked, new_name) == Some(id)
            &&& lookup(linked, old_name) == Some(id)
            &&& first_index(linked, new_name) == Some(entries.len() as int)
            &&& linked.remove(entries.len() as int) == entries
            &&& links(linked, id) >= 2
        }),
{
    let id = lookup(entries, old_name)->0;
    let linked = entries.push((new_name, id));
    let i1 = first_index(entries, old_name)->0;
    assert(name_at(entries, i1) == old_name);
    assert(old_name != new_name) by {
        if old_name == new_name {
            assert(lookup(entries, new_name) is Some);
        }
    }
    lemma_lookup_after_push(entries, new_name, id, old_name);
    assert(linked.remove(entries.len() as int) =~= entries);
    let n = entries.len() as int;
    assert(name_at(linked, i1) == old_name);
    assert(lookup(linked, name_at(linked, i1)) == Some(id));
    assert(links_in(linked, i1 + 1, id) == links_in(linked, i1, id) + 1);
    lemma_links_monotone(linked, i1 + 1, n, id);
    assert(name_at(linked, n) == new_name);
    assert(links_in(linked, n + 1, id) == links_in(linked, n, id) + 1);
}

/// A file just created under a fresh inode has exactly one link, so
/// unlinking its name frees the inode.
pub proof fn lemma_created_has_one_link(entries: Entries, name: Seq<char>, id: u32)
    requires
        lookup(entries, name) is None,
        forall|k: int| 0 <= k < entries.len() ==> #[trigger] entries[k].1 != id,
    ensures
        links(entries.push((name, id)), id) == 1,
{
    let created = entries.push((name, id));
    let n = entries.len() as int;
    lemma_lookup_after_push(entries, name, id, name);
    lemma_no_links_before(entries, name, id, n);
    assert(name_at(created, n) == name);
}

proof fn lemma_no_links_before(entries: Entries, name: Seq<char>, id: u32, k: int)
    requires
        lookup(entries, name) is None,
        forall|m: int| 0 <= m < entries.len() ==> #[trigger] entries[m].1 != id,
        0 <= k <= entries.len(),
    ensures
        links_in(entries.push((name, id)), k, id) == 0,
    decreases k,
{
    if k > 0 {
        lemma_no_links_before(entries, name, id, k - 1);
        let created = entries.push((name, id));
        let other = name_at(created, k - 1);
        assert(other == name_at(entries, k - 1));
        if other == name {
            lemma_first_index_exists(entries, name, k - 1);
        }
        lemma_lookup_after_push(entries, name, id, other);
        lemma_first_index_exists(entries, other, k - 1);
        let f = first_index(entries, other)->0;
        assert(entries[f].1 != id);
    }
}

/// No two entries share a name.
pub open spec fn names_unique(entries: Entries) -> bool {
    forall|i: int, j: int|
        0 <= i < j < entries.len() ==> #[trigger] name_at(entries, i) != #[trigger] name_at(entries, j)
}

/// Appending an entry under a name that is absent keeps names unique.
pub proof fn lemma_push_keeps_unique(entries: Entries, name: Seq<char>, id: u32)
    requires
        names_unique(entries),
        lookup(entries, name) is None,
    ensures
        names_unique(entries.push((name, id))),
{
    let es2 = entries.push((name, id));
    assert forall|i: int, j: int| 0 <= i < j < es2.len() implies #[trigger] name_at(es2, i) != #[trigger] name_at(
        es2,
        j,
    ) by {
        assert(name_at(es2, i) == name_at(entries, i));
        if j == entries.len() {
            if name_at(entries, i) == name {
                lemma_first_index_exists(entries, name, i);
            }
        } else {
            assert(name_at(es2, j) == name_at(entries, j));
        }
    }
}

/// Removing an entry keeps names unique, and with unique names no entry of
/// the removed entry's name is left.
pub proof fn lemma_remove_keeps_unique(entries: Entries, i: int)
    requires
        names_unique(entries),
        0 <= i < entries.len(),
    ensures
        names_unique(entries.remove(i)),
        lookup(entries.remove(i), name_at(entries, i)) is None,
{
    let es2 = entries.remove(i);
    let idx = |k: int| if k < i { k } else { k + 1 };
    assert forall|k: int| 0 <= k < es2.len() implies #[trigger] name_at(es2, k) == name_at(entries, idx(k)) by {}
    assert forall|a: int, b: int| 0 <= a < b < es2.len() implies #[trigger] name_at(es2, a) != #[trigger] name_at(
        es2,
        b,
    ) by {
        assert(name_at(es2, a) == name_at(entries, idx(a)));
        assert(name_at(es2, b) == name_at(entries, idx(b)));
    }
    if first_index(es2, name_at(entries, i)) is Some {
        let k = first_index(es2, name_at(entries, i))->0;
        assert(name_at(es2, k) == name_at(entries, idx(k)));
        if idx(k) < i {
            assert(name_at(entries, idx(k)) != name_at(entries, i));
        } else {
            assert(name_at(entries, i) != name_at(entries, idx(k)));
        }
    }
}

/// A directory inode, as the sequence of its entries.
pub struct Inode {
    dirents: Vec<DirEntry>,
}

impl Inode {
    /// The entries, in order.
    pub closed spec fn entries(&self) -> Entries {
        self.dirents@.map_values(|e: DirEntry| (e.name@, e.inode_id))
    }

    /// An empty directory.
    pub fn new() -> (dir: Self)
        ensures
            dir.entries() == Seq::<(Seq<char>, u32)>::empty(),
            names_unique(dir.entries()),
    {
        let dir = Inode { dirents: Vec::new() };
        assert(dir.entries() =~= Seq::<(Seq<char>, u32)>::empty());
        dir
    }

    /// The id of the inode the first entry called `name` names.
    fn find_inode_id(&self, name: &String) -> (id: Option<u32>)
        ensures
            id == lookup(self.entries(), name@),
            id is Some <==> first_index(self.entries(), name@) is Some,
    {
        let ghost es = self.entries();
        let mut i: usize = 0;
        while i < self.dirents.len()
            invariant
                es == self.entries(),
                i <= self.dirents@.len(),
                es.len() == self.dirents@.len(),
                forall|j: int| 0 <= j < i ==> #[trigger] name_at(es, j) != name@,
            decreases self.dirents@.len() - i,
        {
            assert(es[i as int] == (self.dirents@[i as int].name@, self.dirents@[i as int].inode_id));
            let same = self.dirents[i].name == *name;
            assert(same == (name_at(es, i as int) == name@));
            if same {
                proof {
                    let c = choose|c: int|
                        0 <= c < es.len() && #[trigger] name_at(es, c) == name@ && forall|j: int|
                            0 <= j < c ==> #[trigger] name_at(es, j) != name@;
                    if c < i {
                        assert(name_at(es, c) != name@);
                    }
                    if i < c {
                        assert(name_at(es, i as int) != name@);
                    }
                }
                return Some(self.dirents[i].inode_id);
            }
            i += 1;
        }
        None
    }

    /// The id of the inode the first entry called `name` names, if any.
    pub fn find(&self, name: &str) -> (id: Option<u32>)
        ensures
            id == lookup(self.entries(), name@),
    {
        let key = name.to_owned();
        self.find_inode_id(&key)
    }

    /// Adds an entry `name` for the new inode `new_inode_id`, unless an
    /// entry of that name exists; returns the id of the new inode.
    /// `new_inode_id` is the inode the file system allocates for the file;
    /// when no entry names it yet, the new entry is its only link.
    pub fn create(&mut self, name: &str, new_inode_id: u32) -> (id: Option<u32>)
        ensures
            lookup(old(self).entries(), name@) is Some ==> id is None && final(self).entries() == old(
                self,
            ).entries(),
            lookup(old(self).entries(), name@) is None ==> id == Some(new_inode_id)
                && final(self).entries() == old(self).entries().push((name@, new_inode_id)),
            lookup(old(self).entries(), name@) is None && (forall|k: int|
                0 <= k < old(self).entries().len() ==> #[trigger] old(self).entries()[k].1 != new_inode_id)
                ==> links(final(self).entries(), new_inode_id) == 1,
            names_unique(old(self).entries()) ==> names_unique(final(self).entries()),
    {
        let key = name.to_owned();
        if self.find_inode_id(&key).is_some() {
            return None;
        }
        self.dirents.push(DirEntry { name: key, inode_id: new_inode_id });
        assert(self.entries() =~= old(self).entries().push((name@, new_inode_id)));
        proof {
            if forall|k: int|
                0 <= k < old(self).entries().len() ==> #[trigger] old(self).entries()[k].1 != new_inode_id {
                lemma_created_has_one_link(old(self).entries(), name@, new_inode_id);
            }
            if names_unique(old(self).entries()) {
                lemma_push_keeps_unique(old(self).entries(), name@, new_inode_id);
            }
        }
        Some(new_inode_id)
    }

    /// The names of the entries, in order.
    pub fn ls(&self) -> (names: Vec<String>)
        ensures
            names@.len() == self.entries().len(),
            forall|i: int| 0 <= i < names@.len() ==> #[trigger] names@[i]@ == self.entries()[i].0,
    {
        let mut v: Vec<String> = Vec::new();
        let mut i: usize = 0;
        while i < self.dirents.len()
            invariant
                i <= self.dirents@.len(),
                v@.len() == i,
                forall|j: int| 0 <= j < i ==> #[trigger] v@[j]@ == self.entries()[j].0,
            decreases self.dirents@.len() - i,
        {
            v.push(self.dirents[i].name.clone());
            i += 1;
        }
        v
    }

    /// Adds a hard link: an entry `new_path` naming the inode that
    /// `old_path` names.  Fails with -1, changing nothing, when an entry
    /// `new_path` exists or no entry `old_path` does; returns 0 otherwise.
    pub fn linkat(&mut self, old_path: &str, new_path: &str) -> (r: isize)
        ensures
            lookup(old(self).entries(), new_path@) is Some || lookup(old(self).entries(), old_path@) is None
                ==> r == -1 && final(self).entries() == old(self).entries(),
            lookup(old(self).entries(), new_path@) is None && lookup(old(self).entries(), old_path@) is Some
                ==> r == 0 && final(self).entries() == old(self).entries().push(
                (new_path@, lookup(old(self).entries(), old_path@)->0),
            ),
            names_unique(old(self).entries()) ==> names_unique(final(self).entries()),
    {
        let new_key = new_path.to_owned();
        if self.find_inode_id(&new_key).is_some() {
            return -1;
        }
        let old_key = old_path.to_owned();
        let old_inode_id = match self.find_inode_id(&old_key) {
            Some(id) => id,
            None => {
                return -1;
            },
        };
        self.dirents.push(DirEntry { name: new_key, inode_id: old_inode_id });
        assert(self.entries() =~= old(self).entries().push((new_path@, old_inode_id)));
        proof {
            if names_unique(old(self).entries()) {
                lemma_push_keeps_unique(old(self).entries(), new_path@, old_inode_id);
            }
        }
        0
    }

    /// Removes the first entry `path`.  Fails with -1, changing nothing,
    /// when there is none.  Otherwise returns 0 and, when that entry was
    /// the inode's last link, the inode whose data the file system must
    /// free.
    pub fn unlinkat(&mut self, path: &str) -> (r: (isize, Option<u32>))
        requires
            old(self).entries().len() <= u32::MAX,
        ensures
            first_index(old(self).entries(), path@) is None ==> r == (-1isize, None::<u32>)
                && final(self).entries() == old(self).entries(),
            first_index(old(self).entries(), path@) matches Some(i) ==> {
                let id = old(self).entries()[i].1;
                &&& r.0 == 0
                &&& r.1 == if links(old(self).entries(), id) == 1 { Some(id) } else { None }
                &&& (r.1 is Some <==> forall|k: int|
                    0 <= k < old(self).entries().len() && k != i ==> lookup(
                        old(self).entries(),
                        #[trigger] old(self).entries()[k].0,
                    ) != Some(id))
                &&& final(self).entries() == old(self).entries().remove(i)
            },
            names_unique(old(self).entries()) ==> names_unique(final(self).entries())
                && lookup(final(self).entries(), path@) is None,
    {
        let key = path.to_owned();
        let inode_id = match self.find_inode_id(&key) {
            Some(id) => id,
            None => {
                return (-1, None);
            },
        };
        let nlink = self.count_links(inode_id);
        let freed = if nlink == 1 {
            Some(inode_id)
        } else {
            None
        };
        let position = self.position_of(&key);
        let ghost es = self.entries();
        self.dirents.remove(position);
        assert(self.entries() =~= es.remove(position as int));
        proof {
            assert(name_at(es, position as int) == path@);
            lemma_last_link(es, position as int, inode_id);
            if names_unique(es) {
                lemma_remove_keeps_unique(es, position as int);
            }
        }
        (0, freed)
    }

    /// Number of entries whose name looks up to inode `inode_id`.
    fn count_links(&self, inode_id: u32) -> (nlink: u32)
        requires
            self.entries().len() <= u32::MAX,
        ensures
            nlink == links(self.entries(), inode_id),
    {
        let ghost es = self.entries();
        let names = self.ls();
        let mut nlink: u32 = 0;
        let mut k: usize = 0;
        while k < names.len()
            invariant
                es == self.entries(),
                es.len() <= u32::MAX,
                names@.len() == es.len(),
                forall|j: int| 0 <= j < names@.len() ==> #[trigger] names@[j]@ == es[j].0,
                k <= names@.len(),
                nlink == links_in(es, k as int, inode_id),
                nlink <= k,
            decreases names@.len() - k,
        {
            assert(names@[k as int]@ == es[k as int].0);
            if self.find_inode_id(&names[k]) == Some(inode_id) {
                nlink += 1;
            }
            k += 1;
        }
        nlink
    }

    /// Index of the first entry called `key`, which exists.
    fn position_of(&self, key: &String) -> (position: usize)
        requires
            first_index(self.entries(), key@) is Some,
        ensures
            position == first_index(self.entries(), key@)->0,
            position < self.entries().len(),
    {
        let ghost es = self.entries();
        let mut position: usize = 0;
        while position < self.dirents.len()
            invariant
                es == self.entries(),
                position <= self.dirents@.len(),
                es.len() == self.dirents@.len(),
                first_index(es, key@) is Some,
                forall|j: int| 0 <= j < position ==> #[trigger] name_at(es, j) != key@,
            ensures
                position <= self.dirents@.len(),
                forall|j: int| 0 <= j < position ==> #[trigger] name_at(es, j) != key@,
                position < self.dirents@.len() ==> name_at(es, position as int) == key@,
            decreases self.dirents@.len() - position,
        {
            assert(es[position as int] == (
                self.dirents@[position as int].name@,
                self.dirents@[position as int].inode_id,
            ));
            let same = self.dirents[position].name == *key;
            assert(same == (name_at(es, position as int) == key@));
            if same {
                break;
            }
            position += 1;
        }
        proof {
            let c = first_index(es, key@)->0;
            assert(0 <= c < es.len() && name_at(es, c) == key@);
            if position == self.dirents@.len() {
                assert(name_at(es, c) != key@);
            }
            if c < position {
                assert(name_at(es, c) != key@);
            }
            if position < c {
                assert(name_at(es, position as int) == key@);
            }
        }
        position
    }
}

} // verus!
