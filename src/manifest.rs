//! One package's checksum manifest: a map from paths within the package to
//! content digests, kept in key order, with the opaque package field carried
//! along unchanged.
use vstd::prelude::*;
use crate::json::{json_string, json_quoted, entry_text, entries_text, files_open, package_open, null_text, manifest_text, other_text};
use crate::error::SyncError;
use crate::order::{key_before, key_less, lemma_key_less_irreflexive, lemma_key_less_transitive, lemma_key_less_total};

verus! {

/// An entry as plain values: the path within the package and its digest.
pub type EntryView = (Seq<char>, Seq<char>);

/// The plain values of a list of entries.
pub open spec fn pair_views(e: Seq<(String, String)>) -> Seq<EntryView> {
    e.map_values(|p: (String, String)| (p.0@, p.1@))
}

/// Each key comes strictly before the keys after it, so no key repeats.
pub open spec fn sorted_keys(e: Seq<EntryView>) -> bool {
    forall|i: int, j: int| 0 <= i < j < e.len() ==> key_less(#[trigger] e[i].0, #[trigger] e[j].0)
}

/// Some entry of `e` has key `k`.
pub open spec fn has_key(e: Seq<EntryView>, k: Seq<char>) -> bool {
    exists|i: int| 0 <= i < e.len() && #[trigger] e[i].0 == k
}

/// The place of an entry with key `k`, where there is one.
pub open spec fn key_index(e: Seq<EntryView>, k: Seq<char>) -> int {
    choose|i: int| 0 <= i < e.len() && #[trigger] e[i].0 == k
}

/// The map that a list of entries with distinct keys stands for.
pub open spec fn entries_map(e: Seq<EntryView>) -> Map<Seq<char>, Seq<char>> {
    Map::new(|k: Seq<char>| has_key(e, k), |k: Seq<char>| e[key_index(e, k)].1)
}

/// What one update does to a map: a digest sets the key, none removes it.
pub open spec fn apply_update(
    m: Map<Seq<char>, Seq<char>>,
    k: Seq<char>,
    d: Option<Seq<char>>,
) -> Map<Seq<char>, Seq<char>> {
    match d {
        Some(v) => m.insert(k, v),
        None => m.remove(k),
    }
}

/// A list of updates applied in order.
pub open spec fn apply_all(
    m: Map<Seq<char>, Seq<char>>,
    u: Seq<(Seq<char>, Option<Seq<char>>)>,
) -> Map<Seq<char>, Seq<char>>
    decreases u.len(),
{
    if u.len() == 0 {
        m
    } else {
        apply_update(apply_all(m, u.drop_last()), u.last().0, u.last().1)
    }
}

/// In a sorted list, the map holds each entry's key with that entry's digest.
pub proof fn lemma_map_at(e: Seq<EntryView>, i: int)
    requires
        sorted_keys(e),
        0 <= i < e.len(),
    ensures
        entries_map(e).contains_key(e[i].0),
        entries_map(e)[e[i].0] == e[i].1,
{
    let k = e[i].0;
    assert(has_key(e, k));
    let c = key_index(e, k);
    if c != i {
        lemma_key_less_irreflexive(k);
        if c < i {
            assert(key_less(e[c].0, e[i].0));
        } else {
            assert(key_less(e[i].0, e[c].0));
        }
    }
}

/// Removing an entry from a sorted list keeps it sorted and removes its key
/// from the map.
pub proof fn lemma_remove_at(e: Seq<EntryView>, j: int)
    requires
        sorted_keys(e),
        0 <= j < e.len(),
    ensures
        sorted_keys(e.remove(j)),
        entries_map(e.remove(j)) == entries_map(e).remove(e[j].0),
{
    let e2 = e.remove(j);
    assert forall|a: int, b: int| 0 <= a < b < e2.len() implies key_less(
        #[trigger] e2[a].0,
        #[trigger] e2[b].0,
    ) by {
        let a1 = if a < j { a } else { a + 1 };
        let b1 = if b < j { b } else { b + 1 };
        assert(e2[a] == e[a1] && e2[b] == e[b1]);
    }
    let m = entries_map(e);
    let m2 = entries_map(e2);
    let t = m.remove(e[j].0);
    assert forall|k: Seq<char>| #[trigger] m2.contains_key(k) <==> t.contains_key(k) by {
        if m2.contains_key(k) {
            let i = choose|i: int| 0 <= i < e2.len() && #[trigger] e2[i].0 == k;
            let i1 = if i < j { i } else { i + 1 };
            assert(e[i1].0 == k);
            lemma_key_less_irreflexive(k);
            if i1 < j {
                assert(key_less(e[i1].0, e[j].0));
            } else {
                assert(key_less(e[j].0, e[i1].0));
            }
        }
        if t.contains_key(k) {
            let i = choose|i: int| 0 <= i < e.len() && #[trigger] e[i].0 == k;
            assert(i != j);
            let i2 = if i < j { i } else { i - 1 };
            assert(e2[i2].0 == k);
        }
    }
    assert forall|k: Seq<char>| #[trigger] m2.contains_key(k) implies m2[k] == t[k] by {
        let i = choose|i: int| 0 <= i < e2.len() && #[trigger] e2[i].0 == k;
        let i1 = if i < j { i } else { i + 1 };
        assert(e2[i] == e[i1]);
        lemma_map_at(e2, i);
        lemma_map_at(e, i1);
    }
    assert(m2 =~= t);
}

/// Inserting an entry at the place where its key belongs keeps a sorted list
/// sorted and adds the key to the map.
pub proof fn lemma_insert_at(e: Seq<EntryView>, j: int, k0: Seq<char>, d: Seq<char>)
    requires
        sorted_keys(e),
        0 <= j <= e.len(),
        forall|i: int| 0 <= i < j ==> key_less(#[trigger] e[i].0, k0),
        forall|i: int| j <= i < e.len() ==> key_less(k0, #[trigger] e[i].0),
    ensures
        sorted_keys(e.insert(j, (k0, d))),
        entries_map(e.insert(j, (k0, d))) == entries_map(e).insert(k0, d),
{
    let e2 = e.insert(j, (k0, d));
    assert forall|a: int, b: int| 0 <= a < b < e2.len() implies key_less(
        #[trigger] e2[a].0,
        #[trigger] e2[b].0,
    ) by {
        if a < j && b < j {
        } else if a < j && b == j {
        } else if a < j {
            assert(e2[b] == e[b - 1]);
        } else if a == j {
            assert(e2[b] == e[b - 1]);
        } else {
            assert(e2[a] == e[a - 1] && e2[b] == e[b - 1]);
        }
    }
    let m = entries_map(e);
    let m2 = entries_map(e2);
    let t = m.insert(k0, d);
    lemma_key_less_irreflexive(k0);
    assert forall|k: Seq<char>| #[trigger] m2.contains_key(k) <==> t.contains_key(k) by {
        if m2.contains_key(k) && k != k0 {
            let i = choose|i: int| 0 <= i < e2.len() && #[trigger] e2[i].0 == k;
            let i1 = if i < j { i } else { i - 1 };
            assert(e[i1].0 == k);
        }
        if t.contains_key(k) {
            if k == k0 {
                assert(e2[j].0 == k);
            } else {
                let i = choose|i: int| 0 <= i < e.len() && #[trigger] e[i].0 == k;
                let i2 = if i < j { i } else { i + 1 };
                assert(e2[i2].0 == k);
            }
        }
    }
    assert forall|k: Seq<char>| #[trigger] m2.contains_key(k) implies m2[k] == t[k] by {
        let i = choose|i: int| 0 <= i < e2.len() && #[trigger] e2[i].0 == k;
        lemma_map_at(e2, i);
        if i != j {
            let i1 = if i < j { i } else { i - 1 };
            assert(e2[i] == e[i1]);
            lemma_map_at(e, i1);
        }
    }
    assert(m2 =~= t);
}

/// The plain value of an optional string.
pub open spec fn opt_view(o: Option<String>) -> Option<Seq<char>> {
    match o {
        Some(s) => Some(s@),
        None => None,
    }
}

/// Entries read as updates that set each key.
pub open spec fn as_updates(e: Seq<EntryView>) -> Seq<(Seq<char>, Option<Seq<char>>)> {
    e.map_values(|p: EntryView| (p.0, Some(p.1)))
}

/// Updates never disagree: two updates of one key are the same update.
pub open spec fn consistent(u: Seq<(Seq<char>, Option<Seq<char>>)>) -> bool {
    forall|i: int, j: int|
        0 <= i < u.len() && 0 <= j < u.len() && #[trigger] u[i].0 == #[trigger] u[j].0 ==> u[i]
            == u[j]
}

/// Applying consistent updates: a key that some update names ends as that
/// update says; any other key keeps what it had.
pub proof fn lemma_apply_all_consistent(
    m: Map<Seq<char>, Seq<char>>,
    u: Seq<(Seq<char>, Option<Seq<char>>)>,
)
    requires
        consistent(u),
    ensures
        forall|i: int|
            0 <= i < u.len() ==> #[trigger] apply_all(m, u).contains_key(u[i].0) == (
            u[i].1 is Some) && (u[i].1 matches Some(v) ==> apply_all(m, u)[u[i].0] == v),
        forall|k: Seq<char>|
            (forall|i: int| 0 <= i < u.len() ==> #[trigger] u[i].0 != k) ==> (
            #[trigger] apply_all(m, u).contains_key(k) == m.contains_key(k)) && (m.contains_key(
                k,
            ) ==> apply_all(m, u)[k] == m[k]),
    decreases u.len(),
{
    if u.len() > 0 {
        let p = u.drop_last();
        assert forall|i: int, j: int|
            0 <= i < p.len() && 0 <= j < p.len() && #[trigger] p[i].0 == #[trigger] p[j].0 implies p[i]
            == p[j] by {
            assert(u[i] == p[i] && u[j] == p[j]);
        }
        lemma_apply_all_consistent(m, p);
        let l = u.len() - 1;
        assert(u.last() == u[l]);
        assert(apply_all(m, u) == apply_update(apply_all(m, p), u[l].0, u[l].1));
        assert forall|i: int| 0 <= i < u.len() implies #[trigger] apply_all(m, u).contains_key(
            u[i].0,
        ) == (u[i].1 is Some) && (u[i].1 matches Some(v) ==> apply_all(m, u)[u[i].0] == v) by {
            if u[i].0 != u[l].0 {
                assert(p[i] == u[i]);
            } else {
                assert(u[i] == u[l]);
            }
        }
        assert forall|k: Seq<char>| (forall|i: int| 0 <= i < u.len() ==> #[trigger] u[i].0 != k) implies (
        #[trigger] apply_all(m, u).contains_key(k) == m.contains_key(k)) && (m.contains_key(k)
            ==> apply_all(m, u)[k] == m[k]) by {
            assert(u[l].0 != k);
            assert forall|i: int| 0 <= i < p.len() implies #[trigger] p[i].0 != k by {
                assert(p[i] == u[i]);
            }
        }
    }
}

/// Two lists of consistent updates that hold the same updates, in whatever
/// order and however often, give the same map.
pub proof fn lemma_order_irrelevant(
    m: Map<Seq<char>, Seq<char>>,
    u1: Seq<(Seq<char>, Option<Seq<char>>)>,
    u2: Seq<(Seq<char>, Option<Seq<char>>)>,
)
    requires
        consistent(u1),
        consistent(u2),
        u1.to_set() == u2.to_set(),
    ensures
        apply_all(m, u1) == apply_all(m, u2),
{
    lemma_apply_all_consistent(m, u1);
    lemma_apply_all_consistent(m, u2);
    let r1 = apply_all(m, u1);
    let r2 = apply_all(m, u2);
    assert forall|k: Seq<char>| #[trigger] r1.contains_key(k) == r2.contains_key(k) && (
    r1.contains_key(k) ==> r1[k] == r2[k]) by {
        if exists|i: int| 0 <= i < u1.len() && #[trigger] u1[i].0 == k {
            let i = choose|i: int| 0 <= i < u1.len() && #[trigger] u1[i].0 == k;
            assert(u1.to_set().contains(u1[i]));
            assert(u2.to_set().contains(u1[i]));
            let j = choose|j: int| 0 <= j < u2.len() && u2[j] == u1[i];
            assert(u2[j].0 == k);
        } else if exists|j: int| 0 <= j < u2.len() && #[trigger] u2[j].0 == k {
            let j = choose|j: int| 0 <= j < u2.len() && #[trigger] u2[j].0 == k;
            assert(u2.to_set().contains(u2[j]));
            assert(u1.to_set().contains(u2[j]));
            let i = choose|i: int| 0 <= i < u1.len() && u1[i] == u2[j];
            assert(u1[i].0 == k);
        }
    }
    assert(r1 =~= r2);
}

/// Giving a key the same update twice leaves the map as the first time.
pub proof fn lemma_update_idempotent(
    m: Map<Seq<char>, Seq<char>>,
    k: Seq<char>,
    d: Option<Seq<char>>,
)
    ensures
        apply_update(apply_update(m, k, d), k, d) == apply_update(m, k, d),
{
    assert(apply_update(apply_update(m, k, d), k, d) =~= apply_update(m, k, d));
}

/// Two sorted lists that stand for the same map are the same list.
pub proof fn lemma_entries_determined(e1: Seq<EntryView>, e2: Seq<EntryView>)
    requires
        sorted_keys(e1),
        sorted_keys(e2),
        entries_map(e1) == entries_map(e2),
    ensures
        e1 == e2,
    decreases e1.len(),
{
    if e1.len() == 0 {
        if e2.len() > 0 {
            lemma_map_at(e2, 0);
        }
        assert(e1 =~= e2);
    } else {
        lemma_map_at(e1, 0);
        assert(e2.len() > 0);
        lemma_map_at(e2, 0);
        let c = key_index(e2, e1[0].0);
        let d = key_index(e1, e2[0].0);
        lemma_key_less_irreflexive(e1[0].0);
        if c > 0 {
            assert(key_less(e2[0].0, e2[c].0));
            if d > 0 {
                assert(key_less(e1[0].0, e1[d].0));
                lemma_key_less_transitive(e1[0].0, e2[0].0, e1[0].0);
            }
        }
        assert(e1[0].0 == e2[0].0);
        lemma_remove_at(e1, 0);
        lemma_remove_at(e2, 0);
        lemma_entries_determined(e1.remove(0), e2.remove(0));
        assert(e1 =~= seq![e1[0]] + e1.remove(0));
        assert(e2 =~= seq![e2[0]] + e2.remove(0));
    }
}

/// After a list of updates a key is either one the map had or one that an
/// update names.
pub proof fn lemma_apply_all_keys(
    m: Map<Seq<char>, Seq<char>>,
    u: Seq<(Seq<char>, Option<Seq<char>>)>,
)
    ensures
        forall|k: Seq<char>|
            #[trigger] apply_all(m, u).contains_key(k) ==> m.contains_key(k) || exists|i: int|
                0 <= i < u.len() && #[trigger] u[i].0 == k,
    decreases u.len(),
{
    if u.len() > 0 {
        let p = u.drop_last();
        lemma_apply_all_keys(m, p);
        assert forall|k: Seq<char>| #[trigger] apply_all(m, u).contains_key(k) implies m.contains_key(k)
            || exists|i: int| 0 <= i < u.len() && #[trigger] u[i].0 == k by {
            if k == u.last().0 {
                assert(u[u.len() - 1].0 == k);
            } else {
                assert(apply_all(m, p).contains_key(k));
                if !m.contains_key(k) {
                    let i = choose|i: int| 0 <= i < p.len() && #[trigger] p[i].0 == k;
                    assert(u[i].0 == k);
                }
            }
        }
    }
}

/// A checksum manifest of one package.
pub struct Checksum {
    files: Vec<(String, String)>,
    package: Option<String>,
    other: Vec<(String, String)>,
    path: String,
}

impl Checksum {
    /// The entries as plain values, in key order.
    pub closed spec fn entries(&self) -> Seq<EntryView> {
        pair_views(self.files@)
    }

    /// The opaque package field.
    pub closed spec fn package_view(&self) -> Option<Seq<char>> {
        match self.package {
            Some(p) => Some(p@),
            None => None,
        }
    }

    /// Top-level members other than `files` and `package`, carried through
    /// unchanged: each name with the JSON text of its value.
    pub closed spec fn other_view(&self) -> Seq<EntryView> {
        pair_views(self.other@)
    }

    /// Where the manifest lies on disk.
    pub closed spec fn path_view(&self) -> Seq<char> {
        self.path@
    }

    /// The entries are in strict key order.
    pub open spec fn wf(&self) -> bool {
        sorted_keys(self.entries())
    }

    /// The map from paths within the package to digests.
    pub open spec fn files_map(&self) -> Map<Seq<char>, Seq<char>> {
        entries_map(self.entries())
    }

    /// A manifest at `path` built from the entries that were read from it:
    /// each entry in turn sets its key, so a later entry of a repeated key
    /// wins. The package field and the other top-level members (each a name
    /// and the JSON text of its value) are kept as given.
    pub fn new(
        path: String,
        package: Option<String>,
        files: Vec<(String, String)>,
        other: Vec<(String, String)>,
    ) -> (r: Self)
        ensures
            r.wf(),
            r.files_map() == apply_all(Map::empty(), as_updates(pair_views(files@))),
            r.package_view() == opt_view(package),
            r.other_view() == pair_views(other@),
            r.path_view() == path@,
    {
        let mut r = Checksum { files: Vec::new(), package, other, path };
        proof {
            assert(r.files_map() =~= Map::empty());
            assert(as_updates(pair_views(files@)).subrange(0, 0) =~= Seq::empty());
        }
        let mut i: usize = 0;
        while i < files.len()
            invariant
                i <= files.len(),
                r.wf(),
                r.files_map() == apply_all(
                    Map::empty(),
                    as_updates(pair_views(files@)).subrange(0, i as int),
                ),
                r.package_view() == opt_view(package),
                r.other_view() == pair_views(other@),
                r.path_view() == path@,
            decreases files.len() - i,
        {
            let k = files[i].0.clone();
            let v = files[i].1.clone();
            let ghost u = as_updates(pair_views(files@));
            assert(u.subrange(0, i + 1).drop_last() =~= u.subrange(0, i as int));
            assert(u.subrange(0, i + 1).last() == (k@, Some(v@)));
            r.upsert(k, Some(v));
            i = i + 1;
        }
        assert(as_updates(pair_views(files@)).subrange(0, files.len() as int) =~= as_updates(
            pair_views(files@),
        ));
        r
    }

    /// The paths within the package that the manifest lists, in key order.
    pub fn keys(&self) -> (r: Vec<String>)
        ensures
            r.len() == self.entries().len(),
            forall|i: int| 0 <= i < r.len() ==> #[trigger] r@[i]@ == self.entries()[i].0,
    {
        let mut r: Vec<String> = Vec::new();
        let mut i: usize = 0;
        while i < self.files.len()
            invariant
                i <= self.files.len(),
                r.len() == i,
                forall|j: int| 0 <= j < i ==> #[trigger] r@[j]@ == self.entries()[j].0,
            decreases self.files.len() - i,
        {
            r.push(self.files[i].0.clone());
            i = i + 1;
        }
        r
    }

    /// Where the manifest is written.
    pub fn path(&self) -> (r: &String)
        ensures
            r@ == self.path_view(),
    {
        &self.path
    }

    /// The opaque package field.
    pub fn package(&self) -> (r: &Option<String>)
        ensures
            opt_view(*r) == self.package_view(),
    {
        &self.package
    }

    /// Rehashes every listed key: the `i`-th key in key order gets `digests[i]`,
    /// or leaves the manifest where that is `None`. No key is added.
    pub fn rehash(&mut self, digests: Vec<Option<String>>)
        requires
            old(self).wf(),
            digests.len() == old(self).entries().len(),
        ensures
            final(self).wf(),
            forall|i: int|
                0 <= i < digests.len() ==> final(self).files_map().contains_key(
                    #[trigger] old(self).entries()[i].0,
                ) == (digests@[i] is Some),
            forall|i: int|
                0 <= i < digests.len() ==> (digests@[i] matches Some(v) ==> final(self).files_map()[
                #[trigger] old(self).entries()[i].0] == v@),
            forall|k: Seq<char>|
                #[trigger] final(self).files_map().contains_key(k) ==> old(self).files_map().contains_key(k),
            final(self).package_view() == old(self).package_view(),
            final(self).other_view() == old(self).other_view(),
            final(self).path_view() == old(self).path_view(),
    {
        let keys = self.keys();
        let ghost e = self.entries();
        let ghost m0 = self.files_map();
        let ghost u = Seq::new(e.len(), |i: int| (e[i].0, opt_view(digests@[i])));
        proof {
            assert forall|i: int, j: int|
                0 <= i < u.len() && 0 <= j < u.len() && #[trigger] u[i].0 == #[trigger] u[j].0 implies u[i]
                == u[j] by {
                if i != j {
                    lemma_key_less_irreflexive(e[i].0);
                    if i < j {
                        assert(key_less(e[i].0, e[j].0));
                    } else {
                        assert(key_less(e[j].0, e[i].0));
                    }
                }
            }
            assert(u.subrange(0, 0) =~= Seq::empty());
        }
        let mut i: usize = 0;
        while i < keys.len()
            invariant
                i <= keys.len(),
                keys.len() == digests.len(),
                keys.len() == e.len(),
                forall|j: int| 0 <= j < keys.len() ==> #[trigger] keys@[j]@ == e[j].0,
                u == Seq::new(e.len(), |i: int| (e[i].0, opt_view(digests@[i]))),
                self.wf(),
                self.files_map() == apply_all(m0, u.subrange(0, i as int)),
                self.package_view() == old(self).package_view(),
                self.other_view() == old(self).other_view(),
                self.path_view() == old(self).path_view(),
            decreases keys.len() - i,
        {
            let k = keys[i].clone();
            let d = digests[i].clone();
            assert(u.subrange(0, i + 1).drop_last() =~= u.subrange(0, i as int));
            assert(u.subrange(0, i + 1).last() == (k@, opt_view(d)));
            self.upsert(k, d);
            i = i + 1;
        }
        proof {
            assert(u.subrange(0, keys.len() as int) =~= u);
            lemma_apply_all_consistent(m0, u);
            lemma_apply_all_keys(m0, u);
            assert forall|i: int| 0 <= i < digests.len() implies #[trigger] e[i].0 == u[i].0 by {}
            assert forall|k: Seq<char>| #[trigger] self.files_map().contains_key(k) implies m0.contains_key(k) by {
                if !m0.contains_key(k) {
                    let j = choose|j: int| 0 <= j < u.len() && #[trigger] u[j].0 == k;
                    lemma_map_at(e, j);
                }
            }
        }
    }

    /// The document that persisting the manifest writes to its path, in
    /// place of all it held: the entries in key order, the package field, then
    /// the other top-level members as they were read.
    pub fn write(&self) -> (r: Result<String, SyncError>)
        ensures
            r matches Ok(t) && t@ == manifest_text(
                self.entries(),
                self.package_view(),
                self.other_view(),
            ),
    {
        let ghost e = self.entries();
        let head = "{\"files\":{";
        proof {
            reveal_strlit("{\"files\":{");
            assert(head@ =~= files_open());
            assert(e.subrange(0, 0) =~= Seq::empty());
        }
        let mut out = String::from_str(head);
        let mut i: usize = 0;
        while i < self.files.len()
            invariant
                i <= self.files.len(),
                e == self.entries(),
                out@ == files_open() + entries_text(e.subrange(0, i as int)),
            decreases self.files.len() - i,
        {
            let k = json_string(self.files[i].0.as_str()).unwrap();
            let v = json_string(self.files[i].1.as_str()).unwrap();
            let ghost prev = out@;
            if i > 0 {
                out.append(",");
            }
            out.append(k.as_str());
            out.append(":");
            out.append(v.as_str());
            proof {
                reveal_strlit(",");
                reveal_strlit(":");
                let s1 = e.subrange(0, i + 1);
                assert(s1.drop_last() =~= e.subrange(0, i as int));
                assert(s1.last() == e[i as int]);
                if i == 0 {
                    assert(s1 =~= seq![e[0]]);
                    assert(out@ =~= prev + entry_text(e[0]));
                } else {
                    assert(out@ =~= prev + seq![','] + entry_text(e[i as int]));
                }
            }
            i = i + 1;
        }
        assert(e.subrange(0, self.files.len() as int) =~= e);
        let mid = "},\"package\":";
        proof {
            reveal_strlit("},\"package\":");
            assert(mid@ =~= package_open());
        }
        out.append(mid);
        match &self.package {
            Some(p) => {
                let q = json_string(p.as_str()).unwrap();
                out.append(q.as_str());
            },
            None => {
                proof {
                    reveal_strlit("null");
                }
                out.append("null");
                assert("null"@ =~= null_text());
            },
        }
        let ghost o = self.other_view();
        let ghost before_other = out@;
        assert(o.subrange(0, 0) =~= Seq::empty());
        let mut j: usize = 0;
        while j < self.other.len()
            invariant
                j <= self.other.len(),
                o == self.other_view(),
                out@ == before_other + other_text(o.subrange(0, j as int)),
            decreases self.other.len() - j,
        {
            let name = json_string(self.other[j].0.as_str()).unwrap();
            let ghost prev = out@;
            out.append(",");
            out.append(name.as_str());
            out.append(":");
            out.append(self.other[j].1.as_str());
            proof {
                reveal_strlit(",");
                reveal_strlit(":");
                let s1 = o.subrange(0, j + 1);
                assert(s1.drop_last() =~= o.subrange(0, j as int));
                assert(s1.last() == o[j as int]);
                assert(o[j as int] == (self.other@[j as int].0@, self.other@[j as int].1@));
                assert(out@ =~= prev + seq![','] + json_quoted(o[j as int].0) + seq![':'] + o[
                    j as int].1);
            }
            j = j + 1;
        }
        assert(o.subrange(0, self.other.len() as int) =~= o);
        out.append("}");
        proof {
            reveal_strlit("}");
        }
        assert(out@ =~= manifest_text(e, self.package_view(), o));
        Ok(out)
    }

    /// Sets the digest of `key`, or removes `key` where no digest is given.
    pub fn upsert(&mut self, key: String, digest: Option<String>)
        requires
            old(self).wf(),
        ensures
            final(self).wf(),
            final(self).files_map() == apply_update(
                old(self).files_map(),
                key@,
                match digest {
                    Some(d) => Some(d@),
                    None => None,
                },
            ),
            final(self).package_view() == old(self).package_view(),
            final(self).other_view() == old(self).other_view(),
            final(self).path_view() == old(self).path_view(),
    {
        let ghost e = self.entries();
        let n = self.files.len();
        let mut j: usize = 0;
        while j < n && key_before(self.files[j].0.as_str(), key.as_str())
            invariant
                j <= n,
                n == self.files.len(),
                e == self.entries(),
                sorted_keys(e),
                forall|i: int| 0 <= i < j ==> key_less(#[trigger] e[i].0, key@),
            decreases n - j,
        {
            j = j + 1;
        }
        let found = j < n && !key_before(key.as_str(), self.files[j].0.as_str());
        proof {
            if j < n {
                assert(e[j as int] == (self.files@[j as int].0@, self.files@[j as int].1@));
                if e[j as int].0 != key@ {
                    lemma_key_less_total(e[j as int].0, key@);
                }
                assert forall|i: int| j < i < n implies key_less(key@, #[trigger] e[i].0) by {
                    if !found {
                        lemma_key_less_transitive(key@, e[j as int].0, e[i].0);
                    }
                }
            }
        }
        match digest {
            Some(d) => {
                if found {
                    self.files.remove(j);
                    proof {
                        lemma_remove_at(e, j as int);
                        assert(self.entries() =~= e.remove(j as int));
                        assert forall|i: int| j <= i < self.entries().len() implies key_less(
                            key@,
                            #[trigger] self.entries()[i].0,
                        ) by {
                            assert(self.entries()[i] == e[i + 1]);
                        }
                    }
                }
                let ghost e1 = self.entries();
                let ghost dd = d@;
                self.files.insert(j, (key, d));
                proof {
                    lemma_insert_at(e1, j as int, key@, dd);
                    assert(self.entries() =~= e1.insert(j as int, (key@, dd)));
                    if found {
                        assert(entries_map(e).remove(key@).insert(key@, dd) =~= entries_map(
                            e,
                        ).insert(key@, dd));
                    }
                }
            },
            None => {
                if found {
                    self.files.remove(j);
                    proof {
                        lemma_remove_at(e, j as int);
                        assert(self.entries() =~= e.remove(j as int));
                    }
                } else {
                    proof {
                        lemma_key_less_irreflexive(key@);
                        assert(!entries_map(e).contains_key(key@));
                        assert(entries_map(e).remove(key@) =~= entries_map(e));
                    }
                }
            },
        }
    }
}

/// Two manifests with the same map and package field are written as the same
/// document, whatever updates led to them.
pub proof fn lemma_same_map_same_text(a: Checksum, b: Checksum)
    requires
        a.wf(),
        b.wf(),
        a.files_map() == b.files_map(),
        a.package_view() == b.package_view(),
        a.other_view() == b.other_view(),
    ensures
        manifest_text(a.entries(), a.package_view(), a.other_view()) == manifest_text(
            b.entries(),
            b.package_view(),
            b.other_view(),
        ),
{
    lemma_entries_determined(a.entries(), b.entries());
}

/// Running the same update again on its own result changes neither the map
/// nor the written document.
pub proof fn lemma_rerun_unchanged(
    start: Map<Seq<char>, Seq<char>>,
    first: Checksum,
    second: Checksum,
    k: Seq<char>,
    d: Option<Seq<char>>,
)
    requires
        first.wf(),
        second.wf(),
        first.files_map() == apply_update(start, k, d),
        second.files_map() == apply_update(first.files_map(), k, d),
        second.package_view() == first.package_view(),
        second.other_view() == first.other_view(),
    ensures
        second.files_map() == first.files_map(),
        manifest_text(second.entries(), second.package_view(), second.other_view())
            == manifest_text(first.entries(), first.package_view(), first.other_view()),
{
    lemma_update_idempotent(start, k, d);
    lemma_same_map_same_text(first, second);
}

/// Two runs that apply the same consistent updates to the same manifest, in
/// any order, write the same document.
pub proof fn lemma_order_independent_text(
    start: Map<Seq<char>, Seq<char>>,
    a: Checksum,
    b: Checksum,
    u1: Seq<(Seq<char>, Option<Seq<char>>)>,
    u2: Seq<(Seq<char>, Option<Seq<char>>)>,
)
    requires
        a.wf(),
        b.wf(),
        consistent(u1),
        consistent(u2),
        u1.to_set() == u2.to_set(),
        a.files_map() == apply_all(start, u1),
        b.files_map() == apply_all(start, u2),
        a.package_view() == b.package_view(),
        a.other_view() == b.other_view(),
    ensures
        manifest_text(a.entries(), a.package_view(), a.other_view()) == manifest_text(
            b.entries(),
            b.package_view(),
            b.other_view(),
        ),
{
    lemma_order_irrelevant(start, u1, u2);
    lemma_same_map_same_text(a, b);
}

/// Building a manifest from the entries of a sorted list, in their order,
/// gives back the map of that list.
pub proof fn lemma_rebuild(e: Seq<EntryView>)
    requires
        sorted_keys(e),
    ensures
        apply_all(Map::empty(), as_updates(e)) == entries_map(e),
    decreases e.len(),
{
    if e.len() == 0 {
        assert(entries_map(e) =~= Map::empty());
    } else {
        let p = e.drop_last();
        let n = e.len() - 1;
        assert(sorted_keys(p));
        lemma_rebuild(p);
        assert(as_updates(e).drop_last() =~= as_updates(p));
        assert(as_updates(e).last() == (e[n].0, Some(e[n].1)));
        assert(forall|i: int| 0 <= i < n ==> key_less(#[trigger] p[i].0, e[n].0));
        lemma_insert_at(p, n, e[n].0, e[n].1);
        assert(p.insert(n, (e[n].0, e[n].1)) =~= e);
    }
}

/// A removal leaves the key out of the map, and leaves a map without the key
/// as it was.
pub proof fn lemma_removal(m: Map<Seq<char>, Seq<char>>, k: Seq<char>)
    ensures
        !apply_update(m, k, None).contains_key(k),
        !m.contains_key(k) ==> apply_update(m, k, None) == m,
{
    if !m.contains_key(k) {
        assert(m.remove(k) =~= m);
    }
}

} // verus!
