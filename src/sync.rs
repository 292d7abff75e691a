//! The decisions of an update run: which files a request names, what each
//! file's state means for its entry, and how the results are merged into each
//! package's manifest.
use vstd::prelude::*;
use crate::digest::{sha256_digest, sha256_hex};
use crate::manifest::{apply_all, apply_update, opt_view, Checksum};
use crate::path::{in_package_of, join_path, joined, package_of, segments, split_vendor_relative_path, views};
use crate::error::SyncError;

verus! {

/// What was found on disk for a file that an update names.
pub enum FileState {
    /// The file does not exist.
    Missing,
    /// The file's content.
    Content(Vec<u8>),
}

/// What an update does to a file's entry, given what was found on disk:
/// a file's content gives its digest; a missing file is removed from the
/// manifest where that was asked for, and is an error otherwise.
pub fn file_update(path: &str, ignore_missing: bool, state: &FileState) -> (r: Result<
    Option<String>,
    SyncError,
>)
    ensures
        match state {
            FileState::Content(b) => r matches Ok(Some(d)) && d@ == sha256_hex(b@),
            FileState::Missing => if ignore_missing {
                r matches Ok(None)
            } else {
                r matches Err(SyncError::Io { path: p }) && p@ == path@
            },
        },
{
    match state {
        FileState::Content(b) => Ok(Some(sha256_digest(b))),
        FileState::Missing => {
            if ignore_missing {
                Ok(None)
            } else {
                Err(SyncError::Io { path: String::from_str(path) })
            }
        },
    }
}

/// A file that an explicit request names.
pub struct FileTarget {
    /// The package: the first segment of the request.
    pub package: String,
    /// The path within the package.
    pub file_in_package: String,
    /// The file's path below the vendor root.
    pub full_path: String,
}

/// The plain values of a target: package and path within it.
pub open spec fn target_view(t: FileTarget) -> (Seq<char>, Seq<char>) {
    (t.package@, t.file_in_package@)
}

/// The targets of an explicit request, in request order. The first path with
/// fewer than two segments is refused.
pub fn plan_files_in_vendor_dir(vendor: &str, files: &Vec<String>) -> (r: Result<
    Vec<FileTarget>,
    SyncError,
>)
    ensures
        (forall|i: int| 0 <= i < files.len() ==> segments(#[trigger] files@[i]@).len() >= 2)
            <==> r is Ok,
        r matches Ok(ts) ==> ts.len() == files.len() && forall|i: int|
            0 <= i < files.len() ==> {
                &&& #[trigger] ts@[i].package@ == package_of(files@[i]@)
                &&& ts@[i].file_in_package@ == in_package_of(files@[i]@)
                &&& ts@[i].full_path@ == joined(vendor@, files@[i]@)
            },
        r matches Err(e) ==> exists|j: int|
            0 <= j < files.len() && segments(#[trigger] files@[j]@).len() < 2 && (forall|i: int|
                0 <= i < j ==> segments(#[trigger] files@[i]@).len() >= 2) && (e matches SyncError::InvalidRequest { path: p } && p@ == files@[j]@),
{
    let mut ts: Vec<FileTarget> = Vec::new();
    let mut i: usize = 0;
    while i < files.len()
        invariant
            i <= files.len(),
            ts.len() == i,
            forall|j: int| 0 <= j < i ==> segments(#[trigger] files@[j]@).len() >= 2,
            forall|j: int|
                0 <= j < i ==> {
                    &&& #[trigger] ts@[j].package@ == package_of(files@[j]@)
                    &&& ts@[j].file_in_package@ == in_package_of(files@[j]@)
                    &&& ts@[j].full_path@ == joined(vendor@, files@[j]@)
                },
        decreases files.len() - i,
    {
        match split_vendor_relative_path(files[i].as_str()) {
            Ok((package, file_in_package)) => {
                let full_path = join_path(vendor, files[i].as_str());
                ts.push(FileTarget { package, file_in_package, full_path });
            },
            Err(e) => {
                return Err(e);
            },
        }
        i = i + 1;
    }
    Ok(ts)
}

/// The updates among `t` (targets) and `d` (their results) that fall to
/// package `pkg`, in order.
pub open spec fn updates_for(
    t: Seq<(Seq<char>, Seq<char>)>,
    d: Seq<Option<Seq<char>>>,
    pkg: Seq<char>,
) -> Seq<(Seq<char>, Option<Seq<char>>)>
    decreases t.len(),
{
    if t.len() == 0 || t.len() != d.len() {
        Seq::empty()
    } else {
        let p = updates_for(t.drop_last(), d.drop_last(), pkg);
        if t.last().0 == pkg {
            p.push((t.last().1, d.last()))
        } else {
            p
        }
    }
}

/// One of the first `n` targets names package `p`.
pub open spec fn names_package(t: Seq<FileTarget>, n: int, p: Seq<char>) -> bool {
    exists|k: int| 0 <= k < n && #[trigger] t[k].package@ == p
}

/// The packages that targets name, each once.
pub fn touched_packages(targets: &Vec<FileTarget>) -> (r: Vec<String>)
    ensures
        views(r@).no_duplicates(),
        forall|i: int| 0 <= i < targets.len() ==> views(r@).contains(#[trigger] targets@[i].package@),
        forall|j: int| 0 <= j < r.len() ==> names_package(targets@, targets.len() as int, #[trigger] r@[j]@),
{
    let mut r: Vec<String> = Vec::new();
    let mut i: usize = 0;
    while i < targets.len()
        invariant
            i <= targets.len(),
            views(r@).no_duplicates(),
            forall|k: int| 0 <= k < i ==> views(r@).contains(#[trigger] targets@[k].package@),
            forall|j: int| 0 <= j < r.len() ==> names_package(targets@, i as int, #[trigger] r@[j]@),
        decreases targets.len() - i,
    {
        let found = position_of(&r, &targets[i].package);
        if found.is_none() {
            let ghost before = r@;
            r.push(targets[i].package.clone());
            proof {
                assert(views(r@) =~= views(before).push(targets@[i as int].package@));
                assert(r@[r.len() - 1]@ == targets@[i as int].package@);
                assert forall|j: int| 0 <= j < r.len() implies names_package(
                    targets@,
                    i + 1,
                    #[trigger] r@[j]@,
                ) by {
                    if j < before.len() {
                        assert(r@[j] == before[j]);
                        assert(names_package(targets@, i as int, before[j]@));
                    } else {
                        assert(targets@[i as int].package@ == r@[j]@);
                    }
                }
                assert forall|k: int| 0 <= k <= i implies views(r@).contains(
                    #[trigger] targets@[k].package@,
                ) by {
                    if k < i {
                        let j = choose|j: int|
                            0 <= j < before.len() && views(before)[j] == targets@[k].package@;
                        assert(views(r@)[j] == targets@[k].package@);
                    } else {
                        assert(views(r@)[r.len() - 1] == targets@[k].package@);
                    }
                }
            }
        } else {
            proof {
                let j = found->0 as int;
                assert(views(r@)[j] == targets@[i as int].package@);
            }
        }
        i = i + 1;
    }
    r
}

/// Where `name` stands among `names`, if it does.
pub fn position_of(names: &Vec<String>, name: &String) -> (r: Option<usize>)
    ensures
        r matches Some(j) ==> j < names.len() && names@[j as int]@ == name@,
        r is None ==> !views(names@).contains(name@),
{
    let mut j: usize = 0;
    while j < names.len()
        invariant
            j <= names.len(),
            forall|k: int| 0 <= k < j ==> names@[k]@ != name@,
        decreases names.len() - j,
    {
        if names[j] == *name {
            return Some(j);
        }
        j = j + 1;
    }
    proof {
        if views(names@).contains(name@) {
            let k = choose|k: int| 0 <= k < names.len() && views(names@)[k] == name@;
            assert(names@[k]@ == name@);
        }
    }
    None
}

/// The targets' plain values.
pub open spec fn target_views(t: Seq<FileTarget>) -> Seq<(Seq<char>, Seq<char>)> {
    t.map_values(|x: FileTarget| target_view(x))
}

/// The results' plain values.
pub open spec fn opt_views(d: Seq<Option<String>>) -> Seq<Option<Seq<char>>> {
    d.map_values(|o: Option<String>| opt_view(o))
}

/// Merges the results of an explicit request into the manifests of the
/// packages that it touches: `manifests[p]` belongs to `packages[p]`, and
/// `updates[i]` is the result for `targets[i]`. Each manifest gets the
/// updates of its own package, in request order.
pub fn merge_file_updates(
    packages: &Vec<String>,
    manifests: &mut Vec<Checksum>,
    targets: &Vec<FileTarget>,
    updates: &Vec<Option<String>>,
)
    requires
        views(packages@).no_duplicates(),
        old(manifests).len() == packages.len(),
        forall|p: int| #![trigger old(manifests)@[p]] 0 <= p < packages.len() ==> old(manifests)@[p].wf(),
        updates.len() == targets.len(),
        forall|i: int| 0 <= i < targets.len() ==> views(packages@).contains(#[trigger] targets@[i].package@),
    ensures
        final(manifests).len() == packages.len(),
        forall|p: int|
            #![trigger final(manifests)@[p]]
            0 <= p < packages.len() ==> {
                &&& final(manifests)@[p].wf()
                &&& final(manifests)@[p].files_map() == apply_all(
                    old(manifests)@[p].files_map(),
                    updates_for(target_views(targets@), opt_views(updates@), packages@[p]@),
                )
                &&& final(manifests)@[p].package_view() == old(manifests)@[p].package_view()
                &&& final(manifests)@[p].other_view() == old(manifests)@[p].other_view()
                &&& final(manifests)@[p].path_view() == old(manifests)@[p].path_view()
            },
{
    let ghost orig = manifests@;
    let ghost tv = target_views(targets@);
    let ghost dv = opt_views(updates@);
    proof {
        assert forall|p: int| 0 <= p < packages.len() implies apply_all(
            orig[p].files_map(),
            updates_for(tv.subrange(0, 0), dv.subrange(0, 0), packages@[p]@),
        ) == orig[p].files_map() by {
            assert(tv.subrange(0, 0).len() == 0);
        }
    }
    let mut i: usize = 0;
    while i < targets.len()
        invariant
            i <= targets.len(),
            updates.len() == targets.len(),
            tv == target_views(targets@),
            dv == opt_views(updates@),
            manifests.len() == packages.len(),
            views(packages@).no_duplicates(),
            forall|k: int| 0 <= k < targets.len() ==> views(packages@).contains(#[trigger] targets@[k].package@),
            forall|p: int|
                #![trigger manifests@[p]]
                0 <= p < packages.len() ==> {
                    &&& manifests@[p].wf()
                    &&& manifests@[p].files_map() == apply_all(
                        orig[p].files_map(),
                        updates_for(tv.subrange(0, i as int), dv.subrange(0, i as int), packages@[p]@),
                    )
                    &&& manifests@[p].package_view() == orig[p].package_view()
                    &&& manifests@[p].other_view() == orig[p].other_view()
                    &&& manifests@[p].path_view() == orig[p].path_view()
                },
        decreases targets.len() - i,
    {
        let found = position_of(packages, &targets[i].package);
        proof {
            if found is None {
                assert(views(packages@).contains(targets@[i as int].package@));
            }
        }
        let p = found.unwrap();
        let k = targets[i].file_in_package.clone();
        let d = updates[i].clone();
        let ghost before = manifests@;
        let mut c = manifests.remove(p);
        let ghost c0 = c;
        c.upsert(k, d);
        let ghost c1 = c;
        manifests.insert(p, c);
        assert(manifests@ == before.remove(p as int).insert(p as int, c1));
        proof {
            let t1 = tv.subrange(0, i + 1);
            let d1 = dv.subrange(0, i + 1);
            assert(t1.drop_last() =~= tv.subrange(0, i as int));
            assert(d1.drop_last() =~= dv.subrange(0, i as int));
            assert(t1.last() == (targets@[i as int].package@, k@));
            assert(d1.last() == opt_view(d));
            assert forall|q: int| #![trigger manifests@[q]] 0 <= q < packages.len() implies {
                &&& manifests@[q].wf()
                &&& manifests@[q].files_map() == apply_all(
                    orig[q].files_map(),
                    updates_for(tv.subrange(0, i + 1), dv.subrange(0, i + 1), packages@[q]@),
                )
                &&& manifests@[q].package_view() == orig[q].package_view()
                &&& manifests@[q].other_view() == orig[q].other_view()
                &&& manifests@[q].path_view() == orig[q].path_view()
            } by {
                let u0 = updates_for(tv.subrange(0, i as int), dv.subrange(0, i as int), packages@[q]@);
                assert(t1.len() == d1.len() && t1.len() > 0);
                if q == p {
                    let u1 = u0.push((k@, opt_view(d)));
                    assert(t1.last().0 == packages@[q]@);
                    assert(updates_for(t1, d1, packages@[q]@) == u1);
                    assert(u1.drop_last() =~= u0);
                    assert(u1.last() == (k@, opt_view(d)));
                    assert(manifests@[q] == c1);
                    assert(c0 == before[q]);
                    assert(c1.files_map() == apply_update(c0.files_map(), k@, opt_view(d)));
                    assert(apply_all(orig[q].files_map(), u1) == apply_update(
                        apply_all(orig[q].files_map(), u0),
                        k@,
                        opt_view(d),
                    ));
                } else {
                    assert(manifests@[q] == before[q]);
                    assert(views(packages@)[q] != views(packages@)[p as int]);
                    assert(t1.last().0 != packages@[q]@);
                    assert(updates_for(t1, d1, packages@[q]@) == u0);
                }
            }
        }
        i = i + 1;
    }
    proof {
        assert(tv.subrange(0, targets.len() as int) =~= tv);
        assert(dv.subrange(0, targets.len() as int) =~= dv);
    }
}

} // verus!
