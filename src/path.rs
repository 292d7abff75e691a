//! Vendor-relative paths: splitting into package and path within the package,
//! and joining paths.
use vstd::prelude::*;
use crate::error::SyncError;

verus! {

/// The separator between path segments.
pub open spec fn is_sep(c: char) -> bool {
    c == '/'
}

/// A finished run of characters counts as a segment: it is not empty, and a
/// `.` (the directory itself) counts only as the first segment.
pub open spec fn keeps_segment(done: Seq<Seq<char>>, cur: Seq<char>) -> bool {
    cur.len() > 0 && (done.len() == 0 || cur != seq!['.'])
}

/// One step of cutting a path into segments: the segments finished so far and
/// the one being read, after one more character.
pub open spec fn seg_step(
    st: (Seq<Seq<char>>, Seq<char>),
    c: char,
) -> (Seq<Seq<char>>, Seq<char>) {
    if is_sep(c) {
        if keeps_segment(st.0, st.1) {
            (st.0.push(st.1), Seq::empty())
        } else {
            (st.0, Seq::empty())
        }
    } else {
        (st.0, st.1.push(c))
    }
}

/// The state of cutting into segments after the characters of `s`, starting
/// from `st`.
pub open spec fn seg_run(st: (Seq<Seq<char>>, Seq<char>), s: Seq<char>) -> (
    Seq<Seq<char>>,
    Seq<char>,
)
    decreases s.len(),
{
    if s.len() == 0 {
        st
    } else {
        seg_step(seg_run(st, s.drop_last()), s.last())
    }
}

/// The state of cutting `s` into segments after all of its characters.
pub open spec fn seg_state(s: Seq<char>) -> (Seq<Seq<char>>, Seq<char>) {
    seg_run((Seq::empty(), Seq::empty()), s)
}

/// The segments of a path: the non-empty runs of characters between
/// separators. Leading, trailing and repeated separators add no segment, nor
/// does a `.` after the first segment.
pub open spec fn segments(s: Seq<char>) -> Seq<Seq<char>> {
    let st = seg_state(s);
    if keeps_segment(st.0, st.1) {
        st.0.push(st.1)
    } else {
        st.0
    }
}

/// Segments joined by single separators.
pub open spec fn join_segments(segs: Seq<Seq<char>>) -> Seq<char>
    decreases segs.len(),
{
    if segs.len() == 0 {
        Seq::empty()
    } else if segs.len() == 1 {
        segs[0]
    } else {
        join_segments(segs.drop_last()) + seq!['/'] + segs.last()
    }
}

/// A path written in its plain form: its segments joined by single
/// separators, with no separator in front or at the end.
pub open spec fn is_normal(s: Seq<char>) -> bool {
    join_segments(segments(s)) == s
}

/// The package that a vendor-relative path names: its first segment.
pub open spec fn package_of(s: Seq<char>) -> Seq<char> {
    segments(s)[0]
}

/// The path within the package: the remaining segments, joined.
pub open spec fn in_package_of(s: Seq<char>) -> Seq<char> {
    join_segments(segments(s).drop_first())
}

/// `rel` appended to `base` as Path::join does for a relative path.
pub open spec fn joined(base: Seq<char>, rel: Seq<char>) -> Seq<char> {
    if base.len() == 0 {
        rel
    } else if is_sep(base.last()) {
        base + rel
    } else {
        base + seq!['/'] + rel
    }
}

/// The fixed name of a package's manifest file.
pub open spec fn manifest_name() -> Seq<char> {
    seq!['.', 'c', 'a', 'r', 'g', 'o', '-', 'c', 'h', 'e', 'c', 'k', 's', 'u', 'm', '.', 'j', 's', 'o', 'n']
}

/// The view of each string in a vector.
pub open spec fn views(v: Seq<String>) -> Seq<Seq<char>> {
    v.map_values(|s: String| s@)
}

/// Whether `path[start..end]` is the single character `.`.
fn is_dot(path: &str, start: usize, end: usize) -> (r: bool)
    requires
        start < end <= path@.len(),
    ensures
        r == (path@.subrange(start as int, end as int) == seq!['.']),
{
    if end - start == 1 {
        let c = path.get_char(start);
        proof {
            if c == '.' {
                assert(path@.subrange(start as int, end as int) =~= seq!['.']);
            } else {
                assert(path@.subrange(start as int, end as int)[0] != seq!['.'][0]);
            }
        }
        c == '.'
    } else {
        proof {
            assert(path@.subrange(start as int, end as int).len() != seq!['.'].len());
        }
        false
    }
}

/// The segments of `path`, in order.
pub fn path_segments(path: &str) -> (r: Vec<String>)
    ensures
        views(r@) == segments(path@),
{
    let n = path.unicode_len();
    let mut done: Vec<String> = Vec::new();
    let mut start: usize = 0;
    let mut i: usize = 0;
    while i < n
        invariant
            n == path@.len(),
            start <= i <= n,
            seg_state(path@.subrange(0, i as int)) == (
                views(done@),
                path@.subrange(start as int, i as int),
            ),
        decreases n - i,
    {
        let c = path.get_char(i);
        assert(path@.subrange(0, i + 1).drop_last() =~= path@.subrange(0, i as int));
        assert(path@.subrange(0, i + 1).last() == c);
        if c == '/' {
            if start < i && (done.len() == 0 || !is_dot(path, start, i)) {
                let seg = String::from_str(path.substring_char(start, i));
                let ghost before = done@;
                done.push(seg);
                assert(views(done@) =~= views(before).push(seg@));
            }
            start = i + 1;
            assert(path@.subrange(start as int, start as int) =~= Seq::<char>::empty());
        } else {
            assert(path@.subrange(start as int, i + 1) =~= path@.subrange(
                start as int,
                i as int,
            ).push(c));
        }
        i = i + 1;
    }
    assert(path@.subrange(0, n as int) =~= path@);
    let mut r = done;
    if start < n && (r.len() == 0 || !is_dot(path, start, n)) {
        let seg = String::from_str(path.substring_char(start, n));
        let ghost before = r@;
        r.push(seg);
        assert(views(r@) =~= views(before).push(seg@));
    }
    r
}

/// Joins `segs[1..]` with single separators.
fn join_tail(segs: &Vec<String>) -> (r: String)
    requires
        segs.len() >= 2,
    ensures
        r@ == join_segments(views(segs@).drop_first()),
{
    let mut acc = segs[1].clone();
    let mut i: usize = 2;
    proof {
        reveal_strlit("/");
        assert(views(segs@).subrange(1, 2) =~= seq![segs@[1]@]);
    }
    while i < segs.len()
        invariant
            2 <= i <= segs.len(),
            acc@ == join_segments(views(segs@).subrange(1, i as int)),
        decreases segs.len() - i,
    {
        let ghost part = views(segs@).subrange(1, i + 1);
        assert(part.drop_last() =~= views(segs@).subrange(1, i as int));
        assert(part.last() == segs@[i as int]@);
        acc.append("/");
        acc.append(segs[i].as_str());
        proof {
            reveal_strlit("/");
        }
        i = i + 1;
    }
    assert(views(segs@).subrange(1, segs.len() as int) =~= views(segs@).drop_first());
    acc
}

/// Splits a vendor-relative path into the package it names and the path
/// within that package. A path with fewer than two segments names no file of
/// a package and is refused.
pub fn split_vendor_relative_path(path: &str) -> (r: Result<(String, String), SyncError>)
    ensures
        segments(path@).len() >= 2 <==> r is Ok,
        r matches Ok((pkg, file)) ==> pkg@ == package_of(path@) && file@ == in_package_of(
            path@,
        ),
        r matches Err(e) ==> e matches SyncError::InvalidRequest { path: p } && p@ == path@,
{
    let segs = path_segments(path);
    if segs.len() < 2 {
        Err(SyncError::InvalidRequest { path: String::from_str(path) })
    } else {
        let pkg = segs[0].clone();
        let file = join_tail(&segs);
        Ok((pkg, file))
    }
}

/// `rel` appended to `base` with one separator between them.
pub fn join_path(base: &str, rel: &str) -> (r: String)
    ensures
        r@ == joined(base@, rel@),
{
    let mut out = String::from_str(base);
    let n = base.unicode_len();
    if n > 0 && base.get_char(n - 1) != '/' {
        out.append("/");
        proof {
            reveal_strlit("/");
        }
    }
    out.append(rel);
    out
}

/// Where a package's manifest lies: `vendor/package/.cargo-checksum.json`.
pub fn manifest_path(vendor: &str, package: &str) -> (r: String)
    ensures
        r@ == joined(joined(vendor@, package@), manifest_name()),
{
    let dir = join_path(vendor, package);
    let name = ".cargo-checksum.json";
    proof {
        reveal_strlit(".cargo-checksum.json");
        assert(name@ =~= manifest_name());
    }
    join_path(dir.as_str(), name)
}

/// A join of two or more segments is the first one, a separator, and the join
/// of the rest.
proof fn lemma_join_front(segs: Seq<Seq<char>>)
    requires
        segs.len() >= 2,
    ensures
        join_segments(segs) == segs[0] + seq!['/'] + join_segments(segs.drop_first()),
    decreases segs.len(),
{
    if segs.len() == 2 {
        assert(segs.drop_first() =~= seq![segs[1]]);
        assert(segs.drop_last() =~= seq![segs[0]]);
        assert(join_segments(seq![segs[1]]) == segs[1]);
        assert(join_segments(seq![segs[0]]) == segs[0]);
    } else {
        lemma_join_front(segs.drop_last());
        assert(segs.drop_last().drop_first() =~= segs.drop_first().drop_last());
        assert(segs.drop_first().last() == segs.last());
        assert(segs.drop_last()[0] == segs[0]);
        assert(join_segments(segs.drop_first()) == join_segments(segs.drop_first().drop_last())
            + seq!['/'] + segs.drop_first().last());
        assert((segs[0] + seq!['/'] + join_segments(segs.drop_last().drop_first())) + seq!['/']
            + segs.last() =~= segs[0] + seq!['/'] + (join_segments(
            segs.drop_first().drop_last(),
        ) + seq!['/'] + segs.drop_first().last()));
    }
}

/// Splitting a vendor-relative path in plain form and joining the package and
/// the path within it by a separator gives back the path.
pub proof fn lemma_split_rejoin(path: Seq<char>)
    requires
        is_normal(path),
        segments(path).len() >= 2,
    ensures
        package_of(path) + seq!['/'] + in_package_of(path) == path,
{
    lemma_join_front(segments(path));
}

/// No character of `w` is a separator.
pub open spec fn no_sep(w: Seq<char>) -> bool {
    forall|i: int| 0 <= i < w.len() ==> !is_sep(#[trigger] w[i])
}

/// Segments as cutting yields them: each non-empty and free of separators,
/// and `.` at most as the first.
pub open spec fn clean(segs: Seq<Seq<char>>) -> bool {
    forall|i: int|
        0 <= i < segs.len() ==> #[trigger] segs[i].len() > 0 && no_sep(segs[i]) && (i > 0
            ==> segs[i] != seq!['.'])
}

/// Cutting `a + b` is cutting `a`, then `b`.
proof fn lemma_seg_run_append(st: (Seq<Seq<char>>, Seq<char>), a: Seq<char>, b: Seq<char>)
    ensures
        seg_run(st, a + b) == seg_run(seg_run(st, a), b),
    decreases b.len(),
{
    if b.len() == 0 {
        assert(a + b =~= a);
    } else {
        lemma_seg_run_append(st, a, b.drop_last());
        assert((a + b).drop_last() =~= a + b.drop_last());
        assert((a + b).last() == b.last());
    }
}

/// Characters that are no separator extend the segment being read.
proof fn lemma_seg_run_word(d: Seq<Seq<char>>, c: Seq<char>, w: Seq<char>)
    requires
        no_sep(w),
    ensures
        seg_run((d, c), w) == (d, c + w),
    decreases w.len(),
{
    if w.len() == 0 {
        assert(c + w =~= c);
    } else {
        assert(no_sep(w.drop_last()));
        lemma_seg_run_word(d, c, w.drop_last());
        assert((c + w.drop_last()).push(w.last()) =~= c + w);
    }
}

/// Cutting a join of clean segments leaves all but the last finished and the
/// last one being read.
proof fn lemma_seg_run_join(segs: Seq<Seq<char>>)
    requires
        clean(segs),
        segs.len() >= 1,
    ensures
        seg_state(join_segments(segs)) == (segs.drop_last(), segs.last()),
    decreases segs.len(),
{
    let e: Seq<char> = Seq::empty();
    let init = (Seq::<Seq<char>>::empty(), e);
    assert(segs[0].len() > 0 && no_sep(segs[0]));
    if segs.len() == 1 {
        lemma_seg_run_word(Seq::empty(), e, segs[0]);
        assert(e + segs[0] =~= segs[0]);
        assert(segs.drop_last() =~= Seq::<Seq<char>>::empty());
        assert(join_segments(segs) == segs[0]);
        assert(seg_state(segs[0]) == seg_run(init, segs[0]));
    } else {
        let dl = segs.drop_last();
        let l = segs.last();
        assert(l == segs[segs.len() - 1]);
        assert(clean(dl)) by {
            assert forall|i: int| 0 <= i < dl.len() implies #[trigger] dl[i].len() > 0 && no_sep(
                dl[i],
            ) && (i > 0 ==> dl[i] != seq!['.']) by {
                assert(dl[i] == segs[i]);
            }
        }
        lemma_seg_run_join(dl);
        let j = join_segments(dl);
        lemma_seg_run_append(init, j + seq!['/'], l);
        lemma_seg_run_append(init, j, seq!['/']);
        assert(seq!['/'].drop_last() =~= e);
        assert(dl.last() == segs[segs.len() - 2]);
        assert(keeps_segment(dl.drop_last(), dl.last()));
        assert(dl.drop_last().push(dl.last()) =~= dl);
        lemma_seg_run_word(dl, e, l);
        assert(e + l =~= l);
        assert(join_segments(segs) == j + seq!['/'] + l);
        assert(seg_run(init, j) == (dl.drop_last(), dl.last()));
        assert(seg_run((dl.drop_last(), dl.last()), seq!['/']) == seg_step(
            seg_run((dl.drop_last(), dl.last()), e),
            '/',
        ));
        assert(seg_run(init, j + seq!['/']) == (dl, e));
        assert(seg_run(init, j + seq!['/'] + l) == (dl, l));
    }
}

/// Cutting a join of clean segments gives back those segments.
pub proof fn lemma_segments_of_join(segs: Seq<Seq<char>>)
    requires
        clean(segs),
    ensures
        segments(join_segments(segs)) == segs,
{
    if segs.len() == 0 {
        assert(join_segments(segs) =~= Seq::<char>::empty());
        assert(segments(Seq::<char>::empty()) =~= segs);
    } else {
        lemma_seg_run_join(segs);
        assert(segs.last() == segs[segs.len() - 1]);
        assert(segs.drop_last().push(segs.last()) =~= segs);
    }
}

/// Cutting any path yields clean segments.
proof fn lemma_seg_run_clean(s: Seq<char>)
    ensures
        clean(seg_state(s).0),
        no_sep(seg_state(s).1),
    decreases s.len(),
{
    if s.len() > 0 {
        lemma_seg_run_clean(s.drop_last());
        let st = seg_state(s.drop_last());
        assert(seg_state(s) == seg_step(st, s.last()));
        if !is_sep(s.last()) {
            assert(no_sep(st.1.push(s.last())));
        } else if keeps_segment(st.0, st.1) {
            let d = st.0.push(st.1);
            assert forall|i: int| 0 <= i < d.len() implies #[trigger] d[i].len() > 0 && no_sep(
                d[i],
            ) && (i > 0 ==> d[i] != seq!['.']) by {
                if i < st.0.len() {
                    assert(d[i] == st.0[i]);
                }
            }
        }
        assert(no_sep(Seq::<char>::empty()));
    }
}

/// The segments of any path are clean.
pub proof fn lemma_segments_clean(s: Seq<char>)
    ensures
        clean(segments(s)),
{
    lemma_seg_run_clean(s);
    let st = seg_state(s);
    if keeps_segment(st.0, st.1) {
        let d = st.0.push(st.1);
        assert forall|i: int| 0 <= i < d.len() implies #[trigger] d[i].len() > 0 && no_sep(d[i])
            && (i > 0 ==> d[i] != seq!['.']) by {
            if i < st.0.len() {
                assert(d[i] == st.0[i]);
            }
        }
    }
}

/// For every vendor-relative path with at least two segments, the package and
/// the path within it, joined by a separator, name the same segments as the
/// path.
pub proof fn lemma_split_rejoin_segments(path: Seq<char>)
    requires
        segments(path).len() >= 2,
    ensures
        segments(package_of(path) + seq!['/'] + in_package_of(path)) == segments(path),
{
    let segs = segments(path);
    lemma_join_front(segs);
    lemma_segments_clean(path);
    lemma_segments_of_join(segs);
}

} // verus!
