//! Portable engine: accumulates every file's size into the bucket of each
//! ancestor directory, from the file's immediate parent up to and
//! including the scan root.
//!
//! Directories are modelled as component paths relative to the scan root:
//! the root itself is the empty component list.  The accumulated totals
//! form an association list keyed by component path, each key held once.

use vstd::prelude::*;
use vstd::assert_seqs_equal;
use vstd::string::StringExecFns;

verus! {

use crate::rank::{rank, ScanEntry, MAX_RESULTS};

/// One regular file seen by the walk: the component path of its parent
/// directory relative to the scan root, and its size in bytes.  A file
/// sitting directly in the root has an empty component path.
pub struct WalkFile {
    pub dir: Vec<String>,
    pub size: u64,
}

impl View for WalkFile {
    type V = (Seq<Seq<char>>, int);

    open spec fn view(&self) -> (Seq<Seq<char>>, int) {
        (self.dir.deep_view(), self.size as int)
    }
}

/// The views of a sequence of walked files.
pub open spec fn files_view(s: Seq<WalkFile>) -> Seq<(Seq<Seq<char>>, int)> {
    s.map(|i: int, f: WalkFile| f@)
}

/// `k` is an ancestor-or-self component path of directory `dir`.
pub open spec fn is_prefix(k: Seq<Seq<char>>, dir: Seq<Seq<char>>) -> bool {
    k.len() <= dir.len() && k == dir.take(k.len() as int)
}

/// What one file adds to bucket `k`: its whole size if `k` lies on the
/// chain from its parent directory up to the root, nothing otherwise.
pub open spec fn contribution(f: (Seq<Seq<char>>, int), k: Seq<Seq<char>>) -> int {
    if is_prefix(k, f.0) {
        f.1
    } else {
        0
    }
}

/// The byte total bucket `k` accumulates over a sequence of files.
pub open spec fn dir_total(files: Seq<(Seq<Seq<char>>, int)>, k: Seq<Seq<char>>) -> int
    decreases files.len(),
{
    if files.len() == 0 {
        0
    } else {
        dir_total(files.drop_last(), k) + contribution(files.last(), k)
    }
}

/// Bucket `k` receives at least one contribution from `files`.
pub open spec fn touched(files: Seq<(Seq<Seq<char>>, int)>, k: Seq<Seq<char>>) -> bool {
    exists|i: int| 0 <= i < files.len() && is_prefix(k, files[i].0)
}

/// The sum of all file sizes.
pub open spec fn sum_sizes(files: Seq<(Seq<Seq<char>>, int)>) -> int
    decreases files.len(),
{
    if files.len() == 0 {
        0
    } else {
        sum_sizes(files.drop_last()) + files.last().1
    }
}

/// First-match lookup in an association list of buckets.
pub open spec fn assoc_find(m: Seq<(Seq<Seq<char>>, int)>, k: Seq<Seq<char>>) -> Option<int>
    decreases m.len(),
{
    if m.len() == 0 {
        None
    } else if m[0].0 == k {
        Some(m[0].1)
    } else {
        assoc_find(m.drop_first(), k)
    }
}

/// Adds `s` to the first bucket keyed `k`, or appends a new bucket.
pub open spec fn bump_spec(m: Seq<(Seq<Seq<char>>, int)>, k: Seq<Seq<char>>, s: int) -> Seq<
    (Seq<Seq<char>>, int),
>
    decreases m.len(),
{
    if m.len() == 0 {
        seq![(k, s)]
    } else if m[0].0 == k {
        seq![(m[0].0, m[0].1 + s)] + m.drop_first()
    } else {
        seq![m[0]] + bump_spec(m.drop_first(), k, s)
    }
}

/// Bumps the buckets of the prefixes of `dir` of lengths `hi` down to
/// `lo`, in that order, each by `s`.
pub open spec fn chain_spec(
    m: Seq<(Seq<Seq<char>>, int)>,
    dir: Seq<Seq<char>>,
    s: int,
    hi: int,
    lo: int,
) -> Seq<(Seq<Seq<char>>, int)>
    decreases (if hi < lo {
        0int
    } else {
        hi + 1 - lo
    }),
{
    if hi < lo {
        m
    } else {
        bump_spec(chain_spec(m, dir, s, hi, lo + 1), dir.take(lo), s)
    }
}

/// The bucket list the walk produces, in first-touch order: each file in
/// turn bumps the chain of its ancestors, deepest first.
pub open spec fn walk_entries(files: Seq<(Seq<Seq<char>>, int)>) -> Seq<(Seq<Seq<char>>, int)>
    decreases files.len(),
{
    if files.len() == 0 {
        Seq::empty()
    } else {
        chain_spec(
            walk_entries(files.drop_last()),
            files.last().0,
            files.last().1,
            files.last().0.len() as int,
            0,
        )
    }
}

/// Combining a bucket's previous state with one more contribution.
pub open spec fn merge_total(prev: Option<int>, s: int) -> Option<int> {
    match prev {
        None => Some(s),
        Some(v) => Some(v + s),
    }
}

pub proof fn lemma_find_bump(
    m: Seq<(Seq<Seq<char>>, int)>,
    k: Seq<Seq<char>>,
    s: int,
    k2: Seq<Seq<char>>,
)
    ensures
        assoc_find(bump_spec(m, k, s), k2) == (if k2 == k {
            merge_total(assoc_find(m, k), s)
        } else {
            assoc_find(m, k2)
        }),
    decreases m.len(),
{
    if m.len() == 0 {
        if k2 == k {
            assert(bump_spec(m, k, s) == seq![(k, s)]);
            assert(assoc_find(seq![(k, s)], k2) == Some(s));
        } else {
            assert(assoc_find(bump_spec(m, k, s), k2) == assoc_find(
                seq![(k, s)].drop_first(),
                k2,
            ));
            assert(seq![(k, s)].drop_first() =~= Seq::<(Seq<Seq<char>>, int)>::empty());
        }
    } else if m[0].0 == k {
        let b = seq![(m[0].0, m[0].1 + s)] + m.drop_first();
        assert(bump_spec(m, k, s) == b);
        assert(b.drop_first() =~= m.drop_first());
        assert(b[0] == (m[0].0, m[0].1 + s));
    } else {
        let b = seq![m[0]] + bump_spec(m.drop_first(), k, s);
        assert(bump_spec(m, k, s) == b);
        assert(b[0] == m[0]);
        assert(b.drop_first() =~= bump_spec(m.drop_first(), k, s));
        lemma_find_bump(m.drop_first(), k, s, k2);
    }
}

pub proof fn lemma_chain_find(
    m: Seq<(Seq<Seq<char>>, int)>,
    dir: Seq<Seq<char>>,
    s: int,
    hi: int,
    lo: int,
    k: Seq<Seq<char>>,
)
    requires
        0 <= lo,
        hi <= dir.len(),
    ensures
        assoc_find(chain_spec(m, dir, s, hi, lo), k) == (if is_prefix(k, dir) && lo <= k.len()
            <= hi {
            merge_total(assoc_find(m, k), s)
        } else {
            assoc_find(m, k)
        }),
    decreases (if hi < lo {
        0int
    } else {
        hi + 1 - lo
    }),
{
    if hi < lo {
    } else {
        lemma_chain_find(m, dir, s, hi, lo + 1, k);
        lemma_find_bump(chain_spec(m, dir, s, hi, lo + 1), dir.take(lo), s, k);
        if k == dir.take(lo) {
            assert(dir.take(lo).len() == lo);
            assert(k == dir.take(k.len() as int));
            assert(is_prefix(k, dir));
        } else {
            if is_prefix(k, dir) && k.len() == lo {
                assert(k == dir.take(lo));
            }
        }
    }
}

/// A bucket no file contributes to holds zero.
pub proof fn lemma_untouched_zero(files: Seq<(Seq<Seq<char>>, int)>, k: Seq<Seq<char>>)
    requires
        !touched(files, k),
    ensures
        dir_total(files, k) == 0,
    decreases files.len(),
{
    if files.len() > 0 {
        assert(!is_prefix(k, files.last().0));
        assert(forall|i: int|
            0 <= i < files.drop_last().len() ==> files.drop_last()[i] == files[i]);
        lemma_untouched_zero(files.drop_last(), k);
    }
}

/// The bucket list holds exactly the touched keys, each with its total.
pub proof fn lemma_walk_entries_find(files: Seq<(Seq<Seq<char>>, int)>, k: Seq<Seq<char>>)
    ensures
        assoc_find(walk_entries(files), k) == (if touched(files, k) {
            Some(dir_total(files, k))
        } else {
            None
        }),
    decreases files.len(),
{
    if files.len() == 0 {
    } else {
        let dl = files.drop_last();
        let f = files.last();
        lemma_walk_entries_find(dl, k);
        lemma_chain_find(walk_entries(dl), f.0, f.1, f.0.len() as int, 0, k);
        assert(forall|i: int| 0 <= i < dl.len() ==> dl[i] == files[i]);
        if is_prefix(k, f.0) {
            assert(touched(files, k));
            if !touched(dl, k) {
                lemma_untouched_zero(dl, k);
            }
        } else {
            if touched(dl, k) {
                assert(touched(files, k));
            }
            if touched(files, k) {
                let i = choose|i: int| 0 <= i < files.len() && is_prefix(k, files[i].0);
                assert(i < dl.len());
                assert(touched(dl, k));
            }
        }
    }
}

/// Every bucket's total is at most the sum of all file sizes.
pub proof fn lemma_dir_total_le_sum(files: Seq<(Seq<Seq<char>>, int)>, k: Seq<Seq<char>>)
    requires
        forall|i: int| 0 <= i < files.len() ==> files[i].1 >= 0,
    ensures
        0 <= dir_total(files, k) <= sum_sizes(files),
    decreases files.len(),
{
    if files.len() > 0 {
        let dl = files.drop_last();
        assert(forall|i: int| 0 <= i < dl.len() ==> dl[i] == files[i]);
        lemma_dir_total_le_sum(dl, k);
        assert(files.last().1 >= 0);
    }
}

pub proof fn lemma_sum_take_succ(files: Seq<(Seq<Seq<char>>, int)>, i: int)
    requires
        0 <= i < files.len(),
    ensures
        sum_sizes(files.take(i + 1)) == sum_sizes(files.take(i)) + files[i].1,
{
    assert(files.take(i + 1).drop_last() =~= files.take(i));
    assert(files.take(i + 1).last() == files[i]);
}

pub proof fn lemma_sum_take_le(files: Seq<(Seq<Seq<char>>, int)>, i: int)
    requires
        forall|j: int| 0 <= j < files.len() ==> files[j].1 >= 0,
        0 <= i <= files.len(),
    ensures
        sum_sizes(files.take(i)) <= sum_sizes(files),
    decreases files.len() - i,
{
    if i == files.len() {
        assert(files.take(i) =~= files);
    } else {
        lemma_sum_take_succ(files, i);
        lemma_sum_take_le(files, i + 1);
    }
}

pub proof fn lemma_assoc_find_first(m: Seq<(Seq<Seq<char>>, int)>, k: Seq<Seq<char>>, j: int)
    requires
        0 <= j < m.len(),
        m[j].0 == k,
        forall|i: int| 0 <= i < j ==> m[i].0 != k,
    ensures
        assoc_find(m, k) == Some(m[j].1),
    decreases j,
{
    if j > 0 {
        assert(forall|i: int| 0 <= i < m.drop_first().len() ==> m.drop_first()[i] == m[i + 1]);
        lemma_assoc_find_first(m.drop_first(), k, j - 1);
    }
}

pub proof fn lemma_assoc_find_none(m: Seq<(Seq<Seq<char>>, int)>, k: Seq<Seq<char>>)
    requires
        forall|i: int| 0 <= i < m.len() ==> m[i].0 != k,
    ensures
        assoc_find(m, k) is None,
    decreases m.len(),
{
    if m.len() > 0 {
        assert(forall|i: int| 0 <= i < m.drop_first().len() ==> m.drop_first()[i] == m[i + 1]);
        lemma_assoc_find_none(m.drop_first(), k);
    }
}

pub proof fn lemma_bump_spec_at(m: Seq<(Seq<Seq<char>>, int)>, k: Seq<Seq<char>>, s: int, j: int)
    requires
        0 <= j < m.len(),
        m[j].0 == k,
        forall|i: int| 0 <= i < j ==> m[i].0 != k,
    ensures
        bump_spec(m, k, s) =~= m.update(j, (m[j].0, m[j].1 + s)),
    decreases j,
{
    if j == 0 {
        assert(bump_spec(m, k, s) == seq![(m[0].0, m[0].1 + s)] + m.drop_first());
    } else {
        assert(forall|i: int| 0 <= i < m.drop_first().len() ==> m.drop_first()[i] == m[i + 1]);
        lemma_bump_spec_at(m.drop_first(), k, s, j - 1);
        assert(bump_spec(m, k, s) == seq![m[0]] + bump_spec(m.drop_first(), k, s));
    }
}

pub proof fn lemma_bump_spec_absent(m: Seq<(Seq<Seq<char>>, int)>, k: Seq<Seq<char>>, s: int)
    requires
        forall|i: int| 0 <= i < m.len() ==> m[i].0 != k,
    ensures
        bump_spec(m, k, s) =~= m.push((k, s)),
    decreases m.len(),
{
    if m.len() > 0 {
        assert(forall|i: int| 0 <= i < m.drop_first().len() ==> m.drop_first()[i] == m[i + 1]);
        lemma_bump_spec_absent(m.drop_first(), k, s);
        assert(bump_spec(m, k, s) == seq![m[0]] + bump_spec(m.drop_first(), k, s));
    }
}

/// An owned copy of a component path.
fn clone_path(p: &Vec<String>) -> (r: Vec<String>)
    ensures
        r.deep_view() == p.deep_view(),
{
    let mut r: Vec<String> = Vec::new();
    let mut i: usize = 0;
    while i < p.len()
        invariant
            i <= p@.len(),
            r@.len() == i,
            forall|j: int| 0 <= j < i ==> r@[j]@ == p@[j]@,
        decreases p@.len() - i,
    {
        r.push(p[i].clone());
        i = i + 1;
    }
    proof {
        assert(r.deep_view() =~= p.deep_view());
    }
    r
}

/// Equality of two component paths, stated over their views.
fn path_eq(a: &Vec<String>, b: &Vec<String>) -> (r: bool)
    ensures
        r == (a.deep_view() == b.deep_view()),
{
    if a.len() != b.len() {
        proof {
            assert(a.deep_view().len() == a@.len());
            assert(b.deep_view().len() == b@.len());
        }
        return false;
    }
    let mut i: usize = 0;
    while i < a.len()
        invariant
            i <= a@.len(),
            a@.len() == b@.len(),
            forall|j: int| 0 <= j < i ==> a@[j]@ == b@[j]@,
        decreases a@.len() - i,
    {
        if !(a[i] == b[i]) {
            proof {
                assert(a.deep_view()[i as int] == a@[i as int]@);
                assert(b.deep_view()[i as int] == b@[i as int]@);
            }
            return false;
        }
        i = i + 1;
    }
    proof {
        assert(a.deep_view() =~= b.deep_view());
    }
    true
}

/// The accumulated per-directory byte totals of one scan pass, keyed by
/// component path, each key held at most once in first-touch order.
pub struct DirMap {
    keys: Vec<Vec<String>>,
    vals: Vec<u64>,
}

impl View for DirMap {
    type V = Seq<(Seq<Seq<char>>, int)>;

    closed spec fn view(&self) -> Seq<(Seq<Seq<char>>, int)> {
        Seq::new(self.keys@.len(), |i: int| (self.keys@[i].deep_view(), self.vals@[i] as int))
    }
}

impl DirMap {
    pub closed spec fn wf(&self) -> bool {
        self.keys@.len() == self.vals@.len()
    }

    /// An empty bucket list.
    pub fn new() -> (r: DirMap)
        ensures
            r.wf(),
            r@ == Seq::<(Seq<Seq<char>>, int)>::empty(),
    {
        let r = DirMap { keys: Vec::new(), vals: Vec::new() };
        proof {
            assert(r@ =~= Seq::<(Seq<Seq<char>>, int)>::empty());
        }
        r
    }

    /// The number of buckets.
    pub fn len(&self) -> (n: usize)
        ensures
            n == self@.len(),
    {
        self.keys.len()
    }

    /// The component path of bucket `i`.
    pub fn key_at(&self, i: usize) -> (k: &Vec<String>)
        requires
            i < self@.len(),
        ensures
            k.deep_view() == self@[i as int].0,
    {
        &self.keys[i]
    }

    /// The byte total of bucket `i`.
    pub fn val_at(&self, i: usize) -> (v: u64)
        requires
            self.wf(),
            i < self@.len(),
        ensures
            v as int == self@[i as int].1,
    {
        self.vals[i]
    }
}

/// Adds `s` to the bucket keyed by `k`, appending the bucket on first
/// touch.
fn bump(m: &mut DirMap, k: &Vec<String>, s: u64)
    requires
        old(m).wf(),
        (assoc_find(old(m)@, k.deep_view()) matches Some(v) ==> v + s <= u64::MAX),
    ensures
        final(m).wf(),
        final(m)@ == bump_spec(old(m)@, k.deep_view(), s as int),
{
    let ghost mv = m@;
    let ghost kv = k.deep_view();
    let mut j: usize = 0;
    while j < m.keys.len()
        invariant
            j <= m.keys@.len(),
            m.wf(),
            *m == *old(m),
            mv == m@,
            kv == k.deep_view(),
            (assoc_find(mv, kv) matches Some(v) ==> v + s <= u64::MAX),
            forall|i: int| 0 <= i < j ==> m@[i].0 != kv,
        decreases m.keys@.len() - j,
    {
        if path_eq(&m.keys[j], k) {
            proof {
                assert(m@[j as int].0 == m.keys@[j as int].deep_view());
                lemma_assoc_find_first(m@, kv, j as int);
                lemma_bump_spec_at(m@, kv, s as int, j as int);
            }
            let cur: u64 = m.vals[j];
            m.vals[j] = cur + s;
            proof {
                assert(m@ =~= mv.update(j as int, (mv[j as int].0, mv[j as int].1 + s)));
            }
            return ;
        }
        proof {
            assert(m@[j as int].0 == m.keys@[j as int].deep_view());
        }
        j = j + 1;
    }
    proof {
        lemma_assoc_find_none(m@, kv);
        lemma_bump_spec_absent(m@, kv, s as int);
    }
    let kc = clone_path(k);
    m.keys.push(kc);
    m.vals.push(s);
    proof {
        assert(m@ =~= mv.push((kv, s as int)));
    }
}

/// Runs the accumulation pass: every file bumps each ancestor bucket,
/// from its parent directory up to and including the scan root.
pub fn walk_accumulate(files: &Vec<WalkFile>) -> (m: DirMap)
    requires
        sum_sizes(files_view(files@)) <= u64::MAX,
    ensures
        m.wf(),
        m@ == walk_entries(files_view(files@)),
{
    let ghost fv = files_view(files@);
    let mut m = DirMap::new();
    let mut i: usize = 0;
    proof {
        assert(fv.take(0) =~= Seq::<(Seq<Seq<char>>, int)>::empty());
        assert forall|j: int| 0 <= j < fv.len() implies fv[j].1 >= 0 by {
            assert(fv[j] == files@[j]@);
        }
    }
    while i < files.len()
        invariant
            i <= files@.len(),
            fv == files_view(files@),
            fv.len() == files@.len(),
            forall|j: int| 0 <= j < fv.len() ==> fv[j].1 >= 0,
            sum_sizes(fv) <= u64::MAX,
            m.wf(),
            m@ == walk_entries(fv.take(i as int)),
        decreases files@.len() - i,
    {
        let ghost base = walk_entries(fv.take(i as int));
        let f = &files[i];
        let ghost dirv = f.dir.deep_view();
        let ghost sv = f.size as int;
        proof {
            assert(fv[i as int] == files@[i as int]@);
        }
        let size = f.size;
        let mut prefix = clone_path(&f.dir);
        let mut d: usize = prefix.len();
        let mut more = true;
        proof {
            assert(dirv.take(d as int) =~= dirv);
        }
        while more
            invariant
                d <= dirv.len(),
                m.wf(),
                base == walk_entries(fv.take(i as int)),
                fv == files_view(files@),
                0 <= i < fv.len(),
                forall|j: int| 0 <= j < fv.len() ==> fv[j].1 >= 0,
                sum_sizes(fv) <= u64::MAX,
                dirv == fv[i as int].0,
                sv == fv[i as int].1,
                size as int == sv,
                more ==> prefix.deep_view() == dirv.take(d as int),
                more ==> m@ == chain_spec(base, dirv, sv, dirv.len() as int, d + 1),
                !more ==> m@ == chain_spec(base, dirv, sv, dirv.len() as int, 0),
            decreases d + (if more {
                1int
            } else {
                0int
            }),
        {
            let ghost key = prefix.deep_view();
            proof {
                assert(key.len() == d);
                lemma_chain_find(base, dirv, sv, dirv.len() as int, d + 1, key);
                lemma_walk_entries_find(fv.take(i as int), key);
                assert(forall|j: int|
                    0 <= j < fv.take(i as int).len() ==> fv.take(i as int)[j].1 >= 0);
                lemma_dir_total_le_sum(fv.take(i as int), key);
                lemma_sum_take_succ(fv, i as int);
                lemma_sum_take_le(fv, i + 1);
            }
            bump(&mut m, &prefix, size);
            if d == 0 {
                more = false;
            } else {
                d = d - 1;
                prefix.pop();
                proof {
                    assert(prefix.deep_view() =~= dirv.take(d as int));
                }
            }
        }
        proof {
            assert(fv.take(i + 1).drop_last() =~= fv.take(i as int));
            assert(fv.take(i + 1).last() == fv[i as int]);
        }
        i = i + 1;
    }
    proof {
        assert(fv.take(fv.len() as int) =~= fv);
    }
    m
}

/// The display path of a bucket: the root label, then each component
/// behind a slash.
pub open spec fn join_label_spec(root: Seq<char>, comps: Seq<Seq<char>>) -> Seq<char>
    decreases comps.len(),
{
    if comps.len() == 0 {
        root
    } else {
        join_label_spec(root, comps.drop_last()) + seq!['/'] + comps.last()
    }
}

/// Renders a bucket key for display.
pub fn join_label(root: &str, comps: &Vec<String>) -> (r: String)
    ensures
        r@ == join_label_spec(root@, comps.deep_view()),
{
    let mut s = root.to_owned();
    let mut i: usize = 0;
    proof {
        assert(comps.deep_view().take(0) =~= Seq::<Seq<char>>::empty());
    }
    while i < comps.len()
        invariant
            i <= comps@.len(),
            s@ == join_label_spec(root@, comps.deep_view().take(i as int)),
        decreases comps@.len() - i,
    {
        let ghost before = s@;
        s.append("/");
        s.append(comps[i].as_str());
        proof {
            reveal_strlit("/");
            assert(("/")@ =~= seq!['/']);
            let cv = comps.deep_view();
            assert(cv.take(i + 1).drop_last() =~= cv.take(i as int));
            assert(cv.take(i + 1).last() == cv[i as int]);
            assert(cv[i as int] == comps@[i as int]@);
            assert(s@ =~= join_label_spec(root@, cv.take(i as int)) + seq!['/'] + cv[i as int]);
        }
        i = i + 1;
    }
    proof {
        assert(comps.deep_view().take(comps@.len() as int) =~= comps.deep_view());
    }
    s
}

/// The walk's buckets rendered for ranking.
pub open spec fn labeled_entries(root: Seq<char>, entries: Seq<(Seq<Seq<char>>, int)>) -> Seq<
    (Seq<char>, u64),
> {
    entries.map(|i: int, e: (Seq<Seq<char>>, int)| (join_label_spec(root, e.0), e.1 as u64))
}

/// Everything the portable engine reports for a walked tree: the ranked,
/// truncated bucket list.
pub open spec fn walk_pipeline(root: Seq<char>, files: Seq<(Seq<Seq<char>>, int)>) -> Seq<
    (Seq<char>, u64),
> {
    crate::rank::rank_spec(labeled_entries(root, walk_entries(files)))
}

/// Portable scan: accumulate the walked files, label every bucket, rank.
pub fn scan_from_walk(root_label: &str, files: &Vec<WalkFile>) -> (r: Vec<ScanEntry>)
    requires
        sum_sizes(files_view(files@)) <= u64::MAX,
    ensures
        crate::rank::entries_view(r@) == walk_pipeline(root_label@, files_view(files@)),
        r@.len() <= MAX_RESULTS,
        crate::rank::sorted_desc(crate::rank::entries_view(r@)),
{
    let m = walk_accumulate(files);
    let ghost lab = labeled_entries(root_label@, m@);
    let mut v: Vec<ScanEntry> = Vec::new();
    let mut i: usize = 0;
    let n = m.len();
    proof {
        assert(crate::rank::entries_view(v@) =~= lab.take(0));
    }
    while i < n
        invariant
            n == m@.len(),
            i <= m@.len(),
            m.wf(),
            lab == labeled_entries(root_label@, m@),
            crate::rank::entries_view(v@) == lab.take(i as int),
        decreases m@.len() - i,
    {
        let k = m.key_at(i);
        let label = join_label(root_label, k);
        let size = m.val_at(i);
        let ghost vprev = v@;
        let ghost labv = label@;
        let e = ScanEntry { label, size_bytes: size };
        let ghost ev = e@;
        proof {
            assert(ev == (labv, size));
        }
        v.push(e);
        proof {
            assert(lab[i as int] == (
                join_label_spec(root_label@, m@[i as int].0),
                m@[i as int].1 as u64,
            ));

            assert(lab.len() == m@.len());
            assert(crate::rank::entries_view(v@).len() == v@.len());
            assert(crate::rank::entries_view(vprev).len() == vprev.len());
            assert(vprev.len() == i);
            assert_seqs_equal!(crate::rank::entries_view(v@) == lab.take(i + 1), j => {
                assert(crate::rank::entries_view(v@)[j] == v@[j]@);
                assert(lab.take(i + 1)[j] == lab[j]);
                if j < i {
                    assert(v@[j] == vprev[j]);
                    assert(crate::rank::entries_view(vprev)[j] == vprev[j]@);
                    assert(crate::rank::entries_view(vprev)[j] == lab.take(i as int)[j]);
                    assert(lab.take(i as int)[j] == lab[j]);
                } else {
                    assert(v@[j]@ == ev);
                    assert(labv == join_label_spec(root_label@, m@[i as int].0));
                    assert(m@[i as int].1 as u64 == size);
                }
            });
        }
        i = i + 1;
    }
    proof {
        assert(lab.take(lab.len() as int) =~= lab);
    }
    rank(v)
}

/// The root bucket accumulates the sum of every file's size.
pub proof fn lemma_root_bucket_total(files: Seq<(Seq<Seq<char>>, int)>)
    ensures
        dir_total(files, Seq::<Seq<char>>::empty()) == sum_sizes(files),
    decreases files.len(),
{
    if files.len() > 0 {
        lemma_root_bucket_total(files.drop_last());
        assert(Seq::<Seq<char>>::empty() =~= files.last().0.take(0));
        assert(is_prefix(Seq::<Seq<char>>::empty(), files.last().0));
    }
}

/// With at least one file, the walk reports a bucket for the scan root,
/// holding exactly the sum of all file sizes.
pub proof fn lemma_root_reported(files: Seq<(Seq<Seq<char>>, int)>)
    requires
        files.len() > 0,
    ensures
        assoc_find(walk_entries(files), Seq::<Seq<char>>::empty()) == Some(sum_sizes(files)),
{
    lemma_walk_entries_find(files, Seq::<Seq<char>>::empty());
    assert(Seq::<Seq<char>>::empty() =~= files[0].0.take(0));
    assert(is_prefix(Seq::<Seq<char>>::empty(), files[0].0));
    assert(touched(files, Seq::<Seq<char>>::empty()));
    lemma_root_bucket_total(files);
}

/// A file directly inside the scan root contributes its size to exactly
/// one bucket: the root itself.
pub proof fn lemma_root_file_single_bucket(f: (Seq<Seq<char>>, int))
    requires
        f.0.len() == 0,
    ensures
        contribution(f, Seq::<Seq<char>>::empty()) == f.1,
        forall|k: Seq<Seq<char>>| k.len() != 0 ==> contribution(f, k) == 0,
{
    assert(Seq::<Seq<char>>::empty() =~= f.0.take(0));
    assert(is_prefix(Seq::<Seq<char>>::empty(), f.0));
    assert forall|k: Seq<Seq<char>>| k.len() != 0 implies contribution(f, k) == 0 by {
        assert(!is_prefix(k, f.0));
    }
}

/// Walking an unchanged tree again yields identical buckets, totals and
/// ranking: the portable engine is a pure function of what it visited.
pub proof fn lemma_walk_idempotent(
    root1: Seq<char>,
    files1: Seq<(Seq<Seq<char>>, int)>,
    root2: Seq<char>,
    files2: Seq<(Seq<Seq<char>>, int)>,
)
    requires
        root1 == root2,
        files1 == files2,
    ensures
        walk_pipeline(root1, files1) == walk_pipeline(root2, files2),
{
}

/// No bucket key appears twice.
pub open spec fn distinct_keys(m: Seq<(Seq<Seq<char>>, int)>) -> bool {
    forall|i: int, j: int| 0 <= i < j < m.len() ==> m[i].0 != m[j].0
}

proof fn lemma_bump_keys(m: Seq<(Seq<Seq<char>>, int)>, k: Seq<Seq<char>>, s: int, j: int)
    requires
        0 <= j < bump_spec(m, k, s).len(),
    ensures
        bump_spec(m, k, s)[j].0 == k || exists|i: int|
            0 <= i < m.len() && m[i].0 == bump_spec(m, k, s)[j].0,
    decreases m.len(),
{
    let b = bump_spec(m, k, s);
    if m.len() == 0 {
        assert(b == seq![(k, s)]);
    } else if m[0].0 == k {
        assert(b == seq![(m[0].0, m[0].1 + s)] + m.drop_first());
        if j == 0 {
        } else {
            assert(b[j] == m.drop_first()[j - 1]);
            assert(m.drop_first()[j - 1] == m[j]);
        }
    } else {
        assert(b == seq![m[0]] + bump_spec(m.drop_first(), k, s));
        if j == 0 {
            assert(b[0] == m[0]);
        } else {
            lemma_bump_keys(m.drop_first(), k, s, j - 1);
            assert(b[j] == bump_spec(m.drop_first(), k, s)[j - 1]);
            if bump_spec(m.drop_first(), k, s)[j - 1].0 != k {
                let i = choose|i: int|
                    0 <= i < m.drop_first().len() && m.drop_first()[i].0 == bump_spec(
                        m.drop_first(),
                        k,
                        s,
                    )[j - 1].0;
                assert(m.drop_first()[i] == m[i + 1]);
            }
        }
    }
}

proof fn lemma_bump_distinct(m: Seq<(Seq<Seq<char>>, int)>, k: Seq<Seq<char>>, s: int)
    requires
        distinct_keys(m),
    ensures
        distinct_keys(bump_spec(m, k, s)),
    decreases m.len(),
{
    let b = bump_spec(m, k, s);
    if m.len() == 0 {
        assert(b == seq![(k, s)]);
    } else if m[0].0 == k {
        assert(b == seq![(m[0].0, m[0].1 + s)] + m.drop_first());
        assert forall|i: int, j: int| 0 <= i < j < b.len() implies b[i].0 != b[j].0 by {
            if i == 0 {
                assert(b[j].0 == m[j].0);
            } else {
                assert(b[i].0 == m[i].0);
                assert(b[j].0 == m[j].0);
            }
        }
    } else {
        assert(forall|i: int, j: int|
            0 <= i < j < m.drop_first().len() ==> m.drop_first()[i].0 != m.drop_first()[j].0);
        lemma_bump_distinct(m.drop_first(), k, s);
        assert(b == seq![m[0]] + bump_spec(m.drop_first(), k, s));
        let t = bump_spec(m.drop_first(), k, s);
        assert forall|i: int, j: int| 0 <= i < j < b.len() implies b[i].0 != b[j].0 by {
            if i == 0 {
                assert(b[j].0 == t[j - 1].0);
                lemma_bump_keys(m.drop_first(), k, s, j - 1);
                if t[j - 1].0 != k {
                    let w = choose|w: int|
                        0 <= w < m.drop_first().len() && m.drop_first()[w].0 == t[j - 1].0;
                    assert(m.drop_first()[w] == m[w + 1]);
                    assert(m[0].0 != m[w + 1].0);
                }
            } else {
                assert(b[i].0 == t[i - 1].0);
                assert(b[j].0 == t[j - 1].0);
            }
        }
    }
}

proof fn lemma_chain_distinct(
    m: Seq<(Seq<Seq<char>>, int)>,
    dir: Seq<Seq<char>>,
    s: int,
    hi: int,
    lo: int,
)
    requires
        distinct_keys(m),
    ensures
        distinct_keys(chain_spec(m, dir, s, hi, lo)),
    decreases (if hi < lo {
        0int
    } else {
        hi + 1 - lo
    }),
{
    if hi < lo {
    } else {
        lemma_chain_distinct(m, dir, s, hi, lo + 1);
        lemma_bump_distinct(chain_spec(m, dir, s, hi, lo + 1), dir.take(lo), s);
    }
}

/// Each directory key appears at most once in the walk's bucket list:
/// a bucket is accumulated in place, never duplicated.
pub proof fn lemma_walk_entries_distinct(files: Seq<(Seq<Seq<char>>, int)>)
    ensures
        distinct_keys(walk_entries(files)),
    decreases files.len(),
{
    if files.len() > 0 {
        lemma_walk_entries_distinct(files.drop_last());
        lemma_chain_distinct(
            walk_entries(files.drop_last()),
            files.last().0,
            files.last().1,
            files.last().0.len() as int,
            0,
        );
    }
}

} // verus!
