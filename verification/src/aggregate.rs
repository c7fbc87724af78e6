//! NTFS engine, aggregation side, and the strategy-selecting scan.
//!
//! Each in-use record with a resolvable name and a data attribute adds
//! its declared data length to exactly one bucket: its parent record's.
//! Names are indexed by record number to label the final totals; a
//! bucket whose record number resolves to no name gets a synthetic
//! label.  The scan policy attempts the MFT path only on Windows and
//! falls back to the portable walk on any structural failure.

use vstd::prelude::*;
use vstd::assert_seqs_equal;
use vstd::string::StringExecFns;

verus! {

use crate::mft::{FileRecord, RecordView};
use crate::os_identity::TargetOS;
use crate::rank::{rank, rank_spec, entries_view, sorted_desc, ScanEntry, MAX_RESULTS};
use crate::walk::{WalkFile, files_view, sum_sizes, walk_pipeline, scan_from_walk};

/// The views of a sequence of parsed records.
pub open spec fn records_view(s: Seq<FileRecord>) -> Seq<RecordView> {
    s.map(|i: int, r: FileRecord| r@)
}

/// A record feeds a size bucket: it is in use, has a resolvable name
/// (which carries the parent back-reference), and a data attribute.
pub open spec fn feeds_bucket(r: RecordView) -> bool {
    r.in_use && r.name is Some && r.data_len is Some
}

/// First-match lookup in a record-number-keyed bucket list.
pub open spec fn ifind(m: Seq<(int, int)>, k: int) -> Option<int>
    decreases m.len(),
{
    if m.len() == 0 {
        None
    } else if m[0].0 == k {
        Some(m[0].1)
    } else {
        ifind(m.drop_first(), k)
    }
}

/// Adds `s` to the first bucket keyed `k`, or appends a new bucket.
pub open spec fn ibump(m: Seq<(int, int)>, k: int, s: int) -> Seq<(int, int)>
    decreases m.len(),
{
    if m.len() == 0 {
        seq![(k, s)]
    } else if m[0].0 == k {
        seq![(m[0].0, m[0].1 + s)] + m.drop_first()
    } else {
        seq![m[0]] + ibump(m.drop_first(), k, s)
    }
}

/// Records the name of record `k`, replacing an earlier one.
pub open spec fn name_put(m: Seq<(int, Seq<char>)>, k: int, nm: Seq<char>) -> Seq<(int, Seq<char>)>
    decreases m.len(),
{
    if m.len() == 0 {
        seq![(k, nm)]
    } else if m[0].0 == k {
        seq![(m[0].0, nm)] + m.drop_first()
    } else {
        seq![m[0]] + name_put(m.drop_first(), k, nm)
    }
}

/// The resolved name of record `k`, if one was indexed.
pub open spec fn name_find(m: Seq<(int, Seq<char>)>, k: int) -> Option<Seq<char>>
    decreases m.len(),
{
    if m.len() == 0 {
        None
    } else if m[0].0 == k {
        Some(m[0].1)
    } else {
        name_find(m.drop_first(), k)
    }
}

/// The per-parent byte totals the MFT engine accumulates, in first-touch
/// order.  A record that is unused, nameless or without data feeds
/// nothing.
pub open spec fn mft_sizes(rs: Seq<RecordView>) -> Seq<(int, int)>
    decreases rs.len(),
{
    if rs.len() == 0 {
        Seq::empty()
    } else {
        let m = mft_sizes(rs.drop_last());
        let r = rs.last();
        if !r.in_use {
            m
        } else {
            match r.name {
                None => m,
                Some(_nm) => match r.data_len {
                    None => m,
                    Some(dl) => ibump(m, r.parent, dl),
                },
            }
        }
    }
}

/// The name index: record number to primary name, for every in-use named
/// record, later records replacing earlier ones of the same number.
pub open spec fn mft_names(rs: Seq<RecordView>) -> Seq<(int, Seq<char>)>
    decreases rs.len(),
{
    if rs.len() == 0 {
        Seq::empty()
    } else {
        let m = mft_names(rs.drop_last());
        let r = rs.last();
        if !r.in_use {
            m
        } else {
            match r.name {
                None => m,
                Some(nm) => name_put(m, r.record_number, nm),
            }
        }
    }
}

/// The sum of every bucket-feeding record's data length.
pub open spec fn mft_sum(rs: Seq<RecordView>) -> int
    decreases rs.len(),
{
    if rs.len() == 0 {
        0
    } else {
        mft_sum(rs.drop_last()) + (match rs.last().data_len {
            Some(dl) => if feeds_bucket(rs.last()) {
                dl
            } else {
                0
            },
            None => 0,
        })
    }
}

/// What a bucket-feeding record adds to bucket `k`.
pub open spec fn record_gives(r: RecordView, k: int) -> int {
    if feeds_bucket(r) && r.parent == k {
        match r.data_len {
            Some(dl) => dl,
            None => 0,
        }
    } else {
        0
    }
}

/// The total bucket `k` accumulates.
pub open spec fn parent_total(rs: Seq<RecordView>, k: int) -> int
    decreases rs.len(),
{
    if rs.len() == 0 {
        0
    } else {
        parent_total(rs.drop_last(), k) + record_gives(rs.last(), k)
    }
}

/// Bucket `k` receives at least one contribution.
pub open spec fn parent_touched(rs: Seq<RecordView>, k: int) -> bool {
    exists|i: int| 0 <= i < rs.len() && feeds_bucket(rs[i]) && rs[i].parent == k
}

pub proof fn lemma_ifind_ibump(m: Seq<(int, int)>, k: int, s: int, k2: int)
    ensures
        ifind(ibump(m, k, s), k2) == (if k2 == k {
            match ifind(m, k) {
                None => Some(s),
                Some(v) => Some(v + s),
            }
        } else {
            ifind(m, k2)
        }),
    decreases m.len(),
{
    if m.len() == 0 {
        if k2 == k {
            assert(ibump(m, k, s) == seq![(k, s)]);
            assert(ifind(seq![(k, s)], k2) == Some(s));
        } else {
            assert(ifind(ibump(m, k, s), k2) == ifind(seq![(k, s)].drop_first(), k2));
            assert(seq![(k, s)].drop_first() =~= Seq::<(int, int)>::empty());
        }
    } else if m[0].0 == k {
        let b = seq![(m[0].0, m[0].1 + s)] + m.drop_first();
        assert(ibump(m, k, s) == b);
        assert(b.drop_first() =~= m.drop_first());
        assert(b[0] == (m[0].0, m[0].1 + s));
    } else {
        let b = seq![m[0]] + ibump(m.drop_first(), k, s);
        assert(ibump(m, k, s) == b);
        assert(b[0] == m[0]);
        assert(b.drop_first() =~= ibump(m.drop_first(), k, s));
        lemma_ifind_ibump(m.drop_first(), k, s, k2);
    }
}

/// The bucket list holds exactly the touched parents, each with its
/// accumulated total.
pub proof fn lemma_mft_sizes_find(rs: Seq<RecordView>, k: int)
    ensures
        ifind(mft_sizes(rs), k) == (if parent_touched(rs, k) {
            Some(parent_total(rs, k))
        } else {
            None
        }),
    decreases rs.len(),
{
    if rs.len() == 0 {
    } else {
        let dl = rs.drop_last();
        let r = rs.last();
        lemma_mft_sizes_find(dl, k);
        assert(forall|i: int| 0 <= i < dl.len() ==> dl[i] == rs[i]);
        if parent_touched(dl, k) {
            assert(parent_touched(rs, k));
        }
        if feeds_bucket(r) {
            let d = match r.data_len {
                Some(d) => d,
                None => 0,
            };
            lemma_ifind_ibump(mft_sizes(dl), r.parent, d, k);
            if r.parent == k {
                assert(parent_touched(rs, k));
                if !parent_touched(dl, k) {
                    lemma_parent_untouched_zero(dl, k);
                }
            } else {
                if parent_touched(rs, k) {
                    let i = choose|i: int|
                        0 <= i < rs.len() && feeds_bucket(rs[i]) && rs[i].parent == k;
                    assert(i < dl.len());
                    assert(parent_touched(dl, k));
                }
            }
        } else {
            if parent_touched(rs, k) {
                let i = choose|i: int|
                    0 <= i < rs.len() && feeds_bucket(rs[i]) && rs[i].parent == k;
                assert(i < dl.len());
                assert(parent_touched(dl, k));
            }
        }
    }
}

pub proof fn lemma_parent_untouched_zero(rs: Seq<RecordView>, k: int)
    requires
        !parent_touched(rs, k),
    ensures
        parent_total(rs, k) == 0,
    decreases rs.len(),
{
    if rs.len() > 0 {
        assert(forall|i: int|
            0 <= i < rs.drop_last().len() ==> rs.drop_last()[i] == rs[i]);
        lemma_parent_untouched_zero(rs.drop_last(), k);
        assert(record_gives(rs.last(), k) == 0);
    }
}

/// Every bucket's total is at most the sum of all counted data lengths.
pub proof fn lemma_parent_total_le(rs: Seq<RecordView>, k: int)
    requires
        forall|i: int|
            0 <= i < rs.len() ==> (#[trigger] rs[i].data_len matches Some(d) ==> d >= 0),
    ensures
        0 <= parent_total(rs, k) <= mft_sum(rs),
    decreases rs.len(),
{
    if rs.len() > 0 {
        assert(forall|i: int|
            0 <= i < rs.drop_last().len() ==> rs.drop_last()[i] == rs[i]);
        lemma_parent_total_le(rs.drop_last(), k);
    }
}

pub proof fn lemma_mft_sum_take_succ(rs: Seq<RecordView>, i: int)
    requires
        0 <= i < rs.len(),
    ensures
        mft_sum(rs.take(i + 1)) == mft_sum(rs.take(i)) + (match rs[i].data_len {
            Some(dl) => if feeds_bucket(rs[i]) {
                dl
            } else {
                0
            },
            None => 0,
        }),
{
    assert(rs.take(i + 1).drop_last() =~= rs.take(i));
    assert(rs.take(i + 1).last() == rs[i]);
}

pub proof fn lemma_mft_sum_take_le(rs: Seq<RecordView>, i: int)
    requires
        forall|j: int|
            0 <= j < rs.len() ==> (#[trigger] rs[j].data_len matches Some(d) ==> d >= 0),
        0 <= i <= rs.len(),
    ensures
        mft_sum(rs.take(i)) <= mft_sum(rs),
    decreases rs.len() - i,
{
    if i == rs.len() {
        assert(rs.take(i) =~= rs);
    } else {
        lemma_mft_sum_take_succ(rs, i);
        lemma_mft_sum_take_le(rs, i + 1);
    }
}

/// A record with `IN_USE` clear contributes to no bucket and no name.
pub proof fn lemma_unused_record_ignored(rs: Seq<RecordView>, r: RecordView)
    requires
        !r.in_use,
    ensures
        mft_sizes(rs.push(r)) == mft_sizes(rs),
        mft_names(rs.push(r)) == mft_names(rs),
{
    assert(rs.push(r).drop_last() =~= rs);
    assert(rs.push(r).last() == r);
}

/// An in-use record with a name and data feeds exactly one bucket: its
/// immediate parent's, by its declared data length.
pub proof fn lemma_record_single_bucket(r: RecordView, dl: int)
    requires
        r.in_use,
        r.name is Some,
        r.data_len == Some(dl),
    ensures
        mft_sizes(seq![r]) == seq![(r.parent, dl)],
        forall|k: int| k != r.parent ==> ifind(mft_sizes(seq![r]), k) is None,
        ifind(mft_sizes(seq![r]), r.parent) == Some(dl),
{
    assert(seq![r].drop_last() =~= Seq::<RecordView>::empty());
    assert(seq![r].last() == r);
    assert(mft_sizes(Seq::<RecordView>::empty()) == Seq::<(int, int)>::empty());
    assert(mft_sizes(seq![r]) == ibump(Seq::<(int, int)>::empty(), r.parent, dl));
    assert(ibump(Seq::<(int, int)>::empty(), r.parent, dl) == seq![(r.parent, dl)]);
    assert forall|k: int| k != r.parent implies ifind(mft_sizes(seq![r]), k) is None by {
        assert(seq![(r.parent, dl)].drop_first() =~= Seq::<(int, int)>::empty());
        assert(ifind(Seq::<(int, int)>::empty(), k) is None);
        assert(ifind(seq![(r.parent, dl)], k) == ifind(seq![(r.parent, dl)].drop_first(), k));
    }
}

pub proof fn lemma_ifind_first(m: Seq<(int, int)>, k: int, j: int)
    requires
        0 <= j < m.len(),
        m[j].0 == k,
        forall|i: int| 0 <= i < j ==> m[i].0 != k,
    ensures
        ifind(m, k) == Some(m[j].1),
    decreases j,
{
    if j > 0 {
        assert(forall|i: int| 0 <= i < m.drop_first().len() ==> m.drop_first()[i] == m[i + 1]);
        lemma_ifind_first(m.drop_first(), k, j - 1);
    }
}

pub proof fn lemma_ifind_none(m: Seq<(int, int)>, k: int)
    requires
        forall|i: int| 0 <= i < m.len() ==> m[i].0 != k,
    ensures
        ifind(m, k) is None,
    decreases m.len(),
{
    if m.len() > 0 {
        assert(forall|i: int| 0 <= i < m.drop_first().len() ==> m.drop_first()[i] == m[i + 1]);
        lemma_ifind_none(m.drop_first(), k);
    }
}

pub proof fn lemma_ibump_at(m: Seq<(int, int)>, k: int, s: int, j: int)
    requires
        0 <= j < m.len(),
        m[j].0 == k,
        forall|i: int| 0 <= i < j ==> m[i].0 != k,
    ensures
        ibump(m, k, s) =~= m.update(j, (m[j].0, m[j].1 + s)),
    decreases j,
{
    if j == 0 {
        assert(ibump(m, k, s) == seq![(m[0].0, m[0].1 + s)] + m.drop_first());
    } else {
        assert(forall|i: int| 0 <= i < m.drop_first().len() ==> m.drop_first()[i] == m[i + 1]);
        lemma_ibump_at(m.drop_first(), k, s, j - 1);
        assert(ibump(m, k, s) == seq![m[0]] + ibump(m.drop_first(), k, s));
    }
}

pub proof fn lemma_ibump_absent(m: Seq<(int, int)>, k: int, s: int)
    requires
        forall|i: int| 0 <= i < m.len() ==> m[i].0 != k,
    ensures
        ibump(m, k, s) =~= m.push((k, s)),
    decreases m.len(),
{
    if m.len() > 0 {
        assert(forall|i: int| 0 <= i < m.drop_first().len() ==> m.drop_first()[i] == m[i + 1]);
        lemma_ibump_absent(m.drop_first(), k, s);
        assert(ibump(m, k, s) == seq![m[0]] + ibump(m.drop_first(), k, s));
    }
}

pub proof fn lemma_name_put_at(m: Seq<(int, Seq<char>)>, k: int, nm: Seq<char>, j: int)
    requires
        0 <= j < m.len(),
        m[j].0 == k,
        forall|i: int| 0 <= i < j ==> m[i].0 != k,
    ensures
        name_put(m, k, nm) =~= m.update(j, (m[j].0, nm)),
    decreases j,
{
    if j == 0 {
        assert(name_put(m, k, nm) == seq![(m[0].0, nm)] + m.drop_first());
    } else {
        assert(forall|i: int| 0 <= i < m.drop_first().len() ==> m.drop_first()[i] == m[i + 1]);
        lemma_name_put_at(m.drop_first(), k, nm, j - 1);
        assert(name_put(m, k, nm) == seq![m[0]] + name_put(m.drop_first(), k, nm));
    }
}

pub proof fn lemma_name_put_absent(m: Seq<(int, Seq<char>)>, k: int, nm: Seq<char>)
    requires
        forall|i: int| 0 <= i < m.len() ==> m[i].0 != k,
    ensures
        name_put(m, k, nm) =~= m.push((k, nm)),
    decreases m.len(),
{
    if m.len() > 0 {
        assert(forall|i: int| 0 <= i < m.drop_first().len() ==> m.drop_first()[i] == m[i + 1]);
        lemma_name_put_absent(m.drop_first(), k, nm);
        assert(name_put(m, k, nm) == seq![m[0]] + name_put(m.drop_first(), k, nm));
    }
}

pub proof fn lemma_name_find_first(m: Seq<(int, Seq<char>)>, k: int, j: int)
    requires
        0 <= j < m.len(),
        m[j].0 == k,
        forall|i: int| 0 <= i < j ==> m[i].0 != k,
    ensures
        name_find(m, k) == Some(m[j].1),
    decreases j,
{
    if j > 0 {
        assert(forall|i: int| 0 <= i < m.drop_first().len() ==> m.drop_first()[i] == m[i + 1]);
        lemma_name_find_first(m.drop_first(), k, j - 1);
    }
}

pub proof fn lemma_name_find_none(m: Seq<(int, Seq<char>)>, k: int)
    requires
        forall|i: int| 0 <= i < m.len() ==> m[i].0 != k,
    ensures
        name_find(m, k) is None,
    decreases m.len(),
{
    if m.len() > 0 {
        assert(forall|i: int| 0 <= i < m.drop_first().len() ==> m.drop_first()[i] == m[i + 1]);
        lemma_name_find_none(m.drop_first(), k);
    }
}

/// The per-parent byte totals, keyed by parent record number.
pub struct IdMap {
    keys: Vec<u64>,
    vals: Vec<u64>,
}

impl View for IdMap {
    type V = Seq<(int, int)>;

    closed spec fn view(&self) -> Seq<(int, int)> {
        Seq::new(self.keys@.len(), |i: int| (self.keys@[i] as int, self.vals@[i] as int))
    }
}

impl IdMap {
    pub closed spec fn wf(&self) -> bool {
        self.keys@.len() == self.vals@.len()
    }

    fn new() -> (r: IdMap)
        ensures
            r.wf(),
            r@ == Seq::<(int, int)>::empty(),
    {
        let r = IdMap { keys: Vec::new(), vals: Vec::new() };
        proof {
            assert(r@ =~= Seq::<(int, int)>::empty());
        }
        r
    }

    /// The number of buckets.
    pub fn len(&self) -> (n: usize)
        ensures
            n == self@.len(),
    {
        self.keys.len()
    }

    /// The parent record number of bucket `i`.
    pub fn key_at(&self, i: usize) -> (k: u64)
        requires
            i < self@.len(),
        ensures
            k as int == self@[i as int].0,
    {
        self.keys[i]
    }

    /// The byte total of bucket `i`.
    pub fn val_at(&self, i: usize) -> (v: u64)
        requires
            self.wf(),
            i < self@.len(),
        ensures
            v as int == self@[i as int].1,
    {
        self.vals[i]
    }
}

/// Adds `s` to the bucket keyed by parent record number `k`.
fn bump_id(m: &mut IdMap, k: u64, s: u64)
    requires
        old(m).wf(),
        (ifind(old(m)@, k as int) matches Some(v) ==> v + s <= u64::MAX),
    ensures
        final(m).wf(),
        final(m)@ == ibump(old(m)@, k as int, s as int),
{
    let ghost mv = m@;
    let mut j: usize = 0;
    while j < m.keys.len()
        invariant
            j <= m.keys@.len(),
            m.wf(),
            *m == *old(m),
            mv == m@,
            (ifind(mv, k as int) matches Some(v) ==> v + s <= u64::MAX),
            forall|i: int| 0 <= i < j ==> m@[i].0 != k as int,
        decreases m.keys@.len() - j,
    {
        if m.keys[j] == k {
            proof {
                lemma_ifind_first(m@, k as int, j as int);
                lemma_ibump_at(m@, k as int, s as int, j as int);
            }
            let cur: u64 = m.vals[j];
            m.vals[j] = cur + s;
            proof {
                assert(m@ =~= mv.update(j as int, (mv[j as int].0, mv[j as int].1 + s)));
            }
            return ;
        }
        j = j + 1;
    }
    proof {
        lemma_ifind_none(m@, k as int);
        lemma_ibump_absent(m@, k as int, s as int);
    }
    m.keys.push(k);
    m.vals.push(s);
    proof {
        assert(m@ =~= mv.push((k as int, s as int)));
    }
}

/// The name index built while scanning records.
pub struct NameIndex {
    keys: Vec<u64>,
    names: Vec<String>,
}

impl View for NameIndex {
    type V = Seq<(int, Seq<char>)>;

    closed spec fn view(&self) -> Seq<(int, Seq<char>)> {
        Seq::new(self.keys@.len(), |i: int| (self.keys@[i] as int, self.names@[i]@))
    }
}

impl NameIndex {
    pub closed spec fn wf(&self) -> bool {
        self.keys@.len() == self.names@.len()
    }

    fn new() -> (r: NameIndex)
        ensures
            r.wf(),
            r@ == Seq::<(int, Seq<char>)>::empty(),
    {
        let r = NameIndex { keys: Vec::new(), names: Vec::new() };
        proof {
            assert(r@ =~= Seq::<(int, Seq<char>)>::empty());
        }
        r
    }

    /// Stores the name of record `k`, replacing an earlier one.
    fn put(&mut self, k: u64, nm: String)
        requires
            old(self).wf(),
        ensures
            final(self).wf(),
            final(self)@ == name_put(old(self)@, k as int, nm@),
    {
        let ghost mv = self@;
        let ghost nmv = nm@;
        let mut j: usize = 0;
        while j < self.keys.len()
            invariant
                j <= self.keys@.len(),
                self.wf(),
                *self == *old(self),
                mv == self@,
                nmv == nm@,
                forall|i: int| 0 <= i < j ==> self@[i].0 != k as int,
            decreases self.keys@.len() - j,
        {
            if self.keys[j] == k {
                proof {
                    lemma_name_put_at(self@, k as int, nmv, j as int);
                }
                self.names[j] = nm;
                proof {
                    assert(self@ =~= mv.update(j as int, (mv[j as int].0, nmv)));
                }
                return ;
            }
            j = j + 1;
        }
        proof {
            lemma_name_put_absent(self@, k as int, nmv);
        }
        self.keys.push(k);
        self.names.push(nm);
        proof {
            assert(self@ =~= mv.push((k as int, nmv)));
        }
    }

    /// The stored name of record `k`, if any.
    fn get(&self, k: u64) -> (r: Option<&String>)
        requires
            self.wf(),
        ensures
            (r matches Some(s) ==> name_find(self@, k as int) == Some(s@)),
            r is None ==> name_find(self@, k as int) is None,
    {
        let mut j: usize = 0;
        while j < self.keys.len()
            invariant
                j <= self.keys@.len(),
                self.wf(),
                forall|i: int| 0 <= i < j ==> self@[i].0 != k as int,
            decreases self.keys@.len() - j,
        {
            if self.keys[j] == k {
                proof {
                    lemma_name_find_first(self@, k as int, j as int);
                }
                return Some(&self.names[j]);
            }
            j = j + 1;
        }
        proof {
            lemma_name_find_none(self@, k as int);
        }
        None
    }
}

/// The decimal digit character for `d`.
pub open spec fn dec_digit(d: int) -> char {
    ((48 + d) as u8) as char
}

/// The decimal rendering of `n`.
pub open spec fn dec_spec(n: int) -> Seq<char>
    decreases n,
{
    if n < 10 {
        seq![dec_digit(n)]
    } else {
        dec_spec(n / 10) + seq![dec_digit(n % 10)]
    }
}

fn digit_str(d: u64) -> (r: &'static str)
    requires
        d < 10,
    ensures
        r@ == seq![dec_digit(d as int)],
{
    if d == 0 {
        proof {
            reveal_strlit("0");
            assert(("0")@ =~= seq![dec_digit(0)]);
        }
        "0"
    } else if d == 1 {
        proof {
            reveal_strlit("1");
            assert(("1")@ =~= seq![dec_digit(1)]);
        }
        "1"
    } else if d == 2 {
        proof {
            reveal_strlit("2");
            assert(("2")@ =~= seq![dec_digit(2)]);
        }
        "2"
    } else if d == 3 {
        proof {
            reveal_strlit("3");
            assert(("3")@ =~= seq![dec_digit(3)]);
        }
        "3"
    } else if d == 4 {
        proof {
            reveal_strlit("4");
            assert(("4")@ =~= seq![dec_digit(4)]);
        }
        "4"
    } else if d == 5 {
        proof {
            reveal_strlit("5");
            assert(("5")@ =~= seq![dec_digit(5)]);
        }
        "5"
    } else if d == 6 {
        proof {
            reveal_strlit("6");
            assert(("6")@ =~= seq![dec_digit(6)]);
        }
        "6"
    } else if d == 7 {
        proof {
            reveal_strlit("7");
            assert(("7")@ =~= seq![dec_digit(7)]);
        }
        "7"
    } else if d == 8 {
        proof {
            reveal_strlit("8");
            assert(("8")@ =~= seq![dec_digit(8)]);
        }
        "8"
    } else {
        proof {
            reveal_strlit("9");
            assert(("9")@ =~= seq![dec_digit(9)]);
        }
        "9"
    }
}

/// Renders a record number in decimal.
fn u64_to_dec(n: u64) -> (r: String)
    ensures
        r@ == dec_spec(n as int),
    decreases n,
{
    if n < 10 {
        let d = digit_str(n);
        d.to_owned()
    } else {
        let mut s = u64_to_dec(n / 10);
        let d = digit_str(n % 10);
        s.append(d);
        proof {
            assert((n / 10) as int == n as int / 10);
            assert((n % 10) as int == n as int % 10);
        }
        s
    }
}

/// The label of bucket `id`: its resolved name, or a synthetic
/// placeholder built from the record number.
pub open spec fn mft_label(names: Seq<(int, Seq<char>)>, id: int) -> Seq<char> {
    match name_find(names, id) {
        Some(nm) => nm,
        None => seq!['d', 'i', 'r', '_'] + dec_spec(id),
    }
}

fn label_for(names: &NameIndex, id: u64) -> (r: String)
    requires
        names.wf(),
    ensures
        r@ == mft_label(names@, id as int),
{
    match names.get(id) {
        Some(s) => s.clone(),
        None => {
            let mut p = ("dir_").to_owned();
            let d = u64_to_dec(id);
            p.append(d.as_str());
            proof {
                reveal_strlit("dir_");
                assert(("dir_")@ =~= seq!['d', 'i', 'r', '_']);
            }
            p
        },
    }
}

/// The MFT engine's buckets rendered for ranking.
pub open spec fn resolved_entries(names: Seq<(int, Seq<char>)>, sizes: Seq<(int, int)>) -> Seq<
    (Seq<char>, u64),
> {
    sizes.map(|i: int, e: (int, int)| (mft_label(names, e.0), e.1 as u64))
}

/// Everything the MFT engine reports for a sequence of parsed records:
/// the ranked, truncated per-parent totals, labelled by resolved name.
pub open spec fn mft_pipeline(rs: Seq<RecordView>) -> Seq<(Seq<char>, u64)> {
    rank_spec(resolved_entries(mft_names(rs), mft_sizes(rs)))
}

/// Runs the accumulation pass over the parsed records: per-parent byte
/// totals and the name index.
pub fn mft_accumulate(records: &Vec<FileRecord>) -> (r: (IdMap, NameIndex))
    requires
        mft_sum(records_view(records@)) <= u64::MAX,
    ensures
        r.0.wf(),
        r.1.wf(),
        r.0@ == mft_sizes(records_view(records@)),
        r.1@ == mft_names(records_view(records@)),
{
    let ghost rv = records_view(records@);
    let mut sizes = IdMap::new();
    let mut names = NameIndex::new();
    let mut i: usize = 0;
    proof {
        assert(rv.take(0) =~= Seq::<RecordView>::empty());
        assert forall|j: int|
            0 <= j < rv.len() implies (#[trigger] rv[j].data_len matches Some(d) ==> d
            >= 0) by {
            assert(rv[j] == records@[j]@);
        }
    }
    while i < records.len()
        invariant
            i <= records@.len(),
            rv == records_view(records@),
            rv.len() == records@.len(),
            forall|j: int|
                0 <= j < rv.len() ==> (#[trigger] rv[j].data_len matches Some(d) ==> d >= 0),
            mft_sum(rv) <= u64::MAX,
            sizes.wf(),
            names.wf(),
            sizes@ == mft_sizes(rv.take(i as int)),
            names@ == mft_names(rv.take(i as int)),
        decreases records@.len() - i,
    {
        let rec = &records[i];
        proof {
            assert(rv[i as int] == records@[i as int]@);
            assert(rv.take(i + 1).drop_last() =~= rv.take(i as int));
            assert(rv.take(i + 1).last() == rv[i as int]);
        }
        if rec.in_use {
            if rec.name.is_some() {
                let nm: &String = rec.name.as_ref().unwrap();
                names.put(rec.record_number, nm.clone());
                if rec.data_len.is_some() {
                    let dl: u64 = rec.data_len.unwrap();
                    proof {
                        lemma_mft_sizes_find(rv.take(i as int), rec.parent as int);
                        assert(forall|j: int|
                            0 <= j < rv.take(i as int).len() ==> (#[trigger] rv.take(
                                i as int,
                            )[j].data_len matches Some(d) ==> d >= 0));
                        lemma_parent_total_le(rv.take(i as int), rec.parent as int);
                        lemma_mft_sum_take_succ(rv, i as int);
                        lemma_mft_sum_take_le(rv, i + 1);
                        assert(feeds_bucket(rv[i as int]));
                    }
                    bump_id(&mut sizes, rec.parent, dl);
                }
            }
        }
        i = i + 1;
    }
    proof {
        assert(rv.take(rv.len() as int) =~= rv);
    }
    (sizes, names)
}

/// MFT scan: accumulate the parsed records, resolve labels, rank.
pub fn scan_from_records(records: &Vec<FileRecord>) -> (r: Vec<ScanEntry>)
    requires
        mft_sum(records_view(records@)) <= u64::MAX,
    ensures
        entries_view(r@) == mft_pipeline(records_view(records@)),
        r@.len() <= MAX_RESULTS,
        sorted_desc(entries_view(r@)),
{
    let pair = mft_accumulate(records);
    let sizes = pair.0;
    let names = pair.1;
    let ghost lab = resolved_entries(names@, sizes@);
    let mut v: Vec<ScanEntry> = Vec::new();
    let mut i: usize = 0;
    let n = sizes.len();
    proof {
        assert(entries_view(v@) =~= lab.take(0));
    }
    while i < n
        invariant
            n == sizes@.len(),
            i <= sizes@.len(),
            sizes.wf(),
            names.wf(),
            lab == resolved_entries(names@, sizes@),
            entries_view(v@) == lab.take(i as int),
        decreases sizes@.len() - i,
    {
        let id = sizes.key_at(i);
        let label = label_for(&names, id);
        let size = sizes.val_at(i);
        let ghost vprev = v@;
        let ghost labv = label@;
        let e = ScanEntry { label, size_bytes: size };
        let ghost ev = e@;
        proof {
            assert(ev == (labv, size));
        }
        v.push(e);
        proof {
            assert(lab[i as int] == (mft_label(names@, sizes@[i as int].0), sizes@[i as int].1 as u64));
            assert(lab.len() == sizes@.len());
            assert(entries_view(v@).len() == v@.len());
            assert(entries_view(vprev).len() == vprev.len());
            assert(vprev.len() == i);
            assert_seqs_equal!(entries_view(v@) == lab.take(i + 1), j => {
                assert(entries_view(v@)[j] == v@[j]@);
                assert(lab.take(i + 1)[j] == lab[j]);
                if j < i {
                    assert(v@[j] == vprev[j]);
                    assert(entries_view(vprev)[j] == vprev[j]@);
                    assert(entries_view(vprev)[j] == lab.take(i as int)[j]);
                    assert(lab.take(i as int)[j] == lab[j]);
                } else {
                    assert(v@[j]@ == ev);
                    assert(labv == mft_label(names@, sizes@[i as int].0));
                    assert(sizes@[i as int].1 as u64 == size);
                }
            });
        }
        i = i + 1;
    }
    proof {
        assert(lab.take(lab.len() as int) =~= lab);
    }
    rank(v)
}

/// The closed set of scan strategies.
#[derive(Debug, Clone, Copy, PartialEq, Eq, Structural)]
pub enum ScanEngine {
    Mft,
    Walk,
}

/// The strategy a platform starts with: only Windows attempts the MFT
/// path; every other platform walks directly.
pub fn select_engine(os: TargetOS) -> (e: ScanEngine)
    ensures
        (e == ScanEngine::Mft) <==> (os == TargetOS::Windows),
{
    if os == TargetOS::Windows {
        ScanEngine::Mft
    } else {
        ScanEngine::Walk
    }
}

/// One whole scan, with the fallback policy: on Windows with a fully
/// parsed record stream the MFT engine reports; on any other platform,
/// or when the MFT attempt failed structurally (`None`), the portable
/// walk of the same root reports, exactly as if it had been invoked
/// directly.
pub fn scan_select(
    os: TargetOS,
    mft_records: Option<&Vec<FileRecord>>,
    root_label: &str,
    walk_files: &Vec<WalkFile>,
) -> (r: Vec<ScanEntry>)
    requires
        mft_records matches Some(recs) ==> (os == TargetOS::Windows ==> mft_sum(
            records_view(recs@),
        ) <= u64::MAX),
        !(os == TargetOS::Windows && mft_records is Some) ==> sum_sizes(files_view(walk_files@))
            <= u64::MAX,
    ensures
        mft_records matches Some(recs) ==> (os == TargetOS::Windows ==> entries_view(r@)
            == mft_pipeline(records_view(recs@))),
        !(os == TargetOS::Windows && mft_records is Some) ==> entries_view(r@) == walk_pipeline(
            root_label@,
            files_view(walk_files@),
        ),
        r@.len() <= MAX_RESULTS,
        sorted_desc(entries_view(r@)),
{
    if os == TargetOS::Windows {
        match mft_records {
            Some(recs) => scan_from_records(recs),
            None => scan_from_walk(root_label, walk_files),
        }
    } else {
        scan_from_walk(root_label, walk_files)
    }
}

/// Scanning an unmodified volume again yields identical totals and
/// ranking: the MFT engine is a pure function of the records it read.
pub proof fn lemma_mft_idempotent(rs1: Seq<RecordView>, rs2: Seq<RecordView>)
    requires
        rs1 == rs2,
    ensures
        mft_pipeline(rs1) == mft_pipeline(rs2),
{
}

/// No parent record number appears twice in the bucket list.
pub open spec fn distinct_ids(m: Seq<(int, int)>) -> bool {
    forall|i: int, j: int| 0 <= i < j < m.len() ==> m[i].0 != m[j].0
}

proof fn lemma_ibump_keys(m: Seq<(int, int)>, k: int, s: int, j: int)
    requires
        0 <= j < ibump(m, k, s).len(),
    ensures
        ibump(m, k, s)[j].0 == k || exists|i: int|
            0 <= i < m.len() && m[i].0 == ibump(m, k, s)[j].0,
    decreases m.len(),
{
    let b = ibump(m, k, s);
    if m.len() == 0 {
        assert(b == seq![(k, s)]);
    } else if m[0].0 == k {
        assert(b == seq![(m[0].0, m[0].1 + s)] + m.drop_first());
        if j > 0 {
            assert(b[j] == m.drop_first()[j - 1]);
            assert(m.drop_first()[j - 1] == m[j]);
        }
    } else {
        assert(b == seq![m[0]] + ibump(m.drop_first(), k, s));
        if j == 0 {
            assert(b[0] == m[0]);
        } else {
            lemma_ibump_keys(m.drop_first(), k, s, j - 1);
            assert(b[j] == ibump(m.drop_first(), k, s)[j - 1]);
            if ibump(m.drop_first(), k, s)[j - 1].0 != k {
                let i = choose|i: int|
                    0 <= i < m.drop_first().len() && m.drop_first()[i].0 == ibump(
                        m.drop_first(),
                        k,
                        s,
                    )[j - 1].0;
                assert(m.drop_first()[i] == m[i + 1]);
            }
        }
    }
}

proof fn lemma_ibump_distinct(m: Seq<(int, int)>, k: int, s: int)
    requires
        distinct_ids(m),
    ensures
        distinct_ids(ibump(m, k, s)),
    decreases m.len(),
{
    let b = ibump(m, k, s);
    if m.len() == 0 {
        assert(b == seq![(k, s)]);
    } else if m[0].0 == k {
        assert(b == seq![(m[0].0, m[0].1 + s)] + m.drop_first());
        assert forall|i: int, j: int| 0 <= i < j < b.len() implies b[i].0 != b[j].0 by {
            if i == 0 {
                assert(b[j].0 == m[j].0);
            } else {
                assert(b[i].0 == m[i].0);
                assert(b[j].0 == m[j].0);
            }
        }
    } else {
        assert(forall|i: int, j: int|
            0 <= i < j < m.drop_first().len() ==> m.drop_first()[i].0 != m.drop_first()[j].0);
        lemma_ibump_distinct(m.drop_first(), k, s);
        assert(b == seq![m[0]] + ibump(m.drop_first(), k, s));
        let t = ibump(m.drop_first(), k, s);
        assert forall|i: int, j: int| 0 <= i < j < b.len() implies b[i].0 != b[j].0 by {
            if i == 0 {
                assert(b[j].0 == t[j - 1].0);
                lemma_ibump_keys(m.drop_first(), k, s, j - 1);
                if t[j - 1].0 != k {
                    let w = choose|w: int|
                        0 <= w < m.drop_first().len() && m.drop_first()[w].0 == t[j - 1].0;
                    assert(m.drop_first()[w] == m[w + 1]);
                    assert(m[0].0 != m[w + 1].0);
                }
            } else {
                assert(b[i].0 == t[i - 1].0);
                assert(b[j].0 == t[j - 1].0);
            }
        }
    }
}

/// Each parent record number appears at most once in the MFT engine's
/// bucket list: a bucket is accumulated in place, never duplicated.
pub proof fn lemma_mft_sizes_distinct(rs: Seq<RecordView>)
    ensures
        distinct_ids(mft_sizes(rs)),
    decreases rs.len(),
{
    if rs.len() > 0 {
        lemma_mft_sizes_distinct(rs.drop_last());
        let r = rs.last();
        if r.in_use {
            match r.name {
                None => {},
                Some(_nm) => match r.data_len {
                    None => {},
                    Some(dl) => {
                        lemma_ibump_distinct(mft_sizes(rs.drop_last()), r.parent, dl);
                    },
                },
            }
        }
    }
}

} // verus!
