//! Shared result ranking: a stable descending sort on accumulated byte
//! totals, truncated to the ten largest entries.  Equal totals keep the
//! order in which the scan produced them.

use vstd::prelude::*;

verus! {

/// The most entries a scan ever reports.
pub const MAX_RESULTS: usize = 10;

/// One output row: a filesystem path or synthetic label, with the byte
/// total accumulated for it.
pub struct ScanEntry {
    pub label: String,
    pub size_bytes: u64,
}

impl View for ScanEntry {
    type V = (Seq<char>, u64);

    open spec fn view(&self) -> (Seq<char>, u64) {
        (self.label@, self.size_bytes)
    }
}

/// The views of a sequence of entries.
pub open spec fn entries_view(s: Seq<ScanEntry>) -> Seq<(Seq<char>, u64)> {
    s.map(|i: int, e: ScanEntry| e@)
}

/// Inserts `x` into `s` before the first entry whose total is strictly
/// smaller, so that among equal totals `x` lands after the existing ones.
pub open spec fn insert_desc(s: Seq<(Seq<char>, u64)>, x: (Seq<char>, u64)) -> Seq<
    (Seq<char>, u64),
>
    decreases s.len(),
{
    if s.len() == 0 {
        seq![x]
    } else if x.1 > s[0].1 {
        seq![x] + s
    } else {
        seq![s[0]] + insert_desc(s.drop_first(), x)
    }
}

/// Stable descending sort by byte total: entries are inserted in scan
/// order, each after the entries of equal total already placed.
pub open spec fn sort_desc(s: Seq<(Seq<char>, u64)>) -> Seq<(Seq<char>, u64)>
    decreases s.len(),
{
    if s.len() == 0 {
        Seq::empty()
    } else {
        insert_desc(sort_desc(s.drop_last()), s.last())
    }
}

/// Non-increasing byte totals.
pub open spec fn sorted_desc(s: Seq<(Seq<char>, u64)>) -> bool {
    forall|i: int, j: int| 0 <= i <= j < s.len() ==> s[i].1 >= s[j].1
}

/// What ranking returns: the stable descending sort, cut to the first ten.
pub open spec fn rank_spec(s: Seq<(Seq<char>, u64)>) -> Seq<(Seq<char>, u64)> {
    if sort_desc(s).len() <= MAX_RESULTS {
        sort_desc(s)
    } else {
        sort_desc(s).take(MAX_RESULTS as int)
    }
}

pub proof fn lemma_insert_desc_len(s: Seq<(Seq<char>, u64)>, x: (Seq<char>, u64))
    ensures
        insert_desc(s, x).len() == s.len() + 1,
    decreases s.len(),
{
    if s.len() > 0 && !(x.1 > s[0].1) {
        lemma_insert_desc_len(s.drop_first(), x);
    }
}

pub proof fn lemma_insert_desc_sorted(s: Seq<(Seq<char>, u64)>, x: (Seq<char>, u64))
    requires
        sorted_desc(s),
    ensures
        sorted_desc(insert_desc(s, x)),
    decreases s.len(),
{
    lemma_insert_desc_len(s, x);
    if s.len() == 0 {
    } else if x.1 > s[0].1 {
        assert forall|i: int, j: int|
            0 <= i <= j < insert_desc(s, x).len() implies insert_desc(s, x)[i].1 >= insert_desc(
            s,
            x,
        )[j].1 by {
            if i > 0 {
                assert(insert_desc(s, x)[i] == s[i - 1]);
                assert(insert_desc(s, x)[j] == s[j - 1]);
            } else if j > 0 {
                assert(insert_desc(s, x)[j] == s[j - 1]);
                assert(s[0].1 >= s[j - 1].1);
            }
        }
    } else {
        assert(forall|i: int, j: int|
            0 <= i <= j < s.drop_first().len() ==> s.drop_first()[i].1 >= s.drop_first()[j].1);
        lemma_insert_desc_sorted(s.drop_first(), x);
        let t = insert_desc(s.drop_first(), x);
        let r = insert_desc(s, x);
        assert(r == seq![s[0]] + t);
        // the head is at least every entry of the inserted tail
        assert forall|j: int| 0 <= j < t.len() implies s[0].1 >= t[j].1 by {
            lemma_insert_desc_head_bound(s.drop_first(), x, j);
            assert(s.drop_first().len() == s.len() - 1);
        }
        assert forall|i: int, j: int| 0 <= i <= j < r.len() implies r[i].1 >= r[j].1 by {
            if i == 0 && j > 0 {
                assert(r[j] == t[j - 1]);
            } else if i > 0 {
                assert(r[i] == t[i - 1]);
                assert(r[j] == t[j - 1]);
            }
        }
    }
}

/// Every entry of `insert_desc(s, x)` is either `x` or an entry of `s`.
proof fn lemma_insert_desc_head_bound(s: Seq<(Seq<char>, u64)>, x: (Seq<char>, u64), j: int)
    requires
        0 <= j < insert_desc(s, x).len(),
    ensures
        insert_desc(s, x)[j] == x || exists|k: int| 0 <= k < s.len() && insert_desc(s, x)[j]
            == s[k],
    decreases s.len(),
{
    lemma_insert_desc_len(s, x);
    if s.len() == 0 {
    } else if x.1 > s[0].1 {
        if j > 0 {
            assert(insert_desc(s, x)[j] == s[j - 1]);
        }
    } else {
        if j == 0 {
            assert(insert_desc(s, x)[0] == s[0]);
        } else {
            lemma_insert_desc_head_bound(s.drop_first(), x, j - 1);
            assert(insert_desc(s, x)[j] == insert_desc(s.drop_first(), x)[j - 1]);
            if insert_desc(s.drop_first(), x)[j - 1] != x {
                let k = choose|k: int|
                    0 <= k < s.drop_first().len() && insert_desc(s.drop_first(), x)[j - 1]
                        == s.drop_first()[k];
                assert(s.drop_first()[k] == s[k + 1]);
            }
        }
    }
}

/// The stable sort keeps the length and is non-increasing in size.
pub proof fn lemma_sort_desc_props(s: Seq<(Seq<char>, u64)>)
    ensures
        sort_desc(s).len() == s.len(),
        sorted_desc(sort_desc(s)),
    decreases s.len(),
{
    if s.len() > 0 {
        lemma_sort_desc_props(s.drop_last());
        lemma_insert_desc_len(sort_desc(s.drop_last()), s.last());
        lemma_insert_desc_sorted(sort_desc(s.drop_last()), s.last());
    }
}

/// Where the insertion loop stops, the spec insertion places `x`.
proof fn lemma_insert_desc_at(s: Seq<(Seq<char>, u64)>, x: (Seq<char>, u64), j: int)
    requires
        0 <= j <= s.len(),
        forall|k: int| 0 <= k < j ==> s[k].1 >= x.1,
        j < s.len() ==> s[j].1 < x.1,
    ensures
        insert_desc(s, x) =~= s.take(j) + seq![x] + s.skip(j),
    decreases s.len(),
{
    if s.len() == 0 {
    } else if j == 0 {
    } else {
        assert(s[0].1 >= x.1);
        lemma_insert_desc_at(s.drop_first(), x, j - 1);
        assert(insert_desc(s, x) == seq![s[0]] + insert_desc(s.drop_first(), x));
        assert(s.drop_first().take(j - 1) =~= s.take(j).drop_first());
        assert(s.drop_first().skip(j - 1) =~= s.skip(j));
    }
}

/// Inserts one entry into an already ranked vector, keeping the stable
/// descending order.
fn insert_ranked(r: &mut Vec<ScanEntry>, x: ScanEntry)
    ensures
        entries_view(final(r)@) == insert_desc(entries_view(old(r)@), x@),
{
    let ghost s = entries_view(r@);
    let ghost xv = x@;
    let x_size = x.size_bytes;
    let mut j: usize = 0;
    while j < r.len() && r[j].size_bytes >= x_size
        invariant
            j <= r.len(),
            s == entries_view(r@),
            xv.1 == x_size,
            forall|k: int| 0 <= k < j ==> s[k].1 >= xv.1,
        decreases r.len() - j,
    {
        assert(s[j as int] == r@[j as int]@);
        assert(s[j as int].1 == r@[j as int].size_bytes);
        j = j + 1;
        assert(forall|k: int| 0 <= k < j ==> s[k].1 >= xv.1);
    }
    proof {
        if (j as int) < s.len() {
            assert(s[j as int] == r@[j as int]@);
        }
        lemma_insert_desc_at(s, xv, j as int);
    }
    r.insert(j, x);
    proof {
        assert(entries_view(r@) =~= s.take(j as int) + seq![xv] + s.skip(j as int));
    }
}

/// Ranks a scan's accumulated entries: stable descending sort by byte
/// total, truncated to the ten largest.  Ties keep their scan order.
pub fn rank(input: Vec<ScanEntry>) -> (r: Vec<ScanEntry>)
    ensures
        entries_view(r@) == rank_spec(entries_view(input@)),
        r@.len() <= MAX_RESULTS,
        sorted_desc(entries_view(r@)),
        r@.len() == if input@.len() < MAX_RESULTS {
            input@.len() as int
        } else {
            MAX_RESULTS as int
        },
{
    let ghost orig = entries_view(input@);
    let mut rest = input;
    let mut r: Vec<ScanEntry> = Vec::new();
    proof {
        assert(entries_view(rest@) =~= orig.skip(0));
        assert(entries_view(r@) =~= sort_desc(orig.take(0)));
    }
    while rest.len() > 0
        invariant
            entries_view(rest@) =~= orig.skip(orig.len() - rest@.len()),
            entries_view(r@) == sort_desc(orig.take(orig.len() - rest@.len())),
            rest@.len() <= orig.len(),
        decreases rest@.len(),
    {
        let ghost k = orig.len() - rest@.len();
        let ghost prev = rest@;
        let x = rest.remove(0);
        proof {
            assert(entries_view(prev)[0] == prev[0]@);
            assert(x@ == orig[k]);
            assert(entries_view(rest@) =~= orig.skip(k + 1)) by {
                assert forall|i: int| 0 <= i < rest@.len() implies entries_view(rest@)[i]
                    == orig.skip(k + 1)[i] by {
                    assert(rest@[i] == prev[i + 1]);
                    assert(entries_view(prev)[i + 1] == prev[i + 1]@);
                    assert(entries_view(prev)[i + 1] == orig.skip(k)[i + 1]);
                }
            }
        }
        insert_ranked(&mut r, x);
        proof {
            assert(orig.take(k + 1).drop_last() =~= orig.take(k));
            assert(orig.take(k + 1).last() == orig[k]);
            assert(sort_desc(orig.take(k + 1)) == insert_desc(
                sort_desc(orig.take(k)),
                orig[k],
            ));
        }
    }
    proof {
        assert(orig.take(orig.len() as int) =~= orig);
        lemma_sort_desc_props(orig);
    }
    if r.len() > MAX_RESULTS {
        let ghost full = entries_view(r@);
        r.truncate(MAX_RESULTS);
        proof {
            assert(entries_view(r@) =~= full.take(MAX_RESULTS as int));
        }
    }
    r
}

} // verus!
