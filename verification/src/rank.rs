//! Ranking and rendering of the winning palette.
//!
//! Each cluster of the winning trial becomes one record: its centroid mapped
//! back to RGB, the exact population share `count / total`, and the cluster's
//! index. Records are sorted by descending share; exact ties keep ascending
//! centroid index, so the order is total and reproducible. Empty clusters are
//! kept, with share zero. The formatter then attaches the lowercase
//! `#rrggbb` rendering of each color.

use vstd::prelude::*;
use crate::color::{ColorSample, RgbTuple, hex_of, hex_string, to_rgb, to_rgb_spec};
use crate::kmeans::{RunResult, all_wf, ccount, MAX_SAMPLES, MAX_K};

verus! {

/// One ranked cluster: its color, how many samples it holds of the total,
/// and which centroid it came from. Its share of the palette is the exact
/// fraction `count / total`.
#[derive(Clone, Copy, PartialEq, Eq, Structural, Debug)]
pub struct RankedColor {
    pub rgb: RgbTuple,
    pub count: usize,
    pub total: usize,
    pub centroid_index: usize,
}

/// One rendered palette entry: a ranked cluster together with the lowercase
/// `#rrggbb` string of its color.
#[derive(Clone, Debug)]
pub struct PaletteEntry {
    pub rgb: RgbTuple,
    pub hex: String,
    pub count: usize,
    pub total: usize,
    pub centroid_index: usize,
}

/// `x` may stand at or before `y`: larger share first, ties by ascending
/// centroid index.
pub open spec fn rank_le(x: RankedColor, y: RankedColor) -> bool {
    x.count > y.count || (x.count == y.count && x.centroid_index <= y.centroid_index)
}

/// `x` must stand strictly before `y`.
pub open spec fn rank_before(x: RankedColor, y: RankedColor) -> bool {
    x.count > y.count || (x.count == y.count && x.centroid_index < y.centroid_index)
}

/// The sequence is ordered: non-increasing share, ties by ascending index.
pub open spec fn sorted_le(s: Seq<RankedColor>) -> bool {
    forall|i: int, j: int| 0 <= i < j < s.len() ==> #[trigger] rank_le(s[i], s[j])
}

/// Inserts `x` before the first element it must precede.
pub open spec fn insert_ranked(s: Seq<RankedColor>, x: RankedColor) -> Seq<RankedColor>
    decreases s.len(),
{
    if s.len() == 0 {
        seq![x]
    } else if rank_before(x, s[0]) {
        seq![x] + s
    } else {
        seq![s[0]] + insert_ranked(s.drop_first(), x)
    }
}

/// Insertion sort under the ranking order.
pub open spec fn sort_ranked(s: Seq<RankedColor>) -> Seq<RankedColor>
    decreases s.len(),
{
    if s.len() == 0 {
        Seq::empty()
    } else {
        insert_ranked(sort_ranked(s.drop_last()), s.last())
    }
}

/// Sum of the `count` fields.
pub open spec fn sum_counts(s: Seq<RankedColor>) -> int
    decreases s.len(),
{
    if s.len() == 0 {
        0
    } else {
        sum_counts(s.drop_last()) + s.last().count
    }
}

/// Sum of the `count` fields of rendered entries.
pub open spec fn sum_entry_counts(s: Seq<PaletteEntry>) -> int
    decreases s.len(),
{
    if s.len() == 0 {
        0
    } else {
        sum_entry_counts(s.drop_last()) + s.last().count
    }
}

pub proof fn lemma_insert_len(s: Seq<RankedColor>, x: RankedColor)
    ensures
        insert_ranked(s, x).len() == s.len() + 1,
    decreases s.len(),
{
    if s.len() > 0 && !rank_before(x, s[0]) {
        lemma_insert_len(s.drop_first(), x);
    }
}

pub proof fn lemma_sort_len(s: Seq<RankedColor>)
    ensures
        sort_ranked(s).len() == s.len(),
    decreases s.len(),
{
    if s.len() > 0 {
        lemma_sort_len(s.drop_last());
        lemma_insert_len(sort_ranked(s.drop_last()), s.last());
    }
}

/// Every element of the inserted sequence is `x` or an element of `s`.
pub proof fn lemma_insert_elems(s: Seq<RankedColor>, x: RankedColor)
    ensures
        forall|i: int| 0 <= i < insert_ranked(s, x).len() ==> (#[trigger] insert_ranked(s, x)[i])
            == x || exists|j: int| 0 <= j < s.len() && insert_ranked(s, x)[i] == s[j],
    decreases s.len(),
{
    lemma_insert_len(s, x);
    if s.len() == 0 {
    } else if rank_before(x, s[0]) {
        assert forall|i: int| 0 <= i < insert_ranked(s, x).len() implies
            (#[trigger] insert_ranked(s, x)[i]) == x || exists|j: int|
                0 <= j < s.len() && insert_ranked(s, x)[i] == s[j] by {
            if i > 0 {
                assert(insert_ranked(s, x)[i] == s[i - 1]);
            }
        }
    } else {
        lemma_insert_elems(s.drop_first(), x);
        let r = insert_ranked(s, x);
        let rr = insert_ranked(s.drop_first(), x);
        assert forall|i: int| 0 <= i < r.len() implies (#[trigger] r[i]) == x || exists|j: int|
            0 <= j < s.len() && r[i] == s[j] by {
            if i == 0 {
                assert(r[0] == s[0]);
            } else {
                assert(r[i] == rr[i - 1]);
                if rr[i - 1] != x {
                    let j = choose|j: int| 0 <= j < s.drop_first().len() && rr[i - 1]
                        == s.drop_first()[j];
                    assert(r[i] == s[j + 1]);
                }
            }
        }
    }
}

/// Inserting into an ordered sequence keeps it ordered.
pub proof fn lemma_insert_sorted(s: Seq<RankedColor>, x: RankedColor)
    requires
        sorted_le(s),
    ensures
        sorted_le(insert_ranked(s, x)),
    decreases s.len(),
{
    lemma_insert_len(s, x);
    if s.len() == 0 {
    } else if rank_before(x, s[0]) {
        let r = seq![x] + s;
        assert forall|i: int, j: int| 0 <= i < j < r.len() implies #[trigger] rank_le(
            r[i],
            r[j],
        ) by {
            if i == 0 {
                assert(r[j] == s[j - 1]);
                if j > 1 {
                    assert(rank_le(s[0], s[j - 1]));
                }
            } else {
                assert(r[i] == s[i - 1] && r[j] == s[j - 1]);
            }
        }
    } else {
        let st = s.drop_first();
        assert forall|i: int, j: int| 0 <= i < j < st.len() implies #[trigger] rank_le(
            st[i],
            st[j],
        ) by {
            assert(st[i] == s[i + 1] && st[j] == s[j + 1]);
        }
        lemma_insert_sorted(st, x);
        lemma_insert_elems(st, x);
        let rr = insert_ranked(st, x);
        let r = seq![s[0]] + rr;
        assert forall|i: int, j: int| 0 <= i < j < r.len() implies #[trigger] rank_le(
            r[i],
            r[j],
        ) by {
            if i == 0 {
                assert(r[j] == rr[j - 1]);
                if rr[j - 1] == x {
                    assert(rank_le(s[0], x));
                } else {
                    let t = choose|t: int| 0 <= t < st.len() && rr[j - 1] == st[t];
                    assert(rank_le(s[0], s[t + 1]));
                }
            } else {
                assert(r[i] == rr[i - 1] && r[j] == rr[j - 1]);
            }
        }
    }
}

/// The sorted sequence is ordered.
pub proof fn lemma_sort_sorted(s: Seq<RankedColor>)
    ensures
        sorted_le(sort_ranked(s)),
    decreases s.len(),
{
    if s.len() > 0 {
        lemma_sort_sorted(s.drop_last());
        lemma_insert_sorted(sort_ranked(s.drop_last()), s.last());
    }
}

pub proof fn lemma_sum_prepend(x: RankedColor, s: Seq<RankedColor>)
    ensures
        sum_counts(seq![x] + s) == x.count + sum_counts(s),
    decreases s.len(),
{
    if s.len() == 0 {
        assert(seq![x] + s =~= seq![x]);
        assert(sum_counts(seq![x]) == sum_counts(seq![x].drop_last()) + x.count);
        assert(seq![x].drop_last() =~= Seq::<RankedColor>::empty());
    } else {
        lemma_sum_prepend(x, s.drop_last());
        assert((seq![x] + s).drop_last() =~= seq![x] + s.drop_last());
        assert((seq![x] + s).last() == s.last());
    }
}

/// Insertion adds exactly the inserted count to the sum.
pub proof fn lemma_insert_sum(s: Seq<RankedColor>, x: RankedColor)
    ensures
        sum_counts(insert_ranked(s, x)) == sum_counts(s) + x.count,
    decreases s.len(),
{
    if s.len() == 0 {
        assert(insert_ranked(s, x) == seq![x]);
        assert(seq![x].drop_last() =~= Seq::<RankedColor>::empty());
        assert(sum_counts(seq![x]) == sum_counts(seq![x].drop_last()) + x.count);
    } else if rank_before(x, s[0]) {
        assert(insert_ranked(s, x) == seq![x] + s);
        lemma_sum_prepend(x, s);
    } else {
        assert(insert_ranked(s, x) == seq![s[0]] + insert_ranked(s.drop_first(), x));
        lemma_insert_sum(s.drop_first(), x);
        lemma_sum_prepend(s[0], insert_ranked(s.drop_first(), x));
        lemma_sum_prepend(s[0], s.drop_first());
        assert(seq![s[0]] + s.drop_first() =~= s);
    }
}

/// Sorting leaves the sum of the counts unchanged.
pub proof fn lemma_sort_sum(s: Seq<RankedColor>)
    ensures
        sum_counts(sort_ranked(s)) == sum_counts(s),
    decreases s.len(),
{
    if s.len() > 0 {
        lemma_sort_sum(s.drop_last());
        lemma_insert_sum(sort_ranked(s.drop_last()), s.last());
    }
}

/// Where the first strict predecessor position is `p`, insertion is
/// insertion at `p`.
pub proof fn lemma_insert_at(s: Seq<RankedColor>, x: RankedColor, p: int)
    requires
        0 <= p <= s.len(),
        forall|i: int| 0 <= i < p ==> !rank_before(x, #[trigger] s[i]),
        p < s.len() ==> rank_before(x, s[p]),
    ensures
        insert_ranked(s, x) == s.insert(p, x),
    decreases s.len(),
{
    if s.len() == 0 {
        assert(insert_ranked(s, x) =~= s.insert(0, x));
    } else if p == 0 {
        assert(rank_before(x, s[0]));
        assert(seq![x] + s =~= s.insert(0, x));
    } else {
        assert(!rank_before(x, s[0]));
        let st = s.drop_first();
        assert forall|i: int| 0 <= i < p - 1 implies !rank_before(x, #[trigger] st[i]) by {
            assert(st[i] == s[i + 1]);
        }
        assert(p - 1 < st.len() ==> rank_before(x, st[p - 1]));
        lemma_insert_at(st, x, p - 1);
        assert(seq![s[0]] + st.insert(p - 1, x) =~= s.insert(p, x));
    }
}

/// Every element of the sorted sequence is an element of the input.
pub proof fn lemma_sort_elems(s: Seq<RankedColor>)
    ensures
        forall|i: int| 0 <= i < sort_ranked(s).len() ==> exists|j: int|
            0 <= j < s.len() && (#[trigger] sort_ranked(s)[i]) == s[j],
    decreases s.len(),
{
    if s.len() > 0 {
        let sd = s.drop_last();
        lemma_sort_elems(sd);
        lemma_sort_len(s);
        lemma_sort_len(sd);
        lemma_insert_elems(sort_ranked(sd), s.last());
        assert forall|i: int| 0 <= i < sort_ranked(s).len() implies exists|j: int|
            0 <= j < s.len() && (#[trigger] sort_ranked(s)[i]) == s[j] by {
            let e = sort_ranked(s)[i];
            if e == s.last() {
                assert(sort_ranked(s)[i] == s[s.len() - 1]);
            } else {
                let t = choose|t: int|
                    0 <= t < sort_ranked(sd).len() && sort_ranked(s)[i] == sort_ranked(sd)[t];
                let u = choose|u: int| 0 <= u < sd.len() && sort_ranked(sd)[t] == sd[u];
                assert(sort_ranked(s)[i] == s[u]);
            }
        }
    }
}

/// Prefix sum of a count table.
pub open spec fn usum(s: Seq<usize>, m: int) -> int
    decreases m,
{
    if m <= 0 {
        0
    } else {
        usum(s, m - 1) + s[m - 1]
    }
}

/// A prefix of zeros sums to zero.
pub proof fn lemma_usum_zero(s: Seq<usize>, m: int)
    requires
        forall|t: int| 0 <= t < m ==> (#[trigger] s[t]) == 0,
    ensures
        usum(s, m) == 0,
    decreases m,
{
    if m > 0 {
        lemma_usum_zero(s, m - 1);
    }
}

/// Two tables that agree below `m` have the same prefix sum up to `m`.
pub proof fn lemma_usum_frame(a: Seq<usize>, b: Seq<usize>, m: int)
    requires
        forall|t: int| 0 <= t < m ==> a[t] == b[t],
    ensures
        usum(a, m) == usum(b, m),
    decreases m,
{
    if m > 0 {
        lemma_usum_frame(a, b, m - 1);
    }
}

/// Changing one slot changes a covering prefix sum by the difference.
pub proof fn lemma_usum_update(s: Seq<usize>, c: int, v: usize, m: int)
    requires
        0 <= c < m <= s.len(),
    ensures
        usum(s.update(c, v), m) == usum(s, m) - s[c] + v,
    decreases m,
{
    let su = s.update(c, v);
    if c == m - 1 {
        lemma_usum_frame(s, su, m - 1);
        assert(su[m - 1] == v);
    } else {
        lemma_usum_update(s, c, v, m - 1);
        assert(su[m - 1] == s[m - 1]);
    }
}

/// The records of the winning trial, one per centroid, unsorted.
pub open spec fn records_of(
    cents: Seq<ColorSample>,
    assign: Seq<usize>,
    total: int,
) -> Seq<RankedColor> {
    Seq::new(
        cents.len(),
        |j: int| RankedColor {
            rgb: to_rgb_spec(cents[j]),
            count: ccount(assign, j, assign.len() as int) as usize,
            total: total as usize,
            centroid_index: j as usize,
        },
    )
}

/// Ranks the clusters of the winning trial: one record per centroid
/// (empty clusters included with count zero), ordered by descending share
/// with exact ties in ascending centroid order.
pub fn rank_clusters(rr: &RunResult, total: usize) -> (res: Vec<RankedColor>)
    requires
        rr.assignments@.len() == total,
        total <= MAX_SAMPLES,
        1 <= rr.centroids@.len() <= MAX_K,
        all_wf(rr.centroids@),
        forall|i: int| 0 <= i < rr.assignments@.len() ==> (#[trigger] rr.assignments@[i])
            < rr.centroids@.len(),
    ensures
        res@ == sort_ranked(records_of(rr.centroids@, rr.assignments@, total as int)),
        res@.len() == rr.centroids@.len(),
        sorted_le(res@),
        sum_counts(res@) == total,
        forall|i: int| 0 <= i < res@.len() ==> (#[trigger] res@[i]).total == total,
{
    let k = rr.centroids.len();
    let n = rr.assignments.len();
    let ghost assign = rr.assignments@;
    let ghost cents = rr.centroids@;
    // Count the population of every cluster.
    let mut counts: Vec<usize> = Vec::new();
    let mut j: usize = 0;
    while j < k
        invariant
            j <= k,
            counts@.len() == j,
            forall|t: int| 0 <= t < j ==> (#[trigger] counts@[t]) == 0,
        decreases k - j,
    {
        counts.push(0);
        j = j + 1;
    }
    proof {
        lemma_usum_zero(counts@, k as int);
    }
    let mut i: usize = 0;
    while i < n
        invariant
            i <= n,
            n == assign.len(),
            n <= MAX_SAMPLES,
            counts@.len() == k,
            forall|t: int| 0 <= t < n ==> (#[trigger] assign[t]) < k,
            assign == rr.assignments@,
            forall|t: int| 0 <= t < k ==> (#[trigger] counts@[t]) as int == ccount(
                assign,
                t,
                i as int,
            ),
            forall|t: int| 0 <= t < k ==> (#[trigger] counts@[t]) <= i,
            usum(counts@, k as int) == i,
        decreases n - i,
    {
        let c: usize = rr.assignments[i];
        let cur = counts[c];
        proof {
            lemma_usum_update(counts@, c as int, (cur + 1) as usize, k as int);
        }
        counts.set(c, cur + 1);
        proof {
            assert forall|t: int| 0 <= t < k implies (#[trigger] counts@[t]) as int == ccount(
                assign,
                t,
                i as int + 1,
            ) by {
                assert(ccount(assign, t, i as int + 1) == ccount(assign, t, i as int)
                    + if assign[i as int] as int == t { 1int } else { 0int });
            }
        }
        i = i + 1;
    }
    // Build one record per centroid.
    let ghost recs = records_of(cents, assign, total as int);
    let mut records: Vec<RankedColor> = Vec::new();
    let mut j2: usize = 0;
    while j2 < k
        invariant
            j2 <= k,
            k == cents.len(),
            n == assign.len(),
            cents == rr.centroids@,
            assign == rr.assignments@,
            all_wf(cents),
            counts@.len() == k,
            total as int == n as int,
            forall|t: int| 0 <= t < k ==> (#[trigger] counts@[t]) as int == ccount(
                assign,
                t,
                n as int,
            ),
            usum(counts@, k as int) == n,
            recs == records_of(cents, assign, total as int),
            records@.len() == j2,
            forall|t: int| 0 <= t < j2 ==> (#[trigger] records@[t]) == recs[t],
            sum_counts(records@) == usum(counts@, j2 as int),
        decreases k - j2,
    {
        let rgb = to_rgb(rr.centroids[j2]);
        let rec = RankedColor { rgb, count: counts[j2], total, centroid_index: j2 };
        proof {
            assert(rec == recs[j2 as int]);
        }
        let ghost old_records = records@;
        records.push(rec);
        proof {
            assert(records@.drop_last() =~= old_records);
            assert(sum_counts(records@) == sum_counts(old_records) + rec.count);
        }
        j2 = j2 + 1;
    }
    proof {
        assert(records@ =~= recs);
    }
    // Insertion sort: descending share, ties by ascending centroid index.
    let mut out: Vec<RankedColor> = Vec::new();
    let mut i2: usize = 0;
    while i2 < records.len()
        invariant
            i2 <= records@.len(),
            records@ == recs,
            out@ == sort_ranked(records@.take(i2 as int)),
            out@.len() == i2,
        decreases records@.len() - i2,
    {
        let x = records[i2];
        let p = find_insert_pos(&out, &x);
        let ghost old_out = out@;
        out.insert(p, x);
        proof {
            lemma_insert_at(old_out, x, p as int);
            lemma_insert_len(old_out, x);
            assert(records@.take(i2 as int + 1).drop_last() =~= records@.take(i2 as int));
            assert(records@.take(i2 as int + 1).last() == records@[i2 as int]);
            assert(sort_ranked(records@.take(i2 as int + 1)) == insert_ranked(
                sort_ranked(records@.take(i2 as int)),
                records@[i2 as int],
            ));
        }
        i2 = i2 + 1;
    }
    proof {
        assert(records@.take(records@.len() as int) =~= records@);
        lemma_sort_sorted(recs);
        lemma_sort_sum(recs);
        lemma_sort_len(recs);
        assert(sum_counts(recs) == usum(counts@, k as int)) by {
            lemma_records_sum(recs, counts@, k as int);
        }
        lemma_sort_elems(recs);
        assert forall|t: int| 0 <= t < out@.len() implies (#[trigger] out@[t]).total
            == total by {
            let u = choose|u: int| 0 <= u < recs.len() && out@[t] == recs[u];
        }
    }
    out
}

/// The sum over the records equals the prefix sum of the count table they
/// were built from.
proof fn lemma_records_sum(recs: Seq<RankedColor>, counts: Seq<usize>, m: int)
    requires
        0 <= m <= recs.len(),
        m <= counts.len(),
        forall|t: int| 0 <= t < recs.len() ==> (#[trigger] recs[t]).count == counts[t],
    ensures
        sum_counts(recs.take(m)) == usum(counts, m),
    decreases m,
{
    if m > 0 {
        lemma_records_sum(recs, counts, m - 1);
        assert(recs.take(m).drop_last() =~= recs.take(m - 1));
        assert(recs.take(m).last() == recs[m - 1]);
    } else {
        assert(recs.take(0) =~= Seq::<RankedColor>::empty());
    }
}

/// Compares two records under the strict ranking order.
fn rank_before_exec(x: &RankedColor, y: &RankedColor) -> (b: bool)
    ensures
        b == rank_before(*x, *y),
{
    x.count > y.count || (x.count == y.count && x.centroid_index < y.centroid_index)
}

/// The position of the first element that `x` must strictly precede.
fn find_insert_pos(v: &Vec<RankedColor>, x: &RankedColor) -> (p: usize)
    ensures
        p <= v@.len(),
        forall|i: int| 0 <= i < p ==> !rank_before(*x, #[trigger] v@[i]),
        p < v@.len() ==> rank_before(*x, v@[p as int]),
{
    let mut p: usize = 0;
    while p < v.len()
        invariant
            p <= v@.len(),
            forall|i: int| 0 <= i < p ==> !rank_before(*x, #[trigger] v@[i]),
        decreases v@.len() - p,
    {
        if rank_before_exec(x, &v[p]) {
            return p;
        }
        p = p + 1;
    }
    p
}

/// All entries carry the data of their records, plus the hex rendering.
pub open spec fn entries_match(es: Seq<PaletteEntry>, rs: Seq<RankedColor>) -> bool {
    &&& es.len() == rs.len()
    &&& forall|i: int| 0 <= i < es.len() ==> {
        &&& (#[trigger] es[i]).rgb == rs[i].rgb
        &&& es[i].hex@ == hex_of(rs[i].rgb)
        &&& es[i].count == rs[i].count
        &&& es[i].total == rs[i].total
        &&& es[i].centroid_index == rs[i].centroid_index
    }
}

/// Entry counts that agree pointwise with record counts sum alike.
pub proof fn lemma_sum_counts_pointwise(es: Seq<PaletteEntry>, rs: Seq<RankedColor>)
    requires
        es.len() == rs.len(),
        forall|i: int| 0 <= i < es.len() ==> (#[trigger] es[i]).count == rs[i].count,
    ensures
        sum_entry_counts(es) == sum_counts(rs),
    decreases es.len(),
{
    if es.len() > 0 {
        lemma_sum_counts_pointwise(es.drop_last(), rs.drop_last());
    }
}

/// Renders the ranked clusters: each record gains the `#rrggbb` string of
/// its color; order and data are otherwise unchanged.
pub fn format_entries(v: &Vec<RankedColor>) -> (res: Vec<PaletteEntry>)
    ensures
        entries_match(res@, v@),
{
    let mut res: Vec<PaletteEntry> = Vec::new();
    let mut i: usize = 0;
    while i < v.len()
        invariant
            i <= v@.len(),
            res@.len() == i,
            forall|t: int| 0 <= t < i ==> {
                &&& (#[trigger] res@[t]).rgb == v@[t].rgb
                &&& res@[t].hex@ == hex_of(v@[t].rgb)
                &&& res@[t].count == v@[t].count
                &&& res@[t].total == v@[t].total
                &&& res@[t].centroid_index == v@[t].centroid_index
            },
        decreases v@.len() - i,
    {
        let x = v[i];
        let hex = hex_string(x.rgb);
        res.push(PaletteEntry {
            rgb: x.rgb,
            hex,
            count: x.count,
            total: x.total,
            centroid_index: x.centroid_index,
        });
        i = i + 1;
    }
    res
}

} // verus!
