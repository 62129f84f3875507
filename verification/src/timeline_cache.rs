//! A cache of rendered timeline pieces. Pieces are kept per key (scale, mode and label);
//! within a key they are ordered by start and apart from one another, touching or
//! overlapping pieces being merged, and no key keeps more than 64 of them.
use vstd::prelude::*;

use crate::text::{chars_of, overlay_seq, repeat_seq, str_equal, string_of};

verus! {

/// The most pieces one key keeps; the earliest go first.
pub const MAX_ENTRIES_PER_KEY: usize = 64;

/// What a timeline shows.
#[derive(PartialEq, Eq, Structural, Clone, Copy, Debug)]
pub enum TimelineMode {
    SingleAll,
    SingleAllFull,
    SingleClass,
    SingleClassFull,
    MultiClass,
    MultiTitle,
    MultiFull,
}

/// The key pieces are cached under.
#[derive(Clone, Debug)]
pub struct TimelineCacheKey {
    pub ms_per_character: u64,
    pub mode: TimelineMode,
    pub label: Option<String>,
}

/// One rendered piece: the characters for `[start_ms, end_ms)` and the label of each.
#[derive(Clone, Debug)]
pub struct TimelineCacheEntry {
    pub start_ms: u64,
    pub end_ms: u64,
    pub timeline: String,
    pub section_labels: Vec<String>,
}

/// The pieces rendered so far, one bucket per key.
pub struct TimelineCache {
    pub entries: Vec<(TimelineCacheKey, Vec<TimelineCacheEntry>)>,
}

/// A label as plain text.
pub open spec fn label_view(l: Option<String>) -> Option<Seq<char>> {
    match l {
        Some(s) => Some(s@),
        None => None,
    }
}

/// A key as plain values; two keys are the same when these are.
pub open spec fn key_view(k: TimelineCacheKey) -> (u64, TimelineMode, Option<Seq<char>>) {
    (k.ms_per_character, k.mode, label_view(k.label))
}

/// The labels of a piece as plain text.
pub open spec fn labels_view(ls: Seq<String>) -> Seq<Seq<char>> {
    ls.map_values(|s: String| s@)
}

/// The keys of the buckets, in order.
pub open spec fn bucket_keys(es: Seq<(TimelineCacheKey, Vec<TimelineCacheEntry>)>) -> Seq<
    (u64, TimelineMode, Option<Seq<char>>),
> {
    es.map_values(|e: (TimelineCacheKey, Vec<TimelineCacheEntry>)| key_view(e.0))
}

/// The position of the bucket of `key`.
pub open spec fn bucket_position(
    es: Seq<(TimelineCacheKey, Vec<TimelineCacheEntry>)>,
    key: TimelineCacheKey,
) -> Option<int> {
    bucket_keys(es).index_of_first(key_view(key))
}

/// The pieces of `key` among the buckets `es`, if it has a bucket.
pub open spec fn bucket_of(
    es: Seq<(TimelineCacheKey, Vec<TimelineCacheEntry>)>,
    key: TimelineCacheKey,
) -> Option<Seq<TimelineCacheEntry>> {
    match bucket_position(es, key) {
        Some(i) => Some(es[i].1@),
        None => None,
    }
}

/// Pieces ordered by start, each non-empty, each ending before the next starts, at most
/// `MAX_ENTRIES_PER_KEY` of them.
pub open spec fn bucket_ok(b: Seq<TimelineCacheEntry>) -> bool {
    &&& b.len() <= MAX_ENTRIES_PER_KEY
    &&& forall|i: int| 0 <= i < b.len() ==> (#[trigger] b[i]).start_ms < b[i].end_ms
    &&& forall|i: int, j: int| 0 <= i < j < b.len() ==> (#[trigger] b[i]).end_ms < (#[trigger] b[j]).start_ms
}

/// The piece at `i` spans exactly `[start_ms, end_ms)`, and no later one does.
pub open spec fn last_exact(b: Seq<TimelineCacheEntry>, i: int, start_ms: u64, end_ms: u64) -> bool {
    &&& 0 <= i < b.len()
    &&& b[i].start_ms == start_ms
    &&& b[i].end_ms == end_ms
    &&& forall|j: int| i < j < b.len() ==> !(#[trigger] b[j].start_ms == start_ms && b[j].end_ms == end_ms)
}

/// What a lookup of the span `[start_ms, end_ms)` in the pieces `b` of a key gives: the
/// last piece of that span, none when no piece has it, and none when the key has no pieces.
pub open spec fn exact_lookup(
    b: Option<Seq<TimelineCacheEntry>>,
    r: Option<TimelineCacheEntry>,
    start_ms: u64,
    end_ms: u64,
) -> bool {
    match b {
        Some(b) => match r {
            Some(e) => exists|i: int| #[trigger] last_exact(b, i, start_ms, end_ms) && b[i] == e,
            None => forall|j: int|
                0 <= j < b.len() ==> !(#[trigger] b[j].start_ms == start_ms && b[j].end_ms == end_ms),
        },
        None => r is None,
    }
}

/// What adding `entry` makes of the pieces `b0` of its key: the piece of the same span
/// replaced when there is one; otherwise pieces that cover nothing new, and, unless the
/// bound was reached, everything covered before and the span of `entry`; see
/// `kept_latest` for which pieces stay when it was, and `merge_inserted` for what they
/// show, merged at `ms` per character.
pub open spec fn inserted(b0: Seq<TimelineCacheEntry>, b: Seq<TimelineCacheEntry>, entry: TimelineCacheEntry, ms: int) -> bool {
    if exists|i: int|
        0 <= i < b0.len() && (#[trigger] b0[i]).start_ms == entry.start_ms && b0[i].end_ms
            == entry.end_ms {
        exists|i: int|
            0 <= i < b0.len() && (#[trigger] b0[i]).start_ms == entry.start_ms && b0[i].end_ms
                == entry.end_ms && b == b0.update(i, entry)
    } else {
        &&& forall|t: int|
            #[trigger] covered(b, t) ==> covered(b0, t) || entry.start_ms <= t < entry.end_ms
        &&& b.len() < MAX_ENTRIES_PER_KEY ==> forall|t: int|
            covered(b0, t) || entry.start_ms <= t < entry.end_ms ==> #[trigger] covered(b, t)
        &&& b0.len() < MAX_ENTRIES_PER_KEY ==> forall|t: int|
            covered(b0, t) || entry.start_ms <= t < entry.end_ms ==> #[trigger] covered(b, t)
        &&& kept_latest(b0, b, entry)
        &&& merge_inserted(b0, b, entry, ms)
    }
}

/// The pieces of a bucket, none when there is no bucket.
pub open spec fn pieces_or_none(b: Option<Seq<TimelineCacheEntry>>) -> Seq<TimelineCacheEntry> {
    match b {
        Some(x) => x,
        None => Seq::empty(),
    }
}

/// Some piece of `b` spans all of `[start_ms, end_ms)`.
pub open spec fn spans(b: Seq<TimelineCacheEntry>, start_ms: int, end_ms: int) -> bool {
    exists|i: int| 0 <= i < b.len() && (#[trigger] b[i]).start_ms <= start_ms && end_ms <= b[i].end_ms
}

/// Among pieces apart from one another, a span all of whose instants are covered lies in
/// one piece.
proof fn lemma_covered_span(b: Seq<TimelineCacheEntry>, s: int, e: int)
    requires
        bucket_ok(b),
        s < e,
        forall|t: int| s <= t < e ==> #[trigger] covered(b, t),
    ensures
        spans(b, s, e),
{
    assert(covered(b, s));
    let i = choose|i: int| 0 <= i < b.len() && (#[trigger] b[i]).start_ms <= s < b[i].end_ms;
    if e > b[i].end_ms {
        let t = b[i].end_ms as int;
        assert(covered(b, t));
        let j = choose|j: int| 0 <= j < b.len() && (#[trigger] b[j]).start_ms <= t < b[j].end_ms;
        if j < i {
            assert(b[j].end_ms < b[i].start_ms);
        } else if j > i {
            assert(b[i].end_ms < b[j].start_ms);
        }
    }
}

/// Adding a piece to a bucket below the bound keeps every instant: afterwards one piece
/// spans the added one, and one piece spans each piece there was.
pub proof fn lemma_insert_spans(b0: Seq<TimelineCacheEntry>, b: Seq<TimelineCacheEntry>, entry: TimelineCacheEntry, ms: int)
    requires
        bucket_ok(b0),
        bucket_ok(b),
        entry.start_ms < entry.end_ms,
        b0.len() < MAX_ENTRIES_PER_KEY,
        inserted(b0, b, entry, ms),
    ensures
        spans(b, entry.start_ms as int, entry.end_ms as int),
        forall|j: int| 0 <= j < b0.len() ==> spans(b, (#[trigger] b0[j]).start_ms as int, b0[j].end_ms as int),
{
    if exists|i: int|
        0 <= i < b0.len() && (#[trigger] b0[i]).start_ms == entry.start_ms && b0[i].end_ms == entry.end_ms {
        let i = choose|i: int|
            0 <= i < b0.len() && (#[trigger] b0[i]).start_ms == entry.start_ms && b0[i].end_ms == entry.end_ms
                && b == b0.update(i, entry);
        assert(b[i] == entry);
        assert forall|j: int| 0 <= j < b0.len() implies spans(b, (#[trigger] b0[j]).start_ms as int, b0[j].end_ms as int) by {
            if j != i {
                assert(b[j] == b0[j]);
            } else {
                assert(b[i] == entry);
            }
        }
    } else {
        assert forall|t: int| entry.start_ms <= t < entry.end_ms implies #[trigger] covered(b, t) by {}
        lemma_covered_span(b, entry.start_ms as int, entry.end_ms as int);
        assert forall|j: int| 0 <= j < b0.len() implies spans(b, (#[trigger] b0[j]).start_ms as int, b0[j].end_ms as int) by {
            assert forall|t: int| b0[j].start_ms <= t < b0[j].end_ms implies #[trigger] covered(b, t) by {
                assert(covered(b0, t));
            }
            lemma_covered_span(b, b0[j].start_ms as int, b0[j].end_ms as int);
        }
    }
}

/// Pieces ordered by start, each non-empty, each ending before the next starts.
pub open spec fn pieces_apart(b: Seq<TimelineCacheEntry>) -> bool {
    &&& forall|i: int| 0 <= i < b.len() ==> (#[trigger] b[i]).start_ms < b[i].end_ms
    &&& forall|i: int, j: int| 0 <= i < j < b.len() ==> (#[trigger] b[i]).end_ms < (#[trigger] b[j]).start_ms
}

/// `b` is what putting `entry` among the pieces `b0` and merging gives, bounded: some
/// pieces apart from one another that cover exactly what `b0` and `entry` covered, of
/// which only the latest `MAX_ENTRIES_PER_KEY` are kept (all of them when there are no
/// more).
pub open spec fn kept_latest(b0: Seq<TimelineCacheEntry>, b: Seq<TimelineCacheEntry>, entry: TimelineCacheEntry) -> bool {
    exists|mm: Seq<TimelineCacheEntry>|
        #[trigger] pieces_apart(mm) && (forall|t: int|
            covered(mm, t) <==> (covered(b0, t) || entry.start_ms <= t < entry.end_ms)) && b == if mm.len()
            > MAX_ENTRIES_PER_KEY {
            mm.subrange(mm.len() - MAX_ENTRIES_PER_KEY, mm.len() as int)
        } else {
            mm
        }
}

/// Some piece covers the instant `t`.
pub open spec fn covered(b: Seq<TimelineCacheEntry>, t: int) -> bool {
    exists|i: int| 0 <= i < b.len() && (#[trigger] b[i]).start_ms <= t < b[i].end_ms
}

/// A piece as plain values: start, end, characters, labels.
pub type EntryView = (u64, u64, Seq<char>, Seq<Seq<char>>);

/// The view of a piece.
pub open spec fn entry_view(e: TimelineCacheEntry) -> EntryView {
    (e.start_ms, e.end_ms, e.timeline@, labels_view(e.section_labels@))
}

/// The views of pieces.
pub open spec fn entry_views(b: Seq<TimelineCacheEntry>) -> Seq<EntryView> {
    b.map_values(|e: TimelineCacheEntry| entry_view(e))
}

/// The piece that a merge of `left` and `right` gives at `ms` milliseconds per character
/// (at least one): it spans both, and each column shows `right` where `right` has one,
/// else `left`, else a blank.
pub open spec fn merged_timeline(ms: int, left: EntryView, right: EntryView) -> Seq<char> {
    let start = if left.0 < right.0 {
        left.0
    } else {
        right.0
    };
    let end = if left.1 > right.1 {
        left.1
    } else {
        right.1
    };
    let n = ((end - start) / ms) as usize;
    overlay_seq(
        overlay_seq(repeat_seq(' ', n as nat), (((left.0 - start) / ms) as usize) as int, left.2),
        (((right.0 - start) / ms) as usize) as int,
        right.2,
    )
}

/// The labels of the merged piece, made as its characters are, an empty label where
/// neither piece has one.
pub open spec fn merged_labels(ms: int, left: EntryView, right: EntryView) -> Seq<Seq<char>> {
    let start = if left.0 < right.0 {
        left.0
    } else {
        right.0
    };
    let end = if left.1 > right.1 {
        left.1
    } else {
        right.1
    };
    let n = ((end - start) / ms) as usize;
    overlay_seq(
        overlay_seq(repeat_seq(Seq::<char>::empty(), n as nat), (((left.0 - start) / ms) as usize) as int, left.3),
        (((right.0 - start) / ms) as usize) as int,
        right.3,
    )
}

/// The piece a merge of `left` and `right` gives; see `merged_timeline`.
pub open spec fn merged_view(ms: int, left: EntryView, right: EntryView) -> EntryView {
    (
        if left.0 < right.0 {
            left.0
        } else {
            right.0
        },
        if left.1 > right.1 {
            left.1
        } else {
            right.1
        },
        merged_timeline(ms, left, right),
        merged_labels(ms, left, right),
    )
}

/// Pieces ordered by start after merging each into the one before it when they touch or
/// overlap, from the first on: the later piece of a merge shows over the earlier.
pub open spec fn merged_run(vs: Seq<EntryView>, ms: int) -> Seq<EntryView>
    decreases vs.len(),
{
    if vs.len() <= 1 {
        vs
    } else {
        let init = merged_run(vs.drop_last(), ms);
        let last = init.last();
        let next = vs.last();
        if last.1 >= next.0 {
            init.drop_last().push(merged_view(ms, last, next))
        } else {
            init.push(next)
        }
    }
}

/// The latest `MAX_ENTRIES_PER_KEY` of the pieces `mm`, all of them when there are no more.
pub open spec fn kept_pieces<A>(mm: Seq<A>) -> Seq<A> {
    if mm.len() > MAX_ENTRIES_PER_KEY {
        mm.subrange(mm.len() - MAX_ENTRIES_PER_KEY, mm.len() as int)
    } else {
        mm
    }
}

/// What putting `entry` among the pieces `b0` gives, merged at `ms` per character: it
/// goes after every piece that starts no later than it and before every one that starts
/// later; then pieces are merged as `merged_run` says, and the latest are kept.
pub open spec fn merge_inserted(b0: Seq<TimelineCacheEntry>, b: Seq<TimelineCacheEntry>, entry: TimelineCacheEntry, ms: int) -> bool {
    exists|p: int|
        0 <= p <= b0.len() && (forall|j: int| 0 <= j < p ==> (#[trigger] b0[j]).start_ms <= entry.start_ms) && (forall|j: int|
            p <= j < b0.len() ==> (#[trigger] b0[j]).start_ms > entry.start_ms) && #[trigger] entry_views(b) == kept_pieces(
            merged_run(entry_views(b0).insert(p, entry_view(entry)), ms),
        )
}

/// Merging pieces ordered by start, each non-empty, gives non-empty pieces each ending
/// before the next starts, the last starting no later than the last piece merged.
proof fn lemma_merged_run_shape(vs: Seq<EntryView>, ms: int)
    requires
        forall|j: int| 0 <= j < vs.len() ==> (#[trigger] vs[j]).0 < vs[j].1,
        forall|a: int, b: int| 0 <= a < b < vs.len() ==> (#[trigger] vs[a]).0 <= (#[trigger] vs[b]).0,
    ensures
        merged_run(vs, ms).len() <= vs.len(),
        vs.len() > 0 ==> merged_run(vs, ms).len() >= 1 && merged_run(vs, ms).last().0 <= vs.last().0,
        forall|j: int| 0 <= j < merged_run(vs, ms).len() ==> (#[trigger] merged_run(vs, ms)[j]).0 < merged_run(vs, ms)[j].1,
        forall|a: int| 0 <= a < merged_run(vs, ms).len() - 1 ==> (#[trigger] merged_run(vs, ms)[a]).1 < merged_run(vs, ms)[a + 1].0,
    decreases vs.len(),
{
    if vs.len() > 1 {
        let init = vs.drop_last();
        lemma_merged_run_shape(init, ms);
        let mi = merged_run(init, ms);
        assert(mi.last().0 <= init.last().0);
        assert(init.last() == vs[vs.len() - 2]);
        let r = merged_run(vs, ms);
        if mi.last().1 >= vs.last().0 {
            assert(r == mi.drop_last().push(merged_view(ms, mi.last(), vs.last())));
            assert forall|a: int| 0 <= a < r.len() - 1 implies (#[trigger] r[a]).1 < r[a + 1].0 by {
                assert(r[a] == mi[a]);
                if a + 1 < r.len() - 1 {
                    assert(r[a + 1] == mi[a + 1]);
                }
            }
            assert forall|j: int| 0 <= j < r.len() implies (#[trigger] r[j]).0 < r[j].1 by {
                if j < r.len() - 1 {
                    assert(r[j] == mi[j]);
                }
            }
        } else {
            assert(r == mi.push(vs.last()));
            assert forall|a: int| 0 <= a < r.len() - 1 implies (#[trigger] r[a]).1 < r[a + 1].0 by {
                assert(r[a] == mi[a]);
                if a + 1 < r.len() - 1 {
                    assert(r[a + 1] == mi[a + 1]);
                }
            }
            assert forall|j: int| 0 <= j < r.len() implies (#[trigger] r[j]).0 < r[j].1 by {
                if j < r.len() - 1 {
                    assert(r[j] == mi[j]);
                }
            }
        }
    }
}

/// Pieces ordered by start, each non-empty.
pub open spec fn views_sorted(vs: Seq<EntryView>) -> bool {
    &&& forall|j: int| 0 <= j < vs.len() ==> (#[trigger] vs[j]).0 < vs[j].1
    &&& forall|a: int, b: int| 0 <= a < b < vs.len() ==> (#[trigger] vs[a]).0 <= (#[trigger] vs[b]).0
}

/// Where the merge pass over `v1` stands: the first `k` pieces merged, the rest as they
/// were, and `i` at the last merged piece or the one before it.
pub open spec fn merge_state(views: Seq<EntryView>, v1: Seq<EntryView>, k: int, i: int, ms: int) -> bool {
    &&& 1 <= k <= v1.len()
    &&& views == merged_run(v1.take(k), ms) + v1.skip(k)
    &&& (i + 1 == merged_run(v1.take(k), ms).len() || i + 2 == merged_run(v1.take(k), ms).len())
}

/// What the merge pass compares at `i`: two merged pieces, which are apart, or the last
/// merged piece and the next piece to merge.
proof fn lemma_merge_read(views: Seq<EntryView>, v1: Seq<EntryView>, k: int, i: int, ms: int)
    requires
        views_sorted(v1),
        merge_state(views, v1, k, i, ms),
        0 <= i,
        i + 1 < views.len(),
    ensures
        i + 2 == merged_run(v1.take(k), ms).len() ==> views[i].1 < views[i + 1].0,
        i + 1 == merged_run(v1.take(k), ms).len() ==> k < v1.len() && views[i] == merged_run(v1.take(k), ms).last()
            && views[i + 1] == v1[k],
{
    let tk = v1.take(k);
    assert(views_sorted(tk));
    lemma_merged_run_shape(tk, ms);
    let mr = merged_run(tk, ms);
    if i + 2 == mr.len() {
        assert(views[i] == mr[i]);
        assert(views[i + 1] == mr[i + 1]);
    } else {
        assert(views[i] == mr[i]);
        assert(views[i + 1] == v1.skip(k)[0]);
    }
}

/// One step of the merge pass: merging the last merged piece with the next, or taking
/// the next as it is when they are apart.
proof fn lemma_merge_advance(views: Seq<EntryView>, nviews: Seq<EntryView>, v1: Seq<EntryView>, k: int, i: int, ms: int)
    requires
        views_sorted(v1),
        merge_state(views, v1, k, i, ms),
        i + 1 == merged_run(v1.take(k), ms).len(),
        i + 1 < views.len(),
        views[i].1 >= views[i + 1].0 ==> {
            &&& nviews.len() == views.len() - 1
            &&& forall|j: int| 0 <= j < i ==> nviews[j] == views[j]
            &&& forall|j: int| i < j < nviews.len() ==> nviews[j] == views[j + 1]
            &&& nviews[i] == merged_view(ms, views[i], views[i + 1])
        },
        views[i].1 < views[i + 1].0 ==> nviews == views,
    ensures
        merge_state(nviews, v1, k + 1, if views[i].1 >= views[i + 1].0 { i - 1 } else { i + 1 }, ms),
        merge_state(nviews, v1, k + 1, i, ms) || views[i].1 < views[i + 1].0,
{
    lemma_merge_read(views, v1, k, i, ms);
    let tk = v1.take(k);
    let mr = merged_run(tk, ms);
    let tk1 = v1.take(k + 1);
    assert(tk1.drop_last() =~= tk);
    assert(tk1.last() == v1[k]);
    let mr1 = merged_run(tk1, ms);
    if views[i].1 >= views[i + 1].0 {
        assert(mr1 == mr.drop_last().push(merged_view(ms, mr.last(), v1[k])));
        assert(nviews =~= mr1 + v1.skip(k + 1)) by {
            assert forall|j: int| 0 <= j < nviews.len() implies #[trigger] nviews[j] == (mr1 + v1.skip(k + 1))[j] by {
                if j < i {
                    assert(views[j] == mr[j]);
                } else if j > i {
                    assert(views[j + 1] == v1.skip(k)[j + 1 - mr.len()]);
                }
            }
        }
    } else {
        assert(mr1 == mr.push(v1[k]));
        assert(nviews =~= mr1 + v1.skip(k + 1));
    }
}

/// The scale a key's pieces are merged at: a scale of zero counts as one.
pub open spec fn merge_scale(key: TimelineCacheKey) -> int {
    if key.ms_per_character == 0 {
        1
    } else {
        key.ms_per_character as int
    }
}

impl TimelineCacheKey {
    /// Whether `self` and `other` are the same key.
    pub fn same_as(&self, other: &TimelineCacheKey) -> (r: bool)
        ensures
            r == (key_view(*self) == key_view(*other)),
    {
        if self.ms_per_character != other.ms_per_character || self.mode != other.mode {
            return false;
        }
        match (&self.label, &other.label) {
            (Some(a), Some(b)) => str_equal(a.as_str(), b.as_str()),
            (None, None) => true,
            _ => false,
        }
    }
}

/// Merges two pieces of one key into one spanning both; see `merged_timeline` and
/// `merged_labels`. A scale of zero is taken as one millisecond per character.
pub fn merge_entries(
    key: &TimelineCacheKey,
    left: TimelineCacheEntry,
    right: TimelineCacheEntry,
) -> (r: TimelineCacheEntry)
    requires
        left.start_ms <= left.end_ms || right.start_ms <= right.end_ms,
    ensures
        r.start_ms == if left.start_ms < right.start_ms {
            left.start_ms
        } else {
            right.start_ms
        },
        r.end_ms == if left.end_ms > right.end_ms {
            left.end_ms
        } else {
            right.end_ms
        },
        ({
            let ms = if key.ms_per_character == 0 {
                1
            } else {
                key.ms_per_character as int
            };
            &&& r.timeline@ == merged_timeline(ms, entry_view(left), entry_view(right))
            &&& labels_view(r.section_labels@) == merged_labels(ms, entry_view(left), entry_view(right))
        }),
{
    let ms: u64 = if key.ms_per_character == 0 {
        1
    } else {
        key.ms_per_character
    };
    let start_ms = if left.start_ms < right.start_ms {
        left.start_ms
    } else {
        right.start_ms
    };
    let end_ms = if left.end_ms > right.end_ms {
        left.end_ms
    } else {
        right.end_ms
    };
    let total_cols = ((end_ms - start_ms) / ms) as usize;
    let mut timeline: Vec<char> = Vec::new();
    let mut labels: Vec<String> = Vec::new();
    let mut k: usize = 0;
    while k < total_cols
        invariant
            k <= total_cols,
            timeline@ == repeat_seq(' ', k as nat),
            labels@.len() == k,
            labels_view(labels@) == repeat_seq(Seq::<char>::empty(), k as nat),
        decreases total_cols - k,
    {
        timeline.push(' ');
        let ghost prev = labels@;
        let blank = String::new();
        labels.push(blank);
        proof {
            assert forall|j: int| 0 <= j < k + 1 implies #[trigger] labels_view(labels@)[j] == Seq::<
                char,
            >::empty() by {
                if j < k {
                    assert(labels@[j] == prev[j]);
                    assert(labels_view(prev)[j] == prev[j]@);
                }
            }
            assert(labels_view(labels@) =~= repeat_seq(Seq::<char>::empty(), (k + 1) as nat));
        }
        k = k + 1;
    }
    proof {
        assert(timeline@ =~= repeat_seq(' ', total_cols as nat));
    }
    let ghost base_t = timeline@;
    let ghost base_l = labels_view(labels@);
    let left_off = ((left.start_ms - start_ms) / ms) as usize;
    let right_off = ((right.start_ms - start_ms) / ms) as usize;
    let left_chars = chars_of(left.timeline.as_str());
    overlay_chars(&mut timeline, left_off, &left_chars);
    overlay_labels(&mut labels, left_off, &left.section_labels);
    let right_chars = chars_of(right.timeline.as_str());
    overlay_chars(&mut timeline, right_off, &right_chars);
    overlay_labels(&mut labels, right_off, &right.section_labels);
    let r = TimelineCacheEntry {
        start_ms,
        end_ms,
        timeline: string_of(&timeline),
        section_labels: labels,
    };
    proof {
        let msi = ms as int;
        assert(r.timeline@ =~= merged_timeline(msi, entry_view(left), entry_view(right)));
        assert(labels_view(r.section_labels@) =~= merged_labels(msi, entry_view(left), entry_view(right)));
    }
    r
}

/// Writes `over` onto `base` from position `off` on, dropping what falls past its end.
fn overlay_chars(base: &mut Vec<char>, off: usize, over: &Vec<char>)
    ensures
        final(base)@ == overlay_seq(old(base)@, off as int, over@),
{
    let ghost b0 = base@;
    let mut i: usize = 0;
    while i < over.len()
        invariant
            i <= over.len(),
            base@.len() == b0.len(),
            forall|j: int|
                0 <= j < b0.len() ==> #[trigger] base@[j] == if off <= j < off + i {
                    over@[j - off]
                } else {
                    b0[j]
                },
        decreases over.len() - i,
    {
        if off < base.len() && i < base.len() - off {
            base.set(off + i, over[i]);
        }
        i = i + 1;
    }
    proof {
        assert(base@ =~= overlay_seq(b0, off as int, over@));
    }
}

/// Writes copies of the labels `over` onto `base` from position `off` on, dropping what
/// falls past its end.
fn overlay_labels(base: &mut Vec<String>, off: usize, over: &Vec<String>)
    ensures
        labels_view(final(base)@) == overlay_seq(labels_view(old(base)@), off as int, labels_view(over@)),
{
    let ghost b0 = labels_view(base@);
    let mut i: usize = 0;
    while i < over.len()
        invariant
            i <= over.len(),
            base@.len() == b0.len(),
            forall|j: int|
                0 <= j < b0.len() ==> #[trigger] base@[j]@ == if off <= j < off + i {
                    over@[j - off]@
                } else {
                    b0[j]
                },
        decreases over.len() - i,
    {
        if off < base.len() && i < base.len() - off {
            base.set(off + i, over[i].clone());
        }
        i = i + 1;
    }
    proof {
        assert(labels_view(base@) =~= overlay_seq(b0, off as int, labels_view(over@)));
    }
}

impl TimelineCache {
    /// Every key has one bucket, and every bucket is ordered, apart, bounded and holds at
    /// least one piece.
    pub open spec fn wf(&self) -> bool {
        &&& bucket_keys(self.entries@).no_duplicates()
        &&& forall|i: int| 0 <= i < self.entries.len() ==> bucket_ok(#[trigger] self.entries@[i].1@)
        &&& forall|i: int| 0 <= i < self.entries.len() ==> (#[trigger] self.entries@[i].1@).len() > 0
    }

    /// The pieces of `key`, if it has any bucket.
    pub open spec fn bucket(&self, key: TimelineCacheKey) -> Option<Seq<TimelineCacheEntry>> {
        bucket_of(self.entries@, key)
    }

    /// An empty cache.
    pub fn new() -> (r: TimelineCache)
        ensures
            r.wf(),
            r.entries@.len() == 0,
    {
        TimelineCache { entries: Vec::new() }
    }

    /// Forgets every piece.
    pub fn clear(&mut self)
        ensures
            final(self).wf(),
            final(self).entries@.len() == 0,
    {
        self.entries = Vec::new();
    }

    fn find_bucket(&self, key: &TimelineCacheKey) -> (r: Option<usize>)
        ensures
            match r {
                Some(i) => bucket_position(self.entries@, *key) == Some(i as int) && i
                    < self.entries.len(),
                None => bucket_position(self.entries@, *key) is None,
            },
    {
        let ghost keys = bucket_keys(self.entries@);
        let mut i: usize = 0;
        while i < self.entries.len()
            invariant
                i <= self.entries.len(),
                keys == bucket_keys(self.entries@),
                forall|q: int| 0 <= q < i ==> keys[q] != key_view(*key),
            decreases self.entries.len() - i,
        {
            if self.entries[i].0.same_as(key) {
                proof {
                    assert(keys[i as int] == key_view(*key));
                    keys.index_of_first_ensures(key_view(*key));
                }
                return Some(i);
            }
            i = i + 1;
        }
        proof {
            keys.index_of_first_ensures(key_view(*key));
        }
        None
    }

    /// The pieces cached under `key`.
    pub fn entries_for_key(&self, key: &TimelineCacheKey) -> (r: Option<&Vec<TimelineCacheEntry>>)
        ensures
            match self.bucket(*key) {
                Some(b) => r matches Some(v) && v@ == b,
                None => r is None,
            },
    {
        match self.find_bucket(key) {
            Some(i) => Some(&self.entries[i].1),
            None => None,
        }
    }

    /// The last piece cached under `key` that spans exactly `[start_ms, end_ms)`.
    pub fn exact_entry(&self, key: &TimelineCacheKey, start_ms: u64, end_ms: u64) -> (r: Option<
        &TimelineCacheEntry,
    >)
        ensures
            exact_lookup(
                self.bucket(*key),
                match r {
                    Some(e) => Some(*e),
                    None => None,
                },
                start_ms,
                end_ms,
            ),
    {
        let bi = match self.find_bucket(key) {
            Some(i) => i,
            None => return None,
        };
        let bucket = &self.entries[bi].1;
        let mut i: usize = bucket.len();
        while i > 0
            invariant
                i <= bucket.len(),
                bi < self.entries.len(),
                bucket@ == self.entries@[bi as int].1@,
                self.bucket(*key) == Some(bucket@),
                forall|j: int|
                    i <= j < bucket.len() ==> !(#[trigger] bucket@[j].start_ms == start_ms
                        && bucket@[j].end_ms == end_ms),
            decreases i,
        {
            i = i - 1;
            if bucket[i].start_ms == start_ms && bucket[i].end_ms == end_ms {
                proof {
                    let b = match self.bucket(*key) {
                        Some(b) => b,
                        None => bucket@,
                    };
                    assert(b == bucket@);
                    assert(last_exact(b, i as int, start_ms, end_ms));
                    assert(b[i as int] == bucket@[i as int]);
                    assert(exact_lookup(self.bucket(*key), Some(bucket@[i as int]), start_ms, end_ms));
                }
                return Some(&bucket[i]);
            }
        }
        None
    }

    /// Adds `entry` under `key`. An empty span changes nothing; a piece of the same span
    /// is replaced; otherwise the piece is put in order and merged with every piece it
    /// touches or overlaps, and the earliest pieces are dropped past the bound.
    pub fn insert(&mut self, key: TimelineCacheKey, entry: TimelineCacheEntry)
        requires
            old(self).wf(),
        ensures
            final(self).wf(),
            entry.end_ms <= entry.start_ms ==> final(self).entries@ == old(self).entries@,
            forall|k: TimelineCacheKey|
                key_view(k) != key_view(key) ==> #[trigger] final(self).bucket(k) == old(self).bucket(k),
            entry.end_ms > entry.start_ms ==> (final(self).bucket(key) matches Some(b) && inserted(
                match old(self).bucket(key) {
                    Some(b0) => b0,
                    None => Seq::empty(),
                },
                b,
                entry,
                merge_scale(key),
            )),
            entry.end_ms > entry.start_ms && (match old(self).bucket(key) {
                Some(b0) => b0.len() < MAX_ENTRIES_PER_KEY,
                None => true,
            }) ==> (final(self).bucket(key) is Some && spans(
                final(self).bucket(key)->0,
                entry.start_ms as int,
                entry.end_ms as int,
            ) && forall|j: int|
                0 <= j < pieces_or_none(old(self).bucket(key)).len() ==> spans(
                    final(self).bucket(key)->0,
                    (#[trigger] pieces_or_none(old(self).bucket(key))[j]).start_ms as int,
                    pieces_or_none(old(self).bucket(key))[j].end_ms as int,
                )),
            insert_step(*old(self), *final(self), key, entry),
    {
        if entry.end_ms <= entry.start_ms {
            return;
        }
        let ghost old_entries = self.entries@;
        let idx = match self.find_bucket(&key) {
            Some(i) => i,
            None => {
                let ghost keys0 = bucket_keys(self.entries@);
                let pair = (key.clone_key(), Vec::new());
                self.entries.push(pair);
                proof {
                    assert(bucket_keys(self.entries@) =~= keys0.push(key_view(key)));
                    keys0.index_of_first_ensures(key_view(key));
                    lemma_push_new_first(keys0, key_view(key));
                    assert forall|kk: TimelineCacheKey| key_view(kk) != key_view(key) implies #[trigger] bucket_of(
                        self.entries@,
                        kk,
                    ) == bucket_of(old_entries, kk) by {
                        lemma_index_of_first_push(keys0, key_view(key), key_view(kk));
                        keys0.index_of_first_ensures(key_view(kk));
                    }
                    assert(bucket_of(self.entries@, key) == Some(Seq::<TimelineCacheEntry>::empty()));
                    bucket_keys(old_entries).index_of_first_ensures(key_view(key));
                }
                self.entries.len() - 1
            },
        };
        let ghost mid_entries = self.entries@;
        proof {
            bucket_keys(mid_entries).index_of_first_ensures(key_view(key));
            assert(bucket_position(mid_entries, key) == Some(idx as int));
            assert(bucket_keys(mid_entries)[idx as int] == key_view(key));
            assert(key_view(mid_entries[idx as int].0) == key_view(key));
            assert(forall|kk: TimelineCacheKey|
                key_view(kk) != key_view(key) ==> #[trigger] bucket_of(mid_entries, kk) == bucket_of(
                    old_entries,
                    kk,
                ));
            assert(mid_entries[idx as int].1@ == match bucket_of(old_entries, key) {
                Some(b0) => b0,
                None => Seq::empty(),
            });
        }
        let (k, mut bucket) = self.entries.remove(idx);
        let ghost b0 = bucket@;
        assert(bucket_ok(b0)) by {
            assert(bucket_ok(mid_entries[idx as int].1@));
        }
        let mut pos: usize = 0;
        while pos < bucket.len() && !(bucket[pos].start_ms == entry.start_ms && bucket[pos].end_ms
            == entry.end_ms)
            invariant
                pos <= bucket.len(),
                bucket@ == b0,
                forall|j: int|
                    0 <= j < pos ==> !(#[trigger] b0[j].start_ms == entry.start_ms && b0[j].end_ms
                        == entry.end_ms),
            decreases bucket.len() - pos,
        {
            pos = pos + 1;
        }
        let ghost replaced = pos < bucket.len();
        if pos < bucket.len() {
            bucket.set(pos, entry);
            proof {
                assert(bucket@ == b0.update(pos as int, entry));
                assert forall|i: int| 0 <= i < bucket@.len() implies (#[trigger] bucket@[i]).start_ms
                    < bucket@[i].end_ms by {
                    if i != pos {
                        assert(bucket@[i] == b0[i]);
                    }
                }
                assert forall|a: int, b: int| 0 <= a < b < bucket@.len() implies (
                #[trigger] bucket@[a]).end_ms < (#[trigger] bucket@[b]).start_ms by {
                    assert(b0[a].end_ms < b0[b].start_ms);
                }
                assert(bucket_ok(bucket@));
            }
        } else {
            Self::insert_and_merge(&mut bucket, &key, entry);
        }
        let ghost pair = (k, bucket);
        self.entries.insert(idx, (k, bucket));
        proof {
            assert(self.entries@ =~= mid_entries.update(idx as int, pair));
            assert(bucket_keys(self.entries@) =~= bucket_keys(mid_entries));
            assert forall|i: int| 0 <= i < self.entries.len() implies bucket_ok(
                #[trigger] self.entries@[i].1@,
            ) by {
                if i != idx {
                    assert(self.entries@[i] == mid_entries[i]);
                }
            }
            assert forall|kk: TimelineCacheKey| key_view(kk) != key_view(key) implies #[trigger] self.bucket(kk)
                == old(self).bucket(kk) by {
                assert(bucket_of(mid_entries, kk) == bucket_of(old_entries, kk));
                bucket_keys(mid_entries).index_of_first_ensures(key_view(kk));
                match bucket_position(mid_entries, kk) {
                    Some(p) => {
                        assert(bucket_keys(mid_entries)[p] == key_view(kk));
                        assert(p != idx);
                        assert(self.entries@[p] == mid_entries[p]);
                    },
                    None => {},
                }
            }
            assert(self.bucket(key) == Some(bucket@));
            let b0o = match old(self).bucket(key) {
                Some(x) => x,
                None => Seq::<TimelineCacheEntry>::empty(),
            };
            assert(b0o == b0);
            if replaced {
                assert(0 <= pos < b0.len() && b0[pos as int].start_ms == entry.start_ms
                    && b0[pos as int].end_ms == entry.end_ms && bucket@ == b0.update(pos as int, entry));
            } else {
                assert(!exists|i: int|
                    0 <= i < b0.len() && (#[trigger] b0[i]).start_ms == entry.start_ms
                        && b0[i].end_ms == entry.end_ms);
            }
            assert(inserted(b0o, bucket@, entry, merge_scale(key)));
            assert(pieces_or_none(old(self).bucket(key)) == b0o);
            if b0o.len() < MAX_ENTRIES_PER_KEY {
                assert(bucket_ok(b0o)) by {
                    match old(self).bucket(key) {
                        Some(x) => {
                            bucket_keys(old(self).entries@).index_of_first_ensures(key_view(key));
                        },
                        None => {},
                    }
                }
                lemma_insert_spans(b0o, bucket@, entry, merge_scale(key));
            }
        }
    }

    /// Puts `entry` among the pieces of `bucket` in start order, after those starting at
    /// the same time, then merges from the left every piece with the next one when it
    /// reaches it, and drops the earliest pieces past the bound.
    #[verifier::spinoff_prover]
    #[verifier::rlimit(100)]
    fn insert_and_merge(bucket: &mut Vec<TimelineCacheEntry>, key: &TimelineCacheKey, entry: TimelineCacheEntry)
        requires
            bucket_ok(old(bucket)@),
            entry.start_ms < entry.end_ms,
        ensures
            bucket_ok(final(bucket)@),
            forall|t: int|
                #[trigger] covered(final(bucket)@, t) ==> covered(old(bucket)@, t) || entry.start_ms <= t
                    < entry.end_ms,
            final(bucket)@.len() < MAX_ENTRIES_PER_KEY ==> forall|t: int|
                covered(old(bucket)@, t) || entry.start_ms <= t < entry.end_ms ==> #[trigger] covered(
                    final(bucket)@,
                    t,
                ),
            kept_latest(old(bucket)@, final(bucket)@, entry),
            final(bucket)@.len() > 0,
            merge_inserted(old(bucket)@, final(bucket)@, entry, merge_scale(*key)),
            old(bucket)@.len() < MAX_ENTRIES_PER_KEY ==> forall|t: int|
                covered(old(bucket)@, t) || entry.start_ms <= t < entry.end_ms ==> #[trigger] covered(final(bucket)@, t),
    {
        let ghost b0 = bucket@;
        let mut p: usize = 0;
        while p < bucket.len() && bucket[p].start_ms <= entry.start_ms
            invariant
                p <= bucket.len(),
                bucket@ == b0,
                forall|j: int| 0 <= j < p ==> (#[trigger] b0[j]).start_ms <= entry.start_ms,
            decreases bucket.len() - p,
        {
            p = p + 1;
        }
        bucket.insert(p, entry);
        let ghost b1 = bucket@;
        proof {
            assert forall|t: int| covered(b1, t) <==> (covered(b0, t) || entry.start_ms <= t < entry.end_ms) by {
                if covered(b0, t) {
                    let i = choose|i: int| 0 <= i < b0.len() && (#[trigger] b0[i]).start_ms <= t < b0[i].end_ms;
                    if i < p {
                        assert(b1[i] == b0[i]);
                    } else {
                        assert(b1[i + 1] == b0[i]);
                    }
                }
                if entry.start_ms <= t < entry.end_ms {
                    assert(b1[p as int] == entry);
                }
                if covered(b1, t) {
                    let i = choose|i: int| 0 <= i < b1.len() && (#[trigger] b1[i]).start_ms <= t < b1[i].end_ms;
                    if i < p {
                        assert(b1[i] == b0[i]);
                    } else if i > p {
                        assert(b1[i] == b0[i - 1]);
                    }
                }
            }
            assert forall|a: int, b: int| 0 <= a < b < b1.len() implies (#[trigger] b1[a]).start_ms
                <= (#[trigger] b1[b]).start_ms by {
                if a < p && b < p {
                    assert(b1[a] == b0[a] && b1[b] == b0[b]);
                } else if a < p && b == p {
                    assert(b1[a] == b0[a]);
                } else if a < p {
                    assert(b1[a] == b0[a] && b1[b] == b0[b - 1]);
                } else if a == p {
                    assert(b1[b] == b0[b - 1]);
                    if p < b0.len() {
                        assert(b0[p as int].start_ms > entry.start_ms);
                        assert(b0[p as int].start_ms <= b0[b - 1].start_ms);
                    }
                } else {
                    assert(b1[a] == b0[a - 1] && b1[b] == b0[b - 1]);
                }
            }
            assert forall|i: int| 0 <= i < b1.len() implies (#[trigger] b1[i]).start_ms < b1[i].end_ms by {
                if i < p {
                    assert(b1[i] == b0[i]);
                } else if i > p {
                    assert(b1[i] == b0[i - 1]);
                }
            }
        }
        let ghost ms = merge_scale(*key);
        let ghost v1 = entry_views(b1);
        proof {
            assert forall|j: int| p <= j < b0.len() implies (#[trigger] b0[j]).start_ms > entry.start_ms by {
                if j > p {
                    assert(b0[p as int].end_ms < b0[j].start_ms);
                }
            }
            assert(v1 =~= entry_views(b0).insert(p as int, entry_view(entry)));
            assert(merged_run(v1.take(1), ms) == v1.take(1));
            assert(entry_views(bucket@) =~= merged_run(v1.take(1), ms) + v1.skip(1));
        }
        let ghost mut k: int = 1;
        let mut i: usize = 0;
        while i + 1 < bucket.len()
            invariant
                1 <= k <= v1.len(),
                v1 == entry_views(b1),
                ms == merge_scale(*key),
                b1.len() == v1.len(),
                forall|j: int| 0 <= j < b1.len() ==> (#[trigger] b1[j]).start_ms < b1[j].end_ms,
                forall|a: int, b: int| 0 <= a < b < b1.len() ==> (#[trigger] b1[a]).start_ms <= (#[trigger] b1[b]).start_ms,
                views_sorted(v1),
                merge_state(entry_views(bucket@), v1, k, i as int, ms),
                bucket@.len() >= 1,
                i < bucket@.len(),
                bucket@.len() <= b0.len() + 1,
                bucket_ok(b0),
                entry.start_ms < entry.end_ms,
                forall|j: int| 0 <= j < bucket@.len() ==> (#[trigger] bucket@[j]).start_ms < bucket@[j].end_ms,
                forall|a: int, b: int|
                    0 <= a < b < bucket@.len() ==> (#[trigger] bucket@[a]).start_ms <= (
                    #[trigger] bucket@[b]).start_ms,
                forall|a: int| 0 <= a < i ==> (#[trigger] bucket@[a]).end_ms < bucket@[a + 1].start_ms,
                forall|t: int| #[trigger] covered(bucket@, t) <==> (covered(b0, t) || entry.start_ms <= t < entry.end_ms),
            decreases 2 * bucket@.len() - i,
        {
            let ghost views = entry_views(bucket@);
            let ghost i0 = i as int;
            proof {
                assert(merge_state(views, v1, k, i0, ms));
                lemma_merge_read(views, v1, k, i0, ms);
                assert(views[i0] == entry_view(bucket@[i0]));
                assert(views[i0 + 1] == entry_view(bucket@[i0 + 1]));
            }
            if bucket[i].end_ms >= bucket[i + 1].start_ms {
                let ghost bb = bucket@;
                let right = bucket.remove(i + 1);
                let left = bucket.remove(i);
                let merged = merge_entries(key, left, right);
                bucket.insert(i, merged);
                proof {
                    let nb = bucket@;
                    assert(left == bb[i0] && right == bb[i0 + 1]);
                    assert(entry_view(merged) == merged_view(ms, views[i0], views[i0 + 1]));
                    let nviews = entry_views(nb);
                    assert forall|j: int| 0 <= j < i0 implies nviews[j] == views[j] by {
                        assert(nb[j] == bb[j]);
                    }
                    assert forall|j: int| i0 < j < nviews.len() implies nviews[j] == views[j + 1] by {
                        assert(nb[j] == bb[j + 1]);
                    }
                    assert(nviews[i0] == entry_view(merged));
                    lemma_merge_advance(views, nviews, v1, k, i0, ms);
                    k = k + 1;
                    assert(nb.len() == bb.len() - 1);
                    assert(forall|j: int| 0 <= j < i ==> nb[j] == bb[j]);
                    assert(forall|j: int| i < j < nb.len() ==> nb[j] == bb[j + 1]);
                    lemma_merge_step(bb, nb, i as int);
                    assert forall|t: int| covered(nb, t) <==> (covered(b0, t) || entry.start_ms <= t
                        < entry.end_ms) by {
                        assert(covered(nb, t) <==> covered(bb, t));
                        assert(covered(bb, t) <==> (covered(b0, t) || entry.start_ms <= t
                            < entry.end_ms));
                    }
                }
                if i > 0 {
                    i = i - 1;
                }
            } else {
                proof {
                    if i0 + 1 == merged_run(v1.take(k), ms).len() {
                        lemma_merge_advance(views, views, v1, k, i0, ms);
                        k = k + 1;
                    }
                }
                i = i + 1;
            }
        }
        proof {
            let mr = merged_run(v1.take(k), ms);
            assert(entry_views(bucket@).len() == bucket@.len());
            assert(k == v1.len());
            assert(v1.take(k) =~= v1);
            assert(entry_views(bucket@) =~= merged_run(v1, ms));
        }
        proof {
            let fb = bucket@;
            assert forall|a: int, b: int| 0 <= a < b < fb.len() implies (#[trigger] fb[a]).end_ms < (
            #[trigger] fb[b]).start_ms by {
                assert(fb[a].end_ms < fb[a + 1].start_ms);
                assert(fb[a + 1].start_ms <= fb[b].start_ms);
            }
            assert(pieces_apart(fb));
        }
        let ghost mm = bucket@;
        proof {
            assert(mm.subrange(mm.len() - mm.len(), mm.len() as int) =~= mm);
        }
        while bucket.len() > MAX_ENTRIES_PER_KEY
            invariant
                pieces_apart(mm),
                forall|t: int| covered(mm, t) <==> (covered(b0, t) || entry.start_ms <= t < entry.end_ms),
                bucket@.len() <= mm.len(),
                mm.len() > MAX_ENTRIES_PER_KEY ==> bucket@.len() >= MAX_ENTRIES_PER_KEY,
                mm.len() <= MAX_ENTRIES_PER_KEY ==> bucket@ == mm,
                bucket@ == mm.subrange(mm.len() - bucket@.len(), mm.len() as int),
                bucket@.len() >= 1,
                forall|j: int| 0 <= j < bucket@.len() ==> (#[trigger] bucket@[j]).start_ms < bucket@[j].end_ms,
                forall|a: int, b: int|
                    0 <= a < b < bucket@.len() ==> (#[trigger] bucket@[a]).end_ms < (#[trigger] bucket@[b]).start_ms,
                forall|t: int| #[trigger] covered(bucket@, t) ==> (covered(b0, t) || entry.start_ms <= t < entry.end_ms),
                bucket@.len() < MAX_ENTRIES_PER_KEY ==> forall|t: int|
                    (covered(b0, t) || entry.start_ms <= t < entry.end_ms) ==> #[trigger] covered(bucket@, t),
            decreases bucket@.len(),
        {
            let ghost bb = bucket@;
            bucket.remove(0);
            proof {
                assert forall|t: int| #[trigger] covered(bucket@, t) implies covered(bb, t) by {
                    let q = choose|q: int| 0 <= q < bucket@.len() && (#[trigger] bucket@[q]).start_ms <= t < bucket@[q].end_ms;
                    assert(bb[q + 1] == bucket@[q]);
                }
                assert forall|a: int, b: int|
                    0 <= a < b < bucket@.len() implies (#[trigger] bucket@[a]).end_ms < (#[trigger] bucket@[b]).start_ms by {
                    assert(bucket@[a] == bb[a + 1] && bucket@[b] == bb[b + 1]);
                }
                assert(bucket@ =~= mm.subrange(mm.len() - bucket@.len(), mm.len() as int));
            }
        }
        proof {
            if mm.len() > MAX_ENTRIES_PER_KEY {
                assert(bucket@.len() == MAX_ENTRIES_PER_KEY);
            }
            assert(kept_latest(b0, bucket@, entry));
            let kp = kept_pieces(merged_run(v1, ms));
            assert(entry_views(bucket@) =~= kp) by {
                if mm.len() > MAX_ENTRIES_PER_KEY {
                    assert forall|j: int| 0 <= j < bucket@.len() implies #[trigger] entry_views(bucket@)[j] == kp[j] by {
                        assert(bucket@[j] == mm[mm.len() - MAX_ENTRIES_PER_KEY + j]);
                        assert(entry_views(mm)[mm.len() - MAX_ENTRIES_PER_KEY + j] == entry_view(mm[mm.len() - MAX_ENTRIES_PER_KEY + j]));
                    }
                }
            }
            assert(merge_inserted(b0, bucket@, entry, ms));
        }
    }
}

/// Merging the touching pieces `i` and `i + 1` of `bb` into one that spans both keeps the
/// pieces non-empty and in start order, keeps apart those before `i`, and covers the same
/// instants.
proof fn lemma_merge_step(bb: Seq<TimelineCacheEntry>, nb: Seq<TimelineCacheEntry>, i: int)
    requires
        0 <= i,
        i + 1 < bb.len(),
        nb.len() == bb.len() - 1,
        forall|j: int| 0 <= j < i ==> nb[j] == bb[j],
        forall|j: int| i < j < nb.len() ==> nb[j] == bb[j + 1],
        nb[i].start_ms == if bb[i].start_ms < bb[i + 1].start_ms {
            bb[i].start_ms
        } else {
            bb[i + 1].start_ms
        },
        nb[i].end_ms == if bb[i].end_ms > bb[i + 1].end_ms {
            bb[i].end_ms
        } else {
            bb[i + 1].end_ms
        },
        bb[i].end_ms >= bb[i + 1].start_ms,
        forall|j: int| 0 <= j < bb.len() ==> (#[trigger] bb[j]).start_ms < bb[j].end_ms,
        forall|a: int, b: int|
            0 <= a < b < bb.len() ==> (#[trigger] bb[a]).start_ms <= (#[trigger] bb[b]).start_ms,
        forall|a: int| 0 <= a < i ==> (#[trigger] bb[a]).end_ms < bb[a + 1].start_ms,
    ensures
        forall|j: int| 0 <= j < nb.len() ==> (#[trigger] nb[j]).start_ms < nb[j].end_ms,
        forall|a: int, b: int|
            0 <= a < b < nb.len() ==> (#[trigger] nb[a]).start_ms <= (#[trigger] nb[b]).start_ms,
        forall|a: int| 0 <= a < i - 1 ==> (#[trigger] nb[a]).end_ms < nb[a + 1].start_ms,
        forall|t: int| #[trigger] covered(nb, t) <==> covered(bb, t),
{
    assert(bb[i].start_ms <= bb[i + 1].start_ms);
    assert forall|t: int| covered(nb, t) <==> covered(bb, t) by {
        if covered(bb, t) {
            let q = choose|q: int| 0 <= q < bb.len() && (#[trigger] bb[q]).start_ms <= t < bb[q].end_ms;
            if q < i {
                assert(nb[q] == bb[q]);
            } else if q > i + 1 {
                assert(nb[q - 1] == bb[q]);
            } else {
                assert(nb[i].start_ms <= t < nb[i].end_ms);
            }
        }
        if covered(nb, t) {
            let q = choose|q: int| 0 <= q < nb.len() && (#[trigger] nb[q]).start_ms <= t < nb[q].end_ms;
            if q < i {
                assert(nb[q] == bb[q]);
            } else if q > i {
                assert(nb[q] == bb[q + 1]);
            } else {
                if t < bb[i].end_ms {
                    assert(bb[i].start_ms <= t < bb[i].end_ms);
                } else {
                    assert(bb[i + 1].start_ms <= t < bb[i + 1].end_ms);
                }
            }
        }
    }
    assert forall|a: int, b: int| 0 <= a < b < nb.len() implies (#[trigger] nb[a]).start_ms <= (
    #[trigger] nb[b]).start_ms by {
        if a < i {
            assert(nb[a] == bb[a]);
        }
        if b > i {
            assert(nb[b] == bb[b + 1]);
        }
        if b < i {
            assert(nb[b] == bb[b]);
        }
        if a > i {
            assert(nb[a] == bb[a + 1]);
        }
    }
    assert forall|j: int| 0 <= j < nb.len() implies (#[trigger] nb[j]).start_ms < nb[j].end_ms by {
        if j < i {
            assert(nb[j] == bb[j]);
        } else if j > i {
            assert(nb[j] == bb[j + 1]);
        }
    }
    assert forall|a: int| 0 <= a < i - 1 implies (#[trigger] nb[a]).end_ms < nb[a + 1].start_ms by {
        assert(nb[a] == bb[a]);
        assert(nb[a + 1] == bb[a + 1]);
    }
}

/// A key that has a bucket has at least one piece in it: an empty span adds no bucket,
/// and every insertion leaves a piece in the bucket it goes to.
pub proof fn lemma_buckets_nonempty(c: TimelineCache, key: TimelineCacheKey)
    requires
        c.wf(),
    ensures
        c.bucket(key) matches Some(b) ==> b.len() > 0,
{
    bucket_keys(c.entries@).index_of_first_ensures(key_view(key));
}

/// Looking up a value other than the one pushed finds what it found before the push.
proof fn lemma_index_of_first_push<A>(s: Seq<A>, y: A, x: A)
    requires
        x != y,
    ensures
        s.push(y).index_of_first(x) == s.index_of_first(x),
{
    let t = s.push(y);
    s.index_of_first_ensures(x);
    t.index_of_first_ensures(x);
    match s.index_of_first(x) {
        Some(i) => {
            assert(t[i] == x);
            match t.index_of_first(x) {
                Some(j) => {
                    if j == s.len() {
                        assert(t[j] == y);
                    } else {
                        assert(t[j] == s[j]);
                    }
                },
                None => {
                    assert(t.contains(x));
                },
            }
        },
        None => {
            match t.index_of_first(x) {
                Some(j) => {
                    if j < s.len() {
                        assert(t[j] == s[j]);
                        assert(s.contains(x));
                    } else {
                        assert(t[j] == y);
                    }
                },
                None => {},
            }
        },
    }
}

/// Pushing a value that was absent makes it first found at the end.
proof fn lemma_push_new_first<A>(s: Seq<A>, x: A)
    requires
        !s.contains(x),
    ensures
        s.push(x).index_of_first(x) == Some(s.len() as int),
        s.no_duplicates() ==> s.push(x).no_duplicates(),
{
    let t = s.push(x);
    t.index_of_first_ensures(x);
    assert(t[s.len() as int] == x);
    match t.index_of_first(x) {
        Some(j) => {
            if j < s.len() {
                assert(t[j] == s[j]);
                assert(s.contains(x));
            }
        },
        None => {
            assert(t.contains(x));
        },
    }
    if s.no_duplicates() {
        assert forall|a: int, b: int| 0 <= a < b < t.len() implies t[a] != t[b] by {
            if b == s.len() {
                assert(t[a] == s[a]);
                assert(s.contains(s[a]));
            } else {
                assert(t[a] == s[a] && t[b] == s[b]);
            }
        }
    }
}

impl TimelineCacheKey {
    /// A copy of this key.
    pub fn clone_key(&self) -> (r: TimelineCacheKey)
        ensures
            key_view(r) == key_view(*self),
    {
        TimelineCacheKey {
            ms_per_character: self.ms_per_character,
            mode: self.mode,
            label: match &self.label {
                Some(s) => Some(s.clone()),
                None => None,
            },
        }
    }
}


/// What one call of `insert` of `entry` under `key` promises of the cache it turns `c0`
/// into `c1`, as far as which keys have pieces: a consistent cache, nothing changed for an
/// empty span, other keys untouched, and pieces for `key` otherwise.
pub open spec fn insert_step(c0: TimelineCache, c1: TimelineCache, key: TimelineCacheKey, entry: TimelineCacheEntry) -> bool {
    &&& c1.wf()
    &&& entry.end_ms <= entry.start_ms ==> c1.entries@ == c0.entries@
    &&& forall|k: TimelineCacheKey| key_view(k) != key_view(key) ==> #[trigger] c1.bucket(k) == c0.bucket(k)
    &&& entry.end_ms > entry.start_ms ==> c1.bucket(key) is Some
}

proof fn lemma_bucket_nonempty(c: TimelineCache, key: TimelineCacheKey)
    requires
        c.wf(),
    ensures
        c.bucket(key) matches Some(b) ==> b.len() > 0,
{
    bucket_keys(c.entries@).index_of_first_ensures(key_view(key));
}

/// Starting from an empty cache (a new one, or one just cleared), a key has pieces after a
/// run of `insert` calls exactly when one of them inserted a non-empty span under that key,
/// and then it has at least one piece.
pub proof fn lemma_buckets_from_inserts(
    caches: Seq<TimelineCache>,
    keys: Seq<TimelineCacheKey>,
    entries: Seq<TimelineCacheEntry>,
    key: TimelineCacheKey,
)
    requires
        caches.len() == keys.len() + 1,
        entries.len() == keys.len(),
        caches[0].wf(),
        caches[0].entries@.len() == 0,
        forall|i: int| 0 <= i < keys.len() ==> #[trigger] insert_step(caches[i], caches[i + 1], keys[i], entries[i]),
    ensures
        (caches.last().bucket(key) is Some) == exists|i: int|
            0 <= i < keys.len() && key_view(#[trigger] keys[i]) == key_view(key) && entries[i].end_ms > entries[i].start_ms,
        caches.last().bucket(key) matches Some(b) ==> b.len() > 0,
    decreases keys.len(),
{
    let n = keys.len() as int;
    if n == 0 {
        bucket_keys(caches[0].entries@).index_of_first_ensures(key_view(key));
        assert(caches.last() == caches[0]);
    } else {
        let cs = caches.drop_last();
        let ks = keys.drop_last();
        let es = entries.drop_last();
        assert forall|i: int| 0 <= i < ks.len() implies #[trigger] insert_step(cs[i], cs[i + 1], ks[i], es[i]) by {
            assert(insert_step(caches[i], caches[i + 1], keys[i], entries[i]));
        }
        lemma_buckets_from_inserts(cs, ks, es, key);
        assert(cs.last() == caches[n - 1]);
        assert(insert_step(caches[n - 1], caches[n], keys[n - 1], entries[n - 1]));
        assert(caches.last() == caches[n]);
        lemma_bucket_nonempty(caches[n], key);
        let found = exists|i: int|
            0 <= i < keys.len() && key_view(#[trigger] keys[i]) == key_view(key) && entries[i].end_ms > entries[i].start_ms;
        if found {
            let i = choose|i: int|
                0 <= i < keys.len() && key_view(#[trigger] keys[i]) == key_view(key) && entries[i].end_ms > entries[i].start_ms;
            if i < n - 1 {
                assert(ks[i] == keys[i]);
            }
        } else {
            assert forall|i: int| 0 <= i < ks.len() implies !(key_view(#[trigger] ks[i]) == key_view(key) && es[i].end_ms > es[i].start_ms) by {
                assert(ks[i] == keys[i]);
            }
        }
        if entries[n - 1].end_ms > entries[n - 1].start_ms && key_view(keys[n - 1]) == key_view(key) {
        } else if entries[n - 1].end_ms <= entries[n - 1].start_ms {
            assert(caches[n].bucket(key) == caches[n - 1].bucket(key));
        } else {
            assert(caches[n].bucket(key) == caches[n - 1].bucket(key));
        }
    }
}

} // verus!
