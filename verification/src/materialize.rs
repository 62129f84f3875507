//! Putting a timeline together from the cache and from fresh sections: columns that a
//! cached piece covers are copied from it, the gaps between them are computed afresh and
//! cached in turn, except the columns that an open log is still filling.
use vstd::prelude::*;

use crate::clock::utc_now_millis;
use crate::interval::Interval;
use crate::model::Model;
use crate::settings::Settings;
use crate::text::{chars_of, string_of};
use crate::timeline_cache::{
    entry_view, entry_views, exact_lookup, key_view, labels_view, last_exact, merged_run, TimelineCache, TimelineCacheEntry,
    TimelineCacheKey,
};
use crate::timeline_sections::{opt_label, sections_view, timeline_for_interval_at, timeline_sections};
use crate::view::{
    cacheable_column_ranges, cacheable_ranges, choose_character, dynamic_column_range_at,
    dynamic_columns, multi_dynamic, section_char, single_dynamic,
};

verus! {

/// The whole timeline `width` sections wide from `start_ms`, `ms` milliseconds per section.
pub open spec fn whole_interval(start_ms: int, ms: int, width: int) -> Interval {
    Interval { start: start_ms as i64, end: (start_ms + ms * width) as i64, changed: false }
}

/// The character a fresh computation of the whole timeline gives column `i`.
pub open spec fn fresh_char(
    m: Model,
    s: Settings,
    label: Option<Seq<char>>,
    now: u64,
    start_ms: int,
    ms: int,
    width: int,
    i: int,
) -> char {
    let sec = timeline_sections(m, width, whole_interval(start_ms, ms, width), s, label, now)[i];
    section_char(sec.2 as int, ms, sec.3, sec.4)
}

/// The label a fresh computation of the whole timeline gives column `i`.
pub open spec fn fresh_label(
    m: Model,
    s: Settings,
    label: Option<Seq<char>>,
    now: u64,
    start_ms: int,
    ms: int,
    width: int,
    i: int,
) -> Seq<char> {
    timeline_sections(m, width, whole_interval(start_ms, ms, width), s, label, now)[i].0
}

/// The label a piece holds at its column `j`, empty when it holds none there.
pub open spec fn piece_label(e: TimelineCacheEntry, j: int) -> Seq<char> {
    if j < e.section_labels.len() {
        e.section_labels@[j]@
    } else {
        Seq::empty()
    }
}

/// The piece `e` gives column `i` of a timeline from `start_ms` at `ms` per column the
/// character `ch` (and, when labels are kept, the label `lbl`): it starts no later than the
/// column, and its column at the same time holds them.
pub open spec fn piece_gives(
    e: TimelineCacheEntry,
    start_ms: int,
    ms: int,
    i: int,
    ch: char,
    lbl: Option<String>,
    with_labels: bool,
) -> bool {
    let t = start_ms + ms * i;
    let j = (t - e.start_ms) / ms;
    &&& e.start_ms <= t
    &&& 0 <= j < e.timeline@.len()
    &&& e.timeline@[j] == ch
    &&& lbl is Some
    &&& with_labels ==> lbl->0@ == piece_label(e, j)
}

/// Column `i`, when filled, holds what one of the pieces `b` gives it.
pub open spec fn filled_from(
    b: Seq<TimelineCacheEntry>,
    start_ms: int,
    ms: int,
    i: int,
    c: Option<char>,
    l: Option<String>,
    with_labels: bool,
) -> bool {
    c is Some ==> exists|k: int|
        0 <= k < b.len() && #[trigger] piece_gives(b[k], start_ms, ms, i, c->0, l, with_labels)
}

/// The characters a fresh computation of the whole timeline gives its columns.
pub open spec fn fresh_row(m: Model, s: Settings, label: Option<Seq<char>>, now: u64, start_ms: int, ms: int, width: int) -> Seq<char> {
    Seq::new(width as nat, |q: int| fresh_char(m, s, label, now, start_ms, ms, width, q))
}

/// The labels a fresh computation of the whole timeline gives its columns.
pub open spec fn fresh_label_row(
    m: Model,
    s: Settings,
    label: Option<Seq<char>>,
    now: u64,
    start_ms: int,
    ms: int,
    width: int,
) -> Seq<Seq<char>> {
    Seq::new(width as nat, |q: int| fresh_label(m, s, label, now, start_ms, ms, width, q))
}

/// The pieces of `key` in `c`, none when it has no bucket.
pub open spec fn bucket_or_empty(c: TimelineCache, key: TimelineCacheKey) -> Seq<TimelineCacheEntry> {
    match c.bucket(key) {
        Some(b) => b,
        None => Seq::empty(),
    }
}

/// What a put-together timeline is: the cached piece spanning it exactly, taken whole when
/// there is one and no column is still changing; otherwise `width` columns, each copied
/// from the first cached piece that covers it or else fresh; see `column_exact`.
pub open spec fn materialized(
    m: Model,
    s: Settings,
    label: Option<Seq<char>>,
    now: u64,
    bucket: Seq<TimelineCacheEntry>,
    start_ms: int,
    ms: int,
    width: int,
    has_dynamic: bool,
    chars: Seq<char>,
    labels: Seq<Seq<char>>,
    with_labels: bool,
) -> bool {
    if exact_reuse(bucket, start_ms, ms, width, has_dynamic, now) {
        forall|k: int|
            #[trigger] last_exact(bucket, k, start_ms as u64, (start_ms + ms * width) as u64) ==> chars
                == bucket[k].timeline@ && labels == labels_view(bucket[k].section_labels@)
    } else {
        &&& chars.len() == width
        &&& labels.len() == width
        &&& forall|i: int|
            0 <= i < width ==> column_exact(m, s, label, now, bucket, start_ms, ms, width, has_dynamic, i, #[trigger] chars[i], labels[i])
    }
}

/// Putting together a timeline for which `old_c` held no piece, with no column still
/// changing, leaves in `new_c` one piece for the key: the whole timeline, `chars` with the
/// labels `labels` when labels are kept and without labels otherwise. A second call for
/// the same timeline then takes that piece whole.
pub open spec fn fresh_cached(
    old_c: TimelineCache,
    new_c: TimelineCache,
    key: TimelineCacheKey,
    start_ms: u64,
    end_ms: u64,
    width: usize,
    has_dynamic: bool,
    now: u64,
    chars: Seq<char>,
    labels: Seq<Seq<char>>,
    with_labels: bool,
) -> bool {
    let d = dynamic_columns(start_ms as int, width as int, key.ms_per_character as int, has_dynamic, now as int);
    bucket_or_empty(old_c, key).len() == 0 && d.1 <= d.0 && width > 0 ==> (new_c.bucket(key) is Some && entry_views(
        new_c.bucket(key)->0,
    ) == seq![
        (
            start_ms,
            end_ms,
            chars,
            if with_labels {
                labels
            } else {
                Seq::<Seq<char>>::empty()
            },
        ),
    ])
}

/// Every column of the timeline is copied from a cached piece (see `first_cover`), so none
/// is computed afresh.
pub open spec fn all_copied(
    bucket: Seq<TimelineCacheEntry>,
    start_ms: int,
    ms: int,
    width: int,
    has_dynamic: bool,
    now: u64,
) -> bool {
    let d = dynamic_columns(start_ms, width, ms, has_dynamic, now as int);
    forall|i: int|
        0 <= i < width ==> (#[trigger] first_cover(bucket, start_ms, start_ms + ms * width, ms, width, d.0, d.1, i, bucket.len() as int)) is Some
}

/// No column is still changing and a cached piece spans the timeline exactly, so that
/// piece is taken whole.
pub open spec fn exact_reuse(
    bucket: Seq<TimelineCacheEntry>,
    start_ms: int,
    ms: int,
    width: int,
    has_dynamic: bool,
    now: u64,
) -> bool {
    let d = dynamic_columns(start_ms, width, ms, has_dynamic, now as int);
    &&& d.1 <= d.0
    &&& exists|k: int| #[trigger] last_exact(bucket, k, start_ms as u64, (start_ms + ms * width) as u64)
}


/// When no open log is drawn and the cache holds a piece spanning the timeline exactly, the
/// timeline put together is that piece (the last such one) whole, labels included, and
/// `exact_reuse` holds, so the cache is left as it was.
pub proof fn lemma_exact_piece_taken_whole(
    m: Model,
    s: Settings,
    label: Option<Seq<char>>,
    now: u64,
    c: TimelineCache,
    key: TimelineCacheKey,
    start_ms: u64,
    end_ms: u64,
    width: int,
    e: TimelineCacheEntry,
    chars: Seq<char>,
    labels: Seq<Seq<char>>,
    with_labels: bool,
)
    requires
        end_ms == start_ms + key.ms_per_character * width,
        exact_lookup(c.bucket(key), Some(e), start_ms, end_ms),
        materialized(m, s, label, now, bucket_or_empty(c, key), start_ms as int, key.ms_per_character as int, width, false, chars, labels, with_labels),
    ensures
        exact_reuse(bucket_or_empty(c, key), start_ms as int, key.ms_per_character as int, width, false, now),
        chars == e.timeline@,
        labels == labels_view(e.section_labels@),
{
    let b = bucket_or_empty(c, key);
    let i = choose|i: int| #[trigger] last_exact(b, i, start_ms, end_ms) && b[i] == e;
    assert(last_exact(b, i, start_ms as int as u64, (start_ms + key.ms_per_character * width) as u64));
}

/// After a timeline was put together with no open log drawn, for a key that had no cached
/// piece, putting the same timeline together again, at any moment, gives the same
/// characters, and the same labels where labels are kept.
pub proof fn lemma_fresh_piece_reused(
    m: Model,
    s: Settings,
    label: Option<Seq<char>>,
    now: u64,
    later: u64,
    c0: TimelineCache,
    c1: TimelineCache,
    key: TimelineCacheKey,
    start_ms: u64,
    end_ms: u64,
    width: usize,
    chars: Seq<char>,
    labels: Seq<Seq<char>>,
    chars2: Seq<char>,
    labels2: Seq<Seq<char>>,
    with_labels: bool,
)
    requires
        width > 0,
        end_ms == start_ms + key.ms_per_character * width,
        bucket_or_empty(c0, key).len() == 0,
        fresh_cached(c0, c1, key, start_ms, end_ms, width, false, now, chars, labels, with_labels),
        materialized(m, s, label, later, bucket_or_empty(c1, key), start_ms as int, key.ms_per_character as int, width as int, false, chars2, labels2, with_labels),
    ensures
        chars2 == chars,
        with_labels ==> labels2 == labels,
        exact_reuse(bucket_or_empty(c1, key), start_ms as int, key.ms_per_character as int, width as int, false, later),
{
    let b = bucket_or_empty(c1, key);
    assert(entry_views(b).len() == 1);
    assert(entry_view(b[0]) == entry_views(b)[0]);
    assert(last_exact(b, 0, start_ms as int as u64, (start_ms + key.ms_per_character * width) as u64));
}
/// Shifting a column by whole columns moves its index in a piece by as many.
proof fn lemma_div_shift(x: int, ms: int, k: int)
    requires
        ms > 0,
        x >= 0,
        k >= 0,
    ensures
        (x + ms * k) / ms == x / ms + k,
{
    assert((x + ms * k) / ms == x / ms + k) by (nonlinear_arith)
        requires
            ms > 0,
            x >= 0,
            k >= 0,
    ;
}

/// The columns `(first, end)` of a timeline `width` columns wide from `start_ms` to
/// `end_ms`, at `ms` per column, that the cached piece `e` is copied into: those its time
/// overlaps; when they reach into the columns `dyn_start..dyn_end` that are still changing,
/// only the part before them (or, when they start inside, the part after them); then
/// starting at the first column that does not begin before the piece. `(0, 0)` when there
/// are none.
pub open spec fn copy_cols(
    e: TimelineCacheEntry,
    start_ms: int,
    end_ms: int,
    ms: int,
    width: int,
    dyn_start: int,
    dyn_end: int,
) -> (int, int) {
    let os = if start_ms > e.start_ms {
        start_ms
    } else {
        e.start_ms as int
    };
    let oe = if end_ms < e.end_ms {
        end_ms
    } else {
        e.end_ms as int
    };
    if os >= oe {
        (0, 0)
    } else {
        let cs0 = (os - start_ms) / ms;
        let ce0 = if (oe - start_ms) / ms > width {
            width
        } else {
            (oe - start_ms) / ms
        };
        if cs0 >= width {
            (0, 0)
        } else {
            let clipped = dyn_end > dyn_start && cs0 < dyn_end && ce0 > dyn_start;
            let cs1 = if clipped && cs0 >= dyn_start {
                dyn_end
            } else {
                cs0
            };
            let ce1 = if clipped && cs0 < dyn_start {
                dyn_start
            } else {
                ce0
            };
            if !(cs1 < ce1 && cs1 < width) {
                (0, 0)
            } else if start_ms + ms * cs1 < e.start_ms {
                let gap = e.start_ms - (start_ms + ms * cs1);
                let adv = gap / ms + if gap % ms != 0 {
                    1int
                } else {
                    0int
                };
                if adv >= width - cs1 || ce1 <= cs1 + adv {
                    (0, 0)
                } else {
                    (cs1 + adv, ce1)
                }
            } else {
                (cs1, ce1)
            }
        }
    }
}

/// The column of the piece `e` that holds the time of column `i`.
pub open spec fn piece_col(e: TimelineCacheEntry, start_ms: int, ms: int, i: int) -> int {
    (start_ms + ms * i - e.start_ms) / ms
}

/// The piece `e` is copied into column `i`: the column lies among `copy_cols` and the
/// piece holds a character for it.
pub open spec fn piece_covers(
    e: TimelineCacheEntry,
    start_ms: int,
    end_ms: int,
    ms: int,
    width: int,
    dyn_start: int,
    dyn_end: int,
    i: int,
) -> bool {
    let (cs, ce) = copy_cols(e, start_ms, end_ms, ms, width, dyn_start, dyn_end);
    cs <= i < ce && piece_col(e, start_ms, ms, i) < e.timeline@.len()
}

/// The first of the first `n` pieces of `b` copied into column `i`.
pub open spec fn first_cover(
    b: Seq<TimelineCacheEntry>,
    start_ms: int,
    end_ms: int,
    ms: int,
    width: int,
    dyn_start: int,
    dyn_end: int,
    i: int,
    n: int,
) -> Option<int>
    decreases n,
{
    if n <= 0 {
        None
    } else {
        match first_cover(b, start_ms, end_ms, ms, width, dyn_start, dyn_end, i, n - 1) {
            Some(k) => Some(k),
            None => if piece_covers(b[n - 1], start_ms, end_ms, ms, width, dyn_start, dyn_end, i) {
                Some(n - 1)
            } else {
                None
            },
        }
    }
}

/// Column `i` holds what the piece `e` gives it: its character and, as a label, the
/// piece's label there.
pub open spec fn copied_from(e: TimelineCacheEntry, start_ms: int, ms: int, i: int, c: Option<char>, l: Option<String>) -> bool {
    let j = piece_col(e, start_ms, ms, i);
    &&& c == Some(e.timeline@[j])
    &&& l is Some
    &&& l->0@ == piece_label(e, j)
}

/// Column `j` after copying the columns `cs..ce` from the piece `e`: where it lay among
/// them, was empty and the piece holds a character for it, it holds what the piece gives
/// it; otherwise it is as it was.
pub open spec fn piece_step(
    e: TimelineCacheEntry,
    start_ms: int,
    ms: int,
    cs: int,
    ce: int,
    j: int,
    oc: Option<char>,
    ol: Option<String>,
    c: Option<char>,
    l: Option<String>,
) -> bool {
    if cs <= j < ce && piece_col(e, start_ms, ms, j) < e.timeline@.len() && oc is None {
        copied_from(e, start_ms, ms, j, c, l)
    } else {
        c == oc && l == ol
    }
}

/// Column `i` after copying the first `n` pieces of `b`: what the first of them copied
/// into it gives it, or, where none is, empty with the label it had.
pub open spec fn cover_state(
    b: Seq<TimelineCacheEntry>,
    start_ms: int,
    end_ms: int,
    ms: int,
    width: int,
    dyn_start: int,
    dyn_end: int,
    i: int,
    n: int,
    c: Option<char>,
    l: Option<String>,
    ol: Option<String>,
) -> bool {
    match first_cover(b, start_ms, end_ms, ms, width, dyn_start, dyn_end, i, n) {
        Some(k) => copied_from(b[k], start_ms, ms, i, c, l),
        None => c is None && l == ol,
    }
}

/// Column `i` of a timeline put together column by column holds the character `ch` and
/// the label `lbl`: what the first cached piece copied into it gives it (see
/// `first_cover` and `copy_cols`), and where none is, what a fresh computation of the
/// whole timeline gives it.
pub open spec fn column_exact(
    m: Model,
    s: Settings,
    label: Option<Seq<char>>,
    now: u64,
    bucket: Seq<TimelineCacheEntry>,
    start_ms: int,
    ms: int,
    width: int,
    has_dynamic: bool,
    i: int,
    ch: char,
    lbl: Seq<char>,
) -> bool {
    let d = dynamic_columns(start_ms, width, ms, has_dynamic, now as int);
    match first_cover(bucket, start_ms, start_ms + ms * width, ms, width, d.0, d.1, i, bucket.len() as int) {
        Some(k) => ch == bucket[k].timeline@[piece_col(bucket[k], start_ms, ms, i)] && lbl == piece_label(
            bucket[k],
            piece_col(bucket[k], start_ms, ms, i),
        ),
        None => ch == fresh_char(m, s, label, now, start_ms, ms, width, i) && lbl == fresh_label(
            m,
            s,
            label,
            now,
            start_ms,
            ms,
            width,
            i,
        ),
    }
}

/// Copies into the empty columns what the cached pieces of `key` give them; see
/// `piece_gives`. Each piece goes into the columns `copy_cols` gives it, so a column holds
/// what the first piece copied into it gives it; columns still changing are not copied.
#[verifier::spinoff_prover]
#[verifier::rlimit(40)]
fn copy_cached(
    cache: &TimelineCache,
    key: &TimelineCacheKey,
    start_ms: u64,
    end_ms: u64,
    width: usize,
    dynamic_range: (usize, usize),
    chars: &mut Vec<Option<char>>,
    labels: &mut Vec<Option<String>>,
    with_labels: bool,
)
    requires
        key.ms_per_character >= 1,
        end_ms == start_ms + key.ms_per_character * width,
        old(chars)@.len() == width,
        old(labels)@.len() == width,
        forall|i: int| 0 <= i < width ==> (#[trigger] old(chars)@[i]) is None,
    ensures
        final(chars)@.len() == width,
        final(labels)@.len() == width,
        forall|i: int| 0 <= i < width ==> #[trigger] filled_from(bucket_or_empty(*cache, *key), start_ms as int, key.ms_per_character as int, i, final(chars)@[i], final(labels)@[i], with_labels),
        forall|i: int|
            0 <= i < width ==> cover_state(
                bucket_or_empty(*cache, *key),
                start_ms as int,
                end_ms as int,
                key.ms_per_character as int,
                width as int,
                dynamic_range.0 as int,
                dynamic_range.1 as int,
                i,
                bucket_or_empty(*cache, *key).len() as int,
                #[trigger] final(chars)@[i],
                final(labels)@[i],
                old(labels)@[i],
            ),
{
    let ms = key.ms_per_character;
    let ghost b = bucket_or_empty(*cache, *key);
    let entries = match cache.entries_for_key(key) {
        Some(v) => v,
        None => return,
    };
    assert(entries@ == b);
    let mut ei: usize = 0;
    while ei < entries.len()
        invariant
            entries@ == b,
            ms == key.ms_per_character,
            ms >= 1,
            end_ms == start_ms + ms * width,
            chars@.len() == width,
            labels@.len() == width,
            forall|i: int| 0 <= i < width ==> #[trigger] filled_from(b, start_ms as int, ms as int, i, chars@[i], labels@[i], with_labels),
            ei <= entries.len(),
            old(labels)@.len() == width,
            forall|i: int|
                0 <= i < width ==> cover_state(
                    b,
                    start_ms as int,
                    end_ms as int,
                    ms as int,
                    width as int,
                    dynamic_range.0 as int,
                    dynamic_range.1 as int,
                    i,
                    ei as int,
                    #[trigger] chars@[i],
                    labels@[i],
                    old(labels)@[i],
                ),
        decreases entries.len() - ei,
    {
        let entry = &entries[ei];
        let ghost cc = copy_cols(b[ei as int], start_ms as int, end_ms as int, ms as int, width as int, dynamic_range.0 as int, dynamic_range.1 as int);
        let ghost pc = chars@;
        let ghost pl = labels@;
        let ghost copied = false;
        let overlap_start = if start_ms > entry.start_ms {
            start_ms
        } else {
            entry.start_ms
        };
        let overlap_end = if end_ms < entry.end_ms {
            end_ms
        } else {
            entry.end_ms
        };
        if overlap_start < overlap_end {
            proof {
                assert((overlap_start - start_ms) / (ms as int) < width && (overlap_end - start_ms) / (ms as int) <= width)
                    by (nonlinear_arith)
                    requires
                        start_ms <= overlap_start < overlap_end <= start_ms + ms * width,
                        ms >= 1,
                ;
            }
            let mut col_start = ((overlap_start - start_ms) / ms) as usize;
            let mut col_end = ((overlap_end - start_ms) / ms) as usize;
            if col_start < width {
                if col_end > width {
                    col_end = width;
                }
                let (dyn_start, dyn_end) = dynamic_range;
                if dyn_end > dyn_start && col_start < dyn_end && col_end > dyn_start {
                    if col_start < dyn_start {
                        col_end = dyn_start;
                    } else {
                        col_start = dyn_end;
                    }
                }
                if col_start < col_end && col_start < width {
                    proof {
                        assert(ms * col_start <= ms * width) by (nonlinear_arith)
                            requires
                                col_start < width,
                                ms >= 1,
                        ;
                    }
                    let dst_start_ms = start_ms + ms * (col_start as u64);
                    let mut ok = true;
                    if dst_start_ms < entry.start_ms {
                        let gap = entry.start_ms - dst_start_ms;
                        let advance = gap / ms + if gap % ms != 0 {
                            1
                        } else {
                            0
                        };
                        if advance >= (width - col_start) as u64 {
                            ok = false;
                        } else {
                            proof {
                                assert(ms * advance >= gap) by (nonlinear_arith)
                                    requires
                                        advance == gap / ms + if gap % ms != 0 {
                                            1int
                                        } else {
                                            0int
                                        },
                                        ms >= 1,
                                ;
                                assert(ms * (col_start + advance) == ms * col_start + ms * advance) by (nonlinear_arith);
                            }
                            col_start = col_start + advance as usize;
                            if col_end <= col_start {
                                ok = false;
                            }
                        }
                    }
                    if ok {
                        assert(cc == (col_start as int, col_end as int));
                        copy_piece(entry, ei, start_ms, ms, width, col_start, col_end, chars, labels, with_labels, Ghost(b));
                        proof {
                            copied = true;
                        }
                    } else {
                        assert(cc == (0int, 0int));
                    }
                } else {
                    assert(cc == (0int, 0int));
                }
            } else {
                assert(cc == (0int, 0int));
            }
        } else {
            assert(cc == (0int, 0int));
        }
        proof {
            assert forall|i: int|
                0 <= i < width implies cover_state(
                    b,
                    start_ms as int,
                    end_ms as int,
                    ms as int,
                    width as int,
                    dynamic_range.0 as int,
                    dynamic_range.1 as int,
                    i,
                    ei + 1,
                    #[trigger] chars@[i],
                    labels@[i],
                    old(labels)@[i],
                ) by {
                assert(cover_state(
                    b,
                    start_ms as int,
                    end_ms as int,
                    ms as int,
                    width as int,
                    dynamic_range.0 as int,
                    dynamic_range.1 as int,
                    i,
                    ei as int,
                    pc[i],
                    pl[i],
                    old(labels)@[i],
                ));
                if copied {
                    assert(piece_step(b[ei as int], start_ms as int, ms as int, cc.0, cc.1, i, pc[i], pl[i], chars@[i], labels@[i]));
                } else {
                    assert(chars@[i] == pc[i]);
                    assert(labels@[i] == pl[i]);
                }
            }
        }
        ei = ei + 1;
    }
}

/// Copies the columns `col_start..col_end` from the piece `entry`, the `ei`th of `b`, into
/// the empty ones among them.
fn copy_piece(
    entry: &TimelineCacheEntry,
    ei: usize,
    start_ms: u64,
    ms: u64,
    width: usize,
    col_start: usize,
    col_end: usize,
    chars: &mut Vec<Option<char>>,
    labels: &mut Vec<Option<String>>,
    with_labels: bool,
    Ghost(b): Ghost<Seq<TimelineCacheEntry>>,
)
    requires
        ms >= 1,
        ei < b.len(),
        b[ei as int] == *entry,
        col_start < width,
        start_ms + ms * width <= u64::MAX,
        start_ms + ms * col_start >= entry.start_ms,
        old(chars)@.len() == width,
        old(labels)@.len() == width,
        forall|i: int| 0 <= i < width ==> #[trigger] filled_from(b, start_ms as int, ms as int, i, old(chars)@[i], old(labels)@[i], with_labels),
    ensures
        final(chars)@.len() == width,
        final(labels)@.len() == width,
        forall|i: int| 0 <= i < width ==> #[trigger] filled_from(b, start_ms as int, ms as int, i, final(chars)@[i], final(labels)@[i], with_labels),
        forall|j: int|
            0 <= j < width ==> piece_step(
                *entry,
                start_ms as int,
                ms as int,
                col_start as int,
                col_end as int,
                j,
                old(chars)@[j],
                old(labels)@[j],
                #[trigger] final(chars)@[j],
                final(labels)@[j],
            ),
{
    proof {
        assert(ms * col_start <= ms * width) by (nonlinear_arith)
            requires
                col_start < width,
                ms >= 1,
        ;
    }
    let src_start64 = (start_ms + ms * (col_start as u64) - entry.start_ms) / ms;
    let entry_chars = chars_of(entry.timeline.as_str());
    proof {
        let x = start_ms + ms * col_start - entry.start_ms;
        assert forall|j: int| col_start <= j implies #[trigger] piece_col(*entry, start_ms as int, ms as int, j)
            == src_start64 + (j - col_start) by {
            lemma_div_shift(x, ms as int, j - col_start);
            assert(start_ms + ms * j - entry.start_ms == x + ms * (j - col_start)) by (nonlinear_arith)
                requires
                    x == start_ms + ms * col_start - entry.start_ms,
            ;
        }
    }
    if src_start64 >= entry_chars.len() as u64 {
        return;
    }
    let src_start = src_start64 as usize;
    let count = if col_end > col_start {
        col_end - col_start
    } else {
        0
    };
    let mut i: usize = 0;
    while i < count
        invariant
            ms >= 1,
            ei < b.len(),
            b[ei as int] == *entry,
            col_start < width,
            start_ms + ms * width <= u64::MAX,
            start_ms + ms * col_start >= entry.start_ms,
            src_start == (start_ms + ms * col_start - entry.start_ms) / (ms as int),
            src_start < entry_chars.len(),
            entry_chars@ == entry.timeline@,
            chars@.len() == width,
            labels@.len() == width,
            forall|j: int| 0 <= j < width ==> #[trigger] filled_from(b, start_ms as int, ms as int, j, chars@[j], labels@[j], with_labels),
            i <= count,
            count == if col_end > col_start { col_end - col_start } else { 0 },
            old(chars)@.len() == width,
            old(labels)@.len() == width,
            forall|j: int| col_start <= j ==> #[trigger] piece_col(*entry, start_ms as int, ms as int, j) == src_start + (j - col_start),
            forall|j: int|
                0 <= j < width ==> piece_step(
                    *entry,
                    start_ms as int,
                    ms as int,
                    col_start as int,
                    col_start + i,
                    j,
                    old(chars)@[j],
                    old(labels)@[j],
                    #[trigger] chars@[j],
                    labels@[j],
                ),
        ensures
            i == count || col_start + i >= width || src_start + i >= entry_chars.len(),
            chars@.len() == width,
            labels@.len() == width,
            forall|j: int| 0 <= j < width ==> #[trigger] filled_from(b, start_ms as int, ms as int, j, chars@[j], labels@[j], with_labels),
            forall|j: int|
                0 <= j < width ==> piece_step(
                    *entry,
                    start_ms as int,
                    ms as int,
                    col_start as int,
                    col_start + i,
                    j,
                    old(chars)@[j],
                    old(labels)@[j],
                    #[trigger] chars@[j],
                    labels@[j],
                ),
        decreases count - i,
    {
        if i >= width - col_start {
            break;
        }
        let dst = col_start + i;
        if i >= entry_chars.len() - src_start {
            break;
        }
        let src = src_start + i;
        let ghost pc = chars@;
        let ghost pl = labels@;
        if chars[dst].is_none() {
            let ch = entry_chars[src];
            let lbl = if src < entry.section_labels.len() {
                entry.section_labels[src].clone()
            } else {
                String::new()
            };
            chars.set(dst, Some(ch));
            labels.set(dst, Some(lbl));
            proof {
                let x = start_ms + ms * col_start - entry.start_ms;
                lemma_div_shift(x, ms as int, i as int);
                assert(start_ms + ms * dst - entry.start_ms == x + ms * i) by (nonlinear_arith)
                    requires
                        dst == col_start + i,
                        x == start_ms + ms * col_start - entry.start_ms,
                ;
                let k0 = ei as int;
                assert(0 <= k0 < b.len());
                assert(piece_gives(b[k0], start_ms as int, ms as int, dst as int, ch, Some(lbl), with_labels));
                assert(exists|k: int| 0 <= k < b.len() && #[trigger] piece_gives(b[k], start_ms as int, ms as int, dst as int, ch, Some(lbl), with_labels));
                let ghost oc = Some(ch);
                assert(oc->0 == ch);
                assert(exists|k: int| 0 <= k < b.len() && #[trigger] piece_gives(b[k], start_ms as int, ms as int, dst as int, oc->0, Some(lbl), with_labels));
                assert(filled_from(b, start_ms as int, ms as int, dst as int, oc, Some(lbl), with_labels));
                assert forall|j: int| 0 <= j < width implies #[trigger] filled_from(b, start_ms as int, ms as int, j, chars@[j], labels@[j], with_labels) by {
                    if j == dst {
                        assert(chars@[j] == Some(ch));
                        assert(labels@[j] == Some(lbl));
                    } else {
                        assert(chars@[j] == pc[j]);
                        assert(labels@[j] == pl[j]);
                        assert(filled_from(b, start_ms as int, ms as int, j, pc[j], pl[j], with_labels));
                    }
                }
            }
        }
        proof {
            assert(piece_col(*entry, start_ms as int, ms as int, dst as int) == src);
            assert forall|j: int| 0 <= j < width implies piece_step(
                *entry,
                start_ms as int,
                ms as int,
                col_start as int,
                col_start + i + 1,
                j,
                old(chars)@[j],
                old(labels)@[j],
                #[trigger] chars@[j],
                labels@[j],
            ) by {
                assert(piece_step(
                    *entry,
                    start_ms as int,
                    ms as int,
                    col_start as int,
                    col_start + i,
                    j,
                    old(chars)@[j],
                    old(labels)@[j],
                    pc[j],
                    pl[j],
                ));
                if j != dst {
                    assert(chars@[j] == pc[j]);
                    assert(labels@[j] == pl[j]);
                } else if pc[j] is None {
                    assert(old(chars)@[j] is None);
                    assert(chars@[j] == Some(entry.timeline@[src as int]));
                    assert(labels@[j] is Some);
                    assert(labels@[j]->0@ == piece_label(*entry, src as int));
                } else {
                    assert(chars@[j] == pc[j]);
                    assert(old(chars)@[j] == pc[j]);
                }
            }
        }
        i = i + 1;
    }
    proof {
        assert forall|j: int| 0 <= j < width implies piece_step(
            *entry,
            start_ms as int,
            ms as int,
            col_start as int,
            col_end as int,
            j,
            old(chars)@[j],
            old(labels)@[j],
            #[trigger] chars@[j],
            labels@[j],
        ) by {
            assert(piece_step(
                *entry,
                start_ms as int,
                ms as int,
                col_start as int,
                col_start + i,
                j,
                old(chars)@[j],
                old(labels)@[j],
                #[trigger] chars@[j],
                labels@[j],
            ));
            if col_start <= j {
                assert(piece_col(*entry, start_ms as int, ms as int, j) == src_start + (j - col_start));
            }
        }
    }
}

/// Writes the characters `seg_chars` and the labels `seg_labels` of a gap into the
/// columns from `s` on.
fn write_gap(
    chars: &mut Vec<Option<char>>,
    labels: &mut Vec<Option<String>>,
    s: usize,
    seg_chars: &Vec<char>,
    seg_labels: &Vec<String>,
)
    requires
        s + seg_chars@.len() <= old(chars)@.len(),
        seg_labels@.len() == seg_chars@.len(),
        old(labels)@.len() == old(chars)@.len(),
    ensures
        final(chars)@.len() == old(chars)@.len(),
        final(labels)@.len() == old(labels)@.len(),
        forall|q: int|
            0 <= q < old(chars)@.len() && !(s <= q < s + seg_chars@.len()) ==> final(chars)@[q] == old(chars)@[q]
                && final(labels)@[q] == old(labels)@[q],
        forall|q: int|
            s <= q < s + seg_chars@.len() ==> {
                &&& (#[trigger] final(chars)@[q]) == Some(seg_chars@[q - s])
                &&& final(labels)@[q] is Some
                &&& final(labels)@[q]->0@ == seg_labels@[q - s]@
            },
{
    let n = seg_chars.len();
    let len = chars.len();
    let mut k: usize = 0;
    while k < n
        invariant
            k <= n,
            chars@.len() == len,
            n == seg_chars@.len(),
            seg_labels@.len() == n,
            s + n <= chars@.len(),
            chars@.len() == old(chars)@.len(),
            labels@.len() == old(labels)@.len(),
            labels@.len() == chars@.len(),
            forall|q: int| 0 <= q < chars@.len() && !(s <= q < s + k) ==> chars@[q] == old(chars)@[q] && labels@[q] == old(labels)@[q],
            forall|q: int|
                s <= q < s + k ==> {
                    &&& (#[trigger] chars@[q]) == Some(seg_chars@[q - s])
                    &&& labels@[q] is Some
                    &&& labels@[q]->0@ == seg_labels@[q - s]@
                },
        decreases n - k,
    {
        chars.set(s + k, Some(seg_chars[k]));
        labels.set(s + k, Some(seg_labels[k].clone()));
        k = k + 1;
    }
}

/// Caches the pieces `ranges` of a gap computed afresh from `seg_start`, `ms` milliseconds
/// per column: its characters and, when labels are kept, its labels.
fn cache_pieces(
    cache: &mut TimelineCache,
    key: &TimelineCacheKey,
    seg_start: u64,
    ms: u64,
    seg_width: usize,
    seg_chars: &Vec<char>,
    seg_labels: &Vec<String>,
    ranges: &Vec<(usize, usize)>,
    with_labels: bool,
)
    requires
        old(cache).wf(),
        ms >= 1,
        seg_start + ms * seg_width <= i64::MAX,
        seg_chars@.len() == seg_width,
        seg_labels@.len() == seg_width,
        ranges@.len() <= 2,
        forall|q: int| 0 <= q < ranges@.len() ==> (#[trigger] ranges@[q]).0 <= seg_width && ranges@[q].1 <= seg_width,
    ensures
        final(cache).wf(),
        forall|k: TimelineCacheKey| key_view(k) != key_view(*key) ==> #[trigger] final(cache).bucket(k) == old(cache).bucket(k),
        ranges@.len() == 1 && ranges@[0] == (0usize, seg_width) && seg_width > 0 && bucket_or_empty(*old(cache), *key).len()
            == 0 ==> (final(cache).bucket(*key) is Some && entry_views(final(cache).bucket(*key)->0) == seq![
            (
                seg_start,
                (seg_start + ms * seg_width) as u64,
                seg_chars@,
                if with_labels {
                    labels_view(seg_labels@)
                } else {
                    Seq::<Seq<char>>::empty()
                },
            ),
        ]),
{
    let ghost single = ranges@.len() == 1 && ranges@[0] == (0usize, seg_width) && seg_width > 0 && bucket_or_empty(*old(cache), *key).len() == 0;
    let ghost target = seq![
        (
            seg_start,
            (seg_start + ms * seg_width) as u64,
            seg_chars@,
            if with_labels {
                labels_view(seg_labels@)
            } else {
                Seq::<Seq<char>>::empty()
            },
        ),
    ];
    let mut ri: usize = 0;
    while ri < ranges.len()
        invariant
            cache.wf(),
            forall|k: TimelineCacheKey| key_view(k) != key_view(*key) ==> #[trigger] cache.bucket(k) == old(cache).bucket(k),
            ms >= 1,
            seg_start + ms * seg_width <= i64::MAX,
            seg_chars@.len() == seg_width,
            seg_labels@.len() == seg_width,
            ranges@.len() <= 2,
            forall|q: int| 0 <= q < ranges@.len() ==> (#[trigger] ranges@[q]).0 <= seg_width && ranges@[q].1 <= seg_width,
            ri <= ranges@.len(),
            ri == 0 ==> *cache == *old(cache),
            single ==> ranges@.len() == 1 && ranges@[0] == (0usize, seg_width) && seg_width > 0 && bucket_or_empty(*old(cache), *key).len() == 0,
            single && ri >= 1 ==> (cache.bucket(*key) is Some && entry_views(cache.bucket(*key)->0) == target),
            target == seq![
                (
                    seg_start,
                    (seg_start + ms * seg_width) as u64,
                    seg_chars@,
                    if with_labels {
                        labels_view(seg_labels@)
                    } else {
                        Seq::<Seq<char>>::empty()
                    },
                ),
            ],
        decreases ranges.len() - ri,
    {
        let (cs, ce) = ranges[ri];
        if cs < ce {
            let mut piece: Vec<char> = Vec::new();
            let mut piece_labels: Vec<String> = Vec::new();
            let mut q: usize = cs;
            while q < ce
                invariant
                    cs <= q <= ce <= seg_width,
                    seg_chars@.len() == seg_width,
                    seg_labels@.len() == seg_width,
                    piece@ == seg_chars@.subrange(cs as int, q as int),
                    with_labels ==> labels_view(piece_labels@) == labels_view(seg_labels@.subrange(cs as int, q as int)),
                    !with_labels ==> piece_labels@.len() == 0,
                decreases ce - q,
            {
                piece.push(seg_chars[q]);
                if with_labels {
                    let ghost pl = piece_labels@;
                    piece_labels.push(seg_labels[q].clone());
                    proof {
                        assert(labels_view(piece_labels@) =~= labels_view(seg_labels@.subrange(cs as int, q + 1))) by {
                            assert forall|j: int| 0 <= j < piece_labels@.len() implies #[trigger] labels_view(piece_labels@)[j] == labels_view(seg_labels@.subrange(cs as int, q + 1))[j] by {
                                if j < pl.len() {
                                    assert(piece_labels@[j] == pl[j]);
                                    assert(labels_view(pl)[j] == labels_view(seg_labels@.subrange(cs as int, q as int))[j]);
                                }
                            }
                        }
                    }
                }
                proof {
                    assert(piece@ =~= seg_chars@.subrange(cs as int, q + 1));
                }
                q = q + 1;
            }
            proof {
                assert(ms * ce <= ms * seg_width) by (nonlinear_arith)
                    requires
                        ce <= seg_width,
                        ms >= 1,
                ;
                assert(ms * cs <= ms * ce) by (nonlinear_arith)
                    requires
                        cs < ce,
                        ms >= 1,
                ;
            }
            let entry = TimelineCacheEntry {
                start_ms: seg_start + ms * cs as u64,
                end_ms: seg_start + ms * ce as u64,
                timeline: string_of(&piece),
                section_labels: piece_labels,
            };
            let k2 = key.clone_key();
            let ghost cbefore = *cache;
            cache.insert(k2, entry);
            proof {
                if single {
                    assert(ri == 0);
                    assert(cs == 0 && ce == seg_width);
                    assert(seg_chars@.subrange(0, seg_width as int) =~= seg_chars@);
                    assert(seg_labels@.subrange(0, seg_width as int) =~= seg_labels@);
                    assert(cbefore.bucket(k2) == cbefore.bucket(*key));
                    let b0 = bucket_or_empty(cbefore, *key);
                    assert(b0.len() == 0);
                    let ev = entry_view(entry);
                    assert(cache.bucket(k2) == cache.bucket(*key));
                    let b = cache.bucket(*key)->0;
                    assert(entry_views(b0).insert(0, ev) =~= seq![ev]);
                    assert(merged_run(seq![ev], crate::timeline_cache::merge_scale(k2)) == seq![ev]);
                    assert(ms * cs == 0) by (nonlinear_arith)
                        requires
                            cs == 0,
                    ;
                    assert(entry.start_ms == seg_start);
                    assert(entry.end_ms == (seg_start + ms * seg_width) as u64);
                    assert(entry.timeline@ =~= seg_chars@);
                    if with_labels {
                        assert(labels_view(entry.section_labels@) =~= labels_view(seg_labels@));
                    } else {
                        assert(labels_view(entry.section_labels@) =~= Seq::<Seq<char>>::empty());
                    }
                    assert(ev == target[0]);
                    let msc = crate::timeline_cache::merge_scale(k2);
                    let bo = match cbefore.bucket(k2) {
                        Some(x) => x,
                        None => Seq::<TimelineCacheEntry>::empty(),
                    };
                    assert(bo == b0);
                    assert(ms * cs < ms * ce) by (nonlinear_arith)
                        requires
                            cs < ce,
                            ms >= 1,
                    ;
                    assert(entry.end_ms > entry.start_ms);
                    assert(crate::timeline_cache::inserted(bo, b, entry, msc));
                    assert(crate::timeline_cache::merge_inserted(bo, b, entry, msc));
                    let p = choose|p: int|
                        0 <= p <= bo.len() && (forall|j: int| 0 <= j < p ==> (#[trigger] bo[j]).start_ms <= entry.start_ms) && (forall|j: int|
                            p <= j < bo.len() ==> (#[trigger] bo[j]).start_ms > entry.start_ms) && #[trigger] entry_views(b)
                            == crate::timeline_cache::kept_pieces(merged_run(entry_views(bo).insert(p, entry_view(entry)), msc));
                    assert(p == 0);
                    assert(crate::timeline_cache::kept_pieces(seq![ev]) == seq![ev]);
                    assert(entry_views(b) =~= target);
                }
            }
        }
        ri = ri + 1;
    }
}

/// Computes the gap of columns `s..e` afresh, fills them in, and caches what of it is not
/// still changing.
#[verifier::spinoff_prover]
#[verifier::rlimit(50)]
fn fill_gap(
    model: &Model,
    settings: &Settings,
    cache: &mut TimelineCache,
    key: &TimelineCacheKey,
    start_ms: u64,
    width: usize,
    s: usize,
    e: usize,
    label: Option<&String>,
    dynamic_range: (usize, usize),
    with_labels: bool,
    now: u64,
    chars: &mut Vec<Option<char>>,
    labels: &mut Vec<Option<String>>,
)
    requires
        old(cache).wf(),
        model.wf(),
        key.ms_per_character >= 1,
        start_ms + key.ms_per_character * width <= i64::MAX,
        s < e <= width,
        old(chars)@.len() == width,
        old(labels)@.len() == width,
    ensures
        final(cache).wf(),
        forall|k: TimelineCacheKey| key_view(k) != key_view(*key) ==> #[trigger] final(cache).bucket(k) == old(cache).bucket(k),
        final(chars)@.len() == width,
        final(labels)@.len() == width,
        forall|j: int| 0 <= j < width && !(s <= j < e) ==> final(chars)@[j] == old(chars)@[j] && final(labels)@[j] == old(labels)@[j],
        forall|j: int|
            s <= j < e ==> {
                &&& (#[trigger] final(chars)@[j]) == Some(
                    fresh_char(*model, *settings, opt_label(label), now, start_ms as int, key.ms_per_character as int, width as int, j),
                )
                &&& final(labels)@[j] is Some
                &&& final(labels)@[j]->0@ == fresh_label(*model, *settings, opt_label(label), now, start_ms as int, key.ms_per_character as int, width as int, j)
            },
        s == 0 && e == width && dynamic_range.1 <= dynamic_range.0 && bucket_or_empty(*old(cache), *key).len() == 0 ==> (
        final(cache).bucket(*key) is Some && entry_views(final(cache).bucket(*key)->0) == seq![
            (
                start_ms,
                (start_ms + key.ms_per_character * width) as u64,
                fresh_row(*model, *settings, opt_label(label), now, start_ms as int, key.ms_per_character as int, width as int),
                if with_labels {
                    fresh_label_row(*model, *settings, opt_label(label), now, start_ms as int, key.ms_per_character as int, width as int)
                } else {
                    Seq::<Seq<char>>::empty()
                },
            ),
        ]),
{
    let ms = key.ms_per_character;
    let seg_width = e - s;
    proof {
        assert(ms * s <= ms * width && ms * e <= ms * width) by (nonlinear_arith)
            requires
                s < e <= width,
                ms >= 1,
        ;
        assert(ms * e - ms * s == ms * (e - s)) by (nonlinear_arith);
        assert(ms * (e - s) >= e - s) by (nonlinear_arith)
            requires
                ms >= 1,
                e > s,
        ;
    }
    let seg_start = start_ms + ms * s as u64;
    let seg_end = start_ms + ms * e as u64;
    let iv = Interval { start: seg_start as i64, end: seg_end as i64, changed: false };
    let sections = timeline_for_interval_at(model, seg_width, &iv, settings, label, now);
    proof {
        let whole = whole_interval(start_ms as int, ms as int, width as int);
        assert((whole.end - whole.start) / (width as int) == ms) by (nonlinear_arith)
            requires
                whole.end - whole.start == ms * width,
                width > 0,
        ;
        assert(whole.end - whole.start >= width) by (nonlinear_arith)
            requires
                whole.end - whole.start == ms * width,
                ms >= 1,
        ;
        crate::timeline_sections::lemma_sections_shift(
            *model,
            width as int,
            whole,
            iv,
            s as int,
            seg_width as int,
            *settings,
            opt_label(label),
            now,
        );
    }
    let ghost whole_secs = timeline_sections(
        *model,
        width as int,
        whole_interval(start_ms as int, ms as int, width as int),
        *settings,
        opt_label(label),
        now,
    );
    let mut seg_chars: Vec<char> = Vec::new();
    let mut seg_labels: Vec<String> = Vec::new();
    let mut j: usize = 0;
    while j < seg_width
        invariant
            j <= seg_width,
            seg_width == e - s,
            s < e <= width,
            whole_secs == timeline_sections(
                *model,
                width as int,
                whole_interval(start_ms as int, ms as int, width as int),
                *settings,
                opt_label(label),
                now,
            ),
            sections@.len() == seg_width,
            sections_view(sections@) == timeline_sections(*model, seg_width as int, iv, *settings, opt_label(label), now),
            forall|q: int| 0 <= q < seg_width ==> timeline_sections(*model, seg_width as int, iv, *settings, opt_label(label), now)[q] == whole_secs[s + q],
            seg_chars@.len() == j,
            seg_labels@.len() == j,
            forall|q: int|
                0 <= q < j ==> #[trigger] seg_chars@[q] == fresh_char(*model, *settings, opt_label(label), now, start_ms as int, ms as int, width as int, s + q)
                    && seg_labels@[q]@ == fresh_label(*model, *settings, opt_label(label), now, start_ms as int, ms as int, width as int, s + q),
        decreases seg_width - j,
    {
        proof {
            assert(sections_view(sections@)[j as int] == crate::timeline_sections::section_view(sections@[j as int]));
        }
        let ch = choose_character(&sections[j], ms);
        let lbl = sections[j].label.clone();
        proof {
            assert(timeline_sections(*model, seg_width as int, iv, *settings, opt_label(label), now)[j as int] == whole_secs[s + j]);
            assert(crate::timeline_sections::section_view(sections@[j as int]) == whole_secs[s + j]);
            assert(ch == fresh_char(*model, *settings, opt_label(label), now, start_ms as int, ms as int, width as int, s + j));
            assert(lbl@ == fresh_label(*model, *settings, opt_label(label), now, start_ms as int, ms as int, width as int, s + j));
        }
        let ghost pc = seg_chars@;
        let ghost pl = seg_labels@;
        seg_chars.push(ch);
        seg_labels.push(lbl);
        proof {
            assert forall|q: int|
                0 <= q < j + 1 implies #[trigger] seg_chars@[q] == fresh_char(*model, *settings, opt_label(label), now, start_ms as int, ms as int, width as int, s + q)
                    && seg_labels@[q]@ == fresh_label(*model, *settings, opt_label(label), now, start_ms as int, ms as int, width as int, s + q) by {
                if q < j {
                    assert(seg_chars@[q] == pc[q]);
                    assert(seg_labels@[q] == pl[q]);
                } else {
                    assert(seg_chars@[q] == ch);
                    assert(seg_labels@[q] == lbl);
                }
            }
        }
        j = j + 1;
    }
    write_gap(chars, labels, s, &seg_chars, &seg_labels);
    proof {
        assert forall|j: int| s <= j < e implies {
            &&& (#[trigger] chars@[j]) == Some(
                fresh_char(*model, *settings, opt_label(label), now, start_ms as int, ms as int, width as int, j),
            )
            &&& labels@[j] is Some
            &&& labels@[j]->0@ == fresh_label(*model, *settings, opt_label(label), now, start_ms as int, ms as int, width as int, j)
        } by {
            assert(chars@[j] == Some(seg_chars@[j - s]));
            assert(seg_chars@[j - s] == fresh_char(*model, *settings, opt_label(label), now, start_ms as int, ms as int, width as int, s + (j - s)));
        }
    }
    let local_dynamic = (
        if dynamic_range.0 > s {
            if dynamic_range.0 - s < seg_width {
                dynamic_range.0 - s
            } else {
                seg_width
            }
        } else {
            0
        },
        if dynamic_range.1 > s {
            if dynamic_range.1 - s < seg_width {
                dynamic_range.1 - s
            } else {
                seg_width
            }
        } else {
            0
        },
    );
    let ranges = cacheable_column_ranges(seg_width, local_dynamic);
    proof {
        let f = |p: (usize, usize)| (p.0 as int, p.1 as int);
        let cr = cacheable_ranges(seg_width as int, local_dynamic.0 as int, local_dynamic.1 as int);
        assert(ranges@.map_values(f).len() == cr.len());
        assert(cr.len() <= 2);
        assert forall|q: int| 0 <= q < ranges@.len() implies (#[trigger] ranges@[q]).0 <= seg_width && ranges@[q].1 <= seg_width by {
            assert(ranges@.map_values(f)[q] == f(ranges@[q]));
            assert(cr[q].0 <= seg_width && cr[q].1 <= seg_width);
        }
    }
    proof {
        assert(ms * s + ms * seg_width <= ms * width) by (nonlinear_arith)
            requires
                s + seg_width <= width,
                ms >= 1,
        ;
    }
    proof {
        if s == 0 && e == width && dynamic_range.1 <= dynamic_range.0 {
            assert(local_dynamic.1 <= local_dynamic.0);
            let f = |p: (usize, usize)| (p.0 as int, p.1 as int);
            let cr = cacheable_ranges(seg_width as int, local_dynamic.0 as int, local_dynamic.1 as int);
            assert(cr == seq![(0int, seg_width as int)]);
            assert(ranges@.map_values(f).len() == 1);
            assert(ranges@.map_values(f)[0] == f(ranges@[0]));
            assert(ranges@[0] == (0usize, seg_width));
            assert(seg_chars@ =~= fresh_row(*model, *settings, opt_label(label), now, start_ms as int, ms as int, width as int)) by {
                assert forall|q: int| 0 <= q < seg_width implies #[trigger] seg_chars@[q] == fresh_row(*model, *settings, opt_label(label), now, start_ms as int, ms as int, width as int)[q] by {
                    assert(seg_chars@[q] == fresh_char(*model, *settings, opt_label(label), now, start_ms as int, ms as int, width as int, s + q));
                }
            }
            assert(labels_view(seg_labels@) =~= fresh_label_row(*model, *settings, opt_label(label), now, start_ms as int, ms as int, width as int)) by {
                assert forall|q: int| 0 <= q < seg_width implies #[trigger] labels_view(seg_labels@)[q] == fresh_label_row(*model, *settings, opt_label(label), now, start_ms as int, ms as int, width as int)[q] by {
                    assert(seg_chars@[q] == fresh_char(*model, *settings, opt_label(label), now, start_ms as int, ms as int, width as int, s + q));
                }
            }
            assert(ms * s == 0) by (nonlinear_arith)
                requires
                    s == 0,
            ;
        }
    }
    cache_pieces(cache, key, seg_start, ms, seg_width, &seg_chars, &seg_labels, &ranges, with_labels);
}

/// The view of a list of strings.
pub open spec fn texts(v: Seq<String>) -> Seq<Seq<char>> {
    v.map_values(|s: String| s@)
}

/// Puts together the timeline `width` columns wide from `start_ms` at the scale of `key`,
/// open logs measured up to `now`; see `materialized`. `has_dynamic` tells whether an open
/// log is drawn; `with_labels` whether section labels are kept and cached.
fn materialize_at(
    model: &Model,
    settings: &Settings,
    cache: &mut TimelineCache,
    key: &TimelineCacheKey,
    start_ms: u64,
    end_ms: u64,
    width: usize,
    label: Option<&String>,
    has_dynamic: bool,
    with_labels: bool,
    now: u64,
) -> (r: (String, Vec<String>))
    requires
        old(cache).wf(),
        model.wf(),
        key.ms_per_character >= 1,
        end_ms == start_ms + key.ms_per_character * width,
        end_ms <= i64::MAX,
        width < usize::MAX,
    ensures
        final(cache).wf(),
        forall|k: TimelineCacheKey| key_view(k) != key_view(*key) ==> #[trigger] final(cache).bucket(k) == old(cache).bucket(k),
        materialized(
            *model,
            *settings,
            opt_label(label),
            now,
            bucket_or_empty(*old(cache), *key),
            start_ms as int,
            key.ms_per_character as int,
            width as int,
            has_dynamic,
            r.0@,
            texts(r.1@),
            with_labels,
        ),
        exact_reuse(bucket_or_empty(*old(cache), *key), start_ms as int, key.ms_per_character as int, width as int, has_dynamic, now)
            ==> *final(cache) == *old(cache),
        fresh_cached(*old(cache), *final(cache), *key, start_ms, end_ms, width, has_dynamic, now, r.0@, texts(r.1@), with_labels),
        all_copied(bucket_or_empty(*old(cache), *key), start_ms as int, key.ms_per_character as int, width as int, has_dynamic, now)
            ==> *final(cache) == *old(cache),
{
    let ms = key.ms_per_character;
    let ghost b0 = bucket_or_empty(*cache, *key);
    let ghost lv = opt_label(label);
    let dynamic_range = dynamic_column_range_at(start_ms, width, ms, has_dynamic, now);
    if dynamic_range.1 <= dynamic_range.0 {
        match cache.exact_entry(key, start_ms, end_ms) {
            Some(entry) => {
                let t = entry.timeline.clone();
                let ls = entry.section_labels.clone();
                proof {
                    let bk = cache.bucket(*key)->0;
                    assert(bk == b0);
                    let k = choose|k: int| #[trigger] last_exact(bk, k, start_ms, end_ms) && bk[k] == *entry;
                    assert(texts(ls@) =~= labels_view(entry.section_labels@)) by {
                        assert forall|q: int| 0 <= q < ls@.len() implies texts(ls@)[q] == labels_view(entry.section_labels@)[q] by {
                            assert(cloned::<String>(entry.section_labels@[q], ls@[q]));
                        }
                    }
                    assert(last_exact(b0, k, start_ms as u64, (start_ms + ms * width) as u64));
                }
                return (t, ls);
            },
            None => {},
        }
    }
    let mut chars: Vec<Option<char>> = Vec::new();
    let mut labels: Vec<Option<String>> = Vec::new();
    let mut k: usize = 0;
    while k < width
        invariant
            k <= width,
            chars@.len() == k,
            labels@.len() == k,
            forall|i: int| 0 <= i < k ==> (#[trigger] chars@[i]) is None,
            forall|i: int| 0 <= i < k ==> (#[trigger] labels@[i]) is None,
        decreases width - k,
    {
        chars.push(None);
        labels.push(None);
        k = k + 1;
    }
    let ghost lab0 = labels@;
    copy_cached(cache, key, start_ms, end_ms, width, dynamic_range, &mut chars, &mut labels, with_labels);
    let ghost d0 = dynamic_range.0 as int;
    let ghost d1 = dynamic_range.1 as int;
    let ghost fresh_case = b0.len() == 0 && dynamic_range.1 <= dynamic_range.0 && width > 0;
    let ghost fresh_piece = seq![
        (
            start_ms,
            end_ms,
            fresh_row(*model, *settings, lv, now, start_ms as int, ms as int, width as int),
            if with_labels {
                fresh_label_row(*model, *settings, lv, now, start_ms as int, ms as int, width as int)
            } else {
                Seq::<Seq<char>>::empty()
            },
        ),
    ];
    let mut has_gap = false;
    let mut gap_start: usize = 0;
    let mut i: usize = 0;
    while i <= width
        invariant
            fresh_case == (b0.len() == 0 && dynamic_range.1 <= dynamic_range.0 && width > 0),
            b0 == bucket_or_empty(*old(cache), *key),
            end_ms == start_ms + ms * width,
            fresh_piece == seq![
                (
                    start_ms,
                    end_ms,
                    fresh_row(*model, *settings, lv, now, start_ms as int, ms as int, width as int),
                    if with_labels {
                        fresh_label_row(*model, *settings, lv, now, start_ms as int, ms as int, width as int)
                    } else {
                        Seq::<Seq<char>>::empty()
                    },
                ),
            ],
            fresh_case && 0 < i <= width ==> has_gap && gap_start == 0,
            all_copied(b0, start_ms as int, ms as int, width as int, has_dynamic, now) ==> !has_gap && *cache == *old(cache),
            d0 == dynamic_columns(start_ms as int, width as int, ms as int, has_dynamic, now as int).0,
            fresh_case && i <= width ==> *cache == *old(cache),
            fresh_case && i > width ==> (cache.bucket(*key) is Some && entry_views(cache.bucket(*key)->0) == fresh_piece),
            cache.wf(),
            forall|k: TimelineCacheKey| key_view(k) != key_view(*key) ==> #[trigger] cache.bucket(k) == old(cache).bucket(k),
            model.wf(),
            lv == opt_label(label),
            ms == key.ms_per_character,
            ms >= 1,
            start_ms + ms * width <= i64::MAX,
            width < usize::MAX,
            i <= width + 1,
            chars@.len() == width,
            labels@.len() == width,
            has_gap ==> gap_start < i && i <= width,
            has_gap ==> forall|q: int| gap_start <= q < i ==> (#[trigger] chars@[q]) is None && first_cover(
                b0,
                start_ms as int,
                start_ms + ms * width,
                ms as int,
                width as int,
                d0,
                d1,
                q,
                b0.len() as int,
            ) is None,
            d0 == dynamic_columns(start_ms as int, width as int, ms as int, has_dynamic, now as int).0,
            d1 == dynamic_columns(start_ms as int, width as int, ms as int, has_dynamic, now as int).1,
            forall|q: int|
                i <= q < width ==> cover_state(
                    b0,
                    start_ms as int,
                    start_ms + ms * width,
                    ms as int,
                    width as int,
                    d0,
                    d1,
                    q,
                    b0.len() as int,
                    #[trigger] chars@[q],
                    labels@[q],
                    None,
                ),
            forall|q: int|
                0 <= q < (if has_gap {
                    gap_start as int
                } else if i <= width {
                    i as int
                } else {
                    width as int
                }) ==> {
                    &&& (#[trigger] chars@[q]) is Some
                    &&& labels@[q] is Some
                    &&& column_exact(*model, *settings, lv, now, b0, start_ms as int, ms as int, width as int, has_dynamic, q, chars@[q]->0, labels@[q]->0@)
                },
        decreases width + 1 - i,
    {
        let ghost bound0: int = if has_gap {
            gap_start as int
        } else {
            i as int
        };
        let ghost c0 = chars@;
        let ghost l0 = labels@;
        let ghost had_gap = has_gap;
        let ghost gs0 = gap_start;
        proof {
            if all_copied(b0, start_ms as int, ms as int, width as int, has_dynamic, now) && i < width {
                assert(first_cover(b0, start_ms as int, start_ms + ms * width, ms as int, width as int, d0, d1, i as int, b0.len() as int) is Some);
                assert(cover_state(
                    b0,
                    start_ms as int,
                    start_ms + ms * width,
                    ms as int,
                    width as int,
                    d0,
                    d1,
                    i as int,
                    b0.len() as int,
                    chars@[i as int],
                    labels@[i as int],
                    None,
                ));
                assert(chars@[i as int] is Some);
            }
            if fresh_case && i < width {
                assert(cover_state(
                    b0,
                    start_ms as int,
                    start_ms + ms * width,
                    ms as int,
                    width as int,
                    d0,
                    d1,
                    i as int,
                    b0.len() as int,
                    chars@[i as int],
                    labels@[i as int],
                    None,
                ));
                assert(chars@[i as int] is None);
            }
        }
        let missing = i < width && chars[i].is_none();
        if missing {
            if !has_gap {
                has_gap = true;
                gap_start = i;
            }
        } else {
            if i < width {
                proof {
                    assert(cover_state(
                        b0,
                        start_ms as int,
                        start_ms + ms * width,
                        ms as int,
                        width as int,
                        d0,
                        d1,
                        i as int,
                        b0.len() as int,
                        chars@[i as int],
                        labels@[i as int],
                        None,
                    ));
                    assert(column_exact(*model, *settings, lv, now, b0, start_ms as int, ms as int, width as int, has_dynamic, i as int, chars@[i as int]->0, labels@[i as int]->0@));
                }
            }
            if has_gap {
                fill_gap(model, settings, cache, key, start_ms, width, gap_start, i, label, dynamic_range, with_labels, now, &mut chars, &mut labels);
                has_gap = false;
            }
            proof {
                assert forall|q: int| i + 1 <= q < width implies cover_state(
                    b0,
                    start_ms as int,
                    start_ms + ms * width,
                    ms as int,
                    width as int,
                    d0,
                    d1,
                    q,
                    b0.len() as int,
                    #[trigger] chars@[q],
                    labels@[q],
                    None,
                ) by {
                    assert(chars@[q] == c0[q] && labels@[q] == l0[q]);
                }
                let nb: int = if i + 1 <= width {
                    i + 1
                } else {
                    width as int
                };
                assert forall|q: int| 0 <= q < nb implies {
                    &&& (#[trigger] chars@[q]) is Some
                    &&& labels@[q] is Some
                    &&& column_exact(*model, *settings, lv, now, b0, start_ms as int, ms as int, width as int, has_dynamic, q, chars@[q]->0, labels@[q]->0@)
                } by {
                    if q < bound0 {
                        assert(c0[q] is Some);
                        if had_gap {
                            assert(chars@[q] == c0[q] && labels@[q] == l0[q]);
                        }
                    } else if q < i {
                        assert(had_gap && gs0 <= q);
                        assert(c0[q] is None);
                    } else {
                        assert(q == i && i < width);
                        if had_gap {
                            assert(chars@[q] == c0[q] && labels@[q] == l0[q]);
                        }
                    }
                }
            }
        }
        i = i + 1;
    }
    let mut timeline = String::new();
    let mut section_labels: Vec<String> = Vec::new();
    let mut q: usize = 0;
    while q < width
        invariant
            q <= width,
            chars@.len() == width,
            labels@.len() == width,
            forall|p: int|
                0 <= p < width ==> {
                    &&& (#[trigger] chars@[p]) is Some
                    &&& labels@[p] is Some
                    &&& column_exact(*model, *settings, lv, now, b0, start_ms as int, ms as int, width as int, has_dynamic, p, chars@[p]->0, labels@[p]->0@)
                },
            timeline@.len() == q,
            section_labels@.len() == q,
            forall|p: int| 0 <= p < q ==> #[trigger] timeline@[p] == chars@[p]->0,
            forall|p: int| 0 <= p < q ==> #[trigger] section_labels@[p]@ == labels@[p]->0@,
        decreases width - q,
    {
        assert(chars@[q as int] is Some);
        let c = match chars[q] {
            Some(c) => c,
            None => ' ',
        };
        let l = match &labels[q] {
            Some(l) => l.clone(),
            None => String::new(),
        };
        let ghost pt = timeline@;
        let ghost psl = section_labels@;
        crate::text::push_char(&mut timeline, c);
        section_labels.push(l);
        proof {
            assert(timeline@ == pt.push(c));
            assert forall|p: int| 0 <= p < q + 1 implies #[trigger] timeline@[p] == chars@[p]->0 by {
                if p < q {
                    assert(timeline@[p] == pt[p]);
                }
            }
            assert forall|p: int| 0 <= p < q + 1 implies #[trigger] section_labels@[p]@ == labels@[p]->0@ by {
                if p < q {
                    assert(section_labels@[p] == psl[p]);
                }
            }
        }
        q = q + 1;
    }
    proof {
        assert forall|p: int| 0 <= p < width implies column_exact(*model, *settings, lv, now, b0, start_ms as int, ms as int, width as int, has_dynamic, p, #[trigger] timeline@[p], texts(section_labels@)[p]) by {
            assert(timeline@[p] == chars@[p]->0);
            assert(texts(section_labels@)[p] == section_labels@[p]@);
            assert(chars@[p] is Some);
        }
        if fresh_case {
            assert(timeline@ =~= fresh_row(*model, *settings, lv, now, start_ms as int, ms as int, width as int)) by {
                assert forall|p: int| 0 <= p < width implies #[trigger] timeline@[p] == fresh_row(*model, *settings, lv, now, start_ms as int, ms as int, width as int)[p] by {
                    assert(column_exact(*model, *settings, lv, now, b0, start_ms as int, ms as int, width as int, has_dynamic, p, timeline@[p], texts(section_labels@)[p]));
                }
            }
            assert(texts(section_labels@) =~= fresh_label_row(*model, *settings, lv, now, start_ms as int, ms as int, width as int)) by {
                assert forall|p: int| 0 <= p < width implies #[trigger] texts(section_labels@)[p] == fresh_label_row(*model, *settings, lv, now, start_ms as int, ms as int, width as int)[p] by {
                    assert(column_exact(*model, *settings, lv, now, b0, start_ms as int, ms as int, width as int, has_dynamic, p, timeline@[p], texts(section_labels@)[p]));
                }
            }
        }
    }
    (timeline, section_labels)
}

/// Puts together the single timeline `width` columns wide from `start_ms` at the scale of
/// `key`, open logs measured up to `now`, keeping section labels; see `materialized`.
pub fn materialize_single_timeline_at(
    model: &Model,
    settings: &Settings,
    cache: &mut TimelineCache,
    key: &TimelineCacheKey,
    start_ms: u64,
    end_ms: u64,
    width: usize,
    label: Option<&String>,
    now: u64,
) -> (r: (String, Vec<String>))
    requires
        old(cache).wf(),
        model.wf(),
        key.ms_per_character >= 1,
        end_ms == start_ms + key.ms_per_character * width,
        end_ms <= i64::MAX,
        width < usize::MAX,
    ensures
        final(cache).wf(),
        forall|k: TimelineCacheKey| key_view(k) != key_view(*key) ==> #[trigger] final(cache).bucket(k) == old(cache).bucket(k),
        materialized(
            *model,
            *settings,
            opt_label(label),
            now,
            bucket_or_empty(*old(cache), *key),
            start_ms as int,
            key.ms_per_character as int,
            width as int,
            single_dynamic(model.logs@, settings.full, settings.class_arg@),
            r.0@,
            texts(r.1@),
            true,
        ),
        exact_reuse(
            bucket_or_empty(*old(cache), *key),
            start_ms as int,
            key.ms_per_character as int,
            width as int,
            single_dynamic(model.logs@, settings.full, settings.class_arg@),
            now,
        ) ==> *final(cache) == *old(cache),
        fresh_cached(
            *old(cache),
            *final(cache),
            *key,
            start_ms,
            end_ms,
            width,
            single_dynamic(model.logs@, settings.full, settings.class_arg@),
            now,
            r.0@,
            texts(r.1@),
            true,
        ),
        all_copied(
            bucket_or_empty(*old(cache), *key),
            start_ms as int,
            key.ms_per_character as int,
            width as int,
            single_dynamic(model.logs@, settings.full, settings.class_arg@),
            now,
        ) ==> *final(cache) == *old(cache),
{
    let has_dynamic = crate::view::single_has_dynamic_open_log(model, settings);
    materialize_at(model, settings, cache, key, start_ms, end_ms, width, label, has_dynamic, true, now)
}

/// Puts together the single timeline, open logs measured up to the present moment.
pub fn materialize_single_timeline(
    model: &Model,
    settings: &Settings,
    cache: &mut TimelineCache,
    key: &TimelineCacheKey,
    start_ms: u64,
    end_ms: u64,
    width: usize,
    label: Option<&String>,
) -> (r: (String, Vec<String>))
    requires
        old(cache).wf(),
        model.wf(),
        key.ms_per_character >= 1,
        end_ms == start_ms + key.ms_per_character * width,
        end_ms <= i64::MAX,
        width < usize::MAX,
    ensures
        final(cache).wf(),
        exists|now: u64|
            #[trigger] materialized(
                *model,
                *settings,
                opt_label(label),
                now,
                bucket_or_empty(*old(cache), *key),
                start_ms as int,
                key.ms_per_character as int,
                width as int,
                single_dynamic(model.logs@, settings.full, settings.class_arg@),
                r.0@,
                texts(r.1@),
                true,
            ) && (exact_reuse(
                bucket_or_empty(*old(cache), *key),
                start_ms as int,
                key.ms_per_character as int,
                width as int,
                single_dynamic(model.logs@, settings.full, settings.class_arg@),
                now,
            ) ==> *final(cache) == *old(cache)) && fresh_cached(
                *old(cache),
                *final(cache),
                *key,
                start_ms,
                end_ms,
                width,
                single_dynamic(model.logs@, settings.full, settings.class_arg@),
                now,
                r.0@,
                texts(r.1@),
                true,
            ) && (all_copied(
                bucket_or_empty(*old(cache), *key),
                start_ms as int,
                key.ms_per_character as int,
                width as int,
                single_dynamic(model.logs@, settings.full, settings.class_arg@),
                now,
            ) ==> *final(cache) == *old(cache)),
{
    let now = utc_now_millis() as u64;
    materialize_single_timeline_at(model, settings, cache, key, start_ms, end_ms, width, label, now)
}

/// Puts together the timeline of `label` when there is one per label, `width` columns
/// wide from `start_ms` at the scale of `key`, open logs measured up to `now`; its pieces
/// are cached without labels.
pub fn materialize_multi_timeline_at(
    model: &Model,
    settings: &Settings,
    cache: &mut TimelineCache,
    key: &TimelineCacheKey,
    start_ms: u64,
    end_ms: u64,
    width: usize,
    label: &String,
    has_dynamic: bool,
    now: u64,
) -> (r: String)
    requires
        old(cache).wf(),
        model.wf(),
        key.ms_per_character >= 1,
        end_ms == start_ms + key.ms_per_character * width,
        end_ms <= i64::MAX,
        width < usize::MAX,
    ensures
        final(cache).wf(),
        forall|k: TimelineCacheKey| key_view(k) != key_view(*key) ==> #[trigger] final(cache).bucket(k) == old(cache).bucket(k),
        exists|labels: Seq<Seq<char>>|
            #[trigger] materialized(
                *model,
                *settings,
                Some(label@),
                now,
                bucket_or_empty(*old(cache), *key),
                start_ms as int,
                key.ms_per_character as int,
                width as int,
                has_dynamic,
                r@,
                labels,
                false,
            ),
        exact_reuse(bucket_or_empty(*old(cache), *key), start_ms as int, key.ms_per_character as int, width as int, has_dynamic, now)
            ==> *final(cache) == *old(cache),
        fresh_cached(*old(cache), *final(cache), *key, start_ms, end_ms, width, has_dynamic, now, r@, Seq::empty(), false),
        all_copied(bucket_or_empty(*old(cache), *key), start_ms as int, key.ms_per_character as int, width as int, has_dynamic, now)
            ==> *final(cache) == *old(cache),
{
    let (t, ls) = materialize_at(model, settings, cache, key, start_ms, end_ms, width, Some(label), has_dynamic, false, now);
    proof {
        assert(opt_label(Some(label)) == Some(label@));
    }
    t
}

/// Puts together the timeline of `label`, open logs measured up to the present moment.
pub fn materialize_multi_timeline(
    model: &Model,
    settings: &Settings,
    cache: &mut TimelineCache,
    key: &TimelineCacheKey,
    start_ms: u64,
    end_ms: u64,
    width: usize,
    label: &String,
    has_dynamic: bool,
) -> (r: String)
    requires
        old(cache).wf(),
        model.wf(),
        key.ms_per_character >= 1,
        end_ms == start_ms + key.ms_per_character * width,
        end_ms <= i64::MAX,
        width < usize::MAX,
    ensures
        final(cache).wf(),
        exists|now: u64, labels: Seq<Seq<char>>|
            #[trigger] materialized(
                *model,
                *settings,
                Some(label@),
                now,
                bucket_or_empty(*old(cache), *key),
                start_ms as int,
                key.ms_per_character as int,
                width as int,
                has_dynamic,
                r@,
                labels,
                false,
            ) && (exact_reuse(
                bucket_or_empty(*old(cache), *key),
                start_ms as int,
                key.ms_per_character as int,
                width as int,
                has_dynamic,
                now,
            ) ==> *final(cache) == *old(cache)) && fresh_cached(
                *old(cache),
                *final(cache),
                *key,
                start_ms,
                end_ms,
                width,
                has_dynamic,
                now,
                r@,
                Seq::empty(),
                false,
            ) && (all_copied(
                bucket_or_empty(*old(cache), *key),
                start_ms as int,
                key.ms_per_character as int,
                width as int,
                has_dynamic,
                now,
            ) ==> *final(cache) == *old(cache)),
{
    let now = utc_now_millis() as u64;
    materialize_multi_timeline_at(model, settings, cache, key, start_ms, end_ms, width, label, has_dynamic, now)
}

} // verus!
