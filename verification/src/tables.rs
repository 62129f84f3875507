//! The class and title tables: which rows a scrolled window of a given height shows,
//! where the scroll must be for the selected row to show, and what each row says.
use vstd::prelude::*;

use crate::clock::utc_now_millis;
use crate::format::{duration_text, format_duration, truncate_string, truncated};
use crate::model::{clamp_u64, open_extra, Class, Log, Model, Title};
use crate::text::str_equal;
use crate::view::{color_from_index, color_of, Color};

verus! {

/// What the body of a table window shows from `scroll` on, `capacity` rows high, over
/// `len` rows of data: whether an ellipsis row stands on top, whether one stands at the
/// bottom, and how many data rows show. An ellipsis on top takes a row; when not all the
/// remaining rows fit, one row is kept for the ellipsis at the bottom.
pub open spec fn window(scroll: int, capacity: int, len: int) -> (bool, bool, int) {
    if len == 0 || capacity == 0 {
        (false, false, 0)
    } else {
        let top = scroll > 0;
        let slots = if top {
            capacity - 1
        } else {
            capacity
        };
        let remaining = if len > scroll {
            len - scroll
        } else {
            0
        };
        if remaining <= slots {
            (top, false, remaining)
        } else if slots == 0 {
            (top, true, 0)
        } else {
            (top, true, slots - 1)
        }
    }
}

/// The widths of a table's three columns on `width` columns: the name takes what the
/// duration column (`max_duration_width` wide, cut to 16 bits as a cast cuts it) and the
/// percent column (9 wide) leave, none when they leave nothing.
pub fn table_widths(width: u16, max_duration_width: usize) -> (r: (u16, u16, u16))
    requires
        max_duration_width + 9 <= usize::MAX,
    ensures
        r.0 == if width >= ((max_duration_width + 9) as u16) {
            width - ((max_duration_width + 9) as u16)
        } else {
            0
        },
        r.1 == max_duration_width as u16,
        r.2 == 9,
{
    let used = (max_duration_width + 9) as u16;
    let name = if width >= used {
        width - used
    } else {
        0
    };
    (name, max_duration_width as u16, 9)
}

/// Proves that a table window never shows more rows than its body holds: the ellipsis
/// rows and the data rows together fit in `capacity`, except in a body of one row scrolled
/// into the middle of the rows, where both ellipses show.
pub proof fn lemma_window_fits(scroll: int, capacity: int, len: int)
    requires
        0 <= scroll,
        0 <= capacity,
        0 <= len,
        !(capacity == 1 && 0 < scroll < len),
    ensures
        ({
            let (top, bottom, count) = window(scroll, capacity, len);
            (if top {
                1int
            } else {
                0int
            }) + (if bottom {
                1int
            } else {
                0int
            }) + count <= capacity
        }),
{
}

/// What a table window shows; see `window`.
pub fn window_counts(scroll: usize, body_capacity: usize, len: usize) -> (r: (bool, bool, usize))
    ensures
        r.0 == window(scroll as int, body_capacity as int, len as int).0,
        r.1 == window(scroll as int, body_capacity as int, len as int).1,
        r.2 == window(scroll as int, body_capacity as int, len as int).2,
{
    if len == 0 || body_capacity == 0 {
        return (false, false, 0);
    }
    let top_ellipsis = scroll > 0;
    let mut slots = body_capacity;
    if top_ellipsis {
        slots = slots - 1;
    }
    let remaining = if len > scroll {
        len - scroll
    } else {
        0
    };
    if remaining <= slots {
        (top_ellipsis, false, remaining)
    } else if slots == 0 {
        (top_ellipsis, true, 0)
    } else {
        (top_ellipsis, true, slots - 1)
    }
}

/// The selected row `sel` shows among the data rows of a window scrolled to `scroll`.
pub open spec fn shows(scroll: int, sel: int, capacity: int, len: int) -> bool {
    scroll <= sel < scroll + window(scroll, capacity, len).2
}

/// The scroll after one step of keeping `sel` in view: up to it when it lies above, down
/// so that it is the last data row when it lies below.
pub open spec fn scroll_step(scroll: int, sel: int, capacity: int, len: int) -> int {
    if sel < scroll {
        sel
    } else {
        let rows = window(scroll, capacity, len).2;
        if rows == 0 || sel < scroll + rows {
            scroll
        } else {
            let s = sel + 1 - rows;
            if s < len - 1 {
                s
            } else {
                len - 1
            }
        }
    }
}

/// Proves that, with room for at least three rows, four steps of `scroll_step` from any
/// scroll bring a selected row into view.
pub proof fn lemma_scroll_converges(scroll: int, sel: int, capacity: int, len: int)
    requires
        capacity >= 3,
        0 <= sel < len,
        0 <= scroll < len,
    ensures
        ({
            let s1 = scroll_step(scroll, sel, capacity, len);
            let s2 = scroll_step(s1, sel, capacity, len);
            let s3 = scroll_step(s2, sel, capacity, len);
            let s4 = scroll_step(s3, sel, capacity, len);
            shows(s4, sel, capacity, len)
        }),
{
    let s1 = scroll_step(scroll, sel, capacity, len);
    let s2 = scroll_step(s1, sel, capacity, len);
    let s3 = scroll_step(s2, sel, capacity, len);
    let s4 = scroll_step(s3, sel, capacity, len);
    assert(0 <= s1 <= sel);
    lemma_step_from_above(s1, sel, capacity, len);
    lemma_step_from_above(s2, sel, capacity, len);
    lemma_step_from_above(s3, sel, capacity, len);
}

/// One step from a scroll at or above the selected row: the row then shows, or the scroll
/// moves down past the top, after which the next step shows it.
proof fn lemma_step_from_above(scroll: int, sel: int, capacity: int, len: int)
    requires
        capacity >= 3,
        0 <= sel < len,
        0 <= scroll <= sel,
    ensures
        ({
            let s = scroll_step(scroll, sel, capacity, len);
            &&& 0 <= s <= sel
            &&& shows(scroll, sel, capacity, len) ==> s == scroll
            &&& s > 0 && !shows(scroll, sel, capacity, len) ==> shows(s, sel, capacity, len) || scroll
                == 0
            &&& s > 0 ==> shows(scroll_step(s, sel, capacity, len), sel, capacity, len)
        }),
{
    let s = scroll_step(scroll, sel, capacity, len);
    let rows = window(scroll, capacity, len).2;
    assert(rows >= 1);
    if s > 0 {
        let r2 = window(s, capacity, len).2;
        assert(r2 >= 1);
        let s2 = scroll_step(s, sel, capacity, len);
        let r3 = window(s2, capacity, len).2;
    }
}

/// What `adjust_scroll` makes of the scroll `before`: back at the top with no rows or no
/// room; kept within the rows with nothing selected; with a row selected, four steps of
/// `scroll_step` toward it from the scroll kept within the rows, so that with room for
/// three rows or more the selected row (or the last, if it lies beyond) shows.
pub open spec fn scroll_adjusted(before: usize, after: usize, selected: Option<usize>, len: usize, body_capacity: usize) -> bool {
    &&& (len == 0 || body_capacity == 0 ==> after == 0)
    &&& (len > 0 && body_capacity > 0 && selected is None ==> after == if before < len - 1 {
        before
    } else {
        (len - 1) as usize
    })
    &&& (len > 0 && body_capacity >= 3 && selected is Some ==> shows(
        after as int,
        if selected->0 < len - 1 {
            selected->0 as int
        } else {
            len - 1
        },
        body_capacity as int,
        len as int,
    ))
    &&& (len > 0 ==> after < len)
    &&& (len > 0 && body_capacity > 0 && selected is Some ==> after == iterate_step(
        if before < len - 1 {
            before as int
        } else {
            len - 1
        },
        if selected->0 < len - 1 {
            selected->0 as int
        } else {
            len - 1
        },
        body_capacity as int,
        len as int,
        4,
    ))
}

/// Moves `scroll` so that the selected row shows among the data rows, in at most four
/// steps of `scroll_step`; with no rows or no room the scroll goes back to the top.
pub fn adjust_scroll(scroll: &mut usize, selected: Option<usize>, len: usize, body_capacity: usize)
    ensures
        scroll_adjusted(*old(scroll), *final(scroll), selected, len, body_capacity),
{
    if len == 0 || body_capacity == 0 {
        *scroll = 0;
        return;
    }
    if *scroll > len - 1 {
        *scroll = len - 1;
    }
    let sel = match selected {
        Some(s) => if s < len - 1 {
            s
        } else {
            len - 1
        },
        None => return,
    };
    let ghost start = *scroll as int;
    let mut step: usize = 0;
    while step < 4
        invariant
            len > 0,
            body_capacity > 0,
            selected is Some,
            sel as int == if selected->0 < len - 1 {
                selected->0 as int
            } else {
                len - 1
            },
            0 <= start < len,
            start == if *old(scroll) < len - 1 {
                *old(scroll) as int
            } else {
                len - 1
            },
            *scroll < len,
            sel < len,
            step <= 4,
            *scroll as int == iterate_step(start, sel as int, body_capacity as int, len as int, step as nat),
        decreases 4 - step,
    {
        let cur = *scroll;
        if sel < cur {
            *scroll = sel;
        } else {
            let (_, _, rows) = window_counts(cur, body_capacity, len);
            if rows == 0 {
                proof {
                    lemma_iterate_fixed(start, sel as int, body_capacity as int, len as int, step as nat);
                    lemma_four_steps(start, sel as int, body_capacity as int, len as int);
                }
                return;
            }
            if sel >= cur + rows {
                let s = sel + 1 - rows;
                *scroll = if s < len - 1 {
                    s
                } else {
                    len - 1
                };
            } else {
                proof {
                    lemma_iterate_fixed(start, sel as int, body_capacity as int, len as int, step as nat);
                    lemma_four_steps(start, sel as int, body_capacity as int, len as int);
                }
                return;
            }
        }
        step = step + 1;
    }
    proof {
        lemma_four_steps(start, sel as int, body_capacity as int, len as int);
    }
}

/// Four steps from `scroll` bring the selected row into view when there is room for three
/// rows.
proof fn lemma_four_steps(scroll: int, sel: int, capacity: int, len: int)
    requires
        0 <= sel < len,
        0 <= scroll < len,
    ensures
        capacity >= 3 ==> shows(iterate_step(scroll, sel, capacity, len, 4), sel, capacity, len),
{
    reveal_with_fuel(iterate_step, 5);
    if capacity >= 3 {
        lemma_scroll_converges(scroll, sel, capacity, len);
    }
}

/// `scroll_step` taken `n` times.
pub open spec fn iterate_step(scroll: int, sel: int, capacity: int, len: int, n: nat) -> int
    decreases n,
{
    if n == 0 {
        scroll
    } else {
        scroll_step(iterate_step(scroll, sel, capacity, len, (n - 1) as nat), sel, capacity, len)
    }
}

/// Once a step leaves the scroll where it is, every later step does too.
proof fn lemma_iterate_fixed(scroll: int, sel: int, capacity: int, len: int, n: nat)
    requires
        scroll_step(iterate_step(scroll, sel, capacity, len, n), sel, capacity, len)
            == iterate_step(scroll, sel, capacity, len, n),
    ensures
        iterate_step(scroll, sel, capacity, len, 4) == iterate_step(scroll, sel, capacity, len, n)
            || n > 4,
    decreases 4 - n,
{
    if n < 4 {
        assert(iterate_step(scroll, sel, capacity, len, n + 1) == iterate_step(scroll, sel, capacity, len, n));
        lemma_iterate_fixed(scroll, sel, capacity, len, n + 1);
    }
}

/// What a row of a table is: a data row, an ellipsis standing for rows that do not show,
/// a blank filler, or the total pinned at the bottom.
#[derive(PartialEq, Eq, Structural, Clone, Copy, Debug)]
pub enum RowKind {
    Data,
    Ellipsis,
    Blank,
    Total,
}

/// Where a row of a table window comes from: an ellipsis, the data row at a position, a
/// blank filler, or the total.
#[derive(PartialEq, Eq, Structural, Clone, Copy, Debug)]
pub enum Slot {
    Ellipsis,
    Data(usize),
    Blank,
    Total,
}

/// One row of a table: its name, its duration as text, the duration and the total it is
/// a share of, its colour when it has one, and whether it is shown reversed (selected).
pub struct TableRow {
    pub kind: RowKind,
    pub name: String,
    pub duration: String,
    pub share: Option<(u64, u64)>,
    pub color: Option<Color>,
    pub reversed: bool,
}

/// The rows of a table, and the width its duration column needs.
pub struct TableRows {
    pub rows: Vec<TableRow>,
    pub duration_width: usize,
}

/// The scroll clamped to the last row.
pub open spec fn clamp_scroll(scroll: int, len: int) -> int {
    if len == 0 {
        0
    } else if scroll < len - 1 {
        scroll
    } else {
        len - 1
    }
}

/// The rows of a table window, top to bottom: the ellipsis on top if any, the data rows
/// that show, the ellipsis at the bottom if any, blank rows until the body is full, and
/// the total.
pub open spec fn layout(scroll: int, capacity: int, len: int) -> Seq<Slot> {
    let sc = clamp_scroll(scroll, len);
    let (top, bottom, count) = window(sc, capacity, len);
    let body = (if top {
        seq![Slot::Ellipsis]
    } else {
        Seq::empty()
    }) + Seq::new(count as nat, |k: int| Slot::Data((sc + k) as usize)) + (if bottom {
        seq![Slot::Ellipsis]
    } else {
        Seq::empty()
    });
    let pad = if body.len() < capacity {
        capacity - body.len()
    } else {
        0
    };
    body + Seq::new(pad as nat, |k: int| Slot::Blank) + seq![Slot::Total]
}

/// An ellipsis row.
pub open spec fn ellipsis_row_ok(r: TableRow, max_len: int) -> bool {
    &&& r.kind == RowKind::Ellipsis
    &&& truncated(seq!['.', '.', '.'], max_len, r.name@)
    &&& r.duration@ == seq![' ']
    &&& r.share is None
    &&& r.color is None
    &&& !r.reversed
}

/// A blank row.
pub open spec fn blank_row_ok(r: TableRow) -> bool {
    &&& r.kind == RowKind::Blank
    &&& r.name@ == Seq::<char>::empty()
    &&& r.duration@ == Seq::<char>::empty()
    &&& r.share is None
    &&& r.color is None
    &&& !r.reversed
}

/// The total row.
pub open spec fn total_row_ok(r: TableRow, max_len: int, total: u64) -> bool {
    &&& r.kind == RowKind::Total
    &&& truncated(seq!['T', 'o', 't', 'a', 'l'], max_len, r.name@)
    &&& r.duration@ == duration_text(total as nat)
    &&& r.share == Some((total, total))
    &&& r.color is None
    &&& !r.reversed
}

/// A data row for `name` with duration `d` of `total`.
pub open spec fn data_row_ok(
    r: TableRow,
    max_len: int,
    name: Seq<char>,
    d: u64,
    total: u64,
    color: Option<Color>,
    reversed: bool,
) -> bool {
    &&& r.kind == RowKind::Data
    &&& truncated(name, max_len, r.name@)
    &&& r.duration@ == duration_text(d as nat)
    &&& r.share == Some((d, total))
    &&& r.color == color
    &&& r.reversed == reversed
}

/// The time shown for a class: what it has recorded plus, if its last log is open, that
/// log up to `now`.
pub open spec fn class_time(c: Class, logs: Seq<Log>, now: u64) -> u64 {
    clamp_u64(c.recorded() + open_extra(logs, c.logs@, now))
}

/// The time shown for a title, as for a class.
pub open spec fn title_time(t: Title, logs: Seq<Log>, now: u64) -> u64 {
    clamp_u64(t.recorded() + open_extra(logs, t.logs@, now))
}

/// The times of the classes added up.
pub open spec fn classes_time(cs: Seq<Class>, logs: Seq<Log>, now: u64) -> nat
    decreases cs.len(),
{
    if cs.len() == 0 {
        0
    } else {
        classes_time(cs.drop_last(), logs, now) + class_time(cs.last(), logs, now) as nat
    }
}

/// The width the duration column needs: that of `Duration` or of the total, the wider.
pub open spec fn duration_width(total: u64) -> int {
    if duration_text(total as nat).len() > 8 {
        duration_text(total as nat).len() as int
    } else {
        8
    }
}

/// The rows of the class table; the selected class, when there is one, is matched by its
/// name and its position.
pub open spec fn class_rows_ok(
    rows: Seq<TableRow>,
    classes: Seq<Class>,
    logs: Seq<Log>,
    selected: Option<(Seq<char>, usize)>,
    scroll: int,
    capacity: int,
    max_len: int,
    now: u64,
) -> bool {
    let lay = layout(scroll, capacity, classes.len() as int);
    let total = clamp_u64(classes_time(classes, logs, now));
    &&& rows.len() == lay.len()
    &&& forall|k: int|
        0 <= k < rows.len() ==> row_fits(rows[k], #[trigger] lay[k], classes, logs, selected, max_len, now, total)
}

/// A row that is not a data row fits its slot.
pub open spec fn tail_fits(r: TableRow, slot: Slot, max_len: int, total: u64) -> bool {
    match slot {
        Slot::Ellipsis => ellipsis_row_ok(r, max_len),
        Slot::Blank => blank_row_ok(r),
        Slot::Total => total_row_ok(r, max_len, total),
        Slot::Data(_) => false,
    }
}

/// The view of a selection: a name and a position.
pub open spec fn selection_view(s: Option<(String, usize)>) -> Option<(Seq<char>, usize)> {
    match s {
        Some((n, i)) => Some((n@, i)),
        None => None,
    }
}

fn ellipsis_row(max_string_length: usize) -> (r: TableRow)
    ensures
        ellipsis_row_ok(r, max_string_length as int),
{
    let dots = "...";
    proof {
        reveal_strlit("...");
        assert(dots@ == seq!['.', '.', '.']);
    }
    let space = " ";
    proof {
        reveal_strlit(" ");
        assert(space@ == seq![' ']);
    }
    TableRow {
        kind: RowKind::Ellipsis,
        name: truncate_string(dots, max_string_length),
        duration: space.to_owned(),
        share: None,
        color: None,
        reversed: false,
    }
}

fn blank_row() -> (r: TableRow)
    ensures
        blank_row_ok(r),
{
    TableRow {
        kind: RowKind::Blank,
        name: String::new(),
        duration: String::new(),
        share: None,
        color: None,
        reversed: false,
    }
}

fn total_row(max_string_length: usize, total: u64) -> (r: TableRow)
    ensures
        total_row_ok(r, max_string_length as int, total),
{
    let word = "Total";
    proof {
        reveal_strlit("Total");
        assert(word@ == seq!['T', 'o', 't', 'a', 'l']);
    }
    TableRow {
        kind: RowKind::Total,
        name: truncate_string(word, max_string_length),
        duration: format_duration(total),
        share: Some((total, total)),
        color: None,
        reversed: false,
    }
}

/// The class times added up, saturating at `u64::MAX`.
fn sum_class_times(model: &Model, now: u64) -> (r: u64)
    requires
        model.wf(),
    ensures
        r == clamp_u64(classes_time(model.classes@, model.logs@, now)),
{
    let mut sum: u128 = 0;
    let mut i: usize = 0;
    while i < model.classes.len()
        invariant
            i <= model.classes.len(),
            model.wf(),
            sum == classes_time(model.classes@.take(i as int), model.logs@, now),
            sum <= u64::MAX * i,
        decreases model.classes.len() - i,
    {
        proof {
            assert(model.classes@.take(i + 1).drop_last() =~= model.classes@.take(i as int));
            assert(crate::model::class_ok(model.logs@, model.mapped@, model.classes@[i as int]));
            let c = model.classes@[i as int];
            if c.logs.len() > 0 {
                assert(c.logs@[c.logs.len() - 1] < model.logs.len());
            }
            assert(u64::MAX * (i + 1) <= u128::MAX) by (nonlinear_arith)
                requires
                    i < usize::MAX,
            ;
        }
        let d = model.classes[i].total_duration_at(&model.logs, now);
        proof {
            assert(d == class_time(model.classes@[i as int], model.logs@, now));
        }
        sum = sum + d as u128;
        i = i + 1;
    }
    proof {
        assert(model.classes@.take(model.classes.len() as int) =~= model.classes@);
    }
    if sum > u64::MAX as u128 {
        u64::MAX
    } else {
        sum as u64
    }
}

/// The facts of `layout` that the builders rely on, position by position.
proof fn lemma_layout(scroll: int, capacity: int, len: int)
    requires
        0 <= scroll,
        0 <= capacity,
        0 <= len,
    ensures
        ({
            let sc = clamp_scroll(scroll, len);
            let (top, bottom, count) = window(sc, capacity, len);
            let lay = layout(scroll, capacity, len);
            let t: int = if top {
                1
            } else {
                0
            };
            let b: int = if bottom {
                1
            } else {
                0
            };
            let body = t + count + b;
            let full = if body < capacity {
                capacity
            } else {
                body
            };
            &&& 0 <= count
            &&& sc + count <= len
            &&& 0 <= sc
            &&& (len > 0 ==> sc < len)
            &&& lay.len() == full + 1
            &&& top ==> lay[0] == Slot::Ellipsis
            &&& forall|p: int| t <= p < t + count ==> #[trigger] lay[p] == Slot::Data((sc + p - t) as usize)
            &&& bottom ==> lay[t + count] == Slot::Ellipsis
            &&& forall|k: int| body <= k < full ==> #[trigger] lay[k] == Slot::Blank
            &&& lay[full] == Slot::Total
        }),
{
    let sc = clamp_scroll(scroll, len);
    let (top, bottom, count) = window(sc, capacity, len);
    let body_seq = (if top {
        seq![Slot::Ellipsis]
    } else {
        Seq::empty()
    }) + Seq::new(count as nat, |k: int| Slot::Data((sc + k) as usize)) + (if bottom {
        seq![Slot::Ellipsis]
    } else {
        Seq::empty()
    });
    let t: int = if top {
        1
    } else {
        0
    };
    assert(body_seq.len() == t + count + if bottom {
        1int
    } else {
        0int
    });
    assert forall|p: int| t <= p < t + count implies #[trigger] body_seq[p] == Slot::Data((sc + p - t) as usize) by {
    }
}

/// The rows of the class table with open logs measured up to `now`; see `class_rows_ok`.
/// Names are cut to `max_string_length` bytes.
pub fn build_class_table_at(
    model: &Model,
    selected_class: &Option<(String, usize)>,
    scroll: usize,
    body_capacity: usize,
    max_string_length: usize,
    now: u64,
) -> (r: TableRows)
    requires
        model.wf(),
        body_capacity < usize::MAX - 1,
    ensures
        class_rows_ok(
            r.rows@,
            model.classes@,
            model.logs@,
            selection_view(*selected_class),
            scroll as int,
            body_capacity as int,
            max_string_length as int,
            now,
        ),
        r.duration_width == duration_width(clamp_u64(classes_time(model.classes@, model.logs@, now))),
{
    let len = model.classes.len();
    let sc = if len == 0 {
        0
    } else if scroll < len - 1 {
        scroll
    } else {
        len - 1
    };
    let total = sum_class_times(model, now);
    let total_text = format_duration(total);
    let tw = total_text.as_str().unicode_len();
    let dw = if tw > 8 {
        tw
    } else {
        8
    };
    let (top, bottom, count) = window_counts(sc, body_capacity, len);
    let ghost lay = layout(scroll as int, body_capacity as int, len as int);
    let ghost sel = selection_view(*selected_class);
    let ghost logs = model.logs@;
    let ghost classes = model.classes@;
    proof {
        lemma_layout(scroll as int, body_capacity as int, len as int);
    }
    let mut rows: Vec<TableRow> = Vec::new();
    if top {
        rows.push(ellipsis_row(max_string_length));
    }
    let ghost t: int = if top {
        1
    } else {
        0
    };
    let mut i: usize = sc;
    while i < sc + count
        invariant
            model.wf(),
            sc <= i <= sc + count <= len,
            len == model.classes.len(),
            classes == model.classes@,
            logs == model.logs@,
            sel == selection_view(*selected_class),
            lay == layout(scroll as int, body_capacity as int, len as int),
            sc == clamp_scroll(scroll as int, len as int),
            top == window(sc as int, body_capacity as int, len as int).0,
            bottom == window(sc as int, body_capacity as int, len as int).1,
            count == window(sc as int, body_capacity as int, len as int).2,
            t == if top {
                1int
            } else {
                0int
            },
            total == clamp_u64(classes_time(classes, logs, now)),
            top ==> lay[0] == Slot::Ellipsis,
            forall|p: int| t <= p < t + count ==> #[trigger] lay[p] == Slot::Data((sc + p - t) as usize),
            rows@.len() == t + (i - sc),
            forall|k: int|
                0 <= k < rows@.len() ==> row_fits(rows@[k], #[trigger] lay[k], classes, logs, sel, max_string_length as int, now, total),
        decreases sc + count - i,
    {
        let class = &model.classes[i];
        proof {
            assert(crate::model::class_ok(logs, model.mapped@, classes[i as int]));
            if class.logs.len() > 0 {
                assert(class.logs@[class.logs.len() - 1] < model.logs.len());
            }
        }
        let d = class.total_duration_at(&model.logs, now);
        let is_selected = match selected_class {
            Some((name, idx)) => *idx == i && str_equal(name.as_str(), class.class.as_str()),
            None => false,
        };
        let color = match selected_class {
            Some(_) => None,
            None => Some(color_from_index(i)),
        };
        let row = TableRow {
            kind: RowKind::Data,
            name: truncate_string(class.class.as_str(), max_string_length),
            duration: format_duration(d),
            share: Some((d, total)),
            color,
            reversed: is_selected,
        };
        let ghost prev = rows@;
        rows.push(row);
        proof {
            assert(lay[t + (i - sc)] == Slot::Data(i));
            assert forall|k: int|
                0 <= k < rows@.len() implies row_fits(rows@[k], #[trigger] lay[k], classes, logs, sel, max_string_length as int, now, total) by {
                if k < prev.len() {
                    assert(rows@[k] == prev[k]);
                }
            }
        }
        i = i + 1;
    }
    let ghost before = rows@;
    finish_rows(&mut rows, bottom, body_capacity, max_string_length, total, Ghost(lay));
    proof {
        assert forall|k: int|
            0 <= k < rows@.len() implies row_fits(rows@[k], #[trigger] lay[k], classes, logs, sel, max_string_length as int, now, total) by {
            if k < before.len() {
                assert(rows@[k] == before[k]);
            } else {
                assert(tail_fits(rows@[k], lay[k], max_string_length as int, total));
            }
        }
    }
    TableRows { rows, duration_width: dw }
}

/// A row fits the slot it stands in.
pub open spec fn row_fits(
    r: TableRow,
    slot: Slot,
    classes: Seq<Class>,
    logs: Seq<Log>,
    selected: Option<(Seq<char>, usize)>,
    max_len: int,
    now: u64,
    total: u64,
) -> bool {
    match slot {
        Slot::Data(i) => data_row_ok(
            r,
            max_len,
            classes[i as int].class@,
            class_time(classes[i as int], logs, now),
            total,
            if selected is None {
                Some(color_of(i as int))
            } else {
                None
            },
            selected == Some((classes[i as int].class@, i)),
        ),
        _ => tail_fits(r, slot, max_len, total),
    }
}

/// Appends the bottom ellipsis when there is one, blank rows until the body holds
/// `capacity` rows, and the total.
fn finish_rows(
    rows: &mut Vec<TableRow>,
    bottom: bool,
    capacity: usize,
    max_string_length: usize,
    total: u64,
    Ghost(lay): Ghost<Seq<Slot>>,
)
    requires
        capacity < usize::MAX - 1,
        old(rows)@.len() <= capacity,
        ({
            let n = old(rows)@.len() as int;
            let body = n + if bottom {
                1int
            } else {
                0int
            };
            let full = if body < capacity {
                capacity as int
            } else {
                body
            };
            &&& lay.len() == full + 1
            &&& bottom ==> lay[n] == Slot::Ellipsis
            &&& forall|k: int| body <= k < full ==> #[trigger] lay[k] == Slot::Blank
            &&& lay[full] == Slot::Total
        }),
    ensures
        final(rows)@.len() == lay.len(),
        forall|k: int| 0 <= k < old(rows)@.len() ==> final(rows)@[k] == old(rows)@[k],
        forall|k: int|
            old(rows)@.len() <= k < final(rows)@.len() ==> tail_fits(final(rows)@[k], #[trigger] lay[k], max_string_length as int, total),
{
    let ghost r0 = rows@;
    if bottom {
        rows.push(ellipsis_row(max_string_length));
    }
    while rows.len() < capacity
        invariant
            capacity < usize::MAX,
            r0.len() <= rows@.len() <= if r0.len() + (if bottom { 1int } else { 0int }) < capacity {
                capacity as int
            } else {
                r0.len() + if bottom { 1int } else { 0int }
            },
            rows@.len() >= r0.len() + if bottom { 1int } else { 0int },
            ({
                let body = r0.len() + if bottom {
                    1int
                } else {
                    0int
                };
                let full = if body < capacity {
                    capacity as int
                } else {
                    body
                };
                &&& lay.len() == full + 1
                &&& bottom ==> lay[r0.len() as int] == Slot::Ellipsis
                &&& forall|k: int| body <= k < full ==> #[trigger] lay[k] == Slot::Blank
                &&& lay[full] == Slot::Total
            }),
            forall|k: int| 0 <= k < r0.len() ==> rows@[k] == r0[k],
            forall|k: int|
                r0.len() <= k < rows@.len() ==> tail_fits(rows@[k], #[trigger] lay[k], max_string_length as int, total),
        decreases capacity - rows@.len(),
    {
        rows.push(blank_row());
    }
    rows.push(total_row(max_string_length, total));
}

/// The class whose titles the title table lists: the selected one, found by its position,
/// when that position exists.
pub open spec fn chosen_class(classes: Seq<Class>, selected: Option<(Seq<char>, usize)>) -> Option<int> {
    match selected {
        Some((_, idx)) => if idx < classes.len() {
            Some(idx as int)
        } else {
            None
        },
        None => None,
    }
}

/// The number of rows of the title table.
pub open spec fn title_len(classes: Seq<Class>, titles: Seq<(usize, usize)>, chosen: Option<int>) -> int {
    match chosen {
        Some(c) => classes[c].titles.len() as int,
        None => titles.len() as int,
    }
}

/// The total of the title table: that of the chosen class, else that of all classes.
pub open spec fn title_total(classes: Seq<Class>, logs: Seq<Log>, chosen: Option<int>, now: u64) -> u64 {
    match chosen {
        Some(c) => class_time(classes[c], logs, now),
        None => clamp_u64(classes_time(classes, logs, now)),
    }
}

/// A row of the title table fits its slot: the titles of the chosen class, coloured by
/// position and reversed when selected; else every title in the model's order, coloured
/// by its class.
pub open spec fn title_row_fits(
    r: TableRow,
    slot: Slot,
    classes: Seq<Class>,
    titles: Seq<(usize, usize)>,
    logs: Seq<Log>,
    chosen: Option<int>,
    selected_title: Option<(Seq<char>, usize)>,
    max_len: int,
    now: u64,
    total: u64,
) -> bool {
    match slot {
        Slot::Data(i) => match chosen {
            Some(c) => {
                let t = classes[c].titles@[i as int];
                data_row_ok(
                    r,
                    max_len,
                    t.title@,
                    title_time(t, logs, now),
                    total,
                    Some(color_of(i as int)),
                    selected_title == Some((t.title@, i)),
                )
            },
            None => {
                let (ci, ti) = titles[i as int];
                let t = classes[ci as int].titles@[ti as int];
                data_row_ok(
                    r,
                    max_len,
                    t.title@,
                    title_time(t, logs, now),
                    total,
                    Some(color_of(ci as int)),
                    false,
                )
            },
        },
        _ => tail_fits(r, slot, max_len, total),
    }
}

/// The rows of the title table.
pub open spec fn title_rows_ok(
    rows: Seq<TableRow>,
    classes: Seq<Class>,
    titles: Seq<(usize, usize)>,
    logs: Seq<Log>,
    selected_class: Option<(Seq<char>, usize)>,
    selected_title: Option<(Seq<char>, usize)>,
    scroll: int,
    capacity: int,
    max_len: int,
    now: u64,
) -> bool {
    let chosen = chosen_class(classes, selected_class);
    let lay = layout(scroll, capacity, title_len(classes, titles, chosen));
    let total = title_total(classes, logs, chosen, now);
    &&& rows.len() == lay.len()
    &&& forall|k: int|
        0 <= k < rows.len() ==> title_row_fits(
            rows[k],
            #[trigger] lay[k],
            classes,
            titles,
            logs,
            chosen,
            selected_title,
            max_len,
            now,
            total,
        )
}

/// The number of rows and the total of the title table, for the class at `chosen` or for
/// all classes.
fn title_len_total(model: &Model, chosen: Option<usize>, now: u64) -> (r: (usize, u64))
    requires
        model.wf(),
        chosen matches Some(c) ==> c < model.classes.len(),
    ensures
        r.0 == title_len(model.classes@, model.titles@, match chosen {
            Some(c) => Some(c as int),
            None => None::<int>,
        }),
        r.1 == title_total(model.classes@, model.logs@, match chosen {
            Some(c) => Some(c as int),
            None => None::<int>,
        }, now),
{
    match chosen {
        Some(c) => {
            proof {
                let cl = model.classes@[c as int];
                assert(crate::model::class_ok(model.logs@, model.mapped@, cl));
                if cl.logs.len() > 0 {
                    assert(cl.logs@[cl.logs.len() - 1] < model.logs.len());
                }
            }
            (model.classes[c].titles.len(), model.classes[c].total_duration_at(&model.logs, now))
        },
        None => (model.titles.len(), sum_class_times(model, now)),
    }
}

/// The data row of the `i`th title of the class at `c`.
fn chosen_title_row(
    model: &Model,
    c: usize,
    i: usize,
    selected_title: &Option<(String, usize)>,
    total: u64,
    max_string_length: usize,
    now: u64,
) -> (r: TableRow)
    requires
        model.wf(),
        c < model.classes.len(),
        i < model.classes@[c as int].titles.len(),
    ensures
        ({
            let t = model.classes@[c as int].titles@[i as int];
            data_row_ok(
                r,
                max_string_length as int,
                t.title@,
                title_time(t, model.logs@, now),
                total,
                Some(color_of(i as int)),
                selection_view(*selected_title) == Some((t.title@, i)),
            )
        }),
{
    let title = &model.classes[c].titles[i];
    proof {
        let cl = model.classes@[c as int];
        assert(crate::model::class_ok(model.logs@, model.mapped@, cl));
        assert(crate::model::title_ok(model.logs@, cl.logs@, cl.titles@[i as int]));
        if title.logs.len() > 0 {
            assert(title.logs@[title.logs.len() - 1] < model.logs.len());
        }
    }
    let d = title.total_duration_at(&model.logs, now);
    let is_selected = match selected_title {
        Some((name, idx)) => *idx == i && str_equal(name.as_str(), title.title.as_str()),
        None => false,
    };
    TableRow {
        kind: RowKind::Data,
        name: truncate_string(title.title.as_str(), max_string_length),
        duration: format_duration(d),
        share: Some((d, total)),
        color: Some(color_from_index(i)),
        reversed: is_selected,
    }
}

/// The data row of the `i`th title of the model's list of titles.
fn listed_title_row(model: &Model, i: usize, total: u64, max_string_length: usize, now: u64) -> (r:
    TableRow)
    requires
        model.wf(),
        !model.titles_dirty,
        i < model.titles.len(),
    ensures
        ({
            let (ci, ti) = model.titles@[i as int];
            let t = model.classes@[ci as int].titles@[ti as int];
            data_row_ok(
                r,
                max_string_length as int,
                t.title@,
                title_time(t, model.logs@, now),
                total,
                Some(color_of(ci as int)),
                false,
            )
        }),
{
    let (ci, ti) = model.titles[i];
    proof {
        assert(crate::model::title_pairs_ok(model.classes@, model.titles@));
        assert(ci < model.classes.len() && ti < model.classes@[ci as int].titles.len());
        let cl = model.classes@[ci as int];
        assert(crate::model::class_ok(model.logs@, model.mapped@, cl));
        assert(crate::model::title_ok(model.logs@, cl.logs@, cl.titles@[ti as int]));
    }
    let title = &model.classes[ci].titles[ti];
    proof {
        if title.logs.len() > 0 {
            assert(title.logs@[title.logs.len() - 1] < model.logs.len());
        }
    }
    let d = title.total_duration_at(&model.logs, now);
    TableRow {
        kind: RowKind::Data,
        name: truncate_string(title.title.as_str(), max_string_length),
        duration: format_duration(d),
        share: Some((d, total)),
        color: Some(color_from_index(ci)),
        reversed: false,
    }
}

/// The rows of the title table with open logs measured up to `now`; see `title_rows_ok`.
/// When no class is chosen the model's list of titles must be current.
#[verifier::rlimit(30)]
pub fn build_title_table_at(
    model: &Model,
    selected_class: &Option<(String, usize)>,
    selected_title: &Option<(String, usize)>,
    scroll: usize,
    body_capacity: usize,
    max_string_length: usize,
    now: u64,
) -> (r: TableRows)
    requires
        model.wf(),
        body_capacity < usize::MAX - 1,
        chosen_class(model.classes@, selection_view(*selected_class)) is None ==> !model.titles_dirty,
    ensures
        title_rows_ok(
            r.rows@,
            model.classes@,
            model.titles@,
            model.logs@,
            selection_view(*selected_class),
            selection_view(*selected_title),
            scroll as int,
            body_capacity as int,
            max_string_length as int,
            now,
        ),
        r.duration_width == duration_width(
            title_total(model.classes@, model.logs@, chosen_class(model.classes@, selection_view(*selected_class)), now),
        ),
{
    let ghost classes = model.classes@;
    let ghost logs = model.logs@;
    let ghost titles = model.titles@;
    let ghost st = selection_view(*selected_title);
    let chosen: Option<usize> = match selected_class {
        Some((_, idx)) => if *idx < model.classes.len() {
            Some(*idx)
        } else {
            None
        },
        None => None,
    };
    let ghost chosen_g = chosen_class(classes, selection_view(*selected_class));
    assert(chosen_g == match chosen {
        Some(c) => Some(c as int),
        None => None::<int>,
    });
    let (len, total) = title_len_total(model, chosen, now);
    let sc = if len == 0 {
        0
    } else if scroll < len - 1 {
        scroll
    } else {
        len - 1
    };
    let total_text = format_duration(total);
    let tw = total_text.as_str().unicode_len();
    let dw = if tw > 8 {
        tw
    } else {
        8
    };
    let (top, bottom, count) = window_counts(sc, body_capacity, len);
    let ghost lay = layout(scroll as int, body_capacity as int, len as int);
    proof {
        lemma_layout(scroll as int, body_capacity as int, len as int);
    }
    let mut rows: Vec<TableRow> = Vec::new();
    if top {
        rows.push(ellipsis_row(max_string_length));
    }
    let ghost t: int = if top {
        1
    } else {
        0
    };
    let mut i: usize = sc;
    while i < sc + count
        invariant
            model.wf(),
            sc <= i <= sc + count <= len,
            classes == model.classes@,
            logs == model.logs@,
            titles == model.titles@,
            st == selection_view(*selected_title),
            chosen_g == match chosen {
                Some(c) => Some(c as int),
                None => None::<int>,
            },
            chosen matches Some(c) ==> c < model.classes.len() && len == model.classes@[c as int].titles.len(),
            chosen is None ==> len == model.titles.len() && !model.titles_dirty,
            lay == layout(scroll as int, body_capacity as int, len as int),
            sc == clamp_scroll(scroll as int, len as int),
            top == window(sc as int, body_capacity as int, len as int).0,
            bottom == window(sc as int, body_capacity as int, len as int).1,
            count == window(sc as int, body_capacity as int, len as int).2,
            t == if top {
                1int
            } else {
                0int
            },
            total == title_total(classes, logs, chosen_g, now),
            top ==> lay[0] == Slot::Ellipsis,
            forall|p: int| t <= p < t + count ==> #[trigger] lay[p] == Slot::Data((sc + p - t) as usize),
            rows@.len() == t + (i - sc),
            forall|k: int|
                0 <= k < rows@.len() ==> title_row_fits(
                    rows@[k],
                    #[trigger] lay[k],
                    classes,
                    titles,
                    logs,
                    chosen_g,
                    st,
                    max_string_length as int,
                    now,
                    total,
                ),
        decreases sc + count - i,
    {
        let row = match chosen {
            Some(c) => chosen_title_row(model, c, i, selected_title, total, max_string_length, now),
            None => listed_title_row(model, i, total, max_string_length, now),
        };
        let ghost prev = rows@;
        rows.push(row);
        proof {
            assert(lay[t + (i - sc)] == Slot::Data(i));
            assert forall|k: int|
                0 <= k < rows@.len() implies title_row_fits(
                    rows@[k],
                    #[trigger] lay[k],
                    classes,
                    titles,
                    logs,
                    chosen_g,
                    st,
                    max_string_length as int,
                    now,
                    total,
                ) by {
                if k < prev.len() {
                    assert(rows@[k] == prev[k]);
                }
            }
        }
        i = i + 1;
    }
    let ghost before = rows@;
    finish_rows(&mut rows, bottom, body_capacity, max_string_length, total, Ghost(lay));
    proof {
        assert forall|k: int|
            0 <= k < rows@.len() implies title_row_fits(
                rows@[k],
                #[trigger] lay[k],
                classes,
                titles,
                logs,
                chosen_g,
                st,
                max_string_length as int,
                now,
                total,
            ) by {
            if k < before.len() {
                assert(rows@[k] == before[k]);
            } else {
                assert(tail_fits(rows@[k], lay[k], max_string_length as int, total));
            }
        }
    }
    TableRows { rows, duration_width: dw }
}

/// The rows of the class table, open logs measured up to the present moment.
pub fn build_class_table(
    model: &Model,
    selected_class: &Option<(String, usize)>,
    scroll: usize,
    body_capacity: usize,
    max_string_length: usize,
) -> (r: TableRows)
    requires
        model.wf(),
        body_capacity < usize::MAX - 1,
    ensures
        exists|now: u64|
            #[trigger] class_rows_ok(
                r.rows@,
                model.classes@,
                model.logs@,
                selection_view(*selected_class),
                scroll as int,
                body_capacity as int,
                max_string_length as int,
                now,
            ),
{
    let now = utc_now_millis() as u64;
    build_class_table_at(model, selected_class, scroll, body_capacity, max_string_length, now)
}

/// The rows of the title table, open logs measured up to the present moment.
pub fn build_title_table(
    model: &Model,
    selected_class: &Option<(String, usize)>,
    selected_title: &Option<(String, usize)>,
    scroll: usize,
    body_capacity: usize,
    max_string_length: usize,
) -> (r: TableRows)
    requires
        model.wf(),
        body_capacity < usize::MAX - 1,
        chosen_class(model.classes@, selection_view(*selected_class)) is None ==> !model.titles_dirty,
    ensures
        exists|now: u64|
            #[trigger] title_rows_ok(
                r.rows@,
                model.classes@,
                model.titles@,
                model.logs@,
                selection_view(*selected_class),
                selection_view(*selected_title),
                scroll as int,
                body_capacity as int,
                max_string_length as int,
                now,
            ),
{
    let now = utc_now_millis() as u64;
    build_title_table_at(model, selected_class, selected_title, scroll, body_capacity, max_string_length, now)
}

} // verus!
