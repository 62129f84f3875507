//! Text for the screen: shortened names, durations, decimal numbers.
use vstd::prelude::*;

use crate::text::{chars_of, push_char, repeat_char, repeat_seq, string_of};

verus! {

/// The bytes UTF-8 takes for `c`.
pub open spec fn utf8_width(c: char) -> nat {
    if (c as u32) < 0x80 {
        1
    } else if (c as u32) < 0x800 {
        2
    } else if (c as u32) < 0x10000 {
        3
    } else {
        4
    }
}

/// The bytes UTF-8 takes for `s`.
pub open spec fn utf8_len(s: Seq<char>) -> nat
    decreases s.len(),
{
    if s.len() == 0 {
        0
    } else {
        utf8_len(s.drop_last()) + utf8_width(s.last())
    }
}

/// The first `k` characters of `s` take at most `budget` bytes, and one more would not fit
/// (or there is none): `k` is where a byte budget cuts `s` on a character boundary.
pub open spec fn cut_point(s: Seq<char>, budget: int, k: int) -> bool {
    &&& 0 <= k <= s.len()
    &&& utf8_len(s.take(k)) <= budget
    &&& (k == s.len() || utf8_len(s.take(k + 1)) > budget)
}

/// `r` is `s` cut to at most `max_len` bytes as `truncate_string` cuts it.
pub open spec fn truncated(s: Seq<char>, max_len: int, r: Seq<char>) -> bool {
    &&& utf8_len(s) <= max_len ==> r == s
    &&& utf8_len(s) > max_len && max_len > 3 ==> exists|k: int|
        #[trigger] cut_point(s, max_len - 3, k) && r == s.take(k) + seq!['.', '.', '.']
    &&& utf8_len(s) > max_len && max_len <= 3 ==> r == repeat_seq('.', max_len as nat)
}

/// The digit character for `d` below ten.
pub open spec fn digit_char(d: nat) -> char {
    ((d + 48) as u32) as char
}

/// `n` in decimal, without leading zeros.
pub open spec fn decimal(n: nat) -> Seq<char>
    decreases n,
{
    if n < 10 {
        seq![digit_char(n)]
    } else {
        decimal(n / 10).push(digit_char(n % 10))
    }
}

/// `n` in decimal, padded with a zero to two digits.
pub open spec fn two_digits(n: nat) -> Seq<char> {
    if n < 10 {
        seq!['0', digit_char(n)]
    } else {
        decimal(n)
    }
}

/// `hh:mm:ss` or `mm:ss`.
pub open spec fn clock_text(h: Option<nat>, m: nat, s: nat) -> Seq<char> {
    match h {
        Some(h) => two_digits(h) + seq![':'] + two_digits(m) + seq![':'] + two_digits(s),
        None => two_digits(m) + seq![':'] + two_digits(s),
    }
}

/// A duration of `ms` milliseconds as the tables show it: milliseconds under a second,
/// else minutes and seconds, with hours, days (of 24 hours) and years (of 365 days) in
/// front when there are any.
pub open spec fn duration_text(ms: nat) -> Seq<char> {
    if ms < 1000 {
        decimal(ms) + seq!['m', 's']
    } else {
        let total_secs = ms / 1000;
        let seconds = total_secs % 60;
        let total_mins = total_secs / 60;
        let minutes = total_mins % 60;
        let total_hours = total_mins / 60;
        let hours = total_hours % 24;
        let total_days = total_hours / 24;
        let days = total_days % 365;
        let years = total_days / 365;
        if years > 0 {
            decimal(years) + seq!['y', ' '] + decimal(days) + seq!['d', ' '] + clock_text(
                Some(hours),
                minutes,
                seconds,
            )
        } else if days > 0 {
            decimal(days) + seq!['d', ' '] + clock_text(Some(hours), minutes, seconds)
        } else if hours > 0 {
            clock_text(Some(hours), minutes, seconds)
        } else {
            clock_text(None, minutes, seconds)
        }
    }
}

/// The bytes UTF-8 takes for `c`.
pub fn utf8_width_of(c: char) -> (r: u8)
    ensures
        r == utf8_width(c),
{
    let v = c as u32;
    if v < 0x80 {
        1
    } else if v < 0x800 {
        2
    } else if v < 0x10000 {
        3
    } else {
        4
    }
}

proof fn lemma_utf8_len_take(s: Seq<char>, k: int)
    requires
        0 <= k < s.len(),
    ensures
        utf8_len(s.take(k + 1)) == utf8_len(s.take(k)) + utf8_width(s[k]),
{
    assert(s.take(k + 1).drop_last() =~= s.take(k));
}

/// The bytes of two strings put together are the bytes of each.
proof fn lemma_utf8_len_concat(a: Seq<char>, b: Seq<char>)
    ensures
        utf8_len(a + b) == utf8_len(a) + utf8_len(b),
    decreases b.len(),
{
    if b.len() == 0 {
        assert(a + b =~= a);
    } else {
        assert((a + b).drop_last() =~= a + b.drop_last());
        lemma_utf8_len_concat(a, b.drop_last());
    }
}

/// A run of `n` dots takes `n` bytes.
proof fn lemma_utf8_len_dots(n: nat)
    ensures
        utf8_len(repeat_seq('.', n)) == n,
    decreases n,
{
    if n > 0 {
        assert(repeat_seq('.', n).drop_last() =~= repeat_seq('.', (n - 1) as nat));
        lemma_utf8_len_dots((n - 1) as nat);
    }
}

/// Proves that what `truncate_string` gives never takes more than `max_len` bytes.
pub proof fn lemma_truncated_fits(s: Seq<char>, max_len: int, r: Seq<char>)
    requires
        max_len >= 0,
        truncated(s, max_len, r),
    ensures
        utf8_len(r) <= max_len,
{
    if utf8_len(s) > max_len {
        if max_len > 3 {
            let k = choose|k: int| #[trigger] cut_point(s, max_len - 3, k) && r == s.take(k) + seq!['.', '.', '.'];
            lemma_utf8_len_concat(s.take(k), seq!['.', '.', '.']);
            assert(seq!['.', '.', '.'] =~= repeat_seq('.', 3));
            lemma_utf8_len_dots(3);
        } else {
            lemma_utf8_len_dots(max_len as nat);
        }
    }
}

/// `s` cut to at most `max_len` bytes: unchanged when it fits; else as many whole
/// characters as fit in `max_len - 3` bytes followed by `...`; and only dots when
/// `max_len` is three or less.
pub fn truncate_string(s: &str, max_len: usize) -> (r: String)
    ensures
        truncated(s@, max_len as int, r@),
        utf8_len(s@) <= max_len ==> r@ == s@,
        utf8_len(s@) > max_len && max_len > 3 ==> exists|k: int|
            #[trigger] cut_point(s@, max_len - 3, k) && r@ == s@.take(k) + seq!['.', '.', '.'],
        utf8_len(s@) > max_len && max_len <= 3 ==> r@ == repeat_seq('.', max_len as nat),
{
    let cs = chars_of(s);
    let mut total: u128 = 0;
    let mut i: usize = 0;
    while i < cs.len()
        invariant
            i <= cs.len(),
            cs@ == s@,
            total == utf8_len(s@.take(i as int)),
            total <= 4 * i,
        decreases cs.len() - i,
    {
        proof {
            lemma_utf8_len_take(s@, i as int);
        }
        total = total + utf8_width_of(cs[i]) as u128;
        i = i + 1;
    }
    proof {
        assert(s@.take(cs.len() as int) =~= s@);
    }
    if total <= max_len as u128 {
        return s.to_owned();
    }
    if max_len <= 3 {
        return repeat_char('.', max_len);
    }
    let budget: u128 = (max_len - 3) as u128;
    let mut k: usize = 0;
    let mut used: u128 = 0;
    while k < cs.len() && used + utf8_width_of(cs[k]) as u128 <= budget
        invariant
            k <= cs.len(),
            cs@ == s@,
            used == utf8_len(s@.take(k as int)),
            used <= budget,
            budget == max_len - 3,
        decreases cs.len() - k,
    {
        proof {
            lemma_utf8_len_take(s@, k as int);
        }
        used = used + utf8_width_of(cs[k]) as u128;
        k = k + 1;
    }
    proof {
        if k < cs.len() {
            lemma_utf8_len_take(s@, k as int);
        }
        assert(cut_point(s@, max_len - 3, k as int));
    }
    let mut head: Vec<char> = Vec::new();
    let mut j: usize = 0;
    while j < k
        invariant
            j <= k <= cs.len(),
            head@ == cs@.subrange(0, j as int),
        decreases k - j,
    {
        head.push(cs[j]);
        j = j + 1;
    }
    head.push('.');
    head.push('.');
    head.push('.');
    let r = string_of(&head);
    proof {
        assert(r@ =~= s@.take(k as int) + seq!['.', '.', '.']);
    }
    r
}

/// Appends `n` in decimal to `s`.
pub fn push_decimal(s: &mut String, n: u64)
    ensures
        final(s)@ == old(s)@ + decimal(n as nat),
    decreases n,
{
    if n >= 10 {
        push_decimal(s, n / 10);
    }
    let d = (n % 10) as u32 + 48;
    let c = char_from_digit(d);
    push_char(s, c);
    proof {
        if n >= 10 {
            assert(decimal(n as nat) == decimal((n / 10) as nat).push(digit_char((n % 10) as nat)));
        } else {
            assert(decimal(n as nat) == seq![digit_char(n as nat)]);
        }
    }
}

/// The character of an ASCII digit code.
fn char_from_digit(code: u32) -> (c: char)
    requires
        48 <= code < 58,
    ensures
        c == code as char,
{
    let b = code as u8;
    assert(b == code);
    b as char
}

/// Appends `n` in decimal, padded with a zero to two digits.
pub fn push_two_digits(s: &mut String, n: u64)
    ensures
        final(s)@ == old(s)@ + two_digits(n as nat),
{
    if n < 10 {
        push_char(s, '0');
    }
    push_decimal(s, n);
    proof {
        if n < 10 {
            assert(decimal(n as nat) == seq![digit_char(n as nat)]);
            assert(final(s)@ =~= old(s)@ + two_digits(n as nat));
        }
    }
}

/// A duration of `ms` milliseconds as the tables show it; see `duration_text`.
#[verifier::spinoff_prover]
pub fn format_duration(ms: u64) -> (r: String)
    ensures
        r@ == duration_text(ms as nat),
{
    let mut r = String::new();
    if ms < 1000 {
        push_decimal(&mut r, ms);
        push_char(&mut r, 'm');
        push_char(&mut r, 's');
        proof {
            assert(r@ =~= duration_text(ms as nat));
        }
        return r;
    }
    let total_secs = ms / 1000;
    let seconds = total_secs % 60;
    let total_mins = total_secs / 60;
    let minutes = total_mins % 60;
    let total_hours = total_mins / 60;
    let hours = total_hours % 24;
    let total_days = total_hours / 24;
    let days = total_days % 365;
    let years = total_days / 365;
    if years > 0 {
        push_decimal(&mut r, years);
        push_char(&mut r, 'y');
        push_char(&mut r, ' ');
        push_decimal(&mut r, days);
        push_char(&mut r, 'd');
        push_char(&mut r, ' ');
    } else if days > 0 {
        push_decimal(&mut r, days);
        push_char(&mut r, 'd');
        push_char(&mut r, ' ');
    }
    if years > 0 || days > 0 || hours > 0 {
        push_two_digits(&mut r, hours);
        push_char(&mut r, ':');
    }
    push_two_digits(&mut r, minutes);
    push_char(&mut r, ':');
    push_two_digits(&mut r, seconds);
    proof {
        assert(r@ =~= duration_text(ms as nat));
    }
    r
}

/// The bytes UTF-8 takes for `s`.
pub fn utf8_length(s: &str) -> (r: u128)
    ensures
        r == utf8_len(s@),
        r <= 4 * (usize::MAX as int),
{
    let cs = chars_of(s);
    let mut total: u128 = 0;
    let mut i: usize = 0;
    while i < cs.len()
        invariant
            i <= cs.len(),
            cs@ == s@,
            total == utf8_len(s@.take(i as int)),
            total <= 4 * i,
        decreases cs.len() - i,
    {
        proof {
            lemma_utf8_len_take(s@, i as int);
        }
        total = total + utf8_width_of(cs[i]) as u128;
        i = i + 1;
    }
    proof {
        assert(s@.take(cs.len() as int) =~= s@);
    }
    total
}

/// The header over the tables: the dates in a box centred on a line of `term_width`
/// columns, the box's middle row written over the tick row, and a blank line; only the
/// dates when the box does not fit.
pub open spec fn header_text(date: Seq<char>, term_width: int, tick_line: Seq<char>) -> Seq<char> {
    let inner = utf8_len(date) + 2;
    let box_width = inner + 2;
    if box_width > term_width {
        date
    } else {
        let n = term_width - box_width;
        let sc = (n + 1) / 2;
        let right = if n % 2 == 0 {
            sc - 1
        } else {
            sc - 2
        };
        let top = repeat_seq(' ', sc as nat) + seq!['╭'] + repeat_seq('─', inner as nat) + seq!['╮'];
        let middle = seq!['│', ' '] + date + seq![' ', '│'];
        let bottom = seq!['┌'] + repeat_seq('─', (sc - 1) as nat) + seq!['┴'] + repeat_seq('─', inner as nat)
            + seq!['┴'] + repeat_seq('─', right as nat) + seq!['┐'];
        top + seq!['\n'] + crate::text::overlay_seq(tick_line, sc, middle) + seq!['\n'] + bottom + seq!['\n', '\n']
    }
}

/// The header over the tables; see `header_text`. The box needs two columns of room
/// beyond itself to be drawn.
#[verifier::spinoff_prover]
pub fn header(date_str: &str, term_width: usize, tick_line: &str) -> (r: String)
    requires
        utf8_len(date_str@) + 4 > term_width || term_width >= utf8_len(date_str@) + 6,
    ensures
        r@ == header_text(date_str@, term_width as int, tick_line@),
{
    let date_bytes = utf8_length(date_str);
    let inner = date_bytes + 2;
    let box_width = inner + 2;
    if box_width > term_width as u128 {
        return date_str.to_owned();
    }
    let inner = inner as usize;
    let n = term_width - box_width as usize;
    let sc = (n + 1) / 2;
    let right = if n % 2 == 0 {
        sc - 1
    } else {
        sc - 2
    };
    let mut r = repeat_char(' ', sc);
    push_char(&mut r, '╭');
    let dashes = repeat_char('─', inner);
    r.append(dashes.as_str());
    push_char(&mut r, '╮');
    push_char(&mut r, '\n');
    let mut middle = String::new();
    push_char(&mut middle, '│');
    push_char(&mut middle, ' ');
    middle.append(date_str);
    push_char(&mut middle, ' ');
    push_char(&mut middle, '│');
    let overlaid = crate::ticks::overlay_line_with_offset(tick_line, middle.as_str(), sc);
    r.append(overlaid.as_str());
    push_char(&mut r, '\n');
    push_char(&mut r, '┌');
    let left_run = repeat_char('─', sc - 1);
    r.append(left_run.as_str());
    push_char(&mut r, '┴');
    r.append(dashes.as_str());
    push_char(&mut r, '┴');
    let right_run = repeat_char('─', right);
    r.append(right_run.as_str());
    push_char(&mut r, '┐');
    push_char(&mut r, '\n');
    push_char(&mut r, '\n');
    proof {
        assert(r@ =~= header_text(date_str@, term_width as int, tick_line@));
    }
    r
}


/// The text for a duration given as whole years (of 365 days), days, hours, minutes and
/// seconds: the years and days in front when there are any, the hours when there are any
/// or when something stands in front of them, then minutes and seconds.
pub open spec fn fields_text(years: nat, days: nat, hours: nat, minutes: nat, seconds: nat) -> Seq<char> {
    let front = if years > 0 {
        decimal(years) + seq!['y', ' '] + decimal(days) + seq!['d', ' ']
    } else if days > 0 {
        decimal(days) + seq!['d', ' ']
    } else {
        Seq::empty()
    };
    let h = if years > 0 || days > 0 || hours > 0 {
        Some(hours)
    } else {
        None
    };
    front + clock_text(h, minutes, seconds)
}

/// A duration of at least a second reads back to its whole seconds: its text shows years,
/// days, hours, minutes and seconds, with minutes and seconds under 60, hours under 24 and
/// days under 365, that add up to `ms / 1000` seconds. Under a second it shows the
/// milliseconds.
pub proof fn lemma_duration_reads_back(ms: nat) -> (f: (nat, nat, nat, nat, nat))
    ensures
        ms < 1000 ==> duration_text(ms) == decimal(ms) + seq!['m', 's'],
        ms >= 1000 ==> {
            &&& f.4 < 60
            &&& f.3 < 60
            &&& f.2 < 24
            &&& f.1 < 365
            &&& f.0 * 31_536_000 + f.1 * 86_400 + f.2 * 3_600 + f.3 * 60 + f.4 == ms / 1000
            &&& duration_text(ms) == fields_text(f.0, f.1, f.2, f.3, f.4)
        },
{
    let t = ms / 1000;
    let s = t % 60;
    let tm = t / 60;
    let m = tm % 60;
    let th = tm / 60;
    let h = th % 24;
    let td = th / 24;
    let d = td % 365;
    let y = td / 365;
    assert(t == 60 * tm + s && tm == 60 * th + m && th == 24 * td + h && td == 365 * y + d) by {
        vstd::arithmetic::div_mod::lemma_fundamental_div_mod(t as int, 60);
        vstd::arithmetic::div_mod::lemma_fundamental_div_mod(tm as int, 60);
        vstd::arithmetic::div_mod::lemma_fundamental_div_mod(th as int, 24);
        vstd::arithmetic::div_mod::lemma_fundamental_div_mod(td as int, 365);
    }
    assert(y * 31_536_000 + d * 86_400 + h * 3_600 + m * 60 + s == t) by (nonlinear_arith)
        requires
            t == 60 * tm + s,
            tm == 60 * th + m,
            th == 24 * td + h,
            td == 365 * y + d,
    ;
    if ms >= 1000 {
        assert(duration_text(ms) =~= fields_text(y, d, h, m, s));
    }
    (y, d, h, m, s)
}
} // verus!
