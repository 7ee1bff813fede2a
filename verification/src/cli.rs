//! What the command line computes before it prints: indented command
//! output, the shortened command of a task listing, the countdown to a
//! task's next run, and whether a task is late.

use vstd::prelude::*;
use crate::scheduler::{next_defined, occurrence_ok, Schedule};
use crate::text::{chars_of, decimal, push_chars, push_decimal, push_text, split_chars, split_on, string_of};
use crate::time::{CivilTime, LocalDateTime, MIN_TIMESTAMP, TIMESTAMP_BOUND};

verus! {

// ---------------------------------------------------------------- lines

/// A piece that ended with a line feed loses one carriage return before it.
pub open spec fn strip_cr(p: Seq<char>) -> Seq<char> {
    if p.len() > 0 && p.last() == '\r' {
        p.drop_last()
    } else {
        p
    }
}

/// The lines of `s`, as `str::lines` gives them: the pieces between line
/// feeds, each without the carriage return that ends it before its line
/// feed; the piece after the last line feed counts only when it is not
/// empty, and keeps its characters.
pub open spec fn lines_of(s: Seq<char>) -> Seq<Seq<char>> {
    let ps = split_on(s, '\n');
    let ended = ps.drop_last().map_values(|p: Seq<char>| strip_cr(p));
    if ps.last().len() == 0 {
        ended
    } else {
        ended.push(ps.last())
    }
}

/// The lines `ls`, each after `prefix`, joined by line feeds.
pub open spec fn prefixed(ls: Seq<Seq<char>>, prefix: Seq<char>) -> Seq<char>
    decreases ls.len(),
{
    if ls.len() == 0 {
        Seq::empty()
    } else if ls.len() == 1 {
        prefix + ls[0]
    } else {
        prefixed(ls.drop_last(), prefix) + seq!['\n'] + prefix + ls.last()
    }
}

/// Appends one line, after `prefix`, to the indented text built so far.
fn push_line(
    out: &mut Vec<char>,
    prefix: &Vec<char>,
    line: &Vec<char>,
    count: usize,
    ls: Ghost<Seq<Seq<char>>>,
)
    requires
        old(out)@ == prefixed(ls@, prefix@),
        count == ls@.len(),
    ensures
        final(out)@ == prefixed(ls@.push(line@), prefix@),
{
    if count > 0 {
        out.push('\n');
    }
    push_chars(out, prefix);
    push_chars(out, line);
    proof {
        assert(ls@.push(line@).drop_last() =~= ls@);
        if ls@.len() == 0 {
            assert(final(out)@ =~= prefix@ + line@);
        } else {
            assert(final(out)@ =~= prefixed(ls@, prefix@) + seq!['\n'] + prefix@ + line@);
        }
    }
}

/// Each line of `s` after `prefix`, the lines joined by line feeds.
pub fn indent(s: &str, prefix: &str) -> (r: String)
    ensures
        r@ == prefixed(lines_of(s@), prefix@),
{
    let sc = chars_of(s);
    let pc = chars_of(prefix);
    let pieces = split_chars(&sc, '\n');
    let ghost ps = crate::text::views(pieces@);
    proof {
        crate::text::lemma_split_on_len(s@, '\n');
    }
    let n = pieces.len();
    let mut out: Vec<char> = Vec::new();
    let ghost ended = ps.drop_last().map_values(|p: Seq<char>| strip_cr(p));
    let mut i: usize = 0;
    while i + 1 < n
        invariant
            ps == crate::text::views(pieces@),
            ps == split_on(s@, '\n'),
            n == pieces.len(),
            n >= 1,
            i + 1 <= n,
            ended == ps.drop_last().map_values(|p: Seq<char>| strip_cr(p)),
            out@ == prefixed(ended.take(i as int), pc@),
        decreases n - i,
    {
        let piece = &pieces[i];
        let mut line: Vec<char> = Vec::new();
        let len = piece.len();
        let keep = if len > 0 && piece[len - 1] == '\r' {
            len - 1
        } else {
            len
        };
        let mut k: usize = 0;
        while k < keep
            invariant
                keep <= len == piece.len(),
                k <= keep,
                line@ == piece@.take(k as int),
            decreases keep - k,
        {
            line.push(piece[k]);
            k += 1;
            assert(line@ =~= piece@.take(k as int));
        }
        proof {
            assert(piece@ == ps[i as int]);
            assert(line@ =~= strip_cr(ps[i as int]));
            assert(ended.take(i + 1) =~= ended.take(i as int).push(line@));
        }
        push_line(&mut out, &pc, &line, i, Ghost(ended.take(i as int)));
        i += 1;
    }
    proof {
        assert(ended.take(i as int) =~= ended);
    }
    let last = &pieces[n - 1];
    if last.len() > 0 {
        proof {
            assert(last@ == ps.last());
        }
        push_line(&mut out, &pc, last, n - 1, Ghost(ended));
    }
    string_of(&out)
}

// ---------------------------------------------------------------- command

/// The number of bytes of `c` in UTF-8.
pub open spec fn utf8_len(c: char) -> nat {
    if (c as u32) < 0x80 {
        1
    } else if (c as u32) < 0x800 {
        2
    } else if (c as u32) < 0x10000 {
        3
    } else {
        4
    }
}

/// The number of bytes of `s` in UTF-8 (what `str::len` gives).
pub open spec fn byte_len(s: Seq<char>) -> nat
    decreases s.len(),
{
    if s.len() == 0 {
        0
    } else {
        byte_len(s.drop_last()) + utf8_len(s.last())
    }
}

/// Byte `b` of `s` starts a character (or is its end).
pub open spec fn char_boundary(s: Seq<char>, b: nat) -> bool {
    exists|k: int| 0 <= k <= s.len() && byte_len(#[trigger] s.take(k)) == b
}

/// How a command appears in a task listing: as it is up to 35 bytes, else
/// its first 32 bytes followed by `...`.
pub open spec fn summary_text(s: Seq<char>) -> Seq<char> {
    if byte_len(s) > 35 {
        s.take(choose|k: int| 0 <= k <= s.len() && byte_len(#[trigger] s.take(k)) == 32) + "..."@
    } else {
        s
    }
}

/// The byte length of a prefix grows with it, by one character at a time.
proof fn lemma_byte_len_prefix(s: Seq<char>, j: int, k: int)
    requires
        0 <= j <= k <= s.len(),
    ensures
        byte_len(s.take(j)) + (k - j) <= byte_len(s.take(k)),
        k < s.len() ==> byte_len(s.take(k + 1)) == byte_len(s.take(k)) + utf8_len(s[k]),
    decreases k - j,
{
    if k < s.len() {
        assert(s.take(k + 1).drop_last() =~= s.take(k));
    }
    if j < k {
        lemma_byte_len_prefix(s, j, k - 1);
        assert(s.take(k).drop_last() =~= s.take(k - 1));
    }
}

/// The UTF-8 length of a character.
fn utf8_len_of(c: char) -> (r: u64)
    ensures
        r == utf8_len(c),
{
    let u = c as u32;
    if u < 0x80 {
        1
    } else if u < 0x800 {
        2
    } else if u < 0x10000 {
        3
    } else {
        4
    }
}

/// The command of a task as a listing shows it: up to 35 bytes as it is,
/// else its first 32 bytes and `...`. Byte 32 must start a character then,
/// as `str` slicing demands.
pub fn command_summary(command: &str) -> (r: String)
    requires
        byte_len(command@) > 35 ==> char_boundary(command@, 32),
    ensures
        r@ == summary_text(command@),
{
    let c = chars_of(command);
    let n = c.len();
    let mut total: u128 = 0;
    let mut i: usize = 0;
    while i < n
        invariant
            n == c.len(),
            c@ == command@,
            i <= n,
            total == byte_len(c@.take(i as int)),
            total <= 4 * i,
        decreases n - i,
    {
        proof {
            lemma_byte_len_prefix(c@, i as int, i as int);
        }
        total = total + utf8_len_of(c[i]) as u128;
        i += 1;
    }
    proof {
        assert(c@.take(n as int) =~= c@);
    }
    if total <= 35 {
        return string_of(&c);
    }
    let mut bytes: u64 = 0;
    let mut k: usize = 0;
    while bytes < 32
        invariant
            n == c.len(),
            c@ == command@,
            k <= n,
            bytes == byte_len(c@.take(k as int)),
            k > 0 ==> byte_len(c@.take(k - 1)) < 32,
            byte_len(c@) > 35,
            char_boundary(c@, 32),
        decreases n - k,
    {
        proof {
            if k == n {
                assert(c@.take(n as int) =~= c@);
            }
            lemma_byte_len_prefix(c@, k as int, k as int);
        }
        bytes = bytes + utf8_len_of(c[k]);
        k += 1;
    }
    proof {
        let w = choose|j: int| 0 <= j <= c@.len() && byte_len(#[trigger] c@.take(j)) == 32;
        if w < k {
            lemma_byte_len_prefix(c@, w, k - 1);
            lemma_byte_len_prefix(c@, k - 1, k - 1);
        } else if w > k {
            lemma_byte_len_prefix(c@, k as int, w);
        }
        assert(w == k);
    }
    let mut out = crate::text::sub_chars(&c, 0, k);
    push_text(&mut out, "...");
    proof {
        assert(c@.subrange(0, k as int) =~= c@.take(k as int));
    }
    string_of(&out)
}

// ---------------------------------------------------------------- countdown

/// The whole seconds from `from` to `to`, rounded toward zero (what
/// `signed_duration_since` and then `num_seconds` give in chrono).
pub open spec fn seconds_between(from: CivilTime, to: CivilTime) -> int {
    let d = (to.timestamp - from.timestamp) * 1_000_000_000 + to.nanos - from.nanos;
    if d >= 0 {
        d / 1_000_000_000
    } else {
        -((-d) / 1_000_000_000)
    }
}

/// The decimal writing of an integer, with a minus sign when negative.
pub open spec fn signed_decimal(n: int) -> Seq<char> {
    if n < 0 {
        "-"@ + decimal((-n) as nat)
    } else {
        decimal(n as nat)
    }
}

/// How long until a run `secs` seconds away, as the `next` command shows
/// it: in seconds under a minute, in minutes under an hour, else in hours
/// and minutes.
pub open spec fn countdown_text(secs: int) -> Seq<char> {
    if secs < 60 {
        "(dans "@ + signed_decimal(secs) + "s)"@
    } else if secs / 60 < 60 {
        "(dans "@ + decimal((secs / 60) as nat) + "min)"@
    } else {
        "(dans "@ + decimal((secs / 3600) as nat) + "h"@ + decimal(((secs / 60) % 60) as nat)
            + "min)"@
    }
}

/// The countdown from `now` to `next`.
pub fn countdown(now: &LocalDateTime, next: &LocalDateTime) -> (r: String)
    ensures
        r@ == countdown_text(seconds_between(now@, next@)),
{
    let t0 = now.timestamp() as i128;
    let t1 = next.timestamp() as i128;
    let n0 = now.nanosecond() as i128;
    let n1 = next.nanosecond() as i128;
    let d: i128 = (t1 - t0) * 1_000_000_000 + n1 - n0;
    let secs: i128 = if d >= 0 {
        ((d as u128) / 1_000_000_000) as i128
    } else {
        -(((-d) as u128 / 1_000_000_000) as i128)
    };
    assert(secs == seconds_between(now@, next@));
    assert(-20_000_000_000_000 <= secs <= 20_000_000_000_000);
    let mut out = chars_of("(dans ");
    if secs < 60 {
        if secs < 0 {
            out.push('-');
            push_decimal(&mut out, (-secs) as u64);
            assert(seq!['-'] =~= "-"@) by {
                reveal_strlit("-");
            }
            assert(out@ =~= "(dans "@ + signed_decimal(secs as int));
        } else {
            push_decimal(&mut out, secs as u64);
        }
        push_text(&mut out, "s)");
    } else if secs / 60 < 60 {
        push_decimal(&mut out, (secs / 60) as u64);
        push_text(&mut out, "min)");
    } else {
        push_decimal(&mut out, (secs / 3600) as u64);
        push_text(&mut out, "h");
        push_decimal(&mut out, ((secs / 60) % 60) as u64);
        push_text(&mut out, "min)");
    }
    assert(out@ =~= countdown_text(secs as int));
    string_of(&out)
}

// ---------------------------------------------------------------- late

/// One hour before `now`.
pub open spec fn hour_before(now: CivilTime) -> CivilTime {
    CivilTime { timestamp: now.timestamp - 3600, ..now }
}

/// A task whose next occurrence is `next` is late at `now`: that occurrence
/// lies more than five minutes before `now`.
pub open spec fn late_at(next: Option<LocalDateTime>, now: CivilTime) -> bool {
    next matches Some(v) && v@.before(CivilTime { timestamp: now.timestamp - 300, ..now })
}

/// `r` says whether a task with schedule `s` is late at `now`: `late_at`
/// for what the next occurrence after the instant one hour before `now` may
/// be.
pub open spec fn late_by(s: Schedule, now: CivilTime, r: bool) -> bool {
    exists|earlier: CivilTime, next: Option<LocalDateTime>|
        #[trigger] occurrence_ok(s, earlier, next) && earlier.timestamp == now.timestamp - 3600
            && earlier.nanos == now.nanos && r == late_at(next, now)
}

/// Whether a task with this schedule is late at `now`: the next occurrence
/// after one hour before `now` lies more than five minutes before `now`.
pub fn is_late(schedule: &Schedule, now: &LocalDateTime) -> (r: bool)
    requires
        now@.representable(),
        MIN_TIMESTAMP <= now@.timestamp - 3600,
        next_defined(*schedule, hour_before(now@)),
    ensures
        late_by(*schedule, now@, r),
{
    let earlier = now.checked_add_seconds(-3600);
    let earlier = match earlier {
        Some(e) => e,
        None => {
            return false;
        },
    };
    let threshold = match now.checked_add_seconds(-300) {
        Some(t) => t,
        None => {
            return false;
        },
    };
    let next = schedule.next_occurrence(&earlier);
    let r = match next {
        Some(v) => v.is_before(&threshold),
        None => false,
    };
    assert(r == late_at(next, now@));
    assert(occurrence_ok(*schedule, earlier@, next));
    r
}

} // verus!
