//! Cron-like schedule expressions: five-field cron expressions with
//! wildcards, lists, ranges and steps, the `@daily`-style macros and
//! `@every Nm|Nh|Ns` intervals.

use vstd::prelude::*;
use crate::time::{date_before, date_exists, days_from_civil, days_in_month, CivilTime, Duration, LocalDateTime, MAX_DELTA_SECS, MAX_TIMESTAMP, MIN_TIMESTAMP};
use crate::text::{
    after_first, trim, trim_chars, ws_split, split_ws, same_chars, before_first, is_first_pos, chars_of, decimal, find_char, has_char, is_text, parse_unsigned,
    parse_unsigned_chars, push_chars, push_decimal, push_text, split_chars, split_on, string_of,
    sub_chars, views,
};

verus! {

/// Why a schedule expression was refused.
#[derive(Debug, Clone)]
pub enum ScheduleError {
    /// The expression is malformed; the message says where.
    ParseError(String),
    /// A value lies outside the field's bounds.
    OutOfRange { champ: String, valeur: u32 },
}

/// One field of a cron expression: every value, or the listed ones
/// (sorted, without repeats).
#[derive(Debug, Clone, PartialEq)]
pub enum CronField {
    All,
    Values(Vec<u32>),
}

// ---------------------------------------------------------------- model

/// What a field (or a piece of one) means, or why it is refused.
/// `Overflow` stands for the inputs on which the step arithmetic would
/// overflow a `u32`.
pub enum FieldOutcome {
    All,
    Values(Set<u32>),
    BadSyntax(Seq<char>),
    OutOfRange(Seq<char>, u32),
    Overflow,
}

/// Every element is smaller than the ones after it.
pub open spec fn strictly_sorted(s: Seq<u32>) -> bool {
    forall|i: int, j: int| 0 <= i < j < s.len() ==> s[i] < s[j]
}

/// `s` holds exactly the members of `t`.
pub open spec fn same_members(s: Seq<u32>, t: Set<u32>) -> bool {
    forall|x: u32| #[trigger] s.contains(x) <==> t.contains(x)
}

/// `str::parse::<u32>`.
pub open spec fn parse_u32(s: Seq<char>) -> Option<u32> {
    match parse_unsigned(s, u32::MAX as int) {
        Some(n) => Some(n as u32),
        None => None,
    }
}

/// The two bounds of `a-b`, split at the first `-`.
pub open spec fn bounds(q: Seq<char>) -> Result<(u32, u32), Seq<char>> {
    let b0 = before_first(q, '-');
    let b1 = after_first(q, '-');
    match parse_u32(b0) {
        None => Err("Borne invalide: "@ + b0),
        Some(a) => match parse_u32(b1) {
            None => Err("Borne invalide: "@ + b1),
            Some(b) => Ok((a, b)),
        },
    }
}

/// The range a step runs over: `*` is the whole field, `a-b` is `a..=b`,
/// a single `a` is `a..=max`.
pub open spec fn step_range(lhs: Seq<char>, min: u32, max: u32) -> Result<(u32, u32), Seq<char>> {
    if lhs == "*"@ {
        Ok((min, max))
    } else if has_char(lhs, '-') {
        bounds(lhs)
    } else {
        match parse_u32(lhs) {
            Some(v) => Ok((v, max)),
            None => Err("Valeur invalide: "@ + lhs),
        }
    }
}

/// The values `v, v + st, v + 2st, ...` up to `hi`, each checked against
/// `[min, max]` in turn; the first one outside is reported.
pub open spec fn stepping(v: u32, hi: u32, st: u32, min: u32, max: u32) -> FieldOutcome
    decreases (if v > hi { 0 } else { hi + 1 - v }),
    when st > 0
{
    if v > hi {
        FieldOutcome::Values(Set::empty())
    } else if v < min || v > max {
        FieldOutcome::OutOfRange(decimal(v as nat), v)
    } else if v + st > u32::MAX {
        FieldOutcome::Overflow
    } else {
        match stepping((v + st) as u32, hi, st, min, max) {
            FieldOutcome::Values(rest) => FieldOutcome::Values(rest.insert(v)),
            other => other,
        }
    }
}

/// A piece with a step, `range/step`.
pub open spec fn step_part(p: Seq<char>, min: u32, max: u32) -> FieldOutcome {
    let lhs = before_first(p, '/');
    let rhs = after_first(p, '/');
    match parse_u32(rhs) {
        None => FieldOutcome::BadSyntax("Pas invalide: "@ + rhs),
        Some(st) => if st == 0 {
            FieldOutcome::BadSyntax("Le pas ne peut pas être 0"@)
        } else {
            match step_range(lhs, min, max) {
                Err(m) => FieldOutcome::BadSyntax(m),
                Ok((lo, hi)) => stepping(lo, hi, st, min, max),
            }
        },
    }
}

/// A piece `a-b`: every value from `a` to `b`, which must lie in
/// `[min, max]`; the first value outside is reported.
pub open spec fn range_part(p: Seq<char>, min: u32, max: u32) -> FieldOutcome {
    match bounds(p) {
        Err(m) => FieldOutcome::BadSyntax(m),
        Ok((a, b)) => if a > b {
            FieldOutcome::BadSyntax(
                "Intervalle invalide: "@ + decimal(a as nat) + "-"@ + decimal(b as nat),
            )
        } else if a < min || a > max {
            FieldOutcome::OutOfRange(decimal(a as nat), a)
        } else if b > max {
            FieldOutcome::OutOfRange(decimal((max + 1) as nat), (max + 1) as u32)
        } else {
            FieldOutcome::Values(Set::new(|x: u32| a <= x <= b))
        },
    }
}

/// One comma-separated piece of a field.
pub open spec fn part_outcome(p: Seq<char>, min: u32, max: u32) -> FieldOutcome {
    if has_char(p, '/') {
        step_part(p, min, max)
    } else if has_char(p, '-') {
        range_part(p, min, max)
    } else {
        match parse_u32(p) {
            None => FieldOutcome::BadSyntax("Valeur invalide: "@ + p),
            Some(v) => if v < min || v > max {
                FieldOutcome::OutOfRange(p, v)
            } else {
                FieldOutcome::Values(set![v])
            },
        }
    }
}

/// `base` joined to the values of `o`; a refusal stays a refusal.
pub open spec fn with_base(base: Set<u32>, o: FieldOutcome) -> FieldOutcome {
    match o {
        FieldOutcome::Values(s) => FieldOutcome::Values(base + s),
        other => other,
    }
}

/// The pieces taken left to right: the union of their values, or the first
/// refusal.
pub open spec fn parts_outcome(ps: Seq<Seq<char>>, min: u32, max: u32) -> FieldOutcome
    decreases ps.len(),
{
    if ps.len() == 0 {
        FieldOutcome::Values(Set::empty())
    } else {
        match parts_outcome(ps.drop_last(), min, max) {
            FieldOutcome::Values(acc) => with_base(acc, part_outcome(ps.last(), min, max)),
            other => other,
        }
    }
}

/// What the field text `s` means with bounds `[min, max]`.
pub open spec fn field_outcome(s: Seq<char>, min: u32, max: u32) -> FieldOutcome {
    if s == "*"@ {
        FieldOutcome::All
    } else {
        parts_outcome(split_on(s, ','), min, max)
    }
}

/// `f` is what the meaning `o` describes.
pub open spec fn field_is(f: CronField, o: FieldOutcome) -> bool {
    match o {
        FieldOutcome::All => f is All,
        FieldOutcome::Values(s) => match f {
            CronField::Values(v) => strictly_sorted(v@) && same_members(v@, s),
            CronField::All => false,
        },
        _ => false,
    }
}

/// `r` is the error that the refusal `o` describes.
pub open spec fn error_is(e: ScheduleError, o: FieldOutcome) -> bool {
    match o {
        FieldOutcome::BadSyntax(m) => e matches ScheduleError::ParseError(msg) && msg@ == m,
        FieldOutcome::OutOfRange(c, v) => e matches ScheduleError::OutOfRange { champ, valeur }
            && champ@ == c && valeur == v,
        _ => false,
    }
}

/// A refusal, or the overflow that stands for a panic.
pub open spec fn is_fault(o: FieldOutcome) -> bool {
    o is BadSyntax || o is OutOfRange || o is Overflow
}

/// `r` reports the refusal `o`: nothing for an overflow, else its error.
pub open spec fn fault_is(r: Option<ScheduleError>, o: FieldOutcome) -> bool {
    match o {
        FieldOutcome::Overflow => r is None,
        _ => r matches Some(e) && error_is(e, o),
    }
}

impl CronField {
    /// Whether `value` belongs to the field.
    pub open spec fn holds(&self, value: u32) -> bool {
        match self {
            CronField::All => true,
            CronField::Values(v) => v@.contains(value),
        }
    }
}

// ---------------------------------------------------------------- exec

/// `str::parse::<u32>` on characters.
fn parse_u32_chars(s: &Vec<char>) -> (r: Option<u32>)
    ensures
        r == parse_u32(s@),
{
    match parse_unsigned_chars(s, 4294967295) {
        Some(n) => Some(n as u32),
        None => None,
    }
}

/// A message: `head` followed by `tail`.
fn message(head: &str, tail: &Vec<char>) -> (r: String)
    ensures
        r@ == head@ + tail@,
{
    let mut m = chars_of(head);
    push_chars(&mut m, tail);
    string_of(&m)
}

/// The decimal writing of `n` as characters.
fn decimal_chars(n: u64) -> (r: Vec<char>)
    ensures
        r@ == decimal(n as nat),
{
    let mut r: Vec<char> = Vec::new();
    push_decimal(&mut r, n);
    assert(r@ =~= decimal(n as nat));
    r
}

/// The out-of-range error for the value `v`, named by its decimal writing.
fn out_of_range(v: u32) -> (e: ScheduleError)
    ensures
        error_is(e, FieldOutcome::OutOfRange(decimal(v as nat), v)),
{
    let d = decimal_chars(v as u64);
    ScheduleError::OutOfRange { champ: string_of(&d), valeur: v }
}

/// Adds `x` to the sorted values.
fn insert_sorted(values: &mut Vec<u32>, x: u32)
    requires
        strictly_sorted(old(values)@),
    ensures
        strictly_sorted(final(values)@),
        forall|y: u32| #[trigger]
            final(values)@.contains(y) <==> (old(values)@.contains(y) || y == x),
{
    let mut i: usize = 0;
    while i < values.len() && values[i] < x
        invariant
            i <= values.len(),
            values@ == old(values)@,
            strictly_sorted(values@),
            forall|j: int| 0 <= j < i ==> values@[j] < x,
        decreases values.len() - i,
    {
        i += 1;
    }
    if i < values.len() && values[i] == x {
        return ;
    }
    let ghost before = values@;
    values.insert(i, x);
    proof {
        let after = values@;
        assert(after =~= before.take(i as int).push(x) + before.skip(i as int));
        assert forall|a: int, b: int| 0 <= a < b < after.len() implies after[a] < after[b] by {
            if b < i {
            } else if b == i {
            } else if a < i {
                assert(after[b] == before[b - 1]);
                assert(before[a] < before[i as int] || a == i);
            } else if a == i {
                assert(after[b] == before[b - 1]);
                assert(before[i as int] > x);
            } else {
                assert(after[a] == before[a - 1]);
                assert(after[b] == before[b - 1]);
            }
        }
        assert forall|y: u32| #[trigger] after.contains(y) <==> (before.contains(y) || y == x) by {
            if after.contains(y) {
                let k = choose|k: int| 0 <= k < after.len() && after[k] == y;
                if k < i {
                    assert(before[k] == y);
                } else if k > i {
                    assert(before[k - 1] == y);
                }
            }
            if before.contains(y) {
                let k = choose|k: int| 0 <= k < before.len() && before[k] == y;
                if k < i {
                    assert(after[k] == y);
                } else {
                    assert(after[k + 1] == y);
                }
            }
            if y == x {
                assert(after[i as int] == y);
            }
        }
    }
}

/// The two bounds of `a-b`, or the message that refuses them.
fn bounds_chars(q: &Vec<char>) -> (r: Result<(u32, u32), Vec<char>>)
    requires
        has_char(q@, '-'),
    ensures
        match r {
            Ok(ab) => bounds(q@) == Ok::<(u32, u32), Seq<char>>(ab),
            Err(m) => bounds(q@) == Err::<(u32, u32), Seq<char>>(m@),
        },
{
    let found = find_char(q, '-');
    if found.is_none() {
        return Err(Vec::new());
    }
    let k = found.unwrap();
    assert(k < q.len());
    let b0 = sub_chars(q, 0, k);
    let b1 = sub_chars(q, k + 1, q.len());
    assert(b0@ =~= before_first(q@, '-'));
    assert(b1@ =~= after_first(q@, '-'));
    let a = match parse_u32_chars(&b0) {
        Some(a) => a,
        None => {
            let mut m = chars_of("Borne invalide: ");
            push_chars(&mut m, &b0);
            return Err(m);
        },
    };
    let b = match parse_u32_chars(&b1) {
        Some(b) => b,
        None => {
            let mut m = chars_of("Borne invalide: ");
            push_chars(&mut m, &b1);
            return Err(m);
        },
    };
    Ok((a, b))
}

/// Adds the values of a piece to `values`, or says why the piece is refused.
fn parse_part(p: &Vec<char>, min: u32, max: u32, values: &mut Vec<u32>) -> (r: Result<
    (),
    Option<ScheduleError>,
>)
    requires
        strictly_sorted(old(values)@),
    ensures
        strictly_sorted(final(values)@),
        match part_outcome(p@, min, max) {
            FieldOutcome::Values(s) => r is Ok && forall|y: u32| #[trigger]
                final(values)@.contains(y) <==> (old(values)@.contains(y) || s.contains(y)),
            o => r matches Err(x) && fault_is(x, o),
        },
{
    let slash = find_char(p, '/');
    match slash {
        Some(k) => {
            assert(is_first_pos(p@, '/', k as int));
            assert(k < p.len());
            let lhs = sub_chars(p, 0, k);
            let rhs = sub_chars(p, k + 1, p.len());
            assert(lhs@ =~= before_first(p@, '/'));
            assert(rhs@ =~= after_first(p@, '/'));
            let st = match parse_u32_chars(&rhs) {
                Some(st) => st,
                None => {
                    return Err(Some(ScheduleError::ParseError(message("Pas invalide: ", &rhs))));
                },
            };
            if st == 0 {
                let m = chars_of("Le pas ne peut pas être 0");
                return Err(Some(ScheduleError::ParseError(string_of(&m))));
            }
            let (lo, hi) = if is_text(&lhs, "*") {
                (min, max)
            } else {
                match find_char(&lhs, '-') {
                    Some(_) => match bounds_chars(&lhs) {
                        Ok(ab) => ab,
                        Err(m) => {
                            return Err(Some(ScheduleError::ParseError(string_of(&m))));
                        },
                    },
                    None => match parse_u32_chars(&lhs) {
                        Some(v) => (v, max),
                        None => {
                            return Err(
                                Some(ScheduleError::ParseError(message("Valeur invalide: ", &lhs))),
                            );
                        },
                    },
                }
            };
            assert(step_range(lhs@, min, max) == Ok::<(u32, u32), Seq<char>>((lo, hi)));
            step_values(lo, hi, st, min, max, values)
        },
        None => match find_char(p, '-') {
            Some(_) => {
                let (a, b) = match bounds_chars(p) {
                    Ok(ab) => ab,
                    Err(m) => {
                        return Err(Some(ScheduleError::ParseError(string_of(&m))));
                    },
                };
                if a > b {
                    let mut m = chars_of("Intervalle invalide: ");
                    let da = decimal_chars(a as u64);
                    let db = decimal_chars(b as u64);
                    push_chars(&mut m, &da);
                    push_text(&mut m, "-");
                    push_chars(&mut m, &db);
                    assert(m@ =~= "Intervalle invalide: "@ + decimal(a as nat) + "-"@ + decimal(
                        b as nat,
                    ));
                    return Err(Some(ScheduleError::ParseError(string_of(&m))));
                }
                if a < min || a > max {
                    return Err(Some(out_of_range(a)));
                }
                if b > max {
                    return Err(Some(out_of_range(max + 1)));
                }
                range_values(a, b, values);
                Ok(())
            },
            None => {
                let v = match parse_u32_chars(p) {
                    Some(v) => v,
                    None => {
                        return Err(Some(ScheduleError::ParseError(message("Valeur invalide: ", p))));
                    },
                };
                if v < min || v > max {
                    return Err(Some(ScheduleError::OutOfRange { champ: string_of(p), valeur: v }));
                }
                insert_sorted(values, v);
                Ok(())
            },
        },
    }
}

/// Adds every value from `a` to `b` to `values`.
fn range_values(a: u32, b: u32, values: &mut Vec<u32>)
    requires
        strictly_sorted(old(values)@),
        a <= b,
    ensures
        strictly_sorted(final(values)@),
        forall|y: u32| #[trigger]
            final(values)@.contains(y) <==> (old(values)@.contains(y) || (a <= y <= b)),
{
    let mut v = a;
    loop
        invariant_except_break
            forall|y: u32| #[trigger]
                values@.contains(y) <==> (old(values)@.contains(y) || (a <= y < v)),
        invariant
            a <= v <= b,
            strictly_sorted(values@),
        ensures
            strictly_sorted(values@),
            forall|y: u32| #[trigger]
                values@.contains(y) <==> (old(values)@.contains(y) || (a <= y <= b)),
        decreases b - v,
    {
        insert_sorted(values, v);
        if v == b {
            break ;
        }
        v += 1;
    }
}

/// Adds `v, v + st, ...` up to `hi` to `values`, checking each against
/// `[min, max]`.
fn step_values(lo: u32, hi: u32, st: u32, min: u32, max: u32, values: &mut Vec<u32>) -> (r: Result<
    (),
    Option<ScheduleError>,
>)
    requires
        strictly_sorted(old(values)@),
        st > 0,
    ensures
        strictly_sorted(final(values)@),
        match stepping(lo, hi, st, min, max) {
            FieldOutcome::Values(s) => r is Ok && forall|y: u32| #[trigger]
                final(values)@.contains(y) <==> (old(values)@.contains(y) || s.contains(y)),
            o => r matches Err(x) && fault_is(x, o),
        },
{
    let mut v = lo;
    let ghost base = old(values)@;
    while v <= hi
        invariant
            st > 0,
            strictly_sorted(values@),
            match stepping(lo, hi, st, min, max) {
                FieldOutcome::Values(s) => stepping(v, hi, st, min, max) matches FieldOutcome::Values(t)
                    && forall|y: u32| (base.contains(y) || s.contains(y)) <==> (#[trigger] values@.contains(y) || t.contains(y)),
                o => stepping(v, hi, st, min, max) == o,
            },
        decreases (if v > hi { 0 } else { hi + 1 - v }),
    {
        if v < min || v > max {
            return Err(Some(out_of_range(v)));
        }
        if v as u64 + st as u64 > 0xffff_ffff {
            return Err(None);
        }
        insert_sorted(values, v);
        v = v + st;
    }
    Ok(())
}

/// The meaning of a field written as characters.
fn parse_field(s: &Vec<char>, min: u32, max: u32) -> (r: Result<CronField, Option<ScheduleError>>)
    ensures
        match field_outcome(s@, min, max) {
            FieldOutcome::All => r matches Ok(f) && f is All,
            FieldOutcome::Values(set) => r matches Ok(f) && field_is(f, field_outcome(s@, min, max)),
            o => r matches Err(x) && fault_is(x, o),
        },
{
    if is_text(s, "*") {
        return Ok(CronField::All);
    }
    let parts = split_chars(s, ',');
    let mut values: Vec<u32> = Vec::new();
    let mut i: usize = 0;
    let ghost ps = split_on(s@, ',');
    assert(ps.take(0) =~= Seq::<Seq<char>>::empty());
    while i < parts.len()
        invariant
            views(parts@) == ps,
            ps == split_on(s@, ','),
            s@ != "*"@,
            i <= parts.len(),
            strictly_sorted(values@),
            parts_outcome(ps.take(i as int), min, max) matches FieldOutcome::Values(acc)
                && same_members(values@, acc),
        decreases parts.len() - i,
    {
        assert(ps.take(i + 1).drop_last() =~= ps.take(i as int));
        assert(ps[i as int] == parts@[i as int]@);
        let ghost old_vals = values@;
        let res = parse_part(&parts[i], min, max, &mut values);
        match res {
            Ok(()) => {},
            Err(e) => {
                proof {
                    lemma_prefix_fault_stays(ps, i as int + 1, min, max);
                }
                return Err(e);
            },
        }
        i += 1;
    }
    assert(ps.take(parts.len() as int) =~= ps);
    Ok(CronField::Values(values))
}

/// A refusal among the first pieces is the refusal of the whole field.
proof fn lemma_prefix_fault_stays(ps: Seq<Seq<char>>, n: int, min: u32, max: u32)
    requires
        0 <= n <= ps.len(),
        is_fault(parts_outcome(ps.take(n), min, max)),
    ensures
        parts_outcome(ps, min, max) == parts_outcome(ps.take(n), min, max),
    decreases ps.len() - n,
{
    if n < ps.len() {
        assert(ps.take(n + 1).drop_last() =~= ps.take(n));
        lemma_prefix_fault_stays(ps, n + 1, min, max);
    } else {
        assert(ps.take(n) =~= ps);
    }
}

// ---------------------------------------------------------------- fields api

/// What `CronField::parse` gives for the meaning `o`.
pub open spec fn field_result(r: Result<CronField, ScheduleError>, o: FieldOutcome) -> bool {
    match o {
        FieldOutcome::All => r matches Ok(f) && f is All,
        FieldOutcome::Values(_) => r matches Ok(f) && field_is(f, o),
        _ => r matches Err(e) && error_is(e, o),
    }
}

impl CronField {
    /// Parses a cron field (`*`, `5`, `1,2,3`, `0-23`, `*/5`, `0-59/5`, `10/5`)
    /// whose values must lie in `[min, max]`.
    pub fn parse(s: &str, min: u32, max: u32) -> (r: Result<Self, ScheduleError>)
        requires
            !(field_outcome(s@, min, max) is Overflow),
        ensures
            field_result(r, field_outcome(s@, min, max)),
            (r matches Ok(CronField::All)) <==> s@ == "*"@,
            r matches Ok(CronField::Values(v)) ==> forall|i: int|
                0 <= i < v.len() ==> min <= #[trigger] v@[i] <= max,
    {
        proof {
            law_field_within_bounds(s@, min, max);
            lemma_parts_not_all(split_on(s@, ','), min, max);
        }
        let chars = chars_of(s);
        let r = match parse_field(&chars, min, max) {
            Ok(f) => Ok(f),
            Err(Some(e)) => Err(e),
            Err(None) => {
                proof {
                    assert(false);
                }
                Err(ScheduleError::ParseError(String::new()))
            },
        };
        proof {
            if let Ok(CronField::Values(v)) = &r {
                assert forall|i: int| 0 <= i < v.len() implies min <= #[trigger] v@[i] <= max by {
                    assert(v@.contains(v@[i]));
                }
            }
        }
        r
    }

    /// Whether parsing `s` would overflow a step's `u32` arithmetic (where
    /// `parse` cannot be called).
    pub fn overflows(s: &str, min: u32, max: u32) -> (r: bool)
        ensures
            r == (field_outcome(s@, min, max) is Overflow),
    {
        let chars = chars_of(s);
        match parse_field(&chars, min, max) {
            Err(None) => true,
            _ => false,
        }
    }

    /// Whether `value` belongs to the field.
    pub fn matches(&self, value: u32) -> (r: bool)
        ensures
            r == self.holds(value),
    {
        match self {
            CronField::All => true,
            CronField::Values(vals) => {
                let mut i: usize = 0;
                while i < vals.len()
                    invariant
                        *self == CronField::Values(*vals),
                        i <= vals.len(),
                        forall|j: int| 0 <= j < i ==> vals@[j] != value,
                    decreases vals.len() - i,
                {
                    if vals[i] == value {
                        assert(vals@[i as int] == value);
                        assert(vals@.contains(value));
                        return true;
                    }
                    i += 1;
                }
                false
            },
        }
    }
}

// ---------------------------------------------------------------- schedules

/// A parsed schedule.
#[derive(Debug, Clone)]
pub enum Schedule {
    /// A five-field cron expression.
    Cron {
        minute: CronField,
        hour: CronField,
        day_of_month: CronField,
        month: CronField,
        day_of_week: CronField,
    },
    /// A fixed interval (`@every`).
    Interval(Duration),
}

/// What a schedule expression means, or why it is refused. `Overflow`
/// stands for the inputs on which the arithmetic would overflow.
pub enum PlanOutcome {
    Cron(FieldOutcome, FieldOutcome, FieldOutcome, FieldOutcome, FieldOutcome),
    Every(int),
    BadSyntax(Seq<char>),
    OutOfRange(Seq<char>, u32),
    Overflow,
}

/// A field's refusal as the refusal of the whole expression.
pub open spec fn lift(o: FieldOutcome) -> PlanOutcome {
    match o {
        FieldOutcome::BadSyntax(m) => PlanOutcome::BadSyntax(m),
        FieldOutcome::OutOfRange(c, v) => PlanOutcome::OutOfRange(c, v),
        _ => PlanOutcome::Overflow,
    }
}

/// A five-field cron expression: minute 0-59, hour 0-23, day of month
/// 1-31, month 1-12, day of week 0-6 (0 is Sunday); the first refused field
/// decides.
#[verifier::opaque]
pub open spec fn cron_outcome(e: Seq<char>) -> PlanOutcome {
    let f = ws_split(e);
    if f.len() != 5 {
        PlanOutcome::BadSyntax(
            "L'expression cron doit avoir 5 champs, reçu "@ + decimal(f.len()) + " : '"@ + e
                + "'"@,
        )
    } else {
        let mi = field_outcome(f[0], 0, 59);
        let h = field_outcome(f[1], 0, 23);
        let dm = field_outcome(f[2], 1, 31);
        let mo = field_outcome(f[3], 1, 12);
        let dw = field_outcome(f[4], 0, 6);
        if is_fault(mi) {
            lift(mi)
        } else if is_fault(h) {
            lift(h)
        } else if is_fault(dm) {
            lift(dm)
        } else if is_fault(mo) {
            lift(mo)
        } else if is_fault(dw) {
            lift(dw)
        } else {
            PlanOutcome::Cron(mi, h, dm, mo, dw)
        }
    }
}

/// `@every` with the number `num` of units of `mult` seconds; `e` is the
/// whole (trimmed) expression.
pub open spec fn every_unit(num: Seq<char>, mult: int, e: Seq<char>) -> PlanOutcome {
    match parse_unsigned(num, u64::MAX as int) {
        None => PlanOutcome::BadSyntax("@every invalide: "@ + e),
        Some(n) => if n * mult > u64::MAX {
            PlanOutcome::Overflow
        } else {
            PlanOutcome::Every(n * mult)
        },
    }
}

/// `@every Nm`, `@every Nh` or `@every Ns`.
pub open spec fn every_outcome(e: Seq<char>) -> PlanOutcome {
    let rest = trim(e.skip("@every "@.len() as int));
    if rest.len() > 0 && rest.last() == 'm' {
        every_unit(rest.drop_last(), 60, e)
    } else if rest.len() > 0 && rest.last() == 'h' {
        every_unit(rest.drop_last(), 3600, e)
    } else if rest.len() > 0 && rest.last() == 's' {
        every_unit(rest.drop_last(), 1, e)
    } else {
        PlanOutcome::BadSyntax("@every doit être suivi de Xm, Xh ou Xs, reçu: "@ + rest)
    }
}

/// `e` begins with `lit`.
pub open spec fn starts_with(e: Seq<char>, lit: Seq<char>) -> bool {
    e.len() >= lit.len() && e.take(lit.len() as int) == lit
}

/// What a schedule expression means: surrounding whitespace is ignored;
/// `@daily`/`@midnight`, `@hourly`, `@weekly`, `@monthly` and
/// `@yearly`/`@annually` stand for cron expressions; `@every ` introduces
/// an interval; anything else is a five-field cron expression.
#[verifier::opaque]
pub open spec fn plan_outcome(expr: Seq<char>) -> PlanOutcome {
    let e = trim(expr);
    if e == "@daily"@ || e == "@midnight"@ {
        cron_outcome("0 0 * * *"@)
    } else if e == "@hourly"@ {
        cron_outcome("0 * * * *"@)
    } else if e == "@weekly"@ {
        cron_outcome("0 0 * * 0"@)
    } else if e == "@monthly"@ {
        cron_outcome("0 0 1 * *"@)
    } else if e == "@yearly"@ || e == "@annually"@ {
        cron_outcome("0 0 1 1 *"@)
    } else if starts_with(e, "@every "@) {
        every_outcome(e)
    } else {
        cron_outcome(e)
    }
}

/// `r` is what the meaning `o` describes.
pub open spec fn plan_is(r: Result<Schedule, ScheduleError>, o: PlanOutcome) -> bool {
    match o {
        PlanOutcome::Cron(a, b, c, d, e) => r matches Ok(
            Schedule::Cron { minute, hour, day_of_month, month, day_of_week },
        ) && field_is(minute, a) && field_is(hour, b) && field_is(day_of_month, c) && field_is(
            month,
            d,
        ) && field_is(day_of_week, e),
        PlanOutcome::Every(n) => r matches Ok(Schedule::Interval(d)) && d.secs_spec() == n
            && d.nanos_spec() == 0,
        PlanOutcome::BadSyntax(m) => r matches Err(ScheduleError::ParseError(msg)) && msg@ == m,
        PlanOutcome::OutOfRange(c, v) => r matches Err(ScheduleError::OutOfRange { champ, valeur })
            && champ@ == c && valeur == v,
        PlanOutcome::Overflow => false,
    }
}

/// What the parser gives for the meaning `o`: nothing in its error for an
/// overflow, else what `plan_is` says.
pub open spec fn parsed_as(r: Result<Schedule, Option<ScheduleError>>, o: PlanOutcome) -> bool {
    match o {
        PlanOutcome::Overflow => r matches Err(None),
        _ => match r {
            Ok(s) => plan_is(Ok(s), o),
            Err(Some(e)) => plan_is(Err(e), o),
            Err(None) => false,
        },
    }
}

/// The field outcome `o` as the outcome of a whole expression that failed on it.
fn lift_error(r: Result<CronField, Option<ScheduleError>>) -> (out: Result<Schedule, Option<ScheduleError>>)
    requires
        r is Err,
    ensures
        forall|o: FieldOutcome| #[trigger] is_fault(o) && (r matches Err(x) && fault_is(x, o)) ==> parsed_as(out, lift(o)),
{
    match r {
        Err(x) => Err(x),
        Ok(_) => Err(None),
    }
}

/// Whether `v` begins with `lit`.
fn starts_with_text(v: &Vec<char>, lit: &str) -> (r: bool)
    ensures
        r == starts_with(v@, lit@),
{
    let l = chars_of(lit);
    if v.len() < l.len() {
        return false;
    }
    let head = sub_chars(v, 0, l.len());
    assert(head@ =~= v@.take(l@.len() as int));
    same_chars(&head, &l)
}

/// A five-field cron expression.
fn parse_cron(e: &Vec<char>) -> (r: Result<Schedule, Option<ScheduleError>>)
    ensures
        parsed_as(r, cron_outcome(e@)),
{
    proof {
        reveal(cron_outcome);
    }
    let fields = split_ws(e);
    assert(views(fields@) == ws_split(e@));
    if fields.len() != 5 {
        let mut m = chars_of("L'expression cron doit avoir 5 champs, reçu ");
        let n = decimal_chars(fields.len() as u64);
        push_chars(&mut m, &n);
        push_text(&mut m, " : '");
        push_chars(&mut m, e);
        push_text(&mut m, "'");
        assert(m@ =~= "L'expression cron doit avoir 5 champs, reçu "@ + decimal(
            ws_split(e@).len(),
        ) + " : '"@ + e@ + "'"@);
        return Err(Some(ScheduleError::ParseError(string_of(&m))));
    }
    let ghost f = ws_split(e@);
    assert(fields@[0]@ == f[0] && fields@[1]@ == f[1] && fields@[2]@ == f[2] && fields@[3]@
        == f[3] && fields@[4]@ == f[4]);
    let minute = parse_field(&fields[0], 0, 59);
    if minute.is_err() {
        return lift_error(minute);
    }
    let hour = parse_field(&fields[1], 0, 23);
    if hour.is_err() {
        return lift_error(hour);
    }
    let day_of_month = parse_field(&fields[2], 1, 31);
    if day_of_month.is_err() {
        return lift_error(day_of_month);
    }
    let month = parse_field(&fields[3], 1, 12);
    if month.is_err() {
        return lift_error(month);
    }
    let day_of_week = parse_field(&fields[4], 0, 6);
    if day_of_week.is_err() {
        return lift_error(day_of_week);
    }
    Ok(
        Schedule::Cron {
            minute: minute.unwrap(),
            hour: hour.unwrap(),
            day_of_month: day_of_month.unwrap(),
            month: month.unwrap(),
            day_of_week: day_of_week.unwrap(),
        },
    )
}

/// `@every` with `num` units of `mult` seconds.
fn parse_every_unit(num: &Vec<char>, mult: u64, e: &Vec<char>) -> (r: Result<
    Schedule,
    Option<ScheduleError>,
>)
    ensures
        parsed_as(r, every_unit(num@, mult as int, e@)),
{
    match parse_unsigned_chars(num, 18446744073709551615) {
        None => Err(Some(ScheduleError::ParseError(message("@every invalide: ", e)))),
        Some(n) => {
            match n.checked_mul(mult) {
                Some(secs) => Ok(Schedule::Interval(Duration::from_secs(secs))),
                None => Err(None),
            }
        },
    }
}

/// An `@every` expression.
fn parse_every(e: &Vec<char>) -> (r: Result<Schedule, Option<ScheduleError>>)
    requires
        starts_with(e@, "@every "@),
    ensures
        parsed_as(r, every_outcome(e@)),
{
    let prefix = chars_of("@every ");
    let tail = sub_chars(e, prefix.len(), e.len());
    assert(tail@ =~= e@.skip("@every "@.len() as int));
    let rest = trim_chars(&tail);
    let n = rest.len();
    if n > 0 {
        let num = sub_chars(&rest, 0, n - 1);
        assert(num@ =~= rest@.drop_last());
        let last = rest[n - 1];
        if last == 'm' {
            return parse_every_unit(&num, 60, e);
        } else if last == 'h' {
            return parse_every_unit(&num, 3600, e);
        } else if last == 's' {
            return parse_every_unit(&num, 1, e);
        }
    }
    let msg = message("@every doit être suivi de Xm, Xh ou Xs, reçu: ", &rest);
    Err(Some(ScheduleError::ParseError(msg)))
}

/// One step of the search for the next matching minute.
#[derive(Debug, Clone, Copy, PartialEq, Eq, Structural)]
pub enum Advance {
    /// The month does not match: go to the first of the next month.
    NextMonth,
    /// The day does not match: go to the next midnight.
    NextDay,
    /// The hour does not match: go to the next whole hour.
    NextHour,
    /// The minute does not match: go to the next minute.
    NextMinute,
    /// Every field matches.
    Found,
}

/// Seconds in the search window of `next_occurrence`: four years of 366 days.
pub const SEARCH_WINDOW_SECS: i64 = 126489600;

/// The step budget of the search: the minutes of the window and two more,
/// so that a search that moves forward by whole minutes is never cut short
/// by it.
pub const SEARCH_STEPS: u64 = 2108162;

/// The time is matched by all five fields.
pub open spec fn cron_holds(
    minute: CronField,
    hour: CronField,
    day_of_month: CronField,
    month: CronField,
    day_of_week: CronField,
    t: CivilTime,
) -> bool {
    &&& month.holds(t.month as u32)
    &&& day_of_month.holds(t.day as u32)
    &&& day_of_week.holds(t.weekday as u32)
    &&& hour.holds(t.hour as u32)
    &&& minute.holds(t.minute as u32)
}

/// Which step the search takes at `t`: the month is checked first, then the
/// day of month and the day of week, then the hour, then the minute.
pub open spec fn advance_spec(
    minute: CronField,
    hour: CronField,
    day_of_month: CronField,
    month: CronField,
    day_of_week: CronField,
    t: CivilTime,
) -> Advance {
    if !month.holds(t.month as u32) {
        Advance::NextMonth
    } else if !(day_of_month.holds(t.day as u32) && day_of_week.holds(t.weekday as u32)) {
        Advance::NextDay
    } else if !hour.holds(t.hour as u32) {
        Advance::NextHour
    } else if !minute.holds(t.minute as u32) {
        Advance::NextMinute
    } else {
        Advance::Found
    }
}

/// Which step the search takes at `t` (see `advance_spec`).
pub fn advance_for(
    minute: &CronField,
    hour: &CronField,
    day_of_month: &CronField,
    month: &CronField,
    day_of_week: &CronField,
    t: &LocalDateTime,
) -> (a: Advance)
    ensures
        t@.wf(),
        a == advance_spec(*minute, *hour, *day_of_month, *month, *day_of_week, t@),
        a is Found <==> cron_holds(*minute, *hour, *day_of_month, *month, *day_of_week, t@),
        a is NextMonth <==> !month.holds(t@.month as u32),
        a is NextDay <==> month.holds(t@.month as u32) && !(day_of_month.holds(t@.day as u32)
            && day_of_week.holds(t@.weekday as u32)),
        a is NextHour <==> month.holds(t@.month as u32) && day_of_month.holds(t@.day as u32)
            && day_of_week.holds(t@.weekday as u32) && !hour.holds(t@.hour as u32),
{
    if !month.matches(t.month()) {
        Advance::NextMonth
    } else if !day_of_month.matches(t.day()) {
        Advance::NextDay
    } else if !day_of_week.matches(t.weekday_from_sunday()) {
        Advance::NextDay
    } else if !hour.matches(t.hour()) {
        Advance::NextHour
    } else if !minute.matches(t.minute()) {
        Advance::NextMinute
    } else {
        Advance::Found
    }
}

/// `a` is the instant `secs` seconds after `t`, with its nanoseconds.
pub open spec fn moved(t: CivilTime, a: CivilTime, secs: int) -> bool {
    a.timestamp == t.timestamp + secs && a.nanos == t.nanos
}

/// `n` is midnight on the first day of the month after `t`'s.
pub open spec fn month_start_after(t: CivilTime, n: CivilTime) -> bool {
    &&& n.year == (if t.month == 12 { t.year + 1 } else { t.year })
    &&& n.month == (if t.month == 12 { 1 } else { t.month + 1 })
    &&& n.day == 1 && n.hour == 0 && n.minute == 0 && n.second == 0 && n.nanos == 0
}

/// `n` is local midnight of the day of `a`, the instant 24 hours after `t`.
pub open spec fn day_start_via(t: CivilTime, a: CivilTime, n: CivilTime) -> bool {
    &&& moved(t, a, 86400)
    &&& a.wf()
    &&& n.same_date(a) && n.weekday == a.weekday
    &&& n.hour == 0 && n.minute == 0 && n.second == 0 && n.nanos == 0
    &&& n.timestamp + n.offset == a.timestamp + a.offset - a.clock_secs()
}

/// `n` is local midnight of the day of the instant 24 hours after `t`.
pub open spec fn day_start_after(t: CivilTime, n: CivilTime) -> bool {
    exists|a: CivilTime| #[trigger] day_start_via(t, a, n)
}

/// `n` is the start of the local hour of `a`, the instant one hour after `t`.
pub open spec fn hour_start_via(t: CivilTime, a: CivilTime, n: CivilTime) -> bool {
    &&& moved(t, a, 3600)
    &&& a.wf()
    &&& n.same_date(a) && n.weekday == a.weekday && n.hour == a.hour
    &&& n.minute == 0 && n.second == 0 && n.nanos == 0
    &&& n.timestamp + n.offset == a.timestamp + a.offset - a.minute * 60 - a.second
}

/// `n` is the start of the local hour of the instant one hour after `t`.
pub open spec fn hour_start_after(t: CivilTime, n: CivilTime) -> bool {
    exists|a: CivilTime| #[trigger] hour_start_via(t, a, n)
}

/// `n` is where the search begins: `a`, the instant one minute after `from`,
/// moved back by its local seconds to the start of its minute, with no
/// nanoseconds. Where the offset holds over that minute, `n` is `a` with its
/// second and nanosecond set to zero.
pub open spec fn first_candidate(from: CivilTime, a: CivilTime, n: CivilTime) -> bool {
    &&& moved(from, a, 60)
    &&& a.wf()
    &&& n.timestamp == a.timestamp - a.second
    &&& n.nanos == 0
}

/// The search moves from the candidate `t` to `n`, through the instant `a`
/// where it moves by a day or an hour (else `a` is `n`): to the next month, day, hour or
/// minute, as the first field that `t` fails asks; never on from a
/// candidate that all fields match.
pub open spec fn step_via(
    minute: CronField,
    hour: CronField,
    day_of_month: CronField,
    month: CronField,
    day_of_week: CronField,
    t: CivilTime,
    a: CivilTime,
    n: CivilTime,
) -> bool {
    match advance_spec(minute, hour, day_of_month, month, day_of_week, t) {
        Advance::NextMonth => a == n && month_start_after(t, n),
        Advance::NextDay => day_start_via(t, a, n),
        Advance::NextHour => hour_start_via(t, a, n),
        Advance::NextMinute => a == n && moved(t, n, 60),
        Advance::Found => false,
    }
}

/// The search moves from the candidate `t` to `n`.
pub open spec fn candidate_step(
    minute: CronField,
    hour: CronField,
    day_of_month: CronField,
    month: CronField,
    day_of_week: CronField,
    t: CivilTime,
    n: CivilTime,
) -> bool {
    exists|a: CivilTime| #[trigger] step_via(minute, hour, day_of_month, month, day_of_week, t, a, n)
}

/// Midnight on the first day of the month after `t`'s. The day is set to
/// the first before the month and the year change, so every step is a day
/// that exists.
fn advance_to_next_month(t: &LocalDateTime) -> (r: Option<LocalDateTime>)
    ensures
        r matches Some(v) ==> v@.wf() && month_start_after(t@, v@),
{
    let (year, month) = if t.month() == 12 {
        (t.year() + 1, 1u32)
    } else {
        (t.year(), t.month() + 1)
    };
    let a = t.with_day(1)?;
    let b = a.with_month(month)?;
    let c = b.with_year(year)?;
    let d = c.with_hour(0)?;
    let e = d.with_minute(0)?;
    let f = e.with_second(0)?;
    f.with_nanosecond(0)
}

/// Midnight of the local day that follows `t` by 24 hours; none when that
/// instant lies past the range chrono represents.
fn advance_to_next_day(t: &LocalDateTime) -> (r: Option<LocalDateTime>)
    ensures
        r matches Some(v) ==> v@.wf() && day_start_after(t@, v@),
        t@.representable() && t@.timestamp + 86400 > MAX_TIMESTAMP ==> r is None,
{
    let next = t.checked_add_seconds(86400)?;
    let a = next.with_hour(0)?;
    let b = a.with_minute(0)?;
    let c = b.with_second(0)?;
    let r = c.with_nanosecond(0);
    proof {
        if let Some(v) = r {
            assert(day_start_via(t@, next@, v@));
        }
    }
    r
}

/// The start of the local hour that follows `t` by one hour; none when that
/// instant lies past the range chrono represents.
fn advance_to_next_hour(t: &LocalDateTime) -> (r: Option<LocalDateTime>)
    ensures
        r matches Some(v) ==> v@.wf() && hour_start_after(t@, v@),
        t@.representable() && t@.timestamp + 3600 > MAX_TIMESTAMP ==> r is None,
{
    let next = t.checked_add_seconds(3600)?;
    let a = next.with_minute(0)?;
    let b = a.with_second(0)?;
    let r = b.with_nanosecond(0);
    proof {
        if let Some(v) = r {
            assert(hour_start_via(t@, next@, v@));
        }
    }
    r
}

/// The next occurrence after `from` can be computed without leaving the
/// range of instants and durations that chrono represents.
pub open spec fn next_defined(s: Schedule, from: CivilTime) -> bool {
    &&& from.representable()
    &&& match s {
        Schedule::Interval(d) => -MAX_DELTA_SECS <= (d.secs_spec() as i64) <= MAX_DELTA_SECS
            && from.timestamp + (d.secs_spec() as i64) <= MAX_TIMESTAMP && MIN_TIMESTAMP
            <= from.timestamp + (d.secs_spec() as i64),
        Schedule::Cron { .. } => from.timestamp + SEARCH_WINDOW_SECS <= MAX_TIMESTAMP,
    }
}

/// `r` is what the next occurrence of `s` after `from` may be: for an
/// interval, `from` moved by the interval's seconds (as an `i64`); for a cron
/// expression, the minute that the search from `from` found (the first of
/// its candidates that all five fields match, whole and within the window),
/// or nothing where the search stopped; nothing when no day of the calendar
/// has a matching day of month and month.
pub open spec fn occurrence_ok(s: Schedule, from: CivilTime, r: Option<LocalDateTime>) -> bool {
    match s {
        Schedule::Interval(d) => r matches Some(v) && v@.timestamp == from.timestamp + (
        d.secs_spec() as i64) && v@.nanos == from.nanos,
        Schedule::Cron { minute, hour, day_of_month, month, day_of_week } => {
            &&& r matches Some(v) ==> {
                &&& cron_holds(minute, hour, day_of_month, month, day_of_week, v@)
                &&& v@.nanos == 0
                &&& v@.timestamp <= from.timestamp + SEARCH_WINDOW_SECS
                &&& found_by_search(minute, hour, day_of_month, month, day_of_week, from, v@)
            }
            &&& r is None ==> stopped_search(minute, hour, day_of_month, month, day_of_week, from)
            &&& !day_possible(day_of_month, month) ==> r is None
        },
    }
}

impl Schedule {
    /// Parses a schedule expression: `* * * * *`-style cron expressions,
    /// `@daily`, `@midnight`, `@hourly`, `@weekly`, `@monthly`, `@yearly`,
    /// `@annually`, and `@every Nm`, `@every Nh`, `@every Ns`.
    pub fn parse(expr: &str) -> (r: Result<Self, ScheduleError>)
        requires
            !(plan_outcome(expr@) is Overflow),
        ensures
            plan_is(r, plan_outcome(expr@)),
    {
        match Self::parse_plan(expr) {
            Ok(s) => Ok(s),
            Err(Some(e)) => Err(e),
            Err(None) => {
                proof {
                    assert(false);
                }
                Err(ScheduleError::ParseError(String::new()))
            },
        }
    }

    /// Whether parsing `expr` would overflow the integers that hold a step
    /// or an interval (where `parse` cannot be called).
    pub fn overflows(expr: &str) -> (r: bool)
        ensures
            r == (plan_outcome(expr@) is Overflow),
    {
        match Self::parse_plan(expr) {
            Err(None) => true,
            _ => false,
        }
    }

    /// The parser behind `parse`, which reports an overflow with no error.
    fn parse_plan(expr: &str) -> (r: Result<Self, Option<ScheduleError>>)
        ensures
            parsed_as(r, plan_outcome(expr@)),
    {
        proof {
            reveal(plan_outcome);
        }
        let chars = chars_of(expr);
        let e = trim_chars(&chars);
        if is_text(&e, "@daily") || is_text(&e, "@midnight") {
            let c = chars_of("0 0 * * *");
            return parse_cron(&c);
        }
        if is_text(&e, "@hourly") {
            let c = chars_of("0 * * * *");
            return parse_cron(&c);
        }
        if is_text(&e, "@weekly") {
            let c = chars_of("0 0 * * 0");
            return parse_cron(&c);
        }
        if is_text(&e, "@monthly") {
            let c = chars_of("0 0 1 * *");
            return parse_cron(&c);
        }
        if is_text(&e, "@yearly") || is_text(&e, "@annually") {
            let c = chars_of("0 0 1 1 *");
            return parse_cron(&c);
        }
        if starts_with_text(&e, "@every ") {
            return parse_every(&e);
        }
        parse_cron(&e)
    }

    /// The next time the schedule fires after `from`. An interval fires
    /// `from` plus the interval (its seconds taken as an `i64`, as a cast
    /// gives them). A cron expression fires at the first minute, searched
    /// from the minute after `from` and for at most four years of 366 days,
    /// that all five fields match; `None` when the search finds none or a
    /// local time it needs does not exist in the time zone. The search and
    /// its steps are `search_found` and `next_candidate`; where the time zone
    /// keeps one offset, `law_found_after_from` and `law_found_is_first` show
    /// that the minute found is the first matching one after `from`, and
    /// `law_window_without_match` that a search that ran past the window
    /// skipped no match; `law_match_in_window_not_missed` that a search
    /// ends with no result while a minute of the window matches only where
    /// chrono refused the local time of a step to a later month, day or hour.
    pub fn next_occurrence(&self, from: &LocalDateTime) -> (r: Option<LocalDateTime>)
        requires
            next_defined(*self, from@),
        ensures
            occurrence_ok(*self, from@, r),
    {
        match self {
            Schedule::Interval(d) => {
                let secs = d.as_secs() as i64;
                let r = from.checked_add_seconds(secs);
                r
            },
            Schedule::Cron { minute, hour, day_of_month, month, day_of_week } => {
                search_cron(minute, hour, day_of_month, month, day_of_week, from)
            },
        }
    }

    /// Whether the next occurrence after `from` can be computed: `from` and,
    /// for an interval, `from` moved by it lie in the range chrono represents.
    pub fn next_is_defined(&self, from: &LocalDateTime) -> (r: bool)
        ensures
            r == next_defined(*self, from@),
    {
        let ts = from.timestamp() as i128;
        if ts < MIN_TIMESTAMP as i128 || ts > MAX_TIMESTAMP as i128 {
            return false;
        }
        match self {
            Schedule::Interval(d) => {
                let secs = d.as_secs() as i64;
                -(MAX_DELTA_SECS as i128) <= secs as i128 && secs as i128 <= MAX_DELTA_SECS as i128
                    && ts + secs as i128 <= MAX_TIMESTAMP as i128 && MIN_TIMESTAMP as i128 <= ts
                    + secs as i128
            },
            Schedule::Cron { .. } => ts + SEARCH_WINDOW_SECS as i128 <= MAX_TIMESTAMP as i128,
        }
    }

    /// A readable description: intervals in hours, minutes or seconds, the
    /// largest unit that divides them exactly; cron expressions generically.
    pub fn description(&self) -> (r: String)
        ensures
            r@ == description_text(*self),
    {
        match self {
            Schedule::Interval(d) => {
                let secs = d.as_secs();
                if secs % 3600 == 0 {
                    unit_text(secs / 3600, " heure(s)")
                } else if secs % 60 == 0 {
                    unit_text(secs / 60, " minute(s)")
                } else {
                    unit_text(secs, " seconde(s)")
                }
            },
            Schedule::Cron { .. } => {
                let m = chars_of("Expression cron");
                string_of(&m)
            },
        }
    }
}

/// Some day of the calendar has a day of month and a month that the fields
/// match.
pub open spec fn day_possible(day_of_month: CronField, month: CronField) -> bool {
    exists|y: int, m: u32, d: u32|
        #[trigger] date_exists(y, m as int, d as int) && #[trigger] month.holds(m) && #[trigger]
            day_of_month.holds(d)
}

/// The candidate is before the end of the search window from `from`.
pub open spec fn before_limit(from: CivilTime, t: CivilTime) -> bool {
    t.before(CivilTime { timestamp: from.timestamp + SEARCH_WINDOW_SECS, ..from })
}

/// The candidates `path` are those the search visits from `from`, in order,
/// and `vias` the instants they were reached through: the first candidate,
/// then a step from each to the next, each left while it is within the
/// window, no more than the step budget allows.
pub open spec fn search_path(
    minute: CronField,
    hour: CronField,
    day_of_month: CronField,
    month: CronField,
    day_of_week: CronField,
    from: CivilTime,
    vias: Seq<CivilTime>,
    path: Seq<CivilTime>,
) -> bool {
    &&& 1 <= path.len() <= SEARCH_STEPS + 1
    &&& vias.len() == path.len()
    &&& first_candidate(from, vias[0], path[0])
    &&& forall|i: int| 0 <= i < path.len() ==> (#[trigger] path[i]).wf()
    &&& forall|i: int|
        0 <= i < path.len() - 1 ==> before_limit(from, #[trigger] path[i]) && step_via(
            minute,
            hour,
            day_of_month,
            month,
            day_of_week,
            path[i],
            vias[i + 1],
            path[i + 1],
        )
}

/// chrono may give no candidate after `t`: the step from `t` goes to the
/// next month, day or hour, a local time that chrono resolves in the
/// machine's time zone, or to the next minute past the range chrono
/// represents.
pub open spec fn step_refusable(
    minute: CronField,
    hour: CronField,
    day_of_month: CronField,
    month: CronField,
    day_of_week: CronField,
    t: CivilTime,
) -> bool {
    match advance_spec(minute, hour, day_of_month, month, day_of_week, t) {
        Advance::NextMonth => true,
        Advance::NextDay => true,
        Advance::NextHour => true,
        Advance::NextMinute => !t.representable() || t.timestamp + 60 > MAX_TIMESTAMP,
        Advance::Found => false,
    }
}

/// The search stopped with no result after visiting `path`: the last
/// candidate is past the window, or the step budget is used up, or chrono
/// gave no candidate after the last one where it may refuse one.
pub open spec fn search_stopped(
    minute: CronField,
    hour: CronField,
    day_of_month: CronField,
    month: CronField,
    day_of_week: CronField,
    from: CivilTime,
    vias: Seq<CivilTime>,
    path: Seq<CivilTime>,
) -> bool {
    &&& search_path(minute, hour, day_of_month, month, day_of_week, from, vias, path)
    &&& {
        ||| !before_limit(from, path.last())
        ||| path.len() == SEARCH_STEPS + 1
        ||| step_refusable(minute, hour, day_of_month, month, day_of_week, path.last())
    }
}

/// The search found `v`: the last of the candidates `path` it visited, within
/// the window and matched by all five fields, after candidates none of which
/// the fields matched.
pub open spec fn search_found(
    minute: CronField,
    hour: CronField,
    day_of_month: CronField,
    month: CronField,
    day_of_week: CronField,
    from: CivilTime,
    vias: Seq<CivilTime>,
    path: Seq<CivilTime>,
    v: CivilTime,
) -> bool {
    &&& search_path(minute, hour, day_of_month, month, day_of_week, from, vias, path)
    &&& path.last() == v
    &&& before_limit(from, v)
    &&& advance_spec(minute, hour, day_of_month, month, day_of_week, v) is Found
}

/// Some path of the search from `from` found `v`.
pub open spec fn found_by_search(
    minute: CronField,
    hour: CronField,
    day_of_month: CronField,
    month: CronField,
    day_of_week: CronField,
    from: CivilTime,
    v: CivilTime,
) -> bool {
    exists|vias: Seq<CivilTime>, path: Seq<CivilTime>|
        #[trigger] search_found(minute, hour, day_of_month, month, day_of_week, from, vias, path, v)
}

/// Some path of the search from `from` stopped with no result.
pub open spec fn stopped_search(
    minute: CronField,
    hour: CronField,
    day_of_month: CronField,
    month: CronField,
    day_of_week: CronField,
    from: CivilTime,
) -> bool {
    exists|vias: Seq<CivilTime>, path: Seq<CivilTime>|
        #[trigger] search_stopped(minute, hour, day_of_month, month, day_of_week, from, vias, path)
}

/// The candidate after `t` when the fields do not all match it: the next
/// month, day, hour or minute, as the first field that fails asks. None when
/// chrono has no such local time, or the instant it moves to is out of its
/// range.
pub fn next_candidate(
    minute: &CronField,
    hour: &CronField,
    day_of_month: &CronField,
    month: &CronField,
    day_of_week: &CronField,
    t: &LocalDateTime,
) -> (r: Option<LocalDateTime>)
    requires
        !(advance_spec(*minute, *hour, *day_of_month, *month, *day_of_week, t@) is Found),
    ensures
        r matches Some(n) ==> n@.wf() && candidate_step(
            *minute,
            *hour,
            *day_of_month,
            *month,
            *day_of_week,
            t@,
            n@,
        ),
        advance_spec(*minute, *hour, *day_of_month, *month, *day_of_week, t@) is NextMinute
            && t@.representable() ==> (r is Some <==> t@.timestamp + 60 <= MAX_TIMESTAMP),
{
    let r = match advance_for(minute, hour, day_of_month, month, day_of_week, t) {
        Advance::NextMonth => advance_to_next_month(t),
        Advance::NextDay => advance_to_next_day(t),
        Advance::NextHour => advance_to_next_hour(t),
        Advance::NextMinute => t.checked_add_seconds(60),
        Advance::Found => None,
    };
    proof {
        if let Some(n) = r {
            if advance_spec(*minute, *hour, *day_of_month, *month, *day_of_week, t@) is NextDay {
                let a = choose|a: CivilTime| #[trigger] day_start_via(t@, a, n@);
                assert(step_via(*minute, *hour, *day_of_month, *month, *day_of_week, t@, a, n@));
            } else if advance_spec(*minute, *hour, *day_of_month, *month, *day_of_week, t@) is NextHour {
                let a = choose|a: CivilTime| #[trigger] hour_start_via(t@, a, n@);
                assert(step_via(*minute, *hour, *day_of_month, *month, *day_of_week, t@, a, n@));
            } else {
                assert(step_via(*minute, *hour, *day_of_month, *month, *day_of_week, t@, n@, n@));
            }
        }
    }
    r
}

/// The first minute after `from` that the five fields match, searched for
/// at most four years of 366 days; none when no day of the calendar has a
/// matching day of month and month (such as February 30). The search
/// begins one minute after `from`, moved back by its local seconds to the
/// start of that minute, with no nanoseconds.
fn search_cron(
    minute: &CronField,
    hour: &CronField,
    day_of_month: &CronField,
    month: &CronField,
    day_of_week: &CronField,
    from: &LocalDateTime,
) -> (r: Option<LocalDateTime>)
    requires
        from@.representable(),
        from@.timestamp + SEARCH_WINDOW_SECS <= MAX_TIMESTAMP,
    ensures
        r matches Some(v) ==> {
            &&& cron_holds(*minute, *hour, *day_of_month, *month, *day_of_week, v@)
            &&& v@.nanos == 0
            &&& v@.timestamp <= from@.timestamp + SEARCH_WINDOW_SECS
        },
        r matches Some(v) ==> found_by_search(
            *minute,
            *hour,
            *day_of_month,
            *month,
            *day_of_week,
            from@,
            v@,
        ),
        r is None ==> stopped_search(*minute, *hour, *day_of_month, *month, *day_of_week, from@),
        !day_possible(*day_of_month, *month) ==> r is None,
{
    let ghost (mi, h, dm, mo, dw) = (*minute, *hour, *day_of_month, *month, *day_of_week);
    let start = match from.checked_add_seconds(60) {
        Some(a) => a,
        None => {
            assert(false);
            return None;
        },
    };
    let back = start.second() as i64;
    let mut t = match LocalDateTime::from_timestamp(start.timestamp() - back, 0) {
        Some(c) => c,
        None => {
            assert(false);
            return None;
        },
    };
    proof {
        assert(first_candidate(from@, start@, t@));
    }
    let limit = match from.checked_add_seconds(SEARCH_WINDOW_SECS) {
        Some(l) => l,
        None => {
            assert(false);
            return None;
        },
    };
    let ghost mut path: Seq<CivilTime> = seq![t@];
    let ghost mut vias: Seq<CivilTime> = seq![start@];
    let mut fuel: u64 = SEARCH_STEPS;
    while t.is_before(&limit)
        invariant
            mi == *minute && h == *hour && dm == *day_of_month && mo == *month && dw == *day_of_week,
            limit@.timestamp == from@.timestamp + SEARCH_WINDOW_SECS,
            limit@.nanos == from@.nanos,
            t@.nanos == 0,
            fuel <= SEARCH_STEPS,
            path.len() == SEARCH_STEPS - fuel + 1,
            search_path(mi, h, dm, mo, dw, from@, vias, path),
            path.last() == t@,
        decreases fuel,
    {
        proof {
            assert(before_limit(from@, t@));
        }
        if fuel == 0 {
            assert(search_stopped(mi, h, dm, mo, dw, from@, vias, path));
            return None;
        }
        fuel -= 1;
        match advance_for(minute, hour, day_of_month, month, day_of_week, &t) {
            Advance::Found => {
                proof {
                    assert(date_exists(t@.year, t@.month, t@.day) && month.holds(t@.month as u32)
                        && day_of_month.holds(t@.day as u32));
                    assert(search_found(
                        *minute,
                        *hour,
                        *day_of_month,
                        *month,
                        *day_of_week,
                        from@,
                        vias,
                        path,
                        t@,
                    ));
                }
                return Some(t);
            },
            _ => {},
        }
        match next_candidate(minute, hour, day_of_month, month, day_of_week, &t) {
            Some(n) => {
                proof {
                    let a = choose|a: CivilTime| #[trigger] step_via(mi, h, dm, mo, dw, t@, a, n@);
                    let old_path = path;
                    let old_vias = vias;
                    path = path.push(n@);
                    vias = vias.push(a);
                    assert forall|i: int| 0 <= i < path.len() implies (#[trigger] path[i]).wf() by {
                        if i < old_path.len() {
                            assert(path[i] == old_path[i]);
                        }
                    }
                    assert forall|i: int| 0 <= i < path.len() - 1 implies before_limit(
                        from@,
                        #[trigger] path[i],
                    ) && step_via(mi, h, dm, mo, dw, path[i], vias[i + 1], path[i + 1]) by {
                        if i < old_path.len() - 1 {
                            assert(path[i] == old_path[i] && path[i + 1] == old_path[i + 1]);
                            assert(vias[i + 1] == old_vias[i + 1]);
                        } else {
                            assert(path[i] == t@ && path[i + 1] == n@ && vias[i + 1] == a);
                        }
                    }
                    assert(vias[0] == old_vias[0] && path[0] == old_path[0]);
                }
                t = n;
            },
            None => {
                assert(search_stopped(mi, h, dm, mo, dw, from@, vias, path));
                return None;
            },
        }
    }
    proof {
        assert(!before_limit(from@, t@));
        assert(search_stopped(mi, h, dm, mo, dw, from@, vias, path));
    }
    None
}

/// `Toutes les <n><unit>`.
fn unit_text(n: u64, unit: &str) -> (r: String)
    ensures
        r@ == "Toutes les "@ + decimal(n as nat) + unit@,
{
    let mut m = chars_of("Toutes les ");
    push_decimal(&mut m, n);
    push_text(&mut m, unit);
    string_of(&m)
}

/// The description of a schedule.
pub open spec fn description_text(s: Schedule) -> Seq<char> {
    match s {
        Schedule::Interval(d) => {
            let secs = d.secs_spec();
            if secs % 3600 == 0 {
                "Toutes les "@ + decimal((secs / 3600) as nat) + " heure(s)"@
            } else if secs % 60 == 0 {
                "Toutes les "@ + decimal((secs / 60) as nat) + " minute(s)"@
            } else {
                "Toutes les "@ + decimal(secs as nat) + " seconde(s)"@
            }
        },
        Schedule::Cron { .. } => "Expression cron"@,
    }
}

/// The text of an error, as its `Display` shows it.
pub open spec fn error_text(e: ScheduleError) -> Seq<char> {
    match e {
        ScheduleError::ParseError(m) => "Expression invalide: "@ + m@,
        ScheduleError::OutOfRange { champ, valeur } => "Valeur hors limites: champ="@ + champ@
            + ", valeur="@ + decimal(valeur as nat),
    }
}

/// The text of the error that the refusal `o` describes.
pub open spec fn fault_text(o: PlanOutcome) -> Seq<char> {
    match o {
        PlanOutcome::BadSyntax(m) => "Expression invalide: "@ + m,
        PlanOutcome::OutOfRange(c, v) => "Valeur hors limites: champ="@ + c + ", valeur="@ + decimal(
            v as nat,
        ),
        _ => Seq::empty(),
    }
}

/// A refused expression.
pub open spec fn plan_refused(o: PlanOutcome) -> bool {
    o is BadSyntax || o is OutOfRange
}

impl ScheduleError {
    /// The error's text: `Expression invalide: <message>` or
    /// `Valeur hors limites: champ=<champ>, valeur=<valeur>`.
    pub fn to_string(&self) -> (r: String)
        ensures
            r@ == error_text(*self),
    {
        match self {
            ScheduleError::ParseError(m) => {
                let mc = chars_of(m.as_str());
                message("Expression invalide: ", &mc)
            },
            ScheduleError::OutOfRange { champ, valeur } => {
                let mut out = chars_of("Valeur hors limites: champ=");
                let c = chars_of(champ.as_str());
                push_chars(&mut out, &c);
                push_text(&mut out, ", valeur=");
                push_decimal(&mut out, *valeur as u64);
                string_of(&out)
            },
        }
    }
}

// ---------------------------------------------------------------- laws

/// All the values of `set` lie in `[min, max]`.
pub open spec fn within(set: Set<u32>, min: u32, max: u32) -> bool {
    forall|v: u32| #[trigger] set.contains(v) ==> min <= v <= max
}

proof fn lemma_stepping_within(v: u32, hi: u32, st: u32, min: u32, max: u32)
    requires
        st > 0,
    ensures
        stepping(v, hi, st, min, max) matches FieldOutcome::Values(set) ==> within(set, min, max),
    decreases (if v > hi { 0 } else { hi + 1 - v }),
{
    if v <= hi && min <= v <= max && v + st <= u32::MAX {
        lemma_stepping_within((v + st) as u32, hi, st, min, max);
    }
}

proof fn lemma_part_within(p: Seq<char>, min: u32, max: u32)
    ensures
        part_outcome(p, min, max) matches FieldOutcome::Values(set) ==> within(set, min, max),
{
    if has_char(p, '/') {
        let rhs = after_first(p, '/');
        if let Some(st) = parse_u32(rhs) {
            if st > 0 {
                if let Ok((lo, hi)) = step_range(before_first(p, '/'), min, max) {
                    lemma_stepping_within(lo, hi, st, min, max);
                }
            }
        }
    }
}

proof fn lemma_parts_within(ps: Seq<Seq<char>>, min: u32, max: u32)
    ensures
        parts_outcome(ps, min, max) matches FieldOutcome::Values(set) ==> within(set, min, max),
    decreases ps.len(),
{
    if ps.len() > 0 {
        lemma_parts_within(ps.drop_last(), min, max);
        lemma_part_within(ps.last(), min, max);
    }
}

/// Comma-separated pieces never mean every value.
proof fn lemma_parts_not_all(ps: Seq<Seq<char>>, min: u32, max: u32)
    ensures
        !(parts_outcome(ps, min, max) is All),
    decreases ps.len(),
{
    if ps.len() > 0 {
        lemma_parts_not_all(ps.drop_last(), min, max);
        lemma_part_not_all(ps.last(), min, max);
    }
}

proof fn lemma_stepping_not_all(v: u32, hi: u32, st: u32, min: u32, max: u32)
    requires
        st > 0,
    ensures
        !(stepping(v, hi, st, min, max) is All),
    decreases (if v > hi { 0 } else { hi + 1 - v }),
{
    if v <= hi && min <= v <= max && v + st <= u32::MAX {
        lemma_stepping_not_all((v + st) as u32, hi, st, min, max);
    }
}

proof fn lemma_part_not_all(p: Seq<char>, min: u32, max: u32)
    ensures
        !(part_outcome(p, min, max) is All),
{
    if has_char(p, '/') {
        let rhs = after_first(p, '/');
        if let Some(st) = parse_u32(rhs) {
            if st > 0 {
                if let Ok((lo, hi)) = step_range(before_first(p, '/'), min, max) {
                    lemma_stepping_not_all(lo, hi, st, min, max);
                }
            }
        }
    }
}

/// Every value that a field accepts lies within the field's bounds.
pub proof fn law_field_within_bounds(s: Seq<char>, min: u32, max: u32)
    ensures
        field_outcome(s, min, max) matches FieldOutcome::Values(set) ==> within(set, min, max),
{
    if s != "*"@ {
        lemma_parts_within(split_on(s, ','), min, max);
    }
}

/// A text without the separator is one piece.
proof fn lemma_split_single(s: Seq<char>, sep: char)
    requires
        !has_char(s, sep),
    ensures
        split_on(s, sep) == seq![s],
    decreases s.len(),
{
    if s.len() > 0 {
        assert(!has_char(s.drop_last(), sep)) by {
            if has_char(s.drop_last(), sep) {
                let i = choose|i: int| 0 <= i < s.drop_last().len() && s.drop_last()[i] == sep;
                assert(s[i] == sep);
            }
        }
        lemma_split_single(s.drop_last(), sep);
        assert(s.last() != sep);
        assert(s.drop_last().push(s.last()) =~= s);
        let prev = split_on(s.drop_last(), sep);
        assert(prev.update(prev.len() - 1, prev.last().push(s.last())) =~= seq![s]);
    } else {
        assert(s =~= Seq::<char>::empty());
    }
}

/// The values `v, v + st, ...` up to `hi`, starting on the grid of `st`
/// above `base`, with `hi` within the field: every value of the grid from
/// `v` to `hi`, none refused as out of range; no overflow while `hi + st`
/// fits.
proof fn lemma_stepping_grid(v: u32, hi: u32, st: u32, base: u32, min: u32, max: u32)
    requires
        st > 0,
        min <= v,
        base <= v,
        hi <= max,
        (v - base) % (st as int) == 0,
    ensures
        stepping(v, hi, st, min, max) is Values || stepping(v, hi, st, min, max) is Overflow,
        hi + st <= u32::MAX ==> stepping(v, hi, st, min, max) is Values,
        stepping(v, hi, st, min, max) matches FieldOutcome::Values(set) ==> set == Set::new(
            |x: u32| v <= x <= hi && (x - base) % (st as int) == 0,
        ),
    decreases (if v > hi { 0 } else { hi + 1 - v }),
{
    let grid = Set::new(|x: u32| v <= x <= hi && (x - base) % (st as int) == 0);
    if v > hi {
        assert(grid =~= Set::empty());
    } else if v + st <= u32::MAX {
        let w = (v + st) as u32;
        assert((w - base) % (st as int) == 0) by {
            vstd::arithmetic::div_mod::lemma_mod_add_multiples_vanish((v - base) as int, st as int);
        }
        lemma_stepping_grid(w, hi, st, base, min, max);
        if let FieldOutcome::Values(rest) = stepping(w, hi, st, min, max) {
            assert forall|x: u32| #[trigger] grid.contains(x) implies rest.insert(v).contains(x) by {
                if x != v {
                    assert(v < x);
                    assert(x >= w) by {
                        let xm = (x - base) as int;
                        let vm = (v - base) as int;
                        let q = xm / (st as int);
                        let p = vm / (st as int);
                        vstd::arithmetic::div_mod::lemma_fundamental_div_mod(xm, st as int);
                        vstd::arithmetic::div_mod::lemma_fundamental_div_mod(vm, st as int);
                        assert(xm == st * q);
                        assert(vm == st * p);
                        assert(xm >= vm + st) by (nonlinear_arith)
                            requires
                                xm == st * q,
                                vm == st * p,
                                xm > vm,
                                st > 0,
                        ;
                    }
                }
            }
            assert(rest.insert(v) =~= grid);
        }
    }
}

/// The text of a number that `parse_u32` accepts holds none of the
/// characters that separate the pieces of a field.
proof fn lemma_number_text(t: Seq<char>)
    requires
        parse_u32(t) is Some,
    ensures
        t.len() > 0,
        forall|i: int| 0 <= i < t.len() ==> t[i] != ',' && t[i] != '/' && t[i] != '-' && t[i] != '*',
{
    let d = crate::text::unsigned_body(t);
    assert(d.len() > 0 && crate::text::all_digits(d));
    assert forall|i: int| 0 <= i < t.len() implies t[i] != ',' && t[i] != '/' && t[i] != '-' && t[i]
        != '*' by {
        if t[0] == '+' {
            if i > 0 {
                assert(t[i] == d[i - 1]);
                assert(crate::text::is_digit(d[i - 1]));
            }
        } else {
            assert(t[i] == d[i]);
            assert(crate::text::is_digit(d[i]));
        }
    }
}

/// Split at the first `c`: what comes before it and what comes after it.
proof fn lemma_first_split(x: Seq<char>, c: char, y: Seq<char>)
    requires
        forall|i: int| 0 <= i < x.len() ==> x[i] != c,
    ensures
        has_char(x + seq![c] + y, c),
        before_first(x + seq![c] + y, c) == x,
        after_first(x + seq![c] + y, c) == y,
{
    let s = x + seq![c] + y;
    assert(s[x.len() as int] == c);
    assert(is_first_pos(s, c, x.len() as int));
    let k = crate::text::first_pos(s, c);
    assert(is_first_pos(s, c, k));
    assert(k == x.len()) by {
        if k < x.len() {
            assert(s[k] == x[k]);
        } else if k > x.len() {
            assert(s[x.len() as int] != c);
        }
    }
    assert(before_first(s, c) =~= x);
    assert(after_first(s, c) =~= y);
}

/// A text without `,` is one piece, which is what the field means.
proof fn lemma_single_piece(s: Seq<char>, min: u32, max: u32)
    requires
        s != "*"@,
        !has_char(s, ','),
    ensures
        field_outcome(s, min, max) == part_outcome(s, min, max),
{
    lemma_split_single(s, ',');
    assert(seq![s].drop_last() =~= Seq::<Seq<char>>::empty());
    assert(seq![s].last() == s);
    reveal_with_fuel(parts_outcome, 2);
    if let FieldOutcome::Values(x) = part_outcome(s, min, max) {
        assert(Set::<u32>::empty() + x =~= x);
    }
}

/// A step over a range, `a-b/n` with `n > 0` and `min <= a`, `b <= max`,
/// means exactly the values from `a` to `b` that lie a multiple of `n` above
/// `a`: it is never refused as a syntax error or as out of range, and only
/// a step so large that `b + n` passes `u32::MAX` can overflow.
pub proof fn law_range_step(ta: Seq<char>, tb: Seq<char>, r: Seq<char>, a: u32, b: u32, n: u32, min: u32, max: u32)
    requires
        parse_u32(ta) == Some(a),
        parse_u32(tb) == Some(b),
        parse_u32(r) == Some(n),
        n > 0,
        min <= a,
        b <= max,
    ensures
        ({
            let o = field_outcome(ta + seq!['-'] + tb + seq!['/'] + r, min, max);
            &&& !(o is BadSyntax) && !(o is OutOfRange) && !(o is All)
            &&& b + n <= u32::MAX ==> !(o is Overflow)
            &&& !(o is Overflow) ==> o == FieldOutcome::Values(
                Set::new(|v: u32| a <= v <= b && (v - a) % (n as int) == 0),
            )
        }),
{
    reveal_strlit("*");
    lemma_number_text(ta);
    lemma_number_text(tb);
    lemma_number_text(r);
    let lhs = ta + seq!['-'] + tb;
    let s = lhs + seq!['/'] + r;
    assert forall|i: int| 0 <= i < lhs.len() implies lhs[i] != '/' && lhs[i] != ',' by {
        if i < ta.len() {
            assert(lhs[i] == ta[i]);
        } else if i > ta.len() {
            assert(lhs[i] == tb[i - ta.len() - 1]);
        }
    }
    assert(!has_char(s, ',')) by {
        if has_char(s, ',') {
            let i = choose|i: int| 0 <= i < s.len() && s[i] == ',';
            if i < lhs.len() {
                assert(s[i] == lhs[i]);
            } else if i > lhs.len() {
                assert(s[i] == r[i - lhs.len() - 1]);
            }
        }
    }
    assert(s != "*"@) by {
        assert(s.len() != "*"@.len());
    }
    lemma_first_split(lhs, '/', r);
    lemma_first_split(ta, '-', tb);
    assert(lhs != "*"@) by {
        assert(lhs.len() != "*"@.len());
    }
    assert(step_range(lhs, min, max) == Ok::<(u32, u32), Seq<char>>((a, b)));
    assert((a - a) % (n as int) == 0) by {
        vstd::arithmetic::div_mod::lemma_small_mod(0, n as nat);
    }
    lemma_stepping_grid(a, b, n, a, min, max);
    assert(part_outcome(s, min, max) == stepping(a, b, n, min, max));
    lemma_single_piece(s, min, max);
}

/// A step from a value, `a/n` with `n > 0` and `a` within the field, means
/// exactly the values from `a` to `max` that lie a multiple of `n` above
/// `a`: it is never refused as a syntax error or as out of range, and only
/// a step so large that `max + n` passes `u32::MAX` can overflow.
pub proof fn law_start_step(ta: Seq<char>, r: Seq<char>, a: u32, n: u32, min: u32, max: u32)
    requires
        parse_u32(ta) == Some(a),
        parse_u32(r) == Some(n),
        n > 0,
        min <= a,
    ensures
        ({
            let o = field_outcome(ta + seq!['/'] + r, min, max);
            &&& !(o is BadSyntax) && !(o is OutOfRange) && !(o is All)
            &&& max + n <= u32::MAX ==> !(o is Overflow)
            &&& !(o is Overflow) ==> o == FieldOutcome::Values(
                Set::new(|v: u32| a <= v <= max && (v - a) % (n as int) == 0),
            )
        }),
{
    reveal_strlit("*");
    lemma_number_text(ta);
    lemma_number_text(r);
    let s = ta + seq!['/'] + r;
    assert(!has_char(s, ',')) by {
        if has_char(s, ',') {
            let i = choose|i: int| 0 <= i < s.len() && s[i] == ',';
            if i < ta.len() {
                assert(s[i] == ta[i]);
            } else if i > ta.len() {
                assert(s[i] == r[i - ta.len() - 1]);
            }
        }
    }
    assert(s != "*"@) by {
        if s.len() == 1 {
            assert(ta.len() == 0);
        }
    }
    lemma_first_split(ta, '/', r);
    assert(ta != "*"@) by {
        if ta.len() == 1 {
            assert(ta[0] != '*');
            assert("*"@[0] == '*');
        }
    }
    assert(!has_char(ta, '-')) by {
        if has_char(ta, '-') {
            let i = choose|i: int| 0 <= i < ta.len() && ta[i] == '-';
        }
    }
    assert(step_range(ta, min, max) == Ok::<(u32, u32), Seq<char>>((a, max)));
    assert((a - a) % (n as int) == 0) by {
        vstd::arithmetic::div_mod::lemma_small_mod(0, n as nat);
    }
    if a <= max {
        lemma_stepping_grid(a, max, n, a, min, max);
    } else {
        assert(Set::new(|v: u32| a <= v <= max && (v - a) % (n as int) == 0) =~= Set::empty());
    }
    assert(part_outcome(s, min, max) == stepping(a, max, n, min, max));
    lemma_single_piece(s, min, max);
}

/// A step over the whole field, `*/n` with `n > 0`, means exactly the
/// values from `min` to `max` that lie a multiple of `n` above `min`: it is
/// never refused as a syntax error or as out of range, and only a step so
/// large that `max + n` passes `u32::MAX` can overflow.
pub proof fn law_wildcard_step(r: Seq<char>, n: u32, min: u32, max: u32)
    requires
        parse_u32(r) == Some(n),
        n > 0,
    ensures
        !(field_outcome("*/"@ + r, min, max) is BadSyntax),
        !(field_outcome("*/"@ + r, min, max) is OutOfRange),
        !(field_outcome("*/"@ + r, min, max) is All),
        max + n <= u32::MAX ==> !(field_outcome("*/"@ + r, min, max) is Overflow),
        !(field_outcome("*/"@ + r, min, max) is Overflow) ==> field_outcome("*/"@ + r, min, max)
            == FieldOutcome::Values(Set::new(|v: u32| min <= v <= max && (v - min) % (n as int) == 0)),
{
    reveal_strlit("*/");
    reveal_strlit("*");
    lemma_number_text(r);
    let star = seq!['*'];
    let s = "*/"@ + r;
    assert(s =~= star + seq!['/'] + r);
    assert(s != "*"@) by {
        assert(s.len() != "*"@.len());
    }
    assert(!has_char(s, ',')) by {
        if has_char(s, ',') {
            let i = choose|i: int| 0 <= i < s.len() && s[i] == ',';
            if i >= 2 {
                assert(s[i] == r[i - 2]);
            }
        }
    }
    lemma_first_split(star, '/', r);
    assert(star =~= "*"@);
    assert((min - min) % (n as int) == 0) by {
        vstd::arithmetic::div_mod::lemma_small_mod(0, n as nat);
    }
    lemma_stepping_grid(min, max, n, min, min, max);
    assert(part_outcome(s, min, max) == stepping(min, max, n, min, max));
    lemma_single_piece(s, min, max);
}

/// A text without whitespace at its ends is its own trimming.
proof fn lemma_trim_plain(s: Seq<char>)
    requires
        s.len() > 0,
        !crate::text::is_ws(s[0]),
        !crate::text::is_ws(s.last()),
    ensures
        trim(s) == s,
{
}

/// What a cron expression without whitespace at its ends and not starting
/// with `@` means.
proof fn lemma_plain_cron(e: Seq<char>)
    requires
        e.len() > 0,
        !crate::text::is_ws(e[0]),
        !crate::text::is_ws(e.last()),
        e[0] != '@',
    ensures
        plan_outcome(e) == cron_outcome(e),
{
    reveal(plan_outcome);
    lemma_trim_plain(e);
    reveal_strlit("@daily");
    reveal_strlit("@midnight");
    reveal_strlit("@hourly");
    reveal_strlit("@weekly");
    reveal_strlit("@monthly");
    reveal_strlit("@yearly");
    reveal_strlit("@annually");
    reveal_strlit("@every ");
    assert(e != "@daily"@ && e != "@midnight"@ && e != "@hourly"@ && e != "@weekly"@);
    assert(e != "@monthly"@ && e != "@yearly"@ && e != "@annually"@);
    assert(!starts_with(e, "@every "@)) by {
        if starts_with(e, "@every "@) {
            assert(e.take(7)[0] == e[0]);
        }
    }
}

/// `@daily` and `@midnight` stand for `0 0 * * *`, as documented.
pub proof fn law_daily()
    ensures
        plan_outcome("@daily"@) == plan_outcome("0 0 * * *"@),
        plan_outcome("@midnight"@) == plan_outcome("0 0 * * *"@),
{
    reveal_strlit("0 0 * * *");
    lemma_plain_cron("0 0 * * *"@);
    reveal(plan_outcome);
    reveal_strlit("@daily");
    reveal_strlit("@midnight");
    lemma_trim_plain("@daily"@);
    lemma_trim_plain("@midnight"@);
}

/// `@hourly` stands for `0 * * * *`, as documented.
pub proof fn law_hourly()
    ensures
        plan_outcome("@hourly"@) == plan_outcome("0 * * * *"@),
{
    reveal_strlit("0 * * * *");
    lemma_plain_cron("0 * * * *"@);
    reveal(plan_outcome);
    reveal_strlit("@hourly");
    reveal_strlit("@daily");
    reveal_strlit("@midnight");
    lemma_trim_plain("@hourly"@);
}

/// `@weekly` stands for `0 0 * * 0` (Sunday at midnight), as documented.
pub proof fn law_weekly()
    ensures
        plan_outcome("@weekly"@) == plan_outcome("0 0 * * 0"@),
{
    reveal_strlit("0 0 * * 0");
    lemma_plain_cron("0 0 * * 0"@);
    assert(plan_outcome("@weekly"@) == cron_outcome("0 0 * * 0"@)) by {
        reveal(plan_outcome);
        reveal_strlit("@weekly");
        reveal_strlit("@hourly");
        reveal_strlit("@daily");
        reveal_strlit("@midnight");
        lemma_trim_plain("@weekly"@);
        assert("@weekly"@[1] != "@hourly"@[1]);
    }
}

/// `@monthly` stands for `0 0 1 * *` (the first of the month at midnight),
/// as documented.
pub proof fn law_monthly()
    ensures
        plan_outcome("@monthly"@) == plan_outcome("0 0 1 * *"@),
{
    reveal_strlit("0 0 1 * *");
    lemma_plain_cron("0 0 1 * *"@);
    reveal(plan_outcome);
    reveal_strlit("@monthly");
    reveal_strlit("@weekly");
    reveal_strlit("@hourly");
    reveal_strlit("@daily");
    reveal_strlit("@midnight");
    lemma_trim_plain("@monthly"@);
}

/// `@yearly` and `@annually` stand for `0 0 1 1 *`.
pub proof fn law_yearly()
    ensures
        plan_outcome("@yearly"@) == plan_outcome("0 0 1 1 *"@),
        plan_outcome("@annually"@) == plan_outcome("0 0 1 1 *"@),
{
    reveal_strlit("0 0 1 1 *");
    lemma_plain_cron("0 0 1 1 *"@);
    assert(plan_outcome("@yearly"@) == cron_outcome("0 0 1 1 *"@)) by {
        reveal(plan_outcome);
        reveal_strlit("@yearly");
        reveal_strlit("@monthly");
        reveal_strlit("@weekly");
        reveal_strlit("@hourly");
        reveal_strlit("@daily");
        reveal_strlit("@midnight");
        lemma_trim_plain("@yearly"@);
        assert("@yearly"@[1] != "@hourly"@[1]);
        assert("@yearly"@[1] != "@weekly"@[1]);
    }
    assert(plan_outcome("@annually"@) == cron_outcome("0 0 1 1 *"@)) by {
        reveal(plan_outcome);
        reveal_strlit("@yearly");
        reveal_strlit("@annually");
        reveal_strlit("@monthly");
        reveal_strlit("@weekly");
        reveal_strlit("@hourly");
        reveal_strlit("@daily");
        reveal_strlit("@midnight");
        lemma_trim_plain("@annually"@);
    }
}

/// Whitespace around an expression changes nothing of what it means.
pub proof fn law_surrounding_whitespace(expr: Seq<char>)
    ensures
        plan_outcome(trim(expr)) == plan_outcome(expr),
{
    reveal(plan_outcome);
    crate::text::lemma_trim_idempotent(expr);
}

/// A parsed field matches exactly the values its text means, and only
/// values within its bounds: `*` matches every value.
pub proof fn law_parsed_field_matches(f: CronField, s: Seq<char>, min: u32, max: u32, v: u32)
    requires
        field_is(f, field_outcome(s, min, max)),
    ensures
        field_outcome(s, min, max) is All ==> f.holds(v),
        field_outcome(s, min, max) matches FieldOutcome::Values(set) ==> (f.holds(v) <==> set.contains(v)),
        field_outcome(s, min, max) is Values ==> (f.holds(v) ==> min <= v <= max),
{
    law_field_within_bounds(s, min, max);
}

/// A step of the search moves to a later instant when the candidate, the
/// instant the step reads and the next candidate share one offset.
proof fn lemma_step_later(
    minute: CronField,
    hour: CronField,
    day_of_month: CronField,
    month: CronField,
    day_of_week: CronField,
    t: CivilTime,
    a: CivilTime,
    n: CivilTime,
)
    requires
        t.wf(),
        n.wf(),
        step_via(minute, hour, day_of_month, month, day_of_week, t, a, n),
        a.offset == t.offset,
        n.offset == t.offset,
    ensures
        t.timestamp < n.timestamp,
{
    if advance_spec(minute, hour, day_of_month, month, day_of_week, t) is NextMonth {
        crate::time::lemma_days_in_month_start(t.year, t.month, t.day);
        crate::time::lemma_next_month_start(t.year, t.month);
    }
}

/// The minute that the search finds lies after `from` when every instant the
/// search read (the candidates and the instants it moved through) has
/// `from`'s offset, as where the time zone keeps one offset over the search.
pub proof fn law_found_after_from(
    minute: CronField,
    hour: CronField,
    day_of_month: CronField,
    month: CronField,
    day_of_week: CronField,
    from: CivilTime,
    vias: Seq<CivilTime>,
    path: Seq<CivilTime>,
    v: CivilTime,
)
    requires
        from.wf(),
        search_found(minute, hour, day_of_month, month, day_of_week, from, vias, path, v),
        forall|i: int|
            0 <= i < path.len() ==> (#[trigger] path[i]).offset == from.offset && vias[i].offset
                == from.offset,
    ensures
        from.timestamp < v.timestamp,
{
    lemma_path_later(minute, hour, day_of_month, month, day_of_week, from, vias, path, path.len() - 1);
}

proof fn lemma_path_later(
    minute: CronField,
    hour: CronField,
    day_of_month: CronField,
    month: CronField,
    day_of_week: CronField,
    from: CivilTime,
    vias: Seq<CivilTime>,
    path: Seq<CivilTime>,
    k: int,
)
    requires
        from.wf(),
        search_path(minute, hour, day_of_month, month, day_of_week, from, vias, path),
        forall|i: int|
            0 <= i < path.len() ==> (#[trigger] path[i]).offset == from.offset && vias[i].offset
                == from.offset,
        0 <= k < path.len(),
    ensures
        from.timestamp < path[k].timestamp,
    decreases k,
{
    assert(path[0].wf());
    assert(path[0].offset == from.offset && vias[0].offset == from.offset);
    if k > 0 {
        lemma_path_later(minute, hour, day_of_month, month, day_of_week, from, vias, path, k - 1);
        assert(path[k - 1].wf() && path[k].wf());
        assert(path[k].offset == from.offset && vias[k].offset == from.offset);
        assert(path[k - 1].offset == from.offset);
        assert(step_via(minute, hour, day_of_month, month, day_of_week, path[k - 1], vias[k], path[k]));
        lemma_step_later(minute, hour, day_of_month, month, day_of_week, path[k - 1], vias[k], path[k]);
    }
}

/// A five-field expression parses exactly when it has five fields and each
/// field parses within its bounds (minute 0-59, hour 0-23, day 1-31, month
/// 1-12, day of week 0-6); the schedule then holds what each field means.
/// Another number of fields is a syntax error.
pub proof fn law_cron_fields(e: Seq<char>)
    ensures
        ws_split(e).len() != 5 ==> cron_outcome(e) is BadSyntax,
        ws_split(e).len() == 5 ==> (cron_outcome(e) is Cron <==> (!is_fault(
            field_outcome(ws_split(e)[0], 0, 59),
        ) && !is_fault(field_outcome(ws_split(e)[1], 0, 23)) && !is_fault(
            field_outcome(ws_split(e)[2], 1, 31),
        ) && !is_fault(field_outcome(ws_split(e)[3], 1, 12)) && !is_fault(
            field_outcome(ws_split(e)[4], 0, 6),
        ))),
        cron_outcome(e) matches PlanOutcome::Cron(mi, h, dm, mo, dw) ==> {
            &&& mi == field_outcome(ws_split(e)[0], 0, 59)
            &&& h == field_outcome(ws_split(e)[1], 0, 23)
            &&& dm == field_outcome(ws_split(e)[2], 1, 31)
            &&& mo == field_outcome(ws_split(e)[3], 1, 12)
            &&& dw == field_outcome(ws_split(e)[4], 0, 6)
        },
{
    reveal(cron_outcome);
}

/// Two parses of expressions that mean the same give schedules that fire
/// alike: the same values in each of the five fields, or the same interval.
/// With `law_daily` and its kind, `@daily` parses as `0 0 * * *` does, and
/// so on for the other macros.
pub proof fn law_same_meaning(s1: Schedule, s2: Schedule, o: PlanOutcome, v: u32)
    requires
        plan_is(Ok(s1), o),
        plan_is(Ok(s2), o),
    ensures
        s1 matches Schedule::Cron { minute: a1, hour: b1, day_of_month: c1, month: d1, day_of_week: e1 }
            ==> s2 matches Schedule::Cron { minute: a2, hour: b2, day_of_month: c2, month: d2, day_of_week: e2 }
            && (a1.holds(v) <==> a2.holds(v)) && (b1.holds(v) <==> b2.holds(v)) && (c1.holds(v)
            <==> c2.holds(v)) && (d1.holds(v) <==> d2.holds(v)) && (e1.holds(v) <==> e2.holds(v)),
        s1 matches Schedule::Interval(x1) ==> s2 matches Schedule::Interval(x2) && x1 == x2,
{
    if let Schedule::Interval(x1) = s1 {
        if let Schedule::Interval(x2) = s2 {
            assert(x1.secs_spec() == x2.secs_spec() && x1.nanos_spec() == x2.nanos_spec());
            crate::time::lemma_duration_eq(x1, x2);
        }
    }
}

/// Whole minutes under `t`'s offset, from the candidate `t` up to the next
/// candidate `n`, are not matched by the fields: the search skips none.
proof fn lemma_step_skips(
    minute: CronField,
    hour: CronField,
    day_of_month: CronField,
    month: CronField,
    day_of_week: CronField,
    t: CivilTime,
    a: CivilTime,
    n: CivilTime,
    m: CivilTime,
)
    requires
        t.wf(),
        n.wf(),
        m.wf(),
        step_via(minute, hour, day_of_month, month, day_of_week, t, a, n),
        a.offset == t.offset,
        n.offset == t.offset,
        m.offset == t.offset,
        t.second == 0,
        m.second == 0,
        t.timestamp <= m.timestamp < n.timestamp,
    ensures
        !cron_holds(minute, hour, day_of_month, month, day_of_week, m),
{
    let dt = days_from_civil(t.year, t.month, t.day);
    let dm = days_from_civil(m.year, m.month, m.day);
    match advance_spec(minute, hour, day_of_month, month, day_of_week, t) {
        Advance::NextMinute => {
            assert(m.local_secs() == t.local_secs());
            crate::time::lemma_local_split(m, t);
        },
        Advance::NextHour => {
            let da = days_from_civil(a.year, a.month, a.day);
            assert(dm * 24 + m.hour == dt * 24 + t.hour);
            assert(dm == dt);
            crate::time::lemma_days_injective(m.year, m.month, m.day, t.year, t.month, t.day);
        },
        Advance::NextDay => {
            assert(dm == dt);
            crate::time::lemma_days_injective(m.year, m.month, m.day, t.year, t.month, t.day);
        },
        Advance::NextMonth => {
            crate::time::lemma_next_month_start(t.year, t.month);
            crate::time::lemma_month_end(t.year, t.month, t.day);
            let ny = if t.month == 12 { t.year + 1 } else { t.year };
            let nm = if t.month == 12 { 1 } else { t.month + 1 };
            let d1 = days_from_civil(t.year, t.month, 1);
            assert(dt <= dm);
            assert(dm < d1 + days_in_month(t.year, t.month));
            if date_before(m.year, m.month, m.day, t.year, t.month, 1) {
                crate::time::lemma_days_monotone(m.year, m.month, m.day, t.year, t.month, 1);
            } else if date_before(ny, nm, 1, m.year, m.month, m.day) {
                crate::time::lemma_days_monotone(ny, nm, 1, m.year, m.month, m.day);
            }
            assert(m.year == t.year && m.month == t.month);
        },
        Advance::Found => {},
    }
}

/// No whole minute under `from`'s offset lies after `from` and before the
/// first candidate.
proof fn lemma_start_skips(from: CivilTime, a: CivilTime, n: CivilTime, m: CivilTime)
    requires
        from.wf(),
        n.wf(),
        first_candidate(from, a, n),
        a.offset == from.offset,
        n.offset == from.offset,
    ensures
        n.second == 0,
        (m.wf() && m.offset == from.offset && m.second == 0) ==> !(from.timestamp < m.timestamp
            && m.timestamp < n.timestamp),
{
    let xf = days_from_civil(from.year, from.month, from.day) * 1440 + from.hour * 60 + from.minute;
    let xa = days_from_civil(a.year, a.month, a.day) * 1440 + a.hour * 60 + a.minute;
    assert(from.local_secs() == 60 * xf + from.second);
    assert(a.local_secs() == 60 * xa + a.second);
    assert(a.local_secs() == from.local_secs() + 60);
    assert(xa == xf + 1);
    assert(n.timestamp + n.offset == 60 * xa);
    if m.wf() && m.offset == from.offset && m.second == 0 {
        let xm = days_from_civil(m.year, m.month, m.day) * 1440 + m.hour * 60 + m.minute;
        assert(m.local_secs() == 60 * xm);
        if from.timestamp < m.timestamp {
            assert(60 * xf + from.second < 60 * xm);
            assert(xf < xm);
        }
    }
}

/// A step of the search from a candidate at a whole minute reaches a whole
/// minute, when all it reads share one offset.
proof fn lemma_step_whole(
    minute: CronField,
    hour: CronField,
    day_of_month: CronField,
    month: CronField,
    day_of_week: CronField,
    t: CivilTime,
    a: CivilTime,
    n: CivilTime,
)
    requires
        t.wf(),
        n.wf(),
        step_via(minute, hour, day_of_month, month, day_of_week, t, a, n),
        a.offset == t.offset,
        n.offset == t.offset,
        t.second == 0,
    ensures
        n.second == 0,
{
}

/// Along a search path whose instants share `from`'s offset, every candidate
/// is a whole minute and no whole minute after `from` and before the
/// candidate at `k` is matched by the fields.
proof fn lemma_path_first(
    minute: CronField,
    hour: CronField,
    day_of_month: CronField,
    month: CronField,
    day_of_week: CronField,
    from: CivilTime,
    vias: Seq<CivilTime>,
    path: Seq<CivilTime>,
    k: int,
    m: CivilTime,
)
    requires
        from.wf(),
        search_path(minute, hour, day_of_month, month, day_of_week, from, vias, path),
        forall|i: int|
            0 <= i < path.len() ==> (#[trigger] path[i]).offset == from.offset && vias[i].offset
                == from.offset,
        0 <= k < path.len(),
    ensures
        path[k].second == 0,
        path[k].nanos == 0,
        (m.wf() && m.offset == from.offset && m.second == 0 && from.timestamp < m.timestamp
            < path[k].timestamp) ==> !cron_holds(
            minute,
            hour,
            day_of_month,
            month,
            day_of_week,
            m,
        ),
    decreases k,
{
    assert(path[0].wf());
    assert(path[0].offset == from.offset && vias[0].offset == from.offset);
    if k == 0 {
        lemma_start_skips(from, vias[0], path[0], m);
    } else {
        lemma_path_first(minute, hour, day_of_month, month, day_of_week, from, vias, path, k - 1, m);
        let t = path[k - 1];
        assert(t.wf() && path[k].wf());
        assert(path[k].offset == from.offset && vias[k].offset == from.offset);
        assert(t.offset == from.offset);
        assert(step_via(minute, hour, day_of_month, month, day_of_week, t, vias[k], path[k]));
        lemma_step_whole(minute, hour, day_of_month, month, day_of_week, t, vias[k], path[k]);
        if m.wf() && m.offset == from.offset && m.second == 0 && t.timestamp <= m.timestamp
            && m.timestamp < path[k].timestamp {
            lemma_step_skips(minute, hour, day_of_month, month, day_of_week, t, vias[k], path[k], m);
        }
    }
}

/// No whole minute after `from` and before the minute that the search found
/// is matched by the fields, when every instant involved has `from`'s
/// offset: with `law_found_after_from`, the search finds the first matching
/// whole minute after `from`, as where the time zone keeps one offset.
pub proof fn law_found_is_first(
    minute: CronField,
    hour: CronField,
    day_of_month: CronField,
    month: CronField,
    day_of_week: CronField,
    from: CivilTime,
    vias: Seq<CivilTime>,
    path: Seq<CivilTime>,
    v: CivilTime,
    m: CivilTime,
)
    requires
        from.wf(),
        search_found(minute, hour, day_of_month, month, day_of_week, from, vias, path, v),
        forall|i: int|
            0 <= i < path.len() ==> (#[trigger] path[i]).offset == from.offset && vias[i].offset
                == from.offset,
        m.wf(),
        m.offset == from.offset,
        m.second == 0,
        from.timestamp < m.timestamp < v.timestamp,
    ensures
        !cron_holds(minute, hour, day_of_month, month, day_of_week, m),
{
    lemma_path_first(minute, hour, day_of_month, month, day_of_week, from, vias, path, path.len() - 1, m);
}

/// Along a search path whose instants share `from`'s offset, the candidates
/// lie at least a minute apart.
proof fn lemma_path_spaced(
    minute: CronField,
    hour: CronField,
    day_of_month: CronField,
    month: CronField,
    day_of_week: CronField,
    from: CivilTime,
    vias: Seq<CivilTime>,
    path: Seq<CivilTime>,
    k: int,
)
    requires
        from.wf(),
        search_path(minute, hour, day_of_month, month, day_of_week, from, vias, path),
        forall|i: int|
            0 <= i < path.len() ==> (#[trigger] path[i]).offset == from.offset && vias[i].offset
                == from.offset,
        0 <= k < path.len(),
    ensures
        path[k].timestamp >= path[0].timestamp + 60 * k,
    decreases k,
{
    if k > 0 {
        lemma_path_spaced(minute, hour, day_of_month, month, day_of_week, from, vias, path, k - 1);
        lemma_path_first(minute, hour, day_of_month, month, day_of_week, from, vias, path, k - 1, from);
        lemma_path_first(minute, hour, day_of_month, month, day_of_week, from, vias, path, k, from);
        let t = path[k - 1];
        let n = path[k];
        assert(t.wf() && n.wf());
        assert(t.offset == from.offset && n.offset == from.offset && vias[k].offset == from.offset);
        assert(step_via(minute, hour, day_of_month, month, day_of_week, t, vias[k], n));
        lemma_step_later(minute, hour, day_of_month, month, day_of_week, t, vias[k], n);
        let xt = days_from_civil(t.year, t.month, t.day) * 1440 + t.hour * 60 + t.minute;
        let xn = days_from_civil(n.year, n.month, n.day) * 1440 + n.hour * 60 + n.minute;
        assert(t.local_secs() == 60 * xt);
        assert(n.local_secs() == 60 * xn);
        assert(n.timestamp - t.timestamp == 60 * (xn - xt));
        assert(n.timestamp >= t.timestamp + 60);
    }
}

/// The search passes over no matching minute of the window: where every
/// instant that the search read has `from`'s offset, and a whole minute `m`
/// under that offset, after `from` and within the window, is matched by all
/// five fields, a search that stopped with no result stopped before `m`, at
/// a candidate within the window and the step budget, whose step to the next
/// month, day or hour chrono refused (a local time that the machine's time
/// zone does not resolve). Where chrono resolves those local times, the
/// search therefore finds a minute whenever one in the window matches.
pub proof fn law_match_in_window_not_missed(
    minute: CronField,
    hour: CronField,
    day_of_month: CronField,
    month: CronField,
    day_of_week: CronField,
    from: CivilTime,
    vias: Seq<CivilTime>,
    path: Seq<CivilTime>,
    m: CivilTime,
)
    requires
        from.wf(),
        from.representable(),
        from.timestamp + SEARCH_WINDOW_SECS <= MAX_TIMESTAMP,
        search_stopped(minute, hour, day_of_month, month, day_of_week, from, vias, path),
        forall|i: int|
            0 <= i < path.len() ==> (#[trigger] path[i]).offset == from.offset && vias[i].offset
                == from.offset,
        m.wf(),
        m.offset == from.offset,
        m.second == 0,
        from.timestamp < m.timestamp,
        before_limit(from, m),
        cron_holds(minute, hour, day_of_month, month, day_of_week, m),
    ensures
        path.last().timestamp < m.timestamp,
        before_limit(from, path.last()),
        path.len() <= SEARCH_STEPS,
        ({
            let a = advance_spec(minute, hour, day_of_month, month, day_of_week, path.last());
            a is NextMonth || a is NextDay || a is NextHour
        }),
{
    let k = path.len() - 1;
    let last = path.last();
    lemma_path_first(minute, hour, day_of_month, month, day_of_week, from, vias, path, k, m);
    lemma_path_later(minute, hour, day_of_month, month, day_of_week, from, vias, path, k);
    lemma_path_spaced(minute, hour, day_of_month, month, day_of_week, from, vias, path, k);
    lemma_path_later(minute, hour, day_of_month, month, day_of_week, from, vias, path, 0);
    assert(last.wf() && last.offset == from.offset);
    assert(last.timestamp <= m.timestamp);
    if last.timestamp == m.timestamp {
        assert(last.local_secs() == m.local_secs());
        crate::time::lemma_local_split(last, m);
        assert(advance_spec(minute, hour, day_of_month, month, day_of_week, last) is Found);
    }
    assert(last.timestamp < m.timestamp);
    let xl = days_from_civil(last.year, last.month, last.day) * 1440 + last.hour * 60 + last.minute;
    let xm = days_from_civil(m.year, m.month, m.day) * 1440 + m.hour * 60 + m.minute;
    assert(last.local_secs() == 60 * xl);
    assert(m.local_secs() == 60 * xm);
    assert(m.timestamp - last.timestamp == 60 * (xm - xl));
    assert(m.timestamp >= last.timestamp + 60);
    assert(m.timestamp <= from.timestamp + SEARCH_WINDOW_SECS);
}

/// When the search stopped past the window, no whole minute after `from`
/// and before its last candidate (so none in the window) is matched by the
/// fields, when every instant involved has `from`'s offset.
pub proof fn law_window_without_match(
    minute: CronField,
    hour: CronField,
    day_of_month: CronField,
    month: CronField,
    day_of_week: CronField,
    from: CivilTime,
    vias: Seq<CivilTime>,
    path: Seq<CivilTime>,
    m: CivilTime,
)
    requires
        from.wf(),
        search_path(minute, hour, day_of_month, month, day_of_week, from, vias, path),
        !before_limit(from, path.last()),
        forall|i: int|
            0 <= i < path.len() ==> (#[trigger] path[i]).offset == from.offset && vias[i].offset
                == from.offset,
        m.wf(),
        m.offset == from.offset,
        m.second == 0,
        from.timestamp < m.timestamp < path.last().timestamp,
    ensures
        !cron_holds(minute, hour, day_of_month, month, day_of_week, m),
{
    lemma_path_first(minute, hour, day_of_month, month, day_of_week, from, vias, path, path.len() - 1, m);
}

/// The parse of a five-field expression is composed of the parses of its
/// fields: it succeeds exactly when each field, parsed alone within its
/// bounds, does, and its fields then match what those parses match.
pub proof fn law_parse_composes(
    e: Seq<char>,
    r: Result<Schedule, ScheduleError>,
    f0: Result<CronField, ScheduleError>,
    f1: Result<CronField, ScheduleError>,
    f2: Result<CronField, ScheduleError>,
    f3: Result<CronField, ScheduleError>,
    f4: Result<CronField, ScheduleError>,
    v: u32,
)
    requires
        ws_split(e).len() == 5,
        plan_is(r, cron_outcome(e)),
        field_result(f0, field_outcome(ws_split(e)[0], 0, 59)),
        field_result(f1, field_outcome(ws_split(e)[1], 0, 23)),
        field_result(f2, field_outcome(ws_split(e)[2], 1, 31)),
        field_result(f3, field_outcome(ws_split(e)[3], 1, 12)),
        field_result(f4, field_outcome(ws_split(e)[4], 0, 6)),
    ensures
        r is Ok <==> (f0 is Ok && f1 is Ok && f2 is Ok && f3 is Ok && f4 is Ok),
        r matches Ok(Schedule::Cron { minute, hour, day_of_month, month, day_of_week }) ==> {
            &&& f0 matches Ok(g0) && (minute.holds(v) <==> g0.holds(v))
            &&& f1 matches Ok(g1) && (hour.holds(v) <==> g1.holds(v))
            &&& f2 matches Ok(g2) && (day_of_month.holds(v) <==> g2.holds(v))
            &&& f3 matches Ok(g3) && (month.holds(v) <==> g3.holds(v))
            &&& f4 matches Ok(g4) && (day_of_week.holds(v) <==> g4.holds(v))
        },
{
    let w = ws_split(e);
    let (o0, o1, o2, o3, o4) = (
        field_outcome(w[0], 0, 59),
        field_outcome(w[1], 0, 23),
        field_outcome(w[2], 1, 31),
        field_outcome(w[3], 1, 12),
        field_outcome(w[4], 0, 6),
    );
    law_cron_fields(e);
    lemma_field_ok(f0, o0);
    lemma_field_ok(f1, o1);
    lemma_field_ok(f2, o2);
    lemma_field_ok(f3, o3);
    lemma_field_ok(f4, o4);
    assert(!(cron_outcome(e) is Every)) by {
        reveal(cron_outcome);
    }
    assert(r is Ok <==> cron_outcome(e) is Cron);
    if let Ok(Schedule::Cron { minute, hour, day_of_month, month, day_of_week }) = r {
        assert(cron_outcome(e) == PlanOutcome::Cron(o0, o1, o2, o3, o4));
        lemma_field_same(f0, o0, minute, v);
        lemma_field_same(f1, o1, hour, v);
        lemma_field_same(f2, o2, day_of_month, v);
        lemma_field_same(f3, o3, month, v);
        lemma_field_same(f4, o4, day_of_week, v);
    }
}

/// A field's parse succeeds exactly when its meaning is no refusal.
proof fn lemma_field_ok(f: Result<CronField, ScheduleError>, o: FieldOutcome)
    requires
        field_result(f, o),
    ensures
        f is Ok <==> !is_fault(o),
{
}

/// Two fields with the same meaning match the same values.
proof fn lemma_field_same(f: Result<CronField, ScheduleError>, o: FieldOutcome, x: CronField, v: u32)
    requires
        field_result(f, o),
        field_is(x, o),
    ensures
        f matches Ok(g) && (x.holds(v) <==> g.holds(v)),
{
}

} // verus!
