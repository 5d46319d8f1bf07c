//! The time-annotation parser.
//!
//! Grammar of the annotation, fixed here once and for all. A message
//! carries an annotation when it contains the tag opener `[time:`
//! (its first occurrence is the one honored):
//!
//! ```text
//! annotation := "[time:" SP* duration "]"
//! duration   := digits "h" | digits "m" | digits "h" digits "m"
//! digits     := ('0'..'9')+
//! ```
//!
//! The duration value is `60 * hours + minutes`; it must be positive and
//! fit in a `u64` count of minutes. The label is everything after the
//! closing `]` with leading and trailing spaces removed; an empty rest
//! means no label. A message without the tag opener carries no
//! annotation; one whose tag does not follow the grammar is malformed.

use vstd::prelude::*;

use crate::digits::{all_digits, check_digits, dec_str, digits_value, digits_value_checked,
    is_digit, lemma_dec_str_value};
use crate::model::{SpecAnnotation, TimeSpentAnnotation};

verus! {

/// Why an annotation-like token was rejected.
#[derive(Clone, Copy, PartialEq, Eq, Structural, Debug)]
pub enum MalformedReason {
    /// The tag opener is never followed by a closing bracket.
    MissingClose,
    /// The bytes between the opener and the bracket are not a duration.
    InvalidDuration,
    /// The duration has value zero.
    ZeroDuration,
    /// The duration does not fit in a `u64` count of minutes.
    DurationOverflow,
}

/// Result of parsing one commit message.
#[derive(Clone, Debug, PartialEq, Eq)]
pub enum ParseOutcome {
    /// The message carries no tag opener: expected, not an error.
    NotPresent,
    /// The message carries a tag-like token that breaks the grammar.
    Malformed(MalformedReason),
    /// The message carries a well-formed annotation.
    Annotation(TimeSpentAnnotation),
}

/// Mathematical model of a [`ParseOutcome`].
pub enum SpecOutcome {
    NotPresent,
    Malformed(MalformedReason),
    Annotation(SpecAnnotation),
}

impl View for ParseOutcome {
    type V = SpecOutcome;

    open spec fn view(&self) -> SpecOutcome {
        match self {
            ParseOutcome::NotPresent => SpecOutcome::NotPresent,
            ParseOutcome::Malformed(r) => SpecOutcome::Malformed(*r),
            ParseOutcome::Annotation(a) => SpecOutcome::Annotation(a@),
        }
    }
}

/// The tag opener `[time:` stands at position `i` of the message.
pub open spec fn tag_at(m: Seq<u8>, i: int) -> bool {
    &&& i + 6 <= m.len()
    &&& m[i] == 91
    &&& m[i + 1] == 116
    &&& m[i + 2] == 105
    &&& m[i + 3] == 109
    &&& m[i + 4] == 101
    &&& m[i + 5] == 58
}

/// Position of the first tag opener at or after `i`.
pub open spec fn find_tag_from(m: Seq<u8>, i: nat) -> Option<nat>
    decreases m.len() - i,
{
    if i + 6 > m.len() {
        None
    } else if tag_at(m, i as int) {
        Some(i)
    } else {
        find_tag_from(m, i + 1)
    }
}

/// Position of the first occurrence of `b` at or after `i`.
pub open spec fn find_byte_from(s: Seq<u8>, b: u8, i: nat) -> Option<nat>
    decreases s.len() - i,
{
    if i >= s.len() {
        None
    } else if s[i as int] == b {
        Some(i)
    } else {
        find_byte_from(s, b, i + 1)
    }
}

/// Number of leading space bytes.
pub open spec fn leading_spaces(s: Seq<u8>) -> nat
    decreases s.len(),
{
    if s.len() > 0 && s[0] == 32 {
        1 + leading_spaces(s.drop_first())
    } else {
        0
    }
}

/// Number of trailing space bytes.
pub open spec fn trailing_spaces(s: Seq<u8>) -> nat
    decreases s.len(),
{
    if s.len() > 0 && s.last() == 32 {
        1 + trailing_spaces(s.drop_last())
    } else {
        0
    }
}

pub proof fn lemma_leading_spaces_bound(s: Seq<u8>)
    ensures
        leading_spaces(s) <= s.len(),
        forall|k: int| 0 <= k < leading_spaces(s) ==> s[k] == 32,
        leading_spaces(s) < s.len() ==> s[leading_spaces(s) as int] != 32,
    decreases s.len(),
{
    if s.len() > 0 && s[0] == 32 {
        lemma_leading_spaces_bound(s.drop_first());
        assert forall|k: int| 0 <= k < leading_spaces(s) implies s[k] == 32 by {
            if k > 0 {
                assert(s.drop_first()[k - 1] == 32);
            }
        }
    }
}

pub proof fn lemma_trailing_spaces_bound(s: Seq<u8>)
    ensures
        trailing_spaces(s) <= s.len(),
        trailing_spaces(s) < s.len() ==> s[s.len() - 1 - trailing_spaces(s)] != 32,
    decreases s.len(),
{
    if s.len() > 0 && s.last() == 32 {
        lemma_trailing_spaces_bound(s.drop_last());
    }
}

/// The string with leading and trailing spaces removed.
pub open spec fn trim_spaces(s: Seq<u8>) -> Seq<u8> {
    let a = s.skip(leading_spaces(s) as int);
    a.take(a.len() - trailing_spaces(a))
}

/// Value in minutes of a duration string, when it follows the grammar.
pub open spec fn dur_minutes(s: Seq<u8>) -> Option<nat> {
    if s.len() == 0 {
        None
    } else if s.last() == 104 {
        let h = s.drop_last();
        if h.len() > 0 && all_digits(h) {
            Some(60 * digits_value(h))
        } else {
            None
        }
    } else if s.last() == 109 {
        let body = s.drop_last();
        match find_byte_from(body, 104, 0) {
            Some(p) => {
                let hh = body.take(p as int);
                let mm = body.skip(p as int + 1);
                if hh.len() > 0 && all_digits(hh) && mm.len() > 0 && all_digits(mm) {
                    Some(60 * digits_value(hh) + digits_value(mm))
                } else {
                    None
                }
            },
            None => {
                if body.len() > 0 && all_digits(body) {
                    Some(digits_value(body))
                } else {
                    None
                }
            },
        }
    } else {
        None
    }
}

/// What parsing a message yields: the annotation of the first tag, a
/// malformation verdict, or the note that no tag is present.
pub open spec fn spec_parse(m: Seq<u8>) -> SpecOutcome {
    match find_tag_from(m, 0) {
        None => SpecOutcome::NotPresent,
        Some(t) => {
            let after = m.skip(t as int + 6);
            let rest = after.skip(leading_spaces(after) as int);
            match find_byte_from(rest, 93, 0) {
                None => SpecOutcome::Malformed(MalformedReason::MissingClose),
                Some(k) => {
                    let dur = rest.take(k as int);
                    match dur_minutes(dur) {
                        None => SpecOutcome::Malformed(MalformedReason::InvalidDuration),
                        Some(v) => if v == 0 {
                            SpecOutcome::Malformed(MalformedReason::ZeroDuration)
                        } else if v > u64::MAX {
                            SpecOutcome::Malformed(MalformedReason::DurationOverflow)
                        } else {
                            let lab = trim_spaces(rest.skip(k as int + 1));
                            SpecOutcome::Annotation(SpecAnnotation {
                                minutes: v as u64,
                                label: if lab.len() == 0 {
                                    None
                                } else {
                                    Some(lab)
                                },
                            })
                        },
                    }
                },
            }
        },
    }
}

/// Copies the byte range `[from, to)` of a string.
pub fn sub_bytes(v: &Vec<u8>, from: usize, to: usize) -> (r: Vec<u8>)
    requires
        from <= to <= v@.len(),
    ensures
        r@ == v@.subrange(from as int, to as int),
{
    let mut r: Vec<u8> = Vec::new();
    let mut i: usize = from;
    proof {
        assert(r@ =~= v@.subrange(from as int, from as int));
    }
    while i < to
        invariant
            from <= i <= to <= v@.len(),
            r@ == v@.subrange(from as int, i as int),
        decreases to - i,
    {
        r.push(v[i]);
        proof {
            assert(v@.subrange(from as int, i as int + 1) =~= v@.subrange(
                from as int,
                i as int,
            ).push(v@[i as int]));
        }
        i += 1;
    }
    r
}

/// Finds the first tag opener of the message.
fn find_tag(m: &Vec<u8>) -> (r: Option<usize>)
    ensures
        match r {
            Some(i) => find_tag_from(m@, 0) == Some(i as nat),
            None => find_tag_from(m@, 0) is None,
        },
{
    if m.len() < 6 {
        return None;
    }
    let n = m.len();
    let mut i: usize = 0;
    while i <= n - 6
        invariant
            n == m@.len(),
            6 <= n,
            i <= n - 6 + 1,
            find_tag_from(m@, 0) == find_tag_from(m@, i as nat),
        decreases m@.len() - i,
    {
        if m[i] == 91 && m[i + 1] == 116 && m[i + 2] == 105 && m[i + 3] == 109 && m[i + 4] == 101
            && m[i + 5] == 58 {
            assert(tag_at(m@, i as int));
            return Some(i);
        }
        assert(!tag_at(m@, i as int));
        i += 1;
    }
    None
}

/// Finds the first occurrence of `b` in the string.
fn find_byte(s: &Vec<u8>, b: u8) -> (r: Option<usize>)
    ensures
        match r {
            Some(i) => find_byte_from(s@, b, 0) == Some(i as nat),
            None => find_byte_from(s@, b, 0) is None,
        },
{
    let mut i: usize = 0;
    while i < s.len()
        invariant
            i <= s@.len(),
            find_byte_from(s@, b, 0) == find_byte_from(s@, b, i as nat),
        decreases s@.len() - i,
    {
        if s[i] == b {
            return Some(i);
        }
        i += 1;
    }
    None
}

/// Counts the leading space bytes.
fn count_leading_spaces(s: &Vec<u8>) -> (c: usize)
    ensures
        c == leading_spaces(s@),
{
    let mut i: usize = 0;
    while i < s.len() && s[i] == 32
        invariant
            i <= s@.len(),
            forall|k: int| 0 <= k < i ==> s@[k] == 32,
        decreases s@.len() - i,
    {
        i += 1;
    }
    proof {
        lemma_leading_spaces_exact(s@, i as nat);
    }
    i
}

proof fn lemma_leading_spaces_exact(s: Seq<u8>, c: nat)
    requires
        c <= s.len(),
        forall|k: int| 0 <= k < c ==> s[k] == 32,
        c < s.len() ==> s[c as int] != 32,
    ensures
        leading_spaces(s) == c,
    decreases s.len(),
{
    if c == 0 {
    } else {
        assert(s[0] == 32);
        lemma_leading_spaces_exact(s.drop_first(), (c - 1) as nat);
    }
}

/// Counts the trailing space bytes.
fn count_trailing_spaces(s: &Vec<u8>) -> (c: usize)
    ensures
        c == trailing_spaces(s@),
{
    let mut i: usize = s.len();
    while i > 0 && s[i - 1] == 32
        invariant
            i <= s@.len(),
            forall|k: int| i <= k < s@.len() ==> s@[k] == 32,
        decreases i,
    {
        i -= 1;
    }
    proof {
        lemma_trailing_spaces_exact(s@, (s@.len() - i as nat) as nat);
    }
    s.len() - i
}

proof fn lemma_trailing_spaces_exact(s: Seq<u8>, c: nat)
    requires
        c <= s.len(),
        forall|k: int| s.len() - c <= k < s.len() ==> s[k] == 32,
        c < s.len() ==> s[s.len() - 1 - c] != 32,
    ensures
        trailing_spaces(s) == c,
    decreases s.len(),
{
    if c == 0 {
    } else {
        assert(s.last() == 32);
        lemma_trailing_spaces_exact(s.drop_last(), (c - 1) as nat);
    }
}

/// Reads a duration string. Exactly one of the three outcomes of
/// [`dur_minutes`] is reported: not a duration, its value, or the note
/// that the value exceeds `u64`.
fn parse_duration(d: &Vec<u8>) -> (r: Result<u64, bool>)
    ensures
        match r {
            Ok(v) => dur_minutes(d@) == Some(v as nat),
            Err(over) => {
                if over {
                    dur_minutes(d@) matches Some(v) && v > u64::MAX
                } else {
                    dur_minutes(d@) is None
                }
            },
        },
{
    if d.len() == 0 {
        return Err(false);
    }
    let last = d[d.len() - 1];
    let body = sub_bytes(d, 0, d.len() - 1);
    proof {
        assert(body@ =~= d@.drop_last());
        assert(d@.last() == last);
    }
    if last == 104 {
        if !check_digits(&body) {
            return Err(false);
        }
        match digits_value_checked(&body) {
            Some(v) => {
                if v > u64::MAX / 60 {
                    proof {
                        lemma_times_60_overflows(v as nat);
                    }
                    Err(true)
                } else {
                    proof {
                        lemma_times_60_fits(v as nat);
                    }
                    Ok(v * 60)
                }
            },
            None => {
                proof {
                    let hv = digits_value(body@);
                    assert(60 * hv >= hv);
                }
                Err(true)
            },
        }
    } else if last == 109 {
        match find_byte(&body, 104) {
            Some(p) => {
                proof {
                    assert(find_byte_from(body@, 104, 0) == Some(p as nat));
                    lemma_find_byte_in_range(body@, 104, 0);
                }
                let hh = sub_bytes(&body, 0, p);
                let mm = sub_bytes(&body, p + 1, body.len());
                proof {
                    assert(hh@ =~= body@.take(p as int));
                    assert(mm@ =~= body@.skip(p as int + 1));
                }
                if !check_digits(&hh) || !check_digits(&mm) {
                    return Err(false);
                }
                let hv = match digits_value_checked(&hh) {
                    Some(v) => v,
                    None => {
                        proof {
                            let x = digits_value(hh@);
                            let y = digits_value(mm@);
                            assert(60 * x + y >= x);
                        }
                        return Err(true);
                    },
                };
                let mv = match digits_value_checked(&mm) {
                    Some(v) => v,
                    None => {
                        proof {
                            let x = digits_value(hh@);
                            let y = digits_value(mm@);
                            assert(60 * x + y >= y);
                        }
                        return Err(true);
                    },
                };
                if hv > u64::MAX / 60 {
                    proof {
                        lemma_times_60_overflows(hv as nat);
                    }
                    return Err(true);
                }
                proof {
                    lemma_times_60_fits(hv as nat);
                }
                let total = hv * 60;
                if mv > u64::MAX - total {
                    return Err(true);
                }
                Ok(total + mv)
            },
            None => {
                if !check_digits(&body) {
                    return Err(false);
                }
                match digits_value_checked(&body) {
                    Some(v) => Ok(v),
                    None => Err(true),
                }
            },
        }
    } else {
        Err(false)
    }
}

proof fn lemma_times_60_fits(v: nat)
    requires
        v <= u64::MAX as nat / 60,
    ensures
        60 * v <= u64::MAX,
{
    let lim = u64::MAX as int;
    assert(60 * (lim / 60) + lim % 60 == lim);
    assert(60 * v <= 60 * (lim / 60));
}

proof fn lemma_times_60_overflows(v: nat)
    requires
        v > u64::MAX as nat / 60,
    ensures
        60 * v > u64::MAX,
{
    let lim = u64::MAX as int;
    assert(60 * (lim / 60) + lim % 60 == lim);
    assert(60 * v >= 60 * ((lim / 60) + 1));
}

/// A found position lies inside the string.
proof fn lemma_find_byte_in_range(s: Seq<u8>, b: u8, i: nat)
    ensures
        find_byte_from(s, b, i) matches Some(p) ==> i <= p < s.len() && s[p as int] == b,
    decreases s.len() - i,
{
    if i < s.len() && s[i as int] != b {
        lemma_find_byte_in_range(s, b, i + 1);
    }
}

/// A found tag position lies inside the string and no opener stands
/// before it (at or after the search start).
proof fn lemma_find_tag_in_range(m: Seq<u8>, i: nat)
    ensures
        find_tag_from(m, i) matches Some(t) ==> i <= t && tag_at(m, t as int),
    decreases m.len() - i,
{
    if i + 6 <= m.len() && !tag_at(m, i as int) {
        lemma_find_tag_in_range(m, i + 1);
    }
}

/// Extracts the first time-spent annotation of a commit message, or
/// reports that none is present or that the tag is malformed. Pure:
/// the outcome is a function of the message alone.
pub fn parse(message: &Vec<u8>) -> (r: ParseOutcome)
    ensures
        r@ == spec_parse(message@),
{
    let t = match find_tag(message) {
        None => {
            return ParseOutcome::NotPresent;
        },
        Some(t) => t,
    };
    let n = message.len();
    proof {
        lemma_find_tag_in_range(message@, 0);
        assert(tag_at(message@, t as int));
        assert(t + 6 <= n);
    }
    let after = sub_bytes(message, t + 6, n);
    proof {
        assert(after@ =~= message@.skip(t as int + 6));
    }
    let sp = count_leading_spaces(&after);
    proof {
        lemma_leading_spaces_bound(after@);
    }
    let rest = sub_bytes(&after, sp, after.len());
    proof {
        assert(rest@ =~= after@.skip(sp as int));
    }
    let k = match find_byte(&rest, 93) {
        None => {
            return ParseOutcome::Malformed(MalformedReason::MissingClose);
        },
        Some(k) => k,
    };
    proof {
        lemma_find_byte_in_range(rest@, 93, 0);
    }
    let dur = sub_bytes(&rest, 0, k);
    proof {
        assert(dur@ =~= rest@.take(k as int));
    }
    let v = match parse_duration(&dur) {
        Ok(v) => v,
        Err(true) => {
            return ParseOutcome::Malformed(MalformedReason::DurationOverflow);
        },
        Err(false) => {
            return ParseOutcome::Malformed(MalformedReason::InvalidDuration);
        },
    };
    if v == 0 {
        return ParseOutcome::Malformed(MalformedReason::ZeroDuration);
    }
    let tail = sub_bytes(&rest, k + 1, rest.len());
    proof {
        assert(tail@ =~= rest@.skip(k as int + 1));
    }
    let lsp = count_leading_spaces(&tail);
    proof {
        lemma_leading_spaces_bound(tail@);
    }
    let core = sub_bytes(&tail, lsp, tail.len());
    proof {
        assert(core@ =~= tail@.skip(lsp as int));
    }
    let tsp = count_trailing_spaces(&core);
    proof {
        lemma_trailing_spaces_bound(core@);
    }
    let lab = sub_bytes(&core, 0, core.len() - tsp);
    proof {
        assert(lab@ =~= core@.take(core@.len() - trailing_spaces(core@)));
        assert(lab@ == trim_spaces(tail@));
    }
    let label = if lab.len() == 0 {
        None
    } else {
        Some(lab)
    };
    ParseOutcome::Annotation(TimeSpentAnnotation { minutes: v, label })
}


/// A label as it survives a round trip: nonempty, no leading or trailing
/// space.
pub open spec fn label_wf(l: Seq<u8>) -> bool {
    l.len() > 0 && l[0] != 32 && l.last() != 32
}

/// The canonical annotation string for a duration in minutes and an
/// optional label: the duration is written in minutes alone.
pub open spec fn spec_render(minutes: u64, label: Option<Seq<u8>>) -> Seq<u8> {
    let head = seq![91u8, 116u8, 105u8, 109u8, 101u8, 58u8, 32u8] + dec_str(minutes as nat)
        + seq![109u8, 93u8];
    match label {
        None => head,
        Some(l) => head + seq![32u8] + l,
    }
}

/// Appends a copy of a byte string.
fn push_all(r: &mut Vec<u8>, s: &Vec<u8>)
    ensures
        final(r)@ == old(r)@ + s@,
{
    let ghost r0 = r@;
    let mut i: usize = 0;
    proof {
        assert(r@ =~= r0 + s@.take(0));
    }
    while i < s.len()
        invariant
            i <= s@.len(),
            r@ == r0 + s@.take(i as int),
        decreases s@.len() - i,
    {
        r.push(s[i]);
        proof {
            assert(r@ =~= r0 + s@.take(i as int + 1));
        }
        i += 1;
    }
    proof {
        assert(s@.take(s@.len() as int) =~= s@);
    }
}

/// Writes the canonical annotation string for an annotation.
pub fn render_annotation(a: &TimeSpentAnnotation) -> (r: Vec<u8>)
    ensures
        r@ == spec_render(a.minutes, a@.label),
{
    let mut r: Vec<u8> = Vec::new();
    r.push(91);
    r.push(116);
    r.push(105);
    r.push(109);
    r.push(101);
    r.push(58);
    r.push(32);
    let ghost head7 = seq![91u8, 116u8, 105u8, 109u8, 101u8, 58u8, 32u8];
    proof {
        assert(r@ =~= head7);
    }
    let ds = crate::digits::render_u64(a.minutes);
    push_all(&mut r, &ds);
    r.push(109);
    r.push(93);
    proof {
        assert(r@ =~= head7 + dec_str(a.minutes as nat) + seq![109u8, 93u8]);
    }
    match &a.label {
        None => r,
        Some(l) => {
            let ghost head = r@;
            r.push(32);
            push_all(&mut r, l);
            proof {
                assert(r@ =~= head + seq![32u8] + l@);
            }
            r
        },
    }
}

/// Where `b` first occurs at `k` and nowhere earlier (at or after `i`),
/// the search finds `k`.
proof fn lemma_find_byte_exact(s: Seq<u8>, b: u8, i: nat, k: nat)
    requires
        i <= k < s.len(),
        s[k as int] == b,
        forall|j: int| i <= j < k ==> s[j] != b,
    ensures
        find_byte_from(s, b, i) == Some(k),
    decreases k - i,
{
    if i < k {
        lemma_find_byte_exact(s, b, i + 1, k);
    }
}

/// Where `b` occurs nowhere at or after `i`, the search finds nothing.
proof fn lemma_find_byte_none(s: Seq<u8>, b: u8, i: nat)
    requires
        forall|j: int| i <= j < s.len() ==> s[j] != b,
    ensures
        find_byte_from(s, b, i) is None,
    decreases s.len() - i,
{
    if i < s.len() {
        lemma_find_byte_none(s, b, i + 1);
    }
}

/// PARSER ROUND TRIP. Parsing the canonical annotation string for a
/// positive duration and a well-formed optional label yields exactly
/// that annotation.
pub proof fn lemma_parse_render(minutes: u64, label: Option<Seq<u8>>)
    requires
        minutes >= 1,
        label matches Some(l) ==> label_wf(l),
    ensures
        spec_parse(spec_render(minutes, label)) == SpecOutcome::Annotation(
            SpecAnnotation { minutes, label },
        ),
{
    let out = lemma_render_parses(minutes, label);
    assert(out == SpecOutcome::Annotation(SpecAnnotation { minutes, label }));
}

/// PARSER ROUND TRIP, rejection half: the canonical annotation string
/// for a duration of zero is rejected as a zero duration.
pub proof fn lemma_parse_render_zero(label: Option<Seq<u8>>)
    requires
        label matches Some(l) ==> label_wf(l),
    ensures
        spec_parse(spec_render(0, label)) == SpecOutcome::Malformed(MalformedReason::ZeroDuration),
{
    let out = lemma_render_parses(0, label);
    assert(out == SpecOutcome::Malformed(MalformedReason::ZeroDuration));
}

/// Parsing the canonical annotation string: the annotation for a
/// positive duration, the zero-duration verdict otherwise.
proof fn lemma_render_parses(minutes: u64, label: Option<Seq<u8>>) -> (out: SpecOutcome)
    requires
        label matches Some(l) ==> label_wf(l),
    ensures
        out == spec_parse(spec_render(minutes, label)),
        minutes >= 1 ==> out == SpecOutcome::Annotation(SpecAnnotation { minutes, label }),
        minutes == 0 ==> out == SpecOutcome::Malformed(MalformedReason::ZeroDuration),
{
    let s = spec_render(minutes, label);
    let head7 = seq![91u8, 116u8, 105u8, 109u8, 101u8, 58u8, 32u8];
    let ds = dec_str(minutes as nat);
    lemma_dec_str_value(minutes as nat);
    let tail = match label {
        None => Seq::<u8>::empty(),
        Some(l) => seq![32u8] + l,
    };
    assert(s =~= head7 + ds + seq![109u8, 93u8] + tail);
    let dl = ds.len() as int;
    assert(s.len() == 9 + dl + tail.len());
    assert(forall|k: int| 0 <= k < 7 ==> s[k] == head7[k]);
    assert(forall|k: int| 0 <= k < dl ==> s[7 + k] == ds[k]);
    assert(s[7 + dl] == 109);
    assert(s[8 + dl] == 93);
    assert(forall|k: int| 0 <= k < tail.len() ==> s[9 + dl + k] == tail[k]);
    assert(tag_at(s, 0));
    assert(find_tag_from(s, 0) == Some(0nat));
    let after = s.skip(6);
    assert(after.len() == 3 + dl + tail.len());
    assert(forall|k: int| 0 <= k < after.len() ==> after[k] == s[6 + k]);
    assert(after[0] == 32);
    assert(is_digit(ds[0]));
    assert(after[1] == ds[0]);
    assert(after[1] != 32);
    lemma_leading_spaces_exact(after, 1);
    let rest = after.skip(1);
    assert(forall|k: int| 0 <= k < rest.len() ==> rest[k] == s[7 + k]);
    assert(rest.len() == 2 + dl + tail.len());
    assert(forall|k: int| 0 <= k < dl ==> rest[k] == ds[k] && is_digit(ds[k]));
    assert(forall|k: int| 0 <= k < dl ==> rest[k] != 93);
    assert(rest[dl] == 109);
    assert(rest[dl + 1] == 93);
    lemma_find_byte_exact(rest, 93, 0, (dl + 1) as nat);
    let dur = rest.take(dl + 1);
    assert(dur.len() == dl + 1);
    assert(dur.last() == 109);
    assert(dur.last() != 104);
    let body = dur.drop_last();
    assert(body =~= ds);
    assert(forall|k: int| 0 <= k < body.len() ==> body[k] != 104);
    lemma_find_byte_none(body, 104, 0);
    assert(dur_minutes(dur) == Some(digits_value(ds)));
    assert(digits_value(ds) == minutes as nat);
    let labrest = rest.skip(dl + 2);
    assert(labrest =~= tail) by {
        assert(forall|k: int| 0 <= k < tail.len() ==> labrest[k] == s[9 + dl + k]);
    }
    let lab = trim_spaces(tail);
    match label {
        None => {
            assert(leading_spaces(tail) == 0);
            assert(tail.skip(0) =~= tail);
            assert(trailing_spaces(tail) == 0);
            assert(tail.take(0) =~= tail);
            assert(lab.len() == 0);
        },
        Some(l) => {
            assert(tail[0] == 32);
            assert(tail[1] == l[0]);
            assert(tail[1] != 32);
            lemma_leading_spaces_exact(tail, 1);
            let a = tail.skip(1);
            assert(a =~= l);
            assert(l.last() != 32);
            lemma_trailing_spaces_exact(l, 0);
            assert(a.take(a.len() - 0) =~= l);
            assert(lab == l);
            assert(lab.len() > 0);
        },
    }
    if minutes == 0 {
        SpecOutcome::Malformed(MalformedReason::ZeroDuration)
    } else {
        assert(minutes as nat <= u64::MAX);
        SpecOutcome::Annotation(
            SpecAnnotation {
                minutes,
                label: if lab.len() == 0 {
                    None
                } else {
                    Some(lab)
                },
            },
        )
    }
}

} // verus!
