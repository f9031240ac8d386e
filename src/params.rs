//! Special parameters: the values a template computes from the file being
//! renamed instead of asking for them.

use crate::decimal::{
    all_digits, decimal_digits, lemma_padded_decimal, padded_decimal, parsed_index, zero_padded,
};
use chrono::{DateTime, FixedOffset, Local};
use std::fmt::Write;
use vstd::prelude::*;

verus! {

/// A moment in time: seconds and nanoseconds since the Unix epoch, and the
/// offset from UTC, in seconds, of the local time it is shown in.
#[derive(Clone, Copy, Debug, PartialEq, Eq, Structural)]
pub struct Timestamp {
    pub secs: i64,
    pub nanos: u32,
    pub offset_secs: i32,
}

/// What a special parameter may read: the stem of the file being renamed,
/// its 1-based position in the batch, and the time of the run.
pub struct RenderContext {
    pub stem: String,
    pub index: usize,
    pub now: Timestamp,
}

/// Why a special parameter could not be computed.
#[derive(PartialEq, Eq, Structural, Clone, Copy, Debug)]
pub enum ResolveError {
    /// The parameter matches none of the known forms.
    UnrecognizedParameter,
    /// The date format could not be applied to the time of the run.
    InvalidDateFormat,
}

/// The forms of special parameter, in the order they are recognised.
pub enum ParamKind {
    /// `#`, `##`, ...: the batch index, zero-padded to this width.
    Index(nat),
    /// `?`: the stem of the file.
    Stem,
    /// `%...`: the time of the run, in this strftime-style format.
    Date,
    /// `*`, `**`, ...: this many leading `_`-separated groups of the stem.
    Groups(nat),
}

/// Whether `s` is non-empty and made of `c` alone.
pub open spec fn run_of(s: Seq<char>, c: char) -> bool {
    s.len() > 0 && forall|i: int| 0 <= i < s.len() ==> s[i] == c
}

/// The form of a special parameter, if it has one.
pub open spec fn param_kind(p: Seq<char>) -> Option<ParamKind> {
    if run_of(p, '#') {
        Some(ParamKind::Index(p.len()))
    } else if p == seq!['?'] {
        Some(ParamKind::Stem)
    } else if p.len() > 0 && p[0] == '%' {
        Some(ParamKind::Date)
    } else if run_of(p, '*') {
        Some(ParamKind::Groups(p.len()))
    } else {
        None
    }
}

/// The first `n` groups of `s`, where groups are separated by `_`, joined
/// again by `_`; the whole of `s` when it has `n` groups or fewer.
pub open spec fn leading_groups(s: Seq<char>, n: nat) -> Seq<char>
    decreases s.len(),
{
    if n == 0 || s.len() == 0 {
        seq![]
    } else if s[0] == '_' {
        if n == 1 {
            seq![]
        } else {
            seq!['_'] + leading_groups(s.drop_first(), (n - 1) as nat)
        }
    } else {
        seq![s[0]] + leading_groups(s.drop_first(), n)
    }
}

/// What chrono prints for the time `secs`/`nanos` after the Unix epoch, seen
/// at `offset` seconds east of UTC, in the strftime-style format `fmt`;
/// `None` where the time or the format is not valid.
pub uninterp spec fn formatted_time(fmt: Seq<char>, secs: int, nanos: int, offset: int) -> Option<
    Seq<char>,
>;

/// The value of the special parameter `p` for the file `stem`, at position
/// `index` of the batch, at time `now`.
pub open spec fn special_value(p: Seq<char>, stem: Seq<char>, index: nat, now: Timestamp) -> Result<
    Seq<char>,
    ResolveError,
> {
    match param_kind(p) {
        Some(ParamKind::Index(w)) => Ok(padded_decimal(index, w)),
        Some(ParamKind::Stem) => Ok(stem),
        Some(ParamKind::Date) => match formatted_time(
            p,
            now.secs as int,
            now.nanos as int,
            now.offset_secs as int,
        ) {
            Some(t) => Ok(t),
            None => Err(ResolveError::InvalidDateFormat),
        },
        Some(ParamKind::Groups(n)) => Ok(leading_groups(stem, n)),
        None => Err(ResolveError::UnrecognizedParameter),
    }
}

/// Relies on chrono's `FixedOffset::east_opt`, `DateTime::from_timestamp`
/// and `DateTime::format`: the text of a time in a strftime-style format,
/// which depends on the format, the time and the offset alone, and `None`
/// where chrono refuses the offset, the time or the format.
#[verifier::external_body]
fn format_time(fmt: &str, now: &Timestamp) -> (r: Option<String>)
    ensures
        match r {
            Some(t) => formatted_time(fmt@, now.secs as int, now.nanos as int, now.offset_secs as int)
                == Some(t@),
            None => formatted_time(
                fmt@,
                now.secs as int,
                now.nanos as int,
                now.offset_secs as int,
            ) is None,
        },
{
    let offset = FixedOffset::east_opt(now.offset_secs)?;
    let time = DateTime::from_timestamp(now.secs, now.nanos)?.with_timezone(&offset);
    let mut text = String::new();
    match write!(text, "{}", time.format(fmt)) {
        Ok(()) => Some(text),
        Err(_) => None,
    }
}

/// Relies on chrono's `Local::now`: the current time and the local offset
/// from UTC. Nothing is promised of the values.
#[verifier::external_body]
fn local_now() -> (r: Timestamp) {
    let now = Local::now();
    Timestamp {
        secs: now.timestamp(),
        nanos: now.timestamp_subsec_nanos(),
        offset_secs: now.offset().local_minus_utc(),
    }
}

impl RenderContext {
    /// The context of the file `stem` at position `index` of a batch, at the
    /// current local time.
    pub fn at_current_time(stem: String, index: usize) -> (r: RenderContext)
        ensures
            r.stem@ == stem@,
            r.index == index,
    {
        RenderContext { stem, index, now: local_now() }
    }
}

/// Whether `s` is non-empty and made of `c` alone.
fn is_run_of(s: &str, c: char) -> (r: bool)
    ensures
        r == run_of(s@, c),
{
    let n = s.unicode_len();
    if n == 0 {
        return false;
    }
    let mut i: usize = 0;
    while i < n
        invariant
            n == s@.len(),
            i <= n,
            forall|j: int| 0 <= j < i ==> s@[j] == c,
        decreases n - i,
    {
        if s.get_char(i) != c {
            return false;
        }
        i = i + 1;
    }
    true
}

/// The first `n` `_`-separated groups of `s`, joined by `_`.
pub fn leading_groups_of(s: &str, n: usize) -> (r: String)
    ensures
        r@ == leading_groups(s@, n as nat),
{
    if n == 0 {
        return String::new();
    }
    let len = s.unicode_len();
    let ghost t = s@;
    let mut i: usize = 0;
    let mut seen: usize = 0;
    let mut stop = false;
    assert(t.skip(0) =~= t);
    assert(t.subrange(0, 0) =~= Seq::<char>::empty());
    while i < len && !stop
        invariant
            len == t.len(),
            t == s@,
            i <= len,
            seen < n,
            stop ==> leading_groups(t, n as nat) == t.subrange(0, i as int),
            !stop ==> leading_groups(t, n as nat) == t.subrange(0, i as int) + leading_groups(
                t.skip(i as int),
                (n - seen) as nat,
            ),
        decreases len - i, if stop { 0int } else { 1int },
    {
        let c = s.get_char(i);
        let ghost rest = t.skip(i as int);
        assert(rest[0] == c);
        assert(rest.drop_first() =~= t.skip(i as int + 1));
        assert(t.subrange(0, i as int + 1) =~= t.subrange(0, i as int) + seq![c]);
        if c == '_' {
            if seen + 1 == n {
                assert(leading_groups(rest, (n - seen) as nat) =~= Seq::<char>::empty());
                assert(t.subrange(0, i as int) + Seq::<char>::empty() =~= t.subrange(0, i as int));
                stop = true;
            } else {
                assert(leading_groups(t, n as nat) =~= t.subrange(0, i as int + 1)
                    + leading_groups(t.skip(i as int + 1), (n - seen - 1) as nat));
                seen = seen + 1;
                i = i + 1;
            }
        } else {
            assert(leading_groups(t, n as nat) =~= t.subrange(0, i as int + 1) + leading_groups(
                t.skip(i as int + 1),
                (n - seen) as nat,
            ));
            i = i + 1;
        }
    }
    if !stop {
        assert(t.skip(len as int).len() == 0);
        assert(t.subrange(0, len as int) + Seq::<char>::empty() =~= t.subrange(0, len as int));
    }
    String::from_str(s.substring_char(0, i))
}

/// The value of the special parameter `spec` for the file and time of `ctx`.
/// Tried in this order: a run of `#` gives the index zero-padded to the
/// run's length; `?` gives the stem; a leading `%` formats the time; a run
/// of `*` gives as many leading `_`-groups of the stem.
pub fn resolve_special(spec: &str, ctx: &RenderContext) -> (r: Result<String, ResolveError>)
    ensures
        match r {
            Ok(v) => special_value(spec@, ctx.stem@, ctx.index as nat, ctx.now) == Ok::<
                Seq<char>,
                ResolveError,
            >(v@),
            Err(e) => special_value(spec@, ctx.stem@, ctx.index as nat, ctx.now) == Err::<
                Seq<char>,
                ResolveError,
            >(e),
        },
{
    let n = spec.unicode_len();
    if is_run_of(spec, '#') {
        return Ok(zero_padded(ctx.index, n));
    }
    if n == 1 && spec.get_char(0) == '?' {
        assert(spec@ =~= seq!['?']);
        return Ok(ctx.stem.clone());
    }
    if n > 0 && spec.get_char(0) == '%' {
        assert(spec@ != seq!['?']);
        return match format_time(spec, &ctx.now) {
            Some(t) => Ok(t),
            None => Err(ResolveError::InvalidDateFormat),
        };
    }
    if is_run_of(spec, '*') {
        assert(spec@ != seq!['?']);
        return Ok(leading_groups_of(ctx.stem.as_str(), n));
    }
    assert(spec@ != seq!['?']) by {
        if spec@ == seq!['?'] {
            assert(spec@.len() == 1 && spec@[0] == '?');
        }
    }
    Err(ResolveError::UnrecognizedParameter)
}

/// An index parameter of width `w` gives at least `w` characters: the
/// index in decimal, right-aligned, with zeros before it, which reads back
/// as the index.
pub proof fn lemma_index_parameter(p: Seq<char>, stem: Seq<char>, index: nat, now: Timestamp)
    requires
        run_of(p, '#'),
        index <= usize::MAX,
    ensures
        special_value(p, stem, index, now) matches Ok(v) && {
            let digits = decimal_digits(index);
            &&& v.len() >= p.len()
            &&& all_digits(v)
            &&& v.subrange(v.len() - digits.len(), v.len() as int) == digits
            &&& forall|i: int| 0 <= i < v.len() - digits.len() ==> v[i] == '0'
            &&& parsed_index(v) == Some(index)
        },
{
    lemma_padded_decimal(index, p.len());
    let v = padded_decimal(index, p.len());
    let digits = decimal_digits(index);
    assert(v.subrange(v.len() - digits.len(), v.len() as int) =~= digits);
    assert(v[0] != '+') by {
        assert(crate::decimal::digit_value(v[0]) is Some);
    }
}

/// The stem parameter gives the stem of the file, whatever its index and
/// the time.
pub proof fn lemma_stem_parameter(stem: Seq<char>, index: nat, now: Timestamp)
    ensures
        special_value(seq!['?'], stem, index, now) == Ok::<Seq<char>, ResolveError>(stem),
{
    let q = seq!['?'];
    assert(q[0] != '#');
    assert(!run_of(q, '#'));
}

} // verus!
