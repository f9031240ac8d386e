//! The decisions of the value chooser: what to show, how a typed answer
//! selects, enters or filters candidates, and how the chosen value is moved
//! to the front of its list.

use crate::decimal::{decimal_digits, parse_index, parsed_index, push_digits};
use number_range::{Number, NumberRangeOptions};
use vstd::prelude::*;

verus! {

/// Why a typed answer was not accepted. The chooser asks again.
#[derive(PartialEq, Eq, Structural, Clone, Copy, Debug)]
pub enum InputError {
    /// The answer is not a number.
    NotANumber,
    /// The number is larger than the number of candidates.
    OutOfRange,
    /// The answer is not a list of numbers and ranges.
    MalformedRange,
}

/// How a chooser begins.
pub enum ChoiceStart {
    /// Show the candidates and ask for a selection.
    Menu,
    /// There is nothing to choose from: ask for a new value.
    Entry,
    /// Nothing to do; the text is the answer.
    Finished(String),
}

/// What a selection answer leads to.
pub enum Selection {
    /// This candidate was chosen and moved to the front.
    Chosen(String),
    /// A new value is to be typed in.
    NewEntry,
    /// The answer was refused; ask again.
    Invalid(InputError),
}

/// One item of a filter expression: a single 1-based position, or the
/// positions from `start` to `end` in steps of `step`.
#[derive(PartialEq, Eq, Structural, Clone, Copy, Debug)]
pub enum RangeTerm {
    Single(usize),
    Stepped(usize, usize, usize),
}

/// `c` with its entry at `k` moved to the front.
pub open spec fn promoted<T>(c: Seq<T>, k: int) -> Seq<T> {
    seq![c[k]] + c.remove(k)
}

/// What a selection answer means for `len` candidates: `Ok(Some(k))` picks
/// the entry at 0-based `k`, `Ok(None)` asks for a new value. An empty
/// answer picks the first entry.
pub open spec fn selected_index(answer: Seq<char>, len: nat) -> Result<Option<nat>, InputError> {
    if answer.len() == 0 {
        if len > 0 {
            Ok(Some(0nat))
        } else {
            Ok(None)
        }
    } else {
        match parsed_index(answer) {
            None => Err(InputError::NotANumber),
            Some(v) => if v > len {
                Err(InputError::OutOfRange)
            } else if v == 0 {
                Ok(None)
            } else {
                Ok(Some((v - 1) as nat))
            },
        }
    }
}

/// Whether `t` selects the 1-based position `i`.
pub open spec fn term_selects(t: RangeTerm, i: nat) -> bool {
    match t {
        RangeTerm::Single(v) => v == i,
        RangeTerm::Stepped(a, step, b) => a <= i <= b && step > 0 && (i - a) % (step as int) == 0,
    }
}

/// Whether one of `terms` selects the 1-based position `i`.
pub open spec fn selects(terms: Seq<RangeTerm>, i: nat) -> bool {
    exists|j: int| 0 <= j < terms.len() && term_selects(#[trigger] terms[j], i)
}

/// The entries of `c` whose 1-based positions `terms` select, in order.
pub open spec fn kept<T>(c: Seq<T>, terms: Seq<RangeTerm>) -> Seq<T>
    decreases c.len(),
{
    if c.len() == 0 {
        seq![]
    } else if selects(terms, c.len()) {
        kept(c.drop_last(), terms).push(c.last())
    } else {
        kept(c.drop_last(), terms)
    }
}

/// The terms number_range reads in `expr`, with `list_sep` between items,
/// `range_sep` between start, step and end, and `start` and `end` for a
/// missing start or end; `None` where it refuses the text.
pub uninterp spec fn range_terms(
    expr: Seq<char>,
    list_sep: char,
    range_sep: char,
    start: nat,
    end: nat,
) -> Option<Seq<RangeTerm>>;

/// The terms of a filter expression over `len` candidates: items separated
/// by `,`, ranges by `-`, from 1 and to `len` where a bound is left out.
pub open spec fn filter_terms(expr: Seq<char>, len: nat) -> Option<Seq<RangeTerm>> {
    range_terms(expr, ',', '-', 1, len)
}

/// Relies on number_range's `NumberRangeOptions::parse`: the items of a
/// number-range expression, as the `numbers` field of its result holds them,
/// or `None` where the expression is refused. The items depend on the text
/// and the options alone.
#[verifier::external_body]
fn parse_ranges(expr: &str, list_sep: char, range_sep: char, start: usize, end: usize) -> (r:
    Option<Vec<RangeTerm>>)
    ensures
        match r {
            Some(v) => range_terms(expr@, list_sep, range_sep, start as nat, end as nat) == Some(v@),
            None => range_terms(expr@, list_sep, range_sep, start as nat, end as nat) is None,
        },
{
    let parsed = NumberRangeOptions::<usize>::default().with_list_sep(list_sep).with_range_sep(
        range_sep,
    ).with_default_start(start).with_default_end(end).parse(expr).ok()?;
    let mut terms = Vec::new();
    for n in parsed.numbers {
        terms.push(
            match n {
                Number::Single(v) => RangeTerm::Single(v),
                Number::Range(a, step, b) => RangeTerm::Stepped(a, step, b),
            },
        );
    }
    Some(terms)
}

/// How choosing among `candidates` begins: with no candidates a selection
/// asks for a new value and a filter ends at once with `"0"`.
pub fn start_choice(candidates: &Vec<String>, filter: bool) -> (r: ChoiceStart)
    ensures
        candidates@.len() > 0 ==> r is Menu,
        candidates@.len() == 0 && !filter ==> r is Entry,
        candidates@.len() == 0 && filter ==> (r matches ChoiceStart::Finished(t) && t@ == seq!['0']),
{
    if candidates.len() > 0 {
        ChoiceStart::Menu
    } else if !filter {
        ChoiceStart::Entry
    } else {
        proof {
            reveal_strlit("0");
        }
        let t = String::from_str("0");
        assert(t@ =~= seq!['0']);
        ChoiceStart::Finished(t)
    }
}

/// How many of `len` candidates a menu shows: at most `max_display`, and
/// always the first one.
pub fn menu_len(len: usize, max_display: usize) -> (r: usize)
    ensures
        r == if len == 0 {
            0
        } else if max_display == 0 {
            1
        } else if len < max_display {
            len
        } else {
            max_display
        },
{
    if len == 0 {
        0
    } else if max_display == 0 {
        1
    } else if len < max_display {
        len
    } else {
        max_display
    }
}

/// The answer an empty line stands for: `1` for a selection, `1-len` for a
/// filter.
pub fn default_answer(len: usize, filter: bool) -> (r: String)
    ensures
        r@ == if filter {
            seq!['1', '-'] + decimal_digits(len as nat)
        } else {
            seq!['1']
        },
{
    proof {
        reveal_strlit("1");
        reveal_strlit("1-");
    }
    if filter {
        let mut r = String::from_str("1-");
        push_digits(&mut r, len);
        assert(r@ =~= seq!['1', '-'] + decimal_digits(len as nat));
        r
    } else {
        let r = String::from_str("1");
        assert(r@ =~= seq!['1']);
        r
    }
}

/// Moves the candidate at `k` to the front and returns it.
pub fn promote(candidates: &mut Vec<String>, k: usize) -> (r: String)
    requires
        k < old(candidates)@.len(),
    ensures
        r == old(candidates)@[k as int],
        final(candidates)@ == promoted(old(candidates)@, k as int),
{
    let chosen = candidates.remove(k);
    candidates.insert(0, chosen.clone());
    assert(candidates@ =~= promoted(old(candidates)@, k as int));
    chosen
}

/// Records a newly typed value as the most recent candidate and returns it.
pub fn enter_value(candidates: &mut Vec<String>, value: String) -> (r: String)
    ensures
        r == value,
        final(candidates)@ == seq![value] + old(candidates)@,
{
    candidates.insert(0, value.clone());
    assert(candidates@ =~= seq![value] + old(candidates)@);
    value
}

/// Applies a typed selection to `candidates`: an empty answer or `k` from 1
/// to the number of candidates chooses that one and moves it to the front;
/// `0` asks for a new value; anything else is refused and changes nothing.
pub fn answer_selection(candidates: &mut Vec<String>, answer: &str) -> (r: Selection)
    ensures
        match selected_index(answer@, old(candidates)@.len()) {
            Ok(Some(k)) => r == Selection::Chosen(old(candidates)@[k as int])
                && final(candidates)@ == promoted(old(candidates)@, k as int),
            Ok(None) => r is NewEntry && final(candidates)@ == old(candidates)@,
            Err(e) => r == Selection::Invalid(e) && final(candidates)@ == old(candidates)@,
        },
{
    let len = candidates.len();
    if answer.unicode_len() == 0 {
        if len > 0 {
            return Selection::Chosen(promote(candidates, 0));
        }
        return Selection::NewEntry;
    }
    match parse_index(answer) {
        None => Selection::Invalid(InputError::NotANumber),
        Some(v) => {
            if v > len {
                Selection::Invalid(InputError::OutOfRange)
            } else if v == 0 {
                Selection::NewEntry
            } else {
                Selection::Chosen(promote(candidates, v - 1))
            }
        },
    }
}

/// Whether `t` selects the 1-based position `i`.
fn term_selects_exec(t: &RangeTerm, i: usize) -> (r: bool)
    ensures
        r == term_selects(*t, i as nat),
{
    match *t {
        RangeTerm::Single(v) => v == i,
        RangeTerm::Stepped(a, step, b) => a <= i && i <= b && step > 0 && (i - a) % step == 0,
    }
}

/// Whether one of `terms` selects the 1-based position `i`.
fn selects_exec(terms: &Vec<RangeTerm>, i: usize) -> (r: bool)
    ensures
        r == selects(terms@, i as nat),
{
    let mut j: usize = 0;
    while j < terms.len()
        invariant
            j <= terms@.len(),
            forall|m: int| 0 <= m < j ==> !term_selects(#[trigger] terms@[m], i as nat),
        decreases terms@.len() - j,
    {
        if term_selects_exec(&terms[j], i) {
            return true;
        }
        j = j + 1;
    }
    false
}

/// Keeps the candidates whose 1-based positions `terms` select, in their
/// order, and drops the others.
pub fn keep_selected(candidates: &mut Vec<String>, terms: &Vec<RangeTerm>)
    ensures
        final(candidates)@ == kept(old(candidates)@, terms@),
{
    let ghost c = candidates@;
    let mut out: Vec<String> = Vec::new();
    let mut i: usize = 0;
    let n = candidates.len();
    assert(c.subrange(0, 0) =~= Seq::<String>::empty());
    while i < n
        invariant
            n == c.len(),
            candidates@ == c,
            i <= n,
            out@ == kept(c.subrange(0, i as int), terms@),
        decreases n - i,
    {
        let ghost p = c.subrange(0, i as int + 1);
        assert(p.drop_last() =~= c.subrange(0, i as int));
        if selects_exec(terms, i + 1) {
            out.push(candidates[i].clone());
        }
        i = i + 1;
    }
    assert(c.subrange(0, n as int) =~= c);
    *candidates = out;
}

/// Applies a typed filter expression to `candidates`. An empty answer keeps
/// all of them and stands for `1-len`; an expression number_range refuses
/// changes nothing; any other keeps the positions it selects. The answer
/// that was applied is returned.
pub fn answer_filter(candidates: &mut Vec<String>, answer: &str) -> (r: Result<String, InputError>)
    ensures
        answer@.len() == 0 ==> final(candidates)@ == old(candidates)@ && (r matches Ok(t) && t@
            == seq!['1', '-'] + decimal_digits(old(candidates)@.len())),
        answer@.len() > 0 ==> match filter_terms(answer@, old(candidates)@.len()) {
            None => r == Err::<String, InputError>(InputError::MalformedRange) && final(candidates)@
                == old(candidates)@,
            Some(terms) => (r matches Ok(t) && t@ == answer@) && final(candidates)@ == kept(
                old(candidates)@,
                terms,
            ),
        },
{
    if answer.unicode_len() == 0 {
        return Ok(default_answer(candidates.len(), true));
    }
    match parse_ranges(answer, ',', '-', 1, candidates.len()) {
        None => Err(InputError::MalformedRange),
        Some(terms) => {
            keep_selected(candidates, &terms);
            Ok(String::from_str(answer))
        },
    }
}

/// Choosing the entry at `k` puts it first, and choosing again with an
/// empty answer picks the same value and leaves the list as it is.
pub proof fn lemma_recency<T>(c: Seq<T>, k: int)
    requires
        0 <= k < c.len(),
    ensures
        promoted(c, k)[0] == c[k],
        promoted(c, k).len() == c.len(),
        selected_index(seq![], promoted(c, k).len()) == Ok::<Option<nat>, InputError>(Some(0nat)),
        promoted(promoted(c, k), 0) == promoted(c, k),
{
    let p = promoted(c, k);
    assert(promoted(p, 0) =~= p);
}

} // verus!
