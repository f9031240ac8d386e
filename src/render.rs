//! The rendering engine: turns a template into one text per part for one
//! file, asking for free variables through the chooser, and makes the final
//! file name.

use crate::history::History;
use crate::params::{
    lemma_stem_parameter, resolve_special, special_value, RenderContext, ResolveError, Timestamp,
};
use crate::template::{NamePart, NameTemplate, PartView};
use vstd::prelude::*;

verus! {

/// Where rendering stopped.
pub enum RenderStep {
    /// Every part has its text.
    Complete,
    /// The next part is this variable; its value is to be chosen from its
    /// list in the history, which exists by now.
    NeedsChoice(String),
}

/// The text of part `p` where no choice is needed, given the variables'
/// values, the file and the time; `None` for a variable that must be chosen.
/// A variable takes its most recent value without asking when
/// `repeat_last` holds and it has one.
pub open spec fn fixed_value(
    p: PartView,
    values: Map<Seq<char>, Seq<String>>,
    stem: Seq<char>,
    index: nat,
    now: Timestamp,
    repeat_last: bool,
) -> Option<Result<Seq<char>, ResolveError>> {
    match p {
        PartView::Literal(s) => Some(Ok(s)),
        PartView::Delimiter(s) => Some(Ok(s)),
        PartView::Parameter(s) => Some(special_value(s, stem, index, now)),
        PartView::Variable(n) => if repeat_last && values.contains_key(n) && values[n].len() > 0 {
            Some(Ok(values[n][0]@))
        } else {
            None
        },
    }
}

/// The texts of `parts`, joined in order.
pub open spec fn concat_all(parts: Seq<Seq<char>>) -> Seq<char>
    decreases parts.len(),
{
    if parts.len() == 0 {
        seq![]
    } else {
        concat_all(parts.drop_last()) + parts.last()
    }
}

/// `s` with each space replaced by a hyphen.
pub open spec fn hyphenated(s: Seq<char>) -> Seq<char> {
    s.map_values(|c: char| if c == ' ' { '-' } else { c })
}

/// Fills in the texts of the parts of `template` for one file, from the
/// first part that `out` does not hold yet, until all are done, a variable
/// needs a choice, or a special parameter fails. A variable that needs a
/// choice is registered in `hist` first; the caller chooses its value from
/// its list, stores the list back, pushes the value to `out` and calls
/// again.
pub fn render_step(
    template: &NameTemplate,
    hist: &mut History,
    ctx: &RenderContext,
    repeat_last: bool,
    out: &mut Vec<String>,
) -> (r: Result<RenderStep, ResolveError>)
    requires
        old(hist).wf(),
        old(out)@.len() <= template@.len(),
    ensures
        final(hist).wf(),
        final(hist).formats@ == old(hist).formats@,
        old(out)@.len() <= final(out)@.len() <= template@.len(),
        final(out)@.subrange(0, old(out)@.len() as int) == old(out)@,
        forall|j: int|
            old(out)@.len() <= j < final(out)@.len() ==> fixed_value(
                #[trigger] template@[j],
                old(hist).value_map(),
                ctx.stem@,
                ctx.index as nat,
                ctx.now,
                repeat_last,
            ) == Some(Ok::<Seq<char>, ResolveError>(final(out)@[j]@)),
        match r {
            Ok(RenderStep::Complete) => final(out)@.len() == template@.len() && *final(hist) == *old(
                hist,
            ),
            Ok(RenderStep::NeedsChoice(name)) => {
                &&& final(out)@.len() < template@.len()
                &&& template@[final(out)@.len() as int] == PartView::Variable(name@)
                &&& fixed_value(
                    template@[final(out)@.len() as int],
                    old(hist).value_map(),
                    ctx.stem@,
                    ctx.index as nat,
                    ctx.now,
                    repeat_last,
                ) is None
                &&& final(hist).variable_set() == old(hist).variable_set().insert(name@)
                &&& old(hist).value_map().contains_key(name@) ==> final(hist).value_map() == old(
                    hist,
                ).value_map()
                &&& !old(hist).value_map().contains_key(name@) ==> final(hist).value_map() == old(
                    hist,
                ).value_map().insert(name@, Seq::<String>::empty())
            },
            Err(e) => {
                &&& final(out)@.len() < template@.len()
                &&& fixed_value(
                    template@[final(out)@.len() as int],
                    old(hist).value_map(),
                    ctx.stem@,
                    ctx.index as nat,
                    ctx.now,
                    repeat_last,
                ) == Some(Err::<Seq<char>, ResolveError>(e))
                &&& *final(hist) == *old(hist)
            },
        },
{
    let n = template.parts.len();
    let ghost start = out@.len();
    let ghost map = hist.value_map();
    while out.len() < n
        invariant
            n == template@.len(),
            start == old(out)@.len(),
            *hist == *old(hist),
            hist.wf(),
            map == old(hist).value_map(),
            start <= out@.len() <= n,
            out@.subrange(0, start as int) == old(out)@,
            forall|j: int|
                start <= j < out@.len() ==> fixed_value(
                    #[trigger] template@[j],
                    map,
                    ctx.stem@,
                    ctx.index as nat,
                    ctx.now,
                    repeat_last,
                ) == Some(Ok::<Seq<char>, ResolveError>(out@[j]@)),
        decreases n - out@.len(),
    {
        let j = out.len();
        let ghost before = out@;
        assert(template@[j as int] == template.parts@[j as int]@);
        let text = match &template.parts[j] {
            NamePart::Literal(s) => s.clone(),
            NamePart::Delimiter(s) => s.clone(),
            NamePart::Parameter(p) => match resolve_special(p.as_str(), ctx) {
                Ok(v) => v,
                Err(e) => {
                    return Err(e);
                },
            },
            NamePart::Variable(name) => {
                let mut known: Option<String> = None;
                if repeat_last {
                    match hist.candidates(name.as_str()) {
                        Some(list) => {
                            if list.len() > 0 {
                                known = Some(list[0].clone());
                            }
                        },
                        None => {},
                    }
                }
                match known {
                    Some(v) => v,
                    None => {
                        hist.register(name.as_str());
                        return Ok(RenderStep::NeedsChoice(name.clone()));
                    },
                }
            },
        };
        out.push(text);
        assert(out@.subrange(0, start as int) =~= before.subrange(0, start as int));
        assert forall|k: int| start <= k < out@.len() implies fixed_value(
            #[trigger] template@[k],
            map,
            ctx.stem@,
            ctx.index as nat,
            ctx.now,
            repeat_last,
        ) == Some(Ok::<Seq<char>, ResolveError>(out@[k]@)) by {
            if k < j {
                assert(out@[k] == before[k]);
            }
        }
    }
    Ok(RenderStep::Complete)
}

/// The file name the texts of the parts make: joined in order, with each
/// space replaced by a hyphen.
pub fn file_name(parts: &Vec<String>) -> (r: String)
    ensures
        r@ == hyphenated(concat_all(parts@.map_values(|s: String| s@))),
{
    let mut joined = String::new();
    let mut i: usize = 0;
    let ghost views = parts@.map_values(|s: String| s@);
    assert(views.subrange(0, 0) =~= Seq::<Seq<char>>::empty());
    while i < parts.len()
        invariant
            i <= parts@.len(),
            views == parts@.map_values(|s: String| s@),
            joined@ == concat_all(views.subrange(0, i as int)),
        decreases parts@.len() - i,
    {
        joined.append(parts[i].as_str());
        assert(views.subrange(0, i as int + 1).drop_last() =~= views.subrange(0, i as int));
        i = i + 1;
    }
    assert(views.subrange(0, parts@.len() as int) =~= views);
    let len = joined.as_str().unicode_len();
    let mut r = String::new();
    let mut k: usize = 0;
    while k < len
        invariant
            len == joined@.len(),
            k <= len,
            r@ == hyphenated(joined@.subrange(0, k as int)),
        decreases len - k,
    {
        let c = joined.as_str().get_char(k);
        proof {
            reveal_strlit("-");
        }
        assert(joined@.subrange(0, k as int + 1) =~= joined@.subrange(0, k as int).push(c));
        if c == ' ' {
            r.append("-");
        } else {
            r.append(joined.as_str().substring_char(k, k + 1));
        }
        assert(r@ =~= hyphenated(joined@.subrange(0, k as int + 1)));
        k = k + 1;
    }
    assert(joined@.subrange(0, len as int) =~= joined@);
    r
}

/// A file name holds no space, and making it again changes nothing.
pub proof fn lemma_hyphenated(s: Seq<char>)
    ensures
        forall|i: int| 0 <= i < hyphenated(s).len() ==> #[trigger] hyphenated(s)[i] != ' ',
        hyphenated(hyphenated(s)) == hyphenated(s),
        hyphenated(s).len() == s.len(),
{
    assert(hyphenated(hyphenated(s)) =~= hyphenated(s));
}

/// The stem parameter gives the stem of the file whatever the history holds,
/// the index of the file, the time, or whether choices are repeated.
pub proof fn lemma_stem_ignores_history(
    values: Map<Seq<char>, Seq<String>>,
    stem: Seq<char>,
    index: nat,
    now: Timestamp,
    repeat_last: bool,
)
    ensures
        fixed_value(PartView::Parameter(seq!['?']), values, stem, index, now, repeat_last) == Some(
            Ok::<Seq<char>, ResolveError>(stem),
        ),
{
    lemma_stem_parameter(stem, index, now);
}

} // verus!
