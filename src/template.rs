//! Name templates: literal text, `_` delimiters, free variables and special
//! parameters, parsed from a format string such as `{name}_{###}`.

use vstd::prelude::*;

verus! {

/// One piece of a parsed name template.
pub enum NamePart {
    /// Fixed text, emitted as it stands.
    Literal(String),
    /// A structural separator, emitted as it stands.
    Delimiter(String),
    /// A free variable, resolved through the history of chosen values.
    Variable(String),
    /// A special parameter, computed from the file being renamed.
    Parameter(String),
}

/// The mathematical model of a [`NamePart`].
pub enum PartView {
    Literal(Seq<char>),
    Delimiter(Seq<char>),
    Variable(Seq<char>),
    Parameter(Seq<char>),
}

impl PartView {
    /// The text a part stands for in its template.
    pub open spec fn text(self) -> Seq<char> {
        match self {
            PartView::Literal(s) => s,
            PartView::Delimiter(s) => s,
            PartView::Variable(s) => s,
            PartView::Parameter(s) => s,
        }
    }
}

impl View for NamePart {
    type V = PartView;

    open spec fn view(&self) -> PartView {
        match self {
            NamePart::Literal(s) => PartView::Literal(s@),
            NamePart::Delimiter(s) => PartView::Delimiter(s@),
            NamePart::Variable(s) => PartView::Variable(s@),
            NamePart::Parameter(s) => PartView::Parameter(s@),
        }
    }
}

/// A parsed template: its parts in source order.
pub struct NameTemplate {
    pub parts: Vec<NamePart>,
}

impl View for NameTemplate {
    type V = Seq<PartView>;

    open spec fn view(&self) -> Seq<PartView> {
        self.parts@.map_values(|p: NamePart| p@)
    }
}

/// Why a format string is not a template.
#[derive(PartialEq, Eq, Structural, Clone, Copy, Debug)]
pub enum ParseError {
    /// A `{` inside braces.
    UnexpectedOpen,
    /// A `}` outside braces.
    UnexpectedClose,
    /// A `{` that is never closed.
    Unclosed,
    /// `{}` with nothing between.
    EmptyBody,
}

/// The characters that mark a run as a special parameter.
pub open spec fn is_sigil(c: char) -> bool {
    c == '%' || c == '*' || c == '?' || c == '#'
}

/// The part a non-empty run of characters becomes.
pub open spec fn classify(run: Seq<char>) -> PartView {
    if run.len() > 0 && is_sigil(run[0]) {
        PartView::Parameter(run)
    } else {
        PartView::Variable(run)
    }
}

/// The parts a pending run contributes: none when it is empty.
pub open spec fn pending(run: Seq<char>) -> Seq<PartView> {
    if run.len() == 0 {
        seq![]
    } else {
        seq![classify(run)]
    }
}

/// `done` followed by the outcome of the rest of a scan.
pub open spec fn after(done: Seq<PartView>, rest: Result<Seq<PartView>, ParseError>) -> Result<
    Seq<PartView>,
    ParseError,
> {
    match rest {
        Ok(p) => Ok(done + p),
        Err(e) => Err(e),
    }
}

/// The parts of `s`, scanned left to right, inside braces or not, with `run`
/// the characters read since the last boundary.
pub open spec fn scan(s: Seq<char>, inside: bool, run: Seq<char>) -> Result<
    Seq<PartView>,
    ParseError,
>
    decreases s.len(),
{
    if s.len() == 0 {
        if inside {
            Err(ParseError::Unclosed)
        } else {
            Ok(pending(run))
        }
    } else {
        let c = s[0];
        let rest = s.drop_first();
        if c == '{' {
            if inside {
                Err(ParseError::UnexpectedOpen)
            } else {
                after(pending(run), scan(rest, true, seq![]))
            }
        } else if c == '}' {
            if !inside {
                Err(ParseError::UnexpectedClose)
            } else if run.len() == 0 {
                Err(ParseError::EmptyBody)
            } else {
                after(pending(run), scan(rest, false, seq![]))
            }
        } else if c == '_' && !inside {
            after(pending(run).push(PartView::Delimiter(seq!['_'])), scan(rest, false, seq![]))
        } else {
            scan(rest, inside, run.push(c))
        }
    }
}

/// The template a format string denotes, or the first fault in it.
pub open spec fn parse_template(s: Seq<char>) -> Result<Seq<PartView>, ParseError> {
    scan(s, false, seq![])
}

/// Whether `c` is a brace, which marks boundaries and is not part of any text.
pub open spec fn is_marker(c: char) -> bool {
    c == '{' || c == '}'
}

/// `s` without its braces.
pub open spec fn without_markers(s: Seq<char>) -> Seq<char>
    decreases s.len(),
{
    if s.len() == 0 {
        seq![]
    } else if is_marker(s[0]) {
        without_markers(s.drop_first())
    } else {
        seq![s[0]] + without_markers(s.drop_first())
    }
}

/// The texts of `parts`, joined in order.
pub open spec fn joined_text(parts: Seq<PartView>) -> Seq<char>
    decreases parts.len(),
{
    if parts.len() == 0 {
        seq![]
    } else {
        parts[0].text() + joined_text(parts.drop_first())
    }
}

proof fn lemma_after_after(a: Seq<PartView>, b: Seq<PartView>, r: Result<Seq<PartView>, ParseError>)
    ensures
        after(a, after(b, r)) == after(a + b, r),
{
    if let Ok(p) = r {
        assert(a + (b + p) =~= (a + b) + p);
    }
}

/// Joining distributes over concatenation.
pub proof fn lemma_joined_concat(a: Seq<PartView>, b: Seq<PartView>)
    ensures
        joined_text(a + b) == joined_text(a) + joined_text(b),
    decreases a.len(),
{
    if a.len() == 0 {
        assert(a + b =~= b);
    } else {
        lemma_joined_concat(a.drop_first(), b);
        assert((a + b).drop_first() =~= a.drop_first() + b);
        assert(a[0].text() + (joined_text(a.drop_first()) + joined_text(b)) =~= (a[0].text()
            + joined_text(a.drop_first())) + joined_text(b));
    }
}

proof fn lemma_joined_pending(run: Seq<char>)
    ensures
        joined_text(pending(run)) == run,
{
    if run.len() > 0 {
        let p = pending(run);
        assert(p.drop_first() =~= Seq::<PartView>::empty());
        assert(joined_text(p.drop_first()) == Seq::<char>::empty());
        assert(p[0].text() == run);
        assert(run + Seq::<char>::empty() =~= run);
    }
}

/// A scan that succeeds emits, in order, exactly the pending run and the
/// characters still to read, braces left out.
pub proof fn lemma_scan_lossless(s: Seq<char>, inside: bool, run: Seq<char>)
    requires
        scan(s, inside, run) is Ok,
    ensures
        joined_text(scan(s, inside, run)->Ok_0) == run + without_markers(s),
    decreases s.len(),
{
    lemma_joined_pending(run);
    if s.len() == 0 {
        assert(run + Seq::<char>::empty() =~= run);
    } else {
        let c = s[0];
        let rest = s.drop_first();
        if c == '{' || c == '}' {
            let sub = if c == '{' { true } else { false };
            lemma_scan_lossless(rest, sub, seq![]);
            let ps = scan(rest, sub, seq![])->Ok_0;
            assert(scan(s, inside, run) == after(pending(run), scan(rest, sub, seq![])));
            assert(scan(s, inside, run)->Ok_0 == pending(run) + ps);
            lemma_joined_concat(pending(run), ps);
            assert(without_markers(s) == without_markers(rest));
            assert(Seq::<char>::empty() + without_markers(rest) =~= without_markers(rest));
        } else if c == '_' && !inside {
            lemma_scan_lossless(rest, false, seq![]);
            let ps = scan(rest, false, seq![])->Ok_0;
            let d = pending(run).push(PartView::Delimiter(seq!['_']));
            assert(scan(s, inside, run)->Ok_0 == d + ps);
            lemma_joined_concat(d, ps);
            assert(without_markers(s) == seq![c] + without_markers(rest));
            lemma_joined_concat(pending(run), seq![PartView::Delimiter(seq!['_'])]);
            let one = seq![PartView::Delimiter(seq!['_'])];
            assert(one.drop_first() =~= Seq::<PartView>::empty());
            assert(joined_text(one.drop_first()) == Seq::<char>::empty());
            assert(joined_text(one) =~= seq!['_']);
            assert(pending(run) + one =~= d);
            assert(Seq::<char>::empty() + without_markers(rest) =~= without_markers(rest));
            assert(run + seq!['_'] + without_markers(rest) =~= run + (seq![c] + without_markers(
                rest,
            )));
        } else {
            lemma_scan_lossless(rest, inside, run.push(c));
            assert(run.push(c) + without_markers(rest) =~= run + (seq![c] + without_markers(rest)));
        }
    }
}

/// Parsing loses nothing: the texts of the parts of a template, joined in
/// order, give back the format string without its braces.
pub proof fn lemma_parse_lossless(s: Seq<char>)
    requires
        parse_template(s) is Ok,
    ensures
        joined_text(parse_template(s)->Ok_0) == without_markers(s),
{
    lemma_scan_lossless(s, false, seq![]);
    assert(Seq::<char>::empty() + without_markers(s) =~= without_markers(s));
}

/// How many braces are open at the end of `s`: each `{` opens one and each
/// `}` closes one.
pub open spec fn open_count(s: Seq<char>) -> int
    decreases s.len(),
{
    if s.len() == 0 {
        0
    } else {
        open_count(s.drop_last()) + if s.last() == '{' {
            1int
        } else if s.last() == '}' {
            -1int
        } else {
            0int
        }
    }
}

/// Whether the braces of `s` are balanced: each `{` opens at depth zero,
/// each `}` closes an open brace with something between the two, and none is
/// left open at the end.
pub open spec fn markers_balanced(s: Seq<char>) -> bool {
    &&& forall|i: int| 0 <= i < s.len() && s[i] == '{' ==> open_count(#[trigger] s.take(i)) == 0
    &&& forall|i: int|
        0 <= i < s.len() && s[i] == '}' ==> open_count(#[trigger] s.take(i)) == 1 && i > 0 && s[i
            - 1] != '{'
    &&& open_count(s) == 0
}

proof fn lemma_scan_ok(s: Seq<char>, k: int, inside: bool, run: Seq<char>)
    requires
        markers_balanced(s),
        0 <= k <= s.len(),
        inside ==> open_count(s.take(k)) == 1,
        !inside ==> open_count(s.take(k)) == 0,
        inside && run.len() == 0 ==> k > 0 && s[k - 1] == '{',
    ensures
        scan(s.skip(k), inside, run) is Ok,
    decreases s.len() - k,
{
    if k == s.len() {
        assert(s.take(k) =~= s);
        assert(s.skip(k).len() == 0);
    } else {
        let c = s[k];
        let rest = s.skip(k);
        assert(rest[0] == c);
        assert(rest.drop_first() =~= s.skip(k + 1));
        assert(s.take(k + 1).drop_last() =~= s.take(k));
        assert(s.take(k + 1).last() == c);
        if c == '{' {
            assert(open_count(s.take(k)) == 0);
            lemma_scan_ok(s, k + 1, true, seq![]);
        } else if c == '}' {
            assert(open_count(s.take(k)) == 1);
            lemma_scan_ok(s, k + 1, false, seq![]);
        } else if c == '_' && !inside {
            lemma_scan_ok(s, k + 1, false, seq![]);
        } else {
            lemma_scan_ok(s, k + 1, inside, run.push(c));
        }
    }
}

/// Whether the braces among the first `k` characters of `s` open and close
/// as balanced braces do.
pub open spec fn balanced_before(s: Seq<char>, k: int) -> bool {
    &&& forall|i: int| 0 <= i < k && s[i] == '{' ==> open_count(#[trigger] s.take(i)) == 0
    &&& forall|i: int|
        0 <= i < k && s[i] == '}' ==> open_count(#[trigger] s.take(i)) == 1 && i > 0 && s[i
            - 1] != '{'
}

proof fn lemma_scan_balanced(s: Seq<char>, k: int, inside: bool, run: Seq<char>)
    requires
        0 <= k <= s.len(),
        scan(s.skip(k), inside, run) is Ok,
        balanced_before(s, k),
        open_count(s.take(k)) == if inside {
            1int
        } else {
            0int
        },
        run.len() > 0 ==> k > 0 && s[k - 1] != '{',
    ensures
        markers_balanced(s),
    decreases s.len() - k,
{
    if k == s.len() {
        assert(s.take(k) =~= s);
        assert(s.skip(k) =~= Seq::<char>::empty());
    } else {
        let c = s[k];
        let rest = s.skip(k);
        assert(rest[0] == c);
        assert(rest.drop_first() =~= s.skip(k + 1));
        assert(s.take(k + 1).drop_last() =~= s.take(k));
        assert(s.take(k + 1).last() == c);
        assert(balanced_before(s, k + 1));
        if c == '{' {
            lemma_scan_balanced(s, k + 1, true, seq![]);
        } else if c == '}' {
            lemma_scan_balanced(s, k + 1, false, seq![]);
        } else if c == '_' && !inside {
            lemma_scan_balanced(s, k + 1, false, seq![]);
        } else {
            lemma_scan_balanced(s, k + 1, inside, run.push(c));
        }
    }
}

/// A format string parses exactly when its braces are balanced, and then
/// its parts give back its text without the braces.
pub proof fn lemma_balanced_parses(s: Seq<char>)
    ensures
        parse_template(s) is Ok <==> markers_balanced(s),
        markers_balanced(s) ==> joined_text(parse_template(s)->Ok_0) == without_markers(s),
{
    assert(s.take(0) =~= Seq::<char>::empty());
    assert(s.skip(0) =~= s);
    if markers_balanced(s) {
        lemma_scan_ok(s, 0, false, seq![]);
        lemma_parse_lossless(s);
    }
    if parse_template(s) is Ok {
        lemma_scan_balanced(s, 0, false, seq![]);
    }
}

/// The part that a non-empty run of characters becomes.
fn classify_run(run: &str) -> (p: NamePart)
    requires
        run@.len() > 0,
    ensures
        p@ == classify(run@),
{
    let c = run.get_char(0);
    if c == '%' || c == '*' || c == '?' || c == '#' {
        NamePart::Parameter(String::from_str(run))
    } else {
        NamePart::Variable(String::from_str(run))
    }
}

impl NameTemplate {
    /// Parses a format string. Runs outside braces, and the bodies of braces,
    /// become variables, or special parameters when they start with one of
    /// `%`, `*`, `?` or `#`; an `_` outside braces is a delimiter.
    pub fn from(source: &str) -> (r: Result<NameTemplate, ParseError>)
        ensures
            match r {
                Ok(t) => parse_template(source@) == Ok::<Seq<PartView>, ParseError>(t@),
                Err(e) => parse_template(source@) == Err::<Seq<PartView>, ParseError>(e),
            },
    {
        let n = source.unicode_len();
        let ghost s = source@;
        let mut parts: Vec<NamePart> = Vec::new();
        let mut last: usize = 0;
        let mut inside = false;
        let mut i: usize = 0;
        assert(s.skip(0) =~= s);
        assert(s.subrange(0, 0) =~= Seq::<char>::empty());
        assert(parts@.map_values(|p: NamePart| p@) =~= Seq::<PartView>::empty());
        while i < n
            invariant
                n == s.len(),
                s == source@,
                last <= i <= n,
                inside ==> last <= i,
                parse_template(s) == after(
                    parts@.map_values(|p: NamePart| p@),
                    scan(s.skip(i as int), inside, s.subrange(last as int, i as int)),
                ),
            decreases n - i,
        {
            let c = source.get_char(i);
            let ghost done = parts@.map_values(|p: NamePart| p@);
            let ghost run = s.subrange(last as int, i as int);
            assert(s.skip(i as int)[0] == c);
            assert(s.skip(i as int).drop_first() =~= s.skip(i as int + 1));
            if c == '{' {
                if inside {
                    return Err(ParseError::UnexpectedOpen);
                }
                if last < i {
                    let p = classify_run(source.substring_char(last, i));
                    parts.push(p);
                }
                assert(parts@.map_values(|p: NamePart| p@) =~= done + pending(run));
                proof {
                    lemma_after_after(done, pending(run), scan(s.skip(i as int + 1), true, seq![]));
                }
                last = i + 1;
                inside = true;
            } else if c == '}' {
                if !inside {
                    return Err(ParseError::UnexpectedClose);
                }
                if last == i {
                    return Err(ParseError::EmptyBody);
                }
                let p = classify_run(source.substring_char(last, i));
                parts.push(p);
                assert(parts@.map_values(|p: NamePart| p@) =~= done + pending(run));
                proof {
                    lemma_after_after(done, pending(run), scan(s.skip(i as int + 1), false, seq![]));
                }
                last = i + 1;
                inside = false;
            } else if c == '_' && !inside {
                if last < i {
                    let p = classify_run(source.substring_char(last, i));
                    parts.push(p);
                }
                proof {
                    reveal_strlit("_");
                }
                let delim = String::from_str("_");
                assert(delim@ =~= seq!['_']);
                parts.push(NamePart::Delimiter(delim));
                assert(parts@.map_values(|p: NamePart| p@) =~= done + pending(run).push(
                    PartView::Delimiter(seq!['_']),
                ));
                proof {
                    lemma_after_after(
                        done,
                        pending(run).push(PartView::Delimiter(seq!['_'])),
                        scan(s.skip(i as int + 1), false, seq![]),
                    );
                }
                last = i + 1;
            } else {
                assert(s.subrange(last as int, i as int + 1) =~= run.push(c));
            }
            i = i + 1;
            assert(s.subrange(i as int, i as int) =~= Seq::<char>::empty());
        }
        assert(s.skip(n as int).len() == 0);
        if inside {
            return Err(ParseError::Unclosed);
        }
        let ghost done = parts@.map_values(|p: NamePart| p@);
        let ghost run = s.subrange(last as int, n as int);
        if last < n {
            let p = classify_run(source.substring_char(last, n));
            parts.push(p);
        }
        assert(parts@.map_values(|p: NamePart| p@) =~= done + pending(run));
        Ok(NameTemplate { parts })
    }

    /// The texts of the parts, joined in order: the format string without
    /// its braces, for a template that was parsed from one.
    pub fn text(&self) -> (r: String)
        ensures
            r@ == joined_text(self@),
    {
        let ghost v = self@;
        let mut r = String::new();
        let mut i: usize = 0;
        assert(v.take(0) =~= Seq::<PartView>::empty());
        while i < self.parts.len()
            invariant
                i <= v.len(),
                v == self@,
                r@ == joined_text(v.take(i as int)),
            decreases v.len() - i,
        {
            let p = match &self.parts[i] {
                NamePart::Literal(s) => s,
                NamePart::Delimiter(s) => s,
                NamePart::Variable(s) => s,
                NamePart::Parameter(s) => s,
            };
            assert(v[i as int] == self.parts@[i as int]@);
            r.append(p.as_str());
            proof {
                let one = seq![v[i as int]];
                lemma_joined_concat(v.take(i as int), one);
                assert(v.take(i + 1) =~= v.take(i as int) + one);
                assert(one.drop_first() =~= Seq::<PartView>::empty());
                assert(joined_text(one.drop_first()) == Seq::<char>::empty());
                assert(one[0] == v[i as int]);
                assert(joined_text(one) =~= v[i as int].text());
            }
            i = i + 1;
        }
        assert(v.take(v.len() as int) =~= v);
        r
    }
}

} // verus!
