//! The history of a renamer: formats used before, the variables seen, and
//! for each variable its values, most recent first.

use crate::template::{parse_template, NamePart, NameTemplate, ParseError, PartView};
use vstd::prelude::*;

verus! {

/// The values chosen for one variable, most recent first. The list is a
/// log of choices, not a set: it may hold a value twice.
pub struct ValueList {
    pub name: String,
    pub values: Vec<String>,
}

/// Everything a renamer remembers between runs.
pub struct History {
    /// Format strings used before, most recent first.
    pub formats: Vec<String>,
    /// The variable names seen, each once.
    pub variables: Vec<String>,
    /// The values of each variable, one list per name.
    pub values: Vec<ValueList>,
}

/// Whether no two strings of `s` are equal.
pub open spec fn distinct_strings(s: Seq<String>) -> bool {
    forall|i: int, j: int| 0 <= i < s.len() && 0 <= j < s.len() && i != j ==> s[i]@ != s[j]@
}

/// Whether no two lists of `s` belong to the same name.
pub open spec fn distinct_names(s: Seq<ValueList>) -> bool {
    forall|i: int, j: int|
        0 <= i < s.len() && 0 <= j < s.len() && i != j ==> s[i].name@ != s[j].name@
}

/// Whether `s` holds a list for the name `k`.
pub open spec fn has_name(s: Seq<ValueList>, k: Seq<char>) -> bool {
    exists|i: int| 0 <= i < s.len() && (#[trigger] s[i]).name@ == k
}

/// The position of the list for `k` in `s`.
pub open spec fn name_index(s: Seq<ValueList>, k: Seq<char>) -> int {
    choose|i: int| 0 <= i < s.len() && (#[trigger] s[i]).name@ == k
}

/// The lists of `s`, as a map from name to values.
pub open spec fn lists_map(s: Seq<ValueList>) -> Map<Seq<char>, Seq<String>> {
    Map::new(|k: Seq<char>| has_name(s, k), |k: Seq<char>| s[name_index(s, k)].values@)
}

/// The lists of `s` that are not empty, in order.
pub open spec fn non_empty_lists(s: Seq<ValueList>) -> Seq<ValueList>
    decreases s.len(),
{
    if s.len() == 0 {
        seq![]
    } else if s.last().values@.len() > 0 {
        non_empty_lists(s.drop_last()).push(s.last())
    } else {
        non_empty_lists(s.drop_last())
    }
}

/// Whether the format `f` parses into a template that names the variable `k`.
pub open spec fn format_names(f: Seq<char>, k: Seq<char>) -> bool {
    match parse_template(f) {
        Ok(parts) => exists|j: int| 0 <= j < parts.len() && parts[j] == PartView::Variable(k),
        Err(_) => false,
    }
}

proof fn lemma_name_index(s: Seq<ValueList>, i: int)
    requires
        distinct_names(s),
        0 <= i < s.len(),
    ensures
        has_name(s, s[i].name@),
        name_index(s, s[i].name@) == i,
{
    assert(has_name(s, s[i].name@));
}

impl History {
    /// The names and value lists are each held once.
    pub open spec fn wf(&self) -> bool {
        distinct_strings(self.variables@) && distinct_names(self.values@)
    }

    /// The variable names seen.
    pub open spec fn variable_set(&self) -> Set<Seq<char>> {
        Set::new(|k: Seq<char>| exists|i: int| 0 <= i < self.variables@.len() && #[trigger] self.variables@[i]@ == k)
    }

    /// The values of each variable.
    pub open spec fn value_map(&self) -> Map<Seq<char>, Seq<String>> {
        lists_map(self.values@)
    }

    /// An empty history: what a renamer starts from when none was saved.
    pub fn new() -> (r: History)
        ensures
            r.wf(),
            r.formats@.len() == 0,
            r.variable_set() == Set::<Seq<char>>::empty(),
            r.value_map() == Map::<Seq<char>, Seq<String>>::empty(),
    {
        let r = History { formats: Vec::new(), variables: Vec::new(), values: Vec::new() };
        assert(r.variable_set() =~= Set::<Seq<char>>::empty());
        assert(r.value_map() =~= Map::<Seq<char>, Seq<String>>::empty());
        r
    }

    /// The position of the list for `name`, if there is one.
    fn find(&self, name: &str) -> (r: Option<usize>)
        requires
            self.wf(),
        ensures
            match r {
                Some(i) => i < self.values@.len() && self.values@[i as int].name@ == name@,
                None => !has_name(self.values@, name@),
            },
    {
        let key = String::from_str(name);
        let mut i: usize = 0;
        while i < self.values.len()
            invariant
                i <= self.values@.len(),
                key@ == name@,
                forall|j: int| 0 <= j < i ==> (#[trigger] self.values@[j]).name@ != name@,
            decreases self.values@.len() - i,
        {
            if self.values[i].name == key {
                return Some(i);
            }
            i = i + 1;
        }
        None
    }

    /// Whether `name` is among the variables seen.
    fn knows_variable(&self, name: &str) -> (r: bool)
        ensures
            r == self.variable_set().contains(name@),
    {
        let key = String::from_str(name);
        let mut i: usize = 0;
        while i < self.variables.len()
            invariant
                i <= self.variables@.len(),
                key@ == name@,
                forall|j: int| 0 <= j < i ==> (#[trigger] self.variables@[j])@ != name@,
            decreases self.variables@.len() - i,
        {
            if self.variables[i] == key {
                assert(self.variables@[i as int]@ == name@);
                return true;
            }
            i = i + 1;
        }
        false
    }

    /// A copy of the values of `name`, most recent first, if it has any list.
    pub fn candidates(&self, name: &str) -> (r: Option<Vec<String>>)
        requires
            self.wf(),
        ensures
            match r {
                Some(v) => self.value_map().contains_key(name@) && v@ == self.value_map()[name@],
                None => !self.value_map().contains_key(name@),
            },
    {
        match self.find(name) {
            None => None,
            Some(i) => {
                proof {
                    lemma_name_index(self.values@, i as int);
                }
                let src = &self.values[i].values;
                let mut v: Vec<String> = Vec::new();
                let mut j: usize = 0;
                while j < src.len()
                    invariant
                        j <= src@.len(),
                        v@ == src@.subrange(0, j as int),
                    decreases src@.len() - j,
                {
                    v.push(src[j].clone());
                    assert(v@ =~= src@.subrange(0, j as int + 1));
                    j = j + 1;
                }
                assert(v@ =~= src@);
                Some(v)
            },
        }
    }

    /// Makes sure `name` is known: it joins the variables seen, and gets an
    /// empty list of values, where it had none.
    pub fn register(&mut self, name: &str)
        requires
            old(self).wf(),
        ensures
            final(self).wf(),
            final(self).formats@ == old(self).formats@,
            final(self).variable_set() == old(self).variable_set().insert(name@),
            old(self).value_map().contains_key(name@) ==> final(self).value_map() == old(
                self,
            ).value_map(),
            !old(self).value_map().contains_key(name@) ==> final(self).value_map() == old(
                self,
            ).value_map().insert(name@, Seq::<String>::empty()),
    {
        if !self.knows_variable(name) {
            self.variables.push(String::from_str(name));
        }
        assert(self.variable_set() =~= old(self).variable_set().insert(name@)) by {
            assert forall|k: Seq<char>| #[trigger] self.variable_set().contains(k) == old(
                self,
            ).variable_set().insert(name@).contains(k) by {
                if k == name@ && !old(self).variable_set().contains(k) {
                    assert(self.variables@[self.variables@.len() - 1]@ == k);
                }
                if old(self).variable_set().contains(k) {
                    let i = choose|i: int| 0 <= i < old(self).variables@.len() && #[trigger] old(self).variables@[i]@ == k;
                    assert(self.variables@[i] == old(self).variables@[i]);
                }
            }
        }
        match self.find(name) {
            Some(_) => {},
            None => {
                let ghost old_values = self.values@;
                self.values.push(ValueList { name: String::from_str(name), values: Vec::new() });
                let ghost s = self.values@;
                let ghost n: int = s.len() - 1;
                assert(s[n].values@ =~= Seq::<String>::empty());
                assert(self.value_map() =~= old(self).value_map().insert(name@, Seq::<String>::empty()))
                    by {
                    assert forall|k: Seq<char>| #[trigger] has_name(s, k) == (has_name(old_values, k) || k == name@) by {
                        if has_name(s, k) && k != name@ {
                            let i = name_index(s, k);
                            assert(old_values[i] == s[i]);
                        }
                        if has_name(old_values, k) {
                            let i = name_index(old_values, k);
                            assert(old_values[i] == s[i]);
                        }
                        if k == name@ {
                            assert(s[n].name@ == k);
                        }
                    }
                    lemma_name_index(s, n);
                    assert forall|k: Seq<char>| #[trigger] has_name(old_values, k) implies s[name_index(
                        s,
                        k,
                    )].values@ == old_values[name_index(old_values, k)].values@ by {
                        let i = name_index(old_values, k);
                        lemma_name_index(old_values, i);
                        assert(s[i] == old_values[i]);
                        lemma_name_index(s, i);
                    }
                }
            },
        }
    }

    /// Replaces the values of `name`, which has a list, with `list`.
    pub fn store(&mut self, name: &str, list: Vec<String>)
        requires
            old(self).wf(),
            old(self).value_map().contains_key(name@),
        ensures
            final(self).wf(),
            final(self).formats@ == old(self).formats@,
            final(self).variables@ == old(self).variables@,
            final(self).value_map() == old(self).value_map().insert(name@, list@),
    {
        let ghost old_values = self.values@;
        match self.find(name) {
            None => {},
            Some(i) => {
                let ghost lv = list@;
                self.values.set(i, ValueList { name: String::from_str(name), values: list });
                let ghost s = self.values@;
                assert(self.value_map() =~= old(self).value_map().insert(name@, lv)) by {
                    assert forall|k: Seq<char>| #[trigger] has_name(s, k) == has_name(old_values, k) by {
                        if has_name(s, k) {
                            let j = name_index(s, k);
                            if j != i {
                                assert(old_values[j] == s[j]);
                            } else {
                                assert(old_values[j].name@ == k);
                            }
                        }
                        if has_name(old_values, k) {
                            let j = name_index(old_values, k);
                            if j != i {
                                assert(old_values[j] == s[j]);
                            } else {
                                assert(s[j].name@ == k);
                            }
                        }
                    }
                    lemma_name_index(s, i as int);
                    assert forall|k: Seq<char>| #[trigger] has_name(old_values, k) && k != name@ implies s[name_index(
                        s,
                        k,
                    )].values@ == old_values[name_index(old_values, k)].values@ by {
                        let j = name_index(old_values, k);
                        lemma_name_index(old_values, j);
                        assert(s[j] == old_values[j]);
                        lemma_name_index(s, j);
                    }
                }
            },
        }
    }

    /// Whether one of the saved formats parses into a template that names
    /// the variable `name`.
    pub fn uses_variable(&self, name: &str) -> (r: bool)
        ensures
            r == exists|i: int|
                0 <= i < self.formats@.len() && format_names(#[trigger] self.formats@[i]@, name@),
    {
        let key = String::from_str(name);
        let mut i: usize = 0;
        while i < self.formats.len()
            invariant
                i <= self.formats@.len(),
                key@ == name@,
                forall|m: int| 0 <= m < i ==> !format_names(#[trigger] self.formats@[m]@, name@),
            decreases self.formats@.len() - i,
        {
            let f = self.formats[i].as_str();
            assert(f@ == self.formats@[i as int]@);
            match NameTemplate::from(f) {
                Err(_) => {},
                Ok(t) => {
                    let mut j: usize = 0;
                    while j < t.parts.len()
                        invariant
                            j <= t.parts@.len(),
                            key@ == name@,
                            i < self.formats@.len(),
                            parse_template(self.formats@[i as int]@) == Ok::<
                                Seq<PartView>,
                                ParseError,
                            >(t@),
                            forall|m: int|
                                0 <= m < j ==> (#[trigger] t.parts@[m])@ != PartView::Variable(name@),
                        decreases t.parts@.len() - j,
                    {
                        match &t.parts[j] {
                            NamePart::Variable(v) => {
                                if *v == key {
                                    assert(t@[j as int] == PartView::Variable(name@));
                                    assert(format_names(self.formats@[i as int]@, name@));
                                    return true;
                                }
                            },
                            _ => {},
                        }
                        j = j + 1;
                    }
                    assert forall|m: int| 0 <= m < t@.len() implies t@[m] != PartView::Variable(
                        name@,
                    ) by {
                        assert(t@[m] == t.parts@[m]@);
                    }
                },
            }
            i = i + 1;
        }
        false
    }

    /// Drops the variables whose lists of values are empty. The lists that
    /// are left keep their order, and their names become the variables seen.
    pub fn prune_empty(&mut self)
        requires
            old(self).wf(),
        ensures
            final(self).wf(),
            final(self).formats@ == old(self).formats@,
            final(self).values@ == non_empty_lists(old(self).values@),
            final(self).variables@.map_values(|v: String| v@) == final(self).values@.map_values(
                |e: ValueList| e.name@,
            ),
    {
        let ghost orig = self.values@;
        let mut rest: Vec<ValueList> = Vec::new();
        std::mem::swap(&mut self.values, &mut rest);
        let mut kept: Vec<ValueList> = Vec::new();
        let mut names: Vec<String> = Vec::new();
        let ghost mut done: int = 0;
        assert(orig.subrange(0, 0) =~= Seq::<ValueList>::empty());
        assert(orig.skip(0) =~= orig);
        while rest.len() > 0
            invariant
                distinct_names(orig),
                0 <= done <= orig.len(),
                rest@ == orig.skip(done),
                kept@ == non_empty_lists(orig.subrange(0, done)),
                distinct_names(kept@),
                forall|a: int|
                    0 <= a < kept@.len() ==> exists|b: int|
                        0 <= b < done && (#[trigger] kept@[a]).name@ == orig[b].name@,
                names@.map_values(|v: String| v@) == kept@.map_values(|e: ValueList| e.name@),
            decreases rest@.len(),
        {
            let e = rest.remove(0);
            let ghost p = orig.subrange(0, done + 1);
            assert(p.drop_last() =~= orig.subrange(0, done));
            assert(e == orig[done]);
            assert(rest@ =~= orig.skip(done + 1));
            if e.values.len() > 0 {
                let ghost before = kept@;
                assert forall|a: int| 0 <= a < before.len() implies before[a].name@ != e.name@ by {
                    let b = choose|b: int| 0 <= b < done && (#[trigger] before[a]).name@ == orig[b].name@;
                    assert(orig[b].name@ != orig[done].name@);
                }
                let ghost names_before = names@;
                let nm = e.name.clone();
                assert(nm@ == e.name@);
                names.push(nm);
                kept.push(e);
                assert(names@.map_values(|v: String| v@) =~= names_before.map_values(|v: String| v@).push(
                    e.name@,
                ));
                assert(kept@.map_values(|e: ValueList| e.name@) =~= before.map_values(
                    |e: ValueList| e.name@,
                ).push(e.name@));
                assert forall|a: int| 0 <= a < kept@.len() implies exists|b: int|
                    0 <= b < done + 1 && (#[trigger] kept@[a]).name@ == orig[b].name@ by {
                    if a < before.len() {
                        assert(kept@[a] == before[a]);
                        let b = choose|b: int| 0 <= b < done && (#[trigger] before[a]).name@ == orig[b].name@;
                        assert(0 <= b < done + 1 && kept@[a].name@ == orig[b].name@);
                    } else {
                        assert(kept@[a].name@ == orig[done].name@);
                    }
                }
            }
            proof {
                done = done + 1;
            }
        }
        assert(orig.skip(done).len() == 0);
        assert(orig.subrange(0, done) =~= orig);
        assert(distinct_strings(names@)) by {
            assert forall|i: int, j: int|
                0 <= i < names@.len() && 0 <= j < names@.len() && i != j implies names@[i]@
                != names@[j]@ by {
                assert(names@.map_values(|v: String| v@)[i] == kept@.map_values(|e: ValueList| e.name@)[i]);
                assert(names@.map_values(|v: String| v@)[j] == kept@.map_values(|e: ValueList| e.name@)[j]);
            }
        }
        self.values = kept;
        self.variables = names;
    }
}

impl Default for History {
    /// The empty history.
    fn default() -> (r: History)
        ensures
            r.wf(),
            r.formats@.len() == 0,
            r.variable_set() == Set::<Seq<char>>::empty(),
            r.value_map() == Map::<Seq<char>, Seq<String>>::empty(),
    {
        History::new()
    }
}

} // verus!
