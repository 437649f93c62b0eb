//! The `ENV` directive: values of environment variables are filled into the
//! query that is run, and into nothing that is recorded.

use crate::context::{QueryContext, StringMap};
use crate::interceptor::{HookFault, Interceptor, InterceptorFactory, QueryState, ResultState};
use crate::text::{
    from_chars, lemma_substitute_without_occurrence, lines_view, non_empty, occurs_at_chars,
    pairs_view, split, split_chars, strip_leading, strip_leading_chars, substitute,
    substitute_chars, to_chars, trim, trim_chars,
};
use vstd::prelude::*;

verus! {

/// The keyword of the directive.
pub const PREFIX: &'static str = "ENV";

/// The keyword of the directive, as characters.
pub open spec fn env_prefix() -> Seq<char> {
    seq!['E', 'N', 'V']
}

/// The names that a directive text declares: what is left of the text once
/// the leading keyword and the white space around the rest are removed, cut
/// at single spaces, without the empty pieces.
pub open spec fn declared_names(text: Seq<char>) -> Seq<Seq<char>> {
    non_empty(split(trim(strip_leading(text, env_prefix())), ' '))
}

/// The text that stands for the variable `name` in a query.
pub open spec fn placeholder(name: Seq<char>) -> Seq<char> {
    seq!['$'] + name
}

/// Whether one of the mappings has the key `key`.
pub open spec fn has_key(mappings: Seq<(Seq<char>, Seq<char>)>, key: Seq<char>) -> bool {
    exists|i: int| 0 <= i < mappings.len() && (#[trigger] mappings[i]).0 == key
}

/// One mapping from placeholder to value for each of `names` that
/// `environment` holds, in the order in which the names first occur. A name
/// that the environment lacks gives no mapping.
pub open spec fn present_mappings(
    names: Seq<Seq<char>>,
    environment: Map<Seq<char>, Seq<char>>,
) -> Seq<(Seq<char>, Seq<char>)>
    decreases names.len(),
{
    if names.len() == 0 {
        Seq::empty()
    } else {
        let rest = present_mappings(names.drop_last(), environment);
        let name = names.last();
        if environment.contains_key(name) && !has_key(rest, placeholder(name)) {
            rest.push((placeholder(name), environment[name]))
        } else {
            rest
        }
    }
}

/// The lines of a query with the mappings filled in, line by line.
pub open spec fn substitute_lines(
    lines: Seq<Seq<char>>,
    mappings: Seq<(Seq<char>, Seq<char>)>,
) -> Seq<Seq<char>> {
    Seq::new(lines.len(), |i: int| substitute(lines[i], mappings))
}

/// Reads environment variables and fills them into the query.
///
/// ``` sql
/// -- SQLNESS ENV SECRET
/// SELECT $SECRET;
/// ```
///
/// The variables that an `ENV` directive declares are replaced in the query
/// that is run. The output is left as it is, so a secret that the query
/// needs never reaches a recorded file. Only variables that are declared
/// and present are replaced.
///
/// Several variables may stand in one directive or in a directive each.
#[derive(Debug)]
pub struct EnvInterceptor {
    /// Placeholders and what replaces them. No placeholder stands twice.
    data: Vec<(String, String)>,
}

/// The views of a sequence of pairs of strings.
pub open spec fn mappings_view(v: Seq<(String, String)>) -> Seq<(Seq<char>, Seq<char>)> {
    Seq::new(v.len(), |i: int| (v[i].0@, v[i].1@))
}

impl View for EnvInterceptor {
    type V = Seq<(Seq<char>, Seq<char>)>;

    closed spec fn view(&self) -> Seq<(Seq<char>, Seq<char>)> {
        mappings_view(self.data@)
    }
}

impl EnvInterceptor {
    /// The placeholders and what replaces them, in the order of their
    /// declaration.
    pub fn data(&self) -> (d: &Vec<(String, String)>)
        ensures
            mappings_view(d@) == self@,
    {
        &self.data
    }

    /// The mappings as vectors of characters.
    fn char_mappings(&self) -> (m: Vec<(Vec<char>, Vec<char>)>)
        ensures
            pairs_view(m@) == self@,
    {
        let mut m: Vec<(Vec<char>, Vec<char>)> = Vec::new();
        let mut i: usize = 0;
        while i < self.data.len()
            invariant
                i <= self.data.len(),
                m.len() == i,
                pairs_view(m@) == mappings_view(self.data@.take(i as int)),
            decreases self.data.len() - i,
        {
            let key = to_chars(self.data[i].0.as_str());
            let value = to_chars(self.data[i].1.as_str());
            let ghost before = m@;
            m.push((key, value));
            proof {
                let a = pairs_view(m@);
                let b = mappings_view(self.data@.take(i + 1));
                assert forall|j: int| 0 <= j < a.len() implies a[j] == b[j] by {
                    if j < i {
                        assert(pairs_view(before)[j] == mappings_view(
                            self.data@.take(i as int),
                        )[j]);
                    }
                }
                assert(a == b);
            }
            i += 1;
        }
        assert(self.data@.take(i as int) == self.data@);
        m
    }
}

impl Interceptor for EnvInterceptor {
    open spec fn before_spec(&self, state: QueryState) -> Option<QueryState> {
        Some((substitute_lines(state.0, self@), state.1))
    }

    open spec fn after_spec(&self, state: ResultState) -> Option<ResultState> {
        Some(state)
    }

    fn before_execute(&self, execute_query: &mut Vec<String>, context: &mut QueryContext) -> (r:
        Result<(), HookFault>) {
        let mappings = self.char_mappings();
        let ghost lines = lines_view(execute_query@);
        let mut i: usize = 0;
        while i < execute_query.len()
            invariant
                i <= execute_query.len(),
                execute_query.len() == lines.len(),
                pairs_view(mappings@) == self@,
                forall|j: int| 0 <= j < i ==> (#[trigger] execute_query@[j])@ == substitute(lines[j], self@),
                forall|j: int| i <= j < lines.len() ==> (#[trigger] execute_query@[j])@ == lines[j],
            decreases execute_query.len() - i,
        {
            let line = to_chars(execute_query[i].as_str());
            let out = substitute_chars(&line, &mappings);
            let rendered = from_chars(&out, 0, out.len());
            assert(out@.subrange(0, out.len() as int) == out@);
            execute_query.set(i, rendered);
            i += 1;
        }
        assert(lines_view(execute_query@) == substitute_lines(lines, self@));
        Ok(())
    }

    fn after_execute(&self, result: &mut String, context: &mut QueryContext) -> (r: Result<
        (),
        HookFault,
    >) {
        Ok(())
    }
}

/// Builds [`EnvInterceptor`]s from a snapshot of the environment.
pub struct EnvInterceptorFactory {
    environment: StringMap,
}

impl EnvInterceptorFactory {
    /// A factory that reads variables from `environment`.
    pub fn new(environment: StringMap) -> (f: Self)
        ensures
            f.environment() == environment@,
    {
        EnvInterceptorFactory { environment }
    }

    /// The variables that the factory knows, by name.
    pub closed spec fn environment(&self) -> Map<Seq<char>, Seq<char>> {
        self.environment@
    }

    /// The names of the variables that a directive text declares, or `None`
    /// if the text does not start with the keyword. These are the variables
    /// to read from the environment, and no others.
    pub fn variable_names(interceptor: &str) -> (r: Option<Vec<String>>)
        ensures
            match r {
                Some(names) => env_prefix().is_prefix_of(interceptor@) && lines_view(names@)
                    == declared_names(interceptor@),
                None => !env_prefix().is_prefix_of(interceptor@),
            },
    {
        let text = to_chars(interceptor);
        let keyword = to_chars(PREFIX);
        proof {
            reveal_strlit("ENV");
            assert(keyword@ == env_prefix());
        }
        if !occurs_at_chars(&text, 0, &keyword) {
            return None;
        }
        let start = strip_leading_chars(&text, &keyword);
        let rest = crate::text::copy_range(&text, start, text.len());
        let input = trim_chars(&rest);
        let pieces = split_chars(&input, ' ');
        let mut names: Vec<String> = Vec::new();
        let mut i: usize = 0;
        let ghost all = split(input@, ' ');
        proof {
            reveal(Seq::filter);
            assert(all.take(0) == Seq::<Seq<char>>::empty());
        }
        while i < pieces.len()
            invariant
                i <= pieces.len(),
                lines_view(pieces@) == all,
                lines_view(names@) == non_empty(all.take(i as int)),
            decreases pieces.len() - i,
        {
            proof {
                reveal(Seq::filter);
                assert(all.take(i + 1).drop_last() == all.take(i as int));
                assert(all[i as int] == pieces@[i as int]@);
            }
            if pieces[i].as_str().unicode_len() > 0 {
                let name = pieces[i].clone();
                assert(lines_view(names@.push(name)) == lines_view(names@).push(name@));
                names.push(name);
            }
            i += 1;
        }
        assert(all.take(i as int) == all);
        Some(names)
    }

    /// The interceptor that the directive text asks for, with the values
    /// that `environment` holds, or `None` if the text does not start with
    /// the keyword. A declared variable that the environment lacks is left
    /// out; nothing else can go wrong.
    pub fn create(interceptor: &str, environment: &StringMap) -> (r: Option<EnvInterceptor>)
        ensures
            match r {
                Some(built) => env_prefix().is_prefix_of(interceptor@) && built@
                    == present_mappings(declared_names(interceptor@), environment@),
                None => !env_prefix().is_prefix_of(interceptor@),
            },
    {
        let names = match Self::variable_names(interceptor) {
            Some(names) => names,
            None => { return None; },
        };
        let mut data: Vec<(String, String)> = Vec::new();
        let ghost all = lines_view(names@);
        let mut i: usize = 0;
        assert(all.take(0) == Seq::<Seq<char>>::empty());
        while i < names.len()
            invariant
                i <= names.len(),
                all == lines_view(names@),
                mappings_view(data@) == present_mappings(all.take(i as int), environment@),
            decreases names.len() - i,
        {
            proof {
                assert(all.take(i + 1).drop_last() == all.take(i as int));
                assert(all[i as int] == names@[i as int]@);
            }
            match environment.get(names[i].as_str()) {
                Some(value) => {
                    let key = placeholder_of(&names[i]);
                    if !holds_key(&data, &key) {
                        assert(mappings_view(data@.push((key, value))) == mappings_view(
                            data@,
                        ).push((key@, value@)));
                        data.push((key, value));
                    }
                },
                None => {},
            }
            i += 1;
        }
        assert(all.take(i as int) == all);
        Some(EnvInterceptor { data })
    }
}

impl InterceptorFactory for EnvInterceptorFactory {
    type Built = EnvInterceptor;

    open spec fn prefix(&self) -> Seq<char> {
        env_prefix()
    }

    open spec fn accepts(&self, text: Seq<char>) -> bool {
        true
    }

    open spec fn built_before(&self, text: Seq<char>, state: QueryState) -> Option<QueryState> {
        Some(
            (
                substitute_lines(
                    state.0,
                    present_mappings(declared_names(text), self.environment()),
                ),
                state.1,
            ),
        )
    }

    open spec fn built_after(&self, text: Seq<char>, state: ResultState) -> Option<ResultState> {
        Some(state)
    }

    fn keyword(&self) -> (p: String) {
        proof {
            reveal_strlit("ENV");
        }
        let p = PREFIX.to_owned();
        assert(p@ == env_prefix());
        p
    }

    open spec fn builds(&self, text: Seq<char>, built: EnvInterceptor) -> bool {
        built@ == present_mappings(declared_names(text), self.environment())
    }

    fn try_new(&self, interceptor: &str) -> (r: Option<EnvInterceptor>)
        ensures
            r matches Some(built) ==> built@ == present_mappings(
                declared_names(interceptor@),
                self.environment(),
            ),
    {
        Self::create(interceptor, &self.environment)
    }
}

/// The placeholder of the variable `name`.
fn placeholder_of(name: &String) -> (key: String)
    ensures
        key@ == placeholder(name@),
{
    let chars = to_chars(name.as_str());
    let mut key: Vec<char> = Vec::new();
    key.push('$');
    let mut i: usize = 0;
    while i < chars.len()
        invariant
            i <= chars.len(),
            key@ == seq!['$'] + chars@.take(i as int),
        decreases chars.len() - i,
    {
        key.push(chars[i]);
        assert(chars@.take(i + 1) == chars@.take(i as int).push(chars@[i as int]));
        i += 1;
    }
    assert(chars@.take(i as int) == chars@);
    assert(key@.subrange(0, key.len() as int) == key@);
    from_chars(&key, 0, key.len())
}

/// Whether one of the mappings has the key `key`.
fn holds_key(data: &Vec<(String, String)>, key: &String) -> (b: bool)
    ensures
        b == has_key(mappings_view(data@), key@),
{
    let mut i: usize = 0;
    while i < data.len()
        invariant
            i <= data.len(),
            forall|j: int| 0 <= j < i ==> (#[trigger] mappings_view(data@)[j]).0 != key@,
        decreases data.len() - i,
    {
        assert(mappings_view(data@)[i as int].0 == data@[i as int].0@);
        if data[i].0 == *key {
            return true;
        }
        i += 1;
    }
    false
}

/// Every mapping is the placeholder of a variable that the environment
/// holds, with the value that the environment holds for it.
pub proof fn lemma_mappings_are_lookups(
    names: Seq<Seq<char>>,
    environment: Map<Seq<char>, Seq<char>>,
)
    ensures
        forall|i: int|
            0 <= i < present_mappings(names, environment).len() ==> {
                let mapping = #[trigger] present_mappings(names, environment)[i];
                &&& mapping.0 == placeholder(mapping.0.skip(1))
                &&& environment.contains_key(mapping.0.skip(1))
                &&& mapping.1 == environment[mapping.0.skip(1)]
            },
    decreases names.len(),
{
    if names.len() > 0 {
        lemma_mappings_are_lookups(names.drop_last(), environment);
        let rest = present_mappings(names.drop_last(), environment);
        let all = present_mappings(names, environment);
        let name = names.last();
        assert(placeholder(name).skip(1) == name);
        assert forall|i: int| 0 <= i < all.len() implies {
            let mapping = #[trigger] all[i];
            &&& mapping.0 == placeholder(mapping.0.skip(1))
            &&& environment.contains_key(mapping.0.skip(1))
            &&& mapping.1 == environment[mapping.0.skip(1)]
        } by {
            if i < rest.len() {
                assert(all[i] == rest[i]);
            }
        }
    }
}

/// No placeholder is mapped twice.
pub proof fn lemma_mapping_keys_distinct(
    names: Seq<Seq<char>>,
    environment: Map<Seq<char>, Seq<char>>,
)
    ensures
        forall|i: int, j: int|
            0 <= i < j < present_mappings(names, environment).len() ==> (#[trigger] present_mappings(
                names,
                environment,
            )[i]).0 != (#[trigger] present_mappings(names, environment)[j]).0,
    decreases names.len(),
{
    if names.len() > 0 {
        lemma_mapping_keys_distinct(names.drop_last(), environment);
        let rest = present_mappings(names.drop_last(), environment);
        let all = present_mappings(names, environment);
        assert forall|i: int, j: int| 0 <= i < j < all.len() implies (#[trigger] all[i]).0 != (
        #[trigger] all[j]).0 by {
            if j < rest.len() {
                assert(all[i] == rest[i]);
                assert(all[j] == rest[j]);
            } else {
                assert(all[i] == rest[i]);
            }
        }
    }
}

/// A key is mapped exactly when it is the placeholder of a variable that
/// the directive declares and the environment holds.
pub proof fn lemma_key_mapped_iff(
    names: Seq<Seq<char>>,
    environment: Map<Seq<char>, Seq<char>>,
    key: Seq<char>,
)
    ensures
        has_key(present_mappings(names, environment), key) <==> exists|name: Seq<char>|
            #[trigger] names.contains(name) && environment.contains_key(name) && key
                == placeholder(name),
    decreases names.len(),
{
    let all = present_mappings(names, environment);
    if has_key(all, key) {
        let i = choose|i: int| 0 <= i < all.len() && (#[trigger] all[i]).0 == key;
        lemma_mappings_are_lookups(names, environment);
        lemma_mapped_names_declared(names, environment, i);
        let name = key.skip(1);
        assert(names.contains(name) && environment.contains_key(name) && key == placeholder(name));
    }
    if exists|name: Seq<char>|
        #[trigger] names.contains(name) && environment.contains_key(name) && key == placeholder(
            name,
        ) {
        let name = choose|name: Seq<char>|
            #[trigger] names.contains(name) && environment.contains_key(name) && key
                == placeholder(name);
        lemma_present_variable_mapped(names, environment, name);
        let wanted = (placeholder(name), environment[name]);
        let i = choose|i: int| 0 <= i < all.len() && all[i] == wanted;
        assert(all[i].0 == key);
    }
}

/// Every mapping is for a variable that the directive declares.
pub proof fn lemma_mapped_names_declared(
    names: Seq<Seq<char>>,
    environment: Map<Seq<char>, Seq<char>>,
    i: int,
)
    requires
        0 <= i < present_mappings(names, environment).len(),
    ensures
        names.contains(present_mappings(names, environment)[i].0.skip(1)),
    decreases names.len(),
{
    if names.len() > 0 {
        let rest = present_mappings(names.drop_last(), environment);
        let all = present_mappings(names, environment);
        if i < rest.len() {
            lemma_mapped_names_declared(names.drop_last(), environment, i);
            assert(all[i] == rest[i]);
            let name = rest[i].0.skip(1);
            let j = choose|j: int| 0 <= j < names.drop_last().len() && names.drop_last()[j] == name;
            assert(names[j] == name);
        } else {
            assert(placeholder(names.last()).skip(1) == names.last());
            assert(names[names.len() - 1] == names.last());
        }
    }
}

/// A variable that the environment lacks has no mapping, whatever the
/// directive declares: nothing is put in the place of its placeholder.
pub proof fn lemma_absent_variable_not_mapped(
    names: Seq<Seq<char>>,
    environment: Map<Seq<char>, Seq<char>>,
    name: Seq<char>,
)
    requires
        !environment.contains_key(name),
    ensures
        !has_key(present_mappings(names, environment), placeholder(name)),
{
    let all = present_mappings(names, environment);
    lemma_mappings_are_lookups(names, environment);
    if has_key(all, placeholder(name)) {
        let i = choose|i: int| 0 <= i < all.len() && (#[trigger] all[i]).0 == placeholder(name);
        assert(placeholder(name).skip(1) == name);
    }
}

/// A variable that the directive declares and the environment holds is
/// mapped from its placeholder to its value.
pub proof fn lemma_present_variable_mapped(
    names: Seq<Seq<char>>,
    environment: Map<Seq<char>, Seq<char>>,
    name: Seq<char>,
)
    requires
        names.contains(name),
        environment.contains_key(name),
    ensures
        present_mappings(names, environment).contains((placeholder(name), environment[name])),
    decreases names.len(),
{
    let rest = present_mappings(names.drop_last(), environment);
    let all = present_mappings(names, environment);
    let wanted = (placeholder(name), environment[name]);
    if names.last() == name {
        if has_key(rest, placeholder(name)) {
            lemma_mappings_are_lookups(names.drop_last(), environment);
            let i = choose|i: int| 0 <= i < rest.len() && (#[trigger] rest[i]).0 == placeholder(name);
            assert(placeholder(name).skip(1) == name);
            assert(rest[i] == wanted);
            assert(all[i] == wanted);
        } else {
            assert(all[all.len() - 1] == wanted);
        }
    } else {
        let i = choose|i: int| 0 <= i < names.len() && names[i] == name;
        assert(names.drop_last()[i] == name);
        lemma_present_variable_mapped(names.drop_last(), environment, name);
        let j = choose|j: int| 0 <= j < rest.len() && rest[j] == wanted;
        assert(all[j] == wanted);
    }
}

/// Where none of the declared variables is in the environment, there is
/// no mapping at all.
pub proof fn lemma_none_present(names: Seq<Seq<char>>, environment: Map<Seq<char>, Seq<char>>)
    requires
        forall|i: int| 0 <= i < names.len() ==> !environment.contains_key(#[trigger] names[i]),
    ensures
        present_mappings(names, environment).len() == 0,
    decreases names.len(),
{
    if names.len() > 0 {
        assert forall|i: int| 0 <= i < names.drop_last().len() implies !environment.contains_key(
            #[trigger] names.drop_last()[i],
        ) by {
            assert(names.drop_last()[i] == names[i]);
        }
        lemma_none_present(names.drop_last(), environment);
        assert(!environment.contains_key(names[names.len() - 1]));
    }
}

/// A directive whose variables are all absent from the environment leaves
/// every line of the query as it is.
pub proof fn lemma_absent_variables_leave_query(
    text: Seq<char>,
    environment: Map<Seq<char>, Seq<char>>,
    lines: Seq<Seq<char>>,
)
    requires
        forall|i: int|
            0 <= i < declared_names(text).len() ==> !environment.contains_key(
                #[trigger] declared_names(text)[i],
            ),
    ensures
        substitute_lines(lines, present_mappings(declared_names(text), environment)) == lines,
{
    let mappings = present_mappings(declared_names(text), environment);
    lemma_none_present(declared_names(text), environment);
    assert forall|i: int| 0 <= i < lines.len() implies substitute(lines[i], mappings)
        == lines[i] by {
        lemma_substitute_without_occurrence(lines[i], mappings);
    }
    assert(substitute_lines(lines, mappings) =~= lines);
}

/// The hook after execution hands the output on as it came: what the
/// interceptor put into the query has no way into the output but through
/// the execution itself.
pub proof fn lemma_output_untouched(interceptor: EnvInterceptor, state: ResultState)
    ensures
        interceptor.after_spec(state) == Some(state),
{
}

} // verus!
