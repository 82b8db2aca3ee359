//! Configuration values that may be shell commands (`!cmd`),
//! environment-variable templates (`$NAME` / `${NAME}`) or literals.
//!
//! Reading the environment and running commands are the caller's I/O: the
//! environment comes in as an [`EnvVars`] snapshot, and a command value
//! resolves to [`Resolution::RunCommand`] until its outcome has been
//! recorded in a [`CommandCache`].

use vstd::prelude::*;

use crate::text::{chars_of, spec_trim, string_of, trim_chars};

verus! {

/// One part of an environment-variable template.
pub enum TemplatePart {
    Literal(String),
    Env(String),
}

/// A template part as characters.
pub enum PartView {
    Literal(Seq<char>),
    Env(Seq<char>),
}

impl View for TemplatePart {
    type V = PartView;

    open spec fn view(&self) -> PartView {
        match self {
            TemplatePart::Literal(s) => PartView::Literal(s@),
            TemplatePart::Env(s) => PartView::Env(s@),
        }
    }
}

/// The views of a sequence of template parts.
pub open spec fn parts_view(parts: Seq<TemplatePart>) -> Seq<PartView> {
    Seq::new(parts.len(), |i: int| parts[i]@)
}

/// A parsed configuration value.
pub enum ConfigValueReference {
    /// `!command`, holding the whole value including the `!`.
    Command(String),
    Template(Vec<TemplatePart>),
}

/// Whether `c` may appear in an environment-variable name (`first`: as
/// its first character): `[A-Za-z_][A-Za-z0-9_]*`.
pub open spec fn spec_env_name_char(c: char, first: bool) -> bool {
    c == '_' || ('a' <= c && c <= 'z') || ('A' <= c && c <= 'Z') || (!first && '0' <= c && c <= '9')
}

fn is_env_var_name_char(c: char, first: bool) -> (r: bool)
    ensures
        r == spec_env_name_char(c, first),
{
    c == '_' || ('a' <= c && c <= 'z') || ('A' <= c && c <= 'Z') || (!first && '0' <= c && c <= '9')
}

/// `^[A-Za-z_][A-Za-z0-9_]*$`.
pub open spec fn spec_is_env_var_name(s: Seq<char>) -> bool {
    s.len() > 0 && forall|i: int| 0 <= i < s.len() ==> spec_env_name_char(#[trigger] s[i], i == 0)
}

fn is_env_var_name(s: &Vec<char>, from: usize, to: usize) -> (r: bool)
    requires
        from <= to <= s@.len(),
    ensures
        r == spec_is_env_var_name(s@.subrange(from as int, to as int)),
{
    if from == to {
        return false;
    }
    let mut i = from;
    while i < to
        invariant
            from <= i <= to,
            to <= s@.len(),
            forall|k: int| from <= k < i ==> spec_env_name_char(s@[k], k == from),
        decreases to - i,
    {
        if !is_env_var_name_char(s[i], i == from) {
            assert(!spec_env_name_char(s@.subrange(from as int, to as int)[i - from], i - from == 0));
            return false;
        }
        i += 1;
    }
    assert forall|k: int| 0 <= k < to - from implies spec_env_name_char(
        #[trigger] s@.subrange(from as int, to as int)[k],
        k == 0,
    ) by {
        assert(s@.subrange(from as int, to as int)[k] == s@[from + k]);
    }
    true
}

/// The first index at or after `from` holding `c`.
pub open spec fn index_of_from(s: Seq<char>, c: char, from: int) -> Option<int>
    decreases s.len() - from,
{
    if from >= s.len() {
        None
    } else if s[from] == c {
        Some(from)
    } else {
        index_of_from(s, c, from + 1)
    }
}

proof fn lemma_index_of_from_range(s: Seq<char>, c: char, from: int)
    requires
        0 <= from,
    ensures
        index_of_from(s, c, from) matches Some(k) ==> from <= k < s.len() && s[k] == c,
    decreases s.len() - from,
{
    if from < s.len() && s[from] != c {
        lemma_index_of_from_range(s, c, from + 1);
    }
}

fn find_from(s: &Vec<char>, c: char, from: usize) -> (r: Option<usize>)
    requires
        from <= s@.len(),
    ensures
        match r {
            Some(k) => index_of_from(s@, c, from as int) == Some(k as int) && from <= k < s@.len(),
            None => index_of_from(s@, c, from as int) is None,
        },
{
    let mut i = from;
    while i < s.len()
        invariant
            from <= i <= s@.len(),
            index_of_from(s@, c, from as int) == index_of_from(s@, c, i as int),
        decreases s@.len() - i,
    {
        if s[i] == c {
            return Some(i);
        }
        i += 1;
    }
    None
}

/// The length of the longest environment-variable-name run starting at
/// `from`.
pub open spec fn env_prefix_len(s: Seq<char>, from: int, i: int) -> int
    decreases s.len() - i,
{
    if i >= s.len() || i < from || !spec_env_name_char(s[i], i == from) {
        0
    } else {
        1 + env_prefix_len(s, from, i + 1)
    }
}

proof fn lemma_env_prefix_len_range(s: Seq<char>, from: int, i: int)
    requires
        from <= i,
    ensures
        0 <= env_prefix_len(s, from, i) <= if i <= s.len() { s.len() - i } else { 0 },
    decreases s.len() - i,
{
    if !(i >= s.len() || i < from || !spec_env_name_char(s[i], i == from)) {
        lemma_env_prefix_len_range(s, from, i + 1);
    }
}

/// Appends literal text, merging it into a preceding literal part.
pub open spec fn append_lit(parts: Seq<PartView>, v: Seq<char>) -> Seq<PartView> {
    if v.len() == 0 {
        parts
    } else if parts.len() > 0 && parts.last() is Literal {
        parts.update(parts.len() - 1, PartView::Literal(parts.last()->Literal_0 + v))
    } else {
        parts.push(PartView::Literal(v))
    }
}

/// Template parsing from index `i` on, given the parts so far: `$$` and
/// `$!` escape a character, `${NAME}` and `$NAME` reference a variable,
/// and every other `$` (or a `${...}` whose content is not a name) is
/// literal text.
pub open spec fn parse_from(c: Seq<char>, i: int, parts: Seq<PartView>) -> Seq<PartView>
    decreases c.len() - i, 1int,
{
    if i < 0 || i >= c.len() {
        parts
    } else {
        match index_of_from(c, '$', i) {
            None => append_lit(parts, c.subrange(i, c.len() as int)),
            Some(d) => if d < i || d >= c.len() {
                parts
            } else {
                let p1 = append_lit(parts, c.subrange(i, d));
                if d + 1 < c.len() && (c[d + 1] == '$' || c[d + 1] == '!') {
                    parse_from(c, d + 2, append_lit(p1, seq![c[d + 1]]))
                } else if d + 1 < c.len() && c[d + 1] == '{' {
                    match index_of_from(c, '}', d + 2) {
                        None => parse_from(c, d + 1, append_lit(p1, seq!['$'])),
                        Some(e) => if e < d + 2 || e >= c.len() {
                            parts
                        } else if spec_is_env_var_name(c.subrange(d + 2, e)) {
                            parse_from(c, e + 1, p1.push(PartView::Env(c.subrange(d + 2, e))))
                        } else {
                            parse_from(c, e + 1, append_lit(p1, c.subrange(d, e + 1)))
                        },
                    }
                } else {
                    let n = env_prefix_len(c, d + 1, d + 1);
                    if d + 1 + n > c.len() {
                        parts
                    } else if n > 0 {
                        parse_from(c, d + 1 + n, p1.push(PartView::Env(c.subrange(d + 1, d + 1 + n))))
                    } else {
                        parse_from(c, d + 1, append_lit(p1, seq!['$']))
                    }
                }
            },
        }
    }
}

/// The parts of a template value.
pub open spec fn spec_parse_template(c: Seq<char>) -> Seq<PartView> {
    parse_from(c, 0, Seq::<PartView>::empty())
}

fn sub_string(s: &Vec<char>, from: usize, to: usize) -> (out: String)
    requires
        from <= to <= s@.len(),
    ensures
        out@ == s@.subrange(from as int, to as int),
{
    let slice = s.as_slice();
    let mut v: Vec<char> = Vec::new();
    let mut j = from;
    while j < to
        invariant
            from <= j <= to,
            to <= s@.len(),
            slice@ == s@,
            v@ == s@.subrange(from as int, j as int),
        decreases to - j,
    {
        v.push(slice[j]);
        assert(s@.subrange(from as int, j + 1) =~= s@.subrange(from as int, j as int).push(s@[j as int]));
        j += 1;
    }
    string_of(v.as_slice())
}

/// Appends `value` to `s`.
fn append_string(s: &mut String, value: &String)
    ensures
        final(s)@ == old(s)@ + value@,
{
    s.append(value.as_str());
}

fn append_literal(parts: &mut Vec<TemplatePart>, value: String)
    ensures
        parts_view(final(parts)@) == append_lit(parts_view(old(parts)@), value@),
{
    if value.as_str().is_empty() {
        return;
    }
    let n = parts.len();
    if n > 0 {
        let last = parts.pop().unwrap();
        match last {
            TemplatePart::Literal(mut previous) => {
                append_string(&mut previous, &value);
                parts.push(TemplatePart::Literal(previous));
                assert(parts_view(parts@) =~= append_lit(parts_view(old(parts)@), value@));
                return;
            },
            TemplatePart::Env(name) => {
                parts.push(TemplatePart::Env(name));
                assert(parts@ =~= old(parts)@);
            },
        }
    }
    parts.push(TemplatePart::Literal(value));
    assert(parts_view(parts@) =~= append_lit(parts_view(old(parts)@), value@));
}

/// Parses an environment-variable template into literal and variable
/// parts.
pub fn parse_config_value_template(config: &str) -> (parts: Vec<TemplatePart>)
    ensures
        parts_view(parts@) == spec_parse_template(config@),
{
    let c = chars_of(config);
    let mut parts: Vec<TemplatePart> = Vec::new();
    let mut index: usize = 0;
    assert(parts_view(parts@) =~= Seq::<PartView>::empty());
    while index < c.len()
        invariant
            index <= c@.len(),
            c@ == config@,
            spec_parse_template(c@) == parse_from(c@, index as int, parts_view(parts@)),
        decreases c@.len() - index,
    {
        let ghost before = parts_view(parts@);
        let found = find_from(&c, '$', index);
        proof {
            lemma_index_of_from_range(c@, '$', index as int);
        }
        match found {
            None => {
                append_literal(&mut parts, sub_string(&c, index, c.len()));
                return parts;
            },
            Some(d) => {
                append_literal(&mut parts, sub_string(&c, index, d));
                let ghost p1 = parts_view(parts@);
                if d + 1 < c.len() && (c[d + 1] == '$' || c[d + 1] == '!') {
                    let ch = c[d + 1];
                    let lit = sub_string(&c, d + 1, d + 2);
                    assert(lit@ =~= seq![ch]);
                    append_literal(&mut parts, lit);
                    index = d + 2;
                } else if d + 1 < c.len() && c[d + 1] == '{' {
                    let close = find_from(&c, '}', d + 2);
                    proof {
                        lemma_index_of_from_range(c@, '}', d + 2);
                    }
                    match close {
                        None => {
                            let lit = sub_string(&c, d, d + 1);
                            assert(lit@ =~= seq!['$']);
                            append_literal(&mut parts, lit);
                            index = d + 1;
                        },
                        Some(e) => {
                            if is_env_var_name(&c, d + 2, e) {
                                parts.push(TemplatePart::Env(sub_string(&c, d + 2, e)));
                                assert(parts_view(parts@) =~= p1.push(PartView::Env(c@.subrange(d + 2, e as int))));
                            } else {
                                append_literal(&mut parts, sub_string(&c, d, e + 1));
                            }
                            index = e + 1;
                        },
                    }
                } else {
                    let mut n: usize = 0;
                    let start = d + 1;
                    proof {
                        lemma_env_prefix_len_range(c@, d + 1, d + 1);
                    }
                    while n < c.len() - start && is_env_var_name_char(c[start + n], n == 0)
                        invariant
                            start == d + 1,
                            start <= c@.len(),
                            start + n <= c@.len(),
                            env_prefix_len(c@, d + 1, d + 1) == n + env_prefix_len(c@, d + 1, d + 1 + n),
                        decreases c@.len() - n,
                    {
                        n += 1;
                    }
                    if n > 0 {
                        parts.push(TemplatePart::Env(sub_string(&c, d + 1, d + 1 + n)));
                        assert(parts_view(parts@) =~= p1.push(PartView::Env(c@.subrange(d + 1, d + 1 + n))));
                        index = d + 1 + n;
                    } else {
                        let lit = sub_string(&c, d, d + 1);
                        assert(lit@ =~= seq!['$']);
                        append_literal(&mut parts, lit);
                        index = d + 1;
                    }
                }
            },
        }
    }
    parts
}


/// `!command` values are commands; anything else is a template.
pub open spec fn spec_is_command(c: Seq<char>) -> bool {
    c.len() > 0 && c[0] == '!'
}

/// Parses a configuration value: a command when it starts with `!`,
/// otherwise a template.
pub fn parse_config_value_reference(config: &str) -> (r: ConfigValueReference)
    ensures
        match r {
            ConfigValueReference::Command(s) => spec_is_command(config@) && s@ == config@,
            ConfigValueReference::Template(parts) => !spec_is_command(config@)
                && parts_view(parts@) == spec_parse_template(config@),
        },
{
    let c = chars_of(config);
    if c.len() > 0 && c[0] == '!' {
        ConfigValueReference::Command(string_of(c.as_slice()))
    } else {
        ConfigValueReference::Template(parse_config_value_template(config))
    }
}

/// A snapshot of environment variables; a later entry for a name shadows
/// an earlier one.
pub struct EnvVars {
    vars: Vec<(String, String)>,
}

/// The value of the last entry named `name`.
pub open spec fn env_lookup(vars: Seq<(String, String)>, name: Seq<char>) -> Option<Seq<char>>
    decreases vars.len(),
{
    if vars.len() == 0 {
        None
    } else if vars.last().0@ == name {
        Some(vars.last().1@)
    } else {
        env_lookup(vars.drop_last(), name)
    }
}

impl EnvVars {
    /// The variables as a sequence of name/value pairs.
    pub closed spec fn entries(&self) -> Seq<(String, String)> {
        self.vars@
    }

    /// The value of `name`, if set.
    pub open spec fn lookup(&self, name: Seq<char>) -> Option<Seq<char>> {
        env_lookup(self.entries(), name)
    }

    /// An empty environment.
    pub fn new() -> (env: EnvVars)
        ensures
            forall|n: Seq<char>| env.lookup(n) is None,
    {
        EnvVars { vars: Vec::new() }
    }

    /// Sets `name` to `value`.
    pub fn insert(&mut self, name: String, value: String)
        ensures
            final(self).lookup(name@) == Some(value@),
            forall|n: Seq<char>| n != name@ ==> final(self).lookup(n) == old(self).lookup(n),
    {
        self.vars.push((name, value));
        assert(self.vars@.drop_last() =~= old(self).vars@);
    }

    /// The value of `name`, if set.
    pub fn get(&self, name: &str) -> (r: Option<String>)
        ensures
            match r { Some(v) => self.lookup(name@) == Some(v@), None => self.lookup(name@) is None },
    {
        let n = string_of(chars_of(name).as_slice());
        let mut i = self.vars.len();
        assert(self.vars@.take(i as int) =~= self.vars@);
        while i > 0
            invariant
                i <= self.vars@.len(),
                env_lookup(self.vars@, name@) == env_lookup(self.vars@.take(i as int), name@),
                n@ == name@,
            decreases i,
        {
            assert(self.vars@.take(i as int).drop_last() =~= self.vars@.take(i - 1));
            if self.vars[i - 1].0 == n {
                return Some(self.vars[i - 1].1.clone());
            }
            i -= 1;
        }
        None
    }
}

/// An environment value as configuration values see it: unset and empty
/// values both count as missing.
pub open spec fn env_value(env: &EnvVars, name: Seq<char>) -> Option<Seq<char>> {
    match env.lookup(name) {
        Some(v) => if v.len() > 0 { Some(v) } else { None },
        None => None,
    }
}

fn resolve_env_config_value(env: &EnvVars, name: &String) -> (r: Option<String>)
    ensures
        match r { Some(v) => env_value(env, name@) == Some(v@), None => env_value(env, name@) is None },
{
    match env.get(name.as_str()) {
        Some(v) => {
            if v.as_str().is_empty() {
                None
            } else {
                Some(v)
            }
        },
        None => None,
    }
}

/// The distinct variable names of a template, in order of first use.
pub open spec fn spec_names(parts: Seq<PartView>) -> Seq<Seq<char>>
    decreases parts.len(),
{
    if parts.len() == 0 {
        Seq::<Seq<char>>::empty()
    } else {
        let rest = spec_names(parts.drop_last());
        match parts.last() {
            PartView::Env(n) => if rest.contains(n) { rest } else { rest.push(n) },
            PartView::Literal(_) => rest,
        }
    }
}

/// The names among `names` whose variables are missing.
pub open spec fn spec_missing(names: Seq<Seq<char>>, env: &EnvVars) -> Seq<Seq<char>>
    decreases names.len(),
{
    if names.len() == 0 {
        Seq::<Seq<char>>::empty()
    } else {
        let rest = spec_missing(names.drop_last(), env);
        if env_value(env, names.last()) is None { rest.push(names.last()) } else { rest }
    }
}

/// The template with every variable substituted, or `None` when one is
/// missing.
pub open spec fn spec_resolve_template(parts: Seq<PartView>, env: &EnvVars) -> Option<Seq<char>>
    decreases parts.len(),
{
    if parts.len() == 0 {
        Some(Seq::<char>::empty())
    } else {
        match spec_resolve_template(parts.drop_last(), env) {
            None => None,
            Some(prefix) => match parts.last() {
                PartView::Literal(v) => Some(prefix + v),
                PartView::Env(n) => match env_value(env, n) {
                    Some(v) => Some(prefix + v),
                    None => None,
                },
            },
        }
    }
}

/// The variable names a configuration value refers to (none for a
/// command).
pub open spec fn spec_config_names(config: Seq<char>) -> Seq<Seq<char>> {
    if spec_is_command(config) { Seq::<Seq<char>>::empty() } else { spec_names(spec_parse_template(config)) }
}

/// The strings held by a vector, as characters.
pub open spec fn strings_of(v: Seq<String>) -> Seq<Seq<char>> {
    Seq::new(v.len(), |i: int| v[i]@)
}

fn contains_string(v: &Vec<String>, s: &String) -> (r: bool)
    ensures
        r == strings_of(v@).contains(s@),
{
    let mut i: usize = 0;
    while i < v.len()
        invariant
            i <= v@.len(),
            forall|k: int| 0 <= k < i ==> v@[k]@ != s@,
        decreases v@.len() - i,
    {
        if v[i] == *s {
            assert(strings_of(v@)[i as int] == s@);
            return true;
        }
        i += 1;
    }
    assert forall|k: int| 0 <= k < strings_of(v@).len() implies strings_of(v@)[k] != s@ by {
        assert(strings_of(v@)[k] == v@[k]@);
    }
    false
}

fn template_env_var_names(parts: &Vec<TemplatePart>) -> (names: Vec<String>)
    ensures
        strings_of(names@) == spec_names(parts_view(parts@)),
{
    let mut names: Vec<String> = Vec::new();
    let mut i: usize = 0;
    while i < parts.len()
        invariant
            i <= parts@.len(),
            strings_of(names@) == spec_names(parts_view(parts@).take(i as int)),
        decreases parts@.len() - i,
    {
        let ghost t = parts_view(parts@).take(i + 1);
        assert(t.drop_last() =~= parts_view(parts@).take(i as int));
        assert(t.last() == parts@[i as int]@);
        match &parts[i] {
            TemplatePart::Env(name) => {
                if !contains_string(&names, name) {
                    let ghost before = strings_of(names@);
                    names.push(name.clone());
                    assert(strings_of(names@) =~= before.push(name@));
                }
            },
            TemplatePart::Literal(_) => {},
        }
        i += 1;
    }
    assert(parts_view(parts@).take(parts@.len() as int) =~= parts_view(parts@));
    names
}

/// The environment-variable names a configuration value refers to, in
/// order of first use; none for a command.
pub fn get_config_value_env_var_names(config: &str) -> (names: Vec<String>)
    ensures
        strings_of(names@) == spec_config_names(config@),
{
    match parse_config_value_reference(config) {
        ConfigValueReference::Template(parts) => template_env_var_names(&parts),
        ConfigValueReference::Command(_) => {
            let v: Vec<String> = Vec::new();
            assert(strings_of(v@) =~= Seq::<Seq<char>>::empty());
            v
        },
    }
}

/// The referenced environment variables that are unset or empty.
pub fn get_missing_config_value_env_var_names(config: &str, env: &EnvVars) -> (missing: Vec<String>)
    ensures
        strings_of(missing@) == spec_missing(spec_config_names(config@), env),
{
    let names = get_config_value_env_var_names(config);
    let mut missing: Vec<String> = Vec::new();
    let mut i: usize = 0;
    while i < names.len()
        invariant
            i <= names@.len(),
            strings_of(missing@) == spec_missing(strings_of(names@).take(i as int), env),
        decreases names@.len() - i,
    {
        let ghost t = strings_of(names@).take(i + 1);
        assert(t.drop_last() =~= strings_of(names@).take(i as int));
        assert(t.last() == names@[i as int]@);
        if resolve_env_config_value(env, &names[i]).is_none() {
            let ghost before = strings_of(missing@);
            missing.push(names[i].clone());
            assert(strings_of(missing@) =~= before.push(names@[i as int]@));
        }
        i += 1;
    }
    assert(strings_of(names@).take(names@.len() as int) =~= strings_of(names@));
    missing
}

/// Whether the value is a `!command`.
pub fn is_command_config_value(config: &str) -> (r: bool)
    ensures
        r == spec_is_command(config@),
{
    match parse_config_value_reference(config) {
        ConfigValueReference::Command(_) => true,
        ConfigValueReference::Template(_) => false,
    }
}

/// Whether every referenced environment variable is set and non-empty.
pub fn is_config_value_configured(config: &str, env: &EnvVars) -> (r: bool)
    ensures
        r == (spec_missing(spec_config_names(config@), env).len() == 0),
{
    get_missing_config_value_env_var_names(config, env).len() == 0
}

fn resolve_template(parts: &Vec<TemplatePart>, env: &EnvVars) -> (r: Option<String>)
    ensures
        match r {
            Some(v) => spec_resolve_template(parts_view(parts@), env) == Some(v@),
            None => spec_resolve_template(parts_view(parts@), env) is None,
        },
{
    let mut resolved = String::new();
    let mut i: usize = 0;
    while i < parts.len()
        invariant
            i <= parts@.len(),
            spec_resolve_template(parts_view(parts@).take(i as int), env) == Some(resolved@),
        decreases parts@.len() - i,
    {
        let ghost t = parts_view(parts@).take(i + 1);
        assert(t.drop_last() =~= parts_view(parts@).take(i as int));
        assert(t.last() == parts@[i as int]@);
        match &parts[i] {
            TemplatePart::Literal(value) => append_string(&mut resolved, value),
            TemplatePart::Env(name) => {
                match resolve_env_config_value(env, name) {
                    Some(v) => append_string(&mut resolved, &v),
                    None => {
                        proof {
                            lemma_resolve_template_none_extends(parts_view(parts@), env, i + 1);
                        }
                        return None;
                    },
                }
            },
        }
        i += 1;
    }
    assert(parts_view(parts@).take(parts@.len() as int) =~= parts_view(parts@));
    Some(resolved)
}

proof fn lemma_resolve_template_none_extends(parts: Seq<PartView>, env: &EnvVars, k: int)
    requires
        0 <= k <= parts.len(),
        spec_resolve_template(parts.take(k), env) is None,
    ensures
        spec_resolve_template(parts, env) is None,
    decreases parts.len() - k,
{
    if k < parts.len() {
        assert(parts.take(k + 1).drop_last() =~= parts.take(k));
        lemma_resolve_template_none_extends(parts, env, k + 1);
    } else {
        assert(parts.take(k) =~= parts);
    }
}


/// Outcomes of shell commands keyed by the whole `!command` value; a
/// later record shadows an earlier one.
pub struct CommandCache {
    entries: Vec<(String, Option<String>)>,
}

/// The outcome recorded last for `key`.
pub open spec fn cache_lookup(entries: Seq<(String, Option<String>)>, key: Seq<char>) -> Option<Option<Seq<char>>>
    decreases entries.len(),
{
    if entries.len() == 0 {
        None
    } else if entries.last().0@ == key {
        Some(match entries.last().1 { Some(v) => Some(v@), None => None })
    } else {
        cache_lookup(entries.drop_last(), key)
    }
}

impl CommandCache {
    pub closed spec fn entries(&self) -> Seq<(String, Option<String>)> {
        self.entries@
    }

    /// The recorded outcome of the command value `key`, if any.
    pub open spec fn lookup(&self, key: Seq<char>) -> Option<Option<Seq<char>>> {
        cache_lookup(self.entries(), key)
    }

    /// An empty cache.
    pub fn new() -> (cache: CommandCache)
        ensures
            forall|k: Seq<char>| cache.lookup(k) is None,
    {
        CommandCache { entries: Vec::new() }
    }

    /// Records the outcome of running the command value `config`.
    pub fn record(&mut self, config: &str, outcome: Option<String>)
        ensures
            final(self).lookup(config@) == Some(match outcome { Some(v) => Some(v@), None => None }),
            forall|k: Seq<char>| k != config@ ==> final(self).lookup(k) == old(self).lookup(k),
    {
        let key = string_of(chars_of(config).as_slice());
        self.entries.push((key, outcome));
        assert(self.entries@.drop_last() =~= old(self).entries@);
    }

    /// Forgets every recorded outcome.
    pub fn clear(&mut self)
        ensures
            forall|k: Seq<char>| final(self).lookup(k) is None,
    {
        self.entries = Vec::new();
    }

    fn get(&self, key: &String) -> (r: Option<Option<String>>)
        ensures
            match r {
                Some(o) => self.lookup(key@) == Some(match o { Some(v) => Some(v@), None => None }),
                None => self.lookup(key@) is None,
            },
    {
        let mut i = self.entries.len();
        assert(self.entries@.take(i as int) =~= self.entries@);
        while i > 0
            invariant
                i <= self.entries@.len(),
                cache_lookup(self.entries@, key@) == cache_lookup(self.entries@.take(i as int), key@),
            decreases i,
        {
            assert(self.entries@.take(i as int).drop_last() =~= self.entries@.take(i - 1));
            if self.entries[i - 1].0 == *key {
                let o = match &self.entries[i - 1].1 {
                    Some(v) => Some(v.clone()),
                    None => None,
                };
                return Some(o);
            }
            i -= 1;
        }
        None
    }
}

/// Forgets every command outcome the cache recorded.
pub fn clear_config_value_cache(cache: &mut CommandCache)
    ensures
        forall|k: Seq<char>| final(cache).lookup(k) is None,
{
    cache.clear();
}

/// What resolving a configuration value came to.
pub enum Resolution {
    /// The resolved value, or `None` when it cannot be resolved.
    Resolved(Option<String>),
    /// The value is a command whose outcome is not known yet: run this
    /// shell command (the value without its `!`), turn its exit status and
    /// stdout into an outcome with [`command_output`], record it, and
    /// resolve again.
    RunCommand(String),
}

/// The outcome of a command from its exit status and stdout: the trimmed
/// output, or `None` on failure or empty output.
pub open spec fn spec_command_output(success: bool, stdout: Seq<char>) -> Option<Seq<char>> {
    if !success || spec_trim(stdout).len() == 0 { None } else { Some(spec_trim(stdout)) }
}

/// The outcome of a finished command: its trimmed stdout when it exited
/// successfully with non-blank output, `None` otherwise (failure, timeout
/// or no output).
pub fn command_output(success: bool, stdout: &str) -> (r: Option<String>)
    ensures
        match r {
            Some(v) => spec_command_output(success, stdout@) == Some(v@),
            None => spec_command_output(success, stdout@) is None,
        },
{
    if !success {
        return None;
    }
    let trimmed = trim_chars(&chars_of(stdout));
    if trimmed.len() == 0 {
        None
    } else {
        Some(string_of(trimmed.as_slice()))
    }
}

fn command_text(config: &String) -> (cmd: String)
    requires
        spec_is_command(config@),
    ensures
        cmd@ == config@.skip(1),
{
    let c = chars_of(config.as_str());
    let mut v: Vec<char> = Vec::new();
    let mut j: usize = 1;
    while j < c.len()
        invariant
            1 <= j <= c@.len(),
            v@ == c@.subrange(1, j as int),
        decreases c@.len() - j,
    {
        v.push(c[j]);
        assert(c@.subrange(1, j + 1) =~= c@.subrange(1, j as int).push(c@[j as int]));
        j += 1;
    }
    assert(c@.subrange(1, c@.len() as int) =~= c@.skip(1));
    string_of(v.as_slice())
}

/// What a template resolves to, or what a command value resolves to
/// given its cached outcome (`RunCommand` when there is none yet).
pub open spec fn resolution_matches(r: Resolution, config: Seq<char>, env: &EnvVars, cached: Option<Option<Seq<char>>>) -> bool {
    if spec_is_command(config) {
        match cached {
            Some(o) => r matches Resolution::Resolved(v) && match v { Some(s) => o == Some(s@), None => o is None },
            None => r matches Resolution::RunCommand(c) && c@ == config.skip(1),
        }
    } else {
        r matches Resolution::Resolved(v) && match v {
            Some(s) => spec_resolve_template(spec_parse_template(config), env) == Some(s@),
            None => spec_resolve_template(spec_parse_template(config), env) is None,
        }
    }
}

/// Resolves a configuration value: a template against `env`, a command
/// through its outcome in `cache` (commands run once per process: the
/// caller records each outcome).
pub fn resolve_config_value(config: &str, env: &EnvVars, cache: &CommandCache) -> (r: Resolution)
    ensures
        resolution_matches(r, config@, env, cache.lookup(config@)),
{
    match parse_config_value_reference(config) {
        ConfigValueReference::Command(command) => {
            match cache.get(&command) {
                Some(o) => Resolution::Resolved(o),
                None => Resolution::RunCommand(command_text(&command)),
            }
        },
        ConfigValueReference::Template(parts) => Resolution::Resolved(resolve_template(&parts, env)),
    }
}

/// Resolves a configuration value without the command cache: a command
/// always asks to be run.
pub fn resolve_config_value_uncached(config: &str, env: &EnvVars) -> (r: Resolution)
    ensures
        resolution_matches(r, config@, env, None),
{
    match parse_config_value_reference(config) {
        ConfigValueReference::Command(command) => Resolution::RunCommand(command_text(&command)),
        ConfigValueReference::Template(parts) => Resolution::Resolved(resolve_template(&parts, env)),
    }
}

/// Why a configuration value could not be resolved.
pub enum ConfigValueError {
    Command { description: String, command: String },
    EnvVar { description: String, name: String },
    EnvVars { description: String, names: String },
    Other { description: String },
}

/// The error's message.
pub open spec fn spec_error_message(e: ConfigValueError) -> Seq<char> {
    match e {
        ConfigValueError::Command { description, command } => "Failed to resolve "@ + description@
            + " from shell command: "@ + command@,
        ConfigValueError::EnvVar { description, name } => "Failed to resolve "@ + description@
            + " from environment variable: "@ + name@,
        ConfigValueError::EnvVars { description, names } => "Failed to resolve "@ + description@
            + " from environment variables: "@ + names@,
        ConfigValueError::Other { description } => "Failed to resolve "@ + description@,
    }
}

impl ConfigValueError {
    /// The human-readable message.
    pub fn message(&self) -> (m: String)
        ensures
            m@ == spec_error_message(*self),
    {
        let mut m = String::new();
        m.append("Failed to resolve ");
        match self {
            ConfigValueError::Command { description, command } => {
                m.append(description.as_str());
                m.append(" from shell command: ");
                m.append(command.as_str());
            },
            ConfigValueError::EnvVar { description, name } => {
                m.append(description.as_str());
                m.append(" from environment variable: ");
                m.append(name.as_str());
            },
            ConfigValueError::EnvVars { description, names } => {
                m.append(description.as_str());
                m.append(" from environment variables: ");
                m.append(names.as_str());
            },
            ConfigValueError::Other { description } => {
                m.append(description.as_str());
            },
        }
        m
    }
}

/// `names` joined with `, `.
pub open spec fn join_names(names: Seq<Seq<char>>) -> Seq<char>
    decreases names.len(),
{
    if names.len() == 0 {
        Seq::<char>::empty()
    } else if names.len() == 1 {
        names[0]
    } else {
        join_names(names.drop_last()) + ", "@ + names.last()
    }
}

fn join_strings(names: &Vec<String>) -> (out: String)
    ensures
        out@ == join_names(strings_of(names@)),
{
    let mut out = String::new();
    let mut i: usize = 0;
    while i < names.len()
        invariant
            i <= names@.len(),
            out@ == join_names(strings_of(names@).take(i as int)),
        decreases names@.len() - i,
    {
        let ghost t = strings_of(names@).take(i + 1);
        assert(t.drop_last() =~= strings_of(names@).take(i as int));
        if i > 0 {
            out.append(", ");
        } else {
            assert(out@ =~= Seq::<char>::empty());
        }
        out.append(names[i].as_str());
        i += 1;
    }
    assert(strings_of(names@).take(names@.len() as int) =~= strings_of(names@));
    out
}

/// The outcome of `resolve_config_value_or_throw`: the command's outcome
/// or the resolved template, else the error naming what was missing.
pub open spec fn or_throw_matches(
    r: Result<String, ConfigValueError>,
    config: Seq<char>,
    description: Seq<char>,
    env: &EnvVars,
    command_output: Option<Seq<char>>,
) -> bool {
    let resolved = if spec_is_command(config) {
        command_output
    } else {
        spec_resolve_template(spec_parse_template(config), env)
    };
    let missing = spec_missing(spec_config_names(config), env);
    match resolved {
        Some(v) => r matches Ok(s) && s@ == v,
        None => r matches Err(e) && (if spec_is_command(config) {
            e matches ConfigValueError::Command { description: d, command: c } && d@ == description
                && c@ == config.skip(1)
        } else if missing.len() == 1 {
            e matches ConfigValueError::EnvVar { description: d, name: n } && d@ == description
                && n@ == missing[0]
        } else if missing.len() > 1 {
            e matches ConfigValueError::EnvVars { description: d, names: n } && d@ == description
                && n@ == join_names(missing)
        } else {
            e matches ConfigValueError::Other { description: d } && d@ == description
        }),
    }
}

/// Resolves a configuration value or explains why it cannot be: a command
/// value takes its (uncached) outcome `command_output` from the caller,
/// who ran it; a template resolves against `env`.
pub fn resolve_config_value_or_throw(
    config: &str,
    description: &str,
    env: &EnvVars,
    command_output: Option<String>,
) -> (r: Result<String, ConfigValueError>)
    ensures
        or_throw_matches(r, config@, description@, env, match command_output { Some(v) => Some(v@), None => None }),
{
    let desc = string_of(chars_of(description).as_slice());
    match parse_config_value_reference(config) {
        ConfigValueReference::Command(command) => {
            match command_output {
                Some(v) => Ok(v),
                None => Err(ConfigValueError::Command { description: desc, command: command_text(&command) }),
            }
        },
        ConfigValueReference::Template(parts) => {
            match resolve_template(&parts, env) {
                Some(v) => Ok(v),
                None => {
                    let missing = get_missing_config_value_env_var_names(config, env);
                    if missing.len() == 1 {
                        Err(ConfigValueError::EnvVar { description: desc, name: missing[0].clone() })
                    } else if missing.len() > 1 {
                        Err(ConfigValueError::EnvVars { description: desc, names: join_strings(&missing) })
                    } else {
                        Err(ConfigValueError::Other { description: desc })
                    }
                },
            }
        },
    }
}


/// Every variable part of `parts` has a value.
pub open spec fn all_vars_set(parts: Seq<PartView>, env: &EnvVars) -> bool {
    forall|i: int| 0 <= i < parts.len() ==> (#[trigger] parts[i] matches PartView::Env(n) ==> env_value(env, n) is Some)
}

proof fn lemma_resolve_some_iff_all_set(parts: Seq<PartView>, env: &EnvVars)
    ensures
        spec_resolve_template(parts, env) is Some <==> all_vars_set(parts, env),
    decreases parts.len(),
{
    if parts.len() > 0 {
        let init = parts.drop_last();
        lemma_resolve_some_iff_all_set(init, env);
        if all_vars_set(parts, env) {
            assert forall|i: int| 0 <= i < init.len() implies (#[trigger] init[i] matches PartView::Env(n) ==> env_value(env, n) is Some) by {
                assert(init[i] == parts[i]);
            }
            assert(parts[parts.len() - 1] == parts.last());
        }
        if spec_resolve_template(parts, env) is Some {
            assert forall|i: int| 0 <= i < parts.len() implies (#[trigger] parts[i] matches PartView::Env(n) ==> env_value(env, n) is Some) by {
                if i < init.len() {
                    assert(init[i] == parts[i]);
                }
            }
        }
    }
}

proof fn lemma_names_contains(parts: Seq<PartView>, n: Seq<char>)
    ensures
        spec_names(parts).contains(n) <==> exists|i: int| 0 <= i < parts.len() && parts[i] == PartView::Env(n),
    decreases parts.len(),
{
    if parts.len() > 0 {
        let init = parts.drop_last();
        let rest = spec_names(init);
        lemma_names_contains(init, n);
        let in_init = exists|i: int| 0 <= i < init.len() && init[i] == PartView::Env(n);
        let in_parts = exists|i: int| 0 <= i < parts.len() && parts[i] == PartView::Env(n);
        if in_init {
            let i = choose|i: int| 0 <= i < init.len() && init[i] == PartView::Env(n);
            assert(parts[i] == init[i]);
            assert(in_parts);
        }
        if in_parts && !in_init {
            let i = choose|i: int| 0 <= i < parts.len() && parts[i] == PartView::Env(n);
            if i < init.len() {
                assert(init[i] == parts[i]);
                assert(false);
            }
            assert(parts.last() == PartView::Env(n));
        }
        match parts.last() {
            PartView::Env(m) => {
                if rest.contains(m) {
                    assert(spec_names(parts) == rest);
                    if m == n {
                        assert(in_parts) by {
                            assert(parts[parts.len() - 1] == PartView::Env(n));
                        }
                    }
                } else {
                    assert(spec_names(parts) == rest.push(m));
                    if rest.push(m).contains(n) {
                        let k = choose|k: int| 0 <= k < rest.push(m).len() && rest.push(m)[k] == n;
                        if k < rest.len() {
                            assert(rest[k] == n);
                            assert(rest.contains(n));
                        } else {
                            assert(m == n);
                            assert(parts[parts.len() - 1] == PartView::Env(n));
                        }
                    }
                    if in_parts {
                        if in_init {
                            let k = choose|k: int| 0 <= k < rest.len() && rest[k] == n;
                            assert(rest.push(m)[k] == n);
                        } else {
                            assert(rest.push(m)[rest.len() as int] == n);
                        }
                    }
                }
            },
            PartView::Literal(_) => {
                assert(spec_names(parts) == rest);
                if in_parts && !in_init {
                    assert(false);
                }
            },
        }
    }
}

proof fn lemma_missing_empty_iff(names: Seq<Seq<char>>, env: &EnvVars)
    ensures
        spec_missing(names, env).len() == 0 <==> forall|j: int| 0 <= j < names.len() ==> env_value(env, #[trigger] names[j]) is Some,
    decreases names.len(),
{
    if names.len() > 0 {
        let init = names.drop_last();
        lemma_missing_empty_iff(init, env);
        let rest = spec_missing(init, env);
        if forall|j: int| 0 <= j < names.len() ==> env_value(env, #[trigger] names[j]) is Some {
            assert forall|j: int| 0 <= j < init.len() implies env_value(env, #[trigger] init[j]) is Some by {
                assert(init[j] == names[j]);
            }
            assert(env_value(env, names[names.len() - 1]) is Some);
        }
        if spec_missing(names, env).len() == 0 {
            if env_value(env, names.last()) is None {
                assert(spec_missing(names, env) == rest.push(names.last()));
                assert(false);
            }
            assert(rest.len() == 0);
            assert forall|j: int| 0 <= j < names.len() implies env_value(env, #[trigger] names[j]) is Some by {
                if j < init.len() {
                    assert(init[j] == names[j]);
                }
            }
        }
    }
}

proof fn lemma_missing_len(names: Seq<Seq<char>>, env: &EnvVars)
    ensures
        spec_missing(names, env).len() <= names.len(),
    decreases names.len(),
{
    if names.len() > 0 {
        lemma_missing_len(names.drop_last(), env);
    }
}

/// A template value resolves exactly when none of the environment
/// variables it refers to is missing (unset or empty).
pub proof fn law_template_resolves_iff_configured(config: Seq<char>, env: &EnvVars)
    requires
        !spec_is_command(config),
    ensures
        spec_resolve_template(spec_parse_template(config), env) is Some
            <==> spec_missing(spec_config_names(config), env).len() == 0,
{
    let parts = spec_parse_template(config);
    let names = spec_names(parts);
    lemma_resolve_some_iff_all_set(parts, env);
    lemma_missing_empty_iff(names, env);
    if all_vars_set(parts, env) {
        assert forall|j: int| 0 <= j < names.len() implies env_value(env, #[trigger] names[j]) is Some by {
            lemma_names_contains(parts, names[j]);
            assert(names.contains(names[j]));
            let i = choose|i: int| 0 <= i < parts.len() && parts[i] == PartView::Env(names[j]);
            assert(parts[i] matches PartView::Env(n) ==> env_value(env, n) is Some);
        }
    }
    if forall|j: int| 0 <= j < names.len() ==> env_value(env, #[trigger] names[j]) is Some {
        assert forall|i: int| 0 <= i < parts.len() implies (#[trigger] parts[i] matches PartView::Env(n) ==> env_value(env, n) is Some) by {
            match parts[i] {
                PartView::Env(n) => {
                    lemma_names_contains(parts, n);
                    let j = choose|j: int| 0 <= j < names.len() && names[j] == n;
                    assert(env_value(env, names[j]) is Some);
                },
                PartView::Literal(_) => {},
            }
        }
    }
}

/// A text without any `$` is a single literal, so it resolves to itself.
pub proof fn law_plain_literal_resolves_to_itself(config: Seq<char>, env: &EnvVars)
    requires
        !spec_is_command(config),
        config.len() > 0,
        forall|i: int| 0 <= i < config.len() ==> config[i] != '$',
    ensures
        spec_resolve_template(spec_parse_template(config), env) == Some(config),
{
    lemma_no_dollar(config, 0);
    assert(config.subrange(0, config.len() as int) =~= config);
    let parts = seq![PartView::Literal(config)];
    assert(append_lit(Seq::<PartView>::empty(), config) =~= parts);
    assert(spec_parse_template(config) == parts);
    assert(parts.drop_last() =~= Seq::<PartView>::empty());
    assert(spec_resolve_template(Seq::<PartView>::empty(), env) == Some(Seq::<char>::empty()));
    assert(parts.last() == PartView::Literal(config));
    assert(Seq::<char>::empty() + config =~= config);
    assert(spec_resolve_template(parts, env) == Some(Seq::<char>::empty() + config));
}

proof fn lemma_no_dollar(c: Seq<char>, i: int)
    requires
        0 <= i,
        forall|k: int| 0 <= k < c.len() ==> c[k] != '$',
    ensures
        index_of_from(c, '$', i) is None,
    decreases c.len() - i,
{
    if i < c.len() {
        lemma_no_dollar(c, i + 1);
    }
}

} // verus!
