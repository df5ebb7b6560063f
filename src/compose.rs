use vstd::prelude::*;
use crate::coerce::{coerce, decode_json, json_tree, parse_env_value};
use crate::environment::{EnvModel, Environment, lookup, lookup_pair, pairs_of};
use crate::text::{append_chars, chars_of, string_of, to_upper, upper_of};
use crate::tree::{
    MergeStrategy, Tree, Value, entries_of, keys_of, lemma_object_view, merge_all,
    merge_all_trees, put, put_entry, tree_get, tree_set, trees_of,
};

verus! {

/// One field of a configurable type.
pub struct FieldSpec {
    pub name: String,
    /// The exact variable name to read, in place of the derived one.
    pub env_name: Option<String>,
    /// The command-line flag to read, in place of the derived one.
    pub cli_name: Option<String>,
    /// A default, as a JSON literal (or plain text when it is not JSON).
    pub default: Option<String>,
    /// Left out of configuration altogether.
    pub skip: bool,
    /// A field that is a configurable type of its own, resolved by itself.
    pub nested: Option<ConfigSpec>,
}

/// A configurable type: its own prefix and its fields.
pub struct ConfigSpec {
    pub env_prefix: String,
    pub fields: Vec<FieldSpec>,
}

/// What a build reads: the environment (name, value pairs), decoded file
/// trees in precedence order, command-line values (flag, value pairs), and
/// the merge strategy.
pub struct Sources {
    pub vars: Vec<(String, String)>,
    pub files: Vec<Value>,
    pub cli: Vec<(String, String)>,
    pub strategy: MergeStrategy,
}

/// Why a build failed.
#[derive(Debug, PartialEq)]
pub enum ConfigError {
    SourceUnavailable(String),
    DecodeFailure(String),
    Validation(String),
    Binding(String),
    Configuration(String),
}

impl FieldSpec {
    /// A plain field: derived names, no default.
    pub fn new(name: &str) -> (r: FieldSpec)
        ensures
            r.name@ == name@,
            r.env_name is None,
            r.cli_name is None,
            r.default is None,
            !r.skip,
            r.nested is None,
    {
        FieldSpec {
            name: string_of(&chars_of(name)),
            env_name: None,
            cli_name: None,
            default: None,
            skip: false,
            nested: None,
        }
    }

    /// A field that is a configurable type of its own.
    pub fn nested_type(name: &str, spec: ConfigSpec) -> (r: FieldSpec)
        ensures
            r.name@ == name@,
            r.env_name is None,
            r.cli_name is None,
            r.default is None,
            !r.skip,
            r.nested == Some(spec),
    {
        FieldSpec { nested: Some(spec), ..FieldSpec::new(name) }
    }

    /// Sets the default literal.
    pub fn with_default(self, literal: &str) -> (r: FieldSpec)
        ensures
            r.default matches Some(d) && d@ == literal@,
            r.name == self.name,
            r.env_name == self.env_name,
            r.cli_name == self.cli_name,
            r.skip == self.skip,
            r.nested == self.nested,
    {
        FieldSpec { default: Some(string_of(&chars_of(literal))), ..self }
    }

    /// Reads the field from exactly the variable `env_name`.
    pub fn with_env_name(self, env_name: &str) -> (r: FieldSpec)
        ensures
            r.env_name matches Some(e) && e@ == env_name@,
            r.name == self.name,
            r.default == self.default,
            r.cli_name == self.cli_name,
            r.skip == self.skip,
            r.nested == self.nested,
    {
        FieldSpec { env_name: Some(string_of(&chars_of(env_name))), ..self }
    }

    /// Reads the field from the command-line flag `cli_name`.
    pub fn with_cli_name(self, cli_name: &str) -> (r: FieldSpec)
        ensures
            r.cli_name matches Some(c) && c@ == cli_name@,
            r.name == self.name,
            r.default == self.default,
            r.env_name == self.env_name,
            r.skip == self.skip,
            r.nested == self.nested,
    {
        FieldSpec { cli_name: Some(string_of(&chars_of(cli_name))), ..self }
    }

    /// Leaves the field out of configuration.
    pub fn skipped(self) -> (r: FieldSpec)
        ensures
            r.skip,
            r.name == self.name,
            r.default == self.default,
            r.env_name == self.env_name,
            r.cli_name == self.cli_name,
            r.nested == self.nested,
    {
        FieldSpec { skip: true, ..self }
    }
}

impl ConfigSpec {
    /// A type with prefix `env_prefix` (empty for none) and no fields yet.
    pub fn new(env_prefix: &str) -> (r: ConfigSpec)
        ensures
            r.env_prefix@ == env_prefix@,
            r.fields@.len() == 0,
    {
        ConfigSpec { env_prefix: string_of(&chars_of(env_prefix)), fields: Vec::new() }
    }

    /// Adds a field after the others.
    pub fn field(self, f: FieldSpec) -> (r: ConfigSpec)
        ensures
            r.env_prefix == self.env_prefix,
            r.fields@ == self.fields@.push(f),
    {
        let mut s = self;
        s.fields.push(f);
        s
    }
}

/// How deep nested types may go before a build gives up.
pub const MAX_NESTING: usize = 16;

/// The prefix of a type inside a parent: the parent's alone when the type has
/// none, its own alone when the parent has none, else both joined by `sep`.
pub open spec fn composed_prefix(parent: Seq<char>, own: Seq<char>, sep: Seq<char>) -> Seq<char> {
    if own.len() == 0 {
        parent
    } else if parent.len() == 0 {
        own
    } else {
        parent + sep + own
    }
}

/// A field that is read from sources: neither skipped nor nested.
pub open spec fn is_regular(f: FieldSpec) -> bool {
    !f.skip && f.nested is None
}

/// The variable a regular field is read from: its explicit name, else the
/// prefix and the upper-cased field name joined by `_`.
pub open spec fn field_env_key(composed: Seq<char>, f: FieldSpec) -> Seq<char> {
    match f.env_name {
        Some(e) => e@,
        None => if composed.len() == 0 {
            upper_of(f.name@)
        } else {
            composed + seq!['_'] + upper_of(f.name@)
        },
    }
}

/// `s` with each `_` turned into `-`.
pub open spec fn dashed(s: Seq<char>) -> Seq<char> {
    s.map_values(|c: char| if c == '_' { '-' } else { c })
}

/// The command-line flag a regular field is read from.
pub open spec fn field_cli_key(f: FieldSpec) -> Seq<char> {
    match f.cli_name {
        Some(c) => c@,
        None => dashed(f.name@),
    }
}

/// Field name to variable name, for each regular field.
pub open spec fn env_mappings(fields: Seq<FieldSpec>, composed: Seq<char>) -> Seq<(Seq<char>, Seq<char>)>
    decreases fields.len(),
{
    if fields.len() == 0 {
        Seq::empty()
    } else {
        let m = env_mappings(fields.drop_last(), composed);
        if is_regular(fields.last()) {
            put(m, fields.last().name@, field_env_key(composed, fields.last()))
        } else {
            m
        }
    }
}

/// The environment source of a type under a composed prefix.
pub open spec fn env_model(fields: Seq<FieldSpec>, composed: Seq<char>) -> EnvModel {
    EnvModel {
        prefix: if composed.len() > 0 {
            Some(composed)
        } else {
            None
        },
        separator: seq!['_'],
        case_sensitive: false,
        overrides: Seq::empty(),
        field_mappings: env_mappings(fields, composed),
        nested: false,
    }
}

/// A default literal: its JSON value, else the text itself.
pub open spec fn default_tree(s: Seq<char>) -> Tree {
    match json_tree(s) {
        Some(t) => t,
        None => Tree::Str(s),
    }
}

/// The defaults of the regular fields that have one.
pub open spec fn defaults_of(fields: Seq<FieldSpec>) -> Seq<(Seq<char>, Tree)>
    decreases fields.len(),
{
    if fields.len() == 0 {
        Seq::empty()
    } else {
        let m = defaults_of(fields.drop_last());
        let f = fields.last();
        if is_regular(f) && f.default is Some {
            put(m, f.name@, default_tree(f.default->Some_0@))
        } else {
            m
        }
    }
}

/// The command-line values of the regular fields that have one.
pub open spec fn cli_of(fields: Seq<FieldSpec>, cli: Seq<(Seq<char>, Seq<char>)>) -> Seq<(Seq<char>, Tree)>
    decreases fields.len(),
{
    if fields.len() == 0 {
        Seq::empty()
    } else {
        let m = cli_of(fields.drop_last(), cli);
        let f = fields.last();
        if is_regular(f) && lookup(cli, field_cli_key(f)) is Some {
            put(m, f.name@, coerce(lookup(cli, field_cli_key(f))->Some_0))
        } else {
            m
        }
    }
}

/// What the files hold for a nested field: each file's value under key
/// `name`, in order, for the files that have one.
pub open spec fn child_files(files: Seq<Tree>, name: Seq<char>) -> Seq<Tree>
    decreases files.len(),
{
    if files.len() == 0 {
        Seq::empty()
    } else {
        let c = child_files(files.drop_last(), name);
        match tree_get(files.last(), seq![name]) {
            Some(x) => c.push(x),
            None => c,
        }
    }
}

/// The layers of a type, lowest precedence first: defaults, the file trees
/// meant for it, environment, command line.
pub open spec fn layers(spec: ConfigSpec, composed: Seq<char>, src: Sources, files: Seq<Tree>) -> Seq<Tree> {
    seq![Tree::Object(defaults_of(spec.fields@))] + files + seq![
        env_model(spec.fields@, composed).collect_tree(pairs_of(src.vars@)),
        Tree::Object(cli_of(spec.fields@, pairs_of(src.cli@))),
    ]
}

/// The tree of a type before its nested fields are resolved.
pub open spec fn own_tree(spec: ConfigSpec, composed: Seq<char>, src: Sources, files: Seq<Tree>) -> Tree {
    merge_all_trees(layers(spec, composed, src, files), src.strategy)
}

/// The tree of a type resolved under `parent`, with at most `depth` more
/// levels of nesting; `None` when the nesting goes deeper.
pub open spec fn resolved(spec: ConfigSpec, parent: Seq<char>, src: Sources, files: Seq<Tree>, depth: nat) -> Option<Tree>
    decreases depth, spec.fields@.len() + 1,
{
    let composed = composed_prefix(parent, spec.env_prefix@, seq!['_']);
    splice(own_tree(spec, composed, src, files), spec.fields@, composed, src, files, depth)
}

/// `t` with each nested field replaced by its own resolution under `composed`.
pub open spec fn splice(
    t: Tree,
    fields: Seq<FieldSpec>,
    composed: Seq<char>,
    src: Sources,
    files: Seq<Tree>,
    depth: nat,
) -> Option<
    Tree,
>
    decreases depth, fields.len(),
{
    if fields.len() == 0 {
        Some(t)
    } else {
        match splice(t, fields.drop_last(), composed, src, files, depth) {
            None => None,
            Some(t1) => match fields.last().nested {
                None => Some(t1),
                Some(child) => if depth == 0 {
                    None
                } else {
                    match resolved(child, composed, src, child_files(files, fields.last().name@), (depth - 1) as nat) {
                        Some(c) => Some(tree_set(t1, seq![fields.last().name@], c)),
                        None => None,
                    }
                },
            },
        }
    }
}

pub proof fn lemma_splice_fails(
    t: Tree,
    fields: Seq<FieldSpec>,
    j: int,
    composed: Seq<char>,
    src: Sources,
    files: Seq<Tree>,
    depth: nat,
)
    requires
        0 <= j <= fields.len(),
        splice(t, fields.subrange(0, j), composed, src, files, depth) is None,
    ensures
        splice(t, fields, composed, src, files, depth) is None,
    decreases fields.len() - j,
{
    if j < fields.len() {
        assert(fields.subrange(0, j + 1).drop_last() =~= fields.subrange(0, j));
        lemma_splice_fails(t, fields, j + 1, composed, src, files, depth);
    } else {
        assert(fields.subrange(0, j) =~= fields);
    }
}

/// Composes a parent prefix with a type's own (see `composed_prefix`).
pub fn compose_prefix(parent: &str, own: &str, sep: &str) -> (r: String)
    ensures
        r@ == composed_prefix(parent@, own@, sep@),
{
    let p = chars_of(parent);
    let o = chars_of(own);
    if o.len() == 0 {
        return string_of(&p);
    }
    if p.len() == 0 {
        return string_of(&o);
    }
    let mut k = p;
    append_chars(&mut k, &chars_of(sep));
    append_chars(&mut k, &o);
    string_of(&k)
}

fn field_env_key_exec(composed: &str, f: &FieldSpec) -> (r: String)
    ensures
        r@ == field_env_key(composed@, *f),
{
    match &f.env_name {
        Some(e) => e.clone(),
        None => {
            let up = chars_of(to_upper(f.name.as_str()).as_str());
            let c = chars_of(composed);
            if c.len() == 0 {
                string_of(&up)
            } else {
                let us = chars_of("_");
                proof {
                    reveal_strlit("_");
                }
                assert(us@ =~= seq!['_']);
                let mut k = c;
                append_chars(&mut k, &us);
                append_chars(&mut k, &up);
                string_of(&k)
            }
        },
    }
}

fn field_cli_key_exec(f: &FieldSpec) -> (r: String)
    ensures
        r@ == field_cli_key(*f),
{
    match &f.cli_name {
        Some(c) => c.clone(),
        None => {
            let n = chars_of(f.name.as_str());
            let mut out: Vec<char> = Vec::new();
            let mut i: usize = 0;
            while i < n.len()
                invariant
                    i <= n.len(),
                    out@ == dashed(n@).subrange(0, i as int),
                decreases n.len() - i,
            {
                out.push(if n[i] == '_' { '-' } else { n[i] });
                assert(dashed(n@).subrange(0, i + 1) =~= dashed(n@).subrange(0, i as int).push(
                    dashed(n@)[i as int],
                ));
                i = i + 1;
            }
            assert(dashed(n@).subrange(0, n.len() as int) =~= dashed(n@));
            string_of(&out)
        },
    }
}

/// The environment source of a type under the composed prefix `composed`.
pub fn source_for(spec: &ConfigSpec, composed: &str) -> (r: Environment)
    ensures
        r@ == env_model(spec.fields@, composed@),
{
    let mut env = Environment::new();
    if chars_of(composed).len() > 0 {
        env = env.with_prefix(composed);
    }
    let ghost fs = spec.fields@;
    let mut i: usize = 0;
    assert(fs.subrange(0, 0) =~= Seq::<FieldSpec>::empty());
    while i < spec.fields.len()
        invariant
            i <= spec.fields.len(),
            fs == spec.fields@,
            env@ == (EnvModel { field_mappings: env_mappings(fs.subrange(0, i as int), composed@), ..env_model(fs, composed@) }),
        decreases spec.fields.len() - i,
    {
        let f = &spec.fields[i];
        assert(fs.subrange(0, i + 1).drop_last() =~= fs.subrange(0, i as int));
        assert(fs.subrange(0, i + 1).last() == *f);
        if !f.skip && f.nested.is_none() {
            let key = field_env_key_exec(composed, f);
            env = env.with_field_mapping(f.name.as_str(), key.as_str());
        }
        i = i + 1;
    }
    assert(fs.subrange(0, fs.len() as int) =~= fs);
    env
}

/// The value a default literal stands for (see `default_tree`).
pub fn default_value(literal: &str) -> (r: Value)
    ensures
        r@ == default_tree(literal@),
{
    match decode_json(literal) {
        Some(v) => v,
        None => Value::Str(string_of(&chars_of(literal))),
    }
}

fn defaults_value(fields: &Vec<FieldSpec>) -> (r: Value)
    ensures
        r@ == Tree::Object(defaults_of(fields@)),
{
    let mut out: Vec<(String, Value)> = Vec::new();
    assert(entries_of(out@) =~= Seq::empty());
    let mut i: usize = 0;
    assert(fields@.subrange(0, 0) =~= Seq::<FieldSpec>::empty());
    while i < fields.len()
        invariant
            i <= fields.len(),
            entries_of(out@) == defaults_of(fields@.subrange(0, i as int)),
        decreases fields.len() - i,
    {
        let f = &fields[i];
        assert(fields@.subrange(0, i + 1).drop_last() =~= fields@.subrange(0, i as int));
        assert(fields@.subrange(0, i + 1).last() == *f);
        if !f.skip && f.nested.is_none() {
            match &f.default {
                Some(d) => {
                    put_entry(&mut out, f.name.clone(), default_value(d.as_str()));
                },
                None => {},
            }
        }
        i = i + 1;
    }
    assert(fields@.subrange(0, fields.len() as int) =~= fields@);
    proof {
        lemma_object_view(out);
    }
    Value::Object(out)
}

fn cli_value(fields: &Vec<FieldSpec>, cli: &Vec<(String, String)>) -> (r: Value)
    ensures
        r@ == Tree::Object(cli_of(fields@, pairs_of(cli@))),
{
    let mut out: Vec<(String, Value)> = Vec::new();
    assert(entries_of(out@) =~= Seq::empty());
    let mut i: usize = 0;
    assert(fields@.subrange(0, 0) =~= Seq::<FieldSpec>::empty());
    while i < fields.len()
        invariant
            i <= fields.len(),
            entries_of(out@) == cli_of(fields@.subrange(0, i as int), pairs_of(cli@)),
        decreases fields.len() - i,
    {
        let f = &fields[i];
        assert(fields@.subrange(0, i + 1).drop_last() =~= fields@.subrange(0, i as int));
        assert(fields@.subrange(0, i + 1).last() == *f);
        if !f.skip && f.nested.is_none() {
            let key = field_cli_key_exec(f);
            match lookup_pair(cli, &key) {
                Some(v) => {
                    put_entry(&mut out, f.name.clone(), parse_env_value(v.as_str()));
                },
                None => {},
            }
        }
        i = i + 1;
    }
    assert(fields@.subrange(0, fields.len() as int) =~= fields@);
    proof {
        lemma_object_view(out);
    }
    Value::Object(out)
}

/// What the file trees hold for a nested field (see `child_files`).
pub fn child_files_exec(files: &Vec<Value>, name: &String) -> (r: Vec<Value>)
    ensures
        trees_of(r@) == child_files(trees_of(files@), name@),
{
    let ghost fs = trees_of(files@);
    let path = vec![name.clone()];
    assert(keys_of(path@) =~= seq![name@]);
    let mut out: Vec<Value> = Vec::new();
    let mut i: usize = 0;
    assert(fs.subrange(0, 0) =~= Seq::<Tree>::empty());
    assert(trees_of(out@) =~= Seq::<Tree>::empty());
    while i < files.len()
        invariant
            i <= files.len(),
            fs == trees_of(files@),
            keys_of(path@) == seq![name@],
            trees_of(out@) == child_files(fs.subrange(0, i as int), name@),
        decreases files.len() - i,
    {
        assert(fs.subrange(0, i + 1).drop_last() =~= fs.subrange(0, i as int));
        assert(fs.subrange(0, i + 1).last() == files[i as int]@);
        let ghost before = trees_of(out@);
        match files[i].get(&path) {
            Some(x) => {
                let c = x.duplicate();
                out.push(c);
                assert(trees_of(out@) =~= before.push(c@));
            },
            None => {},
        }
        i = i + 1;
    }
    assert(fs.subrange(0, files.len() as int) =~= fs);
    out
}

/// The tree of a type before its nested fields are resolved (see `own_tree`).
pub fn own_value(spec: &ConfigSpec, composed: &str, src: &Sources, files: &Vec<Value>) -> (r: Value)
    ensures
        r@ == own_tree(*spec, composed@, *src, trees_of(files@)),
{
    let mut trees: Vec<Value> = Vec::new();
    trees.push(defaults_value(&spec.fields));
    let ghost fs = trees_of(files@);
    let mut i: usize = 0;
    while i < files.len()
        invariant
            i <= files.len(),
            fs == trees_of(files@),
            trees_of(trees@) == seq![Tree::Object(defaults_of(spec.fields@))] + fs.subrange(0, i as int),
        decreases files.len() - i,
    {
        let ghost before = trees_of(trees@);
        trees.push(files[i].duplicate());
        assert(trees_of(trees@) =~= before.push(fs[i as int]));
        assert(fs.subrange(0, i + 1) =~= fs.subrange(0, i as int).push(fs[i as int]));
        i = i + 1;
    }
    assert(fs.subrange(0, files.len() as int) =~= fs);
    let env = source_for(spec, composed);
    let ghost before = trees_of(trees@);
    let e = env.collect(&src.vars);
    let ghost ev = e@;
    trees.push(e);
    let c = cli_value(&spec.fields, &src.cli);
    let ghost cv = c@;
    trees.push(c);
    assert(trees_of(trees@) =~= before.push(ev).push(cv));
    assert(trees_of(trees@) =~= layers(*spec, composed@, *src, fs));
    merge_all(trees, src.strategy)
}

/// The tree of a type resolved under `parent` with at most `depth` more
/// levels of nesting (see `resolved`).
pub fn resolve_within(spec: &ConfigSpec, parent: &str, src: &Sources, files: &Vec<Value>, depth: usize) -> (r: Option<
    Value,
>)
    ensures
        match resolved(*spec, parent@, *src, trees_of(files@), depth as nat) {
            Some(t) => r matches Some(v) && v@ == t,
            None => r is None,
        },
    decreases depth,
{
    let composed = compose_prefix(parent, spec.env_prefix.as_str(), "_");
    proof {
        reveal_strlit("_");
        assert("_"@ =~= seq!['_']);
    }
    let ghost tf = trees_of(files@);
    let mut cur = own_value(spec, composed.as_str(), src, files);
    let ghost own = cur@;
    let ghost fs = spec.fields@;
    let mut i: usize = 0;
    assert(fs.subrange(0, 0) =~= Seq::<FieldSpec>::empty());
    while i < spec.fields.len()
        invariant
            i <= spec.fields.len(),
            fs == spec.fields@,
            composed@ == composed_prefix(parent@, spec.env_prefix@, seq!['_']),
            tf == trees_of(files@),
            splice(own, fs.subrange(0, i as int), composed@, *src, tf, depth as nat) == Some(cur@),
            own == own_tree(*spec, composed@, *src, tf),
        decreases spec.fields.len() - i,
    {
        let f = &spec.fields[i];
        assert(fs.subrange(0, i + 1).drop_last() =~= fs.subrange(0, i as int));
        assert(fs.subrange(0, i + 1).last() == *f);
        match &f.nested {
            None => {},
            Some(child) => {
                if depth == 0 {
                    proof {
                        lemma_splice_fails(own, fs, i + 1, composed@, *src, tf, depth as nat);
                    }
                    return None;
                }
                let sub = child_files_exec(files, &f.name);
                match resolve_within(child, composed.as_str(), src, &sub, depth - 1) {
                    Some(c) => {
                        let path = vec![f.name.clone()];
                        assert(keys_of(path@) =~= seq![f.name@]);
                        cur.set(&path, c);
                    },
                    None => {
                        proof {
                            lemma_splice_fails(own, fs, i + 1, composed@, *src, tf, depth as nat);
                        }
                        return None;
                    },
                }
            },
        }
        i = i + 1;
    }
    assert(fs.subrange(0, fs.len() as int) =~= fs);
    Some(cur)
}

/// The tree of a type resolved under `parent_prefix`; nesting deeper than
/// `MAX_NESTING` levels is a configuration error.
pub fn resolve(spec: &ConfigSpec, parent_prefix: &str, src: &Sources) -> (r: Result<Value, ConfigError>)
    ensures
        match resolved(*spec, parent_prefix@, *src, trees_of(src.files@), MAX_NESTING as nat) {
            Some(t) => r matches Ok(v) && v@ == t,
            None => r matches Err(ConfigError::Configuration(_)),
        },
{
    match resolve_within(spec, parent_prefix, src, &src.files, MAX_NESTING) {
        Some(v) => Ok(v),
        None => Err(ConfigError::Configuration(string_of(&chars_of("nested types go too deep")))),
    }
}

/// The tree of a top-level type (see `resolve`).
pub fn load(spec: &ConfigSpec, src: &Sources) -> (r: Result<Value, ConfigError>)
    ensures
        match resolved(*spec, Seq::empty(), *src, trees_of(src.files@), MAX_NESTING as nat) {
            Some(t) => r matches Ok(v) && v@ == t,
            None => r matches Err(ConfigError::Configuration(_)),
        },
{
    proof {
        reveal_strlit("");
        assert(""@ =~= Seq::<char>::empty());
    }
    resolve(spec, "", src)
}

/// Loads a top-level type (see `load`), then hands the merged tree once to
/// `validate`: its rejection becomes a validation error and no tree is
/// returned.
pub fn load_validated<F: Fn(&Value) -> Result<(), String>>(spec: &ConfigSpec, src: &Sources, validate: F) -> (r:
    Result<Value, ConfigError>)
    requires
        forall|v: &Value| call_requires(validate, (v,)),
    ensures
        match resolved(*spec, Seq::empty(), *src, trees_of(src.files@), MAX_NESTING as nat) {
            None => r matches Err(ConfigError::Configuration(_)),
            Some(t) => match r {
                Ok(v) => v@ == t && call_ensures(validate, (&v,), Ok(())),
                Err(ConfigError::Validation(m)) => exists|v: Value|
                    v@ == t && call_ensures(validate, (&v,), Err(m)),
                Err(_) => false,
            },
        },
{
    match load(spec, src) {
        Ok(v) => {
            let res = validate(&v);
            assert(call_ensures(validate, (&v,), res));
            match res {
                Ok(u) => {
                    assert(res == Ok::<(), String>(u));
                    Ok(v)
                },
                Err(m) => {
                    assert(v@ == v@ && call_ensures(validate, (&v,), Err::<(), String>(m)));
                    Err(ConfigError::Validation(m))
                },
            }
        },
        Err(e) => Err(e),
    }
}

}
