use vstd::prelude::*;
use crate::coerce::{coerce, parse_env_value};
use crate::text::{
    append_chars, chars_of, has_prefix, join_chars, join_with, lower_chars, lower_of, pieces,
    split_chars, split_on, string_of, suffix_from, to_upper, upper_chars, upper_of,
};
use crate::tree::{
    Tree, Value, entries_of, entries_set, find_key, insert_nested, key_pos, keys_of,
    lemma_key_pos, lemma_object_view, put, put_entry,
};

verus! {

/// The kinds of configuration source.
#[derive(Debug, Clone, Copy, PartialEq, Eq, Structural)]
pub enum Source {
    Environment,
    File,
    CommandLine,
    Defaults,
    Overrides,
}

/// Environment variables as a configuration source: a prefix, a separator
/// between the parts of a name, case handling, fixed overrides, explicit
/// field-to-variable mappings, and whether names expand into nested objects.
#[derive(Debug)]
pub struct Environment {
    pub prefix: Option<String>,
    pub separator: String,
    pub case_sensitive: bool,
    /// Variable name to value; these win over the process environment.
    pub overrides: Vec<(String, String)>,
    /// Field name to the exact variable name it is read from.
    pub field_mappings: Vec<(String, String)>,
    pub nested: bool,
}

/// Pairs of strings, as character sequences.
pub open spec fn pairs_of(v: Seq<(String, String)>) -> Seq<(Seq<char>, Seq<char>)> {
    v.map_values(|p: (String, String)| (p.0@, p.1@))
}

/// The value of the first pair whose key is `k`.
pub open spec fn lookup(ps: Seq<(Seq<char>, Seq<char>)>, k: Seq<char>) -> Option<Seq<char>> {
    let p = key_pos(ps, k);
    if p >= 0 {
        Some(ps[p].1)
    } else {
        None
    }
}

/// Position of the first pair of `e` whose key is `k`.
pub fn find_pair(e: &Vec<(String, String)>, k: &String) -> (r: Option<usize>)
    ensures
        r == (if key_pos(pairs_of(e@), k@) >= 0 {
            Some(key_pos(pairs_of(e@), k@) as usize)
        } else {
            None::<usize>
        }),
        r matches Some(i) ==> i < e.len(),
{
    let ghost ev = pairs_of(e@);
    assert(ev.len() == e@.len());
    let mut i: usize = 0;
    while i < e.len()
        invariant
            i <= e.len(),
            ev == pairs_of(e@),
            forall|j: int| 0 <= j < i ==> ev[j].0 != k@,
        decreases e.len() - i,
    {
        proof {
            lemma_key_pos(ev, k@);
        }
        if e[i].0 == *k {
            assert(ev[i as int].0 == k@);
            let ghost q = key_pos(ev, k@);
            assert(q == i) by {
                if q < 0 {
                    assert(ev[i as int].0 != k@);
                } else if q < i {
                    assert(ev[q].0 == k@);
                } else if q > i {
                    assert(ev[i as int].0 != k@);
                }
            }
            return Some(i);
        }
        i = i + 1;
    }
    proof {
        lemma_key_pos(ev, k@);
    }
    let ghost q = key_pos(ev, k@);
    assert(q < 0) by {
        if q >= 0 {
            assert(ev[q].0 == k@);
        }
    }
    None
}

/// The value bound to `k` in `e` (see `lookup`).
pub fn lookup_pair<'a>(e: &'a Vec<(String, String)>, k: &String) -> (r: Option<&'a String>)
    ensures
        match r {
            Some(v) => lookup(pairs_of(e@), k@) == Some(v@),
            None => lookup(pairs_of(e@), k@) is None,
        },
{
    proof {
        lemma_key_pos(pairs_of(e@), k@);
    }
    match find_pair(e, k) {
        Some(i) => {
            assert(pairs_of(e@)[i as int] == (e@[i as int].0@, e@[i as int].1@));
            Some(&e[i].1)
        },
        None => None,
    }
}

/// Binds `k` to `v` in `e`, in place where `k` is present, appended where not.
pub fn put_pair(e: &mut Vec<(String, String)>, k: String, v: String)
    ensures
        pairs_of(final(e)@) == put(pairs_of(old(e)@), k@, v@),
{
    let ghost ev = pairs_of(e@);
    proof {
        lemma_key_pos(ev, k@);
    }
    match find_pair(e, &k) {
        Some(p) => {
            e.remove(p);
            e.insert(p, (k, v));
            assert(pairs_of(e@) =~= ev.update(p as int, (k@, v@)));
        },
        None => {
            e.push((k, v));
            assert(pairs_of(e@) =~= ev.push((k@, v@)));
        },
    }
}

/// What an environment source is configured with.
pub struct EnvModel {
    pub prefix: Option<Seq<char>>,
    pub separator: Seq<char>,
    pub case_sensitive: bool,
    pub overrides: Seq<(Seq<char>, Seq<char>)>,
    pub field_mappings: Seq<(Seq<char>, Seq<char>)>,
    pub nested: bool,
}

impl View for Environment {
    type V = EnvModel;

    open spec fn view(&self) -> EnvModel {
        EnvModel {
            prefix: match self.prefix {
                Some(p) => Some(p@),
                None => None,
            },
            separator: self.separator@,
            case_sensitive: self.case_sensitive,
            overrides: pairs_of(self.overrides@),
            field_mappings: pairs_of(self.field_mappings@),
            nested: self.nested,
        }
    }
}

impl EnvModel {
    /// The variable a field is read from: its explicit mapping when it has
    /// one, else the prefix and the field joined and case-normalized.
    pub open spec fn field_key(&self, key: Seq<char>) -> Seq<char> {
        match lookup(self.field_mappings, key) {
            Some(ext) => ext,
            None => self.env_key_for(seq![key]),
        }
    }

    /// `s` as names are compared: itself when case-sensitive, else upper-cased.
    pub open spec fn case_norm(&self, s: Seq<char>) -> Seq<char> {
        if self.case_sensitive {
            s
        } else {
            upper_of(s)
        }
    }

    /// The variable name for a path of field names: the prefix and the path
    /// joined by the separator, then case-normalized.
    pub open spec fn env_key_for(&self, path: Seq<Seq<char>>) -> Seq<char> {
        self.case_norm(join_with(self.prefix_parts() + path, self.separator))
    }

    /// The prefix as a path of one part, or an empty path.
    pub open spec fn prefix_parts(&self) -> Seq<Seq<char>> {
        match self.prefix {
            Some(p) => seq![p],
            None => Seq::empty(),
        }
    }

    /// What a variable name leaves after the prefix and one separator, both
    /// compared case-normalized (prefix and separator normalized together); `None` where it does not begin so.
    pub open spec fn after_head(&self, name: Seq<char>) -> Option<Seq<char>> {
        match self.prefix {
            Some(p) => {
                let head = self.case_norm(p + self.separator);
                let kc = self.case_norm(name);
                if head.is_prefix_of(kc) {
                    Some(kc.subrange(head.len() as int, kc.len() as int))
                } else {
                    None
                }
            },
            None => None,
        }
    }

    /// The key under which a variable enters the flat map, if it qualifies:
    /// with a prefix, what follows the prefix (lower-cased unless nested);
    /// without one, the whole name lower-cased.
    pub open spec fn scan_key(&self, name: Seq<char>) -> Option<Seq<char>> {
        match self.prefix {
            Some(p) => match self.after_head(name) {
                Some(rest) => Some(
                    if self.nested {
                        rest
                    } else {
                        lower_of(rest)
                    },
                ),
                None => None,
            },
            None => Some(lower_of(name)),
        }
    }

    /// The raw value for a variable name: an override first, then the environment.
    pub open spec fn raw_value(&self, vars: Seq<(Seq<char>, Seq<char>)>, key: Seq<char>) -> Option<
        Seq<char>,
    > {
        match lookup(self.overrides, key) {
            Some(o) => Some(o),
            None => lookup(vars, key),
        }
    }

    /// `acc` with each qualifying pair of `vars` bound under its scan key, in order.
    pub open spec fn scan_into(
        &self,
        acc: Seq<(Seq<char>, Seq<char>)>,
        vars: Seq<(Seq<char>, Seq<char>)>,
    ) -> Seq<(Seq<char>, Seq<char>)>
        decreases vars.len(),
    {
        if vars.len() == 0 {
            acc
        } else {
            let a = self.scan_into(acc, vars.drop_last());
            match self.scan_key(vars.last().0) {
                Some(k) => put(a, k, vars.last().1),
                None => a,
            }
        }
    }

    /// The flat map: the environment scanned, then the overrides over it.
    pub open spec fn flat_pairs(&self, vars: Seq<(Seq<char>, Seq<char>)>) -> Seq<(Seq<char>, Seq<char>)> {
        self.scan_into(self.scan_into(Seq::empty(), vars), self.overrides)
    }

    /// `acc` with value `v` placed for flat key `k`: split on the separator
    /// into a path of lower-cased parts in nested mode, as one key otherwise.
    pub open spec fn place(&self, acc: Seq<(Seq<char>, Tree)>, k: Seq<char>, v: Tree) -> Seq<(Seq<char>, Tree)> {
        if self.nested {
            entries_set(acc, lower_each(split_on(k, self.separator)), v)
        } else {
            put(acc, k, v)
        }
    }

    /// The entries made from a flat map, each value coerced.
    pub open spec fn place_all(&self, flat: Seq<(Seq<char>, Seq<char>)>) -> Seq<(Seq<char>, Tree)>
        decreases flat.len(),
    {
        if flat.len() == 0 {
            Seq::empty()
        } else {
            self.place(self.place_all(flat.drop_last()), flat.last().0, coerce(flat.last().1))
        }
    }

    /// The tree that the environment `vars` yields without field mappings.
    pub open spec fn flat_tree(&self, vars: Seq<(Seq<char>, Seq<char>)>) -> Tree {
        Tree::Object(self.place_all(self.flat_pairs(vars)))
    }

    /// `acc` with each mapped field bound to the coerced value of its variable,
    /// where an override or the environment has one.
    pub open spec fn mapped_into(
        &self,
        acc: Seq<(Seq<char>, Tree)>,
        maps: Seq<(Seq<char>, Seq<char>)>,
        vars: Seq<(Seq<char>, Seq<char>)>,
    ) -> Seq<(Seq<char>, Tree)>
        decreases maps.len(),
    {
        if maps.len() == 0 {
            acc
        } else {
            let a = self.mapped_into(acc, maps.drop_last(), vars);
            match self.raw_value(vars, maps.last().1) {
                Some(raw) => put(a, maps.last().0, coerce(raw)),
                None => a,
            }
        }
    }

    /// Some field mapping names exactly this variable.
    pub open spec fn is_mapped_name(&self, name: Seq<char>) -> bool {
        exists|i: int| 0 <= i < self.field_mappings.len() && #[trigger] self.field_mappings[i].1 == name
    }

    /// `acc` with each prefixed variable that no mapping names added under its
    /// lower-cased remainder, unless that key is already present.
    pub open spec fn extras_into(&self, acc: Seq<(Seq<char>, Tree)>, vars: Seq<(Seq<char>, Seq<char>)>) -> Seq<
        (Seq<char>, Tree),
    >
        decreases vars.len(),
    {
        if vars.len() == 0 {
            acc
        } else {
            let a = self.extras_into(acc, vars.drop_last());
            match self.after_head(vars.last().0) {
                Some(rest) => if !self.is_mapped_name(vars.last().0) && key_pos(a, lower_of(rest)) < 0 {
                    a.push((lower_of(rest), coerce(vars.last().1)))
                } else {
                    a
                },
                None => a,
            }
        }
    }

    /// The tree this source yields from the environment `vars`: mapped fields
    /// first and then the other prefixed variables when there are mappings,
    /// the flat (or nested) scan otherwise.
    pub open spec fn collect_tree(&self, vars: Seq<(Seq<char>, Seq<char>)>) -> Tree {
        if self.field_mappings.len() > 0 {
            Tree::Object(
                self.extras_into(self.mapped_into(Seq::empty(), self.field_mappings, vars), vars),
            )
        } else {
            self.flat_tree(vars)
        }
    }

    /// The variable name for a field of a named struct: the explicit name when
    /// given; else prefix, struct name and field name upper-cased and joined by
    /// `_`, trailing `_` removed; without a prefix, struct and field only.
    pub open spec fn struct_key(&self, struct_name: Seq<char>, field: Seq<char>, explicit: Option<Seq<char>>) -> Seq<char> {
        match explicit {
            Some(o) => o,
            None => match self.prefix {
                Some(p) => trim_trailing(
                    upper_of(p) + seq!['_'] + upper_of(struct_name) + seq!['_'] + upper_of(field) + seq!['_'],
                    '_',
                ),
                None => upper_of(struct_name) + seq!['_'] + upper_of(field),
            },
        }
    }

    /// `acc` with each field bound to the coerced value of its variable, where
    /// an override or the environment has one.
    pub open spec fn struct_into(
        &self,
        acc: Seq<(Seq<char>, Tree)>,
        struct_name: Seq<char>,
        fields: Seq<(Seq<char>, Option<Seq<char>>)>,
        vars: Seq<(Seq<char>, Seq<char>)>,
    ) -> Seq<(Seq<char>, Tree)>
        decreases fields.len(),
    {
        if fields.len() == 0 {
            acc
        } else {
            let a = self.struct_into(acc, struct_name, fields.drop_last(), vars);
            let f = fields.last();
            match self.raw_value(vars, self.struct_key(struct_name, f.0, f.1)) {
                Some(raw) => put(a, f.0, coerce(raw)),
                None => a,
            }
        }
    }
}

impl Default for Environment {
    fn default() -> (r: Self)
        ensures
            r@ == (EnvModel {
                prefix: None,
                separator: seq!['_'],
                case_sensitive: false,
                overrides: Seq::empty(),
                field_mappings: Seq::empty(),
                nested: false,
            }),
    {
        let sep = chars_of("_");
        proof {
            reveal_strlit("_");
        }
        assert(sep@ =~= seq!['_']);
        let r = Environment {
            prefix: None,
            separator: string_of(&sep),
            case_sensitive: false,
            overrides: Vec::new(),
            field_mappings: Vec::new(),
            nested: false,
        };
        assert(pairs_of(r.overrides@) =~= Seq::empty());
        assert(pairs_of(r.field_mappings@) =~= Seq::empty());
        r
    }
}

impl Environment {
    /// A source with no prefix, separator `_`, upper-cased names, no overrides
    /// or mappings, and flat keys.
    pub fn new() -> (r: Self)
        ensures
            r@ == (EnvModel {
                prefix: None,
                separator: seq!['_'],
                case_sensitive: false,
                overrides: Seq::empty(),
                field_mappings: Seq::empty(),
                nested: false,
            }),
    {
        Self::default()
    }

    /// Sets the prefix.
    pub fn with_prefix(self, prefix: &str) -> (r: Self)
        ensures
            r@ == (EnvModel { prefix: Some(prefix@), ..self@ }),
    {
        let p = string_of(&chars_of(prefix));
        Environment { prefix: Some(p), ..self }
    }

    /// Sets the separator between a prefix and a field, and between path parts.
    pub fn separator(self, sep: &str) -> (r: Self)
        ensures
            r@ == (EnvModel { separator: sep@, ..self@ }),
    {
        let s = string_of(&chars_of(sep));
        Environment { separator: s, ..self }
    }

    /// Sets whether names keep their case.
    pub fn case_sensitive(self, sensitive: bool) -> (r: Self)
        ensures
            r@ == (EnvModel { case_sensitive: sensitive, ..self@ }),
    {
        Environment { case_sensitive: sensitive, ..self }
    }

    /// Binds the variable name `key` to a fixed value that wins over the environment.
    pub fn override_with(self, key: &str, value: &str) -> (r: Self)
        ensures
            r@ == (EnvModel { overrides: put(self@.overrides, key@, value@), ..self@ }),
    {
        let mut s = self;
        put_pair(&mut s.overrides, string_of(&chars_of(key)), string_of(&chars_of(value)));
        s
    }

    /// Reads field `field_name` from exactly the variable `env_key`.
    pub fn with_field_mapping(self, field_name: &str, env_key: &str) -> (r: Self)
        ensures
            r@ == (EnvModel { field_mappings: put(self@.field_mappings, field_name@, env_key@), ..self@ }),
    {
        let mut s = self;
        put_pair(
            &mut s.field_mappings,
            string_of(&chars_of(field_name)),
            string_of(&chars_of(env_key)),
        );
        s
    }

    /// Sets whether separated names expand into nested objects.
    pub fn nested(self, nested: bool) -> (r: Self)
        ensures
            r@ == (EnvModel { nested: nested, ..self@ }),
    {
        Environment { nested, ..self }
    }

    /// The kind of this source.
    pub fn source_type(&self) -> (r: Source)
        ensures
            r == Source::Environment,
    {
        Source::Environment
    }

    fn norm(&self, s: &Vec<char>) -> (r: Vec<char>)
        ensures
            r@ == self@.case_norm(s@),
    {
        if self.case_sensitive {
            let r = suffix_from(s, 0);
            assert(r@ =~= s@);
            r
        } else {
            upper_chars(s)
        }
    }

    /// The variable name for a path of field names (see `env_key_for`).
    pub fn build_env_key(&self, path: &Vec<String>) -> (r: String)
        ensures
            r@ == self@.env_key_for(keys_of(path@)),
    {
        let mut parts: Vec<Vec<char>> = Vec::new();
        let ghost pre = self@.prefix_parts();
        match &self.prefix {
            Some(p) => {
                parts.push(chars_of(p.as_str()));
            },
            None => {},
        }
        assert(pieces(parts@) =~= pre);
        let mut i: usize = 0;
        while i < path.len()
            invariant
                i <= path.len(),
                pieces(parts@) == pre + keys_of(path@).subrange(0, i as int),
            decreases path.len() - i,
        {
            let ghost before = pieces(parts@);
            parts.push(chars_of(path[i].as_str()));
            assert(pieces(parts@) =~= before.push(path[i as int]@));
            assert(keys_of(path@).subrange(0, i + 1) =~= keys_of(path@).subrange(0, i as int).push(
                path[i as int]@,
            ));
            i = i + 1;
        }
        assert(keys_of(path@).subrange(0, path.len() as int) =~= keys_of(path@));
        let key = join_chars(&parts, &chars_of(self.separator.as_str()));
        string_of(&self.norm(&key))
    }

    fn field_key_exec(&self, key: &str) -> (r: String)
        ensures
            r@ == self@.field_key(key@),
    {
        let k = string_of(&chars_of(key));
        match lookup_pair(&self.field_mappings, &k) {
            Some(ext) => ext.clone(),
            None => {
                let path = vec![k];
                assert(keys_of(path@) =~= seq![key@]);
                self.build_env_key(&path)
            },
        }
    }

    /// The value of one field, read from its variable (see `field_key`): an
    /// override first, then the environment `vars` (name, value pairs).
    pub fn get_value(&self, key: &str, vars: &Vec<(String, String)>) -> (r: Option<Value>)
        ensures
            match self@.raw_value(pairs_of(vars@), self@.field_key(key@)) {
                Some(raw) => r matches Some(v) && v@ == coerce(raw),
                None => r is None,
            },
    {
        let env_key = self.field_key_exec(key);
        match lookup_pair(&self.overrides, &env_key) {
            Some(o) => Some(parse_env_value(o.as_str())),
            None => match lookup_pair(vars, &env_key) {
                Some(v) => Some(parse_env_value(v.as_str())),
                None => None,
            },
        }
    }

    /// Whether one field has a value, from an override or the environment.
    pub fn has_value(&self, key: &str, vars: &Vec<(String, String)>) -> (r: bool)
        ensures
            r == self@.raw_value(pairs_of(vars@), self@.field_key(key@)) is Some,
    {
        let env_key = self.field_key_exec(key);
        lookup_pair(&self.overrides, &env_key).is_some() || lookup_pair(vars, &env_key).is_some()
    }

    fn after_head_exec(&self, name: &String) -> (r: Option<Vec<char>>)
        ensures
            match r {
                Some(x) => self@.after_head(name@) == Some(x@),
                None => self@.after_head(name@) is None,
            },
    {
        match &self.prefix {
            Some(p) => {
                let mut ps = chars_of(p.as_str());
                append_chars(&mut ps, &chars_of(self.separator.as_str()));
                let head = self.norm(&ps);
                let kc = self.norm(&chars_of(name.as_str()));
                if has_prefix(&kc, &head) {
                    Some(suffix_from(&kc, head.len()))
                } else {
                    None
                }
            },
            None => None,
        }
    }

    fn scan_key_exec(&self, name: &String) -> (r: Option<String>)
        ensures
            match r {
                Some(k) => self@.scan_key(name@) == Some(k@),
                None => self@.scan_key(name@) is None,
            },
    {
        match &self.prefix {
            Some(_) => match self.after_head_exec(name) {
                Some(rest) => {
                    if self.nested {
                        Some(string_of(&rest))
                    } else {
                        Some(string_of(&lower_chars(&rest)))
                    }
                },
                None => None,
            },
            None => Some(string_of(&lower_chars(&chars_of(name.as_str())))),
        }
    }

    fn scan_into_exec(&self, acc: &mut Vec<(String, String)>, vars: &Vec<(String, String)>)
        ensures
            pairs_of(final(acc)@) == self@.scan_into(pairs_of(old(acc)@), pairs_of(vars@)),
    {
        let ghost a0 = pairs_of(acc@);
        let ghost vs = pairs_of(vars@);
        let mut i: usize = 0;
        assert(vs.subrange(0, 0) =~= Seq::<(Seq<char>, Seq<char>)>::empty());
        while i < vars.len()
            invariant
                i <= vars.len(),
                vs == pairs_of(vars@),
                pairs_of(acc@) == self@.scan_into(a0, vs.subrange(0, i as int)),
            decreases vars.len() - i,
        {
            assert(vs.subrange(0, i + 1).drop_last() =~= vs.subrange(0, i as int));
            assert(vs.subrange(0, i + 1).last() == (vars[i as int].0@, vars[i as int].1@));
            match self.scan_key_exec(&vars[i].0) {
                Some(k) => {
                    put_pair(acc, k, vars[i].1.clone());
                },
                None => {},
            }
            i = i + 1;
        }
        assert(vs.subrange(0, vars.len() as int) =~= vs);
    }

    /// The tree that the environment `vars` (name, value pairs) yields without
    /// field mappings (see `flat_tree`).
    pub fn collect_with_flat_keys(&self, vars: &Vec<(String, String)>) -> (r: Value)
        ensures
            r@ == self@.flat_tree(pairs_of(vars@)),
    {
        let mut flat: Vec<(String, String)> = Vec::new();
        assert(pairs_of(flat@) =~= Seq::empty());
        self.scan_into_exec(&mut flat, vars);
        self.scan_into_exec(&mut flat, &self.overrides);
        let ghost fl = pairs_of(flat@);
        let sep = chars_of(self.separator.as_str());
        let mut result: Vec<(String, Value)> = Vec::new();
        let mut i: usize = 0;
        assert(fl.subrange(0, 0) =~= Seq::<(Seq<char>, Seq<char>)>::empty());
        assert(entries_of(result@) =~= Seq::empty());
        while i < flat.len()
            invariant
                i <= flat.len(),
                fl == pairs_of(flat@),
                sep@ == self.separator@,
                entries_of(result@) == self@.place_all(fl.subrange(0, i as int)),
            decreases flat.len() - i,
        {
            assert(fl.subrange(0, i + 1).drop_last() =~= fl.subrange(0, i as int));
            assert(fl.subrange(0, i + 1).last() == (flat[i as int].0@, flat[i as int].1@));
            let v = parse_env_value(flat[i].1.as_str());
            if self.nested {
                let parts = split_chars(&chars_of(flat[i].0.as_str()), &sep);
                let path = lower_all(&parts);
                assert(keys_of(path@).subrange(0, path.len() as int) =~= keys_of(path@));
                insert_nested(&mut result, &path, 0, v);
            } else {
                put_entry(&mut result, flat[i].0.clone(), v);
            }
            i = i + 1;
        }
        assert(fl.subrange(0, flat.len() as int) =~= fl);
        proof {
            lemma_object_view(result);
        }
        Value::Object(result)
    }
}

impl Environment {
    fn raw_value_exec<'a>(&'a self, vars: &'a Vec<(String, String)>, key: &String) -> (r: Option<&'a String>)
        ensures
            match r {
                Some(v) => self@.raw_value(pairs_of(vars@), key@) == Some(v@),
                None => self@.raw_value(pairs_of(vars@), key@) is None,
            },
    {
        match lookup_pair(&self.overrides, key) {
            Some(o) => Some(o),
            None => lookup_pair(vars, key),
        }
    }

    fn is_mapped_exec(&self, name: &String) -> (r: bool)
        ensures
            r == self@.is_mapped_name(name@),
    {
        let mut i: usize = 0;
        while i < self.field_mappings.len()
            invariant
                i <= self.field_mappings.len(),
                forall|j: int| 0 <= j < i ==> self@.field_mappings[j].1 != name@,
            decreases self.field_mappings.len() - i,
        {
            assert(self@.field_mappings[i as int].1 == self.field_mappings[i as int].1@);
            if self.field_mappings[i].1 == *name {
                return true;
            }
            i = i + 1;
        }
        false
    }

    /// The tree that this source yields from the environment `vars` (name,
    /// value pairs), see `collect_tree`.
    pub fn collect(&self, vars: &Vec<(String, String)>) -> (r: Value)
        ensures
            r@ == self@.collect_tree(pairs_of(vars@)),
    {
        if self.field_mappings.len() == 0 {
            return self.collect_with_flat_keys(vars);
        }
        let ghost maps = self@.field_mappings;
        let ghost vs = pairs_of(vars@);
        let mut result: Vec<(String, Value)> = Vec::new();
        assert(entries_of(result@) =~= Seq::empty());
        assert(maps.subrange(0, 0) =~= Seq::<(Seq<char>, Seq<char>)>::empty());
        let mut i: usize = 0;
        while i < self.field_mappings.len()
            invariant
                i <= self.field_mappings.len(),
                maps == self@.field_mappings,
                vs == pairs_of(vars@),
                entries_of(result@) == self@.mapped_into(Seq::empty(), maps.subrange(0, i as int), vs),
            decreases self.field_mappings.len() - i,
        {
            assert(maps.subrange(0, i + 1).drop_last() =~= maps.subrange(0, i as int));
            assert(maps.subrange(0, i + 1).last() == (
                self.field_mappings[i as int].0@,
                self.field_mappings[i as int].1@,
            ));
            match self.raw_value_exec(vars, &self.field_mappings[i].1) {
                Some(raw) => {
                    let v = parse_env_value(raw.as_str());
                    put_entry(&mut result, self.field_mappings[i].0.clone(), v);
                },
                None => {},
            }
            i = i + 1;
        }
        assert(maps.subrange(0, maps.len() as int) =~= maps);
        let ghost base = entries_of(result@);
        let mut j: usize = 0;
        assert(vs.subrange(0, 0) =~= Seq::<(Seq<char>, Seq<char>)>::empty());
        while j < vars.len()
            invariant
                j <= vars.len(),
                vs == pairs_of(vars@),
                entries_of(result@) == self@.extras_into(base, vs.subrange(0, j as int)),
            decreases vars.len() - j,
        {
            assert(vs.subrange(0, j + 1).drop_last() =~= vs.subrange(0, j as int));
            assert(vs.subrange(0, j + 1).last() == (vars[j as int].0@, vars[j as int].1@));
            match self.after_head_exec(&vars[j].0) {
                Some(rest) => {
                    if !self.is_mapped_exec(&vars[j].0) {
                        let field = string_of(&lower_chars(&rest));
                        if find_key(&result, &field).is_none() {
                            let v = parse_env_value(vars[j].1.as_str());
                            let ghost before = entries_of(result@);
                            result.push((field, v));
                            assert(entries_of(result@) =~= before.push((field@, v@)));
                        }
                    }
                },
                None => {},
            }
            j = j + 1;
        }
        assert(vs.subrange(0, vars.len() as int) =~= vs);
        proof {
            lemma_object_view(result);
        }
        Value::Object(result)
    }
}

/// `s` without its trailing run of `c`.
pub open spec fn trim_trailing(s: Seq<char>, c: char) -> Seq<char>
    decreases s.len(),
{
    if s.len() > 0 && s.last() == c {
        trim_trailing(s.drop_last(), c)
    } else {
        s
    }
}

/// Field names with their optional explicit variable names, as character sequences.
pub open spec fn fields_of(v: Seq<(String, Option<String>)>) -> Seq<(Seq<char>, Option<Seq<char>>)> {
    v.map_values(
        |p: (String, Option<String>)|
            (
                p.0@,
                match p.1 {
                    Some(o) => Some(o@),
                    None => None,
                },
            ),
    )
}

fn trim_trailing_exec(s: &Vec<char>, c: char) -> (r: Vec<char>)
    ensures
        r@ == trim_trailing(s@, c),
{
    let mut k: usize = s.len();
    assert(s@.subrange(0, k as int) =~= s@);
    while k > 0 && s[k - 1] == c
        invariant
            k <= s.len(),
            trim_trailing(s@, c) == trim_trailing(s@.subrange(0, k as int), c),
        decreases k,
    {
        assert(s@.subrange(0, k as int).drop_last() =~= s@.subrange(0, k - 1));
        k = k - 1;
    }
    let mut r: Vec<char> = Vec::new();
    let mut i: usize = 0;
    while i < k
        invariant
            i <= k <= s.len(),
            r@ == s@.subrange(0, i as int),
        decreases k - i,
    {
        r.push(s[i]);
        assert(s@.subrange(0, i + 1) =~= s@.subrange(0, i as int).push(s@[i as int]));
        i = i + 1;
    }
    r
}

impl Environment {
    fn struct_key_exec(&self, struct_name: &str, field: &String, explicit: &Option<String>) -> (r: String)
        ensures
            r@ == self@.struct_key(
                struct_name@,
                field@,
                match explicit {
                    Some(o) => Some(o@),
                    None => None,
                },
            ),
    {
        match explicit {
            Some(o) => o.clone(),
            None => {
                let us = chars_of("_");
                proof {
                    reveal_strlit("_");
                }
                assert(us@ =~= seq!['_']);
                let s = chars_of(to_upper(struct_name).as_str());
                let f = chars_of(to_upper(field.as_str()).as_str());
                match &self.prefix {
                    Some(p) => {
                        let mut k = chars_of(to_upper(p.as_str()).as_str());
                        append_chars(&mut k, &us);
                        append_chars(&mut k, &s);
                        append_chars(&mut k, &us);
                        append_chars(&mut k, &f);
                        append_chars(&mut k, &us);
                        string_of(&trim_trailing_exec(&k, '_'))
                    },
                    None => {
                        let mut k = s;
                        append_chars(&mut k, &us);
                        append_chars(&mut k, &f);
                        string_of(&k)
                    },
                }
            },
        }
    }

    /// The values of the listed fields of struct `struct_name`, each read from
    /// its variable (see `struct_key`): an override first, then `vars`.
    pub fn collect_for_struct(
        &self,
        struct_name: &str,
        fields: &Vec<(String, Option<String>)>,
        vars: &Vec<(String, String)>,
    ) -> (r: Vec<(String, Value)>)
        ensures
            entries_of(r@) == self@.struct_into(Seq::empty(), struct_name@, fields_of(fields@), pairs_of(vars@)),
    {
        let ghost fs = fields_of(fields@);
        let mut result: Vec<(String, Value)> = Vec::new();
        assert(entries_of(result@) =~= Seq::empty());
        assert(fs.subrange(0, 0) =~= Seq::<(Seq<char>, Option<Seq<char>>)>::empty());
        let mut i: usize = 0;
        while i < fields.len()
            invariant
                i <= fields.len(),
                fs == fields_of(fields@),
                entries_of(result@) == self@.struct_into(Seq::empty(), struct_name@, fs.subrange(0, i as int), pairs_of(vars@)),
            decreases fields.len() - i,
        {
            assert(fs.subrange(0, i + 1).drop_last() =~= fs.subrange(0, i as int));
            assert(fs.subrange(0, i + 1).last() == fs[i as int]);
            let key = self.struct_key_exec(struct_name, &fields[i].0, &fields[i].1);
            match self.raw_value_exec(vars, &key) {
                Some(raw) => {
                    let v = parse_env_value(raw.as_str());
                    put_entry(&mut result, fields[i].0.clone(), v);
                },
                None => {},
            }
            i = i + 1;
        }
        assert(fs.subrange(0, fields.len() as int) =~= fs);
        result
    }
}

/// Each part lower-cased.
pub open spec fn lower_each(parts: Seq<Seq<char>>) -> Seq<Seq<char>> {
    parts.map_values(|p: Seq<char>| lower_of(p))
}

/// Lower-cases each part into a path of keys.
fn lower_all(parts: &Vec<Vec<char>>) -> (r: Vec<String>)
    ensures
        keys_of(r@) == lower_each(pieces(parts@)),
{
    let mut r: Vec<String> = Vec::new();
    let mut i: usize = 0;
    while i < parts.len()
        invariant
            i <= parts.len(),
            keys_of(r@) == lower_each(pieces(parts@)).subrange(0, i as int),
        decreases parts.len() - i,
    {
        let ghost before = keys_of(r@);
        r.push(string_of(&lower_chars(&parts[i])));
        assert(keys_of(r@) =~= before.push(lower_of(parts[i as int]@)));
        assert(lower_each(pieces(parts@)).subrange(0, i + 1) =~= lower_each(pieces(parts@)).subrange(
            0,
            i as int,
        ).push(lower_of(parts[i as int]@)));
        i = i + 1;
    }
    assert(lower_each(pieces(parts@)).subrange(0, parts.len() as int) =~= lower_each(pieces(parts@)));
    r
}

}
