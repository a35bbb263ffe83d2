//! The package-build recipe: a record of scalars, ordered string lists and
//! a build script, with its line-oriented textual form.
//!
//! The text is `key=value` lines. Blank lines are skipped; a non-blank
//! line without `=` is a fatal syntax error naming its line index; unknown
//! keys are ignored. List values are concatenated bracket groups such as
//! `[a][b]`; an empty group list and an absent key both read back as the
//! empty list. The `build` key opens a block: every following line is
//! script text until a line beginning with `}`, which closes the block
//! without being stored.

use vstd::prelude::*;

verus! {

use vstd::string::{StringExecFns, StringSliceAdditionalSpecFns};
use crate::text::{first_char_idx, trim_char, split_once_char, trim_trailing, starts_with_char, str_eq};
use vstd::utf8::{encode_utf8_valid_utf8, encode_utf8_decode_utf8};

broadcast use vstd::seq::group_seq_axioms;

/// Why recipe text was rejected.
#[derive(Debug, Clone, Copy, PartialEq, Eq, Structural)]
pub enum RecipeError {
    /// The line at this index (counted from zero) is not blank, not inside
    /// a build block, and has no `=`.
    InvalidSyntax(usize),
}

/// The mathematical shape of a recipe.
pub ghost struct Recipe {
    pub name: Seq<char>,
    pub description: Seq<char>,
    pub version: Seq<char>,
    pub real_version: Seq<char>,
    pub source: Seq<char>,
    pub dependencies: Seq<Seq<char>>,
    pub build_dependencies: Seq<Seq<char>>,
    pub cross_dependencies: Seq<Seq<char>>,
    pub extra_sources: Seq<Seq<char>>,
    pub build_script: Seq<Seq<char>>,
}

/// A package build recipe.
pub struct PackageBuild {
    pub name: String,
    pub description: String,
    pub version: String,
    pub real_version: String,
    pub source: String,
    pub dependencies: Vec<String>,
    pub build_dependencies: Vec<String>,
    pub cross_dependencies: Vec<String>,
    pub extra_sources: Vec<String>,
    pub build_script: Vec<String>,
}

impl PackageBuild {
    /// The mathematical shape of this recipe.
    pub open spec fn model(self) -> Recipe {
        Recipe {
            name: self.name@,
            description: self.description@,
            version: self.version@,
            real_version: self.real_version@,
            source: self.source@,
            dependencies: self.dependencies.deep_view(),
            build_dependencies: self.build_dependencies.deep_view(),
            cross_dependencies: self.cross_dependencies.deep_view(),
            extra_sources: self.extra_sources.deep_view(),
            build_script: self.build_script.deep_view(),
        }
    }

    /// A fresh, empty recipe, with the real version defaulting to zero.
    pub fn new() -> (r: PackageBuild)
        ensures
            r.model() == (Recipe {
                name: Seq::empty(),
                description: Seq::empty(),
                version: Seq::empty(),
                real_version: "0"@,
                source: Seq::empty(),
                dependencies: Seq::empty(),
                build_dependencies: Seq::empty(),
                cross_dependencies: Seq::empty(),
                extra_sources: Seq::empty(),
                build_script: Seq::empty(),
            }),
    {
        let r = PackageBuild {
            name: String::new(),
            description: String::new(),
            version: String::new(),
            real_version: String::from_str("0"),
            source: String::new(),
            dependencies: Vec::new(),
            build_dependencies: Vec::new(),
            cross_dependencies: Vec::new(),
            extra_sources: Vec::new(),
            build_script: Vec::new(),
        };
        proof {
            assert(r.dependencies.deep_view() =~= Seq::<Seq<char>>::empty());
            assert(r.build_dependencies.deep_view() =~= Seq::<Seq<char>>::empty());
            assert(r.cross_dependencies.deep_view() =~= Seq::<Seq<char>>::empty());
            assert(r.extra_sources.deep_view() =~= Seq::<Seq<char>>::empty());
            assert(r.build_script.deep_view() =~= Seq::<Seq<char>>::empty());
        }
        r
    }
}

/// What a recipe document on the wire means: all ten fields present, the
/// scalars as strings and the lists as arrays of strings.
pub open spec fn recipe_of_json(v: crate::json::Jv) -> Option<Recipe> {
    match v {
        crate::json::Jv::Obj(ms) => {
            let name = crate::envelope::str_field(ms, "name"@);
            let description = crate::envelope::str_field(ms, "description"@);
            let version = crate::envelope::str_field(ms, "version"@);
            let real_version = crate::envelope::str_field(ms, "real_version"@);
            let source = crate::envelope::str_field(ms, "source"@);
            let dependencies = list_field(ms, "dependencies"@);
            let build_dependencies = list_field(ms, "build_dependencies"@);
            let cross_dependencies = list_field(ms, "cross_dependencies"@);
            let extra_sources = list_field(ms, "extra_sources"@);
            let build_script = list_field(ms, "build_script"@);
            if name is Some && description is Some && version is Some && real_version is Some
                && source is Some && dependencies is Some && build_dependencies is Some
                && cross_dependencies is Some && extra_sources is Some && build_script is Some {
                Some(
                    Recipe {
                        name: name->Some_0,
                        description: description->Some_0,
                        version: version->Some_0,
                        real_version: real_version->Some_0,
                        source: source->Some_0,
                        dependencies: dependencies->Some_0,
                        build_dependencies: build_dependencies->Some_0,
                        cross_dependencies: cross_dependencies->Some_0,
                        extra_sources: extra_sources->Some_0,
                        build_script: build_script->Some_0,
                    },
                )
            } else {
                None
            }
        },
        _ => None,
    }
}

/// The string list under `key`, when the object has one.
pub open spec fn list_field(
    ms: Seq<(Seq<char>, crate::json::Jv)>,
    key: Seq<char>,
) -> Option<Seq<Seq<char>>> {
    match crate::json::obj_get(ms, key) {
        Some(f) => crate::envelope::str_list_of(f),
        None => None,
    }
}

/// The document a recipe serializes to on the wire, fields in order.
pub open spec fn recipe_jv(r: Recipe) -> crate::json::Jv {
    crate::json::Jv::Obj(
        seq![
            ("name"@, crate::json::Jv::Str(r.name)),
            ("description"@, crate::json::Jv::Str(r.description)),
            ("version"@, crate::json::Jv::Str(r.version)),
            ("real_version"@, crate::json::Jv::Str(r.real_version)),
            ("source"@, crate::json::Jv::Str(r.source)),
            ("dependencies"@, crate::envelope::str_arr_jv(r.dependencies)),
            ("build_dependencies"@, crate::envelope::str_arr_jv(r.build_dependencies)),
            ("cross_dependencies"@, crate::envelope::str_arr_jv(r.cross_dependencies)),
            ("extra_sources"@, crate::envelope::str_arr_jv(r.extra_sources)),
            ("build_script"@, crate::envelope::str_arr_jv(r.build_script)),
        ],
    )
}

impl PackageBuild {
    /// Reads a recipe from a wire document.
    pub fn from_json(v: &crate::json::JsonValue) -> (r: Option<PackageBuild>)
        ensures
            match recipe_of_json(v.deep()) {
                Some(rec) => r matches Some(pb) && pb.model() == rec,
                None => r is None,
            },
    {
        let name = match crate::envelope::get_str_field(v, "name") {
            Some(s) => s.clone(),
            None => {
                return None;
            },
        };
        let description = match crate::envelope::get_str_field(v, "description") {
            Some(s) => s.clone(),
            None => {
                return None;
            },
        };
        let version = match crate::envelope::get_str_field(v, "version") {
            Some(s) => s.clone(),
            None => {
                return None;
            },
        };
        let real_version = match crate::envelope::get_str_field(v, "real_version") {
            Some(s) => s.clone(),
            None => {
                return None;
            },
        };
        let source = match crate::envelope::get_str_field(v, "source") {
            Some(s) => s.clone(),
            None => {
                return None;
            },
        };
        let dependencies = match get_list_field(v, "dependencies") {
            Some(l) => l,
            None => {
                return None;
            },
        };
        let build_dependencies = match get_list_field(v, "build_dependencies") {
            Some(l) => l,
            None => {
                return None;
            },
        };
        let cross_dependencies = match get_list_field(v, "cross_dependencies") {
            Some(l) => l,
            None => {
                return None;
            },
        };
        let extra_sources = match get_list_field(v, "extra_sources") {
            Some(l) => l,
            None => {
                return None;
            },
        };
        let build_script = match get_list_field(v, "build_script") {
            Some(l) => l,
            None => {
                return None;
            },
        };
        let pb = PackageBuild {
            name,
            description,
            version,
            real_version,
            source,
            dependencies,
            build_dependencies,
            cross_dependencies,
            extra_sources,
            build_script,
        };
        proof {
            let rec = recipe_of_json(v.deep())->Some_0;
            assert(pb.model().dependencies =~= rec.dependencies);
            assert(pb.model().build_dependencies =~= rec.build_dependencies);
            assert(pb.model().cross_dependencies =~= rec.cross_dependencies);
            assert(pb.model().extra_sources =~= rec.extra_sources);
            assert(pb.model().build_script =~= rec.build_script);
        }
        Some(pb)
    }

    /// This recipe as a wire document.
    pub fn to_json(self) -> (r: crate::json::JsonValue)
        ensures
            r.deep() == recipe_jv(self.model()),
    {
        let ghost me = self;
        let deps = crate::envelope::string_array(&self.dependencies);
        let bdeps = crate::envelope::string_array(&self.build_dependencies);
        let cdeps = crate::envelope::string_array(&self.cross_dependencies);
        let xsrc = crate::envelope::string_array(&self.extra_sources);
        let script = crate::envelope::string_array(&self.build_script);
        let mut fields: Vec<(String, crate::json::JsonValue)> = Vec::new();
        fields.push((String::from_str("name"), crate::json::JsonValue::Str(self.name)));
        fields.push(
            (String::from_str("description"), crate::json::JsonValue::Str(self.description)),
        );
        fields.push((String::from_str("version"), crate::json::JsonValue::Str(self.version)));
        fields.push(
            (String::from_str("real_version"), crate::json::JsonValue::Str(self.real_version)),
        );
        fields.push((String::from_str("source"), crate::json::JsonValue::Str(self.source)));
        fields.push((String::from_str("dependencies"), deps));
        fields.push((String::from_str("build_dependencies"), bdeps));
        fields.push((String::from_str("cross_dependencies"), cdeps));
        fields.push((String::from_str("extra_sources"), xsrc));
        fields.push((String::from_str("build_script"), script));
        let obj = crate::json::JsonValue::Obj(fields);
        proof {
            crate::envelope::lemma_deep_view_pointwise(me.dependencies);
            crate::envelope::lemma_deep_view_pointwise(me.build_dependencies);
            crate::envelope::lemma_deep_view_pointwise(me.cross_dependencies);
            crate::envelope::lemma_deep_view_pointwise(me.extra_sources);
            crate::envelope::lemma_deep_view_pointwise(me.build_script);
            assert(obj.deep() is Obj);
            assert(obj.deep()->Obj_0.len() == 10);
            assert forall|t: int| 0 <= t < 10 implies #[trigger] obj.deep()->Obj_0[t] == (
                fields@[t].0@,
                fields@[t].1.deep(),
            ) by {}
            assert(fields@[5].1.deep()->Arr_0 =~= crate::envelope::str_arr_jv(
                me.model().dependencies,
            )->Arr_0);
            assert(fields@[6].1.deep()->Arr_0 =~= crate::envelope::str_arr_jv(
                me.model().build_dependencies,
            )->Arr_0);
            assert(fields@[7].1.deep()->Arr_0 =~= crate::envelope::str_arr_jv(
                me.model().cross_dependencies,
            )->Arr_0);
            assert(fields@[8].1.deep()->Arr_0 =~= crate::envelope::str_arr_jv(
                me.model().extra_sources,
            )->Arr_0);
            assert(fields@[9].1.deep()->Arr_0 =~= crate::envelope::str_arr_jv(
                me.model().build_script,
            )->Arr_0);
            assert(obj.deep()->Obj_0 =~= recipe_jv(me.model())->Obj_0);
            assert(obj.deep() == recipe_jv(me.model()));
        }
        obj
    }
}

/// Reads a string-list field out of an object document.
fn get_list_field(v: &crate::json::JsonValue, key: &str) -> (r: Option<Vec<String>>)
    ensures
        match v.deep() {
            crate::json::Jv::Obj(ms) => match list_field(ms, key@) {
                Some(ss) => r matches Some(out) && out@.len() == ss.len() && (forall|i: int|
                    0 <= i < ss.len() ==> (#[trigger] out@[i])@ == ss[i]),
                None => r is None,
            },
            _ => r is None,
        },
{
    match v.get(key) {
        Some(f) => crate::envelope::string_list(f),
        None => None,
    }
}

/// A `key=value` line.
pub open spec fn kv(key: Seq<char>, value: Seq<char>) -> Seq<char> {
    key + seq!['='] + value
}

/// A list value: one bracket group per item.
pub open spec fn brackets(items: Seq<Seq<char>>) -> Seq<char>
    decreases items.len(),
{
    if items.len() == 0 {
        Seq::empty()
    } else {
        seq!['['] + items[0] + seq![']'] + brackets(items.drop_first())
    }
}

/// Lines, each prefixed by a newline.
pub open spec fn nl_join_pre(lines: Seq<Seq<char>>) -> Seq<char>
    decreases lines.len(),
{
    if lines.len() == 0 {
        Seq::empty()
    } else {
        seq!['\n'] + lines[0] + nl_join_pre(lines.drop_first())
    }
}

/// The build block: opener, one line per script line, closing brace.
pub open spec fn build_block(script: Seq<Seq<char>>) -> Seq<char> {
    "build={"@ + nl_join_pre(script) + seq!['\n', '}']
}

/// The serialized lines of a recipe, in order. The name and the two
/// versions always appear; an empty description, source or list is
/// omitted entirely; the build block is always the last element, one
/// multi-line string.
pub open spec fn recipe_lines(r: Recipe) -> Seq<Seq<char>> {
    seq![kv("name"@, r.name), kv("version"@, r.version)] + (if r.description.len() > 0 {
        seq![kv("description"@, r.description)]
    } else {
        Seq::<Seq<char>>::empty()
    }) + seq![kv("real_version"@, r.real_version)] + (if r.source.len() > 0 {
        seq![kv("source"@, r.source)]
    } else {
        Seq::<Seq<char>>::empty()
    }) + (if r.dependencies.len() > 0 {
        seq![kv("dependencies"@, brackets(r.dependencies))]
    } else {
        Seq::<Seq<char>>::empty()
    }) + (if r.build_dependencies.len() > 0 {
        seq![kv("builddeps"@, brackets(r.build_dependencies))]
    } else {
        Seq::<Seq<char>>::empty()
    }) + (if r.cross_dependencies.len() > 0 {
        seq![kv("crossdeps"@, brackets(r.cross_dependencies))]
    } else {
        Seq::<Seq<char>>::empty()
    }) + (if r.extra_sources.len() > 0 {
        seq![kv("extra_sources"@, brackets(r.extra_sources))]
    } else {
        Seq::<Seq<char>>::empty()
    }) + seq![build_block(r.build_script)]
}

proof fn lemma_brackets_snoc(items: Seq<Seq<char>>, x: Seq<char>)
    ensures
        brackets(items.push(x)) == brackets(items) + seq!['['] + x + seq![']'],
    decreases items.len(),
{
    if items.len() == 0 {
        let p = items.push(x);
        assert(p.len() == 1);
        assert(p[0] == x);
        assert(p.drop_first() =~= Seq::<Seq<char>>::empty());
        assert(brackets(p) == seq!['['] + p[0] + seq![']'] + brackets(p.drop_first()));
        assert(brackets(p.drop_first()) =~= Seq::<char>::empty());
        assert(brackets(items) =~= Seq::<char>::empty());
        assert(brackets(p) =~= brackets(items) + seq!['['] + x + seq![']']);
    } else {
        assert(items.push(x).drop_first() =~= items.drop_first().push(x));
        assert(items.push(x)[0] == items[0]);
        lemma_brackets_snoc(items.drop_first(), x);
        assert(brackets(items.push(x)) =~= brackets(items) + seq!['['] + x + seq![']']);
    }
}

proof fn lemma_nl_join_snoc(lines: Seq<Seq<char>>, x: Seq<char>)
    ensures
        nl_join_pre(lines.push(x)) == nl_join_pre(lines) + seq!['\n'] + x,
    decreases lines.len(),
{
    if lines.len() == 0 {
        let p = lines.push(x);
        assert(p.len() == 1);
        assert(p[0] == x);
        assert(p.drop_first() =~= Seq::<Seq<char>>::empty());
        assert(nl_join_pre(p) == seq!['\n'] + p[0] + nl_join_pre(p.drop_first()));
        assert(nl_join_pre(p.drop_first()) =~= Seq::<char>::empty());
        assert(nl_join_pre(lines) =~= Seq::<char>::empty());
        assert(nl_join_pre(p) =~= nl_join_pre(lines) + seq!['\n'] + x);
    } else {
        assert(lines.push(x).drop_first() =~= lines.drop_first().push(x));
        assert(lines.push(x)[0] == lines[0]);
        lemma_nl_join_snoc(lines.drop_first(), x);
        assert(nl_join_pre(lines.push(x)) =~= nl_join_pre(lines) + seq!['\n'] + x);
    }
}

/// Builds a `key=value` line.
fn kv_line(key: &str, value: &str) -> (r: String)
    ensures
        r@ == kv(key@, value@),
{
    let mut s = String::from_str(key);
    s.append("=");
    s.append(value);
    proof {
        reveal_strlit("=");
        assert("="@ =~= seq!['=']);
        assert(s@ =~= kv(key@, value@));
    }
    s
}

/// Builds a bracket-group list value.
fn bracket_value(items: &Vec<String>) -> (r: String)
    ensures
        r@ == brackets(items.deep_view()),
{
    let mut s = String::new();
    let mut i: usize = 0;
    proof {
        assert(items.deep_view().take(0) =~= Seq::<Seq<char>>::empty());
        assert(s@ =~= brackets(items.deep_view().take(0)));
    }
    while i < items.len()
        invariant
            i <= items@.len(),
            items.deep_view().len() == items@.len(),
            s@ == brackets(items.deep_view().take(i as int)),
        decreases items@.len() - i,
    {
        s.append("[");
        s.append(items[i].as_str());
        s.append("]");
        proof {
            reveal_strlit("[");
            reveal_strlit("]");
            assert("["@ =~= seq!['[']);
            assert("]"@ =~= seq![']']);
            assert(items.deep_view().take(i + 1) =~= items.deep_view().take(i as int).push(
                items.deep_view()[i as int],
            ));
            lemma_brackets_snoc(items.deep_view().take(i as int), items.deep_view()[i as int]);
            assert(items.deep_view()[i as int] == items@[i as int]@);
            assert(s@ =~= brackets(items.deep_view().take(i + 1)));
        }
        i = i + 1;
    }
    proof {
        assert(items.deep_view().take(items@.len() as int) =~= items.deep_view());
    }
    s
}

impl PackageBuild {
    /// The serialized lines of this recipe: the name and versions always,
    /// empty optional fields left out, the build block last.
    #[verifier::rlimit(100)]
    pub fn to_vec(&self) -> (r: Vec<String>)
        ensures
            r.deep_view() == recipe_lines(self.model()),
    {
        let mut lines: Vec<String> = Vec::new();
        lines.push(kv_line("name", self.name.as_str()));
        lines.push(kv_line("version", self.version.as_str()));
        if !self.description.as_str().is_empty() {
            lines.push(kv_line("description", self.description.as_str()));
        }
        lines.push(kv_line("real_version", self.real_version.as_str()));
        if !self.source.as_str().is_empty() {
            lines.push(kv_line("source", self.source.as_str()));
        }
        if self.dependencies.len() > 0 {
            lines.push(kv_line("dependencies", bracket_value(&self.dependencies).as_str()));
        }
        if self.build_dependencies.len() > 0 {
            lines.push(kv_line("builddeps", bracket_value(&self.build_dependencies).as_str()));
        }
        if self.cross_dependencies.len() > 0 {
            lines.push(kv_line("crossdeps", bracket_value(&self.cross_dependencies).as_str()));
        }
        if self.extra_sources.len() > 0 {
            lines.push(kv_line("extra_sources", bracket_value(&self.extra_sources).as_str()));
        }
        lines.push(build_block_string(&self.build_script));
        proof {
            assert(lines.deep_view() =~= recipe_lines(self.model()));
        }
        lines
    }
}


/// A found character lies in range, matches, and is the first of its kind.
pub proof fn lemma_first_char_range(s: Seq<char>, c: char)
    ensures
        match first_char_idx(s, c) {
            Some(k) => 0 <= k < s.len() && s[k] == c && forall|j: int| 0 <= j < k ==> s[j] != c,
            None => forall|j: int| 0 <= j < s.len() ==> s[j] != c,
        },
    decreases s.len(),
{
    if s.len() > 0 && s[0] != c {
        lemma_first_char_range(s.drop_first(), c);
        let rest = s.drop_first();
        match first_char_idx(rest, c) {
            Some(k2) => {
                assert(s[k2 + 1] == rest[k2]);
                assert forall|j: int| 0 <= j < k2 + 1 implies s[j] != c by {
                    if j > 0 {
                        assert(rest[j - 1] == s[j]);
                    }
                }
            },
            None => {
                assert forall|j: int| 0 <= j < s.len() implies s[j] != c by {
                    if j > 0 {
                        assert(rest[j - 1] == s[j]);
                    }
                }
            },
        }
    }
}

/// A line kept only when it has content.
pub open spec fn keep(p: Seq<char>) -> Seq<Seq<char>> {
    if p.len() == 0 {
        Seq::empty()
    } else {
        seq![p]
    }
}

/// The items of a bracket-group value: split on `[`, strip the trailing
/// `]` of each part, drop empty parts. `[]` and the empty value both give
/// no items.
pub open spec fn bracket_items(v: Seq<char>) -> Seq<Seq<char>>
    decreases v.len(),
    via bracket_items_dec
{
    match first_char_idx(v, '[') {
        None => keep(trim_char(v, ']')),
        Some(k) => keep(trim_char(v.take(k), ']')) + bracket_items(v.skip(k + 1)),
    }
}

#[via_fn]
proof fn bracket_items_dec(v: Seq<char>) {
    lemma_first_char_range(v, '[');
}

/// Reads a bracket-group value.
pub fn parse_brackets(v: &str) -> (r: Vec<String>)
    ensures
        r.deep_view() == bracket_items(v@),
{
    let mut out: Vec<String> = Vec::new();
    let mut rest = String::from_str(v);
    proof {
        assert(out.deep_view() =~= Seq::<Seq<char>>::empty());
        assert(out.deep_view() + bracket_items(rest@) =~= bracket_items(v@));
    }
    loop
        invariant
            bracket_items(v@) == out.deep_view() + bracket_items(rest@),
        decreases rest@.len(),
    {
        let ghost pre = out.deep_view();
        let ghost cur = rest@;
        proof {
            lemma_first_char_range(cur, '[');
        }
        match split_once_char(rest.as_str(), 0x5B) {
            Some((head, tail)) => {
                let piece = trim_trailing(head.as_str(), 0x5D);
                if !piece.as_str().is_empty() {
                    out.push(piece);
                    proof {
                        assert(out.deep_view() =~= pre.push(
                            trim_char(cur.take(first_char_idx(cur, '[')->Some_0), ']'),
                        ));
                        assert(pre + bracket_items(cur) =~= out.deep_view() + bracket_items(
                            cur.skip(first_char_idx(cur, '[')->Some_0 + 1),
                        ));
                    }
                } else {
                    proof {
                        assert(keep(trim_char(cur.take(first_char_idx(cur, '[')->Some_0), ']'))
                            =~= Seq::<Seq<char>>::empty());
                        assert(pre + bracket_items(cur) =~= out.deep_view() + bracket_items(
                            cur.skip(first_char_idx(cur, '[')->Some_0 + 1),
                        ));
                    }
                }
                rest = tail;
            },
            None => {
                let piece = trim_trailing(rest.as_str(), 0x5D);
                if !piece.as_str().is_empty() {
                    out.push(piece);
                    proof {
                        assert(out.deep_view() =~= pre.push(trim_char(cur, ']')));
                        assert(bracket_items(cur) =~= keep(trim_char(cur, ']')));
                        assert(pre + bracket_items(cur) =~= out.deep_view());
                    }
                } else {
                    proof {
                        assert(bracket_items(cur) =~= Seq::<Seq<char>>::empty());
                        assert(pre + bracket_items(cur) =~= pre);
                    }
                }
                return out;
            },
        }
    }
}

/// A line shorn of one trailing carriage return, as line splitting leaves
/// it.
pub open spec fn line_trim_cr(l: Seq<char>) -> Seq<char> {
    if l.len() > 0 && l.last() == '\r' {
        l.drop_last()
    } else {
        l
    }
}

/// The lines of a text: split at newlines, one trailing carriage return
/// removed per line, and no final empty line for text ending in a newline.
pub open spec fn lines_of(s: Seq<char>) -> Seq<Seq<char>>
    decreases s.len(),
    via lines_of_dec
{
    if s.len() == 0 {
        Seq::empty()
    } else {
        match first_char_idx(s, '\n') {
            None => seq![line_trim_cr(s)],
            Some(k) => seq![line_trim_cr(s.take(k))] + lines_of(s.skip(k + 1)),
        }
    }
}

#[via_fn]
proof fn lines_of_dec(s: Seq<char>) {
    lemma_first_char_range(s, '\n');
}

/// Removes one trailing carriage return, if present.
fn strip_one_cr(s: String) -> (r: String)
    ensures
        r@ == line_trim_cr(s@),
{
    let bs: &[u8] = s.as_str().as_bytes();
    let n = bs.len();
    if n == 0 {
        proof {
            assert(vstd::utf8::encode_utf8(s@).len() == 0);
            if s@.len() > 0 {
                crate::text::lemma_ascii_last(s@);
            }
        }
        return s;
    }
    proof {
        assert(s@.len() > 0) by {
            if s@.len() == 0 {
                assert(vstd::utf8::encode_utf8(s@) =~= Seq::<u8>::empty());
            }
        }
        crate::text::lemma_ascii_last(s@);
        crate::text::lemma_byte_char(0x0D);
        if bs@.last() == 0x0D {
            crate::text::lemma_ascii_byte_inj(s@.last(), (0x0D as char));
        } else {
            if s@.last() == (0x0D as char) {
                assert(vstd::utf8::encode_utf8(s@).last() == 0x0D);
            }
        }
    }
    if bs[n - 1] == 0x0D {
        let mut out: Vec<u8> = Vec::new();
        let mut i: usize = 0;
        while i < n - 1
            invariant
                0 <= i <= n - 1,
                n == bs@.len(),
                out@ =~= bs@.take(i as int),
            decreases n - 1 - i,
        {
            out.push(bs[i]);
            proof {
                assert(bs@.take(i + 1) =~= bs@.take(i as int).push(bs@[i as int]));
            }
            i = i + 1;
        }
        proof {
            assert(out@ =~= vstd::utf8::encode_utf8(s@).drop_last());
            assert(out@ =~= vstd::utf8::encode_utf8(s@.drop_last()));
            encode_utf8_valid_utf8(s@.drop_last());
            encode_utf8_decode_utf8(s@.drop_last());
        }
        match crate::text::string_from_utf8(out) {
            Some(t) => t,
            None => String::new(),
        }
    } else {
        s
    }
}

/// Splits a text into its lines.
pub fn split_text_lines(s: &str) -> (r: Vec<String>)
    ensures
        r.deep_view() == lines_of(s@),
{
    let mut out: Vec<String> = Vec::new();
    let mut rest = String::from_str(s);
    proof {
        assert(out.deep_view() =~= Seq::<Seq<char>>::empty());
        assert(out.deep_view() + lines_of(rest@) =~= lines_of(s@));
    }
    loop
        invariant
            lines_of(s@) == out.deep_view() + lines_of(rest@),
        decreases rest@.len(),
    {
        let ghost pre = out.deep_view();
        let ghost cur = rest@;
        proof {
            lemma_first_char_range(cur, '\n');
        }
        if rest.as_str().is_empty() {
            proof {
                assert(lines_of(cur) =~= Seq::<Seq<char>>::empty());
                assert(pre + lines_of(cur) =~= pre);
            }
            return out;
        }
        match split_once_char(rest.as_str(), 0x0A) {
            Some((head, tail)) => {
                let line = strip_one_cr(head);
                out.push(line);
                proof {
                    let k = first_char_idx(cur, '\n')->Some_0;
                    assert(out.deep_view() =~= pre.push(line_trim_cr(cur.take(k))));
                    assert(lines_of(cur) == seq![line_trim_cr(cur.take(k))] + lines_of(
                        cur.skip(k + 1),
                    ));
                    assert(pre + lines_of(cur) =~= out.deep_view() + lines_of(cur.skip(k + 1)));
                }
                rest = tail;
            },
            None => {
                let line = strip_one_cr(rest);
                out.push(line);
                proof {
                    assert(lines_of(cur) =~= seq![line_trim_cr(cur)]);
                    assert(out.deep_view() =~= pre.push(line_trim_cr(cur)));
                    assert(pre + lines_of(cur) =~= out.deep_view());
                }
                return out;
            },
        }
    }
}

/// How one line changes the record being read. `None` is the fatal syntax
/// error; otherwise the new record and whether a build block is open.
pub open spec fn rp_line(acc: Recipe, build: bool, line: Seq<char>) -> Option<(Recipe, bool)> {
    if build {
        if line.len() > 0 && line[0] == '}' {
            Some((acc, false))
        } else {
            Some((Recipe { build_script: acc.build_script.push(line), ..acc }, true))
        }
    } else if line.len() == 0 {
        Some((acc, false))
    } else {
        match first_char_idx(line, '=') {
            None => None,
            Some(k) => {
                let key = line.take(k);
                let value = line.skip(k + 1);
                if key == "name"@ {
                    Some((Recipe { name: value, ..acc }, false))
                } else if key == "version"@ {
                    Some((Recipe { version: value, ..acc }, false))
                } else if key == "real_version"@ {
                    Some((Recipe { real_version: value, ..acc }, false))
                } else if key == "description"@ {
                    Some((Recipe { description: value, ..acc }, false))
                } else if key == "source"@ {
                    Some((Recipe { source: value, ..acc }, false))
                } else if key == "extra_sources"@ {
                    Some((Recipe { extra_sources: bracket_items(value), ..acc }, false))
                } else if key == "dependencies"@ {
                    Some((Recipe { dependencies: bracket_items(value), ..acc }, false))
                } else if key == "builddeps"@ {
                    Some((Recipe { build_dependencies: bracket_items(value), ..acc }, false))
                } else if key == "crossdeps"@ {
                    Some((Recipe { cross_dependencies: bracket_items(value), ..acc }, false))
                } else if key == "build"@ {
                    Some((acc, true))
                } else {
                    Some((acc, false))
                }
            },
        }
    }
}

/// The fresh record parsing starts from: everything empty.
pub open spec fn empty_recipe() -> Recipe {
    Recipe {
        name: Seq::empty(),
        description: Seq::empty(),
        version: Seq::empty(),
        real_version: Seq::empty(),
        source: Seq::empty(),
        dependencies: Seq::empty(),
        build_dependencies: Seq::empty(),
        cross_dependencies: Seq::empty(),
        extra_sources: Seq::empty(),
        build_script: Seq::empty(),
    }
}

/// Folds the lines from index `i` on into the record; the error carries
/// the index of the first bad line.
pub open spec fn rp(lines: Seq<Seq<char>>, i: int, acc: Recipe, build: bool) -> Result<
    Recipe,
    int,
>
    decreases lines.len() - i,
{
    if i < 0 || i >= lines.len() {
        Ok(acc)
    } else {
        match rp_line(acc, build, lines[i]) {
            Some((a, b)) => rp(lines, i + 1, a, b),
            None => Err(i),
        }
    }
}

/// What parsing recipe text yields: the record its lines build, or the
/// index of the first malformed line. No partial record survives an error.
pub open spec fn recipe_parse(text: Seq<char>) -> Result<Recipe, int> {
    rp(lines_of(text), 0, empty_recipe(), false)
}

impl PackageBuild {
    /// Reads a recipe from its text.
    pub fn from_str(text: &str) -> (r: Result<PackageBuild, RecipeError>)
        ensures
            match recipe_parse(text@) {
                Ok(rec) => r matches Ok(pb) && pb.model() == rec,
                Err(i) => r matches Err(RecipeError::InvalidSyntax(j)) && j as int == i,
            },
    {
        let lines = split_text_lines(text);
        let ghost all = lines.deep_view();
        let mut pb = PackageBuild::new();
        pb.real_version = String::new();
        let mut build = false;
        let mut i: usize = 0;
        proof {
            assert(pb.model() =~= empty_recipe());
            assert(pb.model().build_script =~= empty_recipe().build_script);
        }
        while i < lines.len()
            invariant
                0 <= i <= lines@.len(),
                all == lines.deep_view(),
                all.len() == lines@.len(),
                recipe_parse(text@) == rp(all, i as int, pb.model(), build),
            decreases lines@.len() - i,
        {
            let ghost acc = pb.model();
            let line = &lines[i];
            proof {
                assert(all[i as int] == line@);
            }
            if build {
                if starts_with_char(line.as_str(), 0x7D) {
                    build = false;
                } else {
                    pb.build_script.push(line.clone());
                    proof {
                        assert(pb.model().build_script =~= acc.build_script.push(line@));
                        assert(pb.model() == (Recipe {
                            build_script: acc.build_script.push(line@),
                            ..acc
                        }));
                    }
                }
            } else if line.as_str().is_empty() {
            } else {
                match split_once_char(line.as_str(), 0x3D) {
                    None => {
                        proof {
                            assert(rp_line(acc, build, all[i as int]) is None);
                        }
                        return Err(RecipeError::InvalidSyntax(i));
                    },
                    Some((key, value)) => {
                        let ghost k = first_char_idx(line@, '=')->Some_0;
                        if str_eq(key.as_str(), "name") {
                            pb.name = value;
                        } else if str_eq(key.as_str(), "version") {
                            pb.version = value;
                        } else if str_eq(key.as_str(), "real_version") {
                            pb.real_version = value;
                        } else if str_eq(key.as_str(), "description") {
                            pb.description = value;
                        } else if str_eq(key.as_str(), "source") {
                            pb.source = value;
                        } else if str_eq(key.as_str(), "extra_sources") {
                            pb.extra_sources = parse_brackets(value.as_str());
                        } else if str_eq(key.as_str(), "dependencies") {
                            pb.dependencies = parse_brackets(value.as_str());
                        } else if str_eq(key.as_str(), "builddeps") {
                            pb.build_dependencies = parse_brackets(value.as_str());
                        } else if str_eq(key.as_str(), "crossdeps") {
                            pb.cross_dependencies = parse_brackets(value.as_str());
                        } else if str_eq(key.as_str(), "build") {
                            build = true;
                        }
                    },
                }
            }
            i = i + 1;
        }
        proof {
            assert(rp(all, lines@.len() as int, pb.model(), build) == Ok::<Recipe, int>(
                pb.model(),
            ));
        }
        Ok(pb)
    }
}

proof fn lemma_first_char_at(s: Seq<char>, i: int, c: char)
    requires
        0 <= i < s.len(),
        s[i] == c,
        forall|j: int| 0 <= j < i ==> s[j] != c,
    ensures
        first_char_idx(s, c) == Some(i),
    decreases s.len(),
{
    if i > 0 {
        lemma_first_char_at(s.drop_first(), i - 1, c);
    }
}

proof fn lemma_first_char_none(s: Seq<char>, c: char)
    requires
        forall|j: int| 0 <= j < s.len() ==> s[j] != c,
    ensures
        first_char_idx(s, c) is None,
    decreases s.len(),
{
    if s.len() > 0 {
        lemma_first_char_none(s.drop_first(), c);
    }
}

/// Text free of newlines and carriage returns: it survives line splitting.
pub open spec fn clean_text(s: Seq<char>) -> bool {
    forall|i: int| 0 <= i < s.len() ==> #[trigger] s[i] != '\n' && s[i] != '\r'
}

/// A list item that survives the bracket encoding: clean, non-empty, and
/// free of brackets.
pub open spec fn clean_item(s: Seq<char>) -> bool {
    clean_text(s) && s.len() > 0 && forall|i: int|
        0 <= i < s.len() ==> #[trigger] s[i] != '[' && s[i] != ']'
}

/// Every item clean.
pub open spec fn clean_items(items: Seq<Seq<char>>) -> bool {
    forall|i: int| 0 <= i < items.len() ==> clean_item(#[trigger] items[i])
}

/// A script line that survives the block encoding: clean and not starting
/// with the closing brace.
pub open spec fn clean_script(lines: Seq<Seq<char>>) -> bool {
    forall|i: int|
        0 <= i < lines.len() ==> clean_text(#[trigger] lines[i]) && (lines[i].len() == 0
            || lines[i][0] != '}')
}

/// A record whose serialized form reads back unchanged.
pub open spec fn round_trip_ready(r: Recipe) -> bool {
    &&& clean_text(r.name)
    &&& clean_text(r.description)
    &&& clean_text(r.version)
    &&& clean_text(r.real_version)
    &&& clean_text(r.source)
    &&& clean_items(r.dependencies)
    &&& clean_items(r.build_dependencies)
    &&& clean_items(r.cross_dependencies)
    &&& clean_items(r.extra_sources)
    &&& clean_script(r.build_script)
}

proof fn lemma_first_char_shift(a: Seq<char>, b: Seq<char>, c: char)
    requires
        forall|i: int| 0 <= i < a.len() ==> a[i] != c,
    ensures
        match first_char_idx(b, c) {
            Some(i) => first_char_idx(a + b, c) == Some(a.len() + i),
            None => first_char_idx(a + b, c) is None,
        },
    decreases a.len(),
{
    if a.len() == 0 {
        assert(a + b =~= b);
    } else {
        assert((a + b).drop_first() =~= a.drop_first() + b);
        assert((a + b)[0] == a[0]);
        lemma_first_char_shift(a.drop_first(), b, c);
    }
}

/// Bracket encodings of clean items hold neither newlines nor returns.
proof fn lemma_brackets_clean(items: Seq<Seq<char>>)
    requires
        clean_items(items),
    ensures
        clean_text(brackets(items)),
    decreases items.len(),
{
    if items.len() > 0 {
        assert(clean_item(items[0]));
        lemma_brackets_clean(items.drop_first());
        assert forall|i: int| 0 <= i < brackets(items).len() implies #[trigger] brackets(items)[i]
            != '\n' && brackets(items)[i] != '\r' by {
            let w = brackets(items);
            let head = seq!['['] + items[0] + seq![']'];
            assert(w == head + brackets(items.drop_first()));
            if i < head.len() {
                assert(w[i] == head[i]);
                if 1 <= i < 1 + items[0].len() {
                    assert(head[i] == items[0][i - 1]);
                }
            } else {
                assert(w[i] == brackets(items.drop_first())[i - head.len()]);
            }
        }
    }
}

/// Splitting one line off the front of a text.
proof fn lemma_lines_concat(a: Seq<char>, b: Seq<char>)
    requires
        clean_text(a),
    ensures
        lines_of(a + seq!['\n'] + b) == seq![a] + lines_of(b),
{
    let w = a + seq!['\n'] + b;
    assert(w[a.len() as int] == '\n');
    assert(forall|j: int| 0 <= j < a.len() ==> w[j] == a[j] && #[trigger] w[j] != '\n');
    lemma_first_char_at(w, a.len() as int, '\n');
    assert(w.take(a.len() as int) =~= a);
    assert(w.skip(a.len() as int + 1) =~= b);
    assert(w.len() > 0);
    assert(line_trim_cr(a) == a) by {
        if a.len() > 0 {
            assert(a.last() != '\r');
        }
    }
    assert(lines_of(w) =~= seq![a] + lines_of(b));
}

/// The build block's text splits into its opener, the script lines, and
/// the closing brace.
proof fn lemma_block_lines(first: Seq<char>, script: Seq<Seq<char>>)
    requires
        clean_text(first),
        clean_script(script),
    ensures
        lines_of(first + nl_join_pre(script) + seq!['\n', '}']) == seq![first] + script + seq![
            seq!['}'],
        ],
    decreases script.len(),
{
    reveal_strlit("}");
    if script.len() == 0 {
        assert(nl_join_pre(script) =~= Seq::<char>::empty());
        let w = first + nl_join_pre(script) + seq!['\n', '}'];
        assert(w =~= first + seq!['\n'] + seq!['}']);
        lemma_lines_concat(first, seq!['}']);
        assert(lines_of(seq!['}']) =~= seq![seq!['}']]) by {
            lemma_first_char_none(seq!['}'], '\n');
            assert(line_trim_cr(seq!['}']) == seq!['}']);
        }
        assert(lines_of(w) =~= seq![first] + script + seq![seq!['}']]);
    } else {
        let s0 = script[0];
        let rest = script.drop_first();
        assert(clean_text(s0));
        assert(clean_script(rest)) by {
            assert(forall|i: int|
                0 <= i < rest.len() ==> #[trigger] rest[i] == script[i + 1]);
        }
        let w = first + nl_join_pre(script) + seq!['\n', '}'];
        let inner = s0 + nl_join_pre(rest) + seq!['\n', '}'];
        assert(w =~= first + seq!['\n'] + inner);
        lemma_lines_concat(first, inner);
        lemma_block_lines(s0, rest);
        assert(lines_of(w) =~= seq![first] + (seq![s0] + rest + seq![seq!['}']]));
        assert(seq![first] + (seq![s0] + rest + seq![seq!['}']]) =~= seq![first] + script + seq![
            seq!['}'],
        ]);
    }
}

/// Reading back a bracket encoding recovers the items.
proof fn lemma_brackets_round_trip(items: Seq<Seq<char>>)
    requires
        clean_items(items),
    ensures
        bracket_items(brackets(items)) == items,
    decreases items.len(),
{
    if items.len() == 0 {
        assert(brackets(items) =~= Seq::<char>::empty());
        lemma_first_char_none(Seq::<char>::empty(), '[');
        assert(trim_char(Seq::<char>::empty(), ']') =~= Seq::<char>::empty());
        assert(bracket_items(brackets(items)) =~= items);
    } else {
        let it0 = items[0];
        let rest = items.drop_first();
        assert(clean_item(it0));
        assert(clean_items(rest)) by {
            assert(forall|i: int|
                0 <= i < rest.len() ==> #[trigger] rest[i] == items[i + 1]);
        }
        let w = brackets(items);
        assert(w == seq!['['] + it0 + seq![']'] + brackets(rest));
        assert(w[0] == '[');
        lemma_first_char_at(w, 0, '[');
        assert(w.take(0) =~= Seq::<char>::empty());
        assert(trim_char(Seq::<char>::empty(), ']') =~= Seq::<char>::empty());
        assert(keep(trim_char(w.take(0), ']')) =~= Seq::<Seq<char>>::empty());
        let tail = w.skip(1);
        assert(tail =~= it0 + seq![']'] + brackets(rest));
        // within the tail, the next '[' starts the next group, if any
        if rest.len() == 0 {
            assert(brackets(rest) =~= Seq::<char>::empty());
            assert(tail =~= it0 + seq![']']);
            lemma_first_char_none(tail, '[');
            assert(trim_char(tail, ']') =~= it0) by {
                assert(tail.last() == ']');
                assert(tail.drop_last() =~= it0);
                assert(trim_char(tail, ']') == trim_char(it0, ']'));
                if it0.len() > 0 {
                    assert(it0.last() != ']');
                }
            }
            assert(bracket_items(tail) =~= seq![it0]);
            assert(bracket_items(w) =~= seq![it0]);
            assert(items =~= seq![it0]);
        } else {
            assert(brackets(rest).len() > 0);
            assert(brackets(rest)[0] == '[');
            let a = it0 + seq![']'];
            assert(tail =~= a + brackets(rest));
            assert(forall|j: int| 0 <= j < a.len() ==> #[trigger] a[j] != '[');
            lemma_first_char_at(brackets(rest), 0, '[');
            lemma_first_char_shift(a, brackets(rest), '[');
            assert(first_char_idx(tail, '[') == Some(a.len() as int));
            assert(tail.take(a.len() as int) =~= a);
            assert(trim_char(a, ']') =~= it0) by {
                assert(a.last() == ']');
                assert(a.drop_last() =~= it0);
                assert(trim_char(a, ']') == trim_char(it0, ']'));
                if it0.len() > 0 {
                    assert(it0.last() != ']');
                }
            }
            assert(tail.skip(a.len() as int + 1) =~= brackets(rest).skip(1));
            lemma_brackets_round_trip(rest);
            // the recursive parse of the remaining groups
            assert(bracket_items(brackets(rest)) == keep(
                trim_char(brackets(rest).take(0), ']'),
            ) + bracket_items(brackets(rest).skip(1))) by {
                lemma_first_char_at(brackets(rest), 0, '[');
            }
            assert(brackets(rest).take(0) =~= Seq::<char>::empty());
            assert(trim_char(Seq::<char>::empty(), ']') =~= Seq::<char>::empty());
            assert(bracket_items(brackets(rest).skip(1)) == bracket_items(brackets(rest)));
            assert(bracket_items(tail) =~= seq![it0] + bracket_items(brackets(rest)));
            assert(bracket_items(w) =~= seq![it0] + rest);
            assert(seq![it0] + rest =~= items);
        }
    }
}

/// A `key=value` line splits back into its key and value when the key has
/// no `=` of its own.
proof fn lemma_kv_split(key: Seq<char>, value: Seq<char>)
    requires
        forall|j: int| 0 <= j < key.len() ==> #[trigger] key[j] != '=',
    ensures
        first_char_idx(kv(key, value), '=') == Some(key.len() as int),
        kv(key, value).take(key.len() as int) == key,
        kv(key, value).skip(key.len() as int + 1) == value,
        kv(key, value).len() == key.len() + 1 + value.len(),
{
    let w = kv(key, value);
    assert(w[key.len() as int] == '=');
    assert(forall|j: int| 0 <= j < key.len() ==> w[j] == key[j] && #[trigger] w[j] != '=');
    lemma_first_char_at(w, key.len() as int, '=');
    assert(w.take(key.len() as int) =~= key);
    assert(w.skip(key.len() as int + 1) =~= value);
}

/// Reading the script lines of an open build block appends them in order
/// and the closing brace line ends the block.
proof fn lemma_rp_script(lines: Seq<Seq<char>>, i: int, acc: Recipe, script: Seq<Seq<char>>)
    requires
        0 <= i,
        i + script.len() + 1 <= lines.len(),
        clean_script(script),
        forall|t: int| 0 <= t < script.len() ==> lines[i + t] == script[t],
        lines[i + script.len()] == seq!['}'],
    ensures
        rp(lines, i, acc, true) == rp(
            lines,
            i + script.len() + 1,
            Recipe { build_script: acc.build_script + script, ..acc },
            false,
        ),
    decreases script.len(),
{
    if script.len() == 0 {
        assert(lines[i] == seq!['}']);
        assert(rp_line(acc, true, lines[i]) == Some((acc, false)));
        assert(acc.build_script + script =~= acc.build_script);
        assert((Recipe { build_script: acc.build_script + script, ..acc }) == acc);
    } else {
        let s0 = script[0];
        assert(lines[i] == s0);
        assert(clean_text(s0) && (s0.len() == 0 || s0[0] != '}'));
        assert(rp_line(acc, true, s0) == Some(
            (Recipe { build_script: acc.build_script.push(s0), ..acc }, true),
        ));
        let acc2 = Recipe { build_script: acc.build_script.push(s0), ..acc };
        let rest = script.drop_first();
        assert(clean_script(rest)) by {
            assert(forall|t: int|
                0 <= t < rest.len() ==> #[trigger] rest[t] == script[t + 1]);
        }
        assert(forall|t: int| 0 <= t < rest.len() ==> lines[i + 1 + t] == #[trigger] rest[t]);
        lemma_rp_script(lines, i + 1, acc2, rest);
        assert(acc2.build_script + rest =~= acc.build_script + script);
        assert((Recipe { build_script: acc2.build_script + rest, ..acc2 }) == (Recipe {
            build_script: acc.build_script + script,
            ..acc
        }));
    }
}

/// Joining single clean lines and splitting again gives them back, with
/// the last element free to hold further newlines of its own.
proof fn lemma_lines_join(ls: Seq<Seq<char>>)
    requires
        ls.len() >= 1,
        forall|i: int| 0 <= i < ls.len() - 1 ==> clean_text(#[trigger] ls[i]),
    ensures
        lines_of(join_nl(ls)) == ls.drop_last() + lines_of(ls.last()),
    decreases ls.len(),
{
    if ls.len() == 1 {
        assert(ls.drop_first() =~= Seq::<Seq<char>>::empty());
        assert(nl_join_pre(ls.drop_first()) =~= Seq::<char>::empty());
        assert(join_nl(ls) =~= ls[0]);
        assert(ls.drop_last() =~= Seq::<Seq<char>>::empty());
        assert(ls.last() == ls[0]);
        assert(ls.drop_last() + lines_of(ls.last()) =~= lines_of(ls[0]));
    } else {
        let rest = ls.drop_first();
        assert(rest.len() >= 1);
        assert(rest[0] == ls[1]);
        assert(rest.drop_first() =~= ls.skip(2));
        assert(nl_join_pre(rest) == seq!['\n'] + rest[0] + nl_join_pre(rest.drop_first()));
        assert(join_nl(ls) =~= ls[0] + seq!['\n'] + join_nl(rest));
        assert(clean_text(ls[0]));
        lemma_lines_concat(ls[0], join_nl(rest));
        assert(forall|i: int| 0 <= i < rest.len() - 1 ==> clean_text(#[trigger] rest[i]));
        lemma_lines_join(rest);
        assert(ls.last() == rest.last());
        assert(seq![ls[0]] + rest.drop_last() =~= ls.drop_last());
        assert(lines_of(join_nl(ls)) =~= ls.drop_last() + lines_of(ls.last()));
    }
}

/// Each line of a recipe before the build block is one of the nine key
/// lines, and clean when the record is round-trip ready.
proof fn lemma_recipe_kv_clean(r: Recipe, i: int)
    requires
        round_trip_ready(r),
        0 <= i < recipe_lines(r).len() - 1,
    ensures
        clean_text(recipe_lines(r)[i]),
{
    lemma_keys_clean();
    lemma_brackets_clean(r.dependencies);
    lemma_brackets_clean(r.build_dependencies);
    lemma_brackets_clean(r.cross_dependencies);
    lemma_brackets_clean(r.extra_sources);
    lemma_kv_clean_one("name"@, r.name);
    lemma_kv_clean_one("version"@, r.version);
    lemma_kv_clean_one("description"@, r.description);
    lemma_kv_clean_one("real_version"@, r.real_version);
    lemma_kv_clean_one("source"@, r.source);
    lemma_kv_clean_one("dependencies"@, brackets(r.dependencies));
    lemma_kv_clean_one("builddeps"@, brackets(r.build_dependencies));
    lemma_kv_clean_one("crossdeps"@, brackets(r.cross_dependencies));
    lemma_kv_clean_one("extra_sources"@, brackets(r.extra_sources));
    let ls = recipe_lines(r);
    assert(clean_text(ls[i])) by {
        assert(ls[i] == kv("name"@, r.name) || ls[i] == kv("version"@, r.version) || ls[i] == kv(
            "description"@,
            r.description,
        ) || ls[i] == kv("real_version"@, r.real_version) || ls[i] == kv("source"@, r.source)
            || ls[i] == kv("dependencies"@, brackets(r.dependencies)) || ls[i] == kv(
            "builddeps"@,
            brackets(r.build_dependencies),
        ) || ls[i] == kv("crossdeps"@, brackets(r.cross_dependencies)) || ls[i] == kv(
            "extra_sources"@,
            brackets(r.extra_sources),
        ));
    }
}

/// The serialized text of a recipe splits into its key lines, the block
/// opener, the script lines, and the closing brace.
#[verifier::rlimit(100)]
proof fn lemma_recipe_text_lines(r: Recipe)
    requires
        round_trip_ready(r),
    ensures
        ({
            let ls = recipe_lines(r);
            lines_of(join_nl(ls)) == ls.drop_last() + seq!["build={"@] + r.build_script + seq![
                seq!['}'],
            ]
        }),
{
    reveal_strlit("build={");
    let ls = recipe_lines(r);
    assert(clean_text("build={"@)) by {
        assert(forall|j: int|
            0 <= j < "build={"@.len() ==> #[trigger] "build={"@[j] != '\n' && "build={"@[j]
                != '\r');
    }
    let block = build_block(r.build_script);
    assert(ls.len() >= 3);
    assert(ls.last() == block);
    lemma_block_lines("build={"@, r.build_script);
    assert(lines_of(block) == seq!["build={"@] + r.build_script + seq![seq!['}']]);
    assert forall|i: int| 0 <= i < ls.len() - 1 implies clean_text(#[trigger] ls[i]) by {
        lemma_recipe_kv_clean(r, i);
    }
    lemma_lines_join(ls);
    assert(lines_of(join_nl(ls)) =~= ls.drop_last() + seq!["build={"@] + r.build_script + seq![
        seq!['}'],
    ]);
}

/// Serializing a recipe and reading the text back yields the same record:
/// scalar for scalar, list for list in order, script line for script
/// line. This holds for every record whose scalars are free of line
/// breaks, whose list items are non-empty and free of brackets and line
/// breaks, and whose script lines are free of line breaks and do not
/// begin with a closing brace.
#[verifier::rlimit(100)]
pub proof fn lemma_recipe_round_trip(r: Recipe)
    requires
        round_trip_ready(r),
    ensures
        recipe_parse(join_nl(recipe_lines(r))) == Ok::<Recipe, int>(r),
{
    reveal_strlit("name");
    reveal_strlit("version");
    reveal_strlit("description");
    reveal_strlit("real_version");
    reveal_strlit("source");
    reveal_strlit("dependencies");
    reveal_strlit("builddeps");
    reveal_strlit("crossdeps");
    reveal_strlit("extra_sources");
    reveal_strlit("build");
    reveal_strlit("build={");
    let ls = recipe_lines(r);
    let text = join_nl(ls);
    lemma_brackets_clean(r.dependencies);
    lemma_brackets_clean(r.build_dependencies);
    lemma_brackets_clean(r.cross_dependencies);
    lemma_brackets_clean(r.extra_sources);
    lemma_recipe_text_lines(r);
    let l_name = kv("name"@, r.name);
    let l_version = kv("version"@, r.version);
    let l_desc = kv("description"@, r.description);
    let l_rv = kv("real_version"@, r.real_version);
    let l_src = kv("source"@, r.source);
    let l_dep = kv("dependencies"@, brackets(r.dependencies));
    let l_bdep = kv("builddeps"@, brackets(r.build_dependencies));
    let l_cdep = kv("crossdeps"@, brackets(r.cross_dependencies));
    let l_xsrc = kv("extra_sources"@, brackets(r.extra_sources));
    let block = build_block(r.build_script);
    let d = if r.description.len() > 0 { 1int } else { 0int };
    let s = if r.source.len() > 0 { 1int } else { 0int };
    let p1 = if r.dependencies.len() > 0 { 1int } else { 0int };
    let p2 = if r.build_dependencies.len() > 0 { 1int } else { 0int };
    let p3 = if r.cross_dependencies.len() > 0 { 1int } else { 0int };
    let p4 = if r.extra_sources.len() > 0 { 1int } else { 0int };
    // the key lines, segment by segment, with their positions
    let g2: Seq<Seq<char>> = seq![l_name, l_version];
    let g3 = g2 + (if d == 1 { seq![l_desc] } else { Seq::<Seq<char>>::empty() });
    let g4 = g3 + seq![l_rv];
    let g5 = g4 + (if s == 1 { seq![l_src] } else { Seq::<Seq<char>>::empty() });
    let g6 = g5 + (if p1 == 1 { seq![l_dep] } else { Seq::<Seq<char>>::empty() });
    let g7 = g6 + (if p2 == 1 { seq![l_bdep] } else { Seq::<Seq<char>>::empty() });
    let g8 = g7 + (if p3 == 1 { seq![l_cdep] } else { Seq::<Seq<char>>::empty() });
    let g9 = g8 + (if p4 == 1 { seq![l_xsrc] } else { Seq::<Seq<char>>::empty() });
    assert(ls =~= g9 + seq![block]);
    assert(ls.drop_last() =~= g9);
    let n = r.build_script.len() as int;
    let flat = g9 + seq!["build={"@] + r.build_script + seq![seq!['}']];
    assert(lines_of(text) =~= flat);
    assert(g3.len() == 2 + d && g4.len() == 3 + d && g5.len() == 3 + d + s);
    assert(g6.len() == 3 + d + s + p1 && g7.len() == 3 + d + s + p1 + p2);
    assert(g8.len() == 3 + d + s + p1 + p2 + p3 && g9.len() == 3 + d + s + p1 + p2 + p3 + p4);
    let k = 3 + d + s + p1 + p2 + p3 + p4;
    assert(flat.len() == k + 2 + n);
    assert(flat[0] == l_name && flat[1] == l_version);
    assert(d == 1 ==> flat[2] == l_desc);
    assert(flat[2 + d] == l_rv);
    assert(s == 1 ==> flat[3 + d] == l_src);
    assert(p1 == 1 ==> flat[g5.len() as int] == l_dep);
    assert(p2 == 1 ==> flat[g6.len() as int] == l_bdep);
    assert(p3 == 1 ==> flat[g7.len() as int] == l_cdep);
    assert(p4 == 1 ==> flat[g8.len() as int] == l_xsrc);
    assert(flat[k] == "build={"@);
    assert(forall|t: int| 0 <= t < n ==> flat[k + 1 + t] == #[trigger] r.build_script[t]);
    assert(flat[k + 1 + n] == seq!['}']);
    // the splits of each key line
    let e = empty_recipe();
    lemma_keys_clean();
    lemma_kv_split("name"@, r.name);
    lemma_kv_split("version"@, r.version);
    lemma_kv_split("description"@, r.description);
    lemma_kv_split("real_version"@, r.real_version);
    lemma_kv_split("source"@, r.source);
    lemma_kv_split("dependencies"@, brackets(r.dependencies));
    lemma_kv_split("builddeps"@, brackets(r.build_dependencies));
    lemma_kv_split("crossdeps"@, brackets(r.cross_dependencies));
    lemma_kv_split("extra_sources"@, brackets(r.extra_sources));
    lemma_kv_split("build"@, seq!['{']);
    assert("build={"@ =~= kv("build"@, seq!['{']));
    lemma_brackets_round_trip(r.dependencies);
    lemma_brackets_round_trip(r.build_dependencies);
    lemma_brackets_round_trip(r.cross_dependencies);
    lemma_brackets_round_trip(r.extra_sources);
    // walk the fold, one present line at a time
    let a1 = Recipe { name: r.name, ..e };
    let a2 = Recipe { version: r.version, ..a1 };
    let a3 = if d == 1 { Recipe { description: r.description, ..a2 } } else { a2 };
    let a4 = Recipe { real_version: r.real_version, ..a3 };
    let a5 = if s == 1 { Recipe { source: r.source, ..a4 } } else { a4 };
    let a6 = if p1 == 1 { Recipe { dependencies: r.dependencies, ..a5 } } else { a5 };
    let a7 = if p2 == 1 { Recipe { build_dependencies: r.build_dependencies, ..a6 } } else { a6 };
    let a8 = if p3 == 1 { Recipe { cross_dependencies: r.cross_dependencies, ..a7 } } else { a7 };
    let a9 = if p4 == 1 { Recipe { extra_sources: r.extra_sources, ..a8 } } else { a8 };
    assert(rp(flat, 0, e, false) == rp(flat, 1, a1, false));
    assert(rp(flat, 1, a1, false) == rp(flat, 2, a2, false));
    if d == 1 {
        assert(rp(flat, 2, a2, false) == rp(flat, 3, a3, false));
    }
    assert(rp(flat, 2, a2, false) == rp(flat, 2 + d, a3, false));
    assert(rp(flat, 2 + d, a3, false) == rp(flat, 3 + d, a4, false));
    if s == 1 {
        assert(rp(flat, 3 + d, a4, false) == rp(flat, 4 + d, a5, false));
    }
    assert(rp(flat, 3 + d, a4, false) == rp(flat, 3 + d + s, a5, false));
    if p1 == 1 {
        assert(rp(flat, g5.len() as int, a5, false) == rp(flat, g5.len() as int + 1, a6, false));
    }
    assert(rp(flat, g5.len() as int, a5, false) == rp(flat, g6.len() as int, a6, false));
    if p2 == 1 {
        assert(rp(flat, g6.len() as int, a6, false) == rp(flat, g6.len() as int + 1, a7, false));
    }
    assert(rp(flat, g6.len() as int, a6, false) == rp(flat, g7.len() as int, a7, false));
    if p3 == 1 {
        assert(rp(flat, g7.len() as int, a7, false) == rp(flat, g7.len() as int + 1, a8, false));
    }
    assert(rp(flat, g7.len() as int, a7, false) == rp(flat, g8.len() as int, a8, false));
    if p4 == 1 {
        assert(rp(flat, g8.len() as int, a8, false) == rp(flat, g8.len() as int + 1, a9, false));
    }
    assert(rp(flat, g8.len() as int, a8, false) == rp(flat, k, a9, false));
    assert(rp_line(a9, false, flat[k]) == Some((a9, true)));
    assert(rp(flat, k, a9, false) == rp(flat, k + 1, a9, true));
    lemma_rp_script(flat, k + 1, a9, r.build_script);
    let done = Recipe { build_script: a9.build_script + r.build_script, ..a9 };
    assert(a9.build_script + r.build_script =~= r.build_script);
    assert(done == r) by {
        if d == 0 {
            assert(r.description =~= Seq::<char>::empty());
        }
        if s == 0 {
            assert(r.source =~= Seq::<char>::empty());
        }
        if p1 == 0 {
            assert(r.dependencies =~= Seq::<Seq<char>>::empty());
        }
        if p2 == 0 {
            assert(r.build_dependencies =~= Seq::<Seq<char>>::empty());
        }
        if p3 == 0 {
            assert(r.cross_dependencies =~= Seq::<Seq<char>>::empty());
        }
        if p4 == 0 {
            assert(r.extra_sources =~= Seq::<Seq<char>>::empty());
        }
    }
    assert(rp(flat, k + 2 + n, done, false) == Ok::<Recipe, int>(done));
    assert(recipe_parse(text) == rp(flat, 0, e, false));
}

/// A `key=value` line of clean parts is clean.
proof fn lemma_kv_clean_one(key: Seq<char>, value: Seq<char>)
    requires
        clean_text(key),
        clean_text(value),
    ensures
        clean_text(kv(key, value)),
{
    let w = kv(key, value);
    assert forall|j: int| 0 <= j < w.len() implies #[trigger] w[j] != '\n' && w[j] != '\r' by {
        if j < key.len() {
            assert(w[j] == key[j]);
        } else if j == key.len() {
            assert(w[j] == '=');
        } else {
            assert(w[j] == value[j - key.len() - 1]);
        }
    }
}

/// The nine keys are clean and contain no `=`.
proof fn lemma_keys_clean()
    ensures
        clean_text("name"@) && no_eq("name"@),
        clean_text("version"@) && no_eq("version"@),
        clean_text("description"@) && no_eq("description"@),
        clean_text("real_version"@) && no_eq("real_version"@),
        clean_text("source"@) && no_eq("source"@),
        clean_text("dependencies"@) && no_eq("dependencies"@),
        clean_text("builddeps"@) && no_eq("builddeps"@),
        clean_text("crossdeps"@) && no_eq("crossdeps"@),
        clean_text("extra_sources"@) && no_eq("extra_sources"@),
        clean_text("build"@) && no_eq("build"@),
{
    reveal_strlit("name");
    reveal_strlit("version");
    reveal_strlit("description");
    reveal_strlit("real_version");
    reveal_strlit("source");
    reveal_strlit("dependencies");
    reveal_strlit("builddeps");
    reveal_strlit("crossdeps");
    reveal_strlit("extra_sources");
    reveal_strlit("build");
}

/// Free of the key-value separator.
pub open spec fn no_eq(s: Seq<char>) -> bool {
    forall|j: int| 0 <= j < s.len() ==> #[trigger] s[j] != '='
}

/// The two empty forms of a list value cannot be told apart: an empty
/// bracket group `[]` and an absent value both read back as the empty
/// list, and a record's dependency list only ever changes on a line whose
/// key is `dependencies`, so omitting the key leaves the list empty.
pub proof fn lemma_empty_list_ambiguity(acc: Recipe, build: bool, line: Seq<char>)
    ensures
        bracket_items("[]"@) == Seq::<Seq<char>>::empty(),
        bracket_items(Seq::<char>::empty()) == Seq::<Seq<char>>::empty(),
        rp_line(acc, false, kv("dependencies"@, "[]"@)) == Some(
            (Recipe { dependencies: Seq::empty(), ..acc }, false),
        ),
        empty_recipe().dependencies == Seq::<Seq<char>>::empty(),
        match rp_line(acc, build, line) {
            Some((a, _)) => a.dependencies == acc.dependencies || (first_char_idx(line, '=')
                matches Some(k) && line.take(k) == "dependencies"@),
            None => true,
        },
{
    reveal_strlit("[]");
    reveal_strlit("name");
    reveal_strlit("version");
    reveal_strlit("description");
    reveal_strlit("real_version");
    reveal_strlit("source");
    reveal_strlit("dependencies");
    reveal_strlit("builddeps");
    reveal_strlit("crossdeps");
    reveal_strlit("extra_sources");
    reveal_strlit("build");
    lemma_keys_clean();
    assert("[]"@.len() == 2 && "[]"@[0] == '[' && "[]"@[1] == ']');
    lemma_first_char_at("[]"@, 0, '[');
    assert("[]"@.skip(1) =~= seq![']']);
    lemma_first_char_none(seq![']'], '[');
    assert(trim_char(seq![']'], ']') =~= Seq::<char>::empty()) by {
        assert(seq![']'].drop_last() =~= Seq::<char>::empty());
        assert(trim_char(seq![']'], ']') == trim_char(Seq::<char>::empty(), ']'));
        assert(trim_char(Seq::<char>::empty(), ']') == Seq::<char>::empty());
    }
    assert("[]"@.take(0) =~= Seq::<char>::empty());
    assert(trim_char(Seq::<char>::empty(), ']') == Seq::<char>::empty());
    assert(bracket_items(seq![']']) =~= Seq::<Seq<char>>::empty());
    assert(bracket_items("[]"@) =~= Seq::<Seq<char>>::empty());
    lemma_first_char_none(Seq::<char>::empty(), '[');
    assert(bracket_items(Seq::<char>::empty()) =~= Seq::<Seq<char>>::empty());
    lemma_kv_split("dependencies"@, "[]"@);
    assert(rp_line(acc, false, kv("dependencies"@, "[]"@)) == Some(
        (Recipe { dependencies: bracket_items("[]"@), ..acc }, false),
    ));
}

/// Builds the multi-line build block as one string.
fn build_block_string(script: &Vec<String>) -> (r: String)
    ensures
        r@ == build_block(script.deep_view()),
{
    let mut block = String::from_str("build={");
    let mut i: usize = 0;
    proof {
        assert(script.deep_view().take(0) =~= Seq::<Seq<char>>::empty());
        assert(nl_join_pre(script.deep_view().take(0)) =~= Seq::<char>::empty());
        assert(block@ =~= "build={"@ + nl_join_pre(script.deep_view().take(0)));
    }
    while i < script.len()
        invariant
            i <= script@.len(),
            script.deep_view().len() == script@.len(),
            block@ == "build={"@ + nl_join_pre(script.deep_view().take(i as int)),
        decreases script@.len() - i,
    {
        block.append("\n");
        block.append(script[i].as_str());
        proof {
            reveal_strlit("\n");
            assert("\n"@ =~= seq!['\n']);
            assert(script.deep_view().take(i + 1) =~= script.deep_view().take(i as int).push(
                script.deep_view()[i as int],
            ));
            lemma_nl_join_snoc(script.deep_view().take(i as int), script.deep_view()[i as int]);
            assert(script.deep_view()[i as int] == script@[i as int]@);
            assert(block@ =~= "build={"@ + nl_join_pre(script.deep_view().take(i + 1)));
        }
        i = i + 1;
    }
    block.append("\n");
    block.append("}");
    proof {
        reveal_strlit("\n");
        reveal_strlit("}");
        assert("\n"@ =~= seq!['\n']);
        assert("}"@ =~= seq!['}']);
        assert(script.deep_view().take(script@.len() as int) =~= script.deep_view());
        assert(block@ =~= build_block(script.deep_view()));
    }
    block
}

/// Copies a list of strings.
fn clone_strings(v: &Vec<String>) -> (r: Vec<String>)
    ensures
        r.deep_view() == v.deep_view(),
        r@.len() == v@.len(),
{
    let mut out: Vec<String> = Vec::new();
    let mut i: usize = 0;
    while i < v.len()
        invariant
            i <= v@.len(),
            out@.len() == i,
            forall|t: int| 0 <= t < i ==> (#[trigger] out@[t])@ == v@[t]@,
        decreases v@.len() - i,
    {
        out.push(v[i].clone());
        i = i + 1;
    }
    proof {
        assert(out.deep_view() =~= v.deep_view());
    }
    out
}

/// The serialized lines of a locally authored recipe: empty optional
/// fields are left out entirely; the name and versions always appear.
pub open spec fn pkgbuild_lines(r: Recipe) -> Seq<Seq<char>> {
    seq![kv("name"@, r.name), kv("version"@, r.version)] + (if r.description.len() > 0 {
        seq![kv("description"@, r.description)]
    } else {
        Seq::<Seq<char>>::empty()
    }) + seq![kv("real_version"@, r.real_version)] + (if r.source.len() > 0 {
        seq![kv("source"@, r.source)]
    } else {
        Seq::<Seq<char>>::empty()
    }) + (if r.extra_sources.len() > 0 {
        seq![kv("extra_sources"@, brackets(r.extra_sources))]
    } else {
        Seq::<Seq<char>>::empty()
    }) + (if r.dependencies.len() > 0 {
        seq![kv("dependencies"@, brackets(r.dependencies))]
    } else {
        Seq::<Seq<char>>::empty()
    }) + (if r.build_dependencies.len() > 0 {
        seq![kv("builddeps"@, brackets(r.build_dependencies))]
    } else {
        Seq::<Seq<char>>::empty()
    }) + (if r.cross_dependencies.len() > 0 {
        seq![kv("crossdeps"@, brackets(r.cross_dependencies))]
    } else {
        Seq::<Seq<char>>::empty()
    }) + (if r.build_script.len() > 0 {
        seq![build_block(r.build_script)]
    } else {
        Seq::<Seq<char>>::empty()
    })
}

/// The template recipe a fresh working directory starts from.
pub open spec fn template_recipe() -> Recipe {
    Recipe {
        name: "template"@,
        description: Seq::empty(),
        version: "0"@,
        real_version: "0"@,
        source: Seq::empty(),
        dependencies: seq![Seq::empty()],
        build_dependencies: seq![Seq::empty()],
        cross_dependencies: seq![Seq::empty()],
        extra_sources: seq![Seq::empty()],
        build_script: seq!["cd $PKG_NAME-$PKG_VERSION"@, "make DESTDIR=$PKG_INSTALL_DIR install"@],
    }
}

/// A locally authored recipe, as the template and checkout flows build it.
pub struct PKGBuild {
    name: String,
    version: String,
    real_version: String,
    source: String,
    dependencies: Vec<String>,
    build_dependencies: Vec<String>,
    cross_dependencies: Vec<String>,
    extra_sources: Vec<String>,
    description: String,
    build_script: Vec<String>,
}

impl PKGBuild {
    /// The mathematical shape of this recipe.
    pub closed spec fn model(self) -> Recipe {
        Recipe {
            name: self.name@,
            description: self.description@,
            version: self.version@,
            real_version: self.real_version@,
            source: self.source@,
            dependencies: self.dependencies.deep_view(),
            build_dependencies: self.build_dependencies.deep_view(),
            cross_dependencies: self.cross_dependencies.deep_view(),
            extra_sources: self.extra_sources.deep_view(),
            build_script: self.build_script.deep_view(),
        }
    }

    /// The starting template: placeholder name, zero versions, one empty
    /// slot per list, and a two-line script.
    pub fn new_template() -> (r: PKGBuild)
        ensures
            r.model() == template_recipe(),
    {
        let mut dependencies: Vec<String> = Vec::new();
        dependencies.push(String::new());
        let mut build_dependencies: Vec<String> = Vec::new();
        build_dependencies.push(String::new());
        let mut cross_dependencies: Vec<String> = Vec::new();
        cross_dependencies.push(String::new());
        let mut extra_sources: Vec<String> = Vec::new();
        extra_sources.push(String::new());
        let mut build_script: Vec<String> = Vec::new();
        build_script.push(String::from_str("cd $PKG_NAME-$PKG_VERSION"));
        build_script.push(String::from_str("make DESTDIR=$PKG_INSTALL_DIR install"));
        let r = PKGBuild {
            name: String::from_str("template"),
            version: String::from_str("0"),
            real_version: String::from_str("0"),
            source: String::new(),
            dependencies,
            build_dependencies,
            cross_dependencies,
            extra_sources,
            description: String::new(),
            build_script,
        };
        proof {
            assert(r.dependencies.deep_view() =~= seq![Seq::<char>::empty()]);
            assert(r.build_dependencies.deep_view() =~= seq![Seq::<char>::empty()]);
            assert(r.cross_dependencies.deep_view() =~= seq![Seq::<char>::empty()]);
            assert(r.extra_sources.deep_view() =~= seq![Seq::<char>::empty()]);
            assert(r.build_script.deep_view() =~= template_recipe().build_script);
        }
        r
    }

    /// The serialized lines of this recipe, optional fields left out when
    /// empty.
    #[verifier::rlimit(100)]
    pub fn to_pkgbuild(&self) -> (r: Vec<String>)
        ensures
            r.deep_view() == pkgbuild_lines(self.model()),
    {
        let mut lines: Vec<String> = Vec::new();
        lines.push(kv_line("name", self.name.as_str()));
        lines.push(kv_line("version", self.version.as_str()));
        if !self.description.as_str().is_empty() {
            lines.push(kv_line("description", self.description.as_str()));
        }
        lines.push(kv_line("real_version", self.real_version.as_str()));
        if !self.source.as_str().is_empty() {
            lines.push(kv_line("source", self.source.as_str()));
        }
        if self.extra_sources.len() > 0 {
            lines.push(kv_line("extra_sources", bracket_value(&self.extra_sources).as_str()));
        }
        if self.dependencies.len() > 0 {
            lines.push(kv_line("dependencies", bracket_value(&self.dependencies).as_str()));
        }
        if self.build_dependencies.len() > 0 {
            lines.push(kv_line("builddeps", bracket_value(&self.build_dependencies).as_str()));
        }
        if self.cross_dependencies.len() > 0 {
            lines.push(kv_line("crossdeps", bracket_value(&self.cross_dependencies).as_str()));
        }
        if self.build_script.len() > 0 {
            lines.push(build_block_string(&self.build_script));
        }
        proof {
            assert(lines.deep_view() =~= pkgbuild_lines(self.model()));
        }
        lines
    }

    /// The run-time dependencies.
    pub fn get_dependencies(&self) -> (r: Vec<String>)
        ensures
            r.deep_view() == self.model().dependencies,
    {
        clone_strings(&self.dependencies)
    }

    /// The build-time dependencies.
    pub fn get_build_dependencies(&self) -> (r: Vec<String>)
        ensures
            r.deep_view() == self.model().build_dependencies,
    {
        clone_strings(&self.build_dependencies)
    }

    /// The cross-build dependencies.
    pub fn get_cross_dependencies(&self) -> (r: Vec<String>)
        ensures
            r.deep_view() == self.model().cross_dependencies,
    {
        clone_strings(&self.cross_dependencies)
    }

    /// The package name.
    pub fn get_name(&self) -> (r: String)
        ensures
            r@ == self.model().name,
    {
        self.name.clone()
    }
}

/// The file content of a fresh template recipe: what a newly created
/// working directory receives.
pub fn create_template() -> (r: String)
    ensures
        r@ == join_nl(pkgbuild_lines(template_recipe())),
{
    let template = PKGBuild::new_template();
    let lines = template.to_pkgbuild();
    join_lines(&lines)
}

/// Lines joined by single newlines.
pub open spec fn join_nl(lines: Seq<Seq<char>>) -> Seq<char> {
    if lines.len() == 0 {
        Seq::empty()
    } else {
        lines[0] + nl_join_pre(lines.drop_first())
    }
}

/// Joins lines with newlines, as the recipe file holds them.
pub fn join_lines(lines: &Vec<String>) -> (r: String)
    ensures
        r@ == join_nl(lines.deep_view()),
{
    let mut s = String::new();
    if lines.len() == 0 {
        return s;
    }
    s.append(lines[0].as_str());
    let mut i: usize = 1;
    proof {
        assert(lines.deep_view().drop_first().take(0) =~= Seq::<Seq<char>>::empty());
        assert(s@ =~= lines.deep_view()[0] + nl_join_pre(
            lines.deep_view().drop_first().take(0),
        ));
    }
    while i < lines.len()
        invariant
            1 <= i <= lines@.len(),
            lines.deep_view().len() == lines@.len(),
            s@ == lines.deep_view()[0] + nl_join_pre(
                lines.deep_view().drop_first().take(i - 1),
            ),
        decreases lines@.len() - i,
    {
        s.append("\n");
        s.append(lines[i].as_str());
        proof {
            reveal_strlit("\n");
            assert("\n"@ =~= seq!['\n']);
            let rest = lines.deep_view().drop_first();
            assert(rest.take(i as int) =~= rest.take(i - 1).push(rest[i - 1]));
            lemma_nl_join_snoc(rest.take(i - 1), rest[i - 1]);
            assert(rest[i - 1] == lines.deep_view()[i as int]);
            assert(lines.deep_view()[i as int] == lines@[i as int]@);
            assert(s@ =~= lines.deep_view()[0] + nl_join_pre(rest.take(i as int)));
        }
        i = i + 1;
    }
    proof {
        let rest = lines.deep_view().drop_first();
        assert(rest.take(lines@.len() - 1) =~= rest);
    }
    s
}

} // verus!
