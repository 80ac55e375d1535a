//! The parts of a GraphQL introspection result that the search reads, and the
//! queries over them.
use vstd::prelude::*;
use crate::args::SearchMode;
use crate::text::{chars_eq, chars_of, ends_with, occurs_at, seq_contains, str_contains, str_ends_with, str_eq};

verus! {

/// The kind of a GraphQL type, as the introspection result names it.
#[derive(Clone, Debug, PartialEq, Eq)]
pub enum TypeKind {
    Scalar,
    Object,
    Interface,
    Union,
    Enum,
    InputObject,
    List,
    NonNull,
    Other(String),
}

/// A reference to a type, possibly wrapped in list and non-null markers.
#[derive(Debug)]
pub struct TypeRef {
    pub kind: Option<TypeKind>,
    pub name: Option<String>,
    pub of_type: Option<Box<TypeRef>>,
}

/// The declared type of a field.
#[derive(Debug)]
pub struct FullTypeFieldsType {
    pub type_ref: TypeRef,
}

/// A field of an object or interface type.
#[derive(Debug)]
pub struct FullTypeFields {
    pub name: Option<String>,
    pub description: Option<String>,
    pub type_: Option<FullTypeFieldsType>,
}

/// A type of the schema.
#[derive(Debug)]
pub struct FullType {
    pub kind: Option<TypeKind>,
    pub name: Option<String>,
    pub description: Option<String>,
    pub fields: Option<Vec<FullTypeFields>>,
}

/// An entry of the schema's list of types.
#[derive(Debug)]
pub struct SchemaTypes {
    pub full_type: FullType,
}

/// An introspected schema.
#[derive(Debug)]
pub struct Schema {
    pub types: Option<Vec<Option<SchemaTypes>>>,
}

/// How a search term is compared with a name or description.
#[derive(Copy, Clone, Debug, Default)]
pub struct MatchConfig {
    pub contains: bool,
    pub ignore_case: bool,
}

/// The lower-case form of a string, as `str::to_lowercase` computes it.
pub uninterp spec fn lowercase(s: Seq<char>) -> Seq<char>;

/// Calls `str::to_lowercase`. Trusted: the result is `lowercase` of the
/// argument's characters (the full Unicode mapping, a function of the argument
/// alone), and the lower-case form of the empty string is empty.
#[verifier::external_body]
fn to_lowercase(s: &str) -> (r: String)
    ensures
        r@ == lowercase(s@),
        s@.len() == 0 ==> r@.len() == 0,
{
    s.to_lowercase()
}

impl MatchConfig {
    /// Comparison without case folding: exact equality, or containment.
    pub open spec fn plain_match(self, a: Seq<char>, b: Seq<char>) -> bool {
        if self.contains {
            seq_contains(a, b)
        } else {
            a == b
        }
    }

    /// Whether `a` matches the search term `b` under this configuration.
    pub open spec fn accepts(self, a: Seq<char>, b: Seq<char>) -> bool {
        if self.ignore_case {
            self.plain_match(lowercase(a), lowercase(b))
        } else {
            self.plain_match(a, b)
        }
    }

    /// Compares `a` with `b` without case folding: equality, or whether `b`
    /// occurs in `a` when `contains` is set.
    pub fn match_plain(self, a: &str, b: &str) -> (r: bool)
        ensures
            r == self.plain_match(a@, b@),
    {
        if self.contains {
            str_contains(a, b)
        } else {
            str_eq(a, b)
        }
    }

    /// Whether `a` matches the search term `b`: equality or containment,
    /// after lower-casing both when `ignore_case` is set.
    pub fn match_str(self, a: &str, b: &str) -> (r: bool)
        ensures
            r == self.accepts(a@, b@),
            self.contains && b@.len() == 0 ==> r,
    {
        proof {
            if self.contains && b@.len() == 0 {
                assert(occurs_at(a@, b@, 0));
            }
        }
        if self.ignore_case {
            let la = to_lowercase(a);
            let lb = to_lowercase(b);
            proof {
                if self.contains && b@.len() == 0 {
                    assert(occurs_at(la@, lb@, 0));
                }
            }
            self.match_plain(la.as_str(), lb.as_str())
        } else {
            self.match_plain(a, b)
        }
    }
}

/// Exact matching implies containment matching, with or without case folding.
pub proof fn lemma_exact_match_implies_contains_match(ignore_case: bool, a: Seq<char>, b: Seq<char>)
    requires
        (MatchConfig { contains: false, ignore_case }).accepts(a, b),
    ensures
        (MatchConfig { contains: true, ignore_case }).accepts(a, b),
{
    let (x, y) = if ignore_case {
        (lowercase(a), lowercase(b))
    } else {
        (a, b)
    };
    assert(occurs_at(x, y, 0));
}

/// An exact case-sensitive match is also an exact case-insensitive match.
pub proof fn lemma_case_sensitive_match_implies_insensitive(a: Seq<char>, b: Seq<char>)
    requires
        (MatchConfig { contains: false, ignore_case: false }).accepts(a, b),
    ensures
        (MatchConfig { contains: false, ignore_case: true }).accepts(a, b),
{
}

/// Every configuration matches a string with itself.
pub proof fn lemma_match_reflexive(config: MatchConfig, a: Seq<char>)
    ensures
        config.accepts(a, a),
{
    assert(occurs_at(a, a, 0));
    assert(occurs_at(lowercase(a), lowercase(a), 0));
}

/// The types held by a list of schema entries, skipping empty entries.
pub open spec fn entry_types(v: Seq<Option<SchemaTypes>>) -> Seq<FullType>
    decreases v.len(),
{
    if v.len() == 0 {
        Seq::empty()
    } else {
        let rest = entry_types(v.drop_last());
        match v.last() {
            Some(t) => rest.push(t.full_type),
            None => rest,
        }
    }
}

/// The types listed by the schema, skipping empty entries.
pub open spec fn schema_types(s: Schema) -> Seq<FullType> {
    match s.types {
        Some(v) => entry_types(v@),
        None => Seq::empty(),
    }
}

/// The values behind a sequence of references.
pub open spec fn derefs(s: Seq<&FullType>) -> Seq<FullType> {
    s.map_values(|t: &FullType| *t)
}

/// The types listed by the schema, in order, skipping empty entries.
pub fn get_schema_types<'a>(schema: &'a Schema) -> (r: Vec<&'a FullType>)
    ensures
        derefs(r@) == schema_types(*schema),
{
    let mut r: Vec<&'a FullType> = Vec::new();
    match &schema.types {
        None => {
            assert(derefs(r@) =~= schema_types(*schema));
        },
        Some(v) => {
            let mut i: usize = 0;
            while i < v.len()
                invariant
                    i <= v.len(),
                    schema.types == Some(*v),
                    derefs(r@) == entry_types(v@.take(i as int)),
                decreases v.len() - i,
            {
                assert(v@.take(i + 1).drop_last() =~= v@.take(i as int));
                match &v[i] {
                    Some(st) => {
                        r.push(&st.full_type);
                    },
                    None => {},
                }
                assert(derefs(r@) =~= entry_types(v@.take(i + 1)));
                i = i + 1;
            }
            assert(v@.take(v.len() as int) =~= v@);
        },
    }
    r
}


/// The type's name matches the term.
pub open spec fn name_matches(config: MatchConfig, t: FullType, term: Seq<char>) -> bool {
    t.name matches Some(n) && config.accepts(n@, term)
}

/// The field's name matches the term.
pub open spec fn field_name_matches(config: MatchConfig, f: FullTypeFields, term: Seq<char>) -> bool {
    f.name matches Some(n) && config.accepts(n@, term)
}

/// The field's description matches the term.
pub open spec fn field_description_matches(
    config: MatchConfig,
    f: FullTypeFields,
    term: Seq<char>,
) -> bool {
    f.description matches Some(d) && config.accepts(d@, term)
}

/// Some field of the type has a name that matches the term.
pub open spec fn field_matches(config: MatchConfig, t: FullType, term: Seq<char>) -> bool {
    t.fields matches Some(fs) && exists|i: int|
        0 <= i < fs.len() && #[trigger] field_name_matches(config, fs@[i], term)
}

/// The type's description, or the description of one of its fields, matches
/// the term.
pub open spec fn description_matches(config: MatchConfig, t: FullType, term: Seq<char>) -> bool {
    ||| (t.description matches Some(d) && config.accepts(d@, term))
    ||| (t.fields matches Some(fs) && exists|i: int|
        0 <= i < fs.len() && #[trigger] field_description_matches(config, fs@[i], term))
}

/// The type is selected by the term in the given search mode.
pub open spec fn type_matches(
    mode: SearchMode,
    config: MatchConfig,
    t: FullType,
    term: Seq<char>,
) -> bool {
    match mode {
        SearchMode::Type => name_matches(config, t, term),
        SearchMode::Field => field_matches(config, t, term),
        SearchMode::Description => description_matches(config, t, term),
    }
}

/// The types of `ts` that the term selects, in order.
pub open spec fn matching_types(
    ts: Seq<FullType>,
    mode: SearchMode,
    config: MatchConfig,
    term: Seq<char>,
) -> Seq<FullType>
    decreases ts.len(),
{
    if ts.len() == 0 {
        Seq::empty()
    } else {
        let rest = matching_types(ts.drop_last(), mode, config, term);
        if type_matches(mode, config, ts.last(), term) {
            rest.push(ts.last())
        } else {
            rest
        }
    }
}

/// `a` is a subsequence of `b`: its elements occur in `b` in the same order.
pub open spec fn is_subsequence<A>(a: Seq<A>, b: Seq<A>) -> bool
    decreases b.len(),
{
    if a.len() == 0 {
        true
    } else if b.len() == 0 {
        false
    } else if a.last() == b.last() {
        is_subsequence(a.drop_last(), b.drop_last())
    } else {
        is_subsequence(a, b.drop_last())
    }
}

proof fn lemma_subsequence_drop_last<A>(a: Seq<A>, b: Seq<A>)
    requires
        is_subsequence(a, b),
        a.len() > 0,
    ensures
        is_subsequence(a.drop_last(), b),
    decreases b.len(),
{
    let c = a.drop_last();
    if c.len() > 0 {
        if a.last() == b.last() {
            if c.last() == b.last() {
                lemma_subsequence_drop_last(c, b.drop_last());
            }
        } else {
            lemma_subsequence_drop_last(a, b.drop_last());
            if c.last() == b.last() {
                lemma_subsequence_drop_last(c, b.drop_last());
            }
        }
    }
}

proof fn lemma_matching_is_subsequence(
    ts: Seq<FullType>,
    mode: SearchMode,
    config: MatchConfig,
    term: Seq<char>,
)
    ensures
        is_subsequence(matching_types(ts, mode, config, term), ts),
    decreases ts.len(),
{
    if ts.len() > 0 {
        let m = matching_types(ts.drop_last(), mode, config, term);
        lemma_matching_is_subsequence(ts.drop_last(), mode, config, term);
        if type_matches(mode, config, ts.last(), term) {
            assert(m.push(ts.last()).drop_last() =~= m);
        } else if m.len() > 0 && m.last() == ts.last() {
            lemma_subsequence_drop_last(m, ts.drop_last());
        }
    }
}

proof fn lemma_exact_type_match_implies_contains(
    mode: SearchMode,
    ignore_case: bool,
    t: FullType,
    term: Seq<char>,
)
    requires
        type_matches(mode, MatchConfig { contains: false, ignore_case }, t, term),
    ensures
        type_matches(mode, MatchConfig { contains: true, ignore_case }, t, term),
{
    let exact = MatchConfig { contains: false, ignore_case };
    let loose = MatchConfig { contains: true, ignore_case };
    match mode {
        SearchMode::Type => {
            lemma_exact_match_implies_contains_match(ignore_case, t.name->0@, term);
        },
        SearchMode::Field => {
            let fs = t.fields->0;
            let i = choose|i: int| 0 <= i < fs.len() && #[trigger] field_name_matches(exact, fs@[i], term);
            lemma_exact_match_implies_contains_match(ignore_case, fs@[i].name->0@, term);
            assert(field_name_matches(loose, fs@[i], term));
        },
        SearchMode::Description => {
            if t.description is Some && exact.accepts(t.description->0@, term) {
                lemma_exact_match_implies_contains_match(ignore_case, t.description->0@, term);
            } else {
                let fs = t.fields->0;
                let i = choose|i: int|
                    0 <= i < fs.len() && #[trigger] field_description_matches(exact, fs@[i], term);
                lemma_exact_match_implies_contains_match(ignore_case, fs@[i].description->0@, term);
                assert(field_description_matches(loose, fs@[i], term));
            }
        },
    }
}

proof fn lemma_exact_within_contains(ts: Seq<FullType>, mode: SearchMode, ignore_case: bool, term: Seq<char>)
    ensures
        matching_types(
            matching_types(ts, mode, MatchConfig { contains: true, ignore_case }, term),
            mode,
            MatchConfig { contains: false, ignore_case },
            term,
        ) == matching_types(ts, mode, MatchConfig { contains: false, ignore_case }, term),
    decreases ts.len(),
{
    let exact = MatchConfig { contains: false, ignore_case };
    let loose = MatchConfig { contains: true, ignore_case };
    if ts.len() > 0 {
        lemma_exact_within_contains(ts.drop_last(), mode, ignore_case, term);
        let x = ts.last();
        let inner = matching_types(ts.drop_last(), mode, loose, term);
        if type_matches(mode, exact, x, term) {
            lemma_exact_type_match_implies_contains(mode, ignore_case, x, term);
            assert(inner.push(x).drop_last() =~= inner);
        } else if type_matches(mode, loose, x, term) {
            assert(inner.push(x).drop_last() =~= inner);
        }
    }
}

/// The types that a term selects are a subsequence of the types searched,
/// and those it selects by exact match are a subsequence of those it selects
/// by containment (with the same case handling).
pub proof fn lemma_selected_types_are_subsequences(
    ts: Seq<FullType>,
    mode: SearchMode,
    config: MatchConfig,
    term: Seq<char>,
)
    ensures
        is_subsequence(matching_types(ts, mode, config, term), ts),
        is_subsequence(
            matching_types(ts, mode, MatchConfig { contains: false, ignore_case: config.ignore_case }, term),
            matching_types(ts, mode, MatchConfig { contains: true, ignore_case: config.ignore_case }, term),
        ),
{
    lemma_matching_is_subsequence(ts, mode, config, term);
    let loose = MatchConfig { contains: true, ignore_case: config.ignore_case };
    let exact = MatchConfig { contains: false, ignore_case: config.ignore_case };
    lemma_exact_within_contains(ts, mode, config.ignore_case, term);
    lemma_matching_is_subsequence(matching_types(ts, mode, loose, term), mode, exact, term);
}

fn field_name_matches_exec(config: MatchConfig, f: &FullTypeFields, term: &str) -> (r: bool)
    ensures
        r == field_name_matches(config, *f, term@),
{
    match &f.name {
        Some(n) => config.match_str(n.as_str(), term),
        None => false,
    }
}

fn field_description_matches_exec(config: MatchConfig, f: &FullTypeFields, term: &str) -> (r: bool)
    ensures
        r == field_description_matches(config, *f, term@),
{
    match &f.description {
        Some(d) => config.match_str(d.as_str(), term),
        None => false,
    }
}

fn field_matches_exec(config: MatchConfig, t: &FullType, term: &str) -> (r: bool)
    ensures
        r == field_matches(config, *t, term@),
{
    match &t.fields {
        None => false,
        Some(fs) => {
            let mut i: usize = 0;
            while i < fs.len()
                invariant
                    t.fields == Some(*fs),
                    i <= fs.len(),
                    forall|j: int| 0 <= j < i ==> !#[trigger] field_name_matches(config, fs@[j], term@),
                decreases fs.len() - i,
            {
                if field_name_matches_exec(config, &fs[i], term) {
                    assert(field_name_matches(config, fs@[i as int], term@));
                    assert(t.fields->0 == *fs);
                    return true;
                }
                i = i + 1;
            }
            false
        },
    }
}

fn description_matches_exec(config: MatchConfig, t: &FullType, term: &str) -> (r: bool)
    ensures
        r == description_matches(config, *t, term@),
{
    let own = match &t.description {
        Some(d) => config.match_str(d.as_str(), term),
        None => false,
    };
    if own {
        return true;
    }
    match &t.fields {
        None => false,
        Some(fs) => {
            let mut i: usize = 0;
            while i < fs.len()
                invariant
                    t.fields == Some(*fs),
                    i <= fs.len(),
                    forall|j: int|
                        0 <= j < i ==> !#[trigger] field_description_matches(config, fs@[j], term@),
                decreases fs.len() - i,
            {
                if field_description_matches_exec(config, &fs[i], term) {
                    assert(field_description_matches(config, fs@[i as int], term@));
                    assert(t.fields->0 == *fs);
                    return true;
                }
                i = i + 1;
            }
            false
        },
    }
}

fn type_matches_exec(mode: SearchMode, config: MatchConfig, t: &FullType, term: &str) -> (r: bool)
    ensures
        r == type_matches(mode, config, *t, term@),
{
    match mode {
        SearchMode::Type => match &t.name {
            Some(n) => config.match_str(n.as_str(), term),
            None => false,
        },
        SearchMode::Field => field_matches_exec(config, t, term),
        SearchMode::Description => description_matches_exec(config, t, term),
    }
}

/// The types of the schema that the term selects in the given mode, in order.
fn schema_types_matching<'a>(
    schema: &'a Schema,
    mode: SearchMode,
    term: &str,
    config: MatchConfig,
) -> (r: Vec<&'a FullType>)
    ensures
        derefs(r@) == matching_types(schema_types(*schema), mode, config, term@),
{
    let all = get_schema_types(schema);
    let mut r: Vec<&'a FullType> = Vec::new();
    let mut i: usize = 0;
    while i < all.len()
        invariant
            i <= all.len(),
            derefs(r@) == matching_types(derefs(all@).take(i as int), mode, config, term@),
        decreases all.len() - i,
    {
        assert(derefs(all@).take(i + 1).drop_last() =~= derefs(all@).take(i as int));
        if type_matches_exec(mode, config, all[i], term) {
            r.push(all[i]);
        }
        assert(derefs(r@) =~= matching_types(derefs(all@).take(i + 1), mode, config, term@));
        i = i + 1;
    }
    assert(derefs(all@).take(all.len() as int) =~= derefs(all@));
    r
}

/// The types of the schema whose name matches `name`, in order.
pub fn get_schema_types_by_name<'a>(schema: &'a Schema, name: &str, config: MatchConfig) -> (r: Vec<
    &'a FullType,
>)
    ensures
        derefs(r@) == matching_types(schema_types(*schema), SearchMode::Type, config, name@),
{
    schema_types_matching(schema, SearchMode::Type, name, config)
}

/// The types of the schema with a field whose name matches `name`, in order.
pub fn get_schema_types_by_field<'a>(schema: &'a Schema, name: &str, config: MatchConfig) -> (r: Vec<
    &'a FullType,
>)
    ensures
        derefs(r@) == matching_types(schema_types(*schema), SearchMode::Field, config, name@),
{
    schema_types_matching(schema, SearchMode::Field, name, config)
}

/// The types of the schema whose description, or the description of one of
/// whose fields, matches `name`, in order.
pub fn get_schema_types_by_description<'a>(
    schema: &'a Schema,
    name: &str,
    config: MatchConfig,
) -> (r: Vec<&'a FullType>)
    ensures
        derefs(r@) == matching_types(
            schema_types(*schema),
            SearchMode::Description,
            config,
            name@,
        ),
{
    schema_types_matching(schema, SearchMode::Description, name, config)
}


/// The name a type reference resolves to: its own name, or else the name that
/// the type it wraps resolves to.
pub open spec fn unwrap_type_name_spec(t: TypeRef) -> Option<Seq<char>>
    decreases t,
{
    match t.name {
        Some(n) => Some(n@),
        None => match t.of_type {
            Some(inner) => unwrap_type_name_spec(*inner),
            None => None,
        },
    }
}

/// The characters of an optional string slice.
pub open spec fn opt_str_chars(o: Option<&str>) -> Option<Seq<char>> {
    match o {
        Some(s) => Some(s@),
        None => None,
    }
}

/// The name of the named type under list and non-null wrappers.
pub fn unwrap_type_name(type_ref: &TypeRef) -> (r: Option<&str>)
    ensures
        opt_str_chars(r) == unwrap_type_name_spec(*type_ref),
    decreases type_ref,
{
    if let Some(name) = &type_ref.name {
        return Some(name.as_str());
    }
    if let Some(inner) = &type_ref.of_type {
        return unwrap_type_name(inner);
    }
    None
}

/// The type is an object, an interface or a union: a type with fields to follow.
pub open spec fn is_composite_spec(t: FullType) -> bool {
    match t.kind {
        Some(TypeKind::Object) | Some(TypeKind::Interface) | Some(TypeKind::Union) => true,
        _ => false,
    }
}

/// Whether the type is an object, an interface or a union.
pub fn is_composite(t: &FullType) -> (r: bool)
    ensures
        r == is_composite_spec(*t),
{
    match &t.kind {
        Some(TypeKind::Object) | Some(TypeKind::Interface) | Some(TypeKind::Union) => true,
        _ => false,
    }
}

/// The field is named `name`.
pub open spec fn field_named(f: FullTypeFields, name: Seq<char>) -> bool {
    f.name matches Some(n) && n@ == name
}

/// The type has a field named `name`.
pub open spec fn has_field_named(t: FullType, name: Seq<char>) -> bool {
    t.fields matches Some(fs) && exists|i: int|
        0 <= i < fs.len() && #[trigger] field_named(fs@[i], name)
}

/// The type is part of the Relay pagination scaffolding: `PageInfo` with its
/// page flags, a `...Connection` with edges and page info, or an `...Edge`
/// with a cursor and a node.
pub open spec fn is_relay_spec(t: FullType) -> bool {
    match t.name {
        None => false,
        Some(n) => if n@ == "PageInfo"@ {
            has_field_named(t, "hasNextPage"@) && has_field_named(t, "hasPreviousPage"@)
        } else if ends_with(n@, "Connection"@) {
            has_field_named(t, "edges"@) && has_field_named(t, "pageInfo"@)
        } else if ends_with(n@, "Edge"@) {
            has_field_named(t, "cursor"@) && has_field_named(t, "node"@)
        } else {
            false
        },
    }
}

fn has_field(t: &FullType, name: &str) -> (r: bool)
    ensures
        r == has_field_named(*t, name@),
{
    match &t.fields {
        None => false,
        Some(fs) => {
            let mut i: usize = 0;
            while i < fs.len()
                invariant
                    t.fields == Some(*fs),
                    i <= fs.len(),
                    forall|j: int| 0 <= j < i ==> !#[trigger] field_named(fs@[j], name@),
                decreases fs.len() - i,
            {
                let found = match &fs[i].name {
                    Some(n) => str_eq(n.as_str(), name),
                    None => false,
                };
                if found {
                    assert(field_named(fs@[i as int], name@));
                    assert(t.fields->0 == *fs);
                    return true;
                }
                i = i + 1;
            }
            false
        },
    }
}

/// Whether the type belongs to Relay pagination (`PageInfo`, `...Connection`,
/// `...Edge` with their characteristic fields).
pub fn is_relay(t: &FullType) -> (r: bool)
    ensures
        r == is_relay_spec(*t),
{
    let tname = match &t.name {
        Some(n) => n.as_str(),
        None => {
            return false;
        },
    };
    if str_eq(tname, "PageInfo") {
        return has_field(t, "hasNextPage") && has_field(t, "hasPreviousPage");
    }
    if str_ends_with(tname, "Connection") {
        return has_field(t, "edges") && has_field(t, "pageInfo");
    }
    if str_ends_with(tname, "Edge") {
        return has_field(t, "cursor") && has_field(t, "node");
    }
    false
}


/// The named types among `ts`, each with its name, in order.
pub open spec fn named_types(ts: Seq<FullType>) -> Seq<(Seq<char>, FullType)>
    decreases ts.len(),
{
    if ts.len() == 0 {
        Seq::empty()
    } else {
        let rest = named_types(ts.drop_last());
        match ts.last().name {
            Some(n) => rest.push((n@, ts.last())),
            None => rest,
        }
    }
}

/// The characters of each name, with the type behind each reference.
pub open spec fn pairs_view(s: Seq<(&str, &FullType)>) -> Seq<(Seq<char>, FullType)> {
    s.map_values(|p: (&str, &FullType)| (p.0@, *p.1))
}

/// The named types of the schema with their names, in order.
pub fn get_schema_type_map<'a>(schema: &'a Schema) -> (r: Vec<(&'a str, &'a FullType)>)
    ensures
        pairs_view(r@) == named_types(schema_types(*schema)),
{
    let all = get_schema_types(schema);
    let mut r: Vec<(&'a str, &'a FullType)> = Vec::new();
    let mut i: usize = 0;
    while i < all.len()
        invariant
            i <= all.len(),
            pairs_view(r@) == named_types(derefs(all@).take(i as int)),
        decreases all.len() - i,
    {
        assert(derefs(all@).take(i + 1).drop_last() =~= derefs(all@).take(i as int));
        let t: &'a FullType = all[i];
        match &t.name {
            Some(n) => {
                r.push((n.as_str(), t));
            },
            None => {},
        }
        assert(pairs_view(r@) =~= named_types(derefs(all@).take(i + 1)));
        i = i + 1;
    }
    assert(derefs(all@).take(all.len() as int) =~= derefs(all@));
    r
}

/// The map that inserting the pairs one after another builds: a later pair
/// replaces an earlier one with the same key.
pub open spec fn pairs_to_map(pairs: Seq<(Seq<char>, FullType)>) -> Map<Seq<char>, FullType>
    decreases pairs.len(),
{
    if pairs.len() == 0 {
        Map::empty()
    } else {
        pairs_to_map(pairs.drop_last()).insert(pairs.last().0, pairs.last().1)
    }
}

/// No key occurs twice.
pub open spec fn distinct_keys(keys: Seq<Seq<char>>) -> bool {
    forall|i: int, j: int| 0 <= i < keys.len() && 0 <= j < keys.len() && i != j ==> keys[i] != keys[j]
}

/// The map from each key to the value at the same position.
pub open spec fn entries_map(keys: Seq<Seq<char>>, vals: Seq<FullType>) -> Map<Seq<char>, FullType> {
    Map::new(
        |k: Seq<char>| exists|i: int| 0 <= i < keys.len() && keys[i] == k,
        |k: Seq<char>| vals[choose|i: int| 0 <= i < keys.len() && keys[i] == k],
    )
}

proof fn lemma_entries_map_at(keys: Seq<Seq<char>>, vals: Seq<FullType>, i: int)
    requires
        distinct_keys(keys),
        0 <= i < keys.len(),
    ensures
        entries_map(keys, vals).contains_key(keys[i]),
        entries_map(keys, vals)[keys[i]] == vals[i],
{
    let k = keys[i];
    assert(exists|j: int| 0 <= j < keys.len() && keys[j] == k);
    let j = choose|j: int| 0 <= j < keys.len() && keys[j] == k;
    assert(j == i);
}

proof fn lemma_entries_map_push(keys: Seq<Seq<char>>, vals: Seq<FullType>, k: Seq<char>, v: FullType)
    requires
        distinct_keys(keys),
        keys.len() == vals.len(),
        !keys.contains(k),
    ensures
        distinct_keys(keys.push(k)),
        entries_map(keys.push(k), vals.push(v)) == entries_map(keys, vals).insert(k, v),
{
    let nk = keys.push(k);
    let nv = vals.push(v);
    assert forall|i: int, j: int| 0 <= i < nk.len() && 0 <= j < nk.len() && i != j implies nk[i]
        != nk[j] by {
        if i == keys.len() {
            assert(keys[j] != k);
        } else if j == keys.len() {
            assert(keys[i] != k);
        }
    }
    let m1 = entries_map(nk, nv);
    let m2 = entries_map(keys, vals).insert(k, v);
    assert forall|x: Seq<char>| m1.contains_key(x) <==> m2.contains_key(x) by {
        if m1.contains_key(x) {
            let i = choose|i: int| 0 <= i < nk.len() && nk[i] == x;
            if i < keys.len() {
                assert(keys[i] == x);
            }
        }
        if m2.contains_key(x) && x != k {
            let i = choose|i: int| 0 <= i < keys.len() && keys[i] == x;
            assert(nk[i] == x);
        }
        if x == k {
            assert(nk[keys.len() as int] == k);
        }
    }
    assert forall|x: Seq<char>| #[trigger] m1.contains_key(x) implies m1[x] == m2[x] by {
        let i = choose|i: int| 0 <= i < nk.len() && nk[i] == x;
        lemma_entries_map_at(nk, nv, i);
        if i < keys.len() {
            lemma_entries_map_at(keys, vals, i);
        }
    }
    assert(m1 =~= m2);
}

proof fn lemma_entries_map_update(keys: Seq<Seq<char>>, vals: Seq<FullType>, i: int, v: FullType)
    requires
        distinct_keys(keys),
        keys.len() == vals.len(),
        0 <= i < keys.len(),
    ensures
        entries_map(keys, vals.update(i, v)) == entries_map(keys, vals).insert(keys[i], v),
{
    let nv = vals.update(i, v);
    let m1 = entries_map(keys, nv);
    let m2 = entries_map(keys, vals).insert(keys[i], v);
    lemma_entries_map_at(keys, vals, i);
    assert forall|x: Seq<char>| m1.contains_key(x) <==> m2.contains_key(x) by {
        if m2.contains_key(x) && x != keys[i] {
            let j = choose|j: int| 0 <= j < keys.len() && keys[j] == x;
            assert(keys[j] == x);
        }
    }
    assert forall|x: Seq<char>| #[trigger] m1.contains_key(x) implies m1[x] == m2[x] by {
        let j = choose|j: int| 0 <= j < keys.len() && keys[j] == x;
        lemma_entries_map_at(keys, nv, j);
        lemma_entries_map_at(keys, vals, j);
    }
    assert(m1 =~= m2);
}

proof fn lemma_entries_map_absent(keys: Seq<Seq<char>>, vals: Seq<FullType>, k: Seq<char>)
    requires
        !keys.contains(k),
    ensures
        !entries_map(keys, vals).contains_key(k),
{
    if entries_map(keys, vals).contains_key(k) {
        let i = choose|i: int| 0 <= i < keys.len() && keys[i] == k;
        assert(keys.contains(k));
    }
}

/// The characters of each key.
pub open spec fn key_views(keys: Seq<Vec<char>>) -> Seq<Seq<char>> {
    keys.map_values(|k: Vec<char>| k@)
}

/// The types of the schema by name.
pub struct TypeMap<'a> {
    keys: Vec<Vec<char>>,
    types: Vec<&'a FullType>,
}

impl<'a> View for TypeMap<'a> {
    type V = Map<Seq<char>, FullType>;

    closed spec fn view(&self) -> Map<Seq<char>, FullType> {
        entries_map(key_views(self.keys@), derefs(self.types@))
    }
}

/// The position of `k` among the keys, if it is there.
pub(crate) fn position_of(keys: &Vec<Vec<char>>, k: &Vec<char>) -> (r: Option<usize>)
    ensures
        match r {
            Some(i) => i < keys.len() && keys@[i as int]@ == k@,
            None => !key_views(keys@).contains(k@),
        },
{
    let mut i: usize = 0;
    while i < keys.len()
        invariant
            i <= keys.len(),
            forall|j: int| 0 <= j < i ==> keys@[j]@ != k@,
        decreases keys.len() - i,
    {
        if chars_eq(&keys[i], k) {
            return Some(i);
        }
        i = i + 1;
    }
    proof {
        if key_views(keys@).contains(k@) {
            let j = choose|j: int| 0 <= j < key_views(keys@).len() && key_views(keys@)[j] == k@;
            assert(keys@[j]@ == k@);
        }
    }
    None
}

impl<'a> TypeMap<'a> {
    #[verifier::type_invariant]
    closed spec fn well_formed(self) -> bool {
        &&& self.keys.len() == self.types.len()
        &&& distinct_keys(key_views(self.keys@))
    }

    /// Builds the map by inserting the pairs in order; a later pair replaces
    /// an earlier one with the same name.
    pub fn from_pairs(pairs: Vec<(&'a str, &'a FullType)>) -> (r: Self)
        ensures
            r@ == pairs_to_map(pairs_view(pairs@)),
    {
        let mut keys: Vec<Vec<char>> = Vec::new();
        let mut types: Vec<&'a FullType> = Vec::new();
        let mut i: usize = 0;
        assert(entries_map(key_views(keys@), derefs(types@)) =~= pairs_to_map(
            pairs_view(pairs@).take(0),
        ));
        while i < pairs.len()
            invariant
                i <= pairs.len(),
                keys.len() == types.len(),
                distinct_keys(key_views(keys@)),
                entries_map(key_views(keys@), derefs(types@)) == pairs_to_map(
                    pairs_view(pairs@).take(i as int),
                ),
            decreases pairs.len() - i,
        {
            let (name, t) = pairs[i];
            let k = chars_of(name);
            assert(pairs_view(pairs@).take(i + 1).drop_last() =~= pairs_view(pairs@).take(
                i as int,
            ));
            assert(pairs_view(pairs@)[i as int] == (k@, *t));
            let ghost old_keys = key_views(keys@);
            let ghost old_types = derefs(types@);
            match position_of(&keys, &k) {
                Some(j) => {
                    proof {
                        lemma_entries_map_update(key_views(keys@), derefs(types@), j as int, *t);
                    }
                    types.set(j, t);
                    assert(derefs(types@) =~= old_types.update(j as int, *t));
                },
                None => {
                    proof {
                        lemma_entries_map_push(key_views(keys@), derefs(types@), k@, *t);
                    }
                    keys.push(k);
                    types.push(t);
                    assert(key_views(keys@) =~= old_keys.push(k@));
                    assert(derefs(types@) =~= old_types.push(*t));
                },
            }
            i = i + 1;
        }
        assert(pairs_view(pairs@).take(pairs.len() as int) =~= pairs_view(pairs@));
        TypeMap { keys, types }
    }

    /// The type stored under the name given by its characters.
    pub fn get_chars(&self, name: &Vec<char>) -> (r: Option<&'a FullType>)
        ensures
            match r {
                Some(t) => self@.contains_key(name@) && self@[name@] == *t,
                None => !self@.contains_key(name@),
            },
    {
        proof {
            use_type_invariant(self);
        }
        match position_of(&self.keys, name) {
            Some(i) => {
                proof {
                    lemma_entries_map_at(key_views(self.keys@), derefs(self.types@), i as int);
                }
                Some(self.types[i])
            },
            None => {
                proof {
                    lemma_entries_map_absent(key_views(self.keys@), derefs(self.types@), name@);
                }
                None
            },
        }
    }

    /// The type stored under `name`.
    pub fn get(&self, name: &str) -> (r: Option<&'a FullType>)
        ensures
            match r {
                Some(t) => self@.contains_key(name@) && self@[name@] == *t,
                None => !self@.contains_key(name@),
            },
    {
        let k = chars_of(name);
        self.get_chars(&k)
    }
}

} // verus!
