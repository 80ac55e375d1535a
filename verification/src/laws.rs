//! What the search selects and reports, stated over the inputs: which types
//! a term selects in each mode, which names become targets, which roots the
//! search starts from, and which paths get an output line.
use vstd::prelude::*;
use crate::args::SearchMode;
use crate::path::{StepView, capped, is_route, lemma_routes_are_found, walks, MAX_PATHS};
use crate::schema::{
    FullType, MatchConfig, SchemaTypes, entry_types, named_types, pairs_to_map, field_description_matches, field_name_matches, lowercase, matching_types,
    type_matches,
};
use crate::search::{
    nonempty_paths, output_lines, path_text, results_for_start, root_types, search_results, type_names,
};
use crate::path::step_text;
use crate::text::{
    is_white_space_spec, lemma_occurs_at_subrange, occurs_at, split_once_spec, trim_end_spec,
    trim_spec, trim_start_spec,
};

verus! {

/// `y` equals some run of consecutive characters of `x`.
proof fn lemma_contains_meaning(x: Seq<char>, y: Seq<char>)
    ensures
        crate::text::seq_contains(x, y) == exists|i: int|
            0 <= i && i + y.len() <= x.len() && #[trigger] x.subrange(i, i + y.len()) == y,
{
    if crate::text::seq_contains(x, y) {
        let i = choose|i: int| #[trigger] occurs_at(x, y, i);
        lemma_occurs_at_subrange(x, y, i);
    }
    if exists|i: int| 0 <= i && i + y.len() <= x.len() && #[trigger] x.subrange(i, i + y.len()) == y {
        let i = choose|i: int| 0 <= i && i + y.len() <= x.len() && #[trigger] x.subrange(i, i + y.len()) == y;
        lemma_occurs_at_subrange(x, y, i);
    }
}

/// What matching a text `a` against a term `b` means: after lower-casing
/// both when `ignore_case` is set, the term equals the text, or, with
/// `contains`, equals some run of consecutive characters of it.
pub proof fn lemma_accepts_meaning(config: MatchConfig, a: Seq<char>, b: Seq<char>)
    ensures
        !config.ignore_case && !config.contains ==> (config.accepts(a, b) <==> a == b),
        !config.ignore_case && config.contains ==> (config.accepts(a, b) <==> exists|i: int|
            0 <= i && i + b.len() <= a.len() && #[trigger] a.subrange(i, i + b.len()) == b),
        config.ignore_case && !config.contains ==> (config.accepts(a, b) <==> lowercase(a) == lowercase(b)),
        config.ignore_case && config.contains ==> (config.accepts(a, b) <==> exists|i: int|
            0 <= i && i + lowercase(b).len() <= lowercase(a).len() && #[trigger] lowercase(a).subrange(
                i,
                i + lowercase(b).len(),
            ) == lowercase(b)),
{
    lemma_contains_meaning(a, b);
    lemma_contains_meaning(lowercase(a), lowercase(b));
}

/// The type has a field, at any position, whose name the term matches.
proof fn lemma_field_mode_pred(config: MatchConfig, t: FullType, term: Seq<char>)
    ensures
        type_matches(SearchMode::Field, config, t, term) == (t.fields is Some && exists|i: int|
            0 <= i < t.fields->0.len() && (#[trigger] t.fields->0@[i]).name is Some && config.accepts(
                t.fields->0@[i].name->0@,
                term,
            )),
{
    if t.fields is Some {
        let fs = t.fields->0;
        if exists|i: int| 0 <= i < fs.len() && (#[trigger] fs@[i]).name is Some && config.accepts(fs@[i].name->0@, term) {
            let i = choose|i: int| 0 <= i < fs.len() && (#[trigger] fs@[i]).name is Some && config.accepts(fs@[i].name->0@, term);
            assert(field_name_matches(config, fs@[i], term));
        }
        if type_matches(SearchMode::Field, config, t, term) {
            let i = choose|i: int| 0 <= i < fs.len() && #[trigger] field_name_matches(config, fs@[i], term);
            assert(fs@[i].name is Some);
        }
    }
}

/// In field mode the term selects exactly the types, in order, that have a
/// field at any position whose name the term matches.
pub proof fn lemma_field_mode_selection(ts: Seq<FullType>, config: MatchConfig, term: Seq<char>)
    ensures
        matching_types(ts, SearchMode::Field, config, term) == ts.filter(
            |t: FullType|
                t.fields is Some && exists|i: int|
                    0 <= i < t.fields->0.len() && (#[trigger] t.fields->0@[i]).name is Some
                        && config.accepts(t.fields->0@[i].name->0@, term),
        ),
    decreases ts.len(),
{
    reveal(Seq::filter);
    if ts.len() > 0 {
        lemma_field_mode_selection(ts.drop_last(), config, term);
        lemma_field_mode_pred(config, ts.last(), term);
    }
}

/// In type mode the term selects exactly the named types, in order, whose
/// name it matches.
pub proof fn lemma_type_mode_selection(ts: Seq<FullType>, config: MatchConfig, term: Seq<char>)
    ensures
        matching_types(ts, SearchMode::Type, config, term) == ts.filter(
            |t: FullType| t.name is Some && config.accepts(t.name->0@, term),
        ),
    decreases ts.len(),
{
    reveal(Seq::filter);
    if ts.len() > 0 {
        lemma_type_mode_selection(ts.drop_last(), config, term);
    }
}

proof fn lemma_description_mode_pred(config: MatchConfig, t: FullType, term: Seq<char>)
    ensures
        type_matches(SearchMode::Description, config, t, term) == ((t.description is Some
            && config.accepts(t.description->0@, term)) || (t.fields is Some && exists|i: int|
            0 <= i < t.fields->0.len() && (#[trigger] t.fields->0@[i]).description is Some
                && config.accepts(t.fields->0@[i].description->0@, term))),
{
    if t.fields is Some {
        let fs = t.fields->0;
        if exists|i: int|
            0 <= i < fs.len() && (#[trigger] fs@[i]).description is Some && config.accepts(
                fs@[i].description->0@,
                term,
            ) {
            let i = choose|i: int|
                0 <= i < fs.len() && (#[trigger] fs@[i]).description is Some && config.accepts(
                    fs@[i].description->0@,
                    term,
                );
            assert(field_description_matches(config, fs@[i], term));
        }
        if exists|i: int| 0 <= i < fs.len() && #[trigger] field_description_matches(config, fs@[i], term) {
            let i = choose|i: int|
                0 <= i < fs.len() && #[trigger] field_description_matches(config, fs@[i], term);
            assert(fs@[i].description is Some);
        }
    }
}

/// In description mode the term selects exactly the types, in order, whose
/// own description it matches or that have a field, at any position, whose
/// description it matches; matching is `MatchConfig::accepts`, so with
/// `ignore_case` it compares the lower-case forms.
pub proof fn lemma_description_mode_selection(ts: Seq<FullType>, config: MatchConfig, term: Seq<char>)
    ensures
        matching_types(ts, SearchMode::Description, config, term) == ts.filter(
            |t: FullType|
                (t.description is Some && config.accepts(t.description->0@, term)) || (t.fields is Some
                    && exists|i: int|
                    0 <= i < t.fields->0.len() && (#[trigger] t.fields->0@[i]).description is Some
                        && config.accepts(t.fields->0@[i].description->0@, term)),
        ),
    decreases ts.len(),
{
    reveal(Seq::filter);
    if ts.len() > 0 {
        lemma_description_mode_selection(ts.drop_last(), config, term);
        lemma_description_mode_pred(config, ts.last(), term);
    }
}

/// The target names are the names of the named types, every kind of type
/// included, in order.
pub proof fn lemma_target_names(ts: Seq<FullType>)
    ensures
        type_names(ts) == ts.filter(|t: FullType| t.name is Some).map_values(
            |t: FullType| t.name->0@,
        ),
    decreases ts.len(),
{
    reveal(Seq::filter);
    if ts.len() > 0 {
        lemma_target_names(ts.drop_last());
        let f = ts.drop_last().filter(|t: FullType| t.name is Some);
        if ts.last().name is Some {
            assert(f.push(ts.last()).map_values(|t: FullType| t.name->0@) =~= f.map_values(
                |t: FullType| t.name->0@,
            ).push(ts.last().name->0@));
        }
    }
}

/// The paths that get an output line are exactly the paths with at least
/// one step, in order, and each gets the line `end: ` followed by its text.
pub proof fn lemma_output_lines(end: Seq<char>, ps: Seq<Seq<StepView>>)
    ensures
        nonempty_paths(ps) == ps.filter(|p: Seq<StepView>| p.len() > 0),
        output_lines(end, ps) == ps.filter(|p: Seq<StepView>| p.len() > 0).map_values(
            |p: Seq<StepView>| end + ": "@ + path_text(p),
        ),
    decreases ps.len(),
{
    reveal(Seq::filter);
    if ps.len() > 0 {
        lemma_output_lines(end, ps.drop_last());
        let f = ps.drop_last().filter(|p: Seq<StepView>| p.len() > 0);
        if ps.last().len() > 0 {
            assert(f.push(ps.last()).map_values(|p: Seq<StepView>| end + ": "@ + path_text(p))
                =~= f.map_values(|p: Seq<StepView>| end + ": "@ + path_text(p)).push(
                end + ": "@ + path_text(ps.last()),
            ));
        }
    }
}

/// The search starts from `Query` and then from `Mutation`: for each target
/// in order, the first half of the results holds the paths found from
/// `Query`, the second half those found from `Mutation`.
pub proof fn lemma_search_roots(tm: Map<Seq<char>, FullType>, ends: Seq<Seq<char>>)
    ensures
        search_results(tm, root_types(), ends).len() == 2 * ends.len(),
        forall|j: int|
            0 <= j < ends.len() ==> #[trigger] search_results(tm, root_types(), ends)[j] == (
                ends[j],
                capped(walks(tm, "Query"@, ends[j], Seq::empty())),
            ),
        forall|j: int|
            0 <= j < ends.len() ==> #[trigger] search_results(tm, root_types(), ends)[ends.len() + j]
                == (ends[j], capped(walks(tm, "Mutation"@, ends[j], Seq::empty()))),
{
    let roots = root_types();
    let q = seq!["Query"@];
    assert(roots.drop_last() =~= q);
    assert(q.drop_last() =~= Seq::<Seq<char>>::empty());
    assert(roots.last() == "Mutation"@);
    assert(q.last() == "Query"@);
    let s0 = search_results(tm, q.drop_last(), ends);
    assert(s0 == Seq::<(Seq<char>, Seq<Seq<StepView>>)>::empty());
    let fq = results_for_start(tm, "Query"@, ends);
    let fm = results_for_start(tm, "Mutation"@, ends);
    let s1 = search_results(tm, q, ends);
    assert(s1 == s0 + fq);
    assert(s1 =~= fq);
    let s2 = search_results(tm, roots, ends);
    assert(s2 == s1 + fm);
    assert(fq.len() == ends.len());
    assert(fm.len() == ends.len());
    assert forall|j: int| 0 <= j < ends.len() implies #[trigger] s2[j] == (
        ends[j],
        capped(walks(tm, "Query"@, ends[j], Seq::empty())),
    ) by {
        assert(s2[j] == fq[j]);
    }
    assert forall|j: int| 0 <= j < ends.len() implies #[trigger] s2[ends.len() + j] == (
        ends[j],
        capped(walks(tm, "Mutation"@, ends[j], Seq::empty())),
    ) by {
        assert(s2[ends.len() + j] == fm[j]);
    }
}

/// Every route from `Mutation` to a target is among the paths reported for
/// that target from `Mutation`, and every route from `Query` among those
/// reported from `Query`, unless `MAX_PATHS` paths were reported.
pub proof fn lemma_search_finds_routes(
    tm: Map<Seq<char>, FullType>,
    ends: Seq<Seq<char>>,
    j: int,
    q: Seq<StepView>,
)
    requires
        0 <= j < ends.len(),
    ensures
        is_route(tm, "Query"@, ends[j], q) && search_results(tm, root_types(), ends)[j].1.len()
            < MAX_PATHS ==> search_results(tm, root_types(), ends)[j].1.contains(q),
        is_route(tm, "Mutation"@, ends[j], q) && search_results(tm, root_types(), ends)[ends.len()
            + j].1.len() < MAX_PATHS ==> search_results(tm, root_types(), ends)[ends.len()
            + j].1.contains(q),
{
    lemma_search_roots(tm, ends);
    assert(search_results(tm, root_types(), ends)[j] == (ends[j], capped(walks(tm, "Query"@, ends[j], Seq::empty()))));
    assert(search_results(tm, root_types(), ends)[ends.len() + j] == (ends[j], capped(walks(tm, "Mutation"@, ends[j], Seq::empty()))));
    if is_route(tm, "Query"@, ends[j], q) && capped(walks(tm, "Query"@, ends[j], Seq::empty())).len() < MAX_PATHS {
        lemma_routes_are_found(tm, "Query"@, ends[j], q);
    }
    if is_route(tm, "Mutation"@, ends[j], q) && capped(walks(tm, "Mutation"@, ends[j], Seq::empty())).len() < MAX_PATHS {
        lemma_routes_are_found(tm, "Mutation"@, ends[j], q);
    }
}


/// Splitting at the first `c`: the text is the part before, `c`, and the
/// part after, and the part before holds no `c`; without a `c` there is no
/// split.
pub proof fn lemma_split_once_meaning(s: Seq<char>, c: char)
    ensures
        match split_once_spec(s, c) {
            Some((a, b)) => s == a + seq![c] + b && !a.contains(c),
            None => !s.contains(c),
        },
{
    if exists|i: int| 0 <= i < s.len() && s[i] == c {
        let i = choose|i: int| 0 <= i < s.len() && s[i] == c && forall|j: int| 0 <= j < i ==> s[j] != c;
        assert(0 <= i < s.len() && s[i] == c && forall|j: int| 0 <= j < i ==> s[j] != c) by {
            lemma_first_occurrence(s, c);
        }
        let a = s.take(i);
        let b = s.skip(i + 1);
        assert(split_once_spec(s, c) == Some((a, b)));
        assert(s =~= a + seq![c] + b);
        assert(!a.contains(c)) by {
            if a.contains(c) {
                let j = choose|j: int| 0 <= j < a.len() && a[j] == c;
                assert(s[j] == c);
            }
        }
    } else {
        assert(!s.contains(c)) by {
            if s.contains(c) {
                let j = choose|j: int| 0 <= j < s.len() && s[j] == c;
                assert(s[j] == c);
            }
        }
    }
}

/// A text holding `c` has a first `c`.
proof fn lemma_first_occurrence(s: Seq<char>, c: char)
    requires
        exists|i: int| 0 <= i < s.len() && s[i] == c,
    ensures
        exists|i: int| 0 <= i < s.len() && s[i] == c && forall|j: int| 0 <= j < i ==> s[j] != c,
    decreases s.len(),
{
    if s.last() == c && !(exists|i: int| 0 <= i < s.len() - 1 && s[i] == c) {
        let n = s.len() - 1;
        assert(0 <= n < s.len() && s[n] == c && forall|j: int| 0 <= j < n ==> s[j] != c);
    } else {
        let t = s.drop_last();
        let k = choose|i: int| 0 <= i < s.len() && s[i] == c;
        if k == s.len() - 1 {
            let m = choose|i: int| 0 <= i < s.len() - 1 && s[i] == c;
            assert(t[m] == c);
        } else {
            assert(t[k] == c);
        }
        lemma_first_occurrence(t, c);
        let m = choose|i: int| 0 <= i < t.len() && t[i] == c && forall|j: int| 0 <= j < i ==> t[j] != c;
        assert(0 <= m < s.len() && s[m] == c && forall|j: int| 0 <= j < m ==> s[j] != c) by {
            assert forall|j: int| 0 <= j < m implies s[j] != c by {
                assert(s[j] == t[j]);
            }
        }
    }
}

proof fn trim_start_index(s: Seq<char>) -> (lo: int)
    ensures
        0 <= lo <= s.len(),
        trim_start_spec(s) == s.skip(lo),
        forall|j: int| 0 <= j < lo ==> is_white_space_spec(#[trigger] s[j]),
        lo < s.len() ==> !is_white_space_spec(s[lo]),
    decreases s.len(),
{
    if s.len() > 0 && is_white_space_spec(s[0]) {
        let k = trim_start_index(s.drop_first());
        assert(s.drop_first().skip(k) =~= s.skip(k + 1));
        assert forall|j: int| 0 <= j < k + 1 implies is_white_space_spec(#[trigger] s[j]) by {
            if j > 0 {
                assert(s[j] == s.drop_first()[j - 1]);
            }
        }
        if k + 1 < s.len() {
            assert(s[k + 1] == s.drop_first()[k]);
        }
        k + 1
    } else {
        assert(s.skip(0) =~= s);
        0
    }
}

proof fn trim_end_index(s: Seq<char>) -> (hi: int)
    ensures
        0 <= hi <= s.len(),
        trim_end_spec(s) == s.take(hi),
        forall|j: int| hi <= j < s.len() ==> is_white_space_spec(#[trigger] s[j]),
        hi > 0 ==> !is_white_space_spec(s[hi - 1]),
    decreases s.len(),
{
    if s.len() > 0 && is_white_space_spec(s.last()) {
        let k = trim_end_index(s.drop_last());
        assert(s.drop_last().take(k) =~= s.take(k));
        if k > 0 {
            assert(s[k - 1] == s.drop_last()[k - 1]);
        }
        assert forall|j: int| k <= j < s.len() implies is_white_space_spec(#[trigger] s[j]) by {
            if j < s.len() - 1 {
                assert(s[j] == s.drop_last()[j]);
            }
        }
        k
    } else {
        assert(s.take(s.len() as int) =~= s);
        s.len() as int
    }
}

/// Trimming removes exactly the white space at both ends: the result is a
/// run of the text, everything cut before and after it is white space, and
/// a non-empty result starts and ends with a character that is not.
pub proof fn lemma_trim_meaning(s: Seq<char>)
    ensures
        exists|lo: int, hi: int|
            0 <= lo <= hi <= s.len() && #[trigger] s.subrange(lo, hi) == trim_spec(s) && (forall|j: int|
                0 <= j < lo ==> is_white_space_spec(#[trigger] s[j])) && (forall|j: int|
                hi <= j < s.len() ==> is_white_space_spec(#[trigger] s[j])) && (lo < hi
                ==> !is_white_space_spec(s[lo]) && !is_white_space_spec(s[hi - 1])),
{
    let lo = trim_start_index(s);
    let t = s.skip(lo);
    let h = trim_end_index(t);
    let hi = lo + h;
    assert(t.take(h) =~= s.subrange(lo, hi));
    assert forall|j: int| hi <= j < s.len() implies is_white_space_spec(#[trigger] s[j]) by {
        assert(s[j] == t[j - lo]);
    }
    if lo < hi {
        assert(s[lo] == t[0]);
        assert(s[hi - 1] == t[h - 1]);
    }
    assert(0 <= lo <= hi <= s.len() && s.subrange(lo, hi) == trim_spec(s));
}

/// A one-step path is written as the type name, a dot and the field name.
pub proof fn lemma_path_text_step(s: StepView)
    ensures
        path_text(seq![s]) == s.0 + "."@ + s.1,
{
}

/// Two non-empty paths written one after the other are joined by ` -> `.
pub proof fn lemma_path_text_join(p: Seq<StepView>, q: Seq<StepView>)
    requires
        p.len() > 0,
        q.len() > 0,
    ensures
        path_text(p + q) == path_text(p) + " -> "@ + path_text(q),
    decreases q.len(),
{
    if q.len() == 1 {
        assert((p + q).drop_last() =~= p);
        assert((p + q).last() == q[0]);
    } else {
        assert((p + q).drop_last() =~= p + q.drop_last());
        assert((p + q).last() == q.last());
        lemma_path_text_join(p, q.drop_last());
        assert(path_text(p) + " -> "@ + path_text(q.drop_last()) + " -> "@ + step_text(q.last())
            =~= path_text(p) + " -> "@ + (path_text(q.drop_last()) + " -> "@ + step_text(q.last())));
    }
}

/// Adding a pair to the pairs a type map is built from makes its key map to
/// its value, whatever came before, and leaves every other key as it was.
pub proof fn lemma_later_pair_wins(
    pairs: Seq<(Seq<char>, FullType)>,
    k: Seq<char>,
    v: FullType,
    other: Seq<char>,
)
    ensures
        pairs_to_map(pairs.push((k, v))).contains_key(k),
        pairs_to_map(pairs.push((k, v)))[k] == v,
        other != k ==> pairs_to_map(pairs.push((k, v))).contains_key(other) == pairs_to_map(
            pairs,
        ).contains_key(other),
        other != k && pairs_to_map(pairs).contains_key(other) ==> pairs_to_map(pairs.push((k, v)))[other]
            == pairs_to_map(pairs)[other],
{
    assert(pairs.push((k, v)).drop_last() =~= pairs);
}

/// The types of a schema's list are those of its non-empty entries, in order.
pub proof fn lemma_entry_types(v: Seq<Option<SchemaTypes>>)
    ensures
        entry_types(v) == v.filter(|o: Option<SchemaTypes>| o is Some).map_values(
            |o: Option<SchemaTypes>| o->0.full_type,
        ),
    decreases v.len(),
{
    reveal(Seq::filter);
    if v.len() > 0 {
        lemma_entry_types(v.drop_last());
        let f = v.drop_last().filter(|o: Option<SchemaTypes>| o is Some);
        if v.last() is Some {
            assert(f.push(v.last()).map_values(|o: Option<SchemaTypes>| o->0.full_type) =~= f.map_values(
                |o: Option<SchemaTypes>| o->0.full_type,
            ).push(v.last()->0.full_type));
        }
    }
}

/// The pairs a type map is built from are the named types with their names,
/// in order.
pub proof fn lemma_named_types(ts: Seq<FullType>)
    ensures
        named_types(ts) == ts.filter(|t: FullType| t.name is Some).map_values(
            |t: FullType| (t.name->0@, t),
        ),
    decreases ts.len(),
{
    reveal(Seq::filter);
    if ts.len() > 0 {
        lemma_named_types(ts.drop_last());
        let f = ts.drop_last().filter(|t: FullType| t.name is Some);
        if ts.last().name is Some {
            assert(f.push(ts.last()).map_values(|t: FullType| (t.name->0@, t)) =~= f.map_values(
                |t: FullType| (t.name->0@, t),
            ).push((ts.last().name->0@, ts.last())));
        }
    }
}

} // verus!
