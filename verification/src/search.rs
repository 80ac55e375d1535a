//! The search as a whole: which types are targets, which paths lead to them
//! from the root operation types, and how the paths are written out.
use vstd::prelude::*;
use crate::args::SearchMode;
use crate::path::{
    AllPaths, Path, StepView, capped, find_all_paths, path_view, paths_view, step_renders, step_text,
    walks,
};
use crate::schema::{
    FullType, MatchConfig, Schema, TypeMap, derefs, get_schema_type_map, get_schema_types_by_description,
    get_schema_types_by_field, get_schema_types_by_name, matching_types, named_types, pairs_to_map,
    pairs_view, schema_types,
};

verus! {

/// A path written out: its steps joined by ` -> `.
pub open spec fn path_text(p: Seq<StepView>) -> Seq<char>
    decreases p.len(),
{
    if p.len() == 0 {
        Seq::empty()
    } else if p.len() == 1 {
        step_text(p[0])
    } else {
        path_text(p.drop_last()) + " -> "@ + step_text(p.last())
    }
}

/// The output line of a path that reaches `end`.
pub open spec fn line_text(end: Seq<char>, p: Seq<StepView>) -> Seq<char> {
    end + ": "@ + path_text(p)
}

/// The output lines for the paths that reach `end`: one per non-empty path.
pub open spec fn output_lines(end: Seq<char>, ps: Seq<Seq<StepView>>) -> Seq<Seq<char>>
    decreases ps.len(),
{
    if ps.len() == 0 {
        Seq::empty()
    } else {
        let rest = output_lines(end, ps.drop_last());
        if ps.last().len() > 0 {
            rest.push(line_text(end, ps.last()))
        } else {
            rest
        }
    }
}

/// The characters of each string.
pub open spec fn strings_view(s: Seq<String>) -> Seq<Seq<char>> {
    s.map_values(|x: String| x@)
}

/// The characters of each string slice.
pub open spec fn strs_view(s: Seq<&str>) -> Seq<Seq<char>> {
    s.map_values(|x: &str| x@)
}

/// Texts joined by ` -> `.
pub open spec fn join_arrows(ts: Seq<Seq<char>>) -> Seq<char>
    decreases ts.len(),
{
    if ts.len() == 0 {
        Seq::empty()
    } else if ts.len() == 1 {
        ts[0]
    } else {
        join_arrows(ts.drop_last()) + " -> "@ + ts.last()
    }
}

/// `r` is the path written out: the texts of its steps, each as
/// `step_renders` states it, joined by ` -> `.
pub open spec fn path_renders(p: Seq<StepView>, color: bool, r: Seq<char>) -> bool {
    exists|ts: Seq<Seq<char>>|
        #![trigger join_arrows(ts)]
        ts.len() == p.len() && (forall|i: int| 0 <= i < p.len() ==> step_renders(p[i], color, #[trigger] ts[i]))
            && r == join_arrows(ts)
}

/// A path written out, its steps joined by ` -> `; with `color`, each step's
/// names are colored.
pub fn get_path_str(path: &Path, color: bool) -> (r: String)
    ensures
        path_renders(path_view(path@), color, r@),
        !color ==> r@ == path_text(path_view(path@)),
        r@.len() == 0 <==> path.len() == 0,
{
    let mut r = String::new();
    let mut i: usize = 0;
    let ghost mut ts: Seq<Seq<char>> = Seq::empty();
    while i < path.len()
        invariant
            i <= path.len(),
            !color ==> r@ == path_text(path_view(path@).take(i as int)),
            r@.len() == 0 <==> i == 0,
            ts.len() == i,
            forall|j: int| 0 <= j < i ==> step_renders(path_view(path@)[j], color, #[trigger] ts[j]),
            r@ == join_arrows(ts),
        decreases path.len() - i,
    {
        let ghost before = r@;
        if i > 0 {
            r.append(" -> ");
        }
        let step = path[i].as_string(color);
        r.append(step.as_str());
        proof {
            let t = path_view(path@).take(i + 1);
            assert(t.drop_last() =~= path_view(path@).take(i as int));
            assert(t.last() == path@[i as int]@);
            if i == 0 {
                assert(path_view(path@).take(0) =~= Seq::<StepView>::empty());
                assert(r@ =~= before + step@);
            }
            let ts2 = ts.push(step@);
            assert(ts2.drop_last() =~= ts);
            assert(path_view(path@)[i as int] == path@[i as int]@);
            ts = ts2;
        }
        i = i + 1;
    }
    assert(path_view(path@).take(path.len() as int) =~= path_view(path@));
    assert(ts.len() == path_view(path@).len() && (forall|j: int|
        0 <= j < path_view(path@).len() ==> step_renders(path_view(path@)[j], color, #[trigger] ts[j]))
        && r@ == join_arrows(ts));
    r
}

/// The paths that have at least one step, in order.
pub open spec fn nonempty_paths(ps: Seq<Seq<StepView>>) -> Seq<Seq<StepView>>
    decreases ps.len(),
{
    if ps.len() == 0 {
        Seq::empty()
    } else {
        let rest = nonempty_paths(ps.drop_last());
        if ps.last().len() > 0 {
            rest.push(ps.last())
        } else {
            rest
        }
    }
}

/// `line` is the output line of path `p` to `end`: the target, `: `, and the
/// path written out as `path_renders` states it.
pub open spec fn line_renders(end: Seq<char>, p: Seq<StepView>, color: bool, line: Seq<char>) -> bool {
    exists|x: Seq<char>| #[trigger] path_renders(p, color, x) && line == end + ": "@ + x
}

/// The output lines for the paths that reach `end_type`: `end_type: path`
/// for each path that has at least one step.
pub fn path_lines(paths: &AllPaths, end_type: &str, color: bool) -> (r: Vec<String>)
    ensures
        !color ==> strings_view(r@) == output_lines(end_type@, paths_view(paths@)),
        r.len() == nonempty_paths(paths_view(paths@)).len(),
        forall|k: int|
            0 <= k < r.len() ==> line_renders(
                end_type@,
                nonempty_paths(paths_view(paths@))[k],
                color,
                (#[trigger] r@[k])@,
            ),
{
    let mut r: Vec<String> = Vec::new();
    let mut i: usize = 0;
    while i < paths.len()
        invariant
            i <= paths.len(),
            !color ==> strings_view(r@) == output_lines(end_type@, paths_view(paths@).take(i as int)),
            r.len() == nonempty_paths(paths_view(paths@).take(i as int)).len(),
            forall|k: int|
                0 <= k < r.len() ==> line_renders(
                    end_type@,
                    nonempty_paths(paths_view(paths@).take(i as int))[k],
                    color,
                    (#[trigger] r@[k])@,
                ),
        decreases paths.len() - i,
    {
        let ghost before = r@;
        assert(paths_view(paths@).take(i + 1).drop_last() =~= paths_view(paths@).take(i as int));
        assert(paths_view(paths@).take(i + 1).last() == path_view(paths@[i as int]@));
        let path_str = get_path_str(&paths[i], color);
        if path_str.as_str().unicode_len() > 0 {
            let mut line = String::from_str(end_type);
            line.append(": ");
            line.append(path_str.as_str());
            proof {
                assert(path_renders(path_view(paths@[i as int]@), color, path_str@));
                assert(line@ == end_type@ + ": "@ + path_str@);
            }
            r.push(line);
            assert(strings_view(r@) =~= strings_view(before).push(line@));
        }
        i = i + 1;
    }
    assert(paths_view(paths@).take(paths.len() as int) =~= paths_view(paths@));
    r
}

/// The paths found to each target type from one start type, target by target.
pub open spec fn results_for_start(
    tm: Map<Seq<char>, FullType>,
    start: Seq<char>,
    ends: Seq<Seq<char>>,
) -> Seq<(Seq<char>, Seq<Seq<StepView>>)> {
    ends.map_values(|e: Seq<char>| (e, capped(walks(tm, start, e, Seq::empty()))))
}

/// The paths found for each pair of start type and target type, start by
/// start, and for each start target by target.
pub open spec fn search_results(
    tm: Map<Seq<char>, FullType>,
    starts: Seq<Seq<char>>,
    ends: Seq<Seq<char>>,
) -> Seq<(Seq<char>, Seq<Seq<StepView>>)>
    decreases starts.len(),
{
    if starts.len() == 0 {
        Seq::empty()
    } else {
        search_results(tm, starts.drop_last(), ends) + results_for_start(tm, starts.last(), ends)
    }
}

/// Each target with the characters of its paths.
pub open spec fn results_view(r: Seq<(&str, AllPaths)>) -> Seq<(Seq<char>, Seq<Seq<StepView>>)> {
    r.map_values(|x: (&str, AllPaths)| (x.0@, paths_view(x.1@)))
}

/// For each start type and each target type, in that order, the target with
/// the paths that lead to it from the start.
pub fn search_paths<'a>(start_types: &[&str], end_types: &[&'a str], type_map: &TypeMap) -> (r: Vec<
    (&'a str, AllPaths),
>)
    ensures
        results_view(r@) == search_results(type_map@, strs_view(start_types@), strs_view(end_types@)),
{
    let mut r: Vec<(&'a str, AllPaths)> = Vec::new();
    let mut i: usize = 0;
    while i < start_types.len()
        invariant
            i <= start_types.len(),
            results_view(r@) == search_results(
                type_map@,
                strs_view(start_types@).take(i as int),
                strs_view(end_types@),
            ),
        decreases start_types.len() - i,
    {
        let start = start_types[i];
        let ghost base = results_view(r@);
        let ghost ends = strs_view(end_types@);
        let mut j: usize = 0;
        while j < end_types.len()
            invariant
                i < start_types.len(),
                start == start_types@[i as int],
                j <= end_types.len(),
                ends == strs_view(end_types@),
                results_view(r@) == base + results_for_start(type_map@, start@, ends.take(j as int)),
            decreases end_types.len() - j,
        {
            let end = end_types[j];
            let paths = find_all_paths(type_map, start, end);
            let ghost prev = results_view(r@);
            r.push((end, paths));
            assert(results_view(r@) =~= prev.push((end@, paths_view(paths@))));
            assert(results_for_start(type_map@, start@, ends.take(j + 1)) =~= results_for_start(
                type_map@,
                start@,
                ends.take(j as int),
            ).push((end@, paths_view(paths@))));
            j = j + 1;
        }
        assert(ends.take(end_types.len() as int) =~= ends);
        assert(strs_view(start_types@).take(i + 1).drop_last() =~= strs_view(start_types@).take(
            i as int,
        ));
        i = i + 1;
    }
    assert(strs_view(start_types@).take(start_types.len() as int) =~= strs_view(start_types@));
    r
}

/// The names of the named types among `ts`, in order.
pub open spec fn type_names(ts: Seq<FullType>) -> Seq<Seq<char>>
    decreases ts.len(),
{
    if ts.len() == 0 {
        Seq::empty()
    } else {
        let rest = type_names(ts.drop_last());
        match ts.last().name {
            Some(n) => rest.push(n@),
            None => rest,
        }
    }
}

/// The names of the types that the search term selects in the given mode.
pub fn get_end_types<'a>(schema: &'a Schema, search: &str, mode: SearchMode, config: MatchConfig) -> (r: Vec<
    &'a str,
>)
    ensures
        strs_view(r@) == type_names(matching_types(schema_types(*schema), mode, config, search@)),
{
    let found = match mode {
        SearchMode::Field => get_schema_types_by_field(schema, search, config),
        SearchMode::Description => get_schema_types_by_description(schema, search, config),
        SearchMode::Type => get_schema_types_by_name(schema, search, config),
    };
    let mut r: Vec<&'a str> = Vec::new();
    let mut i: usize = 0;
    while i < found.len()
        invariant
            i <= found.len(),
            strs_view(r@) == type_names(derefs(found@).take(i as int)),
        decreases found.len() - i,
    {
        assert(derefs(found@).take(i + 1).drop_last() =~= derefs(found@).take(i as int));
        let t: &'a FullType = found[i];
        match &t.name {
            Some(n) => {
                r.push(n.as_str());
            },
            None => {},
        }
        assert(strs_view(r@) =~= type_names(derefs(found@).take(i + 1)));
        i = i + 1;
    }
    assert(derefs(found@).take(found.len() as int) =~= derefs(found@));
    r
}

/// The type map of a schema: its named types by name, a later type replacing
/// an earlier one of the same name.
pub open spec fn schema_type_map(s: Schema) -> Map<Seq<char>, FullType> {
    pairs_to_map(named_types(schema_types(s)))
}

/// The root operation types that paths start from.
pub open spec fn root_types() -> Seq<Seq<char>> {
    seq!["Query"@, "Mutation"@]
}

/// Searches the schema: for each root operation type (`Query`, then
/// `Mutation`) and each type that the term selects, the paths that lead
/// from the root to that type.
pub fn search_schema<'a>(schema: &'a Schema, search: &str, mode: SearchMode, config: MatchConfig) -> (r: Vec<
    (&'a str, AllPaths),
>)
    ensures
        results_view(r@) == search_results(
            schema_type_map(*schema),
            root_types(),
            type_names(matching_types(schema_types(*schema), mode, config, search@)),
        ),
{
    let type_map = TypeMap::from_pairs(get_schema_type_map(schema));
    let end_types = get_end_types(schema, search, mode, config);
    let starts: Vec<&str> = vec!["Query", "Mutation"];
    assert(strs_view(starts@) =~= root_types());
    search_paths(starts.as_slice(), end_types.as_slice(), &type_map)
}

} // verus!
