//! Enumeration of the field paths that lead from one type to another.
use vstd::prelude::*;
use crate::schema::{
    FullType, FullTypeFields, TypeMap, is_composite, is_composite_spec, key_views, position_of,
    unwrap_type_name, unwrap_type_name_spec,
};
use crate::text::{chars_eq, chars_of};

verus! {

/// The longest path that is followed.
pub const MAX_DEPTH: usize = 10;

/// The most paths that are collected.
pub const MAX_PATHS: usize = 1_000_000;

/// One step of a path: leaving `from_type` through its field `from_field`.
#[derive(Clone, Debug, PartialEq, Eq, PartialOrd, Ord, Hash)]
pub struct PathStep {
    pub from_type: String,
    pub from_field: String,
}

/// A step as the characters of its type name and of its field name.
pub type StepView = (Seq<char>, Seq<char>);

impl View for PathStep {
    type V = StepView;

    open spec fn view(&self) -> StepView {
        (self.from_type@, self.from_field@)
    }
}

/// A sequence of steps.
pub type Path = Vec<PathStep>;

/// A list of paths.
pub type AllPaths = Vec<Path>;

/// The steps of a path as plain values.
pub open spec fn path_view(p: Seq<PathStep>) -> Seq<StepView> {
    p.map_values(|s: PathStep| s@)
}

/// The paths of a list as plain values.
pub open spec fn paths_view(ps: Seq<Vec<PathStep>>) -> Seq<Seq<StepView>> {
    ps.map_values(|p: Vec<PathStep>| path_view(p@))
}

/// The edge that a field contributes: its name and the name of the type it
/// leads to, when the field has a name and a resolvable type.
pub open spec fn field_edge(f: FullTypeFields) -> Option<(Seq<char>, Seq<char>)> {
    match f.type_ {
        Some(ft) => match f.name {
            Some(n) => match unwrap_type_name_spec(ft.type_ref) {
                Some(to) => Some((n@, to)),
                None => None,
            },
            None => None,
        },
        None => None,
    }
}

/// The fields of a type; none when it lists no fields.
pub open spec fn type_fields(t: FullType) -> Seq<FullTypeFields> {
    match t.fields {
        Some(fs) => fs@,
        None => Seq::empty(),
    }
}

/// The types that the steps of a path leave from.
pub open spec fn from_types(prefix: Seq<StepView>) -> Seq<Seq<char>> {
    prefix.map_values(|s: StepView| s.0)
}

/// The paths that a depth-first search finds, in the order it finds them,
/// when it reaches type `cur` having walked `prefix`: `prefix` itself when
/// `cur` is the target; nothing when the path is already `MAX_DEPTH` steps
/// long, when `cur` was already left on this path, or when `cur` is not a
/// known object, interface or union; otherwise the paths through each field
/// of `cur`, field by field.
pub open spec fn walks(
    tm: Map<Seq<char>, FullType>,
    cur: Seq<char>,
    end: Seq<char>,
    prefix: Seq<StepView>,
) -> Seq<Seq<StepView>>
    decreases MAX_DEPTH - prefix.len(), 1int, 0int,
{
    if cur == end {
        seq![prefix]
    } else if prefix.len() >= MAX_DEPTH {
        Seq::empty()
    } else if from_types(prefix).contains(cur) {
        Seq::empty()
    } else if !(tm.contains_key(cur) && is_composite_spec(tm[cur])) {
        Seq::empty()
    } else {
        walks_through_fields(tm, cur, end, prefix, type_fields(tm[cur]), 0)
    }
}

/// The paths found through the fields `fields[i..]` of type `cur`, in order.
pub open spec fn walks_through_fields(
    tm: Map<Seq<char>, FullType>,
    cur: Seq<char>,
    end: Seq<char>,
    prefix: Seq<StepView>,
    fields: Seq<FullTypeFields>,
    i: nat,
) -> Seq<Seq<StepView>>
    decreases MAX_DEPTH - prefix.len(), 0int, fields.len() - i,
{
    if i >= fields.len() || prefix.len() >= MAX_DEPTH {
        Seq::empty()
    } else {
        let rest = walks_through_fields(tm, cur, end, prefix, fields, i + 1);
        match field_edge(fields[i as int]) {
            Some(e) => walks(tm, e.1, end, prefix.push((cur, e.0))) + rest,
            None => rest,
        }
    }
}

/// `s`, cut to its first `MAX_PATHS` elements.
pub open spec fn capped<A>(s: Seq<A>) -> Seq<A> {
    if s.len() <= MAX_PATHS {
        s
    } else {
        s.take(MAX_PATHS as int)
    }
}

proof fn lemma_capped_append<A>(a: Seq<A>, b: Seq<A>, c: Seq<A>)
    ensures
        capped(capped(a + b) + c) == capped(a + b + c),
{
    if (a + b).len() <= MAX_PATHS {
        assert(a + b + c =~= (a + b) + c);
    } else {
        assert(capped(capped(a + b) + c) =~= capped(a + b + c));
    }
}

/// Capping an extension keeps what was already there, adds nothing to a list
/// that is already full, and never exceeds `MAX_PATHS`.
pub proof fn lemma_capped_keeps_prefix<A>(a: Seq<A>, b: Seq<A>)
    requires
        a.len() <= MAX_PATHS,
    ensures
        capped(a + b).len() <= MAX_PATHS,
        a.len() <= capped(a + b).len(),
        capped(a + b).take(a.len() as int) == a,
        a.len() == MAX_PATHS ==> capped(a + b) == a,
{
    assert(capped(a + b).take(a.len() as int) =~= a);
    if a.len() == MAX_PATHS {
        lemma_capped_full(a, b);
    }
}

proof fn lemma_capped_full<A>(a: Seq<A>, b: Seq<A>)
    requires
        a.len() == MAX_PATHS,
    ensures
        capped(a + b) == a,
{
    assert(capped(a + b) =~= a);
}

/// A step written out: the type name, a dot, the field name.
pub open spec fn step_text(s: StepView) -> Seq<char> {
    s.0 + "."@ + s.1
}

/// The terminal sequence that ends a style.
pub open spec fn reset_code() -> Seq<char> {
    seq!['\u{1b}', '[', '0', 'm']
}

/// The terminal sequence that starts red text.
pub open spec fn red_code() -> Seq<char> {
    seq!['\u{1b}', '[', '3', '1', 'm']
}

/// The terminal sequence that starts blue text.
pub open spec fn blue_code() -> Seq<char> {
    seq!['\u{1b}', '[', '3', '4', 'm']
}

/// `s` with `style` inserted after each reset sequence it holds, so that the
/// style carries on after an inner reset.
pub open spec fn escape_resets(s: Seq<char>, style: Seq<char>) -> Seq<char>
    decreases s.len(),
{
    if s.len() == 0 {
        s
    } else if reset_code().len() <= s.len() && s.take(4) == reset_code() {
        reset_code() + style + escape_resets(s.skip(4), style)
    } else {
        seq![s[0]] + escape_resets(s.drop_first(), style)
    }
}

/// `r` is `s` as colored writes it with `style`: unchanged when coloring is
/// off, else the style, `s` with its inner resets escaped, and a reset.
pub open spec fn painted(s: Seq<char>, style: Seq<char>, r: Seq<char>) -> bool {
    r == s || r == style + escape_resets(s, style) + reset_code()
}

/// Calls `colored::Colorize::red` and renders the colored string. Trusted:
/// the result is `s` unchanged when colored's switch is off (set from
/// `NO_COLOR`, `CLICOLOR`, `CLICOLOR_FORCE` and whether standard output is a
/// terminal), else the red style code, `s` with the style re-inserted after
/// each inner reset, and a reset (colored's `Display` for `ColoredString`).
/// Which of the two comes back is left open; the statement assumes the switch
/// is not changed by another thread during the call, which nothing here does.
#[verifier::external_body]
fn paint_red(s: &str) -> (r: String)
    ensures
        painted(s@, red_code(), r@),
{
    format!("{}", colored::Colorize::red(s))
}

/// Calls `colored::Colorize::blue` and renders the colored string. Trusted as
/// `paint_red` is, with the blue style code.
#[verifier::external_body]
fn paint_blue(s: &str) -> (r: String)
    ensures
        painted(s@, blue_code(), r@),
{
    format!("{}", colored::Colorize::blue(s))
}

/// `t` is the step written with its type name painted red and its field name
/// painted blue, a dot between them.
pub open spec fn colored_step_text(s: StepView, t: Seq<char>) -> bool {
    exists|a: Seq<char>, b: Seq<char>|
        #![trigger painted(s.0, red_code(), a), painted(s.1, blue_code(), b)]
        painted(s.0, red_code(), a) && painted(s.1, blue_code(), b) && t == a + "."@ + b
}

/// `t` is the step written out, colored or not.
pub open spec fn step_renders(s: StepView, color: bool, t: Seq<char>) -> bool {
    if color {
        colored_step_text(s, t)
    } else {
        t == step_text(s)
    }
}

impl PathStep {
    /// A step out of `from_type` through its field `from_field`.
    pub fn new(from_type: &str, from_field: &str) -> (r: Self)
        ensures
            r@ == (from_type@, from_field@),
    {
        PathStep { from_type: String::from_str(from_type), from_field: String::from_str(from_field) }
    }

    /// The step written `from_type.from_field`, the two names colored red and
    /// blue when `color` is set.
    pub fn as_string(&self, color: bool) -> (r: String)
        ensures
            step_renders(self@, color, r@),
            !color ==> r@ == step_text(self@),
            r@.len() > 0,
    {
        let mut r = if color {
            paint_red(self.from_type.as_str())
        } else {
            self.from_type.clone()
        };
        let b = if color {
            paint_blue(self.from_field.as_str())
        } else {
            self.from_field.clone()
        };
        let ghost a = r@;
        r.append(".");
        r.append(b.as_str());
        proof {
            reveal_strlit(".");
            if color {
                assert(painted(self@.0, red_code(), a) && painted(self@.1, blue_code(), b@)
                    && r@ == a + "."@ + b@);
            }
        }
        r
    }

    /// A copy of this step.
    fn duplicate(&self) -> (r: Self)
        ensures
            r@ == self@,
    {
        PathStep { from_type: self.from_type.clone(), from_field: self.from_field.clone() }
    }
}

/// A copy of a path.
fn copy_path(p: &Vec<PathStep>) -> (r: Vec<PathStep>)
    ensures
        path_view(r@) == path_view(p@),
{
    let mut r: Vec<PathStep> = Vec::new();
    let mut i: usize = 0;
    while i < p.len()
        invariant
            i <= p.len(),
            r.len() == i,
            path_view(r@) == path_view(p@).take(i as int),
        decreases p.len() - i,
    {
        let step = p[i].duplicate();
        let ghost before = r@;
        r.push(step);
        assert(r@ =~= before.push(step));
        assert(path_view(r@) =~= path_view(p@).take(i + 1)) by {
            assert forall|k: int| 0 <= k < i + 1 implies #[trigger] path_view(r@)[k] == path_view(
                p@,
            )[k] by {
                if k < i {
                    assert(r@[k] == before[k]);
                    assert(path_view(before)[k] == path_view(p@).take(i as int)[k]);
                } else {
                    assert(r@[k] == step);
                }
            }
        }
        i = i + 1;
    }
    assert(path_view(p@).take(p.len() as int) =~= path_view(p@));
    r
}

/// The edge of a field: its name and the name of the type it leads to.
fn field_edge_exec(f: &FullTypeFields) -> (r: Option<(&str, &str)>)
    ensures
        match r {
            Some((n, to)) => field_edge(*f) == Some((n@, to@)),
            None => field_edge(*f) is None,
        },
{
    match &f.type_ {
        Some(ft) => match &f.name {
            Some(n) => match unwrap_type_name(&ft.type_ref) {
                Some(to) => Some((n.as_str(), to)),
                None => None,
            },
            None => None,
        },
        None => None,
    }
}

/// Appends to `paths` the paths that the search finds from `current_type`
/// having walked `current_path`, stopping once `MAX_PATHS` are held. The
/// current path and the visited types come back as they were.
pub fn path_dfs(
    type_map: &TypeMap,
    current_type: &str,
    end_type: &Vec<char>,
    current_path: &mut Vec<PathStep>,
    visited: &mut Vec<Vec<char>>,
    paths: &mut Vec<Vec<PathStep>>,
)
    requires
        old(current_path).len() <= MAX_DEPTH,
        key_views(old(visited)@) == from_types(path_view(old(current_path)@)),
        old(paths).len() <= MAX_PATHS,
    ensures
        final(current_path)@ == old(current_path)@,
        final(visited)@ == old(visited)@,
        paths_view(final(paths)@) == capped(
            paths_view(old(paths)@) + walks(
                type_map@,
                current_type@,
                end_type@,
                path_view(old(current_path)@),
            ),
        ),
    decreases MAX_DEPTH - old(current_path).len(),
{
    let ghost prefix = path_view(current_path@);
    let ghost w = walks(type_map@, current_type@, end_type@, prefix);
    let ghost p0 = paths_view(paths@);
    if paths.len() >= MAX_PATHS {
        proof {
            lemma_capped_full(p0, w);
        }
        return;
    }
    let cur = chars_of(current_type);
    if chars_eq(&cur, end_type) {
        let copy = copy_path(current_path);
        paths.push(copy);
        assert(paths_view(paths@) =~= p0 + w);
        return;
    }
    if current_path.len() >= MAX_DEPTH {
        assert(p0 + w =~= p0);
        return;
    }
    if position_of(visited, &cur).is_some() {
        assert(from_types(prefix).contains(cur@)) by {
            let j = choose|j: int| 0 <= j < visited.len() && visited@[j]@ == cur@;
            assert(key_views(visited@)[j] == cur@);
        }
        assert(p0 + w =~= p0);
        return;
    }
    let found = type_map.get_chars(&cur);
    let t = match found {
        Some(t) => t,
        None => {
            assert(p0 + w =~= p0);
            return;
        },
    };
    if !is_composite(t) {
        assert(p0 + w =~= p0);
        return;
    }
    visited.push(cur);
    assert(key_views(visited@) =~= key_views(old(visited)@).push(cur@));
    let ghost fields = type_fields(*t);
    assert(w == walks_through_fields(type_map@, current_type@, end_type@, prefix, fields, 0));
    match &t.fields {
        None => {
            assert(p0 + w =~= p0);
        },
        Some(fs) => {
            let mut i: usize = 0;
            while i < fs.len()
                invariant
                    fields == fs@,
                    i <= fs.len(),
                    current_path@ == old(current_path)@,
                    prefix == path_view(current_path@),
                    current_path.len() < MAX_DEPTH,
                    key_views(visited@) == key_views(old(visited)@).push(cur@),
                    visited@ == old(visited)@.push(cur),
                    key_views(old(visited)@) == from_types(prefix),
                    cur@ == current_type@,
                    paths.len() <= MAX_PATHS,
                    capped(
                        paths_view(paths@) + walks_through_fields(
                            type_map@,
                            current_type@,
                            end_type@,
                            prefix,
                            fields,
                            i as nat,
                        ),
                    ) == capped(p0 + w),
                decreases fs.len() - i,
            {
                let ghost before = paths_view(paths@);
                let ghost rest = walks_through_fields(
                    type_map@,
                    current_type@,
                    end_type@,
                    prefix,
                    fields,
                    (i + 1) as nat,
                );
                match field_edge_exec(&fs[i]) {
                    Some((from_field, to_type)) => {
                        let step = PathStep::new(current_type, from_field);
                        current_path.push(step);
                        assert(path_view(current_path@) =~= prefix.push(
                            (current_type@, from_field@),
                        ));
                        assert(from_types(path_view(current_path@)) =~= from_types(prefix).push(
                            cur@,
                        ));
                        path_dfs(type_map, to_type, end_type, current_path, visited, paths);
                        let ghost child = walks(
                            type_map@,
                            to_type@,
                            end_type@,
                            prefix.push((current_type@, from_field@)),
                        );
                        proof {
                            lemma_capped_append(before, child, rest);
                        }
                        current_path.pop();
                        assert(current_path@ =~= old(current_path)@);
                        assert(before + (child + rest) =~= before + child + rest);
                    },
                    None => {},
                }
                i = i + 1;
            }
            assert(paths_view(paths@) + Seq::empty() =~= paths_view(paths@));
        },
    }
    visited.pop();
    assert(visited@ =~= old(visited)@);
}

/// All paths of fields that lead from `start_type` to `end_type` in the type
/// map: the paths that a depth-first search finds, visiting no type twice on
/// a path, following only objects, interfaces and unions, and going at most
/// `MAX_DEPTH` steps deep; at most the first `MAX_PATHS` of them.
pub fn find_all_paths(type_map: &TypeMap, start_type: &str, end_type: &str) -> (r: AllPaths)
    ensures
        paths_view(r@) == capped(walks(type_map@, start_type@, end_type@, Seq::empty())),
{
    let mut paths: Vec<Vec<PathStep>> = Vec::new();
    let mut current_path: Vec<PathStep> = Vec::new();
    let mut visited: Vec<Vec<char>> = Vec::new();
    let end = chars_of(end_type);
    assert(key_views(visited@) =~= from_types(path_view(current_path@)));
    assert(path_view(current_path@) =~= Seq::<StepView>::empty());
    path_dfs(type_map, start_type, &end, &mut current_path, &mut visited, &mut paths);
    assert(paths_view(Seq::<Vec<PathStep>>::empty()) + walks(
        type_map@,
        start_type@,
        end_type@,
        Seq::empty(),
    ) =~= walks(type_map@, start_type@, end_type@, Seq::empty()));
    paths
}


/// Type `t` has a field named `name` that leads to type `to`.
pub open spec fn has_edge(t: FullType, name: Seq<char>, to: Seq<char>) -> bool {
    exists|k: int|
        0 <= k < type_fields(t).len() && #[trigger] field_edge(type_fields(t)[k]) == Some((name, to))
}

/// The type that step `i` of `s` leads to: the next step's type, or `end`
/// after the last step.
pub open spec fn next_type(s: Seq<StepView>, end: Seq<char>, i: int) -> Seq<char> {
    if i + 1 < s.len() {
        s[i + 1].0
    } else {
        end
    }
}

/// Step `i` of `s` leaves a known object, interface or union through one of
/// its fields, and that field leads to the next type of the path.
pub open spec fn step_ok(tm: Map<Seq<char>, FullType>, end: Seq<char>, s: Seq<StepView>, i: int) -> bool {
    &&& tm.contains_key(s[i].0)
    &&& is_composite_spec(tm[s[i].0])
    &&& has_edge(tm[s[i].0], s[i].1, next_type(s, end, i))
}

/// `s` continues a path that has already left the types `pre` from type `cur`
/// to `end`: it starts at `cur` (or is empty when `cur` is `end`), each step
/// follows a field, no type is left twice nor left again after `pre`, the
/// target is only reached at the end, and `pre` and `s` together have at most
/// `MAX_DEPTH` steps.
pub open spec fn route_from(
    tm: Map<Seq<char>, FullType>,
    cur: Seq<char>,
    end: Seq<char>,
    pre: Seq<StepView>,
    s: Seq<StepView>,
) -> bool {
    &&& pre.len() + s.len() <= MAX_DEPTH
    &&& s.len() == 0 ==> cur == end
    &&& s.len() > 0 ==> s[0].0 == cur
    &&& forall|i: int| 0 <= i < s.len() ==> #[trigger] step_ok(tm, end, s, i)
    &&& forall|i: int, j: int| 0 <= i < j < s.len() ==> #[trigger] s[i].0 != #[trigger] s[j].0
    &&& forall|i: int| 0 <= i < s.len() ==> #[trigger] s[i].0 != end
    &&& forall|i: int| 0 <= i < s.len() ==> !from_types(pre).contains(#[trigger] s[i].0)
}

/// `p` is a route from `start` to `end`: a path of at most `MAX_DEPTH` field
/// steps through known objects, interfaces and unions that leaves no type
/// twice and reaches `end` only at its end.
pub open spec fn is_route(
    tm: Map<Seq<char>, FullType>,
    start: Seq<char>,
    end: Seq<char>,
    p: Seq<StepView>,
) -> bool {
    route_from(tm, start, end, Seq::empty(), p)
}

/// Extending a route by one step in front.
proof fn lemma_route_cons(
    tm: Map<Seq<char>, FullType>,
    cur: Seq<char>,
    to: Seq<char>,
    end: Seq<char>,
    pre: Seq<StepView>,
    name: Seq<char>,
    rest: Seq<StepView>,
)
    requires
        cur != end,
        pre.len() < MAX_DEPTH,
        !from_types(pre).contains(cur),
        tm.contains_key(cur),
        is_composite_spec(tm[cur]),
        has_edge(tm[cur], name, to),
        route_from(tm, to, end, pre.push((cur, name)), rest),
    ensures
        route_from(tm, cur, end, pre, seq![(cur, name)] + rest),
{
    let pre2 = pre.push((cur, name));
    let s = seq![(cur, name)] + rest;
    assert(from_types(pre2) =~= from_types(pre).push(cur));
    assert forall|i: int| 0 <= i < rest.len() implies #[trigger] s[i + 1] == rest[i] by {}
    assert forall|i: int| 0 <= i < s.len() implies #[trigger] step_ok(tm, end, s, i) by {
        if i == 0 {
            assert(next_type(s, end, 0) == to) by {
                if rest.len() > 0 {
                    assert(s[1] == rest[0]);
                }
            }
        } else {
            assert(step_ok(tm, end, rest, i - 1));
            assert(s[i] == rest[i - 1]);
            assert(next_type(s, end, i) == next_type(rest, end, i - 1)) by {
                if i + 1 < s.len() {
                    assert(s[i + 1] == rest[i]);
                }
            }
        }
    }
    assert forall|i: int, j: int| 0 <= i < j < s.len() implies #[trigger] s[i].0 != #[trigger] s[
        j
    ].0 by {
        assert(s[j] == rest[j - 1]);
        if i == 0 {
            assert(!from_types(pre2).contains(rest[j - 1].0));
            assert(from_types(pre2)[pre.len() as int] == cur);
        } else {
            assert(s[i] == rest[i - 1]);
            assert(rest[i - 1].0 != rest[j - 1].0);
        }
    }
    assert forall|i: int| 0 <= i < s.len() implies #[trigger] s[i].0 != end by {
        if i > 0 {
            assert(s[i] == rest[i - 1]);
            assert(rest[i - 1].0 != end);
        }
    }
    assert forall|i: int| 0 <= i < s.len() implies !from_types(pre).contains(#[trigger] s[i].0) by {
        if i > 0 {
            assert(s[i] == rest[i - 1]);
            assert(!from_types(pre2).contains(rest[i - 1].0));
            if from_types(pre).contains(rest[i - 1].0) {
                let k = choose|k: int| 0 <= k < from_types(pre).len() && from_types(pre)[k] == rest[i - 1].0;
                assert(from_types(pre2)[k] == rest[i - 1].0);
            }
        }
    }
}

/// Each path the search finds from `cur` after `pre` is `pre` followed by a
/// route from `cur`.
proof fn lemma_walks_sound(
    tm: Map<Seq<char>, FullType>,
    cur: Seq<char>,
    end: Seq<char>,
    pre: Seq<StepView>,
    q: Seq<StepView>,
)
    requires
        walks(tm, cur, end, pre).contains(q),
        pre.len() <= MAX_DEPTH,
    ensures
        pre.len() <= q.len(),
        q.take(pre.len() as int) == pre,
        route_from(tm, cur, end, pre, q.skip(pre.len() as int)),
    decreases MAX_DEPTH - pre.len(), 1int, 0int,
{
    if cur == end {
        assert(walks(tm, cur, end, pre) =~= seq![pre]);
        assert(q == pre);
        assert(q.take(pre.len() as int) =~= pre);
        assert(q.skip(pre.len() as int) =~= Seq::<StepView>::empty());
    } else if pre.len() >= MAX_DEPTH || from_types(pre).contains(cur) || !(tm.contains_key(cur)
        && is_composite_spec(tm[cur])) {
    } else {
        lemma_fields_sound(tm, cur, end, pre, type_fields(tm[cur]), 0, q);
    }
}

proof fn lemma_fields_sound(
    tm: Map<Seq<char>, FullType>,
    cur: Seq<char>,
    end: Seq<char>,
    pre: Seq<StepView>,
    fields: Seq<FullTypeFields>,
    i: nat,
    q: Seq<StepView>,
)
    requires
        walks_through_fields(tm, cur, end, pre, fields, i).contains(q),
        fields == type_fields(tm[cur]),
        cur != end,
        pre.len() < MAX_DEPTH,
        !from_types(pre).contains(cur),
        tm.contains_key(cur),
        is_composite_spec(tm[cur]),
    ensures
        pre.len() <= q.len(),
        q.take(pre.len() as int) == pre,
        route_from(tm, cur, end, pre, q.skip(pre.len() as int)),
    decreases MAX_DEPTH - pre.len(), 0int, fields.len() - i,
{
    if i >= fields.len() {
    } else {
        let rest = walks_through_fields(tm, cur, end, pre, fields, i + 1);
        match field_edge(fields[i as int]) {
            Some(e) => {
                let pre2 = pre.push((cur, e.0));
                let child = walks(tm, e.1, end, pre2);
                let k = choose|k: int| 0 <= k < (child + rest).len() && (child + rest)[k] == q;
                if k < child.len() {
                    assert(child[k] == q);
                    assert(child.contains(q));
                    lemma_walks_sound(tm, e.1, end, pre2, q);
                    let tail = q.skip(pre2.len() as int);
                    assert(has_edge(tm[cur], e.0, e.1)) by {
                        assert(field_edge(type_fields(tm[cur])[i as int]) == Some((e.0, e.1)));
                    }
                    lemma_route_cons(tm, cur, e.1, end, pre, e.0, tail);
                    assert(q.take(pre.len() as int) =~= pre) by {
                        assert(q.take(pre2.len() as int) == pre2);
                        assert forall|j: int| 0 <= j < pre.len() implies q[j] == pre[j] by {
                            assert(q.take(pre2.len() as int)[j] == pre2[j]);
                        }
                    }
                    assert(q.skip(pre.len() as int) =~= seq![(cur, e.0)] + tail) by {
                        assert(q[pre.len() as int] == q.take(pre2.len() as int)[pre.len() as int]);
                    }
                } else {
                    assert(rest[k - child.len()] == q);
                    assert(rest.contains(q));
                    lemma_fields_sound(tm, cur, end, pre, fields, i + 1, q);
                }
            },
            None => {
                lemma_fields_sound(tm, cur, end, pre, fields, i + 1, q);
            },
        }
    }
}


/// Dropping the first step of a route gives a route from the type it leads to.
proof fn lemma_route_tail(
    tm: Map<Seq<char>, FullType>,
    cur: Seq<char>,
    end: Seq<char>,
    pre: Seq<StepView>,
    s: Seq<StepView>,
)
    requires
        route_from(tm, cur, end, pre, s),
        s.len() > 0,
    ensures
        route_from(tm, next_type(s, end, 0), end, pre.push(s[0]), s.drop_first()),
{
    let t = s.drop_first();
    let pre2 = pre.push(s[0]);
    assert(from_types(pre2) =~= from_types(pre).push(s[0].0));
    assert forall|i: int| 0 <= i < t.len() implies #[trigger] t[i] == s[i + 1] by {}
    assert forall|i: int| 0 <= i < t.len() implies #[trigger] step_ok(tm, end, t, i) by {
        assert(step_ok(tm, end, s, i + 1));
        assert(next_type(t, end, i) == next_type(s, end, i + 1)) by {
            if i + 1 < t.len() {
                assert(t[i + 1] == s[i + 2]);
            }
        }
    }
    assert forall|i: int, j: int| 0 <= i < j < t.len() implies #[trigger] t[i].0 != #[trigger] t[
        j
    ].0 by {
        assert(s[i + 1].0 != s[j + 1].0);
    }
    assert forall|i: int| 0 <= i < t.len() implies #[trigger] t[i].0 != end by {
        assert(s[i + 1].0 != end);
    }
    assert forall|i: int| 0 <= i < t.len() implies !from_types(pre2).contains(#[trigger] t[i].0) by {
        assert(s[0].0 != s[i + 1].0);
        assert(!from_types(pre).contains(s[i + 1].0));
        if from_types(pre2).contains(t[i].0) {
            let k = choose|k: int| 0 <= k < from_types(pre2).len() && from_types(pre2)[k] == t[i].0;
            if k < pre.len() {
                assert(from_types(pre)[k] == t[i].0);
            }
        }
    }
}

proof fn lemma_fields_complete(
    tm: Map<Seq<char>, FullType>,
    cur: Seq<char>,
    end: Seq<char>,
    pre: Seq<StepView>,
    fields: Seq<FullTypeFields>,
    i: nat,
    k: int,
    e: (Seq<char>, Seq<char>),
    q: Seq<StepView>,
)
    requires
        i <= k < fields.len(),
        pre.len() < MAX_DEPTH,
        field_edge(fields[k]) == Some(e),
        walks(tm, e.1, end, pre.push((cur, e.0))).contains(q),
    ensures
        walks_through_fields(tm, cur, end, pre, fields, i).contains(q),
    decreases k - i,
{
    let rest = walks_through_fields(tm, cur, end, pre, fields, i + 1);
    if i == k {
        let child = walks(tm, e.1, end, pre.push((cur, e.0)));
        let j = choose|j: int| 0 <= j < child.len() && child[j] == q;
        assert((child + rest)[j] == q);
    } else {
        lemma_fields_complete(tm, cur, end, pre, fields, i + 1, k, e, q);
        let j = choose|j: int| 0 <= j < rest.len() && rest[j] == q;
        match field_edge(fields[i as int]) {
            Some(f) => {
                let child = walks(tm, f.1, end, pre.push((cur, f.0)));
                assert((child + rest)[child.len() + j] == q);
            },
            None => {},
        }
    }
}

/// Each route from `cur` that continues `pre` is found by the search.
proof fn lemma_walks_complete(
    tm: Map<Seq<char>, FullType>,
    cur: Seq<char>,
    end: Seq<char>,
    pre: Seq<StepView>,
    s: Seq<StepView>,
)
    requires
        route_from(tm, cur, end, pre, s),
    ensures
        walks(tm, cur, end, pre).contains(pre + s),
    decreases MAX_DEPTH - pre.len(), 1int, 0int,
{
    if s.len() == 0 {
        assert(pre + s =~= pre);
        assert(walks(tm, cur, end, pre)[0] == pre);
    } else {
        assert(s[0].0 != end);
        assert(step_ok(tm, end, s, 0));
        let next = next_type(s, end, 0);
        let fields = type_fields(tm[cur]);
        let k = choose|k: int|
            0 <= k < fields.len() && #[trigger] field_edge(fields[k]) == Some((s[0].1, next));
        lemma_route_tail(tm, cur, end, pre, s);
        let pre2 = pre.push(s[0]);
        lemma_walks_complete(tm, next, end, pre2, s.drop_first());
        assert(pre2 + s.drop_first() =~= pre + s);
        assert(s[0] == (cur, s[0].1));
        if from_types(pre).contains(cur) {
            assert(!from_types(pre).contains(s[0].0));
        }
        lemma_fields_complete(tm, cur, end, pre, fields, 0, k, (s[0].1, next), pre + s);
    }
}

/// The search finds exactly the routes: a path is among those it enumerates
/// from `start` if and only if it is a route from `start` to `end`.
pub proof fn lemma_walks_are_routes(
    tm: Map<Seq<char>, FullType>,
    start: Seq<char>,
    end: Seq<char>,
    q: Seq<StepView>,
)
    ensures
        walks(tm, start, end, Seq::empty()).contains(q) <==> is_route(tm, start, end, q),
{
    if walks(tm, start, end, Seq::empty()).contains(q) {
        lemma_walks_sound(tm, start, end, Seq::empty(), q);
        assert(q.skip(0) =~= q);
    }
    if is_route(tm, start, end, q) {
        lemma_walks_complete(tm, start, end, Seq::empty(), q);
        assert(Seq::<StepView>::empty() + q =~= q);
    }
}

/// Every path that `find_all_paths` returns is a route from the start type
/// to the target type.
pub proof fn lemma_found_paths_are_routes(
    tm: Map<Seq<char>, FullType>,
    start: Seq<char>,
    end: Seq<char>,
    q: Seq<StepView>,
)
    requires
        capped(walks(tm, start, end, Seq::empty())).contains(q),
    ensures
        is_route(tm, start, end, q),
{
    let w = walks(tm, start, end, Seq::empty());
    let c = capped(w);
    let j = choose|j: int| 0 <= j < c.len() && c[j] == q;
    assert(w[j] == q);
    lemma_walks_are_routes(tm, start, end, q);
}

/// Every route from the start type to the target type is among the paths
/// that `find_all_paths` returns, unless it returned `MAX_PATHS` of them.
pub proof fn lemma_routes_are_found(
    tm: Map<Seq<char>, FullType>,
    start: Seq<char>,
    end: Seq<char>,
    q: Seq<StepView>,
)
    requires
        is_route(tm, start, end, q),
        capped(walks(tm, start, end, Seq::empty())).len() < MAX_PATHS,
    ensures
        capped(walks(tm, start, end, Seq::empty())).contains(q),
{
    lemma_walks_are_routes(tm, start, end, q);
}


/// Every path that the search finds after having walked `pre` begins with
/// `pre` and has at most `MAX_DEPTH` steps.
pub proof fn lemma_walks_extend_prefix(
    tm: Map<Seq<char>, FullType>,
    cur: Seq<char>,
    end: Seq<char>,
    pre: Seq<StepView>,
    q: Seq<StepView>,
)
    requires
        pre.len() <= MAX_DEPTH,
        walks(tm, cur, end, pre).contains(q),
    ensures
        pre.len() <= q.len() <= MAX_DEPTH,
        q.take(pre.len() as int) == pre,
{
    lemma_walks_sound(tm, cur, end, pre, q);
}

} // verus!
