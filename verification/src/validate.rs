//! Checking that a schema can be written as JSON: that `$Json.flatten`
//! terminates.
//!
//! A schema is given as a graph of its struct types (see [`SchemaGraph`]). A
//! flattened field splices its members into the parent's JSON object rather
//! than nesting them, so a cycle of flattened fields describes an object of
//! infinite width. The edges followed are exactly those of the C++ codec:
//! from a struct to each of its groups, flattened or not, and to the type of
//! each struct-typed field annotated `$Json.flatten`. Every struct reachable
//! from the root through any field, lists included, is checked.
use vstd::prelude::*;
use crate::error::{Error, ErrorOf};
use crate::options::Annotation;

verus! {

/// The shape of a field's type, as far as the check reads it.
#[derive(Debug)]
pub enum TypeShape {
    /// A struct type, by its index in the graph.
    Struct(usize),
    /// `List(T)`.
    List(Box<TypeShape>),
    /// Any other type.
    Other,
}

/// A field of a struct.
#[derive(Debug)]
pub struct FieldInfo {
    /// Whether the field is a group.
    pub is_group: bool,
    /// The field's annotations.
    pub annotations: Vec<Annotation>,
    /// The field's type; a group's type is its own struct.
    pub ty: TypeShape,
}

/// A struct type of the schema.
#[derive(Debug)]
pub struct StructNode {
    /// The name under which errors report the struct.
    pub display_name: String,
    /// All its fields, union members included.
    pub fields: Vec<FieldInfo>,
}

/// The struct types of a schema, each referred to by its index. One node
/// stands for one schema node, whatever its generic brand: the brand cannot
/// add or remove a flatten edge.
#[derive(Debug)]
pub struct SchemaGraph {
    pub nodes: Vec<StructNode>,
}

/// The struct type that `t` names, looking through any number of lists.
pub open spec fn struct_target(t: TypeShape) -> Option<usize>
    decreases t,
{
    match t {
        TypeShape::Struct(i) => Some(i),
        TypeShape::List(e) => struct_target(*e),
        TypeShape::Other => None,
    }
}

/// Whether `f` continues its struct's JSON object rather than starting a
/// nested one: it is a group, or it carries `$Json.flatten`.
pub open spec fn is_flatten_field(f: FieldInfo) -> bool {
    f.is_group || exists|i: int|
        0 <= i < f.annotations.len() && (#[trigger] f.annotations@[i] matches Annotation::Flatten(_))
}

/// The `j`th field of struct `u`.
pub open spec fn field_at(g: SchemaGraph, u: usize, j: int) -> FieldInfo {
    g.nodes@[u as int].fields@[j]
}

/// Every struct type a field names is a node of the graph.
pub open spec fn graph_wf(g: SchemaGraph) -> bool {
    forall|u: int, j: int|
        0 <= u < g.nodes.len() && 0 <= j < g.nodes@[u].fields.len() ==> match struct_target(
            #[trigger] g.nodes@[u].fields@[j].ty,
        ) {
            Some(w) => w < g.nodes.len(),
            None => true,
        }
}

/// The struct that a type shape names, if any.
fn shape_target(t: &TypeShape) -> (r: Option<usize>)
    ensures
        r == struct_target(*t),
    decreases t,
{
    match t {
        TypeShape::Struct(i) => Some(*i),
        TypeShape::List(e) => shape_target(e),
        TypeShape::Other => None,
    }
}

/// Whether every struct that a field's type names is a node of the graph,
/// the condition under which [`check_flattening_terminates`] can be called.
pub fn check_graph(g: &SchemaGraph) -> (r: bool)
    ensures
        r == graph_wf(*g),
{
    let n = g.nodes.len();
    let mut u: usize = 0;
    while u < n
        invariant
            u <= n,
            n == g.nodes.len(),
            forall|a: int, j: int|
                0 <= a < u && 0 <= j < g.nodes@[a].fields.len() ==> match struct_target(
                    #[trigger] g.nodes@[a].fields@[j].ty,
                ) {
                    Some(w) => w < n,
                    None => true,
                },
        decreases n - u,
    {
        let mut j: usize = 0;
        while j < g.nodes[u].fields.len()
            invariant
                u < n,
                n == g.nodes.len(),
                j <= g.nodes@[u as int].fields.len(),
                forall|a: int, k: int|
                    0 <= a < u && 0 <= k < g.nodes@[a].fields.len() ==> match struct_target(
                        #[trigger] g.nodes@[a].fields@[k].ty,
                    ) {
                        Some(w) => w < n,
                        None => true,
                    },
                forall|k: int|
                    0 <= k < j ==> match struct_target(#[trigger] g.nodes@[u as int].fields@[k].ty) {
                        Some(w) => w < n,
                        None => true,
                    },
            decreases g.nodes@[u as int].fields.len() - j,
        {
            match shape_target(&g.nodes[u].fields[j].ty) {
                Some(w) => {
                    if w >= n {
                        assert(struct_target(g.nodes@[u as int].fields@[j as int].ty) == Some(w));
                        return false;
                    }
                },
                None => {},
            }
            j = j + 1;
        }
        u = u + 1;
    }
    true
}

/// Struct `u` has a field whose type names struct `w`.
pub open spec fn ref_edge(g: SchemaGraph, u: usize, w: usize) -> bool {
    u < g.nodes.len() && exists|j: int|
        0 <= j < g.nodes@[u as int].fields.len() && struct_target(#[trigger] field_at(g, u, j).ty)
            == Some(w)
}

/// Struct `u` has a group, or a flattened field, of struct type `w`.
pub open spec fn flatten_edge(g: SchemaGraph, u: usize, w: usize) -> bool {
    u < g.nodes.len() && exists|j: int|
        0 <= j < g.nodes@[u as int].fields.len() && is_flatten_field(#[trigger] field_at(g, u, j))
            && field_at(g, u, j).ty == TypeShape::Struct(w)
}

/// `p` is a walk along field types.
pub open spec fn ref_path(g: SchemaGraph, p: Seq<usize>) -> bool {
    p.len() >= 1 && forall|i: int| #![trigger p[i]] 0 <= i < p.len() - 1 ==> ref_edge(g, p[i], p[i + 1])
}

/// `p` is a walk along groups and flattened fields.
pub open spec fn flatten_path(g: SchemaGraph, p: Seq<usize>) -> bool {
    p.len() >= 1 && forall|i: int| #![trigger p[i]] 0 <= i < p.len() - 1 ==> flatten_edge(g, p[i], p[i + 1])
}

/// Struct `b` is reachable from struct `a` through fields and list elements.
pub open spec fn reaches(g: SchemaGraph, a: usize, b: usize) -> bool {
    exists|p: Seq<usize>| ref_path(g, p) && p[0] == a && p.last() == b
}

/// Struct `v` lies on a cycle of groups and flattened fields.
pub open spec fn on_flatten_cycle(g: SchemaGraph, v: usize) -> bool {
    exists|p: Seq<usize>| flatten_path(g, p) && p.len() >= 2 && p[0] == v && p.last() == v
}

/// No struct reachable from `root` lies on a cycle of flattening.
pub open spec fn flattening_terminates(g: SchemaGraph, root: usize) -> bool {
    forall|v: usize| reaches(g, root, v) ==> !on_flatten_cycle(g, v)
}

/// Whether descending into `field` continues the enclosing JSON object.
pub fn is_flatten_edge(field: &FieldInfo) -> (r: bool)
    ensures
        r == is_flatten_field(*field),
{
    if field.is_group {
        return true;
    }
    let mut i: usize = 0;
    while i < field.annotations.len()
        invariant
            i <= field.annotations.len(),
            !field.is_group,
            forall|k: int| 0 <= k < i ==> !(#[trigger] field.annotations@[k] matches Annotation::Flatten(_)),
        decreases field.annotations.len() - i,
    {
        if let Annotation::Flatten(_) = &field.annotations[i] {
            return true;
        }
        i = i + 1;
    }
    false
}

/// Adds the struct type named by `t`, looking through lists, to `worklist`.
pub fn collect_struct_types(t: &TypeShape, worklist: &mut Vec<usize>)
    ensures
        final(worklist)@ == match struct_target(*t) {
            Some(w) => old(worklist)@.push(w),
            None => old(worklist)@,
        },
    decreases t,
{
    match t {
        TypeShape::Struct(i) => {
            worklist.push(*i);
        },
        TypeShape::List(e) => {
            collect_struct_types(&**e, worklist);
        },
        TypeShape::Other => {},
    }
}

/// The state of a struct in the depth-first search.
#[derive(Debug, Clone, Copy, PartialEq, Eq, Structural)]
pub enum Mark {
    /// Not yet met.
    Unseen,
    /// On the current search path.
    OnPath,
    /// Explored, with no cycle reachable from it.
    Cleared,
}

/// How many structs are still unseen.
pub open spec fn unseen_count(marks: Seq<Mark>) -> nat
    decreases marks.len(),
{
    if marks.len() == 0 {
        0
    } else {
        unseen_count(marks.drop_last()) + if marks.last() == Mark::Unseen {
            1nat
        } else {
            0nat
        }
    }
}

/// At most every struct is unseen.
proof fn lemma_unseen_count_le(marks: Seq<Mark>)
    ensures
        unseen_count(marks) <= marks.len(),
    decreases marks.len(),
{
    if marks.len() > 0 {
        lemma_unseen_count_le(marks.drop_last());
    }
}

/// The depth-first search from struct `v` along groups and flattened
/// fields, in field order, with `fuel` levels of nesting left: a cleared
/// struct is done, meeting a struct on the current walk closes a cycle
/// there (`Err` of that struct), and an unseen one goes on the walk while
/// its fields are searched, then is cleared. `Ok` holds the marks after it.
pub open spec fn visit(g: SchemaGraph, v: usize, marks: Seq<Mark>, fuel: nat) -> Result<Seq<Mark>, usize>
    decreases fuel, 0int, 0int,
{
    if fuel == 0 || v >= marks.len() || v >= g.nodes.len() {
        Ok(marks)
    } else if marks[v as int] == Mark::Cleared {
        Ok(marks)
    } else if marks[v as int] == Mark::OnPath {
        Err(v)
    } else {
        match visit_fields(
            g,
            v,
            g.nodes@[v as int].fields.len() as int,
            marks.update(v as int, Mark::OnPath),
            (fuel - 1) as nat,
        ) {
            Ok(m) => Ok(m.update(v as int, Mark::Cleared)),
            Err(w) => Err(w),
        }
    }
}

/// The search through the first `j` fields of struct `v`: each group or
/// flattened field of struct type is searched in turn.
pub open spec fn visit_fields(g: SchemaGraph, v: usize, j: int, marks: Seq<Mark>, fuel: nat) -> Result<
    Seq<Mark>,
    usize,
>
    decreases fuel, 1int, j,
{
    if j <= 0 || v >= g.nodes.len() || j > g.nodes@[v as int].fields.len() {
        Ok(marks)
    } else {
        match visit_fields(g, v, j - 1, marks, fuel) {
            Err(w) => Err(w),
            Ok(m) => {
                let f = field_at(g, v, j - 1);
                if is_flatten_field(f) && f.ty is Struct {
                    visit(g, f.ty->Struct_0, m, fuel)
                } else {
                    Ok(m)
                }
            },
        }
    }
}

/// The struct types that the first `j` fields of struct `s` name, looking
/// through lists, in field order.
pub open spec fn field_targets(g: SchemaGraph, s: usize, j: int) -> Seq<usize>
    decreases j,
{
    if j <= 0 {
        seq![]
    } else {
        field_targets(g, s, j - 1) + match struct_target(field_at(g, s, j - 1).ty) {
            Some(w) => seq![w],
            None => seq![],
        }
    }
}

/// The whole check: the struct at the top of the worklist, unless already
/// reached, is searched from (with a fresh walk), and the struct types its
/// fields name are pushed; the first cycle closed ends it, with the struct
/// at which it closed.
pub open spec fn search(g: SchemaGraph, worklist: Seq<usize>, reached: Seq<bool>, marks: Seq<Mark>) -> Result<
    (),
    usize,
>
    decreases unreached_count(reached), worklist.len(),
{
    if worklist.len() == 0 {
        Ok(())
    } else {
        let s = worklist.last();
        let rest = worklist.drop_last();
        if s >= reached.len() || s >= g.nodes.len() || reached[s as int] {
            search(g, rest, reached, marks)
        } else {
            proof {
                lemma_unreached_count_set(reached, s as int);
            }
            match visit(g, s, marks, (g.nodes.len() + 1) as nat) {
                Err(w) => Err(w),
                Ok(m) => search(
                    g,
                    rest + field_targets(g, s, g.nodes@[s as int].fields.len() as int),
                    reached.update(s as int, true),
                    m,
                ),
            }
        }
    }
}

/// The check from `root`, with nothing reached and every struct unseen.
pub open spec fn flatten_search(g: SchemaGraph, root: usize) -> Result<(), usize> {
    search(
        g,
        seq![root],
        Seq::new(g.nodes.len() as nat, |i: int| false),
        Seq::new(g.nodes.len() as nat, |i: int| Mark::Unseen),
    )
}

/// Once the search through a struct's fields has closed a cycle, searching
/// more of its fields closes the same one.
proof fn lemma_visit_fields_err(g: SchemaGraph, v: usize, j: int, k: int, marks: Seq<Mark>, fuel: nat)
    requires
        0 < j <= k,
        v < g.nodes.len(),
        k <= g.nodes@[v as int].fields.len(),
        visit_fields(g, v, j, marks, fuel) is Err,
    ensures
        visit_fields(g, v, k, marks, fuel) == visit_fields(g, v, j, marks, fuel),
    decreases k - j,
{
    if k > j {
        lemma_visit_fields_err(g, v, j, k - 1, marks, fuel);
    }
}

/// The search's invariant: the marked path is `path`, a walk along flatten
/// edges; cleared structs are closed under flatten edges and lie on no cycle.
spec fn search_inv(g: SchemaGraph, marks: Seq<Mark>, path: Seq<usize>) -> bool {
    &&& marks.len() == g.nodes.len()
    &&& forall|u: int| 0 <= u < marks.len() ==> (marks[u] == Mark::OnPath <==> path.contains(u as usize))
    &&& forall|i: int| 0 <= i < path.len() ==> #[trigger] path[i] < g.nodes.len()
    &&& (path.len() > 0 ==> flatten_path(g, path))
    &&& forall|u: usize, w: usize|
        #![trigger marks[u as int], flatten_edge(g, u, w)]
        u < marks.len() && marks[u as int] == Mark::Cleared && flatten_edge(g, u, w) ==> w < marks.len()
            && marks[w as int] == Mark::Cleared
    &&& forall|u: usize| u < marks.len() && #[trigger] marks[u as int] == Mark::Cleared ==> !on_flatten_cycle(g, u)
}

/// Marks only move forward: the unseen become cleared, nothing else changes.
spec fn marks_advance(before: Seq<Mark>, after: Seq<Mark>) -> bool {
    &&& before.len() == after.len()
    &&& forall|u: int|
        0 <= u < before.len() ==> {
            ||| #[trigger] after[u] == before[u]
            ||| (before[u] == Mark::Unseen && after[u] == Mark::Cleared)
        }
}

proof fn lemma_unseen_count_advance(before: Seq<Mark>, after: Seq<Mark>)
    requires
        marks_advance(before, after),
    ensures
        unseen_count(after) <= unseen_count(before),
    decreases before.len(),
{
    if before.len() > 0 {
        let b = before.drop_last();
        let a = after.drop_last();
        assert forall|u: int| 0 <= u < b.len() implies #[trigger] a[u] == b[u] || (b[u] == Mark::Unseen
            && a[u] == Mark::Cleared) by {
            assert(a[u] == after[u] && b[u] == before[u]);
        }
        lemma_unseen_count_advance(b, a);
        assert(after[after.len() - 1] == before[before.len() - 1] || (before[before.len() - 1]
            == Mark::Unseen && after[after.len() - 1] == Mark::Cleared));
    }
}

proof fn lemma_unseen_count_set(marks: Seq<Mark>, u: int, m: Mark)
    requires
        0 <= u < marks.len(),
        marks[u] == Mark::Unseen,
        m != Mark::Unseen,
    ensures
        unseen_count(marks.update(u, m)) + 1 == unseen_count(marks),
    decreases marks.len(),
{
    let n = marks.update(u, m);
    if u == marks.len() - 1 {
        assert(n.drop_last() =~= marks.drop_last());
    } else {
        lemma_unseen_count_set(marks.drop_last(), u, m);
        assert(n.drop_last() =~= marks.drop_last().update(u, m));
    }
}

/// Along a walk of flatten edges, the cleared structs, being closed under the
/// edges, stay cleared from the first one on.
proof fn lemma_cleared_along(g: SchemaGraph, marks: Seq<Mark>, path: Seq<usize>, p: Seq<usize>, k: int, j: int)
    requires
        search_inv(g, marks, path),
        flatten_path(g, p),
        0 <= k <= j < p.len(),
        p[k] < marks.len(),
        marks[p[k] as int] == Mark::Cleared,
    ensures
        p[j] < marks.len(),
        marks[p[j] as int] == Mark::Cleared,
    decreases j - k,
{
    if j > k {
        lemma_cleared_along(g, marks, path, p, k, j - 1);
        assert(flatten_edge(g, p[j - 1], p[j - 1 + 1]));
        assert(p[j - 1 + 1] == p[j]);
    }
}

/// A flatten edge is an edge of field types too.
proof fn lemma_flatten_edge_is_ref(g: SchemaGraph, u: usize, w: usize)
    requires
        flatten_edge(g, u, w),
    ensures
        ref_edge(g, u, w),
{
    let j = choose|j: int|
        0 <= j < g.nodes@[u as int].fields.len() && is_flatten_field(#[trigger] field_at(g, u, j))
            && field_at(g, u, j).ty == TypeShape::Struct(w);
    assert(struct_target(field_at(g, u, j).ty) == Some(w));
}

/// A walk of field types followed by a walk of flatten edges is a walk of
/// field types.
proof fn lemma_join_paths(g: SchemaGraph, p: Seq<usize>, q: Seq<usize>)
    requires
        ref_path(g, p),
        flatten_path(g, q),
        p.last() == q[0],
    ensures
        ref_path(g, p + q.drop_first()),
        (p + q.drop_first())[0] == p[0],
        (p + q.drop_first()).last() == q.last(),
{
    let r = p + q.drop_first();
    assert forall|i: int| #![trigger r[i]] 0 <= i < r.len() - 1 implies ref_edge(g, r[i], r[i + 1]) by {
        if i < p.len() - 1 {
            assert(r[i] == p[i] && r[i + 1] == p[i + 1]);
        } else {
            let k = i - (p.len() - 1);
            assert(r[i] == q[k]) by {
                if i == p.len() - 1 {
                    assert(r[i] == p.last());
                } else {
                    assert(r[i] == q.drop_first()[i - p.len()]);
                }
            }
            assert(r[i + 1] == q[k + 1]) by {
                assert(r[i + 1] == q.drop_first()[i + 1 - p.len()]);
            }
            assert(flatten_edge(g, q[k], q[k + 1]));
            lemma_flatten_edge_is_ref(g, q[k], q[k + 1]);
        }
    }
    if q.len() == 1 {
        assert(r =~= p);
    } else {
        assert(r.last() == q.drop_first().last());
    }
}

/// Depth-first search for a flatten cycle reachable from `v`, continuing a
/// search whose current walk is `path`.
#[verifier::spinoff_prover]
#[verifier::rlimit(50)]
fn check_acyclic(
    g: &SchemaGraph,
    v: usize,
    marks: &mut Vec<Mark>,
    Ghost(path): Ghost<Seq<usize>>,
    Ghost(fuel): Ghost<nat>,
) -> (r: Result<(), Error>)
    requires
        fuel > unseen_count(old(marks)@),
        graph_wf(*g),
        v < g.nodes.len(),
        search_inv(*g, old(marks)@, path),
        path.len() > 0 ==> flatten_edge(*g, path.last(), v),
    ensures
        r is Ok ==> {
            &&& search_inv(*g, final(marks)@, path)
            &&& final(marks)@[v as int] == Mark::Cleared
            &&& marks_advance(old(marks)@, final(marks)@)
        },
        r matches Err(e) ==> exists|w: usize, q: Seq<usize>|
            {
                &&& on_flatten_cycle(*g, w)
                &&& flatten_path(*g, q)
                &&& q[0] == path.push(v)[0]
                &&& q.last() == w
                &&& e@ == ErrorOf::CyclicFlattening(g.nodes@[w as int].display_name@)
            },
        match visit(*g, v, old(marks)@, fuel) {
            Ok(m) => r is Ok && final(marks)@ == m,
            Err(w) => r matches Err(e) && e@ == ErrorOf::CyclicFlattening(g.nodes@[w as int].display_name@),
        },
    decreases unseen_count(old(marks)@),
{
    if marks[v] == Mark::Cleared {
        assert(marks_advance(old(marks)@, marks@));
        return Ok(());
    }
    let ghost cur = path.push(v);
    if marks[v] == Mark::OnPath {
        proof {
            let k = choose|k: int| 0 <= k < path.len() && path[k] == v;
            let cycle = path.subrange(k, path.len() as int).push(v);
            assert forall|i: int| #![trigger cycle[i]] 0 <= i < cycle.len() - 1 implies flatten_edge(
                *g,
                cycle[i],
                cycle[i + 1],
            ) by {
                if i < cycle.len() - 2 {
                    assert(cycle[i] == path[k + i] && cycle[i + 1] == path[k + i + 1]);
                    assert(path[k + i] == path[k + i]);
                } else {
                    assert(cycle[i] == path.last() && cycle[i + 1] == v);
                }
            }
            assert(flatten_path(*g, cycle));
            let q = path.take(k + 1);
            assert forall|i: int| #![trigger q[i]] 0 <= i < q.len() - 1 implies flatten_edge(*g, q[i], q[i + 1]) by {
                assert(q[i] == path[i] && q[i + 1] == path[i + 1]);
                assert(path[i] == path[i]);
            }
            assert(flatten_path(*g, q));
            assert(q[0] == cur[0]);
            assert(cycle[0] == v && cycle.last() == v && cycle.len() >= 2);
            assert(on_flatten_cycle(*g, v));
            assert(q.last() == v);
        }
        return Err(ErrorOf::CyclicFlattening(g.nodes[v].display_name.clone()));
    }
    let ghost entry = marks@;
    marks.set(v, Mark::OnPath);
    proof {
        lemma_unseen_count_set(entry, v as int, Mark::OnPath);
        assert(path.push(v)[path.len() as int] == v);
        assert(path.push(v).contains(v));
        assert forall|u: int| 0 <= u < marks@.len() implies (marks@[u] == Mark::OnPath <==> cur.contains(
            u as usize,
        )) by {
            if u == v as int {
            } else {
                assert(marks@[u] == entry[u]);
                if path.contains(u as usize) {
                    let k = choose|k: int| 0 <= k < path.len() && path[k] == u as usize;
                    assert(cur[k] == u as usize);
                }
                if cur.contains(u as usize) {
                    let k = choose|k: int| 0 <= k < cur.len() && cur[k] == u as usize;
                    assert(path[k] == u as usize);
                }
            }
        }
        assert forall|i: int| #![trigger cur[i]] 0 <= i < cur.len() - 1 implies flatten_edge(*g, cur[i], cur[i + 1]) by {
            if i < path.len() - 1 {
                assert(cur[i] == path[i] && cur[i + 1] == path[i + 1]);
                assert(path[i] == path[i]);
            } else {
                assert(cur[i] == path.last() && cur[i + 1] == v);
            }
        }
        assert forall|i: int| 0 <= i < cur.len() implies #[trigger] cur[i] < g.nodes.len() by {
            if i < path.len() {
                assert(cur[i] == path[i]);
            }
        }
        assert(search_inv(*g, marks@, cur));
    }
    let fields = &g.nodes[v].fields;
    let mut j: usize = 0;
    while j < fields.len()
        invariant
            graph_wf(*g),
            v < g.nodes.len(),
            fields == &g.nodes@[v as int].fields,
            j <= fields.len(),
            cur == path.push(v),
            entry == old(marks)@,
            search_inv(*g, marks@, cur),
            marks@[v as int] == Mark::OnPath,
            marks_advance(entry, marks@.update(v as int, Mark::Unseen)),
            entry[v as int] == Mark::Unseen,
            unseen_count(marks@) < unseen_count(entry),
            fuel > unseen_count(entry),
            visit_fields(*g, v, j as int, entry.update(v as int, Mark::OnPath), (fuel - 1) as nat) == Ok::<
                Seq<Mark>,
                usize,
            >(marks@),
            forall|k: int|
                0 <= k < j && is_flatten_field(#[trigger] field_at(*g, v, k)) ==> match field_at(*g, v, k).ty {
                    TypeShape::Struct(w) => marks@[w as int] == Mark::Cleared,
                    _ => true,
                },
        decreases fields.len() - j,
    {
        let field = &fields[j];
        assert(field_at(*g, v, j as int) == *field);
        if is_flatten_edge(field) {
            if let TypeShape::Struct(w) = &field.ty {
                let w = *w;
                proof {
                    assert(struct_target(field_at(*g, v, j as int).ty) == Some(w));
                    assert(w < g.nodes.len());
                    assert(flatten_edge(*g, v, w));
                }
                let ghost before = marks@;
                let sub = check_acyclic(g, w, marks, Ghost(cur), Ghost((fuel - 1) as nat));
                match sub {
                    Ok(()) => {
                        proof {
                            assert(cur.contains(v));
                            assert(marks@[v as int] == Mark::OnPath);
                            assert forall|u: int| 0 <= u < entry.len() implies {
                                ||| #[trigger] marks@.update(v as int, Mark::Unseen)[u] == entry[u]
                                ||| (entry[u] == Mark::Unseen && marks@.update(v as int, Mark::Unseen)[u]
                                    == Mark::Cleared)
                            } by {
                                if u != v as int {
                                    assert(before.update(v as int, Mark::Unseen)[u] == before[u]);
                                    assert(marks@[u] == before[u] || (before[u] == Mark::Unseen && marks@[u]
                                        == Mark::Cleared));
                                }
                            }
                            lemma_unseen_count_advance(before, marks@);
                            assert forall|k: int|
                                0 <= k < j + 1 && is_flatten_field(#[trigger] field_at(*g, v, k)) implies match field_at(
                                *g,
                                v,
                                k,
                            ).ty {
                                TypeShape::Struct(w2) => marks@[w2 as int] == Mark::Cleared,
                                _ => true,
                            } by {
                                if k < j {
                                    if let TypeShape::Struct(w2) = field_at(*g, v, k).ty {
                                        assert(before[w2 as int] == Mark::Cleared);
                                    }
                                }
                            }
                        }
                    },
                    Err(e) => {
                        assert(cur.push(w)[0] == cur[0]);
                        assert(cur[0] == path.push(v)[0]);
                        proof {
                            lemma_visit_fields_err(
                                *g,
                                v,
                                j as int + 1,
                                fields.len() as int,
                                entry.update(v as int, Mark::OnPath),
                                (fuel - 1) as nat,
                            );
                        }
                        return Err(e);
                    },
                }
            }
        }
        j = j + 1;
    }
    let ghost before = marks@;
    marks.set(v, Mark::Cleared);
    proof {
        // every flatten successor of `v` is cleared
        assert forall|w: usize| #[trigger] flatten_edge(*g, v, w) implies w < marks@.len() && marks@[w as int]
            == Mark::Cleared by {
            let k = choose|k: int|
                0 <= k < g.nodes@[v as int].fields.len() && is_flatten_field(#[trigger] field_at(*g, v, k))
                    && field_at(*g, v, k).ty == TypeShape::Struct(w);
            assert(before[w as int] == Mark::Cleared);
            assert(w != v);
        }
        // `v` itself lies on no cycle
        if on_flatten_cycle(*g, v) {
            let p = choose|p: Seq<usize>| flatten_path(*g, p) && p.len() >= 2 && p[0] == v && p.last() == v;
            assert(flatten_edge(*g, p[0], p[0int + 1]));
            assert(p[1] < before.len() && before[p[1] as int] == Mark::Cleared) by {
                assert(marks@[p[1] as int] == Mark::Cleared);
                assert(p[1] != v);
            }
            lemma_cleared_along(*g, before, cur, p, 1, p.len() - 1);
            assert(false);
        }
        assert forall|u: int| 0 <= u < marks@.len() implies (marks@[u] == Mark::OnPath <==> path.contains(
            u as usize,
        )) by {
            if u == v as int {
                if path.contains(v) {
                    let k = choose|k: int| 0 <= k < path.len() && path[k] == v;
                    assert(cur[k] == v);
                    assert(entry[v as int] == Mark::OnPath);
                }
            } else {
                assert(marks@[u] == before[u]);
                if path.contains(u as usize) {
                    let k = choose|k: int| 0 <= k < path.len() && path[k] == u as usize;
                    assert(cur[k] == u as usize);
                }
                if cur.contains(u as usize) {
                    let k = choose|k: int| 0 <= k < cur.len() && cur[k] == u as usize;
                    if k < path.len() {
                        assert(path[k] == u as usize);
                    } else {
                        assert(cur[k] == v);
                    }
                }
            }
        }
        assert forall|u: usize, w: usize|
            #![trigger marks@[u as int], flatten_edge(*g, u, w)]
            u < marks@.len() && marks@[u as int] == Mark::Cleared && flatten_edge(*g, u, w) implies w
            < marks@.len() && marks@[w as int] == Mark::Cleared by {
            if u != v {
                assert(before[u as int] == Mark::Cleared);
                assert(before[w as int] == Mark::Cleared);
            }
        }
        assert forall|u: usize| u < marks@.len() && #[trigger] marks@[u as int] == Mark::Cleared implies !on_flatten_cycle(
            *g,
            u,
        ) by {
            if u != v {
                assert(before[u as int] == Mark::Cleared);
            }
        }
        if path.len() > 0 {
            assert forall|i: int| #![trigger path[i]] 0 <= i < path.len() - 1 implies flatten_edge(*g, path[i], path[i + 1]) by {
                assert(cur[i] == path[i] && cur[i + 1] == path[i + 1]);
                assert(cur[i] == cur[i]);
            }
        }
        assert forall|i: int| 0 <= i < path.len() implies #[trigger] path[i] < g.nodes.len() by {
            assert(cur[i] == path[i]);
        }
        assert(search_inv(*g, marks@, path));
        assert forall|u: int| 0 <= u < entry.len() implies {
            ||| #[trigger] marks@[u] == entry[u]
            ||| (entry[u] == Mark::Unseen && marks@[u] == Mark::Cleared)
        } by {
            if u != v as int {
                assert(before.update(v as int, Mark::Unseen)[u] == before[u]);
            }
        }
    }
    Ok(())
}


/// How many structs have not been reached yet.
pub open spec fn unreached_count(reached: Seq<bool>) -> nat
    decreases reached.len(),
{
    if reached.len() == 0 {
        0
    } else {
        unreached_count(reached.drop_last()) + if reached.last() {
            0nat
        } else {
            1nat
        }
    }
}

pub proof fn lemma_unreached_count_set(reached: Seq<bool>, u: int)
    requires
        0 <= u < reached.len(),
        !reached[u],
    ensures
        unreached_count(reached.update(u, true)) + 1 == unreached_count(reached),
    decreases reached.len(),
{
    let n = reached.update(u, true);
    if u == reached.len() - 1 {
        assert(n.drop_last() =~= reached.drop_last());
    } else {
        lemma_unreached_count_set(reached.drop_last(), u);
        assert(n.drop_last() =~= reached.drop_last().update(u, true));
    }
}

/// One more field type extends a walk.
proof fn lemma_reaches_step(g: SchemaGraph, root: usize, s: usize, w: usize)
    requires
        reaches(g, root, s),
        ref_edge(g, s, w),
    ensures
        reaches(g, root, w),
{
    let p = choose|p: Seq<usize>| ref_path(g, p) && p[0] == root && p.last() == s;
    let q = p.push(w);
    assert forall|i: int| #![trigger q[i]] 0 <= i < q.len() - 1 implies ref_edge(g, q[i], q[i + 1]) by {
        if i < p.len() - 1 {
            assert(q[i] == p[i] && q[i + 1] == p[i + 1]);
            assert(p[i] == p[i]);
        } else {
            assert(q[i] == s && q[i + 1] == w);
        }
    }
    assert(q[0] == root && q.last() == w);
}

/// A set of structs that holds `p[0]` and is closed under field types holds
/// all of the walk `p`.
proof fn lemma_closed_holds_walk(g: SchemaGraph, reached: Seq<bool>, p: Seq<usize>, j: int)
    requires
        reached.len() == g.nodes.len(),
        ref_path(g, p),
        p[0] < reached.len() && reached[p[0] as int],
        forall|u: usize, w: usize|
            #![trigger reached[u as int], ref_edge(g, u, w)]
            u < reached.len() && reached[u as int] && ref_edge(g, u, w) ==> w < reached.len()
                && reached[w as int],
        0 <= j < p.len(),
    ensures
        p[j] < reached.len() && reached[p[j] as int],
    decreases j,
{
    if j > 0 {
        lemma_closed_holds_walk(g, reached, p, j - 1);
        assert(ref_edge(g, p[j - 1], p[j - 1 + 1]));
        assert(p[j - 1 + 1] == p[j]);
    }
}

/// Checks that flattening terminates for every struct reachable from `root`:
/// `Ok` exactly when no such struct lies on a cycle of groups and flattened
/// fields, and otherwise the error names one that does: the struct at which
/// the search ([`flatten_search`]: a worklist taken from its end, a
/// depth-first search along groups and flattened fields in field order from
/// each struct) first closes a cycle.
pub fn check_flattening_terminates(g: &SchemaGraph, root: usize) -> (r: Result<(), Error>)
    requires
        graph_wf(*g),
        root < g.nodes.len(),
    ensures
        r is Ok <==> flattening_terminates(*g, root),
        r matches Err(e) ==> exists|v: usize|
            reaches(*g, root, v) && on_flatten_cycle(*g, v) && e@ == ErrorOf::CyclicFlattening(
                g.nodes@[v as int].display_name@,
            ),
        match flatten_search(*g, root) {
            Ok(()) => r is Ok,
            Err(w) => r matches Err(e) && e@ == ErrorOf::CyclicFlattening(g.nodes@[w as int].display_name@),
        },
{
    let n = g.nodes.len();
    let mut marks: Vec<Mark> = Vec::new();
    let mut reached: Vec<bool> = Vec::new();
    let mut i: usize = 0;
    while i < n
        invariant
            i <= n,
            marks.len() == i,
            reached.len() == i,
            forall|u: int| 0 <= u < i ==> #[trigger] marks@[u] == Mark::Unseen,
            forall|u: int| 0 <= u < i ==> !#[trigger] reached@[u],
        decreases n - i,
    {
        marks.push(Mark::Unseen);
        reached.push(false);
        i = i + 1;
    }
    let mut worklist: Vec<usize> = Vec::new();
    worklist.push(root);
    proof {
        assert(marks@ =~= Seq::new(n as nat, |i: int| Mark::Unseen));
        assert(reached@ =~= Seq::new(n as nat, |i: int| false));
        assert(worklist@ =~= seq![root]);
        let trivial = Seq::<usize>::empty().push(root);
        assert(ref_path(*g, trivial));
        assert(trivial[0] == root && trivial.last() == root);
        assert(reaches(*g, root, root));
        assert(worklist@[0] == root);
        assert(search_inv(*g, marks@, Seq::empty()));
    }
    while worklist.len() > 0
        invariant
            graph_wf(*g),
            root < n,
            n == g.nodes.len(),
            marks.len() == n,
            reached.len() == n,
            search_inv(*g, marks@, Seq::empty()),
            search(*g, worklist@, reached@, marks@) == flatten_search(*g, root),
            forall|u: int| 0 <= u < n && #[trigger] reached@[u] ==> marks@[u] == Mark::Cleared,
            forall|u: int| 0 <= u < n && #[trigger] reached@[u] ==> reaches(*g, root, u as usize),
            forall|k: int|
                0 <= k < worklist.len() ==> #[trigger] worklist@[k] < n && reaches(*g, root, worklist@[k]),
            reached@[root as int] || worklist@.contains(root),
            forall|u: usize, w: usize|
                #![trigger reached@[u as int], ref_edge(*g, u, w)]
                u < n && reached@[u as int] && ref_edge(*g, u, w) ==> w < n && (reached@[w as int]
                    || worklist@.contains(w)),
        decreases unreached_count(reached@), worklist.len(),
    {
        let ghost before = worklist@;
        let s = worklist.pop().unwrap();
        proof {
            assert(before == worklist@.push(s));
            assert(s == before[before.len() - 1]);
            assert forall|w: usize| #[trigger] before.contains(w) && w != s implies worklist@.contains(w) by {
                let k = choose|k: int| 0 <= k < before.len() && before[k] == w;
                assert(worklist@[k] == w);
            }
            assert forall|k: int| 0 <= k < worklist.len() implies #[trigger] worklist@[k] < n && reaches(
                *g,
                root,
                worklist@[k],
            ) by {
                assert(worklist@[k] == before[k]);
            }
        }
        if reached[s] {
            continue;
        }
        let ghost reached_before = reached@;
        let ghost marks_before = marks@;
        reached.set(s, true);
        proof {
            lemma_unreached_count_set(reached_before, s as int);
        }
        proof {
            lemma_unseen_count_le(marks@);
        }
        match check_acyclic(g, s, &mut marks, Ghost(Seq::empty()), Ghost((n + 1) as nat)) {
            Ok(()) => {},
            Err(e) => {
                proof {
                    let (w, q) = choose|w: usize, q: Seq<usize>|
                        {
                            &&& on_flatten_cycle(*g, w)
                            &&& flatten_path(*g, q)
                            &&& q[0] == Seq::<usize>::empty().push(s)[0]
                            &&& q.last() == w
                            &&& e@ == ErrorOf::CyclicFlattening(g.nodes@[w as int].display_name@)
                        };
                    assert(q[0] == s);
                    let p = choose|p: Seq<usize>| ref_path(*g, p) && p[0] == root && p.last() == s;
                    lemma_join_paths(*g, p, q);
                    assert(reaches(*g, root, w));
                }
                return Err(e);
            },
        }
        let fields = &g.nodes[s].fields;
        let ghost wl0 = worklist@;
        let mut j: usize = 0;
        while j < fields.len()
            invariant
                graph_wf(*g),
                s < n,
                n == g.nodes.len(),
                fields == &g.nodes@[s as int].fields,
                j <= fields.len(),
                reaches(*g, root, s),
                worklist@ == wl0 + field_targets(*g, s, j as int),
                wl0.len() <= worklist.len(),
                forall|k: int| 0 <= k < wl0.len() ==> #[trigger] worklist@[k] == wl0[k],
                forall|k: int|
                    0 <= k < worklist.len() ==> #[trigger] worklist@[k] < n && reaches(*g, root, worklist@[k]),
                forall|k: int|
                    0 <= k < j ==> match struct_target(#[trigger] field_at(*g, s, k).ty) {
                        Some(w) => worklist@.contains(w),
                        None => true,
                    },
            decreases fields.len() - j,
        {
            let ghost wl1 = worklist@;
            assert(field_at(*g, s, j as int) == fields@[j as int]);
            collect_struct_types(&fields[j].ty, &mut worklist);
            proof {
                assert(worklist@ =~= wl0 + field_targets(*g, s, j as int + 1));
                if let Some(w) = struct_target(fields@[j as int].ty) {
                    assert(worklist@[wl1.len() as int] == w);
                    assert(ref_edge(*g, s, w));
                    lemma_reaches_step(*g, root, s, w);
                }
                assert forall|k: int| 0 <= k < j + 1 implies match struct_target(
                    #[trigger] field_at(*g, s, k).ty,
                ) {
                    Some(w) => worklist@.contains(w),
                    None => true,
                } by {
                    if k < j {
                        if let Some(w) = struct_target(field_at(*g, s, k).ty) {
                            let m = choose|m: int| 0 <= m < wl1.len() && wl1[m] == w;
                            assert(worklist@[m] == w);
                        }
                    }
                }
            }
            j = j + 1;
        }
        proof {
            assert forall|u: usize, w: usize|
                #![trigger reached@[u as int], ref_edge(*g, u, w)]
                u < n && reached@[u as int] && ref_edge(*g, u, w) implies w < n && (reached@[w as int]
                    || worklist@.contains(w)) by {
                if u == s {
                    let k = choose|k: int|
                        0 <= k < g.nodes@[u as int].fields.len() && struct_target(
                            #[trigger] field_at(*g, u, k).ty,
                        ) == Some(w);
                    assert(w < n);
                } else {
                    assert(reached_before[u as int]);
                    if !reached@[w as int] {
                        assert(before.contains(w));
                        assert(w != s);
                        assert(wl0.contains(w));
                        let m = choose|m: int| 0 <= m < wl0.len() && wl0[m] == w;
                        assert(worklist@[m] == w);
                    }
                }
            }
            if !reached@[root as int] {
                assert(before.contains(root));
                let m = choose|m: int| 0 <= m < wl0.len() && wl0[m] == root;
                assert(worklist@[m] == root);
            }
            assert forall|u: int| 0 <= u < n && #[trigger] reached@[u] implies marks@[u] == Mark::Cleared by {
                if u != s as int {
                    assert(reached_before[u]);
                }
            }
        }
    }
    proof {
        assert forall|v: usize| reaches(*g, root, v) implies !on_flatten_cycle(*g, v) by {
            let p = choose|p: Seq<usize>| ref_path(*g, p) && p[0] == root && p.last() == v;
            assert forall|u: usize, w: usize|
                #![trigger reached@[u as int], ref_edge(*g, u, w)]
                u < reached@.len() && reached@[u as int] && ref_edge(*g, u, w) implies w < reached@.len()
                    && reached@[w as int] by {
                assert(!worklist@.contains(w));
            }
            assert(!worklist@.contains(root));
            lemma_closed_holds_walk(*g, reached@, p, p.len() - 1);
        }
    }
    Ok(())
}

} // verus!
