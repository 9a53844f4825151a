//! The workspace dependency graph: per-file imports and exports, import
//! resolution into edges, and impact analysis by reverse reachability.
//!
//! Nodes are kept in the order in which their files were first added, and
//! edges in the order of the nodes; an import resolves to the first node
//! that matches it in that order.
use vstd::prelude::*;
use crate::ast::{extension, extension_of, last_index, last_index_of, lemma_last_index, supported_ext};
use crate::scanner::{class_word, word_after};
use crate::text::{
    after, before, before_seq, chars_of, contains, ends_with, ends_with_seq, find_in, lines,
    remove_all, remove_all_of, same_chars, slice_of, split_lines, split_ws, starts_with,
    starts_with_seq, string_of, strs, tokens, trim, trim_ws, views, module_spec, module_specifier,
};

verus! {

broadcast use vstd::std_specs::vec::group_vec_axioms, vstd::seq::group_seq_axioms,
    vstd::string::group_string_axioms;

/// One analysed file: its workspace-relative path, the relative modules it
/// imports and the names it exports.
#[derive(Clone, Debug)]
pub struct GraphNode {
    pub file_path: String,
    pub imports: Vec<String>,
    pub exports: Vec<String>,
}

/// The analysed files and, for each, the files it depends on.
#[derive(Debug)]
pub struct DependencyGraph {
    pub nodes: Vec<GraphNode>,
    pub edges: Vec<(String, Vec<String>)>,
}

#[derive(Clone, Copy, Debug, PartialEq, Eq, Structural)]
pub enum RiskLevel {
    Low,
    Medium,
    High,
}

/// The result of one impact query.
#[derive(Debug)]
pub struct ImpactAnalysis {
    pub changed_files: Vec<String>,
    pub impacted_files: Vec<String>,
    pub risk_level: RiskLevel,
}

/// Builds the dependency graph of a workspace and answers impact queries.
pub struct DependencyGraphBuilder {
    graph: DependencyGraph,
    workspace_root: String,
}

/// The risk tier of a change that touches `total` files in all.
pub open spec fn risk_of(total: int) -> RiskLevel {
    if total <= 2 {
        RiskLevel::Low
    } else if total <= 7 {
        RiskLevel::Medium
    } else {
        RiskLevel::High
    }
}

/// A relative module specifier with the canonical extension added where it
/// has none of the four recognised ones.
pub open spec fn resolve_path(m: Seq<char>) -> Seq<char> {
    if ends_with(m, ".ts"@) || ends_with(m, ".js"@) || ends_with(m, ".tsx"@) || ends_with(
        m,
        ".jsx"@,
    ) {
        m
    } else {
        m + ".ts"@
    }
}

pub open spec fn relative_import(m: Seq<char>) -> Seq<Seq<char>> {
    if starts_with(m, "."@) {
        seq![resolve_path(m)]
    } else {
        Seq::empty()
    }
}

/// The module of an `import ... from '<m>'` on the trimmed line `l`.
pub open spec fn from_import(l: Seq<char>) -> Seq<Seq<char>> {
    if starts_with(l, "import "@) && contains(l, " from "@) {
        relative_import(module_spec(after(l, " from "@)))
    } else {
        Seq::empty()
    }
}

/// The module of a `require('<m>')` on the trimmed line `l`.
pub open spec fn require_import(l: Seq<char>) -> Seq<Seq<char>> {
    if contains(l, "require("@) && contains(after(l, "require("@), ")"@) {
        relative_import(module_spec(before(after(l, "require("@), ")"@)))
    } else {
        Seq::empty()
    }
}

pub open spec fn imports_upto(ls: Seq<Seq<char>>, k: int) -> Seq<Seq<char>>
    decreases k,
{
    if k <= 0 || k > ls.len() {
        Seq::empty()
    } else {
        let l = trim(ls[k - 1]);
        imports_upto(ls, k - 1) + from_import(l) + require_import(l)
    }
}

/// The relative imports of a text, in line order, extensions added.
pub open spec fn imports_of(text: Seq<char>) -> Seq<Seq<char>> {
    imports_upto(lines(text), lines(text).len() as int)
}

/// The token after the first `const`, `let` or `var` in `parts[i..]` that has
/// a token after it.
pub open spec fn binding_after(parts: Seq<Seq<char>>, i: int) -> Option<Seq<char>>
    decreases parts.len() - i,
{
    if i < 0 || i >= parts.len() {
        None
    } else if (parts[i] == "const"@ || parts[i] == "let"@ || parts[i] == "var"@) && i + 1
        < parts.len() {
        Some(parts[i + 1])
    } else {
        binding_after(parts, i + 1)
    }
}

pub open spec fn opt_seq(o: Option<Seq<char>>) -> Seq<Seq<char>> {
    match o {
        Some(x) => seq![x],
        None => Seq::empty(),
    }
}

/// The name exported by the trimmed line `l`, if it is one of the forms
/// recognised: a function, a class, or a `const`/`let`/`var` binding.
pub open spec fn line_exports(l: Seq<char>) -> Seq<Seq<char>> {
    if !starts_with(l, "export "@) {
        Seq::empty()
    } else if contains(l, "function "@) {
        match word_after(tokens(l), "function"@, 0) {
            Some(t) => seq![before(t, "("@)],
            None => Seq::empty(),
        }
    } else if contains(l, "class "@) {
        match word_after(tokens(l), "class"@, 0) {
            Some(t) => seq![class_word(t)],
            None => Seq::empty(),
        }
    } else if contains(l, "const "@) || contains(l, "let "@) || contains(l, "var "@) {
        match binding_after(tokens(l), 0) {
            Some(t) => seq![trim(before(t, "="@))],
            None => Seq::empty(),
        }
    } else {
        Seq::empty()
    }
}

pub open spec fn exports_upto(ls: Seq<Seq<char>>, k: int) -> Seq<Seq<char>>
    decreases k,
{
    if k <= 0 || k > ls.len() {
        Seq::empty()
    } else {
        exports_upto(ls, k - 1) + line_exports(trim(ls[k - 1]))
    }
}

/// The exported names of a text, in line order.
pub open spec fn exports_of(text: Seq<char>) -> Seq<Seq<char>> {
    exports_upto(lines(text), lines(text).len() as int)
}

/// The index of the first token `kw` in `parts` that has a token after it.
pub(crate) fn next_word(parts: &Vec<Vec<char>>, kw: &Vec<char>) -> (r: Option<usize>)
    ensures
        match word_after(views(parts@), kw@, 0) {
            Some(t) => r matches Some(i) && i + 1 < parts@.len() && parts@[i + 1]@ == t,
            None => r is None,
        },
{
    let mut i: usize = 0;
    while i < parts.len()
        invariant
            i <= parts@.len(),
            word_after(views(parts@), kw@, 0) == word_after(views(parts@), kw@, i as int),
        decreases parts@.len() - i,
    {
        assert(views(parts@)[i as int] == parts@[i as int]@);
        if same_chars(&parts[i], kw) && i + 1 < parts.len() {
            assert(views(parts@)[i + 1] == parts@[i + 1]@);
            return Some(i);
        }
        i = i + 1;
    }
    None
}

/// The paths of the graph's nodes, in order.
pub open spec fn keys(g: DependencyGraph) -> Seq<Seq<char>> {
    g.nodes@.map_values(|n: GraphNode| n.file_path@)
}

/// The graph's edges as (file, dependencies) pairs.
pub open spec fn edge_view(g: DependencyGraph) -> Seq<(Seq<char>, Seq<Seq<char>>)> {
    g.edges@.map_values(|e: (String, Vec<String>)| (e.0@, strs(e.1@)))
}

/// Node paths are unique.
pub open spec fn graph_wf(g: DependencyGraph) -> bool {
    keys(g).no_duplicates()
}

/// `n` is the analysis of the file at `path` with text `content`.
pub open spec fn is_analysis(n: GraphNode, path: Seq<char>, content: Seq<char>) -> bool {
    &&& n.file_path@ == path
    &&& strs(n.imports@) == imports_of(content)
    &&& strs(n.exports@) == exports_of(content)
}

/// Whether the node path `k` answers the import `imp`: it ends with it, is
/// it, or equals it once every `.ts` is taken out of both.
pub open spec fn matches_file(k: Seq<char>, imp: Seq<char>) -> bool {
    ends_with(k, imp) || k == imp || remove_all(k, ".ts"@) == remove_all(imp, ".ts"@)
}

pub open spec fn first_match(ks: Seq<Seq<char>>, imp: Seq<char>, i: int) -> Option<Seq<char>>
    decreases ks.len() - i,
{
    if i < 0 || i >= ks.len() {
        None
    } else if matches_file(ks[i], imp) {
        Some(ks[i])
    } else {
        first_match(ks, imp, i + 1)
    }
}

/// The node that an import resolves to: the first that matches it.
pub open spec fn resolve_file(ks: Seq<Seq<char>>, imp: Seq<char>) -> Option<Seq<char>> {
    first_match(ks, imp, 0)
}


/// The directory part of a slash-separated path: what comes before its
/// last slash, or nothing.
pub open spec fn dir_of(p: Seq<char>) -> Seq<char> {
    if last_index(p, '/') >= 0 {
        p.subrange(0, last_index(p, '/'))
    } else {
        Seq::empty()
    }
}

/// The relative module `m` seen from the directory `dir`: each leading `./`
/// is dropped, each leading `../` goes up one directory, and what is left is
/// put under the directory reached.
pub open spec fn join_rel(dir: Seq<char>, m: Seq<char>) -> Seq<char>
    decreases m.len(),
{
    if starts_with(m, seq!['.', '/']) {
        join_rel(dir, m.subrange(2, m.len() as int))
    } else if starts_with(m, seq!['.', '.', '/']) {
        join_rel(dir_of(dir), m.subrange(3, m.len() as int))
    } else if dir.len() == 0 {
        m
    } else {
        dir + seq!['/'] + m
    }
}

/// The dependencies of a file in directory `dir` with these imports: each
/// import, seen from `dir`, that resolves, in order; the others are dropped.
pub open spec fn resolved_deps(ks: Seq<Seq<char>>, dir: Seq<char>, imports: Seq<Seq<char>>) -> Seq<
    Seq<char>,
>
    decreases imports.len(),
{
    if imports.len() == 0 {
        Seq::empty()
    } else {
        resolved_deps(ks, dir, imports.drop_last()) + opt_seq(
            resolve_file(ks, join_rel(dir, imports.last())),
        )
    }
}

/// Every node has its edge entry, in node order, holding its resolved imports.
pub open spec fn edges_built(g: DependencyGraph) -> bool {
    &&& edge_view(g).len() == keys(g).len()
    &&& forall|i: int|
        0 <= i < edge_view(g).len() ==> #[trigger] edge_view(g)[i] == (
            keys(g)[i],
            resolved_deps(keys(g), dir_of(keys(g)[i]), strs(g.nodes@[i].imports@)),
        )
}

/// The index of the last of `paths[..k]` equal to `p`, or -1.
pub open spec fn last_path(paths: Seq<Seq<char>>, p: Seq<char>, k: int) -> int
    decreases k,
{
    if k <= 0 || k > paths.len() {
        -1
    } else if paths[k - 1] == p {
        k - 1
    } else {
        last_path(paths, p, k - 1)
    }
}

pub open spec fn file_paths(files: Seq<(String, String)>) -> Seq<Seq<char>> {
    files.map_values(|f: (String, String)| f.0@)
}

/// The nodes of `g` are the analyses of the ts/js/tsx/jsx files among
/// `files[..k]`: one node for each distinct such path, holding the last text
/// given for that path.
pub open spec fn nodes_from(g: DependencyGraph, files: Seq<(String, String)>, k: int) -> bool {
    &&& graph_wf(g)
    &&& forall|j: int|
        0 <= j < k && supported_ext(extension(files[j].0@)) ==> keys(g).contains(
            #[trigger] files[j].0@,
        )
    &&& forall|i: int|
        0 <= i < g.nodes@.len() ==> {
            let j = last_path(file_paths(files), (#[trigger] g.nodes@[i]).file_path@, k);
            &&& supported_ext(extension(g.nodes@[i].file_path@))
            &&& 0 <= j
            &&& is_analysis(g.nodes@[i], files[j].0@, files[j].1@)
        }
}

/// `y` depends on `x`: some edge entry of `y` lists `x`.
pub open spec fn is_dep(ev: Seq<(Seq<char>, Seq<Seq<char>>)>, x: Seq<char>, y: Seq<char>) -> bool {
    exists|i: int| 0 <= i < ev.len() && ev[i].0 == y && #[trigger] ev[i].1.contains(x)
}

/// Each file of `p` depends on the one before it.
pub open spec fn is_dep_path(ev: Seq<(Seq<char>, Seq<Seq<char>>)>, p: Seq<Seq<char>>) -> bool {
    &&& p.len() >= 1
    &&& forall|k: int| 0 <= k < p.len() - 1 ==> is_dep(ev, #[trigger] p[k], p[k + 1])
}

/// `y` transitively depends on one of `changed`, or is one of them.
pub open spec fn reachable(
    ev: Seq<(Seq<char>, Seq<Seq<char>>)>,
    changed: Seq<Seq<char>>,
    y: Seq<char>,
) -> bool {
    exists|p: Seq<Seq<char>>| is_dep_path(ev, p) && changed.contains(p[0]) && p.last() == y
}

/// The files put at risk by changing `changed`: those that transitively
/// depend on one of them, leaving out the changed files themselves.
pub open spec fn impact_set(ev: Seq<(Seq<char>, Seq<Seq<char>>)>, changed: Seq<Seq<char>>) -> Set<
    Seq<char>,
> {
    Set::new(|y: Seq<char>| reachable(ev, changed, y) && !changed.contains(y))
}

proof fn lemma_reach_start(
    ev: Seq<(Seq<char>, Seq<Seq<char>>)>,
    changed: Seq<Seq<char>>,
    c: Seq<char>,
)
    requires
        changed.contains(c),
    ensures
        reachable(ev, changed, c),
{
    let p = seq![c];
    assert(is_dep_path(ev, p) && changed.contains(p[0]) && p.last() == c);
}

proof fn lemma_reach_step(
    ev: Seq<(Seq<char>, Seq<Seq<char>>)>,
    changed: Seq<Seq<char>>,
    x: Seq<char>,
    y: Seq<char>,
)
    requires
        reachable(ev, changed, x),
        is_dep(ev, x, y),
    ensures
        reachable(ev, changed, y),
{
    let p = choose|p: Seq<Seq<char>>| is_dep_path(ev, p) && changed.contains(p[0]) && p.last() == x;
    let q = p.push(y);
    assert forall|k: int| 0 <= k < q.len() - 1 implies is_dep(ev, #[trigger] q[k], q[k + 1]) by {
        if k < p.len() - 1 {
            assert(q[k] == p[k] && q[k + 1] == p[k + 1]);
        }
    }
    assert(q[0] == p[0]);
    assert(is_dep_path(ev, q) && changed.contains(q[0]) && q.last() == y);
}

/// A set that holds `changed` and is closed under dependents holds every
/// file reachable from `changed`.
proof fn lemma_closed_holds_path(
    ev: Seq<(Seq<char>, Seq<Seq<char>>)>,
    changed: Seq<Seq<char>>,
    r: Seq<Seq<char>>,
    p: Seq<Seq<char>>,
)
    requires
        forall|c: Seq<char>| changed.contains(c) ==> r.contains(c),
        forall|x: Seq<char>, y: Seq<char>| r.contains(x) && #[trigger] is_dep(ev, x, y) ==> r.contains(y),
        is_dep_path(ev, p),
        changed.contains(p[0]),
    ensures
        r.contains(p.last()),
    decreases p.len(),
{
    if p.len() > 1 {
        let q = p.drop_last();
        assert forall|k: int| 0 <= k < q.len() - 1 implies is_dep(ev, #[trigger] q[k], q[k + 1]) by {
            assert(q[k] == p[k] && q[k + 1] == p[k + 1]);
        }
        lemma_closed_holds_path(ev, changed, r, q);
        assert(is_dep(ev, p[p.len() - 2], p[p.len() - 1]));
    }
}

/// Distinct files drawn from `changed` and the edge keys are no more than
/// both counts together.
proof fn lemma_reached_bound(
    r: Seq<Seq<char>>,
    changed: Seq<Seq<char>>,
    ev: Seq<(Seq<char>, Seq<Seq<char>>)>,
)
    requires
        r.no_duplicates(),
        forall|x: Seq<char>|
            #[trigger] r.contains(x) ==> changed.contains(x) || exists|i: int|
                0 <= i < ev.len() && ev[i].0 == x,
    ensures
        r.len() <= changed.len() + ev.len(),
{
    let ks = ev.map_values(|e: (Seq<char>, Seq<Seq<char>>)| e.0);
    let u = changed.to_set().union(ks.to_set());
    r.unique_seq_to_set();
    changed.lemma_cardinality_of_set();
    ks.lemma_cardinality_of_set();
    vstd::seq_lib::seq_to_set_is_finite(changed);
    vstd::seq_lib::seq_to_set_is_finite(ks);
    vstd::set_lib::lemma_len_union(changed.to_set(), ks.to_set());
    assert forall|x: Seq<char>| r.to_set().contains(x) implies u.contains(x) by {
        assert(r.contains(x));
        if !changed.contains(x) {
            let i = choose|i: int| 0 <= i < ev.len() && ev[i].0 == x;
            assert(ks[i] == x);
        }
    }
    vstd::set_lib::lemma_len_subset(r.to_set(), u);
}

proof fn lemma_push_contains(s: Seq<Seq<char>>, x: Seq<char>)
    ensures
        forall|y: Seq<char>| #[trigger] s.push(x).contains(y) <==> s.contains(y) || y == x,
{
    assert forall|y: Seq<char>| #[trigger] s.push(x).contains(y) implies s.contains(y) || y == x by {
        let k = choose|k: int| 0 <= k < s.push(x).len() && s.push(x)[k] == y;
        if k < s.len() {
            assert(s[k] == y);
        }
    }
    assert forall|y: Seq<char>| s.contains(y) || y == x implies #[trigger] s.push(x).contains(y) by {
        if s.contains(y) {
            let k = choose|k: int| 0 <= k < s.len() && s[k] == y;
            assert(s.push(x)[k] == y);
        } else {
            assert(s.push(x)[s.len() as int] == y);
        }
    }
}

/// The directory part of `p`.
fn dir_of_path(p: &Vec<char>) -> (r: Vec<char>)
    ensures
        r@ == dir_of(p@),
{
    proof {
        lemma_last_index(p@, '/');
    }
    match last_index_of(p, '/') {
        Some(k) => slice_of(p, 0, k),
        None => Vec::new(),
    }
}

/// The relative module `m` seen from the directory `dir`.
fn join_relative(dir: &Vec<char>, m: &Vec<char>) -> (r: Vec<char>)
    ensures
        r@ == join_rel(dir@, m@),
{
    let n = m.len();
    let mut d = slice_of(dir, 0, dir.len());
    let mut i: usize = 0;
    assert(d@ =~= dir@);
    assert(m@.subrange(0, n as int) =~= m@);
    loop
        invariant
            n == m@.len(),
            i <= n,
            join_rel(dir@, m@) == join_rel(d@, m@.subrange(i as int, n as int)),
        ensures
            i <= n,
            join_rel(dir@, m@) == (if d@.len() == 0 {
                m@.subrange(i as int, n as int)
            } else {
                d@ + seq!['/'] + m@.subrange(i as int, n as int)
            }),
        decreases n - i,
    {
        let ghost rest = m@.subrange(i as int, n as int);
        if n - i > 1 && m[i] == '.' && m[i + 1] == '/' {
            assert(rest.subrange(0, 2) =~= seq!['.', '/']);
            assert(rest.subrange(2, rest.len() as int) =~= m@.subrange(i + 2, n as int));
            i = i + 2;
        } else if n - i > 2 && m[i] == '.' && m[i + 1] == '.' && m[i + 2] == '/' {
            assert(!starts_with(rest, seq!['.', '/'])) by {
                if starts_with(rest, seq!['.', '/']) {
                    assert(rest.subrange(0, 2)[1] == '/');
                }
            }
            assert(rest.subrange(0, 3) =~= seq!['.', '.', '/']);
            assert(rest.subrange(3, rest.len() as int) =~= m@.subrange(i + 3, n as int));
            d = dir_of_path(&d);
            i = i + 3;
        } else {
            assert(!starts_with(rest, seq!['.', '/'])) by {
                if starts_with(rest, seq!['.', '/']) {
                    assert(rest.subrange(0, 2)[0] == '.' && rest.subrange(0, 2)[1] == '/');
                    assert(rest[0] == m@[i as int] && rest[1] == m@[i + 1]);
                }
            }
            assert(!starts_with(rest, seq!['.', '.', '/'])) by {
                if starts_with(rest, seq!['.', '.', '/']) {
                    assert(rest.subrange(0, 3)[2] == '/');
                    assert(rest[0] == m@[i as int] && rest[1] == m@[i + 1] && rest[2] == m@[i + 2]);
                }
            }
            assert(join_rel(d@, rest) == (if d@.len() == 0 {
                rest
            } else {
                d@ + seq!['/'] + rest
            }));
            break;
        }
    }
    let tail = slice_of(m, i, n);
    assert(join_rel(dir@, m@) == (if d@.len() == 0 {
        tail@
    } else {
        d@ + seq!['/'] + tail@
    }));
    if d.len() == 0 {
        return tail;
    }
    d.push('/');
    let mut k: usize = 0;
    let ghost base = d@;
    while k < tail.len()
        invariant
            k <= tail@.len(),
            d@ == base + tail@.subrange(0, k as int),
        decreases tail@.len() - k,
    {
        d.push(tail[k]);
        k = k + 1;
        assert(d@ =~= base + tail@.subrange(0, k as int));
    }
    assert(tail@.subrange(0, k as int) =~= tail@);
    assert(d@ =~= base + tail@);
    d
}

/// Whether `s` is one of `v`.
fn contains_str(v: &[String], s: &String) -> (r: bool)
    ensures
        r == strs(v@).contains(s@),
{
    let mut i: usize = 0;
    while i < v.len()
        invariant
            i <= v@.len(),
            forall|j: int| 0 <= j < i ==> v@[j]@ != s@,
        decreases v@.len() - i,
    {
        if v[i] == *s {
            assert(strs(v@)[i as int] == s@);
            return true;
        }
        i = i + 1;
    }
    assert forall|j: int| 0 <= j < strs(v@).len() implies strs(v@)[j] != s@ by {
        assert(strs(v@)[j] == v@[j]@);
    }
    false
}

pub open spec fn opt_str(o: Option<String>) -> Seq<Seq<char>> {
    match o {
        Some(x) => seq![x@],
        None => Seq::empty(),
    }
}

impl DependencyGraphBuilder {

    pub fn new(workspace_root: &str) -> (r: DependencyGraphBuilder)
        ensures
            r.graph_of().nodes@.len() == 0,
            r.graph_of().edges@.len() == 0,
            r.root_of() == workspace_root@,
    {
        DependencyGraphBuilder {
            graph: DependencyGraph { nodes: Vec::new(), edges: Vec::new() },
            workspace_root: workspace_root.to_string(),
        }
    }

    /// The graph held by the builder.
    pub closed spec fn graph_of(&self) -> DependencyGraph {
        self.graph
    }

    /// The workspace root the builder was made for.
    pub closed spec fn root_of(&self) -> Seq<char> {
        self.workspace_root@
    }

    /// The graph built so far.
    pub fn get_graph(&self) -> (r: &DependencyGraph)
        ensures
            *r == self.graph_of(),
    {
        &self.graph
    }

    /// Whether the dependency scan reads the file at `path`.
    pub fn is_supported_file(&self, path: &str) -> (r: bool)
        ensures
            r == supported_ext(extension(path@)),
    {
        let ext = extension_of(path);
        let e = chars_of(ext.as_str());
        same_chars(&e, &chars_of("ts")) || same_chars(&e, &chars_of("js")) || same_chars(
            &e,
            &chars_of("tsx"),
        ) || same_chars(&e, &chars_of("jsx"))
    }

    /// Analyses the file at `relative_path` and records its node, replacing
    /// any node already recorded for that path.
    pub fn analyze_file(&mut self, relative_path: &str, content: &str)
        requires
            graph_wf(old(self).graph_of()),
        ensures
            graph_wf(final(self).graph_of()),
            final(self).root_of() == old(self).root_of(),
            keys(old(self).graph_of()).contains(relative_path@) ==> keys(final(self).graph_of())
                == keys(old(self).graph_of()),
            !keys(old(self).graph_of()).contains(relative_path@) ==> keys(final(self).graph_of())
                == keys(old(self).graph_of()).push(relative_path@),
            keys(old(self).graph_of()).contains(relative_path@) ==> exists|k: int|
                0 <= k < old(self).graph_of().nodes@.len() && keys(old(self).graph_of())[k]
                    == relative_path@ && final(self).graph_of().nodes@.len()
                    == old(self).graph_of().nodes@.len() && is_analysis(
                    final(self).graph_of().nodes@[k],
                    relative_path@,
                    content@,
                ) && forall|j: int|
                    0 <= j < old(self).graph_of().nodes@.len() && j != k ==> final(self).graph_of().nodes@[j]
                        == old(self).graph_of().nodes@[j],
            !keys(old(self).graph_of()).contains(relative_path@) ==> final(self).graph_of().nodes@.len()
                == old(self).graph_of().nodes@.len() + 1 && is_analysis(
                final(self).graph_of().nodes@.last(),
                relative_path@,
                content@,
            ) && forall|j: int|
                0 <= j < old(self).graph_of().nodes@.len() ==> final(self).graph_of().nodes@[j] == old(self).graph_of().nodes@[j],
    {
        let imports = self.extract_imports(content);
        let exports = self.extract_exports(content);
        let path = relative_path.to_string();
        let node = GraphNode { file_path: path, imports, exports };
        let ghost old_graph = self.graph;
        let mut k: usize = 0;
        while k < self.graph.nodes.len()
            invariant
                self.graph == old_graph,
                self.workspace_root == old(self).workspace_root,
                old_graph == old(self).graph,
                graph_wf(old_graph),
                is_analysis(node, relative_path@, content@),
                k <= old_graph.nodes@.len(),
                forall|j: int| 0 <= j < k ==> keys(old_graph)[j] != relative_path@,
            decreases old_graph.nodes@.len() - k,
        {
            assert(keys(old_graph)[k as int] == self.graph.nodes@[k as int].file_path@);
            if self.graph.nodes[k].file_path == node.file_path {
                self.graph.nodes[k] = node;
                assert(keys(self.graph) =~= keys(old_graph));
                assert(keys(old_graph)[k as int] == relative_path@);
                assert(keys(old_graph).contains(relative_path@));
                assert(is_analysis(self.graph.nodes@[k as int], relative_path@, content@));
                return;
            }
            k = k + 1;
        }
        assert(!keys(old_graph).contains(relative_path@));
        self.graph.nodes.push(node);
        assert(keys(self.graph) =~= keys(old_graph).push(relative_path@));
    }

    /// Resolves an import to the first node path that answers it.
    fn resolve_import_to_file(&self, import_path: &String) -> (r: Option<String>)
        ensures
            match resolve_file(keys(self.graph), import_path@) {
                Some(k) => r matches Some(s) && s@ == k,
                None => r is None,
            },
    {
        let imp = chars_of(import_path.as_str());
        let ts = chars_of(".ts");
        let imp_stripped = remove_all_of(&imp, &ts);
        let ghost ks = keys(self.graph);
        let mut i: usize = 0;
        while i < self.graph.nodes.len()
            invariant
                ks == keys(self.graph),
                imp@ == import_path@,
                ts@ == ".ts"@,
                imp_stripped@ == remove_all(import_path@, ".ts"@),
                i <= ks.len(),
                resolve_file(ks, import_path@) == first_match(ks, import_path@, i as int),
            decreases ks.len() - i,
        {
            let file_path = &self.graph.nodes[i].file_path;
            assert(ks[i as int] == file_path@);
            let k = chars_of(file_path.as_str());
            if ends_with_seq(&k, &imp) || same_chars(&k, &imp) || same_chars(
                &remove_all_of(&k, &ts),
                &imp_stripped,
            ) {
                return Some(file_path.clone());
            }
            i = i + 1;
        }
        None
    }

    /// Recomputes every node's dependency list from the current node set.
    fn build_edges(&mut self)
        ensures
            final(self).graph.nodes == old(self).graph.nodes,
            final(self).workspace_root == old(self).workspace_root,
            edges_built(final(self).graph),
    {
        let ghost ks = keys(self.graph);
        let mut edges: Vec<(String, Vec<String>)> = Vec::new();
        let mut i: usize = 0;
        while i < self.graph.nodes.len()
            invariant
                ks == keys(self.graph),
                self.graph.nodes == old(self).graph.nodes,
                self.workspace_root == old(self).workspace_root,
                i <= ks.len(),
                edges@.len() == i,
                forall|m: int|
                    0 <= m < i ==> (#[trigger] edges@[m]).0@ == ks[m] && strs(edges@[m].1@)
                        == resolved_deps(ks, dir_of(ks[m]), strs(self.graph.nodes@[m].imports@)),
            decreases ks.len() - i,
        {
            let node = &self.graph.nodes[i];
            let ghost imps = strs(node.imports@);
            assert(ks[i as int] == node.file_path@);
            let dir = dir_of_path(&chars_of(node.file_path.as_str()));
            let mut dependencies: Vec<String> = Vec::new();
            let mut j: usize = 0;
            while j < node.imports.len()
                invariant
                    ks == keys(self.graph),
                    imps == strs(node.imports@),
                    dir@ == dir_of(ks[i as int]),
                    j <= imps.len(),
                    strs(dependencies@) == resolved_deps(ks, dir@, imps.subrange(0, j as int)),
                decreases imps.len() - j,
            {
                let ghost prev = dependencies@;
                assert(imps[j as int] == node.imports@[j as int]@);
                let target = string_of(&join_relative(&dir, &chars_of(node.imports[j].as_str())));
                if let Some(target_file) = self.resolve_import_to_file(&target) {
                    dependencies.push(target_file);
                }
                assert(imps.subrange(0, j + 1).drop_last() =~= imps.subrange(0, j as int));
                assert(strs(dependencies@) =~= strs(prev) + opt_seq(
                    resolve_file(ks, join_rel(dir@, imps[j as int])),
                ));
                j = j + 1;
            }
            assert(imps.subrange(0, j as int) =~= imps);
            assert(ks[i as int] == node.file_path@);
            edges.push((node.file_path.clone(), dependencies));
            i = i + 1;
        }
        self.graph.edges = edges;
        assert(edge_view(self.graph).len() == ks.len());
    }

    /// Rebuilds the graph from the workspace's files, given as (relative path,
    /// text) pairs: one node per distinct path, holding the last text given
    /// for it, then the edges.
    pub fn build_graph(&mut self, files: &Vec<(String, String)>)
        ensures
            final(self).root_of() == old(self).root_of(),
            nodes_from(final(self).graph_of(), files@, files@.len() as int),
            edges_built(final(self).graph_of()),
    {
        self.graph = DependencyGraph { nodes: Vec::new(), edges: Vec::new() };
        assert(keys(self.graph) =~= Seq::<Seq<char>>::empty());
        let ghost paths = file_paths(files@);
        let mut i: usize = 0;
        while i < files.len()
            invariant
                self.root_of() == old(self).root_of(),
                paths == file_paths(files@),
                i <= files@.len(),
                nodes_from(self.graph, files@, i as int),
            decreases files@.len() - i,
        {
            let ghost before = self.graph;
            let ghost p = files@[i as int].0@;
            assert(paths[i as int] == p);
            if !self.is_supported_file(files[i].0.as_str()) {
                proof {
                    assert forall|m: int| 0 <= m < before.nodes@.len() implies last_path(
                        paths,
                        (#[trigger] before.nodes@[m]).file_path@,
                        i + 1,
                    ) == last_path(paths, before.nodes@[m].file_path@, i as int) by {
                        assert(supported_ext(extension(before.nodes@[m].file_path@)));
                    }
                }
                i = i + 1;
                continue;
            }
            self.analyze_file(files[i].0.as_str(), files[i].1.as_str());
            let ghost g = self.graph;
            proof {
                assert forall|j: int|
                    0 <= j < i + 1 && supported_ext(extension(files@[j].0@)) implies keys(g).contains(
                    #[trigger] files@[j].0@,
                ) by {
                    if j < i {
                        assert(keys(before).contains(files@[j].0@));
                        let w = choose|w: int| 0 <= w < keys(before).len() && keys(before)[w] == files@[j].0@;
                        assert(keys(g)[w] == files@[j].0@);
                    } else {
                        if keys(before).contains(p) {
                        } else {
                            assert(keys(g)[keys(g).len() - 1] == p);
                        }
                    }
                }
                assert forall|m: int| 0 <= m < g.nodes@.len() implies {
                    let j = last_path(paths, (#[trigger] g.nodes@[m]).file_path@, i + 1);
                    &&& supported_ext(extension(g.nodes@[m].file_path@))
                    &&& 0 <= j
                    &&& is_analysis(g.nodes@[m], files@[j].0@, files@[j].1@)
                } by {
                    assert(keys(g)[m] == g.nodes@[m].file_path@);
                    if g.nodes@[m].file_path@ == p {
                        if keys(before).contains(p) {
                            let k = choose|k: int|
                                0 <= k < before.nodes@.len() && keys(before)[k] == p
                                    && g.nodes@.len() == before.nodes@.len() && is_analysis(
                                    g.nodes@[k],
                                    p,
                                    files@[i as int].1@,
                                ) && forall|j: int|
                                    0 <= j < before.nodes@.len() && j != k ==> g.nodes@[j]
                                        == before.nodes@[j];
                            assert(keys(g)[k] == p);
                            assert(m == k);
                        } else {
                            assert(keys(g)[keys(g).len() - 1] == p);
                            assert(m == keys(g).len() - 1);
                        }
                    } else {
                        assert(last_path(paths, g.nodes@[m].file_path@, i + 1) == last_path(
                            paths,
                            g.nodes@[m].file_path@,
                            i as int,
                        ));
                        if keys(before).contains(p) {
                            let k = choose|k: int|
                                0 <= k < before.nodes@.len() && keys(before)[k] == p
                                    && g.nodes@.len() == before.nodes@.len() && is_analysis(
                                    g.nodes@[k],
                                    p,
                                    files@[i as int].1@,
                                ) && forall|j: int|
                                    0 <= j < before.nodes@.len() && j != k ==> g.nodes@[j]
                                        == before.nodes@[j];
                            assert(m != k);
                            assert(g.nodes@[m] == before.nodes@[m]);
                        } else {
                            assert(m < before.nodes@.len());
                            assert(g.nodes@[m] == before.nodes@[m]);
                        }
                    }
                }
            }
            i = i + 1;
        }
        self.build_edges();
    }


    /// The files whose dependency lists hold `file`, or `None` where there
    /// are none.
    fn find_dependents(&self, file: &String) -> (r: Option<Vec<String>>)
        ensures
            r is None <==> forall|y: Seq<char>| !is_dep(edge_view(self.graph), file@, y),
            r matches Some(v) ==> strs(v@).no_duplicates() && forall|y: Seq<char>|
                strs(v@).contains(y) <==> is_dep(edge_view(self.graph), file@, y),
    {
        let ghost ev = edge_view(self.graph);
        let mut dependents: Vec<String> = Vec::new();
        let mut i: usize = 0;
        while i < self.graph.edges.len()
            invariant
                ev == edge_view(self.graph),
                i <= ev.len(),
                strs(dependents@).no_duplicates(),
                forall|y: Seq<char>|
                    strs(dependents@).contains(y) <==> exists|j: int|
                        0 <= j < i && ev[j].0 == y && #[trigger] ev[j].1.contains(file@),
            decreases ev.len() - i,
        {
            let ghost prev = strs(dependents@);
            let (dependent_file, dependencies) = &self.graph.edges[i];
            assert(ev[i as int] == (dependent_file@, strs(dependencies@)));
            let listed = contains_str(dependencies.as_slice(), file);
            if listed && !contains_str(dependents.as_slice(), dependent_file) {
                dependents.push(dependent_file.clone());
                assert(strs(dependents@) =~= prev.push(dependent_file@));
                proof {
                    lemma_push_contains(prev, dependent_file@);
                }
                assert forall|a: int, b: int|
                    0 <= a < b < prev.len() + 1 implies prev.push(dependent_file@)[a]
                        != prev.push(dependent_file@)[b] by {
                    if b == prev.len() {
                        assert(prev.contains(prev[a]));
                    }
                }
            }
            i = i + 1;
            assert forall|y: Seq<char>|
                strs(dependents@).contains(y) <==> exists|j: int|
                    0 <= j < i && ev[j].0 == y && #[trigger] ev[j].1.contains(file@) by {
                if exists|j: int| 0 <= j < i && ev[j].0 == y && #[trigger] ev[j].1.contains(file@) {
                    let j = choose|j: int| 0 <= j < i && ev[j].0 == y && #[trigger] ev[j].1.contains(file@);
                    if j == i - 1 {
                        assert(listed);
                    }
                }
                if strs(dependents@).contains(y) && !prev.contains(y) {
                    assert(y == dependent_file@);
                    assert(ev[i - 1].1.contains(file@));
                }
            }
        }
        if dependents.len() == 0 {
            assert forall|y: Seq<char>| !is_dep(ev, file@, y) by {
                if is_dep(ev, file@, y) {
                    let j = choose|j: int| 0 <= j < ev.len() && ev[j].0 == y && #[trigger] ev[j].1.contains(file@);
                    assert(strs(dependents@).contains(y));
                }
            }
            None
        } else {
            assert(strs(dependents@).contains(strs(dependents@)[0]));
            assert(is_dep(ev, file@, strs(dependents@)[0]));
            Some(dependents)
        }
    }

    /// The risk tier of a change touching `changed_count + impacted_count` files.
    pub fn calculate_risk_level(&self, changed_count: usize, impacted_count: usize) -> (r: RiskLevel)
        ensures
            r == risk_of(changed_count + impacted_count as int),
    {
        if changed_count > 7 || impacted_count > 7 {
            return RiskLevel::High;
        }
        let total_impact = changed_count + impacted_count;
        if total_impact <= 2 {
            RiskLevel::Low
        } else if total_impact <= 7 {
            RiskLevel::Medium
        } else {
            RiskLevel::High
        }
    }

    /// The files put at risk by changing `changed_files`, with the risk tier
    /// of the change. The changed files are echoed as given.
    pub fn analyze_impact(&self, changed_files: &[String]) -> (r: ImpactAnalysis)
        ensures
            strs(r.changed_files@) == strs(changed_files@),
            strs(r.impacted_files@).no_duplicates(),
            strs(r.impacted_files@).to_set() == impact_set(
                edge_view(self.graph_of()),
                strs(changed_files@),
            ),
            r.risk_level == risk_of(changed_files@.len() + r.impacted_files@.len() as int),
    {
        let ghost ev = edge_view(self.graph);
        let ghost c = strs(changed_files@);
        let mut reached: Vec<String> = Vec::new();
        let mut i: usize = 0;
        while i < changed_files.len()
            invariant
                c == strs(changed_files@),
                i <= c.len(),
                strs(reached@).no_duplicates(),
                forall|j: int| 0 <= j < i ==> strs(reached@).contains(#[trigger] c[j]),
                forall|x: Seq<char>| #[trigger] strs(reached@).contains(x) ==> c.contains(x),
            decreases c.len() - i,
        {
            let ghost prev = strs(reached@);
            assert(c[i as int] == changed_files@[i as int]@);
            if !contains_str(reached.as_slice(), &changed_files[i]) {
                reached.push(changed_files[i].clone());
                assert(strs(reached@) =~= prev.push(c[i as int]));
                proof {
                    lemma_push_contains(prev, c[i as int]);
                }
            }
            assert(c.contains(c[i as int]));
            i = i + 1;
        }
        assert forall|x: Seq<char>| #[trigger] strs(reached@).contains(x) implies reachable(ev, c, x) by {
            lemma_reach_start(ev, c, x);
        }
        assert forall|x: Seq<char>| c.contains(x) implies #[trigger] strs(reached@).contains(x) by {
            let j = choose|j: int| 0 <= j < c.len() && c[j] == x;
        }
        let mut head: usize = 0;
        while head < reached.len()
            invariant
                ev == edge_view(self.graph),
                c == strs(changed_files@),
                head <= reached@.len(),
                strs(reached@).no_duplicates(),
                forall|x: Seq<char>| c.contains(x) ==> #[trigger] strs(reached@).contains(x),
                forall|x: Seq<char>|
                    #[trigger] strs(reached@).contains(x) ==> reachable(ev, c, x) && (c.contains(x)
                        || exists|e: int| 0 <= e < ev.len() && ev[e].0 == x),
                forall|k: int, y: Seq<char>|
                    0 <= k < head && #[trigger] is_dep(ev, strs(reached@)[k], y) ==> strs(
                        reached@,
                    ).contains(y),
            decreases c.len() + ev.len() - head,
        {
            proof {
                lemma_reached_bound(strs(reached@), c, ev);
            }
            let current_file = reached[head].clone();
            assert(current_file@ == strs(reached@)[head as int]);
            assert(strs(reached@).contains(current_file@));
            if let Some(dependents) = self.find_dependents(&current_file) {
                let mut t: usize = 0;
                while t < dependents.len()
                    invariant
                        ev == edge_view(self.graph),
                        c == strs(changed_files@),
                        head < reached@.len(),
                        current_file@ == strs(reached@)[head as int],
                        forall|y: Seq<char>|
                            strs(dependents@).contains(y) <==> is_dep(ev, current_file@, y),
                        t <= dependents@.len(),
                        strs(reached@).no_duplicates(),
                        forall|x: Seq<char>| c.contains(x) ==> #[trigger] strs(reached@).contains(x),
                        forall|x: Seq<char>|
                            #[trigger] strs(reached@).contains(x) ==> reachable(ev, c, x) && (
                            c.contains(x) || exists|e: int| 0 <= e < ev.len() && ev[e].0 == x),
                        forall|k: int, y: Seq<char>|
                            0 <= k < head && #[trigger] is_dep(ev, strs(reached@)[k], y)
                                ==> strs(reached@).contains(y),
                        forall|m: int|
                            0 <= m < t ==> strs(reached@).contains(#[trigger] strs(dependents@)[m]),
                    decreases dependents@.len() - t,
                {
                    let ghost prev = strs(reached@);
                    let dependent = &dependents[t];
                    assert(strs(dependents@)[t as int] == dependent@);
                    assert(strs(dependents@).contains(dependent@));
                    if !contains_str(reached.as_slice(), dependent) {
                        assert(strs(reached@).contains(current_file@));
                        proof {
                            lemma_reach_step(ev, c, current_file@, dependent@);
                        }
                        reached.push(dependent.clone());
                        assert(strs(reached@) =~= prev.push(dependent@));
                        proof {
                            lemma_push_contains(prev, dependent@);
                        }
                        assert forall|k: int| 0 <= k < prev.len() implies #[trigger] strs(reached@)[k] == prev[k] by {}
                    }
                    t = t + 1;
                }
                assert forall|y: Seq<char>| is_dep(ev, current_file@, y) implies strs(reached@).contains(y) by {
                    let m = choose|m: int| 0 <= m < strs(dependents@).len() && strs(dependents@)[m] == y;
                }
            }
            head = head + 1;
        }
        proof {
            assert forall|y: Seq<char>| reachable(ev, c, y) implies strs(reached@).contains(y) by {
                let p = choose|p: Seq<Seq<char>>| is_dep_path(ev, p) && c.contains(p[0]) && p.last() == y;
                assert forall|x: Seq<char>, z: Seq<char>| strs(reached@).contains(x) && #[trigger] is_dep(ev, x, z) implies strs(reached@).contains(z) by {
                    let k = choose|k: int| 0 <= k < strs(reached@).len() && strs(reached@)[k] == x;
                    assert(is_dep(ev, strs(reached@)[k], z));
                }
                lemma_closed_holds_path(ev, c, strs(reached@), p);
            }
        }
        let ghost rv = strs(reached@);
        let mut impacted_files: Vec<String> = Vec::new();
        let mut k: usize = 0;
        while k < reached.len()
            invariant
                rv == strs(reached@),
                c == strs(changed_files@),
                rv.no_duplicates(),
                k <= rv.len(),
                strs(impacted_files@).no_duplicates(),
                forall|y: Seq<char>|
                    #[trigger] strs(impacted_files@).contains(y) <==> (rv.subrange(0, k as int).contains(y)
                        && !c.contains(y)),
            decreases rv.len() - k,
        {
            let ghost prev = strs(impacted_files@);
            let ghost pre_sub = rv.subrange(0, k as int);
            let file = &reached[k];
            assert(rv[k as int] == file@);
            assert(!pre_sub.contains(file@)) by {
                if pre_sub.contains(file@) {
                    let w = choose|w: int| 0 <= w < pre_sub.len() && pre_sub[w] == file@;
                    assert(rv[w] == rv[k as int]);
                }
            }
            assert(rv.subrange(0, k + 1) =~= pre_sub.push(file@));
            proof {
                lemma_push_contains(pre_sub, file@);
            }
            if !contains_str(changed_files, file) {
                assert(!prev.contains(file@));
                impacted_files.push(file.clone());
                assert forall|a: int, b: int|
                    0 <= a < b < prev.len() + 1 implies prev.push(file@)[a] != prev.push(
                        file@,
                    )[b] by {
                    if b == prev.len() {
                        assert(prev.contains(prev[a]));
                    }
                }
                assert(strs(impacted_files@) =~= prev.push(file@));
                proof {
                    lemma_push_contains(prev, file@);
                }
            }
            k = k + 1;
        }
        assert(rv.subrange(0, k as int) =~= rv);
        assert(strs(impacted_files@).to_set() =~= impact_set(ev, c));
        let risk_level = self.calculate_risk_level(changed_files.len(), impacted_files.len());
        let mut echoed: Vec<String> = Vec::new();
        let mut e: usize = 0;
        while e < changed_files.len()
            invariant
                e <= changed_files@.len(),
                strs(echoed@) == strs(changed_files@).subrange(0, e as int),
            decreases changed_files@.len() - e,
        {
            let ghost prev = echoed@;
            echoed.push(changed_files[e].clone());
            assert(strs(echoed@) =~= strs(prev).push(changed_files@[e as int]@));
            e = e + 1;
            assert(strs(echoed@) =~= strs(changed_files@).subrange(0, e as int));
        }
        assert(strs(changed_files@).subrange(0, e as int) =~= strs(changed_files@));
        ImpactAnalysis { changed_files: echoed, impacted_files, risk_level }
    }

    fn resolve_import_path(&self, import_path: &Vec<char>) -> (r: Vec<char>)
        ensures
            r@ == resolve_path(import_path@),
    {
        if !ends_with_seq(import_path, &chars_of(".ts")) && !ends_with_seq(
            import_path,
            &chars_of(".js"),
        ) && !ends_with_seq(import_path, &chars_of(".tsx")) && !ends_with_seq(
            import_path,
            &chars_of(".jsx"),
        ) {
            let ext = chars_of(".ts");
            let mut resolved = slice_of(import_path, 0, import_path.len());
            let mut i: usize = 0;
            while i < ext.len()
                invariant
                    i <= ext@.len(),
                    resolved@ == import_path@ + ext@.subrange(0, i as int),
                decreases ext@.len() - i,
            {
                resolved.push(ext[i]);
                i = i + 1;
                assert(resolved@ =~= import_path@ + ext@.subrange(0, i as int));
            }
            assert(ext@.subrange(0, i as int) =~= ext@);
            resolved
        } else {
            let r = slice_of(import_path, 0, import_path.len());
            assert(r@ =~= import_path@);
            r
        }
    }

    /// Adds the resolved form of `m` to `imports` where `m` is relative.
    fn push_relative(&self, imports: &mut Vec<String>, m: &Vec<char>)
        ensures
            strs(final(imports)@) == strs(old(imports)@) + relative_import(m@),
    {
        let ghost prev = imports@;
        if starts_with_seq(m, &chars_of(".")) {
            imports.push(string_of(&self.resolve_import_path(m)));
        }
        assert(strs(imports@) =~= strs(prev) + relative_import(m@));
    }

    fn extract_imports(&self, content: &str) -> (r: Vec<String>)
        ensures
            strs(r@) == imports_of(content@),
    {
        let text = chars_of(content);
        let ls = split_lines(&text);
        let ghost lv = lines(content@);
        assert(views(ls@).len() == ls@.len());
        let mut imports: Vec<String> = Vec::new();
        let mut k: usize = 0;
        while k < ls.len()
            invariant
                views(ls@) == lv,
                k <= ls@.len(),
                strs(imports@) == imports_upto(lv, k as int),
            decreases ls@.len() - k,
        {
            assert(views(ls@)[k as int] == ls@[k as int]@);
            let trimmed = trim_ws(&ls[k]);
            let ghost l = trimmed@;
            if starts_with_seq(&trimmed, &chars_of("import ")) {
                let from = chars_of(" from ");
                match find_in(&trimmed, &from) {
                    Some(from_pos) => {
                        let n = trimmed.len();
                        let module_part = slice_of(&trimmed, from_pos + from.len(), n);
                        let module_name = module_specifier(&module_part);
                        self.push_relative(&mut imports, &module_name);
                    },
                    None => {},
                }
            }
            let ghost mid = strs(imports@);
            assert(mid == imports_upto(lv, k as int) + from_import(l));
            let require = chars_of("require(");
            match find_in(&trimmed, &require) {
                Some(require_start) => {
                    let n = trimmed.len();
                    let after_require = slice_of(&trimmed, require_start + require.len(), n);
                    match find_in(&after_require, &chars_of(")")) {
                        Some(quote_end) => {
                            let module_name = module_specifier(
                                &slice_of(&after_require, 0, quote_end),
                            );
                            self.push_relative(&mut imports, &module_name);
                        },
                        None => {},
                    }
                },
                None => {},
            }
            assert(strs(imports@) == mid + require_import(l));
            k = k + 1;
            assert(imports_upto(lv, k as int) == imports_upto(lv, k - 1) + from_import(l)
                + require_import(l));
        }
        imports
    }

    fn extract_function_name_from_export(&self, line: &Vec<char>) -> (r: Option<String>)
        ensures
            match word_after(tokens(line@), "function"@, 0) {
                Some(t) => opt_str(r) == seq![before(t, "("@)],
                None => r is None,
            },
    {
        let parts = split_ws(line);
        match next_word(&parts, &chars_of("function")) {
            Some(i) => Some(string_of(&before_seq(&parts[i + 1], &chars_of("(")))),
            None => None,
        }
    }

    fn extract_class_name_from_export(&self, line: &Vec<char>) -> (r: Option<String>)
        ensures
            match word_after(tokens(line@), "class"@, 0) {
                Some(t) => opt_str(r) == seq![class_word(t)],
                None => r is None,
            },
    {
        let parts = split_ws(line);
        match next_word(&parts, &chars_of("class")) {
            Some(i) => {
                let word = before_seq(&before_seq(&parts[i + 1], &chars_of("{")), &chars_of(" "));
                Some(string_of(&word))
            },
            None => None,
        }
    }

    fn extract_var_name_from_export(&self, line: &Vec<char>) -> (r: Option<String>)
        ensures
            match binding_after(tokens(line@), 0) {
                Some(t) => opt_str(r) == seq![trim(before(t, "="@))],
                None => r is None,
            },
    {
        let parts = split_ws(line);
        let const_kw = chars_of("const");
        let let_kw = chars_of("let");
        let var_kw = chars_of("var");
        let mut i: usize = 0;
        while i < parts.len()
            invariant
                i <= parts@.len(),
                views(parts@) == tokens(line@),
                const_kw@ == "const"@,
                let_kw@ == "let"@,
                var_kw@ == "var"@,
                binding_after(tokens(line@), 0) == binding_after(tokens(line@), i as int),
            decreases parts@.len() - i,
        {
            assert(views(parts@)[i as int] == parts@[i as int]@);
            if (same_chars(&parts[i], &const_kw) || same_chars(&parts[i], &let_kw) || same_chars(
                &parts[i],
                &var_kw,
            )) && i + 1 < parts.len() {
                assert(views(parts@)[i + 1] == parts@[i + 1]@);
                let name = trim_ws(&before_seq(&parts[i + 1], &chars_of("=")));
                return Some(string_of(&name));
            }
            i = i + 1;
        }
        None
    }

    fn extract_exports(&self, content: &str) -> (r: Vec<String>)
        ensures
            strs(r@) == exports_of(content@),
    {
        let text = chars_of(content);
        let ls = split_lines(&text);
        let ghost lv = lines(content@);
        assert(views(ls@).len() == ls@.len());
        let mut exports: Vec<String> = Vec::new();
        let mut k: usize = 0;
        while k < ls.len()
            invariant
                views(ls@) == lv,
                k <= ls@.len(),
                strs(exports@) == exports_upto(lv, k as int),
            decreases ls@.len() - k,
        {
            assert(views(ls@)[k as int] == ls@[k as int]@);
            let trimmed = trim_ws(&ls[k]);
            let ghost prev = exports@;
            let found = if !starts_with_seq(&trimmed, &chars_of("export ")) {
                None
            } else if find_in(&trimmed, &chars_of("function ")).is_some() {
                self.extract_function_name_from_export(&trimmed)
            } else if find_in(&trimmed, &chars_of("class ")).is_some() {
                self.extract_class_name_from_export(&trimmed)
            } else if find_in(&trimmed, &chars_of("const ")).is_some() || find_in(
                &trimmed,
                &chars_of("let "),
            ).is_some() || find_in(&trimmed, &chars_of("var ")).is_some() {
                self.extract_var_name_from_export(&trimmed)
            } else {
                None
            };
            assert(opt_str(found) == line_exports(trimmed@));
            if let Some(name) = found {
                exports.push(name);
            }
            assert(strs(exports@) =~= strs(prev) + line_exports(trimmed@));
            k = k + 1;
        }
        exports
    }
}

} // verus!
