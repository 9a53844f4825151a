//! Properties that relate several calls: structural diffs of unchanged,
//! extended and shortened texts, and the monotonicity of impact analysis.
use vstd::prelude::*;
use crate::ast::{
    AstNode, ChangeType, ChangeView, added_change, added_from, diff_spec, differ, is_key,
    last_named, lemma_last_named, lookup, opt_view, removed_change, removed_from,
};
use crate::dep_graph::{DependencyGraph, edge_view, impact_set, is_dep, is_dep_path, reachable};
use crate::scanner::{
    Decl, class_name, declarations, decls_upto, function_name, import_name, is_scan_of,
    line_decls, node_is_decl,
};
use crate::text::{lines, lines_acc, trim};

verus! {

/// Two leaf declarations with the same kind and name.
pub open spec fn twins(x: AstNode, y: AstNode) -> bool {
    &&& opt_view(x.name) == opt_view(y.name)
    &&& x.node_type@ == y.node_type@
    &&& x.children@.len() == 0
    &&& y.children@.len() == 0
}

/// `b` is `a` with one more child at position `p`; the other children are
/// twins, in order.
pub open spec fn inserted_at(a: Seq<AstNode>, b: Seq<AstNode>, p: int) -> bool {
    &&& 0 <= p <= a.len()
    &&& b.len() == a.len() + 1
    &&& forall|i: int| 0 <= i < p ==> twins(#[trigger] a[i], b[i])
    &&& forall|i: int| p <= i < a.len() ==> twins(#[trigger] a[i], b[i + 1])
}

pub open spec fn shift(i: int, p: int) -> int {
    if i < p {
        i
    } else {
        i + 1
    }
}

proof fn lemma_leaf_diff(x: AstNode, y: AstNode)
    requires
        x.children@.len() == 0,
        y.children@.len() == 0,
    ensures
        diff_spec(x, y) == Seq::<ChangeView>::empty(),
{
    assert(removed_from(x, y, 0) == Seq::<ChangeView>::empty());
    assert(added_from(x, y, 0) == Seq::<ChangeView>::empty());
}

proof fn lemma_insert_last(a: Seq<AstNode>, b: Seq<AstNode>, p: int, nm: Seq<char>, k: int)
    requires
        inserted_at(a, b, p),
        opt_view(b[p].name) != Some(nm),
        0 <= k <= b.len(),
    ensures
        k <= p ==> last_named(b, nm, k) == last_named(a, nm, k),
        k > p ==> last_named(b, nm, k) == (if last_named(a, nm, k - 1) < 0 {
            -1
        } else {
            shift(last_named(a, nm, k - 1), p)
        }),
    decreases k,
{
    if k > 0 {
        lemma_insert_last(a, b, p, nm, k - 1);
        if k <= p {
            assert(twins(a[k - 1], b[k - 1]));
        } else if k == p + 1 {
            lemma_last_named(a, nm, p);
        } else {
            assert(twins(a[k - 2], b[k - 1]));
            lemma_last_named(a, nm, k - 2);
        }
    }
}

proof fn lemma_insert_last_new(a: Seq<AstNode>, b: Seq<AstNode>, p: int, f: Seq<char>, k: int)
    requires
        inserted_at(a, b, p),
        opt_view(b[p].name) == Some(f),
        forall|i: int| 0 <= i < a.len() ==> opt_view(#[trigger] a[i].name) != Some(f),
        p < k <= b.len(),
    ensures
        last_named(b, f, k) == p,
    decreases k,
{
    if k > p + 1 {
        assert(twins(a[k - 2], b[k - 1]));
        lemma_insert_last_new(a, b, p, f, k - 1);
    }
}

proof fn lemma_absent(a: Seq<AstNode>, f: Seq<char>, k: int)
    requires
        forall|i: int| 0 <= i < a.len() ==> opt_view(#[trigger] a[i].name) != Some(f),
        0 <= k <= a.len(),
    ensures
        last_named(a, f, k) == -1,
    decreases k,
{
    if k > 0 {
        lemma_absent(a, f, k - 1);
    }
}

/// Where `nm` is not the inserted name, its lookup moves with the insertion.
proof fn lemma_insert_lookup(a: Seq<AstNode>, b: Seq<AstNode>, p: int, nm: Seq<char>)
    requires
        inserted_at(a, b, p),
        opt_view(b[p].name) != Some(nm),
    ensures
        lookup(b, nm) == (if lookup(a, nm) < 0 {
            -1
        } else {
            shift(lookup(a, nm), p)
        }),
        -1 <= lookup(a, nm) < a.len(),
{
    lemma_insert_last(a, b, p, nm, b.len() as int);
    lemma_last_named(a, nm, a.len() as int);
}

proof fn lemma_shift_back(j: int, p: int) -> (jj: int)
    requires
        j != p,
        0 <= j,
        0 <= p,
    ensures
        shift(jj, p) == j,
        0 <= jj,
        jj == (if j < p {
            j
        } else {
            j - 1
        }),
{
    if j < p {
        j
    } else {
        j - 1
    }
}

/// Removals from `a` to `b` where `b` only adds a child with a new name.
proof fn lemma_insert_removed(x: AstNode, y: AstNode, p: int, f: Seq<char>, i: int)
    requires
        inserted_at(x.children@, y.children@, p),
        opt_view(y.children@[p].name) == Some(f),
        forall|m: int| 0 <= m < x.children@.len() ==> opt_view(#[trigger] x.children@[m].name) != Some(f),
        0 <= i <= x.children@.len(),
    ensures
        removed_from(x, y, i) == Seq::<ChangeView>::empty(),
    decreases x.children@.len() - i,
{
    if i < x.children@.len() {
        lemma_insert_removed(x, y, p, f, i + 1);
        let c = x.children@[i];
        if is_key(x.children@, i) {
            let nm = opt_view(c.name)->0;
            lemma_insert_lookup(x.children@, y.children@, p, nm);
        }
    }
}

/// Additions and modifications from `a` to `b` where `b` only adds a child
/// with a new name at `p`.
proof fn lemma_insert_added(x: AstNode, y: AstNode, p: int, f: Seq<char>, j: int)
    requires
        inserted_at(x.children@, y.children@, p),
        opt_view(y.children@[p].name) == Some(f),
        forall|m: int| 0 <= m < x.children@.len() ==> opt_view(#[trigger] x.children@[m].name) != Some(f),
        0 <= j <= y.children@.len(),
    ensures
        added_from(x, y, j) == (if j <= p {
            seq![added_change(y.children@[p], f)]
        } else {
            Seq::<ChangeView>::empty()
        }),
    decreases y.children@.len() - j,
{
    let a = x.children@;
    let b = y.children@;
    if j < b.len() {
        lemma_insert_added(x, y, p, f, j + 1);
        if j == p {
            lemma_insert_last_new(a, b, p, f, b.len() as int);
            lemma_absent(a, f, a.len() as int);
            assert(is_key(b, j));
        } else {
            let jj = lemma_shift_back(j, p);
            assert(twins(a[jj], b[j]));
            if is_key(b, j) {
                let nm = opt_view(b[j].name)->0;
                lemma_insert_lookup(a, b, p, nm);
                let k = lookup(a, nm);
                assert(k == jj);
                lemma_leaf_diff(a[k], b[j]);
                assert(!differ(a[k], b[j]));
            }
        }
    }
}

/// The diff from `x` to `y`, where `y`'s children are `x`'s with one leaf
/// named `f`, a name no child of `x` has, inserted at `p`, is exactly the
/// addition of that leaf.
pub proof fn lemma_diff_of_insert(x: AstNode, y: AstNode, p: int, f: Seq<char>)
    requires
        inserted_at(x.children@, y.children@, p),
        opt_view(y.children@[p].name) == Some(f),
        forall|m: int| 0 <= m < x.children@.len() ==> opt_view(#[trigger] x.children@[m].name) != Some(f),
    ensures
        diff_spec(x, y) == seq![added_change(y.children@[p], f)],
{
    lemma_insert_removed(x, y, p, f, 0);
    lemma_insert_added(x, y, p, f, 0);
    assert(diff_spec(x, y) =~= seq![added_change(y.children@[p], f)]);
}

/// Removals from `x` to `y` where `x`'s children are `y`'s with one leaf
/// named `f` inserted at `p`.
proof fn lemma_delete_removed(x: AstNode, y: AstNode, p: int, f: Seq<char>, i: int)
    requires
        inserted_at(y.children@, x.children@, p),
        opt_view(x.children@[p].name) == Some(f),
        forall|m: int| 0 <= m < y.children@.len() ==> opt_view(#[trigger] y.children@[m].name) != Some(f),
        0 <= i <= x.children@.len(),
    ensures
        removed_from(x, y, i) == (if i <= p {
            seq![removed_change(x.children@[p], f)]
        } else {
            Seq::<ChangeView>::empty()
        }),
    decreases x.children@.len() - i,
{
    let a = y.children@;
    let b = x.children@;
    if i < b.len() {
        lemma_delete_removed(x, y, p, f, i + 1);
        if i == p {
            lemma_insert_last_new(a, b, p, f, b.len() as int);
            lemma_absent(a, f, a.len() as int);
            assert(is_key(b, i));
        } else {
            let ii = lemma_shift_back(i, p);
            assert(twins(a[ii], b[i]));
            if is_key(b, i) {
                let nm = opt_view(b[i].name)->0;
                lemma_insert_lookup(a, b, p, nm);
            }
        }
    }
}

/// Additions and modifications from `x` to `y` where `x`'s children are
/// `y`'s with one leaf named `f` inserted at `p`.
proof fn lemma_delete_added(x: AstNode, y: AstNode, p: int, f: Seq<char>, j: int)
    requires
        inserted_at(y.children@, x.children@, p),
        opt_view(x.children@[p].name) == Some(f),
        forall|m: int| 0 <= m < y.children@.len() ==> opt_view(#[trigger] y.children@[m].name) != Some(f),
        0 <= j <= y.children@.len(),
    ensures
        added_from(x, y, j) == Seq::<ChangeView>::empty(),
    decreases y.children@.len() - j,
{
    let a = y.children@;
    let b = x.children@;
    if j < a.len() {
        lemma_delete_added(x, y, p, f, j + 1);
        if is_key(a, j) {
            let nm = opt_view(a[j].name)->0;
            lemma_insert_lookup(a, b, p, nm);
            let k = lookup(b, nm);
            assert(k == shift(j, p));
            if j < p {
                assert(twins(a[j], b[j]));
            } else {
                assert(twins(a[j], b[j + 1]));
            }
            lemma_leaf_diff(b[k], a[j]);
            assert(!differ(b[k], a[j]));
        }
    }
}

/// The diff from `x` to `y`, where `x`'s children are `y`'s with one leaf
/// named `f`, a name no child of `y` has, inserted at `p`, is exactly the
/// removal of that leaf.
pub proof fn lemma_diff_of_delete(x: AstNode, y: AstNode, p: int, f: Seq<char>)
    requires
        inserted_at(y.children@, x.children@, p),
        opt_view(x.children@[p].name) == Some(f),
        forall|m: int| 0 <= m < y.children@.len() ==> opt_view(#[trigger] y.children@[m].name) != Some(f),
    ensures
        diff_spec(x, y) == seq![removed_change(x.children@[p], f)],
{
    lemma_delete_removed(x, y, p, f, 0);
    lemma_delete_added(x, y, p, f, 0);
    assert(diff_spec(x, y) =~= seq![removed_change(x.children@[p], f)]);
}

/// Adding a top-level function `f`, a name the old tree does not have, to
/// otherwise unchanged declarations gives exactly one change: `f` added as a
/// function declaration.
pub proof fn law_added_function(old_tree: AstNode, new_tree: AstNode, p: int, f: Seq<char>)
    requires
        inserted_at(old_tree.children@, new_tree.children@, p),
        new_tree.children@[p].node_type@ == "FunctionDeclaration"@,
        opt_view(new_tree.children@[p].name) == Some(f),
        forall|m: int|
            0 <= m < old_tree.children@.len() ==> opt_view(#[trigger] old_tree.children@[m].name)
                != Some(f),
    ensures
        diff_spec(old_tree, new_tree).len() == 1,
        diff_spec(old_tree, new_tree)[0].change_type == ChangeType::Added,
        diff_spec(old_tree, new_tree)[0].node_type == "FunctionDeclaration"@,
        diff_spec(old_tree, new_tree)[0].name == Some(f),
        diff_spec(old_tree, new_tree)[0].line_range == (
            new_tree.children@[p].start_line,
            new_tree.children@[p].end_line,
        ),
{
    lemma_diff_of_insert(old_tree, new_tree, p, f);
}

/// Removing a top-level class `c`, declared once, from otherwise unchanged
/// declarations gives exactly one change: `c` removed as a class declaration.
pub proof fn law_removed_class(old_tree: AstNode, new_tree: AstNode, p: int, c: Seq<char>)
    requires
        inserted_at(new_tree.children@, old_tree.children@, p),
        old_tree.children@[p].node_type@ == "ClassDeclaration"@,
        opt_view(old_tree.children@[p].name) == Some(c),
        forall|m: int|
            0 <= m < new_tree.children@.len() ==> opt_view(#[trigger] new_tree.children@[m].name)
                != Some(c),
    ensures
        diff_spec(old_tree, new_tree).len() == 1,
        diff_spec(old_tree, new_tree)[0].change_type == ChangeType::Removed,
        diff_spec(old_tree, new_tree)[0].node_type == "ClassDeclaration"@,
        diff_spec(old_tree, new_tree)[0].name == Some(c),
        diff_spec(old_tree, new_tree)[0].line_range == (
            old_tree.children@[p].start_line,
            old_tree.children@[p].end_line,
        ),
{
    lemma_diff_of_delete(old_tree, new_tree, p, c);
}

/// Children with the same names, position by position, look names up alike.
proof fn lemma_same_names_last(a: Seq<AstNode>, b: Seq<AstNode>, nm: Seq<char>, k: int)
    requires
        a.len() == b.len(),
        forall|i: int| 0 <= i < a.len() ==> twins(#[trigger] a[i], b[i]),
        0 <= k <= a.len(),
    ensures
        last_named(a, nm, k) == last_named(b, nm, k),
    decreases k,
{
    if k > 0 {
        assert(twins(a[k - 1], b[k - 1]));
        lemma_same_names_last(a, b, nm, k - 1);
    }
}

proof fn lemma_twin_removed(x: AstNode, y: AstNode, i: int)
    requires
        x.children@.len() == y.children@.len(),
        forall|m: int| 0 <= m < x.children@.len() ==> twins(#[trigger] x.children@[m], y.children@[m]),
        0 <= i <= x.children@.len(),
    ensures
        removed_from(x, y, i) == Seq::<ChangeView>::empty(),
    decreases x.children@.len() - i,
{
    if i < x.children@.len() {
        lemma_twin_removed(x, y, i + 1);
        if is_key(x.children@, i) {
            let nm = opt_view(x.children@[i].name)->0;
            lemma_same_names_last(x.children@, y.children@, nm, x.children@.len() as int);
        }
    }
}

proof fn lemma_twin_added(x: AstNode, y: AstNode, j: int)
    requires
        x.children@.len() == y.children@.len(),
        forall|m: int| 0 <= m < x.children@.len() ==> twins(#[trigger] x.children@[m], y.children@[m]),
        0 <= j <= y.children@.len(),
    ensures
        added_from(x, y, j) == Seq::<ChangeView>::empty(),
    decreases y.children@.len() - j,
{
    if j < y.children@.len() {
        lemma_twin_added(x, y, j + 1);
        if is_key(y.children@, j) {
            let nm = opt_view(y.children@[j].name)->0;
            lemma_same_names_last(x.children@, y.children@, nm, x.children@.len() as int);
            assert(twins(x.children@[j], y.children@[j]));
            lemma_leaf_diff(x.children@[j], y.children@[j]);
        }
    }
}

/// Two leaf declarations that agree on everything a change reports.
pub open spec fn alike(x: AstNode, y: AstNode) -> bool {
    &&& twins(x, y)
    &&& x.start_line == y.start_line
    &&& x.end_line == y.end_line
}

pub open spec fn all_alike(a: Seq<AstNode>, b: Seq<AstNode>) -> bool {
    &&& a.len() == b.len()
    &&& forall|i: int| 0 <= i < a.len() ==> alike(#[trigger] a[i], b[i])
}

proof fn lemma_alike_twins(a: Seq<AstNode>, b: Seq<AstNode>)
    requires
        all_alike(a, b),
    ensures
        forall|i: int| 0 <= i < a.len() ==> twins(#[trigger] a[i], b[i]),
{
    assert forall|i: int| 0 <= i < a.len() implies twins(#[trigger] a[i], b[i]) by {
        assert(alike(a[i], b[i]));
    }
}

proof fn lemma_alike_removed(x: AstNode, y: AstNode, x2: AstNode, y2: AstNode, i: int)
    requires
        all_alike(x.children@, x2.children@),
        all_alike(y.children@, y2.children@),
        0 <= i <= x.children@.len(),
    ensures
        removed_from(x, y, i) == removed_from(x2, y2, i),
    decreases x.children@.len() - i,
{
    if i < x.children@.len() {
        lemma_alike_removed(x, y, x2, y2, i + 1);
        lemma_alike_twins(x.children@, x2.children@);
        lemma_alike_twins(y.children@, y2.children@);
        assert(alike(x.children@[i], x2.children@[i]));
        if opt_view(x.children@[i].name) is Some {
            let nm = opt_view(x.children@[i].name)->0;
            lemma_same_names_last(x.children@, x2.children@, nm, x.children@.len() as int);
            lemma_same_names_last(y.children@, y2.children@, nm, y.children@.len() as int);
        }
    }
}

proof fn lemma_alike_added(x: AstNode, y: AstNode, x2: AstNode, y2: AstNode, j: int)
    requires
        all_alike(x.children@, x2.children@),
        all_alike(y.children@, y2.children@),
        0 <= j <= y.children@.len(),
    ensures
        added_from(x, y, j) == added_from(x2, y2, j),
    decreases y.children@.len() - j,
{
    if j < y.children@.len() {
        lemma_alike_added(x, y, x2, y2, j + 1);
        lemma_alike_twins(x.children@, x2.children@);
        lemma_alike_twins(y.children@, y2.children@);
        assert(alike(y.children@[j], y2.children@[j]));
        if opt_view(y.children@[j].name) is Some {
            let nm = opt_view(y.children@[j].name)->0;
            lemma_same_names_last(x.children@, x2.children@, nm, x.children@.len() as int);
            lemma_same_names_last(y.children@, y2.children@, nm, y.children@.len() as int);
            lemma_last_named(x.children@, nm, x.children@.len() as int);
            let k = lookup(x.children@, nm);
            if k >= 0 {
                assert(alike(x.children@[k], x2.children@[k]));
                lemma_leaf_diff(x.children@[k], y.children@[j]);
                lemma_leaf_diff(x2.children@[k], y2.children@[j]);
            }
        }
    }
}

proof fn lemma_scans_alike(text: Seq<char>, a: AstNode, b: AstNode)
    requires
        is_scan_of(text, a),
        is_scan_of(text, b),
    ensures
        all_alike(a.children@, b.children@),
{
    assert forall|m: int| 0 <= m < a.children@.len() implies alike(
        #[trigger] a.children@[m],
        b.children@[m],
    ) by {
        assert(crate::scanner::node_is_decl(a.children@[m], crate::scanner::declarations(text)[m]));
        assert(crate::scanner::node_is_decl(b.children@[m], crate::scanner::declarations(text)[m]));
    }
}

/// The structural diff of two texts does not depend on which scans of them
/// are compared: every scan of a text reports the same declarations.
pub proof fn lemma_scan_diff_determined(
    old_text: Seq<char>,
    new_text: Seq<char>,
    a: AstNode,
    b: AstNode,
    a2: AstNode,
    b2: AstNode,
)
    requires
        is_scan_of(old_text, a),
        is_scan_of(old_text, a2),
        is_scan_of(new_text, b),
        is_scan_of(new_text, b2),
    ensures
        diff_spec(a, b) == diff_spec(a2, b2),
{
    lemma_scans_alike(old_text, a, a2);
    lemma_scans_alike(new_text, b, b2);
    lemma_alike_removed(a, b, a2, b2, 0);
    lemma_alike_added(a, b, a2, b2, 0);
}

proof fn lemma_self_removed(n: AstNode, i: int)
    requires
        0 <= i <= n.children@.len(),
    ensures
        removed_from(n, n, i) == Seq::<ChangeView>::empty(),
    decreases n.children@.len() - i,
{
    if i < n.children@.len() {
        lemma_self_removed(n, i + 1);
    }
}

proof fn lemma_self_added(n: AstNode, j: int)
    requires
        0 <= j <= n.children@.len(),
    ensures
        added_from(n, n, j) == Seq::<ChangeView>::empty(),
    decreases n, n.children@.len() - j,
{
    if j < n.children@.len() {
        lemma_self_added(n, j + 1);
        if is_key(n.children@, j) {
            assert(decreases_to!(n.children => n.children@));
            assert(decreases_to!(n.children@ => n.children@[j]));
            law_diff_self(n.children@[j]);
        }
    }
}

/// Any tree diffed against itself has no changes, duplicate names included.
pub proof fn law_diff_self(n: AstNode)
    ensures
        diff_spec(n, n) == Seq::<ChangeView>::empty(),
    decreases n, n.children@.len() + 1,
{
    lemma_self_removed(n, 0);
    lemma_self_added(n, 0);
    assert(diff_spec(n, n) =~= Seq::<ChangeView>::empty());
}

/// A text diffed against itself has no changes: any two scans of the same
/// text have an empty structural diff.
pub proof fn law_no_self_diff(text: Seq<char>, a: AstNode, b: AstNode)
    requires
        is_scan_of(text, a),
        is_scan_of(text, b),
    ensures
        diff_spec(a, b) == Seq::<ChangeView>::empty(),
{
    assert forall|m: int| 0 <= m < a.children@.len() implies twins(
        #[trigger] a.children@[m],
        b.children@[m],
    ) by {
        assert(crate::scanner::node_is_decl(a.children@[m], crate::scanner::declarations(text)[m]));
        assert(crate::scanner::node_is_decl(b.children@[m], crate::scanner::declarations(text)[m]));
    }
    lemma_twin_removed(a, b, 0);
    lemma_twin_added(a, b, 0);
    assert(diff_spec(a, b) =~= Seq::<ChangeView>::empty());
}

/// Querying more changed files never loses a file: what is reachable from
/// `a` is reachable from any `b` that holds `a`, and every file impacted by
/// `a` is impacted by `b` or is one of `b`.
pub proof fn law_impact_monotonic(g: DependencyGraph, a: Seq<Seq<char>>, b: Seq<Seq<char>>)
    requires
        forall|x: Seq<char>| a.contains(x) ==> b.contains(x),
    ensures
        forall|y: Seq<char>|
            reachable(edge_view(g), a, y) ==> #[trigger] reachable(edge_view(g), b, y),
        forall|y: Seq<char>|
            #[trigger] impact_set(edge_view(g), a).contains(y) ==> impact_set(
                edge_view(g),
                b,
            ).contains(y) || b.contains(y),
{
    let ev = edge_view(g);
    assert forall|y: Seq<char>| reachable(ev, a, y) implies #[trigger] reachable(ev, b, y) by {
        let p = choose|p: Seq<Seq<char>>| is_dep_path(ev, p) && a.contains(p[0]) && p.last() == y;
        assert(is_dep_path(ev, p) && b.contains(p[0]) && p.last() == y);
    }
}

/// A changed file that nothing depends on impacts no file.
pub proof fn law_no_dependents(g: DependencyGraph, x: Seq<char>)
    requires
        forall|y: Seq<char>| !is_dep(edge_view(g), x, y),
    ensures
        impact_set(edge_view(g), seq![x]) == Set::<Seq<char>>::empty(),
{
    let ev = edge_view(g);
    assert forall|y: Seq<char>| !impact_set(ev, seq![x]).contains(y) by {
        if reachable(ev, seq![x], y) && !seq![x].contains(y) {
            let p = choose|p: Seq<Seq<char>>| is_dep_path(ev, p) && seq![x].contains(p[0]) && p.last() == y;
            if p.len() == 1 {
                assert(seq![x][0] == y);
            } else {
                assert(seq![x].contains(p[0]));
                assert(p[0] == x);
                assert(is_dep(ev, p[0], p[1]));
            }
        }
    }
    assert(impact_set(ev, seq![x]) =~= Set::<Seq<char>>::empty());
}

/// No changed file is ever reported as impacted, even where a cycle leads
/// back to it.
pub proof fn law_impact_excludes_changed(g: DependencyGraph, changed: Seq<Seq<char>>)
    ensures
        forall|y: Seq<char>| changed.contains(y) ==> !#[trigger] impact_set(edge_view(g), changed).contains(y),
{
}

proof fn lemma_lines_shift(t1: Seq<char>, t2: Seq<char>, st: int, j: int)
    requires
        0 <= st <= j <= t2.len(),
    ensures
        lines_acc(t1 + t2, t1.len() + st, t1.len() + j) == lines_acc(t2, st, j),
    decreases t2.len() - j,
{
    let s = t1 + t2;
    let n1 = t1.len() as int;
    if j < t2.len() {
        assert(s[n1 + j] == t2[j]);
        if t2[j] == '\n' {
            lemma_lines_shift(t1, t2, j + 1, j + 1);
            assert(s.subrange(n1 + st, n1 + j) =~= t2.subrange(st, j));
        } else {
            lemma_lines_shift(t1, t2, st, j + 1);
        }
    } else {
        assert(s.subrange(n1 + st, s.len() as int) =~= t2.subrange(st, t2.len() as int));
    }
}

proof fn lemma_lines_concat_acc(t1: Seq<char>, t2: Seq<char>, start: int, i: int)
    requires
        0 <= start <= i <= t1.len(),
        i == t1.len() ==> start == t1.len(),
        t1.len() > 0 ==> t1.last() == '\n',
    ensures
        lines_acc(t1 + t2, start, i) == lines_acc(t1, start, i) + lines(t2),
    decreases t1.len() - i,
{
    let s = t1 + t2;
    if i == t1.len() {
        lemma_lines_shift(t1, t2, 0, 0);
        assert(lines_acc(t1, start, i) =~= Seq::<Seq<char>>::empty());
        assert(lines_acc(t1, start, i) + lines(t2) =~= lines(t2));
    } else {
        assert(s[i] == t1[i]);
        if t1[i] == '\n' {
            lemma_lines_concat_acc(t1, t2, i + 1, i + 1);
            assert(s.subrange(start, i) =~= t1.subrange(start, i));
            assert(lines_acc(s, start, i) =~= lines_acc(t1, start, i) + lines(t2));
        } else {
            lemma_lines_concat_acc(t1, t2, start, i + 1);
        }
    }
}

/// The lines of a text that ends a line, then more text, are the lines of
/// each.
pub proof fn lemma_lines_concat(t1: Seq<char>, t2: Seq<char>)
    requires
        t1.len() == 0 || t1.last() == '\n',
    ensures
        lines(t1 + t2) == lines(t1) + lines(t2),
{
    lemma_lines_concat_acc(t1, t2, 0, 0);
}

proof fn lemma_lines_single_acc(l: Seq<char>, i: int)
    requires
        forall|k: int| 0 <= k < l.len() ==> l[k] != '\n',
        0 <= i <= l.len(),
    ensures
        lines_acc(l.push('\n'), 0, i) == seq![l],
    decreases l.len() - i,
{
    let s = l.push('\n');
    if i < l.len() {
        assert(s[i] == l[i]);
        lemma_lines_single_acc(l, i + 1);
    } else {
        assert(s.subrange(0, i) =~= l);
        assert(lines_acc(s, i + 1, i + 1) =~= Seq::<Seq<char>>::empty());
        assert(lines_acc(s, 0, i) =~= seq![l]);
    }
}

/// The declarations of the first `k` lines of `ls`, numbered from `off + 1`.
pub open spec fn decls_off(ls: Seq<Seq<char>>, k: int, off: int) -> Seq<Decl>
    decreases k,
{
    if k <= 0 || k > ls.len() {
        Seq::empty()
    } else {
        decls_off(ls, k - 1, off) + line_decls(trim(ls[k - 1]), k + off)
    }
}

proof fn lemma_decls_upto_off(ls: Seq<Seq<char>>, k: int)
    requires
        0 <= k <= ls.len(),
    ensures
        decls_upto(ls, k) == decls_off(ls, k, 0),
    decreases k,
{
    if k > 0 {
        lemma_decls_upto_off(ls, k - 1);
    }
}

proof fn lemma_decls_off_concat(ls1: Seq<Seq<char>>, ls2: Seq<Seq<char>>, k: int, off: int)
    requires
        0 <= k <= ls1.len() + ls2.len(),
    ensures
        k <= ls1.len() ==> decls_off(ls1 + ls2, k, off) == decls_off(ls1, k, off),
        k > ls1.len() ==> decls_off(ls1 + ls2, k, off) == decls_off(ls1, ls1.len() as int, off)
            + decls_off(ls2, k - ls1.len(), off + ls1.len()),
    decreases k,
{
    if k > 0 {
        lemma_decls_off_concat(ls1, ls2, k - 1, off);
        if k > ls1.len() {
            assert((ls1 + ls2)[k - 1] == ls2[k - 1 - ls1.len()]);
            if k - 1 == ls1.len() {
                assert(decls_off(ls2, 0, off + ls1.len()) =~= Seq::<Decl>::empty());
            }
            assert(decls_off(ls1 + ls2, k, off) =~= decls_off(ls1, ls1.len() as int, off)
                + decls_off(ls2, k - ls1.len(), off + ls1.len()));
        } else {
            assert((ls1 + ls2)[k - 1] == ls1[k - 1]);
        }
    }
}

/// Numbering lines from elsewhere changes no kind or name.
proof fn lemma_decls_off_same(ls: Seq<Seq<char>>, k: int, o1: int, o2: int)
    requires
        0 <= k <= ls.len(),
    ensures
        decls_off(ls, k, o1).len() == decls_off(ls, k, o2).len(),
        forall|i: int|
            0 <= i < decls_off(ls, k, o1).len() ==> (#[trigger] decls_off(ls, k, o1)[i]).kind
                == decls_off(ls, k, o2)[i].kind && decls_off(ls, k, o1)[i].name == decls_off(
                ls,
                k,
                o2,
            )[i].name,
    decreases k,
{
    if k > 0 {
        lemma_decls_off_same(ls, k - 1, o1, o2);
        let l = trim(ls[k - 1]);
        let p1 = decls_off(ls, k - 1, o1);
        let p2 = decls_off(ls, k - 1, o2);
        let q1 = line_decls(l, k + o1);
        let q2 = line_decls(l, k + o2);
        assert(q1.len() == q2.len());
        assert forall|i: int| 0 <= i < q1.len() implies q1[i].kind == q2[i].kind && q1[i].name
            == q2[i].name by {}
        assert forall|i: int|
            0 <= i < decls_off(ls, k, o1).len() implies (#[trigger] decls_off(ls, k, o1)[i]).kind
                == decls_off(ls, k, o2)[i].kind && decls_off(ls, k, o1)[i].name == decls_off(
                ls,
                k,
                o2,
            )[i].name by {
            if i < p1.len() {
                assert(decls_off(ls, k, o1)[i] == p1[i]);
                assert(decls_off(ls, k, o2)[i] == p2[i]);
            } else {
                assert(decls_off(ls, k, o1)[i] == q1[i - p1.len()]);
                assert(decls_off(ls, k, o2)[i] == q2[i - p1.len()]);
            }
        }
    }
}

/// The declarations of `t1 + t2` and of the same text with the line `l`
/// put between the two parts.
proof fn lemma_decls_of_insert(t1: Seq<char>, l: Seq<char>, t2: Seq<char>)
    requires
        t1.len() == 0 || t1.last() == '\n',
        forall|k: int| 0 <= k < l.len() ==> l[k] != '\n',
    ensures
        ({
            let d1 = decls_off(lines(t1), lines(t1).len() as int, 0);
            let n1 = lines(t1).len() as int;
            let n2 = lines(t2).len() as int;
            &&& declarations(t1 + t2) == d1 + decls_off(lines(t2), n2, n1)
            &&& declarations(t1 + (l.push('\n') + t2)) == d1 + line_decls(trim(l), n1 + 1)
                + decls_off(lines(t2), n2, n1 + 1)
        }),
{
    let l1 = lines(t1);
    let l2 = lines(t2);
    let n1 = l1.len() as int;
    let n2 = l2.len() as int;
    lemma_lines_concat(t1, t2);
    lemma_lines_single_acc(l, 0);
    lemma_lines_concat(l.push('\n'), t2);
    lemma_lines_concat(t1, l.push('\n') + t2);
    let m = seq![l] + l2;
    assert(lines(t1 + (l.push('\n') + t2)) == l1 + m);
    lemma_decls_upto_off(l1 + l2, n1 + n2);
    lemma_decls_off_concat(l1, l2, n1 + n2, 0);
    if n2 == 0 {
        assert(decls_off(l2, 0, n1) =~= Seq::<Decl>::empty());
        assert(decls_off(l1 + l2, n1, 0) == decls_off(l1, n1, 0));
        assert(declarations(t1 + t2) =~= decls_off(l1, n1, 0) + decls_off(l2, n2, n1));
    }
    lemma_decls_upto_off(l1 + m, n1 + 1 + n2);
    lemma_decls_off_concat(l1, m, n1 + 1 + n2, 0);
    lemma_decls_off_concat(seq![l], l2, 1 + n2, n1);
    assert(decls_off(seq![l], 1, n1) =~= line_decls(trim(l), n1 + 1)) by {
        assert(decls_off(seq![l], 0, n1) =~= Seq::<Decl>::empty());
    }
    if n2 == 0 {
        assert(decls_off(l2, 0, n1 + 1) =~= Seq::<Decl>::empty());
        assert(decls_off(m, 1, n1) == decls_off(seq![l], 1, n1));
    }
    assert(declarations(t1 + (l.push('\n') + t2)) =~= decls_off(l1, n1, 0) + line_decls(
        trim(l),
        n1 + 1,
    ) + decls_off(l2, n2, n1 + 1));
}

/// The scans of `t1 + t2` and of `t1 + l + "\n" + t2`, where `l` declares
/// just the name `f`, differ by that one declaration at the same place.
proof fn lemma_scans_of_insert(
    t1: Seq<char>,
    l: Seq<char>,
    t2: Seq<char>,
    f: Seq<char>,
    kind: Seq<char>,
    a: AstNode,
    b: AstNode,
) -> (p: int)
    requires
        t1.len() == 0 || t1.last() == '\n',
        forall|k: int| 0 <= k < l.len() ==> l[k] != '\n',
        line_decls(trim(l), lines(t1).len() + 1 as int).len() == 1,
        line_decls(trim(l), lines(t1).len() + 1 as int)[0].name == f,
        line_decls(trim(l), lines(t1).len() + 1 as int)[0].kind == kind,
        is_scan_of(t1 + t2, a),
        is_scan_of(t1 + (l.push('\n') + t2), b),
    ensures
        inserted_at(a.children@, b.children@, p),
        opt_view(b.children@[p].name) == Some(f),
        b.children@[p].node_type@ == kind,
        b.children@[p].start_line as int == lines(t1).len() + 1,
        b.children@[p].end_line as int == lines(t1).len() + 1,
        forall|m: int|
            0 <= m < a.children@.len() ==> opt_view(#[trigger] a.children@[m].name) == Some(
                declarations(t1 + t2)[m].name,
            ),
{
    lemma_decls_of_insert(t1, l, t2);
    let n1 = lines(t1).len() as int;
    let n2 = lines(t2).len() as int;
    let d1 = decls_off(lines(t1), n1, 0);
    let e0 = decls_off(lines(t2), n2, n1);
    let e1 = decls_off(lines(t2), n2, n1 + 1);
    let da = declarations(t1 + t2);
    let db = declarations(t1 + (l.push('\n') + t2));
    let q = line_decls(trim(l), n1 + 1);
    lemma_decls_off_same(lines(t2), n2, n1, n1 + 1);
    let p = d1.len() as int;
    assert(da == d1 + e0);
    assert(db == d1 + q + e1);
    assert(node_is_decl(b.children@[p], db[p]));
    assert(db[p] == q[0]);
    assert forall|i: int| 0 <= i < p implies twins(#[trigger] a.children@[i], b.children@[i]) by {
        assert(node_is_decl(a.children@[i], da[i]));
        assert(node_is_decl(b.children@[i], db[i]));
        assert(da[i] == d1[i]);
        assert(db[i] == d1[i]);
    }
    assert forall|i: int| p <= i < a.children@.len() implies twins(
        #[trigger] a.children@[i],
        b.children@[i + 1],
    ) by {
        assert(node_is_decl(a.children@[i], da[i]));
        assert(node_is_decl(b.children@[i + 1], db[i + 1]));
        assert(da[i] == e0[i - p]);
        assert(db[i + 1] == e1[i - p]);
    }
    assert forall|m: int| 0 <= m < a.children@.len() implies opt_view(
        #[trigger] a.children@[m].name,
    ) == Some(declarations(t1 + t2)[m].name) by {
        assert(node_is_decl(a.children@[m], da[m]));
    }
    p
}

/// Adding, between two parts of a text, a line that declares just a new
/// function `f` (a name the text does not declare) gives exactly one change:
/// `f` added as a function declaration.
pub proof fn law_added_function_line(
    t1: Seq<char>,
    l: Seq<char>,
    t2: Seq<char>,
    f: Seq<char>,
    old_tree: AstNode,
    new_tree: AstNode,
)
    requires
        t1.len() == 0 || t1.last() == '\n',
        forall|k: int| 0 <= k < l.len() ==> l[k] != '\n',
        function_name(trim(l)) == Some(f),
        class_name(trim(l)) is None,
        import_name(trim(l)) is None,
        forall|i: int|
            0 <= i < declarations(t1 + t2).len() ==> (#[trigger] declarations(t1 + t2)[i]).name
                != f,
        is_scan_of(t1 + t2, old_tree),
        is_scan_of(t1 + (l.push('\n') + t2), new_tree),
    ensures
        diff_spec(old_tree, new_tree).len() == 1,
        diff_spec(old_tree, new_tree)[0].change_type == ChangeType::Added,
        diff_spec(old_tree, new_tree)[0].node_type == "FunctionDeclaration"@,
        diff_spec(old_tree, new_tree)[0].name == Some(f),
        diff_spec(old_tree, new_tree)[0].line_range.0 as int == lines(t1).len() + 1,
        diff_spec(old_tree, new_tree)[0].line_range.1 as int == lines(t1).len() + 1,
{
    let q = line_decls(trim(l), lines(t1).len() + 1 as int);
    assert(q =~= seq![Decl { kind: "FunctionDeclaration"@, name: f, line: lines(t1).len() + 1 as int }]);
    let p = lemma_scans_of_insert(t1, l, t2, f, "FunctionDeclaration"@, old_tree, new_tree);
    assert forall|m: int| 0 <= m < old_tree.children@.len() implies opt_view(
        #[trigger] old_tree.children@[m].name,
    ) != Some(f) by {
        assert(declarations(t1 + t2)[m].name != f);
    }
    law_added_function(old_tree, new_tree, p, f);
}

/// Taking out, from between two parts of a text, a line that declares just a
/// class `c` that the rest does not declare gives exactly one change: `c`
/// removed as a class declaration.
pub proof fn law_removed_class_line(
    t1: Seq<char>,
    l: Seq<char>,
    t2: Seq<char>,
    c: Seq<char>,
    old_tree: AstNode,
    new_tree: AstNode,
)
    requires
        t1.len() == 0 || t1.last() == '\n',
        forall|k: int| 0 <= k < l.len() ==> l[k] != '\n',
        function_name(trim(l)) is None,
        class_name(trim(l)) == Some(c),
        import_name(trim(l)) is None,
        forall|i: int|
            0 <= i < declarations(t1 + t2).len() ==> (#[trigger] declarations(t1 + t2)[i]).name
                != c,
        is_scan_of(t1 + (l.push('\n') + t2), old_tree),
        is_scan_of(t1 + t2, new_tree),
    ensures
        diff_spec(old_tree, new_tree).len() == 1,
        diff_spec(old_tree, new_tree)[0].change_type == ChangeType::Removed,
        diff_spec(old_tree, new_tree)[0].node_type == "ClassDeclaration"@,
        diff_spec(old_tree, new_tree)[0].name == Some(c),
        diff_spec(old_tree, new_tree)[0].line_range.0 as int == lines(t1).len() + 1,
        diff_spec(old_tree, new_tree)[0].line_range.1 as int == lines(t1).len() + 1,
{
    let q = line_decls(trim(l), lines(t1).len() + 1 as int);
    assert(q =~= seq![Decl { kind: "ClassDeclaration"@, name: c, line: lines(t1).len() + 1 as int }]);
    let p = lemma_scans_of_insert(t1, l, t2, c, "ClassDeclaration"@, new_tree, old_tree);
    assert forall|m: int| 0 <= m < new_tree.children@.len() implies opt_view(
        #[trigger] new_tree.children@[m].name,
    ) != Some(c) by {
        assert(declarations(t1 + t2)[m].name != c);
    }
    law_removed_class(old_tree, new_tree, p, c);
}

proof fn lemma_lines_newline_acc(s: Seq<char>, start: int, i: int)
    requires
        s.len() > 0,
        s.last() != '\n',
        0 <= start <= i <= s.len(),
        start == i && i > 0 ==> s[i - 1] == '\n',
    ensures
        lines_acc(s.push('\n'), start, i) == lines_acc(s, start, i),
    decreases s.len() - i,
{
    let t = s.push('\n');
    if i < s.len() {
        assert(t[i] == s[i]);
        if s[i] == '\n' {
            lemma_lines_newline_acc(s, i + 1, i + 1);
            assert(t.subrange(start, i) =~= s.subrange(start, i));
        } else {
            lemma_lines_newline_acc(s, start, i + 1);
        }
    } else {
        assert(start < s.len());
        assert(t.subrange(start, i) =~= s.subrange(start, s.len() as int));
        assert(lines_acc(t, i + 1, i + 1) =~= Seq::<Seq<char>>::empty());
        assert(lines_acc(t, start, i) =~= lines_acc(s, start, i));
    }
}

/// A final line break adds no line.
pub proof fn lemma_lines_newline(s: Seq<char>)
    requires
        s.len() > 0,
        s.last() != '\n',
    ensures
        lines(s.push('\n')) == lines(s),
{
    lemma_lines_newline_acc(s, 0, 0);
}

/// Appending, after a last line that has no line break, a line that declares
/// just a new function `f` gives exactly one change: `f` added as a function
/// declaration on the new last line.
pub proof fn law_added_function_last_line(
    t1: Seq<char>,
    l: Seq<char>,
    f: Seq<char>,
    old_tree: AstNode,
    new_tree: AstNode,
)
    requires
        t1.len() > 0,
        t1.last() != '\n',
        l.len() > 0,
        forall|k: int| 0 <= k < l.len() ==> l[k] != '\n',
        function_name(trim(l)) == Some(f),
        class_name(trim(l)) is None,
        import_name(trim(l)) is None,
        forall|i: int|
            0 <= i < declarations(t1).len() ==> (#[trigger] declarations(t1)[i]).name != f,
        is_scan_of(t1, old_tree),
        is_scan_of(t1.push('\n') + l, new_tree),
    ensures
        diff_spec(old_tree, new_tree).len() == 1,
        diff_spec(old_tree, new_tree)[0].change_type == ChangeType::Added,
        diff_spec(old_tree, new_tree)[0].node_type == "FunctionDeclaration"@,
        diff_spec(old_tree, new_tree)[0].name == Some(f),
        diff_spec(old_tree, new_tree)[0].line_range.0 as int == lines(t1).len() + 1,
        diff_spec(old_tree, new_tree)[0].line_range.1 as int == lines(t1).len() + 1,
{
    let u = t1.push('\n');
    let e = Seq::<char>::empty();
    lemma_lines_newline(t1);
    assert(u + e =~= u);
    let w = u + l;
    assert(w.last() == l.last());
    lemma_lines_newline(w);
    assert(w.push('\n') =~= u + (l.push('\n') + e));
    law_added_function_line(u, l, e, f, old_tree, new_tree);
}

/// Dropping a last line that declares just a class `c`, which the rest does
/// not declare, gives exactly one change: `c` removed as a class declaration.
pub proof fn law_removed_class_last_line(
    t1: Seq<char>,
    l: Seq<char>,
    c: Seq<char>,
    old_tree: AstNode,
    new_tree: AstNode,
)
    requires
        t1.len() > 0,
        t1.last() != '\n',
        l.len() > 0,
        forall|k: int| 0 <= k < l.len() ==> l[k] != '\n',
        function_name(trim(l)) is None,
        class_name(trim(l)) == Some(c),
        import_name(trim(l)) is None,
        forall|i: int|
            0 <= i < declarations(t1).len() ==> (#[trigger] declarations(t1)[i]).name != c,
        is_scan_of(t1.push('\n') + l, old_tree),
        is_scan_of(t1, new_tree),
    ensures
        diff_spec(old_tree, new_tree).len() == 1,
        diff_spec(old_tree, new_tree)[0].change_type == ChangeType::Removed,
        diff_spec(old_tree, new_tree)[0].node_type == "ClassDeclaration"@,
        diff_spec(old_tree, new_tree)[0].name == Some(c),
        diff_spec(old_tree, new_tree)[0].line_range.0 as int == lines(t1).len() + 1,
        diff_spec(old_tree, new_tree)[0].line_range.1 as int == lines(t1).len() + 1,
{
    let u = t1.push('\n');
    let e = Seq::<char>::empty();
    lemma_lines_newline(t1);
    assert(u + e =~= u);
    let w = u + l;
    assert(w.last() == l.last());
    lemma_lines_newline(w);
    assert(w.push('\n') =~= u + (l.push('\n') + e));
    law_removed_class_line(u, l, e, c, old_tree, new_tree);
}

} // verus!
