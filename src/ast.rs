//! The structural tree of a file and the name-keyed structural diff.
//!
//! Children are matched by name alone. When several siblings share a name the
//! last one stands for that name; unnamed children take no part in the diff.
//! Changes come out in a fixed order: removed declarations in the order of
//! the old tree, then added and modified ones in the order of the new tree,
//! each modified pair followed by the changes found among its children.
use vstd::prelude::*;
use crate::scanner::{AstParser, MAX_SCAN_LEN, TypeScriptParser, is_scan_of};
use crate::text::chars_of;

verus! {

broadcast use vstd::std_specs::vec::group_vec_axioms, vstd::seq::group_seq_axioms,
    vstd::string::group_string_axioms;

/// One labelled span of a file: the whole program or one declaration.
#[derive(Debug)]
pub struct AstNode {
    pub node_type: String,
    pub name: Option<String>,
    pub start_line: u32,
    pub end_line: u32,
    pub children: Vec<AstNode>,
}

#[derive(Clone, Copy, Debug, PartialEq, Eq, Structural)]
pub enum ChangeType {
    Added,
    Modified,
    Removed,
}

/// One structural difference between two versions of a file.
#[derive(Debug)]
pub struct AstChange {
    pub change_type: ChangeType,
    pub node_type: String,
    pub name: Option<String>,
    pub line_range: (u32, u32),
    pub old_content: Option<String>,
    pub new_content: Option<String>,
}

/// Why a diff request failed.
#[derive(Debug)]
pub enum DiffError {
    /// No scanner is registered for this file extension.
    UnsupportedExtension(String),
}

/// Computes structural diffs of files, choosing the scanner by extension.
pub struct AstDiffEngine {
    parsers: Vec<String>,
}

/// All structural differences found in one file.
#[derive(Debug)]
pub struct AstDiff {
    pub file_path: String,
    pub changes: Vec<AstChange>,
}

pub ghost struct ChangeView {
    pub change_type: ChangeType,
    pub node_type: Seq<char>,
    pub name: Option<Seq<char>>,
    pub line_range: (u32, u32),
    pub old_content: Option<Seq<char>>,
    pub new_content: Option<Seq<char>>,
}

pub open spec fn opt_view(o: Option<String>) -> Option<Seq<char>> {
    match o {
        Some(s) => Some(s@),
        None => None,
    }
}

impl View for AstChange {
    type V = ChangeView;

    open spec fn view(&self) -> ChangeView {
        ChangeView {
            change_type: self.change_type,
            node_type: self.node_type@,
            name: opt_view(self.name),
            line_range: self.line_range,
            old_content: opt_view(self.old_content),
            new_content: opt_view(self.new_content),
        }
    }
}

pub open spec fn change_views(cs: Seq<AstChange>) -> Seq<ChangeView> {
    cs.map_values(|c: AstChange| c@)
}

/// The index of the last of `cs[..k]` named `nm`, or -1.
pub open spec fn last_named(cs: Seq<AstNode>, nm: Seq<char>, k: int) -> int
    decreases k,
{
    if k <= 0 {
        -1
    } else if opt_view(cs[k - 1].name) == Some(nm) {
        k - 1
    } else {
        last_named(cs, nm, k - 1)
    }
}

pub proof fn lemma_last_named(cs: Seq<AstNode>, nm: Seq<char>, k: int)
    requires
        0 <= k <= cs.len(),
    ensures
        -1 <= last_named(cs, nm, k) < k,
        last_named(cs, nm, k) >= 0 ==> opt_view(cs[last_named(cs, nm, k)].name) == Some(nm),
        forall|j: int|
            last_named(cs, nm, k) < j < k && 0 <= j ==> opt_view(#[trigger] cs[j].name) != Some(nm),
    decreases k,
{
    if k > 0 {
        lemma_last_named(cs, nm, k - 1);
    }
}

/// The child that stands for the name `nm` in the name-keyed lookup, or -1.
pub open spec fn lookup(cs: Seq<AstNode>, nm: Seq<char>) -> int {
    last_named(cs, nm, cs.len() as int)
}

/// Whether `cs[i]` is the child that stands for its own name.
pub open spec fn is_key(cs: Seq<AstNode>, i: int) -> bool {
    opt_view(cs[i].name) is Some && lookup(cs, opt_view(cs[i].name)->0) == i
}

/// The summary `"<kind> <name>"` of a node.
pub open spec fn summary(n: AstNode, nm: Seq<char>) -> Seq<char> {
    n.node_type@ + " "@ + nm
}

pub open spec fn removed_change(o: AstNode, nm: Seq<char>) -> ChangeView {
    ChangeView {
        change_type: ChangeType::Removed,
        node_type: o.node_type@,
        name: Some(nm),
        line_range: (o.start_line, o.end_line),
        old_content: Some(summary(o, nm)),
        new_content: None,
    }
}

pub open spec fn added_change(n: AstNode, nm: Seq<char>) -> ChangeView {
    ChangeView {
        change_type: ChangeType::Added,
        node_type: n.node_type@,
        name: Some(nm),
        line_range: (n.start_line, n.end_line),
        old_content: None,
        new_content: Some(summary(n, nm)),
    }
}

pub open spec fn modified_change(o: AstNode, n: AstNode, nm: Seq<char>) -> ChangeView {
    ChangeView {
        change_type: ChangeType::Modified,
        node_type: n.node_type@,
        name: Some(nm),
        line_range: (n.start_line, n.end_line),
        old_content: Some(summary(o, nm)),
        new_content: Some(summary(n, nm)),
    }
}

/// Two matched nodes differ when their kinds or their numbers of children do.
pub open spec fn differ(o: AstNode, n: AstNode) -> bool {
    o.node_type@ != n.node_type@ || o.children@.len() != n.children@.len()
}

/// Removals among `o`'s children from index `i` on.
pub open spec fn removed_from(o: AstNode, n: AstNode, i: int) -> Seq<ChangeView>
    decreases o.children@.len() - i,
{
    if i < 0 || i >= o.children@.len() {
        Seq::empty()
    } else {
        let c = o.children@[i];
        let rest = removed_from(o, n, i + 1);
        if is_key(o.children@, i) && lookup(n.children@, opt_view(c.name)->0) < 0 {
            seq![removed_change(c, opt_view(c.name)->0)] + rest
        } else {
            rest
        }
    }
}

#[via_fn]
proof fn added_from_decreases(o: AstNode, n: AstNode, i: int) {
    if 0 <= i < n.children@.len() && is_key(n.children@, i) {
        let nm = opt_view(n.children@[i].name)->0;
        lemma_last_named(o.children@, nm, o.children@.len() as int);
        let k = lookup(o.children@, nm);
        if k >= 0 {
            assert(decreases_to!(o.children => o.children@));
            assert(decreases_to!(o.children@ => o.children@[k]));
        }
    }
}

/// Additions and modifications among `n`'s children from index `i` on.
pub open spec fn added_from(o: AstNode, n: AstNode, i: int) -> Seq<ChangeView>
    decreases o, n.children@.len() - i via added_from_decreases
{
    if i < 0 || i >= n.children@.len() {
        Seq::empty()
    } else {
        let c = n.children@[i];
        let rest = added_from(o, n, i + 1);
        if is_key(n.children@, i) {
            let nm = opt_view(c.name)->0;
            let k = lookup(o.children@, nm);
            if k < 0 {
                seq![added_change(c, nm)] + rest
            } else {
                let oc = o.children@[k];
                let here = if differ(oc, c) {
                    seq![modified_change(oc, c, nm)]
                } else {
                    Seq::empty()
                };
                here + diff_spec(oc, c) + rest
            }
        } else {
            rest
        }
    }
}

/// The structural diff of two trees.
pub open spec fn diff_spec(o: AstNode, n: AstNode) -> Seq<ChangeView>
    decreases o, n.children@.len() + 1,
{
    removed_from(o, n, 0) + added_from(o, n, 0)
}

/// The position of the last `c` in `s`, or -1.
pub open spec fn last_index(s: Seq<char>, c: char) -> int
    decreases s.len(),
{
    if s.len() == 0 {
        -1
    } else if s.last() == c {
        s.len() - 1
    } else {
        last_index(s.drop_last(), c)
    }
}

pub proof fn lemma_last_index(s: Seq<char>, c: char)
    ensures
        -1 <= last_index(s, c) < s.len(),
    decreases s.len(),
{
    if s.len() > 0 {
        lemma_last_index(s.drop_last(), c);
    }
}

/// The last segment of a slash-separated path.
pub open spec fn file_name(path: Seq<char>) -> Seq<char> {
    path.subrange(last_index(path, '/') + 1, path.len() as int)
}

/// The extension of a path: what follows the last dot of its last segment,
/// where that dot is not the segment's first character; empty otherwise.
pub open spec fn extension(path: Seq<char>) -> Seq<char> {
    let f = file_name(path);
    let d = last_index(f, '.');
    if d > 0 {
        f.subrange(d + 1, f.len() as int)
    } else {
        Seq::empty()
    }
}

/// The extensions that the registered scanner reads.
pub open spec fn supported_ext(e: Seq<char>) -> bool {
    e == "ts"@ || e == "js"@ || e == "tsx"@ || e == "jsx"@
}

pub(crate) fn last_index_of(v: &Vec<char>, c: char) -> (r: Option<usize>)
    ensures
        r is None <==> last_index(v@, c) < 0,
        r matches Some(k) ==> k == last_index(v@, c),
{
    let mut k: usize = v.len();
    assert(v@.subrange(0, k as int) =~= v@);
    while k > 0
        invariant
            k <= v@.len(),
            last_index(v@, c) == last_index(v@.subrange(0, k as int), c),
        decreases k,
    {
        if v[k - 1] == c {
            return Some(k - 1);
        }
        assert(v@.subrange(0, k as int).drop_last() =~= v@.subrange(0, k - 1));
        k = k - 1;
    }
    None
}

/// The extension of `path`, empty where it has none.
pub fn extension_of(path: &str) -> (r: String)
    ensures
        r@ == extension(path@),
{
    let p = chars_of(path);
    proof {
        lemma_last_index(p@, '/');
    }
    let start = match last_index_of(&p, '/') {
        Some(k) => k + 1,
        None => 0,
    };
    let name = crate::text::slice_of(&p, start, p.len());
    proof {
        lemma_last_index(name@, '.');
    }
    let r = match last_index_of(&name, '.') {
        Some(d) => {
            if d > 0 {
                crate::text::slice_of(&name, d + 1, name.len())
            } else {
                Vec::new()
            }
        },
        None => Vec::new(),
    };
    assert(r@ =~= extension(path@));
    crate::text::string_of(&r)
}

/// Finds the child that stands for the name `nm`.
fn lookup_child(cs: &Vec<AstNode>, nm: &String) -> (r: Option<usize>)
    ensures
        r is None <==> lookup(cs@, nm@) < 0,
        r matches Some(k) ==> k == lookup(cs@, nm@),
{
    let mut k: usize = cs.len();
    while k > 0
        invariant
            k <= cs@.len(),
            lookup(cs@, nm@) == last_named(cs@, nm@, k as int),
        decreases k,
    {
        match &cs[k - 1].name {
            Some(s) => {
                if *s == *nm {
                    return Some(k - 1);
                }
            },
            None => {},
        }
        k = k - 1;
    }
    None
}

fn summary_of(n: &AstNode, nm: &String) -> (r: String)
    ensures
        r@ == summary(*n, nm@),
{
    let mut s = n.node_type.clone();
    s.append(" ");
    s.append(nm.as_str());
    proof {
        reveal_strlit(" ");
    }
    s
}

impl AstDiffEngine {
    /// The engine reads exactly the extensions of the TypeScript scanner.
    pub closed spec fn wf(&self) -> bool {
        &&& self.parsers@.len() == 4
        &&& self.parsers@[0]@ == "ts"@
        &&& self.parsers@[1]@ == "js"@
        &&& self.parsers@[2]@ == "tsx"@
        &&& self.parsers@[3]@ == "jsx"@
    }

    pub fn new() -> (r: AstDiffEngine)
        ensures
            r.wf(),
    {
        let ts_parser = TypeScriptParser::new();
        let exts = ts_parser.supported_extensions();
        let ghost ev = exts@.map_values(|s: &str| s@);
        let mut parsers: Vec<String> = Vec::new();
        let mut i: usize = 0;
        while i < exts.len()
            invariant
                i <= exts@.len(),
                ev == exts@.map_values(|s: &str| s@),
                ev == seq!["ts"@, "js"@, "tsx"@, "jsx"@],
                parsers@.len() == i,
                forall|j: int| 0 <= j < i ==> (#[trigger] parsers@[j])@ == ev[j],
            decreases exts@.len() - i,
        {
            let e: &str = exts[i];
            assert(ev[i as int] == e@);
            parsers.push(e.to_owned());
            i = i + 1;
        }
        assert(ev.len() == 4);
        AstDiffEngine { parsers }
    }

    fn has_parser(&self, ext: &String) -> (r: bool)
        requires
            self.wf(),
        ensures
            r == supported_ext(ext@),
    {
        let mut i: usize = 0;
        while i < self.parsers.len()
            invariant
                self.wf(),
                i <= self.parsers@.len(),
                forall|j: int| 0 <= j < i ==> (#[trigger] self.parsers@[j])@ != ext@,
            decreases self.parsers@.len() - i,
        {
            if self.parsers[i] == *ext {
                return true;
            }
            i = i + 1;
        }
        assert(self.parsers@[0]@ != ext@);
        assert(self.parsers@[1]@ != ext@);
        assert(self.parsers@[2]@ != ext@);
        assert(self.parsers@[3]@ != ext@);
        false
    }

    /// The structural diff of two versions of the file at `file_path`, or
    /// `UnsupportedExtension` where no scanner reads its extension.
    pub fn compute_diff(&self, file_path: &str, old_content: &str, new_content: &str) -> (r: Result<
        AstDiff,
        DiffError,
    >)
        requires
            self.wf(),
            old_content@.len() <= MAX_SCAN_LEN,
            new_content@.len() <= MAX_SCAN_LEN,
        ensures
            r is Ok <==> supported_ext(extension(file_path@)),
            r matches Err(DiffError::UnsupportedExtension(e)) ==> e@ == extension(file_path@),
            r matches Ok(d) ==> d.file_path@ == file_path@ && exists|a: AstNode, b: AstNode|
                is_scan_of(old_content@, a) && is_scan_of(new_content@, b) && change_views(
                    d.changes@,
                ) == diff_spec(a, b),
    {
        let extension = extension_of(file_path);
        if !self.has_parser(&extension) {
            return Err(DiffError::UnsupportedExtension(extension));
        }
        let parser = TypeScriptParser::new();
        let old_ast = parser.parse_simple(old_content);
        let new_ast = parser.parse_simple(new_content);
        let changes = self.diff_nodes(&old_ast, &new_ast);
        Ok(AstDiff { file_path: file_path.to_string(), changes })
    }

    fn nodes_differ(&self, old_node: &AstNode, new_node: &AstNode) -> (r: bool)
        ensures
            r == differ(*old_node, *new_node),
    {
        !(old_node.node_type == new_node.node_type) || old_node.children.len()
            != new_node.children.len()
    }

    fn diff_nodes(&self, old_node: &AstNode, new_node: &AstNode) -> (r: Vec<AstChange>)
        ensures
            change_views(r@) == diff_spec(*old_node, *new_node),
        decreases old_node,
    {
        let ghost o = *old_node;
        let ghost n = *new_node;
        let oc = &old_node.children;
        let nc = &new_node.children;
        let mut changes: Vec<AstChange> = Vec::new();
        let mut i: usize = 0;
        while i < oc.len()
            invariant
                o == *old_node,
                n == *new_node,
                oc@ == o.children@,
                nc@ == n.children@,
                i <= oc@.len(),
                change_views(changes@) + removed_from(o, n, i as int) == removed_from(o, n, 0),
            decreases oc@.len() - i,
        {
            let ghost before_step = changes@;
            match &oc[i].name {
                Some(nm) => {
                    let mine = match lookup_child(oc, nm) {
                        Some(k) => k == i,
                        None => false,
                    };
                    assert(opt_view(o.children@[i as int].name) == Some(nm@));
                    assert(mine == is_key(o.children@, i as int));
                    if mine && lookup_child(nc, nm).is_none() {
                        let c = &oc[i];
                        changes.push(
                            AstChange {
                                change_type: ChangeType::Removed,
                                node_type: c.node_type.clone(),
                                name: Some(nm.clone()),
                                line_range: (c.start_line, c.end_line),
                                old_content: Some(summary_of(c, nm)),
                                new_content: None,
                            },
                        );
                        assert(change_views(changes@) =~= change_views(before_step) + seq![
                            removed_change(o.children@[i as int], nm@),
                        ]);
                    }
                },
                None => {},
            }
            i = i + 1;
            assert(change_views(changes@) + removed_from(o, n, i as int) =~= change_views(
                before_step,
            ) + removed_from(o, n, i - 1));
        }
        assert(change_views(changes@) =~= removed_from(o, n, 0));
        let mut j: usize = 0;
        while j < nc.len()
            invariant
                o == *old_node,
                n == *new_node,
                oc@ == o.children@,
                nc@ == n.children@,
                j <= nc@.len(),
                change_views(changes@) + added_from(o, n, j as int) == diff_spec(o, n),
            decreases nc@.len() - j,
        {
            let ghost before_step = changes@;
            let c = &nc[j];
            match &c.name {
                Some(nm) => {
                    let mine = match lookup_child(nc, nm) {
                        Some(k) => k == j,
                        None => false,
                    };
                    if mine {
                        match lookup_child(oc, nm) {
                            None => {
                                changes.push(
                                    AstChange {
                                        change_type: ChangeType::Added,
                                        node_type: c.node_type.clone(),
                                        name: Some(nm.clone()),
                                        line_range: (c.start_line, c.end_line),
                                        old_content: None,
                                        new_content: Some(summary_of(c, nm)),
                                    },
                                );
                                assert(change_views(changes@) =~= change_views(before_step)
                                    + seq![added_change(n.children@[j as int], nm@)]);
                            },
                            Some(k) => {
                                proof {
                                    lemma_last_named(oc@, nm@, oc@.len() as int);
                                }
                                let old_child = &oc[k];
                                let ghost here: Seq<ChangeView> = Seq::empty();
                                if self.nodes_differ(old_child, c) {
                                    changes.push(
                                        AstChange {
                                            change_type: ChangeType::Modified,
                                            node_type: c.node_type.clone(),
                                            name: Some(nm.clone()),
                                            line_range: (c.start_line, c.end_line),
                                            old_content: Some(summary_of(old_child, nm)),
                                            new_content: Some(summary_of(c, nm)),
                                        },
                                    );
                                    proof {
                                        here = seq![
                                            modified_change(
                                                o.children@[k as int],
                                                n.children@[j as int],
                                                nm@,
                                            ),
                                        ];
                                    }
                                    assert(change_views(changes@) =~= change_views(before_step)
                                        + here);
                                }
                                let ghost mid = changes@;
                                assert(change_views(mid) == change_views(before_step) + here);
                                proof {
                                    assert(k < old_node.children@.len());
                                    assert(decreases_to!(*old_node => old_node.children));
                                    assert(decreases_to!(old_node.children => old_node.children@));
                                    assert(decreases_to!(old_node.children@ => old_node.children@[k as int]));
                                }
                                let mut sub = self.diff_nodes(old_child, c);
                                changes.append(&mut sub);
                                assert(change_views(changes@) =~= change_views(mid)
                                    + diff_spec(o.children@[k as int], n.children@[j as int]));
                            },
                        }
                    }
                },
                None => {},
            }
            j = j + 1;
            assert(change_views(changes@) + added_from(o, n, j as int) =~= change_views(
                before_step,
            ) + added_from(o, n, j - 1));
        }
        assert(change_views(changes@) =~= diff_spec(o, n));
        changes
    }
}

} // verus!
