//! The line-oriented declaration scanner for TypeScript and JavaScript.
//!
//! Each line is trimmed and tested against three pattern families (functions,
//! classes, imports); every match becomes a direct child of the `Program`
//! root, spanning just the line it was found on.
use vstd::prelude::*;
use crate::ast::{AstNode, opt_view};
use crate::text::{
    after, before, before_seq, lemma_lines_len, chars_of, contains, find_in, lines, same_chars, slice_of,
    split_lines, split_ws, starts_with, starts_with_seq, string_of, tokens, trim, trim_ws, views,
    module_spec, module_specifier,
};

verus! {

broadcast use vstd::string::group_string_axioms;

/// One detected declaration: its kind, its name and its 1-based line.
pub ghost struct Decl {
    pub kind: Seq<char>,
    pub name: Seq<char>,
    pub line: int,
}

/// The token after the first occurrence of `kw` in `parts[i..]` that has a
/// token after it.
pub open spec fn word_after(parts: Seq<Seq<char>>, kw: Seq<char>, i: int) -> Option<Seq<char>>
    decreases parts.len() - i,
{
    if i < 0 || i >= parts.len() {
        None
    } else if parts[i] == kw && i + 1 < parts.len() {
        Some(parts[i + 1])
    } else {
        word_after(parts, kw, i + 1)
    }
}

/// The name of a function declared on the trimmed line `l`: after a leading
/// `function` or `export function`, or on the left of an arrow-function
/// assignment.
pub open spec fn function_name(l: Seq<char>) -> Option<Seq<char>> {
    let parts = tokens(l);
    if starts_with(l, "function "@) && parts.len() >= 2 {
        Some(before(parts[1], "("@))
    } else if starts_with(l, "export function "@) && parts.len() >= 3 {
        Some(before(parts[2], "("@))
    } else if contains(l, " = "@) && contains(l, " => "@) {
        let lhs = tokens(before(l, " = "@));
        if lhs.len() > 0 {
            Some(lhs.last())
        } else {
            None
        }
    } else {
        None
    }
}

/// A class name taken from the token that follows `class`.
pub open spec fn class_word(t: Seq<char>) -> Seq<char> {
    before(before(t, "{"@), " "@)
}

/// The name of a class declared on the trimmed line `l`.
pub open spec fn class_name(l: Seq<char>) -> Option<Seq<char>> {
    if starts_with(l, "class "@) || starts_with(l, "export class "@) {
        match word_after(tokens(l), "class"@, 0) {
            Some(t) => Some(class_word(t)),
            None => None,
        }
    } else {
        None
    }
}

/// The module specifier of an import on the trimmed line `l`, unquoted.
pub open spec fn import_name(l: Seq<char>) -> Option<Seq<char>> {
    if starts_with(l, "import "@) && contains(l, " from "@) {
        Some(module_spec(after(l, " from "@)))
    } else {
        None
    }
}

pub open spec fn opt_decl(o: Option<Seq<char>>, kind: Seq<char>, line: int) -> Seq<Decl> {
    match o {
        Some(nm) => seq![Decl { kind, name: nm, line }],
        None => Seq::empty(),
    }
}

/// The declarations found on the trimmed line `l`, numbered `line`.
pub open spec fn line_decls(l: Seq<char>, line: int) -> Seq<Decl> {
    opt_decl(function_name(l), "FunctionDeclaration"@, line) + opt_decl(
        class_name(l),
        "ClassDeclaration"@,
        line,
    ) + opt_decl(import_name(l), "ImportDeclaration"@, line)
}

/// The declarations found on the first `k` lines of `ls`.
pub open spec fn decls_upto(ls: Seq<Seq<char>>, k: int) -> Seq<Decl>
    decreases k,
{
    if k <= 0 || k > ls.len() {
        Seq::empty()
    } else {
        decls_upto(ls, k - 1) + line_decls(trim(ls[k - 1]), k)
    }
}

/// The declarations of a text, in line order.
pub open spec fn declarations(text: Seq<char>) -> Seq<Decl> {
    decls_upto(lines(text), lines(text).len() as int)
}

/// `n` is the leaf node for the declaration `d`.
pub open spec fn node_is_decl(n: AstNode, d: Decl) -> bool {
    &&& n.node_type@ == d.kind
    &&& opt_view(n.name) == Some(d.name)
    &&& n.start_line as int == d.line
    &&& n.end_line as int == d.line
    &&& n.children@.len() == 0
}

/// `t` is the structural tree of `text`.
pub open spec fn is_scan_of(text: Seq<char>, t: AstNode) -> bool {
    &&& t.node_type@ == "Program"@
    &&& t.name is None
    &&& t.start_line == 1
    &&& t.end_line as int == lines(text).len()
    &&& t.children@.len() == declarations(text).len()
    &&& forall|i: int|
        0 <= i < t.children@.len() ==> node_is_decl(#[trigger] t.children@[i], declarations(text)[i])
}

/// The largest text a scan numbers: its line numbers are `u32`.
pub const MAX_SCAN_LEN: usize = 0xffff_ffff;

/// Scans TypeScript, JavaScript, TSX and JSX text.
#[derive(Clone, Copy, Debug)]
pub struct TypeScriptParser {}

/// A scanner of source text into a structural tree.
pub trait AstParser {
    /// The structural tree of `content`.
    fn parse(&self, content: &str) -> (r: Result<AstNode, String>)
        requires
            content@.len() <= MAX_SCAN_LEN,
    ;

    /// The file extensions this scanner reads.
    fn supported_extensions(&self) -> (r: Vec<&'static str>)
    ;
}

fn decl_node(kind: &str, name: String, line: u32) -> (r: AstNode)
    ensures
        node_is_decl(r, Decl { kind: kind@, name: name@, line: line as int }),
{
    AstNode {
        node_type: kind.to_string(),
        name: Some(name),
        start_line: line,
        end_line: line,
        children: Vec::new(),
    }
}

impl TypeScriptParser {
    pub fn new() -> (r: TypeScriptParser) {
        TypeScriptParser {  }
    }

    fn extract_function_name(&self, line: &Vec<char>) -> (r: Option<String>)
        ensures
            opt_view(r) == function_name(line@),
    {
        let parts = split_ws(line);
        let open_paren = chars_of("(");
        assert(views(parts@).len() == parts@.len());
        if starts_with_seq(line, &chars_of("function ")) && parts.len() >= 2 {
            assert(views(parts@)[1] == parts@[1]@);
            return Some(string_of(&before_seq(&parts[1], &open_paren)));
        }
        if starts_with_seq(line, &chars_of("export function ")) && parts.len() >= 3 {
            assert(views(parts@)[2] == parts@[2]@);
            return Some(string_of(&before_seq(&parts[2], &open_paren)));
        }
        let assign = chars_of(" = ");
        if find_in(line, &assign).is_some() && find_in(line, &chars_of(" => ")).is_some() {
            let lhs = split_ws(&before_seq(line, &assign));
            assert(views(lhs@).len() == lhs@.len());
            if lhs.len() > 0 {
                assert(views(lhs@)[lhs@.len() - 1] == lhs@[lhs@.len() - 1]@);
                return Some(string_of(&lhs[lhs.len() - 1]));
            }
        }
        None
    }

    fn extract_class_name(&self, line: &Vec<char>) -> (r: Option<String>)
        ensures
            opt_view(r) == class_name(line@),
    {
        if starts_with_seq(line, &chars_of("class ")) || starts_with_seq(
            line,
            &chars_of("export class "),
        ) {
            let parts = split_ws(line);
            let kw = chars_of("class");
            let mut i: usize = 0;
            while i < parts.len()
                invariant
                    i <= parts@.len(),
                    kw@ == "class"@,
                    starts_with(line@, "class "@) || starts_with(line@, "export class "@),
                    views(parts@) == tokens(line@),
                    word_after(tokens(line@), "class"@, 0) == word_after(
                        tokens(line@),
                        "class"@,
                        i as int,
                    ),
                decreases parts@.len() - i,
            {
                assert(views(parts@)[i as int] == parts@[i as int]@);
                if same_chars(&parts[i], &kw) && i + 1 < parts.len() {
                    assert(views(parts@)[i + 1] == parts@[i + 1]@);
                    assert(word_after(tokens(line@), "class"@, i as int) == Some(
                        parts@[i + 1]@,
                    ));
                    let word = before_seq(&before_seq(&parts[i + 1], &chars_of("{")), &chars_of(" "));
                    return Some(string_of(&word));
                }
                i = i + 1;
            }
        }
        None
    }

    fn extract_import_name(&self, line: &Vec<char>) -> (r: Option<String>)
        ensures
            opt_view(r) == import_name(line@),
    {
        if starts_with_seq(line, &chars_of("import ")) {
            let from = chars_of(" from ");
            match find_in(line, &from) {
                Some(pos) => {
                    let n = line.len();
                    let module_part = slice_of(line, pos + from.len(), n);
                    let name = module_specifier(&module_part);
                    return Some(string_of(&name));
                },
                None => {},
            }
        }
        None
    }

    pub(crate) fn parse_simple(&self, content: &str) -> (r: AstNode)
        requires
            content@.len() <= MAX_SCAN_LEN,
        ensures
            is_scan_of(content@, r),
    {
        let text = chars_of(content);
        let ls = split_lines(&text);
        proof {
            lemma_lines_len(text@);
        }
        let ghost lv = lines(content@);
        assert(views(ls@).len() == ls@.len());
        let n = ls.len();
        let mut children: Vec<AstNode> = Vec::new();
        let mut k: usize = 0;
        while k < n
            invariant
                n == ls@.len() == lv.len() <= MAX_SCAN_LEN,
                views(ls@) == lv,
                k <= n,
                children@.len() == decls_upto(lv, k as int).len(),
                forall|i: int|
                    0 <= i < children@.len() ==> node_is_decl(
                        #[trigger] children@[i],
                        decls_upto(lv, k as int)[i],
                    ),
            decreases n - k,
        {
            let trimmed = trim_ws(&ls[k]);
            assert(views(ls@)[k as int] == ls@[k as int]@);
            let current_line = (k + 1) as u32;
            let ghost before_line = children@;
            let ghost l = trimmed@;
            let ghost d = decls_upto(lv, k as int);
            if let Some(func_name) = self.extract_function_name(&trimmed) {
                children.push(decl_node("FunctionDeclaration", func_name, current_line));
            }
            let ghost after_fn = children@;
            if let Some(class_name) = self.extract_class_name(&trimmed) {
                children.push(decl_node("ClassDeclaration", class_name, current_line));
            }
            let ghost after_class = children@;
            if let Some(import_name) = self.extract_import_name(&trimmed) {
                children.push(decl_node("ImportDeclaration", import_name, current_line));
            }
            k = k + 1;
            proof {
                let nd = decls_upto(lv, k as int);
                let f = opt_decl(function_name(l), "FunctionDeclaration"@, k as int);
                let c = opt_decl(class_name(l), "ClassDeclaration"@, k as int);
                let m = opt_decl(import_name(l), "ImportDeclaration"@, k as int);
                assert(nd == d + f + c + m);
                assert(after_fn.len() == before_line.len() + f.len());
                assert(after_class.len() == after_fn.len() + c.len());
                assert(children@.len() == after_class.len() + m.len());
                assert forall|i: int| 0 <= i < children@.len() implies node_is_decl(
                    #[trigger] children@[i],
                    nd[i],
                ) by {
                    if i < before_line.len() {
                        assert(children@[i] == before_line[i]);
                    } else if i < after_fn.len() {
                        assert(children@[i] == after_fn[i]);
                    } else if i < after_class.len() {
                        assert(children@[i] == after_class[i]);
                    }
                }
            }
        }
        AstNode {
            node_type: "Program".to_string(),
            name: None,
            start_line: 1,
            end_line: n as u32,
            children,
        }
    }
}

impl AstParser for TypeScriptParser {
    fn parse(&self, content: &str) -> (r: Result<AstNode, String>)
        ensures
            r matches Ok(t) && is_scan_of(content@, t),
    {
        Ok(self.parse_simple(content))
    }

    fn supported_extensions(&self) -> (r: Vec<&'static str>)
        ensures
            r@.map_values(|s: &str| s@) == seq!["ts"@, "js"@, "tsx"@, "jsx"@],
    {
        let r = vec!["ts", "js", "tsx", "jsx"];
        assert(r@.map_values(|s: &str| s@) =~= seq!["ts"@, "js"@, "tsx"@, "jsx"@]);
        r
    }
}

} // verus!
