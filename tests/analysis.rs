use shadow_core::{
    AstDiffEngine, AstParser, ChangeType, DependencyGraphBuilder, DiffError, DiffTracker,
    RiskLevel, TypeScriptParser,
};

fn files(entries: &[(&str, &str)]) -> Vec<(String, String)> {
    entries.iter().map(|(p, c)| (p.to_string(), c.to_string())).collect()
}

fn strings(items: &[&str]) -> Vec<String> {
    items.iter().map(|s| s.to_string()).collect()
}

#[test]
fn test_typescript_parser_functions() {
    let parser = TypeScriptParser::new();
    let content = r#"
function hello() {
    return "world";
}

export function goodbye() {
    return "farewell";
}

const arrow = () => {
    return "arrow";
};
"#;

    let ast = parser.parse(content).unwrap();
    assert_eq!(ast.node_type, "Program");
    assert_eq!(ast.children.len(), 3);

    let function_names: Vec<&str> = ast.children.iter()
        .filter_map(|child| child.name.as_deref())
        .collect();

    assert!(function_names.contains(&"hello"));
    assert!(function_names.contains(&"goodbye"));
    assert!(function_names.contains(&"arrow"));
}

#[test]
fn test_ast_diff_engine() {
    let engine = AstDiffEngine::new();

    let old_content = r#"
function oldFunction() {
    return "old";
}
"#;

    let new_content = r#"
function newFunction() {
    return "new";
}

function oldFunction() {
    return "modified";
}
"#;

    let diff = engine.compute_diff("test.ts", old_content, new_content).unwrap();

    assert_eq!(diff.file_path, "test.ts");
    assert!(!diff.changes.is_empty());

    let change_types: Vec<&ChangeType> = diff.changes.iter()
        .map(|change| &change.change_type)
        .collect();

    assert!(change_types.iter().any(|ct| matches!(ct, ChangeType::Added)));
}

#[test]
fn test_dependency_graph_builder() {
    let builder = DependencyGraphBuilder::new(".");

    let analysis = builder.analyze_impact(&["file1.ts".to_string()]);

    assert_eq!(analysis.changed_files.len(), 1);
    assert_eq!(analysis.changed_files[0], "file1.ts");
}

#[test]
fn test_impact_analysis_risk_levels() {
    let builder = DependencyGraphBuilder::new(".");

    let low_risk = builder.analyze_impact(&["single.ts".to_string()]);
    assert!(matches!(low_risk.risk_level, RiskLevel::Low));

    let many_files: Vec<String> = (0..10).map(|i| format!("file{}.ts", i)).collect();
    let high_risk = builder.analyze_impact(&many_files);
    assert!(matches!(high_risk.risk_level, RiskLevel::High));
}

#[test]
fn self_diff_is_empty() {
    let engine = AstDiffEngine::new();
    let text = "import { x } from './x'\nclass A {\n}\nfunction f(a) {}\nconst g = (b) => b;\n";
    let diff = engine.compute_diff("src/mod.tsx", text, text).unwrap();
    assert!(diff.changes.is_empty());
}

#[test]
fn adding_a_function_is_one_addition() {
    let engine = AstDiffEngine::new();
    let old_text = "class A {\n}\nfunction g() {}\n";
    let new_text = "class A {\n}\nfunction f() {}\nfunction g() {}\n";
    let diff = engine.compute_diff("a.js", old_text, new_text).unwrap();
    assert_eq!(diff.changes.len(), 1);
    let c = &diff.changes[0];
    assert_eq!(c.change_type, ChangeType::Added);
    assert_eq!(c.node_type, "FunctionDeclaration");
    assert_eq!(c.name.as_deref(), Some("f"));
    assert_eq!(c.line_range, (3, 3));
    assert_eq!(c.old_content, None);
    assert_eq!(c.new_content.as_deref(), Some("FunctionDeclaration f"));
}

#[test]
fn removing_a_class_is_one_removal() {
    let engine = AstDiffEngine::new();
    let old_text = "export class C extends B {\n}\nfunction g() {}\n";
    let new_text = "function g() {}\n";
    let diff = engine.compute_diff("a.ts", old_text, new_text).unwrap();
    assert_eq!(diff.changes.len(), 1);
    let c = &diff.changes[0];
    assert_eq!(c.change_type, ChangeType::Removed);
    assert_eq!(c.node_type, "ClassDeclaration");
    assert_eq!(c.name.as_deref(), Some("C"));
    assert_eq!(c.line_range, (1, 1));
    assert_eq!(c.old_content.as_deref(), Some("ClassDeclaration C"));
    assert_eq!(c.new_content, None);
}

#[test]
fn same_name_new_kind_is_modified() {
    let engine = AstDiffEngine::new();
    let diff = engine.compute_diff("a.ts", "function Thing() {}\n", "\nclass Thing {\n").unwrap();
    assert_eq!(diff.changes.len(), 1);
    let c = &diff.changes[0];
    assert_eq!(c.change_type, ChangeType::Modified);
    assert_eq!(c.node_type, "ClassDeclaration");
    assert_eq!(c.line_range, (2, 2));
    assert_eq!(c.old_content.as_deref(), Some("FunctionDeclaration Thing"));
    assert_eq!(c.new_content.as_deref(), Some("ClassDeclaration Thing"));
}

#[test]
fn diff_of_added_function_scenario() {
    let engine = AstDiffEngine::new();
    let diff = engine
        .compute_diff(
            "x.ts",
            "function old(){return 1;}",
            "function old(){return 1;}\nfunction brandNew(){return 2;}",
        )
        .unwrap();
    assert_eq!(diff.changes.len(), 1);
    assert_eq!(diff.changes[0].change_type, ChangeType::Added);
    assert_eq!(diff.changes[0].name.as_deref(), Some("brandNew"));
}

#[test]
fn unsupported_extension_is_an_error() {
    let engine = AstDiffEngine::new();
    match engine.compute_diff("docs/readme.md", "a", "b") {
        Err(DiffError::UnsupportedExtension(e)) => assert_eq!(e, "md"),
        Ok(_) => panic!("a markdown file has no scanner"),
    }
    match engine.compute_diff("Makefile", "a", "b") {
        Err(DiffError::UnsupportedExtension(e)) => assert_eq!(e, ""),
        Ok(_) => panic!("a file without extension has no scanner"),
    }
    match engine.compute_diff("dir.ts/.ts", "a", "b") {
        Err(DiffError::UnsupportedExtension(e)) => assert_eq!(e, ""),
        Ok(_) => panic!("a hidden file has no extension"),
    }
}

#[test]
fn scanner_lines_and_imports() {
    let parser = TypeScriptParser::new();
    let ast = parser
        .parse("  import { a } from \"./a\"\n\nexport class Box<T> {\n")
        .unwrap();
    assert_eq!(ast.start_line, 1);
    assert_eq!(ast.end_line, 3);
    assert_eq!(ast.children.len(), 2);
    assert_eq!(ast.children[0].node_type, "ImportDeclaration");
    assert_eq!(ast.children[0].name.as_deref(), Some("./a"));
    assert_eq!(ast.children[0].start_line, 1);
    assert_eq!(ast.children[1].node_type, "ClassDeclaration");
    assert_eq!(ast.children[1].name.as_deref(), Some("Box<T>"));
    assert_eq!(ast.children[1].end_line, 3);
    assert_eq!(parser.supported_extensions(), vec!["ts", "js", "tsx", "jsx"]);
}

#[test]
fn risk_level_boundaries() {
    let builder = DependencyGraphBuilder::new(".");
    let level = |n: usize| {
        let changed: Vec<String> = (0..n).map(|i| format!("f{}.ts", i)).collect();
        builder.analyze_impact(&changed).risk_level
    };
    assert_eq!(level(2), RiskLevel::Low);
    assert_eq!(level(3), RiskLevel::Medium);
    assert_eq!(level(7), RiskLevel::Medium);
    assert_eq!(level(8), RiskLevel::High);
}

#[test]
fn impact_follows_imports_transitively() {
    let mut builder = DependencyGraphBuilder::new("/w");
    builder.build_graph(&files(&[
        ("./a.ts", "export function foo(){}"),
        ("./b.ts", "import { foo } from './a'\nexport function bar(){ foo(); }"),
        ("./c.js", "const b = require('./b.ts');"),
        ("./d.ts", "import x from 'lodash'"),
    ]));
    let analysis = builder.analyze_impact(&strings(&["./a.ts"]));
    let mut impacted = analysis.impacted_files.clone();
    impacted.sort();
    assert_eq!(impacted, strings(&["./b.ts", "./c.js"]));
    assert_eq!(analysis.risk_level, RiskLevel::Medium);
}

#[test]
fn impact_scenario_two_files() {
    let mut builder = DependencyGraphBuilder::new(".");
    builder.build_graph(&files(&[
        ("a.ts", "export function foo(){}"),
        ("b.ts", "import { foo } from './a'; export function bar(){ foo(); }"),
    ]));
    let analysis = builder.analyze_impact(&strings(&["a.ts"]));
    assert_eq!(analysis.changed_files, strings(&["a.ts"]));
    assert_eq!(analysis.impacted_files, strings(&["b.ts"]));
    assert_eq!(analysis.risk_level, RiskLevel::Low);
}

#[test]
fn imports_take_the_quoted_specifier() {
    let mut builder = DependencyGraphBuilder::new(".");
    builder.build_graph(&files(&[(
        "src/m.ts",
        "import { foo } from './a';\nimport b from \"../lib/b\"; // note\nconst c = require('./c.js');\nimport d from 'lodash';",
    )]));
    let node = &builder.get_graph().nodes[0];
    assert_eq!(node.imports, strings(&["./a.ts", "../lib/b.ts", "./c.js"]));

    let parser = TypeScriptParser::new();
    let ast = parser.parse("import { foo } from './a';").unwrap();
    assert_eq!(ast.children.len(), 1);
    assert_eq!(ast.children[0].name.as_deref(), Some("./a"));
}

#[test]
fn imports_resolve_from_the_importing_directory() {
    let mut builder = DependencyGraphBuilder::new(".");
    builder.build_graph(&files(&[
        ("lib/b.ts", "export class B {"),
        ("src/a.ts", "import { B } from '../lib/b';"),
        ("src/c.ts", "import { A } from './a';"),
    ]));
    let graph = builder.get_graph();
    assert_eq!(graph.edges[1].1, strings(&["lib/b.ts"]));
    assert_eq!(graph.edges[2].1, strings(&["src/a.ts"]));
    let analysis = builder.analyze_impact(&strings(&["lib/b.ts"]));
    let mut impacted = analysis.impacted_files.clone();
    impacted.sort();
    assert_eq!(impacted, strings(&["src/a.ts", "src/c.ts"]));
    assert_eq!(analysis.risk_level, RiskLevel::Medium);
    assert_eq!(builder.calculate_risk_level(1, 1), RiskLevel::Low);
    assert_eq!(builder.calculate_risk_level(5, 3), RiskLevel::High);
}

#[test]
fn impact_excludes_changed_files_in_cycles() {
    let mut builder = DependencyGraphBuilder::new(".");
    builder.build_graph(&files(&[
        ("./a.ts", "import { b } from './b'"),
        ("./b.ts", "import { a } from './a'"),
        ("./c.ts", "export const c = 1;"),
    ]));
    let cyclic = builder.analyze_impact(&strings(&["./a.ts", "./a.ts"]));
    assert_eq!(cyclic.changed_files, strings(&["./a.ts", "./a.ts"]));
    assert_eq!(cyclic.impacted_files, strings(&["./b.ts"]));
    assert_eq!(cyclic.risk_level, RiskLevel::Medium);
    let lonely = builder.analyze_impact(&strings(&["./c.ts"]));
    assert!(lonely.impacted_files.is_empty());
    assert_eq!(lonely.risk_level, RiskLevel::Low);
    let absent = builder.analyze_impact(&strings(&["./zzz.ts"]));
    assert!(absent.impacted_files.is_empty());
}

#[test]
fn graph_nodes_hold_imports_and_exports() {
    let mut builder = DependencyGraphBuilder::new(".");
    builder.build_graph(&files(&[
        (
            "./m.ts",
            "import a from './a'\nconst u = require(\"./u.js\")\nexport class K {\nexport let v = 3;\nexport default k;\n",
        ),
        ("./a.ts", "export function foo(x) {}"),
        ("./m.ts", "export const answer = 42;"),
    ]));
    let graph = builder.get_graph();
    assert_eq!(graph.nodes.len(), 2);
    assert_eq!(graph.nodes[0].file_path, "./m.ts");
    assert_eq!(graph.nodes[0].exports, strings(&["answer"]));
    assert!(graph.nodes[0].imports.is_empty());
    assert_eq!(graph.nodes[1].exports, strings(&["foo"]));
    assert_eq!(graph.edges.len(), 2);

    let mut other = DependencyGraphBuilder::new(".");
    other.build_graph(&files(&[(
        "./m.ts",
        "import a from './a'\nconst u = require(\"./u.js\")\nexport class K {\nexport let v = 3;\nexport default k;\n",
    )]));
    let node = &other.get_graph().nodes[0];
    assert_eq!(node.imports, strings(&["./a.ts", "./u.js"]));
    assert_eq!(node.exports, strings(&["K", "v"]));
    assert!(other.get_graph().edges[0].1.is_empty());
}

#[test]
fn supported_files_by_extension() {
    let builder = DependencyGraphBuilder::new(".");
    assert!(builder.is_supported_file("src/app.tsx"));
    assert!(builder.is_supported_file("lib/x.jsx"));
    assert!(!builder.is_supported_file("lib/x.rs"));
    assert!(!builder.is_supported_file("lib/ts"));
}

#[test]
fn tracker_counts_no_diffs() {
    let mut tracker = DiffTracker::new(".shadow");
    assert_eq!(tracker.shadow_dir(), ".shadow");
    tracker.start_tracking(&files(&[("a.rs", "fn main() {}"), ("b.md", "# b")]));
    assert_eq!(tracker.get_diff_count(), 0);
    tracker.stop_tracking();
    tracker.clear_diffs();
    assert_eq!(tracker.get_diff_count(), 0);
}

#[test]
fn graph_keeps_only_script_files() {
    let mut builder = DependencyGraphBuilder::new(".");
    builder.build_graph(&files(&[
        ("README.md", "import x from './a'"),
        ("a.ts", "export const a = 1;"),
        ("Makefile", ""),
    ]));
    let graph = builder.get_graph();
    assert_eq!(graph.nodes.len(), 1);
    assert_eq!(graph.nodes[0].file_path, "a.ts");
    assert_eq!(graph.nodes[0].exports, strings(&["a"]));
}

#[test]
fn tracker_file_selection() {
    let tracker = DiffTracker::new(".shadow");
    assert!(tracker.should_track_file("src/lib.rs"));
    assert!(tracker.should_track_file("Cargo.toml"));
    assert!(tracker.should_track_file("package.json"));
    assert!(!tracker.should_track_file("image.png"));
    assert!(!tracker.should_track_file("LICENSE"));
}
