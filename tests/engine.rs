use shadow_core::{AstDiffEngine, DiffError, Engine, EngineError, Session};

fn session(id: &str) -> Session {
    Session {
        id: id.to_string(),
        start_time: "2024-01-01T00:00:00+00:00".to_string(),
        workspace_path: "/w".to_string(),
    }
}

#[test]
fn impact_before_any_build_is_refused() {
    let engine = Engine::new();
    assert!(matches!(engine.analyze_impact(&["a.ts".to_string()]), Err(EngineError::GraphNotBuilt)));
}

#[test]
fn impact_after_build_uses_the_graph() {
    let mut engine = Engine::new();
    let files = vec![
        ("./a.ts".to_string(), "export function foo(){}".to_string()),
        ("./b.ts".to_string(), "import { foo } from './a'".to_string()),
    ];
    engine.build_dependency_graph(".", &files);
    assert!(matches!(engine.analyze_impact(&[]), Ok(_)));
    let analysis = engine.analyze_impact(&["./a.ts".to_string()]).unwrap();
    assert_eq!(analysis.impacted_files, vec!["./b.ts".to_string()]);
}

#[test]
fn one_session_at_a_time() {
    let mut engine = Engine::new();
    engine.initialize(".shadow");
    assert!(matches!(engine.stop_session(), Err(EngineError::NoActiveSession)));
    let id = engine.start_session(session("s1"), &Vec::new()).unwrap();
    assert_eq!(id, "s1");
    assert!(matches!(
        engine.start_session(session("s2"), &Vec::new()),
        Err(EngineError::SessionAlreadyActive)
    ));
    let status = engine.get_status();
    assert!(status.is_active);
    assert_eq!(status.session_id.as_deref(), Some("s1"));
    assert_eq!(status.start_time.as_deref(), Some("2024-01-01T00:00:00+00:00"));
    assert_eq!(engine.get_diff_count(), 0);
    assert!(engine.stop_session().is_ok());
    let status = engine.get_status();
    assert!(!status.is_active);
    assert_eq!(status.session_id, None);
}

#[test]
fn batch_diffs_stop_at_unsupported_file() {
    let engine = Engine::new();
    let ok = engine
        .compute_ast_diffs(&vec![
            ("a.ts".to_string(), "".to_string(), "function f() {}".to_string()),
            ("b.jsx".to_string(), "class K {".to_string(), "".to_string()),
        ])
        .unwrap();
    assert_eq!(ok.len(), 2);
    assert_eq!(ok[0].changes.len(), 1);
    assert_eq!(ok[1].file_path, "b.jsx");
    assert_eq!(ok[1].changes[0].name.as_deref(), Some("K"));
    let err = engine.compute_ast_diffs(&vec![
        ("a.ts".to_string(), "".to_string(), "".to_string()),
        ("b.py".to_string(), "".to_string(), "".to_string()),
    ]);
    match err {
        Err(EngineError::Diff(DiffError::UnsupportedExtension(e))) => assert_eq!(e, "py"),
        _ => panic!("b.py has no scanner"),
    }
    let direct = AstDiffEngine::new().compute_diff("c.ts", "", "");
    assert!(direct.unwrap().changes.is_empty());
}
