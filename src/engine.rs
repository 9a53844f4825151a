//! The orchestrator that callers hold: one session at a time, the tracker
//! of its files, the diff engine and the last dependency graph built.
//!
//! Identifiers, clocks and persistence stay with the caller, which hands the
//! engine plain values.
use vstd::prelude::*;
use crate::ast::{AstDiff, AstDiffEngine, DiffError, change_views, diff_spec, extension, supported_ext};
use crate::dep_graph::{
    DependencyGraphBuilder, ImpactAnalysis, edge_view, edges_built, impact_set, nodes_from, risk_of,
};
use crate::scanner::{MAX_SCAN_LEN, is_scan_of};
use crate::text::strs;
use crate::tracker::{DiffTracker, Entries, entries, track_all};

verus! {

/// One editing session.
#[derive(Clone, Debug)]
pub struct Session {
    pub id: String,
    /// When the session started, as RFC 3339 text.
    pub start_time: String,
    pub workspace_path: String,
}

/// What a caller sees of the current session.
#[derive(Clone, Debug)]
pub struct SessionStatus {
    pub is_active: bool,
    pub session_id: Option<String>,
    pub start_time: Option<String>,
}

#[derive(Debug)]
pub enum EngineError {
    /// A session was started while another was active.
    SessionAlreadyActive,
    /// A session was stopped while none was active.
    NoActiveSession,
    /// Impact was asked for before any dependency graph was built.
    GraphNotBuilt,
    /// A file of a diff request has no scanner.
    Diff(DiffError),
}

pub struct Engine {
    session: Option<Session>,
    diff_tracker: Option<DiffTracker>,
    shadow_dir: Option<String>,
    ast_engine: AstDiffEngine,
    dep_graph: Option<DependencyGraphBuilder>,
}

pub type FileChange = (String, String, String);

/// The index of the first of `fs[i..]` whose path has no scanner, or -1.
pub open spec fn first_unsupported(fs: Seq<FileChange>, i: int) -> int
    decreases fs.len() - i,
{
    if i < 0 || i >= fs.len() {
        -1
    } else if !supported_ext(extension(fs[i].0@)) {
        i
    } else {
        first_unsupported(fs, i + 1)
    }
}

pub open spec fn opt_text(o: Option<String>) -> Option<Seq<char>> {
    match o {
        Some(t) => Some(t@),
        None => None,
    }
}

/// `d` is the structural diff of the change `f`.
pub open spec fn is_diff_of(d: AstDiff, f: FileChange) -> bool {
    &&& d.file_path@ == f.0@
    &&& exists|a: crate::ast::AstNode, b: crate::ast::AstNode|
        is_scan_of(f.1@, a) && is_scan_of(f.2@, b) && change_views(d.changes@) == diff_spec(a, b)
}

impl Engine {
    pub closed spec fn wf(&self) -> bool {
        self.ast_engine.wf()
    }

    /// The current session's id, if one is active.
    pub closed spec fn session_id(&self) -> Option<Seq<char>> {
        match self.session {
            Some(s) => Some(s.id@),
            None => None,
        }
    }

    /// The current session's start time, if one is active.
    pub closed spec fn session_start(&self) -> Option<Seq<char>> {
        match self.session {
            Some(s) => Some(s.start_time@),
            None => None,
        }
    }

    /// The files the tracker holds, once `initialize` has made it.
    pub closed spec fn watched(&self) -> Option<Entries> {
        match self.diff_tracker {
            Some(t) => Some(t.watched()),
            None => None,
        }
    }

    /// The graph builder of the last build, if any.
    pub closed spec fn graph(&self) -> Option<DependencyGraphBuilder> {
        self.dep_graph
    }

    /// Whether `initialize` has given the engine a state directory.
    pub closed spec fn initialized(&self) -> bool {
        self.diff_tracker is Some
    }

    /// The number of diffs the tracker holds; zero before `initialize`.
    pub closed spec fn diffs_recorded(&self) -> nat {
        match self.diff_tracker {
            Some(t) => t.diff_len(),
            None => 0,
        }
    }

    pub fn new() -> (r: Engine)
        ensures
            r.wf(),
            r.session_id() is None,
            r.graph() is None,
            !r.initialized(),
    {
        Engine {
            session: None,
            diff_tracker: None,
            shadow_dir: None,
            ast_engine: AstDiffEngine::new(),
            dep_graph: None,
        }
    }

    /// Gives the engine its state directory and a fresh tracker there.
    pub fn initialize(&mut self, shadow_dir: &str)
        requires
            old(self).wf(),
        ensures
            final(self).wf(),
            final(self).initialized(),
            final(self).diffs_recorded() == 0,
            final(self).session_id() == old(self).session_id(),
            final(self).graph() == old(self).graph(),
    {
        self.shadow_dir = Some(shadow_dir.to_string());
        self.diff_tracker = Some(DiffTracker::new(shadow_dir));
    }

    /// Starts `session`, tracking the workspace `files` given as (path, text)
    /// pairs; fails where a session is already active.
    pub fn start_session(&mut self, session: Session, files: &Vec<(String, String)>) -> (r: Result<
        String,
        EngineError,
    >)
        requires
            old(self).wf(),
        ensures
            final(self).wf(),
            final(self).graph() == old(self).graph(),
            old(self).session_id() is Some ==> (r matches Err(EngineError::SessionAlreadyActive)
                && final(self).session_id() == old(self).session_id()),
            old(self).session_id() is Some ==> final(self).watched() == old(self).watched(),
            old(self).session_id() is None ==> (r matches Ok(id) && id@ == session.id@
                && final(self).session_id() == Some(session.id@) && final(self).session_start()
                == Some(session.start_time@)),
            old(self).session_id() is None ==> final(self).watched() == match old(self).watched() {
                Some(m) => Some(track_all(m, entries(files@), files@.len() as int)),
                None => None,
            },
    {
        if self.session.is_some() {
            return Err(EngineError::SessionAlreadyActive);
        }
        let session_id = session.id.clone();
        self.session = Some(session);
        if let Some(diff_tracker) = &mut self.diff_tracker {
            diff_tracker.start_tracking(files);
        }
        Ok(session_id)
    }

    /// Ends the active session, forgetting its tracked files and diffs;
    /// fails where no session is active.
    pub fn stop_session(&mut self) -> (r: Result<(), EngineError>)
        requires
            old(self).wf(),
        ensures
            final(self).wf(),
            final(self).graph() == old(self).graph(),
            final(self).session_id() is None,
            r is Ok ==> final(self).diffs_recorded() == 0,
            r is Ok ==> final(self).watched() == match old(self).watched() {
                Some(m) => Some(Seq::<(Seq<char>, Seq<char>)>::empty()),
                None => None,
            },
            r is Err ==> final(self).watched() == old(self).watched(),
            old(self).session_id() is None <==> r matches Err(EngineError::NoActiveSession),
            r is Err ==> r matches Err(EngineError::NoActiveSession),
    {
        if self.session.is_none() {
            return Err(EngineError::NoActiveSession);
        }
        if let Some(diff_tracker) = &mut self.diff_tracker {
            diff_tracker.stop_tracking();
            diff_tracker.clear_diffs();
        }
        self.session = None;
        Ok(())
    }

    /// The status of the session held in memory.
    pub fn get_status(&self) -> (r: SessionStatus)
        ensures
            r.is_active == self.session_id() is Some,
            match self.session_id() {
                Some(id) => r.session_id matches Some(s) && s@ == id && opt_text(r.start_time)
                    == self.session_start(),
                None => r.session_id is None && r.start_time is None,
            },
    {
        match &self.session {
            Some(session) => SessionStatus {
                is_active: true,
                session_id: Some(session.id.clone()),
                start_time: Some(session.start_time.clone()),
            },
            None => SessionStatus { is_active: false, session_id: None, start_time: None },
        }
    }

    /// The number of diffs recorded by the tracker; zero before `initialize`.
    pub fn get_diff_count(&self) -> (r: u32)
        ensures
            r == self.diffs_recorded() as u32,
    {
        match &self.diff_tracker {
            Some(diff_tracker) => diff_tracker.get_diff_count(),
            None => 0,
        }
    }

    /// The structural diffs of a batch of (path, old text, new text) changes,
    /// in order; fails on the first path that has no scanner.
    pub fn compute_ast_diffs(&self, file_changes: &Vec<FileChange>) -> (r: Result<
        Vec<AstDiff>,
        EngineError,
    >)
        requires
            self.wf(),
            forall|i: int|
                0 <= i < file_changes@.len() ==> (#[trigger] file_changes@[i]).1@.len() <= MAX_SCAN_LEN
                    && file_changes@[i].2@.len() <= MAX_SCAN_LEN,
        ensures
            r is Ok <==> first_unsupported(file_changes@, 0) < 0,
            r matches Err(e) ==> e matches EngineError::Diff(DiffError::UnsupportedExtension(x))
                && x@ == extension(file_changes@[first_unsupported(file_changes@, 0)].0@),
            r matches Ok(ds) ==> ds@.len() == file_changes@.len() && forall|i: int|
                0 <= i < ds@.len() ==> is_diff_of(#[trigger] ds@[i], file_changes@[i]),
    {
        let mut diffs: Vec<AstDiff> = Vec::new();
        let mut i: usize = 0;
        while i < file_changes.len()
            invariant
                self.wf(),
                forall|j: int|
                    0 <= j < file_changes@.len() ==> (#[trigger] file_changes@[j]).1@.len()
                        <= MAX_SCAN_LEN && file_changes@[j].2@.len() <= MAX_SCAN_LEN,
                i <= file_changes@.len(),
                first_unsupported(file_changes@, 0) == first_unsupported(file_changes@, i as int),
                diffs@.len() == i,
                forall|j: int| 0 <= j < i ==> is_diff_of(#[trigger] diffs@[j], file_changes@[j]),
            decreases file_changes@.len() - i,
        {
            let (file_path, old_content, new_content) = &file_changes[i];
            assert(file_changes@[i as int].1@.len() <= MAX_SCAN_LEN);
            match self.ast_engine.compute_diff(file_path.as_str(), old_content.as_str(), new_content.as_str()) {
                Ok(diff) => {
                    diffs.push(diff);
                },
                Err(e) => {
                    return Err(EngineError::Diff(e));
                },
            }
            i = i + 1;
        }
        Ok(diffs)
    }

    /// Builds a new dependency graph from the workspace `files`, given as
    /// (relative path, text) pairs, replacing the previous one.
    pub fn build_dependency_graph(&mut self, workspace_root: &str, files: &Vec<(String, String)>)
        requires
            old(self).wf(),
        ensures
            final(self).wf(),
            final(self).session_id() == old(self).session_id(),
            final(self).graph() is Some,
            final(self).graph()->0.root_of() == workspace_root@,
            nodes_from(final(self).graph()->0.graph_of(), files@, files@.len() as int),
            edges_built(final(self).graph()->0.graph_of()),
    {
        let mut builder = DependencyGraphBuilder::new(workspace_root);
        builder.build_graph(files);
        self.dep_graph = Some(builder);
    }

    /// The impact of changing `changed_files` on the last graph built; fails
    /// where no graph has been built yet.
    pub fn analyze_impact(&self, changed_files: &[String]) -> (r: Result<ImpactAnalysis, EngineError>)
        ensures
            self.graph() is None <==> r matches Err(EngineError::GraphNotBuilt),
            r is Err ==> r matches Err(EngineError::GraphNotBuilt),
            r matches Ok(a) ==> {
                let g = self.graph()->0.graph_of();
                &&& strs(a.changed_files@) == strs(changed_files@)
                &&& strs(a.impacted_files@).no_duplicates()
                &&& strs(a.impacted_files@).to_set() == impact_set(edge_view(g), strs(changed_files@))
                &&& a.risk_level == risk_of(changed_files@.len() + a.impacted_files@.len() as int)
            },
    {
        match &self.dep_graph {
            Some(dep_graph) => Ok(dep_graph.analyze_impact(changed_files)),
            None => Err(EngineError::GraphNotBuilt),
        }
    }
}

} // verus!
