//! Records that the command-line tools report, and the settings of the
//! question-answering tool.
use vstd::prelude::*;
use crate::store::Store;

verus! {

pub struct ParseResultJSON {
    pub input_path: String,
    pub output_path: String,
    pub was_cached: bool,
}

pub struct ParseOutput {
    pub results: Vec<ParseResultJSON>,
}

pub struct AskOutput {
    pub query: String,
    pub response: String,
    pub files_searched: Vec<String>,
}

pub struct WorkspaceOutput {
    pub name: String,
    pub root_dir: String,
    pub total_documents: usize,
}

pub struct PruneOutput {
    pub files_removed: usize,
    pub files_remaining: usize,
}

pub struct ErrorOutput {
    pub error: String,
    pub error_type: String,
}

/// Which API the question-answering tool talks to.
#[derive(PartialEq, Eq, Structural)]
pub enum ApiMode {
    Chat,
    Responses,
}

impl Default for ApiMode {
    fn default() -> (r: ApiMode)
        ensures
            r == ApiMode::Responses,
    {
        ApiMode::Responses
    }
}

pub struct AskConfig {
    pub api_key: Option<String>,
    pub base_url: Option<String>,
    pub model: Option<String>,
    pub max_iterations: Option<usize>,
    pub api_mode: ApiMode,
}

pub const DEFAULT_MAX_ITERATIONS: usize = 20;

pub open spec fn default_model() -> Seq<char> {
    seq!['g', 'p', 't', '-', '4', 'o', '-', 'm', 'i', 'n', 'i']
}

impl AskConfig {
    /// The default settings, with the API key found in the environment.
    pub fn with_api_key(api_key: Option<String>) -> (r: AskConfig)
        ensures
            r.api_key == api_key,
            r.base_url is None,
            r.model matches Some(m) && m@ == default_model(),
            r.max_iterations == Some(DEFAULT_MAX_ITERATIONS),
            r.api_mode == ApiMode::Responses,
    {
        let model = String::from_str("gpt-4o-mini");
        proof {
            reveal_strlit("gpt-4o-mini");
            assert(model@ =~= default_model());
        }
        AskConfig {
            api_key,
            base_url: None,
            model: Some(model),
            max_iterations: Some(DEFAULT_MAX_ITERATIONS),
            api_mode: ApiMode::default(),
        }
    }
}

impl WorkspaceOutput {
    /// The status report of a workspace.
    pub fn describe(name: String, root_dir: String, store: &Store) -> (r: WorkspaceOutput)
        ensures
            r.name == name,
            r.root_dir == root_dir,
            r.total_documents == store.metas().len(),
    {
        WorkspaceOutput { name, root_dir, total_documents: store.count_documents() }
    }
}

} // verus!
