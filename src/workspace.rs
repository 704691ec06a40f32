//! Named workspaces: configuration and on-disk locations.
use vstd::prelude::*;

verus! {

pub struct WorkspaceConfig {
    pub name: String,
    pub root_dir: String,
    pub doc_top_k: usize,
    pub in_batch_size: usize,
    pub oversample_factor: usize,
}

pub const DEFAULT_DOC_TOP_K: usize = 250;

pub const DEFAULT_IN_BATCH_SIZE: usize = 5000;

pub const DEFAULT_OVERSAMPLE_FACTOR: usize = 3;

pub open spec fn default_name() -> Seq<char> {
    seq!['d', 'e', 'f', 'a', 'u', 'l', 't']
}

impl Default for WorkspaceConfig {
    fn default() -> (r: WorkspaceConfig)
        ensures
            r.name@ == default_name(),
            r.root_dir@.len() == 0,
            r.doc_top_k == DEFAULT_DOC_TOP_K,
            r.in_batch_size == DEFAULT_IN_BATCH_SIZE,
            r.oversample_factor == DEFAULT_OVERSAMPLE_FACTOR,
    {
        let name = String::from_str("default");
        proof {
            reveal_strlit("default");
            assert(name@ =~= default_name());
        }
        WorkspaceConfig {
            name,
            root_dir: String::new(),
            doc_top_k: DEFAULT_DOC_TOP_K,
            in_batch_size: DEFAULT_IN_BATCH_SIZE,
            oversample_factor: DEFAULT_OVERSAMPLE_FACTOR,
        }
    }
}

pub struct Workspace {
    pub config: WorkspaceConfig,
}

pub enum WorkspaceError {
    /// No workspace is selected for this process.
    NoActiveWorkspace,
}

impl WorkspaceError {
    pub fn message(&self) -> (r: String)
        ensures
            r@ == no_active_message(),
    {
        match self {
            WorkspaceError::NoActiveWorkspace => {
                let m = String::from_str("No active workspace. Run: workspace select <name>");
                proof {
                    reveal_strlit("No active workspace. Run: workspace select <name>");
                    assert(m@ =~= no_active_message());
                }
                m
            },
        }
    }
}

/// The message for a process that names no workspace.
pub open spec fn no_active_message() -> Seq<char> {
    "No active workspace. Run: workspace select <name>"@
}

/// `a` joined with `b` by one `/`: `b` alone where `a` is empty or `b` is absolute.
pub open spec fn join_path(a: Seq<char>, b: Seq<char>) -> Seq<char> {
    if a.len() == 0 || (b.len() > 0 && b[0] == '/') {
        b
    } else if a.last() == '/' {
        a + b
    } else {
        a + seq!['/'] + b
    }
}

pub fn join(a: &str, b: &str) -> (r: String)
    ensures
        r@ == join_path(a@, b@),
{
    let na = a.unicode_len();
    let nb = b.unicode_len();
    if na == 0 || (nb > 0 && b.get_char(0) == '/') {
        b.to_owned()
    } else if a.get_char(na - 1) == '/' {
        let mut r = a.to_owned();
        r.append(b);
        r
    } else {
        let mut r = a.to_owned();
        r.append("/");
        proof {
            reveal_strlit("/");
        }
        r.append(b);
        r
    }
}

pub open spec fn semtools_dir() -> Seq<char> {
    seq!['.', 's', 'e', 'm', 't', 'o', 'o', 'l', 's']
}

pub open spec fn workspaces_dir() -> Seq<char> {
    seq!['w', 'o', 'r', 'k', 's', 'p', 'a', 'c', 'e', 's']
}

pub open spec fn config_file() -> Seq<char> {
    seq!['c', 'o', 'n', 'f', 'i', 'g', '.', 'j', 's', 'o', 'n']
}

/// `<home>/.semtools/workspaces/<name>`.
pub open spec fn root_path_of(home: Seq<char>, name: Seq<char>) -> Seq<char> {
    join_path(join_path(join_path(home, semtools_dir()), workspaces_dir()), name)
}

/// Whether the process names no workspace (the variable is unset or empty).
pub open spec fn no_active(selected: Option<Seq<char>>) -> bool {
    selected is None || selected->0.len() == 0
}

impl Workspace {
    /// The directory of workspace `name` under the home directory `home`.
    pub fn root_path(home: &str, name: &str) -> (r: String)
        ensures
            r@ == root_path_of(home@, name@),
    {
        let a = join(home, ".semtools");
        proof {
            reveal_strlit(".semtools");
        }
        let b = join(a.as_str(), "workspaces");
        proof {
            reveal_strlit("workspaces");
        }
        join(b.as_str(), name)
    }

    /// The configuration file of workspace `name`.
    pub fn config_path_for(home: &str, name: &str) -> (r: String)
        ensures
            r@ == join_path(root_path_of(home@, name@), config_file()),
    {
        let root = Workspace::root_path(home, name);
        proof {
            reveal_strlit("config.json");
        }
        join(root.as_str(), "config.json")
    }

    /// The active workspace's name, from the value of the selecting variable.
    pub fn active(selected: Option<&str>) -> (r: Result<String, WorkspaceError>)
        ensures
            no_active(match selected {
                Some(s) => Some(s@),
                None => None,
            }) <==> r is Err,
            r matches Ok(n) ==> selected matches Some(s) && n@ == s@,
    {
        match selected {
            Some(s) => if s.unicode_len() == 0 {
                Err(WorkspaceError::NoActiveWorkspace)
            } else {
                Ok(s.to_owned())
            },
            None => Err(WorkspaceError::NoActiveWorkspace),
        }
    }

    /// The root directory of the active workspace.
    pub fn active_path(home: &str, selected: Option<&str>) -> (r: Result<String, WorkspaceError>)
        ensures
            no_active(match selected {
                Some(s) => Some(s@),
                None => None,
            }) <==> r is Err,
            r matches Ok(p) ==> selected matches Some(s) && p@ == root_path_of(home@, s@),
    {
        match Workspace::active(selected) {
            Ok(name) => Ok(Workspace::root_path(home, name.as_str())),
            Err(e) => Err(e),
        }
    }

    /// Opens the active workspace with the saved configuration, if one could
    /// be read, else with the defaults. An empty root directory becomes the
    /// workspace's own, and an empty or default name becomes the active name.
    pub fn open(home: &str, selected: Option<&str>, saved: Option<WorkspaceConfig>) -> (r: Result<
        Workspace,
        WorkspaceError,
    >)
        ensures
            no_active(match selected {
                Some(s) => Some(s@),
                None => None,
            }) <==> r is Err,
            r matches Ok(ws) ==> selected matches Some(s) && {
                &&& ws.config.root_dir@ == (match saved {
                    Some(c) => if c.root_dir@.len() == 0 {
                        root_path_of(home@, s@)
                    } else {
                        c.root_dir@
                    },
                    None => root_path_of(home@, s@),
                })
                &&& ws.config.name@ == (match saved {
                    Some(c) => if c.name@.len() == 0 || c.name@ == default_name() {
                        s@
                    } else {
                        c.name@
                    },
                    None => s@,
                })
                &&& ws.config.doc_top_k == (match saved {
                    Some(c) => c.doc_top_k,
                    None => DEFAULT_DOC_TOP_K,
                })
                &&& ws.config.in_batch_size == (match saved {
                    Some(c) => c.in_batch_size,
                    None => DEFAULT_IN_BATCH_SIZE,
                })
                &&& ws.config.oversample_factor == (match saved {
                    Some(c) => c.oversample_factor,
                    None => DEFAULT_OVERSAMPLE_FACTOR,
                })
            },
    {
        let active = match Workspace::active(selected) {
            Ok(n) => n,
            Err(e) => {
                return Err(e);
            },
        };
        let mut config = match saved {
            Some(c) => c,
            None => WorkspaceConfig::default(),
        };
        if config.root_dir.as_str().unicode_len() == 0 {
            config.root_dir = Workspace::root_path(home, active.as_str());
        }
        let dflt = String::from_str("default");
        proof {
            reveal_strlit("default");
        }
        proof {
            assert(dflt@ =~= default_name());
        }
        let is_default = config.name == dflt;
        if config.name.as_str().unicode_len() == 0 || is_default {
            config.name = active;
        }
        Ok(Workspace { config })
    }
}

} // verus!
