//! Where a newly requested document goes: this process, the process that
//! owns its project, or a new process. Also the per-process state the
//! decision reads: the root this process owns and the file waiting for
//! its window.
use vstd::prelude::*;
use vstd::string::StrSliceExecFns;

verus! {

pub open spec fn opt_view(o: Option<String>) -> Option<Seq<char>> {
    match o {
        Some(s) => Some(s@),
        None => None,
    }
}

/// Two roots are the same when both are present and equal, or both absent.
pub open spec fn same_root_spec(new_root: Option<Seq<char>>, current_root: Option<Seq<char>>) -> bool {
    match (new_root, current_root) {
        (Some(n), Some(c)) => n == c,
        (None, None) => true,
        _ => false,
    }
}

/// Whether a document of root `new_root` belongs with this process's root.
pub fn same_root(new_root: &Option<String>, current_root: &Option<String>) -> (r: bool)
    ensures
        r == same_root_spec(opt_view(*new_root), opt_view(*current_root)),
{
    match (new_root, current_root) {
        (Some(n), Some(c)) => *n == *c,
        (None, None) => true,
        _ => false,
    }
}

/// The first decision on a request, before the registry is asked.
#[derive(PartialEq, Eq, Structural, Clone, Copy, Debug)]
pub enum OpenPlan {
    /// Open it here.
    Local,
    /// Ask the registry who owns its root.
    AskOwner,
    /// Start a new process for it.
    Spawn,
}

/// Same root, or no root owned here yet: open here. Else a document with a
/// root asks the registry, and one without starts a process of its own.
pub open spec fn plan_spec(new_root: Option<Seq<char>>, current_root: Option<Seq<char>>) -> OpenPlan {
    if same_root_spec(new_root, current_root) || current_root is None {
        OpenPlan::Local
    } else if new_root is Some {
        OpenPlan::AskOwner
    } else {
        OpenPlan::Spawn
    }
}

/// Decides what to do with a request, before any registry lookup.
pub fn plan_open(new_root: &Option<String>, current_root: &Option<String>) -> (r: OpenPlan)
    ensures
        r == plan_spec(opt_view(*new_root), opt_view(*current_root)),
{
    if same_root(new_root, current_root) || current_root.is_none() {
        OpenPlan::Local
    } else if new_root.is_some() {
        OpenPlan::AskOwner
    } else {
        OpenPlan::Spawn
    }
}

/// What is done with a requested document.
pub enum OpenAction {
    /// Hand the path to this process's window, and bring it forward.
    DeliverLocally(String),
    /// Append the path to the queue of the owning process, and bring that
    /// process forward if the append succeeded.
    QueueToOwner { pid: u32, path: String },
    /// Start a new process with the path as its argument.
    SpawnNew(String),
}

/// The kind of an action, with the process it targets.
#[derive(PartialEq, Eq, Structural, Clone, Copy, Debug)]
pub enum ActionKind {
    Deliver,
    Queue(u32),
    Spawn,
}

impl OpenAction {
    pub open spec fn kind(self) -> ActionKind {
        match self {
            OpenAction::DeliverLocally(_) => ActionKind::Deliver,
            OpenAction::QueueToOwner { pid, .. } => ActionKind::Queue(pid),
            OpenAction::SpawnNew(_) => ActionKind::Spawn,
        }
    }

    /// The path the action carries.
    pub open spec fn path_view(self) -> Seq<char> {
        match self {
            OpenAction::DeliverLocally(p) => p@,
            OpenAction::QueueToOwner { path, .. } => path@,
            OpenAction::SpawnNew(p) => p@,
        }
    }
}

/// The action for a request, given the live owner other than this process
/// that the registry gave for the new root (consulted only when the plan
/// asks for it).
pub open spec fn route_spec(new_root: Option<Seq<char>>, current_root: Option<Seq<char>>, owner: Option<u32>) -> ActionKind {
    match plan_spec(new_root, current_root) {
        OpenPlan::Local => ActionKind::Deliver,
        OpenPlan::Spawn => ActionKind::Spawn,
        OpenPlan::AskOwner => match owner {
            Some(p) => ActionKind::Queue(p),
            None => ActionKind::Spawn,
        },
    }
}

/// Decides where `path`, whose project root is `new_root`, is opened, when
/// this process owns `current_root` and the registry names `owner` as the
/// live owner of `new_root`.
pub fn route_open(
    path: String,
    new_root: &Option<String>,
    current_root: &Option<String>,
    owner: Option<u32>,
) -> (r: OpenAction)
    ensures
        r.kind() == route_spec(opt_view(*new_root), opt_view(*current_root), owner),
        r.path_view() == path@,
{
    match plan_open(new_root, current_root) {
        OpenPlan::Local => OpenAction::DeliverLocally(path),
        OpenPlan::Spawn => OpenAction::SpawnNew(path),
        OpenPlan::AskOwner => match owner {
            Some(pid) => OpenAction::QueueToOwner { pid, path },
            None => OpenAction::SpawnNew(path),
        },
    }
}

/// The process to bring forward after an append to the queue of `owner`:
/// that owner, only when the append succeeded.
pub fn activation_after_queue(queued: bool, owner: u32) -> (r: Option<u32>)
    ensures
        r == (if queued {
            Some(owner)
        } else {
            None
        }),
{
    if queued {
        Some(owner)
    } else {
        None
    }
}

/// A document of the root this process owns is opened here.
pub proof fn law_same_root_reused(root: Seq<char>, owner: Option<u32>)
    ensures
        route_spec(Some(root), Some(root), owner) == ActionKind::Deliver,
{
}

/// A document of another project whose root has no live owner gets a new
/// process; nothing is queued.
pub proof fn law_unowned_project_spawns(new_root: Seq<char>, current_root: Seq<char>)
    requires
        new_root != current_root,
    ensures
        route_spec(Some(new_root), Some(current_root), None) == ActionKind::Spawn,
{
}

/// A document of another project whose root has a live owner is queued to
/// that owner; no process is started.
pub proof fn law_owned_project_queued(new_root: Seq<char>, current_root: Seq<char>, owner: u32)
    requires
        new_root != current_root,
    ensures
        route_spec(Some(new_root), Some(current_root), Some(owner)) == ActionKind::Queue(owner),
{
}

/// A process with no root takes any document without a root, whatever the
/// registry says.
pub proof fn law_rootless_reused(owner: Option<u32>)
    ensures
        route_spec(None, None, owner) == ActionKind::Deliver,
{
}

/// The first of `args` that is no option (does not start with `-`) and,
/// by `names_file`, names a file.
pub open spec fn first_file_arg(args: Seq<Seq<char>>, names_file: Seq<bool>) -> Option<Seq<char>>
    decreases args.len(),
{
    if args.len() == 0 || names_file.len() == 0 {
        None
    } else if !(args[0].len() > 0 && args[0][0] == '-') && names_file[0] {
        Some(args[0])
    } else {
        first_file_arg(args.drop_first(), names_file.drop_first())
    }
}

/// The document a process was launched with: the `file` argument that
/// the command line parser gave, unless empty; else the first raw
/// argument that is no option and names a file.
pub open spec fn launch_file_spec(cli_file: Option<Seq<char>>, args: Seq<Seq<char>>, names_file: Seq<bool>) -> Option<Seq<char>> {
    match cli_file {
        Some(f) if f.len() > 0 => Some(f),
        _ => first_file_arg(args, names_file),
    }
}

/// Picks the document to open at launch; `names_file[i]` tells whether
/// `args[i]` names a file.
pub fn launch_file(cli_file: Option<String>, args: &Vec<String>, names_file: &Vec<bool>) -> (r: Option<String>)
    requires
        names_file@.len() == args@.len(),
    ensures
        opt_view(r) == launch_file_spec(opt_view(cli_file), args@.map_values(|a: String| a@), names_file@),
{
    let ghost av = args@.map_values(|a: String| a@);
    let ghost wanted = launch_file_spec(opt_view(cli_file), av, names_file@);
    match cli_file {
        Some(f) => {
            if f.as_str().unicode_len() > 0 {
                return Some(f);
            }
        },
        None => {},
    }
    let mut i: usize = 0;
    proof {
        assert(wanted == first_file_arg(av, names_file@));
        assert(av.skip(0) =~= av);
        assert(names_file@.skip(0) =~= names_file@);
    }
    while i < args.len()
        invariant
            i <= args@.len() == names_file@.len(),
            av == args@.map_values(|a: String| a@),
            wanted == launch_file_spec(opt_view(cli_file), av, names_file@),
            wanted == first_file_arg(av, names_file@),
            first_file_arg(av, names_file@) == first_file_arg(av.skip(i as int), names_file@.skip(i as int)),
        decreases args@.len() - i,
    {
        let a = args[i].as_str();
        let option = a.unicode_len() > 0 && a.get_char(0) == '-';
        proof {
            assert(av.skip(i as int)[0] == args@[i as int]@);
            assert(names_file@.skip(i as int)[0] == names_file@[i as int]);
            assert(av.skip(i as int).drop_first() =~= av.skip(i + 1));
            assert(names_file@.skip(i as int).drop_first() =~= names_file@.skip(i + 1));
        }
        if !option && names_file[i] {
            return Some(args[i].clone());
        }
        i = i + 1;
    }
    None
}

/// The file waiting for this process's window, if any.
pub struct OpenedFile(pub Option<String>);

impl OpenedFile {
    /// Nothing waiting.
    pub fn new() -> (r: OpenedFile)
        ensures
            r.0 is None,
    {
        OpenedFile(None)
    }

    /// Leaves `path` for the window, replacing what waited before.
    pub fn set(&mut self, path: String)
        ensures
            final(self).0 == Some(path),
    {
        self.0 = Some(path);
    }

    /// Hands out the waiting file, once.
    pub fn take(&mut self) -> (r: Option<String>)
        ensures
            r == old(self).0,
            final(self).0 is None,
    {
        let r = self.0.take();
        r
    }
}

/// The file for the window's pull: the waiting one if there is one, else
/// the first of those drained from this process's queue.
pub fn get_opened_file(state: &mut OpenedFile, drained: Vec<String>) -> (r: Option<String>)
    ensures
        final(state).0 is None,
        old(state).0 is Some ==> r == old(state).0,
        old(state).0 is None ==> (if drained@.len() > 0 {
            r == Some(drained@[0])
        } else {
            r is None
        }),
{
    match state.take() {
        Some(f) => Some(f),
        None => {
            if drained.len() > 0 {
                let mut d = drained;
                Some(d.remove(0))
            } else {
                None
            }
        },
    }
}

/// The root this process owns, if any.
pub struct CurrentRoot(pub Option<String>);

impl CurrentRoot {
    /// No root owned.
    pub fn new() -> (r: CurrentRoot)
        ensures
            r.0 is None,
    {
        CurrentRoot(None)
    }

    /// Takes `root` as the owned root and returns the one owned before,
    /// which is to be unregistered before `root` is registered.
    pub fn set_current_root(&mut self, root: String) -> (r: Option<String>)
        ensures
            r == old(self).0,
            final(self).0 == Some(root),
    {
        let prev = self.0.take();
        self.0 = Some(root);
        prev
    }

    /// The owned root.
    pub fn get_current_root(&self) -> (r: Option<String>)
        ensures
            r == self.0,
    {
        self.0.clone()
    }
}

} // verus!
