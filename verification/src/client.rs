//! What a client does: in which direction files go, and what is asked of the
//! far end.

use vstd::prelude::*;

use crate::flist::send::Preserve;
use crate::options::{
    opt_remote, remote_of, server_args_of, split_paths, Options, PathError, Remote, RemoteSpec,
};
use crate::text::{chars_of, find_char, first_index, string_of, text, texts};
use crate::transport::local::push_word;

verus! {

/// What a client does.
#[derive(Debug)]
pub enum ClientPlan {
    /// List the files that are named.
    List,
    /// Replay a batch file into a destination.
    ReadBatch { batch: String, dest: String },
    /// Send local files to a remote host.
    Push { remote: RemoteSpec, sources: Vec<String> },
    /// Receive files from a remote host.
    Pull { remote: RemoteSpec, dest: String },
    /// Copy files on this machine.
    Local { sources: Vec<String>, dest: String },
}

/// The model of what a client does.
pub enum Plan {
    List,
    ReadBatch { batch: Seq<char>, dest: Seq<char> },
    Push { remote: Remote, sources: Seq<Seq<char>> },
    Pull { remote: Remote, dest: Seq<char> },
    Local { sources: Seq<Seq<char>>, dest: Seq<char> },
}

impl View for ClientPlan {
    type V = Plan;

    open spec fn view(&self) -> Plan {
        match self {
            ClientPlan::List => Plan::List,
            ClientPlan::ReadBatch { batch, dest } => Plan::ReadBatch { batch: batch@, dest: dest@ },
            ClientPlan::Push { remote, sources } => Plan::Push {
                remote: remote@,
                sources: texts(sources@),
            },
            ClientPlan::Pull { remote, dest } => Plan::Pull { remote: remote@, dest: dest@ },
            ClientPlan::Local { sources, dest } => Plan::Local {
                sources: texts(sources@),
                dest: dest@,
            },
        }
    }
}

/// The first remote host that some paths name.
pub open spec fn first_remote(paths: Seq<Seq<char>>) -> Option<Remote>
    decreases paths.len(),
{
    if paths.len() == 0 {
        None
    } else {
        match remote_of(paths[0]) {
            Some(r) => Some(r),
            None => first_remote(paths.skip(1)),
        }
    }
}

/// What a client does with some options.  A remote destination is pushed to;
/// otherwise the first remote source is pulled from; otherwise files are
/// copied on this machine.
pub open spec fn plan_of(o: Options) -> Result<Plan, PathError> {
    let args = texts(o.args@);
    if o.list_only && args.len() > 0 && first_remote(args) is None {
        Ok(Plan::List)
    } else {
        match split_paths(args, o.read_batch is Some) {
            None => Err(PathError::TooFewPaths(args.len() as usize)),
            Some((sources, dest)) => match o.read_batch {
                Some(b) => Ok(Plan::ReadBatch { batch: b@, dest }),
                None => match remote_of(dest) {
                    Some(remote) => Ok(Plan::Push { remote, sources }),
                    None => match first_remote(sources) {
                        Some(remote) => Ok(Plan::Pull { remote, dest }),
                        None => Ok(Plan::Local { sources, dest }),
                    },
                },
            },
        }
    }
}

fn find_remote(paths: &Vec<String>) -> (res: Option<RemoteSpec>)
    ensures
        opt_remote(res) == first_remote(texts(paths@)),
{
    let ghost all = texts(paths@);
    let mut i: usize = 0;
    assert(all.skip(0) =~= all);
    while i < paths.len()
        invariant
            i <= paths@.len(),
            all == texts(paths@),
            first_remote(all.skip(i as int)) == first_remote(all),
        decreases paths@.len() - i,
    {
        let ghost rest = all.skip(i as int);
        assert(rest[0] == paths@[i as int]@);
        assert(rest.skip(1) =~= all.skip(i + 1));
        match Options::parse_remote_src(paths[i].as_str()) {
            Some(r) => return Some(r),
            None => {},
        }
        i = i + 1;
    }
    None
}

/// Decides what a client does.
pub fn plan_client(opts: &Options) -> (res: Result<ClientPlan, PathError>)
    ensures
        match res {
            Ok(p) => plan_of(*opts) == Ok::<Plan, PathError>(p@),
            Err(e) => plan_of(*opts) == Err::<Plan, PathError>(e),
        },
{
    assert(texts(opts.args@).len() == opts.args@.len());
    if opts.list_only && opts.args.len() > 0 {
        match find_remote(&opts.args) {
            None => return Ok(ClientPlan::List),
            Some(_) => {},
        }
    }
    let (sources, dest) = match opts.parse_paths() {
        Err(e) => return Err(e),
        Ok(p) => p,
    };
    match &opts.read_batch {
        Some(b) => return Ok(ClientPlan::ReadBatch { batch: b.clone(), dest }),
        None => {},
    }
    match Options::parse_remote_dst(dest.as_str()) {
        Some(remote) => return Ok(ClientPlan::Push { remote, sources }),
        None => {},
    }
    match find_remote(&sources) {
        Some(remote) => Ok(ClientPlan::Pull { remote, dest }),
        None => Ok(ClientPlan::Local { sources, dest }),
    }
}

/// The options for the far end: it sends where this side does not.
pub open spec fn far_args(o: Options, is_push: bool) -> Seq<Seq<char>> {
    if is_push {
        server_args_of(o)
    } else {
        server_args_of(o).push("--sender"@)
    }
}

/// The options for the far end.
pub fn far_end_args(opts: &Options, is_push: bool) -> (args: Vec<String>)
    ensures
        texts(args@) == far_args(*opts, is_push),
{
    let mut args: Vec<String> = opts.server_args();
    if !is_push {
        push_word(&mut args, "--sender");
    }
    args
}

/// The module that a path on a daemon starts with.
pub open spec fn module_part(path: Seq<char>) -> Seq<char> {
    match first_index(path, '/') {
        Some(i) => path.take(i),
        None => path,
    }
}

/// The path behind the module.
pub open spec fn module_rest(path: Seq<char>) -> Seq<char> {
    match first_index(path, '/') {
        Some(i) => path.skip(i + 1),
        None => Seq::empty(),
    }
}

/// The arguments for a daemon: the options, a dot, and the path from the
/// module on.
pub open spec fn daemon_args(o: Options, path: Seq<char>, is_push: bool) -> Seq<Seq<char>> {
    far_args(o, is_push).push("."@).push(module_part(path) + "/"@ + module_rest(path))
}

/// What is asked of a daemon for a path: the module, and the arguments;
/// nothing where the path names no module.
pub fn daemon_request(opts: &Options, path: &str, is_push: bool) -> (res: Option<
    (String, Vec<String>),
>)
    ensures
        match res {
            Some((module, args)) => module@ == module_part(path@) && module@.len() > 0 && texts(
                args@,
            ) == daemon_args(*opts, path@, is_push),
            None => module_part(path@).len() == 0,
        },
{
    let chars: Vec<char> = chars_of(path);
    let (module, rest): (String, String) = match find_char(chars.as_slice(), '/') {
        Some(i) => {
            let (a, b) = chars.as_slice().split_at(i);
            let b: &[char] = b.split_at(1).1;
            assert(a@ =~= path@.take(i as int));
            assert(b@ =~= path@.skip(i + 1));
            (string_of(a), string_of(b))
        },
        None => (text(path), String::new()),
    };
    assert(module@ == module_part(path@));
    assert(rest@ =~= module_rest(path@));
    if module.as_str().is_empty() {
        return None;
    }
    let mut args: Vec<String> = far_end_args(opts, is_push);
    push_word(&mut args, ".");
    let mut arg: String = text(module.as_str());
    arg.push_str("/");
    arg.push_str(rest.as_str());
    assert(arg@ =~= module_part(path@) + "/"@ + module_rest(path@));
    push_word(&mut args, arg.as_str());
    Some((module, args))
}

/// Which attributes the file list of a client carries.
pub open spec fn client_carries(o: Options) -> Preserve {
    Preserve {
        uid: o.owner || o.archive,
        gid: o.group || o.archive,
        times: o.times || o.archive,
        devices: false,
    }
}

/// Whether a client deletes what the other side does not have.
pub open spec fn client_deletes(o: Options) -> bool {
    o.delete || o.delete_before || o.delete_during || o.delete_after
}

/// Which attributes the file list of a client carries.
pub fn client_preserve(opts: &Options) -> (p: Preserve)
    ensures
        p == client_carries(*opts),
        p == (Preserve {
            uid: opts.owner || opts.archive,
            gid: opts.group || opts.archive,
            times: opts.times || opts.archive,
            devices: false,
        }),
{
    Preserve {
        uid: opts.owner || opts.archive,
        gid: opts.group || opts.archive,
        times: opts.times || opts.archive,
        devices: false,
    }
}

/// Whether what the other side does not have is deleted.
pub fn wants_delete(opts: &Options) -> (b: bool)
    ensures
        b == client_deletes(*opts),
        b == (opts.delete || opts.delete_before || opts.delete_during || opts.delete_after),
{
    opts.delete || opts.delete_before || opts.delete_during || opts.delete_after
}

} // verus!
