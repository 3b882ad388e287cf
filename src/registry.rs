//! The ownership registry and the per-process inbound queues: the text of
//! their records, the decision taken on a recorded owner, and an in-memory
//! store that follows the same rules as the shared one.
use crate::text::{
    decimal, lemma_decimal_reads_back, lemma_non_empty_keeps, lemma_scan_append,
    lemma_scan_ended_line, lines_of, lower_hex, non_empty, parse_u32, parse_u32_spec, radix_text,
    scan_lines, split_lines, strip_cr, unsigned_digits, views,
};
use std::collections::hash_map::DefaultHasher;
use std::hash::Hasher;
use vstd::std_specs::hash::DefaultHasherAdditionalSpecFns;
use vstd::string::{StringExecFns, StringSliceAdditionalSpecFns};
use std::collections::HashMap;
use vstd::prelude::*;
use vstd::std_specs::hash::group_hash_axioms;

verus! {

broadcast use group_hash_axioms;

/// The text of the record by which `pid` owns `root`: the pid on the first
/// line, the root on the second.
pub open spec fn record_text_spec(pid: u32, root: Seq<char>) -> Seq<char> {
    radix_text(pid as nat, 10) + seq!['\n'] + root + seq!['\n']
}

/// Writes the record by which `pid` owns `root`.
pub fn record_text(pid: u32, root: &str) -> (r: String)
    ensures
        r@ == record_text_spec(pid, root@),
{
    proof {
        reveal_strlit("\n");
    }
    let r = decimal(pid).concat("\n").concat(root).concat("\n");
    proof {
        assert(r@ =~= record_text_spec(pid, root@));
    }
    r
}

/// The line that appends `path` to a queue.
pub open spec fn queue_entry_spec(path: Seq<char>) -> Seq<char> {
    path + seq!['\n']
}

/// Writes the line that appends `path` to a queue.
pub fn queue_entry(path: &str) -> (r: String)
    ensures
        r@ == queue_entry_spec(path@),
{
    proof {
        reveal_strlit("\n");
    }
    let r = String::from_str(path).concat("\n");
    proof {
        assert(r@ =~= queue_entry_spec(path@));
    }
    r
}

/// The key under which the record of `root` is kept: the default hasher
/// fed the root's bytes and then the byte `0xff`, as `str` hashes itself.
pub open spec fn root_key(root: &str) -> u64 {
    DefaultHasher::spec_finish(seq![root.spec_bytes(), seq![0xffu8]])
}

/// The name of the record file of `root`.
pub open spec fn lock_name_spec(root: &str) -> Seq<char> {
    radix_text(root_key(root) as nat, 16) + seq!['.', 'l', 'o', 'c', 'k']
}

/// The name of the file that holds the record of `root`.
pub fn lock_file_for_root(root: &str) -> (r: String)
    ensures
        r@ == lock_name_spec(root),
{
    let mut hasher = DefaultHasher::new();
    hasher.write(root.as_bytes());
    let end: Vec<u8> = vec![0xffu8];
    proof {
        assert(end@ =~= seq![0xffu8]);
    }
    hasher.write(end.as_slice());
    let key = hasher.finish();
    proof {
        reveal_strlit(".lock");
        assert(hasher@ =~= seq![root.spec_bytes(), seq![0xffu8]]);
    }
    let r = lower_hex(key).concat(".lock");
    proof {
        assert(r@ =~= lock_name_spec(root));
    }
    r
}

/// The name of the queue file of `pid`.
pub open spec fn queue_name_spec(pid: u32) -> Seq<char> {
    radix_text(pid as nat, 10) + seq!['.', 'q', 'u', 'e', 'u', 'e']
}

/// The name of the file that holds the queue of `pid`.
pub fn queue_file_for_pid(pid: u32) -> (r: String)
    ensures
        r@ == queue_name_spec(pid),
{
    proof {
        reveal_strlit(".queue");
    }
    let r = decimal(pid).concat(".queue");
    proof {
        assert(r@ =~= queue_name_spec(pid));
    }
    r
}

/// The owner written in a registry record: its first line read as a pid.
pub open spec fn record_owner_spec(contents: Seq<char>) -> Option<u32> {
    let ls = lines_of(contents);
    if ls.len() == 0 {
        None
    } else {
        parse_u32_spec(ls[0])
    }
}

/// The owner that a registry record names, if its first line is a pid.
pub fn record_owner(contents: &str) -> (r: Option<u32>)
    ensures
        r == record_owner_spec(contents@),
{
    let ls = split_lines(contents);
    if ls.len() == 0 {
        None
    } else {
        proof {
            assert(views(ls@)[0] == ls@[0]@);
        }
        parse_u32(ls[0].as_str())
    }
}

/// Whether the record `contents` names `pid` as its owner: the one case in
/// which `pid` may delete it.
pub fn owned_by(contents: &str, pid: u32) -> (r: bool)
    ensures
        r == (record_owner_spec(contents@) == Some(pid)),
{
    match record_owner(contents) {
        Some(owner) => owner == pid,
        None => false,
    }
}

/// The files waiting in a queue whose text is `contents`: its non-empty
/// lines, in the order they were appended.
pub open spec fn queued_files_spec(contents: Seq<char>) -> Seq<Seq<char>> {
    non_empty(lines_of(contents))
}

/// Reads the entries of a queue file.
pub fn queued_files(contents: &str) -> (r: Vec<String>)
    ensures
        views(r@) == queued_files_spec(contents@),
{
    let ls = split_lines(contents);
    let mut out: Vec<String> = Vec::new();
    let mut i: usize = 0;
    while i < ls.len()
        invariant
            i <= ls@.len(),
            views(out@) == non_empty(views(ls@).take(i as int)),
        decreases ls@.len() - i,
    {
        let ghost before = out@;
        let ghost ls_v = views(ls@);
        proof {
            assert(ls_v.take(i + 1).drop_last() =~= ls_v.take(i as int));
            assert(ls_v.take(i + 1).last() == ls@[i as int]@);
        }
        if ls[i].as_str().is_empty() {
        } else {
            out.push(ls[i].clone());
            proof {
                assert(views(out@) =~= views(before).push(ls@[i as int]@));
            }
        }
        i = i + 1;
    }
    proof {
        assert(views(ls@).take(ls@.len() as int) =~= views(ls@));
    }
    out
}

/// The text of a queue after `paths` were appended to it, one by one.
pub open spec fn queue_text(paths: Seq<Seq<char>>) -> Seq<char>
    decreases paths.len(),
{
    if paths.len() == 0 {
        Seq::empty()
    } else {
        queue_text(paths.drop_last()) + queue_entry_spec(paths.last())
    }
}

/// A path that a queue carries as it is: not empty, no newline in it, no
/// carriage return at its end.
pub open spec fn queueable(p: Seq<char>) -> bool {
    &&& p.len() > 0
    &&& forall|i: int| 0 <= i < p.len() ==> p[i] != '\n'
    &&& p.last() != '\r'
}

proof fn lemma_queue_text_scan(paths: Seq<Seq<char>>)
    requires
        forall|i: int| 0 <= i < paths.len() ==> queueable(#[trigger] paths[i]),
    ensures
        scan_lines(queue_text(paths)) == (paths, Seq::<char>::empty()),
    decreases paths.len(),
{
    if paths.len() == 0 {
        assert(scan_lines(Seq::<char>::empty()).0 =~= paths);
    } else {
        let init = paths.drop_last();
        let p = paths.last();
        assert(queueable(paths[paths.len() - 1]));
        lemma_queue_text_scan(init);
        lemma_scan_append(queue_text(init), queue_entry_spec(p));
        lemma_scan_ended_line(p);
        assert(init + seq![strip_cr(p)] =~= paths);
    }
}

/// Paths appended one by one to a queue file are read back from it all,
/// in the order they were appended, when none is empty or holds a line
/// break.
pub proof fn law_queue_file_reads_back(paths: Seq<Seq<char>>)
    requires
        forall|i: int| 0 <= i < paths.len() ==> queueable(#[trigger] paths[i]),
    ensures
        queued_files_spec(queue_text(paths)) == paths,
{
    lemma_queue_text_scan(paths);
    lemma_non_empty_keeps(paths);
}

/// The record written for `pid` and any root names `pid` as its owner.
pub proof fn law_record_reads_back(pid: u32, root: Seq<char>)
    ensures
        record_owner_spec(record_text_spec(pid, root)) == Some(pid),
{
    let d = radix_text(pid as nat, 10);
    lemma_decimal_reads_back(pid as nat);
    lemma_scan_ended_line(d);
    let rest = root + seq!['\n'];
    assert(record_text_spec(pid, root) =~= (d + seq!['\n']) + rest);
    lemma_scan_append(d + seq!['\n'], rest);
    assert(strip_cr(d) == d);
    let ls = lines_of(record_text_spec(pid, root));
    assert(ls[0] == d);
    assert(unsigned_digits(d) == d);
}

/// What a lookup makes of a recorded owner.
#[derive(PartialEq, Eq, Structural, Clone, Copy, Debug)]
pub enum OwnerCheck {
    /// Another live process owns the root.
    Owner(u32),
    /// The record names the asking process itself, alive: no other owner.
    Own,
    /// The recorded process is gone: the record is stale and is deleted.
    Stale,
}

/// A record naming a process that is not alive is stale; one naming the
/// asker itself is no outside owner.
pub open spec fn owner_check_spec(recorded: u32, my_pid: u32, alive: bool) -> OwnerCheck {
    if !alive {
        OwnerCheck::Stale
    } else if recorded == my_pid {
        OwnerCheck::Own
    } else {
        OwnerCheck::Owner(recorded)
    }
}

/// Decides on a recorded owner, given whether that process is alive.
pub fn check_owner(recorded: u32, my_pid: u32, alive: bool) -> (r: OwnerCheck)
    ensures
        r == owner_check_spec(recorded, my_pid, alive),
{
    if !alive {
        OwnerCheck::Stale
    } else if recorded == my_pid {
        OwnerCheck::Own
    } else {
        OwnerCheck::Owner(recorded)
    }
}

impl OwnerCheck {
    pub open spec fn owner_spec(self) -> Option<u32> {
        match self {
            OwnerCheck::Owner(p) => Some(p),
            _ => None,
        }
    }

    /// The external owner found, if any.
    pub fn owner(self) -> (r: Option<u32>)
        ensures
            r == self.owner_spec(),
    {
        match self {
            OwnerCheck::Owner(p) => Some(p),
            _ => None,
        }
    }

    /// Whether the record looked at must be deleted.
    pub fn is_stale(self) -> (r: bool)
        ensures
            r == (self == OwnerCheck::Stale),
    {
        match self {
            OwnerCheck::Stale => true,
            _ => false,
        }
    }
}

} // verus!
