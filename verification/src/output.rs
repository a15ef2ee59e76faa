//! The crash-safe output writer, as a plan of filesystem actions.
//!
//! The writer itself does no I/O: for each kind of destination it plans
//! the exact sequence of filesystem actions — create, write, sync, rename,
//! remove — that a driver then performs in order. Atomicity is proved over
//! a model of the filesystem: for an overwrite, every prefix of the plan
//! that stops short of the rename leaves the destination's bytes
//! untouched, and from the rename on the destination holds exactly the
//! new content; an uncommitted writer's cleanup removes whatever file it
//! created and nothing else.

use vstd::prelude::*;
use rand::Rng;

verus! {

/// One filesystem action of a writer's plan, to be performed by a driver.
pub enum FsAction {
    /// Create the file empty, failing if something is in the way.
    Create { path: String },
    /// Replace the file's content with `data`.
    WriteAll { path: String, data: Vec<u8> },
    /// Flush the file's data to disk.
    SyncFile { path: String },
    /// Close the file handle.
    Close { path: String },
    /// Atomically replace `to` by `from`.
    Rename { from: String, to: String },
    /// Flush the directory entry to disk.
    SyncDir { path: String },
    /// Remove the file.
    Remove { path: String },
    /// Write `data` to the stream and flush it.
    StreamWrite { data: Vec<u8> },
}

/// The filesystem as the model sees it: which regular file holds which
/// bytes.
pub struct FsState {
    pub files: Map<Seq<char>, Seq<u8>>,
}

/// What one action does to the modeled filesystem. Syncs and closes do
/// not change which bytes a path holds (they make them durable), and a
/// stream write touches no file.
pub open spec fn apply_action(s: FsState, a: FsAction) -> FsState {
    match a {
        FsAction::Create { path } => FsState { files: s.files.insert(path@, Seq::empty()) },
        FsAction::WriteAll { path, data } => FsState { files: s.files.insert(path@, data@) },
        FsAction::SyncFile { path } => s,
        FsAction::Close { path } => s,
        FsAction::Rename { from, to } => {
            if s.files.contains_key(from@) {
                FsState { files: s.files.remove(from@).insert(to@, s.files[from@]) }
            } else {
                s
            }
        },
        FsAction::SyncDir { path } => s,
        FsAction::Remove { path } => FsState { files: s.files.remove(path@) },
        FsAction::StreamWrite { data } => s,
    }
}

/// The filesystem after a sequence of actions, applied in order.
pub open spec fn apply_all(s: FsState, acts: Seq<FsAction>) -> FsState
    decreases acts.len(),
{
    if acts.len() == 0 {
        s
    } else {
        apply_action(apply_all(s, acts.drop_last()), acts.last())
    }
}

/// A destination for the final byte buffer. `Stream` is a pipe, character
/// device or standard output, written directly; `NewFile` is a path that
/// held no file before; `OverwriteFile` replaces an existing file through
/// a temporary in the same directory.
pub enum Output {
    Stream,
    NewFile { path: String, dir: String },
    OverwriteFile { dst_path: String, tmp_path: String, dir: String },
}

/// The actions that acquire the destination, before the expensive search
/// runs, so that permission and path errors surface early.
pub open spec fn spec_create_actions(o: Output) -> Seq<FsAction> {
    match o {
        Output::Stream => Seq::empty(),
        Output::NewFile { path, dir } => seq![FsAction::Create { path }],
        Output::OverwriteFile { dst_path, tmp_path, dir } => seq![
            FsAction::Create { path: tmp_path },
        ],
    }
}

/// The actions that commit the buffer. For an overwrite the rename is the
/// commit point: it is the only action that touches the destination.
pub open spec fn spec_commit_actions(o: Output, data: Vec<u8>) -> Seq<FsAction> {
    match o {
        Output::Stream => seq![FsAction::StreamWrite { data }],
        Output::NewFile { path, dir } => seq![
            FsAction::WriteAll { path, data },
            FsAction::SyncFile { path },
            FsAction::SyncDir { path: dir },
        ],
        Output::OverwriteFile { dst_path, tmp_path, dir } => seq![
            FsAction::WriteAll { path: tmp_path, data },
            FsAction::SyncFile { path: tmp_path },
            FsAction::Close { path: tmp_path },
            FsAction::Rename { from: tmp_path, to: dst_path },
            FsAction::SyncDir { path: dir },
        ],
    }
}

/// The actions that release a writer: a destination that was created but
/// never committed is removed, a committed one is left alone.
pub open spec fn spec_cleanup_actions(o: Output, committed: bool) -> Seq<FsAction> {
    match o {
        Output::Stream => Seq::empty(),
        Output::NewFile { path, dir } => {
            if committed {
                Seq::empty()
            } else {
                seq![FsAction::Remove { path }]
            }
        },
        Output::OverwriteFile { dst_path, tmp_path, dir } => {
            if committed {
                Seq::empty()
            } else {
                seq![FsAction::Remove { path: tmp_path }]
            }
        },
    }
}

impl Output {
    /// Plans the acquisition of the destination.
    pub fn create_actions(&self) -> (r: Vec<FsAction>)
        ensures
            r@ == spec_create_actions(*self),
    {
        match self {
            Output::Stream => Vec::new(),
            Output::NewFile { path, dir } => {
                let mut v: Vec<FsAction> = Vec::new();
                v.push(FsAction::Create { path: path.clone() });
                proof {
                    assert(v@ =~= spec_create_actions(*self));
                }
                v
            },
            Output::OverwriteFile { dst_path, tmp_path, dir } => {
                let mut v: Vec<FsAction> = Vec::new();
                v.push(FsAction::Create { path: tmp_path.clone() });
                proof {
                    assert(v@ =~= spec_create_actions(*self));
                }
                v
            },
        }
    }

    /// Plans the commit of `data`. Consumes the writer: one writer
    /// commits exactly once.
    pub fn commit_actions(self, data: Vec<u8>) -> (r: Vec<FsAction>)
        ensures
            r@ == spec_commit_actions(self, data),
    {
        let ghost this = self;
        let ghost gdata = data;
        match self {
            Output::Stream => {
                let mut v: Vec<FsAction> = Vec::new();
                v.push(FsAction::StreamWrite { data });
                proof {
                    assert(v@ =~= spec_commit_actions(this, gdata));
                }
                v
            },
            Output::NewFile { path, dir } => {
                let mut v: Vec<FsAction> = Vec::new();
                v.push(FsAction::WriteAll { path: path.clone(), data });
                v.push(FsAction::SyncFile { path });
                v.push(FsAction::SyncDir { path: dir });
                proof {
                    assert(v@ =~= spec_commit_actions(this, gdata));
                }
                v
            },
            Output::OverwriteFile { dst_path, tmp_path, dir } => {
                let mut v: Vec<FsAction> = Vec::new();
                v.push(FsAction::WriteAll { path: tmp_path.clone(), data });
                v.push(FsAction::SyncFile { path: tmp_path.clone() });
                v.push(FsAction::Close { path: tmp_path.clone() });
                v.push(FsAction::Rename { from: tmp_path, to: dst_path });
                v.push(FsAction::SyncDir { path: dir });
                proof {
                    assert(v@ =~= spec_commit_actions(this, gdata));
                }
                v
            },
        }
    }

    /// Plans the release of a writer; `committed` says whether the commit
    /// ran to completion.
    pub fn cleanup_actions(&self, committed: bool) -> (r: Vec<FsAction>)
        ensures
            r@ == spec_cleanup_actions(*self, committed),
    {
        match self {
            Output::Stream => Vec::new(),
            Output::NewFile { path, dir } => {
                if committed {
                    Vec::new()
                } else {
                    let mut v: Vec<FsAction> = Vec::new();
                    v.push(FsAction::Remove { path: path.clone() });
                    proof {
                        assert(v@ =~= spec_cleanup_actions(*self, committed));
                    }
                    v
                }
            },
            Output::OverwriteFile { dst_path, tmp_path, dir } => {
                if committed {
                    Vec::new()
                } else {
                    let mut v: Vec<FsAction> = Vec::new();
                    v.push(FsAction::Remove { path: tmp_path.clone() });
                    proof {
                        assert(v@ =~= spec_cleanup_actions(*self, committed));
                    }
                    v
                }
            },
        }
    }
}

/// Atomicity of an overwrite: as long as the rename (the fourth action)
/// has not run, the destination holds exactly what it held before; from
/// the rename on it holds exactly the new bytes. No prefix shows a
/// truncated or mixed destination.
pub proof fn lemma_overwrite_atomic(s0: FsState, o: Output, data: Vec<u8>, i: int)
    requires
        o matches Output::OverwriteFile { dst_path, tmp_path, dir } && dst_path@ != tmp_path@,
        0 <= i <= 5,
    ensures
        ({
            let acts = spec_commit_actions(o, data);
            let s = apply_all(s0, acts.take(i));
            match o {
                Output::OverwriteFile { dst_path, tmp_path, dir } => {
                    &&& i < 4 ==> s.files.contains_key(dst_path@) == s0.files.contains_key(
                        dst_path@,
                    )
                    &&& i < 4 && s0.files.contains_key(dst_path@) ==> s.files[dst_path@]
                        == s0.files[dst_path@]
                    &&& i >= 4 ==> s.files.contains_key(dst_path@) && s.files[dst_path@] == data@
                },
                _ => true,
            }
        }),
{
    let acts = spec_commit_actions(o, data);
    match o {
        Output::OverwriteFile { dst_path, tmp_path, dir } => {
            let s1 = apply_all(s0, acts.take(1));
            let s2 = apply_all(s0, acts.take(2));
            let s3 = apply_all(s0, acts.take(3));
            let s4 = apply_all(s0, acts.take(4));
            let s5 = apply_all(s0, acts.take(5));
            assert(acts.take(0) =~= Seq::<FsAction>::empty());
            assert(apply_all(s0, acts.take(0)) == s0);
            assert(acts.take(1).drop_last() =~= acts.take(0));
            assert(s1 == apply_action(s0, acts[0]));
            assert(acts.take(2).drop_last() =~= acts.take(1));
            assert(s2 == apply_action(s1, acts[1]));
            assert(acts.take(3).drop_last() =~= acts.take(2));
            assert(s3 == apply_action(s2, acts[2]));
            assert(acts.take(4).drop_last() =~= acts.take(3));
            assert(s4 == apply_action(s3, acts[3]));
            assert(acts.take(5).drop_last() =~= acts.take(4));
            assert(s5 == apply_action(s4, acts[4]));
            assert(s1.files == s0.files.insert(tmp_path@, data@));
            assert(s2 == s1);
            assert(s3 == s2);
            assert(s3.files.contains_key(tmp_path@));
            assert(s4.files == s3.files.remove(tmp_path@).insert(dst_path@, s3.files[tmp_path@]));
            assert(s4.files[dst_path@] == data@);
            assert(s5 == s4);
        },
        _ => {},
    }
}

/// Cleanup of an overwrite that never committed: whatever prefix of the
/// commit ran short of the rename, removing the temporary leaves the
/// destination as it was and no temporary behind.
pub proof fn lemma_overwrite_cleanup(s0: FsState, o: Output, data: Vec<u8>, i: int)
    requires
        o matches Output::OverwriteFile { dst_path, tmp_path, dir } && dst_path@ != tmp_path@,
        0 <= i < 4,
    ensures
        ({
            let s = apply_all(s0, spec_commit_actions(o, data).take(i));
            let after = apply_all(s, spec_cleanup_actions(o, false));
            match o {
                Output::OverwriteFile { dst_path, tmp_path, dir } => {
                    &&& !after.files.contains_key(tmp_path@)
                    &&& after.files.contains_key(dst_path@) == s0.files.contains_key(dst_path@)
                    &&& s0.files.contains_key(dst_path@) ==> after.files[dst_path@]
                        == s0.files[dst_path@]
                },
                _ => true,
            }
        }),
{
    lemma_overwrite_atomic(s0, o, data, i);
    match o {
        Output::OverwriteFile { dst_path, tmp_path, dir } => {
            let s = apply_all(s0, spec_commit_actions(o, data).take(i));
            let cleanup = spec_cleanup_actions(o, false);
            let after = apply_all(s, cleanup);
            let empty_acts = Seq::<FsAction>::empty();
            assert(cleanup.len() == 1);
            assert(cleanup.drop_last() =~= empty_acts);
            assert(apply_all(s, empty_acts) == s);
            assert(after == apply_action(apply_all(s, cleanup.drop_last()), cleanup.last()));
            assert(cleanup.last() == cleanup[0]);
            assert(after.files == s.files.remove(tmp_path@));
        },
        _ => {},
    }
}

/// A fresh destination that fails before any write leaves no file: the
/// cleanup of an uncommitted `NewFile` removes exactly the file that its
/// acquisition created.
pub proof fn lemma_new_file_cleanup(s0: FsState, o: Output)
    requires
        o matches Output::NewFile { path, dir } && !s0.files.contains_key(path@),
    ensures
        ({
            let created = apply_all(s0, spec_create_actions(o));
            let after = apply_all(created, spec_cleanup_actions(o, false));
            match o {
                Output::NewFile { path, dir } => {
                    &&& created.files.contains_key(path@)
                    &&& !after.files.contains_key(path@)
                    &&& after.files =~= s0.files
                },
                _ => true,
            }
        }),
{
    match o {
        Output::NewFile { path, dir } => {
            let create = spec_create_actions(o);
            let created = apply_all(s0, create);
            let empty_acts = Seq::<FsAction>::empty();
            assert(create.len() == 1);
            assert(create.drop_last() =~= empty_acts);
            assert(apply_all(s0, empty_acts) == s0);
            assert(created == apply_action(apply_all(s0, create.drop_last()), create.last()));
            assert(create.last() == create[0]);
            assert(created.files == s0.files.insert(path@, Seq::<u8>::empty()));
            let cleanup = spec_cleanup_actions(o, false);
            let after = apply_all(created, cleanup);
            assert(cleanup.len() == 1);
            assert(cleanup.drop_last() =~= empty_acts);
            assert(apply_all(created, empty_acts) == created);
            assert(after == apply_action(apply_all(created, cleanup.drop_last()), cleanup.last()));
            assert(cleanup.last() == cleanup[0]);
            assert(after.files == created.files.remove(path@));
        },
        _ => {},
    }
}

/// `s` with every trailing separator removed.
pub open spec fn strip_trailing_slashes(s: Seq<char>) -> Seq<char>
    decreases s.len(),
{
    if s.len() > 0 && s.last() == '/' {
        strip_trailing_slashes(s.drop_last())
    } else {
        s
    }
}

/// The position of the last separator in `s`, or -1.
pub open spec fn last_slash(s: Seq<char>) -> int
    decreases s.len(),
{
    if s.len() == 0 {
        -1
    } else if s.last() == '/' {
        s.len() - 1
    } else {
        last_slash(s.drop_last())
    }
}

/// The directory that holds the file a path names: everything before the
/// last separator; `.` when the path has no directory part; `/` for an
/// entry of the root.
pub open spec fn spec_file_directory(s: Seq<char>) -> Seq<char> {
    let t = strip_trailing_slashes(s);
    if t.len() == 0 {
        "."@
    } else {
        let j = last_slash(t);
        if j == -1 {
            "."@
        } else {
            let u = strip_trailing_slashes(t.take(j));
            if u.len() == 0 {
                "/"@
            } else {
                u
            }
        }
    }
}

proof fn lemma_strip_eq(s: Seq<char>, end: int)
    requires
        0 <= end <= s.len(),
        forall|m: int| end <= m < s.len() ==> s[m] == '/',
        end > 0 ==> s[end - 1] != '/',
    ensures
        strip_trailing_slashes(s) == s.take(end),
    decreases s.len(),
{
    if s.len() == end {
        assert(s.take(end) =~= s);
    } else {
        assert(s.last() == '/');
        let s0 = s.drop_last();
        assert(forall|m: int| 0 <= m < s0.len() ==> s0[m] == s[m]);
        lemma_strip_eq(s0, end);
        assert(s0.take(end) =~= s.take(end));
    }
}

proof fn lemma_last_slash_at(s: Seq<char>, j: int)
    requires
        0 <= j < s.len(),
        s[j] == '/',
        forall|m: int| j < m < s.len() ==> s[m] != '/',
    ensures
        last_slash(s) == j,
    decreases s.len(),
{
    if j < s.len() - 1 {
        let s0 = s.drop_last();
        assert(forall|m: int| 0 <= m < s0.len() ==> s0[m] == s[m]);
        lemma_last_slash_at(s0, j);
    }
}

proof fn lemma_last_slash_none(s: Seq<char>)
    requires
        forall|m: int| 0 <= m < s.len() ==> s[m] != '/',
    ensures
        last_slash(s) == -1,
    decreases s.len(),
{
    if s.len() > 0 {
        let s0 = s.drop_last();
        assert(forall|m: int| 0 <= m < s0.len() ==> s0[m] == s[m]);
        lemma_last_slash_none(s0);
    }
}

/// The directory that holds the file `path` names, for opening and
/// syncing it around a commit: everything before the last `/`; `.` when
/// the path has no directory part; `/` for an entry of the root.
pub fn file_directory(path: &str) -> (r: String)
    ensures
        r@ == spec_file_directory(path@),
{
    let n = path.unicode_len();
    let mut end: usize = n;
    while end > 0 && path.get_char(end - 1) == '/'
        invariant
            end <= n,
            n == path@.len(),
            forall|m: int| end <= m < n ==> path@[m] == '/',
        decreases end,
    {
        end = end - 1;
    }
    proof {
        lemma_strip_eq(path@, end as int);
    }
    let ghost t = strip_trailing_slashes(path@);
    if end == 0 {
        return String::from_str(".");
    }
    let mut k: usize = end;
    while k > 0 && path.get_char(k - 1) != '/'
        invariant
            k <= end,
            end <= n,
            n == path@.len(),
            forall|m: int| k <= m < end ==> path@[m] != '/',
        decreases k,
    {
        k = k - 1;
    }
    if k == 0 {
        proof {
            assert(forall|m: int| 0 <= m < t.len() ==> t[m] == path@[m]);
            lemma_last_slash_none(t);
        }
        return String::from_str(".");
    }
    proof {
        assert(forall|m: int| 0 <= m < t.len() ==> t[m] == path@[m]);
        lemma_last_slash_at(t, k - 1);
    }
    let mut e2: usize = k - 1;
    while e2 > 0 && path.get_char(e2 - 1) == '/'
        invariant
            e2 <= k - 1,
            k <= n,
            n == path@.len(),
            forall|m: int| e2 <= m < k - 1 ==> path@[m] == '/',
        decreases e2,
    {
        e2 = e2 - 1;
    }
    proof {
        let head = path@.take(k - 1);
        assert(forall|m: int| 0 <= m < head.len() ==> head[m] == path@[m]);
        lemma_strip_eq(head, e2 as int);
        assert(t.take(k - 1) =~= head);
        assert(head.take(e2 as int) =~= path@.take(e2 as int));
    }
    if e2 == 0 {
        return String::from_str("/");
    }
    let sub = path.substring_char(0, e2);
    let r = sub.to_owned();
    proof {
        assert(r@ =~= path@.take(e2 as int));
    }
    r
}

/// Whether a character may appear in the random part of a temporary file
/// name: an ASCII letter or digit.
pub open spec fn is_alnum_char(c: char) -> bool {
    (65 <= c as int <= 90) || (97 <= c as int <= 122) || (48 <= c as int <= 57)
}

/// Relies on rand's `Alphanumeric` distribution: every sampled value is
/// an ASCII letter or digit. Nothing is assumed about which one comes.
#[verifier::external_body]
fn random_alnum_string(n: usize) -> (r: String)
    ensures
        r@.len() == n,
        forall|i: int| 0 <= i < r@.len() ==> is_alnum_char(r@[i]),
{
    rand::thread_rng().sample_iter(&rand::distributions::Alphanumeric).take(n).map(
        char::from,
    ).collect()
}

/// A fresh name for the temporary file of an overwrite: a fixed hidden
/// prefix, sixteen random letters or digits, and a fixed suffix. The
/// driver retries with a new name if the name is taken.
pub fn temp_file_name() -> (r: String)
    ensures
        r@.len() == 25,
        r@.take(5) == ".pio-"@,
        r@.skip(21) == ".tmp"@,
        forall|i: int| 5 <= i < 21 ==> is_alnum_char(r@[i]),
{
    proof {
        reveal_strlit(".pio-");
        reveal_strlit(".tmp");
    }
    let mut s = String::from_str(".pio-");
    let middle = random_alnum_string(16);
    s.append(middle.as_str());
    s.append(".tmp");
    proof {
        assert(".pio-"@.len() == 5);
        assert(".tmp"@.len() == 4);
        assert(s@.take(5) =~= ".pio-"@);
        assert(s@.skip(21) =~= ".tmp"@);
    }
    s
}

} // verus!
