//! Workspace snapshots, and the threads of the server that stand for threads of clients.
use crate::digest;
use crate::digest::digest;
use crate::digest::digest_pair;
use crate::identity::Persona;
use crate::identity::SessionIdentity;
use crate::table;
use crate::table::Table;
use crate::text;
use crate::text::begins_with;
use crate::text::byte_len;
use crate::text::chars_of;
use vstd::prelude::*;
use vstd::utf8::*;

verus! {

broadcast use {
    vstd::seq_lib::group_seq_properties,
    vstd::map::group_map_axioms,
    vstd::set::group_set_axioms,
};

/// How many workspaces there are.
pub const WORKSPACES: usize = 5;

/// How many threads of clients are remembered.
pub const MAX_THREADS: usize = 4096;

/// The largest file with profiles, in bytes.
pub const MAX_FILE: usize = 4_194_304;

/// The longest path, in bytes.
pub const MAX_PATH: usize = 256;

/// The longest address of a repository, in bytes.
pub const MAX_URL: usize = 512;

#[derive(Debug)]
pub struct WorkspaceProfile {
    pub path: String,
    pub remote_url: String,
    pub commit: String,
    pub has_changes: bool,
}

/// The model of a `WorkspaceProfile`.
pub struct Workspace {
    pub path: Seq<char>,
    pub remote_url: Seq<char>,
    pub commit: Seq<char>,
    pub has_changes: bool,
}

impl View for WorkspaceProfile {
    type V = Workspace;

    open spec fn view(&self) -> Workspace {
        Workspace {
            path: self.path@,
            remote_url: self.remote_url@,
            commit: self.commit@,
            has_changes: self.has_changes,
        }
    }
}

#[derive(Debug)]
pub struct Profiles {
    pub profiles: Vec<WorkspaceProfile>,
    /// The server's thread for each digest of an installation and a client's thread.
    pub threads: Table<String, String>,
}

/// What a request's metadata is filled with.
#[derive(Debug)]
pub struct Binding {
    pub workspace: WorkspaceProfile,
    /// The server's threads that stand for the parent threads of a client.
    pub parents: Table<String, String>,
}

/// Why profiles cannot be used.
#[derive(Clone, Copy, Debug, PartialEq, Eq, Structural)]
pub enum ProfileError {
    TooLarge,
    Version,
    TooManyThreads,
    Path,
    RemoteUrl,
    Commit,
    Capacity,
    UnknownParent,
}

impl ProfileError {
    pub open spec fn words(self) -> Seq<char> {
        match self {
            ProfileError::TooLarge => "metadata profiles file too large"@,
            ProfileError::Version => "expected metadata profiles version 1 with five profiles"@,
            ProfileError::TooManyThreads => "too many metadata thread aliases"@,
            ProfileError::Path => "invalid workspace path"@,
            ProfileError::RemoteUrl => "invalid workspace remote URL"@,
            ProfileError::Commit => "invalid workspace commit"@,
            ProfileError::Capacity => "metadata thread alias capacity reached"@,
            ProfileError::UnknownParent => "parent thread has no recorded proxy binding"@,
        }
    }

    pub fn message(self) -> (r: &'static str)
        ensures
            r@ == self.words(),
    {
        match self {
            ProfileError::TooLarge => "metadata profiles file too large",
            ProfileError::Version => "expected metadata profiles version 1 with five profiles",
            ProfileError::TooManyThreads => "too many metadata thread aliases",
            ProfileError::Path => "invalid workspace path",
            ProfileError::RemoteUrl => "invalid workspace remote URL",
            ProfileError::Commit => "invalid workspace commit",
            ProfileError::Capacity => "metadata thread alias capacity reached",
            ProfileError::UnknownParent => "parent thread has no recorded proxy binding",
        }
    }
}

/// Control characters as Unicode lists them.
pub open spec fn is_control(c: char) -> bool {
    c <= '\u{1f}' || '\u{7f}' <= c <= '\u{9f}'
}

pub open spec fn has_control(s: Seq<char>) -> bool {
    exists|i: int| 0 <= i < s.len() && is_control(#[trigger] s[i])
}

/// A hexadecimal digit in either case.
pub open spec fn is_hex_digit(c: char) -> bool {
    '0' <= c <= '9' || 'a' <= c <= 'f' || 'A' <= c <= 'F'
}

pub open spec fn is_commit(s: Seq<char>) -> bool {
    (s.len() == 40 || s.len() == 64) && forall|i: int|
        0 <= i < s.len() ==> is_hex_digit(#[trigger] s[i])
}

/// What is wrong with a workspace.
pub open spec fn workspace_fault(w: Workspace) -> Option<ProfileError> {
    if !("/"@.is_prefix_of(w.path) && text::byte_length(w.path) <= MAX_PATH && !has_control(
        w.path,
    )) {
        Some(ProfileError::Path)
    } else if !("https://"@.is_prefix_of(w.remote_url) && text::byte_length(w.remote_url) <= MAX_URL
        && !has_control(w.remote_url)) {
        Some(ProfileError::RemoteUrl)
    } else if !is_commit(w.commit) {
        Some(ProfileError::Commit)
    } else {
        None
    }
}

/// What is wrong with the first workspace that something is wrong with.
pub open spec fn workspaces_fault(list: Seq<Workspace>) -> Option<ProfileError>
    decreases list.len(),
{
    if list.len() == 0 {
        None
    } else {
        match workspaces_fault(list.drop_last()) {
            Some(e) => Some(e),
            None => workspace_fault(list.last()),
        }
    }
}

pub open spec fn workspaces(list: Seq<WorkspaceProfile>) -> Seq<Workspace> {
    list.map_values(|w: WorkspaceProfile| w@)
}

pub open spec fn snapshot_fault(
    version: u8,
    list: Seq<Workspace>,
    threads: nat,
    size: usize,
) -> Option<ProfileError> {
    if size > MAX_FILE {
        Some(ProfileError::TooLarge)
    } else if version != 1 || list.len() != WORKSPACES {
        Some(ProfileError::Version)
    } else if threads > MAX_THREADS {
        Some(ProfileError::TooManyThreads)
    } else {
        workspaces_fault(list)
    }
}

fn contains_control(s: &str) -> (r: bool)
    ensures
        r == has_control(s@),
{
    let chars = chars_of(s);
    let mut i: usize = 0;
    while i < chars.len()
        invariant
            i <= chars@.len(),
            chars@ == s@,
            forall|k: int| 0 <= k < i ==> !is_control(#[trigger] s@[k]),
        decreases chars@.len() - i,
    {
        let c = chars[i];
        if c <= '\u{1f}' || ('\u{7f}' <= c && c <= '\u{9f}') {
            assert(is_control(s@[i as int]));
            return true;
        }
        i += 1;
    }
    false
}

fn valid_commit(s: &str) -> (r: bool)
    ensures
        r == is_commit(s@),
{
    let chars = chars_of(s);
    if chars.len() != 40 && chars.len() != 64 {
        return false;
    }
    let mut i: usize = 0;
    while i < chars.len()
        invariant
            i <= chars@.len(),
            chars@ == s@,
            forall|k: int| 0 <= k < i ==> is_hex_digit(#[trigger] s@[k]),
        decreases chars@.len() - i,
    {
        let c = chars[i];
        if !(('0' <= c && c <= '9') || ('a' <= c && c <= 'f') || ('A' <= c && c <= 'F')) {
            assert(!is_hex_digit(s@[i as int]));
            return false;
        }
        i += 1;
    }
    true
}

fn check_workspace(w: &WorkspaceProfile) -> (r: Option<ProfileError>)
    ensures
        r == workspace_fault(w@),
{
    if !(begins_with(&w.path, "/") && byte_len(&w.path) <= MAX_PATH && !contains_control(&w.path)) {
        return Some(ProfileError::Path);
    }
    if !(begins_with(&w.remote_url, "https://") && byte_len(&w.remote_url) <= MAX_URL
        && !contains_control(&w.remote_url)) {
        return Some(ProfileError::RemoteUrl);
    }
    if !valid_commit(&w.commit) {
        return Some(ProfileError::Commit);
    }
    None
}

/// The digest under which a client's thread is kept.
pub open spec fn alias(installation: Seq<char>, source: Seq<char>) -> Seq<char> {
    digest::pair_digest(installation, source)
}

/// The threads with those of a client, or nothing where there is no room.
pub open spec fn aliased(
    m: Map<Seq<char>, Seq<char>>,
    p: Persona,
    sources: Seq<Seq<char>>,
) -> Option<Map<Seq<char>, Seq<char>>>
    decreases sources.len(),
{
    if sources.len() == 0 {
        Some(m)
    } else {
        match aliased(m, p, sources.drop_last()) {
            None => None,
            Some(n) => {
                let key = alias(p.installation_id, sources.last());
                if n.contains_key(key) || n.dom().len() < MAX_THREADS {
                    Some(n.insert(key, p.thread_id))
                } else {
                    None
                }
            },
        }
    }
}

/// The server's thread that stands for a parent thread of a client.
pub open spec fn parent_of(
    m: Map<Seq<char>, Seq<char>>,
    p: Persona,
    source: Seq<char>,
) -> Option<Seq<char>> {
    let key = alias(p.installation_id, source);
    if m.contains_key(key) {
        Some(m[key])
    } else {
        p.parent_thread_id
    }
}

pub open spec fn threads_view(m: Map<Seq<char>, String>) -> Map<Seq<char>, Seq<char>> {
    m.map_values(|s: String| s@)
}

/// The value of a hexadecimal digit in lower case.
pub open spec fn hex_value(c: char) -> nat {
    if '0' <= c <= '9' {
        (c as nat - '0' as nat) as nat
    } else {
        (c as nat - 'a' as nat + 10) as nat
    }
}

/// The value of a run of hexadecimal digits.
pub open spec fn hex_number(s: Seq<char>) -> nat
    decreases s.len(),
{
    if s.len() == 0 {
        0
    } else {
        16 * hex_number(s.drop_last()) + hex_value(s.last())
    }
}

/// The workspace of a thread: its digest's first eight digits choose one.
pub open spec fn slot_of(thread: Seq<char>) -> nat {
    hex_number(digest::digest_of(seq![encode_utf8(thread)]).take(8)) % (WORKSPACES as nat)
}

fn slot(thread: &str) -> (r: usize)
    ensures
        r == slot_of(thread@),
        r < WORKSPACES,
{
    let parts = [thread.as_bytes()];
    let key = digest(&parts);
    assert(parts@.map_values(|p: &[u8]| p@) =~= seq![encode_utf8(thread@)]);
    let chars = chars_of(&key);
    let mut value: u64 = 0;
    let mut i: usize = 0;
    let ghost short = key@.take(8);
    assert(short.take(0) =~= Seq::empty());
    while i < 8
        invariant
            i <= 8,
            chars@ == key@,
            key@.len() == 64,
            short == key@.take(8),
            forall|k: int| 0 <= k < key@.len() ==> digest::is_hex(#[trigger] key@[k]),
            value == hex_number(short.take(i as int)),
            value < 0x1_0000_0000,
            i == 0 ==> value == 0,
            i == 1 ==> value < 0x10,
            i == 2 ==> value < 0x100,
            i == 3 ==> value < 0x1000,
            i == 4 ==> value < 0x1_0000,
            i == 5 ==> value < 0x10_0000,
            i == 6 ==> value < 0x100_0000,
            i == 7 ==> value < 0x1000_0000,
        decreases 8 - i,
    {
        let c = chars[i];
        assert(digest::is_hex(key@[i as int]));
        let d: u64 = if '0' <= c && c <= '9' {
            ((c as u8) - ('0' as u8)) as u64
        } else {
            ((c as u8) - ('a' as u8) + 10u8) as u64
        };
        proof {
            assert(short.take(i + 1).drop_last() == short.take(i as int));
            assert(short.take(i + 1).last() == c);
        }
        value = value * 16 + d;
        i += 1;
    }
    assert(short.take(8) =~= short);
    (value % (WORKSPACES as u64)) as usize
}

impl WorkspaceProfile {
    pub fn copy(&self) -> (r: WorkspaceProfile)
        ensures
            r@ == self@,
    {
        WorkspaceProfile {
            path: self.path.clone(),
            remote_url: self.remote_url.clone(),
            commit: self.commit.clone(),
            has_changes: self.has_changes,
        }
    }
}

impl Profiles {
    pub open spec fn wf(&self) -> bool {
        self.threads.wf() && self.profiles@.len() == WORKSPACES
    }

    /// Takes over the profiles in a file of `size` bytes.
    pub fn open(
        version: u8,
        profiles: Vec<WorkspaceProfile>,
        threads: Table<String, String>,
        size: usize,
    ) -> (r: Result<Profiles, ProfileError>)
        requires
            threads.wf(),
        ensures
            match snapshot_fault(version, workspaces(profiles@), threads@.dom().len(), size) {
                Some(e) => r == Err::<Profiles, ProfileError>(e),
                None => r matches Ok(p) && p.wf() && p.profiles == profiles && p.threads == threads,
            },
    {
        if size > MAX_FILE {
            return Err(ProfileError::TooLarge);
        }
        if version != 1 || profiles.len() != WORKSPACES {
            return Err(ProfileError::Version);
        }
        if threads.len() > MAX_THREADS {
            return Err(ProfileError::TooManyThreads);
        }
        let ghost all = workspaces(profiles@);
        let mut fault: Option<ProfileError> = None;
        let mut i: usize = 0;
        assert(all.take(0) =~= Seq::empty());
        while i < profiles.len()
            invariant
                i <= profiles@.len(),
                all == workspaces(profiles@),
                fault == workspaces_fault(all.take(i as int)),
            decreases profiles@.len() - i,
        {
            assert(all.take(i + 1).drop_last() == all.take(i as int));
            assert(all.take(i + 1).last() == profiles@[i as int]@);
            if fault.is_none() {
                fault = check_workspace(&profiles[i]);
            }
            i += 1;
        }
        assert(all.take(all.len() as int) == all);
        match fault {
            Some(e) => Err(e),
            None => Ok(Profiles { profiles, threads }),
        }
    }

    /// The threads with those of a client, to be saved before they are adopted.
    pub fn aliases(&self, identity: &SessionIdentity, sources: &Vec<String>) -> (r: Result<
        Table<String, String>,
        ProfileError,
    >)
        requires
            self.wf(),
        ensures
            match aliased(threads_view(self.threads@), identity@, text::texts(sources@)) {
                Some(m) => r matches Ok(t) && t.wf() && threads_view(t@) == m,
                None => r == Err::<Table<String, String>, ProfileError>(ProfileError::Capacity),
            },
    {
        let ghost start = threads_view(self.threads@);
        let ghost all = text::texts(sources@);
        let mut threads = copy_threads(&self.threads);
        let mut i: usize = 0;
        assert(all.take(0) =~= Seq::empty());
        while i < sources.len()
            invariant
                i <= sources@.len(),
                all == text::texts(sources@),
                start == threads_view(self.threads@),
                threads.wf(),
                aliased(start, identity@, all.take(i as int)) == Some(threads_view(threads@)),
            decreases sources@.len() - i,
        {
            assert(all.take(i + 1).drop_last() == all.take(i as int));
            assert(all.take(i + 1).last() == sources@[i as int]@);
            let key = digest_pair(&identity.installation_id, &sources[i]);
            assert(threads_view(threads@).dom() =~= threads@.dom());
            if !threads.has(&key) && threads.len() >= MAX_THREADS {
                proof {
                    lemma_aliased_stops(start, identity@, all, i + 1);
                }
                return Err(ProfileError::Capacity);
            }
            let thread = identity.thread_id.clone();
            proof {
                table::lemma_mapped_insert(threads@, |s: String| s@, key@, thread);
            }
            threads.insert(key, thread);
            i += 1;
        }
        assert(all.take(all.len() as int) == all);
        Ok(threads)
    }

    /// Adopts threads that were saved.
    pub fn adopt(&mut self, threads: Table<String, String>)
        requires
            old(self).wf(),
            threads.wf(),
        ensures
            final(self).wf(),
            final(self).threads == threads,
            final(self).profiles == old(self).profiles,
    {
        self.threads = threads;
    }

    /// What a request's metadata is filled with.
    pub fn bind(&self, identity: &SessionIdentity, parents: &Vec<String>) -> (r: Result<
        Binding,
        ProfileError,
    >)
        requires
            self.wf(),
        ensures
            ({
                let m = threads_view(self.threads@);
                let p = identity@;
                let list = text::texts(parents@);
                if exists|i: int| 0 <= i < list.len() && parent_of(m, p, #[trigger] list[i]) is None {
                    r == Err::<Binding, ProfileError>(ProfileError::UnknownParent)
                } else {
                    &&& r matches Ok(b)
                    &&& r->Ok_0.parents.wf()
                    &&& r->Ok_0.workspace@ == self.profiles@[slot_of(p.thread_id) as int]@
                    &&& forall|s: Seq<char>| #[trigger]
                        r->Ok_0.parents@.contains_key(s) <==> list.contains(s)
                    &&& forall|s: Seq<char>| #[trigger]
                        r->Ok_0.parents@.contains_key(s) ==> parent_of(m, p, s) == Some(
                            r->Ok_0.parents@[s]@,
                        )
                }
            }),
    {
        let ghost m = threads_view(self.threads@);
        let ghost list = text::texts(parents@);
        let mut out: Table<String, String> = Table::new();
        let mut i: usize = 0;
        while i < parents.len()
            invariant
                i <= parents@.len(),
                self.wf(),
                m == threads_view(self.threads@),
                list == text::texts(parents@),
                out.wf(),
                forall|k: int| 0 <= k < i ==> parent_of(m, identity@, #[trigger] list[k]) is Some,
                forall|s: Seq<char>| #[trigger]
                    out@.contains_key(s) <==> list.take(i as int).contains(s),
                forall|s: Seq<char>| #[trigger]
                    out@.contains_key(s) ==> parent_of(m, identity@, s) == Some(out@[s]@),
            decreases parents@.len() - i,
        {
            let source = &parents[i];
            assert(list[i as int] == source@);
            let key = digest_pair(&identity.installation_id, source);
            let target = match self.threads.get(&key) {
                Some(thread) => thread.clone(),
                None => match &identity.parent_thread_id {
                    Some(thread) => thread.clone(),
                    None => {
                        assert(parent_of(m, identity@, list[i as int]) is None);
                        return Err(ProfileError::UnknownParent);
                    },
                },
            };
            out.insert(source.clone(), target);
            proof {
                let a = list.take(i as int);
                let b = list.take(i + 1);
                assert(b =~= a.push(source@));
                assert forall|s: Seq<char>| #[trigger] b.contains(s) <==> a.contains(s) || s
                    == source@ by {
                    if a.contains(s) {
                        let k = choose|k: int| 0 <= k < a.len() && a[k] == s;
                        assert(b[k] == s);
                    }
                    assert(b[i as int] == source@);
                }
            }
            i += 1;
        }
        assert(list.take(list.len() as int) == list);
        let workspace = self.profiles[slot(&identity.thread_id)].copy();
        Ok(Binding { workspace, parents: out })
    }
}

fn copy_threads(t: &Table<String, String>) -> (r: Table<String, String>)
    requires
        t.wf(),
    ensures
        r.wf(),
        threads_view(r@) == threads_view(t@),
{
    let ghost all = t.entries@;
    let mut out: Table<String, String> = Table { entries: Vec::new() };
    let mut i: usize = 0;
    while i < t.entries.len()
        invariant
            i <= t.entries@.len(),
            all == t.entries@,
            table::distinct_keys(all),
            out.entries@.len() == i,
            forall|k: int| 0 <= k < i ==> (#[trigger] out.entries@[k]) == all[k],
        decreases t.entries@.len() - i,
    {
        out.entries.push((t.entries[i].0.clone(), t.entries[i].1.clone()));
        i += 1;
    }
    assert(out.entries@ =~= all);
    out
}

/// Where there is no room for some threads, there is none for more.
proof fn lemma_aliased_stops(
    m: Map<Seq<char>, Seq<char>>,
    p: Persona,
    sources: Seq<Seq<char>>,
    n: int,
)
    requires
        0 <= n <= sources.len(),
        aliased(m, p, sources.take(n)) is None,
    ensures
        aliased(m, p, sources) is None,
    decreases sources.len(),
{
    if n < sources.len() {
        assert(sources.drop_last().take(n) == sources.take(n));
        lemma_aliased_stops(m, p, sources.drop_last(), n);
    } else {
        assert(sources.take(n) == sources);
    }
}

/// A client's thread that was bound is found again as a parent, under the thread it was bound
/// to.
pub proof fn law_bound_threads_are_found(
    m: Map<Seq<char>, Seq<char>>,
    p: Persona,
    child: Persona,
    source: Seq<char>,
)
    requires
        aliased(m, p, seq![source]) is Some,
        child.installation_id == p.installation_id,
    ensures
        parent_of(aliased(m, p, seq![source])->0, child, source) == Some(p.thread_id),
{
    let one = seq![source];
    assert(one.drop_last() =~= Seq::empty());
    assert(one.last() == source);
    reveal_with_fuel(aliased, 2);
}

/// No more threads are remembered than there is room for.
pub proof fn law_threads_are_bounded(
    m: Map<Seq<char>, Seq<char>>,
    p: Persona,
    sources: Seq<Seq<char>>,
)
    requires
        m.dom().finite(),
        m.dom().len() <= MAX_THREADS,
        aliased(m, p, sources) is Some,
    ensures
        aliased(m, p, sources)->0.dom().finite(),
        aliased(m, p, sources)->0.dom().len() <= MAX_THREADS,
    decreases sources.len(),
{
    if sources.len() > 0 {
        law_threads_are_bounded(m, p, sources.drop_last());
        let n = aliased(m, p, sources.drop_last())->0;
        let key = alias(p.installation_id, sources.last());
        if n.contains_key(key) {
            assert(n.insert(key, p.thread_id).dom() =~= n.dom());
        }
    }
}

/// A character that is none of the control characters of ASCII and of the block that follows it.
pub open spec fn is_printable(c: char) -> bool {
    ' ' <= c <= '~' || c >= '\u{a0}'
}

/// A text without control characters.
pub open spec fn is_clean(s: Seq<char>) -> bool {
    forall|i: int| 0 <= i < s.len() ==> is_printable(#[trigger] s[i])
}

proof fn lemma_clean(s: Seq<char>)
    ensures
        is_clean(s) <==> !has_control(s),
{
    if !is_clean(s) {
        let i = choose|i: int| 0 <= i < s.len() && !is_printable(#[trigger] s[i]);
        assert(is_control(s[i]));
    }
    if has_control(s) {
        let i = choose|i: int| 0 <= i < s.len() && is_control(#[trigger] s[i]);
        assert(!is_printable(s[i]));
    }
}

/// A workspace has an absolute path of 256 bytes at most, a secure address of 512 at most, neither
/// with control characters, and a commit of 40 or 64 hexadecimal digits; what is wrong first is
/// told.
pub proof fn law_what_a_workspace_is(w: Workspace)
    ensures
        ({
            let path = w.path.len() > 0 && w.path[0] == '/' && encode_utf8(w.path).len() <= 256
                && is_clean(w.path);
            let url = "https://"@.is_prefix_of(w.remote_url) && encode_utf8(w.remote_url).len()
                <= 512 && is_clean(w.remote_url);
            let commit = (w.commit.len() == 40 || w.commit.len() == 64) && forall|i: int|
                0 <= i < w.commit.len() ==> ('0' <= #[trigger] w.commit[i] <= '9' || 'a'
                    <= w.commit[i] <= 'f' || 'A' <= w.commit[i] <= 'F');
            &&& workspace_fault(w) == Some(ProfileError::Path) <==> !path
            &&& workspace_fault(w) == Some(ProfileError::RemoteUrl) <==> path && !url
            &&& workspace_fault(w) == Some(ProfileError::Commit) <==> path && url && !commit
            &&& workspace_fault(w) is None <==> path && url && commit
        }),
{
    reveal_strlit("/");
    assert("/"@.len() == 1 && "/"@[0] == '/');
    lemma_clean(w.path);
    lemma_clean(w.remote_url);
    if w.path.len() > 0 {
        assert("/"@.is_prefix_of(w.path) <==> w.path[0] == '/') by {
            if w.path[0] == '/' {
                assert("/"@ =~= w.path.subrange(0, 1));
            }
        }
    }
    assert(is_commit(w.commit) <==> (w.commit.len() == 40 || w.commit.len() == 64) && forall|
        i: int,
    |
        0 <= i < w.commit.len() ==> ('0' <= #[trigger] w.commit[i] <= '9' || 'a' <= w.commit[i]
            <= 'f' || 'A' <= w.commit[i] <= 'F')) by {
        if is_commit(w.commit) {
            assert forall|i: int| 0 <= i < w.commit.len() implies ('0' <= #[trigger] w.commit[i]
                <= '9' || 'a' <= w.commit[i] <= 'f' || 'A' <= w.commit[i] <= 'F') by {
                assert(is_hex_digit(w.commit[i]));
            }
        }
    }
}

/// What is wrong with workspaces is what is wrong with the first of them that something is wrong
/// with, and nothing where that is none.
pub proof fn law_first_fault_is_told(list: Seq<Workspace>, i: int)
    ensures
        workspaces_fault(list) is None <==> forall|k: int|
            0 <= k < list.len() ==> workspace_fault(#[trigger] list[k]) is None,
        0 <= i < list.len() && workspace_fault(list[i]) is Some && (forall|k: int|
            0 <= k < i ==> workspace_fault(#[trigger] list[k]) is None) ==> workspaces_fault(list)
            == workspace_fault(list[i]),
    decreases list.len(),
{
    if list.len() > 0 {
        let front = list.drop_last();
        let end = list.len() - 1;
        law_first_fault_is_told(front, i);
        assert(list[end] == list.last());
        assert(forall|k: int| 0 <= k < end ==> #[trigger] list[k] == front[k]);
        if workspaces_fault(list) is None {
            assert forall|k: int| 0 <= k < list.len() implies workspace_fault(#[trigger] list[k])
                is None by {
                if k < end {
                    assert(workspace_fault(front[k]) is None);
                }
            }
        }
        if forall|k: int| 0 <= k < list.len() ==> workspace_fault(#[trigger] list[k]) is None {
            assert forall|k: int| 0 <= k < front.len() implies workspace_fault(#[trigger] front[k])
                is None by {
                assert(workspace_fault(list[k]) is None);
            }
            assert(workspace_fault(list[end]) is None);
        }
        if 0 <= i < list.len() && workspace_fault(list[i]) is Some && (forall|k: int|
            0 <= k < i ==> workspace_fault(#[trigger] list[k]) is None) {
            if i < end {
                assert(front[i] == list[i]);
                assert forall|k: int| 0 <= k < i implies workspace_fault(#[trigger] front[k])
                    is None by {
                    assert(workspace_fault(list[k]) is None);
                }
            } else {
                assert forall|k: int| 0 <= k < front.len() implies workspace_fault(
                    #[trigger] front[k],
                ) is None by {
                    assert(workspace_fault(list[k]) is None);
                }
            }
        }
    }
}

/// Profiles are taken from a file of four mebibytes at most, of the first version, with five
/// workspaces that nothing is wrong with, and 4096 threads at most.
pub proof fn law_which_profiles_are_taken(
    version: u8,
    list: Seq<Workspace>,
    threads: nat,
    size: usize,
)
    ensures
        ({
            let r = snapshot_fault(version, list, threads, size);
            let small = size <= 4_194_304;
            let five = version == 1 && list.len() == 5;
            &&& r == Some(ProfileError::TooLarge) <==> !small
            &&& r == Some(ProfileError::Version) <==> small && !five
            &&& r == Some(ProfileError::TooManyThreads) <==> small && five && threads > 4096
            &&& small && five && threads <= 4096 ==> r == workspaces_fault(list)
        }),
{
    lemma_workspace_faults(list);
}

proof fn lemma_workspace_faults(list: Seq<Workspace>)
    ensures
        workspaces_fault(list) matches Some(e) ==> e == ProfileError::Path || e
            == ProfileError::RemoteUrl || e == ProfileError::Commit,
    decreases list.len(),
{
    if list.len() > 0 {
        lemma_workspace_faults(list.drop_last());
    }
}

/// Each of a client's threads is bound, for the installation, to the thread of the identity; no
/// other binding changes, and only where 4096 are kept is there no room.
pub proof fn law_how_threads_are_bound(
    m: Map<Seq<char>, Seq<char>>,
    p: Persona,
    sources: Seq<Seq<char>>,
    i: int,
    other: Seq<char>,
)
    ensures
        m.dom().len() + sources.len() <= 4096 && m.dom().finite() ==> aliased(m, p, sources) is Some,
        aliased(m, p, sources) matches Some(n) ==> {
            &&& 0 <= i < sources.len() ==> n.contains_key(
                digest::pair_digest(p.installation_id, sources[i]),
            ) && n[digest::pair_digest(p.installation_id, sources[i])] == p.thread_id
            &&& (forall|k: int|
                0 <= k < sources.len() ==> other != digest::pair_digest(
                    p.installation_id,
                    #[trigger] sources[k],
                )) ==> (n.contains_key(other) <==> m.contains_key(other)) && (m.contains_key(other)
                ==> n[other] == m[other])
            &&& m.dom().finite() ==> n.dom().finite() && n.dom().len() <= m.dom().len()
                + sources.len()
        },
    decreases sources.len(),
{
    if sources.len() > 0 {
        let front = sources.drop_last();
        let end = sources.len() - 1;
        law_how_threads_are_bound(m, p, front, i, other);
        assert(sources[end] == sources.last());
        assert(forall|k: int| 0 <= k < end ==> #[trigger] sources[k] == front[k]);
        if let Some(n) = aliased(m, p, front) {
            if forall|k: int|
                0 <= k < sources.len() ==> other != digest::pair_digest(
                    p.installation_id,
                    #[trigger] sources[k],
                ) {
                assert forall|k: int| 0 <= k < front.len() implies other != digest::pair_digest(
                    p.installation_id,
                    #[trigger] front[k],
                ) by {
                    assert(other != digest::pair_digest(p.installation_id, sources[k]));
                }
                assert(other != digest::pair_digest(p.installation_id, sources[end]));
            }
        }
    }
}

/// A parent thread is the one that it was bound to for the installation or, where it was not, the
/// parent of the identity.
pub proof fn law_which_parent_counts(
    m: Map<Seq<char>, Seq<char>>,
    p: Persona,
    source: Seq<char>,
)
    ensures
        ({
            let key = digest::pair_digest(p.installation_id, source);
            &&& m.contains_key(key) ==> parent_of(m, p, source) == Some(m[key])
            &&& !m.contains_key(key) ==> parent_of(m, p, source) == p.parent_thread_id
        }),
{
}

/// Hexadecimal digits are read from the left: a further one makes sixteen times as much and that
/// digit.
pub proof fn law_hexadecimal_numbers(s: Seq<char>, c: char)
    requires
        digest::is_hex(c),
    ensures
        hex_number(Seq::<char>::empty()) == 0,
        hex_number(s.push(c)) == 16 * hex_number(s) + hex_value(c),
        hex_value(c) < 16,
        hex_value(c) < 10 ==> c as nat == 48 + hex_value(c),
        hex_value(c) >= 10 ==> c as nat == 87 + hex_value(c),
{
    assert(s.push(c).drop_last() =~= s);
}

/// A thread always has the same one of the five workspaces: what the first eight digits of its
/// digest leave when divided by five.
pub proof fn law_which_workspace_a_thread_has(thread: Seq<char>)
    ensures
        slot_of(thread) < 5,
        slot_of(thread) == hex_number(
            digest::digest_of(seq![encode_utf8(thread)]).take(8),
        ) % 5,
{
}

} // verus!
