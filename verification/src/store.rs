//! The decisions of the versioned store: what to clone and where, which
//! provider a remote belongs to, how to set a repository up, which paths are
//! in conflict, and the workflow that leads from a pull with conflicts back
//! to a clean repository. The repository itself is worked on elsewhere; what
//! was seen of it comes in as plain values.

use crate::config::Config;
use crate::config::GitInfo;
use crate::file_manager::join_path;
use crate::file_manager::path_join;
use crate::past_tasks::is_listed;
use crate::past_tasks::string_views;
use crate::text::after_last;
use crate::text::append_chars;
use crate::text::chars_of;
use crate::text::contains;
use crate::text::find;
use crate::text::first_occurrence;
use crate::text::has_within;
use crate::text::slice_of;
use crate::text::string_of;
use crate::text::strip_suffixes;
use crate::text::strip_trailing;
use crate::text::tail_after_last;
use crate::text::without_suffixes;
use crate::text::without_trailing;
use vstd::prelude::*;
use vstd::string::StringExecFns;

verus! {

/// Why the store refuses an operation.
#[derive(Clone, Copy, Debug, PartialEq, Eq, Structural)]
pub enum StoreError {
    /// The directory to clone into exists and is not empty.
    TargetNotEmpty,
    /// A path is still in conflict.
    UnresolvedConflicts,
    /// No merge is under way.
    NoMergeInProgress,
    /// The branches have diverged: the merge is to be resolved by hand.
    MergeRequired,
}

/// The name of the repository at `url`: what follows the last `/`, once the
/// slashes and the suffixes `.git` at the end are gone.
pub open spec fn repo_name(url: Seq<char>) -> Seq<char> {
    after_last(without_suffixes(without_trailing(url, '/'), ".git"@), '/')
}

/// `url` with `token` as the password of the user `x-access-token`, put
/// behind the `://` that stands at index `at`.
pub open spec fn with_token(url: Seq<char>, token: Seq<char>, at: int) -> Seq<char> {
    url.take(at) + "://x-access-token:"@ + token + seq!['@'] + url.skip(at + "://"@.len())
}

/// What a clone needs: the name of the repository, the directory to clone
/// into, and the address to clone from.
#[derive(Clone, Debug)]
pub struct ClonePlan {
    pub repo_name: String,
    pub clone_path: String,
    pub clone_url: String,
}

/// The name of the repository at `url`.
pub fn repo_name_from_url(url: &str) -> (r: String)
    ensures
        r@ == repo_name(url@),
{
    let trimmed = strip_trailing(&chars_of(url), '/');
    let bare = strip_suffixes(&trimmed, &chars_of(".git"));
    string_of(&tail_after_last(&bare, '/'))
}

/// The address to clone `url` from. A token that is not empty is put into
/// the address behind the first `://`; an address without `://` stays as it
/// is.
pub open spec fn clone_url(url: Seq<char>, token: Option<Seq<char>>) -> Seq<char> {
    match token {
        Some(t) => if t.len() > 0 && contains(url, "://"@) {
            with_token(url, t, choose|at: int| first_occurrence(url, "://"@, at))
        } else {
            url
        },
        None => url,
    }
}

/// The token as a sequence.
pub open spec fn token_view(token: Option<&str>) -> Option<Seq<char>> {
    match token {
        Some(t) => Some(t@),
        None => None,
    }
}

/// A pattern stands first at one index only.
pub proof fn lemma_first_occurrence_unique(s: Seq<char>, p: Seq<char>, a: int, b: int)
    requires
        first_occurrence(s, p, a),
        first_occurrence(s, p, b),
    ensures
        a == b,
{
    if a < b {
        assert(!crate::text::occurs_at(s, p, a));
    }
    if b < a {
        assert(!crate::text::occurs_at(s, p, b));
    }
}

/// The address to clone from, with the token in it where one is given.
pub fn clone_url_with_token(url: &str, token: Option<&str>) -> (r: String)
    ensures
        r@ == clone_url(url@, token_view(token)),
{
    let secret = match token {
        Some(t) => chars_of(t),
        None => {
            return String::from_str(url);
        },
    };
    if secret.len() == 0 {
        return String::from_str(url);
    }
    let address = chars_of(url);
    let mark = chars_of("://");
    match find(&address, &mark) {
        Some(at) => {
            let total = address.len();
            assert(at + mark@.len() <= total);
            let rest: usize = at + mark.len();
            let mut out = slice_of(&address, 0, at);
            append_chars(&mut out, &chars_of("://x-access-token:"));
            append_chars(&mut out, &secret);
            out.push('@');
            append_chars(&mut out, &slice_of(&address, rest, total));
            proof {
                assert(address@.subrange(0, at as int) =~= url@.take(at as int));
                assert(address@.subrange(rest as int, total as int) =~= url@.skip(
                    at + "://"@.len(),
                ));
                assert(out@ =~= with_token(url@, secret@, at as int));
                assert(crate::text::occurs_at(url@, "://"@, at as int));
                let chosen = choose|i: int| first_occurrence(url@, "://"@, i);
                lemma_first_occurrence_unique(url@, "://"@, chosen, at as int);
            }
            string_of(&out)
        },
        None => String::from_str(url),
    }
}

/// What a clone of `url` into the directory `base_path` needs.
pub fn plan_clone(url: &str, base_path: &str, token: Option<&str>) -> (r: ClonePlan)
    ensures
        r.repo_name@ == repo_name(url@),
        r.clone_path@ == path_join(base_path@, repo_name(url@)),
        r.clone_url@ == clone_url(url@, token_view(token)),
{
    let name = repo_name_from_url(url);
    let clone_path = string_of(&join_path(&chars_of(base_path), &chars_of(name.as_str())));
    let clone_url = clone_url_with_token(url, token);
    ClonePlan { repo_name: name, clone_path, clone_url }
}

/// Whether a clone may go into its directory: not where it exists and holds
/// something.
pub fn admit_clone_target(exists: bool, is_empty: bool) -> (r: Result<(), StoreError>)
    ensures
        r == (if exists && !is_empty {
            Err::<(), StoreError>(StoreError::TargetNotEmpty)
        } else {
            Ok::<(), StoreError>(())
        }),
{
    if exists && !is_empty {
        Err(StoreError::TargetNotEmpty)
    } else {
        Ok(())
    }
}

/// The provider that the remote `url` belongs to: `gitlab` and `gitee` by
/// their host names, and `github` for every other address.
pub open spec fn provider_of(url: Seq<char>) -> Seq<char> {
    if contains(url, "github.com"@) {
        "github"@
    } else if contains(url, "gitlab.com"@) {
        "gitlab"@
    } else if contains(url, "gitee.com"@) {
        "gitee"@
    } else {
        "github"@
    }
}

/// The provider that the remote `url` belongs to.
pub fn detect_provider(url: &str) -> (r: String)
    ensures
        r@ == provider_of(url@),
{
    let address = chars_of(url);
    if has_within(&address, &chars_of("github.com")) {
        String::from_str("github")
    } else if has_within(&address, &chars_of("gitlab.com")) {
        String::from_str("gitlab")
    } else if has_within(&address, &chars_of("gitee.com")) {
        String::from_str("gitee")
    } else {
        String::from_str("github")
    }
}

/// What an existing repository says of itself, from what was read of it: the
/// provider is the one of the remote, where there is a remote.
pub fn detect_config(
    user_name: Option<String>,
    user_email: Option<String>,
    remote_url: Option<String>,
) -> (r: GitInfo)
    ensures
        r.user_name == user_name,
        r.user_email == user_email,
        r.remote_url == remote_url,
        match remote_url {
            Some(url) => r.git_provider matches Some(provider) && provider@ == provider_of(url@),
            None => r.git_provider is None,
        },
{
    let git_provider = match &remote_url {
        Some(url) => Some(detect_provider(url.as_str())),
        None => None,
    };
    GitInfo { user_name, user_email, remote_url, git_provider }
}

/// How to come by the repository of a directory.
#[derive(Clone, Copy, Debug, PartialEq, Eq, Structural)]
pub enum OpenAction {
    /// Open the repository that is there.
    Open,
    /// Create the directory and a new, empty repository in it.
    Initialize,
}

/// How to come by the repository of a directory: open it where its metadata
/// directory exists, create it where not.
pub fn open_action(metadata_exists: bool) -> (r: OpenAction)
    ensures
        r == (if metadata_exists {
            OpenAction::Open
        } else {
            OpenAction::Initialize
        }),
{
    if metadata_exists {
        OpenAction::Open
    } else {
        OpenAction::Initialize
    }
}

/// What to do about the remote `origin`.
#[derive(Clone, Debug)]
pub enum RemoteAction {
    /// Leave the remotes as they are.
    Keep,
    /// Point the existing remote at this address.
    SetUrl(String),
    /// Add the remote with this address.
    Add(String),
}

/// What to do about the remote `origin`, with an address as a sequence.
pub enum RemoteStep {
    Keep,
    SetUrl(Seq<char>),
    Add(Seq<char>),
}

impl View for RemoteAction {
    type V = RemoteStep;

    open spec fn view(&self) -> RemoteStep {
        match self {
            RemoteAction::Keep => RemoteStep::Keep,
            RemoteAction::SetUrl(url) => RemoteStep::SetUrl(url@),
            RemoteAction::Add(url) => RemoteStep::Add(url@),
        }
    }
}

/// What the set-up of a repository does after it has written the identity.
#[derive(Clone, Debug)]
pub struct InitPlan {
    /// Commit the generated README: only a repository without commits gets it.
    pub create_initial_commit: bool,
    pub remote: RemoteAction,
}

/// What to do about the remote `origin` for the address of the configuration.
pub open spec fn remote_step(remote_url: Option<String>, origin_exists: bool) -> RemoteStep {
    match remote_url {
        Some(url) => if url@.len() == 0 {
            RemoteStep::Keep
        } else if origin_exists {
            RemoteStep::SetUrl(url@)
        } else {
            RemoteStep::Add(url@)
        },
        None => RemoteStep::Keep,
    }
}

/// What the set-up of a repository does. It can be run again at any time: a
/// repository with commits gets no other first commit, and the remote is
/// set to the address of the configuration, where that has one.
pub fn plan_init(config: &Config, repository_is_empty: bool, origin_exists: bool) -> (r: InitPlan)
    ensures
        r.create_initial_commit == repository_is_empty,
        r.remote@ == remote_step(config.remote_url, origin_exists),
{
    let remote = match &config.remote_url {
        Some(url) => {
            if url.as_str().unicode_len() == 0 {
                RemoteAction::Keep
            } else if origin_exists {
                RemoteAction::SetUrl(url.clone())
            } else {
                RemoteAction::Add(url.clone())
            }
        },
        None => RemoteAction::Keep,
    };
    InitPlan { create_initial_commit: repository_is_empty, remote }
}

/// A conflict of the index: an entry of more than one stage, with the path
/// on each side on which the entry is present. It is present on one side at
/// least.
#[derive(Debug)]
pub struct IndexConflict {
    ancestor: Option<String>,
    our: Option<String>,
    their: Option<String>,
}

/// The path of a conflict with these sides: the one of the own side, else the
/// one of the other side, else the one of the common ancestor.
pub open spec fn side_path(
    ancestor: Option<String>,
    our: Option<String>,
    their: Option<String>,
) -> Option<Seq<char>> {
    match (our, their, ancestor) {
        (Some(path), _, _) => Some(path@),
        (None, Some(path), _) => Some(path@),
        (None, None, Some(path)) => Some(path@),
        (None, None, None) => None,
    }
}

impl Clone for IndexConflict {
    fn clone(&self) -> (r: Self)
        ensures
            r.path() == self.path(),
    {
        proof {
            use_type_invariant(self);
        }
        IndexConflict {
            ancestor: self.ancestor.clone(),
            our: self.our.clone(),
            their: self.their.clone(),
        }
    }
}

impl IndexConflict {
    /// The entry is present on a side: this holds of every conflict.
    #[verifier::type_invariant]
    pub closed spec fn wf(&self) -> bool {
        self.ancestor is Some || self.our is Some || self.their is Some
    }

    /// The path in conflict: the one of whichever side is present.
    pub closed spec fn path(&self) -> Seq<char> {
        match side_path(self.ancestor, self.our, self.their) {
            Some(path) => path,
            None => Seq::empty(),
        }
    }

    /// The conflict of an entry with these paths on its three sides; `None`
    /// where it is present on no side.
    pub fn new(ancestor: Option<String>, our: Option<String>, their: Option<String>) -> (r: Option<
        IndexConflict,
    >)
        ensures
            match side_path(ancestor, our, their) {
                Some(path) => r matches Some(conflict) && conflict.path() == path,
                None => r is None,
            },
    {
        if ancestor.is_none() && our.is_none() && their.is_none() {
            None
        } else {
            Some(IndexConflict { ancestor, our, their })
        }
    }

    /// The path in conflict.
    pub fn path_text(&self) -> (r: String)
        ensures
            r@ == self.path(),
    {
        match (&self.our, &self.their, &self.ancestor) {
            (Some(path), _, _) => path.clone(),
            (None, Some(path), _) => path.clone(),
            (None, None, Some(path)) => path.clone(),
            (None, None, None) => String::new(),
        }
    }
}

/// The paths of `paths` without repetition, each where it stands first.
pub open spec fn distinct(paths: Seq<Seq<char>>) -> Seq<Seq<char>>
    decreases paths.len(),
{
    if paths.len() == 0 {
        Seq::empty()
    } else {
        let before = distinct(paths.drop_last());
        if before.contains(paths.last()) {
            before
        } else {
            before.push(paths.last())
        }
    }
}

/// The path of each conflict of `v`.
pub open spec fn conflict_paths(v: Seq<IndexConflict>) -> Seq<Seq<char>> {
    Seq::new(v.len(), |i: int| v[i].path())
}

/// No path stands twice in `distinct`, the paths in it are those given, and
/// it is empty only where no path is given.
pub proof fn lemma_distinct(paths: Seq<Seq<char>>)
    ensures
        distinct(paths).no_duplicates(),
        forall|path: Seq<char>| #[trigger] distinct(paths).contains(path) <==> paths.contains(path),
        distinct(paths).len() > 0 <==> paths.len() > 0,
    decreases paths.len(),
{
    if paths.len() > 0 {
        let head = paths.drop_last();
        let before = distinct(head);
        let after = distinct(paths);
        lemma_distinct(head);
        assert forall|path: Seq<char>| #[trigger] after.contains(path) <==> paths.contains(
            path,
        ) by {
            assert(before.contains(path) <==> head.contains(path));
            if after.contains(path) {
                let i = choose|i: int| 0 <= i < after.len() && after[i] == path;
                if i < before.len() {
                    assert(before[i] == path);
                    assert(before.contains(path));
                    let j = choose|j: int| 0 <= j < head.len() && head[j] == path;
                    assert(paths[j] == path);
                } else {
                    assert(paths[paths.len() - 1] == path);
                }
            }
            if paths.contains(path) {
                let j = choose|j: int| 0 <= j < paths.len() && paths[j] == path;
                if j < head.len() {
                    assert(head[j] == path);
                    assert(before.contains(path));
                    let i = choose|i: int| 0 <= i < before.len() && before[i] == path;
                    assert(after[i] == path);
                } else if before.contains(path) {
                    let i = choose|i: int| 0 <= i < before.len() && before[i] == path;
                    assert(after[i] == path);
                } else {
                    assert(after[before.len() as int] == path);
                }
            }
        }
        assert forall|i: int, j: int| 0 <= i < after.len() && 0 <= j < after.len() && i
            != j implies after[i] != after[j] by {
            if i < before.len() && j < before.len() {
                assert(before[i] != before[j]);
            } else if i < before.len() {
                assert(before.contains(before[i]));
            } else if j < before.len() {
                assert(before.contains(before[j]));
            }
        }
        if before.contains(paths.last()) {
            assert(before.len() > 0);
        }
    }
}

/// The paths in conflict: for each conflict of the index its path, on
/// whichever side the entry is present, in the order in which the conflicts
/// were found and without repetition.
pub fn get_conflict_files(conflicts: &Vec<IndexConflict>) -> (r: Vec<String>)
    ensures
        string_views(r@) == distinct(conflict_paths(conflicts@)),
        r@.len() > 0 <==> conflicts@.len() > 0,
{
    let mut out: Vec<String> = Vec::new();
    let mut i: usize = 0;
    let ghost all = conflict_paths(conflicts@);
    assert(all.take(0) =~= Seq::<Seq<char>>::empty());
    assert(string_views(out@) =~= Seq::<Seq<char>>::empty());
    while i < conflicts.len()
        invariant
            i <= conflicts.len(),
            all == conflict_paths(conflicts@),
            string_views(out@) =~= distinct(all.take(i as int)),
        decreases conflicts.len() - i,
    {
        proof {
            let upto = all.take(i + 1);
            assert(upto.drop_last() =~= all.take(i as int));
            assert(upto.last() == conflicts@[i as int].path());
        }
        let ghost before = out@;
        let path = conflicts[i].path_text();
        if !is_listed(&out, &path) {
            out.push(path);
            assert(string_views(out@) =~= string_views(before).push(conflicts@[i as int].path()));
        }
        i += 1;
    }
    proof {
        assert(all.take(i as int) =~= all);
        lemma_distinct(all);
        assert(string_views(out@).len() == out@.len());
    }
    out
}

/// The three texts of a path in conflict: the one of the local branch, the
/// one of the branch merged in, and the one in the working tree. A text that
/// was not found is empty.
pub fn get_conflict_versions(
    local: Option<String>,
    remote: Option<String>,
    working: Option<String>,
) -> (r: (String, String, String))
    ensures
        r.0@ == text_or_empty(local),
        r.1@ == text_or_empty(remote),
        r.2@ == text_or_empty(working),
{
    (or_empty(local), or_empty(remote), or_empty(working))
}

/// The text found, and the empty text where none was found.
pub open spec fn text_or_empty(found: Option<String>) -> Seq<char> {
    match found {
        Some(content) => content@,
        None => Seq::empty(),
    }
}

fn or_empty(found: Option<String>) -> (r: String)
    ensures
        r@ == text_or_empty(found),
{
    match found {
        Some(content) => content,
        None => String::new(),
    }
}

/// Where a repository stands in the workflow of a merge.
#[derive(Clone, Copy, Debug, PartialEq, Eq, Structural)]
pub enum RepoState {
    /// Nothing is in conflict and no merge is under way.
    Clean,
    /// A path is in conflict.
    Conflicted,
    /// A merge is under way and every path of it is resolved.
    ResolvedPendingMerge,
}

/// What a pull found.
#[derive(Clone, Debug)]
pub enum PullOutcome {
    /// The local branch holds all that the remote one holds.
    UpToDate,
    /// The local branch was moved forward to the remote one.
    FastForward,
    /// The two branches have diverged: a merge is under way, with these
    /// conflicts in the index.
    Diverged(Vec<IndexConflict>),
}

/// The commit that completes a merge.
#[derive(Clone, Copy, Debug, PartialEq, Eq, Structural)]
pub struct MergeCommit {
    /// How many parents the commit has: the tip of the local branch and the
    /// tip that was merged in.
    pub parents: u8,
}

/// `s` without the path `path`.
pub open spec fn without_path(s: Seq<Seq<char>>, path: Seq<char>) -> Seq<Seq<char>>
    decreases s.len(),
{
    if s.len() == 0 {
        Seq::empty()
    } else if s.last() == path {
        without_path(s.drop_last(), path)
    } else {
        without_path(s.drop_last(), path).push(s.last())
    }
}

/// `s` without each of the paths `paths`.
pub open spec fn without_paths(s: Seq<Seq<char>>, paths: Seq<Seq<char>>) -> Seq<Seq<char>>
    decreases paths.len(),
{
    if paths.len() == 0 {
        s
    } else {
        without_path(without_paths(s, paths.drop_last()), paths.last())
    }
}

/// What stays of `s` without `path` are the other paths of `s`, without
/// repetition where `s` had none.
pub proof fn lemma_without_path(s: Seq<Seq<char>>, path: Seq<char>)
    ensures
        forall|other: Seq<char>| #[trigger]
            without_path(s, path).contains(other) <==> s.contains(other) && other != path,
        s.no_duplicates() ==> without_path(s, path).no_duplicates(),
        without_path(s, path).len() <= s.len(),
    decreases s.len(),
{
    if s.len() > 0 {
        let head = s.drop_last();
        let before = without_path(head, path);
        let after = without_path(s, path);
        lemma_without_path(head, path);
        assert forall|other: Seq<char>| #[trigger]
            after.contains(other) <==> s.contains(other) && other != path by {
            assert(before.contains(other) <==> head.contains(other) && other != path);
            if after.contains(other) {
                let i = choose|i: int| 0 <= i < after.len() && after[i] == other;
                if i < before.len() {
                    assert(before[i] == other);
                    assert(before.contains(other));
                    let j = choose|j: int| 0 <= j < head.len() && head[j] == other;
                    assert(s[j] == other);
                } else {
                    assert(s[s.len() - 1] == other);
                }
            }
            if s.contains(other) && other != path {
                let j = choose|j: int| 0 <= j < s.len() && s[j] == other;
                if j < head.len() {
                    assert(head[j] == other);
                    assert(before.contains(other));
                    let i = choose|i: int| 0 <= i < before.len() && before[i] == other;
                    assert(after[i] == other);
                } else {
                    assert(after[before.len() as int] == other);
                }
            }
        }
        if s.no_duplicates() {
            assert forall|i: int, j: int| 0 <= i < head.len() && 0 <= j < head.len() && i
                != j implies head[i] != head[j] by {
                assert(s[i] != s[j]);
            }
            assert(head.no_duplicates());
            if s.last() != path {
                assert forall|i: int, j: int| 0 <= i < after.len() && 0 <= j < after.len() && i
                    != j implies after[i] != after[j] by {
                    if i < before.len() && j < before.len() {
                        assert(before[i] != before[j]);
                    } else {
                        let k = if i < before.len() { i } else { j };
                        assert(before.contains(before[k]));
                        assert(head.contains(before[k]));
                        let m = choose|m: int| 0 <= m < head.len() && head[m] == before[k];
                        assert(s[m] != s[s.len() - 1]);
                    }
                }
            }
        }
    }
}

/// Nothing of `s` stays once each of its paths is taken out.
pub proof fn lemma_without_all(s: Seq<Seq<char>>, paths: Seq<Seq<char>>)
    ensures
        forall|other: Seq<char>| #[trigger]
            without_paths(s, paths).contains(other) <==> s.contains(other) && !paths.contains(
                other,
            ),
    decreases paths.len(),
{
    if paths.len() > 0 {
        let head = paths.drop_last();
        lemma_without_all(s, head);
        lemma_without_path(without_paths(s, head), paths.last());
        assert forall|other: Seq<char>| #[trigger]
            without_paths(s, paths).contains(other) <==> s.contains(other) && !paths.contains(
                other,
            ) by {
            assert(without_paths(s, head).contains(other) <==> s.contains(other) && !head.contains(
                other,
            ));
            if paths.contains(other) {
                let j = choose|j: int| 0 <= j < paths.len() && paths[j] == other;
                if j < head.len() {
                    assert(head[j] == other);
                }
            }
            if head.contains(other) {
                let j = choose|j: int| 0 <= j < head.len() && head[j] == other;
                assert(paths[j] == other);
            }
            if other == paths.last() {
                assert(paths[paths.len() - 1] == other);
            }
        }
    }
}

/// What is known of the conflicts of a repository: the paths still in
/// conflict, in the order in which they were found, and whether a merge is
/// under way.
#[derive(Debug)]
pub struct ConflictState {
    unresolved: Vec<String>,
    merging: bool,
}

impl ConflictState {
    /// No path is listed twice: this holds of every state.
    #[verifier::type_invariant]
    pub open spec fn wf(&self) -> bool {
        self.conflicts().no_duplicates()
    }

    /// The paths still in conflict, in the order in which they were found.
    pub closed spec fn conflicts(&self) -> Seq<Seq<char>> {
        string_views(self.unresolved@)
    }

    /// A merge is under way.
    pub closed spec fn merge_pending(&self) -> bool {
        self.merging
    }

    /// Where the repository stands.
    pub open spec fn state(&self) -> RepoState {
        if self.conflicts().len() > 0 {
            RepoState::Conflicted
        } else if self.merge_pending() {
            RepoState::ResolvedPendingMerge
        } else {
            RepoState::Clean
        }
    }

    /// The state of a repository of which this was seen: the conflicts of
    /// its index, and whether the head of a merge is recorded. A path is in
    /// conflict exactly where the index holds a conflict.
    pub fn observe(conflicts: &Vec<IndexConflict>, merge_pending: bool) -> (r: ConflictState)
        ensures
            r.conflicts() == distinct(conflict_paths(conflicts@)),
            r.merge_pending() == merge_pending,
            r.conflicts().len() > 0 <==> conflicts@.len() > 0,
    {
        let unresolved = get_conflict_files(conflicts);
        proof {
            lemma_distinct(conflict_paths(conflicts@));
        }
        ConflictState { unresolved, merging: merge_pending }
    }

    /// The state of a repository without conflicts and without a merge.
    pub fn clean() -> (r: ConflictState)
        ensures
            r.conflicts().len() == 0,
            !r.merge_pending(),
            r.state() == RepoState::Clean,
    {
        let unresolved: Vec<String> = Vec::new();
        assert(string_views(unresolved@) =~= Seq::<Seq<char>>::empty());
        ConflictState { unresolved, merging: false }
    }

    /// The state after a pull. A pull that finds the branches diverged leaves
    /// a merge under way with the paths of its conflicts in conflict; any
    /// other pull leaves the repository without conflicts and without a merge.
    pub fn after_pull(outcome: &PullOutcome) -> (r: ConflictState)
        ensures
            match outcome {
                PullOutcome::Diverged(conflicts) => {
                    &&& r.conflicts() == distinct(conflict_paths(conflicts@))
                    &&& r.merge_pending()
                    &&& r.conflicts().len() > 0 <==> conflicts@.len() > 0
                },
                _ => r.conflicts().len() == 0 && !r.merge_pending(),
            },
    {
        match outcome {
            PullOutcome::Diverged(conflicts) => ConflictState::observe(conflicts, true),
            _ => ConflictState::clean(),
        }
    }

    /// Where the repository stands.
    pub fn repo_state(&self) -> (r: RepoState)
        ensures
            r == self.state(),
    {
        assert(string_views(self.unresolved@).len() == self.unresolved@.len());
        if self.unresolved.len() > 0 {
            RepoState::Conflicted
        } else if self.merging {
            RepoState::ResolvedPendingMerge
        } else {
            RepoState::Clean
        }
    }

    /// Whether a path is in conflict.
    pub fn has_conflicts(&self) -> (b: bool)
        ensures
            b == (self.conflicts().len() > 0),
            b == (self.state() == RepoState::Conflicted),
    {
        assert(string_views(self.unresolved@).len() == self.unresolved@.len());
        self.unresolved.len() > 0
    }

    /// The paths in conflict, in the order in which they were found.
    pub fn list_conflicts(&self) -> (r: Vec<String>)
        ensures
            string_views(r@) == self.conflicts(),
    {
        let mut out: Vec<String> = Vec::new();
        let mut i: usize = 0;
        while i < self.unresolved.len()
            invariant
                i <= self.unresolved.len(),
                out.len() == i,
                forall|j: int| 0 <= j < i ==> (#[trigger] out@[j])@ == self.unresolved@[j]@,
            decreases self.unresolved.len() - i,
        {
            out.push(self.unresolved[i].clone());
            i += 1;
        }
        assert(string_views(out@) =~= string_views(self.unresolved@));
        out
    }

    /// Whether a push or a pull may run: not while a path is in conflict.
    pub fn may_sync(&self) -> (b: bool)
        ensures
            b == (self.state() != RepoState::Conflicted),
    {
        !self.has_conflicts()
    }

    /// The state after the path `path` was written and staged again: the path
    /// is no longer in conflict, and nothing else changes.
    pub fn resolve_conflict(&mut self, path: &str)
        ensures
            final(self).conflicts() == without_path(old(self).conflicts(), path@),
            final(self).merge_pending() == old(self).merge_pending(),
    {
        proof {
            use_type_invariant(&*self);
        }
        let ghost before = string_views(self.unresolved@);
        let target = String::from_str(path);
        let mut out: Vec<String> = Vec::new();
        let mut i: usize = 0;
        assert(before.take(0) =~= Seq::<Seq<char>>::empty());
        assert(string_views(out@) =~= Seq::<Seq<char>>::empty());
        while i < self.unresolved.len()
            invariant
                i <= self.unresolved.len(),
                before == string_views(self.unresolved@),
                target@ == path@,
                string_views(out@) =~= without_path(before.take(i as int), path@),
            decreases self.unresolved.len() - i,
        {
            proof {
                let upto = before.take(i + 1);
                assert(upto.drop_last() =~= before.take(i as int));
                assert(upto.last() == self.unresolved@[i as int]@);
            }
            let ghost kept = out@;
            if !(self.unresolved[i] == target) {
                out.push(self.unresolved[i].clone());
                assert(string_views(out@) =~= string_views(kept).push(self.unresolved@[i as int]@));
            }
            i += 1;
        }
        proof {
            assert(before.take(i as int) =~= before);
            lemma_without_path(before, path@);
        }
        self.unresolved = out;
    }

    /// Completes the merge: refused while a path is in conflict and where no
    /// merge is under way; else the merge is over, and the commit to create
    /// has two parents.
    pub fn complete_merge(&mut self) -> (r: Result<MergeCommit, StoreError>)
        ensures
            match old(self).state() {
                RepoState::Conflicted => {
                    &&& r == Err::<MergeCommit, StoreError>(StoreError::UnresolvedConflicts)
                    &&& final(self).conflicts() == old(self).conflicts()
                    &&& final(self).merge_pending() == old(self).merge_pending()
                },
                RepoState::Clean => r == Err::<MergeCommit, StoreError>(
                    StoreError::NoMergeInProgress,
                ) && final(self).state() == RepoState::Clean,
                RepoState::ResolvedPendingMerge => r == Ok::<MergeCommit, StoreError>(
                    MergeCommit { parents: 2 },
                ) && final(self).state() == RepoState::Clean,
            },
    {
        proof {
            use_type_invariant(&*self);
        }
        if self.has_conflicts() {
            return Err(StoreError::UnresolvedConflicts);
        }
        if !self.merging {
            return Err(StoreError::NoMergeInProgress);
        }
        self.merging = false;
        Ok(MergeCommit { parents: 2 })
    }
}

/// What a pull reports: success where it left no merge behind, and that the
/// merge is to be resolved by hand where it found the branches diverged.
pub fn pull_report(outcome: &PullOutcome) -> (r: Result<(), StoreError>)
    ensures
        r == (if outcome is Diverged {
            Err::<(), StoreError>(StoreError::MergeRequired)
        } else {
            Ok::<(), StoreError>(())
        }),
{
    match outcome {
        PullOutcome::Diverged(_) => Err(StoreError::MergeRequired),
        _ => Ok(()),
    }
}

/// The life of a conflict. After a pull that found the branches diverged and
/// left a conflict in the index, the repository is in conflict. Once each
/// path that is listed has been resolved, no path is in conflict and the
/// merge is still under way: the state in which `complete_merge` succeeds,
/// with a commit of two parents, and leaves the repository clean.
pub proof fn lemma_conflict_lifecycle(
    paths: Seq<Seq<char>>,
    pulled: ConflictState,
    resolved: ConflictState,
)
    requires
        paths.len() > 0,
        pulled.conflicts() == distinct(paths),
        pulled.merge_pending(),
        resolved.conflicts() == without_paths(pulled.conflicts(), pulled.conflicts()),
        resolved.merge_pending() == pulled.merge_pending(),
    ensures
        pulled.state() == RepoState::Conflicted,
        resolved.state() == RepoState::ResolvedPendingMerge,
{
    let listed = distinct(paths);
    lemma_distinct(paths);
    lemma_without_all(listed, listed);
    let rest = without_paths(listed, listed);
    if rest.len() > 0 {
        assert(rest.contains(rest[0]));
    }
}

} // verus!
