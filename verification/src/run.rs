//! The run over a tree of files: which files are rewritten, with what, and
//! on which condition a run aborts.
//!
//! The walker and the file reads and writes live outside the library; they
//! hand in each regular file's path and content and write back what the run
//! yields. A run that aborts yields no rewritten tree at all.

use vstd::prelude::*;

use crate::link::LinkTemplate;
use crate::link::build_link;
use crate::link::placeholder_bytes;
use crate::link::strip_git_suffix;
use crate::link::stripped_url;
use crate::link::template_link;
use crate::link::template_placeholder;
use crate::text::ends_with;
use crate::text::no_stray_first_byte;
use crate::text::occurrences;
use crate::text::replace_all;
use crate::text::replaced;
use crate::text::sub_bytes;
use crate::text::lemma_no_occurrence_unchanged;
use crate::text::lemma_replacement_complete;
use crate::vcs::RunError;

verus! {

/// The recognized extension of a source file: `.rs`.
pub open spec fn source_extension() -> Seq<u8> {
    seq![46u8, 114u8, 115u8]
}

/// A regular file, by its path and its textual content.
pub struct SourceFile {
    pub path: Vec<u8>,
    pub content: Vec<u8>,
}

impl View for SourceFile {
    type V = (Seq<u8>, Seq<u8>);

    open spec fn view(&self) -> (Seq<u8>, Seq<u8>) {
        (self.path@, self.content@)
    }
}

/// The three facts about the environment that the version-control queries
/// answer: the repository root, and, when resolved, the remote origin URL
/// and the current branch.
pub struct RepoFacts {
    pub root: Vec<u8>,
    pub remote: Option<Vec<u8>>,
    pub branch: Option<Vec<u8>>,
}

impl RepoFacts {
    /// The remote origin URL, when one is configured.
    pub open spec fn remote_view(&self) -> Option<Seq<u8>> {
        match self.remote {
            Some(u) => Some(u@),
            None => None,
        }
    }

    /// The current branch, when one is resolved.
    pub open spec fn branch_view(&self) -> Option<Seq<u8>> {
        match self.branch {
            Some(b) => Some(b@),
            None => None,
        }
    }
}

/// True when a walker entry is processed: a regular file whose name ends in
/// the recognized extension.
pub open spec fn selected(is_file: bool, path: Seq<u8>) -> bool {
    is_file && source_extension().is_suffix_of(path)
}

/// The path of `path` relative to `root`: what follows the separator after
/// the root prefix; nothing when `path` does not lie under `root`.
pub open spec fn rel_path_of(path: Seq<u8>, root: Seq<u8>) -> Option<Seq<u8>> {
    if root.len() < path.len() && path.take(root.len() as int) == root && path[root.len() as int]
        == 47u8 {
        Some(path.skip(root.len() + 1int))
    } else {
        None
    }
}

/// What processing one regular file yields: its content after the run, or
/// the error on which the run aborts. A file that the extension filter does
/// not select keeps its content. For a selected file, in the order in which
/// the facts are read, an unresolved branch, a path that does not lie under
/// the repository root, and a missing remote are fatal; otherwise every
/// occurrence of the template's placeholder is replaced by the template's
/// link, built from the stripped remote URL, the branch and the relative
/// path.
pub open spec fn file_outcome(
    path: Seq<u8>,
    content: Seq<u8>,
    root: Seq<u8>,
    remote: Option<Seq<u8>>,
    branch: Option<Seq<u8>>,
    t: LinkTemplate,
) -> Result<Seq<u8>, RunError> {
    if !source_extension().is_suffix_of(path) {
        Ok(content)
    } else if branch is None {
        Err(RunError::NoBranch)
    } else if rel_path_of(path, root) is None {
        Err(RunError::FileOutsideRoot)
    } else if remote is None {
        Err(RunError::NoRemote)
    } else {
        Ok(
            replaced(
                content,
                template_placeholder(t),
                template_link(t, stripped_url(remote->0), branch->0, rel_path_of(path, root)->0),
            ),
        )
    }
}

/// Decides whether a walker entry is processed.
pub fn should_process(is_file: bool, path: &Vec<u8>) -> (r: bool)
    ensures
        r == selected(is_file, path@),
{
    if !is_file {
        return false;
    }
    let mut ext: Vec<u8> = Vec::new();
    ext.push(46);
    ext.push(114);
    ext.push(115);
    proof {
        assert(ext@ =~= source_extension());
    }
    ends_with(path, &ext)
}

/// The path relative to the repository root, when the path lies under it.
pub fn relative_to_root(path: &Vec<u8>, root: &Vec<u8>) -> (r: Option<Vec<u8>>)
    ensures
        match r {
            Some(v) => rel_path_of(path@, root@) == Some(v@),
            None => rel_path_of(path@, root@) is None,
        },
{
    let n = path.len();
    if root.len() >= n {
        return None;
    }
    let mut j: usize = 0;
    while j < root.len()
        invariant
            n == path@.len(),
            root@.len() < n,
            0 <= j <= root@.len(),
            forall|k: int| 0 <= k < j ==> path@[k] == root@[k],
        decreases root@.len() - j,
    {
        if path[j] != root[j] {
            proof {
                assert(path@.take(root@.len() as int)[j as int] != root@[j as int]);
            }
            return None;
        }
        j += 1;
    }
    proof {
        assert(path@.take(root@.len() as int) =~= root@);
    }
    if path[root.len()] != 47 {
        return None;
    }
    let rel = sub_bytes(path, root.len() + 1, n);
    proof {
        assert(rel@ =~= path@.skip(root@.len() as int + 1));
    }
    Some(rel)
}

/// Processes one regular file against the given facts: the rewritten
/// content, or the error on which the run aborts.
pub fn process_file(file: &SourceFile, facts: &RepoFacts, t: LinkTemplate) -> (r: Result<
    Vec<u8>,
    RunError,
>)
    ensures
        match r {
            Ok(c) => file_outcome(
                file.path@,
                file.content@,
                facts.root@,
                facts.remote_view(),
                facts.branch_view(),
                t,
            ) == Ok::<Seq<u8>, RunError>(c@),
            Err(e) => file_outcome(
                file.path@,
                file.content@,
                facts.root@,
                facts.remote_view(),
                facts.branch_view(),
                t,
            ) == Err::<Seq<u8>, RunError>(e),
        },
{
    if !should_process(true, &file.path) {
        let c = sub_bytes(&file.content, 0, file.content.len());
        proof {
            assert(c@ =~= file.content@);
        }
        return Ok(c);
    }
    let branch = match &facts.branch {
        Some(b) => b,
        None => { return Err(RunError::NoBranch) },
    };
    let rel = match relative_to_root(&file.path, &facts.root) {
        Some(v) => v,
        None => { return Err(RunError::FileOutsideRoot) },
    };
    let remote = match &facts.remote {
        Some(u) => u,
        None => { return Err(RunError::NoRemote) },
    };
    let url = strip_git_suffix(remote);
    let link = build_link(t, &url, branch, &rel);
    let pat = placeholder_bytes(t);
    let out = replace_all(&file.content, &pat, &link);
    Ok(out)
}

/// The files as (path, content) pairs.
pub open spec fn views_of(files: Seq<SourceFile>) -> Seq<(Seq<u8>, Seq<u8>)> {
    files.map_values(|f: SourceFile| f@)
}

/// What a whole run yields: each file's outcome in order, or the first
/// error, on which the run yields no rewritten tree at all.
pub open spec fn run_outcome(
    files: Seq<(Seq<u8>, Seq<u8>)>,
    root: Seq<u8>,
    remote: Option<Seq<u8>>,
    branch: Option<Seq<u8>>,
    t: LinkTemplate,
) -> Result<Seq<(Seq<u8>, Seq<u8>)>, RunError>
    decreases files.len(),
{
    if files.len() == 0 {
        Ok(Seq::empty())
    } else {
        match file_outcome(files[0].0, files[0].1, root, remote, branch, t) {
            Err(e) => Err(e),
            Ok(c) => match run_outcome(files.skip(1), root, remote, branch, t) {
                Err(e) => Err(e),
                Ok(rest) => Ok(seq![(files[0].0, c)] + rest),
            },
        }
    }
}

/// A run's outcome, given what the already processed files yielded and what
/// the rest of the run yields.
pub open spec fn run_continuation(
    done: Seq<(Seq<u8>, Seq<u8>)>,
    rest: Result<Seq<(Seq<u8>, Seq<u8>)>, RunError>,
) -> Result<Seq<(Seq<u8>, Seq<u8>)>, RunError> {
    match rest {
        Ok(r) => Ok(done + r),
        Err(e) => Err(e),
    }
}

/// Runs the substitution over every handed-in regular file: the rewritten
/// tree in order, or the first error, in which case no rewritten tree is
/// yielded and nothing is to be written back.
pub fn run(files: &Vec<SourceFile>, facts: &RepoFacts, t: LinkTemplate) -> (r: Result<
    Vec<SourceFile>,
    RunError,
>)
    ensures
        match r {
            Ok(out) => run_outcome(
                views_of(files@),
                facts.root@,
                facts.remote_view(),
                facts.branch_view(),
                t,
            ) == Ok::<Seq<(Seq<u8>, Seq<u8>)>, RunError>(views_of(out@)),
            Err(e) => run_outcome(
                views_of(files@),
                facts.root@,
                facts.remote_view(),
                facts.branch_view(),
                t,
            ) == Err::<Seq<(Seq<u8>, Seq<u8>)>, RunError>(e),
        },
{
    let ghost full = views_of(files@);
    let ghost root = facts.root@;
    let ghost remote = facts.remote_view();
    let ghost branch = facts.branch_view();
    let mut out: Vec<SourceFile> = Vec::new();
    let mut i: usize = 0;
    proof {
        assert(views_of(files@).skip(0) =~= full);
        assert(views_of(out@) =~= Seq::<(Seq<u8>, Seq<u8>)>::empty());
        assert(run_outcome(full, root, remote, branch, t) == run_continuation(
            views_of(out@),
            run_outcome(views_of(files@).skip(0), root, remote, branch, t),
        )) by {
            match run_outcome(full, root, remote, branch, t) {
                Ok(res) => {
                    assert(Seq::<(Seq<u8>, Seq<u8>)>::empty() + res =~= res);
                },
                Err(_) => {},
            }
        }
    }
    while i < files.len()
        invariant
            0 <= i <= files@.len(),
            root == facts.root@,
            remote == facts.remote_view(),
            branch == facts.branch_view(),
            full == views_of(files@),
            run_outcome(full, root, remote, branch, t) == run_continuation(
                views_of(out@),
                run_outcome(views_of(files@).skip(i as int), root, remote, branch, t),
            ),
        decreases files@.len() - i,
    {
        let ghost rem = views_of(files@).skip(i as int);
        proof {
            assert(rem.len() > 0);
            assert(rem[0] == files@[i as int]@);
            assert(rem.skip(1) =~= views_of(files@).skip(i + 1));
        }
        let f = &files[i];
        match process_file(f, facts, t) {
            Ok(c) => {
                let ghost out_before = out@;
                let path = sub_bytes(&f.path, 0, f.path.len());
                proof {
                    assert(path@ =~= f.path@);
                }
                out.push(SourceFile { path, content: c });
                proof {
                    assert(file_outcome(rem[0].0, rem[0].1, root, remote, branch, t)
                        == Ok::<Seq<u8>, RunError>(c@));
                    assert(views_of(out@) =~= views_of(out_before) + seq![(f.path@, c@)]);
                    match run_outcome(rem.skip(1), root, remote, branch, t) {
                        Ok(rest) => {
                            assert(run_outcome(rem, root, remote, branch, t)
                                == Ok::<Seq<(Seq<u8>, Seq<u8>)>, RunError>(
                                seq![(f.path@, c@)] + rest,
                            ));
                            assert(views_of(out_before) + (seq![(f.path@, c@)] + rest)
                                =~= (views_of(out_before) + seq![(f.path@, c@)]) + rest);
                        },
                        Err(_) => {},
                    }
                }
                i += 1;
            },
            Err(e) => {
                proof {
                    assert(file_outcome(rem[0].0, rem[0].1, root, remote, branch, t)
                        == Err::<Seq<u8>, RunError>(e));
                    assert(run_outcome(rem, root, remote, branch, t)
                        == Err::<Seq<(Seq<u8>, Seq<u8>)>, RunError>(e));
                }
                return Err(e);
            },
        }
    }
    proof {
        assert(views_of(files@).skip(i as int) =~= Seq::<(Seq<u8>, Seq<u8>)>::empty());
        assert(run_outcome(Seq::<(Seq<u8>, Seq<u8>)>::empty(), root, remote, branch, t)
            == Ok::<Seq<(Seq<u8>, Seq<u8>)>, RunError>(Seq::empty()));
        assert(views_of(out@) + Seq::<(Seq<u8>, Seq<u8>)>::empty() =~= views_of(out@));
    }
    Ok(out)
}

/// A completed run, pointwise: it yields as many files as it was handed,
/// keeps every path, and each yielded content is its file's own outcome.
pub proof fn lemma_run_pointwise(
    files: Seq<(Seq<u8>, Seq<u8>)>,
    root: Seq<u8>,
    remote: Option<Seq<u8>>,
    branch: Option<Seq<u8>>,
    t: LinkTemplate,
    out: Seq<(Seq<u8>, Seq<u8>)>,
)
    requires
        run_outcome(files, root, remote, branch, t) == Ok::<Seq<(Seq<u8>, Seq<u8>)>, RunError>(
            out,
        ),
    ensures
        out.len() == files.len(),
        forall|k: int| 0 <= k < files.len() ==> (#[trigger] out[k]).0 == files[k].0,
        forall|k: int|
            0 <= k < files.len() ==> file_outcome(files[k].0, files[k].1, root, remote, branch, t)
                == Ok::<Seq<u8>, RunError>((#[trigger] out[k]).1),
    decreases files.len(),
{
    if files.len() == 0 {
    } else {
        match file_outcome(files[0].0, files[0].1, root, remote, branch, t) {
            Ok(c) => match run_outcome(files.skip(1), root, remote, branch, t) {
                Ok(rest) => {
                    lemma_run_pointwise(files.skip(1), root, remote, branch, t, rest);
                    assert(out == seq![(files[0].0, c)] + rest);
                    assert forall|k: int| 0 <= k < files.len() implies (#[trigger] out[k]).0
                        == files[k].0 && file_outcome(files[k].0, files[k].1, root, remote,
                        branch, t) == Ok::<Seq<u8>, RunError>(out[k].1) by {
                        if k >= 1 {
                            assert(files.skip(1)[k - 1] == files[k]);
                            assert(out[k] == rest[k - 1]);
                        }
                    }
                },
                Err(_) => {},
            },
            Err(_) => {},
        }
    }
}

/// Law: filter correctness. A completed run leaves every file whose name
/// does not end in the recognized extension with its content byte-identical
/// to before.
pub proof fn lemma_run_preserves_unselected(
    files: Seq<(Seq<u8>, Seq<u8>)>,
    root: Seq<u8>,
    remote: Option<Seq<u8>>,
    branch: Option<Seq<u8>>,
    t: LinkTemplate,
    out: Seq<(Seq<u8>, Seq<u8>)>,
)
    requires
        run_outcome(files, root, remote, branch, t) == Ok::<Seq<(Seq<u8>, Seq<u8>)>, RunError>(
            out,
        ),
    ensures
        out.len() == files.len(),
        forall|k: int|
            0 <= k < files.len() && !source_extension().is_suffix_of(files[k].0) ==> (
            #[trigger] out[k]) == files[k],
{
    lemma_run_pointwise(files, root, remote, branch, t, out);
    assert forall|k: int|
        0 <= k < files.len() && !source_extension().is_suffix_of(files[k].0) implies (
    #[trigger] out[k]) == files[k] by {
        assert(file_outcome(files[k].0, files[k].1, root, remote, branch, t)
            == Ok::<Seq<u8>, RunError>(files[k].1));
        assert(out[k].0 == files[k].0 && out[k].1 == files[k].1);
    }
}

/// Law: content-stable fixed point. A second run over a completed run's
/// output yields that output unchanged, provided the placeholder does not
/// reappear in any rewritten file.
pub proof fn lemma_run_idempotent(
    files: Seq<(Seq<u8>, Seq<u8>)>,
    root: Seq<u8>,
    remote: Option<Seq<u8>>,
    branch: Option<Seq<u8>>,
    t: LinkTemplate,
    out: Seq<(Seq<u8>, Seq<u8>)>,
)
    requires
        run_outcome(files, root, remote, branch, t) == Ok::<Seq<(Seq<u8>, Seq<u8>)>, RunError>(
            out,
        ),
        forall|k: int|
            0 <= k < out.len() ==> occurrences((#[trigger] out[k]).1, template_placeholder(t))
                == 0,
    ensures
        run_outcome(out, root, remote, branch, t) == Ok::<Seq<(Seq<u8>, Seq<u8>)>, RunError>(out),
    decreases files.len(),
{
    if files.len() == 0 {
        assert(out =~= Seq::<(Seq<u8>, Seq<u8>)>::empty());
    } else {
        match file_outcome(files[0].0, files[0].1, root, remote, branch, t) {
            Ok(c) => match run_outcome(files.skip(1), root, remote, branch, t) {
                Ok(rest) => {
                    let path = files[0].0;
                    assert(out == seq![(path, c)] + rest);
                    assert(out[0] == (path, c));
                    assert forall|k: int|
                        0 <= k < rest.len() implies occurrences(
                        (#[trigger] rest[k]).1,
                        template_placeholder(t),
                    ) == 0 by {
                        assert(out[k + 1] == rest[k]);
                    }
                    lemma_run_idempotent(files.skip(1), root, remote, branch, t, rest);
                    if source_extension().is_suffix_of(path) {
                        lemma_no_occurrence_unchanged(
                            c,
                            template_placeholder(t),
                            template_link(
                                t,
                                stripped_url(remote->0),
                                branch->0,
                                rel_path_of(path, root)->0,
                            ),
                        );
                    }
                    assert(file_outcome(out[0].0, out[0].1, root, remote, branch, t)
                        == Ok::<Seq<u8>, RunError>(c));
                    assert(out.skip(1) =~= rest);
                    assert(seq![(out[0].0, c)] + rest =~= out);
                },
                Err(_) => {},
            },
            Err(_) => {},
        }
    }
}

/// Law: no-op on content. A file whose content holds no occurrence of the
/// template's placeholder is, whenever its run succeeds, rewritten with its
/// content byte-identical.
pub proof fn lemma_file_without_placeholder_unchanged(
    path: Seq<u8>,
    content: Seq<u8>,
    root: Seq<u8>,
    remote: Option<Seq<u8>>,
    branch: Option<Seq<u8>>,
    t: LinkTemplate,
)
    requires
        occurrences(content, template_placeholder(t)) == 0,
    ensures
        file_outcome(path, content, root, remote, branch, t) matches Ok(c) ==> c == content,
{
    if source_extension().is_suffix_of(path) && branch is Some && rel_path_of(path, root) is Some
        && remote is Some {
        lemma_no_occurrence_unchanged(
            content,
            template_placeholder(t),
            template_link(t, stripped_url(remote->0), branch->0, rel_path_of(path, root)->0),
        );
    }
}

/// Law: replacement completeness. A selected file whose content held `n`
/// occurrences of the template's placeholder holds, after its rewrite, no
/// occurrence of the placeholder and exactly `n` of the link, under the
/// provisos of `lemma_replacement_complete`: the link cannot rebuild the
/// placeholder across boundaries, and the link's first byte stood nowhere in
/// the content but at the placeholder's occurrences.
pub proof fn lemma_file_replacement_counts(
    path: Seq<u8>,
    content: Seq<u8>,
    root: Seq<u8>,
    remote: Option<Seq<u8>>,
    branch: Option<Seq<u8>>,
    t: LinkTemplate,
    n: nat,
)
    requires
        source_extension().is_suffix_of(path),
        branch is Some,
        remote is Some,
        rel_path_of(path, root) is Some,
        occurrences(content, template_placeholder(t)) == n,
        ({
            let pat = template_placeholder(t);
            let link = template_link(t, stripped_url(remote->0), branch->0, rel_path_of(path, root)->0);
            &&& link.len() >= pat.len()
            &&& link.take(pat.len() as int) != pat
            &&& forall|i: int| 1 <= i < link.len() ==> link[i] != pat[0]
            &&& forall|k: int| 1 <= k < pat.len() ==> pat[k] != link[0]
            &&& no_stray_first_byte(content, pat, link)
        }),
    ensures
        ({
            let pat = template_placeholder(t);
            let link = template_link(t, stripped_url(remote->0), branch->0, rel_path_of(path, root)->0);
            let rewritten = replaced(content, pat, link);
            &&& file_outcome(path, content, root, remote, branch, t) == Ok::<Seq<u8>, RunError>(
                rewritten,
            )
            &&& occurrences(rewritten, pat) == 0
            &&& occurrences(rewritten, link) == n
        }),
{
    let pat = template_placeholder(t);
    let link = template_link(t, stripped_url(remote->0), branch->0, rel_path_of(path, root)->0);
    assert(pat.len() > 0);
    lemma_replacement_complete(content, pat, link, n);
}

/// Law: fail fast without a remote. When no remote origin URL is configured
/// and the tree holds at least one selected file, the run yields an error
/// and no rewritten tree: nothing is to be written back, so no file is
/// touched.
pub proof fn lemma_run_fails_without_remote(
    files: Seq<(Seq<u8>, Seq<u8>)>,
    root: Seq<u8>,
    branch: Option<Seq<u8>>,
    t: LinkTemplate,
)
    requires
        exists|k: int|
            0 <= k < files.len() && source_extension().is_suffix_of((#[trigger] files[k]).0),
    ensures
        run_outcome(files, root, None, branch, t) is Err,
    decreases files.len(),
{
    let k = choose|k: int|
        0 <= k < files.len() && source_extension().is_suffix_of((#[trigger] files[k]).0);
    if source_extension().is_suffix_of(files[0].0) {
        assert(file_outcome(files[0].0, files[0].1, root, None, branch, t) is Err);
    } else {
        assert(k >= 1);
        assert(files.skip(1)[k - 1] == files[k]);
        assert(source_extension().is_suffix_of(files.skip(1)[k - 1].0));
        lemma_run_fails_without_remote(files.skip(1), root, branch, t);
    }
}

} // verus!
