//! The provider of Pi coding agent sessions, stored under
//! `~/.pi/agent/sessions/`: what it is called, which logs are its own, and what
//! it does to them. Reading and removing files is left to the caller.

use vstd::prelude::*;

verus! {

/// The agent that a session belongs to.
#[derive(Clone, Copy, Debug, PartialEq, Eq, Structural)]
pub enum Source {
    Pi,
    Omp,
}

/// The names of a source.
pub struct SourceLabels {
    pub name: &'static str,
    pub list: &'static str,
    pub display: &'static str,
}

/// The namespaces in which references to sessions are made.
pub struct RefNamespaces {
    pub conversation: Option<&'static str>,
    pub project: &'static str,
}

/// How a session is resumed by its path.
pub struct PathResumeLauncher {
    pub program: &'static str,
    pub resume_flag: &'static str,
    pub fork_flag: &'static str,
}

/// The cache of parsed sessions.
pub struct SessionCache {
    pub directory: &'static str,
    pub magic: [u8; 8],
    pub schema_version: u32,
}

/// What a deletion took away.
#[derive(Clone, Copy, Debug, PartialEq, Eq, Structural)]
pub enum Deleted {
    JustTheSession,
}

/// A step of a deletion: what to do next, or how it ended.
#[derive(Debug)]
pub enum DeleteStep<E> {
    RequireOwned,
    RemoveFile,
    Finished(Result<Deleted, E>),
}

/// The step after `step`, which went as `outcome` says.
pub open spec fn next_delete_step<E>(step: DeleteStep<E>, outcome: Result<(), E>) -> DeleteStep<E> {
    match (step, outcome) {
        (DeleteStep::Finished(result), _) => DeleteStep::Finished(result),
        (_, Err(error)) => DeleteStep::Finished(Err(error)),
        (DeleteStep::RequireOwned, Ok(_)) => DeleteStep::RemoveFile,
        (DeleteStep::RemoveFile, Ok(_)) => DeleteStep::Finished(Ok(Deleted::JustTheSession)),
    }
}

/// A log, and the source that it belongs to, as far as it could be read.
pub type OwnerCheck<P, E> = (P, Result<Option<Source>, E>);

/// The logs of `checks` that belong to Pi, in order.
pub open spec fn owned_by_pi<P, E>(checks: Seq<OwnerCheck<P, E>>) -> Seq<P>
    decreases checks.len(),
{
    if checks.len() == 0 {
        Seq::empty()
    } else if checks.last().1 == Ok::<Option<Source>, E>(Some(Source::Pi)) {
        owned_by_pi(checks.drop_last()).push(checks.last().0)
    } else {
        owned_by_pi(checks.drop_last())
    }
}

/// The first of `checks` that failed is number `i`.
pub open spec fn first_failure<P, E>(checks: Seq<OwnerCheck<P, E>>, i: int) -> bool {
    &&& 0 <= i < checks.len()
    &&& checks[i].1 is Err
    &&& forall|j: int| 0 <= j < i ==> (#[trigger] checks[j]).1 is Ok
}

/// The logs of `checks` that belong to Pi. A log with a title slot of OMP belongs
/// to OMP whichever directory holds it, and is left for OMP to find. A log that
/// cannot be read ends the search with its error.
pub fn sessions_pi_owns_with_id<P, E>(checks: Vec<(P, Result<Option<Source>, E>)>) -> (owned:
    Result<Vec<P>, E>)
    ensures
        match owned {
            Ok(paths) => {
                &&& forall|i: int| 0 <= i < checks@.len() ==> (#[trigger] checks@[i]).1 is Ok
                &&& paths@ == owned_by_pi(checks@)
            },
            Err(error) => exists|i: int|
                first_failure(checks@, i) && (#[trigger] checks@[i]).1 == Err::<
                    Option<Source>,
                    E,
                >(error),
        },
{
    let mut owned: Vec<P> = Vec::new();
    let ghost all = checks@;
    assert(all.take(0) =~= Seq::<OwnerCheck<P, E>>::empty());
    for check in it: checks
        invariant
            it.seq() == all,
            owned@ == owned_by_pi(all.take(it.index() as int)),
            forall|i: int| 0 <= i < it.index() ==> (#[trigger] all[i]).1 is Ok,
    {
        let (path, owner) = check;
        let ghost n = it.index() as int;
        assert(all.take(n + 1).drop_last() =~= all.take(n));
        assert(all[n] == (path, owner));
        match owner {
            Ok(Some(Source::Pi)) => {
                owned.push(path);
            },
            Ok(_) => {},
            Err(error) => {
                assert(first_failure(all, n));
                return Err(error);
            },
        }
    }
    assert(all.take(all.len() as int) =~= all);
    Ok(owned)
}

/// Sessions of the Pi coding agent.
pub struct PiProvider;

impl PiProvider {
    pub fn source(&self) -> (source: Source)
        ensures
            source == Source::Pi,
    {
        Source::Pi
    }

    pub fn labels(&self) -> (labels: SourceLabels)
        ensures
            labels.name@ == "pi"@,
            labels.list@ == "Pi"@,
            labels.display@ == "Pi"@,
    {
        SourceLabels { name: "pi", list: "Pi", display: "Pi" }
    }

    pub fn ref_namespaces(&self) -> (namespaces: RefNamespaces)
        ensures
            namespaces.conversation is Some,
            namespaces.conversation.unwrap()@ == "agent-pi-v1"@,
            namespaces.project@ == "agent-pi-project-v1"@,
    {
        RefNamespaces { conversation: Some("agent-pi-v1"), project: "agent-pi-project-v1" }
    }

    pub fn storage(&self) -> (storage: Option<PiStorage>)
        ensures
            storage == Some(PiStorage),
    {
        Some(PiStorage)
    }

    pub fn launcher(&self) -> (launcher: PathResumeLauncher)
        ensures
            launcher.program@ == "pi"@,
            launcher.resume_flag@ == "--session"@,
            launcher.fork_flag@ == "--fork"@,
    {
        PathResumeLauncher { program: "pi", resume_flag: "--session", fork_flag: "--fork" }
    }

    /// The step of a deletion after `step`. It starts with
    /// [`DeleteStep::RequireOwned`], and the file is removed only after that has
    /// succeeded.
    pub fn delete_session<E>(&self, step: DeleteStep<E>, outcome: Result<(), E>) -> (next: DeleteStep<
        E,
    >)
        ensures
            next == next_delete_step(step, outcome),
    {
        match step {
            DeleteStep::Finished(result) => DeleteStep::Finished(result),
            DeleteStep::RequireOwned => match outcome {
                Ok(_) => DeleteStep::RemoveFile,
                Err(error) => DeleteStep::Finished(Err(error)),
            },
            DeleteStep::RemoveFile => match outcome {
                Ok(_) => DeleteStep::Finished(Ok(Deleted::JustTheSession)),
                Err(error) => DeleteStep::Finished(Err(error)),
            },
        }
    }

    /// A Pi session states its id in its header, not its file name, and two logs
    /// in one project may state the same id. Pi sessions resolve by id only once
    /// listed, so no query is answered as an id.
    pub fn is_session_id_shape(&self, _query: &str) -> (shape: bool)
        ensures
            !shape,
    {
        false
    }

    pub fn resolve_session_id<P, E>(&self, _session_id: &str) -> (session: Result<Option<P>, E>)
        ensures
            session == Ok::<Option<P>, E>(None),
    {
        Ok(None)
    }
}

/// Where Pi sessions are kept.
pub struct PiStorage;

impl PiStorage {
    pub fn source(&self) -> (source: Source)
        ensures
            source == Source::Pi,
    {
        Source::Pi
    }

    pub fn cache(&self) -> (cache: SessionCache)
        ensures
            cache.directory@ == "pi"@,
            cache.magic@ == seq![80u8, 73u8, 72u8, 73u8, 83u8, 84u8, 48u8, 49u8],
            cache.schema_version == 6,
    {
        let magic: [u8; 8] = [80, 73, 72, 73, 83, 84, 48, 49];
        assert(magic@ =~= seq![80u8, 73u8, 72u8, 73u8, 83u8, 84u8, 48u8, 49u8]);
        SessionCache { directory: "pi", magic, schema_version: 6 }
    }

    pub fn max_session_bytes(&self) -> (limit: Option<u64>)
        ensures
            limit is None,
    {
        None
    }
}

/// A file that Pi does not own survives a deletion aimed at it: where the
/// ownership check fails, the deletion ends with that error, and no outcome of a
/// later step changes that.
pub proof fn law_delete_spares_foreign_files<E>(error: E, later: Result<(), E>)
    ensures
        next_delete_step(DeleteStep::RequireOwned, Err(error)) == DeleteStep::Finished(
            Err::<Deleted, E>(error),
        ),
        next_delete_step(next_delete_step(DeleteStep::RequireOwned, Err(error)), later)
            == DeleteStep::Finished(Err::<Deleted, E>(error)),
{
}

/// A file is removed only as the step after a successful ownership check.
pub proof fn law_delete_removes_only_owned_files<E>(step: DeleteStep<E>, outcome: Result<(), E>)
    ensures
        next_delete_step(step, outcome) is RemoveFile <==> step is RequireOwned && outcome is Ok,
{
}

/// The logs that are found are logs of the search that belong to Pi, and none of
/// those is left out.
pub proof fn law_owned_by_pi<P, E>(checks: Seq<OwnerCheck<P, E>>, path: P)
    ensures
        owned_by_pi(checks).contains(path) <==> exists|i: int|
            0 <= i < checks.len() && (#[trigger] checks[i]).0 == path && checks[i].1 == Ok::<
                Option<Source>,
                E,
            >(Some(Source::Pi)),
        owned_by_pi(checks).len() <= checks.len(),
    decreases checks.len(),
{
    if checks.len() > 0 {
        let front = checks.drop_last();
        let old = owned_by_pi(front);
        let new = owned_by_pi(checks);
        law_owned_by_pi(front, path);
        let last = checks.len() - 1;
        if new.contains(path) {
            let k = choose|k: int| 0 <= k < new.len() && new[k] == path;
            if k < old.len() {
                assert(old[k] == path);
                let i = choose|i: int|
                    0 <= i < front.len() && (#[trigger] front[i]).0 == path && front[i].1 == Ok::<
                        Option<Source>,
                        E,
                    >(Some(Source::Pi));
                assert(checks[i] == front[i]);
            } else {
                assert(checks[last].0 == path);
            }
        }
        if exists|i: int|
            0 <= i < checks.len() && (#[trigger] checks[i]).0 == path && checks[i].1 == Ok::<
                Option<Source>,
                E,
            >(Some(Source::Pi)) {
            let i = choose|i: int|
                0 <= i < checks.len() && (#[trigger] checks[i]).0 == path && checks[i].1 == Ok::<
                    Option<Source>,
                    E,
                >(Some(Source::Pi));
            if i < last {
                assert(front[i] == checks[i]);
                let k = choose|k: int| 0 <= k < old.len() && old[k] == path;
                assert(new[k] == path);
            } else {
                assert(new[new.len() - 1] == path);
            }
        }
    }
}

/// A log is found in its place: searching two lists one behind the other finds what
/// is found in each, and of one log it finds the log where it belongs to Pi.
pub proof fn law_logs_are_found_in_order<P, E>(
    a: Seq<OwnerCheck<P, E>>,
    b: Seq<OwnerCheck<P, E>>,
    check: OwnerCheck<P, E>,
)
    ensures
        owned_by_pi(a + b) == owned_by_pi(a) + owned_by_pi(b),
        check.1 == Ok::<Option<Source>, E>(Some(Source::Pi)) ==> owned_by_pi(seq![check])
            == seq![check.0],
        check.1 != Ok::<Option<Source>, E>(Some(Source::Pi)) ==> owned_by_pi(seq![check])
            == Seq::<P>::empty(),
    decreases b.len(),
{
    let empty = Seq::<OwnerCheck<P, E>>::empty();
    assert(seq![check].drop_last() =~= empty);
    assert(owned_by_pi(empty) =~= Seq::<P>::empty());
    assert(Seq::<P>::empty().push(check.0) =~= seq![check.0]);
    if b.len() == 0 {
        assert(a + b =~= a);
        assert(owned_by_pi(a) + owned_by_pi(b) =~= owned_by_pi(a));
    } else {
        assert((a + b).drop_last() =~= a + b.drop_last());
        law_logs_are_found_in_order(a, b.drop_last(), check);
        assert(owned_by_pi(a + b) =~= owned_by_pi(a) + owned_by_pi(b));
    }
}

/// A search has one first failure at most: a check that failed, where no earlier one
/// did.
pub proof fn law_first_failure<P, E>(checks: Seq<OwnerCheck<P, E>>, i: int, j: int)
    requires
        first_failure(checks, i),
    ensures
        0 <= i < checks.len(),
        checks[i].1 is Err,
        0 <= j < i ==> checks[j].1 is Ok,
        first_failure(checks, j) ==> i == j,
{
    if 0 <= j < i {
        assert(checks[j].1 is Ok);
    }
    if first_failure(checks, j) && i < j {
        assert(checks[i].1 is Ok);
    }
}

/// A deletion that goes well checks the owner, removes the file and is done; the first
/// error ends it; and what is done stays done.
pub proof fn law_delete_steps<E>(error: E, outcome: Result<(), E>, result: Result<Deleted, E>)
    ensures
        next_delete_step(DeleteStep::RequireOwned, Ok::<(), E>(())) is RemoveFile,
        next_delete_step(DeleteStep::RemoveFile, Ok::<(), E>(())) == DeleteStep::<E>::Finished(
            Ok(Deleted::JustTheSession),
        ),
        next_delete_step(DeleteStep::RequireOwned, Err(error)) == DeleteStep::Finished(
            Err::<Deleted, E>(error),
        ),
        next_delete_step(DeleteStep::RemoveFile, Err(error)) == DeleteStep::Finished(
            Err::<Deleted, E>(error),
        ),
        next_delete_step(DeleteStep::Finished(result), outcome) == DeleteStep::Finished(result),
{
}

} // verus!
