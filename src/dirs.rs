use vstd::prelude::*;

verus! {

/// What stands at a directory path before the run.
#[derive(PartialEq, Eq, Structural, Debug, Clone, Copy)]
pub enum DirState {
    Directory,
    File,
    Missing,
}

/// What to do with a directory path.
#[derive(PartialEq, Eq, Structural, Debug, Clone, Copy)]
pub enum DirAction {
    Keep,
    Create,
}

/// A configured directory is an existing regular file: fatal, never overwritten.
#[derive(PartialEq, Eq, Structural, Debug, Clone, Copy)]
pub enum ConfigError {
    NotADirectory(usize),
}

/// An existing directory is kept, a missing one is created, and a file in
/// its place is refused (`None`).
pub fn dir_exists_or_create(state: DirState) -> (r: Option<DirAction>)
    ensures
        r == match state {
            DirState::Directory => Some(DirAction::Keep),
            DirState::Missing => Some(DirAction::Create),
            DirState::File => None::<DirAction>,
        },
{
    match state {
        DirState::Directory => Some(DirAction::Keep),
        DirState::Missing => Some(DirAction::Create),
        DirState::File => None,
    }
}

/// The positions of the missing directories, in order.
pub open spec fn missing_dirs(s: Seq<DirState>) -> Seq<usize>
    decreases s.len(),
{
    if s.len() == 0 {
        Seq::empty()
    } else if s.last() == DirState::Missing {
        missing_dirs(s.drop_last()).push((s.len() - 1) as usize)
    } else {
        missing_dirs(s.drop_last())
    }
}

/// Checks the configured directories before any work: the positions to
/// create, or the first position where a file stands instead.
pub fn verify_directories_exist(states: Vec<DirState>) -> (r: Result<Vec<usize>, ConfigError>)
    ensures
        match r {
            Ok(v) => (forall|j: int| 0 <= j < states@.len() ==> states@[j] != DirState::File)
                && v@ == missing_dirs(states@),
            Err(ConfigError::NotADirectory(i)) => i < states@.len() && states@[i as int]
                == DirState::File && forall|j: int| 0 <= j < i ==> states@[j] != DirState::File,
        },
{
    let mut create: Vec<usize> = Vec::new();
    let mut i: usize = 0;
    while i < states.len()
        invariant
            i <= states@.len(),
            forall|j: int| 0 <= j < i ==> states@[j] != DirState::File,
            create@ == missing_dirs(states@.subrange(0, i as int)),
        decreases states@.len() - i,
    {
        assert(states@.subrange(0, i + 1).drop_last() =~= states@.subrange(0, i as int));
        match dir_exists_or_create(states[i]) {
            None => {
                return Err(ConfigError::NotADirectory(i));
            },
            Some(DirAction::Create) => {
                create.push(i);
            },
            Some(DirAction::Keep) => {},
        }
        i = i + 1;
    }
    assert(states@.subrange(0, i as int) =~= states@);
    Ok(create)
}

} // verus!
