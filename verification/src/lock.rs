use vstd::prelude::*;

verus! {

/// Why a lock could not be taken or used.
#[derive(Clone, Copy, Debug, PartialEq, Eq, Structural)]
pub enum LockError {
    /// Another writer holds the lock.
    LockHeld,
    /// The lock artifact could not be created, or the lock is not held.
    LockIoFailure,
}

/// What came of an attempt to create the lock artifact exclusively.
#[derive(Clone, Copy, Debug, PartialEq, Eq, Structural)]
pub enum CreateOutcome {
    /// The artifact did not exist and was created.
    Created,
    /// The artifact exists already.
    AlreadyExists,
    /// The attempt failed for another reason.
    Failed,
}

/// The lock artifact of one path, as every writer sees it.
#[derive(Clone, Copy, Debug)]
pub struct LockArtifact {
    present: bool,
}

impl LockArtifact {
    /// Whether the artifact exists.
    pub closed spec fn present(&self) -> bool {
        self.present
    }

    /// No artifact: nobody holds the lock.
    pub fn new() -> (a: LockArtifact)
        ensures
            !a.present(),
    {
        LockArtifact { present: false }
    }

    /// Whether the artifact exists.
    pub fn is_present(&self) -> (r: bool)
        ensures
            r == self.present(),
    {
        self.present
    }

    /// Creates the artifact unless it exists, in one step.
    pub fn create_exclusive(&mut self) -> (r: CreateOutcome)
        ensures
            final(self).present(),
            r == create_outcome(old(self).present()),
    {
        if self.present {
            CreateOutcome::AlreadyExists
        } else {
            self.present = true;
            CreateOutcome::Created
        }
    }

    /// Removes the artifact.
    pub fn remove(&mut self)
        ensures
            !final(self).present(),
    {
        self.present = false;
    }
}

/// What an exclusive creation gives, by whether the artifact is there already.
pub open spec fn create_outcome(present: bool) -> CreateOutcome {
    if present {
        CreateOutcome::AlreadyExists
    } else {
        CreateOutcome::Created
    }
}

/// What `hold_for_update` answers, by whether this writer holds the lock already
/// and what came of creating the artifact.
pub open spec fn hold_result(held: bool, outcome: CreateOutcome) -> Result<(), LockError> {
    if held {
        Ok(())
    } else {
        match outcome {
            CreateOutcome::Created => Ok(()),
            CreateOutcome::AlreadyExists => Err(LockError::LockHeld),
            CreateOutcome::Failed => Err(LockError::LockIoFailure),
        }
    }
}

/// A path under the lock discipline, as every writer sees it: what the path
/// holds, if it holds anything, and the lock artifact of the path.
#[derive(Debug)]
pub struct LockedPath {
    content: Option<Vec<u8>>,
    artifact: LockArtifact,
}

impl LockedPath {
    /// What the path holds; `None` where nothing was published yet.
    pub closed spec fn content(&self) -> Option<Seq<u8>> {
        match self.content {
            Some(bytes) => Some(bytes@),
            None => None,
        }
    }

    /// Whether the lock artifact of the path exists.
    pub closed spec fn locked(&self) -> bool {
        self.artifact.present()
    }

    /// A path that holds nothing and is not locked.
    pub fn new() -> (path: LockedPath)
        ensures
            path.content() is None,
            !path.locked(),
    {
        LockedPath { content: None, artifact: LockArtifact::new() }
    }

    /// What the path holds.
    pub fn read(&self) -> (r: Option<&[u8]>)
        ensures
            match r {
                Some(bytes) => self.content() == Some(bytes@),
                None => self.content() is None,
            },
    {
        match &self.content {
            Some(bytes) => Some(bytes.as_slice()),
            None => None,
        }
    }

    /// Whether the lock artifact of the path exists.
    pub fn is_locked(&self) -> (r: bool)
        ensures
            r == self.locked(),
    {
        self.artifact.is_present()
    }

    /// Creates the lock artifact unless it exists, in one step. What the path
    /// holds stays.
    pub fn create_exclusive(&mut self) -> (r: CreateOutcome)
        ensures
            r == create_outcome(old(self).locked()),
            final(self).locked(),
            final(self).content() == old(self).content(),
    {
        self.artifact.create_exclusive()
    }

    /// Publishes new content in one step: the path holds `content` from now on,
    /// and the lock artifact, which became the path, is gone.
    pub fn publish(&mut self, content: Vec<u8>)
        ensures
            final(self).content() == Some(content@),
            !final(self).locked(),
    {
        self.content = Some(content);
        self.artifact.remove();
    }

    /// Removes the lock artifact. What the path holds stays.
    pub fn unlock(&mut self)
        ensures
            !final(self).locked(),
            final(self).content() == old(self).content(),
    {
        self.artifact.remove();
    }
}

/// What an attempt to take the lock answers, by whether the writer holds the
/// lock already and whether the artifact exists.
pub open spec fn acquire_result(held: bool, present: bool) -> Result<(), LockError> {
    hold_result(held, create_outcome(present))
}

/// Whether the writer holds the lock, and whether the artifact exists, after an
/// attempt to take the lock.
pub open spec fn after_acquire(held: bool, present: bool) -> (bool, bool) {
    (held || !present, present || !held)
}

/// Whether the writer holds the lock, and whether the artifact exists, after
/// the writer gave the lock up: a writer that held it has removed the artifact.
pub open spec fn after_release(held: bool, present: bool) -> (bool, bool) {
    (false, present && !held)
}

/// One writer's side of a path's lock: whether it holds the lock, and the new
/// content that it has staged for the path.
#[derive(Debug)]
pub struct Lockfile {
    held: bool,
    staged: Vec<u8>,
}

impl Lockfile {
    /// Whether this writer holds the lock.
    pub closed spec fn is_held(&self) -> bool {
        self.held
    }

    /// The content staged so far.
    pub closed spec fn staged(&self) -> Seq<u8> {
        self.staged@
    }

    /// A writer that does not hold the lock.
    pub fn new() -> (lock: Lockfile)
        ensures
            !lock.is_held(),
            lock.staged() == Seq::<u8>::empty(),
    {
        Lockfile { held: false, staged: Vec::new() }
    }

    /// Whether this writer holds the lock.
    pub fn held(&self) -> (r: bool)
        ensures
            r == self.is_held(),
    {
        self.held
    }

    /// Takes the lock, given what came of creating the artifact. A writer that
    /// holds the lock already keeps it, whatever `outcome` says. Otherwise the
    /// lock is taken only if the artifact was created; nothing is waited for.
    pub fn hold_for_update(&mut self, outcome: CreateOutcome) -> (r: Result<(), LockError>)
        ensures
            r == hold_result(old(self).is_held(), outcome),
            final(self).is_held() == (r is Ok),
            old(self).is_held() ==> final(self).staged() == old(self).staged(),
            !old(self).is_held() ==> final(self).staged() == Seq::<u8>::empty(),
    {
        if self.held {
            return Ok(());
        }
        match outcome {
            CreateOutcome::Created => {
                self.held = true;
                self.staged = Vec::new();
                Ok(())
            },
            CreateOutcome::AlreadyExists => {
                self.staged = Vec::new();
                Err(LockError::LockHeld)
            },
            CreateOutcome::Failed => {
                self.staged = Vec::new();
                Err(LockError::LockIoFailure)
            },
        }
    }

    /// Stages `data` behind what is staged already. Fails, and stages nothing,
    /// unless the lock is held.
    pub fn write_bytes(&mut self, data: &[u8]) -> (r: Result<(), LockError>)
        ensures
            final(self).is_held() == old(self).is_held(),
            old(self).is_held() ==> r is Ok && final(self).staged() == old(self).staged() + data@,
            !old(self).is_held() ==> r == Err::<(), LockError>(LockError::LockIoFailure)
                && final(self).staged() == old(self).staged(),
    {
        if !self.held {
            return Err(LockError::LockIoFailure);
        }
        let mut i: usize = 0;
        while i < data.len()
            invariant
                i <= data@.len(),
                self.held,
                self.staged@ == old(self).staged@ + data@.subrange(0, i as int),
            decreases data@.len() - i,
        {
            self.staged.push(data[i]);
            assert(self.staged@ =~= old(self).staged@ + data@.subrange(0, i + 1));
            i += 1;
        }
        assert(data@.subrange(0, i as int) =~= data@);
        Ok(())
    }

    /// Gives up the lock and hands out the staged content, which the caller
    /// publishes over the path in one step. Fails unless the lock is held.
    pub fn commit(&mut self) -> (r: Result<Vec<u8>, LockError>)
        ensures
            !final(self).is_held(),
            final(self).staged() == Seq::<u8>::empty(),
            match r {
                Ok(content) => old(self).is_held() && content@ == old(self).staged(),
                Err(e) => !old(self).is_held() && e == LockError::LockIoFailure,
            },
    {
        let mut content: Vec<u8> = Vec::new();
        std::mem::swap(&mut content, &mut self.staged);
        if !self.held {
            self.staged = Vec::new();
            return Err(LockError::LockIoFailure);
        }
        self.held = false;
        Ok(content)
    }

    /// Tries to take the lock by creating the artifact, unless this writer
    /// holds the lock already. Fails at once with `LockHeld` where the
    /// artifact exists.
    pub fn acquire(&mut self, artifact: &mut LockArtifact) -> (r: Result<(), LockError>)
        ensures
            r == acquire_result(old(self).is_held(), old(artifact).present()),
            (final(self).is_held(), final(artifact).present()) == after_acquire(
                old(self).is_held(),
                old(artifact).present(),
            ),
            old(self).is_held() ==> final(self).staged() == old(self).staged(),
            !old(self).is_held() ==> final(self).staged() == Seq::<u8>::empty(),
    {
        if self.held {
            return Ok(());
        }
        let outcome = artifact.create_exclusive();
        self.hold_for_update(outcome)
    }

    /// Gives the lock up, and removes the artifact if this writer held the
    /// lock. Hands out what was staged, to be published or dropped; `None` where
    /// the lock was not held.
    pub fn release(&mut self, artifact: &mut LockArtifact) -> (content: Option<Vec<u8>>)
        ensures
            (final(self).is_held(), final(artifact).present()) == after_release(
                old(self).is_held(),
                old(artifact).present(),
            ),
            final(self).staged() == Seq::<u8>::empty(),
            match content {
                Some(bytes) => old(self).is_held() && bytes@ == old(self).staged(),
                None => !old(self).is_held(),
            },
    {
        match self.commit() {
            Ok(bytes) => {
                artifact.remove();
                Some(bytes)
            },
            Err(_) => None,
        }
    }

    /// Gives up the lock and drops the staged content: the path keeps what it had.
    pub fn rollback(&mut self)
        ensures
            !final(self).is_held(),
            final(self).staged() == Seq::<u8>::empty(),
    {
        self.held = false;
        self.staged = Vec::new();
    }
}

/// Locking: where nobody holds the lock, a first writer takes it. While it
/// holds the lock, the attempt of a second writer fails at once with
/// `LockHeld`, and changes nothing. After the first writer gave the lock up, the
/// attempt of the second writer succeeds.
pub proof fn lemma_lock_excludes()
    ensures
        ({
            let (first_held, present) = after_acquire(false, false);
            let (second_held, still_present) = after_acquire(false, present);
            let (released, present_after) = after_release(first_held, still_present);
            &&& acquire_result(false, false) == Ok::<(), LockError>(())
            &&& first_held
            &&& acquire_result(false, present) == Err::<(), LockError>(LockError::LockHeld)
            &&& !second_held
            &&& still_present
            &&& !released
            &&& acquire_result(false, present_after) == Ok::<(), LockError>(())
        }),
{
}

} // verus!
