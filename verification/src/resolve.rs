use crate::commit::{Commit, parse_commit};
use crate::encoding::texts_view;
use crate::envelope::ObjectKind;
use crate::object_id::{ObjectId, hex_text, ids_view};
use crate::refs::{RefValueView, Refs, head_name, read_ref_spec};
use crate::revision::{Base, BaseView, Operator, parse, parse_revision};
use crate::keyed::map_of;
use crate::store::{ContentStore, StoreError, StoredView, ids_with_prefix, lookup};
use vstd::prelude::*;
use vstd::string::StringExecFns;

verus! {

/// Why a revision expression did not resolve.
#[derive(Clone, Copy, Debug, PartialEq, Eq, Structural)]
pub enum RevisionError {
    /// An abbreviated id matches more than one stored object.
    AmbiguousRevision,
    /// A commit has fewer parents than an operator asks for.
    InvalidParent,
    /// The expression is not well-formed, or its base names nothing.
    UnresolvedRevision,
    /// An operator was applied to an id under which nothing is stored.
    ObjectNotFound,
    /// An operator was applied to an object that is not a readable commit.
    ObjectCorrupt,
}

/// One diagnostic: its kind, the candidates of an ambiguous id, and its message
/// and hints in words.
pub struct DiagnosticView {
    pub kind: RevisionError,
    pub candidates: Seq<Seq<u8>>,
    pub message: Seq<char>,
    pub hint: Seq<Seq<char>>,
}

/// The message of a diagnostic of a kind, for an expression.
pub open spec fn message_text(kind: RevisionError, expression: Seq<char>) -> Seq<char> {
    match kind {
        RevisionError::AmbiguousRevision => "Short object id is ambiguous in '"@ + expression
            + "'."@,
        RevisionError::InvalidParent => "No such parent in '"@ + expression + "'."@,
        RevisionError::UnresolvedRevision => "Not a valid object name: '"@ + expression + "'."@,
        RevisionError::ObjectNotFound => "Object not found for '"@ + expression + "'."@,
        RevisionError::ObjectCorrupt => "Not a readable commit for '"@ + expression + "'."@,
    }
}

/// The hints that name the candidates of an ambiguous id: a heading, and one
/// line for each candidate with its id in text form. No hints without
/// candidates.
pub open spec fn hint_text(candidates: Seq<Seq<u8>>) -> Seq<Seq<char>> {
    if candidates.len() == 0 {
        Seq::empty()
    } else {
        seq!["The candidates are:"@] + Seq::new(
            candidates.len(),
            |i: int| "  "@ + hex_text(candidates[i]),
        )
    }
}

/// The diagnostic of a kind, with candidates, for an expression.
pub open spec fn diagnostic(
    kind: RevisionError,
    candidates: Seq<Seq<u8>>,
    expression: Seq<char>,
) -> DiagnosticView {
    DiagnosticView {
        kind,
        candidates,
        message: message_text(kind, expression),
        hint: hint_text(candidates),
    }
}

/// One diagnostic of a failed resolution.
#[derive(Debug)]
pub struct Diagnostic {
    kind: RevisionError,
    candidates: Vec<ObjectId>,
    message: String,
    hint: Vec<String>,
}

impl View for Diagnostic {
    type V = DiagnosticView;

    closed spec fn view(&self) -> DiagnosticView {
        DiagnosticView {
            kind: self.kind,
            candidates: ids_view(self.candidates@),
            message: self.message@,
            hint: texts_view(self.hint@),
        }
    }
}

impl Diagnostic {
    /// The diagnostic of a kind, with candidates, for an expression.
    pub fn new(kind: RevisionError, candidates: Vec<ObjectId>, expression: &str) -> (d: Diagnostic)
        ensures
            d@ == diagnostic(kind, ids_view(candidates@), expression@),
    {
        let start = match kind {
            RevisionError::AmbiguousRevision => "Short object id is ambiguous in '",
            RevisionError::InvalidParent => "No such parent in '",
            RevisionError::UnresolvedRevision => "Not a valid object name: '",
            RevisionError::ObjectNotFound => "Object not found for '",
            RevisionError::ObjectCorrupt => "Not a readable commit for '",
        };
        let mut message = String::from_str(start);
        message.append(expression);
        message.append("'.");
        let mut hint: Vec<String> = Vec::new();
        if candidates.len() > 0 {
            hint.push(String::from_str("The candidates are:"));
            let mut i: usize = 0;
            while i < candidates.len()
                invariant
                    i <= candidates@.len(),
                    hint@.len() == i + 1,
                    hint@[0]@ == "The candidates are:"@,
                    forall|k: int|
                        0 <= k < i ==> (#[trigger] hint@[k + 1])@ == "  "@ + hex_text(
                            candidates@[k]@,
                        ),
                decreases candidates@.len() - i,
            {
                let mut line = String::from_str("  ");
                let text = candidates[i].to_hex();
                line.append(text.as_str());
                hint.push(line);
                i += 1;
            }
        }
        proof {
            let want = hint_text(ids_view(candidates@));
            let have = texts_view(hint@);
            if candidates@.len() > 0 {
                assert(have.len() == want.len());
                assert forall|k: int| 0 <= k < have.len() implies have[k] == want[k] by {
                    if k > 0 {
                        assert(hint@[(k - 1) + 1]@ == "  "@ + hex_text(candidates@[k - 1]@));
                    }
                }
            }
            assert(have =~= want);
        }
        Diagnostic { kind, candidates, message, hint }
    }

    /// The kind of the diagnostic.
    pub fn kind(&self) -> (r: RevisionError)
        ensures
            r == self@.kind,
    {
        self.kind
    }

    /// The candidates of an ambiguous id.
    pub fn candidates(&self) -> (r: &Vec<ObjectId>)
        ensures
            ids_view(r@) == self@.candidates,
    {
        &self.candidates
    }

    /// The message.
    pub fn message(&self) -> (r: &str)
        ensures
            r@ == self@.message,
    {
        self.message.as_str()
    }

    /// The hints.
    pub fn hint(&self) -> (r: &Vec<String>)
        ensures
            texts_view(r@) == self@.hint,
    {
        &self.hint
    }
}

/// The parents of the commit stored under `id`.
pub open spec fn parents_of(files: Map<Seq<u8>, Seq<u8>>, id: Seq<u8>) -> Result<
    Seq<Seq<u8>>,
    RevisionError,
> {
    match lookup(files, id) {
        Err(e) => if e == StoreError::ObjectNotFound {
            Err(RevisionError::ObjectNotFound)
        } else {
            Err(RevisionError::ObjectCorrupt)
        },
        Ok((kind, data)) => if kind != ObjectKind::Commit {
            Err(RevisionError::ObjectCorrupt)
        } else {
            match parse_commit(data) {
                None => Err(RevisionError::ObjectCorrupt),
                Some(c) => Ok(c.parents),
            }
        },
    }
}

/// The parent number `n`, counted from 1, of the commit stored under `id`.
pub open spec fn nth_parent(files: Map<Seq<u8>, Seq<u8>>, id: Seq<u8>, n: nat) -> Result<
    Seq<u8>,
    RevisionError,
> {
    match parents_of(files, id) {
        Err(e) => Err(e),
        Ok(parents) => if 1 <= n <= parents.len() {
            Ok(parents[n - 1])
        } else {
            Err(RevisionError::InvalidParent)
        },
    }
}

/// The commit reached from `id` by going to the first parent `n` times.
pub open spec fn ancestor(files: Map<Seq<u8>, Seq<u8>>, id: Seq<u8>, n: nat) -> Result<
    Seq<u8>,
    RevisionError,
>
    decreases n,
{
    if n == 0 {
        Ok(id)
    } else {
        match nth_parent(files, id, 1) {
            Err(e) => Err(e),
            Ok(parent) => ancestor(files, parent, (n - 1) as nat),
        }
    }
}

/// The commit that one operator leads to from `id`.
pub open spec fn step(files: Map<Seq<u8>, Seq<u8>>, id: Seq<u8>, op: Operator) -> Result<
    Seq<u8>,
    RevisionError,
> {
    match op {
        Operator::Parent => nth_parent(files, id, 1),
        Operator::ParentN(n) => nth_parent(files, id, n as nat),
        Operator::AncestorN(n) => ancestor(files, id, n as nat),
    }
}

/// The id that the base of an expression stands for, or the kind of its failure
/// with the candidates of an ambiguous id. `HEAD` and ref names are read from
/// the refs. An abbreviated id stands for the one stored object that it
/// matches.
pub open spec fn base_id(
    objects: Seq<StoredView>,
    refs: Map<Seq<u8>, RefValueView>,
    hops: nat,
    base: BaseView,
) -> Result<Seq<u8>, (RevisionError, Seq<Seq<u8>>)> {
    match base {
        BaseView::Head => match read_ref_spec(refs, head_name(), hops) {
            Some(id) => Ok(id),
            None => Err((RevisionError::UnresolvedRevision, Seq::empty())),
        },
        BaseView::Ref(name) => match read_ref_spec(refs, name, hops) {
            Some(id) => Ok(id),
            None => Err((RevisionError::UnresolvedRevision, Seq::empty())),
        },
        BaseView::ObjectId(prefix) => {
            let found = ids_with_prefix(objects, prefix);
            if found.len() == 1 {
                Ok(found[0])
            } else if found.len() == 0 {
                Err((RevisionError::UnresolvedRevision, Seq::empty()))
            } else {
                Err((RevisionError::AmbiguousRevision, found))
            }
        },
    }
}

/// Where the operators from position `i` on lead from `current`, and what goes
/// wrong on the way. After the first failure no commit is left to go on from;
/// of the operators behind it, those that no commit could satisfy, `^0`, are
/// still reported.
pub open spec fn walk(
    files: Map<Seq<u8>, Seq<u8>>,
    current: Option<Seq<u8>>,
    ops: Seq<Operator>,
    i: int,
) -> (Option<Seq<u8>>, Seq<RevisionError>)
    decreases ops.len() - i,
{
    if i < 0 || i >= ops.len() {
        (current, Seq::empty())
    } else {
        match current {
            Some(id) => match step(files, id, ops[i]) {
                Ok(next) => walk(files, Some(next), ops, i + 1),
                Err(kind) => (None, seq![kind] + walk(files, None, ops, i + 1).1),
            },
            None => if ops[i] == Operator::ParentN(0) {
                (None, seq![RevisionError::InvalidParent] + walk(files, None, ops, i + 1).1)
            } else {
                (None, walk(files, None, ops, i + 1).1)
            },
        }
    }
}

/// A diagnostic without candidates for each kind, in order.
pub open spec fn plain_diagnostics(kinds: Seq<RevisionError>, expression: Seq<char>) -> Seq<
    DiagnosticView,
> {
    Seq::new(kinds.len(), |i: int| diagnostic(kinds[i], Seq::empty(), expression))
}

/// What resolving an expression gives: the id that it names, or every
/// diagnostic met. An expression that is not well-formed gives one diagnostic,
/// `UnresolvedRevision`. Else the base is resolved, and the operators are
/// applied from left to right.
pub open spec fn resolve_spec(
    objects: Seq<StoredView>,
    refs: Map<Seq<u8>, RefValueView>,
    hops: nat,
    expression: Seq<char>,
) -> Result<Seq<u8>, Seq<DiagnosticView>> {
    match parse_revision(vstd::utf8::encode_utf8(expression)) {
        None => Err(seq![diagnostic(RevisionError::UnresolvedRevision, Seq::empty(), expression)]),
        Some(revision) => match base_id(objects, refs, hops, revision.base) {
            Ok(id) => {
                let (end, kinds) = walk(map_of(objects), Some(id), revision.operators, 0);
                match end {
                    Some(found) => Ok(found),
                    None => Err(plain_diagnostics(kinds, expression)),
                }
            },
            Err((kind, candidates)) => Err(
                seq![diagnostic(kind, candidates, expression)] + plain_diagnostics(
                    walk(map_of(objects), None, revision.operators, 0).1,
                    expression,
                ),
            ),
        },
    }
}

/// Diagnostics as values.
pub open spec fn diagnostics_view(diagnostics: Seq<Diagnostic>) -> Seq<DiagnosticView> {
    Seq::new(diagnostics.len(), |i: int| diagnostics[i]@)
}

fn read_parents(store: &ContentStore, id: &ObjectId) -> (r: Result<Vec<ObjectId>, RevisionError>)
    requires
        store.wf(),
    ensures
        match r {
            Ok(parents) => parents_of(store.files(), id@) == Ok::<Seq<Seq<u8>>, RevisionError>(
                ids_view(parents@),
            ),
            Err(e) => parents_of(store.files(), id@) == Err::<Seq<Seq<u8>>, RevisionError>(e),
        },
{
    let (kind, data) = match store.get(id) {
        Ok(object) => object,
        Err(StoreError::ObjectNotFound) => {
            return Err(RevisionError::ObjectNotFound);
        },
        Err(_) => {
            return Err(RevisionError::ObjectCorrupt);
        },
    };
    match kind {
        ObjectKind::Commit => {},
        _ => {
            return Err(RevisionError::ObjectCorrupt);
        },
    }
    match Commit::parse(data.as_slice()) {
        None => Err(RevisionError::ObjectCorrupt),
        Some(commit) => {
            let mut parents: Vec<ObjectId> = Vec::new();
            let given = commit.parents();
            let mut i: usize = 0;
            while i < given.len()
                invariant
                    i <= given@.len(),
                    parents@ == given@.subrange(0, i as int),
                decreases given@.len() - i,
            {
                parents.push(given[i]);
                assert(parents@ =~= given@.subrange(0, i + 1));
                i += 1;
            }
            assert(parents@ =~= given@);
            Ok(parents)
        },
    }
}

fn read_nth_parent(store: &ContentStore, id: &ObjectId, n: u32) -> (r: Result<
    ObjectId,
    RevisionError,
>)
    requires
        store.wf(),
    ensures
        match r {
            Ok(parent) => nth_parent(store.files(), id@, n as nat) == Ok::<Seq<u8>, RevisionError>(
                parent@,
            ),
            Err(e) => nth_parent(store.files(), id@, n as nat) == Err::<Seq<u8>, RevisionError>(e),
        },
{
    let parents = match read_parents(store, id) {
        Ok(parents) => parents,
        Err(e) => {
            return Err(e);
        },
    };
    if n >= 1 && (n as usize) <= parents.len() {
        Ok(parents[(n - 1) as usize])
    } else {
        Err(RevisionError::InvalidParent)
    }
}

fn apply(store: &ContentStore, id: ObjectId, op: Operator) -> (r: Result<ObjectId, RevisionError>)
    requires
        store.wf(),
    ensures
        match r {
            Ok(next) => step(store.files(), id@, op) == Ok::<Seq<u8>, RevisionError>(next@),
            Err(e) => step(store.files(), id@, op) == Err::<Seq<u8>, RevisionError>(e),
        },
{
    match op {
        Operator::Parent => read_nth_parent(store, &id, 1),
        Operator::ParentN(n) => read_nth_parent(store, &id, n),
        Operator::AncestorN(n) => {
            let mut current = id;
            let mut left: u32 = n;
            while left > 0
                invariant
                    store.wf(),
                    op == Operator::AncestorN(n),
                    ancestor(store.files(), id@, n as nat) == ancestor(
                        store.files(),
                        current@,
                        left as nat,
                    ),
                decreases left,
            {
                match read_nth_parent(store, &current, 1) {
                    Ok(parent) => {
                        current = parent;
                    },
                    Err(e) => {
                        return Err(e);
                    },
                }
                left -= 1;
            }
            Ok(current)
        },
    }
}

fn resolve_base(store: &ContentStore, refs: &Refs, base: &Base) -> (r: Result<
    ObjectId,
    (RevisionError, Vec<ObjectId>),
>)
    requires
        store.wf(),
        refs.wf(),
    ensures
        match r {
            Ok(id) => base_id(store.objects(), refs.table(), refs.hops(), base@) == Ok::<
                Seq<u8>,
                (RevisionError, Seq<Seq<u8>>),
            >(id@),
            Err((kind, candidates)) => base_id(store.objects(), refs.table(), refs.hops(), base@)
                == Err::<Seq<u8>, (RevisionError, Seq<Seq<u8>>)>((kind, ids_view(candidates@))),
        },
{
    match base {
        Base::Head => match refs.read_head() {
            Some(id) => Ok(id),
            None => {
                let none: Vec<ObjectId> = Vec::new();
                assert(ids_view(none@) =~= Seq::<Seq<u8>>::empty());
                Err((RevisionError::UnresolvedRevision, none))
            },
        },
        Base::Ref(name) => match refs.read_ref(name.as_slice()) {
            Some(id) => Ok(id),
            None => {
                let none: Vec<ObjectId> = Vec::new();
                assert(ids_view(none@) =~= Seq::<Seq<u8>>::empty());
                Err((RevisionError::UnresolvedRevision, none))
            },
        },
        Base::ObjectId(prefix) => {
            let found = store.find_by_prefix(prefix.as_slice());
            if found.len() == 1 {
                Ok(found[0])
            } else if found.len() == 0 {
                assert(ids_view(found@) =~= Seq::<Seq<u8>>::empty());
                Err((RevisionError::UnresolvedRevision, found))
            } else {
                Err((RevisionError::AmbiguousRevision, found))
            }
        },
    }
}

/// Resolves a revision expression to the id that it names. On failure every
/// diagnostic met is given, not only the first.
#[verifier::loop_isolation(false)]
pub fn resolve(store: &ContentStore, refs: &Refs, expression: &str) -> (r: Result<
    ObjectId,
    Vec<Diagnostic>,
>)
    requires
        store.wf(),
        refs.wf(),
    ensures
        match r {
            Ok(id) => resolve_spec(store.objects(), refs.table(), refs.hops(), expression@) == Ok::<
                Seq<u8>,
                Seq<DiagnosticView>,
            >(id@),
            Err(diagnostics) => resolve_spec(
                store.objects(),
                refs.table(),
                refs.hops(),
                expression@,
            ) == Err::<Seq<u8>, Seq<DiagnosticView>>(diagnostics_view(diagnostics@)),
        },
{
    let mut diagnostics: Vec<Diagnostic> = Vec::new();
    let revision = match parse(expression.as_bytes()) {
        Some(revision) => revision,
        None => {
            diagnostics.push(
                Diagnostic::new(RevisionError::UnresolvedRevision, Vec::new(), expression),
            );
            assert(diagnostics_view(diagnostics@) =~= seq![
                diagnostic(RevisionError::UnresolvedRevision, Seq::empty(), expression@),
            ]) by {
                assert(ids_view(Seq::<ObjectId>::empty()) =~= Seq::<Seq<u8>>::empty());
            }
            return Err(diagnostics);
        },
    };
    let ghost files = store.files();
    let ghost ops = revision.operators@;
    let ghost based = base_id(store.objects(), refs.table(), refs.hops(), revision.base@);
    let mut current: Option<ObjectId> = match resolve_base(store, refs, &revision.base) {
        Ok(id) => {
            assert(diagnostics_view(diagnostics@) =~= Seq::<DiagnosticView>::empty());
            Some(id)
        },
        Err((kind, candidates)) => {
            let ghost found = ids_view(candidates@);
            diagnostics.push(Diagnostic::new(kind, candidates, expression));
            assert(diagnostics_view(diagnostics@) =~= seq![
                diagnostic(kind, found, expression@),
            ]);
            None
        },
    };
    let ghost start: Option<Seq<u8>> = match current {
        Some(id) => Some(id@),
        None => None,
    };
    let ghost head = diagnostics_view(diagnostics@);
    let ghost mut kinds: Seq<RevisionError> = Seq::empty();
    assert(head + plain_diagnostics(kinds, expression@) =~= head);
    let mut i: usize = 0;
    while i < revision.operators.len()
        invariant
            i <= ops.len(),
            ops == revision.operators@,
            store.wf(),
            files == store.files(),
            start is None ==> current is None,
            diagnostics_view(diagnostics@) == head + plain_diagnostics(kinds, expression@),
            current is Some ==> kinds.len() == 0,
            walk(files, start, ops, 0) == (
                walk(
                    files,
                    match current {
                        Some(id) => Some(id@),
                        None => None,
                    },
                    ops,
                    i as int,
                ).0,
                kinds + walk(
                    files,
                    match current {
                        Some(id) => Some(id@),
                        None => None,
                    },
                    ops,
                    i as int,
                ).1,
            ),
        decreases ops.len() - i,
    {
        let op = revision.operators[i];
        let failed: Option<RevisionError> = match current {
            Some(id) => match apply(store, id, op) {
                Ok(next) => {
                    current = Some(next);
                    None
                },
                Err(kind) => {
                    current = None;
                    Some(kind)
                },
            },
            None => match op {
                Operator::ParentN(0) => Some(RevisionError::InvalidParent),
                _ => None,
            },
        };
        match failed {
            Some(kind) => {
                let ghost before = diagnostics_view(diagnostics@);
                diagnostics.push(Diagnostic::new(kind, Vec::new(), expression));
                proof {
                    assert(ids_view(Seq::<ObjectId>::empty()) =~= Seq::<Seq<u8>>::empty());
                    let rest = walk(files, None, ops, i + 1).1;
                    assert(kinds + (seq![kind] + rest) =~= kinds.push(kind) + rest);
                    assert(diagnostics_view(diagnostics@) =~= before.push(
                        diagnostic(kind, Seq::empty(), expression@),
                    ));
                    assert(before.push(diagnostic(kind, Seq::empty(), expression@)) =~= head
                        + plain_diagnostics(kinds.push(kind), expression@));
                    kinds = kinds.push(kind);
                }
            },
            None => {},
        }
        i += 1;
    }
    assert(kinds + Seq::<RevisionError>::empty() =~= kinds);
    assert(parse_revision(vstd::utf8::encode_utf8(expression@)) == Some(revision@));
    assert(walk(files, start, ops, 0).1 == kinds);
    assert(plain_diagnostics(Seq::<RevisionError>::empty(), expression@) =~= Seq::<
        DiagnosticView,
    >::empty());
    match current {
        Some(id) => {
            if diagnostics.len() == 0 {
                Ok(id)
            } else {
                Err(diagnostics)
            }
        },
        None => Err(diagnostics),
    }
}

/// What a walk ends at, by what the last step gives.
pub open spec fn reached(r: Result<Seq<u8>, RevisionError>) -> Option<Seq<u8>> {
    match r {
        Ok(id) => Some(id),
        Err(_) => None,
    }
}

/// `~N` leads where `^` leads when it is written N times: a walk over
/// operators that are all `^` from position `i` on ends where going to the
/// first parent that many times ends.
pub proof fn lemma_ancestor_is_repeated_parent(
    files: Map<Seq<u8>, Seq<u8>>,
    id: Seq<u8>,
    ops: Seq<Operator>,
    i: int,
)
    requires
        0 <= i <= ops.len(),
        forall|k: int| i <= k < ops.len() ==> ops[k] == Operator::Parent,
    ensures
        walk(files, Some(id), ops, i).0 == reached(ancestor(files, id, (ops.len() - i) as nat)),
        walk(files, Some(id), ops, i).0 == reached(
            step(files, id, Operator::AncestorN((ops.len() - i) as u32)),
        ) || ops.len() - i > u32::MAX,
    decreases ops.len() - i,
{
    if i < ops.len() {
        match nth_parent(files, id, 1) {
            Ok(parent) => {
                lemma_ancestor_is_repeated_parent(files, parent, ops, i + 1);
            },
            Err(_) => {},
        }
    }
}

} // verus!
