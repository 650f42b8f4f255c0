use crate::encoding::texts_view;
use crate::object_id::ObjectId;
use crate::refs::{
    RefError, RefValueView, Refs, head_name, heads_dir, read_ref_spec, valid_branch_name,
};
use crate::resolve::{Diagnostic, DiagnosticView, diagnostics_view, resolve, resolve_spec};
use crate::store::{ContentStore, StoredView};
use vstd::prelude::*;
use vstd::string::StringExecFns;
use vstd::utf8::encode_utf8;

verus! {

/// One line for each hint: `hint: `, the hint, a line feed.
pub open spec fn hints_text(hints: Seq<Seq<char>>) -> Seq<char>
    decreases hints.len(),
{
    if hints.len() == 0 {
        Seq::empty()
    } else {
        hints_text(hints.drop_last()) + "hint: "@ + hints.last() + "\n"@
    }
}

/// For each diagnostic a line `error: ` with its message, and then its hints.
pub open spec fn diagnostic_lines(diagnostics: Seq<DiagnosticView>) -> Seq<char>
    decreases diagnostics.len(),
{
    if diagnostics.len() == 0 {
        Seq::empty()
    } else {
        diagnostic_lines(diagnostics.drop_last()) + "error: "@ + diagnostics.last().message + "\n"@
            + hints_text(diagnostics.last().hint)
    }
}

/// The report of a failed resolution: the lines of its diagnostics, and an
/// empty line.
pub open spec fn diagnostics_text(diagnostics: Seq<DiagnosticView>) -> Seq<char> {
    diagnostic_lines(diagnostics) + "\n"@
}

/// Writes the report of a failed resolution.
pub fn render_diagnostics(diagnostics: &Vec<Diagnostic>) -> (text: String)
    ensures
        text@ == diagnostics_text(diagnostics_view(diagnostics@)),
{
    let ghost all = diagnostics_view(diagnostics@);
    let mut text = String::new();
    let mut i: usize = 0;
    assert(all.take(0) =~= Seq::<DiagnosticView>::empty());
    while i < diagnostics.len()
        invariant
            i <= diagnostics@.len(),
            all == diagnostics_view(diagnostics@),
            text@ == diagnostic_lines(all.take(i as int)),
        decreases diagnostics@.len() - i,
    {
        let d = &diagnostics[i];
        proof {
            assert(all.take(i + 1).drop_last() =~= all.take(i as int));
            assert(all.take(i + 1).last() == d@);
        }
        text.append("error: ");
        text.append(d.message());
        text.append("\n");
        let hints = d.hint();
        let ghost lines = texts_view(hints@);
        let ghost before = text@;
        let mut k: usize = 0;
        assert(lines.take(0) =~= Seq::<Seq<char>>::empty());
        assert(before + hints_text(lines.take(0)) =~= before);
        while k < hints.len()
            invariant
                k <= hints@.len(),
                lines == texts_view(hints@),
                text@ == before + hints_text(lines.take(k as int)),
            decreases hints@.len() - k,
        {
            proof {
                assert(lines.take(k + 1).drop_last() =~= lines.take(k as int));
                assert(lines.take(k + 1).last() == hints@[k as int]@);
            }
            text.append("hint: ");
            text.append(hints[k].as_str());
            text.append("\n");
            assert(text@ =~= before + hints_text(lines.take(k + 1)));
            k += 1;
        }
        assert(lines.take(k as int) =~= lines);
        assert(text@ =~= diagnostic_lines(all.take(i + 1)));
        i += 1;
    }
    assert(all.take(i as int) =~= all);
    text.append("\n");
    text
}

/// What the branch command does with its arguments, the third of which names
/// the branch, and the fourth, if there is one, the revision to start it at: the
/// id at which the branch is created, or the report of the failure. Without a
/// fourth argument the branch starts at `HEAD`.
pub open spec fn branch_outcome(
    args: Seq<Seq<char>>,
    objects: Seq<StoredView>,
    refs: Map<Seq<u8>, RefValueView>,
    hops: nat,
) -> Result<Seq<u8>, Seq<char>> {
    if args.len() <= 2 {
        Err("no branch name provided"@)
    } else {
        let start: Result<Seq<u8>, Seq<char>> = if args.len() == 3 {
            match read_ref_spec(refs, head_name(), hops) {
                Some(id) => Ok(id),
                None => Err("empty HEAD"@),
            }
        } else {
            match resolve_spec(objects, refs, hops, args[3]) {
                Ok(id) => Ok(id),
                Err(diagnostics) => Err(diagnostics_text(diagnostics)),
            }
        };
        match start {
            Err(text) => Err(text),
            Ok(id) => if !valid_branch_name(encode_utf8(args[2])) {
                Err("'"@ + args[2] + "' is not a valid branch name.\n"@)
            } else if refs.contains_key(heads_dir() + encode_utf8(args[2])) {
                Err("A branch named '"@ + args[2] + "' already exists.\n"@)
            } else {
                Ok(id)
            },
        }
    }
}

/// The branch command.
#[derive(Debug)]
pub struct Branch {
    args: Vec<String>,
}

impl Branch {
    /// The arguments of the command.
    pub closed spec fn args(&self) -> Seq<Seq<char>> {
        texts_view(self.args@)
    }

    /// The command with its arguments, as they stand on the command line: the
    /// program, the word `branch`, the name of the branch, and the revision to
    /// start it at, if one is given. Nothing is done before `run`.
    pub fn new(args: Vec<String>) -> (branch: Branch)
        ensures
            branch.args() == texts_view(args@),
    {
        Branch { args }
    }

    /// Runs the command: creates the branch, or reports why it does not.
    pub fn run(&mut self, refs: &mut Refs, store: &ContentStore) -> (r: Result<(), String>)
        requires
            old(refs).wf(),
            store.wf(),
        ensures
            final(self).args() == old(self).args(),
            final(refs).wf(),
            match branch_outcome(
                old(self).args(),
                store.objects(),
                old(refs).table(),
                old(refs).hops(),
            ) {
                Ok(id) => {
                    &&& r is Ok
                    &&& final(refs).table() == old(refs).table().insert(
                        heads_dir() + encode_utf8(old(self).args()[2]),
                        RefValueView::Id(id),
                    )
                    &&& final(refs).hops() == old(refs).hops() + 1
                },
                Err(text) => {
                    &&& r matches Err(t) && t@ == text
                    &&& final(refs).table() == old(refs).table()
                    &&& final(refs).hops() == old(refs).hops()
                },
            },
    {
        self.create_branch(refs, store)
    }

    fn create_branch(&self, refs: &mut Refs, store: &ContentStore) -> (r: Result<(), String>)
        requires
            old(refs).wf(),
            store.wf(),
        ensures
            final(refs).wf(),
            match branch_outcome(
                self.args(),
                store.objects(),
                old(refs).table(),
                old(refs).hops(),
            ) {
                Ok(id) => {
                    &&& r is Ok
                    &&& final(refs).table() == old(refs).table().insert(
                        heads_dir() + encode_utf8(self.args()[2]),
                        RefValueView::Id(id),
                    )
                    &&& final(refs).hops() == old(refs).hops() + 1
                },
                Err(text) => {
                    &&& r matches Err(t) && t@ == text
                    &&& final(refs).table() == old(refs).table()
                    &&& final(refs).hops() == old(refs).hops()
                },
            },
    {
        if self.args.len() <= 2 {
            return Err(String::from_str("no branch name provided"));
        }
        let branch_name = self.args[2].as_str();
        let start_point: ObjectId = if self.args.len() == 3 {
            match refs.read_head() {
                Some(id) => id,
                None => {
                    return Err(String::from_str("empty HEAD"));
                },
            }
        } else {
            match resolve(store, refs, self.args[3].as_str()) {
                Ok(id) => id,
                Err(errors) => {
                    return Err(render_diagnostics(&errors));
                },
            }
        };
        match refs.create_branch(branch_name.as_bytes(), start_point) {
            Ok(()) => Ok(()),
            Err(RefError::InvalidBranchName) => {
                let mut text = String::from_str("'");
                text.append(branch_name);
                text.append("' is not a valid branch name.\n");
                Err(text)
            },
            Err(RefError::BranchExists) => {
                let mut text = String::from_str("A branch named '");
                text.append(branch_name);
                text.append("' already exists.\n");
                Err(text)
            },
        }
    }
}

} // verus!
