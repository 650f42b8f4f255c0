use crate::encoding::{bytes_stand_at, stands_at};
use crate::keyed::{
    distinct_keys, lemma_map_of_absent, lemma_map_of_lookup, lemma_map_of_push,
    lemma_map_of_update, map_of,
};
use crate::object_id::{
    ObjectId, ascii_chars, hex_ascii, hex_bytes, is_hex_text, lemma_hex_ascii,
};
use crate::order::{PathOrder, order_bytes};
use vstd::prelude::*;
use vstd::slice::{slice_subrange, slice_to_vec};

verus! {

/// What a ref holds: an object id, or the name of another ref.
pub enum RefValueView {
    Id(Seq<u8>),
    Symbolic(Seq<u8>),
}

/// What a ref holds.
#[derive(Debug)]
pub enum RefValue {
    /// The id of an object.
    Id(ObjectId),
    /// The name of the ref that this one points to.
    Symbolic(Vec<u8>),
}

impl View for RefValue {
    type V = RefValueView;

    open spec fn view(&self) -> RefValueView {
        match self {
            RefValue::Id(id) => RefValueView::Id(id@),
            RefValue::Symbolic(name) => RefValueView::Symbolic(name@),
        }
    }
}

/// Why a branch was not created.
#[derive(Clone, Copy, Debug, PartialEq, Eq, Structural)]
pub enum RefError {
    /// The name is not one that a branch may have.
    InvalidBranchName,
    /// A branch of that name exists.
    BranchExists,
}

/// The name `HEAD`.
pub open spec fn head_name() -> Seq<u8> {
    seq![0x48u8, 0x45u8, 0x41u8, 0x44u8]
}

/// The directory of all refs: `refs/`.
pub open spec fn refs_dir() -> Seq<u8> {
    seq![0x72u8, 0x65u8, 0x66u8, 0x73u8, 0x2fu8]
}

/// The directory of the branches: `refs/heads/`.
pub open spec fn heads_dir() -> Seq<u8> {
    seq![0x72u8, 0x65u8, 0x66u8, 0x73u8, 0x2fu8, 0x68u8, 0x65u8, 0x61u8, 0x64u8, 0x73u8, 0x2fu8]
}

/// The words `ref: ` that start a symbolic ref.
pub open spec fn symbolic_mark() -> Seq<u8> {
    seq![0x72u8, 0x65u8, 0x66u8, 0x3au8, 0x20u8]
}

/// `content` without the line feed that may end it.
pub open spec fn trim_line_feed(content: Seq<u8>) -> Seq<u8> {
    if content.len() > 0 && content.last() == 0x0a {
        content.drop_last()
    } else {
        content
    }
}

/// What the content of a ref file holds: behind `ref: ` the name of another
/// ref, else an id in its text form of 40 hexadecimal digits. A line feed at the
/// end is not counted.
pub open spec fn parse_ref(content: Seq<u8>) -> Option<RefValueView> {
    let line = trim_line_feed(content);
    if stands_at(line, 0, symbolic_mark()) {
        if line.len() > 5 {
            Some(RefValueView::Symbolic(line.subrange(5, line.len() as int)))
        } else {
            None
        }
    } else if line.len() == 40 && is_hex_text(ascii_chars(line)) {
        Some(RefValueView::Id(hex_bytes(ascii_chars(line))))
    } else {
        None
    }
}

/// The content of the file of a ref: for an id its text form, for the name of
/// another ref the words `ref: ` and the name; then a line feed.
pub open spec fn ref_bytes(value: RefValueView) -> Seq<u8> {
    match value {
        RefValueView::Id(id) => hex_ascii(id) + seq![0x0au8],
        RefValueView::Symbolic(name) => symbolic_mark() + name + seq![0x0au8],
    }
}

/// Round trip: the file written for a ref reads back as what the ref holds, be
/// it an id or the name of another ref, which is not empty.
pub proof fn lemma_ref_round_trip(value: RefValueView)
    requires
        match value {
            RefValueView::Id(id) => id.len() == 20,
            RefValueView::Symbolic(name) => name.len() > 0,
        },
    ensures
        parse_ref(ref_bytes(value)) == Some(value),
{
    let content = ref_bytes(value);
    let line = trim_line_feed(content);
    match value {
        RefValueView::Id(id) => {
            lemma_hex_ascii(id);
            assert(line =~= hex_ascii(id));
            if stands_at(line, 0, symbolic_mark()) {
                assert(line.subrange(0, 5)[0] == symbolic_mark()[0]);
                assert(crate::object_id::hex_value(ascii_chars(line)[0]) is Some);
            }
        },
        RefValueView::Symbolic(name) => {
            assert(line =~= symbolic_mark() + name);
            assert(line.subrange(0, 5) =~= symbolic_mark());
            assert(line.subrange(5, line.len() as int) =~= name);
        },
    }
}

/// The id that the ref `name` leads to, through at most `hops` symbolic refs.
pub open spec fn follow(table: Map<Seq<u8>, RefValueView>, name: Seq<u8>, hops: nat) -> Option<
    Seq<u8>,
>
    decreases hops,
{
    if !table.contains_key(name) {
        None
    } else {
        match table[name] {
            RefValueView::Id(id) => Some(id),
            RefValueView::Symbolic(target) => if hops == 0 {
                None
            } else {
                follow(table, target, (hops - 1) as nat)
            },
        }
    }
}

/// The full name under which `name` is looked up: `name` itself if there is
/// such a ref, else `refs/<name>`, else `refs/heads/<name>`.
pub open spec fn full_name(table: Map<Seq<u8>, RefValueView>, name: Seq<u8>) -> Option<Seq<u8>> {
    if table.contains_key(name) {
        Some(name)
    } else if table.contains_key(refs_dir() + name) {
        Some(refs_dir() + name)
    } else if table.contains_key(heads_dir() + name) {
        Some(heads_dir() + name)
    } else {
        None
    }
}

/// The id that reading the ref `name` gives.
pub open spec fn read_ref_spec(
    table: Map<Seq<u8>, RefValueView>,
    name: Seq<u8>,
    hops: nat,
) -> Option<Seq<u8>> {
    match full_name(table, name) {
        None => None,
        Some(full) => follow(table, full, hops),
    }
}

/// Whether a byte may stand in the name of a branch: no control character, no
/// space, and none of `* : ? [ \ ^ ~`.
pub open spec fn name_byte_ok(b: u8) -> bool {
    b > 0x20 && b != 0x7f && b != 0x2a && b != 0x3a && b != 0x3f && b != 0x5b && b != 0x5c && b
        != 0x5e && b != 0x7e
}

/// Whether two bytes may follow each other in the name of a branch: not `..`,
/// `/.`, `//` or `@{`.
pub open spec fn name_pair_ok(a: u8, b: u8) -> bool {
    !(a == 0x2e && b == 0x2e) && !(a == 0x2f && b == 0x2e) && !(a == 0x2f && b == 0x2f) && !(a
        == 0x40 && b == 0x7b)
}

/// The ending `.lock`.
pub open spec fn lock_suffix() -> Seq<u8> {
    seq![0x2eu8, 0x6cu8, 0x6fu8, 0x63u8, 0x6bu8]
}

/// Whether a branch may have the name: it is not empty, each byte and each pair
/// of neighbours is allowed, it starts with neither `.` nor `/`, and ends with
/// neither `/` nor `.lock`.
pub open spec fn valid_branch_name(name: Seq<u8>) -> bool {
    &&& name.len() > 0
    &&& forall|k: int| 0 <= k < name.len() ==> name_byte_ok(#[trigger] name[k])
    &&& forall|k: int| 0 <= k < name.len() - 1 ==> name_pair_ok(#[trigger] name[k], name[k + 1])
    &&& name[0] != 0x2e
    &&& name[0] != 0x2f
    &&& name.last() != 0x2f
    &&& !(name.len() >= 5 && stands_at(name, name.len() - 5, lock_suffix()))
}

fn byte_ok(b: u8) -> (r: bool)
    ensures
        r == name_byte_ok(b),
{
    b > 0x20 && b != 0x7f && b != 0x2a && b != 0x3a && b != 0x3f && b != 0x5b && b != 0x5c && b
        != 0x5e && b != 0x7e
}

fn pair_ok(a: u8, b: u8) -> (r: bool)
    ensures
        r == name_pair_ok(a, b),
{
    !(a == 0x2e && b == 0x2e) && !(a == 0x2f && b == 0x2e) && !(a == 0x2f && b == 0x2f) && !(a
        == 0x40 && b == 0x7b)
}

fn literal(which: u8) -> (out: Vec<u8>)
    ensures
        out@ == if which == 0 {
            head_name()
        } else if which == 1 {
            refs_dir()
        } else if which == 2 {
            heads_dir()
        } else if which == 3 {
            symbolic_mark()
        } else {
            lock_suffix()
        },
{
    let mut out: Vec<u8> = Vec::new();
    if which == 0 {
        out.push(0x48u8);
        out.push(0x45u8);
        out.push(0x41u8);
        out.push(0x44u8);
        assert(out@ =~= head_name());
    } else if which == 1 || which == 2 {
        out.push(0x72u8);
        out.push(0x65u8);
        out.push(0x66u8);
        out.push(0x73u8);
        out.push(0x2fu8);
        assert(out@ =~= refs_dir());
        if which == 2 {
            out.push(0x68u8);
            out.push(0x65u8);
            out.push(0x61u8);
            out.push(0x64u8);
            out.push(0x73u8);
            out.push(0x2fu8);
            assert(out@ =~= heads_dir());
        }
    } else if which == 3 {
        out.push(0x72u8);
        out.push(0x65u8);
        out.push(0x66u8);
        out.push(0x3au8);
        out.push(0x20u8);
        assert(out@ =~= symbolic_mark());
    } else {
        out.push(0x2eu8);
        out.push(0x6cu8);
        out.push(0x6fu8);
        out.push(0x63u8);
        out.push(0x6bu8);
        assert(out@ =~= lock_suffix());
    }
    out
}

fn joined(dir: &[u8], name: &[u8]) -> (out: Vec<u8>)
    ensures
        out@ == dir@ + name@,
{
    let mut out = slice_to_vec(dir);
    out.extend_from_slice(name);
    assert(out@ =~= dir@ + name@);
    out
}

/// Whether a branch may have the name.
pub fn is_valid_branch_name(name: &[u8]) -> (r: bool)
    ensures
        r == valid_branch_name(name@),
{
    let n = name.len();
    if n == 0 {
        return false;
    }
    if name[0] == 0x2e || name[0] == 0x2f || name[n - 1] == 0x2f {
        return false;
    }
    if n >= 5 && bytes_stand_at(name, n - 5, literal(4).as_slice()) {
        return false;
    }
    let mut k: usize = 0;
    while k < n
        invariant
            k <= n,
            n == name@.len(),
            forall|j: int| 0 <= j < k ==> name_byte_ok(#[trigger] name@[j]),
            forall|j: int| 0 <= j < k - 1 ==> name_pair_ok(#[trigger] name@[j], name@[j + 1]),
        decreases n - k,
    {
        if !byte_ok(name[k]) {
            return false;
        }
        if k > 0 && !pair_ok(name[k - 1], name[k]) {
            assert(!name_pair_ok(name@[k - 1], name@[k - 1 + 1]));
            return false;
        }
        k += 1;
    }
    true
}

/// Reads the content of a ref file.
pub fn read_ref_file(content: &[u8]) -> (r: Option<RefValue>)
    ensures
        match r {
            Some(value) => parse_ref(content@) == Some(value@),
            None => parse_ref(content@) is None,
        },
{
    let n = content.len();
    let line = if n > 0 && content[n - 1] == 0x0a {
        slice_subrange(content, 0, n - 1)
    } else {
        content
    };
    assert(line@ =~= trim_line_feed(content@));
    if bytes_stand_at(line, 0, literal(3).as_slice()) {
        if line.len() > 5 {
            Some(RefValue::Symbolic(slice_to_vec(slice_subrange(line, 5, line.len()))))
        } else {
            None
        }
    } else {
        match ObjectId::from_hex_bytes(line) {
            Some(id) => Some(RefValue::Id(id)),
            None => None,
        }
    }
}

/// Writes the content of the file of a ref.
pub fn write_ref_file(value: &RefValue) -> (content: Vec<u8>)
    ensures
        content@ == ref_bytes(value@),
{
    let mut content: Vec<u8> = match value {
        RefValue::Id(id) => id.to_hex_bytes(),
        RefValue::Symbolic(name) => joined(literal(3).as_slice(), name.as_slice()),
    };
    content.push(0x0au8);
    content
}

/// One ref: its name and what it holds.
#[derive(Debug)]
pub struct RefEntry {
    name: Vec<u8>,
    value: RefValue,
}

/// The refs of a repository, by name.
#[derive(Debug)]
pub struct Refs {
    entries: Vec<RefEntry>,
}

impl Refs {
    /// The refs in the order in which they came.
    pub closed spec fn entries(&self) -> Seq<(Seq<u8>, RefValueView)> {
        Seq::new(self.entries@.len(), |i: int| (self.entries@[i].name@, self.entries@[i].value@))
    }

    /// No name occurs twice.
    pub open spec fn wf(&self) -> bool {
        distinct_keys(self.entries())
    }

    /// The refs as a table.
    pub open spec fn table(&self) -> Map<Seq<u8>, RefValueView> {
        map_of(self.entries())
    }

    /// Number of symbolic refs that reading follows at most: as many as there
    /// are refs.
    pub open spec fn hops(&self) -> nat {
        self.entries().len()
    }

    /// No refs.
    pub fn new() -> (refs: Refs)
        ensures
            refs.wf(),
            refs.table() == Map::<Seq<u8>, RefValueView>::empty(),
            refs.hops() == 0,
    {
        Refs { entries: Vec::new() }
    }

    fn position(&self, name: &[u8]) -> (r: Option<usize>)
        requires
            self.wf(),
        ensures
            match r {
                Some(i) => i < self.entries().len() && self.entries()[i as int].0 == name@
                    && self.table().contains_key(name@) && self.table()[name@]
                    == self.entries()[i as int].1,
                None => !self.table().contains_key(name@),
            },
    {
        let mut i: usize = 0;
        while i < self.entries.len()
            invariant
                i <= self.entries@.len(),
                self.wf(),
                forall|k: int| 0 <= k < i ==> (#[trigger] self.entries()[k]).0 != name@,
            decreases self.entries@.len() - i,
        {
            match order_bytes(self.entries[i].name.as_slice(), name) {
                PathOrder::Same => {
                    proof {
                        lemma_map_of_lookup(self.entries(), i as int);
                    }
                    return Some(i);
                },
                _ => {},
            }
            i += 1;
        }
        proof {
            lemma_map_of_absent(self.entries(), name@);
        }
        None
    }

    /// Sets what the ref `name` holds, whether or not there is such a ref.
    pub fn set(&mut self, name: &[u8], value: RefValue)
        requires
            old(self).wf(),
        ensures
            final(self).wf(),
            final(self).table() == old(self).table().insert(name@, value@),
            final(self).hops() == old(self).hops() + if old(self).table().contains_key(name@) {
                0nat
            } else {
                1nat
            },
    {
        match self.position(name) {
            Some(i) => {
                proof {
                    lemma_map_of_update(self.entries(), i as int, value@);
                }
                let ghost before = self.entries();
                self.entries[i].value = value;
                assert(self.entries() =~= before.update(i as int, (before[i as int].0, value@)));
            },
            None => {
                proof {
                    lemma_map_of_push(self.entries(), name@, value@);
                }
                let ghost before = self.entries();
                self.entries.push(RefEntry { name: slice_to_vec(name), value });
                assert(self.entries() =~= before.push((name@, value@)));
            },
        }
    }

    fn follow_from(&self, name: &[u8], hops: usize) -> (r: Option<ObjectId>)
        requires
            self.wf(),
        ensures
            match r {
                Some(id) => follow(self.table(), name@, hops as nat) == Some(id@),
                None => follow(self.table(), name@, hops as nat) is None,
            },
        decreases hops,
    {
        let i = match self.position(name) {
            Some(i) => i,
            None => {
                return None;
            },
        };
        match &self.entries[i].value {
            RefValue::Id(id) => Some(*id),
            RefValue::Symbolic(target) => {
                if hops == 0 {
                    None
                } else {
                    self.follow_from(target.as_slice(), hops - 1)
                }
            },
        }
    }

    /// The id that the ref `name` leads to. The name is looked up as it stands,
    /// then below `refs/`, then below `refs/heads/`; symbolic refs are followed.
    /// `None` where there is no such ref, or where it leads to no id.
    pub fn read_ref(&self, name: &[u8]) -> (r: Option<ObjectId>)
        requires
            self.wf(),
        ensures
            match r {
                Some(id) => read_ref_spec(self.table(), name@, self.hops()) == Some(id@),
                None => read_ref_spec(self.table(), name@, self.hops()) is None,
            },
    {
        let hops = self.entries.len();
        if self.position(name).is_some() {
            return self.follow_from(name, hops);
        }
        let below_refs = joined(literal(1).as_slice(), name);
        if self.position(below_refs.as_slice()).is_some() {
            return self.follow_from(below_refs.as_slice(), hops);
        }
        let below_heads = joined(literal(2).as_slice(), name);
        if self.position(below_heads.as_slice()).is_some() {
            return self.follow_from(below_heads.as_slice(), hops);
        }
        None
    }

    /// The id that `HEAD` leads to.
    pub fn read_head(&self) -> (r: Option<ObjectId>)
        requires
            self.wf(),
        ensures
            match r {
                Some(id) => read_ref_spec(self.table(), head_name(), self.hops()) == Some(id@),
                None => read_ref_spec(self.table(), head_name(), self.hops()) is None,
            },
    {
        self.read_ref(literal(0).as_slice())
    }

    /// Makes the ref `name` hold `id`.
    pub fn update_ref(&mut self, name: &[u8], id: ObjectId)
        requires
            old(self).wf(),
        ensures
            final(self).wf(),
            final(self).table() == old(self).table().insert(name@, RefValueView::Id(id@)),
            final(self).hops() == old(self).hops() + if old(self).table().contains_key(name@) {
                0nat
            } else {
                1nat
            },
    {
        self.set(name, RefValue::Id(id));
    }

    /// Creates the branch `name` at `start`: the ref `refs/heads/<name>` then
    /// holds `start`. Fails, with nothing changed, where the name is not valid
    /// or the branch exists.
    pub fn create_branch(&mut self, name: &[u8], start: ObjectId) -> (r: Result<(), RefError>)
        requires
            old(self).wf(),
        ensures
            final(self).wf(),
            match r {
                Ok(_) => {
                    &&& valid_branch_name(name@)
                    &&& !old(self).table().contains_key(heads_dir() + name@)
                    &&& final(self).table() == old(self).table().insert(
                        heads_dir() + name@,
                        RefValueView::Id(start@),
                    )
                    &&& final(self).hops() == old(self).hops() + 1
                },
                Err(e) => {
                    &&& final(self).table() == old(self).table()
                    &&& final(self).hops() == old(self).hops()
                    &&& e == if !valid_branch_name(name@) {
                        RefError::InvalidBranchName
                    } else {
                        RefError::BranchExists
                    }
                    &&& !valid_branch_name(name@) || old(self).table().contains_key(
                        heads_dir() + name@,
                    )
                },
            },
    {
        if !is_valid_branch_name(name) {
            return Err(RefError::InvalidBranchName);
        }
        let path = joined(literal(2).as_slice(), name);
        if self.position(path.as_slice()).is_some() {
            return Err(RefError::BranchExists);
        }
        self.set(path.as_slice(), RefValue::Id(start));
        Ok(())
    }
}

} // verus!
