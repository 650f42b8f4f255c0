use crate::envelope::ObjectKind;
use crate::object_id::ObjectId;
use crate::order::{PathOrder, order_bytes};
use crate::store::{ContentStore, StoreError, lookup};
use crate::tree::{
    TreeEntry, TreeEntryView, distinct_names, parse_tree, read_tree, tree_view,
};
use vstd::prelude::*;
use vstd::slice::slice_to_vec;

verus! {

/// One side of a change: the mode and the id that a path has.
pub type SideView = (u32, Seq<u8>);

/// One difference between two trees: a path with what it had and what it has.
pub struct ChangeView {
    pub path: Seq<u8>,
    pub old_side: Option<SideView>,
    pub new_side: Option<SideView>,
}

/// How a change is classified, by which sides are present.
#[derive(Clone, Copy, Debug, PartialEq, Eq, Structural)]
pub enum ChangeKind {
    Added,
    Removed,
    Modified,
}

/// The path of `name` below `prefix`: the two joined by `/`, or `name` alone
/// where `prefix` is empty.
pub open spec fn join_path(prefix: Seq<u8>, name: Seq<u8>) -> Seq<u8> {
    if prefix.len() == 0 {
        name
    } else {
        prefix + seq![0x2fu8] + name
    }
}

/// Mode and id of a tree entry.
pub open spec fn side(e: TreeEntryView) -> SideView {
    (e.mode, e.oid)
}

/// The record that `e` was added at `path`.
pub open spec fn added(path: Seq<u8>, e: TreeEntryView) -> ChangeView {
    ChangeView { path, old_side: None, new_side: Some(side(e)) }
}

/// The record that `e` was removed at `path`.
pub open spec fn removed(path: Seq<u8>, e: TreeEntryView) -> ChangeView {
    ChangeView { path, old_side: Some(side(e)), new_side: None }
}

/// The record that `x` became `y` at `path`.
pub open spec fn modified(path: Seq<u8>, x: TreeEntryView, y: TreeEntryView) -> ChangeView {
    ChangeView { path, old_side: Some(side(x)), new_side: Some(side(y)) }
}

/// The first entry of `s` from position `i` on that has the name `name`.
pub open spec fn find_from(s: Seq<TreeEntryView>, name: Seq<u8>, i: int) -> Option<TreeEntryView>
    decreases s.len() - i,
{
    if i < 0 || i >= s.len() {
        None
    } else if s[i].name == name {
        Some(s[i])
    } else {
        find_from(s, name, i + 1)
    }
}

/// The entry of `s` that has the name `name`.
pub open spec fn find_entry(s: Seq<TreeEntryView>, name: Seq<u8>) -> Option<TreeEntryView> {
    find_from(s, name, 0)
}

/// The entry table of one side of a comparison: empty where the side is absent,
/// else the entries of the tree stored under the id.
pub open spec fn tree_at(files: Map<Seq<u8>, Seq<u8>>, id: Option<Seq<u8>>) -> Result<
    Seq<TreeEntryView>,
    StoreError,
> {
    match id {
        None => Ok(Seq::empty()),
        Some(id) => match lookup(files, id) {
            Err(e) => Err(e),
            Ok((kind, data)) => if kind != ObjectKind::Tree {
                Err(StoreError::ObjectCorrupt)
            } else {
                match parse_tree(data) {
                    None => Err(StoreError::ObjectCorrupt),
                    Some(s) => Ok(s),
                }
            },
        },
    }
}

/// The changes between two trees, each given by its id or absent. First come,
/// in the order of the old tree, the records for its entries; then, in the
/// order of the new tree, the records for the entries that only it has.
/// Subdirectories are compared to a depth of `depth`; a tree nested deeper is
/// reported as corrupt.
pub open spec fn diff_trees(
    files: Map<Seq<u8>, Seq<u8>>,
    old_id: Option<Seq<u8>>,
    new_id: Option<Seq<u8>>,
    prefix: Seq<u8>,
    depth: nat,
) -> Result<Seq<ChangeView>, StoreError>
    decreases depth, 2int, 0int,
{
    match tree_at(files, old_id) {
        Err(e) => Err(e),
        Ok(a) => match tree_at(files, new_id) {
            Err(e) => Err(e),
            Ok(b) => match old_side_changes(files, a, b, prefix, depth, 0) {
                Err(e) => Err(e),
                Ok(left) => Ok(left + additions(a, b, prefix, 0)),
            },
        },
    }
}

/// The records for the entries of the old table `a` from position `i` on.
pub open spec fn old_side_changes(
    files: Map<Seq<u8>, Seq<u8>>,
    a: Seq<TreeEntryView>,
    b: Seq<TreeEntryView>,
    prefix: Seq<u8>,
    depth: nat,
    i: int,
) -> Result<Seq<ChangeView>, StoreError>
    decreases depth, 1int, a.len() - i,
{
    if i < 0 || i >= a.len() {
        Ok(Seq::empty())
    } else {
        match entry_changes(files, a[i], find_entry(b, a[i].name), prefix, depth) {
            Err(e) => Err(e),
            Ok(head) => match old_side_changes(files, a, b, prefix, depth, i + 1) {
                Err(e) => Err(e),
                Ok(tail) => Ok(head + tail),
            },
        }
    }
}

/// The records for one entry `x` of the old table, by the entry `other` that
/// the new table has under the same name. Without one, `x` was removed. Two
/// subdirectories are compared in turn, and give no record of their own. A
/// subdirectory against a file is a removal and an addition. Two files give a
/// record where mode or id differ.
pub open spec fn entry_changes(
    files: Map<Seq<u8>, Seq<u8>>,
    x: TreeEntryView,
    other: Option<TreeEntryView>,
    prefix: Seq<u8>,
    depth: nat,
) -> Result<Seq<ChangeView>, StoreError>
    decreases depth, 0int, 0int,
{
    let path = join_path(prefix, x.name);
    match other {
        None => Ok(seq![removed(path, x)]),
        Some(y) => if x.is_tree() && y.is_tree() {
            if depth == 0 {
                Err(StoreError::ObjectCorrupt)
            } else {
                diff_trees(files, Some(x.oid), Some(y.oid), path, (depth - 1) as nat)
            }
        } else if x.is_tree() != y.is_tree() {
            Ok(seq![removed(path, x), added(path, y)])
        } else if side(x) != side(y) {
            Ok(seq![modified(path, x, y)])
        } else {
            Ok(Seq::empty())
        },
    }
}

/// The records for the entries of the new table `b` from position `j` on whose
/// names the old table `a` lacks.
pub open spec fn additions(
    a: Seq<TreeEntryView>,
    b: Seq<TreeEntryView>,
    prefix: Seq<u8>,
    j: int,
) -> Seq<ChangeView>
    decreases b.len() - j,
{
    if j < 0 || j >= b.len() {
        Seq::empty()
    } else if find_entry(a, b[j].name) is None {
        seq![added(join_path(prefix, b[j].name), b[j])] + additions(a, b, prefix, j + 1)
    } else {
        additions(a, b, prefix, j + 1)
    }
}

/// One difference between two trees.
#[derive(Debug)]
pub struct Change {
    path: Vec<u8>,
    old_side: Option<(u32, ObjectId)>,
    new_side: Option<(u32, ObjectId)>,
}

/// Mode and id of one side as values.
pub open spec fn side_view(s: Option<(u32, ObjectId)>) -> Option<SideView> {
    match s {
        None => None,
        Some((mode, oid)) => Some((mode, oid@)),
    }
}

/// An id, or none, as a value.
pub open spec fn id_view(id: Option<ObjectId>) -> Option<Seq<u8>> {
    match id {
        None => None,
        Some(id) => Some(id@),
    }
}

impl View for Change {
    type V = ChangeView;

    closed spec fn view(&self) -> ChangeView {
        ChangeView {
            path: self.path@,
            old_side: side_view(self.old_side),
            new_side: side_view(self.new_side),
        }
    }
}

/// The changes as values.
pub open spec fn changes_view(changes: Seq<Change>) -> Seq<ChangeView> {
    Seq::new(changes.len(), |i: int| changes[i]@)
}

/// How a record is classified: an addition where only the new side is there, a
/// removal where only the old side is, a modification where both are.
pub open spec fn kind_of(c: ChangeView) -> Option<ChangeKind> {
    match (c.old_side, c.new_side) {
        (None, None) => None,
        (None, Some(_)) => Some(ChangeKind::Added),
        (Some(_), None) => Some(ChangeKind::Removed),
        (Some(_), Some(_)) => Some(ChangeKind::Modified),
    }
}

impl Change {
    /// The path that changed.
    pub fn path(&self) -> (r: &[u8])
        ensures
            r@ == self@.path,
    {
        self.path.as_slice()
    }

    /// Mode and id that the path had, if it was there.
    pub fn old_side(&self) -> (r: Option<(u32, ObjectId)>)
        ensures
            side_view(r) == self@.old_side,
    {
        self.old_side
    }

    /// Mode and id that the path has, if it is there.
    pub fn new_side(&self) -> (r: Option<(u32, ObjectId)>)
        ensures
            side_view(r) == self@.new_side,
    {
        self.new_side
    }

    /// How the change is classified.
    pub fn kind(&self) -> (r: Option<ChangeKind>)
        ensures
            r == kind_of(self@),
    {
        match (&self.old_side, &self.new_side) {
            (None, None) => None,
            (None, Some(_)) => Some(ChangeKind::Added),
            (Some(_), None) => Some(ChangeKind::Removed),
            (Some(_), Some(_)) => Some(ChangeKind::Modified),
        }
    }
}

fn join(prefix: &[u8], name: &[u8]) -> (path: Vec<u8>)
    ensures
        path@ == join_path(prefix@, name@),
{
    let mut path: Vec<u8> = Vec::new();
    if prefix.len() > 0 {
        path.extend_from_slice(prefix);
        path.push(0x2fu8);
    }
    path.extend_from_slice(name);
    assert(path@ =~= join_path(prefix@, name@));
    path
}

fn find(entries: &Vec<TreeEntry>, name: &[u8]) -> (r: Option<usize>)
    ensures
        match r {
            Some(i) => i < entries@.len() && find_entry(tree_view(entries@), name@) == Some(
                entries@[i as int]@,
            ),
            None => find_entry(tree_view(entries@), name@) is None,
        },
{
    let ghost s = tree_view(entries@);
    let mut i: usize = 0;
    while i < entries.len()
        invariant
            i <= entries@.len(),
            s == tree_view(entries@),
            find_from(s, name@, 0) == find_from(s, name@, i as int),
        decreases entries@.len() - i,
    {
        match order_bytes(entries[i].name(), name) {
            PathOrder::Same => {
                return Some(i);
            },
            _ => {},
        }
        i += 1;
    }
    None
}

fn load_tree(store: &ContentStore, id: &Option<ObjectId>) -> (r: Result<Vec<TreeEntry>, StoreError>)
    requires
        store.wf(),
    ensures
        match r {
            Ok(entries) => tree_at(store.files(), id_view(*id)) == Ok::<
                Seq<TreeEntryView>,
                StoreError,
            >(tree_view(entries@)),
            Err(e) => tree_at(store.files(), id_view(*id)) == Err::<Seq<TreeEntryView>, StoreError>(
                e,
            ),
        },
{
    let id = match id {
        None => {
            let entries: Vec<TreeEntry> = Vec::new();
            assert(tree_view(entries@) =~= Seq::<TreeEntryView>::empty());
            return Ok(entries);
        },
        Some(id) => id,
    };
    let (kind, data) = match store.get(id) {
        Ok(object) => object,
        Err(e) => {
            return Err(e);
        },
    };
    match kind {
        ObjectKind::Tree => {},
        _ => {
            return Err(StoreError::ObjectCorrupt);
        },
    }
    match read_tree(data.as_slice()) {
        Some(entries) => Ok(entries),
        None => Err(StoreError::ObjectCorrupt),
    }
}

fn side_of(e: &TreeEntry) -> (r: Option<(u32, ObjectId)>)
    ensures
        side_view(r) == Some(side(e@)),
{
    Some((e.mode(), e.oid()))
}

fn compare_entry(
    store: &ContentStore,
    x: &TreeEntry,
    other: Option<&TreeEntry>,
    prefix: &[u8],
    depth: usize,
) -> (r: Result<Vec<Change>, StoreError>)
    requires
        store.wf(),
    ensures
        match r {
            Ok(changes) => entry_changes(
                store.files(),
                x@,
                match other {
                    Some(y) => Some(y@),
                    None => None,
                },
                prefix@,
                depth as nat,
            ) == Ok::<Seq<ChangeView>, StoreError>(changes_view(changes@)),
            Err(e) => entry_changes(
                store.files(),
                x@,
                match other {
                    Some(y) => Some(y@),
                    None => None,
                },
                prefix@,
                depth as nat,
            ) == Err::<Seq<ChangeView>, StoreError>(e),
        },
    decreases depth, 0int, 0int,
{
    let path = join(prefix, x.name());
    let mut changes: Vec<Change> = Vec::new();
    let y = match other {
        None => {
            changes.push(Change { path, old_side: side_of(x), new_side: None });
            assert(changes_view(changes@) =~= seq![removed(path@, x@)]);
            return Ok(changes);
        },
        Some(y) => y,
    };
    if x.is_tree() && y.is_tree() {
        if depth == 0 {
            return Err(StoreError::ObjectCorrupt);
        }
        return compare_at(store, Some(x.oid()), Some(y.oid()), path.as_slice(), depth - 1);
    }
    if x.is_tree() != y.is_tree() {
        let second = slice_to_vec(path.as_slice());
        let ghost p = path@;
        changes.push(Change { path, old_side: side_of(x), new_side: None });
        changes.push(Change { path: second, old_side: None, new_side: side_of(y) });
        assert(changes_view(changes@) =~= seq![removed(p, x@), added(p, y@)]);
        return Ok(changes);
    }
    if x.mode() != y.mode() || !x.oid().same(&y.oid()) {
        let ghost p = path@;
        changes.push(Change { path, old_side: side_of(x), new_side: side_of(y) });
        assert(changes_view(changes@) =~= seq![modified(p, x@, y@)]);
        return Ok(changes);
    }
    assert(changes_view(changes@) =~= Seq::<ChangeView>::empty());
    Ok(changes)
}

fn compare_at(
    store: &ContentStore,
    old_id: Option<ObjectId>,
    new_id: Option<ObjectId>,
    prefix: &[u8],
    depth: usize,
) -> (r: Result<Vec<Change>, StoreError>)
    requires
        store.wf(),
    ensures
        match r {
            Ok(changes) => diff_trees(
                store.files(),
                id_view(old_id),
                id_view(new_id),
                prefix@,
                depth as nat,
            ) == Ok::<Seq<ChangeView>, StoreError>(changes_view(changes@)),
            Err(e) => diff_trees(
                store.files(),
                id_view(old_id),
                id_view(new_id),
                prefix@,
                depth as nat,
            ) == Err::<Seq<ChangeView>, StoreError>(e),
        },
    decreases depth, 2int, 0int,
{
    let a = match load_tree(store, &old_id) {
        Ok(a) => a,
        Err(e) => {
            return Err(e);
        },
    };
    let b = match load_tree(store, &new_id) {
        Ok(b) => b,
        Err(e) => {
            return Err(e);
        },
    };
    let ghost files = store.files();
    let ghost av = tree_view(a@);
    let ghost bv = tree_view(b@);
    let mut changes: Vec<Change> = Vec::new();
    assert(changes_view(changes@) =~= Seq::<ChangeView>::empty());
    let mut i: usize = 0;
    while i < a.len()
        invariant
            i <= a@.len(),
            store.wf(),
            files == store.files(),
            av == tree_view(a@),
            bv == tree_view(b@),
            tree_at(files, id_view(old_id)) == Ok::<Seq<TreeEntryView>, StoreError>(av),
            tree_at(files, id_view(new_id)) == Ok::<Seq<TreeEntryView>, StoreError>(bv),
            old_side_changes(files, av, bv, prefix@, depth as nat, 0) == match old_side_changes(
                files,
                av,
                bv,
                prefix@,
                depth as nat,
                i as int,
            ) {
                Ok(tail) => Ok::<Seq<ChangeView>, StoreError>(changes_view(changes@) + tail),
                Err(e) => Err(e),
            },
        decreases a@.len() - i,
    {
        let other = match find(&b, a[i].name()) {
            Some(j) => Some(&b[j]),
            None => None,
        };
        assert(av[i as int] == a@[i as int]@);
        assert(find_entry(bv, av[i as int].name) == match other {
            Some(y) => Some(y@),
            None => None,
        });
        let mut part = match compare_entry(store, &a[i], other, prefix, depth) {
            Ok(part) => part,
            Err(e) => {
                return Err(e);
            },
        };
        proof {
            let head = changes_view(part@);
            let before = changes_view(changes@);
            assert(changes_view(changes@ + part@) =~= before + head);
            match old_side_changes(files, av, bv, prefix@, depth as nat, i + 1) {
                Ok(tail) => {
                    assert(before + (head + tail) =~= (before + head) + tail);
                },
                Err(_) => {},
            }
        }
        changes.append(&mut part);
        i += 1;
    }
    let ghost left = changes_view(changes@);
    assert(left + Seq::<ChangeView>::empty() =~= left);
    let mut j: usize = 0;
    while j < b.len()
        invariant
            j <= b@.len(),
            av == tree_view(a@),
            bv == tree_view(b@),
            left + additions(av, bv, prefix@, 0) == changes_view(changes@) + additions(
                av,
                bv,
                prefix@,
                j as int,
            ),
        decreases b@.len() - j,
    {
        if find(&a, b[j].name()).is_none() {
            let ghost before = changes_view(changes@);
            changes.push(
                Change {
                    path: join(prefix, b[j].name()),
                    old_side: None,
                    new_side: side_of(&b[j]),
                },
            );
            proof {
                let rest = additions(av, bv, prefix@, j + 1);
                let record = added(join_path(prefix@, bv[j as int].name), bv[j as int]);
                assert(bv[j as int] == b@[j as int]@);
                assert(changes_view(changes@) =~= before.push(record));
                assert(before + (seq![record] + rest) =~= before.push(record) + rest);
            }
        }
        j += 1;
    }
    assert(changes_view(changes@) + Seq::<ChangeView>::empty() =~= changes_view(changes@));
    Ok(changes)
}

/// Compares two trees of the store, each given by its id or absent, and gives
/// the changes between them, with paths below `prefix`. Subdirectories on both
/// sides are compared in turn. Fails where a tree cannot be had from the store.
/// Trees are followed no deeper than the store has objects: deeper nesting is a
/// cycle, and is reported as corrupt.
pub fn compare(
    store: &ContentStore,
    old_id: Option<ObjectId>,
    new_id: Option<ObjectId>,
    prefix: &[u8],
) -> (r: Result<Vec<Change>, StoreError>)
    requires
        store.wf(),
    ensures
        match r {
            Ok(changes) => diff_trees(
                store.files(),
                id_view(old_id),
                id_view(new_id),
                prefix@,
                store.objects().len(),
            ) == Ok::<Seq<ChangeView>, StoreError>(changes_view(changes@)),
            Err(e) => diff_trees(
                store.files(),
                id_view(old_id),
                id_view(new_id),
                prefix@,
                store.objects().len(),
            ) == Err::<Seq<ChangeView>, StoreError>(e),
        },
{
    compare_at(store, old_id, new_id, prefix, store.len())
}

proof fn lemma_find_from(s: Seq<TreeEntryView>, name: Seq<u8>, from: int, at: int)
    requires
        0 <= from <= at <= s.len(),
        forall|k: int| from <= k < at ==> (#[trigger] s[k]).name != name,
        at < s.len() ==> s[at].name == name,
    ensures
        find_from(s, name, from) == if at < s.len() {
            Some(s[at])
        } else {
            None
        },
    decreases at - from,
{
    if from < at {
        lemma_find_from(s, name, from + 1, at);
    }
}

/// In a table without repeated names, each entry is the one found under its
/// name.
pub proof fn lemma_find_self(s: Seq<TreeEntryView>, i: int)
    requires
        distinct_names(s),
        0 <= i < s.len(),
    ensures
        find_entry(s, s[i].name) == Some(s[i]),
{
    assert forall|k: int| 0 <= k < i implies (#[trigger] s[k]).name != s[i].name by {}
    lemma_find_from(s, s[i].name, 0, i);
}

/// The entries that a stored tree holds have distinct names.
pub proof fn lemma_tree_at_distinct(files: Map<Seq<u8>, Seq<u8>>, id: Option<Seq<u8>>)
    requires
        tree_at(files, id) is Ok,
    ensures
        distinct_names(tree_at(files, id).unwrap()),
{
}

/// Diff identity: a tree compared with itself gives no change, wherever the
/// comparison succeeds.
pub proof fn lemma_diff_identity(
    files: Map<Seq<u8>, Seq<u8>>,
    id: Seq<u8>,
    prefix: Seq<u8>,
    depth: nat,
)
    ensures
        diff_trees(files, Some(id), Some(id), prefix, depth) matches Ok(changes) ==> changes
            == Seq::<ChangeView>::empty(),
    decreases depth, 1int, 0int,
{
    match tree_at(files, Some(id)) {
        Err(_) => {},
        Ok(a) => {
            lemma_tree_at_distinct(files, Some(id));
            lemma_old_side_identity(files, a, prefix, depth, 0);
            assert forall|k: int| 0 <= k < a.len() implies find_entry(a, (#[trigger] a[k]).name)
                is Some by {
                lemma_find_self(a, k);
            }
            lemma_no_additions(a, a, prefix, 0);
            match old_side_changes(files, a, a, prefix, depth, 0) {
                Ok(left) => {
                    assert(left + additions(a, a, prefix, 0) =~= Seq::<ChangeView>::empty());
                },
                Err(_) => {},
            }
        },
    }
}

proof fn lemma_entry_identity(
    files: Map<Seq<u8>, Seq<u8>>,
    x: TreeEntryView,
    prefix: Seq<u8>,
    depth: nat,
)
    ensures
        entry_changes(files, x, Some(x), prefix, depth) matches Ok(changes) ==> changes == Seq::<
            ChangeView,
        >::empty(),
    decreases depth, 0int, 1int,
{
    if x.is_tree() && depth > 0 {
        lemma_diff_identity(files, x.oid, join_path(prefix, x.name), (depth - 1) as nat);
    }
}

proof fn lemma_old_side_identity(
    files: Map<Seq<u8>, Seq<u8>>,
    a: Seq<TreeEntryView>,
    prefix: Seq<u8>,
    depth: nat,
    i: int,
)
    requires
        distinct_names(a),
        0 <= i <= a.len(),
    ensures
        old_side_changes(files, a, a, prefix, depth, i) matches Ok(changes) ==> changes == Seq::<
            ChangeView,
        >::empty(),
    decreases depth, 0int, 2 + a.len() - i,
{
    if i < a.len() {
        lemma_find_self(a, i);
        lemma_entry_identity(files, a[i], prefix, depth);
        lemma_old_side_identity(files, a, prefix, depth, i + 1);
        match entry_changes(files, a[i], Some(a[i]), prefix, depth) {
            Ok(head) => match old_side_changes(files, a, a, prefix, depth, i + 1) {
                Ok(tail) => {
                    assert(head + tail =~= Seq::<ChangeView>::empty());
                },
                Err(_) => {},
            },
            Err(_) => {},
        }
    }
}

/// Where every name of `b` from `j` on is a name of `a`, nothing was added.
proof fn lemma_no_additions(a: Seq<TreeEntryView>, b: Seq<TreeEntryView>, prefix: Seq<u8>, j: int)
    requires
        0 <= j <= b.len(),
        forall|k: int| j <= k < b.len() ==> find_entry(a, (#[trigger] b[k]).name) is Some,
    ensures
        additions(a, b, prefix, j) == Seq::<ChangeView>::empty(),
    decreases b.len() - j,
{
    if j < b.len() {
        assert(find_entry(a, b[j].name) is Some);
        lemma_no_additions(a, b, prefix, j + 1);
    }
}

/// One `Added` record for each entry of `b`, in order.
pub open spec fn all_added(b: Seq<TreeEntryView>, prefix: Seq<u8>) -> Seq<ChangeView> {
    Seq::new(b.len(), |j: int| added(join_path(prefix, b[j].name), b[j]))
}

/// One `Removed` record for each entry of `a`, in order.
pub open spec fn all_removed(a: Seq<TreeEntryView>, prefix: Seq<u8>) -> Seq<ChangeView> {
    Seq::new(a.len(), |i: int| removed(join_path(prefix, a[i].name), a[i]))
}

proof fn lemma_additions_to_nothing(b: Seq<TreeEntryView>, prefix: Seq<u8>, j: int)
    requires
        0 <= j <= b.len(),
    ensures
        additions(Seq::empty(), b, prefix, j) == all_added(b, prefix).subrange(j, b.len() as int),
    decreases b.len() - j,
{
    let none = Seq::<TreeEntryView>::empty();
    if j < b.len() {
        lemma_additions_to_nothing(b, prefix, j + 1);
        assert(find_entry(none, b[j].name) is None);
        assert(additions(none, b, prefix, j) =~= all_added(b, prefix).subrange(j, b.len() as int));
    } else {
        assert(additions(none, b, prefix, j) =~= all_added(b, prefix).subrange(j, b.len() as int));
    }
}

proof fn lemma_removals_from_nothing(
    files: Map<Seq<u8>, Seq<u8>>,
    a: Seq<TreeEntryView>,
    prefix: Seq<u8>,
    depth: nat,
    i: int,
)
    requires
        0 <= i <= a.len(),
    ensures
        old_side_changes(files, a, Seq::empty(), prefix, depth, i) == Ok::<
            Seq<ChangeView>,
            StoreError,
        >(all_removed(a, prefix).subrange(i, a.len() as int)),
    decreases a.len() - i,
{
    let none = Seq::<TreeEntryView>::empty();
    let want = all_removed(a, prefix).subrange(i, a.len() as int);
    if i < a.len() {
        lemma_removals_from_nothing(files, a, prefix, depth, i + 1);
        assert(find_entry(none, a[i].name) is None);
        let head = seq![removed(join_path(prefix, a[i].name), a[i])];
        let tail = all_removed(a, prefix).subrange(i + 1, a.len() as int);
        assert(head + tail =~= want);
        assert(entry_changes(files, a[i], find_entry(none, a[i].name), prefix, depth) == Ok::<
            Seq<ChangeView>,
            StoreError,
        >(head));
        assert(old_side_changes(files, a, none, prefix, depth, i + 1) == Ok::<
            Seq<ChangeView>,
            StoreError,
        >(tail));
    } else {
        assert(want =~= Seq::<ChangeView>::empty());
    }
}

/// Diff add: a tree compared against nothing gives one `Added` record for each
/// of its entries, and no other record.
pub proof fn lemma_diff_all_added(
    files: Map<Seq<u8>, Seq<u8>>,
    id: Seq<u8>,
    prefix: Seq<u8>,
    depth: nat,
)
    requires
        tree_at(files, Some(id)) is Ok,
    ensures
        diff_trees(files, None, Some(id), prefix, depth) == Ok::<Seq<ChangeView>, StoreError>(
            all_added(tree_at(files, Some(id)).unwrap(), prefix),
        ),
{
    let b = tree_at(files, Some(id)).unwrap();
    let none = Seq::<TreeEntryView>::empty();
    lemma_additions_to_nothing(b, prefix, 0);
    assert(all_added(b, prefix).subrange(0, b.len() as int) =~= all_added(b, prefix));
    assert(old_side_changes(files, none, b, prefix, depth, 0) == Ok::<Seq<ChangeView>, StoreError>(
        Seq::empty(),
    ));
    assert(Seq::<ChangeView>::empty() + all_added(b, prefix) =~= all_added(b, prefix));
}

/// Diff remove: nothing compared against a tree, seen from the tree's side,
/// gives one `Removed` record for each of its entries, and no other record.
pub proof fn lemma_diff_all_removed(
    files: Map<Seq<u8>, Seq<u8>>,
    id: Seq<u8>,
    prefix: Seq<u8>,
    depth: nat,
)
    requires
        tree_at(files, Some(id)) is Ok,
    ensures
        diff_trees(files, Some(id), None, prefix, depth) == Ok::<Seq<ChangeView>, StoreError>(
            all_removed(tree_at(files, Some(id)).unwrap(), prefix),
        ),
{
    let a = tree_at(files, Some(id)).unwrap();
    let none = Seq::<TreeEntryView>::empty();
    lemma_removals_from_nothing(files, a, prefix, depth, 0);
    assert(all_removed(a, prefix).subrange(0, a.len() as int) =~= all_removed(a, prefix));
    assert(additions(a, none, prefix, 0) =~= Seq::<ChangeView>::empty());
    assert(all_removed(a, prefix) + Seq::<ChangeView>::empty() =~= all_removed(a, prefix));
}

/// `a` and `b` are the same table but for the entry at `k`, which has one name
/// in both.
pub open spec fn same_but_at(a: Seq<TreeEntryView>, b: Seq<TreeEntryView>, k: int) -> bool {
    &&& a.len() == b.len()
    &&& 0 <= k < a.len()
    &&& forall|i: int| 0 <= i < a.len() && i != k ==> a[i] == b[i]
    &&& a[k].name == b[k].name
}

/// `a` and `b` are the same table but for the entry at `k`: there both hold a
/// file of one name and one mode, with different ids.
pub open spec fn differ_in_one_blob(a: Seq<TreeEntryView>, b: Seq<TreeEntryView>, k: int) -> bool {
    &&& same_but_at(a, b, k)
    &&& a[k].mode == b[k].mode
    &&& !a[k].is_tree()
    &&& a[k].oid != b[k].oid
}

/// `a` and `b` are the same table but for the entry at `k`: there both hold a
/// subdirectory of one name, with different ids.
pub open spec fn differ_in_one_tree(a: Seq<TreeEntryView>, b: Seq<TreeEntryView>, k: int) -> bool {
    &&& same_but_at(a, b, k)
    &&& a[k].is_tree()
    &&& b[k].is_tree()
    &&& a[k].oid != b[k].oid
}

/// The trees stored under `old_id` and `new_id` are the same but for the id of
/// one file. `segments` names the subdirectories that lead to the file, and
/// last the file.
pub open spec fn differ_in_one_file(
    files: Map<Seq<u8>, Seq<u8>>,
    old_id: Seq<u8>,
    new_id: Seq<u8>,
    segments: Seq<Seq<u8>>,
) -> bool
    decreases segments.len(),
{
    &&& segments.len() > 0
    &&& tree_at(files, Some(old_id)) is Ok
    &&& tree_at(files, Some(new_id)) is Ok
    &&& ({
        let a = tree_at(files, Some(old_id)).unwrap();
        let b = tree_at(files, Some(new_id)).unwrap();
        exists|k: int|
            #![trigger a[k]]
            0 <= k < a.len() && a[k].name == segments[0] && if segments.len() == 1 {
                differ_in_one_blob(a, b, k)
            } else {
                differ_in_one_tree(a, b, k) && differ_in_one_file(
                    files,
                    a[k].oid,
                    b[k].oid,
                    segments.drop_first(),
                )
            }
    })
}

/// The record of the one file in which two trees differ: a modification at the
/// file's path below `prefix`, from what the old tree holds to what the new one
/// holds.
pub open spec fn changed_file(
    files: Map<Seq<u8>, Seq<u8>>,
    old_id: Seq<u8>,
    new_id: Seq<u8>,
    prefix: Seq<u8>,
    segments: Seq<Seq<u8>>,
) -> ChangeView
    decreases segments.len(),
{
    let x = find_entry(tree_at(files, Some(old_id)).unwrap(), segments[0]).unwrap();
    let y = find_entry(tree_at(files, Some(new_id)).unwrap(), segments[0]).unwrap();
    let path = join_path(prefix, segments[0]);
    if segments.len() <= 1 {
        modified(path, x, y)
    } else {
        changed_file(files, x.oid, y.oid, path, segments.drop_first())
    }
}

proof fn lemma_old_side_one(
    files: Map<Seq<u8>, Seq<u8>>,
    a: Seq<TreeEntryView>,
    b: Seq<TreeEntryView>,
    prefix: Seq<u8>,
    depth: nat,
    k: int,
    i: int,
)
    requires
        distinct_names(a),
        distinct_names(b),
        same_but_at(a, b, k),
        0 <= i <= a.len(),
    ensures
        old_side_changes(files, a, b, prefix, depth, i) matches Ok(changes) ==> if i <= k {
            entry_changes(files, a[k], Some(b[k]), prefix, depth) == Ok::<
                Seq<ChangeView>,
                StoreError,
            >(changes)
        } else {
            changes == Seq::<ChangeView>::empty()
        },
    decreases a.len() - i,
{
    if i < a.len() {
        lemma_old_side_one(files, a, b, prefix, depth, k, i + 1);
        lemma_find_self(b, i);
        assert(a[i].name == b[i].name);
        if i != k {
            assert(a[i] == b[i]);
            lemma_entry_identity(files, a[i], prefix, depth);
        }
        match entry_changes(files, a[i], Some(b[i]), prefix, depth) {
            Ok(head) => match old_side_changes(files, a, b, prefix, depth, i + 1) {
                Ok(tail) => {
                    if i == k {
                        assert(head + tail =~= head);
                    } else if i < k {
                        assert(head + tail =~= tail);
                    } else {
                        assert(head + tail =~= Seq::<ChangeView>::empty());
                    }
                },
                Err(_) => {},
            },
            Err(_) => {},
        }
    }
}

/// Two tables that are the same but for one entry give the changes of that
/// entry, and no other.
proof fn lemma_diff_one_entry(
    files: Map<Seq<u8>, Seq<u8>>,
    old_id: Seq<u8>,
    new_id: Seq<u8>,
    prefix: Seq<u8>,
    depth: nat,
    k: int,
)
    requires
        tree_at(files, Some(old_id)) is Ok,
        tree_at(files, Some(new_id)) is Ok,
        same_but_at(
            tree_at(files, Some(old_id)).unwrap(),
            tree_at(files, Some(new_id)).unwrap(),
            k,
        ),
    ensures
        ({
            let a = tree_at(files, Some(old_id)).unwrap();
            let b = tree_at(files, Some(new_id)).unwrap();
            diff_trees(files, Some(old_id), Some(new_id), prefix, depth) matches Ok(changes)
                ==> entry_changes(files, a[k], Some(b[k]), prefix, depth) == Ok::<
                Seq<ChangeView>,
                StoreError,
            >(changes)
        }),
{
    let a = tree_at(files, Some(old_id)).unwrap();
    let b = tree_at(files, Some(new_id)).unwrap();
    lemma_tree_at_distinct(files, Some(old_id));
    lemma_tree_at_distinct(files, Some(new_id));
    lemma_old_side_one(files, a, b, prefix, depth, k, 0);
    assert forall|j: int| 0 <= j < b.len() implies find_entry(a, (#[trigger] b[j]).name)
        is Some by {
        lemma_find_self(a, j);
        assert(a[j].name == b[j].name);
    }
    lemma_no_additions(a, b, prefix, 0);
    match old_side_changes(files, a, b, prefix, depth, 0) {
        Ok(left) => {
            assert(left + additions(a, b, prefix, 0) =~= left);
        },
        Err(_) => {},
    }
}

/// Diff single-change precision, at one level: two trees that are the same but
/// for the id of one of their files give exactly one record, a modification at
/// that file's path, wherever the comparison succeeds.
pub proof fn lemma_diff_single_change(
    files: Map<Seq<u8>, Seq<u8>>,
    old_id: Seq<u8>,
    new_id: Seq<u8>,
    prefix: Seq<u8>,
    depth: nat,
    k: int,
)
    requires
        tree_at(files, Some(old_id)) is Ok,
        tree_at(files, Some(new_id)) is Ok,
        differ_in_one_blob(
            tree_at(files, Some(old_id)).unwrap(),
            tree_at(files, Some(new_id)).unwrap(),
            k,
        ),
    ensures
        ({
            let a = tree_at(files, Some(old_id)).unwrap();
            let b = tree_at(files, Some(new_id)).unwrap();
            diff_trees(files, Some(old_id), Some(new_id), prefix, depth) matches Ok(changes)
                ==> changes == seq![modified(join_path(prefix, a[k].name), a[k], b[k])]
        }),
{
    lemma_diff_one_entry(files, old_id, new_id, prefix, depth, k);
}

/// Diff single-change precision: two trees that are the same but for the id of
/// one file, at any depth below them, give exactly one record, a modification
/// at that file's path, wherever the comparison succeeds.
pub proof fn lemma_diff_single_file(
    files: Map<Seq<u8>, Seq<u8>>,
    old_id: Seq<u8>,
    new_id: Seq<u8>,
    prefix: Seq<u8>,
    depth: nat,
    segments: Seq<Seq<u8>>,
)
    requires
        differ_in_one_file(files, old_id, new_id, segments),
    ensures
        diff_trees(files, Some(old_id), Some(new_id), prefix, depth) matches Ok(changes)
            ==> changes == seq![changed_file(files, old_id, new_id, prefix, segments)],
    decreases segments.len(),
{
    let a = tree_at(files, Some(old_id)).unwrap();
    let b = tree_at(files, Some(new_id)).unwrap();
    lemma_tree_at_distinct(files, Some(old_id));
    lemma_tree_at_distinct(files, Some(new_id));
    let k = choose|k: int|
        #![trigger a[k]]
        0 <= k < a.len() && a[k].name == segments[0] && if segments.len() == 1 {
            differ_in_one_blob(a, b, k)
        } else {
            differ_in_one_tree(a, b, k) && differ_in_one_file(
                files,
                a[k].oid,
                b[k].oid,
                segments.drop_first(),
            )
        };
    lemma_find_self(a, k);
    lemma_find_self(b, k);
    lemma_diff_one_entry(files, old_id, new_id, prefix, depth, k);
    if segments.len() > 1 && depth > 0 {
        lemma_diff_single_file(
            files,
            a[k].oid,
            b[k].oid,
            join_path(prefix, segments[0]),
            (depth - 1) as nat,
            segments.drop_first(),
        );
    }
}

/// The tree under `id` is stored, and so is every subdirectory below it, and
/// none lies deeper than `depth` levels below it.
pub open spec fn stored_to_depth(files: Map<Seq<u8>, Seq<u8>>, id: Seq<u8>, depth: nat) -> bool
    decreases depth,
{
    &&& tree_at(files, Some(id)) is Ok
    &&& forall|i: int|
        #![trigger tree_at(files, Some(id)).unwrap()[i]]
        0 <= i < tree_at(files, Some(id)).unwrap().len() && tree_at(
            files,
            Some(id),
        ).unwrap()[i].is_tree() ==> depth > 0 && stored_to_depth(
            files,
            tree_at(files, Some(id)).unwrap()[i].oid,
            (depth - 1) as nat,
        )
}

/// One side of a comparison is absent, or stored to `depth`.
pub open spec fn side_stored(
    files: Map<Seq<u8>, Seq<u8>>,
    id: Option<Seq<u8>>,
    depth: nat,
) -> bool {
    match id {
        None => true,
        Some(id) => stored_to_depth(files, id, depth),
    }
}

/// Every subdirectory among the entries is stored to one level less than
/// `depth`.
pub open spec fn subtrees_stored(
    files: Map<Seq<u8>, Seq<u8>>,
    entries: Seq<TreeEntryView>,
    depth: nat,
) -> bool {
    forall|i: int|
        #![trigger entries[i]]
        0 <= i < entries.len() && entries[i].is_tree() ==> depth > 0 && stored_to_depth(
            files,
            entries[i].oid,
            (depth - 1) as nat,
        )
}

proof fn lemma_found_is_entry(s: Seq<TreeEntryView>, name: Seq<u8>, from: int) -> (j: int)
    requires
        0 <= from,
        find_from(s, name, from) is Some,
    ensures
        from <= j < s.len(),
        find_from(s, name, from) == Some(s[j]),
    decreases s.len() - from,
{
    if s[from].name == name {
        from
    } else {
        lemma_found_is_entry(s, name, from + 1)
    }
}

proof fn lemma_side_entries(files: Map<Seq<u8>, Seq<u8>>, id: Option<Seq<u8>>, depth: nat)
    requires
        side_stored(files, id, depth),
    ensures
        tree_at(files, id) is Ok,
        subtrees_stored(files, tree_at(files, id).unwrap(), depth),
{
    match id {
        None => {},
        Some(x) => {
            let entries = tree_at(files, Some(x)).unwrap();
            assert forall|i: int|
                #![trigger entries[i]]
                0 <= i < entries.len() && entries[i].is_tree() implies depth > 0
                && stored_to_depth(files, entries[i].oid, (depth - 1) as nat) by {
                assert(tree_at(files, Some(x)).unwrap()[i].is_tree());
            }
        },
    }
}

proof fn lemma_old_side_succeeds(
    files: Map<Seq<u8>, Seq<u8>>,
    a: Seq<TreeEntryView>,
    b: Seq<TreeEntryView>,
    prefix: Seq<u8>,
    depth: nat,
    i: int,
)
    requires
        subtrees_stored(files, a, depth),
        subtrees_stored(files, b, depth),
        0 <= i <= a.len(),
    ensures
        old_side_changes(files, a, b, prefix, depth, i) is Ok,
    decreases depth, 0int, a.len() - i,
{
    if i < a.len() {
        let x = a[i];
        match find_entry(b, x.name) {
            None => {},
            Some(y) => {
                let j = lemma_found_is_entry(b, x.name, 0);
                assert(b[j] == y);
                if x.is_tree() && y.is_tree() {
                    assert(depth > 0);
                    lemma_diff_succeeds(
                        files,
                        Some(x.oid),
                        Some(y.oid),
                        join_path(prefix, x.name),
                        (depth - 1) as nat,
                    );
                }
            },
        }
        assert(entry_changes(files, x, find_entry(b, x.name), prefix, depth) is Ok);
        lemma_old_side_succeeds(files, a, b, prefix, depth, i + 1);
        assert(old_side_changes(files, a, b, prefix, depth, i + 1) is Ok);
    }
}

/// A comparison succeeds where each side is absent, or stored with every
/// subdirectory below it, none deeper than `depth` levels.
pub proof fn lemma_diff_succeeds(
    files: Map<Seq<u8>, Seq<u8>>,
    old_id: Option<Seq<u8>>,
    new_id: Option<Seq<u8>>,
    prefix: Seq<u8>,
    depth: nat,
)
    requires
        side_stored(files, old_id, depth),
        side_stored(files, new_id, depth),
    ensures
        diff_trees(files, old_id, new_id, prefix, depth) is Ok,
    decreases depth, 1int, 0int,
{
    lemma_side_entries(files, old_id, depth);
    lemma_side_entries(files, new_id, depth);
    lemma_old_side_succeeds(
        files,
        tree_at(files, old_id).unwrap(),
        tree_at(files, new_id).unwrap(),
        prefix,
        depth,
        0,
    );
}

/// Diff identity, for a stored tree: a tree that is stored with every
/// subdirectory below it, compared with itself, gives no change.
pub proof fn lemma_diff_identity_stored(
    files: Map<Seq<u8>, Seq<u8>>,
    id: Seq<u8>,
    prefix: Seq<u8>,
    depth: nat,
)
    requires
        stored_to_depth(files, id, depth),
    ensures
        diff_trees(files, Some(id), Some(id), prefix, depth) == Ok::<Seq<ChangeView>, StoreError>(
            Seq::empty(),
        ),
{
    lemma_diff_succeeds(files, Some(id), Some(id), prefix, depth);
    lemma_diff_identity(files, id, prefix, depth);
}

/// Diff single-change precision, for stored trees: two trees that are stored
/// with every subdirectory below them, and are the same but for the id of one
/// file, give exactly one record, a modification at that file's path.
pub proof fn lemma_diff_single_file_stored(
    files: Map<Seq<u8>, Seq<u8>>,
    old_id: Seq<u8>,
    new_id: Seq<u8>,
    prefix: Seq<u8>,
    depth: nat,
    segments: Seq<Seq<u8>>,
)
    requires
        differ_in_one_file(files, old_id, new_id, segments),
        stored_to_depth(files, old_id, depth),
        stored_to_depth(files, new_id, depth),
    ensures
        diff_trees(files, Some(old_id), Some(new_id), prefix, depth) == Ok::<
            Seq<ChangeView>,
            StoreError,
        >(seq![changed_file(files, old_id, new_id, prefix, segments)]),
{
    lemma_diff_succeeds(files, Some(old_id), Some(new_id), prefix, depth);
    lemma_diff_single_file(files, old_id, new_id, prefix, depth, segments);
}

} // verus!
