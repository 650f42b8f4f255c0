use crate::encoding::texts_view;
use crate::entry::EntryView;
use crate::index::{Index, tracked_by};
use crate::order::{
    PathOrder, bytes_less, lemma_less_irreflexive, lemma_less_total, lemma_less_transitive,
    order_bytes,
};
use vstd::prelude::*;
use vstd::seq_lib::{to_multiset_insert, to_multiset_remove};
use vstd::string::StringExecFns;
use vstd::utf8::encode_utf8;

verus! {

/// One file or directory of the workspace: its path from the root of the
/// workspace and, for a directory, what it holds.
#[derive(Debug)]
pub struct WorkspaceNode {
    pub path: String,
    pub is_file: bool,
    pub children: Vec<WorkspaceNode>,
}

/// Whether something below `node` could be added to the index: `node` is an
/// untracked file, or a directory that holds such a file at any depth.
pub open spec fn trackable(entries: Seq<EntryView>, node: WorkspaceNode) -> bool
    decreases node,
{
    if node.is_file {
        !tracked_by(entries, encode_utf8(node.path@))
    } else {
        exists|i: int|
            0 <= i < node.children@.len() && trackable(entries, #[trigger] node.children@[i])
    }
}

/// How an untracked node is listed: a file by its path, a directory by its path
/// and a `/`.
pub open spec fn listed_as(node: WorkspaceNode) -> Seq<char> {
    if node.is_file {
        node.path@
    } else {
        node.path@ + "/"@
    }
}

/// The untracked paths at and below `node`. A tracked directory is searched; an
/// untracked file, or an untracked directory that holds a file, is listed, and
/// not searched.
pub open spec fn untracked_at(entries: Seq<EntryView>, node: WorkspaceNode) -> Seq<Seq<char>>
    decreases node, 0nat,
{
    if tracked_by(entries, encode_utf8(node.path@)) {
        if node.is_file {
            Seq::empty()
        } else {
            untracked_from(entries, node.children@, 0)
        }
    } else if trackable(entries, node) {
        seq![listed_as(node)]
    } else {
        Seq::empty()
    }
}

/// The untracked paths at and below the nodes from position `i` on, in order.
pub open spec fn untracked_from(entries: Seq<EntryView>, nodes: Seq<WorkspaceNode>, i: int) -> Seq<
    Seq<char>,
>
    decreases nodes, nodes.len() - i,
{
    if i < 0 || i >= nodes.len() {
        Seq::empty()
    } else {
        untracked_at(entries, nodes[i]) + untracked_from(entries, nodes, i + 1)
    }
}

/// Whether something below `node` could be added to the index: whether `node`
/// is an untracked file, or a directory that holds such a file at any depth.
/// Within a directory the files are tried before the directories.
pub fn is_trackable_path(index: &Index, node: &WorkspaceNode) -> (r: bool)
    ensures
        r == trackable(index@, *node),
    decreases node,
{
    if node.is_file {
        return !index.is_tracked_path(node.path.as_str());
    }
    let count = node.children.len();
    let mut i: usize = 0;
    while i < count
        invariant
            i <= count,
            !node.is_file,
            count == node.children@.len(),
            forall|k: int|
                0 <= k < i && (#[trigger] node.children@[k]).is_file ==> !trackable(
                    index@,
                    node.children@[k],
                ),
        decreases count - i,
    {
        if node.children[i].is_file && is_trackable_path(index, &node.children[i]) {
            assert(trackable(index@, node.children@[i as int]));
            return true;
        }
        i += 1;
    }
    let mut j: usize = 0;
    while j < count
        invariant
            j <= count,
            !node.is_file,
            count == node.children@.len(),
            forall|k: int|
                0 <= k < count && (#[trigger] node.children@[k]).is_file ==> !trackable(
                    index@,
                    node.children@[k],
                ),
            forall|k: int|
                0 <= k < j && !(#[trigger] node.children@[k]).is_file ==> !trackable(
                    index@,
                    node.children@[k],
                ),
        decreases count - j,
    {
        if !node.children[j].is_file && is_trackable_path(index, &node.children[j]) {
            assert(trackable(index@, node.children@[j as int]));
            return true;
        }
        j += 1;
    }
    false
}

/// Lists the untracked paths among `nodes` and below them, in the order of
/// `nodes`: what `untracked_from` says.
pub fn scan_workspace(index: &Index, nodes: &Vec<WorkspaceNode>) -> (untracked: Vec<String>)
    ensures
        texts_view(untracked@) == untracked_from(index@, nodes@, 0),
    decreases nodes,
{
    let mut untracked: Vec<String> = Vec::new();
    let mut i: usize = nodes.len();
    assert(texts_view(untracked@) =~= untracked_from(index@, nodes@, i as int));
    while i > 0
        invariant
            i <= nodes@.len(),
            texts_view(untracked@) == untracked_from(index@, nodes@, i as int),
        decreases i,
    {
        i -= 1;
        let node = &nodes[i];
        let ghost rest = texts_view(untracked@);
        assert(untracked_from(index@, nodes@, i as int) == untracked_at(index@, nodes@[i as int])
            + untracked_from(index@, nodes@, i + 1));
        if index.is_tracked_path(node.path.as_str()) {
            if !node.is_file {
                let mut found = scan_workspace(index, &node.children);
                let ghost head = texts_view(found@);
                found.append(&mut untracked);
                untracked = found;
                assert(texts_view(untracked@) =~= head + rest);
            } else {
                assert(Seq::<Seq<char>>::empty() + rest =~= rest);
            }
        } else if is_trackable_path(index, node) {
            let mut text = String::from_str(node.path.as_str());
            if !node.is_file {
                text.append("/");
            }
            untracked.insert(0, text);
            assert(texts_view(untracked@) =~= seq![listed_as(*node)] + rest);
        } else {
            assert(Seq::<Seq<char>>::empty() + rest =~= rest);
        }
    }
    untracked
}

/// Whether the texts stand in ascending order of their bytes.
pub open spec fn sorted_texts(s: Seq<Seq<char>>) -> bool {
    forall|i: int, j: int|
        #![trigger s[i], s[j]]
        0 <= i < j < s.len() ==> !bytes_less(encode_utf8(s[j]), encode_utf8(s[i]))
}

/// Sorts paths into ascending order of their bytes.
pub fn sort_paths(paths: Vec<String>) -> (sorted: Vec<String>)
    ensures
        sorted_texts(texts_view(sorted@)),
        texts_view(sorted@).to_multiset() == texts_view(paths@).to_multiset(),
{
    let mut rest = paths;
    let mut sorted: Vec<String> = Vec::new();
    assert(texts_view(sorted@) =~= Seq::<Seq<char>>::empty());
    assert(texts_view(sorted@).to_multiset().add(texts_view(rest@).to_multiset()) =~= texts_view(
        paths@,
    ).to_multiset()) by {
        broadcast use vstd::multiset::group_multiset_axioms;

        texts_view(sorted@).to_multiset_ensures();
    }
    while rest.len() > 0
        invariant
            sorted_texts(texts_view(sorted@)),
            texts_view(sorted@).to_multiset().add(texts_view(rest@).to_multiset()) == texts_view(
                paths@,
            ).to_multiset(),
        decreases rest@.len(),
    {
        let ghost rest_before = texts_view(rest@);
        let ghost sorted_before = texts_view(sorted@);
        let path = rest.pop().unwrap();
        proof {
            let last = rest_before.len() - 1;
            assert(texts_view(rest@) =~= rest_before.remove(last));
            assert(rest_before[last] == path@);
            to_multiset_remove(rest_before, last);
            rest_before.to_multiset_ensures();
            assert(rest_before.contains(rest_before[last]));
        }
        let mut at: usize = 0;
        while at < sorted.len()
            invariant
                at <= sorted@.len(),
                sorted_before == texts_view(sorted@),
                forall|k: int|
                    0 <= k < at ==> !bytes_less(encode_utf8(path@), encode_utf8(sorted_before[k])),
            ensures
                at <= sorted@.len(),
                sorted_before == texts_view(sorted@),
                forall|k: int|
                    0 <= k < at ==> !bytes_less(encode_utf8(path@), encode_utf8(sorted_before[k])),
                at < sorted@.len() ==> bytes_less(
                    encode_utf8(path@),
                    encode_utf8(sorted_before[at as int]),
                ),
            decreases sorted@.len() - at,
        {
            match order_bytes(path.as_str().as_bytes(), sorted[at].as_str().as_bytes()) {
                PathOrder::Before => {
                    break ;
                },
                _ => {
                    proof {
                        lemma_less_irreflexive(encode_utf8(path@));
                        lemma_less_total(encode_utf8(path@), encode_utf8(sorted_before[at as int]));
                    }
                },
            }
            at += 1;
        }
        proof {
            let new = encode_utf8(path@);
            let after = sorted_before.insert(at as int, path@);
            assert forall|i: int, j: int| 0 <= i < j < after.len() implies !bytes_less(
                encode_utf8(after[j]),
                encode_utf8(after[i]),
            ) by {
                if j == at {
                    assert(after[i] == sorted_before[i]);
                } else if i == at {
                    let first = encode_utf8(sorted_before[at as int]);
                    let other = encode_utf8(sorted_before[j - 1]);
                    assert(after[j] == sorted_before[j - 1]);
                    if bytes_less(other, new) {
                        lemma_less_transitive(other, new, first);
                        assert(j - 1 == at || bytes_less(other, first));
                        lemma_less_irreflexive(first);
                    }
                } else if j < at {
                    assert(after[i] == sorted_before[i] && after[j] == sorted_before[j]);
                } else if i < at {
                    assert(after[i] == sorted_before[i] && after[j] == sorted_before[j - 1]);
                } else {
                    assert(after[i] == sorted_before[i - 1] && after[j] == sorted_before[j - 1]);
                }
            }
            to_multiset_insert(sorted_before, at as int, path@);
        }
        sorted.insert(at, path);
        proof {
            broadcast use vstd::multiset::group_multiset_axioms;

            assert(texts_view(sorted@) =~= sorted_before.insert(at as int, path@));
            assert(texts_view(sorted@).to_multiset().add(texts_view(rest@).to_multiset())
                =~= sorted_before.to_multiset().add(rest_before.to_multiset()));
        }
    }
    proof {
        broadcast use vstd::multiset::group_multiset_axioms;

        assert(texts_view(rest@) =~= Seq::<Seq<char>>::empty());
        texts_view(rest@).to_multiset_ensures();
        assert(texts_view(sorted@).to_multiset().add(texts_view(rest@).to_multiset())
            =~= texts_view(sorted@).to_multiset());
    }
    sorted
}

/// The status lines for a run of paths: for each, `?? `, the path, a line feed.
pub open spec fn status_text(paths: Seq<Seq<char>>) -> Seq<char>
    decreases paths.len(),
{
    if paths.len() == 0 {
        Seq::empty()
    } else {
        status_text(paths.drop_last()) + "?? "@ + paths.last() + "\n"@
    }
}

/// Writes one status line for each path, in order.
pub fn render_status(paths: &Vec<String>) -> (text: String)
    ensures
        text@ == status_text(texts_view(paths@)),
{
    let ghost all = texts_view(paths@);
    let mut text = String::new();
    let mut i: usize = 0;
    assert(all.take(0) =~= Seq::<Seq<char>>::empty());
    while i < paths.len()
        invariant
            i <= paths@.len(),
            all == texts_view(paths@),
            text@ == status_text(all.take(i as int)),
        decreases paths@.len() - i,
    {
        proof {
            assert(all.take(i + 1).drop_last() =~= all.take(i as int));
            assert(all.take(i + 1).last() == paths@[i as int]@);
        }
        text.append("?? ");
        text.append(paths[i].as_str());
        text.append("\n");
        i += 1;
    }
    assert(all.take(i as int) =~= all);
    text
}

/// The status of the workspace against the index: one line for each untracked
/// path, the paths in ascending order.
pub fn status_command(index: &Index, nodes: &Vec<WorkspaceNode>) -> (text: String)
    ensures
        exists|sorted: Seq<Seq<char>>|
            #![trigger status_text(sorted)]
            sorted_texts(sorted) && sorted.to_multiset() == untracked_from(
                index@,
                nodes@,
                0,
            ).to_multiset() && text@ == status_text(sorted),
{
    let untracked = scan_workspace(index, nodes);
    let sorted = sort_paths(untracked);
    let text = render_status(&sorted);
    assert(text@ == status_text(texts_view(sorted@)));
    text
}

} // verus!
