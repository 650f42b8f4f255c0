use crate::encoding::{
    byte_position, bytes_stand_at, find_byte, lemma_byte_position, stands_at,
};
use crate::object_id::{
    ObjectId, ascii_chars, hex_ascii, hex_bytes, ids_view, is_hex_text, lemma_hex_ascii,
};
use vstd::prelude::*;
use vstd::slice::{slice_subrange, slice_to_vec};

verus! {

/// What a commit holds: the id of its tree, the ids of its parents in order,
/// its author, and its message.
pub struct CommitView {
    pub tree: Seq<u8>,
    pub parents: Seq<Seq<u8>>,
    pub author: Seq<u8>,
    pub message: Seq<u8>,
}

impl CommitView {
    /// Ids have 20 bytes and the author holds no line feed.
    pub open spec fn wf(self) -> bool {
        &&& self.tree.len() == 20
        &&& forall|i: int| 0 <= i < self.parents.len() ==> (#[trigger] self.parents[i]).len() == 20
        &&& forall|k: int| 0 <= k < self.author.len() ==> self.author[k] != 0x0a
    }
}

/// The word `tree` and a space.
pub open spec fn tree_keyword() -> Seq<u8> {
    seq![0x74u8, 0x72u8, 0x65u8, 0x65u8, 0x20u8]
}

/// The word `parent` and a space.
pub open spec fn parent_keyword() -> Seq<u8> {
    seq![0x70u8, 0x61u8, 0x72u8, 0x65u8, 0x6eu8, 0x74u8, 0x20u8]
}

/// The word `author` and a space.
pub open spec fn author_keyword() -> Seq<u8> {
    seq![0x61u8, 0x75u8, 0x74u8, 0x68u8, 0x6fu8, 0x72u8, 0x20u8]
}

/// A header line that names an object: keyword, the id in text form, line feed.
pub open spec fn id_line(keyword: Seq<u8>, id: Seq<u8>) -> Seq<u8> {
    keyword + hex_ascii(id) + seq![0x0au8]
}

/// One `parent` line for each parent, in order.
pub open spec fn parents_bytes(parents: Seq<Seq<u8>>) -> Seq<u8>
    decreases parents.len(),
{
    if parents.len() == 0 {
        Seq::empty()
    } else {
        id_line(parent_keyword(), parents[0]) + parents_bytes(parents.drop_first())
    }
}

/// What follows the parents: the author line, an empty line, the message.
pub open spec fn commit_tail(author: Seq<u8>, message: Seq<u8>) -> Seq<u8> {
    author_keyword() + author + seq![0x0au8, 0x0au8] + message
}

/// The payload of a commit: the `tree` line, the `parent` lines, the `author`
/// line, an empty line, and the message.
pub open spec fn commit_bytes(c: CommitView) -> Seq<u8> {
    id_line(tree_keyword(), c.tree) + parents_bytes(c.parents) + commit_tail(c.author, c.message)
}

/// The id that the header line at `pos` names, if a line with this keyword
/// stands there.
pub open spec fn id_line_at(bytes: Seq<u8>, pos: int, keyword: Seq<u8>) -> Option<Seq<u8>> {
    let from = pos + keyword.len();
    let text = ascii_chars(bytes.subrange(from, from + 40));
    if stands_at(bytes, pos, keyword) && from + 41 <= bytes.len() && is_hex_text(text) && bytes[from
        + 40] == 0x0a {
        Some(hex_bytes(text))
    } else {
        None
    }
}

/// The parents that the `parent` lines from `pos` on name, and where those
/// lines end.
pub open spec fn decode_parents(bytes: Seq<u8>, pos: int) -> (Seq<Seq<u8>>, int)
    decreases bytes.len() - pos,
{
    match id_line_at(bytes, pos, parent_keyword()) {
        Some(id) => {
            let (rest, end) = decode_parents(bytes, pos + 48);
            (seq![id] + rest, end)
        },
        None => (Seq::empty(), pos),
    }
}

/// The commit that a payload holds, if it holds one.
pub open spec fn parse_commit(bytes: Seq<u8>) -> Option<CommitView> {
    match id_line_at(bytes, 0, tree_keyword()) {
        None => None,
        Some(tree) => {
            let (parents, pos) = decode_parents(bytes, 46);
            let line_end = byte_position(bytes, pos + 7, 0x0a);
            if !stands_at(bytes, pos, author_keyword()) || line_end + 1 >= bytes.len()
                || bytes[line_end + 1] != 0x0a {
                None
            } else {
                Some(
                    CommitView {
                        tree,
                        parents,
                        author: bytes.subrange(pos + 7, line_end),
                        message: bytes.subrange(line_end + 2, bytes.len() as int),
                    },
                )
            }
        },
    }
}

/// What `decode_parents` reads are ids of 20 bytes, and it ends within the
/// payload.
pub proof fn lemma_decoded_parents(bytes: Seq<u8>, pos: int)
    requires
        0 <= pos <= bytes.len(),
    ensures
        forall|i: int|
            0 <= i < decode_parents(bytes, pos).0.len() ==> (#[trigger] decode_parents(
                bytes,
                pos,
            ).0[i]).len() == 20,
        pos <= decode_parents(bytes, pos).1 <= bytes.len(),
    decreases bytes.len() - pos,
{
    match id_line_at(bytes, pos, parent_keyword()) {
        Some(id) => {
            lemma_decoded_parents(bytes, pos + 48);
            let (rest, end) = decode_parents(bytes, pos + 48);
            let all = decode_parents(bytes, pos).0;
            assert forall|i: int| 0 <= i < all.len() implies (#[trigger] all[i]).len() == 20 by {
                if i > 0 {
                    assert(all[i] == rest[i - 1]);
                }
            }
        },
        None => {},
    }
}

proof fn lemma_line_parts(bytes: Seq<u8>, pos: int, keyword: Seq<u8>, text: Seq<u8>)
    requires
        text.len() == 40,
        0 <= pos,
        pos + keyword.len() + 41 <= bytes.len(),
        bytes.subrange(pos, pos + keyword.len() + 41) == keyword + text + seq![0x0au8],
    ensures
        stands_at(bytes, pos, keyword),
        bytes.subrange(pos + keyword.len(), pos + keyword.len() + 40) == text,
        bytes[pos + keyword.len() + 40] == 0x0a,
{
    let line = keyword + text + seq![0x0au8];
    let from = pos + keyword.len();
    assert forall|k: int| 0 <= k < line.len() implies bytes[pos + k] == line[k] by {
        assert(bytes.subrange(pos, pos + keyword.len() + 41)[k] == bytes[pos + k]);
    }
    assert(bytes.subrange(pos, pos + keyword.len()) =~= keyword) by {
        assert forall|k: int| 0 <= k < keyword.len() implies bytes[pos + k] == keyword[k] by {
            assert(line[k] == keyword[k]);
        }
    }
    assert(bytes.subrange(from, from + 40) =~= text) by {
        assert forall|k: int| 0 <= k < 40 implies bytes[from + k] == text[k] by {
            assert(line[keyword.len() as int + k] == text[k]);
        }
    }
    assert(bytes[from + 40] == line[keyword.len() as int + 40]);
}

proof fn lemma_id_line_at(bytes: Seq<u8>, pos: int, keyword: Seq<u8>, id: Seq<u8>)
    requires
        id.len() == 20,
        0 <= pos,
        pos + keyword.len() + 41 <= bytes.len(),
        bytes.subrange(pos, pos + keyword.len() + 41) == id_line(keyword, id),
    ensures
        id_line_at(bytes, pos, keyword) == Some(id),
{
    lemma_hex_ascii(id);
    lemma_line_parts(bytes, pos, keyword, hex_ascii(id));
}

proof fn lemma_decode_parents_round_trip(bytes: Seq<u8>, pos: int, parents: Seq<Seq<u8>>)
    requires
        forall|i: int| 0 <= i < parents.len() ==> (#[trigger] parents[i]).len() == 20,
        0 <= pos,
        pos + parents_bytes(parents).len() <= bytes.len(),
        bytes.subrange(pos, pos + parents_bytes(parents).len()) == parents_bytes(parents),
        !stands_at(bytes, pos + parents_bytes(parents).len(), parent_keyword()),
    ensures
        decode_parents(bytes, pos) == (parents, pos + parents_bytes(parents).len()),
        parents_bytes(parents).len() == 48 * parents.len(),
    decreases parents.len(),
{
    if parents.len() == 0 {
        assert(decode_parents(bytes, pos).0 =~= parents);
    } else {
        let first = parents[0];
        let rest = parents.drop_first();
        let line = id_line(parent_keyword(), first);
        let all = parents_bytes(parents);
        let after = parents_bytes(rest);
        lemma_hex_ascii(first);
        assert(line.len() == 48);
        assert(all == line + after);
        assert(bytes.subrange(pos, pos + 48) =~= line) by {
            assert forall|k: int| 0 <= k < 48 implies bytes[pos + k] == line[k] by {
                assert(bytes.subrange(pos, pos + all.len())[k] == bytes[pos + k]);
            }
        }
        assert(bytes.subrange(pos + 48, pos + 48 + after.len()) =~= after) by {
            assert forall|k: int| 0 <= k < after.len() implies bytes[pos + 48 + k] == after[k] by {
                assert(bytes.subrange(pos, pos + all.len())[48 + k] == bytes[pos + 48 + k]);
            }
        }
        lemma_id_line_at(bytes, pos, parent_keyword(), first);
        assert forall|i: int| 0 <= i < rest.len() implies (#[trigger] rest[i]).len() == 20 by {
            assert(rest[i] == parents[i + 1]);
        }
        lemma_decode_parents_round_trip(bytes, pos + 48, rest);
        assert(seq![first] + rest =~= parents);
    }
}

/// Round trip: the payload written for a commit reads back as that commit.
pub proof fn lemma_commit_round_trip(c: CommitView)
    requires
        c.wf(),
    ensures
        parse_commit(commit_bytes(c)) == Some(c),
{
    let bytes = commit_bytes(c);
    let head = id_line(tree_keyword(), c.tree);
    let middle = parents_bytes(c.parents);
    let tail = commit_tail(c.author, c.message);
    lemma_hex_ascii(c.tree);
    assert(head.len() == 46);
    assert(bytes.subrange(0, 46) =~= head);
    lemma_id_line_at(bytes, 0, tree_keyword(), c.tree);
    let pos: int = 46 + middle.len() as int;
    assert(bytes.subrange(46, pos) =~= middle);
    assert forall|k: int| 0 <= k < tail.len() implies bytes[pos + k] == tail[k] by {}
    assert(bytes.subrange(pos, pos + 7) =~= author_keyword()) by {
        assert forall|k: int| 0 <= k < 7 implies bytes[pos + k] == author_keyword()[k] by {
            assert(tail[k] == author_keyword()[k]);
        }
    }
    assert(!stands_at(bytes, pos, parent_keyword())) by {
        if stands_at(bytes, pos, parent_keyword()) {
            assert(bytes.subrange(pos, pos + 7)[0] == parent_keyword()[0]);
            assert(bytes.subrange(pos, pos + 7)[0] == author_keyword()[0]);
        }
    }
    lemma_decode_parents_round_trip(bytes, 46, c.parents);
    let n = c.author.len() as int;
    let line_end: int = pos + 7 + n;
    assert forall|k: int| pos + 7 <= k < line_end implies bytes[k] != 0x0a by {
        assert(bytes[k] == tail[k - pos]);
        assert(tail[k - pos] == c.author[k - pos - 7]);
    }
    assert(bytes[line_end] == 0x0a) by {
        assert(bytes[line_end] == tail[7 + n]);
    }
    assert(bytes[line_end + 1] == 0x0a) by {
        assert(bytes[line_end + 1] == tail[8 + n]);
    }
    lemma_byte_position(bytes, pos + 7, line_end, 0x0a);
    assert(bytes.subrange(pos + 7, line_end) =~= c.author) by {
        assert forall|k: int| 0 <= k < n implies bytes[pos + 7 + k] == c.author[k] by {
            assert(bytes[pos + 7 + k] == tail[7 + k]);
        }
    }
    assert(bytes.subrange(line_end + 2, bytes.len() as int) =~= c.message) by {
        assert forall|k: int| 0 <= k < c.message.len() implies bytes[line_end + 2 + k]
            == c.message[k] by {
            assert(bytes[line_end + 2 + k] == tail[9 + n + k]);
        }
    }
}

/// A commit.
#[derive(Debug)]
pub struct Commit {
    tree: ObjectId,
    parents: Vec<ObjectId>,
    author: Vec<u8>,
    message: Vec<u8>,
}

impl View for Commit {
    type V = CommitView;

    closed spec fn view(&self) -> CommitView {
        CommitView {
            tree: self.tree@,
            parents: ids_view(self.parents@),
            author: self.author@,
            message: self.message@,
        }
    }
}

fn read_id_line(bytes: &[u8], pos: usize, keyword: &[u8]) -> (r: Option<ObjectId>)
    requires
        pos <= bytes@.len(),
        keyword@.len() <= 7,
    ensures
        match r {
            Some(id) => id_line_at(bytes@, pos as int, keyword@) == Some(id@),
            None => id_line_at(bytes@, pos as int, keyword@) is None,
        },
{
    let total = bytes.len();
    if !bytes_stand_at(bytes, pos, keyword) {
        return None;
    }
    let from = pos + keyword.len();
    if total - from < 41 {
        return None;
    }
    let id = match ObjectId::from_hex_bytes(slice_subrange(bytes, from, from + 40)) {
        Some(id) => id,
        None => {
            return None;
        },
    };
    if bytes[from + 40] != 0x0a {
        return None;
    }
    Some(id)
}

fn keyword_of(which: u8) -> (out: Vec<u8>)
    ensures
        out@ == if which == 0 {
            tree_keyword()
        } else if which == 1 {
            parent_keyword()
        } else {
            author_keyword()
        },
{
    let mut out: Vec<u8> = Vec::new();
    if which == 0 {
        out.push(0x74u8);
        out.push(0x72u8);
        out.push(0x65u8);
        out.push(0x65u8);
    } else if which == 1 {
        out.push(0x70u8);
        out.push(0x61u8);
        out.push(0x72u8);
        out.push(0x65u8);
        out.push(0x6eu8);
        out.push(0x74u8);
    } else {
        out.push(0x61u8);
        out.push(0x75u8);
        out.push(0x74u8);
        out.push(0x68u8);
        out.push(0x6fu8);
        out.push(0x72u8);
    }
    out.push(0x20u8);
    assert(which == 0 ==> out@ =~= tree_keyword());
    assert(which == 1 ==> out@ =~= parent_keyword());
    assert(which > 1 ==> out@ =~= author_keyword());
    out
}

fn push_id_line(out: &mut Vec<u8>, which: u8, id: &ObjectId)
    requires
        which <= 1,
    ensures
        final(out)@ == old(out)@ + id_line(
            if which == 0 {
                tree_keyword()
            } else {
                parent_keyword()
            },
            id@,
        ),
{
    let keyword = keyword_of(which);
    out.extend_from_slice(keyword.as_slice());
    let text = id.to_hex_bytes();
    out.extend_from_slice(text.as_slice());
    out.push(0x0au8);
    assert(out@ =~= old(out)@ + id_line(keyword@, id@));
}

impl Commit {
    /// The commit with the given tree, parents, author and message, if the
    /// author holds no line feed.
    pub fn new(tree: ObjectId, parents: Vec<ObjectId>, author: &[u8], message: &[u8]) -> (r:
        Option<Commit>)
        ensures
            r is Some <==> forall|k: int| 0 <= k < author@.len() ==> author@[k] != 0x0a,
            r matches Some(c) ==> c@.wf() && c@ == (CommitView {
                tree: tree@,
                parents: ids_view(parents@),
                author: author@,
                message: message@,
            }),
    {
        if find_byte(author, 0, 0x0a) < author.len() {
            return None;
        }
        proof {
            tree.lemma_len();
            assert forall|i: int| 0 <= i < parents@.len() implies (#[trigger] ids_view(
                parents@,
            )[i]).len() == 20 by {
                parents@[i].lemma_len();
            }
        }
        Some(Commit { tree, parents, author: slice_to_vec(author), message: slice_to_vec(message) })
    }

    /// The id of the commit's tree.
    pub fn tree(&self) -> (r: ObjectId)
        ensures
            r@ == self@.tree,
    {
        self.tree
    }

    /// The ids of the commit's parents, in order.
    pub fn parents(&self) -> (r: &Vec<ObjectId>)
        ensures
            ids_view(r@) == self@.parents,
    {
        &self.parents
    }

    /// The commit's author.
    pub fn author(&self) -> (r: &[u8])
        ensures
            r@ == self@.author,
    {
        self.author.as_slice()
    }

    /// The commit's message.
    pub fn message(&self) -> (r: &[u8])
        ensures
            r@ == self@.message,
    {
        self.message.as_slice()
    }

    /// Writes the payload of the commit.
    pub fn to_bytes(&self) -> (out: Vec<u8>)
        ensures
            out@ == commit_bytes(self@),
    {
        let mut out: Vec<u8> = Vec::new();
        push_id_line(&mut out, 0, &self.tree);
        let ghost head = out@;
        let ghost parents = ids_view(self.parents@);
        let mut i: usize = 0;
        assert(parents.take(0) =~= Seq::<Seq<u8>>::empty());
        assert(out@ =~= head + parents_bytes(parents.take(0)));
        while i < self.parents.len()
            invariant
                i <= self.parents@.len(),
                parents == ids_view(self.parents@),
                out@ == head + parents_bytes(parents.take(i as int)),
            decreases self.parents@.len() - i,
        {
            let ghost before = out@;
            push_id_line(&mut out, 1, &self.parents[i]);
            proof {
                lemma_parents_bytes_push(parents.take(i as int), parents[i as int]);
                assert(parents.take(i as int).push(parents[i as int]) =~= parents.take(i + 1));
                assert(before + id_line(parent_keyword(), parents[i as int]) =~= head
                    + parents_bytes(parents.take(i + 1)));
            }
            i += 1;
        }
        assert(parents.take(i as int) =~= parents);
        let keyword = keyword_of(2);
        out.extend_from_slice(keyword.as_slice());
        out.extend_from_slice(self.author.as_slice());
        out.push(0x0au8);
        out.push(0x0au8);
        out.extend_from_slice(self.message.as_slice());
        assert(out@ =~= commit_bytes(self@));
        out
    }

    /// Reads the payload of a commit.
    pub fn parse(bytes: &[u8]) -> (r: Option<Commit>)
        ensures
            match r {
                Some(c) => parse_commit(bytes@) == Some(c@),
                None => parse_commit(bytes@) is None,
            },
    {
        let tree = match read_id_line(bytes, 0, keyword_of(0).as_slice()) {
            Some(tree) => tree,
            None => {
                return None;
            },
        };
        let total = bytes.len();
        let mut parents: Vec<ObjectId> = Vec::new();
        let mut pos: usize = 46;
        assert(ids_view(parents@) =~= Seq::<Seq<u8>>::empty());
        loop
            invariant
                46 <= pos <= bytes@.len(),
                bytes@.len() <= usize::MAX,
                decode_parents(bytes@, 46) == (
                    ids_view(parents@) + decode_parents(bytes@, pos as int).0,
                    decode_parents(bytes@, pos as int).1,
                ),
            ensures
                46 <= pos <= bytes@.len(),
                bytes@.len() <= usize::MAX,
                decode_parents(bytes@, 46) == (ids_view(parents@), pos as int),
            decreases bytes@.len() - pos,
        {
            match read_id_line(bytes, pos, keyword_of(1).as_slice()) {
                None => {
                    assert(ids_view(parents@) + Seq::<Seq<u8>>::empty() =~= ids_view(parents@));
                    break ;
                },
                Some(id) => {
                    proof {
                        let done = ids_view(parents@);
                        let rest = decode_parents(bytes@, pos + 48).0;
                        assert(done + (seq![id@] + rest) =~= done.push(id@) + rest);
                        assert(ids_view(parents@.push(id)) =~= done.push(id@));
                    }
                    parents.push(id);
                    pos += 48;
                },
            }
        }
        if !bytes_stand_at(bytes, pos, keyword_of(2).as_slice()) {
            return None;
        }
        let line_end = find_byte(bytes, pos + 7, 0x0a);
        if total - line_end < 2 || bytes[line_end + 1] != 0x0a {
            return None;
        }
        Some(
            Commit {
                tree,
                parents,
                author: slice_to_vec(slice_subrange(bytes, pos + 7, line_end)),
                message: slice_to_vec(slice_subrange(bytes, line_end + 2, total)),
            },
        )
    }
}

/// Serializing one more parent appends its line.
pub proof fn lemma_parents_bytes_push(parents: Seq<Seq<u8>>, id: Seq<u8>)
    ensures
        parents_bytes(parents.push(id)) == parents_bytes(parents) + id_line(parent_keyword(), id),
    decreases parents.len(),
{
    if parents.len() == 0 {
        assert(parents.push(id).drop_first() =~= Seq::<Seq<u8>>::empty());
        assert(parents_bytes(parents.push(id).drop_first()) =~= Seq::<u8>::empty());
        assert(parents_bytes(parents) =~= Seq::<u8>::empty());
        assert(parents_bytes(parents.push(id)) =~= parents_bytes(parents) + id_line(
            parent_keyword(),
            id,
        ));
    } else {
        assert(parents.push(id).drop_first() =~= parents.drop_first().push(id));
        lemma_parents_bytes_push(parents.drop_first(), id);
        assert(parents_bytes(parents.push(id)) =~= parents_bytes(parents) + id_line(
            parent_keyword(),
            id,
        ));
    }
}

} // verus!
