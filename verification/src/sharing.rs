//! Sharing of sub-scripts: what it means to take the registered fragments of
//! one script into another, when that is safe, and why it keeps the meaning
//! of every block.

use vstd::prelude::*;
use crate::builder::{
    calls_resolve, content_hash, entry_wf, find, flat, fragment_wf, lemma_find,
    lemma_find_prefix, lemma_push_block, lemma_register_keeps, lemma_splice_bounded, meaning,
    span, subs_wf, total_span, BlockView, FragmentView, ScriptView,
};

verus! {

/// The fragments of `host`, then those of `guest` whose identifier is not
/// yet taken, in their order: the first fragment registered under an
/// identifier stays.
pub open spec fn merge_subs(
    host: Seq<(u64, FragmentView)>,
    guest: Seq<(u64, FragmentView)>,
) -> Seq<(u64, FragmentView)>
    decreases guest.len(),
{
    if guest.len() == 0 {
        host
    } else {
        let before = merge_subs(host, guest.drop_last());
        if find(before, guest.last().0) is Some {
            before
        } else {
            before.push(guest.last())
        }
    }
}

/// Whether `blocks` are the blocks of whatever `subs` registers under `id`,
/// if anything.
pub open spec fn same_where_found(
    subs: Seq<(u64, FragmentView)>,
    id: u64,
    blocks: Seq<BlockView>,
) -> bool {
    match find(subs, id) {
        Some(p) => subs[p].1.blocks == blocks,
        None => true,
    }
}

/// Whether the fragments of `guest` can be taken into `host`, and `body`
/// registered under `id` after them, without any identifier coming to stand
/// for two different lists of blocks.
pub open spec fn compatible(
    host: Seq<(u64, FragmentView)>,
    guest: Seq<(u64, FragmentView)>,
    id: u64,
    body: Seq<BlockView>,
) -> bool {
    &&& forall|q: int|
        0 <= q < guest.len() ==> same_where_found(
            host,
            (#[trigger] guest[q]).0,
            guest[q].1.blocks,
        )
    &&& same_where_found(host, id, body)
    &&& same_where_found(guest, id, body)
}

/// What the fragment at position `p` stands for.
pub open spec fn fragment_meaning(subs: Seq<(u64, FragmentView)>, p: int) -> Seq<u8> {
    flat(subs.take(p), subs[p].1.blocks)
}

/// Whether `id` is registered in both `a` and `b`, with the same meaning and
/// the same size.
pub open spec fn agree_on(
    a: Seq<(u64, FragmentView)>,
    b: Seq<(u64, FragmentView)>,
    id: u64,
) -> bool {
    match (find(a, id), find(b, id)) {
        (Some(p), Some(q)) => fragment_meaning(a, p) == fragment_meaning(b, q) && a[p].1.size
            == b[q].1.size,
        _ => false,
    }
}

/// Where an identifier is looked up after one more registration.
pub proof fn lemma_find_push(subs: Seq<(u64, FragmentView)>, entry: (u64, FragmentView), id: u64)
    ensures
        find(subs.push(entry), id) == if id == entry.0 {
            Some(subs.len() as int)
        } else {
            find(subs, id)
        },
{
    assert(subs.push(entry).drop_last() =~= subs);
}

/// What a call stands for and spans among the first `n` fragments, where it
/// resolves there.
pub proof fn lemma_resolved_call(subs: Seq<(u64, FragmentView)>, n: int, id: u64)
    requires
        subs_wf(subs),
        0 <= n <= subs.len(),
        find(subs.take(n), id) is Some,
    ensures
        find(subs, id) is Some,
        find(subs, id).unwrap() < n,
        find(subs.take(n), id) == find(subs, id),
        meaning(subs.take(n), BlockView::Call(id)) == fragment_meaning(
            subs,
            find(subs, id).unwrap(),
        ),
        span(subs.take(n), BlockView::Call(id)) == subs[find(subs, id).unwrap()].1.size,
{
    lemma_find_prefix(subs, n, id);
    lemma_find(subs, id);
    let p = find(subs, id).unwrap();
    assert(subs.take(n).take(p) =~= subs.take(p));
    assert(subs.take(n)[p] == subs[p]);
}

/// Blocks mean and span the same in two registries that give every call in
/// them the same meaning and span.
pub proof fn lemma_same_calls(
    a: Seq<(u64, FragmentView)>,
    b: Seq<(u64, FragmentView)>,
    blocks: Seq<BlockView>,
)
    requires
        forall|i: int|
            0 <= i < blocks.len() && (#[trigger] blocks[i]) is Call ==> meaning(a, blocks[i])
                == meaning(b, blocks[i]) && span(a, blocks[i]) == span(b, blocks[i]),
    ensures
        flat(a, blocks) == flat(b, blocks),
        total_span(a, blocks) == total_span(b, blocks),
    decreases blocks.len(),
{
    if blocks.len() > 0 {
        let front = blocks.drop_last();
        assert forall|i: int| 0 <= i < front.len() && (#[trigger] front[i]) is Call implies meaning(
            a,
            front[i],
        ) == meaning(b, front[i]) && span(a, front[i]) == span(b, front[i]) by {
            assert(front[i] == blocks[i]);
        }
        lemma_same_calls(a, b, front);
        let last = blocks[blocks.len() - 1];
        if last is Call {
        } else {
            assert(meaning(a, last) == meaning(b, last));
        }
    }
}

/// Whether the merged registry agrees with the guest on the identifier of
/// the guest's fragment at `k`.
pub open spec fn agree_at(
    acc: Seq<(u64, FragmentView)>,
    guest: Seq<(u64, FragmentView)>,
    k: int,
) -> bool {
    agree_on(acc, guest, guest[k].0)
}

/// Whether the entry of the merged registry at `p` is the guest's fragment
/// at `k`.
pub open spec fn taken_from(
    acc: Seq<(u64, FragmentView)>,
    guest: Seq<(u64, FragmentView)>,
    p: int,
    k: int,
) -> bool {
    guest[k] == acc[p]
}

/// Whether the entry of the merged registry at `p` is one of the first `j`
/// fragments of the guest.
pub open spec fn taken(
    acc: Seq<(u64, FragmentView)>,
    guest: Seq<(u64, FragmentView)>,
    j: int,
    p: int,
) -> bool {
    exists|k: int| 0 <= k < j && #[trigger] taken_from(acc, guest, p, k)
}

/// The state of a merge: `acc` is well formed, begins with `host`, holds
/// beyond it only fragments of the guest, and agrees with the guest on the
/// identifiers of its first `j` fragments.
pub open spec fn merge_state(
    host: Seq<(u64, FragmentView)>,
    guest: Seq<(u64, FragmentView)>,
    j: int,
    acc: Seq<(u64, FragmentView)>,
) -> bool {
    &&& subs_wf(acc)
    &&& host.len() <= acc.len()
    &&& acc.take(host.len() as int) == host
    &&& forall|k: int| 0 <= k < j ==> #[trigger] agree_at(acc, guest, k)
    &&& forall|p: int| host.len() <= p < acc.len() ==> #[trigger] taken(acc, guest, j, p)
}

/// A fragment of the guest that is compared with an entry of the merged
/// registry under the same identifier and has the same blocks agrees with
/// it.
proof fn lemma_same_blocks_agree(
    acc: Seq<(u64, FragmentView)>,
    guest: Seq<(u64, FragmentView)>,
    j: int,
    p: int,
)
    requires
        subs_wf(acc),
        subs_wf(guest),
        0 <= j < guest.len(),
        0 <= p < acc.len(),
        acc[p].0 == guest[j].0,
        acc[p].1.blocks == guest[j].1.blocks,
        forall|k: int| 0 <= k < j ==> #[trigger] agree_at(acc, guest, k),
    ensures
        find(acc, guest[j].0) == Some(p),
        find(guest, guest[j].0) == Some(j),
        fragment_meaning(acc, p) == fragment_meaning(guest, j),
        acc[p].1.size == guest[j].1.size,
{
    let blocks = guest[j].1.blocks;
    let a = acc.take(p);
    let b = guest.take(j);
    lemma_position(acc, p);
    lemma_position(guest, j);
    assert(entry_wf(acc, p));
    assert(entry_wf(guest, j));
    assert forall|i: int| 0 <= i < blocks.len() && (#[trigger] blocks[i]) is Call implies meaning(
        a,
        blocks[i],
    ) == meaning(b, blocks[i]) && span(a, blocks[i]) == span(b, blocks[i]) by {
        let id = blocks[i]->Call_0;
        assert(blocks[i] == BlockView::Call(id));
        lemma_resolved_call(acc, p, id);
        lemma_resolved_call(guest, j, id);
        let k = find(guest, id).unwrap();
        lemma_find(guest, id);
        assert(agree_at(acc, guest, k));
    }
    lemma_same_calls(a, b, blocks);
}

/// In a well-formed registry the identifier of the entry at `p` is found at
/// `p`.
pub proof fn lemma_position(subs: Seq<(u64, FragmentView)>, p: int)
    requires
        subs_wf(subs),
        0 <= p < subs.len(),
    ensures
        find(subs, subs[p].0) == Some(p),
{
    lemma_find(subs, subs[p].0);
    let found = find(subs, subs[p].0).unwrap();
    if found != p {
        let (low, high) = if found < p {
            (found, p)
        } else {
            (p, found)
        };
        assert(entry_wf(subs, high));
        lemma_find(subs.take(high), subs[p].0);
        assert(subs.take(high)[low] == subs[low]);
    }
}

/// One more registration keeps the agreement on an identifier.
proof fn lemma_agree_push(
    acc: Seq<(u64, FragmentView)>,
    guest: Seq<(u64, FragmentView)>,
    entry: (u64, FragmentView),
    id: u64,
)
    requires
        find(acc, entry.0) is None,
        agree_on(acc, guest, id),
    ensures
        agree_on(acc.push(entry), guest, id),
{
    lemma_find_push(acc, entry, id);
    lemma_find(acc, id);
    let p = find(acc, id).unwrap();
    assert(acc.push(entry).take(p) =~= acc.take(p));
    assert(acc.push(entry)[p] == acc[p]);
}

/// A step of a merge over a fragment whose identifier is already taken, by
/// an entry with the same blocks.
proof fn lemma_merge_skip(
    host: Seq<(u64, FragmentView)>,
    guest: Seq<(u64, FragmentView)>,
    j: int,
    acc: Seq<(u64, FragmentView)>,
)
    requires
        subs_wf(guest),
        0 <= j < guest.len(),
        merge_state(host, guest, j, acc),
        find(acc, guest[j].0) is Some,
        acc[find(acc, guest[j].0).unwrap()].1.blocks == guest[j].1.blocks,
    ensures
        merge_state(host, guest, j + 1, acc),
{
    lemma_find(acc, guest[j].0);
    let p = find(acc, guest[j].0).unwrap();
    lemma_same_blocks_agree(acc, guest, j, p);
    assert forall|k: int| 0 <= k < j + 1 implies #[trigger] agree_at(acc, guest, k) by {
        if k < j {
            assert(agree_at(acc, guest, k));
        }
    }
    assert forall|p2: int| host.len() <= p2 < acc.len() implies #[trigger] taken(
        acc,
        guest,
        j + 1,
        p2,
    ) by {
        assert(taken(acc, guest, j, p2));
        let k = choose|k: int| 0 <= k < j && #[trigger] taken_from(acc, guest, p2, k);
        assert(0 <= k < j + 1 && taken_from(acc, guest, p2, k));
    }
}

/// A fragment of the guest whose identifier is still free is consistent
/// with the merged registry, and means in it what it means in the guest.
pub proof fn lemma_merge_entry(
    acc: Seq<(u64, FragmentView)>,
    guest: Seq<(u64, FragmentView)>,
    j: int,
    f: FragmentView,
)
    requires
        subs_wf(acc),
        subs_wf(guest),
        0 <= j <= guest.len(),
        fragment_wf(guest.take(j), f),
        forall|k: int| 0 <= k < j ==> #[trigger] agree_at(acc, guest, k),
    ensures
        fragment_wf(acc, f),
        flat(acc, f.blocks) == flat(guest.take(j), f.blocks),
{
    let blocks = f.blocks;
    let b = guest.take(j);
    assert(acc.take(acc.len() as int) =~= acc);
    assert forall|i: int| 0 <= i < blocks.len() && (#[trigger] blocks[i]) is Call implies {
        &&& find(acc, blocks[i]->Call_0) is Some
        &&& meaning(acc, blocks[i]) == meaning(b, blocks[i])
        &&& span(acc, blocks[i]) == span(b, blocks[i])
    } by {
        let id = blocks[i]->Call_0;
        assert(blocks[i] == BlockView::Call(id));
        lemma_resolved_call(guest, j, id);
        let k = find(guest, id).unwrap();
        lemma_find(guest, id);
        assert(agree_at(acc, guest, k));
        lemma_find(acc, id);
        lemma_resolved_call(acc, acc.len() as int, id);
    }
    lemma_same_calls(acc, b, blocks);
    assert forall|i: int| 0 <= i < blocks.len() implies match #[trigger] blocks[i] {
        BlockView::Call(id) => find(acc, id) is Some,
        BlockView::Script(_) => true,
    } by {
        if blocks[i] is Call {
        }
    }
}

/// Registering one more fragment under a free identifier keeps a registry
/// well formed.
pub proof fn lemma_push_wf(acc: Seq<(u64, FragmentView)>, entry: (u64, FragmentView))
    requires
        subs_wf(acc),
        find(acc, entry.0) is None,
        fragment_wf(acc, entry.1),
    ensures
        subs_wf(acc.push(entry)),
{
    let next = acc.push(entry);
    assert forall|t: int| 0 <= t < next.len() implies #[trigger] entry_wf(next, t) by {
        if t < acc.len() {
            assert(entry_wf(acc, t));
            assert(next.take(t) =~= acc.take(t));
            assert(next[t] == acc[t]);
        } else {
            assert(next.take(t) =~= acc);
        }
    }
}

/// A step of a merge over a fragment whose identifier is still free.
proof fn lemma_merge_take(
    host: Seq<(u64, FragmentView)>,
    guest: Seq<(u64, FragmentView)>,
    j: int,
    acc: Seq<(u64, FragmentView)>,
)
    requires
        subs_wf(guest),
        0 <= j < guest.len(),
        merge_state(host, guest, j, acc),
        find(acc, guest[j].0) is None,
    ensures
        merge_state(host, guest, j + 1, acc.push(guest[j])),
{
    let entry = guest[j];
    let next = acc.push(entry);
    assert(entry_wf(guest, j));
    lemma_merge_entry(acc, guest, j, entry.1);
    lemma_push_wf(acc, entry);
    lemma_position(guest, j);
    assert(next.take(host.len() as int) =~= acc.take(host.len() as int));
    assert forall|k: int| 0 <= k < j + 1 implies #[trigger] agree_at(next, guest, k) by {
        if k < j {
            assert(agree_at(acc, guest, k));
            lemma_agree_push(acc, guest, entry, guest[k].0);
        } else {
            lemma_find_push(acc, entry, entry.0);
            assert(next.take(acc.len() as int) =~= acc);
        }
    }
    assert forall|p2: int| host.len() <= p2 < next.len() implies #[trigger] taken(
        next,
        guest,
        j + 1,
        p2,
    ) by {
        if p2 < acc.len() {
            assert(taken(acc, guest, j, p2));
            let k = choose|k: int| 0 <= k < j && #[trigger] taken_from(acc, guest, p2, k);
            assert(next[p2] == acc[p2]);
            assert(0 <= k < j + 1 && taken_from(next, guest, p2, k));
        } else {
            assert(0 <= j < j + 1 && taken_from(next, guest, p2, j));
        }
    }
}

/// The blocks of an entry of the merged registry that carries the
/// identifier of the guest's fragment at `j` are the blocks of that
/// fragment, where host and guest are compatible.
proof fn lemma_merge_same_blocks(
    host: Seq<(u64, FragmentView)>,
    guest: Seq<(u64, FragmentView)>,
    j: int,
    acc: Seq<(u64, FragmentView)>,
)
    requires
        subs_wf(host),
        subs_wf(guest),
        0 <= j < guest.len(),
        merge_state(host, guest, j, acc),
        same_where_found(host, guest[j].0, guest[j].1.blocks),
        find(acc, guest[j].0) is Some,
    ensures
        acc[find(acc, guest[j].0).unwrap()].1.blocks == guest[j].1.blocks,
{
    lemma_find(acc, guest[j].0);
    let p = find(acc, guest[j].0).unwrap();
    lemma_position(guest, j);
    if p < host.len() {
        assert(acc.take(host.len() as int)[p] == acc[p]);
        lemma_position(host, p);
    } else {
        assert(taken(acc, guest, j, p));
        let k = choose|k: int| 0 <= k < j && #[trigger] taken_from(acc, guest, p, k);
        lemma_position(guest, k);
    }
}

/// A merge of a guest into a host with which it is compatible, as far as
/// the first `j` fragments of the guest, is in the state of a merge.
pub proof fn lemma_merge(
    host: Seq<(u64, FragmentView)>,
    guest: Seq<(u64, FragmentView)>,
    j: int,
)
    requires
        subs_wf(host),
        subs_wf(guest),
        0 <= j <= guest.len(),
        forall|q: int|
            0 <= q < guest.len() ==> same_where_found(
                host,
                (#[trigger] guest[q]).0,
                guest[q].1.blocks,
            ),
    ensures
        merge_state(host, guest, j, merge_subs(host, guest.take(j))),
    decreases j,
{
    if j == 0 {
        assert(guest.take(0) =~= Seq::<(u64, FragmentView)>::empty());
        assert(host.take(host.len() as int) =~= host);
    } else {
        lemma_merge(host, guest, j - 1);
        assert(guest.take(j).drop_last() =~= guest.take(j - 1));
        assert(guest.take(j).last() == guest[j - 1]);
        let acc = merge_subs(host, guest.take(j - 1));
        if find(acc, guest[j - 1].0) is Some {
            lemma_merge_same_blocks(host, guest, j - 1, acc);
            lemma_merge_skip(host, guest, j - 1, acc);
        } else {
            lemma_merge_take(host, guest, j - 1, acc);
        }
    }
}

/// The first fragments of a well-formed registry are a well-formed registry.
pub proof fn lemma_take_wf(subs: Seq<(u64, FragmentView)>, n: int)
    requires
        subs_wf(subs),
        0 <= n <= subs.len(),
    ensures
        subs_wf(subs.take(n)),
{
    let front = subs.take(n);
    assert forall|j: int| 0 <= j < front.len() implies #[trigger] entry_wf(front, j) by {
        assert(entry_wf(subs, j));
        assert(front.take(j) =~= subs.take(j));
        assert(front[j] == subs[j]);
    }
}

/// Blocks whose calls resolve among the first `n` fragments mean and span
/// among all fragments what they do among the first `n`.
pub proof fn lemma_prefix_same(subs: Seq<(u64, FragmentView)>, n: int, blocks: Seq<BlockView>)
    requires
        subs_wf(subs),
        0 <= n <= subs.len(),
        calls_resolve(subs.take(n), blocks),
    ensures
        calls_resolve(subs, blocks),
        flat(subs.take(n), blocks) == flat(subs, blocks),
        total_span(subs.take(n), blocks) == total_span(subs, blocks),
{
    assert(subs.take(subs.len() as int) =~= subs);
    assert forall|i: int| 0 <= i < blocks.len() && (#[trigger] blocks[i]) is Call implies {
        &&& find(subs, blocks[i]->Call_0) is Some
        &&& meaning(subs.take(n), blocks[i]) == meaning(subs, blocks[i])
        &&& span(subs.take(n), blocks[i]) == span(subs, blocks[i])
    } by {
        let id = blocks[i]->Call_0;
        assert(blocks[i] == BlockView::Call(id));
        lemma_resolved_call(subs, n, id);
        lemma_resolved_call(subs, subs.len() as int, id);
    }
    lemma_same_calls(subs.take(n), subs, blocks);
    assert forall|i: int| 0 <= i < blocks.len() implies match #[trigger] blocks[i] {
        BlockView::Call(id) => find(subs, id) is Some,
        BlockView::Script(_) => true,
    } by {
        if blocks[i] is Call {
        }
    }
}

/// Blocks whose calls resolve in a well-formed registry compile to as many
/// bytes as they span.
pub proof fn lemma_flat_len(subs: Seq<(u64, FragmentView)>, blocks: Seq<BlockView>)
    requires
        subs_wf(subs),
        calls_resolve(subs, blocks),
    ensures
        flat(subs, blocks).len() == total_span(subs, blocks),
    decreases subs.len(), blocks.len(),
{
    if blocks.len() > 0 {
        let front = blocks.drop_last();
        assert forall|i: int| 0 <= i < front.len() implies match #[trigger] front[i] {
            BlockView::Call(id) => find(subs, id) is Some,
            BlockView::Script(_) => true,
        } by {
            assert(front[i] == blocks[i]);
        }
        lemma_flat_len(subs, front);
        let last = blocks[blocks.len() - 1];
        match last {
            BlockView::Call(id) => {
                lemma_find(subs, id);
                let p = find(subs, id).unwrap();
                assert(entry_wf(subs, p));
                lemma_take_wf(subs, p);
                lemma_flat_len(subs.take(p), subs[p].1.blocks);
                assert(meaning(subs, last) == flat(subs.take(p), subs[p].1.blocks));
                assert(span(subs, last) == subs[p].1.size);
            },
            BlockView::Script(bytes) => {
                assert(meaning(subs, last) == bytes);
                assert(span(subs, last) == bytes.len());
            },
        }
        assert(flat(subs, blocks) == flat(subs, front) + meaning(subs, last));
        assert(total_span(subs, blocks) == total_span(subs, front) + span(subs, last));
    }
}

/// A well-formed script compiles to as many bytes as its size says.
pub proof fn lemma_compiled_len(script: ScriptView)
    requires
        script.wf(),
    ensures
        script.compiled().len() == script.body.size,
{
    lemma_flat_len(script.subs, script.body.blocks);
}

/// `f` under another label.
pub open spec fn labelled(f: FragmentView, label: Seq<char>) -> FragmentView {
    FragmentView { debug_identifier: label, ..f }
}

/// The label of a fragment that is registered from within another: the two
/// labels with a space between.
pub open spec fn joined_label(outer: Seq<char>, inner: Seq<char>) -> Seq<char> {
    outer + " "@ + inner
}

impl ScriptView {
    /// Whether `data` can be added to this script: one of the two is empty,
    /// or no identifier stands for one list of blocks in one of them and for
    /// another in the other. An identifier is the hash of a content; within
    /// one script it stands for one content.
    pub open spec fn shares_with(self, data: ScriptView) -> bool {
        data.body.size == 0 || self.body.size == 0 || compatible(
            self.subs,
            data.subs,
            content_hash(data.body.blocks),
            data.body.blocks,
        )
    }

    /// The registry of this script after `body` has been registered under
    /// `id`, after the fragments of `guest`: what is registered first under
    /// an identifier stays.
    pub open spec fn registry_with(
        self,
        guest: Seq<(u64, FragmentView)>,
        id: u64,
        body: FragmentView,
    ) -> Seq<(u64, FragmentView)> {
        let merged = merge_subs(self.subs, guest);
        if find(merged, id) is Some {
            merged
        } else {
            merged.push((id, body))
        }
    }

    /// This script with `data` added at the end.
    ///
    /// An empty `data` changes nothing, and an empty script becomes `data`.
    /// Otherwise `data` is registered under the content hash of its blocks,
    /// after its own registered fragments, unless the identifier is taken,
    /// and a call of it is added.
    pub open spec fn push_env_script(self, data: ScriptView) -> ScriptView {
        let id = content_hash(data.body.blocks);
        if data.body.size == 0 {
            self
        } else if self.body.size == 0 {
            data
        } else {
            ScriptView {
                body: self.body.splice(data.body, BlockView::Call(id)),
                subs: self.registry_with(
                    data.subs,
                    id,
                    labelled(
                        data.body,
                        joined_label(self.body.debug_identifier, data.body.debug_identifier),
                    ),
                ),
            }
        }
    }
}

/// A block added to the fragment of a script, which stands for the bytes
/// `bytes` and spans the size of `other`, keeps the script well formed and
/// adds `bytes` to what it compiles to.
pub proof fn lemma_splice(
    subs: Seq<(u64, FragmentView)>,
    body: FragmentView,
    other: FragmentView,
    block: BlockView,
)
    requires
        subs_wf(subs),
        fragment_wf(subs, body),
        other.bounded_by(other.size),
        body.size + other.size <= usize::MAX,
        block is Call ==> find(subs, block->Call_0) is Some,
        span(subs, block) == other.size,
    ensures
        fragment_wf(subs, body.splice(other, block)),
        flat(subs, body.splice(other, block).blocks) == flat(subs, body.blocks) + meaning(
            subs,
            block,
        ),
{
    let joined = body.splice(other, block);
    lemma_push_block(subs, body.blocks, block);
    lemma_splice_bounded(body, other, block);
    assert forall|i: int| 0 <= i < joined.blocks.len() implies match #[trigger] joined.blocks[i] {
        BlockView::Call(id) => find(subs, id) is Some,
        BlockView::Script(_) => true,
    } by {
        if i < body.blocks.len() {
            assert(joined.blocks[i] == body.blocks[i]);
        }
    }
}

/// What a registry becomes when the fragment `entry`, whose blocks are those
/// of the script `b`, is registered under `id` after the fragments of `b`,
/// in a script with which `b` is compatible: the registry stays well
/// formed and begins with what it held, the blocks of the first script mean
/// what they did, and `id` stands for the blocks, the bytes and the size of
/// `b`.
pub proof fn lemma_register_script(a: ScriptView, b: ScriptView, id: u64, entry: FragmentView)
    requires
        a.wf(),
        b.wf(),
        compatible(a.subs, b.subs, id, b.body.blocks),
        entry == labelled(b.body, entry.debug_identifier),
    ensures
        ({
            let merged = merge_subs(a.subs, b.subs);
            let subs = a.registry_with(b.subs, id, entry);
            &&& subs_wf(merged)
            &&& fragment_wf(merged, a.body)
            &&& fragment_wf(merged, entry)
            &&& subs_wf(subs)
            &&& fragment_wf(subs, a.body)
            &&& flat(subs, a.body.blocks) == a.compiled()
            &&& find(subs, id) is Some
            &&& meaning(subs, BlockView::Call(id)) == b.compiled()
            &&& span(subs, BlockView::Call(id)) == b.body.size
            &&& 0 <= find(subs, id).unwrap() < subs.len()
            &&& subs[find(subs, id).unwrap()].1.blocks == b.body.blocks
            &&& a.subs.len() <= subs.len()
            &&& subs.take(a.subs.len() as int) == a.subs
        }),
{
    let host = a.subs;
    let guest = b.subs;
    let merged = merge_subs(host, guest);
    assert(guest.take(guest.len() as int) =~= guest);
    lemma_merge(host, guest, guest.len() as int);
    lemma_prefix_same(merged, host.len() as int, a.body.blocks);
    lemma_merge_entry(merged, guest, guest.len() as int, b.body);
    if find(merged, id) is Some {
        lemma_find(merged, id);
        let p = find(merged, id).unwrap();
        assert(merged[p].1.blocks == b.body.blocks) by {
            if p < host.len() {
                assert(merged.take(host.len() as int)[p] == merged[p]);
                lemma_position(host, p);
            } else {
                assert(taken(merged, guest, guest.len() as int, p));
                let k = choose|k: int|
                    0 <= k < guest.len() && #[trigger] taken_from(merged, guest, p, k);
                lemma_position(guest, k);
            }
        }
        assert(entry_wf(merged, p));
        lemma_prefix_same(merged, p, b.body.blocks);
    } else {
        let subs = merged.push((id, entry));
        lemma_push_wf(merged, (id, entry));
        lemma_register_keeps(merged, (id, entry), a.body.blocks);
        lemma_find_push(merged, (id, entry), id);
        assert(subs.take(merged.len() as int) =~= merged);
        assert(subs.take(host.len() as int) =~= merged.take(host.len() as int));
    }
}

/// The same for a fragment registered under any identifier with its own
/// label.
pub proof fn lemma_registry(a: ScriptView, b: ScriptView, id: u64)
    requires
        a.wf(),
        b.wf(),
        compatible(a.subs, b.subs, id, b.body.blocks),
    ensures
        ({
            let merged = merge_subs(a.subs, b.subs);
            let subs = a.registry_with(b.subs, id, b.body);
            &&& subs_wf(merged)
            &&& fragment_wf(merged, b.body)
            &&& subs_wf(subs)
            &&& fragment_wf(subs, a.body)
            &&& find(subs, id) is Some
            &&& 0 <= find(subs, id).unwrap() < subs.len()
            &&& subs[find(subs, id).unwrap()].1.blocks == b.body.blocks
            &&& a.subs.len() <= subs.len()
            &&& subs.take(a.subs.len() as int) == a.subs
        }),
{
    lemma_register_script(a, b, id, b.body);
}

/// What a registry and a block become when a script is added to a script
/// with which it is compatible.
pub proof fn lemma_share(a: ScriptView, b: ScriptView)
    requires
        a.wf(),
        b.wf(),
        compatible(a.subs, b.subs, content_hash(b.body.blocks), b.body.blocks),
    ensures
        ({
            let id = content_hash(b.body.blocks);
            let merged = merge_subs(a.subs, b.subs);
            let entry = labelled(
                b.body,
                joined_label(a.body.debug_identifier, b.body.debug_identifier),
            );
            let subs = a.registry_with(b.subs, id, entry);
            &&& subs_wf(merged)
            &&& fragment_wf(merged, a.body)
            &&& fragment_wf(merged, entry)
            &&& subs_wf(subs)
            &&& fragment_wf(subs, a.body)
            &&& flat(subs, a.body.blocks) == a.compiled()
            &&& find(subs, id) is Some
            &&& meaning(subs, BlockView::Call(id)) == b.compiled()
            &&& span(subs, BlockView::Call(id)) == b.body.size
            &&& 0 <= find(subs, id).unwrap() < subs.len()
            &&& subs[find(subs, id).unwrap()].1.blocks == b.body.blocks
            &&& a.subs.len() <= subs.len()
            &&& subs.take(a.subs.len() as int) == a.subs
        }),
{
    lemma_register_script(
        a,
        b,
        content_hash(b.body.blocks),
        labelled(b.body, joined_label(a.body.debug_identifier, b.body.debug_identifier)),
    );
}

/// Adding a script to a script keeps it well formed, and the result
/// compiles to the bytes of the first followed by the bytes of the second.
pub proof fn lemma_push_env_script(a: ScriptView, b: ScriptView)
    requires
        a.wf(),
        b.wf(),
        a.shares_with(b),
        a.body.size + b.body.size <= usize::MAX,
    ensures
        a.push_env_script(b).wf(),
        a.push_env_script(b).compiled() == a.compiled() + b.compiled(),
        a.push_env_script(b).body.size == a.body.size + b.body.size,
{
    let id = content_hash(b.body.blocks);
    lemma_compiled_len(a);
    lemma_compiled_len(b);
    if b.body.size == 0 {
        assert(a.compiled() + b.compiled() =~= a.compiled());
    } else if a.body.size == 0 {
        assert(a.compiled() + b.compiled() =~= b.compiled());
    } else {
        lemma_share(a, b);
        let subs = a.push_env_script(b).subs;
        lemma_splice(subs, a.body, b.body, BlockView::Call(id));
    }
}

/// A script added twice adds its bytes twice: however often a script is
/// shared, each call of it stands for the same bytes.
pub proof fn lemma_push_env_script_twice(a: ScriptView, b: ScriptView)
    requires
        a.wf(),
        b.wf(),
        a.body.size > 0,
        a.shares_with(b),
        a.body.size + b.body.size + b.body.size <= usize::MAX,
    ensures
        a.push_env_script(b).push_env_script(b).wf(),
        a.push_env_script(b).push_env_script(b).compiled() == a.compiled() + b.compiled()
            + b.compiled(),
{
    lemma_push_env_script(a, b);
    if b.body.size > 0 {
        lemma_share_again(a, b);
    }
    lemma_push_env_script(a.push_env_script(b), b);
}

/// Adding a script to a script adds its count of open conditionals: the
/// `OP_ENDIF`s of the second that close conditionals of the first are taken
/// from both sides of the count.
pub proof fn lemma_push_env_script_balance(a: ScriptView, b: ScriptView)
    requires
        a.wf(),
        b.wf(),
    ensures
        a.push_env_script(b).body.num_unclosed_ifs() == a.body.num_unclosed_ifs()
            + b.body.num_unclosed_ifs(),
{
    if b.body.size == 0 {
        assert(b.body.unclosed_ifs.len() == 0) by {
            if b.body.unclosed_ifs.len() > 0 {
                assert(b.body.unclosed_ifs[0] < b.body.size);
            }
        }
        assert(b.body.extra_endifs.len() == 0) by {
            if b.body.extra_endifs.len() > 0 {
                assert(b.body.extra_endifs[0] < b.body.size);
            }
        }
    } else if a.body.size == 0 {
        assert(a.body.unclosed_ifs.len() == 0) by {
            if a.body.unclosed_ifs.len() > 0 {
                assert(a.body.unclosed_ifs[0] < a.body.size);
            }
        }
        assert(a.body.extra_endifs.len() == 0) by {
            if a.body.extra_endifs.len() > 0 {
                assert(a.body.extra_endifs[0] < a.body.size);
            }
        }
    }
}

/// After a merge every identifier of the guest is registered with the
/// blocks that it has in the guest.
pub proof fn lemma_merged_holds(
    host: Seq<(u64, FragmentView)>,
    guest: Seq<(u64, FragmentView)>,
    q: int,
)
    requires
        subs_wf(host),
        subs_wf(guest),
        0 <= q < guest.len(),
        forall|k: int|
            0 <= k < guest.len() ==> same_where_found(
                host,
                (#[trigger] guest[k]).0,
                guest[k].1.blocks,
            ),
    ensures
        find(merge_subs(host, guest), guest[q].0) is Some,
        same_where_found(merge_subs(host, guest), guest[q].0, guest[q].1.blocks),
{
    let acc = merge_subs(host, guest);
    assert(guest.take(guest.len() as int) =~= guest);
    lemma_merge(host, guest, guest.len() as int);
    assert(agree_at(acc, guest, q));
    lemma_find(acc, guest[q].0);
    let p = find(acc, guest[q].0).unwrap();
    if p < host.len() {
        assert(acc.take(host.len() as int)[p] == acc[p]);
        lemma_position(host, p);
        assert(same_where_found(host, guest[q].0, guest[q].1.blocks));
    } else {
        assert(taken(acc, guest, guest.len() as int, p));
        let k = choose|k: int| 0 <= k < guest.len() && #[trigger] taken_from(acc, guest, p, k);
        lemma_position(guest, k);
        lemma_position(guest, q);
    }
}

/// A script that was added to a script can be added to the result again:
/// sharing leaves every identifier with the content it had.
pub proof fn lemma_share_again(a: ScriptView, b: ScriptView)
    requires
        a.wf(),
        b.wf(),
        a.body.size > 0,
        b.body.size > 0,
        a.shares_with(b),
    ensures
        a.push_env_script(b).shares_with(b),
{
    let id = content_hash(b.body.blocks);
    let guest = b.subs;
    let merged = merge_subs(a.subs, guest);
    let entry = labelled(b.body, joined_label(a.body.debug_identifier, b.body.debug_identifier));
    let subs = a.push_env_script(b).subs;
    lemma_share(a, b);
    assert forall|q: int| 0 <= q < guest.len() implies same_where_found(
        subs,
        (#[trigger] guest[q]).0,
        guest[q].1.blocks,
    ) by {
        lemma_merged_holds(a.subs, guest, q);
        if find(merged, id) is None {
            lemma_find_push(merged, (id, entry), guest[q].0);
            lemma_find(merged, guest[q].0);
        }
    }
}

/// The sum of `count` times `size`.
pub open spec fn times(size: nat, count: nat) -> nat
    decreases count,
{
    if count == 0 {
        0
    } else {
        times(size, (count - 1) as nat) + size
    }
}

/// `bytes` repeated `count` times.
pub open spec fn repeated(bytes: Seq<u8>, count: nat) -> Seq<u8>
    decreases count,
{
    if count == 0 {
        Seq::<u8>::empty()
    } else {
        repeated(bytes, (count - 1) as nat) + bytes
    }
}

/// The script `a` with `b` added `count` times.
pub open spec fn pushed_times(a: ScriptView, b: ScriptView, count: nat) -> ScriptView
    decreases count,
{
    if count == 0 {
        a
    } else {
        pushed_times(a, b, (count - 1) as nat).push_env_script(b)
    }
}

/// A script added any number of times adds its bytes that many times:
/// what one call of a shared script stands for does not depend on how often
/// the script is called.
pub proof fn lemma_push_env_script_times(a: ScriptView, b: ScriptView, count: nat)
    requires
        a.wf(),
        b.wf(),
        a.body.size > 0,
        a.shares_with(b),
        a.body.size + times(b.body.size, count) <= usize::MAX,
    ensures
        pushed_times(a, b, count).wf(),
        pushed_times(a, b, count).shares_with(b),
        pushed_times(a, b, count).body.size == a.body.size + times(b.body.size, count),
        pushed_times(a, b, count).compiled() == a.compiled() + repeated(b.compiled(), count),
    decreases count,
{
    if count == 0 {
        assert(a.compiled() + repeated(b.compiled(), 0) =~= a.compiled());
    } else {
        lemma_push_env_script_times(a, b, (count - 1) as nat);
        let before = pushed_times(a, b, (count - 1) as nat);
        lemma_push_env_script(before, b);
        if b.body.size > 0 {
            lemma_share_again(before, b);
        }
        assert(a.compiled() + repeated(b.compiled(), (count - 1) as nat) + b.compiled()
            =~= a.compiled() + repeated(b.compiled(), count));
    }
}

} // verus!
