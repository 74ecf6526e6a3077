//! Combining the sorted entries of two bit sets block by block.

use vstd::prelude::*;
use crate::word::Word;
use crate::bit_set::Entry;
use crate::bit_set::words::{Words, MaskOp, apply_op};
use crate::bit_set::raw_vec::{
    sorted, has_entry, block_of, entries_has, entries_wf, block_count, lemma_block_of,
    lemma_block_of_insert,
};

verus! {

/// Whether the block with some index shows up in the result of `op`: when
/// both operands have it for an intersection, when either has it otherwise.
pub open spec fn keeps(op: MaskOp, x: bool, y: bool) -> bool {
    match op {
        MaskOp::And => x && y,
        _ => x || y,
    }
}

/// The index of entry `i`, or the end of the index space past the last entry.
pub open spec fn head<T>(es: Seq<Entry<T>>, i: int) -> nat {
    if 0 <= i < es.len() {
        es[i].index as nat
    } else {
        block_count()
    }
}

/// The smaller of two numbers.
pub open spec fn min_nat(x: nat, y: nat) -> nat {
    if x <= y {
        x
    } else {
        y
    }
}

/// `out` holds the result of `op` on the blocks of `a` and `b` whose
/// indices lie below the next unread entries `a[i]` and `b[j]`.
pub open spec fn merged<T: Word>(
    a: Seq<Entry<T>>,
    b: Seq<Entry<T>>,
    out: Seq<Entry<T>>,
    i: int,
    j: int,
    op: MaskOp,
) -> bool {
    let f = min_nat(head(a, i), head(b, j));
    &&& 0 <= i <= a.len()
    &&& 0 <= j <= b.len()
    &&& entries_wf(out)
    &&& forall|k: int| 0 <= k < out.len() ==> #[trigger] out[k].index < f
    &&& forall|k: int| 0 <= k < i ==> #[trigger] a[k].index < f
    &&& forall|k: int| 0 <= k < j ==> #[trigger] b[k].index < f
    &&& forall|q: nat|
        q < f ==> #[trigger] has_entry(out, q) == keeps(op, has_entry(a, q), has_entry(b, q))
    &&& forall|q: nat, x: nat|
        q < f ==> #[trigger] block_of(out, q).has(x) == apply_op(
            op,
            block_of(a, q).has(x),
            block_of(b, q).has(x),
        )
}

/// No entry has an index between `lo` and `hi` when the entries before `i`
/// lie below `lo` and entry `i` lies at or above `hi`.
proof fn lemma_gap<T: Word>(es: Seq<Entry<T>>, i: int, lo: nat, hi: nat)
    requires
        sorted(es),
        0 <= i <= es.len(),
        forall|k: int| 0 <= k < i ==> #[trigger] es[k].index < lo,
        head(es, i) >= hi,
    ensures
        forall|q: nat| lo <= q < hi ==> !#[trigger] has_entry(es, q),
        forall|q: nat, x: nat| lo <= q < hi ==> !#[trigger] block_of(es, q).has(x),
{
    assert forall|q: nat| lo <= q < hi implies !#[trigger] has_entry(es, q) by {
        if has_entry(es, q) {
            let k = choose|k: int| 0 <= k < es.len() && #[trigger] es[k].index == q;
            if k > i {
                assert(es[i].index < es[k].index);
            }
        }
    }
    assert forall|q: nat, x: nat| lo <= q < hi implies !#[trigger] block_of(es, q).has(x) by {
        assert(!has_entry(es, q));
        Words::<T>(None).lemma_has_absent();
    }
}

/// No entry lies past the end of the index space.
proof fn lemma_beyond<T: Word>(es: Seq<Entry<T>>, q: nat)
    requires
        entries_wf(es),
        q >= block_count(),
    ensures
        !has_entry(es, q),
        forall|x: nat| !#[trigger] block_of(es, q).has(x),
{
    if has_entry(es, q) {
        let k = choose|k: int| 0 <= k < es.len() && #[trigger] es[k].index == q;
        assert(es[k].index < block_count());
    }
    Words::<T>(None).lemma_has_absent();
}

/// Appending an entry past all others adds just its block.
proof fn lemma_push<T: Word>(es: Seq<Entry<T>>, e: Entry<T>)
    requires
        sorted(es),
        forall|k: int| 0 <= k < es.len() ==> #[trigger] es[k].index < e.index,
    ensures
        sorted(es.push(e)),
        block_of(es.push(e), e.index as nat) == e.block,
        has_entry(es.push(e), e.index as nat),
        forall|q: nat| q != e.index ==> #[trigger] block_of(es.push(e), q) == block_of(es, q),
        forall|q: nat| q != e.index ==> #[trigger] has_entry(es.push(e), q) == has_entry(es, q),
{
    assert(es.insert(es.len() as int, e) =~= es.push(e));
    lemma_block_of_insert(es, es.len() as int, e);
    let es2 = es.push(e);
    assert(es2[es.len() as int] == e);
    assert forall|q: nat| q != e.index implies #[trigger] has_entry(es2, q) == has_entry(es, q) by {
        if has_entry(es, q) {
            let k = choose|k: int| 0 <= k < es.len() && #[trigger] es[k].index == q;
            assert(es2[k] == es[k]);
        }
        if has_entry(es2, q) {
            let k = choose|k: int| 0 <= k < es2.len() && #[trigger] es2[k].index == q;
            assert(es[k] == es2[k]);
        }
    }
}

/// `merged` is symmetric in its operands.
proof fn lemma_merged_swap<T: Word>(
    a: Seq<Entry<T>>,
    b: Seq<Entry<T>>,
    out: Seq<Entry<T>>,
    i: int,
    j: int,
    op: MaskOp,
)
    requires
        merged(a, b, out, i, j, op),
    ensures
        merged(b, a, out, j, i, op),
{
    let f = min_nat(head(a, i), head(b, j));
    assert(f == min_nat(head(b, j), head(a, i)));
    assert forall|q: nat, x: nat| q < f implies #[trigger] block_of(out, q).has(x) == apply_op(
        op,
        block_of(b, q).has(x),
        block_of(a, q).has(x),
    ) by {
        assert(block_of(out, q).has(x) == apply_op(op, block_of(a, q).has(x), block_of(b, q).has(x)));
    }
}

/// Reading entry `a[i]`, whose index is below that of `b[j]`.
proof fn lemma_take_left<T: Word>(
    a: Seq<Entry<T>>,
    b: Seq<Entry<T>>,
    out: Seq<Entry<T>>,
    out2: Seq<Entry<T>>,
    i: int,
    j: int,
    op: MaskOp,
    e: Entry<T>,
)
    requires
        entries_wf(a),
        entries_wf(b),
        merged(a, b, out, i, j, op),
        i < a.len(),
        head(a, i) < head(b, j),
        e.index == a[i].index,
        e.block.wf(),
        forall|x: nat| #[trigger] e.block.has(x) == a[i].block.has(x),
        op is And ==> out2 == out,
        !(op is And) ==> out2 == out.push(e),
    ensures
        merged(a, b, out2, i + 1, j, op),
{
    let f = min_nat(head(a, i), head(b, j));
    let f2 = min_nat(head(a, i + 1), head(b, j));
    let q0 = a[i].index as nat;
    assert(f == q0);
    if i + 1 < a.len() {
        assert(a[i].index < a[i + 1].index);
    }
    assert(q0 < f2);
    lemma_block_of(a, i);
    lemma_gap(b, j, f, head(b, j));
    lemma_gap(a, i + 1, q0 + 1, head(a, i + 1));
    assert forall|k: int| 0 <= k < out.len() implies #[trigger] out[k].index < q0 by {}
    lemma_gap(out, out.len() as int, q0, f2);
    if !(op is And) {
        lemma_push(out, e);
    }
    assert forall|k: int| 0 <= k < out2.len() implies #[trigger] out2[k].index < f2 by {
        if k < out.len() {
            assert(out2[k] == out[k]);
        }
    }
    assert(entries_wf(out2)) by {
        assert forall|k: int| 0 <= k < out2.len() implies (#[trigger] out2[k]).block.wf() by {
            if k < out.len() {
                assert(out2[k] == out[k]);
            }
        }
        assert forall|k: int| 0 <= k < out2.len() implies (#[trigger] out2[k]).index
            < block_count() by {
            if k < out.len() {
                assert(out2[k] == out[k]);
            }
        }
    }
    assert forall|q: nat| q < f2 implies #[trigger] has_entry(out2, q) == keeps(
        op,
        has_entry(a, q),
        has_entry(b, q),
    ) by {
        if q < f {
            assert(has_entry(out, q) == keeps(op, has_entry(a, q), has_entry(b, q)));
        } else if q == q0 {
        } else {
            assert(!has_entry(out, q));
        }
    }
    assert forall|q: nat, x: nat| q < f2 implies #[trigger] block_of(out2, q).has(x) == apply_op(
        op,
        block_of(a, q).has(x),
        block_of(b, q).has(x),
    ) by {
        if q < f {
            assert(block_of(out, q).has(x) == apply_op(
                op,
                block_of(a, q).has(x),
                block_of(b, q).has(x),
            ));
        } else if q == q0 {
            assert(!block_of(b, q).has(x));
            assert(!block_of(out, q).has(x));
        } else {
            assert(!block_of(out, q).has(x));
            assert(!block_of(a, q).has(x));
            assert(!block_of(b, q).has(x));
        }
    }
}

/// Reading entries `a[i]` and `b[j]`, which have the same index.
proof fn lemma_take_both<T: Word>(
    a: Seq<Entry<T>>,
    b: Seq<Entry<T>>,
    out: Seq<Entry<T>>,
    i: int,
    j: int,
    op: MaskOp,
    e: Entry<T>,
)
    requires
        entries_wf(a),
        entries_wf(b),
        merged(a, b, out, i, j, op),
        i < a.len(),
        j < b.len(),
        a[i].index == b[j].index,
        e.index == a[i].index,
        e.block.wf(),
        forall|x: nat| #[trigger] e.block.has(x) == apply_op(op, a[i].block.has(x), b[j].block.has(x)),
    ensures
        merged(a, b, out.push(e), i + 1, j + 1, op),
{
    let out2 = out.push(e);
    let f = min_nat(head(a, i), head(b, j));
    let f2 = min_nat(head(a, i + 1), head(b, j + 1));
    let q0 = a[i].index as nat;
    assert(f == q0);
    if i + 1 < a.len() {
        assert(a[i].index < a[i + 1].index);
    }
    if j + 1 < b.len() {
        assert(b[j].index < b[j + 1].index);
    }
    assert(q0 < f2);
    lemma_block_of(a, i);
    lemma_block_of(b, j);
    lemma_gap(a, i + 1, q0 + 1, head(a, i + 1));
    lemma_gap(b, j + 1, q0 + 1, head(b, j + 1));
    assert forall|k: int| 0 <= k < out.len() implies #[trigger] out[k].index < q0 by {}
    lemma_gap(out, out.len() as int, q0, f2);
    lemma_push(out, e);
    assert forall|k: int| 0 <= k < out2.len() implies #[trigger] out2[k].index < f2 by {
        if k < out.len() {
            assert(out2[k] == out[k]);
        }
    }
    assert(entries_wf(out2)) by {
        assert forall|k: int| 0 <= k < out2.len() implies (#[trigger] out2[k]).block.wf() by {
            if k < out.len() {
                assert(out2[k] == out[k]);
            }
        }
        assert forall|k: int| 0 <= k < out2.len() implies (#[trigger] out2[k]).index
            < block_count() by {
            if k < out.len() {
                assert(out2[k] == out[k]);
            }
        }
    }
    assert forall|q: nat| q < f2 implies #[trigger] has_entry(out2, q) == keeps(
        op,
        has_entry(a, q),
        has_entry(b, q),
    ) by {
        if q < f {
            assert(has_entry(out, q) == keeps(op, has_entry(a, q), has_entry(b, q)));
        } else if q == q0 {
        } else {
            assert(!has_entry(out, q));
        }
    }
    assert forall|q: nat, x: nat| q < f2 implies #[trigger] block_of(out2, q).has(x) == apply_op(
        op,
        block_of(a, q).has(x),
        block_of(b, q).has(x),
    ) by {
        if q < f {
            assert(block_of(out, q).has(x) == apply_op(
                op,
                block_of(a, q).has(x),
                block_of(b, q).has(x),
            ));
        } else if q == q0 {
        } else {
            assert(!block_of(out, q).has(x));
            assert(!block_of(a, q).has(x));
            assert(!block_of(b, q).has(x));
        }
    }
}

/// A copy of an entry.
pub(crate) fn copy_entry<T: Word>(e: &Entry<T>) -> (r: Entry<T>)
    ensures
        r.index == e.index,
        r.block.words() == e.block.words(),
        r.block.0 is Some == e.block.0 is Some,
{
    let block = match &e.block.0 {
        None => Words(None),
        Some(_) => Words(Some(e.block.iter())),
    };
    Entry { index: e.index, block }
}

/// Combines the entries of two bit spaces with `op`, block by block: the
/// result lists, in order, the blocks that `keeps` retains.
pub fn merge<T: Word>(a: &Vec<Entry<T>>, b: &Vec<Entry<T>>, op: MaskOp) -> (r: Vec<Entry<T>>)
    requires
        entries_wf(a@),
        entries_wf(b@),
    ensures
        entries_wf(r@),
        forall|q: nat| #[trigger] has_entry(r@, q) == keeps(op, has_entry(a@, q), has_entry(b@, q)),
        forall|q: nat, x: nat| #[trigger] block_of(r@, q).has(x) == apply_op(
            op,
            block_of(a@, q).has(x),
            block_of(b@, q).has(x),
        ),
        forall|p: nat| #[trigger] entries_has(r@, p) == apply_op(
            op,
            entries_has(a@, p),
            entries_has(b@, p),
        ),
{
    let mut out: Vec<Entry<T>> = Vec::new();
    let mut i: usize = 0;
    let mut j: usize = 0;
    proof {
        assert forall|q: nat| q < min_nat(head(a@, 0), head(b@, 0)) implies !#[trigger] has_entry(a@, q) by {
            lemma_gap(a@, 0, 0, head(a@, 0));
        }
        assert forall|q: nat| q < min_nat(head(a@, 0), head(b@, 0)) implies !#[trigger] has_entry(b@, q) by {
            lemma_gap(b@, 0, 0, head(b@, 0));
        }
        lemma_gap(a@, 0, 0, head(a@, 0));
        lemma_gap(b@, 0, 0, head(b@, 0));
        lemma_gap(out@, 0, 0, block_count());
    }
    while i < a.len() || j < b.len()
        invariant
            entries_wf(a@),
            entries_wf(b@),
            merged(a@, b@, out@, i as int, j as int, op),
        decreases a@.len() + b@.len() - i - j,
    {
        if i < a.len() && (j >= b.len() || a[i].index < b[j].index) {
            let e = copy_entry(&a[i]);
            proof {
                Words::<T>::lemma_has_words(e.block, a@[i as int].block);
            }
            let ghost before = out@;
            if !matches!(op, MaskOp::And) {
                out.push(e);
            }
            proof {
                lemma_take_left(a@, b@, before, out@, i as int, j as int, op, e);
            }
            i = i + 1;
        } else if j < b.len() && (i >= a.len() || b[j].index < a[i].index) {
            let e = copy_entry(&b[j]);
            proof {
                Words::<T>::lemma_has_words(e.block, b@[j as int].block);
            }
            let ghost before = out@;
            if !matches!(op, MaskOp::And) {
                out.push(e);
            }
            proof {
                lemma_merged_swap(a@, b@, before, i as int, j as int, op);
                lemma_take_left(b@, a@, before, out@, j as int, i as int, op, e);
                lemma_merged_swap(b@, a@, out@, (j + 1) as int, i as int, op);
            }
            j = j + 1;
        } else {
            let x = copy_entry(&a[i]);
            let y = copy_entry(&b[j]);
            proof {
                Words::<T>::lemma_has_words(x.block, a@[i as int].block);
                Words::<T>::lemma_has_words(y.block, b@[j as int].block);
            }
            let block = match op {
                MaskOp::And => x.block.bitand(y.block),
                MaskOp::Or => x.block.bitor(y.block),
                MaskOp::Xor => x.block.bitxor(y.block),
            };
            let e = Entry { index: x.index, block };
            let ghost before = out@;
            out.push(e);
            proof {
                lemma_take_both(a@, b@, before, i as int, j as int, op, e);
            }
            i = i + 1;
            j = j + 1;
        }
    }
    proof {
        assert forall|q: nat| #[trigger] has_entry(out@, q) == keeps(op, has_entry(a@, q), has_entry(b@, q)) by {
            if q >= block_count() {
                lemma_beyond(out@, q);
                lemma_beyond(a@, q);
                lemma_beyond(b@, q);
            }
        }
        assert forall|q: nat, x: nat| #[trigger] block_of(out@, q).has(x) == apply_op(
            op,
            block_of(a@, q).has(x),
            block_of(b@, q).has(x),
        ) by {
            if q >= block_count() {
                lemma_beyond(out@, q);
                lemma_beyond(a@, q);
                lemma_beyond(b@, q);
            }
        }
        assert forall|p: nat| #[trigger] entries_has(out@, p) == apply_op(
            op,
            entries_has(a@, p),
            entries_has(b@, p),
        ) by {
            assert(block_of(out@, p / 65536).has(p % 65536) == apply_op(
                op,
                block_of(a@, p / 65536).has(p % 65536),
                block_of(b@, p / 65536).has(p % 65536),
            ));
        }
    }
    out
}

/// The intersection of two bit spaces, block by block.
pub fn and<T: Word>(a: &Vec<Entry<T>>, b: &Vec<Entry<T>>) -> (r: Vec<Entry<T>>)
    requires
        entries_wf(a@),
        entries_wf(b@),
    ensures
        entries_wf(r@),
        forall|q: nat| #[trigger] has_entry(r@, q) == (has_entry(a@, q) && has_entry(b@, q)),
        forall|p: nat| #[trigger] entries_has(r@, p) == (entries_has(a@, p) && entries_has(b@, p)),
{
    merge(a, b, MaskOp::And)
}

/// The union of two bit spaces, block by block.
pub fn or<T: Word>(a: &Vec<Entry<T>>, b: &Vec<Entry<T>>) -> (r: Vec<Entry<T>>)
    requires
        entries_wf(a@),
        entries_wf(b@),
    ensures
        entries_wf(r@),
        forall|q: nat| #[trigger] has_entry(r@, q) == (has_entry(a@, q) || has_entry(b@, q)),
        forall|p: nat| #[trigger] entries_has(r@, p) == (entries_has(a@, p) || entries_has(b@, p)),
{
    merge(a, b, MaskOp::Or)
}

/// The symmetric difference of two bit spaces, block by block.
pub fn xor<T: Word>(a: &Vec<Entry<T>>, b: &Vec<Entry<T>>) -> (r: Vec<Entry<T>>)
    requires
        entries_wf(a@),
        entries_wf(b@),
    ensures
        entries_wf(r@),
        forall|q: nat| #[trigger] has_entry(r@, q) == (has_entry(a@, q) || has_entry(b@, q)),
        forall|p: nat| #[trigger] entries_has(r@, p) == (entries_has(a@, p) != entries_has(b@, p)),
{
    merge(a, b, MaskOp::Xor)
}


/// Position `p` after folding the first `n` bit spaces with `op` from the
/// left; no position is set when there is nothing to fold.
pub open spec fn fold_has<T: Word>(sets: Seq<Seq<Entry<T>>>, op: MaskOp, p: nat, n: nat) -> bool
    decreases n,
{
    if n == 0 {
        false
    } else if n == 1 {
        entries_has(sets[0], p)
    } else {
        apply_op(op, fold_has(sets, op, p, (n - 1) as nat), entries_has(sets[n - 1], p))
    }
}

/// Whether block `q` is present after folding the first `n` bit spaces with
/// `op` from the left; no block is present when there is nothing to fold.
pub open spec fn fold_keeps<T>(sets: Seq<Seq<Entry<T>>>, op: MaskOp, q: nat, n: nat) -> bool
    decreases n,
{
    if n == 0 {
        false
    } else if n == 1 {
        has_entry(sets[0], q)
    } else {
        keeps(op, fold_keeps(sets, op, q, (n - 1) as nat), has_entry(sets[n - 1], q))
    }
}

/// The entries of many bit spaces folded together with one operation.
#[derive(Clone, Debug, PartialEq, Eq)]
pub struct Fold<T>(pub Vec<Entry<T>>);

impl<T: Word> Fold<T> {
    fn new(sets: &Vec<Vec<Entry<T>>>, op: MaskOp) -> (r: Fold<T>)
        requires
            forall|k: int| 0 <= k < sets@.len() ==> entries_wf(#[trigger] sets@[k]@),
        ensures
            entries_wf(r.0@),
            forall|p: nat| #[trigger] entries_has(r.0@, p) == fold_has(
                sets@.map_values(|v: Vec<Entry<T>>| v@),
                op,
                p,
                sets@.len(),
            ),
            forall|q: nat| #[trigger] has_entry(r.0@, q) == fold_keeps(
                sets@.map_values(|v: Vec<Entry<T>>| v@),
                op,
                q,
                sets@.len(),
            ),
    {
        let ghost views = sets@.map_values(|v: Vec<Entry<T>>| v@);
        if sets.len() == 0 {
            let r = Fold(Vec::new());
            proof {
                assert forall|p: nat| !#[trigger] entries_has(r.0@, p) by {
                    assert(!has_entry(r.0@, p / 65536));
                    Words::<T>(None).lemma_has_absent();
                }
                assert forall|q: nat| !#[trigger] has_entry(r.0@, q) by {}
            }
            return r;
        }
        let mut acc: Vec<Entry<T>> = merge(&sets[0], &Vec::new(), MaskOp::Or);
        proof {
            assert forall|p: nat| #[trigger] entries_has(acc@, p) == fold_has(views, op, p, 1) by {
                let e: Seq<Entry<T>> = Seq::empty();
                assert(!has_entry(e, p / 65536));
                Words::<T>(None).lemma_has_absent();
                assert(views[0] == sets@[0]@);
            }
            assert forall|q: nat| #[trigger] has_entry(acc@, q) == fold_keeps(views, op, q, 1) by {
                let e: Seq<Entry<T>> = Seq::empty();
                assert(!has_entry(e, q));
                assert(views[0] == sets@[0]@);
            }
        }
        let mut k: usize = 1;
        while k < sets.len()
            invariant
                1 <= k <= sets@.len(),
                views == sets@.map_values(|v: Vec<Entry<T>>| v@),
                forall|k: int| 0 <= k < sets@.len() ==> entries_wf(#[trigger] sets@[k]@),
                entries_wf(acc@),
                forall|p: nat| #[trigger] entries_has(acc@, p) == fold_has(views, op, p, k as nat),
                forall|q: nat| #[trigger] has_entry(acc@, q) == fold_keeps(views, op, q, k as nat),
            decreases sets@.len() - k,
        {
            let next = merge(&acc, &sets[k], op);
            proof {
                assert forall|p: nat| #[trigger] entries_has(next@, p) == fold_has(views, op, p, (k + 1) as nat) by {
                    assert(views[k as int] == sets@[k as int]@);
                    assert(entries_has(acc@, p) == fold_has(views, op, p, k as nat));
                }
                assert forall|q: nat| #[trigger] has_entry(next@, q) == fold_keeps(views, op, q, (k + 1) as nat) by {
                    assert(views[k as int] == sets@[k as int]@);
                    assert(has_entry(acc@, q) == fold_keeps(views, op, q, k as nat));
                }
            }
            acc = next;
            k = k + 1;
        }
        Fold(acc)
    }

    /// The intersection of all the bit spaces; empty when there are none.
    pub fn and(sets: &Vec<Vec<Entry<T>>>) -> (r: Fold<T>)
        requires
            forall|k: int| 0 <= k < sets@.len() ==> entries_wf(#[trigger] sets@[k]@),
        ensures
            entries_wf(r.0@),
            forall|p: nat| #[trigger] entries_has(r.0@, p) == fold_has(
                sets@.map_values(|v: Vec<Entry<T>>| v@),
                MaskOp::And,
                p,
                sets@.len(),
            ),
            forall|q: nat| #[trigger] has_entry(r.0@, q) == fold_keeps(
                sets@.map_values(|v: Vec<Entry<T>>| v@),
                MaskOp::And,
                q,
                sets@.len(),
            ),
    {
        Self::new(sets, MaskOp::And)
    }

    /// The union of all the bit spaces.
    pub fn or(sets: &Vec<Vec<Entry<T>>>) -> (r: Fold<T>)
        requires
            forall|k: int| 0 <= k < sets@.len() ==> entries_wf(#[trigger] sets@[k]@),
        ensures
            entries_wf(r.0@),
            forall|p: nat| #[trigger] entries_has(r.0@, p) == fold_has(
                sets@.map_values(|v: Vec<Entry<T>>| v@),
                MaskOp::Or,
                p,
                sets@.len(),
            ),
            forall|q: nat| #[trigger] has_entry(r.0@, q) == fold_keeps(
                sets@.map_values(|v: Vec<Entry<T>>| v@),
                MaskOp::Or,
                q,
                sets@.len(),
            ),
    {
        Self::new(sets, MaskOp::Or)
    }

    /// The symmetric difference of all the bit spaces: the positions set in
    /// an odd number of them.
    pub fn xor(sets: &Vec<Vec<Entry<T>>>) -> (r: Fold<T>)
        requires
            forall|k: int| 0 <= k < sets@.len() ==> entries_wf(#[trigger] sets@[k]@),
        ensures
            entries_wf(r.0@),
            forall|p: nat| #[trigger] entries_has(r.0@, p) == fold_has(
                sets@.map_values(|v: Vec<Entry<T>>| v@),
                MaskOp::Xor,
                p,
                sets@.len(),
            ),
            forall|q: nat| #[trigger] has_entry(r.0@, q) == fold_keeps(
                sets@.map_values(|v: Vec<Entry<T>>| v@),
                MaskOp::Xor,
                q,
                sets@.len(),
            ),
    {
        Self::new(sets, MaskOp::Xor)
    }
}

/// Folding with `and` keeps the positions set in every bit space, folding
/// with `or` those set in some bit space.
pub proof fn lemma_fold_and_or<T: Word>(sets: Seq<Seq<Entry<T>>>, p: nat, n: nat)
    requires
        n <= sets.len(),
    ensures
        fold_has(sets, MaskOp::And, p, n) == (n > 0 && forall|k: int|
            0 <= k < n ==> #[trigger] entries_has(sets[k], p)),
        fold_has(sets, MaskOp::Or, p, n) == exists|k: int| 0 <= k < n && #[trigger] entries_has(sets[k], p),
    decreases n,
{
    if n > 1 {
        lemma_fold_and_or(sets, p, (n - 1) as nat);
        if fold_has(sets, MaskOp::Or, p, n) {
            if !entries_has(sets[n - 1], p) {
                let k = choose|k: int| 0 <= k < n - 1 && #[trigger] entries_has(sets[k], p);
                assert(entries_has(sets[k], p));
            } else {
                assert(entries_has(sets[n - 1], p));
            }
        }
        if exists|k: int| 0 <= k < n && #[trigger] entries_has(sets[k], p) {
            let k = choose|k: int| 0 <= k < n && #[trigger] entries_has(sets[k], p);
            if k < n - 1 {
                assert(exists|j: int| 0 <= j < n - 1 && #[trigger] entries_has(sets[j], p));
            }
        }
    } else if n == 1 {
        if entries_has(sets[0], p) {
            assert(exists|k: int| 0 <= k < 1 && #[trigger] entries_has(sets[k], p));
        }
    }
}

} // verus!
