//! Deterministic edit-script computation: given the last observed content
//! of a file and its new content, produce the canonical minimal script of
//! contiguous operations carrying the one into the other.
//!
//! The canonical script strips the longest common prefix and, from what
//! remains, the longest common suffix; a single delete and/or a single
//! insert then covers the middle. The same content pair always yields the
//! same script, and a full deletion is a single delete of the whole
//! content.

use vstd::prelude::*;
use crate::ops::Operation;
use crate::ops::OperationView;
use crate::ops::op_applies;
use crate::ops::apply_op;
use crate::ops::ops_apply;
use crate::ops::ops_view;
use crate::ops::push_range;

verus! {

/// Length of the longest common prefix of `a` and `b`.
pub open spec fn common_prefix(a: Seq<u8>, b: Seq<u8>) -> nat
    decreases a.len(),
{
    if a.len() == 0 || b.len() == 0 || a[0] != b[0] {
        0
    } else {
        1 + common_prefix(a.drop_first(), b.drop_first())
    }
}

/// Length of the longest common suffix of `a` and `b`.
pub open spec fn common_suffix(a: Seq<u8>, b: Seq<u8>) -> nat
    decreases a.len(),
{
    if a.len() == 0 || b.len() == 0 || a.last() != b.last() {
        0
    } else {
        1 + common_suffix(a.drop_last(), b.drop_last())
    }
}

/// `op` inserts exactly `txt` at `off`.
pub open spec fn is_insert(op: OperationView, off: int, txt: Seq<u8>) -> bool {
    match op {
        OperationView::Insert { offset, text } => offset == off && text == txt,
        OperationView::Delete { .. } => false,
    }
}

/// `op` deletes exactly `len` bytes at `off`.
pub open spec fn is_delete(op: OperationView, off: int, len: int) -> bool {
    match op {
        OperationView::Insert { .. } => false,
        OperationView::Delete { offset, length } => offset == off && length == len,
    }
}

/// `script` is the canonical script from `prev` to `next`: nothing when
/// the contents are equal; otherwise one delete and/or one insert at the
/// end of the longest common prefix, spanning what the longest common
/// suffix of the remainders leaves uncovered.
pub open spec fn is_diff_script(prev: Seq<u8>, next: Seq<u8>, script: Seq<OperationView>) -> bool {
    let p = common_prefix(prev, next) as int;
    let s = common_suffix(prev.skip(p), next.skip(p)) as int;
    let del_len = prev.len() - p - s;
    let ins = next.subrange(p, next.len() - s);
    if prev == next {
        script.len() == 0
    } else if del_len == 0 {
        script.len() == 1 && is_insert(script[0], p, ins)
    } else if ins.len() == 0 {
        script.len() == 1 && is_delete(script[0], p, del_len)
    } else {
        script.len() == 2 && is_delete(script[0], p, del_len) && is_insert(script[1], p, ins)
    }
}

/// The longest common prefix is the unique cut that matches elementwise
/// and cannot be extended.
proof fn lemma_prefix_from_props(a: Seq<u8>, b: Seq<u8>, p: nat)
    requires
        p <= a.len(),
        p <= b.len(),
        forall|i: int| 0 <= i < p ==> a[i] == b[i],
        p < a.len() && p < b.len() ==> a[p as int] != b[p as int],
    ensures
        common_prefix(a, b) == p,
    decreases a.len(),
{
    if p == 0 {
        if a.len() > 0 && b.len() > 0 {
            assert(a[0] != b[0]);
        }
    } else {
        assert(a[0] == b[0]);
        assert(forall|i: int|
            0 <= i < p - 1 ==> a.drop_first()[i] == a[i + 1] && b.drop_first()[i] == b[i + 1]);
        if p < a.len() && p < b.len() {
            assert(a.drop_first()[p - 1] == a[p as int]);
            assert(b.drop_first()[p - 1] == b[p as int]);
        }
        lemma_prefix_from_props(a.drop_first(), b.drop_first(), (p - 1) as nat);
    }
}

/// The longest common suffix is the unique cut that matches elementwise
/// from the ends and cannot be extended.
proof fn lemma_suffix_from_props(a: Seq<u8>, b: Seq<u8>, s: nat)
    requires
        s <= a.len(),
        s <= b.len(),
        forall|i: int| a.len() - s <= i < a.len() ==> #[trigger] a[i] == b[i + b.len() - a.len()],
        s < a.len() && s < b.len() ==> a[a.len() - 1 - s] != b[b.len() - 1 - s],
    ensures
        common_suffix(a, b) == s,
    decreases a.len(),
{
    if s == 0 {
        if a.len() > 0 && b.len() > 0 {
            assert(a[a.len() - 1] != b[b.len() - 1]);
        }
    } else {
        assert(a[a.len() - 1] == b[b.len() - 1]);
        assert(forall|i: int|
            0 <= i < a.drop_last().len() ==> #[trigger] a.drop_last()[i] == a[i]);
        assert(forall|i: int|
            0 <= i < b.drop_last().len() ==> #[trigger] b.drop_last()[i] == b[i]);
        lemma_suffix_from_props(a.drop_last(), b.drop_last(), (s - 1) as nat);
    }
}

/// The canonical script carries `prev` exactly into `next`.
pub proof fn lemma_diff_script_applies(prev: Seq<u8>, next: Seq<u8>, script: Seq<OperationView>)
    requires
        is_diff_script(prev, next, script),
    ensures
        ops_apply(prev, script) == Some(next),
{
    let p = common_prefix(prev, next) as int;
    let s = common_suffix(prev.skip(p), next.skip(p)) as int;
    lemma_prefix_props(prev, next);
    lemma_suffix_props(prev.skip(p), next.skip(p));
    let del_len = prev.len() - p - s;
    let ins = next.subrange(p, next.len() - s);
    if prev == next {
        assert(ops_apply(prev, script) == Some(prev));
    } else if del_len == 0 {
        let op = script[0];
        assert(op_applies(prev, op));
        assert(apply_op(prev, op) =~= next) by {
            lemma_split_equal(prev, next, p, s);
        }
        assert(script.drop_first() =~= Seq::<OperationView>::empty());
        assert(ops_apply(apply_op(prev, op), script.drop_first()) == Some(apply_op(prev, op)));
    } else if ins.len() == 0 {
        let op = script[0];
        assert(op_applies(prev, op));
        assert(apply_op(prev, op) =~= next) by {
            lemma_split_equal(prev, next, p, s);
        }
        assert(script.drop_first() =~= Seq::<OperationView>::empty());
        assert(ops_apply(apply_op(prev, op), script.drop_first()) == Some(apply_op(prev, op)));
    } else {
        let d = script[0];
        let i = script[1];
        assert(op_applies(prev, d));
        let mid = apply_op(prev, d);
        assert(mid.len() == p + s);
        assert(op_applies(mid, i));
        assert(apply_op(mid, i) =~= next) by {
            lemma_split_equal(prev, next, p, s);
            assert(forall|k: int| 0 <= k < p ==> #[trigger] mid[k] == prev[k]);
            assert(forall|k: int|
                p <= k < p + s ==> #[trigger] mid[k] == prev[k + prev.len() - p - s]);
        }
        assert(script.drop_first() =~= seq![i]);
        assert(seq![i][0] == i);
        assert(seq![i].drop_first() =~= Seq::<OperationView>::empty());
        assert(ops_apply(apply_op(mid, i), Seq::<OperationView>::empty()) == Some(apply_op(mid, i)));
        assert(ops_apply(mid, seq![i]) == Some(next));
    }
}

/// Elementwise facts of the longest common prefix.
proof fn lemma_prefix_props(a: Seq<u8>, b: Seq<u8>)
    ensures
        common_prefix(a, b) <= a.len(),
        common_prefix(a, b) <= b.len(),
        forall|i: int| 0 <= i < common_prefix(a, b) ==> a[i] == b[i],
        common_prefix(a, b) < a.len() && common_prefix(a, b) < b.len() ==> a[
            common_prefix(a, b) as int
        ] != b[common_prefix(a, b) as int],
    decreases a.len(),
{
    if a.len() == 0 || b.len() == 0 || a[0] != b[0] {
    } else {
        lemma_prefix_props(a.drop_first(), b.drop_first());
        assert(forall|i: int| 1 <= i < a.len() ==> #[trigger] a[i] == a.drop_first()[i - 1]);
        assert(forall|i: int|
            0 <= i < b.drop_first().len() ==> #[trigger] b.drop_first()[i] == b[i + 1]);
    }
}

/// Elementwise facts of the longest common suffix.
proof fn lemma_suffix_props(a: Seq<u8>, b: Seq<u8>)
    ensures
        common_suffix(a, b) <= a.len(),
        common_suffix(a, b) <= b.len(),
        forall|i: int|
            a.len() - common_suffix(a, b) <= i < a.len() ==> #[trigger] a[i] == b[
                i + b.len() - a.len()
            ],
        common_suffix(a, b) < a.len() && common_suffix(a, b) < b.len() ==> a[
            a.len() - 1 - common_suffix(a, b)
        ] != b[b.len() - 1 - common_suffix(a, b)],
    decreases a.len(),
{
    if a.len() == 0 || b.len() == 0 || a.last() != b.last() {
    } else {
        lemma_suffix_props(a.drop_last(), b.drop_last());
        assert(forall|i: int| 0 <= i < a.len() - 1 ==> #[trigger] a[i] == a.drop_last()[i]);
        assert(forall|i: int|
            0 <= i < b.drop_last().len() ==> #[trigger] b.drop_last()[i] == b[i]);
        assert(a[a.len() - 1] == b[b.len() - 1]);
    }
}

/// With prefix `p` and suffix `s` matching, `prev` and `next` agree on
/// their first `p` and last `s` positions.
proof fn lemma_split_equal(prev: Seq<u8>, next: Seq<u8>, p: int, s: int)
    requires
        0 <= p,
        0 <= s,
        p + s <= prev.len(),
        p + s <= next.len(),
        p == common_prefix(prev, next),
        s == common_suffix(prev.skip(p), next.skip(p)),
    ensures
        forall|k: int| 0 <= k < p ==> prev[k] == next[k],
        forall|k: int|
            prev.len() - s <= k < prev.len() ==> #[trigger] prev[k] == next[
                k + next.len() - prev.len()
            ],
{
    lemma_prefix_props(prev, next);
    lemma_suffix_props(prev.skip(p), next.skip(p));
    assert(forall|i: int|
        0 <= i < prev.skip(p).len() ==> #[trigger] prev.skip(p)[i] == prev[i + p]);
    assert(forall|i: int|
        0 <= i < next.skip(p).len() ==> #[trigger] next.skip(p)[i] == next[i + p]);
    assert(forall|k: int|
        prev.len() - s <= k < prev.len() ==> #[trigger] prev[k] == prev.skip(p)[k - p]);
}

/// Computes the canonical script from `prev` to `next`. Equal contents
/// give an empty script; rewriting to empty content gives the single
/// operation deleting everything; applying the script to `prev` always
/// reproduces `next` exactly.
pub fn diff(prev: &Vec<u8>, next: &Vec<u8>) -> (script: Vec<Operation>)
    ensures
        is_diff_script(prev@, next@, ops_view(script@)),
        ops_apply(prev@, ops_view(script@)) == Some(next@),
        script@.len() == 0 <==> prev@ == next@,
{
    let mut p: usize = 0;
    while p < prev.len() && p < next.len() && prev[p] == next[p]
        invariant
            p <= prev@.len(),
            p <= next@.len(),
            forall|i: int| 0 <= i < p ==> prev@[i] == next@[i],
        decreases prev@.len() - p,
    {
        p += 1;
    }
    let mut s: usize = 0;
    while s < prev.len() - p && s < next.len() - p && prev[prev.len() - 1 - s] == next[next.len()
        - 1 - s]
        invariant
            p <= prev@.len(),
            p <= next@.len(),
            s <= prev@.len() - p,
            s <= next@.len() - p,
            forall|i: int|
                prev@.len() - s <= i < prev@.len() ==> #[trigger] prev@[i] == next@[
                    i + next@.len() - prev@.len()
                ],
        decreases prev@.len() - p - s,
    {
        proof {
            assert(prev@[prev@.len() - 1 - s] == next@[next@.len() - 1 - s]);
        }
        s += 1;
    }
    proof {
        lemma_prefix_from_props(prev@, next@, p as nat);
        assert(forall|i: int|
            0 <= i < prev@.skip(p as int).len() ==> #[trigger] prev@.skip(p as int)[i] == prev@[
                i + p
            ]);
        assert(forall|i: int|
            0 <= i < next@.skip(p as int).len() ==> #[trigger] next@.skip(p as int)[i] == next@[
                i + p
            ]);
        lemma_suffix_from_props(prev@.skip(p as int), next@.skip(p as int), s as nat);
    }
    let del_len = prev.len() - p - s;
    let ins_len = next.len() - p - s;
    let mut script: Vec<Operation> = Vec::new();
    if del_len == 0 && ins_len == 0 {
        proof {
            assert(prev@ =~= next@) by {
                lemma_split_equal(prev@, next@, p as int, s as int);
            }
        }
        return script;
    }
    proof {
        if prev@ == next@ {
            assert(common_prefix(prev@, next@) == prev@.len()) by {
                lemma_prefix_from_props(prev@, next@, prev@.len());
            }
        }
    }
    if del_len > 0 {
        script.push(Operation::Delete { offset: p, length: del_len });
    }
    if ins_len > 0 {
        let mut txt: Vec<u8> = Vec::new();
        push_range(&mut txt, next, p, next.len() - s);
        proof {
            assert(txt@ =~= next@.subrange(p as int, (next@.len() - s) as int));
        }
        script.push(Operation::Insert { offset: p, text: txt });
    }
    proof {
        let gs = ops_view(script@);
        assert(gs.len() == script@.len());
        if script@.len() >= 1 {
            assert(gs[0] == script@[0]@);
        }
        if script@.len() >= 2 {
            assert(gs[1] == script@[1]@);
        }
        assert(is_diff_script(prev@, next@, gs));
        lemma_diff_script_applies(prev@, next@, gs);
    }
    script
}

} // verus!
