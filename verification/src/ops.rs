//! Edit operations and deltas: the fine-grained record of one file mutation,
//! and the semantics of replaying such records against file content.

use vstd::prelude::*;

verus! {

/// One edit operation. Offsets are byte positions in the content as it
/// stands immediately before this operation runs; the operations of one
/// delta apply in listed order against successively updated content.
#[derive(Debug)]
pub enum Operation {
    Insert { offset: usize, text: Vec<u8> },
    Delete { offset: usize, length: usize },
}

/// One observed mutation of a file: an ordered operation script plus the
/// moment (milliseconds) at which the mutation was recorded.
#[derive(Debug)]
pub struct Delta {
    pub timestamp: u64,
    pub operations: Vec<Operation>,
}

/// Mathematical value of an [`Operation`].
pub enum OperationView {
    Insert { offset: usize, text: Seq<u8> },
    Delete { offset: usize, length: usize },
}

/// Mathematical value of a [`Delta`].
pub struct DeltaView {
    pub timestamp: u64,
    pub operations: Seq<OperationView>,
}

impl View for Operation {
    type V = OperationView;

    open spec fn view(&self) -> OperationView {
        match *self {
            Operation::Insert { offset, text } => OperationView::Insert { offset, text: text@ },
            Operation::Delete { offset, length } => OperationView::Delete { offset, length },
        }
    }
}

impl View for Delta {
    type V = DeltaView;

    open spec fn view(&self) -> DeltaView {
        DeltaView { timestamp: self.timestamp, operations: ops_view(self.operations@) }
    }
}

/// The operation scripts of a sequence of operations, as values.
pub open spec fn ops_view(script: Seq<Operation>) -> Seq<OperationView> {
    script.map_values(|op: Operation| op@)
}

/// The deltas of a sequence, as values.
pub open spec fn deltas_view(deltas: Seq<Delta>) -> Seq<DeltaView> {
    deltas.map_values(|d: Delta| d@)
}

/// Whether `op` is in range for `content`, so that applying it is defined.
pub open spec fn op_applies(content: Seq<u8>, op: OperationView) -> bool {
    match op {
        OperationView::Insert { offset, text } => offset <= content.len(),
        OperationView::Delete { offset, length } => offset + length <= content.len(),
    }
}

/// The content after `op` runs on `content`; meaningful when `op_applies`.
pub open spec fn apply_op(content: Seq<u8>, op: OperationView) -> Seq<u8> {
    match op {
        OperationView::Insert { offset, text } =>
            content.subrange(0, offset as int) + text + content.subrange(
                offset as int,
                content.len() as int,
            ),
        OperationView::Delete { offset, length } =>
            content.subrange(0, offset as int) + content.subrange(
                offset + length,
                content.len() as int,
            ),
    }
}

/// Runs an operation script in order; `None` when some operation falls out
/// of range of the content it meets.
pub open spec fn ops_apply(content: Seq<u8>, script: Seq<OperationView>) -> Option<Seq<u8>>
    decreases script.len(),
{
    if script.len() == 0 {
        Some(content)
    } else if op_applies(content, script[0]) {
        ops_apply(apply_op(content, script[0]), script.drop_first())
    } else {
        None
    }
}

/// Replays a file's deltas in order against a starting content.
pub open spec fn replay_file(base: Seq<u8>, deltas: Seq<DeltaView>) -> Option<Seq<u8>>
    decreases deltas.len(),
{
    if deltas.len() == 0 {
        Some(base)
    } else {
        match ops_apply(base, deltas[0].operations) {
            Some(next) => replay_file(next, deltas.drop_first()),
            None => None,
        }
    }
}

/// Timestamps of a file's deltas are strictly increasing in recorded order.
pub open spec fn deltas_monotonic(deltas: Seq<DeltaView>) -> bool {
    forall|i: int, j: int|
        0 <= i < j < deltas.len() ==> deltas[i].timestamp < deltas[j].timestamp
}

/// Appending a script to another runs the first, then the second.
pub proof fn lemma_ops_apply_concat(content: Seq<u8>, a: Seq<OperationView>, b: Seq<OperationView>)
    ensures
        ops_apply(content, a + b) == match ops_apply(content, a) {
            Some(mid) => ops_apply(mid, b),
            None => None::<Seq<u8>>,
        },
    decreases a.len(),
{
    if a.len() == 0 {
        assert(a + b =~= b);
    } else {
        assert((a + b)[0] == a[0]);
        if op_applies(content, a[0]) {
            assert((a + b).drop_first() =~= a.drop_first() + b);
            lemma_ops_apply_concat(apply_op(content, a[0]), a.drop_first(), b);
        }
    }
}

/// Appending one delta sequence to another replays the first, then the
/// second from where the first left off.
pub proof fn lemma_replay_file_concat(base: Seq<u8>, a: Seq<DeltaView>, b: Seq<DeltaView>)
    ensures
        replay_file(base, a + b) == match replay_file(base, a) {
            Some(mid) => replay_file(mid, b),
            None => None::<Seq<u8>>,
        },
    decreases a.len(),
{
    if a.len() == 0 {
        assert(a + b =~= b);
    } else {
        assert((a + b)[0] == a[0]);
        assert((a + b).drop_first() =~= a.drop_first() + b);
        match ops_apply(base, a[0].operations) {
            Some(next) => {
                lemma_replay_file_concat(next, a.drop_first(), b);
            },
            None => {},
        }
    }
}

/// Appending one delta to a replay runs the replay, then that delta's script.
pub proof fn lemma_replay_file_push(base: Seq<u8>, deltas: Seq<DeltaView>, d: DeltaView)
    ensures
        replay_file(base, deltas.push(d)) == match replay_file(base, deltas) {
            Some(mid) => ops_apply(mid, d.operations),
            None => None::<Seq<u8>>,
        },
{
    assert(deltas.push(d) =~= deltas + seq![d]);
    lemma_replay_file_concat(base, deltas, seq![d]);
    assert(seq![d].drop_first() =~= Seq::<DeltaView>::empty());
    assert(seq![d][0] == d);
    match replay_file(base, deltas) {
        Some(mid) => {
            match ops_apply(mid, d.operations) {
                Some(next) => {
                    assert(replay_file(next, Seq::<DeltaView>::empty()) == Some(next));
                    assert(replay_file(mid, seq![d]) == Some(next));
                },
                None => {
                    assert(replay_file(mid, seq![d]) is None);
                },
            }
        },
        None => {},
    }
}

/// Copies `src[from..to]` onto the end of `out`.
pub(crate) fn push_range(out: &mut Vec<u8>, src: &Vec<u8>, from: usize, to: usize)
    requires
        from <= to <= src@.len(),
    ensures
        final(out)@ == old(out)@ + src@.subrange(from as int, to as int),
{
    let mut i: usize = from;
    while i < to
        invariant
            from <= i <= to <= src@.len(),
            out@ == old(out)@ + src@.subrange(from as int, i as int),
        decreases to - i,
    {
        out.push(src[i]);
        assert(src@.subrange(from as int, (i + 1) as int) =~= src@.subrange(
            from as int,
            i as int,
        ).push(src@[i as int]));
        i += 1;
    }
    assert(out@ =~= old(out)@ + src@.subrange(from as int, to as int));
}

/// Copies a byte string.
pub(crate) fn copy_bytes(src: &Vec<u8>) -> (out: Vec<u8>)
    ensures
        out@ == src@,
{
    let mut out: Vec<u8> = Vec::new();
    push_range(&mut out, src, 0, src.len());
    assert(out@ =~= src@);
    out
}

/// Applies one operation to `content`; `None` when it is out of range.
pub fn apply_operation(content: &Vec<u8>, op: &Operation) -> (result: Option<Vec<u8>>)
    ensures
        result matches Some(r) ==> op_applies(content@, op@) && r@ == apply_op(content@, op@),
        result is None ==> !op_applies(content@, op@),
{
    match op {
        Operation::Insert { offset, text } => {
            if *offset > content.len() {
                return None;
            }
            let mut out: Vec<u8> = Vec::new();
            push_range(&mut out, content, 0, *offset);
            push_range(&mut out, text, 0, text.len());
            push_range(&mut out, content, *offset, content.len());
            assert(text@.subrange(0, text@.len() as int) =~= text@);
            assert(out@ =~= apply_op(content@, op@));
            Some(out)
        },
        Operation::Delete { offset, length } => {
            if *offset > content.len() || *length > content.len() - *offset {
                return None;
            }
            let mut out: Vec<u8> = Vec::new();
            push_range(&mut out, content, 0, *offset);
            push_range(&mut out, content, *offset + *length, content.len());
            assert(out@ =~= apply_op(content@, op@));
            Some(out)
        },
    }
}

/// Runs an operation script in order; `None` as soon as one operation is
/// out of range.
pub fn apply_operations(content: Vec<u8>, script: &Vec<Operation>) -> (result: Option<Vec<u8>>)
    ensures
        result matches Some(r) ==> ops_apply(content@, ops_view(script@)) == Some(r@),
        result is None ==> ops_apply(content@, ops_view(script@)) is None,
{
    let mut cur = content;
    let ghost orig = cur@;
    let ghost sv = ops_view(script@);
    let mut i: usize = 0;
    while i < script.len()
        invariant
            i <= script@.len(),
            orig == content@,
            sv == ops_view(script@),
            sv.len() == script@.len(),
            ops_apply(orig, sv.subrange(0, i as int)) == Some(cur@),
        decreases script@.len() - i,
    {
        proof {
            assert(sv[i as int] == script@[i as int]@);
            assert(sv.subrange(0, (i + 1) as int) =~= sv.subrange(0, i as int).push(sv[i as int]));
            lemma_ops_apply_concat(orig, sv.subrange(0, i as int), seq![sv[i as int]]);
            assert(sv.subrange(0, i as int).push(sv[i as int]) =~= sv.subrange(0, i as int)
                + seq![sv[i as int]]);
            assert(seq![sv[i as int]][0] == sv[i as int]);
            assert(seq![sv[i as int]].drop_first() =~= Seq::<OperationView>::empty());
        }
        let ghost cur_view = cur@;
        match apply_operation(&cur, &script[i]) {
            Some(next) => {
                proof {
                    assert(ops_apply(next@, Seq::<OperationView>::empty()) == Some(next@));
                    assert(ops_apply(cur_view, seq![sv[i as int]]) == Some(next@));
                }
                cur = next;
            },
            None => {
                proof {
                    lemma_ops_apply_concat(orig, sv.subrange(0, i as int), sv.skip(i as int));
                    assert(sv =~= sv.subrange(0, i as int) + sv.skip(i as int));
                    assert(sv.skip(i as int)[0] == sv[i as int]);
                    assert(ops_apply(cur_view, sv.skip(i as int)) is None);
                    assert(ops_apply(orig, sv) is None);
                }
                return None;
            },
        }
        i += 1;
    }
    assert(sv.subrange(0, sv.len() as int) =~= sv);
    Some(cur)
}

/// Replays a file's deltas in order against a starting content; `None` when
/// some delta's script does not fit the content it meets.
pub fn replay_deltas(base: Vec<u8>, deltas: &Vec<Delta>) -> (result: Option<Vec<u8>>)
    ensures
        result matches Some(r) ==> replay_file(base@, deltas_view(deltas@)) == Some(r@),
        result is None ==> replay_file(base@, deltas_view(deltas@)) is None,
{
    let mut cur = base;
    let ghost orig = cur@;
    let ghost dv = deltas_view(deltas@);
    let mut i: usize = 0;
    while i < deltas.len()
        invariant
            i <= deltas@.len(),
            orig == base@,
            dv == deltas_view(deltas@),
            dv.len() == deltas@.len(),
            replay_file(orig, dv.subrange(0, i as int)) == Some(cur@),
        decreases deltas@.len() - i,
    {
        proof {
            assert(dv[i as int] == deltas@[i as int]@);
            assert(dv.subrange(0, (i + 1) as int) =~= dv.subrange(0, i as int).push(dv[i as int]));
            lemma_replay_file_push(orig, dv.subrange(0, i as int), dv[i as int]);
        }
        let ghost cur_view = cur@;
        match apply_operations(cur, &deltas[i].operations) {
            Some(next) => {
                cur = next;
            },
            None => {
                proof {
                    lemma_replay_file_concat(orig, dv.subrange(0, i as int), dv.skip(i as int));
                    assert(dv =~= dv.subrange(0, i as int) + dv.skip(i as int));
                    assert(dv.skip(i as int)[0] == dv[i as int]);
                    assert(ops_apply(cur_view, dv[i as int].operations) is None);
                    assert(replay_file(cur_view, dv.skip(i as int)) is None);
                    assert(replay_file(orig, dv) is None);
                }
                return None;
            },
        }
        i += 1;
    }
    assert(dv.subrange(0, dv.len() as int) =~= dv);
    Some(cur)
}

} // verus!
