//! Bytes that wait to be written, in the buffers that they came in.

use crate::buffers::{content, contents};
use bytes::{Buf, Bytes};
use std::collections::VecDeque;
use vstd::prelude::*;

verus! {

broadcast use vstd::std_specs::vecdeque::group_vec_dequeue_axioms;

/// The queue once the first `n` bytes of its first buffer were written: the
/// buffer leaves the queue with its last byte.
pub open spec fn written(queue: Seq<Seq<u8>>, n: int) -> Seq<Seq<u8>>
    recommends
        queue.len() > 0,
        0 <= n <= queue[0].len(),
{
    if n == queue[0].len() {
        queue.drop_first()
    } else {
        queue.update(0, queue[0].skip(n))
    }
}

/// What joins the queue is written after all that waited before it.
pub proof fn law_push_appends(queue: Seq<Seq<u8>>, bytes: Seq<u8>)
    ensures
        queue.push(bytes).flatten() == queue.flatten() + bytes,
{
    queue.lemma_flatten_push(bytes);
}

/// Writing takes the bytes off the front of those that wait, and no others: none
/// is lost, repeated or overtaken.
pub proof fn law_written_skips(queue: Seq<Seq<u8>>, n: int)
    requires
        queue.len() > 0,
        0 <= n <= queue[0].len(),
    ensures
        queue[0].take(n) == queue.flatten().take(n),
        written(queue, n).flatten() == queue.flatten().skip(n),
{
    let rest = queue.drop_first().flatten();
    assert(queue.flatten() == queue[0] + rest);
    assert(queue[0].take(n) =~= queue.flatten().take(n));
    if n == queue[0].len() {
        assert(queue.flatten().skip(n) =~= rest);
    } else {
        let after = queue.update(0, queue[0].skip(n));
        assert(after.drop_first() =~= queue.drop_first());
        assert(after.flatten() == queue[0].skip(n) + rest);
        assert(queue.flatten().skip(n) =~= queue[0].skip(n) + rest);
    }
}

/// What can happen to a queue.
pub enum Change {
    /// These bytes joined it.
    Pushed(Seq<u8>),
    /// So many bytes of its first buffer were written.
    Written(int),
}

/// What there is to write for `change` to happen is there.
pub open spec fn allows(queue: Seq<Seq<u8>>, change: Change) -> bool {
    change matches Change::Written(n) ==> queue.len() > 0 && 0 <= n <= queue[0].len()
}

/// The queue once `change` happened.
pub open spec fn changed(queue: Seq<Seq<u8>>, change: Change) -> Seq<Seq<u8>> {
    match change {
        Change::Pushed(bytes) => queue.push(bytes),
        Change::Written(n) => written(queue, n),
    }
}

/// The changes can happen to the queue, one after the other.
pub open spec fn allows_all(queue: Seq<Seq<u8>>, changes: Seq<Change>) -> bool
    decreases changes.len(),
{
    changes.len() > 0 ==> {
        &&& allows(queue, changes[0])
        &&& allows_all(changed(queue, changes[0]), changes.drop_first())
    }
}

/// The queue once all changes happened.
pub open spec fn changed_by_all(queue: Seq<Seq<u8>>, changes: Seq<Change>) -> Seq<Seq<u8>>
    decreases changes.len(),
{
    if changes.len() == 0 {
        queue
    } else {
        changed_by_all(changed(queue, changes[0]), changes.drop_first())
    }
}

/// All bytes that join the queue, in order.
pub open spec fn input(changes: Seq<Change>) -> Seq<u8>
    decreases changes.len(),
{
    if changes.len() == 0 {
        seq![]
    } else {
        (match changes[0] {
            Change::Pushed(bytes) => bytes,
            Change::Written(_) => seq![],
        }) + input(changes.drop_first())
    }
}

/// All bytes that are written, in order.
pub open spec fn output(queue: Seq<Seq<u8>>, changes: Seq<Change>) -> Seq<u8>
    decreases changes.len(),
{
    if changes.len() == 0 {
        seq![]
    } else {
        (match changes[0] {
            Change::Pushed(_) => seq![],
            Change::Written(n) => queue[0].take(n),
        }) + output(changed(queue, changes[0]), changes.drop_first())
    }
}

/// However pushing and writing alternate, and however little is written at a time:
/// what was written, followed by what still waits, is what waited at first followed
/// by what was pushed.
pub proof fn law_all_written_in_order(queue: Seq<Seq<u8>>, changes: Seq<Change>)
    requires
        allows_all(queue, changes),
    ensures
        output(queue, changes) + changed_by_all(queue, changes).flatten() == queue.flatten()
            + input(changes),
    decreases changes.len(),
{
    if changes.len() == 0 {
        assert(output(queue, changes) + queue.flatten() =~= queue.flatten() + input(changes));
    } else {
        let next = changed(queue, changes[0]);
        let later = changes.drop_first();
        law_all_written_in_order(next, later);
        let end = changed_by_all(next, later).flatten();
        match changes[0] {
            Change::Pushed(bytes) => {
                law_push_appends(queue, bytes);
                assert(output(queue, changes) =~= output(next, later));
                assert(queue.flatten() + input(changes) =~= next.flatten() + input(later));
            },
            Change::Written(n) => {
                law_written_skips(queue, n);
                assert(queue.flatten() == queue[0] + queue.drop_first().flatten());
                assert(queue.flatten() =~= queue[0].take(n) + next.flatten());
                assert(input(changes) =~= input(later));
                assert(output(queue, changes) + end =~= queue[0].take(n) + (output(next, later)
                    + end));
                assert(queue.flatten() + input(changes) =~= queue[0].take(n) + (next.flatten()
                    + input(later)));
            },
        }
    }
}

/// `VecDeque::front_mut`: the first buffer of the queue, to be changed in place.
/// There is none where the queue is empty.
#[verifier::external_body]
pub(crate) fn front_mut(queue: &mut VecDeque<Bytes>) -> (front: Option<&mut Bytes>)
    ensures
        match front {
            Some(buffer) => {
                &&& old(queue)@.len() > 0
                &&& *buffer == old(queue)@[0]
                &&& final(queue)@ == old(queue)@.update(0, *final(buffer))
            },
            None => {
                &&& old(queue)@.len() == 0
                &&& final(queue)@ == old(queue)@
            },
        },
{
    queue.front_mut()
}

/// Takes the first `n` bytes off the first buffer, and the buffer off the queue
/// where it then is empty.
pub(crate) fn advance_front(queue: &mut VecDeque<Bytes>, n: usize)
    requires
        old(queue)@.len() > 0,
        n <= content(old(queue)@[0]).len(),
    ensures
        contents(final(queue)@) == written(contents(old(queue)@), n as int),
{
    let ghost before = queue@;
    let drained: bool = match front_mut(queue) {
        Some(front) => {
            front.advance(n);
            front.is_empty()
        },
        None => false,
    };
    if drained {
        queue.pop_front();
        assert(contents(queue@) =~= contents(before).drop_first());
    } else {
        assert(contents(queue@) =~= contents(before).update(0, content(before[0]).skip(n as int)));
    }
}

} // verus!
