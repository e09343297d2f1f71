use circular_queue::CircularQueue;
use vstd::prelude::*;

verus! {

#[verifier::external_type_specification]
#[verifier::external_body]
#[verifier::reject_recursive_types(T)]
pub struct ExCircularQueue<T>(CircularQueue<T>);

/// A pair of strings, by view.
pub open spec fn pair_view(p: (String, String)) -> (Seq<char>, Seq<char>) {
    (p.0@, p.1@)
}

/// The items of a queue of string pairs, newest first (the order of
/// `CircularQueue::iter`).
pub uninterp spec fn queue_items(q: CircularQueue<(String, String)>) -> Seq<(Seq<char>, Seq<char>)>;

/// The capacity that a queue was made with.
pub uninterp spec fn queue_capacity(q: CircularQueue<(String, String)>) -> nat;

/// What a push does to the items of a queue with the given capacity: the
/// new item comes first and, once the queue is full, the oldest leaves.
pub open spec fn pushed_items(
    items: Seq<(Seq<char>, Seq<char>)>,
    item: (Seq<char>, Seq<char>),
    capacity: nat,
) -> Seq<(Seq<char>, Seq<char>)> {
    let all = seq![item] + items;
    if capacity == 0 {
        items
    } else if all.len() <= capacity {
        all
    } else {
        all.take(capacity as int)
    }
}

/// `CircularQueue::with_capacity`: claims an empty queue with that capacity.
#[verifier::external_body]
pub(crate) fn new_queue(capacity: usize) -> (q: CircularQueue<(String, String)>)
    ensures
        queue_items(q) == Seq::<(Seq<char>, Seq<char>)>::empty(),
        queue_capacity(q) == capacity,
{
    CircularQueue::with_capacity(capacity)
}

/// `CircularQueue::push`: claims that the new item becomes the newest, that
/// the oldest is dropped when the queue is full (nothing is kept at
/// capacity 0), and that the capacity stays.
#[verifier::external_body]
pub(crate) fn queue_push(q: &mut CircularQueue<(String, String)>, item: (String, String))
    ensures
        queue_capacity(*final(q)) == queue_capacity(*old(q)),
        queue_items(*final(q)) == pushed_items(
            queue_items(*old(q)),
            pair_view(item),
            queue_capacity(*old(q)),
        ),
{
    q.push(item);
}

/// `CircularQueue::iter`, each item cloned: claims the items newest first.
#[verifier::external_body]
pub(crate) fn queue_entries(q: &CircularQueue<(String, String)>) -> (entries: Vec<(String, String)>)
    ensures
        entries@.map_values(|p: (String, String)| pair_view(p)) == queue_items(*q),
{
    q.iter().cloned().collect()
}

} // verus!
