//! The data model: a todo item, the whole list as an ordered sequence, and
//! the bucket view (pending vs done) that positional ids are relative to.

use vstd::prelude::*;

verus! {

/// One todo entry: free text (as raw bytes) plus a completion flag.
#[derive(Debug, PartialEq, Eq)]
pub struct Todo {
    pub item: Vec<u8>,
    pub done: bool,
}

/// Mathematical image of a `Todo`.
pub ghost struct TodoView {
    pub item: Seq<u8>,
    pub done: bool,
}

impl View for Todo {
    type V = TodoView;

    open spec fn view(&self) -> TodoView {
        TodoView { item: self.item@, done: self.done }
    }
}

/// The mathematical image of a whole list.
pub open spec fn views(s: Seq<Todo>) -> Seq<TodoView> {
    s.map_values(|t: Todo| t@)
}

/// The sub-sequence of `s` whose items have done flag `b`, in list order.
/// This is the "bucket" that 1-based positional ids index into.
pub open spec fn bucket(s: Seq<TodoView>, b: bool) -> Seq<TodoView>
    decreases s.len(),
{
    if s.len() == 0 {
        Seq::empty()
    } else if s[0].done == b {
        seq![s[0]] + bucket(s.drop_first(), b)
    } else {
        bucket(s.drop_first(), b)
    }
}

/// How many items of `s` sit in the bucket with done flag `b`.
pub open spec fn count_bucket(s: Seq<TodoView>, b: bool) -> nat {
    bucket(s, b).len()
}

/// Why an operation was rejected or a stored list could not be read.
#[derive(Clone, Copy, Debug, PartialEq, Eq, Structural)]
pub enum TodoError {
    /// The bucket selector was neither `t` (pending) nor `d` (done).
    InvalidBucket,
    /// The positional id lies outside `1 ..= count_bucket(list, bucket)`.
    InvalidId,
    /// The persisted bytes are not a well-formed encoded list.
    CorruptStore,
}

/// Buckets distribute over concatenation.
pub proof fn lemma_bucket_concat(a: Seq<TodoView>, c: Seq<TodoView>, b: bool)
    ensures
        bucket(a + c, b) == bucket(a, b) + bucket(c, b),
    decreases a.len(),
{
    if a.len() == 0 {
        assert(a + c =~= c);
        assert(bucket(a, b) + bucket(c, b) =~= bucket(c, b));
    } else {
        assert((a + c).drop_first() =~= a.drop_first() + c);
        lemma_bucket_concat(a.drop_first(), c, b);
        if a[0].done == b {
            assert(seq![a[0]] + (bucket(a.drop_first(), b) + bucket(c, b)) =~= (seq![a[0]]
                + bucket(a.drop_first(), b)) + bucket(c, b));
        }
    }
}

/// The bucket of a one-item list is that item or nothing.
pub proof fn lemma_bucket_one(t: TodoView, b: bool)
    ensures
        t.done == b ==> bucket(seq![t], b) == seq![t],
        t.done != b ==> bucket(seq![t], b) == Seq::<TodoView>::empty(),
{
    assert(seq![t].drop_first() =~= Seq::<TodoView>::empty());
    assert(bucket(Seq::<TodoView>::empty(), b) =~= Seq::<TodoView>::empty());
    if t.done == b {
        assert(bucket(seq![t], b) =~= seq![t]);
    }
}

/// A list splits at any point into a prefix and a suffix bucket-wise.
pub proof fn lemma_count_split(s: Seq<TodoView>, j: int, b: bool)
    requires
        0 <= j <= s.len(),
    ensures
        count_bucket(s, b) == count_bucket(s.take(j), b) + count_bucket(s.skip(j), b),
{
    assert(s =~= s.take(j) + s.skip(j));
    lemma_bucket_concat(s.take(j), s.skip(j), b);
}

} // verus!
