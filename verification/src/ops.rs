//! The four list operations: append an item, flip a pending item to done,
//! omit an item from a bucket, and the shared positional-id addressing.

use vstd::prelude::*;
use crate::model::Todo;
use crate::model::TodoError;
use crate::model::TodoView;
use crate::model::bucket;
use crate::model::count_bucket;
use crate::model::lemma_bucket_concat;
use crate::model::lemma_bucket_one;
use crate::model::lemma_count_split;
use crate::model::views;
use crate::ascii::LC_D;
use crate::ascii::LC_T;

verus! {

/// `r` is `s` with the item at `k` flipped to done, everything else untouched.
pub open spec fn flip_at(s: Seq<TodoView>, k: int) -> Seq<TodoView> {
    s.update(k, TodoView { item: s[k].item, done: true })
}

/// Some index `k` witnesses that `r` is `s` with its `id`-th pending item
/// flipped to done.
pub open spec fn done_some(s: Seq<TodoView>, id: int, r: Seq<TodoView>) -> bool {
    exists|k: int| done_ok(s, id, k, r)
}

/// Some index `k` witnesses that `r` is `s` with the `id`-th item of bucket
/// `b` omitted.
pub open spec fn remove_some(s: Seq<TodoView>, b: bool, id: int, r: Seq<TodoView>) -> bool {
    exists|k: int| remove_ok(s, b, id, k, r)
}

/// `k` is the index, in the whole list `s`, of the `id`-th pending item
/// (1-based), and `r` is `s` with exactly that item flipped to done.
pub open spec fn done_ok(s: Seq<TodoView>, id: int, k: int, r: Seq<TodoView>) -> bool {
    &&& 0 <= k < s.len()
    &&& !s[k].done
    &&& count_bucket(s.take(k), false) == id - 1
    &&& r == flip_at(s, k)
}

/// `k` is the index, in the whole list `s`, of the `id`-th item (1-based) of
/// the bucket with done flag `b`, and `r` is `s` with that item omitted.
pub open spec fn remove_ok(s: Seq<TodoView>, b: bool, id: int, k: int, r: Seq<TodoView>) -> bool {
    &&& 0 <= k < s.len()
    &&& s[k].done == b
    &&& count_bucket(s.take(k), b) == id - 1
    &&& r == s.remove(k)
}

/// Which bucket a selector names: `t` is pending, `d` is done.
pub open spec fn bucket_of(sel: Seq<u8>) -> Option<bool> {
    if sel == seq![LC_T] {
        Some(false)
    } else if sel == seq![LC_D] {
        Some(true)
    } else {
        None
    }
}

fn clone_bytes(v: &Vec<u8>) -> (r: Vec<u8>)
    ensures
        r@ == v@,
{
    let mut r: Vec<u8> = Vec::new();
    let mut j: usize = 0;
    while j < v.len()
        invariant
            j <= v@.len(),
            r@ == v@.take(j as int),
        decreases v@.len() - j,
    {
        r.push(v[j]);
        assert(v@.take(j as int).push(v@[j as int]) =~= v@.take(j + 1));
        j += 1;
    }
    assert(v@.take(v@.len() as int) =~= v@);
    r
}

fn clone_todo(t: &Todo) -> (r: Todo)
    ensures
        r@ == t@,
{
    Todo { item: clone_bytes(&t.item), done: t.done }
}

/// The items of the bucket with done flag `b`, in list order.
pub fn bucket_items(todo_list: &Vec<Todo>, b: bool) -> (r: Vec<Todo>)
    ensures
        views(r@) == bucket(views(todo_list@), b),
{
    let ghost s = views(todo_list@);
    let mut r: Vec<Todo> = Vec::new();
    let mut j: usize = 0;
    proof {
        assert(s.skip(0) =~= s);
        assert(views(r@) + bucket(s, b) =~= bucket(s, b));
    }
    while j < todo_list.len()
        invariant
            j <= todo_list@.len(),
            s == views(todo_list@),
            bucket(s, b) == views(r@) + bucket(s.skip(j as int), b),
        decreases todo_list@.len() - j,
    {
        proof {
            assert(s.skip(j as int)[0] == s[j as int]);
            assert(s.skip(j as int).drop_first() =~= s.skip(j + 1));
        }
        if todo_list[j].done == b {
            let ghost r0 = views(r@);
            r.push(clone_todo(&todo_list[j]));
            proof {
                assert(views(r@) =~= r0.push(s[j as int]));
                assert(r0.push(s[j as int]) + bucket(s.skip(j + 1), b) =~= r0 + (seq![s[j as int]]
                    + bucket(s.skip(j + 1), b)));
            }
        }
        j += 1;
    }
    proof {
        assert(s.skip(todo_list@.len() as int) =~= Seq::<TodoView>::empty());
        assert(views(r@) + bucket(s.skip(todo_list@.len() as int), b) =~= views(r@));
    }
    r
}

/// Appends a new pending item at the end of the list; every existing item
/// keeps its position, so this always succeeds and never renumbers anything
/// already stored.
pub fn add(todo_list: Vec<Todo>, item: Vec<u8>) -> (r: Vec<Todo>)
    ensures
        views(r@) == views(todo_list@).push(TodoView { item: item@, done: false }),
{
    let ghost s = views(todo_list@);
    let ghost it = item@;
    let mut r = todo_list;
    r.push(Todo { item, done: false });
    proof {
        assert(views(r@) =~= s.push(TodoView { item: it, done: false }));
    }
    r
}

/// Marks the `id`-th pending item (1-based, counted over pending items only)
/// as done, leaving its position in the list unchanged. Succeeds exactly when
/// `1 <= id <= count_bucket(list, pending)`; otherwise returns `InvalidId`
/// and the list is left as it was.
pub fn done(todo_list: &Vec<Todo>, id: usize) -> (r: Result<Vec<Todo>, TodoError>)
    ensures
        r is Ok <==> 1 <= id <= count_bucket(views(todo_list@), false),
        r matches Ok(l2) ==> done_some(views(todo_list@), id as int, views(l2@)),
        r matches Err(e) ==> e == TodoError::InvalidId,
{
    let ghost s = views(todo_list@);
    let pending = bucket_items(todo_list, false);
    if id < 1 || id > pending.len() {
        return Err(TodoError::InvalidId);
    }
    let mut out: Vec<Todo> = Vec::new();
    let mut i: usize = 1;
    let mut found = false;
    let mut j: usize = 0;
    let ghost mut kk: int = 0;
    proof {
        assert(s.take(0) =~= Seq::<TodoView>::empty());
        assert(bucket(Seq::<TodoView>::empty(), false) =~= Seq::<TodoView>::empty());
        assert(views(out@) =~= Seq::<TodoView>::empty());
    }
    while j < todo_list.len()
        invariant
            j <= todo_list@.len(),
            s == views(todo_list@),
            1 <= id <= count_bucket(s, false),
            !found ==> {
                &&& 1 <= i <= id
                &&& i - 1 == count_bucket(s.take(j as int), false)
                &&& views(out@) == s.take(j as int)
                &&& out@.len() == j
            },
            found ==> {
                &&& 0 <= kk < j
                &&& !s[kk].done
                &&& count_bucket(s.take(kk), false) == id - 1
                &&& views(out@) == flip_at(s, kk).take(j as int)
                &&& out@.len() == j
            },
        decreases todo_list@.len() - j,
    {
        proof {
            lemma_count_split(s.take(j + 1), j as int, false);
            assert(s.take(j + 1).take(j as int) =~= s.take(j as int));
            assert(s.take(j + 1).skip(j as int) =~= seq![s[j as int]]);
            lemma_bucket_one(s[j as int], false);
        }
        let t = &todo_list[j];
        let ghost out0 = views(out@);
        if !t.done && !found {
            if i == id {
                out.push(Todo { item: clone_bytes(&t.item), done: true });
                found = true;
                proof {
                    kk = j as int;
                    assert(views(out@) =~= out0.push(TodoView { item: s[kk].item, done: true }));
                    assert(views(out@) =~= flip_at(s, kk).take(j + 1));
                }
            } else {
                out.push(clone_todo(t));
                proof {
                    assert(views(out@) =~= out0.push(s[j as int]));
                    assert(views(out@) =~= s.take(j + 1));
                }
                i += 1;
            }
        } else {
            out.push(clone_todo(t));
            proof {
                assert(views(out@) =~= out0.push(s[j as int]));
                if !found {
                    assert(views(out@) =~= s.take(j + 1));
                } else {
                    assert(flip_at(s, kk).take(j + 1).drop_last() =~= flip_at(s, kk).take(j as int));
                    assert(views(out@) =~= flip_at(s, kk).take(j + 1));
                }
            }
        }
        j += 1;
    }
    proof {
        if !found {
            assert(s.take(s.len() as int) =~= s);
        }
        assert(found);
        assert(flip_at(s, kk).take(s.len() as int) =~= flip_at(s, kk));
        assert(done_ok(views(todo_list@), id as int, kk, views(out@)));
        assert(done_some(views(todo_list@), id as int, views(out@)));
    }
    Ok(out)
}

/// Removes the `id`-th item (1-based) of the bucket named by `sel` (`t` for
/// pending, `d` for done); all other items keep their relative order. The
/// bucket selector is checked first: an unknown selector is `InvalidBucket`
/// whatever the id. With a known bucket, the call succeeds exactly when
/// `1 <= id <= count_bucket(list, bucket)`; otherwise it is `InvalidId` and
/// the list is left as it was.
pub fn remove(todo_list: &Vec<Todo>, sel: &Vec<u8>, id: usize) -> (r: Result<
    Vec<Todo>,
    TodoError,
>)
    ensures
        bucket_of(sel@) is None ==> (r matches Err(e) && e == TodoError::InvalidBucket),
        bucket_of(sel@) matches Some(b) ==> {
            &&& r is Ok <==> 1 <= id <= count_bucket(views(todo_list@), b)
            &&& (r matches Ok(l2) ==> remove_some(views(todo_list@), b, id as int, views(l2@)))
            &&& (r matches Err(e) ==> e == TodoError::InvalidId)
        },
{
    let b: bool;
    if sel.len() == 1 && sel[0] == LC_T {
        b = false;
        proof {
            assert(sel@ =~= seq![LC_T]);
        }
    } else if sel.len() == 1 && sel[0] == LC_D {
        b = true;
        proof {
            assert(sel@ =~= seq![LC_D]);
        }
    } else {
        proof {
            if sel@.len() == 1 {
                assert(sel@ =~= seq![sel@[0]]);
            }
            assert(bucket_of(sel@) is None);
        }
        return Err(TodoError::InvalidBucket);
    }
    let ghost s = views(todo_list@);
    let in_bucket = bucket_items(todo_list, b);
    if id < 1 || id > in_bucket.len() {
        return Err(TodoError::InvalidId);
    }
    let mut out: Vec<Todo> = Vec::new();
    let mut i: usize = 1;
    let mut found = false;
    let mut j: usize = 0;
    let ghost mut kk: int = 0;
    proof {
        assert(s.take(0) =~= Seq::<TodoView>::empty());
        assert(bucket(Seq::<TodoView>::empty(), b) =~= Seq::<TodoView>::empty());
        assert(views(out@) =~= Seq::<TodoView>::empty());
    }
    while j < todo_list.len()
        invariant
            j <= todo_list@.len(),
            s == views(todo_list@),
            1 <= id <= count_bucket(s, b),
            !found ==> {
                &&& 1 <= i <= id
                &&& i - 1 == count_bucket(s.take(j as int), b)
                &&& views(out@) == s.take(j as int)
            },
            found ==> {
                &&& 0 <= kk < j
                &&& s[kk].done == b
                &&& count_bucket(s.take(kk), b) == id - 1
                &&& views(out@) == s.remove(kk).take(j - 1)
            },
        decreases todo_list@.len() - j,
    {
        proof {
            lemma_count_split(s.take(j + 1), j as int, b);
            assert(s.take(j + 1).take(j as int) =~= s.take(j as int));
            assert(s.take(j + 1).skip(j as int) =~= seq![s[j as int]]);
            lemma_bucket_one(s[j as int], b);
            if found {
                assert(s.remove(kk).take(j - 1).push(s[j as int]) =~= s.remove(kk).take(j as int));
            }
        }
        let t = &todo_list[j];
        let ghost out0 = views(out@);
        if t.done == b && !found {
            if i == id {
                found = true;
                proof {
                    kk = j as int;
                    assert(views(out@) =~= s.remove(kk).take(j as int)) by {
                        assert(s.remove(kk).take(kk) =~= s.take(kk));
                    }
                }
            } else {
                out.push(clone_todo(t));
                proof {
                    assert(views(out@) =~= out0.push(s[j as int]));
                    assert(views(out@) =~= s.take(j + 1));
                }
                i += 1;
            }
        } else {
            out.push(clone_todo(t));
            proof {
                assert(views(out@) =~= out0.push(s[j as int]));
                if !found {
                    assert(views(out@) =~= s.take(j + 1));
                }
            }
        }
        j += 1;
    }
    proof {
        if !found {
            assert(s.take(s.len() as int) =~= s);
        }
        assert(found);
        assert(s.remove(kk).take(s.len() - 1) =~= s.remove(kk));
        assert(remove_ok(views(todo_list@), b, id as int, kk, views(out@)));
        assert(remove_some(views(todo_list@), b, id as int, views(out@)));
    }
    Ok(out)
}

/// Marking an item done neither reorders nor removes: the list keeps its
/// length and every position keeps its text.
pub proof fn lemma_done_only_flips(s: Seq<TodoView>, id: int, k: int, r: Seq<TodoView>)
    requires
        done_ok(s, id, k, r),
    ensures
        r.len() == s.len(),
        forall|i: int| 0 <= i < s.len() ==> r[i].item == s[i].item,
        forall|i: int| 0 <= i < s.len() && i != k ==> r[i] == s[i],
        r[k].done,
{
}

/// Removal only omits: the selected bucket shrinks by exactly one, the other
/// bucket is untouched, and every kept item retains its relative order (the
/// result is the prefix before `k` followed by the suffix after `k`).
pub proof fn lemma_remove_only_omits(s: Seq<TodoView>, b: bool, id: int, k: int, r: Seq<TodoView>)
    requires
        remove_ok(s, b, id, k, r),
    ensures
        r.len() == s.len() - 1,
        r == s.take(k) + s.skip(k + 1),
        count_bucket(r, b) == count_bucket(s, b) - 1,
        count_bucket(r, !b) == count_bucket(s, !b),
{
    let pre = s.take(k);
    let mid = seq![s[k]];
    let suf = s.skip(k + 1);
    assert(s =~= pre + (mid + suf));
    assert(r =~= pre + suf);
    lemma_bucket_concat(pre, mid + suf, b);
    lemma_bucket_concat(mid, suf, b);
    lemma_bucket_concat(pre, suf, b);
    lemma_bucket_one(s[k], b);
    lemma_bucket_concat(pre, mid + suf, !b);
    lemma_bucket_concat(mid, suf, !b);
    lemma_bucket_concat(pre, suf, !b);
    lemma_bucket_one(s[k], !b);
}

/// Flipping an item to done moves exactly one item from the pending bucket
/// to the done bucket: pending shrinks by one, done grows by one.
pub proof fn lemma_done_moves_one(s: Seq<TodoView>, id: int, k: int, r: Seq<TodoView>)
    requires
        done_ok(s, id, k, r),
    ensures
        count_bucket(r, false) == count_bucket(s, false) - 1,
        count_bucket(r, true) == count_bucket(s, true) + 1,
{
    let f = TodoView { item: s[k].item, done: true };
    let pre = s.take(k);
    let suf = s.skip(k + 1);
    assert(s =~= pre + (seq![s[k]] + suf));
    assert(r =~= pre + (seq![f] + suf));
    lemma_bucket_concat(pre, seq![s[k]] + suf, false);
    lemma_bucket_concat(seq![s[k]], suf, false);
    lemma_bucket_concat(pre, seq![f] + suf, false);
    lemma_bucket_concat(seq![f], suf, false);
    lemma_bucket_concat(pre, seq![s[k]] + suf, true);
    lemma_bucket_concat(seq![s[k]], suf, true);
    lemma_bucket_concat(pre, seq![f] + suf, true);
    lemma_bucket_concat(seq![f], suf, true);
    lemma_bucket_one(s[k], false);
    lemma_bucket_one(s[k], true);
    lemma_bucket_one(f, false);
    lemma_bucket_one(f, true);
}

} // verus!
