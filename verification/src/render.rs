//! Rendering the list as the text the user sees: a `Todo:` section with the
//! pending items and a `Done:` section with the done items, each numbered
//! from 1 in its own bucket — the same numbering the operations address by.

use vstd::prelude::*;
use crate::model::Todo;
use crate::model::TodoView;
use crate::model::bucket;
use crate::model::count_bucket;
use crate::model::views;
use crate::model::TodoError;
use crate::codec::decode;
use crate::codec::decode_spec;
use crate::ops::bucket_items;
use crate::ascii::COLON;
use crate::ascii::DASH;
use crate::ascii::DOT;
use crate::ascii::LC_D;
use crate::ascii::LC_E;
use crate::ascii::LC_N;
use crate::ascii::LC_O;
use crate::ascii::LF;
use crate::ascii::SPACE;
use crate::ascii::UC_D;
use crate::ascii::UC_T;
use crate::ascii::ZERO;

verus! {

/// The decimal digits of `n`, most significant first, no leading zeros
/// (a single `0` for zero).
pub open spec fn dec_rep(n: nat) -> Seq<u8>
    decreases n,
{
    if n < 10 {
        seq![(ZERO + n) as u8]
    } else {
        dec_rep(n / 10).push((ZERO + n % 10) as u8)
    }
}

/// `Todo:` over a dashed rule.
pub open spec fn todo_header() -> Seq<u8> {
    seq![UC_T, LC_O, LC_D, LC_O, COLON, LF, DASH, DASH, DASH, DASH, DASH, LF]
}

/// `Done:` over a dashed rule.
pub open spec fn done_header() -> Seq<u8> {
    seq![UC_D, LC_O, LC_N, LC_E, COLON, LF, DASH, DASH, DASH, DASH, DASH, LF]
}

/// One line per item: its 1-based number in the bucket, a dot, a space, the
/// text, a newline; numbering starts at `n`.
pub open spec fn render_lines(items: Seq<TodoView>, n: nat) -> Seq<u8>
    decreases items.len(),
{
    if items.len() == 0 {
        Seq::empty()
    } else {
        dec_rep(n) + seq![DOT, SPACE] + items[0].item + seq![LF] + render_lines(
            items.drop_first(),
            n + 1,
        )
    }
}

/// The whole listing: each section appears only if its bucket is non-empty;
/// a blank line closes the pending section.
pub open spec fn render(s: Seq<TodoView>) -> Seq<u8> {
    (if count_bucket(s, false) > 0 {
        todo_header() + render_lines(bucket(s, false), 1) + seq![LF]
    } else {
        Seq::empty()
    }) + (if count_bucket(s, true) > 0 {
        done_header() + render_lines(bucket(s, true), 1)
    } else {
        Seq::empty()
    })
}

fn push_bytes(out: &mut Vec<u8>, s: &Vec<u8>)
    ensures
        final(out)@ == old(out)@ + s@,
{
    let ghost o0 = out@;
    let mut j: usize = 0;
    while j < s.len()
        invariant
            j <= s@.len(),
            out@ == o0 + s@.take(j as int),
        decreases s@.len() - j,
    {
        out.push(s[j]);
        assert((o0 + s@.take(j as int)).push(s@[j as int]) =~= o0 + s@.take(j + 1));
        j += 1;
    }
    assert(o0 + s@.take(s@.len() as int) =~= o0 + s@);
}

/// Appends the decimal digits of `n`.
fn push_num(out: &mut Vec<u8>, n: usize)
    ensures
        final(out)@ == old(out)@ + dec_rep(n as nat),
    decreases n,
{
    if n < 10 {
        out.push(ZERO + (n as u8));
        assert(out@ =~= old(out)@ + dec_rep(n as nat));
    } else {
        push_num(out, n / 10);
        out.push(ZERO + ((n % 10) as u8));
        assert(out@ =~= old(out)@ + dec_rep(n as nat));
    }
}

fn push_todo_header(out: &mut Vec<u8>)
    ensures
        final(out)@ == old(out)@ + todo_header(),
{
    out.push(UC_T);
    out.push(LC_O);
    out.push(LC_D);
    out.push(LC_O);
    out.push(COLON);
    out.push(LF);
    out.push(DASH);
    out.push(DASH);
    out.push(DASH);
    out.push(DASH);
    out.push(DASH);
    out.push(LF);
    assert(out@ =~= old(out)@ + todo_header());
}

fn push_done_header(out: &mut Vec<u8>)
    ensures
        final(out)@ == old(out)@ + done_header(),
{
    out.push(UC_D);
    out.push(LC_O);
    out.push(LC_N);
    out.push(LC_E);
    out.push(COLON);
    out.push(LF);
    out.push(DASH);
    out.push(DASH);
    out.push(DASH);
    out.push(DASH);
    out.push(DASH);
    out.push(LF);
    assert(out@ =~= old(out)@ + done_header());
}

fn push_lines(out: &mut Vec<u8>, items: &Vec<Todo>)
    ensures
        final(out)@ == old(out)@ + render_lines(views(items@), 1),
{
    let ghost sv = views(items@);
    let ghost o0 = out@;
    let mut i: usize = 0;
    proof {
        assert(sv.skip(0) =~= sv);
    }
    while i < items.len()
        invariant
            i <= items@.len(),
            sv == views(items@),
            o0 + render_lines(sv, 1) == out@ + render_lines(sv.skip(i as int), (i + 1) as nat),
        decreases items@.len() - i,
    {
        proof {
            assert(sv.skip(i as int)[0] == sv[i as int]);
            assert(sv.skip(i as int).drop_first() =~= sv.skip(i + 1));
        }
        let ghost o1 = out@;
        push_num(out, i + 1);
        out.push(DOT);
        out.push(SPACE);
        push_bytes(out, &items[i].item);
        out.push(LF);
        proof {
            assert(out@ =~= o1 + (dec_rep((i + 1) as nat) + seq![DOT, SPACE] + sv[i as int].item
                + seq![LF]));
            assert(render_lines(sv.skip(i as int), (i + 1) as nat) == dec_rep((i + 1) as nat)
                + seq![DOT, SPACE] + sv.skip(i as int)[0].item + seq![LF] + render_lines(
                sv.skip(i as int).drop_first(),
                (i + 2) as nat,
            ));
            assert(o1 + render_lines(sv.skip(i as int), (i + 1) as nat) =~= out@ + render_lines(
                sv.skip(i + 1),
                (i + 2) as nat,
            ));
        }
        i += 1;
    }
    proof {
        assert(sv.skip(items@.len() as int) =~= Seq::<TodoView>::empty());
        assert(out@ + render_lines(Seq::<TodoView>::empty(), (items@.len() + 1) as nat) =~= out@);
    }
}

/// Renders the listing exactly as `render` describes it.
pub fn print(todo_list: &Vec<Todo>) -> (r: Vec<u8>)
    ensures
        r@ == render(views(todo_list@)),
{
    let ghost s = views(todo_list@);
    let mut out: Vec<u8> = Vec::new();
    let pending = bucket_items(todo_list, false);
    if pending.len() > 0 {
        push_todo_header(&mut out);
        push_lines(&mut out, &pending);
        out.push(LF);
    }
    let ghost after_pending = out@;
    let done_items = bucket_items(todo_list, true);
    if done_items.len() > 0 {
        push_done_header(&mut out);
        push_lines(&mut out, &done_items);
    }
    proof {
        if pending@.len() > 0 {
            assert(after_pending =~= (todo_header() + render_lines(bucket(s, false), 1)
                + seq![LF]));
        } else {
            assert(after_pending =~= Seq::<u8>::empty());
        }
        if done_items@.len() > 0 {
            assert(out@ =~= after_pending + (done_header() + render_lines(bucket(s, true), 1)));
        } else {
            assert(out@ =~= after_pending + Seq::<u8>::empty());
        }
        assert(out@ =~= render(s));
    }
    out
}

/// The read-only listing: decodes stored bytes and renders them; corrupt
/// content is reported, never shown as an empty list.
pub fn list(content: &Vec<u8>) -> (r: Result<Vec<u8>, TodoError>)
    ensures
        decode_spec(content@) matches Some(l) ==> (r matches Ok(out) && out@ == render(l)),
        decode_spec(content@) is None ==> (r matches Err(e) && e == TodoError::CorruptStore),
{
    match decode(content) {
        Ok(l) => Ok(print(&l)),
        Err(e) => Err(e),
    }
}

} // verus!
