//! Saving and loading agree: decoding what `encode` wrote yields exactly the
//! list that was written, so a load-then-save rewrites the file byte for
//! byte.

use vstd::prelude::*;
use crate::model::TodoView;
use crate::codec::Member;
use crate::codec::decode_spec;
use crate::codec::done_key;
use crate::codec::enc_items;
use crate::codec::enc_list;
use crate::codec::enc_todo;
use crate::codec::esc;
use crate::codec::esc_byte;
use crate::codec::false_lit;
use crate::codec::hex_digit;
use crate::codec::hex_val;
use crate::codec::is_ws;
use crate::codec::item_key;
use crate::codec::parse_bool;
use crate::codec::parse_items;
use crate::codec::parse_list;
use crate::codec::parse_member;
use crate::codec::parse_string_body;
use crate::codec::parse_todo;
use crate::codec::skip_ws;
use crate::codec::true_lit;
use crate::codec::utf8_of;
use crate::ascii::BACKSLASH;
use crate::ascii::COLON;
use crate::ascii::COMMA;
use crate::ascii::LBRACE;
use crate::ascii::LBRACKET;
use crate::ascii::LC_U;
use crate::ascii::QUOTE;
use crate::ascii::RBRACE;
use crate::ascii::RBRACKET;
use crate::ascii::SPACE;
use crate::ascii::ZERO;

verus! {

/// Whitespace skipping does nothing where no leading whitespace stands.
proof fn lemma_skip_ws_id(s: Seq<u8>)
    requires
        s.len() == 0 || !is_ws(s[0]),
    ensures
        skip_ws(s) == s,
{
}

/// Escaping leaves a text of plain bytes as it is.
proof fn lemma_esc_plain(s: Seq<u8>)
    requires
        forall|i: int| 0 <= i < s.len() ==> s[i] >= SPACE && s[i] != QUOTE && s[i] != BACKSLASH,
    ensures
        esc(s) == s,
    decreases s.len(),
{
    if s.len() > 0 {
        lemma_esc_plain(s.drop_first());
        assert(esc_byte(s[0]) == seq![s[0]]);
        assert(seq![s[0]] + s.drop_first() =~= s);
    }
}

/// Unescaping inverts escaping: the string parser, fed an escaped text, the
/// closing quote and anything after it, yields the text and that remainder.
proof fn lemma_parse_esc(t: Seq<u8>, rest: Seq<u8>)
    ensures
        parse_string_body(esc(t) + seq![QUOTE] + rest) == Some((t, rest)),
    decreases t.len(),
{
    let s = esc(t) + seq![QUOTE] + rest;
    if t.len() == 0 {
        assert(s =~= seq![QUOTE] + rest);
        assert(s[0] == QUOTE);
        assert(s.drop_first() =~= rest);
        assert(t =~= Seq::<u8>::empty());
    } else {
        let b = t[0];
        let tail = esc(t.drop_first()) + seq![QUOTE] + rest;
        assert(s =~= esc_byte(b) + tail);
        lemma_parse_esc(t.drop_first(), rest);
        if b == QUOTE || b == BACKSLASH || b == 8 || b == 9 || b == 10 || b == 12 || b == 13 {
            assert(esc_byte(b).len() == 2);
            assert(s[0] == BACKSLASH);
            assert(s[1] == esc_byte(b)[1]);
            assert(s.skip(2) =~= tail);
            assert(seq![b] + t.drop_first() =~= t);
        } else if b < SPACE {
            assert(esc_byte(b) == seq![
                BACKSLASH,
                LC_U,
                ZERO,
                ZERO,
                hex_digit((b / 16) as nat),
                hex_digit((b % 16) as nat),
            ]);
            assert(s[0] == BACKSLASH);
            assert(s[1] == LC_U);
            assert(s[2] == ZERO);
            assert(s[3] == ZERO);
            assert(s[4] == hex_digit((b / 16) as nat));
            assert(s[5] == hex_digit((b % 16) as nat));
            assert(hex_val(ZERO) == Some(0nat));
            assert(hex_val(hex_digit((b / 16) as nat)) == Some((b / 16) as nat));
            assert(hex_val(hex_digit((b % 16) as nat)) == Some((b % 16) as nat));
            let v = 0nat * 0x1000 + 0nat * 0x100 + ((b / 16) as nat) * 0x10 + ((b % 16) as nat);
            assert(v == b);
            assert(utf8_of(v) == seq![b]);
            assert(s.skip(6) =~= tail);
            assert(seq![b] + t.drop_first() =~= t);
        } else {
            assert(esc_byte(b) == seq![b]);
            assert(s[0] == b);
            assert(s.drop_first() =~= tail);
            assert(seq![b] + t.drop_first() =~= t);
        }
    }
}

/// The boolean parser reads back exactly the literal the encoder wrote.
proof fn lemma_parse_bool_lit(d: bool, rest: Seq<u8>)
    ensures
        parse_bool((if d {
            true_lit()
        } else {
            false_lit()
        }) + rest) == Some((d, rest)),
{
    if d {
        let s = true_lit() + rest;
        assert(s.skip(4) =~= rest);
    } else {
        let s = false_lit() + rest;
        assert(s.skip(5) =~= rest);
    }
}

/// The member parser reads back an `item` member as the encoder writes it.
proof fn lemma_parse_member_item(txt: Seq<u8>, rest: Seq<u8>)
    ensures
        parse_member(
            seq![QUOTE] + item_key() + seq![QUOTE, COLON, QUOTE] + esc(txt) + seq![QUOTE] + rest,
        ) == Some((Member::ItemText(txt), rest)),
{
    let s = seq![QUOTE] + item_key() + seq![QUOTE, COLON, QUOTE] + esc(txt) + seq![QUOTE] + rest;
    let rest2 = seq![COLON, QUOTE] + esc(txt) + seq![QUOTE] + rest;
    assert(s[0] == QUOTE);
    lemma_esc_plain(item_key());
    assert(s.drop_first() =~= esc(item_key()) + seq![QUOTE] + rest2);
    lemma_parse_esc(item_key(), rest2);
    lemma_skip_ws_id(rest2);
    assert(rest2[0] == COLON);
    let r3a = seq![QUOTE] + esc(txt) + seq![QUOTE] + rest;
    assert(rest2.drop_first() =~= r3a);
    lemma_skip_ws_id(r3a);
    assert(r3a[0] == QUOTE);
    assert(r3a.drop_first() =~= esc(txt) + seq![QUOTE] + rest);
    lemma_parse_esc(txt, rest);
}

/// The member parser reads back a `done` member as the encoder writes it.
proof fn lemma_parse_member_done(d: bool, rest: Seq<u8>)
    ensures
        parse_member(
            seq![QUOTE] + done_key() + seq![QUOTE, COLON] + (if d {
                true_lit()
            } else {
                false_lit()
            }) + rest,
        ) == Some((Member::DoneFlag(d), rest)),
{
    let lit = if d {
        true_lit()
    } else {
        false_lit()
    };
    let s = seq![QUOTE] + done_key() + seq![QUOTE, COLON] + lit + rest;
    let rest2 = seq![COLON] + lit + rest;
    assert(s[0] == QUOTE);
    lemma_esc_plain(done_key());
    assert(s.drop_first() =~= esc(done_key()) + seq![QUOTE] + rest2);
    lemma_parse_esc(done_key(), rest2);
    lemma_skip_ws_id(rest2);
    assert(rest2[0] == COLON);
    let r3a = lit + rest;
    assert(rest2.drop_first() =~= r3a);
    assert(r3a.len() > 0 && !is_ws(r3a[0]));
    lemma_skip_ws_id(r3a);
    assert(done_key()[0] != item_key()[0]);
    assert(done_key() != item_key());
    lemma_parse_bool_lit(d, rest);
}

/// The item parser reads back exactly what `enc_todo` wrote.
proof fn lemma_parse_todo_enc(t: TodoView, rest: Seq<u8>)
    ensures
        parse_todo(enc_todo(t) + rest) == Some((t, rest)),
{
    let lit = if t.done {
        true_lit()
    } else {
        false_lit()
    };
    let s = enc_todo(t) + rest;
    assert(s[0] == LBRACE);
    let rest1 = seq![COMMA] + (seq![QUOTE] + done_key() + seq![QUOTE, COLON] + lit + (seq![RBRACE]
        + rest));
    let m1 = seq![QUOTE] + item_key() + seq![QUOTE, COLON, QUOTE] + esc(t.item) + seq![QUOTE]
        + rest1;
    assert(s.drop_first() =~= m1);
    lemma_skip_ws_id(m1);
    lemma_parse_member_item(t.item, rest1);
    lemma_skip_ws_id(rest1);
    assert(rest1[0] == COMMA);
    let m2 = seq![QUOTE] + done_key() + seq![QUOTE, COLON] + lit + (seq![RBRACE] + rest);
    assert(rest1.drop_first() =~= m2);
    lemma_skip_ws_id(m2);
    lemma_parse_member_done(t.done, seq![RBRACE] + rest);
    let r6 = seq![RBRACE] + rest;
    lemma_skip_ws_id(r6);
    assert(r6[0] == RBRACE);
    assert(r6.drop_first() =~= rest);
    assert(TodoView { item: t.item, done: t.done } == t);
}

/// The items parser reads back exactly what the encoder wrote for a
/// non-empty list, up to the closing bracket.
proof fn lemma_parse_items_enc(l: Seq<TodoView>, rest: Seq<u8>)
    requires
        l.len() > 0,
    ensures
        parse_items(enc_items(l) + seq![RBRACKET] + rest) == Some((l, rest)),
    decreases l.len(),
{
    let s = enc_items(l) + seq![RBRACKET] + rest;
    if l.len() == 1 {
        assert(s =~= enc_todo(l[0]) + (seq![RBRACKET] + rest));
        lemma_parse_todo_enc(l[0], seq![RBRACKET] + rest);
        let r2 = seq![RBRACKET] + rest;
        lemma_skip_ws_id(r2);
        assert(r2[0] == RBRACKET);
        assert(r2.drop_first() =~= rest);
        assert(seq![l[0]] =~= l);
    } else {
        let ld = l.drop_first();
        let r1 = seq![COMMA] + (enc_items(ld) + seq![RBRACKET] + rest);
        assert(s =~= enc_todo(l[0]) + r1);
        lemma_parse_todo_enc(l[0], r1);
        lemma_skip_ws_id(r1);
        assert(r1[0] == COMMA);
        let r3 = enc_items(ld) + seq![RBRACKET] + rest;
        assert(r1.drop_first() =~= r3);
        assert(enc_items(ld)[0] == LBRACE) by {
            if ld.len() == 1 {
                assert(enc_items(ld) == enc_todo(ld[0]));
            }
            assert(enc_todo(ld[0])[0] == LBRACE);
        }
        assert(r3[0] == LBRACE);
        lemma_skip_ws_id(r3);
        assert(r3.len() < s.len());
        lemma_parse_items_enc(ld, rest);
        assert(seq![l[0]] + ld =~= l);
    }
}

/// Round trip: decoding what `encode` wrote yields exactly the encoded list,
/// never an error and never another list — so re-encoding it writes the very
/// same bytes back.
pub proof fn lemma_encode_then_decode(l: Seq<TodoView>)
    ensures
        decode_spec(enc_list(l)) == Some(l),
{
    let s = enc_list(l);
    assert(s[0] == LBRACKET);
    lemma_skip_ws_id(s);
    let r1 = enc_items(l) + seq![RBRACKET];
    assert(s.drop_first() =~= r1);
    if l.len() == 0 {
        assert(r1 =~= seq![RBRACKET]);
        lemma_skip_ws_id(r1);
        assert(r1[0] == RBRACKET);
        assert(r1.drop_first() =~= Seq::<u8>::empty());
        assert(parse_list(s) == Some(Seq::<TodoView>::empty()));
        assert(l =~= Seq::<TodoView>::empty());
    } else {
        assert(enc_items(l)[0] == LBRACE) by {
            if l.len() == 1 {
                assert(enc_items(l) == enc_todo(l[0]));
            }
            assert(enc_todo(l[0])[0] == LBRACE);
        }
        assert(r1[0] == LBRACE);
        lemma_skip_ws_id(r1);
        assert(r1 =~= enc_items(l) + seq![RBRACKET] + Seq::<u8>::empty());
        lemma_parse_items_enc(l, Seq::<u8>::empty());
        lemma_skip_ws_id(Seq::<u8>::empty());
    }
}

} // verus!
